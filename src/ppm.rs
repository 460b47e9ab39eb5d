use vstd::prelude::*;

verus! {

/// The ASCII decimal digits of `n`, most significant first, without leading zeros.
pub open spec fn decimal(n: nat) -> Seq<u8>
    decreases n,
{
    if n < 10 {
        seq![(48 + n) as u8]
    } else {
        decimal(n / 10).push((48 + n % 10) as u8)
    }
}

/// The plain-text raster header: `P3`, then `width height`, then the channel maximum
/// `255`, each on a line of its own.
pub open spec fn header_spec(width: nat, height: nat) -> Seq<u8> {
    seq![80u8, 51, 10] + decimal(width) + seq![32u8] + decimal(height) + seq![10u8, 50, 53, 53, 10]
}

/// One pixel's line: the three channels in decimal, separated by spaces.
pub open spec fn pixel_spec(r: nat, g: nat, b: nat) -> Seq<u8> {
    decimal(r) + seq![32u8] + decimal(g) + seq![32u8] + decimal(b) + seq![10u8]
}

/// The lines of `pixels`, in order.
pub open spec fn pixels_spec(pixels: Seq<(u8, u8, u8)>) -> Seq<u8>
    decreases pixels.len(),
{
    if pixels.len() == 0 {
        seq![]
    } else {
        let p = pixels.last();
        pixels_spec(pixels.drop_last()) + pixel_spec(p.0 as nat, p.1 as nat, p.2 as nat)
    }
}

/// Appends the decimal digits of `n` to `buf`.
pub fn push_decimal(buf: &mut Vec<u8>, n: u32)
    ensures
        final(buf)@ == old(buf)@ + decimal(n as nat),
    decreases n,
{
    if n >= 10 {
        push_decimal(buf, n / 10);
    }
    buf.push(48 + (n % 10) as u8);
    proof {
        if n >= 10 {
            assert(old(buf)@ + decimal(n as nat) =~= old(buf)@ + decimal((n / 10) as nat) + seq![
                (48 + n % 10) as u8,
            ]);
        }
    }
}

/// The header of a plain-text raster of `width` by `height` pixels.
pub fn header(width: u32, height: u32) -> (r: Vec<u8>)
    ensures
        r@ == header_spec(width as nat, height as nat),
{
    let mut buf: Vec<u8> = Vec::new();
    buf.push(80);
    buf.push(51);
    buf.push(10);
    push_decimal(&mut buf, width);
    buf.push(32);
    push_decimal(&mut buf, height);
    buf.push(10);
    buf.push(50);
    buf.push(53);
    buf.push(53);
    buf.push(10);
    assert(buf@ =~= header_spec(width as nat, height as nat));
    buf
}

/// Appends the line of one pixel with channels `r`, `g`, `b` to `buf`.
pub fn write_pixel(buf: &mut Vec<u8>, r: u8, g: u8, b: u8)
    ensures
        final(buf)@ == old(buf)@ + pixel_spec(r as nat, g as nat, b as nat),
{
    push_decimal(buf, r as u32);
    buf.push(32);
    push_decimal(buf, g as u32);
    buf.push(32);
    push_decimal(buf, b as u32);
    buf.push(10);
    assert(buf@ =~= old(buf)@ + pixel_spec(r as nat, g as nat, b as nat));
}

/// The whole plain-text raster: the header, then one line per pixel, row by row from the
/// top, each row from the left. `None` when `pixels` does not hold `width * height` pixels.
pub fn encode(width: u32, height: u32, pixels: &Vec<(u8, u8, u8)>) -> (r: Option<Vec<u8>>)
    ensures
        r.is_some() <==> pixels@.len() == width * height,
        r matches Some(bytes) ==> bytes@ == header_spec(width as nat, height as nat) + pixels_spec(
            pixels@,
        ),
{
    proof {
        assert(width as u64 * height as u64 <= u32::MAX as u64 * u32::MAX as u64) by (nonlinear_arith);
    }
    if pixels.len() as u64 != width as u64 * height as u64 {
        return None;
    }
    let mut buf = header(width, height);
    let mut i: usize = 0;
    while i < pixels.len()
        invariant
            i <= pixels@.len(),
            buf@ == header_spec(width as nat, height as nat) + pixels_spec(pixels@.subrange(0, i as int)),
        decreases pixels.len() - i,
    {
        let (r, g, b) = pixels[i];
        write_pixel(&mut buf, r, g, b);
        proof {
            let next = pixels@.subrange(0, i + 1);
            assert(next.drop_last() =~= pixels@.subrange(0, i as int));
            assert(next.last() == pixels@[i as int]);
        }
        i += 1;
    }
    assert(pixels@.subrange(0, pixels@.len() as int) =~= pixels@);
    Some(buf)
}

} // verus!
