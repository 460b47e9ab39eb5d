use vstd::prelude::*;

verus! {

/// Bytes that one pixel takes in the buffer: red, green, blue.
pub const BYTES_PER_PIXEL: i32 = 3;

/// `x` held to the half-open range `[low, high)`.
pub open spec fn clamp_spec(x: int, low: int, high: int) -> int {
    if x < low {
        low
    } else if x < high {
        x
    } else {
        high - 1
    }
}

/// An RGB8 image held row by row, the top row first.
pub struct RtwImage {
    data: Vec<u8>,
    image_width: i32,
    image_height: i32,
    bytes_per_scanline: i32,
}

impl RtwImage {
    /// At least one pixel, one byte triple per pixel, and every byte offset fits in `i32`.
    #[verifier::type_invariant]
    spec fn wf(&self) -> bool {
        &&& self.image_width >= 1
        &&& self.image_height >= 1
        &&& self.bytes_per_scanline == self.image_width * BYTES_PER_PIXEL
        &&& self.data@.len() == self.image_width * self.image_height * BYTES_PER_PIXEL
        &&& self.data@.len() <= i32::MAX
    }

    pub closed spec fn width_spec(&self) -> int {
        self.image_width as int
    }

    pub closed spec fn height_spec(&self) -> int {
        self.image_height as int
    }

    /// The bytes of the image, row-major, three per pixel.
    pub closed spec fn bytes(&self) -> Seq<u8> {
        self.data@
    }

    /// Offset of the first byte of pixel `(x, y)`, both clamped into the image.
    pub open spec fn offset_spec(&self, x: int, y: int) -> int {
        (clamp_spec(y, 0, self.height_spec()) * self.width_spec() + clamp_spec(x, 0, self.width_spec()))
            * 3
    }

    /// The three bytes of pixel `(x, y)`, both clamped into the image.
    pub open spec fn pixel_spec(&self, x: int, y: int) -> Seq<u8> {
        self.bytes().subrange(self.offset_spec(x, y), self.offset_spec(x, y) + 3)
    }

    /// Takes a decoded RGB8 buffer of `width` by `height` pixels. Gives `None` when the
    /// buffer does not hold exactly three bytes per pixel, when the image is empty, or when
    /// its byte count does not fit in `i32`.
    pub fn new(data: Vec<u8>, width: u32, height: u32) -> (r: Option<RtwImage>)
        ensures
            r.is_some() <==> (width >= 1 && height >= 1 && data@.len() == width * height * 3
                && data@.len() <= i32::MAX),
            r matches Some(img) ==> img.width_spec() == width && img.height_spec()
                == height && img.bytes() == data@,
    {
        if width == 0 || height == 0 || data.len() > i32::MAX as usize {
            return None;
        }
        let n = data.len() as u64;
        let w = width as u64;
        let h = height as u64;
        if n / 3 % w != 0 || n % 3 != 0 || n / 3 / w != h {
            proof {
                assert(n != w * h * 3) by (nonlinear_arith)
                    requires
                        w >= 1,
                        h >= 1,
                        n / 3 % w != 0 || n % 3 != 0 || n / 3 / w != h,
                ;
            }
            return None;
        }
        proof {
            assert(n == w * h * 3) by (nonlinear_arith)
                requires
                    w >= 1,
                    n / 3 % w == 0,
                    n % 3 == 0,
                    n / 3 / w == h,
            ;
            assert(w * 3 <= n) by (nonlinear_arith)
                requires
                    n == w * h * 3,
                    h >= 1,
            ;
        }
        let image_width = width as i32;
        Some(
            RtwImage {
                data,
                image_width,
                image_height: height as i32,
                bytes_per_scanline: image_width * BYTES_PER_PIXEL,
            },
        )
    }

    pub fn width(&self) -> (r: i32)
        ensures
            r == self.width_spec(),
    {
        self.image_width
    }

    pub fn height(&self) -> (r: i32)
        ensures
            r == self.height_spec(),
    {
        self.image_height
    }

    /// The three bytes of the pixel at `(x, y)`; a coordinate outside the image is
    /// clamped to the nearest row or column.
    pub fn pixel_data(&self, x: i32, y: i32) -> (r: [u8; 3])
        ensures
            r@ == self.pixel_spec(x as int, y as int),
    {
        proof {
            use_type_invariant(self);
        }
        let x = Self::clamp(x, 0, self.image_width);
        let y = Self::clamp(y, 0, self.image_height);
        proof {
            let w = self.image_width as int;
            let h = self.image_height as int;
            assert(0 <= y * w + x < w * h) by (nonlinear_arith)
                requires
                    0 <= x < w,
                    0 <= y < h,
            ;
            assert(y * (w * 3) + x * 3 == (y * w + x) * 3) by (nonlinear_arith);
            assert((y * w + x) * 3 + 3 <= w * h * 3) by (nonlinear_arith)
                requires
                    y * w + x < w * h,
            ;
            assert(0 <= y * (w * 3)) by (nonlinear_arith)
                requires
                    0 <= y,
                    0 <= w,
            ;
            assert(y * (w * 3) <= (y * w + x) * 3) by (nonlinear_arith)
                requires
                    0 <= x,
                    y * (w * 3) + x * 3 == (y * w + x) * 3,
            ;
        }
        let i = (y * self.bytes_per_scanline + x * BYTES_PER_PIXEL) as usize;
        let r = [self.data[i], self.data[i + 1], self.data[i + 2]];
        assert(r@ =~= self.pixel_spec(x as int, y as int));
        r
    }

    /// `x` held to the half-open range `[low, high)`.
    fn clamp(x: i32, low: i32, high: i32) -> (r: i32)
        requires
            low < high,
        ensures
            r == clamp_spec(x as int, low as int, high as int),
    {
        if x < low {
            low
        } else if x < high {
            x
        } else {
            high - 1
        }
    }
}

impl Clone for RtwImage {
    fn clone(&self) -> (r: RtwImage)
        ensures
            r.width_spec() == self.width_spec(),
            r.height_spec() == self.height_spec(),
            r.bytes() == self.bytes(),
    {
        proof {
            use_type_invariant(self);
        }
        RtwImage {
            data: self.data.clone(),
            image_width: self.image_width,
            image_height: self.image_height,
            bytes_per_scanline: self.bytes_per_scanline,
        }
    }
}

} // verus!
