use raytracer::ppm::{encode, header, push_decimal, write_pixel};

#[test]
fn decimal_digits() {
    let mut buf = vec![];
    push_decimal(&mut buf, 0);
    assert_eq!(buf, b"0");
    let mut buf = b"x".to_vec();
    push_decimal(&mut buf, 10);
    assert_eq!(buf, b"x10");
    let mut buf = vec![];
    push_decimal(&mut buf, u32::MAX);
    assert_eq!(buf, b"4294967295");
}

#[test]
fn header_names_size_and_maximum() {
    assert_eq!(header(400, 225), b"P3\n400 225\n255\n");
    assert_eq!(header(0, 1), b"P3\n0 1\n255\n");
}

#[test]
fn pixel_line_has_three_channels() {
    let mut buf = vec![];
    write_pixel(&mut buf, 255, 0, 9);
    write_pixel(&mut buf, 10, 128, 99);
    assert_eq!(String::from_utf8(buf).unwrap(), "255 0 9\n10 128 99\n");
}

#[test]
fn encode_writes_rows_in_order() {
    let pixels = vec![(1, 2, 3), (4, 5, 6), (7, 8, 9), (255, 255, 255)];
    let out = encode(2, 2, &pixels).unwrap();
    assert_eq!(
        String::from_utf8(out).unwrap(),
        "P3\n2 2\n255\n1 2 3\n4 5 6\n7 8 9\n255 255 255\n"
    );
}

#[test]
fn encode_refuses_a_wrong_pixel_count() {
    let pixels = vec![(0, 0, 0); 3];
    assert!(encode(2, 2, &pixels).is_none());
    assert!(encode(4, 1, &pixels).is_none());
    assert_eq!(encode(3, 1, &pixels).unwrap(), b"P3\n3 1\n255\n0 0 0\n0 0 0\n0 0 0\n");
    assert_eq!(encode(0, 5, &vec![]).unwrap(), b"P3\n0 5\n255\n");
}
