use human_units::buffer::Buffer;

#[test]
fn buffer_write_u64_renders_decimal() {
    let mut buf: Buffer<20> = Buffer::new();
    buf.write_u64(0, 10000);
    assert_eq!(b"0", buf.as_slice());
    let mut buf: Buffer<20> = Buffer::new();
    buf.write_u64(90210, 100000000);
    assert_eq!(b"90210", buf.as_slice());
    let mut buf: Buffer<20> = Buffer::new();
    buf.write_u64(u64::MAX, 10000000000000000000);
    assert_eq!(b"18446744073709551615", buf.as_slice());
}

#[test]
fn buffer_write_u64_skips_leading_zeros() {
    let mut buf: Buffer<10> = Buffer::new();
    buf.write_u64(7, 1000);
    assert_eq!(b"7", buf.as_slice());
}

#[test]
fn buffer_write_byte_appends() {
    let mut buf: Buffer<4> = Buffer::new();
    buf.write_byte(b'a');
    buf.write_byte(b'b');
    assert_eq!(b"ab", buf.as_slice());
}

#[test]
fn buffer_write_str_truncates_at_capacity() {
    let mut buf: Buffer<4> = Buffer::new();
    buf.write_str("abc");
    assert_eq!(b"abc", buf.as_slice());
    buf.write_str("defg");
    assert_eq!(b"abcd", buf.as_slice());
    let mut buf: Buffer<8> = Buffer::new();
    buf.write_str("size");
    buf.write_str("text");
    assert_eq!(b"sizetext", buf.as_slice());
}
