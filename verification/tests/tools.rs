use h2okv::tools::{
    bytes_to_u16, bytes_to_u32, bytes_to_u64, get_db_file, u16_to_bytes, u32_to_bytes,
    u64_to_bytes, utf8_to_string,
};

#[test]
fn test_u16_to_bytes() {
    assert_eq!(&u16_to_bytes(0), &[0, 0]);
    assert_eq!(bytes_to_u16(&[0, 0]), 0);
    assert_eq!(&u16_to_bytes(1), &[1, 0]);
    assert_eq!(bytes_to_u16(&[1, 0]), 1);
    assert_eq!(&u16_to_bytes(2), &[2, 0]);
    assert_eq!(bytes_to_u16(&[2, 0]), 2);
    assert_eq!(&u16_to_bytes(256), &[0, 1]);
    assert_eq!(bytes_to_u16(&[0, 1]), 256);
    assert_eq!(&u16_to_bytes(257), &[1, 1]);
    assert_eq!(bytes_to_u16(&[1, 1]), 257);
    assert_eq!(&u16_to_bytes(65535), &[0xFF, 0xFF]);
    assert_eq!(bytes_to_u16(&[0xFF, 0xFF]), 0xFFFF);
}

#[test]
fn test_u32_to_bytes() {
    assert_eq!(&u32_to_bytes(0), &[0, 0, 0, 0]);
    assert_eq!(&u32_to_bytes(1), &[1, 0, 0, 0]);
    assert_eq!(&u32_to_bytes(2), &[2, 0, 0, 0]);
    assert_eq!(&u32_to_bytes(256), &[0, 1, 0, 0]);
    assert_eq!(&u32_to_bytes(257), &[1, 1, 0, 0]);
    assert_eq!(&u32_to_bytes(65535), &[0xFF, 0xFF, 0, 0]);
    assert_eq!(&u32_to_bytes(0x11111111), &[0x11, 0x11, 0x11, 0x11]);
    assert_eq!(&u32_to_bytes(0x12131415), &[0x15, 0x14, 0x13, 0x12]);
    assert_eq!(&u32_to_bytes(0xFFFF0001), &[1, 0, 0xFF, 0xFF]);
}

fn _u64_assert(number: u64, bytes_count: u8, buf: &[u8]) {
    assert_eq!(bytes_to_u64(buf), number);
    let (_count, _buf) = u64_to_bytes(number);
    assert_eq!(_count, bytes_count);
    assert_eq!(&_buf, &buf);
}

#[test]
fn test_u64_to_bytes_and_reverse() {
    _u64_assert(0, 0, &[]);
    _u64_assert(1, 1, &[1]);
    _u64_assert(2, 1, &[2]);
    _u64_assert(0xFF, 1, &[0xFF]);
    _u64_assert(0x100, 2, &[0, 1]);
    _u64_assert(0x101, 2, &[1, 1]);
    _u64_assert(0xFFFF, 2, &[0xFF, 0xFF]);
    _u64_assert(0x10000, 3, &[0, 0, 1]);
    _u64_assert(0x1000000, 4, &[0, 0, 0, 1]);
    _u64_assert(0x1000001, 4, &[1, 0, 0, 1]);
    _u64_assert(0x1010101, 4, &[1, 1, 1, 1]);
    _u64_assert(0x1111111, 4, &[17, 17, 17, 1]);
    _u64_assert(0xFFFFFFFF, 4, &[0xFF, 0xFF, 0xFF, 0xFF]);
    _u64_assert(0xFFFFFFFFFF, 5, &[0xFF, 0xFF, 0xFF, 0xFF, 0xFF]);
    _u64_assert(0x10101010101, 6, &[1, 1, 1, 1, 1, 1]);
    _u64_assert(0x1010101010101, 7, &[1, 1, 1, 1, 1, 1, 1]);
    _u64_assert(0x101010101010101, 8, &[1, 1, 1, 1, 1, 1, 1, 1]);
    _u64_assert(0x100000000000000, 8, &[0, 0, 0, 0, 0, 0, 0, 1]);
    _u64_assert(0x100000000000001, 8, &[1, 0, 0, 0, 0, 0, 0, 1]);
    _u64_assert(
        0xFFFFFFFFFFFFFFFF,
        8,
        &[0xFF, 0xFF, 0xFF, 0xFF, 0xFF, 0xFF, 0xFF, 0xFF],
    );
}

#[test]
fn test_bytes_to_u64_pads_missing_high_bytes() {
    assert_eq!(bytes_to_u64(&[]), 0);
    assert_eq!(bytes_to_u64(&[7]), 7);
    assert_eq!(bytes_to_u64(&[0, 0, 1]), 0x10000);
}

#[test]
fn test_bytes_to_u32() {
    assert_eq!(bytes_to_u32(&[0, 0, 0, 0]), 0);
    assert_eq!(bytes_to_u32(&[1, 1, 0, 0]), 257);
    assert_eq!(bytes_to_u32(&[1, 0, 0xFF, 0xFF]), 0xFFFF0001);
    assert_eq!(bytes_to_u32(&[2, 0]), 2);
}

#[test]
fn test_get_db_file() {
    assert_eq!(
        get_db_file(Some("/tmp/work")),
        Some("/tmp/work/h2okv.data".to_string())
    );
    assert_eq!(get_db_file(None), None);
}

#[test]
fn test_utf8_to_string() {
    assert_eq!(utf8_to_string("h2o".as_bytes()), Some("h2o".to_string()));
    assert_eq!(utf8_to_string(&[0xE5, 0xAE, 0x8F]), Some("\u{5b8f}".to_string()));
    assert_eq!(utf8_to_string(&[0xFF]), None);
    assert_eq!(utf8_to_string(&[]), Some(String::new()));
}
