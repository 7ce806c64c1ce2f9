//! Fixed-width fields and text.

use p99_logger_client::bytes::{
    cstr, decimal_bytes, put_string, read_be16, read_be32, read_le16, read_le32, FieldOverflow,
};
use p99_logger_client::text::{join, push_decimal, push_hex4};

#[test]
fn integers_are_read_in_both_byte_orders() {
    let data = [0x12, 0x34, 0x56, 0x78];
    assert_eq!(read_be16(&data, 1), 0x3456);
    assert_eq!(read_le16(&data, 1), 0x5634);
    assert_eq!(read_be32(&data, 0), 0x1234_5678);
    assert_eq!(read_le32(&data, 0), 0x7856_3412);
}

#[test]
fn text_fits_its_field_or_is_refused() {
    let mut field = [0xff; 4];
    put_string(&mut field, "ab").unwrap();
    assert_eq!(field, [b'a', b'b', 0xff, 0xff]);
    assert_eq!(put_string(&mut field, "abcd"), Err(FieldOverflow));
    assert_eq!(put_string(&mut field, "a\0"), Err(FieldOverflow));
    assert_eq!(cstr(b"ab\0c"), b"ab");
    assert_eq!(cstr(b"abc"), b"abc");
}

#[test]
fn numbers_are_written_without_leading_zeros() {
    assert_eq!(decimal_bytes(0), b"0");
    assert_eq!(decimal_bytes(4_294_967_295), b"4294967295");
    let mut text = String::new();
    push_decimal(&mut text, 1050);
    push_hex4(&mut text, 0x0a0f);
    assert_eq!(text, "10500a0f");
    assert_eq!(
        join(&vec!["a".into(), "b".into(), "c".into()], ", "),
        "a, b, c"
    );
}
