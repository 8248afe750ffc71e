//! Numbers as text, byte fields and error codes.
use onyxos::bytes::{get_u16, get_u32, get_u64, put_u16, put_u32, put_u64};
use onyxos::errno::err;
use onyxos::text::{push_dec, push_dec_padded, push_hex, push_hex_padded, push_signed};

#[test]
fn decimal_and_hexadecimal() {
    let mut s = String::new();
    push_dec(&mut s, 0);
    s.push(' ');
    push_dec(&mut s, 18446744073709551615);
    s.push(' ');
    push_hex(&mut s, 0xB0C5);
    assert_eq!(s, "0 18446744073709551615 b0c5");
}

#[test]
fn padded_and_signed_numbers() {
    let mut s = String::new();
    push_dec_padded(&mut s, 7, 2);
    s.push(':');
    push_hex_padded(&mut s, 0xFD00_0000, 4);
    s.push(':');
    push_hex_padded(&mut s, 0x3F8, 8);
    s.push(':');
    push_signed(&mut s, -123);
    push_signed(&mut s, 45);
    assert_eq!(s, "07:fd000000:000003f8:-12345");
}

#[test]
fn fields_come_back_as_written() {
    let mut b = [0u8; 16];
    put_u16(&mut b, 0, 0xAA55);
    put_u32(&mut b, 2, 0x1234_5678);
    put_u64(&mut b, 6, 0x0102_0304_0506_0708);
    assert_eq!(b[0], 0x55);
    assert_eq!(b[2], 0x78);
    assert_eq!(b[6], 0x08);
    assert_eq!(get_u16(&b, 0), 0xAA55);
    assert_eq!(get_u32(&b, 2), 0x1234_5678);
    assert_eq!(get_u64(&b, 6), 0x0102_0304_0506_0708);
}

#[test]
fn errors_are_negative_numbers() {
    assert_eq!(err(2), 0xFFFF_FFFF_FFFF_FFFE);
    assert_eq!(err(38), (-38i64) as u64);
}
