use usbfwd::proto::wire::{Reader, Writer};
use usbfwd::proto::ProtoError;

#[test]
fn roundtrips_scalars() {
    let mut w = Writer::new();
    w.u8(0x11);
    w.u16(0x2233);
    w.u32(0x44556677);
    w.i32(-2);
    w.u64(0x0102030405060708);
    let v = w.into_vec();
    // Explicitly big-endian on the wire.
    assert_eq!(&v[..7], &[0x11, 0x22, 0x33, 0x44, 0x55, 0x66, 0x77]);
    assert_eq!(&v[7..11], &[0xff, 0xff, 0xff, 0xfe]);

    let mut r = Reader::new(&v);
    assert_eq!(r.u8().unwrap(), 0x11);
    assert_eq!(r.u16().unwrap(), 0x2233);
    assert_eq!(r.u32().unwrap(), 0x44556677);
    assert_eq!(r.i32().unwrap(), -2);
    assert_eq!(r.u64().unwrap(), 0x0102030405060708);
    assert_eq!(r.remaining(), 0);
}

#[test]
fn text_field_is_nul_padded_and_truncated() {
    let mut w = Writer::new();
    w.text_field("1-2", 8);
    assert_eq!(w.as_slice(), b"1-2\0\0\0\0\0");

    let mut w = Writer::new();
    w.text_field("abcdefghij", 4);
    // Always leaves room for the terminator.
    assert_eq!(w.as_slice(), b"abc\0");

    let mut r = Reader::new(b"1-2\0\0\0\0\0");
    assert_eq!(r.text_field(8).unwrap(), "1-2");
}

#[test]
fn truncation_is_an_error_not_a_panic() {
    let mut r = Reader::new(&[0u8; 3]);
    assert!(matches!(
        r.u32(),
        Err(ProtoError::Truncated { need: 4, have: 3 })
    ));
}
