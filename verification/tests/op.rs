use usbfwd::proto::device::UsbDevice;
use usbfwd::proto::op::{
    decode_devlist_reply_body, decode_import_request_body, encode_devlist_reply,
    encode_import_reply, encode_import_request, OpHeader, OP_REP_DEVLIST, OP_REQ_DEVLIST,
    OP_REQ_IMPORT, ST_NA,
};
use usbfwd::proto::wire::Writer;
use usbfwd::proto::{ProtoError, BUSID_LEN, SIZE_OP_HEADER};

#[test]
fn op_header_is_eight_bytes_big_endian() {
    let h = OpHeader::new(OP_REQ_DEVLIST, 0);
    assert_eq!(h.to_bytes(), [0x01, 0x11, 0x80, 0x05, 0, 0, 0, 0]);
    assert_eq!(OpHeader::from_bytes(&h.to_bytes()).unwrap(), h);
}

#[test]
fn version_mismatch_is_rejected() {
    let mut h = OpHeader::new(OP_REQ_IMPORT, 0);
    h.version = 0x0106;
    assert!(matches!(
        h.check_version(),
        Err(ProtoError::BadVersion(0x0106))
    ));
}

#[test]
fn import_request_roundtrip() {
    let buf = encode_import_request("1-2.3");
    assert_eq!(buf.len(), SIZE_OP_HEADER + BUSID_LEN);
    let h = OpHeader::from_bytes(&buf[..SIZE_OP_HEADER]).unwrap();
    assert_eq!(h.code, OP_REQ_IMPORT);
    assert_eq!(
        decode_import_request_body(&buf[SIZE_OP_HEADER..]).unwrap(),
        "1-2.3"
    );
}

#[test]
fn import_failure_carries_no_body() {
    let buf = encode_import_reply(None);
    assert_eq!(buf.len(), SIZE_OP_HEADER);
    assert_eq!(OpHeader::from_bytes(&buf).unwrap().status, ST_NA);
}

#[test]
fn devlist_roundtrip() {
    let d = UsbDevice {
        busid: "1-2".into(),
        b_num_interfaces: 2,
        interfaces: vec![Default::default(); 2],
        ..Default::default()
    };
    let buf = encode_devlist_reply(std::slice::from_ref(&d));
    let h = OpHeader::from_bytes(&buf[..SIZE_OP_HEADER]).unwrap();
    assert_eq!(h.code, OP_REP_DEVLIST);
    let got = decode_devlist_reply_body(&buf[SIZE_OP_HEADER..]).unwrap();
    assert_eq!(got, vec![d]);
}

#[test]
fn absurd_device_count_is_refused_before_allocating() {
    let mut w = Writer::new();
    w.u32(u32::MAX);
    assert!(decode_devlist_reply_body(w.as_slice()).is_err());
}
