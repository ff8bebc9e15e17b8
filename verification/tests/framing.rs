use usbfwd::backend::descriptors::{parse, DT_CONFIG, DT_DEVICE, DT_INTERFACE};
use usbfwd::backend::enumerate::summarize;
use usbfwd::backend::usbfs::active_config;
use usbfwd::backend::InterfaceSummary;
use usbfwd::proto::device::{Speed, UsbDevice};
use usbfwd::proto::io::{
    pdu_tail, read_import_reply, read_op_header, read_op_request, read_pdu, read_ret_submit,
    write_header, write_ret_submit, write_ret_unlink, Error, ErrorKind,
};
use usbfwd::proto::op::{
    decode_import_reply_body, encode_devlist_reply, encode_import_reply, encode_import_request,
    OpHeader, OP_REP_IMPORT, ST_OK,
};
use usbfwd::proto::pdu::{BasicHeader, Body, CmdSubmit, Direction, Header, RetSubmit};
use usbfwd::proto::wire::{Reader, Writer};
use usbfwd::proto::{ProtoError, SIZE_OP_HEADER};
use usbfwd::server::names::NameSet;
use usbfwd::server::toggle::Toggle;

fn submit(direction: u32, len: i32, packets: i32) -> Header {
    Header::cmd_submit(
        BasicHeader {
            command: 0,
            seqnum: 5,
            devid: 1,
            direction,
            ep: 2,
        },
        CmdSubmit {
            transfer_flags: 0,
            transfer_buffer_length: len,
            start_frame: 0,
            number_of_packets: packets,
            interval: 0,
            setup: [0; 8],
        },
    )
}

#[test]
fn every_protocol_error_has_its_message() {
    let said = |e: ProtoError| e.to_string();
    assert_eq!(
        said(ProtoError::Truncated { need: 4, have: 3 }),
        "truncated message: needed 4 more bytes, had 3"
    );
    assert_eq!(
        said(ProtoError::BadVersion(0x0106)),
        "peer speaks USB/IP version 0x0106, expected 0x0111"
    );
    assert_eq!(
        said(ProtoError::BadCommand(99)),
        "unknown USB/IP command 0x00000063"
    );
    assert_eq!(
        said(ProtoError::TooLarge {
            field: "devlist count",
            value: -7,
            max: 1024
        }),
        "devlist count = -7 exceeds the limit of 1024"
    );
    assert_eq!(said(ProtoError::Utf8), "text field is not valid UTF-8");
}

#[test]
fn a_stream_that_ends_early_says_what_is_missing() {
    let mut cur: &[u8] = &[0x01, 0x11];
    let e = read_op_header(&mut cur).unwrap_err();
    assert_eq!(e, Error::UnexpectedEof { missing: 6 });
    assert_eq!(e.kind(), ErrorKind::UnexpectedEof);
    assert_eq!(e.to_string(), "failed to fill whole buffer");

    let req = encode_import_request("1-2");
    let e = read_op_request(&mut &req[..20]).unwrap_err();
    assert_eq!(e, Error::UnexpectedEof { missing: 20 });
}

#[test]
fn replies_of_the_wrong_kind_are_errors() {
    let wire = encode_devlist_reply(&[]);
    let e = read_import_reply(&mut &wire[..]).unwrap_err();
    assert_eq!(
        e,
        Error::UnexpectedReply {
            expected: 0x0003,
            got: 0x0005
        }
    );
    assert_eq!(e.to_string(), "expected reply 0x0003, got 0x0005");
    assert_eq!(e.kind(), ErrorKind::InvalidData);

    let wire = encode_import_reply(None);
    let e = read_import_reply(&mut &wire[..]).unwrap_err();
    assert_eq!(e, Error::Refused { status: 1 });
    assert_eq!(e.to_string(), "peer refused the request (status 1)");
    assert_eq!(e.kind(), ErrorKind::Other);

    let mut wire = encode_import_reply(None);
    wire[1] = 0x06;
    let e = read_import_reply(&mut &wire[..]).unwrap_err();
    assert_eq!(e, Error::Proto(ProtoError::BadVersion(0x0106)));
}

#[test]
fn a_reply_is_no_command() {
    let mut wire = Vec::new();
    write_ret_unlink(&mut wire, 7, -104).unwrap();
    let e = read_pdu(&mut &wire[..], 4096).unwrap_err();
    assert_eq!(e, Error::NotACommand { command: 4 });
    assert_eq!(
        e.to_string(),
        "expected a USBIP_CMD_* message, got command 4"
    );
    let e = read_ret_submit(&mut &wire[..], |_| Some(Direction::In), 4096).unwrap_err();
    assert_eq!(e, Error::NotARetSubmit);
    assert_eq!(e.to_string(), "expected USBIP_RET_SUBMIT");
}

#[test]
fn a_reply_that_nobody_waits_for_is_an_error() {
    let mut wire = Vec::new();
    write_ret_submit(&mut wire, 7, RetSubmit::default(), &[]).unwrap();
    let e = read_ret_submit(&mut &wire[..], |_| None, 4096).unwrap_err();
    assert_eq!(e, Error::UnknownSeqnum { seqnum: 7 });
    assert_eq!(e.to_string(), "reply for unknown seqnum 7");
}

#[test]
fn lengths_are_checked_before_anything_is_read() {
    assert_eq!(pdu_tail(&submit(0, 64, 0), 4096), Ok((64, 0)));
    assert_eq!(pdu_tail(&submit(1, 64, 3), 4096), Ok((0, 3)));
    assert_eq!(
        pdu_tail(&submit(0, -1, 0), 4096),
        Err(Error::Proto(ProtoError::TooLarge {
            field: "transfer_buffer_length",
            value: -1,
            max: 4096
        }))
    );
    assert_eq!(
        pdu_tail(&submit(0, 0, 1025), 4096),
        Err(Error::Proto(ProtoError::TooLarge {
            field: "number_of_packets",
            value: 1025,
            max: 1024
        }))
    );
    assert_eq!(submit(0, 0, 3).iso_bytes(), 48);
    assert_eq!(submit(0, 0, -1).iso_bytes(), 0);
}

#[test]
fn a_written_header_is_read_back() {
    let h = submit(1, 64, 0);
    let mut wire = Vec::new();
    write_header(&mut wire, &h).unwrap();
    wire.push(9);
    let mut cur = &wire[..];
    let pdu = read_pdu(&mut cur, 4096).unwrap();
    assert_eq!(pdu.header, h);
    assert_eq!(cur, &[9]);
    assert!(matches!(pdu.header.body, Body::CmdSubmit(_)));
}

#[test]
fn an_import_reply_body_is_a_bare_record() {
    let d = UsbDevice {
        busid: "3-12".into(),
        path: "/sys/x".into(),
        ..Default::default()
    };
    let wire = encode_import_reply(Some(&d));
    assert_eq!(
        read_op_header(&mut &wire[..]).unwrap(),
        OpHeader::new(OP_REP_IMPORT, ST_OK)
    );
    assert_eq!(decode_import_reply_body(&wire[SIZE_OP_HEADER..]).unwrap(), d);
    assert_eq!(d.encoded_len(false), 312);
    let mut bad = wire.clone();
    bad[SIZE_OP_HEADER] = 0xff;
    assert_eq!(
        decode_import_reply_body(&bad[SIZE_OP_HEADER..]),
        Err(ProtoError::Utf8)
    );
}

#[test]
fn readers_keep_their_place() {
    let mut r = Reader::new(&[1, 2, 3, 4]);
    r.skip(2).unwrap();
    assert_eq!(r.position(), 2);
    assert_eq!(
        r.skip(3),
        Err(ProtoError::Truncated { need: 3, have: 2 })
    );
    assert_eq!(r.bytes(2).unwrap(), &[3, 4]);
    let mut w = Writer::with_capacity(8);
    assert!(w.is_empty());
    w.text_field("ä", 2);
    // A character that does not fit is cut, and there is always a terminator.
    assert_eq!(w.as_slice(), &[0xc3, 0]);
}

#[test]
fn speeds_and_directions_have_numbers() {
    assert_eq!(Speed::from_raw(3), Speed::High);
    assert_eq!(Speed::from_raw(99), Speed::Unknown);
    assert_eq!(Speed::from_sysfs("1.5"), Speed::Low);
    assert_eq!(Speed::from_sysfs("20000"), Speed::SuperPlus);
    assert_eq!(Direction::from_raw(1), Direction::In);
    assert_eq!(Direction::from_raw(0), Direction::Out);
}

#[test]
fn the_configuration_in_effect_is_looked_for_in_order() {
    let mut b = vec![
        18, DT_DEVICE, 0, 2, 0, 0, 0, 64, 1, 0, 2, 0, 0, 1, 0, 0, 0, 2,
    ];
    for value in [1u8, 2u8] {
        b.extend_from_slice(&[9, DT_CONFIG, 18, 0, 1, value, 0, 0x80, 50]);
        b.extend_from_slice(&[9, DT_INTERFACE, 0, 0, 0, 3, value, 0, 0]);
    }
    let d = parse(&b).unwrap();
    assert_eq!(active_config(&d, Some(2), Some(1)), 2);
    assert_eq!(active_config(&d, Some(9), Some(2)), 2);
    assert_eq!(active_config(&d, None, None), 1);
    let s = summarize(&d, 2, 1, 7, "1-2".to_string(), None).unwrap();
    assert_eq!(s.sys_path, "/dev/bus/usb/001/007");
    assert_eq!(s.interfaces[0].sub_class, 2);
    assert_eq!(
        InterfaceSummary::list_from(d.config(2).unwrap()),
        s.interfaces
    );
    assert!(summarize(&d, 3, 1, 7, "1-2".to_string(), None).is_err());
}

#[test]
fn names_are_kept_in_order() {
    let mut s = NameSet::new();
    assert!(s.insert("1-3"));
    assert!(s.insert("1-2"));
    assert!(!s.insert("1-3"));
    assert!(s.contains("1-2"));
    let mut t = Toggle::new();
    t.suspend("2-1");
    t.suspend("10-1");
    assert!(t.is_suspended("2-1"));
    assert_eq!(t.list(), vec!["10-1", "2-1"]);
}
