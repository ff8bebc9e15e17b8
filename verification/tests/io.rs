use usbfwd::proto::device::{UsbDevice, UsbInterface};
use usbfwd::proto::io::{
    read_devlist_reply, read_import_reply, read_op_request, read_pdu, read_ret_submit,
    write_ret_submit, ErrorKind, OpRequest,
};
use usbfwd::proto::op::{
    encode_devlist_reply, encode_devlist_request, encode_import_reply, encode_import_request,
};
use usbfwd::proto::pdu::{
    BasicHeader, Body, CmdSubmit, CmdUnlink, Direction, Header, IsoPacketDescriptor, RetSubmit,
    DIR_IN, DIR_OUT, USBIP_CMD_UNLINK,
};
use usbfwd::proto::wire::Writer;
use usbfwd::proto::{SIZE_CMD_HEADER, SIZE_OP_HEADER, SIZE_USB_DEVICE};

fn submit(dir: u32, len: i32, npkt: i32) -> Header {
    Header::cmd_submit(
        BasicHeader {
            command: 0,
            seqnum: 5,
            devid: 1,
            direction: dir,
            ep: 2,
        },
        CmdSubmit {
            transfer_flags: 0,
            transfer_buffer_length: len,
            start_frame: 0,
            number_of_packets: npkt,
            interval: 0,
            setup: [0; 8],
        },
    )
}

#[test]
fn reads_an_out_submit_with_its_payload() {
    let mut w = Writer::new();
    submit(DIR_OUT, 4, -1).encode(&mut w);
    w.bytes(&[1, 2, 3, 4]);
    let buf = w.into_vec();
    let pdu = read_pdu(&mut &buf[..], 65536).unwrap();
    assert_eq!(pdu.data, vec![1, 2, 3, 4]);
    assert!(pdu.iso.is_empty());
}

#[test]
fn an_in_submit_has_no_payload_despite_a_nonzero_length() {
    let mut w = Writer::new();
    submit(DIR_IN, 64, 0).encode(&mut w);
    let buf = w.into_vec();
    let mut cur = &buf[..];
    let pdu = read_pdu(&mut cur, 65536).unwrap();
    assert!(pdu.data.is_empty());
    assert_eq!(cur.len(), 0, "must not over-read into the next PDU");
}

#[test]
fn two_pdus_back_to_back_stay_in_frame() {
    let mut w = Writer::new();
    submit(DIR_OUT, 2, -1).encode(&mut w);
    w.bytes(&[0xaa, 0xbb]);
    Header {
        base: BasicHeader {
            command: USBIP_CMD_UNLINK,
            seqnum: 6,
            devid: 1,
            direction: 0,
            ep: 0,
        },
        body: Body::CmdUnlink(CmdUnlink { unlink_seqnum: 5 }),
    }
    .encode(&mut w);
    let buf = w.into_vec();
    let mut cur = &buf[..];
    assert_eq!(read_pdu(&mut cur, 65536).unwrap().data, vec![0xaa, 0xbb]);
    let second = read_pdu(&mut cur, 65536).unwrap();
    assert_eq!(second.header.base.seqnum, 6);
    assert_eq!(cur.len(), 0);
}

#[test]
fn iso_descriptors_are_consumed_so_the_stream_stays_aligned() {
    // We refuse to *service* isochronous transfers, but we still have to
    // parse them or the next PDU lands mid-frame.
    let mut w = Writer::new();
    submit(DIR_OUT, 0, 3).encode(&mut w);
    for i in 0..3u32 {
        IsoPacketDescriptor {
            offset: i,
            length: 8,
            actual_length: 0,
            status: 0,
        }
        .encode(&mut w);
    }
    let buf = w.into_vec();
    let mut cur = &buf[..];
    let pdu = read_pdu(&mut cur, 65536).unwrap();
    assert_eq!(pdu.iso.len(), 3);
    assert_eq!(pdu.iso[2].offset, 2);
    assert_eq!(cur.len(), 0);
}

#[test]
fn an_oversized_transfer_is_refused_before_allocating() {
    let mut w = Writer::new();
    submit(DIR_OUT, i32::MAX, 0).encode(&mut w);
    let buf = w.into_vec();
    let err = read_pdu(&mut &buf[..], 4096).unwrap_err();
    assert_eq!(err.kind(), ErrorKind::InvalidData);
}

#[test]
fn op_requests_decode() {
    let b = encode_devlist_request();
    assert_eq!(
        read_op_request(&mut &b[..]).unwrap(),
        Some(OpRequest::DevList)
    );
    let b = encode_import_request("1-4");
    assert_eq!(
        read_op_request(&mut &b[..]).unwrap(),
        Some(OpRequest::Import {
            busid: "1-4".into()
        })
    );
}

#[test]
fn devlist_replies_of_mixed_interface_counts_stay_in_frame() {
    let mk = |busid: &str, n: u8| UsbDevice {
        busid: busid.into(),
        b_num_interfaces: n,
        interfaces: vec![
            UsbInterface {
                class: 3,
                subclass: 0,
                protocol: 0
            };
            n as usize
        ],
        ..Default::default()
    };
    // A 7-interface puck next to a 1-interface wired controller: the
    // records are different lengths, which is exactly where an
    // off-by-one framing bug would show up.
    let devs = vec![mk("3-12", 7), mk("1-4", 1), mk("2-1", 0)];
    let wire = encode_devlist_reply(&devs);
    let mut cur = &wire[..];
    assert_eq!(read_devlist_reply(&mut cur).unwrap(), devs);
    assert_eq!(cur.len(), 0);
}

#[test]
fn a_refused_reply_is_an_error_not_an_empty_list() {
    let wire = encode_import_reply(None);
    let err = read_import_reply(&mut &wire[..]).unwrap_err();
    assert!(err.to_string().contains("refused"));
}

#[test]
fn an_import_reply_carries_no_interface_array() {
    let d = UsbDevice {
        busid: "3-12".into(),
        b_num_interfaces: 7,
        ..Default::default()
    };
    let wire = encode_import_reply(Some(&d));
    assert_eq!(wire.len(), SIZE_OP_HEADER + SIZE_USB_DEVICE);
    let got = read_import_reply(&mut &wire[..]).unwrap();
    assert_eq!(got.busid, "3-12");
    assert!(got.interfaces.is_empty());
}

#[test]
fn ret_submit_writes_header_and_payload_together() {
    let mut out = Vec::new();
    write_ret_submit(
        &mut out,
        7,
        RetSubmit {
            status: 0,
            actual_length: 3,
            ..Default::default()
        },
        &[9, 8, 7],
    )
    .unwrap();
    assert_eq!(out.len(), SIZE_CMD_HEADER + 3);
    let (h, data) = read_ret_submit(
        &mut &out[..],
        |s| {
            assert_eq!(s, 7);
            Some(Direction::In)
        },
        65536,
    )
    .unwrap();
    assert_eq!(h.base.seqnum, 7);
    assert_eq!(data, vec![9, 8, 7]);
}
