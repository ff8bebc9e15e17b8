use usbfwd::proto::pdu::transfer_flags;
use usbfwd::proto::pdu::{
    BasicHeader, Body, CmdSubmit, CmdUnlink, Direction, Header, IsoPacketDescriptor, RetSubmit,
    DIR_IN, DIR_OUT, USBIP_CMD_UNLINK,
};
use usbfwd::proto::wire::{Reader, Writer};
use usbfwd::proto::{ProtoError, SIZE_ISO_DESC};

#[test]
fn command_header_is_48_bytes() {
    let h = Header::cmd_submit(
        BasicHeader {
            command: 0,
            seqnum: 1,
            devid: 0x10007,
            direction: DIR_IN,
            ep: 3,
        },
        CmdSubmit {
            transfer_flags: 0,
            transfer_buffer_length: 64,
            start_frame: 0,
            number_of_packets: -1,
            interval: 1,
            setup: [0; 8],
        },
    );
    assert_eq!(h.to_bytes().len(), 48);
    assert_eq!(Header::decode(&h.to_bytes()).unwrap(), h);
}

#[test]
fn all_four_bodies_roundtrip_at_48_bytes() {
    let base = BasicHeader {
        command: 0,
        seqnum: 42,
        devid: 7,
        direction: DIR_OUT,
        ep: 1,
    };
    let hs = [
        Header::cmd_submit(
            base,
            CmdSubmit {
                transfer_flags: transfer_flags::SHORT_NOT_OK,
                transfer_buffer_length: 8,
                start_frame: 0,
                number_of_packets: 0,
                interval: 0,
                setup: [0x21, 0x09, 0, 3, 0, 0, 64, 0],
            },
        ),
        Header::ret_submit(
            42,
            RetSubmit {
                status: -71,
                actual_length: 8,
                start_frame: 0,
                number_of_packets: 0,
                error_count: 0,
            },
        ),
        Header {
            base: BasicHeader {
                command: USBIP_CMD_UNLINK,
                ..base
            },
            body: Body::CmdUnlink(CmdUnlink { unlink_seqnum: 41 }),
        },
        Header::ret_unlink(42, -104),
    ];
    for h in hs {
        let b = h.to_bytes();
        assert_eq!(b.len(), 48);
        assert_eq!(Header::decode(&b).unwrap(), h);
    }
}

#[test]
fn replies_zero_the_routing_fields() {
    // stub_tx.c:setup_base_pdu zeroes these; matching it keeps us
    // indistinguishable from the in-tree server.
    let h = Header::ret_submit(9, RetSubmit::default());
    assert_eq!(h.base.devid, 0);
    assert_eq!(h.base.ep, 0);
    assert_eq!(h.base.direction, 0);
    assert_eq!(h.base.seqnum, 9);
}

#[test]
fn both_non_iso_encodings_read_as_non_iso() {
    for n in [0i32, -1i32] {
        let c = CmdSubmit {
            transfer_flags: 0,
            transfer_buffer_length: 0,
            start_frame: 0,
            number_of_packets: n,
            interval: 0,
            setup: [0; 8],
        };
        assert!(!c.is_iso(), "number_of_packets={n} should not mean iso");
        assert_eq!(c.iso_count(), 0);
    }
    let c = CmdSubmit {
        transfer_flags: 0,
        transfer_buffer_length: 0,
        start_frame: 0,
        number_of_packets: 4,
        interval: 0,
        setup: [0; 8],
    };
    assert!(c.is_iso());
    assert_eq!(c.iso_count(), 4);
}

#[test]
fn payload_follows_only_the_data_carrying_direction() {
    let c = CmdSubmit {
        transfer_flags: 0,
        transfer_buffer_length: 64,
        start_frame: 0,
        number_of_packets: 0,
        interval: 0,
        setup: [0; 8],
    };
    assert_eq!(c.payload_len(Direction::Out), 64);
    assert_eq!(c.payload_len(Direction::In), 0);

    let r = RetSubmit {
        status: 0,
        actual_length: 20,
        ..Default::default()
    };
    assert_eq!(r.payload_len(Direction::In), 20);
    assert_eq!(r.payload_len(Direction::Out), 0);
}

#[test]
fn negative_lengths_do_not_underflow() {
    let c = CmdSubmit {
        transfer_flags: 0,
        transfer_buffer_length: -5,
        start_frame: 0,
        number_of_packets: 0,
        interval: 0,
        setup: [0; 8],
    };
    assert_eq!(c.payload_len(Direction::Out), 0);
}

#[test]
fn unknown_command_is_rejected() {
    let mut w = Writer::new();
    w.u32(99);
    w.zeros(44);
    assert!(matches!(
        Header::decode(w.as_slice()),
        Err(ProtoError::BadCommand(99))
    ));
}

#[test]
fn iso_descriptor_is_16_bytes() {
    let d = IsoPacketDescriptor {
        offset: 1,
        length: 2,
        actual_length: 3,
        status: 4,
    };
    let mut w = Writer::new();
    d.encode(&mut w);
    assert_eq!(w.len(), SIZE_ISO_DESC);
    assert_eq!(
        IsoPacketDescriptor::decode(&mut Reader::new(w.as_slice())).unwrap(),
        d
    );
}
