use usbfwd::backend::descriptors::{TransferType, DT_CONFIG, DT_DEVICE, DT_ENDPOINT, DT_INTERFACE};
use usbfwd::backend::sys::{
    USBDEVFS_CAP_ZERO_PACKET, USBDEVFS_URB_NO_INTERRUPT, USBDEVFS_URB_SHORT_NOT_OK,
    USBDEVFS_URB_TYPE_BULK, USBDEVFS_URB_TYPE_CONTROL, USBDEVFS_URB_TYPE_INTERRUPT,
    USBDEVFS_URB_TYPE_ISO, USBDEVFS_URB_ZERO_PACKET,
};
use usbfwd::backend::usbfs::{
    claim_step, device_busid, payload_len, reap_error, reconnect_step, special_done, urb_type,
    ClaimCall, ClaimStep, DeviceFacts, HandBack, OpenError, ReconnectStep, Special, Submission,
    Urb, UsbfsDevice, DEFAULT_MAX_TRANSFER,
};
use usbfwd::backend::{SubmitError, UrbRequest};
use usbfwd::proto::device::Speed;
use usbfwd::proto::pdu::transfer_flags::{NO_INTERRUPT, SHORT_NOT_OK, ZERO_PACKET};
use usbfwd::proto::pdu::Direction;
use usbfwd::server::prefetch::Prefetch;
use usbfwd::server::session::{Session, Stats};

/// The four requests `tweak_special_requests()` intercepts in
/// `drivers/usb/usbip/stub_rx.c`. Forwarding any of them as a raw control
/// URB leaves the exporting kernel's idea of the device out of step with
/// the device — for SET_CONFIGURATION that means stale data toggles, and
/// an interrupt IN endpoint that never completes another URB.
#[test]
fn state_changing_standard_requests_are_intercepted() {
    // SET_CONFIGURATION(1): bmRequestType 0x00, bRequest 0x09.
    assert_eq!(
        Special::classify(&[0x00, 0x09, 0x01, 0x00, 0x00, 0x00, 0x00, 0x00]),
        Some(Special::SetConfiguration(1))
    );
    // SET_INTERFACE(interface 2, alt 1): type 0x01, request 0x0b.
    assert_eq!(
        Special::classify(&[0x01, 0x0b, 0x01, 0x00, 0x02, 0x00, 0x00, 0x00]),
        Some(Special::SetInterface {
            interface: 2,
            alt: 1
        })
    );
    // CLEAR_FEATURE(ENDPOINT_HALT) on ep 0x81: type 0x02, request 0x01,
    // wValue 0 (ENDPOINT_HALT).
    assert_eq!(
        Special::classify(&[0x02, 0x01, 0x00, 0x00, 0x81, 0x00, 0x00, 0x00]),
        Some(Special::ClearHalt(0x81))
    );
    // SET_ADDRESS(5): acknowledged, never acted on.
    assert_eq!(
        Special::classify(&[0x00, 0x05, 0x05, 0x00, 0x00, 0x00, 0x00, 0x00]),
        Some(Special::SetAddress(5))
    );
}

#[test]
fn ordinary_control_traffic_is_left_alone() {
    // GET_DESCRIPTOR(HID report) — device-to-host, so not special even
    // though 0x06 is a standard request.
    assert_eq!(
        Special::classify(&[0x81, 0x06, 0x00, 0x22, 0x00, 0x00, 0x74, 0x01]),
        None
    );
    // GET_CONFIGURATION reads the same state SET_CONFIGURATION writes;
    // the direction bit is the only thing telling them apart.
    assert_eq!(
        Special::classify(&[0x80, 0x08, 0x00, 0x00, 0x00, 0x00, 0x01, 0x00]),
        None
    );
    // SET_IDLE — a HID class request usbhid sends on open. Class, not
    // standard, so it must still go to the device as a URB.
    assert_eq!(
        Special::classify(&[0x21, 0x0a, 0x00, 0x00, 0x00, 0x00, 0x00, 0x00]),
        None
    );
    // CLEAR_FEATURE with a non-zero selector is not ENDPOINT_HALT and
    // must not be turned into a toggle reset.
    assert_eq!(
        Special::classify(&[0x02, 0x01, 0x01, 0x00, 0x81, 0x00, 0x00, 0x00]),
        None
    );
}

/// The sizing rule of `submit`, which is the one place a disagreement between
/// the two lengths turns into `-EINVAL` from the kernel rather than a visible
/// bug here.
fn control_payload_len(setup: &[u8; 8], transfer_buffer_length: usize) -> usize {
    payload_len(setup, transfer_buffer_length, true)
}

#[test]
fn control_payload_is_sized_from_whichever_length_is_larger() {
    // GET_DESCRIPTOR(HID report), wLength = 64. devio.c re-reads the
    // length out of the setup packet and checks our buffer against it, so
    // a client that sends transfer_buffer_length = 0 must not produce a
    // zero-sized allocation.
    let setup = [0x80u8, 0x06, 0x00, 0x22, 0x00, 0x00, 0x40, 0x00];
    assert_eq!(control_payload_len(&setup, 0), 64);
    assert_eq!(control_payload_len(&setup, 64), 64);
    // And the converse: a client asking for more than wLength gets the
    // bigger buffer, so the kernel's copy-back cannot overrun it.
    assert_eq!(control_payload_len(&setup, 200), 200);
    // A zero-length control transfer stays zero-length.
    let no_data = [0x21u8, 0x0a, 0, 0, 0, 0, 0, 0];
    assert_eq!(control_payload_len(&no_data, 0), 0);
}

#[test]
fn transfer_type_maps_to_the_right_usbfs_urb_type() {
    // The two numbering schemes disagree, which is an easy bug to write.
    assert_eq!(USBDEVFS_URB_TYPE_ISO, 0);
    assert_eq!(USBDEVFS_URB_TYPE_INTERRUPT, 1);
    assert_eq!(USBDEVFS_URB_TYPE_CONTROL, 2);
    assert_eq!(USBDEVFS_URB_TYPE_BULK, 3);
}

/// Two HID interfaces with interrupt endpoints, one with a bulk and an
/// isochronous endpoint.
fn facts() -> DeviceFacts {
    let mut b = vec![
        18, DT_DEVICE, 0, 2, 0, 0, 0, 64, 0xde, 0x28, 0x04, 0x13, 0, 1, 1, 2, 0, 1,
    ];
    let body = vec![
        9, DT_INTERFACE, 0, 0, 1, 3, 0, 0, 0, //
        7, DT_ENDPOINT, 0x81, 3, 64, 0, 1, //
        9, DT_INTERFACE, 1, 0, 1, 3, 0, 0, 0, //
        7, DT_ENDPOINT, 0x82, 3, 32, 0, 1, //
        9, DT_INTERFACE, 2, 0, 2, 255, 0, 0, 0, //
        7, DT_ENDPOINT, 0x03, 2, 64, 0, 1, //
        7, DT_ENDPOINT, 0x84, 1, 192, 0, 1,
    ];
    let total = 9 + body.len();
    b.extend_from_slice(&[9, DT_CONFIG, total as u8, 0, 3, 1, 0, 0xa0, 250]);
    b.extend_from_slice(&body);
    DeviceFacts {
        blob: b,
        busnum: 3,
        devnum: 12,
        busid: "3-12".to_string(),
        in_sysfs: true,
        sysfs_config: Some(1),
        asked_config: None,
        speed: Some(3),
        sysfs_speed: None,
        caps: USBDEVFS_CAP_ZERO_PACKET,
    }
}

fn opened() -> UsbfsDevice {
    UsbfsDevice::build(facts()).unwrap()
}

fn request(seqnum: u32, ep: u8, dir: Direction, len: usize) -> UrbRequest {
    UrbRequest {
        seqnum,
        ep,
        dir,
        transfer_flags: 0,
        setup: [0; 8],
        buffer_length: len,
        data: vec![],
    }
}

fn urb(d: &UsbfsDevice, req: UrbRequest) -> Urb {
    match d.submit(req) {
        Ok(Submission::Urb(u)) => u,
        other => panic!("{other:?}"),
    }
}

#[test]
fn opening_describes_the_device() {
    let d = opened();
    assert_eq!(d.summary().busid, "3-12");
    assert_eq!(d.summary().sys_path, "/sys/bus/usb/devices/3-12");
    assert_eq!(d.summary().node_path, "/dev/bus/usb/003/012");
    assert_eq!(d.summary().speed, Speed::High);
    assert_eq!(d.interface_numbers(), vec![0, 1, 2]);
    assert_eq!(d.interrupt_in_endpoints(), vec![(0x81, 64), (0x82, 32)]);
    assert_eq!(d.max_transfer(), DEFAULT_MAX_TRANSFER);
    assert_eq!(d.capabilities(), USBDEVFS_CAP_ZERO_PACKET);
    assert_eq!(d.descriptors().configs.len(), 1);

    let mut f = facts();
    f.in_sysfs = false;
    f.speed = None;
    f.sysfs_speed = Some("12".to_string());
    let d = UsbfsDevice::build(f).unwrap();
    assert_eq!(d.summary().sys_path, "/dev/bus/usb/003/012");
    assert_eq!(d.summary().speed, Speed::Full);

    assert_eq!(device_busid(Some("3-12".to_string()), 1, 2), "3-12");
    assert_eq!(device_busid(None, 1, 2), "1-2");
    assert_eq!(opened().with_max_transfer(64).max_transfer(), 64);
}

#[test]
fn a_device_that_does_not_describe_itself_is_not_opened() {
    let mut f = facts();
    f.blob.truncate(10);
    assert!(matches!(
        UsbfsDevice::build(f),
        Err(OpenError::Descriptors(_))
    ));
    let mut f = facts();
    f.blob.truncate(18);
    f.sysfs_config = None;
    let e = UsbfsDevice::build(f).err().unwrap();
    assert_eq!(e, OpenError::NoSuchConfig { value: 1 });
    assert_eq!(
        e.to_string(),
        "device reports active configuration 1, which it did not describe"
    );
}

#[test]
fn endpoints_decide_what_a_request_becomes() {
    let d = opened();
    let u = urb(&d, request(7, 1, Direction::In, 64));
    assert_eq!(u.typ, USBDEVFS_URB_TYPE_INTERRUPT);
    assert_eq!(u.endpoint, 0x81);
    assert_eq!(u.buffer.len(), 64);
    assert_eq!(u.data_offset, 0);

    let mut req = request(8, 3, Direction::Out, 4);
    req.data = vec![1, 2, 3];
    req.transfer_flags = ZERO_PACKET | NO_INTERRUPT;
    let u = urb(&d, req);
    assert_eq!(u.typ, USBDEVFS_URB_TYPE_BULK);
    assert_eq!(u.buffer, vec![1, 2, 3, 0]);
    assert_eq!(u.flags, USBDEVFS_URB_ZERO_PACKET | USBDEVFS_URB_NO_INTERRUPT);

    let mut req = request(9, 0, Direction::In, 2);
    req.setup = [0x80, 0x06, 0x00, 0x01, 0x00, 0x00, 0x12, 0x00];
    req.transfer_flags = SHORT_NOT_OK;
    let u = urb(&d, req);
    assert_eq!(u.typ, USBDEVFS_URB_TYPE_CONTROL);
    assert_eq!(u.data_offset, 8);
    assert_eq!(u.buffer.len(), 8 + 18);
    assert_eq!(&u.buffer[..8], &[0x80, 0x06, 0x00, 0x01, 0x00, 0x00, 0x12, 0x00]);
    assert_eq!(u.buffer_length, 26);
    assert_eq!(u.flags, USBDEVFS_URB_SHORT_NOT_OK);

    // An empty transfer still has an address to hand to the kernel.
    assert_eq!(urb(&d, request(10, 3, Direction::Out, 0)).buffer, vec![0]);

    let refused = |r| match r {
        Err(SubmitError::Urb(e)) => e,
        other => panic!("{other:?}"),
    };
    assert_eq!(
        refused(d.submit(request(1, 4, Direction::In, 8))),
        -libc::EOPNOTSUPP
    );
    assert_eq!(refused(d.submit(request(1, 5, Direction::In, 8))), -libc::EPIPE);
    assert_eq!(
        refused(d.submit(request(1, 1, Direction::In, DEFAULT_MAX_TRANSFER + 1))),
        -libc::EINVAL
    );

    let mut req = request(11, 0, Direction::Out, 0);
    req.setup = [0x00, 0x09, 0x01, 0, 0, 0, 0, 0];
    assert_eq!(
        d.submit(req),
        Ok(Submission::Special(Special::SetConfiguration(1)))
    );
}

#[test]
fn a_live_seqnum_cannot_be_used_again() {
    let mut d = opened();
    assert_eq!(d.submitted(7, None), Ok(()));
    assert_eq!(
        d.submit(request(7, 1, Direction::In, 8)),
        Err(SubmitError::Urb(-libc::EBUSY))
    );
    assert_eq!(
        d.submitted(8, Some(libc::ENOMEM)),
        Err(SubmitError::Urb(-libc::ENOMEM))
    );
    assert_eq!(
        d.submitted(8, Some(libc::ENODEV)),
        Err(SubmitError::Fatal(libc::ENODEV))
    );
    assert_eq!(
        d.submitted(8, Some(libc::ESHUTDOWN)),
        Err(SubmitError::Fatal(libc::ESHUTDOWN))
    );
}

#[test]
fn a_reaped_transfer_hands_back_what_was_transferred() {
    let mut d = opened();
    let mut u = urb(&d, request(7, 1, Direction::In, 4));
    u.buffer = vec![9, 8, 7, 6];
    d.submitted(7, None).unwrap();
    let c = d.reap(&u, 0, 3);
    assert_eq!((c.seqnum, c.status, c.actual_length), (7, 0, 3));
    assert_eq!(c.data, vec![9, 8, 7]);
    assert!(!c.unlinked);
    // Never more than the client asked for, and never a negative length.
    assert_eq!(d.reap(&u, 0, 100).data, vec![9, 8, 7, 6]);
    assert_eq!(d.reap(&u, -32, -1).data, Vec::<u8>::new());
    // An OUT transfer has a length but no data.
    let u = urb(&d, request(8, 3, Direction::Out, 4));
    let c = d.reap(&u, 0, 4);
    assert_eq!((c.actual_length, c.data.len()), (4, 0));
}

#[test]
fn an_unlinked_transfer_is_marked_when_it_is_reaped() {
    let mut d = opened();
    let u = urb(&d, request(7, 1, Direction::In, 4));
    assert!(!d.unlink(7), "not in flight");
    d.submitted(7, None).unwrap();
    assert!(d.unlink(7));
    assert!(d.reap(&u, -2, 0).unlinked);
    assert!(!d.unlink(7));
}

#[test]
fn teardown_cancels_everything_in_flight() {
    let mut d = opened();
    let a = urb(&d, request(7, 1, Direction::In, 4));
    let b = urb(&d, request(9, 2, Direction::In, 4));
    d.submitted(7, None).unwrap();
    d.submitted(9, None).unwrap();
    let mut cancelled = d.cancel_pending();
    cancelled.sort();
    assert_eq!(cancelled, vec![7, 9]);
    assert!(d.keep_draining(false, false));
    assert!(!d.keep_draining(true, false));
    assert!(!d.keep_draining(false, true));
    assert!(d.reap(&a, -2, 0).unlinked);
    assert!(d.reap(&b, -2, 0).unlinked);
    assert!(!d.keep_draining(false, false));
    assert_eq!(reap_error(libc::EAGAIN), None);
    assert_eq!(reap_error(libc::ENODEV), Some(libc::ENODEV));
}

#[test]
fn what_draining_could_not_wait_for_is_not_answered_later() {
    let mut d = opened();
    let a = urb(&d, request(7, 1, Direction::In, 4));
    let b = urb(&d, request(9, 2, Direction::In, 4));
    d.submitted(7, None).unwrap();
    d.submitted(9, None).unwrap();
    d.cancel_pending();
    assert!(d.reap(&a, -2, 0).unlinked);
    assert!(!d.keep_draining(false, true), "out of time, with one left");
    assert!(matches!(
        d.submit(request(9, 1, Direction::In, 4)),
        Err(SubmitError::Urb(e)) if e == -libc::EBUSY
    ));
    let c = d.reap(&b, 0, 3);
    assert!(c.unlinked);
    let mut next = Session::new(Prefetch::disabled(), None);
    assert!(next.completed(c, 0).is_empty());
    assert_eq!(next.stats, Stats::default());
    assert!(!d.keep_draining(false, false));
}

#[test]
fn everything_is_released_before_anything_is_reconnected() {
    let mut d = opened();
    assert_eq!(d.unclaimed(), vec![0, 1, 2]);
    d.claimed(0);
    d.claimed(1);
    d.claimed(1);
    assert_eq!(d.unclaimed(), vec![2]);
    assert_eq!(
        d.release_all(),
        vec![
            HandBack::Release(0),
            HandBack::Release(1),
            HandBack::Reconnect(0),
            HandBack::Reconnect(1),
        ]
    );
    assert_eq!(d.unclaimed(), vec![0, 1, 2]);
    assert_eq!(d.release_all(), vec![]);
}

#[test]
fn old_kernels_are_asked_in_two_steps() {
    let first = ClaimCall::DisconnectClaim;
    assert_eq!(claim_step(first, None), ClaimStep::Claimed);
    for e in [libc::ENOTTY, libc::EINVAL] {
        assert_eq!(
            claim_step(first, Some(e)),
            ClaimStep::Call(ClaimCall::Disconnect)
        );
    }
    assert_eq!(
        claim_step(first, Some(libc::EBUSY)),
        ClaimStep::Fail(libc::EBUSY)
    );
    for e in [None, Some(libc::ENODATA)] {
        assert_eq!(
            claim_step(ClaimCall::Disconnect, e),
            ClaimStep::Call(ClaimCall::Claim)
        );
    }
    assert_eq!(
        claim_step(ClaimCall::Disconnect, Some(libc::EPERM)),
        ClaimStep::Fail(libc::EPERM)
    );
    assert_eq!(claim_step(ClaimCall::Claim, None), ClaimStep::Claimed);
    assert_eq!(
        claim_step(ClaimCall::Claim, Some(libc::EBUSY)),
        ClaimStep::Fail(libc::EBUSY)
    );
}

#[test]
fn rebinding_is_retried() {
    assert_eq!(reconnect_step(0, Ok(1)), ReconnectStep::Done(1));
    assert_eq!(reconnect_step(0, Err(libc::EBUSY)), ReconnectStep::Done(0));
    assert_eq!(reconnect_step(2, Err(libc::EIO)), ReconnectStep::Retry);
    assert_eq!(
        reconnect_step(3, Err(libc::EIO)),
        ReconnectStep::Fail(libc::EIO)
    );
}

#[test]
fn special_requests_are_answered_at_once() {
    assert_eq!(special_done(None), SubmitError::Handled(0));
    assert_eq!(
        special_done(Some(libc::EPIPE)),
        SubmitError::Handled(0)
    );
    assert_eq!(
        special_done(Some(libc::ENODEV)),
        SubmitError::Fatal(libc::ENODEV)
    );
    assert_eq!(urb_type(TransferType::Interrupt), USBDEVFS_URB_TYPE_INTERRUPT);
    assert_eq!(urb_type(TransferType::Bulk), USBDEVFS_URB_TYPE_BULK);
}
