use usbfwd::backend::SubmitError;
use usbfwd::proto::pdu::Direction;
use usbfwd::server::prefetch::{
    Delivery, Prefetch, Take, DEPTH, INTERNAL_BASE, MAX_CONSECUTIVE_ERRORS,
};

#[test]
fn internal_seqnums_cannot_collide_with_a_clients() {
    // vhci starts at 1 and counts up; everything it will realistically
    // issue is below the internal range.
    assert!(!Prefetch::owns(1));
    assert!(!Prefetch::owns(1_000_000));
    assert!(!Prefetch::owns(INTERNAL_BASE - 1));
    assert!(Prefetch::owns(INTERNAL_BASE));
    assert!(Prefetch::owns(u32::MAX));
}

#[test]
fn disabled_prefetch_passes_everything_through() {
    let mut p = Prefetch::disabled();
    assert!(!p.is_enabled());
    assert_eq!(p.take(0x81, 7, 64), Take::PassThrough);
    assert!(!p.unlink(7));
}

/// One endpoint, armed.
fn armed() -> Prefetch {
    let mut p = Prefetch::new(&vec![(0x81, 64)], true);
    assert_eq!(p.arm(), vec![0x81]);
    arm(&mut p);
    p
}

/// Submits what the endpoint wants; the seqnum it went out under.
fn arm(p: &mut Prefetch) -> Option<u32> {
    let req = p.wanted(0x81)?;
    assert_eq!((req.ep, req.dir, req.buffer_length), (1, Direction::In, 64));
    p.armed(0x81, Ok(()));
    Some(req.seqnum)
}

#[test]
fn a_report_waits_for_the_client() {
    let mut p = armed();
    assert!(p.wanted(0x81).is_none(), "one URB at a time");
    assert_eq!(
        p.deliver(INTERNAL_BASE, 0, vec![1, 2, 3]),
        Delivery {
            reply: None,
            rearm: Some(0x81)
        }
    );
    assert!(arm(&mut p).is_some());
    assert_eq!(p.take(0x81, 7, 2), Take::Ready(vec![1, 2]));
    assert_eq!(p.take(0x81, 8, 64), Take::Waiting);
    assert_eq!(p.take(0x82, 9, 64), Take::PassThrough);
}

#[test]
fn a_client_waits_for_the_report() {
    let mut p = armed();
    assert_eq!(p.take(0x81, 7, 2), Take::Waiting);
    assert_eq!(
        p.deliver(INTERNAL_BASE, 0, vec![1, 2, 3]).reply,
        Some((7, 0, vec![1, 2]))
    );
    let s = arm(&mut p).unwrap();
    assert_eq!(
        p.deliver(s, 0, vec![4]).reply,
        None,
        "it is handed over once"
    );
    // One that gave up is not answered.
    arm(&mut p);
    assert_eq!(p.take(0x81, 8, 64), Take::Ready(vec![4]));
    assert_eq!(p.take(0x81, 9, 64), Take::Waiting);
    assert!(p.unlink(9));
    assert!(!p.unlink(9));
}

#[test]
fn the_newest_reports_are_kept() {
    let mut p = Prefetch::new(&vec![(0x81, 64)], true);
    for i in 0..6u8 {
        let s = arm(&mut p).unwrap();
        p.deliver(s, 0, vec![i]);
    }
    for i in 2..6u8 {
        assert_eq!(p.take(0x81, 7, 64), Take::Ready(vec![i]));
    }
    assert_eq!(DEPTH, 4);
    assert_eq!(p.take(0x81, 7, 64), Take::Waiting);
}

#[test]
fn prefetching_gives_up_after_errors_in_a_row() {
    let mut p = Prefetch::new(&vec![(0x81, 64)], true);
    for _ in 0..MAX_CONSECUTIVE_ERRORS {
        assert_eq!(p.take(0x81, 7, 64), Take::Waiting);
        let s = arm(&mut p).unwrap();
        assert_eq!(p.deliver(s, -71, vec![]).reply, Some((7, -71, vec![])));
    }
    assert!(p.wanted(0x81).is_none());
    assert_eq!(p.take(0x81, 7, 64), Take::PassThrough);

    let mut p = Prefetch::new(&vec![(0x81, 64)], true);
    p.armed(0x81, Err(SubmitError::Fatal(19)));
    assert!(p.wanted(0x81).is_none(), "a device that is gone");
}

#[test]
fn what_is_in_flight_is_named_when_it_ends() {
    let mut p = armed();
    assert_eq!(p.shutdown(), vec![INTERNAL_BASE]);
    assert_eq!(Prefetch::new(&vec![(0x81, 64)], false).arm(), vec![]);
}

#[test]
fn arming_queues_one_urb_on_every_endpoint() {
    let mut p = Prefetch::new(&vec![(0x81, 64), (0x82, 8), (0x83, 16), (0x84, 32)], true);
    // The second has given up, and the third has a URB in flight and a full buffer.
    p.armed(0x82, Err(SubmitError::Fatal(libc::ENODEV)));
    let mut s = p.wanted(0x83).unwrap().seqnum;
    p.armed(0x83, Ok(()));
    for i in 0..DEPTH {
        p.deliver(s, 0, vec![i as u8]);
        s = p.wanted(0x83).unwrap().seqnum;
        p.armed(0x83, Ok(()));
    }
    let idle = p.arm();
    assert_eq!(idle, vec![0x81, 0x84]);
    let mut seen = vec![s];
    for (address, max_packet) in [(0x81u8, 64), (0x84, 32)] {
        let req = p.wanted(address).unwrap();
        assert!(Prefetch::owns(req.seqnum));
        assert!(!seen.contains(&req.seqnum), "a seqnum of its own");
        seen.push(req.seqnum);
        assert_eq!(req.dir, Direction::In);
        assert_eq!(req.ep, address & 0x0f);
        assert_eq!(req.buffer_length, max_packet);
        p.armed(address, Ok(()));
    }
    assert!(p.arm().is_empty());
    for address in 0x81..=0x84 {
        assert!(p.wanted(address).is_none());
    }
    assert_eq!(p.shutdown(), vec![seen[1], seen[0], seen[2]]);
}

#[test]
fn a_client_submit_arms_an_endpoint_that_was_refused() {
    let mut p = armed();
    p.deliver(INTERNAL_BASE, 0, vec![1]);
    p.armed(0x81, Err(SubmitError::Urb(-libc::ENOMEM)));
    for expected in [Take::Ready(vec![1]), Take::Waiting] {
        assert_eq!(p.take(0x81, 7, 64), expected);
        assert!(p.wanted(0x81).is_some(), "none in flight, one wanted");
    }
    assert_eq!(arm(&mut p), Some(INTERNAL_BASE + 1));
    assert!(p.wanted(0x81).is_none());
    assert_eq!(
        p.deliver(INTERNAL_BASE + 1, 0, vec![2]).reply,
        Some((7, 0, vec![2]))
    );
}
