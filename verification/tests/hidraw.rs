use usbfwd::backend::hidraw::{
    after_poll, nodes_for_busid, poll_timeout, wake_of, DirEntry, PollStep, ReadOutcome, TapRead,
    TapStep,
};

fn dir(name: &str, entries: Vec<DirEntry>) -> DirEntry {
    DirEntry {
        name: name.to_string(),
        entries,
    }
}

#[test]
fn hidraw_hostile_bus_ids_never_reach_the_filesystem() {
    for bad in ["", "../../dev", "1-2/../..", "a..b"] {
        assert!(nodes_for_busid(bad, &Vec::new()).is_err(), "{bad:?} should be rejected");
    }
}

#[test]
fn a_device_with_no_hid_interfaces_yields_nothing() {
    // Root hubs exist on every machine with usbcore and have no hidraw.
    let hub = vec![dir("1-0:1.0", vec![dir("ep_81", vec![])]), dir("power", vec![])];
    if let Ok(nodes) = nodes_for_busid("usb1", &hub) {
        assert!(nodes.is_empty(), "a root hub should expose no hidraw node");
    }
    assert!(nodes_for_busid("usb1", &hub).is_ok());
}

#[test]
fn an_empty_tap_reports_itself_gone_rather_than_blocking() {
    let mut tap = TapRead::new(vec![]);
    assert_eq!(tap.next(), TapStep::Gone);
    assert!(tap.finish().is_none());
}

#[test]
fn nodes_are_found_under_the_interfaces() {
    let device = vec![
        dir(
            "1-2:1.1",
            vec![dir(
                "0003:28DE:1304.0007",
                vec![dir("hidraw", vec![dir("hidraw4", vec![])])],
            )],
        ),
        dir(
            "1-2:1.0",
            vec![dir(
                "0003:28DE:1304.0006",
                vec![dir("hidraw", vec![dir("hidraw3", vec![])]), dir("input", vec![])],
            )],
        ),
        dir("power", vec![]),
    ];
    let mut nodes = nodes_for_busid("1-2", &device).unwrap();
    nodes.sort();
    assert_eq!(nodes, vec!["/dev/hidraw3", "/dev/hidraw4"]);
}

#[test]
fn a_tap_collects_every_report_in_order() {
    let mut tap = TapRead::new(vec![0, libc::POLLIN, libc::POLLIN]);
    assert_eq!(tap.next(), TapStep::Read(1));
    tap.feed(ReadOutcome::Report(vec![1]));
    assert_eq!(tap.next(), TapStep::Read(1));
    tap.feed(ReadOutcome::Interrupted);
    assert_eq!(tap.next(), TapStep::Read(1));
    tap.feed(ReadOutcome::WouldBlock);
    assert_eq!(tap.next(), TapStep::Read(2));
    tap.feed(ReadOutcome::Report(vec![2]));
    assert_eq!(tap.next(), TapStep::Read(2));
    tap.feed(ReadOutcome::Report(vec![]));
    assert_eq!(tap.next(), TapStep::Done);
    assert_eq!(tap.finish(), Some(vec![vec![1], vec![2]]));
}

#[test]
fn an_unplugged_node_ends_the_tap() {
    for e in [libc::POLLERR, libc::POLLHUP, libc::POLLNVAL] {
        let mut tap = TapRead::new(vec![libc::POLLIN | e]);
        assert_eq!(tap.next(), TapStep::Gone);
        assert!(tap.finish().is_none());
    }
    let mut tap = TapRead::new(vec![libc::POLLIN]);
    assert_eq!(tap.next(), TapStep::Read(0));
    tap.feed(ReadOutcome::Failed);
    assert_eq!(tap.next(), TapStep::Gone);
}

#[test]
fn polling_goes_on_until_the_deadline() {
    assert_eq!(after_poll(1, 0, false), PollStep::Ready);
    assert_eq!(after_poll(0, 0, false), PollStep::TimedOut);
    assert_eq!(after_poll(-1, libc::EINTR, false), PollStep::Again);
    assert_eq!(after_poll(-1, libc::EINTR, true), PollStep::TimedOut);
    assert_eq!(after_poll(-1, libc::EINVAL, false), PollStep::Fail);
    assert_eq!(poll_timeout(250), 250);
    assert_eq!(poll_timeout(u128::MAX), i32::MAX);
    let w = wake_of(libc::POLLOUT);
    assert!(w.ready && !w.gone);
    let w = wake_of(libc::POLLOUT | libc::POLLHUP);
    assert!(w.ready && w.gone);
}
