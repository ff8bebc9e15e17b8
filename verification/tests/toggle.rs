use usbfwd::backend::DeviceSummary;
use usbfwd::proto::device::Speed;
use usbfwd::server::chord::{Chord, DECK_STATE};
use usbfwd::server::toggle::{
    complaint, preflight, probe_device, Hotkey, Probe, Probed, Step, TapAttempt, Toggle, Watched,
    Watchers, NAG, REBIND_GRACE,
};

fn fake(ids: &[&str]) -> Vec<DeviceSummary> {
    ids.iter()
        .map(|busid| DeviceSummary {
            busnum: 1,
            devnum: 2,
            busid: busid.to_string(),
            sys_path: String::new(),
            node_path: String::new(),
            speed: Speed::High,
            device: Default::default(),
            config_value: 1,
            interfaces: Vec::new(),
        })
        .collect()
}

#[test]
fn suspending_takes_a_device_off_the_list_and_resuming_puts_it_back() {
    let mut toggle = Toggle::new();
    let ids = |t: &Toggle| -> Vec<String> {
        t.offered(fake(&["1-2", "1-3"]))
            .into_iter()
            .map(|d| d.busid)
            .collect()
    };

    assert_eq!(ids(&toggle), vec!["1-2", "1-3"]);
    assert!(toggle.suspend("1-2"));
    assert!(!toggle.suspend("1-2"), "suspending twice changes nothing");
    assert_eq!(
        ids(&toggle),
        vec!["1-3"],
        "a suspended device is not offered"
    );
    assert_eq!(
        toggle.may_open("1-2"),
        Err("1-2 is suspended by the toggle chord".to_string()),
        "and cannot be imported behind the list's back"
    );
    assert!(toggle.resume("1-2"));
    assert_eq!(ids(&toggle), vec!["1-2", "1-3"]);
    assert_eq!(toggle.may_open("1-2"), Ok(()));
    assert!(!toggle.resume("1-2"));
}

#[test]
fn sighup_puts_everything_back() {
    let mut toggle = Toggle::new();
    toggle.suspend("1-2");
    toggle.suspend("1-3");
    assert_eq!(toggle.list(), vec!["1-2", "1-3"]);
    assert_eq!(toggle.resume_all().len(), 2);
    assert!(toggle.list().is_empty());
}

fn hotkey() -> Hotkey {
    Hotkey {
        chord: "l4+r4".parse::<Chord>().unwrap(),
        hold: 500,
    }
}

fn report(mask: u64) -> Vec<u8> {
    let mut r = vec![0u8; 64];
    r[0] = 1;
    r[2] = DECK_STATE;
    r[3] = 60;
    r[8..16].copy_from_slice(&mask.to_le_bytes());
    r
}

#[test]
fn a_watched_device_is_resumed_by_a_second_press() {
    let mask = hotkey().chord.mask();
    let mut w = Watched::new("1-2".to_string(), hotkey(), 0);
    assert!(!w.tapped);
    w.attached();
    assert!(w.tapped);
    // The press that suspended it is still down, and does not count.
    assert_eq!(w.step(Some(vec![report(mask)]), 600), Step::Polled);
    assert_eq!(w.step(Some(vec![report(mask)]), 2000), Step::Polled);
    let pressed = vec![report(0), report(mask)];
    assert_eq!(w.step(Some(pressed), 3000), Step::Polled);
    assert_eq!(w.step(Some(vec![report(mask)]), 3500), Step::Fired);
    assert_eq!(w.step(None, 3600), Step::Idle);
    assert!(!w.tapped, "the tap has to be built anew");
}

#[test]
fn a_device_with_no_way_back_is_complained_about() {
    let mut w = Watched::new("1-2".to_string(), hotkey(), 0);
    assert!(!w.complain(REBIND_GRACE - 1));
    assert!(w.complain(REBIND_GRACE));
    assert!(!w.complain(REBIND_GRACE + NAG - 1));
    assert!(w.complain(REBIND_GRACE + NAG));
    assert!(complaint("1-2").contains("send SIGHUP"));
}

#[test]
fn those_that_are_suspended_are_watched() {
    let mut w = Watchers::new();
    w.sync(&vec!["1-2".to_string(), "1-3".to_string()], hotkey(), 10);
    w.watched[1].attached();
    w.sync(&vec!["1-3".to_string(), "1-4".to_string()], hotkey(), 20);
    let now: Vec<(&str, bool, u64)> = w
        .watched
        .iter()
        .map(|w| (w.busid.as_str(), w.tapped, w.suspended_at))
        .collect();
    assert_eq!(now, vec![("1-3", true, 10), ("1-4", false, 20)]);
}

#[test]
fn unreadable_nodes_are_found_out_early() {
    let none = TapAttempt {
        nodes: 0,
        opened: 0,
        first_error: None,
    };
    assert_eq!(preflight("1-2", &none), None);
    let some = TapAttempt {
        nodes: 3,
        opened: 1,
        first_error: None,
    };
    assert_eq!(preflight("1-2", &some), None);
    let denied = TapAttempt {
        nodes: 3,
        opened: 0,
        first_error: Some("Permission denied".to_string()),
    };
    assert_eq!(
        preflight("1-2", &denied).unwrap(),
        "toggle: none of 1-2's 3 hidraw node(s) can be read (Permission denied), so the chord could suspend it and not resume it. Install packaging/99-usbfwd.rules."
    );
}

#[test]
fn probing_prints_each_new_combination_once() {
    let mut p = Probe {
        busid: "1-2".to_string(),
        last: None,
    };
    assert_eq!(
        p.feed(&report(1 << 13)),
        Probed::Buttons(
            "1-2  0x0000000000002000  steam\n          --toggle-chord 'steam'".to_string()
        )
    );
    assert_eq!(p.feed(&report(1 << 13)), Probed::Unchanged);
    assert_eq!(
        p.feed(&[0, 0xab]),
        Probed::Foreign("1-2: 2 bytes, not a state report: 00ab".to_string())
    );
    assert_eq!(
        probe_device("1-2", 0x28de, 0x1205, 1, "/dev/hidraw3"),
        "1-2 28de:1205: watching /dev/hidraw3"
    );
    assert_eq!(
        probe_device("1-2", 0x28de, 0x1205, 1, ""),
        "1-2: no readable hidraw node. Install packaging/99-usbfwd.rules."
    );
    assert!(probe_device("1-2", 0x28de, 0x1205, 0, "").contains("no hidraw node"));
}
