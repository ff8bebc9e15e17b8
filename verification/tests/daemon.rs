use usbfwd::attach::args::{parse_args, Args, Mode, Parsed};
use usbfwd::attach::config::{Config, Server};
use usbfwd::attach::daemon::{
    Attachment, Daemon, Event, Fate, Step, Tick, PORT_SETTLE_TIMEOUT,
};
use usbfwd::attach::report::{list_remote, no_config, print_status};
use usbfwd::attach::vhci::{parse_status, Record};
use usbfwd::common::log::Level;
use usbfwd::common::mdns::Discovered;
use usbfwd::proto::device::UsbDevice;

const SEC: u64 = 1_000_000_000;

fn args(v: &[&str]) -> Result<Option<Args>, String> {
    let mut a = vec!["usbfwd-attach".to_string()];
    a.extend(v.iter().map(|s| s.to_string()));
    match parse_args(&a)? {
        Parsed::Run(a) => Ok(Some(a)),
        Parsed::Help | Parsed::Version => Ok(None),
    }
}

#[test]
fn the_default_mode_is_the_daemon_loop() {
    let a = args(&[]).unwrap().unwrap();
    assert_eq!(a.mode, Mode::Daemon);
    assert!(a.config.is_none());
}

#[test]
fn modes_and_config_parse() {
    assert_eq!(args(&["--once"]).unwrap().unwrap().mode, Mode::Once);
    assert_eq!(args(&["--status"]).unwrap().unwrap().mode, Mode::Status);
    assert_eq!(args(&["--list"]).unwrap().unwrap().mode, Mode::List);
    assert_eq!(
        args(&["-c", "/tmp/x.toml"]).unwrap().unwrap().config,
        Some("/tmp/x.toml".to_string())
    );
    assert_eq!(args(&["-vv"]).unwrap().unwrap().level, Some(Level::Trace));
}

#[test]
fn the_other_options_parse_too() {
    let a = args(&["--detach-all", "-q", "--verbose"]).unwrap().unwrap();
    assert_eq!(a.mode, Mode::DetachAll);
    assert_eq!(a.level, Some(Level::Error));
    assert_eq!(args(&["--help"]), Ok(None));
    assert_eq!(args(&["-V"]), Ok(None));
    assert_eq!(args(&["-c"]), Err("--config needs a path".to_string()));
    assert_eq!(
        args(&["--nope"]),
        Err("unknown option `--nope` (try --help)".to_string())
    );
}

fn server(name: &str) -> Server {
    Server {
        name: name.into(),
        host: format!("{name}.example"),
        port: 3240,
        devices: Default::default(),
        auto_attach: true,
    }
}

fn daemon() -> Daemon {
    Daemon::new(Config {
        servers: vec![server("deck")],
        ..Default::default()
    })
}

#[test]
fn backoff_doubles_up_to_the_ceiling_and_reports_once() {
    let mut d = daemon();
    d.cfg.attach.retry_min = 2;
    d.cfg.attach.retry_max = 16;
    let s = server("deck");

    assert!(d.record_failure(&s, 0));
    assert!(
        d.backoff.get("deck").unwrap().reported,
        "the first failure is announced"
    );
    assert_eq!(d.backoff.get("deck").unwrap().delay, 4);

    for expected in [8u64, 16, 16, 16] {
        assert!(!d.record_failure(&s, 0));
        assert_eq!(d.backoff.get("deck").unwrap().delay, expected);
    }
    assert_eq!(d.backoff.get("deck").unwrap().next_try, 16 * SEC as u128);
}

#[test]
fn success_clears_the_backoff() {
    let mut d = daemon();
    d.record_failure(&server("deck"), 0);
    assert!(d.backoff.get("deck").is_some());
    assert!(d.clear_failure(&server("deck")));
    assert!(d.backoff.get("deck").is_none());
    assert!(!d.clear_failure(&server("deck")));
}

#[test]
fn a_server_in_backoff_is_skipped_without_connecting() {
    let mut d = daemon();
    let s = server("deck");
    d.record_failure(&s, 0);
    // next_try is in the future, so this must return immediately rather
    // than spending connect_timeout on a host that is switched off.
    assert!(d.waiting(&s, 2 * SEC - 1));
    let (_, step) = Tick::begin(&d, d.endpoints(&vec![]), 2 * SEC - 1);
    assert_eq!(step, Step::Done);
    assert!(!d.waiting(&s, 2 * SEC));
    let (_, step) = Tick::begin(&d, d.endpoints(&vec![]), 2 * SEC);
    assert_eq!(step, Step::List(0));
}

fn attachment(port: u32) -> Attachment {
    Attachment {
        server: "deck".into(),
        host: "deck.example".into(),
        busid: "3-12".into(),
        port,
    }
}

#[test]
fn stop_after_first_means_one_device() {
    let mut d = daemon();
    assert!(
        d.cfg.attach.stop_after_first,
        "one controller is the default"
    );
    assert!(
        !d.satisfied(),
        "nothing attached yet, so there is work to do"
    );
    d.attached.push(attachment(1));
    assert!(d.satisfied(), "with a device attached, a tick does no work");
    let (_, step) = Tick::begin(&d, d.endpoints(&vec![]), 0);
    assert_eq!(step, Step::Done);

    d.cfg.attach.stop_after_first = false;
    assert!(!d.satisfied(), "opting out keeps looking for more devices");
}

#[test]
fn an_attachment_whose_port_went_away_is_forgotten() {
    let mut d = daemon();
    d.attached.push(attachment(4095));
    let gone = d.prune(&parse_status("hs  0001 006 002 00030003 000009 5-1\n"));
    assert!(
        d.attached.is_empty(),
        "a vanished port must be dropped so it gets reattached"
    );
    assert_eq!(gone, vec![(attachment(4095), Fate::Dropped)]);
}

#[test]
fn ports_decide_what_becomes_of_attachments() {
    let mut d = daemon();
    for port in [1, 2, 3, 4] {
        d.attached.push(attachment(port));
    }
    let ports = parse_status(
        "hs 1 6 2 0 0 5-1\nhs 2 7 2 0 0 0-0\nhs 3 4 0 0 0 0-0\nhs 4 5 0 0 0 0-0\n",
    );
    let gone = d.prune(&ports);
    assert_eq!(d.attached, vec![attachment(1), attachment(4)]);
    assert_eq!(
        gone,
        vec![(attachment(2), Fate::Broken), (attachment(3), Fate::Dropped)]
    );
}

#[test]
fn mdns_endpoints_are_absent_unless_discovery_is_enabled() {
    let d = daemon();
    assert!(!d.cfg.discovery.mdns);
    let found = vec![Discovered {
        instance: "sofa".to_string(),
        host: "sofa.local".to_string(),
        port: 3241,
        addrs: vec![],
        txt: vec![],
    }];
    assert_eq!(d.endpoints(&found).len(), 1);

    let mut d = daemon();
    d.cfg.discovery.mdns = true;
    let mut twice = found.clone();
    twice.push(Discovered {
        instance: "other".to_string(),
        host: "DECK.example".to_string(),
        ..found[0].clone()
    });
    let v = d.endpoints(&twice);
    assert_eq!(v.len(), 2, "a configured host is not added again");
    assert_eq!(v[0].name, "deck");
    assert_eq!(v[1].name, "mdns:sofa");
    assert_eq!(v[1].host, "sofa.local");
    assert_eq!(v[1].port, 3241);
    assert!(v[1].auto_attach);
}

fn puck() -> UsbDevice {
    UsbDevice {
        busid: "3-12".into(),
        id_vendor: 0x28de,
        id_product: 0x1304,
        b_num_interfaces: 7,
        ..Default::default()
    }
}

#[test]
fn a_tick_attaches_what_it_finds() {
    let mut d = daemon();
    let (mut t, step) = Tick::begin(&d, d.endpoints(&vec![]), 0);
    assert_eq!(step, Step::List(0));
    assert_eq!(t.server(0).unwrap().host, "deck.example");
    assert!(t.server(1).is_none());
    let mouse = UsbDevice {
        busid: "1-1".into(),
        id_vendor: 0x046d,
        ..Default::default()
    };
    let step = t.next(&mut d, Event::Listed(vec![mouse, puck()]), SEC);
    assert_eq!(step, Step::Attach(0, "3-12".to_string()));
    assert_eq!(t.next(&mut d, Event::Handed(vec![0]), SEC), Step::Look);
    assert_eq!(t.next(&mut d, Event::Ports(vec![0]), SEC), Step::Pause);
    assert_eq!(t.next(&mut d, Event::Waited, 2 * SEC), Step::Look);
    assert_eq!(t.next(&mut d, Event::Ports(vec![0, 5]), 2 * SEC), Step::Done);
    assert_eq!(d.attached, vec![attachment(5)]);
    // The tick is over.
    assert_eq!(t.next(&mut d, Event::Ports(vec![7]), 2 * SEC), Step::Done);
    assert_eq!(d.attached.len(), 1);
}

#[test]
fn a_port_that_never_shows_up_is_not_recorded() {
    let mut d = daemon();
    let (mut t, _) = Tick::begin(&d, d.endpoints(&vec![]), 0);
    t.next(&mut d, Event::Listed(vec![puck()]), 0);
    assert_eq!(t.next(&mut d, Event::Handed(vec![]), 7), Step::Look);
    assert_eq!(t.next(&mut d, Event::Ports(vec![]), 8), Step::Pause);
    assert_eq!(
        t.next(&mut d, Event::Waited, 7 + PORT_SETTLE_TIMEOUT),
        Step::Done
    );
    assert!(d.attached.is_empty());
}

#[test]
fn a_tick_goes_on_to_the_next_server() {
    let mut manual = server("manual");
    manual.auto_attach = false;
    let mut d = Daemon::new(Config {
        servers: vec![server("deck"), manual, server("tablet"), server("sofa")],
        ..Default::default()
    });
    d.cfg.attach.stop_after_first = false;
    let (mut t, step) = Tick::begin(&d, d.endpoints(&vec![]), 0);
    assert_eq!(step, Step::List(0));
    assert_eq!(t.next(&mut d, Event::Unreachable, 0), Step::List(2));
    assert!(d.backoff.get("deck").is_some());
    let step = t.next(&mut d, Event::Listed(vec![puck()]), 0);
    assert_eq!(step, Step::Attach(2, "3-12".to_string()));
    assert_eq!(t.next(&mut d, Event::AttachFailed, 0), Step::List(3));
    assert!(d.backoff.get("tablet").is_some());
    // What is attached already is not attached again.
    d.attached.push(Attachment {
        server: "sofa".into(),
        host: "sofa.example".into(),
        busid: "3-12".into(),
        port: 1,
    });
    assert_eq!(t.next(&mut d, Event::Listed(vec![puck()]), 0), Step::Done);
    assert_eq!(d.candidate(&server("deck"), &vec![puck()]), Some(0));
    assert_eq!(d.candidate(&server("sofa"), &vec![puck()]), None);
}

#[test]
fn a_restart_adopts_what_is_attached() {
    let mut d = daemon();
    let record = |port: u32, host: &str| Record {
        port,
        host: host.to_string(),
        service_port: "3240".to_string(),
        busid: "3-12".to_string(),
    };
    let n = d.adopt_existing(
        &vec![5, 1, 9],
        &vec![record(1, "DECK.example"), record(2, "gone"), record(9, "else")],
    );
    assert_eq!(n, 2);
    let all: Vec<(&str, &str, &str, u32)> = d
        .attached
        .iter()
        .map(|a| (a.server.as_str(), a.host.as_str(), a.busid.as_str(), a.port))
        .collect();
    assert_eq!(
        all,
        vec![
            ("deck", "DECK.example", "3-12", 1),
            ("else", "else", "3-12", 9),
            ("unknown", "unknown", "vhci:5", 5),
        ]
    );
    assert!(d.satisfied());
}

#[test]
fn the_status_page_is_a_table() {
    let ports = parse_status("hs 0 4 0 0 0 0-0\nhs 1 6 2 0 0 5-1\nhs 2 5 0 0 0 0-0\n");
    let records = vec![Record {
        port: 1,
        host: "deck".to_string(),
        service_port: "3240".to_string(),
        busid: "3-12".to_string(),
    }];
    assert_eq!(
        print_status(&ports, &records, Some(true)),
        "3 vhci port(s), 2 in use\n\
         PORT   STATE        REMOTE                 BUSID      LOCAL\n\
         1      in use       deck:3240              3-12       5-1\n\
         2      not assigned ?                      ?          0-0\n"
    );
    assert!(print_status(&ports, &vec![], Some(false)).contains("run as root"));
    assert!(print_status(&ports, &vec![], None).contains("kept no record"));
    assert_eq!(
        print_status(&vec![], &vec![], None),
        "0 vhci port(s), 0 in use\n"
    );
}

#[test]
fn a_listing_marks_what_would_be_attached() {
    let other = UsbDevice {
        busid: "1-1".into(),
        ..Default::default()
    };
    assert_eq!(
        list_remote(&server("deck"), &Ok(vec![puck(), other])),
        "deck (deck.example:3240)\n  \
         * 3-12 (28de:1304, 7 interfaces)\n    \
         1-1 (0000:0000, 0 interfaces)\n  \
         (* = matches `devices = 28de:*`)\n"
    );
    assert_eq!(
        list_remote(&server("deck"), &Ok(vec![])),
        "deck (deck.example:3240)\n  (exports nothing)\n"
    );
    assert_eq!(
        list_remote(&server("deck"), &Err("refused".to_string())),
        "deck (deck.example:3240)\n  unreachable: refused\n"
    );
    assert_eq!(
        no_config(&vec!["a".to_string(), "b".to_string()]),
        "no configuration file found. Looked in:\n  a\n  b\nCopy packaging/usbfwd.toml to the first of those and set the exporter's MagicDNS name."
    );
}
