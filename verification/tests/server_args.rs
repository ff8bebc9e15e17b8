use usbfwd::attach::args::parse_args as parse_attach_args;
use usbfwd::common::log::Level;
use usbfwd::common::netif::{Interface, Ip};
use usbfwd::server::args::{parse_args, parse_args_with, Args, Parsed};
use usbfwd::server::config::{resolve_binds, waits_for_tailnet, Bind, Config};

fn parsed(v: &[&str]) -> Result<Parsed, String> {
    let mut a = vec!["usbfwd-server".to_string()];
    a.extend(v.iter().map(|s| s.to_string()));
    parse_args(&a)
}

fn args(v: &[&str]) -> Result<Option<Args>, String> {
    match parsed(v)? {
        Parsed::Run(a) => Ok(Some(a)),
        Parsed::Help | Parsed::Version => Ok(None),
    }
}

#[test]
fn defaults_are_tailnet_only_and_valve_only() {
    let a = args(&[]).unwrap().unwrap();
    assert_eq!(a.cfg.binds, vec![Bind::Tailscale]);
    assert_eq!(a.cfg.port, 3240);
    assert!(a.cfg.filter.matches(0x28de, 0x1304));
    assert!(!a.cfg.filter.matches(0x046d, 0x0001));
    assert!(!a.cfg.mdns, "mDNS must be opt-in");
    assert_eq!(a.cfg, Config::default());
}

#[test]
fn binds_accumulate() {
    let a = args(&["--bind", "100.1.2.3", "--bind", "127.0.0.1"])
        .unwrap()
        .unwrap();
    assert_eq!(
        a.cfg.binds,
        vec![
            Bind::Addr(Ip::V4([100, 1, 2, 3])),
            Bind::Addr(Ip::V4([127, 0, 0, 1]))
        ]
    );
}

#[test]
fn addresses_are_read_in_every_form() {
    let bind = |s: &str| args(&["--bind", s]).map(|a| a.unwrap().cfg.binds);
    let mut one = [0; 16];
    one[15] = 1;
    assert_eq!(bind("::1"), Ok(vec![Bind::Addr(Ip::V6(one))]));
    let mut tailnet = [0xfd, 0x7a, 0x11, 0x5c, 0xa1, 0xe0, 0, 0, 0, 0, 0, 0, 0, 0, 0, 0];
    tailnet[14..].copy_from_slice(&[0xab, 0x12]);
    assert_eq!(
        bind("fd7a:115c:a1e0::ab12"),
        Ok(vec![Bind::Addr(Ip::V6(tailnet))])
    );
    assert_eq!(
        bind("255.0.1.20"),
        Ok(vec![Bind::Addr(Ip::V4([255, 0, 1, 20]))])
    );
    for bad in ["256.0.0.1", "1.2.3", "01.2.3.4", "1.2.3.4 ", "fd7a::a1e0::1", "[::1]", ""] {
        assert_eq!(bind(bad), Err(format!("`{bad}` is not an IP address")));
    }
}

#[test]
fn what_an_argument_spells_decides_what_is_bound() {
    let argv: Vec<String> = ["usbfwd-server", "--bind", "here", "--bind", "any"]
        .iter()
        .map(|s| s.to_string())
        .collect();
    let here = Ip::V4([10, 0, 0, 1]);
    let addrs = vec![None, None, Some(here), None, Some(here)];
    let Ok(Parsed::Run(a)) = parse_args_with(&argv, &addrs) else {
        panic!("expected options");
    };
    assert_eq!(a.cfg.binds, vec![Bind::Addr(here), Bind::Any]);
    assert_eq!(
        parse_args_with(&argv, &vec![None; 5]),
        Err("`here` is not an IP address".to_string())
    );
}

#[test]
fn any_expands_to_both_families() {
    let out = resolve_binds(&[Bind::Any], &[]).unwrap();
    assert_eq!(out, vec![Ip::V4([0; 4]), Ip::V6([0; 16])]);
}

#[test]
fn a_missing_tailnet_is_an_actionable_error() {
    // On a machine without Tailscale this must explain the way out rather
    // than silently binding something exposed.
    let lan = Interface {
        name: "wlan0".to_string(),
        addr: Ip::V4([192, 168, 1, 10]),
    };
    let e = resolve_binds(&[Bind::Tailscale], &[lan]).unwrap_err();
    assert!(e.contains("--bind"), "unhelpful: {e}");
}

#[test]
fn main_bad_options_are_rejected() {
    assert!(args(&["--port", "not-a-port"]).is_err());
    assert!(args(&["--bind", "not-an-ip"]).is_err());
    assert!(args(&["--allow", "nonsense"]).is_err());
    assert!(args(&["--frobnicate"]).is_err());
    assert!(args(&["--port"]).is_err(), "a missing value must not panic");

    let attach = |v: &[&str]| {
        let mut a = vec!["usbfwd-attach".to_string()];
        a.extend(v.iter().map(|s| s.to_string()));
        parse_attach_args(&a)
    };
    assert!(attach(&["--nope"]).is_err());
    assert!(attach(&["--config"]).is_err());
}

#[test]
fn verbosity_maps_to_levels() {
    assert_eq!(args(&[]).unwrap().unwrap().level, None);
    assert_eq!(args(&["-v"]).unwrap().unwrap().level, Some(Level::Debug));
    assert_eq!(args(&["-vv"]).unwrap().unwrap().level, Some(Level::Trace));
    assert_eq!(
        args(&["-v", "-v"]).unwrap().unwrap().level,
        Some(Level::Trace)
    );
    assert_eq!(args(&["-q"]).unwrap().unwrap().level, Some(Level::Error));
}

#[test]
fn every_option_is_understood() {
    let a = args(&[
        "--port", "4000", "--allow", "*:1304", "--max-transfer", "4096", "--mdns", "--name",
        "deck", "--prefetch", "--toggle-chord", "l4+r4", "--list", "--chord-probe", "--bind",
        "any", "--bind", "auto",
    ])
    .unwrap()
    .unwrap();
    assert_eq!(a.cfg.port, 4000);
    assert_eq!(a.cfg.filter.to_string(), "*:1304");
    assert_eq!(a.cfg.max_transfer, 4096);
    assert!(a.cfg.mdns && a.cfg.prefetch && a.list && a.chord_probe);
    assert_eq!(a.cfg.name.as_deref(), Some("deck"));
    assert_eq!(a.cfg.toggle_chord.unwrap().to_string(), "l4+r4");
    assert_eq!(a.cfg.binds, vec![Bind::Any, Bind::Tailscale]);
    assert_eq!(parsed(&["-h", "--nonsense"]), Ok(Parsed::Help));
    assert_eq!(parsed(&["--version"]), Ok(Parsed::Version));
}

#[test]
fn every_bad_option_has_its_message() {
    let e = |v: &[&str]| parsed(v).unwrap_err();
    assert_eq!(e(&["--port"]), "--port needs a value");
    assert_eq!(e(&["--port", "65536"]), "`65536` is not a port");
    assert_eq!(e(&["--bind", "x"]), "`x` is not an IP address");
    assert_eq!(e(&["--max-transfer", "-1"]), "`-1` is not a size");
    assert_eq!(e(&["--nope"]), "unknown option `--nope` (try --help)");
    assert!(e(&["--toggle-chord", "nonsense"]).contains("--chord-probe"));
}

#[test]
fn the_tailnet_is_waited_for_where_it_is_wanted() {
    assert!(waits_for_tailnet(&[Bind::Any, Bind::Tailscale], true, false));
    assert!(!waits_for_tailnet(&[Bind::Any], true, false));
    assert!(!waits_for_tailnet(&[Bind::Tailscale], false, false));
    assert!(!waits_for_tailnet(&[Bind::Tailscale], true, true));
    let tailnet = Interface {
        name: "tailscale0".to_string(),
        addr: Ip::V4([100, 101, 102, 103]),
    };
    assert_eq!(
        resolve_binds(&[Bind::Tailscale], &[tailnet]),
        Ok(vec![Ip::V4([100, 101, 102, 103])])
    );
}
