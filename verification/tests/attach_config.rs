use usbfwd::attach::config::{
    default_paths, find_default, parse, Attach, Config, ConfigError, Discovery,
};
use usbfwd::proto::USBIP_PORT;

const EXAMPLE: &str = r#"
# usbfwd.toml — static endpoints are primary; discovery is optional
[[server]]
name    = "steamdeck"
host    = "steamdeck.tailnet-name.ts.net"   # MagicDNS, or a raw IP
port    = 3240
devices = ["28de:1304", "28de:1305", "28de:*"]
auto_attach = true

[[server]]
name = "tablet"
host = "tablet.tailnet-name.ts.net"

[discovery]
mdns = false        # LAN convenience only; cannot work over Tailscale
"#;

#[test]
fn the_documented_example_parses() {
    let c = parse(EXAMPLE).expect("parse");
    assert_eq!(c.servers.len(), 2);
    assert_eq!(c.servers[0].name, "steamdeck");
    assert_eq!(c.servers[0].host, "steamdeck.tailnet-name.ts.net");
    assert_eq!(c.servers[0].port, 3240);
    assert!(c.servers[0].devices.matches(0x28de, 0x1304));
    assert!(c.servers[0].auto_attach);
    // The second server takes every default.
    assert_eq!(c.servers[1].port, USBIP_PORT);
    assert!(c.servers[1].auto_attach);
    assert!(c.servers[1].devices.matches(0x28de, 0x9999));
    assert!(!c.discovery.mdns);
    assert_eq!(c.attach, Attach::default());
}

#[test]
fn a_minimal_config_is_enough() {
    let c = parse("[[server]]\nhost = \"deck\"\n").unwrap();
    assert_eq!(c.servers[0].name, "deck", "the name defaults to the host");
    assert_eq!(c.servers[0].port, 3240);
    assert!(c.servers[0].devices.matches(0x28de, 0x1304));
}

#[test]
fn a_config_with_nothing_to_do_is_an_error() {
    let e = parse("[discovery]\nmdns = false\n").unwrap_err();
    assert!(e.to_string().contains("nothing to attach to"));
    // ...unless discovery is on, in which case servers may be absent.
    assert!(parse("[discovery]\nmdns = true\n").is_ok());
}

#[test]
fn typos_are_reported_rather_than_ignored() {
    let e = parse("[[server]]\nhost = \"deck\"\nhsot = \"x\"\n").unwrap_err();
    assert!(e.to_string().contains("hsot"));
    let e = parse("[[server]]\nhost = \"deck\"\n[discovery]\nmnds = true\n").unwrap_err();
    assert!(e.to_string().contains("mnds"));
    let e = parse("[nonsense]\nx = 1\n").unwrap_err();
    assert!(e.to_string().contains("unknown section"));
}

#[test]
fn wrong_types_name_the_key_and_the_line() {
    let e = parse("[[server]]\nhost = 42\n").unwrap_err();
    assert!(e.to_string().contains("line 2"));
    assert!(e.to_string().contains("must be a string"));

    let e = parse("[[server]]\nhost = \"a\"\nauto_attach = \"yes\"\n").unwrap_err();
    assert!(e.to_string().contains("true or false"));

    let e = parse("[[server]]\nhost = \"a\"\nport = 70000\n").unwrap_err();
    assert!(e.to_string().contains("out of range"));
}

#[test]
fn a_server_without_a_host_is_rejected() {
    let e = parse("[[server]]\nname = \"deck\"\n").unwrap_err();
    assert!(e.to_string().contains("needs a `host`"));
}

#[test]
fn duplicate_server_names_are_rejected() {
    let e = parse("[[server]]\nname=\"a\"\nhost=\"x\"\n[[server]]\nname=\"a\"\nhost=\"y\"\n")
        .unwrap_err();
    assert!(e.to_string().contains("both named"));
}

#[test]
fn attach_overrides_apply_and_are_sanity_checked() {
    let c = parse(
        "[[server]]\nhost=\"d\"\n[attach]\npoll_interval = 2\nretry_max = 30\nusbip = \"/usr/bin/usbip\"\nstop_after_first = false\n",
    )
    .unwrap();
    assert_eq!(c.attach.poll_interval, 2);
    assert_eq!(c.attach.retry_max, 30);
    assert_eq!(c.attach.usbip, "/usr/bin/usbip");
    assert!(!c.attach.stop_after_first);

    let e = parse("[[server]]\nhost=\"d\"\n[attach]\nretry_min = 90\nretry_max = 30\n")
        .unwrap_err();
    assert!(e.to_string().contains("smaller than"));
    let e = parse("[[server]]\nhost=\"d\"\n[attach]\npoll_interval = 0\n").unwrap_err();
    assert!(e.to_string().contains("at least 1s"));
}

#[test]
fn a_devices_string_is_accepted_as_well_as_an_array() {
    let c = parse("[[server]]\nhost=\"d\"\ndevices = \"28de:1304\"\n").unwrap();
    assert!(c.servers[0].devices.matches(0x28de, 0x1304));
    assert!(!c.servers[0].devices.matches(0x28de, 0x1305));
}

#[test]
fn a_bad_device_pattern_names_its_line() {
    let e = parse("[[server]]\nhost=\"d\"\ndevices = [\"not-a-pattern\"]\n").unwrap_err();
    assert!(e.to_string().contains("line 3"));
}

fn message(s: &str) -> String {
    parse(s).unwrap_err().to_string()
}

#[test]
fn every_mistake_has_its_message() {
    assert_eq!(
        message("x = 1\n"),
        "line 1: settings must live under [[server]], [discovery] or [attach]"
    );
    assert_eq!(message("\n[nonsense]\n"), "line 2: unknown section [nonsense]");
    assert_eq!(message("[server\n"), "line 1: unterminated [table] header");
    assert_eq!(
        message("[[server]]\nhost=\"d\"\nhots=1\n"),
        "line 3: `hots` is not a valid key in [server]"
    );
    assert_eq!(
        message("[[server]]\nhost = 42\n"),
        "line 2: `host` must be a string, not a integer"
    );
    assert_eq!(
        message("\n[[server]]\nname = \"a\"\n"),
        "line 2: [[server]] needs a `host`"
    );
    assert_eq!(message("[[server]]\nhost = \"  \"\n"), "line 2: `host` is empty");
    assert_eq!(
        message("[[server]]\nhost = \"d\"\nport = 0\n"),
        "line 3: `port` 0 is out of range"
    );
    assert_eq!(
        message("[[server]]\nhost = \"d\"\nport = \"x\"\n"),
        "line 3: `port` must be an integer, not a string"
    );
    assert_eq!(
        message("[[server]]\nhost = \"d\"\ndevices = 7\n"),
        "line 3: `devices` must be an array of vid:pid patterns, not a integer"
    );
    assert_eq!(
        message("[[server]]\nhost = \"d\"\nauto_attach = 1\n"),
        "line 3: `auto_attach` must be true or false, not a integer"
    );
    assert_eq!(
        message("[[server]]\nhost = \"d\"\n[attach]\nretry_min = -1\n"),
        "line 4: `retry_min` cannot be negative (-1)"
    );
    assert_eq!(
        message("[[server]]\nhost = \"d\"\n[attach]\nretry_max = 1\n"),
        "line 4: `retry_max` is smaller than `retry_min`"
    );
    assert_eq!(
        message("[[server]]\nhost = \"d\"\n[attach]\npoll_interval = 0\n"),
        "line 4: `poll_interval` must be at least 1s"
    );
    assert_eq!(
        message("[[server]]\nhost=\"a\"\n[[server]]\nhost=\"a\"\n"),
        "two servers are both named `a`"
    );
}

#[test]
fn an_error_names_its_file_once_it_is_known() {
    let e = ConfigError {
        path: Some("/etc/usbfwd/usbfwd.toml".to_string()),
        message: "line 1: empty key".to_string(),
    };
    assert_eq!(e.to_string(), "/etc/usbfwd/usbfwd.toml: line 1: empty key");
    assert_eq!(parse(" = 1").unwrap_err().path, None);
}

#[test]
fn defaults_are_the_documented_ones() {
    let c = Config::default();
    assert!(c.servers.is_empty());
    assert_eq!(
        c.discovery,
        Discovery {
            mdns: false,
            mdns_timeout: 2
        }
    );
    assert_eq!(
        c.attach,
        Attach {
            poll_interval: 5,
            retry_min: 2,
            retry_max: 60,
            connect_timeout: 3,
            usbip: "usbip".to_string(),
            modprobe: true,
            stop_after_first: true,
        }
    );
    let c = parse("[discovery]\nmdns = true\nmdns_timeout = 9\n").unwrap();
    assert_eq!(c.discovery.mdns_timeout, 9);
}

#[test]
fn the_file_is_looked_for_in_order() {
    assert_eq!(
        default_paths(Some("/home/deck/.cfg"), Some("/home/deck")),
        vec![
            "/etc/usbfwd/usbfwd.toml",
            "/home/deck/.cfg/usbfwd/usbfwd.toml",
            "usbfwd.toml"
        ]
    );
    assert_eq!(
        default_paths(None, Some("/home/deck/")),
        vec![
            "/etc/usbfwd/usbfwd.toml",
            "/home/deck/.config/usbfwd/usbfwd.toml",
            "usbfwd.toml"
        ]
    );
    let paths = default_paths(None, None);
    assert_eq!(paths, vec!["/etc/usbfwd/usbfwd.toml", "usbfwd.toml"]);
    assert_eq!(find_default(&paths, &[false, true]).as_deref(), Some("usbfwd.toml"));
    assert_eq!(
        find_default(&paths, &[true, true]).as_deref(),
        Some("/etc/usbfwd/usbfwd.toml")
    );
    assert_eq!(find_default(&paths, &[false, false]), None);
}
