use usbfwd::common::netif::{
    dedup, hostname, is_tailscale_addr, is_tailscale_v4, is_tailscale_v6, lan_v4_addrs,
    tailscale_addrs, Interface, Ip,
};

fn v4(s: &str) -> [u8; 4] {
    let v: Vec<u8> = s.split('.').map(|p| p.parse().unwrap()).collect();
    [v[0], v[1], v[2], v[3]]
}

/// Eight groups, or some with `::` for the zeros between them.
fn v6(s: &str) -> [u8; 16] {
    let groups = |t: &str| -> Vec<u16> {
        t.split(':')
            .filter(|g| !g.is_empty())
            .map(|g| u16::from_str_radix(g, 16).unwrap())
            .collect()
    };
    let (head, tail) = match s.split_once("::") {
        Some((h, t)) => (groups(h), groups(t)),
        None => (groups(s), vec![]),
    };
    let mut all = head.clone();
    all.resize(8 - tail.len(), 0);
    all.extend(tail);
    let mut out = [0u8; 16];
    for (i, g) in all.iter().enumerate() {
        out[2 * i] = (g >> 8) as u8;
        out[2 * i + 1] = (g & 0xff) as u8;
    }
    out
}

#[test]
fn recognises_the_tailscale_v4_range() {
    assert!(is_tailscale_v4(v4("100.64.0.1")));
    assert!(is_tailscale_v4(v4("100.101.102.103")));
    assert!(is_tailscale_v4(v4("100.127.255.254")));
    assert!(!is_tailscale_v4(v4("100.63.255.255")));
    assert!(!is_tailscale_v4(v4("100.128.0.1")));
    assert!(!is_tailscale_v4(v4("192.168.1.10")));
    assert!(!is_tailscale_v4(v4("10.0.0.1")));
}

#[test]
fn recognises_the_tailscale_v6_prefix() {
    assert!(is_tailscale_v6(v6("fd7a:115c:a1e0::1")));
    assert!(is_tailscale_v6(v6(
        "fd7a:115c:a1e0:ab12:4843:cd96:6265:1234"
    )));
    assert!(!is_tailscale_v6(v6("fd00::1")));
    assert!(!is_tailscale_v6(v6("2001:db8::1")));
}

#[test]
fn hostname_is_short_and_nonempty() {
    for full in [
        Some("steamdeck.tailnet-name.ts.net"),
        Some("steamdeck"),
        Some(""),
        Some(".local"),
        None,
    ] {
        let h = hostname(full);
        assert!(!h.is_empty());
        assert!(!h.contains('.'));
    }
    assert_eq!(hostname(Some("steamdeck.local")), "steamdeck");
    for unnamed in [Some(""), Some(".local"), None] {
        assert_eq!(hostname(unnamed), "usbfwd");
    }
}

fn interface(name: &str, addr: Ip) -> Interface {
    Interface {
        name: name.to_string(),
        addr,
    }
}

#[test]
fn only_tailnet_addresses_are_bound_and_v4_comes_first() {
    let list = vec![
        interface("lo", Ip::V4(v4("127.0.0.1"))),
        interface("tailscale0", Ip::V6(v6("fd7a:115c:a1e0::1"))),
        interface("wlan0", Ip::V4(v4("192.168.1.10"))),
        interface("tailscale0", Ip::V4(v4("100.101.102.103"))),
    ];
    let found = tailscale_addrs(&list);
    assert_eq!(
        found,
        vec![
            Ip::V4(v4("100.101.102.103")),
            Ip::V6(v6("fd7a:115c:a1e0::1"))
        ]
    );
    assert!(found.iter().all(is_tailscale_addr));
    assert_eq!(
        lan_v4_addrs(&list),
        vec![v4("192.168.1.10"), v4("100.101.102.103")]
    );
}

#[test]
fn neighbours_that_repeat_are_dropped() {
    let a = Ip::V4(v4("100.64.0.1"));
    let b = Ip::V4(v4("100.64.0.2"));
    assert_eq!(dedup(&vec![a, a, b, b, a]), vec![a, b, a]);
    assert!(a.same(&a) && !a.same(&b));
}
