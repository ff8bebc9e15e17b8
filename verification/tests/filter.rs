use usbfwd::backend::filter::{DeviceFilter, Pattern};

#[test]
fn default_is_valve_only() {
    let f = DeviceFilter::default();
    assert!(f.matches(0x28de, 0x1304), "Proteus puck");
    assert!(f.matches(0x28de, 0x1305), "Nereid receiver");
    assert!(
        f.matches(0x28de, 0x9999),
        "an unknown wired PID still matches"
    );
    assert!(!f.matches(0x046d, 0xc52b), "an unrelated dongle does not");
}

#[test]
fn exact_patterns() {
    let f: DeviceFilter = "28de:1304,28de:1305".parse().unwrap();
    assert!(f.matches(0x28de, 0x1304));
    assert!(
        !f.matches(0x28de, 0x1205),
        "the Deck's own controls are excluded"
    );
}

#[test]
fn wildcards_on_either_side() {
    let f: DeviceFilter = "*:1304".parse().unwrap();
    assert!(f.matches(0x1234, 0x1304));
    assert!(!f.matches(0x1234, 0x1305));
    let f: DeviceFilter = "*:*".parse().unwrap();
    assert!(f.matches(0, 0));
}

#[test]
fn an_empty_filter_matches_nothing() {
    let f: DeviceFilter = "".parse().unwrap();
    assert!(f.is_empty());
    assert!(!f.matches(0x28de, 0x1304));
}

#[test]
fn malformed_patterns_are_rejected() {
    assert!("28de".parse::<DeviceFilter>().is_err());
    assert!("zzzz:1304".parse::<DeviceFilter>().is_err());
    assert!("28de:123456".parse::<DeviceFilter>().is_err());
}

#[test]
fn display_roundtrips() {
    let f: DeviceFilter = "28de:1304,*:*".parse().unwrap();
    assert_eq!(f.to_string(), "28de:1304,*:*");
    assert_eq!(f.to_string().parse::<DeviceFilter>().unwrap(), f);
}

#[test]
fn written_filters_read_back() {
    for s in ["28de:*", "*:1304", "0001:00ff,*:*", ""] {
        let f: DeviceFilter = s.parse().unwrap();
        assert_eq!(f.to_string(), s);
        assert_eq!(DeviceFilter::from_str(&f.to_string()).unwrap(), f);
    }
    let p = Pattern {
        vendor: Some(0x1f),
        product: None,
    };
    assert_eq!(p.to_string(), "001f:*");
    assert_eq!(p.to_string().parse::<Pattern>(), Ok(p));
}

#[test]
fn blanks_between_patterns_are_passed_over() {
    let f: DeviceFilter = " 28de:1304 ,, 28de:1305,".parse().unwrap();
    assert_eq!(f.patterns().len(), 2);
    assert!(f.patterns()[1].matches(0x28de, 0x1305));
}
