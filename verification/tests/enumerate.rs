use usbfwd::backend::descriptors::{parse, DT_CONFIG, DT_DEVICE, DT_ENDPOINT, DT_INTERFACE};
use usbfwd::backend::enumerate::{
    busid_for, default_config_value, is_device_entry, is_valid_busid, list, list_all, node_path,
    numbers_for_busid, scan, split_node_path, summary_from_sysfs, sys_path, sysfs_attr_path,
    sysfs_config_value, sysfs_speed, BusEntry, SummaryError, SysfsEntry, SysfsFacts,
};
use usbfwd::backend::filter::DeviceFilter;
use usbfwd::backend::DeviceSummary;
use usbfwd::proto::device::Speed;

/// A device with one HID interface.
fn blob(vid: u16, pid: u16) -> Vec<u8> {
    let mut b = vec![18, DT_DEVICE, 0, 2, 0, 0, 0, 64];
    b.extend_from_slice(&vid.to_le_bytes());
    b.extend_from_slice(&pid.to_le_bytes());
    b.extend_from_slice(&[0, 1, 1, 2, 0, 1]);
    b.extend_from_slice(&[9, DT_CONFIG, 25, 0, 1, 1, 0, 0xa0, 250]);
    b.extend_from_slice(&[9, DT_INTERFACE, 0, 0, 1, 3, 0, 0, 0]);
    b.extend_from_slice(&[7, DT_ENDPOINT, 0x81, 3, 64, 0, 1]);
    b
}

fn facts(vid: u16, pid: u16, busnum: &str, devnum: &str) -> SysfsFacts {
    SysfsFacts {
        descriptors: blob(vid, pid),
        busnum: Some(busnum.to_string()),
        devnum: Some(devnum.to_string()),
        config_value: Some("1\n".to_string()),
        speed: Some("480\n".to_string()),
        exists: true,
    }
}

fn device(busid: &str, vid: u16, pid: u16, busnum: &str, devnum: &str) -> DeviceSummary {
    summary_from_sysfs(busid, &facts(vid, pid, busnum, devnum)).unwrap()
}

#[test]
fn enumerate_hostile_bus_ids_never_reach_the_filesystem() {
    for good in ["1-2", "1-2.3.4", "usb1", "1-2:1.0"] {
        assert!(is_valid_busid(good), "{good} should be accepted");
    }
    for bad in [
        "",
        "../../../etc/passwd",
        "1-2/../..",
        "1-2/descriptors",
        "a..b",
        "$(whoami)",
        "1 2",
    ] {
        assert!(!is_valid_busid(bad), "{bad:?} should be rejected");
        assert!(sysfs_attr_path(bad, "busnum").is_none());
        assert!(sys_path(bad).is_none());
        assert!(summary_from_sysfs(bad, &facts(1, 2, "1", "7")).is_err());
    }
}

#[test]
fn node_paths_are_zero_padded() {
    assert_eq!(node_path(1, 7), "/dev/bus/usb/001/007");
    assert_eq!(node_path(12, 145), "/dev/bus/usb/012/145");
}

#[test]
fn node_paths_round_trip() {
    for (b, d) in [(1u32, 7u32), (12, 145), (3, 1)] {
        assert_eq!(split_node_path(&node_path(b, d)), Some((b, d)));
    }
}

#[test]
fn unrelated_paths_are_not_mistaken_for_device_nodes() {
    assert_eq!(split_node_path("/dev/null"), None);
    assert_eq!(split_node_path("/dev/bus/usb/001"), None);
    assert_eq!(split_node_path("socket:[12345]"), None);
}

#[test]
fn listing_the_local_bus_is_self_consistent() {
    let devs = list_all(vec![
        device("3-12", 0x28de, 0x1304, "3", "12"),
        device("1-4", 0x28de, 0x1306, "1", "4"),
        device("1-2.1", 0x046d, 0xc52b, "1", "3"),
    ]);
    assert_eq!(devs.len(), 3);
    for d in &devs {
        assert!(!d.busid.is_empty());
        assert!(d.busnum > 0, "{} has busnum 0", d.busid);
        assert_eq!(
            d.interfaces.len(),
            d.to_usbip().b_num_interfaces as usize,
            "{} advertises a different interface count than it encodes",
            d.busid
        );
        assert!(d.node_path.starts_with("/dev/bus/usb/"));
    }
}

#[test]
fn devices_are_listed_in_bus_id_order() {
    let devs = list_all(vec![
        device("3-12", 0x28de, 0x1304, "3", "12"),
        device("1-4", 0x28de, 0x1306, "1", "4"),
        device("1-2.1", 0x046d, 0xc52b, "1", "3"),
    ]);
    let ids: Vec<&str> = devs.iter().map(|d| d.busid.as_str()).collect();
    assert_eq!(ids, vec!["1-2.1", "1-4", "3-12"]);

    let allowed = list(&DeviceFilter::default(), devs);
    let ids: Vec<&str> = allowed.iter().map(|d| d.busid.as_str()).collect();
    assert_eq!(ids, vec!["1-4", "3-12"], "only Valve's devices");

    // The bus id decides, not the order in which the kernel numbered the devices.
    let devs = list_all(vec![
        device("1-2", 0x28de, 0x1304, "1", "1"),
        device("1-10", 0x28de, 0x1304, "1", "3"),
        device("1-1", 0x28de, 0x1304, "1", "2"),
    ]);
    let ids: Vec<&str> = devs.iter().map(|d| d.busid.as_str()).collect();
    assert_eq!(ids, vec!["1-1", "1-10", "1-2"]);
}

#[test]
fn a_scan_finds_the_devices_that_describe_themselves() {
    let entry = |name: &str, facts: Option<SysfsFacts>| BusEntry {
        name: name.to_string(),
        facts,
    };
    let good = || Some(facts(0x28de, 0x1304, "1", "7"));
    let mut unnumbered = facts(0x28de, 0x1304, "1", "8");
    unnumbered.devnum = None;
    let mut garbled = facts(0x28de, 0x1304, "1", "9");
    garbled.descriptors.truncate(10);
    let found = scan(&vec![
        entry("3-1", good()),
        entry("usb1", good()),
        entry("1-2:1.0", good()),
        entry("1-3", None),
        entry("1-4", Some(unnumbered)),
        entry("1-5", Some(garbled)),
        entry("1-6/..", good()),
        entry("1-2", good()),
    ]);
    let ids: Vec<&str> = found.iter().map(|d| d.busid.as_str()).collect();
    assert_eq!(ids, vec!["3-1", "1-2"]);
    assert_eq!(found[0].vid_pid(), (0x28de, 0x1304));
    let listed = list_all(found);
    let ids: Vec<&str> = listed.iter().map(|d| d.busid.as_str()).collect();
    assert_eq!(ids, vec!["1-2", "3-1"]);
    assert!(scan(&vec![]).is_empty());
}

#[test]
fn a_summary_holds_what_sysfs_says() {
    let d = device("3-12", 0x28de, 0x1304, " 3\n", "12\n");
    assert_eq!((d.busnum, d.devnum), (3, 12));
    assert_eq!(d.sys_path, "/sys/bus/usb/devices/3-12");
    assert_eq!(d.node_path, "/dev/bus/usb/003/012");
    assert_eq!(d.speed, Speed::High);
    assert_eq!(d.config_value, 1);
    assert_eq!(d.vid_pid(), (0x28de, 0x1304));
    let u = d.to_usbip();
    assert_eq!(u.busid, "3-12");
    assert_eq!(u.devid(), (3 << 16) | 12);
    assert_eq!(u.b_num_interfaces, 1);
    assert_eq!(u.interfaces[0].class, 3);
}

#[test]
fn each_bad_summary_has_its_own_error() {
    let e = summary_from_sysfs("a..b", &facts(1, 2, "1", "7")).unwrap_err();
    assert!(matches!(e, SummaryError::BadBusid { .. }));
    let mut f = facts(1, 2, "1", "7");
    f.busnum = None;
    let e = summary_from_sysfs("1-2", &f).unwrap_err();
    assert!(matches!(e, SummaryError::NoNumbers { .. }));
    let mut f = facts(1, 2, "1", "7");
    f.descriptors.truncate(4);
    let e = summary_from_sysfs("1-2", &f).unwrap_err();
    assert!(matches!(e, SummaryError::Descriptors(_)));
    let mut f = facts(1, 2, "1", "7");
    f.descriptors.truncate(18);
    let e = summary_from_sysfs("1-2", &f).unwrap_err();
    assert_eq!(e, SummaryError::NoSuchConfig { value: 1 });
}

#[test]
fn attributes_are_read_loosely() {
    assert_eq!(sysfs_config_value("2\n"), Some(2));
    assert_eq!(sysfs_config_value(""), None, "an unconfigured device");
    assert_eq!(sysfs_config_value("256"), None);
    assert_eq!(sysfs_speed("12\n"), Speed::Full);
    assert_eq!(sysfs_speed("\u{2003}5000 "), Speed::Super, "any white space is trimmed");
    assert_eq!(
        numbers_for_busid(&Some("3\n".to_string()), &Some("12".to_string())),
        Some((3, 12))
    );
    assert_eq!(numbers_for_busid(&None, &Some("12".to_string())), None);
    assert_eq!(default_config_value(&parse(&blob(1, 2)).unwrap()), 1);
    assert_eq!(
        sysfs_attr_path("1-2", "busnum").unwrap(),
        "/sys/bus/usb/devices/1-2/busnum"
    );
    assert!(is_device_entry("1-2.3"));
    assert!(!is_device_entry("1-2:1.0"), "an interface");
    assert!(!is_device_entry("usb1"), "a root hub");
}

#[test]
fn a_bus_id_is_found_by_its_numbers() {
    let entry = |name: &str, b: &str, d: &str| SysfsEntry {
        name: name.to_string(),
        busnum: Some(b.to_string()),
        devnum: Some(d.to_string()),
    };
    let entries = vec![
        entry("1-2", "1", "7"),
        entry("3-12", "3", "12"),
        SysfsEntry {
            name: "1-2:1.0".to_string(),
            busnum: None,
            devnum: None,
        },
    ];
    assert_eq!(busid_for(&entries, 3, 12).as_deref(), Some("3-12"));
    assert_eq!(busid_for(&entries, 3, 13), None);
}

#[test]
fn a_bad_bus_id_is_quoted_with_escapes() {
    let e = summary_from_sysfs("a\"\n", &facts(1, 2, "1", "7")).unwrap_err();
    assert_eq!(e.to_string(), "\"a\\\"\\n\" is not a usable sysfs bus id");
}
