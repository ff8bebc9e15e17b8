//! End-to-end protocol tests, from the bytes of a request to those of the reply.
//!
//! These go through the request reader, the op-code dispatch and the encoders, as
//! a connection does.

use usbfwd::backend::descriptors::{DT_CONFIG, DT_DEVICE, DT_ENDPOINT, DT_INTERFACE};
use usbfwd::backend::enumerate::{self, summary_from_sysfs, SysfsFacts};
use usbfwd::backend::filter::DeviceFilter;
use usbfwd::backend::DeviceSummary;
use usbfwd::proto::io::{read_import_reply, read_op_request};
use usbfwd::proto::op::{self, OpHeader, OP_REP_DEVLIST, OP_REP_IMPORT, ST_NA, ST_OK};
use usbfwd::proto::SIZE_OP_HEADER;
use usbfwd::server::config::Config;
use usbfwd::server::export::{
    advertisement, begin_import, finish_import, handle, is_the_device, print_list, refusal_reply,
    Handled, Refusal, Slots, SysfsDevices, MAX_SESSIONS,
};
use usbfwd::server::registry::Registry;

fn device(busid: &str, vid: u16, pid: u16, busnum: u32, devnum: u32) -> DeviceSummary {
    let mut b = vec![18, DT_DEVICE, 0, 2, 0, 0, 0, 64];
    b.extend_from_slice(&vid.to_le_bytes());
    b.extend_from_slice(&pid.to_le_bytes());
    b.extend_from_slice(&[0, 1, 1, 2, 0, 1]);
    b.extend_from_slice(&[9, DT_CONFIG, 25, 0, 1, 1, 0, 0xa0, 250]);
    b.extend_from_slice(&[9, DT_INTERFACE, 0, 0, 1, 3, 0, 0, 0]);
    b.extend_from_slice(&[7, DT_ENDPOINT, 0x81, 3, 64, 0, 1]);
    let facts = SysfsFacts {
        descriptors: b,
        busnum: Some(busnum.to_string()),
        devnum: Some(devnum.to_string()),
        config_value: Some("1".to_string()),
        speed: Some("480".to_string()),
        exists: true,
    };
    summary_from_sysfs(busid, &facts).unwrap()
}

/// What is plugged in.
fn bus() -> Vec<DeviceSummary> {
    enumerate::list_all(vec![
        device("3-12", 0x28de, 0x1304, 3, 12),
        device("1-2", 0x046d, 0xc52b, 1, 4),
        device("1-2.3", 0x28de, 0x1306, 1, 7),
    ])
}

/// Serves exactly one request.
fn exchange(filter: DeviceFilter, request: &[u8]) -> Vec<u8> {
    let source = SysfsDevices {
        filter,
        max_transfer: 1 << 20,
    };
    let devices = source.list(bus());
    let Ok(request) = read_op_request(&mut &request[..]) else {
        return Vec::new();
    };
    match handle(request, &devices) {
        Handled::Reply(b) => b,
        Handled::Unsupported => Vec::new(),
        Handled::Import(busid) => {
            match begin_import(&mut Registry::new(), &devices, &busid) {
                Err(_) => refusal_reply(),
                Ok(_) => panic!("nothing here claims a device"),
            }
        }
    }
}

#[test]
fn devlist_is_well_formed_and_matches_the_local_filter() {
    let filter: DeviceFilter = "*:*".parse().unwrap();
    let reply = exchange(filter.clone(), &op::encode_devlist_request());
    assert!(reply.len() >= SIZE_OP_HEADER + 4, "reply too short");

    let h = OpHeader::from_bytes(&reply[..SIZE_OP_HEADER]).unwrap();
    h.check_version().expect("version");
    assert_eq!(h.code, OP_REP_DEVLIST);
    assert_eq!(h.status, ST_OK);

    let devs = op::decode_devlist_reply_body(&reply[SIZE_OP_HEADER..]).expect("decode devlist");
    let expected = enumerate::list(&filter, bus());
    assert_eq!(devs.len(), expected.len());

    for (got, want) in devs.iter().zip(expected.iter()) {
        assert_eq!(got.busid, want.busid);
        assert_eq!(got.id_vendor, want.device.id_vendor);
        assert_eq!(got.id_product, want.device.id_product);
        // The interface array length must agree with the count field, or a
        // client would decode the next device from the wrong offset.
        assert_eq!(got.interfaces.len(), got.b_num_interfaces as usize);
        assert_eq!(got.busnum, want.busnum);
        assert_eq!(got.devnum, want.devnum);
    }
}

#[test]
fn an_empty_allow_list_exports_nothing() {
    let reply = exchange("".parse().unwrap(), &op::encode_devlist_request());
    let devs = op::decode_devlist_reply_body(&reply[SIZE_OP_HEADER..]).unwrap();
    assert!(devs.is_empty());
}

#[test]
fn importing_an_unknown_busid_is_refused_without_a_body() {
    let reply = exchange(DeviceFilter::default(), &op::encode_import_request("99-99"));
    assert_eq!(
        reply.len(),
        SIZE_OP_HEADER,
        "a refusal carries no device record"
    );
    let h = OpHeader::from_bytes(&reply).unwrap();
    assert_eq!(h.code, OP_REP_IMPORT);
    assert_eq!(h.status, ST_NA);
}

#[test]
fn a_device_excluded_by_the_filter_cannot_be_imported_by_name() {
    // Naming a real, present device that the allow-list does not cover must
    // still be refused: the bus id arrives over the network.
    let Some(present) = bus().into_iter().next() else {
        return; // no USB devices on this machine
    };
    let reply = exchange(
        "ffff:ffff".parse().unwrap(),
        &op::encode_import_request(&present.busid),
    );
    assert_eq!(reply.len(), SIZE_OP_HEADER);
    assert_eq!(OpHeader::from_bytes(&reply).unwrap().status, ST_NA);
}

#[test]
fn a_traversal_style_busid_is_refused_rather_than_resolved() {
    for evil in ["../../../etc/passwd", "1-2/../../..", "", "1-2\0"] {
        let reply = exchange(DeviceFilter::default(), &op::encode_import_request(evil));
        assert_eq!(
            OpHeader::from_bytes(&reply).unwrap().status,
            ST_NA,
            "{evil:?} must be refused"
        );
    }
}

#[test]
fn a_wrong_protocol_version_is_rejected() {
    let mut req = op::encode_devlist_request();
    req[0] = 0x01;
    req[1] = 0x06; // version 1.0.6
    let reply = exchange(DeviceFilter::default(), &req);
    assert!(reply.is_empty(), "a version mismatch must not be answered");
}

#[test]
fn an_import_is_answered_with_the_device_and_holds_it() {
    let mut registry = Registry::new();
    let devices = bus();
    let lease = begin_import(&mut registry, &devices, "3-12").unwrap();
    assert!(registry.in_use("3-12"));
    assert_eq!(
        begin_import(&mut registry, &devices, "3-12").err(),
        Some(Refusal::AlreadyImported)
    );
    let (reply, lease) = finish_import(&mut registry, lease, Ok(&devices[2]));
    assert_eq!(read_import_reply(&mut &reply[..]).unwrap().busid, "3-12");
    assert!(registry.in_use("3-12"));

    // An import that fails later gives the device back.
    registry.release(lease.unwrap());
    let lease = begin_import(&mut registry, &devices, "3-12").unwrap();
    let refusal = Refusal::CannotClaim("busy".to_string());
    assert_eq!(refusal.to_string(), "cannot claim its interfaces: busy");
    let (reply, lease) = finish_import(&mut registry, lease, Err(refusal));
    assert_eq!(reply, refusal_reply());
    assert!(lease.is_none());
    assert!(!registry.in_use("3-12"));
    assert_eq!(
        begin_import(&mut registry, &devices, "9-9").err(),
        Some(Refusal::NotListed)
    );
    assert_eq!(
        Refusal::NotListed.to_string(),
        "not in the allow-list, or no longer present"
    );
    assert_eq!(
        Refusal::AlreadyImported.to_string(),
        "already imported by another client"
    );
    assert_eq!(
        Refusal::CannotOpen("gone".to_string()).to_string(),
        "cannot open it: gone"
    );
}

#[test]
fn sessions_are_limited() {
    let mut s = Slots::new();
    for _ in 0..MAX_SESSIONS {
        assert!(s.take_slot());
    }
    assert!(!s.take_slot());
    assert!(s.keep_draining(false));
    assert!(!s.keep_draining(true));
    s.done();
    assert!(s.take_slot());
    for _ in 0..MAX_SESSIONS {
        s.done();
    }
    assert!(!s.keep_draining(false));
}

#[test]
fn a_single_device_answers_to_its_own_name_only() {
    let devices = bus();
    assert_eq!(is_the_device(&devices[2], "3-12"), Ok(()));
    assert!(is_the_device(&devices[2], "1-2").is_err());
}

#[test]
fn the_advertisement_names_the_allow_list() {
    let cfg = Config::default();
    let r = advertisement(&cfg, "deck", vec![[192, 168, 1, 7]]);
    assert_eq!(r.instance_fqdn, "deck._usbip._tcp.local");
    assert_eq!(r.host_fqdn, "deck.local");
    assert_eq!(r.port, 3240);
    assert!(r.txt.iter().any(|t| t.contains("28de:*")), "{:?}", r.txt);
    let named = Config {
        name: Some("sofa".to_string()),
        ..Config::default()
    };
    let r = advertisement(&named, "deck", vec![]);
    assert_eq!(r.instance_fqdn, "sofa._usbip._tcp.local");
}

#[test]
fn the_list_shows_what_may_be_exported() {
    let all = bus();
    let filter = DeviceFilter::default();
    let allowed = enumerate::list(&filter, bus());
    let page = print_list(&allowed, &all, &filter);
    let lines: Vec<&str> = page.lines().collect();
    assert_eq!(lines[0], "BUSID      VID:PID    SPEED    INTERFACES");
    assert_eq!(lines.len(), 3);
    assert!(lines[1].starts_with("1-2.3      28de:1306  "));
    assert!(lines[1].ends_with("0:03/00/00"));
    let none: DeviceFilter = "ffff:ffff".parse().unwrap();
    let page = print_list(&[], &all, &none);
    assert!(page.starts_with("No device matches ffff:ffff.\n"));
    assert!(page.contains("  3-12       28de:1304\n"));
    assert_eq!(print_list(&[], &[], &none), "No device matches ffff:ffff.\n");
}
