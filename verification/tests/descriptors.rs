use usbfwd::backend::descriptors::{
    parse, DescriptorError, TransferType, DT_CONFIG, DT_DEVICE, DT_ENDPOINT, DT_INTERFACE,
};

/// A 7-interface composite in the shape of the Proteus puck: interfaces
/// 0-1 internal comms, 2-5 controller slots, 6 pogo pins, each with one
/// interrupt IN and one interrupt OUT endpoint.
fn puck_blob() -> Vec<u8> {
    let mut dev = vec![
        18, DT_DEVICE, 0x00, 0x02, 0x00, 0x00, 0x00, 64, 0xde, 0x28, 0x04, 0x13, 0x00, 0x01, 1,
        2, 0, 1,
    ];
    let mut cfg_body = Vec::new();
    for ifn in 0..7u8 {
        cfg_body.extend_from_slice(&[9, DT_INTERFACE, ifn, 0, 2, 3, 0, 0, 0]);
        // A HID descriptor between the interface and its endpoints, which
        // is where real devices put one.
        cfg_body.extend_from_slice(&[9, 0x21, 0x11, 0x01, 0x00, 1, 0x22, 0x40, 0x00]);
        cfg_body.extend_from_slice(&[7, DT_ENDPOINT, 0x81 + ifn, 0x03, 64, 0, 1]);
        cfg_body.extend_from_slice(&[7, DT_ENDPOINT, 0x01 + ifn, 0x03, 64, 0, 1]);
    }
    let total = 9 + cfg_body.len();
    let mut cfg = vec![
        9,
        DT_CONFIG,
        (total & 0xff) as u8,
        (total >> 8) as u8,
        7,
        1,
        0,
        0xa0,
        250,
    ];
    cfg.extend_from_slice(&cfg_body);
    dev.extend_from_slice(&cfg);
    dev
}

#[test]
fn parses_the_device_descriptor() {
    let d = parse(&puck_blob()).unwrap();
    assert_eq!(d.device.id_vendor, 0x28de);
    assert_eq!(d.device.id_product, 0x1304);
    assert_eq!(d.device.b_num_configurations, 1);
}

#[test]
fn finds_all_seven_interfaces_and_their_endpoints() {
    let d = parse(&puck_blob()).unwrap();
    let cfg = d.config(1).expect("config 1");
    assert_eq!(cfg.num_interfaces, 7);
    assert_eq!(cfg.interface_numbers(), vec![0, 1, 2, 3, 4, 5, 6]);
    // Interfaces 2..=5 are the controller slots SDL gates on; they must be
    // present or Steam rejects the device outright.
    for slot in 2..=5u8 {
        let a = cfg
            .alt_settings
            .iter()
            .find(|a| a.interface_number == slot)
            .expect("slot interface");
        assert_eq!(a.class, 3, "HID");
        assert_eq!(a.endpoints.len(), 2);
        assert_eq!(a.endpoints[0].transfer_type(), TransferType::Interrupt);
        assert!(a.endpoints[0].is_in());
        assert!(!a.endpoints[1].is_in());
    }
}

#[test]
fn interleaved_hid_descriptors_do_not_shift_the_walk() {
    let d = parse(&puck_blob()).unwrap();
    let cfg = d.config(1).unwrap();
    assert_eq!(cfg.alt_settings.len(), 7);
    assert!(cfg.alt_settings.iter().all(|a| a.endpoints.len() == 2));
}

/// The wired 2026 controller: one unified interface, no interface-number
/// gate in SDL, so it is the simpler of the two cases.
fn wired_blob() -> Vec<u8> {
    let mut dev = vec![
        18, DT_DEVICE, 0x00, 0x02, 0, 0, 0, 64, 0xde, 0x28, 0x06, 0x13, 0x00, 0x01, 1, 2, 0, 1,
    ];
    let body = vec![
        9,
        DT_INTERFACE,
        0,
        0,
        2,
        3,
        0,
        0,
        0, //
        7,
        DT_ENDPOINT,
        0x82,
        0x03,
        64,
        0,
        1, //
        7,
        DT_ENDPOINT,
        0x02,
        0x03,
        64,
        0,
        1,
    ];
    let total = 9 + body.len();
    let mut cfg = vec![9, DT_CONFIG, total as u8, 0, 1, 1, 0, 0xa0, 250];
    cfg.extend_from_slice(&body);
    dev.extend_from_slice(&cfg);
    dev
}

#[test]
fn parses_a_single_interface_device() {
    let d = parse(&wired_blob()).unwrap();
    let cfg = d.config(1).unwrap();
    assert_eq!(cfg.interface_numbers(), vec![0]);
    assert_eq!(cfg.primary_alt_settings().len(), 1);
}

#[test]
fn alt_settings_collapse_to_one_entry_per_interface() {
    let body = vec![
        9,
        DT_INTERFACE,
        0,
        0,
        0,
        1,
        1,
        0,
        0, //
        9,
        DT_INTERFACE,
        0,
        1,
        1,
        1,
        2,
        0,
        0, //
        7,
        DT_ENDPOINT,
        0x81,
        0x01,
        192,
        0,
        1,
    ];
    let total = 9 + body.len();
    let mut blob = vec![
        18, DT_DEVICE, 0, 2, 0, 0, 0, 64, 0xde, 0x28, 0, 0, 0, 1, 0, 0, 0, 1,
    ];
    blob.extend_from_slice(&[9, DT_CONFIG, total as u8, 0, 1, 1, 0, 0x80, 50]);
    blob.extend_from_slice(&body);
    let cfg = parse(&blob).unwrap().configs.remove(0);
    assert_eq!(cfg.alt_settings.len(), 2);
    assert_eq!(cfg.interface_numbers(), vec![0]);
    let primary = cfg.primary_alt_settings();
    assert_eq!(primary.len(), 1);
    assert_eq!(primary[0].alternate_setting, 0);
}

#[test]
fn multiple_configurations_are_kept_separate() {
    let mut blob = vec![
        18, DT_DEVICE, 0, 2, 0, 0, 0, 64, 0x01, 0x00, 0x02, 0x00, 0, 1, 0, 0, 0, 2,
    ];
    for value in [1u8, 2u8] {
        let body = vec![9, DT_INTERFACE, 0, 0, 0, value, 0, 0, 0];
        let total = 9 + body.len();
        blob.extend_from_slice(&[9, DT_CONFIG, total as u8, 0, 1, value, 0, 0x80, 50]);
        blob.extend_from_slice(&body);
    }
    let d = parse(&blob).unwrap();
    assert_eq!(d.configs.len(), 2);
    assert_eq!(d.config(2).unwrap().alt_settings[0].class, 2);
    assert!(d.config(3).is_none());
}

#[test]
fn truncated_input_errors_rather_than_panics() {
    assert!(parse(&[]).is_err());
    assert!(parse(&[18, DT_DEVICE, 0, 2]).is_err());
    // A config descriptor claiming more bytes than are present must be
    // clamped, not indexed past the end.
    let mut blob = vec![
        18, DT_DEVICE, 0, 2, 0, 0, 0, 64, 1, 0, 2, 0, 0, 1, 0, 0, 0, 1,
    ];
    blob.extend_from_slice(&[9, DT_CONFIG, 0xff, 0xff, 1, 1, 0, 0x80, 50]);
    let d = parse(&blob).unwrap();
    assert_eq!(d.configs.len(), 1);
    assert!(d.configs[0].alt_settings.is_empty());
}

#[test]
fn wrong_leading_descriptor_type_is_rejected() {
    let mut blob = vec![9, DT_CONFIG, 9, 0, 1, 1, 0, 0x80, 50];
    blob.resize(24, 0);
    assert!(parse(&blob).is_err());
}

#[test]
fn each_malformed_blob_has_its_own_error() {
    let device = vec![
        18, DT_DEVICE, 0, 2, 0, 0, 0, 64, 1, 0, 2, 0, 0, 1, 0, 0, 0, 1,
    ];
    assert_eq!(
        parse(&device[..17]),
        Err(DescriptorError::TooShort { len: 17 })
    );

    let mut other = device.clone();
    other[1] = DT_CONFIG;
    assert_eq!(
        parse(&other),
        Err(DescriptorError::NotADevice { kind: DT_CONFIG })
    );

    // A total length that does not even cover the head of the configuration.
    let mut short = device.clone();
    short.extend_from_slice(&[9, DT_CONFIG, 3, 0, 1, 1, 0, 0x80, 50]);
    assert_eq!(parse(&short), Err(DescriptorError::ShortConfig));

    // An endpoint before any interface.
    let mut stray = device;
    stray.extend_from_slice(&[9, DT_CONFIG, 16, 0, 1, 1, 0, 0x80, 50]);
    stray.extend_from_slice(&[7, DT_ENDPOINT, 0x81, 3, 64, 0, 1]);
    assert_eq!(parse(&stray), Err(DescriptorError::StrayEndpoint));
}

#[test]
fn endpoint_fields_are_read_little_endian() {
    let d = parse(&puck_blob()).unwrap();
    let ep = d.config(1).unwrap().alt_settings[3].endpoints[0];
    assert_eq!(ep.address, 0x84);
    assert_eq!(ep.number(), 4);
    assert_eq!(ep.max_packet_size, 64);
    assert_eq!(ep.interval, 1);
    assert_eq!(TransferType::from_attributes(0xfe), TransferType::Bulk);
    assert_eq!(TransferType::from_attributes(0x01), TransferType::Isochronous);
    assert_eq!(TransferType::from_attributes(0x00), TransferType::Control);
}
