use usbfwd::attach::vhci::{
    attach, detach, hcd_dir, loaded, modprobe_error, newly_used, not_loaded, occupied_ports,
    parse_status, ports, record_port, records, run_error, run_outcome, status_files, Port,
    VDEV_ST_USED,
};

/// Verbatim from `/sys/devices/platform/vhci_hcd.0/status` with one
/// device attached.
const SAMPLE: &str = "\
hub port sta spd dev      sockfd local_busid
hs  0000 004 000 00000000 000000 0-0
hs  0001 006 002 00030003 000009 5-1
hs  0002 004 000 00000000 000000 0-0
ss  0008 004 000 00000000 000000 0-0
";

#[test]
fn the_header_line_is_skipped() {
    let p = parse_status(SAMPLE);
    assert_eq!(p.len(), 4, "got {p:?}");
    assert!(p.iter().all(|p| p.hub == "hs" || p.hub == "ss"));
}

#[test]
fn a_used_port_is_decoded_fully() {
    let p = parse_status(SAMPLE);
    let used: Vec<&Port> = p.iter().filter(|p| p.in_use()).collect();
    assert_eq!(used.len(), 1);
    let u = used[0];
    assert_eq!(u.port, 1);
    assert_eq!(u.status, VDEV_ST_USED);
    assert_eq!(u.speed, 2);
    // devid is hex: bus 3, device 3.
    assert_eq!(u.devid, 0x0003_0003);
    assert_eq!(u.devid >> 16, 3);
    assert_eq!(u.devid & 0xffff, 3);
    assert_eq!(u.sockfd, 9);
    assert_eq!(u.local_busid, "5-1");
    assert_eq!(u.status_name(), "in use");
}

#[test]
fn free_ports_are_not_reported_as_attached() {
    let p = parse_status(SAMPLE);
    assert_eq!(p.iter().filter(|p| !p.in_use()).count(), 3);
    assert_eq!(p[0].status_name(), "free");
}

#[test]
fn garbage_lines_are_ignored_rather_than_panicking() {
    assert!(parse_status("").is_empty());
    assert!(parse_status("nonsense\n").is_empty());
    assert!(parse_status("hs 0001\n").is_empty());
    assert!(parse_status("hs  xxxx yyy zzz 00000000 000000 0-0\n").is_empty());
}

#[test]
fn a_port_being_enumerated_counts_as_occupied() {
    // Measured on a real attach: vhci reports 005 (NOTASSIGNED) for about
    // 300 ms before promoting to 006 (USED). Treating only 006 as taken
    // makes an attach look like it did nothing.
    let mid_attach = "hs  0000 005 000 00000000 000000 0-0\n";
    let p = &parse_status(mid_attach)[0];
    assert!(!p.in_use(), "not finished enumerating yet");
    assert!(p.occupied(), "but the port is certainly not free");
    assert_eq!(p.status_name(), "not assigned");

    let free = &parse_status("hs  0000 004 000 00000000 000000 0-0\n")[0];
    assert!(!free.occupied());

    let broken = &parse_status("hs  0000 007 000 00000000 000000 0-0\n")[0];
    assert!(broken.occupied());
    assert!(broken.failed());
}

#[test]
fn a_new_port_is_detected_by_difference() {
    assert_eq!(newly_used(&[0, 2], &[0, 1, 2]), Some(1));
    assert_eq!(newly_used(&[0, 1], &[0, 1]), None);
    assert_eq!(newly_used(&[], &[3]), Some(3));
}

#[test]
fn status_files_are_read_in_order() {
    let names: Vec<String> = ["status.1", "attach", "status", "statusx", "status.0"]
        .iter()
        .map(|s| s.to_string())
        .collect();
    assert_eq!(status_files(&names), vec!["status", "status.0", "status.1"]);
    let all = ports(&[
        Some(SAMPLE.to_string()),
        None,
        Some("hs  0016 005 000 00000000 000000 0-0\n".to_string()),
    ]);
    assert_eq!(all.len(), 5);
    assert_eq!(occupied_ports(&all), vec![1, 16]);
}

#[test]
fn fields_that_are_not_numbers_are_taken_for_nothing() {
    let p = &parse_status("ss 8 6 5 zz yy 6-1 more\n")[0];
    assert_eq!((p.devid, p.sockfd), (0, 0));
    assert_eq!(p.local_busid, "6-1");
    assert_eq!(parse_status("ss 8 99 5 0 0 0-0\n")[0].status_name(), "unknown");
    assert_eq!(parse_status("ss 8 7 5 0 0 0-0\n")[0].status_name(), "error");
}

#[test]
fn the_controller_is_there_or_not() {
    let d = hcd_dir(true);
    assert_eq!(d.as_deref(), Some("/sys/devices/platform/vhci_hcd.0"));
    assert!(loaded(&d));
    assert!(!loaded(&hcd_dir(false)));
    assert_eq!(
        not_loaded(),
        "/sys/devices/platform/vhci_hcd.0 is missing; vhci-hcd is not loaded"
    );
    assert_eq!(
        modprobe_error(b" not found\n"),
        "modprobe vhci-hcd failed: not found. On Fedora the module is in kernel-modules-extra; on SteamOS it is built in."
    );
}

#[test]
fn records_come_in_the_order_of_their_ports() {
    let file = |name: &str, text: &str| (name.to_string(), Some(text.to_string()));
    let files = vec![
        file("port10", "deck 3240 3-12\n"),
        file("port2", "tablet 3241 1-4\n"),
        file("port3", "cut short\n"),
        file("other", "deck 3240 3-12\n"),
        ("port4".to_string(), None),
    ];
    let r = records(&files);
    assert_eq!(r.len(), 2);
    assert_eq!((r[0].port, r[1].port), (2, 10));
    assert_eq!(r[0].host, "tablet");
    assert_eq!(r[0].service_port, "3241");
    assert_eq!(r[1].busid, "3-12");
    assert_eq!(record_port("port7"), Some(7));
    assert_eq!(record_port("portx"), None);
    assert_eq!(record_port("7"), None);
}

#[test]
fn the_tool_is_called_with_its_options() {
    let args = attach("deck", 3240, "3-12");
    assert_eq!(
        args,
        vec!["--tcp-port", "3240", "attach", "--remote=deck", "--busid=3-12"]
    );
    assert_eq!(detach(7), vec!["detach", "--port=7"]);
    assert_eq!(
        run_outcome("usbip", &detach(7), true, "exit status: 0", b" fine \n"),
        Ok("fine".to_string())
    );
    assert_eq!(
        run_outcome("usbip", &detach(7), false, "exit status: 1", b"no such port\n"),
        Err("no such port".to_string())
    );
    assert_eq!(
        run_outcome("usbip", &detach(7), false, "exit status: 1", b"\n"),
        Err("`usbip detach --port=7` exited with exit status: 1".to_string())
    );
    assert_eq!(
        run_error("usbip", &detach(7), "not found"),
        "running `usbip detach --port=7`: not found. Install the usbip tools (Fedora: `dnf install usbip`) or set `usbip` in [attach]."
    );
}
