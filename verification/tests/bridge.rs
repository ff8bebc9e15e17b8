use usbfwd::backend::usbfs::{DeviceFacts, OpenError, UsbfsDevice};
use usbfwd::bridge::{
    logcat_priority, logcat_text, AdoptError, Adopted, Bridge, Launch, ERR_ALREADY_RUNNING,
    ERR_BAD_DESCRIPTOR, ERR_BIND_FAILED, ERR_INTERNAL, ERR_NOT_A_USB_DEVICE,
};
use usbfwd::common::log::Level;
use usbfwd::common::netif::{Interface, Ip};
use usbfwd::server::config::Bind;

#[test]
fn nothing_is_running_to_begin_with() {
    let mut b = Bridge::new();
    assert_eq!(b.running_port(), None);
    // Stopping when idle must be a no-op, not a panic: the Android
    // service calls it from onDestroy regardless of state.
    b.stop();
    b.stop();
    assert_eq!(b.running_port(), None);
    assert_eq!(b.is_running(), 0);
}

#[test]
fn a_descriptor_that_is_not_a_usb_device_is_rejected() {
    let b = Bridge::new();
    let rc = b.start(Adopted::NotADevice, &None, 0, true, false).unwrap_err();
    assert!(rc < 0, "expected an error code, got {rc}");
    assert_eq!(rc, ERR_NOT_A_USB_DEVICE);
    assert_eq!(b.running_port(), None, "a failed start must leave no state");
}

#[test]
fn a_closed_descriptor_is_rejected() {
    let rc = Bridge::new().start(Adopted::Unusable, &None, 0, true, false);
    assert_eq!(rc, Err(ERR_BAD_DESCRIPTOR));
}

#[test]
fn a_descriptor_is_judged_by_why_it_could_not_be_taken_over() {
    assert_eq!(Adopted::from_outcome(Ok(())), Adopted::Device);
    assert_eq!(
        Adopted::from_outcome(Err(AdoptError::Io)),
        Adopted::Unusable
    );
    let mut facts = DeviceFacts {
        blob: vec![0; 4],
        busnum: 1,
        devnum: 2,
        busid: "1-2".to_string(),
        in_sysfs: false,
        sysfs_config: None,
        asked_config: None,
        speed: None,
        sysfs_speed: None,
        caps: 0,
    };
    for blob in [vec![], vec![0; 64], b"not a device".to_vec()] {
        facts.blob = blob;
        let e = UsbfsDevice::build(facts.clone()).err().unwrap();
        assert_eq!(
            Adopted::from_outcome(Err(AdoptError::Open(e))),
            Adopted::NotADevice
        );
    }
    let e = OpenError::NoSuchConfig { value: 1 };
    assert_eq!(
        Adopted::from_outcome(Err(AdoptError::Open(e))),
        Adopted::NotADevice
    );
}

fn tailnet() -> Option<Vec<Interface>> {
    Some(vec![Interface {
        name: "tun0".to_string(),
        addr: Ip::V4([100, 101, 102, 103]),
    }])
}

#[test]
fn loopback_comes_with_the_tailnet() {
    let b = Bridge::new();
    let c = b.start(Adopted::Device, &tailnet(), 4000, false, true).unwrap();
    let mut v6 = [0; 16];
    v6[15] = 1;
    assert_eq!(
        c.binds,
        vec![
            Bind::Tailscale,
            Bind::Addr(Ip::V4([127, 0, 0, 1])),
            Bind::Addr(Ip::V6(v6)),
        ]
    );
    assert_eq!(c.port, 4000);
    assert!(c.prefetch);
    for bad in [0, -1, 65536] {
        let c = b.start(Adopted::Device, &tailnet(), bad, false, false).unwrap();
        assert_eq!(c.port, 3240);
    }
}

#[test]
fn nothing_is_exposed_without_a_tailnet_unless_asked_for() {
    let b = Bridge::new();
    for none in [None, Some(vec![])] {
        let rc = b.start(Adopted::Device, &none, 0, false, false);
        assert_eq!(rc, Err(ERR_BIND_FAILED));
        let c = b.start(Adopted::Device, &none, 0, true, false).unwrap();
        assert_eq!(c.binds, vec![Bind::Any]);
    }
}

#[test]
fn one_exporter_runs_at_a_time() {
    let mut b = Bridge::new();
    assert_eq!(b.started(3240, Launch::BindFailed), ERR_BIND_FAILED);
    assert_eq!(b.started(3240, Launch::SpawnFailed), ERR_INTERNAL);
    assert_eq!(b.running_port(), None);
    assert_eq!(b.refuses(), None);
    assert_eq!(b.started(3240, Launch::Serving(Some(4000))), 4000);
    assert_eq!(b.running_port(), Some(4000));
    assert_eq!(b.is_running(), 4000);
    assert_eq!(b.refuses(), Some(ERR_ALREADY_RUNNING));
    let rc = b.start(Adopted::Device, &tailnet(), 0, true, false);
    assert_eq!(rc, Err(ERR_ALREADY_RUNNING));
    assert!(b.stop());
    assert!(!b.stop());
    assert_eq!(b.started(3240, Launch::Serving(None)), 3240);
}

#[test]
fn logcat_lines_end_in_their_only_nul() {
    assert_eq!(logcat_text("a\0b"), "a?b\0");
    assert_eq!(logcat_text(""), "\0");
    assert_eq!(logcat_priority(Level::Error), 6);
    assert_eq!(logcat_priority(Level::Trace), 2);
}
