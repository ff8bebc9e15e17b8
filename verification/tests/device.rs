use usbfwd::proto::device::{Speed, UsbDevice, UsbInterface};
use usbfwd::proto::wire::{Reader, Writer};
use usbfwd::proto::SIZE_USB_DEVICE;

fn sample() -> UsbDevice {
    UsbDevice {
        path: "/sys/bus/usb/devices/1-2".into(),
        busid: "1-2".into(),
        busnum: 1,
        devnum: 7,
        speed: Speed::High.as_raw(),
        id_vendor: 0x28de,
        id_product: 0x1304,
        bcd_device: 0x0100,
        b_device_class: 0,
        b_device_sub_class: 0,
        b_device_protocol: 0,
        b_configuration_value: 1,
        b_num_configurations: 1,
        b_num_interfaces: 7,
        interfaces: vec![
            UsbInterface {
                class: 3,
                subclass: 0,
                protocol: 0
            };
            7
        ],
    }
}

#[test]
fn device_record_is_312_bytes() {
    let mut w = Writer::new();
    sample().encode(&mut w, false);
    assert_eq!(w.len(), SIZE_USB_DEVICE);
    assert_eq!(w.len(), 312);
}

#[test]
fn roundtrip_with_interfaces() {
    let d = sample();
    let mut w = Writer::new();
    d.encode(&mut w, true);
    assert_eq!(w.len(), 312 + 7 * 4);
    let v = w.into_vec();
    let mut r = Reader::new(&v);
    assert_eq!(UsbDevice::decode(&mut r, true).unwrap(), d);
    assert_eq!(r.remaining(), 0);
}

#[test]
fn roundtrip_without_interfaces() {
    let mut d = sample();
    let mut w = Writer::new();
    d.encode(&mut w, false);
    let v = w.into_vec();
    let mut r = Reader::new(&v);
    d.interfaces.clear();
    assert_eq!(UsbDevice::decode(&mut r, false).unwrap(), d);
}

#[test]
fn devid_packs_bus_and_dev() {
    assert_eq!(sample().devid(), (1 << 16) | 7);
}

#[test]
fn missing_interfaces_are_padded_not_panicked() {
    // b_num_interfaces says 7 but the vector is short: encode must still
    // emit 7 records so the frame length stays correct.
    let mut d = sample();
    d.interfaces.truncate(2);
    let mut w = Writer::new();
    d.encode(&mut w, true);
    assert_eq!(w.len(), 312 + 7 * 4);
}
