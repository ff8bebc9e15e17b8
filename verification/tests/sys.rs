use usbfwd::backend::sys::{ioc, Layout, Requests};

#[test]
fn other_struct_sizes_match() {
    let l = Layout::for_pointer_size(8);
    assert_eq!(l.ioctl, 16);
    assert_eq!(l.ctrltransfer, 24);
    assert_eq!(l.setinterface, 8);
    assert_eq!(l.disconnect_claim, 264);
}

#[test]
fn the_urb_has_the_size_that_the_kernel_expects() {
    assert_eq!(Layout::for_pointer_size(8).urb, 56);
    assert_eq!(Layout::for_pointer_size(4).urb, 44);
}

#[test]
fn ioctl_numbers_match_the_x86_64_header() {
    let r = Requests::for_layout(&Layout::for_pointer_size(8));
    assert_eq!(r.control, 0xc018_5500);
    assert_eq!(r.setinterface, 0x8008_5504);
    assert_eq!(r.setconfiguration, 0x8004_5505);
    assert_eq!(r.submiturb, 0x8038_550a);
    assert_eq!(r.discardurb, 0x0000_550b);
    assert_eq!(r.reapurb, 0x4008_550c);
    assert_eq!(r.reapurbndelay, 0x4008_550d);
    assert_eq!(r.claiminterface, 0x8004_550f);
    assert_eq!(r.releaseinterface, 0x8004_5510);
    assert_eq!(r.ioctl, 0xc010_5512);
    assert_eq!(r.reset, 0x0000_5514);
    assert_eq!(r.clear_halt, 0x8004_5515);
    assert_eq!(r.disconnect, 0x0000_5516);
    assert_eq!(r.connect, 0x0000_5517);
    assert_eq!(r.get_capabilities, 0x8004_551a);
    assert_eq!(r.disconnect_claim, 0x8108_551b);
    assert_eq!(r.get_speed, 0x0000_551f);
}

#[test]
fn request_numbers_pack_their_parts() {
    assert_eq!(ioc(3, 18, 16), 0xc010_5512);
    assert_eq!(ioc(0, 11, 0), 0x0000_550b);
}
