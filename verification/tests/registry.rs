use usbfwd::server::registry::Registry;

#[test]
fn a_lease_names_its_device() {
    let mut r = Registry::new();
    assert_eq!(r.acquire("3-12").unwrap().busid(), "3-12");
}

#[test]
fn a_device_can_only_be_leased_once() {
    let mut r = Registry::new();
    let a = r.acquire("1-2").expect("first lease");
    assert!(r.acquire("1-2").is_none(), "second import must be refused");
    assert!(
        r.acquire("1-3").is_some(),
        "a different device is unaffected"
    );
    assert!(r.in_use("1-2"));
    r.release(a);
    assert!(!r.in_use("1-2"));
    assert!(
        r.acquire("1-2").is_some(),
        "released devices can be re-imported"
    );
}
