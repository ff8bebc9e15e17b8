use usbfwd::attach::client::describe;
use usbfwd::proto::device::{UsbDevice, UsbInterface};
use usbfwd::proto::io::{read_devlist_reply, read_op_request, Error, OpRequest};
use usbfwd::proto::op;

fn puck() -> UsbDevice {
    UsbDevice {
        busid: "3-12".into(),
        busnum: 3,
        devnum: 12,
        id_vendor: 0x28de,
        id_product: 0x1304,
        b_num_interfaces: 7,
        interfaces: vec![
            UsbInterface {
                class: 3,
                subclass: 0,
                protocol: 0
            };
            7
        ],
        ..Default::default()
    }
}

#[test]
fn devlist_round_trips_against_a_stub_exporter() {
    let req = op::encode_devlist_request();
    assert_eq!(req.len(), 8);
    assert_eq!(
        read_op_request(&mut &req[..]).unwrap(),
        Some(OpRequest::DevList)
    );
    let wire = op::encode_devlist_reply(&[puck()]);
    let got = read_devlist_reply(&mut &wire[..]).unwrap();
    assert_eq!(got, vec![puck()]);
    assert_eq!(describe(&got[0]), "3-12 (28de:1304, 7 interfaces)");
}

#[test]
fn a_reply_that_is_not_there_yet_says_what_is_missing() {
    let wire = op::encode_devlist_reply(&[puck()]);
    let mut have = 0;
    // Reading exactly what is missing each time never reads too far.
    let got = loop {
        match read_devlist_reply(&mut &wire[..have]) {
            Ok(v) => break v,
            Err(Error::UnexpectedEof { missing }) => {
                assert!(missing > 0);
                have += missing;
                assert!(have <= wire.len());
            }
            Err(e) => panic!("{}", e.to_string()),
        }
    };
    assert_eq!(have, wire.len());
    assert_eq!(got, vec![puck()]);
}
