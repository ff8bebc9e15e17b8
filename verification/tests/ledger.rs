use std::collections::HashMap;

use usbfwd::backend::descriptors::{DT_CONFIG, DT_DEVICE, DT_ENDPOINT, DT_INTERFACE};
use usbfwd::backend::usbfs::{special_done, DeviceFacts, Submission, Urb, UsbfsDevice};
use usbfwd::backend::{SubmitError, UrbRequest};
use usbfwd::proto::io::Pdu;
use usbfwd::proto::pdu::{
    BasicHeader, Body, CmdSubmit, CmdUnlink, Header, USBIP_RET_SUBMIT, USBIP_RET_UNLINK,
};
use usbfwd::server::prefetch::{Prefetch, INTERNAL_BASE};
use usbfwd::server::session::{Action, Session};

/// A session with a device that accepts every URB but those in `refused`.
struct Rig {
    session: Session,
    device: UsbfsDevice,
    urbs: HashMap<u32, Urb>,
    refused: Vec<u32>,
    /// The command, the seqnum and the status of each message that was sent.
    sent: Vec<(u32, u32, i32)>,
}

impl Rig {
    fn new(prefetch: bool) -> Rig {
        let mut blob = vec![18, DT_DEVICE, 0, 2, 0, 0, 0, 64, 0xde, 0x28, 4, 0x13];
        blob.extend_from_slice(&[0, 1, 1, 2, 0, 1]);
        blob.extend_from_slice(&[9, DT_CONFIG, 32, 0, 1, 1, 0, 0xa0, 250]);
        blob.extend_from_slice(&[9, DT_INTERFACE, 0, 0, 2, 3, 0, 0, 0]);
        blob.extend_from_slice(&[7, DT_ENDPOINT, 0x81, 3, 64, 0, 1]);
        blob.extend_from_slice(&[7, DT_ENDPOINT, 0x02, 3, 64, 0, 1]);
        let device = UsbfsDevice::build(DeviceFacts {
            blob,
            busnum: 1,
            devnum: 2,
            busid: "1-2".to_string(),
            in_sysfs: false,
            sysfs_config: None,
            asked_config: None,
            speed: None,
            sysfs_speed: None,
            caps: 0,
        })
        .unwrap();
        let buffers = Prefetch::new(&device.interrupt_in_endpoints(), prefetch);
        let mut rig = Rig {
            session: Session::new(buffers, None),
            device,
            urbs: HashMap::new(),
            refused: Vec::new(),
            sent: Vec::new(),
        };
        for address in rig.session.prefetch.arm() {
            rig.perform(vec![Action::Arm(address)]);
        }
        rig
    }

    fn submit(&mut self, req: UrbRequest) -> Result<(), SubmitError> {
        match self.device.submit(req)? {
            Submission::Special(_) => Err(special_done(None)),
            Submission::Urb(urb) => {
                let errno = if self.refused.contains(&urb.seqnum) {
                    Some(libc::ENOMEM)
                } else {
                    None
                };
                let seqnum = urb.seqnum;
                self.device.submitted(seqnum, errno)?;
                self.urbs.insert(seqnum, urb);
                Ok(())
            }
        }
    }

    fn send(&mut self, b: &[u8]) {
        let h = Header::decode(b).unwrap();
        let status = match h.body {
            Body::RetSubmit(r) => r.status,
            Body::RetUnlink(r) => r.status,
            _ => panic!("{h:?} is no reply"),
        };
        self.sent.push((h.base.command, h.base.seqnum, status));
    }

    fn perform(&mut self, actions: Vec<Action>) {
        for a in actions {
            match a {
                Action::Reply(b) => self.send(&b),
                Action::Submit(req) => {
                    let seqnum = req.seqnum;
                    let outcome = self.submit(req);
                    if let Some(b) = self.session.submitted(seqnum, outcome).unwrap() {
                        self.send(&b);
                    }
                }
                Action::Discard { seqnum, target } => {
                    let cancelled = self.device.unlink(target);
                    let b = self.session.unlinked(seqnum, cancelled);
                    self.send(&b);
                }
                Action::Arm(address) => {
                    if let Some(req) = self.session.prefetch.wanted(address) {
                        let outcome = self.submit(req);
                        self.session.prefetch.armed(address, outcome);
                    }
                }
                Action::Suspend => panic!("no chord is watched for"),
            }
        }
    }

    fn command(&mut self, seqnum: u32, direction: u32, ep: u32, body: Body) {
        let base = BasicHeader {
            command: if matches!(body, Body::CmdUnlink(_)) {
                2
            } else {
                1
            },
            seqnum,
            devid: 1,
            direction,
            ep,
        };
        let actions = self.session.command(Pdu {
            header: Header { base, body },
            data: vec![],
            iso: vec![],
        });
        self.perform(actions);
    }

    fn ask(&mut self, seqnum: u32, direction: u32, ep: u32, setup: [u8; 8]) {
        let c = CmdSubmit {
            transfer_flags: 0,
            transfer_buffer_length: 64,
            start_frame: 0,
            number_of_packets: 0,
            interval: 0,
            setup,
        };
        self.command(seqnum, direction, ep, Body::CmdSubmit(c));
    }

    fn unlink(&mut self, seqnum: u32, target: u32) {
        let u = CmdUnlink {
            unlink_seqnum: target,
        };
        self.command(seqnum, 0, 0, Body::CmdUnlink(u));
    }

    fn complete(&mut self, seqnum: u32) {
        let urb = self.urbs.remove(&seqnum).unwrap();
        let c = self.device.reap(&urb, 0, 3);
        let actions = self.session.completed(c, 0);
        self.perform(actions);
    }
}

#[test]
fn every_submit_is_completed_once_or_cancelled() {
    let mut r = Rig::new(false);
    r.refused = vec![3];
    r.ask(1, 1, 1, [0; 8]);
    r.ask(2, 0, 2, [0; 8]);
    assert!(r.sent.is_empty(), "both are on their way");
    r.ask(3, 1, 1, [0; 8]);
    r.ask(4, 0, 0, [0, 9, 1, 0, 0, 0, 0, 0]);
    r.ask(5, 1, 7, [0; 8]);
    r.complete(1);
    r.unlink(10, 2);
    r.complete(2);
    r.unlink(11, 1);
    assert_eq!(
        r.sent,
        vec![
            (USBIP_RET_SUBMIT, 3, -libc::ENOMEM),
            (USBIP_RET_SUBMIT, 4, 0),
            (USBIP_RET_SUBMIT, 5, -libc::EPIPE),
            (USBIP_RET_SUBMIT, 1, 0),
            (USBIP_RET_UNLINK, 10, -libc::ECONNRESET),
            (USBIP_RET_UNLINK, 11, 0),
        ]
    );
}

#[test]
fn a_prefetched_submit_is_completed_once_or_cancelled() {
    let mut r = Rig::new(true);
    assert!(r.urbs.contains_key(&INTERNAL_BASE), "armed to begin with");
    r.complete(INTERNAL_BASE);
    assert!(r.sent.is_empty(), "nobody has asked yet");
    r.ask(1, 1, 1, [0; 8]);
    r.ask(2, 1, 1, [0; 8]);
    r.unlink(3, 2);
    r.refused = vec![INTERNAL_BASE + 2];
    r.ask(4, 1, 1, [0; 8]);
    r.complete(INTERNAL_BASE + 1);
    assert!(r.urbs.is_empty(), "the next URB was refused");
    r.refused.clear();
    r.ask(5, 1, 1, [0; 8]);
    r.complete(INTERNAL_BASE + 2);
    assert_eq!(
        r.sent,
        vec![
            (USBIP_RET_SUBMIT, 1, 0),
            (USBIP_RET_UNLINK, 3, -libc::ECONNRESET),
            (USBIP_RET_SUBMIT, 4, 0),
            (USBIP_RET_SUBMIT, 5, 0),
        ]
    );
    assert!(r.urbs.contains_key(&(INTERNAL_BASE + 3)), "and armed again");
}
