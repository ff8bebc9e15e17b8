use std::sync::mpsc::{sync_channel, SyncSender, TrySendError};

use usbfwd::backend::{SubmitError, UrbCompletion, Wake};
use usbfwd::proto::io::{read_ret_submit, Pdu};
use usbfwd::proto::pdu::{BasicHeader, Body, CmdSubmit, CmdUnlink, Direction, Header};
use usbfwd::server::chord::{Chord, Detector, DECK_STATE};
use usbfwd::server::prefetch::{Prefetch, INTERNAL_BASE};
use usbfwd::server::session::{
    after_wake, encode_error, ends_quietly, post, Action, Handover, Post, ReadEnd, Session, Stats,
};

#[test]
fn a_rejected_submit_encodes_as_a_zero_length_completion() {
    let buf = encode_error(9, -libc::EPIPE);
    assert_eq!(buf.len(), 48);
    let (h, data) = read_ret_submit(&mut &buf[..], |_| Some(Direction::In), 4096).unwrap();
    assert_eq!(h.base.seqnum, 9);
    match h.body {
        Body::RetSubmit(r) => {
            assert_eq!(r.status, -libc::EPIPE);
            assert_eq!(r.actual_length, 0);
        }
        _ => panic!("expected RET_SUBMIT"),
    }
    assert!(data.is_empty());
}

fn pdu(seqnum: u32, ep: u32, direction: u32, packets: i32) -> Pdu {
    Pdu {
        header: Header::cmd_submit(
            BasicHeader {
                command: 0,
                seqnum,
                devid: 1,
                direction,
                ep,
            },
            CmdSubmit {
                transfer_flags: 0,
                transfer_buffer_length: 64,
                start_frame: 0,
                number_of_packets: packets,
                interval: 0,
                setup: [0; 8],
            },
        ),
        data: vec![],
        iso: vec![],
    }
}

fn unlink(seqnum: u32, target: u32) -> Pdu {
    Pdu {
        header: Header {
            base: BasicHeader {
                command: 2,
                seqnum,
                devid: 1,
                direction: 0,
                ep: 0,
            },
            body: Body::CmdUnlink(CmdUnlink {
                unlink_seqnum: target,
            }),
        },
        data: vec![],
        iso: vec![],
    }
}

fn completion(seqnum: u32, data: Vec<u8>) -> UrbCompletion {
    UrbCompletion {
        seqnum,
        status: 0,
        actual_length: data.len(),
        data,
        unlinked: false,
    }
}

/// The seqnum, the status and the data of a reply.
fn reply(a: &Action) -> (u32, i32, Vec<u8>) {
    let Action::Reply(buf) = a else {
        panic!("{a:?} is no reply");
    };
    let (h, data) = read_ret_submit(&mut &buf[..], |_| Some(Direction::In), 4096).unwrap();
    let Body::RetSubmit(r) = h.body else {
        panic!("expected RET_SUBMIT");
    };
    assert_eq!(r.actual_length as usize, data.len());
    (h.base.seqnum, r.status, data)
}

/// The seqnum and the status of the reply to an unlink.
fn unlink_reply(buf: &[u8]) -> (u32, i32) {
    match Header::decode(buf).unwrap() {
        Header {
            base,
            body: Body::RetUnlink(r),
        } => (base.seqnum, r.status),
        other => panic!("{other:?}"),
    }
}

#[test]
fn a_submit_goes_to_the_device_and_its_completion_back() {
    let mut s = Session::new(Prefetch::disabled(), None);
    let actions = s.command(pdu(5, 0x81, 1, 0));
    assert_eq!(actions.len(), 1);
    match &actions[0] {
        Action::Submit(req) => {
            assert_eq!((req.seqnum, req.ep, req.dir), (5, 1, Direction::In));
            assert_eq!(req.buffer_length, 64);
        }
        other => panic!("{other:?}"),
    }
    assert_eq!(s.submitted(5, Ok(())), Ok(None));
    let actions = s.completed(completion(5, vec![1, 2]), 0);
    assert_eq!(actions.len(), 1);
    assert_eq!(reply(&actions[0]), (5, 0, vec![1, 2]));
    assert_eq!(
        s.stats,
        Stats {
            submitted: 1,
            completed: 1,
            unlinked: 0,
            rejected: 0
        }
    );
    assert_eq!(
        s.stats.describe(),
        "1 submitted, 1 completed, 0 unlinked, 0 rejected"
    );
}

#[test]
fn isochronous_transfers_are_refused() {
    let mut s = Session::new(Prefetch::disabled(), None);
    let actions = s.command(pdu(5, 1, 1, 3));
    assert_eq!(actions.len(), 1);
    assert_eq!(reply(&actions[0]), (5, -libc::EOPNOTSUPP, vec![]));
    assert_eq!(s.stats.rejected, 1);
}

#[test]
fn a_submit_that_fails_is_answered_at_once() {
    let mut s = Session::new(Prefetch::disabled(), None);
    let r = s.submitted(5, Err(SubmitError::Urb(-libc::EPIPE)));
    assert_eq!(r, Ok(Some(encode_error(5, -libc::EPIPE))));
    let r = s.submitted(6, Err(SubmitError::Handled(0)));
    assert_eq!(r, Ok(Some(encode_error(6, 0))));
    let r = s.submitted(7, Err(SubmitError::Fatal(libc::ENODEV)));
    assert_eq!(r, Err(libc::ENODEV));
    assert_eq!((s.stats.rejected, s.stats.completed), (1, 1));
}

#[test]
fn an_unlinked_transfer_is_not_reported_again() {
    let mut s = Session::new(Prefetch::disabled(), None);
    assert_eq!(
        s.command(unlink(8, 5)),
        vec![Action::Discard {
            seqnum: 8,
            target: 5
        }]
    );
    assert_eq!(unlink_reply(&s.unlinked(8, true)), (8, -libc::ECONNRESET));
    assert_eq!(unlink_reply(&s.unlinked(9, false)), (9, 0));
    let mut c = completion(5, vec![1]);
    c.unlinked = true;
    assert_eq!(s.completed(c, 0), vec![]);
}

#[test]
fn a_prefetched_endpoint_answers_from_its_buffer() {
    let mut s = Session::new(Prefetch::new(&vec![(0x81, 64)], true), None);
    s.prefetch.armed(0x81, Ok(()));
    assert_eq!(
        s.completed(completion(INTERNAL_BASE, vec![9]), 0),
        vec![Action::Arm(0x81)]
    );
    let actions = s.command(pdu(5, 1, 1, 0));
    assert_eq!(actions.len(), 2);
    assert_eq!(reply(&actions[0]), (5, 0, vec![9]));
    assert_eq!(actions[1], Action::Arm(0x81));

    // The next has to wait, and is answered when the report comes.
    assert_eq!(s.command(pdu(6, 1, 1, 0)), vec![Action::Arm(0x81)]);
    let seqnum = s.prefetch.wanted(0x81).unwrap().seqnum;
    s.prefetch.armed(0x81, Ok(()));
    let actions = s.completed(completion(seqnum, vec![8]), 0);
    assert_eq!(reply(&actions[0]), (6, 0, vec![8]));

    // One that waits can be taken back.
    assert_eq!(s.command(pdu(7, 1, 1, 0)), vec![Action::Arm(0x81)]);
    let actions = s.command(unlink(8, 7));
    let Action::Reply(buf) = &actions[0] else {
        panic!("{actions:?}");
    };
    assert_eq!(unlink_reply(buf), (8, -libc::ECONNRESET));

    // An OUT transfer has nothing to do with it.
    assert!(matches!(
        s.command(pdu(9, 1, 0, 0))[..],
        [Action::Submit(_)]
    ));
}

#[test]
fn a_held_chord_is_hidden_and_ends_the_session() {
    let chord: Chord = "l4+r4".parse().unwrap();
    let state = |mask: u64| {
        let mut r = vec![0u8; 64];
        r[0] = 1;
        r[2] = DECK_STATE;
        r[3] = 60;
        r[8..16].copy_from_slice(&mask.to_le_bytes());
        r
    };
    let mut s = Session::new(Prefetch::disabled(), Some(Detector::new(chord, 500)));
    let plain = s.completed(completion(1, state(1)), 0);
    assert_eq!(reply(&plain[0]), (1, 0, state(1)));
    let held = s.completed(completion(2, state(chord.mask())), 10);
    assert_eq!(held.len(), 1);
    assert_eq!(reply(&held[0]), (2, 0, vec![]));
    let fired = s.completed(completion(3, state(chord.mask())), 510);
    assert_eq!(reply(&fired[0]), (3, 0, vec![]));
    assert_eq!(fired[1..], [Action::Suspend]);
}

#[test]
fn sessions_end_quietly_when_they_should() {
    assert!(ends_quietly(ReadEnd::Eof, false));
    assert!(ends_quietly(ReadEnd::Reset, false));
    assert!(!ends_quietly(ReadEnd::Error, false));
    assert!(ends_quietly(ReadEnd::Error, true));
    let w = Wake {
        ready: true,
        gone: true,
    };
    assert_eq!(after_wake(w), (true, true));
    assert_eq!(after_wake(Wake::default()), (false, false));
}

/// What came of handing a reply over.
fn handed(tx: &SyncSender<Vec<u8>>, buf: Vec<u8>) -> Handover {
    match tx.try_send(buf) {
        Ok(()) => Handover::Taken,
        Err(TrySendError::Full(_)) => Handover::Full,
        Err(TrySendError::Disconnected(_)) => Handover::Gone,
    }
}

#[test]
fn post_gives_up_once_the_receiver_is_gone() {
    let (tx, rx) = sync_channel::<Vec<u8>>(1);
    assert_eq!(post(handed(&tx, vec![1]), false), Post::Done);
    drop(rx);
    assert_eq!(post(handed(&tx, vec![2]), false), Post::GiveUp);
}

#[test]
fn post_stops_waiting_when_the_session_is_told_to_stop() {
    let (tx, _rx) = sync_channel::<Vec<u8>>(1);
    assert_eq!(post(handed(&tx, vec![1]), false), Post::Done); // fills the queue
    assert_eq!(post(handed(&tx, vec![2]), false), Post::Again);
    assert_eq!(
        post(handed(&tx, vec![2]), true),
        Post::GiveUp,
        "must not block forever"
    );
}
