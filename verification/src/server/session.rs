//! The URB pump: one imported device, three threads around one [`Session`].
//!
//! * the **reader** takes `USBIP_CMD_*` off the socket and hands them to
//!   [`Session::command`];
//! * the **reaper** polls the usbfs descriptor and hands completions to
//!   [`Session::completed`];
//! * the **writer** is the single owner of the socket's send direction, so the
//!   other two never interleave a half-written PDU.
//!
//! What each of them is to do comes back as [`Action`]s, to be carried out in
//! order.
use crate::backend::usbfs::{
    lemma_a_urb_carries_the_request, lemma_teardown_leaves_nothing, lemma_urb_flags, DeviceState,
    Submission, Urb,
};
use crate::backend::{SubmitError, UrbCompletion, UrbRequest, Wake};
use crate::errno::{econnreset, eopnotsupp, ECONNRESET, EOPNOTSUPP};
use crate::proto::io::{ret_submit_bytes, ret_unlink_bytes, write_ret_submit, write_ret_unlink, Pdu};
use crate::proto::pdu::{
    at_least_zero, lemma_header_layout, lemma_header_size, spells_signed, Body, CmdSubmit,
    Direction, Header, RetSubmit, RetUnlink, USBIP_RET_SUBMIT, USBIP_RET_UNLINK,
};
use crate::server::chord::{lemma_a_chord_is_held_when_its_buttons_are, Detector, Verdict, Watching};
use crate::server::prefetch::{
    cut, lemma_a_client_submit_rearms, lemma_place_of, lemma_place_of_address,
    lemma_where_a_client_waits, place_of, Buffers, Ep, Prefetch, Take, INTERNAL_BASE,
};
use crate::text::{dec, push_dec};
use crate::proto::wire::network_value;
use vstd::prelude::*;
use vstd::string::*;

verus! {

broadcast use {vstd::slice::group_slice_axioms, vstd::array::group_array_axioms};

/// How many replies may queue up before the reaper has to wait for the
/// network. Bounded on purpose: an unbounded queue in front of a stalled
/// tailnet would just turn a latency problem into a memory problem.
pub const OUTBOX_DEPTH: usize = 512;

/// How long the reaper blocks in `poll()` before re-checking the stop flag.
pub const REAP_POLL_MS: u64 = 100;

/// What has happened in a session. The counters wrap.
#[derive(Debug, Clone, Copy, PartialEq, Eq, Structural)]
pub struct Stats {
    pub submitted: u64,
    pub completed: u64,
    pub unlinked: u64,
    pub rejected: u64,
}

impl Default for Stats {
    fn default() -> (s: Self)
        ensures
            s == (Stats { submitted: 0, completed: 0, unlinked: 0, rejected: 0 }),
    {
        Stats { submitted: 0, completed: 0, unlinked: 0, rejected: 0 }
    }
}

impl Stats {
    pub open spec fn text(self) -> Seq<char> {
        dec(self.submitted as nat) + " submitted, "@ + dec(self.completed as nat) + " completed, "@
            + dec(self.unlinked as nat) + " unlinked, "@ + dec(self.rejected as nat)
            + " rejected"@
    }

    pub fn describe(&self) -> (s: String)
        ensures
            s@ == self.text(),
    {
        let mut s = String::new();
        push_dec(&mut s, self.submitted);
        s.append(" submitted, ");
        push_dec(&mut s, self.completed);
        s.append(" completed, ");
        push_dec(&mut s, self.unlinked);
        s.append(" unlinked, ");
        push_dec(&mut s, self.rejected);
        s.append(" rejected");
        assert(s@ =~= self.text());
        s
    }
}

/// One more.
pub open spec fn up(n: u64) -> u64 {
    if n == u64::MAX {
        0
    } else {
        (n + 1) as u64
    }
}

fn more(n: u64) -> (r: u64)
    ensures
        r == up(n),
{
    if n == u64::MAX {
        0
    } else {
        n + 1
    }
}

/// Something that is to be done for the session.
#[derive(Debug, Clone, PartialEq, Eq)]
pub enum Action {
    /// Send these bytes.
    Reply(Vec<u8>),
    /// Submit this to the device and tell [`Session::submitted`] how it went.
    Submit(UrbRequest),
    /// Cancel the URB `target` on the device and tell [`Session::unlinked`] whether
    /// it was still in flight; `seqnum` is that of the command.
    Discard { seqnum: u32, target: u32 },
    /// Keep this endpoint armed: submit what [`Prefetch::wanted`] says, if anything.
    Arm(u8),
    /// The chord has been held: take the device off offer and end the session.
    Suspend,
}

// ---------------------------------------------------------------------------
// Replies

/// The reply to a submit that moved no data.
pub open spec fn empty_reply(seqnum: u32, status: i32) -> Seq<u8> {
    ret_submit_bytes(
        seqnum,
        RetSubmit {
            status,
            actual_length: 0,
            start_frame: 0,
            number_of_packets: 0,
            error_count: 0,
        },
        Seq::empty(),
    )
}

pub fn encode_error(seqnum: u32, status: i32) -> (buf: Vec<u8>)
    ensures
        buf@ == empty_reply(seqnum, status),
{
    encode_reply(seqnum, status, 0, &Vec::new())
}

/// The reply to a submit of which `actual` bytes were transferred, with `data`
/// behind it.
pub open spec fn reply_bytes(seqnum: u32, status: i32, actual: usize, data: Seq<u8>) -> Seq<u8> {
    ret_submit_bytes(
        seqnum,
        RetSubmit {
            status,
            actual_length: actual as i32,
            start_frame: 0,
            number_of_packets: 0,
            error_count: 0,
        },
        data,
    )
}

fn encode_reply(seqnum: u32, status: i32, actual: usize, data: &Vec<u8>) -> (buf: Vec<u8>)
    ensures
        buf@ == reply_bytes(seqnum, status, actual, data@),
        actual == 0 && data@.len() == 0 ==> buf@ == empty_reply(seqnum, status),
{
    let ret = RetSubmit {
        status,
        actual_length: #[verifier::truncate]
        (actual as i32),
        start_frame: 0,
        number_of_packets: 0,
        error_count: 0,
    };
    let mut buf: Vec<u8> = Vec::new();
    let _ = write_ret_submit(&mut buf, seqnum, ret, data.as_slice());
    assert(buf@ =~= reply_bytes(seqnum, status, actual, data@));
    proof {
        if actual == 0 && data@.len() == 0 {
            assert(data@ =~= Seq::<u8>::empty());
        }
    }
    buf
}

/// What an unlink is answered: `-ECONNRESET` if the URB was caught in flight, 0 if
/// it had already completed. Either way the client now owns that URB's fate and
/// its completion is not reported.
pub open spec fn unlink_status(cancelled: bool) -> i32 {
    if cancelled {
        (-ECONNRESET) as i32
    } else {
        0
    }
}

fn encode_unlinked(seqnum: u32, cancelled: bool) -> (buf: Vec<u8>)
    ensures
        buf@ == ret_unlink_bytes(seqnum, unlink_status(cancelled)),
{
    let status: i32 = if cancelled {
        -econnreset()
    } else {
        0
    };
    let mut buf: Vec<u8> = Vec::new();
    let _ = write_ret_unlink(&mut buf, seqnum, status);
    assert(buf@ =~= ret_unlink_bytes(seqnum, unlink_status(cancelled)));
    buf
}

// ---------------------------------------------------------------------------
// Requests

/// Whether `req` is the submit `c` of the command `pdu` in backend terms.
pub open spec fn translates(req: UrbRequest, pdu: Pdu, c: CmdSubmit) -> bool {
    &&& req.seqnum == pdu.header.base.seqnum
    &&& req.ep == pdu.header.base.ep % 0x10
    &&& req.dir == Direction::of(pdu.header.base.direction)
    &&& req.transfer_flags == c.transfer_flags
    &&& req.setup == c.setup
    &&& req.buffer_length == at_least_zero(c.transfer_buffer_length)
    &&& req.data@ == pdu.data@
}

fn translate(pdu: Pdu, c: CmdSubmit) -> (req: UrbRequest)
    ensures
        translates(req, pdu, c),
{
    let ep: u32 = pdu.header.base.ep;
    assert(ep & 0x0f == ep % 0x10) by (bit_vector);
    let buffer_length: usize = if c.transfer_buffer_length > 0 {
        c.transfer_buffer_length as usize
    } else {
        0
    };
    UrbRequest {
        seqnum: pdu.header.base.seqnum,
        ep: (ep & 0x0f) as u8,
        dir: pdu.header.base.dir(),
        transfer_flags: c.transfer_flags,
        setup: c.setup,
        buffer_length,
        data: pdu.data,
    }
}

/// The address under which an IN submit on a data endpoint is prefetched.
pub open spec fn prefetched_address(pdu: Pdu) -> Option<u8> {
    let ep = pdu.header.base.ep % 0x10;
    if Direction::of(pdu.header.base.direction) is In && ep != 0 {
        Some((ep + 0x80) as u8)
    } else {
        None
    }
}

/// One imported device.
pub struct Session {
    pub stats: Stats,
    pub prefetch: Prefetch,
    /// Watches the input for the chord, if there is one.
    pub detector: Option<Detector>,
}

/// The endpoint that answers a submit out of its buffer, if one does.
pub open spec fn answers_from_buffer(b: Buffers, pdu: Pdu) -> Option<int> {
    match prefetched_address(pdu) {
        None => None,
        Some(address) => match place_of(b.eps, address) {
            Some(i) if !b.eps[i].disabled => Some(i),
            _ => None,
        },
    }
}

impl Session {
    pub open spec fn wf(&self) -> bool {
        self.prefetch.wf()
    }

    pub fn new(prefetch: Prefetch, detector: Option<Detector>) -> (s: Session)
        requires
            prefetch.wf(),
        ensures
            s.wf(),
            s.stats == (Stats { submitted: 0, completed: 0, unlinked: 0, rejected: 0 }),
            s.prefetch == prefetch,
            s.detector == detector,
    {
        Session { stats: Stats::default(), prefetch, detector }
    }

    /// Whether a command brings the session from here to `after`, with these actions
    /// to be carried out.
    pub open spec fn commanded(self, pdu: Pdu, after: Session, r: Seq<Action>) -> bool {
        &&& after.detector == self.detector
        &&& match pdu.header.body {
            Body::CmdSubmit(c) => if c.number_of_packets > 0 {
                &&& after.prefetch == self.prefetch
                &&& after.stats == (Stats {
                    rejected: up(self.stats.rejected),
                    ..self.stats
                })
                &&& r.len() == 1
                &&& (r[0] matches Action::Reply(b) && b@ == empty_reply(
                    pdu.header.base.seqnum,
                    (-EOPNOTSUPP) as i32,
                ))
            } else {
                match answers_from_buffer(self.prefetch@, pdu) {
                    None => {
                        &&& after.prefetch@ == self.prefetch@
                        &&& after.stats == self.stats
                        &&& r.len() == 1
                        &&& (r[0] matches Action::Submit(req) && translates(req, pdu, c))
                    },
                    Some(i) => {
                        let e = self.prefetch@.eps[i];
                        let max = at_least_zero(c.transfer_buffer_length) as usize;
                        let seqnum = pdu.header.base.seqnum;
                        let d = cut(e.captured[0], max);
                        &&& after.prefetch@ == self.prefetch@.with_ep(i, e.after_take(seqnum, max))
                        &&& if e.captured.len() > 0 {
                            &&& after.stats == (Stats {
                                submitted: up(self.stats.submitted),
                                completed: up(self.stats.completed),
                                ..self.stats
                            })
                            &&& r.len() == 2
                            &&& (r[0] matches Action::Reply(b) && b@ == reply_bytes(
                                seqnum,
                                0,
                                d.len() as usize,
                                d,
                            ))
                            &&& r[1] == Action::Arm(prefetched_address(pdu).unwrap())
                        } else {
                            &&& after.stats == (Stats {
                                submitted: up(self.stats.submitted),
                                ..self.stats
                            })
                            &&& r.len() == 1
                            &&& r[0] == Action::Arm(prefetched_address(pdu).unwrap())
                        }
                    },
                }
            },
            Body::CmdUnlink(u) => match Prefetch::waiting_at(
                self.prefetch@.eps,
                u.unlink_seqnum,
            ) {
                None => {
                    &&& after.prefetch@ == self.prefetch@
                    &&& after.stats == self.stats
                    &&& r.len() == 1
                    &&& r[0] == (Action::Discard {
                        seqnum: pdu.header.base.seqnum,
                        target: u.unlink_seqnum,
                    })
                },
                Some(i) => {
                    &&& after.prefetch@ == self.prefetch@.with_ep(
                        i,
                        Ep { waiting: None, ..self.prefetch@.eps[i] },
                    )
                    &&& after.stats == (Stats {
                        unlinked: up(self.stats.unlinked),
                        ..self.stats
                    })
                    &&& r.len() == 1
                    &&& (r[0] matches Action::Reply(b) && b@ == ret_unlink_bytes(
                        pdu.header.base.seqnum,
                        unlink_status(true),
                    ))
                },
            },
            _ => true,
        }
    }

    /// A command has arrived.
    ///
    /// An isochronous submit is refused: no HID device has an isochronous endpoint.
    /// A submit on a prefetched endpoint is answered from its buffer, or waits for
    /// the next report; any other goes to the device. An unlink of a submit that
    /// waits is answered at once; any other goes to the device.
    pub fn command(&mut self, pdu: Pdu) -> (r: Vec<Action>)
        requires
            old(self).wf(),
            pdu.header.body is CmdSubmit || pdu.header.body is CmdUnlink,
        ensures
            final(self).wf(),
            old(self).commanded(pdu, *final(self), r@),
    {
        let seqnum: u32 = pdu.header.base.seqnum;
        let mut r: Vec<Action> = Vec::new();
        match pdu.header.body {
            Body::CmdSubmit(c) => {
                if c.is_iso() {
                    self.stats.rejected = more(self.stats.rejected);
                    r.push(Action::Reply(encode_error(seqnum, -eopnotsupp())));
                    return r;
                }
                let ghost command = pdu;
                let req = translate(pdu, c);
                if req.dir.is_in() && req.ep != 0 {
                    let address: u8 = req.ep + 0x80;
                    assert(prefetched_address(command) == Some(address));
                    match self.prefetch.take(address, seqnum, req.buffer_length) {
                        Take::Ready(d) => {
                            self.stats.submitted = more(self.stats.submitted);
                            self.stats.completed = more(self.stats.completed);
                            r.push(Action::Reply(encode_reply(seqnum, 0, d.len(), &d)));
                            r.push(Action::Arm(address));
                            return r;
                        },
                        Take::Waiting => {
                            self.stats.submitted = more(self.stats.submitted);
                            r.push(Action::Arm(address));
                            return r;
                        },
                        Take::PassThrough => {},
                    }
                }
                r.push(Action::Submit(req));
                r
            },
            Body::CmdUnlink(u) => {
                if self.prefetch.unlink(u.unlink_seqnum) {
                    self.stats.unlinked = more(self.stats.unlinked);
                    r.push(Action::Reply(encode_unlinked(seqnum, true)));
                } else {
                    r.push(Action::Discard { seqnum, target: u.unlink_seqnum });
                }
                r
            },
            _ => r,
        }
    }

    /// Whether what becomes of a client's request at the device brings the session
    /// from here to `after`, with this to be sent or the session to end.
    pub open spec fn submit_answered(
        self,
        seqnum: u32,
        outcome: Result<(), SubmitError>,
        after: Session,
        r: Result<Option<Vec<u8>>, i32>,
    ) -> bool {
        &&& after.prefetch == self.prefetch
        &&& after.detector == self.detector
        &&& match outcome {
            Ok(_) => {
                &&& r == Ok::<Option<Vec<u8>>, i32>(None)
                &&& after.stats == (Stats {
                    submitted: up(self.stats.submitted),
                    ..self.stats
                })
            },
            Err(SubmitError::Handled(status)) => {
                &&& (r matches Ok(Some(b)) && b@ == empty_reply(seqnum, status))
                &&& after.stats == (Stats {
                    completed: up(self.stats.completed),
                    ..self.stats
                })
            },
            Err(SubmitError::Urb(status)) => {
                &&& (r matches Ok(Some(b)) && b@ == empty_reply(seqnum, status))
                &&& after.stats == (Stats {
                    rejected: up(self.stats.rejected),
                    ..self.stats
                })
            },
            Err(SubmitError::Fatal(e)) => {
                &&& r == Err::<Option<Vec<u8>>, i32>(e)
                &&& after.stats == self.stats
            },
        }
    }

    /// Submitting a client's request to the device ended so. Returns the reply that
    /// is owed at once, if any, or the errno that ends the session.
    pub fn submitted(&mut self, seqnum: u32, outcome: Result<(), SubmitError>) -> (r: Result<
        Option<Vec<u8>>,
        i32,
    >)
        ensures
            old(self).submit_answered(seqnum, outcome, *final(self), r),
    {
        match outcome {
            Ok(()) => {
                self.stats.submitted = more(self.stats.submitted);
                Ok(None)
            },
            Err(SubmitError::Handled(status)) => {
                // Done synchronously, so nothing will be reaped for it and the
                // completion has to be synthesised here.
                self.stats.completed = more(self.stats.completed);
                Ok(Some(encode_error(seqnum, status)))
            },
            Err(SubmitError::Urb(status)) => {
                // Recoverable: tell the client this one URB failed and keep the
                // session alive.
                self.stats.rejected = more(self.stats.rejected);
                Ok(Some(encode_error(seqnum, status)))
            },
            Err(SubmitError::Fatal(e)) => Err(e),
        }
    }

    /// Whether an unlink that went to the device brings the session from here to
    /// `after`, with this to be sent.
    pub open spec fn unlink_answered(
        self,
        seqnum: u32,
        cancelled: bool,
        after: Session,
        b: Seq<u8>,
    ) -> bool {
        &&& after.prefetch == self.prefetch
        &&& after.detector == self.detector
        &&& after.stats == (Stats { unlinked: up(self.stats.unlinked), ..self.stats })
        &&& b == ret_unlink_bytes(seqnum, unlink_status(cancelled))
    }

    /// The device has been told to discard a URB. Returns the reply to the unlink.
    pub fn unlinked(&mut self, seqnum: u32, cancelled: bool) -> (b: Vec<u8>)
        ensures
            old(self).unlink_answered(seqnum, cancelled, *final(self), b@),
    {
        self.stats.unlinked = more(self.stats.unlinked);
        encode_unlinked(seqnum, cancelled)
    }

    /// What the detector, if there is one, says of a report.
    pub open spec fn verdict_on(&self, report: Seq<u8>, now: u64) -> Verdict {
        match self.detector {
            Some(d) => d@.verdict(report, now),
            None => Verdict { swallow: false, fired: false },
        }
    }

    /// What the detector knows after a report.
    pub open spec fn watching_after(&self, report: Seq<u8>, now: u64) -> Option<Watching> {
        match self.detector {
            Some(d) => Some(d@.after(report, now)),
            None => None,
        }
    }

    /// Whether a completion is of a URB that prefetching submitted.
    pub open spec fn is_internal(&self, seqnum: u32) -> bool {
        self.prefetch@.eps.len() > 0 && seqnum >= INTERNAL_BASE
    }

    /// The action that ends the session, if the chord has been held.
    pub open spec fn suspension(v: Verdict) -> Seq<Action> {
        if v.fired {
            seq![Action::Suspend]
        } else {
            seq![]
        }
    }

    /// What is left of a report once the chord is taken out.
    pub open spec fn passes(&self, report: Seq<u8>, now: u64) -> Seq<u8> {
        if self.verdict_on(report, now).swallow {
            Seq::empty()
        } else {
            report
        }
    }

    /// Whether a completion brings the session from here to `after`, with these
    /// actions to be carried out.
    pub open spec fn delivered(
        self,
        c: UrbCompletion,
        now: u64,
        after: Session,
        r: Seq<Action>,
    ) -> bool {
        if c.unlinked {
            r.len() == 0 && after == self
        } else {
            let v = self.verdict_on(c.data@, now);
            let data = self.passes(c.data@, now);
            let actual = if v.swallow {
                0usize
            } else {
                c.actual_length
            };
            let tail = Session::suspension(v);
            &&& (match after.detector {
                Some(d) => Some(d@),
                None => None,
            }) == self.watching_after(c.data@, now)
            &&& if !self.is_internal(c.seqnum) {
                &&& after.prefetch == self.prefetch
                &&& after.stats == (Stats {
                    completed: up(self.stats.completed),
                    ..self.stats
                })
                &&& r.len() == 1 + tail.len()
                &&& (r[0] matches Action::Reply(b) && b@ == reply_bytes(
                    c.seqnum,
                    c.status,
                    actual,
                    data,
                ))
                &&& r.skip(1) == tail
            } else if self.prefetch@.is_out(c.seqnum) {
                let i = self.prefetch@.out_at(c.seqnum);
                let e = self.prefetch@.eps[i];
                &&& after.prefetch@ == self.prefetch@.with_ep(i, e.after_completion(c.status, data))
                &&& match e.owed(c.status, data) {
                    Some((s, st, b)) => {
                        &&& after.stats == (Stats {
                            completed: up(self.stats.completed),
                            ..self.stats
                        })
                        &&& r.len() == 2 + tail.len()
                        &&& (r[0] matches Action::Reply(bytes) && bytes@ == reply_bytes(
                            s,
                            st,
                            b.len() as usize,
                            b,
                        ))
                        &&& r[1] == Action::Arm(e.address)
                        &&& r.skip(2) == tail
                    },
                    None => {
                        &&& after.stats == self.stats
                        &&& r.len() == 1 + tail.len()
                        &&& r[0] == Action::Arm(e.address)
                        &&& r.skip(1) == tail
                    },
                }
            } else {
                &&& after.prefetch@ == self.prefetch@
                &&& after.stats == self.stats
                &&& r == tail
            }
        }
    }

    /// A URB has been reaped.
    ///
    /// The completion of a URB that was unlinked is dropped: the client was already
    /// told that it is cancelled. A report with the chord down is answered as a
    /// zero-length transfer rather than dropped: dropping would leave a submit
    /// unanswered, and `usbhid` only resubmits when the previous URB completes, so
    /// it would stall input rather than hide one report.
    pub fn completed(&mut self, c: UrbCompletion, now: u64) -> (r: Vec<Action>)
        requires
            old(self).wf(),
        ensures
            final(self).wf(),
            old(self).delivered(c, now, *final(self), r@),
    {
        let mut r: Vec<Action> = Vec::new();
        if c.unlinked {
            return r;
        }
        let ghost before = *self;
        let ghost report = c.data@;
        let mut verdict = Verdict::default();
        match self.detector {
            Some(d) => {
                let mut d = d;
                verdict = d.feed(c.data.as_slice(), now);
                self.detector = Some(d);
            },
            None => {},
        }
        assert(verdict == before.verdict_on(report, now));
        let internal = self.prefetch.is_enabled() && Prefetch::owns(c.seqnum);
        let data = if verdict.swallow {
            Vec::new()
        } else {
            c.data
        };
        assert(verdict.swallow ==> data@ =~= Seq::<u8>::empty());
        let actual: usize = if verdict.swallow {
            0
        } else {
            c.actual_length
        };
        if internal {
            let d = self.prefetch.deliver(c.seqnum, c.status, data);
            match d.reply {
                Some((seqnum, status, b)) => {
                    self.stats.completed = more(self.stats.completed);
                    r.push(Action::Reply(encode_reply(seqnum, status, b.len(), &b)));
                },
                None => {},
            }
            match d.rearm {
                Some(address) => {
                    r.push(Action::Arm(address));
                },
                None => {},
            }
        } else {
            self.stats.completed = more(self.stats.completed);
            r.push(Action::Reply(encode_reply(c.seqnum, c.status, actual, &data)));
        }
        let ghost n = r@.len() as int;
        if verdict.fired {
            r.push(Action::Suspend);
        }
        assert(r@.skip(n) =~= Session::suspension(verdict));
        assert(n == 0 ==> r@.skip(0) =~= r@);
        r
    }
}

// ---------------------------------------------------------------------------
// Posting replies

/// What came of handing a reply to the writer.
#[derive(Debug, Clone, Copy, PartialEq, Eq, Structural)]
pub enum Handover {
    Taken,
    /// The queue is full.
    Full,
    /// The writer is gone.
    Gone,
}

/// What to do after that.
#[derive(Debug, Clone, Copy, PartialEq, Eq, Structural)]
pub enum Post {
    Done,
    /// Wait a moment and hand it over again.
    Again,
    /// The session is finished.
    GiveUp,
}

/// What follows an attempt to hand a message over.
pub open spec fn after_handover(handover: Handover, stopping: bool) -> Post {
    match handover {
        Handover::Taken => Post::Done,
        Handover::Full => if stopping {
            Post::GiveUp
        } else {
            Post::Again
        },
        Handover::Gone => Post::GiveUp,
    }
}

/// A full queue is waited for, unless the session is being stopped, so callers can
/// unwind instead of spinning. A writer that is gone is not waited for.
pub fn post(handover: Handover, stopping: bool) -> (p: Post)
    ensures
        p == after_handover(handover, stopping),
        p == (match handover {
            Handover::Taken => Post::Done,
            Handover::Full => if stopping {
                Post::GiveUp
            } else {
                Post::Again
            },
            Handover::Gone => Post::GiveUp,
        }),
{
    match handover {
        Handover::Taken => Post::Done,
        Handover::Full => {
            if stopping {
                Post::GiveUp
            } else {
                Post::Again
            }
        },
        Handover::Gone => Post::GiveUp,
    }
}

// ---------------------------------------------------------------------------
// Winding down

/// How reading a command off the socket ended.
#[derive(Debug, Clone, Copy, PartialEq, Eq, Structural)]
pub enum ReadEnd {
    /// The importer closed the connection.
    Eof,
    /// The importer reset it.
    Reset,
    /// Anything else.
    Error,
}

/// Whether that is an ordinary end of the session. The importer detaching is, and
/// so is anything while the session is being stopped.
pub fn ends_quietly(end: ReadEnd, stopping: bool) -> (r: bool)
    ensures
        r == (end is Eof || end is Reset || stopping),
{
    match end {
        ReadEnd::Eof => true,
        ReadEnd::Reset => true,
        ReadEnd::Error => stopping,
    }
}

/// Whether the reaper drains completions after a wake-up, and whether it ends the
/// session after that. usbfs keeps completions reapable after a disconnect, so
/// nothing in flight is lost silently.
pub fn after_wake(w: Wake) -> (r: (bool, bool))
    ensures
        r.0 == w.ready,
        r.1 == w.gone,
{
    (w.ready, w.gone)
}

// ---------------------------------------------------------------------------
// Laws

/// What a session makes of a report: what is left of it once the chord is taken out.
pub open spec fn passed_on(w: Watching, report: Seq<u8>, now: u64) -> Seq<u8> {
    if w.verdict(report, now).swallow {
        Seq::empty()
    } else {
        report
    }
}

/// A report with the chord down never reaches the importer, and it is not dropped
/// either: what is answered is a header alone, which says that no bytes were
/// transferred. That holds of a client's own submit, of one that waits at a
/// prefetched endpoint, and of one that finds the report in its buffer later. Any
/// other report is passed on as it is.
pub proof fn lemma_a_held_chord_is_not_forwarded(
    w: Watching,
    report: Seq<u8>,
    now: u64,
    e: Ep,
    seqnum: u32,
    status: i32,
    max_len: usize,
)
    ensures
        !w.held_in(report) ==> passed_on(w, report, now) == report,
        w.held_in(report) ==> {
            let data = passed_on(w, report, now);
            let owed = e.owed(status, data);
            &&& data.len() == 0
            &&& reply_bytes(seqnum, status, 0, data) == empty_reply(seqnum, status)
            &&& empty_reply(seqnum, status).len() == 48
            &&& owed matches Some((s, st, b)) ==> reply_bytes(s, st, b.len() as usize, b)
                == empty_reply(s, st)
            &&& e.waiting is None && status == 0 ==> cut(
                e.after_completion(status, data).captured.last(),
                max_len,
            ).len() == 0
        },
{
    let h = Header::reply(
        USBIP_RET_SUBMIT,
        seqnum,
        Body::RetSubmit(
            RetSubmit {
                status,
                actual_length: 0,
                start_frame: 0,
                number_of_packets: 0,
                error_count: 0,
            },
        ),
    );
    lemma_header_size(h);
}

/// A submit on a prefetched endpoint always asks for the endpoint to be armed, whether
/// a report was ready or not. If its last URB was refused, so that none is in flight,
/// a URB is wanted for it then, and is in flight once the device accepts it.
pub proof fn lemma_a_submit_arms_its_endpoint(
    before: Session,
    pdu: Pdu,
    after: Session,
    r: Seq<Action>,
    req: Option<UrbRequest>,
)
    requires
        before.wf(),
        pdu.header.body is CmdSubmit,
        pdu.header.body->CmdSubmit_0.number_of_packets <= 0,
        answers_from_buffer(before.prefetch@, pdu) is Some,
        before.commanded(pdu, after, r),
        after.prefetch@.wants(prefetched_address(pdu).unwrap(), req),
    ensures
        ({
            let b = before.prefetch@;
            let i = answers_from_buffer(b, pdu).unwrap();
            let address = prefetched_address(pdu).unwrap();
            &&& r.last() == Action::Arm(address)
            &&& req is Some <==> b.eps[i].in_flight is None
            &&& req is Some && !b.is_out(b.next) ==> {
                &&& Prefetch::asks_for_report(req.unwrap(), b.eps[i], b.next)
                &&& after.prefetch@.after_arming(address, Ok(())).eps[i].in_flight == Some(b.next)
            }
        }),
{
    let b = before.prefetch@;
    let address = prefetched_address(pdu).unwrap();
    let c = pdu.header.body->CmdSubmit_0;
    let max = at_least_zero(c.transfer_buffer_length) as usize;
    lemma_place_of(b.eps, address);
    let i = answers_from_buffer(b, pdu).unwrap();
    assert(b.eps[i].wf());
    assert(after.prefetch@.wf());
    lemma_place_of_address(after.prefetch@, i);
    if req is Some && !b.is_out(b.next) {
        lemma_a_client_submit_rearms(b, address, pdu.header.base.seqnum, max, req);
    }
}

/// What a session leaves in flight is never answered in the next: whatever draining
/// could not wait for completes there without a message, and changes nothing.
pub proof fn lemma_leftovers_are_not_answered(
    left: DeviceState,
    reaped: Seq<u32>,
    urb: Urb,
    status: i32,
    actual: i32,
    c: UrbCompletion,
    next: Session,
    now: u64,
    after: Session,
    r: Seq<Action>,
)
    requires
        left.wf(),
        left.after_cancelling().after_draining(reaped).pending.dom().contains(urb.seqnum),
        left.after_cancelling().after_draining(reaped).reaps(urb, status, actual, c),
        next.delivered(c, now, after, r),
    ensures
        r.len() == 0,
        after == next,
{
    lemma_teardown_leaves_nothing(left, reaped, false, false);
}

/// What a client submits reaches the device. If a submit is taken by the device as a URB,
/// the URB has the submit's seqnum and goes to the endpoint that its header names, in its
/// direction; the bytes that followed the header stand in the URB's buffer where its data
/// begins, in order and all of them; and what comes back is as much as was asked for at
/// most. A submit to the control endpoint has its setup packet before the data.
pub proof fn lemma_a_submit_reaches_the_device(
    before: Session,
    pdu: Pdu,
    after: Session,
    r: Seq<Action>,
    c: CmdSubmit,
    d: DeviceState,
    urb: Urb,
)
    requires
        d.wf(),
        d.max_transfer <= 0x7000_0000,
        pdu.header.body == Body::CmdSubmit(c),
        c.number_of_packets <= 0,
        c.transfer_buffer_length >= 0,
        before.commanded(pdu, after, r),
        r.len() == 1,
        r[0] is Submit,
        d.decides(r[0]->Submit_0, Ok(Submission::Urb(urb))),
    ensures
        ({
            let off = urb.data_offset as int;
            let base = pdu.header.base;
            &&& after.prefetch@ == before.prefetch@ && after.stats == before.stats
            &&& urb.seqnum == base.seqnum
            &&& urb.dir is In <==> base.direction == 1
            &&& urb.endpoint == base.ep % 16 + (if base.direction == 1 {
                128int
            } else {
                0
            })
            &&& base.ep % 16 == 0 ==> off == 8 && urb.buffer@.take(8) == c.setup@
            &&& base.direction != 1 && pdu.data@.len() <= c.transfer_buffer_length
                ==> urb.buffer@.subrange(off, off + pdu.data@.len()) == pdu.data@
            &&& urb.buffer@.len() >= off + c.transfer_buffer_length
            &&& urb.max_reply == c.transfer_buffer_length
            &&& urb.flags & 1 != 0 <==> base.direction == 1 && c.transfer_flags & 1 != 0
            &&& urb.flags & 0x80 != 0 <==> c.transfer_flags & 0x80 != 0
        }),
{
    let req = r[0]->Submit_0;
    lemma_a_urb_carries_the_request(d, req, urb);
    lemma_urb_flags(d, req, urb);
}

/// Which submits go to the device: those that are not isochronous, unless they ask for
/// input on a data endpoint that is prefetched and has not given up. Nothing is answered
/// before the device has been asked.
pub proof fn lemma_other_submits_go_to_the_device(
    before: Session,
    pdu: Pdu,
    after: Session,
    r: Seq<Action>,
    c: CmdSubmit,
)
    requires
        before.wf(),
        pdu.header.body == Body::CmdSubmit(c),
        before.commanded(pdu, after, r),
    ensures
        (r.len() == 1 && r[0] is Submit) <==> {
            &&& c.number_of_packets <= 0
            &&& !exists|i: int|
                0 <= i < before.prefetch@.eps.len() && pdu.header.base.direction == 1
                    && pdu.header.base.ep % 16 != 0 && (
                #[trigger] before.prefetch@.eps[i]).address == 128 + pdu.header.base.ep % 16
                    && !before.prefetch@.eps[i].disabled
        },
        c.number_of_packets > 0 ==> r.len() == 1 && r[0] is Reply && r[0]->Reply_0@
            == empty_reply(pdu.header.base.seqnum, (-EOPNOTSUPP) as i32),
{
    let b = before.prefetch@;
    match prefetched_address(pdu) {
        Some(a) => {
            lemma_place_of(b.eps, a);
            if c.number_of_packets <= 0 {
                match place_of(b.eps, a) {
                    Some(i) => {
                        assert forall|k: int|
                            0 <= k < b.eps.len() && (#[trigger] b.eps[k]).address == a implies k
                            == i by {
                            if k < i {
                                assert(b.eps[k].address != b.eps[i].address);
                            } else if i < k {
                                assert(b.eps[i].address != b.eps[k].address);
                            }
                        }
                    },
                    None => {},
                }
            }
        },
        None => {},
    }
}

proof fn lemma_reply_layout(seqnum: u32, ret: RetSubmit, data: Seq<u8>)
    ensures
        ({
            let b = ret_submit_bytes(seqnum, ret, data);
            &&& network_value(b.subrange(0, 4)) == 3
            &&& network_value(b.subrange(4, 8)) == seqnum
            &&& spells_signed(b, 20, ret.status)
            &&& spells_signed(b, 24, ret.actual_length)
            &&& b.len() == 48 + data.len()
            &&& b.skip(48) == data
        }),
{
    let h = Header::reply(USBIP_RET_SUBMIT, seqnum, Body::RetSubmit(ret));
    let b = ret_submit_bytes(seqnum, ret, data);
    lemma_header_layout(h);
    let s = h.bytes();
    assert(b.subrange(0, 4) =~= s.subrange(0, 4));
    assert(b.subrange(4, 8) =~= s.subrange(4, 8));
    assert(b.subrange(20, 24) =~= s.subrange(20, 24));
    assert(b.subrange(24, 28) =~= s.subrange(24, 28));
    assert(b.skip(48) =~= data);
}

/// Whether `b` is the completion of a submit with this seqnum, status and data.
pub open spec fn is_completion(b: Seq<u8>, seqnum: u32, status: i32, data: Seq<u8>) -> bool {
    &&& b.len() == 48 + data.len()
    &&& network_value(b.subrange(0, 4)) == 3
    &&& network_value(b.subrange(4, 8)) == seqnum
    &&& spells_signed(b, 20, status)
    &&& network_value(b.subrange(24, 28)) == data.len()
    &&& b.skip(48) == data
}

/// What the device sent reaches the client. The completion of a client's own URB, unless
/// it was cancelled, is answered with one message: its seqnum, its status, and its data
/// behind the header, with the length stated; the data of a report with the chord down is
/// left out, and nothing else is.
pub proof fn lemma_a_completion_reaches_the_client(
    before: Session,
    c: UrbCompletion,
    now: u64,
    after: Session,
    r: Seq<Action>,
)
    requires
        before.delivered(c, now, after, r),
        before.prefetch@.eps.len() == 0 || c.seqnum < 0x8000_0000,
        !c.unlinked,
        c.data@.len() < 0x8000_0000,
        c.actual_length == c.data@.len(),
    ensures
        r.len() >= 1,
        r[0] is Reply,
        is_completion(r[0]->Reply_0@, c.seqnum, c.status, before.passes(c.data@, now)),
        before.detector is None ==> before.passes(c.data@, now) == c.data@ && r.len() == 1,
        after.prefetch == before.prefetch,
        forall|k: int| 1 <= k < r.len() ==> #[trigger] r[k] is Suspend,
{
    let data = before.passes(c.data@, now);
    let n = data.len() as int;
    lemma_reply_layout(
        c.seqnum,
        RetSubmit {
            status: c.status,
            actual_length: n as usize as i32,
            start_frame: 0,
            number_of_packets: 0,
            error_count: 0,
        },
        data,
    );
    let tail = Session::suspension(before.verdict_on(c.data@, now));
    assert forall|k: int| 1 <= k < r.len() implies #[trigger] r[k] is Suspend by {
        assert(r.skip(1)[k - 1] == r[k]);
        assert(tail[k - 1] is Suspend);
    }
}

/// A submit on a prefetched endpoint that finds a report is answered at once, with the
/// oldest report that is waiting, as many of its bytes as were asked for; the report is
/// gone from the buffer then, and those behind it stay in order.
pub proof fn lemma_a_submit_gets_the_oldest_report(
    before: Session,
    pdu: Pdu,
    after: Session,
    r: Seq<Action>,
    c: CmdSubmit,
    i: int,
)
    requires
        before.wf(),
        pdu.header.body == Body::CmdSubmit(c),
        c.number_of_packets <= 0,
        0 <= c.transfer_buffer_length,
        pdu.header.base.direction == 1,
        pdu.header.base.ep % 16 != 0,
        0 <= i < before.prefetch@.eps.len(),
        before.prefetch@.eps[i].address == 128 + pdu.header.base.ep % 16,
        !before.prefetch@.eps[i].disabled,
        before.commanded(pdu, after, r),
    ensures
        ({
            let had = before.prefetch@.eps[i].captured;
            let now = after.prefetch@.eps[i];
            let n = if had.len() > 0 && had[0].len() < c.transfer_buffer_length {
                had[0].len() as int
            } else {
                c.transfer_buffer_length as int
            };
            &&& after.prefetch@.eps.len() == before.prefetch@.eps.len()
            &&& forall|k: int|
                0 <= k < before.prefetch@.eps.len() && k != i ==> after.prefetch@.eps[k]
                    == #[trigger] before.prefetch@.eps[k]
            &&& had.len() > 0 ==> {
                &&& r.len() == 2 && r[0] is Reply
                &&& is_completion(r[0]->Reply_0@, pdu.header.base.seqnum, 0, had[0].take(n))
                &&& now.captured == had.skip(1)
                &&& now.waiting == before.prefetch@.eps[i].waiting
            }
            &&& had.len() == 0 ==> {
                &&& r.len() == 1 && !(r[0] is Reply)
                &&& now.waiting is Some && now.waiting.unwrap().seqnum == pdu.header.base.seqnum
                &&& now.waiting.unwrap().max_len == c.transfer_buffer_length
                &&& now.captured == had
            }
        }),
{
    let b = before.prefetch@;
    lemma_place_of_address(b, i);
    let had = b.eps[i].captured;
    if had.len() > 0 {
        let max = at_least_zero(c.transfer_buffer_length) as usize;
        let d = cut(had[0], max);
        let n = if had[0].len() < c.transfer_buffer_length {
            had[0].len() as int
        } else {
            c.transfer_buffer_length as int
        };
        assert(d =~= had[0].take(n));
        lemma_reply_layout(
            pdu.header.base.seqnum,
            RetSubmit {
                status: 0,
                actual_length: (d.len() as usize) as i32,
                start_frame: 0,
                number_of_packets: 0,
                error_count: 0,
            },
            d,
        );
        assert(had.drop_first() =~= had.skip(1));
    }
}

/// A report that arrives on a prefetched endpoint goes to the client that waits there, if
/// one does: its submit is completed with the report, as many bytes as it asked for, or
/// with the error and no data; nobody waits then. If nobody waits, nothing is sent, and a
/// report that arrived is the newest in the buffer. The endpoint is to be armed again.
pub proof fn lemma_a_waiting_client_gets_the_report(
    before: Session,
    c: UrbCompletion,
    now: u64,
    after: Session,
    r: Seq<Action>,
    i: int,
)
    requires
        before.wf(),
        before.delivered(c, now, after, r),
        !c.unlinked,
        0 <= i < before.prefetch@.eps.len(),
        before.prefetch@.eps[i].in_flight == Some(c.seqnum),
        c.data@.len() < 0x8000_0000,
    ensures
        ({
            let e = before.prefetch@.eps[i];
            let f = after.prefetch@.eps[i];
            let report = before.passes(c.data@, now);
            &&& f.in_flight is None
            &&& f.waiting is None
            &&& e.waiting matches Some(w) ==> {
                let n = if report.len() < w.max_len {
                    report.len() as int
                } else {
                    w.max_len as int
                };
                &&& r.len() >= 2 && r[0] is Reply && r[1] == Action::Arm(e.address)
                &&& c.status == 0 ==> is_completion(
                    r[0]->Reply_0@,
                    w.seqnum,
                    0,
                    report.take(n),
                ) && f.captured == e.captured
                &&& c.status != 0 ==> is_completion(r[0]->Reply_0@, w.seqnum, c.status, seq![])
            }
            &&& e.waiting is None ==> {
                &&& r.len() >= 1 && r[0] == Action::Arm(e.address)
                &&& c.status == 0 ==> f.captured.len() > 0 && f.captured.last() == report
            }
            &&& c.status == 0 ==> f.errors == 0
            &&& c.status != 0 ==> f.errors == e.errors + 1
        }),
{
    let b = before.prefetch@;
    assert(b.eps[i].wf());
    let k = b.out_at(c.seqnum);
    assert(b.eps[k].in_flight == Some(c.seqnum));
    if k < i {
        assert(b.eps[k].in_flight != b.eps[i].in_flight);
    } else if i < k {
        assert(b.eps[i].in_flight != b.eps[k].in_flight);
    }
    let e = b.eps[i];
    let report = before.passes(c.data@, now);
    match e.owed(c.status, report) {
        Some((s, st, d)) => {
            lemma_reply_layout(
                s,
                RetSubmit {
                    status: st,
                    actual_length: (d.len() as usize) as i32,
                    start_frame: 0,
                    number_of_packets: 0,
                    error_count: 0,
                },
                d,
            );
            let w = e.waiting.unwrap();
            let n = if report.len() < w.max_len {
                report.len() as int
            } else {
                w.max_len as int
            };
            if c.status == 0 {
                assert(d =~= report.take(n));
            } else {
                assert(d =~= seq![]);
            }
        },
        None => {},
    }
}

/// A submit that the device refuses, or that was carried out at once, is answered at
/// once: with its status and no data. One that is on its way is not answered yet, and a
/// device that is gone ends the session instead.
pub proof fn lemma_what_a_refused_submit_is_answered(
    before: Session,
    seqnum: u32,
    outcome: Result<(), SubmitError>,
    after: Session,
    r: Result<Option<Vec<u8>>, i32>,
)
    requires
        before.submit_answered(seqnum, outcome, after, r),
    ensures
        outcome is Ok ==> r == Ok::<Option<Vec<u8>>, i32>(None),
        outcome matches Err(SubmitError::Urb(s)) ==> r is Ok && r->Ok_0 is Some && is_completion(
            r->Ok_0->Some_0@,
            seqnum,
            s,
            seq![],
        ),
        outcome matches Err(SubmitError::Handled(s)) ==> r is Ok && r->Ok_0 is Some
            && is_completion(r->Ok_0->Some_0@, seqnum, s, seq![]),
        outcome matches Err(SubmitError::Fatal(e)) ==> r == Err::<Option<Vec<u8>>, i32>(e),
        after.prefetch == before.prefetch,
{
    let none = Seq::<u8>::empty();
    assert(none =~= seq![]);
    match outcome {
        Err(SubmitError::Urb(s)) => lemma_reply_layout(seqnum, no_data(s), none),
        Err(SubmitError::Handled(s)) => lemma_reply_layout(seqnum, no_data(s), none),
        _ => {},
    }
}

spec fn no_data(status: i32) -> RetSubmit {
    RetSubmit { status, actual_length: 0, start_frame: 0, number_of_packets: 0, error_count: 0 }
}

/// An unlink is answered with one message of its own: the seqnum of the unlink, and that
/// the connection was reset if its submit was caught, or zero. A submit that waits at a
/// prefetched endpoint is caught there, and no longer waits; any other is left to the
/// device, under the seqnum that the unlink names.
pub proof fn lemma_what_an_unlink_is_answered(
    before: Session,
    pdu: Pdu,
    after: Session,
    r: Seq<Action>,
    target: u32,
    caught: bool,
    answered: Session,
    b: Seq<u8>,
)
    requires
        pdu.header.body is CmdUnlink,
        pdu.header.body->CmdUnlink_0.unlink_seqnum == target,
        before.commanded(pdu, after, r),
        after.unlink_answered(pdu.header.base.seqnum, caught, answered, b),
    ensures
        r.len() == 1,
        r[0] is Reply || r[0] == (Action::Discard { seqnum: pdu.header.base.seqnum, target }),
        r[0] is Reply <==> exists|i: int|
            0 <= i < before.prefetch@.eps.len() && (
            #[trigger] before.prefetch@.eps[i]).waiting is Some
                && before.prefetch@.eps[i].waiting.unwrap().seqnum == target,
        r[0] is Reply ==> is_unlink_answer(r[0]->Reply_0@, pdu.header.base.seqnum, true),
        is_unlink_answer(b, pdu.header.base.seqnum, caught),
{
    let eps = before.prefetch@.eps;
    lemma_waiting_at_finds(eps, target);
    lemma_unlink_layout(pdu.header.base.seqnum, true);
    lemma_unlink_layout(pdu.header.base.seqnum, caught);
}

/// Whether `b` is the answer to an unlink.
pub open spec fn is_unlink_answer(b: Seq<u8>, seqnum: u32, caught: bool) -> bool {
    &&& b.len() == 48
    &&& network_value(b.subrange(0, 4)) == 4
    &&& network_value(b.subrange(4, 8)) == seqnum
    &&& caught ==> spells_signed(b, 20, (-ECONNRESET) as i32)
    &&& !caught ==> spells_signed(b, 20, 0)
}

proof fn lemma_unlink_layout(seqnum: u32, caught: bool)
    ensures
        is_unlink_answer(ret_unlink_bytes(seqnum, unlink_status(caught)), seqnum, caught),
{
    let status = unlink_status(caught);
    lemma_header_layout(
        Header::reply(USBIP_RET_UNLINK, seqnum, Body::RetUnlink(RetUnlink { status })),
    );
}

proof fn lemma_waiting_at_finds(eps: Seq<Ep>, s: u32)
    ensures
        Prefetch::waiting_at(eps, s) is Some <==> exists|i: int|
            0 <= i < eps.len() && (#[trigger] eps[i]).waiting is Some
                && eps[i].waiting.unwrap().seqnum == s,
    decreases eps.len(),
{
    if eps.len() > 0 {
        let init = eps.drop_last();
        lemma_waiting_at_finds(init, s);
        assert(eps[eps.len() - 1] == eps.last());
        if Prefetch::waiting_at(init, s) is Some {
            let i = choose|i: int|
                0 <= i < init.len() && (#[trigger] init[i]).waiting is Some
                    && init[i].waiting.unwrap().seqnum == s;
            assert(eps[i] == init[i]);
        }
        if exists|i: int|
            0 <= i < eps.len() && (#[trigger] eps[i]).waiting is Some
                && eps[i].waiting.unwrap().seqnum == s {
            let i = choose|i: int|
                0 <= i < eps.len() && (#[trigger] eps[i]).waiting is Some
                    && eps[i].waiting.unwrap().seqnum == s;
            if i < init.len() {
                assert(init[i] == eps[i]);
            }
        }
    }
}

/// The counters of a session: each step adds one to at most two of them, and never to a
/// wrong one. A submit that is passed on counts once the device has it, one that is
/// answered from a buffer counts as submitted and completed; completions that are sent,
/// unlinks and refusals are counted as such.
pub proof fn lemma_what_is_counted(
    s: Session,
    seqnum: u32,
    outcome: Result<(), SubmitError>,
    after: Session,
    r: Result<Option<Vec<u8>>, i32>,
    caught: bool,
    answered: Session,
    b: Seq<u8>,
)
    requires
        s.stats.submitted < u64::MAX,
        s.stats.completed < u64::MAX,
        s.stats.unlinked < u64::MAX,
        s.stats.rejected < u64::MAX,
        s.submit_answered(seqnum, outcome, after, r),
        s.unlink_answered(seqnum, caught, answered, b),
    ensures
        after.stats.unlinked == s.stats.unlinked,
        after.stats.submitted == s.stats.submitted + (if outcome is Ok {
            1int
        } else {
            0
        }),
        after.stats.completed == s.stats.completed + (if outcome is Err && outcome->Err_0
            is Handled {
            1int
        } else {
            0
        }),
        after.stats.rejected == s.stats.rejected + (if outcome is Err && outcome->Err_0 is Urb {
            1int
        } else {
            0
        }),
        answered.stats.unlinked == s.stats.unlinked + 1,
        answered.stats.submitted == s.stats.submitted,
        answered.stats.completed == s.stats.completed,
        answered.stats.rejected == s.stats.rejected,
{
}

/// The completion of a client's own URB says how much the device took or gave, which of an
/// OUT is not what stands behind the header: nothing does. Only a report with every button
/// of the chord down is said to have moved nothing; every other is passed on as it is.
pub proof fn lemma_a_completion_says_how_much_was_moved(
    before: Session,
    c: UrbCompletion,
    now: u64,
    after: Session,
    r: Seq<Action>,
)
    requires
        before.delivered(c, now, after, r),
        before.prefetch@.eps.len() == 0 || c.seqnum < 0x8000_0000,
        !c.unlinked,
        c.actual_length < 0x8000_0000,
    ensures
        r.len() >= 1,
        r[0] is Reply,
        ({
            let b = r[0]->Reply_0@;
            let d = c.data@;
            let chord_down = before.detector matches Some(w) && d.len() >= 16 && d[0] == 1 && d[1]
                == 0 && d[2] == 9 && d[3] >= 12 && forall|k: u64|
                k < 64 && #[trigger] (w@.chord.bits() & (1u64 << k)) != 0 ==> d[8 + k as int / 8]
                    & (1u8 << ((k % 8) as u8)) != 0;
            &&& network_value(b.subrange(0, 4)) == 3
            &&& network_value(b.subrange(4, 8)) == c.seqnum
            &&& spells_signed(b, 20, c.status)
            &&& !chord_down ==> network_value(b.subrange(24, 28)) == c.actual_length && b.skip(48)
                == d
            &&& chord_down ==> network_value(b.subrange(24, 28)) == 0 && b.len() == 48
        }),
{
    let data = before.passes(c.data@, now);
    let actual = if before.verdict_on(c.data@, now).swallow {
        0usize
    } else {
        c.actual_length
    };
    lemma_reply_layout(
        c.seqnum,
        RetSubmit {
            status: c.status,
            actual_length: actual as i32,
            start_frame: 0,
            number_of_packets: 0,
            error_count: 0,
        },
        data,
    );
    match before.detector {
        Some(w) => lemma_a_chord_is_held_when_its_buttons_are(w@, c.data@, now),
        None => {},
    }
}

/// What a completion changes besides: a URB that was cancelled is passed over without a
/// trace; every other is counted as completed if a message is sent for it, and no counter
/// else changes; and the device is taken off offer, last of all, exactly when the detector
/// fires.
pub proof fn lemma_what_else_a_completion_does(
    before: Session,
    c: UrbCompletion,
    now: u64,
    after: Session,
    r: Seq<Action>,
)
    requires
        before.delivered(c, now, after, r),
        before.stats.completed < u64::MAX,
    ensures
        c.unlinked ==> r.len() == 0 && after == before,
        !c.unlinked ==> {
            &&& (exists|k: int| 0 <= k < r.len() && #[trigger] r[k] is Suspend) <==> (
            before.detector matches Some(w) && w@.verdict(c.data@, now).fired)
            &&& r.len() > 0 && r[0] is Reply ==> after.stats.completed == before.stats.completed
                + 1
            &&& r.len() == 0 || !(r[0] is Reply) ==> after.stats.completed
                == before.stats.completed
            &&& after.stats.submitted == before.stats.submitted
            &&& after.stats.unlinked == before.stats.unlinked
            &&& after.stats.rejected == before.stats.rejected
            &&& before.detector is None <==> after.detector is None
            &&& before.detector matches Some(w) ==> after.detector->Some_0@ == w@.after(
                c.data@,
                now,
            )
        },
{
    if !c.unlinked {
        let v = before.verdict_on(c.data@, now);
        let tail = Session::suspension(v);
        let n = r.len() - tail.len();
        assert(0 <= n <= 2);
        assert forall|k: int| 0 <= k < tail.len() implies r[n + k] == #[trigger] tail[k] by {
            assert(r.skip(n)[k] == r[n + k]);
            if n == 0 {
                assert(r.skip(0) =~= r);
            }
        }
        if v.fired {
            assert(tail[0] is Suspend);
            assert(r[n + 0] is Suspend);
        }
    }
}

/// What a command counts: a submit that is answered from a buffer counts as submitted and
/// as completed, one that waits there as submitted, an isochronous one as rejected, and an
/// unlink that catches a waiting submit as unlinked; a command that goes to the device
/// counts when the device has answered.
pub proof fn lemma_what_a_command_counts(before: Session, pdu: Pdu, after: Session, r: Seq<Action>)
    requires
        before.commanded(pdu, after, r),
        pdu.header.body is CmdSubmit || pdu.header.body is CmdUnlink,
        before.stats.submitted < u64::MAX,
        before.stats.completed < u64::MAX,
        before.stats.unlinked < u64::MAX,
        before.stats.rejected < u64::MAX,
    ensures
        ({
            let s = before.stats;
            let t = after.stats;
            let replied = r[0] is Reply;
            let passed_on = r[0] is Submit || r[0] is Discard;
            &&& r.len() >= 1
            &&& after.detector == before.detector
            &&& passed_on ==> t == s && after.prefetch@ == before.prefetch@
            &&& pdu.header.body is CmdUnlink && replied ==> t.unlinked == s.unlinked + 1
                && t.submitted == s.submitted && t.completed == s.completed && t.rejected
                == s.rejected
            &&& pdu.header.body matches Body::CmdSubmit(c) ==> {
                &&& c.number_of_packets > 0 ==> t.rejected == s.rejected + 1 && t.submitted
                    == s.submitted && t.completed == s.completed && t.unlinked == s.unlinked
                &&& c.number_of_packets <= 0 && !passed_on ==> t.submitted == s.submitted + 1
                    && t.completed == s.completed + (if replied {
                    1int
                } else {
                    0
                }) && t.rejected == s.rejected && t.unlinked == s.unlinked
            }
        }),
{
}

/// An unlink that catches a submit waiting at a prefetched endpoint ends that wait and
/// touches nothing else of the endpoint, nor any other.
pub proof fn lemma_an_unlink_ends_the_wait(
    before: Session,
    pdu: Pdu,
    after: Session,
    r: Seq<Action>,
    i: int,
)
    requires
        before.wf(),
        pdu.header.body is CmdUnlink,
        before.commanded(pdu, after, r),
        0 <= i < before.prefetch@.eps.len(),
        before.prefetch@.eps[i].waiting is Some,
        before.prefetch@.eps[i].waiting.unwrap().seqnum
            == pdu.header.body->CmdUnlink_0.unlink_seqnum,
        forall|k: int|
            0 <= k < i ==> !((#[trigger] before.prefetch@.eps[k]).waiting matches Some(w)
                && w.seqnum == pdu.header.body->CmdUnlink_0.unlink_seqnum),
    ensures
        ({
            let e = before.prefetch@.eps[i];
            let f = after.prefetch@.eps[i];
            &&& f.waiting is None
            &&& f.captured == e.captured && f.in_flight == e.in_flight
            &&& f.errors == e.errors && f.disabled == e.disabled && f.address == e.address
            &&& after.prefetch@.eps.len() == before.prefetch@.eps.len()
            &&& forall|k: int|
                0 <= k < before.prefetch@.eps.len() && k != i ==> after.prefetch@.eps[k]
                    == #[trigger] before.prefetch@.eps[k]
        }),
{
    lemma_where_a_client_waits(
        before.prefetch@.eps,
        pdu.header.body->CmdUnlink_0.unlink_seqnum,
        i,
    );
}

/// What is kept from the importer of what a device sends: a state report with every button
/// of the chord down, where a chord is watched for, and nothing else.
pub proof fn lemma_only_the_chord_is_kept_back(s: Session, d: Seq<u8>, now: u64)
    ensures
        ({
            let chord_down = s.detector matches Some(w) && d.len() >= 16 && d[0] == 1 && d[1] == 0
                && d[2] == 9 && d[3] >= 12 && forall|k: u64|
                k < 64 && #[trigger] (w@.chord.bits() & (1u64 << k)) != 0 ==> d[8 + k as int / 8]
                    & (1u8 << ((k % 8) as u8)) != 0;
            &&& !chord_down ==> s.passes(d, now) == d
            &&& chord_down ==> s.passes(d, now).len() == 0
        }),
{
    match s.detector {
        Some(w) => lemma_a_chord_is_held_when_its_buttons_are(w@, d, now),
        None => {},
    }
}

/// A URB of prefetching that is not in flight has nothing to deliver, and none of them is
/// ever answered under its own seqnum.
pub proof fn lemma_own_urbs_are_not_answered(
    before: Session,
    c: UrbCompletion,
    now: u64,
    after: Session,
    r: Seq<Action>,
)
    requires
        before.wf(),
        before.delivered(c, now, after, r),
        before.prefetch@.eps.len() > 0,
        c.seqnum >= 0x8000_0000,
        !c.unlinked,
        forall|i: int|
            0 <= i < before.prefetch@.eps.len() ==> (#[trigger] before.prefetch@.eps[i]).in_flight
                != Some(c.seqnum),
    ensures
        after.prefetch@ == before.prefetch@,
        after.stats == before.stats,
        forall|k: int| 0 <= k < r.len() ==> #[trigger] r[k] is Suspend,
{
}

/// A message is waited for as long as the queue is full and the session goes on; it is
/// given up only when the session is being stopped or the writer is gone; and a message
/// that was taken is done with, whatever else.
pub proof fn lemma_no_reply_is_given_up_early(h: Handover, stopping: bool)
    ensures
        h is Taken <==> after_handover(h, stopping) is Done,
        after_handover(h, stopping) is Again <==> h is Full && !stopping,
        after_handover(h, stopping) is GiveUp ==> h is Gone || stopping,
{
}

/// A reply says nothing but what it is about: every byte of its header that is not the
/// command, the seqnum, the status or the length is zero. A reply without data is the same
/// as one of which nothing was moved.
pub proof fn lemma_replies_say_nothing_else(
    seqnum: u32,
    status: i32,
    actual: usize,
    data: Seq<u8>,
    k: int,
)
    ensures
        8 <= k < 20 || 28 <= k < 48 ==> reply_bytes(seqnum, status, actual, data)[k] == 0,
        8 <= k < 20 || 24 <= k < 48 ==> ret_unlink_bytes(seqnum, status)[k] == 0,
        8 <= k < 20 || 24 <= k < 48 ==> empty_reply(seqnum, status)[k] == 0,
        empty_reply(seqnum, status).len() == 48,
        ret_unlink_bytes(seqnum, status).len() == 48,
{
    let ret = RetSubmit {
        status,
        actual_length: actual as i32,
        start_frame: 0,
        number_of_packets: 0,
        error_count: 0,
    };
    let h = Header::reply(USBIP_RET_SUBMIT, seqnum, Body::RetSubmit(ret));
    let g = Header::reply(USBIP_RET_SUBMIT, seqnum, Body::RetSubmit(no_data(status)));
    let u = Header::reply(USBIP_RET_UNLINK, seqnum, Body::RetUnlink(RetUnlink { status }));
    lemma_header_size(h);
    lemma_header_size(g);
    lemma_header_size(u);
    lemma_header_layout(h);
    lemma_header_layout(g);
    lemma_header_layout(u);
    let b = reply_bytes(seqnum, status, actual, data);
    let e = empty_reply(seqnum, status);
    if 8 <= k < 20 || 24 <= k < 48 {
        assert(b[k] == h.bytes()[k]);
        assert(e[k] == g.bytes()[k]);
    }
}

} // verus!
