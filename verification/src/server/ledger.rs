//! What becomes of submits: a client's submit is settled once, by a completion or
//! by an unlink that catches it, and until then it is open.
//!
//! [`Pump`] keeps the account of a session: which submits are on their way, and what
//! each happening settles. [`World`] is the session and its device themselves, and a
//! [`Deed`] one round of calls on them; each is shown to be a step of the account, and
//! what it puts on the wire to be what the step settles.
use crate::backend::usbfs::{special_outcome, submit_outcome, DeviceState, Submission, Urb};
use crate::backend::{SubmitError, UrbCompletion, UrbRequest};
use crate::errno::EOPNOTSUPP;
use crate::proto::io::{ret_submit_bytes, ret_unlink_bytes, Pdu};
use crate::proto::pdu::{
    at_least_zero, lemma_header_reads_back, lemma_header_size, BasicHeader, Body, Header, RetSubmit,
    RetUnlink, USBIP_RET_SUBMIT, USBIP_RET_UNLINK,
};
use crate::server::prefetch::{
    cut, endpoints_of, lemma_place_of, place_of, Buffers, Ep, Prefetch, INTERNAL_BASE,
};
use crate::server::session::{
    answers_from_buffer, empty_reply, prefetched_address, unlink_status, Action, Session,
};
use vstd::prelude::*;

verus! {

/// The submits of a session that are on their way: those that wait in the buffers,
/// and the client's URBs in flight on the device, each with whether it was cancelled.
pub struct Pump {
    pub buffers: Buffers,
    pub pending: Map<u32, bool>,
}

/// Something that happens in a session.
pub enum Happening {
    /// A submit arrives; `outcome` is how submitting it to the device ends, if it
    /// gets that far.
    Submit { pdu: Pdu, outcome: Result<(), SubmitError> },
    /// An unlink of this submit arrives.
    Unlink(u32),
    /// The URB that an endpoint wanted is submitted.
    Armed { address: u8, outcome: Result<(), SubmitError> },
    /// A URB is reaped.
    Reaped { seqnum: u32, status: i32, data: Seq<u8> },
}

/// How a submit is settled.
pub enum Settled {
    /// A completion for it is sent.
    Answered(u32),
    /// An unlink caught it.
    Cancelled(u32),
}

impl Settled {
    pub open spec fn seqnum(self) -> u32 {
        match self {
            Settled::Answered(s) => s,
            Settled::Cancelled(s) => s,
        }
    }
}

/// Whether a submit waits at some endpoint.
pub open spec fn waits(eps: Seq<Ep>, s: u32) -> bool {
    exists|i: int| 0 <= i < eps.len() && waits_at(#[trigger] eps[i], s)
}

pub open spec fn waits_at(e: Ep, s: u32) -> bool {
    e.waiting is Some && e.waiting.unwrap().seqnum == s
}

impl Pump {
    /// Whether a submit is still to be settled.
    pub open spec fn open(self, s: u32) -> bool {
        (self.pending.dom().contains(s) && !self.pending[s]) || waits(self.buffers.eps, s)
    }

    /// What every step keeps: no submit is in two places.
    pub open spec fn wf(self) -> bool {
        &&& self.buffers.wf()
        &&& forall|i: int, j: int, s: u32|
            0 <= i < j < self.buffers.eps.len() && #[trigger] waits_at(self.buffers.eps[i], s)
                ==> !#[trigger] waits_at(self.buffers.eps[j], s)
        &&& forall|i: int, s: u32|
            0 <= i < self.buffers.eps.len() && #[trigger] waits_at(self.buffers.eps[i], s)
                ==> !self.pending.dom().contains(s)
    }

    pub open spec fn with_ep(self, i: int, e: Ep) -> Pump {
        Pump { buffers: self.buffers.with_ep(i, e), ..self }
    }

    /// Whether a reaped URB is one that prefetching submitted.
    pub open spec fn is_internal(self, seqnum: u32) -> bool {
        self.buffers.eps.len() > 0 && seqnum >= INTERNAL_BASE
    }

    /// What can happen: a client keeps off the seqnums of prefetching, does not use a
    /// seqnum again while it is in use, and keeps one submit per prefetched endpoint;
    /// the kernel hands back what was submitted to it, and refuses a seqnum that is
    /// out. A device that is gone ends the session.
    pub open spec fn allows(self, h: Happening) -> bool {
        match h {
            Happening::Submit { pdu, outcome } => {
                let s = pdu.header.base.seqnum;
                &&& pdu.header.body is CmdSubmit
                &&& !self.is_internal(s)
                &&& !self.pending.dom().contains(s)
                &&& !waits(self.buffers.eps, s)
                &&& !(outcome is Err && outcome->Err_0 is Fatal)
                &&& answers_from_buffer(self.buffers, pdu) is Some ==> {
                    let e = self.buffers.eps[answers_from_buffer(self.buffers, pdu).unwrap()];
                    e.captured.len() > 0 || e.waiting is None
                }
            },
            Happening::Unlink(s) => !self.is_internal(s),
            Happening::Armed { address, outcome } => {
                &&& place_of(self.buffers.eps, address) is Some
                &&& self.buffers.eps[place_of(self.buffers.eps, address).unwrap()].is_idle()
                &&& outcome is Ok ==> !self.buffers.is_out(self.buffers.next)
            },
            Happening::Reaped { seqnum, status, data } => if self.is_internal(seqnum) {
                self.buffers.is_out(seqnum)
            } else {
                self.pending.dom().contains(seqnum)
            },
        }
    }

    /// What a step comes to, and what it settles.
    pub open spec fn step(self, h: Happening) -> (Pump, Option<Settled>) {
        match h {
            Happening::Submit { pdu, outcome } => {
                let s = pdu.header.base.seqnum;
                let c = pdu.header.body->CmdSubmit_0;
                if c.number_of_packets > 0 {
                    (self, Some(Settled::Answered(s)))
                } else {
                    match answers_from_buffer(self.buffers, pdu) {
                        Some(i) => {
                            let e = self.buffers.eps[i];
                            let max = at_least_zero(c.transfer_buffer_length) as usize;
                            (
                                self.with_ep(i, e.after_take(s, max)),
                                if e.captured.len() > 0 {
                                    Some(Settled::Answered(s))
                                } else {
                                    None
                                },
                            )
                        },
                        None => if outcome is Ok {
                            (Pump { pending: self.pending.insert(s, false), ..self }, None)
                        } else {
                            (self, Some(Settled::Answered(s)))
                        },
                    }
                }
            },
            Happening::Unlink(s) => match Prefetch::waiting_at(self.buffers.eps, s) {
                Some(i) => (
                    self.with_ep(i, Ep { waiting: None, ..self.buffers.eps[i] }),
                    Some(Settled::Cancelled(s)),
                ),
                None => if self.pending.dom().contains(s) {
                    (
                        Pump { pending: self.pending.insert(s, true), ..self },
                        if self.pending[s] {
                            None
                        } else {
                            Some(Settled::Cancelled(s))
                        },
                    )
                } else {
                    (self, None)
                },
            },
            Happening::Armed { address, outcome } => (
                Pump { buffers: self.buffers.after_arming(address, outcome), ..self },
                None,
            ),
            Happening::Reaped { seqnum, status, data } => if self.is_internal(seqnum) {
                let i = self.buffers.out_at(seqnum);
                let e = self.buffers.eps[i];
                (
                    self.with_ep(i, e.after_completion(status, data)),
                    match e.owed(status, data) {
                        Some((s, _, _)) => Some(Settled::Answered(s)),
                        None => None,
                    },
                )
            } else {
                (
                    Pump { pending: self.pending.remove(seqnum), ..self },
                    if self.pending[seqnum] {
                        None
                    } else {
                        Some(Settled::Answered(seqnum))
                    },
                )
            },
        }
    }
}

pub open spec fn count(b: bool) -> int {
    if b {
        1
    } else {
        0
    }
}

/// Whether the happening is the submit `s`.
pub open spec fn submits(h: Happening, s: u32) -> bool {
    h is Submit && h->pdu.header.base.seqnum == s
}

/// Whether a step settled the submit `s`.
pub open spec fn settles(r: Option<Settled>, s: u32) -> bool {
    r is Some && r.unwrap().seqnum() == s
}

proof fn lemma_waiting_at(eps: Seq<Ep>, s: u32)
    ensures
        match Prefetch::waiting_at(eps, s) {
            Some(i) => 0 <= i < eps.len() && waits_at(eps[i], s),
            None => !waits(eps, s),
        },
    decreases eps.len(),
{
    if eps.len() > 0 {
        lemma_waiting_at(eps.drop_last(), s);
        match Prefetch::waiting_at(eps.drop_last(), s) {
            Some(i) => {
                assert(eps[i] == eps.drop_last()[i]);
            },
            None => {
                if waits(eps, s) && !waits_at(eps.last(), s) {
                    let i = choose|i: int| 0 <= i < eps.len() && waits_at(#[trigger] eps[i], s);
                    assert(eps.drop_last()[i] == eps[i]);
                }
            },
        }
    }
}

/// What one endpoint's change does to what waits.
proof fn lemma_update(p: Pump, i: int, e: Ep, s: u32)
    requires
        p.wf(),
        0 <= i < p.buffers.eps.len(),
    ensures
        waits(p.buffers.eps.update(i, e), s) == (waits_at(e, s) || (waits(p.buffers.eps, s)
            && !waits_at(p.buffers.eps[i], s))),
{
    let eps = p.buffers.eps;
    let now = eps.update(i, e);
    if waits(now, s) {
        let k = choose|k: int| 0 <= k < now.len() && waits_at(#[trigger] now[k], s);
        if k != i {
            assert(waits_at(eps[k], s));
            assert(!waits_at(eps[i], s));
        }
    }
    if waits_at(e, s) {
        assert(waits_at(now[i], s));
    }
    if waits(eps, s) && !waits_at(eps[i], s) {
        let k = choose|k: int| 0 <= k < eps.len() && waits_at(#[trigger] eps[k], s);
        assert(waits_at(now[k], s));
    }
}

/// A step keeps the account: what was open or has just been submitted is settled by
/// it or open after it, and never both.
pub proof fn lemma_a_step_keeps_the_account(p: Pump, h: Happening, s: u32)
    requires
        p.wf(),
        p.allows(h),
    ensures
        p.step(h).0.wf(),
        count(p.open(s)) + count(submits(h, s)) == count(settles(p.step(h).1, s)) + count(
            p.step(h).0.open(s),
        ),
{
    lemma_step_wf(p, h);
    let eps = p.buffers.eps;
    match h {
        Happening::Submit { pdu, outcome } => {
            let c = pdu.header.body->CmdSubmit_0;
            if c.number_of_packets <= 0 {
                match answers_from_buffer(p.buffers, pdu) {
                    Some(i) => {
                        lemma_place_of(eps, prefetched_address(pdu).unwrap());
                        let max = at_least_zero(c.transfer_buffer_length) as usize;
                        lemma_update(p, i, eps[i].after_take(pdu.header.base.seqnum, max), s);
                    },
                    None => {},
                }
            }
        },
        Happening::Unlink(t) => {
            lemma_waiting_at(eps, t);
            match Prefetch::waiting_at(eps, t) {
                Some(i) => {
                    lemma_update(p, i, Ep { waiting: None, ..eps[i] }, s);
                    assert(waits(eps, t));
                },
                None => {},
            }
        },
        Happening::Armed { address, outcome } => {
            lemma_place_of(eps, address);
            let i = place_of(eps, address).unwrap();
            lemma_update(p, i, eps[i].after_submit(p.buffers.next, outcome), s);
            if waits_at(eps[i], s) {
                assert(waits(eps, s));
            }
        },
        Happening::Reaped { seqnum, status, data } => {
            if p.is_internal(seqnum) {
                let i = p.buffers.out_at(seqnum);
                lemma_update(p, i, eps[i].after_completion(status, data), s);
                if waits_at(eps[i], s) {
                    assert(waits(eps, s));
                    assert(!p.pending.dom().contains(s));
                }
            }
        },
    }
}

proof fn lemma_update_wf(p: Pump, i: int, f: Ep)
    requires
        p.wf(),
        0 <= i < p.buffers.eps.len(),
        p.with_ep(i, f).buffers.wf(),
        forall|s: u32| #[trigger]
            waits_at(f, s) ==> waits_at(p.buffers.eps[i], s) || (!waits(p.buffers.eps, s)
                && !p.pending.dom().contains(s)),
    ensures
        p.with_ep(i, f).wf(),
{
    let eps = p.buffers.eps;
    let now = eps.update(i, f);
    assert forall|a: int, b: int, s: u32|
        0 <= a < b < now.len() && #[trigger] waits_at(now[a], s) implies !#[trigger] waits_at(
        now[b],
        s,
    ) by {
        if a != i && waits_at(now[b], s) {
            assert(waits_at(eps[a], s));
        }
        if a == i {
            assert(now[b] == eps[b]);
            if waits_at(eps[b], s) {
                assert(waits(eps, s));
                assert(waits_at(eps[i], s));
            }
        }
    }
    assert forall|a: int, s: u32|
        0 <= a < now.len() && #[trigger] waits_at(
            now[a],
            s,
        ) implies !p.pending.dom().contains(s) by {
        if a != i {
            assert(waits_at(eps[a], s));
        }
    }
}

proof fn lemma_step_wf(p: Pump, h: Happening)
    requires
        p.wf(),
        p.allows(h),
    ensures
        p.step(h).0.wf(),
{
    let eps = p.buffers.eps;
    match h {
        Happening::Submit { pdu, outcome } => {
            let new = pdu.header.base.seqnum;
            assert forall|k: int| 0 <= k < eps.len() implies !waits_at(
                #[trigger] eps[k],
                new,
            ) by {}
            match answers_from_buffer(p.buffers, pdu) {
                Some(i) => {
                    lemma_place_of(eps, prefetched_address(pdu).unwrap());
                    assert(eps[i].wf());
                    let c = pdu.header.body->CmdSubmit_0;
                    let max = at_least_zero(c.transfer_buffer_length) as usize;
                    let f = eps[i].after_take(new, max);
                    assert(f.wf());
                    assert(p.with_ep(i, f).buffers.wf());
                    lemma_update_wf(p, i, f);
                },
                None => {},
            }
        },
        Happening::Unlink(t) => {
            lemma_waiting_at(eps, t);
            match Prefetch::waiting_at(eps, t) {
                Some(i) => {
                    assert(eps[i].wf());
                    let f = Ep { waiting: None, ..eps[i] };
                    assert(p.with_ep(i, f).buffers.wf());
                    lemma_update_wf(p, i, f);
                },
                None => {},
            }
        },
        Happening::Armed { address, outcome } => {
            lemma_place_of(eps, address);
            let i = place_of(eps, address).unwrap();
            assert(eps[i].wf());
            let f = eps[i].after_submit(p.buffers.next, outcome);
            assert(f.wf());
            if outcome is Ok {
                assert forall|k: int| 0 <= k < eps.len() implies (#[trigger] eps[k]).in_flight
                    != Some(p.buffers.next) by {}
            }
            assert(p.with_ep(i, f).buffers.wf());
            lemma_update_wf(p, i, f);
        },
        Happening::Reaped { seqnum, status, data } => {
            if p.is_internal(seqnum) {
                let i = p.buffers.out_at(seqnum);
                assert(eps[i].wf());
                let f = eps[i].after_completion(status, data);
                assert(f.wf());
                assert(p.with_ep(i, f).buffers.wf());
                lemma_update_wf(p, i, f);
            }
        },
    }
}

impl Pump {
    /// The pump after all that happened.
    pub open spec fn after(self, hs: Seq<Happening>) -> Pump
        decreases hs.len(),
    {
        if hs.len() == 0 {
            self
        } else {
            self.after(hs.drop_last()).step(hs.last()).0
        }
    }

    /// Whether all of that can happen, in this order.
    pub open spec fn can_happen(self, hs: Seq<Happening>) -> bool
        decreases hs.len(),
    {
        hs.len() == 0 || self.can_happen(hs.drop_last()) && self.after(hs.drop_last()).allows(
            hs.last(),
        )
    }

    /// How often the submit `s` was settled.
    pub open spec fn times_settled(self, hs: Seq<Happening>, s: u32) -> int
        decreases hs.len(),
    {
        if hs.len() == 0 {
            0
        } else {
            self.times_settled(hs.drop_last(), s) + count(
                settles(self.after(hs.drop_last()).step(hs.last()).1, s),
            )
        }
    }
}

/// How often the submit `s` arrived.
pub open spec fn times_submitted(hs: Seq<Happening>, s: u32) -> int
    decreases hs.len(),
{
    if hs.len() == 0 {
        0
    } else {
        times_submitted(hs.drop_last(), s) + count(submits(hs.last(), s))
    }
}

/// Nothing is lost and nothing is answered twice: over a whole session, a submit is
/// settled as often as it arrived, but for one that is still open.
pub proof fn lemma_every_submit_is_settled_once(p: Pump, hs: Seq<Happening>, s: u32)
    requires
        p.wf(),
        !p.open(s),
        p.can_happen(hs),
    ensures
        p.after(hs).wf(),
        times_submitted(hs, s) == p.times_settled(hs, s) + count(p.after(hs).open(s)),
    decreases hs.len(),
{
    if hs.len() > 0 {
        lemma_every_submit_is_settled_once(p, hs.drop_last(), s);
        lemma_a_step_keeps_the_account(p.after(hs.drop_last()), hs.last(), s);
    }
}

// ---------------------------------------------------------------------------
// The session and its device, whose steps these are

/// A session with its device.
pub struct World {
    pub session: Session,
    pub device: DeviceState,
}

/// How a request to the device went: what the device made of it, the errno that the
/// kernel gave if it was asked and refused, and what that comes to.
pub struct Tried {
    pub decision: Result<Submission, SubmitError>,
    pub errno: Option<i32>,
    pub outcome: Result<(), SubmitError>,
}

impl Tried {
    /// Whether the request went so, and left the device in the state `after`.
    pub open spec fn leads(self, before: DeviceState, req: UrbRequest, after: DeviceState) -> bool {
        &&& before.decides(req, self.decision)
        &&& match self.decision {
            Err(e) => self.outcome == Err::<(), SubmitError>(e) && after == before,
            Ok(Submission::Special(_)) => {
                &&& self.outcome == Err::<(), SubmitError>(special_outcome(self.errno))
                &&& after == before
            },
            Ok(Submission::Urb(urb)) => {
                &&& self.outcome == submit_outcome(self.errno)
                &&& after == before.after_submitted(urb.seqnum, self.errno)
            },
        }
    }
}

/// What is done in a session, call by call: the values that went in and came out.
pub enum Deed {
    /// A submit was handed to the session, which was `asked` after that. If it was to
    /// go to the device, it did, and the session was told how that went.
    Submit {
        pdu: Pdu,
        actions: Seq<Action>,
        asked: Session,
        tried: Tried,
        reply: Result<Option<Vec<u8>>, i32>,
    },
    /// An unlink was handed to the session, likewise; `landed` is whether the kernel
    /// could still discard the URB, if the device had it.
    Unlink { pdu: Pdu, actions: Seq<Action>, asked: Session, landed: bool, reply: Seq<u8> },
    /// The URB that an endpoint wanted was submitted to the device.
    Arm { address: u8, req: UrbRequest, tried: Tried },
    /// A URB was reaped from the device and handed to the session.
    Reap {
        urb: Urb,
        status: i32,
        actual: i32,
        completion: UrbCompletion,
        now: u64,
        actions: Seq<Action>,
    },
}

/// Whether a command is to go to the device.
pub open spec fn goes_to_device(actions: Seq<Action>) -> bool {
    actions.len() == 1 && (actions[0] is Submit || actions[0] is Discard)
}

/// The messages among the actions.
pub open spec fn replies(actions: Seq<Action>) -> Seq<Seq<u8>>
    decreases actions.len(),
{
    if actions.len() == 0 {
        seq![]
    } else {
        match actions.last() {
            Action::Reply(b) => replies(actions.drop_last()).push(b@),
            _ => replies(actions.drop_last()),
        }
    }
}

/// Whether a message is the completion of the submit `s`.
pub open spec fn completes(b: Seq<u8>, s: u32) -> bool {
    BasicHeader::at(b).command == USBIP_RET_SUBMIT && BasicHeader::at(b).seqnum == s
}

/// How many of the messages are completions of the submit `s`.
pub open spec fn times_completed(wire: Seq<Seq<u8>>, s: u32) -> int
    decreases wire.len(),
{
    if wire.len() == 0 {
        0
    } else {
        times_completed(wire.drop_last(), s) + count(completes(wire.last(), s))
    }
}

impl World {
    /// The submits that are on their way in it.
    pub open spec fn pump(self) -> Pump {
        Pump {
            buffers: self.session.prefetch@,
            pending: Map::new(
                |s: u32| self.device.pending.dom().contains(s) && !self.session.is_internal(s),
                |s: u32| self.device.pending[s],
            ),
        }
    }

    /// What every deed keeps: besides the account's own condition, the URBs of
    /// prefetching that the device has are those that prefetching knows of, and none of
    /// them was cancelled.
    pub open spec fn wf(self) -> bool {
        &&& self.session.wf()
        &&& self.pump().wf()
        &&& forall|s: u32| #[trigger]
            self.session.is_internal(s) ==> {
                &&& self.device.pending.dom().contains(s) <==> self.session.prefetch@.is_out(s)
                &&& self.device.pending.dom().contains(s) ==> !self.device.pending[s]
            }
    }
}

impl Deed {
    /// Whether the deed brings `w` to `after`: each call did what its contract says.
    pub open spec fn leads(self, w: World, after: World) -> bool {
        match self {
            Deed::Submit { pdu, actions, asked, tried, reply } => {
                &&& w.session.commanded(pdu, asked, actions)
                &&& if goes_to_device(actions) {
                    &&& tried.leads(w.device, actions[0]->Submit_0, after.device)
                    &&& asked.submit_answered(
                        actions[0]->Submit_0.seqnum,
                        tried.outcome,
                        after.session,
                        reply,
                    )
                } else {
                    after == (World { session: asked, ..w })
                }
            },
            Deed::Unlink { pdu, actions, asked, landed, reply } => {
                &&& w.session.commanded(pdu, asked, actions)
                &&& if goes_to_device(actions) {
                    &&& after.device == w.device.after_unlink(actions[0]->target)
                    &&& asked.unlink_answered(
                        actions[0]->seqnum,
                        w.device.pending.dom().contains(actions[0]->target) && landed,
                        after.session,
                        reply,
                    )
                } else {
                    after == (World { session: asked, ..w })
                }
            },
            Deed::Arm { address, req, tried } => {
                &&& w.session.prefetch@.wants(address, Some(req))
                &&& tried.leads(w.device, req, after.device)
                &&& after.session.prefetch@ == w.session.prefetch@.after_arming(
                    address,
                    tried.outcome,
                )
            },
            Deed::Reap { urb, status, actual, completion, now, actions } => {
                &&& w.device.reaps(urb, status, actual, completion)
                &&& after.device == w.device.after_reap(urb.seqnum)
                &&& w.session.delivered(completion, now, after.session, actions)
            },
        }
    }

    /// What happens by it.
    pub open spec fn happening(self, w: World) -> Happening {
        match self {
            Deed::Submit { pdu, actions, asked, tried, reply } => Happening::Submit {
                pdu,
                outcome: if goes_to_device(actions) {
                    tried.outcome
                } else {
                    Ok(())
                },
            },
            Deed::Unlink { pdu, actions, asked, landed, reply } => Happening::Unlink(
                pdu.header.body->CmdUnlink_0.unlink_seqnum,
            ),
            Deed::Arm { address, req, tried } => Happening::Armed {
                address,
                outcome: tried.outcome,
            },
            Deed::Reap { urb, status, actual, completion, now, actions } => Happening::Reaped {
                seqnum: urb.seqnum,
                status,
                data: w.session.passes(completion.data@, now),
            },
        }
    }

    /// What it puts on the wire.
    pub open spec fn wire(self) -> Seq<Seq<u8>> {
        match self {
            Deed::Submit { pdu, actions, asked, tried, reply } => if goes_to_device(actions) {
                match reply {
                    Ok(Some(b)) => seq![b@],
                    _ => seq![],
                }
            } else {
                replies(actions)
            },
            Deed::Unlink { pdu, actions, asked, landed, reply } => if goes_to_device(actions) {
                seq![reply]
            } else {
                replies(actions)
            },
            Deed::Arm { address, req, tried } => seq![],
            Deed::Reap { urb, status, actual, completion, now, actions } => replies(actions),
        }
    }

    /// Whether it can be done: what the client may ask, and that the kernel hands back
    /// what was submitted to it.
    pub open spec fn allowed(self, w: World) -> bool {
        match self {
            Deed::Submit { pdu, actions, asked, tried, reply } => w.pump().allows(
                self.happening(w),
            ),
            Deed::Unlink { pdu, actions, asked, landed, reply } => {
                &&& pdu.header.body is CmdUnlink
                &&& w.pump().allows(self.happening(w))
            },
            Deed::Arm { address, req, tried } => true,
            Deed::Reap { urb, status, actual, completion, now, actions } => {
                w.device.pending.dom().contains(urb.seqnum)
            },
        }
    }

    /// Whether it is an unlink that catches the submit `s`.
    pub open spec fn cancels(self, w: World, s: u32) -> bool {
        self is Unlink && self->Unlink_pdu.header.body->CmdUnlink_0.unlink_seqnum == s
            && w.pump().open(s)
    }
}

proof fn lemma_completion(seqnum: u32, ret: RetSubmit, data: Seq<u8>, s: u32)
    ensures
        completes(ret_submit_bytes(seqnum, ret, data), s) == (seqnum == s),
{
    let h = Header::reply(USBIP_RET_SUBMIT, seqnum, Body::RetSubmit(ret));
    let b = ret_submit_bytes(seqnum, ret, data);
    lemma_header_size(h);
    assert(b.take(48) =~= h.bytes());
    lemma_header_reads_back(h, b);
}

proof fn lemma_no_completion(seqnum: u32, status: i32, s: u32)
    ensures
        !completes(ret_unlink_bytes(seqnum, status), s),
{
    let h = Header::reply(USBIP_RET_UNLINK, seqnum, Body::RetUnlink(RetUnlink { status }));
    let b = ret_unlink_bytes(seqnum, status);
    lemma_header_size(h);
    assert(b.take(48) =~= h.bytes());
    lemma_header_reads_back(h, b);
}

proof fn lemma_one_message(b: Seq<u8>, s: u32)
    ensures
        times_completed(seq![b], s) == count(completes(b, s)),
        times_completed(seq![], s) == 0,
{
    assert(seq![b].drop_last() =~= Seq::<Seq<u8>>::empty());
    assert(times_completed(seq![b].drop_last(), s) == 0);
}

/// A request that the device accepted is in flight there, under a seqnum that was free;
/// any other leaves the device as it was.
pub proof fn lemma_a_request_is_in_flight_or_refused(
    before: DeviceState,
    req: UrbRequest,
    tried: Tried,
    after: DeviceState,
)
    requires
        tried.leads(before, req, after),
    ensures
        tried.outcome is Ok ==> {
            &&& !before.pending.dom().contains(req.seqnum)
            &&& after.pending == before.pending.insert(req.seqnum, false)
        },
        tried.outcome is Err ==> after == before,
{
}

/// The first action is a message or none is, and what follows holds none.
proof fn lemma_replies(actions: Seq<Action>)
    requires
        actions.len() <= 3,
        actions.len() > 1 ==> !(actions[1] is Reply),
        actions.len() > 2 ==> !(actions[2] is Reply),
    ensures
        replies(actions) == (if actions.len() > 0 && actions[0] is Reply {
            seq![actions[0]->Reply_0@]
        } else {
            seq![]
        }),
{
    let none = Seq::<Seq<u8>>::empty();
    let first = if actions.len() > 0 && actions[0] is Reply {
        none.push(actions[0]->Reply_0@)
    } else {
        none
    };
    assert(replies(actions.take(0)) =~= none);
    if actions.len() > 0 {
        assert(actions.take(1).drop_last() =~= actions.take(0));
        assert(replies(actions.take(1)) == first);
    }
    if actions.len() > 1 {
        assert(actions.take(2).drop_last() =~= actions.take(1));
        assert(replies(actions.take(2)) == first);
    }
    if actions.len() > 2 {
        assert(actions.take(3).drop_last() =~= actions.take(2));
        assert(replies(actions.take(3)) == first);
    }
    assert(actions.take(actions.len() as int) =~= actions);
    if actions.len() > 0 && actions[0] is Reply {
        assert(first =~= seq![actions[0]->Reply_0@]);
    }
}

/// A submit that is handed to the session, and to the device if it is to go there, is
/// the account's submit, and the completion that is sent for it, if one is, is what
/// settles it.
pub proof fn lemma_a_submit_is_a_step(w: World, deed: Deed, after: World, s: u32)
    requires
        w.wf(),
        deed is Submit,
        deed.allowed(w),
        deed.leads(w, after),
    ensures
        after.pump() == w.pump().step(deed.happening(w)).0,
        times_completed(deed.wire(), s) == count(
            w.pump().step(deed.happening(w)).1 == Some(Settled::Answered(s)),
        ),
        after.wf(),
{
    let h = deed.happening(w);
    let p = w.pump();
    lemma_step_wf(p, h);
    match deed {
        Deed::Submit { pdu, actions, asked, tried, reply } => {
            let seqnum = pdu.header.base.seqnum;
            if prefetched_address(pdu) is Some {
                lemma_place_of(p.buffers.eps, prefetched_address(pdu).unwrap());
            }
            if goes_to_device(actions) {
                lemma_a_request_is_in_flight_or_refused(
                    w.device,
                    actions[0]->Submit_0,
                    tried,
                    after.device,
                );
                if tried.outcome is Ok {
                    assert(after.pump().pending =~= p.pending.insert(seqnum, false));
                    lemma_one_message(seq![], s);
                } else {
                    assert(after.pump().pending =~= p.pending);
                    let b = reply->Ok_0.unwrap()@;
                    let status = match tried.outcome->Err_0 {
                        SubmitError::Handled(e) => e,
                        SubmitError::Urb(e) => e,
                        SubmitError::Fatal(e) => e,
                    };
                    assert(b == empty_reply(seqnum, status));
                    lemma_one_message(b, s);
                    lemma_completion(seqnum, empty_ret(status), Seq::empty(), s);
                }
            } else {
                lemma_replies(actions);
                assert(after.pump().pending =~= p.pending) by {
                    assert(asked.prefetch@.eps.len() == p.buffers.eps.len());
                }
                lemma_one_message(replies(actions)[0], s);
                if actions[0] is Reply {
                    if pdu.header.body->CmdSubmit_0.number_of_packets > 0 {
                        lemma_completion(
                            seqnum,
                            empty_ret((-EOPNOTSUPP) as i32),
                            Seq::empty(),
                            s,
                        );
                    } else {
                        let i = answers_from_buffer(p.buffers, pdu).unwrap();
                        let c = pdu.header.body->CmdSubmit_0;
                        let max = at_least_zero(c.transfer_buffer_length) as usize;
                        let d = cut(p.buffers.eps[i].captured[0], max);
                        lemma_completion(seqnum, full_ret(0, d.len() as usize), d, s);
                    }
                }
            }
            assert(after.pump().buffers.eps =~= p.step(h).0.buffers.eps);
            lemma_out_stays(w.session.prefetch@, after.session.prefetch@);
            assert forall|t: u32| #[trigger] after.session.is_internal(t) implies {
                &&& after.device.pending.dom().contains(t) <==> after.session.prefetch@.is_out(t)
                &&& after.device.pending.dom().contains(t) ==> !after.device.pending[t]
            } by {
                assert(w.session.is_internal(t));
                assert(w.session.prefetch@.is_out(t) <==> after.session.prefetch@.is_out(t));
            }
        },
        _ => {},
    }
}

/// What a submit that moved no data is answered.
pub open spec fn empty_ret(status: i32) -> RetSubmit {
    RetSubmit { status, actual_length: 0, start_frame: 0, number_of_packets: 0, error_count: 0 }
}

/// What a submit that moved so much is answered.
pub open spec fn full_ret(status: i32, actual: usize) -> RetSubmit {
    RetSubmit {
        status,
        actual_length: actual as i32,
        start_frame: 0,
        number_of_packets: 0,
        error_count: 0,
    }
}

/// What is out depends on what the endpoints have in flight, and on nothing else.
proof fn lemma_out_stays(b: Buffers, c: Buffers)
    requires
        b.eps.len() == c.eps.len(),
        forall|i: int|
            0 <= i < b.eps.len() ==> (#[trigger] b.eps[i]).in_flight == c.eps[i].in_flight,
    ensures
        forall|s: u32| #[trigger] b.is_out(s) == c.is_out(s),
{
    assert forall|s: u32| #[trigger] b.is_out(s) == c.is_out(s) by {
        if b.is_out(s) {
            let i = b.out_at(s);
            assert(c.eps[i].in_flight == Some(s));
        }
        if c.is_out(s) {
            let i = c.out_at(s);
            assert(b.eps[i].in_flight == Some(s));
        }
    }
}

/// An unlink that is handed to the session, and to the device if it is to go there, is
/// the account's unlink: it catches a submit that is still on its way, and no completion
/// is sent. It is answered that the submit was cancelled if it waited in the buffers or
/// the kernel could still discard its URB.
pub proof fn lemma_an_unlink_is_a_step(w: World, deed: Deed, after: World, s: u32)
    requires
        w.wf(),
        deed is Unlink,
        deed.allowed(w),
        deed.leads(w, after),
    ensures
        after.pump() == w.pump().step(deed.happening(w)).0,
        times_completed(deed.wire(), s) == 0,
        ({
            let pdu = deed->Unlink_pdu;
            let target = pdu.header.body->CmdUnlink_0.unlink_seqnum;
            &&& w.pump().step(deed.happening(w)).1 == (if w.pump().open(target) {
                Some(Settled::Cancelled(target))
            } else {
                None
            })
            &&& deed.wire() == seq![
                ret_unlink_bytes(
                    pdu.header.base.seqnum,
                    unlink_status(
                        waits(w.pump().buffers.eps, target)
                            || w.pump().pending.dom().contains(target) && deed->landed,
                    ),
                ),
            ]
        }),
        after.wf(),
{
    let h = deed.happening(w);
    let p = w.pump();
    lemma_step_wf(p, h);
    match deed {
        Deed::Unlink { pdu, actions, asked, landed, reply } => {
            let target = pdu.header.body->CmdUnlink_0.unlink_seqnum;
            lemma_waiting_at(p.buffers.eps, target);
            if goes_to_device(actions) {
                assert(after.pump().pending =~= p.step(h).0.pending);
            } else {
                lemma_replies(actions);
                let i = Prefetch::waiting_at(p.buffers.eps, target).unwrap();
                assert(waits_at(p.buffers.eps[i], target));
                assert(after.pump().pending =~= p.pending);
            }
            lemma_one_message(deed.wire()[0], s);
            lemma_no_completion(pdu.header.base.seqnum, unlink_status(true), s);
            lemma_no_completion(pdu.header.base.seqnum, unlink_status(false), s);
            assert(after.pump().buffers.eps =~= p.step(h).0.buffers.eps);
            lemma_out_stays(w.session.prefetch@, after.session.prefetch@);
            assert forall|t: u32| #[trigger] after.session.is_internal(t) implies {
                &&& after.device.pending.dom().contains(t) <==> after.session.prefetch@.is_out(t)
                &&& after.device.pending.dom().contains(t) ==> !after.device.pending[t]
            } by {
                assert(w.session.is_internal(t));
                assert(w.session.prefetch@.is_out(t) <==> after.session.prefetch@.is_out(t));
            }
        },
        _ => {},
    }
}

/// Submitting the URB that an endpoint wanted is the account's arming: what the device
/// accepts was not out, and the client sees nothing of it.
pub proof fn lemma_arming_is_a_step(w: World, deed: Deed, after: World, s: u32)
    requires
        w.wf(),
        deed is Arm,
        deed.leads(w, after),
    ensures
        w.pump().allows(deed.happening(w)),
        after.pump() == w.pump().step(deed.happening(w)).0,
        w.pump().step(deed.happening(w)).1 is None,
        times_completed(deed.wire(), s) == 0,
        after.wf(),
{
    let h = deed.happening(w);
    let p = w.pump();
    match deed {
        Deed::Arm { address, req, tried } => {
            lemma_a_request_is_in_flight_or_refused(w.device, req, tried, after.device);
            lemma_place_of(p.buffers.eps, address);
            let i = place_of(p.buffers.eps, address).unwrap();
            let next = p.buffers.next;
            assert(w.session.is_internal(next));
            assert(p.allows(h));
            lemma_step_wf(p, h);
            assert(after.pump().pending =~= p.pending);
            lemma_one_message(seq![], s);
            let b = w.session.prefetch@;
            let c = after.session.prefetch@;
            assert forall|t: u32| #[trigger] after.session.is_internal(t) implies {
                &&& after.device.pending.dom().contains(t) <==> c.is_out(t)
                &&& after.device.pending.dom().contains(t) ==> !after.device.pending[t]
            } by {
                assert(w.session.is_internal(t));
                if tried.outcome is Ok {
                    assert(c.eps[i].in_flight == Some(next));
                }
                if c.is_out(t) && !(tried.outcome is Ok && t == next) {
                    let k = c.out_at(t);
                    assert(b.eps[k].in_flight == Some(t));
                }
                if b.is_out(t) {
                    let k = b.out_at(t);
                    assert(c.eps[k].in_flight == Some(t));
                }
            }
        },
        _ => {},
    }
}

/// A URB that is reaped from the device and handed to the session is the account's
/// reaping, with what is left of the report once the chord is taken out; the completion
/// that is sent, if one is, is what it settles.
pub proof fn lemma_a_reap_is_a_step(w: World, deed: Deed, after: World, s: u32)
    requires
        w.wf(),
        deed is Reap,
        deed.allowed(w),
        deed.leads(w, after),
    ensures
        w.pump().allows(deed.happening(w)),
        after.pump() == w.pump().step(deed.happening(w)).0,
        times_completed(deed.wire(), s) == count(
            w.pump().step(deed.happening(w)).1 == Some(Settled::Answered(s)),
        ),
        after.wf(),
{
    let h = deed.happening(w);
    let p = w.pump();
    match deed {
        Deed::Reap { urb, status, actual, completion, now, actions } => {
            let seqnum = urb.seqnum;
            let data = w.session.passes(completion.data@, now);
            let tail = Session::suspension(w.session.verdict_on(completion.data@, now));
            let b = w.session.prefetch@;
            let c = after.session.prefetch@;
            assert(w.session.is_internal(seqnum) == p.is_internal(seqnum));
            assert(p.allows(h));
            lemma_step_wf(p, h);
            assert(after.pump().pending =~= p.step(h).0.pending);
            if !completion.unlinked {
                assert forall|k: int| 0 <= k < tail.len() implies tail[k] == Action::Suspend by {}
                let n = actions.len() - tail.len();
                assert forall|k: int| n <= k < actions.len() implies actions[k]
                    == Action::Suspend by {
                    assert(actions.skip(n)[k - n] == actions[k]);
                }
            }
            lemma_replies(actions);
            lemma_one_message(deed.wire()[0], s);
            if !completion.unlinked {
                if w.session.is_internal(seqnum) {
                    let e = b.eps[b.out_at(seqnum)];
                    match e.owed(status, data) {
                        Some((to, st, d)) => {
                            lemma_completion(to, full_ret(st, d.len() as usize), d, s);
                        },
                        None => {},
                    }
                } else {
                    let sent: usize = if w.session.verdict_on(completion.data@, now).swallow {
                        0
                    } else {
                        completion.actual_length
                    };
                    lemma_completion(seqnum, full_ret(status, sent), data, s);
                }
            }
            assert forall|t: u32| #[trigger] after.session.is_internal(t) implies {
                &&& after.device.pending.dom().contains(t) <==> c.is_out(t)
                &&& after.device.pending.dom().contains(t) ==> !after.device.pending[t]
            } by {
                assert(w.session.is_internal(t));
                if w.session.is_internal(seqnum) {
                    let i = b.out_at(seqnum);
                    assert(b.eps[i].in_flight == Some(seqnum));
                    if c.is_out(t) {
                        let k = c.out_at(t);
                        assert(k != i);
                        assert(b.eps[k].in_flight == Some(t));
                        if t == seqnum {
                            if k < i {
                                assert(b.eps[k].in_flight != b.eps[i].in_flight);
                            } else {
                                assert(b.eps[i].in_flight != b.eps[k].in_flight);
                            }
                        }
                    }
                    if b.is_out(t) && t != seqnum {
                        let k = b.out_at(t);
                        assert(c.eps[k].in_flight == Some(t));
                    }
                }
            }
        },
        _ => {},
    }
}

/// Whether the deeds can be done one after another, and lead through these worlds.
pub open spec fn runs(worlds: Seq<World>, deeds: Seq<Deed>) -> bool {
    &&& worlds.len() == deeds.len() + 1
    &&& forall|k: int|
        0 <= k < deeds.len() ==> (#[trigger] deeds[k]).allowed(worlds[k]) && deeds[k].leads(
            worlds[k],
            worlds[k + 1],
        )
}

/// What all the deeds put on the wire.
pub open spec fn all_sent(deeds: Seq<Deed>) -> Seq<Seq<u8>>
    decreases deeds.len(),
{
    if deeds.len() == 0 {
        seq![]
    } else {
        all_sent(deeds.drop_last()) + deeds.last().wire()
    }
}

/// How many of the deeds handed in the submit `s`.
pub open spec fn times_handed_in(deeds: Seq<Deed>, s: u32) -> int
    decreases deeds.len(),
{
    if deeds.len() == 0 {
        0
    } else {
        times_handed_in(deeds.drop_last(), s) + count(
            deeds.last() is Submit && deeds.last()->Submit_pdu.header.base.seqnum == s,
        )
    }
}

/// How many of the deeds caught the submit `s` on its way.
pub open spec fn times_cancelled(worlds: Seq<World>, deeds: Seq<Deed>, s: u32) -> int
    decreases deeds.len(),
{
    if deeds.len() == 0 {
        0
    } else {
        times_cancelled(worlds.drop_last(), deeds.drop_last(), s) + count(
            deeds.last().cancels(worlds[deeds.len() - 1], s),
        )
    }
}

proof fn lemma_times_completed(a: Seq<Seq<u8>>, b: Seq<Seq<u8>>, s: u32)
    ensures
        times_completed(a + b, s) == times_completed(a, s) + times_completed(b, s),
    decreases b.len(),
{
    if b.len() == 0 {
        assert(a + b =~= a);
    } else {
        lemma_times_completed(a, b.drop_last(), s);
        assert((a + b).drop_last() =~= a + b.drop_last());
    }
}

/// Nothing is lost and nothing is answered twice: over a whole session with its device,
/// a submit gets one completion on the wire for each time that it was handed in, unless
/// an unlink caught it or it is still on its way.
pub proof fn lemma_every_submit_is_completed_once(worlds: Seq<World>, deeds: Seq<Deed>, s: u32)
    requires
        runs(worlds, deeds),
        worlds[0].wf(),
        !worlds[0].pump().open(s),
    ensures
        worlds.last().wf(),
        times_handed_in(deeds, s) == times_completed(all_sent(deeds), s) + times_cancelled(
            worlds,
            deeds,
            s,
        ) + count(worlds.last().pump().open(s)),
    decreases deeds.len(),
{
    if deeds.len() > 0 {
        let ws = worlds.drop_last();
        let ds = deeds.drop_last();
        assert forall|k: int| 0 <= k < ds.len() implies (#[trigger] ds[k]).allowed(ws[k])
            && ds[k].leads(ws[k], ws[k + 1]) by {
            assert(ds[k] == deeds[k]);
        }
        lemma_every_submit_is_completed_once(ws, ds, s);
        let w = ws.last();
        let deed = deeds.last();
        assert(deeds[deeds.len() - 1] == deed);
        assert(worlds[deeds.len() - 1] == w);
        let after = worlds.last();
        match deed {
            Deed::Submit { .. } => lemma_a_submit_is_a_step(w, deed, after, s),
            Deed::Unlink { .. } => lemma_an_unlink_is_a_step(w, deed, after, s),
            Deed::Arm { .. } => lemma_arming_is_a_step(w, deed, after, s),
            Deed::Reap { .. } => lemma_a_reap_is_a_step(w, deed, after, s),
        }
        lemma_a_step_keeps_the_account(w.pump(), deed.happening(w), s);
        lemma_times_completed(all_sent(ds), deed.wire(), s);
    }
}

proof fn lemma_endpoints_are_fresh(list: Seq<(u8, u16)>)
    ensures
        forall|i: int|
            0 <= i < endpoints_of(list).len() ==> (#[trigger] endpoints_of(list)[i]).in_flight
                is None && endpoints_of(list)[i].waiting is None,
    decreases list.len(),
{
    if list.len() > 0 {
        lemma_endpoints_are_fresh(list.drop_last());
        lemma_place_of(endpoints_of(list.drop_last()), list.last().0);
    }
}

/// A session that has just begun, on a device with no URB in flight, is where such a
/// run can start: nothing is on its way.
pub proof fn lemma_a_session_begins_in_order(w: World, list: Seq<(u8, u16)>, s: u32)
    requires
        w.session.wf(),
        w.session.prefetch@.eps == endpoints_of(list) || w.session.prefetch@.eps.len() == 0,
        w.device.pending == Map::<u32, bool>::empty(),
    ensures
        w.wf(),
        !w.pump().open(s),
{
    lemma_endpoints_are_fresh(list);
    let b = w.session.prefetch@;
    assert forall|t: u32| #[trigger] w.session.is_internal(t) implies !b.is_out(t) by {
        if b.is_out(t) {
            assert(b.eps[b.out_at(t)].in_flight is Some);
        }
    }
}

} // verus!
