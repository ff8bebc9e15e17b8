//! Keeping an interrupt IN URB queued on the device at all times.
//!
//! Without this, the exporter only submits a URB when a `USBIP_CMD_SUBMIT`
//! arrives, so for a whole round trip *no URB is queued on the controller at
//! all* and every report it generates in that window is dropped by the
//! exporting kernel. A button press therefore waits, on average, half a round
//! trip for the next submit to show up and another half to travel back.
//!
//! With a URB always queued, the press is captured the moment it happens and
//! leaves on the next submit. The rate is still capped at one report per round
//! trip, but each report is about half as old by the time it lands.
//!
//! This is a deliberate change of meaning, which is why it is behind a flag.
//! Faithful forwarding submits what the client asked for, when it asked.
//! Prefetching answers with input that was captured *before* the request
//! arrived. For a HID gamepad that is exactly right. For a device where each
//! transfer has to be requested to happen, it would be wrong.
//!
//! The URBs are submitted by whoever holds the device: [`Prefetch::wanted`] says
//! what to submit next and [`Prefetch::armed`] takes in how that went. A URB stays
//! queued even with the buffer full, and a client submit re-arms an endpoint that a
//! refused submit left idle; otherwise a streaming controller would freeze the
//! forward within one round trip.
use crate::backend::{SubmitError, UrbRequest};
use crate::proto::pdu::Direction;
use std::collections::VecDeque;
use vstd::prelude::*;

verus! {

broadcast use vstd::array::group_array_axioms;

/// Internal URBs get seqnums from here up, so they cannot collide with the
/// client's. `vhci` numbers its own from 1 and increments, and a session that
/// reached 2^31 submits would have been running for years at any plausible
/// rate.
pub const INTERNAL_BASE: u32 = 0x8000_0000;

/// How many captured reports to hold per endpoint before dropping.
///
/// Not 1: two reports can easily arrive within one round trip — a quick tap is
/// a press and a release — and keeping only the newest would swallow the press
/// entirely, turning a real input into nothing. Not large either: anything
/// still queued is latency, so on overflow the *oldest* goes, which bounds how
/// far behind the controller's true state a reply can be while still letting
/// brief edges through.
pub const DEPTH: usize = 4;

/// Give up on an endpoint after this many consecutive failed prefetches and
/// fall back to pass-through, rather than spinning on a device that is
/// refusing.
pub const MAX_CONSECUTIVE_ERRORS: u32 = 8;

#[derive(Debug, Clone, PartialEq, Eq)]
pub enum Take {
    /// A captured report is ready; answer the client with it now.
    Ready(Vec<u8>),
    /// Nothing captured yet. The client's seqnum is registered and will be
    /// answered when the next report lands.
    Waiting,
    /// Not a prefetched endpoint. Submit it the ordinary way.
    PassThrough,
}

/// What the reaper should do with an internal completion.
#[derive(Debug, Clone, PartialEq, Eq)]
pub struct Delivery {
    /// A client was waiting: answer this seqnum with this status and data.
    pub reply: Option<(u32, i32, Vec<u8>)>,
    /// The endpoint to arm again.
    pub rearm: Option<u8>,
}

/// A client submit that arrived with nothing captured.
#[derive(Debug, Clone, Copy, PartialEq, Eq, Structural)]
pub struct Waiter {
    pub seqnum: u32,
    pub max_len: usize,
}

struct Endpoint {
    /// Endpoint address, direction bit included.
    address: u8,
    /// Endpoint number without the direction bit, as a submit wants it.
    number: u8,
    max_packet: usize,
    /// Seqnum of the internal URB in flight, if any.
    in_flight: Option<u32>,
    captured: VecDeque<Vec<u8>>,
    waiting: Option<Waiter>,
    errors: u32,
    /// Set once this endpoint has given up; it then behaves as pass-through.
    disabled: bool,
}

/// An endpoint as contracts speak of it.
pub struct Ep {
    pub address: u8,
    pub number: u8,
    pub max_packet: usize,
    pub in_flight: Option<u32>,
    pub captured: Seq<Seq<u8>>,
    pub waiting: Option<Waiter>,
    pub errors: u32,
    pub disabled: bool,
}

impl View for Endpoint {
    type V = Ep;

    closed spec fn view(&self) -> Ep {
        Ep {
            address: self.address,
            number: self.number,
            max_packet: self.max_packet,
            in_flight: self.in_flight,
            captured: self.captured@.map_values(|r: Vec<u8>| r@),
            waiting: self.waiting,
            errors: self.errors,
            disabled: self.disabled,
        }
    }
}

/// The first `n` bytes, or all if there are fewer.
pub open spec fn cut(data: Seq<u8>, n: usize) -> Seq<u8> {
    if data.len() <= n {
        data
    } else {
        data.take(n as int)
    }
}

impl Ep {
    /// An endpoint on which nothing has happened yet.
    pub open spec fn fresh(address: u8, max_packet: u16) -> Ep {
        Ep {
            address,
            number: (address % 0x10) as u8,
            max_packet: max_packet as usize,
            in_flight: None,
            captured: Seq::empty(),
            waiting: None,
            errors: 0,
            disabled: false,
        }
    }

    pub open spec fn wf(self) -> bool {
        &&& self.number == self.address % 0x10
        &&& self.captured.len() <= DEPTH
        &&& self.errors <= MAX_CONSECUTIVE_ERRORS
        &&& self.errors < MAX_CONSECUTIVE_ERRORS || self.disabled
        &&& self.in_flight matches Some(s) ==> s >= INTERNAL_BASE && !self.disabled
    }

    /// Whether a URB is to be submitted. Whether the buffer is full has no say.
    pub open spec fn is_idle(self) -> bool {
        !self.disabled && self.in_flight is None
    }

    /// The endpoint after a client submit that found it in use.
    pub open spec fn after_take(self, seqnum: u32, max_len: usize) -> Ep {
        if self.captured.len() > 0 {
            Ep { captured: self.captured.drop_first(), ..self }
        } else {
            Ep { waiting: Some(Waiter { seqnum, max_len }), ..self }
        }
    }

    /// One failure more; too many in a row end the prefetching.
    pub open spec fn after_failure(self) -> Ep {
        Ep {
            errors: (self.errors + 1) as u32,
            disabled: self.disabled || self.errors + 1 >= MAX_CONSECUTIVE_ERRORS,
            ..self
        }
    }

    /// The endpoint after its URB completed with `status` and `data`. A report goes
    /// to the client that waits for one, else into the buffer, from which the oldest
    /// is dropped if it is full. An error goes to the client that waits.
    pub open spec fn after_completion(self, status: i32, data: Seq<u8>) -> Ep {
        let e = Ep { in_flight: None, ..self };
        if status != 0 {
            let f = Ep { waiting: None, ..e }.after_failure();
            if f.errors >= MAX_CONSECUTIVE_ERRORS {
                Ep { captured: Seq::empty(), ..f }
            } else {
                f
            }
        } else if self.waiting is Some {
            Ep { errors: 0, waiting: None, ..e }
        } else {
            Ep {
                errors: 0,
                captured: if self.captured.len() == DEPTH {
                    self.captured.drop_first().push(data)
                } else {
                    self.captured.push(data)
                },
                ..e
            }
        }
    }

    /// What the client that waits is owed for that completion.
    pub open spec fn owed(self, status: i32, data: Seq<u8>) -> Option<(u32, i32, Seq<u8>)> {
        match self.waiting {
            None => None,
            Some(w) => if status != 0 {
                Some((w.seqnum, status, Seq::empty()))
            } else {
                Some((w.seqnum, 0, cut(data, w.max_len)))
            },
        }
    }

    /// The endpoint after submitting a URB for it with this seqnum ended so.
    pub open spec fn after_submit(self, seqnum: u32, outcome: Result<(), SubmitError>) -> Ep {
        match outcome {
            Ok(_) => Ep { in_flight: Some(seqnum), ..self },
            Err(SubmitError::Urb(_)) => self.after_failure(),
            Err(SubmitError::Handled(_)) => self,
            Err(SubmitError::Fatal(_)) => Ep { disabled: true, ..self },
        }
    }
}

/// The buffers of one session.
pub struct Prefetch {
    eps: Vec<Endpoint>,
    next_seqnum: u32,
}

/// The same, as contracts speak of it.
pub struct Buffers {
    pub eps: Seq<Ep>,
    pub next: u32,
}

impl View for Prefetch {
    type V = Buffers;

    closed spec fn view(&self) -> Buffers {
        Buffers { eps: self.eps@.map_values(|e: Endpoint| e@), next: self.next_seqnum }
    }
}

/// The place of the endpoint with that address.
pub open spec fn place_of(eps: Seq<Ep>, address: u8) -> Option<int>
    decreases eps.len(),
{
    if eps.len() == 0 {
        None
    } else if eps.last().address == address {
        Some(eps.len() - 1)
    } else {
        place_of(eps.drop_last(), address)
    }
}

/// The endpoints that a list of addresses and packet sizes gives. Of an address
/// that occurs more than once the last entry holds.
pub open spec fn endpoints_of(list: Seq<(u8, u16)>) -> Seq<Ep>
    decreases list.len(),
{
    if list.len() == 0 {
        seq![]
    } else {
        let rest = endpoints_of(list.drop_last());
        let (address, max_packet) = list.last();
        match place_of(rest, address) {
            Some(i) => rest.update(i, Ep::fresh(address, max_packet)),
            None => rest.push(Ep::fresh(address, max_packet)),
        }
    }
}

/// The seqnum that is used after `s`.
pub open spec fn next_internal(s: u32) -> u32 {
    if s == u32::MAX {
        INTERNAL_BASE
    } else {
        (s + 1) as u32
    }
}

impl Buffers {
    pub open spec fn wf(self) -> bool {
        &&& self.next >= INTERNAL_BASE
        &&& forall|i: int| 0 <= i < self.eps.len() ==> (#[trigger] self.eps[i]).wf()
        &&& forall|i: int, j: int|
            0 <= i < j < self.eps.len() ==> (#[trigger] self.eps[i]).address != (
            #[trigger] self.eps[j]).address
        &&& forall|i: int, j: int|
            0 <= i < j < self.eps.len() ==> ((#[trigger] self.eps[i]).in_flight is Some ==> (
            #[trigger] self.eps[j]).in_flight != self.eps[i].in_flight)
    }

    /// Whether an internal URB with that seqnum is out.
    pub open spec fn is_out(self, seqnum: u32) -> bool {
        exists|i: int| 0 <= i < self.eps.len() && (#[trigger] self.eps[i]).in_flight == Some(seqnum)
    }

    /// The same with another endpoint in place `i`.
    pub open spec fn with_ep(self, i: int, e: Ep) -> Buffers {
        Buffers { eps: self.eps.update(i, e), ..self }
    }

    /// The buffers after submitting the URB that an endpoint wanted ended so.
    pub open spec fn after_arming(self, address: u8, outcome: Result<(), SubmitError>) -> Buffers {
        let i = place_of(self.eps, address).unwrap();
        Buffers {
            eps: self.eps.update(i, self.eps[i].after_submit(self.next, outcome)),
            next: if outcome is Ok {
                next_internal(self.next)
            } else {
                self.next
            },
        }
    }

    /// Whether `r` is the URB that is to be submitted for an endpoint, if it wants one.
    pub open spec fn wants(self, address: u8, r: Option<UrbRequest>) -> bool {
        match place_of(self.eps, address) {
            Some(i) if self.eps[i].is_idle() => r is Some && Prefetch::asks_for_report(
                r.unwrap(),
                self.eps[i],
                self.next,
            ),
            _ => r is None,
        }
    }

    /// The endpoint whose URB has that seqnum.
    pub open spec fn out_at(self, seqnum: u32) -> int {
        choose|i: int| 0 <= i < self.eps.len() && (#[trigger] self.eps[i]).in_flight == Some(seqnum)
    }
}

pub proof fn lemma_place_of(eps: Seq<Ep>, address: u8)
    ensures
        match place_of(eps, address) {
            Some(i) => 0 <= i < eps.len() && eps[i].address == address,
            None => forall|i: int| 0 <= i < eps.len() ==> (#[trigger] eps[i]).address != address,
        },
    decreases eps.len(),
{
    if eps.len() > 0 && eps.last().address != address {
        lemma_place_of(eps.drop_last(), address);
        if place_of(eps, address) is None {
            assert forall|i: int| 0 <= i < eps.len() implies (#[trigger] eps[i]).address
                != address by {
                if i < eps.len() - 1 {
                    assert(eps.drop_last()[i] == eps[i]);
                }
            }
        }
    }
}

/// What the reports of a buffer hold.
spec fn held(v: Seq<Vec<u8>>) -> Seq<Seq<u8>> {
    v.map_values(|r: Vec<u8>| r@)
}

impl Prefetch {
    /// What every operation keeps: the buffers are no deeper than they may be, no
    /// address occurs twice, and no two URBs in flight share a seqnum.
    pub open spec fn wf(&self) -> bool {
        self@.wf()
    }

    /// Disabled: every endpoint is pass-through and no internal URBs exist.
    pub fn disabled() -> (p: Prefetch)
        ensures
            p.wf(),
            p@ == (Buffers { eps: Seq::empty(), next: INTERNAL_BASE }),
    {
        let p = Prefetch { eps: Vec::new(), next_seqnum: INTERNAL_BASE };
        assert(p@.eps =~= Seq::empty());
        p
    }

    /// `endpoints` are the interrupt IN endpoints of the device, by address and
    /// packet size. Without any, prefetching stays disabled.
    pub fn new(endpoints: &Vec<(u8, u16)>, enabled: bool) -> (p: Prefetch)
        ensures
            p.wf(),
            p@ == (Buffers {
                eps: if enabled {
                    endpoints_of(endpoints@)
                } else {
                    Seq::empty()
                },
                next: INTERNAL_BASE,
            }),
    {
        let mut p = Prefetch::disabled();
        if !enabled {
            return p;
        }
        let mut i: usize = 0;
        assert(endpoints@.take(0) =~= Seq::empty());
        while i < endpoints.len()
            invariant
                i <= endpoints@.len(),
                p.wf(),
                p@.next == INTERNAL_BASE,
                p@.eps == endpoints_of(endpoints@.take(i as int)),
                forall|k: int| 0 <= k < p@.eps.len() ==> (#[trigger] p@.eps[k]).in_flight is None,
            decreases endpoints@.len() - i,
        {
            let (address, max_packet) = endpoints[i];
            let ghost had = p@.eps;
            assert(address & 0x0f == address % 0x10) by (bit_vector);
            let e = Endpoint {
                address,
                number: address & 0x0f,
                max_packet: max_packet as usize,
                in_flight: None,
                captured: VecDeque::new(),
                waiting: None,
                errors: 0,
                disabled: false,
            };
            assert(e@.captured =~= Seq::empty());
            assert(e@ == Ep::fresh(address, max_packet));
            let at: usize = p.place(address);
            proof {
                lemma_place_of(had, address);
                assert(endpoints@.take(i + 1).drop_last() =~= endpoints@.take(i as int));
                assert(endpoints@.take(i + 1).last() == endpoints@[i as int]);
            }
            if at < p.eps.len() {
                p.eps[at] = e;
                assert(p@.eps =~= had.update(at as int, e@));
            } else {
                p.eps.push(e);
                assert(p@.eps =~= had.push(e@));
            }
            i = i + 1;
        }
        assert(endpoints@.take(i as int) =~= endpoints@);
        p
    }

    fn place(&self, address: u8) -> (at: usize)
        ensures
            match place_of(self@.eps, address) {
                Some(i) => at == i && at < self.eps@.len(),
                None => at == self.eps@.len(),
            },
            self.eps@.len() == self@.eps.len(),
    {
        let ghost all = self@.eps;
        let mut i: usize = self.eps.len();
        assert(all.take(i as int) =~= all);
        while i > 0
            invariant
                i <= self.eps@.len(),
                all == self@.eps,
                place_of(all, address) == place_of(all.take(i as int), address),
            decreases i,
        {
            assert(all.take(i as int).drop_last() =~= all.take(i - 1));
            assert(all.take(i as int).last() == self.eps@[i - 1]@);
            if self.eps[i - 1].address == address {
                return i - 1;
            }
            i = i - 1;
        }
        self.eps.len()
    }

    pub fn is_enabled(&self) -> (r: bool)
        ensures
            r == (self@.eps.len() > 0),
    {
        self.eps.len() > 0
    }

    /// True for seqnums this module issued, so the reaper can tell an internal
    /// completion from one the client is waiting on.
    pub fn owns(seqnum: u32) -> (r: bool)
        ensures
            r == (seqnum >= INTERNAL_BASE),
    {
        seqnum >= INTERNAL_BASE
    }

    /// The addresses of the endpoints that want a URB, in order.
    pub open spec fn idle(eps: Seq<Ep>) -> Seq<u8>
        decreases eps.len(),
    {
        if eps.len() == 0 {
            seq![]
        } else if eps.last().is_idle() {
            Prefetch::idle(eps.drop_last()).push(eps.last().address)
        } else {
            Prefetch::idle(eps.drop_last())
        }
    }

    /// Every endpoint that has no URB in flight and has not given up: the ones to
    /// arm.
    pub fn arm(&self) -> (v: Vec<u8>)
        ensures
            v@ == Prefetch::idle(self@.eps),
    {
        let ghost all = self@.eps;
        let mut v: Vec<u8> = Vec::new();
        let mut i: usize = 0;
        assert(all.take(0) =~= Seq::empty());
        while i < self.eps.len()
            invariant
                i <= self.eps@.len(),
                all == self@.eps,
                v@ == Prefetch::idle(all.take(i as int)),
            decreases self.eps@.len() - i,
        {
            let e = &self.eps[i];
            proof {
                assert(all.take(i + 1).drop_last() =~= all.take(i as int));
                assert(all.take(i + 1).last() == e@);
            }
            if !e.disabled && e.in_flight.is_none() {
                v.push(e.address);
            }
            i = i + 1;
        }
        assert(all.take(i as int) =~= all);
        v
    }

    /// Whether `req` is the URB that keeps an endpoint armed.
    pub open spec fn asks_for_report(req: UrbRequest, e: Ep, seqnum: u32) -> bool {
        &&& req.seqnum == seqnum
        &&& req.ep == e.number
        &&& req.dir is In
        &&& req.transfer_flags == 0
        &&& req.setup@ == Seq::new(8, |i: int| 0u8)
        &&& req.buffer_length == e.max_packet
        &&& req.data@.len() == 0
    }

    /// The URB to submit for an endpoint, if it wants one. How that went has to be
    /// told to [`Prefetch::armed`].
    pub fn wanted(&self, address: u8) -> (r: Option<UrbRequest>)
        ensures
            self@.wants(address, r),
    {
        let at: usize = self.place(address);
        if at == self.eps.len() {
            return None;
        }
        let e = &self.eps[at];
        if e.disabled || e.in_flight.is_some() {
            return None;
        }
        let setup: [u8; 8] = [0u8;8];
        assert(setup@ =~= Seq::new(8, |i: int| 0u8));
        Some(
            UrbRequest {
                seqnum: self.next_seqnum,
                ep: e.number,
                dir: Direction::In,
                transfer_flags: 0,
                setup,
                buffer_length: e.max_packet,
                data: Vec::new(),
            },
        )
    }

    /// Takes in how submitting the URB that an endpoint wanted ended. A URB that was
    /// accepted has a seqnum that is not out already: the device refuses others.
    pub fn armed(&mut self, address: u8, outcome: Result<(), SubmitError>)
        requires
            old(self).wf(),
            place_of(old(self)@.eps, address) matches Some(i) && old(self)@.eps[i].is_idle(),
            outcome is Ok ==> !old(self)@.is_out(old(self)@.next),
        ensures
            final(self).wf(),
            final(self)@ == old(self)@.after_arming(address, outcome),
    {
        let at: usize = self.place(address);
        proof {
            lemma_place_of(self@.eps, address);
        }
        let ghost had = self@.eps;
        let ghost e = had[at as int];
        assert(e.wf());
        let mut ep = self.eps.remove(at);
        assert(ep@ == e);
        match outcome {
            Ok(()) => {
                ep.in_flight = Some(self.next_seqnum);
                self.next_seqnum =
                if self.next_seqnum == u32::MAX {
                    INTERNAL_BASE
                } else {
                    self.next_seqnum + 1
                };
            },
            Err(SubmitError::Urb(_)) => {
                ep.errors = ep.errors + 1;
                if ep.errors >= MAX_CONSECUTIVE_ERRORS {
                    ep.disabled = true;
                }
            },
            Err(SubmitError::Handled(_)) => {},
            Err(SubmitError::Fatal(_)) => {
                ep.disabled = true;
            },
        }
        let ghost f = ep@;
        assert(f.captured =~= e.captured);
        assert(f == e.after_submit(old(self)@.next, outcome));
        self.eps.insert(at, ep);
        assert(self@.eps =~= had.update(at as int, f));
        proof {
            if outcome is Ok {
                assert forall|i: int| 0 <= i < had.len() implies (#[trigger] had[i]).in_flight
                    != Some(old(self)@.next) by {}
            }
        }
    }

    /// A client submit arrived. Either hand back a captured report, register
    /// the client as waiting, or say this endpoint is not ours. In the first two
    /// cases the endpoint is to be armed if it is idle.
    pub fn take(&mut self, address: u8, seqnum: u32, max_len: usize) -> (t: Take)
        requires
            old(self).wf(),
        ensures
            final(self).wf(),
            match place_of(old(self)@.eps, address) {
                Some(i) if !old(self)@.eps[i].disabled => {
                    let e = old(self)@.eps[i];
                    &&& final(self)@ == old(self)@.with_ep(i, e.after_take(seqnum, max_len))
                    &&& if e.captured.len() > 0 {
                        t matches Take::Ready(d) && d@ == cut(e.captured[0], max_len)
                    } else {
                        // Only one client submit can be outstanding per endpoint,
                        // because usbhid keeps exactly one URB in flight. If a second
                        // arrives, the first is stale by definition.
                        t == Take::Waiting
                    }
                },
                _ => t == Take::PassThrough && final(self)@ == old(self)@,
            },
    {
        let at: usize = self.place(address);
        if at == self.eps.len() || self.eps[at].disabled {
            return Take::PassThrough;
        }
        proof {
            lemma_place_of(self@.eps, address);
        }
        let ghost had = self@.eps;
        let ghost e = had[at as int];
        assert(e.wf());
        let mut ep = self.eps.remove(at);
        assert(ep@ == e);
        let t = match ep.captured.pop_front() {
            Some(data) => {
                assert(ep@.captured =~= e.captured.drop_first());
                let mut data = data;
                assert(data@ == e.captured[0]);
                let ghost was = data@;
                data.truncate(max_len);
                assert(data@ =~= cut(was, max_len));
                Take::Ready(data)
            },
            None => {
                ep.waiting = Some(Waiter { seqnum, max_len });
                assert(ep@.captured =~= e.captured);
                Take::Waiting
            },
        };
        assert(ep@ == e.after_take(seqnum, max_len));
        let ghost f = ep@;
        self.eps.insert(at, ep);
        assert(self@.eps =~= had.update(at as int, f));
        t
    }

    fn find_out(&self, seqnum: u32) -> (at: usize)
        requires
            self.wf(),
        ensures
            self.eps@.len() == self@.eps.len(),
            self@.is_out(seqnum) ==> at < self.eps@.len() && at == self@.out_at(seqnum)
                && self@.eps[at as int].in_flight == Some(seqnum),
            !self@.is_out(seqnum) ==> at == self.eps@.len(),
    {
        let mut i: usize = 0;
        while i < self.eps.len()
            invariant
                i <= self.eps@.len(),
                self.wf(),
                self.eps@.len() == self@.eps.len(),
                forall|j: int| 0 <= j < i ==> (#[trigger] self@.eps[j]).in_flight != Some(seqnum),
            decreases self.eps@.len() - i,
        {
            assert(self@.eps[i as int] == self.eps@[i as int]@);
            match self.eps[i].in_flight {
                Some(s) => {
                    if s == seqnum {
                        proof {
                            assert(self@.eps[i as int].in_flight == Some(seqnum));
                            let k = self@.out_at(seqnum);
                            if k < i {
                                assert(self@.eps[k].in_flight == Some(seqnum));
                            } else if i < k {
                                assert(self@.eps[i as int].in_flight != self@.eps[k].in_flight);
                            }
                        }
                        return i;
                    }
                },
                None => {},
            }
            i = i + 1;
        }
        i
    }

    /// An internal URB completed. Returns what the reaper owes the client, if
    /// anything, and which endpoint is to be armed again.
    pub fn deliver(&mut self, seqnum: u32, status: i32, data: Vec<u8>) -> (d: Delivery)
        requires
            old(self).wf(),
        ensures
            final(self).wf(),
            if old(self)@.is_out(seqnum) {
                let i = old(self)@.out_at(seqnum);
                let e = old(self)@.eps[i];
                &&& final(self)@ == old(self)@.with_ep(i, e.after_completion(status, data@))
                &&& d.rearm == Some(e.address)
                &&& match e.owed(status, data@) {
                    None => d.reply is None,
                    Some((s, st, b)) => d.reply is Some && d.reply.unwrap().0 == s
                        && d.reply.unwrap().1 == st && d.reply.unwrap().2@ == b,
                }
            } else {
                final(self)@ == old(self)@ && d.reply is None && d.rearm is None
            },
    {
        let at: usize = self.find_out(seqnum);
        if at == self.eps.len() {
            return Delivery { reply: None, rearm: None };
        }
        let ghost had = self@.eps;
        let ghost e = had[at as int];
        assert(e.wf());
        let ghost bytes = data@;
        let mut ep = self.eps.remove(at);
        assert(ep@ == e);
        assert(e.captured == held(ep.captured@));
        let address: u8 = ep.address;
        let mut reply: Option<(u32, i32, Vec<u8>)> = None;
        let waiting = ep.waiting;
        ep.in_flight = None;
        ep.waiting = None;
        if status != 0 {
            ep.errors = ep.errors + 1;
            // Hand the error on if someone is waiting: it is a real URB
            // outcome and the client's own submit would have seen it too.
            match waiting {
                Some(w) => {
                    let none: Vec<u8> = Vec::new();
                    assert(none@ =~= Seq::<u8>::empty());
                    reply = Some((w.seqnum, status, none));
                },
                None => {},
            }
            if ep.errors >= MAX_CONSECUTIVE_ERRORS {
                ep.disabled = true;
                ep.captured.clear();
                assert(ep@.captured =~= Seq::empty());
            } else {
                assert(ep@.captured =~= e.captured);
            }
        } else {
            ep.errors = 0;
            match waiting {
                Some(w) => {
                    let mut d = data;
                    d.truncate(w.max_len);
                    assert(d@ =~= cut(bytes, w.max_len));
                    reply = Some((w.seqnum, 0, d));
                    assert(ep@.captured =~= e.captured);
                },
                None => {
                    if ep.captured.len() == DEPTH {
                        let _ = ep.captured.pop_front();
                    }
                    let ghost kept = held(ep.captured@);
                    ep.captured.push_back(data);
                    assert(held(ep.captured@) =~= kept.push(bytes));
                    assert(ep@.captured =~= e.after_completion(status, bytes).captured);
                },
            }
        }
        assert(ep@ == e.after_completion(status, bytes));
        let ghost f = ep@;
        self.eps.insert(at, ep);
        assert(self@.eps =~= had.update(at as int, f));
        Delivery { reply, rearm: Some(address) }
    }

    /// The first endpoint on which the client's `seqnum` waits.
    pub open spec fn waiting_at(eps: Seq<Ep>, seqnum: u32) -> Option<int>
        decreases eps.len(),
    {
        if eps.len() == 0 {
            None
        } else {
            match Prefetch::waiting_at(eps.drop_last(), seqnum) {
                Some(i) => Some(i),
                None => if eps.last().waiting is Some && eps.last().waiting.unwrap().seqnum
                    == seqnum {
                    Some(eps.len() - 1)
                } else {
                    None
                },
            }
        }
    }

    /// Drop a registered waiter, for `USBIP_CMD_UNLINK`. Returns true if this
    /// seqnum was one of ours to cancel.
    pub fn unlink(&mut self, seqnum: u32) -> (r: bool)
        requires
            old(self).wf(),
        ensures
            final(self).wf(),
            match Prefetch::waiting_at(old(self)@.eps, seqnum) {
                Some(i) => {
                    &&& r
                    &&& 0 <= i < old(self)@.eps.len()
                    &&& final(self)@ == old(self)@.with_ep(
                        i,
                        (Ep { waiting: None, ..old(self)@.eps[i] }),
                    )
                },
                None => !r && final(self)@ == old(self)@,
            },
    {
        let ghost had = self@.eps;
        let mut i: usize = 0;
        assert(had.take(0) =~= Seq::empty());
        while i < self.eps.len()
            invariant
                i <= self.eps@.len(),
                self.wf(),
                *self == *old(self),
                had == self@.eps,
                had.len() == self.eps@.len(),
                Prefetch::waiting_at(had.take(i as int), seqnum) is None,
            decreases self.eps@.len() - i,
        {
            proof {
                assert(had.take(i + 1).drop_last() =~= had.take(i as int));
                assert(had.take(i + 1).last() == self.eps@[i as int]@);
            }
            let mine = match self.eps[i].waiting {
                Some(w) => w.seqnum == seqnum,
                None => false,
            };
            if mine {
                proof {
                    lemma_waiting_at_stays(had, seqnum, i + 1);
                }
                let ghost e = had[i as int];
                assert(e.wf());
                let mut ep = self.eps.remove(i);
                ep.waiting = None;
                assert(ep@.captured =~= e.captured);
                let ghost f = ep@;
                assert(f == (Ep { waiting: None, ..e }));
                self.eps.insert(i, ep);
                assert(self@.eps =~= had.update(i as int, f));
                return true;
            }
            i = i + 1;
        }
        assert(had.take(i as int) =~= had);
        false
    }

    /// The seqnums of the internal URBs in flight, in order.
    pub open spec fn all_out(eps: Seq<Ep>) -> Seq<u32>
        decreases eps.len(),
    {
        if eps.len() == 0 {
            seq![]
        } else {
            match eps.last().in_flight {
                Some(s) => Prefetch::all_out(eps.drop_last()).push(s),
                None => Prefetch::all_out(eps.drop_last()),
            }
        }
    }

    /// Ends prefetching and lists the internal URBs to cancel. The device's own
    /// teardown would catch them anyway; doing it here keeps the bookkeeping honest
    /// and stops a completion being re-armed during teardown.
    pub fn shutdown(&mut self) -> (v: Vec<u32>)
        requires
            old(self).wf(),
        ensures
            final(self).wf(),
            v@ == Prefetch::all_out(old(self)@.eps),
            final(self)@.next == old(self)@.next,
            final(self)@.eps == old(self)@.eps.map_values(
                |e: Ep|
                    Ep {
                        disabled: true,
                        waiting: None,
                        captured: Seq::empty(),
                        in_flight: None,
                        ..e
                    },
            ),
    {
        let ghost had = self@.eps;
        let ghost want = had.map_values(
            |e: Ep|
                Ep { disabled: true, waiting: None, captured: Seq::empty(), in_flight: None, ..e },
        );
        let mut v: Vec<u32> = Vec::new();
        let mut i: usize = 0;
        assert(had.take(0) =~= Seq::empty());
        while i < self.eps.len()
            invariant
                i <= self.eps@.len(),
                had == old(self)@.eps,
                had.len() == self.eps@.len(),
                want == had.map_values(
                    |e: Ep|
                        Ep {
                            disabled: true,
                            waiting: None,
                            captured: Seq::empty(),
                            in_flight: None,
                            ..e
                        },
                ),
                self@.next == old(self)@.next,
                v@ == Prefetch::all_out(had.take(i as int)),
                forall|k: int| 0 <= k < i ==> #[trigger] self@.eps[k] == want[k],
                forall|k: int| i <= k < had.len() ==> #[trigger] self@.eps[k] == had[k],
            decreases self.eps@.len() - i,
        {
            proof {
                assert(had.take(i + 1).drop_last() =~= had.take(i as int));
                assert(had.take(i + 1).last() == had[i as int]);
                assert(self@.eps[i as int] == self.eps@[i as int]@);
            }
            let ghost before = self@.eps;
            let mut ep = self.eps.remove(i);
            match ep.in_flight {
                Some(s) => v.push(s),
                None => {},
            }
            ep.disabled = true;
            ep.waiting = None;
            ep.captured.clear();
            ep.in_flight = None;
            assert(ep@.captured =~= Seq::empty());
            assert(ep@ == want[i as int]);
            let ghost f = ep@;
            self.eps.insert(i, ep);
            assert(self@.eps =~= before.update(i as int, f));
            i = i + 1;
        }
        proof {
            assert(had.take(i as int) =~= had);
            assert(self@.eps =~= want);
            assert forall|k: int| 0 <= k < want.len() implies (#[trigger] want[k]).wf() by {
                assert(had[k].wf());
            }
        }
        v
    }
}

proof fn lemma_waiting_at_stays(eps: Seq<Ep>, seqnum: u32, i: int)
    requires
        0 <= i <= eps.len(),
        Prefetch::waiting_at(eps.take(i), seqnum) is Some,
    ensures
        Prefetch::waiting_at(eps, seqnum) == Prefetch::waiting_at(eps.take(i), seqnum),
    decreases eps.len() - i,
{
    if i == eps.len() {
        assert(eps.take(i) =~= eps);
    } else {
        assert(eps.take(i + 1).drop_last() =~= eps.take(i));
        lemma_waiting_at_stays(eps, seqnum, i + 1);
    }
}

// ---------------------------------------------------------------------------
// Laws

/// An endpoint that has not given up always has a URB queued or wants one, however
/// many reports are waiting: after a client submit as after a completion.
pub proof fn lemma_a_urb_stays_queued(
    e: Ep,
    seqnum: u32,
    max_len: usize,
    status: i32,
    data: Seq<u8>,
)
    requires
        e.wf(),
        !e.disabled,
    ensures
        e.in_flight is Some || e.is_idle(),
        e.after_take(seqnum, max_len).in_flight is Some || e.after_take(
            seqnum,
            max_len,
        ).is_idle(),
        e.after_completion(status, data).disabled || e.after_completion(status, data).is_idle(),
        status == 0 ==> e.after_completion(status, data).is_idle(),
{
}

/// The place of an endpoint is where its address stands.
pub proof fn lemma_place_of_address(b: Buffers, i: int)
    requires
        b.wf(),
        0 <= i < b.eps.len(),
    ensures
        place_of(b.eps, b.eps[i].address) == Some(i),
{
    lemma_place_of(b.eps, b.eps[i].address);
    let k = place_of(b.eps, b.eps[i].address);
    match k {
        Some(j) => {
            if j < i {
                assert(b.eps[j].address != b.eps[i].address);
            } else if i < j {
                assert(b.eps[i].address != b.eps[j].address);
            }
        },
        None => {},
    }
}

/// Arming an endpoint keeps the buffers in order, and only that endpoint changes.
pub proof fn lemma_arming(b: Buffers, i: int, outcome: Result<(), SubmitError>)
    requires
        b.wf(),
        0 <= i < b.eps.len(),
        b.eps[i].is_idle(),
        outcome is Ok ==> !b.is_out(b.next),
    ensures
        b.after_arming(b.eps[i].address, outcome).wf(),
        b.after_arming(b.eps[i].address, outcome).eps == b.eps.update(
            i,
            b.eps[i].after_submit(b.next, outcome),
        ),
{
    lemma_place_of_address(b, i);
    assert(b.eps[i].wf());
    let f = b.eps[i].after_submit(b.next, outcome);
    assert(f.wf());
    if outcome is Ok {
        assert forall|k: int| 0 <= k < b.eps.len() implies (#[trigger] b.eps[k]).in_flight != Some(
            b.next,
        ) by {}
    }
}

/// An endpoint that a refused submit left without a URB gets one again with the next
/// client submit: that leaves it idle, whether a report was ready or not, so a URB is
/// wanted for it, and once the device accepts that one it is in flight.
pub proof fn lemma_a_client_submit_rearms(
    b: Buffers,
    address: u8,
    seqnum: u32,
    max_len: usize,
    req: Option<UrbRequest>,
)
    requires
        b.wf(),
        place_of(b.eps, address) matches Some(i) && b.eps[i].is_idle(),
        !b.is_out(b.next),
        ({
            let i = place_of(b.eps, address).unwrap();
            b.with_ep(i, b.eps[i].after_take(seqnum, max_len)).wants(address, req)
        }),
    ensures
        ({
            let i = place_of(b.eps, address).unwrap();
            let taken = b.with_ep(i, b.eps[i].after_take(seqnum, max_len));
            let armed = taken.after_arming(address, Ok(()));
            &&& req is Some
            &&& Prefetch::asks_for_report(req.unwrap(), b.eps[i], b.next)
            &&& armed.wf()
            &&& armed.eps[i].in_flight == Some(b.next)
            &&& armed.eps[i] == (Ep { in_flight: Some(b.next), ..taken.eps[i] })
        }),
{
    lemma_place_of(b.eps, address);
    let i = place_of(b.eps, address).unwrap();
    let e = b.eps[i];
    assert(e.wf());
    let f = e.after_take(seqnum, max_len);
    let taken = b.with_ep(i, f);
    assert(f.wf());
    assert(taken.wf());
    lemma_place_of_address(taken, i);
    assert(!taken.is_out(taken.next)) by {
        if taken.is_out(taken.next) {
            let k = taken.out_at(taken.next);
            assert(b.eps[k].in_flight == Some(b.next));
        }
    }
    lemma_arming(taken, i, Ok(()));
}

impl Buffers {
    /// The buffers after each of these endpoints has been armed in turn, with the
    /// device accepting every URB.
    pub open spec fn after_arming_all(self, addresses: Seq<u8>) -> Buffers
        decreases addresses.len(),
    {
        if addresses.len() == 0 {
            self
        } else {
            self.after_arming_all(addresses.drop_last()).after_arming(addresses.last(), Ok(()))
        }
    }

    /// Whether the device can accept all those URBs: it takes none with a seqnum that
    /// is in flight.
    pub open spec fn accepted(self, addresses: Seq<u8>) -> bool {
        forall|k: int|
            0 <= k < addresses.len() ==> {
                let b = #[trigger] self.after_arming_all(addresses.take(k));
                !b.is_out(b.next)
            }
    }
}

/// The endpoints to arm are those that are idle, each once.
proof fn lemma_idle(eps: Seq<Ep>)
    requires
        forall|i: int, j: int|
            0 <= i < j < eps.len() ==> (#[trigger] eps[i]).address != (#[trigger] eps[j]).address,
    ensures
        Prefetch::idle(eps).no_duplicates(),
        forall|i: int|
            0 <= i < eps.len() ==> (Prefetch::idle(eps).contains((#[trigger] eps[i]).address)
                <==> eps[i].is_idle()),
        forall|k: int|
            0 <= k < Prefetch::idle(eps).len() ==> exists|i: int|
                0 <= i < eps.len() && (#[trigger] eps[i]).address == #[trigger] Prefetch::idle(
                    eps,
                )[k],
    decreases eps.len(),
{
    if eps.len() > 0 {
        let init = eps.drop_last();
        let last = eps.last();
        let less = Prefetch::idle(init);
        let all = Prefetch::idle(eps);
        assert(eps[eps.len() - 1] == last);
        assert forall|i: int, j: int| 0 <= i < j < init.len() implies (
        #[trigger] init[i]).address != (#[trigger] init[j]).address by {
            assert(init[i] == eps[i] && init[j] == eps[j]);
        }
        lemma_idle(init);
        assert forall|k: int| 0 <= k < less.len() implies #[trigger] less[k] != last.address by {
            let i = choose|i: int| 0 <= i < init.len() && (#[trigger] init[i]).address == less[k];
            assert(eps[i] == init[i]);
        }
        assert forall|i: int| 0 <= i < eps.len() implies (all.contains(
            (#[trigger] eps[i]).address,
        ) <==> eps[i].is_idle()) by {
            if i < init.len() {
                assert(init[i] == eps[i]);
                if all.contains(eps[i].address) {
                    let k = choose|k: int| 0 <= k < all.len() && all[k] == eps[i].address;
                    assert(k < less.len());
                    assert(less[k] == eps[i].address);
                }
                if less.contains(eps[i].address) {
                    let k = choose|k: int| 0 <= k < less.len() && less[k] == eps[i].address;
                    assert(all[k] == eps[i].address);
                }
            } else if last.is_idle() {
                assert(all[all.len() - 1] == last.address);
            } else {
                if all.contains(last.address) {
                    let k = choose|k: int| 0 <= k < all.len() && all[k] == last.address;
                    assert(less[k] == last.address);
                }
            }
        }
        assert forall|k: int| 0 <= k < all.len() implies exists|i: int|
            0 <= i < eps.len() && (#[trigger] eps[i]).address == #[trigger] all[k] by {
            if k < less.len() {
                assert(all[k] == less[k]);
                let i = choose|i: int|
                    0 <= i < init.len() && (#[trigger] init[i]).address == less[k];
                assert(eps[i].address == all[k]);
            } else {
                assert(eps[eps.len() - 1].address == all[k]);
            }
        }
    }
}

/// What arming the endpoints of a list in turn comes to, for a list of idle ones.
proof fn lemma_arming_all(b: Buffers, addresses: Seq<u8>)
    requires
        b.wf(),
        addresses.no_duplicates(),
        forall|k: int|
            0 <= k < addresses.len() ==> exists|i: int|
                0 <= i < b.eps.len() && (#[trigger] b.eps[i]).address == #[trigger] addresses[k]
                    && b.eps[i].is_idle(),
        b.accepted(addresses),
    ensures
        ({
            let after = b.after_arming_all(addresses);
            &&& after.wf()
            &&& after.eps.len() == b.eps.len()
            &&& forall|i: int|
                0 <= i < b.eps.len() ==> {
                    let e = #[trigger] after.eps[i];
                    if addresses.contains(b.eps[i].address) {
                        e.in_flight is Some && e == (Ep { in_flight: e.in_flight, ..b.eps[i] })
                    } else {
                        e == b.eps[i]
                    }
                }
        }),
    decreases addresses.len(),
{
    if addresses.len() > 0 {
        let init = addresses.drop_last();
        let last = addresses.last();
        assert(addresses[addresses.len() - 1] == last);
        assert forall|k: int| 0 <= k < init.len() implies exists|i: int|
            0 <= i < b.eps.len() && (#[trigger] b.eps[i]).address == #[trigger] init[k]
                && b.eps[i].is_idle() by {
            assert(addresses[k] == init[k]);
        }
        assert(b.accepted(init)) by {
            assert forall|k: int| 0 <= k < init.len() implies {
                let c = #[trigger] b.after_arming_all(init.take(k));
                !c.is_out(c.next)
            } by {
                assert(init.take(k) =~= addresses.take(k));
                assert(!b.after_arming_all(addresses.take(k)).is_out(
                    b.after_arming_all(addresses.take(k)).next,
                ));
            }
        }
        lemma_arming_all(b, init);
        let had = b.after_arming_all(init);
        assert(addresses.take(addresses.len() - 1) =~= init);
        assert(!had.is_out(had.next));
        let i = choose|i: int|
            0 <= i < b.eps.len() && (#[trigger] b.eps[i]).address == last && b.eps[i].is_idle();
        assert(!init.contains(last)) by {
            if init.contains(last) {
                let k = choose|k: int| 0 <= k < init.len() && init[k] == last;
                assert(addresses[k] == addresses[addresses.len() - 1]);
            }
        }
        assert(had.eps[i] == b.eps[i]);
        lemma_arming(had, i, Ok(()));
        let after = b.after_arming_all(addresses);
        assert(after == had.after_arming(last, Ok(())));
        assert forall|j: int| 0 <= j < b.eps.len() implies {
            let e = #[trigger] after.eps[j];
            if addresses.contains(b.eps[j].address) {
                e.in_flight is Some && e == (Ep { in_flight: e.in_flight, ..b.eps[j] })
            } else {
                e == b.eps[j]
            }
        } by {
            let e = after.eps[j];
            if j == i {
                assert(addresses.contains(last));
            } else {
                assert(e == had.eps[j]);
                assert(b.eps[j].address != last) by {
                    if j < i {
                        assert(b.eps[j].address != b.eps[i].address);
                    } else {
                        assert(b.eps[i].address != b.eps[j].address);
                    }
                }
                if addresses.contains(b.eps[j].address) {
                    let k = choose|k: int|
                        0 <= k < addresses.len() && addresses[k] == b.eps[j].address;
                    assert(init[k] == b.eps[j].address);
                }
                if init.contains(b.eps[j].address) {
                    let k = choose|k: int| 0 <= k < init.len() && init[k] == b.eps[j].address;
                    assert(addresses[k] == b.eps[j].address);
                }
            }
        }
    }
}

/// Arming leaves every endpoint that has not given up with exactly one URB in flight,
/// however many reports wait in its buffer. One is submitted for each endpoint that had
/// none, under a seqnum of its own that is not the client's, for as many bytes as a
/// packet holds; an endpoint that had one keeps it, and nothing else changes.
pub proof fn lemma_arming_queues_every_endpoint(b: Buffers)
    requires
        b.wf(),
        b.accepted(Prefetch::idle(b.eps)),
    ensures
        ({
            let list = Prefetch::idle(b.eps);
            let after = b.after_arming_all(list);
            &&& after.wf()
            &&& after.eps.len() == b.eps.len()
            &&& list.no_duplicates()
            &&& forall|i: int|
                0 <= i < b.eps.len() ==> (list.contains((#[trigger] b.eps[i]).address)
                    <==> b.eps[i].is_idle())
            &&& forall|i: int|
                0 <= i < b.eps.len() ==> {
                    let e = #[trigger] after.eps[i];
                    &&& !e.disabled ==> e.in_flight is Some
                    &&& !b.eps[i].is_idle() ==> e == b.eps[i]
                    &&& e == (Ep { in_flight: e.in_flight, ..b.eps[i] })
                }
            &&& forall|k: int, req: Option<UrbRequest>|
                0 <= k < list.len() && #[trigger] b.after_arming_all(list.take(k)).wants(
                    list[k],
                    req,
                ) ==> {
                    let now = b.after_arming_all(list.take(k));
                    let i = place_of(b.eps, list[k]).unwrap();
                    &&& req is Some
                    &&& Prefetch::asks_for_report(req.unwrap(), b.eps[i], now.next)
                    &&& req.unwrap().ep == list[k] % 0x10
                    &&& req.unwrap().seqnum >= INTERNAL_BASE
                    &&& !now.is_out(req.unwrap().seqnum)
                }
        }),
{
    let list = Prefetch::idle(b.eps);
    lemma_idle(b.eps);
    assert forall|k: int| 0 <= k < list.len() implies exists|i: int|
        0 <= i < b.eps.len() && (#[trigger] b.eps[i]).address == #[trigger] list[k]
            && b.eps[i].is_idle() by {
        let i = choose|i: int| 0 <= i < b.eps.len() && (#[trigger] b.eps[i]).address == list[k];
        assert(list.contains(b.eps[i].address));
    }
    lemma_arming_all(b, list);
    assert forall|k: int, req: Option<UrbRequest>|
        0 <= k < list.len() && #[trigger] b.after_arming_all(list.take(k)).wants(
            list[k],
            req,
        ) implies {
        let now = b.after_arming_all(list.take(k));
        let i = place_of(b.eps, list[k]).unwrap();
        &&& req is Some
        &&& Prefetch::asks_for_report(req.unwrap(), b.eps[i], now.next)
        &&& req.unwrap().ep == list[k] % 0x10
        &&& req.unwrap().seqnum >= INTERNAL_BASE
        &&& !now.is_out(req.unwrap().seqnum)
    } by {
        let done = list.take(k);
        assert forall|m: int| 0 <= m < done.len() implies exists|i: int|
            0 <= i < b.eps.len() && (#[trigger] b.eps[i]).address == #[trigger] done[m]
                && b.eps[i].is_idle() by {
            assert(list[m] == done[m]);
        }
        assert(b.accepted(done)) by {
            assert forall|m: int| 0 <= m < done.len() implies {
                let c = #[trigger] b.after_arming_all(done.take(m));
                !c.is_out(c.next)
            } by {
                assert(done.take(m) =~= list.take(m));
                assert(!b.after_arming_all(list.take(m)).is_out(
                    b.after_arming_all(list.take(m)).next,
                ));
            }
        }
        lemma_arming_all(b, done);
        let now = b.after_arming_all(done);
        let i = choose|i: int|
            0 <= i < b.eps.len() && (#[trigger] b.eps[i]).address == list[k]
                && b.eps[i].is_idle();
        lemma_place_of_address(b, i);
        assert(!done.contains(list[k])) by {
            if done.contains(list[k]) {
                let m = choose|m: int| 0 <= m < done.len() && done[m] == list[k];
                assert(list[m] == list[k]);
            }
        }
        assert(now.eps[i] == b.eps[i]);
        lemma_place_of_address(now, i);
        assert(b.eps[i].wf());
        assert(!now.is_out(now.next));
    }
}

/// Reports come out in the order in which they went in, and of those that nobody
/// asked for the newest four are kept.
pub proof fn lemma_newest_reports_are_kept(e: Ep, data: Seq<u8>)
    requires
        e.wf(),
        e.waiting is None,
    ensures
        ({
            let all = e.captured.push(data);
            let f = e.after_completion(0, data);
            &&& f.captured.len() <= DEPTH
            &&& f.captured == all.skip(
                if all.len() > DEPTH {
                    all.len() - DEPTH
                } else {
                    0
                },
            )
        }),
{
    let all = e.captured.push(data);
    let f = e.after_completion(0, data);
    assert(f.captured =~= all.skip(
        if all.len() > DEPTH {
            all.len() - DEPTH
        } else {
            0
        },
    ));
}

/// A completed report is handed over exactly once: to the client that waits, which
/// then no longer waits, or into the buffer.
pub proof fn lemma_a_report_is_handed_over_once(e: Ep, data: Seq<u8>)
    requires
        e.wf(),
    ensures
        e.owed(0, data) is Some <==> e.waiting is Some,
        e.after_completion(0, data).waiting is None,
        e.owed(0, data) is Some ==> e.after_completion(0, data).captured == e.captured,
        e.owed(0, data) is None ==> e.after_completion(0, data).captured.last() == data,
{
}

/// An endpoint after so many failed transfers in a row.
pub open spec fn after_failures(e: Ep, status: i32, n: nat) -> Ep
    decreases n,
{
    if n == 0 {
        e
    } else {
        after_failures(e, status, (n - 1) as nat).after_completion(status, Seq::empty())
    }
}

/// Failures in a row end the prefetching on an endpoint at the eighth and no
/// sooner, and one success in between starts the count again.
pub proof fn lemma_prefetching_gives_up(e: Ep, status: i32, n: nat)
    requires
        e.wf(),
        !e.disabled,
        e.errors == 0,
        status != 0,
        n <= MAX_CONSECUTIVE_ERRORS,
    ensures
        after_failures(e, status, n).errors == n,
        after_failures(e, status, n).disabled <==> n == MAX_CONSECUTIVE_ERRORS,
        !after_failures(e, status, n).disabled ==> after_failures(e, status, n).after_completion(
            0,
            Seq::empty(),
        ).errors == 0,
    decreases n,
{
    if n > 0 {
        lemma_prefetching_gives_up(e, status, (n - 1) as nat);
    }
}

/// Internal seqnums stay in the range that the client's never reach, also after the
/// last one has been used.
pub proof fn lemma_internal_seqnums_stay_apart(s: u32)
    requires
        s >= INTERNAL_BASE,
    ensures
        next_internal(s) >= INTERNAL_BASE,
        next_internal(s) != s,
{
}

/// The endpoints that are prefetched: one for each address of the list, with the packet
/// size that the last entry for the address gives and the number that a submit names, and
/// nothing has happened on it yet.
pub proof fn lemma_which_endpoints_there_are(list: Seq<(u8, u16)>, i: int)
    requires
        0 <= i < list.len(),
        forall|k: int| i < k < list.len() ==> (#[trigger] list[k]).0 != list[i].0,
    ensures
        ({
            let eps = endpoints_of(list);
            exists|m: int|
                {
                    let e = #[trigger] eps[m];
                    &&& 0 <= m < eps.len()
                    &&& e.address == list[i].0
                    &&& e.number == list[i].0 % 16
                    &&& e.max_packet == list[i].1
                    &&& e.in_flight is None && e.waiting is None && e.captured.len() == 0
                    &&& e.errors == 0 && !e.disabled
                }
        }),
    decreases list.len(),
{
    let eps = endpoints_of(list);
    let init = list.drop_last();
    let rest = endpoints_of(init);
    let (a, p) = list.last();
    lemma_place_of(rest, a);
    if i == list.len() - 1 {
        let m = match place_of(rest, a) {
            Some(m) => m,
            None => rest.len() as int,
        };
        assert(eps[m] == Ep::fresh(a, p));
        assert(eps[m].address == list[i].0);
    } else {
        assert(init[i] == list[i]);
        assert forall|k: int| i < k < init.len() implies (#[trigger] init[k]).0 != init[i].0 by {
            assert(init[k] == list[k]);
        }
        assert(list[list.len() - 1].0 != list[i].0);
        lemma_which_endpoints_there_are(init, i);
        let m = choose|m: int|
            {
                let e = #[trigger] rest[m];
                &&& 0 <= m < rest.len()
                &&& e.address == init[i].0
                &&& e.number == init[i].0 % 16
                &&& e.max_packet == init[i].1
                &&& e.in_flight is None && e.waiting is None && e.captured.len() == 0
                &&& e.errors == 0 && !e.disabled
            };
        assert(eps[m] == rest[m]);
    }
}

/// Prefetching holds no endpoint that was not asked for.
pub proof fn lemma_no_other_endpoints(list: Seq<(u8, u16)>, m: int)
    requires
        0 <= m < endpoints_of(list).len(),
    ensures
        exists|i: int| 0 <= i < list.len() && (#[trigger] list[i]).0 == endpoints_of(list)[m].address,
    decreases list.len(),
{
    if list.len() > 0 {
        let init = list.drop_last();
        let rest = endpoints_of(init);
        lemma_place_of(rest, list.last().0);
        if m < rest.len() && endpoints_of(list)[m] == rest[m] {
            lemma_no_other_endpoints(init, m);
            let i = choose|i: int| 0 <= i < init.len() && (#[trigger] init[i]).0 == rest[m].address;
            assert(list[i] == init[i]);
        } else {
            assert(list[list.len() - 1].0 == endpoints_of(list)[m].address);
        }
    }
}

/// What becomes of an endpoint when the URB that it wanted is submitted: accepted, it is in
/// flight; refused, that is one failure more, and the eighth in a row ends the
/// prefetching; carried out at once, nothing changes; and a device that is gone ends it.
/// The reports that were captured and the client that waits stay.
pub proof fn lemma_what_submitting_a_urb_comes_to(e: Ep, seqnum: u32, errno: i32)
    requires
        e.wf(),
        !e.disabled,
        e.in_flight is None,
    ensures
        e.after_submit(seqnum, Ok(())) == (Ep { in_flight: Some(seqnum), ..e }),
        ({
            let f = e.after_submit(seqnum, Err(SubmitError::Urb(errno)));
            &&& f.errors == e.errors + 1
            &&& f.disabled <==> e.errors + 1 >= 8
            &&& f.in_flight is None
            &&& f.captured == e.captured && f.waiting == e.waiting
            &&& f.address == e.address && f.number == e.number && f.max_packet == e.max_packet
        }),
        e.after_submit(seqnum, Err(SubmitError::Handled(errno))) == e,
        e.after_submit(seqnum, Err(SubmitError::Fatal(errno))) == (Ep { disabled: true, ..e }),
{
}

/// A submit on a prefetched endpoint takes the oldest report, if there is one, and waits
/// otherwise, in place of any that waited; of the report it gets as many bytes as it asked
/// for.
pub proof fn lemma_what_a_client_takes(e: Ep, seqnum: u32, max_len: usize)
    requires
        e.wf(),
    ensures
        ({
            let f = e.after_take(seqnum, max_len);
            &&& e.captured.len() > 0 ==> f == (Ep { captured: e.captured.skip(1), ..e })
            &&& e.captured.len() == 0 ==> f == (Ep {
                waiting: Some(Waiter { seqnum, max_len }),
                ..e
            })
        }),
        forall|d: Seq<u8>| #[trigger] cut(d, max_len) == (if d.len() <= max_len {
            d
        } else {
            d.subrange(0, max_len as int)
        }),
{
    assert(e.captured.len() > 0 ==> e.captured.drop_first() =~= e.captured.skip(1));
    assert forall|d: Seq<u8>| #[trigger] cut(d, max_len) == (if d.len() <= max_len {
        d
    } else {
        d.subrange(0, max_len as int)
    }) by {
        if d.len() > max_len {
            assert(cut(d, max_len) =~= d.subrange(0, max_len as int));
        }
    }
}

/// When prefetching ends, every URB of it that is in flight is named, once for each.
pub proof fn lemma_every_urb_is_named_at_the_end(eps: Seq<Ep>, i: int)
    requires
        0 <= i < eps.len(),
    ensures
        eps[i].in_flight matches Some(s) ==> Prefetch::all_out(eps).contains(s),
        Prefetch::all_out(eps).len() == eps.filter(|e: Ep| e.in_flight is Some).len(),
    decreases eps.len(),
{
    reveal(Seq::filter);
    lemma_count_out(eps);
    let init = eps.drop_last();
    let less = Prefetch::all_out(init);
    let all = Prefetch::all_out(eps);
    if i < init.len() {
        assert(init[i] == eps[i]);
        lemma_every_urb_is_named_at_the_end(init, i);
        if eps[i].in_flight is Some {
            let s = eps[i].in_flight.unwrap();
            let k = choose|k: int| 0 <= k < less.len() && less[k] == s;
            assert(all[k] == s);
        }
    } else if eps[i].in_flight is Some {
        assert(all[all.len() - 1] == eps[i].in_flight.unwrap());
    }
}

proof fn lemma_count_out(eps: Seq<Ep>)
    ensures
        Prefetch::all_out(eps).len() == eps.filter(|e: Ep| e.in_flight is Some).len(),
    decreases eps.len(),
{
    reveal(Seq::filter);
    if eps.len() > 0 {
        lemma_count_out(eps.drop_last());
    }
}

/// What becomes of an endpoint, and of the client that waits on it, when its URB
/// completes. A report goes to the client that waits, as many bytes of it as it asked for,
/// and otherwise into the buffer, which keeps the newest four. An error goes to the client
/// that waits, without data, and is counted; at the eighth in a row prefetching ends and
/// the reports that nobody took are dropped. Nothing is in flight after it.
pub proof fn lemma_what_a_completed_urb_leaves(e: Ep, status: i32, data: Seq<u8>)
    requires
        e.wf(),
        !e.disabled,
    ensures
        ({
            let f = e.after_completion(status, data);
            let all = e.captured.push(data);
            &&& f.address == e.address && f.number == e.number && f.max_packet == e.max_packet
            &&& f.in_flight is None && f.waiting is None
            &&& status == 0 ==> f.errors == 0 && !f.disabled
            &&& status == 0 && e.waiting is None ==> {
                &&& e.owed(status, data) is None
                &&& all.len() <= 4 ==> f.captured == all
                &&& all.len() > 4 ==> f.captured == all.subrange(all.len() - 4, all.len() as int)
            }
            &&& status == 0 && e.waiting is Some ==> {
                let w = e.waiting->Some_0;
                &&& f.captured == e.captured
                &&& data.len() <= w.max_len ==> e.owed(status, data) == Some((w.seqnum, 0i32, data))
                &&& data.len() > w.max_len ==> e.owed(status, data) == Some(
                    (w.seqnum, 0i32, data.subrange(0, w.max_len as int)),
                )
            }
            &&& status != 0 ==> {
                &&& f.errors == e.errors + 1
                &&& f.disabled <==> e.errors + 1 >= 8
                &&& e.errors + 1 < 8 ==> f.captured == e.captured
                &&& e.errors + 1 >= 8 ==> f.captured.len() == 0
                &&& e.waiting is None ==> e.owed(status, data) is None
                &&& e.waiting matches Some(w) ==> e.owed(status, data) == Some(
                    (w.seqnum, status, Seq::<u8>::empty()),
                )
            }
        }),
{
    let f = e.after_completion(status, data);
    let all = e.captured.push(data);
    if status == 0 && e.waiting is None {
        if all.len() > 4 {
            assert(f.captured =~= all.subrange(all.len() - 4, all.len() as int));
        }
    }
    if status == 0 && e.waiting is Some && data.len() > e.waiting->Some_0.max_len {
        assert(data.take(e.waiting->Some_0.max_len as int) =~= data.subrange(
            0,
            e.waiting->Some_0.max_len as int,
        ));
    }
}

/// The URB that is submitted for an endpoint with nothing in flight: an IN of its own
/// packet size on its own number, under the next seqnum; for any other endpoint there is
/// none.
pub proof fn lemma_which_urb_is_wanted(b: Buffers, i: int, r: Option<UrbRequest>)
    requires
        b.wf(),
        0 <= i < b.eps.len(),
        b.wants(b.eps[i].address, r),
    ensures
        r is Some <==> !b.eps[i].disabled && b.eps[i].in_flight is None,
        r matches Some(req) ==> {
            &&& req.seqnum == b.next
            &&& req.ep == b.eps[i].address % 16
            &&& req.dir is In
            &&& req.buffer_length == b.eps[i].max_packet
            &&& req.data@.len() == 0
            &&& req.transfer_flags == 0
        },
{
    lemma_place_of_address(b, i);
    assert(b.eps[i].wf());
}

/// The endpoints to submit URBs for are those that have none in flight and have not given
/// up, in order.
pub proof fn lemma_which_endpoints_are_armed(eps: Seq<Ep>)
    ensures
        Prefetch::idle(eps) == eps.filter(
            |e: Ep| !e.disabled && e.in_flight is None,
        ).map_values(|e: Ep| e.address),
    decreases eps.len(),
{
    reveal(Seq::filter);
    let keep = |e: Ep| !e.disabled && e.in_flight is None;
    let give = |e: Ep| e.address;
    if eps.len() > 0 {
        lemma_which_endpoints_are_armed(eps.drop_last());
    }
    assert(Prefetch::idle(eps) =~= eps.filter(keep).map_values(give));
}

/// The seqnums of prefetching are used in turn, from the upper half of all of them.
pub proof fn lemma_seqnums_are_used_in_turn(s: u32)
    requires
        s >= 0x8000_0000,
    ensures
        s < 0xffff_ffff ==> next_internal(s) == s + 1,
        s == 0xffff_ffff ==> next_internal(s) == 0x8000_0000,
{
}

/// Where a client waits is the first endpoint at which it does.
pub proof fn lemma_where_a_client_waits(eps: Seq<Ep>, seqnum: u32, i: int)
    ensures
        0 <= i < eps.len() && (eps[i].waiting matches Some(w) && w.seqnum == seqnum) && (forall|
            k: int,
        |
            0 <= k < i ==> !((#[trigger] eps[k]).waiting matches Some(w) && w.seqnum == seqnum))
            ==> Prefetch::waiting_at(eps, seqnum) == Some(i),
        (forall|k: int|
            0 <= k < eps.len() ==> !((#[trigger] eps[k]).waiting matches Some(w) && w.seqnum
                == seqnum)) ==> Prefetch::waiting_at(eps, seqnum) is None,
    decreases eps.len(),
{
    if eps.len() > 0 {
        let init = eps.drop_last();
        lemma_where_a_client_waits(init, seqnum, i);
        assert forall|k: int| 0 <= k < init.len() implies #[trigger] init[k] == eps[k] by {}
    }
}

} // verus!
