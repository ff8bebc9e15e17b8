//! Taking a device off offer, and the way back.
//!
//! Forwarding a handheld's *own* controls is the one export that costs you the
//! machine you are holding: the exporter evicts the kernel's driver, so the
//! Deck's UI stops responding for as long as the session lasts. The toggle
//! makes that reversible from the controller itself.
//!
//! The shape of it matters more than the mechanism. "Off" is not a pause in
//! the URB pump — it is **the device no longer being on offer**:
//!
//! * the session ends, so every interface is released and rebound exactly as it
//!   is on a detach;
//! * [`Toggle::offered`] drops the bus id from `OP_REP_DEVLIST` and
//!   [`Toggle::may_open`] refuses `OP_REQ_IMPORT` for it, so the importing
//!   daemon's reconnect loop sees a device that is simply not there and waits;
//! * a [`Watched`] device's reports are read back off `hidraw` — the node the
//!   rebound driver just created — and the chord puts the device back on offer.
//!
//! ## When the way back is blocked
//!
//! The watcher needs read access to `/dev/hidraw*`. Without it the chord can
//! suspend a device and never resume it, so a failed watcher keeps the device
//! **suspended** rather than quietly restoring the forward: the person holding
//! the Deck keeps their controls, the log says exactly what to install, and
//! `SIGHUP` puts everything back on offer without needing the controller.
use crate::backend::DeviceSummary;
use crate::server::chord::{
    after_all, buttons, buttons_in, describe, described, elapsed, Chord, Detector, Watching,
};
use crate::server::names::{ascending, NameSet};
use crate::text::{
    dec, digit_value, hex, lemma_a_byte_in_hexadecimal, push_dec, push_hex, same, strings,
};
use vstd::prelude::*;
use vstd::string::*;

verus! {

broadcast use vstd::slice::group_slice_axioms;

/// How long the watcher blocks on `hidraw` before re-checking for shutdown.
pub const POLL_MS: u64 = 250;

/// How long, in nanoseconds, a rebinding driver gets to create its `hidraw` node
/// before the watcher starts complaining. Releasing seven interfaces and rebinding
/// each is not instant, and a warning during the normal handover would be noise.
pub const REBIND_GRACE: u64 = 3_000_000_000;

/// How often, in nanoseconds, to repeat the complaint while a suspended device has
/// no way back.
pub const NAG: u64 = 30_000_000_000;

/// Which devices are currently withheld from importers.
pub struct Toggle {
    suspended: NameSet,
}

impl View for Toggle {
    type V = Set<Seq<char>>;

    closed spec fn view(&self) -> Set<Seq<char>> {
        self.suspended@
    }
}

impl Toggle {
    pub closed spec fn wf(&self) -> bool {
        self.suspended.wf()
    }

    pub fn new() -> (t: Toggle)
        ensures
            t.wf(),
            t@ == Set::<Seq<char>>::empty(),
    {
        Toggle { suspended: NameSet::new() }
    }

    pub fn is_suspended(&self, busid: &str) -> (r: bool)
        requires
            self.wf(),
        ensures
            r == self@.contains(busid@),
    {
        self.suspended.contains(busid)
    }

    /// Returns false if it was already suspended.
    pub fn suspend(&mut self, busid: &str) -> (r: bool)
        requires
            old(self).wf(),
        ensures
            final(self).wf(),
            r == !old(self)@.contains(busid@),
            final(self)@ == old(self)@.insert(busid@),
    {
        self.suspended.insert(busid)
    }

    /// Returns false if it was not suspended.
    pub fn resume(&mut self, busid: &str) -> (r: bool)
        requires
            old(self).wf(),
        ensures
            final(self).wf(),
            r == old(self)@.contains(busid@),
            final(self)@ == old(self)@.remove(busid@),
    {
        self.suspended.remove(busid)
    }

    /// The suspended devices, in order.
    pub fn list(&self) -> (v: Vec<String>)
        requires
            self.wf(),
        ensures
            ascending(strings(v@)),
            forall|n: Seq<char>| #[trigger] strings(v@).contains(n) <==> self@.contains(n),
    {
        self.suspended.list()
    }

    /// Put everything back on offer. The `SIGHUP` escape hatch. Returns what was
    /// suspended, each device once.
    pub fn resume_all(&mut self) -> (v: Vec<String>)
        requires
            old(self).wf(),
        ensures
            final(self).wf(),
            ascending(strings(v@)),
            forall|n: Seq<char>| #[trigger] strings(v@).contains(n) <==> old(self)@.contains(n),
            final(self)@ == Set::<Seq<char>>::empty(),
    {
        let was = self.suspended.list();
        self.suspended = NameSet::new();
        was
    }

    /// The devices of a list that are on offer, in order.
    pub open spec fn on_offer(suspended: Set<Seq<char>>, all: Seq<DeviceSummary>) -> Seq<
        DeviceSummary,
    > {
        all.filter(|d: DeviceSummary| !suspended.contains(d.busid@))
    }

    /// A list of devices without those that are suspended.
    pub fn offered(&self, all: Vec<DeviceSummary>) -> (r: Vec<DeviceSummary>)
        requires
            self.wf(),
        ensures
            r@ == Toggle::on_offer(self@, all@),
    {
        let mut rest = all;
        let mut out: Vec<DeviceSummary> = Vec::new();
        let ghost keep = |d: DeviceSummary| !self@.contains(d.busid@);
        let ghost mut done: int = 0;
        proof {
            reveal(Seq::filter);
            assert(all@.take(0).filter(keep) =~= Seq::empty());
        }
        while rest.len() > 0
            invariant
                self.wf(),
                0 <= done <= all@.len(),
                rest@ == all@.skip(done),
                keep == (|d: DeviceSummary| !self@.contains(d.busid@)),
                out@ == all@.take(done).filter(keep),
            decreases rest@.len(),
        {
            let d = rest.remove(0);
            proof {
                reveal(Seq::filter);
                assert(all@.take(done + 1).drop_last() =~= all@.take(done));
                assert(all@.take(done + 1).last() == d);
                assert(rest@ =~= all@.skip(done + 1));
                done = done + 1;
            }
            if !self.is_suspended(&d.busid) {
                out.push(d);
            }
        }
        assert(all@.take(done) =~= all@);
        out
    }

    /// Whether a device may be opened, or what a refused import is logged as. The
    /// list has been checked before this, so a refusal means a race with a chord
    /// that fired a moment ago.
    pub fn may_open(&self, busid: &str) -> (r: Result<(), String>)
        requires
            self.wf(),
        ensures
            match r {
                Ok(_) => !self@.contains(busid@),
                Err(e) => self@.contains(busid@) && e@ == busid@
                    + " is suspended by the toggle chord"@,
            },
    {
        if self.is_suspended(busid) {
            let mut e = String::new();
            e.append(busid);
            e.append(" is suspended by the toggle chord");
            assert(e@ =~= busid@ + " is suspended by the toggle chord"@);
            return Err(e);
        }
        Ok(())
    }
}

/// A suspended device is not offered, every other one is, and resuming it puts it
/// back where it was.
pub proof fn lemma_suspended_devices_are_not_offered(
    suspended: Set<Seq<char>>,
    all: Seq<DeviceSummary>,
    busid: Seq<char>,
)
    ensures
        forall|i: int|
            0 <= i < Toggle::on_offer(suspended, all).len() ==> !suspended.contains(
                (#[trigger] Toggle::on_offer(suspended, all)[i]).busid@,
            ),
        forall|i: int|
            0 <= i < all.len() && !suspended.contains((#[trigger] all[i]).busid@)
                ==> Toggle::on_offer(suspended, all).contains(all[i]),
        !suspended.contains(busid) ==> Toggle::on_offer(
            suspended.insert(busid).remove(busid),
            all,
        ) == Toggle::on_offer(suspended, all),
        Toggle::on_offer(Set::empty(), all) == all,
{
    broadcast use vstd::seq_lib::group_filter_ensures;

    let keep = |d: DeviceSummary| !suspended.contains(d.busid@);
    assert(Toggle::on_offer(suspended, all) == all.filter(keep));
    assert forall|i: int|
        0 <= i < all.len() && !suspended.contains(
            (#[trigger] all[i]).busid@,
        ) implies Toggle::on_offer(suspended, all).contains(all[i]) by {
        assert(keep(all[i]));
    }
    if !suspended.contains(busid) {
        assert(suspended.insert(busid).remove(busid) =~= suspended);
    }
    lemma_nothing_is_filtered(all);
}

proof fn lemma_nothing_is_filtered(all: Seq<DeviceSummary>)
    ensures
        Toggle::on_offer(Set::empty(), all) == all,
    decreases all.len(),
{
    reveal(Seq::filter);
    if all.len() > 0 {
        lemma_nothing_is_filtered(all.drop_last());
        assert(all =~= all.drop_last().push(all.last()));
    } else {
        assert(Toggle::on_offer(Set::empty(), all) =~= all);
    }
}

/// Everything a session needs to recognise the chord; the hold is in nanoseconds.
#[derive(Debug, Clone, Copy, PartialEq, Eq)]
pub struct Hotkey {
    pub chord: Chord,
    pub hold: u64,
}

impl Hotkey {
    pub fn detector(&self) -> (d: Detector)
        ensures
            d@ == Watching::fresh(self.chord, self.hold),
    {
        Detector::new(self.chord, self.hold)
    }
}

// ---------------------------------------------------------------------------
// Watching suspended devices

#[derive(Debug, Clone, Copy, PartialEq, Eq, Structural)]
pub enum Step {
    /// The chord fired: resume this device.
    Fired,
    /// A poll happened, so the loop has already paced itself.
    Polled,
    /// Nothing to poll — no usable `hidraw` node yet.
    Idle,
}

/// A suspended device whose reports are watched for the chord. Points in time are
/// in nanoseconds.
pub struct Watched {
    pub busid: String,
    pub hotkey: Hotkey,
    /// Whether a tap on the device's `hidraw` nodes is open.
    pub tapped: bool,
    pub detector: Detector,
    pub suspended_at: u64,
    pub complained_at: Option<u64>,
}

/// What the reports, all read at `now`, leave a detector knowing.
pub open spec fn timed(reports: Seq<Vec<u8>>, now: u64) -> Seq<(Seq<u8>, u64)> {
    reports.map_values(|r: Vec<u8>| (r@, now))
}

/// The first of the reports that makes the detector fire, if one does.
pub open spec fn first_fired(w: Watching, reports: Seq<Vec<u8>>, now: u64) -> Option<int>
    decreases reports.len(),
{
    if reports.len() == 0 {
        None
    } else {
        match first_fired(w, reports.drop_last(), now) {
            Some(i) => Some(i),
            None => if after_all(w, timed(reports.drop_last(), now)).verdict(
                reports.last()@,
                now,
            ).fired {
                Some(reports.len() - 1)
            } else {
                None
            },
        }
    }
}

proof fn lemma_first_fired_stays(w: Watching, reports: Seq<Vec<u8>>, now: u64, i: int)
    requires
        0 <= i <= reports.len(),
        first_fired(w, reports.take(i), now) is Some,
    ensures
        first_fired(w, reports, now) == first_fired(w, reports.take(i), now),
    decreases reports.len() - i,
{
    if i == reports.len() {
        assert(reports.take(i) =~= reports);
    } else {
        assert(reports.take(i + 1).drop_last() =~= reports.take(i));
        lemma_first_fired_stays(w, reports, now, i + 1);
    }
}

/// Whether it is time to complain of a device that was suspended at one time and last
/// complained of at another, if it was.
pub open spec fn complaint_due(suspended_at: u64, complained_at: Option<u64>, now: u64) -> bool {
    elapsed(suspended_at, now) >= REBIND_GRACE && (complained_at matches Some(t) ==> elapsed(
        t,
        now,
    ) >= NAG)
}

impl Watched {
    pub fn new(busid: String, hotkey: Hotkey, now: u64) -> (w: Watched)
        ensures
            w.busid@ == busid@,
            w.hotkey == hotkey,
            !w.tapped,
            w.detector@ == Watching::fresh(hotkey.chord, hotkey.hold),
            w.suspended_at == now,
            w.complained_at is None,
    {
        let detector = hotkey.detector();
        Watched { busid, hotkey, tapped: false, detector, suspended_at: now, complained_at: None }
    }

    /// A tap has been opened. The detector starts afresh, so the chord that
    /// suspended this device — still held while the driver was rebinding — has to
    /// be released before it can resume it. Otherwise one long press would toggle
    /// twice.
    pub fn attached(&mut self)
        ensures
            final(self).tapped,
            final(self).detector@ == Watching::fresh(old(self).hotkey.chord, old(self).hotkey.hold),
            final(self).complained_at is None,
            final(self).busid == old(self).busid,
            final(self).hotkey == old(self).hotkey,
            final(self).suspended_at == old(self).suspended_at,
    {
        self.detector = self.hotkey.detector();
        self.complained_at = None;
        self.tapped = true;
    }

    /// Takes in what a read of the tap gave: the reports, or nothing if the node
    /// went away, in which case the tap is to be rebuilt on the next pass.
    pub fn step(&mut self, reports: Option<Vec<Vec<u8>>>, now: u64) -> (s: Step)
        ensures
            final(self).busid == old(self).busid,
            final(self).hotkey == old(self).hotkey,
            final(self).suspended_at == old(self).suspended_at,
            final(self).complained_at == old(self).complained_at,
            match reports {
                None => {
                    &&& s == Step::Idle
                    &&& !final(self).tapped
                    &&& final(self).detector == old(self).detector
                },
                Some(rs) => {
                    &&& final(self).tapped == old(self).tapped
                    &&& match first_fired(old(self).detector@, rs@, now) {
                        Some(i) => {
                            &&& s == Step::Fired
                            &&& final(self).detector@ == after_all(
                                old(self).detector@,
                                timed(rs@.take(i + 1), now),
                            )
                        },
                        None => {
                            &&& s == Step::Polled
                            &&& final(self).detector@ == after_all(
                                old(self).detector@,
                                timed(rs@, now),
                            )
                        },
                    }
                },
            },
    {
        let rs = match reports {
            Some(rs) => rs,
            None => {
                self.tapped = false;
                return Step::Idle;
            },
        };
        let ghost before = self.detector@;
        let mut i: usize = 0;
        assert(timed(rs@.take(0), now) =~= Seq::empty());
        while i < rs.len()
            invariant
                i <= rs@.len(),
                before == old(self).detector@,
                self.detector@ == after_all(before, timed(rs@.take(i as int), now)),
                first_fired(before, rs@.take(i as int), now) is None,
                self.busid == old(self).busid,
                self.hotkey == old(self).hotkey,
                self.suspended_at == old(self).suspended_at,
                self.complained_at == old(self).complained_at,
                self.tapped == old(self).tapped,
                reports == Some(rs),
            decreases rs@.len() - i,
        {
            proof {
                assert(rs@.take(i + 1).drop_last() =~= rs@.take(i as int));
                assert(rs@.take(i + 1).last() == rs@[i as int]);
                assert(timed(rs@.take(i + 1), now).drop_last() =~= timed(rs@.take(i as int), now));
                assert(timed(rs@.take(i + 1), now).last() == (rs@[i as int]@, now));
            }
            let v = self.detector.feed(rs[i].as_slice(), now);
            i = i + 1;
            if v.fired {
                proof {
                    lemma_first_fired_stays(before, rs@, now, i as int);
                }
                return Step::Fired;
            }
        }
        assert(rs@.take(i as int) =~= rs@);
        Step::Polled
    }

    /// Whether it is time to say that this device has no way back: once after the
    /// grace period, then occasionally. Staying quiet here would leave a handheld
    /// whose controls came back but whose forward never will, with nothing in the
    /// log to explain it.
    pub fn complain(&mut self, now: u64) -> (due: bool)
        ensures
            due == complaint_due(old(self).suspended_at, old(self).complained_at, now),
            due == (elapsed(old(self).suspended_at, now) >= REBIND_GRACE && (old(
                self,
            ).complained_at matches Some(t) ==> elapsed(t, now) >= NAG)),
            final(self).complained_at == (if due {
                Some(now)
            } else {
                old(self).complained_at
            }),
            final(self).busid == old(self).busid,
            final(self).hotkey == old(self).hotkey,
            final(self).tapped == old(self).tapped,
            final(self).detector == old(self).detector,
            final(self).suspended_at == old(self).suspended_at,
    {
        if now.saturating_sub(self.suspended_at) < REBIND_GRACE {
            return false;
        }
        match self.complained_at {
            Some(t) => {
                if now.saturating_sub(t) < NAG {
                    return false;
                }
            },
            None => {},
        }
        self.complained_at = Some(now);
        true
    }
}

/// The devices being watched.
pub struct Watchers {
    pub watched: Vec<Watched>,
}

/// The place of a device among those watched.
pub open spec fn watched_at(ws: Seq<Watched>, busid: Seq<char>) -> Option<int>
    decreases ws.len(),
{
    if ws.len() == 0 {
        None
    } else if ws.last().busid@ == busid {
        Some(ws.len() - 1)
    } else {
        watched_at(ws.drop_last(), busid)
    }
}

/// Whether `w` is how `busid` goes on being watched: as it was, or from now on.
pub open spec fn goes_on(
    w: Watched,
    before: Seq<Watched>,
    busid: Seq<char>,
    hotkey: Hotkey,
    now: u64,
) -> bool {
    match watched_at(before, busid) {
        Some(i) => w == before[i],
        None => {
            &&& w.busid@ == busid
            &&& w.hotkey == hotkey
            &&& !w.tapped
            &&& w.detector@ == Watching::fresh(hotkey.chord, hotkey.hold)
            &&& w.suspended_at == now
            &&& w.complained_at is None
        },
    }
}

impl Watchers {
    pub fn new() -> (w: Watchers)
        ensures
            w.watched@.len() == 0,
    {
        Watchers { watched: Vec::new() }
    }

    /// Brings the devices being watched in line with those that are suspended, in
    /// the same order: one that is no longer suspended is dropped, one that still is
    /// keeps its state, and a new one starts afresh.
    pub fn sync(&mut self, suspended: &Vec<String>, hotkey: Hotkey, now: u64)
        requires
            forall|i: int, j: int|
                0 <= i < j < suspended@.len() ==> (#[trigger] suspended@[i])@ != (
                #[trigger] suspended@[j])@,
        ensures
            final(self).watched@.len() == suspended@.len(),
            forall|i: int|
                0 <= i < suspended@.len() ==> goes_on(
                    #[trigger] final(self).watched@[i],
                    old(self).watched@,
                    suspended@[i]@,
                    hotkey,
                    now,
                ),
    {
        let mut next: Vec<Watched> = Vec::new();
        let ghost before = self.watched@;
        let mut i: usize = 0;
        while i < suspended.len()
            invariant
                i <= suspended@.len(),
                before == old(self).watched@,
                next@.len() == i,
                forall|a: int, b: int|
                    0 <= a < b < suspended@.len() ==> (#[trigger] suspended@[a])@ != (
                    #[trigger] suspended@[b])@,
                forall|k: int|
                    0 <= k < i ==> goes_on(
                        #[trigger] next@[k],
                        before,
                        suspended@[k]@,
                        hotkey,
                        now,
                    ),
                // what is left has kept the state of every device still to come
                forall|k: int|
                    i <= k < suspended@.len() ==> same_found(
                        self.watched@,
                        before,
                        (#[trigger] suspended@[k])@,
                    ),
            decreases suspended@.len() - i,
        {
            let ghost left = self.watched@;
            let busid = &suspended[i];
            assert(same_found(left, before, suspended@[i as int]@));
            let at: usize = self.find(busid.as_str());
            if at < self.watched.len() {
                let w = self.watched.remove(at);
                next.push(w);
                proof {
                    assert forall|k: int| i + 1 <= k < suspended@.len() implies same_found(
                        self.watched@,
                        before,
                        (#[trigger] suspended@[k])@,
                    ) by {
                        assert(suspended@[i as int]@ != suspended@[k]@);
                        lemma_watched_at(left, suspended@[i as int]@);
                        lemma_found_without(left, at as int, suspended@[k]@);
                    }
                }
            } else {
                next.push(Watched::new(busid.clone(), hotkey, now));
            }
            i = i + 1;
        }
        self.watched = next;
    }

    fn find(&self, busid: &str) -> (at: usize)
        ensures
            match watched_at(self.watched@, busid@) {
                Some(i) => at == i && 0 <= i < self.watched@.len(),
                None => at == self.watched@.len(),
            },
    {
        let mut i: usize = self.watched.len();
        assert(self.watched@.take(i as int) =~= self.watched@);
        while i > 0
            invariant
                i <= self.watched@.len(),
                watched_at(self.watched@, busid@) == watched_at(
                    self.watched@.take(i as int),
                    busid@,
                ),
            decreases i,
        {
            assert(self.watched@.take(i as int).drop_last() =~= self.watched@.take(i - 1));
            if same(self.watched[i - 1].busid.as_str(), busid) {
                return i - 1;
            }
            i = i - 1;
        }
        self.watched.len()
    }
}

/// Whether looking a device up gives the same state in both lists.
spec fn same_found(a: Seq<Watched>, b: Seq<Watched>, busid: Seq<char>) -> bool {
    match (watched_at(a, busid), watched_at(b, busid)) {
        (Some(i), Some(j)) => a[i] == b[j],
        (None, None) => true,
        _ => false,
    }
}

proof fn lemma_watched_at(ws: Seq<Watched>, busid: Seq<char>)
    ensures
        match watched_at(ws, busid) {
            Some(i) => 0 <= i < ws.len() && ws[i].busid@ == busid,
            None => true,
        },
    decreases ws.len(),
{
    if ws.len() > 0 && ws.last().busid@ != busid {
        lemma_watched_at(ws.drop_last(), busid);
    }
}

/// Taking another device out does not change what a lookup finds.
proof fn lemma_found_without(ws: Seq<Watched>, at: int, busid: Seq<char>)
    requires
        0 <= at < ws.len(),
        ws[at].busid@ != busid,
    ensures
        same_found(ws.remove(at), ws, busid),
    decreases ws.len(),
{
    let r = ws.remove(at);
    lemma_watched_at(ws, busid);
    if at == ws.len() - 1 {
        assert(r =~= ws.drop_last());
        lemma_watched_at(r, busid);
    } else {
        assert(r.last() == ws.last());
        if ws.last().busid@ != busid {
            assert(r.drop_last() =~= ws.drop_last().remove(at));
            lemma_found_without(ws.drop_last(), at, busid);
            lemma_watched_at(r.drop_last(), busid);
            lemma_watched_at(ws.drop_last(), busid);
        }
    }
}

// ---------------------------------------------------------------------------
// What the user is told

/// The warning that a suspended device has no way back.
pub fn complaint(busid: &str) -> (s: String)
    ensures
        s@ == "toggle: "@ + busid@
            + " is suspended but has no readable hidraw node, so the chord cannot resume it. Install packaging/99-usbfwd.rules (it grants hidraw access), or send SIGHUP to put it back on offer now."@,
{
    let mut s = String::new();
    s.append("toggle: ");
    s.append(busid);
    s.append(
        " is suspended but has no readable hidraw node, so the chord cannot resume it. Install packaging/99-usbfwd.rules (it grants hidraw access), or send SIGHUP to put it back on offer now.",
    );
    assert(s@ =~= "toggle: "@ + busid@
        + " is suspended but has no readable hidraw node, so the chord cannot resume it. Install packaging/99-usbfwd.rules (it grants hidraw access), or send SIGHUP to put it back on offer now."@);
    s
}

/// What opening the `hidraw` nodes of a device gave.
#[derive(Debug, Clone, PartialEq, Eq)]
pub struct TapAttempt {
    /// How many nodes the device has.
    pub nodes: usize,
    /// How many of them could be opened.
    pub opened: usize,
    /// Why the first that could not be opened could not.
    pub first_error: Option<String>,
}

/// Say at startup whether the chord would be able to undo itself.
///
/// The failure this catches — a missing udev rule for `hidraw` — only shows
/// itself at the worst possible moment otherwise: the chord takes the forward
/// down and nothing brings it back. A device without nodes has no HID interface,
/// or is claimed already, and is passed over.
pub fn preflight(busid: &str, attempt: &TapAttempt) -> (r: Option<String>)
    ensures
        match r {
            None => attempt.nodes == 0 || attempt.opened > 0,
            Some(s) => {
                &&& attempt.nodes > 0
                &&& attempt.opened == 0
                &&& s@ == "toggle: none of "@ + busid@ + "'s "@ + dec(attempt.nodes as nat)
                    + " hidraw node(s) can be read ("@ + (match attempt.first_error {
                    Some(e) => e@,
                    None => "no node could be opened"@,
                })
                    + "), so the chord could suspend it and not resume it. Install packaging/99-usbfwd.rules."@
            },
        },
{
    if attempt.nodes == 0 || attempt.opened > 0 {
        return None;
    }
    let mut s = String::new();
    s.append("toggle: none of ");
    s.append(busid);
    s.append("'s ");
    push_dec(&mut s, attempt.nodes as u64);
    s.append(" hidraw node(s) can be read (");
    match &attempt.first_error {
        Some(e) => s.append(e.as_str()),
        None => s.append("no node could be opened"),
    }
    s.append(
        "), so the chord could suspend it and not resume it. Install packaging/99-usbfwd.rules.",
    );
    assert(s@ =~= "toggle: none of "@ + busid@ + "'s "@ + dec(attempt.nodes as nat)
        + " hidraw node(s) can be read ("@ + (match attempt.first_error {
        Some(e) => e@,
        None => "no node could be opened"@,
    })
        + "), so the chord could suspend it and not resume it. Install packaging/99-usbfwd.rules."@);
    Some(s)
}

/// The bytes in hexadecimal, two digits each.
pub open spec fn hex_bytes(b: Seq<u8>) -> Seq<char>
    decreases b.len(),
{
    if b.len() == 0 {
        seq![]
    } else {
        hex_bytes(b.drop_last()) + hex(b.last() as nat, 2)
    }
}

fn push_hex_bytes(s: &mut String, b: &[u8])
    ensures
        final(s)@ == old(s)@ + hex_bytes(b@),
{
    let mut i: usize = 0;
    assert(b@.take(0) =~= Seq::empty());
    assert(s@ =~= old(s)@ + hex_bytes(b@.take(0)));
    while i < b.len()
        invariant
            i <= b@.len(),
            s@ == old(s)@ + hex_bytes(b@.take(i as int)),
        decreases b@.len() - i,
    {
        push_hex(s, b[i] as u64, 2);
        i = i + 1;
        proof {
            assert(b@.take(i as int).drop_last() =~= b@.take(i - 1));
            assert(b@.take(i as int).last() == b@[i - 1]);
            assert(s@ =~= old(s)@ + hex_bytes(b@.take(i as int)));
        }
    }
    assert(b@.take(i as int) =~= b@);
}

/// `28de:1205`.
pub open spec fn id_text(vid: u16, pid: u16) -> Seq<char> {
    hex(vid as nat, 4) + ":"@ + hex(pid as nat, 4)
}

/// What probing says of a device before it watches it: that it has no node, that
/// none of its nodes can be read, or on which nodes it is watched.
pub fn probe_device(
    busid: &str,
    vid: u16,
    pid: u16,
    nodes: usize,
    opened: &str,
) -> (s: String)
    ensures
        s@ == (if nodes == 0 {
            busid@ + " "@ + id_text(vid, pid)
                + ": no hidraw node — it is claimed by usbfwd right now, or its driver is not bound"@
        } else if opened@.len() == 0 {
            busid@ + ": no readable hidraw node. Install packaging/99-usbfwd.rules."@
        } else {
            busid@ + " "@ + id_text(vid, pid) + ": watching "@ + opened@
        }),
{
    let mut s = String::new();
    s.append(busid);
    if nodes > 0 && opened.is_empty() {
        s.append(": no readable hidraw node. Install packaging/99-usbfwd.rules.");
        assert(s@ =~= busid@ + ": no readable hidraw node. Install packaging/99-usbfwd.rules."@);
        return s;
    }
    s.append(" ");
    push_hex(&mut s, vid as u64, 4);
    s.append(":");
    push_hex(&mut s, pid as u64, 4);
    assert(s@ =~= busid@ + " "@ + id_text(vid, pid));
    if nodes == 0 {
        s.append(
            ": no hidraw node — it is claimed by usbfwd right now, or its driver is not bound",
        );
    } else {
        s.append(": watching ");
        s.append(opened);
    }
    assert(s@ =~= if nodes == 0 {
        busid@ + " "@ + id_text(vid, pid)
            + ": no hidraw node — it is claimed by usbfwd right now, or its driver is not bound"@
    } else {
        busid@ + " "@ + id_text(vid, pid) + ": watching "@ + opened@
    });
    s
}

/// What a report comes to while probing.
#[derive(Debug, Clone, PartialEq, Eq)]
pub enum Probed {
    /// The same buttons as in the report before.
    Unchanged,
    /// Other buttons: print this.
    Buttons(String),
    /// Not a state report: worth this line to someone who wants details.
    Foreign(String),
}

/// The lines that a new combination of buttons is printed as: the device, the raw
/// mask and its names, and the option that makes it the chord.
pub open spec fn probe_text(busid: Seq<char>, mask: u64) -> Seq<char> {
    busid + "  0x"@ + hex(mask as nat, 16) + "  "@ + described(mask)
        + "\n          --toggle-chord '"@ + described(mask) + "'"@
}

/// What a report that is not understood is logged as.
pub open spec fn foreign_text(busid: Seq<char>, report: Seq<u8>) -> Seq<char> {
    busid + ": "@ + dec(report.len()) + " bytes, not a state report: "@ + hex_bytes(report)
}

/// The buttons that each device was last seen with.
pub struct Probe {
    pub busid: String,
    pub last: Option<u64>,
}

impl Probe {
    /// Takes in a report of the device. A mask is printed when it differs from the
    /// one before it.
    pub fn feed(&mut self, report: &[u8]) -> (r: Probed)
        ensures
            final(self).busid == old(self).busid,
            match buttons_in(report@) {
                None => {
                    &&& final(self).last == old(self).last
                    &&& (r matches Probed::Foreign(s) && s@ == foreign_text(
                        old(self).busid@,
                        report@,
                    ))
                },
                Some(mask) => {
                    &&& final(self).last == Some(mask)
                    &&& if old(self).last == Some(mask) {
                        r == Probed::Unchanged
                    } else {
                        r matches Probed::Buttons(s) && s@ == probe_text(old(self).busid@, mask)
                    }
                },
            },
    {
        let mut s = String::new();
        s.append(self.busid.as_str());
        match buttons(report) {
            None => {
                s.append(": ");
                push_dec(&mut s, report.len() as u64);
                s.append(" bytes, not a state report: ");
                push_hex_bytes(&mut s, report);
                assert(s@ =~= foreign_text(self.busid@, report@));
                Probed::Foreign(s)
            },
            Some(mask) => {
                match self.last {
                    Some(m) => {
                        if m == mask {
                            return Probed::Unchanged;
                        }
                    },
                    None => {},
                }
                self.last = Some(mask);
                s.append("  0x");
                push_hex(&mut s, mask, 16);
                s.append("  ");
                let names = describe(mask);
                s.append(names.as_str());
                s.append("\n          --toggle-chord '");
                s.append(names.as_str());
                s.append("'");
                assert(s@ =~= probe_text(self.busid@, mask));
                Probed::Buttons(s)
            },
        }
    }
}

/// Which report takes the device back: the first at which the detector fires, with all
/// that it had seen until that report. What is read after it is not looked at.
pub proof fn lemma_the_first_report_that_fires(
    w: Watching,
    reports: Seq<Vec<u8>>,
    now: u64,
    i: int,
)
    requires
        0 <= i < reports.len(),
    ensures
        first_fired(w, reports, now) == Some(i) <==> {
            &&& after_all(w, timed(reports.take(i), now)).verdict(reports[i]@, now).fired
            &&& forall|j: int|
                0 <= j < i ==> !after_all(w, timed(reports.take(j), now)).verdict(
                    (#[trigger] reports[j])@,
                    now,
                ).fired
        },
        after_all(w, timed(reports.take(0), now)) == w,
        after_all(w, timed(reports.take(i + 1), now)) == after_all(
            w,
            timed(reports.take(i), now),
        ).after(reports[i]@, now),
{
    lemma_first_fired_is_first(w, reports, now);
    assert(timed(reports.take(0), now) =~= Seq::empty());
    let all = timed(reports.take(i + 1), now);
    assert(all.drop_last() =~= timed(reports.take(i), now));
    assert(all.last() == (reports[i]@, now));
    if first_fired(w, reports, now) != Some(i) && after_all(
        w,
        timed(reports.take(i), now),
    ).verdict(reports[i]@, now).fired {
        match first_fired(w, reports, now) {
            Some(k) => {
                if k < i {
                    assert(after_all(w, timed(reports.take(k), now)).verdict(reports[k]@, now).fired);
                }
            },
            None => {},
        }
    }
}

proof fn lemma_first_fired_is_first(w: Watching, reports: Seq<Vec<u8>>, now: u64)
    ensures
        match first_fired(w, reports, now) {
            Some(i) => {
                &&& 0 <= i < reports.len()
                &&& after_all(w, timed(reports.take(i), now)).verdict(reports[i]@, now).fired
                &&& forall|j: int|
                    0 <= j < i ==> !after_all(w, timed(reports.take(j), now)).verdict(
                        (#[trigger] reports[j])@,
                        now,
                    ).fired
            },
            None => forall|j: int|
                0 <= j < reports.len() ==> !after_all(w, timed(reports.take(j), now)).verdict(
                    (#[trigger] reports[j])@,
                    now,
                ).fired,
        },
    decreases reports.len(),
{
    if reports.len() > 0 {
        let init = reports.drop_last();
        let n = init.len() as int;
        lemma_first_fired_is_first(w, init, now);
        assert(reports.take(n) =~= init);
        assert forall|j: int| 0 <= j < n implies init.take(j) == #[trigger] reports.take(j) by {
            assert(init.take(j) =~= reports.take(j));
        }
        assert forall|j: int| 0 <= j < n implies #[trigger] reports[j] == init[j] by {}
        match first_fired(w, init, now) {
            Some(i) => {
                assert(reports[i] == init[i]);
                assert forall|j: int| 0 <= j < i implies !after_all(
                    w,
                    timed(reports.take(j), now),
                ).verdict((#[trigger] reports[j])@, now).fired by {
                    assert(init[j] == reports[j]);
                    assert(init.take(j) == reports.take(j));
                }
                assert(init.take(i) == reports.take(i));
            },
            None => {
                assert forall|j: int| 0 <= j < n implies !after_all(
                    w,
                    timed(reports.take(j), now),
                ).verdict((#[trigger] reports[j])@, now).fired by {
                    assert(init[j] == reports[j]);
                    assert(init.take(j) == reports.take(j));
                }
            },
        }
    }
}

/// A device that goes on being watched keeps all that was known of it, and one that was
/// not watched starts with nothing known.
pub proof fn lemma_watching_goes_on(
    w: Watched,
    before: Seq<Watched>,
    busid: Seq<char>,
    hotkey: Hotkey,
    now: u64,
    i: int,
)
    requires
        goes_on(w, before, busid, hotkey, now),
        0 <= i < before.len(),
        forall|j: int, k: int|
            0 <= j < k < before.len() ==> (#[trigger] before[j]).busid@ != (
            #[trigger] before[k]).busid@,
    ensures
        w.busid@ == busid,
        before[i].busid@ == busid ==> w == before[i],
        (forall|k: int| 0 <= k < before.len() ==> (#[trigger] before[k]).busid@ != busid) ==> {
            &&& w.hotkey == hotkey
            &&& !w.tapped
            &&& w.suspended_at == now
            &&& w.complained_at is None
            &&& w.detector@ == Watching::fresh(hotkey.chord, hotkey.hold)
        },
{
    lemma_watched_at(before, busid);
    lemma_watched_found(before, busid, i);
}

proof fn lemma_watched_found(ws: Seq<Watched>, busid: Seq<char>, i: int)
    requires
        0 <= i < ws.len(),
    ensures
        ws[i].busid@ == busid ==> watched_at(ws, busid) is Some,
    decreases ws.len(),
{
    if ws[i].busid@ == busid && ws.last().busid@ != busid {
        assert(ws.drop_last()[i] == ws[i]);
        lemma_watched_found(ws.drop_last(), busid, i);
    }
}

/// A report that is not understood is shown byte for byte, two digits each, in order.
pub proof fn lemma_reports_are_shown_whole(b: Seq<u8>, i: int)
    requires
        0 <= i < b.len(),
    ensures
        hex_bytes(b).len() == 2 * b.len(),
        digit_value(hex_bytes(b)[2 * i], 16) == Some(b[i] as nat / 16),
        digit_value(hex_bytes(b)[2 * i + 1], 16) == Some(b[i] as nat % 16),
    decreases b.len(),
{
    let init = b.drop_last();
    let less = hex_bytes(init);
    lemma_a_byte_in_hexadecimal(b.last());
    if init.len() > 0 {
        lemma_reports_are_shown_whole(init, if i < init.len() { i } else { 0 });
    }
    let h = hex(b.last() as nat, 2);
    if i == init.len() {
        assert(hex_bytes(b)[2 * i] == h[0]);
        assert(hex_bytes(b)[2 * i + 1] == h[1]);
    } else {
        assert(hex_bytes(b)[2 * i] == less[2 * i]);
        assert(hex_bytes(b)[2 * i + 1] == less[2 * i + 1]);
    }
}

/// A device without a way back is complained of three seconds after it was suspended and
/// not before, and again every thirty seconds: once it has been complained of, it is time
/// again only thirty seconds later.
pub proof fn lemma_complaints_are_spaced(suspended_at: u64, t: u64, now: u64)
    requires
        suspended_at <= t <= now,
    ensures
        complaint_due(suspended_at, None, now) <==> now - suspended_at >= 3_000_000_000,
        complaint_due(suspended_at, None, t) ==> (complaint_due(suspended_at, Some(t), now) <==> now
            - t >= 30_000_000_000),
{
}

} // verus!
