//! Reading a device's HID reports *without* taking it away from anyone.
//!
//! This exists for one job: watching for the toggle chord while the device is
//! **not** being forwarded. While a session is live the exporter owns every
//! interface and sees each input report go past on its way to the socket, so
//! there is nothing to discover here. Once it lets go, the kernel rebinds its
//! own driver and the only way back in is the `hidraw` node that driver
//! creates.
//!
//! `hidraw` is the right seam for that because it is not exclusive: every open
//! descriptor gets a copy of each report, so a Steam client on this machine
//! keeps working while the watcher reads along. Nothing here claims, evicts or
//! writes anything.
use crate::backend::enumerate::{is_valid_busid, valid_busid, SummaryError};
use crate::backend::Wake;
use crate::errno::{
    eintr, pollerr, pollhup, pollin, pollnval, pollout, EINTR, POLLERR, POLLHUP, POLLIN, POLLNVAL,
    POLLOUT,
};
use crate::text::{
    begins_with, chars, comes_before, has_prefix, lemma_order_is_strict, lemma_order_is_transitive,
    precedes, same, strings,
};
use vstd::prelude::*;
use vstd::string::*;

verus! {

/// Largest HID report worth reading in one go. Valve's are 64 bytes; the
/// ceiling only exists so a misbehaving device cannot size an allocation.
pub const MAX_REPORT: usize = 256;

// ---------------------------------------------------------------------------
// Finding the nodes

/// A directory entry and, for a directory, what is in it.
#[derive(Debug)]
pub struct DirEntry {
    pub name: String,
    pub entries: Vec<DirEntry>,
}

/// How many entries at the head of a sorted list come no later than `d`.
pub open spec fn name_slot(list: Seq<DirEntry>, d: DirEntry) -> int
    decreases list.len(),
{
    if list.len() == 0 || comes_before(d.name@, list[0].name@) {
        0
    } else {
        1 + name_slot(list.drop_first(), d)
    }
}

/// The entries of a directory sorted by name.
pub open spec fn by_name(entries: Seq<DirEntry>) -> Seq<DirEntry>
    decreases entries.len(),
{
    if entries.len() == 0 {
        seq![]
    } else {
        let rest = by_name(entries.drop_last());
        rest.insert(name_slot(rest, entries.last()), entries.last())
    }
}

proof fn lemma_name_slot_is(list: Seq<DirEntry>, d: DirEntry, k: int)
    requires
        0 <= k <= list.len(),
        k < list.len() ==> comes_before(d.name@, list[k].name@),
        forall|i: int| 0 <= i < k ==> !comes_before(d.name@, (#[trigger] list[i]).name@),
    ensures
        name_slot(list, d) == k,
    decreases list.len(),
{
    if k > 0 {
        assert(!comes_before(d.name@, list[0].name@));
        let t = list.drop_first();
        assert forall|i: int| 0 <= i < k - 1 implies !comes_before(
            d.name@,
            (#[trigger] t[i]).name@,
        ) by {
            assert(t[i] == list[i + 1]);
        }
        lemma_name_slot_is(t, d, k - 1);
    }
}

/// The entries that a list of references points at.
pub open spec fn pointed_at(refs: Seq<&DirEntry>) -> Seq<DirEntry> {
    refs.map_values(|e: &DirEntry| *e)
}

fn sorted(entries: &Vec<DirEntry>) -> (r: Vec<&DirEntry>)
    ensures
        pointed_at(r@) == by_name(entries@),
{
    let mut out: Vec<&DirEntry> = Vec::new();
    let mut i: usize = 0;
    assert(entries@.take(0) =~= Seq::empty());
    assert(pointed_at(out@) =~= Seq::empty());
    while i < entries.len()
        invariant
            i <= entries@.len(),
            pointed_at(out@) == by_name(entries@.take(i as int)),
        decreases entries@.len() - i,
    {
        let d = &entries[i];
        let name = chars(&d.name);
        let ghost had = pointed_at(out@);
        let mut k: usize = 0;
        while k < out.len() && !precedes(&name, &chars(&out[k].name))
            invariant
                k <= out@.len(),
                name@ == d.name@,
                had == pointed_at(out@),
                forall|j: int| 0 <= j < k ==> !comes_before(d.name@, (#[trigger] had[j]).name@),
            decreases out@.len() - k,
        {
            k = k + 1;
        }
        proof {
            assert(k < out@.len() ==> had[k as int] == *out@[k as int]);
            lemma_name_slot_is(had, *d, k as int);
            assert(entries@.take(i + 1).drop_last() =~= entries@.take(i as int));
            assert(entries@.take(i + 1).last() == *d);
        }
        out.insert(k, d);
        assert(pointed_at(out@) =~= had.insert(k as int, *d));
        i = i + 1;
    }
    assert(entries@.take(i as int) =~= entries@);
    out
}

/// The nodes among the entries of a `hidraw` directory.
pub open spec fn nodes_of(entries: Seq<DirEntry>) -> Seq<Seq<char>>
    decreases entries.len(),
{
    if entries.len() == 0 {
        seq![]
    } else {
        let rest = nodes_of(entries.drop_last());
        if begins_with(entries.last().name@, "hidraw"@) {
            rest.push("/dev/"@ + entries.last().name@)
        } else {
            rest
        }
    }
}

/// What is in the directory with that name, if there is one.
pub open spec fn inside(entries: Seq<DirEntry>, name: Seq<char>) -> Seq<DirEntry>
    decreases entries.len(),
{
    if entries.len() == 0 {
        seq![]
    } else if entries[0].name@ == name {
        entries[0].entries@
    } else {
        inside(entries.drop_first(), name)
    }
}

/// The nodes under the HID devices of an interface, in order.
pub open spec fn nodes_under_hids(hids: Seq<DirEntry>) -> Seq<Seq<char>>
    decreases hids.len(),
{
    if hids.len() == 0 {
        seq![]
    } else {
        nodes_under_hids(hids.drop_last()) + nodes_of(
            by_name(inside(hids.last().entries@, "hidraw"@)),
        )
    }
}

/// The nodes under the interfaces of a device, which are the entries whose names
/// begin with the bus id and a colon, in order.
pub open spec fn nodes_under_interfaces(entries: Seq<DirEntry>, busid: Seq<char>) -> Seq<Seq<char>>
    decreases entries.len(),
{
    if entries.len() == 0 {
        seq![]
    } else {
        let rest = nodes_under_interfaces(entries.drop_last(), busid);
        if begins_with(entries.last().name@, busid + ":"@) {
            rest + nodes_under_hids(by_name(entries.last().entries@))
        } else {
            rest
        }
    }
}

fn push_nodes(out: &mut Vec<String>, dir: &Vec<DirEntry>)
    ensures
        strings(final(out)@) == strings(old(out)@) + nodes_of(by_name(dir@)),
{
    let nodes = sorted(dir);
    let ghost all = by_name(dir@);
    let prefix = chars("hidraw");
    let mut i: usize = 0;
    assert(all.take(0) =~= Seq::empty());
    assert(strings(out@) =~= strings(old(out)@) + nodes_of(all.take(0)));
    while i < nodes.len()
        invariant
            i <= nodes@.len(),
            all == pointed_at(nodes@),
            prefix@ == "hidraw"@,
            strings(out@) == strings(old(out)@) + nodes_of(all.take(i as int)),
        decreases nodes@.len() - i,
    {
        let n = nodes[i];
        proof {
            assert(all.take(i + 1).drop_last() =~= all.take(i as int));
            assert(all.take(i + 1).last() == *n);
        }
        let ghost had = strings(out@);
        if has_prefix(&chars(&n.name), &prefix) {
            let mut path = String::new();
            path.append("/dev/");
            path.append(&n.name);
            assert(path@ =~= "/dev/"@ + n.name@);
            out.push(path);
            assert(strings(out@) =~= had.push(path@));
            assert(strings(out@) =~= strings(old(out)@) + nodes_of(all.take(i + 1)));
        }
        i = i + 1;
    }
    assert(all.take(i as int) =~= all);
}

fn push_hid_nodes(out: &mut Vec<String>, hid: &DirEntry)
    ensures
        strings(final(out)@) == strings(old(out)@) + nodes_of(
            by_name(inside(hid.entries@, "hidraw"@)),
        ),
{
    let mut i: usize = 0;
    assert(hid.entries@.skip(0) =~= hid.entries@);
    while i < hid.entries.len()
        invariant
            i <= hid.entries@.len(),
            out@ == old(out)@,
            inside(hid.entries@, "hidraw"@) == inside(hid.entries@.skip(i as int), "hidraw"@),
        decreases hid.entries@.len() - i,
    {
        if same(&hid.entries[i].name, "hidraw") {
            push_nodes(out, &hid.entries[i].entries);
            return;
        }
        assert(hid.entries@.skip(i as int).drop_first() =~= hid.entries@.skip(i + 1));
        i = i + 1;
    }
    assert(by_name(inside(hid.entries@, "hidraw"@)) =~= Seq::empty());
    assert(strings(out@) =~= strings(old(out)@) + nodes_of(
        by_name(inside(hid.entries@, "hidraw"@)),
    ));
}

fn push_interface_nodes(out: &mut Vec<String>, iface: &DirEntry)
    ensures
        strings(final(out)@) == strings(old(out)@) + nodes_under_hids(by_name(iface.entries@)),
{
    let hids = sorted(&iface.entries);
    let ghost all = by_name(iface.entries@);
    let mut i: usize = 0;
    assert(all.take(0) =~= Seq::empty());
    assert(strings(out@) =~= strings(old(out)@) + nodes_under_hids(all.take(0)));
    while i < hids.len()
        invariant
            i <= hids@.len(),
            all == pointed_at(hids@),
            strings(out@) == strings(old(out)@) + nodes_under_hids(all.take(i as int)),
        decreases hids@.len() - i,
    {
        proof {
            assert(all.take(i + 1).drop_last() =~= all.take(i as int));
            assert(all.take(i + 1).last() == *hids@[i as int]);
        }
        push_hid_nodes(out, hids[i]);
        i = i + 1;
        assert(strings(out@) =~= strings(old(out)@) + nodes_under_hids(all.take(i as int)));
    }
    assert(all.take(i as int) =~= all);
}

/// Every `/dev/hidrawN` belonging to one USB device, in sysfs order, out of what
/// is in its sysfs directory:
/// `3-3/3-3:1.2/0003:28DE:1205.0003/hidraw/hidraw3`.
///
/// A Steam Deck's own controls present several HID interfaces — keyboard,
/// mouse and the vendor one that carries the button state — so this returns a
/// list and the caller watches all of them. Sorting out which is which is the
/// decoder's job, not this one's: a report that does not parse is simply not a
/// chord.
pub fn nodes_for_busid(busid: &str, device: &Vec<DirEntry>) -> (r: Result<Vec<String>, SummaryError>)
    ensures
        match r {
            Ok(v) => valid_busid(busid@) && strings(v@) == nodes_under_interfaces(
                by_name(device@),
                busid@,
            ),
            Err(e) => !valid_busid(busid@) && (e matches SummaryError::BadBusid { busid: b } && b@
                == busid@),
        },
{
    if !is_valid_busid(busid) {
        return Err(SummaryError::BadBusid { busid: busid.to_owned() });
    }
    let mut prefix = String::new();
    prefix.append(busid);
    prefix.append(":");
    assert(prefix@ =~= busid@ + ":"@);
    let prefix = chars(&prefix);
    let ifaces = sorted(device);
    let ghost all = by_name(device@);
    let mut out: Vec<String> = Vec::new();
    let mut i: usize = 0;
    assert(all.take(0) =~= Seq::empty());
    assert(strings(out@) =~= Seq::empty());
    while i < ifaces.len()
        invariant
            i <= ifaces@.len(),
            all == pointed_at(ifaces@),
            prefix@ == busid@ + ":"@,
            strings(out@) == nodes_under_interfaces(all.take(i as int), busid@),
        decreases ifaces@.len() - i,
    {
        proof {
            assert(all.take(i + 1).drop_last() =~= all.take(i as int));
            assert(all.take(i + 1).last() == *ifaces@[i as int]);
        }
        if has_prefix(&chars(&ifaces[i].name), &prefix) {
            push_interface_nodes(&mut out, ifaces[i]);
        }
        i = i + 1;
    }
    assert(all.take(i as int) =~= all);
    Ok(out)
}

// ---------------------------------------------------------------------------
// Polling

/// Whether any of the bits of `flags` is set.
pub open spec fn any_set(revents: i16, flags: i16) -> bool {
    revents & flags != 0
}

/// A descriptor that will never be ready again.
pub open spec fn hung_up(revents: i16) -> bool {
    any_set(revents, POLLERR) || any_set(revents, POLLHUP) || any_set(revents, POLLNVAL)
}

fn is_hung_up(revents: i16) -> (r: bool)
    ensures
        r == hung_up(revents),
{
    revents & pollerr() != 0 || revents & pollhup() != 0 || revents & pollnval() != 0
}

/// What a wake-up on a usbfs descriptor means. usbfs reports completed URBs as
/// `POLLOUT`, not `POLLIN` — the file is "writable" in the sense that there is
/// something to collect.
pub fn wake_of(revents: i16) -> (w: Wake)
    ensures
        w.ready == any_set(revents, POLLOUT),
        w.gone == hung_up(revents),
{
    Wake { ready: revents & pollout() != 0, gone: is_hung_up(revents) }
}

/// What to do after `poll` returned.
#[derive(Debug, Clone, Copy, PartialEq, Eq, Structural)]
pub enum PollStep {
    /// Something happened on a descriptor.
    Ready,
    /// Nothing happened in time.
    TimedOut,
    /// A signal interrupted the wait and time is left.
    Again,
    /// The wait failed for good.
    Fail,
}

/// What a return of `poll` means.
pub open spec fn poll_result(rc: i32, errno: i32, past_deadline: bool) -> PollStep {
    if rc < 0 {
        if errno != EINTR {
            PollStep::Fail
        } else if past_deadline {
            PollStep::TimedOut
        } else {
            PollStep::Again
        }
    } else if rc == 0 {
        PollStep::TimedOut
    } else {
        PollStep::Ready
    }
}

/// `rc` is what `poll` returned, `errno` the error if that is negative.
pub fn after_poll(rc: i32, errno: i32, past_deadline: bool) -> (s: PollStep)
    ensures
        s == poll_result(rc, errno, past_deadline),
        s == (if rc < 0 {
            if errno != EINTR {
                PollStep::Fail
            } else if past_deadline {
                PollStep::TimedOut
            } else {
                PollStep::Again
            }
        } else if rc == 0 {
            PollStep::TimedOut
        } else {
            PollStep::Ready
        }),
{
    if rc < 0 {
        if errno != eintr() {
            PollStep::Fail
        } else if past_deadline {
            PollStep::TimedOut
        } else {
            PollStep::Again
        }
    } else if rc == 0 {
        PollStep::TimedOut
    } else {
        PollStep::Ready
    }
}

/// The timeout to hand to `poll` for so many milliseconds that are left.
pub fn poll_timeout(left_ms: u128) -> (ms: i32)
    ensures
        ms == (if left_ms <= i32::MAX {
            left_ms as int
        } else {
            i32::MAX as int
        }),
{
    if left_ms <= i32::MAX as u128 {
        left_ms as i32
    } else {
        i32::MAX
    }
}

/// What one read of a node gave.
#[derive(Debug, Clone, PartialEq, Eq)]
pub enum ReadOutcome {
    Report(Vec<u8>),
    WouldBlock,
    Interrupted,
    Failed,
}

/// What is to be done next to collect the reports behind one wake-up.
#[derive(Debug, Clone, Copy, PartialEq, Eq, Structural)]
pub enum TapStep {
    /// Read the node with this number.
    Read(usize),
    /// Every report has been collected.
    Done,
    /// A node reported an error or hangup — the device was unplugged, or its
    /// driver rebound — and the tap has to be rebuilt.
    Gone,
}

/// The reports that have been collected behind one wake-up. The nodes that are
/// ready are drained one after another: several reports can be queued behind one
/// wake-up, and the chord detector needs each of them in order.
pub struct TapRead {
    revents: Vec<i16>,
    at: usize,
    gone: bool,
    reports: Vec<Vec<u8>>,
}

/// The first node from `at` on that is not quiet.
pub open spec fn next_node(revents: Seq<i16>, at: int) -> int
    decreases revents.len() - at,
{
    if at < 0 || at >= revents.len() || hung_up(revents[at]) || any_set(revents[at], POLLIN) {
        at
    } else {
        next_node(revents, at + 1)
    }
}

impl TapRead {
    /// What `poll` reported of each node.
    pub closed spec fn revents(&self) -> Seq<i16> {
        self.revents@
    }

    /// The node that is being drained.
    pub closed spec fn at(&self) -> int {
        self.at as int
    }

    pub closed spec fn gone(&self) -> bool {
        self.gone
    }

    pub closed spec fn reports(&self) -> Seq<Vec<u8>> {
        self.reports@
    }

    pub open spec fn wf(&self) -> bool {
        0 <= self.at() <= self.revents().len()
    }

    /// A tap with no nodes reports itself gone rather than blocking.
    pub fn new(revents: Vec<i16>) -> (t: TapRead)
        ensures
            t.wf(),
            t.revents() == revents@,
            t.at() == 0,
            t.gone() == (revents@.len() == 0),
            t.reports() == Seq::<Vec<u8>>::empty(),
    {
        let gone = revents.len() == 0;
        TapRead { revents, at: 0, gone, reports: Vec::new() }
    }

    /// What the state asks for next.
    pub open spec fn step(&self) -> TapStep {
        let at = next_node(self.revents(), self.at());
        if self.gone() {
            TapStep::Gone
        } else if at >= self.revents().len() {
            TapStep::Done
        } else if hung_up(self.revents()[at]) {
            TapStep::Gone
        } else {
            TapStep::Read(at as usize)
        }
    }

    pub fn next(&mut self) -> (s: TapStep)
        requires
            old(self).wf(),
        ensures
            s == old(self).step(),
            final(self).wf(),
            final(self).revents() == old(self).revents(),
            final(self).reports() == old(self).reports(),
            final(self).gone() == (s is Gone),
            s matches TapStep::Read(i) ==> final(self).at() == i && i < final(self).revents().len(),
    {
        if self.gone {
            return TapStep::Gone;
        }
        while self.at < self.revents.len()
            invariant
                self.wf(),
                !self.gone(),
                !old(self).gone(),
                self.revents() == old(self).revents(),
                self.reports() == old(self).reports(),
                next_node(old(self).revents(), old(self).at()) == next_node(
                    self.revents(),
                    self.at(),
                ),
            decreases self.revents@.len() - self.at,
        {
            let e: i16 = self.revents[self.at];
            if is_hung_up(e) {
                self.gone = true;
                return TapStep::Gone;
            }
            if e & pollin() != 0 {
                return TapStep::Read(self.at);
            }
            self.at = self.at + 1;
        }
        TapStep::Done
    }

    /// Takes in what reading the node gave. An empty report or an empty queue ends
    /// the node; any error but an interruption means that the node went away.
    pub fn feed(&mut self, outcome: ReadOutcome)
        requires
            old(self).wf(),
            old(self).at() < old(self).revents().len(),
        ensures
            final(self).wf(),
            final(self).revents() == old(self).revents(),
            match outcome {
                ReadOutcome::Report(b) if b@.len() > 0 => {
                    &&& final(self).reports() == old(self).reports().push(b)
                    &&& final(self).at() == old(self).at()
                    &&& final(self).gone() == old(self).gone()
                },
                ReadOutcome::Report(_) | ReadOutcome::WouldBlock => {
                    &&& final(self).reports() == old(self).reports()
                    &&& final(self).at() == old(self).at() + 1
                    &&& final(self).gone() == old(self).gone()
                },
                ReadOutcome::Interrupted => *final(self) == *old(self),
                ReadOutcome::Failed => {
                    &&& final(self).reports() == old(self).reports()
                    &&& final(self).at() == old(self).at()
                    &&& final(self).gone()
                },
            },
    {
        assert(self.at < self.revents.len());
        match outcome {
            ReadOutcome::Report(b) => {
                if b.len() > 0 {
                    self.reports.push(b);
                } else {
                    self.at = self.at + 1;
                }
            },
            ReadOutcome::WouldBlock => {
                self.at = self.at + 1;
            },
            ReadOutcome::Interrupted => {},
            ReadOutcome::Failed => {
                self.gone = true;
            },
        }
    }

    /// Every report, in the order in which it was read; nothing if the tap is gone.
    pub fn finish(self) -> (r: Option<Vec<Vec<u8>>>)
        ensures
            match r {
                Some(v) => !self.gone() && v@ == self.reports(),
                None => self.gone(),
            },
    {
        if self.gone {
            None
        } else {
            Some(self.reports)
        }
    }
}

// ---------------------------------------------------------------------------
// Laws

/// Entries are sorted by their names, and none is lost, added or changed.
pub proof fn lemma_entries_are_sorted(entries: Seq<DirEntry>)
    ensures
        by_name(entries).to_multiset() == entries.to_multiset(),
        forall|i: int, j: int|
            0 <= i < j < by_name(entries).len() ==> !comes_before(
                (#[trigger] by_name(entries)[j]).name@,
                (#[trigger] by_name(entries)[i]).name@,
            ),
    decreases entries.len(),
{
    broadcast use vstd::seq_lib::group_to_multiset_ensures;

    if entries.len() == 0 {
        assert(by_name(entries) =~= entries);
    } else {
        let init = entries.drop_last();
        let d = entries.last();
        let rest = by_name(init);
        lemma_entries_are_sorted(init);
        lemma_slot(rest, d);
        let k = name_slot(rest, d);
        let out = by_name(entries);
        assert(out == rest.insert(k, d));
        assert(entries =~= init.push(d));
        vstd::seq_lib::to_multiset_insert(rest, k, d);
        assert forall|i: int, j: int| 0 <= i < j < out.len() implies !comes_before(
            (#[trigger] out[j]).name@,
            (#[trigger] out[i]).name@,
        ) by {
            if i < k {
                assert(out[i] == rest[i]);
                if j < k {
                    assert(out[j] == rest[j]);
                } else if j > k {
                    assert(out[j] == rest[j - 1]);
                }
            } else {
                assert(out[j] == rest[j - 1]);
                if i > k {
                    assert(out[i] == rest[i - 1]);
                } else {
                    assert(comes_before(d.name@, rest[k].name@));
                    lemma_order_is_strict(d.name@, rest[k].name@);
                    if comes_before(rest[j - 1].name@, d.name@) {
                        if j - 1 > k {
                            lemma_order_is_transitive(rest[j - 1].name@, d.name@, rest[k].name@);
                        }
                    }
                }
            }
        }
    }
}

proof fn lemma_slot(list: Seq<DirEntry>, d: DirEntry)
    ensures
        0 <= name_slot(list, d) <= list.len(),
        forall|i: int|
            0 <= i < name_slot(list, d) ==> !comes_before(d.name@, (#[trigger] list[i]).name@),
        name_slot(list, d) < list.len() ==> comes_before(d.name@, list[name_slot(list, d)].name@),
    decreases list.len(),
{
    if list.len() > 0 && !comes_before(d.name@, list[0].name@) {
        let t = list.drop_first();
        lemma_slot(t, d);
        assert forall|i: int| 0 <= i < name_slot(list, d) implies !comes_before(
            d.name@,
            (#[trigger] list[i]).name@,
        ) by {
            if i > 0 {
                assert(list[i] == t[i - 1]);
            }
        }
    }
}

/// Whether a path is the node of an entry whose name begins with `hidraw`, in the
/// directory `hidraw` of a HID device.
pub open spec fn is_node_of(hid: DirEntry, path: Seq<char>) -> bool {
    exists|k: int|
        0 <= k < inside(hid.entries@, "hidraw"@).len() && begins_with(
            (#[trigger] inside(hid.entries@, "hidraw"@)[k]).name@,
            "hidraw"@,
        ) && path == "/dev/"@ + inside(hid.entries@, "hidraw"@)[k].name@
}

/// Whether a path is such a node somewhere below a device: below an interface, whose name
/// begins with the bus id and a colon.
pub open spec fn is_node_below(device: Seq<DirEntry>, busid: Seq<char>, path: Seq<char>) -> bool {
    exists|i: int, j: int|
        0 <= i < device.len() && begins_with(device[i].name@, busid + ":"@) && 0 <= j
            < device[i].entries@.len() && is_node_of(#[trigger] device[i].entries@[j], path)
}

/// Every node below an interface of the device is found, and nothing else.
pub proof fn lemma_every_node_is_found(device: Seq<DirEntry>, busid: Seq<char>, path: Seq<char>)
    ensures
        nodes_under_interfaces(by_name(device), busid).contains(path) <==> is_node_below(
            device,
            busid,
            path,
        ),
{
    let sorted = by_name(device);
    lemma_same_entries(device);
    lemma_under_interfaces(sorted, busid, path);
    if nodes_under_interfaces(sorted, busid).contains(path) {
        let i = choose|i: int|
            0 <= i < sorted.len() && begins_with((#[trigger] sorted[i]).name@, busid + ":"@)
                && nodes_under_hids(by_name(sorted[i].entries@)).contains(path);
        let e = sorted[i];
        assert(device.contains(e));
        let p = choose|p: int| 0 <= p < device.len() && device[p] == e;
        lemma_same_entries(e.entries@);
        lemma_under_hids(by_name(e.entries@), path);
        let q = choose|q: int|
            0 <= q < by_name(e.entries@).len() && nodes_of(
                by_name(inside((#[trigger] by_name(e.entries@)[q]).entries@, "hidraw"@)),
            ).contains(path);
        let hid = by_name(e.entries@)[q];
        assert(e.entries@.contains(hid));
        let j = choose|j: int| 0 <= j < e.entries@.len() && e.entries@[j] == hid;
        let nodes = inside(hid.entries@, "hidraw"@);
        lemma_same_entries(nodes);
        lemma_nodes_among(by_name(nodes), path);
        let m = choose|m: int|
            0 <= m < by_name(nodes).len() && begins_with(
                (#[trigger] by_name(nodes)[m]).name@,
                "hidraw"@,
            ) && path == "/dev/"@ + by_name(nodes)[m].name@;
        assert(nodes.contains(by_name(nodes)[m]));
        let k = choose|k: int| 0 <= k < nodes.len() && nodes[k] == by_name(nodes)[m];
        assert(inside(hid.entries@, "hidraw"@)[k] == nodes[k]);
        assert(is_node_of(device[p].entries@[j], path));
    }
    if is_node_below(device, busid, path) {
        let (i, j) = choose|i: int, j: int|
            0 <= i < device.len() && begins_with(device[i].name@, busid + ":"@) && 0 <= j
                < device[i].entries@.len() && is_node_of(#[trigger] device[i].entries@[j], path);
        let e = device[i];
        let hid = e.entries@[j];
        let nodes = inside(hid.entries@, "hidraw"@);
        let k = choose|k: int|
            0 <= k < inside(hid.entries@, "hidraw"@).len() && begins_with(
                (#[trigger] inside(hid.entries@, "hidraw"@)[k]).name@,
                "hidraw"@,
            ) && path == "/dev/"@ + inside(hid.entries@, "hidraw"@)[k].name@;
        lemma_same_entries(nodes);
        lemma_nodes_among(by_name(nodes), path);
        assert(nodes.contains(nodes[k]));
        assert(by_name(nodes).contains(nodes[k]));
        let m = choose|m: int| 0 <= m < by_name(nodes).len() && by_name(nodes)[m] == nodes[k];
        assert(begins_with(by_name(nodes)[m].name@, "hidraw"@));
        lemma_same_entries(e.entries@);
        lemma_under_hids(by_name(e.entries@), path);
        assert(e.entries@.contains(hid));
        assert(by_name(e.entries@).contains(hid));
        let q = choose|q: int|
            0 <= q < by_name(e.entries@).len() && by_name(e.entries@)[q] == hid;
        assert(nodes_of(by_name(inside(by_name(e.entries@)[q].entries@, "hidraw"@))).contains(path));
        assert(device.contains(e));
        assert(sorted.contains(e));
        let p = choose|p: int| 0 <= p < sorted.len() && sorted[p] == e;
        assert(begins_with(sorted[p].name@, busid + ":"@));
    }
}

proof fn lemma_same_entries(entries: Seq<DirEntry>)
    ensures
        forall|d: DirEntry| #[trigger] by_name(entries).contains(d) <==> entries.contains(d),
        forall|i: int|
            0 <= i < by_name(entries).len() ==> entries.contains(#[trigger] by_name(entries)[i]),
{
    broadcast use vstd::seq_lib::group_to_multiset_ensures;

    lemma_entries_are_sorted(entries);
    assert forall|d: DirEntry| #[trigger] by_name(entries).contains(d) <==> entries.contains(
        d,
    ) by {
        assert(by_name(entries).contains(d) <==> by_name(entries).to_multiset().count(d) > 0);
        assert(entries.contains(d) <==> entries.to_multiset().count(d) > 0);
    }
    assert forall|i: int| 0 <= i < by_name(entries).len() implies entries.contains(
        #[trigger] by_name(entries)[i],
    ) by {
        assert(by_name(entries).contains(by_name(entries)[i]));
    }
}

proof fn lemma_joined(a: Seq<Seq<char>>, b: Seq<Seq<char>>, x: Seq<char>)
    ensures
        (a + b).contains(x) <==> a.contains(x) || b.contains(x),
{
    let s = a + b;
    if a.contains(x) {
        let k = choose|k: int| 0 <= k < a.len() && a[k] == x;
        assert(s[k] == x);
    }
    if b.contains(x) {
        let k = choose|k: int| 0 <= k < b.len() && b[k] == x;
        assert(s[a.len() + k] == x);
    }
    if s.contains(x) {
        let k = choose|k: int| 0 <= k < s.len() && s[k] == x;
        if k < a.len() {
            assert(a[k] == x);
        } else {
            assert(b[k - a.len()] == x);
        }
    }
}

proof fn lemma_nodes_among(entries: Seq<DirEntry>, path: Seq<char>)
    ensures
        nodes_of(entries).contains(path) <==> exists|m: int|
            0 <= m < entries.len() && begins_with((#[trigger] entries[m]).name@, "hidraw"@) && path
                == "/dev/"@ + entries[m].name@,
    decreases entries.len(),
{
    if entries.len() > 0 {
        let init = entries.drop_last();
        let last = entries.last();
        lemma_nodes_among(init, path);
        let one = seq!["/dev/"@ + last.name@];
        lemma_joined(nodes_of(init), one, path);
        assert(nodes_of(init).push("/dev/"@ + last.name@) =~= nodes_of(init) + one);
        assert(one[0] == "/dev/"@ + last.name@);
        assert(entries[entries.len() - 1] == last);
        assert forall|m: int| 0 <= m < init.len() implies #[trigger] entries[m] == init[m] by {}
        if nodes_of(init).contains(path) {
            let m = choose|m: int|
                0 <= m < init.len() && begins_with((#[trigger] init[m]).name@, "hidraw"@) && path
                    == "/dev/"@ + init[m].name@;
            assert(entries[m] == init[m]);
        }
    }
}

proof fn lemma_under_hids(hids: Seq<DirEntry>, path: Seq<char>)
    ensures
        nodes_under_hids(hids).contains(path) <==> exists|q: int|
            0 <= q < hids.len() && nodes_of(
                by_name(inside((#[trigger] hids[q]).entries@, "hidraw"@)),
            ).contains(path),
    decreases hids.len(),
{
    if hids.len() > 0 {
        let init = hids.drop_last();
        let last = hids.last();
        lemma_under_hids(init, path);
        lemma_joined(
            nodes_under_hids(init),
            nodes_of(by_name(inside(last.entries@, "hidraw"@))),
            path,
        );
        assert(hids[hids.len() - 1] == last);
        if nodes_under_hids(init).contains(path) {
            let q = choose|q: int|
                0 <= q < init.len() && nodes_of(
                    by_name(inside((#[trigger] init[q]).entries@, "hidraw"@)),
                ).contains(path);
            assert(hids[q] == init[q]);
        }
        assert forall|q: int| 0 <= q < init.len() implies #[trigger] hids[q] == init[q] by {}
    }
}

proof fn lemma_under_interfaces(entries: Seq<DirEntry>, busid: Seq<char>, path: Seq<char>)
    ensures
        nodes_under_interfaces(entries, busid).contains(path) <==> exists|i: int|
            0 <= i < entries.len() && begins_with((#[trigger] entries[i]).name@, busid + ":"@)
                && nodes_under_hids(by_name(entries[i].entries@)).contains(path),
    decreases entries.len(),
{
    if entries.len() > 0 {
        let init = entries.drop_last();
        let last = entries.last();
        lemma_under_interfaces(init, busid, path);
        lemma_joined(
            nodes_under_interfaces(init, busid),
            nodes_under_hids(by_name(last.entries@)),
            path,
        );
        assert(entries[entries.len() - 1] == last);
        if nodes_under_interfaces(init, busid).contains(path) {
            let i = choose|i: int|
                0 <= i < init.len() && begins_with((#[trigger] init[i]).name@, busid + ":"@)
                    && nodes_under_hids(by_name(init[i].entries@)).contains(path);
            assert(entries[i] == init[i]);
        }
        assert forall|i: int| 0 <= i < init.len() implies #[trigger] entries[i] == init[i] by {}
    }
}

/// What is in a directory of a directory is what is in the first entry of its name.
pub proof fn lemma_what_is_inside(entries: Seq<DirEntry>, name: Seq<char>, i: int)
    requires
        0 <= i < entries.len(),
        entries[i].name@ == name,
        forall|k: int| 0 <= k < i ==> (#[trigger] entries[k]).name@ != name,
    ensures
        inside(entries, name) == entries[i].entries@,
    decreases entries.len(),
{
    if i > 0 {
        let rest = entries.drop_first();
        assert(entries[0].name@ != name);
        assert forall|k: int| 0 <= k < i - 1 implies (#[trigger] rest[k]).name@ != name by {
            assert(rest[k] == entries[k + 1]);
        }
        lemma_what_is_inside(rest, name, i - 1);
    }
}

/// No node that is ready is passed over, and none is read that is not: what is done next
/// is decided by the first node, from the one that is being drained on, of which `poll`
/// reported anything; bit zero is a report, and bits three to five are the end of the tap.
pub proof fn lemma_no_report_is_passed_over(t: TapRead, k: int)
    requires
        t.wf(),
        !t.gone(),
        t.at() <= k < t.revents().len(),
        t.revents().len() <= usize::MAX,
    ensures
        match t.step() {
            TapStep::Read(i) => {
                &&& t.at() <= i < t.revents().len()
                &&& t.revents()[i as int] & 0x01 != 0
                &&& t.revents()[i as int] & 0x38 == 0
                &&& k < i ==> t.revents()[k] & 0x39 == 0
            },
            TapStep::Done => t.revents()[k] & 0x39 == 0,
            TapStep::Gone => exists|g: int|
                t.at() <= g < t.revents().len() && #[trigger] t.revents()[g] & 0x38 != 0 && (k < g
                    ==> t.revents()[k] & 0x39 == 0),
        },
{
    let n = next_node(t.revents(), t.at());
    lemma_next_node(t.revents(), t.at());
    lemma_poll_bits(t.revents()[k]);
    if n < t.revents().len() {
        lemma_poll_bits(t.revents()[n]);
        if hung_up(t.revents()[n]) {
            assert(t.revents()[n] & 0x38 != 0);
        }
    }
}

proof fn lemma_next_node(revents: Seq<i16>, at: int)
    requires
        0 <= at <= revents.len(),
    ensures
        at <= next_node(revents, at) <= revents.len(),
        next_node(revents, at) < revents.len() ==> hung_up(revents[next_node(revents, at)])
            || any_set(revents[next_node(revents, at)], POLLIN),
        forall|k: int|
            at <= k < next_node(revents, at) ==> !hung_up(#[trigger] revents[k]) && !any_set(
                revents[k],
                POLLIN,
            ),
    decreases revents.len() - at,
{
    if at >= revents.len() || hung_up(revents[at]) || any_set(revents[at], POLLIN) {
    } else {
        lemma_next_node(revents, at + 1);
    }
}

proof fn lemma_poll_bits(r: i16)
    ensures
        hung_up(r) <==> r & 0x38 != 0,
        any_set(r, POLLIN) <==> r & 0x01 != 0,
        r & 0x39 == 0 <==> r & 0x38 == 0 && r & 0x01 == 0,
{
    assert(r & 0x38 != 0 <==> (r & 0x08 != 0 || r & 0x10 != 0 || r & 0x20 != 0)) by (bit_vector);
    assert(r & 0x39 == 0 <==> (r & 0x38 == 0 && r & 0x01 == 0)) by (bit_vector);
}

/// A usbfs descriptor has something to collect if bit two is set, and is gone if any of
/// the bits three to five is.
pub proof fn lemma_what_a_wake_up_means(r: i16)
    ensures
        any_set(r, POLLOUT) <==> r & 0x04 != 0,
        hung_up(r) <==> r & 0x38 != 0,
{
    lemma_poll_bits(r);
}

/// A wait ends with something to look at exactly if `poll` counted a descriptor; a signal
/// alone neither fails it nor ends it before its time; and every other error fails it.
pub proof fn lemma_signals_do_not_end_a_wait(rc: i32, errno: i32, past_deadline: bool)
    ensures
        poll_result(rc, errno, past_deadline) is Ready <==> rc > 0,
        poll_result(rc, errno, past_deadline) is Fail <==> rc < 0 && errno != EINTR,
        poll_result(rc, errno, past_deadline) is Again <==> rc < 0 && errno == EINTR
            && !past_deadline,
        rc == 0 ==> poll_result(rc, errno, past_deadline) is TimedOut,
{
}

} // verus!
