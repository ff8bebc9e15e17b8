//! Which devices are currently exported.
//!
//! USB/IP allows exactly one importer per device — `vhci-hcd` on two hosts
//! would be two kernels driving the same endpoints. Enforcing it here turns a
//! confusing double-attach into a clean `ST_NA` on the second request.
use crate::server::names::NameSet;
use vstd::prelude::*;
use vstd::string::*;

verus! {

/// The devices that have an importer.
pub struct Registry {
    busy: NameSet,
}

impl View for Registry {
    type V = Set<Seq<char>>;

    closed spec fn view(&self) -> Set<Seq<char>> {
        self.busy@
    }
}

/// The right to a device, to be given back when the session ends, however it
/// ends.
#[derive(Debug)]
pub struct Lease {
    busid: String,
}

impl Lease {
    /// The device that is leased.
    pub closed spec fn device(&self) -> Seq<char> {
        self.busid@
    }

    pub fn busid(&self) -> (s: &str)
        ensures
            s@ == self.device(),
    {
        self.busid.as_str()
    }
}

impl Registry {
    pub closed spec fn wf(&self) -> bool {
        self.busy.wf()
    }

    pub fn new() -> (r: Registry)
        ensures
            r.wf(),
            r@ == Set::<Seq<char>>::empty(),
    {
        Registry { busy: NameSet::new() }
    }

    /// Take the device, or `None` if someone already has it.
    pub fn acquire(&mut self, busid: &str) -> (r: Option<Lease>)
        requires
            old(self).wf(),
        ensures
            final(self).wf(),
            r is Some <==> !old(self)@.contains(busid@),
            r matches Some(lease) ==> lease.device() == busid@,
            final(self)@ == old(self)@.insert(busid@),
    {
        if self.busy.insert(busid) {
            Some(Lease { busid: busid.to_owned() })
        } else {
            None
        }
    }

    /// Give the device back.
    pub fn release(&mut self, lease: Lease)
        requires
            old(self).wf(),
        ensures
            final(self).wf(),
            final(self)@ == old(self)@.remove(lease.device()),
    {
        self.busy.remove(lease.busid.as_str());
    }

    pub fn in_use(&self, busid: &str) -> (r: bool)
        requires
            self.wf(),
        ensures
            r == self@.contains(busid@),
    {
        self.busy.contains(busid)
    }
}

/// A device that has been taken is refused to everyone else until it is given
/// back, after which it can be taken again; other devices are unaffected.
pub proof fn lemma_one_importer_per_device(busy: Set<Seq<char>>, busid: Seq<char>, other: Seq<char>)
    requires
        !busy.contains(busid),
        other != busid,
    ensures
        ({
            let taken = busy.insert(busid);
            &&& taken.contains(busid)
            &&& taken.contains(other) == busy.contains(other)
            &&& !taken.remove(busid).contains(busid)
            &&& taken.remove(busid) =~= busy
        }),
{
}

} // verus!
