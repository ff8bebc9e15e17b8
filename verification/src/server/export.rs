//! Turning one connection into an export session: the handshake, the allow-list
//! check and the one-importer rule.
//!
//! The only thing that differs between a Steam Deck and an Android tablet is
//! where devices come from: sysfs enumeration on one, a single file descriptor
//! handed over by `UsbManager` on the other. Everything here is shared.
use crate::backend::enumerate::{
    exportable, lemma_filtered_from, lemma_only_allowed_devices_are_exported, list,
};
use crate::backend::filter::{allowed, filter_text, DeviceFilter, Pattern};
use crate::backend::{DeviceSummary, InterfaceSummary};
use crate::common::mdns::{service, Responder};
use crate::proto::device::{DeviceRecord, Speed, UsbDevice};
use crate::proto::io::OpRequest;
use crate::proto::op::{
    devlist_reply_bytes, encode_devlist_reply, encode_import_reply, import_reply_bytes, records_of,
};
use crate::server::config::Config;
use crate::server::registry::{Lease, Registry};
use crate::server::toggle::{id_text, lemma_suspended_devices_are_not_offered, Toggle};
use crate::text::{
    column, dec, digits_value, hex, lemma_a_byte_in_hexadecimal, lemma_columns, lemma_four_digits,
    lemma_numeral_value, lemma_one_more_between, lemma_padded_value, numeral, push_column, push_dec,
    push_hex, same, with_between,
};
use vstd::prelude::*;
use vstd::string::*;

verus! {

broadcast use vstd::slice::group_slice_axioms;

/// A handful of importers is already more than the hardware can be shared
/// with; the cap only exists so a connection flood cannot spawn threads
/// without bound.
pub const MAX_SESSIONS: usize = 16;

/// How long a client gets to send its first request, so a connect-and-say-
/// nothing peer cannot pin a device slot.
pub const HANDSHAKE_TIMEOUT_SECS: u64 = 15;

/// How long to let sessions finish on shutdown before giving up on them.
///
/// This matters more than it looks: a session's teardown is what releases the
/// device's interfaces *and asks the kernel to rebind its drivers*. Generous on
/// purpose: on a seven-interface device that can legitimately take well over a
/// second.
pub const DRAIN_TIMEOUT_SECS: u64 = 8;

// ---------------------------------------------------------------------------
// Connections

/// The connections that are open.
#[derive(Debug, Clone, Copy, PartialEq, Eq, Structural)]
pub struct Slots {
    pub open: usize,
}

impl Slots {
    pub open spec fn wf(self) -> bool {
        self.open <= MAX_SESSIONS
    }

    pub fn new() -> (s: Slots)
        ensures
            s.wf(),
            s.open == 0,
    {
        Slots { open: 0 }
    }

    /// A connection has arrived. It is taken unless as many as may be are open.
    pub fn take_slot(&mut self) -> (r: bool)
        requires
            old(self).wf(),
        ensures
            final(self).wf(),
            r == (old(self).open < MAX_SESSIONS),
            final(self).open == (if r {
                old(self).open + 1
            } else {
                old(self).open as int
            }),
    {
        if self.open >= MAX_SESSIONS {
            return false;
        }
        self.open = self.open + 1;
        true
    }

    /// A connection has ended.
    pub fn done(&mut self)
        requires
            old(self).wf(),
            old(self).open > 0,
        ensures
            final(self).wf(),
            final(self).open == old(self).open - 1,
    {
        self.open = self.open - 1;
    }

    /// Whether to go on waiting for sessions to tear themselves down.
    pub fn keep_draining(&self, past_deadline: bool) -> (r: bool)
        ensures
            r == (self.open > 0 && !past_deadline),
    {
        self.open > 0 && !past_deadline
    }
}

// ---------------------------------------------------------------------------
// Requests

/// Where exportable devices come from on a machine with sysfs.
pub struct SysfsDevices {
    pub filter: DeviceFilter,
    pub max_transfer: usize,
}

impl SysfsDevices {
    /// Everything this source is willing to export of what is on the bus.
    pub fn list(&self, all: Vec<DeviceSummary>) -> (r: Vec<DeviceSummary>)
        ensures
            r@ == exportable(all@, self.filter@),
    {
        list(&self.filter, all)
    }
}

/// Whether the one device of an exporter that has just one is asked for, or what a
/// request for another is answered.
pub fn is_the_device(device: &DeviceSummary, busid: &str) -> (r: Result<(), String>)
    ensures
        match r {
            Ok(_) => busid@ == device.busid@,
            Err(e) => busid@ != device.busid@ && e@ == "this exporter only offers "@
                + device.busid@,
        },
{
    if same(busid, device.busid.as_str()) {
        Ok(())
    } else {
        let mut e = String::new();
        e.append("this exporter only offers ");
        e.append(device.busid.as_str());
        assert(e@ =~= "this exporter only offers "@ + device.busid@);
        Err(e)
    }
}

/// The records that advertise the devices of a list.
pub open spec fn advertised(devices: Seq<DeviceSummary>) -> Seq<DeviceRecord> {
    devices.map_values(|d: DeviceSummary| d.record())
}

/// What a request comes to.
#[derive(Debug, Clone, PartialEq, Eq)]
pub enum Handled {
    /// Send these bytes and close the connection.
    Reply(Vec<u8>),
    /// Import the device with this bus id.
    Import(String),
    /// Nothing is sent: the request is not one of those.
    Unsupported,
}

/// A request has been read, and these devices are on offer.
pub fn handle(request: Option<OpRequest>, devices: &[DeviceSummary]) -> (h: Handled)
    ensures
        match request {
            Some(OpRequest::DevList) => h matches Handled::Reply(b) && b@ == devlist_reply_bytes(
                advertised(devices@),
            ),
            Some(OpRequest::Import { busid }) => h matches Handled::Import(b) && b@ == busid@,
            None => h == Handled::Unsupported,
        },
{
    match request {
        Some(OpRequest::DevList) => {
            let mut devs: Vec<UsbDevice> = Vec::new();
            let ghost want = advertised(devices@);
            let mut i: usize = 0;
            assert(records_of(devs@) =~= want.take(0));
            while i < devices.len()
                invariant
                    i <= devices@.len(),
                    want == advertised(devices@),
                    records_of(devs@) == want.take(i as int),
                decreases devices@.len() - i,
            {
                let ghost had = records_of(devs@);
                let d = devices[i].to_usbip();
                devs.push(d);
                i = i + 1;
                assert(records_of(devs@) =~= had.push(d@));
                assert(records_of(devs@) =~= want.take(i as int));
            }
            assert(records_of(devs@) =~= want);
            Handled::Reply(encode_devlist_reply(devs.as_slice()))
        },
        Some(OpRequest::Import { busid }) => Handled::Import(busid),
        None => Handled::Unsupported,
    }
}

// ---------------------------------------------------------------------------
// Imports

/// Why an import is refused.
#[derive(Debug, Clone, PartialEq, Eq)]
pub enum Refusal {
    NotListed,
    AlreadyImported,
    CannotOpen(String),
    CannotClaim(String),
}

impl Refusal {
    pub open spec fn message(self) -> Seq<char> {
        match self {
            Refusal::NotListed => "not in the allow-list, or no longer present"@,
            Refusal::AlreadyImported => "already imported by another client"@,
            Refusal::CannotOpen(e) => "cannot open it: "@ + e@,
            Refusal::CannotClaim(e) => "cannot claim its interfaces: "@ + e@,
        }
    }

    pub fn to_string(&self) -> (s: String)
        ensures
            s@ == self.message(),
    {
        let mut s = String::new();
        match self {
            Refusal::NotListed => s.append("not in the allow-list, or no longer present"),
            Refusal::AlreadyImported => s.append("already imported by another client"),
            Refusal::CannotOpen(e) => {
                s.append("cannot open it: ");
                s.append(e.as_str());
            },
            Refusal::CannotClaim(e) => {
                s.append("cannot claim its interfaces: ");
                s.append(e.as_str());
            },
        }
        assert(s@ =~= self.message());
        s
    }
}

/// Whether a device with that bus id is on offer.
pub open spec fn is_listed(devices: Seq<DeviceSummary>, busid: Seq<char>) -> bool {
    exists|i: int| 0 <= i < devices.len() && (#[trigger] devices[i]).busid@ == busid
}

/// An import has been asked for. Only what is on offer can be imported: the bus id
/// arrived over the network and must not be able to name a device the allow-list
/// excludes. And only one client at a time can have it.
pub fn begin_import(
    registry: &mut Registry,
    devices: &[DeviceSummary],
    busid: &str,
) -> (r: Result<Lease, Refusal>)
    requires
        old(registry).wf(),
    ensures
        final(registry).wf(),
        match r {
            Ok(lease) => {
                &&& is_listed(devices@, busid@)
                &&& !old(registry)@.contains(busid@)
                &&& lease.device() == busid@
                &&& final(registry)@ == old(registry)@.insert(busid@)
            },
            Err(e) => {
                &&& final(registry)@ == old(registry)@
                &&& if is_listed(devices@, busid@) {
                    e == Refusal::AlreadyImported && old(registry)@.contains(busid@)
                } else {
                    e == Refusal::NotListed
                }
            },
        },
{
    let mut i: usize = 0;
    let mut listed = false;
    while i < devices.len()
        invariant
            i <= devices@.len(),
            listed ==> is_listed(devices@, busid@),
            !listed ==> forall|j: int| 0 <= j < i ==> (#[trigger] devices@[j]).busid@ != busid@,
        decreases devices@.len() - i,
    {
        if same(devices[i].busid.as_str(), busid) {
            assert(devices@[i as int].busid@ == busid@);
            listed = true;
        }
        i = i + 1;
    }
    if !listed {
        return Err(Refusal::NotListed);
    }
    let ghost before = registry@;
    match registry.acquire(busid) {
        Some(lease) => Ok(lease),
        None => {
            assert(registry@ =~= before);
            Err(Refusal::AlreadyImported)
        },
    }
}

/// The device that was leased has been opened and claimed, or could not be. Returns
/// what to answer, and the lease if there is a session to run; where there is none
/// the device is given back.
pub fn finish_import(
    registry: &mut Registry,
    lease: Lease,
    device: Result<&DeviceSummary, Refusal>,
) -> (r: (Vec<u8>, Option<Lease>))
    requires
        old(registry).wf(),
    ensures
        final(registry).wf(),
        match device {
            Ok(d) => {
                &&& r.0@ == import_reply_bytes(Some(d.record()))
                &&& r.1 == Some(lease)
                &&& final(registry)@ == old(registry)@
            },
            Err(_) => {
                &&& r.0@ == import_reply_bytes(None)
                &&& r.1 is None
                &&& final(registry)@ == old(registry)@.remove(lease.device())
            },
        },
{
    match device {
        Ok(d) => (encode_import_reply(Some(&d.to_usbip())), Some(lease)),
        Err(_) => {
            registry.release(lease);
            (encode_import_reply(None), None)
        },
    }
}

/// What a refused import is answered: the header alone.
pub fn refusal_reply() -> (b: Vec<u8>)
    ensures
        b@ == import_reply_bytes(None),
{
    encode_import_reply(None)
}

/// An import that fails, at whatever step, leaves the registry as it was, so the
/// device can be imported by the next client.
pub proof fn lemma_failed_imports_leave_no_trace(busy: Set<Seq<char>>, busid: Seq<char>)
    requires
        !busy.contains(busid),
    ensures
        busy.insert(busid).remove(busid) =~= busy,
{
}

// ---------------------------------------------------------------------------
// Advertising

/// What is advertised on the LAN: under the given name or the host's, with the
/// allow-list as a string.
pub fn advertisement(cfg: &Config, host: &str, addrs: Vec<[u8; 4]>) -> (r: Responder)
    ensures
        r.instance_fqdn@ == (match cfg.name {
            Some(n) => n@,
            None => host@,
        }) + "."@ + service(),
        r.host_fqdn@ == host@ + ".local"@,
        r.port == cfg.port,
        r.addrs@ == addrs@,
        r.txt@.len() == 1,
        r.txt@[0]@ == "allow="@ + filter_text(cfg.filter@),
{
    let mut allow = String::new();
    allow.append("allow=");
    allow.append(cfg.filter.to_string().as_str());
    assert(allow@ =~= "allow="@ + filter_text(cfg.filter@));
    let mut txt: Vec<String> = Vec::new();
    txt.push(allow);
    match &cfg.name {
        Some(n) => Responder::new(n.as_str(), host, cfg.port, addrs, txt),
        None => Responder::new(host, host, cfg.port, addrs, txt),
    }
}

// ---------------------------------------------------------------------------
// Listing

pub open spec fn speed_name(s: Speed) -> Seq<char> {
    match s {
        Speed::Unknown => "unknown"@,
        Speed::Low => "low"@,
        Speed::Full => "full"@,
        Speed::High => "high"@,
        Speed::Wireless => "wireless"@,
        Speed::Super => "super"@,
        Speed::SuperPlus => "superplus"@,
    }
}

fn name_of_speed(s: Speed) -> (n: &'static str)
    ensures
        n@ == speed_name(s),
{
    match s {
        Speed::Unknown => "unknown",
        Speed::Low => "low",
        Speed::Full => "full",
        Speed::High => "high",
        Speed::Wireless => "wireless",
        Speed::Super => "super",
        Speed::SuperPlus => "superplus",
    }
}

/// `2:03/00/00`: number, class, subclass and protocol.
pub open spec fn interface_text(i: InterfaceSummary) -> Seq<char> {
    dec(i.number as nat) + ":"@ + hex(i.class as nat, 2) + "/"@ + hex(i.sub_class as nat, 2)
        + "/"@ + hex(i.protocol as nat, 2)
}

/// The interfaces with blanks between.
pub open spec fn interfaces_text(v: Seq<InterfaceSummary>) -> Seq<char>
    decreases v.len(),
{
    if v.len() == 0 {
        seq![]
    } else if v.len() == 1 {
        interface_text(v[0])
    } else {
        interfaces_text(v.drop_last()) + " "@ + interface_text(v.last())
    }
}

/// A device in the list of those that may be exported.
pub open spec fn device_line(d: DeviceSummary) -> Seq<char> {
    column(d.busid@, 10) + " "@ + id_text(d.device.id_vendor, d.device.id_product) + "  "@
        + column(speed_name(d.speed), 8) + " "@ + interfaces_text(d.interfaces@) + "\n"@
}

/// A device in the list of those that may not.
pub open spec fn other_line(d: DeviceSummary) -> Seq<char> {
    "  "@ + column(d.busid@, 10) + " "@ + id_text(d.device.id_vendor, d.device.id_product) + "\n"@
}

pub open spec fn device_lines(v: Seq<DeviceSummary>) -> Seq<char>
    decreases v.len(),
{
    if v.len() == 0 {
        seq![]
    } else {
        device_lines(v.drop_last()) + device_line(v.last())
    }
}

pub open spec fn other_lines(v: Seq<DeviceSummary>) -> Seq<char>
    decreases v.len(),
{
    if v.len() == 0 {
        seq![]
    } else {
        other_lines(v.drop_last()) + other_line(v.last())
    }
}

/// What `--list` prints: the devices that may be exported under their heading; if
/// there is none, that there is none, and what else is on the machine.
pub open spec fn listing(
    allowed: Seq<DeviceSummary>,
    all: Seq<DeviceSummary>,
    filter: Seq<char>,
) -> Seq<char> {
    if allowed.len() > 0 {
        "BUSID      VID:PID    SPEED    INTERFACES\n"@ + device_lines(allowed)
    } else if all.len() > 0 {
        "No device matches "@ + filter + ".\n"@
            + "\nOn this machine, but not allowed by the filter:\n"@ + other_lines(all)
    } else {
        "No device matches "@ + filter + ".\n"@
    }
}

fn push_id(s: &mut String, d: &DeviceSummary)
    ensures
        final(s)@ == old(s)@ + id_text(d.device.id_vendor, d.device.id_product),
{
    let (v, p) = d.vid_pid();
    push_hex(s, v as u64, 4);
    s.append(":");
    push_hex(s, p as u64, 4);
    assert(s@ =~= old(s)@ + id_text(v, p));
}

fn push_interface(s: &mut String, f: InterfaceSummary)
    ensures
        final(s)@ == old(s)@ + interface_text(f),
{
    push_dec(s, f.number as u64);
    s.append(":");
    push_hex(s, f.class as u64, 2);
    s.append("/");
    push_hex(s, f.sub_class as u64, 2);
    s.append("/");
    push_hex(s, f.protocol as u64, 2);
    assert(s@ =~= old(s)@ + interface_text(f));
}

fn push_interfaces(s: &mut String, v: &Vec<InterfaceSummary>)
    ensures
        final(s)@ == old(s)@ + interfaces_text(v@),
{
    let mut i: usize = 0;
    assert(v@.take(0) =~= Seq::empty());
    assert(s@ =~= old(s)@ + interfaces_text(v@.take(0)));
    while i < v.len()
        invariant
            i <= v@.len(),
            s@ == old(s)@ + interfaces_text(v@.take(i as int)),
        decreases v@.len() - i,
    {
        if i > 0 {
            s.append(" ");
        }
        let f = v[i];
        push_interface(s, f);
        i = i + 1;
        proof {
            assert(v@.take(i as int).drop_last() =~= v@.take(i - 1));
            assert(v@.take(i as int).last() == f);
            assert(s@ =~= old(s)@ + interfaces_text(v@.take(i as int)));
        }
    }
    assert(v@.take(i as int) =~= v@);
}

pub fn print_list(
    allowed: &[DeviceSummary],
    all: &[DeviceSummary],
    filter: &DeviceFilter,
) -> (s: String)
    ensures
        s@ == listing(allowed@, all@, filter_text(filter@)),
{
    let mut s = String::new();
    if allowed.len() == 0 {
        s.append("No device matches ");
        s.append(filter.to_string().as_str());
        s.append(".\n");
        assert(s@ =~= "No device matches "@ + filter_text(filter@) + ".\n"@);
        if all.len() > 0 {
            s.append("\nOn this machine, but not allowed by the filter:\n");
            let ghost head = s@;
            let mut i: usize = 0;
            assert(all@.take(0) =~= Seq::empty());
            assert(s@ =~= head + other_lines(all@.take(0)));
            while i < all.len()
                invariant
                    i <= all@.len(),
                    s@ == head + other_lines(all@.take(i as int)),
                decreases all@.len() - i,
            {
                let d = &all[i];
                let ghost had = s@;
                s.append("  ");
                push_column(&mut s, d.busid.as_str(), 10);
                s.append(" ");
                push_id(&mut s, d);
                s.append("\n");
                assert(s@ =~= had + other_line(*d));
                i = i + 1;
                proof {
                    assert(all@.take(i as int).drop_last() =~= all@.take(i - 1));
                    assert(all@.take(i as int).last() == *d);
                    assert(s@ =~= head + other_lines(all@.take(i as int)));
                }
            }
            assert(all@.take(i as int) =~= all@);
            assert(s@ =~= listing(allowed@, all@, filter_text(filter@)));
        }
        return s;
    }
    s.append("BUSID      VID:PID    SPEED    INTERFACES\n");
    let ghost head = s@;
    let mut i: usize = 0;
    assert(allowed@.take(0) =~= Seq::empty());
    assert(s@ =~= head + device_lines(allowed@.take(0)));
    while i < allowed.len()
        invariant
            i <= allowed@.len(),
            s@ == head + device_lines(allowed@.take(i as int)),
        decreases allowed@.len() - i,
    {
        let d = &allowed[i];
        let ghost had = s@;
        push_column(&mut s, d.busid.as_str(), 10);
        s.append(" ");
        push_id(&mut s, d);
        s.append("  ");
        push_column(&mut s, name_of_speed(d.speed), 8);
        s.append(" ");
        push_interfaces(&mut s, &d.interfaces);
        s.append("\n");
        assert(s@ =~= had + device_line(*d));
        i = i + 1;
        proof {
            assert(allowed@.take(i as int).drop_last() =~= allowed@.take(i - 1));
            assert(allowed@.take(i as int).last() == *d);
            assert(s@ =~= head + device_lines(allowed@.take(i as int)));
        }
    }
    assert(allowed@.take(i as int) =~= allowed@);
    assert(s@ =~= listing(allowed@, all@, filter_text(filter@)));
    s
}

// ---------------------------------------------------------------------------
// Laws

/// Only what is plugged in, admitted by the allow-list and not suspended can be
/// imported, whatever bus id arrives over the network: the devices on offer are the
/// ones that the list of devices shows, and any other is refused.
pub proof fn lemma_only_what_is_offered_can_be_imported(
    suspended: Set<Seq<char>>,
    all: Seq<DeviceSummary>,
    patterns: Seq<Pattern>,
    busid: Seq<char>,
)
    ensures
        ({
            let offered = Toggle::on_offer(suspended, exportable(all, patterns));
            &&& is_listed(offered, busid) <==> !suspended.contains(busid) && exists|i: int|
                0 <= i < all.len() && (#[trigger] all[i]).busid@ == busid && allowed(
                    patterns,
                    all[i].device.id_vendor,
                    all[i].device.id_product,
                )
            &&& is_listed(offered, busid) <==> exists|i: int|
                0 <= i < advertised(offered).len() && (#[trigger] advertised(offered)[i]).busid
                    == busid
        }),
{
    let listed = exportable(all, patterns);
    let offered = Toggle::on_offer(suspended, listed);
    lemma_only_allowed_devices_are_exported(all, patterns);
    lemma_suspended_devices_are_not_offered(suspended, listed, busid);
    if is_listed(offered, busid) {
        let i = choose|i: int| 0 <= i < offered.len() && (#[trigger] offered[i]).busid@ == busid;
        let d = offered[i];
        let keep = |d: DeviceSummary| !suspended.contains(d.busid@);
        lemma_filtered_from(listed, keep);
        assert(offered == listed.filter(keep));
        assert(listed.filter(keep).contains(d));
        let k = choose|k: int| 0 <= k < all.len() && all[k] == d;
        assert(all[k].busid@ == busid);
        assert(advertised(offered)[i].busid == busid);
    }
    if !suspended.contains(busid) && exists|i: int|
        0 <= i < all.len() && (#[trigger] all[i]).busid@ == busid && allowed(
            patterns,
            all[i].device.id_vendor,
            all[i].device.id_product,
        ) {
        let i = choose|i: int|
            0 <= i < all.len() && (#[trigger] all[i]).busid@ == busid && allowed(
                patterns,
                all[i].device.id_vendor,
                all[i].device.id_product,
            );
        assert(all.contains(all[i]));
        assert(listed.contains(all[i]));
        let k = choose|k: int| 0 <= k < listed.len() && listed[k] == all[i];
        assert(offered.contains(listed[k]));
        let m = choose|m: int| 0 <= m < offered.len() && offered[m] == all[i];
        assert(offered[m].busid@ == busid);
    }
    if exists|i: int|
        0 <= i < advertised(offered).len() && (#[trigger] advertised(offered)[i]).busid == busid {
        let i = choose|i: int|
            0 <= i < advertised(offered).len() && (#[trigger] advertised(offered)[i]).busid
                == busid;
        assert(offered[i].busid@ == busid);
    }
}

/// What is advertised is one record for each device, in order: the device's own.
pub proof fn lemma_every_device_is_advertised(devices: Seq<DeviceSummary>, i: int)
    requires
        0 <= i < devices.len(),
    ensures
        advertised(devices).len() == devices.len(),
        advertised(devices)[i].busid == devices[i].busid@,
        advertised(devices)[i].id_vendor == devices[i].device.id_vendor,
        advertised(devices)[i].id_product == devices[i].device.id_product,
        advertised(devices)[i] == devices[i].record(),
{
}

/// The list names each device that may be exported on a line of its own, in order, below
/// the heading; only where there is none does it name the others.
pub proof fn lemma_each_device_has_its_line(
    a: Seq<DeviceSummary>,
    d: DeviceSummary,
    b: Seq<DeviceSummary>,
    all: Seq<DeviceSummary>,
    filter: Seq<char>,
)
    ensures
        listing(a.push(d) + b, all, filter) == "BUSID      VID:PID    SPEED    INTERFACES\n"@
            + device_lines(a) + device_line(d) + device_lines(b),
        listing(seq![], a.push(d) + b, filter) == "No device matches "@ + filter + ".\n"@
            + "\nOn this machine, but not allowed by the filter:\n"@ + other_lines(a)
            + other_line(d) + other_lines(b),
        listing(seq![], seq![], filter) == "No device matches "@ + filter + ".\n"@,
{
    lemma_lines_joined(a.push(d), b);
    assert(a.push(d).drop_last() =~= a);
    let head = "BUSID      VID:PID    SPEED    INTERFACES\n"@;
    assert(listing(a.push(d) + b, all, filter) =~= head + device_lines(a) + device_line(d)
        + device_lines(b));
    let other = "No device matches "@ + filter + ".\n"@
        + "\nOn this machine, but not allowed by the filter:\n"@;
    assert(listing(seq![], a.push(d) + b, filter) =~= other + other_lines(a) + other_line(d)
        + other_lines(b));
}

proof fn lemma_lines_joined(a: Seq<DeviceSummary>, b: Seq<DeviceSummary>)
    ensures
        device_lines(a + b) == device_lines(a) + device_lines(b),
        other_lines(a + b) == other_lines(a) + other_lines(b),
    decreases b.len(),
{
    if b.len() == 0 {
        assert(a + b =~= a);
    } else {
        assert((a + b).drop_last() =~= a + b.drop_last());
        lemma_lines_joined(a, b.drop_last());
    }
    assert(device_lines(a + b) =~= device_lines(a) + device_lines(b));
    assert(other_lines(a + b) =~= other_lines(a) + other_lines(b));
}

/// A line begins with the bus id and, from the same place for every bus id of up to ten
/// characters, has the vendor and the product in hexadecimal digits, four of each, and one
/// of the seven words for the speed.
pub proof fn lemma_what_a_line_says(d: DeviceSummary)
    requires
        d.busid@.len() <= 10,
    ensures
        ({
            let l = device_line(d);
            &&& l.take(d.busid@.len() as int) == d.busid@
            &&& forall|i: int| d.busid@.len() <= i < 11 ==> l[i] == ' '
            &&& l[15] == ':'
            &&& digits_value(l.subrange(11, 15), 16) == d.device.id_vendor
            &&& digits_value(l.subrange(16, 20), 16) == d.device.id_product
            &&& l.last() == '\n'
            &&& l.skip(22).take(speed_name(d.speed).len() as int) == speed_name(d.speed)
        }),
        speed_name(d.speed) == (match d.speed {
            Speed::Low => "low"@,
            Speed::Full => "full"@,
            Speed::High => "high"@,
            Speed::Wireless => "wireless"@,
            Speed::Super => "super"@,
            Speed::SuperPlus => "superplus"@,
            Speed::Unknown => "unknown"@,
        }),
{
    reveal_strlit(" ");
    reveal_strlit(":");
    reveal_strlit("  ");
    reveal_strlit("\n");
    let l = device_line(d);
    let n = d.busid@.len() as int;
    let v = d.device.id_vendor;
    let p = d.device.id_product;
    let c = column(d.busid@, 10);
    lemma_columns(d.busid@, 10);
    lemma_four_digits(v);
    lemma_four_digits(p);
    let name = column(speed_name(d.speed), 8);
    lemma_columns(speed_name(d.speed), 8);
    let rest = " "@ + interfaces_text(d.interfaces@) + "\n"@;
    assert(l =~= c + " "@ + hex(v as nat, 4) + ":"@ + hex(p as nat, 4) + "  "@ + name + rest);
    assert(l.take(n) =~= c.take(n));
    assert forall|i: int| n <= i < 11 implies l[i] == ' ' by {
        if i < 10 {
            assert(l[i] == c[i]);
        }
    }
    assert(l.subrange(11, 15) =~= hex(v as nat, 4));
    assert(l.subrange(16, 20) =~= hex(p as nat, 4));
    assert(l.skip(22).take(speed_name(d.speed).len() as int) =~= name.take(
        speed_name(d.speed).len() as int,
    ));
    assert(rest.last() == '\n');
}

/// An interface is shown as its number, its class, its subclass and its protocol, and they
/// are read back from what is shown.
pub proof fn lemma_what_is_said_of_an_interface(f: InterfaceSummary)
    ensures
        ({
            let t = interface_text(f);
            let n = dec(f.number as nat).len() as int;
            &&& t.len() == n + 9
            &&& digits_value(t.take(n), 10) == f.number
            &&& t[n] == ':' && t[n + 3] == '/' && t[n + 6] == '/'
            &&& digits_value(t.subrange(n + 1, n + 3), 16) == f.class
            &&& digits_value(t.subrange(n + 4, n + 6), 16) == f.sub_class
            &&& digits_value(t.subrange(n + 7, n + 9), 16) == f.protocol
        }),
{
    reveal_strlit(":");
    reveal_strlit("/");
    let t = interface_text(f);
    let n = dec(f.number as nat).len() as int;
    lemma_numeral_value(f.number as nat, 10);
    lemma_padded_value(f.class as nat, 16, 2);
    lemma_padded_value(f.sub_class as nat, 16, 2);
    lemma_padded_value(f.protocol as nat, 16, 2);
    lemma_a_byte_in_hexadecimal(f.class);
    lemma_a_byte_in_hexadecimal(f.sub_class);
    lemma_a_byte_in_hexadecimal(f.protocol);
    assert(t.take(n) =~= dec(f.number as nat));
    assert(t.subrange(n + 1, n + 3) =~= hex(f.class as nat, 2));
    assert(t.subrange(n + 4, n + 6) =~= hex(f.sub_class as nat, 2));
    assert(t.subrange(n + 7, n + 9) =~= hex(f.protocol as nat, 2));
}

/// The interfaces of a device are shown in order, with blanks between them.
pub proof fn lemma_interfaces_are_shown_in_order(v: Seq<InterfaceSummary>)
    ensures
        interfaces_text(v) == with_between(
            v.map_values(|f: InterfaceSummary| interface_text(f)),
            ' ',
        ),
    decreases v.len(),
{
    reveal_strlit(" ");
    assert(" "@ =~= seq![' ']);
    let ts = v.map_values(|f: InterfaceSummary| interface_text(f));
    if v.len() > 1 {
        lemma_interfaces_are_shown_in_order(v.drop_last());
        assert(ts.drop_last() =~= v.drop_last().map_values(
            |f: InterfaceSummary| interface_text(f),
        ));
        lemma_one_more_between(ts, ' ');
        assert(interfaces_text(v) =~= with_between(ts, ' '));
    }
}

} // verus!
