//! The usbfs backend: everything about a device on usbfs that is decided, with
//! the ioctls themselves left to whoever holds the file descriptor.
//!
//! Between `USBDEVFS_SUBMITURB` and `USBDEVFS_REAPURB*` the kernel holds the
//! address of the URB and of its buffer. An [`Urb`] is what has to stay put for
//! that long; which ones are out is recorded here by their `seqnum`, and there is
//! exactly one per `seqnum`.
use crate::backend::descriptors::{
    blob_of, configs_view, first_config, parse, Alt, ConfigDescriptor, Configuration,
    DescriptorError, Descriptors, EndpointDescriptor, TransferType,
};
use crate::backend::enumerate::{
    default_config_value, describes, node_path, sys_path, sysfs_speed, sysfs_text, valid_busid,
};
use crate::backend::sys::{
    USBDEVFS_CAP_ZERO_PACKET, USBDEVFS_URB_NO_INTERRUPT, USBDEVFS_URB_SHORT_NOT_OK,
    USBDEVFS_URB_TYPE_BULK, USBDEVFS_URB_TYPE_CONTROL, USBDEVFS_URB_TYPE_INTERRUPT,
    USBDEVFS_URB_TYPE_ISO, USBDEVFS_URB_ZERO_PACKET,
};
use crate::backend::{DeviceSummary, InterfaceSummary, SubmitError, UrbCompletion, UrbRequest};
use crate::errno::{
    eagain, ebusy, einval, enodata, enodev, enotty, eopnotsupp, epipe, eshutdown, EAGAIN, EBUSY,
    EINVAL, ENODATA, ENODEV, ENOTTY, EOPNOTSUPP, EPIPE, ESHUTDOWN,
};
use crate::proto::device::Speed;
use crate::proto::pdu::transfer_flags::{NO_INTERRUPT, SHORT_NOT_OK, ZERO_PACKET};
use crate::proto::pdu::{zero_bytes, Direction};
use crate::text::{dec, push_dec, trimmed};
use std::collections::HashMap;
use vstd::prelude::*;
use vstd::std_specs::iter::IteratorSpec;
use vstd::std_specs::hash::spec_keys_iter;
use vstd::string::*;

verus! {

broadcast use {
    vstd::slice::group_slice_axioms,
    vstd::array::group_array_axioms,
    vstd::std_specs::hash::group_hash_axioms,
};

/// A HID gamepad's largest transfer is a report descriptor of a few hundred
/// bytes. One megabyte is far more than enough and keeps a hostile
/// `transfer_buffer_length` from turning into an allocation.
pub const DEFAULT_MAX_TRANSFER: usize = 0x10_0000;

/// The length of a setup packet.
pub const SETUP_LEN: usize = 8;

/// How often the kernel is asked to rebind a driver before giving up.
pub const RECONNECT_ATTEMPTS: u32 = 4;

pub const RECONNECT_BACKOFF_MS: u64 = 50;

/// How long a teardown waits for cancelled URBs to come back.
pub const CANCEL_TIMEOUT_MS: u64 = 250;

/// How long it waits for the next of them before it looks again.
pub const CANCEL_POLL_MS: u64 = 10;

// ---------------------------------------------------------------------------
// Endpoints

/// usbfs's number for a transfer type. The two numbering schemes disagree.
pub open spec fn urb_type_of(t: TransferType) -> u8 {
    match t {
        TransferType::Control => USBDEVFS_URB_TYPE_CONTROL,
        TransferType::Isochronous => USBDEVFS_URB_TYPE_ISO,
        TransferType::Bulk => USBDEVFS_URB_TYPE_BULK,
        TransferType::Interrupt => USBDEVFS_URB_TYPE_INTERRUPT,
    }
}

pub fn urb_type(t: TransferType) -> (r: u8)
    ensures
        r == urb_type_of(t),
{
    match t {
        TransferType::Control => USBDEVFS_URB_TYPE_CONTROL,
        TransferType::Isochronous => USBDEVFS_URB_TYPE_ISO,
        TransferType::Bulk => USBDEVFS_URB_TYPE_BULK,
        TransferType::Interrupt => USBDEVFS_URB_TYPE_INTERRUPT,
    }
}

/// The endpoints of all the alternate settings, one after another.
pub open spec fn all_endpoints(alts: Seq<Alt>) -> Seq<EndpointDescriptor>
    decreases alts.len(),
{
    if alts.len() == 0 {
        seq![]
    } else {
        all_endpoints(alts.drop_last()) + alts.last().endpoints
    }
}

/// The URB types by endpoint address. The control endpoint is always there; of an
/// address that is described more than once the last description holds.
pub open spec fn endpoint_types(eps: Seq<EndpointDescriptor>) -> Map<u8, u8>
    decreases eps.len(),
{
    if eps.len() == 0 {
        map![0x00u8 => USBDEVFS_URB_TYPE_CONTROL, 0x80u8 => USBDEVFS_URB_TYPE_CONTROL]
    } else {
        endpoint_types(eps.drop_last()).insert(
            eps.last().address,
            urb_type_of(TransferType::of(eps.last().attributes)),
        )
    }
}

/// The interrupt IN endpoints among `eps`, by address and packet size.
pub open spec fn interrupt_in(eps: Seq<EndpointDescriptor>) -> Seq<(u8, u16)>
    decreases eps.len(),
{
    if eps.len() == 0 {
        seq![]
    } else {
        let e = eps.last();
        let rest = interrupt_in(eps.drop_last());
        if TransferType::of(e.attributes) is Interrupt && e.address >= 0x80 {
            rest.push((e.address, e.max_packet_size))
        } else {
            rest
        }
    }
}

/// Every endpoint of every alternate setting, not just the primary ones: the
/// client may issue SET_INTERFACE and start using endpoints only the alt exposes.
fn endpoints_in(config: &ConfigDescriptor) -> (r: Vec<EndpointDescriptor>)
    ensures
        r@ == all_endpoints(config@.alts),
{
    let mut out: Vec<EndpointDescriptor> = Vec::new();
    let ghost all = config@.alts;
    let mut i: usize = 0;
    assert(all.take(0) =~= Seq::empty());
    while i < config.alt_settings.len()
        invariant
            i <= config.alt_settings@.len(),
            all == config@.alts,
            out@ == all_endpoints(all.take(i as int)),
        decreases config.alt_settings@.len() - i,
    {
        let a = &config.alt_settings[i];
        let ghost had = out@;
        let mut k: usize = 0;
        assert(had + a.endpoints@.take(0) =~= had);
        while k < a.endpoints.len()
            invariant
                k <= a.endpoints@.len(),
                out@ == had + a.endpoints@.take(k as int),
            decreases a.endpoints@.len() - k,
        {
            out.push(a.endpoints[k]);
            k = k + 1;
            assert(out@ =~= had + a.endpoints@.take(k as int));
        }
        assert(a.endpoints@.take(k as int) =~= a.endpoints@);
        i = i + 1;
        proof {
            assert(all.take(i as int).drop_last() =~= all.take(i - 1));
            assert(all.take(i as int).last() == a@);
        }
    }
    assert(all.take(i as int) =~= all);
    out
}

fn types_of(eps: &Vec<EndpointDescriptor>) -> (m: HashMap<u8, u8>)
    ensures
        m@ == endpoint_types(eps@),
{
    let mut m: HashMap<u8, u8> = HashMap::new();
    m.insert(0x00, USBDEVFS_URB_TYPE_CONTROL);
    m.insert(0x80, USBDEVFS_URB_TYPE_CONTROL);
    assert(eps@.take(0) =~= Seq::empty());
    assert(m@ =~= endpoint_types(eps@.take(0)));
    let mut i: usize = 0;
    while i < eps.len()
        invariant
            i <= eps@.len(),
            m@ == endpoint_types(eps@.take(i as int)),
        decreases eps@.len() - i,
    {
        let e = eps[i];
        m.insert(e.address, urb_type(e.transfer_type()));
        i = i + 1;
        proof {
            assert(eps@.take(i as int).drop_last() =~= eps@.take(i - 1));
            assert(eps@.take(i as int).last() == e);
        }
    }
    assert(eps@.take(i as int) =~= eps@);
    m
}

/// The address of endpoint `ep` in direction `dir`.
pub open spec fn endpoint_address(ep: u8, dir: Direction) -> u8 {
    if dir is Out {
        (ep % 0x80) as u8
    } else if ep < 0x80 {
        (ep + 0x80) as u8
    } else {
        ep
    }
}

fn address_of(ep: u8, dir: Direction) -> (a: u8)
    ensures
        a == endpoint_address(ep, dir),
{
    assert(ep & 0x7f == ep % 0x80) by (bit_vector);
    assert(ep < 0x80 ==> ep | 0x80 == ep + 0x80) by (bit_vector);
    assert(ep >= 0x80 ==> ep | 0x80 == ep) by (bit_vector);
    if dir.is_in() {
        ep | 0x80
    } else {
        ep & 0x7f
    }
}

// ---------------------------------------------------------------------------
// Standard requests that change state

/// A standard request that must be carried out through its own usbfs ioctl
/// rather than forwarded as a raw control URB.
#[derive(Debug, Clone, Copy, PartialEq, Eq, Structural)]
pub enum Special {
    SetAddress(u16),
    SetConfiguration(u16),
    SetInterface { interface: u16, alt: u16 },
    ClearHalt(u16),
}

/// Two bytes of a setup packet, least significant first.
pub open spec fn setup_word(setup: Seq<u8>, i: int) -> u16 {
    (setup[i] + setup[i + 1] * 0x100) as u16
}

fn word_at(setup: &[u8; 8], i: usize) -> (w: u16)
    requires
        i < 7,
    ensures
        w == setup_word(setup@, i as int),
{
    (setup[i] as u16) + (setup[i + 1] as u16) * 0x100
}

impl Special {
    /// The request that a setup packet makes, if it is one of these. The
    /// device-to-host requests with the same codes read the state instead.
    pub open spec fn of(setup: Seq<u8>) -> Option<Special> {
        let value = setup_word(setup, 2);
        let index = setup_word(setup, 4);
        if setup[0] == 0x00 && setup[1] == 0x05 {
            Some(Special::SetAddress(value))
        } else if setup[0] == 0x00 && setup[1] == 0x09 {
            Some(Special::SetConfiguration(value))
        } else if setup[0] == 0x01 && setup[1] == 0x0b {
            Some(Special::SetInterface { interface: index, alt: value })
        } else if setup[0] == 0x02 && setup[1] == 0x01 && value == 0 {
            Some(Special::ClearHalt(index))
        } else {
            None
        }
    }

    /// Classify an 8-byte SETUP packet. Device-to-host requests are never
    /// special: the same request codes read state instead of changing it.
    pub fn classify(setup: &[u8; 8]) -> (r: Option<Special>)
        ensures
            r == Special::of(setup@),
            setup@[0] >= 0x80 ==> r is None,
    {
        let typ: u8 = setup[0];
        let request: u8 = setup[1];
        let value: u16 = word_at(setup, 2);
        let index: u16 = word_at(setup, 4);
        if typ >= 0x80 {
            None
        } else if typ == 0x00 && request == 0x05 {
            Some(Special::SetAddress(value))
        } else if typ == 0x00 && request == 0x09 {
            Some(Special::SetConfiguration(value))
        } else if typ == 0x01 && request == 0x0b {
            Some(Special::SetInterface { interface: index, alt: value })
        } else if typ == 0x02 && request == 0x01 && value == 0x0000 {
            // Only ENDPOINT_HALT (feature selector 0) resets a data toggle.
            Some(Special::ClearHalt(index))
        } else {
            None
        }
    }
}

/// Whether an errno says that the device is gone.
pub open spec fn is_gone(errno: i32) -> bool {
    errno == ENODEV || errno == ESHUTDOWN
}

fn device_gone(errno: i32) -> (r: bool)
    ensures
        r == is_gone(errno),
{
    errno == enodev() || errno == eshutdown()
}

pub open spec fn special_outcome(errno: Option<i32>) -> SubmitError {
    match errno {
        Some(e) if is_gone(e) => SubmitError::Fatal(e),
        _ => SubmitError::Handled(0),
    }
}

/// What the client is owed for a special request, given how its ioctl ended.
///
/// Success is answered even when the ioctl failed, matching the in-tree server.
/// The failure that matters is SET_CONFIGURATION: usbfs refuses it with `-EBUSY`
/// while any interface is claimed, which is always. Reporting that back fails the
/// URB, and the importing kernel drops the device before it is ever usable. Only a
/// device that is gone ends the session.
pub fn special_done(errno: Option<i32>) -> (r: SubmitError)
    ensures
        r == special_outcome(errno),
{
    match errno {
        Some(e) => {
            if device_gone(e) {
                SubmitError::Fatal(e)
            } else {
                SubmitError::Handled(0)
            }
        },
        None => SubmitError::Handled(0),
    }
}

// ---------------------------------------------------------------------------
// Opening

/// What is known of a device before it is opened for use: the descriptor blob
/// read off the node, and what sysfs and the device itself say, as far as they do.
#[derive(Debug, Clone, PartialEq, Eq)]
pub struct DeviceFacts {
    pub blob: Vec<u8>,
    pub busnum: u32,
    pub devnum: u32,
    /// The bus id, see [`device_busid`].
    pub busid: String,
    /// Whether sysfs has a directory for the bus id.
    pub in_sysfs: bool,
    /// The configuration that sysfs says is in effect.
    pub sysfs_config: Option<u8>,
    /// The configuration that the device answered to GET_CONFIGURATION.
    pub asked_config: Option<u8>,
    /// The speed that usbfs reports.
    pub speed: Option<u32>,
    /// The `speed` attribute in sysfs.
    pub sysfs_speed: Option<String>,
    pub caps: u32,
}

/// The bus id of a device: the one that sysfs has for its numbers, or one made
/// out of the numbers.
pub fn device_busid(looked_up: Option<String>, busnum: u32, devnum: u32) -> (s: String)
    ensures
        s@ == (match looked_up {
            Some(b) => b@,
            None => dec(busnum as nat) + "-"@ + dec(devnum as nat),
        }),
{
    match looked_up {
        Some(b) => b,
        None => {
            let mut s = String::new();
            push_dec(&mut s, busnum as u64);
            s.append("-");
            push_dec(&mut s, devnum as u64);
            assert(s@ =~= dec(busnum as nat) + "-"@ + dec(devnum as nat));
            s
        },
    }
}

/// Which configuration is in effect. sysfs knows on Linux; elsewhere ask the
/// device; failing both, assume its first configuration.
pub open spec fn effective_config(
    cs: Seq<Configuration>,
    sysfs: Option<u8>,
    asked: Option<u8>,
) -> u8 {
    if sysfs is Some && first_config(cs, sysfs.unwrap()) is Some {
        sysfs.unwrap()
    } else if asked is Some && first_config(cs, asked.unwrap()) is Some {
        asked.unwrap()
    } else if cs.len() > 0 {
        cs[0].configuration_value
    } else {
        1
    }
}

pub fn active_config(desc: &Descriptors, sysfs: Option<u8>, asked: Option<u8>) -> (v: u8)
    ensures
        v == effective_config(configs_view(desc.configs@), sysfs, asked),
{
    match sysfs {
        Some(v) => {
            if desc.config(v).is_some() {
                return v;
            }
        },
        None => {},
    }
    match asked {
        Some(v) => {
            if desc.config(v).is_some() {
                return v;
            }
        },
        None => {},
    }
    default_config_value(desc)
}

/// Why a device cannot be used.
#[derive(Debug, Clone, Copy, PartialEq, Eq, Structural)]
pub enum OpenError {
    Descriptors(DescriptorError),
    /// The configuration in effect is not among those described.
    NoSuchConfig { value: u8 },
}

impl OpenError {
    pub open spec fn message(self) -> Seq<char> {
        match self {
            OpenError::Descriptors(e) => e.message(),
            OpenError::NoSuchConfig { value } => "device reports active configuration "@ + dec(
                value as nat,
            ) + ", which it did not describe"@,
        }
    }

    pub fn to_string(&self) -> (s: String)
        ensures
            s@ == self.message(),
    {
        match self {
            OpenError::Descriptors(e) => e.to_string(),
            OpenError::NoSuchConfig { value } => {
                let mut s = String::new();
                s.append("device reports active configuration ");
                push_dec(&mut s, *value as u64);
                s.append(", which it did not describe");
                assert(s@ =~= self.message());
                s
            },
        }
    }
}

/// A device on usbfs, without its file descriptor.
pub struct UsbfsDevice {
    summary: DeviceSummary,
    descriptors: Descriptors,
    /// Endpoint address (direction bit included) to usbfs URB type.
    ep_types: HashMap<u8, u8>,
    endpoints: Vec<EndpointDescriptor>,
    caps: u32,
    max_transfer: usize,
    /// The URBs in flight by seqnum. True if the client has already been told that
    /// the URB was cancelled, so that its completion must not also be reported.
    pending: HashMap<u32, bool>,
    claimed: Vec<u8>,
}

/// The same, as contracts speak of it.
pub struct DeviceState {
    pub summary: DeviceSummary,
    pub descriptors: Descriptors,
    pub endpoints: Seq<EndpointDescriptor>,
    pub caps: u32,
    pub max_transfer: usize,
    pub pending: Map<u32, bool>,
    pub claimed: Seq<u8>,
}

impl DeviceState {
    /// What holds of every device: the limit leaves room for a setup packet, and no
    /// interface has been claimed twice.
    pub open spec fn wf(self) -> bool {
        &&& self.max_transfer <= usize::MAX - SETUP_LEN
        &&& self.claimed.no_duplicates()
        &&& self.pending.dom().finite()
    }

    /// The configuration in effect, if it is described.
    pub open spec fn config(self) -> Option<Configuration> {
        first_config(configs_view(self.descriptors.configs@), self.summary.config_value)
    }
}

impl View for UsbfsDevice {
    type V = DeviceState;

    closed spec fn view(&self) -> DeviceState {
        DeviceState {
            summary: self.summary,
            descriptors: self.descriptors,
            endpoints: self.endpoints@,
            caps: self.caps,
            max_transfer: self.max_transfer,
            pending: self.pending@,
            claimed: self.claimed@,
        }
    }
}

impl UsbfsDevice {
    /// What every operation keeps: the table of types is that of the endpoints.
    pub closed spec fn wf(self) -> bool {
        &&& self.ep_types@ == endpoint_types(self.endpoints@)
        &&& self@.wf()
    }

    /// What holds of every device's state holds of this one's.
    pub proof fn lemma_state_wf(self)
        requires
            self.wf(),
        ensures
            self@.wf(),
    {
    }

    /// Takes in what was found out about a device.
    pub fn build(facts: DeviceFacts) -> (r: Result<UsbfsDevice, OpenError>)
        ensures
            match blob_of(facts.blob@) {
                Err(e) => r == Err::<UsbfsDevice, OpenError>(OpenError::Descriptors(e)),
                Ok((device, cs)) => {
                    let value = effective_config(cs, facts.sysfs_config, facts.asked_config);
                    match first_config(cs, value) {
                        None => r == Err::<UsbfsDevice, OpenError>(
                            OpenError::NoSuchConfig { value },
                        ),
                        Some(config) => {
                            &&& r is Ok
                            &&& r->Ok_0.wf()
                            &&& describes(
                                r->Ok_0@.summary,
                                device,
                                config,
                                value,
                                (facts.busnum, facts.devnum),
                                facts.busid@,
                                if facts.in_sysfs && valid_busid(facts.busid@) {
                                    Some(sysfs_text(facts.busid@))
                                } else {
                                    None
                                },
                            )
                            &&& r->Ok_0@.summary.speed == (match (facts.speed, facts.sysfs_speed) {
                                (Some(v), _) => speed_of(v),
                                (None, Some(t)) => Speed::of_rate(trimmed(t@)),
                                (None, None) => Speed::Unknown,
                            })
                            &&& r->Ok_0@.descriptors.device == device
                            &&& configs_view(r->Ok_0@.descriptors.configs@) == cs
                            &&& r->Ok_0@.endpoints == all_endpoints(config.alts)
                            &&& r->Ok_0@.caps == facts.caps
                            &&& r->Ok_0@.max_transfer == DEFAULT_MAX_TRANSFER
                            &&& r->Ok_0@.pending == Map::<u32, bool>::empty()
                            &&& r->Ok_0@.claimed == Seq::<u8>::empty()
                        },
                    }
                },
            },
    {
        let descriptors = match parse(&facts.blob) {
            Ok(d) => d,
            Err(e) => {
                return Err(OpenError::Descriptors(e));
            },
        };
        let config_value: u8 = active_config(&descriptors, facts.sysfs_config, facts.asked_config);
        let node = node_path(facts.busnum, facts.devnum);
        let path = match sys_path(&facts.busid) {
            Some(p) if facts.in_sysfs => p,
            _ => node.clone(),
        };
        let speed = match facts.speed {
            Some(v) => Speed::from_raw(v),
            None => match &facts.sysfs_speed {
                Some(t) => sysfs_speed(t),
                None => Speed::Unknown,
            },
        };
        let (interfaces, endpoints) = match descriptors.config(config_value) {
            Some(c) => (InterfaceSummary::list_from(c), endpoints_in(c)),
            None => {
                return Err(OpenError::NoSuchConfig { value: config_value });
            },
        };
        let ep_types = types_of(&endpoints);
        let summary = DeviceSummary {
            busnum: facts.busnum,
            devnum: facts.devnum,
            busid: facts.busid,
            sys_path: path,
            node_path: node,
            speed,
            device: descriptors.device,
            config_value,
            interfaces,
        };
        let pending: HashMap<u32, bool> = HashMap::new();
        let claimed: Vec<u8> = Vec::new();
        assert(claimed@ =~= Seq::<u8>::empty());
        assert(pending@ =~= Map::<u32, bool>::empty());
        Ok(
            UsbfsDevice {
                summary,
                descriptors,
                ep_types,
                endpoints,
                caps: facts.caps,
                max_transfer: DEFAULT_MAX_TRANSFER,
                pending,
                claimed,
            },
        )
    }

    pub fn with_max_transfer(self, n: usize) -> (d: UsbfsDevice)
        requires
            self.wf(),
            n <= usize::MAX - SETUP_LEN,
        ensures
            d.wf(),
            d@ == (DeviceState { max_transfer: n, ..self@ }),
    {
        let mut d = self;
        d.max_transfer = n;
        d
    }

    pub fn max_transfer(&self) -> (n: usize)
        ensures
            n == self@.max_transfer,
    {
        self.max_transfer
    }

    pub fn capabilities(&self) -> (caps: u32)
        ensures
            caps == self@.caps,
    {
        self.caps
    }

    pub fn descriptors(&self) -> (d: &Descriptors)
        ensures
            *d == self@.descriptors,
    {
        &self.descriptors
    }

    pub fn summary(&self) -> (s: &DeviceSummary)
        ensures
            *s == self@.summary,
    {
        &self.summary
    }

    /// The interfaces of the configuration in effect, ascending.
    pub fn interface_numbers(&self) -> (v: Vec<u8>)
        ensures
            match self@.config() {
                Some(c) => c.interfaces_are(v@),
                None => v@.len() == 0,
            },
    {
        match self.descriptors.config(self.summary.config_value) {
            Some(c) => c.interface_numbers(),
            None => Vec::new(),
        }
    }

    /// The interrupt IN endpoints by address and packet size, in the order described.
    pub fn interrupt_in_endpoints(&self) -> (v: Vec<(u8, u16)>)
        ensures
            v@ == interrupt_in(self@.endpoints),
    {
        let mut v: Vec<(u8, u16)> = Vec::new();
        let ghost all = self.endpoints@;
        let mut i: usize = 0;
        assert(all.take(0) =~= Seq::empty());
        while i < self.endpoints.len()
            invariant
                i <= self.endpoints@.len(),
                all == self.endpoints@,
                v@ == interrupt_in(all.take(i as int)),
            decreases self.endpoints@.len() - i,
        {
            let e = self.endpoints[i];
            proof {
                assert(all.take(i + 1).drop_last() =~= all.take(i as int));
                assert(all.take(i + 1).last() == e);
            }
            if e.transfer_type() == TransferType::Interrupt && e.is_in() {
                v.push((e.address, e.max_packet_size));
            }
            i = i + 1;
        }
        assert(all.take(i as int) =~= all);
        v
    }
}

/// The speed with the kernel's number `v`.
pub open spec fn speed_of(v: u32) -> Speed {
    if v == 1 {
        Speed::Low
    } else if v == 2 {
        Speed::Full
    } else if v == 3 {
        Speed::High
    } else if v == 4 {
        Speed::Wireless
    } else if v == 5 {
        Speed::Super
    } else if v == 6 {
        Speed::SuperPlus
    } else {
        Speed::Unknown
    }
}

// ---------------------------------------------------------------------------
// Transfers

/// A URB as it goes to the kernel. It has to stay put until it is reaped.
#[derive(Debug, Clone, PartialEq, Eq)]
pub struct Urb {
    pub seqnum: u32,
    pub dir: Direction,
    pub typ: u8,
    pub endpoint: u8,
    pub flags: u32,
    pub buffer: Vec<u8>,
    pub buffer_length: i32,
    /// Control transfers keep the setup packet at the head of `buffer`, so
    /// their payload starts 8 bytes in.
    pub data_offset: usize,
    /// The client's `transfer_buffer_length`: never hand back more than this.
    pub max_reply: usize,
}

/// What a submit comes to.
#[derive(Debug, Clone, PartialEq, Eq)]
pub enum Submission {
    /// Carry out this request through its own ioctl; see [`special_done`].
    Special(Special),
    /// Submit this URB; see [`UsbfsDevice::submitted`].
    Urb(Urb),
}

/// The address and the type of the URB for an endpoint, or why there is none.
/// Isochronous endpoints are refused on purpose: they are the expensive half of a
/// general USB/IP server and no HID device has one.
pub open spec fn endpoint_for(types: Map<u8, u8>, ep: u8, dir: Direction) -> Result<
    (u8, u8),
    SubmitError,
> {
    let addr = endpoint_address(ep, dir);
    if ep == 0 {
        Ok((addr, USBDEVFS_URB_TYPE_CONTROL))
    } else if !types.dom().contains(addr) {
        Err(SubmitError::Urb((-EPIPE) as i32))
    } else if types[addr] == USBDEVFS_URB_TYPE_ISO {
        Err(SubmitError::Urb((-EOPNOTSUPP) as i32))
    } else {
        Ok((addr, types[addr]))
    }
}

/// How many bytes of payload a transfer is given. For control transfers the kernel
/// re-reads the length from the setup packet's `wLength` and requires the buffer to
/// cover it, so the larger of the two counts.
pub open spec fn payload_size(setup: Seq<u8>, buffer_length: usize, control: bool) -> usize {
    if control && setup_word(setup, 6) > buffer_length {
        setup_word(setup, 6) as usize
    } else {
        buffer_length
    }
}

pub fn payload_len(setup: &[u8; 8], buffer_length: usize, control: bool) -> (n: usize)
    ensures
        n == payload_size(setup@, buffer_length, control),
{
    let w_length: usize = word_at(setup, 6) as usize;
    if control && w_length > buffer_length {
        w_length
    } else {
        buffer_length
    }
}

/// The flags of a URB: those of the client's that usbfs knows and that make sense
/// for the transfer.
pub open spec fn urb_flags(req: UrbRequest, typ: u8, caps: u32) -> int {
    (if req.dir is In && req.transfer_flags & SHORT_NOT_OK != 0 {
        USBDEVFS_URB_SHORT_NOT_OK as int
    } else {
        0
    }) + (if req.dir is Out && typ == USBDEVFS_URB_TYPE_BULK && req.transfer_flags & ZERO_PACKET
        != 0 && caps & USBDEVFS_CAP_ZERO_PACKET != 0 {
        USBDEVFS_URB_ZERO_PACKET as int
    } else {
        0
    }) + (if req.transfer_flags & NO_INTERRUPT != 0 {
        USBDEVFS_URB_NO_INTERRUPT as int
    } else {
        0
    })
}

/// The payload part of a buffer of `n` bytes: the client's data as far as it fits,
/// then zeros. There is none to write for an IN transfer.
pub open spec fn payload_bytes(req: UrbRequest, n: int) -> Seq<u8> {
    let kept = if req.dir is In {
        0
    } else if req.data@.len() < n {
        req.data@.len() as int
    } else {
        n
    };
    req.data@.take(kept) + zero_bytes((n - kept) as nat)
}

/// The buffer behind a URB. It is never empty, so that the address handed to the
/// kernel is valid.
pub open spec fn buffer_bytes(req: UrbRequest, control: bool, n: int) -> Seq<u8> {
    if control {
        req.setup@ + payload_bytes(req, n)
    } else if n == 0 {
        zero_bytes(1)
    } else {
        payload_bytes(req, n)
    }
}

impl DeviceState {
    /// Why a request cannot be carried out: no endpoint for it, too large, or a
    /// client that reuses a live seqnum, which would make completions ambiguous.
    pub open spec fn refusal(self, req: UrbRequest) -> Option<SubmitError> {
        match endpoint_for(endpoint_types(self.endpoints), req.ep, req.dir) {
            Err(e) => Some(e),
            Ok((addr, typ)) => {
                let control = typ == USBDEVFS_URB_TYPE_CONTROL;
                if control && Special::of(req.setup@) is Some {
                    None
                } else if payload_size(req.setup@, req.buffer_length, control)
                    > self.max_transfer {
                    Some(SubmitError::Urb((-EINVAL) as i32))
                } else if self.pending.dom().contains(req.seqnum) {
                    Some(SubmitError::Urb((-EBUSY) as i32))
                } else {
                    None
                }
            },
        }
    }

    /// Whether `urb` is what carries out the request.
    pub open spec fn carries_out(self, req: UrbRequest, urb: Urb) -> bool {
        let (addr, typ) = endpoint_for(
            endpoint_types(self.endpoints),
            req.ep,
            req.dir,
        )->Ok_0;
        let control = typ == USBDEVFS_URB_TYPE_CONTROL;
        let n = payload_size(req.setup@, req.buffer_length, control) as int;
        let offset: int = if control {
            SETUP_LEN as int
        } else {
            0
        };
        &&& urb.seqnum == req.seqnum
        &&& urb.dir == req.dir
        &&& urb.typ == typ
        &&& urb.endpoint == addr
        &&& urb.flags == urb_flags(req, typ, self.caps)
        &&& urb.buffer@ == buffer_bytes(req, control, n)
        &&& urb.buffer_length == (offset + n) as usize as i32
        &&& urb.data_offset == offset
        &&& urb.max_reply == req.buffer_length
    }

    /// Whether that is what a request comes to.
    pub open spec fn decides(self, req: UrbRequest, r: Result<Submission, SubmitError>) -> bool {
        match self.refusal(req) {
            Some(e) => r == Err::<Submission, SubmitError>(e),
            None => match r {
                Ok(Submission::Special(s)) => {
                    &&& endpoint_for(
                        endpoint_types(self.endpoints),
                        req.ep,
                        req.dir,
                    )->Ok_0.1 == USBDEVFS_URB_TYPE_CONTROL
                    &&& Special::of(req.setup@) == Some(s)
                },
                Ok(Submission::Urb(urb)) => {
                    &&& self.carries_out(req, urb)
                    &&& urb.typ == USBDEVFS_URB_TYPE_CONTROL ==> Special::of(req.setup@) is None
                    &&& !self.pending.dom().contains(urb.seqnum)
                },
                Err(_) => false,
            },
        }
    }

    /// The device after submitting a URB to the kernel ended so.
    pub open spec fn after_submitted(self, seqnum: u32, errno: Option<i32>) -> DeviceState {
        if errno is None {
            DeviceState { pending: self.pending.insert(seqnum, false), ..self }
        } else {
            self
        }
    }

    /// The device after a URB was to be cancelled.
    pub open spec fn after_unlink(self, seqnum: u32) -> DeviceState {
        if self.pending.dom().contains(seqnum) {
            DeviceState { pending: self.pending.insert(seqnum, true), ..self }
        } else {
            self
        }
    }

    /// The device after a URB was reaped.
    pub open spec fn after_reap(self, seqnum: u32) -> DeviceState {
        DeviceState { pending: self.pending.remove(seqnum), ..self }
    }

    /// The device after every URB in flight was cancelled.
    pub open spec fn after_cancelling(self) -> DeviceState {
        DeviceState {
            pending: Map::new(|s: u32| self.pending.dom().contains(s), |s: u32| true),
            ..self
        }
    }

    /// Whether draining goes on: there is something left to reap, no reap has failed and
    /// there is time left.
    pub open spec fn drains_on(self, failed: bool, past_deadline: bool) -> bool {
        !failed && !past_deadline && self.pending.dom().len() > 0
    }

    /// The device after these URBs were reaped in turn.
    pub open spec fn after_draining(self, reaped: Seq<u32>) -> DeviceState
        decreases reaped.len(),
    {
        if reaped.len() == 0 {
            self
        } else {
            self.after_draining(reaped.drop_last()).after_reap(reaped.last())
        }
    }

    /// Whether `c` is what reaping a URB with this status and length comes to.
    pub open spec fn reaps(self, urb: Urb, status: i32, actual: i32, c: UrbCompletion) -> bool {
        &&& c.seqnum == urb.seqnum
        &&& c.status == status
        &&& c.data@ == UsbfsDevice::reaped_data(urb, actual)
        &&& c.actual_length == (if urb.dir is In {
            c.data@.len() as int
        } else if actual > 0 {
            actual as int
        } else {
            0
        })
        &&& c.unlinked == (self.pending.dom().contains(urb.seqnum) && self.pending[urb.seqnum])
    }
}

/// What the kernel's answer to submitting a URB means.
pub open spec fn submit_outcome(errno: Option<i32>) -> Result<(), SubmitError> {
    match errno {
        None => Ok(()),
        Some(e) => Err(
            if is_gone(e) {
                SubmitError::Fatal(e)
            } else {
                SubmitError::Urb((-e) as i32)
            },
        ),
    }
}

proof fn lemma_flag_bits(f: u32)
    by (bit_vector)
    ensures
        f < 0x40 ==> f | 0x40 == f + 0x40,
        f < 0x80 ==> f | 0x80 == f + 0x80,
        0u32 | 0x01 == 1,
{
}

fn usbfs_flags(req: &UrbRequest, typ: u8, caps: u32) -> (f: u32)
    ensures
        f == urb_flags(*req, typ, caps),
{
    let mut flags: u32 = 0;
    proof {
        lemma_flag_bits(flags);
    }
    if req.dir.is_in() && req.transfer_flags & SHORT_NOT_OK != 0 {
        flags = flags | USBDEVFS_URB_SHORT_NOT_OK;
    }
    proof {
        lemma_flag_bits(flags);
    }
    if !req.dir.is_in() && typ == USBDEVFS_URB_TYPE_BULK && req.transfer_flags & ZERO_PACKET != 0
        && caps & USBDEVFS_CAP_ZERO_PACKET != 0 {
        flags = flags | USBDEVFS_URB_ZERO_PACKET;
    }
    proof {
        lemma_flag_bits(flags);
    }
    if req.transfer_flags & NO_INTERRUPT != 0 {
        flags = flags | USBDEVFS_URB_NO_INTERRUPT;
    }
    flags
}

fn push_zeros(buf: &mut Vec<u8>, n: usize)
    ensures
        final(buf)@ == old(buf)@ + zero_bytes(n as nat),
{
    let mut i: usize = 0;
    assert(buf@ =~= old(buf)@ + zero_bytes(0));
    while i < n
        invariant
            i <= n,
            buf@ == old(buf)@ + zero_bytes(i as nat),
        decreases n - i,
    {
        buf.push(0);
        i = i + 1;
        assert(buf@ =~= old(buf)@ + zero_bytes(i as nat));
    }
}

fn make_buffer(req: &UrbRequest, control: bool, n: usize) -> (buf: Vec<u8>)
    ensures
        buf@ == buffer_bytes(*req, control, n as int),
{
    let mut buf: Vec<u8> = Vec::new();
    if control {
        buf.extend_from_slice(&req.setup);
    }
    let ghost head = buf@;
    assert(head =~= if control {
        req.setup@
    } else {
        Seq::<u8>::empty()
    });
    let kept: usize = if req.dir.is_in() {
        0
    } else if req.data.len() < n {
        req.data.len()
    } else {
        n
    };
    if kept > 0 {
        buf.extend_from_slice(vstd::slice::slice_subrange(req.data.as_slice(), 0, kept));
    }
    assert(buf@ =~= head + req.data@.take(kept as int));
    push_zeros(&mut buf, n - kept);
    assert(buf@ =~= head + payload_bytes(*req, n as int));
    if !control && n == 0 {
        buf.push(0);
    }
    assert(buf@ =~= buffer_bytes(*req, control, n as int));
    buf
}

impl UsbfsDevice {
    fn urb_type_for(&self, ep: u8, dir: Direction) -> (r: Result<(u8, u8), SubmitError>)
        requires
            self.wf(),
        ensures
            r == endpoint_for(endpoint_types(self@.endpoints), ep, dir),
    {
        let addr: u8 = address_of(ep, dir);
        if ep == 0 {
            return Ok((addr, USBDEVFS_URB_TYPE_CONTROL));
        }
        match self.ep_types.get(&addr) {
            Some(t) => {
                let t: u8 = *t;
                if t == USBDEVFS_URB_TYPE_ISO {
                    Err(SubmitError::Urb(-eopnotsupp()))
                } else {
                    Ok((addr, t))
                }
            },
            None => Err(SubmitError::Urb(-epipe())),
        }
    }

    /// Decides what a request comes to. Nothing is recorded until the kernel has
    /// accepted the URB; see [`UsbfsDevice::submitted`].
    pub fn submit(&self, req: UrbRequest) -> (r: Result<Submission, SubmitError>)
        requires
            self.wf(),
        ensures
            self@.decides(req, r),
    {
        let (endpoint, typ) = match self.urb_type_for(req.ep, req.dir) {
            Ok(t) => t,
            Err(e) => {
                return Err(e);
            },
        };
        let control = typ == USBDEVFS_URB_TYPE_CONTROL;
        if control {
            match Special::classify(&req.setup) {
                Some(s) => {
                    return Ok(Submission::Special(s));
                },
                None => {},
            }
        }
        let n: usize = payload_len(&req.setup, req.buffer_length, control);
        if n > self.max_transfer {
            return Err(SubmitError::Urb(-einval()));
        }
        if self.pending.contains_key(&req.seqnum) {
            return Err(SubmitError::Urb(-ebusy()));
        }
        let data_offset: usize = if control {
            SETUP_LEN
        } else {
            0
        };
        let buffer = make_buffer(&req, control, n);
        let flags: u32 = usbfs_flags(&req, typ, self.caps);
        Ok(
            Submission::Urb(
                Urb {
                    seqnum: req.seqnum,
                    dir: req.dir,
                    typ,
                    endpoint,
                    flags,
                    buffer,
                    buffer_length: #[verifier::truncate]
                    ((data_offset + n) as i32),
                    data_offset,
                    max_reply: req.buffer_length,
                },
            ),
        )
    }

    /// Records how submitting a URB to the kernel ended. A URB that the kernel
    /// refused is forgotten; one for a device that is gone ends the session.
    pub fn submitted(&mut self, seqnum: u32, errno: Option<i32>) -> (r: Result<(), SubmitError>)
        requires
            old(self).wf(),
            !old(self)@.pending.dom().contains(seqnum),
            errno matches Some(e) ==> e > i32::MIN,
        ensures
            final(self).wf(),
            r == submit_outcome(errno),
            final(self)@ == old(self)@.after_submitted(seqnum, errno),
    {
        match errno {
            None => {
                self.pending.insert(seqnum, false);
                Ok(())
            },
            Some(e) => {
                if device_gone(e) {
                    Err(SubmitError::Fatal(e))
                } else {
                    Err(SubmitError::Urb(-e))
                }
            },
        }
    }

    /// Marks a URB as cancelled and says whether it is in flight, so that the
    /// kernel has to be told to discard it. The mark stays whether or not the
    /// discard lands: either way the client has been told the URB is finished and
    /// must not see a second completion.
    pub fn unlink(&mut self, seqnum: u32) -> (in_flight: bool)
        requires
            old(self).wf(),
        ensures
            final(self).wf(),
            in_flight == old(self)@.pending.dom().contains(seqnum),
            final(self)@ == old(self)@.after_unlink(seqnum),
    {
        if !self.pending.contains_key(&seqnum) {
            return false;
        }
        self.pending.insert(seqnum, true);
        true
    }

    /// The bytes that a reaped IN transfer hands back: as many as were transferred,
    /// as the client asked for, and as there are.
    pub open spec fn reaped_data(urb: Urb, actual: i32) -> Seq<u8> {
        let avail = urb.buffer@.len() - urb.data_offset;
        let got: int = if actual > 0 {
            actual as int
        } else {
            0
        };
        let n = if got <= urb.max_reply && got <= avail {
            got
        } else if urb.max_reply <= avail {
            urb.max_reply as int
        } else {
            avail
        };
        if urb.dir is In {
            urb.buffer@.subrange(urb.data_offset as int, urb.data_offset + n)
        } else {
            Seq::empty()
        }
    }

    /// Takes back a URB that the kernel is done with, with its status and the
    /// number of bytes that the kernel says were transferred.
    pub fn reap(&mut self, urb: &Urb, status: i32, actual: i32) -> (c: UrbCompletion)
        requires
            old(self).wf(),
            urb.data_offset <= urb.buffer@.len(),
        ensures
            final(self).wf(),
            old(self)@.reaps(*urb, status, actual, c),
            final(self)@ == old(self)@.after_reap(urb.seqnum),
    {
        let unlinked = match self.pending.remove(&urb.seqnum) {
            Some(u) => u,
            None => false,
        };
        assert(self@.pending =~= old(self)@.pending.remove(urb.seqnum));
        let actual: usize = if actual > 0 {
            actual as usize
        } else {
            0
        };
        if urb.dir.is_in() {
            let off: usize = urb.data_offset;
            let avail: usize = urb.buffer.len() - off;
            let asked: usize = if actual < urb.max_reply {
                actual
            } else {
                urb.max_reply
            };
            let n: usize = if asked < avail {
                asked
            } else {
                avail
            };
            let data = vstd::slice::slice_to_vec(
                vstd::slice::slice_subrange(urb.buffer.as_slice(), off, off + n),
            );
            UrbCompletion { seqnum: urb.seqnum, status, actual_length: n, data, unlinked }
        } else {
            let data: Vec<u8> = Vec::new();
            assert(data@ =~= Seq::<u8>::empty());
            UrbCompletion { seqnum: urb.seqnum, status, actual_length: actual, data, unlinked }
        }
    }

    /// Marks every URB in flight as cancelled and lists them, each once, for the
    /// kernel to be told to discard them.
    ///
    /// A session must do this before it ends. Seqnums are per-session, but on
    /// Android the same device is handed to the next importer, so a URB left in
    /// flight here is reaped by *that* session and answered with a seqnum it never
    /// sent — which `vhci_hcd` rejects, killing the new attach.
    pub fn cancel_pending(&mut self) -> (v: Vec<u32>)
        requires
            old(self).wf(),
        ensures
            final(self).wf(),
            v@.no_duplicates(),
            forall|s: u32| #[trigger] v@.contains(s) <==> old(self)@.pending.dom().contains(s),
            final(self)@ == old(self)@.after_cancelling(),
    {
        let v = keys_of(&self.pending);
        let ghost all = self.pending@;
        let mut i: usize = 0;
        while i < v.len()
            invariant
                i <= v@.len(),
                v@.no_duplicates(),
                forall|s: u32| #[trigger] v@.contains(s) <==> all.dom().contains(s),
                all == old(self)@.pending,
                self.wf(),
                self@ == (DeviceState { pending: self@.pending, ..old(self)@ }),
                self@.pending.dom() == all.dom(),
                forall|k: int| 0 <= k < i ==> self@.pending[#[trigger] v@[k]],
            decreases v@.len() - i,
        {
            let s: u32 = v[i];
            assert(v@.contains(s));
            self.unlink(s);
            assert(self@.pending.dom() =~= all.dom());
            i = i + 1;
        }
        proof {
            let want = Map::new(|s: u32| all.dom().contains(s), |s: u32| true);
            assert forall|s: u32| all.dom().contains(s) implies self@.pending[s] by {
                assert(v@.contains(s));
                let k = choose|k: int| 0 <= k < v@.len() && v@[k] == s;
                assert(self@.pending[v@[k]]);
            }
            assert(self@.pending =~= want);
        }
        v
    }

    /// Whether draining what the cancellations completed goes on. It is bounded: a
    /// device that has stopped answering must not hold a session's teardown open.
    pub fn keep_draining(&self, failed: bool, past_deadline: bool) -> (r: bool)
        requires
            self.wf(),
        ensures
            r == self@.drains_on(failed, past_deadline),
    {
        !failed && !past_deadline && self.pending.len() > 0
    }
}

fn keys_of(m: &HashMap<u32, bool>) -> (v: Vec<u32>)
    ensures
        v@.no_duplicates(),
        forall|s: u32| #[trigger] v@.contains(s) <==> m@.dom().contains(s),
{
    let mut v: Vec<u32> = Vec::new();
    let ghost all = spec_keys_iter(m).remaining().unref();
    for k in it: m.keys()
        invariant
            it.seq().unref() == all,
            v@ == all.take(it.index()),
    {
        v.push(*k);
        assert(v@ =~= all.take(it.index() + 1));
    }
    proof {
        assert(v@ =~= all);
        assert(all.to_set() == m@.dom());
        assert forall|s: u32| #[trigger] v@.contains(s) <==> m@.dom().contains(s) by {
            assert(all.to_set().contains(s) <==> all.contains(s));
        }
    }
    v
}

/// What the kernel answers to a reap means: nothing is ready yet, or the reap
/// failed with this errno.
pub fn reap_error(errno: i32) -> (r: Option<i32>)
    ensures
        r == (if errno == EAGAIN {
            None
        } else {
            Some(errno)
        }),
{
    if errno == eagain() {
        None
    } else {
        Some(errno)
    }
}

// ---------------------------------------------------------------------------
// Interfaces

/// The ways to take an interface, in the order in which they are tried.
#[derive(Debug, Clone, Copy, PartialEq, Eq, Structural)]
pub enum ClaimCall {
    /// Evict the bound driver and claim, in one step and without a window where
    /// another process could grab the interface.
    DisconnectClaim,
    /// Evict the bound driver, on kernels too old for the above.
    Disconnect,
    /// Claim the interface, after that.
    Claim,
}

#[derive(Debug, Clone, Copy, PartialEq, Eq, Structural)]
pub enum ClaimStep {
    Call(ClaimCall),
    Claimed,
    Fail(i32),
}

/// What follows a call that ended without an error or with `errno`. A kernel that
/// does not know the one-step call is asked in two; that nothing was bound in the
/// first place is no error.
pub open spec fn claim_next(call: ClaimCall, errno: Option<i32>) -> ClaimStep {
    match (call, errno) {
        (ClaimCall::DisconnectClaim, None) => ClaimStep::Claimed,
        (ClaimCall::DisconnectClaim, Some(e)) => if e == ENOTTY || e == EINVAL {
            ClaimStep::Call(ClaimCall::Disconnect)
        } else {
            ClaimStep::Fail(e)
        },
        (ClaimCall::Disconnect, None) => ClaimStep::Call(ClaimCall::Claim),
        (ClaimCall::Disconnect, Some(e)) => if e == ENODATA {
            ClaimStep::Call(ClaimCall::Claim)
        } else {
            ClaimStep::Fail(e)
        },
        (ClaimCall::Claim, None) => ClaimStep::Claimed,
        (ClaimCall::Claim, Some(e)) => ClaimStep::Fail(e),
    }
}

pub fn claim_step(call: ClaimCall, errno: Option<i32>) -> (s: ClaimStep)
    ensures
        s == claim_next(call, errno),
{
    match call {
        ClaimCall::DisconnectClaim => match errno {
            None => ClaimStep::Claimed,
            Some(e) => {
                if e == enotty() || e == einval() {
                    ClaimStep::Call(ClaimCall::Disconnect)
                } else {
                    ClaimStep::Fail(e)
                }
            },
        },
        ClaimCall::Disconnect => match errno {
            None => ClaimStep::Call(ClaimCall::Claim),
            Some(e) => {
                if e == enodata() {
                    ClaimStep::Call(ClaimCall::Claim)
                } else {
                    ClaimStep::Fail(e)
                }
            },
        },
        ClaimCall::Claim => match errno {
            None => ClaimStep::Claimed,
            Some(e) => ClaimStep::Fail(e),
        },
    }
}

/// What to do after the kernel was asked to rebind a driver.
#[derive(Debug, Clone, Copy, PartialEq, Eq, Structural)]
pub enum ReconnectStep {
    /// A driver is bound, or there is none for the interface.
    Done(i32),
    /// Wait for [`RECONNECT_BACKOFF_MS`] and ask again.
    Retry,
    Fail(i32),
}

/// What follows an attempt to have a driver rebound.
pub open spec fn reconnect_next(attempt: u32, outcome: Result<i32, i32>) -> ReconnectStep {
    match outcome {
        Ok(rc) => ReconnectStep::Done(rc),
        Err(e) => if e == EBUSY {
            ReconnectStep::Done(0)
        } else if attempt + 1 < RECONNECT_ATTEMPTS {
            ReconnectStep::Retry
        } else {
            ReconnectStep::Fail(e)
        },
    }
}

/// `attempt` counts from zero; `outcome` is what the ioctl returned or its errno.
///
/// Rebinding runs the driver's probe synchronously. For a HID interface that probe
/// fetches a report descriptor, and firing seven of them back to back at a
/// full-speed device is enough to make the later ones time out. Hence the retries.
/// That something has bound the interface already is the outcome that was wanted.
pub fn reconnect_step(attempt: u32, outcome: Result<i32, i32>) -> (s: ReconnectStep)
    requires
        attempt < RECONNECT_ATTEMPTS,
    ensures
        s == reconnect_next(attempt, outcome),
        s == (match outcome {
            Ok(rc) => ReconnectStep::Done(rc),
            Err(e) => if e == EBUSY {
                ReconnectStep::Done(0)
            } else if attempt + 1 < RECONNECT_ATTEMPTS {
                ReconnectStep::Retry
            } else {
                ReconnectStep::Fail(e)
            },
        }),
{
    match outcome {
        Ok(rc) => ReconnectStep::Done(rc),
        Err(e) => {
            if e == ebusy() {
                ReconnectStep::Done(0)
            } else if attempt + 1 < RECONNECT_ATTEMPTS {
                ReconnectStep::Retry
            } else {
                ReconnectStep::Fail(e)
            }
        },
    }
}

/// A step of handing interfaces back to the kernel.
#[derive(Debug, Clone, Copy, PartialEq, Eq, Structural)]
pub enum HandBack {
    Release(u8),
    /// Ask the kernel to rebind a driver, so that the controller works locally
    /// again. Releasing does not do this on its own.
    Reconnect(u8),
}

/// Everything is released before anything is reconnected. A multi-interface driver
/// claims its extra interfaces during probe; rebinding one interface while its
/// sibling is still held makes that claim fail, the probe fails, and the device is
/// left with no driver at all until it is physically replugged.
pub open spec fn hand_back_steps(claimed: Seq<u8>) -> Seq<HandBack> {
    claimed.map_values(|n: u8| HandBack::Release(n)) + claimed.map_values(
        |n: u8| HandBack::Reconnect(n),
    )
}

impl UsbfsDevice {
    /// The interfaces that are still to be claimed, ascending.
    pub fn unclaimed(&self) -> (v: Vec<u8>)
        requires
            self.wf(),
        ensures
            forall|i: int, j: int| 0 <= i < j < v@.len() ==> v@[i] < v@[j],
            forall|n: u8| #[trigger]
                v@.contains(n) <==> !self@.claimed.contains(n) && self@.config() is Some
                    && self@.config().unwrap().has_interface(n),
    {
        let all = self.interface_numbers();
        let mut v: Vec<u8> = Vec::new();
        let mut i: usize = 0;
        while i < all.len()
            invariant
                i <= all@.len(),
                forall|a: int, b: int| 0 <= a < b < all@.len() ==> all@[a] < all@[b],
                forall|a: int, b: int| 0 <= a < b < v@.len() ==> v@[a] < v@[b],
                forall|a: int| 0 <= a < v@.len() && i < all@.len() ==> v@[a] < all@[i as int],
                forall|n: u8| #[trigger]
                    v@.contains(n) <==> all@.take(i as int).contains(n) && !self@.claimed.contains(
                        n,
                    ),
            decreases all@.len() - i,
        {
            let n: u8 = all[i];
            let ghost before = v@;
            let held = self.holds(n);
            proof {
                assert(all@.take(i + 1) =~= all@.take(i as int).push(n));
                assert(all@.take(i + 1).last() == n);
            }
            if !held {
                v.push(n);
            }
            proof {
                assert forall|m: u8| #[trigger] v@.contains(m) <==> all@.take(i + 1).contains(m)
                    && !self@.claimed.contains(m) by {
                    if v@.contains(m) {
                        let k = choose|k: int| 0 <= k < v@.len() && v@[k] == m;
                        if k < before.len() {
                            assert(before.contains(m));
                            let shorter = all@.take(i as int);
                            let t = choose|t: int| 0 <= t < shorter.len() && shorter[t] == m;
                            assert(all@.take(i + 1)[t] == m);
                        } else {
                            assert(all@.take(i + 1)[i as int] == m);
                        }
                    }
                    if all@.take(i + 1).contains(m) && !self@.claimed.contains(m) {
                        let longer = all@.take(i + 1);
                        let t = choose|t: int| 0 <= t < longer.len() && longer[t] == m;
                        if t < i {
                            assert(all@.take(i as int)[t] == m);
                            assert(before.contains(m));
                            let k = choose|k: int| 0 <= k < before.len() && before[k] == m;
                            assert(v@[k] == m);
                        } else {
                            assert(v@.last() == m);
                        }
                    }
                }
            }
            i = i + 1;
        }
        proof {
            assert(all@.take(i as int) =~= all@);
            if self@.config() is None {
                assert(all@.len() == 0);
            }
        }
        v
    }

    fn holds(&self, n: u8) -> (r: bool)
        ensures
            r == self@.claimed.contains(n),
    {
        let mut i: usize = 0;
        while i < self.claimed.len()
            invariant
                i <= self.claimed@.len(),
                forall|j: int| 0 <= j < i ==> self.claimed@[j] != n,
            decreases self.claimed@.len() - i,
        {
            if self.claimed[i] == n {
                return true;
            }
            i = i + 1;
        }
        false
    }

    /// Records that an interface has been claimed.
    pub fn claimed(&mut self, n: u8)
        requires
            old(self).wf(),
        ensures
            final(self).wf(),
            final(self)@ == (DeviceState {
                claimed: if old(self)@.claimed.contains(n) {
                    old(self)@.claimed
                } else {
                    old(self)@.claimed.push(n)
                },
                ..old(self)@
            }),
    {
        if !self.holds(n) {
            self.claimed.push(n);
        }
    }

    /// Lets go of every interface that was claimed; the steps are to be carried out
    /// in order.
    pub fn release_all(&mut self) -> (steps: Vec<HandBack>)
        requires
            old(self).wf(),
        ensures
            final(self).wf(),
            steps@ == hand_back_steps(old(self)@.claimed),
            final(self)@ == (DeviceState { claimed: Seq::empty(), ..old(self)@ }),
    {
        let mut steps: Vec<HandBack> = Vec::new();
        let ghost held = self.claimed@;
        let ghost first = held.map_values(|n: u8| HandBack::Release(n));
        let ghost second = held.map_values(|n: u8| HandBack::Reconnect(n));
        let mut i: usize = 0;
        while i < self.claimed.len()
            invariant
                i <= self.claimed@.len(),
                held == self.claimed@,
                *self == *old(self),
                first == held.map_values(|n: u8| HandBack::Release(n)),
                steps@ == first.take(i as int),
            decreases self.claimed@.len() - i,
        {
            steps.push(HandBack::Release(self.claimed[i]));
            i = i + 1;
            assert(steps@ =~= first.take(i as int));
        }
        assert(steps@ =~= first + second.take(0));
        let mut k: usize = 0;
        while k < self.claimed.len()
            invariant
                k <= self.claimed@.len(),
                held == self.claimed@,
                *self == *old(self),
                second == held.map_values(|n: u8| HandBack::Reconnect(n)),
                steps@ == first + second.take(k as int),
            decreases self.claimed@.len() - k,
        {
            steps.push(HandBack::Reconnect(self.claimed[k]));
            k = k + 1;
            assert(steps@ =~= first + second.take(k as int));
        }
        assert(second.take(k as int) =~= second);
        self.claimed = Vec::new();
        assert(self@.claimed =~= Seq::<u8>::empty());
        steps
    }
}

// ---------------------------------------------------------------------------
// Laws

/// No interface is reconnected before all have been released, and both happen to
/// every claimed interface.
pub proof fn lemma_release_before_reconnect(claimed: Seq<u8>, i: int, j: int)
    requires
        0 <= i < hand_back_steps(claimed).len(),
        0 <= j < hand_back_steps(claimed).len(),
        hand_back_steps(claimed)[i] is Release,
        hand_back_steps(claimed)[j] is Reconnect,
    ensures
        i < j,
        hand_back_steps(claimed).len() == 2 * claimed.len(),
        forall|k: int|
            0 <= k < claimed.len() ==> hand_back_steps(claimed)[k] == HandBack::Release(
                #[trigger] claimed[k],
            ) && hand_back_steps(claimed)[claimed.len() + k] == HandBack::Reconnect(claimed[k]),
{
}

/// A request on an isochronous endpoint is refused as unsupported and one on an
/// endpoint that the device does not have as broken, whatever else it says. The
/// control endpoint is there on every device.
pub proof fn lemma_endpoints_decide(d: DeviceState, req: UrbRequest)
    ensures
        ({
            let types = endpoint_types(d.endpoints);
            let addr = endpoint_address(req.ep, req.dir);
            &&& req.ep != 0 && types.dom().contains(addr) && types[addr] == USBDEVFS_URB_TYPE_ISO
                ==> d.refusal(req) == Some(SubmitError::Urb((-EOPNOTSUPP) as i32))
            &&& req.ep != 0 && !types.dom().contains(addr) ==> d.refusal(req) == Some(
                SubmitError::Urb((-EPIPE) as i32),
            )
            &&& req.ep == 0 ==> endpoint_for(types, req.ep, req.dir) is Ok
        }),
{
}

/// The buffer of a URB covers what the kernel is told, is never empty, holds the
/// setup packet of a control transfer at its head, and leaves room for all that the
/// client may be handed back.
pub proof fn lemma_buffer_covers_transfer(d: DeviceState, req: UrbRequest, urb: Urb)
    requires
        d.wf(),
        d.refusal(req) is None,
        d.carries_out(req, urb),
        Special::of(req.setup@) is None || urb.typ != USBDEVFS_URB_TYPE_CONTROL,
    ensures
        urb.buffer@.len() >= 1,
        urb.data_offset + req.buffer_length <= urb.buffer@.len() || req.buffer_length == 0,
        urb.data_offset <= urb.buffer@.len(),
        urb.typ == USBDEVFS_URB_TYPE_CONTROL ==> {
            &&& urb.buffer@.take(8) == req.setup@
            &&& urb.buffer@.len() >= 8 + setup_word(req.setup@, 6)
        },
        urb.buffer@.len() <= d.max_transfer + 8 || urb.buffer@.len() == 1,
{
    if urb.typ == USBDEVFS_URB_TYPE_CONTROL {
        assert(urb.buffer@.take(8) =~= req.setup@);
    }
}

/// A completion hands back no more than was transferred and no more than the client
/// asked for, whatever the kernel says was transferred.
pub proof fn lemma_no_more_than_was_asked_for(urb: Urb, actual: i32)
    requires
        urb.data_offset <= urb.buffer@.len(),
    ensures
        ({
            let data = UsbfsDevice::reaped_data(urb, actual);
            &&& data.len() <= urb.max_reply
            &&& data.len() <= (if actual > 0 {
                actual as int
            } else {
                0
            })
            &&& data.len() <= urb.buffer@.len() - urb.data_offset
        }),
{
}

proof fn lemma_after_draining(d: DeviceState, reaped: Seq<u32>)
    ensures
        ({
            let end = d.after_draining(reaped);
            &&& end == (DeviceState { pending: end.pending, ..d })
            &&& d.pending.dom().finite() ==> end.pending.dom().finite()
            &&& forall|s: u32| #[trigger]
                end.pending.dom().contains(s) <==> d.pending.dom().contains(s) && !reaped.contains(
                    s,
                )
            &&& forall|s: u32| #[trigger]
                end.pending.dom().contains(s) ==> end.pending[s] == d.pending[s]
        }),
    decreases reaped.len(),
{
    if reaped.len() > 0 {
        let init = reaped.drop_last();
        lemma_after_draining(d, init);
        let had = d.after_draining(init);
        let end = d.after_draining(reaped);
        assert(end == had.after_reap(reaped.last()));
        assert(reaped.contains(reaped[reaped.len() - 1]));
        assert forall|s: u32| #[trigger] end.pending.dom().contains(s) <==> (
        d.pending.dom().contains(s) && !reaped.contains(s)) by {
            if reaped.contains(s) && s != reaped.last() {
                let k = choose|k: int| 0 <= k < reaped.len() && reaped[k] == s;
                assert(init[k] == s);
            }
            if init.contains(s) {
                let k = choose|k: int| 0 <= k < init.len() && init[k] == s;
                assert(reaped[k] == s);
            }
            assert(had.pending.dom().contains(s) <==> d.pending.dom().contains(s)
                && !init.contains(s));
        }
        assert forall|s: u32| #[trigger] end.pending.dom().contains(s) implies end.pending[s]
            == d.pending[s] by {
            assert(had.pending.dom().contains(s));
        }
    }
}

/// A teardown leaves nothing behind that could be answered. Once every URB in flight has
/// been cancelled, and these have been reaped in turn:
/// draining that has ended, and neither failed nor ran out of time, has left no URB
/// pending, and it has ended if every URB was handed back; and however it ended, no URB
/// is pending that was not before, and each that still is completes as one not to be
/// reported.
pub proof fn lemma_teardown_leaves_nothing(
    d: DeviceState,
    reaped: Seq<u32>,
    failed: bool,
    past_deadline: bool,
)
    requires
        d.wf(),
    ensures
        ({
            let end = d.after_cancelling().after_draining(reaped);
            &&& end.wf()
            &&& end == (DeviceState { pending: end.pending, ..d })
            &&& !end.drains_on(failed, past_deadline) && !failed && !past_deadline
                ==> end.pending == Map::<u32, bool>::empty()
            &&& (forall|s: u32| #[trigger] d.pending.dom().contains(s) ==> reaped.contains(s))
                ==> end.pending == Map::<u32, bool>::empty() && !end.drains_on(
                failed,
                past_deadline,
            )
            &&& forall|s: u32| #[trigger]
                end.pending.dom().contains(s) <==> d.pending.dom().contains(s) && !reaped.contains(
                    s,
                )
            &&& forall|urb: Urb, status: i32, actual: i32, c: UrbCompletion|
                end.pending.dom().contains(urb.seqnum) && #[trigger] end.reaps(
                    urb,
                    status,
                    actual,
                    c,
                ) ==> c.unlinked
        }),
{
    let cancelled = d.after_cancelling();
    assert(cancelled.pending.dom() =~= d.pending.dom());
    lemma_after_draining(cancelled, reaped);
    let end = cancelled.after_draining(reaped);
    if end.pending.dom().len() == 0 {
        assert(end.pending.dom() =~= Set::<u32>::empty());
        assert(end.pending =~= Map::<u32, bool>::empty());
    }
    if forall|s: u32| #[trigger] d.pending.dom().contains(s) ==> reaped.contains(s) {
        assert forall|s: u32| !end.pending.dom().contains(s) by {
            if cancelled.pending.dom().contains(s) {
                assert(d.pending.dom().contains(s));
            }
        }
        assert(end.pending.dom() =~= Set::<u32>::empty());
        assert(end.pending =~= Map::<u32, bool>::empty());
    }
    assert forall|urb: Urb, status: i32, actual: i32, c: UrbCompletion|
        end.pending.dom().contains(urb.seqnum) && #[trigger] end.reaps(
            urb,
            status,
            actual,
            c,
        ) implies c.unlinked by {
        assert(end.pending[urb.seqnum] == cancelled.pending[urb.seqnum]);
    }
}

/// What a URB is, field by field, of a request that the device takes as one.
///
/// It goes to the endpoint of the request's number, in its direction. Its buffer holds
/// the setup packet first if it is a control transfer; behind that stand the bytes that
/// the client sent, each in its place, and zeros, as many bytes as the client asked for
/// or, of a control transfer, as its setup packet says if that is more. A buffer that
/// would be empty has one byte. The kernel is told the length of the setup packet and of
/// these bytes.
pub proof fn lemma_a_urb_carries_the_request(d: DeviceState, req: UrbRequest, urb: Urb)
    requires
        d.wf(),
        d.max_transfer <= 0x7000_0000,
        d.decides(req, Ok(Submission::Urb(urb))),
    ensures
        ({
            let off = urb.data_offset as int;
            let asked = req.setup@[6] + 256 * req.setup@[7];
            let payload = if off == 8 && asked > req.buffer_length {
                asked
            } else {
                req.buffer_length as int
            };
            &&& urb.seqnum == req.seqnum
            &&& urb.dir == req.dir
            &&& req.dir is In && req.ep < 128 ==> urb.endpoint == req.ep + 128
            &&& req.dir is Out && req.ep < 128 ==> urb.endpoint == req.ep
            &&& urb.max_reply == req.buffer_length
            &&& off == 8 || off == 0
            &&& off == 8 <==> urb.typ == 2
            &&& req.ep == 0 ==> off == 8
            &&& off == 8 ==> urb.buffer@.take(8) == req.setup@
            &&& urb.buffer@.len() == (if off + payload == 0 {
                1
            } else {
                off + payload
            })
            &&& urb.buffer_length == off + payload
            &&& req.dir is Out && req.data@.len() <= req.buffer_length ==> urb.buffer@.subrange(
                off,
                off + req.data@.len(),
            ) == req.data@
            &&& req.dir is Out ==> forall|k: int|
                off + req.data@.len() <= k < urb.buffer@.len() ==> #[trigger] urb.buffer@[k] == 0
            &&& req.dir is In ==> forall|k: int|
                off <= k < urb.buffer@.len() ==> #[trigger] urb.buffer@[k] == 0
            &&& !d.pending.dom().contains(req.seqnum)
        }),
{
    let control = urb.typ == USBDEVFS_URB_TYPE_CONTROL;
    let n = payload_size(req.setup@, req.buffer_length, control) as int;
    let off = urb.data_offset as int;
    if control {
        assert(urb.buffer@.take(8) =~= req.setup@);
    }
    assert(urb.buffer@.len() == (if off + n == 0 {
        1
    } else {
        off + n
    }));
    if req.dir is Out && req.data@.len() <= req.buffer_length {
        assert(urb.buffer@.subrange(off, off + req.data@.len()) =~= req.data@) by {
            assert forall|k: int| 0 <= k < req.data@.len() implies urb.buffer@[off + k]
                == req.data@[k] by {
                assert(payload_bytes(req, n)[k] == req.data@[k]);
            }
        }
    }
    if req.dir is Out {
        assert forall|k: int| off + req.data@.len() <= k < urb.buffer@.len() implies
            #[trigger] urb.buffer@[k] == 0 by {
            if n > 0 {
                assert(urb.buffer@[k] == payload_bytes(req, n)[k - off]);
            }
        }
    } else {
        assert forall|k: int| off <= k < urb.buffer@.len() implies #[trigger] urb.buffer@[k]
            == 0 by {
            if n > 0 {
                assert(urb.buffer@[k] == payload_bytes(req, n)[k - off]);
            }
        }
    }
}

/// The flags of a URB, bit by bit: that a short transfer is an error only where data
/// comes in, that a transfer ends in a zero packet only where bulk data goes out and the
/// kernel can do that, that no interrupt is needed where the client says so.
pub proof fn lemma_urb_flags(d: DeviceState, req: UrbRequest, urb: Urb)
    requires
        d.decides(req, Ok(Submission::Urb(urb))),
    ensures
        urb.flags & 1 != 0 <==> req.dir is In && req.transfer_flags & 1 != 0,
        urb.flags & 0x40 != 0 <==> req.dir is Out && urb.typ == 3 && req.transfer_flags & 0x40 != 0
            && d.caps & 1 != 0,
        urb.flags & 0x80 != 0 <==> req.transfer_flags & 0x80 != 0,
        urb.flags & !0xc1u32 == 0,
{
    let f = urb.flags;
    assert(f == 0 || f == 1 || f == 0x40 || f == 0x41 || f == 0x80 || f == 0x81 || f == 0xc0 || f
        == 0xc1);
    assert((f == 0 || f == 1 || f == 0x40 || f == 0x41 || f == 0x80 || f == 0x81 || f == 0xc0 || f
        == 0xc1) ==> {
        &&& (f & 1 != 0) == (f == 1 || f == 0x41 || f == 0x81 || f == 0xc1)
        &&& (f & 0x40 != 0) == (f == 0x40 || f == 0x41 || f == 0xc0 || f == 0xc1)
        &&& (f & 0x80 != 0) == (f >= 0x80)
        &&& f & !0xc1u32 == 0
    }) by (bit_vector);
}

proof fn lemma_endpoint_type(eps: Seq<EndpointDescriptor>, i: int)
    requires
        0 <= i < eps.len(),
        forall|k: int| i < k < eps.len() ==> (#[trigger] eps[k]).address != eps[i].address,
    ensures
        endpoint_types(eps).dom().contains(eps[i].address),
        endpoint_types(eps)[eps[i].address] == urb_type_of(TransferType::of(eps[i].attributes)),
    decreases eps.len(),
{
    if i < eps.len() - 1 {
        let rest = eps.drop_last();
        assert(rest[i] == eps[i]);
        assert forall|k: int| i < k < rest.len() implies (#[trigger] rest[k]).address
            != rest[i].address by {
            assert(rest[k] == eps[k]);
        }
        lemma_endpoint_type(rest, i);
        assert(eps[eps.len() - 1].address != eps[i].address);
    }
}

proof fn lemma_no_endpoint_type(eps: Seq<EndpointDescriptor>, a: u8)
    requires
        a != 0,
        a != 0x80,
        forall|k: int| 0 <= k < eps.len() ==> (#[trigger] eps[k]).address != a,
    ensures
        !endpoint_types(eps).dom().contains(a),
    decreases eps.len(),
{
    if eps.len() > 0 {
        let rest = eps.drop_last();
        assert forall|k: int| 0 <= k < rest.len() implies (#[trigger] rest[k]).address != a by {
            assert(rest[k] == eps[k]);
        }
        assert(eps[eps.len() - 1].address != a);
        lemma_no_endpoint_type(rest, a);
    }
}

/// What an endpoint's descriptor makes of the requests on it, by the lowest two bits of
/// its attributes: control, isochronous, bulk or interrupt. An isochronous endpoint is
/// refused as unsupported; of the others the URB has usbfs's number. A request on an
/// endpoint that no descriptor names is refused as broken.
pub proof fn lemma_descriptors_decide_the_type(
    d: DeviceState,
    req: UrbRequest,
    i: int,
    r: Result<Submission, SubmitError>,
)
    requires
        0 < req.ep < 16,
        d.decides(req, r),
        0 <= i <= d.endpoints.len(),
        ({
            let address = if req.dir is In {
                req.ep + 128
            } else {
                req.ep as int
            };
            &&& i < d.endpoints.len() ==> d.endpoints[i].address == address
            &&& forall|k: int|
                0 <= k < d.endpoints.len() && (k > i || i == d.endpoints.len()) ==> (
                #[trigger] d.endpoints[k]).address != address
        }),
    ensures
        i == d.endpoints.len() ==> r == Err::<Submission, SubmitError>(
            SubmitError::Urb((-EPIPE) as i32),
        ),
        i < d.endpoints.len() ==> {
            let kind = d.endpoints[i].attributes % 4;
            &&& kind == 1 ==> r == Err::<Submission, SubmitError>(
                SubmitError::Urb((-EOPNOTSUPP) as i32),
            )
            &&& r matches Ok(Submission::Urb(urb)) ==> urb.typ == (if kind == 0 {
                2u8
            } else if kind == 2 {
                3u8
            } else {
                1u8
            })
            &&& r matches Ok(Submission::Special(_)) ==> kind == 0
        },
{
    if i < d.endpoints.len() {
        lemma_endpoint_type(d.endpoints, i);
    } else {
        let a = endpoint_address(req.ep, req.dir);
        lemma_no_endpoint_type(d.endpoints, a);
    }
}

/// When the device takes a request: one on an endpoint that it can serve, that is no
/// larger than the limit and whose seqnum is free, becomes a URB; a larger one is refused
/// as invalid, and one whose seqnum is in flight as busy. A standard request that changes
/// state becomes an ioctl instead, whatever its size and seqnum.
pub proof fn lemma_requests_that_are_taken(
    d: DeviceState,
    req: UrbRequest,
    r: Result<Submission, SubmitError>,
)
    requires
        d.decides(req, r),
        req.ep == 0,
    ensures
        ({
            let asked = req.setup@[6] + 256 * req.setup@[7];
            let s = req.setup@;
            let value = s[2] + 256 * s[3];
            let index = s[4] + 256 * s[5];
            if s[0] == 0 && s[1] == 5 {
                r == Ok::<Submission, SubmitError>(
                    Submission::Special(Special::SetAddress(value as u16)),
                )
            } else if s[0] == 0 && s[1] == 9 {
                r == Ok::<Submission, SubmitError>(
                    Submission::Special(Special::SetConfiguration(value as u16)),
                )
            } else if s[0] == 1 && s[1] == 11 {
                r == Ok::<Submission, SubmitError>(
                    Submission::Special(
                        Special::SetInterface { interface: index as u16, alt: value as u16 },
                    ),
                )
            } else if s[0] == 2 && s[1] == 1 && value == 0 {
                r == Ok::<Submission, SubmitError>(
                    Submission::Special(Special::ClearHalt(index as u16)),
                )
            } else if asked > d.max_transfer || req.buffer_length > d.max_transfer {
                r == Err::<Submission, SubmitError>(SubmitError::Urb((-EINVAL) as i32))
            } else if d.pending.dom().contains(req.seqnum) {
                r == Err::<Submission, SubmitError>(SubmitError::Urb((-EBUSY) as i32))
            } else {
                r is Ok && r->Ok_0 is Urb
            }
        }),
{
}

/// What the device sent comes back. If a request became a URB, and after the transfer its
/// buffer holds what stood before the payload, then what was received, then anything,
/// and the kernel says how much was received, no more than was asked for: the completion
/// holds just that, whether or not a setup packet stands before it.
pub proof fn lemma_what_was_received_comes_back(
    d: DeviceState,
    req: UrbRequest,
    urb: Urb,
    filled: Urb,
    received: Seq<u8>,
    rest: Seq<u8>,
    status: i32,
    actual: i32,
    after: DeviceState,
    c: UrbCompletion,
)
    requires
        d.decides(req, Ok(Submission::Urb(urb))),
        req.dir is In,
        filled.seqnum == urb.seqnum,
        filled.dir == urb.dir,
        filled.data_offset == urb.data_offset,
        filled.max_reply == urb.max_reply,
        filled.buffer@ == (if urb.typ == 2 {
            req.setup@
        } else {
            Seq::<u8>::empty()
        }) + received + rest,
        received.len() == actual,
        received.len() <= req.buffer_length,
        after.reaps(filled, status, actual, c),
    ensures
        c.data@ == received,
        c.actual_length == received.len(),
        c.status == status,
        c.seqnum == req.seqnum,
{
    assert(c.data@ =~= received);
}

/// A completion's bytes are those of the buffer behind the setup packet, in order, as many
/// as were transferred, asked for and there; data that went out does not come back, but
/// its length does.
pub proof fn lemma_reaped_bytes(
    d: DeviceState,
    urb: Urb,
    status: i32,
    actual: i32,
    c: UrbCompletion,
)
    requires
        urb.data_offset <= urb.buffer@.len(),
        d.reaps(urb, status, actual, c),
    ensures
        urb.dir is In ==> {
            let there = urb.buffer@.len() - urb.data_offset;
            let n = c.data@.len() as int;
            &&& forall|k: int|
                0 <= k < n ==> #[trigger] c.data@[k] == urb.buffer@[urb.data_offset + k]
            &&& n <= urb.max_reply && n <= there
            &&& actual >= 0 ==> n <= actual && (n == actual || n == urb.max_reply || n == there)
            &&& actual < 0 ==> n == 0
            &&& c.actual_length == n
        },
        urb.dir is Out ==> c.data@.len() == 0 && c.actual_length == (if actual < 0 {
            0
        } else {
            actual as int
        }),
        c.seqnum == urb.seqnum,
        c.status == status,
        c.unlinked <==> d.pending.dom().contains(urb.seqnum) && d.pending[urb.seqnum],
{
}

/// What is in flight, operation by operation: a URB that the kernel accepts is, and has
/// not been cancelled; one that it refuses is not; cancelling marks it and no other;
/// reaping takes it out and no other. Nothing else of the device changes.
pub proof fn lemma_what_is_in_flight(d: DeviceState, seqnum: u32, errno: i32, other: u32)
    requires
        other != seqnum,
    ensures
        ({
            let a = d.after_submitted(seqnum, None);
            let b = d.after_submitted(seqnum, Some(errno));
            let c = d.after_unlink(seqnum);
            let e = d.after_reap(seqnum);
            &&& a.pending.dom().contains(seqnum) && !a.pending[seqnum]
            &&& b == d
            &&& c.pending.dom() =~= d.pending.dom()
            &&& d.pending.dom().contains(seqnum) ==> c.pending[seqnum]
            &&& !e.pending.dom().contains(seqnum)
            &&& a.pending.dom().contains(other) == d.pending.dom().contains(other)
            &&& e.pending.dom().contains(other) == d.pending.dom().contains(other)
            &&& d.pending.dom().contains(other) ==> a.pending[other] == d.pending[other]
                && c.pending[other] == d.pending[other] && e.pending[other] == d.pending[other]
            &&& a == (DeviceState { pending: a.pending, ..d })
            &&& c == (DeviceState { pending: c.pending, ..d })
            &&& e == (DeviceState { pending: e.pending, ..d })
        }),
{
}

/// What the kernel's answers mean: an errno of a device that is gone ends the session,
/// for a URB and for an ioctl alike; any other refuses the URB with that errno, and is
/// passed over for an ioctl.
pub proof fn lemma_only_a_lost_device_ends_the_session(errno: i32)
    requires
        errno > 0,
    ensures
        submit_outcome(None) is Ok,
        special_outcome(None) == SubmitError::Handled(0),
        errno == ENODEV || errno == ESHUTDOWN ==> submit_outcome(Some(errno)) == Err::<
            (),
            SubmitError,
        >(SubmitError::Fatal(errno)) && special_outcome(Some(errno)) == SubmitError::Fatal(errno),
        errno != ENODEV && errno != ESHUTDOWN ==> submit_outcome(Some(errno)) == Err::<
            (),
            SubmitError,
        >(SubmitError::Urb((-errno) as i32)) && special_outcome(Some(errno))
            == SubmitError::Handled(0),
{
}

/// The interrupt IN endpoints are the endpoints with bit seven of their address and both
/// low bits of their attributes set, with their packet sizes, in the order described.
pub proof fn lemma_which_endpoints_are_prefetched(eps: Seq<EndpointDescriptor>)
    ensures
        interrupt_in(eps) == eps.filter(
            |e: EndpointDescriptor| e.address >= 128 && e.attributes % 4 == 3,
        ).map_values(|e: EndpointDescriptor| (e.address, e.max_packet_size)),
    decreases eps.len(),
{
    reveal(Seq::filter);
    let keep = |e: EndpointDescriptor| e.address >= 128 && e.attributes % 4 == 3;
    let give = |e: EndpointDescriptor| (e.address, e.max_packet_size);
    if eps.len() > 0 {
        lemma_which_endpoints_are_prefetched(eps.drop_last());
    }
    assert(interrupt_in(eps) =~= eps.filter(keep).map_values(give));
}

/// The endpoints of a device are those of all its alternate settings, and no others.
pub proof fn lemma_every_setting_has_its_endpoints(alts: Seq<Alt>, e: EndpointDescriptor)
    ensures
        all_endpoints(alts).contains(e) <==> exists|i: int|
            0 <= i < alts.len() && (#[trigger] alts[i]).endpoints.contains(e),
    decreases alts.len(),
{
    if alts.len() > 0 {
        let init = alts.drop_last();
        let last = alts.last();
        lemma_every_setting_has_its_endpoints(init, e);
        let less = all_endpoints(init);
        let all = all_endpoints(alts);
        assert(alts[alts.len() - 1] == last);
        if all.contains(e) {
            let k = choose|k: int| 0 <= k < all.len() && all[k] == e;
            if k < less.len() {
                assert(less[k] == e);
                let i = choose|i: int| 0 <= i < init.len() && (#[trigger] init[i]).endpoints.contains(e);
                assert(alts[i] == init[i]);
            } else {
                assert(last.endpoints[k - less.len()] == e);
            }
        }
        if exists|i: int| 0 <= i < alts.len() && (#[trigger] alts[i]).endpoints.contains(e) {
            let i = choose|i: int|
                0 <= i < alts.len() && (#[trigger] alts[i]).endpoints.contains(e);
            if i < init.len() {
                assert(init[i] == alts[i]);
                let k = choose|k: int| 0 <= k < less.len() && less[k] == e;
                assert(all[k] == e);
            } else {
                let k = choose|k: int| 0 <= k < last.endpoints.len() && last.endpoints[k] == e;
                assert(all[less.len() + k] == e);
            }
        }
    }
}

/// The configuration in effect is one that the device describes, if it describes any: the
/// one that sysfs names, or else the one that the device names, or else the first.
pub proof fn lemma_the_configuration_in_effect(
    cs: Seq<Configuration>,
    sysfs: Option<u8>,
    asked: Option<u8>,
    i: int,
)
    requires
        0 <= i < cs.len(),
    ensures
        first_config(cs, effective_config(cs, sysfs, asked)) is Some,
        sysfs == Some(cs[i].configuration_value) ==> effective_config(cs, sysfs, asked)
            == cs[i].configuration_value,
        sysfs is None && asked == Some(cs[i].configuration_value) ==> effective_config(
            cs,
            sysfs,
            asked,
        ) == cs[i].configuration_value,
        sysfs is None && asked is None ==> effective_config(cs, sysfs, asked)
            == cs[0].configuration_value,
{
    lemma_described(cs, i);
    lemma_described(cs, 0);
}

proof fn lemma_described(cs: Seq<Configuration>, i: int)
    requires
        0 <= i < cs.len(),
    ensures
        first_config(cs, cs[i].configuration_value) is Some,
    decreases cs.len(),
{
    if i > 0 && cs[0].configuration_value != cs[i].configuration_value {
        assert(cs.drop_first()[i - 1] == cs[i]);
        lemma_described(cs.drop_first(), i - 1);
    }
}

/// How an interface is taken: in one call where the kernel knows it, else by evicting the
/// driver, if there is one, and claiming. Whatever fails otherwise fails the claim with
/// its errno.
pub proof fn lemma_how_an_interface_is_taken(e: i32)
    ensures
        claim_next(ClaimCall::DisconnectClaim, None) is Claimed,
        claim_next(ClaimCall::Disconnect, None) == ClaimStep::Call(ClaimCall::Claim),
        claim_next(ClaimCall::Claim, None) is Claimed,
        e == ENOTTY || e == EINVAL ==> claim_next(ClaimCall::DisconnectClaim, Some(e))
            == ClaimStep::Call(ClaimCall::Disconnect),
        e != ENOTTY && e != EINVAL ==> claim_next(ClaimCall::DisconnectClaim, Some(e))
            == ClaimStep::Fail(e),
        e == ENODATA ==> claim_next(ClaimCall::Disconnect, Some(e)) == ClaimStep::Call(
            ClaimCall::Claim,
        ),
        e != ENODATA ==> claim_next(ClaimCall::Disconnect, Some(e)) == ClaimStep::Fail(e),
        claim_next(ClaimCall::Claim, Some(e)) == ClaimStep::Fail(e),
{
}

/// When the device takes a request on a data endpoint, one that its descriptor says is for
/// bulk or interrupt transfers: unless it is larger than the limit, which is refused as
/// invalid, or its seqnum is in flight, which is refused as busy.
pub proof fn lemma_requests_on_data_endpoints(
    d: DeviceState,
    req: UrbRequest,
    i: int,
    r: Result<Submission, SubmitError>,
)
    requires
        0 < req.ep < 16,
        d.decides(req, r),
        0 <= i < d.endpoints.len(),
        d.endpoints[i].attributes % 4 >= 2,
        ({
            let address = if req.dir is In {
                req.ep + 128
            } else {
                req.ep as int
            };
            &&& d.endpoints[i].address == address
            &&& forall|k: int|
                i < k < d.endpoints.len() ==> (#[trigger] d.endpoints[k]).address != address
        }),
    ensures
        req.buffer_length > d.max_transfer ==> r == Err::<Submission, SubmitError>(
            SubmitError::Urb((-EINVAL) as i32),
        ),
        req.buffer_length <= d.max_transfer && d.pending.dom().contains(req.seqnum) ==> r == Err::<
            Submission,
            SubmitError,
        >(SubmitError::Urb((-EBUSY) as i32)),
        req.buffer_length <= d.max_transfer && !d.pending.dom().contains(req.seqnum) ==> r is Ok
            && r->Ok_0 is Urb,
{
    lemma_endpoint_type(d.endpoints, i);
}

/// The kernel's number of a speed is the number that is sent for it; numbers that it does
/// not have stand for none.
pub proof fn lemma_the_kernels_speeds(v: u32)
    ensures
        1 <= v <= 6 ==> speed_of(v).raw() == v,
        v == 0 || v > 6 ==> speed_of(v).raw() == 0,
{
}

/// A driver is asked for four times at most: whatever error but busy comes back, the first
/// three attempts are repeated and the fourth fails with it. An interface that is busy, or
/// for which the kernel answered, is done with at once.
pub proof fn lemma_rebinding_is_tried_four_times(attempt: u32, e: i32, rc: i32)
    requires
        attempt < 4,
    ensures
        reconnect_next(attempt, Ok(rc)) == ReconnectStep::Done(rc),
        reconnect_next(attempt, Err(EBUSY)) is Done,
        e != EBUSY ==> (reconnect_next(attempt, Err(e)) is Retry <==> attempt < 3),
        e != EBUSY && attempt == 3 ==> reconnect_next(attempt, Err(e)) == ReconnectStep::Fail(e),
{
}

} // verus!
