//! Parsing the raw USB descriptor blob.
//!
//! The same bytes are available three ways, and all three land here:
//!   * `read()` on a `/dev/bus/usb/BBB/DDD` node (works on Android too),
//!   * `/sys/bus/usb/devices/<busid>/descriptors` (Linux, no open needed),
//!   * a `GET_DESCRIPTOR` control transfer (last resort).
//!
//! The blob is the 18-byte device descriptor followed by every configuration
//! descriptor in full.
//!
//! usbfs byte-swaps the *device* descriptor's 16-bit fields into host order on
//! `read()` while leaving the configuration descriptors in bus order. On a
//! little-endian host the two are the same and a single little-endian reader is
//! correct; big-endian hosts are not supported.
use crate::text::{dec, push_dec};
use vstd::prelude::*;
use vstd::string::*;

verus! {

broadcast use vstd::slice::group_slice_axioms;

pub const DT_DEVICE: u8 = 0x01;

pub const DT_CONFIG: u8 = 0x02;

pub const DT_INTERFACE: u8 = 0x04;

pub const DT_ENDPOINT: u8 = 0x05;

pub const DEVICE_DESC_LEN: usize = 18;

/// `bmAttributes & 0x03` of an endpoint descriptor.
#[derive(Debug, Clone, Copy, PartialEq, Eq, Structural)]
pub enum TransferType {
    Control,
    Isochronous,
    Bulk,
    Interrupt,
}

impl TransferType {
    /// The type that the two low bits of the attributes name.
    pub open spec fn of(attrs: u8) -> TransferType {
        if attrs % 4 == 0 {
            TransferType::Control
        } else if attrs % 4 == 1 {
            TransferType::Isochronous
        } else if attrs % 4 == 2 {
            TransferType::Bulk
        } else {
            TransferType::Interrupt
        }
    }

    pub fn from_attributes(attrs: u8) -> (t: TransferType)
        ensures
            t == TransferType::of(attrs),
    {
        assert(attrs & 0x03 == attrs % 4) by (bit_vector);
        match attrs & 0x03 {
            0 => TransferType::Control,
            1 => TransferType::Isochronous,
            2 => TransferType::Bulk,
            _ => TransferType::Interrupt,
        }
    }
}

#[derive(Debug, Clone, Copy, PartialEq, Eq, Structural)]
pub struct DeviceDescriptor {
    pub bcd_usb: u16,
    pub b_device_class: u8,
    pub b_device_sub_class: u8,
    pub b_device_protocol: u8,
    pub b_max_packet_size0: u8,
    pub id_vendor: u16,
    pub id_product: u16,
    pub bcd_device: u16,
    pub b_num_configurations: u8,
}

impl Default for DeviceDescriptor {
    fn default() -> (d: Self)
        ensures
            d == (DeviceDescriptor {
                bcd_usb: 0,
                b_device_class: 0,
                b_device_sub_class: 0,
                b_device_protocol: 0,
                b_max_packet_size0: 0,
                id_vendor: 0,
                id_product: 0,
                bcd_device: 0,
                b_num_configurations: 0,
            }),
    {
        DeviceDescriptor {
            bcd_usb: 0,
            b_device_class: 0,
            b_device_sub_class: 0,
            b_device_protocol: 0,
            b_max_packet_size0: 0,
            id_vendor: 0,
            id_product: 0,
            bcd_device: 0,
            b_num_configurations: 0,
        }
    }
}

#[derive(Debug, Clone, Copy, PartialEq, Eq, Structural)]
pub struct EndpointDescriptor {
    /// `bEndpointAddress`, including the 0x80 IN bit.
    pub address: u8,
    pub attributes: u8,
    pub max_packet_size: u16,
    pub interval: u8,
}

impl EndpointDescriptor {
    pub fn transfer_type(&self) -> (t: TransferType)
        ensures
            t == TransferType::of(self.attributes),
    {
        TransferType::from_attributes(self.attributes)
    }

    pub fn number(&self) -> (n: u8)
        ensures
            n == self.address % 0x10,
    {
        let a: u8 = self.address;
        assert(a & 0x0f == a % 0x10) by (bit_vector);
        a & 0x0f
    }

    pub fn is_in(&self) -> (r: bool)
        ensures
            r == (self.address >= 0x80),
    {
        let a: u8 = self.address;
        assert(a & 0x80 != 0 <==> a >= 0x80) by (bit_vector);
        a & 0x80 != 0
    }
}

#[derive(Debug, Clone, PartialEq, Eq)]
pub struct AltSetting {
    pub interface_number: u8,
    pub alternate_setting: u8,
    pub class: u8,
    pub sub_class: u8,
    pub protocol: u8,
    pub endpoints: Vec<EndpointDescriptor>,
}

/// An alternate setting with its endpoints as a sequence.
pub struct Alt {
    pub interface_number: u8,
    pub alternate_setting: u8,
    pub class: u8,
    pub sub_class: u8,
    pub protocol: u8,
    pub endpoints: Seq<EndpointDescriptor>,
}

impl View for AltSetting {
    type V = Alt;

    open spec fn view(&self) -> Alt {
        Alt {
            interface_number: self.interface_number,
            alternate_setting: self.alternate_setting,
            class: self.class,
            sub_class: self.sub_class,
            protocol: self.protocol,
            endpoints: self.endpoints@,
        }
    }
}

#[derive(Debug, Clone, PartialEq, Eq)]
pub struct ConfigDescriptor {
    pub configuration_value: u8,
    pub num_interfaces: u8,
    pub alt_settings: Vec<AltSetting>,
}

/// A configuration with its alternate settings as a sequence.
pub struct Configuration {
    pub configuration_value: u8,
    pub num_interfaces: u8,
    pub alts: Seq<Alt>,
}

/// What the alternate settings of a list stand for.
pub open spec fn alts_view(alts: Seq<AltSetting>) -> Seq<Alt> {
    alts.map_values(|a: AltSetting| a@)
}

impl View for ConfigDescriptor {
    type V = Configuration;

    open spec fn view(&self) -> Configuration {
        Configuration {
            configuration_value: self.configuration_value,
            num_interfaces: self.num_interfaces,
            alts: alts_view(self.alt_settings@),
        }
    }
}

impl Configuration {
    /// Whether some alternate setting belongs to interface `n`.
    pub open spec fn has_interface(self, n: u8) -> bool {
        exists|k: int| 0 <= k < self.alts.len() && (#[trigger] self.alts[k]).interface_number == n
    }

    /// Whether `v` lists the interfaces: ascending, each once, and no others.
    pub open spec fn interfaces_are(self, v: Seq<u8>) -> bool {
        &&& forall|i: int, j: int| 0 <= i < j < v.len() ==> v[i] < v[j]
        &&& forall|n: u8| #[trigger] v.contains(n) <==> self.has_interface(n)
    }

    /// Whether the setting with index `k` is the one that stands for interface `n`:
    /// the first with alternate setting 0, or the first at all where no such exists.
    pub open spec fn is_primary(self, k: int, n: u8) -> bool {
        &&& 0 <= k < self.alts.len()
        &&& self.alts[k].interface_number == n
        &&& self.alts[k].alternate_setting == 0 ==> forall|j: int|
            0 <= j < k ==> !((#[trigger] self.alts[j]).interface_number == n
                && self.alts[j].alternate_setting == 0)
        &&& self.alts[k].alternate_setting != 0 ==> {
            &&& forall|j: int|
                0 <= j < self.alts.len() ==> !((#[trigger] self.alts[j]).interface_number == n
                    && self.alts[j].alternate_setting == 0)
            &&& forall|j: int| 0 <= j < k ==> (#[trigger] self.alts[j]).interface_number != n
        }
    }
}

impl ConfigDescriptor {
    /// Whether `a` is the alternate setting that stands for interface `n`.
    pub open spec fn stands_for_interface(self, a: AltSetting, n: u8) -> bool {
        exists|k: int| self@.is_primary(k, n) && a == #[trigger] self.alt_settings@[k]
    }

    /// Distinct `bInterfaceNumber`s, ascending. These are what get claimed.
    pub fn interface_numbers(&self) -> (v: Vec<u8>)
        ensures
            self@.interfaces_are(v@),
    {
        let mut v: Vec<u8> = Vec::new();
        let mut i: usize = 0;
        while i < self.alt_settings.len()
            invariant
                i <= self.alt_settings@.len(),
                forall|a: int, b: int| 0 <= a < b < v@.len() ==> v@[a] < v@[b],
                forall|n: u8| #[trigger]
                    v@.contains(n) <==> exists|k: int|
                        0 <= k < i && (#[trigger] self@.alts[k]).interface_number == n,
            decreases self.alt_settings@.len() - i,
        {
            let n: u8 = self.alt_settings[i].interface_number;
            assert(self@.alts[i as int].interface_number == n);
            let ghost before = v@;
            insert_ascending(&mut v, n);
            assert forall|m: u8| #[trigger] v@.contains(m) <==> exists|k: int|
                0 <= k < i + 1 && (#[trigger] self@.alts[k]).interface_number == m by {
                if m != n && v@.contains(m) {
                    assert(before.contains(m));
                }
                if exists|k: int|
                    0 <= k < i + 1 && (#[trigger] self@.alts[k]).interface_number == m {
                    let k = choose|k: int|
                        0 <= k < i + 1 && (#[trigger] self@.alts[k]).interface_number == m;
                    if k < i {
                        assert(before.contains(m));
                    }
                }
            }
            i = i + 1;
        }
        assert forall|n: u8| #[trigger] v@.contains(n) <==> self@.has_interface(n) by {}
        v
    }

    /// Alt setting 0 of each interface, which is what `OP_REP_DEVLIST`
    /// advertises (and what `usbip` reads out of sysfs), by ascending interface
    /// number.
    pub fn primary_alt_settings(&self) -> (r: Vec<&AltSetting>)
        ensures
            forall|i: int, j: int|
                0 <= i < j < r@.len() ==> (#[trigger] r@[i]).interface_number < (
                #[trigger] r@[j]).interface_number,
            forall|i: int|
                0 <= i < r@.len() ==> self.stands_for_interface(
                    *(#[trigger] r@[i]),
                    r@[i].interface_number,
                ),
            forall|n: u8| #[trigger]
                self@.has_interface(n) ==> exists|i: int|
                    0 <= i < r@.len() && (#[trigger] r@[i]).interface_number == n,
    {
        let numbers = self.interface_numbers();
        let mut out: Vec<&AltSetting> = Vec::new();
        let mut i: usize = 0;
        while i < numbers.len()
            invariant
                i <= numbers@.len(),
                self@.interfaces_are(numbers@),
                out@.len() == i,
                forall|j: int|
                    0 <= j < i ==> (#[trigger] out@[j]).interface_number == numbers@[j]
                        && self.stands_for_interface(*out@[j], numbers@[j]),
            decreases numbers@.len() - i,
        {
            let n: u8 = numbers[i];
            assert(numbers@.contains(n));
            let k: usize = self.primary_index(n);
            assert(self@.alts[k as int] == self.alt_settings@[k as int]@);
            out.push(&self.alt_settings[k]);
            i = i + 1;
        }
        assert forall|n: u8| #[trigger] self@.has_interface(n) implies exists|i: int|
            0 <= i < out@.len() && (#[trigger] out@[i]).interface_number == n by {
            assert(numbers@.contains(n));
            let i = choose|i: int| 0 <= i < numbers@.len() && numbers@[i] == n;
            assert(out@[i].interface_number == n);
        }
        out
    }

    fn primary_index(&self, n: u8) -> (k: usize)
        requires
            self@.has_interface(n),
        ensures
            self@.is_primary(k as int, n),
    {
        let mut first: usize = self.alt_settings.len();
        let mut i: usize = 0;
        while i < self.alt_settings.len()
            invariant
                i <= self.alt_settings@.len(),
                first == self.alt_settings@.len() || first < i,
                first < i ==> self@.alts[first as int].interface_number == n,
                first == self.alt_settings@.len() ==> forall|j: int|
                    0 <= j < i ==> (#[trigger] self@.alts[j]).interface_number != n,
                first < i ==> forall|j: int|
                    0 <= j < first ==> (#[trigger] self@.alts[j]).interface_number != n,
                forall|j: int|
                    0 <= j < i ==> !((#[trigger] self@.alts[j]).interface_number == n
                        && self@.alts[j].alternate_setting == 0),
            decreases self.alt_settings@.len() - i,
        {
            let a = &self.alt_settings[i];
            assert(self@.alts[i as int] == a@);
            if a.interface_number == n {
                if a.alternate_setting == 0 {
                    return i;
                }
                if first == self.alt_settings.len() {
                    first = i;
                }
            }
            i = i + 1;
        }
        first
    }
}

/// Puts `n` where it belongs in an ascending list, unless it is there.
fn insert_ascending(v: &mut Vec<u8>, n: u8)
    requires
        forall|a: int, b: int| 0 <= a < b < old(v)@.len() ==> old(v)@[a] < old(v)@[b],
    ensures
        forall|a: int, b: int| 0 <= a < b < final(v)@.len() ==> final(v)@[a] < final(v)@[b],
        forall|m: u8| #[trigger] final(v)@.contains(m) <==> old(v)@.contains(m) || m == n,
{
    let mut i: usize = 0;
    while i < v.len() && v[i] < n
        invariant
            i <= v@.len(),
            v@ == old(v)@,
            forall|j: int| 0 <= j < i ==> v@[j] < n,
        decreases v@.len() - i,
    {
        i = i + 1;
    }
    if i < v.len() && v[i] == n {
        assert(v@.contains(n));
        return;
    }
    v.insert(i, n);
    proof {
        let was = old(v)@;
        assert(v@ =~= was.insert(i as int, n));
        assert forall|m: u8| #[trigger] v@.contains(m) <==> was.contains(m) || m == n by {
            if v@.contains(m) {
                let k = choose|k: int| 0 <= k < v@.len() && v@[k] == m;
                if k < i {
                    assert(was[k] == m);
                } else if k > i {
                    assert(was[k - 1] == m);
                }
            }
            if was.contains(m) {
                let k = choose|k: int| 0 <= k < was.len() && was[k] == m;
                if k < i {
                    assert(v@[k] == m);
                } else {
                    assert(v@[k + 1] == m);
                }
            }
            if m == n {
                assert(v@[i as int] == n);
            }
        }
    }
}

#[derive(Debug, Clone, PartialEq, Eq)]
pub struct Descriptors {
    pub device: DeviceDescriptor,
    pub configs: Vec<ConfigDescriptor>,
}

/// What the configurations of a list stand for.
pub open spec fn configs_view(configs: Seq<ConfigDescriptor>) -> Seq<Configuration> {
    configs.map_values(|c: ConfigDescriptor| c@)
}

/// The first of the configurations with that value.
pub open spec fn first_config(cs: Seq<Configuration>, value: u8) -> Option<Configuration>
    decreases cs.len(),
{
    if cs.len() == 0 {
        None
    } else if cs[0].configuration_value == value {
        Some(cs[0])
    } else {
        first_config(cs.drop_first(), value)
    }
}

impl Descriptors {
    pub fn config(&self, value: u8) -> (r: Option<&ConfigDescriptor>)
        ensures
            match r {
                Some(c) => first_config(configs_view(self.configs@), value) == Some(c@),
                None => first_config(configs_view(self.configs@), value) is None,
            },
    {
        let ghost all = configs_view(self.configs@);
        let mut i: usize = 0;
        assert(all.skip(0) =~= all);
        while i < self.configs.len()
            invariant
                i <= self.configs@.len(),
                all == configs_view(self.configs@),
                first_config(all, value) == first_config(all.skip(i as int), value),
            decreases self.configs@.len() - i,
        {
            if self.configs[i].configuration_value == value {
                return Some(&self.configs[i]);
            }
            assert(all.skip(i as int).drop_first() =~= all.skip(i + 1));
            i = i + 1;
        }
        None
    }
}

/// Why a blob is not a set of descriptors.
#[derive(Debug, Clone, Copy, PartialEq, Eq, Structural)]
pub enum DescriptorError {
    TooShort { len: usize },
    NotADevice { kind: u8 },
    ShortConfig,
    StrayEndpoint,
}

impl DescriptorError {
    pub open spec fn message(self) -> Seq<char> {
        match self {
            DescriptorError::TooShort { len } => "descriptor blob is "@ + dec(len as nat)
                + " bytes, need at least 18"@,
            DescriptorError::NotADevice { kind } =>
                "blob does not start with a device descriptor (bDescriptorType = "@ + dec(
                kind as nat,
            ) + ")"@,
            DescriptorError::ShortConfig => "configuration descriptor shorter than 9 bytes"@,
            DescriptorError::StrayEndpoint => "endpoint descriptor outside any interface"@,
        }
    }

    pub fn to_string(&self) -> (s: String)
        ensures
            s@ == self.message(),
    {
        let mut s = String::new();
        match self {
            DescriptorError::TooShort { len } => {
                s.append("descriptor blob is ");
                push_dec(&mut s, *len as u64);
                s.append(" bytes, need at least 18");
            },
            DescriptorError::NotADevice { kind } => {
                s.append("blob does not start with a device descriptor (bDescriptorType = ");
                push_dec(&mut s, *kind as u64);
                s.append(")");
            },
            DescriptorError::ShortConfig => {
                s.append("configuration descriptor shorter than 9 bytes");
            },
            DescriptorError::StrayEndpoint => {
                s.append("endpoint descriptor outside any interface");
            },
        }
        assert(s@ =~= self.message());
        s
    }
}

// ---------------------------------------------------------------------------
// The walk

/// Two bytes as a number, least significant first.
pub open spec fn u16le_at(b: Seq<u8>, i: int) -> u16 {
    (b[i] + b[i + 1] * 0x100) as u16
}

fn u16le(b: &[u8], off: usize) -> (v: u16)
    requires
        off + 1 < b@.len(),
    ensures
        v == u16le_at(b@, off as int),
{
    (b[off] as u16) + (b[off + 1] as u16) * 0x100
}

/// Whether a whole descriptor stands at `pos`. A descriptor begins with its own
/// length, which counts the two bytes of length and type.
pub open spec fn whole_at(b: Seq<u8>, pos: int) -> bool {
    0 <= pos && pos + 2 <= b.len() && b[pos] >= 2 && pos + b[pos] <= b.len()
}

/// The descriptors that stand one behind the other from `pos` on, up to the first
/// place where no whole one does.
pub open spec fn chain(b: Seq<u8>, pos: int) -> Seq<Seq<u8>>
    decreases b.len() - pos,
{
    if whole_at(b, pos) {
        seq![b.subrange(pos, pos + b[pos])] + chain(b, pos + b[pos])
    } else {
        seq![]
    }
}

/// An interface descriptor opens an alternate setting with no endpoints yet.
pub open spec fn is_interface(d: Seq<u8>) -> bool {
    d[1] == DT_INTERFACE && d.len() >= 9
}

pub open spec fn is_endpoint(d: Seq<u8>) -> bool {
    d[1] == DT_ENDPOINT && d.len() >= 7
}

pub open spec fn alt_of(d: Seq<u8>) -> Alt {
    Alt {
        interface_number: d[2],
        alternate_setting: d[3],
        class: d[5],
        sub_class: d[6],
        protocol: d[7],
        endpoints: seq![],
    }
}

pub open spec fn endpoint_of(d: Seq<u8>) -> EndpointDescriptor {
    EndpointDescriptor {
        address: d[2],
        attributes: d[3],
        max_packet_size: u16le_at(d, 4),
        interval: d[6],
    }
}

/// The alternate settings that a chain of descriptors lists: each interface
/// descriptor opens one, and each endpoint belongs to the one opened last.
/// Descriptors of other types, and ones too short for their type, are skipped.
/// There is no answer if an endpoint comes before any interface.
pub open spec fn alts_of(ds: Seq<Seq<u8>>) -> Option<Seq<Alt>>
    decreases ds.len(),
{
    if ds.len() == 0 {
        Some(seq![])
    } else {
        let d = ds.last();
        match alts_of(ds.drop_last()) {
            None => None,
            Some(alts) => if is_interface(d) {
                Some(alts.push(alt_of(d)))
            } else if is_endpoint(d) {
                if alts.len() == 0 {
                    None
                } else {
                    let last = alts.last();
                    Some(
                        alts.drop_last().push(
                            Alt { endpoints: last.endpoints.push(endpoint_of(d)), ..last },
                        ),
                    )
                }
            } else {
                Some(alts)
            },
        }
    }
}

/// The configuration that `b` spells out; `b` begins with its own descriptor.
pub open spec fn config_of(b: Seq<u8>) -> Result<Configuration, DescriptorError> {
    match alts_of(chain(b, b[0] as int)) {
        Some(alts) => Ok(
            Configuration { num_interfaces: b[4], configuration_value: b[5], alts },
        ),
        None => Err(DescriptorError::StrayEndpoint),
    }
}

/// The bytes that the configuration descriptor at `pos` says it extends over, as
/// far as they are there.
pub open spec fn config_bytes(b: Seq<u8>, pos: int) -> Seq<u8> {
    let end = pos + u16le_at(b, pos + 2);
    b.subrange(
        pos,
        if end <= b.len() {
            end
        } else {
            b.len() as int
        },
    )
}

/// The configurations from `pos` on. A descriptor of another type at the top
/// level is skipped; a configuration is followed by what comes behind its total
/// length, and ends the list if that is less than its own length.
pub open spec fn configs_from(b: Seq<u8>, pos: int) -> Result<
    Seq<Configuration>,
    DescriptorError,
>
    decreases b.len() - pos,
{
    if !whole_at(b, pos) {
        Ok(seq![])
    } else if b[pos + 1] != DT_CONFIG {
        configs_from(b, pos + b[pos])
    } else {
        let total = u16le_at(b, pos + 2);
        if b[pos] < 9 || total < 6 {
            Err(DescriptorError::ShortConfig)
        } else {
            match config_of(config_bytes(b, pos)) {
                Err(e) => Err(e),
                Ok(c) => if total < b[pos] || pos + total >= b.len() {
                    Ok(seq![c])
                } else {
                    match configs_from(b, pos + total) {
                        Err(e) => Err(e),
                        Ok(cs) => Ok(seq![c] + cs),
                    }
                },
            }
        }
    }
}

pub open spec fn device_of(b: Seq<u8>) -> DeviceDescriptor {
    DeviceDescriptor {
        bcd_usb: u16le_at(b, 2),
        b_device_class: b[4],
        b_device_sub_class: b[5],
        b_device_protocol: b[6],
        b_max_packet_size0: b[7],
        id_vendor: u16le_at(b, 8),
        id_product: u16le_at(b, 10),
        bcd_device: u16le_at(b, 12),
        b_num_configurations: b[17],
    }
}

/// Where the first descriptor behind the device descriptor stands.
pub open spec fn first_config_at(b: Seq<u8>) -> int {
    if b[0] < DEVICE_DESC_LEN {
        DEVICE_DESC_LEN as int
    } else {
        b[0] as int
    }
}

/// What a blob holds, or why it is refused.
pub open spec fn blob_of(b: Seq<u8>) -> Result<
    (DeviceDescriptor, Seq<Configuration>),
    DescriptorError,
> {
    if b.len() < DEVICE_DESC_LEN {
        Err(DescriptorError::TooShort { len: b.len() as usize })
    } else if b[1] != DT_DEVICE {
        Err(DescriptorError::NotADevice { kind: b[1] })
    } else {
        match configs_from(b, first_config_at(b)) {
            Ok(cs) => Ok((device_of(b), cs)),
            Err(e) => Err(e),
        }
    }
}

/// Parse a device descriptor followed by zero or more configuration descriptors.
///
/// A configuration that claims more bytes than are present is read as far as it
/// goes; one whose total length has no room for its own value is refused.
pub fn parse(blob: &[u8]) -> (r: Result<Descriptors, DescriptorError>)
    ensures
        match r {
            Ok(d) => blob_of(blob@) == Ok::<
                (DeviceDescriptor, Seq<Configuration>),
                DescriptorError,
            >((d.device, configs_view(d.configs@))),
            Err(e) => blob_of(blob@) == Err::<
                (DeviceDescriptor, Seq<Configuration>),
                DescriptorError,
            >(e),
        },
{
    if blob.len() < DEVICE_DESC_LEN {
        return Err(DescriptorError::TooShort { len: blob.len() });
    }
    if blob[1] != DT_DEVICE {
        return Err(DescriptorError::NotADevice { kind: blob[1] });
    }
    let device = DeviceDescriptor {
        bcd_usb: u16le(blob, 2),
        b_device_class: blob[4],
        b_device_sub_class: blob[5],
        b_device_protocol: blob[6],
        b_max_packet_size0: blob[7],
        id_vendor: u16le(blob, 8),
        id_product: u16le(blob, 10),
        bcd_device: u16le(blob, 12),
        b_num_configurations: blob[17],
    };
    let mut configs: Vec<ConfigDescriptor> = Vec::new();
    let mut pos: usize = blob[0] as usize;
    if pos < DEVICE_DESC_LEN {
        pos = DEVICE_DESC_LEN;
    }
    let ghost whole = configs_from(blob@, pos as int);
    assert(whole is Ok ==> whole->Ok_0 =~= configs_view(configs@) + whole->Ok_0);
    while pos <= blob.len() && blob.len() - pos >= 2
        invariant_except_break
            whole == then_more(configs_view(configs@), configs_from(blob@, pos as int)),
        invariant
            blob@.len() >= DEVICE_DESC_LEN,
            blob@[1] == DT_DEVICE,
            whole == configs_from(blob@, first_config_at(blob@)),
        ensures
            whole == Ok::<Seq<Configuration>, DescriptorError>(configs_view(configs@)),
        decreases blob@.len() - pos,
    {
        let len: usize = blob[pos] as usize;
        let dtype: u8 = blob[pos + 1];
        if len < 2 || len > blob.len() - pos {
            assert(configs_view(configs@) + Seq::<Configuration>::empty() =~= configs_view(
                configs@,
            ));
            break;
        }
        if dtype != DT_CONFIG {
            // Should not happen at the top level; skip rather than abort so a
            // device with an odd trailing descriptor still enumerates.
            pos = pos + len;
            continue;
        }
        if len < 9 {
            return Err(DescriptorError::ShortConfig);
        }
        let total: usize = u16le(blob, pos + 2) as usize;
        if total < 6 {
            return Err(DescriptorError::ShortConfig);
        }
        let end: usize = if total < blob.len() - pos {
            pos + total
        } else {
            blob.len()
        };
        let buf = vstd::slice::slice_subrange(blob, pos, end);
        assert(buf@ =~= config_bytes(blob@, pos as int));
        let c = match parse_config(buf) {
            Ok(c) => c,
            Err(e) => {
                return Err(e);
            },
        };
        let ghost had = configs_view(configs@);
        configs.push(c);
        assert(configs_view(configs@) =~= had + seq![c@]);
        if total < len {
            break;
        }
        proof {
            let rest = configs_from(blob@, pos + total);
            if rest is Ok {
                assert(had + (seq![c@] + rest->Ok_0) =~= had + seq![c@] + rest->Ok_0);
            }
        }
        if total >= blob.len() - pos {
            assert(configs_view(configs@) + Seq::<Configuration>::empty() =~= configs_view(
                configs@,
            ));
            break;
        }
        pos = pos + total;
    }
    Ok(Descriptors { device, configs })
}

/// The list that begins with `head` and goes on as `tail` says, if it says.
spec fn then_more(
    head: Seq<Configuration>,
    tail: Result<Seq<Configuration>, DescriptorError>,
) -> Result<Seq<Configuration>, DescriptorError> {
    match tail {
        Ok(cs) => Ok(head + cs),
        Err(e) => Err(e),
    }
}

fn parse_config(buf: &[u8]) -> (r: Result<ConfigDescriptor, DescriptorError>)
    requires
        buf@.len() >= 6,
    ensures
        match r {
            Ok(c) => config_of(buf@) == Ok::<Configuration, DescriptorError>(c@),
            Err(e) => config_of(buf@) == Err::<Configuration, DescriptorError>(e),
        },
{
    let mut alts: Vec<AltSetting> = Vec::new();
    let mut pos: usize = buf[0] as usize;
    let ghost all = chain(buf@, pos as int);
    let ghost mut done: Seq<Seq<u8>> = Seq::empty();
    assert(all =~= done + chain(buf@, pos as int));
    assert(alts_view(alts@) =~= Seq::empty());
    while pos <= buf.len() && buf.len() - pos >= 2
        invariant_except_break
            all == done + chain(buf@, pos as int),
            alts_of(done) == Some(alts_view(alts@)),
        invariant
            all == chain(buf@, buf@[0] as int),
            buf@.len() >= 6,
        ensures
            alts_of(all) == Some(alts_view(alts@)),
        decreases buf@.len() - pos,
    {
        let len: usize = buf[pos] as usize;
        let dtype: u8 = buf[pos + 1];
        if len < 2 || len > buf.len() - pos {
            assert(done + chain(buf@, pos as int) =~= done);
            break;
        }
        let ghost d = buf@.subrange(pos as int, pos + len);
        let ghost had = alts_view(alts@);
        proof {
            assert(done.push(d).drop_last() =~= done);
            assert(done + (seq![d] + chain(buf@, pos + len)) =~= done.push(d) + chain(
                buf@,
                pos + len,
            ));
        }
        if dtype == DT_INTERFACE && len >= 9 {
            let a = AltSetting {
                interface_number: buf[pos + 2],
                alternate_setting: buf[pos + 3],
                class: buf[pos + 5],
                sub_class: buf[pos + 6],
                protocol: buf[pos + 7],
                endpoints: Vec::new(),
            };
            assert(a@.endpoints =~= seq![]);
            alts.push(a);
            assert(alts_view(alts@) =~= had.push(alt_of(d)));
        } else if dtype == DT_ENDPOINT && len >= 7 {
            let ep = EndpointDescriptor {
                address: buf[pos + 2],
                attributes: buf[pos + 3],
                max_packet_size: u16le(buf, pos + 4),
                interval: buf[pos + 6],
            };
            assert(ep == endpoint_of(d));
            match alts.pop() {
                Some(mut a) => {
                    let ghost was = a@;
                    a.endpoints.push(ep);
                    alts.push(a);
                    assert(had.last() == was);
                    assert(alts_view(alts@) =~= had.drop_last().push(
                        Alt { endpoints: was.endpoints.push(ep), ..was },
                    ));
                },
                // An endpoint before any interface descriptor is malformed;
                // dropping it is better than inventing an interface for it.
                None => {
                    proof {
                        assert(alts_of(done.push(d)) is None);
                        lemma_no_alts(done.push(d), chain(buf@, pos + len));
                    }
                    return Err(DescriptorError::StrayEndpoint);
                },
            }
        }
        // HID, class-specific and vendor descriptors interleave here and
        // are simply not our business: USB/IP forwards transfers, not
        // semantics.

        proof {
            done = done.push(d);
        }
        if len == buf.len() - pos {
            assert(done + chain(buf@, pos + len) =~= done);
            break;
        }
        pos = pos + len;
    }
    Ok(ConfigDescriptor { num_interfaces: buf[4], configuration_value: buf[5], alt_settings: alts })
}

/// A chain with a stray endpoint stays malformed, whatever follows.
proof fn lemma_no_alts(ds: Seq<Seq<u8>>, more: Seq<Seq<u8>>)
    requires
        alts_of(ds) is None,
    ensures
        alts_of(ds + more) is None,
    decreases more.len(),
{
    if more.len() == 0 {
        assert(ds + more =~= ds);
    } else {
        lemma_no_alts(ds, more.drop_last());
        assert((ds + more).drop_last() =~= ds + more.drop_last());
    }
}

// ---------------------------------------------------------------------------
// Laws

/// What a device says of itself, byte by byte: its numbers are two bytes each, the least
/// significant first.
pub proof fn lemma_device_descriptor_layout(b: Seq<u8>)
    requires
        blob_of(b) is Ok,
    ensures
        b.len() >= 18,
        b[1] == 1,
        ({
            let d = blob_of(b)->Ok_0.0;
            &&& d.bcd_usb == b[2] + 256 * b[3]
            &&& d.b_device_class == b[4]
            &&& d.b_device_sub_class == b[5]
            &&& d.b_device_protocol == b[6]
            &&& d.b_max_packet_size0 == b[7]
            &&& d.id_vendor == b[8] + 256 * b[9]
            &&& d.id_product == b[10] + 256 * b[11]
            &&& d.bcd_device == b[12] + 256 * b[13]
            &&& d.b_num_configurations == b[17]
        }),
{
}

/// Descriptors one behind the other, as bytes.
pub open spec fn laid_out(ds: Seq<Seq<u8>>) -> Seq<u8>
    decreases ds.len(),
{
    if ds.len() == 0 {
        seq![]
    } else {
        ds[0] + laid_out(ds.drop_first())
    }
}

/// Whether each of the descriptors begins with its own length.
pub open spec fn own_lengths(ds: Seq<Seq<u8>>) -> bool {
    forall|i: int|
        0 <= i < ds.len() ==> 2 <= (#[trigger] ds[i]).len() <= 255 && ds[i][0] == ds[i].len()
}

proof fn lemma_chain(head: Seq<u8>, ds: Seq<Seq<u8>>)
    requires
        own_lengths(ds),
    ensures
        chain(head + laid_out(ds), head.len() as int) == ds,
    decreases ds.len(),
{
    let b = head + laid_out(ds);
    let pos = head.len() as int;
    if ds.len() > 0 {
        let d = ds[0];
        let rest = ds.drop_first();
        assert(own_lengths(rest)) by {
            assert forall|i: int| 0 <= i < rest.len() implies 2 <= (#[trigger] rest[i]).len()
                <= 255 && rest[i][0] == rest[i].len() by {
                assert(rest[i] == ds[i + 1]);
            }
        }
        lemma_chain(head + d, rest);
        assert(b =~= head + d + laid_out(rest));
        assert(b[pos] == d[0]);
        assert(b.subrange(pos, pos + d.len()) =~= d);
        assert(seq![d] + rest =~= ds);
    } else {
        assert(chain(b, pos) =~= ds);
    }
}

/// What the descriptors of a configuration come to, one by one: an interface descriptor,
/// of type four, opens an alternate setting that has no endpoints yet; an endpoint
/// descriptor, of type five, adds an endpoint to the one that was opened last, and has
/// no place before the first; any other is passed over.
pub proof fn lemma_what_descriptors_say(ds: Seq<Seq<u8>>, d: Seq<u8>)
    requires
        d.len() >= 2,
        alts_of(ds) is Some,
    ensures
        alts_of(seq![]) == Some(Seq::<Alt>::empty()),
        ({
            let had = alts_of(ds).unwrap();
            let r = alts_of(ds.push(d));
            if d[1] == 4 && d.len() >= 9 {
                &&& r is Some
                &&& r.unwrap().len() == had.len() + 1
                &&& r.unwrap().drop_last() == had
                &&& r.unwrap().last().interface_number == d[2]
                &&& r.unwrap().last().alternate_setting == d[3]
                &&& r.unwrap().last().class == d[5]
                &&& r.unwrap().last().sub_class == d[6]
                &&& r.unwrap().last().protocol == d[7]
                &&& r.unwrap().last().endpoints.len() == 0
            } else if d[1] == 5 && d.len() >= 7 {
                &&& r is Some <==> had.len() > 0
                &&& r is Some ==> {
                    let last = r.unwrap().last();
                    let was = had.last();
                    &&& r.unwrap().len() == had.len()
                    &&& r.unwrap().drop_last() == had.drop_last()
                    &&& last == (Alt { endpoints: last.endpoints, ..was })
                    &&& last.endpoints.len() == was.endpoints.len() + 1
                    &&& last.endpoints.drop_last() == was.endpoints
                    &&& last.endpoints.last().address == d[2]
                    &&& last.endpoints.last().attributes == d[3]
                    &&& last.endpoints.last().max_packet_size == d[4] + 256 * d[5]
                    &&& last.endpoints.last().interval == d[6]
                }
            } else {
                r == Some(had)
            }
        }),
{
    let had = alts_of(ds).unwrap();
    let r = alts_of(ds.push(d));
    assert(ds.push(d).drop_last() =~= ds);
    assert(alts_of(seq![]).unwrap() =~= Seq::<Alt>::empty());
    if d[1] == 4 && d.len() >= 9 {
        assert(r.unwrap().drop_last() =~= had);
    } else if d[1] == 5 && d.len() >= 7 && had.len() > 0 {
        assert(r.unwrap().drop_last() =~= had.drop_last());
        assert(r.unwrap().last().endpoints.drop_last() =~= had.last().endpoints);
    }
}

/// A device that was written out is read as what it is: a device descriptor of 18 bytes,
/// then a configuration, which is a descriptor of nine bytes, of type two, with the length
/// of all that belongs to it, the number of its interfaces and its value, and then the
/// descriptors that belong to it. Another configuration may follow.
pub proof fn lemma_a_configuration_is_read(
    device: Seq<u8>,
    config: Seq<u8>,
    ds: Seq<Seq<u8>>,
    more: Seq<u8>,
)
    requires
        device.len() == 18,
        device[0] == 18,
        device[1] == 1,
        config.len() == 9,
        config[0] == 9,
        config[1] == 2,
        own_lengths(ds),
        config[2] + 256 * config[3] == 9 + laid_out(ds).len(),
        alts_of(ds) is Some,
    ensures
        ({
            let b = device + config + laid_out(ds) + more;
            let rest = configs_from(b, 27 + laid_out(ds).len() as int);
            &&& rest is Ok ==> {
                &&& blob_of(b) is Ok
                &&& blob_of(b)->Ok_0.1.len() == 1 + rest->Ok_0.len()
                &&& blob_of(b)->Ok_0.1.skip(1) == rest->Ok_0
                &&& blob_of(b)->Ok_0.1[0].num_interfaces == config[4]
                &&& blob_of(b)->Ok_0.1[0].configuration_value == config[5]
                &&& blob_of(b)->Ok_0.1[0].alts == alts_of(ds).unwrap()
            }
            &&& rest is Err ==> blob_of(b) is Err
            &&& more.len() == 0 ==> rest is Ok && rest->Ok_0.len() == 0
        }),
{
    let b = device + config + laid_out(ds) + more;
    let n = 9 + laid_out(ds).len() as int;
    assert(b[0] == 18 && b[1] == 1);
    assert(b[18] == config[0] && b[19] == config[1] && b[20] == config[2] && b[21] == config[3]);
    let c = config_bytes(b, 18);
    assert(c =~= config + laid_out(ds));
    assert(c[0] == 9 && c[4] == config[4] && c[5] == config[5]);
    lemma_chain(config, ds);
    let rest = configs_from(b, 18 + n);
    assert(whole_at(b, 18));
    if rest is Ok {
        let got = blob_of(b)->Ok_0.1;
        assert(got.skip(1) =~= rest->Ok_0);
    }
}

/// A configuration is found by its value, and the first with it counts.
pub proof fn lemma_configurations_are_found(cs: Seq<Configuration>, value: u8, i: int)
    requires
        0 <= i <= cs.len(),
        i < cs.len() ==> cs[i].configuration_value == value,
        forall|k: int| 0 <= k < i ==> (#[trigger] cs[k]).configuration_value != value,
    ensures
        first_config(cs, value) == (if i < cs.len() {
            Some(cs[i])
        } else {
            None
        }),
    decreases cs.len(),
{
    if i > 0 {
        let rest = cs.drop_first();
        assert(cs[0].configuration_value != value);
        assert forall|k: int| 0 <= k < i - 1 implies (#[trigger] rest[k]).configuration_value
            != value by {
            assert(rest[k] == cs[k + 1]);
        }
        if i < cs.len() {
            assert(rest[i - 1] == cs[i]);
        }
        lemma_configurations_are_found(rest, value, i - 1);
    }
}

/// What is refused, and for what: fewer than 18 bytes; a first descriptor that is not of
/// type one; and a configuration descriptor, right behind it, of fewer than nine bytes.
pub proof fn lemma_which_descriptors_are_refused(b: Seq<u8>)
    ensures
        b.len() < 18 ==> blob_of(b) == Err::<
            (DeviceDescriptor, Seq<Configuration>),
            DescriptorError,
        >(DescriptorError::TooShort { len: b.len() as usize }),
        b.len() >= 18 && b[1] != 1 ==> blob_of(b) == Err::<
            (DeviceDescriptor, Seq<Configuration>),
            DescriptorError,
        >(DescriptorError::NotADevice { kind: b[1] }),
        b.len() >= 20 && b[0] == 18 && b[1] == 1 && b[19] == 2 && 2 <= b[18] < 9 && 18 + b[18]
            <= b.len() ==> blob_of(b) == Err::<
            (DeviceDescriptor, Seq<Configuration>),
            DescriptorError,
        >(DescriptorError::ShortConfig),
        b.len() == 18 && b[1] == 1 ==> blob_of(b) is Ok && blob_of(b)->Ok_0.1.len() == 0,
{
}

} // verus!
