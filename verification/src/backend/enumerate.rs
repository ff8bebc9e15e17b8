//! Finding devices and naming them.
//!
//! Listing goes through sysfs when it is available: `/sys/bus/usb/devices` has
//! the descriptors, the bus id and the active configuration without opening
//! anything, so listing works without the udev rule installed. Where sysfs is not
//! readable — notably Android — the same facts come out of the device node
//! itself. The attributes are read by the caller; what they mean is decided here.
use crate::backend::descriptors::{
    blob_of, configs_view, first_config, lemma_configurations_are_found,
    lemma_device_descriptor_layout, parse, Configuration, DescriptorError, Descriptors,
    DeviceDescriptor,
};
use crate::backend::filter::{allowed, DeviceFilter, Pattern};
use crate::backend::{DeviceSummary, InterfaceSummary};
use crate::proto::device::{lemma_speeds, Speed};
use crate::text::{
    before, begins_with, chars, comes_before, debug_string, debug_text, dec, digit_value, find_char,
    has_prefix, is_white, lemma_before, lemma_numeral_value, lemma_order_is_strict,
    lemma_order_is_transitive, lemma_padded_value, lemma_pieces_push, lemma_trimming_undone,
    lemma_written_number_reads_back, parse_nat, parsed_nat, pieces, precedes, push_dec,
    push_dec_padded, same_chars, split, texts, trim, trimmed, without_plus, zero_padded,
};
use vstd::prelude::*;
use vstd::string::*;

verus! {

broadcast use vstd::slice::group_slice_axioms;

/// The directory of a device node, `/dev/bus/usb`.
pub open spec fn usb_dev_dir() -> Seq<char> {
    "/dev/bus/usb"@
}

/// `/dev/bus/usb/BBB/DDD`, each number at least three digits.
pub open spec fn node_text(busnum: u32, devnum: u32) -> Seq<char> {
    usb_dev_dir() + "/"@ + zero_padded(dec(busnum as nat), 3) + "/"@ + zero_padded(
        dec(devnum as nat),
        3,
    )
}

pub fn node_path(busnum: u32, devnum: u32) -> (s: String)
    ensures
        s@ == node_text(busnum, devnum),
{
    let mut s = String::new();
    s.append("/dev/bus/usb");
    s.append("/");
    push_dec_padded(&mut s, busnum as u64, 3);
    s.append("/");
    push_dec_padded(&mut s, devnum as u64, 3);
    assert(s@ =~= node_text(busnum, devnum));
    s
}

/// The parts of a path that name something: neither empty nor a single dot.
pub open spec fn named(ps: Seq<Seq<char>>) -> Seq<Seq<char>>
    decreases ps.len(),
{
    if ps.len() == 0 {
        seq![]
    } else if ps.last().len() == 0 || ps.last() == "."@ {
        named(ps.drop_last())
    } else {
        named(ps.drop_last()).push(ps.last())
    }
}

/// The bus and device number that the last two names of a path spell.
pub open spec fn node_numbers(path: Seq<char>) -> Option<(u32, u32)> {
    let names = named(pieces(path, '/'));
    let n = names.len() as int;
    if n < 2 {
        None
    } else {
        match (
            parsed_nat(names[n - 2], 10, 0xffff_ffff),
            parsed_nat(names[n - 1], 10, 0xffff_ffff),
        ) {
            (Some(b), Some(d)) => Some((b as u32, d as u32)),
            _ => None,
        }
    }
}

/// Recover `(busnum, devnum)` from a `/dev/bus/usb/BBB/DDD` path.
pub fn split_node_path(path: &str) -> (r: Option<(u32, u32)>)
    ensures
        r == node_numbers(path@),
{
    let cs = chars(path);
    let ps = split(&cs, '/');
    let dot = chars(".");
    let mut names: Vec<&[char]> = Vec::new();
    let ghost all = texts(ps@);
    let mut i: usize = 0;
    assert(all.take(0) =~= Seq::empty());
    assert(texts(names@) =~= Seq::empty());
    while i < ps.len()
        invariant
            i <= ps@.len(),
            all == texts(ps@),
            dot@ == "."@,
            texts(names@) == named(all.take(i as int)),
        decreases ps@.len() - i,
    {
        proof {
            assert(all.take(i + 1).drop_last() =~= all.take(i as int));
            assert(all.take(i + 1).last() == ps@[i as int]@);
        }
        let p = ps[i];
        if p.len() > 0 && !same_chars(p, &dot) {
            let ghost had = texts(names@);
            names.push(p);
            assert(texts(names@) =~= had.push(p@));
        }
        i = i + 1;
    }
    assert(all.take(i as int) =~= all);
    let n: usize = names.len();
    assert(n == named(pieces(path@, '/')).len());
    if n < 2 {
        return None;
    }
    assert(names@[n - 2]@ == texts(names@)[n - 2]);
    assert(names@[n - 1]@ == texts(names@)[n - 1]);
    match (parse_nat(names[n - 2], 10, 0xffff_ffff), parse_nat(names[n - 1], 10, 0xffff_ffff)) {
        (Some(b), Some(d)) => Some((b as u32, d as u32)),
        _ => None,
    }
}

proof fn lemma_number_is_a_name(n: u32)
    ensures
        ({
            let s = zero_padded(dec(n as nat), 3);
            &&& s.len() > 0
            &&& s != "."@
            &&& forall|i: int| 0 <= i < s.len() ==> s[i] != '/'
            &&& parsed_nat(s, 10, 0xffff_ffff) == Some(n as nat)
        }),
{
    let s = zero_padded(dec(n as nat), 3);
    lemma_padded_value(n as nat, 10, 3);
    lemma_written_number_reads_back(n as nat, 10, 3, 0xffff_ffff);
    reveal_strlit(".");
    assert(digit_value(s[0], 10) is Some);
    assert forall|i: int| 0 <= i < s.len() implies s[i] != '/' by {
        assert(digit_value(s[i], 10) is Some);
    }
}

/// The numbers of a device come back from the path of its node.
pub proof fn lemma_node_path_round_trips(busnum: u32, devnum: u32)
    ensures
        node_numbers(node_text(busnum, devnum)) == Some((busnum, devnum)),
{
    let b = zero_padded(dec(busnum as nat), 3);
    let d = zero_padded(dec(devnum as nat), 3);
    let dir = usb_dev_dir();
    lemma_number_is_a_name(busnum);
    lemma_number_is_a_name(devnum);
    reveal_strlit("/");
    let one = dir + seq!['/'] + b;
    assert(node_text(busnum, devnum) =~= one + seq!['/'] + d);
    lemma_pieces_push(dir, b, '/');
    lemma_pieces_push(one, d, '/');
    let p0 = pieces(dir, '/');
    let p1 = p0.push(b);
    let p2 = p1.push(d);
    assert(p2.drop_last() =~= p1);
    assert(p1.drop_last() =~= p0);
    assert(named(p1) =~= named(p0).push(b));
    assert(named(p2) =~= named(p1).push(d));
}

/// A character that may occur in a bus id.
pub open spec fn busid_char(c: char) -> bool {
    'a' <= c <= 'z' || 'A' <= c <= 'Z' || '0' <= c <= '9' || c == '-' || c == '.' || c == ':'
}

/// Whether `s` can be the name of a device or an interface in sysfs.
pub open spec fn valid_busid(s: Seq<char>) -> bool {
    &&& 0 < s.len() <= 63
    &&& forall|i: int| 0 <= i < s.len() ==> busid_char(#[trigger] s[i])
    &&& forall|i: int| 0 <= i < s.len() - 1 ==> !(#[trigger] s[i] == '.' && s[i + 1] == '.')
}

/// sysfs bus ids look like `1-2`, `1-2.3` or `usb1`. Bus ids reach the server
/// straight off the network in `OP_REQ_IMPORT`, and every lookup below builds
/// a path out of one. The server only ever imports a bus id it already found
/// itself, so this is belt and braces — but it is the kind of belt that is
/// cheap to wear.
pub fn is_valid_busid(busid: &str) -> (r: bool)
    ensures
        r == valid_busid(busid@),
{
    let cs = chars(busid);
    if cs.len() == 0 || cs.len() > 63 {
        return false;
    }
    let mut i: usize = 0;
    while i < cs.len()
        invariant
            i <= cs@.len() <= 63,
            cs@ == busid@,
            forall|j: int| 0 <= j < i ==> busid_char(#[trigger] cs@[j]),
            forall|j: int| 0 <= j < i - 1 ==> !(#[trigger] cs@[j] == '.' && cs@[j + 1] == '.'),
        decreases cs@.len() - i,
    {
        let c = cs[i];
        let fine = ('a' <= c && c <= 'z') || ('A' <= c && c <= 'Z') || ('0' <= c && c <= '9') || c
            == '-' || c == '.' || c == ':';
        if !fine {
            assert(!busid_char(cs@[i as int]));
            return false;
        }
        if i > 0 && c == '.' && cs[i - 1] == '.' {
            assert(cs@[i - 1] == '.' && cs@[i - 1 + 1] == '.');
            return false;
        }
        i = i + 1;
    }
    true
}

/// `/sys/bus/usb/devices/` and a name.
pub open spec fn sysfs_text(busid: Seq<char>) -> Seq<char> {
    "/sys/bus/usb/devices"@ + "/"@ + busid
}

/// The sysfs directory of a bus id, for the caller to look up. A text that is no
/// bus id has none, so it never reaches the file system.
pub fn sys_path(busid: &str) -> (r: Option<String>)
    ensures
        match r {
            Some(p) => valid_busid(busid@) && p@ == sysfs_text(busid@),
            None => !valid_busid(busid@),
        },
{
    if !is_valid_busid(busid) {
        return None;
    }
    let mut s = String::new();
    s.append("/sys/bus/usb/devices");
    s.append("/");
    s.append(busid);
    assert(s@ =~= sysfs_text(busid@));
    Some(s)
}

/// The file of one attribute in that directory.
pub fn sysfs_attr_path(busid: &str, attr: &str) -> (r: Option<String>)
    ensures
        match r {
            Some(p) => valid_busid(busid@) && p@ == sysfs_text(busid@) + "/"@ + attr@,
            None => !valid_busid(busid@),
        },
{
    match sys_path(busid) {
        None => None,
        Some(mut s) => {
            s.append("/");
            s.append(attr);
            assert(s@ =~= sysfs_text(busid@) + "/"@ + attr@);
            Some(s)
        },
    }
}

/// A bus id names one entry of the directory and nothing outside it: the path
/// made from it has the directory's parts and the bus id as the last one, which
/// is not the parent directory.
pub proof fn lemma_bus_ids_stay_in_sysfs(busid: Seq<char>)
    requires
        valid_busid(busid),
    ensures
        pieces(sysfs_text(busid), '/') == pieces("/sys/bus/usb/devices"@, '/').push(busid),
        busid != ".."@,
{
    reveal_strlit("/");
    reveal_strlit("..");
    assert forall|i: int| 0 <= i < busid.len() implies busid[i] != '/' by {
        assert(busid_char(busid[i]));
    }
    lemma_pieces_push("/sys/bus/usb/devices"@, busid, '/');
    assert(sysfs_text(busid) =~= "/sys/bus/usb/devices"@ + seq!['/'] + busid);
    if busid == ".."@ {
        let i: int = 0;
        assert(busid[i] == '.' && busid[i + 1] == '.');
    }
}

/// The number that an attribute file holds, if it holds one of at most `max`.
pub open spec fn attr_number(raw: Seq<char>, max: nat) -> Option<nat> {
    parsed_nat(trimmed(raw), 10, max)
}

fn number_in(raw: &str, max: u64) -> (r: Option<u64>)
    ensures
        match r {
            Some(v) => attr_number(raw@, max as nat) == Some(v as nat),
            None => attr_number(raw@, max as nat) is None,
        },
{
    let cs = chars(raw);
    parse_nat(trim(&cs), 10, max)
}

/// The text of an attribute that could be read.
pub open spec fn opt_text(s: Option<String>) -> Option<Seq<char>> {
    match s {
        Some(t) => Some(t@),
        None => None,
    }
}

/// What `bConfigurationValue` says.
pub fn sysfs_config_value(raw: &str) -> (r: Option<u8>)
    ensures
        match r {
            Some(v) => attr_number(raw@, 255) == Some(v as nat),
            None => attr_number(raw@, 255) is None,
        },
{
    match number_in(raw, 255) {
        Some(v) => Some(v as u8),
        None => None,
    }
}

/// What `speed` says.
pub fn sysfs_speed(raw: &str) -> (s: Speed)
    ensures
        s == Speed::of_rate(trimmed(raw@)),
{
    Speed::from_sysfs(raw)
}

/// What the attributes `busnum` and `devnum` say, where both could be read and
/// are numbers.
pub open spec fn attr_numbers(busnum: Option<Seq<char>>, devnum: Option<Seq<char>>) -> Option<
    (u32, u32),
> {
    match (busnum, devnum) {
        (Some(b), Some(d)) => match (attr_number(b, 0xffff_ffff), attr_number(d, 0xffff_ffff)) {
            (Some(b), Some(d)) => Some((b as u32, d as u32)),
            _ => None,
        },
        _ => None,
    }
}

pub fn numbers_for_busid(busnum: &Option<String>, devnum: &Option<String>) -> (r: Option<
    (u32, u32),
>)
    ensures
        r == attr_numbers(opt_text(*busnum), opt_text(*devnum)),
{
    match (busnum, devnum) {
        (Some(b), Some(d)) => match (number_in(b, 0xffff_ffff), number_in(d, 0xffff_ffff)) {
            (Some(b), Some(d)) => Some((b as u32, d as u32)),
            _ => None,
        },
        _ => None,
    }
}

/// An entry of `/sys/bus/usb/devices` with the two attributes that number it, as
/// far as they could be read.
#[derive(Debug, Clone, PartialEq, Eq)]
pub struct SysfsEntry {
    pub name: String,
    pub busnum: Option<String>,
    pub devnum: Option<String>,
}

impl SysfsEntry {
    /// Whether this is the device with these numbers. A name with a colon is an
    /// interface, not a device; no attribute is read under a name that is no bus id.
    pub open spec fn is_device(self, busnum: u32, devnum: u32) -> bool {
        &&& before(self.name@, ':') == self.name@.len()
        &&& valid_busid(self.name@)
        &&& attr_numbers(opt_text(self.busnum), opt_text(self.devnum)) == Some((busnum, devnum))
    }
}

/// sysfs names USB devices by port path (`1-2.3`), not by device number, so
/// there is no formula — the mapping has to be looked up. The first entry with
/// the numbers decides.
pub fn busid_for(entries: &[SysfsEntry], busnum: u32, devnum: u32) -> (r: Option<String>)
    ensures
        match r {
            Some(name) => exists|i: int|
                0 <= i < entries@.len() && #[trigger] entries@[i].is_device(busnum, devnum)
                    && name@ == entries@[i].name@ && forall|j: int|
                    0 <= j < i ==> !(#[trigger] entries@[j].is_device(busnum, devnum)),
            None => forall|j: int|
                0 <= j < entries@.len() ==> !(#[trigger] entries@[j].is_device(busnum, devnum)),
        },
{
    let mut i: usize = 0;
    while i < entries.len()
        invariant
            i <= entries@.len(),
            forall|j: int| 0 <= j < i ==> !(#[trigger] entries@[j].is_device(busnum, devnum)),
        decreases entries@.len() - i,
    {
        let e = &entries[i];
        let name = chars(&e.name);
        if find_char(&name, ':') == name.len() && is_valid_busid(&e.name) {
            match numbers_for_busid(&e.busnum, &e.devnum) {
                Some((b, d)) => {
                    if b == busnum && d == devnum {
                        assert(entries@[i as int].is_device(busnum, devnum));
                        return Some(e.name.clone());
                    }
                },
                None => {},
            }
        }
        i = i + 1;
    }
    None
}

/// Why a device could not be described.
#[derive(Debug, Clone, PartialEq, Eq)]
pub enum SummaryError {
    NoSuchConfig { value: u8 },
    BadBusid { busid: String },
    Descriptors(DescriptorError),
    NoNumbers { busid: String },
}

impl SummaryError {
    pub open spec fn message(self) -> Seq<char> {
        match self {
            SummaryError::NoSuchConfig { value } => "active configuration "@ + dec(value as nat)
                + " is not among the device's descriptors"@,
            SummaryError::BadBusid { busid } => debug_text(busid@)
                + " is not a usable sysfs bus id"@,
            SummaryError::Descriptors(e) => e.message(),
            SummaryError::NoNumbers { busid } => busid@ + " has no busnum/devnum in sysfs"@,
        }
    }

    pub fn to_string(&self) -> (s: String)
        ensures
            s@ == self.message(),
    {
        let mut s = String::new();
        match self {
            SummaryError::NoSuchConfig { value } => {
                s.append("active configuration ");
                push_dec(&mut s, *value as u64);
                s.append(" is not among the device's descriptors");
            },
            SummaryError::BadBusid { busid } => {
                s.append(&debug_string(busid));
                s.append(" is not a usable sysfs bus id");
            },
            SummaryError::Descriptors(e) => {
                return e.to_string();
            },
            SummaryError::NoNumbers { busid } => {
                s.append(busid);
                s.append(" has no busnum/devnum in sysfs");
            },
        }
        assert(s@ =~= self.message());
        s
    }
}

/// Whether `s` describes the device with these numbers, names and descriptors in
/// this configuration. Where sysfs does not have it, its node stands in for the path.
pub open spec fn describes(
    s: DeviceSummary,
    device: DeviceDescriptor,
    config: Configuration,
    config_value: u8,
    numbers: (u32, u32),
    busid: Seq<char>,
    sys_path: Option<Seq<char>>,
) -> bool {
    &&& s.busnum == numbers.0
    &&& s.devnum == numbers.1
    &&& s.busid@ == busid
    &&& s.node_path@ == node_text(numbers.0, numbers.1)
    &&& s.sys_path@ == (match sys_path {
        Some(p) => p,
        None => node_text(numbers.0, numbers.1),
    })
    &&& s.device == device
    &&& s.config_value == config_value
    &&& InterfaceSummary::advertises(s.interfaces@, config)
}

/// Build a summary from already-parsed descriptors. `sys_path` is the sysfs
/// directory of the device, where there is one. The speed is left unknown.
pub fn summarize(
    desc: &Descriptors,
    config_value: u8,
    busnum: u32,
    devnum: u32,
    busid: String,
    sys_path: Option<String>,
) -> (r: Result<DeviceSummary, SummaryError>)
    ensures
        match first_config(configs_view(desc.configs@), config_value) {
            Some(config) => r matches Ok(s) && s.speed == Speed::Unknown && describes(
                s,
                desc.device,
                config,
                config_value,
                (busnum, devnum),
                busid@,
                opt_text(sys_path),
            ),
            None => r == Err::<DeviceSummary, SummaryError>(
                SummaryError::NoSuchConfig { value: config_value },
            ),
        },
{
    let config = match desc.config(config_value) {
        Some(c) => c,
        None => {
            return Err(SummaryError::NoSuchConfig { value: config_value });
        },
    };
    let node = node_path(busnum, devnum);
    let path = match sys_path {
        Some(p) => p,
        None => node.clone(),
    };
    Ok(
        DeviceSummary {
            busnum,
            devnum,
            sys_path: path,
            node_path: node,
            busid,
            speed: Speed::Unknown,
            device: desc.device,
            config_value,
            interfaces: InterfaceSummary::list_from(config),
        },
    )
}

/// What sysfs says of one device: its descriptors, and its attributes as far as
/// they could be read.
#[derive(Debug, Clone, PartialEq, Eq)]
pub struct SysfsFacts {
    pub descriptors: Vec<u8>,
    pub busnum: Option<String>,
    pub devnum: Option<String>,
    pub config_value: Option<String>,
    pub speed: Option<String>,
    /// Whether the device's directory exists.
    pub exists: bool,
}

/// The configuration in effect: the one that sysfs names, if the device has it,
/// else the device's first, else 1.
pub open spec fn config_in_effect(cs: Seq<Configuration>, named: Option<u8>) -> u8 {
    match named {
        Some(v) if first_config(cs, v) is Some => v,
        _ => if cs.len() > 0 {
            cs[0].configuration_value
        } else {
            1
        },
    }
}

/// What an optional `bConfigurationValue` says.
pub open spec fn opt_config_value(raw: Option<Seq<char>>) -> Option<u8> {
    match raw {
        Some(t) => match attr_number(t, 255) {
            Some(v) => Some(v as u8),
            None => None,
        },
        None => None,
    }
}

/// The configuration value that stands for a device of which none is known to be
/// in effect: that of the first one described, or 1.
pub fn default_config_value(desc: &Descriptors) -> (v: u8)
    ensures
        v == (if desc.configs@.len() > 0 {
            configs_view(desc.configs@)[0].configuration_value
        } else {
            1
        }),
{
    if desc.configs.len() > 0 {
        desc.configs[0].configuration_value
    } else {
        1
    }
}

/// What describing a device out of what sysfs says of it comes to.
pub open spec fn summary_result(
    busid: Seq<char>,
    facts: SysfsFacts,
    r: Result<DeviceSummary, SummaryError>,
) -> bool {
    if !valid_busid(busid) {
        r matches Err(SummaryError::BadBusid { busid: b }) && b@ == busid
    } else {
        match blob_of(facts.descriptors@) {
            Err(e) => r == Err::<DeviceSummary, SummaryError>(SummaryError::Descriptors(e)),
            Ok((device, cs)) => match attr_numbers(
                opt_text(facts.busnum),
                opt_text(facts.devnum),
            ) {
                None => r matches Err(SummaryError::NoNumbers { busid: b }) && b@ == busid,
                Some(numbers) => {
                    let value = config_in_effect(
                        cs,
                        opt_config_value(opt_text(facts.config_value)),
                    );
                    match first_config(cs, value) {
                        None => r == Err::<DeviceSummary, SummaryError>(
                            SummaryError::NoSuchConfig { value },
                        ),
                        Some(config) => {
                            &&& r is Ok
                            &&& describes(
                                r->Ok_0,
                                device,
                                config,
                                value,
                                numbers,
                                busid,
                                if facts.exists {
                                    Some(sysfs_text(busid))
                                } else {
                                    None
                                },
                            )
                            &&& r->Ok_0.speed == (match facts.speed {
                                Some(t) => Speed::of_rate(trimmed(t@)),
                                None => Speed::Unknown,
                            })
                        },
                    }
                },
            },
        }
    }
}

/// Describe one device using sysfs alone — no open, so no permissions needed.
pub fn summary_from_sysfs(busid: &str, facts: &SysfsFacts) -> (r: Result<
    DeviceSummary,
    SummaryError,
>)
    ensures
        summary_result(busid@, *facts, r),
{
    let path = match sys_path(busid) {
        Some(p) => p,
        None => {
            return Err(SummaryError::BadBusid { busid: busid.to_owned() });
        },
    };
    let desc = match parse(&facts.descriptors) {
        Ok(d) => d,
        Err(e) => {
            return Err(SummaryError::Descriptors(e));
        },
    };
    let (busnum, devnum) = match numbers_for_busid(&facts.busnum, &facts.devnum) {
        Some(n) => n,
        None => {
            return Err(SummaryError::NoNumbers { busid: busid.to_owned() });
        },
    };
    let mut config_value: u8 = default_config_value(&desc);
    match &facts.config_value {
        Some(raw) => {
            match sysfs_config_value(raw) {
                Some(v) => {
                    if desc.config(v).is_some() {
                        config_value = v;
                    }
                },
                None => {},
            }
        },
        None => {},
    }
    let sys = if facts.exists {
        Some(path)
    } else {
        None
    };
    let mut s = match summarize(&desc, config_value, busnum, devnum, busid.to_owned(), sys) {
        Ok(s) => s,
        Err(e) => {
            return Err(e);
        },
    };
    s.speed =
    match &facts.speed {
        Some(raw) => sysfs_speed(raw),
        None => Speed::Unknown,
    };
    Ok(s)
}

/// Whether a name in `/sys/bus/usb/devices` is that of something a client can import.
/// `1-2:1.0` is an interface and `usb1` is a root hub; neither is.
pub open spec fn names_a_device(name: Seq<char>) -> bool {
    before(name, ':') == name.len() && !begins_with(name, "usb"@)
}

pub fn is_device_entry(name: &str) -> (r: bool)
    ensures
        r == names_a_device(name@),
{
    let cs = chars(name);
    find_char(&cs, ':') == cs.len() && !has_prefix(&cs, &chars("usb"))
}

/// Whether what sysfs says of a device is enough to describe it.
pub open spec fn describable(busid: Seq<char>, facts: SysfsFacts) -> bool {
    &&& valid_busid(busid)
    &&& blob_of(facts.descriptors@) matches Ok((device, cs)) && first_config(
        cs,
        config_in_effect(cs, opt_config_value(opt_text(facts.config_value))),
    ) is Some
    &&& attr_numbers(opt_text(facts.busnum), opt_text(facts.devnum)) is Some
}

/// An entry of `/sys/bus/usb/devices` with what is said of it there, if its
/// descriptors could be read.
#[derive(Debug, Clone, PartialEq, Eq)]
pub struct BusEntry {
    pub name: String,
    pub facts: Option<SysfsFacts>,
}

impl BusEntry {
    /// Whether this is a device that can be described.
    pub open spec fn is_found(self) -> bool {
        &&& names_a_device(self.name@)
        &&& self.facts is Some
        &&& describable(self.name@, self.facts.unwrap())
    }
}

/// The entries that are devices and can be described, in their order.
pub open spec fn found_entries(entries: Seq<BusEntry>) -> Seq<BusEntry>
    decreases entries.len(),
{
    if entries.len() == 0 {
        seq![]
    } else if entries.last().is_found() {
        found_entries(entries.drop_last()).push(entries.last())
    } else {
        found_entries(entries.drop_last())
    }
}

/// Whether `found` are the devices among the entries, one for each that can be
/// described.
pub open spec fn scanned(entries: Seq<BusEntry>, found: Seq<DeviceSummary>) -> bool {
    &&& found.len() == found_entries(entries).len()
    &&& forall|i: int|
        0 <= i < found.len() ==> summary_result(
            found_entries(entries)[i].name@,
            found_entries(entries)[i].facts.unwrap(),
            Ok::<DeviceSummary, SummaryError>(#[trigger] found[i]),
        )
}

/// The devices among the entries of `/sys/bus/usb/devices`. One that does not describe
/// itself is passed over: a device unplugged mid-scan is normal, not an error.
pub fn scan(entries: &Vec<BusEntry>) -> (found: Vec<DeviceSummary>)
    ensures
        scanned(entries@, found@),
{
    let mut found: Vec<DeviceSummary> = Vec::new();
    let mut i: usize = 0;
    assert(entries@.take(0) =~= Seq::empty());
    while i < entries.len()
        invariant
            i <= entries@.len(),
            scanned(entries@.take(i as int), found@),
        decreases entries@.len() - i,
    {
        let e = &entries[i];
        proof {
            assert(entries@.take(i + 1).drop_last() =~= entries@.take(i as int));
            assert(entries@.take(i + 1).last() == *e);
        }
        if is_device_entry(&e.name) {
            match &e.facts {
                Some(facts) => {
                    match summary_from_sysfs(&e.name, facts) {
                        Ok(d) => {
                            assert(e.is_found());
                            found.push(d);
                        },
                        Err(_) => {},
                    }
                },
                None => {},
            }
        }
        i = i + 1;
    }
    assert(entries@.take(i as int) =~= entries@);
    found
}

/// Whether `a` is listed ahead of `b`: by its bus id.
pub open spec fn listed_ahead(a: DeviceSummary, b: DeviceSummary) -> bool {
    comes_before(a.busid@, b.busid@)
}

/// How many devices at the head of an ordered list stay ahead of `d`.
pub open spec fn slot(list: Seq<DeviceSummary>, d: DeviceSummary) -> int
    decreases list.len(),
{
    if list.len() == 0 || listed_ahead(d, list[0]) {
        0
    } else {
        1 + slot(list.drop_first(), d)
    }
}

/// The devices in order, those with the same bus id as they were found.
pub open spec fn in_order(found: Seq<DeviceSummary>) -> Seq<DeviceSummary>
    decreases found.len(),
{
    if found.len() == 0 {
        seq![]
    } else {
        let rest = in_order(found.drop_last());
        rest.insert(slot(rest, found.last()), found.last())
    }
}

proof fn lemma_slot(list: Seq<DeviceSummary>, d: DeviceSummary)
    ensures
        0 <= slot(list, d) <= list.len(),
        slot(list, d) < list.len() ==> listed_ahead(d, list[slot(list, d)]),
        forall|i: int| 0 <= i < slot(list, d) ==> !listed_ahead(d, #[trigger] list[i]),
    decreases list.len(),
{
    if list.len() == 0 || listed_ahead(d, list[0]) {
    } else {
        lemma_slot(list.drop_first(), d);
        assert forall|i: int| 0 <= i < slot(list, d) implies !listed_ahead(
            d,
            #[trigger] list[i],
        ) by {
            if i > 0 {
                assert(list[i] == list.drop_first()[i - 1]);
            }
        }
    }
}

proof fn lemma_slot_is(list: Seq<DeviceSummary>, d: DeviceSummary, k: int)
    requires
        0 <= k <= list.len(),
        k < list.len() ==> listed_ahead(d, list[k]),
        forall|i: int| 0 <= i < k ==> !listed_ahead(d, #[trigger] list[i]),
    ensures
        slot(list, d) == k,
{
    lemma_slot(list, d);
    let s = slot(list, d);
    if s < k {
        assert(!listed_ahead(d, list[s]));
    }
    if k < s {
        assert(!listed_ahead(d, list[k]));
    }
}

/// Every USB device that was found, unfiltered and in bus id order.
pub fn list_all(found: Vec<DeviceSummary>) -> (r: Vec<DeviceSummary>)
    ensures
        r@ == in_order(found@),
        r@.to_multiset() == found@.to_multiset(),
        forall|i: int, j: int|
            0 <= i < j < r@.len() ==> !comes_before(
                (#[trigger] r@[j]).busid@,
                (#[trigger] r@[i]).busid@,
            ),
{
    let mut rest = found;
    let mut out: Vec<DeviceSummary> = Vec::new();
    let ghost mut done: int = 0;
    assert(found@.take(0) =~= Seq::empty());
    while rest.len() > 0
        invariant
            0 <= done <= found@.len(),
            rest@ == found@.skip(done),
            out@ == in_order(found@.take(done)),
        decreases rest@.len(),
    {
        let d = rest.remove(0);
        let mut k: usize = 0;
        while k < out.len() && !ahead(&d, &out[k])
            invariant
                k <= out@.len(),
                forall|i: int| 0 <= i < k ==> !listed_ahead(d, #[trigger] out@[i]),
            decreases out@.len() - k,
        {
            k = k + 1;
        }
        proof {
            lemma_slot_is(out@, d, k as int);
            assert(found@.take(done + 1).drop_last() =~= found@.take(done));
            assert(found@.take(done + 1).last() == d);
            assert(rest@ =~= found@.skip(done + 1));
            done = done + 1;
        }
        out.insert(k, d);
    }
    proof {
        assert(found@.take(done) =~= found@);
        lemma_list_is_sorted(found@);
        assert forall|i: int, j: int| 0 <= i < j < out@.len() implies !comes_before(
            (#[trigger] out@[j]).busid@,
            (#[trigger] out@[i]).busid@,
        ) by {
            assert(!listed_ahead(out@[j], out@[i]));
        }
    }
    out
}

fn ahead(a: &DeviceSummary, b: &DeviceSummary) -> (r: bool)
    ensures
        r == listed_ahead(*a, *b),
{
    precedes(&chars(&a.busid), &chars(&b.busid))
}

/// The list holds the devices that were found, each as often as it was found, and
/// no device stands behind one that it is listed ahead of.
pub proof fn lemma_list_is_sorted(found: Seq<DeviceSummary>)
    ensures
        in_order(found).to_multiset() == found.to_multiset(),
        forall|i: int, j: int|
            0 <= i < j < in_order(found).len() ==> !listed_ahead(
                #[trigger] in_order(found)[j],
                #[trigger] in_order(found)[i],
            ),
    decreases found.len(),
{
    broadcast use vstd::seq_lib::group_to_multiset_ensures;

    if found.len() == 0 {
        assert(in_order(found) =~= found);
    } else {
        let rest = in_order(found.drop_last());
        let d = found.last();
        lemma_list_is_sorted(found.drop_last());
        lemma_slot(rest, d);
        let k = slot(rest, d);
        let all = in_order(found);
        assert(all == rest.insert(k, d));
        assert(all.remove(k) =~= rest);
        assert(all[k] == d);
        assert(all.contains(d));
        assert(all.to_multiset() =~= rest.to_multiset().insert(d));
        assert(found =~= found.drop_last().push(d));
        assert(found.to_multiset() =~= found.drop_last().to_multiset().insert(d));
        assert forall|i: int, j: int| 0 <= i < j < all.len() implies !listed_ahead(
            #[trigger] all[j],
            #[trigger] all[i],
        ) by {
            if i < k && j == k {
                assert(!listed_ahead(d, rest[i]));
            } else if i == k && j > k {
                let b = rest[j - 1];
                assert(b == all[j]);
                assert(listed_ahead(d, rest[k]));
                if j - 1 > k {
                    assert(!listed_ahead(b, rest[k]));
                }
                lemma_order_is_strict(d.busid@, rest[k].busid@);
                lemma_order_is_strict(b.busid@, d.busid@);
                if listed_ahead(b, d) {
                    lemma_order_is_transitive(b.busid@, d.busid@, rest[k].busid@);
                    lemma_order_is_strict(b.busid@, rest[k].busid@);
                }
            } else if i < k && j < k {
                assert(!listed_ahead(rest[j], rest[i]));
            } else if i < k {
                assert(!listed_ahead(rest[j - 1], rest[i]));
            } else {
                assert(!listed_ahead(rest[j - 1], rest[i - 1]));
            }
        }
    }
}

proof fn lemma_found_entries(entries: Seq<BusEntry>)
    requires
        forall|i: int, j: int|
            0 <= i < j < entries.len() ==> (#[trigger] entries[i]).name@ != (
            #[trigger] entries[j]).name@,
    ensures
        forall|k: int|
            0 <= k < found_entries(entries).len() ==> (#[trigger] found_entries(
                entries,
            )[k]).is_found() && entries.contains(found_entries(entries)[k]),
        forall|k: int|
            0 <= k < entries.len() && (#[trigger] entries[k]).is_found() ==> found_entries(
                entries,
            ).contains(entries[k]),
        forall|i: int, j: int|
            0 <= i < j < found_entries(entries).len() ==> (#[trigger] found_entries(
                entries,
            )[i]).name@ != (#[trigger] found_entries(entries)[j]).name@,
    decreases entries.len(),
{
    if entries.len() > 0 {
        let init = entries.drop_last();
        let last = entries.last();
        let less = found_entries(init);
        let all = found_entries(entries);
        assert forall|i: int, j: int| 0 <= i < j < init.len() implies (#[trigger] init[i]).name@
            != (#[trigger] init[j]).name@ by {
            assert(init[i] == entries[i] && init[j] == entries[j]);
        }
        lemma_found_entries(init);
        assert(entries[entries.len() - 1] == last);
        assert forall|k: int| 0 <= k < all.len() implies (#[trigger] all[k]).is_found()
            && entries.contains(all[k]) by {
            if k < less.len() {
                assert(all[k] == less[k]);
                let m = choose|m: int| 0 <= m < init.len() && init[m] == less[k];
                assert(entries[m] == all[k]);
            }
        }
        assert forall|k: int| 0 <= k < entries.len() && (
        #[trigger] entries[k]).is_found() implies all.contains(entries[k]) by {
            if k < init.len() {
                assert(init[k] == entries[k]);
                let m = choose|m: int| 0 <= m < less.len() && less[m] == init[k];
                assert(all[m] == entries[k]);
            } else {
                assert(all[all.len() - 1] == last);
            }
        }
        assert forall|i: int, j: int| 0 <= i < j < all.len() implies (#[trigger] all[i]).name@ != (
        #[trigger] all[j]).name@ by {
            assert(all[i] == less[i]);
            if j < less.len() {
                assert(all[j] == less[j]);
            } else {
                let m = choose|m: int| 0 <= m < init.len() && init[m] == less[i];
                assert(entries[m] == all[i]);
            }
        }
    }
}

/// A listing of the bus holds each device that can be described once, and nothing
/// else, by ascending bus id: the bus ids are the names in the directory that are
/// neither interfaces nor root hubs and whose device describes itself.
pub proof fn lemma_the_bus_is_listed(entries: Seq<BusEntry>, found: Seq<DeviceSummary>)
    requires
        forall|i: int, j: int|
            0 <= i < j < entries.len() ==> (#[trigger] entries[i]).name@ != (
            #[trigger] entries[j]).name@,
        scanned(entries, found),
    ensures
        ({
            let list = in_order(found);
            &&& forall|i: int, j: int|
                0 <= i < j < list.len() ==> comes_before(
                    (#[trigger] list[i]).busid@,
                    (#[trigger] list[j]).busid@,
                )
            &&& forall|k: int|
                0 <= k < list.len() ==> exists|m: int|
                    0 <= m < entries.len() && (#[trigger] entries[m]).is_found()
                        && entries[m].name@ == (#[trigger] list[k]).busid@
            &&& forall|m: int|
                0 <= m < entries.len() && (#[trigger] entries[m]).is_found() ==> exists|k: int|
                    0 <= k < list.len() && (#[trigger] list[k]).busid@ == entries[m].name@
        }),
{
    broadcast use vstd::seq_lib::group_to_multiset_ensures;

    let list = in_order(found);
    let named = found_entries(entries);
    lemma_list_is_sorted(found);
    lemma_found_entries(entries);
    assert forall|k: int| 0 <= k < found.len() implies (#[trigger] found[k]).busid@
        == named[k].name@ by {
        assert(named[k].is_found());
    }
    assert forall|k: int| 0 <= k < list.len() implies exists|m: int|
        0 <= m < entries.len() && (#[trigger] entries[m]).is_found() && entries[m].name@ == (
        #[trigger] list[k]).busid@ by {
        assert(found.to_multiset().count(list[k]) > 0) by {
            assert(list.contains(list[k]));
        }
        assert(found.contains(list[k]));
        let f = choose|f: int| 0 <= f < found.len() && found[f] == list[k];
        assert(found[f].busid@ == named[f].name@);
        let m = choose|m: int| 0 <= m < entries.len() && entries[m] == named[f];
        assert(entries[m].is_found());
    }
    assert forall|m: int| 0 <= m < entries.len() && (
    #[trigger] entries[m]).is_found() implies exists|k: int|
        0 <= k < list.len() && (#[trigger] list[k]).busid@ == entries[m].name@ by {
        let f = choose|f: int| 0 <= f < named.len() && named[f] == entries[m];
        assert(found[f].busid@ == entries[m].name@);
        assert(found.contains(found[f]));
        assert(list.to_multiset().count(found[f]) > 0);
        assert(list.contains(found[f]));
        let k = choose|k: int| 0 <= k < list.len() && list[k] == found[f];
        assert(list[k].busid@ == entries[m].name@);
    }
    assert forall|i: int, j: int| 0 <= i < j < list.len() implies comes_before(
        (#[trigger] list[i]).busid@,
        (#[trigger] list[j]).busid@,
    ) by {
        assert(!listed_ahead(list[j], list[i]));
        lemma_order_is_strict(list[i].busid@, list[j].busid@);
        if list[i].busid@ == list[j].busid@ {
            lemma_list_has_no_repeats(found, i, j);
        }
    }
}

/// Devices that differ in their bus ids still do once they are in order.
proof fn lemma_list_has_no_repeats(found: Seq<DeviceSummary>, i: int, j: int)
    requires
        forall|a: int, b: int|
            0 <= a < b < found.len() ==> (#[trigger] found[a]).busid@ != (
            #[trigger] found[b]).busid@,
        0 <= i < j < in_order(found).len(),
    ensures
        in_order(found)[i].busid@ != in_order(found)[j].busid@,
    decreases found.len(),
{
    broadcast use vstd::seq_lib::group_to_multiset_ensures;

    if found.len() > 0 {
        let init = found.drop_last();
        let rest = in_order(init);
        let d = found.last();
        let k = slot(rest, d);
        lemma_slot(rest, d);
        lemma_list_is_sorted(init);
        assert forall|a: int, b: int| 0 <= a < b < init.len() implies (#[trigger] init[a]).busid@
            != (#[trigger] init[b]).busid@ by {
            assert(init[a] == found[a] && init[b] == found[b]);
        }
        assert forall|m: int| 0 <= m < rest.len() implies (#[trigger] rest[m]).busid@
            != d.busid@ by {
            assert(rest.contains(rest[m]));
            assert(init.to_multiset().count(rest[m]) > 0);
            assert(init.contains(rest[m]));
            let f = choose|f: int| 0 <= f < init.len() && init[f] == rest[m];
            assert(found[f] == rest[m]);
            assert(found[found.len() - 1] == d);
        }
        let all = in_order(found);
        assert(all == rest.insert(k, d));
        if i != k && j != k {
            let a = if i < k {
                i
            } else {
                i - 1
            };
            let b = if j < k {
                j
            } else {
                j - 1
            };
            assert(all[i] == rest[a] && all[j] == rest[b]);
            lemma_list_has_no_repeats(init, a, b);
        } else if i == k {
            assert(all[j] == rest[j - 1]);
        } else {
            assert(all[i] == rest[i]);
        }
    }
}

/// The devices that the patterns let through, in order.
pub open spec fn exportable(all: Seq<DeviceSummary>, patterns: Seq<Pattern>) -> Seq<
    DeviceSummary,
> {
    all.filter(
        |d: DeviceSummary| allowed(patterns, d.device.id_vendor, d.device.id_product),
    )
}

/// The exportable devices: everything the allow-list admits. Root hubs are
/// already excluded by [`is_device_entry`].
pub fn list(filter: &DeviceFilter, all: Vec<DeviceSummary>) -> (r: Vec<DeviceSummary>)
    ensures
        r@ == exportable(all@, filter@),
{
    let mut rest = all;
    let mut out: Vec<DeviceSummary> = Vec::new();
    let ghost keep = |d: DeviceSummary|
        allowed(filter@, d.device.id_vendor, d.device.id_product);
    let ghost mut done: int = 0;
    proof {
        reveal(Seq::filter);
        assert(all@.take(0).filter(keep) =~= Seq::empty());
    }
    while rest.len() > 0
        invariant
            0 <= done <= all@.len(),
            rest@ == all@.skip(done),
            keep == (|d: DeviceSummary|
                allowed(filter@, d.device.id_vendor, d.device.id_product)),
            out@ == all@.take(done).filter(keep),
        decreases rest@.len(),
    {
        let d = rest.remove(0);
        let (vid, pid) = d.vid_pid();
        proof {
            reveal(Seq::filter);
            assert(all@.take(done + 1).drop_last() =~= all@.take(done));
            assert(all@.take(done + 1).last() == d);
            assert(rest@ =~= all@.skip(done + 1));
            done = done + 1;
        }
        if filter.matches(vid, pid) {
            out.push(d);
        }
    }
    assert(all@.take(done) =~= all@);
    out
}

pub proof fn lemma_filtered_from(all: Seq<DeviceSummary>, keep: spec_fn(DeviceSummary) -> bool)
    ensures
        forall|d: DeviceSummary| #[trigger] all.filter(keep).contains(d) ==> all.contains(d),
    decreases all.len(),
{
    reveal(Seq::filter);
    if all.len() > 0 {
        lemma_filtered_from(all.drop_last(), keep);
        assert forall|d: DeviceSummary| #[trigger] all.filter(keep).contains(d) implies all.contains(
            d,
        ) by {
            let init = all.drop_last().filter(keep);
            let i = choose|i: int| 0 <= i < all.filter(keep).len() && all.filter(keep)[i] == d;
            if i < init.len() {
                assert(init.contains(init[i]));
                let k = choose|k: int| 0 <= k < all.drop_last().len() && all.drop_last()[k] == d;
                assert(all[k] == d);
            } else {
                assert(all.last() == d);
            }
        }
    }
}

/// A device is exported exactly if it was found and the allow-list admits it; an
/// empty allow-list exports nothing.
pub proof fn lemma_only_allowed_devices_are_exported(
    all: Seq<DeviceSummary>,
    patterns: Seq<Pattern>,
)
    ensures
        forall|d: DeviceSummary| #[trigger]
            exportable(all, patterns).contains(d) <==> all.contains(d) && allowed(
                patterns,
                d.device.id_vendor,
                d.device.id_product,
            ),
        patterns.len() == 0 ==> exportable(all, patterns).len() == 0,
{
    let keep = |d: DeviceSummary| allowed(patterns, d.device.id_vendor, d.device.id_product);
    broadcast use vstd::seq_lib::group_filter_ensures;

    lemma_filtered_from(all, keep);
    assert forall|d: DeviceSummary| #[trigger] exportable(all, patterns).contains(d) <==> (
    all.contains(d) && allowed(patterns, d.device.id_vendor, d.device.id_product)) by {
        let r = exportable(all, patterns);
        if r.contains(d) {
            let i = choose|i: int| 0 <= i < r.len() && r[i] == d;
            assert(keep(r[i]));
        }
        if all.contains(d) && keep(d) {
            let i = choose|i: int| 0 <= i < all.len() && all[i] == d;
            assert(keep(all[i]));
        }
    }
    if patterns.len() == 0 && exportable(all, patterns).len() > 0 {
        let d = exportable(all, patterns)[0];
        assert(exportable(all, patterns).contains(d));
    }
}

proof fn lemma_attr(n: nat, a: Seq<char>, b: Seq<char>, max: nat)
    requires
        forall|k: int| 0 <= k < a.len() ==> is_white(#[trigger] a[k]),
        forall|k: int| 0 <= k < b.len() ==> is_white(#[trigger] b[k]),
    ensures
        attr_number(a + dec(n) + b, max) == (if n <= max {
            Some(n)
        } else {
            None
        }),
{
    let s = dec(n);
    lemma_numeral_value(n, 10);
    assert(digit_value(s[0], 10) is Some);
    assert(digit_value(s[s.len() - 1], 10) is Some);
    lemma_trimming_undone(a, s, b);
    assert(without_plus(s) == s);
}

/// What a device is called and numbered, out of what sysfs says of it: it has the bus id
/// that it was looked up under; its numbers are those that stand in the two attributes,
/// with white space around them or not; its node is named after them, three digits at
/// least; and it has its directory's path if that is there.
pub proof fn lemma_a_summary_has_the_devices_names(
    busid: Seq<char>,
    facts: SysfsFacts,
    s: DeviceSummary,
    bus: u32,
    dev: u32,
    white: Seq<char>,
)
    requires
        summary_result(busid, facts, Ok::<DeviceSummary, SummaryError>(s)),
        forall|k: int| 0 <= k < white.len() ==> is_white(#[trigger] white[k]),
        facts.busnum is Some && facts.busnum.unwrap()@ == dec(bus as nat) + white,
        facts.devnum is Some && facts.devnum.unwrap()@ == dec(dev as nat) + white,
    ensures
        s.busid@ == busid,
        s.busnum == bus,
        s.devnum == dev,
        s.node_path@ == "/dev/bus/usb/"@ + zero_padded(dec(bus as nat), 3) + seq!['/']
            + zero_padded(dec(dev as nat), 3),
        facts.exists ==> s.sys_path@ == "/sys/bus/usb/devices/"@ + busid,
        !facts.exists ==> s.sys_path@ == s.node_path@,
        facts.speed matches Some(t) && t@ == "480"@ + white ==> s.speed == Speed::High,
        facts.speed matches Some(t) && t@ == "12"@ + white ==> s.speed == Speed::Full,
        facts.speed matches Some(t) && t@ == "5000"@ + white ==> s.speed == Speed::Super,
        facts.speed is None ==> s.speed == Speed::Unknown,
{
    lemma_attr(bus as nat, seq![], white, 0xffff_ffff);
    lemma_attr(dev as nat, seq![], white, 0xffff_ffff);
    assert(seq![] + dec(bus as nat) + white =~= dec(bus as nat) + white);
    assert(seq![] + dec(dev as nat) + white =~= dec(dev as nat) + white);
    reveal_strlit("/");
    reveal_strlit("/dev/bus/usb");
    reveal_strlit("/dev/bus/usb/");
    reveal_strlit("/sys/bus/usb/devices");
    reveal_strlit("/sys/bus/usb/devices/");
    assert("/dev/bus/usb"@ + "/"@ =~= "/dev/bus/usb/"@);
    assert(node_text(bus, dev) =~= "/dev/bus/usb/"@ + zero_padded(dec(bus as nat), 3) + seq!['/']
        + zero_padded(dec(dev as nat), 3));
    assert("/sys/bus/usb/devices"@ + "/"@ =~= "/sys/bus/usb/devices/"@);
    lemma_speeds();
    lemma_rate("480"@, white);
    lemma_rate("12"@, white);
    lemma_rate("5000"@, white);
}

proof fn lemma_rate(s: Seq<char>, white: Seq<char>)
    requires
        s == "480"@ || s == "12"@ || s == "5000"@,
        forall|k: int| 0 <= k < white.len() ==> is_white(#[trigger] white[k]),
    ensures
        trimmed(s + white) == s,
{
    reveal_strlit("480");
    reveal_strlit("12");
    reveal_strlit("5000");
    lemma_trimming_undone(seq![], s, white);
    assert(seq![] + s + white =~= s + white);
}

/// What a client sees of a device is what its descriptors say: vendor, product and the
/// rest stand in the device descriptor, and of each interface of the configuration in
/// effect there is one entry, by ascending number, with the class of the setting that
/// stands for it. The configuration in effect is the one that sysfs names, if the device
/// describes it, or else the first.
pub proof fn lemma_a_client_sees_the_descriptors(
    busid: Seq<char>,
    facts: SysfsFacts,
    s: DeviceSummary,
    white: Seq<char>,
    value: u8,
)
    requires
        summary_result(busid, facts, Ok::<DeviceSummary, SummaryError>(s)),
        forall|k: int| 0 <= k < white.len() ==> is_white(#[trigger] white[k]),
    ensures
        ({
            let b = facts.descriptors@;
            let d = s.record();
            let cs = blob_of(b)->Ok_0.1;
            &&& d.busid == busid && d.path == s.sys_path@
            &&& d.busnum == s.busnum && d.devnum == s.devnum
            &&& d.speed == s.speed.raw()
            &&& d.id_vendor == b[8] + 256 * b[9]
            &&& d.id_product == b[10] + 256 * b[11]
            &&& d.bcd_device == b[12] + 256 * b[13]
            &&& d.b_device_class == b[4]
            &&& d.b_device_sub_class == b[5]
            &&& d.b_device_protocol == b[6]
            &&& d.b_num_configurations == b[17]
            &&& d.b_configuration_value == s.config_value
            &&& facts.config_value is Some && facts.config_value.unwrap()@ == dec(value as nat)
                + white && first_config(cs, value) is Some ==> s.config_value == value
            &&& facts.config_value is None && cs.len() > 0 ==> s.config_value
                == cs[0].configuration_value
            &&& d.interfaces.len() == s.interfaces@.len()
            &&& d.interfaces.len() <= 255 ==> d.b_num_interfaces == d.interfaces.len()
            &&& forall|i: int|
                0 <= i < d.interfaces.len() ==> (#[trigger] d.interfaces[i]).class
                    == s.interfaces@[i].class && d.interfaces[i].subclass
                    == s.interfaces@[i].sub_class && d.interfaces[i].protocol
                    == s.interfaces@[i].protocol
            &&& first_config(cs, s.config_value) is Some
            &&& InterfaceSummary::advertises(
                s.interfaces@,
                first_config(cs, s.config_value).unwrap(),
            )
        }),
{
    lemma_device_descriptor_layout(facts.descriptors@);
    lemma_attr(value as nat, seq![], white, 255);
    assert(seq![] + dec(value as nat) + white =~= dec(value as nat) + white);
}

/// A bus id is looked up by its two numbers: the name that is found is that of an entry
/// that has them, and it is no interface.
pub proof fn lemma_a_looked_up_name_has_the_numbers(
    e: SysfsEntry,
    bus: u32,
    dev: u32,
    white: Seq<char>,
)
    requires
        forall|k: int| 0 <= k < white.len() ==> is_white(#[trigger] white[k]),
        e.busnum is Some && e.busnum.unwrap()@ == dec(bus as nat) + white,
        e.devnum is Some && e.devnum.unwrap()@ == dec(dev as nat) + white,
        valid_busid(e.name@),
    ensures
        forall|b: u32, d: u32| #[trigger]
            e.is_device(b, d) <==> b == bus && d == dev && !e.name@.contains(':'),
{
    lemma_attr(bus as nat, seq![], white, 0xffff_ffff);
    lemma_attr(dev as nat, seq![], white, 0xffff_ffff);
    assert(seq![] + dec(bus as nat) + white =~= dec(bus as nat) + white);
    assert(seq![] + dec(dev as nat) + white =~= dec(dev as nat) + white);
    let s = e.name@;
    lemma_before(s, ':');
    if s.contains(':') {
        let k = choose|k: int| 0 <= k < s.len() && s[k] == ':';
        assert(before(s, ':') <= k);
    } else if before(s, ':') < s.len() {
        assert(s.contains(s[before(s, ':')]));
    }
}

/// Which names in the directory are devices: those without a colon that do not begin with
/// `usb`.
pub proof fn lemma_which_names_are_devices(s: Seq<char>)
    ensures
        names_a_device(s) <==> !s.contains(':') && !(s.len() >= 3 && s[0] == 'u' && s[1] == 's'
            && s[2] == 'b'),
{
    reveal_strlit("usb");
    lemma_before(s, ':');
    if s.contains(':') {
        let k = choose|k: int| 0 <= k < s.len() && s[k] == ':';
        assert(before(s, ':') <= k);
    } else if before(s, ':') < s.len() {
        assert(s.contains(s[before(s, ':')]));
    }
    if s.len() >= 3 && s[0] == 'u' && s[1] == 's' && s[2] == 'b' {
        assert(s.take(3) =~= "usb"@);
    }
    if begins_with(s, "usb"@) {
        assert(s.take(3)[0] == 'u' && s.take(3)[1] == 's' && s.take(3)[2] == 'b');
    }
}

/// Which entries of the directory are devices to be listed: those whose name is a bus id of
/// at most 63 letters, digits, dashes and dots, without two dots in a row, that does not
/// begin with `usb`; whose numbers can be read; and whose descriptors are those of a device
/// with a configuration.
pub proof fn lemma_which_devices_are_found(
    e: BusEntry,
    f: SysfsFacts,
    bus: u32,
    dev: u32,
    white: Seq<char>,
)
    requires
        e.facts == Some(f),
        forall|k: int| 0 <= k < white.len() ==> is_white(#[trigger] white[k]),
        f.busnum is Some && f.busnum.unwrap()@ == dec(bus as nat) + white,
        f.devnum is Some && f.devnum.unwrap()@ == dec(dev as nat) + white,
    ensures
        e.is_found() <==> {
            let s = e.name@;
            &&& 1 <= s.len() <= 63
            &&& forall|i: int|
                0 <= i < s.len() ==> 'a' <= (#[trigger] s[i]) <= 'z' || 'A' <= s[i] <= 'Z' || '0'
                    <= s[i] <= '9' || s[i] == '-' || s[i] == '.'
            &&& forall|i: int| 0 <= i < s.len() - 1 ==> !(#[trigger] s[i] == '.' && s[i + 1] == '.')
            &&& !(s.len() >= 3 && s[0] == 'u' && s[1] == 's' && s[2] == 'b')
            &&& blob_of(f.descriptors@) is Ok
            &&& blob_of(f.descriptors@)->Ok_0.1.len() > 0
        },
{
    let s = e.name@;
    lemma_attr(bus as nat, seq![], white, 0xffff_ffff);
    lemma_attr(dev as nat, seq![], white, 0xffff_ffff);
    assert(seq![] + dec(bus as nat) + white =~= dec(bus as nat) + white);
    assert(seq![] + dec(dev as nat) + white =~= dec(dev as nat) + white);
    lemma_which_names_are_devices(s);
    if names_a_device(s) && valid_busid(s) {
        assert forall|i: int| 0 <= i < s.len() implies 'a' <= (#[trigger] s[i]) <= 'z' || 'A'
            <= s[i] <= 'Z' || '0' <= s[i] <= '9' || s[i] == '-' || s[i] == '.' by {
            assert(busid_char(s[i]));
            assert(s.contains(s[i]));
        }
    }
    if forall|i: int|
        0 <= i < s.len() ==> 'a' <= (#[trigger] s[i]) <= 'z' || 'A' <= s[i] <= 'Z' || '0' <= s[i]
            <= '9' || s[i] == '-' || s[i] == '.' {
        assert forall|i: int| 0 <= i < s.len() implies busid_char(#[trigger] s[i]) by {}
        assert(!s.contains(':'));
    }
    match blob_of(f.descriptors@) {
        Ok((device, cs)) => {
            if cs.len() > 0 {
                lemma_configurations_are_found(cs, cs[0].configuration_value, 0);
            }
        },
        Err(_) => {},
    }
}

/// Every entry that is a device to be listed is, in the order of the directory, and an entry
/// of which nothing could be read is none.
pub proof fn lemma_every_device_is_scanned(entries: Seq<BusEntry>, e: BusEntry)
    ensures
        found_entries(entries) == entries.filter(|e: BusEntry| e.is_found()),
        e.facts is None ==> !e.is_found(),
    decreases entries.len(),
{
    reveal(Seq::filter);
    if entries.len() > 0 {
        lemma_every_device_is_scanned(entries.drop_last(), e);
    }
    assert(found_entries(entries) =~= entries.filter(|e: BusEntry| e.is_found()));
}

} // verus!
