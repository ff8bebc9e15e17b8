//! Talking to `vhci-hcd`.
//!
//! What attaching and detaching look like, and what the kernel and `usbip` say of
//! the ports. Attaching goes through `usbip`, because handing the connected socket
//! to the kernel means writing its *file descriptor number* into `.../attach`, and
//! reproducing that dance buys nothing while `usbip attach` is a package away.
use crate::text::{
    begins_with, chars, comes_before, dec, has_prefix, is_word, lemma_lines_read_back,
    lemma_numerals_are_words, lemma_one_more_between, lemma_order_is_strict,
    lemma_order_is_transitive, lemma_words_with_blanks, lemma_written_number_reads_back, lines,
    lossy, numeral, parse_nat, parsed_nat, part, precedes, push_dec, same, string, strings,
    text_lines, text_of, text_words, texts, trim, trimmed, with_between, words, zero_padded,
};
use vstd::prelude::*;
use vstd::string::*;

verus! {

broadcast use {vstd::slice::group_slice_axioms, vstd::array::group_array_axioms};

/// Where the kernel shows its platform devices.
pub const PLATFORM_DIR: &'static str = "/sys/devices/platform";

/// Where `usbip attach` records what it connected, one file per port.
pub const STATE_DIR: &'static str = "/var/run/vhci_hcd";

/// `enum usbip_device_status`, the vhci half.
pub const VDEV_ST_NULL: u32 = 4;

pub const VDEV_ST_NOTASSIGNED: u32 = 5;

pub const VDEV_ST_USED: u32 = 6;

pub const VDEV_ST_ERROR: u32 = 7;

#[derive(Debug, Clone, PartialEq, Eq)]
pub struct Port {
    /// `hs` or `ss`: which virtual root hub the port belongs to.
    pub hub: String,
    pub port: u32,
    pub status: u32,
    pub speed: u32,
    pub devid: u32,
    pub sockfd: u32,
    /// The device's name on *this* machine once attached, e.g. `5-1`. It is
    /// not the remote bus id; see [`records`] for that.
    pub local_busid: String,
}

/// A port as contracts speak of it.
pub struct PortModel {
    pub hub: Seq<char>,
    pub port: u32,
    pub status: u32,
    pub speed: u32,
    pub devid: u32,
    pub sockfd: u32,
    pub local_busid: Seq<char>,
}

impl View for Port {
    type V = PortModel;

    open spec fn view(&self) -> PortModel {
        PortModel {
            hub: self.hub@,
            port: self.port,
            status: self.status,
            speed: self.speed,
            devid: self.devid,
            sockfd: self.sockfd,
            local_busid: self.local_busid@,
        }
    }
}

/// What a status number is called.
pub open spec fn status_text(status: u32) -> Seq<char> {
    if status == VDEV_ST_NULL {
        "free"@
    } else if status == VDEV_ST_NOTASSIGNED {
        "not assigned"@
    } else if status == VDEV_ST_USED {
        "in use"@
    } else if status == VDEV_ST_ERROR {
        "error"@
    } else {
        "unknown"@
    }
}

impl Port {
    pub fn in_use(&self) -> (r: bool)
        ensures
            r == (self.status == VDEV_ST_USED),
    {
        self.status == VDEV_ST_USED
    }

    /// Not free. A freshly attached port sits at `VDEV_ST_NOTASSIGNED` for a
    /// few hundred milliseconds (`vhci_hub_control` only promotes it to
    /// `VDEV_ST_USED` when the port reset during enumeration completes), so
    /// "in use" alone would report a device that is still coming up as absent.
    pub fn occupied(&self) -> (r: bool)
        ensures
            r == (self.status != VDEV_ST_NULL),
    {
        self.status != VDEV_ST_NULL
    }

    pub fn failed(&self) -> (r: bool)
        ensures
            r == (self.status == VDEV_ST_ERROR),
    {
        self.status == VDEV_ST_ERROR
    }

    pub fn status_name(&self) -> (s: &'static str)
        ensures
            s@ == status_text(self.status),
    {
        if self.status == VDEV_ST_NULL {
            "free"
        } else if self.status == VDEV_ST_NOTASSIGNED {
            "not assigned"
        } else if self.status == VDEV_ST_USED {
            "in use"
        } else if self.status == VDEV_ST_ERROR {
            "error"
        } else {
            "unknown"
        }
    }
}

/// What `usbip attach` wrote about a port: the remote side of the connection.
#[derive(Debug, Clone, PartialEq, Eq)]
pub struct Record {
    pub port: u32,
    pub host: String,
    pub service_port: String,
    pub busid: String,
}

/// A record as contracts speak of it.
pub struct RecordModel {
    pub port: u32,
    pub host: Seq<char>,
    pub service_port: Seq<char>,
    pub busid: Seq<char>,
}

impl View for Record {
    type V = RecordModel;

    open spec fn view(&self) -> RecordModel {
        RecordModel {
            port: self.port,
            host: self.host@,
            service_port: self.service_port@,
            busid: self.busid@,
        }
    }
}

pub open spec fn ports_view(v: Seq<Port>) -> Seq<PortModel> {
    v.map_values(|p: Port| p@)
}

pub open spec fn records_view(v: Seq<Record>) -> Seq<RecordModel> {
    v.map_values(|r: Record| r@)
}

/// The controller's directory, if it `exists`: the module is loaded while it does.
pub fn hcd_dir(exists: bool) -> (r: Option<String>)
    ensures
        match r {
            Some(d) => exists && d@ == PLATFORM_DIR@ + "/vhci_hcd.0"@,
            None => !exists,
        },
{
    if !exists {
        return None;
    }
    let mut d = String::new();
    d.append(PLATFORM_DIR);
    d.append("/vhci_hcd.0");
    assert(d@ =~= PLATFORM_DIR@ + "/vhci_hcd.0"@);
    Some(d)
}

pub fn loaded(hcd_dir: &Option<String>) -> (r: bool)
    ensures
        r == (*hcd_dir is Some),
{
    hcd_dir.is_some()
}

/// What is said when `modprobe` ran and failed.
pub fn modprobe_error(stderr: &[u8]) -> (s: String)
    ensures
        s@ == "modprobe vhci-hcd failed: "@ + trimmed(text_of(stderr@))
            + ". On Fedora the module is in kernel-modules-extra; on SteamOS it is built in."@,
{
    let said = chars(lossy(stderr).as_str());
    let mut s = String::new();
    s.append("modprobe vhci-hcd failed: ");
    s.append(string(trim(said.as_slice())).as_str());
    s.append(". On Fedora the module is in kernel-modules-extra; on SteamOS it is built in.");
    assert(s@ =~= "modprobe vhci-hcd failed: "@ + trimmed(text_of(stderr@))
        + ". On Fedora the module is in kernel-modules-extra; on SteamOS it is built in."@);
    s
}

// ---------------------------------------------------------------------------
// Status files

/// A number of a field, or nothing.
pub open spec fn field_or_zero(s: Seq<char>, radix: nat) -> u32 {
    match parsed_nat(s, radix, u32::MAX as nat) {
        Some(n) => n as u32,
        None => 0,
    }
}

/// The port that a line tells of. The first line is a header, whose second field is
/// not a number; it tells of none, and neither does a line that is cut short.
pub open spec fn port_of_line(line: Seq<char>) -> Option<PortModel> {
    let f = text_words(line);
    if f.len() < 7 {
        None
    } else {
        match (
            parsed_nat(f[1], 10, u32::MAX as nat),
            parsed_nat(f[2], 10, u32::MAX as nat),
            parsed_nat(f[3], 10, u32::MAX as nat),
        ) {
            (Some(port), Some(status), Some(speed)) => Some(
                PortModel {
                    hub: f[0],
                    port: port as u32,
                    status: status as u32,
                    speed: speed as u32,
                    devid: field_or_zero(f[4], 16),
                    sockfd: field_or_zero(f[5], 10),
                    local_busid: f[6],
                },
            ),
            _ => None,
        }
    }
}

/// The ports that lines tell of, in order.
pub open spec fn ports_of_lines(ls: Seq<Seq<char>>) -> Seq<PortModel>
    decreases ls.len(),
{
    if ls.len() == 0 {
        seq![]
    } else {
        let rest = ports_of_lines(ls.drop_last());
        match port_of_line(ls.last()) {
            Some(p) => rest.push(p),
            None => rest,
        }
    }
}

fn number(s: &[char], radix: u64) -> (r: Option<u32>)
    requires
        2 <= radix <= 16,
    ensures
        match r {
            Some(n) => parsed_nat(s@, radix as nat, u32::MAX as nat) == Some(n as nat),
            None => parsed_nat(s@, radix as nat, u32::MAX as nat) is None,
        },
{
    match parse_nat(s, radix, u32::MAX as u64) {
        Some(n) => Some(n as u32),
        None => None,
    }
}

fn parse_line(line: &[char]) -> (r: Option<Port>)
    ensures
        match r {
            Some(p) => port_of_line(line@) == Some(p@),
            None => port_of_line(line@) is None,
        },
{
    let f = words(line);
    let ghost all = texts(f@);
    assert(all.len() == f@.len());
    if f.len() < 7 {
        return None;
    }
    assert forall|i: int| 0 <= i < f@.len() implies all[i] == #[trigger] f@[i]@ by {}
    let port: u32 = number(f[1], 10)?;
    let status: u32 = number(f[2], 10)?;
    let speed: u32 = number(f[3], 10)?;
    Some(
        Port {
            hub: string(f[0]),
            port,
            status,
            speed,
            devid: match number(f[4], 16) {
                Some(n) => n,
                None => 0,
            },
            sockfd: match number(f[5], 10) {
                Some(n) => n,
                None => 0,
            },
            local_busid: string(f[6]),
        },
    )
}

/// The ports of one status file.
pub fn parse_status(text: &str) -> (r: Vec<Port>)
    ensures
        ports_view(r@) == ports_of_lines(text_lines(text@)),
{
    let cs = chars(text);
    let ls = lines(cs.as_slice());
    let ghost all = texts(ls@);
    let mut out: Vec<Port> = Vec::new();
    let mut i: usize = 0;
    assert(all.take(0) =~= Seq::empty());
    assert(ports_view(out@) =~= Seq::empty());
    while i < ls.len()
        invariant
            i <= ls@.len(),
            all == texts(ls@),
            ports_view(out@) == ports_of_lines(all.take(i as int)),
        decreases ls@.len() - i,
    {
        proof {
            assert(all.take(i + 1).drop_last() =~= all.take(i as int));
            assert(all.take(i + 1).last() == ls@[i as int]@);
        }
        match parse_line(ls[i]) {
            Some(p) => {
                let ghost had = ports_view(out@);
                out.push(p);
                assert(ports_view(out@) =~= had.push(p@));
            },
            None => {},
        }
        i = i + 1;
    }
    assert(all.take(i as int) =~= all);
    out
}

/// Whether a file in the controller's directory lists ports. A multi-controller
/// setup has `status`, `status.1`, ...
pub open spec fn lists_ports(name: Seq<char>) -> bool {
    name == "status"@ || begins_with(name, "status."@)
}

/// The names with one more put in its place, behind those that come before it or
/// are the same.
pub open spec fn placed(names: Seq<Seq<char>>, name: Seq<char>) -> Seq<Seq<char>>
    decreases names.len(),
{
    if names.len() > 0 && comes_before(name, names.last()) {
        placed(names.drop_last(), name).push(names.last())
    } else {
        names.push(name)
    }
}

/// The files that list ports, in the order of their names.
pub open spec fn status_names(names: Seq<Seq<char>>) -> Seq<Seq<char>>
    decreases names.len(),
{
    if names.len() == 0 {
        seq![]
    } else if lists_ports(names.last()) {
        placed(status_names(names.drop_last()), names.last())
    } else {
        status_names(names.drop_last())
    }
}

proof fn lemma_placed_behind(names: Seq<Seq<char>>, name: Seq<char>, i: int)
    requires
        0 <= i <= names.len(),
        forall|k: int| i <= k < names.len() ==> comes_before(name, #[trigger] names[k]),
        i > 0 ==> !comes_before(name, names[i - 1]),
    ensures
        placed(names, name) == names.insert(i, name),
    decreases names.len(),
{
    if i < names.len() {
        let rest = names.drop_last();
        assert(names[names.len() - 1] == names.last());
        lemma_placed_behind(rest, name, i);
        assert(rest.insert(i, name).push(names.last()) =~= names.insert(i, name));
    } else {
        assert(names.push(name) =~= names.insert(i, name));
    }
}

fn place(names: &mut Vec<String>, name: String)
    ensures
        strings(final(names)@) == placed(strings(old(names)@), name@),
{
    let cs = chars(name.as_str());
    let ghost all = strings(names@);
    let mut i: usize = names.len();
    while i > 0 && precedes(cs.as_slice(), chars(names[i - 1].as_str()).as_slice())
        invariant
            i <= names@.len(),
            all == strings(names@),
            cs@ == name@,
            *names == *old(names),
            forall|k: int| i <= k < all.len() ==> comes_before(name@, #[trigger] all[k]),
        decreases i,
    {
        assert(all[i - 1] == names@[i - 1]@);
        i = i - 1;
    }
    let ghost text = name@;
    proof {
        if i > 0 {
            assert(all[i - 1] == names@[i - 1]@);
        }
        lemma_placed_behind(all, text, i as int);
    }
    names.insert(i, name);
    assert(strings(names@) =~= all.insert(i as int, text));
}

/// The files of the controller's directory to read for its ports, in order.
pub fn status_files(names: &Vec<String>) -> (r: Vec<String>)
    ensures
        strings(r@) == status_names(strings(names@)),
{
    let ghost all = strings(names@);
    let more = chars("status.");
    let mut out: Vec<String> = Vec::new();
    let mut i: usize = 0;
    assert(all.take(0) =~= Seq::empty());
    assert(strings(out@) =~= Seq::empty());
    while i < names.len()
        invariant
            i <= names@.len(),
            all == strings(names@),
            more@ == "status."@,
            strings(out@) == status_names(all.take(i as int)),
        decreases names@.len() - i,
    {
        proof {
            assert(all.take(i + 1).drop_last() =~= all.take(i as int));
            assert(all.take(i + 1).last() == names@[i as int]@);
        }
        let cs = chars(names[i].as_str());
        if same(names[i].as_str(), "status") || has_prefix(cs.as_slice(), more.as_slice()) {
            place(&mut out, names[i].clone());
        }
        i = i + 1;
    }
    assert(all.take(i as int) =~= all);
    out
}

/// The ports of all status files, one after the other. A file that could not be
/// read adds none.
pub open spec fn ports_of_files(files: Seq<Option<String>>) -> Seq<PortModel>
    decreases files.len(),
{
    if files.len() == 0 {
        seq![]
    } else {
        let rest = ports_of_files(files.drop_last());
        match files.last() {
            Some(text) => rest + ports_of_lines(text_lines(text@)),
            None => rest,
        }
    }
}

/// Every vhci port, from what the status files hold.
pub fn ports(files: &[Option<String>]) -> (r: Vec<Port>)
    ensures
        ports_view(r@) == ports_of_files(files@),
{
    let mut out: Vec<Port> = Vec::new();
    let mut i: usize = 0;
    assert(files@.take(0) =~= Seq::empty());
    assert(ports_view(out@) =~= Seq::empty());
    while i < files.len()
        invariant
            i <= files@.len(),
            ports_view(out@) == ports_of_files(files@.take(i as int)),
        decreases files@.len() - i,
    {
        assert(files@.take(i + 1).drop_last() =~= files@.take(i as int));
        assert(files@.take(i + 1).last() == files@[i as int]);
        match &files[i] {
            Some(text) => {
                let mut more = parse_status(text.as_str());
                let ghost had = out@;
                let ghost new = more@;
                out.append(&mut more);
                assert(ports_view(out@) =~= ports_view(had) + ports_view(new));
            },
            None => {},
        }
        i = i + 1;
    }
    assert(files@.take(i as int) =~= files@);
    out
}

/// What is said when ports are asked for and there is no controller.
pub fn not_loaded() -> (s: String)
    ensures
        s@ == PLATFORM_DIR@ + "/vhci_hcd.0 is missing; vhci-hcd is not loaded"@,
{
    let mut s = String::new();
    s.append(PLATFORM_DIR);
    s.append("/vhci_hcd.0 is missing; vhci-hcd is not loaded");
    assert(s@ =~= PLATFORM_DIR@ + "/vhci_hcd.0 is missing; vhci-hcd is not loaded"@);
    s
}

/// The numbers of the ports that are not free.
pub open spec fn taken(ps: Seq<PortModel>) -> Seq<u32>
    decreases ps.len(),
{
    if ps.len() == 0 {
        seq![]
    } else if ps.last().status != VDEV_ST_NULL {
        taken(ps.drop_last()).push(ps.last().port)
    } else {
        taken(ps.drop_last())
    }
}

/// Ports that are not free, including ones still being enumerated. This is the
/// set to diff across an attach.
pub fn occupied_ports(ports: &Vec<Port>) -> (r: Vec<u32>)
    ensures
        r@ == taken(ports_view(ports@)),
{
    let ghost all = ports_view(ports@);
    let mut out: Vec<u32> = Vec::new();
    let mut i: usize = 0;
    assert(all.take(0) =~= Seq::empty());
    while i < ports.len()
        invariant
            i <= ports@.len(),
            all == ports_view(ports@),
            out@ == taken(all.take(i as int)),
        decreases ports@.len() - i,
    {
        proof {
            assert(all.take(i + 1).drop_last() =~= all.take(i as int));
            assert(all.take(i + 1).last() == ports@[i as int]@);
        }
        if ports[i].occupied() {
            out.push(ports[i].port);
        }
        i = i + 1;
    }
    assert(all.take(i as int) =~= all);
    out
}

// ---------------------------------------------------------------------------
// Records

/// The port that a file in the state directory is about, going by its name.
pub open spec fn recorded_port(name: Seq<char>) -> Option<nat> {
    if begins_with(name, "port"@) {
        parsed_nat(name.skip(4), 10, u32::MAX as nat)
    } else {
        None
    }
}

/// Whether a file in the state directory is worth reading: what port it is about.
pub fn record_port(name: &str) -> (r: Option<u32>)
    ensures
        match r {
            Some(n) => recorded_port(name@) == Some(n as nat),
            None => recorded_port(name@) is None,
        },
{
    proof {
        reveal_strlit("port");
    }
    let cs = chars(name);
    if !has_prefix(cs.as_slice(), chars("port").as_slice()) {
        return None;
    }
    let digits = part(cs.as_slice(), 4, cs.len());
    assert(digits@ =~= name@.skip(4));
    number(digits, 10)
}

/// What a file in the state directory records, if it is about a port, could be
/// read and is complete.
pub open spec fn record_of(name: Seq<char>, text: Option<String>) -> Option<RecordModel> {
    match (recorded_port(name), text) {
        (Some(port), Some(t)) => {
            let f = text_words(t@);
            if f.len() >= 3 {
                Some(
                    RecordModel { port: port as u32, host: f[0], service_port: f[1], busid: f[2] },
                )
            } else {
                None
            }
        },
        _ => None,
    }
}

/// The records with one more put in its place by its port, behind those with the
/// same port.
pub open spec fn filed(rs: Seq<RecordModel>, r: RecordModel) -> Seq<RecordModel>
    decreases rs.len(),
{
    if rs.len() > 0 && rs.last().port > r.port {
        filed(rs.drop_last(), r).push(rs.last())
    } else {
        rs.push(r)
    }
}

/// What the files of the state directory record, in the order of the ports.
pub open spec fn records_of(files: Seq<(String, Option<String>)>) -> Seq<RecordModel>
    decreases files.len(),
{
    if files.len() == 0 {
        seq![]
    } else {
        let rest = records_of(files.drop_last());
        match record_of(files.last().0@, files.last().1) {
            Some(r) => filed(rest, r),
            None => rest,
        }
    }
}

proof fn lemma_filed_behind(rs: Seq<RecordModel>, r: RecordModel, i: int)
    requires
        0 <= i <= rs.len(),
        forall|k: int| i <= k < rs.len() ==> (#[trigger] rs[k]).port > r.port,
        i > 0 ==> rs[i - 1].port <= r.port,
    ensures
        filed(rs, r) == rs.insert(i, r),
    decreases rs.len(),
{
    if i < rs.len() {
        let rest = rs.drop_last();
        assert(rs[rs.len() - 1] == rs.last());
        lemma_filed_behind(rest, r, i);
        assert(rest.insert(i, r).push(rs.last()) =~= rs.insert(i, r));
    } else {
        assert(rs.push(r) =~= rs.insert(i, r));
    }
}

fn file_record(rs: &mut Vec<Record>, r: Record)
    ensures
        records_view(final(rs)@) == filed(records_view(old(rs)@), r@),
{
    let ghost all = records_view(rs@);
    let mut i: usize = rs.len();
    while i > 0 && rs[i - 1].port > r.port
        invariant
            i <= rs@.len(),
            all == records_view(rs@),
            *rs == *old(rs),
            forall|k: int| i <= k < all.len() ==> (#[trigger] all[k]).port > r.port,
        decreases i,
    {
        assert(all[i - 1] == rs@[i - 1]@);
        i = i - 1;
    }
    let ghost model = r@;
    proof {
        if i > 0 {
            assert(all[i - 1] == rs@[i - 1]@);
        }
        lemma_filed_behind(all, model, i as int);
    }
    rs.insert(i, r);
    assert(records_view(rs@) =~= all.insert(i as int, model));
}

fn parse_record(name: &str, text: &Option<String>) -> (r: Option<Record>)
    ensures
        match r {
            Some(r) => record_of(name@, *text) == Some(r@),
            None => record_of(name@, *text) is None,
        },
{
    let port: u32 = record_port(name)?;
    match text {
        Some(t) => {
            let cs = chars(t.as_str());
            let f = words(cs.as_slice());
            let ghost all = texts(f@);
            assert(all.len() == f@.len());
            if f.len() < 3 {
                return None;
            }
            assert(all[0] == f@[0]@ && all[1] == f@[1]@ && all[2] == f@[2]@);
            Some(
                Record { port, host: string(f[0]), service_port: string(f[1]), busid: string(f[2]) },
            )
        },
        None => None,
    }
}

/// What `usbip attach` recorded, from the names and texts of the files in its state
/// directory. Best effort: the directory only exists if something has attached
/// since boot.
pub fn records(files: &Vec<(String, Option<String>)>) -> (r: Vec<Record>)
    ensures
        records_view(r@) == records_of(files@),
{
    let mut out: Vec<Record> = Vec::new();
    let mut i: usize = 0;
    assert(files@.take(0) =~= Seq::empty());
    assert(records_view(out@) =~= Seq::empty());
    while i < files.len()
        invariant
            i <= files@.len(),
            records_view(out@) == records_of(files@.take(i as int)),
        decreases files@.len() - i,
    {
        assert(files@.take(i + 1).drop_last() =~= files@.take(i as int));
        assert(files@.take(i + 1).last() == files@[i as int]);
        match parse_record(files[i].0.as_str(), &files[i].1) {
            Some(r) => file_record(&mut out, r),
            None => {},
        }
        i = i + 1;
    }
    assert(files@.take(i as int) =~= files@);
    out
}

// ---------------------------------------------------------------------------
// The usbip tool

/// A command as it would be typed.
pub open spec fn typed(usbip: Seq<char>, args: Seq<Seq<char>>) -> Seq<char>
    decreases args.len(),
{
    if args.len() == 0 {
        usbip + " "@
    } else if args.len() == 1 {
        usbip + " "@ + args[0]
    } else {
        typed(usbip, args.drop_last()) + " "@ + args.last()
    }
}

fn command_line(usbip: &str, args: &Vec<String>) -> (s: String)
    ensures
        s@ == typed(usbip@, strings(args@)),
{
    let ghost all = strings(args@);
    let mut s = String::new();
    s.append(usbip);
    s.append(" ");
    assert(all.take(0) =~= Seq::empty());
    assert(s@ =~= typed(usbip@, all.take(0)));
    let mut i: usize = 0;
    while i < args.len()
        invariant
            i <= args@.len(),
            all == strings(args@),
            s@ == typed(usbip@, all.take(i as int)),
        decreases args@.len() - i,
    {
        proof {
            assert(all.take(i + 1).drop_last() =~= all.take(i as int));
            assert(all.take(i + 1).last() == args@[i as int]@);
            assert(all.take(i + 1)[0] == all[0]);
            assert(all[0] == args@[0]@);
        }
        if i > 0 {
            s.append(" ");
        }
        s.append(args[i].as_str());
        assert(s@ =~= typed(usbip@, all.take(i + 1)));
        i = i + 1;
    }
    assert(all.take(i as int) =~= all);
    s
}

/// What is said when the tool could not be started; `error` says why.
pub fn run_error(usbip: &str, args: &Vec<String>, error: &str) -> (s: String)
    ensures
        s@ == "running `"@ + typed(usbip@, strings(args@)) + "`: "@ + error@
            + ". Install the usbip tools (Fedora: `dnf install usbip`) or set `usbip` in [attach]."@,
{
    let mut s = String::new();
    s.append("running `");
    s.append(command_line(usbip, args).as_str());
    s.append("`: ");
    s.append(error);
    s.append(". Install the usbip tools (Fedora: `dnf install usbip`) or set `usbip` in [attach].");
    assert(s@ =~= "running `"@ + typed(usbip@, strings(args@)) + "`: "@ + error@
        + ". Install the usbip tools (Fedora: `dnf install usbip`) or set `usbip` in [attach]."@);
    s
}

/// What a run of the tool comes to: what it wrote about its errors if it succeeded,
/// and if it failed either that or, where it wrote nothing, how it ended.
pub fn run_outcome(
    usbip: &str,
    args: &Vec<String>,
    success: bool,
    status: &str,
    stderr: &[u8],
) -> (r: Result<String, String>)
    ensures
        ({
            let said = trimmed(text_of(stderr@));
            match r {
                Ok(s) => success && s@ == said,
                Err(e) => !success && e@ == (if said.len() == 0 {
                    "`"@ + typed(usbip@, strings(args@)) + "` exited with "@ + status@
                } else {
                    said
                }),
            }
        }),
{
    let written = chars(lossy(stderr).as_str());
    let said = trim(written.as_slice());
    if success {
        return Ok(string(said));
    }
    if said.len() > 0 {
        return Err(string(said));
    }
    let mut s = String::new();
    s.append("`");
    s.append(command_line(usbip, args).as_str());
    s.append("` exited with ");
    s.append(status);
    assert(s@ =~= "`"@ + typed(usbip@, strings(args@)) + "` exited with "@ + status@);
    Err(s)
}

fn option(name: &str, value: &str) -> (s: String)
    ensures
        s@ == name@ + value@,
{
    let mut s = String::new();
    s.append(name);
    s.append(value);
    assert(s@ =~= name@ + value@);
    s
}

fn number_text(n: u64) -> (s: String)
    ensures
        s@ == dec(n as nat),
{
    let mut s = String::new();
    push_dec(&mut s, n);
    assert(s@ =~= dec(n as nat));
    s
}

/// The arguments with which `usbip` attaches a device.
pub fn attach(host: &str, port: u16, busid: &str) -> (r: Vec<String>)
    ensures
        strings(r@) == seq![
            "--tcp-port"@,
            dec(port as nat),
            "attach"@,
            "--remote="@ + host@,
            "--busid="@ + busid@,
        ],
{
    let mut r: Vec<String> = Vec::new();
    r.push("--tcp-port".to_owned());
    r.push(number_text(port as u64));
    r.push("attach".to_owned());
    r.push(option("--remote=", host));
    r.push(option("--busid=", busid));
    assert(strings(r@) =~= seq![
        "--tcp-port"@,
        dec(port as nat),
        "attach"@,
        "--remote="@ + host@,
        "--busid="@ + busid@,
    ]);
    r
}

/// The arguments with which `usbip` detaches a port.
pub fn detach(port: u32) -> (r: Vec<String>)
    ensures
        strings(r@) == seq!["detach"@, "--port="@ + dec(port as nat)],
{
    let mut r: Vec<String> = Vec::new();
    r.push("detach".to_owned());
    r.push(option("--port=", number_text(port as u64).as_str()));
    assert(strings(r@) =~= seq!["detach"@, "--port="@ + dec(port as nat)]);
    r
}

/// The first of the later numbers that is not among the earlier ones.
pub open spec fn first_new(before: Seq<u32>, after: Seq<u32>) -> Option<u32>
    decreases after.len(),
{
    if after.len() == 0 {
        None
    } else if !before.contains(after[0]) {
        Some(after[0])
    } else {
        first_new(before, after.drop_first())
    }
}

/// Whether a number is in a list.
pub fn among(v: &[u32], n: u32) -> (r: bool)
    ensures
        r == v@.contains(n),
{
    let mut i: usize = 0;
    while i < v.len()
        invariant
            i <= v@.len(),
            forall|j: int| 0 <= j < i ==> v@[j] != n,
        decreases v@.len() - i,
    {
        if v[i] == n {
            return true;
        }
        i = i + 1;
    }
    false
}

/// The port that appeared between two snapshots of [`occupied_ports`].
pub fn newly_used(before: &[u32], after: &[u32]) -> (r: Option<u32>)
    ensures
        r == first_new(before@, after@),
{
    let mut i: usize = 0;
    assert(after@.skip(0) =~= after@);
    while i < after.len()
        invariant
            i <= after@.len(),
            first_new(before@, after@) == first_new(before@, after@.skip(i as int)),
        decreases after@.len() - i,
    {
        assert(after@.skip(i as int)[0] == after@[i as int]);
        if !among(before, after[i]) {
            return Some(after[i]);
        }
        assert(after@.skip(i as int).drop_first() =~= after@.skip(i + 1));
        i = i + 1;
    }
    None
}

// ---------------------------------------------------------------------------
// Laws

/// Whether records are in the order of their ports.
pub open spec fn in_order(rs: Seq<RecordModel>) -> bool {
    forall|i: int, j: int|
        0 <= i <= j < rs.len() ==> (#[trigger] rs[i]).port <= (#[trigger] rs[j]).port
}

proof fn lemma_filed_in_order(rs: Seq<RecordModel>, r: RecordModel)
    requires
        in_order(rs),
    ensures
        in_order(filed(rs, r)),
        forall|i: int|
            0 <= i < filed(rs, r).len() ==> (#[trigger] filed(rs, r)[i]).port <= r.port || (
            rs.len() > 0 && filed(rs, r)[i].port <= rs.last().port),
    decreases rs.len(),
{
    let out = filed(rs, r);
    if rs.len() > 0 && rs.last().port > r.port {
        let rest = rs.drop_last();
        lemma_filed_in_order(rest, r);
        let last = rs.last();
        assert(out =~= filed(rest, r).push(last));
        assert forall|i: int| 0 <= i < out.len() implies (#[trigger] out[i]).port <= last.port by {
            if i < filed(rest, r).len() {
                assert(out[i] == filed(rest, r)[i]);
                if rest.len() > 0 {
                    assert(rest.last() == rs[rs.len() - 2]);
                    assert(rs[rs.len() - 2].port <= rs[rs.len() - 1].port);
                }
            }
        }
        assert forall|i: int, j: int| 0 <= i <= j < out.len() implies (#[trigger] out[i]).port <= (
        #[trigger] out[j]).port by {
            if j < filed(rest, r).len() {
                assert(out[i] == filed(rest, r)[i] && out[j] == filed(rest, r)[j]);
            }
        }
    } else {
        assert(out =~= rs.push(r));
        assert forall|i: int| 0 <= i < out.len() implies (#[trigger] out[i]).port <= r.port by {
            if i < rs.len() {
                assert(out[i] == rs[i]);
                assert(rs[i].port <= rs[rs.len() - 1].port);
            }
        }
    }
}

/// Records come in the order of their ports.
pub proof fn lemma_records_are_in_order(files: Seq<(String, Option<String>)>)
    ensures
        in_order(records_of(files)),
    decreases files.len(),
{
    if files.len() > 0 {
        lemma_records_are_in_order(files.drop_last());
        match record_of(files.last().0@, files.last().1) {
            Some(r) => lemma_filed_in_order(records_of(files.drop_last()), r),
            None => {},
        }
    }
}

/// What appears between two snapshots is in the later one and not in the earlier,
/// and nothing appears exactly if the earlier one has all that the later has.
pub proof fn lemma_the_difference_is_new(before: Seq<u32>, after: Seq<u32>)
    ensures
        match first_new(before, after) {
            Some(p) => after.contains(p) && !before.contains(p),
            None => forall|i: int| 0 <= i < after.len() ==> before.contains(#[trigger] after[i]),
        },
    decreases after.len(),
{
    if after.len() > 0 {
        let rest = after.drop_first();
        lemma_the_difference_is_new(before, rest);
        match first_new(before, after) {
            Some(p) => {
                if before.contains(after[0]) {
                    let k = choose|k: int| 0 <= k < rest.len() && rest[k] == p;
                    assert(after[k + 1] == p);
                }
            },
            None => {
                assert forall|i: int| 0 <= i < after.len() implies before.contains(
                    #[trigger] after[i],
                ) by {
                    if i > 0 {
                        assert(rest[i - 1] == after[i]);
                    }
                }
            },
        }
    }
}

/// A line of the status file as the kernel writes it, with the numbers of a port padded
/// with zeros, is read as that port.
pub proof fn lemma_a_status_line_reads_back(p: PortModel)
    requires
        is_word(p.hub),
        is_word(p.local_busid),
    ensures
        port_of_line(
            with_between(
                seq![
                    p.hub,
                    zero_padded(numeral(p.port as nat, 10), 4),
                    zero_padded(numeral(p.status as nat, 10), 3),
                    zero_padded(numeral(p.speed as nat, 10), 3),
                    zero_padded(numeral(p.devid as nat, 16), 8),
                    zero_padded(numeral(p.sockfd as nat, 10), 6),
                    p.local_busid,
                ],
                ' ',
            ),
        ) == Some(p),
{
    let ws = seq![
        p.hub,
        zero_padded(numeral(p.port as nat, 10), 4),
        zero_padded(numeral(p.status as nat, 10), 3),
        zero_padded(numeral(p.speed as nat, 10), 3),
        zero_padded(numeral(p.devid as nat, 16), 8),
        zero_padded(numeral(p.sockfd as nat, 10), 6),
        p.local_busid,
    ];
    lemma_numerals_are_words(p.port as nat, 10, 4);
    lemma_numerals_are_words(p.status as nat, 10, 3);
    lemma_numerals_are_words(p.speed as nat, 10, 3);
    lemma_numerals_are_words(p.devid as nat, 16, 8);
    lemma_numerals_are_words(p.sockfd as nat, 10, 6);
    lemma_words_with_blanks(ws);
    lemma_written_number_reads_back(p.port as nat, 10, 4, u32::MAX as nat);
    lemma_written_number_reads_back(p.status as nat, 10, 3, u32::MAX as nat);
    lemma_written_number_reads_back(p.speed as nat, 10, 3, u32::MAX as nat);
    lemma_written_number_reads_back(p.devid as nat, 16, 8, u32::MAX as nat);
    lemma_written_number_reads_back(p.sockfd as nat, 10, 6, u32::MAX as nat);
}

/// A line with fewer than seven words tells of no port, and neither does one, such as the
/// heading, whose second, third or fourth word is not a number.
pub proof fn lemma_other_lines_tell_of_no_port(ws: Seq<Seq<char>>)
    requires
        forall|i: int| 0 <= i < ws.len() ==> is_word(#[trigger] ws[i]),
        ws.len() < 7 || exists|i: int|
            1 <= i <= 3 && parsed_nat(#[trigger] ws[i], 10, u32::MAX as nat) is None,
    ensures
        port_of_line(with_between(ws, ' ')) is None,
{
    lemma_words_with_blanks(ws);
}

/// The ports of a file are those of its first line and of what follows it, in order; those
/// of several files follow each other, and a file that cannot be read has none.
pub proof fn lemma_ports_follow_each_other(
    first: Seq<char>,
    rest: Seq<char>,
    files: Seq<Option<String>>,
    more: Seq<Option<String>>,
)
    requires
        forall|k: int| 0 <= k < first.len() ==> first[k] != '\n',
        first.len() > 0 ==> first.last() != '\r',
    ensures
        ports_of_lines(text_lines(first + seq!['\n'] + rest)) == (match port_of_line(first) {
            Some(p) => seq![p],
            None => Seq::empty(),
        }) + ports_of_lines(text_lines(rest)),
        ports_of_lines(text_lines(seq![])) == Seq::<PortModel>::empty(),
        ports_of_files(files + more) == ports_of_files(files) + ports_of_files(more),
        forall|text: String|
            #[trigger] ports_of_files(seq![Some(text)]) == ports_of_lines(text_lines(text@)),
        ports_of_files(seq![None]) == Seq::<PortModel>::empty(),
{
    lemma_lines_read_back(first, rest);
    lemma_ports_of_lines_joined(seq![first], text_lines(rest));
    let one = seq![first];
    assert(one.drop_last() =~= Seq::empty());
    assert(ports_of_lines(one.drop_last()) =~= Seq::empty());
    assert(ports_of_lines(one) =~= match port_of_line(first) {
        Some(p) => seq![p],
        None => Seq::empty(),
    });
    lemma_ports_of_files_joined(files, more);
    assert forall|text: String|
        #[trigger] ports_of_files(seq![Some(text)]) == ports_of_lines(text_lines(text@)) by {
        let f = seq![Some(text)];
        assert(f.drop_last() =~= Seq::empty());
        assert(ports_of_files(f.drop_last()) =~= Seq::empty());
        assert(f.last() == Some(text));
        assert(ports_of_files(f) =~= ports_of_lines(text_lines(text@)));
    }
    let f: Seq<Option<String>> = seq![None];
    assert(f.drop_last() =~= Seq::empty());
    assert(ports_of_files(f.drop_last()) =~= Seq::empty());
    assert(ports_of_files(f) =~= Seq::<PortModel>::empty());
}

proof fn lemma_ports_of_lines_joined(a: Seq<Seq<char>>, b: Seq<Seq<char>>)
    ensures
        ports_of_lines(a + b) == ports_of_lines(a) + ports_of_lines(b),
    decreases b.len(),
{
    if b.len() == 0 {
        assert(a + b =~= a);
        assert(ports_of_lines(a) =~= ports_of_lines(a) + ports_of_lines(b));
    } else {
        assert((a + b).drop_last() =~= a + b.drop_last());
        lemma_ports_of_lines_joined(a, b.drop_last());
        assert(ports_of_lines(a + b) =~= ports_of_lines(a) + ports_of_lines(b));
    }
}

proof fn lemma_ports_of_files_joined(a: Seq<Option<String>>, b: Seq<Option<String>>)
    ensures
        ports_of_files(a + b) == ports_of_files(a) + ports_of_files(b),
    decreases b.len(),
{
    if b.len() == 0 {
        assert(a + b =~= a);
        assert(ports_of_files(a) =~= ports_of_files(a) + ports_of_files(b));
    } else {
        assert((a + b).drop_last() =~= a + b.drop_last());
        lemma_ports_of_files_joined(a, b.drop_last());
        assert(ports_of_files(a + b) =~= ports_of_files(a) + ports_of_files(b));
    }
}

/// The files that are read for ports: every file named `status`, or `status.` and
/// something, as often as it is there, and none but these, in the order of their names.
pub proof fn lemma_which_files_list_ports(names: Seq<Seq<char>>)
    ensures
        status_names(names).to_multiset() == names.filter(
            |n: Seq<char>|
                n == "status"@ || n.len() >= 7 && n.take(7) == "status."@,
        ).to_multiset(),
        forall|i: int, j: int|
            0 <= i < j < status_names(names).len() ==> !comes_before(
                #[trigger] status_names(names)[j],
                #[trigger] status_names(names)[i],
            ),
    decreases names.len(),
{
    broadcast use vstd::seq_lib::group_to_multiset_ensures;

    reveal(Seq::filter);
    reveal_strlit("status.");
    let keep = |n: Seq<char>| n == "status"@ || n.len() >= 7 && n.take(7) == "status."@;
    if names.len() == 0 {
        assert(names.filter(keep) =~= status_names(names));
    } else {
        let init = names.drop_last();
        let n = names.last();
        lemma_which_files_list_ports(init);
        if lists_ports(n) {
            lemma_placed_in_order(status_names(init), n);
            assert(names.filter(keep) == init.filter(keep).push(n));
        }
    }
}

proof fn lemma_placed_in_order(names: Seq<Seq<char>>, name: Seq<char>)
    requires
        forall|i: int, j: int|
            0 <= i < j < names.len() ==> !comes_before(#[trigger] names[j], #[trigger] names[i]),
    ensures
        placed(names, name).to_multiset() == names.to_multiset().insert(name),
        forall|i: int, j: int|
            0 <= i < j < placed(names, name).len() ==> !comes_before(
                #[trigger] placed(names, name)[j],
                #[trigger] placed(names, name)[i],
            ),
        forall|i: int|
            0 <= i < placed(names, name).len() ==> (#[trigger] placed(names, name)[i] == name
                || names.contains(placed(names, name)[i])),
    decreases names.len(),
{
    broadcast use vstd::seq_lib::group_to_multiset_ensures;

    let out = placed(names, name);
    if names.len() > 0 && comes_before(name, names.last()) {
        let init = names.drop_last();
        let last = names.last();
        let less = placed(init, name);
        assert forall|i: int, j: int| 0 <= i < j < init.len() implies !comes_before(
            #[trigger] init[j],
            #[trigger] init[i],
        ) by {
            assert(init[i] == names[i] && init[j] == names[j]);
        }
        lemma_placed_in_order(init, name);
        assert(names =~= init.push(last));
        assert(out == less.push(last));
        assert(out.to_multiset() =~= names.to_multiset().insert(name));
        assert forall|i: int, j: int| 0 <= i < j < out.len() implies !comes_before(
            #[trigger] out[j],
            #[trigger] out[i],
        ) by {
            if j < less.len() {
                assert(out[i] == less[i] && out[j] == less[j]);
            } else {
                assert(out[i] == less[i]);
                lemma_order_is_strict(name, last);
                if less[i] != name {
                    let k = choose|k: int| 0 <= k < init.len() && init[k] == less[i];
                    assert(names[k] == less[i] && names[names.len() - 1] == last);
                }
            }
        }
        assert forall|i: int| 0 <= i < out.len() implies (#[trigger] out[i] == name
            || names.contains(out[i])) by {
            if i < less.len() {
                assert(out[i] == less[i]);
                if less[i] != name {
                    let k = choose|k: int| 0 <= k < init.len() && init[k] == less[i];
                    assert(names[k] == out[i]);
                }
            } else {
                assert(names[names.len() - 1] == out[i]);
            }
        }
    } else {
        assert(out == names.push(name));
        assert forall|i: int, j: int| 0 <= i < j < out.len() implies !comes_before(
            #[trigger] out[j],
            #[trigger] out[i],
        ) by {
            if j < names.len() {
                assert(out[i] == names[i] && out[j] == names[j]);
            } else {
                assert(out[i] == names[i]);
                let last = names.last();
                assert(names[names.len() - 1] == last);
                if comes_before(name, names[i]) {
                    if i < names.len() - 1 {
                        lemma_order_is_strict(names[i], last);
                        if names[i] != last {
                            lemma_order_is_transitive(name, names[i], last);
                        }
                    }
                }
            }
        }
        assert forall|i: int| 0 <= i < out.len() implies (#[trigger] out[i] == name
            || names.contains(out[i])) by {
            if i < names.len() {
                assert(names[i] == out[i]);
            }
        }
    }
}

/// The ports that are not free are those with another status than 4, in order. What the
/// numbers are called: 4 is free, 5 is not assigned, 6 is in use, 7 is an error.
pub proof fn lemma_which_ports_are_taken(ps: Seq<PortModel>, status: u32)
    ensures
        taken(ps) == ps.filter(|p: PortModel| p.status != 4).map_values(|p: PortModel| p.port),
        status_text(status) == (if status == 4 {
            "free"@
        } else if status == 5 {
            "not assigned"@
        } else if status == 6 {
            "in use"@
        } else if status == 7 {
            "error"@
        } else {
            "unknown"@
        }),
    decreases ps.len(),
{
    reveal(Seq::filter);
    let keep = |p: PortModel| p.status != 4;
    let give = |p: PortModel| p.port;
    if ps.len() > 0 {
        lemma_which_ports_are_taken(ps.drop_last(), status);
    }
    assert(taken(ps) =~= ps.filter(keep).map_values(give));
}

/// A file that `usbip attach` writes, named `port` and the number of the port, with the
/// host, the service and the bus id in it, is read as that record.
pub proof fn lemma_a_record_reads_back(r: RecordModel, name: Seq<char>, text: String)
    requires
        is_word(r.host) && is_word(r.service_port) && is_word(r.busid),
        name == "port"@ + dec(r.port as nat),
        text@ == with_between(seq![r.host, r.service_port, r.busid], ' '),
    ensures
        record_of(name, Some(text)) == Some(r),
        record_of(name, None) is None,
{
    reveal_strlit("port");
    let ws = seq![r.host, r.service_port, r.busid];
    lemma_words_with_blanks(ws);
    lemma_written_number_reads_back(r.port as nat, 10, 0, u32::MAX as nat);
    assert(name.take(4) =~= "port"@);
    assert(name.skip(4) =~= dec(r.port as nat));
}

/// Every record of the directory is there as often as it was written, and nothing else.
pub proof fn lemma_every_record_is_kept(files: Seq<(String, Option<String>)>)
    ensures
        records_of(files).to_multiset() == files.filter(
            |f: (String, Option<String>)| record_of(f.0@, f.1) is Some,
        ).map_values(|f: (String, Option<String>)| record_of(f.0@, f.1)->Some_0).to_multiset(),
    decreases files.len(),
{
    broadcast use vstd::seq_lib::group_to_multiset_ensures;

    reveal(Seq::filter);
    let keep = |f: (String, Option<String>)| record_of(f.0@, f.1) is Some;
    let give = |f: (String, Option<String>)| record_of(f.0@, f.1)->Some_0;
    let want = files.filter(keep).map_values(give);
    if files.len() == 0 {
        assert(want =~= records_of(files));
    } else {
        let init = files.drop_last();
        let last = files.last();
        lemma_every_record_is_kept(init);
        if keep(last) {
            lemma_filed_is_added(records_of(init), give(last));
            assert(want =~= init.filter(keep).map_values(give).push(give(last)));
        }
    }
}

proof fn lemma_filed_is_added(rs: Seq<RecordModel>, r: RecordModel)
    ensures
        filed(rs, r).to_multiset() == rs.to_multiset().insert(r),
    decreases rs.len(),
{
    broadcast use vstd::seq_lib::group_to_multiset_ensures;

    if rs.len() > 0 && rs.last().port > r.port {
        lemma_filed_is_added(rs.drop_last(), r);
        assert(rs =~= rs.drop_last().push(rs.last()));
        assert(filed(rs, r).to_multiset() =~= rs.to_multiset().insert(r));
    }
}

/// The port that appeared is the first of the later snapshot that the earlier one lacks.
pub proof fn lemma_the_first_new_port(before: Seq<u32>, after: Seq<u32>, i: int)
    requires
        0 <= i < after.len(),
        !before.contains(after[i]),
        forall|k: int| 0 <= k < i ==> before.contains(#[trigger] after[k]),
    ensures
        first_new(before, after) == Some(after[i]),
    decreases after.len(),
{
    if i > 0 {
        assert(before.contains(after[0]));
        let rest = after.drop_first();
        assert(rest[i - 1] == after[i]);
        assert forall|k: int| 0 <= k < i - 1 implies before.contains(#[trigger] rest[k]) by {
            assert(rest[k] == after[k + 1]);
        }
        lemma_the_first_new_port(before, rest, i - 1);
    }
}

/// A command is shown with a blank behind the tool and between its arguments.
pub proof fn lemma_commands_are_shown_as_typed(usbip: Seq<char>, args: Seq<Seq<char>>)
    ensures
        typed(usbip, args) == usbip + seq![' '] + with_between(args, ' '),
    decreases args.len(),
{
    reveal_strlit(" ");
    assert(" "@ =~= seq![' ']);
    if args.len() == 0 {
        assert(typed(usbip, args) =~= usbip + seq![' '] + with_between(args, ' '));
    } else if args.len() > 1 {
        lemma_commands_are_shown_as_typed(usbip, args.drop_last());
        lemma_one_more_between(args, ' ');
        assert(typed(usbip, args) =~= usbip + seq![' '] + with_between(args, ' '));
    }
}

} // verus!
