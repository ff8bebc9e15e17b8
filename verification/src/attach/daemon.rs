//! Keeps the configured controller attached to this host.
//!
//! This is the piece that makes the whole thing usable rather than a party
//! trick. USB/IP does not recover from a network stall: it drops the device.
//! Over a tailnet, with a handheld that sleeps and wakes and roams between
//! networks, that happens routinely. So the daemon watches `vhci-hcd`, notices
//! when the device goes away, and reconnects, treating "the exporter is off"
//! as the normal state rather than an error, because most of the time the Deck
//! is in a bag.
//!
//! Times that pass are in nanoseconds since some fixed moment; times that are
//! configured are in seconds.
use crate::attach::config::{servers_view, Config, ConfigModel, Server, ServerModel};
use crate::attach::vhci::{
    among, first_new, lemma_the_difference_is_new, newly_used, ports_view, records_view, Port,
    PortModel, Record, RecordModel, VDEV_ST_ERROR, VDEV_ST_NULL,
};
use crate::backend::filter::{allowed, DeviceFilter, Pattern, VALVE_VID};
use crate::common::mdns::{v4_text, Discovered};
use crate::proto::device::{DeviceRecord, UsbDevice};
use crate::text::{chars, dec, lowered, push_dec, same, same_chars, to_lower};
use vstd::arithmetic::power2::{lemma2_to64, lemma_pow2_pos, lemma_pow2_unfold, pow2};
use vstd::prelude::*;
use vstd::string::*;

verus! {

broadcast use {vstd::slice::group_slice_axioms, vstd::array::group_array_axioms};

/// How long, in nanoseconds, to wait for a freshly attached port to show up.
///
/// Enumeration is a dozen control transfers, so it costs a dozen round trips:
/// a few hundred milliseconds on loopback, but well over a second across a
/// tailnet to another city. Three seconds was measured against 127.0.0.1 and
/// is not generous anywhere else.
pub const PORT_SETTLE_TIMEOUT: u64 = 10_000_000_000;

pub const NANOS_PER_SEC: u128 = 1_000_000_000;

/// One attachment this daemon is responsible for.
#[derive(Debug, Clone, PartialEq, Eq)]
pub struct Attachment {
    pub server: String,
    pub host: String,
    pub busid: String,
    pub port: u32,
}

/// An attachment as contracts speak of it.
pub struct AttachmentModel {
    pub server: Seq<char>,
    pub host: Seq<char>,
    pub busid: Seq<char>,
    pub port: u32,
}

impl View for Attachment {
    type V = AttachmentModel;

    open spec fn view(&self) -> AttachmentModel {
        AttachmentModel {
            server: self.server@,
            host: self.host@,
            busid: self.busid@,
            port: self.port,
        }
    }
}

pub open spec fn attachments_view(v: Seq<Attachment>) -> Seq<AttachmentModel> {
    v.map_values(|a: Attachment| a@)
}

// ---------------------------------------------------------------------------
// Backoff

/// What is remembered of a server that would not answer.
#[derive(Debug, Clone, Copy, PartialEq, Eq, Structural)]
pub struct Backoff {
    /// When to try again, in nanoseconds.
    pub next_try: u128,
    /// How long to wait after the next failure, in seconds.
    pub delay: u64,
    /// Whether a failure has already been reported at `info`.
    pub reported: bool,
}

/// The servers that would not answer, by name.
#[derive(Debug, Clone)]
pub struct Backoffs {
    entries: Vec<(String, Backoff)>,
}

/// What a list of named entries says, name by name.
pub open spec fn by_name(es: Seq<(String, Backoff)>) -> Map<Seq<char>, Backoff>
    decreases es.len(),
{
    if es.len() == 0 {
        Map::empty()
    } else {
        by_name(es.drop_last()).insert(es.last().0@, es.last().1)
    }
}

impl View for Backoffs {
    type V = Map<Seq<char>, Backoff>;

    closed spec fn view(&self) -> Map<Seq<char>, Backoff> {
        by_name(self.entries@)
    }
}

proof fn lemma_by_name(es: Seq<(String, Backoff)>, name: Seq<char>)
    requires
        forall|i: int, j: int|
            0 <= i < j < es.len() ==> (#[trigger] es[i]).0@ != (#[trigger] es[j]).0@,
    ensures
        by_name(es).dom().contains(name) <==> exists|i: int|
            0 <= i < es.len() && (#[trigger] es[i]).0@ == name,
        forall|i: int|
            0 <= i < es.len() && (#[trigger] es[i]).0@ == name ==> by_name(es)[name] == es[i].1,
    decreases es.len(),
{
    if es.len() > 0 {
        let rest = es.drop_last();
        assert forall|i: int, j: int| 0 <= i < j < rest.len() implies (#[trigger] rest[i]).0@ != (
        #[trigger] rest[j]).0@ by {
            assert(rest[i] == es[i] && rest[j] == es[j]);
        }
        lemma_by_name(rest, name);
        let last = es.len() - 1;
        assert(es[last] == es.last());
        if by_name(es).dom().contains(name) && es.last().0@ != name {
            let i = choose|i: int| 0 <= i < rest.len() && (#[trigger] rest[i]).0@ == name;
            assert(es[i].0@ == name);
        }
        if exists|i: int| 0 <= i < es.len() && (#[trigger] es[i]).0@ == name {
            let i = choose|i: int| 0 <= i < es.len() && (#[trigger] es[i]).0@ == name;
            if i < last {
                assert(rest[i].0@ == name);
            }
        }
        assert forall|i: int| 0 <= i < es.len() && (#[trigger] es[i]).0@ == name implies by_name(
            es,
        )[name] == es[i].1 by {
            if i < last {
                assert(rest[i] == es[i]);
                assert(es[i].0@ != es[last].0@);
            }
        }
    }
}

impl Backoffs {
    /// What every operation keeps: no server is in it twice.
    pub closed spec fn wf(&self) -> bool {
        forall|i: int, j: int|
            0 <= i < j < self.entries@.len() ==> (#[trigger] self.entries@[i]).0@ != (
            #[trigger] self.entries@[j]).0@
    }

    pub fn new() -> (b: Backoffs)
        ensures
            b.wf(),
            b@ == Map::<Seq<char>, Backoff>::empty(),
    {
        Backoffs { entries: Vec::new() }
    }

    fn place(&self, name: &str) -> (at: usize)
        requires
            self.wf(),
        ensures
            at <= self.entries@.len(),
            at < self.entries@.len() ==> self.entries@[at as int].0@ == name@,
            (at < self.entries@.len()) == self@.dom().contains(name@),
    {
        proof {
            lemma_by_name(self.entries@, name@);
        }
        let mut i: usize = 0;
        while i < self.entries.len()
            invariant
                i <= self.entries@.len(),
                self@.dom().contains(name@) <==> exists|k: int|
                    0 <= k < self.entries@.len() && (#[trigger] self.entries@[k]).0@ == name@,
                forall|k: int| 0 <= k < i ==> (#[trigger] self.entries@[k]).0@ != name@,
            decreases self.entries@.len() - i,
        {
            if same(self.entries[i].0.as_str(), name) {
                return i;
            }
            i = i + 1;
        }
        i
    }

    pub fn get(&self, name: &str) -> (r: Option<Backoff>)
        requires
            self.wf(),
        ensures
            match r {
                Some(b) => self@.dom().contains(name@) && self@[name@] == b,
                None => !self@.dom().contains(name@),
            },
    {
        let at: usize = self.place(name);
        if at < self.entries.len() {
            proof {
                lemma_by_name(self.entries@, name@);
            }
            Some(self.entries[at].1)
        } else {
            None
        }
    }

    /// Removes a server; what was remembered of it, if anything was.
    pub fn remove(&mut self, name: &str) -> (r: Option<Backoff>)
        requires
            old(self).wf(),
        ensures
            final(self).wf(),
            final(self)@ == old(self)@.remove(name@),
            match r {
                Some(b) => old(self)@.dom().contains(name@) && old(self)@[name@] == b,
                None => !old(self)@.dom().contains(name@),
            },
    {
        let at: usize = self.place(name);
        let ghost had = self.entries@;
        if at >= self.entries.len() {
            assert(self@ =~= self@.remove(name@));
            return None;
        }
        proof {
            lemma_by_name(had, name@);
        }
        let e = self.entries.remove(at);
        proof {
            let now = self.entries@;
            assert forall|i: int| 0 <= i < now.len() implies #[trigger] now[i] == (if i < at {
                had[i]
            } else {
                had[i + 1]
            }) by {}
            assert(self.wf());
            assert forall|n: Seq<char>| #[trigger] by_name(now).dom().contains(n) <==> by_name(
                had,
            ).remove(name@).dom().contains(n) by {
                lemma_by_name(now, n);
                lemma_by_name(had, n);
                if by_name(now).dom().contains(n) {
                    let i = choose|i: int| 0 <= i < now.len() && (#[trigger] now[i]).0@ == n;
                    let k: int = if i < at {
                        i
                    } else {
                        i + 1
                    };
                    assert(had[k].0@ == n);
                }
                if by_name(had).dom().contains(n) && n != name@ {
                    let k = choose|k: int| 0 <= k < had.len() && (#[trigger] had[k]).0@ == n;
                    let i: int = if k < at {
                        k
                    } else {
                        k - 1
                    };
                    assert(now[i].0@ == n);
                }
            }
            assert forall|n: Seq<char>| #[trigger] by_name(now).dom().contains(n) implies by_name(
                now,
            )[n] == by_name(had).remove(name@)[n] by {
                lemma_by_name(now, n);
                lemma_by_name(had, n);
                let i = choose|i: int| 0 <= i < now.len() && (#[trigger] now[i]).0@ == n;
                let k: int = if i < at {
                    i
                } else {
                    i + 1
                };
                assert(had[k].0@ == n);
            }
            assert(by_name(now) =~= by_name(had).remove(name@));
        }
        Some(e.1)
    }

    /// Remembers something of a server, in place of what was remembered.
    pub fn insert(&mut self, name: &str, b: Backoff)
        requires
            old(self).wf(),
        ensures
            final(self).wf(),
            final(self)@ == old(self)@.insert(name@, b),
    {
        let ghost before = self@;
        self.remove(name);
        let ghost had = self.entries@;
        proof {
            lemma_by_name(had, name@);
        }
        self.entries.push((name.to_owned(), b));
        proof {
            assert(self.entries@.drop_last() =~= had);
            assert(before.remove(name@).insert(name@, b) =~= before.insert(name@, b));
            assert forall|i: int, j: int| 0 <= i < j < self.entries@.len() implies (
            #[trigger] self.entries@[i]).0@ != (#[trigger] self.entries@[j]).0@ by {
                assert(had[i] == self.entries@[i]);
                if j < had.len() {
                    assert(had[j] == self.entries@[j]);
                }
            }
        }
    }
}

/// What one more failure makes of what was remembered: the next try is a delay
/// away, and the delay doubles up to the ceiling.
pub open spec fn failed_again(had: Option<Backoff>, min: u64, max: u64, now: u64) -> Backoff {
    let delay = match had {
        Some(b) => b.delay,
        None => min,
    };
    Backoff {
        next_try: (now + delay * NANOS_PER_SEC) as u128,
        delay: if delay * 2 <= max {
            (delay * 2) as u64
        } else {
            max
        },
        reported: true,
    }
}

// ---------------------------------------------------------------------------
// The daemon

pub struct Daemon {
    pub cfg: Config,
    pub attached: Vec<Attachment>,
    pub backoff: Backoffs,
}

/// The daemon as contracts speak of it.
pub struct DaemonModel {
    pub cfg: ConfigModel,
    pub attached: Seq<AttachmentModel>,
    pub backoff: Map<Seq<char>, Backoff>,
}

impl View for Daemon {
    type V = DaemonModel;

    open spec fn view(&self) -> DaemonModel {
        DaemonModel {
            cfg: self.cfg@,
            attached: attachments_view(self.attached@),
            backoff: self.backoff@,
        }
    }
}

/// Whether two names are the same but for ASCII case.
pub open spec fn same_host(a: Seq<char>, b: Seq<char>) -> bool {
    lowered(a) == lowered(b)
}

fn hosts_match(a: &str, b: &str) -> (r: bool)
    ensures
        r == same_host(a@, b@),
{
    let x = chars(a);
    let y = chars(b);
    same_chars(to_lower(x.as_slice()).as_slice(), to_lower(y.as_slice()).as_slice())
}

/// The name of the first server at a host, or the host itself.
pub open spec fn server_at(servers: Seq<ServerModel>, host: Seq<char>) -> Seq<char>
    decreases servers.len(),
{
    if servers.len() == 0 {
        host
    } else if same_host(servers[0].host, host) {
        servers[0].name
    } else {
        server_at(servers.drop_first(), host)
    }
}

/// The attachments that records explain, of the ports in use.
pub open spec fn explained(
    servers: Seq<ServerModel>,
    used: Seq<u32>,
    rs: Seq<RecordModel>,
) -> Seq<AttachmentModel>
    decreases rs.len(),
{
    if rs.len() == 0 {
        seq![]
    } else {
        let rest = explained(servers, used, rs.drop_last());
        let r = rs.last();
        if used.contains(r.port) {
            rest.push(
                AttachmentModel {
                    server: server_at(servers, r.host),
                    host: r.host,
                    busid: r.busid,
                    port: r.port,
                },
            )
        } else {
            rest
        }
    }
}

/// What a port without a record is taken for.
pub open spec fn unexplained(port: u32) -> AttachmentModel {
    AttachmentModel {
        server: "unknown"@,
        host: "unknown"@,
        busid: "vhci:"@ + dec(port as nat),
        port,
    }
}

/// Whether a port is among those of attachments.
pub open spec fn on_port(attached: Seq<AttachmentModel>, port: u32) -> bool {
    exists|i: int| 0 <= i < attached.len() && (#[trigger] attached[i]).port == port
}

/// The ports in use that no attachment explains, as attachments.
pub open spec fn others(known: Seq<AttachmentModel>, used: Seq<u32>) -> Seq<AttachmentModel>
    decreases used.len(),
{
    if used.len() == 0 {
        seq![]
    } else if on_port(known, used.last()) {
        others(known, used.drop_last())
    } else {
        others(known, used.drop_last()).push(unexplained(used.last()))
    }
}

/// The state of the first port with that number.
pub open spec fn port_status(ports: Seq<PortModel>, port: u32) -> Option<u32>
    decreases ports.len(),
{
    if ports.len() == 0 {
        None
    } else if ports[0].port == port {
        Some(ports[0].status)
    } else {
        port_status(ports.drop_first(), port)
    }
}

/// What has become of an attachment.
#[derive(Debug, Clone, Copy, PartialEq, Eq, Structural)]
pub enum Fate {
    Attached,
    /// The port is free again, or gone.
    Dropped,
    /// The port is stuck in an error state. It never frees itself, and the next
    /// attach would take a different one and leak this.
    Broken,
}

pub open spec fn fate(ports: Seq<PortModel>, port: u32) -> Fate {
    match port_status(ports, port) {
        Some(s) => if s == VDEV_ST_ERROR {
            Fate::Broken
        } else if s != VDEV_ST_NULL {
            Fate::Attached
        } else {
            Fate::Dropped
        },
        None => Fate::Dropped,
    }
}

/// The attachments that are still there.
pub open spec fn alive(attached: Seq<AttachmentModel>, ports: Seq<PortModel>) -> Seq<
    AttachmentModel,
>
    decreases attached.len(),
{
    if attached.len() == 0 {
        seq![]
    } else if fate(ports, attached.last().port) is Attached {
        alive(attached.drop_last(), ports).push(attached.last())
    } else {
        alive(attached.drop_last(), ports)
    }
}

/// The attachments that are gone, with what became of them.
pub open spec fn gone(attached: Seq<AttachmentModel>, ports: Seq<PortModel>) -> Seq<
    (AttachmentModel, Fate),
>
    decreases attached.len(),
{
    if attached.len() == 0 {
        seq![]
    } else if fate(ports, attached.last().port) is Attached {
        gone(attached.drop_last(), ports)
    } else {
        gone(attached.drop_last(), ports).push(
            (attached.last(), fate(ports, attached.last().port)),
        )
    }
}

pub open spec fn gone_view(v: Seq<(Attachment, Fate)>) -> Seq<(AttachmentModel, Fate)> {
    v.map_values(|g: (Attachment, Fate)| (g.0@, g.1))
}

fn fate_of(ports: &Vec<Port>, port: u32) -> (f: Fate)
    ensures
        f == fate(ports_view(ports@), port),
{
    let ghost all = ports_view(ports@);
    let mut i: usize = 0;
    assert(all.skip(0) =~= all);
    while i < ports.len()
        invariant
            i <= ports@.len(),
            all == ports_view(ports@),
            port_status(all, port) == port_status(all.skip(i as int), port),
        decreases ports@.len() - i,
    {
        let p = &ports[i];
        assert(all.skip(i as int)[0] == p@);
        if p.port == port {
            if p.failed() {
                return Fate::Broken;
            }
            return if p.occupied() {
                Fate::Attached
            } else {
                Fate::Dropped
            };
        }
        assert(all.skip(i as int).drop_first() =~= all.skip(i + 1));
        i = i + 1;
    }
    Fate::Dropped
}

/// The text that names an exporter found on the LAN to `usbip`.
pub open spec fn endpoint_text(d: Discovered) -> Seq<char> {
    if d.addrs@.len() > 0 {
        v4_text(d.addrs@[0]@)
    } else {
        d.host@
    }
}

/// The server that an exporter found on the LAN is.
pub open spec fn found_server(d: Discovered) -> ServerModel {
    ServerModel {
        name: "mdns:"@ + d.instance@,
        host: endpoint_text(d),
        port: d.port,
        devices: seq![Pattern { vendor: Some(VALVE_VID), product: None }],
        auto_attach: true,
    }
}

/// Whether a server is at a host.
pub open spec fn at_host(servers: Seq<ServerModel>, host: Seq<char>) -> bool {
    exists|i: int| 0 <= i < servers.len() && same_host((#[trigger] servers[i]).host, host)
}

/// The servers, with those found on the LAN that are not among them behind.
pub open spec fn with_found(servers: Seq<ServerModel>, found: Seq<Discovered>) -> Seq<ServerModel>
    decreases found.len(),
{
    if found.len() == 0 {
        servers
    } else {
        let rest = with_found(servers, found.drop_last());
        if at_host(rest, endpoint_text(found.last())) {
            rest
        } else {
            rest.push(found_server(found.last()))
        }
    }
}

impl DaemonModel {
    /// Whether there is nothing left to do this tick.
    pub open spec fn is_satisfied(self) -> bool {
        self.cfg.attach.stop_after_first && self.attached.len() > 0
    }

    /// Whether a server is not to be asked yet.
    pub open spec fn waits_for(self, name: Seq<char>, now: u64) -> bool {
        self.backoff.dom().contains(name) && now < self.backoff[name].next_try
    }

    /// Whether a device of a server is attached.
    pub open spec fn tracks(self, server: Seq<char>, busid: Seq<char>) -> bool {
        exists|i: int|
            0 <= i < self.attached.len() && (#[trigger] self.attached[i]).server == server
                && self.attached[i].busid == busid
    }

    /// Whether a device is one to attach.
    pub open spec fn wants(self, server: ServerModel, d: DeviceRecord) -> bool {
        allowed(server.devices, d.id_vendor, d.id_product) && !self.tracks(server.name, d.busid)
    }

    /// The first device to attach, of those that a server has.
    pub open spec fn choice(self, server: ServerModel, devices: Seq<UsbDevice>) -> Option<int>
        decreases devices.len(),
    {
        if devices.len() == 0 {
            None
        } else if self.wants(server, devices[0]@) {
            Some(0)
        } else {
            match self.choice(server, devices.drop_first()) {
                Some(i) => Some(i + 1),
                None => None,
            }
        }
    }

    pub open spec fn remembered(self, name: Seq<char>) -> Option<Backoff> {
        if self.backoff.dom().contains(name) {
            Some(self.backoff[name])
        } else {
            None
        }
    }

    /// A server would not answer.
    pub open spec fn failed(self, name: Seq<char>, now: u64) -> DaemonModel {
        DaemonModel {
            backoff: self.backoff.insert(
                name,
                failed_again(
                    self.remembered(name),
                    self.cfg.attach.retry_min,
                    self.cfg.attach.retry_max,
                    now,
                ),
            ),
            ..self
        }
    }

    /// A server answered.
    pub open spec fn answered(self, name: Seq<char>) -> DaemonModel {
        DaemonModel { backoff: self.backoff.remove(name), ..self }
    }

    /// A device is attached.
    pub open spec fn with_attached(self, server: ServerModel, busid: Seq<char>, port: u32) -> DaemonModel {
        DaemonModel {
            attached: self.attached.push(
                AttachmentModel { server: server.name, host: server.host, busid, port },
            ),
            ..self
        }
    }
}

fn copied_filter(f: &DeviceFilter) -> (r: DeviceFilter)
    ensures
        r@ == f@,
{
    let ps = f.patterns();
    let mut v: Vec<Pattern> = Vec::new();
    let mut i: usize = 0;
    while i < ps.len()
        invariant
            i <= ps@.len(),
            v@ == ps@.take(i as int),
        decreases ps@.len() - i,
    {
        v.push(ps[i]);
        i = i + 1;
        assert(v@ =~= ps@.take(i as int));
    }
    assert(v@ =~= ps@);
    DeviceFilter::new(v)
}

fn copied_server(s: &Server) -> (r: Server)
    ensures
        r@ == s@,
{
    Server {
        name: s.name.clone(),
        host: s.host.clone(),
        port: s.port,
        devices: copied_filter(&s.devices),
        auto_attach: s.auto_attach,
    }
}

impl Daemon {
    pub open spec fn wf(&self) -> bool {
        self.backoff.wf()
    }

    pub fn new(cfg: Config) -> (d: Daemon)
        ensures
            d.wf(),
            d.cfg == cfg,
            d@ == (DaemonModel { cfg: cfg@, attached: Seq::empty(), backoff: Map::empty() }),
    {
        let d = Daemon { cfg, attached: Vec::new(), backoff: Backoffs::new() };
        assert(d@.attached =~= Seq::empty());
        d
    }

    fn server_named(&self, host: &str) -> (s: String)
        ensures
            s@ == server_at(self@.cfg.servers, host@),
    {
        let ghost all = self@.cfg.servers;
        let mut i: usize = 0;
        assert(all.skip(0) =~= all);
        while i < self.cfg.servers.len()
            invariant
                i <= self.cfg.servers@.len(),
                all == servers_view(self.cfg.servers@),
                server_at(all, host@) == server_at(all.skip(i as int), host@),
            decreases self.cfg.servers@.len() - i,
        {
            assert(all.skip(i as int)[0] == self.cfg.servers@[i as int]@);
            if hosts_match(self.cfg.servers[i].host.as_str(), host) {
                return self.cfg.servers[i].name.clone();
            }
            assert(all.skip(i as int).drop_first() =~= all.skip(i + 1));
            i = i + 1;
        }
        host.to_owned()
    }

    /// Pick up attachments that survived a restart of this daemon, so a
    /// `systemctl restart` does not attach a second copy of the controller: those
    /// that a record explains first, then the other ports in use. `usbip attach`
    /// writes its records to a root-only directory and some builds do not write
    /// them at all, so a port without a record is the common case rather than the
    /// odd one. It is adopted anyway: an unidentified attachment is still a reason
    /// not to attach a second controller on top of it.
    ///
    /// The result says how many were explained.
    pub fn adopt_existing(&mut self, used: &Vec<u32>, records: &Vec<Record>) -> (n: usize)
        requires
            old(self).wf(),
        ensures
            final(self).wf(),
            final(self).cfg == old(self).cfg,
            final(self)@.backoff == old(self)@.backoff,
            ({
                let known = explained(old(self)@.cfg.servers, used@, records_view(records@));
                final(self)@.attached == old(self)@.attached + known + others(known, used@) && n
                    == known.len()
            }),
    {
        let ghost servers = self@.cfg.servers;
        let ghost rs = records_view(records@);
        let mut known: Vec<Attachment> = Vec::new();
        let mut i: usize = 0;
        assert(rs.take(0) =~= Seq::empty());
        assert(attachments_view(known@) =~= Seq::empty());
        while i < records.len()
            invariant
                i <= records@.len(),
                rs == records_view(records@),
                servers == self@.cfg.servers,
                *self == *old(self),
                attachments_view(known@) == explained(servers, used@, rs.take(i as int)),
            decreases records@.len() - i,
        {
            let r = &records[i];
            proof {
                assert(rs.take(i + 1).drop_last() =~= rs.take(i as int));
                assert(rs.take(i + 1).last() == r@);
            }
            if among(used.as_slice(), r.port) {
                let ghost had = attachments_view(known@);
                let a = Attachment {
                    server: self.server_named(r.host.as_str()),
                    host: r.host.clone(),
                    busid: r.busid.clone(),
                    port: r.port,
                };
                known.push(a);
                assert(attachments_view(known@) =~= had.push(a@));
            }
            i = i + 1;
        }
        assert(rs.take(i as int) =~= rs);
        let ghost model = attachments_view(known@);
        let n: usize = known.len();
        let mut rest: Vec<Attachment> = Vec::new();
        let mut j: usize = 0;
        assert(used@.take(0) =~= Seq::empty());
        assert(attachments_view(rest@) =~= Seq::empty());
        while j < used.len()
            invariant
                j <= used@.len(),
                *self == *old(self),
                model == attachments_view(known@),
                attachments_view(rest@) == others(model, used@.take(j as int)),
            decreases used@.len() - j,
        {
            let port: u32 = used[j];
            proof {
                assert(used@.take(j + 1).drop_last() =~= used@.take(j as int));
                assert(used@.take(j + 1).last() == port);
            }
            if !attached_on(&known, port) {
                let ghost had = attachments_view(rest@);
                let mut busid = String::new();
                busid.append("vhci:");
                push_dec(&mut busid, port as u64);
                assert(busid@ =~= "vhci:"@ + dec(port as nat));
                let a = Attachment {
                    server: "unknown".to_owned(),
                    host: "unknown".to_owned(),
                    busid,
                    port,
                };
                rest.push(a);
                assert(attachments_view(rest@) =~= had.push(a@));
            }
            j = j + 1;
        }
        assert(used@.take(j as int) =~= used@);
        let ghost a0 = self.attached@;
        let ghost k0 = known@;
        let ghost r0 = rest@;
        self.attached.append(&mut known);
        self.attached.append(&mut rest);
        assert(attachments_view(self.attached@) =~= attachments_view(a0) + attachments_view(k0)
            + attachments_view(r0));
        n
    }

    /// True when there is nothing left to do this tick.
    pub fn satisfied(&self) -> (r: bool)
        ensures
            r == self@.is_satisfied(),
    {
        assert(self@.attached.len() == self.attached@.len());
        self.cfg.attach.stop_after_first && self.attached.len() > 0
    }

    /// Configured servers first; those found on the LAN appended only if discovery
    /// is enabled.
    pub fn endpoints(&self, found: &Vec<Discovered>) -> (r: Vec<Server>)
        ensures
            servers_view(r@) == (if self.cfg.discovery.mdns {
                with_found(self@.cfg.servers, found@)
            } else {
                self@.cfg.servers
            }),
    {
        let ghost all = self@.cfg.servers;
        let mut v: Vec<Server> = Vec::new();
        let mut i: usize = 0;
        assert(servers_view(v@) =~= all.take(0));
        while i < self.cfg.servers.len()
            invariant
                i <= self.cfg.servers@.len(),
                all == servers_view(self.cfg.servers@),
                servers_view(v@) == all.take(i as int),
            decreases self.cfg.servers@.len() - i,
        {
            let ghost had = servers_view(v@);
            let s = copied_server(&self.cfg.servers[i]);
            v.push(s);
            assert(servers_view(v@) =~= had.push(s@));
            assert(all[i as int] == s@);
            assert(all.take(i as int).push(s@) =~= all.take(i + 1));
            i = i + 1;
        }
        assert(all.take(i as int) =~= all);
        if !self.cfg.discovery.mdns {
            return v;
        }
        let mut j: usize = 0;
        assert(found@.take(0) =~= Seq::empty());
        while j < found.len()
            invariant
                j <= found@.len(),
                servers_view(v@) == with_found(all, found@.take(j as int)),
            decreases found@.len() - j,
        {
            let d = &found[j];
            proof {
                assert(found@.take(j + 1).drop_last() =~= found@.take(j as int));
                assert(found@.take(j + 1).last() == d);
            }
            let host = d.endpoint();
            if !known_host(&v, host.as_str()) {
                let ghost had = servers_view(v@);
                let mut name = String::new();
                name.append("mdns:");
                name.append(d.instance.as_str());
                assert(name@ =~= "mdns:"@ + d.instance@);
                let s = Server {
                    name,
                    host,
                    port: d.port,
                    devices: DeviceFilter::default(),
                    auto_attach: true,
                };
                v.push(s);
                assert(servers_view(v@) =~= had.push(s@));
            }
            j = j + 1;
        }
        assert(found@.take(j as int) =~= found@);
        v
    }

    /// Forget attachments whose vhci port is no longer in use: the usual sign
    /// that the exporter went away or the network dropped. The result says which
    /// they were; the ports of the broken ones have to be detached.
    pub fn prune(&mut self, ports: &Vec<Port>) -> (r: Vec<(Attachment, Fate)>)
        requires
            old(self).wf(),
        ensures
            final(self).wf(),
            final(self).cfg == old(self).cfg,
            final(self)@.backoff == old(self)@.backoff,
            final(self)@.attached == alive(old(self)@.attached, ports_view(ports@)),
            gone_view(r@) == gone(old(self)@.attached, ports_view(ports@)),
    {
        let ghost all = self@.attached;
        let ghost ps = ports_view(ports@);
        let mut kept: Vec<Attachment> = Vec::new();
        let mut lost: Vec<(Attachment, Fate)> = Vec::new();
        let n: usize = self.attached.len();
        let mut done: usize = 0;
        assert(attachments_view(kept@) =~= alive(all.take(0), ps));
        assert(gone_view(lost@) =~= gone(all.take(0), ps));
        assert(all.skip(0) =~= all);
        while done < n
            invariant
                done <= n,
                n == all.len(),
                ps == ports_view(ports@),
                self.wf(),
                self.cfg == old(self).cfg,
                self.backoff == old(self).backoff,
                attachments_view(self.attached@) == all.skip(done as int),
                attachments_view(kept@) == alive(all.take(done as int), ps),
                gone_view(lost@) == gone(all.take(done as int), ps),
            decreases n - done,
        {
            let ghost before = self.attached@;
            assert(attachments_view(before).len() == n - done);
            assert(attachments_view(before)[0] == all[done as int]);
            let a = self.attached.remove(0);
            proof {
                assert(a@ == attachments_view(before)[0]);
                assert forall|k: int| 0 <= k < self.attached@.len() implies attachments_view(
                    self.attached@,
                )[k] == all.skip(done + 1)[k] by {
                    assert(self.attached@[k] == before[k + 1]);
                    assert(attachments_view(before)[k + 1] == all.skip(done as int)[k + 1]);
                }
                assert(attachments_view(self.attached@) =~= all.skip(done + 1));
                assert(all.take(done + 1).drop_last() =~= all.take(done as int));
                assert(all.take(done + 1).last() == a@);
            }
            match fate_of(ports, a.port) {
                Fate::Attached => {
                    let ghost had = attachments_view(kept@);
                    kept.push(a);
                    assert(attachments_view(kept@) =~= had.push(a@));
                },
                f => {
                    let ghost had = gone_view(lost@);
                    lost.push((a, f));
                    assert(gone_view(lost@) =~= had.push((a@, f)));
                },
            }
            done = done + 1;
        }
        assert(all.take(n as int) =~= all);
        self.attached = kept;
        lost
    }

    /// Whether a server that would not answer is to be left alone for now.
    pub fn waiting(&self, server: &Server, now: u64) -> (r: bool)
        requires
            self.wf(),
        ensures
            r == self@.waits_for(server@.name, now),
    {
        match self.backoff.get(server.name.as_str()) {
            Some(b) => (now as u128) < b.next_try,
            None => false,
        }
    }

    /// Remembers that a server would not answer. The result says whether to report
    /// it: the exporter being switched off is the normal state, not a fault, so it is
    /// said once at a level that people see and then no more.
    pub fn record_failure(&mut self, server: &Server, now: u64) -> (report: bool)
        requires
            old(self).wf(),
        ensures
            final(self).wf(),
            final(self).cfg == old(self).cfg,
            final(self)@ == old(self)@.failed(server@.name, now),
            report == match old(self)@.remembered(server@.name) {
                Some(b) => !b.reported,
                None => true,
            },
    {
        let max: u64 = self.cfg.attach.retry_max;
        let (delay, reported) = match self.backoff.get(server.name.as_str()) {
            Some(b) => (b.delay, b.reported),
            None => (self.cfg.attach.retry_min, false),
        };
        assert(delay as int * NANOS_PER_SEC as int <= 0xffff_ffff_ffff_ffff * 1_000_000_000)
            by (nonlinear_arith)
            requires
                0 <= delay <= 0xffff_ffff_ffff_ffff,
                NANOS_PER_SEC == 1_000_000_000,
        ;
        let next_try: u128 = now as u128 + delay as u128 * NANOS_PER_SEC;
        let doubled: u128 = delay as u128 * 2;
        let longer: u64 = if doubled <= max as u128 {
            doubled as u64
        } else {
            max
        };
        self.backoff.insert(
            server.name.as_str(),
            Backoff { next_try, delay: longer, reported: true },
        );
        assert(attachments_view(self.attached@) =~= old(self)@.attached);
        !reported
    }

    /// Forgets the failures of a server. The result says whether one was reported.
    pub fn clear_failure(&mut self, server: &Server) -> (reported: bool)
        requires
            old(self).wf(),
        ensures
            final(self).wf(),
            final(self).cfg == old(self).cfg,
            final(self)@ == old(self)@.answered(server@.name),
            reported == match old(self)@.remembered(server@.name) {
                Some(b) => b.reported,
                None => false,
            },
    {
        match self.backoff.remove(server.name.as_str()) {
            Some(b) => b.reported,
            None => false,
        }
    }

    fn has_attached(&self, server: &str, busid: &str) -> (r: bool)
        ensures
            r == self@.tracks(server@, busid@),
    {
        let ghost all = self@.attached;
        let mut i: usize = 0;
        while i < self.attached.len()
            invariant
                i <= self.attached@.len(),
                all == attachments_view(self.attached@),
                all == self@.attached,
                forall|k: int|
                    0 <= k < i ==> !((#[trigger] all[k]).server == server@ && all[k].busid
                        == busid@),
            decreases self.attached@.len() - i,
        {
            assert(all[i as int] == self.attached@[i as int]@);
            if same(self.attached[i].server.as_str(), server) && same(
                self.attached[i].busid.as_str(),
                busid,
            ) {
                return true;
            }
            i = i + 1;
        }
        false
    }

    /// The first device to attach, of those that a server has.
    pub fn candidate(&self, server: &Server, devices: &Vec<UsbDevice>) -> (r: Option<usize>)
        ensures
            match r {
                Some(i) => self@.choice(server@, devices@) == Some(i as int) && i < devices@.len(),
                None => self@.choice(server@, devices@) is None,
            },
    {
        let ghost all = devices@;
        let mut i: usize = 0;
        assert(all.skip(0) =~= all);
        while i < devices.len()
            invariant
                i <= devices@.len(),
                all == devices@,
                match self@.choice(server@, all.skip(i as int)) {
                    Some(k) => self@.choice(server@, all) == Some(k + i),
                    None => self@.choice(server@, all) is None,
                },
            decreases devices@.len() - i,
        {
            let d = &devices[i];
            assert(all.skip(i as int)[0] == d);
            if server.devices.matches(d.id_vendor, d.id_product) && !self.has_attached(
                server.name.as_str(),
                d.busid.as_str(),
            ) {
                return Some(i);
            }
            assert(all.skip(i as int).drop_first() =~= all.skip(i + 1));
            i = i + 1;
        }
        None
    }
}

fn attached_on(v: &Vec<Attachment>, port: u32) -> (r: bool)
    ensures
        r == on_port(attachments_view(v@), port),
{
    let mut i: usize = 0;
    while i < v.len()
        invariant
            i <= v@.len(),
            forall|k: int| 0 <= k < i ==> (#[trigger] attachments_view(v@)[k]).port != port,
        decreases v@.len() - i,
    {
        assert(attachments_view(v@)[i as int] == v@[i as int]@);
        if v[i].port == port {
            return true;
        }
        i = i + 1;
    }
    false
}

fn known_host(v: &Vec<Server>, host: &str) -> (r: bool)
    ensures
        r == at_host(servers_view(v@), host@),
{
    let mut i: usize = 0;
    while i < v.len()
        invariant
            i <= v@.len(),
            forall|k: int|
                0 <= k < i ==> !same_host((#[trigger] servers_view(v@)[k]).host, host@),
        decreases v@.len() - i,
    {
        assert(servers_view(v@)[i as int] == v@[i as int]@);
        if hosts_match(v[i].host.as_str(), host) {
            return true;
        }
        i = i + 1;
    }
    false
}

// ---------------------------------------------------------------------------
// Ticks

/// What has to be done before a tick goes on.
#[derive(Debug, Clone, PartialEq, Eq)]
pub enum Step {
    /// The tick is over.
    Done,
    /// Ask the server with this index for its devices.
    List(usize),
    /// Note the ports in use, then attach this device of the server with this index.
    Attach(usize, String),
    /// Look which ports are in use.
    Look,
    /// Wait a moment.
    Pause,
}

/// What came of a step.
pub enum Event {
    /// The devices that the server has.
    Listed(Vec<UsbDevice>),
    /// The server would not answer.
    Unreachable,
    /// The device was handed to the kernel; the ports in use before that.
    Handed(Vec<u32>),
    AttachFailed,
    /// The ports in use.
    Ports(Vec<u32>),
    Waited,
}

/// Where a tick is.
pub enum Stage {
    /// A server was asked for its devices.
    Listing,
    /// A device is being attached.
    Attaching { busid: String },
    /// A device was attached, and its port is awaited until the deadline.
    Settling { busid: String, before: Vec<u32>, deadline: u128 },
    Over,
}

/// One round through the servers.
pub struct Tick {
    servers: Vec<Server>,
    at: usize,
    stage: Stage,
}

/// A stage as contracts speak of it.
pub enum StageModel {
    Listing,
    Attaching { busid: Seq<char> },
    Settling { busid: Seq<char>, before: Seq<u32>, deadline: int },
    Over,
}

/// A step as contracts speak of it.
pub enum StepModel {
    Done,
    List(int),
    Attach(int, Seq<char>),
    Look,
    Pause,
}

/// A tick as contracts speak of it.
pub struct TickModel {
    pub servers: Seq<ServerModel>,
    pub at: int,
    pub stage: StageModel,
}

impl View for Stage {
    type V = StageModel;

    open spec fn view(&self) -> StageModel {
        match self {
            Stage::Listing => StageModel::Listing,
            Stage::Attaching { busid } => StageModel::Attaching { busid: busid@ },
            Stage::Settling { busid, before, deadline } => StageModel::Settling {
                busid: busid@,
                before: before@,
                deadline: *deadline as int,
            },
            Stage::Over => StageModel::Over,
        }
    }
}

impl View for Step {
    type V = StepModel;

    open spec fn view(&self) -> StepModel {
        match self {
            Step::Done => StepModel::Done,
            Step::List(at) => StepModel::List(*at as int),
            Step::Attach(at, busid) => StepModel::Attach(*at as int, busid@),
            Step::Look => StepModel::Look,
            Step::Pause => StepModel::Pause,
        }
    }
}

impl View for Tick {
    type V = TickModel;

    closed spec fn view(&self) -> TickModel {
        TickModel {
            servers: servers_view(self.servers@),
            at: self.at as int,
            stage: self.stage@,
        }
    }
}

impl TickModel {
    /// The server that the tick is at.
    pub open spec fn server(self) -> ServerModel {
        self.servers[self.at]
    }

    pub open spec fn over(self) -> (TickModel, StepModel) {
        (TickModel { stage: StageModel::Over, ..self }, StepModel::Done)
    }

    /// The tick goes on to the first server from `from` on that may be asked: one to
    /// attach from without being told to, that has not just failed to answer.
    pub open spec fn moved(self, d: DaemonModel, from: int, now: u64) -> (TickModel, StepModel)
        decreases self.servers.len() - from,
    {
        if from < 0 || from >= self.servers.len() {
            self.over()
        } else if self.servers[from].auto_attach && !d.waits_for(self.servers[from].name, now) {
            (
                TickModel { at: from, stage: StageModel::Listing, ..self },
                StepModel::List(from),
            )
        } else {
            self.moved(d, from + 1, now)
        }
    }

    /// What an event makes of the tick and the daemon, and what has to be done next.
    /// An event that the stage does not wait for ends the tick.
    pub open spec fn after(self, d: DaemonModel, event: Event, now: u64) -> (
        TickModel,
        DaemonModel,
        StepModel,
    ) {
        match (self.stage, event) {
            (StageModel::Listing, Event::Listed(devices)) => {
                let after = d.answered(self.server().name);
                match after.choice(self.server(), devices@) {
                    Some(i) => (
                        TickModel {
                            stage: StageModel::Attaching { busid: devices@[i].busid@ },
                            ..self
                        },
                        after,
                        StepModel::Attach(self.at, devices@[i].busid@),
                    ),
                    None => {
                        let (t, step) = self.moved(after, self.at + 1, now);
                        (t, after, step)
                    },
                }
            },
            (StageModel::Listing, Event::Unreachable) => {
                let after = d.failed(self.server().name, now);
                let (t, step) = self.moved(after, self.at + 1, now);
                (t, after, step)
            },
            (StageModel::Attaching { busid }, Event::Handed(before)) => (
                TickModel {
                    stage: StageModel::Settling {
                        busid,
                        before: before@,
                        deadline: now + PORT_SETTLE_TIMEOUT,
                    },
                    ..self
                },
                d,
                StepModel::Look,
            ),
            (StageModel::Attaching { busid }, Event::AttachFailed) => {
                let after = d.failed(self.server().name, now);
                let (t, step) = self.moved(after, self.at + 1, now);
                (t, after, step)
            },
            (StageModel::Settling { busid, before, deadline }, Event::Ports(used)) => {
                match first_new(before, used@) {
                    Some(port) => {
                        let after = d.with_attached(self.server(), busid, port);
                        let (t, step) = if d.cfg.attach.stop_after_first {
                            self.over()
                        } else {
                            self.moved(after, self.at + 1, now)
                        };
                        (t, after, step)
                    },
                    None => (self, d, StepModel::Pause),
                }
            },
            (StageModel::Settling { busid, before, deadline }, Event::Waited) => {
                // Success was reported but no port lit up: it is not recorded, or the
                // next tick would think a device is attached when it is not.
                let (t, step) = if now < deadline {
                    (self, StepModel::Look)
                } else {
                    self.moved(d, self.at + 1, now)
                };
                (t, d, step)
            },
            _ => {
                let (t, step) = self.over();
                (t, d, step)
            },
        }
    }
}

impl Tick {
    /// What every operation keeps: until the tick is over it is at a server.
    pub open spec fn wf(&self) -> bool {
        self@.stage is Over || 0 <= self@.at < self@.servers.len()
    }

    /// Begins a tick, and says what to do first. Where there is nothing left to do it
    /// is over at once.
    pub fn begin(daemon: &Daemon, servers: Vec<Server>, now: u64) -> (r: (Tick, Step))
        requires
            daemon.wf(),
        ensures
            r.0.wf(),
            ({
                let start = TickModel {
                    servers: servers_view(servers@),
                    at: 0,
                    stage: StageModel::Over,
                };
                (r.0@, r.1@) == (if daemon@.is_satisfied() {
                    start.over()
                } else {
                    start.moved(daemon@, 0, now)
                })
            }),
    {
        let mut t = Tick { servers, at: 0, stage: Stage::Over };
        if daemon.satisfied() {
            return (t, Step::Done);
        }
        let step = t.go_on(daemon, 0, now);
        (t, step)
    }

    fn finish(&mut self) -> (step: Step)
        ensures
            (final(self)@, step@) == old(self)@.over(),
            final(self).wf(),
    {
        self.stage = Stage::Over;
        Step::Done
    }

    fn go_on(&mut self, daemon: &Daemon, from: usize, now: u64) -> (step: Step)
        requires
            daemon.wf(),
        ensures
            (final(self)@, step@) == old(self)@.moved(daemon@, from as int, now),
            final(self).wf(),
    {
        let ghost start = self@;
        let mut i: usize = from;
        while i < self.servers.len()
            invariant
                daemon.wf(),
                *self == *old(self),
                start == self@,
                start.moved(daemon@, from as int, now) == start.moved(daemon@, i as int, now),
            decreases self.servers@.len() - i,
        {
            assert(start.servers[i as int] == self.servers@[i as int]@);
            if self.servers[i].auto_attach && !daemon.waiting(&self.servers[i], now) {
                self.at = i;
                self.stage = Stage::Listing;
                return Step::List(i);
            }
            i = i + 1;
        }
        self.finish()
    }

    /// The server with an index that a step names.
    pub fn server(&self, at: usize) -> (r: Option<&Server>)
        ensures
            match r {
                Some(s) => at < self@.servers.len() && s@ == self@.servers[at as int],
                None => at >= self@.servers.len(),
            },
    {
        assert(self@.servers.len() == self.servers@.len());
        if at < self.servers.len() {
            assert(self@.servers[at as int] == self.servers@[at as int]@);
            Some(&self.servers[at])
        } else {
            None
        }
    }

    /// Takes what came of the last step at the time `now`, and says what to do next.
    pub fn next(&mut self, daemon: &mut Daemon, event: Event, now: u64) -> (step: Step)
        requires
            old(self).wf(),
            old(daemon).wf(),
        ensures
            final(self).wf(),
            final(daemon).wf(),
            final(daemon).cfg == old(daemon).cfg,
            (final(self)@, final(daemon)@, step@) == old(self)@.after(old(daemon)@, event, now),
    {
        let at: usize = self.at;
        assert(self@.servers.len() == self.servers@.len());
        if matches!(self.stage, Stage::Over) || at >= self.servers.len() {
            return self.finish();
        }
        assert(self@.server() == self.servers@[at as int]@);
        match event {
            Event::Listed(devices) => {
                if !matches!(self.stage, Stage::Listing) {
                    return self.finish();
                }
                daemon.clear_failure(&self.servers[at]);
                match daemon.candidate(&self.servers[at], &devices) {
                    Some(i) => {
                        let busid = devices[i].busid.clone();
                        self.stage = Stage::Attaching { busid: devices[i].busid.clone() };
                        Step::Attach(at, busid)
                    },
                    None => self.go_on(daemon, at + 1, now),
                }
            },
            Event::Unreachable => {
                if !matches!(self.stage, Stage::Listing) {
                    return self.finish();
                }
                daemon.record_failure(&self.servers[at], now);
                self.go_on(daemon, at + 1, now)
            },
            Event::Handed(before) => {
                let busid = match &self.stage {
                    Stage::Attaching { busid } => busid.clone(),
                    _ => {
                        return self.finish();
                    },
                };
                let deadline: u128 = now as u128 + PORT_SETTLE_TIMEOUT as u128;
                self.stage = Stage::Settling { busid, before, deadline };
                Step::Look
            },
            Event::AttachFailed => {
                if !matches!(self.stage, Stage::Attaching { .. }) {
                    return self.finish();
                }
                daemon.record_failure(&self.servers[at], now);
                self.go_on(daemon, at + 1, now)
            },
            Event::Ports(used) => {
                let (found, busid) = match &self.stage {
                    Stage::Settling { busid, before, .. } => {
                        (newly_used(before.as_slice(), used.as_slice()), busid.clone())
                    },
                    _ => {
                        return self.finish();
                    },
                };
                match found {
                    Some(port) => {
                        let a = Attachment {
                            server: self.servers[at].name.clone(),
                            host: self.servers[at].host.clone(),
                            busid,
                            port,
                        };
                        let ghost had = attachments_view(daemon.attached@);
                        daemon.attached.push(a);
                        assert(attachments_view(daemon.attached@) =~= had.push(a@));
                        if daemon.cfg.attach.stop_after_first {
                            self.finish()
                        } else {
                            self.go_on(daemon, at + 1, now)
                        }
                    },
                    None => Step::Pause,
                }
            },
            Event::Waited => {
                let deadline: u128 = match &self.stage {
                    Stage::Settling { deadline, .. } => *deadline,
                    _ => {
                        return self.finish();
                    },
                };
                if (now as u128) < deadline {
                    Step::Look
                } else {
                    self.go_on(daemon, at + 1, now)
                }
            },
        }
    }
}

// ---------------------------------------------------------------------------
// Laws

/// A server fails to answer, once at each of the times.
pub open spec fn failures(d: DaemonModel, name: Seq<char>, times: Seq<u64>) -> DaemonModel
    decreases times.len(),
{
    if times.len() == 0 {
        d
    } else {
        failures(d, name, times.drop_last()).failed(name, times.last())
    }
}

proof fn lemma_failures_keep_the_rest(d: DaemonModel, name: Seq<char>, times: Seq<u64>)
    ensures
        failures(d, name, times).cfg == d.cfg,
        failures(d, name, times).attached == d.attached,
    decreases times.len(),
{
    if times.len() > 0 {
        lemma_failures_keep_the_rest(d, name, times.drop_last());
    }
}

/// After failures in a row the delay has doubled with each of them, up to the
/// ceiling, and the next try is the delay before the last doubling away.
pub proof fn lemma_backoff_doubles_up_to_the_ceiling(
    d: DaemonModel,
    name: Seq<char>,
    times: Seq<u64>,
)
    requires
        !d.backoff.dom().contains(name),
        d.cfg.attach.retry_min <= d.cfg.attach.retry_max,
        times.len() > 0,
    ensures
        ({
            let min = d.cfg.attach.retry_min as int;
            let max = d.cfg.attach.retry_max as int;
            let n = times.len();
            let last = min * pow2((n - 1) as nat);
            let next = min * pow2(n);
            match failures(d, name, times).remembered(name) {
                Some(b) => {
                    &&& b.delay == (if next <= max {
                        next
                    } else {
                        max
                    })
                    &&& b.next_try == times.last() + (if last <= max {
                        last
                    } else {
                        max
                    }) * NANOS_PER_SEC
                },
                None => false,
            }
        }),
    decreases times.len(),
{
    let min = d.cfg.attach.retry_min as int;
    let max = d.cfg.attach.retry_max as int;
    let n = times.len();
    let before = failures(d, name, times.drop_last());
    lemma_failures_keep_the_rest(d, name, times.drop_last());
    lemma_pow2_unfold(n);
    lemma_pow2_pos((n - 1) as nat);
    let last = min * pow2((n - 1) as nat);
    assert(min * pow2(n) == 2 * last) by (nonlinear_arith)
        requires
            pow2(n) == 2 * pow2((n - 1) as nat),
            last == min * pow2((n - 1) as nat),
    ;
    assert(last >= 0) by (nonlinear_arith)
        requires
            min >= 0,
            pow2((n - 1) as nat) >= 0,
            last == min * pow2((n - 1) as nat),
    ;
    let delay = match before.remembered(name) {
        Some(b) => b.delay,
        None => d.cfg.attach.retry_min,
    };
    if n == 1 {
        lemma2_to64();
        assert(times.drop_last() =~= Seq::empty());
        assert(before == d);
        assert(last == min) by (nonlinear_arith)
            requires
                last == min * pow2((n - 1) as nat),
                pow2((n - 1) as nat) == 1,
        ;
    } else {
        lemma_backoff_doubles_up_to_the_ceiling(d, name, times.drop_last());
    }
    assert(delay as int == (if last <= max {
        last
    } else {
        max
    }));
    assert(0 <= delay as int * NANOS_PER_SEC as int <= 0xffff_ffff_ffff_ffff * 1_000_000_000)
        by (nonlinear_arith)
        requires
            0 <= delay <= 0xffff_ffff_ffff_ffff,
            NANOS_PER_SEC == 1_000_000_000,
    ;
}

/// A server that answers starts afresh: nothing is remembered of its failures, and
/// it is not waited for.
pub proof fn lemma_an_answer_clears_the_backoff(d: DaemonModel, name: Seq<char>, now: u64)
    ensures
        d.answered(name).remembered(name) is None,
        !d.answered(name).waits_for(name, now),
        forall|other: Seq<char>|
            other != name ==> d.answered(name).remembered(other) == #[trigger] d.remembered(other),
{
}

/// A server that fails is left alone for its delay.
pub proof fn lemma_a_failure_is_waited_out(d: DaemonModel, name: Seq<char>, at: u64, now: u64)
    ensures
        d.failed(name, at).waits_for(name, now) <==> now < at + (match d.remembered(name) {
            Some(b) => b.delay,
            None => d.cfg.attach.retry_min,
        }) * NANOS_PER_SEC,
{
    let delay = match d.remembered(name) {
        Some(b) => b.delay,
        None => d.cfg.attach.retry_min,
    };
    assert(0 <= delay as int * NANOS_PER_SEC as int <= 0xffff_ffff_ffff_ffff * 1_000_000_000)
        by (nonlinear_arith)
        requires
            0 <= delay <= 0xffff_ffff_ffff_ffff,
            NANOS_PER_SEC == 1_000_000_000,
    ;
}

proof fn lemma_moved(t: TickModel, d: DaemonModel, from: int, now: u64)
    requires
        0 <= from,
    ensures
        ({
            let (after, step) = t.moved(d, from, now);
            &&& after.servers == t.servers
            &&& match step {
                StepModel::List(i) => {
                    &&& from <= i < t.servers.len()
                    &&& after.at == i
                    &&& after.stage is Listing
                    &&& t.servers[i].auto_attach
                    &&& !d.waits_for(t.servers[i].name, now)
                },
                StepModel::Done => after.stage is Over,
                _ => false,
            }
        }),
    decreases t.servers.len() - from,
{
    if from < t.servers.len() {
        lemma_moved(t, d, from + 1, now);
    }
}

/// A server is asked for its devices only if it is one to attach from, and only once
/// its delay is over: a host that is switched off is not spent a connection on.
pub proof fn lemma_waiting_servers_are_left_alone(
    t: TickModel,
    d: DaemonModel,
    event: Event,
    now: u64,
)
    requires
        0 <= t.at < t.servers.len(),
    ensures
        match t.after(d, event, now).2 {
            StepModel::List(i) => {
                let s = t.servers[i];
                0 <= i < t.servers.len() && s.auto_attach && !t.after(d, event, now).1.waits_for(
                    s.name,
                    now,
                )
            },
            _ => true,
        },
{
    let after = t.after(d, event, now);
    lemma_moved(t, after.1, t.at + 1, now);
}

/// With one device as the limit, a tick that begins attaches one at most, and none if
/// one is attached: as long as the tick is not over, nothing is attached, and then
/// there is one attachment more at most.
pub proof fn lemma_one_device_at_most(t: TickModel, d: DaemonModel, event: Event, now: u64)
    requires
        d.cfg.attach.stop_after_first,
        0 <= t.at < t.servers.len(),
        t.stage is Over || d.attached.len() == 0,
        d.attached.len() <= 1,
    ensures
        ({
            let (after, daemon, step) = t.after(d, event, now);
            &&& daemon.cfg == d.cfg
            &&& after.stage is Over || daemon.attached.len() == 0
            &&& daemon.attached.len() <= 1
        }),
{
    let after = t.after(d, event, now);
    lemma_moved(t, after.1, t.at + 1, now);
}

/// Whether no device of a server is attached twice, nor about to be.
pub open spec fn no_double(t: TickModel, d: DaemonModel) -> bool {
    &&& forall|i: int, j: int|
        0 <= i < j < d.attached.len() ==> (#[trigger] d.attached[i]).server != (
        #[trigger] d.attached[j]).server || d.attached[i].busid != d.attached[j].busid
    &&& match t.stage {
        StageModel::Attaching { busid } => !d.tracks(t.server().name, busid),
        StageModel::Settling { busid, before, deadline } => !d.tracks(t.server().name, busid),
        _ => true,
    }
}

proof fn lemma_choice(d: DaemonModel, s: ServerModel, devices: Seq<UsbDevice>)
    ensures
        match d.choice(s, devices) {
            Some(i) => 0 <= i < devices.len() && d.wants(s, devices[i]@) && forall|k: int|
                0 <= k < i ==> !d.wants(s, (#[trigger] devices[k])@),
            None => forall|k: int|
                0 <= k < devices.len() ==> !d.wants(s, (#[trigger] devices[k])@),
        },
    decreases devices.len(),
{
    if devices.len() > 0 {
        let rest = devices.drop_first();
        lemma_choice(d, s, rest);
        if !d.wants(s, devices[0]@) {
            assert forall|k: int| 0 <= k < devices.len() && (match d.choice(s, devices) {
                Some(i) => k < i,
                None => true,
            }) implies !d.wants(s, (#[trigger] devices[k])@) by {
                if k > 0 {
                    assert(rest[k - 1] == devices[k]);
                }
            }
        }
    }
}

/// A tick attaches no device of a server that is attached already.
pub proof fn lemma_no_device_is_attached_twice(
    t: TickModel,
    d: DaemonModel,
    event: Event,
    now: u64,
)
    requires
        0 <= t.at < t.servers.len(),
        no_double(t, d),
    ensures
        no_double(t.after(d, event, now).0, t.after(d, event, now).1),
{
    let after = t.after(d, event, now);
    lemma_moved(t, after.1, t.at + 1, now);
    match event {
        Event::Listed(devices) => {
            lemma_choice(d.answered(t.server().name), t.server(), devices@);
        },
        _ => {},
    }
}

/// What a tick attaches is wanted of its server: one of the patterns lets it through.
pub proof fn lemma_only_wanted_devices_are_attached(
    t: TickModel,
    d: DaemonModel,
    event: Event,
    now: u64,
)
    requires
        0 <= t.at < t.servers.len(),
    ensures
        match (event, t.after(d, event, now).2) {
            (Event::Listed(devices), StepModel::Attach(at, busid)) => at == t.at && exists|k: int|
                0 <= k < devices@.len() && (#[trigger] devices@[k]).busid@ == busid && allowed(
                    t.server().devices,
                    devices@[k].id_vendor,
                    devices@[k].id_product,
                ),
            (_, StepModel::Attach(..)) => false,
            _ => true,
        },
{
    let after = t.after(d, event, now);
    lemma_moved(t, after.1, t.at + 1, now);
    match event {
        Event::Listed(devices) => {
            lemma_choice(d.answered(t.server().name), t.server(), devices@);
        },
        _ => {},
    }
}

proof fn lemma_others(known: Seq<AttachmentModel>, used: Seq<u32>)
    ensures
        forall|k: int|
            0 <= k < used.len() ==> on_port(known + others(known, used), #[trigger] used[k]),
    decreases used.len(),
{
    if used.len() > 0 {
        lemma_others(known, used.drop_last());
        let all = known + others(known, used);
        let less = known + others(known, used.drop_last());
        assert forall|k: int| 0 <= k < used.len() implies on_port(all, #[trigger] used[k]) by {
            if k < used.len() - 1 {
                assert(used.drop_last()[k] == used[k]);
                let i = choose|i: int| 0 <= i < less.len() && (#[trigger] less[i]).port == used[k];
                assert(all[i] == less[i]);
            } else if on_port(known, used[k]) {
                let i = choose|i: int|
                    0 <= i < known.len() && (#[trigger] known[i]).port == used[k];
                assert(all[i] == known[i]);
            } else {
                assert(all[all.len() - 1] == unexplained(used[k]));
            }
        }
    }
}

/// A restart finds every port that is in use: with one device as the limit, any busy
/// port keeps the daemon from attaching a second copy.
pub proof fn lemma_a_restart_adopts_every_busy_port(
    d: DaemonModel,
    used: Seq<u32>,
    rs: Seq<RecordModel>,
)
    ensures
        ({
            let known = explained(d.cfg.servers, used, rs);
            let after = DaemonModel {
                attached: d.attached + known + others(known, used),
                ..d
            };
            &&& forall|k: int| 0 <= k < used.len() ==> on_port(after.attached, #[trigger] used[k])
            &&& used.len() > 0 && d.cfg.attach.stop_after_first ==> after.is_satisfied()
        }),
{
    let known = explained(d.cfg.servers, used, rs);
    let new = known + others(known, used);
    let all = d.attached + known + others(known, used);
    lemma_others(known, used);
    assert(all =~= d.attached + new);
    assert forall|k: int| 0 <= k < used.len() implies on_port(all, #[trigger] used[k]) by {
        let i = choose|i: int| 0 <= i < new.len() && (#[trigger] new[i]).port == used[k];
        assert(all[d.attached.len() + i] == new[i]);
    }
    if used.len() > 0 {
        assert(on_port(all, used[0]));
    }
}

proof fn lemma_alive(attached: Seq<AttachmentModel>, ports: Seq<PortModel>, a: AttachmentModel)
    ensures
        alive(attached, ports).contains(a) == (attached.contains(a) && fate(
            ports,
            a.port,
        ) is Attached),
    decreases attached.len(),
{
    if attached.len() > 0 {
        let rest = attached.drop_last();
        let last = attached.last();
        let less = alive(rest, ports);
        lemma_alive(rest, ports, a);
        assert(attached =~= rest.push(last));
        rest.lemma_push_to_set_commute(last);
        less.lemma_push_to_set_commute(last);
        assert(attached.contains(a) == (rest.contains(a) || a == last)) by {
            assert(attached.to_set().contains(a) == rest.to_set().insert(last).contains(a));
        }
        assert(less.push(last).contains(a) == (less.contains(a) || a == last)) by {
            assert(less.push(last).to_set().contains(a) == less.to_set().insert(last).contains(a));
        }
    }
}

/// What is left after a look at the ports is on a port that is taken and works, and
/// whatever was on such a port is left; the rest is reported as gone.
pub proof fn lemma_lost_attachments_are_forgotten(
    attached: Seq<AttachmentModel>,
    ports: Seq<PortModel>,
)
    ensures
        forall|a: AttachmentModel| #[trigger]
            alive(attached, ports).contains(a) == (attached.contains(a) && fate(
                ports,
                a.port,
            ) is Attached),
        alive(attached, ports).len() + gone(attached, ports).len() == attached.len(),
    decreases attached.len(),
{
    if attached.len() > 0 {
        lemma_lost_attachments_are_forgotten(attached.drop_last(), ports);
    }
    assert forall|a: AttachmentModel| #[trigger]
        alive(attached, ports).contains(a) == (attached.contains(a) && fate(
            ports,
            a.port,
        ) is Attached) by {
        lemma_alive(attached, ports, a);
    }
}

/// Configured servers come first, in their order, whatever is found on the LAN.
pub proof fn lemma_configured_servers_come_first(
    servers: Seq<ServerModel>,
    found: Seq<Discovered>,
)
    ensures
        servers.is_prefix_of(with_found(servers, found)),
    decreases found.len(),
{
    if found.len() > 0 {
        lemma_configured_servers_come_first(servers, found.drop_last());
    }
}

/// Once what was attached has dropped off, the next tick goes looking again: it asks
/// a server as soon as there is one that may be asked.
pub proof fn lemma_a_dropped_device_is_looked_for_again(
    d: DaemonModel,
    ports: Seq<PortModel>,
    servers: Seq<ServerModel>,
    i: int,
    now: u64,
)
    requires
        forall|k: int|
            0 <= k < d.attached.len() ==> !(fate(ports, (#[trigger] d.attached[k]).port)
                is Attached),
        0 <= i < servers.len(),
        servers[i].auto_attach,
        !d.waits_for(servers[i].name, now),
    ensures
        ({
            let after = DaemonModel { attached: alive(d.attached, ports), ..d };
            let start = TickModel { servers, at: 0, stage: StageModel::Over };
            !after.is_satisfied() && start.moved(after, 0, now).1 is List
        }),
{
    let after = DaemonModel { attached: alive(d.attached, ports), ..d };
    let start = TickModel { servers, at: 0, stage: StageModel::Over };
    lemma_none_alive(d.attached, ports);
    lemma_moved_finds(start, after, 0, i, now);
}

proof fn lemma_none_alive(attached: Seq<AttachmentModel>, ports: Seq<PortModel>)
    requires
        forall|k: int|
            0 <= k < attached.len() ==> !(fate(ports, (#[trigger] attached[k]).port) is Attached),
    ensures
        alive(attached, ports).len() == 0,
    decreases attached.len(),
{
    if attached.len() > 0 {
        assert(attached[attached.len() - 1] == attached.last());
        assert forall|k: int| 0 <= k < attached.len() - 1 implies !(fate(
            ports,
            (#[trigger] attached.drop_last()[k]).port,
        ) is Attached) by {
            assert(attached.drop_last()[k] == attached[k]);
        }
        lemma_none_alive(attached.drop_last(), ports);
    }
}

proof fn lemma_moved_finds(t: TickModel, d: DaemonModel, from: int, i: int, now: u64)
    requires
        0 <= from <= i < t.servers.len(),
        t.servers[i].auto_attach,
        !d.waits_for(t.servers[i].name, now),
    ensures
        t.moved(d, from, now).1 is List,
    decreases i - from,
{
    if from < i {
        lemma_moved_finds(t, d, from + 1, i, now);
    }
}

// ---------------------------------------------------------------------------
// What a tick does, server by server

/// Whether a server may be asked at that moment: it is one to attach from without being
/// told to, and no failure of it is still to be waited out.
pub open spec fn askable(s: ServerModel, d: DaemonModel, now: u64) -> bool {
    s.auto_attach && !(d.backoff.dom().contains(s.name) && now < d.backoff[s.name].next_try)
}

/// Whether a device is one to take: one of the server's patterns names its vendor and its
/// product, or leaves them open, and it is not attached from that server.
pub open spec fn to_take(s: ServerModel, d: DaemonModel, dev: UsbDevice) -> bool {
    &&& exists|p: int|
        0 <= p < s.devices.len() && ((#[trigger] s.devices[p]).vendor is None
            || s.devices[p].vendor == Some(dev.id_vendor)) && (s.devices[p].product is None
            || s.devices[p].product == Some(dev.id_product))
    &&& forall|a: int|
        0 <= a < d.attached.len() ==> !((#[trigger] d.attached[a]).server == s.name
            && d.attached[a].busid == dev.busid@)
}

proof fn lemma_to_take(s: ServerModel, d: DaemonModel, dev: UsbDevice)
    ensures
        d.wants(s, dev@) == to_take(s, d, dev),
{
    if allowed(s.devices, dev.id_vendor, dev.id_product) {
        let p = choose|p: int|
            0 <= p < s.devices.len() && (#[trigger] s.devices[p]).allows(
                dev.id_vendor,
                dev.id_product,
            );
        assert(s.devices[p].vendor is None || s.devices[p].vendor == Some(dev.id_vendor));
    }
    if exists|p: int|
        0 <= p < s.devices.len() && ((#[trigger] s.devices[p]).vendor is None
            || s.devices[p].vendor == Some(dev.id_vendor)) && (s.devices[p].product is None
            || s.devices[p].product == Some(dev.id_product)) {
        let p = choose|p: int|
            0 <= p < s.devices.len() && ((#[trigger] s.devices[p]).vendor is None
                || s.devices[p].vendor == Some(dev.id_vendor)) && (s.devices[p].product is None
                || s.devices[p].product == Some(dev.id_product));
        assert(s.devices[p].allows(dev.id_vendor, dev.id_product));
    }
}

/// Whether a step is the one that goes on to the first server from `from` on that may be
/// asked, or ends the tick if there is none.
pub open spec fn goes_on(
    servers: Seq<ServerModel>,
    d: DaemonModel,
    from: int,
    now: u64,
    after: TickModel,
    step: StepModel,
) -> bool {
    match step {
        StepModel::List(i) => {
            &&& from <= i < servers.len()
            &&& askable(servers[i], d, now)
            &&& forall|k: int| from <= k < i ==> !askable(#[trigger] servers[k], d, now)
            &&& after.at == i
            &&& after.stage is Listing
        },
        StepModel::Done => {
            &&& forall|k: int|
                from <= k < servers.len() ==> !askable(#[trigger] servers[k], d, now)
            &&& after.stage is Over
        },
        _ => false,
    }
}

proof fn lemma_goes_on(t: TickModel, d: DaemonModel, from: int, now: u64)
    requires
        0 <= from,
    ensures
        goes_on(t.servers, d, from, now, t.moved(d, from, now).0, t.moved(d, from, now).1),
        t.moved(d, from, now).0.servers == t.servers,
    decreases t.servers.len() - from,
{
    if from < t.servers.len() {
        lemma_goes_on(t, d, from + 1, now);
    }
}

/// A tick begins with the first server that may be asked, unless one device is enough and
/// there is one.
pub proof fn lemma_a_tick_begins_at_the_first_server(
    servers: Seq<ServerModel>,
    d: DaemonModel,
    now: u64,
)
    ensures
        d.is_satisfied() <==> d.cfg.attach.stop_after_first && d.attached.len() > 0,
        ({
            let start = TickModel { servers, at: 0, stage: StageModel::Over };
            let (t, step) = start.moved(d, 0, now);
            goes_on(servers, d, 0, now, t, step) && t.servers == servers
        }),
{
    let start = TickModel { servers, at: 0, stage: StageModel::Over };
    lemma_goes_on(start, d, 0, now);
}

/// A tick passes over no server. When a server has answered, the first of its devices
/// that is to be taken is attached; if none is, or if the server would not answer, or
/// attaching failed, or nothing came of it in time, the next server that may be asked is
/// asked, and the tick is over only if there is none.
pub proof fn lemma_a_tick_passes_over_no_server(
    t: TickModel,
    d: DaemonModel,
    event: Event,
    now: u64,
)
    requires
        0 <= t.at < t.servers.len(),
    ensures
        ({
            let (after, daemon, step) = t.after(d, event, now);
            let s = t.servers[t.at];
            &&& after.servers == t.servers
            &&& daemon.cfg == d.cfg
            &&& match (t.stage, event) {
                (StageModel::Listing, Event::Listed(devices)) => {
                    &&& daemon.attached == d.attached
                    &&& daemon.backoff =~= d.backoff.remove(s.name)
                    &&& match step {
                        StepModel::Attach(at, busid) => exists|k: int|
                            {
                                &&& 0 <= k < devices@.len()
                                &&& #[trigger] to_take(s, daemon, devices@[k])
                                &&& forall|m: int|
                                    0 <= m < k ==> !to_take(s, daemon, #[trigger] devices@[m])
                                &&& at == t.at && busid == devices@[k].busid@
                                &&& after.at == t.at
                                &&& after.stage == (StageModel::Attaching { busid })
                            },
                        _ => {
                            &&& forall|k: int|
                                0 <= k < devices@.len() ==> !to_take(
                                    s,
                                    daemon,
                                    #[trigger] devices@[k],
                                )
                            &&& goes_on(t.servers, daemon, t.at + 1, now, after, step)
                        },
                    }
                },
                (StageModel::Listing, Event::Unreachable) => {
                    &&& daemon.attached == d.attached
                    &&& daemon.backoff.dom().contains(s.name)
                    &&& goes_on(t.servers, daemon, t.at + 1, now, after, step)
                },
                (StageModel::Attaching { busid }, Event::AttachFailed) => {
                    &&& daemon.attached == d.attached
                    &&& daemon.backoff.dom().contains(s.name)
                    &&& goes_on(t.servers, daemon, t.at + 1, now, after, step)
                },
                (StageModel::Attaching { busid }, Event::Handed(before)) => {
                    &&& daemon == d
                    &&& step is Look
                    &&& after.at == t.at
                    &&& after.stage == (StageModel::Settling {
                        busid,
                        before: before@,
                        deadline: now + 10_000_000_000,
                    })
                },
                (StageModel::Settling { busid, before, deadline }, Event::Waited) => {
                    &&& daemon == d
                    &&& now < deadline ==> step is Look && after == t
                    &&& now >= deadline ==> goes_on(t.servers, d, t.at + 1, now, after, step)
                },
                (StageModel::Settling { busid, before, deadline }, Event::Ports(used)) => {
                    &&& daemon.backoff == d.backoff
                    &&& (forall|k: int|
                        0 <= k < used@.len() ==> before.contains(#[trigger] used@[k])) ==> {
                        daemon == d && step is Pause && after == t
                    }
                    &&& (exists|k: int|
                        0 <= k < used@.len() && !before.contains(#[trigger] used@[k])) ==> {
                        let a = daemon.attached.last();
                        &&& daemon.attached.len() == d.attached.len() + 1
                        &&& daemon.attached.drop_last() =~= d.attached
                        &&& a.server == s.name && a.host == s.host && a.busid == busid
                        &&& used@.contains(a.port) && !before.contains(a.port)
                        &&& d.cfg.attach.stop_after_first ==> step is Done && after.stage is Over
                        &&& !d.cfg.attach.stop_after_first ==> goes_on(
                            t.servers,
                            daemon,
                            t.at + 1,
                            now,
                            after,
                            step,
                        )
                    }
                },
                _ => step is Done && daemon == d && after.stage is Over,
            }
        }),
{
    let (after, daemon, step) = t.after(d, event, now);
    lemma_goes_on(t, daemon, t.at + 1, now);
    let s = t.servers[t.at];
    match (t.stage, event) {
        (StageModel::Listing, Event::Listed(devices)) => {
            lemma_choice(daemon, s, devices@);
            assert forall|k: int| 0 <= k < devices@.len() implies daemon.wants(
                s,
                devices@[k]@,
            ) == #[trigger] to_take(s, daemon, devices@[k]) by {
                lemma_to_take(s, daemon, devices@[k]);
            }
            match daemon.choice(s, devices@) {
                Some(k) => {
                    assert(to_take(s, daemon, devices@[k]));
                    assert forall|m: int| 0 <= m < k implies !to_take(
                        s,
                        daemon,
                        #[trigger] devices@[m],
                    ) by {
                        assert(!daemon.wants(s, devices@[m]@));
                    }
                },
                None => {
                    assert forall|k: int| 0 <= k < devices@.len() implies !to_take(
                        s,
                        daemon,
                        #[trigger] devices@[k],
                    ) by {
                        assert(!daemon.wants(s, devices@[k]@));
                    }
                },
            }
        },
        (StageModel::Settling { busid, before, deadline }, Event::Ports(used)) => {
            lemma_the_difference_is_new(before, used@);
        },
        _ => {},
    }
}

/// A tick after one event and another, and the steps that it asked for on the way.
pub struct Run {
    pub tick: TickModel,
    pub daemon: DaemonModel,
    pub steps: Seq<StepModel>,
}

impl Run {
    pub open spec fn begun(servers: Seq<ServerModel>, d: DaemonModel, now: u64) -> Run {
        let start = TickModel { servers, at: 0, stage: StageModel::Over };
        let (tick, step) = start.moved(d, 0, now);
        Run { tick, daemon: d, steps: seq![step] }
    }

    pub open spec fn after(self, event: Event, now: u64) -> Run {
        let (tick, daemon, step) = self.tick.after(self.daemon, event, now);
        Run { tick, daemon, steps: self.steps.push(step) }
    }

    /// The tick after all of that.
    pub open spec fn after_all(self, events: Seq<(Event, u64)>) -> Run
        decreases events.len(),
    {
        if events.len() == 0 {
            self
        } else {
            self.after_all(events.drop_last()).after(events.last().0, events.last().1)
        }
    }
}

/// Whether an event is one that the last step can bring about.
pub open spec fn answers_step(stage: StageModel, event: Event) -> bool {
    match stage {
        StageModel::Listing => event is Listed || event is Unreachable,
        StageModel::Attaching { .. } => event is Handed || event is AttachFailed,
        StageModel::Settling { .. } => event is Ports || event is Waited,
        StageModel::Over => false,
    }
}

/// Whether all of these events answer the steps that were asked for.
pub open spec fn answers_all(run: Run, events: Seq<(Event, u64)>) -> bool
    decreases events.len(),
{
    events.len() == 0 || answers_all(run, events.drop_last()) && answers_step(
        run.after_all(events.drop_last()).tick.stage,
        events.last().0,
    )
}

/// Whether the server was not to be asked at the beginning of the run or at one of its
/// events.
pub open spec fn was_left_out(
    s: ServerModel,
    d: DaemonModel,
    run: Run,
    now: u64,
    events: Seq<(Event, u64)>,
) -> bool {
    ||| !askable(s, d, now)
    ||| exists|k: int|
        0 <= k < events.len() && !askable(
            s,
            run.after_all(#[trigger] events.take(k + 1)).daemon,
            events[k].1,
        )
}

proof fn lemma_left_out_stays(
    s: ServerModel,
    d: DaemonModel,
    run: Run,
    now: u64,
    events: Seq<(Event, u64)>,
)
    requires
        events.len() > 0,
        was_left_out(s, d, run, now, events.drop_last()),
    ensures
        was_left_out(s, d, run, now, events),
{
    let init = events.drop_last();
    if askable(s, d, now) {
        let k = choose|k: int|
            0 <= k < init.len() && !askable(
                s,
                run.after_all(#[trigger] init.take(k + 1)).daemon,
                init[k].1,
            );
        assert(init.take(k + 1) =~= events.take(k + 1));
        assert(init[k] == events[k]);
        assert(!askable(s, run.after_all(events.take(k + 1)).daemon, events[k].1));
    }
}

/// A tick asks every server. Whatever its steps brought about, once it is over without
/// having attached a device, each server was asked for its devices or was not one to be
/// asked when the tick came by it.
pub proof fn lemma_a_tick_asks_every_server(
    servers: Seq<ServerModel>,
    d: DaemonModel,
    now: u64,
    events: Seq<(Event, u64)>,
    j: int,
)
    requires
        0 <= j < servers.len(),
        answers_all(Run::begun(servers, d, now), events),
        Run::begun(servers, d, now).after_all(events).tick.stage is Over,
        Run::begun(servers, d, now).after_all(events).daemon.attached.len() == d.attached.len(),
    ensures
        Run::begun(servers, d, now).after_all(events).steps.contains(StepModel::List(j))
            || was_left_out(servers[j], d, Run::begun(servers, d, now), now, events),
{
    lemma_asked_so_far(servers, d, now, events, j);
}

proof fn lemma_asked_so_far(
    servers: Seq<ServerModel>,
    d: DaemonModel,
    now: u64,
    events: Seq<(Event, u64)>,
    j: int,
)
    requires
        0 <= j < servers.len(),
        answers_all(Run::begun(servers, d, now), events),
    ensures
        ({
            let run = Run::begun(servers, d, now);
            let end = run.after_all(events);
            &&& end.tick.servers == servers
            &&& end.daemon.cfg == d.cfg
            &&& end.daemon.attached.len() >= d.attached.len()
            &&& !(end.tick.stage is Over) ==> 0 <= end.tick.at < servers.len()
            &&& (j <= end.tick.at && !(end.tick.stage is Over)) || (end.tick.stage is Over
                && end.daemon.attached.len() == d.attached.len()) ==> end.steps.contains(
                StepModel::List(j),
            ) || was_left_out(servers[j], d, run, now, events)
        }),
    decreases events.len(),
{
    let run = Run::begun(servers, d, now);
    let end = run.after_all(events);
    if events.len() == 0 {
        lemma_a_tick_begins_at_the_first_server(servers, d, now);
        assert(end.steps[0] == run.steps[0]);
        if end.steps[0] == StepModel::List(j) {
            assert(end.steps.contains(StepModel::List(j)));
        }
    } else {
        let init = events.drop_last();
        let (event, at) = events.last();
        lemma_asked_so_far(servers, d, now, init, j);
        let had = run.after_all(init);
        assert(!(had.tick.stage is Over));
        lemma_a_tick_passes_over_no_server(had.tick, had.daemon, event, at);
        assert(end == had.after(event, at));
        assert(end.steps.drop_last() =~= had.steps);
        let step = end.steps.last();
        if had.steps.contains(StepModel::List(j)) {
            let k = choose|k: int| 0 <= k < had.steps.len() && had.steps[k] == StepModel::List(j);
            assert(end.steps[k] == StepModel::List(j));
        }
        if was_left_out(servers[j], d, run, now, init) {
            lemma_left_out_stays(servers[j], d, run, now, events);
        }
        assert(events.take(events.len() as int) =~= events);
        assert(end.steps[end.steps.len() - 1] == step);
        if j > had.tick.at && !askable(servers[j], end.daemon, at) {
            assert(!askable(
                servers[j],
                run.after_all(events.take((events.len() - 1) + 1)).daemon,
                events[events.len() - 1].1,
            ));
            assert(was_left_out(servers[j], d, run, now, events));
        }
    }
}

/// What is left of an attachment goes by the first port with its number: it stays if that
/// port is neither free, whose state is four, nor broken, whose state is seven; it is
/// reported as broken in the second case, and as dropped in the first or if there is no
/// such port. What stays, stays in order, and so does what is reported.
pub proof fn lemma_ports_decide(ports: Seq<PortModel>, port: u32, i: int)
    requires
        0 <= i <= ports.len(),
        i < ports.len() ==> ports[i].port == port,
        forall|k: int| 0 <= k < i ==> (#[trigger] ports[k]).port != port,
    ensures
        i == ports.len() ==> fate(ports, port) is Dropped,
        i < ports.len() ==> {
            &&& fate(ports, port) is Dropped <==> ports[i].status == 4
            &&& fate(ports, port) is Broken <==> ports[i].status == 7
            &&& fate(ports, port) is Attached <==> ports[i].status != 4 && ports[i].status != 7
        },
    decreases ports.len(),
{
    if i > 0 {
        let rest = ports.drop_first();
        assert(ports[0].port != port);
        assert forall|k: int| 0 <= k < i - 1 implies (#[trigger] rest[k]).port != port by {
            assert(rest[k] == ports[k + 1]);
        }
        if i < ports.len() {
            assert(rest[i - 1] == ports[i]);
        }
        lemma_ports_decide(rest, port, i - 1);
    }
}

/// What is pruned is reported, in order, each with what became of it.
pub proof fn lemma_pruning_sorts_attachments(
    attached: Seq<AttachmentModel>,
    ports: Seq<PortModel>,
)
    ensures
        alive(attached, ports) == attached.filter(
            |a: AttachmentModel| fate(ports, a.port) is Attached,
        ),
        gone(attached, ports) == attached.filter(
            |a: AttachmentModel| !(fate(ports, a.port) is Attached),
        ).map_values(|a: AttachmentModel| (a, fate(ports, a.port))),
    decreases attached.len(),
{
    reveal(Seq::filter);
    let lost = |a: AttachmentModel| !(fate(ports, a.port) is Attached);
    let tell = |a: AttachmentModel| (a, fate(ports, a.port));
    if attached.len() > 0 {
        let init = attached.drop_last();
        lemma_pruning_sorts_attachments(init, ports);
        assert(gone(attached, ports) =~= attached.filter(lost).map_values(tell));
    } else {
        assert(gone(attached, ports) =~= attached.filter(lost).map_values(tell));
    }
}

/// What a restart finds. Each record of a port in use becomes an attachment with the
/// record's host, bus id and port, under the name of the first configured server at that
/// host, or of the host; a port in use that no record explains is adopted under a name of
/// its own. Nothing else is adopted, and what was tracked stays.
pub proof fn lemma_what_a_restart_adopts(
    servers: Seq<ServerModel>,
    used: Seq<u32>,
    rs: Seq<RecordModel>,
)
    ensures
        ({
            let known = explained(servers, used, rs);
            &&& forall|k: int|
                0 <= k < rs.len() && used.contains((#[trigger] rs[k]).port) ==> known.contains(
                    AttachmentModel {
                        server: server_at(servers, rs[k].host),
                        host: rs[k].host,
                        busid: rs[k].busid,
                        port: rs[k].port,
                    },
                )
            &&& forall|k: int|
                0 <= k < known.len() ==> used.contains((#[trigger] known[k]).port) && exists|m: int|
                    0 <= m < rs.len() && (#[trigger] rs[m]).port == known[k].port && rs[m].host
                        == known[k].host && rs[m].busid == known[k].busid
        }),
    decreases rs.len(),
{
    let known = explained(servers, used, rs);
    if rs.len() > 0 {
        let init = rs.drop_last();
        lemma_what_a_restart_adopts(servers, used, init);
        let less = explained(servers, used, init);
        assert forall|k: int|
            0 <= k < rs.len() && used.contains((#[trigger] rs[k]).port) implies known.contains(
            AttachmentModel {
                server: server_at(servers, rs[k].host),
                host: rs[k].host,
                busid: rs[k].busid,
                port: rs[k].port,
            },
        ) by {
            let a = AttachmentModel {
                server: server_at(servers, rs[k].host),
                host: rs[k].host,
                busid: rs[k].busid,
                port: rs[k].port,
            };
            if k < init.len() {
                assert(init[k] == rs[k]);
                let m = choose|m: int| 0 <= m < less.len() && less[m] == a;
                assert(known[m] == a);
            } else {
                assert(known[known.len() - 1] == a);
            }
        }
        assert forall|k: int| 0 <= k < known.len() implies used.contains(
            (#[trigger] known[k]).port,
        ) && exists|m: int|
            0 <= m < rs.len() && (#[trigger] rs[m]).port == known[k].port && rs[m].host
                == known[k].host && rs[m].busid == known[k].busid by {
            if k < less.len() {
                assert(known[k] == less[k]);
                let m = choose|m: int|
                    0 <= m < init.len() && (#[trigger] init[m]).port == known[k].port
                        && init[m].host == known[k].host && init[m].busid == known[k].busid;
                assert(rs[m] == init[m]);
            } else {
                assert(rs[rs.len() - 1].port == known[k].port);
            }
        }
    }
}

/// The name that an adopted attachment goes by: that of the first server whose host is
/// the same but for case, or the host's own.
pub proof fn lemma_attachments_are_named_after_servers(
    servers: Seq<ServerModel>,
    host: Seq<char>,
    i: int,
)
    requires
        0 <= i <= servers.len(),
        i < servers.len() ==> lowered(servers[i].host) == lowered(host),
        forall|k: int| 0 <= k < i ==> lowered((#[trigger] servers[k]).host) != lowered(host),
    ensures
        server_at(servers, host) == (if i < servers.len() {
            servers[i].name
        } else {
            host
        }),
    decreases servers.len(),
{
    if i > 0 {
        let rest = servers.drop_first();
        assert(lowered(servers[0].host) != lowered(host));
        assert forall|k: int| 0 <= k < i - 1 implies lowered((#[trigger] rest[k]).host)
            != lowered(host) by {
            assert(rest[k] == servers[k + 1]);
        }
        if i < servers.len() {
            assert(rest[i - 1] == servers[i]);
        }
        lemma_attachments_are_named_after_servers(rest, host, i - 1);
    }
}

/// Every exporter that was found is a server then: one at its address, which is its first
/// address or else its name, was there before, or it is added with its port, to be
/// attached from, for Valve's devices.
pub proof fn lemma_every_exporter_is_a_server(
    servers: Seq<ServerModel>,
    found: Seq<Discovered>,
    k: int,
)
    requires
        0 <= k < found.len(),
    ensures
        ({
            let all = with_found(servers, found);
            let host = if found[k].addrs@.len() > 0 {
                v4_text(found[k].addrs@[0]@)
            } else {
                found[k].host@
            };
            &&& exists|i: int|
                0 <= i < all.len() && lowered((#[trigger] all[i]).host) == lowered(host)
            &&& (forall|i: int|
                0 <= i < servers.len() ==> lowered((#[trigger] servers[i]).host) != lowered(host))
                && (forall|m: int|
                0 <= m < k ==> lowered(#[trigger] endpoint_text(found[m])) != lowered(host))
                ==> exists|i: int|
                0 <= i < all.len() && (#[trigger] all[i]).host == host && all[i].port
                    == found[k].port && all[i].auto_attach && all[i].name == "mdns:"@
                    + found[k].instance@ && all[i].devices == seq![
                    Pattern { vendor: Some(0x28de), product: None },
                ]
        }),
    decreases found.len(),
{
    let all = with_found(servers, found);
    let init = found.drop_last();
    let less = with_found(servers, init);
    let host = endpoint_text(found[k]);
    if k < init.len() {
        assert(init[k] == found[k]);
        lemma_every_exporter_is_a_server(servers, init, k);
        let i = choose|i: int|
            0 <= i < less.len() && lowered((#[trigger] less[i]).host) == lowered(host);
        assert(all[i] == less[i]);
        if (forall|i: int|
            0 <= i < servers.len() ==> lowered((#[trigger] servers[i]).host) != lowered(host)) && (
        forall|m: int|
            0 <= m < k ==> lowered(#[trigger] endpoint_text(found[m])) != lowered(host)) {
            assert forall|m: int| 0 <= m < k implies lowered(#[trigger] endpoint_text(init[m]))
                != lowered(host) by {
                assert(init[m] == found[m]);
                assert(lowered(endpoint_text(found[m])) != lowered(host));
            }
            let i = choose|i: int|
                0 <= i < less.len() && (#[trigger] less[i]).host == host && less[i].port
                    == found[k].port && less[i].auto_attach && less[i].name == "mdns:"@
                    + found[k].instance@ && less[i].devices == seq![
                    Pattern { vendor: Some(0x28de), product: None },
                ];
            assert(all[i] == less[i]);
        }
    } else if at_host(less, host) {
        let i = choose|i: int| 0 <= i < less.len() && same_host((#[trigger] less[i]).host, host);
        assert(all[i] == less[i]);
        lemma_hosts_come_from(servers, init, i);
        if i >= servers.len() {
            let m = choose|m: int|
                0 <= m < init.len() && less[i].host == #[trigger] endpoint_text(init[m]);
            assert(init[m] == found[m]);
            assert(lowered(endpoint_text(found[m])) == lowered(host));
        } else {
            assert(less[i] == servers[i]);
        }
    } else {
        assert(all[all.len() - 1] == found_server(found[k]));
        assert(found_server(found[k]).devices =~= seq![
            Pattern { vendor: Some(0x28de), product: None },
        ]);
    }
}

proof fn lemma_hosts_come_from(servers: Seq<ServerModel>, found: Seq<Discovered>, i: int)
    requires
        0 <= i < with_found(servers, found).len(),
    ensures
        i < servers.len() ==> with_found(servers, found)[i] == servers[i],
        i >= servers.len() ==> exists|m: int|
            0 <= m < found.len() && with_found(servers, found)[i].host == #[trigger] endpoint_text(
                found[m],
            ),
    decreases found.len(),
{
    if found.len() > 0 {
        let init = found.drop_last();
        let less = with_found(servers, init);
        lemma_configured_servers_come_first(servers, init);
        if i < less.len() {
            lemma_hosts_come_from(servers, init, i);
            if i >= servers.len() {
                let m = choose|m: int|
                    0 <= m < init.len() && less[i].host == #[trigger] endpoint_text(init[m]);
                assert(init[m] == found[m]);
                assert(with_found(servers, found)[i].host == endpoint_text(found[m]));
            }
        } else {
            assert(with_found(servers, found)[i].host == endpoint_text(found[found.len() - 1]));
        }
    }
}

/// A failure concerns one server: the next try is as many seconds away as its delay, which
/// begins with the least and doubles up to the most; what is known of the other servers,
/// and what is attached, stays.
pub proof fn lemma_a_failure_concerns_one_server(
    d: DaemonModel,
    name: Seq<char>,
    other: Seq<char>,
    now: u64,
)
    requires
        other != name,
    ensures
        ({
            let f = d.failed(name, now);
            let delay = match d.remembered(name) {
                Some(b) => b.delay,
                None => d.cfg.attach.retry_min,
            };
            &&& f.remembered(other) == d.remembered(other)
            &&& f.attached == d.attached && f.cfg == d.cfg
            &&& f.remembered(name) matches Some(b) && b.next_try == now + delay * 1_000_000_000
                && b.reported && (2 * delay <= d.cfg.attach.retry_max ==> b.delay == 2 * delay) && (
            2 * delay > d.cfg.attach.retry_max ==> b.delay == d.cfg.attach.retry_max)
        }),
{
    let delay = match d.remembered(name) {
        Some(b) => b.delay,
        None => d.cfg.attach.retry_min,
    };
    assert(0 <= delay as int * 1_000_000_000 <= 0xffff_ffff_ffff_ffff * 1_000_000_000)
        by (nonlinear_arith)
        requires
            0 <= delay <= 0xffff_ffff_ffff_ffff,
    ;
}

/// The ports that are adopted without a record: each port in use that no attachment is on,
/// in order, under a name made of its number.
pub proof fn lemma_unexplained_ports_are_adopted(known: Seq<AttachmentModel>, used: Seq<u32>)
    ensures
        others(known, used) == used.filter(
            |p: u32|
                forall|i: int| 0 <= i < known.len() ==> (#[trigger] known[i]).port != p,
        ).map_values(
            |p: u32|
                AttachmentModel {
                    server: "unknown"@,
                    host: "unknown"@,
                    busid: "vhci:"@ + dec(p as nat),
                    port: p,
                },
        ),
    decreases used.len(),
{
    reveal(Seq::filter);
    let keep = |p: u32| forall|i: int| 0 <= i < known.len() ==> (#[trigger] known[i]).port != p;
    let give = |p: u32|
        AttachmentModel {
            server: "unknown"@,
            host: "unknown"@,
            busid: "vhci:"@ + dec(p as nat),
            port: p,
        };
    if used.len() > 0 {
        lemma_unexplained_ports_are_adopted(known, used.drop_last());
        let p = used.last();
        assert(keep(p) <==> !on_port(known, p));
    }
    assert(others(known, used) =~= used.filter(keep).map_values(give));
}

} // verus!
