//! The `usbfwd.toml` model.
//!
//! Static endpoints are the primary mechanism, not a fallback. Multicast does
//! not cross a tailnet, so on the transport this project is built for there is
//! nothing to discover: the host has to be told where the exporter lives.
//! Discovery is the option, and it is off.
use crate::attach::toml::{
    self, integers_in_range, keys_differ, lemma_find, lemma_integers_that_are_read_fit,
    lemma_no_key_is_set_twice, parsed, strs, tables_view, Tab, Table, Val, Value,
};
use crate::backend::filter::{parsed_filter, DeviceFilter, Pattern, VALVE_VID};
use crate::proto::USBIP_PORT;
use crate::text::{chars, dec, dec_int, push_dec, push_dec_int, same, strings, trim, trimmed};
use vstd::prelude::*;
use vstd::string::*;

verus! {

broadcast use {vstd::slice::group_slice_axioms, vstd::array::group_array_axioms};

#[derive(Debug, Clone, PartialEq, Eq)]
pub struct Server {
    pub name: String,
    /// A MagicDNS name, a plain hostname, or a literal address.
    pub host: String,
    pub port: u16,
    pub devices: DeviceFilter,
    pub auto_attach: bool,
}

/// A server as contracts speak of it.
pub struct ServerModel {
    pub name: Seq<char>,
    pub host: Seq<char>,
    pub port: u16,
    pub devices: Seq<Pattern>,
    pub auto_attach: bool,
}

impl View for Server {
    type V = ServerModel;

    open spec fn view(&self) -> ServerModel {
        ServerModel {
            name: self.name@,
            host: self.host@,
            port: self.port,
            devices: self.devices@,
            auto_attach: self.auto_attach,
        }
    }
}

#[derive(Debug, Clone, Copy, PartialEq, Eq, Structural)]
pub struct Discovery {
    pub mdns: bool,
    /// In seconds.
    pub mdns_timeout: u64,
}

impl Discovery {
    pub open spec fn usual() -> Discovery {
        Discovery { mdns: false, mdns_timeout: 2 }
    }
}

impl Default for Discovery {
    fn default() -> (d: Self)
        ensures
            d == Discovery::usual(),
    {
        // LAN convenience only; cannot work over Tailscale.
        Discovery { mdns: false, mdns_timeout: 2 }
    }
}

/// Times are in seconds.
#[derive(Debug, Clone, PartialEq, Eq)]
pub struct Attach {
    /// How often to re-examine the world when everything is steady.
    pub poll_interval: u64,
    /// Backoff bounds for a server that will not answer.
    pub retry_min: u64,
    pub retry_max: u64,
    pub connect_timeout: u64,
    /// The `usbip` binary used to hand the socket to `vhci-hcd`.
    pub usbip: String,
    pub modprobe: bool,
    /// Stop after one device is attached. A second controller on the host is
    /// rarely what anyone wants, and the Deck's own controls should not be
    /// swept up by a wildcard.
    pub stop_after_first: bool,
}

/// The attach settings as contracts speak of them.
pub struct AttachModel {
    pub poll_interval: u64,
    pub retry_min: u64,
    pub retry_max: u64,
    pub connect_timeout: u64,
    pub usbip: Seq<char>,
    pub modprobe: bool,
    pub stop_after_first: bool,
}

impl View for Attach {
    type V = AttachModel;

    open spec fn view(&self) -> AttachModel {
        AttachModel {
            poll_interval: self.poll_interval,
            retry_min: self.retry_min,
            retry_max: self.retry_max,
            connect_timeout: self.connect_timeout,
            usbip: self.usbip@,
            modprobe: self.modprobe,
            stop_after_first: self.stop_after_first,
        }
    }
}

impl AttachModel {
    pub open spec fn usual() -> AttachModel {
        AttachModel {
            poll_interval: 5,
            retry_min: 2,
            retry_max: 60,
            connect_timeout: 3,
            usbip: "usbip"@,
            modprobe: true,
            stop_after_first: true,
        }
    }
}

impl Default for Attach {
    fn default() -> (a: Self)
        ensures
            a@ == AttachModel::usual(),
    {
        Attach {
            poll_interval: 5,
            retry_min: 2,
            retry_max: 60,
            connect_timeout: 3,
            usbip: "usbip".to_owned(),
            modprobe: true,
            stop_after_first: true,
        }
    }
}

#[derive(Debug, Clone, PartialEq, Eq)]
pub struct Config {
    pub servers: Vec<Server>,
    pub discovery: Discovery,
    pub attach: Attach,
}

/// A configuration as contracts speak of it.
pub struct ConfigModel {
    pub servers: Seq<ServerModel>,
    pub discovery: Discovery,
    pub attach: AttachModel,
}

pub open spec fn servers_view(v: Seq<Server>) -> Seq<ServerModel> {
    v.map_values(|s: Server| s@)
}

impl View for Config {
    type V = ConfigModel;

    open spec fn view(&self) -> ConfigModel {
        ConfigModel {
            servers: servers_view(self.servers@),
            discovery: self.discovery,
            attach: self.attach@,
        }
    }
}

impl ConfigModel {
    pub open spec fn usual() -> ConfigModel {
        ConfigModel {
            servers: seq![],
            discovery: Discovery::usual(),
            attach: AttachModel::usual(),
        }
    }
}

impl Default for Config {
    fn default() -> (c: Self)
        ensures
            c@ == ConfigModel::usual(),
    {
        let c = Config {
            servers: Vec::new(),
            discovery: Discovery::default(),
            attach: Attach::default(),
        };
        assert(c@.servers =~= Seq::empty());
        c
    }
}

/// What is wrong with a configuration, and in which file.
#[derive(Debug, Clone, PartialEq, Eq)]
pub struct ConfigError {
    pub path: Option<String>,
    pub message: String,
}

impl ConfigError {
    pub open spec fn text(self) -> Seq<char> {
        match self.path {
            Some(p) => p@ + ": "@ + self.message@,
            None => self.message@,
        }
    }

    pub fn to_string(&self) -> (s: String)
        ensures
            s@ == self.text(),
    {
        let mut s = String::new();
        match &self.path {
            Some(p) => {
                s.append(p.as_str());
                s.append(": ");
            },
            None => {},
        }
        s.append(self.message.as_str());
        assert(s@ =~= self.text());
        s
    }
}

// ---------------------------------------------------------------------------
// Where the file is

/// A relative path below a directory.
pub open spec fn below(dir: Seq<char>, rest: Seq<char>) -> Seq<char> {
    if dir.len() == 0 {
        rest
    } else if dir.last() == '/' {
        dir + rest
    } else {
        dir + "/"@ + rest
    }
}

fn join(dir: &str, rest: &str) -> (s: String)
    ensures
        s@ == below(dir@, rest@),
{
    let cs = chars(dir);
    let mut s = String::new();
    s.append(dir);
    if cs.len() > 0 && cs[cs.len() - 1] != '/' {
        s.append("/");
    }
    s.append(rest);
    assert(s@ =~= below(dir@, rest@));
    s
}

/// Where to look when `--config` is not given, in order: `config_home` is
/// `XDG_CONFIG_HOME` and `home` is `HOME`, where they are set.
pub fn default_paths(config_home: Option<&str>, home: Option<&str>) -> (v: Vec<String>)
    ensures
        strings(v@) == match (config_home, home) {
            (Some(dir), _) => seq![
                "/etc/usbfwd/usbfwd.toml"@,
                below(dir@, "usbfwd/usbfwd.toml"@),
                "usbfwd.toml"@,
            ],
            (None, Some(dir)) => seq![
                "/etc/usbfwd/usbfwd.toml"@,
                below(dir@, ".config/usbfwd/usbfwd.toml"@),
                "usbfwd.toml"@,
            ],
            (None, None) => seq!["/etc/usbfwd/usbfwd.toml"@, "usbfwd.toml"@],
        },
{
    let mut v: Vec<String> = Vec::new();
    v.push("/etc/usbfwd/usbfwd.toml".to_owned());
    match config_home {
        Some(dir) => v.push(join(dir, "usbfwd/usbfwd.toml")),
        None => match home {
            Some(dir) => v.push(join(dir, ".config/usbfwd/usbfwd.toml")),
            None => {},
        },
    }
    v.push("usbfwd.toml".to_owned());
    assert(strings(v@) =~= match (config_home, home) {
        (Some(dir), _) => seq![
            "/etc/usbfwd/usbfwd.toml"@,
            below(dir@, "usbfwd/usbfwd.toml"@),
            "usbfwd.toml"@,
        ],
        (None, Some(dir)) => seq![
            "/etc/usbfwd/usbfwd.toml"@,
            below(dir@, ".config/usbfwd/usbfwd.toml"@),
            "usbfwd.toml"@,
        ],
        (None, None) => seq!["/etc/usbfwd/usbfwd.toml"@, "usbfwd.toml"@],
    });
    v
}

/// The first of the paths that is a file, going by `is_file` for each of them.
pub fn find_default(paths: &[String], is_file: &[bool]) -> (r: Option<String>)
    requires
        paths@.len() == is_file@.len(),
    ensures
        match r {
            Some(p) => exists|i: int|
                0 <= i < paths@.len() && paths@[i]@ == p@ && #[trigger] is_file@[i] && forall|j: int|
                    0 <= j < i ==> !#[trigger] is_file@[j],
            None => forall|i: int| 0 <= i < is_file@.len() ==> !#[trigger] is_file@[i],
        },
{
    let mut i: usize = 0;
    while i < paths.len()
        invariant
            i <= paths@.len() == is_file@.len(),
            forall|j: int| 0 <= j < i ==> !#[trigger] is_file@[j],
        decreases paths@.len() - i,
    {
        if is_file[i] {
            return Some(paths[i].clone());
        }
        i = i + 1;
    }
    None
}

// ---------------------------------------------------------------------------
// Settings

/// A message about a line.
pub open spec fn at_line(line: int, message: Seq<char>) -> Seq<char> {
    "line "@ + dec(line as nat) + ": "@ + message
}

fn at(line: usize, message: &str) -> (s: String)
    ensures
        s@ == at_line(line as int, message@),
{
    let mut s = String::new();
    s.append("line ");
    push_dec(&mut s, line as u64);
    s.append(": ");
    s.append(message);
    assert(s@ =~= at_line(line as int, message@));
    s
}

/// A text that names a key in backquotes.
pub open spec fn of_key(key: Seq<char>, message: Seq<char>) -> Seq<char> {
    "`"@ + key + "`"@ + message
}

fn about(key: &str, message: &str, end: &str) -> (s: String)
    ensures
        s@ == of_key(key@, message@ + end@),
{
    let mut s = String::new();
    s.append("`");
    s.append(key);
    s.append("`");
    s.append(message);
    s.append(end);
    assert(s@ =~= of_key(key@, message@ + end@));
    s
}

impl Tab {
    /// What is said of a key with a value of the wrong kind.
    pub open spec fn wrong_kind(self, key: Seq<char>, wanted: Seq<char>) -> Seq<char> {
        at_line(
            self.key_line(key),
            of_key(key, wanted + self.value(key)->Some_0.kind_name()),
        )
    }

    pub open spec fn string(self, key: Seq<char>) -> Result<Option<Seq<char>>, Seq<char>> {
        match self.value(key) {
            None => Ok(None),
            Some(Val::Str(s)) => Ok(Some(s)),
            Some(_) => Err(self.wrong_kind(key, " must be a string, not a "@)),
        }
    }

    pub open spec fn integer(self, key: Seq<char>) -> Result<Option<int>, Seq<char>> {
        match self.value(key) {
            None => Ok(None),
            Some(Val::Int(i)) => Ok(Some(i)),
            Some(_) => Err(self.wrong_kind(key, " must be an integer, not a "@)),
        }
    }

    pub open spec fn boolean(self, key: Seq<char>) -> Result<Option<bool>, Seq<char>> {
        match self.value(key) {
            None => Ok(None),
            Some(Val::Bool(b)) => Ok(Some(b)),
            Some(_) => Err(self.wrong_kind(key, " must be true or false, not a "@)),
        }
    }

    pub open spec fn flag(self, key: Seq<char>, default: bool) -> Result<bool, Seq<char>> {
        match self.boolean(key) {
            Ok(Some(b)) => Ok(b),
            Ok(None) => Ok(default),
            Err(e) => Err(e),
        }
    }

    pub open spec fn seconds(self, key: Seq<char>, default: u64) -> Result<int, Seq<char>> {
        match self.integer(key) {
            Err(e) => Err(e),
            Ok(None) => Ok(default as int),
            Ok(Some(n)) => if n >= 0 {
                Ok(n)
            } else {
                Err(
                    at_line(
                        self.key_line(key),
                        of_key(key, " cannot be negative ("@ + (dec_int(n) + ")"@)),
                    ),
                )
            },
        }
    }

    /// The first key that is not among the known ones makes a table unusable.
    pub open spec fn stray(self, known: Seq<Seq<char>>) -> Option<Seq<char>> {
        let unknown = Tab::unknown(self.entries, known);
        if unknown.len() == 0 {
            None
        } else {
            Some(
                at_line(
                    unknown[0].1,
                    of_key(unknown[0].0, " is not a valid key in ["@ + (self.name + "]"@)),
                ),
            )
        }
    }
}

fn wrong_kind(t: &Table, key: &str, wanted: &str, found: &Value) -> (s: String)
    requires
        t@.value(key@) == Some(found@),
    ensures
        s@ == t@.wrong_kind(key@, wanted@),
{
    at(t.line_of(key), about(key, wanted, found.kind_name()).as_str())
}

fn string(t: &Table, key: &str) -> (r: Result<Option<String>, String>)
    ensures
        match r {
            Ok(None) => t@.string(key@) == Ok::<Option<Seq<char>>, Seq<char>>(None),
            Ok(Some(s)) => t@.string(key@) == Ok::<Option<Seq<char>>, Seq<char>>(Some(s@)),
            Err(e) => t@.string(key@) == Err::<Option<Seq<char>>, Seq<char>>(e@),
        },
{
    match t.get(key) {
        None => Ok(None),
        Some(Value::Str(s)) => Ok(Some(s.clone())),
        Some(v) => Err(wrong_kind(t, key, " must be a string, not a ", v)),
    }
}

fn integer(t: &Table, key: &str) -> (r: Result<Option<i64>, String>)
    ensures
        match r {
            Ok(None) => t@.integer(key@) == Ok::<Option<int>, Seq<char>>(None),
            Ok(Some(i)) => t@.integer(key@) == Ok::<Option<int>, Seq<char>>(Some(i as int)),
            Err(e) => t@.integer(key@) == Err::<Option<int>, Seq<char>>(e@),
        },
{
    match t.get(key) {
        None => Ok(None),
        Some(Value::Int(i)) => Ok(Some(*i)),
        Some(v) => Err(wrong_kind(t, key, " must be an integer, not a ", v)),
    }
}

fn boolean(t: &Table, key: &str, default: bool) -> (r: Result<bool, String>)
    ensures
        match r {
            Ok(b) => t@.flag(key@, default) == Ok::<bool, Seq<char>>(b),
            Err(e) => t@.flag(key@, default) == Err::<bool, Seq<char>>(e@),
        },
{
    match t.get(key) {
        None => Ok(default),
        Some(Value::Bool(b)) => Ok(*b),
        Some(v) => Err(wrong_kind(t, key, " must be true or false, not a ", v)),
    }
}

fn seconds(t: &Table, key: &str, default: u64) -> (r: Result<u64, String>)
    ensures
        match r {
            Ok(n) => t@.seconds(key@, default) == Ok::<int, Seq<char>>(n as int),
            Err(e) => t@.seconds(key@, default) == Err::<int, Seq<char>>(e@),
        },
{
    match integer(t, key) {
        Err(e) => Err(e),
        Ok(None) => Ok(default),
        Ok(Some(n)) => {
            if n >= 0 {
                Ok(n as u64)
            } else {
                let mut end = String::new();
                push_dec_int(&mut end, n);
                end.append(")");
                assert(end@ =~= dec_int(n as int) + ")"@);
                Err(at(t.line_of(key), about(key, " cannot be negative (", end.as_str()).as_str()))
            }
        },
    }
}

fn reject_unknown(t: &Table, known: &[&str]) -> (r: Result<(), String>)
    ensures
        match r {
            Ok(()) => t@.stray(strs(known@)) is None,
            Err(e) => t@.stray(strs(known@)) == Some(e@),
        },
{
    // A typo in a key would otherwise mean the setting silently does nothing,
    // which for `host` or `devices` is a long debugging session.
    let unknown = t.unknown_keys(known);
    let ghost seen = unknown@.map_values(|e: (String, usize)| (e.0@, e.1 as int));
    assert(seen.len() == unknown@.len());
    if unknown.len() == 0 {
        return Ok(());
    }
    assert(seen[0] == (unknown@[0].0@, unknown@[0].1 as int));
    let mut end = String::new();
    end.append(t.name.as_str());
    end.append("]");
    assert(end@ =~= t@.name + "]"@);
    Err(
        at(
            unknown[0].1,
            about(unknown[0].0.as_str(), " is not a valid key in [", end.as_str()).as_str(),
        ),
    )
}

// ---------------------------------------------------------------------------
// Sections

pub open spec fn server_keys() -> Seq<Seq<char>> {
    seq!["name"@, "host"@, "port"@, "devices"@, "auto_attach"@]
}

pub open spec fn discovery_keys() -> Seq<Seq<char>> {
    seq!["mdns"@, "mdns_timeout"@]
}

pub open spec fn attach_keys() -> Seq<Seq<char>> {
    seq![
        "poll_interval"@,
        "retry_min"@,
        "retry_max"@,
        "connect_timeout"@,
        "usbip"@,
        "modprobe"@,
        "stop_after_first"@,
    ]
}

/// Texts with commas between them.
pub open spec fn joined(ss: Seq<Seq<char>>) -> Seq<char>
    decreases ss.len(),
{
    if ss.len() == 0 {
        seq![]
    } else if ss.len() == 1 {
        ss[0]
    } else {
        joined(ss.drop_last()) + ","@ + ss.last()
    }
}

fn join_all(ss: &Vec<String>) -> (s: String)
    ensures
        s@ == joined(strings(ss@)),
{
    let ghost all = strings(ss@);
    let mut s = String::new();
    let mut i: usize = 0;
    assert(all.take(0) =~= Seq::empty());
    assert(s@ =~= Seq::empty());
    while i < ss.len()
        invariant
            i <= ss@.len(),
            all == strings(ss@),
            s@ == joined(all.take(i as int)),
        decreases ss@.len() - i,
    {
        let ghost had = s@;
        proof {
            assert(all.take(i + 1).drop_last() =~= all.take(i as int));
            assert(all.take(i + 1).last() == ss@[i as int]@);
            assert(all.take(i + 1)[0] == all[0]);
        }
        if i > 0 {
            s.append(",");
        }
        s.append(ss[i].as_str());
        assert(s@ =~= if i == 0 {
            ss@[0]@
        } else {
            had + ","@ + ss@[i as int]@
        });
        i = i + 1;
    }
    assert(all.take(i as int) =~= all);
    s
}

/// The host of a server: there has to be one, and not a blank.
pub open spec fn host_of(t: Tab) -> Result<Seq<char>, Seq<char>> {
    match t.string("host"@) {
        Err(e) => Err(e),
        Ok(None) => Err(at_line(t.line, "[[server]] needs a `host`"@)),
        Ok(Some(h)) => if trimmed(h).len() == 0 {
            Err(at_line(t.key_line("host"@), "`host` is empty"@))
        } else {
            Ok(h)
        },
    }
}

pub open spec fn port_of(t: Tab) -> Result<u16, Seq<char>> {
    match t.integer("port"@) {
        Err(e) => Err(e),
        Ok(None) => Ok(USBIP_PORT),
        Ok(Some(p)) => if 1 <= p <= 65535 {
            Ok(p as u16)
        } else {
            Err(
                at_line(
                    t.key_line("port"@),
                    "`port` "@ + dec_int(p) + " is out of range"@,
                ),
            )
        },
    }
}

/// A filter read for the setting of a line.
pub open spec fn filter_at(text: Seq<char>, line: int) -> Result<Seq<Pattern>, Seq<char>> {
    match parsed_filter(text) {
        Ok(ps) => Ok(ps),
        Err(e) => Err(at_line(line, e)),
    }
}

/// The devices wanted of a server: as an array of patterns or a list in one string,
/// Valve's unless it says otherwise.
pub open spec fn devices_of(t: Tab) -> Result<Seq<Pattern>, Seq<char>> {
    let line = t.key_line("devices"@);
    match t.value("devices"@) {
        None => Ok(seq![Pattern { vendor: Some(VALVE_VID), product: None }]),
        Some(Val::Array(a)) => filter_at(joined(a), line),
        Some(Val::Str(s)) => filter_at(s, line),
        Some(_) => Err(
            t.wrong_kind("devices"@, " must be an array of vid:pid patterns, not a "@),
        ),
    }
}

/// The server that a `[[server]]` table describes.
pub open spec fn read_server(t: Tab) -> Result<ServerModel, Seq<char>> {
    match t.stray(server_keys()) {
        Some(e) => Err(e),
        None => match host_of(t) {
            Err(e) => Err(e),
            Ok(host) => match port_of(t) {
                Err(e) => Err(e),
                Ok(port) => match devices_of(t) {
                    Err(e) => Err(e),
                    Ok(devices) => match t.string("name"@) {
                        Err(e) => Err(e),
                        Ok(name) => match t.flag("auto_attach"@, true) {
                            Err(e) => Err(e),
                            Ok(auto_attach) => Ok(
                                ServerModel {
                                    // The name defaults to the host.
                                    name: match name {
                                        Some(n) => n,
                                        None => host,
                                    },
                                    host,
                                    port,
                                    devices,
                                    auto_attach,
                                },
                            ),
                        },
                    },
                },
            },
        },
    }
}

/// The settings that a `[discovery]` table makes.
pub open spec fn read_discovery(t: Tab) -> Result<Discovery, Seq<char>> {
    match t.stray(discovery_keys()) {
        Some(e) => Err(e),
        None => match t.flag("mdns"@, Discovery::usual().mdns) {
            Err(e) => Err(e),
            Ok(mdns) => match t.seconds("mdns_timeout"@, Discovery::usual().mdns_timeout) {
                Err(e) => Err(e),
                Ok(n) => Ok(Discovery { mdns, mdns_timeout: n as u64 }),
            },
        },
    }
}

/// The four times of an `[attach]` table, in the order of its fields.
pub open spec fn read_times(t: Tab) -> Result<(u64, u64, u64, u64), Seq<char>> {
    let d = AttachModel::usual();
    match t.seconds("poll_interval"@, d.poll_interval) {
        Err(e) => Err(e),
        Ok(poll) => match t.seconds("retry_min"@, d.retry_min) {
            Err(e) => Err(e),
            Ok(min) => match t.seconds("retry_max"@, d.retry_max) {
                Err(e) => Err(e),
                Ok(max) => match t.seconds("connect_timeout"@, d.connect_timeout) {
                    Err(e) => Err(e),
                    Ok(connect) => Ok((poll as u64, min as u64, max as u64, connect as u64)),
                },
            },
        },
    }
}

/// The settings that an `[attach]` table makes.
pub open spec fn read_attach(t: Tab) -> Result<AttachModel, Seq<char>> {
    let d = AttachModel::usual();
    match t.stray(attach_keys()) {
        Some(e) => Err(e),
        None => match read_times(t) {
            Err(e) => Err(e),
            Ok((poll_interval, retry_min, retry_max, connect_timeout)) => match t.string(
                "usbip"@,
            ) {
                Err(e) => Err(e),
                Ok(usbip) => match t.flag("modprobe"@, d.modprobe) {
                    Err(e) => Err(e),
                    Ok(modprobe) => match t.flag("stop_after_first"@, d.stop_after_first) {
                        Err(e) => Err(e),
                        Ok(stop_after_first) => if retry_max < retry_min {
                            Err(
                                at_line(
                                    t.key_line("retry_max"@),
                                    "`retry_max` is smaller than `retry_min`"@,
                                ),
                            )
                        } else if poll_interval == 0 {
                            Err(
                                at_line(
                                    t.key_line("poll_interval"@),
                                    "`poll_interval` must be at least 1s"@,
                                ),
                            )
                        } else {
                            Ok(
                                AttachModel {
                                    poll_interval,
                                    retry_min,
                                    retry_max,
                                    connect_timeout,
                                    usbip: match usbip {
                                        Some(u) => u,
                                        None => d.usbip,
                                    },
                                    modprobe,
                                    stop_after_first,
                                },
                            )
                        },
                    },
                },
            },
        },
    }
}

fn devices_from(t: &Table) -> (r: Result<DeviceFilter, String>)
    ensures
        match r {
            Ok(f) => devices_of(t@) == Ok::<Seq<Pattern>, Seq<char>>(f@),
            Err(e) => devices_of(t@) == Err::<Seq<Pattern>, Seq<char>>(e@),
        },
{
    let text = match t.get("devices") {
        None => {
            return Ok(DeviceFilter::default());
        },
        Some(Value::Array(a)) => join_all(a),
        Some(Value::Str(s)) => s.clone(),
        Some(v) => {
            return Err(
                wrong_kind(t, "devices", " must be an array of vid:pid patterns, not a ", v),
            );
        },
    };
    match DeviceFilter::from_str(text.as_str()) {
        Ok(f) => Ok(f),
        Err(e) => Err(at(t.line_of("devices"), e.as_str())),
    }
}

fn port_from(t: &Table) -> (r: Result<u16, String>)
    ensures
        match r {
            Ok(p) => port_of(t@) == Ok::<u16, Seq<char>>(p),
            Err(e) => port_of(t@) == Err::<u16, Seq<char>>(e@),
        },
{
    match integer(t, "port") {
        Err(e) => Err(e),
        Ok(None) => Ok(USBIP_PORT),
        Ok(Some(p)) => {
            if 1 <= p && p <= 65535 {
                Ok(p as u16)
            } else {
                let mut m = String::new();
                m.append("`port` ");
                push_dec_int(&mut m, p);
                m.append(" is out of range");
                assert(m@ =~= "`port` "@ + dec_int(p as int) + " is out of range"@);
                Err(at(t.line_of("port"), m.as_str()))
            }
        },
    }
}

fn host_from(t: &Table) -> (r: Result<String, String>)
    ensures
        match r {
            Ok(h) => host_of(t@) == Ok::<Seq<char>, Seq<char>>(h@),
            Err(e) => host_of(t@) == Err::<Seq<char>, Seq<char>>(e@),
        },
{
    match string(t, "host") {
        Err(e) => Err(e),
        Ok(None) => Err(at(t.line, "[[server]] needs a `host`")),
        Ok(Some(h)) => {
            if trim(chars(h.as_str()).as_slice()).len() == 0 {
                Err(at(t.line_of("host"), "`host` is empty"))
            } else {
                Ok(h)
            }
        },
    }
}

fn server_from(t: &Table) -> (r: Result<Server, String>)
    ensures
        match r {
            Ok(s) => read_server(t@) == Ok::<ServerModel, Seq<char>>(s@),
            Err(e) => read_server(t@) == Err::<ServerModel, Seq<char>>(e@),
        },
{
    let known = ["name", "host", "port", "devices", "auto_attach"];
    assert(strs(known@) =~= server_keys());
    reject_unknown(t, &known)?;
    let host = host_from(t)?;
    let port: u16 = port_from(t)?;
    let devices = devices_from(t)?;
    let name = match string(t, "name")? {
        Some(n) => n,
        None => host.clone(),
    };
    let auto_attach = boolean(t, "auto_attach", true)?;
    Ok(Server { name, host, port, devices, auto_attach })
}

fn discovery_from(t: &Table) -> (r: Result<Discovery, String>)
    ensures
        match r {
            Ok(d) => read_discovery(t@) == Ok::<Discovery, Seq<char>>(d),
            Err(e) => read_discovery(t@) == Err::<Discovery, Seq<char>>(e@),
        },
{
    let known = ["mdns", "mdns_timeout"];
    assert(strs(known@) =~= discovery_keys());
    reject_unknown(t, &known)?;
    let d = Discovery::default();
    Ok(
        Discovery {
            mdns: boolean(t, "mdns", d.mdns)?,
            mdns_timeout: seconds(t, "mdns_timeout", d.mdns_timeout)?,
        },
    )
}

fn attach_from(t: &Table) -> (r: Result<Attach, String>)
    ensures
        match r {
            Ok(a) => read_attach(t@) == Ok::<AttachModel, Seq<char>>(a@),
            Err(e) => read_attach(t@) == Err::<AttachModel, Seq<char>>(e@),
        },
{
    let known = [
        "poll_interval",
        "retry_min",
        "retry_max",
        "connect_timeout",
        "usbip",
        "modprobe",
        "stop_after_first",
    ];
    assert(strs(known@) =~= attach_keys());
    reject_unknown(t, &known)?;
    let d = Attach::default();
    let a = Attach {
        poll_interval: seconds(t, "poll_interval", d.poll_interval)?,
        retry_min: seconds(t, "retry_min", d.retry_min)?,
        retry_max: seconds(t, "retry_max", d.retry_max)?,
        connect_timeout: seconds(t, "connect_timeout", d.connect_timeout)?,
        usbip: match string(t, "usbip")? {
            Some(u) => u,
            None => d.usbip,
        },
        modprobe: boolean(t, "modprobe", d.modprobe)?,
        stop_after_first: boolean(t, "stop_after_first", d.stop_after_first)?,
    };
    if a.retry_max < a.retry_min {
        return Err(at(t.line_of("retry_max"), "`retry_max` is smaller than `retry_min`"));
    }
    if a.poll_interval == 0 {
        return Err(at(t.line_of("poll_interval"), "`poll_interval` must be at least 1s"));
    }
    Ok(a)
}

// ---------------------------------------------------------------------------
// The whole file

impl ConfigModel {
    /// The configuration with one more section.
    pub open spec fn with(self, t: Tab) -> Result<ConfigModel, Seq<char>> {
        if t.name == "server"@ {
            match read_server(t) {
                Ok(s) => Ok(ConfigModel { servers: self.servers.push(s), ..self }),
                Err(e) => Err(e),
            }
        } else if t.name == "discovery"@ {
            match read_discovery(t) {
                Ok(discovery) => Ok(ConfigModel { discovery, ..self }),
                Err(e) => Err(e),
            }
        } else if t.name == "attach"@ {
            match read_attach(t) {
                Ok(attach) => Ok(ConfigModel { attach, ..self }),
                Err(e) => Err(e),
            }
        } else if t.name.len() == 0 {
            Err(
                at_line(
                    if t.line < 1 {
                        1
                    } else {
                        t.line
                    },
                    "settings must live under [[server]], [discovery] or [attach]"@,
                ),
            )
        } else {
            Err(at_line(t.line, "unknown section ["@ + t.name + "]"@))
        }
    }
}

/// What the sections come to, one after the other, or the first error.
pub open spec fn configured(ts: Seq<Tab>) -> Result<ConfigModel, Seq<char>>
    decreases ts.len(),
{
    if ts.len() == 0 {
        Ok(ConfigModel::usual())
    } else {
        match configured(ts.drop_last()) {
            Ok(c) => c.with(ts.last()),
            Err(e) => Err(e),
        }
    }
}

/// The name of the first server whose name an earlier one has.
pub open spec fn repeated_name(ss: Seq<ServerModel>) -> Option<Seq<char>>
    decreases ss.len(),
{
    if ss.len() == 0 {
        None
    } else {
        match repeated_name(ss.drop_last()) {
            Some(n) => Some(n),
            None => if name_taken(ss.drop_last(), ss.last().name) {
                Some(ss.last().name)
            } else {
                None
            },
        }
    }
}

/// Whether a server has that name.
pub open spec fn name_taken(ss: Seq<ServerModel>, name: Seq<char>) -> bool {
    exists|i: int| 0 <= i < ss.len() && (#[trigger] ss[i]).name == name
}

/// What a file is answered that leaves nothing to do.
pub open spec fn nothing_to_do() -> Seq<char> {
    "no [[server]] entries and discovery is off, so there is nothing to attach to. Add a [[server]] with the exporter's MagicDNS name."@
}

/// The configuration that a text describes, or what is wrong with it.
pub open spec fn parsed_config(text: Seq<char>) -> Result<ConfigModel, Seq<char>> {
    match parsed(text) {
        Err((line, message)) => Err(at_line(line, message)),
        Ok(ts) => match configured(ts) {
            Err(e) => Err(e),
            Ok(c) => if c.servers.len() == 0 && !c.discovery.mdns {
                Err(nothing_to_do())
            } else {
                match repeated_name(c.servers) {
                    Some(n) => Err("two servers are both named `"@ + n + "`"@),
                    None => Ok(c),
                }
            },
        },
    }
}

proof fn lemma_first_bad_section_decides(ts: Seq<Tab>, i: int)
    requires
        0 <= i <= ts.len(),
        configured(ts.take(i)) is Err,
    ensures
        configured(ts) == configured(ts.take(i)),
    decreases ts.len() - i,
{
    if i == ts.len() {
        assert(ts.take(i) =~= ts);
    } else {
        assert(ts.take(i + 1).drop_last() =~= ts.take(i));
        lemma_first_bad_section_decides(ts, i + 1);
    }
}

proof fn lemma_first_repeat_decides(ss: Seq<ServerModel>, i: int)
    requires
        0 <= i <= ss.len(),
        repeated_name(ss.take(i)) is Some,
    ensures
        repeated_name(ss) == repeated_name(ss.take(i)),
    decreases ss.len() - i,
{
    if i == ss.len() {
        assert(ss.take(i) =~= ss);
    } else {
        assert(ss.take(i + 1).drop_last() =~= ss.take(i));
        lemma_first_repeat_decides(ss, i + 1);
    }
}

/// Adds what a section says.
fn take_section(cfg: &mut Config, t: &Table) -> (r: Result<(), String>)
    ensures
        match r {
            Ok(()) => old(cfg)@.with(t@) == Ok::<ConfigModel, Seq<char>>(final(cfg)@),
            Err(e) => old(cfg)@.with(t@) == Err::<ConfigModel, Seq<char>>(e@),
        },
{
    let name = t.name.as_str();
    if same(name, "server") {
        let s = server_from(t)?;
        let ghost had = servers_view(cfg.servers@);
        cfg.servers.push(s);
        assert(servers_view(cfg.servers@) =~= had.push(s@));
    } else if same(name, "discovery") {
        cfg.discovery = discovery_from(t)?;
    } else if same(name, "attach") {
        cfg.attach = attach_from(t)?;
    } else if name.unicode_len() == 0 {
        let line: usize = if t.line < 1 {
            1
        } else {
            t.line
        };
        return Err(at(line, "settings must live under [[server]], [discovery] or [attach]"));
    } else {
        let mut m = String::new();
        m.append("unknown section [");
        m.append(name);
        m.append("]");
        assert(m@ =~= "unknown section ["@ + name@ + "]"@);
        return Err(at(t.line, m.as_str()));
    }
    Ok(())
}

fn first_repeat(servers: &Vec<Server>) -> (r: Option<String>)
    ensures
        match r {
            Some(n) => repeated_name(servers_view(servers@)) == Some(n@),
            None => repeated_name(servers_view(servers@)) is None,
        },
{
    let ghost all = servers_view(servers@);
    let mut i: usize = 0;
    assert(all.take(0) =~= Seq::empty());
    while i < servers.len()
        invariant
            i <= servers@.len(),
            all == servers_view(servers@),
            repeated_name(all.take(i as int)) is None,
        decreases servers@.len() - i,
    {
        let ghost done = all.take(i as int);
        proof {
            assert(all.take(i + 1).drop_last() =~= done);
            assert(all.take(i + 1).last() == servers@[i as int]@);
        }
        let mut j: usize = 0;
        while j < i
            invariant
                j <= i < servers@.len(),
                all == servers_view(servers@),
                done == all.take(i as int),
                all.take(i + 1).drop_last() == done,
                all.take(i + 1).last() == servers@[i as int]@,
                repeated_name(done) is None,
                forall|k: int|
                    0 <= k < j ==> (#[trigger] done[k]).name != servers@[i as int].name@,
            decreases i - j,
        {
            assert(done[j as int] == servers@[j as int]@);
            if same(servers[j].name.as_str(), servers[i].name.as_str()) {
                proof {
                    assert(name_taken(done, servers@[i as int].name@));
                    lemma_first_repeat_decides(all, i + 1);
                }
                return Some(servers[i].name.clone());
            }
            j = j + 1;
        }
        i = i + 1;
    }
    assert(all.take(i as int) =~= all);
    None
}

fn read(text: &str) -> (r: Result<Config, String>)
    ensures
        match r {
            Ok(c) => parsed_config(text@) == Ok::<ConfigModel, Seq<char>>(c@),
            Err(e) => parsed_config(text@) == Err::<ConfigModel, Seq<char>>(e@),
        },
{
    let tables = match toml::parse(text) {
        Ok(ts) => ts,
        Err(e) => {
            return Err(e.to_string());
        },
    };
    let ghost all = tables_view(tables@);
    let mut cfg = Config::default();
    let mut i: usize = 0;
    assert(all.take(0) =~= Seq::empty());
    while i < tables.len()
        invariant
            i <= tables@.len(),
            all == tables_view(tables@),
            parsed(text@) == Ok::<Seq<Tab>, (int, Seq<char>)>(all),
            configured(all.take(i as int)) == Ok::<ConfigModel, Seq<char>>(cfg@),
        decreases tables@.len() - i,
    {
        proof {
            assert(all.take(i + 1).drop_last() =~= all.take(i as int));
            assert(all.take(i + 1).last() == tables@[i as int]@);
        }
        match take_section(&mut cfg, &tables[i]) {
            Ok(()) => {},
            Err(e) => {
                proof {
                    lemma_first_bad_section_decides(all, i + 1);
                }
                return Err(e);
            },
        }
        i = i + 1;
    }
    assert(all.take(i as int) =~= all);
    assert(cfg@.servers.len() == cfg.servers@.len());
    if cfg.servers.len() == 0 && !cfg.discovery.mdns {
        return Err(
            "no [[server]] entries and discovery is off, so there is nothing to attach to. Add a [[server]] with the exporter's MagicDNS name.".to_owned(),
        );
    }
    match first_repeat(&cfg.servers) {
        Some(n) => {
            let mut m = String::new();
            m.append("two servers are both named `");
            m.append(n.as_str());
            m.append("`");
            assert(m@ =~= "two servers are both named `"@ + n@ + "`"@);
            Err(m)
        },
        None => Ok(cfg),
    }
}

/// Reads a configuration. An error names the line, not the file.
pub fn parse(text: &str) -> (r: Result<Config, ConfigError>)
    ensures
        match r {
            Ok(c) => parsed_config(text@) == Ok::<ConfigModel, Seq<char>>(c@),
            Err(e) => e.path is None && parsed_config(text@) == Err::<ConfigModel, Seq<char>>(
                e.message@,
            ),
        },
{
    match read(text) {
        Ok(c) => Ok(c),
        Err(message) => Err(ConfigError { path: None, message }),
    }
}

// ---------------------------------------------------------------------------
// Laws

impl ServerModel {
    pub open spec fn sound(self) -> bool {
        trimmed(self.host).len() > 0 && self.port > 0
    }
}

impl ConfigModel {
    /// The bounds that hold of every section by itself.
    pub open spec fn sections_sound(self) -> bool {
        &&& forall|i: int| 0 <= i < self.servers.len() ==> (#[trigger] self.servers[i]).sound()
        &&& self.attach.retry_min <= self.attach.retry_max
        &&& self.attach.poll_interval > 0
    }
}

proof fn lemma_sections_are_sound(ts: Seq<Tab>)
    requires
        configured(ts) is Ok,
    ensures
        configured(ts)->Ok_0.sections_sound(),
        forall|i: int| 0 <= i < ts.len() ==> known_section(#[trigger] ts[i]),
    decreases ts.len(),
{
    if ts.len() > 0 {
        lemma_sections_are_sound(ts.drop_last());
        assert(known_section(ts.last()));
        assert forall|i: int| 0 <= i < ts.len() implies known_section(#[trigger] ts[i]) by {
            if i < ts.len() - 1 {
                assert(ts.drop_last()[i] == ts[i]);
            }
        }
    }
}

proof fn lemma_names_differ(ss: Seq<ServerModel>)
    requires
        repeated_name(ss) is None,
    ensures
        forall|i: int, j: int|
            0 <= i < j < ss.len() ==> (#[trigger] ss[i]).name != (#[trigger] ss[j]).name,
    decreases ss.len(),
{
    if ss.len() > 0 {
        let rest = ss.drop_last();
        lemma_names_differ(rest);
        assert forall|i: int, j: int| 0 <= i < j < ss.len() implies (#[trigger] ss[i]).name != (
        #[trigger] ss[j]).name by {
            assert(rest[i] == ss[i]);
            if j < ss.len() - 1 {
                assert(rest[j] == ss[j]);
            } else {
                assert(!name_taken(rest, ss[j].name));
            }
        }
    }
}

/// Whether a section is one that the file may have, with no key that it does not
/// know.
pub open spec fn known_section(t: Tab) -> bool {
    ||| t.name == "server"@ && Tab::unknown(t.entries, server_keys()).len() == 0
    ||| t.name == "discovery"@ && Tab::unknown(t.entries, discovery_keys()).len() == 0
    ||| t.name == "attach"@ && Tab::unknown(t.entries, attach_keys()).len() == 0
}

/// A configuration that is accepted gives the daemon something to do and nothing
/// that cannot be: every server has a host that is not blank and a port, no two of
/// them share a name, the retry bounds are in order, and the daemon rests between
/// two looks at the world.
pub proof fn lemma_accepted_configurations_are_sound(text: Seq<char>)
    requires
        parsed_config(text) is Ok,
    ensures
        ({
            let c = parsed_config(text)->Ok_0;
            &&& c.servers.len() > 0 || c.discovery.mdns
            &&& c.sections_sound()
            &&& forall|i: int, j: int|
                0 <= i < j < c.servers.len() ==> (#[trigger] c.servers[i]).name != (
                #[trigger] c.servers[j]).name
        }),
{
    lemma_sections_are_sound(parsed(text)->Ok_0);
    lemma_names_differ(parsed_config(text)->Ok_0.servers);
}

/// Nothing in a configuration is passed over: a file with a section that is not
/// known, or a key that its section does not know, is not accepted.
pub proof fn lemma_typos_are_reported(text: Seq<char>)
    requires
        parsed(text) is Ok,
        exists|i: int|
            0 <= i < parsed(text)->Ok_0.len() && !known_section(#[trigger] parsed(text)->Ok_0[i]),
    ensures
        parsed_config(text) is Err,
{
    if parsed_config(text) is Ok {
        lemma_sections_are_sound(parsed(text)->Ok_0);
    }
}

// ---------------------------------------------------------------------------
// What is written is what results

/// Whether a table sets a key, and to what.
pub open spec fn sets(t: Tab, key: Seq<char>, v: Val) -> bool {
    exists|k: int| 0 <= k < t.entries.len() && (#[trigger] t.entries[k]).0 == key && t.entries[k].1 == v
}

/// Whether a table says nothing of a key.
pub open spec fn leaves_out(t: Tab, key: Seq<char>) -> bool {
    forall|k: int| 0 <= k < t.entries.len() ==> (#[trigger] t.entries[k]).0 != key
}

proof fn lemma_sets(t: Tab, key: Seq<char>, v: Val)
    requires
        keys_differ(t),
    ensures
        sets(t, key, v) ==> t.value(key) == Some(v),
        leaves_out(t, key) ==> t.value(key) is None,
        t.value(key) == Some(v) ==> sets(t, key, v),
        t.value(key) is None ==> leaves_out(t, key),
{
    lemma_find(t.entries, key);
    if sets(t, key, v) {
        let k = choose|k: int|
            0 <= k < t.entries.len() && (#[trigger] t.entries[k]).0 == key && t.entries[k].1 == v;
        let i = Tab::find(t.entries, key).unwrap();
        if k < i {
            assert(t.entries[k].0 != t.entries[i].0);
        } else if i < k {
            assert(t.entries[i].0 != t.entries[k].0);
        }
    }
    if t.value(key) == Some(v) {
        let i = Tab::find(t.entries, key).unwrap();
        assert(t.entries[i].0 == key && t.entries[i].1 == v);
    }
}

/// Whether a server is what its table says, setting by setting, and what holds of a
/// setting that the table leaves out: the port is 3240, the name is the host, the devices
/// are Valve's, and it is attached from.
pub open spec fn server_is(t: Tab, s: ServerModel) -> bool {
    &&& sets(t, "host"@, Val::Str(s.host))
    &&& forall|p: int| #[trigger] sets(t, "port"@, Val::Int(p)) ==> s.port == p
    &&& leaves_out(t, "port"@) ==> s.port == 3240
    &&& forall|n: Seq<char>| #[trigger] sets(t, "name"@, Val::Str(n)) ==> s.name == n
    &&& leaves_out(t, "name"@) ==> s.name == s.host
    &&& forall|b: bool| #[trigger] sets(t, "auto_attach"@, Val::Bool(b)) ==> s.auto_attach == b
    &&& leaves_out(t, "auto_attach"@) ==> s.auto_attach
    &&& forall|f: Seq<char>| #[trigger]
        sets(t, "devices"@, Val::Str(f)) ==> parsed_filter(f) == Ok::<Seq<Pattern>, Seq<char>>(
            s.devices,
        )
    &&& forall|a: Seq<Seq<char>>| #[trigger]
        sets(t, "devices"@, Val::Array(a)) ==> parsed_filter(with_commas(a)) == Ok::<
            Seq<Pattern>,
            Seq<char>,
        >(s.devices)
    &&& leaves_out(t, "devices"@) ==> s.devices == seq![
        Pattern { vendor: Some(0x28de), product: None },
    ]
}

/// Texts one after another, with a comma before each but the first.
pub open spec fn with_commas(a: Seq<Seq<char>>) -> Seq<char>
    decreases a.len(),
{
    if a.len() == 0 {
        seq![]
    } else if a.len() == 1 {
        a[0]
    } else {
        with_commas(a.drop_last()) + seq![','] + a.last()
    }
}

proof fn lemma_with_commas(a: Seq<Seq<char>>)
    ensures
        joined(a) == with_commas(a),
    decreases a.len(),
{
    reveal_strlit(",");
    assert(","@ =~= seq![',']);
    if a.len() > 1 {
        lemma_with_commas(a.drop_last());
    }
}

proof fn lemma_server_is(t: Tab)
    requires
        keys_differ(t),
        read_server(t) is Ok,
    ensures
        server_is(t, read_server(t)->Ok_0),
{
    let s = read_server(t)->Ok_0;
    lemma_sets(t, "host"@, Val::Str(s.host));
    lemma_sets(t, "port"@, Val::Int(0));
    lemma_sets(t, "name"@, Val::Int(0));
    lemma_sets(t, "auto_attach"@, Val::Int(0));
    lemma_sets(t, "devices"@, Val::Int(0));
    assert forall|p: int| #[trigger] sets(t, "port"@, Val::Int(p)) implies s.port == p by {
        lemma_sets(t, "port"@, Val::Int(p));
    }
    assert forall|n: Seq<char>| #[trigger] sets(t, "name"@, Val::Str(n)) implies s.name == n by {
        lemma_sets(t, "name"@, Val::Str(n));
    }
    assert forall|b: bool| #[trigger] sets(t, "auto_attach"@, Val::Bool(b)) implies s.auto_attach
        == b by {
        lemma_sets(t, "auto_attach"@, Val::Bool(b));
    }
    assert forall|f: Seq<char>| #[trigger] sets(t, "devices"@, Val::Str(f)) implies parsed_filter(
        f,
    ) == Ok::<Seq<Pattern>, Seq<char>>(s.devices) by {
        lemma_sets(t, "devices"@, Val::Str(f));
    }
    assert forall|a: Seq<Seq<char>>| #[trigger]
        sets(t, "devices"@, Val::Array(a)) implies parsed_filter(with_commas(a)) == Ok::<
        Seq<Pattern>,
        Seq<char>,
    >(s.devices) by {
        lemma_sets(t, "devices"@, Val::Array(a));
        lemma_with_commas(a);
    }
    if leaves_out(t, "devices"@) {
        assert(s.devices =~= seq![Pattern { vendor: Some(0x28de), product: None }]);
    }
}

/// Whether the discovery settings are what their table says, or off and two seconds.
pub open spec fn discovery_is(t: Tab, d: Discovery) -> bool {
    &&& forall|b: bool| #[trigger] sets(t, "mdns"@, Val::Bool(b)) ==> d.mdns == b
    &&& leaves_out(t, "mdns"@) ==> !d.mdns
    &&& forall|n: int| #[trigger] sets(t, "mdns_timeout"@, Val::Int(n)) && n < 0x8000_0000_0000_0000
        ==> d.mdns_timeout == n
    &&& leaves_out(t, "mdns_timeout"@) ==> d.mdns_timeout == 2
}

proof fn lemma_discovery_is(t: Tab)
    requires
        keys_differ(t),
        read_discovery(t) is Ok,
    ensures
        discovery_is(t, read_discovery(t)->Ok_0),
{
    let d = read_discovery(t)->Ok_0;
    lemma_sets(t, "mdns"@, Val::Int(0));
    lemma_sets(t, "mdns_timeout"@, Val::Int(0));
    assert forall|b: bool| #[trigger] sets(t, "mdns"@, Val::Bool(b)) implies d.mdns == b by {
        lemma_sets(t, "mdns"@, Val::Bool(b));
    }
    assert forall|n: int| #[trigger] sets(t, "mdns_timeout"@, Val::Int(n)) && n < 0x8000_0000_0000_0000 implies d.mdns_timeout
        == n by {
        lemma_sets(t, "mdns_timeout"@, Val::Int(n));
    }
}

/// Whether a time is what its table says, or the usual one.
pub open spec fn time_is(t: Tab, key: Seq<char>, v: u64, usual: u64) -> bool {
    &&& forall|n: int| #[trigger] sets(t, key, Val::Int(n)) && n < 0x8000_0000_0000_0000 ==> v == n
    &&& leaves_out(t, key) ==> v == usual
}

proof fn lemma_time_is(t: Tab, key: Seq<char>, usual: u64)
    requires
        keys_differ(t),
        t.seconds(key, usual) is Ok,
    ensures
        time_is(t, key, t.seconds(key, usual)->Ok_0 as u64, usual),
{
    lemma_sets(t, key, Val::Int(0));
    assert forall|n: int| #[trigger] sets(t, key, Val::Int(n)) && n < 0x8000_0000_0000_0000 implies t.seconds(key, usual)->Ok_0 as u64
        == n by {
        lemma_sets(t, key, Val::Int(n));
    }
}

/// Whether a switch is what its table says, or on.
pub open spec fn switch_is(t: Tab, key: Seq<char>, v: bool) -> bool {
    &&& forall|b: bool| #[trigger] sets(t, key, Val::Bool(b)) ==> v == b
    &&& leaves_out(t, key) ==> v
}

proof fn lemma_switch_is(t: Tab, key: Seq<char>)
    requires
        keys_differ(t),
        t.flag(key, true) is Ok,
    ensures
        switch_is(t, key, t.flag(key, true)->Ok_0),
{
    lemma_sets(t, key, Val::Int(0));
    assert forall|b: bool| #[trigger] sets(t, key, Val::Bool(b)) implies t.flag(key, true)->Ok_0
        == b by {
        lemma_sets(t, key, Val::Bool(b));
    }
}

/// Whether the attach settings are what their table says, setting by setting: without
/// one, the daemon looks every five seconds, retries after two seconds and after sixty at
/// the latest, gives a connection three seconds, calls `usbip`, loads the module, and is
/// content with one device.
pub open spec fn attach_is(t: Tab, a: AttachModel) -> bool {
    &&& time_is(t, "poll_interval"@, a.poll_interval, 5)
    &&& time_is(t, "retry_min"@, a.retry_min, 2)
    &&& time_is(t, "retry_max"@, a.retry_max, 60)
    &&& time_is(t, "connect_timeout"@, a.connect_timeout, 3)
    &&& forall|u: Seq<char>| #[trigger] sets(t, "usbip"@, Val::Str(u)) ==> a.usbip == u
    &&& leaves_out(t, "usbip"@) ==> a.usbip == "usbip"@
    &&& switch_is(t, "modprobe"@, a.modprobe)
    &&& switch_is(t, "stop_after_first"@, a.stop_after_first)
}

proof fn lemma_attach_is(t: Tab)
    requires
        keys_differ(t),
        read_attach(t) is Ok,
    ensures
        attach_is(t, read_attach(t)->Ok_0),
{
    let a = read_attach(t)->Ok_0;
    lemma_time_is(t, "poll_interval"@, 5);
    lemma_time_is(t, "retry_min"@, 2);
    lemma_time_is(t, "retry_max"@, 60);
    lemma_time_is(t, "connect_timeout"@, 3);
    lemma_switch_is(t, "modprobe"@);
    lemma_switch_is(t, "stop_after_first"@);
    lemma_sets(t, "usbip"@, Val::Int(0));
    assert forall|u: Seq<char>| #[trigger] sets(t, "usbip"@, Val::Str(u)) implies a.usbip
        == u by {
        lemma_sets(t, "usbip"@, Val::Str(u));
    }
}

/// The tables with that name, in order.
pub open spec fn named(ts: Seq<Tab>, name: Seq<char>) -> Seq<Tab> {
    ts.filter(|t: Tab| t.name == name)
}

/// The table of a section that the file does not have.
pub open spec fn no_table() -> Tab {
    Tab { name: seq![], line: 0, entries: seq![] }
}

/// The last table with that name, or one that sets nothing.
pub open spec fn last_named(ts: Seq<Tab>, name: Seq<char>) -> Tab {
    if named(ts, name).len() > 0 {
        named(ts, name).last()
    } else {
        no_table()
    }
}

proof fn lemma_settings_result(ts: Seq<Tab>)
    requires
        configured(ts) is Ok,
        forall|i: int| 0 <= i < ts.len() ==> keys_differ(#[trigger] ts[i]),
    ensures
        ({
            let c = configured(ts)->Ok_0;
            &&& c.servers.len() == named(ts, "server"@).len()
            &&& forall|k: int|
                0 <= k < c.servers.len() ==> server_is(
                    named(ts, "server"@)[k],
                    #[trigger] c.servers[k],
                )
            &&& discovery_is(last_named(ts, "discovery"@), c.discovery)
            &&& attach_is(last_named(ts, "attach"@), c.attach)
        }),
    decreases ts.len(),
{
    reveal(Seq::filter);
    lemma_section_names_differ();
    let c = configured(ts)->Ok_0;
    if ts.len() > 0 {
        let init = ts.drop_last();
        let t = ts.last();
        assert(ts[ts.len() - 1] == t);
        assert forall|i: int| 0 <= i < init.len() implies keys_differ(#[trigger] init[i]) by {
            assert(init[i] == ts[i]);
        }
        lemma_settings_result(init);
        let had = configured(init)->Ok_0;
        if t.name == "server"@ {
            lemma_server_is(t);
            assert forall|k: int| 0 <= k < c.servers.len() implies server_is(
                named(ts, "server"@)[k],
                #[trigger] c.servers[k],
            ) by {
                if k < had.servers.len() {
                    assert(c.servers[k] == had.servers[k]);
                    assert(named(ts, "server"@)[k] == named(init, "server"@)[k]);
                }
            }
        } else {
            assert(named(ts, "server"@) =~= named(init, "server"@));
            if t.name == "discovery"@ {
                lemma_discovery_is(t);
            } else {
                lemma_attach_is(t);
            }
        }
    } else {
        assert(named(ts, "server"@) =~= seq![]);
        assert(named(ts, "discovery"@) =~= seq![]);
        assert(named(ts, "attach"@) =~= seq![]);
    }
}

proof fn lemma_section_names_differ()
    ensures
        "server"@ != "discovery"@,
        "server"@ != "attach"@,
        "discovery"@ != "attach"@,
{
    reveal_strlit("server");
    reveal_strlit("discovery");
    reveal_strlit("attach");
    assert("server"@[0] == 's' && "discovery"@[0] == 'd' && "attach"@[0] == 'a');
}

/// What an accepted file says is what the daemon does: there is one server for each
/// `[[server]]` table, in order, and every setting that a table gives is the setting that
/// results, whichever it is; a setting that is left out is the usual one.
pub proof fn lemma_settings_are_what_the_file_says(text: Seq<char>)
    requires
        parsed_config(text) is Ok,
    ensures
        parsed(text) is Ok,
        ({
            let ts = parsed(text)->Ok_0;
            let c = parsed_config(text)->Ok_0;
            &&& c.servers.len() == named(ts, "server"@).len()
            &&& forall|k: int|
                0 <= k < c.servers.len() ==> server_is(
                    named(ts, "server"@)[k],
                    #[trigger] c.servers[k],
                )
            &&& discovery_is(last_named(ts, "discovery"@), c.discovery)
            &&& attach_is(last_named(ts, "attach"@), c.attach)
        }),
{
    lemma_no_key_is_set_twice(text);
    lemma_settings_result(parsed(text)->Ok_0);
}

/// A server that is written as it should be is accepted: if its table sets nothing but
/// known keys, each to a value of its kind, the host to a text that is not blank, the port
/// to one of 1 to 65535 and the devices to patterns, a server comes of it.
pub proof fn lemma_a_sound_server_is_accepted(t: Tab, host: Seq<char>, port: int, devices: Seq<char>)
    requires
        keys_differ(t),
        Tab::unknown(t.entries, server_keys()).len() == 0,
        sets(t, "host"@, Val::Str(host)),
        trimmed(host).len() > 0,
        leaves_out(t, "port"@) || (sets(t, "port"@, Val::Int(port)) && 1 <= port <= 65535),
        leaves_out(t, "devices"@) || (sets(t, "devices"@, Val::Str(devices)) && parsed_filter(
            devices,
        ) is Ok),
        leaves_out(t, "name"@) || sets(t, "name"@, Val::Str(host)),
        leaves_out(t, "auto_attach"@) || sets(t, "auto_attach"@, Val::Bool(false)),
    ensures
        read_server(t) is Ok,
{
    lemma_sets(t, "host"@, Val::Str(host));
    lemma_sets(t, "port"@, Val::Int(port));
    lemma_sets(t, "devices"@, Val::Str(devices));
    lemma_sets(t, "name"@, Val::Str(host));
    lemma_sets(t, "auto_attach"@, Val::Bool(false));
}

// ---------------------------------------------------------------------------
// Which files are accepted

/// Whether a table may be a server: it has no key but the five, a host that is not blank,
/// a port from 1 to 65535 if it has one, devices that are patterns if it names any, as a
/// text or as an array, a text for a name and a truth value for whether to attach, if it
/// has them.
pub open spec fn server_fine(t: Tab) -> bool {
    &&& forall|k: int|
        0 <= k < t.entries.len() ==> {
            ||| (#[trigger] t.entries[k]).0 == "name"@
            ||| t.entries[k].0 == "host"@
            ||| t.entries[k].0 == "port"@
            ||| t.entries[k].0 == "devices"@
            ||| t.entries[k].0 == "auto_attach"@
        }
    &&& exists|h: Seq<char>| #[trigger] sets(t, "host"@, Val::Str(h)) && trimmed(h).len() > 0
    &&& leaves_out(t, "port"@) || exists|p: int| #[trigger]
        sets(t, "port"@, Val::Int(p)) && 1 <= p <= 65535
    &&& {
        ||| leaves_out(t, "devices"@)
        ||| exists|f: Seq<char>| #[trigger]
            sets(t, "devices"@, Val::Str(f)) && parsed_filter(f) is Ok
        ||| exists|a: Seq<Seq<char>>| #[trigger]
            sets(t, "devices"@, Val::Array(a)) && parsed_filter(with_commas(a)) is Ok
    }
    &&& leaves_out(t, "name"@) || exists|n: Seq<char>| #[trigger] sets(t, "name"@, Val::Str(n))
    &&& leaves_out(t, "auto_attach"@) || exists|b: bool| #[trigger]
        sets(t, "auto_attach"@, Val::Bool(b))
}

/// Whether a time is a number that is not negative, if it is given.
pub open spec fn time_fine(t: Tab, key: Seq<char>) -> bool {
    leaves_out(t, key) || exists|n: int| #[trigger] sets(t, key, Val::Int(n)) && n >= 0
}

/// Whether a switch is a truth value, if it is given.
pub open spec fn switch_fine(t: Tab, key: Seq<char>) -> bool {
    leaves_out(t, key) || exists|b: bool| #[trigger] sets(t, key, Val::Bool(b))
}

/// Whether a table may be the discovery section.
pub open spec fn discovery_fine(t: Tab) -> bool {
    &&& forall|k: int|
        0 <= k < t.entries.len() ==> (#[trigger] t.entries[k]).0 == "mdns"@ || t.entries[k].0
            == "mdns_timeout"@
    &&& switch_fine(t, "mdns"@)
    &&& time_fine(t, "mdns_timeout"@)
}

/// Whether a time comes to that many seconds.
pub open spec fn time_given(t: Tab, key: Seq<char>, n: int, usual: int) -> bool {
    sets(t, key, Val::Int(n)) || leaves_out(t, key) && n == usual
}

/// Whether a table may be the attach section: known keys with values of their kinds, times
/// that are not negative, a least delay that is no more than the most, and a look at the
/// world at least every second.
pub open spec fn attach_fine(t: Tab) -> bool {
    &&& forall|k: int|
        0 <= k < t.entries.len() ==> {
            ||| (#[trigger] t.entries[k]).0 == "poll_interval"@
            ||| t.entries[k].0 == "retry_min"@
            ||| t.entries[k].0 == "retry_max"@
            ||| t.entries[k].0 == "connect_timeout"@
            ||| t.entries[k].0 == "usbip"@
            ||| t.entries[k].0 == "modprobe"@
            ||| t.entries[k].0 == "stop_after_first"@
        }
    &&& time_fine(t, "poll_interval"@)
    &&& time_fine(t, "retry_min"@)
    &&& time_fine(t, "retry_max"@)
    &&& time_fine(t, "connect_timeout"@)
    &&& leaves_out(t, "usbip"@) || exists|u: Seq<char>| #[trigger] sets(t, "usbip"@, Val::Str(u))
    &&& switch_fine(t, "modprobe"@)
    &&& switch_fine(t, "stop_after_first"@)
    &&& forall|a: int, b: int|
        #[trigger] time_given(t, "retry_min"@, a, 2) && #[trigger] time_given(
            t,
            "retry_max"@,
            b,
            60,
        ) ==> a <= b
    &&& forall|p: int| #[trigger] time_given(t, "poll_interval"@, p, 5) ==> p >= 1
}

/// Whether a section is one that a file may have, and fine.
pub open spec fn section_fine(t: Tab) -> bool {
    ||| t.name == "server"@ && server_fine(t)
    ||| t.name == "discovery"@ && discovery_fine(t)
    ||| t.name == "attach"@ && attach_fine(t)
}

proof fn lemma_none_unknown(es: Seq<(Seq<char>, Val, int)>, known: Seq<Seq<char>>)
    ensures
        Tab::unknown(es, known).len() == 0 <==> forall|k: int|
            0 <= k < es.len() ==> known.contains((#[trigger] es[k]).0),
    decreases es.len(),
{
    if es.len() > 0 {
        let init = es.drop_last();
        lemma_none_unknown(init, known);
        assert(es[es.len() - 1] == es.last());
        assert forall|k: int| 0 <= k < init.len() implies #[trigger] es[k] == init[k] by {}
        if Tab::unknown(es, known).len() == 0 {
            assert forall|k: int| 0 <= k < es.len() implies known.contains((#[trigger] es[k]).0) by {
                if k < init.len() {
                    assert(init[k] == es[k]);
                }
            }
        }
        if forall|k: int| 0 <= k < es.len() ==> known.contains((#[trigger] es[k]).0) {
            assert forall|k: int| 0 <= k < init.len() implies known.contains(
                (#[trigger] init[k]).0,
            ) by {
                assert(es[k] == init[k]);
            }
        }
    }
}

/// What a key of a table comes to, one way or the other.
proof fn lemma_given(t: Tab, key: Seq<char>)
    requires
        keys_differ(t),
    ensures
        t.value(key) is None <==> leaves_out(t, key),
        forall|v: Val| #[trigger] sets(t, key, v) <==> t.value(key) == Some(v),
{
    lemma_sets(t, key, Val::Int(0));
    assert forall|v: Val| #[trigger] sets(t, key, v) <==> t.value(key) == Some(v) by {
        lemma_sets(t, key, v);
    }
}

proof fn lemma_server_keys(t: Tab)
    ensures
        Tab::unknown(t.entries, server_keys()).len() == 0 <==> forall|k: int|
            0 <= k < t.entries.len() ==> {
                ||| (#[trigger] t.entries[k]).0 == "name"@
                ||| t.entries[k].0 == "host"@
                ||| t.entries[k].0 == "port"@
                ||| t.entries[k].0 == "devices"@
                ||| t.entries[k].0 == "auto_attach"@
            },
{
    let known = server_keys();
    lemma_none_unknown(t.entries, known);
    assert(known[0] == "name"@ && known[1] == "host"@ && known[2] == "port"@);
    assert(known[3] == "devices"@ && known[4] == "auto_attach"@);
    assert forall|x: Seq<char>| #[trigger] known.contains(x) <==> (x == "name"@ || x == "host"@ || x
        == "port"@ || x == "devices"@ || x == "auto_attach"@) by {}
}

proof fn lemma_discovery_keys(t: Tab)
    ensures
        Tab::unknown(t.entries, discovery_keys()).len() == 0 <==> forall|k: int|
            0 <= k < t.entries.len() ==> (#[trigger] t.entries[k]).0 == "mdns"@ || t.entries[k].0
                == "mdns_timeout"@,
{
    let known = discovery_keys();
    lemma_none_unknown(t.entries, known);
    assert(known[0] == "mdns"@ && known[1] == "mdns_timeout"@);
    assert forall|x: Seq<char>| #[trigger] known.contains(x) <==> (x == "mdns"@ || x
        == "mdns_timeout"@) by {}
}

proof fn lemma_attach_keys(t: Tab)
    ensures
        Tab::unknown(t.entries, attach_keys()).len() == 0 <==> forall|k: int|
            0 <= k < t.entries.len() ==> {
                ||| (#[trigger] t.entries[k]).0 == "poll_interval"@
                ||| t.entries[k].0 == "retry_min"@
                ||| t.entries[k].0 == "retry_max"@
                ||| t.entries[k].0 == "connect_timeout"@
                ||| t.entries[k].0 == "usbip"@
                ||| t.entries[k].0 == "modprobe"@
                ||| t.entries[k].0 == "stop_after_first"@
            },
{
    let known = attach_keys();
    lemma_none_unknown(t.entries, known);
    assert(known[0] == "poll_interval"@ && known[1] == "retry_min"@ && known[2] == "retry_max"@);
    assert(known[3] == "connect_timeout"@ && known[4] == "usbip"@ && known[5] == "modprobe"@);
    assert(known[6] == "stop_after_first"@);
    assert forall|x: Seq<char>| #[trigger] known.contains(x) <==> (x == "poll_interval"@ || x
        == "retry_min"@ || x == "retry_max"@ || x == "connect_timeout"@ || x == "usbip"@ || x
        == "modprobe"@ || x == "stop_after_first"@) by {}
}

proof fn lemma_server_accepted(t: Tab)
    requires
        keys_differ(t),
    ensures
        read_server(t) is Ok <==> server_fine(t),
{
    lemma_server_keys(t);
    lemma_given(t, "host"@);
    lemma_given(t, "port"@);
    lemma_given(t, "devices"@);
    lemma_given(t, "name"@);
    lemma_given(t, "auto_attach"@);
    match t.value("host"@) {
        Some(Val::Str(h)) => assert(sets(t, "host"@, Val::Str(h))),
        _ => {},
    }
    match t.value("port"@) {
        Some(Val::Int(p)) => assert(sets(t, "port"@, Val::Int(p))),
        _ => {},
    }
    match t.value("devices"@) {
        Some(Val::Str(f)) => assert(sets(t, "devices"@, Val::Str(f))),
        Some(Val::Array(a)) => {
            lemma_with_commas(a);
            assert(sets(t, "devices"@, Val::Array(a)));
        },
        _ => {},
    }
    match t.value("name"@) {
        Some(Val::Str(n)) => assert(sets(t, "name"@, Val::Str(n))),
        _ => {},
    }
    match t.value("auto_attach"@) {
        Some(Val::Bool(b)) => assert(sets(t, "auto_attach"@, Val::Bool(b))),
        _ => {},
    }
}

proof fn lemma_time_fine(t: Tab, key: Seq<char>, usual: u64)
    requires
        keys_differ(t),
        integers_in_range(t),
    ensures
        t.seconds(key, usual) is Ok <==> time_fine(t, key),
        t.seconds(key, usual) matches Ok(n) ==> 0 <= n <= u64::MAX && forall|a: int| #[trigger]
            time_given(t, key, a, usual as int) <==> a == n,
{
    lemma_given(t, key);
    match t.value(key) {
        Some(Val::Int(n)) => {
            assert(sets(t, key, Val::Int(n)));
            lemma_find(t.entries, key);
        },
        _ => {},
    }
}

proof fn lemma_switch_fine(t: Tab, key: Seq<char>, usual: bool)
    requires
        keys_differ(t),
    ensures
        t.flag(key, usual) is Ok <==> switch_fine(t, key),
{
    lemma_given(t, key);
    match t.value(key) {
        Some(Val::Bool(b)) => assert(sets(t, key, Val::Bool(b))),
        _ => {},
    }
}

proof fn lemma_discovery_accepted(t: Tab)
    requires
        keys_differ(t),
        integers_in_range(t),
    ensures
        read_discovery(t) is Ok <==> discovery_fine(t),
{
    lemma_discovery_keys(t);
    lemma_switch_fine(t, "mdns"@, Discovery::usual().mdns);
    lemma_time_fine(t, "mdns_timeout"@, Discovery::usual().mdns_timeout);
}

proof fn lemma_attach_accepted(t: Tab)
    requires
        keys_differ(t),
        integers_in_range(t),
    ensures
        read_attach(t) is Ok <==> attach_fine(t),
{
    lemma_attach_keys(t);
    lemma_time_fine(t, "poll_interval"@, 5);
    lemma_time_fine(t, "retry_min"@, 2);
    lemma_time_fine(t, "retry_max"@, 60);
    lemma_time_fine(t, "connect_timeout"@, 3);
    lemma_switch_fine(t, "modprobe"@, AttachModel::usual().modprobe);
    lemma_switch_fine(t, "stop_after_first"@, AttachModel::usual().stop_after_first);
    lemma_given(t, "usbip"@);
    match t.value("usbip"@) {
        Some(Val::Str(u)) => assert(sets(t, "usbip"@, Val::Str(u))),
        _ => {},
    }
    if read_times(t) is Ok {
        let (poll, min, max, connect) = read_times(t)->Ok_0;
        assert(time_given(t, "poll_interval"@, poll as int, 5));
        assert(time_given(t, "retry_min"@, min as int, 2));
        assert(time_given(t, "retry_max"@, max as int, 60));
    }
}

/// Which tables are accepted, by their entries: a table that is fine as the section that
/// its name says, and no other.
pub proof fn lemma_which_sections_are_accepted(c: ConfigModel, t: Tab)
    requires
        keys_differ(t),
        integers_in_range(t),
    ensures
        c.with(t) is Ok <==> section_fine(t),
{
    lemma_section_names_differ();
    lemma_server_accepted(t);
    lemma_discovery_accepted(t);
    lemma_attach_accepted(t);
}

proof fn lemma_which_are_configured(ts: Seq<Tab>)
    requires
        forall|i: int|
            0 <= i < ts.len() ==> keys_differ(#[trigger] ts[i]) && integers_in_range(ts[i]),
    ensures
        configured(ts) is Ok <==> forall|i: int|
            0 <= i < ts.len() ==> section_fine(#[trigger] ts[i]),
    decreases ts.len(),
{
    if ts.len() > 0 {
        let init = ts.drop_last();
        assert forall|i: int| 0 <= i < init.len() implies keys_differ(#[trigger] init[i])
            && integers_in_range(init[i]) by {
            assert(init[i] == ts[i]);
        }
        lemma_which_are_configured(init);
        let t = ts.last();
        assert(ts[ts.len() - 1] == t);
        match configured(init) {
            Ok(c) => {
                lemma_which_sections_are_accepted(c, t);
                assert forall|i: int| 0 <= i < init.len() implies section_fine(
                    #[trigger] ts[i],
                ) by {
                    assert(init[i] == ts[i]);
                }
            },
            Err(_) => {
                if forall|i: int| 0 <= i < ts.len() ==> section_fine(#[trigger] ts[i]) {
                    assert forall|i: int| 0 <= i < init.len() implies section_fine(
                        #[trigger] init[i],
                    ) by {
                        assert(init[i] == ts[i]);
                    }
                }
            },
        }
    }
}

/// The name that a server goes by: the one it is given, or its host.
pub open spec fn goes_by(t: Tab, name: Seq<char>) -> bool {
    sets(t, "name"@, Val::Str(name)) || leaves_out(t, "name"@) && sets(
        t,
        "host"@,
        Val::Str(name),
    )
}

/// Which files are accepted: those that can be read, whose sections are all fine, that
/// name a server or switch discovery on, and whose servers go by different names.
pub proof fn lemma_which_files_are_accepted(text: Seq<char>)
    ensures
        parsed_config(text) is Ok <==> (parsed(text) matches Ok(ts) && {
            &&& forall|i: int| 0 <= i < ts.len() ==> section_fine(#[trigger] ts[i])
            &&& named(ts, "server"@).len() > 0 || sets(
                last_named(ts, "discovery"@),
                "mdns"@,
                Val::Bool(true),
            )
            &&& forall|i: int, j: int, n: Seq<char>|
                0 <= i < j < named(ts, "server"@).len() ==> !(#[trigger] goes_by(
                    named(ts, "server"@)[i],
                    n,
                ) && #[trigger] goes_by(named(ts, "server"@)[j], n))
        }),
{
    if parsed(text) is Ok {
        let ts = parsed(text)->Ok_0;
        lemma_no_key_is_set_twice(text);
        lemma_integers_that_are_read_fit(text);
        lemma_which_are_configured(ts);
        if configured(ts) is Ok {
            let c = configured(ts)->Ok_0;
            let ss = named(ts, "server"@);
            lemma_settings_result(ts);
            lemma_mdns(ts);
            assert forall|k: int, n: Seq<char>| 0 <= k < ss.len() implies (#[trigger] goes_by(
                ss[k],
                n,
            ) <==> c.servers[k].name == n) by {
                lemma_from_named(ts, "server"@, k);
                let t = ss[k];
                assert(server_is(t, c.servers[k]));
                lemma_given(t, "name"@);
                lemma_given(t, "host"@);
                assert(sets(t, "host"@, Val::Str(c.servers[k].host)));
                let m = choose|m: int| 0 <= m < ts.len() && ts[m] == t;
                assert(section_fine(ts[m]));
                lemma_section_names_differ();
                assert(server_fine(t));
            }
            if repeated_name(c.servers) is None {
                lemma_names_differ(c.servers);
                assert forall|i: int, j: int, n: Seq<char>| 0 <= i < j < ss.len() implies !(
                #[trigger] goes_by(ss[i], n) && #[trigger] goes_by(ss[j], n)) by {
                    assert(c.servers[i].name != c.servers[j].name);
                }
            } else {
                let (i, j) = lemma_repeated(c.servers);
                let n = c.servers[i].name;
                assert(goes_by(ss[i], n) && goes_by(ss[j], n));
            }
        }
    }
}

proof fn lemma_repeated(ss: Seq<ServerModel>) -> (r: (int, int))
    requires
        repeated_name(ss) is Some,
    ensures
        0 <= r.0 < r.1 < ss.len(),
        ss[r.0].name == ss[r.1].name,
    decreases ss.len(),
{
    let init = ss.drop_last();
    if repeated_name(init) is Some {
        let r = lemma_repeated(init);
        assert(ss[r.0] == init[r.0] && ss[r.1] == init[r.1]);
        r
    } else {
        let i = choose|i: int| 0 <= i < init.len() && (#[trigger] init[i]).name == ss.last().name;
        assert(ss[i] == init[i]);
        (i, ss.len() - 1)
    }
}

proof fn lemma_from_named(ts: Seq<Tab>, name: Seq<char>, k: int)
    requires
        0 <= k < named(ts, name).len(),
    ensures
        named(ts, name)[k].name == name,
        ts.contains(named(ts, name)[k]),
    decreases ts.len(),
{
    reveal(Seq::filter);
    if ts.len() > 0 {
        let init = ts.drop_last();
        if k < named(init, name).len() {
            lemma_from_named(init, name, k);
            let m = choose|m: int| 0 <= m < init.len() && init[m] == named(init, name)[k];
            assert(ts[m] == named(ts, name)[k]);
        } else {
            assert(ts[ts.len() - 1] == named(ts, name)[k]);
        }
    }
}

proof fn lemma_mdns(ts: Seq<Tab>)
    requires
        configured(ts) is Ok,
        forall|i: int| 0 <= i < ts.len() ==> keys_differ(#[trigger] ts[i]),
    ensures
        configured(ts)->Ok_0.discovery.mdns <==> sets(
            last_named(ts, "discovery"@),
            "mdns"@,
            Val::Bool(true),
        ),
{
    let c = configured(ts)->Ok_0;
    let t = last_named(ts, "discovery"@);
    lemma_settings_result(ts);
    assert(discovery_is(t, c.discovery));
    if named(ts, "discovery"@).len() > 0 {
        lemma_from_named(ts, "discovery"@, named(ts, "discovery"@).len() - 1);
        let m = choose|m: int| 0 <= m < ts.len() && ts[m] == t;
        assert(keys_differ(ts[m]));
        lemma_given(t, "mdns"@);
        lemma_discovery_kinds(ts, m);
        match t.value("mdns"@) {
            Some(Val::Bool(b)) => assert(sets(t, "mdns"@, Val::Bool(b))),
            _ => {},
        }
    } else {
        assert(leaves_out(t, "mdns"@));
    }
}

proof fn lemma_discovery_kinds(ts: Seq<Tab>, m: int)
    requires
        configured(ts) is Ok,
        0 <= m < ts.len(),
        ts[m].name == "discovery"@,
    ensures
        read_discovery(ts[m]) is Ok,
    decreases ts.len(),
{
    lemma_section_names_differ();
    if m < ts.len() - 1 {
        assert(ts.drop_last()[m] == ts[m]);
        lemma_discovery_kinds(ts.drop_last(), m);
    }
}

/// A path below a directory begins with the directory and ends in what is below it, with
/// one slash between them, which may be the directory's own.
pub proof fn lemma_paths_below(dir: Seq<char>, rest: Seq<char>)
    requires
        dir.len() > 0,
    ensures
        ({
            let p = below(dir, rest);
            let n = p.len() - rest.len();
            &&& p.take(dir.len() as int) == dir
            &&& p.skip(n) == rest
            &&& p[n - 1] == '/'
            &&& n == dir.len() + (if dir.last() == '/' {
                0int
            } else {
                1
            })
        }),
{
    reveal_strlit("/");
    let p = below(dir, rest);
    let n = p.len() - rest.len();
    assert(p.take(dir.len() as int) =~= dir);
    assert(p.skip(n) =~= rest);
}

/// Whether a message is about a line: it begins with the word and the number.
pub open spec fn is_about_line(message: Seq<char>, line: int) -> bool {
    let head = "line "@ + dec(line as nat) + ": "@;
    head.len() <= message.len() && message.take(head.len() as int) == head
}

proof fn lemma_at_line(line: int, message: Seq<char>)
    ensures
        is_about_line(at_line(line, message), line),
{
    let head = "line "@ + dec(line as nat) + ": "@;
    assert(at_line(line, message) =~= head + message);
    assert((head + message).take(head.len() as int) =~= head);
}

/// What is wrong with a setting is reported with the line that the setting stands on: a
/// value of the wrong kind, a number that is negative where it cannot be, and a port that
/// is out of range; and a key that is not known with the line of that key.
pub proof fn lemma_errors_name_the_line_of_the_setting(t: Tab, i: int, known: Seq<Seq<char>>)
    requires
        keys_differ(t),
        0 <= i < t.entries.len(),
    ensures
        ({
            let (key, v, line) = t.entries[i];
            &&& !(v is Str) ==> (t.string(key) matches Err(e) && is_about_line(e, line))
            &&& !(v is Int) ==> (t.integer(key) matches Err(e) && is_about_line(e, line))
            &&& !(v is Bool) ==> (t.boolean(key) matches Err(e) && is_about_line(e, line))
            &&& (v matches Val::Int(n) && n < 0) ==> (t.seconds(key, 0) matches Err(e)
                && is_about_line(e, line))
            &&& key == "port"@ && (v matches Val::Int(n) && (n < 1 || n > 65535)) ==> (port_of(
                t,
            ) matches Err(e) && is_about_line(e, line))
            &&& !known.contains(key) && (forall|k: int|
                0 <= k < i ==> known.contains((#[trigger] t.entries[k]).0)) ==> (t.stray(
                known,
            ) matches Some(e) && is_about_line(e, line))
        }),
{
    let (key, v, line) = t.entries[i];
    lemma_sets(t, key, v);
    assert(sets(t, key, v));
    lemma_find(t.entries, key);
    let f = Tab::find(t.entries, key).unwrap();
    if f < i {
        assert(t.entries[f].0 != t.entries[i].0);
    } else if i < f {
        assert(t.entries[i].0 != t.entries[f].0);
    }
    assert(t.key_line(key) == line);
    assert forall|m: Seq<char>| is_about_line(#[trigger] at_line(line, m), line) by {
        lemma_at_line(line, m);
    }
    if !known.contains(key) && (forall|k: int|
        0 <= k < i ==> known.contains((#[trigger] t.entries[k]).0)) {
        lemma_first_unknown(t.entries, known, i);
    }
}

proof fn lemma_first_unknown(
    es: Seq<(Seq<char>, Val, int)>,
    known: Seq<Seq<char>>,
    i: int,
)
    requires
        0 <= i < es.len(),
        !known.contains(es[i].0),
        forall|k: int| 0 <= k < i ==> known.contains((#[trigger] es[k]).0),
    ensures
        Tab::unknown(es, known).len() > 0,
        Tab::unknown(es, known)[0] == (es[i].0, es[i].2),
    decreases es.len(),
{
    let init = es.drop_last();
    if i < init.len() {
        assert(init[i] == es[i]);
        assert forall|k: int| 0 <= k < i implies known.contains((#[trigger] init[k]).0) by {
            assert(init[k] == es[k]);
        }
        lemma_first_unknown(init, known, i);
    } else {
        assert forall|k: int| 0 <= k < init.len() implies known.contains(
            (#[trigger] init[k]).0,
        ) by {
            assert(init[k] == es[k]);
        }
        lemma_none_unknown(init, known);
    }
}

} // verus!
