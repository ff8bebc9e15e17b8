//! The exporter's command line.
use crate::backend::filter::{parsed_filter, DeviceFilter, Pattern, VALVE_VID};
use crate::backend::usbfs::DEFAULT_MAX_TRANSFER;
use crate::common::log::{
    asked_level, bounded, cluster, is_cluster, level_for, louder, quieter, Level,
};
use crate::common::netif::{parse_ip, spelled_ip, Ip};
use crate::proto::USBIP_PORT;
use crate::server::chord::{parsed_chord, Chord};
use crate::server::config::{Bind, Config};
use crate::text::{chars, parse_nat, parsed_nat, same, strings};
use vstd::prelude::*;
use vstd::string::*;

verus! {

broadcast use vstd::slice::group_slice_axioms;

/// What the command line asks for.
#[derive(Debug, Clone, PartialEq, Eq)]
pub struct Args {
    pub cfg: Config,
    /// Print the exportable devices and exit.
    pub list: bool,
    /// Print the buttons that devices send and exit.
    pub chord_probe: bool,
    pub level: Option<Level>,
}

#[derive(Debug, Clone, PartialEq, Eq)]
pub enum Parsed {
    Help,
    Version,
    Run(Args),
}

/// What has been asked for, as contracts speak of it.
pub struct Settings {
    pub binds: Seq<Bind>,
    pub port: u16,
    pub filter: Seq<Pattern>,
    pub max_transfer: usize,
    pub mdns: bool,
    pub name: Option<Seq<char>>,
    pub prefetch: bool,
    pub chord: Option<u64>,
    pub list: bool,
    pub chord_probe: bool,
    pub verbosity: int,
}

/// What a whole command line comes to.
pub enum Asked {
    Help,
    Version,
    Run(Settings),
}

/// Nothing has been asked for yet.
pub open spec fn no_settings() -> Settings {
    Settings {
        binds: Seq::empty(),
        port: USBIP_PORT,
        filter: seq![Pattern { vendor: Some(VALVE_VID), product: None }],
        max_transfer: DEFAULT_MAX_TRANSFER,
        mdns: false,
        name: None,
        prefetch: false,
        chord: None,
        list: false,
        chord_probe: false,
        verbosity: 0,
    }
}

/// The options that are followed by a value.
pub open spec fn takes_value(a: Seq<char>) -> bool {
    a == "--bind"@ || a == "--port"@ || a == "--allow"@ || a == "--max-transfer"@ || a
        == "--name"@ || a == "--toggle-chord"@
}

impl Settings {
    /// What an option with the value `v` adds; `ip` is the address that `v` spells,
    /// if it spells one. The message says what is wrong with the value.
    pub open spec fn with_value(self, a: Seq<char>, v: Seq<char>, ip: Option<Ip>) -> Result<
        Settings,
        Seq<char>,
    > {
        if a == "--bind"@ {
            if v == "tailscale"@ || v == "auto"@ {
                Ok(Settings { binds: self.binds.push(Bind::Tailscale), ..self })
            } else if v == "any"@ || v == "all"@ {
                Ok(Settings { binds: self.binds.push(Bind::Any), ..self })
            } else {
                match ip {
                    Some(i) => Ok(Settings { binds: self.binds.push(Bind::Addr(i)), ..self }),
                    None => Err("`"@ + v + "` is not an IP address"@),
                }
            }
        } else if a == "--port"@ {
            match parsed_nat(v, 10, 0xffff) {
                Some(n) => Ok(Settings { port: n as u16, ..self }),
                None => Err("`"@ + v + "` is not a port"@),
            }
        } else if a == "--allow"@ {
            match parsed_filter(v) {
                Ok(f) => Ok(Settings { filter: f, ..self }),
                Err(e) => Err(e),
            }
        } else if a == "--max-transfer"@ {
            match parsed_nat(v, 10, usize::MAX as nat) {
                Some(n) => Ok(Settings { max_transfer: n as usize, ..self }),
                None => Err("`"@ + v + "` is not a size"@),
            }
        } else if a == "--name"@ {
            Ok(Settings { name: Some(v), ..self })
        } else {
            match parsed_chord(v) {
                Ok(m) => Ok(Settings { chord: Some(m), ..self }),
                Err(e) => Err(e),
            }
        }
    }

    /// What an option without a value adds, if there is such an option.
    pub open spec fn with_flag(self, a: Seq<char>) -> Option<Settings> {
        if a == "--mdns"@ {
            Some(Settings { mdns: true, ..self })
        } else if a == "--prefetch"@ {
            Some(Settings { prefetch: true, ..self })
        } else if a == "--list"@ {
            Some(Settings { list: true, ..self })
        } else if a == "--chord-probe"@ {
            Some(Settings { chord_probe: true, ..self })
        } else if a == "--verbose"@ {
            Some(Settings { verbosity: bounded(self.verbosity + 1), ..self })
        } else if is_cluster(a) {
            Some(Settings { verbosity: bounded(self.verbosity + a.len() - 1), ..self })
        } else if a == "-q"@ || a == "--quiet"@ {
            Some(Settings { verbosity: bounded(self.verbosity - 2), ..self })
        } else {
            None
        }
    }

    /// What the arguments from `i` on come to. `addrs` are the addresses that the
    /// arguments spell, as far as they do.
    pub open spec fn with_args(
        self,
        argv: Seq<Seq<char>>,
        addrs: Seq<Option<Ip>>,
        i: int,
    ) -> Result<Asked, Seq<char>>
        decreases argv.len() - i,
    {
        if i >= argv.len() {
            Ok(Asked::Run(self))
        } else {
            let a = argv[i];
            if a == "-h"@ || a == "--help"@ {
                Ok(Asked::Help)
            } else if a == "-V"@ || a == "--version"@ {
                Ok(Asked::Version)
            } else if takes_value(a) {
                if i + 1 >= argv.len() {
                    Err(a + " needs a value"@)
                } else {
                    match self.with_value(a, argv[i + 1], addrs[i + 1]) {
                        Ok(s) => s.with_args(argv, addrs, i + 2),
                        Err(e) => Err(e),
                    }
                }
            } else {
                match self.with_flag(a) {
                    Some(s) => s.with_args(argv, addrs, i + 1),
                    None => Err("unknown option `"@ + a + "` (try --help)"@),
                }
            }
        }
    }
}

/// Whether `args` is what the settings come to. Who says nothing about addresses
/// gets the tailnet, and who says nothing about logging changes nothing there.
pub open spec fn settled(args: Args, s: Settings) -> bool {
    &&& args.cfg.binds@ == (if s.binds.len() == 0 {
        seq![Bind::Tailscale]
    } else {
        s.binds
    })
    &&& args.cfg.port == s.port
    &&& args.cfg.filter@ == s.filter
    &&& args.cfg.max_transfer == s.max_transfer
    &&& args.cfg.mdns == s.mdns
    &&& opt_view(args.cfg.name) == s.name
    &&& args.cfg.prefetch == s.prefetch
    &&& chord_bits(args.cfg.toggle_chord) == s.chord
    &&& args.list == s.list
    &&& args.chord_probe == s.chord_probe
    &&& args.level == asked_level(s.verbosity)
}

pub open spec fn opt_view(s: Option<String>) -> Option<Seq<char>> {
    match s {
        Some(t) => Some(t@),
        None => None,
    }
}

pub open spec fn chord_bits(c: Option<Chord>) -> Option<u64> {
    match c {
        Some(c) => Some(c.bits()),
        None => None,
    }
}

/// What has been read so far.
struct Gathered {
    cfg: Config,
    list: bool,
    chord_probe: bool,
    verbosity: i32,
}

impl View for Gathered {
    type V = Settings;

    closed spec fn view(&self) -> Settings {
        Settings {
            binds: self.cfg.binds@,
            port: self.cfg.port,
            filter: self.cfg.filter@,
            max_transfer: self.cfg.max_transfer,
            mdns: self.cfg.mdns,
            name: opt_view(self.cfg.name),
            prefetch: self.cfg.prefetch,
            chord: chord_bits(self.cfg.toggle_chord),
            list: self.list,
            chord_probe: self.chord_probe,
            verbosity: self.verbosity as int,
        }
    }
}

fn quoted(v: &str, what: &str) -> (s: String)
    ensures
        s@ == "`"@ + v@ + what@,
{
    let mut s = String::new();
    s.append("`");
    s.append(v);
    s.append(what);
    assert(s@ =~= "`"@ + v@ + what@);
    s
}

fn is_valued(a: &str) -> (r: bool)
    ensures
        r == takes_value(a@),
{
    same(a, "--bind") || same(a, "--port") || same(a, "--allow") || same(a, "--max-transfer")
        || same(a, "--name") || same(a, "--toggle-chord")
}

fn unknown_option(a: &str) -> (e: String)
    ensures
        e@ == "unknown option `"@ + a@ + "` (try --help)"@,
{
    let mut e = String::new();
    e.append("unknown option `");
    e.append(a);
    e.append("` (try --help)");
    assert(e@ =~= "unknown option `"@ + a@ + "` (try --help)"@);
    e
}

impl Gathered {
    fn take_value(&mut self, a: &str, v: &str, ip: Option<Ip>) -> (r: Result<(), String>)
        requires
            takes_value(a@),
        ensures
            old(self)@.with_value(a@, v@, ip) == (match r {
                Ok(_) => Ok::<Settings, Seq<char>>(final(self)@),
                Err(e) => Err::<Settings, Seq<char>>(e@),
            }),
    {
        if same(a, "--bind") {
            if same(v, "tailscale") || same(v, "auto") {
                self.cfg.binds.push(Bind::Tailscale);
            } else if same(v, "any") || same(v, "all") {
                self.cfg.binds.push(Bind::Any);
            } else {
                match ip {
                    Some(i) => self.cfg.binds.push(Bind::Addr(i)),
                    None => {
                        return Err(quoted(v, "` is not an IP address"));
                    },
                }
            }
        } else if same(a, "--port") {
            match parse_nat(&chars(v), 10, 0xffff) {
                Some(n) => {
                    self.cfg.port = n as u16;
                },
                None => {
                    return Err(quoted(v, "` is not a port"));
                },
            }
        } else if same(a, "--allow") {
            match DeviceFilter::from_str(v) {
                Ok(f) => {
                    self.cfg.filter = f;
                },
                Err(e) => {
                    return Err(e);
                },
            }
        } else if same(a, "--max-transfer") {
            match parse_nat(&chars(v), 10, usize::MAX as u64) {
                Some(n) => {
                    self.cfg.max_transfer = n as usize;
                },
                None => {
                    return Err(quoted(v, "` is not a size"));
                },
            }
        } else if same(a, "--name") {
            self.cfg.name = Some(v.to_owned());
        } else {
            match Chord::from_str(v) {
                Ok(c) => {
                    self.cfg.toggle_chord = Some(c);
                },
                Err(e) => {
                    return Err(e);
                },
            }
        }
        Ok(())
    }

    /// Takes in an option without a value. Returns whether there is such an option.
    fn take_flag(&mut self, a: &str) -> (known: bool)
        ensures
            match old(self)@.with_flag(a@) {
                Some(s) => known && final(self)@ == s,
                None => !known,
            },
    {
        let cs = chars(a);
        if same(a, "--mdns") {
            self.cfg.mdns = true;
        } else if same(a, "--prefetch") {
            self.cfg.prefetch = true;
        } else if same(a, "--list") {
            self.list = true;
        } else if same(a, "--chord-probe") {
            self.chord_probe = true;
        } else if same(a, "--verbose") {
            self.verbosity = louder(self.verbosity, 1);
        } else if cluster(&cs) {
            // -v, -vv, -vvv as one cluster.
            self.verbosity = louder(self.verbosity, cs.len() - 1);
        } else if same(a, "-q") || same(a, "--quiet") {
            self.verbosity = quieter(self.verbosity);
        } else {
            return false;
        }
        true
    }
}

/// The addresses that the arguments spell, as far as they do.
pub open spec fn spelled(argv: Seq<Seq<char>>) -> Seq<Option<Ip>> {
    argv.map_values(|a: Seq<char>| spelled_ip(a))
}

/// Whether `r` is what a command line comes to.
pub open spec fn answers(r: Result<Parsed, String>, asked: Result<Asked, Seq<char>>) -> bool {
    match asked {
        Ok(Asked::Help) => r == Ok::<Parsed, String>(Parsed::Help),
        Ok(Asked::Version) => r == Ok::<Parsed, String>(Parsed::Version),
        Ok(Asked::Run(s)) => r is Ok && (r->Ok_0 matches Parsed::Run(a) && settled(a, s)),
        Err(e) => r is Err && r->Err_0@ == e,
    }
}

/// Reads a command line, of which the first argument is the program.
pub fn parse_args(argv: &Vec<String>) -> (r: Result<Parsed, String>)
    ensures
        answers(r, no_settings().with_args(strings(argv@), spelled(strings(argv@)), 1)),
{
    let ghost want = spelled(strings(argv@));
    let mut addrs: Vec<Option<Ip>> = Vec::new();
    let mut i: usize = 0;
    while i < argv.len()
        invariant
            i <= argv@.len(),
            want == spelled(strings(argv@)),
            addrs@ == want.take(i as int),
        decreases argv@.len() - i,
    {
        let a = argv[i].as_str();
        assert(want[i as int] == spelled_ip(a@));
        addrs.push(parse_ip(a));
        i = i + 1;
        assert(addrs@ =~= want.take(i as int));
    }
    assert(addrs@ =~= want);
    parse_args_with(argv, &addrs)
}

/// The same, given the addresses that the arguments spell, one entry for each.
pub fn parse_args_with(argv: &Vec<String>, addrs: &Vec<Option<Ip>>) -> (r: Result<Parsed, String>)
    requires
        argv@.len() == addrs@.len(),
    ensures
        answers(r, no_settings().with_args(strings(argv@), addrs@, 1)),
{
    let ghost all = strings(argv@);
    let ghost asked = no_settings().with_args(all, addrs@, 1);
    let mut g = Gathered {
        cfg: Config::default(),
        list: false,
        chord_probe: false,
        verbosity: 0,
    };
    g.cfg.binds = Vec::new();
    let mut i: usize = 1;
    assert(g.cfg.binds@ =~= Seq::empty());
    while i < argv.len()
        invariant
            argv@.len() == addrs@.len(),
            all == strings(argv@),
            i >= 1,
            asked == no_settings().with_args(all, addrs@, 1),
            asked == g@.with_args(all, addrs@, i as int),
        decreases argv@.len() - i,
    {
        let a = argv[i].as_str();
        assert(all[i as int] == a@);
        if same(a, "-h") || same(a, "--help") {
            return Ok(Parsed::Help);
        }
        if same(a, "-V") || same(a, "--version") {
            return Ok(Parsed::Version);
        }
        if is_valued(a) {
            if i + 1 >= argv.len() {
                let mut e = String::new();
                e.append(a);
                e.append(" needs a value");
                assert(e@ =~= a@ + " needs a value"@);
                return Err(e);
            }
            assert(all[i + 1] == argv@[i + 1]@);
            match g.take_value(a, argv[i + 1].as_str(), addrs[i + 1]) {
                Ok(_) => {},
                Err(e) => {
                    return Err(e);
                },
            }
            i = i + 2;
        } else if g.take_flag(a) {
            i = i + 1;
        } else {
            return Err(unknown_option(a));
        }
    }
    let ghost s = g@;
    assert(asked == Ok::<Asked, Seq<char>>(Asked::Run(s)));
    if g.cfg.binds.len() == 0 {
        g.cfg.binds.push(Bind::Tailscale);
        assert(g.cfg.binds@ =~= seq![Bind::Tailscale]);
    }
    let level = level_for(g.verbosity);
    Ok(Parsed::Run(Args { cfg: g.cfg, list: g.list, chord_probe: g.chord_probe, level }))
}

// ---------------------------------------------------------------------------
// Laws

/// Whether a command line asks to run, and with what.
pub open spec fn runs(argv: Seq<Seq<char>>, a: Args) -> bool {
    answers(Ok(Parsed::Run(a)), no_settings().with_args(argv, spelled(argv), 1))
}

/// Whether a command line asks to run at all.
pub open spec fn can_run(argv: Seq<Seq<char>>) -> bool {
    no_settings().with_args(argv, spelled(argv), 1) matches Ok(Asked::Run(_))
}

/// The settings, one by one.
pub enum Setting {
    Binds,
    Port,
    Filter,
    MaxTransfer,
    Mdns,
    Name,
    Prefetch,
    Chord,
    List,
    ChordProbe,
    Level,
}

/// Whether two command lines ask for the same in everything but one setting.
pub open spec fn same_but(a: Args, b: Args, s: Setting) -> bool {
    &&& s is Binds || a.cfg.binds@ == b.cfg.binds@
    &&& s is Port || a.cfg.port == b.cfg.port
    &&& s is Filter || a.cfg.filter@ == b.cfg.filter@
    &&& s is MaxTransfer || a.cfg.max_transfer == b.cfg.max_transfer
    &&& s is Mdns || a.cfg.mdns == b.cfg.mdns
    &&& s is Name || opt_view(a.cfg.name) == opt_view(b.cfg.name)
    &&& s is Prefetch || a.cfg.prefetch == b.cfg.prefetch
    &&& s is Chord || chord_bits(a.cfg.toggle_chord) == chord_bits(b.cfg.toggle_chord)
    &&& s is List || a.list == b.list
    &&& s is ChordProbe || a.chord_probe == b.chord_probe
    &&& s is Level || a.level == b.level
}

/// Arguments are taken one after the other: what more are given continues from what the
/// ones before came to.
proof fn lemma_args_continue(
    s: Settings,
    argv: Seq<Seq<char>>,
    more: Seq<Seq<char>>,
    i: int,
)
    requires
        0 <= i <= argv.len(),
    ensures
        match s.with_args(argv, spelled(argv), i) {
            Ok(Asked::Run(t)) => s.with_args(argv + more, spelled(argv + more), i) == t.with_args(
                argv + more,
                spelled(argv + more),
                argv.len() as int,
            ),
            Ok(other) => s.with_args(argv + more, spelled(argv + more), i) == Ok::<
                Asked,
                Seq<char>,
            >(other),
            Err(_) => true,
        },
    decreases argv.len() - i,
{
    if i < argv.len() {
        let all = argv + more;
        let a = argv[i];
        assert(all[i] == a);
        if takes_value(a) {
            if i + 1 < argv.len() {
                assert(all[i + 1] == argv[i + 1]);
                assert(spelled(all)[i + 1] == spelled(argv)[i + 1]);
                match s.with_value(a, argv[i + 1], spelled(argv)[i + 1]) {
                    Ok(t) => lemma_args_continue(t, argv, more, i + 2),
                    Err(_) => {},
                }
            }
        } else {
            match s.with_flag(a) {
                Some(t) => lemma_args_continue(t, argv, more, i + 1),
                None => {},
            }
        }
    }
}

/// A program that is given no arguments listens on the tailnet, on port 3240, offers the
/// devices of vendor `28de` and no others, takes transfers of up to a megabyte, and does
/// nothing that is not asked for.
pub proof fn lemma_what_is_asked_by_default(program: Seq<char>, a: Args)
    requires
        runs(seq![program], a),
    ensures
        a.cfg.binds@ == seq![Bind::Tailscale],
        a.cfg.port == 3240,
        a.cfg.filter@ == seq![Pattern { vendor: Some(0x28de), product: None }],
        a.cfg.max_transfer == 1048576,
        !a.cfg.mdns && a.cfg.name is None && !a.cfg.prefetch && a.cfg.toggle_chord is None,
        !a.list && !a.chord_probe && a.level is None,
{
}

/// `-h` and `-V` are answered wherever they stand as an option, whatever follows.
pub proof fn lemma_help_is_always_answered(argv: Seq<Seq<char>>, rest: Seq<Seq<char>>)
    requires
        argv.len() > 0,
        can_run(argv),
    ensures
        ({
            let asked = |h: Seq<char>|
                {
                    let all = argv.push(h) + rest;
                    no_settings().with_args(all, spelled(all), 1)
                };
            &&& asked("-h"@) == Ok::<Asked, Seq<char>>(Asked::Help)
            &&& asked("--help"@) == Ok::<Asked, Seq<char>>(Asked::Help)
            &&& asked("-V"@) == Ok::<Asked, Seq<char>>(Asked::Version)
            &&& asked("--version"@) == Ok::<Asked, Seq<char>>(Asked::Version)
        }),
{
    reveal_strlit("-h");
    reveal_strlit("--help");
    reveal_strlit("-V");
    reveal_strlit("--version");
    assert("-V"@[1] == 'V' && "-h"@[1] == 'h');
    lemma_help_at(argv, "-h"@, rest);
    lemma_help_at(argv, "--help"@, rest);
    lemma_help_at(argv, "-V"@, rest);
    lemma_help_at(argv, "--version"@, rest);
}

proof fn lemma_help_at(argv: Seq<Seq<char>>, h: Seq<char>, rest: Seq<Seq<char>>)
    requires
        argv.len() > 0,
        can_run(argv),
    ensures
        ({
            let all = argv.push(h) + rest;
            let t = no_settings().with_args(argv, spelled(argv), 1)->Ok_0->Run_0;
            no_settings().with_args(all, spelled(all), 1) == t.with_args(
                all,
                spelled(all),
                argv.len() as int,
            ) && all[argv.len() as int] == h
        }),
{
    assert(argv.push(h) + rest =~= argv + (seq![h] + rest));
    lemma_args_continue(no_settings(), argv, seq![h] + rest, 1);
}

/// What one more switch changes: the setting that it is named after, and no other.
pub proof fn lemma_what_a_switch_changes(argv: Seq<Seq<char>>, a: Args, b: Args)
    requires
        argv.len() > 0,
        runs(argv, a),
    ensures
        can_run(argv.push("--mdns"@)),
        runs(argv.push("--mdns"@), b) ==> b.cfg.mdns && same_but(a, b, Setting::Mdns),
        can_run(argv.push("--prefetch"@)),
        runs(argv.push("--prefetch"@), b) ==> b.cfg.prefetch && same_but(a, b, Setting::Prefetch),
        can_run(argv.push("--list"@)),
        runs(argv.push("--list"@), b) ==> b.list && same_but(a, b, Setting::List),
        can_run(argv.push("--chord-probe"@)),
        runs(argv.push("--chord-probe"@), b) ==> b.chord_probe && same_but(
            a,
            b,
            Setting::ChordProbe,
        ),
{
    lemma_options_differ();
    lemma_args_continue(no_settings(), argv, seq!["--mdns"@], 1);
    lemma_args_continue(no_settings(), argv, seq!["--prefetch"@], 1);
    lemma_args_continue(no_settings(), argv, seq!["--list"@], 1);
    lemma_args_continue(no_settings(), argv, seq!["--chord-probe"@], 1);
    assert(argv.push("--mdns"@) =~= argv + seq!["--mdns"@]);
    assert(argv.push("--prefetch"@) =~= argv + seq!["--prefetch"@]);
    assert(argv.push("--list"@) =~= argv + seq!["--list"@]);
    assert(argv.push("--chord-probe"@) =~= argv + seq!["--chord-probe"@]);
    reveal_with_fuel(Settings::with_args, 2);
}

/// What asking for more or for less changes: the level that is logged, and nothing else.
/// `-v` goes from what is logged anyway to debug and on to trace, and `-q` takes two of
/// them back, down to errors alone. A cluster of `v`s is as many `-v`s.
pub proof fn lemma_what_verbosity_changes(
    argv: Seq<Seq<char>>,
    cluster: Seq<char>,
    a: Args,
    b: Args,
)
    requires
        argv.len() > 0,
        runs(argv, a),
        cluster.len() >= 2,
        cluster[0] == '-',
        forall|i: int| 1 <= i < cluster.len() ==> cluster[i] == 'v',
    ensures
        can_run(argv.push("--verbose"@)),
        can_run(argv.push(cluster)),
        can_run(argv.push("-q"@)),
        can_run(argv.push("--quiet"@)),
        runs(argv.push("--verbose"@), b) || (runs(argv.push(cluster), b) && cluster.len() == 2)
            ==> {
            &&& same_but(a, b, Setting::Level)
            &&& a.level is None ==> b.level == Some(Level::Debug)
            &&& a.level == Some(Level::Debug) ==> b.level == Some(Level::Trace)
            &&& a.level == Some(Level::Trace) ==> b.level == Some(Level::Trace)
            &&& a.level == Some(Level::Error) ==> b.level is None || b.level == a.level
        },
        runs(argv.push(cluster), b) ==> {
            &&& same_but(a, b, Setting::Level)
            &&& cluster.len() > 2 && (a.level is None || a.level == Some(Level::Debug) || a.level
                == Some(Level::Trace)) ==> b.level == Some(Level::Trace)
        },
        runs(argv.push("-q"@), b) || runs(argv.push("--quiet"@), b) ==> {
            &&& same_but(a, b, Setting::Level)
            &&& a.level is None || a.level == Some(Level::Debug) || a.level == Some(Level::Error)
                ==> b.level == Some(Level::Error)
        },
{
    lemma_options_differ();
    lemma_args_continue(no_settings(), argv, seq!["--verbose"@], 1);
    lemma_args_continue(no_settings(), argv, seq!["-q"@], 1);
    lemma_args_continue(no_settings(), argv, seq!["--quiet"@], 1);
    lemma_args_continue(no_settings(), argv, seq![cluster], 1);
    assert(argv.push("--verbose"@) =~= argv + seq!["--verbose"@]);
    assert(argv.push("-q"@) =~= argv + seq!["-q"@]);
    assert(argv.push("--quiet"@) =~= argv + seq!["--quiet"@]);
    assert(argv.push(cluster) =~= argv + seq![cluster]);
    assert(cluster[1] == 'v');
    lemma_verbosity_is_counted(argv, 1);
    reveal_with_fuel(Settings::with_args, 2);
}

proof fn lemma_verbosity_is_counted(argv: Seq<Seq<char>>, i: int)
    ensures
        no_settings().with_args(argv, spelled(argv), i) matches Ok(Asked::Run(t)) ==> i32::MIN
            <= t.verbosity <= i32::MAX,
{
    lemma_verbosity_stays_counted(no_settings(), argv, i);
}

proof fn lemma_verbosity_stays_counted(s: Settings, argv: Seq<Seq<char>>, i: int)
    requires
        i32::MIN <= s.verbosity <= i32::MAX,
    ensures
        s.with_args(argv, spelled(argv), i) matches Ok(Asked::Run(t)) ==> i32::MIN <= t.verbosity
            <= i32::MAX,
    decreases argv.len() - i,
{
    if i < argv.len() {
        if takes_value(argv[i]) {
            if i + 1 < argv.len() {
                match s.with_value(argv[i], argv[i + 1], spelled(argv)[i + 1]) {
                    Ok(t) => lemma_verbosity_stays_counted(t, argv, i + 2),
                    Err(_) => {},
                }
            }
        } else {
            match s.with_flag(argv[i]) {
                Some(t) => lemma_verbosity_stays_counted(t, argv, i + 1),
                None => {},
            }
        }
    }
}

/// The options differ from each other, and a cluster of `v`s differs from all of them.
proof fn lemma_options_differ()
    ensures
        "--mdns"@.len() == 6 && "--mdns"@[1] == '-' && "--mdns"@[2] == 'm',
        "--prefetch"@.len() == 10 && "--prefetch"@[1] == '-' && "--prefetch"@[2] == 'p',
        "--list"@.len() == 6 && "--list"@[1] == '-' && "--list"@[2] == 'l',
        "--chord-probe"@.len() == 13 && "--chord-probe"@[1] == '-',
        "--verbose"@.len() == 9 && "--verbose"@[1] == '-' && "--verbose"@[5] == 'b',
        "-q"@.len() == 2 && "-q"@[1] == 'q',
        "--quiet"@.len() == 7 && "--quiet"@[1] == '-' && "--quiet"@[2] == 'q',
        "--bind"@.len() == 6 && "--bind"@[1] == '-' && "--bind"@[2] == 'b',
        "--port"@.len() == 6 && "--port"@[1] == '-' && "--port"@[2] == 'p',
        "--allow"@.len() == 7 && "--allow"@[1] == '-' && "--allow"@[2] == 'a',
        "--max-transfer"@.len() == 14 && "--max-transfer"@[1] == '-' && "--max-transfer"@[2]
            == 'm',
        "--name"@.len() == 6 && "--name"@[1] == '-' && "--name"@[2] == 'n',
        "--toggle-chord"@.len() == 14 && "--toggle-chord"@[1] == '-' && "--toggle-chord"@[2]
            == 't',
        "-h"@.len() == 2 && "-h"@[1] == 'h',
        "--help"@.len() == 6 && "--help"@[1] == '-' && "--help"@[2] == 'h',
        "-V"@.len() == 2 && "-V"@[1] == 'V',
        "--version"@.len() == 9 && "--version"@[1] == '-' && "--version"@[5] == 's',
{
    reveal_strlit("--mdns");
    reveal_strlit("--prefetch");
    reveal_strlit("--list");
    reveal_strlit("--chord-probe");
    reveal_strlit("--verbose");
    reveal_strlit("-q");
    reveal_strlit("--quiet");
    reveal_strlit("--bind");
    reveal_strlit("--port");
    reveal_strlit("--allow");
    reveal_strlit("--max-transfer");
    reveal_strlit("--name");
    reveal_strlit("--toggle-chord");
    reveal_strlit("-h");
    reveal_strlit("--help");
    reveal_strlit("-V");
    reveal_strlit("--version");
}

/// What one more option with a value changes: the setting that it is named after, to what
/// the value says, and no other. A value that is not of the option's kind is refused.
pub proof fn lemma_what_a_value_changes(argv: Seq<Seq<char>>, v: Seq<char>, a: Args, b: Args)
    requires
        argv.len() > 0,
        runs(argv, a),
    ensures
        can_run(argv + seq!["--port"@, v]) <==> parsed_nat(v, 10, 65535) is Some,
        runs(argv + seq!["--port"@, v], b) ==> parsed_nat(v, 10, 65535) == Some(b.cfg.port as nat)
            && same_but(a, b, Setting::Port),
        can_run(argv + seq!["--max-transfer"@, v]) <==> parsed_nat(v, 10, usize::MAX as nat)
            is Some,
        runs(argv + seq!["--max-transfer"@, v], b) ==> parsed_nat(v, 10, usize::MAX as nat) == Some(
            b.cfg.max_transfer as nat,
        ) && same_but(a, b, Setting::MaxTransfer),
        can_run(argv + seq!["--allow"@, v]) <==> parsed_filter(v) is Ok,
        runs(argv + seq!["--allow"@, v], b) ==> parsed_filter(v) == Ok::<Seq<Pattern>, Seq<char>>(
            b.cfg.filter@,
        ) && same_but(a, b, Setting::Filter),
        can_run(argv + seq!["--name"@, v]),
        runs(argv + seq!["--name"@, v], b) ==> opt_view(b.cfg.name) == Some(v) && same_but(
            a,
            b,
            Setting::Name,
        ),
        can_run(argv + seq!["--toggle-chord"@, v]) <==> parsed_chord(v) is Ok,
        runs(argv + seq!["--toggle-chord"@, v], b) ==> (chord_bits(b.cfg.toggle_chord) matches Some(
            m,
        ) && parsed_chord(v) == Ok::<u64, Seq<char>>(m)) && same_but(a, b, Setting::Chord),
{
    lemma_port_changes(argv, v, a, b);
    lemma_max_transfer_changes(argv, v, a, b);
    lemma_allow_changes(argv, v, a, b);
    lemma_name_changes(argv, v, a, b);
    lemma_chord_changes(argv, v, a, b);
}

proof fn lemma_port_changes(argv: Seq<Seq<char>>, v: Seq<char>, a: Args, b: Args)
    requires
        argv.len() > 0,
        runs(argv, a),
    ensures
        can_run(argv + seq!["--port"@, v]) <==> parsed_nat(v, 10, 65535) is Some,
        runs(argv + seq!["--port"@, v], b) ==> parsed_nat(v, 10, 65535) == Some(b.cfg.port as nat)
            && same_but(a, b, Setting::Port),
{
    lemma_options_differ();
    lemma_valued(argv, "--port"@, v);
}

proof fn lemma_max_transfer_changes(argv: Seq<Seq<char>>, v: Seq<char>, a: Args, b: Args)
    requires
        argv.len() > 0,
        runs(argv, a),
    ensures
        can_run(argv + seq!["--max-transfer"@, v]) <==> parsed_nat(v, 10, usize::MAX as nat)
            is Some,
        runs(argv + seq!["--max-transfer"@, v], b) ==> parsed_nat(v, 10, usize::MAX as nat) == Some(
            b.cfg.max_transfer as nat,
        ) && same_but(a, b, Setting::MaxTransfer),
{
    lemma_options_differ();
    lemma_valued(argv, "--max-transfer"@, v);
}

proof fn lemma_allow_changes(argv: Seq<Seq<char>>, v: Seq<char>, a: Args, b: Args)
    requires
        argv.len() > 0,
        runs(argv, a),
    ensures
        can_run(argv + seq!["--allow"@, v]) <==> parsed_filter(v) is Ok,
        runs(argv + seq!["--allow"@, v], b) ==> parsed_filter(v) == Ok::<Seq<Pattern>, Seq<char>>(
            b.cfg.filter@,
        ) && same_but(a, b, Setting::Filter),
{
    lemma_options_differ();
    lemma_valued(argv, "--allow"@, v);
}

proof fn lemma_name_changes(argv: Seq<Seq<char>>, v: Seq<char>, a: Args, b: Args)
    requires
        argv.len() > 0,
        runs(argv, a),
    ensures
        can_run(argv + seq!["--name"@, v]),
        runs(argv + seq!["--name"@, v], b) ==> opt_view(b.cfg.name) == Some(v) && same_but(
            a,
            b,
            Setting::Name,
        ),
{
    lemma_options_differ();
    lemma_valued(argv, "--name"@, v);
}

proof fn lemma_chord_changes(argv: Seq<Seq<char>>, v: Seq<char>, a: Args, b: Args)
    requires
        argv.len() > 0,
        runs(argv, a),
    ensures
        can_run(argv + seq!["--toggle-chord"@, v]) <==> parsed_chord(v) is Ok,
        runs(argv + seq!["--toggle-chord"@, v], b) ==> (chord_bits(b.cfg.toggle_chord) matches Some(
            m,
        ) && parsed_chord(v) == Ok::<u64, Seq<char>>(m)) && same_but(a, b, Setting::Chord),
{
    lemma_options_differ();
    lemma_valued(argv, "--toggle-chord"@, v);
}

/// What a command line comes to, for every way to settle it.
proof fn lemma_settled(argv: Seq<Seq<char>>, s: Settings)
    requires
        no_settings().with_args(argv, spelled(argv), 1) == Ok::<Asked, Seq<char>>(Asked::Run(s)),
    ensures
        can_run(argv),
        forall|a: Args| #[trigger] runs(argv, a) <==> settled(a, s),
{
}

proof fn lemma_valued(argv: Seq<Seq<char>>, o: Seq<char>, v: Seq<char>)
    requires
        argv.len() > 0,
        can_run(argv),
        takes_value(o),
    ensures
        ({
            let t = no_settings().with_args(argv, spelled(argv), 1)->Ok_0->Run_0;
            let all = argv + seq![o, v];
            no_settings().with_args(all, spelled(all), 1) == (match t.with_value(
                o,
                v,
                spelled_ip(v),
            ) {
                Ok(s) => Ok::<Asked, Seq<char>>(Asked::Run(s)),
                Err(e) => Err::<Asked, Seq<char>>(e),
            })
        }),
{
    lemma_options_differ();
    let more = seq![o, v];
    let all = argv + more;
    lemma_args_continue(no_settings(), argv, more, 1);
    assert(all[argv.len() as int] == o);
    assert(all[argv.len() as int + 1] == v);
    assert(spelled(all)[argv.len() as int + 1] == spelled_ip(v));
    reveal_with_fuel(Settings::with_args, 2);
}

/// What `--bind` adds: the tailnet for `tailscale` and `auto`, every network for `any` and
/// `all`, and otherwise the address that the value spells; anything else is refused. The
/// binds add up in order, and the first of them takes the place of the tailnet that is
/// listened on where nothing is said.
pub proof fn lemma_what_a_bind_adds(
    argv: Seq<Seq<char>>,
    v: Seq<char>,
    w: Seq<char>,
    a: Args,
    b: Args,
    c: Args,
)
    requires
        argv.len() > 0,
        runs(argv, a),
    ensures
        can_run(argv + seq!["--bind"@, v]) <==> {
            ||| v == "tailscale"@
            ||| v == "auto"@
            ||| v == "any"@
            ||| v == "all"@
            ||| spelled_ip(v) is Some
        },
        runs(argv + seq!["--bind"@, v], b) ==> {
            &&& same_but(a, b, Setting::Binds)
            &&& b.cfg.binds@.len() > 0
            &&& v == "tailscale"@ || v == "auto"@ ==> b.cfg.binds@.last() is Tailscale
            &&& v == "any"@ || v == "all"@ ==> b.cfg.binds@.last() is Any
            &&& v != "tailscale"@ && v != "auto"@ && v != "any"@ && v != "all"@
                ==> b.cfg.binds@.last() == Bind::Addr(spelled_ip(v)->Some_0)
            &&& {
                ||| b.cfg.binds@.drop_last() == a.cfg.binds@
                ||| b.cfg.binds@.len() == 1 && a.cfg.binds@ == seq![Bind::Tailscale]
            }
        },
        argv.len() == 1 && runs(argv + seq!["--bind"@, v], b) ==> b.cfg.binds@.len() == 1,
        runs(argv + seq!["--bind"@, v], b) && runs(argv + seq!["--bind"@, v, "--bind"@, w], c)
            ==> c.cfg.binds@.len() == b.cfg.binds@.len() + 1 && c.cfg.binds@.drop_last()
            == b.cfg.binds@,
{
    lemma_binds_differ();
    let o = "--bind"@;
    let s = no_settings().with_args(argv, spelled(argv), 1)->Ok_0->Run_0;
    let two = argv + seq![o, v];
    lemma_bind_adds(argv, v, s);
    lemma_settled(argv, s);
    if argv.len() == 1 {
        assert(s == no_settings());
    }
    if bind_asked(v) is Some {
        let t = Settings { binds: s.binds.push(bind_asked(v)->Some_0), ..s };
        lemma_settled(two, t);
        assert(t.binds.drop_last() =~= s.binds);
        lemma_bind_adds(two, w, t);
        assert(argv + seq![o, v, o, w] =~= two + seq![o, w]);
        if bind_asked(w) is Some {
            let u = Settings { binds: t.binds.push(bind_asked(w)->Some_0), ..t };
            lemma_settled(two + seq![o, w], u);
            assert(u.binds.drop_last() =~= t.binds);
        }
    }
}

spec fn bind_asked(v: Seq<char>) -> Option<Bind> {
    if v == "tailscale"@ || v == "auto"@ {
        Some(Bind::Tailscale)
    } else if v == "any"@ || v == "all"@ {
        Some(Bind::Any)
    } else if spelled_ip(v) is Some {
        Some(Bind::Addr(spelled_ip(v)->Some_0))
    } else {
        None
    }
}

proof fn lemma_binds_differ()
    ensures
        "tailscale"@.len() == 9 && "auto"@.len() == 4,
        "any"@.len() == 3 && "all"@.len() == 3,
{
    reveal_strlit("tailscale");
    reveal_strlit("auto");
    reveal_strlit("any");
    reveal_strlit("all");
}

proof fn lemma_bind_adds(argv: Seq<Seq<char>>, v: Seq<char>, s: Settings)
    requires
        argv.len() > 0,
        no_settings().with_args(argv, spelled(argv), 1) == Ok::<Asked, Seq<char>>(Asked::Run(s)),
    ensures
        ({
            let two = argv + seq!["--bind"@, v];
            match (bind_asked(v), no_settings().with_args(two, spelled(two), 1)) {
                (Some(x), Ok(Asked::Run(t))) => t == (Settings { binds: s.binds.push(x), ..s }),
                (None, Err(_)) => true,
                _ => false,
            }
        }),
{
    lemma_options_differ();
    lemma_binds_differ();
    lemma_valued(argv, "--bind"@, v);
}

/// A word that is no option is refused wherever an option is looked for, and so is an
/// option whose value is missing.
pub proof fn lemma_what_a_command_line_refuses(argv: Seq<Seq<char>>, w: Seq<char>)
    requires
        argv.len() > 0,
        can_run(argv),
        w.len() == 0 || w[0] != '-',
    ensures
        !can_run(argv.push(w)),
        !can_run(argv.push("--bind"@)),
        !can_run(argv.push("--port"@)),
        !can_run(argv.push("--allow"@)),
        !can_run(argv.push("--max-transfer"@)),
        !can_run(argv.push("--name"@)),
        !can_run(argv.push("--toggle-chord"@)),
{
    lemma_options_differ();
    lemma_options_begin_with_a_dash();
    lemma_args_continue(no_settings(), argv, seq![w], 1);
    lemma_args_continue(no_settings(), argv, seq!["--bind"@], 1);
    lemma_args_continue(no_settings(), argv, seq!["--port"@], 1);
    lemma_args_continue(no_settings(), argv, seq!["--allow"@], 1);
    lemma_args_continue(no_settings(), argv, seq!["--max-transfer"@], 1);
    lemma_args_continue(no_settings(), argv, seq!["--name"@], 1);
    lemma_args_continue(no_settings(), argv, seq!["--toggle-chord"@], 1);
    assert(argv.push(w) =~= argv + seq![w]);
    assert(argv.push("--bind"@) =~= argv + seq!["--bind"@]);
    assert(argv.push("--port"@) =~= argv + seq!["--port"@]);
    assert(argv.push("--allow"@) =~= argv + seq!["--allow"@]);
    assert(argv.push("--max-transfer"@) =~= argv + seq!["--max-transfer"@]);
    assert(argv.push("--name"@) =~= argv + seq!["--name"@]);
    assert(argv.push("--toggle-chord"@) =~= argv + seq!["--toggle-chord"@]);
}

proof fn lemma_options_begin_with_a_dash()
    ensures
        "--mdns"@[0] == '-' && "--prefetch"@[0] == '-' && "--list"@[0] == '-',
        "--chord-probe"@[0] == '-' && "--verbose"@[0] == '-' && "-q"@[0] == '-',
        "--quiet"@[0] == '-' && "--bind"@[0] == '-' && "--port"@[0] == '-',
        "--allow"@[0] == '-' && "--max-transfer"@[0] == '-' && "--name"@[0] == '-',
        "--toggle-chord"@[0] == '-' && "-h"@[0] == '-' && "--help"@[0] == '-',
        "-V"@[0] == '-' && "--version"@[0] == '-',
{
    reveal_strlit("--mdns");
    reveal_strlit("--prefetch");
    reveal_strlit("--list");
    reveal_strlit("--chord-probe");
    reveal_strlit("--verbose");
    reveal_strlit("-q");
    reveal_strlit("--quiet");
    reveal_strlit("--bind");
    reveal_strlit("--port");
    reveal_strlit("--allow");
    reveal_strlit("--max-transfer");
    reveal_strlit("--name");
    reveal_strlit("--toggle-chord");
    reveal_strlit("-h");
    reveal_strlit("--help");
    reveal_strlit("-V");
    reveal_strlit("--version");
}

} // verus!
