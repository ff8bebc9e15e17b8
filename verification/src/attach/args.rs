//! The daemon's command line.
use crate::common::log::{
    asked_level, bounded, cluster, is_cluster, level_for, louder, quieter, Level,
};
use crate::text::{chars, same, strings};
use vstd::prelude::*;
use vstd::string::*;

verus! {

broadcast use vstd::slice::group_slice_axioms;

#[derive(Debug, Clone, Copy, PartialEq, Eq, Structural)]
pub enum Mode {
    /// Keep at it.
    Daemon,
    /// Make one attempt at each server.
    Once,
    /// Show what is attached right now.
    Status,
    /// Ask each configured server what it has.
    List,
    /// Detach every vhci port that is not free.
    DetachAll,
}

/// What the command line asks for.
#[derive(Debug, Clone, PartialEq, Eq)]
pub struct Args {
    pub config: Option<String>,
    pub mode: Mode,
    pub level: Option<Level>,
}

#[derive(Debug, Clone, PartialEq, Eq)]
pub enum Parsed {
    Help,
    Version,
    Run(Args),
}

/// What has been asked for, as contracts speak of it.
pub struct Settings {
    pub config: Option<Seq<char>>,
    pub mode: Mode,
    pub verbosity: int,
}

/// What a whole command line comes to.
pub enum Asked {
    Help,
    Version,
    Run(Settings),
}

impl Settings {
    /// Nothing has been asked for yet.
    pub open spec fn none() -> Settings {
        Settings { config: None, mode: Mode::Daemon, verbosity: 0 }
    }

    /// What an option without a value adds, if there is such an option.
    pub open spec fn with_flag(self, a: Seq<char>) -> Option<Settings> {
        if a == "--once"@ {
            Some(Settings { mode: Mode::Once, ..self })
        } else if a == "--status"@ {
            Some(Settings { mode: Mode::Status, ..self })
        } else if a == "--list"@ {
            Some(Settings { mode: Mode::List, ..self })
        } else if a == "--detach-all"@ {
            Some(Settings { mode: Mode::DetachAll, ..self })
        } else if a == "--verbose"@ {
            Some(Settings { verbosity: bounded(self.verbosity + 1), ..self })
        } else if a == "-q"@ || a == "--quiet"@ {
            Some(Settings { verbosity: bounded(self.verbosity - 2), ..self })
        } else if is_cluster(a) {
            Some(Settings { verbosity: bounded(self.verbosity + a.len() - 1), ..self })
        } else {
            None
        }
    }

    /// What the arguments from `i` on come to.
    pub open spec fn with_args(self, argv: Seq<Seq<char>>, i: int) -> Result<Asked, Seq<char>>
        decreases argv.len() - i,
    {
        if i >= argv.len() {
            Ok(Asked::Run(self))
        } else {
            let a = argv[i];
            if a == "-h"@ || a == "--help"@ {
                Ok(Asked::Help)
            } else if a == "-V"@ || a == "--version"@ {
                Ok(Asked::Version)
            } else if a == "-c"@ || a == "--config"@ {
                if i + 1 >= argv.len() {
                    Err("--config needs a path"@)
                } else {
                    (Settings { config: Some(argv[i + 1]), ..self }).with_args(argv, i + 2)
                }
            } else {
                match self.with_flag(a) {
                    Some(s) => s.with_args(argv, i + 1),
                    None => Err("unknown option `"@ + a + "` (try --help)"@),
                }
            }
        }
    }
}

pub open spec fn path_view(s: Option<String>) -> Option<Seq<char>> {
    match s {
        Some(t) => Some(t@),
        None => None,
    }
}

/// Reads a command line, of which the first argument is the program.
pub fn parse_args(argv: &Vec<String>) -> (r: Result<Parsed, String>)
    ensures
        match (Settings::none().with_args(strings(argv@), 1), r) {
            (Ok(Asked::Help), Ok(p)) => p == Parsed::Help,
            (Ok(Asked::Version), Ok(p)) => p == Parsed::Version,
            (Ok(Asked::Run(s)), Ok(Parsed::Run(a))) => {
                &&& path_view(a.config) == s.config
                &&& a.mode == s.mode
                &&& a.level == asked_level(s.verbosity)
            },
            (Err(e), Err(m)) => m@ == e,
            _ => false,
        },
{
    let ghost all = strings(argv@);
    let ghost asked = Settings::none().with_args(all, 1);
    let mut config: Option<String> = None;
    let mut mode = Mode::Daemon;
    let mut verbosity: i32 = 0;
    let mut i: usize = 1;
    while i < argv.len()
        invariant
            all == strings(argv@),
            i >= 1,
            asked == Settings::none().with_args(all, 1),
            asked == (Settings {
                config: path_view(config),
                mode,
                verbosity: verbosity as int,
            }).with_args(all, i as int),
        decreases argv@.len() - i,
    {
        let a = argv[i].as_str();
        assert(all[i as int] == a@);
        if same(a, "-h") || same(a, "--help") {
            return Ok(Parsed::Help);
        }
        if same(a, "-V") || same(a, "--version") {
            return Ok(Parsed::Version);
        }
        if same(a, "-c") || same(a, "--config") {
            if i + 1 >= argv.len() {
                return Err("--config needs a path".to_owned());
            }
            assert(all[i + 1] == argv@[i + 1]@);
            config = Some(argv[i + 1].clone());
            i = i + 2;
            continue;
        }
        let cs = chars(a);
        if same(a, "--once") {
            mode = Mode::Once;
        } else if same(a, "--status") {
            mode = Mode::Status;
        } else if same(a, "--list") {
            mode = Mode::List;
        } else if same(a, "--detach-all") {
            mode = Mode::DetachAll;
        } else if same(a, "--verbose") {
            verbosity = louder(verbosity, 1);
        } else if same(a, "-q") || same(a, "--quiet") {
            verbosity = quieter(verbosity);
        } else if cluster(&cs) {
            verbosity = louder(verbosity, cs.len() - 1);
        } else {
            let mut e = String::new();
            e.append("unknown option `");
            e.append(a);
            e.append("` (try --help)");
            assert(e@ =~= "unknown option `"@ + a@ + "` (try --help)"@);
            return Err(e);
        }
        i = i + 1;
    }
    Ok(Parsed::Run(Args { config, mode, level: level_for(verbosity) }))
}

// ---------------------------------------------------------------------------
// Laws

proof fn lemma_args_continue(s: Settings, argv: Seq<Seq<char>>, more: Seq<Seq<char>>, i: int)
    requires
        0 <= i <= argv.len(),
    ensures
        s.with_args(argv, i) matches Ok(Asked::Run(t)) ==> s.with_args(argv + more, i)
            == t.with_args(argv + more, argv.len() as int),
    decreases argv.len() - i,
{
    if i < argv.len() {
        let all = argv + more;
        let a = argv[i];
        assert(all[i] == a);
        if a == "-c"@ || a == "--config"@ {
            if i + 1 < argv.len() {
                assert(all[i + 1] == argv[i + 1]);
                lemma_args_continue(
                    Settings { config: Some(argv[i + 1]), ..s },
                    argv,
                    more,
                    i + 2,
                );
            }
        } else {
            match s.with_flag(a) {
                Some(t) => lemma_args_continue(t, argv, more, i + 1),
                None => {},
            }
        }
    }
}

proof fn lemma_one_more(argv: Seq<Seq<char>>, a: Seq<char>, s: Settings)
    requires
        argv.len() > 0,
        Settings::none().with_args(argv, 1) == Ok::<Asked, Seq<char>>(Asked::Run(s)),
        a.len() >= 2 && a[1] != 'h' && a[1] != 'V' && a[1] != 'c',
        a[1] == '-' ==> a.len() > 2 && (a[2] != 'h' && a[2] != 'c' && (a[2] == 'v' ==> a[5]
            != 's')),
    ensures
        Settings::none().with_args(argv.push(a), 1) == (match s.with_flag(a) {
            Some(t) => Ok::<Asked, Seq<char>>(Asked::Run(t)),
            None => Err::<Asked, Seq<char>>("unknown option `"@ + a + "` (try --help)"@),
        }),
{
    reveal_strlit("-h");
    reveal_strlit("--help");
    reveal_strlit("-V");
    reveal_strlit("--version");
    reveal_strlit("-c");
    reveal_strlit("--config");
    assert("-h"@[1] == 'h' && "--help"@[1] == '-' && "--help"@[2] == 'h');
    assert("-V"@[1] == 'V' && "--version"@[1] == '-' && "--version"@[2] == 'v');
    assert("--version"@[5] == 's');
    assert("-c"@[1] == 'c' && "--config"@[1] == '-' && "--config"@[2] == 'c');
    lemma_args_continue(Settings::none(), argv, seq![a], 1);
    assert(argv.push(a) =~= argv + seq![a]);
    assert(argv.push(a)[argv.len() as int] == a);
    reveal_with_fuel(Settings::with_args, 2);
}

/// What one more option changes. The last mode that is named is the one that is run, and
/// nothing but the mode changes with it; `-v` and `--verbose` count up by one, a cluster of
/// `v`s by as many as it has, and `-q` and `--quiet` down by two; and where nothing is said
/// the daemon runs, with the usual configuration and the usual level.
pub proof fn lemma_what_an_option_changes(
    argv: Seq<Seq<char>>,
    cluster: Seq<char>,
    s: Settings,
    program: Seq<char>,
)
    requires
        argv.len() > 0,
        Settings::none().with_args(argv, 1) == Ok::<Asked, Seq<char>>(Asked::Run(s)),
        cluster.len() >= 2 && cluster[0] == '-',
        forall|i: int| 1 <= i < cluster.len() ==> cluster[i] == 'v',
        i32::MIN + 2 <= s.verbosity,
        s.verbosity + cluster.len() <= i32::MAX,
    ensures
        ({
            let run = |t: Settings| Ok::<Asked, Seq<char>>(Asked::Run(t));
            let with = |a: Seq<char>| Settings::none().with_args(argv.push(a), 1);
            &&& with("--once"@) == run(Settings { mode: Mode::Once, ..s })
            &&& with("--status"@) == run(Settings { mode: Mode::Status, ..s })
            &&& with("--list"@) == run(Settings { mode: Mode::List, ..s })
            &&& with("--detach-all"@) == run(Settings { mode: Mode::DetachAll, ..s })
            &&& with("--verbose"@) == run(Settings { verbosity: s.verbosity + 1, ..s })
            &&& with("-q"@) == run(Settings { verbosity: s.verbosity - 2, ..s })
            &&& with("--quiet"@) == run(Settings { verbosity: s.verbosity - 2, ..s })
            &&& with(cluster) == run(Settings {
                verbosity: s.verbosity + (cluster.len() - 1),
                ..s
            })
            &&& Settings::none().with_args(seq![program], 1) == run(
                Settings { config: None, mode: Mode::Daemon, verbosity: 0 },
            )
        }),
{
    lemma_words_differ();
    lemma_one_more(argv, "--once"@, s);
    lemma_one_more(argv, "--status"@, s);
    lemma_one_more(argv, "--list"@, s);
    lemma_one_more(argv, "--detach-all"@, s);
    lemma_one_more(argv, "--verbose"@, s);
    lemma_one_more(argv, "-q"@, s);
    lemma_one_more(argv, "--quiet"@, s);
    assert(cluster[1] == 'v');
    lemma_one_more(argv, cluster, s);
}

proof fn lemma_words_differ()
    ensures
        "--once"@.len() == 6 && "--once"@[1] == '-' && "--once"@[2] == 'o',
        "--status"@.len() == 8 && "--status"@[1] == '-' && "--status"@[2] == 's',
        "--list"@.len() == 6 && "--list"@[1] == '-' && "--list"@[2] == 'l',
        "--detach-all"@.len() == 12 && "--detach-all"@[1] == '-' && "--detach-all"@[2] == 'd',
        "--verbose"@.len() == 9 && "--verbose"@[1] == '-' && "--verbose"@[2] == 'v',
        "--verbose"@[5] == 'b',
        "-q"@.len() == 2 && "-q"@[1] == 'q',
        "--quiet"@.len() == 7 && "--quiet"@[1] == '-' && "--quiet"@[2] == 'q',
{
    reveal_strlit("--once");
    reveal_strlit("--status");
    reveal_strlit("--list");
    reveal_strlit("--detach-all");
    reveal_strlit("--verbose");
    reveal_strlit("-q");
    reveal_strlit("--quiet");
}

/// `-c` and `--config` take the word behind them for the path, whatever it is, and change
/// nothing else; without one they are refused.
pub proof fn lemma_the_configuration_is_named(
    argv: Seq<Seq<char>>,
    path: Seq<char>,
    s: Settings,
)
    requires
        argv.len() > 0,
        Settings::none().with_args(argv, 1) == Ok::<Asked, Seq<char>>(Asked::Run(s)),
    ensures
        ({
            let found = Ok::<Asked, Seq<char>>(
                Asked::Run(Settings { config: Some(path), ..s }),
            );
            &&& Settings::none().with_args(argv + seq!["-c"@, path], 1) == found
            &&& Settings::none().with_args(argv + seq!["--config"@, path], 1) == found
            &&& Settings::none().with_args(argv.push("-c"@), 1) is Err
            &&& Settings::none().with_args(argv.push("--config"@), 1) is Err
        }),
{
    reveal_strlit("-h");
    reveal_strlit("--help");
    reveal_strlit("-V");
    reveal_strlit("--version");
    reveal_strlit("-c");
    reveal_strlit("--config");
    assert("-h"@[1] == 'h' && "--help"@[1] == '-' && "--help"@[2] == 'h');
    assert("-V"@[1] == 'V' && "--version"@[1] == '-' && "--version"@[2] == 'v');
    assert("-c"@[1] == 'c' && "--config"@[1] == '-' && "--config"@[2] == 'c');
    lemma_path_behind(argv, "-c"@, path, s);
    lemma_path_behind(argv, "--config"@, path, s);
}

proof fn lemma_path_behind(argv: Seq<Seq<char>>, o: Seq<char>, path: Seq<char>, s: Settings)
    requires
        argv.len() > 0,
        Settings::none().with_args(argv, 1) == Ok::<Asked, Seq<char>>(Asked::Run(s)),
        o == "-c"@ || o == "--config"@,
        o != "-h"@ && o != "--help"@ && o != "-V"@ && o != "--version"@,
    ensures
        Settings::none().with_args(argv + seq![o, path], 1) == Ok::<Asked, Seq<char>>(
            Asked::Run(Settings { config: Some(path), ..s }),
        ),
        Settings::none().with_args(argv.push(o), 1) is Err,
{
    let all = argv + seq![o, path];
    lemma_args_continue(Settings::none(), argv, seq![o, path], 1);
    assert(all[argv.len() as int] == o);
    assert(all[argv.len() as int + 1] == path);
    lemma_args_continue(Settings::none(), argv, seq![o], 1);
    assert(argv.push(o) =~= argv + seq![o]);
    assert(argv.push(o)[argv.len() as int] == o);
    reveal_with_fuel(Settings::with_args, 2);
}

} // verus!
