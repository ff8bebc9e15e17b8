//! Log levels.
//!
//! Both programs run under systemd, which timestamps and routes stderr
//! already, so all that is actually needed is a level filter and a prefix.
use crate::text::{chars, lowered, same_chars, to_lower, trim, trimmed};
use vstd::prelude::*;
use vstd::string::*;

verus! {

#[derive(Debug, Clone, Copy, PartialEq, Eq, PartialOrd, Ord, Structural)]
pub enum Level {
    Error,
    Warn,
    Info,
    Debug,
    Trace,
}

impl Level {
    /// How much is logged at this level; more is more.
    pub open spec fn rank(self) -> u8 {
        match self {
            Level::Error => 0,
            Level::Warn => 1,
            Level::Info => 2,
            Level::Debug => 3,
            Level::Trace => 4,
        }
    }

    /// The level that a lower-case word names.
    pub open spec fn named(s: Seq<char>) -> Option<Level> {
        if s == "error"@ {
            Some(Level::Error)
        } else if s == "warn"@ || s == "warning"@ {
            Some(Level::Warn)
        } else if s == "info"@ {
            Some(Level::Info)
        } else if s == "debug"@ {
            Some(Level::Debug)
        } else if s == "trace"@ {
            Some(Level::Trace)
        } else {
            None
        }
    }

    pub fn parse(s: &str) -> (r: Option<Level>)
        ensures
            r == Level::named(lowered(trimmed(s@))),
    {
        let cs = chars(s);
        let t = to_lower(trim(&cs));
        if same_chars(&t, &chars("error")) {
            Some(Level::Error)
        } else if same_chars(&t, &chars("warn")) || same_chars(&t, &chars("warning")) {
            Some(Level::Warn)
        } else if same_chars(&t, &chars("info")) {
            Some(Level::Info)
        } else if same_chars(&t, &chars("debug")) {
            Some(Level::Debug)
        } else if same_chars(&t, &chars("trace")) {
            Some(Level::Trace)
        } else {
            None
        }
    }

    pub fn tag(self) -> (s: &'static str)
        ensures
            s@ == (match self {
                Level::Error => "error"@,
                Level::Warn => "warn"@,
                Level::Info => "info"@,
                Level::Debug => "debug"@,
                Level::Trace => "trace"@,
            }),
    {
        match self {
            Level::Error => "error",
            Level::Warn => "warn",
            Level::Info => "info",
            Level::Debug => "debug",
            Level::Trace => "trace",
        }
    }

    fn number(self) -> (n: u8)
        ensures
            n == self.rank(),
    {
        match self {
            Level::Error => 0,
            Level::Warn => 1,
            Level::Info => 2,
            Level::Debug => 3,
            Level::Trace => 4,
        }
    }
}

/// How much is being logged.
#[derive(Debug, Clone, Copy, PartialEq, Eq, Structural)]
pub struct Verbosity {
    pub level: Level,
}

impl Default for Verbosity {
    fn default() -> (v: Self)
        ensures
            v.level == Level::Info,
    {
        Verbosity { level: Level::Info }
    }
}

pub fn set_level(v: &mut Verbosity, l: Level)
    ensures
        final(v).level == l,
{
    v.level = l;
}

pub fn level(v: &Verbosity) -> (n: u8)
    ensures
        n == v.level.rank(),
{
    v.level.number()
}

pub fn enabled(v: &Verbosity, l: Level) -> (r: bool)
    ensures
        r == (l.rank() <= v.level.rank()),
{
    l.number() <= level(v)
}

// ---------------------------------------------------------------------------
// How much command lines ask for

/// A verbosity that fits its counter.
pub open spec fn bounded(v: int) -> int {
    if v > i32::MAX {
        i32::MAX as int
    } else if v < i32::MIN {
        i32::MIN as int
    } else {
        v
    }
}

/// Whether an argument is `-v`, `-vv` and so on.
pub open spec fn is_cluster(a: Seq<char>) -> bool {
    a.len() >= 2 && a[0] == '-' && forall|i: int| 1 <= i < a.len() ==> a[i] == 'v'
}

/// Whether an argument is `-v`, `-vv` and so on.
pub fn cluster(cs: &[char]) -> (r: bool)
    ensures
        r == is_cluster(cs@),
{
    if cs.len() < 2 || cs[0] != '-' {
        return false;
    }
    let mut i: usize = 1;
    while i < cs.len()
        invariant
            1 <= i <= cs@.len(),
            forall|j: int| 1 <= j < i ==> cs@[j] == 'v',
        decreases cs@.len() - i,
    {
        if cs[i] != 'v' {
            return false;
        }
        i = i + 1;
    }
    true
}

/// The verbosity raised, as far as its counter goes.
pub fn louder(v: i32, by: usize) -> (r: i32)
    ensures
        r == bounded(v + by),
{
    let n: i128 = v as i128 + by as i128;
    if n > i32::MAX as i128 {
        i32::MAX
    } else {
        n as i32
    }
}

/// The verbosity lowered by `-q`, as far as its counter goes.
pub fn quieter(v: i32) -> (r: i32)
    ensures
        r == bounded(v - 2),
{
    if v < i32::MIN + 2 {
        i32::MIN
    } else {
        v - 2
    }
}

/// The level that a verbosity asks for. Who says nothing changes nothing.
pub open spec fn asked_level(verbosity: int) -> Option<Level> {
    if verbosity < 0 {
        Some(Level::Error)
    } else if verbosity == 0 {
        None
    } else if verbosity == 1 {
        Some(Level::Debug)
    } else {
        Some(Level::Trace)
    }
}

pub fn level_for(verbosity: i32) -> (r: Option<Level>)
    ensures
        r == asked_level(verbosity as int),
{
    if verbosity < 0 {
        Some(Level::Error)
    } else if verbosity == 0 {
        None
    } else if verbosity == 1 {
        Some(Level::Debug)
    } else {
        Some(Level::Trace)
    }
}

/// A level lets everything through that a lower one does, and itself; the levels from the
/// quietest are error, warn, info, debug and trace, and each is read from its own name.
pub proof fn lemma_levels(a: Level, b: Level)
    ensures
        a.rank() <= b.rank() || b.rank() <= a.rank(),
        a.rank() == b.rank() <==> a == b,
        a is Error ==> a.rank() <= b.rank(),
        b is Trace ==> a.rank() <= b.rank(),
        a is Warn && b is Info ==> a.rank() < b.rank(),
        a is Info && b is Debug ==> a.rank() < b.rank(),
        Level::named("error"@) == Some(Level::Error),
        Level::named("warn"@) == Some(Level::Warn),
        Level::named("warning"@) == Some(Level::Warn),
        Level::named("info"@) == Some(Level::Info),
        Level::named("debug"@) == Some(Level::Debug),
        Level::named("trace"@) == Some(Level::Trace),
{
    reveal_strlit("error");
    reveal_strlit("warn");
    reveal_strlit("warning");
    reveal_strlit("info");
    reveal_strlit("debug");
    reveal_strlit("trace");
    assert("error"@[0] == 'e' && "warn"@[0] == 'w' && "warning"@[0] == 'w');
    assert("info"@[0] == 'i' && "debug"@[0] == 'd' && "trace"@[0] == 't');
    assert("warn"@.len() == 4 && "warning"@.len() == 7);
}

/// A verbosity asks for more the larger it is, and for nothing where nothing was said.
pub proof fn lemma_more_verbosity_shows_more(v: int, w: int)
    ensures
        asked_level(v) is None <==> v == 0,
        v < 0 ==> asked_level(v) == Some(Level::Error),
        v > 0 ==> asked_level(v)->Some_0.rank() > Level::Info.rank(),
        0 < v < w ==> asked_level(v)->Some_0.rank() <= asked_level(w)->Some_0.rank(),
        0 < v < w ==> asked_level(w) == Some(Level::Trace),
        0 < v < w && asked_level(v) == asked_level(w) ==> v > 1,
        v == bounded(v) <==> i32::MIN <= v <= i32::MAX,
        i32::MIN <= bounded(v) <= i32::MAX,
        v <= w ==> bounded(v) <= bounded(w),
{
}

/// Which words name which levels, and that no other word names any.
pub proof fn lemma_which_words_are_levels(s: Seq<char>)
    ensures
        Level::named(s) == Some(Level::Error) <==> s == "error"@,
        Level::named(s) == Some(Level::Warn) <==> s == "warn"@ || s == "warning"@,
        Level::named(s) == Some(Level::Info) <==> s == "info"@,
        Level::named(s) == Some(Level::Debug) <==> s == "debug"@,
        Level::named(s) == Some(Level::Trace) <==> s == "trace"@,
{
    lemma_levels(Level::Error, Level::Error);
}

} // verus!
