//! A parser for the slice of TOML this daemon's configuration actually uses.
//!
//! Supported: comments, `[table]`, `[[array-of-tables]]`, and `key = value`
//! where a value is a quoted string, an integer, a boolean, or an array of
//! strings (which may span lines). Not supported: nested keys, inline tables,
//! floats, dates, multi-line strings. A config file that needs any of those is
//! a config file that has outgrown this daemon.
use crate::text::{
    all_digits, before, begins_with, chars, dec, dec_int, digit_value, find_char, has_prefix,
    is_white, lemma_before_is, lemma_lines_read_back, lemma_numeral_value, lemma_trimming,
    lemma_trimming_undone, lemma_written_integer_reads_back, lines, parse_i64, parsed_i64, part,
    push_dec, same, same_chars, string, strings, text_lines, texts, trim, trim_start, trimmed,
    trimmed_end, trimmed_start, without_plus,
};
use vstd::prelude::*;
use vstd::string::*;

verus! {

broadcast use vstd::slice::group_slice_axioms;

#[derive(Debug, Clone, PartialEq, Eq)]
pub enum Value {
    Str(String),
    Int(i64),
    Bool(bool),
    Array(Vec<String>),
}

/// A value as contracts speak of it.
pub enum Val {
    Str(Seq<char>),
    Int(int),
    Bool(bool),
    Array(Seq<Seq<char>>),
}

impl View for Value {
    type V = Val;

    open spec fn view(&self) -> Val {
        match self {
            Value::Str(s) => Val::Str(s@),
            Value::Int(i) => Val::Int(*i as int),
            Value::Bool(b) => Val::Bool(*b),
            Value::Array(a) => Val::Array(strings(a@)),
        }
    }
}

impl Val {
    pub open spec fn kind_name(self) -> Seq<char> {
        match self {
            Val::Str(_) => "string"@,
            Val::Int(_) => "integer"@,
            Val::Bool(_) => "boolean"@,
            Val::Array(_) => "array"@,
        }
    }
}

impl Value {
    pub fn kind_name(&self) -> (s: &'static str)
        ensures
            s@ == self@.kind_name(),
    {
        match self {
            Value::Str(_) => "string",
            Value::Int(_) => "integer",
            Value::Bool(_) => "boolean",
            Value::Array(_) => "array",
        }
    }
}

#[derive(Debug, Clone, PartialEq, Eq)]
pub struct Table {
    pub name: String,
    pub line: usize,
    /// Keys, their values and the lines that they stand on.
    pub entries: Vec<(String, Value, usize)>,
}

/// A table as contracts speak of it.
pub struct Tab {
    pub name: Seq<char>,
    pub line: int,
    pub entries: Seq<(Seq<char>, Val, int)>,
}

pub open spec fn entries_view(es: Seq<(String, Value, usize)>) -> Seq<(Seq<char>, Val, int)> {
    es.map_values(|e: (String, Value, usize)| (e.0@, e.1@, e.2 as int))
}

impl View for Table {
    type V = Tab;

    open spec fn view(&self) -> Tab {
        Tab { name: self.name@, line: self.line as int, entries: entries_view(self.entries@) }
    }
}

impl Default for Table {
    fn default() -> (t: Self)
        ensures
            t@ == (Tab { name: Seq::empty(), line: 0, entries: Seq::empty() }),
    {
        let t = Table { name: String::new(), line: 0, entries: Vec::new() };
        assert(t@.entries =~= Seq::empty());
        t
    }
}

impl Tab {
    /// The first entry with that key.
    pub open spec fn find(es: Seq<(Seq<char>, Val, int)>, key: Seq<char>) -> Option<int>
        decreases es.len(),
    {
        if es.len() == 0 {
            None
        } else if es[0].0 == key {
            Some(0)
        } else {
            match Tab::find(es.drop_first(), key) {
                Some(i) => Some(i + 1),
                None => None,
            }
        }
    }

    /// The value of a key.
    pub open spec fn value(self, key: Seq<char>) -> Option<Val> {
        match Tab::find(self.entries, key) {
            Some(i) => Some(self.entries[i].1),
            None => None,
        }
    }

    /// The line of a key, or of the table where it has no such key.
    pub open spec fn key_line(self, key: Seq<char>) -> int {
        match Tab::find(self.entries, key) {
            Some(i) => self.entries[i].2,
            None => self.line,
        }
    }

    /// The keys that are not among the known ones, with their lines, in order.
    pub open spec fn unknown(es: Seq<(Seq<char>, Val, int)>, known: Seq<Seq<char>>) -> Seq<
        (Seq<char>, int),
    >
        decreases es.len(),
    {
        if es.len() == 0 {
            seq![]
        } else if known.contains(es.last().0) {
            Tab::unknown(es.drop_last(), known)
        } else {
            Tab::unknown(es.drop_last(), known).push((es.last().0, es.last().2))
        }
    }
}

pub proof fn lemma_find(es: Seq<(Seq<char>, Val, int)>, key: Seq<char>)
    ensures
        match Tab::find(es, key) {
            Some(i) => 0 <= i < es.len() && es[i].0 == key,
            None => forall|i: int| 0 <= i < es.len() ==> (#[trigger] es[i]).0 != key,
        },
    decreases es.len(),
{
    if es.len() > 0 && es[0].0 != key {
        lemma_find(es.drop_first(), key);
        if Tab::find(es, key) is None {
            assert forall|i: int| 0 <= i < es.len() implies (#[trigger] es[i]).0 != key by {
                if i > 0 {
                    assert(es.drop_first()[i - 1] == es[i]);
                }
            }
        }
    }
}

/// What the texts of a list hold.
pub open spec fn strs(v: Seq<&str>) -> Seq<Seq<char>> {
    v.map_values(|s: &str| s@)
}

impl Table {
    fn place(&self, key: &str) -> (at: usize)
        ensures
            match Tab::find(self@.entries, key@) {
                Some(i) => at == i && at < self.entries@.len(),
                None => at == self.entries@.len(),
            },
    {
        let ghost all = self@.entries;
        let mut i: usize = 0;
        assert(all.skip(0) =~= all);
        while i < self.entries.len()
            invariant
                i <= self.entries@.len(),
                all == self@.entries,
                match Tab::find(all.skip(i as int), key@) {
                    Some(k) => Tab::find(all, key@) == Some(k + i),
                    None => Tab::find(all, key@) is None,
                },
            decreases self.entries@.len() - i,
        {
            assert(all.skip(i as int)[0] == all[i as int]);
            assert(all[i as int].0 == self.entries@[i as int].0@);
            if same(self.entries[i].0.as_str(), key) {
                return i;
            }
            assert(all.skip(i as int).drop_first() =~= all.skip(i + 1));
            i = i + 1;
        }
        i
    }

    pub fn get(&self, key: &str) -> (r: Option<&Value>)
        ensures
            match r {
                Some(v) => self@.value(key@) == Some(v@),
                None => self@.value(key@) is None,
            },
    {
        let at: usize = self.place(key);
        if at < self.entries.len() {
            Some(&self.entries[at].1)
        } else {
            None
        }
    }

    pub fn line_of(&self, key: &str) -> (n: usize)
        ensures
            n == self@.key_line(key@),
    {
        let at: usize = self.place(key);
        if at < self.entries.len() {
            self.entries[at].2
        } else {
            self.line
        }
    }

    /// Keys that are not in `known`, so a typo does not silently do nothing.
    pub fn unknown_keys(&self, known: &[&str]) -> (r: Vec<(String, usize)>)
        ensures
            r@.map_values(|e: (String, usize)| (e.0@, e.1 as int)) == Tab::unknown(
                self@.entries,
                strs(known@),
            ),
    {
        let ghost all = self@.entries;
        let mut r: Vec<(String, usize)> = Vec::new();
        let mut i: usize = 0;
        assert(all.take(0) =~= Seq::empty());
        assert(r@.map_values(|e: (String, usize)| (e.0@, e.1 as int)) =~= Seq::empty());
        while i < self.entries.len()
            invariant
                i <= self.entries@.len(),
                all == self@.entries,
                r@.map_values(|e: (String, usize)| (e.0@, e.1 as int)) == Tab::unknown(
                    all.take(i as int),
                    strs(known@),
                ),
            decreases self.entries@.len() - i,
        {
            let e = &self.entries[i];
            proof {
                assert(all.take(i + 1).drop_last() =~= all.take(i as int));
                assert(all.take(i + 1).last() == (e.0@, e.1@, e.2 as int));
            }
            if !one_of(e.0.as_str(), known) {
                let ghost had = r@.map_values(|e: (String, usize)| (e.0@, e.1 as int));
                r.push((e.0.clone(), e.2));
                assert(r@.map_values(|e: (String, usize)| (e.0@, e.1 as int)) =~= had.push(
                    (e.0@, e.2 as int),
                ));
            }
            i = i + 1;
        }
        assert(all.take(i as int) =~= all);
        r
    }
}

fn one_of(s: &str, known: &[&str]) -> (r: bool)
    ensures
        r == strs(known@).contains(s@),
{
    let mut i: usize = 0;
    while i < known.len()
        invariant
            i <= known@.len(),
            forall|j: int| 0 <= j < i ==> (#[trigger] strs(known@)[j]) != s@,
        decreases known@.len() - i,
    {
        assert(strs(known@)[i as int] == known@[i as int]@);
        if same(s, known[i]) {
            return true;
        }
        i = i + 1;
    }
    false
}

/// What is wrong with a file, and where.
#[derive(Debug, Clone, PartialEq, Eq)]
pub struct Error {
    pub line: usize,
    pub message: String,
}

impl Error {
    pub open spec fn text(self) -> Seq<char> {
        "line "@ + dec(self.line as nat) + ": "@ + self.message@
    }

    pub fn to_string(&self) -> (s: String)
        ensures
            s@ == self.text(),
    {
        let mut s = String::new();
        s.append("line ");
        push_dec(&mut s, self.line as u64);
        s.append(": ");
        s.append(self.message.as_str());
        assert(s@ =~= self.text());
        s
    }
}

// ---------------------------------------------------------------------------
// Quotes

/// Whether a place in a text is inside a string.
#[derive(Clone, Copy)]
pub enum Quoting {
    Outside,
    /// Inside a string that `quote` ends; `escaped` if a backslash came just before.
    Inside { quote: char, escaped: bool },
}

/// The state behind one more character. A backslash takes the meaning from what
/// follows it in double quotes, not in single ones.
pub open spec fn quoting_after(q: Quoting, c: char) -> Quoting {
    match q {
        Quoting::Outside => if c == '"' || c == '\'' {
            Quoting::Inside { quote: c, escaped: false }
        } else {
            Quoting::Outside
        },
        Quoting::Inside { quote, escaped } => if escaped {
            Quoting::Inside { quote, escaped: false }
        } else if c == '\\' && quote == '"' {
            Quoting::Inside { quote, escaped: true }
        } else if c == quote {
            Quoting::Outside
        } else {
            q
        },
    }
}

/// The state behind a text.
pub open spec fn quoting(s: Seq<char>) -> Quoting
    decreases s.len(),
{
    if s.len() == 0 {
        Quoting::Outside
    } else {
        quoting_after(quoting(s.drop_last()), s.last())
    }
}

fn step(q: Quoting, c: char) -> (r: Quoting)
    ensures
        r == quoting_after(q, c),
{
    match q {
        Quoting::Outside => {
            if c == '"' || c == '\'' {
                Quoting::Inside { quote: c, escaped: false }
            } else {
                Quoting::Outside
            }
        },
        Quoting::Inside { quote, escaped } => {
            if escaped {
                Quoting::Inside { quote, escaped: false }
            } else if c == '\\' && quote == '"' {
                Quoting::Inside { quote, escaped: true }
            } else if c == quote {
                Quoting::Outside
            } else {
                q
            }
        },
    }
}

/// How many more opening than closing brackets stand outside strings.
pub open spec fn depth(s: Seq<char>) -> int
    decreases s.len(),
{
    if s.len() == 0 {
        0
    } else {
        depth(s.drop_last()) + (if quoting(s.drop_last()) is Outside {
            if s.last() == '[' {
                1
            } else if s.last() == ']' {
                -1
            } else {
                0int
            }
        } else {
            0
        })
    }
}

/// Whether a value is complete as far as brackets and quotes go.
pub open spec fn balanced(s: Seq<char>) -> bool {
    depth(s) == 0 && quoting(s) is Outside
}

fn brackets_balanced(s: &[char]) -> (r: bool)
    ensures
        r == balanced(s@),
{
    let mut d: i128 = 0;
    let mut q = Quoting::Outside;
    let mut i: usize = 0;
    assert(s@.take(0) =~= Seq::empty());
    while i < s.len()
        invariant
            i <= s@.len(),
            -(i as int) <= d <= i,
            d == depth(s@.take(i as int)),
            q == quoting(s@.take(i as int)),
        decreases s@.len() - i,
    {
        proof {
            assert(s@.take(i + 1).drop_last() =~= s@.take(i as int));
            assert(s@.take(i + 1).last() == s@[i as int]);
        }
        let c = s[i];
        if matches!(q, Quoting::Outside) {
            if c == '[' {
                d = d + 1;
            } else if c == ']' {
                d = d - 1;
            }
        }
        q = step(q, c);
        i = i + 1;
    }
    assert(s@.take(i as int) =~= s@);
    d == 0 && matches!(q, Quoting::Outside)
}

/// Where the comment of a line begins: at the first `#` that is not in a string.
pub open spec fn comment_at(s: Seq<char>, i: int) -> int
    decreases s.len() - i,
{
    if i < 0 || i >= s.len() {
        s.len() as int
    } else if s[i] == '#' && quoting(s.take(i)) is Outside {
        i
    } else {
        comment_at(s, i + 1)
    }
}

/// A line without its comment. A `#` inside a hostname or pattern survives.
pub open spec fn stripped(s: Seq<char>) -> Seq<char> {
    s.take(comment_at(s, 0))
}

fn strip_comment(s: &[char]) -> (r: &[char])
    ensures
        r@ == stripped(s@),
        r@.len() <= s@.len(),
{
    let mut q = Quoting::Outside;
    let mut i: usize = 0;
    assert(s@.take(0) =~= Seq::empty());
    while i < s.len()
        invariant
            i <= s@.len(),
            q == quoting(s@.take(i as int)),
            comment_at(s@, 0) == comment_at(s@, i as int),
        decreases s@.len() - i,
    {
        let c = s[i];
        if c == '#' && matches!(q, Quoting::Outside) {
            let r = part(s, 0, i);
            assert(r@ =~= s@.take(i as int));
            return r;
        }
        proof {
            assert(s@.take(i + 1).drop_last() =~= s@.take(i as int));
            assert(s@.take(i + 1).last() == c);
        }
        q = step(q, c);
        i = i + 1;
    }
    assert(s@.take(s@.len() as int) =~= s@);
    s
}

// ---------------------------------------------------------------------------
// Values

/// The parts of an array: what stands between the commas outside strings.
pub open spec fn array_parts(s: Seq<char>) -> Seq<Seq<char>>
    decreases s.len(),
{
    if s.len() == 0 {
        seq![seq![]]
    } else {
        let rest = array_parts(s.drop_last());
        if s.last() == ',' && quoting(s.drop_last()) is Outside {
            rest.push(seq![])
        } else {
            rest.drop_last().push(rest.last().push(s.last()))
        }
    }
}

proof fn lemma_array_parts(s: Seq<char>)
    ensures
        array_parts(s).len() > 0,
        forall|i: int| 0 <= i < array_parts(s).len() ==> (#[trigger] array_parts(s)[i]).len()
            <= s.len(),
    decreases s.len(),
{
    if s.len() > 0 {
        lemma_array_parts(s.drop_last());
        let rest = array_parts(s.drop_last());
        assert(rest[rest.len() - 1] == rest.last());
    }
}

/// What the vectors of a list hold.
pub open spec fn vecs(v: Seq<Vec<char>>) -> Seq<Seq<char>> {
    v.map_values(|p: Vec<char>| p@)
}

fn split_array(s: &[char]) -> (r: Vec<Vec<char>>)
    ensures
        vecs(r@) == array_parts(s@),
{
    let mut out: Vec<Vec<char>> = Vec::new();
    let mut cur: Vec<char> = Vec::new();
    let mut q = Quoting::Outside;
    let mut i: usize = 0;
    assert(s@.take(0) =~= Seq::empty());
    assert(vecs(out@).push(cur@) =~= array_parts(s@.take(0)));
    while i < s.len()
        invariant
            i <= s@.len(),
            q == quoting(s@.take(i as int)),
            vecs(out@).push(cur@) == array_parts(s@.take(i as int)),
        decreases s@.len() - i,
    {
        let c = s[i];
        let ghost had = vecs(out@);
        let ghost was = cur@;
        proof {
            assert(s@.take(i + 1).drop_last() =~= s@.take(i as int));
            assert(s@.take(i + 1).last() == c);
            assert(had.push(was).drop_last() =~= had);
            assert(had.push(was).last() == was);
        }
        if c == ',' && matches!(q, Quoting::Outside) {
            out.push(cur);
            cur = Vec::new();
            assert(vecs(out@) =~= had.push(was));
            assert(cur@ =~= Seq::empty());
        } else {
            cur.push(c);
        }
        q = step(q, c);
        i = i + 1;
    }
    assert(s@.take(i as int) =~= s@);
    let ghost had = vecs(out@);
    let ghost was = cur@;
    out.push(cur);
    assert(vecs(out@) =~= had.push(was));
    out
}

/// The character that an escape stands for.
pub open spec fn escape(c: char) -> Option<char> {
    if c == 'n' {
        Some('\n')
    } else if c == 't' {
        Some('\t')
    } else if c == 'r' {
        Some('\r')
    } else if c == '"' {
        Some('"')
    } else if c == '\\' {
        Some('\\')
    } else {
        None
    }
}

/// The text that the inside of a double-quoted string stands for, behind what has
/// been read of it.
pub open spec fn unescaped(out: Seq<char>, body: Seq<char>) -> Result<Seq<char>, Seq<char>>
    decreases body.len(),
{
    if body.len() == 0 {
        Ok(out)
    } else if body[0] != '\\' {
        unescaped(out.push(body[0]), body.skip(1))
    } else if body.len() == 1 {
        Err("string ends in a backslash"@)
    } else {
        match escape(body[1]) {
            Some(c) => unescaped(out.push(c), body.skip(2)),
            None => Err("unsupported escape `\\"@ + seq![body[1]] + "`"@),
        }
    }
}

/// The string that a quoted text denotes. In single quotes there are no escapes.
pub open spec fn parsed_string(t: Seq<char>) -> Result<Seq<char>, Seq<char>> {
    if t.len() < 2 || t.last() != t[0] {
        Err("unterminated string"@)
    } else if t[0] == '\'' {
        Ok(t.subrange(1, t.len() - 1))
    } else {
        unescaped(seq![], t.subrange(1, t.len() - 1))
    }
}

fn parse_string(t: &[char]) -> (r: Result<String, String>)
    requires
        t@.len() > 0,
    ensures
        match r {
            Ok(s) => parsed_string(t@) == Ok::<Seq<char>, Seq<char>>(s@),
            Err(e) => parsed_string(t@) == Err::<Seq<char>, Seq<char>>(e@),
        },
{
    let n: usize = t.len();
    if n < 2 || t[n - 1] != t[0] {
        return Err("unterminated string".to_owned());
    }
    let body = part(t, 1, n - 1);
    if t[0] == '\'' {
        // Literal string: no escapes at all, per TOML.
        return Ok(string(body));
    }
    let mut out = String::new();
    let mut i: usize = 0;
    let ghost whole = unescaped(seq![], body@);
    assert(body@.skip(0) =~= body@);
    while i < body.len()
        invariant
            i <= body@.len(),
            whole == unescaped(seq![], body@),
            whole == unescaped(out@, body@.skip(i as int)),
            parsed_string(t@) == whole,
        decreases body@.len() - i,
    {
        let ghost rest = body@.skip(i as int);
        assert(rest[0] == body@[i as int]);
        let c = body[i];
        if c != '\\' {
            out.push(c);
            i = i + 1;
            assert(rest.skip(1) =~= body@.skip(i as int));
            continue;
        }
        if body.len() - i < 2 {
            return Err("string ends in a backslash".to_owned());
        }
        assert(rest[1] == body@[i + 1]);
        let e = body[i + 1];
        if e == 'n' {
            out.push('\n');
        } else if e == 't' {
            out.push('\t');
        } else if e == 'r' {
            out.push('\r');
        } else if e == '"' {
            out.push('"');
        } else if e == '\\' {
            out.push('\\');
        } else {
            let mut m = String::new();
            m.append("unsupported escape `\\");
            m.push(e);
            m.append("`");
            assert(m@ =~= "unsupported escape `\\"@ + seq![e] + "`"@);
            return Err(m);
        }
        i = i + 2;
        assert(rest.skip(2) =~= body@.skip(i as int));
    }
    Ok(out)
}

/// The strings of an array's parts, leaving out the blank ones, or what is wrong
/// with the first bad part. `limit` is the length of the array as a text.
pub open spec fn parsed_items(ps: Seq<Seq<char>>, limit: nat) -> Result<Seq<Seq<char>>, Seq<char>>
    decreases limit, 0int, ps.len(),
{
    if ps.len() == 0 {
        Ok(seq![])
    } else {
        match parsed_items(ps.drop_last(), limit) {
            Err(e) => Err(e),
            Ok(v) => {
                let t = trimmed(ps.last());
                if t.len() == 0 || t.len() >= limit {
                    Ok(v)
                } else {
                    match parsed_value(t) {
                        Err(e) => Err(e),
                        Ok(Val::Str(s)) => Ok(v.push(s)),
                        Ok(other) => Err(
                            "arrays may only hold strings, found a "@ + other.kind_name(),
                        ),
                    }
                }
            },
        }
    }
}

/// The value that a text denotes, or what is wrong with it.
pub open spec fn parsed_value(t: Seq<char>) -> Result<Val, Seq<char>>
    decreases t.len(), 1int, 0nat,
{
    if t == "true"@ {
        Ok(Val::Bool(true))
    } else if t == "false"@ {
        Ok(Val::Bool(false))
    } else if t.len() == 0 {
        Err("missing value"@)
    } else if t[0] == '[' {
        if t.len() < 2 || t.last() != ']' {
            Err("unterminated array"@)
        } else {
            match parsed_items(array_parts(t.subrange(1, t.len() - 1)), t.len()) {
                Ok(v) => Ok(Val::Array(v)),
                Err(e) => Err(e),
            }
        }
    } else if t[0] == '"' || t[0] == '\'' {
        match parsed_string(t) {
            Ok(s) => Ok(Val::Str(s)),
            Err(e) => Err(e),
        }
    } else {
        match parsed_i64(t) {
            Some(i) => Ok(Val::Int(i)),
            None => Err("`"@ + t + "` is not a string, integer or boolean"@),
        }
    }
}

proof fn lemma_trimmed_len(s: Seq<char>)
    ensures
        trimmed(s).len() <= s.len(),
{
    lemma_trimmed_start_len(s);
    lemma_trimmed_end_len(trimmed_start(s));
}

proof fn lemma_trimmed_start_len(s: Seq<char>)
    ensures
        trimmed_start(s).len() <= s.len(),
    decreases s.len(),
{
    if s.len() > 0 && trimmed_start(s) != s {
        lemma_trimmed_start_len(s.drop_first());
    }
}

proof fn lemma_trimmed_end_len(s: Seq<char>)
    ensures
        trimmed_end(s).len() <= s.len(),
    decreases s.len(),
{
    if s.len() > 0 && trimmed_end(s) != s {
        lemma_trimmed_end_len(s.drop_last());
    }
}

proof fn lemma_first_bad_item_decides(ps: Seq<Seq<char>>, limit: nat, i: int)
    requires
        0 <= i <= ps.len(),
        parsed_items(ps.take(i), limit) is Err,
    ensures
        parsed_items(ps, limit) == parsed_items(ps.take(i), limit),
    decreases ps.len() - i,
{
    if i == ps.len() {
        assert(ps.take(i) =~= ps);
    } else {
        assert(ps.take(i + 1).drop_last() =~= ps.take(i));
        lemma_first_bad_item_decides(ps, limit, i + 1);
    }
}

fn parse_value(t: &[char]) -> (r: Result<Value, String>)
    ensures
        match r {
            Ok(v) => parsed_value(t@) == Ok::<Val, Seq<char>>(v@),
            Err(e) => parsed_value(t@) == Err::<Val, Seq<char>>(e@),
        },
    decreases t@.len(),
{
    if same_chars(t, &chars("true")) {
        return Ok(Value::Bool(true));
    }
    if same_chars(t, &chars("false")) {
        return Ok(Value::Bool(false));
    }
    let n: usize = t.len();
    if n == 0 {
        return Err("missing value".to_owned());
    }
    if t[0] == '[' {
        if n < 2 || t[n - 1] != ']' {
            return Err("unterminated array".to_owned());
        }
        let inner = part(t, 1, n - 1);
        let ps = split_array(inner);
        let ghost all = vecs(ps@);
        proof {
            lemma_array_parts(inner@);
        }
        let mut out: Vec<String> = Vec::new();
        let mut i: usize = 0;
        assert(all.take(0) =~= Seq::empty());
        assert(strings(out@) =~= Seq::empty());
        while i < ps.len()
            invariant
                i <= ps@.len(),
                n == t@.len(),
                n >= 2,
                t@[0] == '[',
                t@.last() == ']',
                t@ != "true"@,
                t@ != "false"@,
                inner@ == t@.subrange(1, n - 1),
                all == vecs(ps@),
                all == array_parts(inner@),
                forall|k: int| 0 <= k < all.len() ==> (#[trigger] all[k]).len() <= inner@.len(),
                parsed_items(all.take(i as int), n as nat) == Ok::<Seq<Seq<char>>, Seq<char>>(
                    strings(out@),
                ),
            decreases ps@.len() - i,
        {
            let p = trim(ps[i].as_slice());
            proof {
                assert(all.take(i + 1).drop_last() =~= all.take(i as int));
                assert(all.take(i + 1).last() == ps@[i as int]@);
                assert(all[i as int].len() <= inner@.len());
                lemma_trimmed_len(ps@[i as int]@);
            }
            if p.len() > 0 {
                match parse_value(p) {
                    Ok(Value::Str(s)) => {
                        let ghost had = strings(out@);
                        let ghost text = s@;
                        out.push(s);
                        assert(strings(out@) =~= had.push(text));
                    },
                    Ok(other) => {
                        let mut e = String::new();
                        e.append("arrays may only hold strings, found a ");
                        e.append(other.kind_name());
                        assert(e@ =~= "arrays may only hold strings, found a "@
                            + other@.kind_name());
                        proof {
                            lemma_first_bad_item_decides(all, n as nat, i + 1);
                        }
                        return Err(e);
                    },
                    Err(e) => {
                        proof {
                            lemma_first_bad_item_decides(all, n as nat, i + 1);
                        }
                        return Err(e);
                    },
                }
            }
            i = i + 1;
        }
        assert(all.take(i as int) =~= all);
        return Ok(Value::Array(out));
    }
    if t[0] == '"' || t[0] == '\'' {
        return match parse_string(t) {
            Ok(s) => Ok(Value::Str(s)),
            Err(e) => Err(e),
        };
    }
    match parse_i64(t) {
        Some(i) => Ok(Value::Int(i)),
        None => {
            let mut e = String::new();
            e.append("`");
            e.append(string(t).as_str());
            e.append("` is not a string, integer or boolean");
            assert(e@ =~= "`"@ + t@ + "` is not a string, integer or boolean"@);
            Err(e)
        },
    }
}

// ---------------------------------------------------------------------------
// Files

/// An array that runs over several lines, gathered from line `i` on until its
/// brackets balance, and the line behind it.
pub open spec fn gathered(ls: Seq<Seq<char>>, i: int, text: Seq<char>) -> (Seq<char>, int)
    decreases ls.len() - i,
{
    if i < 0 || i >= ls.len() || balanced(text) {
        (text, i)
    } else {
        gathered(ls, i + 1, text.push(' ') + stripped(ls[i]))
    }
}

proof fn lemma_gathered_goes_on(ls: Seq<Seq<char>>, i: int, text: Seq<char>)
    requires
        0 <= i <= ls.len(),
    ensures
        i <= gathered(ls, i, text).1 <= ls.len(),
    decreases ls.len() - i,
{
    if i < ls.len() && !balanced(text) {
        lemma_gathered_goes_on(ls, i + 1, text.push(' ') + stripped(ls[i]));
    }
}

/// The tables read so far, the table that entries go into, and the next line.
pub struct Reading {
    pub tables: Seq<Tab>,
    pub current: Tab,
    pub next: int,
}

impl Reading {
    pub open spec fn start() -> Reading {
        Reading {
            tables: seq![],
            current: Tab { name: seq![], line: 0, entries: seq![] },
            next: 0,
        }
    }

    /// A new table begins.
    pub open spec fn opened(self, name: Seq<char>) -> Reading {
        Reading {
            tables: self.tables.push(self.current),
            current: Tab { name, line: self.next + 1, entries: seq![] },
            next: self.next + 1,
        }
    }

    /// Whether a table of that name was seen.
    pub open spec fn knows(self, name: Seq<char>) -> bool {
        self.current.name == name || exists|i: int|
            0 <= i < self.tables.len() && (#[trigger] self.tables[i]).name == name
    }

    /// The value text of an entry on the next line, and the line behind it.
    pub open spec fn value_text(self, ls: Seq<Seq<char>>, text: Seq<char>) -> (Seq<char>, int) {
        if begins_with(trimmed_start(text), "["@) {
            gathered(ls, self.next + 1, text)
        } else {
            (text, self.next + 1)
        }
    }

    /// What an entry `key = text` on the next line gives.
    pub open spec fn entered(self, ls: Seq<Seq<char>>, key: Seq<char>, text: Seq<char>) -> Result<
        Reading,
        Seq<char>,
    > {
        let (whole, next) = self.value_text(ls, text);
        if key.len() == 0 {
            Err("empty key"@)
        } else if Tab::find(self.current.entries, key) is Some {
            Err("`"@ + key + "` is set twice in the same table"@)
        } else if begins_with(trimmed_start(text), "["@) && !balanced(whole) {
            Err("unterminated array"@)
        } else {
            match parsed_value(trimmed(whole)) {
                Err(e) => Err(e),
                Ok(v) => Ok(
                    Reading {
                        tables: self.tables,
                        current: Tab {
                            name: self.current.name,
                            line: self.current.line,
                            entries: self.current.entries.push((key, v, self.next + 1)),
                        },
                        next,
                    },
                ),
            }
        }
    }

    /// What the next line gives, with the lines behind it that belong to it, or
    /// what is wrong with it.
    pub open spec fn after_line(self, ls: Seq<Seq<char>>) -> Result<Reading, Seq<char>> {
        let line = trimmed(stripped(ls[self.next]));
        let n = line.len() as int;
        let eq = before(line, '=');
        if n == 0 {
            Ok(Reading { next: self.next + 1, ..self })
        } else if begins_with(line, "[["@) {
            if n < 4 || line[n - 1] != ']' || line[n - 2] != ']' {
                Err("unterminated [[table]] header"@)
            } else {
                Ok(self.opened(trimmed(line.subrange(2, n - 2))))
            }
        } else if line[0] == '[' {
            if n < 2 || line[n - 1] != ']' {
                Err("unterminated [table] header"@)
            } else {
                let name = trimmed(line.subrange(1, n - 1));
                if self.knows(name) {
                    Err("["@ + name + "] appears more than once"@)
                } else {
                    Ok(self.opened(name))
                }
            }
        } else if eq >= n {
            Err("expected `key = value`, found `"@ + line + "`"@)
        } else {
            self.entered(ls, trimmed(line.take(eq)), line.skip(eq + 1))
        }
    }
}

pub proof fn lemma_lines_go_on(r: Reading, ls: Seq<Seq<char>>)
    requires
        0 <= r.next < ls.len(),
    ensures
        match r.after_line(ls) {
            Ok(after) => r.next < after.next <= ls.len(),
            Err(_) => true,
        },
{
    let line = trimmed(stripped(ls[r.next]));
    lemma_gathered_goes_on(ls, r.next + 1, line.skip(before(line, '=') + 1));
}

/// The tables of the rest of a file, or the line and the nature of its first error.
pub open spec fn read_from(r: Reading, ls: Seq<Seq<char>>) -> Result<Seq<Tab>, (int, Seq<char>)>
    decreases ls.len() - r.next,
{
    if r.next < 0 || r.next >= ls.len() {
        Ok(r.tables.push(r.current))
    } else {
        proof {
            lemma_lines_go_on(r, ls);
        }
        match r.after_line(ls) {
            Err(e) => Err((r.next + 1, e)),
            Ok(after) => read_from(after, ls),
        }
    }
}

/// The tables that are worth handing out: a nameless one only where something was
/// written in it.
pub open spec fn kept(ts: Seq<Tab>) -> Seq<Tab>
    decreases ts.len(),
{
    if ts.len() == 0 {
        seq![]
    } else if ts.last().name.len() > 0 || ts.last().entries.len() > 0 {
        kept(ts.drop_last()).push(ts.last())
    } else {
        kept(ts.drop_last())
    }
}

/// The tables of a file, or the line and the nature of its first error.
pub open spec fn parsed(input: Seq<char>) -> Result<Seq<Tab>, (int, Seq<char>)> {
    match read_from(Reading::start(), text_lines(input)) {
        Ok(ts) => Ok(kept(ts)),
        Err(e) => Err(e),
    }
}

pub open spec fn tables_view(ts: Seq<Table>) -> Seq<Tab> {
    ts.map_values(|t: Table| t@)
}

fn known_name(tables: &Vec<Table>, name: &str) -> (r: bool)
    ensures
        r == exists|i: int|
            0 <= i < tables_view(tables@).len() && (#[trigger] tables_view(tables@)[i]).name
                == name@,
{
    let mut i: usize = 0;
    while i < tables.len()
        invariant
            i <= tables@.len(),
            forall|j: int| 0 <= j < i ==> (#[trigger] tables_view(tables@)[j]).name != name@,
        decreases tables@.len() - i,
    {
        assert(tables_view(tables@)[i as int].name == tables@[i as int].name@);
        if same(tables[i].name.as_str(), name) {
            return true;
        }
        i = i + 1;
    }
    false
}

fn gather(ls: &Vec<&[char]>, from: usize, text: &[char]) -> (r: (Vec<char>, usize))
    requires
        from <= ls@.len(),
    ensures
        (r.0@, r.1 as int) == gathered(texts(ls@), from as int, text@),
        from <= r.1 <= ls@.len(),
{
    let mut owned: Vec<char> = Vec::new();
    owned.extend_from_slice(text);
    assert(owned@ =~= text@);
    let mut i: usize = from;
    while i < ls.len() && !brackets_balanced(owned.as_slice())
        invariant
            from <= i <= ls@.len(),
            gathered(texts(ls@), from as int, text@) == gathered(texts(ls@), i as int, owned@),
        decreases ls@.len() - i,
    {
        let ghost had = owned@;
        owned.push(' ');
        let more = strip_comment(ls[i]);
        owned.extend_from_slice(more);
        assert(texts(ls@)[i as int] == ls@[i as int]@);
        assert(owned@ =~= had.push(' ') + more@);
        i = i + 1;
    }
    (owned, i)
}

fn message(a: &str, b: &str, c: &str) -> (s: String)
    ensures
        s@ == a@ + b@ + c@,
{
    let mut s = String::new();
    s.append(a);
    s.append(b);
    s.append(c);
    assert(s@ =~= a@ + b@ + c@);
    s
}

fn open_table(tables: &mut Vec<Table>, current: &mut Table, name: String, line: usize)
    ensures
        tables_view(final(tables)@) == tables_view(old(tables)@).push(old(current)@),
        final(current)@ == (Tab { name: name@, line: line as int, entries: Seq::empty() }),
{
    let mut t = Table { name, line, entries: Vec::new() };
    assert(t@.entries =~= Seq::empty());
    let ghost had = tables_view(tables@);
    let ghost was = current@;
    std::mem::swap(current, &mut t);
    tables.push(t);
    assert(tables_view(tables@) =~= had.push(was));
}

fn enter(
    ls: &Vec<&[char]>,
    at: usize,
    current: &mut Table,
    key: String,
    text: &[char],
) -> (r: Result<usize, String>)
    requires
        at < ls@.len(),
    ensures
        ({
            let start = Reading { tables: seq![], current: old(current)@, next: at as int };
            match start.entered(texts(ls@), key@, text@) {
                Ok(after) => r == Ok::<usize, String>(after.next as usize) && at < after.next
                    <= ls@.len() && final(current)@ == after.current,
                Err(e) => r is Err && r->Err_0@ == e,
            }
        }),
{
    assert(at < ls.len());
    if key.as_str().unicode_len() == 0 {
        return Err("empty key".to_owned());
    }
    if current.place(key.as_str()) < current.entries.len() {
        return Err(message("`", key.as_str(), "` is set twice in the same table"));
    }
    let ghost was = *current;
    let mut next: usize = at + 1;
    let value;
    if has_prefix(trim_start(text), &chars("[")) {
        let (whole, behind) = gather(ls, at + 1, text);
        if !brackets_balanced(whole.as_slice()) {
            return Err("unterminated array".to_owned());
        }
        next = behind;
        value = parse_value(trim(whole.as_slice()));
    } else {
        value = parse_value(trim(text));
    }
    match value {
        Ok(v) => {
            let ghost entry = (key@, v@, at + 1);
            current.entries.push((key, v, at + 1));
            assert(entries_view(current.entries@) =~= entries_view(was.entries@).push(entry));
            Ok(next)
        },
        Err(e) => Err(e),
    }
}

/// Reads the line at `at` with those that belong to it.
fn read_line(ls: &Vec<&[char]>, at: usize, tables: &mut Vec<Table>, current: &mut Table) -> (r:
    Result<usize, String>)
    requires
        at < ls@.len(),
    ensures
        ({
            let start = Reading {
                tables: tables_view(old(tables)@),
                current: old(current)@,
                next: at as int,
            };
            match start.after_line(texts(ls@)) {
                Ok(after) => r == Ok::<usize, String>(after.next as usize) && at < after.next
                    <= ls@.len() && final(current)@ == after.current && tables_view(
                    final(tables)@,
                ) == after.tables,
                Err(e) => r is Err && r->Err_0@ == e,
            }
        }),
{
    proof {
        reveal_strlit("[");
        reveal_strlit("[[");
    }
    assert(at < ls.len());
    assert(texts(ls@)[at as int] == ls@[at as int]@);
    let line = trim(strip_comment(ls[at]));
    let n: usize = line.len();
    if n == 0 {
        return Ok(at + 1);
    }
    if has_prefix(line, &chars("[[")) {
        if n < 4 || line[n - 1] != ']' || line[n - 2] != ']' {
            return Err("unterminated [[table]] header".to_owned());
        }
        let name = string(trim(part(line, 2, n - 2)));
        open_table(tables, current, name, at + 1);
        return Ok(at + 1);
    }
    if line[0] == '[' {
        if n < 2 || line[n - 1] != ']' {
            return Err("unterminated [table] header".to_owned());
        }
        let name = string(trim(part(line, 1, n - 1)));
        if same(current.name.as_str(), name.as_str()) || known_name(tables, name.as_str()) {
            return Err(message("[", name.as_str(), "] appears more than once"));
        }
        open_table(tables, current, name, at + 1);
        return Ok(at + 1);
    }
    let eq: usize = find_char(line, '=');
    if eq == n {
        return Err(message("expected `key = value`, found `", string(line).as_str(), "`"));
    }
    let key = trim(part(line, 0, eq));
    let text = part(line, eq + 1, n);
    assert(line@.subrange(0, eq as int) =~= line@.take(eq as int));
    assert(text@ =~= line@.skip(eq + 1));
    enter(ls, at, current, string(key), text)
}

/// Reads a file: its tables in order, the nameless one first where it holds
/// anything.
pub fn parse(input: &str) -> (r: Result<Vec<Table>, Error>)
    ensures
        match r {
            Ok(ts) => parsed(input@) == Ok::<Seq<Tab>, (int, Seq<char>)>(tables_view(ts@)),
            Err(e) => parsed(input@) == Err::<Seq<Tab>, (int, Seq<char>)>(
                (e.line as int, e.message@),
            ),
        },
{
    let cs = chars(input);
    let ls = lines(cs.as_slice());
    let ghost all = texts(ls@);
    let mut tables: Vec<Table> = Vec::new();
    let mut current = Table { name: String::new(), line: 0, entries: Vec::new() };
    let mut i: usize = 0;
    assert(tables_view(tables@) =~= Seq::empty());
    assert(current@.entries =~= Seq::empty());
    assert(current@.name =~= Seq::empty());
    while i < ls.len()
        invariant
            i <= ls@.len(),
            all == texts(ls@),
            all == text_lines(input@),
            read_from(Reading::start(), all) == read_from(
                (Reading { tables: tables_view(tables@), current: current@, next: i as int }),
                all,
            ),
        decreases ls@.len() - i,
    {
        match read_line(&ls, i, &mut tables, &mut current) {
            Ok(next) => {
                i = next;
            },
            Err(message) => {
                return Err(Error { line: i + 1, message });
            },
        }
    }
    let ghost had = tables_view(tables@);
    let ghost was = current@;
    tables.push(current);
    assert(tables_view(tables@) =~= had.push(was));
    // The nameless table goes unless something was written before the first header.
    let ghost ts = tables_view(tables@);
    let mut out: Vec<Table> = Vec::new();
    let n: usize = tables.len();
    assert(tables_view(out@) =~= kept(ts.take(0)));
    let mut done: usize = 0;
    while done < n
        invariant
            done <= n,
            n == ts.len(),
            tables_view(tables@) == ts.skip(done as int),
            tables_view(out@) == kept(ts.take(done as int)),
        decreases n - done,
    {
        let ghost rest = tables@;
        assert(tables_view(rest).len() == n - done);
        assert(tables_view(rest)[0] == ts[done as int]);
        let t = tables.remove(0);
        assert(t@ == tables_view(rest)[0]);
        assert forall|k: int| 0 <= k < tables@.len() implies tables_view(tables@)[k] == ts.skip(
            done + 1,
        )[k] by {
            assert(tables@[k] == rest[k + 1]);
            assert(tables_view(rest)[k + 1] == ts.skip(done as int)[k + 1]);
        }
        assert(tables_view(tables@) =~= ts.skip(done + 1));
        assert(ts.take(done + 1).drop_last() =~= ts.take(done as int));
        assert(ts.take(done + 1).last() == t@);
        if t.name.as_str().unicode_len() > 0 || t.entries.len() > 0 {
            let ghost had = tables_view(out@);
            out.push(t);
            assert(tables_view(out@) =~= had.push(t@));
        }
        done = done + 1;
    }
    assert(ts.take(n as int) =~= ts);
    Ok(out)
}

// ---------------------------------------------------------------------------
// Laws

/// Whether no key occurs twice in a table.
pub open spec fn keys_differ(t: Tab) -> bool {
    forall|i: int, j: int|
        0 <= i < j < t.entries.len() ==> (#[trigger] t.entries[i]).0 != (#[trigger] t.entries[j]).0
}

proof fn lemma_read_keys_differ(r: Reading, ls: Seq<Seq<char>>)
    requires
        r.next >= 0,
        keys_differ(r.current),
        forall|i: int| 0 <= i < r.tables.len() ==> keys_differ(#[trigger] r.tables[i]),
        read_from(r, ls) is Ok,
    ensures
        forall|i: int|
            0 <= i < read_from(r, ls)->Ok_0.len() ==> keys_differ(
                #[trigger] read_from(r, ls)->Ok_0[i],
            ),
    decreases ls.len() - r.next,
{
    if r.next < ls.len() {
        lemma_lines_go_on(r, ls);
        let after = r.after_line(ls)->Ok_0;
        let line = trimmed(stripped(ls[r.next]));
        lemma_find(r.current.entries, trimmed(line.take(before(line, '='))));
        lemma_read_keys_differ(after, ls);
    }
}

proof fn lemma_kept_come_from(ts: Seq<Tab>)
    ensures
        forall|i: int| 0 <= i < kept(ts).len() ==> ts.contains(#[trigger] kept(ts)[i]),
    decreases ts.len(),
{
    if ts.len() > 0 {
        lemma_kept_come_from(ts.drop_last());
        assert forall|i: int| 0 <= i < kept(ts).len() implies ts.contains(
            #[trigger] kept(ts)[i],
        ) by {
            if i < kept(ts.drop_last()).len() {
                assert(ts.drop_last().contains(kept(ts.drop_last())[i]));
                let k = choose|k: int|
                    0 <= k < ts.drop_last().len() && ts.drop_last()[k] == kept(ts.drop_last())[i];
                assert(ts[k] == kept(ts)[i]);
            } else {
                assert(ts[ts.len() - 1] == kept(ts)[i]);
            }
        }
    }
}

/// In a file that is accepted, no key is set twice in the same table: what `get`
/// finds is all that the file says of a key.
pub proof fn lemma_no_key_is_set_twice(input: Seq<char>)
    requires
        parsed(input) is Ok,
    ensures
        forall|i: int|
            0 <= i < parsed(input)->Ok_0.len() ==> keys_differ(#[trigger] parsed(input)->Ok_0[i]),
{
    let ls = text_lines(input);
    lemma_read_keys_differ(Reading::start(), ls);
    lemma_kept_come_from(read_from(Reading::start(), ls)->Ok_0);
}

proof fn lemma_errors_are_on_lines(r: Reading, ls: Seq<Seq<char>>)
    requires
        r.next >= 0,
        read_from(r, ls) is Err,
    ensures
        r.next < read_from(r, ls)->Err_0.0 <= ls.len(),
    decreases ls.len() - r.next,
{
    if r.next < ls.len() {
        lemma_lines_go_on(r, ls);
        match r.after_line(ls) {
            Ok(after) => lemma_errors_are_on_lines(after, ls),
            Err(_) => {},
        }
    }
}

/// An error names a line of the file, counted from one.
pub proof fn lemma_errors_name_a_line(input: Seq<char>)
    requires
        parsed(input) is Err,
    ensures
        1 <= parsed(input)->Err_0.0 <= text_lines(input).len(),
{
    lemma_errors_are_on_lines(Reading::start(), text_lines(input));
}

// ---------------------------------------------------------------------------
// What is written is read back

/// A character as it is written between double quotes.
pub open spec fn escaped_char(c: char) -> Seq<char> {
    if c == '\n' {
        seq!['\\', 'n']
    } else if c == '\t' {
        seq!['\\', 't']
    } else if c == '\r' {
        seq!['\\', 'r']
    } else if c == '"' || c == '\\' {
        seq!['\\', c]
    } else {
        seq![c]
    }
}

/// A text as it is written between double quotes.
pub open spec fn escaped(s: Seq<char>) -> Seq<char>
    decreases s.len(),
{
    if s.len() == 0 {
        seq![]
    } else {
        escaped_char(s[0]) + escaped(s.drop_first())
    }
}

/// A text in double quotes.
pub open spec fn quoted(s: Seq<char>) -> Seq<char> {
    seq!['"'] + escaped(s) + seq!['"']
}

/// Texts in double quotes with commas between them.
pub open spec fn items_text(v: Seq<Seq<char>>) -> Seq<char>
    decreases v.len(),
{
    if v.len() == 0 {
        seq![]
    } else if v.len() == 1 {
        quoted(v[0])
    } else {
        items_text(v.drop_last()) + seq![',', ' '] + quoted(v.last())
    }
}

/// A value as it is written behind an equals sign.
pub open spec fn value_text_of(v: Val) -> Seq<char> {
    match v {
        Val::Str(s) => quoted(s),
        Val::Int(i) => dec_int(i),
        Val::Bool(b) => if b {
            "true"@
        } else {
            "false"@
        },
        Val::Array(a) => seq!['['] + items_text(a) + seq![']'],
    }
}

/// Whether a value can be written: a number only if it fits 64 bits.
pub open spec fn can_be_written(v: Val) -> bool {
    v matches Val::Int(i) ==> -0x8000_0000_0000_0000 <= i < 0x8000_0000_0000_0000
}

/// The state behind a text that begins in another state.
spec fn quoting_on(q: Quoting, s: Seq<char>) -> Quoting
    decreases s.len(),
{
    if s.len() == 0 {
        q
    } else {
        quoting_on(quoting_after(q, s[0]), s.drop_first())
    }
}

proof fn lemma_quoting_on_joined(q: Quoting, a: Seq<char>, b: Seq<char>)
    ensures
        quoting_on(q, a + b) == quoting_on(quoting_on(q, a), b),
    decreases a.len(),
{
    if a.len() == 0 {
        assert(a + b =~= b);
    } else {
        assert((a + b).drop_first() =~= a.drop_first() + b);
        lemma_quoting_on_joined(quoting_after(q, a[0]), a.drop_first(), b);
    }
}

proof fn lemma_quoting_is(s: Seq<char>)
    ensures
        quoting(s) == quoting_on(Quoting::Outside, s),
    decreases s.len(),
{
    if s.len() > 0 {
        lemma_quoting_is(s.drop_last());
        lemma_quoting_on_joined(Quoting::Outside, s.drop_last(), seq![s.last()]);
        assert(s.drop_last() + seq![s.last()] =~= s);
        reveal_with_fuel(quoting_on, 2);
        assert(seq![s.last()].drop_first() =~= Seq::empty());
    }
}

proof fn lemma_quoting_joined(a: Seq<char>, b: Seq<char>)
    requires
        quoting(a) is Outside,
    ensures
        quoting(a + b) == quoting(b),
{
    lemma_quoting_is(a);
    lemma_quoting_is(b);
    lemma_quoting_is(a + b);
    lemma_quoting_on_joined(Quoting::Outside, a, b);
}

proof fn lemma_depth_joined(a: Seq<char>, b: Seq<char>)
    requires
        quoting(a) is Outside,
    ensures
        depth(a + b) == depth(a) + depth(b),
    decreases b.len(),
{
    if b.len() == 0 {
        assert(a + b =~= a);
    } else {
        assert((a + b).drop_last() =~= a + b.drop_last());
        lemma_depth_joined(a, b.drop_last());
        lemma_quoting_joined(a, b.drop_last());
    }
}

/// Whether the characters that mean something outside strings stand inside strings only.
spec fn shielded(t: Seq<char>) -> bool {
    &&& quoting(t) is Outside
    &&& forall|k: int|
        0 <= k < t.len() && quoting(#[trigger] t.take(k)) is Outside ==> t[k] != '#' && t[k] != ','
            && t[k] != '[' && t[k] != ']'
}

/// Whether no `#` of a text stands outside strings, and every string ends in it.
pub open spec fn uncommented(t: Seq<char>) -> bool {
    &&& quoting(t) is Outside
    &&& forall|k: int|
        0 <= k < t.len() && quoting(#[trigger] t.take(k)) is Outside ==> t[k] != '#'
}

proof fn lemma_uncommented_joined(a: Seq<char>, b: Seq<char>)
    requires
        uncommented(a),
        uncommented(b),
    ensures
        uncommented(a + b),
{
    let s = a + b;
    lemma_quoting_joined(a, b);
    assert forall|k: int|
        0 <= k < s.len() && quoting(#[trigger] s.take(k)) is Outside implies s[k] != '#' by {
        if k < a.len() {
            assert(s.take(k) =~= a.take(k));
        } else {
            assert(s.take(k) =~= a + b.take(k - a.len()));
            lemma_quoting_joined(a, b.take(k - a.len()));
        }
    }
}

proof fn lemma_no_quotes(t: Seq<char>)
    requires
        forall|k: int| 0 <= k < t.len() ==> t[k] != '"' && t[k] != '\'',
    ensures
        quoting(t) is Outside,
        forall|k: int| 0 <= k <= t.len() ==> quoting(#[trigger] t.take(k)) is Outside,
    decreases t.len(),
{
    if t.len() > 0 {
        let init = t.drop_last();
        lemma_no_quotes(init);
        assert forall|k: int| 0 <= k <= t.len() implies quoting(#[trigger] t.take(k))
            is Outside by {
            if k < t.len() {
                assert(t.take(k) =~= init.take(k));
            } else {
                assert(t.take(k) =~= t);
            }
        }
    } else {
        assert forall|k: int| 0 <= k <= t.len() implies quoting(#[trigger] t.take(k))
            is Outside by {
            assert(t.take(k) =~= Seq::empty());
        }
    }
}

proof fn lemma_escaped_inside(s: Seq<char>, k: int)
    requires
        0 <= k <= escaped(s).len(),
    ensures
        ({
            let q = Quoting::Inside { quote: '"', escaped: false };
            &&& quoting_on(q, escaped(s).take(k)) is Inside
            &&& k == escaped(s).len() ==> quoting_on(q, escaped(s).take(k)) == q
        }),
    decreases s.len(),
{
    let q = Quoting::Inside { quote: '"', escaped: false };
    let t = escaped(s);
    reveal_with_fuel(quoting_on, 3);
    if s.len() == 0 {
        assert(t.take(k) =~= Seq::empty());
    } else {
        let e = escaped_char(s[0]);
        let rest = escaped(s.drop_first());
        assert(t == e + rest);
        if e.len() == 2 {
            assert(e.drop_first() =~= seq![e[1]]);
            assert(seq![e[1]].drop_first() =~= Seq::empty());
        } else {
            assert(e.drop_first() =~= Seq::empty());
        }
        assert(quoting_on(q, e) == q);
        if k < e.len() {
            if k == 0 {
                assert(t.take(0) =~= Seq::empty());
            } else {
                assert(t.take(1) =~= seq!['\\']);
                assert(seq!['\\'].drop_first() =~= Seq::empty());
            }
        } else {
            lemma_escaped_inside(s.drop_first(), k - e.len());
            assert(t.take(k) =~= e + rest.take(k - e.len()));
            lemma_quoting_on_joined(q, e, rest.take(k - e.len()));
        }
    }
}

proof fn lemma_quoted_is_shielded(s: Seq<char>)
    ensures
        shielded(quoted(s)),
{
    let t = quoted(s);
    let e = escaped(s);
    let q = Quoting::Inside { quote: '"', escaped: false };
    reveal_with_fuel(quoting_on, 2);
    let open = seq!['"'];
    assert(open.drop_first() =~= Seq::empty());
    assert(quoting_on(Quoting::Outside, open) == q);
    assert forall|k: int| 0 < k < t.len() implies quoting(#[trigger] t.take(k)) is Inside by {
        lemma_quoting_is(t.take(k));
        lemma_escaped_inside(s, k - 1);
        assert(t.take(k) =~= open + e.take(k - 1));
        lemma_quoting_on_joined(Quoting::Outside, open, e.take(k - 1));
    }
    lemma_escaped_inside(s, e.len() as int);
    assert(e.take(e.len() as int) =~= e);
    lemma_quoting_on_joined(Quoting::Outside, open, e);
    lemma_quoting_on_joined(Quoting::Outside, open + e, open);
    lemma_quoting_is(t);
    assert(t.take(0) =~= Seq::empty());
    assert(t[0] == '"');
}

proof fn lemma_shielded_is_one_part(t: Seq<char>)
    requires
        shielded(t),
    ensures
        array_parts(t) == seq![t],
        depth(t) == 0,
        uncommented(t),
{
    assert(t.take(t.len() as int) =~= t);
    lemma_shielded_prefix(t, t.len() as int);
}

proof fn lemma_shielded_prefix(t: Seq<char>, n: int)
    requires
        shielded(t),
        0 <= n <= t.len(),
    ensures
        array_parts(t.take(n)) == seq![t.take(n)],
        depth(t.take(n)) == 0,
    decreases n,
{
    let s = t.take(n);
    if n == 0 {
        assert(s =~= Seq::empty());
        assert(array_parts(s) =~= seq![s]);
    } else {
        lemma_shielded_prefix(t, n - 1);
        assert(s.drop_last() =~= t.take(n - 1));
        assert(s.last() == t[n - 1]);
        let rest = array_parts(s.drop_last());
        assert(rest.last().push(s.last()) =~= s);
        assert(array_parts(s) =~= seq![s]);
    }
}

proof fn lemma_parts_joined(a: Seq<char>, b: Seq<char>)
    requires
        quoting(a) is Outside,
    ensures
        array_parts(a).len() > 0,
        array_parts(b).len() > 0,
        array_parts(a + b) == array_parts(a).drop_last().push(
            array_parts(a).last() + array_parts(b)[0],
        ) + array_parts(b).drop_first(),
    decreases b.len(),
{
    lemma_array_parts(a);
    lemma_array_parts(b);
    let pa = array_parts(a);
    let pb = array_parts(b);
    if b.len() == 0 {
        assert(a + b =~= a);
        assert(pb =~= seq![Seq::<char>::empty()]);
        assert(pa.last() + pb[0] =~= pa.last());
        assert(pa.drop_last().push(pa.last()) + pb.drop_first() =~= pa);
    } else {
        let init = b.drop_last();
        assert((a + b).drop_last() =~= a + init);
        lemma_parts_joined(a, init);
        lemma_quoting_joined(a, init);
        let pi = array_parts(init);
        let had = array_parts(a + init);
        let head = pa.drop_last();
        if b.last() == ',' && quoting(init) is Outside {
            assert(pb == pi.push(Seq::empty()));
            assert(had.push(Seq::empty()) =~= head.push(pa.last() + pb[0]) + pb.drop_first());
        } else {
            assert(pb == pi.drop_last().push(pi.last().push(b.last())));
            if pi.len() == 1 {
                assert((pa.last() + pi[0]).push(b.last()) =~= pa.last() + pi[0].push(b.last()));
                assert(had.drop_last().push(had.last().push(b.last())) =~= head.push(
                    pa.last() + pb[0],
                ) + pb.drop_first());
            } else {
                assert(had.last() == pi.last());
                assert(had.drop_last().push(had.last().push(b.last())) =~= head.push(
                    pa.last() + pb[0],
                ) + pb.drop_first());
            }
        }
    }
}

proof fn lemma_unescaped(out: Seq<char>, s: Seq<char>)
    ensures
        unescaped(out, escaped(s)) == Ok::<Seq<char>, Seq<char>>(out + s),
    decreases s.len(),
{
    if s.len() == 0 {
        assert(out + s =~= out);
    } else {
        let e = escaped_char(s[0]);
        let rest = escaped(s.drop_first());
        let t = escaped(s);
        lemma_unescaped(out.push(s[0]), s.drop_first());
        assert(out.push(s[0]) + s.drop_first() =~= out + s);
        assert(t == e + rest);
        if e.len() == 2 {
            assert(t[0] == '\\' && t[1] == e[1]);
            assert(t.skip(2) =~= rest);
        } else {
            assert(t[0] == s[0]);
            assert(t.skip(1) =~= rest);
        }
    }
}

proof fn lemma_true_and_false()
    ensures
        "true"@ == seq!['t', 'r', 'u', 'e'],
        "false"@ == seq!['f', 'a', 'l', 's', 'e'],
{
    reveal_strlit("true");
    reveal_strlit("false");
    assert("true"@ =~= seq!['t', 'r', 'u', 'e']);
    assert("false"@ =~= seq!['f', 'a', 'l', 's', 'e']);
}

proof fn lemma_quoted_reads_back(s: Seq<char>)
    ensures
        parsed_value(quoted(s)) == Ok::<Val, Seq<char>>(Val::Str(s)),
        quoted(s).len() >= 2,
        quoted(s)[0] == '"',
        quoted(s).last() == '"',
{
    let t = quoted(s);
    lemma_true_and_false();
    assert(t[0] == '"');
    assert(t.subrange(1, t.len() - 1) =~= escaped(s));
    lemma_unescaped(seq![], s);
    assert(Seq::<char>::empty() + s =~= s);
    assert("true"@[0] == 't' && "false"@[0] == 'f');
}

proof fn lemma_items(v: Seq<Seq<char>>, limit: nat)
    requires
        limit > items_text(v).len(),
    ensures
        parsed_items(array_parts(items_text(v)), limit) == Ok::<Seq<Seq<char>>, Seq<char>>(v),
        uncommented(items_text(v)),
        depth(items_text(v)) == 0,
    decreases v.len(),
{
    let t = items_text(v);
    if v.len() == 0 {
        let none = Seq::<char>::empty();
        assert(array_parts(t) =~= seq![none]);
        let ps = seq![none];
        assert(ps.drop_last() =~= Seq::empty());
        assert(parsed_items(ps.drop_last(), limit) == Ok::<Seq<Seq<char>>, Seq<char>>(seq![]));
        lemma_trimmed_len(none);
        assert(v =~= seq![]);
        assert(ps.last() == none);
    } else {
        let x = v.last();
        let y = quoted(x);
        lemma_quoted_is_shielded(x);
        lemma_shielded_is_one_part(y);
        lemma_quoted_reads_back(x);
        if v.len() == 1 {
            let ps = seq![y];
            assert(array_parts(t) == ps);
            assert(ps.drop_last() =~= Seq::empty());
            assert(parsed_items(ps.drop_last(), limit) == Ok::<Seq<Seq<char>>, Seq<char>>(seq![]));
            lemma_trimming_undone(seq![], y, seq![]);
            assert(seq![] + y + seq![] =~= y);
            assert(Seq::<Seq<char>>::empty().push(x) =~= v);
        } else {
            let init = v.drop_last();
            let a = items_text(init);
            let comma = seq![',', ' '];
            lemma_items(init, limit);
            lemma_comma();
            lemma_quoting_joined(comma, y);
            lemma_parts_joined(comma, y);
            let b = comma + y;
            let pb = array_parts(b);
            assert(pb =~= seq![Seq::<char>::empty(), seq![' '] + y]);
            assert(t =~= a + b);
            lemma_parts_joined(a, b);
            let pa = array_parts(a);
            assert(pa.last() + pb[0] =~= pa.last());
            assert(pa.drop_last().push(pa.last()) =~= pa);
            let ps = array_parts(t);
            assert(ps =~= pa.push(seq![' '] + y));
            assert(ps.drop_last() =~= pa);
            lemma_trimming_undone(seq![' '], y, seq![]);
            assert(seq![' '] + y + seq![] =~= seq![' '] + y);
            assert(init.push(x) =~= v);
            lemma_uncommented_joined(comma, y);
            lemma_uncommented_joined(a, b);
            lemma_depth_joined(comma, y);
            lemma_depth_joined(a, b);
        }
    }
}

proof fn lemma_comma()
    ensures
        uncommented(seq![',', ' ']),
        depth(seq![',', ' ']) == 0,
        array_parts(seq![',', ' ']) == seq![Seq::<char>::empty(), seq![' ']],
{
    let c = seq![',', ' '];
    lemma_no_quotes(c);
    assert(c.drop_last() =~= seq![',']);
    assert(seq![','].drop_last() =~= Seq::empty());
    assert(quoting(Seq::empty()) is Outside);
    let none = Seq::<char>::empty();
    assert(array_parts(none) =~= seq![none]);
    assert(array_parts(seq![',']) =~= seq![none, none]);
    assert(none.push(' ') =~= seq![' ']);
    assert(array_parts(c) =~= seq![none, seq![' ']]);
    assert(depth(none) == 0);
    assert(depth(seq![',']) == 0);
}

/// Every value is read back from what is written of it: a text from its quotes and
/// escapes, a number from its digits, a truth value from its word, and an array from its
/// items between brackets and commas. A text in single quotes is read as it stands.
pub proof fn lemma_values_read_back(v: Val, s: Seq<char>)
    requires
        can_be_written(v),
    ensures
        parsed_value(value_text_of(v)) == Ok::<Val, Seq<char>>(v),
        parsed_value(seq!['\''] + s + seq!['\'']) == Ok::<Val, Seq<char>>(Val::Str(s)),
{
    lemma_true_and_false();
    let l = seq!['\''] + s + seq!['\''];
    assert(l[0] == '\'' && l.last() == '\'');
    assert("true"@[0] == 't' && "false"@[0] == 'f');
    assert(l.subrange(1, l.len() - 1) =~= s);
    let t = value_text_of(v);
    match v {
        Val::Str(x) => lemma_quoted_reads_back(x),
        Val::Int(i) => {
            lemma_written_integer_reads_back(i);
            lemma_integers_are_plain(i);
            assert(t[0] != 't' && t[0] != 'f');
        },
        Val::Bool(b) => {
            if !b {
                assert("true"@.len() == 4 && "false"@.len() == 5);
            }
        },
        Val::Array(a) => {
            assert(t[0] == '[' && t.last() == ']');
            assert(t.subrange(1, t.len() - 1) =~= items_text(a));
            lemma_items(a, t.len());
        },
    }
}

proof fn lemma_integers_are_plain(i: int)
    ensures
        dec_int(i).len() > 0,
        forall|k: int|
            0 <= k < dec_int(i).len() ==> (#[trigger] dec_int(i)[k]) == '-' || '0' <= dec_int(i)[k]
                <= '9',
{
    let n = (if i < 0 {
        -i
    } else {
        i
    }) as nat;
    lemma_numeral_value(n, 10);
    let d = dec(n);
    assert forall|k: int| 0 <= k < dec_int(i).len() implies (#[trigger] dec_int(i)[k]) == '-'
        || '0' <= dec_int(i)[k] <= '9' by {
        let j = if i < 0 {
            k - 1
        } else {
            k
        };
        if 0 <= j < d.len() {
            assert(digit_value(d[j], 10) is Some);
            assert(dec_int(i)[k] == d[j]);
        }
    }
}

/// Whether a text can stand as a key or as the name of a table without quotes.
pub open spec fn bare(k: Seq<char>) -> bool {
    k.len() > 0 && forall|i: int|
        0 <= i < k.len() ==> !is_white(#[trigger] k[i]) && k[i] != '=' && k[i] != '#' && k[i] != '"'
            && k[i] != '\'' && k[i] != '[' && k[i] != ']'
}

/// The line that sets a key to a value.
pub open spec fn entry_line(key: Seq<char>, v: Val) -> Seq<char> {
    key + seq![' ', '=', ' '] + value_text_of(v)
}

/// Whether a text is white space up to a place, and a comment from there on, if anything.
pub open spec fn comment_from(s: Seq<char>, i: int) -> bool {
    &&& 0 <= i <= s.len()
    &&& forall|k: int| 0 <= k < i ==> is_white(#[trigger] s[k])
    &&& i < s.len() ==> s[i] == '#'
}

/// Whether a text may stand behind a line: white space and a comment, or one of them, or
/// nothing.
pub open spec fn remark(s: Seq<char>) -> bool {
    exists|i: int| #[trigger] comment_from(s, i)
}

proof fn lemma_value_text(v: Val)
    requires
        can_be_written(v),
    ensures
        ({
            let t = value_text_of(v);
            &&& t.len() > 0 && !is_white(t[0]) && !is_white(t.last())
            &&& uncommented(t)
            &&& balanced(t)
        }),
{
    let t = value_text_of(v);
    lemma_true_and_false();
    match v {
        Val::Str(x) => {
            lemma_quoted_is_shielded(x);
            lemma_shielded_is_one_part(t);
            lemma_quoted_reads_back(x);
        },
        Val::Int(i) => {
            lemma_integers_are_plain(i);
            lemma_no_quotes(t);
            lemma_shielded_is_one_part(t);
        },
        Val::Bool(b) => {
            lemma_no_quotes(t);
            lemma_shielded_is_one_part(t);
        },
        Val::Array(a) => {
            let open = seq!['['];
            let close = seq![']'];
            lemma_items(a, t.len());
            lemma_no_quotes(open);
            lemma_no_quotes(close);
            assert(open.drop_last() =~= Seq::empty());
            assert(close.drop_last() =~= Seq::empty());
            assert(quoting(Seq::empty()) is Outside);
            assert(depth(Seq::empty()) == 0);
            assert(depth(open) == 1);
            assert(depth(close) == -1);
            lemma_uncommented_joined(open, items_text(a));
            lemma_uncommented_joined(open + items_text(a), close);
            lemma_depth_joined(open, items_text(a));
            lemma_depth_joined(open + items_text(a), close);
        },
    }
}

proof fn lemma_comment_is_cut(t: Seq<char>, rest: Seq<char>, i: int)
    requires
        uncommented(t),
        0 <= i <= t.len(),
        rest.len() > 0 ==> rest[0] == '#',
    ensures
        comment_at(t + rest, i) == t.len(),
    decreases t.len() - i,
{
    let s = t + rest;
    if i < t.len() {
        assert(s.take(i) =~= t.take(i));
        lemma_comment_is_cut(t, rest, i + 1);
    } else if rest.len() > 0 {
        assert(s.take(i) =~= t);
        assert(s[i] == '#');
    }
}

/// A line is read as if the comment behind it, and the white space before the comment, were
/// not there.
proof fn lemma_remarks_are_passed_over(t: Seq<char>, more: Seq<char>)
    requires
        uncommented(t),
        t.len() > 0,
        !is_white(t[0]),
        !is_white(t.last()),
        remark(more),
    ensures
        trimmed(stripped(t + more)) == t,
{
    let i = choose|i: int| #[trigger] comment_from(more, i);
    let blank = more.take(i);
    let rest = more.skip(i);
    assert forall|k: int| 0 <= k < blank.len() implies blank[k] != '"' && blank[k] != '\'' by {
        assert(is_white(more[k]));
    }
    lemma_no_quotes(blank);
    assert forall|k: int|
        0 <= k < blank.len() && quoting(#[trigger] blank.take(k)) is Outside implies blank[k]
        != '#' by {
        assert(is_white(more[k]));
    }
    lemma_uncommented_joined(t, blank);
    assert(t + more =~= (t + blank) + rest);
    lemma_comment_is_cut(t + blank, rest, 0);
    assert(stripped(t + more) =~= t + blank);
    lemma_trimming_undone(seq![], t, blank);
    assert(seq![] + t + blank =~= t + blank);
}

/// A line that sets a key adds the key and its value to the table that is being read, under
/// the number of the line, whatever comment stands behind it; a key that the table has
/// already is refused.
pub proof fn lemma_an_entry_is_read(
    r: Reading,
    ls: Seq<Seq<char>>,
    key: Seq<char>,
    v: Val,
    more: Seq<char>,
)
    requires
        0 <= r.next < ls.len(),
        bare(key),
        can_be_written(v),
        remark(more),
        ls[r.next] == entry_line(key, v) + more,
    ensures
        (forall|i: int| 0 <= i < r.current.entries.len() ==> (#[trigger] r.current.entries[i]).0
            != key) ==> r.after_line(ls) == Ok::<Reading, Seq<char>>(
            Reading {
                tables: r.tables,
                current: Tab {
                    name: r.current.name,
                    line: r.current.line,
                    entries: r.current.entries.push((key, v, r.next + 1)),
                },
                next: r.next + 1,
            },
        ),
        (exists|i: int| 0 <= i < r.current.entries.len() && (#[trigger] r.current.entries[i]).0
            == key) ==> r.after_line(ls) is Err,
{
    reveal_strlit("[[");
    reveal_strlit("[");
    let t = value_text_of(v);
    let mid = seq![' ', '=', ' '];
    let line = entry_line(key, v);
    lemma_value_text(v);
    lemma_values_read_back(v, seq![]);
    lemma_no_quotes(key);
    lemma_no_quotes(mid);
    lemma_uncommented_joined(key, mid);
    lemma_uncommented_joined(key + mid, t);
    assert(line[0] == key[0]);
    assert(line.last() == t.last());
    assert(!is_white(key[0]));
    lemma_remarks_are_passed_over(line, more);
    let eq = key.len() as int + 1;
    assert(line[eq] == '=');
    assert forall|j: int| 0 <= j < eq implies line[j] != '=' by {
        if j < key.len() {
            assert(line[j] == key[j]);
        }
    }
    lemma_before_is(line, '=', eq);
    assert(line.take(eq) =~= seq![] + key + seq![' ']);
    assert(!is_white(key[key.len() - 1]));
    lemma_trimming_undone(seq![], key, seq![' ']);
    let text = line.skip(eq + 1);
    assert(text =~= seq![' '] + t + seq![]);
    lemma_trimming_undone(seq![' '], t, seq![]);
    let blank = seq![' '];
    lemma_no_quotes(blank);
    assert(blank.drop_last() =~= Seq::empty());
    assert(depth(Seq::empty()) == 0);
    assert(depth(blank) == 0);
    lemma_quoting_joined(blank, t);
    lemma_depth_joined(blank, t);
    assert(text =~= blank + t);
    assert(balanced(text));
    lemma_find(r.current.entries, key);
    assert(!begins_with(line, "[["@)) by {
        if begins_with(line, "[["@) {
            assert(line.take(2)[0] == line[0]);
        }
    }
}

/// A line with the name of a table between brackets begins that table; between single
/// brackets only if no table of the name was seen before.
pub proof fn lemma_a_heading_is_read(
    r: Reading,
    ls: Seq<Seq<char>>,
    name: Seq<char>,
    more: Seq<char>,
)
    requires
        0 <= r.next < ls.len(),
        bare(name),
        remark(more),
    ensures
        ({
            let opened = Ok::<Reading, Seq<char>>(
                Reading {
                    tables: r.tables.push(r.current),
                    current: Tab { name, line: r.next + 1, entries: seq![] },
                    next: r.next + 1,
                },
            );
            let seen = r.current.name == name || exists|i: int|
                0 <= i < r.tables.len() && (#[trigger] r.tables[i]).name == name;
            &&& ls[r.next] == seq!['[', '['] + name + seq![']', ']'] + more ==> r.after_line(ls)
                == opened
            &&& ls[r.next] == seq!['['] + name + seq![']'] + more && !seen ==> r.after_line(ls)
                == opened
            &&& ls[r.next] == seq!['['] + name + seq![']'] + more && seen ==> r.after_line(ls)
                is Err
        }),
{
    reveal_strlit("[[");
    reveal_strlit("[");
    lemma_no_quotes(name);
    assert(uncommented(name));
    let two = seq!['[', '['];
    let end2 = seq![']', ']'];
    let one = seq!['['];
    let end1 = seq![']'];
    lemma_no_quotes(two);
    lemma_no_quotes(end2);
    lemma_no_quotes(one);
    lemma_no_quotes(end1);
    lemma_uncommented_joined(two, name);
    lemma_uncommented_joined(two + name, end2);
    lemma_uncommented_joined(one, name);
    lemma_uncommented_joined(one + name, end1);
    let a = two + name + end2;
    let b = one + name + end1;
    lemma_remarks_are_passed_over(a, more);
    lemma_remarks_are_passed_over(b, more);
    assert(!is_white(name[0]) && !is_white(name[name.len() - 1]));
    lemma_trimming_undone(seq![], name, seq![]);
    assert(seq![] + name + seq![] =~= name);
    let n = a.len() as int;
    let m = b.len() as int;
    assert(a.subrange(2, n - 2) =~= name);
    assert(b.subrange(1, m - 1) =~= name);
    assert(a.take(2) =~= "[["@);
    assert(begins_with(a, "[["@));
    assert(!begins_with(b, "[["@)) by {
        if begins_with(b, "[["@) {
            assert(b.take(2)[1] == b[1]);
            assert(b[1] == name[0]);
        }
    }
    if ls[r.next] == a + more {
        assert(trimmed(stripped(ls[r.next])) == a);
    }
    if ls[r.next] == b + more {
        assert(trimmed(stripped(ls[r.next])) == b);
    }
}

/// A line with nothing on it but a comment, if that, is passed over.
pub proof fn lemma_blank_lines_are_passed_over(r: Reading, ls: Seq<Seq<char>>)
    requires
        0 <= r.next < ls.len(),
        remark(ls[r.next]),
    ensures
        r.after_line(ls) == Ok::<Reading, Seq<char>>(Reading { next: r.next + 1, ..r }),
{
    let more = ls[r.next];
    let i = choose|i: int| #[trigger] comment_from(more, i);
    let blank = more.take(i);
    let rest = more.skip(i);
    assert forall|k: int| 0 <= k < blank.len() implies blank[k] != '"' && blank[k] != '\'' by {
        assert(is_white(more[k]));
    }
    lemma_no_quotes(blank);
    assert forall|k: int|
        0 <= k < blank.len() && quoting(#[trigger] blank.take(k)) is Outside implies blank[k]
        != '#' by {
        assert(is_white(more[k]));
    }
    lemma_comment_is_cut(blank, rest, 0);
    assert(blank + rest =~= more);
    assert(stripped(more) =~= blank);
    lemma_white_alone(blank);
}

proof fn lemma_white_alone(s: Seq<char>)
    requires
        forall|k: int| 0 <= k < s.len() ==> is_white(#[trigger] s[k]),
    ensures
        trimmed(s).len() == 0,
{
    lemma_trimming(s);
    let (i, j) = choose|i: int, j: int|
        {
            &&& 0 <= i <= j <= s.len()
            &&& trimmed(s) == #[trigger] s.subrange(i, j)
            &&& forall|k: int| 0 <= k < i || j <= k < s.len() ==> is_white(#[trigger] s[k])
        };
    if trimmed(s).len() > 0 {
        assert(trimmed(s)[0] == s[i]);
    }
}

/// A table to be written: its name, and its keys with their values.
pub struct Written {
    pub name: Seq<char>,
    pub entries: Seq<(Seq<char>, Val)>,
}

impl Written {
    /// Whether it can be written: names and keys that need no quotes, values that have a
    /// form, and no key twice.
    pub open spec fn fits(self) -> bool {
        &&& bare(self.name)
        &&& forall|i: int|
            0 <= i < self.entries.len() ==> bare((#[trigger] self.entries[i]).0) && can_be_written(
                self.entries[i].1,
            )
        &&& forall|i: int, j: int|
            0 <= i < j < self.entries.len() ==> (#[trigger] self.entries[i]).0 != (
            #[trigger] self.entries[j]).0
    }

    /// The lines of the table.
    pub open spec fn lines(self) -> Seq<Seq<char>> {
        seq![seq!['[', '['] + self.name + seq![']', ']']] + self.entries.map_values(
            |e: (Seq<char>, Val)| entry_line(e.0, e.1),
        )
    }

    /// The table as it is read where `n` lines stand before it.
    pub open spec fn tab(self, n: int) -> Tab {
        Tab { name: self.name, line: n + 1, entries: numbered(self.entries, n + 1) }
    }
}

/// Entries with the numbers of the lines that they stand on, where `n` lines come before.
pub open spec fn numbered(es: Seq<(Seq<char>, Val)>, n: int) -> Seq<(Seq<char>, Val, int)> {
    Seq::new(es.len(), |i: int| (es[i].0, es[i].1, n + 1 + i))
}

/// The lines of a file.
pub open spec fn file_lines(ts: Seq<Written>) -> Seq<Seq<char>>
    decreases ts.len(),
{
    if ts.len() == 0 {
        seq![]
    } else {
        ts[0].lines() + file_lines(ts.drop_first())
    }
}

/// The tables as they are read where `n` lines stand before them.
pub open spec fn as_read(ts: Seq<Written>, n: int) -> Seq<Tab>
    decreases ts.len(),
{
    if ts.len() == 0 {
        seq![]
    } else {
        seq![ts[0].tab(n)] + as_read(ts.drop_first(), n + 1 + ts[0].entries.len())
    }
}

/// Lines as a text, each with a line feed behind it.
pub open spec fn text_of_lines(ls: Seq<Seq<char>>) -> Seq<char>
    decreases ls.len(),
{
    if ls.len() == 0 {
        seq![]
    } else {
        ls[0] + seq!['\n'] + text_of_lines(ls.drop_first())
    }
}

/// A file that is written table by table, each under its heading, is read as these tables,
/// in order, with every key and every value as they were written, and the numbers of the
/// lines they stand on.
pub proof fn lemma_a_written_file_reads_back(ts: Seq<Written>)
    requires
        forall|i: int| 0 <= i < ts.len() ==> (#[trigger] ts[i]).fits(),
    ensures
        parsed(text_of_lines(file_lines(ts))) == Ok::<Seq<Tab>, (int, Seq<char>)>(as_read(ts, 0)),
{
    let ls = file_lines(ts);
    lemma_file_lines(ts);
    lemma_lines_back(ls);
    let r = Reading::start();
    assert(ls.skip(0) =~= ls);
    lemma_tables_are_read(r, ls, ts);
    lemma_names_are_kept(ts, 0);
    lemma_nameless_goes(r.current, as_read(ts, 0));
    assert(r.tables.push(r.current) =~= seq![r.current]);
}

proof fn lemma_escaped_is_one_line(s: Seq<char>)
    ensures
        forall|k: int| 0 <= k < escaped(s).len() ==> escaped(s)[k] != '\n',
    decreases s.len(),
{
    if s.len() > 0 {
        lemma_escaped_is_one_line(s.drop_first());
        let e = escaped_char(s[0]);
        let rest = escaped(s.drop_first());
        assert forall|k: int| 0 <= k < escaped(s).len() implies escaped(s)[k] != '\n' by {
            if k >= e.len() {
                assert(escaped(s)[k] == rest[k - e.len()]);
            } else {
                assert(escaped(s)[k] == e[k]);
            }
        }
    }
}

proof fn lemma_items_are_one_line(v: Seq<Seq<char>>)
    ensures
        forall|k: int| 0 <= k < items_text(v).len() ==> items_text(v)[k] != '\n',
    decreases v.len(),
{
    if v.len() > 0 {
        let q = quoted(v.last());
        lemma_escaped_is_one_line(v.last());
        assert forall|k: int| 0 <= k < q.len() implies q[k] != '\n' by {
            if 1 <= k < q.len() - 1 {
                assert(q[k] == escaped(v.last())[k - 1]);
            }
        }
        if v.len() > 1 {
            let a = items_text(v.drop_last());
            lemma_items_are_one_line(v.drop_last());
            assert forall|k: int| 0 <= k < items_text(v).len() implies items_text(v)[k] != '\n' by {
                if k < a.len() {
                    assert(items_text(v)[k] == a[k]);
                } else if k >= a.len() + 2 {
                    assert(items_text(v)[k] == q[k - a.len() - 2]);
                }
            }
        }
    }
}

proof fn lemma_value_is_one_line(v: Val)
    requires
        can_be_written(v),
    ensures
        forall|k: int| 0 <= k < value_text_of(v).len() ==> value_text_of(v)[k] != '\n',
{
    lemma_true_and_false();
    match v {
        Val::Str(s) => lemma_escaped_is_one_line(s),
        Val::Int(i) => {
            lemma_integers_are_plain(i);
        },
        Val::Bool(_) => {},
        Val::Array(a) => lemma_items_are_one_line(a),
    }
}

/// Whether a text is one line.
spec fn is_line(l: Seq<char>) -> bool {
    &&& forall|k: int| 0 <= k < l.len() ==> l[k] != '\n'
    &&& l.len() > 0 ==> l.last() != '\r'
}

proof fn lemma_table_lines(t: Written)
    requires
        t.fits(),
    ensures
        t.lines().len() == 1 + t.entries.len(),
        forall|i: int| 0 <= i < t.lines().len() ==> is_line(#[trigger] t.lines()[i]),
{
    assert forall|i: int| 0 <= i < t.lines().len() implies is_line(#[trigger] t.lines()[i]) by {
        let l = t.lines()[i];
        if i == 0 {
            assert(l == seq!['[', '['] + t.name + seq![']', ']']);
            assert forall|k: int| 0 <= k < l.len() implies l[k] != '\n' by {
                if 2 <= k < 2 + t.name.len() {
                    assert(l[k] == t.name[k - 2]);
                    assert(!is_white(t.name[k - 2]));
                }
            }
        } else {
            let (key, v) = t.entries[i - 1];
            assert(l == entry_line(key, v));
            assert(bare(key) && can_be_written(v));
            lemma_value_is_one_line(v);
            lemma_value_text(v);
            let n = key.len() as int;
            assert forall|k: int| 0 <= k < l.len() implies l[k] != '\n' by {
                if k < n {
                    assert(l[k] == key[k]);
                    assert(!is_white(key[k]));
                } else if k >= n + 3 {
                    assert(l[k] == value_text_of(v)[k - n - 3]);
                }
            }
            assert(l.last() == value_text_of(v).last());
        }
    }
}

proof fn lemma_file_lines(ts: Seq<Written>)
    requires
        forall|i: int| 0 <= i < ts.len() ==> (#[trigger] ts[i]).fits(),
    ensures
        forall|i: int| 0 <= i < file_lines(ts).len() ==> is_line(#[trigger] file_lines(ts)[i]),
    decreases ts.len(),
{
    if ts.len() > 0 {
        let rest = ts.drop_first();
        assert forall|i: int| 0 <= i < rest.len() implies (#[trigger] rest[i]).fits() by {
            assert(rest[i] == ts[i + 1]);
        }
        lemma_file_lines(rest);
        assert(ts[0].fits());
        lemma_table_lines(ts[0]);
        let a = ts[0].lines();
        let b = file_lines(rest);
        assert forall|i: int| 0 <= i < file_lines(ts).len() implies is_line(
            #[trigger] file_lines(ts)[i],
        ) by {
            if i < a.len() {
                assert(file_lines(ts)[i] == a[i]);
            } else {
                assert(file_lines(ts)[i] == b[i - a.len()]);
            }
        }
    }
}

proof fn lemma_lines_back(ls: Seq<Seq<char>>)
    requires
        forall|i: int| 0 <= i < ls.len() ==> is_line(#[trigger] ls[i]),
    ensures
        text_lines(text_of_lines(ls)) == ls,
    decreases ls.len(),
{
    if ls.len() == 0 {
        lemma_lines_read_back(seq![], seq![]);
        assert(ls =~= seq![]);
    } else {
        let rest = ls.drop_first();
        assert forall|i: int| 0 <= i < rest.len() implies is_line(#[trigger] rest[i]) by {
            assert(rest[i] == ls[i + 1]);
        }
        lemma_lines_back(rest);
        assert(is_line(ls[0]));
        lemma_lines_read_back(ls[0], text_of_lines(rest));
        assert(seq![ls[0]] + rest =~= ls);
    }
}

proof fn lemma_entries_are_read(r: Reading, ls: Seq<Seq<char>>, es: Seq<(Seq<char>, Val)>)
    requires
        0 <= r.next,
        r.next + es.len() <= ls.len(),
        forall|i: int|
            0 <= i < es.len() ==> bare((#[trigger] es[i]).0) && can_be_written(es[i].1)
                && ls[r.next + i] == entry_line(es[i].0, es[i].1),
        forall|i: int, j: int|
            0 <= i < j < es.len() ==> (#[trigger] es[i]).0 != (#[trigger] es[j]).0,
        forall|i: int, j: int|
            0 <= i < es.len() && 0 <= j < r.current.entries.len() ==> (#[trigger] es[i]).0 != (
            #[trigger] r.current.entries[j]).0,
    ensures
        read_from(r, ls) == read_from(
            Reading {
                tables: r.tables,
                current: Tab {
                    name: r.current.name,
                    line: r.current.line,
                    entries: r.current.entries + numbered(es, r.next),
                },
                next: r.next + es.len(),
            },
            ls,
        ),
    decreases es.len(),
{
    if es.len() == 0 {
        assert(r.current.entries + numbered(es, r.next) =~= r.current.entries);
    } else {
        let (key, v) = es[0];
        let rest = es.drop_first();
        let none = Seq::<char>::empty();
        assert(comment_from(none, 0));
        assert(entry_line(key, v) + none =~= entry_line(key, v));
        assert(bare(es[0].0));
        assert(ls[r.next + 0] == entry_line(key, v));
        lemma_an_entry_is_read(r, ls, key, v, none);
        let s = r.after_line(ls)->Ok_0;
        let had = r.current.entries;
        assert forall|i: int| 0 <= i < rest.len() implies bare((#[trigger] rest[i]).0)
            && can_be_written(rest[i].1) && ls[s.next + i] == entry_line(rest[i].0, rest[i].1) by {
            assert(rest[i] == es[i + 1]);
            assert(ls[r.next + (i + 1)] == entry_line(es[i + 1].0, es[i + 1].1));
        }
        assert forall|i: int, j: int| 0 <= i < j < rest.len() implies (#[trigger] rest[i]).0 != (
        #[trigger] rest[j]).0 by {
            assert(rest[i] == es[i + 1] && rest[j] == es[j + 1]);
        }
        assert forall|i: int, j: int|
            0 <= i < rest.len() && 0 <= j < s.current.entries.len() implies (#[trigger] rest[i]).0
            != (#[trigger] s.current.entries[j]).0 by {
            assert(rest[i] == es[i + 1]);
            if j < had.len() {
                assert(s.current.entries[j] == had[j]);
            } else {
                assert(es[0].0 != es[i + 1].0);
            }
        }
        lemma_entries_are_read(s, ls, rest);
        assert(s.current.entries + numbered(rest, s.next) =~= had + numbered(es, r.next));
    }
}

proof fn lemma_tables_are_read(r: Reading, ls: Seq<Seq<char>>, ts: Seq<Written>)
    requires
        0 <= r.next <= ls.len(),
        ls.skip(r.next) == file_lines(ts),
        forall|i: int| 0 <= i < ts.len() ==> (#[trigger] ts[i]).fits(),
    ensures
        read_from(r, ls) == Ok::<Seq<Tab>, (int, Seq<char>)>(
            r.tables.push(r.current) + as_read(ts, r.next),
        ),
    decreases ts.len(),
{
    let tail = ls.skip(r.next);
    if ts.len() == 0 {
        assert(tail.len() == 0);
        assert(r.tables.push(r.current) + as_read(ts, r.next) =~= r.tables.push(r.current));
    } else {
        let t = ts[0];
        let rest = ts.drop_first();
        assert(t.fits());
        lemma_table_lines(t);
        let n = t.entries.len() as int;
        assert(tail.len() >= 1 + n);
        assert(ls[r.next] == tail[0]);
        assert(tail[0] == t.lines()[0]);
        let none = Seq::<char>::empty();
        assert(comment_from(none, 0));
        let heading = seq!['[', '['] + t.name + seq![']', ']'];
        assert(heading + none =~= heading);
        lemma_a_heading_is_read(r, ls, t.name, none);
        let s = r.after_line(ls)->Ok_0;
        assert forall|i: int| 0 <= i < n implies bare((#[trigger] t.entries[i]).0)
            && can_be_written(t.entries[i].1) && ls[s.next + i] == entry_line(
            t.entries[i].0,
            t.entries[i].1,
        ) by {
            assert(ls[s.next + i] == tail[1 + i]);
            assert(tail[1 + i] == t.lines()[1 + i]);
        }
        lemma_entries_are_read(s, ls, t.entries);
        let u = Reading {
            tables: s.tables,
            current: Tab {
                name: s.current.name,
                line: s.current.line,
                entries: s.current.entries + numbered(t.entries, s.next),
            },
            next: s.next + n,
        };
        assert(u.current.entries =~= numbered(t.entries, r.next + 1));
        assert(u.current == t.tab(r.next));
        assert(ls.skip(u.next) =~= tail.skip(1 + n));
        assert(tail.skip(1 + n) =~= file_lines(rest));
        assert forall|i: int| 0 <= i < rest.len() implies (#[trigger] rest[i]).fits() by {
            assert(rest[i] == ts[i + 1]);
        }
        lemma_tables_are_read(u, ls, rest);
        assert(u.tables.push(u.current) + as_read(rest, u.next) =~= r.tables.push(r.current)
            + as_read(ts, r.next));
    }
}

proof fn lemma_names_are_kept(ts: Seq<Written>, n: int)
    requires
        forall|i: int| 0 <= i < ts.len() ==> (#[trigger] ts[i]).fits(),
    ensures
        forall|i: int| 0 <= i < as_read(ts, n).len() ==> (#[trigger] as_read(ts, n)[i]).name.len()
            > 0,
    decreases ts.len(),
{
    if ts.len() > 0 {
        let rest = ts.drop_first();
        assert forall|i: int| 0 <= i < rest.len() implies (#[trigger] rest[i]).fits() by {
            assert(rest[i] == ts[i + 1]);
        }
        assert(ts[0].fits());
        let m = n + 1 + ts[0].entries.len();
        lemma_names_are_kept(rest, m);
        assert forall|i: int| 0 <= i < as_read(ts, n).len() implies (
        #[trigger] as_read(ts, n)[i]).name.len() > 0 by {
            if i > 0 {
                assert(as_read(ts, n)[i] == as_read(rest, m)[i - 1]);
            }
        }
    }
}

proof fn lemma_nameless_goes(t: Tab, xs: Seq<Tab>)
    requires
        t.name.len() == 0,
        t.entries.len() == 0,
        forall|i: int| 0 <= i < xs.len() ==> (#[trigger] xs[i]).name.len() > 0,
    ensures
        kept(seq![t] + xs) == xs,
    decreases xs.len(),
{
    let all = seq![t] + xs;
    if xs.len() == 0 {
        assert(all =~= seq![t]);
        assert(all.drop_last() =~= Seq::empty());
        assert(kept(all.drop_last()) =~= Seq::empty());
        assert(kept(all) =~= xs);
    } else {
        assert(all.drop_last() =~= seq![t] + xs.drop_last());
        assert(all.last() == xs[xs.len() - 1]);
        assert forall|i: int| 0 <= i < xs.drop_last().len() implies (
        #[trigger] xs.drop_last()[i]).name.len() > 0 by {
            assert(xs.drop_last()[i] == xs[i]);
        }
        lemma_nameless_goes(t, xs.drop_last());
        assert(kept(all) =~= xs);
    }
}

/// What a table has under a key is the first entry of that key; and the keys that nobody
/// knows are those that are not among the known ones, with their lines, in order.
pub proof fn lemma_what_a_table_has(
    t: Tab,
    key: Seq<char>,
    i: int,
    known: Seq<Seq<char>>,
)
    ensures
        0 <= i < t.entries.len() && t.entries[i].0 == key && (forall|k: int|
            0 <= k < i ==> (#[trigger] t.entries[k]).0 != key) ==> t.value(key) == Some(
            t.entries[i].1,
        ) && t.key_line(key) == t.entries[i].2,
        (forall|k: int| 0 <= k < t.entries.len() ==> (#[trigger] t.entries[k]).0 != key)
            ==> t.value(key) is None && t.key_line(key) == t.line,
        Tab::unknown(t.entries, known) == t.entries.filter(
            |e: (Seq<char>, Val, int)| !known.contains(e.0),
        ).map_values(|e: (Seq<char>, Val, int)| (e.0, e.2)),
{
    lemma_find(t.entries, key);
    lemma_find_first(t.entries, key);
    lemma_unknown(t.entries, known);
}

proof fn lemma_find_first(es: Seq<(Seq<char>, Val, int)>, key: Seq<char>)
    ensures
        Tab::find(es, key) matches Some(i) ==> forall|k: int|
            0 <= k < i ==> (#[trigger] es[k]).0 != key,
    decreases es.len(),
{
    if es.len() > 0 && es[0].0 != key {
        let rest = es.drop_first();
        lemma_find_first(rest, key);
        lemma_find(es, key);
        match Tab::find(es, key) {
            Some(i) => {
                assert forall|k: int| 0 <= k < i implies (#[trigger] es[k]).0 != key by {
                    if k > 0 {
                        assert(rest[k - 1] == es[k]);
                    }
                }
            },
            None => {},
        }
    }
}

proof fn lemma_unknown(es: Seq<(Seq<char>, Val, int)>, known: Seq<Seq<char>>)
    ensures
        Tab::unknown(es, known) == es.filter(
            |e: (Seq<char>, Val, int)| !known.contains(e.0),
        ).map_values(|e: (Seq<char>, Val, int)| (e.0, e.2)),
    decreases es.len(),
{
    reveal(Seq::filter);
    let keep = |e: (Seq<char>, Val, int)| !known.contains(e.0);
    let give = |e: (Seq<char>, Val, int)| (e.0, e.2);
    if es.len() > 0 {
        lemma_unknown(es.drop_last(), known);
    }
    assert(Tab::unknown(es, known) =~= es.filter(keep).map_values(give));
}

/// The items of an array that stand on lines of their own, each with a comma behind it,
/// once they are put together.
spec fn spread(v: Seq<Seq<char>>) -> Seq<char>
    decreases v.len(),
{
    if v.len() == 0 {
        seq![]
    } else {
        spread(v.drop_last()) + (seq![' '] + (quoted(v.last()) + seq![',']))
    }
}

proof fn lemma_single(c: char)
    requires
        c != '"' && c != '\'' && c != '#',
    ensures
        uncommented(seq![c]),
        depth(seq![c]) == (if c == '[' {
            1int
        } else if c == ']' {
            -1
        } else {
            0
        }),
        array_parts(seq![c]) == (if c == ',' {
            seq![Seq::<char>::empty(), Seq::<char>::empty()]
        } else {
            seq![seq![c]]
        }),
{
    let none = Seq::<char>::empty();
    let s = seq![c];
    lemma_no_quotes(s);
    assert(s.drop_last() =~= none);
    assert(quoting(none) is Outside);
    assert(depth(none) == 0);
    assert(array_parts(none) =~= seq![none]);
    assert(none.push(c) =~= s);
    if c == ',' {
        assert(array_parts(s) =~= seq![none, none]);
    } else {
        assert(array_parts(s) =~= seq![s]);
    }
}

proof fn lemma_item_line(x: Seq<char>)
    ensures
        uncommented(quoted(x) + seq![',']),
        ({
            let b = seq![' '] + (quoted(x) + seq![',']);
            &&& uncommented(b)
            &&& depth(b) == 0
            &&& array_parts(b) == seq![seq![' '] + quoted(x), Seq::<char>::empty()]
        }),
{
    let q = quoted(x);
    let none = Seq::<char>::empty();
    let blank = seq![' '];
    let comma = seq![','];
    lemma_quoted_is_shielded(x);
    lemma_shielded_is_one_part(q);
    lemma_single(' ');
    lemma_single(',');
    lemma_uncommented_joined(q, comma);
    lemma_uncommented_joined(blank, q + comma);
    lemma_depth_joined(q, comma);
    lemma_depth_joined(blank, q + comma);
    lemma_parts_joined(q, comma);
    assert(q + none =~= q);
    assert(array_parts(q + comma) =~= seq![q, none]);
    lemma_parts_joined(blank, q + comma);
    assert(array_parts(blank + (q + comma)) =~= seq![blank + q, none]);
}

proof fn lemma_spread(v: Seq<Seq<char>>, limit: nat)
    requires
        limit > spread(v).len(),
    ensures
        uncommented(spread(v)),
        depth(spread(v)) == 0,
        array_parts(spread(v)).len() > 0,
        array_parts(spread(v)).last().len() == 0,
        parsed_items(array_parts(spread(v)).drop_last(), limit) == Ok::<Seq<Seq<char>>, Seq<char>>(
            v,
        ),
    decreases v.len(),
{
    let t = spread(v);
    let none = Seq::<char>::empty();
    if v.len() == 0 {
        assert(array_parts(t) =~= seq![none]);
        assert(array_parts(t).drop_last() =~= Seq::empty());
        assert(v =~= seq![]);
        assert(quoting(t) is Outside);
        assert(depth(t) == 0);
    } else {
        let init = v.drop_last();
        let x = v.last();
        let q = quoted(x);
        let a = spread(init);
        let b = seq![' '] + (q + seq![',']);
        lemma_spread(init, limit);
        lemma_item_line(x);
        lemma_uncommented_joined(a, b);
        lemma_depth_joined(a, b);
        lemma_parts_joined(a, b);
        let pa = array_parts(a);
        let pb = array_parts(b);
        assert(pa.last() + pb[0] =~= seq![' '] + q);
        let ps = array_parts(t);
        assert(ps =~= pa.drop_last().push(seq![' '] + q).push(none));
        let front = ps.drop_last();
        assert(front =~= pa.drop_last().push(seq![' '] + q));
        assert(front.drop_last() =~= pa.drop_last());
        assert(front.last() == seq![' '] + q);
        lemma_quoted_reads_back(x);
        lemma_trimming_undone(seq![' '], q, seq![]);
        assert(seq![' '] + q + seq![] =~= seq![' '] + q);
        assert(init.push(x) =~= v);
    }
}

spec fn opening(v: Seq<Seq<char>>) -> Seq<char> {
    seq![' '] + (seq!['['] + spread(v))
}

proof fn lemma_opening(v: Seq<Seq<char>>)
    ensures
        quoting(opening(v)) is Outside,
        depth(opening(v)) == 1,
{
    lemma_spread(v, (spread(v).len() + 1) as nat);
    lemma_single(' ');
    lemma_single('[');
    lemma_uncommented_joined(seq!['['], spread(v));
    lemma_depth_joined(seq!['['], spread(v));
    lemma_quoting_joined(seq![' '], seq!['['] + spread(v));
    lemma_depth_joined(seq![' '], seq!['['] + spread(v));
}

proof fn lemma_gathering(ls: Seq<Seq<char>>, base: int, v: Seq<Seq<char>>, k: int)
    requires
        0 <= base,
        base + v.len() < ls.len(),
        0 <= k <= v.len(),
        forall|i: int| 0 <= i < v.len() ==> ls[base + i] == quoted(#[trigger] v[i]) + seq![','],
        ls[base + v.len()] == seq![']'],
    ensures
        gathered(ls, base + k, opening(v.take(k))) == (
            opening(v).push(' ') + seq![']'],
            base + v.len() + 1,
        ),
    decreases v.len() - k,
{
    let text = opening(v.take(k));
    lemma_opening(v.take(k));
    assert(!balanced(text));
    if k < v.len() {
        let x = v[k];
        assert(ls[base + k] == quoted(x) + seq![',']);
        lemma_item_line(x);
        let l = quoted(x) + seq![','];
        lemma_comment_is_cut(l, seq![], 0);
        assert(l + seq![] =~= l);
        assert(stripped(l) =~= l);
        assert(v.take(k + 1).drop_last() =~= v.take(k));
        assert(v.take(k + 1).last() == x);
        assert(text.push(' ') + l =~= opening(v.take(k + 1)));
        lemma_gathering(ls, base, v, k + 1);
    } else {
        assert(v.take(k) =~= v);
        let end = seq![']'];
        lemma_single(']');
        lemma_single(' ');
        lemma_comment_is_cut(end, seq![], 0);
        assert(end + seq![] =~= end);
        assert(stripped(end) =~= end);
        let whole = text.push(' ') + end;
        assert(whole =~= text + (seq![' '] + end));
        lemma_uncommented_joined(seq![' '], end);
        lemma_depth_joined(seq![' '], end);
        lemma_quoting_joined(text, seq![' '] + end);
        lemma_depth_joined(text, seq![' '] + end);
        assert(balanced(whole));
        assert(gathered(ls, base + k + 1, whole) == (whole, base + k + 1));
    }
}

/// An array may run over several lines, with an item on each and a comma behind the last
/// one too: it is one entry, on the line that it begins on, and reading goes on behind the
/// closing bracket.
pub proof fn lemma_an_array_over_several_lines_is_read(
    r: Reading,
    ls: Seq<Seq<char>>,
    key: Seq<char>,
    v: Seq<Seq<char>>,
)
    requires
        0 <= r.next,
        r.next + 1 + v.len() < ls.len(),
        bare(key),
        forall|i: int|
            0 <= i < r.current.entries.len() ==> (#[trigger] r.current.entries[i]).0 != key,
        ls[r.next] == key + seq![' ', '=', ' ', '['],
        forall|i: int|
            0 <= i < v.len() ==> ls[r.next + 1 + i] == quoted(#[trigger] v[i]) + seq![','],
        ls[r.next + 1 + v.len()] == seq![']'],
    ensures
        r.after_line(ls) == Ok::<Reading, Seq<char>>(
            Reading {
                tables: r.tables,
                current: Tab {
                    name: r.current.name,
                    line: r.current.line,
                    entries: r.current.entries.push((key, Val::Array(v), r.next + 1)),
                },
                next: r.next + 2 + v.len(),
            },
        ),
{
    reveal_strlit("[[");
    reveal_strlit("[");
    let mid = seq![' ', '=', ' ', '['];
    let line = key + mid;
    lemma_no_quotes(key);
    lemma_no_quotes(mid);
    lemma_uncommented_joined(key, mid);
    assert(!is_white(key[0]));
    assert(line[0] == key[0]);
    assert(line.last() == '[');
    assert(comment_from(Seq::empty(), 0));
    lemma_remarks_are_passed_over(line, seq![]);
    assert(line + seq![] =~= line);
    let eq = key.len() as int + 1;
    assert(line[eq] == '=');
    assert forall|j: int| 0 <= j < eq implies line[j] != '=' by {
        if j < key.len() {
            assert(line[j] == key[j]);
        }
    }
    lemma_before_is(line, '=', eq);
    assert(line.take(eq) =~= seq![] + key + seq![' ']);
    assert(!is_white(key[key.len() - 1]));
    lemma_trimming_undone(seq![], key, seq![' ']);
    assert(!begins_with(line, "[["@)) by {
        if begins_with(line, "[["@) {
            assert(line.take(2)[0] == line[0]);
        }
    }
    let text = line.skip(eq + 1);
    assert(v.take(0) =~= Seq::empty());
    assert(text =~= opening(v.take(0)));
    assert(text =~= seq![' ', '[']);
    lemma_start_of_array(text);
    lemma_gathering(ls, r.next + 1, v, 0);
    lemma_array_whole(v);
    lemma_find(r.current.entries, key);
}

proof fn lemma_start_of_array(text: Seq<char>)
    requires
        text == seq![' ', '['],
    ensures
        trimmed_start(text) == seq!['['],
        begins_with(trimmed_start(text), "["@),
{
    reveal_strlit("[");
    reveal_with_fuel(trimmed_start, 3);
    assert(text.drop_first() =~= seq!['[']);
    assert(trimmed_start(text) =~= seq!['[']);
    assert(seq!['['].take(1) =~= "["@);
}

proof fn lemma_array_whole(v: Seq<Seq<char>>)
    ensures
        ({
            let whole = opening(v).push(' ') + seq![']'];
            &&& balanced(whole)
            &&& parsed_value(trimmed(whole)) == Ok::<Val, Seq<char>>(Val::Array(v))
        }),
{
    let whole = opening(v).push(' ') + seq![']'];
    let inner = spread(v) + seq![' '];
    let t = seq!['['] + inner + seq![']'];
    lemma_true_and_false();
    lemma_opening(v);
    lemma_single(' ');
    lemma_single(']');
    let end = seq![' '] + seq![']'];
    lemma_uncommented_joined(seq![' '], seq![']']);
    lemma_depth_joined(seq![' '], seq![']']);
    assert(whole =~= opening(v) + end);
    lemma_quoting_joined(opening(v), end);
    lemma_depth_joined(opening(v), end);
    assert(whole =~= seq![' '] + t + seq![]);
    lemma_trimming_undone(seq![' '], t, seq![]);
    assert(t[0] == '[' && t.last() == ']');
    assert("true"@[0] == 't' && "false"@[0] == 'f');
    assert(t.subrange(1, t.len() - 1) =~= inner);
    lemma_spread(v, t.len());
    lemma_parts_joined(spread(v), seq![' ']);
    let pa = array_parts(spread(v));
    assert(pa.last() + seq![' '] =~= seq![' ']);
    let ps = array_parts(inner);
    assert(ps =~= pa.drop_last().push(seq![' ']));
    assert(ps.drop_last() =~= pa.drop_last());
    assert(ps.last() == seq![' ']);
    lemma_white_alone(seq![' ']);
}

/// Whether the integers of a table fit 64 bits.
pub open spec fn integers_in_range(t: Tab) -> bool {
    forall|k: int|
        0 <= k < t.entries.len() ==> ((#[trigger] t.entries[k]).1 matches Val::Int(n) ==>
            -0x8000_0000_0000_0000 <= n < 0x8000_0000_0000_0000)
}

proof fn lemma_read_integers_fit(r: Reading, ls: Seq<Seq<char>>)
    requires
        r.next >= 0,
        integers_in_range(r.current),
        forall|i: int| 0 <= i < r.tables.len() ==> integers_in_range(#[trigger] r.tables[i]),
        read_from(r, ls) is Ok,
    ensures
        forall|i: int|
            0 <= i < read_from(r, ls)->Ok_0.len() ==> integers_in_range(
                #[trigger] read_from(r, ls)->Ok_0[i],
            ),
    decreases ls.len() - r.next,
{
    if r.next < ls.len() {
        lemma_lines_go_on(r, ls);
        lemma_read_integers_fit(r.after_line(ls)->Ok_0, ls);
    }
}

/// The integers of a file that is accepted fit 64 bits.
pub proof fn lemma_integers_that_are_read_fit(input: Seq<char>)
    requires
        parsed(input) is Ok,
    ensures
        forall|i: int|
            0 <= i < parsed(input)->Ok_0.len() ==> integers_in_range(
                #[trigger] parsed(input)->Ok_0[i],
            ),
{
    let ls = text_lines(input);
    lemma_read_integers_fit(Reading::start(), ls);
    lemma_kept_come_from(read_from(Reading::start(), ls)->Ok_0);
}

/// What is no value: nothing at all; a quote or a bracket that is not closed; an escape that
/// does not exist; and a word that is neither a truth value nor a number.
pub proof fn lemma_what_is_no_value(t: Seq<char>, k: int, c: char, rest: Seq<char>)
    requires
        t.len() > 0,
    ensures
        parsed_value(seq![]) is Err,
        (t[0] == '"' || t[0] == '\'') && (t.len() == 1 || t.last() != t[0]) ==> parsed_value(t)
            is Err,
        t[0] == '[' && t.last() != ']' ==> parsed_value(t) is Err,
        t[0] != '[' && t[0] != '"' && t[0] != '\'' && t != seq!['t', 'r', 'u', 'e'] && t != seq![
            'f',
            'a',
            'l',
            's',
            'e',
        ] && 1 <= k < t.len() && !('0' <= t[k] <= '9') ==> parsed_value(t) is Err,
        c != 'n' && c != 't' && c != 'r' && c != '"' && c != '\\' ==> parsed_value(
            seq!['"', '\\', c] + rest + seq!['"'],
        ) is Err,
{
    lemma_true_and_false();
    assert("true"@[0] == 't' && "false"@[0] == 'f');
    assert("true"@.len() == 4 && "false"@.len() == 5);
    if t[0] != '[' && t[0] != '"' && t[0] != '\'' && 1 <= k < t.len() && !('0' <= t[k] <= '9') {
        assert(digit_value(t[k], 10) is None);
        let u = t.drop_first();
        assert(u[k - 1] == t[k]);
        assert(!all_digits(u, 10)) by {
            assert(digit_value(u[k - 1], 10) is None);
        }
        assert(!all_digits(t, 10));
        assert(without_plus(t) == t || without_plus(t) == u);
    }
    let s = seq!['"', '\\', c] + rest + seq!['"'];
    assert(s[0] == '"' && s.last() == '"');
    let body = s.subrange(1, s.len() - 1);
    assert(body[0] == '\\' && body[1] == c);
    assert(body.len() >= 2);
}

/// A file is read line by line: a line that cannot be read ends the reading, and the error
/// has its number, counted from one; at the end the table that is being read is the last.
/// Of the tables only one without a name and without entries is left out.
pub proof fn lemma_reading_goes_line_by_line(r: Reading, ls: Seq<Seq<char>>, ts: Seq<Tab>)
    requires
        0 <= r.next,
    ensures
        r.next >= ls.len() ==> read_from(r, ls) == Ok::<Seq<Tab>, (int, Seq<char>)>(
            r.tables.push(r.current),
        ),
        r.next < ls.len() && r.after_line(ls) is Err ==> read_from(r, ls) == Err::<
            Seq<Tab>,
            (int, Seq<char>),
        >((r.next + 1, r.after_line(ls)->Err_0)),
        r.next < ls.len() && r.after_line(ls) is Ok ==> read_from(r, ls) == read_from(
            r.after_line(ls)->Ok_0,
            ls,
        ),
        kept(ts) == ts.filter(|t: Tab| t.name.len() > 0 || t.entries.len() > 0),
{
    if r.next < ls.len() {
        lemma_lines_go_on(r, ls);
    }
    lemma_kept_filtered(ts);
}

proof fn lemma_kept_filtered(ts: Seq<Tab>)
    ensures
        kept(ts) == ts.filter(|t: Tab| t.name.len() > 0 || t.entries.len() > 0),
    decreases ts.len(),
{
    reveal(Seq::filter);
    let keep = |t: Tab| t.name.len() > 0 || t.entries.len() > 0;
    if ts.len() > 0 {
        lemma_kept_filtered(ts.drop_last());
    }
    assert(kept(ts) =~= ts.filter(keep));
}

/// A line that is neither a heading nor blank has to set a key: without an equals sign, or
/// without a key before it, it is refused. A heading has to be closed.
pub proof fn lemma_which_lines_are_refused(r: Reading, ls: Seq<Seq<char>>, line: Seq<char>)
    requires
        0 <= r.next < ls.len(),
        line.len() > 0,
        !is_white(line[0]),
        !is_white(line.last()),
        uncommented(line),
        ls[r.next] == line,
    ensures
        line[0] != '[' && (forall|k: int| 0 <= k < line.len() ==> line[k] != '=') ==> r.after_line(
            ls,
        ) is Err,
        line[0] == '=' ==> r.after_line(ls) is Err,
        line[0] == '[' && line.last() != ']' ==> r.after_line(ls) is Err,
        line.len() > 1 && line[0] == '[' && line[1] == '[' && (line.len() < 4 || line[line.len()
            - 2] != ']') ==> r.after_line(ls) is Err,
{
    reveal_strlit("[[");
    reveal_strlit("[");
    assert(comment_from(Seq::empty(), 0));
    lemma_remarks_are_passed_over(line, seq![]);
    assert(line + seq![] =~= line);
    let n = line.len() as int;
    if forall|k: int| 0 <= k < n ==> line[k] != '=' {
        lemma_before_is(line, '=', n);
    }
    if line[0] == '=' {
        lemma_before_is(line, '=', 0);
        assert(line.take(0) =~= Seq::empty());
        lemma_white_alone(Seq::empty());
        assert(!begins_with(line, "[["@)) by {
            if begins_with(line, "[["@) {
                assert(line.take(2)[0] == line[0]);
            }
        }
    }
    if line[0] != '[' {
        assert(!begins_with(line, "[["@)) by {
            if begins_with(line, "[["@) {
                assert(line.take(2)[0] == line[0]);
            }
        }
    }
    if n > 1 && line[0] == '[' && line[1] == '[' {
        assert(line.take(2) =~= "[["@);
    }
}

} // verus!
