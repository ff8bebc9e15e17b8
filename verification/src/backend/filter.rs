//! `vid:pid` allow-listing.
//!
//! The exporter defaults to `28de:*` rather than "everything". Port 3240
//! carries plaintext USB traffic and a permissive default would make a
//! misconfigured bind address far more expensive than it needs to be.
use crate::text::{
    before, chars, digit_value, find_char, hex, is_white, lemma_before_is, lemma_padded_value,
    lemma_pieces_joined, lemma_pieces_push, lemma_trimming_undone, lemma_written_number_reads_back,
    parse_nat, parsed_nat, part, pieces, push_hex, same_chars, split, string, texts, trim, trimmed,
    without_plus,
};
use core::str::FromStr;
use vstd::prelude::*;
use vstd::string::*;

verus! {

#[derive(Debug, Clone, Copy, PartialEq, Eq)]
pub struct Pattern {
    /// `None` means `*`.
    pub vendor: Option<u16>,
    pub product: Option<u16>,
}

/// One side of a pattern as it is written.
pub open spec fn part_text(id: Option<u16>) -> Seq<char> {
    match id {
        Some(v) => hex(v as nat, 4),
        None => "*"@,
    }
}

/// What one side of the pattern `whole` stands for. A star, or nothing, matches
/// anything; otherwise it is hexadecimal and fits 16 bits.
pub open spec fn parsed_part(side: Seq<char>, whole: Seq<char>) -> Result<Option<u16>, Seq<char>> {
    let p = trimmed(side);
    if p == "*"@ || p.len() == 0 {
        Ok(None)
    } else {
        match parsed_nat(p, 16, 0xffff) {
            Some(n) => Ok(Some(n as u16)),
            None => Err("`"@ + p + "` in `"@ + whole + "` is not a 16-bit hex value"@),
        }
    }
}

/// What the text `s` says as a pattern, or the message that refuses it.
pub open spec fn parsed_pattern(s: Seq<char>) -> Result<Pattern, Seq<char>> {
    let t = trimmed(s);
    let i = before(t, ':');
    if i < t.len() {
        match parsed_part(t.take(i), t) {
            Err(e) => Err(e),
            Ok(vendor) => match parsed_part(t.skip(i + 1), t) {
                Err(e) => Err(e),
                Ok(product) => Ok(Pattern { vendor, product }),
            },
        }
    } else {
        Err("`"@ + t + "` is not a vid:pid pattern"@)
    }
}

/// The patterns that a list of texts says, leaving out the blank ones, or the
/// message that refuses the first bad one.
pub open spec fn parsed_patterns(ps: Seq<Seq<char>>) -> Result<Seq<Pattern>, Seq<char>>
    decreases ps.len(),
{
    if ps.len() == 0 {
        Ok(seq![])
    } else {
        match parsed_patterns(ps.drop_last()) {
            Err(e) => Err(e),
            Ok(v) => if trimmed(ps.last()).len() == 0 {
                Ok(v)
            } else {
                match parsed_pattern(trimmed(ps.last())) {
                    Err(e) => Err(e),
                    Ok(p) => Ok(v.push(p)),
                }
            },
        }
    }
}

/// The patterns that a comma-separated text says.
pub open spec fn parsed_filter(s: Seq<char>) -> Result<Seq<Pattern>, Seq<char>> {
    parsed_patterns(pieces(s, ','))
}

fn parse_part(side: &[char], whole: &[char]) -> (r: Result<Option<u16>, String>)
    ensures
        match r {
            Ok(v) => parsed_part(side@, whole@) == Ok::<Option<u16>, Seq<char>>(v),
            Err(e) => parsed_part(side@, whole@) == Err::<Option<u16>, Seq<char>>(e@),
        },
{
    let p = trim(side);
    if same_chars(p, &chars("*")) || p.len() == 0 {
        return Ok(None);
    }
    match parse_nat(p, 16, 0xffff) {
        Some(n) => Ok(Some(n as u16)),
        None => {
            let mut e = String::new();
            e.append("`");
            e.append(&string(p));
            e.append("` in `");
            e.append(&string(whole));
            e.append("` is not a 16-bit hex value");
            assert(e@ =~= "`"@ + p@ + "` in `"@ + whole@ + "` is not a 16-bit hex value"@);
            Err(e)
        },
    }
}

impl Pattern {
    pub open spec fn allows(self, vid: u16, pid: u16) -> bool {
        &&& self.vendor matches Some(v) ==> v == vid
        &&& self.product matches Some(p) ==> p == pid
    }

    /// The pattern as it is written.
    pub open spec fn text(self) -> Seq<char> {
        part_text(self.vendor) + ":"@ + part_text(self.product)
    }

    pub fn matches(&self, vid: u16, pid: u16) -> (r: bool)
        ensures
            r == self.allows(vid, pid),
    {
        let vendor = match self.vendor {
            Some(v) => v == vid,
            None => true,
        };
        let product = match self.product {
            Some(p) => p == pid,
            None => true,
        };
        vendor && product
    }

    pub fn to_string(&self) -> (s: String)
        ensures
            s@ == self.text(),
    {
        let mut s = String::new();
        push_part(&mut s, self.vendor);
        s.append(":");
        push_part(&mut s, self.product);
        assert(s@ =~= self.text());
        s
    }

    fn from_chars(cs: &[char]) -> (r: Result<Pattern, String>)
        ensures
            match r {
                Ok(p) => parsed_pattern(cs@) == Ok::<Pattern, Seq<char>>(p),
                Err(e) => parsed_pattern(cs@) == Err::<Pattern, Seq<char>>(e@),
            },
    {
        let t = trim(cs);
        let i: usize = find_char(t, ':');
        if i == t.len() {
            let mut e = String::new();
            e.append("`");
            e.append(&string(t));
            e.append("` is not a vid:pid pattern");
            assert(e@ =~= "`"@ + t@ + "` is not a vid:pid pattern"@);
            return Err(e);
        }
        let v = part(t, 0, i);
        let p = part(t, i + 1, t.len());
        assert(v@ =~= t@.take(i as int));
        assert(p@ =~= t@.skip(i + 1));
        let vendor = parse_part(v, t)?;
        let product = parse_part(p, t)?;
        Ok(Pattern { vendor, product })
    }

    /// Reads a pattern such as `28de:1304` or `28de:*`.
    pub fn from_str(s: &str) -> (r: Result<Pattern, String>)
        ensures
            match r {
                Ok(p) => parsed_pattern(s@) == Ok::<Pattern, Seq<char>>(p),
                Err(e) => parsed_pattern(s@) == Err::<Pattern, Seq<char>>(e@),
            },
    {
        Pattern::from_chars(&chars(s))
    }
}

impl FromStr for Pattern {
    type Err = String;

    fn from_str(s: &str) -> Result<Pattern, String> {
        Pattern::from_str(s)
    }
}

fn push_part(s: &mut String, id: Option<u16>)
    ensures
        final(s)@ == old(s)@ + part_text(id),
{
    match id {
        Some(v) => push_hex(s, v as u64, 4),
        None => s.append("*"),
    }
}

/// Valve's vendor id. The 2015 controller, the Deck, the Proteus puck, the
/// Nereid receiver and the 2026 wired controller are all under it, which is
/// why a single default covers every device this project cares about.
pub const VALVE_VID: u16 = 0x28de;

#[derive(Debug, Clone, PartialEq, Eq)]
pub struct DeviceFilter {
    patterns: Vec<Pattern>,
}

impl View for DeviceFilter {
    type V = Seq<Pattern>;

    closed spec fn view(&self) -> Seq<Pattern> {
        self.patterns@
    }
}

/// Whether one of the patterns lets the device through.
pub open spec fn allowed(patterns: Seq<Pattern>, vid: u16, pid: u16) -> bool {
    exists|i: int| 0 <= i < patterns.len() && (#[trigger] patterns[i]).allows(vid, pid)
}

/// The patterns as they are written: one after another with commas between.
pub open spec fn filter_text(ps: Seq<Pattern>) -> Seq<char>
    decreases ps.len(),
{
    if ps.len() == 0 {
        seq![]
    } else if ps.len() == 1 {
        ps[0].text()
    } else {
        filter_text(ps.drop_last()) + ","@ + ps.last().text()
    }
}

impl Default for DeviceFilter {
    fn default() -> (f: Self)
        ensures
            f@ == seq![Pattern { vendor: Some(VALVE_VID), product: None }],
    {
        let mut patterns: Vec<Pattern> = Vec::new();
        patterns.push(Pattern { vendor: Some(VALVE_VID), product: None });
        assert(patterns@ =~= seq![Pattern { vendor: Some(VALVE_VID), product: None }]);
        DeviceFilter { patterns }
    }
}

impl DeviceFilter {
    pub fn new(patterns: Vec<Pattern>) -> (f: DeviceFilter)
        ensures
            f@ == patterns@,
    {
        DeviceFilter { patterns }
    }

    /// An empty filter matches nothing, so `--allow ''` cannot accidentally
    /// widen the export list to the whole bus.
    pub fn matches(&self, vid: u16, pid: u16) -> (r: bool)
        ensures
            r == allowed(self@, vid, pid),
            self@.len() == 0 ==> !r,
    {
        let mut i: usize = 0;
        while i < self.patterns.len()
            invariant
                i <= self.patterns@.len(),
                forall|j: int| 0 <= j < i ==> !(#[trigger] self@[j]).allows(vid, pid),
            decreases self.patterns@.len() - i,
        {
            if self.patterns[i].matches(vid, pid) {
                assert(self@[i as int].allows(vid, pid));
                return true;
            }
            i = i + 1;
        }
        false
    }

    pub fn patterns(&self) -> (r: &[Pattern])
        ensures
            r@ == self@,
    {
        self.patterns.as_slice()
    }

    pub fn is_empty(&self) -> (r: bool)
        ensures
            r == (self@.len() == 0),
    {
        self.patterns.len() == 0
    }

    /// Comma-separated: `28de:1304,28de:1305` or `28de:*`.
    pub fn from_str(s: &str) -> (r: Result<DeviceFilter, String>)
        ensures
            match r {
                Ok(f) => parsed_filter(s@) == Ok::<Seq<Pattern>, Seq<char>>(f@),
                Err(e) => parsed_filter(s@) == Err::<Seq<Pattern>, Seq<char>>(e@),
            },
    {
        let cs = chars(s);
        let ps = split(&cs, ',');
        let ghost all = texts(ps@);
        let mut patterns: Vec<Pattern> = Vec::new();
        let mut i: usize = 0;
        assert(all.take(0) =~= Seq::empty());
        while i < ps.len()
            invariant
                i <= ps@.len(),
                all == texts(ps@),
                all == pieces(s@, ','),
                parsed_patterns(all.take(i as int)) == Ok::<Seq<Pattern>, Seq<char>>(patterns@),
            decreases ps@.len() - i,
        {
            let t = trim(ps[i]);
            proof {
                assert(all.take(i + 1).drop_last() =~= all.take(i as int));
                assert(all.take(i + 1).last() == ps@[i as int]@);
            }
            if t.len() > 0 {
                match Pattern::from_chars(t) {
                    Ok(p) => {
                        patterns.push(p);
                    },
                    Err(e) => {
                        proof {
                            lemma_first_bad_decides(all, i + 1);
                        }
                        return Err(e);
                    },
                }
            }
            i = i + 1;
        }
        assert(all.take(i as int) =~= all);
        Ok(DeviceFilter { patterns })
    }

    pub fn to_string(&self) -> (s: String)
        ensures
            s@ == filter_text(self@),
    {
        let mut s = String::new();
        let mut i: usize = 0;
        assert(self@.take(0) =~= Seq::empty());
        while i < self.patterns.len()
            invariant
                i <= self.patterns@.len(),
                s@ == filter_text(self@.take(i as int)),
            decreases self.patterns@.len() - i,
        {
            if i > 0 {
                s.append(",");
            }
            let t = self.patterns[i].to_string();
            s.append(&t);
            i = i + 1;
            proof {
                assert(self@.take(i as int).drop_last() =~= self@.take(i - 1));
                assert(self@.take(i as int).last() == self@[i - 1]);
                assert(s@ =~= filter_text(self@.take(i as int)));
            }
        }
        assert(self@.take(i as int) =~= self@);
        s
    }
}

impl FromStr for DeviceFilter {
    type Err = String;

    fn from_str(s: &str) -> Result<DeviceFilter, String> {
        DeviceFilter::from_str(s)
    }
}

proof fn lemma_first_bad_decides(ps: Seq<Seq<char>>, i: int)
    requires
        0 <= i <= ps.len(),
        parsed_patterns(ps.take(i)) is Err,
    ensures
        parsed_patterns(ps) == parsed_patterns(ps.take(i)),
    decreases ps.len() - i,
{
    if i == ps.len() {
        assert(ps.take(i) =~= ps);
    } else {
        assert(ps.take(i + 1).drop_last() =~= ps.take(i));
        lemma_first_bad_decides(ps, i + 1);
    }
}

// ---------------------------------------------------------------------------
// What is written reads back

/// Text that trimming and splitting leave alone.
spec fn plain(s: Seq<char>) -> bool {
    forall|i: int| 0 <= i < s.len() ==> !is_white(#[trigger] s[i]) && s[i] != ',' && s[i] != ':'
}

proof fn lemma_plain_untrimmed(s: Seq<char>)
    requires
        s.len() > 0 ==> !is_white(s[0]) && !is_white(s.last()),
    ensures
        trimmed(s) == s,
{
}

proof fn lemma_part_text(id: Option<u16>)
    ensures
        plain(part_text(id)),
        part_text(id).len() > 0,
        forall|whole: Seq<char>| #[trigger]
            parsed_part(part_text(id), whole) == Ok::<Option<u16>, Seq<char>>(id),
{
    let s = part_text(id);
    reveal_strlit("*");
    match id {
        Some(v) => {
            lemma_padded_value(v as nat, 16, 4);
            lemma_written_number_reads_back(v as nat, 16, 4, 0xffff);
            assert forall|i: int| 0 <= i < s.len() implies !is_white(#[trigger] s[i]) && s[i] != ','
                && s[i] != ':' by {
                assert(digit_value(s[i], 16) is Some);
            }
            assert(s != "*"@);
        },
        None => {},
    }
    lemma_plain_untrimmed(s);
}

proof fn lemma_pattern_text(p: Pattern)
    ensures
        p.text().len() > 0,
        !is_white(p.text()[0]),
        !is_white(p.text().last()),
        forall|i: int| 0 <= i < p.text().len() ==> #[trigger] p.text()[i] != ',',
        parsed_pattern(p.text()) == Ok::<Pattern, Seq<char>>(p),
{
    let t = p.text();
    let v = part_text(p.vendor);
    let q = part_text(p.product);
    reveal_strlit(":");
    lemma_part_text(p.vendor);
    lemma_part_text(p.product);
    assert(t =~= v + seq![':'] + q);
    assert(t[0] == v[0]);
    assert(t.last() == q.last());
    lemma_plain_untrimmed(t);
    assert forall|i: int| 0 <= i < t.len() implies #[trigger] t[i] != ',' by {
        if i < v.len() {
            assert(t[i] == v[i]);
        } else if i > v.len() {
            assert(t[i] == q[i - v.len() - 1]);
        }
    }
    assert forall|j: int| 0 <= j < v.len() implies t[j] != ':' by {
        assert(t[j] == v[j]);
    }
    lemma_before_is(t, ':', v.len() as int);
    assert(t.take(v.len() as int) =~= v);
    assert(t.skip(v.len() as int + 1) =~= q);
}

/// A filter that is written out reads back as the same filter.
pub proof fn lemma_filter_reads_back(ps: Seq<Pattern>)
    ensures
        parsed_filter(filter_text(ps)) == Ok::<Seq<Pattern>, Seq<char>>(ps),
    decreases ps.len(),
{
    reveal_with_fuel(parsed_patterns, 2);
    if ps.len() == 0 {
        let s = filter_text(ps);
        assert(s =~= Seq::empty());
        assert(pieces(s, ',') =~= seq![s]);
        assert(pieces(s, ',').drop_last() =~= Seq::empty());
        assert(parsed_filter(s)->Ok_0 =~= ps);
    } else if ps.len() == 1 {
        let s = filter_text(ps);
        lemma_pattern_text(ps[0]);
        lemma_before_is(s, ',', s.len() as int);
        assert(pieces(s, ',') =~= seq![s]);
        assert(pieces(s, ',').drop_last() =~= Seq::empty());
        lemma_plain_untrimmed(s);
        assert(Seq::<Pattern>::empty().push(ps[0]) =~= ps);
    } else {
        let init = ps.drop_last();
        let t = ps.last().text();
        lemma_filter_reads_back(init);
        lemma_pattern_text(ps.last());
        reveal_strlit(",");
        assert(filter_text(ps) =~= filter_text(init) + seq![','] + t);
        lemma_pieces_push(filter_text(init), t, ',');
        lemma_plain_untrimmed(t);
        assert(pieces(filter_text(ps), ',').drop_last() =~= pieces(filter_text(init), ','));
        assert(init.push(ps.last()) =~= ps);
    }
}

proof fn lemma_patterns_joined(a: Seq<Seq<char>>, b: Seq<Seq<char>>)
    ensures
        parsed_patterns(a + b) == (match parsed_patterns(a) {
            Err(e) => Err(e),
            Ok(x) => match parsed_patterns(b) {
                Err(e) => Err(e),
                Ok(y) => Ok(x + y),
            },
        }),
    decreases b.len(),
{
    if b.len() == 0 {
        assert(a + b =~= a);
        if parsed_patterns(a) is Ok {
            assert(parsed_patterns(a)->Ok_0 + Seq::<Pattern>::empty() =~= parsed_patterns(a)->Ok_0);
        }
    } else {
        assert((a + b).drop_last() =~= a + b.drop_last());
        lemma_patterns_joined(a, b.drop_last());
        if parsed_patterns(a) is Ok && parsed_patterns(b.drop_last()) is Ok && parsed_pattern(
            trimmed(b.last()),
        ) is Ok {
            let x = parsed_patterns(a)->Ok_0;
            let y = parsed_patterns(b.drop_last())->Ok_0;
            let p = parsed_pattern(trimmed(b.last()))->Ok_0;
            assert((x + y).push(p) =~= x + y.push(p));
        }
    }
}

/// A filter is its parts together: two filters with a comma between them allow just what
/// one of the two allows, and are refused if one of them is.
pub proof fn lemma_filters_add_up(s: Seq<char>, t: Seq<char>, vid: u16, pid: u16)
    ensures
        parsed_filter(s + seq![','] + t) is Ok <==> parsed_filter(s) is Ok && parsed_filter(
            t,
        ) is Ok,
        parsed_filter(s) is Ok && parsed_filter(t) is Ok ==> {
            let (a, b) = (parsed_filter(s)->Ok_0, parsed_filter(t)->Ok_0);
            let c = parsed_filter(s + seq![','] + t)->Ok_0;
            &&& c == a + b
            &&& allowed(c, vid, pid) <==> allowed(a, vid, pid) || allowed(b, vid, pid)
        },
{
    lemma_pieces_joined(s, t, ',');
    lemma_patterns_joined(pieces(s, ','), pieces(t, ','));
    if parsed_filter(s) is Ok && parsed_filter(t) is Ok {
        let (a, b) = (parsed_filter(s)->Ok_0, parsed_filter(t)->Ok_0);
        let c = a + b;
        if allowed(c, vid, pid) {
            let i = choose|i: int| 0 <= i < c.len() && (#[trigger] c[i]).allows(vid, pid);
            if i < a.len() {
                assert(a[i].allows(vid, pid));
            } else {
                assert(b[i - a.len()].allows(vid, pid));
            }
        }
        if allowed(a, vid, pid) {
            let i = choose|i: int| 0 <= i < a.len() && (#[trigger] a[i]).allows(vid, pid);
            assert(c[i].allows(vid, pid));
        }
        if allowed(b, vid, pid) {
            let i = choose|i: int| 0 <= i < b.len() && (#[trigger] b[i]).allows(vid, pid);
            assert(c[a.len() + i].allows(vid, pid));
        }
    }
}

/// What a pattern lets through: devices of its vendor and with its product, where a star
/// stands for any. A filter lets through what one of its patterns does, and an empty one
/// nothing.
pub proof fn lemma_what_a_filter_allows(ps: Seq<Pattern>, vid: u16, pid: u16)
    ensures
        forall|v: u16, p: u16| (#[trigger] Pattern { vendor: Some(v), product: Some(p) }.allows(
            vid,
            pid,
        )) <==> v == vid && p == pid,
        forall|v: u16| (#[trigger] Pattern { vendor: Some(v), product: None }.allows(vid, pid))
            <==> v == vid,
        forall|p: u16| (#[trigger] Pattern { vendor: None, product: Some(p) }.allows(vid, pid))
            <==> p == pid,
        (Pattern { vendor: None, product: None }).allows(vid, pid),
        !allowed(seq![], vid, pid),
        allowed(ps, vid, pid) ==> exists|i: int|
            0 <= i < ps.len() && ((#[trigger] ps[i]).vendor is None || ps[i].vendor == Some(vid))
                && (ps[i].product is None || ps[i].product == Some(pid)),
        forall|i: int|
            0 <= i < ps.len() && ((#[trigger] ps[i]).vendor is None || ps[i].vendor == Some(vid))
                && (ps[i].product is None || ps[i].product == Some(pid)) ==> allowed(ps, vid, pid),
{
    if allowed(ps, vid, pid) {
        let i = choose|i: int| 0 <= i < ps.len() && (#[trigger] ps[i]).allows(vid, pid);
        assert(ps[i].vendor is None || ps[i].vendor == Some(vid));
    }
    assert forall|i: int|
        0 <= i < ps.len() && ((#[trigger] ps[i]).vendor is None || ps[i].vendor == Some(vid)) && (
        ps[i].product is None || ps[i].product == Some(pid)) implies allowed(ps, vid, pid) by {
        assert(ps[i].allows(vid, pid));
    }
}

/// Two numbers in hexadecimal with a colon between them are a pattern of these two, with
/// leading zeros or without; a star stands for any number. What is larger than 16 bits, or
/// no number, or has no colon, is none.
pub proof fn lemma_what_a_pattern_is(v: nat, p: nat, w: nat)
    ensures
        v <= 0xffff && p <= 0xffff ==> parsed_pattern(hex(v, w) + seq![':'] + hex(p, w)) == Ok::<
            Pattern,
            Seq<char>,
        >(Pattern { vendor: Some(v as u16), product: Some(p as u16) }),
        v <= 0xffff ==> parsed_pattern(hex(v, w) + seq![':', '*']) == Ok::<Pattern, Seq<char>>(
            Pattern { vendor: Some(v as u16), product: None },
        ),
        p <= 0xffff ==> parsed_pattern(seq!['*', ':'] + hex(p, w)) == Ok::<Pattern, Seq<char>>(
            Pattern { vendor: None, product: Some(p as u16) },
        ),
        v > 0xffff ==> parsed_pattern(hex(v, w) + seq![':', '*']) is Err,
        p > 0xffff ==> parsed_pattern(seq!['*', ':'] + hex(p, w)) is Err,
        parsed_pattern(hex(v, w)) is Err,
{
    reveal_strlit("*");
    let star = seq!['*'];
    assert("*"@ =~= star);
    let (a, b) = (hex(v, w), hex(p, w));
    lemma_hex_side(v, w);
    lemma_hex_side(p, w);
    lemma_star_side();
    lemma_two_sides(a, b);
    assert(a + seq![':', '*'] =~= a + seq![':'] + star);
    lemma_two_sides(a, star);
    assert(seq!['*', ':'] + b =~= star + seq![':'] + b);
    lemma_two_sides(star, b);
    lemma_before_is(a, ':', a.len() as int);
    lemma_trimming_undone(seq![], a, seq![]);
    assert(seq![] + a + seq![] =~= a);
}

/// Whether a text can be one side of a pattern: it is not empty and has no white space and
/// no colon in it.
spec fn plain_side(s: Seq<char>) -> bool {
    s.len() > 0 && forall|k: int| 0 <= k < s.len() ==> !is_white(#[trigger] s[k]) && s[k] != ':'
}

proof fn lemma_star_side()
    ensures
        plain_side(seq!['*']),
        forall|whole: Seq<char>| #[trigger]
            parsed_part(seq!['*'], whole) == Ok::<Option<u16>, Seq<char>>(None),
{
    reveal_strlit("*");
    assert("*"@ =~= seq!['*']);
    let s = seq!['*'];
    lemma_trimming_undone(seq![], s, seq![]);
    assert(seq![] + s + seq![] =~= s);
}

proof fn lemma_hex_side(v: nat, w: nat)
    ensures
        plain_side(hex(v, w)),
        forall|whole: Seq<char>|
            v <= 0xffff ==> #[trigger] parsed_part(hex(v, w), whole) == Ok::<
                Option<u16>,
                Seq<char>,
            >(Some(v as u16)),
        forall|whole: Seq<char>| v > 0xffff ==> #[trigger] parsed_part(hex(v, w), whole) is Err,
{
    let s = hex(v, w);
    lemma_padded_value(v, 16, w);
    assert forall|k: int| 0 <= k < s.len() implies !is_white(#[trigger] s[k]) && s[k] != ':' by {
        assert(digit_value(s[k], 16) is Some);
    }
    assert(!is_white(s[0]) && !is_white(s[s.len() - 1]));
    lemma_trimming_undone(seq![], s, seq![]);
    assert(seq![] + s + seq![] =~= s);
    reveal_strlit("*");
    assert(digit_value(s[0], 16) is Some);
    assert(s != "*"@);
    assert(without_plus(s) == s);
}

proof fn lemma_two_sides(a: Seq<char>, b: Seq<char>)
    requires
        plain_side(a),
        plain_side(b),
    ensures
        ({
            let s = a + seq![':'] + b;
            parsed_pattern(s) == (match parsed_part(a, s) {
                Err(e) => Err(e),
                Ok(vendor) => match parsed_part(b, s) {
                    Err(e) => Err(e),
                    Ok(product) => Ok(Pattern { vendor, product }),
                },
            })
        }),
{
    let s = a + seq![':'] + b;
    assert(s[0] == a[0]);
    assert(s.last() == b[b.len() - 1]);
    lemma_trimming_undone(seq![], s, seq![]);
    assert(seq![] + s + seq![] =~= s);
    assert forall|j: int| 0 <= j < a.len() implies s[j] != ':' by {
        assert(s[j] == a[j]);
    }
    lemma_before_is(s, ':', a.len() as int);
    assert(s.take(a.len() as int) =~= a);
    assert(s.skip(a.len() as int + 1) =~= b);
}

} // verus!
