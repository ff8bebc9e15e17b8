//! Text as sequences of characters: building, splitting, trimming, and the
//! decimal and hexadecimal numerals that messages and fields are written in.
use vstd::prelude::*;
use vstd::string::*;
use vstd::utf8::*;

verus! {

/// `String::push` appends one character and leaves the rest as it was.
pub assume_specification[ String::push ](s: &mut String, c: char)
    ensures
        final(s)@ == old(s)@.push(c),
;

/// What the strings of a list hold.
pub open spec fn strings(v: Seq<String>) -> Seq<Seq<char>> {
    v.map_values(|s: String| s@)
}

/// The characters that `trim` removes and that words are separated by: those with the
/// Unicode property `White_Space`.
pub open spec fn is_white(c: char) -> bool {
    ||| '\t' <= c <= '\r'
    ||| c == ' '
    ||| c == '\u{85}'
    ||| c == '\u{a0}'
    ||| c == '\u{1680}'
    ||| '\u{2000}' <= c <= '\u{200a}'
    ||| c == '\u{2028}'
    ||| c == '\u{2029}'
    ||| c == '\u{202f}'
    ||| c == '\u{205f}'
    ||| c == '\u{3000}'
}

/// Calls `char::is_whitespace`. Claimed: it tells the characters that the Unicode
/// Character Database lists as `White_Space` from all others.
#[verifier::external_body]
fn white(c: char) -> (r: bool)
    ensures
        r == is_white(c),
{
    c.is_whitespace()
}

/// The characters of a string, one by one.
pub fn chars(s: &str) -> (v: Vec<char>)
    ensures
        v@ == s@,
{
    let mut v: Vec<char> = Vec::new();
    for c in it: s.chars()
        invariant
            it.seq() == s@,
            v@ == s@.take(it.index()),
    {
        v.push(c);
        proof {
            assert(s@.take(it.index() + 1) =~= s@.take(it.index()).push(c));
        }
    }
    assert(v@ =~= s@);
    v
}

/// The string made of the given characters.
pub fn string(cs: &[char]) -> (s: String)
    ensures
        s@ == cs@,
{
    let mut s = String::new();
    let mut i: usize = 0;
    while i < cs.len()
        invariant
            i <= cs@.len(),
            s@ == cs@.take(i as int),
        decreases cs@.len() - i,
    {
        s.push(cs[i]);
        i = i + 1;
        assert(cs@.take(i as int) =~= cs@.take(i - 1).push(cs@[i - 1]));
    }
    assert(s@ =~= cs@);
    s
}

/// Whether two character slices hold the same text.
pub fn same_chars(a: &[char], b: &[char]) -> (r: bool)
    ensures
        r == (a@ == b@),
{
    if a.len() != b.len() {
        return false;
    }
    let mut i: usize = 0;
    while i < a.len()
        invariant
            i <= a@.len() == b@.len(),
            forall|j: int| 0 <= j < i ==> a@[j] == b@[j],
        decreases a@.len() - i,
    {
        if a[i] != b[i] {
            return false;
        }
        i = i + 1;
    }
    assert(a@ =~= b@);
    true
}

/// Whether two strings are equal.
pub fn same(a: &str, b: &str) -> (r: bool)
    ensures
        r == (a@ == b@),
{
    same_chars(&chars(a), &chars(b))
}

/// A slice of the characters from `from` up to, not including, `to`.
pub fn part(cs: &[char], from: usize, to: usize) -> (r: &[char])
    requires
        from <= to <= cs@.len(),
    ensures
        r@ == cs@.subrange(from as int, to as int),
{
    vstd::slice::slice_subrange(cs, from, to)
}

/// `s` with blanks behind it until it has `n` characters.
pub open spec fn column(s: Seq<char>, n: nat) -> Seq<char> {
    if s.len() < n {
        s + Seq::new((n - s.len()) as nat, |i: int| ' ')
    } else {
        s
    }
}

pub fn push_column(out: &mut String, s: &str, n: usize)
    ensures
        final(out)@ == old(out)@ + column(s@, n as nat),
{
    out.append(s);
    let mut k: usize = s.unicode_len();
    let ghost len = k as int;
    assert(out@ =~= old(out)@ + s@ + Seq::new(0, |i: int| ' '));
    while k < n
        invariant
            len <= k,
            k <= n || k == len,
            out@ == old(out)@ + s@ + Seq::new((k - len) as nat, |i: int| ' '),
        decreases n - k,
    {
        out.push(' ');
        k = k + 1;
        assert(out@ =~= old(out)@ + s@ + Seq::new((k - len) as nat, |i: int| ' '));
    }
    assert(out@ =~= old(out)@ + column(s@, n as nat));
}

// ---------------------------------------------------------------------------
// Numerals

/// The digit that stands for `d` in bases up to sixteen, in lower case.
pub open spec fn digit(d: nat) -> char {
    if d < 10 {
        (48 + d) as u8 as char
    } else {
        (87 + d) as u8 as char
    }
}

/// `n` written in base `radix` with no leading zeros.
pub open spec fn numeral(n: nat, radix: nat) -> Seq<char>
    decreases n,
{
    if radix < 2 || n < radix {
        seq![digit(n)]
    } else {
        proof {
            assert(n / radix < n) by (nonlinear_arith)
                requires
                    n >= radix,
                    radix >= 2,
            ;
        }
        numeral(n / radix, radix).push(digit(n % radix))
    }
}

/// `n` in decimal.
pub open spec fn dec(n: nat) -> Seq<char> {
    numeral(n, 10)
}

/// `i` in decimal, with a minus sign when it is negative.
pub open spec fn dec_int(i: int) -> Seq<char> {
    if i < 0 {
        seq!['-'] + dec((-i) as nat)
    } else {
        dec(i as nat)
    }
}

/// `s` with zeros put before it until it has `width` characters.
pub open spec fn zero_padded(s: Seq<char>, width: nat) -> Seq<char> {
    if s.len() < width {
        Seq::new((width - s.len()) as nat, |i: int| '0') + s
    } else {
        s
    }
}

/// `n` in lower-case hexadecimal, at least `width` digits.
pub open spec fn hex(n: nat, width: nat) -> Seq<char> {
    zero_padded(numeral(n, 16), width)
}

fn digit_char(d: u64) -> (c: char)
    requires
        d < 16,
    ensures
        c == digit(d as nat),
{
    if d < 10 {
        (48 + d as u8) as char
    } else {
        (87 + d as u8) as char
    }
}

/// Appends `n` in base `radix` to `out`.
fn push_numeral(out: &mut String, n: u64, radix: u64)
    requires
        2 <= radix <= 16,
    ensures
        final(out)@ == old(out)@ + numeral(n as nat, radix as nat),
    decreases n,
{
    if n >= radix {
        assert(n / radix < n) by (nonlinear_arith)
            requires
                n >= radix,
                radix >= 2,
        ;
        push_numeral(out, n / radix, radix);
        out.push(digit_char(n % radix));
        assert(out@ =~= old(out)@ + numeral(n as nat, radix as nat));
    } else {
        out.push(digit_char(n));
        assert(out@ =~= old(out)@ + numeral(n as nat, radix as nat));
    }
}

/// Appends `n` in decimal to `out`.
pub fn push_dec(out: &mut String, n: u64)
    ensures
        final(out)@ == old(out)@ + dec(n as nat),
{
    push_numeral(out, n, 10);
}

/// Appends `i` in decimal to `out`, with a minus sign when it is negative.
pub fn push_dec_int(out: &mut String, i: i64)
    ensures
        final(out)@ == old(out)@ + dec_int(i as int),
{
    if i < 0 {
        out.push('-');
        let m: u64 = (-(i as i128)) as u64;
        push_dec(out, m);
        assert(out@ =~= old(out)@ + dec_int(i as int));
    } else {
        push_dec(out, i as u64);
    }
}

/// Appends `n` in decimal to `out`, at least `width` digits.
pub fn push_dec_padded(out: &mut String, n: u64, width: usize)
    ensures
        final(out)@ == old(out)@ + zero_padded(dec(n as nat), width as nat),
{
    push_padded(out, n, 10, width);
}

/// Appends `n` in lower-case hexadecimal to `out`, at least `width` digits.
pub fn push_hex(out: &mut String, n: u64, width: usize)
    ensures
        final(out)@ == old(out)@ + hex(n as nat, width as nat),
{
    push_padded(out, n, 16, width);
}

fn push_padded(out: &mut String, n: u64, radix: u64, width: usize)
    requires
        2 <= radix <= 16,
    ensures
        final(out)@ == old(out)@ + zero_padded(numeral(n as nat, radix as nat), width as nat),
{
    let mut digits = String::new();
    push_numeral(&mut digits, n, radix);
    let mut k: usize = digits.as_str().unicode_len();
    assert(digits@ =~= numeral(n as nat, radix as nat));
    let ghost len = k as int;
    while k < width
        invariant
            len <= k,
            k <= width || k == len,
            out@ == old(out)@ + Seq::new((k - len) as nat, |i: int| '0'),
        decreases width - k,
    {
        out.push('0');
        k = k + 1;
        assert(out@ =~= old(out)@ + Seq::new((k - len) as nat, |i: int| '0'));
    }
    out.append(digits.as_str());
    assert(out@ =~= old(out)@ + zero_padded(numeral(n as nat, radix as nat), width as nat));
}

/// What `c` is worth as a digit of base `radix`, in either case.
pub open spec fn digit_value(c: char, radix: nat) -> Option<nat> {
    let v: int = if '0' <= c <= '9' {
        c as int - 48
    } else if 'a' <= c <= 'z' {
        c as int - 87
    } else if 'A' <= c <= 'Z' {
        c as int - 55
    } else {
        -1
    };
    if 0 <= v < radix {
        Some(v as nat)
    } else {
        None
    }
}

/// Whether every character is a digit of base `radix`.
pub open spec fn all_digits(s: Seq<char>, radix: nat) -> bool {
    forall|i: int| 0 <= i < s.len() ==> (#[trigger] digit_value(s[i], radix)) is Some
}

/// The number that a string of digits stands for.
pub open spec fn digits_value(s: Seq<char>, radix: nat) -> nat
    decreases s.len(),
{
    if s.len() == 0 {
        0
    } else {
        digits_value(s.drop_last(), radix) * radix + digit_value(s.last(), radix).unwrap_or(0)
    }
}

/// `s` without the plus sign it may begin with.
pub open spec fn without_plus(s: Seq<char>) -> Seq<char> {
    if s.len() > 0 && s[0] == '+' {
        s.drop_first()
    } else {
        s
    }
}

/// The number that `s` denotes, if `s` is one or more digits after an optional
/// plus sign and the number is at most `max`.
pub open spec fn parsed_nat(s: Seq<char>, radix: nat, max: nat) -> Option<nat> {
    let body = without_plus(s);
    if body.len() > 0 && all_digits(body, radix) && digits_value(body, radix) <= max {
        Some(digits_value(body, radix))
    } else {
        None
    }
}

/// The integer that `s` denotes, if `s` is one or more decimal digits after an
/// optional sign and the integer fits in 64 bits.
pub open spec fn parsed_i64(s: Seq<char>) -> Option<int> {
    if s.len() > 0 && s[0] == '-' {
        let body = s.drop_first();
        if body.len() > 0 && all_digits(body, 10) && digits_value(body, 10)
            <= 0x8000_0000_0000_0000 {
            Some(-(digits_value(body, 10) as int))
        } else {
            None
        }
    } else {
        match parsed_nat(s, 10, 0x7fff_ffff_ffff_ffff) {
            Some(n) => Some(n as int),
            None => None,
        }
    }
}

fn value_of_digit(c: char, radix: u64) -> (r: Option<u64>)
    requires
        2 <= radix <= 16,
    ensures
        match r {
            Some(v) => digit_value(c, radix as nat) == Some(v as nat),
            None => digit_value(c, radix as nat) is None,
        },
{
    let v: u64 = if '0' <= c && c <= '9' {
        (c as u64) - 48
    } else if 'a' <= c && c <= 'z' {
        (c as u64) - 87
    } else if 'A' <= c && c <= 'Z' {
        (c as u64) - 55
    } else {
        return None;
    };
    if v < radix {
        Some(v)
    } else {
        None
    }
}

proof fn lemma_prefix_value(s: Seq<char>, i: int, radix: nat)
    requires
        0 <= i <= s.len(),
        radix >= 1,
    ensures
        digits_value(s.take(i), radix) <= digits_value(s, radix),
    decreases s.len() - i,
{
    if i == s.len() {
        assert(s.take(i) =~= s);
    } else {
        lemma_prefix_value(s, i + 1, radix);
        assert(s.take(i + 1).drop_last() =~= s.take(i));
        let v = digits_value(s.take(i), radix);
        assert(v <= v * radix) by (nonlinear_arith)
            requires
                radix >= 1,
                v >= 0,
        ;
    }
}

/// Reads digits alone: no sign, at least one digit, at most `max`.
fn read_digits(cs: &[char], radix: u64, max: u64) -> (r: Option<u64>)
    requires
        2 <= radix <= 16,
    ensures
        match r {
            Some(v) => cs@.len() > 0 && all_digits(cs@, radix as nat) && v == digits_value(
                cs@,
                radix as nat,
            ) && v <= max,
            None => cs@.len() == 0 || !all_digits(cs@, radix as nat) || digits_value(
                cs@,
                radix as nat,
            ) > max,
        },
{
    if cs.len() == 0 {
        return None;
    }
    let mut v: u64 = 0;
    let mut i: usize = 0;
    while i < cs.len()
        invariant
            i <= cs@.len(),
            2 <= radix <= 16,
            v <= max,
            v == digits_value(cs@.take(i as int), radix as nat),
            forall|j: int|
                0 <= j < i ==> (#[trigger] digit_value(cs@[j], radix as nat)) is Some,
        decreases cs@.len() - i,
    {
        match value_of_digit(cs[i], radix) {
            None => {
                assert(digit_value(cs@[i as int], radix as nat) is None);
                return None;
            },
            Some(d) => {
                assert(cs@.take(i + 1).drop_last() =~= cs@.take(i as int));
                assert(v * radix <= 0xffff_ffff_ffff_ffff * 16 && v * radix >= 0)
                    by (nonlinear_arith)
                    requires
                        0 <= v <= 0xffff_ffff_ffff_ffff,
                        2 <= radix <= 16,
                ;
                let next: u128 = (v as u128) * (radix as u128) + (d as u128);
                if next > max as u128 {
                    proof {
                        lemma_prefix_value(cs@, i + 1, radix as nat);
                    }
                    return None;
                }
                v = next as u64;
                i = i + 1;
            },
        }
    }
    assert(cs@.take(i as int) =~= cs@);
    Some(v)
}

/// Reads an unsigned numeral in base `radix`, at most `max`.
pub fn parse_nat(cs: &[char], radix: u64, max: u64) -> (r: Option<u64>)
    requires
        2 <= radix <= 16,
    ensures
        match r {
            Some(v) => parsed_nat(cs@, radix as nat, max as nat) == Some(v as nat),
            None => parsed_nat(cs@, radix as nat, max as nat) is None,
        },
{
    if cs.len() > 0 && cs[0] == '+' {
        let body = part(cs, 1, cs.len());
        assert(body@ =~= without_plus(cs@));
        read_digits(body, radix, max)
    } else {
        read_digits(cs, radix, max)
    }
}

/// Reads a signed decimal numeral of 64 bits.
pub fn parse_i64(cs: &[char]) -> (r: Option<i64>)
    ensures
        match r {
            Some(v) => parsed_i64(cs@) == Some(v as int),
            None => parsed_i64(cs@) is None,
        },
{
    if cs.len() > 0 && cs[0] == '-' {
        let body = part(cs, 1, cs.len());
        assert(body@ =~= cs@.drop_first());
        match read_digits(body, 10, 0x8000_0000_0000_0000) {
            Some(v) => Some((-(v as i128)) as i64),
            None => None,
        }
    } else {
        match parse_nat(cs, 10, 0x7fff_ffff_ffff_ffff) {
            Some(v) => Some(v as i64),
            None => None,
        }
    }
}

pub proof fn lemma_numeral_value(n: nat, radix: nat)
    requires
        2 <= radix <= 16,
    ensures
        numeral(n, radix).len() > 0,
        all_digits(numeral(n, radix), radix),
        digits_value(numeral(n, radix), radix) == n,
    decreases n,
{
    if n < radix {
        assert(numeral(n, radix).drop_last() =~= Seq::empty());
        assert(digits_value(Seq::<char>::empty(), radix) == 0);
        assert(digits_value(numeral(n, radix), radix) == 0 * radix + n);
    } else {
        assert(n / radix < n) by (nonlinear_arith)
            requires
                n >= radix,
                radix >= 2,
        ;
        assert(n % radix < radix);
        lemma_numeral_value(n / radix, radix);
        assert(numeral(n, radix).drop_last() =~= numeral(n / radix, radix));
        assert((n / radix) * radix + n % radix == n) by (nonlinear_arith)
            requires
                radix >= 2,
        ;
    }
}

proof fn lemma_leading_zero(s: Seq<char>, radix: nat)
    requires
        2 <= radix <= 16,
        all_digits(s, radix),
    ensures
        all_digits(seq!['0'] + s, radix),
        digits_value(seq!['0'] + s, radix) == digits_value(s, radix),
    decreases s.len(),
{
    let t = seq!['0'] + s;
    assert forall|i: int| 0 <= i < t.len() implies (#[trigger] digit_value(t[i], radix)) is Some by {
        if i > 0 {
            assert(t[i] == s[i - 1]);
            assert(digit_value(s[i - 1], radix) is Some);
        }
    }
    if s.len() == 0 {
        assert(t.drop_last() =~= s);
        assert(t.last() == '0');
        assert(digit_value('0', radix) == Some(0nat));
        assert(0 * radix == 0) by (nonlinear_arith);
        assert(digits_value(t, radix) == digits_value(s, radix) * radix + 0);
    } else {
        assert(t.drop_last() =~= seq!['0'] + s.drop_last());
        assert forall|i: int| 0 <= i < s.drop_last().len() implies (#[trigger] digit_value(
            s.drop_last()[i],
            radix,
        )) is Some by {
            assert(digit_value(s[i], radix) is Some);
        }
        lemma_leading_zero(s.drop_last(), radix);
    }
}

/// Zeros put before a numeral do not change what it stands for.
pub proof fn lemma_padded_value(n: nat, radix: nat, width: nat)
    requires
        2 <= radix <= 16,
    ensures
        zero_padded(numeral(n, radix), width).len() > 0,
        zero_padded(numeral(n, radix), width).len() >= width,
        all_digits(zero_padded(numeral(n, radix), width), radix),
        digits_value(zero_padded(numeral(n, radix), width), radix) == n,
    decreases width,
{
    lemma_numeral_value(n, radix);
    let s = numeral(n, radix);
    if s.len() < width {
        let w = (width - 1) as nat;
        lemma_padded_value(n, radix, w);
        assert(zero_padded(s, width) =~= seq!['0'] + zero_padded(s, w));
        lemma_leading_zero(zero_padded(s, w), radix);
    }
}

/// A numeral that was written out reads back as the number, padded or not.
pub proof fn lemma_written_number_reads_back(n: nat, radix: nat, width: nat, max: nat)
    requires
        2 <= radix <= 16,
        n <= max,
    ensures
        parsed_nat(zero_padded(numeral(n, radix), width), radix, max) == Some(n),
{
    lemma_padded_value(n, radix, width);
    let s = zero_padded(numeral(n, radix), width);
    assert(digit_value(s[0], radix) is Some);
    assert(without_plus(s) == s);
}

// ---------------------------------------------------------------------------
// Trimming and splitting

pub open spec fn trimmed_start(s: Seq<char>) -> Seq<char>
    decreases s.len(),
{
    if s.len() > 0 && is_white(s[0]) {
        trimmed_start(s.drop_first())
    } else {
        s
    }
}

pub open spec fn trimmed_end(s: Seq<char>) -> Seq<char>
    decreases s.len(),
{
    if s.len() > 0 && is_white(s.last()) {
        trimmed_end(s.drop_last())
    } else {
        s
    }
}

/// `s` without the white space at its ends.
pub open spec fn trimmed(s: Seq<char>) -> Seq<char> {
    trimmed_end(trimmed_start(s))
}

pub fn trim_start(cs: &[char]) -> (r: &[char])
    ensures
        r@ == trimmed_start(cs@),
{
    let mut i: usize = 0;
    assert(cs@.skip(0) =~= cs@);
    while i < cs.len() && white(cs[i])
        invariant
            i <= cs@.len(),
            trimmed_start(cs@) == trimmed_start(cs@.skip(i as int)),
        decreases cs@.len() - i,
    {
        assert(cs@.skip(i as int).drop_first() =~= cs@.skip(i + 1));
        i = i + 1;
    }
    let r = part(cs, i, cs.len());
    assert(r@ =~= cs@.skip(i as int));
    r
}

pub fn trim_end(cs: &[char]) -> (r: &[char])
    ensures
        r@ == trimmed_end(cs@),
{
    let mut i: usize = cs.len();
    assert(cs@.take(i as int) =~= cs@);
    while i > 0 && white(cs[i - 1])
        invariant
            i <= cs@.len(),
            trimmed_end(cs@) == trimmed_end(cs@.take(i as int)),
        decreases i,
    {
        assert(cs@.take(i as int).drop_last() =~= cs@.take(i - 1));
        i = i - 1;
    }
    let r = part(cs, 0, i);
    assert(r@ =~= cs@.take(i as int));
    r
}

pub fn trim(cs: &[char]) -> (r: &[char])
    ensures
        r@ == trimmed(cs@),
{
    trim_end(trim_start(cs))
}

/// How many characters come before the first `c`: all of them if there is none.
pub open spec fn before(s: Seq<char>, c: char) -> int
    decreases s.len(),
{
    if s.len() == 0 || s[0] == c {
        0
    } else {
        1 + before(s.drop_first(), c)
    }
}

pub broadcast proof fn lemma_before(s: Seq<char>, c: char)
    ensures
        0 <= #[trigger] before(s, c) <= s.len(),
        before(s, c) < s.len() ==> s[before(s, c)] == c,
        forall|i: int| 0 <= i < before(s, c) ==> s[i] != c,
    decreases s.len(),
{
    if s.len() == 0 || s[0] == c {
    } else {
        lemma_before(s.drop_first(), c);
        assert forall|i: int| 0 <= i < before(s, c) implies s[i] != c by {
            if i > 0 {
                assert(s[i] == s.drop_first()[i - 1]);
            }
        }
    }
}

/// The place that [`before`] gives is determined by what stands there.
pub proof fn lemma_before_is(s: Seq<char>, c: char, i: int)
    requires
        0 <= i <= s.len(),
        i < s.len() ==> s[i] == c,
        forall|j: int| 0 <= j < i ==> s[j] != c,
    ensures
        before(s, c) == i,
{
    lemma_before(s, c);
    let b = before(s, c);
    if b < i {
        assert(s[b] == c);
    }
    if i < b {
        assert(s[i] != c);
    }
}

/// How many characters come before the first `c`: all of them if there is none.
pub fn find_char(cs: &[char], c: char) -> (r: usize)
    ensures
        r == before(cs@, c),
        r <= cs@.len(),
        r < cs@.len() ==> cs@[r as int] == c,
{
    let mut i: usize = 0;
    while i < cs.len() && cs[i] != c
        invariant
            i <= cs@.len(),
            forall|j: int| 0 <= j < i ==> cs@[j] != c,
        decreases cs@.len() - i,
    {
        i = i + 1;
    }
    proof {
        lemma_before_is(cs@, c, i as int);
    }
    i
}

/// The pieces of `s` between the occurrences of `sep`, one more than there are
/// of those.
pub open spec fn pieces(s: Seq<char>, sep: char) -> Seq<Seq<char>>
    decreases s.len(),
{
    let i = before(s, sep);
    if 0 <= i < s.len() {
        seq![s.take(i)] + pieces(s.skip(i + 1), sep)
    } else {
        seq![s]
    }
}

/// What the slices of a list hold, one by one.
pub open spec fn texts(v: Seq<&[char]>) -> Seq<Seq<char>> {
    v.map_values(|p: &[char]| p@)
}

/// Splits at every `sep`.
pub fn split(cs: &[char], sep: char) -> (r: Vec<&[char]>)
    ensures
        texts(r@) == pieces(cs@, sep),
{
    let mut out: Vec<&[char]> = Vec::new();
    let mut rest: &[char] = cs;
    assert(texts(out@) + pieces(rest@, sep) =~= pieces(cs@, sep));
    loop
        invariant
            texts(out@) + pieces(rest@, sep) == pieces(cs@, sep),
        decreases rest@.len(),
    {
        let i: usize = find_char(rest, sep);
        let ghost had = texts(out@);
        if i == rest.len() {
            out.push(rest);
            assert(texts(out@) =~= had + seq![rest@]);
            return out;
        }
        let head = part(rest, 0, i);
        let tail = part(rest, i + 1, rest.len());
        assert(head@ =~= rest@.take(i as int));
        assert(tail@ =~= rest@.skip(i + 1));
        out.push(head);
        assert(texts(out@) =~= had + seq![head@]);
        assert(texts(out@) + pieces(tail@, sep) =~= had + (seq![head@] + pieces(tail@, sep)));
        rest = tail;
    }
}

/// `line` without the carriage return it may end in.
pub open spec fn without_cr(line: Seq<char>) -> Seq<char> {
    if line.len() > 0 && line.last() == '\r' {
        line.drop_last()
    } else {
        line
    }
}

/// The lines of a text. A line ends in a line feed, with or without a carriage
/// return before it; the last one may end with the text instead.
pub open spec fn text_lines(s: Seq<char>) -> Seq<Seq<char>>
    decreases s.len(),
{
    let i = before(s, '\n');
    if s.len() == 0 {
        seq![]
    } else if 0 <= i < s.len() {
        seq![without_cr(s.take(i))] + text_lines(s.skip(i + 1))
    } else {
        seq![s]
    }
}

pub fn lines(cs: &[char]) -> (r: Vec<&[char]>)
    ensures
        texts(r@) == text_lines(cs@),
{
    let mut out: Vec<&[char]> = Vec::new();
    let mut rest: &[char] = cs;
    assert(texts(out@) + text_lines(rest@) =~= text_lines(cs@));
    while rest.len() > 0
        invariant
            texts(out@) + text_lines(rest@) == text_lines(cs@),
        decreases rest@.len(),
    {
        let i: usize = find_char(rest, '\n');
        let ghost had = texts(out@);
        if i == rest.len() {
            out.push(rest);
            assert(texts(out@) =~= had + seq![rest@]);
            return out;
        }
        let line = if i > 0 && rest[i - 1] == '\r' {
            part(rest, 0, i - 1)
        } else {
            part(rest, 0, i)
        };
        let tail = part(rest, i + 1, rest.len());
        assert(line@ =~= without_cr(rest@.take(i as int)));
        assert(tail@ =~= rest@.skip(i + 1));
        out.push(line);
        assert(texts(out@) =~= had + seq![line@]);
        assert(texts(out@) + text_lines(tail@) =~= had + (seq![line@] + text_lines(tail@)));
        rest = tail;
    }
    assert(texts(out@) =~= texts(out@) + text_lines(rest@));
    out
}

/// How many characters come before the first white space.
pub open spec fn word_len(s: Seq<char>) -> int
    decreases s.len(),
{
    if s.len() == 0 || is_white(s[0]) {
        0
    } else {
        1 + word_len(s.drop_first())
    }
}

proof fn lemma_word_len(s: Seq<char>)
    ensures
        0 <= word_len(s) <= s.len(),
    decreases s.len(),
{
    if s.len() == 0 || is_white(s[0]) {
    } else {
        lemma_word_len(s.drop_first());
    }
}

proof fn lemma_trimmed_start(s: Seq<char>)
    ensures
        trimmed_start(s).len() <= s.len(),
        trimmed_start(s).len() > 0 ==> !is_white(trimmed_start(s)[0]),
    decreases s.len(),
{
    if s.len() > 0 && is_white(s[0]) {
        lemma_trimmed_start(s.drop_first());
    }
}

/// The words of a text: what stands between stretches of white space.
pub open spec fn text_words(s: Seq<char>) -> Seq<Seq<char>>
    decreases s.len(),
{
    let t = trimmed_start(s);
    let n = word_len(t);
    if 0 < n <= t.len() <= s.len() {
        seq![t.take(n)] + text_words(t.skip(n))
    } else {
        seq![]
    }
}

pub fn words(cs: &[char]) -> (r: Vec<&[char]>)
    ensures
        texts(r@) == text_words(cs@),
{
    let mut out: Vec<&[char]> = Vec::new();
    let mut rest: &[char] = cs;
    assert(texts(out@) + text_words(rest@) =~= text_words(cs@));
    loop
        invariant
            texts(out@) + text_words(rest@) == text_words(cs@),
        decreases rest@.len(),
    {
        let t = trim_start(rest);
        proof {
            lemma_trimmed_start(rest@);
        }
        if t.len() == 0 {
            assert(texts(out@) =~= texts(out@) + text_words(rest@));
            return out;
        }
        let ghost had = texts(out@);
        let mut n: usize = 0;
        assert(t@.skip(0) =~= t@);
        while n < t.len() && !white(t[n])
            invariant
                n <= t@.len(),
                word_len(t@) == n + word_len(t@.skip(n as int)),
            decreases t@.len() - n,
        {
            assert(t@.skip(n as int).drop_first() =~= t@.skip(n + 1));
            n = n + 1;
        }
        proof {
            lemma_word_len(t@);
        }
        let head = part(t, 0, n);
        let tail = part(t, n, t.len());
        assert(head@ =~= t@.take(n as int));
        assert(tail@ =~= t@.skip(n as int));
        out.push(head);
        assert(texts(out@) =~= had + seq![head@]);
        assert(texts(out@) + text_words(tail@) =~= had + (seq![head@] + text_words(tail@)));
        rest = tail;
    }
}

/// Appending a piece after a separator appends it to the list of pieces.
pub proof fn lemma_pieces_push(s: Seq<char>, t: Seq<char>, sep: char)
    requires
        forall|i: int| 0 <= i < t.len() ==> t[i] != sep,
    ensures
        pieces(s + seq![sep] + t, sep) == pieces(s, sep).push(t),
    decreases s.len(),
{
    let all = s + seq![sep] + t;
    let i = before(s, sep);
    lemma_before(s, sep);
    assert forall|j: int| 0 <= j < i implies all[j] != sep by {
        assert(all[j] == s[j]);
    }
    lemma_before_is(all, sep, i);
    if i < s.len() {
        lemma_pieces_push(s.skip(i + 1), t, sep);
        assert(all.take(i) =~= s.take(i));
        assert(all.skip(i + 1) =~= s.skip(i + 1) + seq![sep] + t);
        assert(pieces(all, sep) =~= pieces(s, sep).push(t));
    } else {
        assert(all.take(i) =~= s);
        assert(all.skip(i + 1) =~= t);
        lemma_before_is(t, sep, t.len() as int);
        assert(pieces(t, sep) =~= seq![t]);
        assert(pieces(s, sep) =~= seq![s]);
        assert(pieces(all, sep) =~= pieces(s, sep).push(t));
    }
}

// ---------------------------------------------------------------------------
// Prefixes and order

/// Whether `s` begins with `p`.
pub open spec fn begins_with(s: Seq<char>, p: Seq<char>) -> bool {
    p.len() <= s.len() && s.take(p.len() as int) == p
}

pub fn has_prefix(s: &[char], p: &[char]) -> (r: bool)
    ensures
        r == begins_with(s@, p@),
{
    if s.len() < p.len() {
        return false;
    }
    let head = part(s, 0, p.len());
    assert(head@ =~= s@.take(p@.len() as int));
    same_chars(head, p)
}

/// Whether `a` comes before `b` in the order of their characters.
pub open spec fn comes_before(a: Seq<char>, b: Seq<char>) -> bool
    decreases a.len(),
{
    if b.len() == 0 {
        false
    } else if a.len() == 0 {
        true
    } else if a[0] != b[0] {
        a[0] < b[0]
    } else {
        comes_before(a.drop_first(), b.drop_first())
    }
}

pub proof fn lemma_order_is_strict(a: Seq<char>, b: Seq<char>)
    ensures
        comes_before(a, b) ==> !comes_before(b, a) && a != b,
        a != b ==> comes_before(a, b) || comes_before(b, a),
    decreases a.len(),
{
    if a.len() > 0 && b.len() > 0 && a[0] == b[0] {
        lemma_order_is_strict(a.drop_first(), b.drop_first());
        if a.drop_first() == b.drop_first() {
            assert(a =~= seq![a[0]] + a.drop_first());
            assert(b =~= seq![b[0]] + b.drop_first());
        }
    } else if a.len() == 0 && b.len() == 0 {
        assert(a =~= b);
    }
}

pub proof fn lemma_order_is_transitive(a: Seq<char>, b: Seq<char>, c: Seq<char>)
    requires
        comes_before(a, b),
        comes_before(b, c),
    ensures
        comes_before(a, c),
    decreases a.len(),
{
    if a.len() > 0 && b.len() > 0 && c.len() > 0 && a[0] == b[0] && b[0] == c[0] {
        lemma_order_is_transitive(a.drop_first(), b.drop_first(), c.drop_first());
    }
}

pub fn precedes(a: &[char], b: &[char]) -> (r: bool)
    ensures
        r == comes_before(a@, b@),
{
    let mut i: usize = 0;
    assert(a@.skip(0) =~= a@);
    assert(b@.skip(0) =~= b@);
    loop
        invariant
            i <= a@.len(),
            i <= b@.len(),
            comes_before(a@, b@) == comes_before(a@.skip(i as int), b@.skip(i as int)),
        decreases a@.len() - i,
    {
        if i == b.len() {
            return false;
        }
        if i == a.len() {
            return true;
        }
        if a[i] != b[i] {
            return a[i] < b[i];
        }
        assert(a@.skip(i as int).drop_first() =~= a@.skip(i + 1));
        assert(b@.skip(i as int).drop_first() =~= b@.skip(i + 1));
        i = i + 1;
    }
}

/// The lower-case form of an ASCII letter; other characters stay.
pub open spec fn lower(c: char) -> char {
    if 'A' <= c <= 'Z' {
        (c as u8 + 32) as u8 as char
    } else {
        c
    }
}

pub open spec fn lowered(s: Seq<char>) -> Seq<char> {
    s.map_values(|c: char| lower(c))
}

pub fn to_lower(cs: &[char]) -> (r: Vec<char>)
    ensures
        r@ == lowered(cs@),
{
    let mut v: Vec<char> = Vec::new();
    let mut i: usize = 0;
    while i < cs.len()
        invariant
            i <= cs@.len(),
            v@ == lowered(cs@).take(i as int),
        decreases cs@.len() - i,
    {
        let c = cs[i];
        if 'A' <= c && c <= 'Z' {
            v.push((c as u8 + 32) as char);
        } else {
            v.push(c);
        }
        i = i + 1;
        assert(v@ =~= lowered(cs@).take(i as int));
    }
    assert(v@ =~= lowered(cs@));
    v
}

/// What is made of bytes that are not UTF-8, where text is expected.
pub uninterp spec fn lossy_utf8(b: Seq<u8>) -> Seq<char>;

/// The text that bytes stand for, with replacements where they are not UTF-8.
pub open spec fn text_of(b: Seq<u8>) -> Seq<char> {
    if valid_utf8(b) {
        decode_utf8(b)
    } else {
        lossy_utf8(b)
    }
}

/// Calls `String::from_utf8_lossy`. Claimed: bytes that are valid UTF-8 give the
/// text that they encode; of others only that the text is a function of the bytes.
#[verifier::external_body]
pub(crate) fn lossy(b: &[u8]) -> (s: String)
    ensures
        s@ == (if valid_utf8(b@) {
            decode_utf8(b@)
        } else {
            lossy_utf8(b@)
        }),
{
    String::from_utf8_lossy(b).into_owned()
}

/// What the debug form of a string is: in quotes, with escapes for what would
/// not print.
pub uninterp spec fn debug_text(s: Seq<char>) -> Seq<char>;

/// Calls the `Debug` of `str` through `format!`. Claimed: the text is a function
/// of the characters.
#[verifier::external_body]
pub(crate) fn debug_string(s: &str) -> (r: String)
    ensures
        r@ == debug_text(s@),
{
    format!("{s:?}")
}

// ---------------------------------------------------------------------------
// Laws

proof fn lemma_start_cut(s: Seq<char>)
    ensures
        ({
            let t = trimmed_start(s);
            let i = s.len() - t.len();
            &&& 0 <= i <= s.len()
            &&& t == s.skip(i)
            &&& forall|k: int| 0 <= k < i ==> is_white(#[trigger] s[k])
            &&& t.len() > 0 ==> !is_white(t[0])
        }),
    decreases s.len(),
{
    let t = trimmed_start(s);
    let i = s.len() - t.len();
    if s.len() > 0 && is_white(s[0]) {
        let r = s.drop_first();
        lemma_start_cut(r);
        assert(t =~= s.skip(i));
        assert forall|k: int| 0 <= k < i implies is_white(#[trigger] s[k]) by {
            if k > 0 {
                assert(s[k] == r[k - 1]);
            }
        }
    } else {
        assert(t =~= s.skip(0));
    }
}

proof fn lemma_end_cut(s: Seq<char>)
    ensures
        ({
            let t = trimmed_end(s);
            &&& t.len() <= s.len()
            &&& t == s.take(t.len() as int)
            &&& forall|k: int| t.len() <= k < s.len() ==> is_white(#[trigger] s[k])
            &&& t.len() > 0 ==> !is_white(t.last())
        }),
    decreases s.len(),
{
    let t = trimmed_end(s);
    if s.len() > 0 && is_white(s.last()) {
        let r = s.drop_last();
        lemma_end_cut(r);
        assert(t =~= s.take(t.len() as int));
        assert forall|k: int| t.len() <= k < s.len() implies is_white(#[trigger] s[k]) by {
            if k < r.len() {
                assert(s[k] == r[k]);
            }
        }
    } else {
        assert(t =~= s.take(t.len() as int));
    }
}

/// Trimming cuts white space off both ends and nothing else: what is left is a stretch of
/// the text that begins and ends in something else, and all that stood around it is white
/// space. The ASCII characters that count as such are the blank and those from tab to
/// carriage return.
pub proof fn lemma_trimming(s: Seq<char>)
    ensures
        exists|i: int, j: int|
            {
                &&& 0 <= i <= j <= s.len()
                &&& trimmed(s) == #[trigger] s.subrange(i, j)
                &&& forall|k: int| 0 <= k < i || j <= k < s.len() ==> is_white(#[trigger] s[k])
            },
        trimmed(s).len() > 0 ==> !is_white(trimmed(s)[0]) && !is_white(trimmed(s).last()),
        forall|c: char| c < '\u{80}' ==> (#[trigger] is_white(c) <==> c == ' ' || c == '\t' || c
            == '\n' || c == '\u{b}' || c == '\u{c}' || c == '\r'),
{
    let t = trimmed_start(s);
    let u = trimmed_end(t);
    lemma_start_cut(s);
    lemma_end_cut(t);
    let i = s.len() - t.len();
    let j = i + u.len();
    assert(u =~= s.subrange(i, j));
    assert forall|k: int| 0 <= k < i || j <= k < s.len() implies is_white(#[trigger] s[k]) by {
        if k >= j {
            assert(s[k] == t[k - i]);
        }
    }
    if u.len() > 0 {
        assert(u[0] == t[0]);
    }
}

/// A text that neither begins nor ends in white space is what trimming leaves of it,
/// whatever white space is put around it.
pub proof fn lemma_trimming_undone(a: Seq<char>, s: Seq<char>, b: Seq<char>)
    requires
        s.len() > 0,
        !is_white(s[0]),
        !is_white(s.last()),
        forall|k: int| 0 <= k < a.len() ==> is_white(#[trigger] a[k]),
        forall|k: int| 0 <= k < b.len() ==> is_white(#[trigger] b[k]),
    ensures
        trimmed(a + s + b) == s,
{
    let all = a + s + b;
    let t = trimmed_start(all);
    lemma_start_cut(all);
    let i = all.len() - t.len();
    if i < a.len() {
        assert(t[0] == all[i]);
        assert(is_white(a[i]));
    }
    if i > a.len() {
        assert(all[a.len() as int] == s[0]);
        assert(is_white(all[a.len() as int]));
    }
    assert(t =~= s + b);
    let u = trimmed_end(t);
    lemma_end_cut(t);
    if u.len() > s.len() {
        assert(u.last() == t[u.len() - 1]);
        assert(t[u.len() - 1] == b[u.len() - 1 - s.len()]);
    }
    if u.len() < s.len() {
        assert(t[s.len() - 1] == s.last());
        assert(is_white(t[s.len() - 1]));
    }
    assert(u =~= s);
}

/// The texts one after another with a separator between each two.
pub open spec fn with_between(ps: Seq<Seq<char>>, sep: char) -> Seq<char>
    decreases ps.len(),
{
    if ps.len() == 0 {
        seq![]
    } else if ps.len() == 1 {
        ps[0]
    } else {
        ps[0] + seq![sep] + with_between(ps.drop_first(), sep)
    }
}

/// Splitting is undone by putting the separators back, and no piece holds one.
pub proof fn lemma_splitting(s: Seq<char>, sep: char)
    ensures
        pieces(s, sep).len() >= 1,
        with_between(pieces(s, sep), sep) == s,
        forall|i: int, k: int|
            0 <= i < pieces(s, sep).len() && 0 <= k < pieces(s, sep)[i].len()
                ==> #[trigger] pieces(s, sep)[i][k] != sep,
    decreases s.len(),
{
    let i = before(s, sep);
    lemma_before(s, sep);
    if i < s.len() {
        let rest = s.skip(i + 1);
        lemma_splitting(rest, sep);
        let ps = pieces(s, sep);
        let qs = pieces(rest, sep);
        assert(ps.drop_first() =~= qs);
        assert(ps[0] == s.take(i));
        assert(with_between(ps, sep) =~= s);
        assert forall|m: int, k: int| 0 <= m < ps.len() && 0 <= k < ps[m].len() implies
            #[trigger] ps[m][k] != sep by {
            if m > 0 {
                assert(ps[m] == qs[m - 1]);
                assert(qs[m - 1][k] != sep);
            }
        }
    } else {
        assert(pieces(s, sep) =~= seq![s]);
        assert(with_between(pieces(s, sep), sep) =~= s);
    }
}

/// Lines that are written one after another are read as these lines, with a line feed or
/// with a carriage return and a line feed at the end of each.
pub proof fn lemma_lines_read_back(first: Seq<char>, rest: Seq<char>)
    requires
        forall|k: int| 0 <= k < first.len() ==> first[k] != '\n',
        first.len() > 0 ==> first.last() != '\r',
    ensures
        text_lines(first + seq!['\n'] + rest) == seq![first] + text_lines(rest),
        text_lines(first + seq!['\r', '\n'] + rest) == seq![first] + text_lines(rest),
        first.len() > 0 ==> text_lines(first) == seq![first],
        text_lines(seq![]) == Seq::<Seq<char>>::empty(),
{
    let a = first + seq!['\n'] + rest;
    let n = first.len() as int;
    assert(a[n] == '\n');
    assert forall|j: int| 0 <= j < n implies a[j] != '\n' by {
        assert(a[j] == first[j]);
    }
    lemma_before_is(a, '\n', n);
    assert(a.take(n) =~= first);
    assert(a.skip(n + 1) =~= rest);
    let b = first + seq!['\r', '\n'] + rest;
    assert(b[n + 1] == '\n');
    assert forall|j: int| 0 <= j < n + 1 implies b[j] != '\n' by {
        if j < n {
            assert(b[j] == first[j]);
        }
    }
    lemma_before_is(b, '\n', n + 1);
    assert(b.take(n + 1) =~= first.push('\r'));
    assert(b.take(n + 1).drop_last() =~= first);
    assert(b.skip(n + 2) =~= rest);
    if n > 0 {
        lemma_before_is(first, '\n', n);
    }
    assert(text_lines(seq![]) =~= Seq::<Seq<char>>::empty());
}

/// A word that white space, or the end, follows is read as a word, and so is what comes
/// behind it; white space before it makes no difference.
pub proof fn lemma_words_read_back(a: Seq<char>, word: Seq<char>, rest: Seq<char>)
    requires
        forall|k: int| 0 <= k < a.len() ==> is_white(#[trigger] a[k]),
        word.len() > 0,
        forall|k: int| 0 <= k < word.len() ==> !is_white(#[trigger] word[k]),
        rest.len() > 0 ==> is_white(rest[0]),
    ensures
        text_words(a + word + rest) == seq![word] + text_words(rest),
        text_words(a) == Seq::<Seq<char>>::empty(),
{
    let all = a + word + rest;
    let t = trimmed_start(all);
    lemma_start_cut(all);
    let i = all.len() - t.len();
    if i < a.len() {
        assert(t[0] == all[i]);
        assert(is_white(a[i]));
    }
    if i > a.len() {
        assert(all[a.len() as int] == word[0]);
        assert(is_white(all[a.len() as int]));
    }
    assert(t =~= word + rest);
    lemma_word_len_is(t, word.len() as int);
    assert(t.take(word.len() as int) =~= word);
    assert(t.skip(word.len() as int) =~= rest);
    let u = trimmed_start(a);
    lemma_start_cut(a);
    if u.len() > 0 {
        assert(u[0] == a[a.len() - u.len()]);
    }
    assert(text_words(a) =~= Seq::<Seq<char>>::empty());
}

proof fn lemma_word_len_is(t: Seq<char>, n: int)
    requires
        0 <= n <= t.len(),
        forall|k: int| 0 <= k < n ==> !is_white(#[trigger] t[k]),
        n < t.len() ==> is_white(t[n]),
    ensures
        word_len(t) == n,
    decreases n,
{
    if n > 0 {
        let r = t.drop_first();
        assert(!is_white(t[0]));
        assert forall|k: int| 0 <= k < n - 1 implies !is_white(#[trigger] r[k]) by {
            assert(r[k] == t[k + 1]);
        }
        if n < t.len() {
            assert(r[n - 1] == t[n]);
        }
        lemma_word_len_is(r, n - 1);
    }
}

/// The order of texts is that of their first characters that differ; a text comes before
/// any longer one that begins with it.
pub proof fn lemma_the_order_of_texts(p: Seq<char>, a: char, b: char, s: Seq<char>, t: Seq<char>)
    ensures
        a < b ==> comes_before(p + seq![a] + s, p + seq![b] + t),
        a > b ==> !comes_before(p + seq![a] + s, p + seq![b] + t),
        comes_before(p, p + seq![a] + s),
        !comes_before(p + seq![a] + s, p),
        !comes_before(p, p),
    decreases p.len(),
{
    let x = p + seq![a] + s;
    let y = p + seq![b] + t;
    if p.len() > 0 {
        let q = p.drop_first();
        lemma_the_order_of_texts(q, a, b, s, t);
        assert(x.drop_first() =~= q + seq![a] + s);
        assert(y.drop_first() =~= q + seq![b] + t);
        assert(x[0] == p[0] && y[0] == p[0]);
    } else {
        assert(x[0] == a && y[0] == b);
    }
}

/// The value of a numeral goes by its digits, the last counting once, the one before it
/// ten or sixteen times, and so on; letters count from ten in either case, and a plus sign
/// in front counts nothing. What is not a numeral, or too large, is none.
pub proof fn lemma_what_numerals_are(s: Seq<char>, c: char, max: nat)
    ensures
        '0' <= c <= '9' ==> digit_value(c, 10) == Some((c as int - '0' as int) as nat)
            && digit_value(c, 16) == digit_value(c, 10),
        'a' <= c <= 'f' ==> digit_value(c, 16) == Some((10 + (c as int - 'a' as int)) as nat),
        'A' <= c <= 'F' ==> digit_value(c, 16) == Some((10 + (c as int - 'A' as int)) as nat),
        digit_value(c, 10) is Some <==> '0' <= c <= '9',
        digit_value(c, 16) is Some <==> '0' <= c <= '9' || 'a' <= c <= 'f' || 'A' <= c <= 'F',
        digits_value(seq![], 10) == 0,
        digit_value(c, 10) is Some ==> digits_value(s.push(c), 10) == 10 * digits_value(s, 10) + (
        c as int - '0' as int),
        digit_value(c, 16) is Some ==> digits_value(s.push(c), 16) == 16 * digits_value(s, 16)
            + digit_value(c, 16).unwrap(),
        s.len() > 0 && (forall|k: int| 0 <= k < s.len() ==> '0' <= #[trigger] s[k] <= '9') ==> {
            &&& digits_value(s, 10) <= max ==> parsed_nat(s, 10, max) == Some(digits_value(s, 10))
                && parsed_nat(seq!['+'] + s, 10, max) == Some(digits_value(s, 10))
            &&& digits_value(s, 10) > max ==> parsed_nat(s, 10, max) is None
            &&& digits_value(s, 10) <= 0x8000_0000_0000_0000 ==> parsed_i64(seq!['-'] + s) == Some(
                -(digits_value(s, 10) as int),
            )
            &&& digits_value(s, 10) < 0x8000_0000_0000_0000 ==> parsed_i64(s) == Some(
                digits_value(s, 10) as int,
            )
        },
        s.len() == 0 ==> parsed_nat(s, 10, max) is None && parsed_i64(s) is None,
{
    assert(s.push(c).drop_last() =~= s);
    if s.len() > 0 && (forall|k: int| 0 <= k < s.len() ==> '0' <= #[trigger] s[k] <= '9') {
        assert('0' <= s[0] <= '9');
        assert(all_digits(s, 10)) by {
            assert forall|i: int| 0 <= i < s.len() implies (#[trigger] digit_value(s[i], 10)) is Some by {
                assert('0' <= s[i] <= '9');
            }
        }
        assert((seq!['+'] + s).drop_first() =~= s);
        assert((seq!['-'] + s).drop_first() =~= s);
        assert(without_plus(s) == s);
    }
}

/// An integer that is written out reads back, with its sign.
pub proof fn lemma_written_integer_reads_back(i: int)
    requires
        -0x8000_0000_0000_0000 <= i < 0x8000_0000_0000_0000,
    ensures
        parsed_i64(dec_int(i)) == Some(i),
{
    if i < 0 {
        let n = (-i) as nat;
        lemma_numeral_value(n, 10);
        assert((seq!['-'] + dec(n)).drop_first() =~= dec(n));
    } else {
        lemma_numeral_value(i as nat, 10);
        let s = dec(i as nat);
        assert(digit_value(s[0], 10) is Some);
        assert(without_plus(s) == s);
    }
}

/// Lowering turns the 26 capitals into the small letters that stand in the same place of
/// the alphabet, and leaves everything else.
pub proof fn lemma_lowering(s: Seq<char>, k: int)
    requires
        0 <= k < s.len(),
    ensures
        lowered(s).len() == s.len(),
        'A' <= s[k] <= 'Z' ==> lowered(s)[k] as int - 'a' as int == s[k] as int - 'A' as int,
        !('A' <= s[k] <= 'Z') ==> lowered(s)[k] == s[k],
{
}

/// The pieces of two texts with a separator between them are those of the one and then
/// those of the other.
pub proof fn lemma_pieces_joined(s: Seq<char>, t: Seq<char>, sep: char)
    ensures
        pieces(s + seq![sep] + t, sep) == pieces(s, sep) + pieces(t, sep),
    decreases s.len(),
{
    let all = s + seq![sep] + t;
    let i = before(s, sep);
    lemma_before(s, sep);
    assert forall|j: int| 0 <= j < i implies all[j] != sep by {
        assert(all[j] == s[j]);
    }
    lemma_before_is(all, sep, i);
    if i < s.len() {
        lemma_pieces_joined(s.skip(i + 1), t, sep);
        assert(all.take(i) =~= s.take(i));
        assert(all.skip(i + 1) =~= s.skip(i + 1) + seq![sep] + t);
        assert(pieces(all, sep) =~= pieces(s, sep) + pieces(t, sep));
    } else {
        assert(all.take(i) =~= s);
        assert(all.skip(i + 1) =~= t);
        assert(pieces(s, sep) =~= seq![s]);
        assert(pieces(all, sep) =~= pieces(s, sep) + pieces(t, sep));
    }
}

/// A column holds the text, and after it nothing but blanks up to the width.
pub proof fn lemma_columns(s: Seq<char>, n: nat)
    ensures
        column(s, n).len() == (if s.len() < n {
            n
        } else {
            s.len()
        }),
        column(s, n).take(s.len() as int) == s,
        forall|i: int| s.len() <= i < column(s, n).len() ==> #[trigger] column(s, n)[i] == ' ',
{
    assert(column(s, n).take(s.len() as int) =~= s);
}

/// A byte in two hexadecimal digits: the first is its upper half, the second its lower.
pub proof fn lemma_a_byte_in_hexadecimal(b: u8)
    ensures
        hex(b as nat, 2).len() == 2,
        digit_value(hex(b as nat, 2)[0], 16) == Some(b as nat / 16),
        digit_value(hex(b as nat, 2)[1], 16) == Some(b as nat % 16),
{
    reveal_with_fuel(numeral, 3);
    let n = b as nat;
    if n < 16 {
        assert(numeral(n, 16) =~= seq![digit(n)]);
        assert(hex(n, 2) =~= seq!['0', digit(n)]);
    } else {
        assert(n / 16 < 16);
        assert(numeral(n / 16, 16) =~= seq![digit(n / 16)]);
        assert(hex(n, 2) =~= seq![digit(n / 16), digit(n % 16)]);
    }
}

/// Whether a text is one word: not empty, and without white space.
pub open spec fn is_word(w: Seq<char>) -> bool {
    w.len() > 0 && forall|k: int| 0 <= k < w.len() ==> !is_white(#[trigger] w[k])
}

/// Words that are written with blanks between them are read as these words.
pub proof fn lemma_words_with_blanks(ws: Seq<Seq<char>>)
    requires
        forall|i: int| 0 <= i < ws.len() ==> is_word(#[trigger] ws[i]),
    ensures
        text_words(with_between(ws, ' ')) == ws,
    decreases ws.len(),
{
    let none = Seq::<char>::empty();
    if ws.len() == 0 {
        lemma_words_read_back(none, seq!['x'], none);
        assert(ws =~= Seq::empty());
    } else {
        assert(is_word(ws[0]));
        let more = ws.drop_first();
        if ws.len() == 1 {
            lemma_words_read_back(none, ws[0], none);
            assert(none + ws[0] + none =~= ws[0]);
            assert(seq![ws[0]] + Seq::empty() =~= ws);
        } else {
            assert forall|i: int| 0 <= i < more.len() implies is_word(#[trigger] more[i]) by {
                assert(more[i] == ws[i + 1]);
            }
            lemma_words_with_blanks(more);
            let tail = with_between(more, ' ');
            lemma_words_read_back(none, ws[0], seq![' '] + tail);
            assert(none + ws[0] + (seq![' '] + tail) =~= ws[0] + seq![' '] + tail);
            lemma_leading_white(' ', tail);
            assert(seq![ws[0]] + more =~= ws);
        }
    }
}

proof fn lemma_leading_white(c: char, s: Seq<char>)
    requires
        is_white(c),
    ensures
        text_words(seq![c] + s) == text_words(s),
{
    let t = seq![c] + s;
    assert(t.drop_first() =~= s);
    lemma_trimmed_start(s);
    lemma_word_len(trimmed_start(s));
    assert(trimmed_start(t) == trimmed_start(s));
}

/// A number in digits is one word.
pub proof fn lemma_numerals_are_words(n: nat, radix: nat, width: nat)
    requires
        2 <= radix <= 16,
    ensures
        is_word(zero_padded(numeral(n, radix), width)),
{
    let s = zero_padded(numeral(n, radix), width);
    lemma_padded_value(n, radix, width);
    assert forall|k: int| 0 <= k < s.len() implies !is_white(#[trigger] s[k]) by {
        assert(digit_value(s[k], radix) is Some);
    }
}

/// One more text is put behind a separator.
pub proof fn lemma_one_more_between(ps: Seq<Seq<char>>, sep: char)
    requires
        ps.len() > 1,
    ensures
        with_between(ps, sep) == with_between(ps.drop_last(), sep) + seq![sep] + ps.last(),
    decreases ps.len(),
{
    let rest = ps.drop_first();
    if ps.len() == 2 {
        reveal_with_fuel(with_between, 3);
        assert(with_between(ps, sep) =~= with_between(ps.drop_last(), sep) + seq![sep] + ps.last());
    } else {
        lemma_one_more_between(rest, sep);
        assert(rest.drop_last() =~= ps.drop_last().drop_first());
        assert(with_between(ps, sep) =~= with_between(ps.drop_last(), sep) + seq![sep] + ps.last());
    }
}

/// Sixteen bits are four hexadecimal digits, which stand for the number.
pub proof fn lemma_four_digits(n: u16)
    ensures
        hex(n as nat, 4).len() == 4,
        digits_value(hex(n as nat, 4), 16) == n,
{
    lemma_padded_value(n as nat, 16, 4);
    reveal_with_fuel(numeral, 5);
}

} // verus!
