//! Recognising a button chord in Valve's input reports.
//!
//! The toggle needs to notice a deliberate button combination in two quite
//! different places — in the reports flowing through a live session, and in
//! the reports read off `hidraw` when there is no session at all — so the
//! decoding and the hold timing live here, away from both.
//!
//! ## The report
//!
//! A Steam Deck's own controls send 64-byte reports with a four-byte header:
//!
//! ```text
//! 0  0x01        header
//! 1  0x00
//! 2  type        0x09 for the Deck's state report
//! 3  length      payload bytes that follow
//! 4  packet number, le32
//! 8  buttons,    le64   <- the only field this module cares about
//! ```
//!
//! Anything that is not a state report — a keyboard report from lizard mode, a
//! feature-report reply, a different device's input entirely — fails the
//! header check and is ignored rather than guessed at. That is what makes it
//! safe to feed *every* interrupt IN completion through here.
//!
//! ## Naming bits
//!
//! [`button_bit`] maps names to bit positions following the layout SDL uses for
//! the Deck. It is a convenience, not the source of truth: run
//! `usbfwd-server --chord-probe`, hold the buttons, and read the bit numbers
//! straight off the device. A chord may always be written as bit numbers
//! (`b41+b42`) or as a raw mask (`0x60000000000`), which is what makes the
//! feature usable on a controller whose layout differs from the table.
use crate::text::{
    all_digits, before, begins_with, chars, dec, digit_value, digits_value, has_prefix, hex,
    is_white, lemma_before_is, lemma_lowering, lemma_numeral_value, lemma_padded_value,
    lemma_pieces_joined, lemma_pieces_push, lemma_trimming, lemma_trimming_undone,
    lemma_written_number_reads_back, lower, lowered, numeral, parse_nat, parsed_nat, part, pieces,
    push_dec, same_chars, split, string, texts, to_lower, trim, trimmed, without_plus,
};
use core::str::FromStr;
use vstd::prelude::*;
use vstd::string::*;

verus! {

broadcast use vstd::slice::group_slice_axioms;

/// `bReportType` of the Deck's controller-state report.
pub const DECK_STATE: u8 = 0x09;

/// Offset of the 64-bit button field, and therefore the shortest report that
/// can carry one.
pub const BUTTONS_AT: usize = 8;

pub const MIN_REPORT: usize = 16;

// ---------------------------------------------------------------------------
// Reports

/// Eight bytes as a number, least significant first.
pub open spec fn le64_at(b: Seq<u8>, i: int) -> u64 {
    (b[i] + b[i + 1] * 0x100 + b[i + 2] * 0x1_0000 + b[i + 3] * 0x100_0000 + b[i + 4]
        * 0x1_0000_0000 + b[i + 5] * 0x100_0000_0000 + b[i + 6] * 0x1_0000_0000_0000 + b[i + 7]
        * 0x100_0000_0000_0000) as u64
}

/// Whether `r` is a state report whose own length field covers the button word.
pub open spec fn is_state_report(r: Seq<u8>) -> bool {
    &&& r.len() >= MIN_REPORT
    &&& r[0] == 0x01
    &&& r[1] == 0x00
    &&& r[2] == DECK_STATE
    &&& r[3] >= MIN_REPORT - 4
}

/// The buttons that are down in a state report.
pub open spec fn buttons_in(r: Seq<u8>) -> Option<u64> {
    if is_state_report(r) {
        Some(le64_at(r, BUTTONS_AT as int))
    } else {
        None
    }
}

/// The button field of one state report, or `None` if this is not one.
pub fn buttons(report: &[u8]) -> (r: Option<u64>)
    ensures
        r == buttons_in(report@),
{
    if report.len() < MIN_REPORT || report[0] != 0x01 || report[1] != 0x00 {
        return None;
    }
    if report[2] != DECK_STATE {
        return None;
    }
    // The header's own length field has to cover the button word, or this is a
    // shorter variant of the report and offset 8 means something else.
    if (report[3] as usize) < MIN_REPORT - 4 {
        return None;
    }
    let lo: u64 = (report[8] as u64) + (report[9] as u64) * 0x100 + (report[10] as u64) * 0x1_0000
        + (report[11] as u64) * 0x100_0000;
    let hi: u64 = (report[12] as u64) + (report[13] as u64) * 0x100 + (report[14] as u64) * 0x1_0000
        + (report[15] as u64) * 0x100_0000;
    Some(lo + hi * 0x1_0000_0000)
}

// ---------------------------------------------------------------------------
// Names

/// The bit that a button name stands for, as SDL's Deck layout has them.
///
/// Verify with `--chord-probe` before trusting a name: this table is the one
/// part of the feature that cannot be checked without the hardware in hand,
/// and a wrong name is a chord that never fires.
pub open spec fn bit_of_name(name: Seq<char>) -> Option<u8> {
    if name == "r2"@ {
        Some(0)
    } else if name == "l2"@ {
        Some(1)
    } else if name == "r1"@ {
        Some(2)
    } else if name == "l1"@ {
        Some(3)
    } else if name == "y"@ {
        Some(4)
    } else if name == "b"@ {
        Some(5)
    } else if name == "x"@ {
        Some(6)
    } else if name == "a"@ {
        Some(7)
    } else if name == "up"@ {
        Some(8)
    } else if name == "right"@ {
        Some(9)
    } else if name == "left"@ {
        Some(10)
    } else if name == "down"@ {
        Some(11)
    } else if name == "view"@ {
        Some(12)
    } else if name == "steam"@ {
        Some(13)
    } else if name == "menu"@ {
        Some(14)
    } else if name == "l5"@ {
        Some(15)
    } else if name == "r5"@ {
        Some(16)
    } else if name == "lpad"@ {
        Some(17)
    } else if name == "rpad"@ {
        Some(18)
    } else if name == "lpadtouch"@ {
        Some(19)
    } else if name == "rpadtouch"@ {
        Some(20)
    } else if name == "l3"@ {
        Some(22)
    } else if name == "r3"@ {
        Some(26)
    } else if name == "l4"@ {
        Some(41)
    } else if name == "r4"@ {
        Some(42)
    } else if name == "qam"@ {
        Some(50)
    } else {
        None
    }
}

pub fn button_bit(name: &[char]) -> (r: Option<u8>)
    ensures
        r == bit_of_name(name@),
{
    if same_chars(name, &chars("r2")) {
        Some(0)
    } else if same_chars(name, &chars("l2")) {
        Some(1)
    } else if same_chars(name, &chars("r1")) {
        Some(2)
    } else if same_chars(name, &chars("l1")) {
        Some(3)
    } else if same_chars(name, &chars("y")) {
        Some(4)
    } else if same_chars(name, &chars("b")) {
        Some(5)
    } else if same_chars(name, &chars("x")) {
        Some(6)
    } else if same_chars(name, &chars("a")) {
        Some(7)
    } else if same_chars(name, &chars("up")) {
        Some(8)
    } else if same_chars(name, &chars("right")) {
        Some(9)
    } else if same_chars(name, &chars("left")) {
        Some(10)
    } else if same_chars(name, &chars("down")) {
        Some(11)
    } else if same_chars(name, &chars("view")) {
        Some(12)
    } else if same_chars(name, &chars("steam")) {
        Some(13)
    } else if same_chars(name, &chars("menu")) {
        Some(14)
    } else if same_chars(name, &chars("l5")) {
        Some(15)
    } else if same_chars(name, &chars("r5")) {
        Some(16)
    } else if same_chars(name, &chars("lpad")) {
        Some(17)
    } else if same_chars(name, &chars("rpad")) {
        Some(18)
    } else if same_chars(name, &chars("lpadtouch")) {
        Some(19)
    } else if same_chars(name, &chars("rpadtouch")) {
        Some(20)
    } else if same_chars(name, &chars("l3")) {
        Some(22)
    } else if same_chars(name, &chars("r3")) {
        Some(26)
    } else if same_chars(name, &chars("l4")) {
        Some(41)
    } else if same_chars(name, &chars("r4")) {
        Some(42)
    } else if same_chars(name, &chars("qam")) {
        Some(50)
    } else {
        None
    }
}

/// How a bit is written: by its name where it has one, else by its number.
pub open spec fn name_of_bit(bit: u8) -> Seq<char> {
    if bit == 0 {
        "r2"@
    } else if bit == 1 {
        "l2"@
    } else if bit == 2 {
        "r1"@
    } else if bit == 3 {
        "l1"@
    } else if bit == 4 {
        "y"@
    } else if bit == 5 {
        "b"@
    } else if bit == 6 {
        "x"@
    } else if bit == 7 {
        "a"@
    } else if bit == 8 {
        "up"@
    } else if bit == 9 {
        "right"@
    } else if bit == 10 {
        "left"@
    } else if bit == 11 {
        "down"@
    } else if bit == 12 {
        "view"@
    } else if bit == 13 {
        "steam"@
    } else if bit == 14 {
        "menu"@
    } else if bit == 15 {
        "l5"@
    } else if bit == 16 {
        "r5"@
    } else if bit == 17 {
        "lpad"@
    } else if bit == 18 {
        "rpad"@
    } else if bit == 19 {
        "lpadtouch"@
    } else if bit == 20 {
        "rpadtouch"@
    } else if bit == 22 {
        "l3"@
    } else if bit == 26 {
        "r3"@
    } else if bit == 41 {
        "l4"@
    } else if bit == 42 {
        "r4"@
    } else if bit == 50 {
        "qam"@
    } else {
        "b"@ + dec(bit as nat)
    }
}

fn push_bit_name(s: &mut String, bit: u8)
    ensures
        final(s)@ == old(s)@ + name_of_bit(bit),
{
    match bit {
        0 => s.append("r2"),
        1 => s.append("l2"),
        2 => s.append("r1"),
        3 => s.append("l1"),
        4 => s.append("y"),
        5 => s.append("b"),
        6 => s.append("x"),
        7 => s.append("a"),
        8 => s.append("up"),
        9 => s.append("right"),
        10 => s.append("left"),
        11 => s.append("down"),
        12 => s.append("view"),
        13 => s.append("steam"),
        14 => s.append("menu"),
        15 => s.append("l5"),
        16 => s.append("r5"),
        17 => s.append("lpad"),
        18 => s.append("rpad"),
        19 => s.append("lpadtouch"),
        20 => s.append("rpadtouch"),
        22 => s.append("l3"),
        26 => s.append("r3"),
        41 => s.append("l4"),
        42 => s.append("r4"),
        50 => s.append("qam"),
        _ => {
            s.append("b");
            push_dec(s, bit as u64);
            assert(s@ =~= old(s)@ + name_of_bit(bit));
        },
    }
}

// ---------------------------------------------------------------------------
// Chords

/// What a misspelt button is answered.
pub open spec fn unknown_button(tok: Seq<char>) -> Seq<char> {
    "`"@ + tok
        + "` is not a known button. Known: r2, l2, r1, l1, y, b, x, a, up, right, left, down, view, steam, menu, l5, r5, lpad, rpad, lpadtouch, rpadtouch, l3, r3, l4, r4, qam. Bit numbers (`b41`) and raw masks (`0x...`) also work — `--chord-probe` prints what the device actually sends."@
}

/// What follows `bit` or `b` in a token that begins so.
pub open spec fn after_bit(tok: Seq<char>) -> Seq<char> {
    if begins_with(tok, "bit"@) {
        tok.skip(3)
    } else if begins_with(tok, "b"@) {
        tok.skip(1)
    } else {
        seq![]
    }
}

/// The bits that one lower-case token of a chord stands for: a raw mask, a bit
/// number or a button name.
pub open spec fn parsed_token(tok: Seq<char>) -> Result<u64, Seq<char>> {
    let n = after_bit(tok);
    if begins_with(tok, "0x"@) {
        match parsed_nat(tok.skip(2), 16, 0xffff_ffff_ffff_ffff) {
            Some(m) => Ok(m as u64),
            None => Err("`"@ + tok + "` is not a 64-bit hex mask"@),
        }
    } else if n.len() > 0 && all_digits(n, 10) {
        if digits_value(n, 10) > 0xffff_ffff {
            Err("`"@ + tok + "` is not a bit"@)
        } else if digits_value(n, 10) > 63 {
            Err("bit "@ + dec(digits_value(n, 10)) + " is outside the 64-bit button field"@)
        } else {
            Ok(1u64 << (digits_value(n, 10) as u64))
        }
    } else {
        match bit_of_name(tok) {
            Some(bit) => Ok(1u64 << (bit as u64)),
            None => Err(unknown_button(tok)),
        }
    }
}

/// The characters with every comma turned into a plus: either separates.
pub open spec fn with_pluses(s: Seq<char>) -> Seq<char> {
    s.map_values(
        |c: char|
            if c == ',' {
                '+'
            } else {
                c
            },
    )
}

/// The bits of all the tokens together, and whether there is any; blank tokens do
/// not count. The first bad token decides what is wrong.
pub open spec fn parsed_tokens(ts: Seq<Seq<char>>) -> Result<(u64, bool), Seq<char>>
    decreases ts.len(),
{
    if ts.len() == 0 {
        Ok((0u64, false))
    } else {
        match parsed_tokens(ts.drop_last()) {
            Err(e) => Err(e),
            Ok((mask, any)) => if trimmed(ts.last()).len() == 0 {
                Ok((mask, any))
            } else {
                match parsed_token(lowered(trimmed(ts.last()))) {
                    Err(e) => Err(e),
                    Ok(m) => Ok((mask | m, true)),
                }
            },
        }
    }
}

/// The bits that a chord stands for.
pub open spec fn parsed_chord(s: Seq<char>) -> Result<u64, Seq<char>> {
    match parsed_tokens(pieces(with_pluses(s), '+')) {
        Err(e) => Err(e),
        Ok((mask, any)) => if any {
            Ok(mask)
        } else {
            Err("a chord needs at least one button"@)
        },
    }
}

fn parse_token(tok: &[char]) -> (r: Result<u64, String>)
    ensures
        match r {
            Ok(m) => parsed_token(tok@) == Ok::<u64, Seq<char>>(m),
            Err(e) => parsed_token(tok@) == Err::<u64, Seq<char>>(e@),
        },
{
    proof {
        reveal_strlit("0x");
        reveal_strlit("bit");
        reveal_strlit("b");
    }
    if has_prefix(tok, &chars("0x")) {
        let hex = part(tok, 2, tok.len());
        assert(hex@ =~= tok@.skip(2));
        return match parse_nat(hex, 16, 0xffff_ffff_ffff_ffff) {
            Some(m) => Ok(m),
            None => {
                let mut e = String::new();
                e.append("`");
                e.append(&string(tok));
                e.append("` is not a 64-bit hex mask");
                assert(e@ =~= "`"@ + tok@ + "` is not a 64-bit hex mask"@);
                Err(e)
            },
        };
    }
    let n = if has_prefix(tok, &chars("bit")) {
        part(tok, 3, tok.len())
    } else if has_prefix(tok, &chars("b")) {
        part(tok, 1, tok.len())
    } else {
        part(tok, 0, 0)
    };
    assert(n@ =~= after_bit(tok@));
    if n.len() > 0 && digits_only(n) {
        proof {
            assert(digit_value(n@[0], 10) is Some);
            assert(without_plus(n@) == n@);
        }
        return match parse_nat(n, 10, 0xffff_ffff) {
            None => {
                let mut e = String::new();
                e.append("`");
                e.append(&string(tok));
                e.append("` is not a bit");
                assert(e@ =~= "`"@ + tok@ + "` is not a bit"@);
                Err(e)
            },
            Some(v) => {
                if v > 63 {
                    let mut e = String::new();
                    e.append("bit ");
                    push_dec(&mut e, v);
                    e.append(" is outside the 64-bit button field");
                    assert(e@ =~= "bit "@ + dec(v as nat)
                        + " is outside the 64-bit button field"@);
                    Err(e)
                } else {
                    Ok(1u64 << v)
                }
            },
        };
    }
    match button_bit(tok) {
        Some(bit) => {
            assert(bit < 64);
            Ok(1u64 << (bit as u64))
        },
        None => {
            let mut e = String::new();
            e.append("`");
            e.append(&string(tok));
            e.append(
                "` is not a known button. Known: r2, l2, r1, l1, y, b, x, a, up, right, left, down, view, steam, menu, l5, r5, lpad, rpad, lpadtouch, rpadtouch, l3, r3, l4, r4, qam. Bit numbers (`b41`) and raw masks (`0x...`) also work — `--chord-probe` prints what the device actually sends.",
            );
            assert(e@ =~= unknown_button(tok@));
            Err(e)
        },
    }
}

fn digits_only(cs: &[char]) -> (r: bool)
    ensures
        r == all_digits(cs@, 10),
{
    let mut i: usize = 0;
    while i < cs.len()
        invariant
            i <= cs@.len(),
            forall|j: int| 0 <= j < i ==> (#[trigger] digit_value(cs@[j], 10)) is Some,
        decreases cs@.len() - i,
    {
        let c = cs[i];
        if c < '0' || c > '9' {
            assert(digit_value(cs@[i as int], 10) is None);
            return false;
        }
        i = i + 1;
    }
    true
}

/// The buttons that have to be held together.
#[derive(Debug, Clone, Copy, PartialEq, Eq)]
pub struct Chord {
    mask: u64,
}

impl Chord {
    /// The buttons as bits of the button field.
    pub closed spec fn bits(self) -> u64 {
        self.mask
    }

    pub fn mask(&self) -> (m: u64)
        ensures
            m == self.bits(),
    {
        self.mask
    }

    /// Whether the chord's buttons are all down.
    pub open spec fn is_held(self, buttons: u64) -> bool {
        buttons & self.bits() == self.bits()
    }

    /// Subset match: the chord fires when its buttons are all down, whatever
    /// else is. Requiring nothing else to be pressed would make the chord
    /// depend on how still the sticks are being held.
    pub fn held_in(&self, buttons: u64) -> (r: bool)
        ensures
            r == self.is_held(buttons),
    {
        buttons & self.mask == self.mask
    }

    /// `L4+R4`, `steam,l5`, `b41+b42` or `0x60000000000`, case-insensitive.
    pub fn from_str(s: &str) -> (r: Result<Chord, String>)
        ensures
            match r {
                Ok(c) => parsed_chord(s@) == Ok::<u64, Seq<char>>(c.bits()),
                Err(e) => parsed_chord(s@) == Err::<u64, Seq<char>>(e@),
            },
    {
        let cs = pluses(&chars(s));
        let toks = split(&cs, '+');
        let ghost all = texts(toks@);
        let mut mask: u64 = 0;
        let mut any = false;
        let mut i: usize = 0;
        assert(all.take(0) =~= Seq::empty());
        while i < toks.len()
            invariant
                i <= toks@.len(),
                all == texts(toks@),
                all == pieces(with_pluses(s@), '+'),
                parsed_tokens(all.take(i as int)) == Ok::<(u64, bool), Seq<char>>((mask, any)),
            decreases toks@.len() - i,
        {
            let t = trim(toks[i]);
            proof {
                assert(all.take(i + 1).drop_last() =~= all.take(i as int));
                assert(all.take(i + 1).last() == toks@[i as int]@);
            }
            if t.len() > 0 {
                match parse_token(&to_lower(t)) {
                    Ok(m) => {
                        any = true;
                        mask = mask | m;
                    },
                    Err(e) => {
                        proof {
                            lemma_first_bad_token_decides(all, i + 1);
                        }
                        return Err(e);
                    },
                }
            }
            i = i + 1;
        }
        assert(all.take(i as int) =~= all);
        if !any {
            return Err("a chord needs at least one button".to_owned());
        }
        Ok(Chord { mask })
    }

    pub fn to_string(&self) -> (s: String)
        ensures
            s@ == described(self.bits()),
    {
        describe(self.mask)
    }
}

impl FromStr for Chord {
    type Err = String;

    fn from_str(s: &str) -> Result<Chord, String> {
        Chord::from_str(s)
    }
}

fn pluses(cs: &[char]) -> (v: Vec<char>)
    ensures
        v@ == with_pluses(cs@),
{
    let mut v: Vec<char> = Vec::new();
    let mut i: usize = 0;
    while i < cs.len()
        invariant
            i <= cs@.len(),
            v@ == with_pluses(cs@).take(i as int),
        decreases cs@.len() - i,
    {
        let c = cs[i];
        v.push(
            if c == ',' {
                '+'
            } else {
                c
            },
        );
        i = i + 1;
        assert(v@ =~= with_pluses(cs@).take(i as int));
    }
    assert(v@ =~= with_pluses(cs@));
    v
}

proof fn lemma_first_bad_token_decides(ts: Seq<Seq<char>>, i: int)
    requires
        0 <= i <= ts.len(),
        parsed_tokens(ts.take(i)) is Err,
    ensures
        parsed_tokens(ts) == parsed_tokens(ts.take(i)),
    decreases ts.len() - i,
{
    if i == ts.len() {
        assert(ts.take(i) =~= ts);
    } else {
        assert(ts.take(i + 1).drop_last() =~= ts.take(i));
        lemma_first_bad_token_decides(ts, i + 1);
    }
}

// ---------------------------------------------------------------------------
// Describing

pub open spec fn bit_is_set(mask: u64, bit: u8) -> bool {
    mask & (1u64 << (bit as u64)) != 0
}

/// The set bits among the first `n`, written with pluses between.
pub open spec fn described_upto(mask: u64, n: nat) -> Seq<char>
    decreases n,
{
    if n == 0 {
        seq![]
    } else {
        let bit = (n - 1) as u8;
        let rest = described_upto(mask, (n - 1) as nat);
        if !bit_is_set(mask, bit) {
            rest
        } else if rest.len() == 0 {
            name_of_bit(bit)
        } else {
            rest + "+"@ + name_of_bit(bit)
        }
    }
}

/// A button mask in words: names where the table has one, bit numbers where it
/// does not.
pub open spec fn described(mask: u64) -> Seq<char> {
    if mask == 0 {
        "none"@
    } else {
        described_upto(mask, 64)
    }
}

/// Render a button mask the way `--chord-probe` prints it: names where the
/// table has one, bit numbers where it does not.
pub fn describe(mask: u64) -> (s: String)
    ensures
        s@ == described(mask),
{
    if mask == 0 {
        return "none".to_owned();
    }
    let mut s = String::new();
    let mut first = true;
    let mut bit: u8 = 0;
    while bit < 64
        invariant
            bit <= 64,
            s@ == described_upto(mask, bit as nat),
            first == (s@.len() == 0),
        decreases 64 - bit,
    {
        proof {
            lemma_name_is_not_empty(bit);
            assert(((bit + 1) - 1) as u8 == bit);
        }
        if mask & (1u64 << (bit as u64)) != 0 {
            if !first {
                s.append("+");
            }
            push_bit_name(&mut s, bit);
            assert(s@ =~= described_upto(mask, (bit + 1) as nat));
            first = false;
        }
        bit = bit + 1;
    }
    s
}

proof fn lemma_name_is_not_empty(bit: u8)
    ensures
        name_of_bit(bit).len() > 0,
{
    reveal_names();
    lemma_numeral_value(bit as nat, 10);
}

proof fn reveal_names()
    ensures
        "r2"@ =~= seq!['r', '2'],
        "l2"@ =~= seq!['l', '2'],
        "r1"@ =~= seq!['r', '1'],
        "l1"@ =~= seq!['l', '1'],
        "y"@ =~= seq!['y'],
        "b"@ =~= seq!['b'],
        "x"@ =~= seq!['x'],
        "a"@ =~= seq!['a'],
        "up"@ =~= seq!['u', 'p'],
        "right"@ =~= seq!['r', 'i', 'g', 'h', 't'],
        "left"@ =~= seq!['l', 'e', 'f', 't'],
        "down"@ =~= seq!['d', 'o', 'w', 'n'],
        "view"@ =~= seq!['v', 'i', 'e', 'w'],
        "steam"@ =~= seq!['s', 't', 'e', 'a', 'm'],
        "menu"@ =~= seq!['m', 'e', 'n', 'u'],
        "l5"@ =~= seq!['l', '5'],
        "r5"@ =~= seq!['r', '5'],
        "lpad"@ =~= seq!['l', 'p', 'a', 'd'],
        "rpad"@ =~= seq!['r', 'p', 'a', 'd'],
        "lpadtouch"@ =~= seq!['l', 'p', 'a', 'd', 't', 'o', 'u', 'c', 'h'],
        "rpadtouch"@ =~= seq!['r', 'p', 'a', 'd', 't', 'o', 'u', 'c', 'h'],
        "l3"@ =~= seq!['l', '3'],
        "r3"@ =~= seq!['r', '3'],
        "l4"@ =~= seq!['l', '4'],
        "r4"@ =~= seq!['r', '4'],
        "qam"@ =~= seq!['q', 'a', 'm'],
{
    reveal_strlit("r2");
    reveal_strlit("l2");
    reveal_strlit("r1");
    reveal_strlit("l1");
    reveal_strlit("y");
    reveal_strlit("b");
    reveal_strlit("x");
    reveal_strlit("a");
    reveal_strlit("up");
    reveal_strlit("right");
    reveal_strlit("left");
    reveal_strlit("down");
    reveal_strlit("view");
    reveal_strlit("steam");
    reveal_strlit("menu");
    reveal_strlit("l5");
    reveal_strlit("r5");
    reveal_strlit("lpad");
    reveal_strlit("rpad");
    reveal_strlit("lpadtouch");
    reveal_strlit("rpadtouch");
    reveal_strlit("l3");
    reveal_strlit("r3");
    reveal_strlit("l4");
    reveal_strlit("r4");
    reveal_strlit("qam");
}

// ---------------------------------------------------------------------------
// What is written reads back

/// A token that lowering, trimming and splitting leave alone.
spec fn plain_token(s: Seq<char>) -> bool {
    &&& s.len() > 0
    &&& forall|i: int|
        0 <= i < s.len() ==> !is_white(#[trigger] s[i]) && s[i] != '+' && s[i] != ',' && lower(
            s[i],
        ) == s[i]
}

proof fn lemma_plain_token(s: Seq<char>)
    requires
        plain_token(s),
    ensures
        trimmed(s) == s,
        lowered(s) == s,
        with_pluses(s) == s,
        pieces(s, '+') == seq![s],
{
    assert(!is_white(s[0]));
    assert(!is_white(s[s.len() - 1]));
    assert(lowered(s) =~= s);
    assert(with_pluses(s) =~= s) by {
        assert forall|i: int| 0 <= i < s.len() implies with_pluses(s)[i] == s[i] by {
            assert(s[i] != ',');
        }
    }
    lemma_before_is(s, '+', s.len() as int);
    assert(pieces(s, '+') =~= seq![s]);
}

proof fn lemma_numbered_bit(bit: u8)
    requires
        bit < 64,
    ensures
        plain_token("b"@ + dec(bit as nat)),
        parsed_token("b"@ + dec(bit as nat)) == Ok::<u64, Seq<char>>(1u64 << (bit as u64)),
{
    let d = dec(bit as nat);
    let s = "b"@ + d;
    reveal_strlit("0x");
    reveal_strlit("bit");
    reveal_strlit("b");
    lemma_numeral_value(bit as nat, 10);
    assert forall|i: int| 0 <= i < s.len() implies !is_white(#[trigger] s[i]) && s[i] != '+'
        && s[i] != ',' && lower(s[i]) == s[i] by {
        if i > 0 {
            assert(s[i] == d[i - 1]);
            assert(digit_value(d[i - 1], 10) is Some);
        }
    }
    assert(!begins_with(s, "0x"@)) by {
        assert(s.take(2)[0] == 'b');
    }
    assert(!begins_with(s, "bit"@)) by {
        if begins_with(s, "bit"@) {
            assert(s.take(3)[1] == 'i');
            assert(s[1] == d[0]);
            assert(digit_value(d[0], 10) is Some);
        }
    }
    assert(s.take(1) =~= "b"@);
    assert(s.skip(1) =~= d);
}

/// Whether the table has a name for the bit.
spec fn has_name(bit: u8) -> bool {
    bit <= 20 || bit == 22 || bit == 26 || bit == 41 || bit == 42 || bit == 50
}

/// What tells the names apart: their lengths and their first two characters.
proof fn lemma_names_differ()
    ensures
        "r2"@.len() == 2 && "r2"@[0] == 'r' && "r2"@[1] == '2',
        "l2"@.len() == 2 && "l2"@[0] == 'l' && "l2"@[1] == '2',
        "r1"@.len() == 2 && "r1"@[0] == 'r' && "r1"@[1] == '1',
        "l1"@.len() == 2 && "l1"@[0] == 'l' && "l1"@[1] == '1',
        "y"@.len() == 1 && "y"@[0] == 'y',
        "b"@.len() == 1 && "b"@[0] == 'b',
        "x"@.len() == 1 && "x"@[0] == 'x',
        "a"@.len() == 1 && "a"@[0] == 'a',
        "up"@.len() == 2 && "up"@[0] == 'u' && "up"@[1] == 'p',
        "right"@.len() == 5 && "right"@[0] == 'r' && "right"@[1] == 'i',
        "left"@.len() == 4 && "left"@[0] == 'l' && "left"@[1] == 'e',
        "down"@.len() == 4 && "down"@[0] == 'd' && "down"@[1] == 'o',
        "view"@.len() == 4 && "view"@[0] == 'v' && "view"@[1] == 'i',
        "steam"@.len() == 5 && "steam"@[0] == 's' && "steam"@[1] == 't',
        "menu"@.len() == 4 && "menu"@[0] == 'm' && "menu"@[1] == 'e',
        "l5"@.len() == 2 && "l5"@[0] == 'l' && "l5"@[1] == '5',
        "r5"@.len() == 2 && "r5"@[0] == 'r' && "r5"@[1] == '5',
        "lpad"@.len() == 4 && "lpad"@[0] == 'l' && "lpad"@[1] == 'p',
        "rpad"@.len() == 4 && "rpad"@[0] == 'r' && "rpad"@[1] == 'p',
        "lpadtouch"@.len() == 9 && "lpadtouch"@[0] == 'l' && "lpadtouch"@[1] == 'p',
        "rpadtouch"@.len() == 9 && "rpadtouch"@[0] == 'r' && "rpadtouch"@[1] == 'p',
        "l3"@.len() == 2 && "l3"@[0] == 'l' && "l3"@[1] == '3',
        "r3"@.len() == 2 && "r3"@[0] == 'r' && "r3"@[1] == '3',
        "l4"@.len() == 2 && "l4"@[0] == 'l' && "l4"@[1] == '4',
        "r4"@.len() == 2 && "r4"@[0] == 'r' && "r4"@[1] == '4',
        "qam"@.len() == 3 && "qam"@[0] == 'q' && "qam"@[1] == 'a',
{
    reveal_names();
}

proof fn lemma_named_bit(bit: u8)
    requires
        has_name(bit),
    ensures
        plain_token(name_of_bit(bit)),
        parsed_token(name_of_bit(bit)) == Ok::<u64, Seq<char>>(1u64 << (bit as u64)),
{
    let s = name_of_bit(bit);
    reveal_names();
    lemma_names_differ();
    reveal_strlit("0x");
    reveal_strlit("bit");
    if begins_with(s, "0x"@) {
        assert(s.take(2)[0] == '0');
    }
    if begins_with(s, "bit"@) {
        assert(s.take(3)[0] == 'b');
        assert(s.take(3)[1] == 'i');
    }
    if begins_with(s, "b"@) {
        assert(s.take(1)[0] == 'b');
    }
    assert(bit_of_name(s) == Some(bit));
}

/// The name or number that a bit is written as stands for that bit.
proof fn lemma_bit_reads_back(bit: u8)
    requires
        bit < 64,
    ensures
        plain_token(name_of_bit(bit)),
        parsed_token(name_of_bit(bit)) == Ok::<u64, Seq<char>>(1u64 << (bit as u64)),
{
    if has_name(bit) {
        lemma_named_bit(bit);
    } else {
        lemma_numbered_bit(bit);
    }
}

/// The bits of `mask` below `n`.
spec fn low_bits(mask: u64, n: nat) -> u64
    decreases n,
{
    if n == 0 {
        0
    } else {
        let bit = (n - 1) as u8;
        if bit_is_set(mask, bit) {
            low_bits(mask, (n - 1) as nat) | (1u64 << (bit as u64))
        } else {
            low_bits(mask, (n - 1) as nat)
        }
    }
}

proof fn lemma_low_bits(mask: u64, n: nat)
    requires
        n <= 64,
    ensures
        n < 64 ==> low_bits(mask, n) == mask & (((1u64 << (n as u64)) - 1) as u64),
        n == 64 ==> low_bits(mask, n) == mask,
    decreases n,
{
    if n == 0 {
        assert(mask & (((1u64 << 0u64) - 1) as u64) == 0) by (bit_vector);
    } else {
        lemma_low_bits(mask, (n - 1) as nat);
        let b = (n - 1) as u64;
        assert(((n - 1) as u8) as u64 == b);
        let set = mask & (1u64 << b);
        assert(b < 64 ==> (mask & (((1u64 << b) - 1) as u64)) | (mask & (1u64 << b)) == (if b == 63 {
            mask
        } else {
            mask & (((1u64 << ((b + 1) as u64)) - 1) as u64)
        })) by (bit_vector);
        assert(set != 0 ==> set == 1u64 << b) by (bit_vector)
            requires
                set == mask & (1u64 << b),
        ;
        let low = mask & (((1u64 << b) - 1) as u64);
        assert(low | 0 == low) by (bit_vector);
    }
}

proof fn lemma_described_upto(mask: u64, n: nat)
    requires
        n <= 64,
    ensures
        described_upto(mask, n).len() == 0 <==> low_bits(mask, n) == 0,
        with_pluses(described_upto(mask, n)) == described_upto(mask, n),
        low_bits(mask, n) != 0 ==> parsed_tokens(pieces(described_upto(mask, n), '+')) == Ok::<
            (u64, bool),
            Seq<char>,
        >((low_bits(mask, n), true)),
    decreases n,
{
    reveal_with_fuel(parsed_tokens, 2);
    let s = described_upto(mask, n);
    if n == 0 {
        assert(with_pluses(s) =~= s);
    } else {
        let bit = (n - 1) as u8;
        let b = bit as u64;
        let m = (n - 1) as nat;
        let rest = described_upto(mask, m);
        lemma_described_upto(mask, m);
        if bit_is_set(mask, bit) {
            let t = name_of_bit(bit);
            lemma_bit_reads_back(bit);
            lemma_plain_token(t);
            let low = low_bits(mask, m);
            assert(b < 64 ==> 1u64 << b != 0) by (bit_vector);
            assert(b < 64 ==> low | (1u64 << b) != 0) by (bit_vector);
            assert(0u64 | (1u64 << b) == 1u64 << b) by (bit_vector);
            if rest.len() == 0 {
                assert(s == t);
                assert(pieces(s, '+').drop_last() =~= Seq::empty());
            } else {
                reveal_strlit("+");
                assert(s =~= rest + seq!['+'] + t);
                assert forall|i: int| 0 <= i < t.len() implies t[i] != '+' by {}
                lemma_pieces_push(rest, t, '+');
                assert(pieces(s, '+').drop_last() =~= pieces(rest, '+'));
                assert(with_pluses(s) =~= s) by {
                    assert forall|i: int| 0 <= i < s.len() implies with_pluses(s)[i] == s[i] by {
                        if i < rest.len() {
                            assert(s[i] == rest[i]);
                            assert(with_pluses(rest)[i] == rest[i]);
                        } else if i > rest.len() {
                            assert(s[i] == t[i - rest.len() - 1]);
                        }
                    }
                }
            }
        }
    }
}

/// A chord that is written out, as `--chord-probe` does, reads back as the same
/// buttons.
pub proof fn lemma_chord_reads_back(mask: u64)
    requires
        mask != 0,
    ensures
        parsed_chord(described(mask)) == Ok::<u64, Seq<char>>(mask),
{
    lemma_low_bits(mask, 64);
    lemma_described_upto(mask, 64);
}

// ---------------------------------------------------------------------------
// Holding

/// What the caller should do with the report it just fed in.
#[derive(Debug, Clone, Copy, PartialEq, Eq, Structural)]
pub struct Verdict {
    /// The chord is down in this report, so it should not reach the importer.
    /// A held chord is an instruction to this program, not input for a game.
    pub swallow: bool,
    /// The chord has now been held long enough. Fires once per press.
    pub fired: bool,
}

impl Default for Verdict {
    fn default() -> (v: Self)
        ensures
            v == (Verdict { swallow: false, fired: false }),
    {
        Verdict { swallow: false, fired: false }
    }
}

/// Hold-to-fire, so a chord that happens to occur during play does nothing.
/// Points in time and the hold are in nanoseconds.
///
/// A fresh detector is **disarmed**: it will not fire until it has seen the
/// chord released at least once. That is not politeness, it is what stops the
/// toggle oscillating. Firing hands the device from one watcher to the other —
/// a session ending, or a session starting — and the new watcher's first
/// reports arrive while the buttons are, of course, still down. Without the
/// rule, letting go a fraction too slowly would toggle straight back.
#[derive(Debug, Clone, Copy, PartialEq, Eq)]
pub struct Detector {
    chord: Chord,
    hold: u64,
    /// When the current uninterrupted hold started.
    since: Option<u64>,
    /// Cleared by firing, set by seeing the chord released, so one press is
    /// one toggle however long the buttons stay down.
    armed: bool,
}

/// The time from `start` to `now`; none if `now` is the earlier.
pub open spec fn elapsed(start: u64, now: u64) -> int {
    if now >= start {
        now - start
    } else {
        0
    }
}

/// What a detector knows.
pub struct Watching {
    pub chord: Chord,
    pub hold: u64,
    pub since: Option<u64>,
    pub armed: bool,
}

impl View for Detector {
    type V = Watching;

    closed spec fn view(&self) -> Watching {
        Watching { chord: self.chord, hold: self.hold, since: self.since, armed: self.armed }
    }
}

impl Watching {
    /// A detector that has seen nothing yet.
    pub open spec fn fresh(chord: Chord, hold: u64) -> Watching {
        Watching { chord, hold, since: None, armed: false }
    }

    /// Whether a report shows the chord down.
    pub open spec fn held_in(self, report: Seq<u8>) -> bool {
        buttons_in(report) is Some && self.chord.is_held(buttons_in(report).unwrap())
    }

    /// Whether a report shows the chord not down. A report that is not a state
    /// report shows neither.
    pub open spec fn released_in(self, report: Seq<u8>) -> bool {
        buttons_in(report) is Some && !self.chord.is_held(buttons_in(report).unwrap())
    }

    /// When the hold that a report belongs to started.
    pub open spec fn hold_start(self, now: u64) -> u64 {
        match self.since {
            Some(t) => t,
            None => now,
        }
    }

    /// What a report that arrives at `now` comes to: it is swallowed if the chord
    /// is down in it, and it fires if on top of that the detector is armed and the
    /// hold has lasted long enough.
    pub open spec fn verdict(self, report: Seq<u8>, now: u64) -> Verdict {
        Verdict {
            swallow: self.held_in(report),
            fired: self.held_in(report) && self.armed && elapsed(self.hold_start(now), now)
                >= self.hold,
        }
    }

    /// What the detector knows after that report.
    pub open spec fn after(self, report: Seq<u8>, now: u64) -> Watching {
        if self.held_in(report) {
            Watching {
                since: Some(self.hold_start(now)),
                armed: self.armed && !self.verdict(report, now).fired,
                ..self
            }
        } else if self.released_in(report) {
            Watching { since: None, armed: true, ..self }
        } else {
            self
        }
    }
}

impl Detector {
    pub fn new(chord: Chord, hold: u64) -> (d: Detector)
        ensures
            d@ == Watching::fresh(chord, hold),
    {
        Detector { chord, hold, since: None, armed: false }
    }

    pub fn feed(&mut self, report: &[u8], now: u64) -> (v: Verdict)
        ensures
            v == old(self)@.verdict(report@, now),
            final(self)@ == old(self)@.after(report@, now),
    {
        let down = match buttons(report) {
            Some(b) => b,
            None => {
                // Not a state report: no evidence either way, so the hold is
                // neither advanced nor broken.
                return Verdict::default();
            },
        };
        if !self.chord.held_in(down) {
            self.since = None;
            self.armed = true;
            return Verdict::default();
        }
        // Held, so it is an instruction rather than input either way — but it
        // only counts once the buttons have been seen up.

        let started: u64 = match self.since {
            Some(t) => t,
            None => now,
        };
        self.since = Some(started);
        if !self.armed || now.saturating_sub(started) < self.hold {
            return Verdict { swallow: true, fired: false };
        }
        self.armed = false;
        Verdict { swallow: true, fired: true }
    }
}

/// What a detector knows after a number of reports with their times.
pub open spec fn after_all(w: Watching, reports: Seq<(Seq<u8>, u64)>) -> Watching
    decreases reports.len(),
{
    if reports.len() == 0 {
        w
    } else {
        after_all(w, reports.drop_last()).after(reports.last().0, reports.last().1)
    }
}

/// How often it fires on the way.
pub open spec fn times_fired(w: Watching, reports: Seq<(Seq<u8>, u64)>) -> nat
    decreases reports.len(),
{
    if reports.len() == 0 {
        0
    } else {
        let before = after_all(w, reports.drop_last());
        times_fired(w, reports.drop_last()) + (if before.verdict(
            reports.last().0,
            reports.last().1,
        ).fired {
            1nat
        } else {
            0nat
        })
    }
}

/// Whether none of the reports shows the chord released.
pub open spec fn never_released(chord: Chord, reports: Seq<(Seq<u8>, u64)>) -> bool {
    forall|i: int|
        0 <= i < reports.len() ==> !(buttons_in((#[trigger] reports[i]).0) is Some
            && !chord.is_held(buttons_in(reports[i].0).unwrap()))
}

/// One press, one toggle: while the chord is not released, however long and
/// through whatever other reports, a detector fires at most once, and one that has
/// not seen the chord released — such as a fresh one, started while the chord that
/// caused the handover is still down — does not fire at all.
pub proof fn lemma_one_press_one_toggle(w: Watching, reports: Seq<(Seq<u8>, u64)>)
    requires
        never_released(w.chord, reports),
    ensures
        times_fired(w, reports) <= 1,
        !w.armed ==> times_fired(w, reports) == 0,
        times_fired(w, reports) == 1 ==> !after_all(w, reports).armed,
        !w.armed ==> !after_all(w, reports).armed,
        after_all(w, reports).chord == w.chord,
    decreases reports.len(),
{
    if reports.len() > 0 {
        let init = reports.drop_last();
        assert forall|i: int| 0 <= i < init.len() implies !(buttons_in((#[trigger] init[i]).0)
            is Some && !w.chord.is_held(buttons_in(init[i].0).unwrap())) by {
            assert(init[i] == reports[i]);
        }
        lemma_one_press_one_toggle(w, init);
        assert(reports[reports.len() - 1] == reports.last());
    }
}

/// A report of another kind neither fires nor breaks a hold, and is passed on.
pub proof fn lemma_foreign_reports_change_nothing(w: Watching, report: Seq<u8>, now: u64)
    requires
        !is_state_report(report),
    ensures
        w.after(report, now) == w,
        w.verdict(report, now) == (Verdict { swallow: false, fired: false }),
{
}

/// Letting go restarts the hold and arms the detector: the press that follows is
/// counted from its own first report, and fires once it has lasted long enough.
pub proof fn lemma_release_restarts_the_hold(
    w: Watching,
    released: Seq<u8>,
    t0: u64,
    pressed: Seq<u8>,
    t1: u64,
    still: Seq<u8>,
    t2: u64,
)
    requires
        w.released_in(released),
        w.held_in(pressed),
        w.held_in(still),
        w.hold > 0,
        t1 <= t2,
    ensures
        ({
            let up = w.after(released, t0);
            let down = up.after(pressed, t1);
            &&& up.since is None && up.armed
            &&& !up.verdict(pressed, t1).fired
            &&& down.verdict(still, t2).fired <==> t2 - t1 >= w.hold
        }),
{
}

// ---------------------------------------------------------------------------
// What the bits of a report mean

proof fn lemma_bits_of_bytes(
    v: u64,
    b0: u64,
    b1: u64,
    b2: u64,
    b3: u64,
    b4: u64,
    b5: u64,
    b6: u64,
    b7: u64,
    j: u64,
)
    by (bit_vector)
    requires
        b0 < 0x100,
        b1 < 0x100,
        b2 < 0x100,
        b3 < 0x100,
        b4 < 0x100,
        b5 < 0x100,
        b6 < 0x100,
        b7 < 0x100,
        j < 8,
        v == b0 + b1 * 0x100 + b2 * 0x1_0000 + b3 * 0x100_0000 + b4 * 0x1_0000_0000 + b5
            * 0x100_0000_0000 + b6 * 0x1_0000_0000_0000 + b7 * 0x100_0000_0000_0000,
    ensures
        (v & (1u64 << j) != 0) == (b0 & (1u64 << j) != 0),
        (v & (1u64 << ((j + 8) as u64)) != 0) == (b1 & (1u64 << j) != 0),
        (v & (1u64 << ((j + 16) as u64)) != 0) == (b2 & (1u64 << j) != 0),
        (v & (1u64 << ((j + 24) as u64)) != 0) == (b3 & (1u64 << j) != 0),
        (v & (1u64 << ((j + 32) as u64)) != 0) == (b4 & (1u64 << j) != 0),
        (v & (1u64 << ((j + 40) as u64)) != 0) == (b5 & (1u64 << j) != 0),
        (v & (1u64 << ((j + 48) as u64)) != 0) == (b6 & (1u64 << j) != 0),
        (v & (1u64 << ((j + 56) as u64)) != 0) == (b7 & (1u64 << j) != 0),
{
}

proof fn lemma_bit_of_byte(b: u8, w: u64, j: u64)
    by (bit_vector)
    requires
        w == b as u64,
        j < 8,
    ensures
        (w & (1u64 << j) != 0) == (b & (1u8 << (j as u8)) != 0),
{
}

/// Each of the 64 buttons has a bit of its own in a state report: button `k` is down if
/// and only if bit `k % 8` of byte `8 + k / 8` is set. A report is a state report if it
/// has sixteen bytes at least, begins with one, zero and nine, and says of itself that
/// twelve bytes at least follow its header; of any other report no button is read.
pub proof fn lemma_every_button_has_its_bit(r: Seq<u8>, k: u64)
    requires
        k < 64,
    ensures
        buttons_in(r) is Some <==> r.len() >= 16 && r[0] == 1 && r[1] == 0 && r[2] == 9 && r[3]
            >= 12,
        buttons_in(r) matches Some(down) ==> ((down & (1u64 << k) != 0) <==> (r[8 + k as int / 8]
            & (1u8 << ((k % 8) as u8)) != 0)),
{
    if buttons_in(r) is Some {
        let v = buttons_in(r).unwrap();
        let j = (k % 8) as u64;
        let (b0, b1, b2, b3) = (r[8] as u64, r[9] as u64, r[10] as u64, r[11] as u64);
        let (b4, b5, b6, b7) = (r[12] as u64, r[13] as u64, r[14] as u64, r[15] as u64);
        lemma_bits_of_bytes(v, b0, b1, b2, b3, b4, b5, b6, b7, j);
        let n = k as int / 8;
        let b = r[8 + n];
        lemma_bit_of_byte(b, b as u64, j);
        assert(k == j + 8 * n);
        assert(n == 0 || n == 1 || n == 2 || n == 3 || n == 4 || n == 5 || n == 6 || n == 7);
    }
}

proof fn lemma_subset_bits(a: u64, m: u64)
    ensures
        a & m == m <==> forall|k: u64| k < 64 && #[trigger] (m & (1u64 << k)) != 0 ==> a & (1u64
            << k) != 0,
{
    if a & m == m {
        assert forall|k: u64| k < 64 && #[trigger] (m & (1u64 << k)) != 0 implies a & (1u64 << k)
            != 0 by {
            assert(a & m == m && m & (1u64 << k) != 0 ==> a & (1u64 << k) != 0) by (bit_vector);
        }
    } else {
        let d = m & !a;
        assert(a & m != m ==> m & !a != 0) by (bit_vector);
        lemma_some_bit(d);
        let k = choose|k: u64| k < 64 && #[trigger] (d & (1u64 << k)) != 0;
        assert((m & !a) & (1u64 << k) != 0 ==> m & (1u64 << k) != 0 && a & (1u64 << k) == 0)
            by (bit_vector);
    }
}

proof fn lemma_some_bit(d: u64)
    requires
        d != 0,
    ensures
        exists|k: u64| k < 64 && #[trigger] (d & (1u64 << k)) != 0,
{
    if forall|k: u64| k < 64 ==> #[trigger] (d & (1u64 << k)) == 0 {
        lemma_no_low_bits(d, 64);
        lemma_low_bits(d, 64);
    }
}

proof fn lemma_no_low_bits(d: u64, n: nat)
    requires
        n <= 64,
        forall|k: u64| k < 64 ==> #[trigger] (d & (1u64 << k)) == 0,
    ensures
        low_bits(d, n) == 0,
    decreases n,
{
    if n > 0 {
        lemma_no_low_bits(d, (n - 1) as nat);
        let bit = (n - 1) as u8;
        assert(d & (1u64 << (bit as u64)) == 0);
    }
}

/// A chord is held in a report if the report is a state report and every button of the
/// chord is down in it, whatever else is: exactly then the report is kept from the
/// importer.
pub proof fn lemma_a_chord_is_held_when_its_buttons_are(w: Watching, r: Seq<u8>, now: u64)
    ensures
        w.verdict(r, now).swallow <==> {
            &&& r.len() >= 16 && r[0] == 1 && r[1] == 0 && r[2] == 9 && r[3] >= 12
            &&& forall|k: u64|
                k < 64 && #[trigger] (w.chord.bits() & (1u64 << k)) != 0 ==> r[8 + k as int / 8]
                    & (1u8 << ((k % 8) as u8)) != 0
        },
        w.verdict(r, now).fired ==> w.verdict(r, now).swallow && w.armed,
{
    lemma_every_button_has_its_bit(r, 0);
    if buttons_in(r) is Some {
        let down = buttons_in(r).unwrap();
        let m = w.chord.bits();
        lemma_subset_bits(down, m);
        assert forall|k: u64| k < 64 implies ((down & #[trigger] (1u64 << k)) != 0) == (r[8
            + k as int / 8] & (1u8 << ((k % 8) as u8)) != 0) by {
            lemma_every_button_has_its_bit(r, k);
        }
        if forall|k: u64|
            k < 64 && #[trigger] (m & (1u64 << k)) != 0 ==> r[8 + k as int / 8] & (1u8 << ((k
                % 8) as u8)) != 0 {
            assert forall|k: u64| k < 64 && #[trigger] (m & (1u64 << k)) != 0 implies down & (
            1u64 << k) != 0 by {}
        }
        if down & m == m {
            assert forall|k: u64| k < 64 && #[trigger] (m & (1u64 << k)) != 0 implies r[8
                + k as int / 8] & (1u8 << ((k % 8) as u8)) != 0 by {
                assert(down & (1u64 << k) != 0);
            }
        }
    }
}

/// The buttons that have names, in the order of their bits from the first on.
pub open spec fn first_names() -> Seq<Seq<char>> {
    seq![
        "r2"@, "l2"@, "r1"@, "l1"@, "y"@, "b"@, "x"@, "a"@, "up"@, "right"@, "left"@, "down"@,
        "view"@, "steam"@, "menu"@, "l5"@, "r5"@, "lpad"@, "rpad"@, "lpadtouch"@, "rpadtouch"@,
    ]
}

/// The layout of the Deck's buttons: the first 21 bits are the named buttons in order,
/// and five more stand apart. A name alone is the chord of its one bit.
pub proof fn lemma_the_layout_of_the_deck(k: int)
    requires
        0 <= k < 21,
    ensures
        parsed_chord(first_names()[k]) == Ok::<u64, Seq<char>>(1u64 << (k as u64)),
        described(1u64 << (k as u64)) == first_names()[k],
        parsed_chord("l3"@) == Ok::<u64, Seq<char>>(1u64 << 22),
        parsed_chord("r3"@) == Ok::<u64, Seq<char>>(1u64 << 26),
        parsed_chord("l4"@) == Ok::<u64, Seq<char>>(1u64 << 41),
        parsed_chord("r4"@) == Ok::<u64, Seq<char>>(1u64 << 42),
        parsed_chord("qam"@) == Ok::<u64, Seq<char>>(1u64 << 50),
{
    lemma_alone(k as u8);
    lemma_first_names(k);
    lemma_other_names();
}

proof fn lemma_other_names()
    ensures
        parsed_chord("l3"@) == Ok::<u64, Seq<char>>(1u64 << 22),
        parsed_chord("r3"@) == Ok::<u64, Seq<char>>(1u64 << 26),
        parsed_chord("l4"@) == Ok::<u64, Seq<char>>(1u64 << 41),
        parsed_chord("r4"@) == Ok::<u64, Seq<char>>(1u64 << 42),
        parsed_chord("qam"@) == Ok::<u64, Seq<char>>(1u64 << 50),
{
    lemma_alone(22);
    lemma_alone(26);
    lemma_alone(41);
    lemma_alone(42);
    lemma_alone(50);
}

proof fn lemma_first_names(k: int)
    requires
        0 <= k < 21,
    ensures
        first_names()[k] == name_of_bit(k as u8),
{
    let v = first_names();
    assert(v[0] == "r2"@);
    assert(v[1] == "l2"@);
    assert(v[2] == "r1"@);
    assert(v[3] == "l1"@);
    assert(v[4] == "y"@);
    assert(v[5] == "b"@);
    assert(v[6] == "x"@);
    assert(v[7] == "a"@);
    assert(v[8] == "up"@);
    assert(v[9] == "right"@);
    assert(v[10] == "left"@);
    assert(v[11] == "down"@);
    assert(v[12] == "view"@);
    assert(v[13] == "steam"@);
    assert(v[14] == "menu"@);
    assert(v[15] == "l5"@);
    assert(v[16] == "r5"@);
    assert(v[17] == "lpad"@);
    assert(v[18] == "rpad"@);
    assert(v[19] == "lpadtouch"@);
    assert(v[20] == "rpadtouch"@);
}

proof fn lemma_one_bit(b: u64, c: u64)
    by (bit_vector)
    requires
        b < 64,
        c < 64,
    ensures
        (1u64 << b) != 0,
        ((1u64 << b) & (1u64 << c) != 0) == (b == c),
{
}

proof fn lemma_described_alone(bit: u8, n: nat)
    requires
        bit < 64,
        n <= 64,
    ensures
        described_upto(1u64 << (bit as u64), n) == (if n > bit {
            name_of_bit(bit)
        } else {
            seq![]
        }),
    decreases n,
{
    if n > 0 {
        lemma_described_alone(bit, (n - 1) as nat);
        lemma_one_bit(bit as u64, (n - 1) as u64);
        assert(((n - 1) as u8) as u64 == (n - 1) as u64);
    }
}

/// One bit alone is written as its name, which reads as that bit.
proof fn lemma_alone(bit: u8)
    requires
        bit < 64,
    ensures
        described(1u64 << (bit as u64)) == name_of_bit(bit),
        parsed_chord(name_of_bit(bit)) == Ok::<u64, Seq<char>>(1u64 << (bit as u64)),
{
    lemma_one_bit(bit as u64, bit as u64);
    lemma_described_alone(bit, 64);
    lemma_chord_reads_back(1u64 << (bit as u64));
}

proof fn lemma_tokens_joined(a: Seq<Seq<char>>, b: Seq<Seq<char>>)
    ensures
        parsed_tokens(a + b) == (match parsed_tokens(a) {
            Err(e) => Err(e),
            Ok((m, any)) => match parsed_tokens(b) {
                Err(e) => Err(e),
                Ok((n, more)) => Ok((m | n, any || more)),
            },
        }),
    decreases b.len(),
{
    if b.len() == 0 {
        assert(a + b =~= a);
        match parsed_tokens(a) {
            Ok((m, any)) => {
                assert(m | 0 == m) by (bit_vector);
            },
            Err(_) => {},
        }
    } else {
        assert((a + b).drop_last() =~= a + b.drop_last());
        lemma_tokens_joined(a, b.drop_last());
        if parsed_tokens(a) is Ok && parsed_tokens(b.drop_last()) is Ok && parsed_token(
            lowered(trimmed(b.last())),
        ) is Ok {
            let m = parsed_tokens(a)->Ok_0.0;
            let n = parsed_tokens(b.drop_last())->Ok_0.0;
            let t = parsed_token(lowered(trimmed(b.last())))->Ok_0;
            assert((m | n) | t == m | (n | t)) by (bit_vector);
        }
    }
}

/// Two chords with a plus or a comma between them are the chord of the buttons of both.
pub proof fn lemma_chords_add_up(s: Seq<char>, t: Seq<char>, sep: char, m: u64, n: u64)
    requires
        sep == '+' || sep == ',',
        parsed_chord(s) == Ok::<u64, Seq<char>>(m),
        parsed_chord(t) == Ok::<u64, Seq<char>>(n),
    ensures
        parsed_chord(s + seq![sep] + t) == Ok::<u64, Seq<char>>(m | n),
{
    let all = s + seq![sep] + t;
    assert(with_pluses(all) =~= with_pluses(s) + seq!['+'] + with_pluses(t));
    lemma_pieces_joined(with_pluses(s), with_pluses(t), '+');
    lemma_tokens_joined(pieces(with_pluses(s), '+'), pieces(with_pluses(t), '+'));
}

/// A bit number stands for its bit.
pub proof fn lemma_numbered_bits(bit: u8)
    requires
        bit < 64,
    ensures
        parsed_chord("b"@ + dec(bit as nat)) == Ok::<u64, Seq<char>>(1u64 << (bit as u64)),
{
    let s = "b"@ + dec(bit as nat);
    reveal_with_fuel(parsed_tokens, 2);
    lemma_numbered_bit(bit);
    lemma_plain_token(s);
    assert(pieces(s, '+').drop_last() =~= Seq::empty());
    assert(0u64 | (1u64 << (bit as u64)) == 1u64 << (bit as u64)) by (bit_vector);
}

/// A hold is measured from the first report that shows it, through whatever comes
/// between; an armed detector fires at the first report that shows the chord still held
/// once the hold has lasted, and is disarmed by that.
pub proof fn lemma_a_hold_is_measured_from_its_start(
    w: Watching,
    first: Seq<u8>,
    t1: u64,
    second: Seq<u8>,
    t2: u64,
)
    requires
        w.armed,
        w.since is None,
        w.verdict(first, t1).swallow,
        w.verdict(second, t2).swallow,
        t1 <= t2,
    ensures
        w.verdict(first, t1).fired <==> w.hold == 0,
        w.hold > 0 ==> {
            let held = w.after(first, t1);
            &&& held.verdict(second, t2).fired <==> t2 - t1 >= w.hold
            &&& held.after(second, t2).armed <==> t2 - t1 < w.hold
        },
{
}

/// A detector that has just begun fires at no report, however long the chord is held: the
/// chord has to be seen up first. A report with it up arms the detector and forgets the
/// hold, and a report that is no state report changes nothing.
pub proof fn lemma_the_chord_has_to_be_seen_up(w: Watching, r: Seq<u8>, now: u64)
    ensures
        !w.armed ==> !w.verdict(r, now).fired,
        !w.armed && w.verdict(r, now).swallow ==> !w.after(r, now).armed,
        r.len() >= 16 && r[0] == 1 && r[1] == 0 && r[2] == 9 && r[3] >= 12 && !w.verdict(
            r,
            now,
        ).swallow ==> w.after(r, now).armed && w.after(r, now).since is None,
        r.len() < 16 || r[0] != 1 || r[1] != 0 || r[2] != 9 || r[3] < 12 ==> w.after(r, now) == w
            && !w.verdict(r, now).swallow,
        w.after(r, now).chord == w.chord && w.after(r, now).hold == w.hold,
        !Watching::fresh(w.chord, w.hold).armed,
        Watching::fresh(w.chord, w.hold).since is None,
        Watching::fresh(w.chord, w.hold).chord == w.chord,
        Watching::fresh(w.chord, w.hold).hold == w.hold,
{
    lemma_a_chord_is_held_when_its_buttons_are(w, r, now);
    lemma_every_button_has_its_bit(r, 0);
}

/// Whether a text is one token of a chord: not empty, and without separators and white
/// space.
pub open spec fn is_token(s: Seq<char>) -> bool {
    s.len() > 0 && forall|i: int|
        0 <= i < s.len() ==> !is_white(#[trigger] s[i]) && s[i] != '+' && s[i] != ','
}

proof fn lemma_token_alone(a: Seq<char>, s: Seq<char>, b: Seq<char>)
    requires
        is_token(s),
        forall|k: int| 0 <= k < a.len() ==> is_white(#[trigger] a[k]),
        forall|k: int| 0 <= k < b.len() ==> is_white(#[trigger] b[k]),
    ensures
        pieces(with_pluses(a + s + b), '+') == seq![a + s + b],
        trimmed(a + s + b) == s,
        parsed_chord(a + s + b) == parsed_token(lowered(s)),
{
    let t = a + s + b;
    let n = a.len() as int;
    let m = s.len() as int;
    assert forall|i: int| 0 <= i < t.len() implies t[i] != '+' && t[i] != ',' by {
        if i < n {
            assert(t[i] == a[i]);
        } else if i < n + m {
            assert(t[i] == s[i - n]);
        } else {
            assert(t[i] == b[i - n - m]);
        }
    }
    assert(with_pluses(t) =~= t);
    lemma_before_is(t, '+', t.len() as int);
    assert(pieces(t, '+') =~= seq![t]);
    assert(!is_white(s[0]) && !is_white(s[s.len() - 1]));
    lemma_trimming_undone(a, s, b);
    reveal_with_fuel(parsed_tokens, 2);
    let ts = seq![t];
    assert(ts.drop_last() =~= Seq::empty());
    match parsed_token(lowered(s)) {
        Ok(x) => {
            assert(0u64 | x == x) by (bit_vector);
        },
        Err(_) => {},
    }
}

/// A button may be written in letters of either case, and with white space around it.
pub proof fn lemma_how_a_button_may_be_written(a: Seq<char>, s: Seq<char>, b: Seq<char>)
    requires
        is_token(s),
        forall|k: int| 0 <= k < a.len() ==> is_white(#[trigger] a[k]),
        forall|k: int| 0 <= k < b.len() ==> is_white(#[trigger] b[k]),
    ensures
        parsed_chord(a + s + b) == parsed_chord(s),
        parsed_chord(lowered(s)) == parsed_chord(s),
{
    let none = Seq::<char>::empty();
    let l = lowered(s);
    lemma_token_alone(a, s, b);
    lemma_token_alone(none, s, none);
    assert(none + s + none =~= s);
    assert forall|i: int| 0 <= i < l.len() implies !is_white(#[trigger] l[i]) && l[i] != '+' && l[i]
        != ',' by {
        assert(!is_white(s[i]) && s[i] != '+' && s[i] != ',');
        lemma_lowering(s, i);
    }
    lemma_token_alone(none, l, none);
    assert(none + l + none =~= l);
    assert forall|i: int| 0 <= i < l.len() implies lowered(l)[i] == l[i] by {
        lemma_lowering(s, i);
        lemma_lowering(l, i);
    }
    assert(lowered(l) =~= l);
}

/// Which chords are refused: one with a button that is refused, wherever it stands, and
/// one without any.
pub proof fn lemma_a_bad_button_spoils_the_chord(s: Seq<char>, t: Seq<char>, sep: char)
    requires
        sep == '+' || sep == ',',
        is_token(t),
        parsed_chord(t) is Err,
    ensures
        parsed_chord(s + seq![sep] + t) is Err,
        parsed_chord(t + seq![sep] + s) is Err,
        parsed_chord(seq![]) is Err,
{
    let none = Seq::<char>::empty();
    lemma_token_alone(none, t, none);
    assert(none + t + none =~= t);
    reveal_with_fuel(parsed_tokens, 2);
    assert(seq![t].drop_last() =~= Seq::empty());
    let all = s + seq![sep] + t;
    assert(with_pluses(all) =~= with_pluses(s) + seq!['+'] + with_pluses(t));
    lemma_pieces_joined(with_pluses(s), with_pluses(t), '+');
    lemma_tokens_joined(pieces(with_pluses(s), '+'), pieces(with_pluses(t), '+'));
    let other = t + seq![sep] + s;
    assert(with_pluses(other) =~= with_pluses(t) + seq!['+'] + with_pluses(s));
    lemma_pieces_joined(with_pluses(t), with_pluses(s), '+');
    lemma_tokens_joined(pieces(with_pluses(t), '+'), pieces(with_pluses(s), '+'));
    assert(with_pluses(none) =~= none);
    assert(pieces(none, '+') =~= seq![none]);
    assert(seq![none].drop_last() =~= Seq::empty());
    lemma_trimming(none);
    assert(trimmed(none).len() == 0);
    assert(seq![] =~= none);
}

/// A mask may be written as it is, in hexadecimal behind `0x`, and a bit by its number
/// behind `b` or `bit`; a number beyond the 64 bits is refused.
pub proof fn lemma_masks_and_bits(m: u64, w: nat, n: nat)
    ensures
        parsed_chord(seq!['0', 'x'] + hex(m as nat, w)) == Ok::<u64, Seq<char>>(m),
        n < 64 ==> parsed_chord(seq!['b', 'i', 't'] + dec(n)) == Ok::<u64, Seq<char>>(
            1u64 << (n as u64),
        ),
        n >= 64 ==> parsed_chord(seq!['b', 'i', 't'] + dec(n)) is Err,
        n >= 64 ==> parsed_chord(seq!['b'] + dec(n)) is Err,
{
    lemma_mask_token(m, w);
    lemma_decimal_token(seq!['b', 'i', 't'], n);
    lemma_decimal_token(seq!['b'], n);
}

proof fn lemma_mask_token(m: u64, w: nat)
    ensures
        parsed_chord(seq!['0', 'x'] + hex(m as nat, w)) == Ok::<u64, Seq<char>>(m),
{
    reveal_strlit("0x");
    let none = Seq::<char>::empty();
    let h = hex(m as nat, w);
    let a = seq!['0', 'x'] + h;
    lemma_padded_value(m as nat, 16, w);
    lemma_written_number_reads_back(m as nat, 16, w, 0xffff_ffff_ffff_ffff);
    lemma_digits_are_lower(m as nat, w);
    assert forall|i: int| 0 <= i < a.len() implies !is_white(#[trigger] a[i]) && a[i] != '+' && a[i]
        != ',' && lower(a[i]) == a[i] by {
        if i >= 2 {
            assert(a[i] == h[i - 2]);
            assert(digit_value(h[i - 2], 16) is Some);
        }
    }
    lemma_token_alone(none, a, none);
    assert(none + a + none =~= a);
    assert(lowered(a) =~= a);
    assert(a.take(2) =~= "0x"@);
    assert(a.skip(2) =~= h);
}

proof fn lemma_digits_are_lower(n: nat, w: nat)
    ensures
        forall|i: int| 0 <= i < hex(n, w).len() ==> lower(#[trigger] hex(n, w)[i]) == hex(n, w)[i],
{
    lemma_numeral_is_lower(n);
    let s = numeral(n, 16);
    assert forall|i: int| 0 <= i < hex(n, w).len() implies lower(#[trigger] hex(n, w)[i]) == hex(
        n,
        w,
    )[i] by {
        let pad = hex(n, w).len() - s.len();
        if i >= pad {
            assert(hex(n, w)[i] == s[i - pad]);
        }
    }
}

proof fn lemma_numeral_is_lower(n: nat)
    ensures
        forall|i: int| 0 <= i < numeral(n, 16).len() ==> lower(#[trigger] numeral(n, 16)[i])
            == numeral(n, 16)[i],
    decreases n,
{
    if n >= 16 {
        lemma_numeral_is_lower(n / 16);
        let rest = numeral(n / 16, 16);
        assert forall|i: int| 0 <= i < numeral(n, 16).len() implies lower(
            #[trigger] numeral(n, 16)[i],
        ) == numeral(n, 16)[i] by {
            if i < rest.len() {
                assert(numeral(n, 16)[i] == rest[i]);
            }
        }
    }
}

proof fn lemma_decimal_token(p: Seq<char>, n: nat)
    requires
        p == seq!['b', 'i', 't'] || p == seq!['b'],
    ensures
        n < 64 ==> parsed_chord(p + dec(n)) == Ok::<u64, Seq<char>>(1u64 << (n as u64)),
        n >= 64 ==> parsed_chord(p + dec(n)) is Err,
{
    reveal_strlit("0x");
    reveal_strlit("bit");
    reveal_strlit("b");
    let none = Seq::<char>::empty();
    let d = dec(n);
    let s = p + d;
    let k = p.len() as int;
    lemma_numeral_value(n, 10);
    assert forall|i: int| 0 <= i < s.len() implies !is_white(#[trigger] s[i]) && s[i] != '+' && s[i]
        != ',' && lower(s[i]) == s[i] by {
        if i >= k {
            assert(s[i] == d[i - k]);
            assert(digit_value(d[i - k], 10) is Some);
        }
    }
    lemma_token_alone(none, s, none);
    assert(none + s + none =~= s);
    assert(lowered(s) =~= s);
    assert(s[0] == 'b');
    assert(!begins_with(s, "0x"@)) by {
        if begins_with(s, "0x"@) {
            assert(s.take(2)[0] == s[0]);
        }
    }
    if k == 3 {
        assert(s.take(3) =~= "bit"@);
        assert(s.skip(3) =~= d);
    } else {
        assert(!begins_with(s, "bit"@)) by {
            if begins_with(s, "bit"@) {
                assert(s.take(3)[1] == 'i');
                assert(s[1] == d[0]);
                assert(digit_value(d[0], 10) is Some);
            }
        }
        assert(s.take(1) =~= "b"@);
        assert(s.skip(1) =~= d);
    }
}

} // verus!
