//! A single-service mDNS responder and a one-shot browser for `_usbip._tcp`:
//! everything about the packets, with the sockets left to the caller.
//!
//! This is a LAN convenience and nothing more. Multicast does not cross a
//! tailnet, so over Tailscale — the transport usbfwd is actually built for —
//! none of this can work and static endpoints are the real mechanism. It stays
//! off by default on both sides and exists so that `avahi-browse -r
//! _usbip._tcp` finds an exporter when both machines are on the same LAN.
//!
//! Deliberately not implemented: name-conflict probing, known-answer
//! suppression, caching, and any service other than the one instance a process
//! advertises for itself.
use crate::proto::wire::{
    be16, be32, lemma_be16_reads_back, lemma_network_byte_order, lemma_read_in_network_byte_order,
    network_value, u16_at,
};
use crate::text::{
    before, chars, dec, digit_value, digits_value, lemma_before, lemma_before_is,
    lemma_numeral_value, lemma_pieces_joined, lossy, lowered, pieces, push_dec, same, same_chars,
    split, string, strings, text_of, texts, to_lower,
};
use vstd::prelude::*;
use vstd::string::*;
use vstd::utf8::*;

verus! {

broadcast use {vstd::slice::group_slice_axioms, vstd::array::group_array_axioms};

pub const MDNS_PORT: u16 = 5353;

pub const TYPE_A: u16 = 1;

pub const TYPE_PTR: u16 = 12;

pub const TYPE_TXT: u16 = 16;

pub const TYPE_SRV: u16 = 33;

pub const TYPE_ANY: u16 = 255;

pub const CLASS_IN: u16 = 1;

/// Top bit of the class field: in a question it asks for a unicast reply, in a
/// record it tells receivers to flush what they had cached.
pub const FLAG_UNICAST_OR_FLUSH: u16 = 0x8000;

/// The two together, for a record that replaces what was cached.
pub const CLASS_IN_FLUSH: u16 = 0x8001;

pub const TTL_HOST: u32 = 120;

pub const TTL_PTR: u32 = 4500;

pub const MAX_PACKET: usize = 9000;

/// How long an announcement stands before it is made again, in nanoseconds.
pub const ANNOUNCE_INTERVAL: u128 = 60_000_000_000;

/// The most hops that a compressed name may take.
pub const MAX_HOPS: u32 = 16;

/// The service that exporters advertise.
pub const SERVICE: &'static str = "_usbip._tcp.local";

/// Whether the service is to be announced again, given how many nanoseconds ago it was.
pub fn announce_due(since: u128) -> (r: bool)
    ensures
        r == (since > ANNOUNCE_INTERVAL),
{
    since > ANNOUNCE_INTERVAL
}

/// The name of the service.
pub open spec fn service() -> Seq<char> {
    SERVICE@
}

// ---------------------------------------------------------------------------
// Names

/// Those of the labels that are not empty.
pub open spec fn not_empty(ls: Seq<Seq<char>>) -> Seq<Seq<char>>
    decreases ls.len(),
{
    if ls.len() == 0 {
        seq![]
    } else if ls[0].len() == 0 {
        not_empty(ls.drop_first())
    } else {
        seq![ls[0]] + not_empty(ls.drop_first())
    }
}

/// A label on the wire: its length, then its bytes, at most 63 of them.
pub open spec fn label_bytes(l: Seq<char>) -> Seq<u8> {
    let b = encode_utf8(l);
    let n: int = if b.len() < 63 {
        b.len() as int
    } else {
        63
    };
    seq![n as u8] + b.take(n)
}

/// Labels on the wire, with the empty one that ends a name.
pub open spec fn labels_bytes(ls: Seq<Seq<char>>) -> Seq<u8>
    decreases ls.len(),
{
    if ls.len() == 0 {
        seq![0u8]
    } else {
        label_bytes(ls[0]) + labels_bytes(ls.drop_first())
    }
}

/// A dotted name on the wire.
pub open spec fn name_bytes(name: Seq<char>) -> Seq<u8> {
    labels_bytes(not_empty(pieces(name, '.')))
}

pub fn encode_name(out: &mut Vec<u8>, name: &str)
    ensures
        final(out)@ == old(out)@ + name_bytes(name@),
{
    let cs = chars(name);
    let ls = split(&cs, '.');
    let ghost all = texts(ls@);
    let ghost whole = old(out)@ + name_bytes(name@);
    let mut i: usize = 0;
    assert(all.skip(0) =~= all);
    while i < ls.len()
        invariant
            i <= ls@.len(),
            all == texts(ls@),
            whole == out@ + labels_bytes(not_empty(all.skip(i as int))),
        decreases ls@.len() - i,
    {
        let l = ls[i];
        let ghost rest = all.skip(i as int);
        assert(rest[0] == l@);
        assert(rest.drop_first() =~= all.skip(i + 1));
        if l.len() > 0 {
            let ghost had = out@;
            let s = string(l);
            let b = s.as_str().as_bytes();
            let n: usize = if b.len() < 63 {
                b.len()
            } else {
                63
            };
            out.push(n as u8);
            out.extend_from_slice(vstd::slice::slice_subrange(b, 0, n));
            assert(out@ =~= had + label_bytes(l@));
            let ghost after = not_empty(all.skip(i + 1));
            assert(not_empty(rest) == seq![l@] + after);
            assert((seq![l@] + after).drop_first() =~= after);
            assert(had + (label_bytes(l@) + labels_bytes(after)) =~= had + label_bytes(l@)
                + labels_bytes(after));
        }
        i = i + 1;
    }
    assert(all.skip(i as int) =~= Seq::empty());
    let ghost had = out@;
    out.push(0);
    assert(out@ =~= had + seq![0u8]);
}

/// A name with one more label.
pub open spec fn with_label(out: Seq<char>, label: Seq<u8>) -> Seq<char> {
    if out.len() > 0 {
        out + seq!['.'] + text_of(label)
    } else {
        text_of(label)
    }
}

/// Where the compression pointer at `p` points.
pub open spec fn pointer(buf: Seq<u8>, p: int) -> int {
    (buf[p] - 0xc0) * 0x100 + buf[p + 1]
}

/// The name at `p`, behind what has been read of it: labels up to an empty one,
/// continued elsewhere where a pointer says so. A name that runs out of the packet,
/// or takes too many hops, is none: a pointer loop would otherwise never end.
pub open spec fn name_from(buf: Seq<u8>, p: int, hops: nat, out: Seq<char>) -> Option<Seq<char>>
    decreases MAX_HOPS + 1 - hops, buf.len() - p,
{
    if hops > MAX_HOPS || p < 0 || p >= buf.len() {
        None
    } else if buf[p] >= 0xc0 {
        if p + 1 >= buf.len() || hops >= MAX_HOPS {
            None
        } else {
            name_from(buf, pointer(buf, p), hops + 1, out)
        }
    } else if buf[p] == 0 {
        Some(out)
    } else if p + 1 + buf[p] > buf.len() {
        None
    } else {
        name_from(
            buf,
            p + 1 + buf[p],
            hops,
            with_label(out, buf.subrange(p + 1, p + 1 + buf[p])),
        )
    }
}

/// The name at `p`.
pub open spec fn name_at(buf: Seq<u8>, p: int) -> Option<Seq<char>> {
    name_from(buf, p, 0, seq![])
}

/// Where what follows the name at `p` begins: behind its empty label or its first
/// pointer.
pub open spec fn name_end(buf: Seq<u8>, p: int) -> int
    decreases buf.len() - p,
{
    if p < 0 || p >= buf.len() {
        p
    } else if buf[p] >= 0xc0 {
        p + 2
    } else if buf[p] == 0 {
        p + 1
    } else if p + 1 + buf[p] > buf.len() {
        p
    } else {
        name_end(buf, p + 1 + buf[p])
    }
}

/// Whether the labels at `p` lead to a pointer: one whose both bytes are there.
pub open spec fn has_pointer(buf: Seq<u8>, p: int) -> bool
    decreases buf.len() - p,
{
    if p < 0 || p >= buf.len() {
        false
    } else if buf[p] >= 0xc0 {
        p + 1 < buf.len()
    } else if buf[p] == 0 || p + 1 + buf[p] > buf.len() {
        false
    } else {
        has_pointer(buf, p + 1 + buf[p])
    }
}

/// Read a possibly-compressed name, advancing `pos` past it. Where there is none, `pos`
/// is behind its first pointer, or stays if there is none of those either.
pub fn read_name(buf: &[u8], pos: &mut usize) -> (r: Option<String>)
    ensures
        match r {
            Some(s) => {
                &&& name_at(buf@, *old(pos) as int) == Some(s@)
                &&& *final(pos) == name_end(buf@, *old(pos) as int)
                &&& *old(pos) < *final(pos) <= buf@.len()
            },
            None => {
                &&& name_at(buf@, *old(pos) as int) is None
                &&& *final(pos) == (if has_pointer(buf@, *old(pos) as int) {
                    name_end(buf@, *old(pos) as int)
                } else {
                    *old(pos) as int
                })
            },
        },
{
    let start: usize = *pos;
    let mut out = String::new();
    let mut p: usize = start;
    let mut jumped = false;
    let mut hops: u32 = 0;
    let mut empty = true;
    loop
        invariant
            start == *old(pos),
            hops <= MAX_HOPS,
            empty == (out@.len() == 0),
            name_at(buf@, start as int) == name_from(buf@, p as int, hops as nat, out@),
            !jumped ==> {
                &&& *pos == start
                &&& hops == 0
                &&& start <= p
                &&& name_end(buf@, start as int) == name_end(buf@, p as int)
                &&& has_pointer(buf@, start as int) == has_pointer(buf@, p as int)
            },
            jumped ==> {
                &&& has_pointer(buf@, start as int)
                &&& *pos == name_end(buf@, start as int)
                &&& start < *pos <= buf@.len()
            },
        decreases MAX_HOPS - hops, buf@.len() - p,
    {
        if p >= buf.len() {
            return None;
        }
        let len: u8 = buf[p];
        if len >= 0xc0 {
            if buf.len() - p < 2 {
                return None;
            }
            let lo: usize = buf[p + 1] as usize;
            if !jumped {
                *pos = p + 2;
                jumped = true;
            }
            // A pointer loop would otherwise hang the responder.
            if hops >= MAX_HOPS {
                return None;
            }
            hops = hops + 1;
            p = (len as usize - 0xc0) * 0x100 + lo;
        } else if len == 0 {
            if !jumped {
                *pos = p + 1;
            }
            return Some(out);
        } else {
            let n: usize = len as usize;
            if n >= buf.len() - p {
                return None;
            }
            let label = vstd::slice::slice_subrange(buf, p + 1, p + 1 + n);
            let ghost had = out@;
            if !empty {
                out.push('.');
            }
            let t = lossy(label);
            out.append(t.as_str());
            empty = empty && t.as_str().is_empty();
            assert(out@ =~= with_label(had, label@));
            p = p + 1 + n;
        }
    }
}

/// A name that encoding keeps: no label is empty or longer than 63 bytes.
pub open spec fn plain_name(name: Seq<char>) -> bool {
    forall|i: int|
        0 <= i < pieces(name, '.').len() ==> 0 < encode_utf8(
            #[trigger] pieces(name, '.')[i],
        ).len() <= 63
}

proof fn lemma_encoded_len(s: Seq<char>)
    ensures
        encode_utf8(s).len() == 0 <==> s.len() == 0,
{
    if s.len() > 0 {
        char_is_scalar(s[0]);
    }
}

proof fn lemma_name_from(buf: Seq<u8>, p: int, name: Seq<char>, out: Seq<char>, hops: nat)
    requires
        plain_name(name),
        hops <= MAX_HOPS,
        0 <= p,
        p + name_bytes(name).len() <= buf.len(),
        buf.subrange(p, p + name_bytes(name).len()) == name_bytes(name),
    ensures
        name_from(buf, p, hops, out) == Some(
            if out.len() > 0 {
                out + seq!['.'] + name
            } else {
                name
            },
        ),
        name_end(buf, p) == p + name_bytes(name).len(),
    decreases name.len(),
{
    reveal_with_fuel(name_from, 3);
    reveal_with_fuel(name_end, 3);
    reveal_with_fuel(not_empty, 3);
    reveal_with_fuel(labels_bytes, 3);
    let i = before(name, '.');
    lemma_before(name, '.');
    let ps = pieces(name, '.');
    let first = ps[0];
    let b = encode_utf8(first);
    lemma_encoded_len(first);
    let n = b.len() as int;
    encode_utf8_valid_utf8(first);
    encode_utf8_decode_utf8(first);
    let all = name_bytes(name);
    assert(b.take(n) =~= b);
    assert(label_bytes(first) =~= seq![n as u8] + b);
    if i < name.len() {
        let rest = name.skip(i + 1);
        assert(first == name.take(i));
        assert(ps.drop_first() =~= pieces(rest, '.'));
        assert(plain_name(rest)) by {
            assert forall|k: int| 0 <= k < pieces(rest, '.').len() implies 0 < encode_utf8(
                #[trigger] pieces(rest, '.')[k],
            ).len() <= 63 by {
                assert(pieces(rest, '.')[k] == ps[k + 1]);
            }
        }
        let left = not_empty(pieces(rest, '.'));
        assert(not_empty(ps) == seq![first] + left);
        assert((seq![first] + left).drop_first() =~= left);
        assert(all == label_bytes(first) + name_bytes(rest));
        let q = p + 1 + n;
        assert(buf[p] == all[0]) by {
            assert(buf.subrange(p, p + all.len())[0] == buf[p]);
        }
        assert(buf.subrange(p + 1, q) =~= b) by {
            assert forall|k: int| 0 <= k < n implies buf[p + 1 + k] == b[k] by {
                assert(buf.subrange(p, p + all.len())[1 + k] == buf[p + 1 + k]);
                assert(all[1 + k] == label_bytes(first)[1 + k]);
            }
        }
        assert(buf.subrange(q, q + name_bytes(rest).len()) =~= name_bytes(rest)) by {
            assert forall|k: int| 0 <= k < name_bytes(rest).len() implies buf[q + k]
                == name_bytes(rest)[k] by {
                assert(buf.subrange(p, p + all.len())[1 + n + k] == buf[q + k]);
            }
        }
        let next = with_label(out, b);
        lemma_name_from(buf, q, rest, next, hops);
        assert(name =~= first + seq!['.'] + rest);
        if out.len() > 0 {
            assert(next + seq!['.'] + rest =~= out + seq!['.'] + name);
        } else {
            assert(next + seq!['.'] + rest =~= name);
        }
    } else {
        assert(first == name);
        assert(ps =~= seq![name]);
        assert(ps.drop_first() =~= Seq::empty());
        assert(not_empty(ps) =~= seq![name]);
        assert(not_empty(ps).drop_first() =~= Seq::empty());
        assert(all =~= label_bytes(name) + seq![0u8]);
        let q = p + 1 + n;
        assert(buf[p] == all[0]) by {
            assert(buf.subrange(p, p + all.len())[0] == buf[p]);
        }
        assert(buf.subrange(p + 1, q) =~= b) by {
            assert forall|k: int| 0 <= k < n implies buf[p + 1 + k] == b[k] by {
                assert(buf.subrange(p, p + all.len())[1 + k] == buf[p + 1 + k]);
                assert(all[1 + k] == label_bytes(name)[1 + k]);
            }
        }
        assert(buf[q] == 0) by {
            assert(buf.subrange(p, p + all.len())[1 + n] == buf[q]);
        }
        assert(name_from(buf, q, hops, with_label(out, b)) == Some(with_label(out, b)));
    }
}

/// A name without empty or overlong labels is read back where it was written,
/// wherever in a packet that is, and reading goes on behind it.
pub proof fn lemma_name_reads_back(buf: Seq<u8>, p: int, name: Seq<char>)
    requires
        plain_name(name),
        0 <= p,
        p + name_bytes(name).len() <= buf.len(),
        buf.subrange(p, p + name_bytes(name).len()) == name_bytes(name),
    ensures
        name_at(buf, p) == Some(name),
        name_end(buf, p) == p + name_bytes(name).len(),
{
    lemma_name_from(buf, p, name, seq![], 0);
}

// ---------------------------------------------------------------------------
// Record data

/// A string of a TXT record: its length, then its bytes, at most 255 of them.
pub open spec fn entry_bytes(e: Seq<char>) -> Seq<u8> {
    let b = encode_utf8(e);
    let n: int = if b.len() < 255 {
        b.len() as int
    } else {
        255
    };
    seq![n as u8] + b.take(n)
}

pub open spec fn entries_bytes(es: Seq<Seq<char>>) -> Seq<u8>
    decreases es.len(),
{
    if es.len() == 0 {
        seq![]
    } else {
        entry_bytes(es[0]) + entries_bytes(es.drop_first())
    }
}

/// The data of a TXT record; one empty string stands for none.
pub open spec fn txt_bytes(es: Seq<Seq<char>>) -> Seq<u8> {
    if es.len() == 0 {
        seq![0u8]
    } else {
        entries_bytes(es)
    }
}

pub fn txt_rdata(entries: &[String]) -> (v: Vec<u8>)
    ensures
        v@ == txt_bytes(strings(entries@)),
{
    let mut v: Vec<u8> = Vec::new();
    let ghost all = strings(entries@);
    if entries.len() == 0 {
        v.push(0);
        assert(v@ =~= seq![0u8]);
        return v;
    }
    let mut i: usize = 0;
    assert(all.skip(0) =~= all);
    assert(v@ + entries_bytes(all) =~= entries_bytes(all));
    while i < entries.len()
        invariant
            i <= entries@.len(),
            all == strings(entries@),
            entries_bytes(all) == v@ + entries_bytes(all.skip(i as int)),
        decreases entries@.len() - i,
    {
        let ghost had = v@;
        let ghost rest = all.skip(i as int);
        let b = entries[i].as_str().as_bytes();
        let n: usize = if b.len() < 255 {
            b.len()
        } else {
            255
        };
        v.push(n as u8);
        v.extend_from_slice(vstd::slice::slice_subrange(b, 0, n));
        proof {
            assert(rest[0] == entries@[i as int]@);
            assert(v@ =~= had + entry_bytes(rest[0]));
            assert(rest.drop_first() =~= all.skip(i + 1));
            assert(had + (entry_bytes(rest[0]) + entries_bytes(all.skip(i + 1))) =~= v@
                + entries_bytes(all.skip(i + 1)));
        }
        i = i + 1;
    }
    assert(all.skip(i as int) =~= Seq::empty());
    assert(v@ =~= v@ + entries_bytes(all.skip(i as int)));
    v
}

/// The strings of a TXT record's data from `p` on, up to an empty one or one that
/// runs out of the data.
pub open spec fn entries_from(b: Seq<u8>, p: int) -> Seq<Seq<char>>
    decreases b.len() - p,
{
    if p < 0 || p >= b.len() || b[p] == 0 || p + 1 + b[p] > b.len() {
        seq![]
    } else {
        seq![text_of(b.subrange(p + 1, p + 1 + b[p]))] + entries_from(b, p + 1 + b[p])
    }
}

pub fn parse_txt(rdata: &[u8]) -> (v: Vec<String>)
    ensures
        strings(v@) == entries_from(rdata@, 0),
{
    let mut v: Vec<String> = Vec::new();
    let ghost all = entries_from(rdata@, 0);
    let mut p: usize = 0;
    assert(strings(v@) + all =~= all);
    while p < rdata.len()
        invariant_except_break
            p <= rdata@.len(),
            all == strings(v@) + entries_from(rdata@, p as int),
        ensures
            strings(v@) == all,
        decreases rdata@.len() - p,
    {
        let n: usize = rdata[p] as usize;
        if n == 0 || n >= rdata.len() - p {
            assert(strings(v@) + Seq::empty() =~= strings(v@));
            break;
        }
        let part = vstd::slice::slice_subrange(rdata, p + 1, p + 1 + n);
        let ghost had = strings(v@);
        v.push(lossy(part));
        assert(strings(v@) =~= had + seq![text_of(part@)]);
        assert(had + (seq![text_of(part@)] + entries_from(rdata@, p + 1 + n)) =~= strings(v@)
            + entries_from(rdata@, p + 1 + n));
        p = p + 1 + n;
        if p >= rdata.len() {
            assert(strings(v@) + Seq::empty() =~= strings(v@));
            break;
        }
    }
    v
}

proof fn lemma_entries_from(b: Seq<u8>, p: int, es: Seq<Seq<char>>)
    requires
        0 <= p <= b.len(),
        b.skip(p) == entries_bytes(es),
        forall|i: int| 0 <= i < es.len() ==> 0 < encode_utf8(#[trigger] es[i]).len() <= 255,
    ensures
        entries_from(b, p) == es,
    decreases es.len(),
{
    if es.len() == 0 {
        assert(b.skip(p).len() == 0);
        assert(entries_from(b, p) =~= es);
    } else {
        let e = encode_utf8(es[0]);
        let n = e.len() as int;
        encode_utf8_valid_utf8(es[0]);
        encode_utf8_decode_utf8(es[0]);
        assert(e.take(n) =~= e);
        let s = entries_bytes(es);
        assert(s =~= seq![n as u8] + e + entries_bytes(es.drop_first()));
        assert(b.skip(p).len() == s.len() && b.skip(p).len() == b.len() - p);
        assert(s.len() == 1 + n + entries_bytes(es.drop_first()).len());
        assert(b[p] == s[0]) by {
            assert(b.skip(p)[0] == b[p]);
        }
        assert(b.subrange(p + 1, p + 1 + n) =~= e) by {
            assert forall|k: int| 0 <= k < n implies b[p + 1 + k] == e[k] by {
                assert(b.skip(p)[1 + k] == b[p + 1 + k]);
                assert(s[1 + k] == e[k]);
            }
        }
        assert(b.skip(p + 1 + n) =~= entries_bytes(es.drop_first())) by {
            assert forall|k: int| 0 <= k < entries_bytes(es.drop_first()).len() implies b[p + 1 + n
                + k] == entries_bytes(es.drop_first())[k] by {
                assert(b.skip(p)[1 + n + k] == b[p + 1 + n + k]);
                assert(s[1 + n + k] == entries_bytes(es.drop_first())[k]);
            }
        }
        assert forall|i: int| 0 <= i < es.drop_first().len() implies 0 < encode_utf8(
            #[trigger] es.drop_first()[i],
        ).len() <= 255 by {
            assert(es.drop_first()[i] == es[i + 1]);
        }
        lemma_entries_from(b, p + 1 + n, es.drop_first());
        assert(seq![es[0]] + es.drop_first() =~= es);
    }
}

/// The strings of a TXT record are read back from its data, if none is empty or
/// longer than 255 bytes; no strings at all are read back as none.
pub proof fn lemma_txt_reads_back(es: Seq<Seq<char>>)
    requires
        forall|i: int| 0 <= i < es.len() ==> 0 < encode_utf8(#[trigger] es[i]).len() <= 255,
    ensures
        entries_from(txt_bytes(es), 0) == es,
{
    let b = txt_bytes(es);
    if es.len() == 0 {
        assert(entries_from(b, 0) =~= es);
    } else {
        assert(b.skip(0) =~= b);
        lemma_entries_from(b, 0, es);
    }
}

/// The data of an SRV record: no priority, no weight, the port and the host.
pub open spec fn srv_bytes(port: u16, target: Seq<char>) -> Seq<u8> {
    be16(0) + be16(0) + be16(port) + name_bytes(target)
}

fn push_u16(v: &mut Vec<u8>, n: u16)
    ensures
        final(v)@ == old(v)@ + be16(n),
{
    v.push((n / 0x100) as u8);
    v.push((n % 0x100) as u8);
    assert(v@ =~= old(v)@ + be16(n));
}

fn push_u32(v: &mut Vec<u8>, n: u32)
    ensures
        final(v)@ == old(v)@ + be32(n),
{
    v.push((n / 0x100_0000) as u8);
    v.push((n / 0x1_0000 % 0x100) as u8);
    v.push((n / 0x100 % 0x100) as u8);
    v.push((n % 0x100) as u8);
    assert(v@ =~= old(v)@ + be32(n));
}

pub fn ptr_rdata(name: &str) -> (v: Vec<u8>)
    ensures
        v@ == name_bytes(name@),
{
    let mut v: Vec<u8> = Vec::new();
    encode_name(&mut v, name);
    assert(v@ =~= name_bytes(name@));
    v
}

pub fn srv_rdata(port: u16, target: &str) -> (v: Vec<u8>)
    ensures
        v@ == srv_bytes(port, target@),
{
    let mut v: Vec<u8> = Vec::new();
    push_u16(&mut v, 0);  // priority
    push_u16(&mut v, 0);  // weight
    push_u16(&mut v, port);
    encode_name(&mut v, target);
    assert(v@ =~= srv_bytes(port, target@));
    v
}

// ---------------------------------------------------------------------------
// Packets

/// A packet being put together.
pub struct Message {
    pub id: u16,
    pub flags: u16,
    pub questions: u16,
    pub answers: u16,
    pub additional: u16,
    pub body: Vec<u8>,
}

pub open spec fn question_bytes(name: Seq<char>, qtype: u16, qclass: u16) -> Seq<u8> {
    name_bytes(name) + be16(qtype) + be16(qclass)
}

pub open spec fn record_bytes(
    name: Seq<char>,
    rtype: u16,
    class: u16,
    ttl: u32,
    rdata: Seq<u8>,
) -> Seq<u8> {
    name_bytes(name) + be16(rtype) + be16(class) + be32(ttl) + be16(rdata.len() as u16) + rdata
}

/// The twelve bytes that a packet begins with. There are no authority records.
pub open spec fn header_bytes(
    id: u16,
    flags: u16,
    questions: u16,
    answers: u16,
    additional: u16,
) -> Seq<u8> {
    be16(id) + be16(flags) + be16(questions) + be16(answers) + be16(0) + be16(additional)
}

impl Message {
    pub open spec fn bytes(self) -> Seq<u8> {
        header_bytes(self.id, self.flags, self.questions, self.answers, self.additional)
            + self.body@
    }

    pub fn new(id: u16, flags: u16) -> (m: Message)
        ensures
            m.id == id,
            m.flags == flags,
            m.questions == 0,
            m.answers == 0,
            m.additional == 0,
            m.body@ == Seq::<u8>::empty(),
    {
        let body: Vec<u8> = Vec::new();
        assert(body@ =~= Seq::<u8>::empty());
        Message { id, flags, questions: 0, answers: 0, additional: 0, body }
    }

    pub fn question(&mut self, name: &str, qtype: u16, qclass: u16)
        requires
            old(self).questions < 0xffff,
        ensures
            final(self).id == old(self).id,
            final(self).flags == old(self).flags,
            final(self).questions == old(self).questions + 1,
            final(self).answers == old(self).answers,
            final(self).additional == old(self).additional,
            final(self).body@ == old(self).body@ + question_bytes(name@, qtype, qclass),
    {
        encode_name(&mut self.body, name);
        push_u16(&mut self.body, qtype);
        push_u16(&mut self.body, qclass);
        assert(self.body@ =~= old(self).body@ + question_bytes(name@, qtype, qclass));
        self.questions = self.questions + 1;
    }

    /// Appends a record, to the answers or to what is sent besides.
    pub fn record(
        &mut self,
        name: &str,
        rtype: u16,
        class: u16,
        ttl: u32,
        rdata: &[u8],
        extra: bool,
    )
        requires
            old(self).answers < 0xffff,
            old(self).additional < 0xffff,
        ensures
            final(self).id == old(self).id,
            final(self).flags == old(self).flags,
            final(self).questions == old(self).questions,
            final(self).answers == old(self).answers + (if extra {
                0int
            } else {
                1
            }),
            final(self).additional == old(self).additional + (if extra {
                1int
            } else {
                0
            }),
            final(self).body@ == old(self).body@ + record_bytes(name@, rtype, class, ttl, rdata@),
    {
        encode_name(&mut self.body, name);
        push_u16(&mut self.body, rtype);
        push_u16(&mut self.body, class);
        push_u32(&mut self.body, ttl);
        push_u16(
            &mut self.body,
            #[verifier::truncate]
            (rdata.len() as u16),
        );
        self.body.extend_from_slice(rdata);
        assert(self.body@ =~= old(self).body@ + record_bytes(name@, rtype, class, ttl, rdata@));
        if extra {
            self.additional = self.additional + 1;
        } else {
            self.answers = self.answers + 1;
        }
    }

    pub fn finish(self) -> (v: Vec<u8>)
        ensures
            v@ == self.bytes(),
    {
        let mut v: Vec<u8> = Vec::new();
        push_u16(&mut v, self.id);
        push_u16(&mut v, self.flags);
        push_u16(&mut v, self.questions);
        push_u16(&mut v, self.answers);
        push_u16(&mut v, 0);
        push_u16(&mut v, self.additional);
        v.extend_from_slice(self.body.as_slice());
        assert(v@ =~= self.bytes());
        v
    }
}

// ---------------------------------------------------------------------------
// Responder

pub struct Responder {
    /// `steamdeck._usbip._tcp.local`
    pub instance_fqdn: String,
    /// `steamdeck.local`
    pub host_fqdn: String,
    pub port: u16,
    pub addrs: Vec<[u8; 4]>,
    pub txt: Vec<String>,
}

/// The address records of a host.
pub open spec fn address_records(host: Seq<char>, addrs: Seq<[u8; 4]>, ttl: u32) -> Seq<u8>
    decreases addrs.len(),
{
    if addrs.len() == 0 {
        seq![]
    } else {
        address_records(host, addrs.drop_last(), ttl) + record_bytes(
            host,
            TYPE_A,
            CLASS_IN_FLUSH,
            ttl,
            addrs.last()@,
        )
    }
}

impl Responder {
    pub fn new(
        instance: &str,
        host: &str,
        port: u16,
        addrs: Vec<[u8; 4]>,
        txt: Vec<String>,
    ) -> (r: Responder)
        ensures
            r.instance_fqdn@ == instance@ + "."@ + service(),
            r.host_fqdn@ == host@ + ".local"@,
            r.port == port,
            r.addrs@ == addrs@,
            r.txt@ == txt@,
    {
        let mut instance_fqdn = String::new();
        instance_fqdn.append(instance);
        instance_fqdn.append(".");
        instance_fqdn.append("_usbip._tcp.local");
        let mut host_fqdn = String::new();
        host_fqdn.append(host);
        host_fqdn.append(".local");
        assert(instance_fqdn@ =~= instance@ + "."@ + service());
        assert(host_fqdn@ =~= host@ + ".local"@);
        Responder { instance_fqdn, host_fqdn, port, addrs, txt }
    }

    /// What is sent: the service points at the instance, if that was asked for; the
    /// instance is at a port of the host and has its strings; the host has its
    /// addresses.
    pub open spec fn answer_body(self, with_ptr: bool, ttl_ptr: u32, ttl_host: u32) -> Seq<u8> {
        (if with_ptr {
            record_bytes(
                service(),
                TYPE_PTR,
                CLASS_IN,
                ttl_ptr,
                name_bytes(self.instance_fqdn@),
            )
        } else {
            seq![]
        }) + record_bytes(
            self.instance_fqdn@,
            TYPE_SRV,
            CLASS_IN_FLUSH,
            ttl_host,
            srv_bytes(self.port, self.host_fqdn@),
        ) + record_bytes(
            self.instance_fqdn@,
            TYPE_TXT,
            CLASS_IN_FLUSH,
            ttl_host,
            txt_bytes(strings(self.txt@)),
        ) + address_records(self.host_fqdn@, self.addrs@, ttl_host)
    }

    /// The packet, a response with authority.
    pub open spec fn answer_bytes(self, with_ptr: bool, ttl_override: Option<u32>) -> Seq<u8> {
        header_bytes(
            0,
            0x8400,
            0,
            if with_ptr {
                3
            } else {
                2
            },
            self.addrs@.len() as u16,
        ) + self.answer_body(
            with_ptr,
            match ttl_override {
                Some(t) => t,
                None => TTL_PTR,
            },
            match ttl_override {
                Some(t) => t,
                None => TTL_HOST,
            },
        )
    }

    pub fn answer(&self, with_ptr: bool, ttl_override: Option<u32>) -> (v: Vec<u8>)
        requires
            self.addrs@.len() <= 0xffff,
        ensures
            v@ == self.answer_bytes(with_ptr, ttl_override),
    {
        let ttl_host: u32 = match ttl_override {
            Some(t) => t,
            None => TTL_HOST,
        };
        let ttl_ptr: u32 = match ttl_override {
            Some(t) => t,
            None => TTL_PTR,
        };
        let mut m = Message::new(0, 0x8400);  // response, authoritative
        if with_ptr {
            m.record(
                "_usbip._tcp.local",
                TYPE_PTR,
                CLASS_IN,
                ttl_ptr,
                ptr_rdata(&self.instance_fqdn).as_slice(),
                false,
            );
        }
        m.record(
            &self.instance_fqdn,
            TYPE_SRV,
            CLASS_IN_FLUSH,
            ttl_host,
            srv_rdata(self.port, &self.host_fqdn).as_slice(),
            false,
        );
        m.record(
            &self.instance_fqdn,
            TYPE_TXT,
            CLASS_IN_FLUSH,
            ttl_host,
            txt_rdata(self.txt.as_slice()).as_slice(),
            false,
        );
        let ghost head = m.body@;
        let mut i: usize = 0;
        assert(self.addrs@.take(0) =~= Seq::empty());
        assert(m.body@ =~= head + address_records(
            self.host_fqdn@,
            self.addrs@.take(0),
            ttl_host,
        ));
        while i < self.addrs.len()
            invariant
                i <= self.addrs@.len() <= 0xffff,
                m.id == 0,
                m.flags == 0x8400,
                m.questions == 0,
                m.answers == (if with_ptr {
                    3int
                } else {
                    2
                }),
                m.additional == i,
                m.body@ == head + address_records(
                    self.host_fqdn@,
                    self.addrs@.take(i as int),
                    ttl_host,
                ),
            decreases self.addrs@.len() - i,
        {
            let a = self.addrs[i];
            m.record(&self.host_fqdn, TYPE_A, CLASS_IN_FLUSH, ttl_host, &a, true);
            i = i + 1;
            proof {
                assert(self.addrs@.take(i as int).drop_last() =~= self.addrs@.take(i - 1));
                assert(self.addrs@.take(i as int).last() == a);
                assert(m.body@ =~= head + address_records(
                    self.host_fqdn@,
                    self.addrs@.take(i as int),
                    ttl_host,
                ));
            }
        }
        assert(self.addrs@.take(i as int) =~= self.addrs@);
        assert(m.body@ =~= self.answer_body(with_ptr, ttl_ptr, ttl_host));
        m.finish()
    }

    /// The packet that advertises the service.
    pub fn announce(&self) -> (v: Vec<u8>)
        requires
            self.addrs@.len() <= 0xffff,
        ensures
            v@ == self.answer_bytes(true, None),
    {
        self.answer(true, None)
    }

    /// The packet that withdraws the advertisement: the same with a zero TTL.
    pub fn goodbye(&self) -> (v: Vec<u8>)
        requires
            self.addrs@.len() <= 0xffff,
        ensures
            v@ == self.answer_bytes(true, Some(0)),
    {
        self.answer(true, Some(0))
    }

    /// Whether a question asks for the type of service.
    pub open spec fn asks_for_service(name: Seq<char>, qtype: u16) -> bool {
        lowered(name) == service() && (qtype == TYPE_PTR || qtype == TYPE_ANY)
    }

    /// Whether a question asks about this instance, or to resolve this host; both
    /// are answered with the same records.
    pub open spec fn asks_about_us(self, name: Seq<char>, qtype: u16) -> bool {
        ||| lowered(name) == lowered(self.instance_fqdn@) && (qtype == TYPE_SRV || qtype
            == TYPE_TXT || qtype == TYPE_ANY)
        ||| lowered(name) == lowered(self.host_fqdn@) && (qtype == TYPE_A || qtype == TYPE_ANY)
    }

    /// What the next `n` questions from `pos` on ask, on top of what has been asked:
    /// for the type of service, about us, and for a unicast reply. There is no answer
    /// if the packet ends before they do.
    pub open spec fn asked(
        self,
        buf: Seq<u8>,
        pos: int,
        n: nat,
        had: (bool, bool, bool),
    ) -> Option<(bool, bool, bool)>
        decreases n,
    {
        if n == 0 {
            Some(had)
        } else {
            match name_at(buf, pos) {
                None => None,
                Some(name) => {
                    let at = name_end(buf, pos);
                    let qtype = u16_at(buf, at);
                    if at + 4 > buf.len() {
                        None
                    } else {
                        self.asked(
                            buf,
                            at + 4,
                            (n - 1) as nat,
                            (
                                had.0 || Responder::asks_for_service(name, qtype),
                                had.1 || (!Responder::asks_for_service(name, qtype)
                                    && self.asks_about_us(name, qtype)),
                                had.2 || u16_at(buf, at + 2) >= FLAG_UNICAST_OR_FLUSH,
                            ),
                        )
                    }
                },
            }
        }
    }

    /// What a packet asks. A response asks nothing.
    pub open spec fn questions_in(self, buf: Seq<u8>) -> Option<(bool, bool, bool)> {
        if buf.len() < 12 || u16_at(buf, 2) >= 0x8000 {
            None
        } else {
            self.asked(buf, 12, u16_at(buf, 4) as nat, (false, false, false))
        }
    }

    /// Returns `(asked for the service type, asked about us specifically,
    /// wants a unicast reply)`.
    pub fn match_questions(&self, buf: &[u8]) -> (r: Option<(bool, bool, bool)>)
        ensures
            r == self.questions_in(buf@),
    {
        if buf.len() < 12 {
            return None;
        }
        if buf[2] >= 0x80 {
            return None;  // a response, not a query
        }
        let qdcount: u16 = (buf[4] as u16) * 0x100 + (buf[5] as u16);
        let service = chars("_usbip._tcp.local");
        let instance = to_lower(&chars(&self.instance_fqdn));
        let host = to_lower(&chars(&self.host_fqdn));
        let mut pos: usize = 12;
        let mut ptr = false;
        let mut svc = false;
        let mut unicast = false;
        let mut i: u16 = 0;
        while i < qdcount
            invariant
                i <= qdcount,
                12 <= pos <= buf@.len(),
                service@ == "_usbip._tcp.local"@,
                instance@ == lowered(self.instance_fqdn@),
                host@ == lowered(self.host_fqdn@),
                self.questions_in(buf@) == self.asked(
                    buf@,
                    pos as int,
                    (qdcount - i) as nat,
                    (ptr, svc, unicast),
                ),
            decreases qdcount - i,
        {
            let name = match read_name(buf, &mut pos) {
                Some(n) => n,
                None => {
                    return None;
                },
            };
            if buf.len() - pos < 4 {
                return None;
            }
            let qtype: u16 = (buf[pos] as u16) * 0x100 + (buf[pos + 1] as u16);
            let qclass: u16 = (buf[pos + 2] as u16) * 0x100 + (buf[pos + 3] as u16);
            pos = pos + 4;
            if qclass >= FLAG_UNICAST_OR_FLUSH {
                unicast = true;
            }
            let lower = to_lower(&chars(&name));
            if same_chars(&lower, &service) && (qtype == TYPE_PTR || qtype == TYPE_ANY) {
                ptr = true;
            } else if (same_chars(&lower, &instance) && (qtype == TYPE_SRV || qtype == TYPE_TXT
                || qtype == TYPE_ANY)) || (same_chars(&lower, &host) && (qtype == TYPE_A || qtype
                == TYPE_ANY)) {
                svc = true;
            }
            i = i + 1;
        }
        Some((ptr, svc, unicast))
    }

    /// What to send for a packet that has arrived, and whether to its sender alone
    /// rather than to the group.
    pub fn poll_once(&self, packet: &[u8]) -> (r: Option<(Vec<u8>, bool)>)
        requires
            self.addrs@.len() <= 0xffff,
        ensures
            match self.questions_in(packet@) {
                Some((ptr, svc, unicast)) if ptr || svc => r is Some && r.unwrap().0@
                    == self.answer_bytes(ptr, None) && r.unwrap().1 == unicast,
                _ => r is None,
            },
    {
        match self.match_questions(packet) {
            Some((ptr, svc, unicast)) => {
                if ptr || svc {
                    Some((self.answer(ptr, None), unicast))
                } else {
                    None
                }
            },
            None => None,
        }
    }
}

/// Responses, our own among them, are not treated as queries: two responders never
/// keep answering each other.
pub proof fn lemma_responses_are_not_answered(
    r: Responder,
    s: Responder,
    with_ptr: bool,
    ttl: Option<u32>,
)
    ensures
        r.questions_in(s.answer_bytes(with_ptr, ttl)) is None,
{
    let b = s.answer_bytes(with_ptr, ttl);
    assert(b.subrange(2, 4) =~= be16(0x8400));
    lemma_be16_reads_back(b, 2, 0x8400);
}

// ---------------------------------------------------------------------------
// Browser

/// What the packets that arrived have said so far.
pub struct Found {
    pub instances: Vec<String>,
    pub srv: Vec<(String, u16, String)>,
    pub txts: Vec<(String, Vec<String>)>,
    pub addrs: Vec<(String, [u8; 4])>,
}

/// The same, as contracts speak of it: the instances of the service, and by name
/// the ports and hosts, the strings and the addresses.
pub struct Findings {
    pub instances: Seq<Seq<char>>,
    pub srv: Seq<(Seq<char>, u16, Seq<char>)>,
    pub txts: Seq<(Seq<char>, Seq<Seq<char>>)>,
    pub addrs: Seq<(Seq<char>, Seq<u8>)>,
}

impl View for Found {
    type V = Findings;

    open spec fn view(&self) -> Findings {
        Findings {
            instances: strings(self.instances@),
            srv: self.srv@.map_values(|r: (String, u16, String)| (r.0@, r.1, r.2@)),
            txts: self.txts@.map_values(|r: (String, Vec<String>)| (r.0@, strings(r.1@))),
            addrs: self.addrs@.map_values(|r: (String, [u8; 4])| (r.0@, r.1@)),
        }
    }
}

/// Whether two names are the same but for the case of ASCII letters.
pub open spec fn same_name(a: Seq<char>, b: Seq<char>) -> bool {
    lowered(a) == lowered(b)
}

fn is_same_name(a: &str, b: &str) -> (r: bool)
    ensures
        r == same_name(a@, b@),
{
    same_chars(&to_lower(&chars(a)), &to_lower(&chars(b)))
}

/// Whether one of the names is the same as `n`.
pub open spec fn knows(names: Seq<Seq<char>>, n: Seq<char>) -> bool {
    exists|i: int| 0 <= i < names.len() && same_name(#[trigger] names[i], n)
}

impl Findings {
    /// What is known after a record of that name and type with `len` bytes of data
    /// at `at`. Records of other types, and ones too short for theirs, say nothing.
    pub open spec fn with_record(
        self,
        buf: Seq<u8>,
        name: Seq<char>,
        rtype: u16,
        at: int,
        len: int,
    ) -> Findings {
        if rtype == TYPE_PTR && same_name(name, service()) {
            match name_at(buf, at) {
                Some(t) if !knows(self.instances, t) => Findings {
                    instances: self.instances.push(t),
                    ..self
                },
                _ => self,
            }
        } else if rtype == TYPE_SRV && len >= 7 {
            match name_at(buf, at + 6) {
                Some(t) => Findings { srv: self.srv.push((name, u16_at(buf, at + 4), t)), ..self },
                None => self,
            }
        } else if rtype == TYPE_TXT {
            Findings {
                txts: self.txts.push((name, entries_from(buf.subrange(at, at + len), 0))),
                ..self
            }
        } else if rtype == TYPE_A && len == 4 {
            Findings { addrs: self.addrs.push((name, buf.subrange(at, at + 4))), ..self }
        } else {
            self
        }
    }

    /// What is known after the next `n` records from `pos` on, and whether the packet
    /// holds that many. Where it does not, what came before counts.
    pub open spec fn with_records(self, buf: Seq<u8>, pos: int, n: nat) -> (Findings, bool)
        decreases n,
    {
        if n == 0 {
            (self, true)
        } else {
            match name_at(buf, pos) {
                None => (self, false),
                Some(name) => {
                    let at = name_end(buf, pos);
                    let len = u16_at(buf, at + 8) as int;
                    if at + 10 > buf.len() || at + 10 + len > buf.len() {
                        (self, false)
                    } else {
                        self.with_record(
                            buf,
                            name,
                            u16_at(buf, at),
                            at + 10,
                            len,
                        ).with_records(buf, at + 10 + len, (n - 1) as nat)
                    }
                },
            }
        }
    }

    /// What is known after a packet: its questions are passed over, all its records
    /// count.
    pub open spec fn with_packet(self, buf: Seq<u8>) -> (Findings, bool) {
        if buf.len() < 12 {
            (self, false)
        } else {
            match after_questions(buf, 12, u16_at(buf, 4) as nat) {
                None => (self, false),
                Some(pos) => self.with_records(
                    buf,
                    pos,
                    (u16_at(buf, 6) + u16_at(buf, 8) + u16_at(buf, 10)) as nat,
                ),
            }
        }
    }
}

/// Where what follows the next `n` questions from `pos` on begins.
pub open spec fn after_questions(buf: Seq<u8>, pos: int, n: nat) -> Option<int>
    decreases n,
{
    if n == 0 {
        Some(pos)
    } else {
        match name_at(buf, pos) {
            None => None,
            Some(_) => if name_end(buf, pos) + 4 > usize::MAX {
                None
            } else {
                after_questions(buf, name_end(buf, pos) + 4, (n - 1) as nat)
            },
        }
    }
}

fn word(buf: &[u8], at: usize) -> (w: u16)
    requires
        at + 1 < buf@.len(),
    ensures
        w == u16_at(buf@, at as int),
{
    (buf[at] as u16) * 0x100 + (buf[at + 1] as u16)
}

impl Found {
    pub fn new() -> (f: Found)
        ensures
            f@ == (Findings {
                instances: Seq::empty(),
                srv: Seq::empty(),
                txts: Seq::empty(),
                addrs: Seq::empty(),
            }),
    {
        let f = Found {
            instances: Vec::new(),
            srv: Vec::new(),
            txts: Vec::new(),
            addrs: Vec::new(),
        };
        assert(f@.instances =~= Seq::empty());
        assert(f@.srv =~= Seq::empty());
        assert(f@.txts =~= Seq::empty());
        assert(f@.addrs =~= Seq::empty());
        f
    }

    fn knows_instance(&self, n: &str) -> (r: bool)
        ensures
            r == knows(self@.instances, n@),
    {
        let mut i: usize = 0;
        while i < self.instances.len()
            invariant
                i <= self.instances@.len(),
                forall|j: int| 0 <= j < i ==> !same_name(#[trigger] self@.instances[j], n@),
            decreases self.instances@.len() - i,
        {
            assert(self@.instances[i as int] == self.instances@[i as int]@);
            if is_same_name(&self.instances[i], n) {
                return true;
            }
            i = i + 1;
        }
        false
    }

    fn take_record(&mut self, buf: &[u8], name: String, rtype: u16, at: usize, len: usize)
        requires
            at + len <= buf@.len(),
        ensures
            final(self)@ == old(self)@.with_record(
                buf@,
                name@,
                rtype,
                at as int,
                len as int,
            ),
    {
        let ghost had = self@;
        assert(at + len <= buf.len());
        if rtype == TYPE_PTR && is_same_name(&name, "_usbip._tcp.local") {
            let mut p: usize = at;
            match read_name(buf, &mut p) {
                Some(target) => {
                    if !self.knows_instance(&target) {
                        let ghost t = target@;
                        self.instances.push(target);
                        assert(self@.instances =~= had.instances.push(t));
                        assert(self@.srv =~= had.srv);
                    }
                },
                None => {},
            }
        } else if rtype == TYPE_SRV && len >= 7 {
            let port: u16 = word(buf, at + 4);
            let mut p: usize = at + 6;
            match read_name(buf, &mut p) {
                Some(target) => {
                    let ghost r = (name@, port, target@);
                    self.srv.push((name, port, target));
                    assert(self@.srv =~= had.srv.push(r));
                },
                None => {},
            }
        } else if rtype == TYPE_TXT {
            let data = vstd::slice::slice_subrange(buf, at, at + len);
            let txt = parse_txt(data);
            let ghost r = (name@, strings(txt@));
            self.txts.push((name, txt));
            assert(self@.txts =~= had.txts.push(r));
        } else if rtype == TYPE_A && len == 4 {
            let a: [u8; 4] = [buf[at], buf[at + 1], buf[at + 2], buf[at + 3]];
            assert(a@ =~= buf@.subrange(at as int, at + 4));
            let ghost r = (name@, a@);
            self.addrs.push((name, a));
            assert(self@.addrs =~= had.addrs.push(r));
        }
    }
}

/// Takes in a packet. Returns `None` if it ends before it should; what it said until
/// then counts.
pub fn collect(buf: &[u8], found: &mut Found) -> (r: Option<()>)
    ensures
        final(found)@ == old(found)@.with_packet(buf@).0,
        r is Some == old(found)@.with_packet(buf@).1,
{
    if buf.len() < 12 {
        return None;
    }
    let questions: u16 = word(buf, 4);
    let mut pos: usize = 12;
    let mut i: u16 = 0;
    while i < questions
        invariant
            i <= questions,
            found@ == old(found)@,
            after_questions(buf@, 12, questions as nat) == after_questions(
                buf@,
                pos as int,
                (questions - i) as nat,
            ),
            buf@.len() >= 12,
            questions == u16_at(buf@, 4),
        decreases questions - i,
    {
        match read_name(buf, &mut pos) {
            Some(_) => {},
            None => {
                return None;
            },
        }
        if pos > usize::MAX - 4 {
            return None;
        }
        pos = pos + 4;
        i = i + 1;
    }
    let total: usize = word(buf, 6) as usize + word(buf, 8) as usize + word(buf, 10) as usize;
    let mut k: usize = 0;
    while k < total
        invariant
            k <= total,
            buf@.len() >= 12,
            old(found)@.with_packet(buf@) == found@.with_records(
                buf@,
                pos as int,
                (total - k) as nat,
            ),
        decreases total - k,
    {
        let name = match read_name(buf, &mut pos) {
            Some(n) => n,
            None => {
                return None;
            },
        };
        if buf.len() - pos < 10 {
            return None;
        }
        let rtype: u16 = word(buf, pos);
        let rdlen: usize = word(buf, pos + 8) as usize;
        pos = pos + 10;
        if rdlen > buf.len() - pos {
            return None;
        }
        found.take_record(buf, name, rtype, pos, rdlen);
        pos = pos + rdlen;
        k = k + 1;
    }
    Some(())
}

#[derive(Debug, Clone, PartialEq, Eq)]
pub struct Discovered {
    pub instance: String,
    pub host: String,
    pub port: u16,
    pub addrs: Vec<[u8; 4]>,
    pub txt: Vec<String>,
}

/// An exporter on the LAN, as contracts speak of it.
pub struct Exporter {
    pub instance: Seq<char>,
    pub host: Seq<char>,
    pub port: u16,
    pub addrs: Seq<Seq<u8>>,
    pub txt: Seq<Seq<char>>,
}

impl View for Discovered {
    type V = Exporter;

    open spec fn view(&self) -> Exporter {
        Exporter {
            instance: self.instance@,
            host: self.host@,
            port: self.port,
            addrs: self.addrs@.map_values(|a: [u8; 4]| a@),
            txt: strings(self.txt@),
        }
    }
}

/// An IPv4 address in the dotted form.
pub open spec fn v4_text(a: Seq<u8>) -> Seq<char> {
    dec(a[0] as nat) + "."@ + dec(a[1] as nat) + "."@ + dec(a[2] as nat) + "."@ + dec(a[3] as nat)
}

impl Discovered {
    /// The best endpoint to hand to `usbip attach`: a literal address if one
    /// was advertised, otherwise the `.local` name for the resolver to sort out.
    pub fn endpoint(&self) -> (s: String)
        ensures
            s@ == (if self.addrs@.len() > 0 {
                v4_text(self.addrs@[0]@)
            } else {
                self.host@
            }),
    {
        if self.addrs.len() == 0 {
            return self.host.clone();
        }
        let a = self.addrs[0];
        let mut s = String::new();
        push_dec(&mut s, a[0] as u64);
        s.append(".");
        push_dec(&mut s, a[1] as u64);
        s.append(".");
        push_dec(&mut s, a[2] as u64);
        s.append(".");
        push_dec(&mut s, a[3] as u64);
        assert(s@ =~= v4_text(a@));
        s
    }
}

/// The packet that asks who offers the service. The unicast bit keeps the answers
/// out of the way of a system responder already holding the port.
pub fn query() -> (v: Vec<u8>)
    ensures
        v@ == header_bytes(0, 0, 1, 0, 0) + question_bytes(service(), TYPE_PTR, CLASS_IN_FLUSH),
{
    let mut m = Message::new(0, 0);
    m.question("_usbip._tcp.local", TYPE_PTR, CLASS_IN_FLUSH);
    assert(m.body@ =~= question_bytes(service(), TYPE_PTR, CLASS_IN_FLUSH));
    m.finish()
}

/// `s` without the copies of `suffix` that it ends in.
pub open spec fn without_suffix(s: Seq<char>, suffix: Seq<char>) -> Seq<char>
    decreases s.len(),
{
    let n = s.len() - suffix.len();
    if suffix.len() > 0 && n >= 0 && s.skip(n) == suffix {
        without_suffix(s.take(n), suffix)
    } else {
        s
    }
}

fn strip_suffix(s: &str, suffix: &str) -> (r: String)
    requires
        suffix@.len() > 0,
    ensures
        r@ == without_suffix(s@, suffix@),
{
    let cs = chars(s);
    let tail = chars(suffix);
    let mut n: usize = cs.len();
    assert(cs@.take(n as int) =~= cs@);
    while n >= tail.len() && same_chars(
        vstd::slice::slice_subrange(cs.as_slice(), n - tail.len(), n),
        &tail,
    )
        invariant
            n <= cs@.len(),
            tail@ == suffix@,
            tail@.len() > 0,
            without_suffix(s@, suffix@) == without_suffix(cs@.take(n as int), suffix@),
        decreases n,
    {
        let ghost t = cs@.take(n as int);
        let ghost k = n - tail@.len();
        assert(t.skip(k) =~= cs@.subrange(k, n as int));
        assert(t.take(k) =~= cs@.take(k));
        n = n - tail.len();
    }
    let ghost t = cs@.take(n as int);
    assert(n >= tail@.len() ==> t.skip(n - tail@.len()) =~= cs@.subrange(
        n - tail@.len(),
        n as int,
    ));
    let head = vstd::slice::slice_subrange(cs.as_slice(), 0, n);
    assert(head@ =~= t);
    string(head)
}

/// The first port and host that are known of a name.
pub open spec fn first_srv(srv: Seq<(Seq<char>, u16, Seq<char>)>, name: Seq<char>) -> Option<
    (u16, Seq<char>),
>
    decreases srv.len(),
{
    if srv.len() == 0 {
        None
    } else if srv[0].0 == name {
        Some((srv[0].1, srv[0].2))
    } else {
        first_srv(srv.drop_first(), name)
    }
}

/// The first strings that are known of a name.
pub open spec fn first_txt(txts: Seq<(Seq<char>, Seq<Seq<char>>)>, name: Seq<char>) -> Seq<
    Seq<char>,
>
    decreases txts.len(),
{
    if txts.len() == 0 {
        seq![]
    } else if txts[0].0 == name {
        txts[0].1
    } else {
        first_txt(txts.drop_first(), name)
    }
}

/// The addresses that are known of a host, in order.
pub open spec fn addrs_of(addrs: Seq<(Seq<char>, Seq<u8>)>, host: Seq<char>) -> Seq<Seq<u8>>
    decreases addrs.len(),
{
    if addrs.len() == 0 {
        seq![]
    } else if same_name(addrs.last().0, host) {
        addrs_of(addrs.drop_last(), host).push(addrs.last().1)
    } else {
        addrs_of(addrs.drop_last(), host)
    }
}

impl Findings {
    /// What is known of an instance, if its port and host are.
    pub open spec fn exporter(self, inst: Seq<char>) -> Option<Exporter> {
        match first_srv(self.srv, inst) {
            None => None,
            Some((port, host)) => Some(
                Exporter {
                    instance: without_suffix(inst, "._usbip._tcp.local"@),
                    host,
                    port,
                    addrs: addrs_of(self.addrs, host),
                    txt: first_txt(self.txts, inst),
                },
            ),
        }
    }

    /// The exporters among the instances, in order. Neighbours with the same name
    /// are one.
    pub open spec fn exporters(self, insts: Seq<Seq<char>>) -> Seq<Exporter>
        decreases insts.len(),
    {
        if insts.len() == 0 {
            seq![]
        } else {
            let rest = self.exporters(insts.drop_last());
            match self.exporter(insts.last()) {
                None => rest,
                Some(e) => if rest.len() > 0 && rest.last().instance == e.instance {
                    rest
                } else {
                    rest.push(e)
                },
            }
        }
    }
}

/// What the entries of a list stand for.
pub open spec fn exporters_view(v: Seq<Discovered>) -> Seq<Exporter> {
    v.map_values(|d: Discovered| d@)
}

impl Found {
    fn find_srv(&self, name: &str) -> (r: Option<(u16, String)>)
        ensures
            match r {
                Some((port, host)) => first_srv(self@.srv, name@) == Some((port, host@)),
                None => first_srv(self@.srv, name@) is None,
            },
    {
        let ghost all = self@.srv;
        let mut i: usize = 0;
        assert(all.skip(0) =~= all);
        while i < self.srv.len()
            invariant
                i <= self.srv@.len(),
                all == self@.srv,
                first_srv(all, name@) == first_srv(all.skip(i as int), name@),
            decreases self.srv@.len() - i,
        {
            let e = &self.srv[i];
            assert(all.skip(i as int)[0] == (e.0@, e.1, e.2@));
            if same(e.0.as_str(), name) {
                return Some((e.1, e.2.clone()));
            }
            assert(all.skip(i as int).drop_first() =~= all.skip(i + 1));
            i = i + 1;
        }
        None
    }

    fn find_txt(&self, name: &str) -> (r: Vec<String>)
        ensures
            strings(r@) == first_txt(self@.txts, name@),
    {
        let ghost all = self@.txts;
        let mut i: usize = 0;
        assert(all.skip(0) =~= all);
        while i < self.txts.len()
            invariant
                i <= self.txts@.len(),
                all == self@.txts,
                first_txt(all, name@) == first_txt(all.skip(i as int), name@),
            decreases self.txts@.len() - i,
        {
            let e = &self.txts[i];
            assert(all.skip(i as int)[0] == (e.0@, strings(e.1@)));
            if same(e.0.as_str(), name) {
                return copies(&e.1);
            }
            assert(all.skip(i as int).drop_first() =~= all.skip(i + 1));
            i = i + 1;
        }
        let r: Vec<String> = Vec::new();
        assert(strings(r@) =~= Seq::empty());
        r
    }

    fn find_addrs(&self, host: &str) -> (r: Vec<[u8; 4]>)
        ensures
            r@.map_values(|a: [u8; 4]| a@) == addrs_of(self@.addrs, host@),
    {
        let ghost all = self@.addrs;
        let mut r: Vec<[u8; 4]> = Vec::new();
        let mut i: usize = 0;
        assert(all.take(0) =~= Seq::empty());
        assert(r@.map_values(|a: [u8; 4]| a@) =~= Seq::empty());
        while i < self.addrs.len()
            invariant
                i <= self.addrs@.len(),
                all == self@.addrs,
                r@.map_values(|a: [u8; 4]| a@) == addrs_of(all.take(i as int), host@),
            decreases self.addrs@.len() - i,
        {
            let e = &self.addrs[i];
            proof {
                assert(all.take(i + 1).drop_last() =~= all.take(i as int));
                assert(all.take(i + 1).last() == (e.0@, e.1@));
            }
            if is_same_name(e.0.as_str(), host) {
                let ghost had = r@.map_values(|a: [u8; 4]| a@);
                r.push(e.1);
                assert(r@.map_values(|a: [u8; 4]| a@) =~= had.push(e.1@));
            }
            i = i + 1;
        }
        assert(all.take(i as int) =~= all);
        r
    }

    /// The exporters that the packets told of.
    pub fn browse(&self) -> (r: Vec<Discovered>)
        ensures
            exporters_view(r@) == self@.exporters(self@.instances),
    {
        let ghost all = self@.instances;
        let mut out: Vec<Discovered> = Vec::new();
        let mut i: usize = 0;
        assert(all.take(0) =~= Seq::empty());
        assert(exporters_view(out@) =~= Seq::empty());
        proof {
            reveal_strlit("._usbip._tcp.local");
        }
        while i < self.instances.len()
            invariant
                i <= self.instances@.len(),
                all == self@.instances,
                "._usbip._tcp.local"@.len() > 0,
                exporters_view(out@) == self@.exporters(all.take(i as int)),
            decreases self.instances@.len() - i,
        {
            let inst = &self.instances[i];
            proof {
                assert(all.take(i + 1).drop_last() =~= all.take(i as int));
                assert(all.take(i + 1).last() == inst@);
            }
            match self.find_srv(inst.as_str()) {
                Some((port, host)) => {
                    let addrs = self.find_addrs(host.as_str());
                    let txt = self.find_txt(inst.as_str());
                    let instance = strip_suffix(inst.as_str(), "._usbip._tcp.local");
                    let n: usize = out.len();
                    let ghost had = exporters_view(out@);
                    assert(n > 0 ==> had.last() == out@[n - 1]@);
                    if n == 0 || !same(out[n - 1].instance.as_str(), instance.as_str()) {
                        let d = Discovered { instance, host, port, addrs, txt };
                        out.push(d);
                        assert(exporters_view(out@) =~= had.push(d@));
                    }
                },
                None => {},
            }
            i = i + 1;
        }
        assert(all.take(i as int) =~= all);
        out
    }
}

fn copies(v: &Vec<String>) -> (r: Vec<String>)
    ensures
        strings(r@) == strings(v@),
{
    let mut r: Vec<String> = Vec::new();
    let mut i: usize = 0;
    while i < v.len()
        invariant
            i <= v@.len(),
            strings(r@) == strings(v@).take(i as int),
        decreases v@.len() - i,
    {
        let ghost had = strings(r@);
        r.push(v[i].clone());
        i = i + 1;
        assert(strings(r@) =~= had.push(v@[i - 1]@));
        assert(strings(r@) =~= strings(v@).take(i as int));
    }
    assert(strings(r@) =~= strings(v@));
    r
}

// ---------------------------------------------------------------------------
// What is advertised is found

proof fn lemma_part_of(buf: Seq<u8>, pos: int, s: Seq<u8>, i: int, j: int)
    requires
        0 <= pos,
        pos + s.len() <= buf.len(),
        buf.subrange(pos, pos + s.len()) == s,
        0 <= i <= j <= s.len(),
    ensures
        buf.subrange(pos + i, pos + j) == s.subrange(i, j),
{
    assert(buf.subrange(pos + i, pos + j) =~= buf.subrange(pos, pos + s.len()).subrange(i, j));
}

/// A record that was written is taken in, and reading goes on behind it.
proof fn lemma_record_is_read(
    f: Findings,
    buf: Seq<u8>,
    pos: int,
    n: nat,
    name: Seq<char>,
    rtype: u16,
    class: u16,
    ttl: u32,
    rdata: Seq<u8>,
)
    requires
        plain_name(name),
        rdata.len() <= 0xffff,
        0 <= pos,
        pos + record_bytes(name, rtype, class, ttl, rdata).len() <= buf.len(),
        buf.subrange(pos, pos + record_bytes(name, rtype, class, ttl, rdata).len())
            == record_bytes(name, rtype, class, ttl, rdata),
    ensures
        ({
            let at = pos + name_bytes(name).len() + 10;
            &&& at + rdata.len() == pos + record_bytes(name, rtype, class, ttl, rdata).len()
            &&& buf.subrange(at, at + rdata.len()) == rdata
            &&& f.with_records(buf, pos, n + 1) == f.with_record(
                buf,
                name,
                rtype,
                at,
                rdata.len() as int,
            ).with_records(buf, at + rdata.len(), n)
        }),
{
    let s = record_bytes(name, rtype, class, ttl, rdata);
    let k = name_bytes(name).len() as int;
    assert(s.subrange(0, k) =~= name_bytes(name));
    lemma_part_of(buf, pos, s, 0, k);
    lemma_name_reads_back(buf, pos, name);
    assert(s.subrange(k, k + 2) =~= be16(rtype));
    lemma_part_of(buf, pos, s, k, k + 2);
    lemma_be16_reads_back(buf, pos + k, rtype);
    assert(s.subrange(k + 8, k + 10) =~= be16(rdata.len() as u16));
    lemma_part_of(buf, pos, s, k + 8, k + 10);
    lemma_be16_reads_back(buf, pos + k + 8, rdata.len() as u16);
    assert(s.subrange(k + 10, s.len() as int) =~= rdata);
    lemma_part_of(buf, pos, s, k + 10, s.len() as int);
}

/// What is known after the address records of a host.
spec fn with_addresses(f: Findings, host: Seq<char>, addrs: Seq<[u8; 4]>) -> Findings {
    Findings {
        addrs: f.addrs + addrs.map_values(|a: [u8; 4]| (host, a@)),
        ..f
    }
}

proof fn lemma_addresses_are_read(
    f: Findings,
    buf: Seq<u8>,
    pos: int,
    host: Seq<char>,
    addrs: Seq<[u8; 4]>,
    ttl: u32,
    n: nat,
)
    requires
        plain_name(host),
        0 <= pos,
        pos + address_records(host, addrs, ttl).len() <= buf.len(),
        buf.subrange(pos, pos + address_records(host, addrs, ttl).len()) == address_records(
            host,
            addrs,
            ttl,
        ),
    ensures
        f.with_records(buf, pos, addrs.len() + n) == with_addresses(f, host, addrs).with_records(
            buf,
            pos + address_records(host, addrs, ttl).len(),
            n,
        ),
    decreases addrs.len(),
{
    let s = address_records(host, addrs, ttl);
    if addrs.len() == 0 {
        assert(with_addresses(f, host, addrs).addrs =~= f.addrs);
    } else {
        let init = addrs.drop_last();
        let a = addrs.last();
        let head = address_records(host, init, ttl);
        let last = record_bytes(host, TYPE_A, CLASS_IN_FLUSH, ttl, a@);
        let k = head.len() as int;
        assert(s.subrange(0, k) =~= head);
        lemma_part_of(buf, pos, s, 0, k);
        lemma_addresses_are_read(f, buf, pos, host, init, ttl, n + 1);
        assert(s.subrange(k, s.len() as int) =~= last);
        lemma_part_of(buf, pos, s, k, s.len() as int);
        let g = with_addresses(f, host, init);
        lemma_record_is_read(g, buf, pos + k, n, host, TYPE_A, CLASS_IN_FLUSH, ttl, a@);
        assert(init.len() + (n + 1) == addrs.len() + n);
        assert(g.addrs.push((host, a@)) =~= with_addresses(f, host, addrs).addrs);
    }
}

proof fn lemma_service_is_plain()
    ensures
        plain_name(service()),
{
    let s = service();
    reveal_strlit("_usbip._tcp.local");
    lemma_before_is(s, '.', 6);
    let t = s.skip(7);
    lemma_before_is(t, '.', 4);
    let u = t.skip(5);
    lemma_before_is(u, '.', 5);
    assert(pieces(u, '.') =~= seq![u]);
    assert(pieces(t, '.') =~= seq![t.take(4), u]);
    assert(pieces(s, '.') =~= seq![s.take(6), t.take(4), u]);
    assert(is_ascii_chars(s));
    assert forall|i: int| 0 <= i < pieces(s, '.').len() implies 0 < encode_utf8(
        #[trigger] pieces(s, '.')[i],
    ).len() <= 63 by {
        let p = pieces(s, '.')[i];
        assert(is_ascii_chars(p));
        is_ascii_chars_encode_utf8(p);
    }
}

proof fn lemma_ptr_is_read(
    f: Findings,
    buf: Seq<u8>,
    pos: int,
    n: nat,
    inst: Seq<char>,
    ttl: u32,
)
    requires
        f.instances.len() == 0,
        plain_name(inst),
        name_bytes(inst).len() <= 0xffff,
        0 <= pos,
        ({
            let s = record_bytes(service(), TYPE_PTR, CLASS_IN, ttl, name_bytes(inst));
            pos + s.len() <= buf.len() && buf.subrange(pos, pos + s.len()) == s
        }),
    ensures
        f.with_records(buf, pos, n + 1) == (Findings {
            instances: f.instances.push(inst),
            ..f
        }).with_records(
            buf,
            pos + record_bytes(service(), TYPE_PTR, CLASS_IN, ttl, name_bytes(inst)).len(),
            n,
        ),
{
    lemma_service_is_plain();
    lemma_record_is_read(f, buf, pos, n, service(), TYPE_PTR, CLASS_IN, ttl, name_bytes(inst));
    let at = pos + name_bytes(service()).len() as int + 10;
    lemma_name_reads_back(buf, at, inst);
}

proof fn lemma_srv_is_read(
    f: Findings,
    buf: Seq<u8>,
    pos: int,
    n: nat,
    inst: Seq<char>,
    port: u16,
    host: Seq<char>,
    ttl: u32,
)
    requires
        plain_name(inst),
        plain_name(host),
        srv_bytes(port, host).len() <= 0xffff,
        0 <= pos,
        ({
            let s = record_bytes(inst, TYPE_SRV, CLASS_IN_FLUSH, ttl, srv_bytes(port, host));
            pos + s.len() <= buf.len() && buf.subrange(pos, pos + s.len()) == s
        }),
    ensures
        f.with_records(buf, pos, n + 1) == (Findings {
            srv: f.srv.push((inst, port, host)),
            ..f
        }).with_records(
            buf,
            pos + record_bytes(
                inst,
                TYPE_SRV,
                CLASS_IN_FLUSH,
                ttl,
                srv_bytes(port, host),
            ).len(),
            n,
        ),
{
    let d = srv_bytes(port, host);
    lemma_record_is_read(f, buf, pos, n, inst, TYPE_SRV, CLASS_IN_FLUSH, ttl, d);
    let at = pos + name_bytes(inst).len() as int + 10;
    assert(d.subrange(4, 6) =~= be16(port));
    lemma_part_of(buf, at, d, 4, 6);
    lemma_be16_reads_back(buf, at + 4, port);
    assert(d.subrange(6, d.len() as int) =~= name_bytes(host));
    lemma_part_of(buf, at, d, 6, d.len() as int);
    lemma_name_reads_back(buf, at + 6, host);
    assert(name_bytes(host).len() >= 1) by {
        reveal_with_fuel(labels_bytes, 2);
    }
}

proof fn lemma_txt_is_read(
    f: Findings,
    buf: Seq<u8>,
    pos: int,
    n: nat,
    inst: Seq<char>,
    es: Seq<Seq<char>>,
    ttl: u32,
)
    requires
        plain_name(inst),
        txt_bytes(es).len() <= 0xffff,
        forall|i: int| 0 <= i < es.len() ==> 0 < encode_utf8(#[trigger] es[i]).len() <= 255,
        0 <= pos,
        ({
            let s = record_bytes(inst, TYPE_TXT, CLASS_IN_FLUSH, ttl, txt_bytes(es));
            pos + s.len() <= buf.len() && buf.subrange(pos, pos + s.len()) == s
        }),
    ensures
        f.with_records(buf, pos, n + 1) == (Findings {
            txts: f.txts.push((inst, es)),
            ..f
        }).with_records(
            buf,
            pos + record_bytes(inst, TYPE_TXT, CLASS_IN_FLUSH, ttl, txt_bytes(es)).len(),
            n,
        ),
{
    lemma_record_is_read(f, buf, pos, n, inst, TYPE_TXT, CLASS_IN_FLUSH, ttl, txt_bytes(es));
    lemma_txt_reads_back(es);
}

/// The names and strings of what is advertised survive encoding.
pub open spec fn can_be_read(r: Responder) -> bool {
    &&& plain_name(r.instance_fqdn@)
    &&& plain_name(r.host_fqdn@)
    &&& name_bytes(r.instance_fqdn@).len() <= 0xffff
    &&& srv_bytes(r.port, r.host_fqdn@).len() <= 0xffff
    &&& txt_bytes(strings(r.txt@)).len() <= 0xffff
    &&& r.addrs@.len() <= 0xffff
    &&& forall|i: int|
        0 <= i < strings(r.txt@).len() ==> 0 < encode_utf8(#[trigger] strings(r.txt@)[i]).len()
            <= 255
}

/// The four parts of an announcement.
spec fn parts_are(
    r: Responder,
    tp: u32,
    th: u32,
    r1: Seq<u8>,
    r2: Seq<u8>,
    r3: Seq<u8>,
    r4: Seq<u8>,
) -> bool {
    &&& r1 == record_bytes(service(), TYPE_PTR, CLASS_IN, tp, name_bytes(r.instance_fqdn@))
    &&& r2 == record_bytes(
        r.instance_fqdn@,
        TYPE_SRV,
        CLASS_IN_FLUSH,
        th,
        srv_bytes(r.port, r.host_fqdn@),
    )
    &&& r3 == record_bytes(
        r.instance_fqdn@,
        TYPE_TXT,
        CLASS_IN_FLUSH,
        th,
        txt_bytes(strings(r.txt@)),
    )
    &&& r4 == address_records(r.host_fqdn@, r.addrs@, th)
}

/// The packet in which they stand behind twelve bytes of header.
spec fn holds(
    buf: Seq<u8>,
    h: Seq<u8>,
    r1: Seq<u8>,
    r2: Seq<u8>,
    r3: Seq<u8>,
    r4: Seq<u8>,
) -> bool {
    let p2 = 12 + r1.len() as int;
    let p3 = p2 + r2.len() as int;
    let p4 = p3 + r3.len() as int;
    let p5 = p4 + r4.len() as int;
    &&& h.len() == 12
    &&& buf.len() == p5
    &&& buf.subrange(0, 12) == h
    &&& buf.subrange(12, p2) == r1
    &&& buf.subrange(p2, p3) == r2
    &&& buf.subrange(p3, p4) == r3
    &&& buf.subrange(p4, p5) == r4
}

proof fn lemma_body_layout(h: Seq<u8>, r1: Seq<u8>, r2: Seq<u8>, r3: Seq<u8>, r4: Seq<u8>)
    requires
        h.len() == 12,
    ensures
        holds(h + (r1 + r2 + r3 + r4), h, r1, r2, r3, r4),
{
    let buf = h + (r1 + r2 + r3 + r4);
    let p2 = 12 + r1.len() as int;
    let p3 = p2 + r2.len() as int;
    let p4 = p3 + r3.len() as int;
    let p5 = p4 + r4.len() as int;
    assert(buf.subrange(0, 12) =~= h);
    assert(buf.subrange(12, p2) =~= r1);
    assert(buf.subrange(p2, p3) =~= r2);
    assert(buf.subrange(p3, p4) =~= r3);
    assert(buf.subrange(p4, p5) =~= r4);
}

proof fn lemma_counts_are_read(buf: Seq<u8>, flags: u16, q: u16, a: u16, x: u16)
    requires
        buf.len() >= 12,
        buf.subrange(0, 12) == header_bytes(0, flags, q, a, x),
    ensures
        u16_at(buf, 4) == q,
        u16_at(buf, 6) == a,
        u16_at(buf, 8) == 0,
        u16_at(buf, 10) == x,
{
    let h = header_bytes(0, flags, q, a, x);
    assert(h.subrange(4, 6) =~= be16(q));
    lemma_part_of(buf, 0, h, 4, 6);
    lemma_be16_reads_back(buf, 4, q);
    assert(h.subrange(6, 8) =~= be16(a));
    lemma_part_of(buf, 0, h, 6, 8);
    lemma_be16_reads_back(buf, 6, a);
    assert(h.subrange(8, 10) =~= be16(0));
    lemma_part_of(buf, 0, h, 8, 10);
    lemma_be16_reads_back(buf, 8, 0);
    assert(h.subrange(10, 12) =~= be16(x));
    lemma_part_of(buf, 0, h, 10, 12);
    lemma_be16_reads_back(buf, 10, x);
}

/// The records of an announcement, wherever they stand in a packet, are all taken in.
proof fn lemma_body_is_read(
    buf: Seq<u8>,
    r: Responder,
    tp: u32,
    th: u32,
    h: Seq<u8>,
    r1: Seq<u8>,
    r2: Seq<u8>,
    r3: Seq<u8>,
    r4: Seq<u8>,
)
    requires
        can_be_read(r),
        parts_are(r, tp, th, r1, r2, r3, r4),
        holds(buf, h, r1, r2, r3, r4),
    ensures
        no_findings().with_records(buf, 12, r.addrs@.len() + 3) == (announced(r), true),
{
    let inst = r.instance_fqdn@;
    let host = r.host_fqdn@;
    let es = strings(r.txt@);
    let n = r.addrs@.len();
    let p2 = 12 + r1.len() as int;
    let p3 = p2 + r2.len() as int;
    let p4 = p3 + r3.len() as int;
    let f0 = no_findings();
    let f1 = Findings { instances: f0.instances.push(inst), ..f0 };
    let f2 = Findings { srv: f1.srv.push((inst, r.port, host)), ..f1 };
    let f3 = Findings { txts: f2.txts.push((inst, es)), ..f2 };
    let f4 = with_addresses(f3, host, r.addrs@);
    assert(f0.with_records(buf, 12, n + 3) == f1.with_records(buf, p2, n + 2)) by {
        lemma_ptr_is_read(f0, buf, 12, n + 2, inst, tp);
    }
    assert(f1.with_records(buf, p2, n + 2) == f2.with_records(buf, p3, n + 1)) by {
        lemma_srv_is_read(f1, buf, p2, n + 1, inst, r.port, host, th);
    }
    assert(f2.with_records(buf, p3, n + 1) == f3.with_records(buf, p4, n)) by {
        lemma_txt_is_read(f2, buf, p3, n, inst, es, th);
    }
    assert(f3.with_records(buf, p4, n) == f4.with_records(buf, p4 + r4.len(), 0)) by {
        lemma_addresses_are_read(f3, buf, p4, host, r.addrs@, th, 0);
    }
    assert(f4.instances =~= seq![inst]);
    assert(f4.srv =~= seq![(inst, r.port, host)]);
    assert(f4.txts =~= seq![(inst, es)]);
    assert(f4.addrs =~= r.addrs@.map_values(|a: [u8; 4]| (host, a@)));
}

/// Nothing has been found yet.
pub open spec fn no_findings() -> Findings {
    Findings {
        instances: Seq::empty(),
        srv: Seq::empty(),
        txts: Seq::empty(),
        addrs: Seq::empty(),
    }
}

/// What a responder advertises.
pub open spec fn announced(r: Responder) -> Findings {
    Findings {
        instances: seq![r.instance_fqdn@],
        srv: seq![(r.instance_fqdn@, r.port, r.host_fqdn@)],
        txts: seq![(r.instance_fqdn@, strings(r.txt@))],
        addrs: r.addrs@.map_values(|a: [u8; 4]| (r.host_fqdn@, a@)),
    }
}

/// A browser that receives an announcement finds the instance it announces, its
/// port and host, its strings and all its addresses, and nothing else. The names
/// have no empty or overlong labels, and the strings fit.
pub proof fn lemma_an_announcement_is_found(r: Responder, ttl: Option<u32>)
    requires
        can_be_read(r),
    ensures
        no_findings().with_packet(r.answer_bytes(true, ttl)) == (announced(r), true),
{
    let buf = r.answer_bytes(true, ttl);
    let tp = match ttl {
        Some(t) => t,
        None => TTL_PTR,
    };
    let th = match ttl {
        Some(t) => t,
        None => TTL_HOST,
    };
    let es = strings(r.txt@);
    let n = r.addrs@.len();
    let h = header_bytes(0, 0x8400, 0, 3, n as u16);
    let r1 = record_bytes(service(), TYPE_PTR, CLASS_IN, tp, name_bytes(r.instance_fqdn@));
    let r2 = record_bytes(
        r.instance_fqdn@,
        TYPE_SRV,
        CLASS_IN_FLUSH,
        th,
        srv_bytes(r.port, r.host_fqdn@),
    );
    let r3 = record_bytes(r.instance_fqdn@, TYPE_TXT, CLASS_IN_FLUSH, th, txt_bytes(es));
    let r4 = address_records(r.host_fqdn@, r.addrs@, th);
    lemma_body_layout(h, r1, r2, r3, r4);
    lemma_packet_is_read(buf, r, tp, th, h, r1, r2, r3, r4);
}

proof fn lemma_packet_is_read(
    buf: Seq<u8>,
    r: Responder,
    tp: u32,
    th: u32,
    h: Seq<u8>,
    r1: Seq<u8>,
    r2: Seq<u8>,
    r3: Seq<u8>,
    r4: Seq<u8>,
)
    requires
        can_be_read(r),
        parts_are(r, tp, th, r1, r2, r3, r4),
        h == header_bytes(0, 0x8400, 0, 3, r.addrs@.len() as u16),
        holds(buf, h, r1, r2, r3, r4),
    ensures
        no_findings().with_packet(buf) == (announced(r), true),
{
    let n = r.addrs@.len();
    lemma_counts_are_read(buf, 0x8400, 0, 3, n as u16);
    assert(after_questions(buf, 12, 0) == Some(12int));
    assert(no_findings().with_packet(buf) == no_findings().with_records(buf, 12, n + 3));
    lemma_body_is_read(buf, r, tp, th, h, r1, r2, r3, r4);
}

// ---------------------------------------------------------------------------
// What packets say on the wire

/// What stands where in a record, a question and the data of an SRV record, each number
/// with its most significant byte first: behind the name come two bytes of type, two of
/// class, four of time to live and two of length, and then the data; behind the name of a
/// question come type and class; and before the host come priority, weight and port.
pub proof fn lemma_record_layout(
    name: Seq<char>,
    rtype: u16,
    class: u16,
    ttl: u32,
    rdata: Seq<u8>,
    port: u16,
)
    requires
        rdata.len() <= 0xffff,
    ensures
        ({
            let k = name_bytes(name).len() as int;
            let s = record_bytes(name, rtype, class, ttl, rdata);
            &&& s.len() == k + 10 + rdata.len()
            &&& s.take(k) == name_bytes(name)
            &&& network_value(s.subrange(k, k + 2)) == rtype
            &&& network_value(s.subrange(k + 2, k + 4)) == class
            &&& network_value(s.subrange(k + 4, k + 8)) == ttl
            &&& network_value(s.subrange(k + 8, k + 10)) == rdata.len()
            &&& s.skip(k + 10) == rdata
        }),
        ({
            let k = name_bytes(name).len() as int;
            let q = question_bytes(name, rtype, class);
            &&& q.len() == k + 4
            &&& q.take(k) == name_bytes(name)
            &&& network_value(q.subrange(k, k + 2)) == rtype
            &&& network_value(q.subrange(k + 2, k + 4)) == class
        }),
        ({
            let d = srv_bytes(port, name);
            &&& d.take(4) == seq![0u8, 0u8, 0u8, 0u8]
            &&& network_value(d.subrange(4, 6)) == port
            &&& d.skip(6) == name_bytes(name)
        }),
{
    let k = name_bytes(name).len() as int;
    lemma_network_byte_order(rtype, ttl, 0);
    lemma_network_byte_order(class, ttl, 0);
    lemma_network_byte_order(rdata.len() as u16, ttl, 0);
    lemma_network_byte_order(port, ttl, 0);
    let s = record_bytes(name, rtype, class, ttl, rdata);
    assert(s.take(k) =~= name_bytes(name));
    assert(s.subrange(k, k + 2) =~= be16(rtype));
    assert(s.subrange(k + 2, k + 4) =~= be16(class));
    assert(s.subrange(k + 4, k + 8) =~= be32(ttl));
    assert(s.subrange(k + 8, k + 10) =~= be16(rdata.len() as u16));
    assert(s.skip(k + 10) =~= rdata);
    let q = question_bytes(name, rtype, class);
    assert(q.take(k) =~= name_bytes(name));
    assert(q.subrange(k, k + 2) =~= be16(rtype));
    assert(q.subrange(k + 2, k + 4) =~= be16(class));
    let d = srv_bytes(port, name);
    assert(d.take(4) =~= seq![0u8, 0u8, 0u8, 0u8]);
    assert(d.subrange(4, 6) =~= be16(port));
    assert(d.skip(6) =~= name_bytes(name));
}

/// What stands where in the twelve bytes that a packet begins with.
pub proof fn lemma_packet_header_layout(
    id: u16,
    flags: u16,
    questions: u16,
    answers: u16,
    additional: u16,
)
    ensures
        ({
            let h = header_bytes(id, flags, questions, answers, additional);
            &&& h.len() == 12
            &&& network_value(h.subrange(0, 2)) == id
            &&& network_value(h.subrange(2, 4)) == flags
            &&& network_value(h.subrange(4, 6)) == questions
            &&& network_value(h.subrange(6, 8)) == answers
            &&& network_value(h.subrange(8, 10)) == 0
            &&& network_value(h.subrange(10, 12)) == additional
        }),
{
    let h = header_bytes(id, flags, questions, answers, additional);
    lemma_network_byte_order(id, 0, 0);
    lemma_network_byte_order(flags, 0, 0);
    lemma_network_byte_order(questions, 0, 0);
    lemma_network_byte_order(answers, 0, 0);
    lemma_network_byte_order(0, 0, 0);
    lemma_network_byte_order(additional, 0, 0);
    assert(h.subrange(0, 2) =~= be16(id));
    assert(h.subrange(2, 4) =~= be16(flags));
    assert(h.subrange(4, 6) =~= be16(questions));
    assert(h.subrange(6, 8) =~= be16(answers));
    assert(h.subrange(8, 10) =~= be16(0));
    assert(h.subrange(10, 12) =~= be16(additional));
}

/// An answer is a response with authority, without questions. Its first record, if the
/// service was asked for, points from the service to the instance and lives for 4500
/// seconds, and the next says where the instance is and lives for 120; both live for as
/// long as is said instead, where that is said, so that a farewell lives for none. There
/// are three records or, without the first, two, and one more for each address.
pub proof fn lemma_what_an_answer_says(r: Responder, ttl: Option<u32>)
    requires
        name_bytes(r.instance_fqdn@).len() <= 0xffff,
        srv_bytes(r.port, r.host_fqdn@).len() <= 0xffff,
        r.addrs@.len() <= 0xffff,
    ensures
        ({
            let b = r.answer_bytes(true, ttl);
            let k = 12 + name_bytes(service()).len() as int;
            let m = k + 10 + name_bytes(r.instance_fqdn@).len() as int;
            let n = m + name_bytes(r.instance_fqdn@).len() as int;
            &&& b[2] == 0x84 && b[3] == 0
            &&& network_value(b.subrange(4, 6)) == 0
            &&& network_value(b.subrange(6, 8)) == 3
            &&& network_value(b.subrange(10, 12)) == r.addrs@.len()
            &&& b.subrange(12, k) == name_bytes(service())
            &&& network_value(b.subrange(k, k + 2)) == 12
            &&& network_value(b.subrange(k + 2, k + 4)) == 1
            &&& network_value(b.subrange(k + 4, k + 8)) == (match ttl {
                Some(t) => t,
                None => 4500,
            })
            &&& b.subrange(k + 10, m) == name_bytes(r.instance_fqdn@)
            &&& b.subrange(m, n) == name_bytes(r.instance_fqdn@)
            &&& network_value(b.subrange(n, n + 2)) == 33
            &&& network_value(b.subrange(n + 2, n + 4)) == 0x8001
            &&& network_value(b.subrange(n + 4, n + 8)) == (match ttl {
                Some(t) => t,
                None => 120,
            })
            &&& network_value(b.subrange(n + 14, n + 16)) == r.port
        }),
        ({
            let b = r.answer_bytes(false, ttl);
            let n = 12 + name_bytes(r.instance_fqdn@).len() as int;
            &&& b[2] == 0x84 && b[3] == 0
            &&& network_value(b.subrange(4, 6)) == 0
            &&& network_value(b.subrange(6, 8)) == 2
            &&& network_value(b.subrange(10, 12)) == r.addrs@.len()
            &&& b.subrange(12, n) == name_bytes(r.instance_fqdn@)
            &&& b.skip(12) == r.answer_bytes(true, ttl).skip(
                22 + name_bytes(service()).len() as int + name_bytes(r.instance_fqdn@).len(),
            )
        }),
{
    lemma_answer_with_pointer(r, ttl);
    lemma_answer_without_pointer(r, ttl);
}

/// What is said of a record holds where it stands in a packet.
proof fn lemma_record_in(
    b: Seq<u8>,
    pos: int,
    name: Seq<char>,
    rtype: u16,
    class: u16,
    ttl: u32,
    rdata: Seq<u8>,
)
    requires
        rdata.len() <= 0xffff,
        0 <= pos,
        pos + record_bytes(name, rtype, class, ttl, rdata).len() <= b.len(),
        b.subrange(pos, pos + record_bytes(name, rtype, class, ttl, rdata).len()) == record_bytes(
            name,
            rtype,
            class,
            ttl,
            rdata,
        ),
    ensures
        ({
            let k = pos + name_bytes(name).len();
            &&& b.subrange(pos, k) == name_bytes(name)
            &&& network_value(b.subrange(k, k + 2)) == rtype
            &&& network_value(b.subrange(k + 2, k + 4)) == class
            &&& network_value(b.subrange(k + 4, k + 8)) == ttl
            &&& b.subrange(k + 10, k + 10 + rdata.len()) == rdata
            &&& record_bytes(name, rtype, class, ttl, rdata).len() == name_bytes(name).len() + 10
                + rdata.len()
        }),
{
    let s = record_bytes(name, rtype, class, ttl, rdata);
    let a = name_bytes(name).len() as int;
    lemma_record_layout(name, rtype, class, ttl, rdata, 0);
    lemma_part_of(b, pos, s, 0, a);
    assert(s.subrange(0, a) =~= s.take(a));
    lemma_part_of(b, pos, s, a, a + 2);
    lemma_part_of(b, pos, s, a + 2, a + 4);
    lemma_part_of(b, pos, s, a + 4, a + 8);
    lemma_part_of(b, pos, s, a + 10, a + 10 + rdata.len());
    assert(s.subrange(a + 10, a + 10 + rdata.len()) =~= s.skip(a + 10));
}

proof fn lemma_answer_header(b: Seq<u8>, answers: u16, additional: u16)
    requires
        b.len() >= 12,
        b.subrange(0, 12) == header_bytes(0, 0x8400, 0, answers, additional),
    ensures
        b[2] == 0x84 && b[3] == 0,
        network_value(b.subrange(4, 6)) == 0,
        network_value(b.subrange(6, 8)) == answers,
        network_value(b.subrange(10, 12)) == additional,
{
    let h = header_bytes(0, 0x8400, 0, answers, additional);
    lemma_packet_header_layout(0, 0x8400, 0, answers, additional);
    lemma_part_of(b, 0, h, 4, 6);
    lemma_part_of(b, 0, h, 6, 8);
    lemma_part_of(b, 0, h, 10, 12);
    assert(h[2] == 0x84 && h[3] == 0);
    assert(b.subrange(0, 12)[2] == b[2] && b.subrange(0, 12)[3] == b[3]);
}

proof fn lemma_answer_with_pointer(r: Responder, ttl: Option<u32>)
    requires
        name_bytes(r.instance_fqdn@).len() <= 0xffff,
        srv_bytes(r.port, r.host_fqdn@).len() <= 0xffff,
        r.addrs@.len() <= 0xffff,
    ensures
        ({
            let b = r.answer_bytes(true, ttl);
            let k = 12 + name_bytes(service()).len() as int;
            let m = k + 10 + name_bytes(r.instance_fqdn@).len() as int;
            let n = m + name_bytes(r.instance_fqdn@).len() as int;
            &&& b[2] == 0x84 && b[3] == 0
            &&& network_value(b.subrange(4, 6)) == 0
            &&& network_value(b.subrange(6, 8)) == 3
            &&& network_value(b.subrange(10, 12)) == r.addrs@.len()
            &&& b.subrange(12, k) == name_bytes(service())
            &&& network_value(b.subrange(k, k + 2)) == 12
            &&& network_value(b.subrange(k + 2, k + 4)) == 1
            &&& network_value(b.subrange(k + 4, k + 8)) == (match ttl {
                Some(t) => t,
                None => 4500,
            })
            &&& b.subrange(k + 10, m) == name_bytes(r.instance_fqdn@)
            &&& b.subrange(m, n) == name_bytes(r.instance_fqdn@)
            &&& network_value(b.subrange(n, n + 2)) == 33
            &&& network_value(b.subrange(n + 2, n + 4)) == 0x8001
            &&& network_value(b.subrange(n + 4, n + 8)) == (match ttl {
                Some(t) => t,
                None => 120,
            })
            &&& network_value(b.subrange(n + 14, n + 16)) == r.port
        }),
{
    let inst = r.instance_fqdn@;
    let tp = match ttl {
        Some(t) => t,
        None => TTL_PTR,
    };
    let th = match ttl {
        Some(t) => t,
        None => TTL_HOST,
    };
    let sd = srv_bytes(r.port, r.host_fqdn@);
    let n = r.addrs@.len();
    let h = header_bytes(0, 0x8400, 0, 3, n as u16);
    let r1 = record_bytes(service(), TYPE_PTR, CLASS_IN, tp, name_bytes(inst));
    let r2 = record_bytes(inst, TYPE_SRV, CLASS_IN_FLUSH, th, sd);
    let r3 = record_bytes(inst, TYPE_TXT, CLASS_IN_FLUSH, th, txt_bytes(strings(r.txt@)));
    let r4 = address_records(r.host_fqdn@, r.addrs@, th);
    lemma_body_layout(h, r1, r2, r3, r4);
    lemma_pointer_part(r.answer_bytes(true, ttl), r, tp, th, h, r1, r2, r3, r4);
}

proof fn lemma_pointer_part(
    b: Seq<u8>,
    r: Responder,
    tp: u32,
    th: u32,
    h: Seq<u8>,
    r1: Seq<u8>,
    r2: Seq<u8>,
    r3: Seq<u8>,
    r4: Seq<u8>,
)
    requires
        name_bytes(r.instance_fqdn@).len() <= 0xffff,
        srv_bytes(r.port, r.host_fqdn@).len() <= 0xffff,
        r.addrs@.len() <= 0xffff,
        parts_are(r, tp, th, r1, r2, r3, r4),
        h == header_bytes(0, 0x8400, 0, 3, r.addrs@.len() as u16),
        holds(b, h, r1, r2, r3, r4),
    ensures
        ({
            let k = 12 + name_bytes(service()).len() as int;
            let m = k + 10 + name_bytes(r.instance_fqdn@).len() as int;
            let n = m + name_bytes(r.instance_fqdn@).len() as int;
            &&& b[2] == 0x84 && b[3] == 0
            &&& network_value(b.subrange(4, 6)) == 0
            &&& network_value(b.subrange(6, 8)) == 3
            &&& network_value(b.subrange(10, 12)) == r.addrs@.len()
            &&& b.subrange(12, k) == name_bytes(service())
            &&& network_value(b.subrange(k, k + 2)) == 12
            &&& network_value(b.subrange(k + 2, k + 4)) == 1
            &&& network_value(b.subrange(k + 4, k + 8)) == tp
            &&& b.subrange(k + 10, m) == name_bytes(r.instance_fqdn@)
            &&& b.subrange(m, n) == name_bytes(r.instance_fqdn@)
            &&& network_value(b.subrange(n, n + 2)) == 33
            &&& network_value(b.subrange(n + 2, n + 4)) == 0x8001
            &&& network_value(b.subrange(n + 4, n + 8)) == th
            &&& network_value(b.subrange(n + 14, n + 16)) == r.port
        }),
{
    let inst = r.instance_fqdn@;
    let sd = srv_bytes(r.port, r.host_fqdn@);
    lemma_answer_header(b, 3, r.addrs@.len() as u16);
    lemma_record_in(b, 12, service(), TYPE_PTR, CLASS_IN, tp, name_bytes(inst));
    let m = 12 + r1.len() as int;
    lemma_record_in(b, m, inst, TYPE_SRV, CLASS_IN_FLUSH, th, sd);
    let d = m + name_bytes(inst).len() + 10;
    lemma_srv_port(b, d, r.port, r.host_fqdn@);
}

proof fn lemma_srv_port(b: Seq<u8>, d: int, port: u16, host: Seq<char>)
    requires
        0 <= d,
        d + srv_bytes(port, host).len() <= b.len(),
        b.subrange(d, d + srv_bytes(port, host).len()) == srv_bytes(port, host),
    ensures
        network_value(b.subrange(d + 4, d + 6)) == port,
{
    lemma_record_layout(host, 0, 0, 0, seq![], port);
    lemma_part_of(b, d, srv_bytes(port, host), 4, 6);
}

/// Bytes that are put behind one another in one way or in the other are the same.
proof fn lemma_two_ways(
    g: Seq<u8>,
    h: Seq<u8>,
    r1: Seq<u8>,
    r2: Seq<u8>,
    r3: Seq<u8>,
    r4: Seq<u8>,
)
    requires
        g.len() == 12,
        h.len() == 12,
    ensures
        ({
            let f = g + (Seq::<u8>::empty() + r2 + r3 + r4);
            &&& f.len() >= 12 + r2.len()
            &&& f.subrange(0, 12) == g
            &&& f.subrange(12, 12 + r2.len() as int) == r2
            &&& f.skip(12) == (h + (r1 + r2 + r3 + r4)).skip(12 + r1.len() as int)
        }),
{
    let f = g + (Seq::<u8>::empty() + r2 + r3 + r4);
    assert(f.subrange(0, 12) =~= g);
    assert(f.subrange(12, 12 + r2.len() as int) =~= r2);
    assert(f.skip(12) =~= (h + (r1 + r2 + r3 + r4)).skip(12 + r1.len() as int));
}

proof fn lemma_answer_without_pointer(r: Responder, ttl: Option<u32>)
    requires
        name_bytes(r.instance_fqdn@).len() <= 0xffff,
        srv_bytes(r.port, r.host_fqdn@).len() <= 0xffff,
        r.addrs@.len() <= 0xffff,
    ensures
        ({
            let b = r.answer_bytes(false, ttl);
            let n = 12 + name_bytes(r.instance_fqdn@).len() as int;
            &&& b[2] == 0x84 && b[3] == 0
            &&& network_value(b.subrange(4, 6)) == 0
            &&& network_value(b.subrange(6, 8)) == 2
            &&& network_value(b.subrange(10, 12)) == r.addrs@.len()
            &&& b.subrange(12, n) == name_bytes(r.instance_fqdn@)
            &&& b.skip(12) == r.answer_bytes(true, ttl).skip(
                22 + name_bytes(service()).len() as int + name_bytes(r.instance_fqdn@).len(),
            )
        }),
{
    let inst = r.instance_fqdn@;
    let tp = match ttl {
        Some(t) => t,
        None => TTL_PTR,
    };
    let th = match ttl {
        Some(t) => t,
        None => TTL_HOST,
    };
    let sd = srv_bytes(r.port, r.host_fqdn@);
    let r1 = record_bytes(service(), TYPE_PTR, CLASS_IN, tp, name_bytes(inst));
    let r2 = record_bytes(inst, TYPE_SRV, CLASS_IN_FLUSH, th, sd);
    let r3 = record_bytes(inst, TYPE_TXT, CLASS_IN_FLUSH, th, txt_bytes(strings(r.txt@)));
    let r4 = address_records(r.host_fqdn@, r.addrs@, th);
    let h = header_bytes(0, 0x8400, 0, 3, r.addrs@.len() as u16);
    let g = header_bytes(0, 0x8400, 0, 2, r.addrs@.len() as u16);
    let f = r.answer_bytes(false, ttl);
    lemma_packet_header_layout(0, 0x8400, 0, 3, r.addrs@.len() as u16);
    lemma_packet_header_layout(0, 0x8400, 0, 2, r.addrs@.len() as u16);
    lemma_two_ways(g, h, r1, r2, r3, r4);
    assert(f == g + (Seq::<u8>::empty() + r2 + r3 + r4));
    assert(r.answer_bytes(true, ttl) == h + (r1 + r2 + r3 + r4));
    lemma_no_pointer_part(f, r, tp, th, g, r1, r2);
}

proof fn lemma_no_pointer_part(
    f: Seq<u8>,
    r: Responder,
    tp: u32,
    th: u32,
    g: Seq<u8>,
    r1: Seq<u8>,
    r2: Seq<u8>,
)
    requires
        name_bytes(r.instance_fqdn@).len() <= 0xffff,
        srv_bytes(r.port, r.host_fqdn@).len() <= 0xffff,
        r.addrs@.len() <= 0xffff,
        g == header_bytes(0, 0x8400, 0, 2, r.addrs@.len() as u16),
        r1 == record_bytes(service(), TYPE_PTR, CLASS_IN, tp, name_bytes(r.instance_fqdn@)),
        r2 == record_bytes(
            r.instance_fqdn@,
            TYPE_SRV,
            CLASS_IN_FLUSH,
            th,
            srv_bytes(r.port, r.host_fqdn@),
        ),
        f.len() >= 12 + r2.len(),
        f.subrange(0, 12) == g,
        f.subrange(12, 12 + r2.len() as int) == r2,
    ensures
        f[2] == 0x84 && f[3] == 0,
        network_value(f.subrange(4, 6)) == 0,
        network_value(f.subrange(6, 8)) == 2,
        network_value(f.subrange(10, 12)) == r.addrs@.len(),
        f.subrange(12, 12 + name_bytes(r.instance_fqdn@).len() as int) == name_bytes(
            r.instance_fqdn@,
        ),
        r1.len() == name_bytes(service()).len() + 10 + name_bytes(r.instance_fqdn@).len(),
{
    let inst = r.instance_fqdn@;
    let sd = srv_bytes(r.port, r.host_fqdn@);
    lemma_answer_header(f, 2, r.addrs@.len() as u16);
    lemma_record_in(f, 12, inst, TYPE_SRV, CLASS_IN_FLUSH, th, sd);
    lemma_record_layout(service(), TYPE_PTR, CLASS_IN, tp, name_bytes(inst), 0);
}

/// What one question adds to what a packet asks: it asks for the service if it has its
/// name and the type of a pointer or any; about us if it has the instance's name and the
/// type of a service, of strings or any, or the host's and the type of an address or any;
/// and for a reply to its sender if the top bit of its class is set. The names are compared
/// without regard to the case of letters.
pub proof fn lemma_what_a_question_asks(
    r: Responder,
    buf: Seq<u8>,
    pos: int,
    n: nat,
    had: (bool, bool, bool),
    name: Seq<char>,
    qtype: u16,
    qclass: u16,
)
    requires
        plain_name(name),
        0 <= pos,
        pos + question_bytes(name, qtype, qclass).len() <= buf.len(),
        buf.subrange(pos, pos + question_bytes(name, qtype, qclass).len()) == question_bytes(
            name,
            qtype,
            qclass,
        ),
        !same_name(name, service()),
    ensures
        ({
            let next = pos + name_bytes(name).len() + 4;
            let us = same_name(name, r.instance_fqdn@) && (qtype == 33 || qtype == 16 || qtype
                == 255) || same_name(name, r.host_fqdn@) && (qtype == 1 || qtype == 255);
            r.asked(buf, pos, n + 1, had) == r.asked(
                buf,
                next,
                n,
                (had.0, had.1 || us, had.2 || qclass >= 0x8000),
            )
        }),
{
    lemma_service_is_lowered();
    lemma_question_is_read(buf, pos, name, qtype, qclass);
}

/// A question for the service, in letters of any case.
pub proof fn lemma_what_a_question_for_the_service_asks(
    r: Responder,
    buf: Seq<u8>,
    pos: int,
    n: nat,
    had: (bool, bool, bool),
    name: Seq<char>,
    qtype: u16,
    qclass: u16,
)
    requires
        plain_name(name),
        0 <= pos,
        pos + question_bytes(name, qtype, qclass).len() <= buf.len(),
        buf.subrange(pos, pos + question_bytes(name, qtype, qclass).len()) == question_bytes(
            name,
            qtype,
            qclass,
        ),
        same_name(name, service()),
        qtype == 12 || qtype == 255,
    ensures
        r.asked(buf, pos, n + 1, had) == r.asked(
            buf,
            pos + name_bytes(name).len() + 4,
            n,
            (true, had.1, had.2 || qclass >= 0x8000),
        ),
{
    lemma_service_is_lowered();
    lemma_question_is_read(buf, pos, name, qtype, qclass);
}

proof fn lemma_service_is_lowered()
    ensures
        lowered(service()) == service(),
{
    reveal_strlit("_usbip._tcp.local");
    assert(lowered(service()) =~= service());
}

proof fn lemma_question_is_read(
    buf: Seq<u8>,
    pos: int,
    name: Seq<char>,
    qtype: u16,
    qclass: u16,
)
    requires
        plain_name(name),
        0 <= pos,
        pos + question_bytes(name, qtype, qclass).len() <= buf.len(),
        buf.subrange(pos, pos + question_bytes(name, qtype, qclass).len()) == question_bytes(
            name,
            qtype,
            qclass,
        ),
    ensures
        ({
            let k = name_bytes(name).len() as int;
            &&& question_bytes(name, qtype, qclass).len() == k + 4
            &&& name_at(buf, pos) == Some(name)
            &&& name_end(buf, pos) == pos + k
            &&& u16_at(buf, pos + k) == qtype
            &&& u16_at(buf, pos + k + 2) == qclass
        }),
{
    let s = question_bytes(name, qtype, qclass);
    let k = name_bytes(name).len() as int;
    assert(s.subrange(0, k) =~= name_bytes(name));
    lemma_part_of(buf, pos, s, 0, k);
    lemma_name_reads_back(buf, pos, name);
    assert(s.subrange(k, k + 2) =~= be16(qtype));
    lemma_part_of(buf, pos, s, k, k + 2);
    lemma_be16_reads_back(buf, pos + k, qtype);
    assert(s.subrange(k + 2, k + 4) =~= be16(qclass));
    lemma_part_of(buf, pos, s, k + 2, k + 4);
    lemma_be16_reads_back(buf, pos + k + 2, qclass);
}

/// Every responder answers the query that a browser sends, with the record of the service
/// and to the browser alone.
pub proof fn lemma_every_responder_answers_the_query(r: Responder)
    ensures
        r.questions_in(
            header_bytes(0, 0, 1, 0, 0) + question_bytes(service(), TYPE_PTR, CLASS_IN_FLUSH),
        ) == Some((true, false, true)),
{
    let h = header_bytes(0, 0, 1, 0, 0);
    let q = question_bytes(service(), TYPE_PTR, CLASS_IN_FLUSH);
    let b = h + q;
    assert(b.subrange(0, 12) =~= h);
    lemma_counts_are_read(b, 0, 1, 0, 0);
    assert(b.subrange(2, 4) =~= be16(0));
    lemma_be16_reads_back(b, 2, 0);
    assert(b.subrange(12, 12 + q.len() as int) =~= q);
    lemma_service_is_plain();
    lemma_what_a_question_for_the_service_asks(
        r,
        b,
        12,
        0,
        (false, false, false),
        service(),
        TYPE_PTR,
        CLASS_IN_FLUSH,
    );
}

/// A packet with the response bit, or shorter than a header, asks nothing; one without
/// questions asks for nothing.
pub proof fn lemma_what_asks_nothing(r: Responder, b: Seq<u8>)
    ensures
        b.len() < 12 ==> r.questions_in(b) is None,
        b.len() >= 12 && b[2] >= 128 ==> r.questions_in(b) is None,
        b.len() >= 12 && b[2] < 128 && b[4] == 0 && b[5] == 0 ==> r.questions_in(b) == Some(
            (false, false, false),
        ),
{
}

/// A name that is a pointer to another is that name, and what follows begins behind the
/// two bytes of the pointer: they hold the place of the name, counted from the start of
/// the packet, below two bits that are set.
pub proof fn lemma_a_pointer_leads_to_the_name(buf: Seq<u8>, p: int, q: int, name: Seq<char>)
    requires
        plain_name(name),
        0 <= p && p + 2 <= buf.len(),
        0 <= q < 0x4000,
        network_value(buf.subrange(p, p + 2)) == 0xc000 + q,
        q + name_bytes(name).len() <= buf.len(),
        buf.subrange(q, q + name_bytes(name).len()) == name_bytes(name),
    ensures
        name_at(buf, p) == Some(name),
        name_end(buf, p) == p + 2,
{
    lemma_read_in_network_byte_order(buf, p);
    reveal_with_fuel(name_from, 2);
    lemma_name_from(buf, q, name, seq![], 1);
    assert(buf[p] * 0x100 + buf[p + 1] == 0xc000 + q);
    assert(buf[p] >= 0xc0);
    assert(pointer(buf, p) == q);
}

/// The same behind a label: the label, a dot, and the name that the pointer leads to.
pub proof fn lemma_a_label_and_a_pointer(
    buf: Seq<u8>,
    p: int,
    label: Seq<char>,
    q: int,
    name: Seq<char>,
)
    requires
        plain_name(name),
        0 < encode_utf8(label).len() <= 63,
        0 <= q < 0x4000,
        q + name_bytes(name).len() <= buf.len(),
        buf.subrange(q, q + name_bytes(name).len()) == name_bytes(name),
        0 <= p && p + 3 + encode_utf8(label).len() <= buf.len(),
        buf[p] == encode_utf8(label).len(),
        buf.subrange(p + 1, p + 1 + encode_utf8(label).len()) == encode_utf8(label),
        network_value(
            buf.subrange(
                p + 1 + encode_utf8(label).len(),
                p + 3 + encode_utf8(label).len(),
            ),
        ) == 0xc000 + q,
    ensures
        name_at(buf, p) == Some(label + seq!['.'] + name),
        name_end(buf, p) == p + 3 + encode_utf8(label).len(),
{
    let n = encode_utf8(label).len() as int;
    let at = p + 1 + n;
    encode_utf8_valid_utf8(label);
    encode_utf8_decode_utf8(label);
    lemma_encoded_len(label);
    lemma_read_in_network_byte_order(buf, at);
    assert(buf[at] * 0x100 + buf[at + 1] == 0xc000 + q);
    assert(buf[at] >= 0xc0);
    assert(pointer(buf, at) == q);
    reveal_with_fuel(name_from, 3);
    reveal_with_fuel(name_end, 3);
    assert(with_label(seq![], encode_utf8(label)) == label);
    lemma_name_from(buf, q, name, label, 1);
    assert(name_from(buf, at, 0, label) == name_from(buf, q, 1, label));
}

/// A pointer to itself is no name, so that reading ends.
pub proof fn lemma_a_pointer_loop_is_no_name(buf: Seq<u8>, p: int)
    requires
        0 <= p && p + 2 <= buf.len(),
        network_value(buf.subrange(p, p + 2)) == 0xc000 + p,
    ensures
        name_at(buf, p) is None,
{
    lemma_read_in_network_byte_order(buf, p);
    assert(buf[p] * 0x100 + buf[p + 1] == 0xc000 + p);
    assert(buf[p] >= 0xc0);
    lemma_loops_end(buf, p, 0);
}

proof fn lemma_loops_end(buf: Seq<u8>, p: int, hops: nat)
    requires
        0 <= p && p + 2 <= buf.len(),
        buf[p] >= 0xc0,
        pointer(buf, p) == p,
    ensures
        name_from(buf, p, hops, seq![]) is None,
    decreases MAX_HOPS + 1 - hops,
{
    if hops < MAX_HOPS {
        lemma_loops_end(buf, p, hops + 1);
    }
}

/// Names on the wire follow each other label by label, so that a name and a longer one
/// that ends in it end in the same bytes; a dot at the end adds nothing. A label is cut at
/// 63 bytes, and a string of a TXT record at 255.
pub proof fn lemma_names_on_the_wire(a: Seq<char>, b: Seq<char>, l: Seq<char>)
    requires
        l.len() > 0,
        forall|k: int| 0 <= k < l.len() ==> l[k] != '.',
    ensures
        name_bytes(a + seq!['.'] + b) == name_bytes(a).drop_last() + name_bytes(b),
        name_bytes(a + seq!['.']) == name_bytes(a),
        name_bytes(a).len() > 0 && name_bytes(a).last() == 0,
        ({
            let u = encode_utf8(l);
            &&& u.len() <= 63 ==> name_bytes(l) == seq![u.len() as u8] + u + seq![0u8]
            &&& u.len() > 63 ==> name_bytes(l) == seq![63u8] + u.take(63) + seq![0u8]
            &&& u.len() <= 255 ==> txt_bytes(seq![l]) == seq![u.len() as u8] + u
            &&& u.len() > 255 ==> txt_bytes(seq![l]) == seq![255u8] + u.take(255)
        }),
{
    lemma_pieces_joined(a, b, '.');
    lemma_labels_joined(pieces(a, '.'), pieces(b, '.'));
    let none = Seq::<char>::empty();
    lemma_pieces_joined(a, none, '.');
    assert(a + seq!['.'] + none =~= a + seq!['.']);
    assert(pieces(none, '.') =~= seq![none]);
    lemma_labels_joined(pieces(a, '.'), seq![none]);
    reveal_with_fuel(not_empty, 3);
    reveal_with_fuel(labels_bytes, 3);
    assert(not_empty(seq![none]) =~= Seq::empty()) by {
        assert(seq![none].drop_first() =~= Seq::empty());
    }
    assert(name_bytes(a).drop_last() + seq![0u8] =~= name_bytes(a));
    lemma_before_is(l, '.', l.len() as int);
    assert(pieces(l, '.') =~= seq![l]);
    assert(seq![l].drop_first() =~= Seq::empty());
    assert(not_empty(seq![l]) =~= seq![l]);
    let u = encode_utf8(l);
    assert(u.take(u.len() as int) =~= u);
    assert(name_bytes(l) =~= label_bytes(l) + seq![0u8]);
    reveal_with_fuel(entries_bytes, 2);
    assert(txt_bytes(seq![l]) =~= entry_bytes(l));
}

proof fn lemma_labels_joined(a: Seq<Seq<char>>, b: Seq<Seq<char>>)
    ensures
        labels_bytes(not_empty(a)).len() > 0,
        labels_bytes(not_empty(a)).last() == 0,
        labels_bytes(not_empty(a + b)) == labels_bytes(not_empty(a)).drop_last() + labels_bytes(
            not_empty(b),
        ),
    decreases a.len(),
{
    reveal_with_fuel(labels_bytes, 2);
    if a.len() == 0 {
        assert(a + b =~= b);
        assert(labels_bytes(not_empty(a)) =~= seq![0u8]);
        assert(seq![0u8].drop_last() + labels_bytes(not_empty(b)) =~= labels_bytes(not_empty(b)));
    } else {
        let rest = a.drop_first();
        lemma_labels_joined(rest, b);
        assert((a + b).drop_first() =~= rest + b);
        if a[0].len() > 0 {
            let x = not_empty(rest);
            let y = not_empty(rest + b);
            assert((seq![a[0]] + x).drop_first() =~= x);
            assert((seq![a[0]] + y).drop_first() =~= y);
            let l = label_bytes(a[0]);
            assert(labels_bytes(not_empty(a)) =~= l + labels_bytes(x));
            assert(labels_bytes(not_empty(a + b)) =~= l + labels_bytes(y));
            assert((l + labels_bytes(x)).drop_last() =~= l + labels_bytes(x).drop_last());
        }
    }
}

/// An exporter that announces itself is discovered, once, under the name that it was given,
/// with its host, its port, all its addresses in order and its strings.
pub proof fn lemma_an_exporter_is_discovered(r: Responder, name: Seq<char>, ttl: Option<u32>)
    requires
        can_be_read(r),
        r.instance_fqdn@ == name + "._usbip._tcp.local"@,
        name.len() < 18 || name.skip(name.len() - 18) != "._usbip._tcp.local"@,
    ensures
        ({
            let f = no_findings().with_packet(r.answer_bytes(true, ttl)).0;
            f.exporters(f.instances) == seq![
                Exporter {
                    instance: name,
                    host: r.host_fqdn@,
                    port: r.port,
                    addrs: r.addrs@.map_values(|a: [u8; 4]| a@),
                    txt: strings(r.txt@),
                },
            ]
        }),
{
    reveal_strlit("._usbip._tcp.local");
    let suffix = "._usbip._tcp.local"@;
    let inst = r.instance_fqdn@;
    lemma_an_announcement_is_found(r, ttl);
    let f = announced(r);
    assert(inst.skip(name.len() as int) =~= suffix);
    assert(inst.take(name.len() as int) =~= name);
    assert(without_suffix(name, suffix) == name);
    assert(without_suffix(inst, suffix) == name);
    assert(f.srv[0] == (inst, r.port, r.host_fqdn@));
    assert(f.txts[0] == (inst, strings(r.txt@)));
    lemma_own_addresses(r.host_fqdn@, r.addrs@);
    let e = f.exporter(inst)->Some_0;
    assert(f.instances.drop_last() =~= Seq::empty());
    assert(f.exporters(Seq::empty()) =~= Seq::empty());
    assert(f.exporters(f.instances) =~= seq![e]);
}

proof fn lemma_own_addresses(host: Seq<char>, addrs: Seq<[u8; 4]>)
    ensures
        addrs_of(addrs.map_values(|a: [u8; 4]| (host, a@)), host) == addrs.map_values(
            |a: [u8; 4]| a@,
        ),
    decreases addrs.len(),
{
    let named = addrs.map_values(|a: [u8; 4]| (host, a@));
    if addrs.len() > 0 {
        lemma_own_addresses(host, addrs.drop_last());
        assert(named.drop_last() =~= addrs.drop_last().map_values(|a: [u8; 4]| (host, a@)));
    }
    assert(addrs_of(named, host) =~= addrs.map_values(|a: [u8; 4]| a@));
}

/// The instance is shown without the service that it ends in, however often it does.
pub proof fn lemma_names_are_shown_without_the_service(s: Seq<char>, suffix: Seq<char>)
    requires
        suffix.len() > 0,
    ensures
        without_suffix(s + suffix, suffix) == without_suffix(s, suffix),
        s.len() < suffix.len() || s.skip(s.len() - suffix.len()) != suffix ==> without_suffix(
            s,
            suffix,
        ) == s,
{
    let t = s + suffix;
    assert(t.skip(s.len() as int) =~= suffix);
    assert(t.take(s.len() as int) =~= s);
}

/// Where an instance is, and its strings, is what was said first of its very name; its
/// addresses are all that were said of its host, in order, in letters of any case.
pub proof fn lemma_what_was_said_first(
    srv: Seq<(Seq<char>, u16, Seq<char>)>,
    txts: Seq<(Seq<char>, Seq<Seq<char>>)>,
    addrs: Seq<(Seq<char>, Seq<u8>)>,
    name: Seq<char>,
    i: int,
)
    ensures
        0 <= i < srv.len() && srv[i].0 == name && (forall|k: int|
            0 <= k < i ==> (#[trigger] srv[k]).0 != name) ==> first_srv(srv, name) == Some(
            (srv[i].1, srv[i].2),
        ),
        (forall|k: int| 0 <= k < srv.len() ==> (#[trigger] srv[k]).0 != name) ==> first_srv(
            srv,
            name,
        ) is None,
        0 <= i < txts.len() && txts[i].0 == name && (forall|k: int|
            0 <= k < i ==> (#[trigger] txts[k]).0 != name) ==> first_txt(txts, name) == txts[i].1,
        (forall|k: int| 0 <= k < txts.len() ==> (#[trigger] txts[k]).0 != name) ==> first_txt(
            txts,
            name,
        ) == Seq::<Seq<char>>::empty(),
        addrs_of(addrs, name) == addrs.filter(
            |a: (Seq<char>, Seq<u8>)| lowered(a.0) == lowered(name),
        ).map_values(|a: (Seq<char>, Seq<u8>)| a.1),
{
    lemma_first_srv_is(srv, name, i);
    lemma_first_txt_is(txts, name, i);
    lemma_addrs_filtered(addrs, name);
}

proof fn lemma_first_srv_is(srv: Seq<(Seq<char>, u16, Seq<char>)>, name: Seq<char>, i: int)
    ensures
        0 <= i < srv.len() && srv[i].0 == name && (forall|k: int|
            0 <= k < i ==> (#[trigger] srv[k]).0 != name) ==> first_srv(srv, name) == Some(
            (srv[i].1, srv[i].2),
        ),
        (forall|k: int| 0 <= k < srv.len() ==> (#[trigger] srv[k]).0 != name) ==> first_srv(
            srv,
            name,
        ) is None,
    decreases srv.len(),
{
    if srv.len() > 0 && srv[0].0 != name {
        let rest = srv.drop_first();
        lemma_first_srv_is(rest, name, i - 1);
        assert forall|k: int| 0 <= k < rest.len() implies #[trigger] rest[k] == srv[k + 1] by {}
        if forall|k: int| 0 <= k < i ==> (#[trigger] srv[k]).0 != name {
            assert forall|k: int| 0 <= k < i - 1 && k < rest.len() implies (#[trigger] rest[k]).0
                != name by {
                assert(rest[k] == srv[k + 1]);
            }
        }
        if forall|k: int| 0 <= k < srv.len() ==> (#[trigger] srv[k]).0 != name {
            assert forall|k: int| 0 <= k < rest.len() implies (#[trigger] rest[k]).0 != name by {
                assert(rest[k] == srv[k + 1]);
            }
        }
    }
}

proof fn lemma_first_txt_is(txts: Seq<(Seq<char>, Seq<Seq<char>>)>, name: Seq<char>, i: int)
    ensures
        0 <= i < txts.len() && txts[i].0 == name && (forall|k: int|
            0 <= k < i ==> (#[trigger] txts[k]).0 != name) ==> first_txt(txts, name) == txts[i].1,
        (forall|k: int| 0 <= k < txts.len() ==> (#[trigger] txts[k]).0 != name) ==> first_txt(
            txts,
            name,
        ) == Seq::<Seq<char>>::empty(),
    decreases txts.len(),
{
    if txts.len() > 0 && txts[0].0 != name {
        let rest = txts.drop_first();
        lemma_first_txt_is(rest, name, i - 1);
        if forall|k: int| 0 <= k < i ==> (#[trigger] txts[k]).0 != name {
            assert forall|k: int| 0 <= k < i - 1 && k < rest.len() implies (#[trigger] rest[k]).0
                != name by {
                assert(rest[k] == txts[k + 1]);
            }
        }
        if forall|k: int| 0 <= k < txts.len() ==> (#[trigger] txts[k]).0 != name {
            assert forall|k: int| 0 <= k < rest.len() implies (#[trigger] rest[k]).0 != name by {
                assert(rest[k] == txts[k + 1]);
            }
        }
    }
}

proof fn lemma_addrs_filtered(addrs: Seq<(Seq<char>, Seq<u8>)>, name: Seq<char>)
    ensures
        addrs_of(addrs, name) == addrs.filter(
            |a: (Seq<char>, Seq<u8>)| lowered(a.0) == lowered(name),
        ).map_values(|a: (Seq<char>, Seq<u8>)| a.1),
    decreases addrs.len(),
{
    reveal(Seq::filter);
    let keep = |a: (Seq<char>, Seq<u8>)| lowered(a.0) == lowered(name);
    let give = |a: (Seq<char>, Seq<u8>)| a.1;
    if addrs.len() > 0 {
        lemma_addrs_filtered(addrs.drop_last(), name);
    }
    assert(addrs_of(addrs, name) =~= addrs.filter(keep).map_values(give));
}

/// What is listed: every instance whose port and host are known, in order, each with its
/// own name, as long as no two of them are shown under the same name.
pub proof fn lemma_every_exporter_is_listed(f: Findings, insts: Seq<Seq<char>>)
    requires
        forall|i: int, j: int|
            0 <= i < j < insts.len() ==> without_suffix(
                #[trigger] insts[i],
                "._usbip._tcp.local"@,
            ) != without_suffix(#[trigger] insts[j], "._usbip._tcp.local"@),
    ensures
        f.exporters(insts) == insts.filter(
            |n: Seq<char>| first_srv(f.srv, n) is Some,
        ).map_values(
            |n: Seq<char>|
                Exporter {
                    instance: without_suffix(n, "._usbip._tcp.local"@),
                    host: first_srv(f.srv, n)->Some_0.1,
                    port: first_srv(f.srv, n)->Some_0.0,
                    addrs: addrs_of(f.addrs, first_srv(f.srv, n)->Some_0.1),
                    txt: first_txt(f.txts, n),
                },
        ),
        forall|k: int|
            0 <= k < f.exporters(insts).len() ==> exists|i: int|
                0 <= i < insts.len() && #[trigger] f.exporters(insts)[k].instance
                    == without_suffix(#[trigger] insts[i], "._usbip._tcp.local"@),
    decreases insts.len(),
{
    reveal(Seq::filter);
    let suffix = "._usbip._tcp.local"@;
    let keep = |n: Seq<char>| first_srv(f.srv, n) is Some;
    let give = |n: Seq<char>|
        Exporter {
            instance: without_suffix(n, suffix),
            host: first_srv(f.srv, n)->Some_0.1,
            port: first_srv(f.srv, n)->Some_0.0,
            addrs: addrs_of(f.addrs, first_srv(f.srv, n)->Some_0.1),
            txt: first_txt(f.txts, n),
        };
    if insts.len() > 0 {
        let init = insts.drop_last();
        let last = insts.last();
        assert forall|i: int, j: int| 0 <= i < j < init.len() implies without_suffix(
            #[trigger] init[i],
            suffix,
        ) != without_suffix(#[trigger] init[j], suffix) by {
            assert(init[i] == insts[i] && init[j] == insts[j]);
        }
        lemma_every_exporter_is_listed(f, init);
        let rest = f.exporters(init);
        let all = f.exporters(insts);
        if rest.len() > 0 {
            let i = choose|i: int|
                0 <= i < init.len() && rest[rest.len() - 1].instance == without_suffix(
                    #[trigger] init[i],
                    suffix,
                );
            assert(init[i] == insts[i] && insts[insts.len() - 1] == last);
        }
        assert forall|k: int| 0 <= k < all.len() implies exists|i: int|
            0 <= i < insts.len() && #[trigger] all[k].instance == without_suffix(
                #[trigger] insts[i],
                suffix,
            ) by {
            if k < rest.len() {
                assert(all[k] == rest[k]);
                let i = choose|i: int|
                    0 <= i < init.len() && rest[k].instance == without_suffix(
                        #[trigger] init[i],
                        suffix,
                    );
                assert(init[i] == insts[i]);
            } else {
                assert(insts[insts.len() - 1] == last);
            }
        }
    }
    assert(f.exporters(insts) =~= insts.filter(keep).map_values(give));
}

/// What was found stays: a packet only adds to it, and never an instance that is known in
/// letters of whatever case.
pub proof fn lemma_findings_stay(f: Findings, buf: Seq<u8>)
    ensures
        ({
            let g = f.with_packet(buf).0;
            &&& f.instances.is_prefix_of(g.instances)
            &&& f.srv.is_prefix_of(g.srv)
            &&& f.txts.is_prefix_of(g.txts)
            &&& f.addrs.is_prefix_of(g.addrs)
            &&& (forall|i: int, j: int|
                0 <= i < j < f.instances.len() ==> lowered(#[trigger] f.instances[i]) != lowered(
                    #[trigger] f.instances[j],
                )) ==> (forall|i: int, j: int|
                0 <= i < j < g.instances.len() ==> lowered(#[trigger] g.instances[i]) != lowered(
                    #[trigger] g.instances[j],
                ))
        }),
{
    if buf.len() >= 12 {
        match after_questions(buf, 12, u16_at(buf, 4) as nat) {
            Some(pos) => lemma_records_stay(
                f,
                buf,
                pos,
                (u16_at(buf, 6) + u16_at(buf, 8) + u16_at(buf, 10)) as nat,
            ),
            None => {},
        }
    }
}

proof fn lemma_records_stay(f: Findings, buf: Seq<u8>, pos: int, n: nat)
    ensures
        ({
            let g = f.with_records(buf, pos, n).0;
            &&& f.instances.is_prefix_of(g.instances)
            &&& f.srv.is_prefix_of(g.srv)
            &&& f.txts.is_prefix_of(g.txts)
            &&& f.addrs.is_prefix_of(g.addrs)
            &&& (forall|i: int, j: int|
                0 <= i < j < f.instances.len() ==> lowered(#[trigger] f.instances[i]) != lowered(
                    #[trigger] f.instances[j],
                )) ==> (forall|i: int, j: int|
                0 <= i < j < g.instances.len() ==> lowered(#[trigger] g.instances[i]) != lowered(
                    #[trigger] g.instances[j],
                ))
        }),
    decreases n,
{
    if n > 0 {
        match name_at(buf, pos) {
            None => {},
            Some(name) => {
                let at = name_end(buf, pos);
                let len = u16_at(buf, at + 8) as int;
                if at + 10 > buf.len() || at + 10 + len > buf.len() {
                } else {
                    let h = f.with_record(buf, name, u16_at(buf, at), at + 10, len);
                    lemma_record_stays(f, buf, name, u16_at(buf, at), at + 10, len);
                    lemma_records_stay(h, buf, at + 10 + len, (n - 1) as nat);
                    let g = f.with_records(buf, pos, n).0;
                    lemma_prefixes(f.instances, h.instances, g.instances);
                    lemma_prefixes(f.srv, h.srv, g.srv);
                    lemma_prefixes(f.txts, h.txts, g.txts);
                    lemma_prefixes(f.addrs, h.addrs, g.addrs);
                }
            },
        }
    }
}

proof fn lemma_prefixes<A>(a: Seq<A>, b: Seq<A>, c: Seq<A>)
    requires
        a.is_prefix_of(b),
        b.is_prefix_of(c),
    ensures
        a.is_prefix_of(c),
{
    assert(a =~= c.take(a.len() as int)) by {
        assert(a == b.take(a.len() as int));
        assert(b == c.take(b.len() as int));
    }
}

proof fn lemma_record_stays(
    f: Findings,
    buf: Seq<u8>,
    name: Seq<char>,
    rtype: u16,
    at: int,
    len: int,
)
    ensures
        ({
            let g = f.with_record(buf, name, rtype, at, len);
            &&& f.instances.is_prefix_of(g.instances)
            &&& f.srv.is_prefix_of(g.srv)
            &&& f.txts.is_prefix_of(g.txts)
            &&& f.addrs.is_prefix_of(g.addrs)
            &&& (forall|i: int, j: int|
                0 <= i < j < f.instances.len() ==> lowered(#[trigger] f.instances[i]) != lowered(
                    #[trigger] f.instances[j],
                )) ==> (forall|i: int, j: int|
                0 <= i < j < g.instances.len() ==> lowered(#[trigger] g.instances[i]) != lowered(
                    #[trigger] g.instances[j],
                ))
        }),
{
    let g = f.with_record(buf, name, rtype, at, len);
    assert(f.instances =~= g.instances.take(f.instances.len() as int));
    assert(f.srv =~= g.srv.take(f.srv.len() as int));
    assert(f.txts =~= g.txts.take(f.txts.len() as int));
    assert(f.addrs =~= g.addrs.take(f.addrs.len() as int));
    if g.instances != f.instances {
        let t = name_at(buf, at)->Some_0;
        assert(!knows(f.instances, t));
        if forall|i: int, j: int|
            0 <= i < j < f.instances.len() ==> lowered(#[trigger] f.instances[i]) != lowered(
                #[trigger] f.instances[j],
            ) {
            assert forall|i: int, j: int| 0 <= i < j < g.instances.len() implies lowered(
                #[trigger] g.instances[i],
            ) != lowered(#[trigger] g.instances[j]) by {
                assert(g.instances[i] == f.instances[i]);
                if j < f.instances.len() {
                    assert(g.instances[j] == f.instances[j]);
                } else {
                    assert(!same_name(f.instances[i], t));
                }
            }
        }
    }
}

/// What a record says of what: a pointer from the service names an instance, a record of
/// type 33 has the port in the fifth and sixth byte of its data and the host behind them,
/// one of type 16 has strings, and one of type 1 with four bytes an address.
pub proof fn lemma_what_a_record_says(
    f: Findings,
    buf: Seq<u8>,
    name: Seq<char>,
    rtype: u16,
    at: int,
    len: int,
)
    requires
        0 <= at && 0 <= len && at + len <= buf.len(),
    ensures
        ({
            let g = f.with_record(buf, name, rtype, at, len);
            &&& g.srv != f.srv ==> rtype == 33 && g.srv.last().0 == name && g.srv.last().1
                == network_value(buf.subrange(at + 4, at + 6)) && Some(g.srv.last().2) == name_at(
                buf,
                at + 6,
            )
            &&& rtype == 33 && len >= 7 && name_at(buf, at + 6) is Some ==> g.srv.len()
                == f.srv.len() + 1
            &&& g.addrs != f.addrs ==> rtype == 1 && len == 4 && g.addrs.last() == (
                name,
                buf.subrange(at, at + len),
            )
            &&& rtype == 1 && len == 4 ==> g.addrs.len() == f.addrs.len() + 1
            &&& g.txts != f.txts ==> rtype == 16 && g.txts.last().0 == name
            &&& rtype == 16 ==> g.txts.len() == f.txts.len() + 1
            &&& g.instances != f.instances ==> rtype == 12 && lowered(name) == lowered(service())
                && Some(g.instances.last()) == name_at(buf, at)
            &&& rtype == 12 && lowered(name) == lowered(service()) ==> (name_at(
                buf,
                at,
            ) matches Some(t) ==> exists|i: int|
                0 <= i < g.instances.len() && lowered(#[trigger] g.instances[i]) == lowered(t))
        }),
{
    if rtype == 33 && len >= 7 {
        lemma_read_in_network_byte_order(buf, at + 4);
    }
    let g = f.with_record(buf, name, rtype, at, len);
    if rtype == 12 && lowered(name) == lowered(service()) {
        match name_at(buf, at) {
            Some(t) => {
                if knows(f.instances, t) {
                    let i = choose|i: int|
                        0 <= i < f.instances.len() && same_name(#[trigger] f.instances[i], t);
                    assert(lowered(g.instances[i]) == lowered(t));
                } else {
                    assert(g.instances[f.instances.len() as int] == t);
                }
            },
            None => {},
        }
    }
}

/// An address is shown as its four bytes in decimal, with dots between them.
pub proof fn lemma_addresses_are_shown_dotted(a: Seq<u8>, i: int)
    requires
        a.len() == 4,
        0 <= i < 4,
    ensures
        pieces(v4_text(a), '.').len() == 4,
        digits_value(pieces(v4_text(a), '.')[i], 10) == a[i],
{
    reveal_strlit(".");
    assert("."@ =~= seq!['.']);
    lemma_no_dot_in(a[0]);
    lemma_no_dot_in(a[1]);
    lemma_no_dot_in(a[2]);
    lemma_no_dot_in(a[3]);
    let d = |k: int| dec(a[k] as nat);
    let s2 = d(0) + seq!['.'] + d(1);
    let s3 = s2 + seq!['.'] + d(2);
    lemma_pieces_joined(d(0), d(1), '.');
    lemma_pieces_joined(s2, d(2), '.');
    lemma_pieces_joined(s3, d(3), '.');
    assert(v4_text(a) =~= s3 + seq!['.'] + d(3));
    lemma_numeral_value(a[i] as nat, 10);
}

proof fn lemma_no_dot_in(b: u8)
    ensures
        pieces(dec(b as nat), '.') == seq![dec(b as nat)],
{
    let s = dec(b as nat);
    lemma_numeral_value(b as nat, 10);
    assert forall|k: int| 0 <= k < s.len() implies s[k] != '.' by {
        assert(digit_value(s[k], 10) is Some);
    }
    lemma_before_is(s, '.', s.len() as int);
    assert(pieces(s, '.') =~= seq![s]);
}

/// A name may be reached over sixteen pointers, one leading to the next, and over no more.
pub proof fn lemma_how_far_pointers_lead(buf: Seq<u8>, ps: Seq<int>, name: Seq<char>)
    requires
        plain_name(name),
        ps.len() > 0,
        forall|i: int| 0 <= i < ps.len() ==> 0 <= #[trigger] ps[i] < 0x4000,
        forall|i: int|
            0 <= i < ps.len() - 1 ==> (#[trigger] ps[i]) + 2 <= buf.len() && network_value(
                buf.subrange(ps[i], ps[i] + 2),
            ) == 0xc000 + ps[i + 1],
        ps.last() + name_bytes(name).len() <= buf.len(),
        buf.subrange(ps.last(), ps.last() + name_bytes(name).len()) == name_bytes(name),
    ensures
        ps.len() <= 17 ==> name_at(buf, ps[0]) == Some(name),
        ps.len() > 17 ==> name_at(buf, ps[0]) is None,
{
    lemma_hops(buf, ps, name, 0);
}

proof fn lemma_hops(buf: Seq<u8>, ps: Seq<int>, name: Seq<char>, i: int)
    requires
        plain_name(name),
        0 <= i < ps.len(),
        i <= 16,
        forall|i: int| 0 <= i < ps.len() ==> 0 <= #[trigger] ps[i] < 0x4000,
        forall|i: int|
            0 <= i < ps.len() - 1 ==> (#[trigger] ps[i]) + 2 <= buf.len() && network_value(
                buf.subrange(ps[i], ps[i] + 2),
            ) == 0xc000 + ps[i + 1],
        ps.last() + name_bytes(name).len() <= buf.len(),
        buf.subrange(ps.last(), ps.last() + name_bytes(name).len()) == name_bytes(name),
    ensures
        name_from(buf, ps[i], i as nat, seq![]) == (if ps.len() <= 17 {
            Some(name)
        } else {
            None
        }),
    decreases ps.len() - i,
{
    if i == ps.len() - 1 {
        lemma_name_from(buf, ps[i], name, seq![], i as nat);
    } else {
        let p = ps[i];
        lemma_read_in_network_byte_order(buf, p);
        assert(buf[p] * 0x100 + buf[p + 1] == 0xc000 + ps[i + 1]);
        assert(buf[p] >= 0xc0);
        assert(pointer(buf, p) == ps[i + 1]);
        if i < 16 {
            lemma_hops(buf, ps, name, i + 1);
        }
    }
}

} // verus!
