//! Local addresses, specifically "which of these is the tailnet".
//!
//! The exporter binds to the Tailscale address by default. Port 3240 carries
//! plaintext USB traffic — keystrokes and controller input in the general case
//! — so the default must not be reachable from a café network. Tailscale
//! already provides the encryption and identity that would otherwise have to
//! be built here, but only for traffic that actually goes over it.
use crate::text::{
    begins_with, chars, find_char, has_prefix, lemma_before, lemma_before_is, lemma_pieces_joined,
    part, pieces, string,
};
use crate::proto::wire::network_value;
use vstd::prelude::*;
use vstd::string::*;

verus! {

broadcast use {vstd::slice::group_slice_axioms, vstd::array::group_array_axioms};

/// An address by its octets, in network order.
#[derive(Debug, Clone, Copy, PartialEq, Eq)]
pub enum Ip {
    V4([u8; 4]),
    V6([u8; 16]),
}

/// The address that a text spells, if it spells one: four decimal numbers with dots
/// between them, or an IPv6 address in one of its forms.
pub uninterp spec fn spelled_ip(text: Seq<char>) -> Option<Ip>;

/// Calls the `FromStr` of `core::net::IpAddr`, through `str::parse`. Claimed: whether the
/// text spells an address, and which, is a function of its characters. The forms of an
/// address are not spelled out.
#[verifier::external_body]
pub(crate) fn parse_ip(text: &str) -> (r: Option<Ip>)
    ensures
        r == spelled_ip(text@),
{
    match text.parse::<core::net::IpAddr>() {
        Ok(core::net::IpAddr::V4(a)) => Some(Ip::V4(a.octets())),
        Ok(core::net::IpAddr::V6(a)) => Some(Ip::V6(a.octets())),
        Err(_) => None,
    }
}

impl Ip {
    pub fn same(&self, other: &Ip) -> (r: bool)
        ensures
            r == (*self == *other),
    {
        match (self, other) {
            (Ip::V4(a), Ip::V4(b)) => {
                let mut i: usize = 0;
                while i < 4
                    invariant
                        i <= 4,
                        *self == Ip::V4(*a),
                        *other == Ip::V4(*b),
                        forall|j: int| 0 <= j < i ==> a[j] == b[j],
                    decreases 4 - i,
                {
                    if a[i] != b[i] {
                        return false;
                    }
                    i = i + 1;
                }
                assert(*a =~= *b);
                true
            },
            (Ip::V6(a), Ip::V6(b)) => {
                let mut i: usize = 0;
                while i < 16
                    invariant
                        i <= 16,
                        *self == Ip::V6(*a),
                        *other == Ip::V6(*b),
                        forall|j: int| 0 <= j < i ==> a[j] == b[j],
                    decreases 16 - i,
                {
                    if a[i] != b[i] {
                        return false;
                    }
                    i = i + 1;
                }
                assert(*a =~= *b);
                true
            },
            _ => false,
        }
    }
}

#[derive(Debug, Clone, PartialEq, Eq)]
pub struct Interface {
    pub name: String,
    pub addr: Ip,
}

/// CGNAT space, `100.64.0.0/10`, which is where Tailscale hands out IPv4 addresses.
pub open spec fn in_tailscale_v4(a: Seq<u8>) -> bool {
    a[0] == 100 && 64 <= a[1] < 128
}

/// Tailscale's ULA prefix, `fd7a:115c:a1e0::/48`.
pub open spec fn in_tailscale_v6(a: Seq<u8>) -> bool {
    a[0] == 0xfd && a[1] == 0x7a && a[2] == 0x11 && a[3] == 0x5c && a[4] == 0xa1 && a[5] == 0xe0
}

pub fn is_tailscale_v4(a: [u8; 4]) -> (r: bool)
    ensures
        r == in_tailscale_v4(a@),
{
    a[0] == 100 && 64 <= a[1] && a[1] < 128
}

pub fn is_tailscale_v6(a: [u8; 16]) -> (r: bool)
    ensures
        r == in_tailscale_v6(a@),
{
    a[0] == 0xfd && a[1] == 0x7a && a[2] == 0x11 && a[3] == 0x5c && a[4] == 0xa1 && a[5] == 0xe0
}

pub open spec fn in_tailscale(a: Ip) -> bool {
    match a {
        Ip::V4(v4) => in_tailscale_v4(v4@),
        Ip::V6(v6) => in_tailscale_v6(v6@),
    }
}

pub fn is_tailscale_addr(a: &Ip) -> (r: bool)
    ensures
        r == in_tailscale(*a),
{
    match a {
        Ip::V4(v4) => is_tailscale_v4(*v4),
        Ip::V6(v6) => is_tailscale_v6(*v6),
    }
}

/// `127.0.0.0/8` and `::1`.
pub open spec fn in_loopback(a: Ip) -> bool {
    match a {
        Ip::V4(v4) => v4@[0] == 127,
        Ip::V6(v6) => v6@ == Seq::new(15, |i: int| 0u8).push(1u8),
    }
}

fn is_loopback(a: &Ip) -> (r: bool)
    ensures
        r == in_loopback(*a),
{
    match a {
        Ip::V4(v4) => v4[0] == 127,
        Ip::V6(v6) => {
            let mut i: usize = 0;
            while i < 15
                invariant
                    i <= 15,
                    *a == Ip::V6(*v6),
                    forall|j: int| 0 <= j < i ==> v6@[j] == 0,
                decreases 15 - i,
            {
                if v6[i] != 0 {
                    let ghost want = Seq::new(15, |i: int| 0u8).push(1u8);
                    assert(want[i as int] == 0);
                    return false;
                }
                i = i + 1;
            }
            let ghost want = Seq::new(15, |i: int| 0u8).push(1u8);
            assert(want[15] == 1);
            assert(v6@[15] == 1 ==> v6@ =~= want);
            v6[15] == 1
        },
    }
}

/// `fe80::/10`. A link-local address needs a scope id to bind, and Tailscale does
/// not assign one anyway.
pub open spec fn in_link_local_v6(a: Seq<u8>) -> bool {
    a[0] == 0xfe && 0x80 <= a[1] < 0xc0
}

/// Whether an address belongs to the tailnet and can be listened on.
pub open spec fn tailnet(i: Interface) -> bool {
    &&& in_tailscale(i.addr) || begins_with(i.name@, "tailscale"@)
    &&& !in_loopback(i.addr)
    &&& i.addr matches Ip::V6(a) ==> !in_link_local_v6(a@)
}

fn on_tailnet(i: &Interface) -> (r: bool)
    ensures
        r == tailnet(*i),
{
    if !is_tailscale_addr(&i.addr) && !has_prefix(&chars(&i.name), &chars("tailscale")) {
        return false;
    }
    if is_loopback(&i.addr) {
        return false;
    }
    match i.addr {
        Ip::V4(_) => true,
        Ip::V6(a) => !(a[0] == 0xfe && 0x80 <= a[1] && a[1] < 0xc0),
    }
}

/// The tailnet's addresses of one family among those of the interfaces, in order.
pub open spec fn tailnet_addrs(list: Seq<Interface>, v6: bool) -> Seq<Ip>
    decreases list.len(),
{
    if list.len() == 0 {
        seq![]
    } else {
        let rest = tailnet_addrs(list.drop_last(), v6);
        if tailnet(list.last()) && (list.last().addr is V6) == v6 {
            rest.push(list.last().addr)
        } else {
            rest
        }
    }
}

/// A list without those entries that repeat the one before them.
pub open spec fn without_repeats(v: Seq<Ip>) -> Seq<Ip>
    decreases v.len(),
{
    if v.len() <= 1 {
        v
    } else if v.last() == v[v.len() - 2] {
        without_repeats(v.drop_last())
    } else {
        without_repeats(v.drop_last()).push(v.last())
    }
}

pub fn dedup(v: &Vec<Ip>) -> (r: Vec<Ip>)
    ensures
        r@ == without_repeats(v@),
{
    let mut out: Vec<Ip> = Vec::new();
    let mut i: usize = 0;
    assert(v@.take(0) =~= Seq::empty());
    while i < v.len()
        invariant
            i <= v@.len(),
            out@ == without_repeats(v@.take(i as int)),
        decreases v@.len() - i,
    {
        proof {
            assert(v@.take(i + 1).drop_last() =~= v@.take(i as int));
            if i == 0 {
                assert(v@.take(1) =~= Seq::<Ip>::empty().push(v@[0]));
            }
        }
        if i == 0 || !v[i].same(&v[i - 1]) {
            out.push(v[i]);
        }
        i = i + 1;
    }
    assert(v@.take(i as int) =~= v@);
    out
}

/// Addresses that belong to the tailnet, preferring IPv4 (MagicDNS hands out
/// both, and the v4 address is the one people paste into config files).
pub fn tailscale_addrs(list: &[Interface]) -> (r: Vec<Ip>)
    ensures
        r@ == without_repeats(tailnet_addrs(list@, false) + tailnet_addrs(list@, true)),
{
    let mut v: Vec<Ip> = Vec::new();
    push_tailnet(&mut v, list, false);
    push_tailnet(&mut v, list, true);
    assert(v@ =~= tailnet_addrs(list@, false) + tailnet_addrs(list@, true));
    dedup(&v)
}

fn push_tailnet(v: &mut Vec<Ip>, list: &[Interface], v6: bool)
    ensures
        final(v)@ == old(v)@ + tailnet_addrs(list@, v6),
{
    let mut i: usize = 0;
    assert(list@.take(0) =~= Seq::empty());
    assert(v@ =~= old(v)@ + tailnet_addrs(list@.take(0), v6));
    while i < list.len()
        invariant
            i <= list@.len(),
            v@ == old(v)@ + tailnet_addrs(list@.take(i as int), v6),
        decreases list@.len() - i,
    {
        proof {
            assert(list@.take(i + 1).drop_last() =~= list@.take(i as int));
            assert(list@.take(i + 1).last() == list@[i as int]);
        }
        let family = match list[i].addr {
            Ip::V4(_) => false,
            Ip::V6(_) => true,
        };
        if on_tailnet(&list[i]) && family == v6 {
            v.push(list[i].addr);
        }
        i = i + 1;
        assert(v@ =~= old(v)@ + tailnet_addrs(list@.take(i as int), v6));
    }
    assert(list@.take(i as int) =~= list@);
}

/// An IPv4 address that is neither loopback nor `169.254.0.0/16`.
pub open spec fn routable_v4(a: Ip) -> bool {
    a matches Ip::V4(v4) && v4@[0] != 127 && !(v4@[0] == 169 && v4@[1] == 254)
}

pub open spec fn lan_addrs(list: Seq<Interface>) -> Seq<[u8; 4]>
    decreases list.len(),
{
    if list.len() == 0 {
        seq![]
    } else {
        let rest = lan_addrs(list.drop_last());
        if routable_v4(list.last().addr) {
            rest.push(list.last().addr->V4_0)
        } else {
            rest
        }
    }
}

/// Routable non-loopback IPv4 addresses, used to answer mDNS `A` queries.
pub fn lan_v4_addrs(list: &[Interface]) -> (r: Vec<[u8; 4]>)
    ensures
        r@ == lan_addrs(list@),
{
    let mut v: Vec<[u8; 4]> = Vec::new();
    let mut i: usize = 0;
    assert(list@.take(0) =~= Seq::empty());
    while i < list.len()
        invariant
            i <= list@.len(),
            v@ == lan_addrs(list@.take(i as int)),
        decreases list@.len() - i,
    {
        proof {
            assert(list@.take(i + 1).drop_last() =~= list@.take(i as int));
            assert(list@.take(i + 1).last() == list@[i as int]);
        }
        match list[i].addr {
            Ip::V4(a) => {
                if a[0] != 127 && !(a[0] == 169 && a[1] == 254) {
                    v.push(a);
                }
            },
            Ip::V6(_) => {},
        }
        i = i + 1;
    }
    assert(list@.take(i as int) =~= list@);
    v
}

/// The part of a name before its first dot, or the name of a host that has none.
pub open spec fn short_name(full: Option<Seq<char>>) -> Seq<char> {
    match full {
        Some(f) if pieces(f, '.')[0].len() > 0 => pieces(f, '.')[0],
        _ => "usbfwd"@,
    }
}

/// The host's short name. mDNS wants the short name, not a search-domain-qualified
/// one, and never an empty one: a host that does not know its name is called `usbfwd`.
pub fn hostname(full: Option<&str>) -> (s: String)
    ensures
        s@ == short_name(match full {
            Some(f) => Some(f@),
            None => None,
        }),
        s@ == (match full {
            Some(f) if pieces(f@, '.')[0].len() > 0 => pieces(f@, '.')[0],
            _ => "usbfwd"@,
        }),
        s@.len() > 0,
        !s@.contains('.'),
{
    proof {
        reveal_strlit("usbfwd");
        assert(!"usbfwd"@.contains('.'));
    }
    match full {
        None => "usbfwd".to_owned(),
        Some(f) => {
            let cs = chars(f);
            let i: usize = find_char(&cs, '.');
            let first = part(&cs, 0, i);
            assert(!first@.contains('.')) by {
                lemma_before(f@, '.');
            }
            assert(first@ =~= pieces(f@, '.')[0]) by {
                if i == cs@.len() {
                    assert(first@ =~= f@);
                } else {
                    assert(first@ =~= f@.take(i as int));
                }
            }
            if first.len() == 0 {
                return "usbfwd".to_owned();
            }
            string(first)
        },
    }
}

/// Nothing outside the tailnet is ever listened on by default: every address that
/// is found is one of an interface, and is in Tailscale's ranges or on its own
/// interface.
pub proof fn lemma_only_tailnet_addresses_are_found(list: Seq<Interface>, a: Ip)
    requires
        without_repeats(tailnet_addrs(list, false) + tailnet_addrs(list, true)).contains(a),
    ensures
        exists|i: int| 0 <= i < list.len() && (#[trigger] list[i]).addr == a && tailnet(list[i]),
{
    let v4 = tailnet_addrs(list, false);
    let v6 = tailnet_addrs(list, true);
    lemma_repeats_subset(v4 + v6, a);
    let k = choose|k: int| 0 <= k < (v4 + v6).len() && (v4 + v6)[k] == a;
    if k < v4.len() {
        assert(v4[k] == a);
        lemma_tailnet_addrs_from(list, false, a);
    } else {
        assert(v6[k - v4.len()] == a);
        lemma_tailnet_addrs_from(list, true, a);
    }
}

proof fn lemma_repeats_subset(v: Seq<Ip>, a: Ip)
    requires
        without_repeats(v).contains(a),
    ensures
        v.contains(a),
    decreases v.len(),
{
    if v.len() > 1 {
        let w = without_repeats(v.drop_last());
        if without_repeats(v) == w || a != v.last() {
            if without_repeats(v) != w {
                let k = choose|k: int|
                    0 <= k < without_repeats(v).len() && without_repeats(v)[k] == a;
                assert(w[k] == a);
            }
            lemma_repeats_subset(v.drop_last(), a);
            let k = choose|k: int| 0 <= k < v.drop_last().len() && v.drop_last()[k] == a;
            assert(v[k] == a);
        } else {
            assert(v[v.len() - 1] == a);
        }
    }
}

proof fn lemma_tailnet_addrs_from(list: Seq<Interface>, v6: bool, a: Ip)
    requires
        tailnet_addrs(list, v6).contains(a),
    ensures
        exists|i: int| 0 <= i < list.len() && (#[trigger] list[i]).addr == a && tailnet(list[i]),
    decreases list.len(),
{
    let all = tailnet_addrs(list, v6);
    let rest = tailnet_addrs(list.drop_last(), v6);
    let k = choose|k: int| 0 <= k < all.len() && all[k] == a;
    if k < rest.len() {
        assert(rest[k] == a);
        lemma_tailnet_addrs_from(list.drop_last(), v6, a);
        let i = choose|i: int|
            0 <= i < list.drop_last().len() && (#[trigger] list.drop_last()[i]).addr == a
                && tailnet(list.drop_last()[i]);
        assert(list[i].addr == a);
    } else {
        assert(list[list.len() - 1].addr == a);
    }
}

proof fn lemma_first_bytes(a: Seq<u8>)
    requires
        a.len() >= 4,
    ensures
        network_value(a.take(2)) == a[0] * 256 + a[1],
        network_value(a.take(4)) == a[0] * 0x100_0000 + a[1] * 0x1_0000 + a[2] * 256 + a[3],
{
    reveal_with_fuel(network_value, 5);
    let f = a.take(4);
    assert(f.drop_last() =~= a.take(3));
    assert(a.take(3).drop_last() =~= a.take(2));
    assert(a.take(2).drop_last() =~= a.take(1));
    assert(a.take(1).drop_last() =~= Seq::empty());
}

/// Which addresses are listened on by default, by the bits of the networks: those whose
/// first ten bits are those of `100.64.0.0`, those whose first forty-eight bits are
/// `fd7a:115c:a1e0`, and any of an interface whose name begins with `tailscale`; but no
/// address of the first eight bits of `127.0.0.0`, not `::1`, and none whose first ten bits
/// are those of `fe80::`.
pub proof fn lemma_which_addresses_are_the_tailnets(i: Interface)
    ensures
        i.addr matches Ip::V4(a) ==> {
            &&& tailnet(i) <==> (network_value(a@) / 0x40_0000 == 0x6440_0000int / 0x40_0000
                || begins_with(i.name@, "tailscale"@)) && network_value(a@) / 0x100_0000 != 127
        },
        i.addr matches Ip::V6(a) ==> {
            &&& tailnet(i) <==> (network_value(a@.take(6)) == 0xfd7a_115c_a1e0 || begins_with(
                i.name@,
                "tailscale"@,
            )) && network_value(a@.take(2)) / 64 != 0xfe80int / 64 && !(a@[15] == 1 && forall|k: int|
                0 <= k < 15 ==> #[trigger] a@[k] == 0)
        },
{
    match i.addr {
        Ip::V4(a) => {
            lemma_first_bytes(a@);
            assert(a@.take(4) =~= a@);
            let n = network_value(a@) as int;
            let low = a@[2] * 256 + a@[3];
            assert(n == a@[0] * 0x100_0000 + a@[1] * 0x1_0000 + low && 0 <= low < 0x1_0000);
            assert(n / 0x100_0000 == a@[0]) by (nonlinear_arith)
                requires
                    n == a@[0] * 0x100_0000 + a@[1] * 0x1_0000 + low,
                    0 <= low < 0x1_0000,
                    0 <= a@[1] < 256,
            ;
            assert(n / 0x40_0000 == a@[0] * 4 + a@[1] as int / 64) by (nonlinear_arith)
                requires
                    n == a@[0] * 0x100_0000 + a@[1] * 0x1_0000 + low,
                    0 <= low < 0x1_0000,
                    0 <= a@[1] < 256,
            ;
            assert(a@[0] * 4 + a@[1] as int / 64 == 401 <==> a@[0] == 100 && 64 <= a@[1] < 128);
        },
        Ip::V6(a) => {
            lemma_first_bytes(a@);
            reveal_with_fuel(network_value, 3);
            let f = a@.take(6);
            assert(f.drop_last() =~= a@.take(5));
            assert(a@.take(5).drop_last() =~= a@.take(4));
            let n = network_value(f) as int;
            assert(n == 256 * (256 * network_value(a@.take(4)) + a@[4]) + a@[5]);
            assert(n == 0xfd7a_115c_a1e0 <==> in_tailscale_v6(a@));
            let m = network_value(a@.take(2)) as int;
            assert(m / 64 == a@[0] * 4 + a@[1] as int / 64) by (nonlinear_arith)
                requires
                    m == a@[0] * 256 + a@[1],
                    0 <= a@[1] < 256,
            ;
            assert(m / 64 == 0xfe80int / 64 <==> in_link_local_v6(a@));
            let want = Seq::new(15, |i: int| 0u8).push(1u8);
            if a@[15] == 1 && forall|k: int| 0 <= k < 15 ==> #[trigger] a@[k] == 0 {
                assert(a@ =~= want);
            }
            if a@ == want {
                assert(want[15] == 1);
                assert forall|k: int| 0 <= k < 15 implies #[trigger] a@[k] == 0 by {
                    assert(want[k] == 0);
                }
            }
        },
    }
}

/// Every address of the tailnet is found, those of IPv4 before those of IPv6, and within
/// each family in the order of the interfaces.
pub proof fn lemma_every_tailnet_address_is_found(list: Seq<Interface>, v6: bool)
    ensures
        tailnet_addrs(list, v6) == list.filter(
            |i: Interface| tailnet(i) && (i.addr is V6) == v6,
        ).map_values(|i: Interface| i.addr),
        forall|i: int|
            0 <= i < list.len() && tailnet(#[trigger] list[i]) ==> without_repeats(
                tailnet_addrs(list, false) + tailnet_addrs(list, true),
            ).contains(list[i].addr),
{
    lemma_tailnet_filtered(list, v6);
    let a = tailnet_addrs(list, false);
    let b = tailnet_addrs(list, true);
    assert forall|i: int|
        0 <= i < list.len() && tailnet(#[trigger] list[i]) implies without_repeats(
        a + b,
    ).contains(list[i].addr) by {
        lemma_tailnet_addr_in(list, list[i].addr is V6, i);
        let x = list[i].addr;
        if x is V6 {
            let k = choose|k: int| 0 <= k < b.len() && b[k] == x;
            assert((a + b)[a.len() + k] == x);
        } else {
            let k = choose|k: int| 0 <= k < a.len() && a[k] == x;
            assert((a + b)[k] == x);
        }
        lemma_repeats_keep(a + b, x);
    }
}

proof fn lemma_tailnet_filtered(list: Seq<Interface>, v6: bool)
    ensures
        tailnet_addrs(list, v6) == list.filter(
            |i: Interface| tailnet(i) && (i.addr is V6) == v6,
        ).map_values(|i: Interface| i.addr),
    decreases list.len(),
{
    reveal(Seq::filter);
    let keep = |i: Interface| tailnet(i) && (i.addr is V6) == v6;
    let give = |i: Interface| i.addr;
    if list.len() > 0 {
        lemma_tailnet_filtered(list.drop_last(), v6);
    }
    assert(tailnet_addrs(list, v6) =~= list.filter(keep).map_values(give));
}

proof fn lemma_tailnet_addr_in(list: Seq<Interface>, v6: bool, i: int)
    requires
        0 <= i < list.len(),
        tailnet(list[i]),
        (list[i].addr is V6) == v6,
    ensures
        tailnet_addrs(list, v6).contains(list[i].addr),
    decreases list.len(),
{
    let all = tailnet_addrs(list, v6);
    let rest = tailnet_addrs(list.drop_last(), v6);
    if i == list.len() - 1 {
        assert(all[rest.len() as int] == list[i].addr);
    } else {
        assert(list.drop_last()[i] == list[i]);
        lemma_tailnet_addr_in(list.drop_last(), v6, i);
        let k = choose|k: int| 0 <= k < rest.len() && rest[k] == list[i].addr;
        assert(all[k] == list[i].addr);
    }
}

proof fn lemma_repeats_keep(v: Seq<Ip>, a: Ip)
    requires
        v.contains(a),
    ensures
        without_repeats(v).contains(a),
    decreases v.len(),
{
    if v.len() > 1 {
        let init = v.drop_last();
        let w = without_repeats(init);
        let all = without_repeats(v);
        let k = choose|k: int| 0 <= k < v.len() && v[k] == a;
        if k == v.len() - 1 && v.last() != v[v.len() - 2] {
            assert(all[w.len() as int] == a);
        } else {
            if k == v.len() - 1 {
                assert(init[k - 1] == a);
            } else {
                assert(init[k] == a);
            }
            lemma_repeats_keep(init, a);
            let m = choose|m: int| 0 <= m < w.len() && w[m] == a;
            assert(all[m] == a);
        }
    }
}

/// Leaving repetitions out loses no address and adds none; where no address follows
/// itself the list stays as it is, and one more of the last changes nothing.
pub proof fn lemma_leaving_out_repetitions(v: Seq<Ip>, a: Ip)
    ensures
        without_repeats(v).contains(a) <==> v.contains(a),
        (forall|i: int| 0 <= i && i + 1 < v.len() ==> #[trigger] v[i] != v[i + 1])
            ==> without_repeats(v) == v,
        v.len() > 0 && v.last() == a ==> without_repeats(v.push(a)) == without_repeats(v),
        v.len() > 0 && v.last() != a ==> without_repeats(v.push(a)) == without_repeats(v).push(a),
    decreases v.len(),
{
    if without_repeats(v).contains(a) {
        lemma_repeats_subset(v, a);
    }
    if v.contains(a) {
        lemma_repeats_keep(v, a);
    }
    assert(v.push(a).drop_last() =~= v);
    if v.len() > 1 {
        let init = v.drop_last();
        lemma_leaving_out_repetitions(init, a);
        if forall|i: int| 0 <= i && i + 1 < v.len() ==> #[trigger] v[i] != v[i + 1] {
            assert forall|i: int| 0 <= i && i + 1 < init.len() implies #[trigger] init[i] != init[i
                + 1] by {
                assert(init[i] == v[i] && init[i + 1] == v[i + 1]);
            }
            assert(v[v.len() - 2] != v[v.len() - 2 + 1]);
            assert(init.push(v.last()) =~= v);
        }
    }
}

/// The addresses that are advertised are those of IPv4 whose first octet is not `127` and
/// whose first two are not `169.254`, in the order of the interfaces.
pub proof fn lemma_which_addresses_are_advertised(list: Seq<Interface>)
    ensures
        lan_addrs(list) == list.filter(
            |i: Interface|
                {
                    &&& i.addr is V4
                    &&& i.addr->V4_0@[0] != 127
                    &&& i.addr->V4_0@[0] != 169 || i.addr->V4_0@[1] != 254
                },
        ).map_values(|i: Interface| i.addr->V4_0),
    decreases list.len(),
{
    reveal(Seq::filter);
    let keep = |i: Interface|
        {
            &&& i.addr is V4
            &&& i.addr->V4_0@[0] != 127
            &&& i.addr->V4_0@[0] != 169 || i.addr->V4_0@[1] != 254
        };
    let give = |i: Interface| i.addr->V4_0;
    if list.len() > 0 {
        lemma_which_addresses_are_advertised(list.drop_last());
    }
    assert(lan_addrs(list) =~= list.filter(keep).map_values(give));
}

/// The short name of a host is what stands before the first dot, all of it where there is
/// none; a host without a name, or with one that begins with a dot, is called `usbfwd`.
pub proof fn lemma_names_are_cut_at_the_dot(a: Seq<char>, b: Seq<char>)
    requires
        a.len() > 0,
        forall|k: int| 0 <= k < a.len() ==> a[k] != '.',
    ensures
        short_name(Some(a)) == a,
        short_name(Some(a + seq!['.'] + b)) == a,
        short_name(Some(seq!['.'] + b)) == "usbfwd"@,
        short_name(None) == "usbfwd"@,
{
    lemma_before_is(a, '.', a.len() as int);
    assert(pieces(a, '.') =~= seq![a]);
    lemma_pieces_joined(a, b, '.');
    let c = seq!['.'] + b;
    lemma_before_is(c, '.', 0);
    assert(c.take(0) =~= Seq::empty());
}

} // verus!
