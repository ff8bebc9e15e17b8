//! What an exporter is told to do, and which addresses that comes to.
use crate::backend::filter::DeviceFilter;
use crate::backend::usbfs::DEFAULT_MAX_TRANSFER;
use crate::common::netif::{dedup, tailnet_addrs, tailscale_addrs, without_repeats, Interface, Ip};
use crate::proto::USBIP_PORT;
use crate::server::chord::Chord;
use vstd::prelude::*;
use vstd::string::*;

verus! {

broadcast use {vstd::slice::group_slice_axioms, vstd::array::group_array_axioms};

/// How long, in nanoseconds, the toggle chord has to be held.
pub const CHORD_HOLD: u64 = 500_000_000;

#[derive(Debug, Clone, Copy, PartialEq, Eq)]
pub enum Bind {
    /// Every address that looks like it belongs to the tailnet.
    Tailscale,
    /// Wildcard on both families.
    Any,
    Addr(Ip),
}

#[derive(Debug, Clone, PartialEq, Eq)]
pub struct Config {
    pub binds: Vec<Bind>,
    pub port: u16,
    pub filter: DeviceFilter,
    pub max_transfer: usize,
    pub mdns: bool,
    pub name: Option<String>,
    /// Keep an interrupt IN URB queued on the device.
    pub prefetch: bool,
    /// The buttons that take a forwarded device back and offer it again.
    pub toggle_chord: Option<Chord>,
}

impl Default for Config {
    fn default() -> (c: Self)
        ensures
            c.binds@ == seq![Bind::Tailscale],
            c.port == USBIP_PORT,
            c.filter@ == seq![
                crate::backend::filter::Pattern {
                    vendor: Some(crate::backend::filter::VALVE_VID),
                    product: None,
                },
            ],
            c.max_transfer == DEFAULT_MAX_TRANSFER,
            !c.mdns,
            c.name is None,
            !c.prefetch,
            c.toggle_chord is None,
    {
        let mut binds: Vec<Bind> = Vec::new();
        binds.push(Bind::Tailscale);
        assert(binds@ =~= seq![Bind::Tailscale]);
        Config {
            binds,
            port: USBIP_PORT,
            filter: DeviceFilter::default(),
            max_transfer: DEFAULT_MAX_TRANSFER,
            mdns: false,
            name: None,
            prefetch: false,
            toggle_chord: None,
        }
    }
}

/// What a missing tailnet is answered: how to get one, or do without.
pub open spec fn no_tailnet() -> Seq<char> {
    "no Tailscale address found. Start tailscale, or pass --bind <addr> for a specific interface (or --bind any, which puts plaintext USB traffic on every network)."@
}

/// The addresses that the binds come to, given those of the tailnet; none if the
/// tailnet is wanted and has no address.
pub open spec fn bound(binds: Seq<Bind>, tailnet: Seq<Ip>) -> Option<Seq<Ip>>
    decreases binds.len(),
{
    if binds.len() == 0 {
        Some(seq![])
    } else {
        match bound(binds.drop_last(), tailnet) {
            None => None,
            Some(v) => match binds.last() {
                Bind::Addr(a) => Some(v.push(a)),
                Bind::Any => Some(v + wildcards()),
                Bind::Tailscale => if tailnet.len() == 0 {
                    None
                } else {
                    Some(v + tailnet)
                },
            },
        }
    }
}

/// `0.0.0.0` and `::`.
pub open spec fn wildcards() -> Seq<Ip> {
    seq![
        Ip::V4([0u8, 0u8, 0u8, 0u8]),
        Ip::V6([0u8, 0u8, 0u8, 0u8, 0u8, 0u8, 0u8, 0u8, 0u8, 0u8, 0u8, 0u8, 0u8, 0u8, 0u8, 0u8]),
    ]
}

/// The tailnet's addresses among those of the interfaces.
pub open spec fn tailnet_of(interfaces: Seq<Interface>) -> Seq<Ip> {
    without_repeats(tailnet_addrs(interfaces, false) + tailnet_addrs(interfaces, true))
}

pub fn resolve_binds(binds: &[Bind], interfaces: &[Interface]) -> (r: Result<Vec<Ip>, String>)
    ensures
        match bound(binds@, tailnet_of(interfaces@)) {
            Some(v) => r is Ok && r->Ok_0@ == without_repeats(v),
            None => r is Err && r->Err_0@ == no_tailnet(),
        },
{
    let mut out: Vec<Ip> = Vec::new();
    let ghost tailnet = tailnet_of(interfaces@);
    let mut i: usize = 0;
    assert(binds@.take(0) =~= Seq::empty());
    while i < binds.len()
        invariant
            i <= binds@.len(),
            tailnet == tailnet_of(interfaces@),
            bound(binds@.take(i as int), tailnet) == Some(out@),
        decreases binds@.len() - i,
    {
        let ghost had = out@;
        proof {
            assert(binds@.take(i + 1).drop_last() =~= binds@.take(i as int));
            assert(binds@.take(i + 1).last() == binds@[i as int]);
        }
        match binds[i] {
            Bind::Addr(a) => {
                out.push(a);
            },
            Bind::Any => {
                let v4: [u8; 4] = [0u8, 0u8, 0u8, 0u8];
                let v6: [u8; 16] = [0u8, 0u8, 0u8, 0u8, 0u8, 0u8, 0u8, 0u8, 0u8, 0u8, 0u8, 0u8, 0u8, 0u8, 0u8, 0u8];
                out.push(Ip::V4(v4));
                out.push(Ip::V6(v6));
                assert(out@ =~= had + wildcards());
            },
            Bind::Tailscale => {
                let found = tailscale_addrs(interfaces);
                if found.len() == 0 {
                    proof {
                        lemma_no_tailnet(binds@, tailnet, i + 1);
                    }
                    return Err(
                        "no Tailscale address found. Start tailscale, or pass --bind <addr> for a specific interface (or --bind any, which puts plaintext USB traffic on every network).".to_owned(),
                    );
                }
                push_all(&mut out, &found);
            },
        }
        i = i + 1;
    }
    assert(binds@.take(i as int) =~= binds@);
    Ok(dedup(&out))
}

fn push_all(out: &mut Vec<Ip>, more: &Vec<Ip>)
    ensures
        final(out)@ == old(out)@ + more@,
{
    let mut i: usize = 0;
    assert(out@ =~= old(out)@ + more@.take(0));
    while i < more.len()
        invariant
            i <= more@.len(),
            out@ == old(out)@ + more@.take(i as int),
        decreases more@.len() - i,
    {
        out.push(more[i]);
        i = i + 1;
        assert(out@ =~= old(out)@ + more@.take(i as int));
    }
    assert(more@.take(i as int) =~= more@);
}

proof fn lemma_no_tailnet(binds: Seq<Bind>, tailnet: Seq<Ip>, i: int)
    requires
        0 <= i <= binds.len(),
        bound(binds.take(i), tailnet) is None,
    ensures
        bound(binds, tailnet) is None,
    decreases binds.len() - i,
{
    if i == binds.len() {
        assert(binds.take(i) =~= binds);
    } else {
        assert(binds.take(i + 1).drop_last() =~= binds.take(i));
        lemma_no_tailnet(binds, tailnet, i + 1);
    }
}

/// Whether a bind that found no address is tried again. On a handheld, `tailscaled`
/// routinely finishes after this service starts, so a missing address is waited for
/// where the tailnet is wanted; anything else is a failure.
pub fn waits_for_tailnet(binds: &[Bind], no_address: bool, shutting_down: bool) -> (r: bool)
    ensures
        r == (binds@.contains(Bind::Tailscale) && no_address && !shutting_down),
{
    if !no_address || shutting_down {
        return false;
    }
    let mut i: usize = 0;
    while i < binds.len()
        invariant
            i <= binds@.len(),
            no_address && !shutting_down,
            forall|j: int| 0 <= j < i ==> binds@[j] != Bind::Tailscale,
        decreases binds@.len() - i,
    {
        match binds[i] {
            Bind::Tailscale => {
                assert(binds@[i as int] == Bind::Tailscale);
                return true;
            },
            _ => {},
        }
        i = i + 1;
    }
    false
}

/// By default nothing but the tailnet is listened on: without `--bind`, every
/// address is one of the tailnet's, and without a tailnet there is none.
pub proof fn lemma_default_is_tailnet_only(tailnet: Seq<Ip>)
    ensures
        bound(seq![Bind::Tailscale], tailnet) == (if tailnet.len() == 0 {
            None
        } else {
            Some(tailnet)
        }),
{
    let b = seq![Bind::Tailscale];
    assert(b.drop_last() =~= Seq::empty());
    assert(bound(b.drop_last(), tailnet) == Some(Seq::<Ip>::empty()));
    assert(Seq::<Ip>::empty() + tailnet =~= tailnet);
}

/// What is listened on: the addresses that were given, `0.0.0.0` and `::` where every
/// network was asked for, and the tailnet's where it was; and nothing else. Only a tailnet
/// that was asked for and has no address is a failure.
pub proof fn lemma_what_is_listened_on(binds: Seq<Bind>, tailnet: Seq<Ip>, a: Ip)
    ensures
        bound(binds, tailnet) is None <==> tailnet.len() == 0 && binds.contains(Bind::Tailscale),
        bound(binds, tailnet) matches Some(v) ==> (v.contains(a) <==> {
            ||| binds.contains(Bind::Addr(a))
            ||| binds.contains(Bind::Tailscale) && tailnet.contains(a)
            ||| binds.contains(Bind::Any) && match a {
                Ip::V4(o) => forall|k: int| 0 <= k < 4 ==> #[trigger] o@[k] == 0,
                Ip::V6(o) => forall|k: int| 0 <= k < 16 ==> #[trigger] o@[k] == 0,
            }
        }),
    decreases binds.len(),
{
    if binds.len() == 0 {
        assert(!binds.contains(Bind::Tailscale));
    } else {
        let init = binds.drop_last();
        let last = binds.last();
        lemma_what_is_listened_on(init, tailnet, a);
        assert forall|b: Bind| #[trigger] binds.contains(b) <==> init.contains(b) || b == last by {
            assert(binds =~= init.push(last));
            if init.contains(b) {
                let k = choose|k: int| 0 <= k < init.len() && init[k] == b;
                assert(binds[k] == b);
            }
            assert(binds[binds.len() - 1] == last);
            if binds.contains(b) && b != last {
                let k = choose|k: int| 0 <= k < binds.len() && binds[k] == b;
                assert(init[k] == b);
            }
        }
        if bound(init, tailnet) is Some {
            let v = bound(init, tailnet)->Some_0;
            match last {
                Bind::Addr(x) => {
                    lemma_joined(v, seq![x], a);
                    assert(v.push(x) =~= v + seq![x]);
                    assert(seq![x][0] == x);
                },
                Bind::Any => {
                    lemma_joined(v, wildcards(), a);
                    lemma_wildcards(a);
                },
                Bind::Tailscale => {
                    lemma_joined(v, tailnet, a);
                },
            }
        }
    }
}

proof fn lemma_joined(v: Seq<Ip>, w: Seq<Ip>, a: Ip)
    ensures
        (v + w).contains(a) <==> v.contains(a) || w.contains(a),
{
    let s = v + w;
    if v.contains(a) {
        let k = choose|k: int| 0 <= k < v.len() && v[k] == a;
        assert(s[k] == a);
    }
    if w.contains(a) {
        let k = choose|k: int| 0 <= k < w.len() && w[k] == a;
        assert(s[v.len() + k] == a);
    }
    if s.contains(a) {
        let k = choose|k: int| 0 <= k < s.len() && s[k] == a;
        if k < v.len() {
            assert(v[k] == a);
        } else {
            assert(w[k - v.len()] == a);
        }
    }
}

proof fn lemma_wildcards(a: Ip)
    ensures
        wildcards().contains(a) <==> match a {
            Ip::V4(o) => forall|k: int| 0 <= k < 4 ==> #[trigger] o@[k] == 0,
            Ip::V6(o) => forall|k: int| 0 <= k < 16 ==> #[trigger] o@[k] == 0,
        },
{
    let w = wildcards();
    let z4 = w[0]->V4_0;
    let z6 = w[1]->V6_0;
    assert(w.len() == 2 && w[0] == Ip::V4(z4) && w[1] == Ip::V6(z6));
    assert(z4@.len() == 4 && z6@.len() == 16);
    assert(forall|k: int| 0 <= k < 4 ==> #[trigger] z4@[k] == 0);
    assert(forall|k: int| 0 <= k < 16 ==> #[trigger] z6@[k] == 0);
    match a {
        Ip::V4(o) => {
            if forall|k: int| 0 <= k < 4 ==> #[trigger] o@[k] == 0 {
                assert(o@ =~= z4@);
                assert(o =~= z4);
                assert(w[0] == a);
            }
        },
        Ip::V6(o) => {
            if forall|k: int| 0 <= k < 16 ==> #[trigger] o@[k] == 0 {
                assert(o@ =~= z6@);
                assert(o =~= z6);
                assert(w[1] == a);
            }
        },
    }
}

/// The addresses stand in the order in which they were asked for.
pub proof fn lemma_binds_are_listened_on_in_order(a: Seq<Bind>, b: Seq<Bind>, tailnet: Seq<Ip>)
    ensures
        bound(a + b, tailnet) is Some <==> bound(a, tailnet) is Some && bound(b, tailnet) is Some,
        bound(a + b, tailnet) is Some ==> bound(a + b, tailnet)->Some_0 == bound(
            a,
            tailnet,
        )->Some_0 + bound(b, tailnet)->Some_0,
    decreases b.len(),
{
    if b.len() == 0 {
        assert(a + b =~= a);
        assert(bound(b, tailnet) == Some(Seq::<Ip>::empty()));
        if bound(a, tailnet) is Some {
            let v = bound(a, tailnet)->Some_0;
            assert(v + Seq::<Ip>::empty() =~= v);
        }
    } else {
        assert((a + b).drop_last() =~= a + b.drop_last());
        lemma_binds_are_listened_on_in_order(a, b.drop_last(), tailnet);
        if bound(a + b.drop_last(), tailnet) is Some {
            let v = bound(a, tailnet)->Some_0;
            let w = bound(b.drop_last(), tailnet)->Some_0;
            match b.last() {
                Bind::Addr(x) => assert((v + w).push(x) =~= v + w.push(x)),
                Bind::Any => assert((v + w) + wildcards() =~= v + (w + wildcards())),
                Bind::Tailscale => assert((v + w) + tailnet =~= v + (w + tailnet)),
            }
        }
    }
}

} // verus!
