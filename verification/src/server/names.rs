//! A set of bus ids, kept in order.
use crate::text::{
    chars, comes_before, lemma_order_is_strict, lemma_order_is_transitive, precedes, same_chars,
    strings,
};
use vstd::prelude::*;
use vstd::string::*;

verus! {

/// A set of names. Each is in it once, and they are listed in the order of their
/// characters.
pub struct NameSet {
    names: Vec<String>,
}

/// Whether the names of a list stand in order, each once.
pub open spec fn ascending(v: Seq<Seq<char>>) -> bool {
    forall|i: int, j: int|
        0 <= i < j < v.len() ==> comes_before(#[trigger] v[i], #[trigger] v[j])
}

impl View for NameSet {
    type V = Set<Seq<char>>;

    closed spec fn view(&self) -> Set<Seq<char>> {
        Set::new(|n: Seq<char>| strings(self.names@).contains(n))
    }
}

impl NameSet {
    /// What every operation keeps: the names stand in order.
    pub closed spec fn wf(&self) -> bool {
        ascending(strings(self.names@))
    }

    pub fn new() -> (s: NameSet)
        ensures
            s.wf(),
            s@ == Set::<Seq<char>>::empty(),
    {
        let s = NameSet { names: Vec::new() };
        assert(s@ =~= Set::<Seq<char>>::empty());
        s
    }

    /// Where `name` is, or where it belongs.
    fn place(&self, name: &[char]) -> (r: (usize, bool))
        requires
            self.wf(),
        ensures
            r.0 <= self.names@.len(),
            r.1 == self@.contains(name@),
            r.1 ==> r.0 < self.names@.len() && self.names@[r.0 as int]@ == name@,
            forall|i: int| 0 <= i < r.0 ==> comes_before((#[trigger] self.names@[i])@, name@),
            !r.1 ==> forall|i: int|
                r.0 <= i < self.names@.len() ==> comes_before(
                    name@,
                    (#[trigger] self.names@[i])@,
                ),
    {
        let ghost all = strings(self.names@);
        let mut i: usize = 0;
        while i < self.names.len()
            invariant
                i <= self.names@.len(),
                self.wf(),
                all == strings(self.names@),
                forall|j: int| 0 <= j < i ==> comes_before((#[trigger] self.names@[j])@, name@),
            decreases self.names@.len() - i,
        {
            let here = chars(&self.names[i]);
            assert(all[i as int] == here@);
            if same_chars(&here, name) {
                assert(all.contains(name@));
                return (i, true);
            }
            if !precedes(&here, name) {
                proof {
                    lemma_order_is_strict(here@, name@);
                    assert forall|k: int| i <= k < self.names@.len() implies comes_before(
                        name@,
                        (#[trigger] self.names@[k])@,
                    ) by {
                        assert(all[k] == self.names@[k]@);
                        if k > i {
                            assert(comes_before(all[i as int], all[k]));
                            lemma_order_is_transitive(name@, here@, all[k]);
                        }
                    }
                    assert(!all.contains(name@)) by {
                        if all.contains(name@) {
                            let k = choose|k: int| 0 <= k < all.len() && all[k] == name@;
                            assert(self.names@[k]@ == name@);
                            lemma_order_is_strict(name@, name@);
                        }
                    }
                }
                return (i, false);
            }
            i = i + 1;
        }
        proof {
            if all.contains(name@) {
                let k = choose|k: int| 0 <= k < all.len() && all[k] == name@;
                assert(self.names@[k]@ == name@);
                lemma_order_is_strict(name@, name@);
            }
        }
        (i, false)
    }

    pub fn contains(&self, name: &str) -> (r: bool)
        requires
            self.wf(),
        ensures
            r == self@.contains(name@),
    {
        self.place(&chars(name)).1
    }

    /// Puts a name in; false if it was there.
    pub fn insert(&mut self, name: &str) -> (added: bool)
        requires
            old(self).wf(),
        ensures
            final(self).wf(),
            added == !old(self)@.contains(name@),
            final(self)@ == old(self)@.insert(name@),
    {
        let (at, there) = self.place(&chars(name));
        if there {
            assert(self@.insert(name@) =~= self@);
            return false;
        }
        let ghost was = strings(self.names@);
        self.names.insert(at, name.to_owned());
        proof {
            let now = strings(self.names@);
            assert(now =~= was.insert(at as int, name@));
            assert forall|i: int, j: int| 0 <= i < j < now.len() implies comes_before(
                #[trigger] now[i],
                #[trigger] now[j],
            ) by {
                if i < at && j < at {
                    assert(comes_before(was[i], was[j]));
                } else if i < at && j == at {
                    assert(old(self).names@[i]@ == was[i]);
                } else if i < at {
                    assert(comes_before(was[i], was[j - 1]));
                } else if i == at {
                    assert(old(self).names@[j - 1]@ == was[j - 1]);
                } else {
                    assert(comes_before(was[i - 1], was[j - 1]));
                }
            }
            lemma_insert_contains(was, at as int, name@);
            assert(self@ =~= old(self)@.insert(name@));
        }
        true
    }

    /// Takes a name out; false if it was not there.
    pub fn remove(&mut self, name: &str) -> (removed: bool)
        requires
            old(self).wf(),
        ensures
            final(self).wf(),
            removed == old(self)@.contains(name@),
            final(self)@ == old(self)@.remove(name@),
    {
        let (at, there) = self.place(&chars(name));
        if !there {
            assert(self@.remove(name@) =~= self@);
            return false;
        }
        let ghost was = strings(self.names@);
        self.names.remove(at);
        proof {
            let now = strings(self.names@);
            assert(now =~= was.remove(at as int));
            assert forall|i: int, j: int| 0 <= i < j < now.len() implies comes_before(
                #[trigger] now[i],
                #[trigger] now[j],
            ) by {
                let a = if i < at {
                    i
                } else {
                    i + 1
                };
                let b = if j < at {
                    j
                } else {
                    j + 1
                };
                assert(comes_before(was[a], was[b]));
            }
            assert forall|n: Seq<char>| #[trigger] now.contains(n) <==> was.contains(n) && n
                != name@ by {
                if now.contains(n) {
                    let k = choose|k: int| 0 <= k < now.len() && now[k] == n;
                    if k < at {
                        assert(was[k] == n);
                        assert(comes_before(was[k], was[at as int]));
                    } else {
                        assert(was[k + 1] == n);
                        assert(comes_before(was[at as int], was[k + 1]));
                    }
                    lemma_order_is_strict(name@, name@);
                }
                if was.contains(n) && n != name@ {
                    let k = choose|k: int| 0 <= k < was.len() && was[k] == n;
                    if k < at {
                        assert(now[k] == n);
                    } else {
                        assert(now[k - 1] == n);
                    }
                }
            }
            assert(self@ =~= old(self)@.remove(name@));
        }
        true
    }

    /// The names in order.
    pub fn list(&self) -> (v: Vec<String>)
        requires
            self.wf(),
        ensures
            ascending(strings(v@)),
            forall|n: Seq<char>| #[trigger] strings(v@).contains(n) <==> self@.contains(n),
    {
        let mut v: Vec<String> = Vec::new();
        let mut i: usize = 0;
        while i < self.names.len()
            invariant
                i <= self.names@.len(),
                v@.len() == i,
                forall|j: int| 0 <= j < i ==> (#[trigger] v@[j])@ == self.names@[j]@,
            decreases self.names@.len() - i,
        {
            v.push(self.names[i].clone());
            i = i + 1;
        }
        assert(strings(v@) =~= strings(self.names@));
        v
    }
}

proof fn lemma_insert_contains(s: Seq<Seq<char>>, at: int, x: Seq<char>)
    requires
        0 <= at <= s.len(),
    ensures
        forall|n: Seq<char>| #[trigger] s.insert(at, x).contains(n) <==> s.contains(n) || n == x,
{
    let t = s.insert(at, x);
    assert forall|n: Seq<char>| #[trigger] t.contains(n) <==> s.contains(n) || n == x by {
        if t.contains(n) {
            let k = choose|k: int| 0 <= k < t.len() && t[k] == n;
            if k < at {
                assert(s[k] == n);
            } else if k > at {
                assert(s[k - 1] == n);
            }
        }
        if s.contains(n) {
            let k = choose|k: int| 0 <= k < s.len() && s[k] == n;
            if k < at {
                assert(t[k] == n);
            } else {
                assert(t[k + 1] == n);
            }
        }
        assert(t[at] == x);
    }
}

} // verus!
