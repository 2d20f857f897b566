//! The wildcard-aware set: a compact representation of "a default value
//! applied to every key, minus recorded carve-outs, plus explicit per-key
//! extras".
//!
//! The value effective at key `k` is
//! `rest_list[k] ∪ (wildcard_value − wildcard_exceptions[k])`, with a
//! missing entry meaning the empty sub-set, and the whole set grants
//! `k :: t` exactly when the value effective at `k` grants `t`.  The key
//! domain of the denotation is the unbounded mathematical integers, so a
//! non-empty default is observable at keys no finite carve-out map can
//! reach.  An exception entry whose key the default no longer misses, or
//! one kept beside an empty default, is tolerated representation slack: it
//! carries no observable member.
//!
//! Intersection and disjunctive union are not implemented for this type by
//! design: a consumer needing them must first expand to an explicit per-key
//! representation.  The derived subset test is therefore unavailable too.

use vstd::prelude::*;

use crate::list::{
    lemma_difference_pointwise, lemma_sem_determines_sem_at, lemma_sem_empty_iff,
    lemma_union_pointwise, KVListSet,
};
use crate::set::{
    lemma_nonempty, lemma_paths_of_eq, lemma_paths_of_union, paths_of, DifferenceInPlace,
    FromSet, IntersectionInPlace, Paths, SetValue, UnionInPlace,
};

verus! {

/// Set-variation of a key-value list with optional wildcard.  Does
/// operations on sub-values based on key.
#[derive(Clone, Debug, PartialEq, Eq)]
pub struct KVListWithWildcardSet<Value> {
    pub wildcard_exceptions: KVListSet<Value>,
    pub wildcard_value: Value,
    pub rest_list: KVListSet<Value>,
}

impl<Value: SetValue> KVListWithWildcardSet<Value> {
    /// The value effective at key `k`: the explicit extra stored there,
    /// plus whatever of the default the carve-out at `k` leaves standing.
    pub open spec fn eff(&self, k: int) -> Paths {
        self.rest_list.sem_at(k).union(
            self.wildcard_value.sem().difference(self.wildcard_exceptions.sem_at(k)),
        )
    }
}

impl<Value: SetValue> Default for KVListWithWildcardSet<Value> {
    fn default() -> (r: Self)
        ensures
            r.wf(),
            r.sem().is_empty(),
    {
        KVListWithWildcardSet::empty()
    }
}

impl<Value: SetValue> SetValue for KVListWithWildcardSet<Value> {
    open spec fn wf(&self) -> bool {
        self.wildcard_value.wf() && self.wildcard_exceptions.wf() && self.rest_list.wf()
    }

    open spec fn sem(&self) -> Paths {
        paths_of(|k: int| self.eff(k))
    }

    fn is_empty(&self) -> (r: bool) {
        let r = self.rest_list.is_empty() && self.wildcard_value.is_empty();
        proof {
            if r {
                lemma_sem_empty_iff(self.rest_list);
                assert forall|p: Seq<int>| !self.sem().contains(p) by {
                    if p.len() > 0 {
                        assert(self.rest_list.sem_at(p[0]).is_empty());
                        assert(!self.eff(p[0]).contains(p.skip(1)));
                    }
                }
                assert(self.sem() =~= Set::<Seq<int>>::empty());
            } else if !self.rest_list.sem().is_empty() {
                lemma_sem_empty_iff(self.rest_list);
                let k = choose|k: int| !(#[trigger] self.rest_list.sem_at(k).is_empty());
                lemma_nonempty(self.rest_list.sem_at(k));
                let t = choose|t: Seq<int>| #[trigger] self.rest_list.sem_at(k).contains(t);
                assert(self.eff(k).contains(t));
                let p = seq![k] + t;
                assert(p.skip(1) =~= t);
                assert(self.sem().contains(p));
                lemma_nonempty(self.sem());
            } else {
                // The default grants something, and at any key the
                // exception map cannot store — such as a negative one —
                // it grants it in full.
                if self.wildcard_exceptions.has_key(-1) {
                    let i = choose|i: int|
                        0 <= i < self.wildcard_exceptions.entries@.len()
                            && (#[trigger] self.wildcard_exceptions.entries@[i]).0 as int == -1;
                    assert(false);
                }
                lemma_nonempty(self.wildcard_value.sem());
                let t = choose|t: Seq<int>| #[trigger] self.wildcard_value.sem().contains(t);
                assert(self.wildcard_value.sem().difference(
                    self.wildcard_exceptions.sem_at(-1)).contains(t));
                assert(self.eff(-1).contains(t));
                let p = seq![-1int] + t;
                assert(p.skip(1) =~= t);
                assert(self.sem().contains(p));
                lemma_nonempty(self.sem());
            }
        }
        r
    }

    fn empty() -> (r: Self) {
        let r = KVListWithWildcardSet {
            wildcard_exceptions: KVListSet::new(),
            wildcard_value: Value::empty(),
            rest_list: KVListSet::new(),
        };
        proof {
            assert forall|p: Seq<int>| !r.sem().contains(p) by {
                if p.len() > 0 {
                    assert(!r.eff(p[0]).contains(p.skip(1)));
                }
            }
            assert(r.sem() =~= Set::<Seq<int>>::empty());
        }
        r
    }

    fn duplicate(&self) -> (r: Self) {
        let r = KVListWithWildcardSet {
            wildcard_exceptions: self.wildcard_exceptions.duplicate(),
            wildcard_value: self.wildcard_value.duplicate(),
            rest_list: self.rest_list.duplicate(),
        };
        proof {
            lemma_sem_determines_sem_at(r.wildcard_exceptions, self.wildcard_exceptions);
            lemma_sem_determines_sem_at(r.rest_list, self.rest_list);
            assert forall|k: int| #[trigger] r.eff(k) == self.eff(k) by {}
            lemma_paths_of_eq(|k: int| r.eff(k), |k: int| self.eff(k));
            assert(r.sem() =~= paths_of(|k: int| r.eff(k)));
            assert(self.sem() =~= paths_of(|k: int| self.eff(k)));
        }
        r
    }
}

/// A plain key→sub-set mapping embeds into the wildcard-aware shape as an
/// empty default with the mapping as the explicit extras.
impl<Value: SetValue> FromSet<KVListSet<Value>> for KVListWithWildcardSet<Value> {
    fn from_set(value: KVListSet<Value>) -> (r: Self) {
        let ghost gv = value;
        let r = KVListWithWildcardSet {
            wildcard_exceptions: KVListSet::new(),
            wildcard_value: Value::empty(),
            rest_list: value,
        };
        proof {
            assert forall|k: int| #[trigger] r.eff(k) == gv.sem_at(k) by {
                assert(r.eff(k) =~= gv.sem_at(k));
            }
            lemma_paths_of_eq(|k: int| r.eff(k), |k: int| gv.sem_at(k));
            assert(r.sem() =~= paths_of(|k: int| r.eff(k)));
            assert(gv.sem() =~= paths_of(|k: int| gv.sem_at(k)));
        }
        r
    }
}

/// Remove covered exceptions from an exceptions map: at each key of
/// `exceptions`, subtract the other side's currently-effective default —
/// its `wildcard_value` minus its own carve-out there — and drop entries
/// that become empty.
fn remove_covered_values<VA, VB>(
    exceptions: &mut KVListSet<VB>,
    wildcard_value: &VA,
    wildcard_exceptions: &KVListSet<VA>,
) where
    VA: SetValue + DifferenceInPlace<VA>,
    VB: SetValue + DifferenceInPlace<VA>,

    requires
        old(exceptions).wf(),
        wildcard_value.wf(),
        wildcard_exceptions.wf(),
    ensures
        final(exceptions).wf(),
        forall|k: int|
            #[trigger] final(exceptions).sem_at(k) == old(exceptions).sem_at(k).difference(
                wildcard_value.sem().difference(wildcard_exceptions.sem_at(k)),
            ),
{
    let mut kept = KVListSet::<VB> { entries: Vec::new() };
    while exceptions.entries.len() != 0
        invariant
            old(exceptions).wf(),
            wildcard_value.wf(),
            wildcard_exceptions.wf(),
            exceptions.entries@.len() <= old(exceptions).entries@.len(),
            exceptions.entries@
                == old(exceptions).entries@.subrange(0, exceptions.entries@.len() as int),
            kept.keys_unique(),
            kept.vals_wf(),
            kept.entries_nonempty(),
            forall|k: int|
                old(exceptions).has_key(k)
                    && old(exceptions).index_of(k) >= exceptions.entries@.len()
                    ==> #[trigger] kept.sem_at(k) == old(exceptions).sem_at(k).difference(
                        wildcard_value.sem().difference(wildcard_exceptions.sem_at(k)),
                    ),
            forall|k: int|
                !(old(exceptions).has_key(k)
                    && old(exceptions).index_of(k) >= exceptions.entries@.len())
                    ==> !(#[trigger] kept.has_key(k)),
        decreases exceptions.entries@.len(),
    {
        let ghost m = exceptions.entries@.len() as int;
        let e = exceptions.entries.pop().unwrap();
        proof {
            assert(exceptions.entries@ =~= old(exceptions).entries@.subrange(0, m - 1));
            assert(e == old(exceptions).entries@[m - 1]);
            crate::list::lemma_entry_index(*old(exceptions), m - 1);
        }
        let (key, mut v) = e;
        match wildcard_exceptions.find_key(key) {
            Some(j) => {
                proof {
                    crate::list::lemma_entry_index(*wildcard_exceptions, j as int);
                }
                let mut wv = wildcard_value.duplicate();
                wv.difference_in_place(&wildcard_exceptions.entries[j].1);
                v.difference_in_place(&wv);
            },
            None => {
                v.difference_in_place(wildcard_value);
                proof {
                    assert(wildcard_value.sem().difference(
                        wildcard_exceptions.sem_at(key as int)) =~= wildcard_value.sem());
                }
            },
        }
        if !v.is_empty() {
            kept.put_entry(key, v);
        }
        proof {
            assert forall|k: int|
                old(exceptions).has_key(k) && old(exceptions).index_of(k) >= m - 1
                implies #[trigger] kept.sem_at(k) == old(exceptions).sem_at(k).difference(
                    wildcard_value.sem().difference(wildcard_exceptions.sem_at(k)),
                ) by {
                if k == key as int {
                    assert(kept.sem_at(k) =~= old(exceptions).sem_at(k).difference(
                        wildcard_value.sem().difference(wildcard_exceptions.sem_at(k)),
                    ));
                }
            }
        }
    }
    proof {
        assert(exceptions.entries@ =~= Seq::<(u64, VB)>::empty());
    }
    *exceptions = kept;
    proof {
        assert forall|k: int|
            #[trigger] exceptions.sem_at(k) == old(exceptions).sem_at(k).difference(
                wildcard_value.sem().difference(wildcard_exceptions.sem_at(k)),
            ) by {
            if old(exceptions).has_key(k) {
                crate::list::lemma_has_key_index(*old(exceptions), k);
            } else {
                assert(exceptions.sem_at(k) =~= old(exceptions).sem_at(k).difference(
                    wildcard_value.sem().difference(wildcard_exceptions.sem_at(k)),
                ));
            }
        }
    }
}

impl<Value, OtherValue> UnionInPlace<KVListSet<OtherValue>> for KVListWithWildcardSet<Value> where
    Value: SetValue + DifferenceInPlace<Value> + IntersectionInPlace<OtherValue>
        + UnionInPlace<OtherValue> + FromSet<OtherValue>,
    OtherValue: SetValue + DifferenceInPlace<Value>,
{
    fn union_in_place(&mut self, rhs: &KVListSet<OtherValue>) {
        proof {
            assert forall|k: int|
                #[trigger] self.wildcard_exceptions.sem_at(k)
                    == old(self).wildcard_exceptions.sem_at(k).difference(
                        old(self).wildcard_value.sem().intersect(rhs.prefix_sem_at(0, k)))
                && self.rest_list.sem_at(k)
                    == old(self).rest_list.sem_at(k).union(
                        rhs.prefix_sem_at(0, k).difference(
                            old(self).wildcard_value.sem().intersect(rhs.prefix_sem_at(0, k))))
            by {
                assert(self.wildcard_exceptions.sem_at(k)
                    =~= old(self).wildcard_exceptions.sem_at(k).difference(
                        old(self).wildcard_value.sem().intersect(rhs.prefix_sem_at(0, k))));
                assert(self.rest_list.sem_at(k)
                    =~= old(self).rest_list.sem_at(k).union(
                        rhs.prefix_sem_at(0, k).difference(
                            old(self).wildcard_value.sem().intersect(rhs.prefix_sem_at(0, k)))));
            }
        }
        let n = rhs.entries.len();
        let mut idx: usize = 0;
        while idx < n
            invariant
                rhs.wf(),
                n == rhs.entries@.len(),
                idx <= n,
                old(self).wf(),
                self.wildcard_value == old(self).wildcard_value,
                self.wildcard_exceptions.wf(),
                self.rest_list.wf(),
                forall|k: int|
                    #[trigger] self.wildcard_exceptions.sem_at(k)
                        == old(self).wildcard_exceptions.sem_at(k).difference(
                            old(self).wildcard_value.sem().intersect(
                                rhs.prefix_sem_at(idx as int, k))),
                forall|k: int|
                    #[trigger] self.rest_list.sem_at(k)
                        == old(self).rest_list.sem_at(k).union(
                            rhs.prefix_sem_at(idx as int, k).difference(
                                old(self).wildcard_value.sem().intersect(
                                    rhs.prefix_sem_at(idx as int, k)))),
            decreases n - idx,
        {
            let key = rhs.entries[idx].0;
            proof {
                crate::list::lemma_entry_index(*rhs, idx as int);
                crate::list::lemma_prefix_step(*rhs, idx as int);
            }
            let ghost e0 = self.wildcard_exceptions.sem_at(key as int);
            let ghost r0 = self.rest_list.sem_at(key as int);
            let v = &rhs.entries[idx].1;
            proof {
                assert(*v == rhs.entries@[idx as int].1);
            }
            // The part of the incoming value the default already implies.
            let mut covered = self.wildcard_value.duplicate();
            covered.intersection_in_place(v);
            // The part it does not.
            let mut rest = v.duplicate();
            rest.difference_in_place(&covered);
            let ghost covered_sem = covered.sem();
            let ghost rest_sem = rest.sem();
            // A restored default needs no carve-out any more: shrink the
            // exception at this key, dropping it once it is empty.
            if !covered.is_empty() {
                match self.wildcard_exceptions.take_entry(key) {
                    Some(mut ev) => {
                        ev.difference_in_place(&covered);
                        if !ev.is_empty() {
                            self.wildcard_exceptions.put_entry(key, ev);
                        }
                    },
                    None => {},
                }
            }
            proof {
                assert(self.wildcard_exceptions.sem_at(key as int)
                    =~= e0.difference(covered_sem));
            }
            // What the default does not grant joins the explicit extras.
            if !rest.is_empty() {
                match self.rest_list.take_entry(key) {
                    Some(mut rv) => {
                        let ghost rv0 = rv;
                        rv.union_in_place(&rest);
                        proof {
                            lemma_nonempty(rv0.sem());
                            let t = choose|t: Seq<int>| #[trigger] rv0.sem().contains(t);
                            assert(rv.sem().contains(t));
                            lemma_nonempty(rv.sem());
                        }
                        self.rest_list.put_entry(key, rv);
                    },
                    None => {
                        self.rest_list.put_entry(key, Value::from_set(rest));
                    },
                }
            }
            proof {
                assert(self.rest_list.sem_at(key as int) =~= r0.union(rest_sem));
            }
            idx = idx + 1;
            proof {
                assert forall|k: int|
                    #[trigger] self.wildcard_exceptions.sem_at(k)
                        == old(self).wildcard_exceptions.sem_at(k).difference(
                            old(self).wildcard_value.sem().intersect(
                                rhs.prefix_sem_at(idx as int, k)))
                by {
                    if k == key as int {
                        assert(self.wildcard_exceptions.sem_at(k)
                            =~= old(self).wildcard_exceptions.sem_at(k).difference(
                                old(self).wildcard_value.sem().intersect(
                                    rhs.prefix_sem_at(idx as int, k))));
                    }
                }
                assert forall|k: int|
                    #[trigger] self.rest_list.sem_at(k)
                        == old(self).rest_list.sem_at(k).union(
                            rhs.prefix_sem_at(idx as int, k).difference(
                                old(self).wildcard_value.sem().intersect(
                                    rhs.prefix_sem_at(idx as int, k))))
                by {
                    if k == key as int {
                        assert(self.rest_list.sem_at(k)
                            =~= old(self).rest_list.sem_at(k).union(
                                rhs.prefix_sem_at(idx as int, k).difference(
                                    old(self).wildcard_value.sem().intersect(
                                        rhs.prefix_sem_at(idx as int, k)))));
                    }
                }
            }
        }
        proof {
            crate::list::lemma_prefix_full(*rhs);
            assert forall|k: int|
                #[trigger] self.eff(k) == old(self).eff(k).union(rhs.sem_at(k)) by {
                lemma_wildcard_absorb_value(
                    old(self).wildcard_value.sem(),
                    old(self).wildcard_exceptions.sem_at(k),
                    old(self).rest_list.sem_at(k),
                    rhs.sem_at(k),
                );
                assert(self.eff(k) =~= old(self).eff(k).union(rhs.sem_at(k)));
            }
            lemma_paths_of_union(
                |k: int| old(self).eff(k),
                |k: int| rhs.sem_at(k),
                |k: int| self.eff(k),
            );
            assert(self.sem() =~= paths_of(|k: int| self.eff(k)));
            assert(old(self).sem() =~= paths_of(|k: int| old(self).eff(k)));
            assert(rhs.sem() =~= paths_of(|k: int| rhs.sem_at(k)));
        }
    }
}

impl<Value, OtherValue> DifferenceInPlace<KVListSet<OtherValue>> for KVListWithWildcardSet<Value> where
    Value: SetValue + DifferenceInPlace<OtherValue> + IntersectionInPlace<OtherValue>
        + UnionInPlace<Value>,
    OtherValue: SetValue,
{
    fn difference_in_place(&mut self, rhs: &KVListSet<OtherValue>) {
        // Remove the explicit overrides the caller asked to remove.
        let ghost rest0 = self.rest_list;
        self.rest_list.difference_in_place(rhs);
        let ghost rest1 = self.rest_list;
        proof {
            lemma_difference_pointwise(rest0, *rhs, rest1);
        }
        // Record, per key, that the default is no longer granted where the
        // removed value overlapped it.
        proof {
            assert forall|k: int|
                #[trigger] self.wildcard_exceptions.sem_at(k)
                    == old(self).wildcard_exceptions.sem_at(k).union(
                        old(self).wildcard_value.sem().intersect(rhs.prefix_sem_at(0, k)))
            by {
                assert(self.wildcard_exceptions.sem_at(k)
                    =~= old(self).wildcard_exceptions.sem_at(k).union(
                        old(self).wildcard_value.sem().intersect(rhs.prefix_sem_at(0, k))));
            }
        }
        let n = rhs.entries.len();
        let mut idx: usize = 0;
        while idx < n
            invariant
                rhs.wf(),
                n == rhs.entries@.len(),
                idx <= n,
                old(self).wf(),
                self.wildcard_value == old(self).wildcard_value,
                self.rest_list == rest1,
                rest1.wf(),
                self.wildcard_exceptions.wf(),
                forall|k: int|
                    #[trigger] self.wildcard_exceptions.sem_at(k)
                        == old(self).wildcard_exceptions.sem_at(k).union(
                            old(self).wildcard_value.sem().intersect(
                                rhs.prefix_sem_at(idx as int, k))),
            decreases n - idx,
        {
            let key = rhs.entries[idx].0;
            proof {
                crate::list::lemma_entry_index(*rhs, idx as int);
                crate::list::lemma_prefix_step(*rhs, idx as int);
            }
            let ghost e0 = self.wildcard_exceptions.sem_at(key as int);
            let v = &rhs.entries[idx].1;
            proof {
                assert(*v == rhs.entries@[idx as int].1);
            }
            let mut overlap = self.wildcard_value.duplicate();
            overlap.intersection_in_place(v);
            let ghost overlap_sem = overlap.sem();
            if !overlap.is_empty() {
                match self.wildcard_exceptions.take_entry(key) {
                    Some(mut ev) => {
                        let ghost ev0 = ev;
                        ev.union_in_place(&overlap);
                        proof {
                            lemma_nonempty(ev0.sem());
                            let t = choose|t: Seq<int>| #[trigger] ev0.sem().contains(t);
                            assert(ev.sem().contains(t));
                            lemma_nonempty(ev.sem());
                        }
                        self.wildcard_exceptions.put_entry(key, ev);
                    },
                    None => {
                        self.wildcard_exceptions.put_entry(key, overlap);
                    },
                }
            }
            idx = idx + 1;
            proof {
                assert forall|k: int|
                    #[trigger] self.wildcard_exceptions.sem_at(k)
                        == old(self).wildcard_exceptions.sem_at(k).union(
                            old(self).wildcard_value.sem().intersect(
                                rhs.prefix_sem_at(idx as int, k)))
                by {
                    if k == key as int {
                        assert(self.wildcard_exceptions.sem_at(k)
                            =~= old(self).wildcard_exceptions.sem_at(k).union(
                                old(self).wildcard_value.sem().intersect(
                                    rhs.prefix_sem_at(idx as int, k))));
                    }
                }
            }
        }
        proof {
            crate::list::lemma_prefix_full(*rhs);
            assert forall|k: int|
                #[trigger] self.eff(k) == old(self).eff(k).difference(rhs.sem_at(k)) by {
                lemma_wildcard_carve_value(
                    old(self).wildcard_value.sem(),
                    old(self).wildcard_exceptions.sem_at(k),
                    old(self).rest_list.sem_at(k),
                    rhs.sem_at(k),
                );
                assert(self.eff(k) =~= old(self).eff(k).difference(rhs.sem_at(k)));
            }
            crate::set::lemma_paths_of_difference(
                |k: int| old(self).eff(k),
                |k: int| rhs.sem_at(k),
                |k: int| self.eff(k),
            );
            assert(self.sem() =~= paths_of(|k: int| self.eff(k)));
            assert(old(self).sem() =~= paths_of(|k: int| old(self).eff(k)));
            assert(rhs.sem() =~= paths_of(|k: int| rhs.sem_at(k)));
        }
    }
}

/// The per-key algebra of uniting an incoming value `v` with a wildcard
/// slot: the part of `v` the default already implies shrinks the carve-out,
/// and the part it does not joins the explicit extras.
proof fn lemma_wildcard_absorb_value(w: Paths, e: Paths, r: Paths, v: Paths)
    ensures
        r.union(v.difference(w.intersect(v))).union(
            w.difference(e.difference(w.intersect(v))),
        ) == r.union(w.difference(e)).union(v),
{
    assert(r.union(v.difference(w.intersect(v))).union(
        w.difference(e.difference(w.intersect(v))),
    ) =~= r.union(w.difference(e)).union(v));
}

/// The per-key algebra of subtracting an incoming value `v` from a
/// wildcard slot: the overlap with the default becomes a carve-out, and
/// the explicit extra is thinned directly.
proof fn lemma_wildcard_carve_value(w: Paths, e: Paths, r: Paths, v: Paths)
    ensures
        r.difference(v).union(w.difference(e.union(w.intersect(v))))
            == r.union(w.difference(e)).difference(v),
{
    assert(r.difference(v).union(w.difference(e.union(w.intersect(v))))
        =~= r.union(w.difference(e)).difference(v));
}

/// The per-key algebra of the four-part wildcard merge, with the
/// intermediate values named: `cr` is the right carve-out cleaned against
/// the left side, `e1` the left carve-out cleaned against the right side,
/// `e2`/`w2`/`r2` the merged carve-outs, defaults and extras, and `r3` the
/// merged extras stripped of what the merged default already covers.
proof fn lemma_wildcard_union_merge(
    sw: Paths,
    se: Paths,
    sr: Paths,
    rw: Paths,
    re: Paths,
    rr: Paths,
    cr: Paths,
    e1: Paths,
    e2: Paths,
    w2: Paths,
    r2: Paths,
    r3: Paths,
)
    requires
        cr == re.difference(sw.difference(se)).difference(sr),
        e1 == se.difference(rw.difference(re)).difference(rr),
        e2 == e1.union(cr),
        w2 == sw.union(rw),
        r2 == sr.union(rr),
        r3 == r2.difference(w2.difference(e2)),
    ensures
        r3.union(w2.difference(e2))
            == sr.union(sw.difference(se)).union(rr.union(rw.difference(re))),
{
    assert(r3.union(w2.difference(e2))
        =~= sr.union(sw.difference(se)).union(rr.union(rw.difference(re))));
}

impl<Value, OtherValue> UnionInPlace<KVListWithWildcardSet<OtherValue>>
    for KVListWithWildcardSet<Value> where
    Value: SetValue + DifferenceInPlace<Value> + DifferenceInPlace<OtherValue>
        + UnionInPlace<OtherValue> + FromSet<OtherValue>,
    OtherValue: SetValue + DifferenceInPlace<Value> + DifferenceInPlace<OtherValue>,
{
    fn union_in_place(&mut self, rhs: &KVListWithWildcardSet<OtherValue>) {
        // Clean the right operand's carve-outs against this side's
        // effective default, then against this side's explicit extras:
        // whatever this side grants needs no exception bookkeeping.
        let mut cleaned_rhs_wildcard_exceptions = rhs.wildcard_exceptions.duplicate();
        proof {
            lemma_sem_determines_sem_at(
                cleaned_rhs_wildcard_exceptions,
                rhs.wildcard_exceptions,
            );
        }
        remove_covered_values(
            &mut cleaned_rhs_wildcard_exceptions,
            &self.wildcard_value,
            &self.wildcard_exceptions,
        );
        let ghost cleaned1 = cleaned_rhs_wildcard_exceptions;
        cleaned_rhs_wildcard_exceptions.difference_in_place(&self.rest_list);
        proof {
            lemma_difference_pointwise(
                cleaned1,
                self.rest_list,
                cleaned_rhs_wildcard_exceptions,
            );
            assert forall|k: int|
                #[trigger] cleaned_rhs_wildcard_exceptions.sem_at(k)
                    == rhs.wildcard_exceptions.sem_at(k).difference(
                        old(self).wildcard_value.sem().difference(
                            old(self).wildcard_exceptions.sem_at(k)),
                    ).difference(old(self).rest_list.sem_at(k))
            by {}
        }
        // Symmetrically clean this side's carve-outs against the right
        // operand.
        remove_covered_values(
            &mut self.wildcard_exceptions,
            &rhs.wildcard_value,
            &rhs.wildcard_exceptions,
        );
        let ghost exc1 = self.wildcard_exceptions;
        self.wildcard_exceptions.difference_in_place(&rhs.rest_list);
        proof {
            lemma_difference_pointwise(exc1, rhs.rest_list, self.wildcard_exceptions);
            assert forall|k: int|
                #[trigger] self.wildcard_exceptions.sem_at(k)
                    == old(self).wildcard_exceptions.sem_at(k).difference(
                        rhs.wildcard_value.sem().difference(rhs.wildcard_exceptions.sem_at(k)),
                    ).difference(rhs.rest_list.sem_at(k))
            by {}
        }
        // Merge the exception lists and the defaults.
        let ghost exc2 = self.wildcard_exceptions;
        self.wildcard_exceptions.union_in_place(&cleaned_rhs_wildcard_exceptions);
        proof {
            lemma_union_pointwise(
                exc2,
                cleaned_rhs_wildcard_exceptions,
                self.wildcard_exceptions,
            );
        }
        self.wildcard_value.union_in_place(&rhs.wildcard_value);
        // Merge the explicit extras, then strip whatever the newly merged
        // default already covers, keeping the representation minimal.
        let ghost rest0 = self.rest_list;
        self.rest_list.union_in_place(&rhs.rest_list);
        proof {
            lemma_union_pointwise(rest0, rhs.rest_list, self.rest_list);
        }
        let ghost rest2 = self.rest_list;
        remove_covered_values(
            &mut self.rest_list,
            &self.wildcard_value,
            &self.wildcard_exceptions,
        );
        proof {
            assert forall|k: int|
                #[trigger] self.eff(k) == old(self).eff(k).union(rhs.eff(k)) by {
                lemma_wildcard_union_merge(
                    old(self).wildcard_value.sem(),
                    old(self).wildcard_exceptions.sem_at(k),
                    old(self).rest_list.sem_at(k),
                    rhs.wildcard_value.sem(),
                    rhs.wildcard_exceptions.sem_at(k),
                    rhs.rest_list.sem_at(k),
                    cleaned_rhs_wildcard_exceptions.sem_at(k),
                    exc2.sem_at(k),
                    self.wildcard_exceptions.sem_at(k),
                    self.wildcard_value.sem(),
                    rest2.sem_at(k),
                    self.rest_list.sem_at(k),
                );
            }
            lemma_paths_of_union(
                |k: int| old(self).eff(k),
                |k: int| rhs.eff(k),
                |k: int| self.eff(k),
            );
            assert(self.sem() =~= paths_of(|k: int| self.eff(k)));
            assert(old(self).sem() =~= paths_of(|k: int| old(self).eff(k)));
            assert(rhs.sem() =~= paths_of(|k: int| rhs.eff(k)));
        }
    }
}

/// The per-key algebra of subtracting one wildcard shape from another,
/// with the intermediates named: `v1` is the part of this side's effective
/// default the right carve-out preserves, `w2` the thinned default, `x`
/// the part of the right extras the thinned default still grants, and
/// `r1`/`e2`/`r2`/`r3` the successive extras and carve-outs.
proof fn lemma_wildcard_difference_merge(
    sw: Paths,
    se: Paths,
    sr: Paths,
    rw: Paths,
    re: Paths,
    rr: Paths,
    v1: Paths,
    r1: Paths,
    w2: Paths,
    x: Paths,
    e2: Paths,
    r2: Paths,
    r3: Paths,
)
    requires
        v1 == sw.difference(se).intersect(re),
        r1 == sr.union(v1),
        w2 == sw.difference(rw),
        x == rr.intersect(w2),
        e2 == se.union(x),
        r2 == r1.difference(rr),
        r3 == r2.difference(rw.difference(re)),
    ensures
        r3.union(w2.difference(e2))
            == sr.union(sw.difference(se)).difference(rr.union(rw.difference(re))),
{
    assert(r3.union(w2.difference(e2))
        =~= sr.union(sw.difference(se)).difference(rr.union(rw.difference(re))));
}

impl<Value, OtherValue> DifferenceInPlace<KVListWithWildcardSet<OtherValue>>
    for KVListWithWildcardSet<Value> where
    Value: SetValue + DifferenceInPlace<Value> + DifferenceInPlace<OtherValue>
        + IntersectionInPlace<OtherValue> + UnionInPlace<OtherValue> + UnionInPlace<Value>
        + FromSet<OtherValue>,
    OtherValue: SetValue + IntersectionInPlace<Value> + DifferenceInPlace<OtherValue>,
{
    fn difference_in_place(&mut self, rhs: &KVListWithWildcardSet<OtherValue>) {
        // Where the right operand carves its own default out, this side's
        // effective default survives the subtraction: record that part as
        // an explicit extra before the default is thinned.
        proof {
            assert forall|k: int|
                #[trigger] self.rest_list.sem_at(k)
                    == old(self).rest_list.sem_at(k).union(
                        old(self).wildcard_value.sem().difference(
                            old(self).wildcard_exceptions.sem_at(k),
                        ).intersect(rhs.wildcard_exceptions.prefix_sem_at(0, k)))
            by {
                assert(self.rest_list.sem_at(k)
                    =~= old(self).rest_list.sem_at(k).union(
                        old(self).wildcard_value.sem().difference(
                            old(self).wildcard_exceptions.sem_at(k),
                        ).intersect(rhs.wildcard_exceptions.prefix_sem_at(0, k))));
            }
        }
        let n = rhs.wildcard_exceptions.entries.len();
        let mut idx: usize = 0;
        while idx < n
            invariant
                rhs.wf(),
                n == rhs.wildcard_exceptions.entries@.len(),
                idx <= n,
                old(self).wf(),
                self.wildcard_value == old(self).wildcard_value,
                self.wildcard_exceptions == old(self).wildcard_exceptions,
                self.rest_list.wf(),
                forall|k: int|
                    #[trigger] self.rest_list.sem_at(k)
                        == old(self).rest_list.sem_at(k).union(
                            old(self).wildcard_value.sem().difference(
                                old(self).wildcard_exceptions.sem_at(k),
                            ).intersect(rhs.wildcard_exceptions.prefix_sem_at(idx as int, k))),
            decreases n - idx,
        {
            let key = rhs.wildcard_exceptions.entries[idx].0;
            proof {
                crate::list::lemma_entry_index(rhs.wildcard_exceptions, idx as int);
                crate::list::lemma_prefix_step(rhs.wildcard_exceptions, idx as int);
            }
            let ghost r0 = self.rest_list.sem_at(key as int);
            let other_exception = &rhs.wildcard_exceptions.entries[idx].1;
            proof {
                assert(*other_exception == rhs.wildcard_exceptions.entries@[idx as int].1);
            }
            let mut value = self.wildcard_value.duplicate();
            match self.wildcard_exceptions.find_key(key) {
                Some(j) => {
                    proof {
                        crate::list::lemma_entry_index(self.wildcard_exceptions, j as int);
                    }
                    value.difference_in_place(&self.wildcard_exceptions.entries[j].1);
                },
                None => {
                    proof {
                        assert(self.wildcard_value.sem().difference(
                            self.wildcard_exceptions.sem_at(key as int),
                        ) =~= self.wildcard_value.sem());
                    }
                },
            }
            value.intersection_in_place(other_exception);
            let ghost value_sem = value.sem();
            if !value.is_empty() {
                match self.rest_list.take_entry(key) {
                    Some(mut rv) => {
                        let ghost rv0 = rv;
                        rv.union_in_place(&value);
                        proof {
                            lemma_nonempty(rv0.sem());
                            let t = choose|t: Seq<int>| #[trigger] rv0.sem().contains(t);
                            assert(rv.sem().contains(t));
                            lemma_nonempty(rv.sem());
                        }
                        self.rest_list.put_entry(key, rv);
                    },
                    None => {
                        self.rest_list.put_entry(key, value);
                    },
                }
            }
            idx = idx + 1;
            proof {
                assert forall|k: int|
                    #[trigger] self.rest_list.sem_at(k)
                        == old(self).rest_list.sem_at(k).union(
                            old(self).wildcard_value.sem().difference(
                                old(self).wildcard_exceptions.sem_at(k),
                            ).intersect(rhs.wildcard_exceptions.prefix_sem_at(idx as int, k)))
                by {
                    if k == key as int {
                        assert(self.rest_list.sem_at(k)
                            =~= old(self).rest_list.sem_at(k).union(
                                old(self).wildcard_value.sem().difference(
                                    old(self).wildcard_exceptions.sem_at(k),
                                ).intersect(
                                    rhs.wildcard_exceptions.prefix_sem_at(idx as int, k))));
                    }
                }
            }
        }
        proof {
            crate::list::lemma_prefix_full(rhs.wildcard_exceptions);
        }
        let ghost rest1 = self.rest_list;
        // Thin the default by the right operand's default.
        self.wildcard_value.difference_in_place(&rhs.wildcard_value);
        // Where the right operand's explicit extras overlap what is left
        // of the default, record a carve-out.
        proof {
            assert forall|k: int|
                #[trigger] self.wildcard_exceptions.sem_at(k)
                    == old(self).wildcard_exceptions.sem_at(k).union(
                        rhs.rest_list.prefix_sem_at(0, k).intersect(self.wildcard_value.sem()))
            by {
                assert(self.wildcard_exceptions.sem_at(k)
                    =~= old(self).wildcard_exceptions.sem_at(k).union(
                        rhs.rest_list.prefix_sem_at(0, k).intersect(
                            self.wildcard_value.sem())));
            }
        }
        let ghost w2 = self.wildcard_value;
        let n2 = rhs.rest_list.entries.len();
        let mut idx2: usize = 0;
        while idx2 < n2
            invariant
                rhs.wf(),
                n2 == rhs.rest_list.entries@.len(),
                idx2 <= n2,
                old(self).wf(),
                self.wildcard_value == w2,
                w2.wf(),
                self.rest_list == rest1,
                rest1.wf(),
                self.wildcard_exceptions.wf(),
                forall|k: int|
                    #[trigger] self.wildcard_exceptions.sem_at(k)
                        == old(self).wildcard_exceptions.sem_at(k).union(
                            rhs.rest_list.prefix_sem_at(idx2 as int, k).intersect(w2.sem())),
            decreases n2 - idx2,
        {
            let key = rhs.rest_list.entries[idx2].0;
            proof {
                crate::list::lemma_entry_index(rhs.rest_list, idx2 as int);
                crate::list::lemma_prefix_step(rhs.rest_list, idx2 as int);
            }
            let ghost e0 = self.wildcard_exceptions.sem_at(key as int);
            let rv = &rhs.rest_list.entries[idx2].1;
            proof {
                assert(*rv == rhs.rest_list.entries@[idx2 as int].1);
            }
            let mut value = rv.duplicate();
            value.intersection_in_place(&self.wildcard_value);
            let ghost value_sem = value.sem();
            if !value.is_empty() {
                match self.wildcard_exceptions.take_entry(key) {
                    Some(mut ev) => {
                        let ghost ev0 = ev;
                        ev.union_in_place(&value);
                        proof {
                            lemma_nonempty(ev0.sem());
                            let t = choose|t: Seq<int>| #[trigger] ev0.sem().contains(t);
                            assert(ev.sem().contains(t));
                            lemma_nonempty(ev.sem());
                        }
                        self.wildcard_exceptions.put_entry(key, ev);
                    },
                    None => {
                        self.wildcard_exceptions.put_entry(key, Value::from_set(value));
                    },
                }
            }
            idx2 = idx2 + 1;
            proof {
                assert forall|k: int|
                    #[trigger] self.wildcard_exceptions.sem_at(k)
                        == old(self).wildcard_exceptions.sem_at(k).union(
                            rhs.rest_list.prefix_sem_at(idx2 as int, k).intersect(w2.sem()))
                by {
                    if k == key as int {
                        assert(self.wildcard_exceptions.sem_at(k)
                            =~= old(self).wildcard_exceptions.sem_at(k).union(
                                rhs.rest_list.prefix_sem_at(idx2 as int, k).intersect(
                                    w2.sem())));
                    }
                }
            }
        }
        proof {
            crate::list::lemma_prefix_full(rhs.rest_list);
        }
        // Thin the explicit extras by the right operand's, then strip what
        // the right operand's effective default removes as well.
        let ghost rest1b = self.rest_list;
        self.rest_list.difference_in_place(&rhs.rest_list);
        proof {
            lemma_difference_pointwise(rest1b, rhs.rest_list, self.rest_list);
        }
        let ghost rest2 = self.rest_list;
        remove_covered_values(
            &mut self.rest_list,
            &rhs.wildcard_value,
            &rhs.wildcard_exceptions,
        );
        proof {
            assert forall|k: int|
                #[trigger] self.eff(k) == old(self).eff(k).difference(rhs.eff(k)) by {
                lemma_wildcard_difference_merge(
                    old(self).wildcard_value.sem(),
                    old(self).wildcard_exceptions.sem_at(k),
                    old(self).rest_list.sem_at(k),
                    rhs.wildcard_value.sem(),
                    rhs.wildcard_exceptions.sem_at(k),
                    rhs.rest_list.sem_at(k),
                    old(self).wildcard_value.sem().difference(
                        old(self).wildcard_exceptions.sem_at(k),
                    ).intersect(rhs.wildcard_exceptions.sem_at(k)),
                    rest1.sem_at(k),
                    self.wildcard_value.sem(),
                    rhs.rest_list.sem_at(k).intersect(w2.sem()),
                    self.wildcard_exceptions.sem_at(k),
                    rest2.sem_at(k),
                    self.rest_list.sem_at(k),
                );
            }
            crate::set::lemma_paths_of_difference(
                |k: int| old(self).eff(k),
                |k: int| rhs.eff(k),
                |k: int| self.eff(k),
            );
            assert(self.sem() =~= paths_of(|k: int| self.eff(k)));
            assert(old(self).sem() =~= paths_of(|k: int| old(self).eff(k)));
            assert(rhs.sem() =~= paths_of(|k: int| rhs.eff(k)));
        }
    }
}

} // verus!
