//! The key→sub-set mapping: a finite association of `u64` keys to
//! sub-values, each itself a set.
//!
//! Semantically a `KVListSet` is the disjoint union, over all keys, of each
//! key's sub-set: it grants the path `k :: t` exactly when the sub-value
//! stored at `k` grants `t`, and an absent key behaves as the empty
//! sub-set.  The representation invariant keeps the mapping canonical: keys
//! are unique and no stored sub-value is empty, so every operation that can
//! shrink a sub-value prunes the entries it empties.

use vstd::prelude::*;

use crate::set::{
    lemma_difference_empty, lemma_intersect_empty, lemma_nonempty, lemma_paths_of_eq,
    lemma_paths_of_difference, lemma_paths_of_intersect, lemma_paths_of_sym_diff,
    lemma_paths_of_union, lemma_sym_diff_empty, lemma_union_empty, paths_of, sym_diff,
    DifferenceInPlace, DisjunctiveUnionInPlace, FromSet, Intersection, IntersectionInPlace,
    Paths, SetEq, SetValue, UnionInPlace,
};

verus! {

/// Set-variation of a key-value list.  Does operations on sub-values based
/// on key.
#[derive(Clone, Debug, PartialEq, Eq)]
pub struct KVListSet<Value> {
    pub entries: Vec<(u64, Value)>,
}

impl<Value: SetValue> KVListSet<Value> {
    /// Whether some entry stores the key `k`.
    pub open spec fn has_key(&self, k: int) -> bool {
        exists|i: int|
            0 <= i < self.entries@.len() && (#[trigger] self.entries@[i]).0 as int == k
    }

    /// The position of the entry storing `k` (meaningful when `has_key(k)`
    /// and the keys are unique).
    pub open spec fn index_of(&self, k: int) -> int {
        choose|i: int|
            0 <= i < self.entries@.len() && (#[trigger] self.entries@[i]).0 as int == k
    }

    /// The sub-value stored at `k` (meaningful when `has_key(k)`).
    pub open spec fn val_at(&self, k: int) -> Value {
        self.entries@[self.index_of(k)].1
    }

    /// What the mapping grants below key `k`: the denotation of the
    /// sub-value stored there, or nothing when the key is absent.
    pub open spec fn sem_at(&self, k: int) -> Paths {
        if self.has_key(k) {
            self.val_at(k).sem()
        } else {
            Set::empty()
        }
    }

    /// No two entries store the same key.
    pub open spec fn keys_unique(&self) -> bool {
        forall|i: int, j: int|
            0 <= i < self.entries@.len() && 0 <= j < self.entries@.len() && i != j
                ==> (#[trigger] self.entries@[i]).0 != (#[trigger] self.entries@[j]).0
    }

    /// Every stored sub-value satisfies its own invariant.
    pub open spec fn vals_wf(&self) -> bool {
        forall|i: int| 0 <= i < self.entries@.len() ==> (#[trigger] self.entries@[i]).1.wf()
    }

    /// No stored sub-value is empty.
    pub open spec fn entries_nonempty(&self) -> bool {
        forall|i: int|
            0 <= i < self.entries@.len() ==> !(#[trigger] self.entries@[i]).1.sem().is_empty()
    }

    /// Whether one of the first `m` entries stores the key `k`.
    pub open spec fn prefix_has_key(&self, m: int, k: int) -> bool {
        exists|j: int|
            0 <= j < m && j < self.entries@.len() && (#[trigger] self.entries@[j]).0 as int == k
    }

    /// What the first `m` entries grant below key `k`.
    pub open spec fn prefix_sem_at(&self, m: int, k: int) -> Paths {
        if self.prefix_has_key(m, k) {
            self.sem_at(k)
        } else {
            Set::empty()
        }
    }
}

/// A present key names an entry in range.
pub proof fn lemma_has_key_index<Value: SetValue>(lst: KVListSet<Value>, k: int)
    requires
        lst.has_key(k),
    ensures
        0 <= lst.index_of(k) < lst.entries@.len(),
        lst.entries@[lst.index_of(k)].0 as int == k,
{
}

/// With unique keys, the entry at position `i` is the one its key names.
pub proof fn lemma_entry_index<Value: SetValue>(lst: KVListSet<Value>, i: int)
    requires
        lst.keys_unique(),
        0 <= i < lst.entries@.len(),
    ensures
        lst.has_key(lst.entries@[i].0 as int),
        lst.index_of(lst.entries@[i].0 as int) == i,
        lst.val_at(lst.entries@[i].0 as int) == lst.entries@[i].1,
        lst.sem_at(lst.entries@[i].0 as int) == lst.entries@[i].1.sem(),
{
    let k = lst.entries@[i].0 as int;
    assert(lst.has_key(k));
    let j = lst.index_of(k);
    lemma_has_key_index(lst, k);
    if j != i {
        assert(lst.entries@[i].0 != lst.entries@[j].0);
        assert(false);
    }
}

/// A key is present exactly when the mapping grants something below it.
pub proof fn lemma_has_key_nonempty<Value: SetValue>(lst: KVListSet<Value>, k: int)
    requires
        lst.entries_nonempty(),
    ensures
        lst.has_key(k) <==> !lst.sem_at(k).is_empty(),
{
    if lst.has_key(k) {
        lemma_has_key_index(lst, k);
        assert(!lst.entries@[lst.index_of(k)].1.sem().is_empty());
    }
}

/// What removing the entry at position `i` does to the mapping: the entry's
/// key becomes absent and every other key keeps its sub-set.
proof fn lemma_remove_entry<Value: SetValue>(
    pre: KVListSet<Value>,
    post: KVListSet<Value>,
    i: int,
)
    requires
        pre.keys_unique(),
        0 <= i < pre.entries@.len(),
        post.entries@ == pre.entries@.remove(i),
    ensures
        post.keys_unique(),
        pre.vals_wf() ==> post.vals_wf(),
        pre.entries_nonempty() ==> post.entries_nonempty(),
        !post.has_key(pre.entries@[i].0 as int),
        forall|k: int|
            k != pre.entries@[i].0 as int
                ==> #[trigger] post.has_key(k) == pre.has_key(k),
        forall|k: int|
            k != pre.entries@[i].0 as int
                ==> #[trigger] post.sem_at(k) == pre.sem_at(k),
{
    let key = pre.entries@[i].0 as int;
    // Every surviving position holds the entry one step later when it sat
    // past the removal point.
    assert(forall|j: int|
        0 <= j < post.entries@.len()
            ==> #[trigger] post.entries@[j] == (if j < i {
                pre.entries@[j]
            } else {
                pre.entries@[j + 1]
            }));
    if post.has_key(key) {
        let j = choose|j: int|
            0 <= j < post.entries@.len() && (#[trigger] post.entries@[j]).0 as int == key;
        if j < i {
            assert(pre.entries@[j].0 != pre.entries@[i].0);
        } else {
            assert(pre.entries@[j + 1].0 != pre.entries@[i].0);
        }
        assert(false);
    }
    assert forall|k: int| k != key implies #[trigger] post.has_key(k) == pre.has_key(k) by {
        if pre.has_key(k) {
            let jp = pre.index_of(k);
            lemma_has_key_index(pre, k);
            if jp < i {
                assert(post.entries@[jp].0 as int == k);
            } else {
                assert(jp != i);
                assert(post.entries@[jp - 1].0 as int == k);
            }
            assert(post.has_key(k));
        }
        if post.has_key(k) {
            let j = choose|j: int|
                0 <= j < post.entries@.len() && (#[trigger] post.entries@[j]).0 as int == k;
            if j < i {
                assert(pre.entries@[j].0 as int == k);
            } else {
                assert(pre.entries@[j + 1].0 as int == k);
            }
            assert(pre.has_key(k));
        }
    }
    assert forall|k: int| k != key implies #[trigger] post.sem_at(k) == pre.sem_at(k) by {
        if pre.has_key(k) {
            let jp = pre.index_of(k);
            lemma_has_key_index(pre, k);
            let jq: int = if jp < i {
                jp
            } else {
                jp - 1
            };
            assert(post.entries@[jq].0 as int == k);
            lemma_entry_index(post, jq);
            assert(post.val_at(k) == pre.val_at(k));
        }
    }
}

/// What appending an entry with a fresh key does to the mapping: the new
/// key grants the new sub-value's paths and every other key is untouched.
proof fn lemma_push_entry<Value: SetValue>(
    pre: KVListSet<Value>,
    post: KVListSet<Value>,
    key: u64,
    value: Value,
)
    requires
        pre.keys_unique(),
        !pre.has_key(key as int),
        post.entries@ == pre.entries@.push((key, value)),
    ensures
        post.keys_unique(),
        pre.vals_wf() && value.wf() ==> post.vals_wf(),
        pre.entries_nonempty() && !value.sem().is_empty() ==> post.entries_nonempty(),
        post.has_key(key as int),
        post.sem_at(key as int) == value.sem(),
        forall|k: int| k != key as int ==> #[trigger] post.has_key(k) == pre.has_key(k),
        forall|k: int| k != key as int ==> #[trigger] post.sem_at(k) == pre.sem_at(k),
{
    let n = pre.entries@.len() as int;
    assert(post.entries@[n] == (key, value));
    assert(forall|j: int| 0 <= j < n ==> #[trigger] post.entries@[j] == pre.entries@[j]);
    assert forall|i: int, j: int|
        0 <= i < post.entries@.len() && 0 <= j < post.entries@.len() && i != j
        implies (#[trigger] post.entries@[i]).0 != (#[trigger] post.entries@[j]).0 by {
        if i == n {
            assert(pre.entries@[j].0 as int != key as int);
        } else if j == n {
            assert(pre.entries@[i].0 as int != key as int);
        }
    }
    assert(post.has_key(key as int));
    lemma_entry_index(post, n);
    assert forall|k: int| k != key as int implies #[trigger] post.has_key(k) == pre.has_key(k) by {
        if pre.has_key(k) {
            lemma_has_key_index(pre, k);
            assert(post.entries@[pre.index_of(k)].0 as int == k);
        }
        if post.has_key(k) {
            let j = choose|j: int|
                0 <= j < post.entries@.len() && (#[trigger] post.entries@[j]).0 as int == k;
            assert(j != n);
            assert(pre.entries@[j].0 as int == k);
        }
    }
    assert forall|k: int| k != key as int implies #[trigger] post.sem_at(k) == pre.sem_at(k) by {
        if pre.has_key(k) {
            let jp = pre.index_of(k);
            lemma_has_key_index(pre, k);
            assert(post.entries@[jp].0 as int == k);
            lemma_entry_index(post, jp);
            assert(post.val_at(k) == pre.val_at(k));
        }
    }
}

impl<Value: SetValue> KVListSet<Value> {
    /// A fresh, empty mapping.
    pub fn new() -> (r: Self)
        ensures
            r.wf(),
            r.sem().is_empty(),
            r.entries@.len() == 0,
    {
        let r = KVListSet { entries: Vec::new() };
        proof {
            assert(r.sem() =~= Set::<Seq<int>>::empty());
        }
        r
    }

    /// The position of the entry storing `key`, if any.
    pub(crate) fn find_key(&self, key: u64) -> (r: Option<usize>)
        ensures
            match r {
                Some(i) => i < self.entries@.len() && self.entries@[i as int].0 == key
                    && self.has_key(key as int),
                None => !self.has_key(key as int),
            },
    {
        let n = self.entries.len();
        let mut i: usize = 0;
        while i < n
            invariant
                i <= n,
                n == self.entries@.len(),
                forall|j: int| 0 <= j < i ==> (#[trigger] self.entries@[j]).0 != key,
            decreases n - i,
        {
            if self.entries[i].0 == key {
                return Some(i);
            }
            i = i + 1;
        }
        None
    }

    /// Remove and hand back the sub-value stored at `key`, if any.
    pub(crate) fn take_entry(&mut self, key: u64) -> (r: Option<Value>)
        requires
            old(self).keys_unique(),
            old(self).vals_wf(),
        ensures
            final(self).keys_unique(),
            final(self).vals_wf(),
            old(self).entries_nonempty() ==> final(self).entries_nonempty(),
            !final(self).has_key(key as int),
            forall|k: int|
                k != key as int ==> #[trigger] final(self).has_key(k) == old(self).has_key(k),
            forall|k: int|
                k != key as int ==> #[trigger] final(self).sem_at(k) == old(self).sem_at(k),
            match r {
                Some(v) => old(self).has_key(key as int) && v == old(self).val_at(key as int)
                    && v.wf() && v.sem() == old(self).sem_at(key as int),
                None => !old(self).has_key(key as int),
            },
    {
        match self.find_key(key) {
            Some(i) => {
                let ghost pre = *self;
                let e = self.entries.remove(i);
                proof {
                    lemma_entry_index(pre, i as int);
                    lemma_remove_entry(pre, *self, i as int);
                }
                Some(e.1)
            },
            None => None,
        }
    }

    /// Store `value` at the fresh key `key`.
    pub(crate) fn put_entry(&mut self, key: u64, value: Value)
        requires
            old(self).keys_unique(),
            old(self).vals_wf(),
            !old(self).has_key(key as int),
            value.wf(),
        ensures
            final(self).keys_unique(),
            final(self).vals_wf(),
            old(self).entries_nonempty() && !value.sem().is_empty()
                ==> final(self).entries_nonempty(),
            final(self).has_key(key as int),
            final(self).sem_at(key as int) == value.sem(),
            forall|k: int|
                k != key as int ==> #[trigger] final(self).has_key(k) == old(self).has_key(k),
            forall|k: int|
                k != key as int ==> #[trigger] final(self).sem_at(k) == old(self).sem_at(k),
    {
        let ghost pre = *self;
        let ghost v = value;
        self.entries.push((key, value));
        proof {
            lemma_push_entry(pre, *self, key, v);
        }
    }

    /// Drop every entry whose sub-value has become empty.  An absent key
    /// already grants nothing, so this changes no denotation; it only
    /// restores the canonical form.
    pub fn remove_empty_keys(&mut self)
        requires
            old(self).keys_unique(),
            old(self).vals_wf(),
        ensures
            final(self).wf(),
            forall|k: int| #[trigger] final(self).sem_at(k) == old(self).sem_at(k),
            final(self).sem() == old(self).sem(),
    {
        let mut kept = KVListSet::<Value> { entries: Vec::new() };
        while self.entries.len() != 0
            invariant
                old(self).keys_unique(),
                old(self).vals_wf(),
                self.entries@.len() <= old(self).entries@.len(),
                self.entries@ == old(self).entries@.subrange(0, self.entries@.len() as int),
                kept.keys_unique(),
                kept.vals_wf(),
                kept.entries_nonempty(),
                forall|k: int|
                    old(self).has_key(k) && old(self).index_of(k) >= self.entries@.len()
                        ==> #[trigger] kept.sem_at(k) == old(self).sem_at(k),
                forall|k: int|
                    !(old(self).has_key(k) && old(self).index_of(k) >= self.entries@.len())
                        ==> !(#[trigger] kept.has_key(k)),
            decreases self.entries@.len(),
        {
            let ghost m = self.entries@.len() as int;
            let e = self.entries.pop().unwrap();
            proof {
                assert(self.entries@ =~= old(self).entries@.subrange(0, m - 1));
                assert(e == old(self).entries@[m - 1]);
                lemma_entry_index(*old(self), m - 1);
            }
            let ghost key = e.0 as int;
            if !e.1.is_empty() {
                proof {
                    assert(!kept.has_key(key));
                }
                kept.put_entry(e.0, e.1);
            }
            proof {
                assert forall|k: int|
                    old(self).has_key(k) && old(self).index_of(k) >= m - 1
                    implies #[trigger] kept.sem_at(k) == old(self).sem_at(k) by {
                    if k == key {
                        if old(self).sem_at(k).is_empty() {
                            assert(kept.sem_at(k) =~= old(self).sem_at(k));
                        }
                    }
                }
            }
        }
        proof {
            assert(self.entries@ =~= Seq::<(u64, Value)>::empty());
        }
        self.entries = kept.entries;
        proof {
            assert forall|k: int| #[trigger] self.sem_at(k) == old(self).sem_at(k) by {
                if old(self).has_key(k) {
                    lemma_has_key_index(*old(self), k);
                } else {
                    assert(!self.has_key(k));
                }
            }
            lemma_paths_of_eq(
                |k: int| self.sem_at(k),
                |k: int| old(self).sem_at(k),
            );
            assert(self.sem() =~= paths_of(|k: int| self.sem_at(k)));
            assert(old(self).sem() =~= paths_of(|k: int| old(self).sem_at(k)));
        }
    }
}

impl<Value: SetValue> Default for KVListSet<Value> {
    fn default() -> (r: Self)
        ensures
            r.wf(),
            r.sem().is_empty(),
    {
        KVListSet::new()
    }
}

impl<Value: SetValue> SetValue for KVListSet<Value> {
    open spec fn wf(&self) -> bool {
        self.keys_unique() && self.vals_wf() && self.entries_nonempty()
    }

    open spec fn sem(&self) -> Paths {
        paths_of(|k: int| self.sem_at(k))
    }

    fn is_empty(&self) -> (r: bool) {
        let r = self.entries.len() == 0;
        proof {
            if r {
                assert forall|p: Seq<int>| !self.sem().contains(p) by {
                    if p.len() > 0 {
                        assert(!self.has_key(p[0]));
                        assert(!self.sem_at(p[0]).contains(p.skip(1)));
                    }
                }
                assert(self.sem() =~= Set::<Seq<int>>::empty());
            } else {
                lemma_entry_index(*self, 0);
                let k0 = self.entries@[0].0 as int;
                lemma_has_key_nonempty(*self, k0);
                lemma_nonempty(self.sem_at(k0));
                let t = choose|t: Seq<int>| #[trigger] self.sem_at(k0).contains(t);
                let p = seq![k0] + t;
                assert(p.skip(1) =~= t);
                assert(self.sem().contains(p));
                lemma_nonempty(self.sem());
            }
        }
        r
    }

    fn empty() -> (r: Self) {
        KVListSet::new()
    }

    fn duplicate(&self) -> (r: Self) {
        let mut r = KVListSet::<Value> { entries: Vec::new() };
        let n = self.entries.len();
        let mut i: usize = 0;
        while i < n
            invariant
                self.wf(),
                n == self.entries@.len(),
                i <= n,
                r.entries@.len() == i as int,
                forall|j: int|
                    0 <= j < i ==> (#[trigger] r.entries@[j]).0 == self.entries@[j].0,
                forall|j: int|
                    0 <= j < i
                        ==> (#[trigger] r.entries@[j]).1.wf()
                            && r.entries@[j].1.sem() == self.entries@[j].1.sem(),
            decreases n - i,
        {
            let key = self.entries[i].0;
            let dup = self.entries[i].1.duplicate();
            r.entries.push((key, dup));
            i = i + 1;
        }
        proof {
            lemma_pointwise_sem(*self, r);
            lemma_paths_of_eq(|k: int| r.sem_at(k), |k: int| self.sem_at(k));
            assert(r.sem() =~= paths_of(|k: int| r.sem_at(k)));
            assert(self.sem() =~= paths_of(|k: int| self.sem_at(k)));
            assert forall|i2: int| 0 <= i2 < r.entries@.len()
                implies !(#[trigger] r.entries@[i2]).1.sem().is_empty() by {
                assert(!self.entries@[i2].1.sem().is_empty());
            }
        }
        r
    }
}

/// Processing one more entry extends the prefix denotation at exactly that
/// entry's key, which the prefix cannot have held before (keys are
/// unique).
pub proof fn lemma_prefix_step<Value: SetValue>(lst: KVListSet<Value>, m: int)
    requires
        lst.keys_unique(),
        0 <= m < lst.entries@.len(),
    ensures
        !lst.prefix_has_key(m, lst.entries@[m].0 as int),
        lst.prefix_sem_at(m + 1, lst.entries@[m].0 as int)
            == lst.sem_at(lst.entries@[m].0 as int),
        forall|k: int|
            k != lst.entries@[m].0 as int
                ==> #[trigger] lst.prefix_sem_at(m + 1, k) == lst.prefix_sem_at(m, k),
{
    let key = lst.entries@[m].0 as int;
    if lst.prefix_has_key(m, key) {
        let j = choose|j: int|
            0 <= j < m && j < lst.entries@.len()
                && (#[trigger] lst.entries@[j]).0 as int == key;
        assert(lst.entries@[j].0 != lst.entries@[m].0);
        assert(false);
    }
    assert(lst.prefix_has_key(m + 1, key));
    assert forall|k: int|
        k != key implies #[trigger] lst.prefix_sem_at(m + 1, k) == lst.prefix_sem_at(m, k) by {
        if lst.prefix_has_key(m + 1, k) {
            let j = choose|j: int|
                0 <= j < m + 1 && j < lst.entries@.len()
                    && (#[trigger] lst.entries@[j]).0 as int == k;
            assert(j != m);
            assert(lst.prefix_has_key(m, k));
        }
    }
}

/// Once every entry is processed, the prefix denotation is the whole
/// mapping's denotation at every key.
pub proof fn lemma_prefix_full<Value: SetValue>(lst: KVListSet<Value>)
    ensures
        forall|k: int|
            #[trigger] lst.prefix_sem_at(lst.entries@.len() as int, k) == lst.sem_at(k),
{
    let n = lst.entries@.len() as int;
    assert forall|k: int| #[trigger] lst.prefix_sem_at(n, k) == lst.sem_at(k) by {
        if lst.has_key(k) {
            lemma_has_key_index(lst, k);
            assert(lst.prefix_has_key(n, k));
        }
    }
}

/// Two mappings that disagree below some key disagree as sets of paths.
pub proof fn lemma_sem_at_diff<Value: SetValue>(
    a: KVListSet<Value>,
    b: KVListSet<Value>,
    k: int,
)
    requires
        a.sem_at(k) != b.sem_at(k),
    ensures
        a.sem() != b.sem(),
{
    assert(!(a.sem_at(k) =~= b.sem_at(k)));
    let t = choose|t: Seq<int>|
        #[trigger] a.sem_at(k).contains(t) != b.sem_at(k).contains(t);
    let p = seq![k] + t;
    assert(p.skip(1) =~= t);
    assert(a.sem().contains(p) != b.sem().contains(p));
}

impl<Value: SetValue> KVListSet<Value> {
    /// Store `value` at `key`, replacing anything stored there.  Storing an
    /// empty value is the same as removing the key: an absent key already
    /// grants nothing, and the canonical form keeps no empty entries.
    pub fn insert(&mut self, key: u64, value: Value)
        requires
            old(self).wf(),
            value.wf(),
        ensures
            final(self).wf(),
            final(self).sem_at(key as int) == value.sem(),
            forall|k: int|
                k != key as int ==> #[trigger] final(self).sem_at(k) == old(self).sem_at(k),
    {
        let ghost gv = value;
        let _ = self.take_entry(key);
        if !value.is_empty() {
            self.put_entry(key, value);
        } else {
            proof {
                assert(self.sem_at(key as int) =~= gv.sem());
            }
        }
    }
}

impl<Value, OtherValue> UnionInPlace<KVListSet<OtherValue>> for KVListSet<Value> where
    Value: UnionInPlace<OtherValue> + FromSet<OtherValue>,
    OtherValue: SetValue,
{
    fn union_in_place(&mut self, other: &KVListSet<OtherValue>) {
        proof {
            assert forall|k: int|
                #[trigger] self.sem_at(k)
                    == old(self).sem_at(k).union(other.prefix_sem_at(0, k)) by {
                lemma_union_empty(old(self).sem_at(k));
            }
        }
        let n = other.entries.len();
        let mut idx: usize = 0;
        while idx < n
            invariant
                other.wf(),
                n == other.entries@.len(),
                idx <= n,
                self.keys_unique(),
                self.vals_wf(),
                self.entries_nonempty(),
                forall|k: int|
                    #[trigger] self.sem_at(k)
                        == old(self).sem_at(k).union(other.prefix_sem_at(idx as int, k)),
            decreases n - idx,
        {
            let key = other.entries[idx].0;
            proof {
                lemma_entry_index(*other, idx as int);
                lemma_prefix_step(*other, idx as int);
            }
            let ov = &other.entries[idx].1;
            proof {
                assert(*ov == other.entries@[idx as int].1);
                assert(self.sem_at(key as int)
                    == old(self).sem_at(key as int)
                        .union(other.prefix_sem_at(idx as int, key as int)));
            }
            match self.take_entry(key) {
                Some(mut v) => {
                    let ghost v_old = v;
                    v.union_in_place(ov);
                    proof {
                        lemma_nonempty(v_old.sem());
                        let t = choose|t: Seq<int>| #[trigger] v_old.sem().contains(t);
                        assert(v.sem().contains(t));
                        lemma_nonempty(v.sem());
                    }
                    self.put_entry(key, v);
                    proof {
                        assert(self.sem_at(key as int)
                            =~= old(self).sem_at(key as int).union(other.sem_at(key as int)));
                    }
                },
                None => {
                    if !ov.is_empty() {
                        let nv = Value::from_set(ov.duplicate());
                        self.put_entry(key, nv);
                    } else {
                        proof {
                            assert(other.sem_at(key as int) =~= Set::<Seq<int>>::empty());
                        }
                    }
                    proof {
                        lemma_nonempty(old(self).sem_at(key as int));
                        if !old(self).sem_at(key as int).is_empty() {
                            let t = choose|t: Seq<int>|
                                #[trigger] old(self).sem_at(key as int).contains(t);
                            assert(old(self).sem_at(key as int)
                                .union(other.prefix_sem_at(idx as int, key as int))
                                .contains(t));
                            assert(false);
                        }
                        assert(old(self).sem_at(key as int) =~= Set::<Seq<int>>::empty());
                        assert(self.sem_at(key as int)
                            =~= old(self).sem_at(key as int).union(other.sem_at(key as int)));
                    }
                },
            }
            idx = idx + 1;
            proof {
                assert forall|k: int|
                    #[trigger] self.sem_at(k)
                        == old(self).sem_at(k).union(other.prefix_sem_at(idx as int, k)) by {
                    if k == key as int {
                        assert(self.sem_at(k)
                            =~= old(self).sem_at(k).union(other.prefix_sem_at(idx as int, k)));
                    }
                }
            }
        }
        proof {
            lemma_prefix_full(*other);
            lemma_paths_of_union(
                |k: int| old(self).sem_at(k),
                |k: int| other.sem_at(k),
                |k: int| self.sem_at(k),
            );
            assert(self.sem() =~= paths_of(|k: int| self.sem_at(k)));
            assert(old(self).sem() =~= paths_of(|k: int| old(self).sem_at(k)));
            assert(other.sem() =~= paths_of(|k: int| other.sem_at(k)));
        }
    }
}

impl<Value, OtherValue> DifferenceInPlace<KVListSet<OtherValue>> for KVListSet<Value> where
    Value: DifferenceInPlace<OtherValue>,
    OtherValue: SetValue,
{
    fn difference_in_place(&mut self, other: &KVListSet<OtherValue>) {
        let mut kept = KVListSet::<Value> { entries: Vec::new() };
        while self.entries.len() != 0
            invariant
                old(self).wf(),
                other.wf(),
                self.entries@.len() <= old(self).entries@.len(),
                self.entries@ == old(self).entries@.subrange(0, self.entries@.len() as int),
                kept.keys_unique(),
                kept.vals_wf(),
                kept.entries_nonempty(),
                forall|k: int|
                    old(self).has_key(k) && old(self).index_of(k) >= self.entries@.len()
                        ==> #[trigger] kept.sem_at(k)
                            == old(self).sem_at(k).difference(other.sem_at(k)),
                forall|k: int|
                    !(old(self).has_key(k) && old(self).index_of(k) >= self.entries@.len())
                        ==> !(#[trigger] kept.has_key(k)),
            decreases self.entries@.len(),
        {
            let ghost m = self.entries@.len() as int;
            let e = self.entries.pop().unwrap();
            proof {
                assert(self.entries@ =~= old(self).entries@.subrange(0, m - 1));
                assert(e == old(self).entries@[m - 1]);
                lemma_entry_index(*old(self), m - 1);
            }
            let (key, mut v) = e;
            match other.find_key(key) {
                Some(j) => {
                    proof {
                        lemma_entry_index(*other, j as int);
                    }
                    let ov = &other.entries[j].1;
                    v.difference_in_place(ov);
                    if !v.is_empty() {
                        kept.put_entry(key, v);
                    }
                },
                None => {
                    proof {
                        lemma_difference_empty(old(self).sem_at(key as int));
                    }
                    kept.put_entry(key, v);
                },
            }
            proof {
                assert forall|k: int|
                    old(self).has_key(k) && old(self).index_of(k) >= m - 1
                    implies #[trigger] kept.sem_at(k)
                        == old(self).sem_at(k).difference(other.sem_at(k)) by {
                    if k == key as int {
                        assert(kept.sem_at(k)
                            =~= old(self).sem_at(k).difference(other.sem_at(k)));
                    }
                }
            }
        }
        proof {
            assert(self.entries@ =~= Seq::<(u64, Value)>::empty());
        }
        *self = kept;
        proof {
            assert forall|k: int|
                #[trigger] self.sem_at(k)
                    == old(self).sem_at(k).difference(other.sem_at(k)) by {
                if old(self).has_key(k) {
                    lemma_has_key_index(*old(self), k);
                } else {
                    lemma_difference_empty(other.sem_at(k));
                }
            }
            lemma_paths_of_difference(
                |k: int| old(self).sem_at(k),
                |k: int| other.sem_at(k),
                |k: int| self.sem_at(k),
            );
            assert(self.sem() =~= paths_of(|k: int| self.sem_at(k)));
            assert(old(self).sem() =~= paths_of(|k: int| old(self).sem_at(k)));
            assert(other.sem() =~= paths_of(|k: int| other.sem_at(k)));
        }
    }
}

impl<Value, OtherValue> IntersectionInPlace<KVListSet<OtherValue>> for KVListSet<Value> where
    Value: IntersectionInPlace<OtherValue>,
    OtherValue: SetValue,
{
    fn intersection_in_place(&mut self, other: &KVListSet<OtherValue>) {
        let mut kept = KVListSet::<Value> { entries: Vec::new() };
        while self.entries.len() != 0
            invariant
                old(self).wf(),
                other.wf(),
                self.entries@.len() <= old(self).entries@.len(),
                self.entries@ == old(self).entries@.subrange(0, self.entries@.len() as int),
                kept.keys_unique(),
                kept.vals_wf(),
                kept.entries_nonempty(),
                forall|k: int|
                    old(self).has_key(k) && old(self).index_of(k) >= self.entries@.len()
                        ==> #[trigger] kept.sem_at(k)
                            == old(self).sem_at(k).intersect(other.sem_at(k)),
                forall|k: int|
                    !(old(self).has_key(k) && old(self).index_of(k) >= self.entries@.len())
                        ==> !(#[trigger] kept.has_key(k)),
            decreases self.entries@.len(),
        {
            let ghost m = self.entries@.len() as int;
            let e = self.entries.pop().unwrap();
            proof {
                assert(self.entries@ =~= old(self).entries@.subrange(0, m - 1));
                assert(e == old(self).entries@[m - 1]);
                lemma_entry_index(*old(self), m - 1);
            }
            let (key, mut v) = e;
            match other.find_key(key) {
                Some(j) => {
                    proof {
                        lemma_entry_index(*other, j as int);
                    }
                    let ov = &other.entries[j].1;
                    v.intersection_in_place(ov);
                    if !v.is_empty() {
                        kept.put_entry(key, v);
                    }
                },
                None => {
                    proof {
                        lemma_intersect_empty(old(self).sem_at(key as int));
                    }
                },
            }
            proof {
                assert forall|k: int|
                    old(self).has_key(k) && old(self).index_of(k) >= m - 1
                    implies #[trigger] kept.sem_at(k)
                        == old(self).sem_at(k).intersect(other.sem_at(k)) by {
                    if k == key as int {
                        assert(kept.sem_at(k)
                            =~= old(self).sem_at(k).intersect(other.sem_at(k)));
                    }
                }
            }
        }
        proof {
            assert(self.entries@ =~= Seq::<(u64, Value)>::empty());
        }
        *self = kept;
        proof {
            assert forall|k: int|
                #[trigger] self.sem_at(k)
                    == old(self).sem_at(k).intersect(other.sem_at(k)) by {
                if old(self).has_key(k) {
                    lemma_has_key_index(*old(self), k);
                } else {
                    lemma_intersect_empty(other.sem_at(k));
                }
            }
            lemma_paths_of_intersect(
                |k: int| old(self).sem_at(k),
                |k: int| other.sem_at(k),
                |k: int| self.sem_at(k),
            );
            assert(self.sem() =~= paths_of(|k: int| self.sem_at(k)));
            assert(old(self).sem() =~= paths_of(|k: int| old(self).sem_at(k)));
            assert(other.sem() =~= paths_of(|k: int| other.sem_at(k)));
        }
    }
}

impl<Value, OtherValue> Intersection<KVListSet<OtherValue>> for KVListSet<Value> where
    Value: IntersectionInPlace<OtherValue>,
    OtherValue: SetValue,
{
    fn intersection(self, other: &KVListSet<OtherValue>) -> (r: Self) {
        let mut r = self;
        r.intersection_in_place(other);
        r
    }
}

impl<Value, OtherValue> DisjunctiveUnionInPlace<KVListSet<OtherValue>> for KVListSet<Value> where
    Value: DisjunctiveUnionInPlace<OtherValue> + FromSet<OtherValue>,
    OtherValue: SetValue,
{
    fn disjunctive_union_in_place(&mut self, other: &KVListSet<OtherValue>) {
        let mut kept = KVListSet::<Value> { entries: Vec::new() };
        // Fold the right operand into every key the left already stores;
        // entries emptied by the symmetric difference are kept for now and
        // pruned at the very end.
        while self.entries.len() != 0
            invariant
                old(self).wf(),
                other.wf(),
                self.entries@.len() <= old(self).entries@.len(),
                self.entries@ == old(self).entries@.subrange(0, self.entries@.len() as int),
                kept.keys_unique(),
                kept.vals_wf(),
                forall|k: int|
                    old(self).has_key(k) && old(self).index_of(k) >= self.entries@.len()
                        ==> #[trigger] kept.sem_at(k)
                            == sym_diff(old(self).sem_at(k), other.sem_at(k)),
                forall|k: int|
                    old(self).has_key(k) && old(self).index_of(k) >= self.entries@.len()
                        ==> #[trigger] kept.has_key(k),
                forall|k: int|
                    !(old(self).has_key(k) && old(self).index_of(k) >= self.entries@.len())
                        ==> !(#[trigger] kept.has_key(k)),
            decreases self.entries@.len(),
        {
            let ghost m = self.entries@.len() as int;
            let e = self.entries.pop().unwrap();
            proof {
                assert(self.entries@ =~= old(self).entries@.subrange(0, m - 1));
                assert(e == old(self).entries@[m - 1]);
                lemma_entry_index(*old(self), m - 1);
            }
            let (key, mut v) = e;
            match other.find_key(key) {
                Some(j) => {
                    proof {
                        lemma_entry_index(*other, j as int);
                    }
                    let ov = &other.entries[j].1;
                    v.disjunctive_union_in_place(ov);
                },
                None => {
                    proof {
                        lemma_sym_diff_empty(old(self).sem_at(key as int));
                    }
                },
            }
            kept.put_entry(key, v);
        }
        proof {
            assert(self.entries@ =~= Seq::<(u64, Value)>::empty());
        }
        *self = kept;
        // Adopt a converted copy of every key only the right operand
        // stores.
        let n = other.entries.len();
        let mut idx: usize = 0;
        while idx < n
            invariant
                other.wf(),
                n == other.entries@.len(),
                idx <= n,
                self.keys_unique(),
                self.vals_wf(),
                forall|k: int|
                    old(self).has_key(k)
                        ==> #[trigger] self.sem_at(k)
                            == sym_diff(old(self).sem_at(k), other.sem_at(k)),
                forall|k: int| old(self).has_key(k) ==> #[trigger] self.has_key(k),
                forall|k: int|
                    !old(self).has_key(k) && other.prefix_has_key(idx as int, k)
                        ==> #[trigger] self.sem_at(k)
                            == sym_diff(old(self).sem_at(k), other.sem_at(k)),
                forall|k: int|
                    !old(self).has_key(k) && !other.prefix_has_key(idx as int, k)
                        ==> !(#[trigger] self.has_key(k)),
            decreases n - idx,
        {
            let key = other.entries[idx].0;
            proof {
                lemma_entry_index(*other, idx as int);
                lemma_prefix_step(*other, idx as int);
            }
            match self.find_key(key) {
                Some(_) => {
                },
                None => {
                    let ov = &other.entries[idx].1;
                    let nv = Value::from_set(ov.duplicate());
                    proof {
                        lemma_sym_diff_empty(other.sem_at(key as int));
                    }
                    self.put_entry(key, nv);
                },
            }
            idx = idx + 1;
            proof {
                assert forall|k: int|
                    !old(self).has_key(k) && other.prefix_has_key(idx as int, k)
                    implies #[trigger] self.sem_at(k)
                        == sym_diff(old(self).sem_at(k), other.sem_at(k)) by {
                }
            }
        }
        // Restore the canonical form: drop the entries the symmetric
        // difference emptied.
        proof {
            lemma_prefix_full(*other);
        }
        self.remove_empty_keys();
        proof {
            assert forall|k: int|
                #[trigger] self.sem_at(k)
                    == sym_diff(old(self).sem_at(k), other.sem_at(k)) by {
                if !old(self).has_key(k) && !other.has_key(k) {
                    lemma_sym_diff_empty(old(self).sem_at(k));
                }
            }
            lemma_paths_of_sym_diff(
                |k: int| old(self).sem_at(k),
                |k: int| other.sem_at(k),
                |k: int| self.sem_at(k),
            );
            assert(self.sem() =~= paths_of(|k: int| self.sem_at(k)));
            assert(old(self).sem() =~= paths_of(|k: int| old(self).sem_at(k)));
            assert(other.sem() =~= paths_of(|k: int| other.sem_at(k)));
        }
    }
}

impl<Value: SetEq> SetEq for KVListSet<Value> {
    fn set_eq(&self, other: &Self) -> (r: bool) {
        let n = self.entries.len();
        let mut i: usize = 0;
        while i < n
            invariant
                self.wf(),
                other.wf(),
                n == self.entries@.len(),
                i <= n,
                forall|j: int|
                    0 <= j < i
                        ==> #[trigger] other.sem_at(self.entries@[j].0 as int)
                            == self.entries@[j].1.sem(),
            decreases n - i,
        {
            let key = self.entries[i].0;
            proof {
                lemma_entry_index(*self, i as int);
            }
            match other.find_key(key) {
                Some(j) => {
                    proof {
                        lemma_entry_index(*other, j as int);
                    }
                    let eq = self.entries[i].1.set_eq(&other.entries[j].1);
                    if !eq {
                        proof {
                            lemma_sem_at_diff(*self, *other, key as int);
                        }
                        return false;
                    }
                },
                None => {
                    proof {
                        lemma_has_key_nonempty(*self, key as int);
                        lemma_sem_at_diff(*self, *other, key as int);
                    }
                    return false;
                },
            }
            i = i + 1;
        }
        let m = other.entries.len();
        let mut i2: usize = 0;
        while i2 < m
            invariant
                self.wf(),
                other.wf(),
                m == other.entries@.len(),
                i2 <= m,
                forall|j: int|
                    0 <= j < self.entries@.len()
                        ==> #[trigger] other.sem_at(self.entries@[j].0 as int)
                            == self.entries@[j].1.sem(),
                forall|j: int|
                    0 <= j < i2 ==> #[trigger] self.has_key(other.entries@[j].0 as int),
            decreases m - i2,
        {
            let key = other.entries[i2].0;
            match self.find_key(key) {
                Some(_) => {
                },
                None => {
                    proof {
                        lemma_entry_index(*other, i2 as int);
                        lemma_has_key_nonempty(*other, key as int);
                        lemma_sem_at_diff(*self, *other, key as int);
                    }
                    return false;
                },
            }
            i2 = i2 + 1;
        }
        proof {
            assert forall|k: int| #[trigger] self.sem_at(k) == other.sem_at(k) by {
                if self.has_key(k) {
                    lemma_has_key_index(*self, k);
                } else if other.has_key(k) {
                    lemma_has_key_index(*other, k);
                    assert(self.has_key(k));
                    assert(false);
                }
            }
            lemma_paths_of_eq(|k: int| self.sem_at(k), |k: int| other.sem_at(k));
            assert(self.sem() =~= paths_of(|k: int| self.sem_at(k)));
            assert(other.sem() =~= paths_of(|k: int| other.sem_at(k)));
        }
        true
    }
}

/// Two mappings with the same keys in the same order, whose sub-values
/// grant the same paths, grant the same paths below every key.
proof fn lemma_pointwise_sem<Value: SetValue>(a: KVListSet<Value>, b: KVListSet<Value>)
    requires
        a.keys_unique(),
        b.entries@.len() == a.entries@.len(),
        forall|j: int|
            0 <= j < a.entries@.len() ==> (#[trigger] b.entries@[j]).0 == a.entries@[j].0,
        forall|j: int|
            0 <= j < a.entries@.len()
                ==> (#[trigger] b.entries@[j]).1.sem() == a.entries@[j].1.sem(),
    ensures
        b.keys_unique(),
        forall|k: int| #[trigger] b.has_key(k) == a.has_key(k),
        forall|k: int| #[trigger] b.sem_at(k) == a.sem_at(k),
{
    assert forall|k: int| #[trigger] b.has_key(k) == a.has_key(k) by {
        if a.has_key(k) {
            lemma_has_key_index(a, k);
            assert(b.entries@[a.index_of(k)].0 as int == k);
        }
        if b.has_key(k) {
            let j = choose|j: int|
                0 <= j < b.entries@.len() && (#[trigger] b.entries@[j]).0 as int == k;
            assert(a.entries@[j].0 as int == k);
        }
    }
    assert forall|k: int| #[trigger] b.sem_at(k) == a.sem_at(k) by {
        if a.has_key(k) {
            let ja = a.index_of(k);
            lemma_has_key_index(a, k);
            assert(b.entries@[ja].0 as int == k);
            lemma_entry_index(b, ja);
            assert(b.val_at(k).sem() == a.val_at(k).sem());
        }
    }
}

/// A mapping grants nothing exactly when it grants nothing below every
/// key.
pub proof fn lemma_sem_empty_iff<Value: SetValue>(lst: KVListSet<Value>)
    ensures
        lst.sem().is_empty() <==> (forall|k: int| #[trigger] lst.sem_at(k).is_empty()),
{
    let at = |k: int| lst.sem_at(k);
    crate::set::lemma_paths_of_empty(at);
    assert(lst.sem() =~= paths_of(at));
    assert forall|k: int| #[trigger] lst.sem_at(k).is_empty() <==> at(k).is_empty() by {}
}

/// Equal denotations agree below every key.
pub proof fn lemma_sem_determines_sem_at<VA: SetValue, VB: SetValue>(
    a: KVListSet<VA>,
    b: KVListSet<VB>,
)
    requires
        a.sem() == b.sem(),
    ensures
        forall|k: int| #[trigger] a.sem_at(k) == b.sem_at(k),
{
    let ca = |k: int| a.sem_at(k);
    let cb = |k: int| b.sem_at(k);
    assert(a.sem() =~= paths_of(ca));
    assert(b.sem() =~= paths_of(cb));
    lemma_paths_of_eq(ca, cb);
    assert forall|k: int| #[trigger] a.sem_at(k) == b.sem_at(k) by {
        assert(ca(k) == cb(k));
    }
}

/// A union of whole mappings is a union below every key.
pub proof fn lemma_union_pointwise<VA: SetValue, VB: SetValue, VC: SetValue>(
    a: KVListSet<VA>,
    b: KVListSet<VB>,
    c: KVListSet<VC>,
)
    requires
        c.sem() == a.sem().union(b.sem()),
    ensures
        forall|k: int| #[trigger] c.sem_at(k) == a.sem_at(k).union(b.sem_at(k)),
{
    let ca = |k: int| a.sem_at(k);
    let cb = |k: int| b.sem_at(k);
    let cc = |k: int| c.sem_at(k);
    assert(a.sem() =~= paths_of(ca));
    assert(b.sem() =~= paths_of(cb));
    assert(c.sem() =~= paths_of(cc));
    crate::set::lemma_paths_of_union_pointwise(ca, cb, cc);
    assert forall|k: int| #[trigger] c.sem_at(k) == a.sem_at(k).union(b.sem_at(k)) by {
        assert(cc(k) == ca(k).union(cb(k)));
    }
}

/// A difference of whole mappings is a difference below every key.
pub proof fn lemma_difference_pointwise<VA: SetValue, VB: SetValue, VC: SetValue>(
    a: KVListSet<VA>,
    b: KVListSet<VB>,
    c: KVListSet<VC>,
)
    requires
        c.sem() == a.sem().difference(b.sem()),
    ensures
        forall|k: int| #[trigger] c.sem_at(k) == a.sem_at(k).difference(b.sem_at(k)),
{
    let ca = |k: int| a.sem_at(k);
    let cb = |k: int| b.sem_at(k);
    let cc = |k: int| c.sem_at(k);
    assert(a.sem() =~= paths_of(ca));
    assert(b.sem() =~= paths_of(cb));
    assert(c.sem() =~= paths_of(cc));
    crate::set::lemma_paths_of_difference_pointwise(ca, cb, cc);
    assert forall|k: int| #[trigger] c.sem_at(k) == a.sem_at(k).difference(b.sem_at(k)) by {
        assert(cc(k) == ca(k).difference(cb(k)));
    }
}

} // verus!
