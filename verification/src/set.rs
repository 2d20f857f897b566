//! The capability traits of the algebra.
//!
//! Every conforming type denotes a mathematical set of key paths
//! ([`Paths`]): a `bool` leaf grants the empty path when it is `true`, and a
//! container at key `k` grants the path `k :: p` for every path `p` granted
//! by the sub-value stored at `k`.  All operation contracts are stated over
//! this one denotation, so that combining differently shaped containers
//! still means plain set union, difference, intersection or symmetric
//! difference of what they grant.

use vstd::prelude::*;

verus! {

/// The denotation of a set value: which key paths it grants.  A path is a
/// sequence of keys, outermost container first; the boolean leaf at the end
/// of a path contributes the empty sequence.
pub type Paths = Set<Seq<int>>;

/// The symmetric difference of two denotations: the paths granted by
/// exactly one of the two sides.
pub open spec fn sym_diff(a: Paths, b: Paths) -> Paths {
    a.difference(b).union(b.difference(a))
}

/// The denotation of a keyed container, assembled from the denotation of
/// the sub-value at each key: the container grants `k :: t` exactly when
/// the sub-value at key `k` grants `t`.
pub open spec fn paths_of(at: spec_fn(int) -> Paths) -> Paths {
    Set::new(|p: Seq<int>| p.len() > 0 && at(p[0]).contains(p.skip(1)))
}

/// A set of paths is non-empty exactly when it has a member.
pub proof fn lemma_nonempty(s: Paths)
    ensures
        !s.is_empty() <==> exists|t: Seq<int>| s.contains(t),
{
    if exists|t: Seq<int>| s.contains(t) {
        let t = choose|t: Seq<int>| s.contains(t);
        assert(!Set::<Seq<int>>::empty().contains(t));
    }
}

/// The empty set is the identity of union.
pub proof fn lemma_union_empty(s: Paths)
    ensures
        s.union(Set::empty()) == s,
        Set::empty().union(s) == s,
{
    assert(s.union(Set::empty()) =~= s);
    assert(Set::empty().union(s) =~= s);
}

/// Subtracting nothing changes nothing; subtracting from nothing leaves
/// nothing.
pub proof fn lemma_difference_empty(s: Paths)
    ensures
        s.difference(Set::empty()) == s,
        Set::empty().difference(s) == Set::<Seq<int>>::empty(),
{
    assert(s.difference(Set::empty()) =~= s);
    assert(Set::empty().difference(s) =~= Set::<Seq<int>>::empty());
}

/// The empty set absorbs intersection.
pub proof fn lemma_intersect_empty(s: Paths)
    ensures
        s.intersect(Set::empty()) == Set::<Seq<int>>::empty(),
        Set::empty().intersect(s) == Set::<Seq<int>>::empty(),
{
    assert(s.intersect(Set::empty()) =~= Set::<Seq<int>>::empty());
    assert(Set::empty().intersect(s) =~= Set::<Seq<int>>::empty());
}

/// The empty set is the identity of symmetric difference.
pub proof fn lemma_sym_diff_empty(s: Paths)
    ensures
        sym_diff(s, Set::empty()) == s,
        sym_diff(Set::empty(), s) == s,
{
    assert(sym_diff(s, Set::empty()) =~= s);
    assert(sym_diff(Set::empty(), s) =~= s);
}

/// Membership in a keyed denotation, one key at a time.
pub proof fn lemma_paths_of_member(at: spec_fn(int) -> Paths, k: int, t: Seq<int>)
    ensures
        paths_of(at).contains(seq![k] + t) <==> at(k).contains(t),
{
    let p = seq![k] + t;
    assert(p.len() > 0);
    assert(p[0] == k);
    assert(p.skip(1) =~= t);
}

/// Two keyed denotations agree exactly when they agree at every key.
pub proof fn lemma_paths_of_eq(a: spec_fn(int) -> Paths, b: spec_fn(int) -> Paths)
    ensures
        (paths_of(a) == paths_of(b)) <==> (forall|k: int| #[trigger] a(k) == b(k)),
{
    if paths_of(a) == paths_of(b) {
        assert forall|k: int| #[trigger] a(k) == b(k) by {
            assert forall|t: Seq<int>|
                #[trigger] a(k).contains(t) <==> #[trigger] b(k).contains(t) by {
                lemma_paths_of_member(a, k, t);
                lemma_paths_of_member(b, k, t);
            }
            assert(a(k) =~= b(k));
        }
    }
    if forall|k: int| #[trigger] a(k) == b(k) {
        assert forall|p: Seq<int>| paths_of(a).contains(p) <==> paths_of(b).contains(p) by {
            assert(a(p[0]) == b(p[0]));
        }
        assert(paths_of(a) =~= paths_of(b));
    }
}

/// A keyed denotation is empty exactly when it is empty at every key.
pub proof fn lemma_paths_of_empty(a: spec_fn(int) -> Paths)
    ensures
        paths_of(a).is_empty() <==> (forall|k: int| #[trigger] a(k).is_empty()),
{
    if paths_of(a).is_empty() {
        assert forall|k: int| #[trigger] a(k).is_empty() by {
            lemma_nonempty(a(k));
            if !a(k).is_empty() {
                let t = choose|t: Seq<int>| #[trigger] a(k).contains(t);
                lemma_paths_of_member(a, k, t);
                assert(paths_of(a).contains(seq![k] + t));
            }
        }
    }
    if forall|k: int| #[trigger] a(k).is_empty() {
        assert forall|p: Seq<int>| !paths_of(a).contains(p) by {
            assert(a(p[0]).is_empty());
            if p.len() > 0 {
                assert(!a(p[0]).contains(p.skip(1)));
            }
        }
        assert(paths_of(a) =~= Set::<Seq<int>>::empty());
    }
}

/// Keyed union: uniting at every key unites the assembled denotations.
pub proof fn lemma_paths_of_union(
    a: spec_fn(int) -> Paths,
    b: spec_fn(int) -> Paths,
    c: spec_fn(int) -> Paths,
)
    requires
        forall|k: int| #[trigger] c(k) == a(k).union(b(k)),
    ensures
        paths_of(c) == paths_of(a).union(paths_of(b)),
{
    assert forall|p: Seq<int>|
        paths_of(c).contains(p) <==> paths_of(a).union(paths_of(b)).contains(p) by {
        assert(c(p[0]) == a(p[0]).union(b(p[0])));
    }
    assert(paths_of(c) =~= paths_of(a).union(paths_of(b)));
}

/// Keyed difference: subtracting at every key subtracts the assembled
/// denotations.
pub proof fn lemma_paths_of_difference(
    a: spec_fn(int) -> Paths,
    b: spec_fn(int) -> Paths,
    c: spec_fn(int) -> Paths,
)
    requires
        forall|k: int| #[trigger] c(k) == a(k).difference(b(k)),
    ensures
        paths_of(c) == paths_of(a).difference(paths_of(b)),
{
    assert forall|p: Seq<int>|
        paths_of(c).contains(p) <==> paths_of(a).difference(paths_of(b)).contains(p) by {
        assert(c(p[0]) == a(p[0]).difference(b(p[0])));
    }
    assert(paths_of(c) =~= paths_of(a).difference(paths_of(b)));
}

/// Keyed intersection: intersecting at every key intersects the assembled
/// denotations.
pub proof fn lemma_paths_of_intersect(
    a: spec_fn(int) -> Paths,
    b: spec_fn(int) -> Paths,
    c: spec_fn(int) -> Paths,
)
    requires
        forall|k: int| #[trigger] c(k) == a(k).intersect(b(k)),
    ensures
        paths_of(c) == paths_of(a).intersect(paths_of(b)),
{
    assert forall|p: Seq<int>|
        paths_of(c).contains(p) <==> paths_of(a).intersect(paths_of(b)).contains(p) by {
        assert(c(p[0]) == a(p[0]).intersect(b(p[0])));
    }
    assert(paths_of(c) =~= paths_of(a).intersect(paths_of(b)));
}

/// The converse of [`lemma_paths_of_union`]: a union of assembled
/// denotations unites them at every key.
pub proof fn lemma_paths_of_union_pointwise(
    a: spec_fn(int) -> Paths,
    b: spec_fn(int) -> Paths,
    c: spec_fn(int) -> Paths,
)
    requires
        paths_of(c) == paths_of(a).union(paths_of(b)),
    ensures
        forall|k: int| #[trigger] c(k) == a(k).union(b(k)),
{
    assert forall|k: int| #[trigger] c(k) == a(k).union(b(k)) by {
        assert forall|t: Seq<int>|
            #[trigger] c(k).contains(t) <==> a(k).union(b(k)).contains(t) by {
            lemma_paths_of_member(a, k, t);
            lemma_paths_of_member(b, k, t);
            lemma_paths_of_member(c, k, t);
        }
        assert(c(k) =~= a(k).union(b(k)));
    }
}

/// The converse of [`lemma_paths_of_difference`].
pub proof fn lemma_paths_of_difference_pointwise(
    a: spec_fn(int) -> Paths,
    b: spec_fn(int) -> Paths,
    c: spec_fn(int) -> Paths,
)
    requires
        paths_of(c) == paths_of(a).difference(paths_of(b)),
    ensures
        forall|k: int| #[trigger] c(k) == a(k).difference(b(k)),
{
    assert forall|k: int| #[trigger] c(k) == a(k).difference(b(k)) by {
        assert forall|t: Seq<int>|
            #[trigger] c(k).contains(t) <==> a(k).difference(b(k)).contains(t) by {
            lemma_paths_of_member(a, k, t);
            lemma_paths_of_member(b, k, t);
            lemma_paths_of_member(c, k, t);
        }
        assert(c(k) =~= a(k).difference(b(k)));
    }
}

/// Keyed symmetric difference, assembled the same way.
pub proof fn lemma_paths_of_sym_diff(
    a: spec_fn(int) -> Paths,
    b: spec_fn(int) -> Paths,
    c: spec_fn(int) -> Paths,
)
    requires
        forall|k: int| #[trigger] c(k) == sym_diff(a(k), b(k)),
    ensures
        paths_of(c) == sym_diff(paths_of(a), paths_of(b)),
{
    assert forall|p: Seq<int>|
        paths_of(c).contains(p) <==> sym_diff(paths_of(a), paths_of(b)).contains(p) by {
        assert(c(p[0]) == sym_diff(a(p[0]), b(p[0])));
    }
    assert(paths_of(c) =~= sym_diff(paths_of(a), paths_of(b)));
}

/// The most basic capability: an emptiness test, a canonical empty value,
/// and a structure-preserving copy.  Every operation trait requires it.
pub trait SetValue: Sized {
    /// The representation invariant: no stored entry or wrapper holds a
    /// value that denotes the empty set.
    spec fn wf(&self) -> bool;

    /// The denotation: the set of key paths this value grants.
    spec fn sem(&self) -> Paths;

    /// A value is empty exactly when it grants no path at all.
    fn is_empty(&self) -> (r: bool)
        requires
            self.wf(),
        ensures
            r <==> self.sem().is_empty(),
    ;

    /// The canonical empty value.
    fn empty() -> (r: Self)
        ensures
            r.wf(),
            r.sem().is_empty(),
    ;

    /// A copy that grants exactly the same paths.
    fn duplicate(&self) -> (r: Self)
        requires
            self.wf(),
        ensures
            r.wf(),
            r.sem() == self.sem(),
    ;
}

/// Union (∪): the combined value grants a path exactly when either operand
/// granted it.  Union is commutative, associative, idempotent and has the
/// empty value as identity; all of that follows from the contract, see the
/// lemmas in [`crate::laws`].
pub trait Union<Rhs: SetValue>: SetValue {
    fn union(self, rhs: &Rhs) -> (r: Self)
        requires
            self.wf(),
            rhs.wf(),
        ensures
            r.wf(),
            r.sem() == self.sem().union(rhs.sem()),
    ;
}

/// The in-place version of [`Union`].
pub trait UnionInPlace<Rhs: SetValue>: SetValue {
    fn union_in_place(&mut self, rhs: &Rhs)
        requires
            old(self).wf(),
            rhs.wf(),
        ensures
            final(self).wf(),
            final(self).sem() == old(self).sem().union(rhs.sem()),
    ;
}

/// Difference (−): the result grants a path exactly when the left operand
/// granted it and the right one did not.
pub trait Difference<Rhs: SetValue>: SetValue {
    fn difference(self, rhs: &Rhs) -> (r: Self)
        requires
            self.wf(),
            rhs.wf(),
        ensures
            r.wf(),
            r.sem() == self.sem().difference(rhs.sem()),
    ;
}

/// The in-place version of [`Difference`].
pub trait DifferenceInPlace<Rhs: SetValue>: SetValue {
    fn difference_in_place(&mut self, rhs: &Rhs)
        requires
            old(self).wf(),
            rhs.wf(),
        ensures
            final(self).wf(),
            final(self).sem() == old(self).sem().difference(rhs.sem()),
    ;
}

/// Intersection (∩): the result grants a path exactly when both operands
/// granted it.
pub trait Intersection<Rhs: SetValue>: SetValue {
    fn intersection(self, rhs: &Rhs) -> (r: Self)
        requires
            self.wf(),
            rhs.wf(),
        ensures
            r.wf(),
            r.sem() == self.sem().intersect(rhs.sem()),
    ;
}

/// The in-place version of [`Intersection`].
pub trait IntersectionInPlace<Rhs: SetValue>: SetValue {
    fn intersection_in_place(&mut self, rhs: &Rhs)
        requires
            old(self).wf(),
            rhs.wf(),
        ensures
            final(self).wf(),
            final(self).sem() == old(self).sem().intersect(rhs.sem()),
    ;
}

/// Disjunctive union (⊖, symmetric difference): the result grants a path
/// exactly when one operand granted it and the other did not.
pub trait DisjunctiveUnion<Rhs: SetValue>: SetValue {
    fn disjunctive_union(self, rhs: &Rhs) -> (r: Self)
        requires
            self.wf(),
            rhs.wf(),
        ensures
            r.wf(),
            r.sem() == sym_diff(self.sem(), rhs.sem()),
    ;
}

/// The in-place version of [`DisjunctiveUnion`].
pub trait DisjunctiveUnionInPlace<Rhs: SetValue>: SetValue {
    fn disjunctive_union_in_place(&mut self, rhs: &Rhs)
        requires
            old(self).wf(),
            rhs.wf(),
        ensures
            final(self).wf(),
            final(self).sem() == sym_diff(old(self).sem(), rhs.sem()),
    ;
}

/// A decidable semantic equality test.  Implemented by the types whose
/// well-formed representation is canonical, so that comparing structure
/// decides equality of denotations; the wildcard-aware set tolerates
/// representation slack and therefore does not implement it.
pub trait SetEq: SetValue {
    fn set_eq(&self, other: &Self) -> (r: bool)
        requires
            self.wf(),
            other.wf(),
        ensures
            r <==> self.sem() == other.sem(),
    ;
}

/// The subset test: `self.subset_of(rhs)` holds exactly when every path
/// granted by `self` is granted by `rhs`.  It is derived from intersection
/// and semantic equality — `A ⊆ B` iff `A ∩ B == A` — which is why no
/// implementation exists for the wildcard-aware set (it has no
/// intersection).
pub trait SubsetOf<Rhs: SetValue>: SetValue {
    fn subset_of(&self, rhs: &Rhs) -> (r: bool)
        requires
            self.wf(),
            rhs.wf(),
        ensures
            r <==> self.sem().subset_of(rhs.sem()),
    ;
}

/// The generic derivation of the subset test: `A ⊆ B` holds exactly when
/// `A ∩ B` denotes the same set as `A`.
impl<Rhs: SetValue, T: SetEq + IntersectionInPlace<Rhs>> SubsetOf<Rhs> for T {
    fn subset_of(&self, rhs: &Rhs) -> (r: bool) {
        let mut inter = self.duplicate();
        inter.intersection_in_place(rhs);
        let r = inter.set_eq(self);
        proof {
            if self.sem().subset_of(rhs.sem()) {
                assert(self.sem().intersect(rhs.sem()) =~= self.sem());
            }
        }
        r
    }
}

/// The mirror of [`SubsetOf`]: `self.has_subset(rhs)` holds exactly when
/// `rhs` is a subset of `self`.
pub trait HasSubset<Rhs: SetValue>: SetValue {
    fn has_subset(&self, rhs: &Rhs) -> (r: bool)
        requires
            self.wf(),
            rhs.wf(),
        ensures
            r <==> rhs.sem().subset_of(self.sem()),
    ;
}

impl<T: SetValue, Rhs: SubsetOf<T>> HasSubset<Rhs> for T {
    fn has_subset(&self, rhs: &Rhs) -> (r: bool) {
        rhs.subset_of(self)
    }
}

/// A denotation-preserving embedding, used when a binary operation must
/// insert a converted copy of a right-hand sub-value into the left operand
/// (for instance a plain key→value list embedded into a wildcard-aware
/// set).
pub trait FromSet<T: SetValue>: SetValue {
    fn from_set(value: T) -> (r: Self)
        requires
            value.wf(),
        ensures
            r.wf(),
            r.sem() == value.sem(),
    ;
}

impl<T: SetValue> FromSet<T> for T {
    fn from_set(value: T) -> (r: Self) {
        value
    }
}

} // verus!
