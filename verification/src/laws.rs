//! The algebraic laws every conforming type enjoys.
//!
//! Each in-place operation promises exactly what its trait contract says:
//! the new denotation is the union, difference, intersection or symmetric
//! difference of the operands' denotations.  The laws below therefore hold
//! of the results of any two conforming values, whatever their shapes:
//! each lemma states one law over the denotations that those contracts
//! produce.

use vstd::prelude::*;

use crate::set::{sym_diff, SetValue};

verus! {

/// `A ∪ empty == A`: uniting with any empty value changes nothing.
pub proof fn lemma_union_identity<A: SetValue, B: SetValue>(a: &A, e: &B)
    requires
        e.sem().is_empty(),
    ensures
        a.sem().union(e.sem()) == a.sem(),
{
    assert(a.sem().union(e.sem()) =~= a.sem());
}

/// `A ∪ A == A`: union is idempotent.
pub proof fn lemma_union_idempotent<A: SetValue>(a: &A)
    ensures
        a.sem().union(a.sem()) == a.sem(),
{
    assert(a.sem().union(a.sem()) =~= a.sem());
}

/// `A ∪ B == B ∪ A`: union is commutative.
pub proof fn lemma_union_commutative<A: SetValue, B: SetValue>(a: &A, b: &B)
    ensures
        a.sem().union(b.sem()) == b.sem().union(a.sem()),
{
    assert(a.sem().union(b.sem()) =~= b.sem().union(a.sem()));
}

/// `(A ∪ B) ∪ C == A ∪ (B ∪ C)`: union is associative.
pub proof fn lemma_union_associative<A: SetValue, B: SetValue, C: SetValue>(
    a: &A,
    b: &B,
    c: &C,
)
    ensures
        a.sem().union(b.sem()).union(c.sem()) == a.sem().union(b.sem().union(c.sem())),
{
    assert(a.sem().union(b.sem()).union(c.sem())
        =~= a.sem().union(b.sem().union(c.sem())));
}

/// `A − empty == A`: subtracting any empty value changes nothing.
pub proof fn lemma_difference_identity<A: SetValue, B: SetValue>(a: &A, e: &B)
    requires
        e.sem().is_empty(),
    ensures
        a.sem().difference(e.sem()) == a.sem(),
{
    assert(a.sem().difference(e.sem()) =~= a.sem());
}

/// `A − A == empty`: subtracting a value that grants the same paths leaves
/// nothing.
pub proof fn lemma_difference_self<A: SetValue, B: SetValue>(a: &A, b: &B)
    requires
        a.sem() == b.sem(),
    ensures
        a.sem().difference(b.sem()).is_empty(),
{
    assert(a.sem().difference(b.sem()) =~= Set::<Seq<int>>::empty());
}

/// `A ∩ B == B ∩ A`: intersection is commutative.
pub proof fn lemma_intersection_commutative<A: SetValue, B: SetValue>(a: &A, b: &B)
    ensures
        a.sem().intersect(b.sem()) == b.sem().intersect(a.sem()),
{
    assert(a.sem().intersect(b.sem()) =~= b.sem().intersect(a.sem()));
}

/// `A ∩ A == A`: intersection is idempotent.
pub proof fn lemma_intersection_idempotent<A: SetValue>(a: &A)
    ensures
        a.sem().intersect(a.sem()) == a.sem(),
{
    assert(a.sem().intersect(a.sem()) =~= a.sem());
}

/// `empty ∩ A == empty`: any empty value absorbs intersection.
pub proof fn lemma_intersection_absorbing<A: SetValue, B: SetValue>(e: &A, b: &B)
    requires
        e.sem().is_empty(),
    ensures
        e.sem().intersect(b.sem()).is_empty(),
{
    assert(e.sem().intersect(b.sem()) =~= Set::<Seq<int>>::empty());
}

/// `A ⊖ A == empty`: disjunctive union is self-canceling.
pub proof fn lemma_disjunctive_union_self<A: SetValue, B: SetValue>(a: &A, b: &B)
    requires
        a.sem() == b.sem(),
    ensures
        sym_diff(a.sem(), b.sem()).is_empty(),
{
    assert(sym_diff(a.sem(), b.sem()) =~= Set::<Seq<int>>::empty());
}

/// `A ⊖ B == B ⊖ A`: disjunctive union is commutative.
pub proof fn lemma_disjunctive_union_commutative<A: SetValue, B: SetValue>(a: &A, b: &B)
    ensures
        sym_diff(a.sem(), b.sem()) == sym_diff(b.sem(), a.sem()),
{
    assert(sym_diff(a.sem(), b.sem()) =~= sym_diff(b.sem(), a.sem()));
}

/// `A ⊖ empty == A`: any empty value is the identity of disjunctive union.
pub proof fn lemma_disjunctive_union_identity<A: SetValue, B: SetValue>(a: &A, e: &B)
    requires
        e.sem().is_empty(),
    ensures
        sym_diff(a.sem(), e.sem()) == a.sem(),
{
    assert(sym_diff(a.sem(), e.sem()) =~= a.sem());
}

/// `(A ⊖ B) ⊖ C == A ⊖ (B ⊖ C)`: disjunctive union is associative.
pub proof fn lemma_disjunctive_union_associative<A: SetValue, B: SetValue, C: SetValue>(
    a: &A,
    b: &B,
    c: &C,
)
    ensures
        sym_diff(sym_diff(a.sem(), b.sem()), c.sem())
            == sym_diff(a.sem(), sym_diff(b.sem(), c.sem())),
{
    assert(sym_diff(sym_diff(a.sem(), b.sem()), c.sem())
        =~= sym_diff(a.sem(), sym_diff(b.sem(), c.sem())));
}

/// The subset law: `A ⊆ B` holds exactly when `A ∩ B` denotes the same set
/// as `A`, which is what the derived `subset_of` computes.
pub proof fn lemma_subset_iff_intersection<A: SetValue, B: SetValue>(a: &A, b: &B)
    ensures
        a.sem().subset_of(b.sem()) <==> a.sem().intersect(b.sem()) == a.sem(),
{
    if a.sem().subset_of(b.sem()) {
        assert(a.sem().intersect(b.sem()) =~= a.sem());
    }
}

} // verus!
