//! The structural delegation contract for fixed-shape records, written out
//! for a two-field record: emptiness is the conjunction over the fields,
//! the empty value is field-wise empty, and every binary operation applies
//! field-wise.
//!
//! Each field denotes its own slot of the key space — the first field's
//! paths sit below key `0`, the second's below key `1` — so field-wise
//! application is exactly the set operation on the record's denotation.

use vstd::prelude::*;

use crate::set::{
    DifferenceInPlace, IntersectionInPlace, Paths, SetEq, SetValue, UnionInPlace,
};

verus! {

/// A record of two boolean leaves, combined field-wise.
#[derive(Clone, Copy, Debug, PartialEq, Eq)]
pub struct FieldPair {
    pub field1: bool,
    pub field2: bool,
}

impl SetValue for FieldPair {
    open spec fn wf(&self) -> bool {
        true
    }

    open spec fn sem(&self) -> Paths {
        Set::new(
            |p: Seq<int>|
                p.len() == 1 && ((p[0] == 0 && self.field1) || (p[0] == 1 && self.field2)),
        )
    }

    fn is_empty(&self) -> (r: bool) {
        let r = !self.field1 && !self.field2;
        proof {
            if r {
                assert(self.sem() =~= Set::<Seq<int>>::empty());
            } else if self.field1 {
                assert(self.sem().contains(seq![0int]));
            } else {
                assert(self.sem().contains(seq![1int]));
            }
        }
        r
    }

    fn empty() -> (r: FieldPair) {
        let r = FieldPair { field1: false, field2: false };
        proof {
            assert(r.sem() =~= Set::<Seq<int>>::empty());
        }
        r
    }

    fn duplicate(&self) -> (r: FieldPair) {
        *self
    }
}

impl UnionInPlace<FieldPair> for FieldPair {
    fn union_in_place(&mut self, rhs: &FieldPair) {
        self.field1 = self.field1 || rhs.field1;
        self.field2 = self.field2 || rhs.field2;
        proof {
            assert(self.sem() =~= old(self).sem().union(rhs.sem()));
        }
    }
}

impl DifferenceInPlace<FieldPair> for FieldPair {
    fn difference_in_place(&mut self, rhs: &FieldPair) {
        self.field1 = self.field1 && !rhs.field1;
        self.field2 = self.field2 && !rhs.field2;
        proof {
            assert(self.sem() =~= old(self).sem().difference(rhs.sem()));
        }
    }
}

impl IntersectionInPlace<FieldPair> for FieldPair {
    fn intersection_in_place(&mut self, rhs: &FieldPair) {
        self.field1 = self.field1 && rhs.field1;
        self.field2 = self.field2 && rhs.field2;
        proof {
            assert(self.sem() =~= old(self).sem().intersect(rhs.sem()));
        }
    }
}

impl SetEq for FieldPair {
    fn set_eq(&self, other: &FieldPair) -> (r: bool) {
        let r = self.field1 == other.field1 && self.field2 == other.field2;
        proof {
            if r {
                assert(self.sem() =~= other.sem());
            } else if self.field1 != other.field1 {
                assert(self.sem().contains(seq![0int]) != other.sem().contains(seq![0int]));
            } else {
                assert(self.sem().contains(seq![1int]) != other.sem().contains(seq![1int]));
            }
        }
        r
    }
}

} // verus!
