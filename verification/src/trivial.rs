//! The boolean leaf set: the two-element lattice every recursive
//! composition bottoms out on.
//!
//! `true` grants exactly the empty key path, `false` grants nothing, so
//! union is `||`, difference is `&& !`, intersection is `&&` and
//! disjunctive union is `^`.

use vstd::prelude::*;

use crate::set::{
    Difference, DifferenceInPlace, DisjunctiveUnion, DisjunctiveUnionInPlace, Intersection,
    IntersectionInPlace, SetEq, SetValue, Union, UnionInPlace,
};

verus! {

impl SetValue for bool {
    open spec fn wf(&self) -> bool {
        true
    }

    open spec fn sem(&self) -> crate::set::Paths {
        Set::new(|p: Seq<int>| *self && p.len() == 0)
    }

    fn is_empty(&self) -> (r: bool) {
        proof {
            if *self {
                assert(self.sem().contains(Seq::<int>::empty()));
            } else {
                assert(self.sem() =~= Set::<Seq<int>>::empty());
            }
        }
        !*self
    }

    fn empty() -> (r: bool) {
        proof {
            assert(false.sem() =~= Set::<Seq<int>>::empty());
        }
        false
    }

    fn duplicate(&self) -> (r: bool) {
        *self
    }
}

impl Union<bool> for bool {
    fn union(self, rhs: &bool) -> (r: bool) {
        let r = self || *rhs;
        proof {
            assert(r.sem() =~= self.sem().union(rhs.sem()));
        }
        r
    }
}

impl UnionInPlace<bool> for bool {
    fn union_in_place(&mut self, rhs: &bool) {
        *self = (*self).union(rhs);
    }
}

impl Difference<bool> for bool {
    fn difference(self, rhs: &bool) -> (r: bool) {
        let r = if *rhs {
            false
        } else {
            self
        };
        proof {
            assert(r.sem() =~= self.sem().difference(rhs.sem()));
        }
        r
    }
}

impl DifferenceInPlace<bool> for bool {
    fn difference_in_place(&mut self, rhs: &bool) {
        *self = (*self).difference(rhs);
    }
}

impl Intersection<bool> for bool {
    fn intersection(self, rhs: &bool) -> (r: bool) {
        let r = self && *rhs;
        proof {
            assert(r.sem() =~= self.sem().intersect(rhs.sem()));
        }
        r
    }
}

impl IntersectionInPlace<bool> for bool {
    fn intersection_in_place(&mut self, rhs: &bool) {
        *self = (*self).intersection(rhs);
    }
}

impl DisjunctiveUnion<bool> for bool {
    fn disjunctive_union(self, rhs: &bool) -> (r: bool) {
        let r = self ^ *rhs;
        proof {
            assert(r.sem() =~= crate::set::sym_diff(self.sem(), rhs.sem()));
        }
        r
    }
}

impl DisjunctiveUnionInPlace<bool> for bool {
    fn disjunctive_union_in_place(&mut self, rhs: &bool) {
        *self = (*self).disjunctive_union(rhs);
    }
}

impl SetEq for bool {
    fn set_eq(&self, other: &bool) -> (r: bool) {
        proof {
            if *self == *other {
                assert(self.sem() =~= other.sem());
            } else if *self {
                assert(self.sem().contains(Seq::<int>::empty()));
                assert(!other.sem().contains(Seq::<int>::empty()));
            } else {
                assert(other.sem().contains(Seq::<int>::empty()));
                assert(!self.sem().contains(Seq::<int>::empty()));
            }
        }
        *self == *other
    }
}

} // verus!
