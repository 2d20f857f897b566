//! The optional-wrapping adapter: it collapses any empty value to a
//! canonical absent representation, so that a complicated empty structure
//! can be stored (or serialized by an outer layer) as a simple absence.
//!
//! The invariant never lets a present value be empty, and every operation
//! that can shrink the wrapped value re-checks and normalizes back to
//! absent.

use vstd::prelude::*;

use crate::set::{
    lemma_difference_empty, lemma_intersect_empty, lemma_nonempty, lemma_sym_diff_empty,
    lemma_union_empty, DifferenceInPlace, DisjunctiveUnionInPlace, FromSet, Intersection,
    IntersectionInPlace, Paths, SetEq, SetValue, UnionInPlace,
};

verus! {

/// Wraps a value that is either absent (and grants nothing) or present and
/// non-empty.
#[derive(Clone, Debug, PartialEq, Eq)]
pub struct Separator<Value>(pub Option<Value>);

impl<Value: SetValue> Separator<Value> {
    /// Wrap `value`, normalizing an empty value to the absent state.
    pub fn new(value: Value) -> (r: Self)
        requires
            value.wf(),
        ensures
            r.wf(),
            r.sem() == value.sem(),
    {
        if value.is_empty() {
            proof {
                assert(value.sem() =~= Set::<Seq<int>>::empty());
            }
            Separator(None)
        } else {
            Separator(Some(value))
        }
    }
}

impl<Value: SetValue> Default for Separator<Value> {
    fn default() -> (r: Self)
        ensures
            r.wf(),
            r.sem().is_empty(),
    {
        Separator(None)
    }
}

impl<Value: SetValue> SetValue for Separator<Value> {
    open spec fn wf(&self) -> bool {
        match self.0 {
            None => true,
            Some(v) => v.wf() && !v.sem().is_empty(),
        }
    }

    open spec fn sem(&self) -> Paths {
        match self.0 {
            None => Set::empty(),
            Some(v) => v.sem(),
        }
    }

    fn is_empty(&self) -> (r: bool) {
        match &self.0 {
            None => true,
            Some(v) => v.is_empty(),
        }
    }

    fn empty() -> (r: Self) {
        Separator(None)
    }

    fn duplicate(&self) -> (r: Self) {
        match &self.0 {
            None => Separator(None),
            Some(v) => Separator(Some(v.duplicate())),
        }
    }
}

impl<Value: SetValue> FromSet<Value> for Separator<Value> {
    fn from_set(value: Value) -> (r: Self) {
        Separator::new(value)
    }
}

impl<Value, OtherValue> UnionInPlace<Separator<OtherValue>> for Separator<Value> where
    Value: UnionInPlace<OtherValue> + FromSet<OtherValue>,
    OtherValue: SetValue,
{
    fn union_in_place(&mut self, other: &Separator<OtherValue>) {
        match &other.0 {
            None => {
                proof {
                    lemma_union_empty(old(self).sem());
                }
            },
            Some(ov) => {
                let mut adopt = false;
                match &mut self.0 {
                    Some(v) => {
                        let ghost v_old = *v;
                        v.union_in_place(ov);
                        proof {
                            lemma_nonempty(v_old.sem());
                            let t = choose|t: Seq<int>| #[trigger] v_old.sem().contains(t);
                            assert(v.sem().contains(t));
                            lemma_nonempty(v.sem());
                        }
                    },
                    None => {
                        adopt = true;
                    },
                }
                if adopt {
                    self.0 = Some(Value::from_set(ov.duplicate()));
                    proof {
                        lemma_union_empty(other.sem());
                    }
                }
            },
        }
    }
}

impl<Value, OtherValue> DifferenceInPlace<Separator<OtherValue>> for Separator<Value> where
    Value: DifferenceInPlace<OtherValue>,
    OtherValue: SetValue,
{
    fn difference_in_place(&mut self, other: &Separator<OtherValue>) {
        let mut clear = false;
        match (&mut self.0, &other.0) {
            (Some(v), Some(ov)) => {
                v.difference_in_place(ov);
                clear = v.is_empty();
            },
            (None, _) => {
                proof {
                    lemma_difference_empty(other.sem());
                }
            },
            (Some(_), None) => {
                proof {
                    lemma_difference_empty(old(self).sem());
                }
            },
        }
        if clear {
            self.0 = None;
            proof {
                assert(old(self).sem().difference(other.sem()) =~= Set::<Seq<int>>::empty());
            }
        }
    }
}

impl<Value, OtherValue> IntersectionInPlace<Separator<OtherValue>> for Separator<Value> where
    Value: IntersectionInPlace<OtherValue>,
    OtherValue: SetValue,
{
    fn intersection_in_place(&mut self, other: &Separator<OtherValue>) {
        let mut clear = false;
        match (&mut self.0, &other.0) {
            (Some(v), Some(ov)) => {
                v.intersection_in_place(ov);
                clear = v.is_empty();
            },
            (None, _) => {
                proof {
                    lemma_intersect_empty(other.sem());
                }
            },
            (Some(_), None) => {
                clear = true;
                proof {
                    lemma_intersect_empty(old(self).sem());
                }
            },
        }
        if clear {
            self.0 = None;
            proof {
                assert(old(self).sem().intersect(other.sem()) =~= Set::<Seq<int>>::empty());
            }
        }
    }
}

impl<Value, OtherValue> Intersection<Separator<OtherValue>> for Separator<Value> where
    Value: IntersectionInPlace<OtherValue>,
    OtherValue: SetValue,
{
    fn intersection(self, other: &Separator<OtherValue>) -> (r: Self) {
        let mut r = self;
        r.intersection_in_place(other);
        r
    }
}

impl<Value, OtherValue> DisjunctiveUnionInPlace<Separator<OtherValue>> for Separator<Value> where
    Value: DisjunctiveUnionInPlace<OtherValue> + FromSet<OtherValue>,
    OtherValue: SetValue,
{
    fn disjunctive_union_in_place(&mut self, other: &Separator<OtherValue>) {
        match &other.0 {
            None => {
                proof {
                    lemma_sym_diff_empty(old(self).sem());
                }
            },
            Some(ov) => {
                let mut clear = false;
                let mut adopt = false;
                match &mut self.0 {
                    Some(v) => {
                        v.disjunctive_union_in_place(ov);
                        clear = v.is_empty();
                    },
                    None => {
                        adopt = true;
                    },
                }
                if clear {
                    self.0 = None;
                    proof {
                        assert(crate::set::sym_diff(old(self).sem(), other.sem())
                            =~= Set::<Seq<int>>::empty());
                    }
                }
                if adopt {
                    self.0 = Some(Value::from_set(ov.duplicate()));
                    proof {
                        lemma_sym_diff_empty(other.sem());
                    }
                }
            },
        }
    }
}

impl<Value: SetEq> SetEq for Separator<Value> {
    fn set_eq(&self, other: &Self) -> (r: bool) {
        match (&self.0, &other.0) {
            (None, None) => true,
            (Some(v), Some(ov)) => v.set_eq(ov),
            (Some(v), None) => {
                proof {
                    lemma_nonempty(v.sem());
                    let t = choose|t: Seq<int>| #[trigger] v.sem().contains(t);
                    assert(self.sem().contains(t));
                    assert(!other.sem().contains(t));
                }
                false
            },
            (None, Some(ov)) => {
                proof {
                    lemma_nonempty(ov.sem());
                    let t = choose|t: Seq<int>| #[trigger] ov.sem().contains(t);
                    assert(other.sem().contains(t));
                    assert(!self.sem().contains(t));
                }
                false
            },
        }
    }
}

} // verus!
