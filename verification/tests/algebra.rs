use friperms::{
    DifferenceInPlace, DisjunctiveUnionInPlace, FieldPair, HasSubset, Intersection,
    IntersectionInPlace, KVListSet, KVListWithWildcardSet, Separator, SetEq, SetValue,
    SubsetOf, UnionInPlace,
};

#[test]
fn empty_values_are_empty() {
    assert!(KVListSet::<bool>::empty().is_empty());
    assert!(Separator::<bool>::empty().is_empty());
    assert!(KVListWithWildcardSet::<bool>::empty().is_empty());
    assert!(FieldPair::empty().is_empty());
    let leaf: bool = SetValue::empty();
    assert!(!leaf);
}

fn leaves(keys: &[u64]) -> KVListSet<bool> {
    let mut l = KVListSet::new();
    for &k in keys {
        l.insert(k, true);
    }
    l
}

#[test]
fn bool_operation_tables() {
    for (a, b, expected) in [
        (true, true, true),
        (false, true, true),
        (true, false, true),
        (false, false, false),
    ] {
        let mut r = a;
        r.union_in_place(&b);
        assert_eq!(r, expected);
    }
    for (a, b, expected) in [
        (true, true, false),
        (false, true, false),
        (true, false, true),
        (false, false, false),
    ] {
        let mut r = a;
        r.difference_in_place(&b);
        assert_eq!(r, expected);
    }
    for (a, b, expected) in [
        (true, true, true),
        (false, true, false),
        (true, false, false),
        (false, false, false),
    ] {
        let mut r = a;
        r.intersection_in_place(&b);
        assert_eq!(r, expected);
    }
    for (a, b, expected) in [
        (true, true, false),
        (false, true, true),
        (true, false, true),
        (false, false, false),
    ] {
        let mut r = a;
        r.disjunctive_union_in_place(&b);
        assert_eq!(r, expected);
    }
}

#[test]
fn scenario_list_union_disjoint_keys() {
    let mut l = leaves(&[0, 1]);
    l.union_in_place(&leaves(&[1]));
    assert_eq!(l, leaves(&[0, 1]));
}

#[test]
fn scenario_list_difference_to_empty() {
    let mut l = leaves(&[1]);
    l.difference_in_place(&leaves(&[1]));
    assert!(l.is_empty());
    assert_eq!(l, KVListSet::<bool>::empty());
}

#[test]
fn scenario_wildcard_union_heals_exception() {
    let mut w = KVListWithWildcardSet {
        wildcard_value: true,
        wildcard_exceptions: leaves(&[1, 2]),
        rest_list: KVListSet::new(),
    };
    w.union_in_place(&leaves(&[1]));
    let expected = KVListWithWildcardSet {
        wildcard_value: true,
        wildcard_exceptions: leaves(&[2]),
        rest_list: KVListSet::new(),
    };
    assert_eq!(w, expected);
}

#[test]
fn scenario_wildcard_difference_creates_exception() {
    let mut w = KVListWithWildcardSet {
        wildcard_value: true,
        wildcard_exceptions: KVListSet::new(),
        rest_list: KVListSet::new(),
    };
    w.difference_in_place(&leaves(&[1]));
    let expected = KVListWithWildcardSet {
        wildcard_value: true,
        wildcard_exceptions: leaves(&[1]),
        rest_list: KVListSet::new(),
    };
    assert_eq!(w, expected);
}

#[test]
fn scenario_wildcard_union_merges_exceptions() {
    let mut left = KVListWithWildcardSet {
        wildcard_value: true,
        wildcard_exceptions: leaves(&[1]),
        rest_list: KVListSet::new(),
    };
    let right = KVListWithWildcardSet {
        wildcard_value: true,
        wildcard_exceptions: leaves(&[2]),
        rest_list: KVListSet::new(),
    };
    left.union_in_place(&right);
    let expected = KVListWithWildcardSet {
        wildcard_value: true,
        wildcard_exceptions: KVListSet::new(),
        rest_list: KVListSet::new(),
    };
    assert_eq!(left, expected);
}

#[test]
fn wildcard_difference_cancels_itself() {
    let mut w = KVListWithWildcardSet {
        wildcard_value: true,
        wildcard_exceptions: leaves(&[2]),
        rest_list: leaves(&[7]),
    };
    let other = w.clone();
    w.difference_in_place(&other);
    assert!(w.is_empty());
}

#[test]
fn union_identity_and_idempotence() {
    let mut a = leaves(&[0, 3]);
    let before = a.clone();
    a.union_in_place(&KVListSet::<bool>::empty());
    assert_eq!(a, before);
    a.union_in_place(&before.clone());
    assert_eq!(a, before);
}

#[test]
fn union_commutes_and_associates() {
    let a = leaves(&[0]);
    let b = leaves(&[1]);
    let c = leaves(&[2]);

    let mut ab = a.clone();
    ab.union_in_place(&b);
    let mut ba = b.clone();
    ba.union_in_place(&a);
    assert!(ab.set_eq(&ba));

    let mut ab_c = ab.clone();
    ab_c.union_in_place(&c);
    let mut bc = b.clone();
    bc.union_in_place(&c);
    let mut a_bc = a.clone();
    a_bc.union_in_place(&bc);
    assert!(ab_c.set_eq(&a_bc));
}

#[test]
fn difference_identity_and_self_cancellation() {
    let mut a = leaves(&[0, 3]);
    let before = a.clone();
    a.difference_in_place(&KVListSet::<bool>::empty());
    assert!(a.set_eq(&before));
    a.difference_in_place(&before.clone());
    assert!(a.is_empty());
}

#[test]
fn intersection_commutes_and_is_idempotent() {
    let a = leaves(&[0, 1]);
    let b = leaves(&[1, 2]);

    let ab = a.clone().intersection(&b);
    let ba = b.clone().intersection(&a);
    assert!(ab.set_eq(&ba));
    assert_eq!(ab, leaves(&[1]));

    let aa = a.clone().intersection(&a);
    assert!(aa.set_eq(&a));
}

#[test]
fn disjunctive_union_commutes_and_cancels() {
    let a = leaves(&[0, 1]);
    let b = leaves(&[1, 2]);

    let mut ab = a.clone();
    ab.disjunctive_union_in_place(&b);
    let mut ba = b.clone();
    ba.disjunctive_union_in_place(&a);
    assert!(ab.set_eq(&ba));
    assert!(ab.set_eq(&leaves(&[0, 2])));

    let mut aa = a.clone();
    aa.disjunctive_union_in_place(&a.clone());
    assert!(aa.is_empty());
}

#[test]
fn difference_is_directional() {
    let a = leaves(&[0, 1]);
    let b = leaves(&[1]);

    let mut ab = a.clone();
    ab.difference_in_place(&b);
    assert!(ab.set_eq(&leaves(&[0])));

    let mut ba = b.clone();
    ba.difference_in_place(&a);
    assert!(ba.is_empty());
    assert!(!ab.set_eq(&ba));
}

#[test]
fn remove_empty_keys_preserves_content() {
    let mut l = leaves(&[2, 4]);
    let before = l.clone();
    l.remove_empty_keys();
    assert!(l.set_eq(&before));
}

#[test]
fn subset_matches_intersection_equality() {
    let small = leaves(&[1]);
    let big = leaves(&[0, 1]);

    assert!(small.subset_of(&big));
    assert!(!big.subset_of(&small));
    assert!(big.has_subset(&small));
    assert!(!small.has_subset(&big));

    // The law itself: A ⊆ B exactly when A ∩ B == A.
    let inter = small.clone().intersection(&big);
    assert!(inter.set_eq(&small));
    let inter2 = big.clone().intersection(&small);
    assert!(!inter2.set_eq(&big));
}

#[test]
fn operations_prune_emptied_entries() {
    let mut nested: KVListSet<KVListSet<bool>> = KVListSet::new();
    nested.insert(0, leaves(&[5]));
    nested.insert(1, leaves(&[6]));

    let mut removed: KVListSet<KVListSet<bool>> = KVListSet::new();
    removed.insert(0, leaves(&[5]));

    let mut diff = nested.clone();
    diff.difference_in_place(&removed);
    for e in diff.entries.iter() {
        assert!(!e.1.is_empty());
    }

    let mut inter = nested.clone();
    inter.intersection_in_place(&removed);
    for e in inter.entries.iter() {
        assert!(!e.1.is_empty());
    }
    assert_eq!(inter.entries.len(), 1);

    let mut xor = nested.clone();
    let mut other: KVListSet<KVListSet<bool>> = KVListSet::new();
    other.insert(1, leaves(&[6]));
    other.insert(2, leaves(&[7]));
    xor.disjunctive_union_in_place(&other);
    for e in xor.entries.iter() {
        assert!(!e.1.is_empty());
    }
    let mut expected_xor: KVListSet<KVListSet<bool>> = KVListSet::new();
    expected_xor.insert(0, leaves(&[5]));
    expected_xor.insert(2, leaves(&[7]));
    assert!(xor.set_eq(&expected_xor));
}

#[test]
fn separator_round_trip() {
    for keys in [&[] as &[u64], &[1u64][..], &[0, 7][..]] {
        let l = leaves(keys);
        let mut s = Separator::new(l.clone());
        s.union_in_place(&Separator::<KVListSet<bool>>::empty());
        assert_eq!(s.is_empty(), l.is_empty());
    }
}

#[test]
fn separator_normalizes_emptied_value_to_absent() {
    let mut s = Separator::new(leaves(&[1]));
    s.difference_in_place(&Separator::new(leaves(&[1])));
    assert_eq!(s, Separator::<KVListSet<bool>>::empty());

    let mut t = Separator::new(true);
    t.intersection_in_place(&Separator::new(false));
    assert_eq!(t, Separator::<bool>::empty());

    let mut u = Separator::new(true);
    u.disjunctive_union_in_place(&Separator::new(true));
    assert_eq!(u, Separator::<bool>::empty());

    // Wrapping an already empty value is absent from the start.
    let v = Separator::new(KVListSet::<bool>::new());
    assert_eq!(v, Separator::<KVListSet<bool>>::empty());
}

#[test]
fn separator_one_sided_operations() {
    // Union and disjunctive union adopt the present side.
    let mut s = Separator::<bool>::empty();
    s.union_in_place(&Separator::new(true));
    assert_eq!(s, Separator::new(true));

    let mut d = Separator::<bool>::empty();
    d.disjunctive_union_in_place(&Separator::new(true));
    assert_eq!(d, Separator::new(true));

    // A missing right operand leaves a difference alone and forces an
    // intersection absent.
    let mut e = Separator::new(true);
    e.difference_in_place(&Separator::<bool>::empty());
    assert_eq!(e, Separator::new(true));

    let f = Separator::new(true).intersection(&Separator::<bool>::empty());
    assert_eq!(f, Separator::<bool>::empty());
}

#[test]
fn wildcard_union_with_plain_list_adds_rest() {
    let mut w = KVListWithWildcardSet {
        wildcard_value: false,
        wildcard_exceptions: KVListSet::new(),
        rest_list: leaves(&[0]),
    };
    w.union_in_place(&leaves(&[1]));
    let expected = KVListWithWildcardSet {
        wildcard_value: false,
        wildcard_exceptions: KVListSet::new(),
        rest_list: leaves(&[0, 1]),
    };
    assert_eq!(w, expected);
}

#[test]
fn wildcard_covered_value_leaves_no_rest() {
    let mut w = KVListWithWildcardSet {
        wildcard_value: true,
        wildcard_exceptions: KVListSet::new(),
        rest_list: KVListSet::new(),
    };
    let before = w.clone();
    w.union_in_place(&leaves(&[1]));
    assert_eq!(w, before);
}

#[test]
fn wildcard_difference_by_wildcard_creates_rest() {
    // Subtracting a default that is carved out at one key preserves this
    // side's grant there, as an explicit extra.
    let mut left = KVListWithWildcardSet {
        wildcard_value: true,
        wildcard_exceptions: KVListSet::new(),
        rest_list: KVListSet::new(),
    };
    let right = KVListWithWildcardSet {
        wildcard_value: true,
        wildcard_exceptions: leaves(&[1]),
        rest_list: KVListSet::new(),
    };
    left.difference_in_place(&right);
    let expected = KVListWithWildcardSet {
        wildcard_value: false,
        wildcard_exceptions: KVListSet::new(),
        rest_list: leaves(&[1]),
    };
    assert_eq!(left, expected);
}

#[test]
fn wildcard_difference_by_rest_only_wildcard() {
    let mut left = KVListWithWildcardSet {
        wildcard_value: true,
        wildcard_exceptions: KVListSet::new(),
        rest_list: KVListSet::new(),
    };
    let right = KVListWithWildcardSet {
        wildcard_value: false,
        wildcard_exceptions: KVListSet::new(),
        rest_list: leaves(&[1]),
    };
    left.difference_in_place(&right);
    let expected = KVListWithWildcardSet {
        wildcard_value: true,
        wildcard_exceptions: leaves(&[1]),
        rest_list: KVListSet::new(),
    };
    assert_eq!(left, expected);
}

#[test]
fn field_pair_difference_and_intersection() {
    let mut a = FieldPair {
        field1: true,
        field2: true,
    };
    a.difference_in_place(&FieldPair {
        field1: false,
        field2: true,
    });
    assert_eq!(
        a,
        FieldPair {
            field1: true,
            field2: false,
        }
    );

    let mut b = FieldPair {
        field1: true,
        field2: false,
    };
    b.intersection_in_place(&FieldPair {
        field1: true,
        field2: true,
    });
    assert_eq!(
        b,
        FieldPair {
            field1: true,
            field2: false,
        }
    );
    assert!(b.subset_of(&FieldPair {
        field1: true,
        field2: true,
    }));
}

