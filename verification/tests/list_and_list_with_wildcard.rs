use friperms::{DifferenceInPlace, KVListSet, KVListWithWildcardSet, SetValue, UnionInPlace};

fn leaf_list(keys: &[u64]) -> KVListSet<bool> {
    let mut l = KVListSet::new();
    for &k in keys {
        l.insert(k, true);
    }
    l
}

#[test]
fn test_add() {
    let mut tree_1: KVListSet<KVListWithWildcardSet<KVListSet<bool>>> = KVListSet::new();
    tree_1.insert(
        1,
        KVListWithWildcardSet {
            rest_list: KVListSet::new(),
            wildcard_exceptions: KVListSet::new(),
            wildcard_value: leaf_list(&[15]),
        },
    );

    let mut tree_2: KVListSet<KVListSet<KVListSet<bool>>> = KVListSet::new();
    let mut mid: KVListSet<KVListSet<bool>> = KVListSet::new();
    mid.insert(5, leaf_list(&[15, 5]));
    tree_2.insert(1, mid);

    let mut tree_1_minus_2 = tree_1.clone();
    tree_1_minus_2.difference_in_place(&tree_2);
    {
        let mut expected_exceptions: KVListSet<KVListSet<bool>> = KVListSet::new();
        expected_exceptions.insert(5, leaf_list(&[15]));
        let mut result: KVListSet<KVListWithWildcardSet<KVListSet<bool>>> = KVListSet::new();
        result.insert(
            1,
            KVListWithWildcardSet {
                rest_list: KVListSet::new(),
                wildcard_exceptions: expected_exceptions,
                wildcard_value: leaf_list(&[15]),
            },
        );

        assert_eq!(tree_1_minus_2, result);
    }

    tree_1_minus_2.union_in_place(&tree_2);
    // Does not equal tree_1 because 1.5.5 has been added.
    assert_ne!(tree_1, tree_1_minus_2);
}
