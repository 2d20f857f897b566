use friperms::{FieldPair, SetValue, UnionInPlace};

#[test]
fn derive_test_is_empty() {
    let value1 = FieldPair {
        field1: false,
        field2: false,
    };
    assert!(value1.is_empty());

    let value2 = FieldPair {
        field1: true,
        field2: false,
    };
    assert!(!value2.is_empty());
}

#[test]
fn derive_test_empty() {
    let value1 = FieldPair {
        field1: false,
        field2: false,
    };
    assert_eq!(FieldPair::empty(), value1);
}

#[test]
fn derive_test() {
    let mut value1 = FieldPair {
        field1: false,
        field2: true,
    };
    let value2 = FieldPair {
        field1: true,
        field2: false,
    };

    value1.union_in_place(&value2);

    let result = FieldPair {
        field1: true,
        field2: true,
    };
    assert_eq!(value1, result);
}
