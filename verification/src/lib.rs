//! A generic algebra for set-valued permission state.
//!
//! Every value of the algebra answers an emptiness test, has a canonical
//! empty value, and denotes a mathematical set of *key paths*: sequences of
//! keys leading from the outermost container down to a granted boolean
//! leaf.  On top of that contract the crate layers four binary operations —
//! union, difference, intersection and disjunctive union — defined
//! recursively over nested container types, so that arbitrarily shaped
//! permission schemas can be combined uniformly.
//!
//! Every operation carries a contract stating exactly which set of paths
//! its result denotes, and the algebraic laws the operations enjoy are
//! proved once for all conforming types in [`laws`].

pub mod set;
pub mod trivial;
pub mod list;
pub mod list_with_wildcard;
pub mod separator;
pub mod record;
pub mod laws;

pub use set::{
    Difference, DifferenceInPlace, DisjunctiveUnion, DisjunctiveUnionInPlace, FromSet,
    HasSubset, Intersection, IntersectionInPlace, SetEq, SetValue, SubsetOf, Union,
    UnionInPlace,
};

pub use list::KVListSet;
pub use list_with_wildcard::KVListWithWildcardSet;
pub use record::FieldPair;
pub use separator::Separator;
