//! The catalogue as it is handed to the library: curves by their BINK id, and
//! products with the curves that each may be signed under.

use num_bigint::BigInt;
use std::collections::HashMap;
use vstd::prelude::*;

verus! {

/// `num_bigint::BigInt`, a whole number of any size. The library keeps such
/// numbers and hands them on; it never looks into one.
#[verifier::external_type_specification]
#[verifier::external_body]
pub struct ExBigInt(num_bigint::BigInt);

/// A point of a curve.
#[derive(Debug)]
pub struct Point {
    pub x: BigInt,
    pub y: BigInt,
}

/// One curve with its signing key: the modulus `p`, the coefficients `a` and
/// `b`, the generator `g`, the public point `public`, the order `n` of the
/// generator and the private scalar `private`.
#[derive(Debug)]
pub struct Bink {
    pub p: BigInt,
    pub a: BigInt,
    pub b: BigInt,
    pub g: Point,
    pub public: Point,
    pub n: BigInt,
    pub private: BigInt,
}

/// A product: its display name and the BINK ids of the curves that its keys
/// may be signed under.
#[derive(Debug)]
pub struct Product {
    pub name: String,
    pub bink_ids: Vec<u8>,
}

/// The catalogue's content in no particular order.
#[derive(Debug)]
pub struct Keys {
    pub products: Vec<Product>,
    pub bink: HashMap<u8, Bink>,
}

/// Whether the products stand in the order of their names, no name twice.
pub open spec fn sorted_by_name(products: Seq<Product>) -> bool {
    forall|i: int, j: int|
        0 <= i < j < products.len() ==> crate::text::name_before(
            #[trigger] products[i].name@,
            #[trigger] products[j].name@,
        )
}

/// Whether no two of the products have the same name.
pub open spec fn distinct_names(products: Seq<Product>) -> bool {
    forall|i: int, j: int|
        0 <= i < j < products.len() ==> #[trigger] products[i].name@ != #[trigger] products[j].name@
}

/// Whether every curve that a product names is one of `curves`.
pub open spec fn curves_known(products: Seq<Product>, curves: Set<u8>) -> bool {
    forall|i: int, j: int|
        0 <= i < products.len() && 0 <= j < products[i].bink_ids@.len() ==> curves.contains(
            #[trigger] products[i].bink_ids@[j],
        )
}

} // verus!
