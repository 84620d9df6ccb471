//! Product keys signed with per-product elliptic curves: the catalogue of
//! curves and products, the choice of key scheme, the checks that come before
//! a key is signed, and the verdict on a candidate key once every curve of the
//! catalogue was tried on it.

pub mod bink;
pub mod crypto;
pub mod fields;
pub mod gen;
pub mod order;
pub mod scheme;
pub mod sorting;
pub mod tab;
pub mod text;
pub mod verdict;
