//! Products compared as their names are: two products of one name are equal,
//! and a product comes before another as its name does.

use crate::bink::Product;
use crate::text::{compare_names, lemma_name_order_total, name_before, name_order, NameOrder};
use std::cmp::Ordering;
use vstd::prelude::*;
use vstd::std_specs::cmp::{PartialEqSpecImpl, PartialOrdSpecImpl};

verus! {

impl PartialEq for Product {
    fn eq(&self, other: &Self) -> (r: bool) {
        self.name == other.name
    }
}

impl PartialEqSpecImpl for Product {
    open spec fn obeys_eq_spec() -> bool {
        true
    }

    open spec fn eq_spec(&self, other: &Self) -> bool {
        self.name@ == other.name@
    }
}

impl Eq for Product {

}

impl PartialOrd for Product {
    fn partial_cmp(&self, other: &Self) -> (r: Option<Ordering>) {
        match compare_names(self.name.as_str(), other.name.as_str()) {
            NameOrder::Before => Some(Ordering::Less),
            NameOrder::Same => Some(Ordering::Equal),
            NameOrder::After => Some(Ordering::Greater),
        }
    }
}

impl PartialOrdSpecImpl for Product {
    open spec fn obeys_partial_cmp_spec() -> bool {
        true
    }

    open spec fn partial_cmp_spec(&self, other: &Self) -> Option<Ordering> {
        match name_order(self.name@, other.name@) {
            NameOrder::Before => Some(Ordering::Less),
            NameOrder::Same => Some(Ordering::Equal),
            NameOrder::After => Some(Ordering::Greater),
        }
    }
}

} // verus!
