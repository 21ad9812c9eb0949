//! Records and documents are compared by their ids alone.
use crate::documents::{Document, DocumentRaw};
use core::cmp::Ordering;
use vstd::prelude::*;

verus! {

/// How two ids stand to each other.
pub open spec fn id_order(a: i32, b: i32) -> Ordering {
    if a < b {
        Ordering::Less
    } else if a == b {
        Ordering::Equal
    } else {
        Ordering::Greater
    }
}

fn order_of(a: i32, b: i32) -> (order: Ordering)
    ensures
        order == id_order(a, b),
{
    if a < b {
        Ordering::Less
    } else if a == b {
        Ordering::Equal
    } else {
        Ordering::Greater
    }
}

impl PartialEq for DocumentRaw {
    fn eq(&self, other: &Self) -> (same: bool) {
        self.id == other.id
    }
}

impl vstd::std_specs::cmp::PartialEqSpecImpl for DocumentRaw {
    open spec fn obeys_eq_spec() -> bool {
        true
    }

    open spec fn eq_spec(&self, other: &Self) -> bool {
        self.id == other.id
    }
}

impl Eq for DocumentRaw {}

impl PartialOrd for DocumentRaw {
    fn partial_cmp(&self, other: &Self) -> (order: Option<Ordering>) {
        Some(order_of(self.id, other.id))
    }
}

impl vstd::std_specs::cmp::PartialOrdSpecImpl for DocumentRaw {
    open spec fn obeys_partial_cmp_spec() -> bool {
        true
    }

    open spec fn partial_cmp_spec(&self, other: &Self) -> Option<Ordering> {
        Some(id_order(self.id, other.id))
    }
}

impl PartialEq for Document {
    fn eq(&self, other: &Self) -> (same: bool) {
        self.id == other.id
    }
}

impl vstd::std_specs::cmp::PartialEqSpecImpl for Document {
    open spec fn obeys_eq_spec() -> bool {
        true
    }

    open spec fn eq_spec(&self, other: &Self) -> bool {
        self.id == other.id
    }
}

impl Eq for Document {}

impl PartialOrd for Document {
    fn partial_cmp(&self, other: &Self) -> (order: Option<Ordering>) {
        Some(order_of(self.id, other.id))
    }
}

impl vstd::std_specs::cmp::PartialOrdSpecImpl for Document {
    open spec fn obeys_partial_cmp_spec() -> bool {
        true
    }

    open spec fn partial_cmp_spec(&self, other: &Self) -> Option<Ordering> {
        Some(id_order(self.id, other.id))
    }
}

} // verus!
