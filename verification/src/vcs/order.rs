//! Listing entries ordered by name alone, whatever their kind: a file named
//! `a` comes before a directory named `b`.
use std::cmp::Ordering;

use vstd::prelude::*;
use vstd::std_specs::cmp::PartialOrdSpecImpl;

use crate::text::str_equal;
use crate::vcs::store::{chars_less, chars_lt, entry_name, ListEntry};

verus! {

/// How two names compare: dictionary order of their characters.
pub open spec fn name_order(a: Seq<char>, b: Seq<char>) -> Option<Ordering> {
    if chars_lt(a, b) {
        Some(Ordering::Less)
    } else if a == b {
        Some(Ordering::Equal)
    } else {
        Some(Ordering::Greater)
    }
}

impl PartialOrd for ListEntry {
    fn partial_cmp(&self, other: &ListEntry) -> (r: Option<Ordering>) {
        let a = self.name();
        let b = other.name();
        if chars_less(a.as_str(), b.as_str()) {
            Some(Ordering::Less)
        } else if str_equal(a.as_str(), b.as_str()) {
            Some(Ordering::Equal)
        } else {
            Some(Ordering::Greater)
        }
    }
}

impl PartialOrdSpecImpl for ListEntry {
    open spec fn obeys_partial_cmp_spec() -> bool {
        true
    }

    open spec fn partial_cmp_spec(&self, other: &ListEntry) -> Option<Ordering> {
        name_order(entry_name(self@), entry_name(other@))
    }
}

} // verus!
