//! The order of segments: by base offset, ascending. Two segments with one
//! base offset count as equal, whatever they hold.

use vstd::prelude::*;
use core::cmp::Ordering;
use crate::segment::Segment;

verus! {

impl PartialEq for Segment {
    fn eq(&self, other: &Self) -> (r: bool) {
        self.base_offset() == other.base_offset()
    }
}

impl vstd::std_specs::cmp::PartialEqSpecImpl for Segment {
    open spec fn obeys_eq_spec() -> bool {
        true
    }

    open spec fn eq_spec(&self, other: &Self) -> bool {
        self@.base_offset == other@.base_offset
    }
}

impl Eq for Segment {

}

impl PartialOrd for Segment {
    fn partial_cmp(&self, other: &Self) -> (r: Option<Ordering>) {
        if self.base_offset() < other.base_offset() {
            Some(Ordering::Less)
        } else if self.base_offset() == other.base_offset() {
            Some(Ordering::Equal)
        } else {
            Some(Ordering::Greater)
        }
    }
}

impl vstd::std_specs::cmp::PartialOrdSpecImpl for Segment {
    open spec fn obeys_partial_cmp_spec() -> bool {
        true
    }

    open spec fn partial_cmp_spec(&self, other: &Self) -> Option<Ordering> {
        if self@.base_offset < other@.base_offset {
            Some(Ordering::Less)
        } else if self@.base_offset == other@.base_offset {
            Some(Ordering::Equal)
        } else {
            Some(Ordering::Greater)
        }
    }
}

/// Whether `a` stands before `b` in a partition.
pub fn precedes(a: &Segment, b: &Segment) -> (r: bool)
    ensures
        r == (a@.base_offset < b@.base_offset),
{
    a < b
}

} // verus!
