use crate::generic::node::Offset;
use std::cmp::Ordering;
use vstd::prelude::*;
use vstd::std_specs::cmp::PartialOrdSpecImpl;

verus! {

/// Offsets are ordered as the numbers they stand for: `-1` comes before
/// every index.
impl PartialOrd for Offset {
    fn partial_cmp(&self, offset: &Offset) -> (r: Option<Ordering>) {
        if self.0 == usize::MAX || offset.0 == usize::MAX {
            if self.0 == usize::MAX && offset.0 == usize::MAX {
                Some(Ordering::Equal)
            } else if self.0 == usize::MAX {
                Some(Ordering::Less)
            } else {
                Some(Ordering::Greater)
            }
        } else if self.0 < offset.0 {
            Some(Ordering::Less)
        } else if self.0 == offset.0 {
            Some(Ordering::Equal)
        } else {
            Some(Ordering::Greater)
        }
    }
}

impl PartialOrdSpecImpl for Offset {
    open spec fn obeys_partial_cmp_spec() -> bool {
        true
    }

    open spec fn partial_cmp_spec(&self, offset: &Offset) -> Option<Ordering> {
        if self@ < offset@ {
            Some(Ordering::Less)
        } else if self@ == offset@ {
            Some(Ordering::Equal)
        } else {
            Some(Ordering::Greater)
        }
    }
}

} // verus!
