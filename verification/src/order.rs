//! How positions compare: by their offset alone.

use crate::cursor::Position;
use std::cmp::Ordering;
use vstd::prelude::*;
use vstd::std_specs::cmp::{PartialEqSpecImpl, PartialOrdSpecImpl};

verus! {

impl PartialEq for Position {
    /// Two positions are equal when their offsets are.
    fn eq(&self, other: &Position) -> (r: bool) {
        self.offset == other.offset
    }
}

impl PartialEqSpecImpl for Position {
    open spec fn obeys_eq_spec() -> bool {
        true
    }

    open spec fn eq_spec(&self, other: &Position) -> bool {
        self.offset == other.offset
    }
}

impl PartialOrd for Position {
    /// Positions are ordered as their offsets are.
    fn partial_cmp(&self, other: &Position) -> (r: Option<Ordering>) {
        if self.offset < other.offset {
            Some(Ordering::Less)
        } else if self.offset == other.offset {
            Some(Ordering::Equal)
        } else {
            Some(Ordering::Greater)
        }
    }
}

impl PartialOrdSpecImpl for Position {
    open spec fn obeys_partial_cmp_spec() -> bool {
        true
    }

    open spec fn partial_cmp_spec(&self, other: &Position) -> Option<Ordering> {
        if self.offset < other.offset {
            Some(Ordering::Less)
        } else if self.offset == other.offset {
            Some(Ordering::Equal)
        } else {
            Some(Ordering::Greater)
        }
    }
}

} // verus!
