//! The order of instructions: by start position alone. Two instructions that
//! start at the same tick count as equal, whatever they hold.

use crate::instruction::Instr;
use std::cmp::Ordering;
use vstd::prelude::*;

verus! {

impl<F> PartialEq for Instr<F> {
    fn eq(&self, other: &Self) -> (same: bool) {
        self.start_pos == other.start_pos
    }
}

impl<F> vstd::std_specs::cmp::PartialEqSpecImpl for Instr<F> {
    open spec fn obeys_eq_spec() -> bool {
        true
    }

    open spec fn eq_spec(&self, other: &Self) -> bool {
        self.start_pos == other.start_pos
    }
}

impl<F> PartialOrd for Instr<F> {
    fn partial_cmp(&self, other: &Self) -> (order: Option<Ordering>) {
        if self.start_pos < other.start_pos {
            Some(Ordering::Less)
        } else if self.start_pos == other.start_pos {
            Some(Ordering::Equal)
        } else {
            Some(Ordering::Greater)
        }
    }
}

impl<F> vstd::std_specs::cmp::PartialOrdSpecImpl for Instr<F> {
    open spec fn obeys_partial_cmp_spec() -> bool {
        true
    }

    open spec fn partial_cmp_spec(&self, other: &Self) -> Option<Ordering> {
        if self.start_pos < other.start_pos {
            Some(Ordering::Less)
        } else if self.start_pos == other.start_pos {
            Some(Ordering::Equal)
        } else {
            Some(Ordering::Greater)
        }
    }
}

} // verus!
