//! Orderings of the big numbers, as `PartialOrd` sees them.
use vstd::prelude::*;
use std::cmp::Ordering;
use vstd::std_specs::cmp::PartialOrdSpecImpl;
use crate::big_num::uint::BigUint;
use crate::big_num::num::{BigNum, num_cmp, roomy};

verus! {

impl PartialOrd for BigUint {
    fn partial_cmp(&self, other: &Self) -> (r: Option<Ordering>) {
        let c = self.compare(other);
        if c < 0 {
            Some(Ordering::Less)
        } else if c == 0 {
            Some(Ordering::Equal)
        } else {
            Some(Ordering::Greater)
        }
    }
}

impl PartialOrdSpecImpl for BigUint {
    open spec fn obeys_partial_cmp_spec() -> bool {
        true
    }

    open spec fn partial_cmp_spec(&self, other: &Self) -> Option<Ordering> {
        if self@ < other@ {
            Some(Ordering::Less)
        } else if self@ == other@ {
            Some(Ordering::Equal)
        } else {
            Some(Ordering::Greater)
        }
    }
}

impl PartialOrd for BigNum {
    /// The ordering `num_cmp` gives; coefficients too large to align (beyond any memory) are
    /// unordered.
    fn partial_cmp(&self, other: &Self) -> (r: Option<Ordering>) {
        if BigNum::is_roomy(self.cff_word_count()) && BigNum::is_roomy(other.cff_word_count()) {
            let c = self.compare(other);
            if c < 0 {
                Some(Ordering::Less)
            } else if c == 0 {
                Some(Ordering::Equal)
            } else {
                Some(Ordering::Greater)
            }
        } else {
            None
        }
    }
}

impl PartialOrdSpecImpl for BigNum {
    open spec fn obeys_partial_cmp_spec() -> bool {
        true
    }

    open spec fn partial_cmp_spec(&self, other: &Self) -> Option<Ordering> {
        if !(roomy(self.cff_len()) && roomy(other.cff_len())) {
            None
        } else if num_cmp(self@, other@) < 0 {
            Some(Ordering::Less)
        } else if num_cmp(self@, other@) == 0 {
            Some(Ordering::Equal)
        } else {
            Some(Ordering::Greater)
        }
    }
}

} // verus!
