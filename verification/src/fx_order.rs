//! Ordering of fixed-point values, and comparison against whole numbers.

use vstd::prelude::*;
use core::cmp::Ordering;
use vstd::std_specs::cmp::{PartialEqSpecImpl, PartialOrdSpecImpl};
use crate::fx::{Fx, from_int_i32};

verus! {

/// The ordering of two raw values.
pub open spec fn order_of(a: i32, b: i32) -> Ordering {
    if a < b {
        Ordering::Less
    } else if a == b {
        Ordering::Equal
    } else {
        Ordering::Greater
    }
}

impl PartialOrd for Fx {
    fn partial_cmp(&self, other: &Fx) -> (r: Option<Ordering>) {
        if self.0 < other.0 {
            Some(Ordering::Less)
        } else if self.0 == other.0 {
            Some(Ordering::Equal)
        } else {
            Some(Ordering::Greater)
        }
    }
}

impl PartialOrdSpecImpl for Fx {
    open spec fn obeys_partial_cmp_spec() -> bool {
        true
    }

    open spec fn partial_cmp_spec(&self, other: &Fx) -> Option<Ordering> {
        Some(order_of(self.0, other.0))
    }
}

/// Equal to a whole number: the number converted with saturation.
impl PartialEq<i32> for Fx {
    fn eq(&self, other: &i32) -> (r: bool) {
        self.0 == Fx::from_int(*other).0
    }
}

impl PartialEqSpecImpl<i32> for Fx {
    open spec fn obeys_eq_spec() -> bool {
        true
    }

    open spec fn eq_spec(&self, other: &i32) -> bool {
        self.0 == from_int_i32(*other)
    }
}

/// Ordered against a whole number converted with saturation.
impl PartialOrd<i32> for Fx {
    fn partial_cmp(&self, other: &i32) -> (r: Option<Ordering>) {
        let o = Fx::from_int(*other).0;
        if self.0 < o {
            Some(Ordering::Less)
        } else if self.0 == o {
            Some(Ordering::Equal)
        } else {
            Some(Ordering::Greater)
        }
    }
}

impl PartialOrdSpecImpl<i32> for Fx {
    open spec fn obeys_partial_cmp_spec() -> bool {
        true
    }

    open spec fn partial_cmp_spec(&self, other: &i32) -> Option<Ordering> {
        Some(order_of(self.0, from_int_i32(*other)))
    }
}

} // verus!
