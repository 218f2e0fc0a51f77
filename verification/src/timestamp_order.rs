//! The order of timestamps: by their milliseconds since the epoch.
use vstd::prelude::*;
use std::cmp::Ordering;
use vstd::std_specs::cmp::PartialOrdIs;
use vstd::std_specs::cmp::PartialOrdSpecImpl;
use crate::task::Timestamp;

verus! {

impl PartialOrd for Timestamp {
    fn partial_cmp(&self, other: &Timestamp) -> (r: Option<Ordering>) {
        let a = self.as_millis();
        let b = other.as_millis();
        if a < b {
            Some(Ordering::Less)
        } else if a == b {
            Some(Ordering::Equal)
        } else {
            Some(Ordering::Greater)
        }
    }
}

impl PartialOrdSpecImpl for Timestamp {
    open spec fn obeys_partial_cmp_spec() -> bool {
        true
    }

    open spec fn partial_cmp_spec(&self, other: &Timestamp) -> Option<Ordering> {
        if self@ < other@ {
            Some(Ordering::Less)
        } else if self@ == other@ {
            Some(Ordering::Equal)
        } else {
            Some(Ordering::Greater)
        }
    }
}

/// Timestamps order by their milliseconds: `<`, `<=`, `>` and `>=` on two
/// timestamps hold exactly when they hold on their milliseconds.
pub proof fn lemma_timestamps_order_by_millis(a: Timestamp, b: Timestamp)
    ensures
        a.is_lt(&b) == (a@ < b@),
        a.is_le(&b) == (a@ <= b@),
        a.is_gt(&b) == (a@ > b@),
        a.is_ge(&b) == (a@ >= b@),
{
}

} // verus!
