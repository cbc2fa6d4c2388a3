//! Pre-trade risk checks.
use vstd::prelude::*;

use crate::types::{Order, RejectReason};

verus! {

/// Pre-trade limits applied to every new order.
#[derive(Debug)]
pub struct Risk {
    max_order_qty: u64,
}

impl Risk {
    /// The largest quantity a single order may have.
    pub closed spec fn max_qty(&self) -> u64 {
        self.max_order_qty
    }

    pub fn new(max_order_qty: u64) -> (r: Risk)
        ensures
            r.max_qty() == max_order_qty,
    {
        Risk { max_order_qty }
    }

    /// The reason to reject `order`, if any: it is too large.
    pub fn check(&self, order: &Order) -> (r: Option<RejectReason>)
        ensures
            r == (if order.qty.0 > self.max_qty() {
                Some(RejectReason::OrderTooLarge)
            } else {
                None
            }),
    {
        if order.qty.0 > self.max_order_qty {
            return Some(RejectReason::OrderTooLarge);
        }
        None
    }
}

impl Default for Risk {
    /// No limit: every quantity passes.
    fn default() -> (r: Risk)
        ensures
            r.max_qty() == u64::MAX,
    {
        Risk { max_order_qty: u64::MAX }
    }
}

} // verus!
