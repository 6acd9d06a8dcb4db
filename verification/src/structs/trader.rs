use vstd::prelude::*;

verus! {

/// The volume that one account traded in a window, by side.
#[derive(Debug, PartialEq, Eq)]
pub struct PgTrader {
    pub open_orders_owner: String,
    pub raw_ask_size: u128,
    pub raw_bid_size: u128,
}

/// A trader row with the account as a sequence of characters and the two
/// sizes as natural numbers.
pub struct TraderView {
    pub open_orders_owner: Seq<char>,
    pub raw_ask_size: nat,
    pub raw_bid_size: nat,
}

impl TraderView {
    /// The volume by which traders are ranked.
    pub open spec fn total(self) -> nat {
        self.raw_ask_size + self.raw_bid_size
    }
}

impl View for PgTrader {
    type V = TraderView;

    open spec fn view(&self) -> TraderView {
        TraderView {
            open_orders_owner: self.open_orders_owner@,
            raw_ask_size: self.raw_ask_size as nat,
            raw_bid_size: self.raw_bid_size as nat,
        }
    }
}

impl Clone for PgTrader {
    fn clone(&self) -> (t: Self)
        ensures
            t@ == self@,
    {
        PgTrader {
            open_orders_owner: self.open_orders_owner.clone(),
            raw_ask_size: self.raw_ask_size,
            raw_bid_size: self.raw_bid_size,
        }
    }
}

} // verus!
