use crate::api::types::{OrderId, Price, Size, UserId};
use vstd::prelude::*;

verus! {

#[derive(Debug, Clone, Copy, PartialEq, Eq, Structural)]
pub enum MatcherEventType {
    Trade,
    Reject,
    Reduce,
}

/// One outcome of matching, appended to the command that caused it.
#[derive(Debug, Clone, Copy, PartialEq, Eq, Structural)]
pub struct MatcherTradeEvent {
    pub event_type: MatcherEventType,
    pub size: Size,
    pub price: Price,
    pub matched_order_id: OrderId,
    pub matched_order_uid: UserId,
    /// Reserve price of the bidder of this trade.
    pub bidder_hold_price: Price,
}

impl MatcherTradeEvent {
    pub open spec fn trade(
        size: Size,
        price: Price,
        matched_order_id: OrderId,
        matched_order_uid: UserId,
        bidder_hold_price: Price,
    ) -> MatcherTradeEvent {
        MatcherTradeEvent {
            event_type: MatcherEventType::Trade,
            size,
            price,
            matched_order_id,
            matched_order_uid,
            bidder_hold_price,
        }
    }

    pub open spec fn reject(size: Size, price: Price) -> MatcherTradeEvent {
        MatcherTradeEvent {
            event_type: MatcherEventType::Reject,
            size,
            price,
            matched_order_id: 0,
            matched_order_uid: 0,
            bidder_hold_price: 0,
        }
    }

    /// A reject event that carries the price at which the bidder's escrow
    /// for the rejected quantity was taken.
    pub open spec fn rejection(size: Size, price: Price, bidder_hold_price: Price) -> MatcherTradeEvent {
        MatcherTradeEvent {
            event_type: MatcherEventType::Reject,
            size,
            price,
            matched_order_id: 0,
            matched_order_uid: 0,
            bidder_hold_price,
        }
    }

    pub fn new_rejection(size: Size, price: Price, bidder_hold_price: Price) -> (r: Self)
        ensures
            r == Self::rejection(size, price, bidder_hold_price),
    {
        MatcherTradeEvent {
            event_type: MatcherEventType::Reject,
            size,
            price,
            matched_order_id: 0,
            matched_order_uid: 0,
            bidder_hold_price,
        }
    }

    pub fn new_trade(
        size: Size,
        price: Price,
        matched_order_id: OrderId,
        matched_order_uid: UserId,
        bidder_hold_price: Price,
    ) -> (r: Self)
        ensures
            r == Self::trade(size, price, matched_order_id, matched_order_uid, bidder_hold_price),
    {
        MatcherTradeEvent {
            event_type: MatcherEventType::Trade,
            size,
            price,
            matched_order_id,
            matched_order_uid,
            bidder_hold_price,
        }
    }

    pub fn new_reject(size: Size, price: Price) -> (r: Self)
        ensures
            r == Self::reject(size, price),
    {
        MatcherTradeEvent {
            event_type: MatcherEventType::Reject,
            size,
            price,
            matched_order_id: 0,
            matched_order_uid: 0,
            bidder_hold_price: 0,
        }
    }
}

impl Default for MatcherTradeEvent {
    fn default() -> (r: Self)
        ensures
            r == Self::trade(0, 0, 0, 0, 0),
    {
        MatcherTradeEvent {
            event_type: MatcherEventType::Trade,
            size: 0,
            price: 0,
            matched_order_id: 0,
            matched_order_uid: 0,
            bidder_hold_price: 0,
        }
    }
}

} // verus!
