use crate::api::events::MatcherTradeEvent;
use crate::api::types::{
    CommandResultCode, OrderAction, OrderId, OrderType, Price, Size, SymbolId, UserId,
};
use vstd::prelude::*;

verus! {

#[derive(Debug, Clone, Copy, PartialEq, Eq, Structural)]
pub enum OrderCommandType {
    PlaceOrder,
    MoveOrder,
    CancelOrder,
    ReduceOrder,
    OrderBookRequest,
    AddUser,
    BalanceAdjustment,
    SuspendUser,
    ResumeUser,
    BinaryDataCommand,
    BinaryDataQuery,
    Reset,
    Nop,
    PersistStateMatching,
    PersistStateRisk,
    GroupingControl,
    ShutdownSignal,
}

/// Envelope of one command: its inputs, and the result code and events that
/// the engine writes into it.
#[derive(Debug, Clone)]
pub struct OrderCommand {
    pub command: OrderCommandType,
    pub result_code: CommandResultCode,
    pub uid: UserId,
    pub order_id: OrderId,
    pub symbol: SymbolId,
    pub price: Price,
    pub reserve_price: Price,
    pub size: Size,
    pub action: OrderAction,
    pub order_type: OrderType,
    pub timestamp: i64,
    pub events_group: u64,
    pub service_flags: i32,
    /// Trigger price of a stop order.
    pub stop_price: Option<Price>,
    /// Advertised size of an iceberg order.
    pub visible_size: Option<Size>,
    /// Time after which a resting order no longer trades.
    pub expire_time: Option<i64>,
    pub matcher_events: Vec<MatcherTradeEvent>,
}

impl OrderCommand {
    /// The command agrees with `other` in every field but the result code,
    /// the side and the event list.
    pub open spec fn same_inputs(self, other: OrderCommand) -> bool {
        &&& self.command == other.command
        &&& self.uid == other.uid
        &&& self.order_id == other.order_id
        &&& self.symbol == other.symbol
        &&& self.price == other.price
        &&& self.reserve_price == other.reserve_price
        &&& self.size == other.size
        &&& self.order_type == other.order_type
        &&& self.timestamp == other.timestamp
        &&& self.events_group == other.events_group
        &&& self.service_flags == other.service_flags
        &&& self.stop_price == other.stop_price
        &&& self.visible_size == other.visible_size
        &&& self.expire_time == other.expire_time
    }

    /// A `Nop` bid of size 0 with no events.
    pub open spec fn is_blank(self) -> bool {
        &&& self.command == OrderCommandType::Nop
        &&& self.result_code == CommandResultCode::New
        &&& self.uid == 0
        &&& self.order_id == 0
        &&& self.symbol == 0
        &&& self.price == 0
        &&& self.reserve_price == 0
        &&& self.size == 0
        &&& self.action == OrderAction::Bid
        &&& self.order_type == OrderType::Gtc
        &&& self.timestamp == 0
        &&& self.events_group == 0
        &&& self.service_flags == 0
        &&& self.stop_price.is_none()
        &&& self.visible_size.is_none()
        &&& self.expire_time.is_none()
        &&& self.matcher_events@.len() == 0
    }
}

impl Default for OrderCommand {
    fn default() -> (r: Self)
        ensures
            r.is_blank(),
    {
        OrderCommand {
            command: OrderCommandType::Nop,
            result_code: CommandResultCode::New,
            uid: 0,
            order_id: 0,
            symbol: 0,
            price: 0,
            reserve_price: 0,
            size: 0,
            action: OrderAction::Bid,
            order_type: OrderType::Gtc,
            timestamp: 0,
            events_group: 0,
            service_flags: 0,
            stop_price: None,
            visible_size: None,
            expire_time: None,
            matcher_events: Vec::with_capacity(4),
        }
    }
}

} // verus!
