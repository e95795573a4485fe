pub mod commands;
pub mod events;
pub mod market_data;
pub mod types;

pub use commands::{OrderCommand, OrderCommandType};
pub use events::{MatcherEventType, MatcherTradeEvent};
pub use market_data::L2MarketData;
pub use types::{
    CommandResultCode, CoreSymbolSpecification, Currency, OrderAction, OrderId, OrderType, Price,
    Size, SymbolId, SymbolType, Timestamp, UserId,
};
