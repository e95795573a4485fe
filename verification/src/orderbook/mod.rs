pub mod advanced;
pub mod book;
pub mod bucket;
pub mod chain;
pub mod direct;
pub mod direct_optimized;
pub mod index;
pub mod interface;
pub mod ladder;
pub mod model;
pub mod naive;
pub mod queue;
pub mod rules;
pub mod store;
pub mod threaded;

pub use advanced::AdvancedOrderBook;
pub use book::{BookKind, BookSnapshot, OrderBookState};
pub use direct::DirectOrderBook;
pub use direct_optimized::DirectOrderBookOptimized;
pub use interface::OrderBook;
pub use model::Order;
pub use naive::NaiveOrderBook;
