use vstd::prelude::*;

verus! {

pub type UserId = i64;

pub type OrderId = i64;

pub type SymbolId = i32;

pub type Currency = i32;

pub type Price = i64;

pub type Size = i64;

pub type Timestamp = i64;

/// `n` is a power of two: it is not zero and has one bit set.
pub open spec fn power_of_two(n: usize) -> bool {
    n > 0 && n & ((n - 1) as usize) == 0
}

/// Whether `n` is a power of two.
pub fn is_power_of_two(n: usize) -> (r: bool)
    ensures
        r == power_of_two(n),
{
    n > 0 && n & (n - 1) == 0
}

/// Side of an order.
#[derive(Debug, Clone, Copy, PartialEq, Eq, Structural)]
pub enum OrderAction {
    Ask,
    Bid,
}

impl OrderAction {
    /// The other side.
    pub open spec fn flip(self) -> OrderAction {
        match self {
            OrderAction::Ask => OrderAction::Bid,
            OrderAction::Bid => OrderAction::Ask,
        }
    }

    pub fn opposite(self) -> (r: Self)
        ensures
            r == self.flip(),
    {
        match self {
            OrderAction::Ask => OrderAction::Bid,
            OrderAction::Bid => OrderAction::Ask,
        }
    }
}

#[derive(Debug, Clone, Copy, PartialEq, Eq, Structural)]
pub enum OrderType {
    /// Good-till-cancel.
    Gtc,
    /// Immediate-or-cancel.
    Ioc,
    /// Fill-or-kill.
    Fok,
    /// Fill-or-kill with a budget in place of a limit price.
    FokBudget,
    /// Immediate-or-cancel with a budget in place of a limit price.
    IocBudget,
    /// Rests only; never takes liquidity.
    PostOnly,
    /// Waits in the stop pool, then enters as a limit order.
    StopLimit,
    /// Waits in the stop pool, then enters as a market order.
    StopMarket,
    /// Rests with only part of its size advertised.
    Iceberg,
    /// Good for the trading day.
    Day,
    /// Good till the given time.
    Gtd(i64),
}

impl OrderType {
    /// Budget order types carry a budget in the price field.
    pub open spec fn is_budget(self) -> bool {
        self == OrderType::FokBudget || self == OrderType::IocBudget
    }

    /// Order types of which nothing ever rests: what they do not trade at
    /// once is turned away.
    pub open spec fn never_rests(self) -> bool {
        self == OrderType::Ioc || self == OrderType::Fok || self == OrderType::FokBudget
    }

    /// Stop order types wait in the stop pool.
    pub open spec fn is_stop(self) -> bool {
        self == OrderType::StopLimit || self == OrderType::StopMarket
    }

    pub fn budget(self) -> (r: bool)
        ensures
            r == self.is_budget(),
    {
        match self {
            OrderType::FokBudget => true,
            OrderType::IocBudget => true,
            _ => false,
        }
    }

    pub fn takes_only(self) -> (r: bool)
        ensures
            r == self.never_rests(),
    {
        match self {
            OrderType::Ioc => true,
            OrderType::Fok => true,
            OrderType::FokBudget => true,
            _ => false,
        }
    }

    pub fn stop(self) -> (r: bool)
        ensures
            r == self.is_stop(),
    {
        match self {
            OrderType::StopLimit => true,
            OrderType::StopMarket => true,
            _ => false,
        }
    }
}

#[derive(Debug, Clone, Copy, PartialEq, Eq, Structural)]
pub enum SymbolType {
    CurrencyExchangePair,
    FuturesContract,
    PerpetualSwap,
    CallOption,
    PutOption,
}

#[derive(Debug, Clone, Copy, PartialEq, Eq, Structural)]
pub enum CommandResultCode {
    New,
    ValidForMatchingEngine,
    Success,
    Accepted,
    AuthInvalidUser,
    RiskNsf,
    RiskInvalidReserveBidPrice,
    RiskAskPriceLowerThanFee,
    RiskMarginTradingDisabled,
    MatchingInvalidOrderBookId,
    MatchingUnknownOrderId,
    MatchingUnsupportedCommand,
    MatchingMoveFailedPriceOverRiskLimit,
    MatchingReduceFailedWrongSize,
    MatchingInvalidOrderSize,
    StatePersistRiskEngineFailed,
    StatePersistMatchingEngineFailed,
    UserMgmtUserAlreadyExists,
    InvalidSymbol,
    UnsupportedSymbolType,
    BinaryCommandFailed,
}

/// Immutable description of one traded symbol.
#[derive(Debug, Clone, Copy, PartialEq, Eq, Structural)]
pub struct CoreSymbolSpecification {
    pub symbol_id: SymbolId,
    pub symbol_type: SymbolType,
    pub base_currency: Currency,
    pub quote_currency: Currency,
    pub base_scale_k: i64,
    pub quote_scale_k: i64,
    pub taker_fee: i64,
    pub maker_fee: i64,
    pub margin_buy: i64,
    pub margin_sell: i64,
}

impl CoreSymbolSpecification {
    /// A spot pair of currency 0 against itself, unit scales, no fees.
    pub open spec fn blank() -> CoreSymbolSpecification {
        CoreSymbolSpecification {
            symbol_id: 0,
            symbol_type: SymbolType::CurrencyExchangePair,
            base_currency: 0,
            quote_currency: 0,
            base_scale_k: 1,
            quote_scale_k: 1,
            taker_fee: 0,
            maker_fee: 0,
            margin_buy: 0,
            margin_sell: 0,
        }
    }
}

impl Default for CoreSymbolSpecification {
    fn default() -> (r: Self)
        ensures
            r == CoreSymbolSpecification::blank(),
    {
        CoreSymbolSpecification {
            symbol_id: 0,
            symbol_type: SymbolType::CurrencyExchangePair,
            base_currency: 0,
            quote_currency: 0,
            base_scale_k: 1,
            quote_scale_k: 1,
            taker_fee: 0,
            maker_fee: 0,
            margin_buy: 0,
            margin_sell: 0,
        }
    }
}

} // verus!
