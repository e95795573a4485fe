use crate::api::commands::OrderCommand;
use crate::api::market_data::L2MarketData;
use crate::api::types::{CommandResultCode, CoreSymbolSpecification, OrderAction, OrderId, Price, Size};
use crate::orderbook::advanced::AdvancedOrderBook;
use crate::orderbook::book::{
    placed_by, BookKind, BookSnapshot, OrderBookState,
};
use crate::orderbook::direct::DirectOrderBook;
use crate::orderbook::direct_optimized::DirectOrderBookOptimized;
use crate::orderbook::model::{price_levels, queue_volume};
use crate::orderbook::naive::{applied, depth_of, NaiveOrderBook};
use crate::orderbook::rules::{cancelled, entry_of, moved, reduced, BookModel};
use crate::api::types::SymbolType;
use vstd::prelude::*;

verus! {

/// What every order book can do. The books differ in how they keep their
/// orders and in the order types that they know; on what they share they
/// give the same events and the same book for the same commands.
pub trait OrderBook: Sized {
    /// The book as the rules see it.
    spec fn book(&self) -> BookModel;

    /// Validity of the book's own structure.
    spec fn valid(&self) -> bool;

    /// The kind of the book, which says what it does with each command.
    spec fn book_kind(&self) -> BookKind;

    /// The symbol that the book trades.
    spec fn spec_of(&self) -> CoreSymbolSpecification;

    fn new_order(&mut self, cmd: &mut OrderCommand) -> (code: CommandResultCode)
        requires
            old(self).valid(),
            old(self).book().has_room(entry_of(*old(cmd)), old(self).book_kind().keeps_extras()),
        ensures
            final(self).valid(),
            final(self).book_kind() == old(self).book_kind(),
            final(self).spec_of() == old(self).spec_of(),
            final(self).book() == placed_by(
                old(self).book_kind(),
                old(self).book(),
                entry_of(*old(cmd)),
            ).book,
            code == placed_by(old(self).book_kind(), old(self).book(), entry_of(*old(cmd))).code,
            applied(
                placed_by(old(self).book_kind(), old(self).book(), entry_of(*old(cmd))),
                *old(cmd),
                *final(cmd),
            ),
    ;

    fn cancel_order(&mut self, cmd: &mut OrderCommand) -> (code: CommandResultCode)
        requires
            old(self).valid(),
        ensures
            final(self).valid(),
            final(self).book_kind() == old(self).book_kind(),
            final(self).spec_of() == old(self).spec_of(),
            final(self).book() == cancelled(old(self).book(), entry_of(*old(cmd))).book,
            code == cancelled(old(self).book(), entry_of(*old(cmd))).code,
            applied(cancelled(old(self).book(), entry_of(*old(cmd))), *old(cmd), *final(cmd)),
    ;

    fn move_order(&mut self, cmd: &mut OrderCommand) -> (code: CommandResultCode)
        requires
            old(self).valid(),
        ensures
            final(self).valid(),
            final(self).book_kind() == old(self).book_kind(),
            final(self).spec_of() == old(self).spec_of(),
            final(self).book() == moved(old(self).book(),
                entry_of(*old(cmd)),
                old(self).spec_of().symbol_type == SymbolType::CurrencyExchangePair,
            ).book,
            code == moved(old(self).book(),
                entry_of(*old(cmd)),
                old(self).spec_of().symbol_type == SymbolType::CurrencyExchangePair,
            ).code,
            applied(
                moved(old(self).book(),
                    entry_of(*old(cmd)),
                    old(self).spec_of().symbol_type == SymbolType::CurrencyExchangePair,
                ),
                *old(cmd),
                *final(cmd),
            ),
    ;

    fn reduce_order(&mut self, cmd: &mut OrderCommand) -> (code: CommandResultCode)
        requires
            old(self).valid(),
        ensures
            final(self).valid(),
            final(self).book_kind() == old(self).book_kind(),
            final(self).spec_of() == old(self).spec_of(),
            final(self).book() == reduced(old(self).book(),
                entry_of(*old(cmd)),
            ).book,
            code == reduced(old(self).book(), entry_of(*old(cmd))).code,
            applied(
                reduced(old(self).book(), entry_of(*old(cmd))),
                *old(cmd),
                *final(cmd),
            ),
    ;

    fn get_symbol_spec(&self) -> (r: &CoreSymbolSpecification)
        ensures
            *r == self.spec_of(),
    ;

    fn get_l2_data(&self, depth: usize) -> (r: L2MarketData)
        requires
            self.valid(),
        ensures
            depth_of(self.book().asks, depth, r.ask_prices@, r.ask_volumes@),
            depth_of(self.book().bids, depth, r.bid_prices@, r.bid_volumes@),
    ;

    fn get_order_by_id(&self, order_id: OrderId) -> (r: Option<(Price, OrderAction)>)
        requires
            self.valid(),
        ensures
            r == if self.book().knows(order_id) {
                Some((self.book().order(order_id).price, self.book().order(order_id).action))
            } else {
                None
            },
    ;

    fn get_total_ask_volume(&self) -> (r: Size)
        requires
            self.valid(),
        ensures
            r == queue_volume(self.book().asks),
    ;

    fn get_total_bid_volume(&self) -> (r: Size)
        requires
            self.valid(),
        ensures
            r == queue_volume(self.book().bids),
    ;

    fn get_ask_buckets_count(&self) -> (r: usize)
        requires
            self.valid(),
        ensures
            r == price_levels(self.book().asks).len(),
    ;

    fn get_bid_buckets_count(&self) -> (r: usize)
        requires
            self.valid(),
        ensures
            r == price_levels(self.book().bids).len(),
    ;

    /// The book written out, to be saved.
    fn serialize_state(&self) -> (snap: BookSnapshot)
        requires
            self.valid(),
        ensures
            snap.wf(),
            snap@ == self.book(),
            snap.kind == self.book_kind(),
            snap.symbol_spec == self.spec_of(),
    ;
}

impl OrderBook for NaiveOrderBook {
    open spec fn book(&self) -> BookModel {
        self@
    }

    open spec fn valid(&self) -> bool {
        self.wf()
    }

    open spec fn book_kind(&self) -> BookKind {
        BookKind::Naive
    }

    open spec fn spec_of(&self) -> CoreSymbolSpecification {
        self.symbol_spec
    }

    fn new_order(&mut self, cmd: &mut OrderCommand) -> (code: CommandResultCode) {
        NaiveOrderBook::new_order(self, cmd)
    }

    fn cancel_order(&mut self, cmd: &mut OrderCommand) -> (code: CommandResultCode) {
        NaiveOrderBook::cancel_order(self, cmd)
    }

    fn move_order(&mut self, cmd: &mut OrderCommand) -> (code: CommandResultCode) {
        NaiveOrderBook::move_order(self, cmd)
    }

    fn reduce_order(&mut self, cmd: &mut OrderCommand) -> (code: CommandResultCode) {
        NaiveOrderBook::reduce_order(self, cmd)
    }

    fn get_symbol_spec(&self) -> (r: &CoreSymbolSpecification) {
        NaiveOrderBook::get_symbol_spec(self)
    }

    fn get_l2_data(&self, depth: usize) -> (r: L2MarketData) {
        NaiveOrderBook::get_l2_data(self, depth)
    }

    fn get_order_by_id(&self, order_id: OrderId) -> (r: Option<(Price, OrderAction)>) {
        NaiveOrderBook::get_order_by_id(self, order_id)
    }

    fn get_total_ask_volume(&self) -> (r: Size) {
        NaiveOrderBook::get_total_ask_volume(self)
    }

    fn get_total_bid_volume(&self) -> (r: Size) {
        NaiveOrderBook::get_total_bid_volume(self)
    }

    fn get_ask_buckets_count(&self) -> (r: usize) {
        NaiveOrderBook::get_ask_buckets_count(self)
    }

    fn get_bid_buckets_count(&self) -> (r: usize) {
        NaiveOrderBook::get_bid_buckets_count(self)
    }

    fn serialize_state(&self) -> (snap: BookSnapshot) {
        NaiveOrderBook::export(self)
    }
}

impl OrderBook for DirectOrderBook {
    open spec fn book(&self) -> BookModel {
        self@
    }

    open spec fn valid(&self) -> bool {
        self.wf()
    }

    open spec fn book_kind(&self) -> BookKind {
        BookKind::Direct
    }

    open spec fn spec_of(&self) -> CoreSymbolSpecification {
        self.core.symbol_spec
    }

    fn new_order(&mut self, cmd: &mut OrderCommand) -> (code: CommandResultCode) {
        DirectOrderBook::new_order(self, cmd)
    }

    fn cancel_order(&mut self, cmd: &mut OrderCommand) -> (code: CommandResultCode) {
        DirectOrderBook::cancel_order(self, cmd)
    }

    fn move_order(&mut self, cmd: &mut OrderCommand) -> (code: CommandResultCode) {
        DirectOrderBook::move_order(self, cmd)
    }

    fn reduce_order(&mut self, cmd: &mut OrderCommand) -> (code: CommandResultCode) {
        DirectOrderBook::reduce_order(self, cmd)
    }

    fn get_symbol_spec(&self) -> (r: &CoreSymbolSpecification) {
        DirectOrderBook::get_symbol_spec(self)
    }

    fn get_l2_data(&self, depth: usize) -> (r: L2MarketData) {
        DirectOrderBook::get_l2_data(self, depth)
    }

    fn get_order_by_id(&self, order_id: OrderId) -> (r: Option<(Price, OrderAction)>) {
        DirectOrderBook::get_order_by_id(self, order_id)
    }

    fn get_total_ask_volume(&self) -> (r: Size) {
        DirectOrderBook::get_total_ask_volume(self)
    }

    fn get_total_bid_volume(&self) -> (r: Size) {
        DirectOrderBook::get_total_bid_volume(self)
    }

    fn get_ask_buckets_count(&self) -> (r: usize) {
        DirectOrderBook::get_ask_buckets_count(self)
    }

    fn get_bid_buckets_count(&self) -> (r: usize) {
        DirectOrderBook::get_bid_buckets_count(self)
    }

    fn serialize_state(&self) -> (snap: BookSnapshot) {
        DirectOrderBook::export(self)
    }
}

impl OrderBook for DirectOrderBookOptimized {
    open spec fn book(&self) -> BookModel {
        self@
    }

    open spec fn valid(&self) -> bool {
        self.wf()
    }

    open spec fn book_kind(&self) -> BookKind {
        BookKind::DirectOptimized
    }

    open spec fn spec_of(&self) -> CoreSymbolSpecification {
        self.core.symbol_spec
    }

    fn new_order(&mut self, cmd: &mut OrderCommand) -> (code: CommandResultCode) {
        DirectOrderBookOptimized::new_order(self, cmd)
    }

    fn cancel_order(&mut self, cmd: &mut OrderCommand) -> (code: CommandResultCode) {
        DirectOrderBookOptimized::cancel_order(self, cmd)
    }

    fn move_order(&mut self, cmd: &mut OrderCommand) -> (code: CommandResultCode) {
        proof {
            assert(cmd.matcher_events@ + Seq::<crate::api::events::MatcherTradeEvent>::empty()
                =~= cmd.matcher_events@);
        }
        DirectOrderBookOptimized::move_order(self, cmd)
    }

    fn reduce_order(&mut self, cmd: &mut OrderCommand) -> (code: CommandResultCode) {
        proof {
            assert(cmd.matcher_events@ + Seq::<crate::api::events::MatcherTradeEvent>::empty()
                =~= cmd.matcher_events@);
        }
        DirectOrderBookOptimized::reduce_order(self, cmd)
    }

    fn get_symbol_spec(&self) -> (r: &CoreSymbolSpecification) {
        DirectOrderBookOptimized::get_symbol_spec(self)
    }

    fn get_l2_data(&self, depth: usize) -> (r: L2MarketData) {
        DirectOrderBookOptimized::get_l2_data(self, depth)
    }

    fn get_order_by_id(&self, order_id: OrderId) -> (r: Option<(Price, OrderAction)>) {
        DirectOrderBookOptimized::get_order_by_id(self, order_id)
    }

    fn get_total_ask_volume(&self) -> (r: Size) {
        DirectOrderBookOptimized::get_total_ask_volume(self)
    }

    fn get_total_bid_volume(&self) -> (r: Size) {
        DirectOrderBookOptimized::get_total_bid_volume(self)
    }

    fn get_ask_buckets_count(&self) -> (r: usize) {
        DirectOrderBookOptimized::get_ask_buckets_count(self)
    }

    fn get_bid_buckets_count(&self) -> (r: usize) {
        DirectOrderBookOptimized::get_bid_buckets_count(self)
    }

    fn serialize_state(&self) -> (snap: BookSnapshot) {
        DirectOrderBookOptimized::export(self)
    }
}

impl OrderBook for AdvancedOrderBook {
    open spec fn book(&self) -> BookModel {
        self@
    }

    open spec fn valid(&self) -> bool {
        self.wf()
    }

    open spec fn book_kind(&self) -> BookKind {
        BookKind::Advanced
    }

    open spec fn spec_of(&self) -> CoreSymbolSpecification {
        self.symbol_spec
    }

    fn new_order(&mut self, cmd: &mut OrderCommand) -> (code: CommandResultCode) {
        AdvancedOrderBook::new_order(self, cmd)
    }

    fn cancel_order(&mut self, cmd: &mut OrderCommand) -> (code: CommandResultCode) {
        AdvancedOrderBook::cancel_order(self, cmd)
    }

    fn move_order(&mut self, cmd: &mut OrderCommand) -> (code: CommandResultCode) {
        AdvancedOrderBook::move_order(self, cmd)
    }

    fn reduce_order(&mut self, cmd: &mut OrderCommand) -> (code: CommandResultCode) {
        proof {
            assert(cmd.matcher_events@ + Seq::<crate::api::events::MatcherTradeEvent>::empty()
                =~= cmd.matcher_events@);
        }
        AdvancedOrderBook::reduce_order(self, cmd)
    }

    fn get_symbol_spec(&self) -> (r: &CoreSymbolSpecification) {
        AdvancedOrderBook::get_symbol_spec(self)
    }

    fn get_l2_data(&self, depth: usize) -> (r: L2MarketData) {
        AdvancedOrderBook::get_l2_data(self, depth)
    }

    fn get_order_by_id(&self, order_id: OrderId) -> (r: Option<(Price, OrderAction)>) {
        AdvancedOrderBook::get_order_by_id(self, order_id)
    }

    fn get_total_ask_volume(&self) -> (r: Size) {
        AdvancedOrderBook::get_total_ask_volume(self)
    }

    fn get_total_bid_volume(&self) -> (r: Size) {
        AdvancedOrderBook::get_total_bid_volume(self)
    }

    fn get_ask_buckets_count(&self) -> (r: usize) {
        AdvancedOrderBook::get_ask_buckets_count(self)
    }

    fn get_bid_buckets_count(&self) -> (r: usize) {
        AdvancedOrderBook::get_bid_buckets_count(self)
    }

    fn serialize_state(&self) -> (snap: BookSnapshot) {
        AdvancedOrderBook::export(self)
    }
}

impl OrderBook for OrderBookState {
    open spec fn book(&self) -> BookModel {
        self@
    }

    open spec fn valid(&self) -> bool {
        self.wf()
    }

    open spec fn book_kind(&self) -> BookKind {
        self.kind()
    }

    open spec fn spec_of(&self) -> CoreSymbolSpecification {
        self.symbol_spec()
    }

    fn new_order(&mut self, cmd: &mut OrderCommand) -> (code: CommandResultCode) {
        OrderBookState::new_order(self, cmd)
    }

    fn cancel_order(&mut self, cmd: &mut OrderCommand) -> (code: CommandResultCode) {
        OrderBookState::cancel_order(self, cmd)
    }

    fn move_order(&mut self, cmd: &mut OrderCommand) -> (code: CommandResultCode) {
        OrderBookState::move_order(self, cmd)
    }

    fn reduce_order(&mut self, cmd: &mut OrderCommand) -> (code: CommandResultCode) {
        OrderBookState::reduce_order(self, cmd)
    }

    fn get_symbol_spec(&self) -> (r: &CoreSymbolSpecification) {
        OrderBookState::get_symbol_spec(self)
    }

    fn get_l2_data(&self, depth: usize) -> (r: L2MarketData) {
        OrderBookState::get_l2_data(self, depth)
    }

    fn get_order_by_id(&self, order_id: OrderId) -> (r: Option<(Price, OrderAction)>) {
        OrderBookState::get_order_by_id(self, order_id)
    }

    fn get_total_ask_volume(&self) -> (r: Size) {
        OrderBookState::get_total_ask_volume(self)
    }

    fn get_total_bid_volume(&self) -> (r: Size) {
        OrderBookState::get_total_bid_volume(self)
    }

    fn get_ask_buckets_count(&self) -> (r: usize) {
        OrderBookState::get_ask_buckets_count(self)
    }

    fn get_bid_buckets_count(&self) -> (r: usize) {
        OrderBookState::get_bid_buckets_count(self)
    }

    fn serialize_state(&self) -> (snap: BookSnapshot) {
        OrderBookState::export(self)
    }
}

} // verus!
