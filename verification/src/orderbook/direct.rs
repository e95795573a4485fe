use crate::api::commands::OrderCommand;
use crate::api::events::MatcherTradeEvent;
use crate::api::market_data::L2MarketData;
use crate::api::types::{
    CommandResultCode, CoreSymbolSpecification, OrderAction, OrderId, OrderType, Price, Size,
    SymbolType,
};
use crate::orderbook::model::{
    budget_met, cost_to_fill, has_id, price_levels, queue_volume, Order,
};
use crate::orderbook::naive::{applied, depth_of, naive_placed};
use crate::orderbook::rules::{
    after_match, cancelled, entry_of, fill_within_budget, matched, moved, reduced, take_and_rest,
    take_only, with_resting, BookModel,
};
use crate::orderbook::store::SlabNodes;
use crate::orderbook::book::{BookKind, BookSnapshot};
use crate::orderbook::threaded::ThreadedBook;
use vstd::prelude::*;

verus! {

/// Room that each slab of a new book starts with.
pub const SLAB_CAPACITY: usize = 1024;

/// The direct order book: each side is one doubly linked list of orders,
/// threaded through its price levels in price-time priority. The nodes live
/// in a slab and point at each other by slab key; the handle of the best
/// order of each side is at hand, so a taker walks the list without looking
/// a price up.
pub struct DirectOrderBook {
    pub core: ThreadedBook<SlabNodes>,
}

impl View for DirectOrderBook {
    type V = BookModel;

    open spec fn view(&self) -> BookModel {
        self.core@
    }
}

impl DirectOrderBook {
    pub open spec fn wf(&self) -> bool {
        self.core.wf()
    }

    pub fn new(spec: CoreSymbolSpecification) -> (book: Self)
        ensures
            book.wf(),
            book@ == BookModel::empty(),
            book.core.symbol_spec == spec,
    {
        DirectOrderBook {
            core: ThreadedBook::new(
                spec,
                SlabNodes::new(SLAB_CAPACITY),
                SlabNodes::new(SLAB_CAPACITY),
            ),
        }
    }

    /// Writes the book out.
    pub fn export(&self) -> (snap: BookSnapshot)
        requires
            self.wf(),
        ensures
            snap.wf(),
            snap@ == self@,
            snap.kind == BookKind::Direct,
            snap.symbol_spec == self.core.symbol_spec,
    {
        self.core.export(BookKind::Direct)
    }

    /// The book that a snapshot was written from.
    pub fn restore(snap: &BookSnapshot) -> (book: Self)
        requires
            snap@.wf(),
            snap.plain(),
            snap.stops@.len() == 0,
            snap.last_trade_price.is_none(),
        ensures
            book.wf(),
            book@ == snap@,
            book.core.symbol_spec == snap.symbol_spec,
    {
        let mut book = Self::new(snap.symbol_spec);
        book.core.refill(snap);
        book
    }

    /// Matches the command against the opposite side, from its best order
    /// on.
    pub fn try_match(&mut self, cmd: &mut OrderCommand) -> (filled: Size)
        requires
            old(self).wf(),
        ensures
            final(self).wf(),
            final(self).core.symbol_spec == old(self).core.symbol_spec,
            final(self)@ == after_match(old(self)@, entry_of(*old(cmd))),
            filled == matched(old(self)@, entry_of(*old(cmd))).filled,
            final(cmd).same_inputs(*old(cmd)),
            final(cmd).result_code == old(cmd).result_code,
            final(cmd).action == old(cmd).action,
            final(cmd).matcher_events@ == old(cmd).matcher_events@ + matched(
                old(self)@,
                entry_of(*old(cmd)),
            ).events,
    {
        self.core.try_match(cmd)
    }

    /// Links `order`, whose id the book does not know, into the list of its
    /// side.
    pub fn insert_order(&mut self, order: Order)
        requires
            old(self).wf(),
            order.live(),
            order.visible_size.is_none(),
            !old(self)@.knows(order.order_id),
            old(self)@.total_volume() + order.left() <= i64::MAX,
        ensures
            final(self).wf(),
            final(self).core.symbol_spec == old(self).core.symbol_spec,
            final(self)@ == with_resting(old(self)@, order),
    {
        self.core.insert_order(order);
    }

    /// Unlinks the resting order `o` from the list of its side, and drops
    /// its price level if it was the last order there.
    pub fn remove_order(&mut self, o: &Order)
        requires
            old(self).wf(),
            old(self)@.rests(o.order_id),
            *o == old(self)@.order(o.order_id),
            has_id(old(self)@.side(o.action), o.order_id),
        ensures
            final(self).wf(),
            final(self).core.symbol_spec == old(self).core.symbol_spec,
            final(self)@ == old(self)@.without(o.order_id),
    {
        self.core.remove_order(o);
    }

    pub fn place_gtc(&mut self, cmd: &mut OrderCommand)
        requires
            old(self).wf(),
            old(self)@.can_hold(entry_of(*old(cmd))),
        ensures
            final(self).wf(),
            final(self).core.symbol_spec == old(self).core.symbol_spec,
            final(self)@ == take_and_rest(old(self)@, entry_of(*old(cmd)), false).book,
            applied(take_and_rest(old(self)@, entry_of(*old(cmd)), false), *old(cmd), *final(cmd)),
    {
        self.core.place_gtc(cmd);
    }

    pub fn place_ioc(&mut self, cmd: &mut OrderCommand)
        requires
            old(self).wf(),
        ensures
            final(self).wf(),
            final(self).core.symbol_spec == old(self).core.symbol_spec,
            final(self)@ == take_only(old(self)@, entry_of(*old(cmd))).book,
            applied(take_only(old(self)@, entry_of(*old(cmd))), *old(cmd), *final(cmd)),
    {
        self.core.place_ioc(cmd);
    }

    pub fn place_fok_budget(&mut self, cmd: &mut OrderCommand)
        requires
            old(self).wf(),
        ensures
            final(self).wf(),
            final(self).core.symbol_spec == old(self).core.symbol_spec,
            final(self)@ == fill_within_budget(old(self)@, entry_of(*old(cmd))).book,
            applied(fill_within_budget(old(self)@, entry_of(*old(cmd))), *old(cmd), *final(cmd)),
    {
        self.core.place_fok_budget(cmd);
    }

    pub fn is_budget_satisfied(action: OrderAction, calculated: i128, limit: i64) -> (r: bool)
        ensures
            r == budget_met(action, calculated as int, limit as int),
    {
        ThreadedBook::<SlabNodes>::is_budget_satisfied(action, calculated, limit)
    }

    pub fn check_budget_to_fill(&self, size: Size, action: OrderAction, now: i64) -> (r: Option<
        i128,
    >)
        requires
            self.wf(),
        ensures
            match r {
                Some(c) => cost_to_fill(self@.side(action.flip()), now, size as int) == Some(
                    c as int,
                ),
                None => cost_to_fill(self@.side(action.flip()), now, size as int).is_none(),
            },
    {
        self.core.check_budget_to_fill(size, action, now)
    }

    /// Places a new order: good-till-cancel, immediate-or-cancel or
    /// fill-or-kill with a budget.
    pub fn new_order(&mut self, cmd: &mut OrderCommand) -> (code: CommandResultCode)
        requires
            old(self).wf(),
            old(self)@.has_room(entry_of(*old(cmd)), false),
        ensures
            final(self).wf(),
            final(self).core.symbol_spec == old(self).core.symbol_spec,
            final(self)@ == naive_placed(old(self)@, entry_of(*old(cmd))).book,
            code == naive_placed(old(self)@, entry_of(*old(cmd))).code,
            applied(naive_placed(old(self)@, entry_of(*old(cmd))), *old(cmd), *final(cmd)),
    {
        match cmd.order_type {
            OrderType::Gtc => {
                self.core.place_gtc(cmd);
                CommandResultCode::Success
            },
            OrderType::Ioc => {
                self.core.place_ioc(cmd);
                CommandResultCode::Success
            },
            OrderType::FokBudget => {
                self.core.place_fok_budget(cmd);
                CommandResultCode::Success
            },
            _ => {
                proof {
                    assert(cmd.matcher_events@ + Seq::<MatcherTradeEvent>::empty()
                        =~= cmd.matcher_events@);
                }
                CommandResultCode::MatchingUnsupportedCommand
            },
        }
    }

    pub fn cancel_order(&mut self, cmd: &mut OrderCommand) -> (code: CommandResultCode)
        requires
            old(self).wf(),
        ensures
            final(self).wf(),
            final(self).core.symbol_spec == old(self).core.symbol_spec,
            final(self)@ == cancelled(old(self)@, entry_of(*old(cmd))).book,
            code == cancelled(old(self)@, entry_of(*old(cmd))).code,
            applied(cancelled(old(self)@, entry_of(*old(cmd))), *old(cmd), *final(cmd)),
    {
        self.core.cancel_order(cmd)
    }

    pub fn move_order(&mut self, cmd: &mut OrderCommand) -> (code: CommandResultCode)
        requires
            old(self).wf(),
        ensures
            final(self).wf(),
            final(self).core.symbol_spec == old(self).core.symbol_spec,
            final(self)@ == moved(
                old(self)@,
                entry_of(*old(cmd)),
                old(self).core.symbol_spec.symbol_type == SymbolType::CurrencyExchangePair,
            ).book,
            code == moved(
                old(self)@,
                entry_of(*old(cmd)),
                old(self).core.symbol_spec.symbol_type == SymbolType::CurrencyExchangePair,
            ).code,
            applied(
                moved(
                    old(self)@,
                    entry_of(*old(cmd)),
                    old(self).core.symbol_spec.symbol_type == SymbolType::CurrencyExchangePair,
                ),
                *old(cmd),
                *final(cmd),
            ),
    {
        self.core.move_order(cmd)
    }

    pub fn reduce_order(&mut self, cmd: &mut OrderCommand) -> (code: CommandResultCode)
        requires
            old(self).wf(),
        ensures
            final(self).wf(),
            final(self).core.symbol_spec == old(self).core.symbol_spec,
            final(self)@ == reduced(old(self)@, entry_of(*old(cmd))).book,
            code == reduced(old(self)@, entry_of(*old(cmd))).code,
            applied(reduced(old(self)@, entry_of(*old(cmd))), *old(cmd), *final(cmd)),
    {
        self.core.reduce_order(cmd)
    }

    pub fn get_symbol_spec(&self) -> (r: &CoreSymbolSpecification)
        ensures
            *r == self.core.symbol_spec,
    {
        self.core.get_symbol_spec()
    }

    pub fn get_l2_data(&self, depth: usize) -> (r: L2MarketData)
        requires
            self.wf(),
        ensures
            depth_of(self@.asks, depth, r.ask_prices@, r.ask_volumes@),
            depth_of(self@.bids, depth, r.bid_prices@, r.bid_volumes@),
    {
        self.core.get_l2_data(depth)
    }

    pub fn get_order_by_id(&self, order_id: OrderId) -> (r: Option<(Price, OrderAction)>)
        requires
            self.wf(),
        ensures
            r == if self@.knows(order_id) {
                Some((self@.order(order_id).price, self@.order(order_id).action))
            } else {
                None
            },
    {
        self.core.get_order_by_id(order_id)
    }

    pub fn get_total_ask_volume(&self) -> (r: Size)
        requires
            self.wf(),
        ensures
            r == queue_volume(self@.asks),
    {
        self.core.get_total_ask_volume()
    }

    pub fn get_total_bid_volume(&self) -> (r: Size)
        requires
            self.wf(),
        ensures
            r == queue_volume(self@.bids),
    {
        self.core.get_total_bid_volume()
    }

    pub fn get_ask_buckets_count(&self) -> (r: usize)
        requires
            self.wf(),
        ensures
            r == price_levels(self@.asks).len(),
    {
        self.core.get_ask_buckets_count()
    }

    pub fn get_bid_buckets_count(&self) -> (r: usize)
        requires
            self.wf(),
        ensures
            r == price_levels(self@.bids).len(),
    {
        self.core.get_bid_buckets_count()
    }
}

} // verus!
