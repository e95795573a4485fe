use crate::api::commands::OrderCommand;
use crate::api::events::MatcherTradeEvent;
use crate::api::market_data::L2MarketData;
use crate::api::types::{
    CommandResultCode, CoreSymbolSpecification, OrderAction, OrderId, Price, Size, SymbolType,
};
use crate::orderbook::chain::Side;
use crate::orderbook::model::{
    budget_met, cost_to_fill, has_id, lemma_position, match_queue, price_levels, queue_volume,
    Order, Taker,
};
use crate::orderbook::naive::{applied, depth_of};
use crate::orderbook::book::{BookKind, BookSnapshot};
use crate::orderbook::rules::{
    held_price, lemma_partial, partial,
    after_match, cancelled, cut, entry_of, fill_within_budget, lemma_book_after_cut,
    lemma_book_after_match, lemma_book_after_rest, lemma_book_without, matched, moved, mover,
    reduced, resting_order, take_and_rest, take_only, taker_of, with_resting, BookModel,
};
use crate::orderbook::store::NodeStore;
use vstd::prelude::*;

verus! {

/// A book whose sides are threaded lists of nodes in a store of kind `S`.
pub struct ThreadedBook<S: NodeStore> {
    pub symbol_spec: CoreSymbolSpecification,
    pub asks: Side<S>,
    pub bids: Side<S>,
}

impl<S: NodeStore> View for ThreadedBook<S> {
    type V = BookModel;

    open spec fn view(&self) -> BookModel {
        BookModel {
            asks: self.asks@,
            bids: self.bids@,
            stops: Seq::empty(),
            last_trade_price: None,
        }
    }
}

impl<S: NodeStore> ThreadedBook<S> {
    /// Both sides are valid, and so is the book that they make.
    pub open spec fn wf(&self) -> bool {
        &&& self.sides_wf()
        &&& self@.wf()
    }

    pub open spec fn sides_wf(&self) -> bool {
        &&& self.asks.wf()
        &&& self.bids.wf()
        &&& self.asks.side == OrderAction::Ask
        &&& self.bids.side == OrderAction::Bid
    }

    /// An empty book over two empty stores.
    pub fn new(spec: CoreSymbolSpecification, ask_store: S, bid_store: S) -> (book: Self)
        requires
            ask_store.store_wf(),
            ask_store.nodes().dom().is_empty(),
            bid_store.store_wf(),
            bid_store.nodes().dom().is_empty(),
        ensures
            book.wf(),
            book@ == BookModel::empty(),
            book.symbol_spec == spec,
    {
        let book = ThreadedBook {
            symbol_spec: spec,
            asks: Side::new(OrderAction::Ask, ask_store),
            bids: Side::new(OrderAction::Bid, bid_store),
        };
        proof {
            assert(book.asks@ =~= Seq::<Order>::empty());
            assert(book.bids@ =~= Seq::<Order>::empty());
        }
        book
    }

    /// Matches taker `t`, who wants `want` units, against the side opposite
    /// to it.
    pub fn match_with(&mut self, t: &Taker, want: Size, events: &mut Vec<MatcherTradeEvent>) -> (filled:
        Size)
        requires
            old(self).wf(),
        ensures
            final(self).wf(),
            final(self).symbol_spec == old(self).symbol_spec,
            final(self)@ == old(self)@.with_side(
                t.action.flip(),
                match_queue(old(self)@.side(t.action.flip()), *t, want as int).makers,
            ),
            filled == match_queue(old(self)@.side(t.action.flip()), *t, want as int).filled,
            0 <= filled,
            want >= 0 ==> filled <= want,
            final(events)@ == old(events)@ + match_queue(
                old(self)@.side(t.action.flip()),
                *t,
                want as int,
            ).events,
            final(self)@.total_volume() <= old(self)@.total_volume() - filled,
            forall|id: OrderId| final(self)@.knows(id) ==> old(self)@.knows(id),
    {
        proof {
            lemma_book_after_match(self@, t.action.flip(), *t, want as int);
            let b2 = self@.with_side(
                t.action.flip(),
                match_queue(self@.side(t.action.flip()), *t, want as int).makers,
            );
            assert forall|id: OrderId| b2.knows(id) implies self@.knows(id) by {
                assert(b2.locator().contains_key(id));
                assert(self@.locator().contains_key(id));
            }
        }
        match t.action {
            OrderAction::Bid => self.asks.match_taker(t, want, events),
            OrderAction::Ask => self.bids.match_taker(t, want, events),
        }
    }

    /// Matches the command against the opposite side.
    pub fn try_match(&mut self, cmd: &mut OrderCommand) -> (filled: Size)
        requires
            old(self).wf(),
        ensures
            final(self).wf(),
            final(self).symbol_spec == old(self).symbol_spec,
            final(self)@ == after_match(old(self)@, entry_of(*old(cmd))),
            filled == matched(old(self)@, entry_of(*old(cmd))).filled,
            0 <= filled,
            old(cmd).size >= 0 ==> filled <= old(cmd).size,
            final(cmd).same_inputs(*old(cmd)),
            final(cmd).result_code == old(cmd).result_code,
            final(cmd).action == old(cmd).action,
            final(cmd).matcher_events@ == old(cmd).matcher_events@ + matched(
                old(self)@,
                entry_of(*old(cmd)),
            ).events,
            final(self)@.total_volume() <= old(self)@.total_volume() - filled,
            forall|id: OrderId| final(self)@.knows(id) ==> old(self)@.knows(id),
    {
        let t = Taker {
            action: cmd.action,
            limit: if cmd.order_type.budget() {
                None
            } else {
                Some(cmd.price)
            },
            reserve_price: cmd.reserve_price,
            now: cmd.timestamp,
        };
        assert(t == taker_of(entry_of(*cmd)));
        self.match_with(&t, cmd.size, &mut cmd.matcher_events)
    }

    /// Rests `order`, whose id the book does not know: links it into the
    /// list of its side.
    pub fn insert_order(&mut self, order: Order)
        requires
            old(self).wf(),
            order.live(),
            order.visible_size.is_none(),
            !old(self)@.knows(order.order_id),
            old(self)@.total_volume() + order.left() <= i64::MAX,
        ensures
            final(self).wf(),
            final(self).symbol_spec == old(self).symbol_spec,
            final(self)@ == with_resting(old(self)@, order),
    {
        proof {
            lemma_book_after_rest(self@, order);
        }
        match order.action {
            OrderAction::Ask => self.asks.link(order),
            OrderAction::Bid => self.bids.link(order),
        }
    }

    /// Writes the book out as one of kind `kind`.
    pub fn export(&self, kind: BookKind) -> (snap: BookSnapshot)
        requires
            self.wf(),
        ensures
            snap@ == self@,
            snap@.wf(),
            snap.plain(),
            snap.stops@.len() == 0,
            snap.last_trade_price.is_none(),
            snap.kind == kind,
            snap.symbol_spec == self.symbol_spec,
    {
        BookSnapshot {
            kind,
            symbol_spec: self.symbol_spec,
            asks: self.asks.export(),
            bids: self.bids.export(),
            stops: Vec::new(),
            last_trade_price: None,
        }
    }

    /// Fills this empty book with the orders of a snapshot.
    pub fn refill(&mut self, snap: &BookSnapshot)
        requires
            old(self).wf(),
            old(self)@ == BookModel::empty(),
            snap@.wf(),
            snap.plain(),
            snap.stops@.len() == 0,
            snap.last_trade_price.is_none(),
        ensures
            final(self).wf(),
            final(self)@ == snap@,
            final(self).symbol_spec == old(self).symbol_spec,
    {
        let na: usize = snap.asks.len();
        let nb: usize = snap.bids.len();
        let mut i: usize = 0;
        proof {
            assert(snap.asks@.subrange(0, 0) =~= Seq::<Order>::empty());
            assert(snap.bids@.subrange(0, 0) =~= Seq::<Order>::empty());
            assert(snap.stops@.subrange(0, 0) =~= Seq::<Order>::empty());
            assert(self@.asks =~= Seq::<Order>::empty());
            assert(self@.bids =~= Seq::<Order>::empty());
            assert(self@.stops =~= Seq::<Order>::empty());
            assert(self@ == partial(snap@, 0, 0, 0));
        }
        while i < na
            invariant
                i <= na,
                na == snap.asks@.len(),
                snap@.wf(),
                snap.plain(),
                snap.stops@.len() == 0,
                self.wf(),
                self.symbol_spec == old(self).symbol_spec,
                self@ == partial(snap@, i as int, 0, 0),
            decreases na - i,
        {
            proof {
                lemma_partial(snap@, i as int, 0, 0);
            }
            self.insert_order(snap.asks[i]);
            i = i + 1;
        }
        let mut j: usize = 0;
        while j < nb
            invariant
                j <= nb,
                na == snap.asks@.len(),
                nb == snap.bids@.len(),
                snap@.wf(),
                snap.plain(),
                snap.stops@.len() == 0,
                self.wf(),
                self.symbol_spec == old(self).symbol_spec,
                self@ == partial(snap@, na as int, j as int, 0),
            decreases nb - j,
        {
            proof {
                lemma_partial(snap@, na as int, j as int, 0);
            }
            self.insert_order(snap.bids[j]);
            j = j + 1;
        }
        proof {
            assert(partial(snap@, na as int, nb as int, 0) =~= snap@) by {
                assert(snap.asks@.subrange(0, na as int) =~= snap.asks@);
                assert(snap.bids@.subrange(0, nb as int) =~= snap.bids@);
                assert(snap.stops@.subrange(0, 0) =~= snap.stops@);
            }
        }
    }

    /// The resting order of id `order_id`, if the book holds one.
    pub fn find(&self, order_id: OrderId) -> (r: Option<Order>)
        requires
            self.wf(),
        ensures
            match r {
                Some(o) => self@.knows(order_id) && self@.rests(order_id) && o == self@.order(
                    order_id,
                ) && o.order_id == order_id && has_id(self@.side(o.action), order_id) && o.live()
                    && o.visible_size.is_none(),
                None => !self@.knows(order_id) && !self@.rests(order_id),
            },
    {
        proof {
            lemma_position(self@.stops, order_id);
        }
        match self.asks.peek(order_id) {
            Some(o) => Some(o),
            None => self.bids.peek(order_id),
        }
    }

    /// Takes the resting order `o`, which `find` gave, out of the list of
    /// its side.
    pub fn remove_order(&mut self, o: &Order)
        requires
            old(self).wf(),
            old(self)@.rests(o.order_id),
            *o == old(self)@.order(o.order_id),
            has_id(old(self)@.side(o.action), o.order_id),
        ensures
            final(self).wf(),
            final(self).symbol_spec == old(self).symbol_spec,
            final(self)@ == old(self)@.without(o.order_id),
    {
        proof {
            lemma_book_without(self@, o.order_id);
        }
        let _ = match o.action {
            OrderAction::Ask => self.asks.remove(o.order_id),
            OrderAction::Bid => self.bids.remove(o.order_id),
        };
    }

    /// Good-till-cancel: matches, then rests what did not trade.
    pub fn place_gtc(&mut self, cmd: &mut OrderCommand)
        requires
            old(self).wf(),
            old(self)@.can_hold(entry_of(*old(cmd))),
        ensures
            final(self).wf(),
            final(self).symbol_spec == old(self).symbol_spec,
            final(self)@ == take_and_rest(old(self)@, entry_of(*old(cmd)), false).book,
            applied(take_and_rest(old(self)@, entry_of(*old(cmd)), false), *old(cmd), *final(cmd)),
    {
        let known: bool = self.find(cmd.order_id).is_some();
        let filled: i64 = self.try_match(cmd);
        if known {
            if filled < cmd.size {
                cmd.matcher_events.push(MatcherTradeEvent::new_rejection(
                    cmd.size - filled,
                    cmd.price,
                    held_price(cmd),
                ));
            }
            proof {
                let out = take_only(old(self)@, entry_of(*old(cmd)));
                assert(cmd.matcher_events@ =~= old(cmd).matcher_events@ + out.events);
            }
            return ;
        }
        if filled < cmd.size {
            let order = Order {
                order_id: cmd.order_id,
                uid: cmd.uid,
                price: cmd.price,
                size: cmd.size,
                filled,
                action: cmd.action,
                order_type: cmd.order_type,
                reserve_price: cmd.reserve_price,
                timestamp: cmd.timestamp,
                stop_price: None,
                visible_size: None,
                expire_time: None,
            };
            assert(order == resting_order(entry_of(*old(cmd)), filled as int, false));
            self.insert_order(order);
        }
        proof {
            let out = take_and_rest(old(self)@, entry_of(*old(cmd)), false);
            assert(cmd.matcher_events@ =~= old(cmd).matcher_events@ + out.events);
        }
    }

    /// Immediate-or-cancel: matches, and rejects what did not trade.
    pub fn place_ioc(&mut self, cmd: &mut OrderCommand)
        requires
            old(self).wf(),
        ensures
            final(self).wf(),
            final(self).symbol_spec == old(self).symbol_spec,
            final(self)@ == take_only(old(self)@, entry_of(*old(cmd))).book,
            applied(take_only(old(self)@, entry_of(*old(cmd))), *old(cmd), *final(cmd)),
    {
        let filled: i64 = self.try_match(cmd);
        if filled < cmd.size {
            cmd.matcher_events.push(MatcherTradeEvent::new_rejection(
                    cmd.size - filled,
                    cmd.price,
                    held_price(cmd),
                ));
        }
        proof {
            let out = take_only(old(self)@, entry_of(*old(cmd)));
            assert(cmd.matcher_events@ =~= old(cmd).matcher_events@ + out.events);
        }
    }

    /// The budget test: a bid must not cost more than `limit`, an ask must
    /// not bring less.
    pub fn is_budget_satisfied(action: OrderAction, calculated: i128, limit: i64) -> (r: bool)
        ensures
            r == budget_met(action, calculated as int, limit as int),
    {
        match action {
            OrderAction::Bid => calculated <= limit as i128,
            OrderAction::Ask => calculated >= limit as i128,
        }
    }

    /// What it costs a taker on side `action` to fill `size` units now.
    pub fn check_budget_to_fill(&self, size: Size, action: OrderAction, now: i64) -> (r: Option<
        i128,
    >)
        requires
            self.wf(),
        ensures
            match r {
                Some(c) => cost_to_fill(self@.side(action.flip()), now, size as int) == Some(
                    c as int,
                ),
                None => cost_to_fill(self@.side(action.flip()), now, size as int).is_none(),
            },
    {
        match action {
            OrderAction::Ask => self.bids.cost_to_fill(now, size),
            OrderAction::Bid => self.asks.cost_to_fill(now, size),
        }
    }

    /// Fill-or-kill with a budget.
    pub fn place_fok_budget(&mut self, cmd: &mut OrderCommand)
        requires
            old(self).wf(),
        ensures
            final(self).wf(),
            final(self).symbol_spec == old(self).symbol_spec,
            final(self)@ == fill_within_budget(old(self)@, entry_of(*old(cmd))).book,
            applied(fill_within_budget(old(self)@, entry_of(*old(cmd))), *old(cmd), *final(cmd)),
    {
        let budget: Option<i128> = self.check_budget_to_fill(cmd.size, cmd.action, cmd.timestamp);
        let go: bool = match budget {
            Some(c) => Self::is_budget_satisfied(cmd.action, c, cmd.price),
            None => false,
        };
        if go {
            let _ = self.try_match(cmd);
        } else {
            cmd.matcher_events.push(MatcherTradeEvent::new_rejection(
                    cmd.size,
                    cmd.price,
                    held_price(cmd),
                ));
            proof {
                let out = fill_within_budget(old(self)@, entry_of(*old(cmd)));
                assert(cmd.matcher_events@ =~= old(cmd).matcher_events@ + out.events);
            }
        }
    }

    /// Cancels the resting order of the command's id and user.
    pub fn cancel_order(&mut self, cmd: &mut OrderCommand) -> (code: CommandResultCode)
        requires
            old(self).wf(),
        ensures
            final(self).wf(),
            final(self).symbol_spec == old(self).symbol_spec,
            final(self)@ == cancelled(old(self)@, entry_of(*old(cmd))).book,
            code == cancelled(old(self)@, entry_of(*old(cmd))).code,
            applied(cancelled(old(self)@, entry_of(*old(cmd))), *old(cmd), *final(cmd)),
    {
        proof {
            assert(cmd.matcher_events@ + Seq::<MatcherTradeEvent>::empty() =~= cmd.matcher_events@);
        }
        match self.find(cmd.order_id) {
            None => CommandResultCode::MatchingUnknownOrderId,
            Some(o) => {
                if o.uid != cmd.uid {
                    return CommandResultCode::MatchingUnknownOrderId;
                }
                self.remove_order(&o);
                cmd.matcher_events.push(MatcherTradeEvent::new_rejection(
                    o.size - o.filled,
                    o.price,
                    o.hold_price(),
                ));
                cmd.action = o.action;
                CommandResultCode::Success
            },
        }
    }

    /// Cuts the size of the resting order of the command's id.
    pub fn reduce_order(&mut self, cmd: &mut OrderCommand) -> (code: CommandResultCode)
        requires
            old(self).wf(),
        ensures
            final(self).wf(),
            final(self).symbol_spec == old(self).symbol_spec,
            final(self)@ == reduced(old(self)@, entry_of(*old(cmd))).book,
            code == reduced(old(self)@, entry_of(*old(cmd))).code,
            applied(reduced(old(self)@, entry_of(*old(cmd))), *old(cmd), *final(cmd)),
    {
        proof {
            assert(cmd.matcher_events@ + Seq::<MatcherTradeEvent>::empty() =~= cmd.matcher_events@);
        }
        match self.find(cmd.order_id) {
            None => CommandResultCode::MatchingUnknownOrderId,
            Some(o) => {
                if cmd.size <= 0 {
                    return CommandResultCode::MatchingInvalidOrderSize;
                }
                if o.uid != cmd.uid {
                    return CommandResultCode::MatchingUnknownOrderId;
                }
                let left: i64 = o.size - o.filled;
                let by: i64 = if left < cmd.size {
                    left
                } else {
                    cmd.size
                };
                if by == left {
                    self.remove_order(&o);
                } else {
                    let smaller = Order {
                        order_id: o.order_id,
                        uid: o.uid,
                        price: o.price,
                        size: o.size - by,
                        filled: o.filled,
                        action: o.action,
                        order_type: o.order_type,
                        reserve_price: o.reserve_price,
                        timestamp: o.timestamp,
                        stop_price: o.stop_price,
                        visible_size: o.visible_size,
                        expire_time: o.expire_time,
                    };
                    proof {
                        assert(smaller == cut(o, by as int));
                        lemma_book_after_cut(self@, o.order_id, by as int);
                    }
                    let _ = match o.action {
                        OrderAction::Ask => self.asks.replace(o.order_id, smaller),
                        OrderAction::Bid => self.bids.replace(o.order_id, smaller),
                    };
                }
                cmd.matcher_events.push(MatcherTradeEvent::new_rejection(by, o.price, o.hold_price()));
                cmd.action = o.action;
                CommandResultCode::Success
            },
        }
    }

    /// Moves the resting order of the command's id to the command's price.
    pub fn move_order(&mut self, cmd: &mut OrderCommand) -> (code: CommandResultCode)
        requires
            old(self).wf(),
        ensures
            final(self).wf(),
            final(self).symbol_spec == old(self).symbol_spec,
            final(self)@ == moved(
                old(self)@,
                entry_of(*old(cmd)),
                old(self).symbol_spec.symbol_type == SymbolType::CurrencyExchangePair,
            ).book,
            code == moved(
                old(self)@,
                entry_of(*old(cmd)),
                old(self).symbol_spec.symbol_type == SymbolType::CurrencyExchangePair,
            ).code,
            applied(
                moved(
                    old(self)@,
                    entry_of(*old(cmd)),
                    old(self).symbol_spec.symbol_type == SymbolType::CurrencyExchangePair,
                ),
                *old(cmd),
                *final(cmd),
            ),
    {
        proof {
            assert(cmd.matcher_events@ + Seq::<MatcherTradeEvent>::empty() =~= cmd.matcher_events@);
        }
        let found: Option<Order> = self.find(cmd.order_id);
        match found {
            None => CommandResultCode::MatchingUnknownOrderId,
            Some(o) => {
                if o.uid != cmd.uid {
                    return CommandResultCode::MatchingUnknownOrderId;
                }
                let spot: bool = match self.symbol_spec.symbol_type {
                    SymbolType::CurrencyExchangePair => true,
                    _ => false,
                };
                let is_bid: bool = match o.action {
                    OrderAction::Bid => true,
                    OrderAction::Ask => false,
                };
                if spot && is_bid && cmd.price > o.reserve_price {
                    return CommandResultCode::RiskInvalidReserveBidPrice;
                }
                proof {
                    lemma_book_without(self@, o.order_id);
                }
                self.remove_order(&o);
                let t = Taker {
                    action: o.action,
                    limit: Some(cmd.price),
                    reserve_price: o.reserve_price,
                    now: cmd.timestamp,
                };
                assert(t == mover(o, entry_of(*old(cmd))));
                let filled: i64 = self.match_with(&t, o.size - o.filled, &mut cmd.matcher_events);
                if filled < o.size - o.filled {
                    let again = Order {
                        order_id: o.order_id,
                        uid: o.uid,
                        price: cmd.price,
                        size: o.size,
                        filled: o.filled + filled,
                        action: o.action,
                        order_type: o.order_type,
                        reserve_price: o.reserve_price,
                        timestamp: o.timestamp,
                        stop_price: o.stop_price,
                        visible_size: o.visible_size,
                        expire_time: o.expire_time,
                    };
                    self.insert_order(again);
                }
                cmd.action = o.action;
                CommandResultCode::Success
            },
        }
    }

    pub fn get_symbol_spec(&self) -> (r: &CoreSymbolSpecification)
        ensures
            *r == self.symbol_spec,
    {
        &self.symbol_spec
    }

    /// Market depth: the best `depth` levels of each side with what each
    /// advertises.
    pub fn get_l2_data(&self, depth: usize) -> (r: L2MarketData)
        requires
            self.wf(),
        ensures
            depth_of(self@.asks, depth, r.ask_prices@, r.ask_volumes@),
            depth_of(self@.bids, depth, r.bid_prices@, r.bid_volumes@),
    {
        let (ask_prices, ask_volumes) = self.asks.depth(depth);
        let (bid_prices, bid_volumes) = self.bids.depth(depth);
        L2MarketData { ask_prices, ask_volumes, bid_prices, bid_volumes }
    }

    /// Price and side of the order of id `order_id`.
    pub fn get_order_by_id(&self, order_id: OrderId) -> (r: Option<(Price, OrderAction)>)
        requires
            self.wf(),
        ensures
            r == if self@.knows(order_id) {
                Some((self@.order(order_id).price, self@.order(order_id).action))
            } else {
                None
            },
    {
        match self.find(order_id) {
            Some(o) => Some((o.price, o.action)),
            None => None,
        }
    }

    pub fn get_total_ask_volume(&self) -> (r: Size)
        requires
            self.wf(),
        ensures
            r == queue_volume(self@.asks),
    {
        self.asks.total_volume()
    }

    pub fn get_total_bid_volume(&self) -> (r: Size)
        requires
            self.wf(),
        ensures
            r == queue_volume(self@.bids),
    {
        self.bids.total_volume()
    }

    pub fn get_ask_buckets_count(&self) -> (r: usize)
        requires
            self.wf(),
        ensures
            r == price_levels(self@.asks).len(),
    {
        self.asks.level_count()
    }

    pub fn get_bid_buckets_count(&self) -> (r: usize)
        requires
            self.wf(),
        ensures
            r == price_levels(self@.bids).len(),
    {
        self.bids.level_count()
    }
}

} // verus!
