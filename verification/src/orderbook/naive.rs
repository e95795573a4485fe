use crate::api::commands::OrderCommand;
use crate::api::events::MatcherTradeEvent;
use crate::api::market_data::L2MarketData;
use crate::api::types::{
    CommandResultCode, CoreSymbolSpecification, OrderAction, OrderId, OrderType, Price, Size,
    SymbolType,
};
use crate::orderbook::index::{spots, spots_forget, spots_get, spots_insert, spots_new, spots_remove};
use crate::orderbook::ladder::PriceLadder;
use crate::orderbook::model::{
    budget_met, cost_to_fill, has_id, lemma_position, level_visible, position_of, price_levels,
    queue_volume, match_queue, Order, Taker,
};
use crate::orderbook::book::{BookKind, BookSnapshot};
use crate::orderbook::rules::{
    held_price, lemma_partial, partial,
    after_match, cancelled, cut, entry_of, fill_within_budget, lemma_book_after_cut, lemma_book_after_match,
    lemma_book_after_rest, lemma_book_without, matched, moved, mover, reduced, refused,
    resting_order, take_and_rest, take_only, taker_of, with_resting, BookModel, Outcome,
};
use vstd::prelude::*;

verus! {

/// The command `after` is `before` with the events of `out` appended and the
/// side that `out` gives; nothing else changed.
pub open spec fn applied(out: Outcome, before: OrderCommand, after: OrderCommand) -> bool {
    &&& after.same_inputs(before)
    &&& after.result_code == before.result_code
    &&& after.action == out.action
    &&& after.matcher_events@ == before.matcher_events@ + out.events
}

/// Price of the first order of a side, if it has one.
pub open spec fn best_of(q: Seq<Order>) -> Option<Price> {
    if q.len() > 0 {
        Some(q[0].price)
    } else {
        None
    }
}

/// What the plain book does with a new order: it knows good-till-cancel,
/// immediate-or-cancel and fill-or-kill with a budget.
pub open spec fn naive_placed(book: BookModel, cmd: Order) -> Outcome {
    match cmd.order_type {
        OrderType::Gtc => take_and_rest(book, cmd, false),
        OrderType::Ioc => take_only(book, cmd),
        OrderType::FokBudget => fill_within_budget(book, cmd),
        _ => refused(book, cmd, CommandResultCode::MatchingUnsupportedCommand),
    }
}

/// The plain order book: a ladder of price levels per side, an index from
/// order id to price and side, and the best price of each side.
pub struct NaiveOrderBook {
    pub symbol_spec: CoreSymbolSpecification,
    pub ask_buckets: PriceLadder,
    pub bid_buckets: PriceLadder,
    pub order_map: ahash::AHashMap<OrderId, (Price, OrderAction)>,
    pub best_ask_price: Option<Price>,
    pub best_bid_price: Option<Price>,
}

impl View for NaiveOrderBook {
    type V = BookModel;

    open spec fn view(&self) -> BookModel {
        BookModel {
            asks: self.ask_buckets@,
            bids: self.bid_buckets@,
            stops: Seq::empty(),
            last_trade_price: None,
        }
    }
}

impl NaiveOrderBook {
    /// The ladders are valid, the index holds exactly the resting orders,
    /// and the cached best prices are those of the first orders.
    pub open spec fn wf(&self) -> bool {
        &&& self.ladders_wf()
        &&& self@.wf()
        &&& spots(self.order_map) == self@.locator()
        &&& self.best_ask_price == best_of(self.ask_buckets@)
        &&& self.best_bid_price == best_of(self.bid_buckets@)
    }

    pub open spec fn ladders_wf(&self) -> bool {
        &&& self.ask_buckets.wf()
        &&& self.bid_buckets.wf()
        &&& self.ask_buckets.side == OrderAction::Ask
        &&& self.bid_buckets.side == OrderAction::Bid
    }

    pub fn new(spec: CoreSymbolSpecification) -> (book: Self)
        ensures
            book.wf(),
            book@ == BookModel::empty(),
            book.symbol_spec == spec,
    {
        let book = NaiveOrderBook {
            symbol_spec: spec,
            ask_buckets: PriceLadder::new(OrderAction::Ask),
            bid_buckets: PriceLadder::new(OrderAction::Bid),
            order_map: spots_new(),
            best_ask_price: None,
            best_bid_price: None,
        };
        proof {
            assert(book.ask_buckets@ =~= Seq::<Order>::empty());
            assert(book.bid_buckets@ =~= Seq::<Order>::empty());
            assert(book@.locator() =~= spots(book.order_map));
        }
        book
    }

    /// Reads the best prices off the ladders.
    pub fn update_best_prices(&mut self)
        requires
            old(self).ladders_wf(),
        ensures
            final(self).best_ask_price == best_of(old(self).ask_buckets@),
            final(self).best_bid_price == best_of(old(self).bid_buckets@),
            final(self).ask_buckets == old(self).ask_buckets,
            final(self).bid_buckets == old(self).bid_buckets,
            final(self).order_map == old(self).order_map,
            final(self).symbol_spec == old(self).symbol_spec,
    {
        self.best_ask_price = self.ask_buckets.best_price();
        self.best_bid_price = self.bid_buckets.best_price();
    }

    /// Matches the command against the opposite side.
    pub fn try_match(&mut self, cmd: &mut OrderCommand) -> (filled: Size)
        requires
            old(self).wf(),
        ensures
            final(self).wf(),
            final(self).symbol_spec == old(self).symbol_spec,
            final(self)@ == after_match(old(self)@, entry_of(*old(cmd))),
            filled == matched(old(self)@, entry_of(*old(cmd))).filled,
            0 <= filled,
            old(cmd).size >= 0 ==> filled <= old(cmd).size,
            final(cmd).same_inputs(*old(cmd)),
            final(cmd).result_code == old(cmd).result_code,
            final(cmd).action == old(cmd).action,
            final(cmd).matcher_events@ == old(cmd).matcher_events@ + matched(
                old(self)@,
                entry_of(*old(cmd)),
            ).events,
    {
        let t = Taker {
            action: cmd.action,
            limit: if cmd.order_type.budget() {
                None
            } else {
                Some(cmd.price)
            },
            reserve_price: cmd.reserve_price,
            now: cmd.timestamp,
        };
        assert(t == taker_of(entry_of(*cmd)));
        let best: Option<Price> = match cmd.action {
            OrderAction::Bid => self.best_ask_price,
            OrderAction::Ask => self.best_bid_price,
        };
        let idle: bool = match best {
            None => true,
            Some(p) => !t.takes(p),
        };
        if idle {
            proof {
                let m = matched(self@, entry_of(*cmd));
                assert(m.makers == self@.side(cmd.action.flip()));
                assert(after_match(self@, entry_of(*cmd)) == self@);
                assert(cmd.matcher_events@ + m.events =~= cmd.matcher_events@);
            }
            return 0;
        }
        let mut gone: Vec<OrderId> = Vec::new();
        proof {
            lemma_book_after_match(self@, cmd.action.flip(), t, cmd.size as int);
        }
        let filled: i64 = match cmd.action {
            OrderAction::Bid => self.ask_buckets.match_taker(
                &t,
                cmd.size,
                &mut cmd.matcher_events,
                &mut gone,
            ),
            OrderAction::Ask => self.bid_buckets.match_taker(
                &t,
                cmd.size,
                &mut cmd.matcher_events,
                &mut gone,
            ),
        };
        spots_forget(&mut self.order_map, &gone);
        self.update_best_prices();
        proof {
            assert(gone@ =~= matched(old(self)@, entry_of(*old(cmd))).gone);
        }
        filled
    }

    /// Rests `order`, whose id the book does not know.
    pub fn insert_order(&mut self, order: Order)
        requires
            old(self).wf(),
            order.live(),
            !old(self)@.knows(order.order_id),
            old(self)@.total_volume() + order.left() <= i64::MAX,
        ensures
            final(self).wf(),
            final(self).symbol_spec == old(self).symbol_spec,
            final(self)@ == with_resting(old(self)@, order),
    {
        proof {
            lemma_position(self.ask_buckets@, order.order_id);
            lemma_position(self.bid_buckets@, order.order_id);
            lemma_book_after_rest(self@, order);
        }
        match order.action {
            OrderAction::Ask => self.ask_buckets.insert(order),
            OrderAction::Bid => self.bid_buckets.insert(order),
        }
        spots_insert(&mut self.order_map, order.order_id, (order.price, order.action));
        self.update_best_prices();
    }

    /// Writes the book out.
    pub fn export(&self) -> (snap: BookSnapshot)
        requires
            self.wf(),
        ensures
            snap.wf(),
            snap@ == self@,
            snap.kind == BookKind::Naive,
            snap.symbol_spec == self.symbol_spec,
    {
        BookSnapshot {
            kind: BookKind::Naive,
            symbol_spec: self.symbol_spec,
            asks: self.ask_buckets.export(),
            bids: self.bid_buckets.export(),
            stops: Vec::new(),
            last_trade_price: None,
        }
    }

    /// The book that a snapshot was written from.
    pub fn restore(snap: &BookSnapshot) -> (book: Self)
        requires
            snap@.wf(),
            snap.stops@.len() == 0,
            snap.last_trade_price.is_none(),
        ensures
            book.wf(),
            book@ == snap@,
            book.symbol_spec == snap.symbol_spec,
    {
        let mut book = Self::new(snap.symbol_spec);
        let na: usize = snap.asks.len();
        let nb: usize = snap.bids.len();
        let mut i: usize = 0;
        proof {
            assert(snap.asks@.subrange(0, 0) =~= Seq::<Order>::empty());
            assert(snap.bids@.subrange(0, 0) =~= Seq::<Order>::empty());
            assert(snap.stops@.subrange(0, 0) =~= Seq::<Order>::empty());
            assert(book@.asks =~= Seq::<Order>::empty());
            assert(book@.bids =~= Seq::<Order>::empty());
            assert(book@.stops =~= Seq::<Order>::empty());
            assert(book@ == partial(snap@, 0, 0, 0));
        }
        while i < na
            invariant
                i <= na,
                na == snap.asks@.len(),
                snap@.wf(),
                snap.stops@.len() == 0,
                book.wf(),
                book.symbol_spec == snap.symbol_spec,
                book@ == partial(snap@, i as int, 0, 0),
            decreases na - i,
        {
            proof {
                lemma_partial(snap@, i as int, 0, 0);
            }
            book.insert_order(snap.asks[i]);
            i = i + 1;
        }
        let mut j: usize = 0;
        while j < nb
            invariant
                j <= nb,
                na == snap.asks@.len(),
                nb == snap.bids@.len(),
                snap@.wf(),
                snap.stops@.len() == 0,
                book.wf(),
                book.symbol_spec == snap.symbol_spec,
                book@ == partial(snap@, na as int, j as int, 0),
            decreases nb - j,
        {
            proof {
                lemma_partial(snap@, na as int, j as int, 0);
            }
            book.insert_order(snap.bids[j]);
            j = j + 1;
        }
        proof {
            assert(partial(snap@, na as int, nb as int, 0) =~= snap@) by {
                assert(snap.asks@.subrange(0, na as int) =~= snap.asks@);
                assert(snap.bids@.subrange(0, nb as int) =~= snap.bids@);
                assert(snap.stops@.subrange(0, 0) =~= snap.stops@);
            }
        }
        book
    }

    /// Good-till-cancel: matches, then rests what did not trade.
    pub fn place_gtc(&mut self, cmd: &mut OrderCommand)
        requires
            old(self).wf(),
            old(self)@.can_hold(entry_of(*old(cmd))),
        ensures
            final(self).wf(),
            final(self).symbol_spec == old(self).symbol_spec,
            final(self)@ == take_and_rest(old(self)@, entry_of(*old(cmd)), false).book,
            applied(take_and_rest(old(self)@, entry_of(*old(cmd)), false), *old(cmd), *final(cmd)),
    {
        let known: bool = spots_get(&self.order_map, cmd.order_id).is_some();
        let filled: i64 = self.try_match(cmd);
        if known {
            if filled < cmd.size {
                cmd.matcher_events.push(MatcherTradeEvent::new_rejection(
                    cmd.size - filled,
                    cmd.price,
                    held_price(cmd),
                ));
            }
            proof {
                let out = take_only(old(self)@, entry_of(*old(cmd)));
                assert(cmd.matcher_events@ =~= old(cmd).matcher_events@ + out.events);
            }
            return ;
        }
        if filled < cmd.size {
            let order = Order {
                order_id: cmd.order_id,
                uid: cmd.uid,
                price: cmd.price,
                size: cmd.size,
                filled,
                action: cmd.action,
                order_type: cmd.order_type,
                reserve_price: cmd.reserve_price,
                timestamp: cmd.timestamp,
                stop_price: None,
                visible_size: None,
                expire_time: None,
            };
            proof {
                assert(order == resting_order(entry_of(*old(cmd)), filled as int, false));
                lemma_book_after_match(
                    old(self)@,
                    cmd.action.flip(),
                    taker_of(entry_of(*old(cmd))),
                    cmd.size as int,
                );
                assert(!self@.knows(cmd.order_id)) by {
                    assert(!old(self)@.locator().contains_key(cmd.order_id));
                    assert(!self@.locator().contains_key(cmd.order_id));
                }
                lemma_position(self.ask_buckets@, cmd.order_id);
                lemma_position(self.bid_buckets@, cmd.order_id);
                assert(self@.side(cmd.action) == old(self)@.side(cmd.action));
                lemma_book_after_rest(self@, order);
            }
            match cmd.action {
                OrderAction::Ask => self.ask_buckets.insert(order),
                OrderAction::Bid => self.bid_buckets.insert(order),
            }
            spots_insert(&mut self.order_map, cmd.order_id, (cmd.price, cmd.action));
            self.update_best_prices();
        }
        proof {
            let out = take_and_rest(old(self)@, entry_of(*old(cmd)), false);
            assert(cmd.matcher_events@ =~= old(cmd).matcher_events@ + out.events);
        }
    }

    /// Immediate-or-cancel: matches, and rejects what did not trade.
    pub fn place_ioc(&mut self, cmd: &mut OrderCommand)
        requires
            old(self).wf(),
        ensures
            final(self).wf(),
            final(self).symbol_spec == old(self).symbol_spec,
            final(self)@ == take_only(old(self)@, entry_of(*old(cmd))).book,
            applied(take_only(old(self)@, entry_of(*old(cmd))), *old(cmd), *final(cmd)),
    {
        let filled: i64 = self.try_match(cmd);
        if filled < cmd.size {
            cmd.matcher_events.push(MatcherTradeEvent::new_rejection(
                    cmd.size - filled,
                    cmd.price,
                    held_price(cmd),
                ));
        }
        proof {
            let out = take_only(old(self)@, entry_of(*old(cmd)));
            assert(cmd.matcher_events@ =~= old(cmd).matcher_events@ + out.events);
        }
    }

    /// The budget test: a bid must not cost more than `limit`, an ask must
    /// not bring less.
    pub fn is_budget_satisfied(action: OrderAction, calculated: i128, limit: i64) -> (r: bool)
        ensures
            r == budget_met(action, calculated as int, limit as int),
    {
        match action {
            OrderAction::Bid => calculated <= limit as i128,
            OrderAction::Ask => calculated >= limit as i128,
        }
    }

    /// What it costs a taker on side `action` to fill `size` units now.
    pub fn check_budget_to_fill(&self, size: Size, action: OrderAction, now: i64) -> (r: Option<
        i128,
    >)
        requires
            self.wf(),
        ensures
            match r {
                Some(c) => cost_to_fill(self@.side(action.flip()), now, size as int) == Some(
                    c as int,
                ),
                None => cost_to_fill(self@.side(action.flip()), now, size as int).is_none(),
            },
    {
        match action {
            OrderAction::Ask => self.bid_buckets.cost_to_fill(now, size),
            OrderAction::Bid => self.ask_buckets.cost_to_fill(now, size),
        }
    }

    /// Fill-or-kill with a budget.
    pub fn place_fok_budget(&mut self, cmd: &mut OrderCommand)
        requires
            old(self).wf(),
        ensures
            final(self).wf(),
            final(self).symbol_spec == old(self).symbol_spec,
            final(self)@ == fill_within_budget(old(self)@, entry_of(*old(cmd))).book,
            applied(fill_within_budget(old(self)@, entry_of(*old(cmd))), *old(cmd), *final(cmd)),
    {
        let budget: Option<i128> = self.check_budget_to_fill(cmd.size, cmd.action, cmd.timestamp);
        let go: bool = match budget {
            Some(c) => Self::is_budget_satisfied(cmd.action, c, cmd.price),
            None => false,
        };
        if go {
            let _ = self.try_match(cmd);
        } else {
            cmd.matcher_events.push(MatcherTradeEvent::new_rejection(
                    cmd.size,
                    cmd.price,
                    held_price(cmd),
                ));
            proof {
                let out = fill_within_budget(old(self)@, entry_of(*old(cmd)));
                assert(cmd.matcher_events@ =~= old(cmd).matcher_events@ + out.events);
            }
        }
    }

    /// Places a new order according to its type.
    pub fn new_order(&mut self, cmd: &mut OrderCommand) -> (code: CommandResultCode)
        requires
            old(self).wf(),
            old(self)@.has_room(entry_of(*old(cmd)), false),
        ensures
            final(self).wf(),
            final(self).symbol_spec == old(self).symbol_spec,
            final(self)@ == naive_placed(old(self)@, entry_of(*old(cmd))).book,
            code == naive_placed(old(self)@, entry_of(*old(cmd))).code,
            applied(naive_placed(old(self)@, entry_of(*old(cmd))), *old(cmd), *final(cmd)),
    {
        match cmd.order_type {
            OrderType::Gtc => {
                self.place_gtc(cmd);
                CommandResultCode::Success
            },
            OrderType::Ioc => {
                self.place_ioc(cmd);
                CommandResultCode::Success
            },
            OrderType::FokBudget => {
                self.place_fok_budget(cmd);
                CommandResultCode::Success
            },
            _ => {
                proof {
                    assert(cmd.matcher_events@ + Seq::<MatcherTradeEvent>::empty()
                        =~= cmd.matcher_events@);
                }
                CommandResultCode::MatchingUnsupportedCommand
            },
        }
    }

    /// The resting order of id `order_id`, if the book holds one.
    pub fn find(&self, order_id: OrderId) -> (r: Option<Order>)
        requires
            self.wf(),
        ensures
            match r {
                Some(o) => self@.knows(order_id) && o == self@.order(order_id) && o.order_id
                    == order_id && has_id(self@.side(o.action), order_id) && o.live(),
                None => !self@.knows(order_id) && !self@.rests(order_id),
            },
    {
        proof {
            lemma_position(self.ask_buckets@, order_id);
            lemma_position(self.bid_buckets@, order_id);
            lemma_position(self@.stops, order_id);
            assert(self@.locator().contains_key(order_id) <==> self@.knows(order_id));
        }
        match spots_get(&self.order_map, order_id) {
            None => None,
            Some((price, action)) => {
                assert(self@.knows(order_id));
                assert(self@.order(order_id).price == price && self@.order(order_id).action
                    == action);
                match action {
                    OrderAction::Ask => self.ask_buckets.peek(price, order_id),
                    OrderAction::Bid => self.bid_buckets.peek(price, order_id),
                }
            },
        }
    }

    /// Takes the resting order `o`, which `find` gave, out of its ladder and
    /// out of the index.
    fn lift(&mut self, o: &Order)
        requires
            old(self).wf(),
            old(self)@.knows(o.order_id),
            *o == old(self)@.order(o.order_id),
            has_id(old(self)@.side(o.action), o.order_id),
        ensures
            final(self).ladders_wf(),
            final(self)@.wf(),
            final(self)@ == old(self)@.without(o.order_id),
            spots(final(self).order_map) == final(self)@.locator(),
            final(self).symbol_spec == old(self).symbol_spec,
    {
        proof {
            lemma_book_without(self@, o.order_id);
            lemma_position(self.ask_buckets@, o.order_id);
            lemma_position(self.bid_buckets@, o.order_id);
        }
        let _ = match o.action {
            OrderAction::Ask => self.ask_buckets.remove(o.price, o.order_id),
            OrderAction::Bid => self.bid_buckets.remove(o.price, o.order_id),
        };
        spots_remove(&mut self.order_map, o.order_id);
    }

    /// Cancels the resting order of the command's id and user.
    pub fn cancel_order(&mut self, cmd: &mut OrderCommand) -> (code: CommandResultCode)
        requires
            old(self).wf(),
        ensures
            final(self).wf(),
            final(self).symbol_spec == old(self).symbol_spec,
            final(self)@ == cancelled(old(self)@, entry_of(*old(cmd))).book,
            code == cancelled(old(self)@, entry_of(*old(cmd))).code,
            applied(cancelled(old(self)@, entry_of(*old(cmd))), *old(cmd), *final(cmd)),
    {
        proof {
            assert(cmd.matcher_events@ + Seq::<MatcherTradeEvent>::empty() =~= cmd.matcher_events@);
        }
        match self.find(cmd.order_id) {
            None => CommandResultCode::MatchingUnknownOrderId,
            Some(o) => {
                if o.uid != cmd.uid {
                    return CommandResultCode::MatchingUnknownOrderId;
                }
                self.lift(&o);
                self.update_best_prices();
                cmd.matcher_events.push(MatcherTradeEvent::new_rejection(
                    o.size - o.filled,
                    o.price,
                    o.hold_price(),
                ));
                cmd.action = o.action;
                CommandResultCode::Success
            },
        }
    }

    /// Cuts the size of the resting order of the command's id.
    pub fn reduce_order(&mut self, cmd: &mut OrderCommand) -> (code: CommandResultCode)
        requires
            old(self).wf(),
        ensures
            final(self).wf(),
            final(self).symbol_spec == old(self).symbol_spec,
            final(self)@ == reduced(old(self)@, entry_of(*old(cmd))).book,
            code == reduced(old(self)@, entry_of(*old(cmd))).code,
            applied(reduced(old(self)@, entry_of(*old(cmd))), *old(cmd), *final(cmd)),
    {
        proof {
            assert(cmd.matcher_events@ + Seq::<MatcherTradeEvent>::empty() =~= cmd.matcher_events@);
        }
        match self.find(cmd.order_id) {
            None => CommandResultCode::MatchingUnknownOrderId,
            Some(o) => {
                if cmd.size <= 0 {
                    return CommandResultCode::MatchingInvalidOrderSize;
                }
                if o.uid != cmd.uid {
                    return CommandResultCode::MatchingUnknownOrderId;
                }
                let left: i64 = o.size - o.filled;
                let by: i64 = if left < cmd.size {
                    left
                } else {
                    cmd.size
                };
                if by == left {
                    self.lift(&o);
                    self.update_best_prices();
                } else {
                    let smaller = Order {
                        order_id: o.order_id,
                        uid: o.uid,
                        price: o.price,
                        size: o.size - by,
                        filled: o.filled,
                        action: o.action,
                        order_type: o.order_type,
                        reserve_price: o.reserve_price,
                        timestamp: o.timestamp,
                        stop_price: o.stop_price,
                        visible_size: o.visible_size,
                        expire_time: o.expire_time,
                    };
                    proof {
                        assert(smaller == cut(o, by as int));
                        lemma_book_after_cut(self@, o.order_id, by as int);
                    }
                    let _ = match o.action {
                        OrderAction::Ask => self.ask_buckets.replace(o.price, o.order_id, smaller),
                        OrderAction::Bid => self.bid_buckets.replace(o.price, o.order_id, smaller),
                    };
                    self.update_best_prices();
                }
                cmd.matcher_events.push(MatcherTradeEvent::new_rejection(by, o.price, o.hold_price()));
                cmd.action = o.action;
                CommandResultCode::Success
            },
        }
    }

    /// Moves the resting order of the command's id to the command's price.
    pub fn move_order(&mut self, cmd: &mut OrderCommand) -> (code: CommandResultCode)
        requires
            old(self).wf(),
        ensures
            final(self).wf(),
            final(self).symbol_spec == old(self).symbol_spec,
            final(self)@ == moved(
                old(self)@,
                entry_of(*old(cmd)),
                old(self).symbol_spec.symbol_type == SymbolType::CurrencyExchangePair,
            ).book,
            code == moved(
                old(self)@,
                entry_of(*old(cmd)),
                old(self).symbol_spec.symbol_type == SymbolType::CurrencyExchangePair,
            ).code,
            applied(
                moved(
                    old(self)@,
                    entry_of(*old(cmd)),
                    old(self).symbol_spec.symbol_type == SymbolType::CurrencyExchangePair,
                ),
                *old(cmd),
                *final(cmd),
            ),
    {
        proof {
            assert(cmd.matcher_events@ + Seq::<MatcherTradeEvent>::empty() =~= cmd.matcher_events@);
        }
        let found: Option<Order> = self.find(cmd.order_id);
        match found {
            None => CommandResultCode::MatchingUnknownOrderId,
            Some(o) => {
                if o.uid != cmd.uid {
                    return CommandResultCode::MatchingUnknownOrderId;
                }
                let spot: bool = match self.symbol_spec.symbol_type {
                    SymbolType::CurrencyExchangePair => true,
                    _ => false,
                };
                let is_bid: bool = match o.action {
                    OrderAction::Bid => true,
                    OrderAction::Ask => false,
                };
                if spot && is_bid && cmd.price > o.reserve_price {
                    return CommandResultCode::RiskInvalidReserveBidPrice;
                }
                proof {
                    lemma_book_without(self@, o.order_id);
                }
                self.lift(&o);
                let ghost lifted = self@;
                let t = Taker {
                    action: o.action,
                    limit: Some(cmd.price),
                    reserve_price: o.reserve_price,
                    now: cmd.timestamp,
                };
                assert(t == mover(o, entry_of(*old(cmd))));
                let mut gone: Vec<OrderId> = Vec::new();
                proof {
                    lemma_book_after_match(lifted, o.action.flip(), t, o.left());
                }
                let filled: i64 = match o.action {
                    OrderAction::Bid => self.ask_buckets.match_taker(
                        &t,
                        o.size - o.filled,
                        &mut cmd.matcher_events,
                        &mut gone,
                    ),
                    OrderAction::Ask => self.bid_buckets.match_taker(
                        &t,
                        o.size - o.filled,
                        &mut cmd.matcher_events,
                        &mut gone,
                    ),
                };
                spots_forget(&mut self.order_map, &gone);
                let ghost taken = self@;
                proof {
                    assert(gone@ =~= match_queue(lifted.side(o.action.flip()), t, o.left()).gone);
                    assert(taken == lifted.with_side(
                        o.action.flip(),
                        match_queue(lifted.side(o.action.flip()), t, o.left()).makers,
                    ));
                }
                if filled < o.size - o.filled {
                    let again = Order {
                        order_id: o.order_id,
                        uid: o.uid,
                        price: cmd.price,
                        size: o.size,
                        filled: o.filled + filled,
                        action: o.action,
                        order_type: o.order_type,
                        reserve_price: o.reserve_price,
                        timestamp: o.timestamp,
                        stop_price: o.stop_price,
                        visible_size: o.visible_size,
                        expire_time: o.expire_time,
                    };
                    proof {
                        assert(!taken.knows(o.order_id)) by {
                            assert(!lifted.locator().contains_key(o.order_id));
                            assert(!taken.locator().contains_key(o.order_id));
                        }
                        lemma_position(self.ask_buckets@, o.order_id);
                        lemma_position(self.bid_buckets@, o.order_id);
                        assert(taken.side(o.action) == lifted.side(o.action));
                        lemma_book_after_rest(taken, again);
                    }
                    match o.action {
                        OrderAction::Ask => self.ask_buckets.insert(again),
                        OrderAction::Bid => self.bid_buckets.insert(again),
                    }
                    spots_insert(&mut self.order_map, o.order_id, (cmd.price, o.action));
                }
                self.update_best_prices();
                cmd.action = o.action;
                CommandResultCode::Success
            },
        }
    }

    pub fn get_symbol_spec(&self) -> (r: &CoreSymbolSpecification)
        ensures
            *r == self.symbol_spec,
    {
        &self.symbol_spec
    }

    /// Market depth: the best `depth` levels of each side with what each
    /// advertises.
    pub fn get_l2_data(&self, depth: usize) -> (r: L2MarketData)
        requires
            self.wf(),
        ensures
            depth_of(self@.asks, depth, r.ask_prices@, r.ask_volumes@),
            depth_of(self@.bids, depth, r.bid_prices@, r.bid_volumes@),
    {
        let (ask_prices, ask_volumes) = self.ask_buckets.depth(depth);
        let (bid_prices, bid_volumes) = self.bid_buckets.depth(depth);
        L2MarketData { ask_prices, ask_volumes, bid_prices, bid_volumes }
    }

    /// Price and side of the order of id `order_id`.
    pub fn get_order_by_id(&self, order_id: OrderId) -> (r: Option<(Price, OrderAction)>)
        requires
            self.wf(),
        ensures
            r == if self@.knows(order_id) {
                Some((self@.order(order_id).price, self@.order(order_id).action))
            } else {
                None
            },
    {
        assert(self@.locator().contains_key(order_id) <==> self@.knows(order_id));
        spots_get(&self.order_map, order_id)
    }

    pub fn get_total_ask_volume(&self) -> (r: Size)
        requires
            self.wf(),
        ensures
            r == queue_volume(self@.asks),
    {
        self.ask_buckets.total_volume()
    }

    pub fn get_total_bid_volume(&self) -> (r: Size)
        requires
            self.wf(),
        ensures
            r == queue_volume(self@.bids),
    {
        self.bid_buckets.total_volume()
    }

    pub fn get_ask_buckets_count(&self) -> (r: usize)
        requires
            self.wf(),
        ensures
            r == price_levels(self@.asks).len(),
    {
        self.ask_buckets.level_count()
    }

    pub fn get_bid_buckets_count(&self) -> (r: usize)
        requires
            self.wf(),
        ensures
            r == price_levels(self@.bids).len(),
    {
        self.bid_buckets.level_count()
    }
}

/// `prices` and `volumes` are the market depth of side `q` down to `depth`
/// levels: its best prices in order, each with what is advertised there.
pub open spec fn depth_of(q: Seq<Order>, depth: usize, prices: Seq<Price>, volumes: Seq<Size>) -> bool {
    &&& prices.len() == volumes.len()
    &&& prices.len() == if depth < price_levels(q).len() {
        depth as int
    } else {
        price_levels(q).len() as int
    }
    &&& forall|k: int| 0 <= k < prices.len() ==> prices[k] == price_levels(q)[k]
    &&& forall|k: int| 0 <= k < prices.len() ==> volumes[k] == level_visible(q, #[trigger] prices[k])
}

} // verus!
