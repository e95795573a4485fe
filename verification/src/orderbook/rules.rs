use crate::api::commands::OrderCommand;
use crate::api::events::MatcherTradeEvent;
use crate::api::types::{CommandResultCode, OrderAction, OrderId, OrderType, Price};
use crate::orderbook::model::{
    ahead, all_live, budget_met, cost_to_fill, has_id, ids_distinct, in_priority, left_fn,
    lemma_insert_distinct, lemma_match_keeps, lemma_match_shape, lemma_position,
    lemma_position_unique, lemma_remove_distinct, lemma_rest_at_bounds, lemma_sum_by_insert,
    lemma_sum_by_remove, lemma_sum_by_update, lemma_visible_within_volume, match_queue, match_skip, min_int, position_of,
    queue_volume, rest_at, rested, MatchOutcome, Order, Taker,
};
use vstd::prelude::*;

verus! {

/// The state of an order book as the rules see it.
pub ghost struct BookModel {
    /// Resting asks in price-time priority: lowest price first.
    pub asks: Seq<Order>,
    /// Resting bids in price-time priority: highest price first.
    pub bids: Seq<Order>,
    /// Stop orders that have not triggered, in arrival order.
    pub stops: Seq<Order>,
    /// Price of the most recent trade.
    pub last_trade_price: Option<Price>,
}

/// What a command does to a book.
pub ghost struct Outcome {
    pub book: BookModel,
    /// Events appended to the command.
    pub events: Seq<MatcherTradeEvent>,
    pub code: CommandResultCode,
    /// Side that the command carries afterwards.
    pub action: OrderAction,
}

/// Price and side of the order of id `id` in `q`.
pub open spec fn spot_of(q: Seq<Order>, id: OrderId) -> (Price, OrderAction) {
    (q[position_of(q, id)].price, q[position_of(q, id)].action)
}

impl BookModel {
    pub open spec fn empty() -> BookModel {
        BookModel {
            asks: Seq::empty(),
            bids: Seq::empty(),
            stops: Seq::empty(),
            last_trade_price: None,
        }
    }

    pub open spec fn side(self, a: OrderAction) -> Seq<Order> {
        match a {
            OrderAction::Ask => self.asks,
            OrderAction::Bid => self.bids,
        }
    }

    pub open spec fn with_side(self, a: OrderAction, q: Seq<Order>) -> BookModel {
        match a {
            OrderAction::Ask => BookModel { asks: q, ..self },
            OrderAction::Bid => BookModel { bids: q, ..self },
        }
    }

    /// The book holds an order of id `id`, resting or in the stop pool.
    pub open spec fn knows(self, id: OrderId) -> bool {
        has_id(self.asks, id) || has_id(self.bids, id) || has_id(self.stops, id)
    }

    /// An order of id `id` rests in the book.
    pub open spec fn rests(self, id: OrderId) -> bool {
        has_id(self.asks, id) || has_id(self.bids, id)
    }

    /// The order of id `id`.
    pub open spec fn order(self, id: OrderId) -> Order {
        if has_id(self.asks, id) {
            self.asks[position_of(self.asks, id)]
        } else if has_id(self.bids, id) {
            self.bids[position_of(self.bids, id)]
        } else {
            self.stops[position_of(self.stops, id)]
        }
    }

    /// The book without the order of id `id`.
    pub open spec fn without(self, id: OrderId) -> BookModel {
        if has_id(self.asks, id) {
            BookModel { asks: self.asks.remove(position_of(self.asks, id)), ..self }
        } else if has_id(self.bids, id) {
            BookModel { bids: self.bids.remove(position_of(self.bids, id)), ..self }
        } else if has_id(self.stops, id) {
            BookModel { stops: self.stops.remove(position_of(self.stops, id)), ..self }
        } else {
            self
        }
    }

    /// The order-id index of the book: for each id that it knows, the price
    /// and side of the order.
    pub open spec fn locator(self) -> Map<OrderId, (Price, OrderAction)> {
        Map::new(
            |id: OrderId| self.knows(id),
            |id: OrderId| (self.order(id).price, self.order(id).action),
        )
    }

    /// Every resting order is live and on its side, each side stands in
    /// price-time priority and holds no more than 64 bits count, stop
    /// orders are untouched, and no id occurs twice.
    pub open spec fn wf(self) -> bool {
        &&& all_live(OrderAction::Ask, self.asks)
        &&& all_live(OrderAction::Bid, self.bids)
        &&& in_priority(OrderAction::Ask, self.asks)
        &&& in_priority(OrderAction::Bid, self.bids)
        &&& self.total_volume() <= i64::MAX
        &&& ids_distinct(self.asks)
        &&& ids_distinct(self.bids)
        &&& ids_distinct(self.stops)
        &&& forall|i: int|
            0 <= i < self.stops.len() ==> (#[trigger] self.stops[i]).live() && self.stops[i].filled
                == 0 && self.stops[i].order_type.is_stop()
        &&& forall|id: OrderId|
            !(has_id(self.asks, id) && has_id(self.bids, id)) && !(has_id(self.asks, id) && has_id(
                self.stops,
                id,
            )) && !(has_id(self.bids, id) && has_id(self.stops, id))
    }

    /// Everything that the book holds: what is left of the resting orders
    /// and of the stop orders.
    pub open spec fn total_volume(self) -> int {
        queue_volume(self.asks) + queue_volume(self.bids) + queue_volume(self.stops)
    }

    /// The book can hold the order's size on top of what it holds, within
    /// 64 bits.
    pub open spec fn can_hold(self, cmd: Order) -> bool {
        cmd.size > 0 ==> self.total_volume() + cmd.size <= i64::MAX
    }

    /// The book can take the order: nothing of it ever rests, or the book
    /// can hold it. A book that keeps advertised sizes, `extras`, takes none
    /// below zero: what a price level advertises is a sum of 64 bits over
    /// orders that come and go, which must not fall below what 64 bits
    /// hold.
    pub open spec fn has_room(self, cmd: Order, extras: bool) -> bool {
        cmd.order_type.never_rests() || (self.can_hold(cmd) && (extras ==> cmd.shown_ok()))
    }

    /// Of a valid book no part holds more than the whole, and none less than
    /// nothing.
    pub proof fn lemma_volumes(self)
        requires
            self.wf(),
        ensures
            0 <= queue_volume(self.asks) <= self.total_volume(),
            0 <= queue_volume(self.bids) <= self.total_volume(),
            0 <= queue_volume(self.stops) <= self.total_volume(),
            self.total_volume() <= i64::MAX,
    {
        lemma_visible_within_volume(self.asks);
        lemma_visible_within_volume(self.bids);
        lemma_visible_within_volume(self.stops);
    }
}

/// The order that a command brings.
pub open spec fn entry_of(cmd: OrderCommand) -> Order {
    Order {
        order_id: cmd.order_id,
        uid: cmd.uid,
        price: cmd.price,
        size: cmd.size,
        filled: 0,
        action: cmd.action,
        order_type: cmd.order_type,
        reserve_price: cmd.reserve_price,
        timestamp: cmd.timestamp,
        stop_price: cmd.stop_price,
        visible_size: cmd.visible_size,
        expire_time: cmd.expire_time,
    }
}

/// The price at which the escrow of the command's bid is taken.
pub fn held_price(cmd: &OrderCommand) -> (r: Price)
    ensures
        r == entry_of(*cmd).held_at(),
{
    if cmd.order_type.budget() {
        cmd.price
    } else {
        cmd.reserve_price
    }
}

/// The taker that a command is: budget orders take any price.
pub open spec fn taker_of(cmd: Order) -> Taker {
    Taker {
        action: cmd.action,
        limit: if cmd.order_type.is_budget() {
            None
        } else {
            Some(cmd.price)
        },
        reserve_price: cmd.reserve_price,
        now: cmd.timestamp,
    }
}

/// The command matched against the opposite side.
pub open spec fn matched(book: BookModel, cmd: Order) -> MatchOutcome {
    match_queue(book.side(cmd.action.flip()), taker_of(cmd), cmd.size as int)
}

pub open spec fn after_match(book: BookModel, cmd: Order) -> BookModel {
    book.with_side(cmd.action.flip(), matched(book, cmd).makers)
}

/// The reject event for what a command did not trade, if anything.
pub open spec fn rejected(cmd: Order, filled: int) -> Seq<MatcherTradeEvent> {
    if filled < cmd.size {
        seq![MatcherTradeEvent::rejection((cmd.size - filled) as i64, cmd.price, cmd.held_at())]
    } else {
        Seq::empty()
    }
}

/// The order that rests for a command of which `filled` units traded. With
/// `extras` it keeps the command's advertised size and expiry time.
pub open spec fn resting_order(cmd: Order, filled: int, extras: bool) -> Order {
    Order {
        order_id: cmd.order_id,
        uid: cmd.uid,
        price: cmd.price,
        size: cmd.size,
        filled: filled as i64,
        action: cmd.action,
        order_type: cmd.order_type,
        reserve_price: cmd.reserve_price,
        timestamp: cmd.timestamp,
        stop_price: None,
        visible_size: if extras {
            cmd.visible_size
        } else {
            None
        },
        expire_time: if extras {
            cmd.expire_time
        } else {
            None
        },
    }
}

/// The book with `o` resting on its side.
pub open spec fn with_resting(book: BookModel, o: Order) -> BookModel {
    book.with_side(o.action, rested(o.action, book.side(o.action), o))
}

/// A command that only takes: it matches, and what it did not trade is
/// rejected.
pub open spec fn take_only(book: BookModel, cmd: Order) -> Outcome {
    Outcome {
        book: after_match(book, cmd),
        events: matched(book, cmd).events + rejected(cmd, matched(book, cmd).filled),
        code: CommandResultCode::Success,
        action: cmd.action,
    }
}

/// A command that matches and rests what it did not trade. Under an id that
/// the book knows it only takes.
pub open spec fn take_and_rest(book: BookModel, cmd: Order, extras: bool) -> Outcome {
    let m = matched(book, cmd);
    if book.knows(cmd.order_id) {
        take_only(book, cmd)
    } else {
        Outcome {
            book: if m.filled < cmd.size {
                with_resting(after_match(book, cmd), resting_order(cmd, m.filled, extras))
            } else {
                after_match(book, cmd)
            },
            events: m.events,
            code: CommandResultCode::Success,
            action: cmd.action,
        }
    }
}

/// A command that is turned away whole: one reject event of its full size.
pub open spec fn turned_away(book: BookModel, cmd: Order) -> Outcome {
    Outcome {
        book,
        events: seq![MatcherTradeEvent::rejection(cmd.size, cmd.price, cmd.held_at())],
        code: CommandResultCode::Success,
        action: cmd.action,
    }
}

/// A command that changes nothing and ends with `code`.
pub open spec fn refused(book: BookModel, cmd: Order, code: CommandResultCode) -> Outcome {
    Outcome { book, events: Seq::empty(), code, action: cmd.action }
}

/// Fill-or-kill with a budget: executes where the opposite side can fill the
/// whole size at a cost within the budget that the price field carries.
pub open spec fn fill_within_budget(book: BookModel, cmd: Order) -> Outcome {
    match cost_to_fill(book.side(cmd.action.flip()), cmd.timestamp, cmd.size as int) {
        Some(cost) => if budget_met(cmd.action, cost, cmd.price as int) {
            Outcome {
                book: after_match(book, cmd),
                events: matched(book, cmd).events,
                code: CommandResultCode::Success,
                action: cmd.action,
            }
        } else {
            turned_away(book, cmd)
        },
        None => turned_away(book, cmd),
    }
}

/// Cancel: the order of the command's id, owned by the command's user,
/// leaves the book, with one reject event for what was left of it.
pub open spec fn cancelled(book: BookModel, cmd: Order) -> Outcome {
    if !book.knows(cmd.order_id) || book.order(cmd.order_id).uid != cmd.uid {
        refused(book, cmd, CommandResultCode::MatchingUnknownOrderId)
    } else {
        let o = book.order(cmd.order_id);
        Outcome {
            book: book.without(cmd.order_id),
            events: seq![MatcherTradeEvent::rejection(o.left() as i64, o.price, o.held_at())],
            code: CommandResultCode::Success,
            action: o.action,
        }
    }
}

/// The order `o` with its size cut by `by`.
pub open spec fn cut(o: Order, by: int) -> Order {
    Order { size: (o.size - by) as i64, ..o }
}

/// Reduce: the resting order loses the command's size, or all that is left
/// of it if that is less, with one reject event for what it lost.
pub open spec fn reduced(book: BookModel, cmd: Order) -> Outcome {
    if !book.rests(cmd.order_id) {
        refused(book, cmd, CommandResultCode::MatchingUnknownOrderId)
    } else if cmd.size <= 0 {
        refused(book, cmd, CommandResultCode::MatchingInvalidOrderSize)
    } else if book.order(cmd.order_id).uid != cmd.uid {
        refused(book, cmd, CommandResultCode::MatchingUnknownOrderId)
    } else {
        let o = book.order(cmd.order_id);
        let by = min_int(o.left(), cmd.size as int);
        Outcome {
            book: if by == o.left() {
                book.without(cmd.order_id)
            } else {
                book.with_side(
                    o.action,
                    book.side(o.action).update(
                        position_of(book.side(o.action), cmd.order_id),
                        cut(o, by),
                    ),
                )
            },
            events: seq![MatcherTradeEvent::rejection(by as i64, o.price, o.held_at())],
            code: CommandResultCode::Success,
            action: o.action,
        }
    }
}

/// The taker that a moved order is at its new price.
pub open spec fn mover(o: Order, cmd: Order) -> Taker {
    Taker {
        action: o.action,
        limit: Some(cmd.price),
        reserve_price: o.reserve_price,
        now: cmd.timestamp,
    }
}

/// Move: the resting order leaves its place, matches at the new price for
/// what is left of it, and rests what it did not trade at the new price. On a
/// spot pair a bid may not move above its reserve price.
pub open spec fn moved(book: BookModel, cmd: Order, spot: bool) -> Outcome {
    if !book.rests(cmd.order_id) || book.order(cmd.order_id).uid != cmd.uid {
        refused(book, cmd, CommandResultCode::MatchingUnknownOrderId)
    } else {
        let o = book.order(cmd.order_id);
        if spot && o.action == OrderAction::Bid && cmd.price > o.reserve_price {
            refused(book, cmd, CommandResultCode::RiskInvalidReserveBidPrice)
        } else {
            let lifted = book.without(cmd.order_id);
            let m = match_queue(lifted.side(o.action.flip()), mover(o, cmd), o.left());
            let taken = lifted.with_side(o.action.flip(), m.makers);
            Outcome {
                book: if m.filled < o.left() {
                    with_resting(
                        taken,
                        Order { price: cmd.price, filled: (o.filled + m.filled) as i64, ..o },
                    )
                } else {
                    taken
                },
                events: m.events,
                code: CommandResultCode::Success,
                action: o.action,
            }
        }
    }
}

/// Among distinct ids every order is found under its id.
pub proof fn lemma_spot(q: Seq<Order>, k: int)
    requires
        ids_distinct(q),
        0 <= k < q.len(),
    ensures
        has_id(q, q[k].order_id),
        position_of(q, q[k].order_id) == k,
        spot_of(q, q[k].order_id) == (q[k].price, q[k].action),
{
    lemma_position_unique(q, k);
}

/// What a side holds after a match, by id: what it held, less the makers
/// that left, each at its price and side.
pub proof fn lemma_ids_after_match(side: OrderAction, makers: Seq<Order>, t: Taker, want: int)
    requires
        all_live(side, makers),
        ids_distinct(makers),
    ensures
        forall|id: OrderId|
            has_id(match_queue(makers, t, want).makers, id) <==> has_id(makers, id)
                && !match_queue(makers, t, want).gone.contains(id),
        forall|id: OrderId|
            match_queue(makers, t, want).gone.contains(id) ==> has_id(makers, id),
        forall|id: OrderId| #[trigger]
            has_id(match_queue(makers, t, want).makers, id) ==> spot_of(
                match_queue(makers, t, want).makers,
                id,
            ) == spot_of(makers, id),
{
    lemma_match_shape(makers, t, want);
    lemma_match_keeps(side, makers, t, want);
    let r = match_queue(makers, t, want);
    let k = match_skip(makers, t, want);
    let u = r.makers;
    assert forall|i: int| 0 <= i < u.len() implies (#[trigger] u[i]).order_id == makers[k
        + i].order_id && u[i].price == makers[k + i].price && u[i].action == makers[k
        + i].action by {
        if i > 0 {
            assert(u[i] == makers[k + i]);
        }
    }
    assert forall|id: OrderId| has_id(u, id) <==> has_id(makers, id) && !r.gone.contains(id) by {
        lemma_position(u, id);
        lemma_position(makers, id);
        if has_id(u, id) {
            let p = position_of(u, id);
            assert(makers[k + p].order_id == id);
            if r.gone.contains(id) {
                let g = choose|g: int| 0 <= g < r.gone.len() && r.gone[g] == id;
                assert(makers[g].order_id == id);
                assert(makers[g].order_id != makers[k + p].order_id);
            }
        }
        if has_id(makers, id) && !r.gone.contains(id) {
            let p = position_of(makers, id);
            if p < k {
                assert(r.gone[p] == makers[p].order_id);
            } else {
                assert(u[p - k].order_id == id);
            }
        }
    }
    assert forall|id: OrderId| r.gone.contains(id) implies has_id(makers, id) by {
        let g = choose|g: int| 0 <= g < r.gone.len() && r.gone[g] == id;
        assert(makers[g].order_id == id);
        lemma_position(makers, id);
    }
    assert forall|id: OrderId| #[trigger] has_id(u, id) implies spot_of(u, id) == spot_of(
        makers,
        id,
    ) by {
        lemma_position(u, id);
        let p = position_of(u, id);
        assert(makers[k + p].order_id == id);
        lemma_spot(makers, k + p);
    }
}

/// A match on one side keeps the book valid and takes the ids of the makers
/// that left out of its index.
pub proof fn lemma_book_after_match(book: BookModel, side: OrderAction, t: Taker, want: int)
    requires
        book.wf(),
    ensures
        book.with_side(side, match_queue(book.side(side), t, want).makers).wf(),
        book.with_side(side, match_queue(book.side(side), t, want).makers).locator()
            =~= book.locator().remove_keys(match_queue(book.side(side), t, want).gone.to_set()),
        book.with_side(side, match_queue(book.side(side), t, want).makers).total_volume()
            <= book.total_volume() - match_queue(book.side(side), t, want).filled,
        0 <= match_queue(book.side(side), t, want).filled,
        want >= 0 ==> match_queue(book.side(side), t, want).filled <= want,
{
    let makers = book.side(side);
    let r = match_queue(makers, t, want);
    let b2 = book.with_side(side, r.makers);
    book.lemma_volumes();
    lemma_match_keeps(side, makers, t, want);
    lemma_match_shape(makers, t, want);
    lemma_ids_after_match(side, makers, t, want);
    assert forall|id: OrderId| b2.knows(id) <==> book.knows(id) && !r.gone.contains(id) by {
        if r.gone.contains(id) {
            assert(has_id(makers, id));
        }
        assert(has_id(r.makers, id) <==> has_id(makers, id) && !r.gone.contains(id));
        assert(!(has_id(book.asks, id) && has_id(book.bids, id)));
        assert(!(has_id(book.asks, id) && has_id(book.stops, id)));
        assert(!(has_id(book.bids, id) && has_id(book.stops, id)));
        match side {
            OrderAction::Ask => {
                assert(b2.asks == r.makers && b2.bids == book.bids && b2.stops == book.stops);
            },
            OrderAction::Bid => {
                assert(b2.bids == r.makers && b2.asks == book.asks && b2.stops == book.stops);
            },
        }
    }
    assert forall|id: OrderId| b2.knows(id) implies (b2.order(id).price, b2.order(id).action) == (
        book.order(id).price,
        book.order(id).action,
    ) by {
        if has_id(r.makers, id) {
            assert(spot_of(r.makers, id) == spot_of(makers, id));
        }
    }
}

/// What is ahead of a newcomer in a side in priority order is exactly the
/// orders before its resting place.
pub proof fn lemma_rest_at(side: OrderAction, q: Seq<Order>, price: Price)
    requires
        in_priority(side, q),
    ensures
        0 <= rest_at(side, q, price) <= q.len(),
        forall|i: int| 0 <= i < rest_at(side, q, price) ==> ahead(side, (#[trigger] q[i]).price, price),
        forall|i: int|
            rest_at(side, q, price) <= i < q.len() ==> !ahead(side, (#[trigger] q[i]).price, price),
    decreases q.len(),
{
    if q.len() == 0 {
    } else if !ahead(side, q[0].price, price) {
        assert forall|i: int| 0 <= i < q.len() implies !ahead(side, (#[trigger] q[i]).price, price) by {
            if i > 0 {
                assert(ahead(side, q[0].price, q[i].price));
            }
        }
    } else {
        let r = q.drop_first();
        assert forall|i: int, j: int| 0 <= i < j < r.len() implies ahead(
            side,
            (#[trigger] r[i]).price,
            (#[trigger] r[j]).price,
        ) by {
            assert(r[i] == q[i + 1]);
            assert(r[j] == q[j + 1]);
        }
        lemma_rest_at(side, r, price);
        assert forall|i: int| 0 <= i < rest_at(side, q, price) implies ahead(
            side,
            (#[trigger] q[i]).price,
            price,
        ) by {
            if i > 0 {
                assert(q[i] == r[i - 1]);
            }
        }
        assert forall|i: int| rest_at(side, q, price) <= i < q.len() implies !ahead(
            side,
            (#[trigger] q[i]).price,
            price,
        ) by {
            assert(q[i] == r[i - 1]);
        }
    }
}

/// An order put anywhere into a side is found under its id, and the others
/// as before.
pub proof fn lemma_ids_after_insert(q: Seq<Order>, i: int, o: Order)
    requires
        ids_distinct(q),
        !has_id(q, o.order_id),
        0 <= i <= q.len(),
    ensures
        ids_distinct(q.insert(i, o)),
        forall|id: OrderId| has_id(q.insert(i, o), id) <==> has_id(q, id) || id == o.order_id,
        spot_of(q.insert(i, o), o.order_id) == (o.price, o.action),
        forall|id: OrderId| #[trigger]
            has_id(q, id) ==> spot_of(q.insert(i, o), id) == spot_of(q, id),
{
    let u = q.insert(i, o);
    lemma_insert_distinct(q, i, o);
    lemma_spot(u, i);
    assert forall|id: OrderId| has_id(u, id) <==> has_id(q, id) || id == o.order_id by {
        lemma_position(u, id);
        lemma_position(q, id);
        if has_id(u, id) && id != o.order_id {
            let p = position_of(u, id);
            let p0 = if p < i { p } else { p - 1 };
            assert(u[p] == q[p0]);
        }
        if has_id(q, id) {
            let p = position_of(q, id);
            let p1 = if p < i { p } else { p + 1 };
            assert(u[p1] == q[p]);
        }
    }
    assert forall|id: OrderId| #[trigger] has_id(q, id) implies spot_of(u, id) == spot_of(
        q,
        id,
    ) by {
        lemma_position(q, id);
        let p = position_of(q, id);
        let p1 = if p < i { p } else { p + 1 };
        assert(u[p1] == q[p]);
        lemma_spot(u, p1);
    }
}

/// Without the order at position `i` a side holds the others as before.
pub proof fn lemma_ids_after_remove(q: Seq<Order>, i: int)
    requires
        ids_distinct(q),
        0 <= i < q.len(),
    ensures
        ids_distinct(q.remove(i)),
        forall|id: OrderId| has_id(q.remove(i), id) <==> has_id(q, id) && id != q[i].order_id,
        forall|id: OrderId| #[trigger]
            has_id(q.remove(i), id) ==> spot_of(q.remove(i), id) == spot_of(q, id),
{
    let u = q.remove(i);
    lemma_remove_distinct(q, i);
    assert forall|id: OrderId| has_id(u, id) <==> has_id(q, id) && id != q[i].order_id by {
        lemma_position(u, id);
        lemma_position(q, id);
        if has_id(u, id) {
            let p = position_of(u, id);
            let p0 = if p < i { p } else { p + 1 };
            assert(u[p] == q[p0]);
        }
        if has_id(q, id) && id != q[i].order_id {
            let p = position_of(q, id);
            let p1 = if p < i { p } else { p - 1 };
            assert(u[p1] == q[p]);
        }
    }
    assert forall|id: OrderId| #[trigger] has_id(u, id) implies spot_of(u, id) == spot_of(q, id) by {
        lemma_position(u, id);
        let p = position_of(u, id);
        let p0 = if p < i { p } else { p + 1 };
        assert(u[p] == q[p0]);
        lemma_spot(q, p0);
    }
}

/// Resting a live order of a new id keeps the book valid and adds it to the
/// index.
pub proof fn lemma_book_after_rest(book: BookModel, o: Order)
    requires
        book.wf(),
        o.live(),
        !book.knows(o.order_id),
        book.total_volume() + o.left() <= i64::MAX,
    ensures
        with_resting(book, o).wf(),
        with_resting(book, o).total_volume() == book.total_volume() + o.left(),
        queue_volume(book.side(o.action)) + o.left() <= i64::MAX,
        with_resting(book, o).locator() =~= book.locator().insert(
            o.order_id,
            (o.price, o.action),
        ),
        0 <= rest_at(o.action, book.side(o.action), o.price) <= book.side(o.action).len(),
{
    let q = book.side(o.action);
    let pos = rest_at(o.action, q, o.price);
    let u = rested(o.action, q, o);
    let b2 = with_resting(book, o);
    book.lemma_volumes();
    lemma_rest_at(o.action, q, o.price);
    lemma_ids_after_insert(q, pos, o);
    lemma_sum_by_insert(q, pos, o, left_fn());
    assert forall|i: int| 0 <= i < u.len() implies (#[trigger] u[i]).live() && u[i].action
        == o.action by {
        if i < pos {
            assert(u[i] == q[i]);
        } else if i > pos {
            assert(u[i] == q[i - 1]);
        }
    }
    assert forall|i: int, j: int| 0 <= i < j < u.len() implies ahead(
        o.action,
        (#[trigger] u[i]).price,
        (#[trigger] u[j]).price,
    ) by {
        let i0 = if i < pos { i } else { i - 1 };
        let j0 = if j < pos { j } else { j - 1 };
        if i != pos {
            assert(u[i] == q[i0]);
        }
        if j != pos {
            assert(u[j] == q[j0]);
        }
        if i != pos && j != pos {
            assert(ahead(o.action, q[i0].price, q[j0].price));
        }
    }
    assert forall|id: OrderId| b2.knows(id) <==> book.knows(id) || id == o.order_id by {}
    assert forall|id: OrderId| book.knows(id) implies (b2.order(id).price, b2.order(id).action)
        == (book.order(id).price, book.order(id).action) by {
        if has_id(q, id) {
            assert(spot_of(u, id) == spot_of(q, id));
        }
    }
    assert(spot_of(u, o.order_id) == (o.price, o.action));
}

/// Taking out the order of a known id keeps the book valid and takes the id
/// out of the index.
pub proof fn lemma_book_without(book: BookModel, id: OrderId)
    requires
        book.wf(),
        book.knows(id),
    ensures
        book.without(id).wf(),
        !book.without(id).knows(id),
        book.without(id).locator() =~= book.locator().remove(id),
        book.without(id).total_volume() == book.total_volume() - book.order(id).left(),
        book.order(id).live(),
{
    let b2 = book.without(id);
    book.lemma_volumes();
    lemma_position(book.asks, id);
    lemma_position(book.bids, id);
    lemma_position(book.stops, id);
    if has_id(book.asks, id) {
        let p = position_of(book.asks, id);
        lemma_ids_after_remove(book.asks, p);
        lemma_sum_by_remove(book.asks, p, left_fn());
        lemma_side_after_remove(OrderAction::Ask, book.asks, p);
        assert(book.asks[p].live());
    } else if has_id(book.bids, id) {
        let p = position_of(book.bids, id);
        lemma_ids_after_remove(book.bids, p);
        lemma_sum_by_remove(book.bids, p, left_fn());
        lemma_side_after_remove(OrderAction::Bid, book.bids, p);
        assert(book.bids[p].live());
    } else {
        let p = position_of(book.stops, id);
        lemma_ids_after_remove(book.stops, p);
        lemma_sum_by_remove(book.stops, p, left_fn());
        assert(book.stops[p].live());
        assert forall|i: int| 0 <= i < b2.stops.len() implies (#[trigger] b2.stops[i]).live()
            && b2.stops[i].filled == 0 && b2.stops[i].order_type.is_stop() by {
            let i0 = if i < p { i } else { i + 1 };
            assert(b2.stops[i] == book.stops[i0]);
        }
    }
    assert forall|x: OrderId| b2.knows(x) <==> book.knows(x) && x != id by {}
    assert forall|x: OrderId| b2.knows(x) implies (b2.order(x).price, b2.order(x).action) == (
        book.order(x).price,
        book.order(x).action,
    ) by {
        if has_id(b2.asks, x) {
            assert(spot_of(b2.asks, x) == spot_of(book.asks, x));
        } else if has_id(b2.bids, x) {
            assert(spot_of(b2.bids, x) == spot_of(book.bids, x));
        } else {
            assert(spot_of(b2.stops, x) == spot_of(book.stops, x));
        }
    }
}

/// A side without one of its orders is still live and in priority order.
pub proof fn lemma_side_after_remove(side: OrderAction, q: Seq<Order>, p: int)
    requires
        all_live(side, q),
        in_priority(side, q),
        0 <= p < q.len(),
    ensures
        all_live(side, q.remove(p)),
        in_priority(side, q.remove(p)),
{
    let u = q.remove(p);
    assert forall|i: int| 0 <= i < u.len() implies (#[trigger] u[i]).live() && u[i].action
        == side by {
        let i0 = if i < p { i } else { i + 1 };
        assert(u[i] == q[i0]);
    }
    assert forall|i: int, j: int| 0 <= i < j < u.len() implies ahead(
        side,
        (#[trigger] u[i]).price,
        (#[trigger] u[j]).price,
    ) by {
        let i0 = if i < p { i } else { i + 1 };
        let j0 = if j < p { j } else { j + 1 };
        assert(u[i] == q[i0]);
        assert(u[j] == q[j0]);
        assert(ahead(side, q[i0].price, q[j0].price));
    }
}

/// Cutting the size of a resting order, with something left of it, keeps
/// the book valid and its index as it is.
pub proof fn lemma_book_after_cut(book: BookModel, id: OrderId, by: int)
    requires
        book.wf(),
        book.knows(id),
        !has_id(book.stops, id),
        0 <= by < book.order(id).left(),
    ensures
        ({
            let o = book.order(id);
            let b2 = book.with_side(
                o.action,
                book.side(o.action).update(position_of(book.side(o.action), id), cut(o, by)),
            );
            &&& b2.wf()
            &&& b2.locator() =~= book.locator()
            &&& has_id(book.side(o.action), id)
            &&& o == book.side(o.action)[position_of(book.side(o.action), id)]
            &&& cut(o, by).live()
        }),
{
    let o = book.order(id);
    lemma_position(book.asks, id);
    lemma_position(book.bids, id);
    let side = if has_id(book.asks, id) { OrderAction::Ask } else { OrderAction::Bid };
    let q = book.side(side);
    let p = position_of(q, id);
    assert(q[p].live() && q[p].action == side);
    let u = q.update(p, cut(o, by));
    let b2 = book.with_side(side, u);
    book.lemma_volumes();
    lemma_sum_by_update(q, p, cut(o, by), left_fn());
    assert forall|i: int| 0 <= i < u.len() implies (#[trigger] u[i]).live() && u[i].action
        == side && u[i].order_id == q[i].order_id && u[i].price == q[i].price by {
        if i != p {
            assert(u[i] == q[i]);
        }
    }
    assert forall|i: int, j: int| 0 <= i < j < u.len() implies ahead(
        side,
        (#[trigger] u[i]).price,
        (#[trigger] u[j]).price,
    ) by {
        assert(ahead(side, q[i].price, q[j].price));
    }
    assert forall|i: int, j: int| 0 <= i < j < u.len() implies (#[trigger] u[i]).order_id != (
    #[trigger] u[j]).order_id by {
        assert(q[i].order_id != q[j].order_id);
    }
    assert forall|x: OrderId| has_id(u, x) <==> has_id(q, x) by {
        lemma_position(u, x);
        lemma_position(q, x);
        if has_id(u, x) {
            assert(q[position_of(u, x)].order_id == x);
        }
        if has_id(q, x) {
            assert(u[position_of(q, x)].order_id == x);
        }
    }
    assert forall|x: OrderId| has_id(u, x) implies spot_of(u, x) == spot_of(q, x) by {
        lemma_position(u, x);
        let px = position_of(u, x);
        assert(q[px].order_id == x);
        lemma_spot(q, px);
    }
    assert forall|x: OrderId| b2.knows(x) <==> book.knows(x) by {}
    assert forall|x: OrderId| b2.knows(x) implies (b2.order(x).price, b2.order(x).action) == (
        book.order(x).price,
        book.order(x).action,
    ) by {
        if has_id(u, x) {
            assert(spot_of(u, x) == spot_of(q, x));
        }
    }
}

/// The part of book `m` that holds its first `i` asks, its first `j` bids
/// and its first `k` stop orders.
pub open spec fn partial(m: BookModel, i: int, j: int, k: int) -> BookModel {
    BookModel {
        asks: m.asks.subrange(0, i),
        bids: m.bids.subrange(0, j),
        stops: m.stops.subrange(0, k),
        last_trade_price: m.last_trade_price,
    }
}

/// An id that a leading part of a side holds, the side holds.
pub proof fn lemma_has_id_prefix(q: Seq<Order>, i: int, id: OrderId)
    requires
        0 <= i <= q.len(),
        has_id(q.subrange(0, i), id),
    ensures
        has_id(q, id),
        position_of(q, id) < i,
{
    lemma_position(q.subrange(0, i), id);
    lemma_position(q, id);
    let p = position_of(q.subrange(0, i), id);
    assert(q[p] == q.subrange(0, i)[p]);
    if position_of(q, id) >= i {
        assert(q[p].order_id != id);
    }
}

/// A leading part of a valid book is a valid book that holds no more; the
/// next order of each part is live and unknown to it, and putting it in
/// its place gives the next leading part.
pub proof fn lemma_partial(m: BookModel, i: int, j: int, k: int)
    requires
        m.wf(),
        0 <= i <= m.asks.len(),
        0 <= j <= m.bids.len(),
        0 <= k <= m.stops.len(),
    ensures
        partial(m, i, j, k).wf(),
        partial(m, i, j, k).total_volume() <= m.total_volume(),
        i < m.asks.len() ==> {
            let o = m.asks[i];
            &&& o.live() && o.action == OrderAction::Ask
            &&& !partial(m, i, j, k).knows(o.order_id)
            &&& partial(m, i, j, k).total_volume() + o.left() <= i64::MAX
            &&& with_resting(partial(m, i, j, k), o) == partial(m, i + 1, j, k)
        },
        j < m.bids.len() ==> {
            let o = m.bids[j];
            &&& o.live() && o.action == OrderAction::Bid
            &&& !partial(m, i, j, k).knows(o.order_id)
            &&& partial(m, i, j, k).total_volume() + o.left() <= i64::MAX
            &&& with_resting(partial(m, i, j, k), o) == partial(m, i, j + 1, k)
        },
        k < m.stops.len() ==> {
            let o = m.stops[k];
            &&& o.live() && o.filled == 0 && o.order_type.is_stop()
            &&& !partial(m, i, j, k).knows(o.order_id)
            &&& partial(m, i, j, k).total_volume() + o.left() <= i64::MAX
            &&& partial(m, i, j, k).stops.push(o) == partial(m, i, j, k + 1).stops
        },
{
    let p = partial(m, i, j, k);
    m.lemma_volumes();
    lemma_part(OrderAction::Ask, m.asks, i);
    lemma_part(OrderAction::Bid, m.bids, j);
    lemma_part_pool(m.stops, k);
    assert forall|n: int| 0 <= n < p.stops.len() implies (#[trigger] p.stops[n]).live()
        && p.stops[n].filled == 0 && p.stops[n].order_type.is_stop() by {
        assert(p.stops[n] == m.stops[n]);
    }
    assert forall|id: OrderId|
        !(has_id(p.asks, id) && has_id(p.bids, id)) && !(has_id(p.asks, id) && has_id(
            p.stops,
            id,
        )) && !(has_id(p.bids, id) && has_id(p.stops, id)) by {
        if has_id(p.asks, id) {
            lemma_has_id_prefix(m.asks, i, id);
        }
        if has_id(p.bids, id) {
            lemma_has_id_prefix(m.bids, j, id);
        }
        if has_id(p.stops, id) {
            lemma_has_id_prefix(m.stops, k, id);
        }
        assert(!(has_id(m.asks, id) && has_id(m.bids, id)));
        assert(!(has_id(m.asks, id) && has_id(m.stops, id)));
        assert(!(has_id(m.bids, id) && has_id(m.stops, id)));
    }
    if i < m.asks.len() {
        let o = m.asks[i];
        lemma_next_unknown(m, i, j, k, o.order_id);
        lemma_spot(m.asks, i);
        assert(p.asks.push(o) =~= m.asks.subrange(0, i + 1));
        lemma_rest_at_end(OrderAction::Ask, m.asks, i);
    }
    if j < m.bids.len() {
        let o = m.bids[j];
        lemma_next_unknown(m, i, j, k, o.order_id);
        lemma_spot(m.bids, j);
        assert(!(has_id(m.asks, o.order_id) && has_id(m.bids, o.order_id)));
        assert(p.bids.push(o) =~= m.bids.subrange(0, j + 1));
        lemma_rest_at_end(OrderAction::Bid, m.bids, j);
    }
    if k < m.stops.len() {
        let o = m.stops[k];
        lemma_next_unknown(m, i, j, k, o.order_id);
        lemma_spot(m.stops, k);
        assert(!(has_id(m.asks, o.order_id) && has_id(m.stops, o.order_id)));
        assert(!(has_id(m.bids, o.order_id) && has_id(m.stops, o.order_id)));
        assert(p.stops.push(o) =~= m.stops.subrange(0, k + 1));
    }
}

/// A leading part of a side is live, in priority order and of distinct ids
/// as the side is, and holds no more; with the next order it holds no more
/// either.
pub proof fn lemma_part(side: OrderAction, q: Seq<Order>, i: int)
    requires
        all_live(side, q),
        in_priority(side, q),
        ids_distinct(q),
        0 <= i <= q.len(),
    ensures
        all_live(side, q.subrange(0, i)),
        in_priority(side, q.subrange(0, i)),
        ids_distinct(q.subrange(0, i)),
        0 <= queue_volume(q.subrange(0, i)) <= queue_volume(q),
        i < q.len() ==> queue_volume(q.subrange(0, i)) + q[i].left() <= queue_volume(q),
{
    let a = q.subrange(0, i);
    let b = q.subrange(i, q.len() as int);
    assert(q =~= a + b);
    crate::orderbook::model::lemma_sum_by_concat(a, b, left_fn());
    assert forall|n: int| 0 <= n < a.len() implies (#[trigger] a[n]).live() && a[n].action
        == side by {
        assert(a[n] == q[n]);
    }
    assert forall|n: int| 0 <= n < b.len() implies (#[trigger] b[n]).live() by {
        assert(b[n] == q[n + i]);
    }
    lemma_visible_within_volume(a);
    lemma_visible_within_volume(b);
    assert forall|x: int, y: int| 0 <= x < y < a.len() implies ahead(
        side,
        (#[trigger] a[x]).price,
        (#[trigger] a[y]).price,
    ) && a[x].order_id != a[y].order_id by {
        assert(a[x] == q[x]);
        assert(a[y] == q[y]);
    }
    if i < q.len() {
        assert(b[0] == q[i]);
    }
}

/// A leading part of the stop pool is live and of distinct ids as the pool
/// is, and holds no more; with the next order it holds no more either.
pub proof fn lemma_part_pool(q: Seq<Order>, i: int)
    requires
        forall|n: int| 0 <= n < q.len() ==> (#[trigger] q[n]).live(),
        ids_distinct(q),
        0 <= i <= q.len(),
    ensures
        ids_distinct(q.subrange(0, i)),
        0 <= queue_volume(q.subrange(0, i)) <= queue_volume(q),
        i < q.len() ==> queue_volume(q.subrange(0, i)) + q[i].left() <= queue_volume(q),
{
    let a = q.subrange(0, i);
    let b = q.subrange(i, q.len() as int);
    assert(q =~= a + b);
    crate::orderbook::model::lemma_sum_by_concat(a, b, left_fn());
    assert forall|n: int| 0 <= n < a.len() implies (#[trigger] a[n]).live() by {
        assert(a[n] == q[n]);
    }
    assert forall|n: int| 0 <= n < b.len() implies (#[trigger] b[n]).live() by {
        assert(b[n] == q[n + i]);
    }
    lemma_visible_within_volume(a);
    lemma_visible_within_volume(b);
    assert forall|x: int, y: int| 0 <= x < y < a.len() implies (#[trigger] a[x]).order_id != (
    #[trigger] a[y]).order_id by {
        assert(a[x] == q[x]);
        assert(a[y] == q[y]);
    }
    if i < q.len() {
        assert(b[0] == q[i]);
    }
}

/// A leading part of live orders holds no more than all of them, and
/// nothing less than nothing.
pub proof fn lemma_part_pool_volume(q: Seq<Order>, i: int)
    requires
        forall|n: int| 0 <= n < q.len() ==> (#[trigger] q[n]).live(),
        0 <= i <= q.len(),
    ensures
        0 <= queue_volume(q.subrange(0, i)) <= queue_volume(q),
{
    let a = q.subrange(0, i);
    let b = q.subrange(i, q.len() as int);
    assert(q =~= a + b);
    crate::orderbook::model::lemma_sum_by_concat(a, b, left_fn());
    assert forall|n: int| 0 <= n < a.len() implies (#[trigger] a[n]).live() by {
        assert(a[n] == q[n]);
    }
    assert forall|n: int| 0 <= n < b.len() implies (#[trigger] b[n]).live() by {
        assert(b[n] == q[n + i]);
    }
    lemma_visible_within_volume(a);
    lemma_visible_within_volume(b);
}

/// The id of an order of a valid book that a leading part does not reach
/// is unknown to that part.
pub proof fn lemma_next_unknown(m: BookModel, i: int, j: int, k: int, id: OrderId)
    requires
        m.wf(),
        0 <= i <= m.asks.len(),
        0 <= j <= m.bids.len(),
        0 <= k <= m.stops.len(),
        (i < m.asks.len() && m.asks[i].order_id == id) || (j < m.bids.len() && m.bids[j].order_id
            == id) || (k < m.stops.len() && m.stops[k].order_id == id),
    ensures
        !partial(m, i, j, k).knows(id),
{
    let p = partial(m, i, j, k);
    assert(!(has_id(m.asks, id) && has_id(m.bids, id)));
    assert(!(has_id(m.asks, id) && has_id(m.stops, id)));
    assert(!(has_id(m.bids, id) && has_id(m.stops, id)));
    if has_id(p.asks, id) {
        lemma_has_id_prefix(m.asks, i, id);
    }
    if has_id(p.bids, id) {
        lemma_has_id_prefix(m.bids, j, id);
    }
    if has_id(p.stops, id) {
        lemma_has_id_prefix(m.stops, k, id);
    }
    if i < m.asks.len() && m.asks[i].order_id == id {
        lemma_spot(m.asks, i);
    } else if j < m.bids.len() && m.bids[j].order_id == id {
        lemma_spot(m.bids, j);
    } else {
        lemma_spot(m.stops, k);
    }
}

/// The order at position `i` of a side in priority order rests behind all
/// that stand before it.
pub proof fn lemma_rest_at_end(side: OrderAction, q: Seq<Order>, i: int)
    requires
        in_priority(side, q),
        0 <= i < q.len(),
    ensures
        rest_at(side, q.subrange(0, i), q[i].price) == i,
        rested(side, q.subrange(0, i), q[i]) == q.subrange(0, i + 1),
{
    let a = q.subrange(0, i);
    assert forall|n: int| 0 <= n < a.len() implies ahead(side, (#[trigger] a[n]).price, q[i].price) by {
        assert(a[n] == q[n]);
    }
    crate::orderbook::model::lemma_rest_at_prefix(side, a, Seq::<Order>::empty(), q[i].price);
    assert(a + Seq::<Order>::empty() =~= a);
    assert(a.insert(i, q[i]) =~= q.subrange(0, i + 1));
}

} // verus!
