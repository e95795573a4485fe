use crate::api::commands::OrderCommand;
use crate::api::events::MatcherTradeEvent;
use crate::api::market_data::L2MarketData;
use crate::api::types::{
    CommandResultCode, CoreSymbolSpecification, OrderAction, OrderId, OrderType, Price, Size,
    SymbolType,
};
use crate::orderbook::index::{spots, spots_forget, spots_get, spots_insert, spots_new, spots_remove};
use crate::orderbook::ladder::PriceLadder;
use crate::orderbook::model::{
    available, budget_met, cost_to_fill, has_id, ids_distinct, ids_of, left_fn, lemma_position,
    lemma_sum_by_concat, lemma_sum_by_one, lemma_sum_by_push, lemma_visible_within_volume,
    match_queue, position_of, price_levels, queue_volume, Order, Taker,
};
use crate::orderbook::naive::{applied, best_of, depth_of};
use crate::orderbook::book::{BookKind, BookSnapshot};
use crate::orderbook::rules::{
    held_price, lemma_partial, partial,
    cancelled, cut, entry_of, lemma_book_after_cut, lemma_book_after_match,
    lemma_book_after_rest, lemma_book_without, lemma_ids_after_insert, lemma_spot, moved, mover,
    reduced, refused, rejected, resting_order, spot_of, turned_away, with_resting, BookModel,
    Outcome,
};
use vstd::prelude::*;

verus! {

/// The order would trade at once: its price reaches the best price of the
/// opposite side.
pub open spec fn crosses(book: BookModel, cmd: Order) -> bool {
    match cmd.action {
        OrderAction::Bid => book.asks.len() > 0 && cmd.price >= book.asks[0].price,
        OrderAction::Ask => book.bids.len() > 0 && cmd.price <= book.bids[0].price,
    }
}

/// A stop order triggers at trade price `last`: a bid stop once the price
/// has risen to its stop price, an ask stop once it has fallen to it.
pub open spec fn fires(o: Order, last: Price) -> bool {
    match o.stop_price {
        Some(stop) => match o.action {
            OrderAction::Bid => last >= stop,
            OrderAction::Ask => last <= stop,
        },
        None => false,
    }
}

/// The stop orders of the pool that trigger at `last`, in pool order.
pub open spec fn fired(stops: Seq<Order>, last: Price) -> Seq<Order>
    decreases stops.len(),
{
    if stops.len() == 0 {
        Seq::empty()
    } else if fires(stops.last(), last) {
        fired(stops.drop_last(), last).push(stops.last())
    } else {
        fired(stops.drop_last(), last)
    }
}

/// The stop orders of the pool that do not trigger at `last`, in pool order.
pub open spec fn waiting(stops: Seq<Order>, last: Price) -> Seq<Order>
    decreases stops.len(),
{
    if stops.len() == 0 {
        Seq::empty()
    } else if fires(stops.last(), last) {
        waiting(stops.drop_last(), last)
    } else {
        waiting(stops.drop_last(), last).push(stops.last())
    }
}

/// The order as which a triggered stop order enters the book: a
/// good-till-cancel order of the same side, price and size.
pub open spec fn activation(o: Order) -> Order {
    Order {
        order_type: OrderType::Gtc,
        stop_price: None,
        visible_size: None,
        expire_time: None,
        ..o
    }
}

/// The taker that an order is in this book: only fill-or-kill with a budget
/// takes any price.
pub open spec fn adv_taker(c: Order) -> Taker {
    Taker {
        action: c.action,
        limit: if c.order_type == OrderType::FokBudget {
            None
        } else {
            Some(c.price)
        },
        reserve_price: c.reserve_price,
        now: c.timestamp,
    }
}

/// The opposite side can fill the order whole at a cost within its budget.
pub open spec fn budget_ok(makers: Seq<Order>, c: Order) -> bool {
    match cost_to_fill(makers, c.timestamp, c.size as int) {
        Some(cost) => budget_met(c.action, cost, c.price as int),
        None => false,
    }
}

/// The book after a trade at `last`, before the triggered stop orders
/// enter: they have left the pool.
pub open spec fn scanned(book: BookModel, last: Price) -> BookModel {
    BookModel { stops: waiting(book.stops, last), last_trade_price: Some(last), ..book }
}

/// An order enters the book. A fill-or-kill order that cannot fill whole is
/// turned away. Otherwise the order matches; if it traded, the price of its
/// last trade triggers stop orders, which enter in turn; then what it did
/// not trade is rejected, if its type never rests or the book knows its id,
/// or rests.
pub open spec fn adv_enter(book: BookModel, c: Order) -> Outcome
    decreases book.stops.len(), 1int,
{
    let makers = book.side(c.action.flip());
    if c.order_type == OrderType::Fok && available(makers, adv_taker(c)) < c.size {
        turned_away(book, c)
    } else if c.order_type == OrderType::FokBudget && !budget_ok(makers, c) {
        turned_away(book, c)
    } else {
        let m = match_queue(makers, adv_taker(c), c.size as int);
        let b1 = book.with_side(c.action.flip(), m.makers);
        let b2 = if m.filled > 0 && m.events.len() > 0 {
            let last = m.events.last().price;
            if waiting(b1.stops, last).len() + fired(b1.stops, last).len() == b1.stops.len() {
                adv_cascade(scanned(b1, last), fired(b1.stops, last))
            } else {
                b1
            }
        } else {
            b1
        };
        if book.knows(c.order_id) || c.order_type.never_rests() {
            Outcome {
                book: b2,
                events: m.events + rejected(c, m.filled),
                code: CommandResultCode::Success,
                action: c.action,
            }
        } else {
            Outcome {
                book: if m.filled < c.size {
                    with_resting(b2, resting_order(c, m.filled, true))
                } else {
                    b2
                },
                events: m.events,
                code: CommandResultCode::Success,
                action: c.action,
            }
        }
    }
}

/// The triggered stop orders `pending`, in pool order, enter the book one
/// after the other, the one that came to the pool last first. Their events
/// belong to no command.
pub open spec fn adv_cascade(book: BookModel, pending: Seq<Order>) -> BookModel
    decreases book.stops.len() + pending.len(), 0int,
{
    if pending.len() == 0 {
        book
    } else {
        let next = adv_enter(book, activation(pending.last())).book;
        if next.stops.len() > book.stops.len() {
            next
        } else {
            adv_cascade(next, pending.drop_last())
        }
    }
}

/// What the book of all order types does with a new order. A post-only
/// order that would trade at once is turned away. A stop order of a new id
/// waits in the stop pool. Every other order enters.
pub open spec fn adv_placed(book: BookModel, c: Order) -> Outcome {
    if c.order_type == OrderType::PostOnly && crosses(book, c) {
        turned_away(book, c)
    } else if c.order_type.is_stop() && !book.knows(c.order_id) {
        if c.size > 0 {
            Outcome {
                book: BookModel { stops: book.stops.push(c), ..book },
                events: Seq::empty(),
                code: CommandResultCode::Success,
                action: c.action,
            }
        } else {
            refused(book, c, CommandResultCode::Success)
        }
    } else {
        adv_enter(book, c)
    }
}

/// A scan leaves every stop order either waiting or triggered; both parts
/// keep distinct ids, and together they hold what the pool held.
pub proof fn lemma_partition(stops: Seq<Order>, last: Price)
    requires
        ids_distinct(stops),
    ensures
        waiting(stops, last).len() + fired(stops, last).len() == stops.len(),
        queue_volume(waiting(stops, last)) + queue_volume(fired(stops, last)) == queue_volume(
            stops,
        ),
        ids_distinct(waiting(stops, last)),
        ids_distinct(fired(stops, last)),
        forall|id: OrderId|
            has_id(stops, id) <==> has_id(waiting(stops, last), id) || has_id(
                fired(stops, last),
                id,
            ),
        forall|id: OrderId|
            !(has_id(waiting(stops, last), id) && has_id(fired(stops, last), id)),
        forall|id: OrderId| #[trigger]
            has_id(waiting(stops, last), id) ==> waiting(stops, last)[position_of(
                waiting(stops, last),
                id,
            )] == stops[position_of(stops, id)],
        forall|k: int|
            0 <= k < fired(stops, last).len() ==> has_id(
                stops,
                (#[trigger] fired(stops, last)[k]).order_id,
            ) && fired(stops, last)[k] == stops[position_of(
                stops,
                fired(stops, last)[k].order_id,
            )],
    decreases stops.len(),
{
    let w = waiting(stops, last);
    let f = fired(stops, last);
    if stops.len() == 0 {
        assert forall|id: OrderId| !has_id(stops, id) by {}
    } else {
        let rest = stops.drop_last();
        let o = stops.last();
        let w0 = waiting(rest, last);
        let f0 = fired(rest, last);
        assert forall|i: int, j: int| 0 <= i < j < rest.len() implies (#[trigger] rest[i]).order_id
            != (#[trigger] rest[j]).order_id by {
            assert(rest[i] == stops[i]);
            assert(rest[j] == stops[j]);
        }
        lemma_partition(rest, last);
        assert(stops =~= rest.push(o));
        assert(rest.push(o) =~= rest.insert(rest.len() as int, o));
        assert(!has_id(rest, o.order_id)) by {
            lemma_position(rest, o.order_id);
            if has_id(rest, o.order_id) {
                let p = position_of(rest, o.order_id);
                assert(stops[p] == rest[p]);
                assert(stops[p].order_id != stops[stops.len() - 1].order_id);
            }
        }
        lemma_ids_after_insert(rest, rest.len() as int, o);
        lemma_sum_by_push(rest, o, left_fn());
        lemma_stops_spots(rest, o);
        assert(!has_id(w0, o.order_id) && !has_id(f0, o.order_id)) by {
            assert(has_id(rest, o.order_id) <==> has_id(w0, o.order_id) || has_id(
                f0,
                o.order_id,
            ));
        }
        if fires(o, last) {
            assert(f =~= f0.push(o));
            assert(w == w0);
            assert(f0.push(o) =~= f0.insert(f0.len() as int, o));
            lemma_ids_after_insert(f0, f0.len() as int, o);
            lemma_sum_by_push(f0, o, left_fn());
            lemma_stops_spots(f0, o);
        } else {
            assert(w =~= w0.push(o));
            assert(f == f0);
            assert(w0.push(o) =~= w0.insert(w0.len() as int, o));
            lemma_ids_after_insert(w0, w0.len() as int, o);
            lemma_sum_by_push(w0, o, left_fn());
            lemma_stops_spots(w0, o);
        }
        assert forall|id: OrderId| has_id(stops, id) <==> has_id(w, id) || has_id(f, id) by {
            assert(has_id(stops, id) <==> has_id(rest, id) || id == o.order_id);
            assert(has_id(rest, id) <==> has_id(w0, id) || has_id(f0, id));
            if fires(o, last) {
                assert(has_id(f, id) <==> has_id(f0, id) || id == o.order_id);
            } else {
                assert(has_id(w, id) <==> has_id(w0, id) || id == o.order_id);
            }
        }
        assert forall|id: OrderId| !(has_id(w, id) && has_id(f, id)) by {
            assert(!(has_id(w0, id) && has_id(f0, id)));
            if fires(o, last) {
                assert(has_id(f, id) <==> has_id(f0, id) || id == o.order_id);
            } else {
                assert(has_id(w, id) <==> has_id(w0, id) || id == o.order_id);
            }
        }
        assert forall|id: OrderId| #[trigger] has_id(w, id) implies w[position_of(w, id)]
            == stops[position_of(stops, id)] by {
            if fires(o, last) {
                assert(has_id(w0, id));
                assert(has_id(rest, id) <==> has_id(w0, id) || has_id(f0, id));
                assert(has_id(rest, id));
                assert(w0[position_of(w0, id)] == rest[position_of(rest, id)]);
            } else {
                assert(has_id(w, id) <==> has_id(w0, id) || id == o.order_id);
                if id != o.order_id {
                    assert(has_id(w0, id));
                    assert(has_id(rest, id) <==> has_id(w0, id) || has_id(f0, id));
                    assert(has_id(rest, id));
                    assert(w0[position_of(w0, id)] == rest[position_of(rest, id)]);
                }
            }
        }
        assert forall|k: int| 0 <= k < f.len() implies has_id(stops, (#[trigger] f[k]).order_id)
            && f[k] == stops[position_of(stops, f[k].order_id)] by {
            if k < f0.len() {
                assert(f[k] == f0[k]);
                assert(has_id(rest, f0[k].order_id));
            }
        }
    }
}

/// An order that enters a valid book with room for it leaves a valid book
/// whose stop pool has not grown, which holds no more than before and the
/// order's size, and which knows no id that the book did not know, but for
/// the order's own id where the order may rest.
pub proof fn lemma_enter(book: BookModel, c: Order)
    requires
        book.wf(),
        book.has_room(c, true),
    ensures
        ({
            let out = adv_enter(book, c);
            &&& out.book.wf()
            &&& out.book.stops.len() <= book.stops.len()
            &&& out.book.total_volume() <= book.total_volume() + (if c.size > 0 {
                c.size as int
            } else {
                0
            })
            &&& forall|id: OrderId|
                out.book.knows(id) ==> book.knows(id) || (id == c.order_id
                    && !c.order_type.never_rests())
        }),
    decreases book.stops.len(), 1int,
{
    let out = adv_enter(book, c);
    let makers = book.side(c.action.flip());
    let t = adv_taker(c);
    if c.order_type == OrderType::Fok && available(makers, t) < c.size {
    } else if c.order_type == OrderType::FokBudget && !budget_ok(makers, c) {
    } else {
        let m = match_queue(makers, t, c.size as int);
        let b1 = book.with_side(c.action.flip(), m.makers);
        lemma_book_after_match(book, c.action.flip(), t, c.size as int);
        assert forall|id: OrderId| b1.knows(id) implies book.knows(id) by {
            assert(b1.locator().contains_key(id));
            assert(book.locator().contains_key(id));
        }
        let b2 = if m.filled > 0 && m.events.len() > 0 {
            let last = m.events.last().price;
            if waiting(b1.stops, last).len() + fired(b1.stops, last).len() == b1.stops.len() {
                adv_cascade(scanned(b1, last), fired(b1.stops, last))
            } else {
                b1
            }
        } else {
            b1
        };
        if m.filled > 0 && m.events.len() > 0 {
            let last = m.events.last().price;
            lemma_scan(b1, last);
            let known = Set::new(|id: OrderId| b1.knows(id));
            lemma_cascade(scanned(b1, last), fired(b1.stops, last), known);
        }
        assert forall|id: OrderId| b2.knows(id) implies book.knows(id) by {
            assert(b1.knows(id));
        }
        if book.knows(c.order_id) || c.order_type.never_rests() {
        } else if m.filled < c.size {
            let o = resting_order(c, m.filled, true);
            lemma_book_after_rest(b2, o);
            assert forall|id: OrderId| with_resting(b2, o).knows(id) implies book.knows(id) || id
                == c.order_id by {
                assert(with_resting(b2, o).locator().contains_key(id));
                if id != c.order_id {
                    assert(b2.locator().contains_key(id));
                    assert(b2.knows(id));
                }
            }
        }
    }
}

/// Triggered stop orders that enter a valid book one after the other leave
/// a valid book whose stop pool has not grown, which holds no more than the
/// book and the orders held, and which knows no id beyond `known`, the ids
/// of the book and of the orders.
pub proof fn lemma_cascade(book: BookModel, pending: Seq<Order>, known: Set<OrderId>)
    requires
        book.wf(),
        ids_distinct(pending),
        forall|k: int|
            0 <= k < pending.len() ==> (#[trigger] pending[k]).live() && pending[k].filled == 0
                && !book.knows(pending[k].order_id) && known.contains(pending[k].order_id),
        forall|id: OrderId| book.knows(id) ==> known.contains(id),
        book.total_volume() + queue_volume(pending) <= i64::MAX,
    ensures
        ({
            let out = adv_cascade(book, pending);
            &&& out.wf()
            &&& out.stops.len() <= book.stops.len()
            &&& out.total_volume() <= book.total_volume() + queue_volume(pending)
            &&& forall|id: OrderId| out.knows(id) ==> known.contains(id)
        }),
    decreases book.stops.len() + pending.len(), 0int,
{
    if pending.len() > 0 {
        let o = pending.last();
        let rest = pending.drop_last();
        let a = activation(o);
        assert(pending =~= rest + seq![o]);
        lemma_sum_by_concat(rest, seq![o], left_fn());
        lemma_sum_by_one(o, left_fn());
        assert forall|k: int| 0 <= k < rest.len() implies (#[trigger] rest[k]).live() by {
            assert(rest[k] == pending[k]);
        }
        lemma_visible_within_volume(rest);
        assert(o.live());
        lemma_enter(book, a);
        let next = adv_enter(book, a).book;
        assert forall|k: int| 0 <= k < rest.len() implies (#[trigger] rest[k]).live() && rest[k].filled
            == 0 && !next.knows(rest[k].order_id) && known.contains(rest[k].order_id) by {
            assert(rest[k] == pending[k]);
            assert(pending[k].order_id != pending[pending.len() - 1].order_id);
        }
        assert forall|i: int, j: int| 0 <= i < j < rest.len() implies (#[trigger] rest[i]).order_id
            != (#[trigger] rest[j]).order_id by {
            assert(rest[i] == pending[i]);
            assert(rest[j] == pending[j]);
        }
        lemma_cascade(next, rest, known);
    }
}

/// Appending an order of a new id leaves every other order where its id
/// finds it, and the new one is found under its id.
pub proof fn lemma_stops_spots(q: Seq<Order>, o: Order)
    requires
        ids_distinct(q),
        !has_id(q, o.order_id),
    ensures
        forall|id: OrderId| #[trigger]
            has_id(q, id) ==> q.push(o)[position_of(q.push(o), id)] == q[position_of(q, id)],
        q.push(o)[position_of(q.push(o), o.order_id)] == o,
        has_id(q.push(o), o.order_id),
{
    let u = q.push(o);
    assert(u =~= q.insert(q.len() as int, o));
    lemma_ids_after_insert(q, q.len() as int, o);
    assert forall|id: OrderId| #[trigger] has_id(q, id) implies u[position_of(u, id)]
        == q[position_of(q, id)] by {
        lemma_position(q, id);
        let p = position_of(q, id);
        assert(u[p] == q[p]);
        crate::orderbook::model::lemma_position_unique(u, p);
    }
    crate::orderbook::model::lemma_position_unique(u, q.len() as int);
}

/// A scan keeps the book valid: the triggered stop orders leave the pool and
/// the index, and nothing else changes.
pub proof fn lemma_scan(book: BookModel, last: Price)
    requires
        book.wf(),
    ensures
        scanned(book, last).wf(),
        scanned(book, last).locator() =~= book.locator().remove_keys(
            ids_of(fired(book.stops, last)).to_set(),
        ),
        scanned(book, last).total_volume() + queue_volume(fired(book.stops, last))
            == book.total_volume(),
        waiting(book.stops, last).len() + fired(book.stops, last).len() == book.stops.len(),
        ids_distinct(fired(book.stops, last)),
        forall|k: int|
            0 <= k < fired(book.stops, last).len() ==> {
                let o = #[trigger] fired(book.stops, last)[k];
                &&& o.live()
                &&& o.filled == 0
                &&& book.knows(o.order_id)
                &&& !scanned(book, last).knows(o.order_id)
            },
        forall|id: OrderId| scanned(book, last).knows(id) ==> book.knows(id),
{
    let w = waiting(book.stops, last);
    let f = fired(book.stops, last);
    let b2 = scanned(book, last);
    lemma_partition(book.stops, last);
    book.lemma_volumes();
    assert forall|k: int| 0 <= k < f.len() implies (#[trigger] f[k]).live() by {
        lemma_position(book.stops, f[k].order_id);
        assert(f[k] == book.stops[position_of(book.stops, f[k].order_id)]);
    }
    lemma_visible_within_volume(f);
    assert forall|i: int| 0 <= i < w.len() implies (#[trigger] w[i]).live() && w[i].filled == 0
        && w[i].order_type.is_stop() by {
        lemma_spot(w, i);
        assert(has_id(w, w[i].order_id));
        let p = position_of(book.stops, w[i].order_id);
        lemma_position(book.stops, w[i].order_id);
        assert(w[i] == book.stops[p]);
    }
    assert forall|id: OrderId| ids_of(f).to_set().contains(id) <==> has_id(f, id) by {
        lemma_position(f, id);
        if ids_of(f).contains(id) {
            let k = choose|k: int| 0 <= k < ids_of(f).len() && ids_of(f)[k] == id;
            assert(f[k].order_id == id);
        }
        if has_id(f, id) {
            assert(ids_of(f)[position_of(f, id)] == id);
        }
    }
    assert forall|id: OrderId| b2.knows(id) <==> book.knows(id) && !has_id(f, id) by {
        assert(has_id(book.stops, id) <==> has_id(w, id) || has_id(f, id));
        assert(!(has_id(w, id) && has_id(f, id)));
        assert(!(has_id(book.asks, id) && has_id(book.stops, id)));
        assert(!(has_id(book.bids, id) && has_id(book.stops, id)));
    }
    assert forall|id: OrderId| b2.knows(id) implies (b2.order(id).price, b2.order(id).action) == (
        book.order(id).price,
        book.order(id).action,
    ) by {
        assert(has_id(book.stops, id) <==> has_id(w, id) || has_id(f, id));
        if has_id(w, id) {
            assert(w[position_of(w, id)] == book.stops[position_of(book.stops, id)]);
        }
    }
    assert forall|id: OrderId|
        !(has_id(b2.asks, id) && has_id(b2.bids, id)) && !(has_id(b2.asks, id) && has_id(
            b2.stops,
            id,
        )) && !(has_id(b2.bids, id) && has_id(b2.stops, id)) by {
        assert(has_id(book.stops, id) <==> has_id(w, id) || has_id(f, id));
        assert(!(has_id(book.asks, id) && has_id(book.bids, id)));
        assert(!(has_id(book.asks, id) && has_id(book.stops, id)));
        assert(!(has_id(book.bids, id) && has_id(book.stops, id)));
    }
    assert forall|k: int| 0 <= k < f.len() implies {
        let o = #[trigger] f[k];
        &&& o.live()
        &&& o.filled == 0
        &&& book.knows(o.order_id)
        &&& !b2.knows(o.order_id)
    } by {
        let o = f[k];
        lemma_position(book.stops, o.order_id);
        assert(o == book.stops[position_of(book.stops, o.order_id)]);
        lemma_spot(f, k);
        assert(has_id(f, o.order_id));
    }
}

/// A live stop order of a new id can join the pool.
pub proof fn lemma_pooled(book: BookModel, c: Order)
    requires
        book.wf(),
        book.has_room(c, true),
        c.size > 0,
        c.filled == 0,
        c.order_type.is_stop(),
        !book.knows(c.order_id),
    ensures
        (BookModel { stops: book.stops.push(c), ..book }).wf(),
        (BookModel { stops: book.stops.push(c), ..book }).locator() =~= book.locator().insert(
            c.order_id,
            (c.price, c.action),
        ),
{
    let b2 = BookModel { stops: book.stops.push(c), ..book };
    lemma_position(book.stops, c.order_id);
    lemma_stops_spots(book.stops, c);
    assert(book.stops.push(c) =~= book.stops.insert(book.stops.len() as int, c));
    lemma_ids_after_insert(book.stops, book.stops.len() as int, c);
    lemma_sum_by_push(book.stops, c, left_fn());
    assert forall|i: int| 0 <= i < b2.stops.len() implies (#[trigger] b2.stops[i]).live()
        && b2.stops[i].filled == 0 && b2.stops[i].order_type.is_stop() by {
        if i < book.stops.len() {
            assert(b2.stops[i] == book.stops[i]);
        }
    }
    assert forall|id: OrderId| b2.knows(id) <==> book.knows(id) || id == c.order_id by {}
    assert forall|id: OrderId| book.knows(id) implies (b2.order(id).price, b2.order(id).action)
        == (book.order(id).price, book.order(id).action) by {
        if has_id(book.stops, id) {
            assert(b2.stops[position_of(b2.stops, id)] == book.stops[position_of(
                book.stops,
                id,
            )]);
        }
    }
}

/// The book of all order types: ladders and index as in the plain book, a
/// pool of stop orders that have not triggered, and the last trade price.
pub struct AdvancedOrderBook {
    pub symbol_spec: CoreSymbolSpecification,
    pub ask_buckets: PriceLadder,
    pub bid_buckets: PriceLadder,
    pub order_map: ahash::AHashMap<OrderId, (Price, OrderAction)>,
    pub stop_orders: Vec<Order>,
    pub last_trade_price: Option<Price>,
    pub best_ask_price: Option<Price>,
    pub best_bid_price: Option<Price>,
}

impl View for AdvancedOrderBook {
    type V = BookModel;

    open spec fn view(&self) -> BookModel {
        BookModel {
            asks: self.ask_buckets@,
            bids: self.bid_buckets@,
            stops: self.stop_orders@,
            last_trade_price: self.last_trade_price,
        }
    }
}

impl AdvancedOrderBook {
    /// The ladders are valid, the index holds exactly the resting and the
    /// pooled orders, and the cached best prices are those of the first
    /// orders.
    pub open spec fn wf(&self) -> bool {
        &&& self.ladders_wf()
        &&& self@.wf()
        &&& spots(self.order_map) == self@.locator()
        &&& self.best_ask_price == best_of(self.ask_buckets@)
        &&& self.best_bid_price == best_of(self.bid_buckets@)
    }

    pub open spec fn ladders_wf(&self) -> bool {
        &&& self.ask_buckets.wf()
        &&& self.bid_buckets.wf()
        &&& self.ask_buckets.side == OrderAction::Ask
        &&& self.bid_buckets.side == OrderAction::Bid
    }

    pub fn new(spec: CoreSymbolSpecification) -> (book: Self)
        ensures
            book.wf(),
            book@ == BookModel::empty(),
            book.symbol_spec == spec,
    {
        let book = AdvancedOrderBook {
            symbol_spec: spec,
            ask_buckets: PriceLadder::new(OrderAction::Ask),
            bid_buckets: PriceLadder::new(OrderAction::Bid),
            order_map: spots_new(),
            stop_orders: Vec::new(),
            last_trade_price: None,
            best_ask_price: None,
            best_bid_price: None,
        };
        proof {
            assert(book.ask_buckets@ =~= Seq::<Order>::empty());
            assert(book.bid_buckets@ =~= Seq::<Order>::empty());
            assert(book.stop_orders@ =~= Seq::<Order>::empty());
            assert(book@.locator() =~= spots(book.order_map));
        }
        book
    }

    /// Writes the book out.
    pub fn export(&self) -> (snap: BookSnapshot)
        requires
            self.wf(),
        ensures
            snap.wf(),
            snap@ == self@,
            snap.kind == BookKind::Advanced,
            snap.symbol_spec == self.symbol_spec,
    {
        let n: usize = self.stop_orders.len();
        let mut stops: Vec<Order> = Vec::new();
        let mut k: usize = 0;
        while k < n
            invariant
                k <= n,
                n == self.stop_orders@.len(),
                stops@ == self.stop_orders@.subrange(0, k as int),
            decreases n - k,
        {
            stops.push(self.stop_orders[k]);
            proof {
                assert(self.stop_orders@.subrange(0, k + 1) =~= self.stop_orders@.subrange(
                    0,
                    k as int,
                ).push(self.stop_orders@[k as int]));
            }
            k = k + 1;
        }
        proof {
            assert(self.stop_orders@.subrange(0, n as int) =~= self.stop_orders@);
        }
        BookSnapshot {
            kind: BookKind::Advanced,
            symbol_spec: self.symbol_spec,
            asks: self.ask_buckets.export(),
            bids: self.bid_buckets.export(),
            stops,
            last_trade_price: self.last_trade_price,
        }
    }

    /// The book that a snapshot was written from.
    pub fn restore(snap: &BookSnapshot) -> (book: Self)
        requires
            snap@.wf(),
        ensures
            book.wf(),
            book@ == snap@,
            book.symbol_spec == snap.symbol_spec,
    {
        let mut book = Self::new(snap.symbol_spec);
        book.last_trade_price = snap.last_trade_price;
        let ns: usize = snap.stops.len();
        let na: usize = snap.asks.len();
        let nb: usize = snap.bids.len();
        let mut k: usize = 0;
        proof {
            assert(snap.asks@.subrange(0, 0) =~= Seq::<Order>::empty());
            assert(snap.bids@.subrange(0, 0) =~= Seq::<Order>::empty());
            assert(snap.stops@.subrange(0, 0) =~= Seq::<Order>::empty());
            assert(book@.asks =~= Seq::<Order>::empty());
            assert(book@.bids =~= Seq::<Order>::empty());
            assert(book@.stops =~= Seq::<Order>::empty());
            assert(book@ == partial(snap@, 0, 0, 0));
            assert(book@.locator() =~= BookModel::empty().locator());
        }
        while k < ns
            invariant
                k <= ns,
                ns == snap.stops@.len(),
                snap@.wf(),
                book.wf(),
                book.symbol_spec == snap.symbol_spec,
                book@ == partial(snap@, 0, 0, k as int),
            decreases ns - k,
        {
            let o: Order = snap.stops[k];
            proof {
                lemma_partial(snap@, 0, 0, k as int);
                lemma_pooled(book@, o);
            }
            book.stop_orders.push(o);
            spots_insert(&mut book.order_map, o.order_id, (o.price, o.action));
            k = k + 1;
        }
        let mut i: usize = 0;
        while i < na
            invariant
                i <= na,
                na == snap.asks@.len(),
                ns == snap.stops@.len(),
                snap@.wf(),
                book.wf(),
                book.symbol_spec == snap.symbol_spec,
                book@ == partial(snap@, i as int, 0, ns as int),
            decreases na - i,
        {
            proof {
                lemma_partial(snap@, i as int, 0, ns as int);
            }
            book.rest(snap.asks[i]);
            i = i + 1;
        }
        let mut j: usize = 0;
        while j < nb
            invariant
                j <= nb,
                na == snap.asks@.len(),
                nb == snap.bids@.len(),
                ns == snap.stops@.len(),
                snap@.wf(),
                book.wf(),
                book.symbol_spec == snap.symbol_spec,
                book@ == partial(snap@, na as int, j as int, ns as int),
            decreases nb - j,
        {
            proof {
                lemma_partial(snap@, na as int, j as int, ns as int);
            }
            book.rest(snap.bids[j]);
            j = j + 1;
        }
        proof {
            assert(partial(snap@, na as int, nb as int, ns as int) =~= snap@) by {
                assert(snap.asks@.subrange(0, na as int) =~= snap.asks@);
                assert(snap.bids@.subrange(0, nb as int) =~= snap.bids@);
                assert(snap.stops@.subrange(0, ns as int) =~= snap.stops@);
            }
        }
        book
    }

    /// Reads the best prices off the ladders.
    pub fn update_best_prices(&mut self)
        requires
            old(self).ladders_wf(),
        ensures
            final(self).best_ask_price == best_of(old(self).ask_buckets@),
            final(self).best_bid_price == best_of(old(self).bid_buckets@),
            final(self).ask_buckets == old(self).ask_buckets,
            final(self).bid_buckets == old(self).bid_buckets,
            final(self).order_map == old(self).order_map,
            final(self).stop_orders == old(self).stop_orders,
            final(self).last_trade_price == old(self).last_trade_price,
            final(self).symbol_spec == old(self).symbol_spec,
    {
        self.best_ask_price = self.ask_buckets.best_price();
        self.best_bid_price = self.bid_buckets.best_price();
    }

    /// The command would trade at once.
    pub fn would_match(&self, cmd: &OrderCommand) -> (r: bool)
        requires
            self.wf(),
        ensures
            r == crosses(self@, entry_of(*cmd)),
    {
        match cmd.action {
            OrderAction::Bid => match self.best_ask_price {
                Some(best) => cmd.price >= best,
                None => false,
            },
            OrderAction::Ask => match self.best_bid_price {
                Some(best) => cmd.price <= best,
                None => false,
            },
        }
    }

    /// The post-only test: valid for the book where the command would not
    /// trade at once.
    pub fn check_post_only(&self, cmd: &OrderCommand) -> (r: CommandResultCode)
        requires
            self.wf(),
        ensures
            r == if crosses(self@, entry_of(*cmd)) {
                CommandResultCode::MatchingUnsupportedCommand
            } else {
                CommandResultCode::ValidForMatchingEngine
            },
    {
        if self.would_match(cmd) {
            CommandResultCode::MatchingUnsupportedCommand
        } else {
            CommandResultCode::ValidForMatchingEngine
        }
    }

    /// The opposite side can fill the order whole at prices that it
    /// accepts, expired orders left out.
    pub fn can_fill_completely(&self, c: &Order) -> (r: bool)
        requires
            self.wf(),
        ensures
            r == (available(self@.side(c.action.flip()), adv_taker(*c)) >= c.size),
    {
        let t = Self::taker_for(c.action, c.order_type, c.price, c.reserve_price, c.timestamp);
        let have: i64 = match c.action {
            OrderAction::Bid => self.ask_buckets.available(&t),
            OrderAction::Ask => self.bid_buckets.available(&t),
        };
        have >= c.size
    }

    /// The taker that an order of these fields is.
    pub fn taker_for(
        action: OrderAction,
        order_type: OrderType,
        price: Price,
        reserve_price: Price,
        now: i64,
    ) -> (t: Taker)
        ensures
            t == (Taker {
                action,
                limit: if order_type == OrderType::FokBudget {
                    None
                } else {
                    Some(price)
                },
                reserve_price,
                now,
            }),
    {
        let limit: Option<Price> = match order_type {
            OrderType::FokBudget => None,
            _ => Some(price),
        };
        Taker { action, limit, reserve_price, now }
    }

    /// Matches taker `t`, who wants `want` units, against the side opposite
    /// to it.
    pub fn match_with(&mut self, t: &Taker, want: Size, events: &mut Vec<MatcherTradeEvent>) -> (filled:
        Size)
        requires
            old(self).wf(),
        ensures
            final(self).wf(),
            final(self).symbol_spec == old(self).symbol_spec,
            final(self)@ == old(self)@.with_side(
                t.action.flip(),
                match_queue(old(self)@.side(t.action.flip()), *t, want as int).makers,
            ),
            filled == match_queue(old(self)@.side(t.action.flip()), *t, want as int).filled,
            0 <= filled,
            want >= 0 ==> filled <= want,
            final(events)@ == old(events)@ + match_queue(
                old(self)@.side(t.action.flip()),
                *t,
                want as int,
            ).events,
            final(self)@.total_volume() <= old(self)@.total_volume() - filled,
            forall|id: OrderId| final(self)@.knows(id) ==> old(self)@.knows(id),
    {
        let best: Option<Price> = match t.action {
            OrderAction::Bid => self.best_ask_price,
            OrderAction::Ask => self.best_bid_price,
        };
        let idle: bool = match best {
            None => true,
            Some(p) => !t.takes(p),
        };
        if idle {
            proof {
                let m = match_queue(self@.side(t.action.flip()), *t, want as int);
                assert(m.makers == self@.side(t.action.flip()));
                assert(self@.with_side(t.action.flip(), m.makers) == self@);
                assert(events@ + m.events =~= events@);
            }
            return 0;
        }
        let mut gone: Vec<OrderId> = Vec::new();
        proof {
            lemma_book_after_match(self@, t.action.flip(), *t, want as int);
        }
        let filled: i64 = match t.action {
            OrderAction::Bid => self.ask_buckets.match_taker(t, want, events, &mut gone),
            OrderAction::Ask => self.bid_buckets.match_taker(t, want, events, &mut gone),
        };
        spots_forget(&mut self.order_map, &gone);
        self.update_best_prices();
        proof {
            let m = match_queue(old(self)@.side(t.action.flip()), *t, want as int);
            assert(gone@ =~= m.gone);
            assert forall|id: OrderId| self@.knows(id) implies old(self)@.knows(id) by {
                assert(self@.locator().contains_key(id));
                assert(old(self)@.locator().contains_key(id));
            }
        }
        filled
    }

    /// Matches the command against the opposite side.
    pub fn try_match(&mut self, cmd: &mut OrderCommand) -> (filled: Size)
        requires
            old(self).wf(),
        ensures
            final(self).wf(),
            final(self).symbol_spec == old(self).symbol_spec,
            final(self)@ == old(self)@.with_side(
                old(cmd).action.flip(),
                match_queue(
                    old(self)@.side(old(cmd).action.flip()),
                    adv_taker(entry_of(*old(cmd))),
                    old(cmd).size as int,
                ).makers,
            ),
            filled == match_queue(
                old(self)@.side(old(cmd).action.flip()),
                adv_taker(entry_of(*old(cmd))),
                old(cmd).size as int,
            ).filled,
            final(cmd).same_inputs(*old(cmd)),
            final(cmd).result_code == old(cmd).result_code,
            final(cmd).action == old(cmd).action,
            final(cmd).matcher_events@ == old(cmd).matcher_events@ + match_queue(
                old(self)@.side(old(cmd).action.flip()),
                adv_taker(entry_of(*old(cmd))),
                old(cmd).size as int,
            ).events,
    {
        let t = Self::taker_for(cmd.action, cmd.order_type, cmd.price, cmd.reserve_price, cmd.timestamp);
        self.match_with(&t, cmd.size, &mut cmd.matcher_events)
    }

    /// Position of the stop order of id `order_id` in the pool, or the
    /// pool's length.
    pub fn stop_position(&self, order_id: OrderId) -> (i: usize)
        ensures
            i == position_of(self.stop_orders@, order_id),
            i <= self.stop_orders@.len(),
    {
        let n: usize = self.stop_orders.len();
        let mut i: usize = 0;
        assert(self.stop_orders@.subrange(0, n as int) =~= self.stop_orders@);
        while i < n
            invariant
                n == self.stop_orders@.len(),
                i <= n,
                position_of(self.stop_orders@, order_id) == i + position_of(
                    self.stop_orders@.subrange(i as int, n as int),
                    order_id,
                ),
            decreases n - i,
        {
            let ghost rest = self.stop_orders@.subrange(i as int, n as int);
            assert(rest[0] == self.stop_orders@[i as int]);
            if self.stop_orders[i].order_id == order_id {
                return i;
            }
            assert(rest.drop_first() =~= self.stop_orders@.subrange(i + 1, n as int));
            i = i + 1;
        }
        assert(self.stop_orders@.subrange(i as int, n as int).len() == 0);
        i
    }

    /// The order of id `order_id`, resting or pooled, if the book holds one.
    pub fn find(&self, order_id: OrderId) -> (r: Option<Order>)
        requires
            self.wf(),
        ensures
            match r {
                Some(o) => self@.knows(order_id) && o == self@.order(order_id) && o.order_id
                    == order_id && o.live() && (self@.rests(order_id) ==> has_id(
                    self@.side(o.action),
                    order_id,
                )),
                None => !self@.knows(order_id),
            },
    {
        proof {
            lemma_position(self.ask_buckets@, order_id);
            lemma_position(self.bid_buckets@, order_id);
            lemma_position(self.stop_orders@, order_id);
            assert(self@.locator().contains_key(order_id) <==> self@.knows(order_id));
        }
        match spots_get(&self.order_map, order_id) {
            None => None,
            Some((price, action)) => {
                assert(self@.knows(order_id));
                assert(self@.order(order_id).price == price && self@.order(order_id).action
                    == action);
                let resting: Option<Order> = match action {
                    OrderAction::Ask => self.ask_buckets.peek(price, order_id),
                    OrderAction::Bid => self.bid_buckets.peek(price, order_id),
                };
                match resting {
                    Some(o) => Some(o),
                    None => {
                        let i: usize = self.stop_position(order_id);
                        if i < self.stop_orders.len() {
                            Some(self.stop_orders[i])
                        } else {
                            None
                        }
                    },
                }
            },
        }
    }

    /// Takes the order `o`, which `find` gave, out of its ladder or of the
    /// pool, and out of the index.
    fn lift(&mut self, o: &Order)
        requires
            old(self).wf(),
            old(self)@.knows(o.order_id),
            *o == old(self)@.order(o.order_id),
        ensures
            final(self).ladders_wf(),
            final(self)@.wf(),
            final(self)@ == old(self)@.without(o.order_id),
            spots(final(self).order_map) == final(self)@.locator(),
            final(self).symbol_spec == old(self).symbol_spec,
    {
        proof {
            lemma_book_without(self@, o.order_id);
            lemma_position(self.ask_buckets@, o.order_id);
            lemma_position(self.bid_buckets@, o.order_id);
            lemma_position(self.stop_orders@, o.order_id);
        }
        let i: usize = self.stop_position(o.order_id);
        if i < self.stop_orders.len() {
            let _ = self.stop_orders.remove(i);
        } else {
            let _ = match o.action {
                OrderAction::Ask => self.ask_buckets.remove(o.price, o.order_id),
                OrderAction::Bid => self.bid_buckets.remove(o.price, o.order_id),
            };
        }
        spots_remove(&mut self.order_map, o.order_id);
    }

    /// Cancels the order of the command's id and user, resting or pooled.
    pub fn cancel_order(&mut self, cmd: &mut OrderCommand) -> (code: CommandResultCode)
        requires
            old(self).wf(),
        ensures
            final(self).wf(),
            final(self).symbol_spec == old(self).symbol_spec,
            final(self)@ == cancelled(old(self)@, entry_of(*old(cmd))).book,
            code == cancelled(old(self)@, entry_of(*old(cmd))).code,
            applied(cancelled(old(self)@, entry_of(*old(cmd))), *old(cmd), *final(cmd)),
    {
        proof {
            assert(cmd.matcher_events@ + Seq::<MatcherTradeEvent>::empty() =~= cmd.matcher_events@);
        }
        match self.find(cmd.order_id) {
            None => CommandResultCode::MatchingUnknownOrderId,
            Some(o) => {
                if o.uid != cmd.uid {
                    return CommandResultCode::MatchingUnknownOrderId;
                }
                self.lift(&o);
                self.update_best_prices();
                cmd.matcher_events.push(MatcherTradeEvent::new_rejection(
                    o.size - o.filled,
                    o.price,
                    o.hold_price(),
                ));
                cmd.action = o.action;
                CommandResultCode::Success
            },
        }
    }

    /// The resting order of id `order_id`, if there is one.
    pub fn find_resting(&self, order_id: OrderId) -> (r: Option<Order>)
        requires
            self.wf(),
        ensures
            match r {
                Some(o) => self@.rests(order_id) && o == self@.order(order_id) && o.order_id
                    == order_id && o.live() && has_id(self@.side(o.action), order_id),
                None => !self@.rests(order_id),
            },
    {
        proof {
            lemma_position(self.ask_buckets@, order_id);
            lemma_position(self.bid_buckets@, order_id);
            assert(self@.locator().contains_key(order_id) <==> self@.knows(order_id));
        }
        match spots_get(&self.order_map, order_id) {
            None => None,
            Some((price, action)) => {
                assert(self@.order(order_id).price == price && self@.order(order_id).action
                    == action);
                match action {
                    OrderAction::Ask => self.ask_buckets.peek(price, order_id),
                    OrderAction::Bid => self.bid_buckets.peek(price, order_id),
                }
            },
        }
    }

    /// Rests `order`, whose id the book does not know.
    fn rest(&mut self, order: Order)
        requires
            old(self).wf(),
            order.live(),
            !old(self)@.knows(order.order_id),
            old(self)@.total_volume() + order.left() <= i64::MAX,
        ensures
            final(self).wf(),
            final(self).symbol_spec == old(self).symbol_spec,
            final(self)@ == with_resting(old(self)@, order),
            final(self)@.total_volume() == old(self)@.total_volume() + order.left(),
            forall|id: OrderId|
                final(self)@.knows(id) ==> old(self)@.knows(id) || id == order.order_id,
    {
        proof {
            lemma_position(self.ask_buckets@, order.order_id);
            lemma_position(self.bid_buckets@, order.order_id);
            lemma_book_after_rest(self@, order);
        }
        match order.action {
            OrderAction::Ask => self.ask_buckets.insert(order),
            OrderAction::Bid => self.bid_buckets.insert(order),
        }
        spots_insert(&mut self.order_map, order.order_id, (order.price, order.action));
        self.update_best_prices();
        proof {
            assert forall|id: OrderId| self@.knows(id) implies old(self)@.knows(id) || id
                == order.order_id by {
                assert(self@.locator().contains_key(id));
                assert(old(self)@.locator().insert(
                    order.order_id,
                    (order.price, order.action),
                ).contains_key(id));
            }
        }
    }

    /// Whether stop order `o` triggers at trade price `last`.
    pub fn triggers(o: &Order, last: Price) -> (r: bool)
        ensures
            r == fires(*o, last),
    {
        match o.stop_price {
            Some(stop) => match o.action {
                OrderAction::Bid => last >= stop,
                OrderAction::Ask => last <= stop,
            },
            None => false,
        }
    }

    /// Records trade price `last` and takes the stop orders that it
    /// triggers out of the pool and of the index: those orders, in pool
    /// order.
    fn scan(&mut self, last: Price) -> (out: Vec<Order>)
        requires
            old(self).wf(),
        ensures
            final(self).wf(),
            final(self).symbol_spec == old(self).symbol_spec,
            final(self)@ == scanned(old(self)@, last),
            out@ == fired(old(self)@.stops, last),
    {
        let n: usize = self.stop_orders.len();
        let mut kept: Vec<Order> = Vec::new();
        let mut out: Vec<Order> = Vec::new();
        let mut ids: Vec<OrderId> = Vec::new();
        let mut i: usize = 0;
        proof {
            assert(self.stop_orders@.subrange(0, 0) =~= Seq::<Order>::empty());
            assert(ids@ =~= ids_of(out@));
        }
        while i < n
            invariant
                i <= n,
                n == self.stop_orders@.len(),
                kept@ == waiting(self.stop_orders@.subrange(0, i as int), last),
                out@ == fired(self.stop_orders@.subrange(0, i as int), last),
                ids@ == ids_of(out@),
            decreases n - i,
        {
            let o: Order = self.stop_orders[i];
            proof {
                let upto = self.stop_orders@.subrange(0, i + 1);
                assert(upto.drop_last() =~= self.stop_orders@.subrange(0, i as int));
                assert(upto.last() == o);
            }
            if Self::triggers(&o, last) {
                out.push(o);
                ids.push(o.order_id);
                proof {
                    assert(ids@ =~= ids_of(out@));
                }
            } else {
                kept.push(o);
            }
            i = i + 1;
        }
        proof {
            assert(self.stop_orders@.subrange(0, n as int) =~= self.stop_orders@);
            lemma_scan(self@, last);
        }
        self.stop_orders = kept;
        self.last_trade_price = Some(last);
        spots_forget(&mut self.order_map, &ids);
        out
    }

    /// After a trade at `last`: the stop orders that it triggers leave the
    /// pool and enter the book one after the other, the latest of the pool
    /// first, each as a good-till-cancel order.
    pub fn process_stop_orders(&mut self, last: Price)
        requires
            old(self).wf(),
        ensures
            final(self).wf(),
            final(self).symbol_spec == old(self).symbol_spec,
            final(self)@ == adv_cascade(
                scanned(old(self)@, last),
                fired(old(self)@.stops, last),
            ),
            final(self).stop_orders@.len() <= old(self).stop_orders@.len(),
            forall|id: OrderId| final(self)@.knows(id) ==> old(self)@.knows(id),
            final(self)@.total_volume() <= old(self)@.total_volume(),
        decreases old(self).stop_orders@.len(), 0int,
    {
        proof {
            lemma_scan(self@, last);
        }
        let pending: Vec<Order> = self.scan(last);
        let n: usize = pending.len();
        let mut i: usize = n;
        proof {
            assert(pending@.subrange(0, n as int) =~= pending@);
        }
        while i > 0
            invariant
                i <= n,
                n == pending@.len(),
                self.wf(),
                self.symbol_spec == old(self).symbol_spec,
                adv_cascade(scanned(old(self)@, last), fired(old(self)@.stops, last))
                    == adv_cascade(self@, pending@.subrange(0, i as int)),
                self.stop_orders@.len() + n <= old(self).stop_orders@.len(),
                ids_distinct(pending@),
                forall|k: int|
                    0 <= k < i ==> (#[trigger] pending@[k]).live() && pending@[k].filled == 0
                        && !self@.knows(pending@[k].order_id) && old(self)@.knows(
                        pending@[k].order_id,
                    ),
                self@.total_volume() + queue_volume(pending@.subrange(0, i as int))
                    <= old(self)@.total_volume(),
                old(self)@.total_volume() <= i64::MAX,
                forall|id: OrderId| self@.knows(id) ==> old(self)@.knows(id),
            decreases i,
        {
            let o: Order = pending[i - 1];
            let a = Order {
                order_id: o.order_id,
                uid: o.uid,
                price: o.price,
                size: o.size,
                filled: o.filled,
                action: o.action,
                order_type: OrderType::Gtc,
                reserve_price: o.reserve_price,
                timestamp: o.timestamp,
                stop_price: None,
                visible_size: None,
                expire_time: None,
            };
            let ghost rest = pending@.subrange(0, i as int);
            let ghost before = self@;
            proof {
                assert(a == activation(o));
                assert(rest.last() == o);
                assert(rest.drop_last() =~= pending@.subrange(0, i - 1));
                assert(rest =~= rest.drop_last() + seq![o]);
                lemma_sum_by_concat(rest.drop_last(), seq![o], left_fn());
                lemma_sum_by_one(o, left_fn());
                assert forall|k: int| 0 <= k < rest.drop_last().len() implies (
                #[trigger] rest.drop_last()[k]).live() by {
                    assert(rest.drop_last()[k] == pending@[k]);
                }
                lemma_visible_within_volume(rest.drop_last());
            }
            let mut scratch: Vec<MatcherTradeEvent> = Vec::new();
            self.enter(&a, &mut scratch);
            proof {
                assert forall|k: int| 0 <= k < i - 1 implies !self@.knows(
                    (#[trigger] pending@[k]).order_id,
                ) by {
                    assert(pending@[i - 1].order_id != pending@[k].order_id);
                    assert(!before.knows(pending@[k].order_id));
                }
            }
            i = i - 1;
        }
        proof {
            assert(pending@.subrange(0, 0) =~= Seq::<Order>::empty());
        }
    }

    /// An order enters the book: see [`adv_enter`]. Its events go to
    /// `events`.
    pub fn enter(&mut self, c: &Order, events: &mut Vec<MatcherTradeEvent>)
        requires
            old(self).wf(),
            old(self)@.has_room(*c, true),
            c.filled == 0,
        ensures
            final(self).wf(),
            final(self).symbol_spec == old(self).symbol_spec,
            final(self)@ == adv_enter(old(self)@, *c).book,
            final(events)@ == old(events)@ + adv_enter(old(self)@, *c).events,
            final(self).stop_orders@.len() <= old(self).stop_orders@.len(),
            forall|id: OrderId|
                final(self)@.knows(id) ==> old(self)@.knows(id) || id == c.order_id,
            final(self)@.total_volume() <= old(self)@.total_volume() + (if c.size > 0 {
                c.size as int
            } else {
                0
            }),
        decreases old(self).stop_orders@.len(), 1int,
    {
        let known: bool = spots_get(&self.order_map, c.order_id).is_some();
        assert(known == old(self)@.knows(c.order_id)) by {
            assert(self@.locator().contains_key(c.order_id) <==> self@.knows(c.order_id));
        }
        let t = Self::taker_for(c.action, c.order_type, c.price, c.reserve_price, c.timestamp);
        assert(t == adv_taker(*c));
        let is_fok: bool = match c.order_type {
            OrderType::Fok => true,
            _ => false,
        };
        let is_budget: bool = match c.order_type {
            OrderType::FokBudget => true,
            _ => false,
        };
        let is_ioc: bool = match c.order_type {
            OrderType::Ioc => true,
            _ => false,
        };
        if is_fok {
            if !self.can_fill_completely(c) {
                events.push(MatcherTradeEvent::new_rejection(c.size, c.price, c.hold_price()));
                proof {
                    assert(events@ =~= old(events)@ + turned_away(old(self)@, *c).events);
                }
                return ;
            }
        }
        if is_budget {
            let cost: Option<i128> = match c.action {
                OrderAction::Bid => self.ask_buckets.cost_to_fill(c.timestamp, c.size),
                OrderAction::Ask => self.bid_buckets.cost_to_fill(c.timestamp, c.size),
            };
            let ok: bool = match cost {
                Some(x) => match c.action {
                    OrderAction::Bid => x <= c.price as i128,
                    OrderAction::Ask => x >= c.price as i128,
                },
                None => false,
            };
            if !ok {
                events.push(MatcherTradeEvent::new_rejection(c.size, c.price, c.hold_price()));
                proof {
                    assert(events@ =~= old(events)@ + turned_away(old(self)@, *c).events);
                }
                return ;
            }
        }
        let n0: usize = events.len();
        let filled: i64 = self.match_with(&t, c.size, events);
        let ghost m = match_queue(old(self)@.side(c.action.flip()), t, c.size as int);
        let ghost b1 = self@;
        if filled > 0 && events.len() > n0 {
            let last: i64 = events[events.len() - 1].price;
            proof {
                assert(last == m.events.last().price);
                lemma_partition(b1.stops, last);
            }
            self.process_stop_orders(last);
        }
        let ghost b2 = self@;
        if known || is_fok || is_budget || is_ioc {
            if filled < c.size {
                events.push(MatcherTradeEvent::new_rejection(c.size - filled, c.price, c.hold_price()));
            }
            proof {
                assert(events@ =~= old(events)@ + (m.events + rejected(*c, m.filled)));
            }
        } else if filled < c.size {
            let order = Order {
                order_id: c.order_id,
                uid: c.uid,
                price: c.price,
                size: c.size,
                filled,
                action: c.action,
                order_type: c.order_type,
                reserve_price: c.reserve_price,
                timestamp: c.timestamp,
                stop_price: None,
                visible_size: c.visible_size,
                expire_time: c.expire_time,
            };
            proof {
                assert(order == resting_order(*c, filled as int, true));
                assert(!b2.knows(c.order_id));
            }
            self.rest(order);
        }
    }

    /// Places the command's order as [`adv_enter`] says.
    pub fn place_order_internal(&mut self, cmd: &mut OrderCommand)
        requires
            old(self).wf(),
            old(self)@.has_room(entry_of(*old(cmd)), true),
        ensures
            final(self).wf(),
            final(self).symbol_spec == old(self).symbol_spec,
            final(self)@ == adv_enter(old(self)@, entry_of(*old(cmd))).book,
            applied(adv_enter(old(self)@, entry_of(*old(cmd))), *old(cmd), *final(cmd)),
    {
        let c = Self::entry(cmd);
        self.enter(&c, &mut cmd.matcher_events);
    }

    /// The order that a command brings.
    pub fn entry(cmd: &OrderCommand) -> (c: Order)
        ensures
            c == entry_of(*cmd),
    {
        Order {
            order_id: cmd.order_id,
            uid: cmd.uid,
            price: cmd.price,
            size: cmd.size,
            filled: 0,
            action: cmd.action,
            order_type: cmd.order_type,
            reserve_price: cmd.reserve_price,
            timestamp: cmd.timestamp,
            stop_price: cmd.stop_price,
            visible_size: cmd.visible_size,
            expire_time: cmd.expire_time,
        }
    }

    /// Places the command's order as [`adv_placed`] says.
    pub fn place_order(&mut self, cmd: &mut OrderCommand)
        requires
            old(self).wf(),
            old(self)@.has_room(entry_of(*old(cmd)), true),
        ensures
            final(self).wf(),
            final(self).symbol_spec == old(self).symbol_spec,
            final(self)@ == adv_placed(old(self)@, entry_of(*old(cmd))).book,
            applied(adv_placed(old(self)@, entry_of(*old(cmd))), *old(cmd), *final(cmd)),
    {
        let post_only: bool = match cmd.order_type {
            OrderType::PostOnly => true,
            _ => false,
        };
        if post_only {
            match self.check_post_only(cmd) {
                CommandResultCode::ValidForMatchingEngine => {},
                _ => {
                    cmd.matcher_events.push(MatcherTradeEvent::new_rejection(
                    cmd.size,
                    cmd.price,
                    held_price(cmd),
                ));
                    proof {
                        let out = turned_away(old(self)@, entry_of(*old(cmd)));
                        assert(cmd.matcher_events@ =~= old(cmd).matcher_events@ + out.events);
                    }
                    return ;
                },
            }
        }
        if cmd.order_type.stop() {
            let known: bool = spots_get(&self.order_map, cmd.order_id).is_some();
            assert(known == old(self)@.knows(cmd.order_id)) by {
                assert(self@.locator().contains_key(cmd.order_id) <==> self@.knows(
                    cmd.order_id,
                ));
            }
            if !known {
                proof {
                    assert(cmd.matcher_events@ + Seq::<MatcherTradeEvent>::empty()
                        =~= cmd.matcher_events@);
                }
                if cmd.size > 0 {
                    let c = Self::entry(cmd);
                    proof {
                        lemma_pooled(self@, c);
                    }
                    self.stop_orders.push(c);
                    spots_insert(&mut self.order_map, c.order_id, (c.price, c.action));
                }
                return ;
            }
        }
        self.place_order_internal(cmd);
    }

    /// Places a new order; every order type is known.
    pub fn new_order(&mut self, cmd: &mut OrderCommand) -> (code: CommandResultCode)
        requires
            old(self).wf(),
            old(self)@.has_room(entry_of(*old(cmd)), true),
        ensures
            final(self).wf(),
            final(self).symbol_spec == old(self).symbol_spec,
            final(self)@ == adv_placed(old(self)@, entry_of(*old(cmd))).book,
            code == CommandResultCode::Success,
            code == adv_placed(old(self)@, entry_of(*old(cmd))).code,
            applied(adv_placed(old(self)@, entry_of(*old(cmd))), *old(cmd), *final(cmd)),
    {
        self.place_order(cmd);
        CommandResultCode::Success
    }

    /// Moves the resting order of the command's id to the command's price.
    pub fn move_order(&mut self, cmd: &mut OrderCommand) -> (code: CommandResultCode)
        requires
            old(self).wf(),
        ensures
            final(self).wf(),
            final(self).symbol_spec == old(self).symbol_spec,
            final(self)@ == moved(
                old(self)@,
                entry_of(*old(cmd)),
                old(self).symbol_spec.symbol_type == SymbolType::CurrencyExchangePair,
            ).book,
            code == moved(
                old(self)@,
                entry_of(*old(cmd)),
                old(self).symbol_spec.symbol_type == SymbolType::CurrencyExchangePair,
            ).code,
            applied(
                moved(
                    old(self)@,
                    entry_of(*old(cmd)),
                    old(self).symbol_spec.symbol_type == SymbolType::CurrencyExchangePair,
                ),
                *old(cmd),
                *final(cmd),
            ),
    {
        proof {
            assert(cmd.matcher_events@ + Seq::<MatcherTradeEvent>::empty() =~= cmd.matcher_events@);
        }
        let found: Option<Order> = self.find_resting(cmd.order_id);
        match found {
            None => CommandResultCode::MatchingUnknownOrderId,
            Some(o) => {
                if o.uid != cmd.uid {
                    return CommandResultCode::MatchingUnknownOrderId;
                }
                let spot: bool = match self.symbol_spec.symbol_type {
                    SymbolType::CurrencyExchangePair => true,
                    _ => false,
                };
                let is_bid: bool = match o.action {
                    OrderAction::Bid => true,
                    OrderAction::Ask => false,
                };
                if spot && is_bid && cmd.price > o.reserve_price {
                    return CommandResultCode::RiskInvalidReserveBidPrice;
                }
                proof {
                    lemma_book_without(self@, o.order_id);
                }
                self.lift(&o);
                self.update_best_prices();
                let t = Taker {
                    action: o.action,
                    limit: Some(cmd.price),
                    reserve_price: o.reserve_price,
                    now: cmd.timestamp,
                };
                assert(t == mover(o, entry_of(*old(cmd))));
                let filled: i64 = self.match_with(&t, o.size - o.filled, &mut cmd.matcher_events);
                if filled < o.size - o.filled {
                    let again = Order {
                        order_id: o.order_id,
                        uid: o.uid,
                        price: cmd.price,
                        size: o.size,
                        filled: o.filled + filled,
                        action: o.action,
                        order_type: o.order_type,
                        reserve_price: o.reserve_price,
                        timestamp: o.timestamp,
                        stop_price: o.stop_price,
                        visible_size: o.visible_size,
                        expire_time: o.expire_time,
                    };
                    self.rest(again);
                }
                cmd.action = o.action;
                CommandResultCode::Success
            },
        }
    }

    /// Cuts the size of the resting order of the command's id.
    pub fn reduce_order(&mut self, cmd: &mut OrderCommand) -> (code: CommandResultCode)
        requires
            old(self).wf(),
        ensures
            final(self).wf(),
            final(self).symbol_spec == old(self).symbol_spec,
            final(self)@ == reduced(old(self)@, entry_of(*old(cmd))).book,
            code == reduced(old(self)@, entry_of(*old(cmd))).code,
            applied(reduced(old(self)@, entry_of(*old(cmd))), *old(cmd), *final(cmd)),
    {
        proof {
            assert(cmd.matcher_events@ + Seq::<MatcherTradeEvent>::empty() =~= cmd.matcher_events@);
        }
        match self.find_resting(cmd.order_id) {
            None => CommandResultCode::MatchingUnknownOrderId,
            Some(o) => {
                if cmd.size <= 0 {
                    return CommandResultCode::MatchingInvalidOrderSize;
                }
                if o.uid != cmd.uid {
                    return CommandResultCode::MatchingUnknownOrderId;
                }
                let left: i64 = o.size - o.filled;
                let by: i64 = if left < cmd.size {
                    left
                } else {
                    cmd.size
                };
                if by == left {
                    self.lift(&o);
                    self.update_best_prices();
                } else {
                    let smaller = Order {
                        order_id: o.order_id,
                        uid: o.uid,
                        price: o.price,
                        size: o.size - by,
                        filled: o.filled,
                        action: o.action,
                        order_type: o.order_type,
                        reserve_price: o.reserve_price,
                        timestamp: o.timestamp,
                        stop_price: o.stop_price,
                        visible_size: o.visible_size,
                        expire_time: o.expire_time,
                    };
                    proof {
                        assert(smaller == cut(o, by as int));
                        lemma_book_after_cut(self@, o.order_id, by as int);
                    }
                    let _ = match o.action {
                        OrderAction::Ask => self.ask_buckets.replace(o.price, o.order_id, smaller),
                        OrderAction::Bid => self.bid_buckets.replace(o.price, o.order_id, smaller),
                    };
                    self.update_best_prices();
                }
                cmd.matcher_events.push(MatcherTradeEvent::new_rejection(by, o.price, o.hold_price()));
                cmd.action = o.action;
                CommandResultCode::Success
            },
        }
    }

    pub fn get_symbol_spec(&self) -> (r: &CoreSymbolSpecification)
        ensures
            *r == self.symbol_spec,
    {
        &self.symbol_spec
    }

    /// Market depth: the best `depth` levels of each side with what each
    /// advertises.
    pub fn get_l2_data(&self, depth: usize) -> (r: L2MarketData)
        requires
            self.wf(),
        ensures
            depth_of(self@.asks, depth, r.ask_prices@, r.ask_volumes@),
            depth_of(self@.bids, depth, r.bid_prices@, r.bid_volumes@),
    {
        let (ask_prices, ask_volumes) = self.ask_buckets.depth(depth);
        let (bid_prices, bid_volumes) = self.bid_buckets.depth(depth);
        L2MarketData { ask_prices, ask_volumes, bid_prices, bid_volumes }
    }

    /// Price and side of the order of id `order_id`.
    pub fn get_order_by_id(&self, order_id: OrderId) -> (r: Option<(Price, OrderAction)>)
        requires
            self.wf(),
        ensures
            r == if self@.knows(order_id) {
                Some((self@.order(order_id).price, self@.order(order_id).action))
            } else {
                None
            },
    {
        assert(self@.locator().contains_key(order_id) <==> self@.knows(order_id));
        spots_get(&self.order_map, order_id)
    }

    pub fn get_total_ask_volume(&self) -> (r: Size)
        requires
            self.wf(),
        ensures
            r == queue_volume(self@.asks),
    {
        self.ask_buckets.total_volume()
    }

    /// What the stop pool holds.
    pub fn get_total_stop_volume(&self) -> (r: Size)
        requires
            self.wf(),
        ensures
            r == queue_volume(self@.stops),
    {
        let n: usize = self.stop_orders.len();
        let mut sum: i64 = 0;
        let mut i: usize = 0;
        proof {
            assert(self.stop_orders@.subrange(0, 0) =~= Seq::<Order>::empty());
            self@.lemma_volumes();
        }
        while i < n
            invariant
                i <= n,
                n == self.stop_orders@.len(),
                self.wf(),
                sum == queue_volume(self.stop_orders@.subrange(0, i as int)),
                0 <= sum,
                queue_volume(self.stop_orders@) <= i64::MAX,
            decreases n - i,
        {
            let o: Order = self.stop_orders[i];
            proof {
                crate::orderbook::rules::lemma_part_pool(self.stop_orders@, i as int);
                crate::orderbook::rules::lemma_part_pool(self.stop_orders@, i + 1);
                assert(self.stop_orders@.subrange(0, i + 1) =~= self.stop_orders@.subrange(
                    0,
                    i as int,
                ).push(o));
                lemma_sum_by_push(self.stop_orders@.subrange(0, i as int), o, left_fn());
                assert(o.live());
            }
            sum = sum + (o.size - o.filled);
            i = i + 1;
        }
        proof {
            assert(self.stop_orders@.subrange(0, n as int) =~= self.stop_orders@);
        }
        sum
    }

    pub fn get_total_bid_volume(&self) -> (r: Size)
        requires
            self.wf(),
        ensures
            r == queue_volume(self@.bids),
    {
        self.bid_buckets.total_volume()
    }

    pub fn get_ask_buckets_count(&self) -> (r: usize)
        requires
            self.wf(),
        ensures
            r == price_levels(self@.asks).len(),
    {
        self.ask_buckets.level_count()
    }

    pub fn get_bid_buckets_count(&self) -> (r: usize)
        requires
            self.wf(),
        ensures
            r == price_levels(self@.bids).len(),
    {
        self.bid_buckets.level_count()
    }
}

} // verus!
