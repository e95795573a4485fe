use crate::api::events::{MatcherEventType, MatcherTradeEvent};
use crate::api::types::{CoreSymbolSpecification, OrderAction, OrderId, OrderType, Price, UserId};
use crate::orderbook::advanced::{adv_enter, adv_placed, adv_taker, crosses, lemma_enter};
use crate::orderbook::book::{placed_by, BookKind};
use crate::orderbook::bucket::OrdersBucket;
use crate::orderbook::model::{
    ahead, all_live, available, available_fn, has_id, in_priority, left_fn, lemma_position,
    lemma_sum_by_concat, lemma_sum_by_one, lemma_sum_by_zero, match_queue, min_int, position_of,
    price_levels, queue_visible, queue_volume, shown_fn, sum_by, traded_total, Order, Taker,
};
use crate::orderbook::naive::best_of;
use crate::orderbook::rules::{lemma_spot, BookModel};
use crate::api::commands::OrderCommand;
use crate::api::types::{CommandResultCode, Currency};
use crate::orderbook::model::rest_at;
use crate::orderbook::rules::{
    entry_of, lemma_book_after_match, lemma_book_after_rest, lemma_book_without, lemma_rest_at,
    moved, mover, rejected, resting_order, with_resting,
};
use crate::processors::risk_engine::{
    all_credits, buyer_credits, check_fits, hold_amount, hold_currency, paid_all, pay_fits,
    post_fits, post_processed, price_for_hold, refund_credits, risk_checked, seller_credits,
    Credit, RiskModel,
};
use crate::users::balance_of;
use vstd::prelude::*;

verus! {

/// What is left of the expired makers that a match drops.
pub open spec fn dropped(makers: Seq<Order>, t: Taker, want: int) -> int
    decreases makers.len(),
{
    if want <= 0 || makers.len() == 0 || !t.accepts(makers[0].price) {
        0
    } else if makers[0].expired_at(t.now) {
        makers[0].left() + dropped(makers.drop_first(), t, want)
    } else if min_int(want, makers[0].left()) == makers[0].left() {
        dropped(makers.drop_first(), t, want - makers[0].left())
    } else {
        0
    }
}

/// Every event of `events` is a trade of a positive size at a price that
/// the taker accepts.
pub open spec fn all_trades(events: Seq<MatcherTradeEvent>, t: Taker) -> bool {
    forall|i: int|
        0 <= i < events.len() ==> (#[trigger] events[i]).event_type == MatcherEventType::Trade
            && events[i].size > 0 && t.accepts(events[i].price)
}

/// Conservation of quantity in a match: the sizes of the trade events sum
/// to what the taker traded, and the side loses exactly that much, besides
/// what was left of the expired makers that were dropped.
pub proof fn law_match_conserves_quantity(makers: Seq<Order>, t: Taker, want: int)
    requires
        forall|i: int| 0 <= i < makers.len() ==> (#[trigger] makers[i]).live(),
        queue_volume(makers) <= i64::MAX,
    ensures
        traded_total(match_queue(makers, t, want).events) == match_queue(makers, t, want).filled,
        queue_volume(makers) == queue_volume(match_queue(makers, t, want).makers) + match_queue(
            makers,
            t,
            want,
        ).filled + dropped(makers, t, want),
        dropped(makers, t, want) >= 0,
        0 <= match_queue(makers, t, want).filled <= queue_volume(makers),
    decreases makers.len(),
{
    let r = match_queue(makers, t, want);
    crate::orderbook::model::lemma_visible_within_volume(makers);
    if want <= 0 || makers.len() == 0 || !t.accepts(makers[0].price) {
    } else {
        let m = makers[0];
        let rest = makers.drop_first();
        assert(m.live());
        assert forall|i: int| 0 <= i < rest.len() implies (#[trigger] rest[i]).live() by {
            assert(rest[i] == makers[i + 1]);
        }
        assert(makers =~= seq![m] + rest);
        lemma_sum_by_concat(seq![m], rest, left_fn());
        lemma_sum_by_one(m, left_fn());
        crate::orderbook::model::lemma_visible_within_volume(rest);
        let traded = min_int(want, m.left());
        if m.expired_at(t.now) {
            law_match_conserves_quantity(rest, t, want);
            let rr = match_queue(rest, t, want);
            assert(r.events =~= rr.events);
        } else if traded == m.left() {
            law_match_conserves_quantity(rest, t, want - traded);
            let rr = match_queue(rest, t, want - traded);
            let ev = t.trade_with(m, traded);
            assert(r.events =~= seq![ev] + rr.events);
            assert((seq![ev] + rr.events).drop_first() =~= rr.events);
        } else {
            let ev = t.trade_with(m, traded);
            assert(r.events =~= seq![ev]);
            assert(seq![ev].drop_first() =~= Seq::<MatcherTradeEvent>::empty());
            assert(traded_total(seq![ev].drop_first()) == 0);
            let u = makers.update(0, m.fill(traded));
            assert(u =~= seq![m.fill(traded)] + rest);
            lemma_sum_by_concat(seq![m.fill(traded)], rest, left_fn());
            lemma_sum_by_one(m.fill(traded), left_fn());
        }
    }
}

/// A taker trades only at prices within its limit: a bid at its limit or
/// below, an ask at its limit or above. Every event of a match is a trade
/// of a positive size.
pub proof fn law_trades_within_limit(makers: Seq<Order>, t: Taker, want: int)
    requires
        forall|i: int| 0 <= i < makers.len() ==> (#[trigger] makers[i]).live(),
    ensures
        all_trades(match_queue(makers, t, want).events, t),
        forall|i: int|
            0 <= i < match_queue(makers, t, want).events.len() ==> match t.limit {
                Some(limit) => match t.action {
                    OrderAction::Bid => (#[trigger] match_queue(makers, t, want).events[i]).price
                        <= limit,
                    OrderAction::Ask => match_queue(makers, t, want).events[i].price >= limit,
                },
                None => true,
            },
    decreases makers.len(),
{
    let r = match_queue(makers, t, want);
    if want <= 0 || makers.len() == 0 || !t.accepts(makers[0].price) {
    } else {
        let m = makers[0];
        let rest = makers.drop_first();
        assert(m.live());
        assert forall|i: int| 0 <= i < rest.len() implies (#[trigger] rest[i]).live() by {
            assert(rest[i] == makers[i + 1]);
        }
        let traded = min_int(want, m.left());
        if m.expired_at(t.now) {
            law_trades_within_limit(rest, t, want);
            assert(r.events =~= match_queue(rest, t, want).events);
        } else if traded == m.left() {
            law_trades_within_limit(rest, t, want - traded);
            let rr = match_queue(rest, t, want - traded);
            assert(r.events =~= seq![t.trade_with(m, traded)] + rr.events);
            assert forall|i: int| 0 <= i < r.events.len() implies (#[trigger] r.events[i]).event_type
                == MatcherEventType::Trade && r.events[i].size > 0 && t.accepts(
                r.events[i].price,
            ) by {
                if i > 0 {
                    assert(r.events[i] == rr.events[i - 1]);
                }
            }
        } else {
            assert(r.events =~= seq![t.trade_with(m, traded)]);
        }
    }
    assert forall|i: int| 0 <= i < r.events.len() implies match t.limit {
        Some(limit) => match t.action {
            OrderAction::Bid => (#[trigger] r.events[i]).price <= limit,
            OrderAction::Ask => r.events[i].price >= limit,
        },
        None => true,
    } by {
        assert(t.accepts(r.events[i].price));
    }
}

/// Of every resting order of a valid book no more is filled than its size,
/// and no less than nothing.
pub proof fn law_filled_within_size(book: BookModel)
    requires
        book.wf(),
    ensures
        forall|i: int|
            0 <= i < book.asks.len() ==> 0 <= (#[trigger] book.asks[i]).filled <= book.asks[i].size,
        forall|i: int|
            0 <= i < book.bids.len() ==> 0 <= (#[trigger] book.bids[i]).filled <= book.bids[i].size,
        forall|i: int|
            0 <= i < book.stops.len() ==> 0 <= (#[trigger] book.stops[i]).filled
                <= book.stops[i].size,
{
    assert forall|i: int| 0 <= i < book.asks.len() implies 0 <= (#[trigger] book.asks[i]).filled
        <= book.asks[i].size by {
        assert(book.asks[i].live());
    }
    assert forall|i: int| 0 <= i < book.bids.len() implies 0 <= (#[trigger] book.bids[i]).filled
        <= book.bids[i].size by {
        assert(book.bids[i].live());
    }
    assert forall|i: int| 0 <= i < book.stops.len() implies 0 <= (#[trigger] book.stops[i]).filled
        <= book.stops[i].size by {
        assert(book.stops[i].live());
    }
}

/// Sum of what is left of the orders of `q`, written out.
pub open spec fn sum_left(q: Seq<Order>) -> int
    decreases q.len(),
{
    if q.len() == 0 {
        0
    } else {
        (q[0].size - q[0].filled) + sum_left(q.drop_first())
    }
}

/// Sum of what the orders of `q` advertise, written out: the advertised
/// size where one is set and less is left than it, else what is left.
pub open spec fn sum_shown(q: Seq<Order>) -> int
    decreases q.len(),
{
    if q.len() == 0 {
        0
    } else {
        (match q[0].visible_size {
            Some(v) => min_int(q[0].size - q[0].filled, v as int),
            None => q[0].size - q[0].filled,
        }) + sum_shown(q.drop_first())
    }
}

/// The totals of a valid price level: its total volume is the sum of size
/// less filled over its orders, and its visible volume is the sum of the
/// lesser of what is left and the advertised size.
pub proof fn law_bucket_totals(b: OrdersBucket)
    requires
        b.wf(),
    ensures
        b.total_volume == sum_left(b@),
        b.visible_volume == sum_shown(b@),
{
    lemma_sums_written_out(b@);
}

pub proof fn lemma_sums_written_out(q: Seq<Order>)
    ensures
        queue_volume(q) == sum_left(q),
        queue_visible(q) == sum_shown(q),
    decreases q.len(),
{
    if q.len() > 0 {
        lemma_sums_written_out(q.drop_first());
    }
}

/// The best price of a side in priority order is its first price level,
/// and no order of the side has a better price.
pub proof fn law_best_is_first_level(side: OrderAction, q: Seq<Order>)
    requires
        in_priority(side, q),
        q.len() > 0,
    ensures
        best_of(q) == Some(price_levels(q)[0]),
        price_levels(q).len() > 0,
        forall|i: int| 0 <= i < q.len() ==> ahead(side, q[0].price, (#[trigger] q[i]).price),
    decreases q.len(),
{
    if q.len() >= 2 && q[0].price == q[1].price {
        let r = q.drop_first();
        assert(r[0] == q[1]);
        assert forall|i: int, j: int| 0 <= i < j < r.len() implies ahead(
            side,
            (#[trigger] r[i]).price,
            (#[trigger] r[j]).price,
        ) by {
            assert(r[i] == q[i + 1]);
            assert(r[j] == q[j + 1]);
        }
        law_best_is_first_level(side, r);
    }
    assert forall|i: int| 0 <= i < q.len() implies ahead(side, q[0].price, (#[trigger] q[i]).price) by {
        if i > 0 {
            assert(ahead(side, q[0].price, q[i].price));
        }
    }
}

/// The order-id index of a valid book and its orders, resting or pooled,
/// correspond one to one: every order is found under its id with its price
/// and side, every id of the index is that of exactly one order.
pub proof fn law_index_bijects(book: BookModel)
    requires
        book.wf(),
    ensures
        forall|i: int|
            0 <= i < book.asks.len() ==> book.locator().contains_key(
                (#[trigger] book.asks[i]).order_id,
            ) && book.order(book.asks[i].order_id) == book.asks[i],
        forall|i: int|
            0 <= i < book.bids.len() ==> book.locator().contains_key(
                (#[trigger] book.bids[i]).order_id,
            ) && book.order(book.bids[i].order_id) == book.bids[i],
        forall|i: int|
            0 <= i < book.stops.len() ==> book.locator().contains_key(
                (#[trigger] book.stops[i]).order_id,
            ) && book.order(book.stops[i].order_id) == book.stops[i],
        forall|id: OrderId| #[trigger]
            book.locator().contains_key(id) ==> book.order(id).order_id == id
                && book.locator()[id] == (book.order(id).price, book.order(id).action) && (has_id(
                book.asks,
                id,
            ) || has_id(book.bids, id) || has_id(book.stops, id)),
{
    assert forall|i: int| 0 <= i < book.asks.len() implies book.locator().contains_key(
        (#[trigger] book.asks[i]).order_id,
    ) && book.order(book.asks[i].order_id) == book.asks[i] by {
        lemma_spot(book.asks, i);
    }
    assert forall|i: int| 0 <= i < book.bids.len() implies book.locator().contains_key(
        (#[trigger] book.bids[i]).order_id,
    ) && book.order(book.bids[i].order_id) == book.bids[i] by {
        lemma_spot(book.bids, i);
        let id = book.bids[i].order_id;
        assert(!(has_id(book.asks, id) && has_id(book.bids, id)));
    }
    assert forall|i: int| 0 <= i < book.stops.len() implies book.locator().contains_key(
        (#[trigger] book.stops[i]).order_id,
    ) && book.order(book.stops[i].order_id) == book.stops[i] by {
        lemma_spot(book.stops, i);
        let id = book.stops[i].order_id;
        assert(!(has_id(book.asks, id) && has_id(book.stops, id)));
        assert(!(has_id(book.bids, id) && has_id(book.stops, id)));
    }
    assert forall|id: OrderId| #[trigger] book.locator().contains_key(id) implies book.order(
        id,
    ).order_id == id && book.locator()[id] == (book.order(id).price, book.order(id).action) && (
    has_id(book.asks, id) || has_id(book.bids, id) || has_id(book.stops, id)) by {
        lemma_position(book.asks, id);
        lemma_position(book.bids, id);
        lemma_position(book.stops, id);
    }
}

/// Against a side in priority order a taker of the other side trades all
/// that it wants or all that is available to it, whichever is less.
pub proof fn lemma_match_fills(side: OrderAction, makers: Seq<Order>, t: Taker, want: int)
    requires
        all_live(side, makers),
        in_priority(side, makers),
        t.action == side.flip(),
        want >= 0,
    ensures
        match_queue(makers, t, want).filled == min_int(want, available(makers, t)),
        available(makers, t) >= 0,
    decreases makers.len(),
{
    let f = available_fn(t);
    assert forall|i: int| 0 <= i < makers.len() implies f(#[trigger] makers[i]) >= 0 by {
        assert(makers[i].live());
    }
    crate::orderbook::model::lemma_sum_by_bounds(makers, f);
    if makers.len() == 0 {
    } else if !t.accepts(makers[0].price) {
        assert forall|i: int| 0 <= i < makers.len() implies f(#[trigger] makers[i]) == 0 by {
            if i > 0 {
                assert(ahead(side, makers[0].price, makers[i].price));
            }
        }
        lemma_sum_by_zero(makers, f);
    } else {
        let m = makers[0];
        let rest = makers.drop_first();
        assert(m.live());
        assert forall|i: int| 0 <= i < rest.len() implies (#[trigger] rest[i]).live() && rest[i].action
            == side by {
            assert(rest[i] == makers[i + 1]);
        }
        assert forall|i: int, j: int| 0 <= i < j < rest.len() implies ahead(
            side,
            (#[trigger] rest[i]).price,
            (#[trigger] rest[j]).price,
        ) by {
            assert(rest[i] == makers[i + 1]);
            assert(rest[j] == makers[j + 1]);
        }
        assert(makers =~= seq![m] + rest);
        lemma_sum_by_concat(seq![m], rest, f);
        lemma_sum_by_one(m, f);
        if want == 0 {
            lemma_match_fills(side, rest, t, want);
        } else if m.expired_at(t.now) {
            lemma_match_fills(side, rest, t, want);
        } else {
            let traded = min_int(want, m.left());
            if traded == m.left() {
                lemma_match_fills(side, rest, t, want - traded);
            } else {
                lemma_match_fills(side, rest, t, 0);
            }
        }
    }
}

/// A fill-or-kill order of a size that is not negative is either turned
/// away with one reject event of its full size and no trade, the book
/// untouched, or it trades its full size and nothing is rejected. Either
/// way the book stays valid and nothing of the order rests: a book that did
/// not know its id does not know it afterwards.
pub proof fn law_fill_or_kill(book: BookModel, c: Order)
    requires
        book.wf(),
        c.order_type == OrderType::Fok,
        c.size >= 0,
    ensures
        ({
            let out = adv_placed(book, c);
            let t = adv_taker(c);
            ||| out.events == seq![MatcherTradeEvent::rejection(c.size, c.price, c.held_at())]
                && out.book == book
            ||| all_trades(out.events, t) && traded_total(out.events) == c.size
        }),
        adv_placed(book, c).book.wf(),
        !book.knows(c.order_id) ==> !adv_placed(book, c).book.knows(c.order_id),
{
    let out = adv_placed(book, c);
    let t = adv_taker(c);
    let makers = book.side(c.action.flip());
    assert(out == adv_enter(book, c));
    lemma_enter(book, c);
    lemma_match_fills(c.action.flip(), makers, t, c.size as int);
    if available(makers, t) < c.size {
    } else {
        let m = match_queue(makers, t, c.size as int);
        assert(m.filled == c.size);
        book.lemma_volumes();
        law_match_conserves_quantity(makers, t, c.size as int);
        law_trades_within_limit(makers, t, c.size as int);
        assert(out.events =~= m.events);
    }
}

/// A post-only order never trades: its events hold no trade, and they are
/// either none or one reject event of its full size.
pub proof fn law_post_only(book: BookModel, c: Order)
    requires
        book.wf(),
        c.order_type == OrderType::PostOnly,
    ensures
        ({
            let out = adv_placed(book, c);
            &&& forall|i: int|
                0 <= i < out.events.len() ==> (#[trigger] out.events[i]).event_type
                    != MatcherEventType::Trade
            &&& out.events.len() == 0 || out.events == seq![
                MatcherTradeEvent::rejection(c.size, c.price, c.held_at()),
            ]
        }),
{
    let out = adv_placed(book, c);
    if crosses(book, c) {
    } else {
        let t = adv_taker(c);
        let makers = book.side(c.action.flip());
        let m = match_queue(makers, t, c.size as int);
        assert(m.events =~= Seq::<MatcherTradeEvent>::empty());
        assert(m.filled == 0);
        assert(out == adv_enter(book, c));
        assert(out.events =~= if book.knows(c.order_id) && 0 < c.size {
            seq![MatcherTradeEvent::rejection(c.size, c.price, c.held_at())]
        } else {
            Seq::<MatcherTradeEvent>::empty()
        });
    }
}

/// The kinds of book agree: on a book without stop orders, an order that is
/// good till cancel or immediate or cancel, without advertised size and
/// expiry time, gets the same events and result and leaves the same asks
/// and bids, whatever the kind of the book.
pub proof fn law_books_agree(kind: BookKind, book: BookModel, c: Order)
    requires
        book.wf(),
        book.stops.len() == 0,
        c.order_type == OrderType::Gtc || c.order_type == OrderType::Ioc,
        c.visible_size.is_none(),
        c.expire_time.is_none(),
    ensures
        placed_by(kind, book, c).events == placed_by(BookKind::Naive, book, c).events,
        placed_by(kind, book, c).code == placed_by(BookKind::Naive, book, c).code,
        placed_by(kind, book, c).action == placed_by(BookKind::Naive, book, c).action,
        placed_by(kind, book, c).book.asks == placed_by(BookKind::Naive, book, c).book.asks,
        placed_by(kind, book, c).book.bids == placed_by(BookKind::Naive, book, c).book.bids,
{
    if kind == BookKind::Advanced {
        let makers = book.side(c.action.flip());
        let m = match_queue(makers, adv_taker(c), c.size as int);
        assert(adv_taker(c) == crate::orderbook::rules::taker_of(c));
        assert(placed_by(kind, book, c) == adv_enter(book, c));
        let b1 = book.with_side(c.action.flip(), m.makers);
        assert(b1.stops =~= Seq::<Order>::empty());
        if m.filled > 0 && m.events.len() > 0 {
            let last = m.events.last().price;
            assert(crate::orderbook::advanced::fired(b1.stops, last) =~= Seq::<Order>::empty());
            assert(crate::orderbook::advanced::waiting(b1.stops, last) =~= Seq::<Order>::empty());
        }
        assert(crate::orderbook::rules::resting_order(c, m.filled, true)
            == crate::orderbook::rules::resting_order(c, m.filled, false));
    }
}

/// Sum of the amounts of the payments `ks` in currency `currency`.
pub open spec fn paid_in(ks: Seq<Credit>, currency: crate::api::types::Currency) -> int
    decreases ks.len(),
{
    if ks.len() == 0 {
        0
    } else {
        (if ks[0].currency == currency {
            ks[0].amount
        } else {
            0
        }) + paid_in(ks.drop_first(), currency)
    }
}

/// Settlement of a trade moves no value but the fee: where base and quote
/// currency differ, buyer and seller together get, in the quote currency,
/// the escrow that the buyer put up for the traded size less the seller's
/// fee, and in the base currency the traded size that the seller put up.
pub proof fn law_settlement_balances(
    buyer: UserId,
    seller: UserId,
    ev: MatcherTradeEvent,
    s: CoreSymbolSpecification,
    fee: i64,
)
    requires
        s.base_currency != s.quote_currency,
    ensures
        paid_in(
            buyer_credits(buyer, ev, s) + seller_credits(seller, ev, s, fee),
            s.quote_currency,
        ) == ev.size * ev.bidder_hold_price * s.quote_scale_k - ev.size * fee,
        paid_in(
            buyer_credits(buyer, ev, s) + seller_credits(seller, ev, s, fee),
            s.base_currency,
        ) == ev.size * s.base_scale_k,
{
    let ks = buyer_credits(buyer, ev, s) + seller_credits(seller, ev, s, fee);
    reveal_with_fuel(paid_in, 4);
    assert(ks.len() == 3);
    assert(ks.drop_first().drop_first().drop_first() =~= Seq::<Credit>::empty());
    assert(ks[0] == buyer_credits(buyer, ev, s)[0]);
    assert(ks.drop_first()[0] == buyer_credits(buyer, ev, s)[1]);
    assert(ks.drop_first().drop_first()[0] == seller_credits(seller, ev, s, fee)[0]);
    let size = ev.size as int;
    let hold = ev.bidder_hold_price as int;
    let price = ev.price as int;
    let k = s.quote_scale_k as int;
    assert(size * (hold - price) * k + size * price * k == size * hold * k) by (nonlinear_arith);
}

/// Settlement of one trade of a bid, in a shard that owns both users: the
/// buyer gets back the escrow above the trade price and gets the traded size
/// in the base currency, the seller gets the trade's value less the maker
/// fee, and no other balance changes. With the collateral that the two put
/// up before, the buyer for a bid `c` of the traded size and the seller for
/// an ask `a` of the traded size, the quote currency loses the two fees and
/// the base currency nothing.
pub proof fn law_trade_settles(m: RiskModel, c: OrderCommand, a: OrderCommand, ev: MatcherTradeEvent)
    requires
        m.symbols.contains_key(c.symbol),
        m.symbols[c.symbol].base_currency != m.symbols[c.symbol].quote_currency,
        c.action == OrderAction::Bid,
        c.matcher_events@ == seq![ev],
        ev.event_type == MatcherEventType::Trade,
        c.uid != ev.matched_order_uid,
        m.ledger.contains_key(c.uid),
        m.ledger.contains_key(ev.matched_order_uid),
        post_fits(m, c, 0, 0),
        a.action == OrderAction::Ask,
        a.size == ev.size,
    ensures
        ({
            let s = m.symbols[c.symbol];
            let after = post_processed(m, c, 0, 0).0;
            let seller = ev.matched_order_uid;
            let n = ev.size as int;
            let refund = n * (ev.bidder_hold_price - ev.price) * s.quote_scale_k;
            let value = n * ev.price * s.quote_scale_k - n * s.maker_fee;
            &&& post_processed(m, c, 0, 0).1 == CommandResultCode::Success
            &&& after.dom() == m.ledger.dom()
            &&& balance_of(after, c.uid, s.quote_currency) == balance_of(
                m.ledger,
                c.uid,
                s.quote_currency,
            ) + refund
            &&& balance_of(after, c.uid, s.base_currency) == balance_of(
                m.ledger,
                c.uid,
                s.base_currency,
            ) + n * s.base_scale_k
            &&& balance_of(after, seller, s.quote_currency) == balance_of(
                m.ledger,
                seller,
                s.quote_currency,
            ) + value
            &&& balance_of(after, seller, s.base_currency) == balance_of(
                m.ledger,
                seller,
                s.base_currency,
            )
            &&& forall|u: UserId, k: Currency|
                (u != c.uid && u != seller) || (k != s.quote_currency && k != s.base_currency)
                    ==> #[trigger] balance_of(after, u, k) == balance_of(m.ledger, u, k)
            &&& c.size == ev.size && price_for_hold(c) == ev.bidder_hold_price ==> refund + value
                - hold_amount(c, s) == -(n * s.taker_fee + n * s.maker_fee)
            &&& n * s.base_scale_k - hold_amount(a, s) == 0
        }),
{
    let s = m.symbols[c.symbol];
    let seller = ev.matched_order_uid;
    let ks = all_credits(c, c.matcher_events@, s, 0, 0);
    let b = buyer_credits(c.uid, ev, s);
    let v = seller_credits(seller, ev, s, s.maker_fee);
    reveal_with_fuel(all_credits, 2);
    reveal_with_fuel(paid_all, 4);
    reveal_with_fuel(pay_fits, 4);
    assert(c.matcher_events@.drop_first() =~= Seq::<MatcherTradeEvent>::empty());
    assert(ks =~= b + v);
    assert(ks.len() == 3);
    assert(ks[0] == b[0] && ks[1] == b[1] && ks[2] == v[0]);
    assert(ks.drop_first()[0] == ks[1]);
    assert(ks.drop_first().drop_first()[0] == ks[2]);
    assert(ks.drop_first().drop_first().drop_first() =~= Seq::<Credit>::empty());
    let after = post_processed(m, c, 0, 0).0;
    assert(after.dom() =~= m.ledger.dom());
    let n = ev.size as int;
    let h = ev.bidder_hold_price as int;
    let p = ev.price as int;
    let q = s.quote_scale_k as int;
    assert(n * (h - p) * q + n * p * q == n * h * q) by (nonlinear_arith);
}

/// A reject of the whole order gives back what the pre-trade check took
/// for it: the size at the hold price plus the taker fee for a bid, the size
/// for an ask. After the check and the settlement of the reject event that
/// the books write for the whole order, every balance is what it was.
pub proof fn law_reject_restores(m: RiskModel, c: OrderCommand, ev: MatcherTradeEvent)
    requires
        risk_checked(m, c).1 == CommandResultCode::ValidForMatchingEngine,
        check_fits(m, c),
        c.size > 0,
        c.matcher_events@ == seq![ev],
        ev == MatcherTradeEvent::rejection(c.size, c.price, price_for_hold(c)),
    ensures
        ({
            let s = m.symbols[c.symbol];
            let held = RiskModel { ledger: risk_checked(m, c).0, ..m };
            &&& rejected(entry_of(c), 0) == seq![ev]
            &&& refund_credits(c.uid, ev, s, c.action == OrderAction::Ask) == seq![
                Credit { uid: c.uid, currency: hold_currency(c, s), amount: hold_amount(c, s) },
            ]
            &&& post_fits(held, c, 0, 0)
            &&& forall|u: UserId, k: Currency| #[trigger]
                balance_of(post_processed(held, c, 0, 0).0, u, k) == balance_of(m.ledger, u, k)
        }),
{
    let s = m.symbols[c.symbol];
    let held = RiskModel { ledger: risk_checked(m, c).0, ..m };
    let ks = all_credits(c, c.matcher_events@, s, 0, 0);
    reveal_with_fuel(all_credits, 2);
    reveal_with_fuel(paid_all, 2);
    reveal_with_fuel(pay_fits, 2);
    assert(c.matcher_events@.drop_first() =~= Seq::<MatcherTradeEvent>::empty());
    let back = refund_credits(c.uid, ev, s, c.action == OrderAction::Ask);
    assert(ks =~= back);
    assert(back =~= seq![
        Credit { uid: c.uid, currency: hold_currency(c, s), amount: hold_amount(c, s) },
    ]);
    assert(ks.drop_first() =~= Seq::<Credit>::empty());
}

/// The makers of `q` that have not expired at time `now`, in their order.
pub open spec fn unexpired(q: Seq<Order>, now: i64) -> Seq<Order>
    decreases q.len(),
{
    if q.len() == 0 {
        Seq::empty()
    } else if q[0].expired_at(now) {
        unexpired(q.drop_first(), now)
    } else {
        seq![q[0]] + unexpired(q.drop_first(), now)
    }
}

/// Dropping the expired makers keeps a side in priority order.
pub proof fn lemma_unexpired_in_priority(side: OrderAction, q: Seq<Order>, now: i64)
    requires
        in_priority(side, q),
    ensures
        in_priority(side, unexpired(q, now)),
        forall|i: int|
            0 <= i < unexpired(q, now).len() ==> exists|j: int|
                0 <= j < q.len() && q[j] == #[trigger] unexpired(q, now)[i],
    decreases q.len(),
{
    if q.len() > 0 {
        let rest = q.drop_first();
        let u = unexpired(q, now);
        let v = unexpired(rest, now);
        assert forall|i: int, j: int| 0 <= i < j < rest.len() implies ahead(
            side,
            (#[trigger] rest[i]).price,
            (#[trigger] rest[j]).price,
        ) by {
            assert(rest[i] == q[i + 1]);
            assert(rest[j] == q[j + 1]);
        }
        lemma_unexpired_in_priority(side, rest, now);
        assert forall|i: int| 0 <= i < v.len() implies exists|j: int|
            1 <= j < q.len() && q[j] == #[trigger] v[i] by {
            let j = choose|j: int| 0 <= j < rest.len() && rest[j] == v[i];
            assert(q[j + 1] == v[i]);
        }
        if q[0].expired_at(now) {
            assert(u == v);
        } else {
            assert(u =~= seq![q[0]] + v);
            assert forall|i: int| 0 <= i < u.len() implies exists|j: int|
                0 <= j < q.len() && q[j] == #[trigger] u[i] by {
                if i > 0 {
                    assert(u[i] == v[i - 1]);
                    let j = choose|j: int| 1 <= j < q.len() && q[j] == v[i - 1];
                    assert(q[j] == u[i]);
                } else {
                    assert(q[0] == u[0]);
                }
            }
            assert forall|i: int, j: int| 0 <= i < j < u.len() implies ahead(
                side,
                (#[trigger] u[i]).price,
                (#[trigger] u[j]).price,
            ) by {
                assert(u[j] == v[j - 1]);
                if i > 0 {
                    assert(u[i] == v[i - 1]);
                } else {
                    let k = choose|k: int| 1 <= k < q.len() && q[k] == v[j - 1];
                    assert(ahead(side, q[0].price, q[k].price));
                }
            }
        }
    }
}

/// First come, first served: the trades of a match are with the makers that
/// have not expired, one trade with each, in the order in which they stand,
/// from the first on; each trade is at its maker's price, which the taker
/// accepts, and every trade but the last takes all that is left of its
/// maker.
pub proof fn law_trades_first_come(makers: Seq<Order>, t: Taker, want: int)
    requires
        forall|i: int| 0 <= i < makers.len() ==> (#[trigger] makers[i]).live(),
    ensures
        ({
            let r = match_queue(makers, t, want);
            let u = unexpired(makers, t.now);
            &&& r.events.len() <= u.len()
            &&& forall|i: int|
                0 <= i < r.events.len() ==> #[trigger] r.events[i] == t.trade_with(
                    u[i],
                    r.events[i].size as int,
                ) && t.accepts(u[i].price) && 0 < r.events[i].size <= u[i].left()
            &&& forall|i: int|
                0 <= i < r.events.len() - 1 ==> (#[trigger] r.events[i]).size == u[i].left()
        }),
    decreases makers.len(),
{
    let r = match_queue(makers, t, want);
    let u = unexpired(makers, t.now);
    if want <= 0 || makers.len() == 0 || !t.accepts(makers[0].price) {
    } else {
        let m = makers[0];
        let rest = makers.drop_first();
        let v = unexpired(rest, t.now);
        assert(m.live());
        assert forall|i: int| 0 <= i < rest.len() implies (#[trigger] rest[i]).live() by {
            assert(rest[i] == makers[i + 1]);
        }
        let traded = min_int(want, m.left());
        if m.expired_at(t.now) {
            law_trades_first_come(rest, t, want);
            assert(r.events =~= match_queue(rest, t, want).events);
        } else if traded == m.left() {
            law_trades_first_come(rest, t, want - traded);
            let rr = match_queue(rest, t, want - traded);
            assert(r.events =~= seq![t.trade_with(m, traded)] + rr.events);
            assert(u =~= seq![m] + v);
            assert forall|i: int| 0 <= i < r.events.len() implies #[trigger] r.events[i]
                == t.trade_with(u[i], r.events[i].size as int) && t.accepts(u[i].price) && 0
                < r.events[i].size <= u[i].left() by {
                if i > 0 {
                    assert(r.events[i] == rr.events[i - 1]);
                    assert(u[i] == v[i - 1]);
                }
            }
            assert forall|i: int| 0 <= i < r.events.len() - 1 implies (#[trigger] r.events[i]).size
                == u[i].left() by {
                if i > 0 {
                    assert(r.events[i] == rr.events[i - 1]);
                    assert(u[i] == v[i - 1]);
                }
            }
        } else {
            assert(r.events =~= seq![t.trade_with(m, traded)]);
            assert(u =~= seq![m] + v);
        }
    }
}

/// The trades of a match come in price order, best price first: for a bid
/// the prices do not fall from one event to the next, for an ask they do not
/// rise. Within one price they come in the order of the makers, see
/// [`law_trades_first_come`].
pub proof fn law_prices_in_order(side: OrderAction, makers: Seq<Order>, t: Taker, want: int)
    requires
        all_live(side, makers),
        in_priority(side, makers),
    ensures
        forall|a: int, b: int|
            0 <= a < b < match_queue(makers, t, want).events.len() ==> ahead(
                side,
                (#[trigger] match_queue(makers, t, want).events[a]).price,
                (#[trigger] match_queue(makers, t, want).events[b]).price,
            ),
{
    let r = match_queue(makers, t, want);
    let u = unexpired(makers, t.now);
    law_trades_first_come(makers, t, want);
    lemma_unexpired_in_priority(side, makers, t.now);
    assert forall|a: int, b: int| 0 <= a < b < r.events.len() implies ahead(
        side,
        (#[trigger] r.events[a]).price,
        (#[trigger] r.events[b]).price,
    ) by {
        assert(r.events[a].price == u[a].price);
        assert(r.events[b].price == u[b].price);
    }
}

/// A match leaves the makers beyond the taker's limit as they are: each
/// stands in what is left of the side, behind the makers that stay and
/// unchanged.
pub proof fn law_beyond_limit_untouched(makers: Seq<Order>, t: Taker, want: int)
    requires
        forall|i: int| 0 <= i < makers.len() ==> (#[trigger] makers[i]).live(),
    ensures
        ({
            let r = match_queue(makers, t, want);
            let k = makers.len() - r.makers.len();
            &&& 0 <= k
            &&& forall|j: int|
                0 <= j < makers.len() && !t.accepts((#[trigger] makers[j]).price) ==> k <= j
                    && r.makers[j - k] == makers[j]
        }),
    decreases makers.len(),
{
    let r = match_queue(makers, t, want);
    if want <= 0 || makers.len() == 0 || !t.accepts(makers[0].price) {
    } else {
        let m = makers[0];
        let rest = makers.drop_first();
        assert forall|i: int| 0 <= i < rest.len() implies (#[trigger] rest[i]).live() by {
            assert(rest[i] == makers[i + 1]);
        }
        let traded = min_int(want, m.left());
        if m.expired_at(t.now) || traded == m.left() {
            let w = if m.expired_at(t.now) {
                want
            } else {
                want - traded
            };
            law_beyond_limit_untouched(rest, t, w);
            let rr = match_queue(rest, t, w);
            assert(r.makers == rr.makers);
            let k = makers.len() - r.makers.len();
            assert forall|j: int|
                0 <= j < makers.len() && !t.accepts((#[trigger] makers[j]).price) implies k <= j
                && r.makers[j - k] == makers[j] by {
                assert(rest[j - 1] == makers[j]);
            }
        } else {
        }
    }
}

/// A move keeps the book valid, so that every resting order still has no
/// less than nothing and less than its size filled. The trades of the move
/// sum to no more than was left of the moved order. If the order still
/// rests, it rests at the new price with its size as before and with the
/// sum of the trades added to what of it was filled; if not, the trades sum
/// to all that was left of it.
pub proof fn law_move_keeps_size(book: BookModel, cmd: Order, spot: bool)
    requires
        book.wf(),
        moved(book, cmd, spot).code == CommandResultCode::Success,
    ensures
        ({
            let out = moved(book, cmd, spot);
            let o = book.order(cmd.order_id);
            &&& out.book.wf()
            &&& 0 <= traded_total(out.events) <= o.left()
            &&& out.book.rests(cmd.order_id) ==> {
                &&& out.book.order(cmd.order_id).size == o.size
                &&& out.book.order(cmd.order_id).filled == o.filled + traded_total(out.events)
                &&& out.book.order(cmd.order_id).price == cmd.price
            }
            &&& !out.book.rests(cmd.order_id) ==> traded_total(out.events) == o.left()
        }),
{
    let id = cmd.order_id;
    let out = moved(book, cmd, spot);
    let o = book.order(id);
    let lifted = book.without(id);
    let side = o.action.flip();
    let t = mover(o, cmd);
    let m = match_queue(lifted.side(side), t, o.left());
    let taken = lifted.with_side(side, m.makers);
    lemma_position(book.asks, id);
    lemma_position(book.bids, id);
    lemma_book_without(book, id);
    lemma_book_after_match(lifted, side, t, o.left());
    lifted.lemma_volumes();
    law_match_conserves_quantity(lifted.side(side), t, o.left());
    assert(!taken.locator().contains_key(id));
    assert(!taken.knows(id));
    if m.filled < o.left() {
        let again = Order { price: cmd.price, filled: (o.filled + m.filled) as i64, ..o };
        let q = taken.side(o.action);
        lemma_book_after_rest(taken, again);
        let at = rest_at(o.action, q, cmd.price);
        let done = with_resting(taken, again);
        assert(done.side(o.action) == q.insert(at, again));
        assert(done.side(o.action)[at] == again);
        lemma_spot(done.side(o.action), at);
    } else {
        assert(out.book == taken);
    }
}

/// A post-only order that would trade at once is turned away: one reject
/// event of its full size, the book untouched. One that would not, of a
/// positive size and under an id that the book does not know, gets no event
/// and rests whole at its price, behind every order of its side at that
/// price or a better one and before every order at a worse one.
pub proof fn law_post_only_rests(book: BookModel, c: Order)
    requires
        book.wf(),
        c.order_type == OrderType::PostOnly,
    ensures
        crosses(book, c) ==> adv_placed(book, c).book == book && adv_placed(book, c).events
            == seq![MatcherTradeEvent::rejection(c.size, c.price, c.held_at())],
        !crosses(book, c) && !book.knows(c.order_id) && c.size > 0 ==> {
            let out = adv_placed(book, c);
            let q = book.side(c.action);
            let at = rest_at(c.action, q, c.price);
            let o = resting_order(c, 0, true);
            &&& out.events.len() == 0
            &&& out.code == CommandResultCode::Success
            &&& out.book.side(c.action) == q.insert(at, o)
            &&& out.book.side(c.action.flip()) == book.side(c.action.flip())
            &&& out.book.stops == book.stops
            &&& o.price == c.price && o.left() == c.size && o.order_id == c.order_id
            &&& 0 <= at <= q.len()
            &&& forall|i: int| 0 <= i < at ==> ahead(c.action, (#[trigger] q[i]).price, c.price)
            &&& forall|i: int|
                at <= i < q.len() ==> !ahead(c.action, (#[trigger] q[i]).price, c.price)
        },
{
    if !crosses(book, c) && !book.knows(c.order_id) && c.size > 0 {
        let out = adv_placed(book, c);
        let t = adv_taker(c);
        let makers = book.side(c.action.flip());
        let m = match_queue(makers, t, c.size as int);
        assert(m == crate::orderbook::model::MatchOutcome::idle(makers));
        assert(out == adv_enter(book, c));
        assert(book.with_side(c.action.flip(), makers) == book);
        lemma_rest_at(c.action, book.side(c.action), c.price);
    }
}

} // verus!
