use crate::api::events::MatcherTradeEvent;
use crate::api::types::{OrderAction, OrderId, OrderType, Price, Size, UserId};
use vstd::prelude::*;

verus! {

/// An order as a book holds it: resting in a price level or waiting in the
/// stop pool.
#[derive(Debug, Clone, Copy, PartialEq, Eq, Structural)]
pub struct Order {
    pub order_id: OrderId,
    pub uid: UserId,
    pub price: Price,
    /// Size at entry.
    pub size: Size,
    /// Quantity traded so far.
    pub filled: Size,
    pub action: OrderAction,
    pub order_type: OrderType,
    /// The bidder's highest acceptable price, which sized the escrow.
    pub reserve_price: Price,
    pub timestamp: i64,
    pub stop_price: Option<Price>,
    pub visible_size: Option<Size>,
    pub expire_time: Option<i64>,
}

impl Order {
    /// Quantity not yet traded.
    pub open spec fn left(self) -> int {
        self.size - self.filled
    }

    /// An advertised size, if any, is not negative.
    pub open spec fn shown_ok(self) -> bool {
        self.visible_size matches Some(v) ==> v >= 0
    }

    /// Validity of an order that a book holds: something is left of it, and
    /// an advertised size, if any, is not negative.
    pub open spec fn live(self) -> bool {
        &&& 0 <= self.filled < self.size
        &&& self.shown_ok()
    }

    /// Quantity advertised in market depth.
    pub open spec fn shown(self) -> int {
        match self.visible_size {
            Some(v) => if v < self.left() {
                v as int
            } else {
                self.left()
            },
            None => self.left(),
        }
    }

    /// The order no longer trades at time `now`.
    pub open spec fn expired_at(self, now: i64) -> bool {
        self.expire_time matches Some(t) && now > t
    }

    /// The price at which the escrow of a bid was taken: the price field
    /// for budget orders, else the reserve price.
    pub open spec fn held_at(self) -> Price {
        if self.order_type.is_budget() {
            self.price
        } else {
            self.reserve_price
        }
    }

    /// The order after `traded` more units of it have traded.
    pub open spec fn fill(self, traded: int) -> Order {
        Order { filled: (self.filled + traded) as i64, ..self }
    }

    pub fn remaining(&self) -> (r: Size)
        requires
            0 <= self.filled <= self.size,
        ensures
            r == self.left(),
    {
        self.size - self.filled
    }

    /// Advertised quantity, see [`Order::shown`].
    pub fn visible(&self) -> (r: Size)
        requires
            0 <= self.filled <= self.size,
        ensures
            r == self.shown(),
    {
        let left: i64 = self.size - self.filled;
        match self.visible_size {
            Some(v) => if v < left {
                v
            } else {
                left
            },
            None => left,
        }
    }

    /// See [`Order::held_at`].
    pub fn hold_price(&self) -> (r: Price)
        ensures
            r == self.held_at(),
    {
        if self.order_type.budget() {
            self.price
        } else {
            self.reserve_price
        }
    }

    pub fn is_expired(&self, now: i64) -> (r: bool)
        ensures
            r == self.expired_at(now),
    {
        match self.expire_time {
            Some(t) => now > t,
            None => false,
        }
    }
}

/// The incoming side of a match.
#[derive(Debug, Clone, Copy, PartialEq, Eq, Structural)]
pub struct Taker {
    pub action: OrderAction,
    /// Worst acceptable price; `None` for budget orders, which take any price.
    pub limit: Option<Price>,
    pub reserve_price: Price,
    /// Time against which makers' expiry is judged.
    pub now: i64,
}

impl Taker {
    /// A maker at `price` is acceptable to this taker.
    pub open spec fn accepts(self, price: Price) -> bool {
        match self.limit {
            None => true,
            Some(limit) => match self.action {
                OrderAction::Bid => price <= limit,
                OrderAction::Ask => price >= limit,
            },
        }
    }

    /// The trade event of `traded` units against maker `m`.
    pub open spec fn trade_with(self, m: Order, traded: int) -> MatcherTradeEvent {
        MatcherTradeEvent::trade(
            traded as i64,
            m.price,
            m.order_id,
            m.uid,
            if self.action == OrderAction::Bid {
                self.reserve_price
            } else {
                m.reserve_price
            },
        )
    }

    pub fn takes(&self, price: Price) -> (r: bool)
        ensures
            r == self.accepts(price),
    {
        match self.limit {
            None => true,
            Some(limit) => match self.action {
                OrderAction::Bid => price <= limit,
                OrderAction::Ask => price >= limit,
            },
        }
    }
}

/// What one taker does to one side of a book.
pub ghost struct MatchOutcome {
    /// The side afterwards.
    pub makers: Seq<Order>,
    /// Trade events, in the order in which they happened.
    pub events: Seq<MatcherTradeEvent>,
    /// Quantity that the taker traded.
    pub filled: int,
    /// Ids of the makers that left the side, filled or expired.
    pub gone: Seq<OrderId>,
}

impl MatchOutcome {
    pub open spec fn idle(makers: Seq<Order>) -> MatchOutcome {
        MatchOutcome { makers, events: Seq::empty(), filled: 0, gone: Seq::empty() }
    }

    /// This outcome followed by `next`, which started from `self.makers`.
    pub open spec fn then_with(self, next: MatchOutcome) -> MatchOutcome {
        MatchOutcome {
            makers: next.makers,
            events: self.events + next.events,
            filled: self.filled + next.filled,
            gone: self.gone + next.gone,
        }
    }
}

pub open spec fn min_int(a: int, b: int) -> int {
    if a < b {
        a
    } else {
        b
    }
}

/// Price-time matching of a taker that still wants `want` units against
/// `makers`, which stand in priority order. The walk ends when the taker is
/// done, the side is empty or its first maker's price is unacceptable. An
/// expired maker is dropped without an event.
pub open spec fn match_queue(makers: Seq<Order>, t: Taker, want: int) -> MatchOutcome
    decreases makers.len(),
{
    if want <= 0 || makers.len() == 0 || !t.accepts(makers[0].price) {
        MatchOutcome::idle(makers)
    } else {
        let m = makers[0];
        if m.expired_at(t.now) {
            MatchOutcome {
                makers: Seq::empty(),
                events: Seq::empty(),
                filled: 0,
                gone: seq![m.order_id],
            }.then_with(match_queue(makers.drop_first(), t, want))
        } else {
            let traded = min_int(want, m.left());
            if traded == m.left() {
                MatchOutcome {
                    makers: Seq::empty(),
                    events: seq![t.trade_with(m, traded)],
                    filled: traded,
                    gone: seq![m.order_id],
                }.then_with(match_queue(makers.drop_first(), t, want - traded))
            } else {
                MatchOutcome {
                    makers: makers.update(0, m.fill(traded)),
                    events: seq![t.trade_with(m, traded)],
                    filled: traded,
                    gone: Seq::empty(),
                }
            }
        }
    }
}

/// Sum of `f` over a side.
pub open spec fn sum_by(q: Seq<Order>, f: spec_fn(Order) -> int) -> int
    decreases q.len(),
{
    if q.len() == 0 {
        0
    } else {
        f(q[0]) + sum_by(q.drop_first(), f)
    }
}

/// The measure of [`queue_volume`].
pub open spec fn left_fn() -> spec_fn(Order) -> int {
    |o: Order| o.left()
}

/// The measure of [`queue_visible`].
pub open spec fn shown_fn() -> spec_fn(Order) -> int {
    |o: Order| o.shown()
}

/// The measure of [`level_volume`].
pub open spec fn level_left_fn(price: Price) -> spec_fn(Order) -> int {
    |o: Order| if o.price == price { o.left() } else { 0 }
}

/// The measure of [`level_visible`].
pub open spec fn level_shown_fn(price: Price) -> spec_fn(Order) -> int {
    |o: Order| if o.price == price { o.shown() } else { 0 }
}

/// The measure of [`available`].
pub open spec fn available_fn(t: Taker) -> spec_fn(Order) -> int {
    |o: Order| if t.accepts(o.price) && !o.expired_at(t.now) { o.left() } else { 0 }
}

/// Total quantity left on a side.
pub open spec fn queue_volume(q: Seq<Order>) -> int {
    sum_by(q, left_fn())
}

/// Total quantity advertised on a side.
pub open spec fn queue_visible(q: Seq<Order>) -> int {
    sum_by(q, shown_fn())
}

/// Quantity left at one price.
pub open spec fn level_volume(q: Seq<Order>, price: Price) -> int {
    sum_by(q, level_left_fn(price))
}

/// Quantity advertised at one price.
pub open spec fn level_visible(q: Seq<Order>, price: Price) -> int {
    sum_by(q, level_shown_fn(price))
}

/// Quantity that a taker could trade right now: what is left of the live
/// makers at acceptable prices. Expired makers are no liquidity.
pub open spec fn available(q: Seq<Order>, t: Taker) -> int {
    sum_by(q, available_fn(t))
}

/// Sum of the sizes of the trade events among `events`.
pub open spec fn traded_total(events: Seq<MatcherTradeEvent>) -> int
    decreases events.len(),
{
    if events.len() == 0 {
        0
    } else {
        (if events[0].event_type == crate::api::events::MatcherEventType::Trade {
            events[0].size as int
        } else {
            0
        }) + traded_total(events.drop_first())
    }
}

/// A maker at `maker_price` on side `side` goes before a newcomer at `price`.
pub open spec fn ahead(side: OrderAction, maker_price: Price, price: Price) -> bool {
    match side {
        OrderAction::Ask => maker_price <= price,
        OrderAction::Bid => maker_price >= price,
    }
}

/// `q` stands in price priority for `side`: asks ascending, bids descending.
pub open spec fn in_priority(side: OrderAction, q: Seq<Order>) -> bool {
    forall|i: int, j: int| 0 <= i < j < q.len() ==> ahead(side, #[trigger] q[i].price, #[trigger] q[j].price)
}

/// Every order of `q` is live and on side `side`.
pub open spec fn all_live(side: OrderAction, q: Seq<Order>) -> bool {
    forall|i: int| 0 <= i < q.len() ==> (#[trigger] q[i]).live() && q[i].action == side
}

/// No two orders of `q` share an id.
pub open spec fn ids_distinct(q: Seq<Order>) -> bool {
    forall|i: int, j: int|
        0 <= i < j < q.len() ==> (#[trigger] q[i]).order_id != (#[trigger] q[j]).order_id
}

/// Number of makers of `q` that go before a newcomer at `price`.
pub open spec fn rest_at(side: OrderAction, q: Seq<Order>, price: Price) -> int
    decreases q.len(),
{
    if q.len() == 0 || !ahead(side, q[0].price, price) {
        0
    } else {
        1 + rest_at(side, q.drop_first(), price)
    }
}

/// `q` with `o` resting in it: behind every maker at its price or better.
pub open spec fn rested(side: OrderAction, q: Seq<Order>, o: Order) -> Seq<Order> {
    q.insert(rest_at(side, q, o.price), o)
}

/// Position of the first order with id `id`, or `q.len()` if there is none.
pub open spec fn position_of(q: Seq<Order>, id: OrderId) -> int
    decreases q.len(),
{
    if q.len() == 0 || q[0].order_id == id {
        0
    } else {
        1 + position_of(q.drop_first(), id)
    }
}

pub open spec fn has_id(q: Seq<Order>, id: OrderId) -> bool {
    position_of(q, id) < q.len()
}

/// `q` without its first order of id `id`.
pub open spec fn without_id(q: Seq<Order>, id: OrderId) -> Seq<Order> {
    if has_id(q, id) {
        q.remove(position_of(q, id))
    } else {
        q
    }
}

/// The ids of `q`, in order.
pub open spec fn ids_of(q: Seq<Order>) -> Seq<OrderId> {
    q.map_values(|o: Order| o.order_id)
}

/// Distinct prices of a side in priority order.
pub open spec fn price_levels(q: Seq<Order>) -> Seq<Price>
    decreases q.len(),
{
    if q.len() == 0 {
        Seq::empty()
    } else if q.len() >= 2 && q[0].price == q[1].price {
        price_levels(q.drop_first())
    } else {
        seq![q[0].price] + price_levels(q.drop_first())
    }
}

/// Walks a side for `want` units, expired makers left out: the cost of
/// what can be taken, and how much is then still wanted.
pub open spec fn take_cost(q: Seq<Order>, now: i64, want: int) -> (int, int)
    decreases q.len(),
{
    if want <= 0 || q.len() == 0 {
        (0, want)
    } else if q[0].expired_at(now) {
        take_cost(q.drop_first(), now, want)
    } else {
        let taken = min_int(want, q[0].left());
        let (cost, still) = take_cost(q.drop_first(), now, want - taken);
        (taken * q[0].price + cost, still)
    }
}

/// Cost of taking `want` units from the front of `q`, expired makers left
/// out, or `None` where the side holds less than `want`.
pub open spec fn cost_to_fill(q: Seq<Order>, now: i64, want: int) -> Option<int> {
    let (cost, still) = take_cost(q, now, want);
    if still <= 0 {
        Some(cost)
    } else {
        None
    }
}

/// The budget test of a budget order: a bid must not cost more than its
/// budget, an ask must not bring less.
pub open spec fn budget_met(action: OrderAction, cost: int, budget: int) -> bool {
    match action {
        OrderAction::Bid => cost <= budget,
        OrderAction::Ask => cost >= budget,
    }
}

pub proof fn lemma_sum_by_concat(a: Seq<Order>, b: Seq<Order>, f: spec_fn(Order) -> int)
    ensures
        sum_by(a + b, f) == sum_by(a, f) + sum_by(b, f),
    decreases a.len(),
{
    if a.len() == 0 {
        assert(a + b =~= b);
    } else {
        assert((a + b).drop_first() =~= a.drop_first() + b);
        lemma_sum_by_concat(a.drop_first(), b, f);
    }
}

pub proof fn lemma_sum_by_one(o: Order, f: spec_fn(Order) -> int)
    ensures
        sum_by(seq![o], f) == f(o),
{
    assert(seq![o].drop_first() =~= Seq::<Order>::empty());
    assert(sum_by(seq![o].drop_first(), f) == 0);
}

pub proof fn lemma_sum_by_push(q: Seq<Order>, o: Order, f: spec_fn(Order) -> int)
    ensures
        sum_by(q.push(o), f) == sum_by(q, f) + f(o),
{
    assert(q.push(o) =~= q + seq![o]);
    lemma_sum_by_concat(q, seq![o], f);
    lemma_sum_by_one(o, f);
}

pub proof fn lemma_sum_by_split(q: Seq<Order>, i: int, f: spec_fn(Order) -> int)
    requires
        0 <= i < q.len(),
    ensures
        sum_by(q, f) == sum_by(q.subrange(0, i), f) + f(q[i]) + sum_by(q.subrange(i + 1, q.len() as int), f),
{
    let a = q.subrange(0, i);
    let b = q.subrange(i + 1, q.len() as int);
    assert(q =~= a + (seq![q[i]] + b));
    lemma_sum_by_concat(a, seq![q[i]] + b, f);
    lemma_sum_by_concat(seq![q[i]], b, f);
    lemma_sum_by_one(q[i], f);
}

pub proof fn lemma_sum_by_remove(q: Seq<Order>, i: int, f: spec_fn(Order) -> int)
    requires
        0 <= i < q.len(),
    ensures
        sum_by(q.remove(i), f) == sum_by(q, f) - f(q[i]),
{
    let a = q.subrange(0, i);
    let b = q.subrange(i + 1, q.len() as int);
    lemma_sum_by_split(q, i, f);
    assert(q.remove(i) =~= a + b);
    lemma_sum_by_concat(a, b, f);
}

pub proof fn lemma_sum_by_update(q: Seq<Order>, i: int, o: Order, f: spec_fn(Order) -> int)
    requires
        0 <= i < q.len(),
    ensures
        sum_by(q.update(i, o), f) == sum_by(q, f) - f(q[i]) + f(o),
{
    let u = q.update(i, o);
    lemma_sum_by_split(q, i, f);
    lemma_sum_by_split(u, i, f);
    assert(u.subrange(0, i) =~= q.subrange(0, i));
    assert(u.subrange(i + 1, u.len() as int) =~= q.subrange(i + 1, q.len() as int));
}

pub proof fn lemma_sum_by_insert(q: Seq<Order>, i: int, o: Order, f: spec_fn(Order) -> int)
    requires
        0 <= i <= q.len(),
    ensures
        sum_by(q.insert(i, o), f) == sum_by(q, f) + f(o),
{
    let u = q.insert(i, o);
    lemma_sum_by_remove(u, i, f);
    assert(u.remove(i) =~= q);
}

/// A sum of non-negative terms is not negative, and no term exceeds it.
pub proof fn lemma_sum_by_bounds(q: Seq<Order>, f: spec_fn(Order) -> int)
    requires
        forall|i: int| 0 <= i < q.len() ==> f(#[trigger] q[i]) >= 0,
    ensures
        sum_by(q, f) >= 0,
        forall|i: int| 0 <= i < q.len() ==> f(#[trigger] q[i]) <= sum_by(q, f),
    decreases q.len(),
{
    if q.len() > 0 {
        let r = q.drop_first();
        assert forall|i: int| 0 <= i < r.len() implies f(#[trigger] r[i]) >= 0 by {
            assert(r[i] == q[i + 1]);
        }
        lemma_sum_by_bounds(r, f);
        assert forall|i: int| 0 <= i < q.len() implies f(#[trigger] q[i]) <= sum_by(q, f) by {
            if i > 0 {
                assert(q[i] == r[i - 1]);
            }
        }
    }
}

/// Where `f` is nowhere above `g`, its sum is not above that of `g`.
pub proof fn lemma_sum_by_le(q: Seq<Order>, f: spec_fn(Order) -> int, g: spec_fn(Order) -> int)
    requires
        forall|i: int| 0 <= i < q.len() ==> f(#[trigger] q[i]) <= g(q[i]),
    ensures
        sum_by(q, f) <= sum_by(q, g),
    decreases q.len(),
{
    if q.len() > 0 {
        let r = q.drop_first();
        assert forall|i: int| 0 <= i < r.len() implies f(#[trigger] r[i]) <= g(r[i]) by {
            assert(r[i] == q[i + 1]);
        }
        lemma_sum_by_le(r, f, g);
    }
}

/// Of live orders the advertised total lies between zero and the total left.
pub proof fn lemma_visible_within_volume(q: Seq<Order>)
    requires
        forall|i: int| 0 <= i < q.len() ==> (#[trigger] q[i]).live(),
    ensures
        0 <= queue_visible(q) <= queue_volume(q),
        forall|i: int| 0 <= i < q.len() ==> (#[trigger] q[i]).left() <= queue_volume(q),
{
    assert forall|i: int| 0 <= i < q.len() implies shown_fn()(#[trigger] q[i]) >= 0 by {
        assert(q[i].live());
    }
    lemma_sum_by_bounds(q, shown_fn());
    assert forall|i: int| 0 <= i < q.len() implies shown_fn()(#[trigger] q[i]) <= left_fn()(q[i]) by {
        assert(q[i].live());
    }
    lemma_sum_by_le(q, shown_fn(), left_fn());
    assert forall|i: int| 0 <= i < q.len() implies left_fn()(#[trigger] q[i]) >= 0 by {
        assert(q[i].live());
    }
    lemma_sum_by_bounds(q, left_fn());
    assert forall|i: int| 0 <= i < q.len() implies (#[trigger] q[i]).left() <= queue_volume(q) by {
        assert(left_fn()(q[i]) <= sum_by(q, left_fn()));
    }
}

/// The taker ends a match done, out of makers, or before an unacceptable
/// price: matching again what is left changes nothing.
pub proof fn lemma_match_settles(makers: Seq<Order>, t: Taker, want: int)
    ensures
        ({
            let r = match_queue(makers, t, want);
            match_queue(r.makers, t, want - r.filled) == MatchOutcome::idle(r.makers)
        }),
    decreases makers.len(),
{
    if want <= 0 || makers.len() == 0 || !t.accepts(makers[0].price) {
    } else {
        let m = makers[0];
        if m.expired_at(t.now) {
            lemma_match_settles(makers.drop_first(), t, want);
        } else {
            let traded = min_int(want, m.left());
            if traded == m.left() {
                lemma_match_settles(makers.drop_first(), t, want - traded);
            }
        }
    }
}

/// Number of makers that a match takes off the front of the side.
pub open spec fn match_skip(makers: Seq<Order>, t: Taker, want: int) -> int {
    makers.len() - match_queue(makers, t, want).makers.len()
}

/// What a match leaves of a side is a tail of it, whose first order may have
/// traded in part; the taker trades no more than it wants and no more than
/// the side holds.
pub proof fn lemma_match_shape(makers: Seq<Order>, t: Taker, want: int)
    requires
        forall|i: int| 0 <= i < makers.len() ==> (#[trigger] makers[i]).live(),
    ensures
        ({
            let r = match_queue(makers, t, want);
            let k = match_skip(makers, t, want);
            &&& 0 <= k <= makers.len()
            &&& r.gone.len() == k
            &&& forall|i: int| 0 <= i < k ==> r.gone[i] == (#[trigger] makers[i]).order_id
            &&& forall|i: int| 1 <= i < r.makers.len() ==> #[trigger] r.makers[i] == makers[k + i]
            &&& r.makers.len() > 0 ==> {
                &&& r.makers[0] == makers[k].fill(r.makers[0].filled - makers[k].filled)
                &&& makers[k].filled <= r.makers[0].filled < makers[k].size
            }
            &&& 0 <= r.filled
            &&& want >= 0 ==> r.filled <= want
            &&& queue_volume(r.makers) <= queue_volume(makers) - r.filled
            &&& forall|i: int| 0 <= i < r.makers.len() ==> (#[trigger] r.makers[i]).live()
        }),
    decreases makers.len(),
{
    let r = match_queue(makers, t, want);
    if want <= 0 || makers.len() == 0 || !t.accepts(makers[0].price) {
        if makers.len() > 0 {
            assert(makers[0].live());
        }
    } else {
        let m = makers[0];
        let rest = makers.drop_first();
        assert(m.live());
        assert forall|i: int| 0 <= i < rest.len() implies (#[trigger] rest[i]).live() by {
            assert(rest[i] == makers[i + 1]);
        }
        assert(makers =~= seq![m] + rest);
        lemma_sum_by_concat(seq![m], rest, left_fn());
        lemma_sum_by_one(m, left_fn());
        let traded = min_int(want, m.left());
        if m.expired_at(t.now) || traded == m.left() {
            let w = if m.expired_at(t.now) { want } else { want - traded };
            lemma_match_shape(rest, t, w);
            let rr = match_queue(rest, t, w);
            let k = match_skip(rest, t, w);
            assert(r.makers == rr.makers);
            assert(r.gone =~= seq![m.order_id] + rr.gone);
            assert forall|i: int| 0 <= i < k + 1 implies r.gone[i] == (#[trigger] makers[i]).order_id by {
                if i > 0 {
                    assert(makers[i] == rest[i - 1]);
                    assert(r.gone[i] == rr.gone[i - 1]);
                }
            }
            assert forall|i: int| 1 <= i < r.makers.len() implies #[trigger] r.makers[i] == makers[k + 1 + i] by {
                assert(rr.makers[i] == rest[k + i]);
            }
            if r.makers.len() > 0 {
                assert(rest[k] == makers[k + 1]);
            }
        } else {
            let u = makers.update(0, m.fill(traded));
            assert(u =~= seq![m.fill(traded)] + rest);
            lemma_sum_by_concat(seq![m.fill(traded)], rest, left_fn());
            lemma_sum_by_one(m.fill(traded), left_fn());
            assert forall|i: int| 0 <= i < u.len() implies (#[trigger] u[i]).live() by {
                if i > 0 {
                    assert(u[i] == makers[i]);
                }
            }
        }
    }
}

/// `position_of` finds an id exactly where the side holds it.
pub proof fn lemma_position(q: Seq<Order>, id: OrderId)
    ensures
        0 <= position_of(q, id) <= q.len(),
        has_id(q, id) ==> q[position_of(q, id)].order_id == id,
        forall|k: int| 0 <= k < position_of(q, id) ==> (#[trigger] q[k]).order_id != id,
        has_id(q, id) <==> exists|k: int| 0 <= k < q.len() && (#[trigger] q[k]).order_id == id,
    decreases q.len(),
{
    if q.len() == 0 || q[0].order_id == id {
        if q.len() > 0 {
            assert(q[0].order_id == id);
        }
    } else {
        let r = q.drop_first();
        lemma_position(r, id);
        assert forall|k: int| 0 <= k < position_of(q, id) implies (#[trigger] q[k]).order_id
            != id by {
            if k > 0 {
                assert(q[k] == r[k - 1]);
            }
        }
        if has_id(q, id) {
            assert(q[position_of(q, id)] == r[position_of(r, id)]);
        }
        if exists|k: int| 0 <= k < q.len() && (#[trigger] q[k]).order_id == id {
            let k = choose|k: int| 0 <= k < q.len() && (#[trigger] q[k]).order_id == id;
            assert(r[k - 1] == q[k]);
        }
    }
}

/// Among distinct ids, an id stands where `position_of` says and nowhere
/// else.
pub proof fn lemma_position_unique(q: Seq<Order>, k: int)
    requires
        ids_distinct(q),
        0 <= k < q.len(),
    ensures
        position_of(q, q[k].order_id) == k,
        has_id(q, q[k].order_id),
{
    lemma_position(q, q[k].order_id);
    let p = position_of(q, q[k].order_id);
    if p < k {
        assert(q[p].order_id != q[k].order_id);
    }
}

/// An order with a new id keeps the ids distinct, wherever it is put.
pub proof fn lemma_insert_distinct(q: Seq<Order>, i: int, o: Order)
    requires
        ids_distinct(q),
        !has_id(q, o.order_id),
        0 <= i <= q.len(),
    ensures
        ids_distinct(q.insert(i, o)),
{
    lemma_position(q, o.order_id);
    let u = q.insert(i, o);
    assert forall|a: int, b: int| 0 <= a < b < u.len() implies (#[trigger] u[a]).order_id != (
    #[trigger] u[b]).order_id by {
        let a0 = if a < i { a } else { a - 1 };
        let b0 = if b < i { b } else { b - 1 };
        if a == i {
            assert(u[b] == q[b0]);
        } else if b == i {
            assert(u[a] == q[a0]);
        } else {
            assert(u[a] == q[a0]);
            assert(u[b] == q[b0]);
        }
    }
}

/// Taking an order out keeps the ids distinct, and its id is then absent.
pub proof fn lemma_remove_distinct(q: Seq<Order>, i: int)
    requires
        ids_distinct(q),
        0 <= i < q.len(),
    ensures
        ids_distinct(q.remove(i)),
        !has_id(q.remove(i), q[i].order_id),
{
    let u = q.remove(i);
    assert forall|a: int, b: int| 0 <= a < b < u.len() implies (#[trigger] u[a]).order_id != (
    #[trigger] u[b]).order_id by {
        let a0 = if a < i { a } else { a + 1 };
        let b0 = if b < i { b } else { b + 1 };
        assert(u[a] == q[a0]);
        assert(u[b] == q[b0]);
    }
    lemma_position(u, q[i].order_id);
    if has_id(u, q[i].order_id) {
        let k = position_of(u, q[i].order_id);
        let k0 = if k < i { k } else { k + 1 };
        assert(u[k] == q[k0]);
    }
}

/// What a match leaves keeps ids distinct, priority and liveness, and holds
/// no more than before.
pub proof fn lemma_match_keeps(side: OrderAction, makers: Seq<Order>, t: Taker, want: int)
    requires
        all_live(side, makers),
    ensures
        all_live(side, match_queue(makers, t, want).makers),
        ids_distinct(makers) ==> ids_distinct(match_queue(makers, t, want).makers),
        in_priority(side, makers) ==> in_priority(side, match_queue(makers, t, want).makers),
        queue_volume(match_queue(makers, t, want).makers) <= queue_volume(makers),
        forall|id: OrderId|
            has_id(match_queue(makers, t, want).makers, id) ==> has_id(makers, id),
{
    lemma_match_shape(makers, t, want);
    let r = match_queue(makers, t, want);
    let k = match_skip(makers, t, want);
    let u = r.makers;
    assert forall|i: int| 0 <= i < u.len() implies (#[trigger] u[i]).live() && u[i].action
        == side && u[i].order_id == makers[k + i].order_id && u[i].price == makers[k + i].price by {
        assert(makers[k + i].live());
        if i > 0 {
            assert(u[i] == makers[k + i]);
        }
    }
    if ids_distinct(makers) {
        assert forall|a: int, b: int| 0 <= a < b < u.len() implies (#[trigger] u[a]).order_id != (
        #[trigger] u[b]).order_id by {
            assert(makers[k + a].order_id != makers[k + b].order_id);
        }
    }
    if in_priority(side, makers) {
        assert forall|a: int, b: int| 0 <= a < b < u.len() implies ahead(
            side,
            (#[trigger] u[a]).price,
            (#[trigger] u[b]).price,
        ) by {
            assert(ahead(side, makers[k + a].price, makers[k + b].price));
        }
    }
    assert forall|id: OrderId| has_id(u, id) implies has_id(makers, id) by {
        lemma_position(u, id);
        lemma_position(makers, id);
        let p = position_of(u, id);
        assert(makers[k + p].order_id == id);
    }
}

/// Walking `a` followed by `b` is walking `a`, then `b` for what is still
/// wanted.
pub proof fn lemma_take_cost_concat(a: Seq<Order>, b: Seq<Order>, now: i64, want: int)
    ensures
        take_cost(a + b, now, want) == (
            take_cost(a, now, want).0 + take_cost(b, now, take_cost(a, now, want).1).0,
            take_cost(b, now, take_cost(a, now, want).1).1,
        ),
    decreases a.len(),
{
    if a.len() == 0 {
        assert(a + b =~= b);
    } else if want <= 0 {
    } else {
        assert((a + b)[0] == a[0]);
        assert((a + b).drop_first() =~= a.drop_first() + b);
        if a[0].expired_at(now) {
            lemma_take_cost_concat(a.drop_first(), b, now, want);
        } else {
            let taken = min_int(want, a[0].left());
            lemma_take_cost_concat(a.drop_first(), b, now, want - taken);
        }
    }
}

/// Where `f` and `g` agree on every order of `q`, their sums agree.
pub proof fn lemma_sum_by_same(q: Seq<Order>, f: spec_fn(Order) -> int, g: spec_fn(Order) -> int)
    requires
        forall|i: int| 0 <= i < q.len() ==> f(#[trigger] q[i]) == g(q[i]),
    ensures
        sum_by(q, f) == sum_by(q, g),
{
    lemma_sum_by_le(q, f, g);
    lemma_sum_by_le(q, g, f);
}

/// Where `f` is zero on every order of `q`, its sum is zero.
pub proof fn lemma_sum_by_zero(q: Seq<Order>, f: spec_fn(Order) -> int)
    requires
        forall|i: int| 0 <= i < q.len() ==> f(#[trigger] q[i]) == 0,
    ensures
        sum_by(q, f) == 0,
    decreases q.len(),
{
    if q.len() > 0 {
        let r = q.drop_first();
        assert forall|i: int| 0 <= i < r.len() implies f(#[trigger] r[i]) == 0 by {
            assert(r[i] == q[i + 1]);
        }
        lemma_sum_by_zero(r, f);
    }
}

/// A group of orders at one price, followed by orders that begin at another
/// price, adds one price level in front.
pub proof fn lemma_price_levels_group(g: Seq<Order>, rest: Seq<Order>, price: Price)
    requires
        g.len() > 0,
        forall|i: int| 0 <= i < g.len() ==> (#[trigger] g[i]).price == price,
        rest.len() > 0 ==> rest[0].price != price,
    ensures
        price_levels(g + rest) == seq![price] + price_levels(rest),
    decreases g.len(),
{
    let q = g + rest;
    assert(q[0] == g[0]);
    if g.len() == 1 {
        assert(q.drop_first() =~= rest);
        if q.len() >= 2 {
            assert(q[1] == rest[0]);
        }
    } else {
        assert(q[1] == g[1]);
        assert(q.drop_first() =~= g.drop_first() + rest);
        assert forall|i: int| 0 <= i < g.drop_first().len() implies (
        #[trigger] g.drop_first()[i]).price == price by {
            assert(g.drop_first()[i] == g[i + 1]);
        }
        lemma_price_levels_group(g.drop_first(), rest, price);
    }
}

pub proof fn lemma_rest_at_bounds(side: OrderAction, q: Seq<Order>, price: Price)
    ensures
        0 <= rest_at(side, q, price) <= q.len(),
    decreases q.len(),
{
    if q.len() == 0 || !ahead(side, q[0].price, price) {
    } else {
        lemma_rest_at_bounds(side, q.drop_first(), price);
    }
}

/// The makers ahead of a newcomer are exactly a prefix `a` of the side when
/// all of `a` go before it and what follows `a` does not.
pub proof fn lemma_rest_at_prefix(side: OrderAction, a: Seq<Order>, b: Seq<Order>, price: Price)
    requires
        forall|i: int| 0 <= i < a.len() ==> ahead(side, (#[trigger] a[i]).price, price),
        b.len() > 0 ==> !ahead(side, b[0].price, price),
    ensures
        rest_at(side, a + b, price) == a.len(),
    decreases a.len(),
{
    if a.len() == 0 {
        assert(a + b =~= b);
    } else {
        assert((a + b)[0] == a[0]);
        assert((a + b).drop_first() =~= a.drop_first() + b);
        assert forall|i: int| 0 <= i < a.drop_first().len() implies ahead(
            side,
            (#[trigger] a.drop_first()[i]).price,
            price,
        ) by {
            assert(a.drop_first()[i] == a[i + 1]);
        }
        lemma_rest_at_prefix(side, a.drop_first(), b, price);
    }
}

/// Matching against `a` followed by `b` is matching against `a`, then
/// against what is left of `a` followed by `b`.
pub proof fn lemma_match_concat(a: Seq<Order>, b: Seq<Order>, t: Taker, want: int)
    ensures
        ({
            let ra = match_queue(a, t, want);
            match_queue(a + b, t, want) == ra.then_with(
                match_queue(ra.makers + b, t, want - ra.filled),
            )
        }),
    decreases a.len(),
{
    let ra = match_queue(a, t, want);
    let rest = match_queue(ra.makers + b, t, want - ra.filled);
    let whole = match_queue(a + b, t, want);
    if a.len() == 0 {
        assert(a + b =~= b);
        assert(ra.makers + b =~= b);
        assert(whole.events =~= ra.events + rest.events);
        assert(whole.gone =~= ra.gone + rest.gone);
    } else if want <= 0 || !t.accepts(a[0].price) {
        assert((a + b)[0] == a[0]);
        assert(rest == MatchOutcome::idle(a + b));
        assert(whole.events =~= ra.events + rest.events);
        assert(whole.gone =~= ra.gone + rest.gone);
    } else {
        let m = a[0];
        assert((a + b)[0] == m);
        assert((a + b).drop_first() =~= a.drop_first() + b);
        if m.expired_at(t.now) {
            lemma_match_concat(a.drop_first(), b, t, want);
            let rd = match_queue(a.drop_first(), t, want);
            assert(ra.makers == rd.makers);
            assert(whole.events =~= ra.events + rest.events);
            assert(whole.gone =~= ra.gone + rest.gone);
        } else {
            let traded = min_int(want, m.left());
            if traded == m.left() {
                lemma_match_concat(a.drop_first(), b, t, want - traded);
                let rd = match_queue(a.drop_first(), t, want - traded);
                assert(ra.makers == rd.makers);
                assert(whole.events =~= ra.events + rest.events);
                assert(whole.gone =~= ra.gone + rest.gone);
            } else {
                assert(ra.makers + b =~= (a + b).update(0, m.fill(traded)));
                assert(want - ra.filled == 0);
                assert(whole.events =~= ra.events + rest.events);
                assert(whole.gone =~= ra.gone + rest.gone);
            }
        }
    }
}

} // verus!
