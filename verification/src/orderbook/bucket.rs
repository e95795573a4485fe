use crate::api::events::MatcherTradeEvent;
use crate::api::types::{OrderAction, OrderId, Price, Size};
use crate::orderbook::model::{
    available, available_fn, left_fn, lemma_position, lemma_sum_by_concat, lemma_sum_by_one,
    lemma_sum_by_push, take_cost, lemma_sum_by_remove, lemma_sum_by_update,
    lemma_visible_within_volume, match_queue, min_int, position_of, queue_visible, queue_volume,
    shown_fn, MatchOutcome, Order, Taker,
};
use crate::orderbook::queue::{
    queue_get, queue_len, queue_new, queue_orders, queue_push, queue_remove, queue_set, OrderQueue,
};
use vstd::prelude::*;

verus! {

/// Two to the power of 63: no price is further from zero.
pub const PRICE_SPAN: i128 = 0x8000_0000_0000_0000;

/// Two to the power of 126: no cost of at most 2^63 units is further from
/// zero.
pub const COST_SPAN: i128 = 0x4000_0000_0000_0000_0000_0000_0000_0000;

/// `taken` units at `price` cost no more than `taken` times the price span,
/// either way.
pub proof fn lemma_cost_bound(taken: int, price: int)
    requires
        0 <= taken,
        -PRICE_SPAN <= price < PRICE_SPAN,
    ensures
        -(taken * PRICE_SPAN) <= taken * price <= taken * PRICE_SPAN,
{
    assert(taken * price <= taken * PRICE_SPAN) by (nonlinear_arith)
        requires
            0 <= taken,
            price < PRICE_SPAN,
    ;
    assert(-(taken * PRICE_SPAN) <= taken * price) by (nonlinear_arith)
        requires
            0 <= taken,
            -PRICE_SPAN <= price,
    ;
}

/// One price level: the orders resting at one price, oldest first, with the
/// totals of what is left and of what is advertised.
#[derive(Debug)]
pub struct OrdersBucket {
    pub price: Price,
    pub orders: OrderQueue,
    pub total_volume: Size,
    pub visible_volume: Size,
}

impl View for OrdersBucket {
    type V = Seq<Order>;

    open spec fn view(&self) -> Seq<Order> {
        queue_orders(self.orders)
    }
}

impl OrdersBucket {
    /// Every order is live and at the level's price, and the two totals are
    /// the sums over the orders.
    pub open spec fn wf(&self) -> bool {
        &&& forall|i: int|
            0 <= i < self@.len() ==> (#[trigger] self@[i]).live() && self@[i].price == self.price
        &&& self.total_volume == queue_volume(self@)
        &&& self.visible_volume == queue_visible(self@)
    }

    pub proof fn lemma_totals(&self)
        requires
            self.wf(),
        ensures
            0 <= self.visible_volume <= self.total_volume,
            forall|i: int| 0 <= i < self@.len() ==> (#[trigger] self@[i]).left() <= self.total_volume,
            self@.len() > 0 ==> self.total_volume > 0,
    {
        lemma_visible_within_volume(self@);
        if self@.len() > 0 {
            assert(self@[0].live());
        }
    }

    pub fn new(price: Price) -> (b: Self)
        ensures
            b.wf(),
            b@.len() == 0,
            b.price == price,
    {
        let b = OrdersBucket { price, orders: queue_new(), total_volume: 0, visible_volume: 0 };
        assert(b@ =~= Seq::<Order>::empty());
        b
    }

    pub fn len(&self) -> (n: usize)
        ensures
            n == self@.len(),
    {
        queue_len(&self.orders)
    }

    pub fn get(&self, i: usize) -> (o: Order)
        requires
            i < self@.len(),
        ensures
            o == self@[i as int],
    {
        queue_get(&self.orders, i)
    }

    /// Appends `order` behind the orders already at this price.
    pub fn add(&mut self, order: Order)
        requires
            old(self).wf(),
            order.live(),
            order.price == old(self).price,
            old(self).total_volume + order.left() <= i64::MAX,
        ensures
            final(self).wf(),
            final(self)@ == old(self)@.push(order),
            final(self).price == old(self).price,
    {
        proof {
            self.lemma_totals();
            lemma_sum_by_push(self@, order, left_fn());
            lemma_sum_by_push(self@, order, shown_fn());
        }
        self.total_volume = self.total_volume + (order.size - order.filled);
        self.visible_volume = self.visible_volume + order.visible();
        queue_push(&mut self.orders, order);
    }

    /// Position of the first order with id `order_id`, or the number of
    /// orders if there is none.
    pub fn position(&self, order_id: OrderId) -> (i: usize)
        ensures
            i == position_of(self@, order_id),
            i <= self@.len(),
    {
        let n: usize = queue_len(&self.orders);
        let mut i: usize = 0;
        assert(self@.subrange(0, n as int) =~= self@);
        while i < n
            invariant
                n == self@.len(),
                i <= n,
                position_of(self@, order_id) == i + position_of(
                    self@.subrange(i as int, n as int),
                    order_id,
                ),
            decreases n - i,
        {
            let o: Order = queue_get(&self.orders, i);
            let ghost rest = self@.subrange(i as int, n as int);
            assert(rest[0] == o);
            if o.order_id == order_id {
                return i;
            }
            assert(rest.drop_first() =~= self@.subrange(i + 1, n as int));
            i = i + 1;
        }
        assert(self@.subrange(i as int, n as int).len() == 0);
        i
    }

    /// Takes out the order at position `i`.
    pub fn remove_at(&mut self, i: usize) -> (o: Order)
        requires
            old(self).wf(),
            i < old(self)@.len(),
        ensures
            final(self).wf(),
            o == old(self)@[i as int],
            final(self)@ == old(self)@.remove(i as int),
            final(self).price == old(self).price,
            final(self).total_volume == old(self).total_volume - o.left(),
    {
        let ghost before = self@;
        let o: Order = queue_remove(&mut self.orders, i);
        proof {
            assert(before[i as int].live());
            lemma_sum_by_remove(before, i as int, left_fn());
            lemma_sum_by_remove(before, i as int, shown_fn());
            assert forall|k: int| 0 <= k < self@.len() implies (#[trigger] self@[k]).live() by {
                if k < i {
                    assert(self@[k] == before[k]);
                } else {
                    assert(self@[k] == before[k + 1]);
                }
            }
            lemma_visible_within_volume(self@);
            lemma_visible_within_volume(before);
        }
        self.total_volume = self.total_volume - (o.size - o.filled);
        self.visible_volume = self.visible_volume - o.visible();
        assert forall|k: int| 0 <= k < self@.len() implies (#[trigger] self@[k]).live()
            && self@[k].price == self.price by {
            if k < i {
                assert(self@[k] == before[k]);
            } else {
                assert(self@[k] == before[k + 1]);
            }
        }
        o
    }

    /// Takes out the first order with id `order_id`, if there is one.
    pub fn remove(&mut self, order_id: OrderId) -> (r: Option<Order>)
        requires
            old(self).wf(),
        ensures
            final(self).wf(),
            final(self).price == old(self).price,
            match r {
                Some(o) => {
                    let i = position_of(old(self)@, order_id);
                    &&& i < old(self)@.len()
                    &&& o == old(self)@[i]
                    &&& o.order_id == order_id
                    &&& final(self)@ == old(self)@.remove(i)
                    &&& final(self).total_volume == old(self).total_volume - o.left()
                },
                None => position_of(old(self)@, order_id) == old(self)@.len() && *final(self)
                    == *old(self),
            },
    {
        let i: usize = self.position(order_id);
        if i < queue_len(&self.orders) {
            proof {
                lemma_position(self@, order_id);
            }
            Some(self.remove_at(i))
        } else {
            None
        }
    }

    /// Replaces the order at position `i` by `o`, which differs from it in
    /// size or filled quantity only.
    pub fn replace_at(&mut self, i: usize, o: Order)
        requires
            old(self).wf(),
            i < old(self)@.len(),
            o.live(),
            o.price == old(self).price,
            o.left() <= old(self)@[i as int].left(),
        ensures
            final(self).wf(),
            final(self)@ == old(self)@.update(i as int, o),
            final(self).price == old(self).price,
            final(self).total_volume == old(self).total_volume - old(self)@[i as int].left()
                + o.left(),
    {
        let ghost before = self@;
        let was: Order = queue_get(&self.orders, i);
        queue_set(&mut self.orders, i, o);
        proof {
            assert(was.live());
            lemma_sum_by_update(before, i as int, o, left_fn());
            lemma_sum_by_update(before, i as int, o, shown_fn());
            assert forall|k: int| 0 <= k < self@.len() implies (#[trigger] self@[k]).live() by {
                if k != i {
                    assert(self@[k] == before[k]);
                }
            }
            lemma_visible_within_volume(self@);
            lemma_visible_within_volume(before);
        }
        self.total_volume = self.total_volume - (was.size - was.filled) + (o.size - o.filled);
        self.visible_volume = self.visible_volume - was.visible() + o.visible();
        assert forall|k: int| 0 <= k < self@.len() implies (#[trigger] self@[k]).live()
            && self@[k].price == self.price by {
            if k != i {
                assert(self@[k] == before[k]);
            }
        }
    }

    /// Quantity at this level that taker `t`, who accepts its price, could
    /// trade now: what is left of the orders that have not expired.
    pub fn available(&self, t: &Taker) -> (r: Size)
        requires
            self.wf(),
            t.accepts(self.price),
        ensures
            r == available(self@, *t),
            0 <= r <= self.total_volume,
    {
        let n: usize = queue_len(&self.orders);
        let mut i: usize = 0;
        let mut sum: i64 = 0;
        proof {
            assert(self@.subrange(0, n as int) =~= self@);
            assert(self@.subrange(0, 0) =~= Seq::<Order>::empty());
            lemma_visible_within_volume(self@);
        }
        while i < n
            invariant
                i <= n,
                n == self@.len(),
                self.wf(),
                t.accepts(self.price),
                sum == available(self@.subrange(0, i as int), *t),
                0 <= sum,
                sum + queue_volume(self@.subrange(i as int, n as int)) <= self.total_volume,
            decreases n - i,
        {
            let o: Order = queue_get(&self.orders, i);
            proof {
                let rest = self@.subrange(i as int, n as int);
                assert(o.live() && o.price == self.price);
                assert(rest =~= seq![o] + self@.subrange(i + 1, n as int));
                lemma_sum_by_concat(seq![o], self@.subrange(i + 1, n as int), left_fn());
                lemma_sum_by_one(o, left_fn());
                assert(self@.subrange(0, i + 1) =~= self@.subrange(0, i as int).push(o));
                lemma_sum_by_push(self@.subrange(0, i as int), o, available_fn(*t));
                let after = self@.subrange(i + 1, n as int);
                assert forall|k: int| 0 <= k < after.len() implies (#[trigger] after[k]).live() by {
                    assert(after[k] == self@[i + 1 + k]);
                }
                lemma_visible_within_volume(after);
            }
            if !o.is_expired(t.now) {
                sum = sum + (o.size - o.filled);
            }
            i = i + 1;
        }
        proof {
            assert(self@.subrange(0, n as int) =~= self@);
            assert(self@.subrange(n as int, n as int) =~= Seq::<Order>::empty());
        }
        sum
    }

    /// Walks this level for `want` units, expired orders left out, and adds
    /// the cost of what can be taken to `cost`: what is then still wanted,
    /// and the cost.
    pub fn cost_into(&self, now: i64, want: Size, cost: i128) -> (r: (Size, i128))
        requires
            self.wf(),
            0 <= want,
            -(COST_SPAN - want * PRICE_SPAN) <= cost <= COST_SPAN - want * PRICE_SPAN,
        ensures
            r.0 == take_cost(self@, now, want as int).1,
            r.1 == cost + take_cost(self@, now, want as int).0,
            0 <= r.0 <= want,
            -(COST_SPAN - r.0 * PRICE_SPAN) <= r.1 <= COST_SPAN - r.0 * PRICE_SPAN,
    {
        let n: usize = queue_len(&self.orders);
        let mut i: usize = 0;
        let mut still: i64 = want;
        let mut sum: i128 = cost;
        proof {
            assert(self@.subrange(0, n as int) =~= self@);
        }
        while i < n && still > 0
            invariant
                i <= n,
                n == self@.len(),
                self.wf(),
                0 <= still <= want,
                -(COST_SPAN - still * PRICE_SPAN) <= sum <= COST_SPAN - still * PRICE_SPAN,
                take_cost(self@, now, want as int).1 == take_cost(
                    self@.subrange(i as int, n as int),
                    now,
                    still as int,
                ).1,
                cost + take_cost(self@, now, want as int).0 == sum + take_cost(
                    self@.subrange(i as int, n as int),
                    now,
                    still as int,
                ).0,
            decreases n - i,
        {
            let o: Order = queue_get(&self.orders, i);
            proof {
                let rest = self@.subrange(i as int, n as int);
                assert(o.live());
                assert(rest[0] == o);
                assert(rest.drop_first() =~= self@.subrange(i + 1, n as int));
            }
            if !o.is_expired(now) {
                let left: i64 = o.size - o.filled;
                let taken: i64 = if still < left {
                    still
                } else {
                    left
                };
                proof {
                    lemma_cost_bound(taken as int, o.price as int);
                    assert(still * PRICE_SPAN == (still - taken) * PRICE_SPAN + taken * PRICE_SPAN)
                        by (nonlinear_arith);
                    assert(0 <= taken * PRICE_SPAN <= COST_SPAN) by (nonlinear_arith)
                        requires
                            0 <= taken < PRICE_SPAN,
                            PRICE_SPAN * PRICE_SPAN == COST_SPAN,
                    ;
                }
                sum = sum + (taken as i128) * (o.price as i128);
                still = still - taken;
            }
            i = i + 1;
        }
        (still, sum)
    }

    /// Matches a taker that wants `want` units against this level, whose
    /// price the taker accepts. Trade events go to `events`, the ids of the
    /// makers that left, filled or expired, to `gone`.
    pub fn match_order(
        &mut self,
        t: &Taker,
        want: Size,
        events: &mut Vec<MatcherTradeEvent>,
        gone: &mut Vec<OrderId>,
    ) -> (filled: Size)
        requires
            old(self).wf(),
            t.accepts(old(self).price),
        ensures
            final(self).wf(),
            final(self).price == old(self).price,
            final(self)@ == match_queue(old(self)@, *t, want as int).makers,
            final(events)@ == old(events)@ + match_queue(old(self)@, *t, want as int).events,
            final(gone)@ == old(gone)@ + match_queue(old(self)@, *t, want as int).gone,
            filled == match_queue(old(self)@, *t, want as int).filled,
            0 <= filled,
            want >= 0 ==> filled <= want,
            want >= 0 && final(self)@.len() > 0 ==> filled == want,
            final(self).total_volume <= old(self).total_volume,
    {
        let ghost orig = self@;
        let ghost events0 = events@;
        let ghost gone0 = gone@;
        let ghost mut done = MatchOutcome::idle(Seq::empty());
        let mut filled: i64 = 0;
        proof {
            assert(events@ =~= events0 + done.events);
            assert(gone@ =~= gone0 + done.gone);
            assert(done.then_with(match_queue(self@, *t, want - filled)).events =~= match_queue(
                orig,
                *t,
                want as int,
            ).events);
            assert(done.then_with(match_queue(self@, *t, want - filled)).gone =~= match_queue(
                orig,
                *t,
                want as int,
            ).gone);
        }
        while want > filled && queue_len(&self.orders) > 0
            invariant
                self.wf(),
                self.price == old(self).price,
                t.accepts(self.price),
                0 <= filled,
                want >= 0 ==> filled <= want,
                self.total_volume <= old(self).total_volume,
                events@ == events0 + done.events,
                gone@ == gone0 + done.gone,
                filled == done.filled,
                match_queue(orig, *t, want as int) == done.then_with(
                    match_queue(self@, *t, want - filled),
                ),
            decreases self@.len() + (want - filled),
        {
            let ghost before = self@;
            let ghost rest = match_queue(before.drop_first(), *t, want - filled);
            let m: Order = queue_get(&self.orders, 0);
            assert(m.live() && m.price == self.price);
            assert(before.remove(0) =~= before.drop_first());
            if m.is_expired(t.now) {
                let _ = self.remove_at(0);
                gone.push(m.order_id);
                proof {
                    let step = MatchOutcome {
                        makers: Seq::empty(),
                        events: Seq::empty(),
                        filled: 0,
                        gone: seq![m.order_id],
                    };
                    let next = done.then_with(step);
                    assert(next.then_with(rest).events =~= done.then_with(
                        step.then_with(rest),
                    ).events);
                    assert(next.then_with(rest).gone =~= done.then_with(
                        step.then_with(rest),
                    ).gone);
                    done = next;
                    assert(events@ =~= events0 + done.events);
                    assert(gone@ =~= gone0 + done.gone);
                }
            } else {
                let left: i64 = m.size - m.filled;
                let want_left: i64 = want - filled;
                let traded: i64 = if want_left < left {
                    want_left
                } else {
                    left
                };
                assert(traded == min_int(want - filled, m.left()));
                let hold: i64 = match t.action {
                    OrderAction::Bid => t.reserve_price,
                    OrderAction::Ask => m.reserve_price,
                };
                let ev = MatcherTradeEvent::new_trade(traded, m.price, m.order_id, m.uid, hold);
                assert(ev == t.trade_with(m, traded as int));
                events.push(ev);
                if traded == left {
                    let ghost rest2 = match_queue(before.drop_first(), *t, want - filled - traded);
                    let _ = self.remove_at(0);
                    gone.push(m.order_id);
                    proof {
                        let step = MatchOutcome {
                            makers: Seq::empty(),
                            events: seq![ev],
                            filled: traded as int,
                            gone: seq![m.order_id],
                        };
                        let next = done.then_with(step);
                        assert(next.then_with(rest2).events =~= done.then_with(
                            step.then_with(rest2),
                        ).events);
                        assert(next.then_with(rest2).gone =~= done.then_with(
                            step.then_with(rest2),
                        ).gone);
                        done = next;
                        assert(events@ =~= events0 + done.events);
                        assert(gone@ =~= gone0 + done.gone);
                    }
                } else {
                    let after = Order {
                        order_id: m.order_id,
                        uid: m.uid,
                        price: m.price,
                        size: m.size,
                        filled: m.filled + traded,
                        action: m.action,
                        order_type: m.order_type,
                        reserve_price: m.reserve_price,
                        timestamp: m.timestamp,
                        stop_price: m.stop_price,
                        visible_size: m.visible_size,
                        expire_time: m.expire_time,
                    };
                    assert(after == m.fill(traded as int));
                    self.replace_at(0, after);
                    proof {
                        let step = MatchOutcome {
                            makers: self@,
                            events: seq![ev],
                            filled: traded as int,
                            gone: Seq::empty(),
                        };
                        let next = done.then_with(step);
                        let idle = MatchOutcome::idle(self@);
                        assert(match_queue(self@, *t, want - filled - traded) == idle);
                        assert(next.then_with(idle).events =~= done.then_with(step).events);
                        assert(next.then_with(idle).gone =~= done.then_with(step).gone);
                        done = next;
                        assert(events@ =~= events0 + done.events);
                        assert(gone@ =~= gone0 + done.gone);
                    }
                }
                filled = filled + traded;
            }
        }
        proof {
            let idle = MatchOutcome::idle(self@);
            assert(match_queue(self@, *t, want - filled) == idle);
            assert(done.then_with(idle).events =~= done.events);
            assert(done.then_with(idle).gone =~= done.gone);
            if self@.len() > 0 {
                assert(self@[0].price == self.price);
            }
        }
        filled
    }
}

} // verus!
