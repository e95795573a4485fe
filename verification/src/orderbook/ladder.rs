use crate::api::events::MatcherTradeEvent;
use crate::api::types::{OrderAction, OrderId, Price, Size};
use crate::orderbook::bucket::{OrdersBucket, COST_SPAN, PRICE_SPAN};
use crate::orderbook::model::{
    ahead, all_live, available, available_fn, cost_to_fill, has_id, ids_distinct, in_priority,
    left_fn, lemma_insert_distinct, lemma_position, lemma_position_unique,
    lemma_price_levels_group, lemma_remove_distinct, lemma_sum_by_remove, lemma_sum_by_same,
    lemma_sum_by_update, lemma_sum_by_zero, lemma_take_cost_concat, level_shown_fn,
    level_visible, position_of, price_levels, queue_visible, shown_fn, take_cost,
    lemma_match_concat, lemma_match_keeps, lemma_rest_at_bounds, lemma_rest_at_prefix,
    lemma_sum_by_concat,
    lemma_sum_by_insert, match_queue, queue_volume, rest_at, rested, MatchOutcome, Order, Taker,
};
use vstd::prelude::*;

verus! {

/// `a` is a strictly better price than `b` on side `side`: lower for asks,
/// higher for bids.
pub open spec fn better(side: OrderAction, a: Price, b: Price) -> bool {
    match side {
        OrderAction::Ask => a < b,
        OrderAction::Bid => a > b,
    }
}

pub fn is_better(side: OrderAction, a: Price, b: Price) -> (r: bool)
    ensures
        r == better(side, a, b),
{
    match side {
        OrderAction::Ask => a < b,
        OrderAction::Bid => a > b,
    }
}

/// The orders of `levels` in priority order. The levels stand from worst to
/// best, so the last level comes first.
pub open spec fn flat_of(levels: Seq<OrdersBucket>) -> Seq<Order>
    decreases levels.len(),
{
    if levels.len() == 0 {
        Seq::empty()
    } else {
        levels.last()@ + flat_of(levels.drop_last())
    }
}

/// Sum of the levels' totals.
pub open spec fn levels_volume(levels: Seq<OrdersBucket>) -> int
    decreases levels.len(),
{
    if levels.len() == 0 {
        0
    } else {
        levels.last().total_volume + levels_volume(levels.drop_last())
    }
}

/// Every level is valid, holds an order and only orders of side `side`, and
/// the prices improve strictly from one level to the next.
pub open spec fn levels_ok(side: OrderAction, levels: Seq<OrdersBucket>) -> bool {
    &&& forall|i: int|
        0 <= i < levels.len() ==> (#[trigger] levels[i]).wf() && levels[i]@.len() > 0
    &&& forall|i: int, k: int|
        0 <= i < levels.len() && 0 <= k < levels[i]@.len() ==> (#[trigger] levels[i]@[k]).action
            == side
    &&& forall|i: int, j: int|
        0 <= i < j < levels.len() ==> better(
            side,
            (#[trigger] levels[j]).price,
            (#[trigger] levels[i]).price,
        )
}

pub proof fn lemma_flat_concat(a: Seq<OrdersBucket>, b: Seq<OrdersBucket>)
    ensures
        flat_of(a + b) =~= flat_of(b) + flat_of(a),
        levels_volume(a + b) == levels_volume(a) + levels_volume(b),
    decreases b.len(),
{
    if b.len() == 0 {
        assert(a + b =~= a);
    } else {
        assert((a + b).last() == b.last());
        assert((a + b).drop_last() =~= a + b.drop_last());
        lemma_flat_concat(a, b.drop_last());
    }
}

pub proof fn lemma_flat_one(b: OrdersBucket)
    ensures
        flat_of(seq![b]) =~= b@,
        levels_volume(seq![b]) == b.total_volume,
{
    assert(seq![b].drop_last() =~= Seq::<OrdersBucket>::empty());
    assert(flat_of(seq![b].drop_last()) =~= Seq::<Order>::empty());
    assert(levels_volume(seq![b].drop_last()) == 0);
}

/// The orders of levels `lo..` first, then those of the levels below `lo`.
pub proof fn lemma_flat_split(levels: Seq<OrdersBucket>, lo: int)
    requires
        0 <= lo <= levels.len(),
    ensures
        flat_of(levels) =~= flat_of(levels.subrange(lo, levels.len() as int)) + flat_of(
            levels.subrange(0, lo),
        ),
        levels_volume(levels) == levels_volume(levels.subrange(lo, levels.len() as int))
            + levels_volume(levels.subrange(0, lo)),
{
    assert(levels =~= levels.subrange(0, lo) + levels.subrange(lo, levels.len() as int));
    lemma_flat_concat(levels.subrange(0, lo), levels.subrange(lo, levels.len() as int));
}

/// What holds of every order of every level holds of every order of the
/// flat sequence.
pub proof fn lemma_flat_all(levels: Seq<OrdersBucket>, p: spec_fn(Order) -> bool)
    requires
        forall|i: int, k: int|
            0 <= i < levels.len() && 0 <= k < levels[i]@.len() ==> p(#[trigger] levels[i]@[k]),
    ensures
        forall|k: int| 0 <= k < flat_of(levels).len() ==> p(#[trigger] flat_of(levels)[k]),
    decreases levels.len(),
{
    if levels.len() > 0 {
        let rest = levels.drop_last();
        assert forall|i: int, k: int| 0 <= i < rest.len() && 0 <= k < rest[i]@.len() implies p(
            #[trigger] rest[i]@[k],
        ) by {
            assert(rest[i] == levels[i]);
        }
        lemma_flat_all(rest, p);
        let last = levels.last();
        assert forall|k: int| 0 <= k < flat_of(levels).len() implies p(
            #[trigger] flat_of(levels)[k],
        ) by {
            if k < last@.len() {
                assert(flat_of(levels)[k] == levels[levels.len() - 1]@[k]);
            } else {
                assert(flat_of(levels)[k] == flat_of(rest)[k - last@.len()]);
            }
        }
    }
}

/// Of valid levels the flat sequence is live, on one side and in priority
/// order, and holds what the levels' totals say.
pub proof fn lemma_flat_ok(side: OrderAction, levels: Seq<OrdersBucket>)
    requires
        levels_ok(side, levels),
    ensures
        all_live(side, flat_of(levels)),
        in_priority(side, flat_of(levels)),
        queue_volume(flat_of(levels)) == levels_volume(levels),
        levels.len() > 0 ==> flat_of(levels).len() > 0 && flat_of(levels)[0] == levels.last()@[0],
        forall|i: int|
            0 <= i < levels.len() ==> 0 < (#[trigger] levels[i]).total_volume <= levels_volume(
                levels,
            ),
        levels_volume(levels) >= 0,
    decreases levels.len(),
{
    if levels.len() > 0 {
        let rest = levels.drop_last();
        let last = levels.last();
        let flat = flat_of(levels);
        assert(levels_ok(side, rest)) by {
            assert forall|i: int| 0 <= i < rest.len() implies (#[trigger] rest[i]).wf()
                && rest[i]@.len() > 0 by {
                assert(rest[i] == levels[i]);
            }
            assert forall|i: int, k: int|
                0 <= i < rest.len() && 0 <= k < rest[i]@.len() implies (
            #[trigger] rest[i]@[k]).action == side by {
                assert(rest[i] == levels[i]);
            }
            assert forall|i: int, j: int| 0 <= i < j < rest.len() implies better(
                side,
                (#[trigger] rest[j]).price,
                (#[trigger] rest[i]).price,
            ) by {
                assert(rest[i] == levels[i]);
                assert(rest[j] == levels[j]);
            }
        }
        lemma_flat_ok(side, rest);
        assert(last == levels[levels.len() - 1]);
        assert(last.wf());
        last.lemma_totals();
        lemma_sum_by_concat(last@, flat_of(rest), left_fn());
        let worse = |o: Order| better(side, last.price, o.price);
        assert forall|i: int, k: int| 0 <= i < rest.len() && 0 <= k < rest[i]@.len() implies worse(
            #[trigger] rest[i]@[k],
        ) by {
            assert(rest[i] == levels[i]);
            assert(levels[i].wf());
            assert(better(side, levels[levels.len() - 1].price, levels[i].price));
        }
        lemma_flat_all(rest, worse);
        assert forall|k: int| 0 <= k < flat.len() implies (#[trigger] flat[k]).live()
            && flat[k].action == side by {
            if k < last@.len() {
                assert(flat[k] == levels[levels.len() - 1]@[k]);
            } else {
                assert(flat[k] == flat_of(rest)[k - last@.len()]);
            }
        }
        assert forall|i: int, j: int| 0 <= i < j < flat.len() implies ahead(
            side,
            (#[trigger] flat[i]).price,
            (#[trigger] flat[j]).price,
        ) by {
            if j < last@.len() {
                assert(flat[i] == last@[i]);
                assert(flat[j] == last@[j]);
            } else if i < last@.len() {
                assert(flat[i] == last@[i]);
                assert(flat[j] == flat_of(rest)[j - last@.len()]);
                assert(worse(flat_of(rest)[j - last@.len()]));
            } else {
                assert(flat[i] == flat_of(rest)[i - last@.len()]);
                assert(flat[j] == flat_of(rest)[j - last@.len()]);
            }
        }
        assert forall|i: int| 0 <= i < levels.len() implies 0 < (
        #[trigger] levels[i]).total_volume <= levels_volume(levels) by {
            if i < rest.len() {
                assert(rest[i] == levels[i]);
            }
        }
    }
}

/// Dropping the best level, or replacing it, keeps the levels valid.
pub proof fn lemma_levels_ok_prefix(side: OrderAction, levels: Seq<OrdersBucket>, n: int)
    requires
        levels_ok(side, levels),
        0 <= n <= levels.len(),
    ensures
        levels_ok(side, levels.subrange(0, n)),
{
    let rest = levels.subrange(0, n);
    assert forall|i: int| 0 <= i < rest.len() implies (#[trigger] rest[i]).wf() && rest[i]@.len()
        > 0 by {
        assert(rest[i] == levels[i]);
    }
    assert forall|i: int, k: int| 0 <= i < rest.len() && 0 <= k < rest[i]@.len() implies (
    #[trigger] rest[i]@[k]).action == side by {
        assert(rest[i] == levels[i]);
    }
    assert forall|i: int, j: int| 0 <= i < j < rest.len() implies better(
        side,
        (#[trigger] rest[j]).price,
        (#[trigger] rest[i]).price,
    ) by {
        assert(rest[i] == levels[i]);
        assert(rest[j] == levels[j]);
    }
}

/// One side of a book: its price levels from worst to best, so that the
/// best level is the last element.
#[derive(Debug)]
pub struct PriceLadder {
    pub side: OrderAction,
    pub levels: Vec<OrdersBucket>,
}

impl View for PriceLadder {
    type V = Seq<Order>;

    /// The resting orders of the side in price-time priority.
    open spec fn view(&self) -> Seq<Order> {
        flat_of(self.levels@)
    }
}

impl PriceLadder {
    pub open spec fn wf(&self) -> bool {
        &&& levels_ok(self.side, self.levels@)
        &&& ids_distinct(self@)
        &&& queue_volume(self@) <= i64::MAX
    }

    pub fn new(side: OrderAction) -> (l: Self)
        ensures
            l.wf(),
            l.side == side,
            l@.len() == 0,
    {
        PriceLadder { side, levels: Vec::new() }
    }

    /// Price of the best level.
    pub fn best_price(&self) -> (r: Option<Price>)
        requires
            self.wf(),
        ensures
            match r {
                Some(p) => self@.len() > 0 && p == self@[0].price,
                None => self@.len() == 0,
            },
    {
        proof {
            lemma_flat_ok(self.side, self.levels@);
        }
        let n: usize = self.levels.len();
        if n == 0 {
            None
        } else {
            assert(self.levels@[n - 1].wf());
            Some(self.levels[n - 1].price)
        }
    }

    /// Matches a taker that wants `want` units against this side, best
    /// price first and oldest order first at each price.
    pub fn match_taker(
        &mut self,
        t: &Taker,
        want: Size,
        events: &mut Vec<MatcherTradeEvent>,
        gone: &mut Vec<OrderId>,
    ) -> (filled: Size)
        requires
            old(self).wf(),
        ensures
            final(self).wf(),
            final(self).side == old(self).side,
            final(self)@ == match_queue(old(self)@, *t, want as int).makers,
            final(events)@ == old(events)@ + match_queue(old(self)@, *t, want as int).events,
            final(gone)@ == old(gone)@ + match_queue(old(self)@, *t, want as int).gone,
            filled == match_queue(old(self)@, *t, want as int).filled,
            0 <= filled,
            want >= 0 ==> filled <= want,
    {
        let ghost orig = self@;
        let ghost events0 = events@;
        let ghost gone0 = gone@;
        let ghost mut done = MatchOutcome::idle(Seq::empty());
        let mut filled: i64 = 0;
        let mut open: bool = true;
        proof {
            assert(events@ =~= events0 + done.events);
            assert(gone@ =~= gone0 + done.gone);
            let all = match_queue(orig, *t, want as int);
            assert(done.then_with(all).events =~= all.events);
            assert(done.then_with(all).gone =~= all.gone);
        }
        while open && want > filled && self.levels.len() > 0
            invariant
                levels_ok(self.side, self.levels@),
                self.side == old(self).side,
                0 <= filled,
                want >= 0 ==> filled <= want,
                events@ == events0 + done.events,
                gone@ == gone0 + done.gone,
                filled == done.filled,
                match_queue(orig, *t, want as int) == done.then_with(
                    match_queue(self@, *t, want - filled),
                ),
                !open ==> match_queue(self@, *t, want - filled) == MatchOutcome::idle(self@),
            decreases self.levels@.len() + (want - filled) + (if open { 1int } else { 0int }),
        {
            let n: usize = self.levels.len();
            let ghost before = self.levels@;
            let ghost last = before[n - 1]@;
            let ghost rest = flat_of(before.drop_last());
            proof {
                lemma_flat_ok(self.side, before);
                assert(before[n - 1].wf());
                assert(last[0].price == before[n - 1].price);
            }
            let price: i64 = self.levels[n - 1].price;
            if !t.takes(price) {
                open = false;
            } else {
                proof {
                    lemma_match_concat(last, rest, *t, want - filled);
                    assert forall|k: int| 0 <= k < last.len() implies (#[trigger] last[k]).live()
                        && last[k].action == self.side by {
                        assert(before[n - 1]@[k].action == self.side);
                    }
                    lemma_match_keeps(self.side, last, *t, want - filled);
                }
                let ghost ra = match_queue(last, *t, want - filled);
                let ghost tail = match_queue(ra.makers + rest, *t, want - filled - ra.filled);
                let f: i64 = self.levels[n - 1].match_order(t, want - filled, events, gone);
                assert(self.levels@ =~= before.update(n - 1, self.levels@[n - 1]));
                assert(self.levels@[n - 1]@ == ra.makers);
                filled = filled + f;
                if self.levels[n - 1].len() == 0 {
                    let _ = self.levels.pop();
                    proof {
                        assert(self.levels@ =~= before.subrange(0, n - 1));
                        assert(before.drop_last() =~= before.subrange(0, n - 1));
                        lemma_levels_ok_prefix(self.side, before, n - 1);
                        assert(ra.makers + rest =~= rest);
                    }
                } else {
                    proof {
                        let now = self.levels@;
                        assert(now.drop_last() =~= before.drop_last());
                        assert(self@ =~= ra.makers + rest);
                        assert forall|i: int| 0 <= i < now.len() implies (#[trigger] now[i]).wf()
                            && now[i]@.len() > 0 by {
                            if i < n - 1 {
                                assert(now[i] == before[i]);
                            }
                        }
                        assert forall|i: int, k: int|
                            0 <= i < now.len() && 0 <= k < now[i]@.len() implies (
                        #[trigger] now[i]@[k]).action == self.side by {
                            if i < n - 1 {
                                assert(now[i] == before[i]);
                            } else {
                                assert(ra.makers[k].action == self.side);
                            }
                        }
                        assert forall|i: int, j: int| 0 <= i < j < now.len() implies better(
                            self.side,
                            (#[trigger] now[j]).price,
                            (#[trigger] now[i]).price,
                        ) by {
                            assert(now[i].price == before[i].price);
                            assert(now[j].price == before[j].price);
                        }
                    }
                }
                proof {
                    let next = done.then_with(ra);
                    assert(next.then_with(tail).events =~= done.then_with(
                        ra.then_with(tail),
                    ).events);
                    assert(next.then_with(tail).gone =~= done.then_with(ra.then_with(tail)).gone);
                    done = next;
                    assert(events@ =~= events0 + done.events);
                    assert(gone@ =~= gone0 + done.gone);
                }
            }
        }
        proof {
            let idle = MatchOutcome::idle(self@);
            if self.levels@.len() == 0 {
                assert(self@.len() == 0);
            }
            assert(match_queue(self@, *t, want - filled) == idle);
            assert(done.then_with(idle).events =~= done.events);
            assert(done.then_with(idle).gone =~= done.gone);
            lemma_flat_ok(old(self).side, old(self).levels@);
            lemma_match_keeps(old(self).side, orig, *t, want as int);
        }
        filled
    }

    /// Where the order of id `order_id` rests at price `price`: the index of
    /// its level and its position in that level.
    pub fn locate(&self, price: Price, order_id: OrderId) -> (r: Option<(usize, usize)>)
        requires
            self.wf(),
        ensures
            match r {
                Some((li, pi)) => {
                    &&& li < self.levels@.len()
                    &&& pi < self.levels@[li as int]@.len()
                    &&& self.levels@[li as int].price == price
                    &&& has_id(self@, order_id)
                    &&& position_of(self@, order_id) == upper_len(self.levels@, li as int) + pi
                    &&& self@[position_of(self@, order_id)] == self.levels@[li as int]@[pi as int]
                    &&& self@[position_of(self@, order_id)].price == price
                },
                None => !has_id(self@, order_id) || self@[position_of(self@, order_id)].price
                    != price,
            },
    {
        let i: usize = self.slot_for(price);
        proof {
            lemma_position(self@, order_id);
        }
        if i > 0 && self.levels[i - 1].price == price {
            let pi: usize = self.levels[i - 1].position(order_id);
            proof {
                lemma_level_parts(self.side, self.levels@, i - 1);
                lemma_position(self.levels@[i - 1]@, order_id);
            }
            if pi < self.levels[i - 1].len() {
                proof {
                    lemma_position_unique(self@, upper_len(self.levels@, i - 1) + pi);
                }
                Some((i - 1, pi))
            } else {
                proof {
                    if has_id(self@, order_id) {
                        let p = position_of(self@, order_id);
                        let a = upper_len(self.levels@, i - 1);
                        let e = self.levels@[i - 1]@;
                        if a <= p < a + e.len() {
                            assert(self@[p] == e[p - a]);
                        }
                    }
                }
                None
            }
        } else {
            proof {
                lemma_no_level(self.side, self.levels@, i as int, price);
            }
            None
        }
    }

    /// The order of id `order_id` resting at price `price`, if there is one.
    pub fn peek(&self, price: Price, order_id: OrderId) -> (r: Option<Order>)
        requires
            self.wf(),
        ensures
            match r {
                Some(o) => has_id(self@, order_id) && o == self@[position_of(self@, order_id)]
                    && o.price == price && o.order_id == order_id,
                None => !has_id(self@, order_id) || self@[position_of(self@, order_id)].price
                    != price,
            },
    {
        proof {
            lemma_position(self@, order_id);
        }
        match self.locate(price, order_id) {
            Some((li, pi)) => Some(self.levels[li].get(pi)),
            None => None,
        }
    }

    /// Takes out the order of id `order_id` resting at price `price`, and
    /// its level with it if that was its last order.
    pub fn remove(&mut self, price: Price, order_id: OrderId) -> (r: Option<Order>)
        requires
            old(self).wf(),
        ensures
            final(self).wf(),
            final(self).side == old(self).side,
            match r {
                Some(o) => {
                    &&& has_id(old(self)@, order_id)
                    &&& o == old(self)@[position_of(old(self)@, order_id)]
                    &&& o.price == price
                    &&& o.order_id == order_id
                    &&& final(self)@ == old(self)@.remove(position_of(old(self)@, order_id))
                    &&& !has_id(final(self)@, order_id)
                },
                None => {
                    &&& final(self)@ == old(self)@
                    &&& !has_id(old(self)@, order_id) || old(self)@[position_of(
                        old(self)@,
                        order_id,
                    )].price != price
                },
            },
    {
        let ghost before = self.levels@;
        let ghost flat = self@;
        proof {
            lemma_position(flat, order_id);
            lemma_flat_ok(self.side, before);
        }
        match self.locate(price, order_id) {
            Some((li, pi)) => {
                proof {
                    lemma_level_parts(self.side, before, li as int);
                    lemma_remove_distinct(flat, position_of(flat, order_id));
                    lemma_sum_by_remove(flat, position_of(flat, order_id), left_fn());
                    assert(before[li as int].wf());
                }
                let o: Order = self.levels[li].remove_at(pi);
                proof {
                    assert(self.levels@ =~= before.update(li as int, self.levels@[li as int]));
                    assert(flat[position_of(flat, order_id)].live());
                }
                if self.levels[li].len() == 0 {
                    let _ = self.levels.remove(li);
                    proof {
                        lemma_level_removed(self.side, before, self.levels@, li as int);
                        let a = flat_of(before.subrange(li + 1, before.len() as int));
                        let b = flat_of(before.subrange(0, li as int));
                        assert(before[li as int]@.len() == 1);
                        assert(self@ =~= flat.remove(position_of(flat, order_id)));
                    }
                } else {
                    proof {
                        let e2 = self.levels@[li as int]@;
                        let e = before[li as int]@;
                        assert forall|k: int| 0 <= k < e2.len() implies (#[trigger] e2[k]).action
                            == self.side by {
                            if k < pi {
                                assert(e2[k] == before[li as int]@[k]);
                            } else {
                                assert(e2[k] == before[li as int]@[k + 1]);
                            }
                        }
                        lemma_level_replaced(self.side, before, self.levels@, li as int);
                        assert(self@ =~= flat.remove(position_of(flat, order_id)));
                    }
                }
                Some(o)
            },
            None => None,
        }
    }

    /// Puts `o` in the place of the order of id `order_id` resting at price
    /// `price`; `o` is that order with less left of it. Says whether the
    /// order was there.
    pub fn replace(&mut self, price: Price, order_id: OrderId, o: Order) -> (r: bool)
        requires
            old(self).wf(),
            o.live(),
            o.price == price,
            o.order_id == order_id,
            o.action == old(self).side,
            has_id(old(self)@, order_id) ==> o.left() <= old(self)@[position_of(
                old(self)@,
                order_id,
            )].left(),
        ensures
            final(self).wf(),
            final(self).side == old(self).side,
            r == (has_id(old(self)@, order_id) && old(self)@[position_of(
                old(self)@,
                order_id,
            )].price == price),
            r ==> final(self)@ == old(self)@.update(position_of(old(self)@, order_id), o),
            !r ==> final(self)@ == old(self)@,
    {
        let ghost before = self.levels@;
        let ghost flat = self@;
        proof {
            lemma_position(flat, order_id);
            lemma_flat_ok(self.side, before);
        }
        match self.locate(price, order_id) {
            Some((li, pi)) => {
                let ghost pos = position_of(flat, order_id);
                proof {
                    lemma_level_parts(self.side, before, li as int);
                    lemma_sum_by_update(flat, pos, o, left_fn());
                    assert(before[li as int].wf());
                    assert(flat[pos].live());
                }
                self.levels[li].replace_at(pi, o);
                proof {
                    assert(self.levels@ =~= before.update(li as int, self.levels@[li as int]));
                    let e2 = self.levels@[li as int]@;
                    assert forall|k: int| 0 <= k < e2.len() implies (#[trigger] e2[k]).action
                        == self.side by {
                        if k != pi {
                            assert(e2[k] == before[li as int]@[k]);
                        }
                    }
                    lemma_level_replaced(self.side, before, self.levels@, li as int);
                    let u = flat.update(pos, o);
                    assert(self@ =~= u);
                    assert forall|a: int, b: int| 0 <= a < b < u.len() implies (
                    #[trigger] u[a]).order_id != (#[trigger] u[b]).order_id by {
                        assert(u[a].order_id == flat[a].order_id);
                        assert(u[b].order_id == flat[b].order_id);
                    }
                }
                true
            },
            None => false,
        }
    }

    /// Total quantity left on this side.
    pub fn total_volume(&self) -> (r: Size)
        requires
            self.wf(),
        ensures
            r == queue_volume(self@),
    {
        let n: usize = self.levels.len();
        let mut i: usize = 0;
        let mut sum: i64 = 0;
        proof {
            lemma_flat_ok(self.side, self.levels@);
            assert(self.levels@.subrange(0, 0) =~= Seq::<OrdersBucket>::empty());
        }
        while i < n
            invariant
                i <= n,
                n == self.levels@.len(),
                self.wf(),
                sum == levels_volume(self.levels@.subrange(0, i as int)),
                0 <= sum <= levels_volume(self.levels@) <= i64::MAX,
            decreases n - i,
        {
            proof {
                let upto = self.levels@.subrange(0, i + 1);
                assert(upto.drop_last() =~= self.levels@.subrange(0, i as int));
                assert(upto.last() == self.levels@[i as int]);
                lemma_flat_split(self.levels@, i + 1);
                lemma_levels_ok_prefix(self.side, self.levels@, i + 1);
                lemma_flat_ok(self.side, upto);
                let above = self.levels@.subrange(i + 1, n as int);
                assert(levels_ok(self.side, above)) by {
                    lemma_levels_ok_suffix(self.side, self.levels@, i + 1);
                }
                lemma_flat_ok(self.side, above);
                lemma_flat_ok(self.side, self.levels@);
            }
            sum = sum + self.levels[i].total_volume;
            i = i + 1;
        }
        proof {
            assert(self.levels@.subrange(0, n as int) =~= self.levels@);
        }
        sum
    }

    /// Number of price levels.
    pub fn level_count(&self) -> (r: usize)
        requires
            self.wf(),
        ensures
            r == price_levels(self@).len(),
    {
        proof {
            lemma_ladder_prices(self.side, self.levels@);
        }
        self.levels.len()
    }

    /// The best `depth` levels, best first: their prices and what each
    /// advertises.
    pub fn depth(&self, depth: usize) -> (r: (Vec<Price>, Vec<Size>))
        requires
            self.wf(),
        ensures
            r.0@.len() == r.1@.len(),
            r.0@.len() == if depth < price_levels(self@).len() {
                depth as int
            } else {
                price_levels(self@).len() as int
            },
            forall|k: int| 0 <= k < r.0@.len() ==> r.0@[k] == price_levels(self@)[k],
            forall|k: int| 0 <= k < r.0@.len() ==> r.1@[k] == level_visible(self@, #[trigger] r.0@[k]),
    {
        let n: usize = self.levels.len();
        let mut prices: Vec<Price> = Vec::new();
        let mut volumes: Vec<Size> = Vec::new();
        let mut k: usize = 0;
        proof {
            lemma_ladder_prices(self.side, self.levels@);
        }
        while k < depth && k < n
            invariant
                k <= n,
                k <= depth,
                n == self.levels@.len(),
                self.wf(),
                price_levels(self@) == ladder_prices(self.levels@),
                price_levels(self@).len() == n,
                prices@.len() == k,
                volumes@.len() == k,
                forall|j: int| 0 <= j < k ==> prices@[j] == price_levels(self@)[j],
                forall|j: int| 0 <= j < k ==> volumes@[j] == level_visible(self@, #[trigger] prices@[j]),
            decreases n - k,
        {
            proof {
                lemma_ladder_price_at(self.levels@, k as int);
                lemma_level_visible(self.side, self.levels@, n - 1 - k);
            }
            prices.push(self.levels[n - 1 - k].price);
            volumes.push(self.levels[n - 1 - k].visible_volume);
            k = k + 1;
        }
        (prices, volumes)
    }

    /// Quantity that taker `t`, who stands on the other side, could trade
    /// now: what is left of the live makers at prices that it accepts.
    pub fn available(&self, t: &Taker) -> (r: Size)
        requires
            self.wf(),
        ensures
            r == available(self@, *t),
            0 <= r <= queue_volume(self@),
    {
        let n: usize = self.levels.len();
        let mut i: usize = 0;
        let mut sum: i64 = 0;
        proof {
            lemma_flat_ok(self.side, self.levels@);
            assert(self.levels@.subrange(0, 0) =~= Seq::<OrdersBucket>::empty());
            assert(self.levels@.subrange(0, n as int) =~= self.levels@);
        }
        while i < n
            invariant
                i <= n,
                n == self.levels@.len(),
                self.wf(),
                sum == available(flat_of(self.levels@.subrange(0, i as int)), *t),
                0 <= sum,
                sum + levels_volume(self.levels@.subrange(i as int, n as int)) <= levels_volume(
                    self.levels@,
                ),
                levels_volume(self.levels@) == queue_volume(self@),
                queue_volume(self@) <= i64::MAX,
            decreases n - i,
        {
            proof {
                let upto = self.levels@.subrange(0, i + 1);
                let from = self.levels@.subrange(i as int, n as int);
                assert(upto.drop_last() =~= self.levels@.subrange(0, i as int));
                assert(upto.last() == self.levels@[i as int]);
                lemma_sum_by_concat(
                    self.levels@[i as int]@,
                    flat_of(self.levels@.subrange(0, i as int)),
                    available_fn(*t),
                );
                lemma_flat_split(from, 1);
                assert(from.subrange(0, 1) =~= seq![self.levels@[i as int]]);
                assert(from.subrange(1, from.len() as int) =~= self.levels@.subrange(
                    i + 1,
                    n as int,
                ));
                lemma_flat_one(self.levels@[i as int]);
                lemma_levels_ok_suffix(self.side, self.levels@, i + 1);
                lemma_flat_ok(self.side, self.levels@.subrange(i + 1, n as int));
                assert(self.levels@[i as int].wf());
                self.levels@[i as int].lemma_totals();
            }
            if t.takes(self.levels[i].price) {
                sum = sum + self.levels[i].available(t);
            } else {
                proof {
                    let e = self.levels@[i as int]@;
                    assert forall|k: int| 0 <= k < e.len() implies available_fn(*t)(
                        #[trigger] e[k],
                    ) == 0 by {
                        assert(e[k].price == self.levels@[i as int].price);
                    }
                    lemma_sum_by_zero(e, available_fn(*t));
                }
            }
            i = i + 1;
        }
        proof {
            assert(self.levels@.subrange(n as int, n as int) =~= Seq::<OrdersBucket>::empty());
        }
        sum
    }

    /// Cost of taking `want` units from the best prices on, expired makers
    /// left out; `None` where the side holds less.
    pub fn cost_to_fill(&self, now: i64, want: Size) -> (r: Option<i128>)
        requires
            self.wf(),
        ensures
            match r {
                Some(c) => cost_to_fill(self@, now, want as int) == Some(c as int),
                None => cost_to_fill(self@, now, want as int).is_none(),
            },
    {
        if want <= 0 {
            return Some(0);
        }
        let n: usize = self.levels.len();
        let mut k: usize = n;
        let mut still: i64 = want;
        let mut cost: i128 = 0;
        proof {
            assert(self.levels@.subrange(0, n as int) =~= self.levels@);
            assert(want * PRICE_SPAN <= COST_SPAN) by (nonlinear_arith)
                requires
                    0 <= want < PRICE_SPAN,
                    PRICE_SPAN * PRICE_SPAN == COST_SPAN,
            ;
        }
        while k > 0 && still > 0
            invariant
                k <= n,
                n == self.levels@.len(),
                self.wf(),
                0 <= still <= want,
                -(COST_SPAN - still * PRICE_SPAN) <= cost <= COST_SPAN - still * PRICE_SPAN,
                take_cost(self@, now, want as int).1 == take_cost(
                    flat_of(self.levels@.subrange(0, k as int)),
                    now,
                    still as int,
                ).1,
                take_cost(self@, now, want as int).0 == cost + take_cost(
                    flat_of(self.levels@.subrange(0, k as int)),
                    now,
                    still as int,
                ).0,
            decreases k,
        {
            proof {
                let upto = self.levels@.subrange(0, k as int);
                assert(upto.drop_last() =~= self.levels@.subrange(0, k - 1));
                assert(upto.last() == self.levels@[k - 1]);
                lemma_take_cost_concat(
                    self.levels@[k - 1]@,
                    flat_of(self.levels@.subrange(0, k - 1)),
                    now,
                    still as int,
                );
                assert(self.levels@[k - 1].wf());
            }
            let (s, c) = self.levels[k - 1].cost_into(now, still, cost);
            still = s;
            cost = c;
            k = k - 1;
        }
        proof {
            if k == 0 {
                assert(self.levels@.subrange(0, 0) =~= Seq::<OrdersBucket>::empty());
            }
        }
        if still == 0 {
            Some(cost)
        } else {
            None
        }
    }

    /// The resting orders of the side in price-time priority.
    pub fn export(&self) -> (out: Vec<Order>)
        requires
            self.wf(),
        ensures
            out@ == self@,
    {
        let n: usize = self.levels.len();
        let mut out: Vec<Order> = Vec::new();
        let mut k: usize = n;
        proof {
            assert(self.levels@.subrange(n as int, n as int) =~= Seq::<OrdersBucket>::empty());
        }
        while k > 0
            invariant
                k <= n,
                n == self.levels@.len(),
                out@ == flat_of(self.levels@.subrange(k as int, n as int)),
            decreases k,
        {
            let len: usize = self.levels[k - 1].len();
            let ghost done = out@;
            let mut j: usize = 0;
            while j < len
                invariant
                    j <= len,
                    0 < k <= n,
                    n == self.levels@.len(),
                    len == self.levels@[k - 1]@.len(),
                    out@ == done + self.levels@[k - 1]@.subrange(0, j as int),
                decreases len - j,
            {
                out.push(self.levels[k - 1].get(j));
                proof {
                    let e = self.levels@[k - 1]@;
                    assert(e.subrange(0, j + 1) =~= e.subrange(0, j as int).push(e[j as int]));
                }
                j = j + 1;
            }
            proof {
                let e = self.levels@[k - 1];
                let from = self.levels@.subrange(k - 1, n as int);
                assert(e@.subrange(0, len as int) =~= e@);
                lemma_flat_split(from, 1);
                assert(from.subrange(0, 1) =~= seq![e]);
                assert(from.subrange(1, from.len() as int) =~= self.levels@.subrange(
                    k as int,
                    n as int,
                ));
                lemma_flat_one(e);
            }
            k = k - 1;
        }
        proof {
            assert(self.levels@.subrange(0, n as int) =~= self.levels@);
        }
        out
    }

    /// The index at which a level of price `price` stands or would stand:
    /// every level from there on is strictly better, the one below is not.
    pub fn slot_for(&self, price: Price) -> (i: usize)
        ensures
            i <= self.levels@.len(),
            forall|j: int|
                i <= j < self.levels@.len() ==> better(
                    self.side,
                    (#[trigger] self.levels@[j]).price,
                    price,
                ),
            i > 0 ==> !better(self.side, self.levels@[i - 1].price, price),
    {
        let n: usize = self.levels.len();
        let mut i: usize = n;
        while i > 0 && is_better(self.side, self.levels[i - 1].price, price)
            invariant
                i <= n,
                n == self.levels@.len(),
                forall|j: int|
                    i <= j < n ==> better(self.side, (#[trigger] self.levels@[j]).price, price),
            decreases i,
        {
            i = i - 1;
        }
        i
    }

    /// Rests `order` on this side: at the back of the level of its price,
    /// which is made if it is not there.
    pub fn insert(&mut self, order: Order)
        requires
            old(self).wf(),
            order.live(),
            order.action == old(self).side,
            !has_id(old(self)@, order.order_id),
            queue_volume(old(self)@) + order.left() <= i64::MAX,
        ensures
            final(self).wf(),
            final(self).side == old(self).side,
            final(self)@ == rested(old(self).side, old(self)@, order),
    {
        let ghost before = self.levels@;
        let ghost flat = self@;
        let i: usize = self.slot_for(order.price);
        proof {
            lemma_flat_ok(self.side, before);
            lemma_rest_at_bounds(self.side, flat, order.price);
            lemma_sum_by_insert(flat, rest_at(self.side, flat, order.price), order, left_fn());
            lemma_insert_distinct(flat, rest_at(self.side, flat, order.price), order);
        }
        if i > 0 && self.levels[i - 1].price == order.price {
            assert(before[i - 1].wf());
            self.levels[i - 1].add(order);
            proof {
                assert(self.levels@ =~= before.update(i - 1, self.levels@[i - 1]));
                lemma_rested_in_level(self.side, before, self.levels@, i as int, order);
            }
        } else {
            let mut b = OrdersBucket::new(order.price);
            b.add(order);
            self.levels.insert(i, b);
            proof {
                assert(b@ =~= seq![order]);
                lemma_rested_new_level(self.side, before, self.levels@, i as int, order);
            }
        }
    }
}

/// Number of orders in the levels above index `li`, which all go before
/// the orders of level `li`.
pub open spec fn upper_len(levels: Seq<OrdersBucket>, li: int) -> int {
    flat_of(levels.subrange(li + 1, levels.len() as int)).len() as int
}

/// The prices of the levels, best first.
pub open spec fn ladder_prices(levels: Seq<OrdersBucket>) -> Seq<Price>
    decreases levels.len(),
{
    if levels.len() == 0 {
        Seq::empty()
    } else {
        seq![levels.last().price] + ladder_prices(levels.drop_last())
    }
}

pub proof fn lemma_levels_ok_suffix(side: OrderAction, levels: Seq<OrdersBucket>, n: int)
    requires
        levels_ok(side, levels),
        0 <= n <= levels.len(),
    ensures
        levels_ok(side, levels.subrange(n, levels.len() as int)),
{
    let rest = levels.subrange(n, levels.len() as int);
    assert forall|i: int| 0 <= i < rest.len() implies (#[trigger] rest[i]).wf() && rest[i]@.len()
        > 0 by {
        assert(rest[i] == levels[i + n]);
    }
    assert forall|i: int, k: int| 0 <= i < rest.len() && 0 <= k < rest[i]@.len() implies (
    #[trigger] rest[i]@[k]).action == side by {
        assert(rest[i] == levels[i + n]);
        assert(levels[i + n]@[k].action == side);
    }
    assert forall|i: int, j: int| 0 <= i < j < rest.len() implies better(
        side,
        (#[trigger] rest[j]).price,
        (#[trigger] rest[i]).price,
    ) by {
        assert(rest[i] == levels[i + n]);
        assert(rest[j] == levels[j + n]);
        assert(better(side, levels[j + n].price, levels[i + n].price));
    }
}

/// The flat sequence is the orders above level `li`, then those of level
/// `li`, then those below; only those of level `li` have its price.
pub proof fn lemma_level_parts(side: OrderAction, levels: Seq<OrdersBucket>, li: int)
    requires
        levels_ok(side, levels),
        0 <= li < levels.len(),
    ensures
        flat_of(levels) =~= flat_of(levels.subrange(li + 1, levels.len() as int)) + levels[li]@
            + flat_of(levels.subrange(0, li)),
        forall|k: int|
            0 <= k < flat_of(levels.subrange(li + 1, levels.len() as int)).len() ==> (
            #[trigger] flat_of(levels.subrange(li + 1, levels.len() as int))[k]).price
                != levels[li].price,
        forall|k: int|
            0 <= k < flat_of(levels.subrange(0, li)).len() ==> (#[trigger] flat_of(
                levels.subrange(0, li),
            )[k]).price != levels[li].price,
        forall|k: int| 0 <= k < levels[li]@.len() ==> (#[trigger] levels[li]@[k]).price == levels[li].price,
{
    let n = levels.len() as int;
    let hi = levels.subrange(li + 1, n);
    let lo = levels.subrange(0, li);
    let price = levels[li].price;
    lemma_flat_split(levels, li + 1);
    lemma_flat_split(levels.subrange(0, li + 1), li);
    assert(levels.subrange(0, li + 1).subrange(0, li) =~= lo);
    assert(levels.subrange(0, li + 1).subrange(li, li + 1) =~= seq![levels[li]]);
    lemma_flat_one(levels[li]);
    let other = |o: Order| o.price != price;
    assert forall|a: int, k: int| 0 <= a < hi.len() && 0 <= k < hi[a]@.len() implies other(
        #[trigger] hi[a]@[k],
    ) by {
        assert(hi[a] == levels[a + li + 1]);
        assert(levels[a + li + 1].wf());
        assert(better(side, levels[a + li + 1].price, levels[li].price));
    }
    lemma_flat_all(hi, other);
    assert forall|a: int, k: int| 0 <= a < lo.len() && 0 <= k < lo[a]@.len() implies other(
        #[trigger] lo[a]@[k],
    ) by {
        assert(lo[a] == levels[a]);
        assert(levels[a].wf());
        assert(better(side, levels[li].price, levels[a].price));
    }
    lemma_flat_all(lo, other);
    assert(levels[li].wf());
}

/// No order rests at `price` where the levels from `i` on are strictly
/// better than it and the level below `i` is strictly worse.
pub proof fn lemma_no_level(side: OrderAction, levels: Seq<OrdersBucket>, i: int, price: Price)
    requires
        levels_ok(side, levels),
        0 <= i <= levels.len(),
        forall|j: int| i <= j < levels.len() ==> better(side, (#[trigger] levels[j]).price, price),
        i > 0 ==> !better(side, levels[i - 1].price, price) && levels[i - 1].price != price,
    ensures
        forall|k: int| 0 <= k < flat_of(levels).len() ==> (#[trigger] flat_of(levels)[k]).price != price,
{
    let other = |o: Order| o.price != price;
    assert forall|a: int, k: int| 0 <= a < levels.len() && 0 <= k < levels[a]@.len() implies other(
        #[trigger] levels[a]@[k],
    ) by {
        assert(levels[a].wf());
        if a >= i {
            assert(better(side, levels[a].price, price));
        } else if a < i - 1 {
            assert(better(side, levels[i - 1].price, levels[a].price));
        }
    }
    lemma_flat_all(levels, other);
}

/// Another valid level of the same price in the place of level `li` keeps
/// the levels valid; the flat sequence changes in that level's part only.
pub proof fn lemma_level_replaced(
    side: OrderAction,
    before: Seq<OrdersBucket>,
    now: Seq<OrdersBucket>,
    li: int,
)
    requires
        levels_ok(side, before),
        0 <= li < before.len(),
        now =~= before.update(li, now[li]),
        now.len() == before.len(),
        now[li].wf(),
        now[li]@.len() > 0,
        now[li].price == before[li].price,
        forall|k: int| 0 <= k < now[li]@.len() ==> (#[trigger] now[li]@[k]).action == side,
    ensures
        levels_ok(side, now),
        flat_of(now) =~= flat_of(before.subrange(li + 1, before.len() as int)) + now[li]@ + flat_of(
            before.subrange(0, li),
        ),
{
    let n = before.len() as int;
    assert forall|a: int| 0 <= a < now.len() implies (#[trigger] now[a]).wf() && now[a]@.len()
        > 0 by {
        if a != li {
            assert(now[a] == before[a]);
        }
    }
    assert forall|a: int, k: int| 0 <= a < now.len() && 0 <= k < now[a]@.len() implies (
    #[trigger] now[a]@[k]).action == side by {
        if a != li {
            assert(now[a] == before[a]);
            assert(before[a]@[k].action == side);
        }
    }
    assert forall|a: int, b: int| 0 <= a < b < now.len() implies better(
        side,
        (#[trigger] now[b]).price,
        (#[trigger] now[a]).price,
    ) by {
        assert(now[a].price == before[a].price);
        assert(now[b].price == before[b].price);
        assert(better(side, before[b].price, before[a].price));
    }
    lemma_flat_split(now, li + 1);
    lemma_flat_split(now.subrange(0, li + 1), li);
    assert(now.subrange(li + 1, n) =~= before.subrange(li + 1, n));
    assert(now.subrange(0, li + 1).subrange(0, li) =~= before.subrange(0, li));
    assert(now.subrange(0, li + 1).subrange(li, li + 1) =~= seq![now[li]]);
    lemma_flat_one(now[li]);
}

/// Without level `li` the levels stay valid, and the flat sequence is what
/// stood above that level, then what stood below.
pub proof fn lemma_level_removed(
    side: OrderAction,
    before: Seq<OrdersBucket>,
    now: Seq<OrdersBucket>,
    li: int,
)
    requires
        0 <= li < before.len(),
        now.len() == before.len() - 1,
        forall|a: int| 0 <= a < li ==> #[trigger] now[a] == before[a],
        forall|a: int| li <= a < now.len() ==> #[trigger] now[a] == before[a + 1],
        forall|a: int|
            0 <= a < before.len() && a != li ==> (#[trigger] before[a]).wf() && before[a]@.len()
                > 0,
        forall|a: int, k: int|
            0 <= a < before.len() && a != li && 0 <= k < before[a]@.len() ==> (
            #[trigger] before[a]@[k]).action == side,
        forall|i: int, j: int|
            0 <= i < j < before.len() ==> better(
                side,
                (#[trigger] before[j]).price,
                (#[trigger] before[i]).price,
            ),
    ensures
        levels_ok(side, now),
        flat_of(now) =~= flat_of(before.subrange(li + 1, before.len() as int)) + flat_of(
            before.subrange(0, li),
        ),
{
    let n = before.len() as int;
    assert forall|a: int| 0 <= a < now.len() implies (#[trigger] now[a]).wf() && now[a]@.len()
        > 0 by {
        if a < li {
            assert(now[a] == before[a]);
        } else {
            assert(now[a] == before[a + 1]);
        }
    }
    assert forall|a: int, k: int| 0 <= a < now.len() && 0 <= k < now[a]@.len() implies (
    #[trigger] now[a]@[k]).action == side by {
        if a < li {
            assert(now[a] == before[a]);
            assert(before[a]@[k].action == side);
        } else {
            assert(now[a] == before[a + 1]);
            assert(before[a + 1]@[k].action == side);
        }
    }
    assert forall|a: int, b: int| 0 <= a < b < now.len() implies better(
        side,
        (#[trigger] now[b]).price,
        (#[trigger] now[a]).price,
    ) by {
        let a0 = if a < li { a } else { a + 1 };
        let b0 = if b < li { b } else { b + 1 };
        assert(now[a] == before[a0]);
        assert(now[b] == before[b0]);
        assert(better(side, before[b0].price, before[a0].price));
    }
    lemma_flat_split(now, li);
    assert(now.subrange(li, n - 1) =~= before.subrange(li + 1, n));
    assert(now.subrange(0, li) =~= before.subrange(0, li));
}

/// The distinct prices of the flat sequence are the levels' prices.
pub proof fn lemma_ladder_prices(side: OrderAction, levels: Seq<OrdersBucket>)
    requires
        levels_ok(side, levels),
    ensures
        price_levels(flat_of(levels)) == ladder_prices(levels),
        ladder_prices(levels).len() == levels.len(),
    decreases levels.len(),
{
    if levels.len() > 0 {
        let rest = levels.drop_last();
        let last = levels.last();
        assert(rest =~= levels.subrange(0, levels.len() - 1));
        lemma_levels_ok_prefix(side, levels, levels.len() - 1);
        lemma_ladder_prices(side, rest);
        lemma_flat_ok(side, rest);
        assert(last == levels[levels.len() - 1]);
        assert(last.wf());
        if rest.len() > 0 {
            assert(rest.last() == levels[levels.len() - 2]);
            assert(levels[levels.len() - 2].wf());
            assert(better(side, levels[levels.len() - 1].price, levels[levels.len() - 2].price));
        }
        lemma_price_levels_group(last@, flat_of(rest), last.price);
    }
}

/// The `k`-th best price is that of the `k`-th level from the end.
pub proof fn lemma_ladder_price_at(levels: Seq<OrdersBucket>, k: int)
    requires
        0 <= k < levels.len(),
    ensures
        ladder_prices(levels).len() == levels.len(),
        ladder_prices(levels)[k] == levels[levels.len() - 1 - k].price,
    decreases levels.len(),
{
    lemma_ladder_prices_len(levels);
    if k > 0 {
        lemma_ladder_price_at(levels.drop_last(), k - 1);
        lemma_ladder_prices_len(levels.drop_last());
    }
}

pub proof fn lemma_ladder_prices_len(levels: Seq<OrdersBucket>)
    ensures
        ladder_prices(levels).len() == levels.len(),
    decreases levels.len(),
{
    if levels.len() > 0 {
        lemma_ladder_prices_len(levels.drop_last());
    }
}

/// What the flat sequence advertises at the price of level `li` is what
/// that level advertises.
pub proof fn lemma_level_visible(side: OrderAction, levels: Seq<OrdersBucket>, li: int)
    requires
        levels_ok(side, levels),
        0 <= li < levels.len(),
    ensures
        level_visible(flat_of(levels), levels[li].price) == levels[li].visible_volume,
{
    let n = levels.len() as int;
    let a = flat_of(levels.subrange(li + 1, n));
    let e = levels[li]@;
    let b = flat_of(levels.subrange(0, li));
    let f = level_shown_fn(levels[li].price);
    lemma_level_parts(side, levels, li);
    lemma_sum_by_concat(a + e, b, f);
    lemma_sum_by_concat(a, e, f);
    lemma_sum_by_zero(a, f);
    lemma_sum_by_zero(b, f);
    lemma_sum_by_same(e, f, shown_fn());
    assert(levels[li].wf());
}

/// All orders of the levels from `i` on go before a newcomer at `price`
/// when those levels are strictly better than it.
pub proof fn lemma_upper_levels_ahead(
    side: OrderAction,
    levels: Seq<OrdersBucket>,
    i: int,
    price: Price,
)
    requires
        levels_ok(side, levels),
        0 <= i <= levels.len(),
        forall|j: int| i <= j < levels.len() ==> better(side, (#[trigger] levels[j]).price, price),
    ensures
        forall|k: int|
            0 <= k < flat_of(levels.subrange(i, levels.len() as int)).len() ==> ahead(
                side,
                (#[trigger] flat_of(levels.subrange(i, levels.len() as int))[k]).price,
                price,
            ),
{
    let hi = levels.subrange(i, levels.len() as int);
    let goes_first = |o: Order| ahead(side, o.price, price);
    assert forall|a: int, k: int| 0 <= a < hi.len() && 0 <= k < hi[a]@.len() implies goes_first(
        #[trigger] hi[a]@[k],
    ) by {
        assert(hi[a] == levels[a + i]);
        assert(levels[a + i].wf());
        assert(better(side, levels[a + i].price, price));
    }
    lemma_flat_all(hi, goes_first);
}

/// No order of the levels below `i` goes before a newcomer at `price` when
/// the level just below `i` is strictly worse than it.
pub proof fn lemma_lower_levels_behind(
    side: OrderAction,
    levels: Seq<OrdersBucket>,
    i: int,
    price: Price,
)
    requires
        levels_ok(side, levels),
        0 <= i <= levels.len(),
        i > 0 ==> better(side, price, levels[i - 1].price),
    ensures
        flat_of(levels.subrange(0, i)).len() > 0 ==> !ahead(
            side,
            flat_of(levels.subrange(0, i))[0].price,
            price,
        ),
{
    let lo = levels.subrange(0, i);
    lemma_levels_ok_prefix(side, levels, i);
    lemma_flat_ok(side, lo);
    if lo.len() > 0 {
        assert(lo.last() == levels[i - 1]);
        assert(levels[i - 1].wf());
    }
}

/// Appending `order` to the level below index `i`, which has its price,
/// rests it.
pub proof fn lemma_rested_in_level(
    side: OrderAction,
    before: Seq<OrdersBucket>,
    now: Seq<OrdersBucket>,
    i: int,
    order: Order,
)
    requires
        levels_ok(side, before),
        0 < i <= before.len(),
        forall|j: int| i <= j < before.len() ==> better(side, (#[trigger] before[j]).price, order.price),
        before[i - 1].price == order.price,
        order.action == side,
        now.len() == before.len(),
        now =~= before.update(i - 1, now[i - 1]),
        now[i - 1].wf(),
        now[i - 1].price == order.price,
        now[i - 1]@ == before[i - 1]@.push(order),
    ensures
        levels_ok(side, now),
        flat_of(now) == rested(side, flat_of(before), order),
{
    let n = before.len() as int;
    let hi = before.subrange(i, n);
    let lo = before.subrange(0, i - 1);
    let e = before[i - 1];
    let e2 = now[i - 1];
    let flat = flat_of(before);
    assert(e.wf());
    lemma_flat_split(before, i);
    lemma_flat_split(before.subrange(0, i), i - 1);
    assert(before.subrange(0, i).subrange(0, i - 1) =~= lo);
    assert(before.subrange(0, i).subrange(i - 1, i) =~= seq![e]);
    lemma_flat_one(e);
    lemma_upper_levels_ahead(side, before, i, order.price);
    if i - 1 > 0 {
        assert(better(side, before[i - 1].price, before[i - 2].price));
    }
    lemma_lower_levels_behind(side, before, i - 1, order.price);
    let prefix = flat_of(hi) + e@;
    assert forall|k: int| 0 <= k < prefix.len() implies ahead(
        side,
        (#[trigger] prefix[k]).price,
        order.price,
    ) by {
        if k < flat_of(hi).len() {
            assert(prefix[k] == flat_of(hi)[k]);
        } else {
            assert(prefix[k] == e@[k - flat_of(hi).len()]);
        }
    }
    assert(flat =~= prefix + flat_of(lo));
    lemma_rest_at_prefix(side, prefix, flat_of(lo), order.price);
    lemma_flat_split(now, i);
    assert(now.subrange(i, n) =~= hi);
    lemma_flat_split(now.subrange(0, i), i - 1);
    assert(now.subrange(0, i).subrange(0, i - 1) =~= lo);
    assert(now.subrange(0, i).subrange(i - 1, i) =~= seq![e2]);
    lemma_flat_one(e2);
    assert(flat_of(now) =~= rested(side, flat, order));
    assert forall|a: int| 0 <= a < now.len() implies (#[trigger] now[a]).wf() && now[a]@.len()
        > 0 by {
        if a != i - 1 {
            assert(now[a] == before[a]);
        }
    }
    assert forall|a: int, k: int| 0 <= a < now.len() && 0 <= k < now[a]@.len() implies (
    #[trigger] now[a]@[k]).action == side by {
        if a != i - 1 {
            assert(now[a] == before[a]);
        } else if k < e@.len() {
            assert(now[a]@[k] == before[a]@[k]);
        }
    }
    assert forall|a: int, b: int| 0 <= a < b < now.len() implies better(
        side,
        (#[trigger] now[b]).price,
        (#[trigger] now[a]).price,
    ) by {
        assert(now[a].price == before[a].price);
        assert(now[b].price == before[b].price);
    }
}

/// A level of a new price put at index `i`, between the strictly better and
/// the strictly worse levels, keeps the levels valid.
pub proof fn lemma_new_level_ok(
    side: OrderAction,
    before: Seq<OrdersBucket>,
    now: Seq<OrdersBucket>,
    i: int,
    price: Price,
)
    requires
        levels_ok(side, before),
        0 <= i <= before.len(),
        forall|j: int| i <= j < before.len() ==> better(side, (#[trigger] before[j]).price, price),
        i > 0 ==> !better(side, before[i - 1].price, price) && before[i - 1].price != price,
        now.len() == before.len() + 1,
        forall|a: int| 0 <= a < i ==> #[trigger] now[a] == before[a],
        forall|a: int| i < a < now.len() ==> #[trigger] now[a] == before[a - 1],
        now[i].wf(),
        now[i].price == price,
        now[i]@.len() > 0,
        forall|k: int| 0 <= k < now[i]@.len() ==> (#[trigger] now[i]@[k]).action == side,
    ensures
        levels_ok(side, now),
{
    assert forall|a: int| 0 <= a < now.len() implies (#[trigger] now[a]).wf() && now[a]@.len()
        > 0 by {
        if a < i {
            assert(now[a] == before[a]);
        } else if a > i {
            assert(now[a] == before[a - 1]);
        }
    }
    assert forall|a: int, k: int| 0 <= a < now.len() && 0 <= k < now[a]@.len() implies (
    #[trigger] now[a]@[k]).action == side by {
        if a < i {
            assert(now[a] == before[a]);
            assert(before[a]@[k].action == side);
        } else if a > i {
            assert(now[a] == before[a - 1]);
            assert(before[a - 1]@[k].action == side);
        }
    }
    assert forall|a: int, c: int| 0 <= a < c < now.len() implies better(
        side,
        (#[trigger] now[c]).price,
        (#[trigger] now[a]).price,
    ) by {
        if c < i {
            assert(now[a] == before[a]);
            assert(now[c] == before[c]);
            assert(better(side, before[c].price, before[a].price));
        } else if c == i {
            assert(now[a] == before[a]);
            if a < i - 1 {
                assert(better(side, before[i - 1].price, before[a].price));
            }
        } else if a < i {
            assert(now[a] == before[a]);
            assert(now[c] == before[c - 1]);
            assert(better(side, before[c - 1].price, before[a].price));
        } else if a == i {
            assert(now[c] == before[c - 1]);
            assert(better(side, before[c - 1].price, price));
        } else {
            assert(now[a] == before[a - 1]);
            assert(now[c] == before[c - 1]);
            assert(better(side, before[c - 1].price, before[a - 1].price));
        }
    }
}

/// Putting a level that holds just `order` at index `i`, between the
/// strictly better and the strictly worse levels, rests it.
pub proof fn lemma_rested_new_level(
    side: OrderAction,
    before: Seq<OrdersBucket>,
    now: Seq<OrdersBucket>,
    i: int,
    order: Order,
)
    requires
        levels_ok(side, before),
        0 <= i <= before.len(),
        forall|j: int| i <= j < before.len() ==> better(side, (#[trigger] before[j]).price, order.price),
        i > 0 ==> !better(side, before[i - 1].price, order.price) && before[i - 1].price
            != order.price,
        order.action == side,
        now.len() == before.len() + 1,
        now =~= before.insert(i, now[i]),
        now[i].wf(),
        now[i].price == order.price,
        now[i]@ == seq![order],
    ensures
        levels_ok(side, now),
        flat_of(now) == rested(side, flat_of(before), order),
{
    let n = before.len() as int;
    let hi = before.subrange(i, n);
    let lo = before.subrange(0, i);
    let b = now[i];
    let flat = flat_of(before);
    lemma_flat_split(before, i);
    lemma_upper_levels_ahead(side, before, i, order.price);
    lemma_lower_levels_behind(side, before, i, order.price);
    assert(flat =~= flat_of(hi) + flat_of(lo));
    lemma_rest_at_prefix(side, flat_of(hi), flat_of(lo), order.price);
    lemma_flat_split(now, i + 1);
    assert(now.subrange(i + 1, n + 1) =~= hi);
    lemma_flat_split(now.subrange(0, i + 1), i);
    assert(now.subrange(0, i + 1).subrange(0, i) =~= lo);
    assert(now.subrange(0, i + 1).subrange(i, i + 1) =~= seq![b]);
    lemma_flat_one(b);
    assert(flat_of(now) =~= rested(side, flat, order));
    lemma_new_level_ok(side, before, now, i, order.price);
}

} // verus!
