use crate::api::events::MatcherTradeEvent;
use crate::api::types::{OrderAction, OrderId, Price, Size};
use crate::orderbook::index::{handles, handles_get, handles_insert, handles_new, handles_remove};
use crate::orderbook::bucket::{lemma_cost_bound, COST_SPAN, PRICE_SPAN};
use crate::orderbook::ladder::{better, is_better};
use crate::orderbook::model::{
    ahead, all_live, cost_to_fill, has_id, ids_distinct, in_priority, left_fn, lemma_insert_distinct,
    lemma_match_keeps, lemma_position, lemma_position_unique, lemma_remove_distinct,
    lemma_rest_at_prefix, lemma_sum_by_bounds, lemma_sum_by_insert, lemma_sum_by_remove,
    lemma_sum_by_same, lemma_sum_by_update, lemma_sum_by_zero, lemma_visible_within_volume,
    lemma_price_levels_group, level_left_fn, level_shown_fn, level_visible, level_volume,
    match_queue, min_int, position_of, price_levels, queue_volume, rest_at, rested, take_cost, MatchOutcome, Order,
    Taker,
};
use crate::orderbook::rules::{lemma_ids_after_insert, lemma_ids_after_remove, lemma_rest_at, lemma_spot};
use crate::orderbook::store::{DirectOrder, NodeStore};
use vstd::prelude::*;

verus! {

/// One price level of a threaded side: what is left at the price, and the
/// handle of the last order at it.
#[derive(Debug, Clone, Copy, PartialEq, Eq, Structural)]
pub struct Bucket {
    pub price: Price,
    pub volume: Size,
    pub tail: usize,
}

/// The orders of the nodes `chain`, in chain order.
pub open spec fn orders_of(nodes: Map<usize, DirectOrder>, chain: Seq<usize>) -> Seq<Order> {
    Seq::new(chain.len(), |i: int| nodes[chain[i]].order)
}

/// `chain` lists the handles of all nodes once, each node is linked to its
/// neighbours in the chain, and `head` is the first handle.
pub open spec fn chain_ok(
    nodes: Map<usize, DirectOrder>,
    chain: Seq<usize>,
    head: Option<usize>,
) -> bool {
    &&& forall|i: int, j: int| 0 <= i < j < chain.len() ==> chain[i] != chain[j]
    &&& forall|key: usize| nodes.contains_key(key) <==> chain.contains(key)
    &&& forall|i: int|
        0 <= i < chain.len() ==> (#[trigger] nodes[chain[i]]).prev == (if i == 0 {
            None
        } else {
            Some(chain[i - 1])
        }) && nodes[chain[i]].next == (if i + 1 == chain.len() {
            None
        } else {
            Some(chain[i + 1])
        })
    &&& head == (if chain.len() > 0 {
        Some(chain[0])
    } else {
        None
    })
}

/// The index holds exactly the ids of the side, each with the handle of its
/// node.
pub open spec fn index_ok(found: Map<OrderId, usize>, view: Seq<Order>, chain: Seq<usize>) -> bool {
    &&& view.len() == chain.len()
    &&& forall|i: int|
        0 <= i < view.len() ==> found.contains_key((#[trigger] view[i]).order_id)
            && found[view[i].order_id] == chain[i]
    &&& forall|id: OrderId| found.contains_key(id) ==> has_id(view, id)
}

/// A level of price `price` exists.
pub open spec fn has_level(levels: Seq<Bucket>, price: Price) -> bool {
    exists|l: int| 0 <= l < levels.len() && (#[trigger] levels[l]).price == price
}

/// The levels stand from worst to best, one for each price at which an
/// order rests; each holds what is left at its price and the handle of the
/// last order at it.
pub open spec fn buckets_ok(
    side: OrderAction,
    levels: Seq<Bucket>,
    view: Seq<Order>,
    chain: Seq<usize>,
) -> bool {
    &&& forall|l: int|
        0 <= l < levels.len() ==> (#[trigger] levels[l]).volume == level_volume(
            view,
            levels[l].price,
        ) && levels[l].volume > 0
    &&& forall|l: int, m: int|
        0 <= l < m < levels.len() ==> better(
            side,
            (#[trigger] levels[m]).price,
            (#[trigger] levels[l]).price,
        )
    &&& forall|i: int| 0 <= i < view.len() ==> has_level(levels, (#[trigger] view[i]).price)
    &&& forall|l: int|
        0 <= l < levels.len() ==> 0 < rest_at(side, view, (#[trigger] levels[l]).price)
            <= chain.len() && chain[rest_at(side, view, levels[l].price) - 1] == levels[l].tail
}

/// The orders are live, on one side, in priority order, of distinct ids and
/// within 64 bits in total; none advertises less than is left of it.
pub open spec fn view_ok(side: OrderAction, view: Seq<Order>) -> bool {
    &&& all_live(side, view)
    &&& in_priority(side, view)
    &&& ids_distinct(view)
    &&& queue_volume(view) <= i64::MAX
    &&& forall|i: int| 0 <= i < view.len() ==> (#[trigger] view[i]).visible_size.is_none()
}

/// A position `k` that parts the orders ahead of price `x` from the others
/// is the resting place for `x`.
pub proof fn lemma_rest_at_unique(side: OrderAction, q: Seq<Order>, x: Price, k: int)
    requires
        0 <= k <= q.len(),
        forall|i: int| 0 <= i < k ==> ahead(side, (#[trigger] q[i]).price, x),
        k < q.len() ==> !ahead(side, q[k].price, x),
    ensures
        rest_at(side, q, x) == k,
{
    let a = q.subrange(0, k);
    let b = q.subrange(k, q.len() as int);
    assert(q =~= a + b);
    assert forall|i: int| 0 <= i < a.len() implies ahead(side, (#[trigger] a[i]).price, x) by {
        assert(a[i] == q[i]);
    }
    if b.len() > 0 {
        assert(b[0] == q[k]);
    }
    lemma_rest_at_prefix(side, a, b, x);
}

/// Resting an order moves the resting place of every price behind it by
/// one, and of no other.
pub proof fn lemma_rest_at_after_insert(side: OrderAction, q: Seq<Order>, o: Order, x: Price)
    requires
        in_priority(side, q),
    ensures
        rest_at(side, rested(side, q, o), x) == rest_at(side, q, x) + (if ahead(
            side,
            o.price,
            x,
        ) {
            1int
        } else {
            0int
        }),
        ahead(side, o.price, x) ==> rest_at(side, q, o.price) <= rest_at(side, q, x),
        !ahead(side, o.price, x) ==> rest_at(side, q, x) <= rest_at(side, q, o.price),
{
    let k = rest_at(side, q, o.price);
    let r = rest_at(side, q, x);
    let u = q.insert(k, o);
    lemma_rest_at(side, q, o.price);
    lemma_rest_at(side, q, x);
    if ahead(side, o.price, x) {
        if r < k {
            assert(ahead(side, q[r].price, o.price));
            assert(!ahead(side, q[r].price, x));
        }
        assert forall|i: int| 0 <= i < r + 1 implies ahead(side, (#[trigger] u[i]).price, x) by {
            if i < k {
                assert(u[i] == q[i]);
                assert(ahead(side, q[i].price, o.price));
            } else if i > k {
                assert(u[i] == q[i - 1]);
            }
        }
        if r + 1 < u.len() {
            assert(u[r + 1] == q[r]);
        }
        lemma_rest_at_unique(side, u, x, r + 1);
    } else {
        if k < r {
            assert(ahead(side, q[k].price, x));
            assert(!ahead(side, q[k].price, o.price));
        }
        assert forall|i: int| 0 <= i < r implies ahead(side, (#[trigger] u[i]).price, x) by {
            assert(u[i] == q[i]);
        }
        if r < u.len() {
            if r < k {
                assert(u[r] == q[r]);
            } else {
                assert(u[r] == o);
            }
        }
        lemma_rest_at_unique(side, u, x, r);
    }
}

/// Taking out the order at position `k` moves the resting place of every
/// price behind it back by one, and of no other.
pub proof fn lemma_rest_at_after_remove(side: OrderAction, q: Seq<Order>, k: int, x: Price)
    requires
        in_priority(side, q),
        0 <= k < q.len(),
    ensures
        rest_at(side, q.remove(k), x) == rest_at(side, q, x) - (if ahead(side, q[k].price, x) {
            1int
        } else {
            0int
        }),
        ahead(side, q[k].price, x) <==> k < rest_at(side, q, x),
{
    let r = rest_at(side, q, x);
    let u = q.remove(k);
    lemma_rest_at(side, q, x);
    if k < r {
        assert(ahead(side, q[k].price, x));
        assert forall|i: int| 0 <= i < r - 1 implies ahead(side, (#[trigger] u[i]).price, x) by {
            if i < k {
                assert(u[i] == q[i]);
            } else {
                assert(u[i] == q[i + 1]);
            }
        }
        if r - 1 < u.len() {
            assert(u[r - 1] == q[r]);
        }
        lemma_rest_at_unique(side, u, x, r - 1);
    } else {
        assert(!ahead(side, q[k].price, x));
        assert forall|i: int| 0 <= i < r implies ahead(side, (#[trigger] u[i]).price, x) by {
            assert(u[i] == q[i]);
        }
        if r < u.len() {
            if r < k {
                assert(u[r] == q[r]);
            } else {
                assert(u[r] == q[r + 1]);
            }
        }
        lemma_rest_at_unique(side, u, x, r);
    }
}

/// Orders of the same prices have the same resting places.
pub proof fn lemma_rest_at_same_prices(side: OrderAction, q: Seq<Order>, u: Seq<Order>, x: Price)
    requires
        in_priority(side, q),
        q.len() == u.len(),
        forall|i: int| 0 <= i < q.len() ==> (#[trigger] u[i]).price == q[i].price,
    ensures
        rest_at(side, u, x) == rest_at(side, q, x),
{
    let r = rest_at(side, q, x);
    lemma_rest_at(side, q, x);
    assert forall|i: int| 0 <= i < r implies ahead(side, (#[trigger] u[i]).price, x) by {
        assert(ahead(side, q[i].price, x));
    }
    if r < u.len() {
        assert(!ahead(side, q[r].price, x));
    }
    lemma_rest_at_unique(side, u, x, r);
}

/// Where something is left at a price, an order rests at it; where an order
/// rests, something is left.
pub proof fn lemma_level_has_order(view: Seq<Order>, x: Price)
    requires
        forall|i: int| 0 <= i < view.len() ==> (#[trigger] view[i]).live(),
    ensures
        level_volume(view, x) >= 0,
        level_volume(view, x) > 0 <==> exists|j: int|
            0 <= j < view.len() && (#[trigger] view[j]).price == x,
{
    let f = level_left_fn(x);
    assert forall|i: int| 0 <= i < view.len() implies f(#[trigger] view[i]) >= 0 by {
        assert(view[i].live());
    }
    lemma_sum_by_bounds(view, f);
    if exists|j: int| 0 <= j < view.len() && (#[trigger] view[j]).price == x {
        let j = choose|j: int| 0 <= j < view.len() && (#[trigger] view[j]).price == x;
        assert(view[j].live());
        assert(f(view[j]) <= level_volume(view, x));
    } else {
        assert forall|i: int| 0 <= i < view.len() implies f(#[trigger] view[i]) == 0 by {}
        lemma_sum_by_zero(view, f);
    }
}

/// Unlinking the node at position `k`: with its neighbours joined and its
/// handle freed, the chain is the old one without that position.
pub proof fn lemma_unlinked(
    nodes: Map<usize, DirectOrder>,
    chain: Seq<usize>,
    head: Option<usize>,
    k: int,
    nodes2: Map<usize, DirectOrder>,
    head2: Option<usize>,
)
    requires
        chain_ok(nodes, chain, head),
        0 <= k < chain.len(),
        forall|key: usize| nodes2.contains_key(key) <==> nodes.contains_key(key) && key != chain[k],
        forall|key: usize| #[trigger]
            nodes2.contains_key(key) ==> nodes2[key].order == nodes[key].order && nodes2[key].prev
                == (if nodes[chain[k]].next == Some(key) {
                nodes[chain[k]].prev
            } else {
                nodes[key].prev
            }) && nodes2[key].next == (if nodes[chain[k]].prev == Some(key) {
                nodes[chain[k]].next
            } else {
                nodes[key].next
            }),
        head2 == (if k == 0 {
            nodes[chain[k]].next
        } else {
            head
        }),
    ensures
        chain_ok(nodes2, chain.remove(k), head2),
        orders_of(nodes2, chain.remove(k)) =~= orders_of(nodes, chain).remove(k),
{
    let c2 = chain.remove(k);
    assert forall|i: int| 0 <= i < c2.len() implies c2[i] == chain[if i < k { i } else { i + 1 }]
        && nodes2.contains_key(#[trigger] c2[i]) by {
        let i0 = if i < k { i } else { i + 1 };
        assert(c2[i] == chain[i0]);
        assert(chain.contains(chain[i0]));
        assert(chain[i0] != chain[k]);
    }
    assert forall|i: int, j: int| 0 <= i < j < c2.len() implies c2[i] != c2[j] by {
        let i0 = if i < k { i } else { i + 1 };
        let j0 = if j < k { j } else { j + 1 };
        assert(chain[i0] != chain[j0]);
    }
    assert forall|key: usize| nodes2.contains_key(key) <==> c2.contains(key) by {
        if nodes2.contains_key(key) {
            assert(chain.contains(key));
            let i0 = choose|i: int| 0 <= i < chain.len() && chain[i] == key;
            let i = if i0 < k { i0 } else { i0 - 1 };
            assert(c2[i] == key);
        }
        if c2.contains(key) {
            let i = choose|i: int| 0 <= i < c2.len() && c2[i] == key;
            assert(nodes2.contains_key(c2[i]));
        }
    }
    assert forall|i: int| 0 <= i < c2.len() implies (#[trigger] nodes2[c2[i]]).prev == (if i
        == 0 {
        None
    } else {
        Some(c2[i - 1])
    }) && nodes2[c2[i]].next == (if i + 1 == c2.len() {
        None
    } else {
        Some(c2[i + 1])
    }) by {
        let i0 = if i < k { i } else { i + 1 };
        assert(c2[i] == chain[i0]);
        assert(nodes2.contains_key(c2[i]));
        let n = nodes[chain[k]];
        let was = nodes[chain[i0]];
        assert(was.prev == (if i0 == 0 { None } else { Some(chain[i0 - 1]) }));
        assert(was.next == (if i0 + 1 == chain.len() { None } else { Some(chain[i0 + 1]) }));
        assert(n.prev == (if k == 0 { None } else { Some(chain[k - 1]) }));
        assert(n.next == (if k + 1 == chain.len() { None } else { Some(chain[k + 1]) }));
        if i0 == k + 1 {
        } else if k + 1 < chain.len() {
            assert(chain[i0] != chain[k + 1]);
        }
        if i0 == k - 1 {
        } else if k > 0 {
            assert(chain[i0] != chain[k - 1]);
        }
        if i > 0 {
            assert(c2[i - 1] == chain[if i - 1 < k { i - 1 } else { i }]);
        }
        if i + 1 < c2.len() {
            assert(c2[i + 1] == chain[if i + 1 < k { i + 1 } else { i + 2 }]);
        }
    }
    if c2.len() > 0 {
        assert(c2[0] == chain[if 0 < k { 0int } else { 1int }]);
    }
    assert(nodes[chain[k]].next == (if k + 1 == chain.len() { None } else { Some(chain[k + 1]) }));
    assert forall|i: int| 0 <= i < c2.len() implies orders_of(nodes2, c2)[i] == orders_of(
        nodes,
        chain,
    ).remove(k)[i] by {
        assert(nodes2.contains_key(c2[i]));
    }
}

/// Linking a node under a new handle at position `k`: with its neighbours
/// pointing at it, the chain is the old one with the handle at that
/// position.
#[verifier::rlimit(80)]
#[verifier::spinoff_prover]
pub proof fn lemma_linked(
    nodes: Map<usize, DirectOrder>,
    chain: Seq<usize>,
    head: Option<usize>,
    k: int,
    key: usize,
    o: Order,
    nodes2: Map<usize, DirectOrder>,
    head2: Option<usize>,
)
    requires
        chain_ok(nodes, chain, head),
        0 <= k <= chain.len(),
        !nodes.contains_key(key),
        forall|x: usize| nodes2.contains_key(x) <==> nodes.contains_key(x) || x == key,
        nodes2[key] == (DirectOrder {
            order: o,
            prev: if k == 0 {
                None
            } else {
                Some(chain[k - 1])
            },
            next: if k == chain.len() {
                None
            } else {
                Some(chain[k])
            },
        }),
        forall|x: usize| #[trigger]
            nodes.contains_key(x) ==> nodes2[x].order == nodes[x].order && nodes2[x].prev == (if k
                < chain.len() && chain[k] == x {
                Some(key)
            } else {
                nodes[x].prev
            }) && nodes2[x].next == (if k > 0 && chain[k - 1] == x {
                Some(key)
            } else {
                nodes[x].next
            }),
        head2 == (if k == 0 {
            Some(key)
        } else {
            head
        }),
    ensures
        chain_ok(nodes2, chain.insert(k, key), head2),
        orders_of(nodes2, chain.insert(k, key)) =~= orders_of(nodes, chain).insert(k, o),
{
    let c2 = chain.insert(k, key);
    assert forall|i: int| 0 <= i < chain.len() implies nodes.contains_key(#[trigger] chain[i])
        && chain[i] != key by {
        assert(chain.contains(chain[i]));
    }
    assert forall|i: int, j: int| 0 <= i < j < c2.len() implies c2[i] != c2[j] by {
        let i0 = if i < k { i } else { i - 1 };
        let j0 = if j < k { j } else { j - 1 };
        if i == k {
            assert(c2[j] == chain[j0]);
        } else if j == k {
            assert(c2[i] == chain[i0]);
        } else {
            assert(c2[i] == chain[i0]);
            assert(c2[j] == chain[j0]);
            assert(chain[i0] != chain[j0]);
        }
    }
    assert forall|x: usize| nodes2.contains_key(x) <==> c2.contains(x) by {
        if nodes.contains_key(x) {
            assert(chain.contains(x));
            let i0 = choose|i: int| 0 <= i < chain.len() && chain[i] == x;
            let i = if i0 < k { i0 } else { i0 + 1 };
            assert(c2[i] == x);
        }
        if x == key {
            assert(c2[k] == key);
        }
        if c2.contains(x) {
            let i = choose|i: int| 0 <= i < c2.len() && c2[i] == x;
            if i != k {
                assert(c2[i] == chain[if i < k { i } else { i - 1 }]);
            }
        }
    }
    assert forall|i: int| 0 <= i < c2.len() implies (#[trigger] nodes2[c2[i]]).prev == (if i
        == 0 {
        None
    } else {
        Some(c2[i - 1])
    }) && nodes2[c2[i]].next == (if i + 1 == c2.len() {
        None
    } else {
        Some(c2[i + 1])
    }) by {
        if i == k {
            if k > 0 {
                assert(c2[k - 1] == chain[k - 1]);
            }
            if k < chain.len() {
                assert(c2[k + 1] == chain[k]);
            }
        } else {
            let i0 = if i < k { i } else { i - 1 };
            assert(c2[i] == chain[i0]);
            let was = nodes[chain[i0]];
            assert(was.prev == (if i0 == 0 { None } else { Some(chain[i0 - 1]) }));
            assert(was.next == (if i0 + 1 == chain.len() { None } else { Some(chain[i0 + 1]) }));
            if k < chain.len() && i0 != k {
                assert(chain[i0] != chain[k]);
            }
            if k > 0 && i0 != k - 1 {
                assert(chain[i0] != chain[k - 1]);
            }
            if i > 0 && i - 1 != k {
                assert(c2[i - 1] == chain[if i - 1 < k { i - 1 } else { i - 2 }]);
            }
            if i + 1 < c2.len() && i + 1 != k {
                assert(c2[i + 1] == chain[if i + 1 < k { i + 1 } else { i }]);
            }
        }
    }
    if k > 0 {
        assert(c2[0] == chain[0]);
    }
    assert forall|i: int| 0 <= i < c2.len() implies orders_of(nodes2, c2)[i] == orders_of(
        nodes,
        chain,
    ).insert(k, o)[i] by {
        if i != k {
            let i0 = if i < k { i } else { i - 1 };
            assert(c2[i] == chain[i0]);
        }
    }
}

/// Replacing the order of the node at position `k`, links untouched, leaves
/// the chain as it is.
pub proof fn lemma_amended(
    nodes: Map<usize, DirectOrder>,
    chain: Seq<usize>,
    head: Option<usize>,
    k: int,
    o: Order,
)
    requires
        chain_ok(nodes, chain, head),
        0 <= k < chain.len(),
    ensures
        chain_ok(nodes.insert(chain[k], (DirectOrder { order: o, ..nodes[chain[k]] })), chain, head),
        orders_of(nodes.insert(chain[k], (DirectOrder { order: o, ..nodes[chain[k]] })), chain)
            =~= orders_of(nodes, chain).update(k, o),
{
    let nodes2 = nodes.insert(chain[k], DirectOrder { order: o, ..nodes[chain[k]] });
    assert forall|i: int| 0 <= i < chain.len() implies nodes.contains_key(#[trigger] chain[i]) by {
        assert(chain.contains(chain[i]));
    }
    assert forall|i: int| 0 <= i < chain.len() implies (#[trigger] nodes2[chain[i]]).prev
        == nodes[chain[i]].prev && nodes2[chain[i]].next == nodes[chain[i]].next by {}
    assert forall|i: int| 0 <= i < chain.len() implies orders_of(nodes2, chain)[i] == orders_of(
        nodes,
        chain,
    ).update(k, o)[i] by {
        if i != k {
            assert(chain[i] != chain[k]);
        }
    }
}

/// Where an order rests at price `x`, the last order that goes before a
/// newcomer at `x` is at that price.
pub proof fn lemma_tail_price(side: OrderAction, view: Seq<Order>, x: Price, j: int)
    requires
        in_priority(side, view),
        0 <= j < view.len(),
        view[j].price == x,
    ensures
        j < rest_at(side, view, x) <= view.len(),
        view[rest_at(side, view, x) - 1].price == x,
{
    lemma_rest_at(side, view, x);
    let r = rest_at(side, view, x);
    if j >= r {
        assert(!ahead(side, view[j].price, x));
    }
    if j < r - 1 {
        assert(ahead(side, view[j].price, view[r - 1].price));
        assert(ahead(side, view[r - 1].price, x));
    }
}

pub proof fn lemma_index_after_remove(
    found: Map<OrderId, usize>,
    view: Seq<Order>,
    chain: Seq<usize>,
    k: int,
)
    requires
        index_ok(found, view, chain),
        ids_distinct(view),
        0 <= k < view.len(),
    ensures
        index_ok(found.remove(view[k].order_id), view.remove(k), chain.remove(k)),
{
    let u = view.remove(k);
    let c2 = chain.remove(k);
    lemma_ids_after_remove(view, k);
    assert forall|i: int| 0 <= i < u.len() implies found.remove(view[k].order_id).contains_key(
        (#[trigger] u[i]).order_id,
    ) && found.remove(view[k].order_id)[u[i].order_id] == c2[i] by {
        let i0 = if i < k { i } else { i + 1 };
        assert(u[i] == view[i0]);
        assert(c2[i] == chain[i0]);
        if i0 < k {
            assert(view[i0].order_id != view[k].order_id);
        } else {
            assert(view[k].order_id != view[i0].order_id);
        }
    }
    assert forall|id: OrderId| found.remove(view[k].order_id).contains_key(id) implies has_id(
        u,
        id,
    ) by {
        assert(has_id(view, id));
        assert(has_id(u, id) <==> has_id(view, id) && id != view[k].order_id);
    }
}

pub proof fn lemma_index_after_insert(
    found: Map<OrderId, usize>,
    view: Seq<Order>,
    chain: Seq<usize>,
    k: int,
    o: Order,
    key: usize,
)
    requires
        index_ok(found, view, chain),
        ids_distinct(view),
        !has_id(view, o.order_id),
        0 <= k <= view.len(),
    ensures
        index_ok(found.insert(o.order_id, key), view.insert(k, o), chain.insert(k, key)),
{
    let u = view.insert(k, o);
    let c2 = chain.insert(k, key);
    lemma_ids_after_insert(view, k, o);
    lemma_position(view, o.order_id);
    assert forall|i: int| 0 <= i < u.len() implies found.insert(o.order_id, key).contains_key(
        (#[trigger] u[i]).order_id,
    ) && found.insert(o.order_id, key)[u[i].order_id] == c2[i] by {
        if i != k {
            let i0 = if i < k { i } else { i - 1 };
            assert(u[i] == view[i0]);
            assert(c2[i] == chain[i0]);
            assert(view[i0].order_id != o.order_id);
        }
    }
    assert forall|id: OrderId| found.insert(o.order_id, key).contains_key(id) implies has_id(
        u,
        id,
    ) by {
        assert(has_id(u, id) <==> has_id(view, id) || id == o.order_id);
        if id != o.order_id {
            assert(found.contains_key(id));
        }
    }
}

pub proof fn lemma_index_after_update(
    found: Map<OrderId, usize>,
    view: Seq<Order>,
    chain: Seq<usize>,
    k: int,
    o: Order,
)
    requires
        index_ok(found, view, chain),
        0 <= k < view.len(),
        o.order_id == view[k].order_id,
    ensures
        index_ok(found, view.update(k, o), chain),
        ids_distinct(view) ==> ids_distinct(view.update(k, o)),
{
    let u = view.update(k, o);
    assert forall|i: int| 0 <= i < u.len() implies (#[trigger] u[i]).order_id
        == view[i].order_id by {}
    assert forall|id: OrderId| found.contains_key(id) implies has_id(u, id) by {
        lemma_position(view, id);
        lemma_position(u, id);
        assert(u[position_of(view, id)].order_id == id);
    }
    if ids_distinct(view) {
        assert forall|i: int, j: int| 0 <= i < j < u.len() implies (#[trigger] u[i]).order_id != (
        #[trigger] u[j]).order_id by {
            assert(view[i].order_id != view[j].order_id);
        }
    }
}

/// The levels above index `i` are strictly better than `price`, the level
/// below is not.
pub open spec fn slot(side: OrderAction, levels: Seq<Bucket>, price: Price, i: int) -> bool {
    &&& 0 <= i <= levels.len()
    &&& forall|j: int| i <= j < levels.len() ==> better(side, (#[trigger] levels[j]).price, price)
    &&& i > 0 ==> !better(side, levels[i - 1].price, price)
}

/// An order's level stands just below the slot of its price.
pub proof fn lemma_level_of(
    side: OrderAction,
    levels: Seq<Bucket>,
    view: Seq<Order>,
    chain: Seq<usize>,
    k: int,
    i: int,
)
    requires
        buckets_ok(side, levels, view, chain),
        0 <= k < view.len(),
        slot(side, levels, view[k].price, i),
    ensures
        i > 0,
        levels[i - 1].price == view[k].price,
{
    assert(has_level(levels, view[k].price));
    let l = choose|l: int| 0 <= l < levels.len() && (#[trigger] levels[l]).price == view[k].price;
    if l >= i {
        assert(better(side, levels[l].price, view[k].price));
    }
    if l < i - 1 {
        assert(better(side, levels[i - 1].price, levels[l].price));
    }
}

/// Where a newcomer at `price` rests: behind the last order of its level
/// if there is one, else behind the last order of the nearest better
/// level, else in front.
pub proof fn lemma_rest_place(
    side: OrderAction,
    levels: Seq<Bucket>,
    view: Seq<Order>,
    chain: Seq<usize>,
    price: Price,
    i: int,
)
    requires
        buckets_ok(side, levels, view, chain),
        in_priority(side, view),
        view.len() == chain.len(),
        slot(side, levels, price, i),
    ensures
        0 <= rest_at(side, view, price) <= view.len(),
        i > 0 && levels[i - 1].price == price ==> rest_at(side, view, price) > 0 && chain[rest_at(
            side,
            view,
            price,
        ) - 1] == levels[i - 1].tail,
        !(i > 0 && levels[i - 1].price == price) && i < levels.len() ==> rest_at(
            side,
            view,
            price,
        ) > 0 && chain[rest_at(side, view, price) - 1] == levels[i].tail,
        !(i > 0 && levels[i - 1].price == price) && i == levels.len() ==> rest_at(
            side,
            view,
            price,
        ) == 0,
        !(i > 0 && levels[i - 1].price == price) ==> forall|j: int|
            0 <= j < view.len() ==> (#[trigger] view[j]).price != price,
{
    lemma_rest_at(side, view, price);
    if i > 0 && levels[i - 1].price == price {
    } else {
        assert forall|j: int| 0 <= j < view.len() implies (#[trigger] view[j]).price != price
            && (ahead(side, view[j].price, price) ==> i < levels.len() && ahead(
            side,
            view[j].price,
            levels[i].price,
        )) by {
            assert(has_level(levels, view[j].price));
            let l = choose|l: int|
                0 <= l < levels.len() && (#[trigger] levels[l]).price == view[j].price;
            if l >= i {
                assert(better(side, levels[l].price, price));
                if l > i {
                    assert(better(side, levels[l].price, levels[i].price));
                }
            } else {
                if l < i - 1 {
                    assert(better(side, levels[i - 1].price, levels[l].price));
                }
            }
        }
        if i < levels.len() {
            let y = levels[i].price;
            let r = rest_at(side, view, y);
            lemma_rest_at(side, view, y);
            assert(better(side, y, price));
            assert forall|j: int| 0 <= j < r implies ahead(side, (#[trigger] view[j]).price, price) by {
                assert(ahead(side, view[j].price, y));
            }
            if r < view.len() {
                assert(!ahead(side, view[r].price, y));
            }
            lemma_rest_at_unique(side, view, price, r);
        } else {
            if view.len() > 0 {
                assert(view[0].price != price);
            }
            lemma_rest_at_unique(side, view, price, 0);
        }
    }
}

/// The levels after the order at position `k`, of level `l`, has left and
/// its level was brought up to date: without that level if nothing is left
/// at its price, else with less volume and, if the order was the last at
/// its price, the order before it as tail.
pub proof fn lemma_buckets_after_remove(
    side: OrderAction,
    levels: Seq<Bucket>,
    view: Seq<Order>,
    chain: Seq<usize>,
    k: int,
    l: int,
    levels2: Seq<Bucket>,
)
    requires
        view_ok(side, view),
        buckets_ok(side, levels, view, chain),
        view.len() == chain.len(),
        forall|i: int, j: int| 0 <= i < j < chain.len() ==> chain[i] != chain[j],
        0 <= k < view.len(),
        0 <= l < levels.len(),
        levels[l].price == view[k].price,
        levels[l].volume == view[k].left() ==> levels2 =~= levels.remove(l),
        levels[l].volume != view[k].left() ==> k > 0 || levels[l].tail != chain[k],
        levels[l].volume != view[k].left() ==> levels2 =~= levels.update(
            l,
            (Bucket {
                price: levels[l].price,
                volume: (levels[l].volume - view[k].left()) as i64,
                tail: if levels[l].tail == chain[k] {
                    chain[k - 1]
                } else {
                    levels[l].tail
                },
            }),
        ),
    ensures
        buckets_ok(side, levels2, view.remove(k), chain.remove(k)),
        levels[l].volume >= view[k].left(),
{
    let p = view[k].price;
    let u = view.remove(k);
    let c2 = chain.remove(k);
    assert(view[k].live());
    assert forall|i: int| 0 <= i < u.len() implies (#[trigger] u[i]).live() && u[i]
        == view[if i < k { i } else { i + 1 }] by {}
    lemma_sum_by_remove(view, k, level_left_fn(p));
    lemma_level_has_order(u, p);
    let gone = levels[l].volume == view[k].left();
    assert forall|m: int| 0 <= m < levels.len() && (m != l || !gone) implies {
        let x = (#[trigger] levels[m]).price;
        let r2 = rest_at(side, u, x);
        &&& level_volume(u, x) == levels[m].volume - (if m == l {
            view[k].left()
        } else {
            0
        })
        &&& 0 < r2 <= c2.len()
        &&& c2[r2 - 1] == (if m == l && levels[l].tail == chain[k] {
            chain[k - 1]
        } else {
            levels[m].tail
        })
    } by {
        let x = levels[m].price;
        let r = rest_at(side, view, x);
        lemma_sum_by_remove(view, k, level_left_fn(x));
        lemma_rest_at_after_remove(side, view, k, x);
        lemma_level_has_order(view, x);
        let j = choose|j: int| 0 <= j < view.len() && (#[trigger] view[j]).price == x;
        lemma_tail_price(side, view, x, j);
        if m != l {
            if l < m {
                assert(better(side, levels[m].price, levels[l].price));
            } else {
                assert(better(side, levels[l].price, levels[m].price));
            }
            assert(x != p);
            if k < r {
                assert(k != r - 1);
                assert(c2[r - 2] == chain[r - 1]);
            } else {
                assert(c2[r - 1] == chain[r - 1]);
            }
        } else {
            lemma_level_has_order(u, x);
            let j2 = choose|j2: int| 0 <= j2 < u.len() && (#[trigger] u[j2]).price == x;
            crate::orderbook::rules::lemma_side_after_remove(side, view, k);
            lemma_tail_price(side, u, x, j2);
            if k == r - 1 {
                assert(c2[r - 2] == chain[r - 2]);
            } else {
                assert(chain[k] != chain[r - 1]);
                assert(c2[r - 2] == chain[r - 1]);
            }
        }
    }
    assert forall|i: int| 0 <= i < u.len() implies has_level(levels2, (#[trigger] u[i]).price) by {
        let i0 = if i < k { i } else { i + 1 };
        assert(has_level(levels, view[i0].price));
        let m = choose|m: int| 0 <= m < levels.len() && (#[trigger] levels[m]).price == view[i0].price;
        if gone {
            assert(m != l);
            let m2 = if m < l { m } else { m - 1 };
            assert(levels2[m2] == levels[m]);
        } else {
            assert(levels2[m].price == levels[m].price);
        }
    }
    if gone {
        assert forall|m: int| 0 <= m < levels2.len() implies levels2[m] == levels[if m < l {
            m
        } else {
            m + 1
        }] by {}
        assert forall|a: int, b: int| 0 <= a < b < levels2.len() implies better(
            side,
            (#[trigger] levels2[b]).price,
            (#[trigger] levels2[a]).price,
        ) by {
            let a0 = if a < l { a } else { a + 1 };
            let b0 = if b < l { b } else { b + 1 };
            assert(better(side, levels[b0].price, levels[a0].price));
        }
        assert forall|m: int| 0 <= m < levels2.len() implies (#[trigger] levels2[m]).volume
            == level_volume(u, levels2[m].price) && levels2[m].volume > 0 && 0 < rest_at(
            side,
            u,
            levels2[m].price,
        ) <= c2.len() && c2[rest_at(side, u, levels2[m].price) - 1] == levels2[m].tail by {
            let m0 = if m < l { m } else { m + 1 };
            assert(levels2[m] == levels[m0]);
            assert(levels[m0].volume > 0);
        }
    } else {
        assert forall|a: int, b: int| 0 <= a < b < levels2.len() implies better(
            side,
            (#[trigger] levels2[b]).price,
            (#[trigger] levels2[a]).price,
        ) by {
            assert(better(side, levels[b].price, levels[a].price));
        }
        assert forall|m: int| 0 <= m < levels2.len() implies (#[trigger] levels2[m]).volume
            == level_volume(u, levels2[m].price) && levels2[m].volume > 0 && 0 < rest_at(
            side,
            u,
            levels2[m].price,
        ) <= c2.len() && c2[rest_at(side, u, levels2[m].price) - 1] == levels2[m].tail by {
            assert(levels[m].volume > 0);
            if m != l {
                assert(levels2[m] == levels[m]);
            }
        }
    }
}

/// The levels after `o` has come to rest under handle `key` and its level
/// was brought up to date: the level of its price with more volume and the
/// new handle as tail, or a new level at slot `i`.
pub proof fn lemma_buckets_after_insert(
    side: OrderAction,
    levels: Seq<Bucket>,
    view: Seq<Order>,
    chain: Seq<usize>,
    o: Order,
    key: usize,
    i: int,
    levels2: Seq<Bucket>,
)
    requires
        view_ok(side, view),
        buckets_ok(side, levels, view, chain),
        view.len() == chain.len(),
        o.live(),
        slot(side, levels, o.price, i),
        i > 0 && levels[i - 1].price == o.price ==> levels2 =~= levels.update(
            i - 1,
            (Bucket {
                price: o.price,
                volume: (levels[i - 1].volume + o.left()) as i64,
                tail: key,
            }),
        ),
        !(i > 0 && levels[i - 1].price == o.price) ==> levels2 =~= levels.insert(
            i,
            (Bucket { price: o.price, volume: o.left() as i64, tail: key }),
        ),
        queue_volume(view) + o.left() <= i64::MAX,
    ensures
        buckets_ok(
            side,
            levels2,
            rested(side, view, o),
            chain.insert(rest_at(side, view, o.price), key),
        ),
{
    let p = o.price;
    let k = rest_at(side, view, p);
    let u = rested(side, view, o);
    let c2 = chain.insert(k, key);
    let old = i > 0 && levels[i - 1].price == p;
    lemma_rest_at(side, view, p);
    lemma_rest_place(side, levels, view, chain, p, i);
    lemma_sum_by_insert(view, k, o, level_left_fn(p));
    lemma_rest_at_after_insert(side, view, o, p);
    lemma_level_has_order(view, p);
    lemma_visible_within_volume(view);
    assert forall|a: int| 0 <= a < view.len() implies level_left_fn(p)(#[trigger] view[a])
        <= left_fn()(view[a]) by {
        assert(view[a].live());
    }
    crate::orderbook::model::lemma_sum_by_le(view, level_left_fn(p), left_fn());
    assert forall|m: int| 0 <= m < levels.len() implies {
        let x = (#[trigger] levels[m]).price;
        let r2 = rest_at(side, u, x);
        &&& level_volume(u, x) == levels[m].volume + (if x == p {
            o.left()
        } else {
            0
        })
        &&& 0 < r2 <= c2.len()
        &&& c2[r2 - 1] == (if x == p {
            key
        } else {
            levels[m].tail
        })
    } by {
        let x = levels[m].price;
        let r = rest_at(side, view, x);
        lemma_sum_by_insert(view, k, o, level_left_fn(x));
        lemma_rest_at_after_insert(side, view, o, x);
        lemma_level_has_order(view, x);
        let j = choose|j: int| 0 <= j < view.len() && (#[trigger] view[j]).price == x;
        lemma_tail_price(side, view, x, j);
        if x != p {
            if ahead(side, p, x) {
                if j < k {
                    assert(ahead(side, view[j].price, p));
                }
                assert(c2[r] == chain[r - 1]);
            } else {
                assert(c2[r - 1] == chain[r - 1]);
            }
        }
    }
    assert forall|a: int| 0 <= a < u.len() implies has_level(levels2, (#[trigger] u[a]).price) by {
        if a == k {
            if old {
                assert(levels2[i - 1].price == p);
            } else {
                assert(levels2[i].price == p);
            }
        } else {
            let a0 = if a < k { a } else { a - 1 };
            assert(u[a] == view[a0]);
            assert(has_level(levels, view[a0].price));
            let m = choose|m: int|
                0 <= m < levels.len() && (#[trigger] levels[m]).price == view[a0].price;
            if old {
                assert(levels2[m].price == levels[m].price);
            } else {
                let m2 = if m < i { m } else { m + 1 };
                assert(levels2[m2] == levels[m]);
            }
        }
    }
    if old {
        assert forall|a: int, b: int| 0 <= a < b < levels2.len() implies better(
            side,
            (#[trigger] levels2[b]).price,
            (#[trigger] levels2[a]).price,
        ) by {
            assert(better(side, levels[b].price, levels[a].price));
        }
        assert forall|m: int| 0 <= m < levels2.len() implies (#[trigger] levels2[m]).volume
            == level_volume(u, levels2[m].price) && levels2[m].volume > 0 && 0 < rest_at(
            side,
            u,
            levels2[m].price,
        ) <= c2.len() && c2[rest_at(side, u, levels2[m].price) - 1] == levels2[m].tail by {
            assert(levels[m].volume > 0);
            if m != i - 1 {
                assert(levels2[m] == levels[m]);
                if m < i - 1 {
                    assert(better(side, levels[i - 1].price, levels[m].price));
                } else {
                    assert(better(side, levels[m].price, levels[i - 1].price));
                }
            }
        }
    } else {
        assert forall|m: int| 0 <= m < levels2.len() && m != i implies levels2[m] == levels[if m
            < i {
            m
        } else {
            m - 1
        }] by {}
        assert forall|a: int, b: int| 0 <= a < b < levels2.len() implies better(
            side,
            (#[trigger] levels2[b]).price,
            (#[trigger] levels2[a]).price,
        ) by {
            let a0 = if a < i { a } else { a - 1 };
            let b0 = if b < i { b } else { b - 1 };
            if a == i {
                assert(better(side, levels[b0].price, p));
            } else if b == i {
                assert(!better(side, levels[i - 1].price, p));
                if a0 < i - 1 {
                    assert(better(side, levels[i - 1].price, levels[a0].price));
                }
            } else {
                assert(better(side, levels[b0].price, levels[a0].price));
            }
        }
        assert forall|m: int| 0 <= m < levels2.len() implies (#[trigger] levels2[m]).volume
            == level_volume(u, levels2[m].price) && levels2[m].volume > 0 && 0 < rest_at(
            side,
            u,
            levels2[m].price,
        ) <= c2.len() && c2[rest_at(side, u, levels2[m].price) - 1] == levels2[m].tail by {
            if m != i {
                let m0 = if m < i { m } else { m - 1 };
                assert(levels2[m] == levels[m0]);
                assert(levels[m0].volume > 0);
                if m0 >= i {
                    assert(better(side, levels[m0].price, p));
                } else {
                    if m0 < i - 1 {
                        assert(better(side, levels[i - 1].price, levels[m0].price));
                    }
                }
            }
        }
    }
}

/// The levels after the order at position `k`, of level `l`, lost part of
/// what was left of it.
pub proof fn lemma_buckets_after_update(
    side: OrderAction,
    levels: Seq<Bucket>,
    view: Seq<Order>,
    chain: Seq<usize>,
    k: int,
    o: Order,
    l: int,
    levels2: Seq<Bucket>,
)
    requires
        view_ok(side, view),
        buckets_ok(side, levels, view, chain),
        view.len() == chain.len(),
        0 <= k < view.len(),
        0 <= l < levels.len(),
        levels[l].price == view[k].price,
        o.price == view[k].price,
        o.live(),
        o.left() <= view[k].left(),
        levels2 =~= levels.update(
            l,
            (Bucket {
                price: levels[l].price,
                volume: (levels[l].volume - (view[k].left() - o.left())) as i64,
                tail: levels[l].tail,
            }),
        ),
    ensures
        buckets_ok(side, levels2, view.update(k, o), chain),
        levels[l].volume - (view[k].left() - o.left()) > 0,
{
    let u = view.update(k, o);
    assert forall|i: int| 0 <= i < u.len() implies (#[trigger] u[i]).live() && u[i].price
        == view[i].price by {
        if i != k {
            assert(u[i] == view[i]);
        }
    }
    lemma_sum_by_update(view, k, o, level_left_fn(o.price));
    lemma_level_has_order(u, o.price);
    assert(u[k].price == o.price);
    assert forall|m: int| 0 <= m < levels2.len() implies (#[trigger] levels2[m]).volume
        == level_volume(u, levels2[m].price) && levels2[m].volume > 0 && 0 < rest_at(
        side,
        u,
        levels2[m].price,
    ) <= chain.len() && chain[rest_at(side, u, levels2[m].price) - 1] == levels2[m].tail by {
        let x = levels[m].price;
        lemma_sum_by_update(view, k, o, level_left_fn(x));
        lemma_rest_at_same_prices(side, view, u, x);
        assert(levels[m].volume > 0);
        if m != l {
            assert(levels2[m] == levels[m]);
            if l < m {
                assert(better(side, levels[m].price, levels[l].price));
            } else {
                assert(better(side, levels[l].price, levels[m].price));
            }
        }
    }
    assert forall|a: int, b: int| 0 <= a < b < levels2.len() implies better(
        side,
        (#[trigger] levels2[b]).price,
        (#[trigger] levels2[a]).price,
    ) by {
        assert(better(side, levels[b].price, levels[a].price));
    }
    assert forall|a: int| 0 <= a < u.len() implies has_level(levels2, (#[trigger] u[a]).price) by {
        assert(has_level(levels, view[a].price));
        let m = choose|m: int| 0 <= m < levels.len() && (#[trigger] levels[m]).price == view[a].price;
        assert(levels2[m].price == levels[m].price);
    }
}

/// Where more is left at the price of the last order of a level than of
/// that order, it is not the first order of the side.
pub proof fn lemma_tail_has_prev(
    side: OrderAction,
    levels: Seq<Bucket>,
    view: Seq<Order>,
    chain: Seq<usize>,
    k: int,
    l: int,
)
    requires
        view_ok(side, view),
        buckets_ok(side, levels, view, chain),
        view.len() == chain.len(),
        forall|i: int, j: int| 0 <= i < j < chain.len() ==> chain[i] != chain[j],
        0 <= k < view.len(),
        0 <= l < levels.len(),
        levels[l].price == view[k].price,
        levels[l].volume != view[k].left(),
        levels[l].tail == chain[k],
    ensures
        k > 0,
{
    let p = view[k].price;
    let u = view.remove(k);
    assert forall|i: int| 0 <= i < u.len() implies (#[trigger] u[i]).live() by {
        assert(u[i] == view[if i < k { i } else { i + 1 }]);
    }
    assert(view[k].live());
    lemma_sum_by_remove(view, k, level_left_fn(p));
    lemma_level_has_order(u, p);
    let j2 = choose|j2: int| 0 <= j2 < u.len() && (#[trigger] u[j2]).price == p;
    let j = if j2 < k { j2 } else { j2 + 1 };
    assert(u[j2] == view[j]);
    lemma_tail_price(side, view, p, j);
    let r = rest_at(side, view, p);
    if k != r - 1 {
        if k < r - 1 {
            assert(chain[k] != chain[r - 1]);
        } else {
            assert(chain[r - 1] != chain[k]);
        }
    }
}

/// One side of a threaded book: its orders are nodes of one list in
/// price-time priority, kept in a store under integer handles, with the
/// price levels, an index from order id to handle, and the handle of the
/// best order.
pub struct Side<S: NodeStore> {
    pub side: OrderAction,
    pub store: S,
    /// Price levels from worst to best.
    pub levels: Vec<Bucket>,
    pub index: ahash::AHashMap<OrderId, usize>,
    /// Handle of the best order.
    pub head: Option<usize>,
    /// Total quantity left on the side.
    pub volume: Size,
    /// The handles in list order.
    pub chain: Ghost<Seq<usize>>,
}

impl<S: NodeStore> View for Side<S> {
    type V = Seq<Order>;

    /// The resting orders of the side in price-time priority.
    open spec fn view(&self) -> Seq<Order> {
        orders_of(self.store.nodes(), self.chain@)
    }
}

impl<S: NodeStore> Side<S> {
    pub open spec fn wf(&self) -> bool {
        &&& self.store.store_wf()
        &&& chain_ok(self.store.nodes(), self.chain@, self.head)
        &&& index_ok(handles(self.index), self@, self.chain@)
        &&& buckets_ok(self.side, self.levels@, self@, self.chain@)
        &&& view_ok(self.side, self@)
        &&& self.volume == queue_volume(self@)
    }

    /// An empty side over an empty store.
    pub fn new(side: OrderAction, store: S) -> (s: Self)
        requires
            store.store_wf(),
            store.nodes().dom().is_empty(),
        ensures
            s.wf(),
            s.side == side,
            s@.len() == 0,
    {
        let s = Side {
            side,
            store,
            levels: Vec::new(),
            index: handles_new(),
            head: None,
            volume: 0,
            chain: Ghost(Seq::empty()),
        };
        proof {
            assert(s@ =~= Seq::<Order>::empty());
            assert forall|key: usize| !s.store.nodes().contains_key(key) by {
                assert(!s.store.nodes().dom().contains(key));
            }
            assert forall|id: OrderId| !handles(s.index).contains_key(id) by {
                assert(!handles(s.index).dom().contains(id));
            }
        }
        s
    }

    /// The index at which a level of price `price` stands or would stand.
    pub fn slot_for(&self, price: Price) -> (i: usize)
        ensures
            slot(self.side, self.levels@, price, i as int),
    {
        let n: usize = self.levels.len();
        let mut i: usize = n;
        while i > 0 && is_better(self.side, self.levels[i - 1].price, price)
            invariant
                i <= n,
                n == self.levels@.len(),
                forall|j: int|
                    i <= j < n ==> better(self.side, (#[trigger] self.levels@[j]).price, price),
            decreases i,
        {
            i = i - 1;
        }
        i
    }

    /// Takes the node of handle `key`, which stands at position `k`, out of
    /// the list, the store, the index and its level.
    pub(crate) fn unlink(&mut self, key: usize, Ghost(k): Ghost<int>) -> (o: Order)
        requires
            old(self).wf(),
            0 <= k < old(self).chain@.len(),
            old(self).chain@[k] == key,
        ensures
            final(self).wf(),
            final(self).side == old(self).side,
            final(self)@ == old(self)@.remove(k),
            o == old(self)@[k],
    {
        let ghost nodes = self.store.nodes();
        let ghost chain = self.chain@;
        let ghost view = self@;
        proof {
            assert(chain.contains(key));
            if k > 0 {
                assert(chain.contains(chain[k - 1]));
                assert(chain[k - 1] != chain[k]);
            }
            if k + 1 < chain.len() {
                assert(chain.contains(chain[k + 1]));
                assert(chain[k] != chain[k + 1]);
            }
            if k > 0 && k + 1 < chain.len() {
                assert(chain[k - 1] != chain[k + 1]);
            }
            assert(nodes[chain[k]].prev == (if k == 0 {
                None
            } else {
                Some(chain[k - 1])
            }));
        }
        let n: DirectOrder = self.store.node(key);
        let o: Order = n.order;
        assert(o == view[k]);
        assert(o.live());
        let i: usize = self.slot_for(o.price);
        proof {
            lemma_level_of(self.side, self.levels@, view, chain, k, i as int);
            lemma_buckets_floor(self.side, self.levels@, view, chain, k, i - 1);
        }
        let l: usize = i - 1;
        let level: Bucket = self.levels[l];
        let left: i64 = o.size - o.filled;
        if level.volume == left {
            let _ = self.levels.remove(l);
        } else {
            proof {
                if level.tail == key {
                    lemma_tail_has_prev(self.side, self.levels@, view, chain, k, l as int);
                }
            }
            let tail: usize = if level.tail == key {
                match n.prev {
                    Some(p) => p,
                    None => level.tail,
                }
            } else {
                level.tail
            };
            self.levels[l] = Bucket { price: level.price, volume: level.volume - left, tail };
        }
        proof {
            lemma_buckets_after_remove(
                self.side,
                old(self).levels@,
                view,
                chain,
                k,
                l as int,
                self.levels@,
            );
        }
        match n.prev {
            Some(p) => {
                let pn: DirectOrder = self.store.node(p);
                self.store.put(p, DirectOrder { order: pn.order, next: n.next, prev: pn.prev });
            },
            None => {
                self.head = n.next;
            },
        }
        match n.next {
            Some(x) => {
                let xn: DirectOrder = self.store.node(x);
                self.store.put(x, DirectOrder { order: xn.order, next: xn.next, prev: n.prev });
            },
            None => {},
        }
        let _ = self.store.remove(key);
        handles_remove(&mut self.index, o.order_id);
        self.chain = Ghost(chain.remove(k));
        proof {
            lemma_sum_by_remove(view, k, left_fn());
            lemma_visible_within_volume(view);
        }
        self.volume = self.volume - left;
        proof {
            lemma_unlinked(nodes, chain, old(self).head, k, self.store.nodes(), self.head);
            lemma_index_after_remove(handles(old(self).index), view, chain, k);
            lemma_remove_distinct(view, k);
            lemma_sum_by_remove(view, k, left_fn());
            crate::orderbook::rules::lemma_side_after_remove(self.side, view, k);
            assert forall|a: int| 0 <= a < self@.len() implies (#[trigger] self@[a]).visible_size.is_none() by {
                assert(self@[a] == view[if a < k { a } else { a + 1 }]);
            }
        }
        o
    }

    /// Replaces the order of the node of handle `key`, which stands at
    /// position `k`, by `o`: the same order with less left of it.
    pub(crate) fn amend(&mut self, key: usize, Ghost(k): Ghost<int>, o: Order)
        requires
            old(self).wf(),
            0 <= k < old(self).chain@.len(),
            old(self).chain@[k] == key,
            o.live(),
            o.order_id == old(self)@[k].order_id,
            o.price == old(self)@[k].price,
            o.action == old(self)@[k].action,
            o.visible_size.is_none(),
            o.left() <= old(self)@[k].left(),
        ensures
            final(self).wf(),
            final(self).side == old(self).side,
            final(self)@ == old(self)@.update(k, o),
    {
        let ghost nodes = self.store.nodes();
        let ghost chain = self.chain@;
        let ghost view = self@;
        proof {
            assert(chain.contains(key));
        }
        let n: DirectOrder = self.store.node(key);
        let was: Order = n.order;
        assert(was == view[k]);
        assert(was.live());
        let i: usize = self.slot_for(o.price);
        proof {
            lemma_level_of(self.side, self.levels@, view, chain, k, i as int);
            lemma_buckets_floor(self.side, self.levels@, view, chain, k, i - 1);
        }
        let l: usize = i - 1;
        let level: Bucket = self.levels[l];
        proof {
            lemma_buckets_after_update(
                self.side,
                self.levels@,
                view,
                chain,
                k,
                o,
                l as int,
                self.levels@.update(
                    l as int,
                    Bucket {
                        price: level.price,
                        volume: (level.volume - (was.left() - o.left())) as i64,
                        tail: level.tail,
                    },
                ),
            );
        }
        self.levels[l] = Bucket {
            price: level.price,
            volume: level.volume - ((was.size - was.filled) - (o.size - o.filled)),
            tail: level.tail,
        };
        self.store.put(key, DirectOrder { order: o, next: n.next, prev: n.prev });
        proof {
            lemma_sum_by_update(view, k, o, left_fn());
            lemma_visible_within_volume(view);
        }
        self.volume = self.volume - ((was.size - was.filled) - (o.size - o.filled));
        proof {
            lemma_amended(nodes, chain, self.head, k, o);
            lemma_index_after_update(handles(self.index), view, chain, k, o);
            lemma_sum_by_update(view, k, o, left_fn());
            let u = view.update(k, o);
            assert forall|a: int| 0 <= a < u.len() implies (#[trigger] u[a]).live() && u[a].action
                == self.side && u[a].visible_size.is_none() && u[a].price == view[a].price by {
                if a != k {
                    assert(u[a] == view[a]);
                }
            }
            assert forall|a: int, b: int| 0 <= a < b < u.len() implies ahead(
                self.side,
                (#[trigger] u[a]).price,
                (#[trigger] u[b]).price,
            ) by {
                assert(ahead(self.side, view[a].price, view[b].price));
            }
        }
    }

    /// Price of the best order.
    pub fn best_price(&self) -> (r: Option<Price>)
        requires
            self.wf(),
        ensures
            match r {
                Some(p) => self@.len() > 0 && p == self@[0].price,
                None => self@.len() == 0,
            },
    {
        match self.head {
            Some(h) => {
                assert(self.chain@.contains(self.chain@[0]));
                Some(self.store.node(h).order.price)
            },
            None => None,
        }
    }

    /// Matches a taker that wants `want` units against this side, from the
    /// best order on.
    pub fn match_taker(&mut self, t: &Taker, want: Size, events: &mut Vec<MatcherTradeEvent>) -> (filled:
        Size)
        requires
            old(self).wf(),
        ensures
            final(self).wf(),
            final(self).side == old(self).side,
            final(self)@ == match_queue(old(self)@, *t, want as int).makers,
            final(events)@ == old(events)@ + match_queue(old(self)@, *t, want as int).events,
            filled == match_queue(old(self)@, *t, want as int).filled,
            0 <= filled,
            want >= 0 ==> filled <= want,
    {
        let ghost orig = self@;
        let ghost events0 = events@;
        let ghost mut done = MatchOutcome::idle(Seq::empty());
        let mut filled: i64 = 0;
        let mut open: bool = true;
        proof {
            assert(events@ =~= events0 + done.events);
            let all = match_queue(orig, *t, want as int);
            assert(done.then_with(all).events =~= all.events);
            assert(done.then_with(all).gone =~= all.gone);
        }
        while open && want > filled
            invariant
                self.wf(),
                self.side == old(self).side,
                0 <= filled,
                want >= 0 ==> filled <= want,
                events@ == events0 + done.events,
                filled == done.filled,
                match_queue(orig, *t, want as int) == done.then_with(
                    match_queue(self@, *t, want - filled),
                ),
                !open ==> match_queue(self@, *t, want - filled) == MatchOutcome::idle(self@),
            decreases self@.len() + (want - filled) + (if open { 1int } else { 0int }),
        {
            let ghost before = self@;
            match self.head {
                None => {
                    open = false;
                },
                Some(h) => {
                    assert(self.chain@.contains(self.chain@[0]));
                    let m: Order = self.store.node(h).order;
                    assert(m == before[0]);
                    assert(m.live());
                    assert(before.remove(0) =~= before.drop_first());
                    if !t.takes(m.price) {
                        open = false;
                    } else if m.is_expired(t.now) {
                        let ghost rest = match_queue(before.drop_first(), *t, want - filled);
                        let _ = self.unlink(h, Ghost(0));
                        proof {
                            let step = MatchOutcome {
                                makers: Seq::empty(),
                                events: Seq::empty(),
                                filled: 0,
                                gone: seq![m.order_id],
                            };
                            let next = done.then_with(step);
                            assert(next.then_with(rest).events =~= done.then_with(
                                step.then_with(rest),
                            ).events);
                            assert(next.then_with(rest).gone =~= done.then_with(
                                step.then_with(rest),
                            ).gone);
                            done = next;
                            assert(events@ =~= events0 + done.events);
                        }
                    } else {
                        let left: i64 = m.size - m.filled;
                        let want_left: i64 = want - filled;
                        let traded: i64 = if want_left < left {
                            want_left
                        } else {
                            left
                        };
                        assert(traded == min_int(want - filled, m.left()));
                        let hold: i64 = match t.action {
                            OrderAction::Bid => t.reserve_price,
                            OrderAction::Ask => m.reserve_price,
                        };
                        let ev = MatcherTradeEvent::new_trade(
                            traded,
                            m.price,
                            m.order_id,
                            m.uid,
                            hold,
                        );
                        assert(ev == t.trade_with(m, traded as int));
                        events.push(ev);
                        if traded == left {
                            let ghost rest = match_queue(
                                before.drop_first(),
                                *t,
                                want - filled - traded,
                            );
                            let _ = self.unlink(h, Ghost(0));
                            proof {
                                let step = MatchOutcome {
                                    makers: Seq::empty(),
                                    events: seq![ev],
                                    filled: traded as int,
                                    gone: seq![m.order_id],
                                };
                                let next = done.then_with(step);
                                assert(next.then_with(rest).events =~= done.then_with(
                                    step.then_with(rest),
                                ).events);
                                assert(next.then_with(rest).gone =~= done.then_with(
                                    step.then_with(rest),
                                ).gone);
                                done = next;
                                assert(events@ =~= events0 + done.events);
                            }
                        } else {
                            let after = Order {
                                order_id: m.order_id,
                                uid: m.uid,
                                price: m.price,
                                size: m.size,
                                filled: m.filled + traded,
                                action: m.action,
                                order_type: m.order_type,
                                reserve_price: m.reserve_price,
                                timestamp: m.timestamp,
                                stop_price: m.stop_price,
                                visible_size: m.visible_size,
                                expire_time: m.expire_time,
                            };
                            assert(after == m.fill(traded as int));
                            self.amend(h, Ghost(0), after);
                            proof {
                                let step = MatchOutcome {
                                    makers: self@,
                                    events: seq![ev],
                                    filled: traded as int,
                                    gone: Seq::empty(),
                                };
                                let next = done.then_with(step);
                                let idle = MatchOutcome::idle(self@);
                                assert(match_queue(self@, *t, want - filled - traded) == idle);
                                assert(next.then_with(idle).events =~= done.then_with(step).events);
                                assert(next.then_with(idle).gone =~= done.then_with(step).gone);
                                done = next;
                                assert(events@ =~= events0 + done.events);
                            }
                        }
                        filled = filled + traded;
                    }
                },
            }
        }
        proof {
            let idle = MatchOutcome::idle(self@);
            assert(match_queue(self@, *t, want - filled) == idle);
            assert(done.then_with(idle).events =~= done.events);
            assert(done.then_with(idle).gone =~= done.gone);
        }
        filled
    }

    /// Handle of the node of the order of id `order_id`, if the side holds
    /// one.
    pub fn handle_of(&self, order_id: OrderId) -> (r: Option<usize>)
        requires
            self.wf(),
        ensures
            match r {
                Some(key) => has_id(self@, order_id) && self.chain@[position_of(self@, order_id)]
                    == key && self.store.nodes().contains_key(key)
                    && self.store.nodes()[key].order == self@[position_of(self@, order_id)],
                None => !has_id(self@, order_id),
            },
    {
        proof {
            lemma_position(self@, order_id);
        }
        let r: Option<usize> = handles_get(&self.index, order_id);
        proof {
            if r.is_some() {
                let k = position_of(self@, order_id);
                assert(self.chain@.contains(self.chain@[k]));
            }
        }
        r
    }

    /// The order of id `order_id`, if the side holds one.
    pub fn peek(&self, order_id: OrderId) -> (r: Option<Order>)
        requires
            self.wf(),
        ensures
            match r {
                Some(o) => has_id(self@, order_id) && o == self@[position_of(self@, order_id)]
                    && o.order_id == order_id && o.live() && o.action == self.side
                    && o.visible_size.is_none(),
                None => !has_id(self@, order_id),
            },
    {
        proof {
            lemma_position(self@, order_id);
        }
        match self.handle_of(order_id) {
            Some(key) => Some(self.store.node(key).order),
            None => None,
        }
    }

    /// Takes out the order of id `order_id`, if the side holds one.
    pub fn remove(&mut self, order_id: OrderId) -> (r: Option<Order>)
        requires
            old(self).wf(),
        ensures
            final(self).wf(),
            final(self).side == old(self).side,
            match r {
                Some(o) => {
                    &&& has_id(old(self)@, order_id)
                    &&& o == old(self)@[position_of(old(self)@, order_id)]
                    &&& o.order_id == order_id
                    &&& final(self)@ == old(self)@.remove(position_of(old(self)@, order_id))
                    &&& !has_id(final(self)@, order_id)
                },
                None => !has_id(old(self)@, order_id) && final(self)@ == old(self)@,
            },
    {
        proof {
            lemma_position(self@, order_id);
        }
        match self.handle_of(order_id) {
            Some(key) => {
                proof {
                    lemma_remove_distinct(self@, position_of(self@, order_id));
                }
                Some(self.unlink(key, Ghost(position_of(self@, order_id))))
            },
            None => None,
        }
    }

    /// Puts `o` in the place of the order of id `order_id`; `o` is that
    /// order with less left of it. Says whether the order was there.
    pub fn replace(&mut self, order_id: OrderId, o: Order) -> (r: bool)
        requires
            old(self).wf(),
            o.live(),
            o.order_id == order_id,
            o.action == old(self).side,
            o.visible_size.is_none(),
            has_id(old(self)@, order_id) ==> o.price == old(self)@[position_of(
                old(self)@,
                order_id,
            )].price && o.left() <= old(self)@[position_of(old(self)@, order_id)].left(),
        ensures
            final(self).wf(),
            final(self).side == old(self).side,
            r == has_id(old(self)@, order_id),
            r ==> final(self)@ == old(self)@.update(position_of(old(self)@, order_id), o),
            !r ==> final(self)@ == old(self)@,
    {
        proof {
            lemma_position(self@, order_id);
        }
        match self.handle_of(order_id) {
            Some(key) => {
                self.amend(key, Ghost(position_of(self@, order_id)), o);
                true
            },
            None => false,
        }
    }

    /// Total quantity left on this side.
    pub fn total_volume(&self) -> (r: Size)
        requires
            self.wf(),
        ensures
            r == queue_volume(self@),
    {
        self.volume
    }

    /// Cost of taking `want` units from the best order on, expired orders
    /// left out; `None` where the side holds less.
    pub fn cost_to_fill(&self, now: i64, want: Size) -> (r: Option<i128>)
        requires
            self.wf(),
        ensures
            match r {
                Some(c) => cost_to_fill(self@, now, want as int) == Some(c as int),
                None => cost_to_fill(self@, now, want as int).is_none(),
            },
    {
        if want <= 0 {
            return Some(0);
        }
        let mut cur: Option<usize> = self.head;
        let mut still: i64 = want;
        let mut cost: i128 = 0;
        let ghost mut i: int = 0;
        proof {
            assert(self@.subrange(0, self@.len() as int) =~= self@);
            assert(want * PRICE_SPAN <= COST_SPAN) by (nonlinear_arith)
                requires
                    0 <= want < PRICE_SPAN,
                    PRICE_SPAN * PRICE_SPAN == COST_SPAN,
            ;
        }
        while cur.is_some() && still > 0
            invariant
                self.wf(),
                0 <= i <= self@.len(),
                cur == (if i < self@.len() {
                    Some(self.chain@[i])
                } else {
                    None
                }),
                0 <= still <= want,
                -(COST_SPAN - still * PRICE_SPAN) <= cost <= COST_SPAN - still * PRICE_SPAN,
                take_cost(self@, now, want as int).1 == take_cost(
                    self@.subrange(i, self@.len() as int),
                    now,
                    still as int,
                ).1,
                take_cost(self@, now, want as int).0 == cost + take_cost(
                    self@.subrange(i, self@.len() as int),
                    now,
                    still as int,
                ).0,
            decreases self@.len() - i,
        {
            let key: usize = cur.unwrap();
            assert(self.chain@.contains(self.chain@[i]));
            let n: DirectOrder = self.store.node(key);
            let o: Order = n.order;
            proof {
                let rest = self@.subrange(i, self@.len() as int);
                assert(o == self@[i]);
                assert(o.live());
                assert(rest[0] == o);
                assert(rest.drop_first() =~= self@.subrange(i + 1, self@.len() as int));
            }
            if !o.is_expired(now) {
                let left: i64 = o.size - o.filled;
                let taken: i64 = if still < left {
                    still
                } else {
                    left
                };
                proof {
                    lemma_cost_bound(taken as int, o.price as int);
                    assert(still * PRICE_SPAN == (still - taken) * PRICE_SPAN + taken * PRICE_SPAN)
                        by (nonlinear_arith);
                    assert(0 <= taken * PRICE_SPAN <= COST_SPAN) by (nonlinear_arith)
                        requires
                            0 <= taken < PRICE_SPAN,
                            PRICE_SPAN * PRICE_SPAN == COST_SPAN,
                    ;
                }
                cost = cost + (taken as i128) * (o.price as i128);
                still = still - taken;
            }
            cur = n.next;
            proof {
                i = i + 1;
            }
        }
        proof {
            if i == self@.len() {
                assert(self@.subrange(i, self@.len() as int) =~= Seq::<Order>::empty());
            }
        }
        if still == 0 {
            Some(cost)
        } else {
            None
        }
    }

    /// The resting orders of the side in price-time priority.
    pub fn export(&self) -> (out: Vec<Order>)
        requires
            self.wf(),
        ensures
            out@ == self@,
    {
        let mut out: Vec<Order> = Vec::new();
        let mut cur: Option<usize> = self.head;
        let ghost mut i: int = 0;
        proof {
            assert(self@.subrange(0, 0) =~= out@);
        }
        while cur.is_some()
            invariant
                self.wf(),
                0 <= i <= self@.len(),
                cur == (if i < self@.len() {
                    Some(self.chain@[i])
                } else {
                    None
                }),
                out@ == self@.subrange(0, i),
            decreases self@.len() - i,
        {
            let key: usize = cur.unwrap();
            assert(self.chain@.contains(self.chain@[i]));
            let n: DirectOrder = self.store.node(key);
            out.push(n.order);
            proof {
                assert(self@.subrange(0, i + 1) =~= self@.subrange(0, i).push(self@[i]));
                i = i + 1;
            }
            cur = n.next;
        }
        proof {
            assert(self@.subrange(0, self@.len() as int) =~= self@);
        }
        out
    }

    /// Number of price levels.
    pub fn level_count(&self) -> (r: usize)
        requires
            self.wf(),
        ensures
            r == price_levels(self@).len(),
    {
        proof {
            lemma_chain_prices(self.side, self.levels@, self@);
        }
        self.levels.len()
    }

    /// The best `depth` levels, best first: their prices and what each
    /// advertises.
    pub fn depth(&self, depth: usize) -> (r: (Vec<Price>, Vec<Size>))
        requires
            self.wf(),
        ensures
            r.0@.len() == r.1@.len(),
            r.0@.len() == if depth < price_levels(self@).len() {
                depth as int
            } else {
                price_levels(self@).len() as int
            },
            forall|k: int| 0 <= k < r.0@.len() ==> r.0@[k] == price_levels(self@)[k],
            forall|k: int| 0 <= k < r.0@.len() ==> r.1@[k] == level_visible(self@, #[trigger] r.0@[k]),
    {
        let n: usize = self.levels.len();
        let mut prices: Vec<Price> = Vec::new();
        let mut volumes: Vec<Size> = Vec::new();
        let mut k: usize = 0;
        proof {
            lemma_chain_prices(self.side, self.levels@, self@);
        }
        while k < depth && k < n
            invariant
                k <= n,
                k <= depth,
                n == self.levels@.len(),
                self.wf(),
                price_levels(self@) == bucket_prices(self.levels@),
                price_levels(self@).len() == n,
                prices@.len() == k,
                volumes@.len() == k,
                forall|j: int| 0 <= j < k ==> prices@[j] == price_levels(self@)[j],
                forall|j: int| 0 <= j < k ==> volumes@[j] == level_visible(self@, #[trigger] prices@[j]),
            decreases n - k,
        {
            proof {
                lemma_bucket_price_at(self.levels@, k as int);
                let p = self.levels@[n - 1 - k].price;
                assert forall|a: int| 0 <= a < self@.len() implies level_shown_fn(p)(
                    #[trigger] self@[a],
                ) == level_left_fn(p)(self@[a]) by {
                    assert(self@[a].visible_size.is_none());
                }
                lemma_sum_by_same(self@, level_shown_fn(p), level_left_fn(p));
            }
            prices.push(self.levels[n - 1 - k].price);
            volumes.push(self.levels[n - 1 - k].volume);
            k = k + 1;
        }
        (prices, volumes)
    }

    /// Stores a node for `o` and links it into the list at position `k`,
    /// behind the node of handle `after` or, without one, in front.
    fn splice(&mut self, o: Order, after: Option<usize>, Ghost(k): Ghost<int>) -> (key: usize)
        requires
            old(self).store.store_wf(),
            chain_ok(old(self).store.nodes(), old(self).chain@, old(self).head),
            0 <= k <= old(self).chain@.len(),
            after == (if k == 0 {
                None
            } else {
                Some(old(self).chain@[k - 1])
            }),
        ensures
            final(self).store.store_wf(),
            chain_ok(final(self).store.nodes(), old(self).chain@.insert(k, key), final(self).head),
            orders_of(final(self).store.nodes(), old(self).chain@.insert(k, key)) == orders_of(
                old(self).store.nodes(),
                old(self).chain@,
            ).insert(k, o),
            final(self).side == old(self).side,
            final(self).levels == old(self).levels,
            final(self).index == old(self).index,
            final(self).chain == old(self).chain,
            final(self).volume == old(self).volume,
    {
        let ghost nodes = self.store.nodes();
        let ghost chain = self.chain@;
        proof {
            if k > 0 {
                assert(chain.contains(chain[k - 1]));
            }
            if k < chain.len() {
                assert(chain.contains(chain[k]));
            }
            if 0 < k < chain.len() {
                assert(chain[k - 1] != chain[k]);
            }
        }
        let following: Option<usize> = match after {
            Some(a) => self.store.node(a).next,
            None => self.head,
        };
        assert(following == (if k == chain.len() {
            None
        } else {
            Some(chain[k])
        }));
        let key: usize = self.store.insert(DirectOrder { order: o, next: following, prev: after });
        match after {
            Some(a) => {
                let an: DirectOrder = self.store.node(a);
                self.store.put(a, DirectOrder { order: an.order, next: Some(key), prev: an.prev });
            },
            None => {
                self.head = Some(key);
            },
        }
        match following {
            Some(f) => {
                let nf: DirectOrder = self.store.node(f);
                self.store.put(f, DirectOrder { order: nf.order, next: nf.next, prev: Some(key) });
            },
            None => {},
        }
        proof {
            lemma_linked(nodes, chain, old(self).head, k, key, o, self.store.nodes(), self.head);
        }
        key
    }

    /// Rests `o`: links a node for it behind the last order at its price or
    /// better.
    pub fn link(&mut self, o: Order)
        requires
            old(self).wf(),
            o.live(),
            o.action == old(self).side,
            o.visible_size.is_none(),
            !has_id(old(self)@, o.order_id),
            queue_volume(old(self)@) + o.left() <= i64::MAX,
        ensures
            final(self).wf(),
            final(self).side == old(self).side,
            final(self)@ == rested(old(self).side, old(self)@, o),
    {
        let ghost chain = self.chain@;
        let ghost view = self@;
        let ghost k = rest_at(self.side, view, o.price);
        let i: usize = self.slot_for(o.price);
        let n: usize = self.levels.len();
        proof {
            lemma_rest_place(self.side, self.levels@, view, chain, o.price, i as int);
        }
        let old_level: bool = i > 0 && self.levels[i - 1].price == o.price;
        let after: Option<usize> = if old_level {
            Some(self.levels[i - 1].tail)
        } else if i < n {
            Some(self.levels[i].tail)
        } else {
            None
        };
        let key: usize = self.splice(o, after, Ghost(k));
        let left: i64 = o.size - o.filled;
        if old_level {
            let level: Bucket = self.levels[i - 1];
            proof {
                lemma_level_bound(self.side, self.levels@, view, i - 1);
            }
            self.levels[i - 1] = Bucket { price: o.price, volume: level.volume + left, tail: key };
        } else {
            self.levels.insert(i, Bucket { price: o.price, volume: left, tail: key });
        }
        handles_insert(&mut self.index, o.order_id, key);
        self.chain = Ghost(chain.insert(k, key));
        proof {
            lemma_rest_at(self.side, view, o.price);
            lemma_sum_by_insert(view, k, o, left_fn());
        }
        self.volume = self.volume + left;
        proof {
            lemma_index_after_insert(handles(old(self).index), view, chain, k, o, key);
            lemma_buckets_after_insert(
                self.side,
                old(self).levels@,
                view,
                chain,
                o,
                key,
                i as int,
                self.levels@,
            );
            lemma_view_after_rest(self.side, view, o);
        }
    }
}

/// A side with a live order of a new id at its resting place is valid.
pub proof fn lemma_view_after_rest(side: OrderAction, view: Seq<Order>, o: Order)
    requires
        view_ok(side, view),
        o.live(),
        o.action == side,
        o.visible_size.is_none(),
        !has_id(view, o.order_id),
        queue_volume(view) + o.left() <= i64::MAX,
    ensures
        view_ok(side, rested(side, view, o)),
{
    let k = rest_at(side, view, o.price);
    lemma_rest_at(side, view, o.price);
    lemma_insert_distinct(view, k, o);
    lemma_sum_by_insert(view, k, o, left_fn());
    let u = view.insert(k, o);
    assert forall|a: int| 0 <= a < u.len() implies (#[trigger] u[a]).live() && u[a].action == side
        && u[a].visible_size.is_none() by {
        if a != k {
            assert(u[a] == view[if a < k { a } else { a - 1 }]);
        }
    }
    assert forall|a: int, b: int| 0 <= a < b < u.len() implies ahead(
        side,
        (#[trigger] u[a]).price,
        (#[trigger] u[b]).price,
    ) by {
        let a0 = if a < k { a } else { a - 1 };
        let b0 = if b < k { b } else { b - 1 };
        if a != k {
            assert(u[a] == view[a0]);
        }
        if b != k {
            assert(u[b] == view[b0]);
        }
        if a != k && b != k {
            assert(ahead(side, view[a0].price, view[b0].price));
        }
    }
}

/// The level of an order holds at least what is left of it.
pub proof fn lemma_buckets_floor(
    side: OrderAction,
    levels: Seq<Bucket>,
    view: Seq<Order>,
    chain: Seq<usize>,
    k: int,
    l: int,
)
    requires
        view_ok(side, view),
        buckets_ok(side, levels, view, chain),
        0 <= k < view.len(),
        0 <= l < levels.len(),
        levels[l].price == view[k].price,
    ensures
        levels[l].volume >= view[k].left(),
        view[k].left() > 0,
{
    let f = level_left_fn(view[k].price);
    assert forall|i: int| 0 <= i < view.len() implies f(#[trigger] view[i]) >= 0 by {
        assert(view[i].live());
    }
    lemma_sum_by_bounds(view, f);
    assert(f(view[k]) <= level_volume(view, view[k].price));
    assert(view[k].live());
}

/// No level holds more than the side.
pub proof fn lemma_level_bound(side: OrderAction, levels: Seq<Bucket>, view: Seq<Order>, l: int)
    requires
        view_ok(side, view),
        forall|m: int|
            0 <= m < levels.len() ==> (#[trigger] levels[m]).volume == level_volume(
                view,
                levels[m].price,
            ),
        0 <= l < levels.len(),
    ensures
        levels[l].volume <= queue_volume(view),
{
    let p = levels[l].price;
    assert forall|a: int| 0 <= a < view.len() implies level_left_fn(p)(#[trigger] view[a])
        <= left_fn()(view[a]) by {
        assert(view[a].live());
    }
    crate::orderbook::model::lemma_sum_by_le(view, level_left_fn(p), left_fn());
}

/// The prices of the levels, best first.
pub open spec fn bucket_prices(levels: Seq<Bucket>) -> Seq<Price>
    decreases levels.len(),
{
    if levels.len() == 0 {
        Seq::empty()
    } else {
        seq![levels.last().price] + bucket_prices(levels.drop_last())
    }
}

pub proof fn lemma_bucket_price_at(levels: Seq<Bucket>, k: int)
    requires
        0 <= k < levels.len(),
    ensures
        bucket_prices(levels).len() == levels.len(),
        bucket_prices(levels)[k] == levels[levels.len() - 1 - k].price,
    decreases levels.len(),
{
    lemma_bucket_prices_len(levels);
    if k > 0 {
        lemma_bucket_price_at(levels.drop_last(), k - 1);
        lemma_bucket_prices_len(levels.drop_last());
    }
}

pub proof fn lemma_bucket_prices_len(levels: Seq<Bucket>)
    ensures
        bucket_prices(levels).len() == levels.len(),
    decreases levels.len(),
{
    if levels.len() > 0 {
        lemma_bucket_prices_len(levels.drop_last());
    }
}

/// The levels stand from worst to best, one for each price at which an
/// order rests, each with what is left at its price.
pub open spec fn levels_cover(side: OrderAction, levels: Seq<Bucket>, view: Seq<Order>) -> bool {
    &&& forall|l: int|
        0 <= l < levels.len() ==> (#[trigger] levels[l]).volume == level_volume(
            view,
            levels[l].price,
        ) && levels[l].volume > 0
    &&& forall|l: int, m: int|
        0 <= l < m < levels.len() ==> better(
            side,
            (#[trigger] levels[m]).price,
            (#[trigger] levels[l]).price,
        )
    &&& forall|i: int| 0 <= i < view.len() ==> has_level(levels, (#[trigger] view[i]).price)
}

/// The distinct prices of the side are the prices of its levels.
pub proof fn lemma_chain_prices(side: OrderAction, levels: Seq<Bucket>, view: Seq<Order>)
    requires
        forall|i: int| 0 <= i < view.len() ==> (#[trigger] view[i]).live(),
        in_priority(side, view),
        levels_cover(side, levels, view),
    ensures
        price_levels(view) == bucket_prices(levels),
        bucket_prices(levels).len() == levels.len(),
    decreases levels.len(),
{
    lemma_bucket_prices_len(levels);
    if levels.len() == 0 {
        if view.len() > 0 {
            assert(has_level(levels, view[0].price));
        }
    } else {
        let n = levels.len() as int;
        let p = levels[n - 1].price;
        let r = rest_at(side, view, p);
        lemma_rest_at(side, view, p);
        lemma_level_has_order(view, p);
        let j = choose|j: int| 0 <= j < view.len() && (#[trigger] view[j]).price == p;
        lemma_tail_price(side, view, p, j);
        let g = view.subrange(0, r);
        let rest = view.subrange(r, view.len() as int);
        let lower = levels.drop_last();
        assert(view =~= g + rest);
        assert forall|i: int| 0 <= i < g.len() implies (#[trigger] g[i]).price == p by {
            assert(g[i] == view[i]);
            assert(ahead(side, view[i].price, p));
            assert(has_level(levels, view[i].price));
            let l = choose|l: int| 0 <= l < levels.len() && (#[trigger] levels[l]).price == view[i].price;
            if l < n - 1 {
                assert(better(side, levels[n - 1].price, levels[l].price));
            }
        }
        if rest.len() > 0 {
            assert(rest[0] == view[r]);
            assert(!ahead(side, view[r].price, p));
        }
        lemma_price_levels_group(g, rest, p);
        assert forall|i: int| 0 <= i < rest.len() implies (#[trigger] rest[i]).live() && has_level(
            lower,
            rest[i].price,
        ) by {
            assert(rest[i] == view[r + i]);
            assert(!ahead(side, view[r + i].price, p));
            assert(has_level(levels, view[r + i].price));
            let l = choose|l: int|
                0 <= l < levels.len() && (#[trigger] levels[l]).price == view[r + i].price;
            assert(lower[l] == levels[l]);
        }
        assert forall|a: int, b: int| 0 <= a < b < rest.len() implies ahead(
            side,
            (#[trigger] rest[a]).price,
            (#[trigger] rest[b]).price,
        ) by {
            assert(rest[a] == view[r + a]);
            assert(rest[b] == view[r + b]);
        }
        assert forall|l: int| 0 <= l < lower.len() implies (#[trigger] lower[l]).volume
            == level_volume(rest, lower[l].price) && lower[l].volume > 0 by {
            assert(lower[l] == levels[l]);
            let x = levels[l].price;
            assert(better(side, levels[n - 1].price, levels[l].price));
            crate::orderbook::model::lemma_sum_by_concat(g, rest, level_left_fn(x));
            assert forall|i: int| 0 <= i < g.len() implies level_left_fn(x)(#[trigger] g[i]) == 0 by {
                assert(g[i].price == p);
            }
            lemma_sum_by_zero(g, level_left_fn(x));
        }
        assert forall|l: int, m: int| 0 <= l < m < lower.len() implies better(
            side,
            (#[trigger] lower[m]).price,
            (#[trigger] lower[l]).price,
        ) by {
            assert(lower[l] == levels[l]);
            assert(lower[m] == levels[m]);
        }
        lemma_chain_prices(side, lower, rest);
    }
}

} // verus!
