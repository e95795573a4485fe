use crate::api::commands::OrderCommand;
use crate::api::events::MatcherTradeEvent;
use crate::api::market_data::L2MarketData;
use crate::api::types::{
    CommandResultCode, CoreSymbolSpecification, OrderAction, OrderId, OrderType, Price, Size,
    SymbolType, UserId,
};
use crate::orderbook::model::{price_levels, queue_volume, Order};
use crate::orderbook::naive::{applied, depth_of};
use crate::orderbook::rules::{
    after_match, cancelled, entry_of, matched, moved, reduced, refused, take_and_rest,
    take_only, BookModel, Outcome,
};
use crate::orderbook::store::{DirectOrder, NodeStore};
use crate::orderbook::book::{BookKind, BookSnapshot};
use crate::orderbook::threaded::ThreadedBook;
use vstd::prelude::*;

verus! {

/// Slots that each pool of a new book starts with.
pub const POOL_CAPACITY: usize = 50_000;

/// The fields of an order that matching reads and writes all the time, one
/// array per field.
pub struct OrderHotData {
    pub order_ids: Vec<OrderId>,
    pub prices: Vec<Price>,
    pub sizes: Vec<Size>,
    pub filled: Vec<Size>,
    pub next: Vec<Option<usize>>,
    pub prev: Vec<Option<usize>>,
    pub active: Vec<bool>,
}

/// The fields of an order that are read now and then.
#[derive(Debug, Clone, Copy, PartialEq, Eq, Structural)]
pub struct OrderColdData {
    pub uid: UserId,
    pub action: OrderAction,
    pub reserve_price: Price,
    pub timestamp: i64,
    pub order_type: OrderType,
    pub stop_price: Option<Price>,
    pub visible_size: Option<Size>,
    pub expire_time: Option<i64>,
}

/// A pool of order slots allocated ahead of use: hot fields in parallel
/// arrays, cold fields beside them, and the list of free slots.
pub struct OrderPool {
    pub hot: OrderHotData,
    pub cold: Vec<OrderColdData>,
    pub free_list: Vec<usize>,
    pub capacity: usize,
}

impl OrderPool {
    /// Every array has one entry per slot.
    pub open spec fn sized(&self) -> bool {
        &&& self.hot.order_ids@.len() == self.capacity
        &&& self.hot.prices@.len() == self.capacity
        &&& self.hot.sizes@.len() == self.capacity
        &&& self.hot.filled@.len() == self.capacity
        &&& self.hot.next@.len() == self.capacity
        &&& self.hot.prev@.len() == self.capacity
        &&& self.hot.active@.len() == self.capacity
        &&& self.cold@.len() == self.capacity
    }

    /// The free list names slots that are not in use, each once.
    pub open spec fn free_sound(&self) -> bool {
        &&& forall|i: int|
            0 <= i < self.free_list@.len() ==> (#[trigger] self.free_list@[i]) < self.capacity
                && !self.hot.active@[self.free_list@[i] as int]
        &&& forall|i: int, j: int|
            0 <= i < j < self.free_list@.len() ==> self.free_list@[i] != self.free_list@[j]
    }

    /// Every slot that is not in use, but perhaps `held`, is in the free
    /// list.
    pub open spec fn free_full(&self, held: Option<usize>) -> bool {
        forall|k: usize|
            k < self.capacity && !self.hot.active@[k as int] && held != Some(k)
                ==> self.free_list@.contains(k)
    }

    /// The node that slot `k` holds.
    pub open spec fn node_at(&self, k: int) -> DirectOrder {
        DirectOrder {
            order: Order {
                order_id: self.hot.order_ids@[k],
                uid: self.cold@[k].uid,
                price: self.hot.prices@[k],
                size: self.hot.sizes@[k],
                filled: self.hot.filled@[k],
                action: self.cold@[k].action,
                order_type: self.cold@[k].order_type,
                reserve_price: self.cold@[k].reserve_price,
                timestamp: self.cold@[k].timestamp,
                stop_price: self.cold@[k].stop_price,
                visible_size: self.cold@[k].visible_size,
                expire_time: self.cold@[k].expire_time,
            },
            next: self.hot.next@[k],
            prev: self.hot.prev@[k],
        }
    }

    /// A pool of `capacity` free slots; the lowest slot is handed out first.
    pub fn new(capacity: usize) -> (p: Self)
        ensures
            p.store_wf(),
            p.capacity == capacity,
            p.nodes().dom().is_empty(),
            p.free_list@.len() == capacity,
    {
        let mut p = OrderPool {
            hot: OrderHotData {
                order_ids: Vec::new(),
                prices: Vec::new(),
                sizes: Vec::new(),
                filled: Vec::new(),
                next: Vec::new(),
                prev: Vec::new(),
                active: Vec::new(),
            },
            cold: Vec::new(),
            free_list: Vec::new(),
            capacity: 0,
        };
        let mut i: usize = 0;
        while i < capacity
            invariant
                i <= capacity,
                p.capacity == i,
                p.sized(),
                p.free_list@.len() == i,
                forall|k: int| 0 <= k < i ==> !(#[trigger] p.hot.active@[k]),
                forall|k: int| 0 <= k < i ==> (#[trigger] p.free_list@[k]) == capacity - 1 - k,
            decreases capacity - i,
        {
            p.hot.order_ids.push(0);
            p.hot.prices.push(0);
            p.hot.sizes.push(0);
            p.hot.filled.push(0);
            p.hot.next.push(None);
            p.hot.prev.push(None);
            p.hot.active.push(false);
            p.cold.push(
                OrderColdData {
                    uid: 0,
                    action: OrderAction::Bid,
                    reserve_price: 0,
                    timestamp: 0,
                    order_type: OrderType::Gtc,
                    stop_price: None,
                    visible_size: None,
                    expire_time: None,
                },
            );
            p.free_list.push(capacity - 1 - i);
            i = i + 1;
            p.capacity = i;
        }
        proof {
            assert forall|k: usize|
                k < p.capacity && !p.hot.active@[k as int] implies p.free_list@.contains(k) by {
                assert(p.free_list@[capacity - 1 - k] == k);
            }
            assert forall|k: usize| !p.nodes().dom().contains(k) by {}
            assert(p.nodes().dom() =~= Set::<usize>::empty());
        }
        p
    }

    /// Takes a slot off the free list, if one is left. The slot is not yet
    /// in use.
    pub fn allocate(&mut self) -> (r: Option<usize>)
        requires
            old(self).store_wf(),
        ensures
            final(self).sized(),
            final(self).free_sound(),
            final(self).free_full(r),
            final(self).hot == old(self).hot,
            final(self).cold == old(self).cold,
            final(self).capacity == old(self).capacity,
            match r {
                Some(i) => i < old(self).capacity && !old(self).hot.active@[i as int]
                    && !final(self).free_list@.contains(i),
                None => old(self).free_list@.len() == 0,
            },
    {
        let r: Option<usize> = self.free_list.pop();
        proof {
            let was = old(self).free_list@;
            let now = self.free_list@;
            if was.len() > 0 {
                let i = was[was.len() - 1];
                assert forall|k: usize|
                    k < self.capacity && !self.hot.active@[k as int] && k
                        != i implies now.contains(k) by {
                    assert(was.contains(k));
                    let at = choose|at: int| 0 <= at < was.len() && was[at] == k;
                    assert(now[at] == k);
                }
                if now.contains(i) {
                    let at = choose|at: int| 0 <= at < now.len() && now[at] == i;
                    assert(was[at] != was[was.len() - 1]);
                }
            }
        }
        r
    }

    /// Puts slot `idx`, which is in use, back on the free list.
    pub fn dealloc(&mut self, idx: usize)
        requires
            old(self).store_wf(),
            idx < old(self).capacity,
            old(self).hot.active@[idx as int],
        ensures
            final(self).store_wf(),
            final(self).nodes() == old(self).nodes().remove(idx),
            final(self).capacity == old(self).capacity,
    {
        self.hot.active[idx] = false;
        self.free_list.push(idx);
        proof {
            let was = old(self).free_list@;
            let now = self.free_list@;
            assert forall|i: int| 0 <= i < now.len() implies (#[trigger] now[i]) < self.capacity
                && !self.hot.active@[now[i] as int] by {
                if i < was.len() {
                    assert(now[i] == was[i]);
                }
            }
            assert forall|i: int, j: int| 0 <= i < j < now.len() implies now[i] != now[j] by {
                if j < was.len() {
                    assert(was[i] != was[j]);
                } else {
                    assert(now[i] == was[i]);
                    assert(!old(self).hot.active@[was[i] as int]);
                }
            }
            assert forall|k: usize|
                k < self.capacity && !self.hot.active@[k as int] implies now.contains(k) by {
                if k == idx {
                    assert(now[was.len() as int] == idx);
                } else {
                    assert(was.contains(k));
                    let at = choose|at: int| 0 <= at < was.len() && was[at] == k;
                    assert(now[at] == k);
                }
            }
            assert(self.nodes() =~= old(self).nodes().remove(idx));
        }
    }

    /// Adds one slot to the pool and returns it. The slot is not yet in use
    /// and not on the free list.
    pub fn grow(&mut self) -> (idx: usize)
        requires
            old(self).store_wf(),
        ensures
            idx == old(self).capacity,
            final(self).capacity == old(self).capacity + 1,
            final(self).sized(),
            final(self).free_sound(),
            final(self).free_full(Some(idx)),
            !final(self).hot.active@[idx as int],
            !final(self).free_list@.contains(idx),
            forall|k: int|
                0 <= k < old(self).capacity ==> final(self).hot.active@[k] == old(
                    self,
                ).hot.active@[k] && #[trigger] final(self).node_at(k) == old(self).node_at(k),
    {
        let idx: usize = self.cold.len();
        self.hot.order_ids.push(0);
        self.hot.prices.push(0);
        self.hot.sizes.push(0);
        self.hot.filled.push(0);
        self.hot.next.push(None);
        self.hot.prev.push(None);
        self.hot.active.push(false);
        self.cold.push(
            OrderColdData {
                uid: 0,
                action: OrderAction::Bid,
                reserve_price: 0,
                timestamp: 0,
                order_type: OrderType::Gtc,
                stop_price: None,
                visible_size: None,
                expire_time: None,
            },
        );
        self.capacity = self.cold.len();
        proof {
            assert forall|k: usize|
                k < self.capacity && !self.hot.active@[k as int] && Some(idx) != Some(
                    k,
                ) implies self.free_list@.contains(k) by {
                assert(!old(self).hot.active@[k as int]);
            }
            if self.free_list@.contains(idx) {
                let at = choose|at: int| 0 <= at < self.free_list@.len() && self.free_list@[at] == idx;
                assert(old(self).free_list@[at] < old(self).capacity);
            }
        }
        idx
    }

    /// Writes node `n` into slot `key`.
    pub fn write(&mut self, key: usize, n: DirectOrder)
        requires
            old(self).sized(),
            key < old(self).capacity,
        ensures
            final(self).sized(),
            final(self).capacity == old(self).capacity,
            final(self).free_list == old(self).free_list,
            final(self).hot.active == old(self).hot.active,
            final(self).node_at(key as int) == n,
            forall|k: int|
                0 <= k < old(self).capacity && k != key ==> #[trigger] final(self).node_at(k) == old(
                    self,
                ).node_at(k),
    {
        self.hot.order_ids[key] = n.order.order_id;
        self.hot.prices[key] = n.order.price;
        self.hot.sizes[key] = n.order.size;
        self.hot.filled[key] = n.order.filled;
        self.hot.next[key] = n.next;
        self.hot.prev[key] = n.prev;
        self.cold[key] = OrderColdData {
            uid: n.order.uid,
            action: n.order.action,
            reserve_price: n.order.reserve_price,
            timestamp: n.order.timestamp,
            order_type: n.order.order_type,
            stop_price: n.order.stop_price,
            visible_size: n.order.visible_size,
            expire_time: n.order.expire_time,
        };
    }
}

impl NodeStore for OrderPool {
    open spec fn nodes(&self) -> Map<usize, DirectOrder> {
        Map::new(
            |k: usize| k < self.capacity && self.hot.active@[k as int],
            |k: usize| self.node_at(k as int),
        )
    }

    open spec fn store_wf(&self) -> bool {
        &&& self.sized()
        &&& self.free_sound()
        &&& self.free_full(None)
    }

    fn node(&self, key: usize) -> (n: DirectOrder) {
        let cold: OrderColdData = self.cold[key];
        DirectOrder {
            order: Order {
                order_id: self.hot.order_ids[key],
                uid: cold.uid,
                price: self.hot.prices[key],
                size: self.hot.sizes[key],
                filled: self.hot.filled[key],
                action: cold.action,
                order_type: cold.order_type,
                reserve_price: cold.reserve_price,
                timestamp: cold.timestamp,
                stop_price: cold.stop_price,
                visible_size: cold.visible_size,
                expire_time: cold.expire_time,
            },
            next: self.hot.next[key],
            prev: self.hot.prev[key],
        }
    }

    fn put(&mut self, key: usize, n: DirectOrder) {
        self.write(key, n);
        proof {
            assert(self.nodes() =~= old(self).nodes().insert(key, n));
        }
    }

    fn insert(&mut self, n: DirectOrder) -> (key: usize) {
        let key: usize = match self.allocate() {
            Some(i) => i,
            None => self.grow(),
        };
        let ghost pre = *self;
        self.write(key, n);
        let ghost mid = *self;
        self.hot.active[key] = true;
        proof {
            assert forall|i: int| 0 <= i < self.free_list@.len() implies (
            #[trigger] self.free_list@[i]) < self.capacity
                && !self.hot.active@[self.free_list@[i] as int] by {
                assert(self.free_list@.contains(self.free_list@[i]));
            }
            assert forall|k: usize| k < self.capacity implies self.node_at(k as int) == (if k
                == key {
                n
            } else {
                old(self).node_at(k as int)
            }) by {
                assert(self.node_at(k as int) == mid.node_at(k as int));
                if k != key {
                    assert(mid.node_at(k as int) == pre.node_at(k as int));
                    assert(pre.node_at(k as int) == old(self).node_at(k as int));
                }
            }
            assert forall|k: usize| self.nodes().contains_key(k) <==> old(self).nodes().insert(
                key,
                n,
            ).contains_key(k) by {
                if k != key && k < self.capacity {
                    assert(mid.hot.active == pre.hot.active);
                    assert(self.hot.active@[k as int] == mid.hot.active@[k as int]);
                    assert(k < old(self).capacity);
                    assert(pre.node_at(k as int) == old(self).node_at(k as int));
                    assert(pre.hot.active@[k as int] == old(self).hot.active@[k as int]);
                }
                if k == key {
                    assert(self.hot.active@[key as int]);
                }
                if k >= self.capacity {
                    assert(self.capacity >= old(self).capacity);
                }
            }
            assert(self.nodes() =~= old(self).nodes().insert(key, n));
        }
        key
    }

    fn remove(&mut self, key: usize) -> (n: DirectOrder) {
        let n: DirectOrder = self.node(key);
        self.dealloc(key);
        n
    }
}

/// What the book over pools does with a new order: it knows
/// good-till-cancel and immediate-or-cancel.
pub open spec fn pool_placed(book: BookModel, cmd: Order) -> Outcome {
    match cmd.order_type {
        OrderType::Gtc => take_and_rest(book, cmd, false),
        OrderType::Ioc => take_only(book, cmd),
        _ => refused(book, cmd, CommandResultCode::MatchingUnsupportedCommand),
    }
}

/// The direct order book over pools of slots allocated ahead of use, with
/// the fields of an order split into hot and cold arrays.
pub struct DirectOrderBookOptimized {
    pub core: ThreadedBook<OrderPool>,
}

impl View for DirectOrderBookOptimized {
    type V = BookModel;

    open spec fn view(&self) -> BookModel {
        self.core@
    }
}

impl DirectOrderBookOptimized {
    pub open spec fn wf(&self) -> bool {
        self.core.wf()
    }

    pub fn new(spec: CoreSymbolSpecification) -> (book: Self)
        ensures
            book.wf(),
            book@ == BookModel::empty(),
            book.core.symbol_spec == spec,
    {
        DirectOrderBookOptimized {
            core: ThreadedBook::new(
                spec,
                OrderPool::new(POOL_CAPACITY),
                OrderPool::new(POOL_CAPACITY),
            ),
        }
    }

    /// Writes the book out.
    pub fn export(&self) -> (snap: BookSnapshot)
        requires
            self.wf(),
        ensures
            snap.wf(),
            snap@ == self@,
            snap.kind == BookKind::DirectOptimized,
            snap.symbol_spec == self.core.symbol_spec,
    {
        self.core.export(BookKind::DirectOptimized)
    }

    /// The book that a snapshot was written from.
    pub fn restore(snap: &BookSnapshot) -> (book: Self)
        requires
            snap@.wf(),
            snap.plain(),
            snap.stops@.len() == 0,
            snap.last_trade_price.is_none(),
        ensures
            book.wf(),
            book@ == snap@,
            book.core.symbol_spec == snap.symbol_spec,
    {
        let mut book = Self::new(snap.symbol_spec);
        book.core.refill(snap);
        book
    }

    /// Matches the command against the opposite side, from its best order
    /// on.
    pub fn try_match(&mut self, cmd: &mut OrderCommand) -> (filled: Size)
        requires
            old(self).wf(),
        ensures
            final(self).wf(),
            final(self).core.symbol_spec == old(self).core.symbol_spec,
            final(self)@ == after_match(old(self)@, entry_of(*old(cmd))),
            filled == matched(old(self)@, entry_of(*old(cmd))).filled,
            final(cmd).same_inputs(*old(cmd)),
            final(cmd).result_code == old(cmd).result_code,
            final(cmd).action == old(cmd).action,
            final(cmd).matcher_events@ == old(cmd).matcher_events@ + matched(
                old(self)@,
                entry_of(*old(cmd)),
            ).events,
    {
        self.core.try_match(cmd)
    }

    pub fn place_gtc(&mut self, cmd: &mut OrderCommand)
        requires
            old(self).wf(),
            old(self)@.can_hold(entry_of(*old(cmd))),
        ensures
            final(self).wf(),
            final(self).core.symbol_spec == old(self).core.symbol_spec,
            final(self)@ == take_and_rest(old(self)@, entry_of(*old(cmd)), false).book,
            applied(take_and_rest(old(self)@, entry_of(*old(cmd)), false), *old(cmd), *final(cmd)),
    {
        self.core.place_gtc(cmd);
    }

    pub fn place_ioc(&mut self, cmd: &mut OrderCommand)
        requires
            old(self).wf(),
        ensures
            final(self).wf(),
            final(self).core.symbol_spec == old(self).core.symbol_spec,
            final(self)@ == take_only(old(self)@, entry_of(*old(cmd))).book,
            applied(take_only(old(self)@, entry_of(*old(cmd))), *old(cmd), *final(cmd)),
    {
        self.core.place_ioc(cmd);
    }

    /// Places a new order: good-till-cancel or immediate-or-cancel.
    pub fn new_order(&mut self, cmd: &mut OrderCommand) -> (code: CommandResultCode)
        requires
            old(self).wf(),
            old(self)@.has_room(entry_of(*old(cmd)), false),
        ensures
            final(self).wf(),
            final(self).core.symbol_spec == old(self).core.symbol_spec,
            final(self)@ == pool_placed(old(self)@, entry_of(*old(cmd))).book,
            code == pool_placed(old(self)@, entry_of(*old(cmd))).code,
            applied(pool_placed(old(self)@, entry_of(*old(cmd))), *old(cmd), *final(cmd)),
    {
        match cmd.order_type {
            OrderType::Gtc => {
                self.core.place_gtc(cmd);
                CommandResultCode::Success
            },
            OrderType::Ioc => {
                self.core.place_ioc(cmd);
                CommandResultCode::Success
            },
            _ => {
                proof {
                    assert(cmd.matcher_events@ + Seq::<MatcherTradeEvent>::empty()
                        =~= cmd.matcher_events@);
                }
                CommandResultCode::MatchingUnsupportedCommand
            },
        }
    }

    pub fn cancel_order(&mut self, cmd: &mut OrderCommand) -> (code: CommandResultCode)
        requires
            old(self).wf(),
        ensures
            final(self).wf(),
            final(self).core.symbol_spec == old(self).core.symbol_spec,
            final(self)@ == cancelled(old(self)@, entry_of(*old(cmd))).book,
            code == cancelled(old(self)@, entry_of(*old(cmd))).code,
            applied(cancelled(old(self)@, entry_of(*old(cmd))), *old(cmd), *final(cmd)),
    {
        self.core.cancel_order(cmd)
    }

    /// Cuts the size of the resting order of the command's id.
    pub fn reduce_order(&mut self, cmd: &mut OrderCommand) -> (code: CommandResultCode)
        requires
            old(self).wf(),
        ensures
            final(self).wf(),
            final(self).core.symbol_spec == old(self).core.symbol_spec,
            final(self)@ == reduced(old(self)@, entry_of(*old(cmd))).book,
            code == reduced(old(self)@, entry_of(*old(cmd))).code,
            applied(reduced(old(self)@, entry_of(*old(cmd))), *old(cmd), *final(cmd)),
    {
        self.core.reduce_order(cmd)
    }

    /// Moves the resting order of the command's id to the command's price.
    pub fn move_order(&mut self, cmd: &mut OrderCommand) -> (code: CommandResultCode)
        requires
            old(self).wf(),
        ensures
            final(self).wf(),
            final(self).core.symbol_spec == old(self).core.symbol_spec,
            final(self)@ == moved(
                old(self)@,
                entry_of(*old(cmd)),
                old(self).core.symbol_spec.symbol_type == SymbolType::CurrencyExchangePair,
            ).book,
            code == moved(
                old(self)@,
                entry_of(*old(cmd)),
                old(self).core.symbol_spec.symbol_type == SymbolType::CurrencyExchangePair,
            ).code,
            applied(
                moved(
                    old(self)@,
                    entry_of(*old(cmd)),
                    old(self).core.symbol_spec.symbol_type == SymbolType::CurrencyExchangePair,
                ),
                *old(cmd),
                *final(cmd),
            ),
    {
        self.core.move_order(cmd)
    }

    pub fn get_symbol_spec(&self) -> (r: &CoreSymbolSpecification)
        ensures
            *r == self.core.symbol_spec,
    {
        self.core.get_symbol_spec()
    }

    pub fn get_l2_data(&self, depth: usize) -> (r: L2MarketData)
        requires
            self.wf(),
        ensures
            depth_of(self@.asks, depth, r.ask_prices@, r.ask_volumes@),
            depth_of(self@.bids, depth, r.bid_prices@, r.bid_volumes@),
    {
        self.core.get_l2_data(depth)
    }

    pub fn get_order_by_id(&self, order_id: OrderId) -> (r: Option<(Price, OrderAction)>)
        requires
            self.wf(),
        ensures
            r == if self@.knows(order_id) {
                Some((self@.order(order_id).price, self@.order(order_id).action))
            } else {
                None
            },
    {
        self.core.get_order_by_id(order_id)
    }

    pub fn get_total_ask_volume(&self) -> (r: Size)
        requires
            self.wf(),
        ensures
            r == queue_volume(self@.asks),
    {
        self.core.get_total_ask_volume()
    }

    pub fn get_total_bid_volume(&self) -> (r: Size)
        requires
            self.wf(),
        ensures
            r == queue_volume(self@.bids),
    {
        self.core.get_total_bid_volume()
    }

    pub fn get_ask_buckets_count(&self) -> (r: usize)
        requires
            self.wf(),
        ensures
            r == price_levels(self@.asks).len(),
    {
        self.core.get_ask_buckets_count()
    }

    pub fn get_bid_buckets_count(&self) -> (r: usize)
        requires
            self.wf(),
        ensures
            r == price_levels(self@.bids).len(),
    {
        self.core.get_bid_buckets_count()
    }
}

} // verus!
