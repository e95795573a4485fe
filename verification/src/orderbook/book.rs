use crate::api::commands::OrderCommand;
use crate::api::market_data::L2MarketData;
use crate::api::types::{
    CommandResultCode, CoreSymbolSpecification, OrderAction, OrderId, Price, Size, SymbolType,
};
use crate::orderbook::advanced::{adv_placed, AdvancedOrderBook};
use crate::orderbook::direct::DirectOrderBook;
use crate::orderbook::direct_optimized::{pool_placed, DirectOrderBookOptimized};
use crate::orderbook::index::{spots, spots_get, spots_insert, spots_new};
use crate::orderbook::model::{
    ahead, all_live, has_id, ids_distinct, in_priority, left_fn, lemma_position,
    lemma_sum_by_push, position_of, price_levels, queue_volume, Order,
};
use crate::orderbook::rules::lemma_ids_after_insert;
use crate::orderbook::naive::{applied, depth_of, naive_placed, NaiveOrderBook};
use crate::orderbook::rules::{
    cancelled, entry_of, moved, reduced, BookModel, Outcome,
};
use vstd::prelude::*;

verus! {

/// The kinds of order book.
#[derive(Debug, Clone, Copy, PartialEq, Eq, Structural)]
pub enum BookKind {
    Naive,
    Direct,
    DirectOptimized,
    Advanced,
}

impl BookKind {
    /// Books of this kind keep the advertised size and the expiry time of a
    /// resting order.
    pub open spec fn keeps_extras(self) -> bool {
        self == BookKind::Advanced
    }
}

/// What a book of kind `kind` does with a new order.
pub open spec fn placed_by(kind: BookKind, book: BookModel, cmd: Order) -> Outcome {
    match kind {
        BookKind::Naive => naive_placed(book, cmd),
        BookKind::Direct => naive_placed(book, cmd),
        BookKind::DirectOptimized => pool_placed(book, cmd),
        BookKind::Advanced => adv_placed(book, cmd),
    }
}

/// An order book written out: its kind and symbol, its resting orders in
/// price-time priority, its stop pool and its last trade price.
pub struct BookSnapshot {
    pub kind: BookKind,
    pub symbol_spec: CoreSymbolSpecification,
    pub asks: Vec<Order>,
    pub bids: Vec<Order>,
    pub stops: Vec<Order>,
    pub last_trade_price: Option<Price>,
}

impl View for BookSnapshot {
    type V = BookModel;

    open spec fn view(&self) -> BookModel {
        BookModel {
            asks: self.asks@,
            bids: self.bids@,
            stops: self.stops@,
            last_trade_price: self.last_trade_price,
        }
    }
}

impl BookSnapshot {
    /// No order advertises less than is left of it.
    pub open spec fn plain(&self) -> bool {
        &&& forall|i: int| 0 <= i < self.asks@.len() ==> (#[trigger] self.asks@[i]).visible_size.is_none()
        &&& forall|i: int| 0 <= i < self.bids@.len() ==> (#[trigger] self.bids@[i]).visible_size.is_none()
    }

    /// The snapshot is one of a valid book of its kind: only the book of
    /// all order types has a stop pool, a last trade price and advertised
    /// sizes.
    pub open spec fn wf(&self) -> bool {
        &&& self@.wf()
        &&& self.kind != BookKind::Advanced ==> self.stops@.len() == 0
            && self.last_trade_price.is_none()
        &&& self.kind == BookKind::Direct || self.kind == BookKind::DirectOptimized
            ==> self.plain()
    }
}

/// Each order of `q` goes before the next.
pub open spec fn stepwise(side: OrderAction, q: Seq<Order>) -> bool {
    forall|i: int, j: int|
        0 <= i && j == i + 1 && j < q.len() ==> ahead(
            side,
            (#[trigger] q[i]).price,
            (#[trigger] q[j]).price,
        )
}

pub proof fn lemma_steps_reach(side: OrderAction, q: Seq<Order>, i: int, j: int)
    requires
        stepwise(side, q),
        0 <= i < j < q.len(),
    ensures
        ahead(side, q[i].price, q[j].price),
    decreases j - i,
{
    assert(ahead(side, q[j - 1].price, q[j].price));
    if i < j - 1 {
        lemma_steps_reach(side, q, i, j - 1);
    }
}

/// Orders of which each goes before the next stand in priority order, and
/// the other way round.
pub proof fn lemma_steps_give_priority(side: OrderAction, q: Seq<Order>)
    ensures
        stepwise(side, q) == in_priority(side, q),
{
    if stepwise(side, q) {
        assert forall|i: int, j: int| 0 <= i < j < q.len() implies ahead(
            side,
            (#[trigger] q[i]).price,
            (#[trigger] q[j]).price,
        ) by {
            lemma_steps_reach(side, q, i, j);
        }
    }
}

/// The ids of two sequences one after the other are distinct where those
/// of each are and no id is in both.
pub proof fn lemma_distinct_concat(a: Seq<Order>, b: Seq<Order>)
    ensures
        ids_distinct(a + b) == (ids_distinct(a) && ids_distinct(b) && forall|id: OrderId|
            !(has_id(a, id) && has_id(b, id))),
        forall|id: OrderId| has_id(a + b, id) == (has_id(a, id) || has_id(b, id)),
{
    let q = a + b;
    assert forall|id: OrderId| has_id(q, id) == (has_id(a, id) || has_id(b, id)) by {
        lemma_position(q, id);
        lemma_position(a, id);
        lemma_position(b, id);
        if has_id(q, id) {
            let p = position_of(q, id);
            if p < a.len() {
                assert(a[p] == q[p]);
            } else {
                assert(b[p - a.len()] == q[p]);
            }
        }
        if has_id(a, id) {
            assert(q[position_of(a, id)] == a[position_of(a, id)]);
        }
        if has_id(b, id) {
            assert(q[a.len() + position_of(b, id)] == b[position_of(b, id)]);
        }
    }
    if ids_distinct(q) {
        assert forall|i: int, j: int| 0 <= i < j < a.len() implies (#[trigger] a[i]).order_id != (
        #[trigger] a[j]).order_id by {
            assert(q[i] == a[i] && q[j] == a[j]);
        }
        assert forall|i: int, j: int| 0 <= i < j < b.len() implies (#[trigger] b[i]).order_id != (
        #[trigger] b[j]).order_id by {
            assert(q[a.len() + i] == b[i] && q[a.len() + j] == b[j]);
        }
        assert forall|id: OrderId| !(has_id(a, id) && has_id(b, id)) by {
            lemma_position(a, id);
            lemma_position(b, id);
            if has_id(a, id) && has_id(b, id) {
                let i = position_of(a, id);
                let j = a.len() + position_of(b, id);
                assert(q[i] == a[i]);
                assert(q[j] == b[position_of(b, id)]);
                assert(q[i].order_id != q[j].order_id);
            }
        }
    }
    if ids_distinct(a) && ids_distinct(b) && forall|id: OrderId| !(has_id(a, id) && has_id(b, id)) {
        assert forall|i: int, j: int| 0 <= i < j < q.len() implies (#[trigger] q[i]).order_id != (
        #[trigger] q[j]).order_id by {
            if j < a.len() {
                assert(q[i] == a[i] && q[j] == a[j]);
            } else if i >= a.len() {
                assert(q[i] == b[i - a.len()] && q[j] == b[j - a.len()]);
            } else {
                assert(q[i] == a[i]);
                assert(q[j] == b[j - a.len()]);
                crate::orderbook::rules::lemma_spot(a, i);
                crate::orderbook::rules::lemma_spot(b, j - a.len());
                assert(!(has_id(a, a[i].order_id) && has_id(b, a[i].order_id)));
            }
        }
    }
}

impl BookSnapshot {
    /// Whether every order of `q` is live, on side `side`, and behind the
    /// one before it in price.
    pub fn side_in_order(q: &Vec<Order>, side: OrderAction) -> (ok: bool)
        ensures
            ok == (all_live(side, q@) && in_priority(side, q@)),
    {
        let n: usize = q.len();
        let mut i: usize = 0;
        proof {
            lemma_steps_give_priority(side, q@);
        }
        while i < n
            invariant
                i <= n,
                n == q@.len(),
                stepwise(side, q@) == in_priority(side, q@),
                forall|k: int| 0 <= k < i ==> (#[trigger] q@[k]).live() && q@[k].action == side,
                forall|a: int, b: int|
                    0 <= a && b == a + 1 && b < i ==> ahead(
                        side,
                        (#[trigger] q@[a]).price,
                        (#[trigger] q@[b]).price,
                    ),
            decreases n - i,
        {
            let o: Order = q[i];
            let live: bool = 0 <= o.filled && o.filled < o.size && match o.visible_size {
                Some(v) => v >= 0,
                None => true,
            };
            let sided: bool = match (o.action, side) {
                (OrderAction::Ask, OrderAction::Ask) => true,
                (OrderAction::Bid, OrderAction::Bid) => true,
                _ => false,
            };
            let stepped: bool = i == 0 || match side {
                OrderAction::Ask => q[i - 1].price <= o.price,
                OrderAction::Bid => q[i - 1].price >= o.price,
            };
            if !live || !sided || !stepped {
                proof {
                    if all_live(side, q@) && in_priority(side, q@) {
                        assert(q@[i as int].live());
                        if i > 0 {
                            assert(ahead(side, q@[i - 1].price, q@[i as int].price));
                        }
                    }
                }
                return false;
            }
            i = i + 1;
        }
        true
    }

    /// Adds what is left of the live orders of `q` to `base`: the sum
    /// where it is within 64 bits.
    pub fn volume_within(q: &Vec<Order>, base: i128) -> (r: Option<i128>)
        requires
            forall|k: int| 0 <= k < q@.len() ==> (#[trigger] q@[k]).live(),
            0 <= base <= i64::MAX,
        ensures
            match r {
                Some(v) => v == base + queue_volume(q@) && 0 <= v <= i64::MAX,
                None => base + queue_volume(q@) > i64::MAX,
            },
            queue_volume(q@) >= 0,
    {
        let n: usize = q.len();
        let mut sum: i128 = base;
        let mut i: usize = 0;
        proof {
            assert(q@.subrange(0, 0) =~= Seq::<Order>::empty());
            crate::orderbook::rules::lemma_part_pool_volume(q@, 0);
        }
        while i < n
            invariant
                i <= n,
                n == q@.len(),
                forall|k: int| 0 <= k < q@.len() ==> (#[trigger] q@[k]).live(),
                sum == base + queue_volume(q@.subrange(0, i as int)),
                0 <= sum <= i64::MAX,
                queue_volume(q@) >= 0,
            decreases n - i,
        {
            let o: Order = q[i];
            proof {
                assert(o.live());
                assert(q@.subrange(0, i + 1) =~= q@.subrange(0, i as int).push(o));
                lemma_sum_by_push(q@.subrange(0, i as int), o, left_fn());
                crate::orderbook::rules::lemma_part_pool_volume(q@, i + 1);
            }
            sum = sum + ((o.size - o.filled) as i128);
            if sum > i64::MAX as i128 {
                return None;
            }
            i = i + 1;
        }
        proof {
            assert(q@.subrange(0, n as int) =~= q@);
        }
        Some(sum)
    }

    /// Whether no two orders of `q` share an id.
    pub fn distinct_ids(q: &Vec<Order>) -> (ok: bool)
        ensures
            ok == ids_distinct(q@),
    {
        let n: usize = q.len();
        let mut ids = spots_new();
        let mut i: usize = 0;
        proof {
            assert(q@.subrange(0, 0) =~= Seq::<Order>::empty());
            assert forall|id: OrderId| !spots(ids).contains_key(id) by {
                assert(!spots(ids).dom().contains(id));
            }
        }
        while i < n
            invariant
                i <= n,
                n == q@.len(),
                ids_distinct(q@.subrange(0, i as int)),
                forall|id: OrderId|
                    spots(ids).contains_key(id) == has_id(q@.subrange(0, i as int), id),
            decreases n - i,
        {
            let o: Order = q[i];
            let ghost done = q@.subrange(0, i as int);
            proof {
                assert(q@.subrange(0, i + 1) =~= done.insert(i as int, o));
                lemma_position(done, o.order_id);
            }
            if spots_get(&ids, o.order_id).is_some() {
                proof {
                    let p = position_of(done, o.order_id);
                    assert(done[p] == q@[p]);
                    if ids_distinct(q@) {
                        assert(q@[p].order_id != q@[i as int].order_id);
                    }
                }
                return false;
            }
            proof {
                lemma_ids_after_insert(done, i as int, o);
            }
            spots_insert(&mut ids, o.order_id, (o.price, o.action));
            i = i + 1;
        }
        proof {
            assert(q@.subrange(0, n as int) =~= q@);
        }
        true
    }

    /// Whether every order of the pool is an untouched, live stop order.
    pub fn pool_in_order(q: &Vec<Order>) -> (ok: bool)
        ensures
            ok == forall|i: int|
                0 <= i < q@.len() ==> (#[trigger] q@[i]).live() && q@[i].filled == 0
                    && q@[i].order_type.is_stop(),
    {
        let n: usize = q.len();
        let mut i: usize = 0;
        while i < n
            invariant
                i <= n,
                n == q@.len(),
                forall|k: int|
                    0 <= k < i ==> (#[trigger] q@[k]).live() && q@[k].filled == 0
                        && q@[k].order_type.is_stop(),
            decreases n - i,
        {
            let o: Order = q[i];
            let fine: bool = o.filled == 0 && o.size > 0 && o.order_type.stop() && match o.visible_size {
                Some(v) => v >= 0,
                None => true,
            };
            if !fine {
                assert(!(q@[i as int].live() && q@[i as int].filled == 0
                    && q@[i as int].order_type.is_stop()));
                return false;
            }
            i = i + 1;
        }
        true
    }

    /// All orders of the snapshot, one side after the other, then the pool.
    pub fn all_orders(&self) -> (all: Vec<Order>)
        ensures
            all@ == self.asks@ + self.bids@ + self.stops@,
    {
        let mut all: Vec<Order> = Vec::new();
        let na: usize = self.asks.len();
        let nb: usize = self.bids.len();
        let ns: usize = self.stops.len();
        let mut i: usize = 0;
        while i < na
            invariant
                i <= na,
                na == self.asks@.len(),
                all@ == self.asks@.subrange(0, i as int),
            decreases na - i,
        {
            all.push(self.asks[i]);
            assert(self.asks@.subrange(0, i + 1) =~= self.asks@.subrange(0, i as int).push(
                self.asks@[i as int],
            ));
            i = i + 1;
        }
        assert(self.asks@.subrange(0, na as int) =~= self.asks@);
        let mut j: usize = 0;
        while j < nb
            invariant
                j <= nb,
                nb == self.bids@.len(),
                all@ == self.asks@ + self.bids@.subrange(0, j as int),
            decreases nb - j,
        {
            all.push(self.bids[j]);
            assert(self.asks@ + self.bids@.subrange(0, j + 1) =~= (self.asks@
                + self.bids@.subrange(0, j as int)).push(self.bids@[j as int]));
            j = j + 1;
        }
        assert(self.bids@.subrange(0, nb as int) =~= self.bids@);
        let mut k: usize = 0;
        while k < ns
            invariant
                k <= ns,
                ns == self.stops@.len(),
                all@ == self.asks@ + self.bids@ + self.stops@.subrange(0, k as int),
            decreases ns - k,
        {
            all.push(self.stops[k]);
            assert(self.asks@ + self.bids@ + self.stops@.subrange(0, k + 1) =~= (self.asks@
                + self.bids@ + self.stops@.subrange(0, k as int)).push(self.stops@[k as int]));
            k = k + 1;
        }
        assert(self.stops@.subrange(0, ns as int) =~= self.stops@);
        all
    }

    /// Whether the snapshot is one of a valid book of its kind.
    pub fn is_valid(&self) -> (ok: bool)
        ensures
            ok == self.wf(),
    {
        if !Self::side_in_order(&self.asks, OrderAction::Ask) {
            return false;
        }
        if !Self::side_in_order(&self.bids, OrderAction::Bid) {
            return false;
        }
        if !Self::pool_in_order(&self.stops) {
            return false;
        }
        let total: Option<i128> = match Self::volume_within(&self.asks, 0) {
            Some(a) => match Self::volume_within(&self.bids, a) {
                Some(b) => Self::volume_within(&self.stops, b),
                None => None,
            },
            None => None,
        };
        if total.is_none() {
            proof {
                crate::orderbook::rules::lemma_part_pool_volume(self.asks@, 0);
                crate::orderbook::rules::lemma_part_pool_volume(self.bids@, 0);
                crate::orderbook::rules::lemma_part_pool_volume(self.stops@, 0);
            }
            return false;
        }
        let all: Vec<Order> = self.all_orders();
        proof {
            lemma_distinct_concat(self.asks@ + self.bids@, self.stops@);
            lemma_distinct_concat(self.asks@, self.bids@);
        }
        if !Self::distinct_ids(&all) {
            return false;
        }
        assert(self@.wf());
        let plain_kind: bool = match self.kind {
            BookKind::Advanced => true,
            _ => self.stops.len() == 0 && self.last_trade_price.is_none(),
        };
        if !plain_kind {
            return false;
        }
        match self.kind {
            BookKind::Direct => Self::all_plain(&self.asks) && Self::all_plain(&self.bids),
            BookKind::DirectOptimized => Self::all_plain(&self.asks) && Self::all_plain(&self.bids),
            _ => true,
        }
    }

    /// Whether no order of `q` has an advertised size.
    pub fn all_plain(q: &Vec<Order>) -> (r: bool)
        ensures
            r == forall|i: int| 0 <= i < q@.len() ==> (#[trigger] q@[i]).visible_size.is_none(),
    {
        let n: usize = q.len();
        let mut i: usize = 0;
        while i < n
            invariant
                i <= n,
                n == q@.len(),
                forall|k: int| 0 <= k < i ==> (#[trigger] q@[k]).visible_size.is_none(),
            decreases n - i,
        {
            if q[i].visible_size.is_some() {
                return false;
            }
            i = i + 1;
        }
        true
    }
}

/// An order book of any kind.
pub enum OrderBookState {
    Naive(NaiveOrderBook),
    Direct(DirectOrderBook),
    DirectOptimized(DirectOrderBookOptimized),
    Advanced(AdvancedOrderBook),
}

impl View for OrderBookState {
    type V = BookModel;

    open spec fn view(&self) -> BookModel {
        match self {
            OrderBookState::Naive(b) => b@,
            OrderBookState::Direct(b) => b@,
            OrderBookState::DirectOptimized(b) => b@,
            OrderBookState::Advanced(b) => b@,
        }
    }
}

impl OrderBookState {
    pub open spec fn wf(&self) -> bool {
        match self {
            OrderBookState::Naive(b) => b.wf(),
            OrderBookState::Direct(b) => b.wf(),
            OrderBookState::DirectOptimized(b) => b.wf(),
            OrderBookState::Advanced(b) => b.wf(),
        }
    }

    pub open spec fn kind(&self) -> BookKind {
        match self {
            OrderBookState::Naive(_) => BookKind::Naive,
            OrderBookState::Direct(_) => BookKind::Direct,
            OrderBookState::DirectOptimized(_) => BookKind::DirectOptimized,
            OrderBookState::Advanced(_) => BookKind::Advanced,
        }
    }

    pub open spec fn symbol_spec(&self) -> CoreSymbolSpecification {
        match self {
            OrderBookState::Naive(b) => b.symbol_spec,
            OrderBookState::Direct(b) => b.core.symbol_spec,
            OrderBookState::DirectOptimized(b) => b.core.symbol_spec,
            OrderBookState::Advanced(b) => b.symbol_spec,
        }
    }

    /// The book trades a spot pair.
    pub open spec fn spot(&self) -> bool {
        self.symbol_spec().symbol_type == SymbolType::CurrencyExchangePair
    }

    /// The book has room for the order, see [`BookModel::has_room`].
    pub open spec fn room(&self, cmd: Order) -> bool {
        self@.has_room(cmd, self.kind().keeps_extras())
    }

    /// The book is the same book afterwards: kind and symbol stay.
    pub open spec fn same_book(&self, other: &OrderBookState) -> bool {
        self.kind() == other.kind() && self.symbol_spec() == other.symbol_spec()
    }

    /// Writes the book out.
    pub fn export(&self) -> (snap: BookSnapshot)
        requires
            self.wf(),
        ensures
            snap.wf(),
            snap@ == self@,
            snap.kind == self.kind(),
            snap.symbol_spec == self.symbol_spec(),
    {
        match self {
            OrderBookState::Naive(b) => b.export(),
            OrderBookState::Direct(b) => b.export(),
            OrderBookState::DirectOptimized(b) => b.export(),
            OrderBookState::Advanced(b) => b.export(),
        }
    }

    /// The book that a snapshot was written from.
    pub fn restore(snap: &BookSnapshot) -> (book: Self)
        requires
            snap.wf(),
        ensures
            book.wf(),
            book@ == snap@,
            book.kind() == snap.kind,
            book.symbol_spec() == snap.symbol_spec,
    {
        match snap.kind {
            BookKind::Naive => OrderBookState::Naive(NaiveOrderBook::restore(snap)),
            BookKind::Direct => OrderBookState::Direct(DirectOrderBook::restore(snap)),
            BookKind::DirectOptimized => OrderBookState::DirectOptimized(
                DirectOrderBookOptimized::restore(snap),
            ),
            BookKind::Advanced => OrderBookState::Advanced(AdvancedOrderBook::restore(snap)),
        }
    }

    /// Everything that the book holds: what is left of its resting orders
    /// and of its stop orders.
    pub fn total_volume(&self) -> (r: i128)
        requires
            self.wf(),
        ensures
            r == self@.total_volume(),
            0 <= r <= i64::MAX,
    {
        proof {
            self.lemma_model_wf();
            self@.lemma_volumes();
        }
        let resting: i128 = (self.get_total_ask_volume() as i128) + (
        self.get_total_bid_volume() as i128);
        match self {
            OrderBookState::Advanced(b) => resting + (b.get_total_stop_volume() as i128),
            _ => {
                assert(self@.stops =~= Seq::<Order>::empty());
                resting
            },
        }
    }

    /// The book can take the command's order, see [`OrderBookState::room`].
    pub fn has_room(&self, cmd: &OrderCommand) -> (r: bool)
        requires
            self.wf(),
        ensures
            r == self.room(entry_of(*cmd)),
    {
        if cmd.order_type.takes_only() {
            return true;
        }
        let sized: bool = cmd.size <= 0 || self.total_volume() + (cmd.size as i128)
            <= i64::MAX as i128;
        let shown: bool = match self {
            OrderBookState::Advanced(_) => match cmd.visible_size {
                Some(v) => v >= 0,
                None => true,
            },
            _ => true,
        };
        sized && shown
    }

    /// The model of a valid book is valid.
    pub proof fn lemma_model_wf(&self)
        requires
            self.wf(),
        ensures
            self@.wf(),
    {
    }

    /// A book of the same kind, symbol and orders: this one written out and
    /// read back.
    pub fn duplicate(&self) -> (book: Self)
        requires
            self.wf(),
        ensures
            book.wf(),
            book@ == self@,
            book.same_book(self),
    {
        let snap = self.export();
        Self::restore(&snap)
    }

    pub fn new_order(&mut self, cmd: &mut OrderCommand) -> (code: CommandResultCode)
        requires
            old(self).wf(),
            old(self).room(entry_of(*old(cmd))),
        ensures
            final(self).wf(),
            final(self).same_book(old(self)),
            final(self)@ == placed_by(old(self).kind(), old(self)@, entry_of(*old(cmd))).book,
            code == placed_by(old(self).kind(), old(self)@, entry_of(*old(cmd))).code,
            applied(
                placed_by(old(self).kind(), old(self)@, entry_of(*old(cmd))),
                *old(cmd),
                *final(cmd),
            ),
    {
        match self {
            OrderBookState::Naive(b) => b.new_order(cmd),
            OrderBookState::Direct(b) => b.new_order(cmd),
            OrderBookState::DirectOptimized(b) => b.new_order(cmd),
            OrderBookState::Advanced(b) => b.new_order(cmd),
        }
    }

    pub fn cancel_order(&mut self, cmd: &mut OrderCommand) -> (code: CommandResultCode)
        requires
            old(self).wf(),
        ensures
            final(self).wf(),
            final(self).same_book(old(self)),
            final(self)@ == cancelled(old(self)@, entry_of(*old(cmd))).book,
            code == cancelled(old(self)@, entry_of(*old(cmd))).code,
            applied(cancelled(old(self)@, entry_of(*old(cmd))), *old(cmd), *final(cmd)),
    {
        match self {
            OrderBookState::Naive(b) => b.cancel_order(cmd),
            OrderBookState::Direct(b) => b.cancel_order(cmd),
            OrderBookState::DirectOptimized(b) => b.cancel_order(cmd),
            OrderBookState::Advanced(b) => b.cancel_order(cmd),
        }
    }

    pub fn move_order(&mut self, cmd: &mut OrderCommand) -> (code: CommandResultCode)
        requires
            old(self).wf(),
        ensures
            final(self).wf(),
            final(self).same_book(old(self)),
            final(self)@ == moved(old(self)@,
                entry_of(*old(cmd)),
                old(self).spot(),
            ).book,
            code == moved(old(self)@,
                entry_of(*old(cmd)),
                old(self).spot(),
            ).code,
            applied(
                moved(old(self)@, entry_of(*old(cmd)), old(self).spot()),
                *old(cmd),
                *final(cmd),
            ),
    {
        proof {
            assert(cmd.matcher_events@ + Seq::<crate::api::events::MatcherTradeEvent>::empty()
                =~= cmd.matcher_events@);
        }
        match self {
            OrderBookState::Naive(b) => b.move_order(cmd),
            OrderBookState::Direct(b) => b.move_order(cmd),
            OrderBookState::DirectOptimized(b) => b.move_order(cmd),
            OrderBookState::Advanced(b) => b.move_order(cmd),
        }
    }

    pub fn reduce_order(&mut self, cmd: &mut OrderCommand) -> (code: CommandResultCode)
        requires
            old(self).wf(),
        ensures
            final(self).wf(),
            final(self).same_book(old(self)),
            final(self)@ == reduced(old(self)@, entry_of(*old(cmd))).book,
            code == reduced(old(self)@, entry_of(*old(cmd))).code,
            applied(
                reduced(old(self)@, entry_of(*old(cmd))),
                *old(cmd),
                *final(cmd),
            ),
    {
        proof {
            assert(cmd.matcher_events@ + Seq::<crate::api::events::MatcherTradeEvent>::empty()
                =~= cmd.matcher_events@);
        }
        match self {
            OrderBookState::Naive(b) => b.reduce_order(cmd),
            OrderBookState::Direct(b) => b.reduce_order(cmd),
            OrderBookState::DirectOptimized(b) => b.reduce_order(cmd),
            OrderBookState::Advanced(b) => b.reduce_order(cmd),
        }
    }

    pub fn get_symbol_spec(&self) -> (r: &CoreSymbolSpecification)
        ensures
            *r == self.symbol_spec(),
    {
        match self {
            OrderBookState::Naive(b) => b.get_symbol_spec(),
            OrderBookState::Direct(b) => b.get_symbol_spec(),
            OrderBookState::DirectOptimized(b) => b.get_symbol_spec(),
            OrderBookState::Advanced(b) => b.get_symbol_spec(),
        }
    }

    pub fn get_l2_data(&self, depth: usize) -> (r: L2MarketData)
        requires
            self.wf(),
        ensures
            depth_of(self@.asks, depth, r.ask_prices@, r.ask_volumes@),
            depth_of(self@.bids, depth, r.bid_prices@, r.bid_volumes@),
    {
        match self {
            OrderBookState::Naive(b) => b.get_l2_data(depth),
            OrderBookState::Direct(b) => b.get_l2_data(depth),
            OrderBookState::DirectOptimized(b) => b.get_l2_data(depth),
            OrderBookState::Advanced(b) => b.get_l2_data(depth),
        }
    }

    pub fn get_order_by_id(&self, order_id: OrderId) -> (r: Option<(Price, OrderAction)>)
        requires
            self.wf(),
        ensures
            r == if self@.knows(order_id) {
                Some((self@.order(order_id).price, self@.order(order_id).action))
            } else {
                None
            },
    {
        match self {
            OrderBookState::Naive(b) => b.get_order_by_id(order_id),
            OrderBookState::Direct(b) => b.get_order_by_id(order_id),
            OrderBookState::DirectOptimized(b) => b.get_order_by_id(order_id),
            OrderBookState::Advanced(b) => b.get_order_by_id(order_id),
        }
    }

    pub fn get_total_ask_volume(&self) -> (r: Size)
        requires
            self.wf(),
        ensures
            r == queue_volume(self@.asks),
    {
        match self {
            OrderBookState::Naive(b) => b.get_total_ask_volume(),
            OrderBookState::Direct(b) => b.get_total_ask_volume(),
            OrderBookState::DirectOptimized(b) => b.get_total_ask_volume(),
            OrderBookState::Advanced(b) => b.get_total_ask_volume(),
        }
    }

    pub fn get_total_bid_volume(&self) -> (r: Size)
        requires
            self.wf(),
        ensures
            r == queue_volume(self@.bids),
    {
        match self {
            OrderBookState::Naive(b) => b.get_total_bid_volume(),
            OrderBookState::Direct(b) => b.get_total_bid_volume(),
            OrderBookState::DirectOptimized(b) => b.get_total_bid_volume(),
            OrderBookState::Advanced(b) => b.get_total_bid_volume(),
        }
    }

    pub fn get_ask_buckets_count(&self) -> (r: usize)
        requires
            self.wf(),
        ensures
            r == price_levels(self@.asks).len(),
    {
        match self {
            OrderBookState::Naive(b) => b.get_ask_buckets_count(),
            OrderBookState::Direct(b) => b.get_ask_buckets_count(),
            OrderBookState::DirectOptimized(b) => b.get_ask_buckets_count(),
            OrderBookState::Advanced(b) => b.get_ask_buckets_count(),
        }
    }

    pub fn get_bid_buckets_count(&self) -> (r: usize)
        requires
            self.wf(),
        ensures
            r == price_levels(self@.bids).len(),
    {
        match self {
            OrderBookState::Naive(b) => b.get_bid_buckets_count(),
            OrderBookState::Direct(b) => b.get_bid_buckets_count(),
            OrderBookState::DirectOptimized(b) => b.get_bid_buckets_count(),
            OrderBookState::Advanced(b) => b.get_bid_buckets_count(),
        }
    }
}

} // verus!
