use crate::api::commands::{OrderCommand, OrderCommandType};
use crate::api::types::{
    power_of_two, CommandResultCode, CoreSymbolSpecification, SymbolId,
};
use crate::orderbook::book::{
    placed_by, BookSnapshot, OrderBookState,
};
use crate::orderbook::direct::DirectOrderBook;
use crate::orderbook::index::{handles, handles_get, handles_insert, handles_new};
use crate::orderbook::rules::{cancelled, entry_of, moved, reduced, BookModel, Outcome};
use vstd::prelude::*;

verus! {

/// A shard with mask `mask` and number `shard` owns symbol `symbol`.
pub open spec fn owns_symbol(mask: i32, shard: i32, symbol: SymbolId) -> bool {
    mask == 0 || (symbol & mask) == shard
}

/// Commands that the matching engine handles.
pub open spec fn for_matching(command: OrderCommandType) -> bool {
    command == OrderCommandType::PlaceOrder || command == OrderCommandType::CancelOrder
        || command == OrderCommandType::MoveOrder || command == OrderCommandType::ReduceOrder
}

/// What book `b` does with matching command `c`.
pub open spec fn book_outcome(b: &OrderBookState, c: OrderCommand) -> Outcome {
    match c.command {
        OrderCommandType::PlaceOrder => placed_by(b.kind(), b@, entry_of(c)),
        OrderCommandType::CancelOrder => cancelled(b@, entry_of(c)),
        OrderCommandType::MoveOrder => moved(b@, entry_of(c), b.spot()),
        _ => reduced(b@, entry_of(c)),
    }
}

/// The key under which the index keeps the book of a symbol.
pub open spec fn key_of(spec: CoreSymbolSpecification) -> i64 {
    spec.symbol_id as i64
}

/// The state of a matching shard as it is saved and loaded: its books
/// written out.
pub struct MatchingEngineState {
    pub shard_id: i32,
    pub shard_mask: i32,
    pub order_books: Vec<BookSnapshot>,
}

impl MatchingEngineState {
    /// Every snapshot is valid, and no two are of the same symbol.
    pub open spec fn wf(&self) -> bool {
        &&& forall|i: int| 0 <= i < self.order_books@.len() ==> (#[trigger] self.order_books@[i]).wf()
        &&& forall|i: int, j: int|
            0 <= i < j < self.order_books@.len() ==> (
            #[trigger] self.order_books@[i]).symbol_spec.symbol_id != (
            #[trigger] self.order_books@[j]).symbol_spec.symbol_id
    }
}

impl MatchingEngineState {
    /// Whether the symbol of book `i` is that of no book after it.
    fn symbol_is_last(&self, i: usize) -> (ok: bool)
        requires
            i < self.order_books@.len(),
        ensures
            ok == forall|j: int|
                i < j < self.order_books@.len() ==> self.order_books@[i as int].symbol_spec.symbol_id
                    != (#[trigger] self.order_books@[j]).symbol_spec.symbol_id,
    {
        let n: usize = self.order_books.len();
        let symbol: SymbolId = self.order_books[i].symbol_spec.symbol_id;
        let mut j: usize = i + 1;
        while j < n
            invariant
                i < j <= n,
                n == self.order_books@.len(),
                symbol == self.order_books@[i as int].symbol_spec.symbol_id,
                forall|k: int|
                    i < k < j ==> symbol != (#[trigger] self.order_books@[k]).symbol_spec.symbol_id,
            decreases n - j,
        {
            if self.order_books[j].symbol_spec.symbol_id == symbol {
                return false;
            }
            j = j + 1;
        }
        true
    }

    /// Whether the state is one of a valid shard.
    pub fn is_valid(&self) -> (ok: bool)
        ensures
            ok == self.wf(),
    {
        let n: usize = self.order_books.len();
        let mut i: usize = 0;
        while i < n
            invariant
                i <= n,
                n == self.order_books@.len(),
                forall|k: int| 0 <= k < i ==> (#[trigger] self.order_books@[k]).wf(),
                forall|a: int, b: int|
                    0 <= a < i && a < b < n ==> (#[trigger] self.order_books@[a]).symbol_spec.symbol_id
                        != (#[trigger] self.order_books@[b]).symbol_spec.symbol_id,
            decreases n - i,
        {
            if !self.order_books[i].is_valid() {
                return false;
            }
            if !self.symbol_is_last(i) {
                proof {
                    let j = choose|j: int|
                        i < j < n && self.order_books@[i as int].symbol_spec.symbol_id == (
                        #[trigger] self.order_books@[j]).symbol_spec.symbol_id;
                    assert(self.order_books@[i as int].symbol_spec.symbol_id
                        == self.order_books@[j].symbol_spec.symbol_id);
                }
                return false;
            }
            i = i + 1;
        }
        true
    }
}

/// One shard of the matching engine: the order books of the symbols that
/// fall into the shard.
pub struct MatchingEngineRouter {
    pub shard_id: i32,
    pub shard_mask: i32,
    pub order_books: Vec<OrderBookState>,
    /// Position of each symbol's book in `order_books`.
    pub book_index: ahash::AHashMap<i64, usize>,
}

impl MatchingEngineRouter {
    /// Every book is valid, and the index names each book under its
    /// symbol, and nothing else.
    pub open spec fn wf(&self) -> bool {
        &&& forall|i: int|
            0 <= i < self.order_books@.len() ==> (#[trigger] self.order_books@[i]).wf() && handles(
                self.book_index,
            ).contains_key(key_of(self.order_books@[i].symbol_spec())) && handles(
                self.book_index,
            )[key_of(self.order_books@[i].symbol_spec())] == i
        &&& forall|k: i64|
            handles(self.book_index).contains_key(k) ==> (#[trigger] handles(self.book_index)[k])
                < self.order_books@.len() && key_of(
                self.order_books@[handles(self.book_index)[k] as int].symbol_spec(),
            ) == k
    }

    pub open spec fn owns(&self, symbol: SymbolId) -> bool {
        owns_symbol(self.shard_mask, self.shard_id, symbol)
    }

    pub open spec fn has_book(&self, symbol: SymbolId) -> bool {
        handles(self.book_index).contains_key(symbol as i64)
    }

    /// Position of the book of `symbol`.
    pub open spec fn slot(&self, symbol: SymbolId) -> int {
        handles(self.book_index)[symbol as i64] as int
    }

    /// The book of `symbol`.
    pub open spec fn book(&self, symbol: SymbolId) -> OrderBookState {
        self.order_books@[self.slot(symbol)]
    }

    /// State `s` holds this shard as it stands: its number and mask, and
    /// its books in their order, each with its kind, its symbol and what
    /// the book holds.
    pub open spec fn saved_as(&self, s: &MatchingEngineState) -> bool {
        &&& s.shard_id == self.shard_id
        &&& s.shard_mask == self.shard_mask
        &&& s.order_books@.len() == self.order_books@.len()
        &&& forall|i: int|
            0 <= i < self.order_books@.len() ==> (#[trigger] s.order_books@[i])@
                == self.order_books@[i]@ && s.order_books@[i].kind == self.order_books@[i].kind()
                && s.order_books@[i].symbol_spec == self.order_books@[i].symbol_spec()
    }

    /// The index finds book `i` of state `s` under that book's symbol, for
    /// every `i`.
    pub open spec fn finds_all(&self, s: &MatchingEngineState) -> bool {
        forall|i: int|
            0 <= i < s.order_books@.len() ==> self.has_book(
                (#[trigger] s.order_books@[i]).symbol_spec.symbol_id,
            ) && self.slot(s.order_books@[i].symbol_spec.symbol_id) == i
    }

    /// The command is one for this shard's matching: a matching command
    /// that is not done yet, for a symbol of this shard.
    pub open spec fn takes(&self, c: OrderCommand) -> bool {
        c.result_code != CommandResultCode::Success && for_matching(c.command) && self.owns(
            c.symbol,
        )
    }

    /// The command reaches a book: this shard takes it, has the book of its
    /// symbol, and a new order has passed the risk check.
    pub open spec fn routes(&self, c: OrderCommand) -> bool {
        self.takes(c) && self.has_book(c.symbol) && (c.command == OrderCommandType::PlaceOrder
            ==> c.result_code == CommandResultCode::ValidForMatchingEngine)
    }

    /// The book that a new order reaches has room for it.
    pub open spec fn admits(&self, c: OrderCommand) -> bool {
        self.routes(c) && c.command == OrderCommandType::PlaceOrder ==> self.book(
            c.symbol,
        ).room(entry_of(c))
    }

    /// Shard `shard_id` of `num_shards`, a power of two.
    pub fn new(shard_id: usize, num_shards: usize) -> (r: Self)
        requires
            power_of_two(num_shards),
            0 < num_shards <= 0x4000_0000,
            shard_id < num_shards,
        ensures
            r.wf(),
            r.shard_id == shard_id,
            r.shard_mask == num_shards - 1,
            r.order_books@.len() == 0,
            forall|symbol: SymbolId| !r.has_book(symbol),
    {
        let r = MatchingEngineRouter {
            shard_id: shard_id as i32,
            shard_mask: (num_shards - 1) as i32,
            order_books: Vec::new(),
            book_index: handles_new(),
        };
        proof {
            assert forall|k: i64| !handles(r.book_index).contains_key(k) by {
                assert(!handles(r.book_index).dom().contains(k));
            }
        }
        r
    }

    pub fn symbol_for_this_shard(&self, symbol: SymbolId) -> (r: bool)
        ensures
            r == self.owns(symbol),
    {
        self.shard_mask == 0 || (symbol & self.shard_mask) == self.shard_id
    }

    /// Gives the symbol an empty direct order book; a book that the symbol
    /// had is dropped.
    pub fn add_symbol(&mut self, spec: CoreSymbolSpecification)
        requires
            old(self).wf(),
        ensures
            final(self).wf(),
            final(self).has_book(spec.symbol_id),
            final(self).book(spec.symbol_id)@ == BookModel::empty(),
            final(self).book(spec.symbol_id).symbol_spec() == spec,
            final(self).book(spec.symbol_id) is Direct,
            forall|s: SymbolId|
                s != spec.symbol_id ==> #[trigger] final(self).has_book(s) == old(self).has_book(s)
                    && (old(self).has_book(s) ==> final(self).book(s) == old(self).book(s)),
            final(self).shard_id == old(self).shard_id,
            final(self).shard_mask == old(self).shard_mask,
    {
        let book = OrderBookState::Direct(DirectOrderBook::new(spec));
        match handles_get(&self.book_index, spec.symbol_id as i64) {
            Some(i) => {
                self.order_books[i] = book;
            },
            None => {
                let n: usize = self.order_books.len();
                self.order_books.push(book);
                handles_insert(&mut self.book_index, spec.symbol_id as i64, n);
            },
        }
    }

    /// Whether the book that the command reaches, if any, has room for its
    /// order.
    pub fn can_process(&self, cmd: &OrderCommand) -> (ok: bool)
        requires
            self.wf(),
        ensures
            ok == self.admits(*cmd),
    {
        let done: bool = match cmd.result_code {
            CommandResultCode::Success => true,
            _ => false,
        };
        let valid: bool = match cmd.result_code {
            CommandResultCode::ValidForMatchingEngine => true,
            _ => false,
        };
        let placing: bool = match cmd.command {
            OrderCommandType::PlaceOrder => true,
            _ => false,
        };
        if done || !placing || !valid || !self.symbol_for_this_shard(cmd.symbol) {
            return true;
        }
        match handles_get(&self.book_index, cmd.symbol as i64) {
            Some(i) => self.order_books[i].has_room(cmd),
            None => true,
        }
    }

    /// Hands the command to the book of its symbol and writes the book's
    /// answer into it; without a book the command is refused.
    pub fn process_matching_command(&mut self, cmd: &mut OrderCommand)
        requires
            old(self).wf(),
            old(self).takes(*old(cmd)),
            old(self).admits(*old(cmd)),
        ensures
            final(self).wf(),
            final(self).shard_id == old(self).shard_id,
            final(self).shard_mask == old(self).shard_mask,
            final(self).book_index == old(self).book_index,
            final(self).order_books@.len() == old(self).order_books@.len(),
            final(cmd).same_inputs(*old(cmd)),
            old(self).routes(*old(cmd)) ==> {
                let i = old(self).slot(old(cmd).symbol);
                let out = book_outcome(&old(self).book(old(cmd).symbol), *old(cmd));
                &&& final(self).order_books@ == old(self).order_books@.update(
                    i,
                    final(self).order_books@[i],
                )
                &&& final(self).order_books@[i]@ == out.book
                &&& final(self).order_books@[i].same_book(&old(self).order_books@[i])
                &&& final(cmd).result_code == out.code
                &&& final(cmd).action == out.action
                &&& final(cmd).matcher_events@ == old(cmd).matcher_events@ + out.events
            },
            !old(self).routes(*old(cmd)) ==> {
                &&& final(self).order_books@ == old(self).order_books@
                &&& final(cmd).action == old(cmd).action
                &&& final(cmd).matcher_events == old(cmd).matcher_events
                &&& final(cmd).result_code == if old(self).has_book(old(cmd).symbol) {
                    old(cmd).result_code
                } else {
                    CommandResultCode::MatchingInvalidOrderBookId
                }
            },
    {
        let i: usize = match handles_get(&self.book_index, cmd.symbol as i64) {
            Some(i) => i,
            None => {
                cmd.result_code = CommandResultCode::MatchingInvalidOrderBookId;
                return ;
            },
        };
        match cmd.command {
            OrderCommandType::PlaceOrder => {
                let valid: bool = match cmd.result_code {
                    CommandResultCode::ValidForMatchingEngine => true,
                    _ => false,
                };
                if valid {
                    let code = self.order_books[i].new_order(cmd);
                    cmd.result_code = code;
                }
            },
            OrderCommandType::CancelOrder => {
                let code = self.order_books[i].cancel_order(cmd);
                cmd.result_code = code;
            },
            OrderCommandType::MoveOrder => {
                let code = self.order_books[i].move_order(cmd);
                cmd.result_code = code;
            },
            OrderCommandType::ReduceOrder => {
                let code = self.order_books[i].reduce_order(cmd);
                cmd.result_code = code;
            },
            _ => {
                cmd.result_code = CommandResultCode::MatchingUnsupportedCommand;
            },
        }
    }

    /// The matching stage: a matching command for a symbol of this shard
    /// goes to the book of its symbol, unless it is done already.
    pub fn process_order(&mut self, cmd: &mut OrderCommand)
        requires
            old(self).wf(),
            old(self).admits(*old(cmd)),
        ensures
            final(self).wf(),
            final(self).shard_id == old(self).shard_id,
            final(self).shard_mask == old(self).shard_mask,
            final(self).book_index == old(self).book_index,
            final(self).order_books@.len() == old(self).order_books@.len(),
            final(cmd).same_inputs(*old(cmd)),
            old(self).routes(*old(cmd)) ==> {
                let i = old(self).slot(old(cmd).symbol);
                let out = book_outcome(&old(self).book(old(cmd).symbol), *old(cmd));
                &&& final(self).order_books@ == old(self).order_books@.update(
                    i,
                    final(self).order_books@[i],
                )
                &&& final(self).order_books@[i]@ == out.book
                &&& final(self).order_books@[i].same_book(&old(self).order_books@[i])
                &&& final(cmd).result_code == out.code
                &&& final(cmd).action == out.action
                &&& final(cmd).matcher_events@ == old(cmd).matcher_events@ + out.events
            },
            !old(self).routes(*old(cmd)) ==> {
                &&& final(self).order_books@ == old(self).order_books@
                &&& final(cmd).action == old(cmd).action
                &&& final(cmd).matcher_events == old(cmd).matcher_events
                &&& final(cmd).result_code == if old(self).takes(*old(cmd)) && !old(
                    self,
                ).has_book(old(cmd).symbol) {
                    CommandResultCode::MatchingInvalidOrderBookId
                } else {
                    old(cmd).result_code
                }
            },
    {
        let done: bool = match cmd.result_code {
            CommandResultCode::Success => true,
            _ => false,
        };
        if done {
            return ;
        }
        let mine: bool = match cmd.command {
            OrderCommandType::PlaceOrder => true,
            OrderCommandType::CancelOrder => true,
            OrderCommandType::MoveOrder => true,
            OrderCommandType::ReduceOrder => true,
            _ => false,
        };
        if mine && self.symbol_for_this_shard(cmd.symbol) {
            self.process_matching_command(cmd);
        }
    }

    /// The state of the shard, to be saved.
    pub fn serialize_state(&self) -> (state: MatchingEngineState)
        requires
            self.wf(),
        ensures
            state.wf(),
            self.saved_as(&state),
    {
        let n: usize = self.order_books.len();
        let mut out: Vec<BookSnapshot> = Vec::new();
        let mut i: usize = 0;
        while i < n
            invariant
                i <= n,
                n == self.order_books@.len(),
                self.wf(),
                out@.len() == i,
                forall|k: int|
                    0 <= k < i ==> (#[trigger] out@[k]).wf() && out@[k]@ == self.order_books@[k]@
                        && out@[k].kind == self.order_books@[k].kind() && out@[k].symbol_spec
                        == self.order_books@[k].symbol_spec(),
            decreases n - i,
        {
            out.push(self.order_books[i].export());
            i = i + 1;
        }
        let state = MatchingEngineState {
            shard_id: self.shard_id,
            shard_mask: self.shard_mask,
            order_books: out,
        };
        proof {
            assert forall|a: int, b: int| 0 <= a < b < n implies (
            #[trigger] state.order_books@[a]).symbol_spec.symbol_id != (
            #[trigger] state.order_books@[b]).symbol_spec.symbol_id by {
                let ka = key_of(self.order_books@[a].symbol_spec());
                let kb = key_of(self.order_books@[b].symbol_spec());
                assert(handles(self.book_index)[ka] == a);
                assert(handles(self.book_index)[kb] == b);
            }
        }
        state
    }

    /// The shard that a state was saved from.
    pub fn from_state(state: &MatchingEngineState) -> (r: Self)
        requires
            state.wf(),
        ensures
            r.wf(),
            r.saved_as(state),
            r.finds_all(state),
    {
        let n: usize = state.order_books.len();
        let mut r = MatchingEngineRouter {
            shard_id: state.shard_id,
            shard_mask: state.shard_mask,
            order_books: Vec::new(),
            book_index: handles_new(),
        };
        proof {
            assert forall|k: i64| !handles(r.book_index).contains_key(k) by {
                assert(!handles(r.book_index).dom().contains(k));
            }
        }
        let mut i: usize = 0;
        while i < n
            invariant
                i <= n,
                n == state.order_books@.len(),
                state.wf(),
                r.shard_id == state.shard_id,
                r.shard_mask == state.shard_mask,
                r.order_books@.len() == i,
                r.wf(),
                forall|k: int|
                    0 <= k < i ==> (#[trigger] r.order_books@[k])@ == state.order_books@[k]@
                        && r.order_books@[k].kind() == state.order_books@[k].kind
                        && r.order_books@[k].symbol_spec() == state.order_books@[k].symbol_spec,
                forall|key: i64|
                    handles(r.book_index).contains_key(key) ==> exists|k: int|
                        0 <= k < i && key_of((#[trigger] state.order_books@[k]).symbol_spec) == key,
            decreases n - i,
        {
            let book = OrderBookState::restore(&state.order_books[i]);
            let ghost key = key_of(state.order_books@[i as int].symbol_spec);
            proof {
                if handles(r.book_index).contains_key(key) {
                    let k = choose|k: int|
                        0 <= k < i && key_of((#[trigger] state.order_books@[k]).symbol_spec)
                            == key;
                    assert(state.order_books@[k].symbol_spec.symbol_id != state.order_books@[i as int].symbol_spec.symbol_id);
                }
            }
            let symbol: SymbolId = state.order_books[i].symbol_spec.symbol_id;
            r.order_books.push(book);
            handles_insert(&mut r.book_index, symbol as i64, i);
            proof {
                assert forall|k2: i64| handles(r.book_index).contains_key(k2) implies exists|k: int|
                    0 <= k < i + 1 && key_of((#[trigger] state.order_books@[k]).symbol_spec)
                        == k2 by {
                    if k2 == key {
                        assert(key_of(state.order_books@[i as int].symbol_spec) == k2);
                    } else {
                        let k = choose|k: int|
                            0 <= k < i && key_of((#[trigger] state.order_books@[k]).symbol_spec)
                                == k2;
                        assert(key_of(state.order_books@[k].symbol_spec) == k2);
                    }
                }
            }
            i = i + 1;
        }
        proof {
            assert forall|k: int| 0 <= k < state.order_books@.len() implies r.has_book(
                (#[trigger] state.order_books@[k]).symbol_spec.symbol_id,
            ) && r.slot(state.order_books@[k].symbol_spec.symbol_id) == k by {
                assert(r.order_books@[k].wf());
                assert(r.order_books@[k].symbol_spec() == state.order_books@[k].symbol_spec);
            }
        }
        r
    }
}

} // verus!
