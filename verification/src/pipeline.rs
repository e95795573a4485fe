use crate::api::commands::OrderCommand;
use crate::api::types::{
    CommandResultCode, CoreSymbolSpecification, Currency, SymbolId, UserId,
};
use crate::exchange::ExchangeConfig;
use crate::orderbook::rules::BookModel;
use crate::processors::matching_engine::{
    book_outcome, MatchingEngineRouter, MatchingEngineState,
};
use crate::processors::risk_engine::{
    lemma_credits_same, post_fits, post_processed, pre_fits, pre_positions, pre_processed,
    RiskEngine,
};
use vstd::prelude::*;

verus! {

/// The state of a pipeline as it is saved and loaded.
pub struct PipelineState {
    pub risk_engines: Vec<RiskEngine>,
    pub matching_engines: Vec<MatchingEngineState>,
}

impl PipelineState {
    /// The state is one of a valid pipeline.
    pub open spec fn wf(&self) -> bool {
        &&& risk_ok(self.risk_engines@)
        &&& forall|k: int|
            0 <= k < self.matching_engines@.len() ==> (#[trigger] self.matching_engines@[k]).wf()
                && self.matching_engines@[k].shard_id == k && self.matching_engines@[k].shard_mask
                == self.matching_engines@.len() - 1
    }
}

/// The risk shards are valid; shard `k` has number `k` and the mask of
/// their count.
pub open spec fn risk_ok(engines: Seq<RiskEngine>) -> bool {
    forall|k: int|
        0 <= k < engines.len() ==> (#[trigger] engines[k]).wf() && engines[k].shard_id == k
            && engines[k].shard_mask == engines.len() - 1
}

/// The matching shards are valid; shard `k` has number `k` and the mask of
/// their count.
pub open spec fn routers_ok(routers: Seq<MatchingEngineRouter>) -> bool {
    forall|k: int|
        0 <= k < routers.len() ==> (#[trigger] routers[k]).wf() && routers[k].shard_id == k
            && routers[k].shard_mask == routers.len() - 1
}

/// The risk shards after the pre-trade stage on command `c0`, which is
/// `c1` afterwards: each shard has done its part, and the result code is
/// that of the shard that owns the user.
pub open spec fn pre_stage(
    was: Seq<RiskEngine>,
    c0: OrderCommand,
    now: Seq<RiskEngine>,
    c1: OrderCommand,
) -> bool {
    &&& now.len() == was.len()
    &&& risk_ok(now)
    &&& forall|k: int|
        0 <= k < was.len() ==> (#[trigger] now[k])@.ledger == pre_processed(
            was[k]@,
            was[k].owns(c0.uid),
            c0,
        ).0 && now[k]@.symbols == was[k]@.symbols && now[k]@.positions == pre_positions(
            was[k]@,
            was[k].owns(c0.uid),
            c0,
        )
    &&& c1.same_inputs(c0)
    &&& c1.action == c0.action
    &&& c1.matcher_events == c0.matcher_events
    &&& forall|k: int|
        0 <= k < was.len() && (#[trigger] was[k]).owns(c0.uid) ==> c1.result_code == pre_processed(
            was[k]@,
            true,
            c0,
        ).1
    &&& (forall|k: int| 0 <= k < was.len() ==> !(#[trigger] was[k]).owns(c0.uid))
        ==> c1.result_code == c0.result_code
}

/// Every risk shard can do its part of the pre-trade stage within 64 bits.
pub open spec fn pre_admits(engines: Seq<RiskEngine>, c: OrderCommand) -> bool {
    forall|k: int|
        0 <= k < engines.len() ==> pre_fits(
            (#[trigger] engines[k])@,
            engines[k].owns(c.uid),
            c,
        )
}

/// What one matching shard does with command `c1`, which is `c2`
/// afterwards.
pub open spec fn router_step(
    was: MatchingEngineRouter,
    c1: OrderCommand,
    now: MatchingEngineRouter,
    c2: OrderCommand,
) -> bool {
    &&& now.wf()
    &&& now.shard_id == was.shard_id
    &&& now.shard_mask == was.shard_mask
    &&& now.book_index == was.book_index
    &&& now.order_books@.len() == was.order_books@.len()
    &&& c2.same_inputs(c1)
    &&& was.routes(c1) ==> {
        let i = was.slot(c1.symbol);
        let out = book_outcome(&was.book(c1.symbol), c1);
        &&& now.order_books@ == was.order_books@.update(i, now.order_books@[i])
        &&& now.order_books@[i]@ == out.book
        &&& now.order_books@[i].same_book(&was.order_books@[i])
        &&& c2.result_code == out.code
        &&& c2.action == out.action
        &&& c2.matcher_events@ == c1.matcher_events@ + out.events
    }
    &&& !was.routes(c1) ==> {
        &&& now.order_books@ == was.order_books@
        &&& c2.action == c1.action
        &&& c2.matcher_events == c1.matcher_events
        &&& c2.result_code == if was.takes(c1) && !was.has_book(c1.symbol) {
            CommandResultCode::MatchingInvalidOrderBookId
        } else {
            c1.result_code
        }
    }
}

/// The matching shards after the matching stage on command `c1`, which is
/// `c2` afterwards: the shard that owns the symbol has done its part, the
/// others are as before.
pub open spec fn match_stage(
    was: Seq<MatchingEngineRouter>,
    c1: OrderCommand,
    now: Seq<MatchingEngineRouter>,
    c2: OrderCommand,
) -> bool {
    &&& now.len() == was.len()
    &&& routers_ok(now)
    &&& forall|k: int|
        0 <= k < was.len() && !(#[trigger] was[k]).owns(c1.symbol) ==> now[k].order_books@
            == was[k].order_books@ && now[k].book_index == was[k].book_index
    &&& forall|k: int|
        0 <= k < was.len() && (#[trigger] was[k]).owns(c1.symbol) ==> router_step(
            was[k],
            c1,
            now[k],
            c2,
        )
    &&& (forall|k: int| 0 <= k < was.len() ==> !(#[trigger] was[k]).owns(c1.symbol)) ==> {
        &&& c2.same_inputs(c1)
        &&& c2.action == c1.action
        &&& c2.matcher_events == c1.matcher_events
        &&& c2.result_code == c1.result_code
    }
}

/// The book that the command reaches, if any, has room for it.
pub open spec fn match_admits(routers: Seq<MatchingEngineRouter>, c: OrderCommand) -> bool {
    forall|k: int| 0 <= k < routers.len() ==> (#[trigger] routers[k]).admits(c)
}

/// The risk shards after the post-trade stage on command `c2`, which is
/// `c3` afterwards: each shard has settled its users, and the command
/// succeeds where it has events and a shard knows its symbol.
pub open spec fn post_stage(
    was: Seq<RiskEngine>,
    c2: OrderCommand,
    now: Seq<RiskEngine>,
    c3: OrderCommand,
) -> bool {
    &&& now.len() == was.len()
    &&& risk_ok(now)
    &&& forall|k: int|
        0 <= k < was.len() ==> (#[trigger] now[k])@.ledger == post_processed(
            was[k]@,
            c2,
            was[k].shard_mask,
            was[k].shard_id,
        ).0 && now[k]@.symbols == was[k]@.symbols && now[k]@.positions == was[k]@.positions
    &&& c3.same_inputs(c2)
    &&& c3.action == c2.action
    &&& c3.matcher_events == c2.matcher_events
    &&& c3.result_code == if c2.matcher_events@.len() > 0 && exists|k: int|
        0 <= k < was.len() && (#[trigger] was[k])@.symbols.contains_key(c2.symbol) {
        CommandResultCode::Success
    } else {
        c2.result_code
    }
}

/// Every risk shard can do its part of the post-trade stage within 64
/// bits.
pub open spec fn post_admits(engines: Seq<RiskEngine>, c: OrderCommand) -> bool {
    forall|k: int|
        0 <= k < engines.len() ==> post_fits(
            (#[trigger] engines[k])@,
            c,
            engines[k].shard_mask,
            engines[k].shard_id,
        )
}

/// The pipeline: the risk shards and the matching shards through which
/// every command goes, one command at a time.
pub struct Pipeline {
    pub risk_engines: Vec<RiskEngine>,
    pub matching_engines: Vec<MatchingEngineRouter>,
}

impl Pipeline {
    pub open spec fn wf(&self) -> bool {
        risk_ok(self.risk_engines@) && routers_ok(self.matching_engines@)
    }

    /// State `s` holds this pipeline as it stands: every risk shard with
    /// its number, its balances, its positions and its symbols, and every
    /// matching shard with its books.
    pub open spec fn saved_as(&self, s: &PipelineState) -> bool {
        &&& s.risk_engines@.len() == self.risk_engines@.len()
        &&& forall|k: int|
            0 <= k < self.risk_engines@.len() ==> (#[trigger] s.risk_engines@[k])@
                == self.risk_engines@[k]@ && s.risk_engines@[k].shard_id
                == self.risk_engines@[k].shard_id && s.risk_engines@[k].shard_mask
                == self.risk_engines@[k].shard_mask
        &&& s.matching_engines@.len() == self.matching_engines@.len()
        &&& forall|k: int|
            0 <= k < self.matching_engines@.len() ==> self.matching_engines@[k].saved_as(
                &#[trigger] s.matching_engines@[k],
            )
    }

    /// Every matching shard finds each book of its part of state `s` under
    /// the book's symbol.
    pub open spec fn finds_all(&self, s: &PipelineState) -> bool {
        forall|k: int|
            0 <= k < s.matching_engines@.len() ==> self.matching_engines@[k].finds_all(
                &#[trigger] s.matching_engines@[k],
            )
    }

    /// This pipeline is `was` with symbol `spec` made known: every risk
    /// shard has the symbol among its symbols, and its balances and
    /// positions as before;
    /// every matching shard has an empty direct book for it and its other
    /// books as before.
    pub open spec fn with_symbol(&self, was: &Pipeline, spec: CoreSymbolSpecification) -> bool {
        &&& self.risk_engines@.len() == was.risk_engines@.len()
        &&& self.matching_engines@.len() == was.matching_engines@.len()
        &&& forall|k: int|
            0 <= k < self.risk_engines@.len() ==> (#[trigger] self.risk_engines@[k])@.symbols
                == was.risk_engines@[k]@.symbols.insert(spec.symbol_id, spec)
                && self.risk_engines@[k]@.ledger == was.risk_engines@[k]@.ledger
                && self.risk_engines@[k]@.positions == was.risk_engines@[k]@.positions
        &&& forall|k: int|
            0 <= k < self.matching_engines@.len() ==> (#[trigger] self.matching_engines@[k]).has_book(
                spec.symbol_id,
            ) && self.matching_engines@[k].book(spec.symbol_id)@ == BookModel::empty()
                && self.matching_engines@[k].book(spec.symbol_id).symbol_spec() == spec
                && self.matching_engines@[k].book(spec.symbol_id) is Direct
        &&& forall|k: int, s: SymbolId|
            0 <= k < self.matching_engines@.len() && s != spec.symbol_id ==> (
            #[trigger] self.matching_engines@[k].has_book(s)) == was.matching_engines@[k].has_book(
                s,
            ) && (was.matching_engines@[k].has_book(s) ==> self.matching_engines@[k].book(s)
                == was.matching_engines@[k].book(s))
    }

    /// This pipeline is one of empty shards, as many of each kind as the
    /// configuration says: no user, no symbol, no book.
    pub open spec fn fresh(&self, config: &ExchangeConfig) -> bool {
        &&& self.risk_engines@.len() == config.risk_engines_num
        &&& self.matching_engines@.len() == config.matching_engines_num
        &&& forall|k: int|
            0 <= k < self.risk_engines@.len() ==> (#[trigger] self.risk_engines@[k])@.ledger
                == Map::<UserId, Map<Currency, i64>>::empty() && self.risk_engines@[k]@.symbols
                == Map::<SymbolId, CoreSymbolSpecification>::empty()
                && self.risk_engines@[k]@.positions.dom().is_empty()
        &&& forall|k: int|
            0 <= k < self.matching_engines@.len() ==> (
            #[trigger] self.matching_engines@[k]).order_books@.len() == 0
    }

    /// A pipeline of empty shards, as many of each kind as the
    /// configuration says.
    pub fn new(config: &ExchangeConfig) -> (p: Self)
        requires
            config.valid(),
        ensures
            p.wf(),
            p.fresh(config),
    {
        let mut risk_engines: Vec<RiskEngine> = Vec::new();
        let mut i: usize = 0;
        while i < config.risk_engines_num
            invariant
                config.valid(),
                i <= config.risk_engines_num,
                risk_engines@.len() == i,
                forall|k: int|
                    0 <= k < i ==> (#[trigger] risk_engines@[k]).wf() && risk_engines@[k].shard_id
                        == k && risk_engines@[k].shard_mask == config.risk_engines_num - 1
                        && risk_engines@[k]@.ledger == Map::<UserId, Map<Currency, i64>>::empty()
                        && risk_engines@[k]@.symbols == Map::<
                        SymbolId,
                        CoreSymbolSpecification,
                    >::empty() && risk_engines@[k]@.positions.dom().is_empty(),
            decreases config.risk_engines_num - i,
        {
            risk_engines.push(RiskEngine::new(i, config.risk_engines_num));
            i = i + 1;
        }
        let mut matching_engines: Vec<MatchingEngineRouter> = Vec::new();
        let mut j: usize = 0;
        while j < config.matching_engines_num
            invariant
                config.valid(),
                j <= config.matching_engines_num,
                matching_engines@.len() == j,
                forall|k: int|
                    0 <= k < j ==> (#[trigger] matching_engines@[k]).wf()
                        && matching_engines@[k].shard_id == k && matching_engines@[k].shard_mask
                        == config.matching_engines_num - 1
                        && matching_engines@[k].order_books@.len() == 0,
            decreases config.matching_engines_num - j,
        {
            matching_engines.push(MatchingEngineRouter::new(j, config.matching_engines_num));
            j = j + 1;
        }
        Pipeline { risk_engines, matching_engines }
    }

    /// Makes the symbol known to every shard; each matching shard gets an
    /// empty book for it.
    pub fn add_symbol(&mut self, spec: CoreSymbolSpecification)
        requires
            old(self).wf(),
        ensures
            final(self).wf(),
            final(self).with_symbol(old(self), spec),
    {
        let n: usize = self.risk_engines.len();
        let mut i: usize = 0;
        while i < n
            invariant
                i <= n,
                n == self.risk_engines@.len(),
                n == old(self).risk_engines@.len(),
                self.matching_engines == old(self).matching_engines,
                risk_ok(self.risk_engines@),
                forall|k: int|
                    0 <= k < i ==> (#[trigger] self.risk_engines@[k])@.symbols == old(self).risk_engines@[k]@.symbols.insert(spec.symbol_id, spec)
                        && self.risk_engines@[k]@.ledger == old(self).risk_engines@[k]@.ledger
                        && self.risk_engines@[k]@.positions == old(self).risk_engines@[k]@.positions,
                forall|k: int| i <= k < n ==> self.risk_engines@[k] == old(self).risk_engines@[k],
            decreases n - i,
        {
            self.risk_engines[i].add_symbol(spec);
            i = i + 1;
        }
        let m: usize = self.matching_engines.len();
        let mut j: usize = 0;
        while j < m
            invariant
                j <= m,
                m == self.matching_engines@.len(),
                m == old(self).matching_engines@.len(),
                routers_ok(self.matching_engines@),
                self.risk_engines@.len() == old(self).risk_engines@.len(),
                risk_ok(self.risk_engines@),
                forall|k: int|
                    0 <= k < self.risk_engines@.len() ==> (#[trigger] self.risk_engines@[k])@.symbols
                        == old(self).risk_engines@[k]@.symbols.insert(spec.symbol_id, spec)
                        && self.risk_engines@[k]@.ledger == old(self).risk_engines@[k]@.ledger
                        && self.risk_engines@[k]@.positions == old(self).risk_engines@[k]@.positions,
                forall|k: int|
                    0 <= k < j ==> (#[trigger] self.matching_engines@[k]).has_book(spec.symbol_id)
                        && self.matching_engines@[k].book(spec.symbol_id)@ == BookModel::empty()
                        && self.matching_engines@[k].book(spec.symbol_id).symbol_spec() == spec
                        && self.matching_engines@[k].book(spec.symbol_id) is Direct,
                forall|k: int| j <= k < m ==> self.matching_engines@[k] == old(
                    self,
                ).matching_engines@[k],
                forall|k: int, s: SymbolId|
                    0 <= k < j && s != spec.symbol_id ==> (
                    #[trigger] self.matching_engines@[k].has_book(s)) == old(
                        self,
                    ).matching_engines@[k].has_book(s) && (old(self).matching_engines@[k].has_book(
                        s,
                    ) ==> self.matching_engines@[k].book(s) == old(self).matching_engines@[k].book(
                        s,
                    )),
            decreases m - j,
        {
            self.matching_engines[j].add_symbol(spec);
            j = j + 1;
        }
    }

    /// The pre-trade stage of every risk shard.
    pub fn pre_process(&mut self, cmd: &mut OrderCommand)
        requires
            old(self).wf(),
            pre_admits(old(self).risk_engines@, *old(cmd)),
        ensures
            final(self).wf(),
            pre_stage(old(self).risk_engines@, *old(cmd), final(self).risk_engines@, *final(cmd)),
            final(self).matching_engines == old(self).matching_engines,
    {
        let _ = self.try_pre_process(cmd);
    }

    /// The pre-trade stage of every risk shard as far as every balance
    /// stays within 64 bits; says whether all did. It ends at the first
    /// shard that cannot do its part, which changes nothing.
    pub fn try_pre_process(&mut self, cmd: &mut OrderCommand) -> (ok: bool)
        requires
            old(self).wf(),
        ensures
            final(self).wf(),
            ok == pre_admits(old(self).risk_engines@, *old(cmd)),
            ok ==> pre_stage(
                old(self).risk_engines@,
                *old(cmd),
                final(self).risk_engines@,
                *final(cmd),
            ),
            final(self).matching_engines == old(self).matching_engines,
    {
        let n: usize = self.risk_engines.len();
        let ghost was = self.risk_engines@;
        let ghost c0 = *cmd;
        let mut i: usize = 0;
        while i < n
            invariant
                i <= n,
                n == was.len(),
                was == old(self).risk_engines@,
                c0 == *old(cmd),
                self.risk_engines@.len() == n,
                self.matching_engines == old(self).matching_engines,
                risk_ok(was),
                risk_ok(self.risk_engines@),
                routers_ok(self.matching_engines@),
                forall|k: int|
                    0 <= k < i ==> pre_fits((#[trigger] was[k])@, was[k].owns(c0.uid), c0),
                cmd.same_inputs(c0),
                cmd.action == c0.action,
                cmd.matcher_events == c0.matcher_events,
                forall|k: int| i <= k < n ==> self.risk_engines@[k] == was[k],
                forall|k: int|
                    0 <= k < i ==> (#[trigger] self.risk_engines@[k])@.ledger == pre_processed(
                        was[k]@,
                        was[k].owns(c0.uid),
                        c0,
                    ).0 && self.risk_engines@[k]@.symbols == was[k]@.symbols
                        && self.risk_engines@[k]@.positions == pre_positions(
                        was[k]@,
                        was[k].owns(c0.uid),
                        c0,
                    ),
                forall|k: int|
                    0 <= k < i && (#[trigger] was[k]).owns(c0.uid) ==> cmd.result_code
                        == pre_processed(was[k]@, true, c0).1,
                (forall|k: int| 0 <= k < i ==> !(#[trigger] was[k]).owns(c0.uid))
                    ==> cmd.result_code == c0.result_code,
            decreases n - i,
        {
            proof {
                if was[i as int].owns(c0.uid) {
                    assert forall|k: int| 0 <= k < i implies !(#[trigger] was[k]).owns(c0.uid) by {
                        assert(was[k].shard_id == k);
                        assert(was[i as int].shard_id == i);
                    }
                }
            }
            if !self.risk_engines[i].try_pre_process(cmd) {
                proof {
                    assert(!pre_fits(was[i as int]@, was[i as int].owns(c0.uid), c0));
                }
                return false;
            }
            i = i + 1;
        }
        true
    }

    /// Whether the book that the command reaches, if any, has room for its
    /// order.
    pub fn can_process(&self, cmd: &OrderCommand) -> (ok: bool)
        requires
            self.wf(),
        ensures
            ok == match_admits(self.matching_engines@, *cmd),
    {
        let n: usize = self.matching_engines.len();
        let mut i: usize = 0;
        while i < n
            invariant
                i <= n,
                n == self.matching_engines@.len(),
                self.wf(),
                forall|k: int| 0 <= k < i ==> (#[trigger] self.matching_engines@[k]).admits(*cmd),
            decreases n - i,
        {
            if !self.matching_engines[i].can_process(cmd) {
                return false;
            }
            i = i + 1;
        }
        true
    }

    /// The matching stage of every matching shard.
    pub fn process_order(&mut self, cmd: &mut OrderCommand)
        requires
            old(self).wf(),
            match_admits(old(self).matching_engines@, *old(cmd)),
        ensures
            final(self).wf(),
            match_stage(
                old(self).matching_engines@,
                *old(cmd),
                final(self).matching_engines@,
                *final(cmd),
            ),
            final(self).risk_engines == old(self).risk_engines,
    {
        let n: usize = self.matching_engines.len();
        let ghost was = self.matching_engines@;
        let ghost c1 = *cmd;
        let mut i: usize = 0;
        while i < n
            invariant
                i <= n,
                n == was.len(),
                was == old(self).matching_engines@,
                c1 == *old(cmd),
                self.matching_engines@.len() == n,
                self.risk_engines == old(self).risk_engines,
                routers_ok(was),
                routers_ok(self.matching_engines@),
                match_admits(was, c1),
                forall|k: int| i <= k < n ==> self.matching_engines@[k] == was[k],
                forall|k: int|
                    0 <= k < i && !(#[trigger] was[k]).owns(c1.symbol)
                        ==> self.matching_engines@[k].order_books@ == was[k].order_books@
                        && self.matching_engines@[k].book_index == was[k].book_index,
                forall|k: int|
                    0 <= k < i && (#[trigger] was[k]).owns(c1.symbol) ==> router_step(
                        was[k],
                        c1,
                        self.matching_engines@[k],
                        *cmd,
                    ),
                (forall|k: int| 0 <= k < i ==> !(#[trigger] was[k]).owns(c1.symbol)) ==> *cmd == c1,
            decreases n - i,
        {
            let ghost before = *cmd;
            proof {
                assert(was[i as int].admits(c1));
                if was[i as int].owns(c1.symbol) {
                    assert forall|k: int| 0 <= k < i implies !(#[trigger] was[k]).owns(
                        c1.symbol,
                    ) by {
                        assert(was[k].shard_id == k);
                        assert(was[i as int].shard_id == i);
                    }
                } else {
                    assert(!was[i as int].takes(before));
                    assert(!was[i as int].routes(before));
                }
            }
            self.matching_engines[i].process_order(cmd);
            proof {
                if !was[i as int].owns(c1.symbol) {
                    assert(cmd.same_inputs(before));
                    lemma_same_command(before, *cmd);
                }
            }
            i = i + 1;
        }
        proof {
            if forall|k: int| 0 <= k < n ==> !(#[trigger] was[k]).owns(c1.symbol) {
                assert(*cmd == c1);
            }
        }
    }

    /// The post-trade stage of every risk shard.
    pub fn post_process(&mut self, cmd: &mut OrderCommand)
        requires
            old(self).wf(),
            post_admits(old(self).risk_engines@, *old(cmd)),
        ensures
            final(self).wf(),
            post_stage(old(self).risk_engines@, *old(cmd), final(self).risk_engines@, *final(cmd)),
            final(self).matching_engines == old(self).matching_engines,
    {
        let _ = self.try_post_process(cmd);
    }

    /// The post-trade stage of every risk shard as far as every balance
    /// stays within 64 bits; says whether all did. It ends within the
    /// first shard that cannot do its part.
    pub fn try_post_process(&mut self, cmd: &mut OrderCommand) -> (ok: bool)
        requires
            old(self).wf(),
        ensures
            final(self).wf(),
            ok == post_admits(old(self).risk_engines@, *old(cmd)),
            ok ==> post_stage(
                old(self).risk_engines@,
                *old(cmd),
                final(self).risk_engines@,
                *final(cmd),
            ),
            final(self).matching_engines == old(self).matching_engines,
    {
        let n: usize = self.risk_engines.len();
        let ghost was = self.risk_engines@;
        let ghost c2 = *cmd;
        let mut i: usize = 0;
        while i < n
            invariant
                i <= n,
                n == was.len(),
                was == old(self).risk_engines@,
                c2 == *old(cmd),
                self.risk_engines@.len() == n,
                self.matching_engines == old(self).matching_engines,
                risk_ok(was),
                risk_ok(self.risk_engines@),
                routers_ok(self.matching_engines@),
                forall|k: int|
                    0 <= k < i ==> post_fits(
                        (#[trigger] was[k])@,
                        c2,
                        was[k].shard_mask,
                        was[k].shard_id,
                    ),
                cmd.same_inputs(c2),
                cmd.action == c2.action,
                cmd.matcher_events == c2.matcher_events,
                forall|k: int| i <= k < n ==> self.risk_engines@[k] == was[k],
                forall|k: int|
                    0 <= k < i ==> (#[trigger] self.risk_engines@[k])@.ledger == post_processed(
                        was[k]@,
                        c2,
                        was[k].shard_mask,
                        was[k].shard_id,
                    ).0 && self.risk_engines@[k]@.symbols == was[k]@.symbols
                        && self.risk_engines@[k]@.positions == was[k]@.positions,
                cmd.result_code == if c2.matcher_events@.len() > 0 && exists|k: int|
                    0 <= k < i && (#[trigger] was[k])@.symbols.contains_key(c2.symbol) {
                    CommandResultCode::Success
                } else {
                    c2.result_code
                },
            decreases n - i,
        {
            proof {
                if was[i as int]@.symbols.contains_key(c2.symbol) {
                    lemma_credits_same(
                        c2,
                        *cmd,
                        c2.matcher_events@,
                        was[i as int]@.symbols[c2.symbol],
                        was[i as int].shard_mask,
                        was[i as int].shard_id,
                    );
                }
            }
            if !self.risk_engines[i].try_post_process(cmd) {
                proof {
                    assert(!post_fits(
                        was[i as int]@,
                        c2,
                        was[i as int].shard_mask,
                        was[i as int].shard_id,
                    ));
                }
                return false;
            }
            proof {
                if c2.matcher_events@.len() > 0 {
                    if was[i as int]@.symbols.contains_key(c2.symbol) {
                        assert(exists|k: int|
                            0 <= k < i + 1 && (#[trigger] was[k])@.symbols.contains_key(
                                c2.symbol,
                            ));
                    } else if exists|k: int|
                        0 <= k < i + 1 && (#[trigger] was[k])@.symbols.contains_key(c2.symbol) {
                        let k = choose|k: int|
                            0 <= k < i + 1 && (#[trigger] was[k])@.symbols.contains_key(
                                c2.symbol,
                            );
                        assert(k < i);
                    }
                }
            }
            i = i + 1;
        }
        true
    }

    /// Every stage can do its part on the command within the limits of
    /// 64-bit balances and volumes.
    pub open spec fn admits(&self, cmd: OrderCommand) -> bool {
        &&& pre_admits(self.risk_engines@, cmd)
        &&& forall|r1: Seq<RiskEngine>, c1: OrderCommand|
            pre_stage(self.risk_engines@, cmd, r1, c1) ==> match_admits(
                self.matching_engines@,
                c1,
            ) && forall|m2: Seq<MatchingEngineRouter>, c2: OrderCommand| #[trigger]
                match_stage(self.matching_engines@, c1, m2, c2) ==> post_admits(r1, c2)
    }

    /// The state of the pipeline, to be saved.
    pub fn serialize_state(&self) -> (state: PipelineState)
        requires
            self.wf(),
        ensures
            state.wf(),
            self.saved_as(&state),
    {
        let n: usize = self.risk_engines.len();
        let mut risk_engines: Vec<RiskEngine> = Vec::new();
        let mut i: usize = 0;
        while i < n
            invariant
                i <= n,
                n == self.risk_engines@.len(),
                self.wf(),
                risk_engines@.len() == i,
                forall|k: int|
                    0 <= k < i ==> (#[trigger] risk_engines@[k]).wf() && risk_engines@[k]@
                        == self.risk_engines@[k]@ && risk_engines@[k].shard_id == k
                        && risk_engines@[k].shard_mask == n - 1,
            decreases n - i,
        {
            risk_engines.push(self.risk_engines[i].clone());
            i = i + 1;
        }
        let m: usize = self.matching_engines.len();
        let mut matching_engines: Vec<MatchingEngineState> = Vec::new();
        let mut j: usize = 0;
        while j < m
            invariant
                j <= m,
                m == self.matching_engines@.len(),
                self.wf(),
                matching_engines@.len() == j,
                forall|k: int|
                    0 <= k < j ==> (#[trigger] matching_engines@[k]).wf()
                        && matching_engines@[k].shard_id == k && matching_engines@[k].shard_mask
                        == m - 1 && self.matching_engines@[k].saved_as(&matching_engines@[k]),
            decreases m - j,
        {
            matching_engines.push(self.matching_engines[j].serialize_state());
            j = j + 1;
        }
        PipelineState { risk_engines, matching_engines }
    }

    /// The pipeline that a state was saved from.
    pub fn from_state(state: PipelineState) -> (p: Self)
        requires
            state.wf(),
        ensures
            p.wf(),
            p.risk_engines == state.risk_engines,
            p.saved_as(&state),
            p.finds_all(&state),
    {
        let PipelineState { risk_engines, matching_engines: states } = state;
        let m: usize = states.len();
        let mut matching_engines: Vec<MatchingEngineRouter> = Vec::new();
        let mut j: usize = 0;
        while j < m
            invariant
                j <= m,
                m == states@.len(),
                forall|k: int|
                    0 <= k < m ==> (#[trigger] states@[k]).wf() && states@[k].shard_id == k
                        && states@[k].shard_mask == m - 1,
                matching_engines@.len() == j,
                forall|k: int|
                    0 <= k < j ==> (#[trigger] matching_engines@[k]).wf()
                        && matching_engines@[k].shard_id == k && matching_engines@[k].shard_mask
                        == m - 1 && matching_engines@[k].saved_as(&states@[k])
                        && matching_engines@[k].finds_all(&states@[k]),
            decreases m - j,
        {
            matching_engines.push(MatchingEngineRouter::from_state(&states[j]));
            j = j + 1;
        }
        Pipeline { risk_engines, matching_engines }
    }

    /// Runs one command through the pipeline: the pre-trade stage of every
    /// risk shard, the matching stage of every matching shard, then the
    /// post-trade stage of every risk shard.
    pub fn handle_event(&mut self, cmd: &mut OrderCommand, sequence: i64, end_of_batch: bool)
        requires
            old(self).wf(),
            old(self).admits(*old(cmd)),
        ensures
            final(self).wf(),
            exists|r1: Seq<RiskEngine>, c1: OrderCommand, c2: OrderCommand|
                {
                    &&& pre_stage(old(self).risk_engines@, *old(cmd), r1, c1)
                    &&& #[trigger] match_stage(
                        old(self).matching_engines@,
                        c1,
                        final(self).matching_engines@,
                        c2,
                    )
                    &&& #[trigger] post_stage(r1, c2, final(self).risk_engines@, *final(cmd))
                },
    {
        let _ = self.try_handle_event(cmd, sequence, end_of_batch);
    }

    /// Runs one command through the pipeline as far as every balance and
    /// volume stays within 64 bits, and says whether all did. Where not, it
    /// ends before the stage that cannot be done whole, or within it.
    pub fn try_handle_event(&mut self, cmd: &mut OrderCommand, _sequence: i64, _end_of_batch: bool) -> (ok:
        bool)
        requires
            old(self).wf(),
        ensures
            final(self).wf(),
            ok == old(self).admits(*old(cmd)),
            ok ==> exists|r1: Seq<RiskEngine>, c1: OrderCommand, c2: OrderCommand|
                {
                    &&& pre_stage(old(self).risk_engines@, *old(cmd), r1, c1)
                    &&& #[trigger] match_stage(
                        old(self).matching_engines@,
                        c1,
                        final(self).matching_engines@,
                        c2,
                    )
                    &&& #[trigger] post_stage(r1, c2, final(self).risk_engines@, *final(cmd))
                },
    {
        if !self.try_pre_process(cmd) {
            return false;
        }
        let ghost r1 = self.risk_engines@;
        let ghost c1 = *cmd;
        if !self.can_process(cmd) {
            return false;
        }
        self.process_order(cmd);
        let ghost c2 = *cmd;
        let ghost m2 = self.matching_engines@;
        if !self.try_post_process(cmd) {
            proof {
                assert(match_stage(old(self).matching_engines@, c1, m2, c2));
                assert(!post_admits(r1, c2));
            }
            return false;
        }
        proof {
            assert(match_stage(old(self).matching_engines@, c1, self.matching_engines@, c2));
            assert(post_stage(r1, c2, self.risk_engines@, *cmd));
            lemma_stages_are_functions(
                old(self).risk_engines@,
                old(self).matching_engines@,
                *old(cmd),
                r1,
                c1,
                m2,
                c2,
            );
        }
        true
    }
}

/// A command that agrees with another in its inputs, result code, side and
/// events is that command.
pub proof fn lemma_same_command(a: OrderCommand, b: OrderCommand)
    requires
        b.same_inputs(a),
        b.result_code == a.result_code,
        b.action == a.action,
        b.matcher_events == a.matcher_events,
    ensures
        a == b,
{
}

/// The outcome of a stage is fixed by what the stage starts from: whatever
/// the pre-trade stage and the matching stage may give admits the next
/// stage if what they did give admits it.
pub proof fn lemma_stages_are_functions(
    risk: Seq<RiskEngine>,
    routers: Seq<MatchingEngineRouter>,
    c0: OrderCommand,
    r1: Seq<RiskEngine>,
    c1: OrderCommand,
    m2: Seq<MatchingEngineRouter>,
    c2: OrderCommand,
)
    requires
        risk_ok(risk),
        routers_ok(routers),
        pre_admits(risk, c0),
        pre_stage(risk, c0, r1, c1),
        match_admits(routers, c1),
        match_stage(routers, c1, m2, c2),
        post_admits(r1, c2),
    ensures
        forall|x1: Seq<RiskEngine>, d1: OrderCommand|
            pre_stage(risk, c0, x1, d1) ==> match_admits(routers, d1) && forall|
                y2: Seq<MatchingEngineRouter>,
                d2: OrderCommand,
            | #[trigger]
                match_stage(routers, d1, y2, d2) ==> post_admits(x1, d2),
{
    assert forall|x1: Seq<RiskEngine>, d1: OrderCommand| pre_stage(
        risk,
        c0,
        x1,
        d1,
    ) implies match_admits(routers, d1) && forall|y2: Seq<MatchingEngineRouter>, d2: OrderCommand| #[trigger]
        match_stage(routers, d1, y2, d2) ==> post_admits(x1, d2) by {
        lemma_pre_stage_fixes(risk, c0, r1, c1, x1, d1);
        assert forall|k: int| 0 <= k < routers.len() implies (#[trigger] routers[k]).admits(d1) by {
            assert(routers[k].admits(c1));
            lemma_routes_same(routers[k], c1, d1);
        }
        assert forall|y2: Seq<MatchingEngineRouter>, d2: OrderCommand| #[trigger]
            match_stage(routers, d1, y2, d2) implies post_admits(x1, d2) by {
            lemma_match_stage_fixes(routers, c1, m2, c2, d1, y2, d2);
            assert forall|k: int| 0 <= k < x1.len() implies post_fits(
                (#[trigger] x1[k])@,
                d2,
                x1[k].shard_mask,
                x1[k].shard_id,
            ) by {
                assert(post_fits(r1[k]@, c2, r1[k].shard_mask, r1[k].shard_id));
                assert(x1[k]@.ledger == r1[k]@.ledger);
                assert(x1[k]@.symbols == r1[k]@.symbols);
                assert(x1[k]@ == r1[k]@);
                if x1[k]@.symbols.contains_key(d2.symbol) {
                    lemma_credits_same(
                        c2,
                        d2,
                        c2.matcher_events@,
                        x1[k]@.symbols[d2.symbol],
                        x1[k].shard_mask,
                        x1[k].shard_id,
                    );
                }
            }
        }
    }
}

/// Two outcomes of the pre-trade stage on the same shards and command
/// agree in the ledgers, the symbols and the command's fields.
pub proof fn lemma_pre_stage_fixes(
    risk: Seq<RiskEngine>,
    c0: OrderCommand,
    r1: Seq<RiskEngine>,
    c1: OrderCommand,
    x1: Seq<RiskEngine>,
    d1: OrderCommand,
)
    requires
        pre_stage(risk, c0, r1, c1),
        pre_stage(risk, c0, x1, d1),
    ensures
        x1.len() == r1.len(),
        forall|k: int|
            0 <= k < r1.len() ==> (#[trigger] x1[k])@ == r1[k]@ && x1[k].shard_id == r1[k].shard_id
                && x1[k].shard_mask == r1[k].shard_mask,
        d1.same_inputs(c1),
        d1.result_code == c1.result_code,
        d1.action == c1.action,
        d1.matcher_events == c1.matcher_events,
{
    assert forall|k: int| 0 <= k < r1.len() implies (#[trigger] x1[k])@ == r1[k]@ && x1[k].shard_id
        == r1[k].shard_id && x1[k].shard_mask == r1[k].shard_mask by {
        assert(x1[k]@.ledger == r1[k]@.ledger);
        assert(x1[k]@.symbols == r1[k]@.symbols);
        assert(x1[k]@.positions == r1[k]@.positions);
    }
    if exists|k: int| 0 <= k < risk.len() && (#[trigger] risk[k]).owns(c0.uid) {
        let k = choose|k: int| 0 <= k < risk.len() && (#[trigger] risk[k]).owns(c0.uid);
        assert(risk[k].owns(c0.uid));
    }
}

/// What a matching shard takes and routes depends on the command's
/// fields only.
pub proof fn lemma_routes_same(r: MatchingEngineRouter, a: OrderCommand, b: OrderCommand)
    requires
        b.same_inputs(a),
        b.result_code == a.result_code,
        b.action == a.action,
        b.matcher_events@ == a.matcher_events@,
    ensures
        r.takes(a) == r.takes(b),
        r.routes(a) == r.routes(b),
        r.admits(a) == r.admits(b),
        crate::orderbook::rules::entry_of(a) == crate::orderbook::rules::entry_of(b),
        r.has_book(a.symbol) ==> book_outcome(&r.book(a.symbol), a) == book_outcome(
            &r.book(b.symbol),
            b,
        ),
{
}

/// Two outcomes of the matching stage on the same shards and on commands
/// of the same fields agree in the command's fields.
pub proof fn lemma_match_stage_fixes(
    routers: Seq<MatchingEngineRouter>,
    c1: OrderCommand,
    m2: Seq<MatchingEngineRouter>,
    c2: OrderCommand,
    d1: OrderCommand,
    y2: Seq<MatchingEngineRouter>,
    d2: OrderCommand,
)
    requires
        match_stage(routers, c1, m2, c2),
        match_stage(routers, d1, y2, d2),
        d1.same_inputs(c1),
        d1.result_code == c1.result_code,
        d1.action == c1.action,
        d1.matcher_events == c1.matcher_events,
    ensures
        d2.same_inputs(c2),
        d2.action == c2.action,
        d2.uid == c2.uid,
        d2.symbol == c2.symbol,
        d2.matcher_events@ == c2.matcher_events@,
{
    if exists|k: int| 0 <= k < routers.len() && (#[trigger] routers[k]).owns(c1.symbol) {
        let k = choose|k: int| 0 <= k < routers.len() && (#[trigger] routers[k]).owns(c1.symbol);
        assert(routers[k].owns(d1.symbol));
        assert(router_step(routers[k], c1, m2[k], c2));
        assert(router_step(routers[k], d1, y2[k], d2));
        lemma_routes_same(routers[k], c1, d1);
    } else {
        assert forall|k: int| 0 <= k < routers.len() implies !(#[trigger] routers[k]).owns(
            d1.symbol,
        ) by {
            assert(!routers[k].owns(c1.symbol));
        }
    }
}

} // verus!
