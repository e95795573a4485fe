use crate::api::commands::OrderCommand;
use crate::api::types::SymbolId;
use crate::orderbook::rules::entry_of;
use crate::pipeline::{
    match_stage, post_stage, pre_stage, router_step, routers_ok, Pipeline, PipelineState,
};
use crate::processors::matching_engine::{book_outcome, key_of, MatchingEngineRouter};
use crate::processors::risk_engine::{lemma_credits_same, RiskEngine};
use vstd::prelude::*;

verus! {

/// Two rows of risk shards hold the same: shard by shard the same number
/// and mask, and the same balances, positions and symbols.
pub open spec fn risk_agree(a: Seq<RiskEngine>, b: Seq<RiskEngine>) -> bool {
    &&& a.len() == b.len()
    &&& forall|k: int|
        0 <= k < a.len() ==> (#[trigger] a[k])@ == b[k]@ && a[k].shard_id == b[k].shard_id
            && a[k].shard_mask == b[k].shard_mask
}

/// Two matching shards hold the same: the same number and mask, and under
/// each symbol both have a book or neither has; where they have one, the
/// two books are of one kind and symbol and hold the same orders.
pub open spec fn router_agrees(a: MatchingEngineRouter, b: MatchingEngineRouter) -> bool {
    &&& a.shard_id == b.shard_id
    &&& a.shard_mask == b.shard_mask
    &&& forall|s: SymbolId| #[trigger] a.has_book(s) == b.has_book(s)
    &&& forall|s: SymbolId| #[trigger]
        a.has_book(s) ==> a.book(s)@ == b.book(s)@ && a.book(s).same_book(&b.book(s))
}

/// Two rows of matching shards hold the same, shard by shard.
pub open spec fn routers_agree(a: Seq<MatchingEngineRouter>, b: Seq<MatchingEngineRouter>) -> bool {
    &&& a.len() == b.len()
    &&& forall|k: int| 0 <= k < a.len() ==> router_agrees(#[trigger] a[k], b[k])
}

/// Two commands agree in every field.
pub open spec fn commands_agree(c: OrderCommand, d: OrderCommand) -> bool {
    &&& d.same_inputs(c)
    &&& d.result_code == c.result_code
    &&& d.action == c.action
    &&& d.matcher_events@ == c.matcher_events@
}

/// A saved state fixes what a pipeline holds: two valid pipelines that the
/// same state holds agree shard by shard, in the balances, positions and
/// symbols of the risk shards and in the books of the matching shards.
pub proof fn law_state_fixes_pipeline(p: &Pipeline, q: &Pipeline, s: &PipelineState)
    requires
        p.wf(),
        q.wf(),
        p.saved_as(s),
        q.saved_as(s),
    ensures
        risk_agree(p.risk_engines@, q.risk_engines@),
        routers_agree(p.matching_engines@, q.matching_engines@),
{
    assert forall|k: int| 0 <= k < p.risk_engines@.len() implies (#[trigger] p.risk_engines@[k])@
        == q.risk_engines@[k]@ && p.risk_engines@[k].shard_id == q.risk_engines@[k].shard_id
        && p.risk_engines@[k].shard_mask == q.risk_engines@[k].shard_mask by {
        assert(s.risk_engines@[k]@ == p.risk_engines@[k]@);
        assert(s.risk_engines@[k]@ == q.risk_engines@[k]@);
    }
    assert forall|k: int| 0 <= k < p.matching_engines@.len() implies router_agrees(
        #[trigger] p.matching_engines@[k],
        q.matching_engines@[k],
    ) by {
        let a = p.matching_engines@[k];
        let b = q.matching_engines@[k];
        let st = s.matching_engines@[k];
        assert(a.saved_as(&st));
        assert(b.saved_as(&st));
        assert(a.wf() && b.wf());
        assert forall|i: int| 0 <= i < a.order_books@.len() implies (#[trigger] a.order_books@[i])@
            == b.order_books@[i]@ && a.order_books@[i].same_book(&b.order_books@[i]) by {
            assert(st.order_books@[i]@ == a.order_books@[i]@);
            assert(st.order_books@[i]@ == b.order_books@[i]@);
        }
        lemma_same_books(a, b);
    }
}

/// Two valid matching shards with the same books in the same order, by
/// symbol, kind and content, hold the same.
pub proof fn lemma_same_books(a: MatchingEngineRouter, b: MatchingEngineRouter)
    requires
        a.wf(),
        b.wf(),
        a.shard_id == b.shard_id,
        a.shard_mask == b.shard_mask,
        a.order_books@.len() == b.order_books@.len(),
        forall|i: int|
            0 <= i < a.order_books@.len() ==> (#[trigger] a.order_books@[i])@ == b.order_books@[i]@
                && a.order_books@[i].same_book(&b.order_books@[i]),
    ensures
        router_agrees(a, b),
{
    assert forall|s: SymbolId| #[trigger] a.has_book(s) == b.has_book(s) && (a.has_book(s)
        ==> a.slot(s) == b.slot(s)) by {
        if a.has_book(s) {
            let i = a.slot(s);
            assert(key_of(a.order_books@[i].symbol_spec()) == s as i64);
            assert(b.order_books@[i].wf());
            assert(key_of(b.order_books@[i].symbol_spec()) == s as i64);
        }
        if b.has_book(s) {
            let i = b.slot(s);
            assert(key_of(b.order_books@[i].symbol_spec()) == s as i64);
            assert(a.order_books@[i].wf());
            assert(key_of(a.order_books@[i].symbol_spec()) == s as i64);
        }
    }
    assert forall|s: SymbolId| #[trigger] a.has_book(s) implies a.book(s)@ == b.book(s)@
        && a.book(s).same_book(&b.book(s)) by {
        assert(a.has_book(s) == b.has_book(s) && (a.has_book(s) ==> a.slot(s) == b.slot(s)));
        let i = a.slot(s);
        assert(a.order_books@[i]@ == b.order_books@[i]@);
    }
}

/// The pre-trade stage on shards that hold the same leaves shards that hold
/// the same, and the same command.
pub proof fn lemma_pre_stage_agrees(
    a: Seq<RiskEngine>,
    b: Seq<RiskEngine>,
    c: OrderCommand,
    r1: Seq<RiskEngine>,
    c1: OrderCommand,
    x1: Seq<RiskEngine>,
    d1: OrderCommand,
)
    requires
        risk_agree(a, b),
        pre_stage(a, c, r1, c1),
        pre_stage(b, c, x1, d1),
    ensures
        risk_agree(r1, x1),
        commands_agree(c1, d1),
{
    assert forall|k: int| 0 <= k < r1.len() implies (#[trigger] r1[k])@ == x1[k]@ && r1[k].shard_id
        == x1[k].shard_id && r1[k].shard_mask == x1[k].shard_mask by {
        assert(a[k]@ == b[k]@);
        assert(a[k].owns(c.uid) == b[k].owns(c.uid));
        assert(r1[k]@.ledger == x1[k]@.ledger);
        assert(r1[k]@.symbols == x1[k]@.symbols);
        assert(r1[k]@.positions == x1[k]@.positions);
    }
    if exists|k: int| 0 <= k < a.len() && (#[trigger] a[k]).owns(c.uid) {
        let k = choose|k: int| 0 <= k < a.len() && (#[trigger] a[k]).owns(c.uid);
        assert(a[k]@ == b[k]@);
        assert(b[k].owns(c.uid));
    } else {
        assert forall|k: int| 0 <= k < b.len() implies !(#[trigger] b[k]).owns(c.uid) by {
            assert(!a[k].owns(c.uid));
        }
    }
}

/// One step of two matching shards that hold the same, on the same
/// command, leaves shards that hold the same, and the same command.
pub proof fn lemma_router_step_agrees(
    a: MatchingEngineRouter,
    b: MatchingEngineRouter,
    c1: OrderCommand,
    d1: OrderCommand,
    a2: MatchingEngineRouter,
    c2: OrderCommand,
    b2: MatchingEngineRouter,
    d2: OrderCommand,
)
    requires
        a.wf(),
        b.wf(),
        router_agrees(a, b),
        commands_agree(c1, d1),
        router_step(a, c1, a2, c2),
        router_step(b, d1, b2, d2),
    ensures
        router_agrees(a2, b2),
        commands_agree(c2, d2),
{
    let sym = c1.symbol;
    assert(a.has_book(sym) == b.has_book(sym));
    assert(a.takes(c1) == b.takes(d1));
    assert(a.routes(c1) == b.routes(d1));
    assert(entry_of(c1) == entry_of(d1));
    assert forall|s: SymbolId| #[trigger] a2.has_book(s) == b2.has_book(s) by {
        assert(a.has_book(s) == b.has_book(s));
    }
    if a.routes(c1) {
        let i = a.slot(sym);
        let j = b.slot(sym);
        assert(a.book(sym)@ == b.book(sym)@ && a.book(sym).same_book(&b.book(sym)));
        assert(book_outcome(&a.book(sym), c1) == book_outcome(&b.book(sym), d1));
        assert forall|s: SymbolId| #[trigger] a2.has_book(s) implies a2.book(s)@ == b2.book(s)@
            && a2.book(s).same_book(&b2.book(s)) by {
            assert(a.has_book(s) && b.has_book(s));
            assert(a.book(s)@ == b.book(s)@ && a.book(s).same_book(&b.book(s)));
            if s == sym {
            } else {
                assert(key_of(a.order_books@[a.slot(s)].symbol_spec()) == s as i64);
                assert(key_of(a.order_books@[i].symbol_spec()) == sym as i64);
                assert(key_of(b.order_books@[b.slot(s)].symbol_spec()) == s as i64);
                assert(key_of(b.order_books@[j].symbol_spec()) == sym as i64);
                assert(a.slot(s) != i);
                assert(b.slot(s) != j);
            }
        }
    } else {
        assert forall|s: SymbolId| #[trigger] a2.has_book(s) implies a2.book(s)@ == b2.book(s)@
            && a2.book(s).same_book(&b2.book(s)) by {
            assert(a.has_book(s) && b.has_book(s));
            assert(a.book(s)@ == b.book(s)@ && a.book(s).same_book(&b.book(s)));
        }
    }
}

/// The matching stage on shards that hold the same, on the same command,
/// leaves shards that hold the same, and the same command.
pub proof fn lemma_match_stage_agrees(
    a: Seq<MatchingEngineRouter>,
    b: Seq<MatchingEngineRouter>,
    c1: OrderCommand,
    d1: OrderCommand,
    m2: Seq<MatchingEngineRouter>,
    c2: OrderCommand,
    y2: Seq<MatchingEngineRouter>,
    d2: OrderCommand,
)
    requires
        routers_ok(a),
        routers_ok(b),
        routers_agree(a, b),
        commands_agree(c1, d1),
        match_stage(a, c1, m2, c2),
        match_stage(b, d1, y2, d2),
    ensures
        routers_agree(m2, y2),
        commands_agree(c2, d2),
{
    assert forall|k: int| 0 <= k < a.len() implies router_agrees(#[trigger] m2[k], y2[k]) by {
        assert(router_agrees(a[k], b[k]));
        assert(a[k].owns(c1.symbol) == b[k].owns(d1.symbol));
        if a[k].owns(c1.symbol) {
            lemma_router_step_agrees(a[k], b[k], c1, d1, m2[k], c2, y2[k], d2);
        } else {
            assert(m2[k].shard_id == y2[k].shard_id && m2[k].shard_mask == y2[k].shard_mask);
            assert forall|s: SymbolId| #[trigger] m2[k].has_book(s) == y2[k].has_book(s) by {
                assert(a[k].has_book(s) == b[k].has_book(s));
            }
            assert forall|s: SymbolId| #[trigger] m2[k].has_book(s) implies m2[k].book(s)@
                == y2[k].book(s)@ && m2[k].book(s).same_book(&y2[k].book(s)) by {
                assert(a[k].has_book(s));
                assert(a[k].book(s)@ == b[k].book(s)@ && a[k].book(s).same_book(&b[k].book(s)));
            }
        }
    }
    if exists|k: int| 0 <= k < a.len() && (#[trigger] a[k]).owns(c1.symbol) {
        let k = choose|k: int| 0 <= k < a.len() && (#[trigger] a[k]).owns(c1.symbol);
        assert(router_agrees(a[k], b[k]));
        assert(b[k].owns(d1.symbol));
        lemma_router_step_agrees(a[k], b[k], c1, d1, m2[k], c2, y2[k], d2);
    } else {
        assert forall|k: int| 0 <= k < b.len() implies !(#[trigger] b[k]).owns(d1.symbol) by {
            assert(router_agrees(a[k], b[k]));
            assert(!a[k].owns(c1.symbol));
        }
    }
}

/// The post-trade stage on shards that hold the same, on the same command,
/// leaves shards that hold the same, and the same command.
pub proof fn lemma_post_stage_agrees(
    a: Seq<RiskEngine>,
    b: Seq<RiskEngine>,
    c2: OrderCommand,
    d2: OrderCommand,
    r3: Seq<RiskEngine>,
    c3: OrderCommand,
    x3: Seq<RiskEngine>,
    d3: OrderCommand,
)
    requires
        risk_agree(a, b),
        commands_agree(c2, d2),
        post_stage(a, c2, r3, c3),
        post_stage(b, d2, x3, d3),
    ensures
        risk_agree(r3, x3),
        commands_agree(c3, d3),
{
    assert forall|k: int| 0 <= k < r3.len() implies (#[trigger] r3[k])@ == x3[k]@ && r3[k].shard_id
        == x3[k].shard_id && r3[k].shard_mask == x3[k].shard_mask by {
        assert(a[k]@ == b[k]@);
        if a[k]@.symbols.contains_key(c2.symbol) {
            lemma_credits_same(
                c2,
                d2,
                c2.matcher_events@,
                a[k]@.symbols[c2.symbol],
                a[k].shard_mask,
                a[k].shard_id,
            );
        }
        assert(r3[k]@.ledger == x3[k]@.ledger);
        assert(r3[k]@.symbols == x3[k]@.symbols);
        assert(r3[k]@.positions == x3[k]@.positions);
    }
    if exists|k: int| 0 <= k < a.len() && (#[trigger] a[k])@.symbols.contains_key(c2.symbol) {
        let k = choose|k: int|
            0 <= k < a.len() && (#[trigger] a[k])@.symbols.contains_key(c2.symbol);
        assert(a[k]@ == b[k]@);
        assert(b[k]@.symbols.contains_key(d2.symbol));
    } else if exists|k: int|
        0 <= k < b.len() && (#[trigger] b[k])@.symbols.contains_key(d2.symbol) {
        let k = choose|k: int|
            0 <= k < b.len() && (#[trigger] b[k])@.symbols.contains_key(d2.symbol);
        assert(a[k]@ == b[k]@);
        assert(a[k]@.symbols.contains_key(c2.symbol));
    }
}

/// Replay gives the same: a command that runs through two pipelines that
/// hold the same leaves pipelines that hold the same, with the same result
/// code, side and events. So a pipeline that is rebuilt from a saved state
/// and fed the commands that came after it ends where the first one did.
pub proof fn law_replay_agrees(
    p: &Pipeline,
    q: &Pipeline,
    c: OrderCommand,
    p2: &Pipeline,
    c3: OrderCommand,
    q2: &Pipeline,
    d3: OrderCommand,
)
    requires
        p.wf(),
        q.wf(),
        risk_agree(p.risk_engines@, q.risk_engines@),
        routers_agree(p.matching_engines@, q.matching_engines@),
        exists|r1: Seq<RiskEngine>, c1: OrderCommand, c2: OrderCommand|
            {
                &&& pre_stage(p.risk_engines@, c, r1, c1)
                &&& #[trigger] match_stage(p.matching_engines@, c1, p2.matching_engines@, c2)
                &&& #[trigger] post_stage(r1, c2, p2.risk_engines@, c3)
            },
        exists|r1: Seq<RiskEngine>, c1: OrderCommand, c2: OrderCommand|
            {
                &&& pre_stage(q.risk_engines@, c, r1, c1)
                &&& #[trigger] match_stage(q.matching_engines@, c1, q2.matching_engines@, c2)
                &&& #[trigger] post_stage(r1, c2, q2.risk_engines@, d3)
            },
    ensures
        risk_agree(p2.risk_engines@, q2.risk_engines@),
        routers_agree(p2.matching_engines@, q2.matching_engines@),
        commands_agree(c3, d3),
{
    let (r1, c1, c2) = choose|r1: Seq<RiskEngine>, c1: OrderCommand, c2: OrderCommand|
        {
            &&& pre_stage(p.risk_engines@, c, r1, c1)
            &&& #[trigger] match_stage(p.matching_engines@, c1, p2.matching_engines@, c2)
            &&& #[trigger] post_stage(r1, c2, p2.risk_engines@, c3)
        };
    let (x1, d1, d2) = choose|r1: Seq<RiskEngine>, c1: OrderCommand, c2: OrderCommand|
        {
            &&& pre_stage(q.risk_engines@, c, r1, c1)
            &&& #[trigger] match_stage(q.matching_engines@, c1, q2.matching_engines@, c2)
            &&& #[trigger] post_stage(r1, c2, q2.risk_engines@, d3)
        };
    lemma_pre_stage_agrees(p.risk_engines@, q.risk_engines@, c, r1, c1, x1, d1);
    lemma_match_stage_agrees(
        p.matching_engines@,
        q.matching_engines@,
        c1,
        d1,
        p2.matching_engines@,
        c2,
        q2.matching_engines@,
        d2,
    );
    lemma_post_stage_agrees(r1, x1, c2, d2, p2.risk_engines@, c3, q2.risk_engines@, d3);
}

} // verus!
