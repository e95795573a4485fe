use crate::api::commands::{OrderCommand, OrderCommandType};
use crate::api::events::{MatcherEventType, MatcherTradeEvent};
use crate::api::types::{
    power_of_two, CommandResultCode, CoreSymbolSpecification, Currency, OrderAction, SymbolId, UserId,
};
use crate::users::{
    balance_of, credit_fits, credited, Ledger, Positions, SymbolPositionRecord, UserProfileService,
};
use vstd::prelude::*;

verus! {

/// What a symbol table holds: the specification of each symbol that it
/// names.
pub uninterp spec fn symbol_specs(m: ahash::AHashMap<SymbolId, CoreSymbolSpecification>) -> Map<
    SymbolId,
    CoreSymbolSpecification,
>;

/// `AHashMap::new`: a map without entries.
#[verifier::external_body]
pub(crate) fn symbol_specs_new() -> (m: ahash::AHashMap<SymbolId, CoreSymbolSpecification>)
    ensures
        symbol_specs(m).dom().is_empty(),
{
    ahash::AHashMap::new()
}

/// `AHashMap::get`: the specification kept under `symbol`, if there is
/// one.
#[verifier::external_body]
pub(crate) fn symbol_specs_get(
    m: &ahash::AHashMap<SymbolId, CoreSymbolSpecification>,
    symbol: SymbolId,
) -> (r: Option<CoreSymbolSpecification>)
    ensures
        r == if symbol_specs(*m).contains_key(symbol) {
            Some(symbol_specs(*m)[symbol])
        } else {
            None
        },
{
    m.get(&symbol).copied()
}

/// `AHashMap::insert`: `symbol` is then kept with `spec`, the other entries
/// stay.
#[verifier::external_body]
pub(crate) fn symbol_specs_insert(
    m: &mut ahash::AHashMap<SymbolId, CoreSymbolSpecification>,
    symbol: SymbolId,
    spec: CoreSymbolSpecification,
)
    ensures
        symbol_specs(*final(m)) == symbol_specs(*old(m)).insert(symbol, spec),
{
    m.insert(symbol, spec);
}

/// `Clone` of an `AHashMap`: a map of the same entries.
#[verifier::external_body]
pub(crate) fn symbol_specs_clone(m: &ahash::AHashMap<SymbolId, CoreSymbolSpecification>) -> (c:
    ahash::AHashMap<SymbolId, CoreSymbolSpecification>)
    ensures
        symbol_specs(c) == symbol_specs(*m),
{
    m.clone()
}

/// Two to the power of 126: an amount this far from zero fits no balance.
pub const FAR: i128 = 0x4000_0000_0000_0000_0000_0000_0000_0000;

/// An amount of money as far as 128 bits can hold it.
#[derive(Debug, Clone, Copy, PartialEq, Eq, Structural)]
pub enum Amount {
    Exact(i128),
    /// At least [`FAR`] above zero.
    Above,
    /// At least [`FAR`] below zero.
    Below,
}

/// `r` is the amount `v`, or says on which side of zero `v` lies far off.
pub open spec fn stands_for(r: Amount, v: int) -> bool {
    match r {
        Amount::Exact(x) => x == v,
        Amount::Above => v >= FAR,
        Amount::Below => v <= -FAR,
    }
}

/// The product of two 64-bit numbers is within 2^126 of zero.
pub proof fn lemma_product_bound(a: int, b: int)
    requires
        i64::MIN <= a <= i64::MAX,
        i64::MIN <= b <= i64::MAX,
    ensures
        -FAR <= a * b <= FAR,
{
    assert(-FAR <= a * b <= FAR) by (nonlinear_arith)
        requires
            -0x8000_0000_0000_0000 <= a <= 0x8000_0000_0000_0000,
            -0x8000_0000_0000_0000 <= b <= 0x8000_0000_0000_0000,
            FAR == 0x8000_0000_0000_0000 * 0x8000_0000_0000_0000,
    ;
}

/// The sign of a product is that of its factors.
pub proof fn lemma_product_sign(x: int, c: int)
    ensures
        (x > 0 && c > 0) || (x < 0 && c < 0) ==> x * c > 0,
        (x > 0 && c < 0) || (x < 0 && c > 0) ==> x * c < 0,
        x == 0 || c == 0 ==> x * c == 0,
{
    assert((x > 0 && c > 0) || (x < 0 && c < 0) ==> x * c > 0) by (nonlinear_arith);
    assert((x > 0 && c < 0) || (x < 0 && c > 0) ==> x * c < 0) by (nonlinear_arith);
    assert(x == 0 || c == 0 ==> x * c == 0) by (nonlinear_arith);
}

/// `x * c`, where `x` fits 128 bits.
pub fn times(x: i128, c: i64) -> (r: Amount)
    ensures
        match r {
            Amount::Exact(y) => y == x * c,
            Amount::Above => x * c > i128::MAX,
            Amount::Below => x * c < i128::MIN,
        },
{
    proof {
        lemma_product_sign(x as int, c as int);
    }
    match x.checked_mul(c as i128) {
        Some(y) => Amount::Exact(y),
        None => if (x > 0) == (c > 0) {
            Amount::Above
        } else {
            Amount::Below
        },
    }
}

/// `a + d`, where `d` is within 2^126 of zero.
pub(crate) fn plus(a: Amount, d: i128, Ghost(v): Ghost<int>) -> (r: Amount)
    requires
        -FAR <= d <= FAR,
        match a {
            Amount::Exact(y) => y == v,
            Amount::Above => v > i128::MAX,
            Amount::Below => v < i128::MIN,
        },
    ensures
        stands_for(r, v + d),
{
    match a {
        Amount::Exact(y) => match y.checked_add(d) {
            Some(z) => Amount::Exact(z),
            None => if y > 0 {
                Amount::Above
            } else {
                Amount::Below
            },
        },
        other => other,
    }
}

/// `a * b * c + d * e`.
pub fn product3_plus(a: i64, b: i64, c: i64, d: i64, e: i64) -> (r: Amount)
    ensures
        stands_for(r, a * b * c + d * e),
{
    proof {
        lemma_product_bound(a as int, b as int);
        lemma_product_bound(d as int, e as int);
    }
    let ab: i128 = (a as i128) * (b as i128);
    let de: i128 = (d as i128) * (e as i128);
    plus(times(ab, c), de, Ghost(a * b * c))
}

/// `a * b * c - d * e`.
pub fn product3_minus(a: i64, b: i64, c: i64, d: i64, e: i64) -> (r: Amount)
    ensures
        stands_for(r, a * b * c - d * e),
{
    proof {
        lemma_product_bound(a as int, b as int);
        lemma_product_bound(d as int, e as int);
    }
    let ab: i128 = (a as i128) * (b as i128);
    let de: i128 = (d as i128) * (e as i128);
    plus(times(ab, c), -de, Ghost(a * b * c))
}

/// `a * (h - p) * c`.
pub fn spread3(a: i64, h: i64, p: i64, c: i64) -> (r: Amount)
    ensures
        stands_for(r, a * (h - p) * c),
{
    let d: i128 = (h as i128) - (p as i128);
    proof {
        assert(-0x7FFF_FFFF_FFFF_FFFF_FFFF_FFFF_FFFF_FFFF <= a * d
            <= 0x7FFF_FFFF_FFFF_FFFF_FFFF_FFFF_FFFF_FFFF) by (nonlinear_arith)
            requires
                -0x8000_0000_0000_0000 <= a <= 0x7FFF_FFFF_FFFF_FFFF,
                -0xFFFF_FFFF_FFFF_FFFF <= d <= 0xFFFF_FFFF_FFFF_FFFF,
        ;
    }
    let ad: i128 = (a as i128) * d;
    plus(times(ad, c), 0, Ghost(a * (h - p) * c))
}

/// The price at which a bid is held: the price field for budget orders,
/// else the reserve price.
pub open spec fn price_for_hold(c: OrderCommand) -> i64 {
    if c.order_type.is_budget() {
        c.price
    } else {
        c.reserve_price
    }
}

/// The collateral that an order needs: for a bid its size at the hold price
/// plus the taker fee, in the quote currency; for an ask its size, in the
/// base currency.
pub open spec fn hold_amount(c: OrderCommand, s: CoreSymbolSpecification) -> int {
    match c.action {
        OrderAction::Bid => c.size * price_for_hold(c) * s.quote_scale_k + c.size * s.taker_fee,
        OrderAction::Ask => c.size * s.base_scale_k,
    }
}

pub open spec fn hold_currency(c: OrderCommand, s: CoreSymbolSpecification) -> Currency {
    match c.action {
        OrderAction::Bid => s.quote_currency,
        OrderAction::Ask => s.base_currency,
    }
}

/// What a risk engine knows: the balances and the positions of its users,
/// and the symbols.
pub ghost struct RiskModel {
    pub ledger: Ledger,
    pub symbols: Map<SymbolId, CoreSymbolSpecification>,
    pub positions: Positions,
}

/// The pre-trade check of an order: an unknown user or symbol is refused;
/// else the collateral is taken from the balance if the balance covers it.
pub open spec fn risk_checked(m: RiskModel, c: OrderCommand) -> (Ledger, CommandResultCode) {
    if !m.ledger.contains_key(c.uid) {
        (m.ledger, CommandResultCode::AuthInvalidUser)
    } else if !m.symbols.contains_key(c.symbol) {
        (m.ledger, CommandResultCode::InvalidSymbol)
    } else {
        let s = m.symbols[c.symbol];
        if balance_of(m.ledger, c.uid, hold_currency(c, s)) >= hold_amount(c, s) {
            (
                credited(m.ledger, c.uid, hold_currency(c, s), -hold_amount(c, s)),
                CommandResultCode::ValidForMatchingEngine,
            )
        } else {
            (m.ledger, CommandResultCode::RiskNsf)
        }
    }
}

/// The pre-trade stage on a command whose user this shard owns or not.
pub open spec fn pre_processed(m: RiskModel, owned: bool, c: OrderCommand) -> (
    Ledger,
    CommandResultCode,
) {
    if !owned {
        (m.ledger, c.result_code)
    } else {
        match c.command {
            OrderCommandType::PlaceOrder => risk_checked(m, c),
            OrderCommandType::AddUser => if m.ledger.contains_key(c.uid) {
                (m.ledger, CommandResultCode::UserMgmtUserAlreadyExists)
            } else {
                (m.ledger.insert(c.uid, Map::empty()), CommandResultCode::Success)
            },
            OrderCommandType::BalanceAdjustment => if m.ledger.contains_key(c.uid) {
                (credited(m.ledger, c.uid, c.symbol, c.price as int), CommandResultCode::Success)
            } else {
                (m.ledger, CommandResultCode::AuthInvalidUser)
            },
            _ => (m.ledger, c.result_code),
        }
    }
}

/// The positions after the pre-trade stage: a new user has none, and
/// nothing else changes.
pub open spec fn pre_positions(m: RiskModel, owned: bool, c: OrderCommand) -> Positions {
    if owned && c.command == OrderCommandType::AddUser && !m.ledger.contains_key(c.uid) {
        m.positions.insert(c.uid, Map::empty())
    } else {
        m.positions
    }
}

/// The balance that the pre-trade check of an order leaves is within 64
/// bits.
pub open spec fn check_fits(m: RiskModel, c: OrderCommand) -> bool {
    m.ledger.contains_key(c.uid) && m.symbols.contains_key(c.symbol) && balance_of(
        m.ledger,
        c.uid,
        hold_currency(c, m.symbols[c.symbol]),
    ) >= hold_amount(c, m.symbols[c.symbol]) ==> credit_fits(
        m.ledger,
        c.uid,
        hold_currency(c, m.symbols[c.symbol]),
        -hold_amount(c, m.symbols[c.symbol]),
    )
}

/// Every balance that the pre-trade stage writes is within 64 bits.
pub open spec fn pre_fits(m: RiskModel, owned: bool, c: OrderCommand) -> bool {
    owned ==> match c.command {
        OrderCommandType::PlaceOrder => check_fits(m, c),
        OrderCommandType::BalanceAdjustment => m.ledger.contains_key(c.uid) ==> credit_fits(
            m.ledger,
            c.uid,
            c.symbol,
            c.price as int,
        ),
        _ => true,
    }
}

/// One payment of a settlement.
pub ghost struct Credit {
    pub uid: UserId,
    pub currency: Currency,
    pub amount: int,
}

/// What the buyer of a trade gets: the escrow above the trade price back in
/// the quote currency, and the traded size in the base currency.
pub open spec fn buyer_credits(uid: UserId, ev: MatcherTradeEvent, s: CoreSymbolSpecification) -> Seq<
    Credit,
> {
    seq![
        Credit {
            uid,
            currency: s.quote_currency,
            amount: ev.size * (ev.bidder_hold_price - ev.price) * s.quote_scale_k,
        },
        Credit { uid, currency: s.base_currency, amount: ev.size * s.base_scale_k },
    ]
}

/// What the seller of a trade gets: the trade's value less the fee, in the
/// quote currency.
pub open spec fn seller_credits(
    uid: UserId,
    ev: MatcherTradeEvent,
    s: CoreSymbolSpecification,
    fee: i64,
) -> Seq<Credit> {
    seq![
        Credit {
            uid,
            currency: s.quote_currency,
            amount: ev.size * ev.price * s.quote_scale_k - ev.size * fee,
        },
    ]
}

/// What the taker gets back for a rejected or reduced quantity: the
/// collateral that was held for it.
pub open spec fn refund_credits(
    uid: UserId,
    ev: MatcherTradeEvent,
    s: CoreSymbolSpecification,
    taker_sell: bool,
) -> Seq<Credit> {
    if taker_sell {
        seq![Credit { uid, currency: s.base_currency, amount: ev.size * s.base_scale_k }]
    } else {
        seq![
            Credit {
                uid,
                currency: s.quote_currency,
                amount: ev.size * ev.bidder_hold_price * s.quote_scale_k + ev.size * s.taker_fee,
            },
        ]
    }
}

/// A shard with mask `mask` and number `shard` owns user `uid`.
pub open spec fn owns_uid(mask: i64, shard: i64, uid: UserId) -> bool {
    mask == 0 || (uid & mask) == shard
}

/// The payments that one event causes in a shard: the taker's first, then
/// the maker's.
pub open spec fn credits_of(
    c: OrderCommand,
    ev: MatcherTradeEvent,
    s: CoreSymbolSpecification,
    mask: i64,
    shard: i64,
) -> Seq<Credit> {
    let taker_sell = c.action == OrderAction::Ask;
    match ev.event_type {
        MatcherEventType::Trade => (if owns_uid(mask, shard, c.uid) {
            if taker_sell {
                seller_credits(c.uid, ev, s, s.taker_fee)
            } else {
                buyer_credits(c.uid, ev, s)
            }
        } else {
            Seq::empty()
        }) + (if owns_uid(mask, shard, ev.matched_order_uid) {
            if taker_sell {
                buyer_credits(ev.matched_order_uid, ev, s)
            } else {
                seller_credits(ev.matched_order_uid, ev, s, s.maker_fee)
            }
        } else {
            Seq::empty()
        }),
        _ => if owns_uid(mask, shard, c.uid) {
            refund_credits(c.uid, ev, s, taker_sell)
        } else {
            Seq::empty()
        },
    }
}

/// The ledger after one payment; a payment to an unknown user is dropped.
pub open spec fn paid(ledger: Ledger, k: Credit) -> Ledger {
    if ledger.contains_key(k.uid) {
        credited(ledger, k.uid, k.currency, k.amount)
    } else {
        ledger
    }
}

/// The ledger after the payments `ks`, in order.
pub open spec fn paid_all(ledger: Ledger, ks: Seq<Credit>) -> Ledger
    decreases ks.len(),
{
    if ks.len() == 0 {
        ledger
    } else {
        paid_all(paid(ledger, ks[0]), ks.drop_first())
    }
}

/// Every balance that the payments `ks` write is within 64 bits.
pub open spec fn pay_fits(ledger: Ledger, ks: Seq<Credit>) -> bool
    decreases ks.len(),
{
    ks.len() == 0 || ((ledger.contains_key(ks[0].uid) ==> credit_fits(
        ledger,
        ks[0].uid,
        ks[0].currency,
        ks[0].amount,
    )) && pay_fits(paid(ledger, ks[0]), ks.drop_first()))
}

/// All payments that the events of a command cause in a shard.
pub open spec fn all_credits(
    c: OrderCommand,
    events: Seq<MatcherTradeEvent>,
    s: CoreSymbolSpecification,
    mask: i64,
    shard: i64,
) -> Seq<Credit>
    decreases events.len(),
{
    if events.len() == 0 {
        Seq::empty()
    } else {
        credits_of(c, events[0], s, mask, shard) + all_credits(
            c,
            events.drop_first(),
            s,
            mask,
            shard,
        )
    }
}

/// The payments depend on the command through its user and side only.
pub proof fn lemma_credits_same(
    a: OrderCommand,
    b: OrderCommand,
    events: Seq<MatcherTradeEvent>,
    s: CoreSymbolSpecification,
    mask: i64,
    shard: i64,
)
    requires
        a.uid == b.uid,
        a.action == b.action,
    ensures
        all_credits(a, events, s, mask, shard) == all_credits(b, events, s, mask, shard),
    decreases events.len(),
{
    if events.len() > 0 {
        lemma_credits_same(a, b, events.drop_first(), s, mask, shard);
    }
}

pub proof fn lemma_paid_concat(ledger: Ledger, a: Seq<Credit>, b: Seq<Credit>)
    ensures
        paid_all(ledger, a + b) == paid_all(paid_all(ledger, a), b),
        pay_fits(ledger, a + b) == (pay_fits(ledger, a) && pay_fits(paid_all(ledger, a), b)),
    decreases a.len(),
{
    if a.len() == 0 {
        assert(a + b =~= b);
    } else {
        assert((a + b)[0] == a[0]);
        assert((a + b).drop_first() =~= a.drop_first() + b);
        lemma_paid_concat(paid(ledger, a[0]), a.drop_first(), b);
    }
}

/// Post-trade settlement of a command: where it has events and its symbol
/// is known, every event is settled and the command succeeds.
pub open spec fn post_processed(m: RiskModel, c: OrderCommand, mask: i64, shard: i64) -> (
    Ledger,
    CommandResultCode,
) {
    if c.matcher_events@.len() == 0 || !m.symbols.contains_key(c.symbol) {
        (m.ledger, c.result_code)
    } else {
        (
            paid_all(
                m.ledger,
                all_credits(c, c.matcher_events@, m.symbols[c.symbol], mask, shard),
            ),
            CommandResultCode::Success,
        )
    }
}

/// Every balance that the post-trade stage writes is within 64 bits.
pub open spec fn post_fits(m: RiskModel, c: OrderCommand, mask: i64, shard: i64) -> bool {
    m.symbols.contains_key(c.symbol) ==> pay_fits(
        m.ledger,
        all_credits(c, c.matcher_events@, m.symbols[c.symbol], mask, shard),
    )
}

/// One shard of the risk engine: it reserves collateral before matching and
/// settles balances after, for the users whose id falls into the shard.
pub struct RiskEngine {
    pub shard_id: i64,
    pub shard_mask: i64,
    pub user_service: UserProfileService,
    pub symbols: ahash::AHashMap<SymbolId, CoreSymbolSpecification>,
}

impl View for RiskEngine {
    type V = RiskModel;

    open spec fn view(&self) -> RiskModel {
        RiskModel {
            ledger: self.user_service@,
            symbols: symbol_specs(self.symbols),
            positions: self.user_service.positions(),
        }
    }
}

impl Clone for RiskEngine {
    fn clone(&self) -> (e: Self)
        ensures
            e.shard_id == self.shard_id,
            e.shard_mask == self.shard_mask,
            self.wf() ==> e.wf() && e@ == self@,
    {
        RiskEngine {
            shard_id: self.shard_id,
            shard_mask: self.shard_mask,
            user_service: self.user_service.clone(),
            symbols: symbol_specs_clone(&self.symbols),
        }
    }
}

impl RiskEngine {
    pub open spec fn wf(&self) -> bool {
        self.user_service.wf()
    }

    /// This shard owns user `uid`.
    pub open spec fn owns(&self, uid: UserId) -> bool {
        owns_uid(self.shard_mask, self.shard_id, uid)
    }

    /// Shard `shard_id` of `num_shards`, a power of two.
    pub fn new(shard_id: usize, num_shards: usize) -> (e: Self)
        requires
            power_of_two(num_shards),
            0 < num_shards <= 0x4000_0000_0000_0000,
            shard_id < num_shards,
        ensures
            e.wf(),
            e.shard_id == shard_id,
            e.shard_mask == num_shards - 1,
            e@.ledger == Map::<UserId, Map<Currency, i64>>::empty(),
            e@.symbols == Map::<SymbolId, CoreSymbolSpecification>::empty(),
            e@.positions == Map::<UserId, Map<SymbolId, SymbolPositionRecord>>::empty(),
    {
        let e = RiskEngine {
            shard_id: shard_id as i64,
            shard_mask: (num_shards - 1) as i64,
            user_service: UserProfileService::new(),
            symbols: symbol_specs_new(),
        };
        proof {
            assert(e@.symbols =~= Map::<SymbolId, CoreSymbolSpecification>::empty());
        }
        e
    }

    pub fn uid_for_this_shard(&self, uid: UserId) -> (r: bool)
        ensures
            r == self.owns(uid),
    {
        self.shard_mask == 0 || (uid & self.shard_mask) == self.shard_id
    }

    pub fn add_symbol(&mut self, spec: CoreSymbolSpecification)
        ensures
            final(self)@.symbols == old(self)@.symbols.insert(spec.symbol_id, spec),
            final(self).user_service == old(self).user_service,
            final(self).shard_id == old(self).shard_id,
            final(self).shard_mask == old(self).shard_mask,
    {
        symbol_specs_insert(&mut self.symbols, spec.symbol_id, spec);
    }

    /// The collateral that the order needs, see [`hold_amount`].
    pub fn hold_for(cmd: &OrderCommand, spec: &CoreSymbolSpecification) -> (r: Amount)
        ensures
            stands_for(r, hold_amount(*cmd, *spec)),
    {
        match cmd.action {
            OrderAction::Bid => {
                let price: i64 = if cmd.order_type.budget() {
                    cmd.price
                } else {
                    cmd.reserve_price
                };
                product3_plus(cmd.size, price, spec.quote_scale_k, cmd.size, spec.taker_fee)
            },
            OrderAction::Ask => {
                proof {
                    lemma_product_bound(cmd.size as int, spec.base_scale_k as int);
                }
                Amount::Exact((cmd.size as i128) * (spec.base_scale_k as i128))
            },
        }
    }

    /// Pays `amount` to user `uid` in `currency` if the balance stays
    /// within 64 bits, and says whether it does. A payment to an unknown
    /// user is dropped.
    pub(crate) fn try_pay(&mut self, uid: UserId, currency: Currency, amount: Amount, Ghost(v): Ghost<int>) -> (ok:
        bool)
        requires
            old(self).wf(),
            stands_for(amount, v),
        ensures
            final(self).wf(),
            ok == (old(self)@.ledger.contains_key(uid) ==> credit_fits(
                old(self)@.ledger,
                uid,
                currency,
                v,
            )),
            final(self)@.ledger == if ok {
                paid(old(self)@.ledger, (Credit { uid, currency, amount: v }))
            } else {
                old(self)@.ledger
            },
            final(self)@.symbols == old(self)@.symbols,
            final(self)@.positions == old(self)@.positions,
            final(self).shard_id == old(self).shard_id,
            final(self).shard_mask == old(self).shard_mask,
    {
        if !self.user_service.has_user(uid) {
            return true;
        }
        let was: i64 = self.user_service.balance(uid, currency);
        match amount {
            Amount::Exact(a) => match (was as i128).checked_add(a) {
                Some(now) => {
                    if now < i64::MIN as i128 || now > i64::MAX as i128 {
                        false
                    } else {
                        self.user_service.set_balance(uid, currency, now as i64);
                        true
                    }
                },
                None => false,
            },
            _ => false,
        }
    }

    /// The pre-trade check of an order, see [`risk_checked`]: its result
    /// code, or nothing where the balance would leave the 64-bit range;
    /// then nothing is changed.
    pub fn try_risk_check(&mut self, cmd: &OrderCommand) -> (r: Option<CommandResultCode>)
        requires
            old(self).wf(),
        ensures
            final(self).wf(),
            r.is_some() == check_fits(old(self)@, *cmd),
            final(self)@.ledger == if r.is_some() {
                risk_checked(old(self)@, *cmd).0
            } else {
                old(self)@.ledger
            },
            r matches Some(code) ==> code == risk_checked(old(self)@, *cmd).1,
            final(self)@.symbols == old(self)@.symbols,
            final(self)@.positions == old(self)@.positions,
            final(self).shard_id == old(self).shard_id,
            final(self).shard_mask == old(self).shard_mask,
    {
        if !self.user_service.has_user(cmd.uid) {
            return Some(CommandResultCode::AuthInvalidUser);
        }
        let spec: CoreSymbolSpecification = match symbol_specs_get(&self.symbols, cmd.symbol) {
            Some(s) => s,
            None => {
                return Some(CommandResultCode::InvalidSymbol);
            },
        };
        let currency: Currency = match cmd.action {
            OrderAction::Bid => spec.quote_currency,
            OrderAction::Ask => spec.base_currency,
        };
        let hold: Amount = Self::hold_for(cmd, &spec);
        let balance: i64 = self.user_service.balance(cmd.uid, currency);
        match hold {
            Amount::Exact(h) => {
                if (balance as i128) >= h {
                    match (balance as i128).checked_sub(h) {
                        Some(now) => {
                            if now > i64::MAX as i128 {
                                None
                            } else {
                                self.user_service.set_balance(cmd.uid, currency, now as i64);
                                Some(CommandResultCode::ValidForMatchingEngine)
                            }
                        },
                        None => None,
                    }
                } else {
                    Some(CommandResultCode::RiskNsf)
                }
            },
            Amount::Above => Some(CommandResultCode::RiskNsf),
            Amount::Below => None,
        }
    }

    /// The pre-trade check of an order, see [`risk_checked`].
    pub fn place_order_risk_check(&mut self, cmd: &OrderCommand) -> (code: CommandResultCode)
        requires
            old(self).wf(),
            check_fits(old(self)@, *cmd),
        ensures
            final(self).wf(),
            final(self)@.ledger == risk_checked(old(self)@, *cmd).0,
            code == risk_checked(old(self)@, *cmd).1,
            final(self)@.symbols == old(self)@.symbols,
            final(self)@.positions == old(self)@.positions,
            final(self).shard_id == old(self).shard_id,
            final(self).shard_mask == old(self).shard_mask,
    {
        match self.try_risk_check(cmd) {
            Some(code) => code,
            None => CommandResultCode::RiskNsf,
        }
    }

    /// The pre-trade stage where every balance stays within 64 bits; says
    /// whether it did that. Where not, nothing is changed.
    pub fn try_pre_process(&mut self, cmd: &mut OrderCommand) -> (ok: bool)
        requires
            old(self).wf(),
        ensures
            final(self).wf(),
            ok == pre_fits(old(self)@, old(self).owns(old(cmd).uid), *old(cmd)),
            final(self)@.ledger == if ok {
                pre_processed(old(self)@, old(self).owns(old(cmd).uid), *old(cmd)).0
            } else {
                old(self)@.ledger
            },
            final(cmd).result_code == if ok {
                pre_processed(old(self)@, old(self).owns(old(cmd).uid), *old(cmd)).1
            } else {
                old(cmd).result_code
            },
            final(cmd).same_inputs(*old(cmd)),
            final(cmd).action == old(cmd).action,
            final(cmd).matcher_events == old(cmd).matcher_events,
            final(self)@.symbols == old(self)@.symbols,
            final(self)@.positions == if ok {
                pre_positions(old(self)@, old(self).owns(old(cmd).uid), *old(cmd))
            } else {
                old(self)@.positions
            },
            final(self).shard_id == old(self).shard_id,
            final(self).shard_mask == old(self).shard_mask,
    {
        if !self.uid_for_this_shard(cmd.uid) {
            return true;
        }
        match cmd.command {
            OrderCommandType::PlaceOrder => match self.try_risk_check(cmd) {
                Some(code) => {
                    cmd.result_code = code;
                    true
                },
                None => false,
            },
            OrderCommandType::AddUser => {
                cmd.result_code = if self.user_service.add_user(cmd.uid) {
                    CommandResultCode::Success
                } else {
                    CommandResultCode::UserMgmtUserAlreadyExists
                };
                true
            },
            OrderCommandType::BalanceAdjustment => {
                if self.user_service.has_user(cmd.uid) {
                    let ok: bool = self.try_pay(
                        cmd.uid,
                        cmd.symbol,
                        Amount::Exact(cmd.price as i128),
                        Ghost(cmd.price as int),
                    );
                    if ok {
                        cmd.result_code = CommandResultCode::Success;
                    }
                    ok
                } else {
                    cmd.result_code = CommandResultCode::AuthInvalidUser;
                    true
                }
            },
            _ => true,
        }
    }

    /// The pre-trade stage: reserves collateral for a new order, adds a
    /// user, or adjusts a balance, for the users of this shard.
    pub fn pre_process(&mut self, cmd: &mut OrderCommand)
        requires
            old(self).wf(),
            pre_fits(old(self)@, old(self).owns(old(cmd).uid), *old(cmd)),
        ensures
            final(self).wf(),
            final(self)@.ledger == pre_processed(
                old(self)@,
                old(self).owns(old(cmd).uid),
                *old(cmd),
            ).0,
            final(cmd).result_code == pre_processed(
                old(self)@,
                old(self).owns(old(cmd).uid),
                *old(cmd),
            ).1,
            final(cmd).same_inputs(*old(cmd)),
            final(cmd).action == old(cmd).action,
            final(cmd).matcher_events == old(cmd).matcher_events,
            final(self)@.symbols == old(self)@.symbols,
            final(self)@.positions == pre_positions(
                old(self)@,
                old(self).owns(old(cmd).uid),
                *old(cmd),
            ),
            final(self).shard_id == old(self).shard_id,
            final(self).shard_mask == old(self).shard_mask,
    {
        let _ = self.try_pre_process(cmd);
    }

    /// Pays the buyer of a trade, see [`buyer_credits`], as far as the
    /// balances stay within 64 bits, and says whether all did.
    pub fn try_pay_buyer(
        &mut self,
        uid: UserId,
        ev: &MatcherTradeEvent,
        spec: &CoreSymbolSpecification,
    ) -> (ok: bool)
        requires
            old(self).wf(),
        ensures
            final(self).wf(),
            ok == pay_fits(old(self)@.ledger, buyer_credits(uid, *ev, *spec)),
            ok ==> final(self)@.ledger == paid_all(
                old(self)@.ledger,
                buyer_credits(uid, *ev, *spec),
            ),
            final(self)@.symbols == old(self)@.symbols,
            final(self)@.positions == old(self)@.positions,
            final(self).shard_id == old(self).shard_id,
            final(self).shard_mask == old(self).shard_mask,
    {
        let ghost ks = buyer_credits(uid, *ev, *spec);
        proof {
            reveal_with_fuel(paid_all, 3);
            reveal_with_fuel(pay_fits, 3);
            assert(ks.drop_first()[0] == ks[1]);
            assert(ks.drop_first().drop_first() =~= Seq::<Credit>::empty());
            lemma_product_bound(ev.size as int, spec.base_scale_k as int);
        }
        let refund: Amount = spread3(ev.size, ev.bidder_hold_price, ev.price, spec.quote_scale_k);
        if !self.try_pay(uid, spec.quote_currency, refund, Ghost(ks[0].amount)) {
            return false;
        }
        let got: i128 = (ev.size as i128) * (spec.base_scale_k as i128);
        self.try_pay(uid, spec.base_currency, Amount::Exact(got), Ghost(ks[1].amount))
    }

    /// Pays the seller of a trade, see [`seller_credits`], if the balance
    /// stays within 64 bits, and says whether it did.
    pub fn try_pay_seller(
        &mut self,
        uid: UserId,
        ev: &MatcherTradeEvent,
        spec: &CoreSymbolSpecification,
        fee: i64,
    ) -> (ok: bool)
        requires
            old(self).wf(),
        ensures
            final(self).wf(),
            ok == pay_fits(old(self)@.ledger, seller_credits(uid, *ev, *spec, fee)),
            ok ==> final(self)@.ledger == paid_all(
                old(self)@.ledger,
                seller_credits(uid, *ev, *spec, fee),
            ),
            final(self)@.symbols == old(self)@.symbols,
            final(self)@.positions == old(self)@.positions,
            final(self).shard_id == old(self).shard_id,
            final(self).shard_mask == old(self).shard_mask,
    {
        let ghost ks = seller_credits(uid, *ev, *spec, fee);
        proof {
            reveal_with_fuel(paid_all, 2);
            reveal_with_fuel(pay_fits, 2);
            assert(ks.drop_first() =~= Seq::<Credit>::empty());
        }
        let amount: Amount = product3_minus(ev.size, ev.price, spec.quote_scale_k, ev.size, fee);
        self.try_pay(uid, spec.quote_currency, amount, Ghost(ks[0].amount))
    }

    /// Settles one event, see [`credits_of`], as far as the balances stay
    /// within 64 bits, and says whether all did.
    pub fn try_settle(
        &mut self,
        cmd: &OrderCommand,
        event: &MatcherTradeEvent,
        spec: &CoreSymbolSpecification,
        taker_sell: bool,
    ) -> (ok: bool)
        requires
            old(self).wf(),
            taker_sell == (cmd.action == OrderAction::Ask),
        ensures
            final(self).wf(),
            ok == pay_fits(
                old(self)@.ledger,
                credits_of(*cmd, *event, *spec, old(self).shard_mask, old(self).shard_id),
            ),
            ok ==> final(self)@.ledger == paid_all(
                old(self)@.ledger,
                credits_of(*cmd, *event, *spec, old(self).shard_mask, old(self).shard_id),
            ),
            final(self)@.symbols == old(self)@.symbols,
            final(self)@.positions == old(self)@.positions,
            final(self).shard_id == old(self).shard_id,
            final(self).shard_mask == old(self).shard_mask,
    {
        let ghost ledger = self@.ledger;
        match event.event_type {
            MatcherEventType::Trade => {
                let ghost first: Seq<Credit> = if self.owns(cmd.uid) {
                    if taker_sell {
                        seller_credits(cmd.uid, *event, *spec, spec.taker_fee)
                    } else {
                        buyer_credits(cmd.uid, *event, *spec)
                    }
                } else {
                    Seq::empty()
                };
                let ghost second: Seq<Credit> = if self.owns(event.matched_order_uid) {
                    if taker_sell {
                        buyer_credits(event.matched_order_uid, *event, *spec)
                    } else {
                        seller_credits(event.matched_order_uid, *event, *spec, spec.maker_fee)
                    }
                } else {
                    Seq::empty()
                };
                proof {
                    lemma_paid_concat(ledger, first, second);
                }
                if self.uid_for_this_shard(cmd.uid) {
                    let ok: bool = if taker_sell {
                        self.try_pay_seller(cmd.uid, event, spec, spec.taker_fee)
                    } else {
                        self.try_pay_buyer(cmd.uid, event, spec)
                    };
                    if !ok {
                        return false;
                    }
                }
                if self.uid_for_this_shard(event.matched_order_uid) {
                    if taker_sell {
                        self.try_pay_buyer(event.matched_order_uid, event, spec)
                    } else {
                        self.try_pay_seller(event.matched_order_uid, event, spec, spec.maker_fee)
                    }
                } else {
                    true
                }
            },
            _ => {
                if !self.uid_for_this_shard(cmd.uid) {
                    return true;
                }
                let ghost ks = refund_credits(cmd.uid, *event, *spec, taker_sell);
                proof {
                    reveal_with_fuel(paid_all, 2);
                    reveal_with_fuel(pay_fits, 2);
                    assert(ks.drop_first() =~= Seq::<Credit>::empty());
                    lemma_product_bound(event.size as int, spec.base_scale_k as int);
                }
                if taker_sell {
                    let refund: i128 = (event.size as i128) * (spec.base_scale_k as i128);
                    self.try_pay(
                        cmd.uid,
                        spec.base_currency,
                        Amount::Exact(refund),
                        Ghost(ks[0].amount),
                    )
                } else {
                    let refund: Amount = product3_plus(
                        event.size,
                        event.bidder_hold_price,
                        spec.quote_scale_k,
                        event.size,
                        spec.taker_fee,
                    );
                    self.try_pay(cmd.uid, spec.quote_currency, refund, Ghost(ks[0].amount))
                }
            },
        }
    }

    /// Settles one trade event: the taker first, then the maker, each if
    /// this shard owns it.
    pub fn handle_trade_event(
        &mut self,
        cmd: &OrderCommand,
        event: &MatcherTradeEvent,
        spec: &CoreSymbolSpecification,
        taker_sell: bool,
    )
        requires
            old(self).wf(),
            taker_sell == (cmd.action == OrderAction::Ask),
            event.event_type == MatcherEventType::Trade,
            pay_fits(
                old(self)@.ledger,
                credits_of(*cmd, *event, *spec, old(self).shard_mask, old(self).shard_id),
            ),
        ensures
            final(self).wf(),
            final(self)@.ledger == paid_all(
                old(self)@.ledger,
                credits_of(*cmd, *event, *spec, old(self).shard_mask, old(self).shard_id),
            ),
            final(self)@.symbols == old(self)@.symbols,
            final(self)@.positions == old(self)@.positions,
            final(self).shard_id == old(self).shard_id,
            final(self).shard_mask == old(self).shard_mask,
    {
        let _ = self.try_settle(cmd, event, spec, taker_sell);
    }

    /// Settles one reject or reduce event: the taker gets back the
    /// collateral that was held for the quantity.
    pub fn handle_reject_event(
        &mut self,
        cmd: &OrderCommand,
        event: &MatcherTradeEvent,
        spec: &CoreSymbolSpecification,
        taker_sell: bool,
    )
        requires
            old(self).wf(),
            taker_sell == (cmd.action == OrderAction::Ask),
            event.event_type != MatcherEventType::Trade,
            pay_fits(
                old(self)@.ledger,
                credits_of(*cmd, *event, *spec, old(self).shard_mask, old(self).shard_id),
            ),
        ensures
            final(self).wf(),
            final(self)@.ledger == paid_all(
                old(self)@.ledger,
                credits_of(*cmd, *event, *spec, old(self).shard_mask, old(self).shard_id),
            ),
            final(self)@.symbols == old(self)@.symbols,
            final(self)@.positions == old(self)@.positions,
            final(self).shard_id == old(self).shard_id,
            final(self).shard_mask == old(self).shard_mask,
    {
        let _ = self.try_settle(cmd, event, spec, taker_sell);
    }

    /// The post-trade stage as far as every balance stays within 64 bits;
    /// says whether all did. Where not, the events before the one that
    /// does not fit are settled, and the command is not marked as done.
    pub fn try_post_process(&mut self, cmd: &mut OrderCommand) -> (ok: bool)
        requires
            old(self).wf(),
        ensures
            final(self).wf(),
            ok == post_fits(old(self)@, *old(cmd), old(self).shard_mask, old(self).shard_id),
            ok ==> final(self)@.ledger == post_processed(
                old(self)@,
                *old(cmd),
                old(self).shard_mask,
                old(self).shard_id,
            ).0,
            final(cmd).result_code == if ok {
                post_processed(
                    old(self)@,
                    *old(cmd),
                    old(self).shard_mask,
                    old(self).shard_id,
                ).1
            } else {
                old(cmd).result_code
            },
            final(cmd).same_inputs(*old(cmd)),
            final(cmd).action == old(cmd).action,
            final(cmd).matcher_events == old(cmd).matcher_events,
            final(self)@.symbols == old(self)@.symbols,
            final(self)@.positions == old(self)@.positions,
            final(self).shard_id == old(self).shard_id,
            final(self).shard_mask == old(self).shard_mask,
    {
        let n: usize = cmd.matcher_events.len();
        let spec: CoreSymbolSpecification = match symbol_specs_get(&self.symbols, cmd.symbol) {
            Some(s) => s,
            None => {
                return true;
            },
        };
        if n == 0 {
            proof {
                reveal_with_fuel(pay_fits, 1);
            }
            return true;
        }
        let taker_sell: bool = match cmd.action {
            OrderAction::Ask => true,
            OrderAction::Bid => false,
        };
        let ghost events = cmd.matcher_events@;
        let ghost ledger0 = self@.ledger;
        let ghost mask = self.shard_mask;
        let ghost shard = self.shard_id;
        let mut i: usize = 0;
        proof {
            assert(events.subrange(0, n as int) =~= events);
        }
        while i < n
            invariant
                i <= n,
                n == events.len(),
                events == cmd.matcher_events@,
                *cmd == *old(cmd),
                taker_sell == (cmd.action == OrderAction::Ask),
                self.wf(),
                self@.symbols == old(self)@.symbols,
                self@.positions == old(self)@.positions,
                self.shard_id == shard,
                self.shard_mask == mask,
                shard == old(self).shard_id,
                mask == old(self).shard_mask,
                ledger0 == old(self)@.ledger,
                old(self)@.symbols.contains_key(cmd.symbol),
                spec == old(self)@.symbols[cmd.symbol],
                paid_all(ledger0, all_credits(*cmd, events, spec, mask, shard)) == paid_all(
                    self@.ledger,
                    all_credits(*cmd, events.subrange(i as int, n as int), spec, mask, shard),
                ),
                pay_fits(ledger0, all_credits(*cmd, events, spec, mask, shard)) == pay_fits(
                    self@.ledger,
                    all_credits(*cmd, events.subrange(i as int, n as int), spec, mask, shard),
                ),
            decreases n - i,
        {
            let event: MatcherTradeEvent = cmd.matcher_events[i];
            proof {
                let rest = events.subrange(i as int, n as int);
                assert(rest[0] == event);
                assert(rest.drop_first() =~= events.subrange(i + 1, n as int));
                lemma_paid_concat(
                    self@.ledger,
                    credits_of(*cmd, event, spec, mask, shard),
                    all_credits(*cmd, rest.drop_first(), spec, mask, shard),
                );
            }
            if !self.try_settle(cmd, &event, &spec, taker_sell) {
                return false;
            }
            i = i + 1;
        }
        proof {
            assert(events.subrange(n as int, n as int) =~= Seq::<MatcherTradeEvent>::empty());
        }
        cmd.result_code = CommandResultCode::Success;
        true
    }

    /// The post-trade stage: settles every event of the command, in order,
    /// and marks the command as done.
    pub fn post_process(&mut self, cmd: &mut OrderCommand)
        requires
            old(self).wf(),
            post_fits(old(self)@, *old(cmd), old(self).shard_mask, old(self).shard_id),
        ensures
            final(self).wf(),
            final(self)@.ledger == post_processed(
                old(self)@,
                *old(cmd),
                old(self).shard_mask,
                old(self).shard_id,
            ).0,
            final(cmd).result_code == post_processed(
                old(self)@,
                *old(cmd),
                old(self).shard_mask,
                old(self).shard_id,
            ).1,
            final(cmd).same_inputs(*old(cmd)),
            final(cmd).action == old(cmd).action,
            final(cmd).matcher_events == old(cmd).matcher_events,
            final(self)@.symbols == old(self)@.symbols,
            final(self)@.positions == old(self)@.positions,
            final(self).shard_id == old(self).shard_id,
            final(self).shard_mask == old(self).shard_mask,
    {
        let _ = self.try_post_process(cmd);
    }
}

} // verus!
