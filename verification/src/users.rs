use crate::api::types::{CommandResultCode, Currency, SymbolId, UserId};
use crate::orderbook::index::{
    handles, handles_clone, handles_get, handles_insert, handles_new,
};
use vstd::prelude::*;

verus! {

/// A user's position in one symbol. The spot path records positions and does
/// not change them.
#[derive(Debug, Clone, Copy, PartialEq, Eq, Structural)]
pub struct SymbolPositionRecord {
    pub uid: UserId,
    pub symbol: SymbolId,
    pub currency: Currency,
    pub direction: i32,
    pub open_volume_long: i64,
    pub open_volume_short: i64,
    pub open_price_long: i64,
    pub open_price_short: i64,
    pub profit: i64,
    pub pending_buy_size: i64,
    pub pending_sell_size: i64,
}

impl SymbolPositionRecord {
    /// Nothing is open and nothing is pending.
    pub open spec fn flat(self) -> bool {
        self.open_volume_long == 0 && self.open_volume_short == 0 && self.pending_buy_size == 0
            && self.pending_sell_size == 0
    }

    pub fn new(uid: UserId, symbol: SymbolId, currency: Currency) -> (r: Self)
        ensures
            r == (SymbolPositionRecord {
                uid,
                symbol,
                currency,
                direction: 0,
                open_volume_long: 0,
                open_volume_short: 0,
                open_price_long: 0,
                open_price_short: 0,
                profit: 0,
                pending_buy_size: 0,
                pending_sell_size: 0,
            }),
            r.flat(),
    {
        SymbolPositionRecord {
            uid,
            symbol,
            currency,
            direction: 0,
            open_volume_long: 0,
            open_volume_short: 0,
            open_price_long: 0,
            open_price_short: 0,
            profit: 0,
            pending_buy_size: 0,
            pending_sell_size: 0,
        }
    }

    pub fn is_empty(&self) -> (r: bool)
        ensures
            r == self.flat(),
    {
        self.open_volume_long == 0 && self.open_volume_short == 0 && self.pending_buy_size == 0
            && self.pending_sell_size == 0
    }
}

/// What an account map holds: the balance of each currency that it names.
pub uninterp spec fn balances(m: ahash::AHashMap<Currency, i64>) -> Map<Currency, i64>;

/// `AHashMap::new`: a map without entries.
#[verifier::external_body]
pub(crate) fn balances_new() -> (m: ahash::AHashMap<Currency, i64>)
    ensures
        balances(m).dom().is_empty(),
{
    ahash::AHashMap::new()
}

/// `AHashMap::get`: the balance kept under `currency`, if there is one.
#[verifier::external_body]
pub(crate) fn balances_get(m: &ahash::AHashMap<Currency, i64>, currency: Currency) -> (r: Option<
    i64,
>)
    ensures
        r == if balances(*m).contains_key(currency) {
            Some(balances(*m)[currency])
        } else {
            None
        },
{
    m.get(&currency).copied()
}

/// `AHashMap::insert`: `currency` is then kept with `amount`, the other
/// entries stay.
#[verifier::external_body]
pub(crate) fn balances_insert(m: &mut ahash::AHashMap<Currency, i64>, currency: Currency, amount: i64)
    ensures
        balances(*final(m)) == balances(*old(m)).insert(currency, amount),
{
    m.insert(currency, amount);
}

/// `Clone` of an `AHashMap`: a map of the same entries.
#[verifier::external_body]
pub(crate) fn balances_clone(m: &ahash::AHashMap<Currency, i64>) -> (c: ahash::AHashMap<
    Currency,
    i64,
>)
    ensures
        balances(c) == balances(*m),
{
    m.clone()
}

/// What a position map holds.
pub uninterp spec fn positions_of(m: ahash::AHashMap<SymbolId, SymbolPositionRecord>) -> Map<
    SymbolId,
    SymbolPositionRecord,
>;

/// `AHashMap::new`: a map without entries.
#[verifier::external_body]
pub(crate) fn positions_new() -> (m: ahash::AHashMap<SymbolId, SymbolPositionRecord>)
    ensures
        positions_of(m).dom().is_empty(),
{
    ahash::AHashMap::new()
}

/// `Clone` of an `AHashMap`: a map of the same entries.
#[verifier::external_body]
pub(crate) fn positions_clone(m: &ahash::AHashMap<SymbolId, SymbolPositionRecord>) -> (c:
    ahash::AHashMap<SymbolId, SymbolPositionRecord>)
    ensures
        positions_of(c) == positions_of(*m),
{
    m.clone()
}

/// One user: balances by currency and positions by symbol.
pub struct UserProfile {
    pub uid: UserId,
    pub accounts: ahash::AHashMap<Currency, i64>,
    pub positions: ahash::AHashMap<SymbolId, SymbolPositionRecord>,
}

/// The balance that an account map gives for `currency`: zero where it does
/// not name it.
pub open spec fn balance_in(accounts: Map<Currency, i64>, currency: Currency) -> int {
    if accounts.contains_key(currency) {
        accounts[currency] as int
    } else {
        0
    }
}

impl Clone for UserProfile {
    fn clone(&self) -> (p: Self)
        ensures
            p.uid == self.uid,
            balances(p.accounts) == balances(self.accounts),
            positions_of(p.positions) == positions_of(self.positions),
    {
        UserProfile {
            uid: self.uid,
            accounts: balances_clone(&self.accounts),
            positions: positions_clone(&self.positions),
        }
    }
}

impl UserProfile {
    pub fn new(uid: UserId) -> (p: Self)
        ensures
            p.uid == uid,
            balances(p.accounts).dom().is_empty(),
            positions_of(p.positions).dom().is_empty(),
    {
        UserProfile { uid, accounts: balances_new(), positions: positions_new() }
    }

    /// The balance in `currency`; zero where the profile has no account in
    /// it.
    pub fn balance(&self, currency: Currency) -> (r: i64)
        ensures
            r == balance_in(balances(self.accounts), currency),
    {
        match balances_get(&self.accounts, currency) {
            Some(b) => b,
            None => 0,
        }
    }
}

/// All balances: for each user the balance of each currency that the user
/// has an account in.
pub type Ledger = Map<UserId, Map<Currency, i64>>;

/// The balance of `uid` in `currency`.
pub open spec fn balance_of(ledger: Ledger, uid: UserId, currency: Currency) -> int {
    balance_in(ledger[uid], currency)
}

/// The ledger after `amount` was added to the balance of `uid` in
/// `currency`. The account is opened if it was not there.
pub open spec fn credited(ledger: Ledger, uid: UserId, currency: Currency, amount: int) -> Ledger {
    ledger.insert(
        uid,
        ledger[uid].insert(currency, (balance_of(ledger, uid, currency) + amount) as i64),
    )
}

/// The balance after a credit is within 64 bits.
pub open spec fn credit_fits(ledger: Ledger, uid: UserId, currency: Currency, amount: int) -> bool {
    i64::MIN <= balance_of(ledger, uid, currency) + amount <= i64::MAX
}

/// All positions: for each user the position in each symbol that the user
/// has one in.
pub type Positions = Map<UserId, Map<SymbolId, SymbolPositionRecord>>;

/// The users of one shard.
pub struct UserProfileService {
    pub profiles: Vec<UserProfile>,
    /// Position of each user's profile in `profiles`.
    pub index: ahash::AHashMap<UserId, usize>,
}

impl View for UserProfileService {
    type V = Ledger;

    open spec fn view(&self) -> Ledger {
        Map::new(
            |uid: UserId| handles(self.index).contains_key(uid),
            |uid: UserId| balances(self.profiles@[handles(self.index)[uid] as int].accounts),
        )
    }
}

impl Clone for UserProfileService {
    fn clone(&self) -> (s: Self)
        ensures
            self.wf() ==> s.wf() && s@ == self@ && s.positions() == self.positions(),
    {
        let n: usize = self.profiles.len();
        let mut profiles: Vec<UserProfile> = Vec::new();
        let mut i: usize = 0;
        while i < n
            invariant
                i <= n,
                n == self.profiles@.len(),
                profiles@.len() == i,
                forall|k: int|
                    0 <= k < i ==> (#[trigger] profiles@[k]).uid == self.profiles@[k].uid
                        && balances(profiles@[k].accounts) == balances(
                        self.profiles@[k].accounts,
                    ) && positions_of(profiles@[k].positions) == positions_of(
                        self.profiles@[k].positions,
                    ),
            decreases n - i,
        {
            profiles.push(self.profiles[i].clone());
            i = i + 1;
        }
        let s = UserProfileService { profiles, index: handles_clone(&self.index) };
        proof {
            if self.wf() {
                assert(s@ =~= self@);
                assert(s.positions() =~= self.positions());
            }
        }
        s
    }
}

impl UserProfileService {
    /// The index names each profile under its user id, and nothing else.
    pub open spec fn wf(&self) -> bool {
        &&& forall|uid: UserId|
            handles(self.index).contains_key(uid) ==> (#[trigger] handles(self.index)[uid])
                < self.profiles@.len() && self.profiles@[handles(self.index)[uid] as int].uid
                == uid
        &&& forall|i: int|
            0 <= i < self.profiles@.len() ==> handles(self.index).contains_key(
                (#[trigger] self.profiles@[i]).uid,
            ) && handles(self.index)[self.profiles@[i].uid] == i
    }

    /// The positions of every user. The spot path opens none and changes
    /// none.
    pub open spec fn positions(&self) -> Positions {
        Map::new(
            |uid: UserId| handles(self.index).contains_key(uid),
            |uid: UserId| positions_of(self.profiles@[handles(self.index)[uid] as int].positions),
        )
    }

    pub fn new() -> (s: Self)
        ensures
            s.wf(),
            s@ == Map::<UserId, Map<Currency, i64>>::empty(),
            s.positions() == Map::<UserId, Map<SymbolId, SymbolPositionRecord>>::empty(),
    {
        let s = UserProfileService { profiles: Vec::new(), index: handles_new() };
        proof {
            assert forall|uid: UserId| !handles(s.index).contains_key(uid) by {
                assert(!handles(s.index).dom().contains(uid));
            }
            assert(s@ =~= Map::<UserId, Map<Currency, i64>>::empty());
            assert(s.positions() =~= Map::<UserId, Map<SymbolId, SymbolPositionRecord>>::empty());
        }
        s
    }

    /// Adds a user without accounts. Says whether the user was new.
    pub fn add_user(&mut self, uid: UserId) -> (added: bool)
        requires
            old(self).wf(),
        ensures
            final(self).wf(),
            added == !old(self)@.contains_key(uid),
            added ==> final(self)@ == old(self)@.insert(uid, Map::empty()),
            added ==> final(self).positions() == old(self).positions().insert(uid, Map::empty()),
            !added ==> final(self)@ == old(self)@ && final(self).positions() == old(
                self,
            ).positions(),
    {
        match handles_get(&self.index, uid) {
            Some(_) => false,
            None => {
                let n: usize = self.profiles.len();
                let p = UserProfile::new(uid);
                self.profiles.push(p);
                handles_insert(&mut self.index, uid, n);
                proof {
                    assert forall|i: int| 0 <= i < n implies (#[trigger] self.profiles@[i]).uid
                        != uid by {
                        assert(self.profiles@[i] == old(self).profiles@[i]);
                    }
                    assert(balances(self.profiles@[n as int].accounts) =~= Map::<
                        Currency,
                        i64,
                    >::empty());
                    assert forall|x: UserId| self@.contains_key(x) implies #[trigger] self@[x]
                        == old(self)@.insert(uid, Map::empty())[x] by {
                        if x != uid {
                            assert(self.profiles@[handles(self.index)[x] as int] == old(
                                self,
                            ).profiles@[handles(old(self).index)[x] as int]);
                        }
                    }
                    assert(self@ =~= old(self)@.insert(uid, Map::empty()));
                    assert(positions_of(self.profiles@[n as int].positions) =~= Map::<
                        SymbolId,
                        SymbolPositionRecord,
                    >::empty());
                    assert forall|x: UserId| self.positions().contains_key(x) implies #[trigger] self.positions()[x]
                        == old(self).positions().insert(uid, Map::empty())[x] by {
                        if x != uid {
                            assert(self.profiles@[handles(self.index)[x] as int] == old(
                                self,
                            ).profiles@[handles(old(self).index)[x] as int]);
                        }
                    }
                    assert(self.positions() =~= old(self).positions().insert(uid, Map::empty()));
                }
                true
            },
        }
    }

    /// The profile of `uid`, if there is one.
    pub fn get_user(&self, uid: UserId) -> (r: Option<&UserProfile>)
        requires
            self.wf(),
        ensures
            match r {
                Some(p) => self@.contains_key(uid) && p.uid == uid && balances(p.accounts)
                    == self@[uid] && positions_of(p.positions) == self.positions()[uid],
                None => !self@.contains_key(uid),
            },
    {
        match handles_get(&self.index, uid) {
            Some(i) => Some(&self.profiles[i]),
            None => None,
        }
    }

    /// The profile of `uid`, to be changed in place, if there is one. Who
    /// changes it keeps its user id as it is.
    pub fn get_user_mut(&mut self, uid: UserId) -> (r: Option<&mut UserProfile>)
        requires
            old(self).wf(),
        ensures
            match r {
                Some(p) => {
                    &&& old(self)@.contains_key(uid)
                    &&& p.uid == uid
                    &&& balances(p.accounts) == old(self)@[uid]
                    &&& positions_of(p.positions) == old(self).positions()[uid]
                    &&& final(self).index == old(self).index
                    &&& final(self).profiles@ == old(self).profiles@.update(
                        handles(old(self).index)[uid] as int,
                        *final(p),
                    )
                },
                None => !old(self)@.contains_key(uid) && *final(self) == *old(self),
            },
    {
        match handles_get(&self.index, uid) {
            Some(i) => Some(&mut self.profiles[i]),
            None => None,
        }
    }

    /// Whether `uid` is a user.
    pub fn has_user(&self, uid: UserId) -> (r: bool)
        ensures
            r == self@.contains_key(uid),
    {
        handles_get(&self.index, uid).is_some()
    }

    /// The balance of `uid` in `currency`; zero for an unknown user.
    pub fn balance(&self, uid: UserId, currency: Currency) -> (r: i64)
        requires
            self.wf(),
        ensures
            self@.contains_key(uid) ==> r == balance_of(self@, uid, currency),
            !self@.contains_key(uid) ==> r == 0,
    {
        match handles_get(&self.index, uid) {
            Some(i) => self.profiles[i].balance(currency),
            None => 0,
        }
    }

    /// Sets the balance of user `uid` in `currency`.
    pub fn set_balance(&mut self, uid: UserId, currency: Currency, value: i64)
        requires
            old(self).wf(),
            old(self)@.contains_key(uid),
        ensures
            final(self).wf(),
            final(self)@ == old(self)@.insert(uid, old(self)@[uid].insert(currency, value)),
            final(self).positions() == old(self).positions(),
    {
        let i: usize = handles_get(&self.index, uid).unwrap();
        balances_insert(&mut self.profiles[i].accounts, currency, value);
        proof {
            assert forall|k: int| 0 <= k < self.profiles@.len() implies (
            #[trigger] self.profiles@[k]).uid == old(self).profiles@[k].uid by {}
            let goal = old(self)@.insert(uid, old(self)@[uid].insert(currency, value));
            assert forall|x: UserId| self@.contains_key(x) implies #[trigger] self@[x]
                == goal[x] by {
                if x != uid {
                    assert(handles(self.index)[x] != i);
                }
            }
            assert(self@ =~= goal);
            assert(self.positions() =~= old(self).positions());
        }
    }

    /// Adds `amount` to the balance of user `uid` in `currency`.
    pub fn credit(&mut self, uid: UserId, currency: Currency, amount: i64)
        requires
            old(self).wf(),
            old(self)@.contains_key(uid),
            credit_fits(old(self)@, uid, currency, amount as int),
        ensures
            final(self).wf(),
            final(self)@ == credited(old(self)@, uid, currency, amount as int),
            final(self).positions() == old(self).positions(),
    {
        let was: i64 = self.balance(uid, currency);
        self.set_balance(uid, currency, was + amount);
    }

    /// Adds `amount` to the balance of `uid` in `currency`; an unknown user
    /// is refused.
    pub fn balance_adjustment(
        &mut self,
        uid: UserId,
        currency: Currency,
        amount: i64,
        _transaction_id: i64,
    ) -> (code: CommandResultCode)
        requires
            old(self).wf(),
            old(self)@.contains_key(uid) ==> credit_fits(old(self)@, uid, currency, amount as int),
        ensures
            final(self).wf(),
            code == if old(self)@.contains_key(uid) {
                CommandResultCode::Success
            } else {
                CommandResultCode::AuthInvalidUser
            },
            final(self)@ == if old(self)@.contains_key(uid) {
                credited(old(self)@, uid, currency, amount as int)
            } else {
                old(self)@
            },
            final(self).positions() == old(self).positions(),
    {
        if self.has_user(uid) {
            self.credit(uid, currency, amount);
            CommandResultCode::Success
        } else {
            CommandResultCode::AuthInvalidUser
        }
    }
}

} // verus!
