use crate::table::{distinct, lemma_lookup_found, lookup, Table};
use vstd::prelude::*;

verus! {

/// One of the two assets that a market trades against each other.
#[derive(Clone, Copy, Debug, PartialEq, Eq, Structural)]
pub enum Asset {
    /// The asset that is bought and sold.
    Base,
    /// The asset that prices are stated in.
    Quote,
}

/// What one user holds, free of any open order.
#[derive(Clone, Copy, Debug, PartialEq, Eq, Structural)]
pub struct UserBalance {
    /// Holdings of the base asset.
    pub base: u64,
    /// Holdings of the quote asset.
    pub quote: u64,
}

impl Default for UserBalance {
    fn default() -> (b: Self)
        ensures
            b@ == Holdings::zero(),
    {
        UserBalance { base: 0, quote: 0 }
    }
}

/// What one user holds, as a mathematical value.
pub struct Holdings {
    pub base: nat,
    pub quote: nat,
}

impl View for UserBalance {
    type V = Holdings;

    open spec fn view(&self) -> Holdings {
        Holdings { base: self.base as nat, quote: self.quote as nat }
    }
}

impl Holdings {
    /// Nothing of either asset.
    pub open spec fn zero() -> Holdings {
        Holdings { base: 0, quote: 0 }
    }

    /// The amount held of `asset`.
    pub open spec fn of(self, asset: Asset) -> nat {
        match asset {
            Asset::Base => self.base,
            Asset::Quote => self.quote,
        }
    }

    /// The holdings with `amount` more of `asset`.
    pub open spec fn plus(self, asset: Asset, amount: nat) -> Holdings {
        match asset {
            Asset::Base => Holdings { base: self.base + amount, ..self },
            Asset::Quote => Holdings { quote: self.quote + amount, ..self },
        }
    }

    /// The holdings with `amount` less of `asset`.
    pub open spec fn minus(self, asset: Asset, amount: nat) -> Holdings {
        match asset {
            Asset::Base => Holdings { base: (self.base - amount) as nat, ..self },
            Asset::Quote => Holdings { quote: (self.quote - amount) as nat, ..self },
        }
    }

    /// Whether both amounts can be held in 64 bits.
    pub open spec fn fits(self) -> bool {
        self.base <= u64::MAX && self.quote <= u64::MAX
    }
}

/// The accounts of a market as mathematical values, in the order they were opened.
pub struct LedgerView {
    pub users: Seq<Seq<char>>,
    pub holdings: Seq<Holdings>,
}

impl LedgerView {
    /// The ledger without accounts.
    pub open spec fn empty() -> LedgerView {
        LedgerView { users: Seq::empty(), holdings: Seq::empty() }
    }

    /// Every account has one owner and no user has two accounts.
    pub open spec fn wf(self) -> bool {
        &&& self.users.len() == self.holdings.len()
        &&& distinct(self.users)
    }

    /// Whether every amount can be held in 64 bits.
    pub open spec fn fits(self) -> bool {
        forall|i: int| 0 <= i < self.holdings.len() ==> (#[trigger] self.holdings[i]).fits()
    }

    /// What `user` holds; nothing, if `user` has no account.
    pub open spec fn holdings_of(self, user: Seq<char>) -> Holdings {
        match lookup(self.users, user) {
            Some(i) => self.holdings[i],
            None => Holdings::zero(),
        }
    }

    /// How much `user` holds of `asset`.
    pub open spec fn balance(self, user: Seq<char>, asset: Asset) -> nat {
        self.holdings_of(user).of(asset)
    }

    /// The ledger after `amount` of `asset` was added to what `user` holds. A user
    /// without an account gets one.
    pub open spec fn credit(self, user: Seq<char>, asset: Asset, amount: nat) -> LedgerView {
        match lookup(self.users, user) {
            Some(i) => LedgerView {
                holdings: self.holdings.update(i, self.holdings[i].plus(asset, amount)),
                ..self
            },
            None => LedgerView {
                users: self.users.push(user),
                holdings: self.holdings.push(Holdings::zero().plus(asset, amount)),
            },
        }
    }

    /// The ledger after `amount` of `asset` was taken from what `user` holds. A user
    /// without an account gets one.
    pub open spec fn debit(self, user: Seq<char>, asset: Asset, amount: nat) -> LedgerView {
        match lookup(self.users, user) {
            Some(i) => LedgerView {
                holdings: self.holdings.update(i, self.holdings[i].minus(asset, amount)),
                ..self
            },
            None => LedgerView {
                users: self.users.push(user),
                holdings: self.holdings.push(Holdings::zero().minus(asset, amount)),
            },
        }
    }

    /// Whether `later` holds every account of this ledger, at the same position and
    /// with at least as much of each asset.
    pub open spec fn grown_to(self, later: LedgerView) -> bool {
        &&& self.users.len() <= later.users.len()
        &&& self.holdings.len() <= later.holdings.len()
        &&& forall|i: int| 0 <= i < self.users.len() ==> self.users[i] == later.users[i]
        &&& forall|i: int|
            0 <= i < self.holdings.len() ==> {
                &&& (#[trigger] self.holdings[i]).base <= later.holdings[i].base
                &&& self.holdings[i].quote <= later.holdings[i].quote
            }
    }
}

/// A credit keeps the ledger well formed and takes nothing from anyone.
pub proof fn lemma_credit_grows(l: LedgerView, user: Seq<char>, asset: Asset, amount: nat)
    requires
        l.wf(),
    ensures
        l.credit(user, asset, amount).wf(),
        l.grown_to(l.credit(user, asset, amount)),
        l.credit(user, asset, amount).holdings_of(user) == l.holdings_of(user).plus(asset, amount),
        forall|other: Seq<char>|
            other != user ==> l.credit(user, asset, amount).holdings_of(other) == l.holdings_of(
                other,
            ),
{
    let c = l.credit(user, asset, amount);
    lemma_after_change(l, c, user);
}

/// A credit of more than 64 bits hold gives a ledger that does not fit.
pub proof fn lemma_credit_beyond(l: LedgerView, user: Seq<char>, asset: Asset, amount: nat)
    requires
        l.wf(),
        amount > u64::MAX,
    ensures
        !l.credit(user, asset, amount).fits(),
{
    let c = l.credit(user, asset, amount);
    match lookup(l.users, user) {
        Some(i) => {
            assert(!c.holdings[i].fits());
        },
        None => {
            assert(!c.holdings[l.holdings.len() as int].fits());
        },
    }
}

/// In a ledger that fits, every balance fits.
pub proof fn lemma_balance_fits(l: LedgerView, user: Seq<char>, asset: Asset)
    requires
        l.wf(),
        l.fits(),
    ensures
        l.balance(user, asset) <= u64::MAX,
{
    match lookup(l.users, user) {
        Some(i) => {
            assert(l.holdings[i].fits());
        },
        None => {},
    }
}

/// A debit of no more than is held keeps the ledger well formed.
pub proof fn lemma_debit_holds(l: LedgerView, user: Seq<char>, asset: Asset, amount: nat)
    requires
        l.wf(),
        amount <= l.balance(user, asset),
    ensures
        l.debit(user, asset, amount).wf(),
        l.fits() ==> l.debit(user, asset, amount).fits(),
        l.debit(user, asset, amount).holdings_of(user) == l.holdings_of(user).minus(asset, amount),
        forall|other: Seq<char>|
            other != user ==> l.debit(user, asset, amount).holdings_of(other) == l.holdings_of(
                other,
            ),
{
    let d = l.debit(user, asset, amount);
    lemma_after_change(l, d, user);
}

/// What holds of a ledger `c` that differs from `l` in the account of `user` only,
/// changed in place or appended.
proof fn lemma_after_change(l: LedgerView, c: LedgerView, user: Seq<char>)
    requires
        l.wf(),
        match lookup(l.users, user) {
            Some(i) => c.users == l.users && c.holdings == l.holdings.update(i, c.holdings[i]),
            None => c.users == l.users.push(user) && c.holdings == l.holdings.push(
                c.holdings[l.holdings.len() as int],
            ),
        },
    ensures
        c.wf(),
        lookup(c.users, user) is Some,
        match lookup(l.users, user) {
            Some(i) => lookup(c.users, user) == Some(i),
            None => lookup(c.users, user) == Some(l.users.len() as int),
        },
        forall|other: Seq<char>| other != user ==> c.holdings_of(other) == l.holdings_of(other),
{
    match lookup(l.users, user) {
        Some(i) => {
            assert forall|other: Seq<char>| other != user implies c.holdings_of(other)
                == l.holdings_of(other) by {
                match lookup(l.users, other) {
                    Some(j) => {
                        assert(j != i);
                    },
                    None => {},
                }
            }
        },
        None => {
            let n = l.users.len() as int;
            assert forall|a: int, b: int| 0 <= a < b < c.users.len() implies c.users[a]
                != c.users[b] by {
                if b == n {
                    if l.users[a] == user {
                        assert(lookup(l.users, user) is Some);
                    }
                }
            }
            assert(c.users[n] == user);
            lemma_lookup_found(c.users, user, n);
            assert forall|other: Seq<char>| other != user implies c.holdings_of(other)
                == l.holdings_of(other) by {
                if exists|j: int| 0 <= j < l.users.len() && l.users[j] == other {
                    let j = choose|j: int| 0 <= j < l.users.len() && l.users[j] == other;
                    assert(c.users[j] == other);
                    lemma_lookup_found(c.users, other, j);
                    lemma_lookup_found(l.users, other, j);
                } else {
                    if exists|j: int| 0 <= j < c.users.len() && c.users[j] == other {
                        let j = choose|j: int| 0 <= j < c.users.len() && c.users[j] == other;
                        assert(j < n);
                        assert(l.users[j] == other);
                    }
                }
            }
        },
    }
}

/// The accounts of a market: what each user holds of the two assets.
#[derive(Debug)]
pub struct Ledger {
    accounts: Table<UserBalance>,
}

impl View for Ledger {
    type V = LedgerView;

    closed spec fn view(&self) -> LedgerView {
        LedgerView {
            users: self.accounts.names(),
            holdings: self.accounts.values().map_values(|b: UserBalance| b@),
        }
    }
}

impl Ledger {
    /// No user has two accounts.
    pub open spec fn wf(&self) -> bool {
        self@.wf()
    }

    /// What a ledger holds always fits in 64 bits.
    pub proof fn lemma_fits(&self)
        ensures
            self@.fits(),
    {
    }

    /// A ledger without accounts.
    pub fn new() -> (ledger: Self)
        ensures
            ledger.wf(),
            ledger@ == LedgerView::empty(),
    {
        let ledger = Ledger { accounts: Table::new() };
        assert(ledger@.holdings =~= Seq::empty());
        ledger
    }

    /// How many accounts there are.
    pub fn len(&self) -> (n: usize)
        requires
            self.wf(),
        ensures
            n == self@.users.len(),
    {
        self.accounts.len()
    }

    /// The owner and the holdings of the account at position `i`.
    pub fn account_at(&self, i: usize) -> (r: (&String, UserBalance))
        requires
            self.wf(),
            i < self@.users.len(),
        ensures
            r.0@ == self@.users[i as int],
            r.1@ == self@.holdings[i as int],
    {
        (self.accounts.name(i), *self.accounts.get(i))
    }

    /// What `user` holds; nothing, if `user` has no account.
    pub fn balance_of(&self, user: &str) -> (b: UserBalance)
        requires
            self.wf(),
        ensures
            b@ == self@.holdings_of(user@),
    {
        let name = user.to_owned();
        match self.accounts.find(&name) {
            Some(i) => *self.accounts.get(i),
            None => UserBalance { base: 0, quote: 0 },
        }
    }

    /// Adds `amount` of `asset` to what `user` holds, opening an account if there is
    /// none. Where the sum does not fit in 64 bits, nothing changes and the result is
    /// `false`.
    pub fn credit(&mut self, user: &String, asset: Asset, amount: u64) -> (ok: bool)
        requires
            old(self).wf(),
        ensures
            final(self).wf(),
            ok == old(self)@.credit(user@, asset, amount as nat).fits(),
            ok ==> final(self)@ == old(self)@.credit(user@, asset, amount as nat),
            !ok ==> final(self)@ == old(self)@,
    {
        let ghost before = self@;
        let ghost target = before.credit(user@, asset, amount as nat);
        proof {
            lemma_credit_grows(before, user@, asset, amount as nat);
        }
        match self.accounts.find(user) {
            Some(i) => {
                let held = *self.accounts.get(i);
                let sum = match asset {
                    Asset::Base => held.base.checked_add(amount),
                    Asset::Quote => held.quote.checked_add(amount),
                };
                match sum {
                    Some(total) => {
                        let slot = self.accounts.get_mut(i);
                        *slot = match asset {
                            Asset::Base => UserBalance { base: total, quote: held.quote },
                            Asset::Quote => UserBalance { base: held.base, quote: total },
                        };
                        assert(self@.holdings =~= target.holdings);
                        true
                    },
                    None => {
                        assert(!target.holdings[i as int].fits());
                        false
                    },
                }
            },
            None => {
                let opened = match asset {
                    Asset::Base => UserBalance { base: amount, quote: 0 },
                    Asset::Quote => UserBalance { base: 0, quote: amount },
                };
                self.accounts.push(user.clone(), opened);
                assert(self@.holdings =~= target.holdings);
                true
            },
        }
    }

    /// Takes `amount` of `asset` from what `user` holds, opening an account if there
    /// is none. Where `user` holds less, nothing changes and the result is `false`.
    pub fn debit(&mut self, user: &String, asset: Asset, amount: u64) -> (ok: bool)
        requires
            old(self).wf(),
        ensures
            final(self).wf(),
            ok == (amount <= old(self)@.balance(user@, asset)),
            ok ==> final(self)@ == old(self)@.debit(user@, asset, amount as nat),
            !ok ==> final(self)@ == old(self)@,
    {
        let ghost before = self@;
        let ghost target = before.debit(user@, asset, amount as nat);
        match self.accounts.find(user) {
            Some(i) => {
                let held = *self.accounts.get(i);
                let left = match asset {
                    Asset::Base => held.base.checked_sub(amount),
                    Asset::Quote => held.quote.checked_sub(amount),
                };
                match left {
                    Some(rest) => {
                        proof {
                            lemma_debit_holds(before, user@, asset, amount as nat);
                        }
                        let slot = self.accounts.get_mut(i);
                        *slot = match asset {
                            Asset::Base => UserBalance { base: rest, quote: held.quote },
                            Asset::Quote => UserBalance { base: held.base, quote: rest },
                        };
                        assert(self@.holdings =~= target.holdings);
                        true
                    },
                    None => false,
                }
            },
            None => {
                if amount == 0 {
                    proof {
                        lemma_debit_holds(before, user@, asset, amount as nat);
                    }
                    self.accounts.push(user.clone(), UserBalance { base: 0, quote: 0 });
                    assert(self@.holdings =~= target.holdings);
                    true
                } else {
                    false
                }
            },
        }
    }
}

impl Clone for Ledger {
    fn clone(&self) -> (copy: Self)
        ensures
            copy@ == self@,
    {
        Ledger { accounts: self.accounts.clone() }
    }
}

} // verus!
