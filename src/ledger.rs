use vstd::prelude::*;
use crate::accounts::{Account, AccountId};
use crate::ident::hyphenated_form;
use crate::error::{NeuroError, NeuroResult};
use crate::token::{TokenMeta, TokenSupply};

verus! {

/// A registered token: how it is described, and how much of it exists.
#[derive(Debug, Clone)]
pub struct TokenRecord {
    pub meta: TokenMeta,
    pub supply: TokenSupply,
}

/// A request to move `amount` of `symbol` from one account to another.
#[derive(Debug, Clone)]
pub struct TransferRequest {
    pub from: AccountId,
    pub to: AccountId,
    pub amount: u128,
    pub symbol: String,
}

impl TransferRequest {
    pub fn new(from: AccountId, to: AccountId, amount: u128, symbol: String) -> (r: Self)
        ensures
            r.from == from,
            r.to == to,
            r.amount == amount,
            r.symbol == symbol,
    {
        Self { from, to, amount, symbol }
    }
}

/// What the accounts of `accts` hold of `s`, added up.
pub open spec fn total_held(accts: Seq<Account>, s: Seq<char>) -> nat
    decreases accts.len(),
{
    if accts.len() == 0 {
        0
    } else {
        total_held(accts.drop_last(), s) + accts.last().balance(s)
    }
}

/// Replacing one account changes the total by the change in its balance.
pub proof fn lemma_total_update(accts: Seq<Account>, i: int, a: Account, s: Seq<char>)
    requires
        0 <= i < accts.len(),
    ensures
        total_held(accts.update(i, a), s) + accts[i].balance(s) == total_held(accts, s) + a.balance(s),
    decreases accts.len(),
{
    let upd = accts.update(i, a);
    if i == accts.len() - 1 {
        assert(upd.drop_last() =~= accts.drop_last());
    } else {
        lemma_total_update(accts.drop_last(), i, a, s);
        assert(upd.drop_last() =~= accts.drop_last().update(i, a));
    }
}

/// No account holds more than the total.
pub proof fn lemma_total_bounds(accts: Seq<Account>, i: int, s: Seq<char>)
    requires
        0 <= i < accts.len(),
    ensures
        accts[i].balance(s) <= total_held(accts, s),
    decreases accts.len(),
{
    if i < accts.len() - 1 {
        lemma_total_bounds(accts.drop_last(), i, s);
    }
}

/// An account that holds nothing adds nothing to the total.
pub proof fn lemma_total_push_empty(accts: Seq<Account>, a: Account, s: Seq<char>)
    requires
        a.balances@.len() == 0,
    ensures
        total_held(accts.push(a), s) == total_held(accts, s),
{
    assert(accts.push(a).drop_last() =~= accts);
    assert(!a.holds(s));
}

/// Accounts and registered tokens, kept so that every token's supply is
/// what the accounts hold of it.
pub struct Ledger {
    accounts: Vec<Account>,
    tokens: Vec<TokenRecord>,
}

impl Ledger {
    pub closed spec fn has_account(&self, id: Seq<char>) -> bool {
        exists|i: int| 0 <= i < self.accounts@.len() && #[trigger] self.accounts@[i].id@ == id
    }

    pub closed spec fn account_index(&self, id: Seq<char>) -> int {
        choose|i: int| 0 <= i < self.accounts@.len() && #[trigger] self.accounts@[i].id@ == id
    }

    /// The account with id `id` (meaningful when `has_account(id)`).
    pub closed spec fn account(&self, id: Seq<char>) -> Account {
        self.accounts@[self.account_index(id)]
    }

    /// What account `id` holds of `s`; zero for an unknown account.
    pub closed spec fn balance(&self, id: Seq<char>, s: Seq<char>) -> nat {
        if self.has_account(id) {
            self.account(id).balance(s)
        } else {
            0
        }
    }

    /// Account `id` exists and has an entry for `s`.
    pub closed spec fn holds(&self, id: Seq<char>, s: Seq<char>) -> bool {
        self.has_account(id) && self.account(id).holds(s)
    }

    pub closed spec fn has_token(&self, s: Seq<char>) -> bool {
        exists|k: int| 0 <= k < self.tokens@.len() && #[trigger] self.tokens@[k].meta.symbol@ == s
    }

    pub closed spec fn token_index(&self, s: Seq<char>) -> int {
        choose|k: int| 0 <= k < self.tokens@.len() && #[trigger] self.tokens@[k].meta.symbol@ == s
    }

    /// How token `s` is described (meaningful when `has_token(s)`).
    pub closed spec fn meta(&self, s: Seq<char>) -> TokenMeta {
        self.tokens@[self.token_index(s)].meta
    }

    /// The supply of `s`; zero for an unregistered symbol.
    pub closed spec fn supply(&self, s: Seq<char>) -> nat {
        if self.has_token(s) {
            self.tokens@[self.token_index(s)].supply.total as nat
        } else {
            0
        }
    }

    /// What all accounts together hold of `s`.
    pub closed spec fn circulating(&self, s: Seq<char>) -> nat {
        total_held(self.accounts@, s)
    }

    /// `meta` names a registered symbol that is described otherwise.
    pub open spec fn conflicts(&self, meta: TokenMeta) -> bool {
        self.has_token(meta.symbol@) && !(self.meta(meta.symbol@).decimals == meta.decimals
            && self.meta(meta.symbol@).name@ == meta.name@)
    }

    /// Ids unique, symbols unique, each account well formed, every entry of
    /// a registered symbol, and every supply equal to what is held of it.
    pub closed spec fn wf(&self) -> bool {
        &&& self.accounts_wf()
        &&& forall|k: int, l: int|
            0 <= k < l < self.tokens@.len() ==> #[trigger] self.tokens@[k].meta.symbol@
                != #[trigger] self.tokens@[l].meta.symbol@
        &&& forall|i: int, s: Seq<char>|
            0 <= i < self.accounts@.len() && #[trigger] self.accounts@[i].holds(s)
                ==> self.has_token(s)
        &&& forall|s: Seq<char>| #[trigger] self.supply(s) == self.circulating(s)
    }

    /// Account ids unique, each account well formed.
    pub closed spec fn accounts_wf(&self) -> bool {
        &&& forall|i: int, j: int|
            0 <= i < j < self.accounts@.len() ==> #[trigger] self.accounts@[i].id@
                != #[trigger] self.accounts@[j].id@
        &&& forall|i: int| 0 <= i < self.accounts@.len() ==> #[trigger] self.accounts@[i].wf()
    }

    /// The same accounts exist in both.
    pub open spec fn same_accounts(&self, other: &Ledger) -> bool {
        forall|a: Seq<char>| #[trigger] self.has_account(a) == other.has_account(a)
    }

    /// The same tokens are registered in both, with the same descriptions,
    /// but perhaps for `s`.
    pub open spec fn same_tokens_but(&self, other: &Ledger, s: Seq<char>) -> bool {
        forall|t: Seq<char>|
            t != s ==> (#[trigger] self.has_token(t) == other.has_token(t) && (self.has_token(t)
                ==> self.meta(t).same_as(&other.meta(t))))
    }

    proof fn lemma_account_at(&self, i: int)
        requires
            self.accounts_wf(),
            0 <= i < self.accounts@.len(),
        ensures
            self.has_account(self.accounts@[i].id@),
            self.account_index(self.accounts@[i].id@) == i,
    {
        let a = self.accounts@[i].id@;
        assert(self.accounts@[i].id@ == a);
        let j = self.account_index(a);
        if j != i {
            if j < i {
                assert(self.accounts@[j].id@ != self.accounts@[i].id@);
            } else {
                assert(self.accounts@[i].id@ != self.accounts@[j].id@);
            }
        }
    }

    proof fn lemma_token_at(&self, k: int)
        requires
            self.wf(),
            0 <= k < self.tokens@.len(),
        ensures
            self.has_token(self.tokens@[k].meta.symbol@),
            self.token_index(self.tokens@[k].meta.symbol@) == k,
            self.supply(self.tokens@[k].meta.symbol@) == self.tokens@[k].supply.total,
    {
        let s = self.tokens@[k].meta.symbol@;
        assert(self.tokens@[k].meta.symbol@ == s);
        let l = self.token_index(s);
        if l != k {
            if l < k {
                assert(self.tokens@[l].meta.symbol@ != self.tokens@[k].meta.symbol@);
            } else {
                assert(self.tokens@[k].meta.symbol@ != self.tokens@[l].meta.symbol@);
            }
        }
    }

    pub fn new() -> (r: Self)
        ensures
            r.wf(),
            forall|a: Seq<char>| !(#[trigger] r.has_account(a)),
            forall|s: Seq<char>| !(#[trigger] r.has_token(s)) && r.supply(s) == 0,
            forall|a: Seq<char>, s: Seq<char>| #[trigger] r.balance(a, s) == 0 && !r.holds(a, s),
    {
        let r = Ledger { accounts: Vec::new(), tokens: Vec::new() };
        assert forall|s: Seq<char>| #[trigger] r.supply(s) == r.circulating(s) by {
            assert(total_held(r.accounts@, s) == 0);
        }
        r
    }

    fn find_account(&self, id: &str) -> (r: Option<usize>)
        requires
            self.wf(),
        ensures
            (r is Some) == self.has_account(id@),
            r is Some ==> r->Some_0 == self.account_index(id@),
    {
        let key = id.to_owned();
        let mut i: usize = 0;
        while i < self.accounts.len()
            invariant
                0 <= i <= self.accounts@.len(),
                self.wf(),
                key@ == id@,
                forall|k: int| 0 <= k < i ==> #[trigger] self.accounts@[k].id@ != id@,
            decreases self.accounts@.len() - i,
        {
            if self.accounts[i].id == key {
                proof {
                    self.lemma_account_at(i as int);
                }
                return Some(i);
            }
            i = i + 1;
        }
        None
    }

    fn find_token(&self, symbol: &str) -> (r: Option<usize>)
        requires
            self.wf(),
        ensures
            (r is Some) == self.has_token(symbol@),
            r is Some ==> r->Some_0 == self.token_index(symbol@),
    {
        let key = symbol.to_owned();
        let mut k: usize = 0;
        while k < self.tokens.len()
            invariant
                0 <= k <= self.tokens@.len(),
                self.wf(),
                key@ == symbol@,
                forall|l: int| 0 <= l < k ==> #[trigger] self.tokens@[l].meta.symbol@ != symbol@,
            decreases self.tokens@.len() - k,
        {
            if self.tokens[k].meta.symbol == key {
                proof {
                    self.lemma_token_at(k as int);
                }
                return Some(k);
            }
            k = k + 1;
        }
        None
    }

    /// What account `account_id` holds of `symbol` (zero when it holds none);
    /// `None` only when the account is unknown.
    pub fn balance_of(&self, account_id: &str, symbol: &str) -> (r: Option<u128>)
        requires
            self.wf(),
        ensures
            (r is Some) == self.has_account(account_id@),
            r is Some ==> r->Some_0 == self.balance(account_id@, symbol@),
    {
        match self.find_account(account_id) {
            Some(i) => match self.accounts[i].get_balance(symbol) {
                Some(n) => Some(n),
                None => Some(0),
            },
            None => None,
        }
    }

    /// The supply of `symbol`; `None` when it is not registered.
    pub fn supply_of(&self, symbol: &str) -> (r: Option<u128>)
        requires
            self.wf(),
        ensures
            (r is Some) == self.has_token(symbol@),
            r is Some ==> r->Some_0 == self.supply(symbol@),
    {
        match self.find_token(symbol) {
            Some(k) => Some(self.tokens[k].supply.total),
            None => None,
        }
    }
    /// The token registry is the same in both.
    closed spec fn same_tokens(&self, other: &Ledger) -> bool {
        self.tokens@ == other.tokens@
    }

    /// `self` is `before` with account `i` replaced by `a`, of the same id.
    proof fn lemma_replace_account(&self, before: &Ledger, i: int, a: Account)
        requires
            before.accounts_wf(),
            0 <= i < before.accounts@.len(),
            a.wf(),
            a.id@ == before.accounts@[i].id@,
            self.accounts@ == before.accounts@.update(i, a),
        ensures
            self.accounts_wf(),
            self.same_accounts(before),
            self.account_index(a.id@) == i,
            self.account(a.id@) == a,
            before.account(a.id@) == before.accounts@[i],
            forall|x: Seq<char>|
                x != a.id@ && #[trigger] self.has_account(x) ==> self.account(x) == before.account(
                    x,
                ) && self.account_index(x) == before.account_index(x),
            forall|t: Seq<char>|
                #[trigger] self.circulating(t) + before.accounts@[i].balance(t)
                    == before.circulating(t) + a.balance(t),
    {
        assert forall|j: int, k: int|
            0 <= j < k < self.accounts@.len() implies #[trigger] self.accounts@[j].id@
            != #[trigger] self.accounts@[k].id@ by {
            assert(before.accounts@[j].id@ != before.accounts@[k].id@);
        }
        assert forall|j: int| 0 <= j < self.accounts@.len() implies #[trigger] self.accounts@[j].wf() by {
            if j != i {
                assert(before.accounts@[j].wf());
            }
        }
        assert forall|x: Seq<char>| #[trigger] self.has_account(x) == before.has_account(x) by {
            if self.has_account(x) {
                let j = self.account_index(x);
                assert(before.accounts@[j].id@ == x);
            }
            if before.has_account(x) {
                let j = before.account_index(x);
                assert(self.accounts@[j].id@ == x);
            }
        }
        self.lemma_account_at(i);
        before.lemma_account_at(i);
        assert forall|x: Seq<char>|
            x != a.id@ && #[trigger] self.has_account(x) implies self.account(x) == before.account(x)
            && self.account_index(x) == before.account_index(x) by {
            let j = before.account_index(x);
            before.lemma_account_at(j);
            self.lemma_account_at(j);
        }
        assert forall|t: Seq<char>|
            #[trigger] self.circulating(t) + before.accounts@[i].balance(t) == before.circulating(t)
                + a.balance(t) by {
            lemma_total_update(before.accounts@, i, a, t);
        }
    }

    /// `self` is `before` with the supply of token `k` changed.
    proof fn lemma_replace_supply(&self, before: &Ledger, k: int, total: u128)
        requires
            before.wf(),
            0 <= k < before.tokens@.len(),
            self.tokens@ == before.tokens@.update(
                k,
                TokenRecord { meta: before.tokens@[k].meta, supply: TokenSupply { total } },
            ),
        ensures
            self.same_tokens_but(before, before.tokens@[k].meta.symbol@),
            forall|t: Seq<char>| #[trigger] self.has_token(t) == before.has_token(t),
            self.meta(before.tokens@[k].meta.symbol@) == before.meta(before.tokens@[k].meta.symbol@),
            self.supply(before.tokens@[k].meta.symbol@) == total,
            forall|t: Seq<char>|
                t != before.tokens@[k].meta.symbol@ ==> #[trigger] self.supply(t) == before.supply(t),
            forall|l: int, m: int|
                0 <= l < m < self.tokens@.len() ==> #[trigger] self.tokens@[l].meta.symbol@
                    != #[trigger] self.tokens@[m].meta.symbol@,
    {
        let s = before.tokens@[k].meta.symbol@;
        assert forall|l: int, m: int|
            0 <= l < m < self.tokens@.len() implies #[trigger] self.tokens@[l].meta.symbol@
            != #[trigger] self.tokens@[m].meta.symbol@ by {
            assert(before.tokens@[l].meta.symbol@ != before.tokens@[m].meta.symbol@);
        }
        assert forall|t: Seq<char>| #[trigger] self.has_token(t) == before.has_token(t) by {
            if self.has_token(t) {
                let l = self.token_index(t);
                assert(before.tokens@[l].meta.symbol@ == t);
            }
            if before.has_token(t) {
                let l = before.token_index(t);
                assert(self.tokens@[l].meta.symbol@ == t);
            }
        }
        before.lemma_token_at(k);
        self.lemma_token_index_at(k);
        assert forall|t: Seq<char>|
            t != s && #[trigger] self.has_token(t) implies self.token_index(t) == before.token_index(t)
            by {
            let l = before.token_index(t);
            before.lemma_token_at(l);
            self.lemma_token_index_at(l);
        }
    }

    /// With symbols unique, token `k` is found where it stands.
    proof fn lemma_token_index_at(&self, k: int)
        requires
            forall|l: int, m: int|
                0 <= l < m < self.tokens@.len() ==> #[trigger] self.tokens@[l].meta.symbol@
                    != #[trigger] self.tokens@[m].meta.symbol@,
            0 <= k < self.tokens@.len(),
        ensures
            self.has_token(self.tokens@[k].meta.symbol@),
            self.token_index(self.tokens@[k].meta.symbol@) == k,
    {
        let s = self.tokens@[k].meta.symbol@;
        assert(self.tokens@[k].meta.symbol@ == s);
        let l = self.token_index(s);
        if l != k {
            if l < k {
                assert(self.tokens@[l].meta.symbol@ != self.tokens@[k].meta.symbol@);
            } else {
                assert(self.tokens@[k].meta.symbol@ != self.tokens@[l].meta.symbol@);
            }
        }
    }

    /// `self` is `before` with a record for a new symbol appended.
    proof fn lemma_push_token(&self, before: &Ledger, rec: TokenRecord)
        requires
            before.wf(),
            !before.has_token(rec.meta.symbol@),
            self.tokens@ == before.tokens@.push(rec),
        ensures
            self.same_tokens_but(before, rec.meta.symbol@),
            forall|t: Seq<char>|
                #[trigger] self.has_token(t) == (before.has_token(t) || t == rec.meta.symbol@),
            self.meta(rec.meta.symbol@) == rec.meta,
            self.supply(rec.meta.symbol@) == rec.supply.total,
            forall|t: Seq<char>| t != rec.meta.symbol@ ==> #[trigger] self.supply(t) == before.supply(t),
            forall|l: int, m: int|
                0 <= l < m < self.tokens@.len() ==> #[trigger] self.tokens@[l].meta.symbol@
                    != #[trigger] self.tokens@[m].meta.symbol@,
    {
        let n = before.tokens@.len() as int;
        assert forall|l: int, m: int|
            0 <= l < m < self.tokens@.len() implies #[trigger] self.tokens@[l].meta.symbol@
            != #[trigger] self.tokens@[m].meta.symbol@ by {
            if m == n {
                if self.tokens@[l].meta.symbol@ == rec.meta.symbol@ {
                    assert(before.tokens@[l].meta.symbol@ == rec.meta.symbol@);
                }
            } else {
                assert(before.tokens@[l].meta.symbol@ != before.tokens@[m].meta.symbol@);
            }
        }
        assert forall|t: Seq<char>|
            #[trigger] self.has_token(t) == (before.has_token(t) || t == rec.meta.symbol@) by {
            if self.has_token(t) {
                let l = self.token_index(t);
                if l < n {
                    assert(before.tokens@[l].meta.symbol@ == t);
                }
            }
            if before.has_token(t) {
                let l = before.token_index(t);
                assert(self.tokens@[l].meta.symbol@ == t);
            }
            if t == rec.meta.symbol@ {
                assert(self.tokens@[n].meta.symbol@ == t);
            }
        }
        self.lemma_token_index_at(n);
        assert forall|t: Seq<char>|
            t != rec.meta.symbol@ && #[trigger] self.has_token(t) implies self.token_index(t)
            == before.token_index(t) by {
            let l = before.token_index(t);
            before.lemma_token_at(l);
            self.lemma_token_index_at(l);
        }
    }
    /// `self` is `before` with `amount` of `s` added to account `id` and to
    /// the supply of `s`, and nothing else held changed.
    pub open spec fn issued(&self, before: &Ledger, id: Seq<char>, s: Seq<char>, amount: nat) -> bool {
        &&& self.same_accounts(before)
        &&& self.holds(id, s)
        &&& forall|a: Seq<char>, t: Seq<char>|
            #[trigger] self.balance(a, t) == before.balance(a, t) + (if a == id && t == s {
                amount
            } else {
                0
            })
        &&& forall|a: Seq<char>, t: Seq<char>|
            !(a == id && t == s) ==> #[trigger] self.holds(a, t) == before.holds(a, t)
        &&& forall|t: Seq<char>|
            #[trigger] self.supply(t) == before.supply(t) + (if t == s {
                amount
            } else {
                0
            })
    }

    /// Both agree on every token: whether it is registered, how it is
    /// described, and its supply.
    pub open spec fn same_registry(&self, other: &Ledger) -> bool {
        forall|t: Seq<char>|
            #[trigger] self.has_token(t) == other.has_token(t) && self.meta(t) == other.meta(t)
                && self.supply(t) == other.supply(t)
    }

    /// Both have the same accounts, and agree on every balance and entry.
    pub open spec fn same_balances(&self, other: &Ledger) -> bool {
        &&& self.same_accounts(other)
        &&& forall|a: Seq<char>, t: Seq<char>|
            #[trigger] self.balance(a, t) == other.balance(a, t) && self.holds(a, t)
                == other.holds(a, t)
    }

    /// Ledgers with the same registry agree on every token.
    proof fn lemma_same_registry(&self, other: &Ledger)
        requires
            self.same_tokens(other),
        ensures
            self.same_registry(other),
    {
    }

    /// No two registered tokens share a symbol.
    pub closed spec fn symbols_unique(&self) -> bool {
        forall|l: int, m: int|
            0 <= l < m < self.tokens@.len() ==> #[trigger] self.tokens@[l].meta.symbol@
                != #[trigger] self.tokens@[m].meta.symbol@
    }

    /// The registry of `self` is that of `before` with `s` registered, if
    /// it was not, and `amount` more of it.
    pub open spec fn supply_added(&self, before: &Ledger, s: Seq<char>, amount: nat, m: TokenMeta) -> bool {
        &&& self.same_tokens_but(before, s)
        &&& self.meta(s) == (if before.has_token(s) {
            before.meta(s)
        } else {
            m
        })
        &&& forall|t: Seq<char>| #[trigger] self.has_token(t) == (before.has_token(t) || t == s)
        &&& forall|t: Seq<char>|
            #[trigger] self.supply(t) == before.supply(t) + (if t == s {
                amount
            } else {
                0
            })
        &&& self.symbols_unique()
    }

    /// Account `i` of `before` was replaced by `a`, which is the old one
    /// with `amount` of `s` more; what follows for every account.
    proof fn lemma_credited_account(&self, before: &Ledger, i: int, s: Seq<char>, amount: nat)
        requires
            before.accounts_wf(),
            0 <= i < before.accounts@.len(),
            self.accounts@ == before.accounts@.update(i, self.accounts@[i]),
            self.accounts@[i].wf(),
            self.accounts@[i].credited(&before.accounts@[i], s, amount),
        ensures
            self.accounts_wf(),
            self.same_accounts(before),
            self.holds(before.accounts@[i].id@, s),
            forall|a: Seq<char>, t: Seq<char>|
                #[trigger] self.balance(a, t) == before.balance(a, t) + (if a
                    == before.accounts@[i].id@ && t == s {
                    amount
                } else {
                    0
                }),
            forall|a: Seq<char>, t: Seq<char>|
                !(a == before.accounts@[i].id@ && t == s) ==> #[trigger] self.holds(a, t)
                    == before.holds(a, t),
            forall|t: Seq<char>|
                #[trigger] self.circulating(t) == before.circulating(t) + (if t == s {
                    amount
                } else {
                    0
                }),
            forall|j: int, t: Seq<char>|
                0 <= j < self.accounts@.len() ==> #[trigger] self.accounts@[j].holds(t) == (
                before.accounts@[j].holds(t) || (j == i && t == s)),
    {
        let a = self.accounts@[i];
        let id = a.id@;
        self.lemma_replace_account(before, i, a);
        assert forall|x: Seq<char>, t: Seq<char>|
            #[trigger] self.balance(x, t) == before.balance(x, t) + (if x == id && t == s {
                amount
            } else {
                0
            }) by {
            if x != id && self.has_account(x) {
                assert(self.account(x) == before.account(x));
            }
        }
        assert forall|x: Seq<char>, t: Seq<char>|
            !(x == id && t == s) implies #[trigger] self.holds(x, t) == before.holds(x, t) by {
            if x != id && self.has_account(x) {
                assert(self.account(x) == before.account(x));
            }
        }
        assert forall|t: Seq<char>|
            #[trigger] self.circulating(t) == before.circulating(t) + (if t == s {
                amount
            } else {
                0
            }) by {
            assert(self.circulating(t) + before.accounts@[i].balance(t) == before.circulating(t)
                + a.balance(t));
        }
    }

    /// Adds `amount` of `meta.symbol` to account `account_id`, registering
    /// the token with `meta` when it is new. Fails, changing nothing, on a
    /// zero amount, an unknown account, a symbol registered with other
    /// metadata, or a supply that would leave the 128-bit range (a balance
    /// never exceeds the supply, so it then cannot overflow either).
    pub fn mint(&mut self, account_id: &str, amount: u128, meta: TokenMeta) -> (r: NeuroResult<()>)
        requires
            old(self).wf(),
        ensures
            final(self).wf(),
            amount == 0 ==> r == Err::<(), NeuroError>(NeuroError::InvalidAmount(0)),
            amount > 0 && !old(self).has_account(account_id@) ==> (r matches Err(
                NeuroError::AccountNotFound(x),
            ) && x@ == account_id@),
            amount > 0 && old(self).has_account(account_id@) && old(self).conflicts(meta) ==> (r matches Err(
                NeuroError::TokenConflict(x),
            ) && x@ == meta.symbol@),
            amount > 0 && old(self).has_account(account_id@) && !old(self).conflicts(meta) && old(
                self,
            ).supply(meta.symbol@) + amount > u128::MAX ==> r == Err::<(), NeuroError>(
                NeuroError::Overflow,
            ),
            (r is Ok) == (amount > 0 && old(self).has_account(account_id@) && !old(self).conflicts(
                meta,
            ) && old(self).supply(meta.symbol@) + amount <= u128::MAX),
            r is Err ==> *final(self) == *old(self),
            r is Ok ==> final(self).issued(old(self), account_id@, meta.symbol@, amount as nat),
            r is Ok ==> final(self).same_tokens_but(old(self), meta.symbol@) && final(self).has_token(
                meta.symbol@,
            ) && final(self).meta(meta.symbol@) == (if old(self).has_token(meta.symbol@) {
                old(self).meta(meta.symbol@)
            } else {
                meta
            }),
    {
        if amount == 0 {
            return Err(NeuroError::InvalidAmount(amount));
        }
        let ai = match self.find_account(account_id) {
            Some(i) => i,
            None => {
                return Err(NeuroError::AccountNotFound(account_id.to_owned()));
            },
        };
        let found = self.find_token(meta.symbol.as_str());
        let current: u128 = match found {
            Some(k) => {
                if self.tokens[k].meta.decimals != meta.decimals || !(self.tokens[k].meta.name
                    == meta.name) {
                    return Err(NeuroError::TokenConflict(meta.symbol));
                }
                self.tokens[k].supply.total
            },
            None => 0,
        };
        if current > u128::MAX - amount {
            return Err(NeuroError::Overflow);
        }
        let ghost pre = *self;
        let ghost sym = meta.symbol@;
        let ghost meta0 = meta;
        proof {
            lemma_total_bounds(pre.accounts@, ai as int, sym);
            pre.lemma_account_at(ai as int);
            if found is Some {
                pre.lemma_token_at(found->Some_0 as int);
            }
        }
        let symbol = meta.symbol.clone();
        match found {
            Some(k) => {
                let _ = self.tokens[k].supply.mint(amount);
                proof {
                    assert(self.tokens@[k as int] == TokenRecord {
                        meta: pre.tokens@[k as int].meta,
                        supply: TokenSupply { total: (current + amount) as u128 },
                    });
                    self.lemma_replace_supply(&pre, k as int, (current + amount) as u128);
                    assert(self.supply_added(&pre, sym, amount as nat, meta0));
                }
            },
            None => {
                let mut supply = TokenSupply::new();
                let _ = supply.mint(amount);
                let ghost rec = TokenRecord { meta, supply };
                self.tokens.push(TokenRecord { meta, supply });
                proof {
                    self.lemma_push_token(&pre, rec);
                    assert(self.supply_added(&pre, sym, amount as nat, meta0));
                }
            },
        }
        let ghost mid = *self;
        proof {
            assert(mid.supply_added(&pre, sym, amount as nat, meta0));
            assert(mid.accounts@ == pre.accounts@);
        }
        let _ = self.accounts[ai].credit(symbol.as_str(), amount);
        proof {
            self.lemma_same_registry(&mid);
            self.lemma_credited_account(&mid, ai as int, sym, amount as nat);
            assert forall|i: int, t: Seq<char>|
                0 <= i < self.accounts@.len() && #[trigger] self.accounts@[i].holds(t) implies self.has_token(
                t,
            ) by {
                assert(self.has_token(t) == mid.has_token(t));
                if t != sym {
                    assert(pre.accounts@[i].holds(t));
                    assert(pre.has_token(t));
                }
            }
            assert forall|t: Seq<char>| #[trigger] self.supply(t) == self.circulating(t) by {
                assert(pre.supply(t) == pre.circulating(t));
                assert(self.supply(t) == mid.supply(t));
                assert(mid.circulating(t) == pre.circulating(t));
            }
        }
        Ok(())
    }
    /// `self` is `before` with `amount` of `s` moved from account `from` to
    /// account `to`, and nothing else held changed.
    pub open spec fn moved(
        &self,
        before: &Ledger,
        from: Seq<char>,
        to: Seq<char>,
        s: Seq<char>,
        amount: nat,
    ) -> bool {
        &&& self.same_accounts(before)
        &&& self.holds(to, s)
        &&& forall|a: Seq<char>, t: Seq<char>|
            #[trigger] self.balance(a, t) + (if a == from && t == s {
                amount
            } else {
                0
            }) == before.balance(a, t) + (if a == to && t == s {
                amount
            } else {
                0
            })
        &&& forall|a: Seq<char>, t: Seq<char>|
            !(a == to && t == s) ==> #[trigger] self.holds(a, t) == before.holds(a, t)
    }

    /// Takes `amount` of `symbol` from account `account_id` and from the
    /// supply. Fails, changing nothing, on a zero amount, an unknown account,
    /// a symbol that is unregistered or that the account has no entry for,
    /// or a balance below `amount`.
    pub fn burn(&mut self, account_id: &str, symbol: &str, amount: u128) -> (r: NeuroResult<()>)
        requires
            old(self).wf(),
        ensures
            final(self).wf(),
            amount == 0 ==> r == Err::<(), NeuroError>(NeuroError::InvalidAmount(0)),
            amount > 0 && !old(self).has_account(account_id@) ==> (r matches Err(
                NeuroError::AccountNotFound(x),
            ) && x@ == account_id@),
            amount > 0 && old(self).has_account(account_id@) && !(old(self).has_token(symbol@) && old(
                self,
            ).holds(account_id@, symbol@)) ==> (r matches Err(NeuroError::TokenNotFound(x)) && x@
                == symbol@),
            amount > 0 && old(self).holds(account_id@, symbol@) && old(self).has_token(symbol@) && old(
                self,
            ).balance(account_id@, symbol@) < amount ==> r == Err::<(), NeuroError>(
                NeuroError::InsufficientBalance {
                    required: amount,
                    available: old(self).balance(account_id@, symbol@) as u128,
                },
            ),
            (r is Ok) == (amount > 0 && old(self).has_token(symbol@) && old(self).holds(
                account_id@,
                symbol@,
            ) && amount <= old(self).balance(account_id@, symbol@)),
            r is Err ==> *final(self) == *old(self),
            r is Ok ==> old(self).issued(final(self), account_id@, symbol@, amount as nat),
            r is Ok ==> final(self).same_tokens_but(old(self), symbol@),
    {
        if amount == 0 {
            return Err(NeuroError::InvalidAmount(amount));
        }
        let ai = match self.find_account(account_id) {
            Some(i) => i,
            None => {
                return Err(NeuroError::AccountNotFound(account_id.to_owned()));
            },
        };
        let k = match self.find_token(symbol) {
            Some(k) => k,
            None => {
                return Err(NeuroError::TokenNotFound(symbol.to_owned()));
            },
        };
        let held = match self.accounts[ai].get_balance(symbol) {
            Some(n) => n,
            None => {
                return Err(NeuroError::TokenNotFound(symbol.to_owned()));
            },
        };
        if held < amount {
            return Err(NeuroError::InsufficientBalance { required: amount, available: held });
        }
        let ghost pre = *self;
        let ghost sym = symbol@;
        proof {
            pre.lemma_account_at(ai as int);
            pre.lemma_token_at(k as int);
            lemma_total_bounds(pre.accounts@, ai as int, sym);
        }
        let _ = self.tokens[k].supply.burn(amount);
        proof {
            assert(self.tokens@[k as int] == TokenRecord {
                meta: pre.tokens@[k as int].meta,
                supply: TokenSupply { total: (pre.supply(sym) - amount) as u128 },
            });
            self.lemma_replace_supply(&pre, k as int, (pre.supply(sym) - amount) as u128);
        }
        let ghost mid = *self;
        let _ = self.accounts[ai].debit(symbol, amount);
        proof {
            self.lemma_replace_account(&mid, ai as int, self.accounts@[ai as int]);
            assert(mid.accounts@ =~= self.accounts@.update(ai as int, mid.accounts@[ai as int]));
            mid.lemma_credited_account(self, ai as int, sym, amount as nat);
            self.lemma_same_registry(&mid);
            assert(mid.accounts@ == pre.accounts@);
            assert forall|i: int, t: Seq<char>|
                0 <= i < self.accounts@.len() && #[trigger] self.accounts@[i].holds(
                    t,
                ) implies self.has_token(t) by {
                assert(mid.accounts@[i].holds(t));
                assert(pre.has_token(t));
            }
            assert forall|t: Seq<char>| #[trigger] self.supply(t) == self.circulating(t) by {
                assert(pre.supply(t) == pre.circulating(t));
                assert(mid.circulating(t) == pre.circulating(t));
            }
            assert forall|a: Seq<char>, t: Seq<char>|
                #[trigger] pre.balance(a, t) == self.balance(a, t) + (if a == account_id@ && t
                    == sym {
                    amount as nat
                } else {
                    0
                }) by {
                assert(mid.balance(a, t) == pre.balance(a, t));
            }
            assert forall|a: Seq<char>, t: Seq<char>|
                !(a == account_id@ && t == sym) implies #[trigger] pre.holds(a, t) == self.holds(
                a,
                t,
            ) by {
                assert(mid.holds(a, t) == pre.holds(a, t));
            }
            assert(pre.same_accounts(self));
        }
        Ok(())
    }

    /// Moves `req.amount` of `req.symbol` from `req.from` to `req.to`; the
    /// supply is untouched. Fails, changing nothing, on a zero amount, a
    /// transfer to the same account, an unknown account on either side, a
    /// symbol unregistered or not held by the source, a source balance below
    /// the amount, or a destination balance that would leave the 128-bit
    /// range.
    pub fn transfer(&mut self, req: TransferRequest) -> (r: NeuroResult<()>)
        requires
            old(self).wf(),
        ensures
            final(self).wf(),
            req.amount == 0 ==> r == Err::<(), NeuroError>(NeuroError::InvalidAmount(0)),
            req.amount > 0 && req.from@ == req.to@ ==> r == Err::<(), NeuroError>(
                NeuroError::SelfTransfer,
            ),
            req.amount > 0 && req.from@ != req.to@ && !old(self).has_account(req.from@) ==> (r matches Err(
                NeuroError::AccountNotFound(x),
            ) && x@ == req.from@),
            req.amount > 0 && req.from@ != req.to@ && old(self).has_account(req.from@) && !old(
                self,
            ).has_account(req.to@) ==> (r matches Err(NeuroError::AccountNotFound(x)) && x@
                == req.to@),
            req.amount > 0 && req.from@ != req.to@ && old(self).has_account(req.from@) && old(
                self,
            ).has_account(req.to@) && !(old(self).has_token(req.symbol@) && old(self).holds(
                req.from@,
                req.symbol@,
            )) ==> (r matches Err(NeuroError::TokenNotFound(x)) && x@ == req.symbol@),
            req.amount > 0 && req.from@ != req.to@ && old(self).has_account(req.to@) && old(
                self,
            ).has_token(req.symbol@) && old(self).holds(req.from@, req.symbol@) && old(self).balance(
                req.from@,
                req.symbol@,
            ) < req.amount ==> r == Err::<(), NeuroError>(
                NeuroError::InsufficientBalance {
                    required: req.amount,
                    available: old(self).balance(req.from@, req.symbol@) as u128,
                },
            ),
            req.amount > 0 && req.from@ != req.to@ && old(self).has_account(req.to@) && old(
                self,
            ).has_token(req.symbol@) && old(self).holds(req.from@, req.symbol@) && req.amount <= old(
                self,
            ).balance(req.from@, req.symbol@) && old(self).balance(req.to@, req.symbol@)
                + req.amount > u128::MAX ==> r == Err::<(), NeuroError>(NeuroError::Overflow),
            (r is Ok) == (req.amount > 0 && req.from@ != req.to@ && old(self).has_account(req.to@)
                && old(self).has_token(req.symbol@) && old(self).holds(req.from@, req.symbol@)
                && req.amount <= old(self).balance(req.from@, req.symbol@) && old(self).balance(
                req.to@,
                req.symbol@,
            ) + req.amount <= u128::MAX),
            r is Err ==> *final(self) == *old(self),
            r is Ok ==> final(self).moved(
                old(self),
                req.from@,
                req.to@,
                req.symbol@,
                req.amount as nat,
            ),
            r is Ok ==> final(self).same_registry(old(self)),
    {
        let amount = req.amount;
        if amount == 0 {
            return Err(NeuroError::InvalidAmount(amount));
        }
        if req.from == req.to {
            return Err(NeuroError::SelfTransfer);
        }
        let fi = match self.find_account(req.from.as_str()) {
            Some(i) => i,
            None => {
                return Err(NeuroError::AccountNotFound(req.from));
            },
        };
        let ti = match self.find_account(req.to.as_str()) {
            Some(i) => i,
            None => {
                return Err(NeuroError::AccountNotFound(req.to));
            },
        };
        if self.find_token(req.symbol.as_str()).is_none() {
            return Err(NeuroError::TokenNotFound(req.symbol));
        }
        let held = match self.accounts[fi].get_balance(req.symbol.as_str()) {
            Some(n) => n,
            None => {
                return Err(NeuroError::TokenNotFound(req.symbol));
            },
        };
        if held < amount {
            return Err(NeuroError::InsufficientBalance { required: amount, available: held });
        }
        let dest: u128 = match self.accounts[ti].get_balance(req.symbol.as_str()) {
            Some(n) => n,
            None => 0,
        };
        if dest > u128::MAX - amount {
            return Err(NeuroError::Overflow);
        }
        let ghost pre = *self;
        let ghost sym = req.symbol@;
        proof {
            pre.lemma_account_at(fi as int);
            pre.lemma_account_at(ti as int);
        }
        let _ = self.accounts[fi].debit(req.symbol.as_str(), amount);
        let ghost mid = *self;
        proof {
            mid.lemma_replace_account(&pre, fi as int, mid.accounts@[fi as int]);
            assert(pre.accounts@ =~= mid.accounts@.update(fi as int, pre.accounts@[fi as int]));
            pre.lemma_credited_account(&mid, fi as int, sym, amount as nat);
        }
        let _ = self.accounts[ti].credit(req.symbol.as_str(), amount);
        proof {
            self.lemma_credited_account(&mid, ti as int, sym, amount as nat);
            self.lemma_same_registry(&pre);
            assert forall|i: int, t: Seq<char>|
                0 <= i < self.accounts@.len() && #[trigger] self.accounts@[i].holds(
                    t,
                ) implies self.has_token(t) by {
                if !(i == ti && t == sym) {
                    assert(mid.accounts@[i].holds(t));
                    assert(pre.accounts@[i].holds(t));
                }
            }
            assert forall|t: Seq<char>| #[trigger] self.supply(t) == self.circulating(t) by {
                assert(pre.supply(t) == pre.circulating(t));
            }
            assert forall|a: Seq<char>, t: Seq<char>|
                !(a == req.to@ && t == sym) implies #[trigger] self.holds(a, t) == pre.holds(a, t) by {
                assert(mid.holds(a, t) == self.holds(a, t));
                if !(a == req.from@ && t == sym) {
                    assert(mid.holds(a, t) == pre.holds(a, t));
                } else {
                    assert(pre.holds(a, t));
                    assert(mid.accounts@[fi as int].holds(t));
                    assert(mid.holds(a, t));
                }
            }
            assert forall|a: Seq<char>, t: Seq<char>|
                #[trigger] self.balance(a, t) + (if a == req.from@ && t == sym {
                    amount as nat
                } else {
                    0
                }) == pre.balance(a, t) + (if a == req.to@ && t == sym {
                    amount as nat
                } else {
                    0
                }) by {
                assert(pre.balance(a, t) == mid.balance(a, t) + (if a == req.from@ && t == sym {
                    amount as nat
                } else {
                    0
                }));
            }
            assert(self.same_accounts(&pre));
        }
        Ok(())
    }
    /// The accounts, and all they hold, are the same in both.
    closed spec fn same_holdings(&self, other: &Ledger) -> bool {
        self.accounts@ == other.accounts@
    }

    /// Ledgers with the same accounts agree on every balance.
    proof fn lemma_same_holdings(&self, other: &Ledger)
        requires
            self.same_holdings(other),
        ensures
            self.same_balances(other),
            forall|t: Seq<char>| #[trigger] self.circulating(t) == other.circulating(t),
    {
    }

    /// Registers `meta` under its symbol with a supply of zero; a symbol
    /// already registered with the same decimals and name is left as it is.
    /// Fails, changing nothing, when the symbol is registered otherwise.
    pub fn register_token(&mut self, meta: TokenMeta) -> (r: NeuroResult<()>)
        requires
            old(self).wf(),
        ensures
            final(self).wf(),
            old(self).conflicts(meta) ==> (r matches Err(NeuroError::TokenConflict(x)) && x@
                == meta.symbol@),
            (r is Ok) == !old(self).conflicts(meta),
            r is Err ==> *final(self) == *old(self),
            r is Ok ==> final(self).has_token(meta.symbol@) && final(self).supply_added(
                old(self),
                meta.symbol@,
                0,
                meta,
            ) && final(self).same_balances(old(self)),
    {
        let ghost pre = *self;
        let ghost meta0 = meta;
        match self.find_token(meta.symbol.as_str()) {
            Some(k) => {
                if self.tokens[k].meta.decimals != meta.decimals || !(self.tokens[k].meta.name
                    == meta.name) {
                    return Err(NeuroError::TokenConflict(meta.symbol));
                }
                proof {
                    pre.lemma_token_at(k as int);
                }
            },
            None => {
                let ghost rec = TokenRecord { meta, supply: TokenSupply { total: 0 } };
                self.tokens.push(TokenRecord { meta, supply: TokenSupply::new() });
                proof {
                    self.lemma_push_token(&pre, rec);
                    self.lemma_same_holdings(&pre);
                    assert forall|t: Seq<char>| #[trigger] self.supply(t) == self.circulating(t) by {
                        assert(pre.supply(t) == pre.circulating(t));
                    }
                    assert forall|i: int, t: Seq<char>|
                        0 <= i < self.accounts@.len() && #[trigger] self.accounts@[i].holds(
                            t,
                        ) implies self.has_token(t) by {
                        assert(pre.has_token(t));
                    }
                }
            },
        }
        Ok(())
    }

    /// Opens an account with a fresh random id, holding nothing, and returns
    /// the id. Fails, changing nothing, in the unlikely case that the id
    /// drawn is already taken; on a ledger without accounts it cannot fail.
    pub fn create_account(&mut self, alias: &str) -> (r: NeuroResult<AccountId>)
        requires
            old(self).wf(),
        ensures
            final(self).wf(),
            (forall|a: Seq<char>| !(#[trigger] old(self).has_account(a))) ==> r is Ok,
            r is Err ==> *final(self) == *old(self) && r matches Err(NeuroError::General(_)),
            r is Ok ==> {
                let id = r->Ok_0@;
                &&& hyphenated_form(id)
                &&& final(self).account_added(old(self), id)
            },
    {
        let acct = Account::new(alias);
        self.add_account(acct)
    }

    /// `self` is `before` with one more account, `id`, which holds nothing.
    pub open spec fn account_added(&self, before: &Ledger, id: Seq<char>) -> bool {
        &&& !before.has_account(id)
        &&& self.has_account(id)
        &&& forall|a: Seq<char>|
            a != id ==> #[trigger] self.has_account(a) == before.has_account(a)
        &&& forall|a: Seq<char>, t: Seq<char>|
            #[trigger] self.balance(a, t) == before.balance(a, t) && self.holds(a, t)
                == before.holds(a, t)
        &&& self.same_registry(before)
    }

    /// Adds `acct`, which holds nothing, and returns its id. Fails, changing
    /// nothing, exactly when an account with that id exists.
    pub fn add_account(&mut self, acct: Account) -> (r: NeuroResult<AccountId>)
        requires
            old(self).wf(),
            acct.wf(),
            acct.balances@.len() == 0,
        ensures
            final(self).wf(),
            (r is Ok) == !old(self).has_account(acct.id@),
            r is Err ==> *final(self) == *old(self) && r matches Err(NeuroError::General(_)),
            r is Ok ==> r->Ok_0@ == acct.id@ && final(self).account_added(old(self), acct.id@),
    {
        if self.find_account(acct.id.as_str()).is_some() {
            return Err(NeuroError::General("account id collision".to_owned()));
        }
        let id = acct.id.clone();
        let ghost pre = *self;
        let ghost a = acct;
        self.accounts.push(acct);
        proof {
            let n = pre.accounts@.len() as int;
            assert forall|i: int, j: int|
                0 <= i < j < self.accounts@.len() implies #[trigger] self.accounts@[i].id@
                != #[trigger] self.accounts@[j].id@ by {
                if j == n {
                    if self.accounts@[i].id@ == a.id@ {
                        assert(pre.accounts@[i].id@ == a.id@);
                    }
                } else {
                    assert(pre.accounts@[i].id@ != pre.accounts@[j].id@);
                }
            }
            assert forall|i: int| 0 <= i < self.accounts@.len() implies #[trigger] self.accounts@[i].wf() by {
                if i < n {
                    assert(pre.accounts@[i].wf());
                }
            }
            assert(self.accounts@[n].id@ == id@);
            self.lemma_account_at(n);
            assert forall|x: Seq<char>|
                x != id@ implies #[trigger] self.has_account(x) == pre.has_account(x) by {
                if self.has_account(x) {
                    let i = self.account_index(x);
                    assert(pre.accounts@[i].id@ == x);
                }
                if pre.has_account(x) {
                    let i = pre.account_index(x);
                    assert(self.accounts@[i].id@ == x);
                }
            }
            assert forall|x: Seq<char>, t: Seq<char>|
                #[trigger] self.balance(x, t) == pre.balance(x, t) && self.holds(x, t) == pre.holds(
                    x,
                    t,
                ) by {
                if x != id@ && pre.has_account(x) {
                    let i = pre.account_index(x);
                    pre.lemma_account_at(i);
                    self.lemma_account_at(i);
                }
                if x == id@ {
                    assert(!a.holds(t));
                }
            }
            self.lemma_same_registry(&pre);
            assert forall|t: Seq<char>| #[trigger] self.supply(t) == self.circulating(t) by {
                assert(pre.supply(t) == pre.circulating(t));
                lemma_total_push_empty(pre.accounts@, a, t);
            }
            assert forall|i: int, t: Seq<char>|
                0 <= i < self.accounts@.len() && #[trigger] self.accounts@[i].holds(
                    t,
                ) implies self.has_token(t) by {
                assert(pre.accounts@[i].holds(t));
                assert(pre.has_token(t));
            }
        }
        Ok(id)
    }
}

/// Conservation: in a well-formed ledger (the state that `new` builds and
/// every operation keeps) the supply of each symbol equals what the accounts
/// hold of it, added up.
pub proof fn lemma_conservation(l: &Ledger, s: Seq<char>)
    requires
        l.wf(),
    ensures
        l.supply(s) == l.circulating(s),
{
}

/// No balance is negative, and none exceeds the supply of its symbol, which
/// itself fits in 128 bits.
pub proof fn lemma_balance_bounded(l: &Ledger, id: Seq<char>, s: Seq<char>)
    requires
        l.wf(),
    ensures
        0 <= l.balance(id, s) <= l.supply(s) <= u128::MAX,
{
    if l.has_account(id) {
        lemma_total_bounds(l.accounts@, l.account_index(id), s);
    }
    if l.has_token(s) {
        assert(l.tokens@[l.token_index(s)].supply.total <= u128::MAX);
    }
}

/// Transfer symmetry: moving an amount between two different accounts keeps
/// the sum of their balances of that symbol.
pub proof fn lemma_transfer_symmetry(
    before: &Ledger,
    after: &Ledger,
    from: Seq<char>,
    to: Seq<char>,
    s: Seq<char>,
    amount: nat,
)
    requires
        after.moved(before, from, to, s, amount),
        from != to,
    ensures
        after.balance(from, s) + after.balance(to, s) == before.balance(from, s) + before.balance(
            to,
            s,
        ),
{
    assert(after.balance(from, s) + amount == before.balance(from, s));
    assert(after.balance(to, s) == before.balance(to, s) + amount);
}

/// Conservation over loose accounts, for a mint: when `after` is account `i`
/// credited with `amount` of `s`, and the supply of `s` grew by the same
/// amount from what the accounts held, it equals what they hold afterwards.
pub proof fn lemma_conservation_credit(
    accts: Seq<Account>,
    i: int,
    after: Account,
    s: Seq<char>,
    amount: nat,
    supply_before: TokenSupply,
    supply_after: TokenSupply,
)
    requires
        0 <= i < accts.len(),
        after.credited(&accts[i], s, amount),
        supply_before.total == total_held(accts, s),
        supply_after.total == supply_before.total + amount,
    ensures
        supply_after.total == total_held(accts.update(i, after), s),
{
    lemma_total_update(accts, i, after, s);
}

/// Conservation over loose accounts, for a burn: when `after` is account `i`
/// debited by `amount` of `s` and the supply of `s` equals what the accounts
/// held, the supply covers the amount, and the supply less it equals what
/// they hold afterwards.
pub proof fn lemma_conservation_debit(
    accts: Seq<Account>,
    i: int,
    after: Account,
    s: Seq<char>,
    amount: nat,
    supply_before: TokenSupply,
)
    requires
        0 <= i < accts.len(),
        accts[i].credited(&after, s, amount),
        supply_before.total == total_held(accts, s),
    ensures
        amount <= supply_before.total,
        supply_before.total - amount == total_held(accts.update(i, after), s),
{
    lemma_total_update(accts, i, after, s);
    lemma_total_bounds(accts, i, s);
}

/// Conservation over loose accounts, for a transfer: debiting account `i`
/// and crediting another account `j` by the same amount of `s` keeps what
/// the accounts hold of `s`, so an untouched supply still equals it.
pub proof fn lemma_conservation_transfer(
    accts: Seq<Account>,
    i: int,
    j: int,
    from_after: Account,
    to_after: Account,
    s: Seq<char>,
    amount: nat,
)
    requires
        0 <= i < accts.len(),
        0 <= j < accts.len(),
        i != j,
        accts[i].credited(&from_after, s, amount),
        to_after.credited(&accts[j], s, amount),
    ensures
        total_held(accts.update(i, from_after).update(j, to_after), s) == total_held(accts, s),
{
    let mid = accts.update(i, from_after);
    lemma_total_update(accts, i, from_after, s);
    lemma_total_update(mid, j, to_after, s);
}

} // verus!
