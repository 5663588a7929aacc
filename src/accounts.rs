use vstd::prelude::*;
use crate::error::{NeuroError, NeuroResult};
use crate::ident::{hyphenated_form, uuid_text};
use uuid::Uuid;

verus! {

pub type AccountId = String;

/// A holder of token balances, keyed by an opaque id.
#[derive(Debug, Clone)]
pub struct Account {
    pub id: AccountId,
    pub alias: String,
    pub balances: Vec<TokenBalance>,
}

/// One account's holding of one token.
#[derive(Debug, Clone)]
pub struct TokenBalance {
    pub symbol: String,
    pub amount: u128,
}

impl Account {
    /// No symbol has two entries.
    pub open spec fn wf(&self) -> bool {
        forall|i: int, j: int|
            0 <= i < j < self.balances@.len() ==> #[trigger] self.balances@[i].symbol@
                != #[trigger] self.balances@[j].symbol@
    }

    /// There is an entry for `s`.
    pub open spec fn holds(&self, s: Seq<char>) -> bool {
        exists|i: int| 0 <= i < self.balances@.len() && #[trigger] self.balances@[i].symbol@ == s
    }

    /// Where the entry for `s` stands (meaningful when `holds(s)`).
    pub open spec fn entry_index(&self, s: Seq<char>) -> int {
        choose|i: int| 0 <= i < self.balances@.len() && #[trigger] self.balances@[i].symbol@ == s
    }

    /// The amount of `s` held; an absent entry reads as zero.
    pub open spec fn balance(&self, s: Seq<char>) -> nat {
        if self.holds(s) {
            self.balances@[self.entry_index(s)].amount as nat
        } else {
            0
        }
    }

    pub proof fn lemma_entry_at(&self, i: int)
        requires
            self.wf(),
            0 <= i < self.balances@.len(),
        ensures
            self.holds(self.balances@[i].symbol@),
            self.entry_index(self.balances@[i].symbol@) == i,
            self.balance(self.balances@[i].symbol@) == self.balances@[i].amount,
    {
        let s = self.balances@[i].symbol@;
        assert(self.balances@[i].symbol@ == s);
        let j = self.entry_index(s);
        if j != i {
            if j < i {
                assert(self.balances@[j].symbol@ != self.balances@[i].symbol@);
            } else {
                assert(self.balances@[i].symbol@ != self.balances@[j].symbol@);
            }
        }
    }

    /// A fresh account with the given alias, a random id and no balances.
    pub fn new(alias: &str) -> (r: Self)
        ensures
            hyphenated_form(r.id@),
            r.alias@ == alias@,
            r.balances@.len() == 0,
            r.wf(),
    {
        let uid = Uuid::new_v4();
        let id = uuid_text(&uid);
        Self { id, alias: alias.to_owned(), balances: Vec::new() }
    }

    /// Position of the entry for `symbol`, if any.
    fn find_entry(&self, symbol: &str) -> (r: Option<usize>)
        requires
            self.wf(),
        ensures
            (r is Some) == self.holds(symbol@),
            r is Some ==> r->Some_0 == self.entry_index(symbol@),
    {
        let key = symbol.to_owned();
        let mut i: usize = 0;
        while i < self.balances.len()
            invariant
                0 <= i <= self.balances@.len(),
                self.wf(),
                key@ == symbol@,
                forall|k: int| 0 <= k < i ==> #[trigger] self.balances@[k].symbol@ != symbol@,
            decreases self.balances@.len() - i,
        {
            if self.balances[i].symbol == key {
                proof {
                    self.lemma_entry_at(i as int);
                }
                return Some(i);
            }
            i = i + 1;
        }
        None
    }

    /// The entry for `symbol`, to be changed in place.
    pub fn get_balance_mut(&mut self, symbol: &str) -> (r: Option<&mut TokenBalance>)
        requires
            old(self).wf(),
        ensures
            (r is Some) == old(self).holds(symbol@),
            r is None ==> *final(self) == *old(self),
            match r {
                Some(e) => {
                    let i = old(self).entry_index(symbol@);
                    &&& *e == old(self).balances@[i]
                    &&& final(self).balances@ == old(self).balances@.update(i, *final(e))
                    &&& final(self).id == old(self).id
                    &&& final(self).alias == old(self).alias
                },
                None => true,
            },
    {
        match self.find_entry(symbol) {
            Some(i) => Some(&mut self.balances[i]),
            None => None,
        }
    }

    /// The amount held of `symbol`, `None` when there is no entry for it.
    pub fn get_balance(&self, symbol: &str) -> (r: Option<u128>)
        requires
            self.wf(),
        ensures
            (r is Some) == self.holds(symbol@),
            r is Some ==> r->Some_0 == self.balance(symbol@),
    {
        match self.find_entry(symbol) {
            Some(i) => Some(self.balances[i].amount),
            None => None,
        }
    }
    /// Adds `amount` of `symbol`, creating the entry when there is none.
    /// Fails, changing nothing, on a zero amount or when the balance would
    /// leave the 128-bit range.
    pub fn credit(&mut self, symbol: &str, amount: u128) -> (r: NeuroResult<()>)
        requires
            old(self).wf(),
        ensures
            final(self).wf(),
            amount == 0 ==> r == Err::<(), NeuroError>(NeuroError::InvalidAmount(0)),
            amount > 0 && old(self).balance(symbol@) + amount > u128::MAX ==> r
                == Err::<(), NeuroError>(NeuroError::Overflow),
            (r is Ok) == (amount > 0 && old(self).balance(symbol@) + amount <= u128::MAX),
            r is Err ==> *final(self) == *old(self),
            r is Ok ==> final(self).credited(old(self), symbol@, amount as nat),
            r is Ok && !old(self).holds(symbol@) ==> final(self).balances@.len()
                == old(self).balances@.len() + 1 && final(self).balances@.drop_last()
                == old(self).balances@ && final(self).balances@.last().symbol@ == symbol@
                && final(self).balances@.last().amount == amount,
            r is Ok && old(self).holds(symbol@) ==> final(self).balances@ == old(
                self,
            ).balances@.update(
                old(self).entry_index(symbol@),
                TokenBalance { symbol: old(self).balances@[old(self).entry_index(symbol@)].symbol, amount: (old(self).balance(symbol@) + amount) as u128 },
            ),
    {
        if amount == 0 {
            return Err(NeuroError::InvalidAmount(amount));
        }
        let ghost pre = *self;
        match self.get_balance(symbol) {
            Some(cur) => {
                if cur > u128::MAX - amount {
                    return Err(NeuroError::Overflow);
                }
                if let Some(entry) = self.get_balance_mut(symbol) {
                    entry.amount = cur + amount;
                }
            },
            None => {
                self.balances.push(TokenBalance { symbol: symbol.to_owned(), amount });
                proof {
                    assert(self.balances@.drop_last() =~= pre.balances@);
                }
            },
        }
        proof {
            self.lemma_after_change(&pre, symbol@);
        }
        Ok(())
    }

    /// Takes `amount` of `symbol` off the balance. Fails, changing nothing,
    /// on a zero amount, a missing entry or a balance below `amount`.
    pub fn debit(&mut self, symbol: &str, amount: u128) -> (r: NeuroResult<()>)
        requires
            old(self).wf(),
        ensures
            final(self).wf(),
            amount == 0 ==> r == Err::<(), NeuroError>(NeuroError::InvalidAmount(0)),
            amount > 0 && !old(self).holds(symbol@) ==> (r matches Err(
                NeuroError::TokenNotFound(s),
            ) && s@ == symbol@),
            amount > 0 && old(self).holds(symbol@) && old(self).balance(symbol@) < amount ==> r
                == Err::<(), NeuroError>(
                NeuroError::InsufficientBalance {
                    required: amount,
                    available: old(self).balance(symbol@) as u128,
                },
            ),
            (r is Ok) == (amount > 0 && old(self).holds(symbol@) && amount <= old(self).balance(
                symbol@,
            )),
            r is Err ==> *final(self) == *old(self),
            r is Ok ==> old(self).credited(final(self), symbol@, amount as nat) && final(self).holds(
                symbol@,
            ),
    {
        if amount == 0 {
            return Err(NeuroError::InvalidAmount(amount));
        }
        let ghost pre = *self;
        match self.get_balance(symbol) {
            Some(cur) => {
                if cur < amount {
                    return Err(NeuroError::InsufficientBalance { required: amount, available: cur });
                }
                if let Some(entry) = self.get_balance_mut(symbol) {
                    entry.amount = cur - amount;
                }
            },
            None => {
                return Err(NeuroError::TokenNotFound(symbol.to_owned()));
            },
        }
        proof {
            self.lemma_after_change(&pre, symbol@);
        }
        Ok(())
    }

    /// `self` is `before` with `amount` more of `s`: same id and alias, the
    /// same entries but for `s`, and an entry for `s`.
    pub open spec fn credited(&self, before: &Account, s: Seq<char>, amount: nat) -> bool {
        &&& self.id == before.id
        &&& self.alias == before.alias
        &&& self.holds(s)
        &&& self.balance(s) == before.balance(s) + amount
        &&& forall|t: Seq<char>| t != s ==> #[trigger] self.balance(t) == before.balance(t)
        &&& forall|t: Seq<char>| t != s ==> #[trigger] self.holds(t) == before.holds(t)
    }

    /// After one entry for `s` was changed in place, or one for `s` was
    /// appended where none was, nothing is known to differ but for `s`.
    proof fn lemma_after_change(&self, before: &Account, s: Seq<char>)
        requires
            before.wf(),
            before.holds(s) ==> self.balances@ == before.balances@.update(
                before.entry_index(s),
                self.balances@[before.entry_index(s)],
            ) && self.balances@[before.entry_index(s)].symbol@ == s,
            !before.holds(s) ==> self.balances@.len() == before.balances@.len() + 1
                && self.balances@.drop_last() == before.balances@ && self.balances@.last().symbol@
                == s,
        ensures
            self.wf(),
            self.holds(s),
            self.balance(s) == self.balances@[if before.holds(s) {
                before.entry_index(s)
            } else {
                before.balances@.len() as int
            }].amount,
            forall|t: Seq<char>| t != s ==> #[trigger] self.balance(t) == before.balance(t),
            forall|t: Seq<char>| t != s ==> #[trigger] self.holds(t) == before.holds(t),
    {
        let k = if before.holds(s) {
            before.entry_index(s)
        } else {
            before.balances@.len() as int
        };
        assert forall|i: int| 0 <= i < self.balances@.len() && i != k implies #[trigger] self.balances@[i]
            == before.balances@[i] by {
            if !before.holds(s) {
                assert(self.balances@.drop_last()[i] == before.balances@[i]);
            }
        }
        assert forall|i: int, j: int|
            0 <= i < j < self.balances@.len() implies #[trigger] self.balances@[i].symbol@
            != #[trigger] self.balances@[j].symbol@ by {
            if i == k {
                if !before.holds(s) {
                    assert(before.balances@[j].symbol@ == s);
                }
            } else if j == k {
                if !before.holds(s) && self.balances@[i].symbol@ == s {
                    assert(before.balances@[i].symbol@ == s);
                }
            }
        }
        self.lemma_entry_at(k);
        assert forall|t: Seq<char>| t != s implies #[trigger] self.holds(t) == before.holds(t) by {
            if self.holds(t) {
                let i = self.entry_index(t);
                assert(before.balances@[i].symbol@ == t);
            }
            if before.holds(t) {
                let i = before.entry_index(t);
                assert(self.balances@[i].symbol@ == t);
            }
        }
        assert forall|t: Seq<char>| t != s implies #[trigger] self.balance(t) == before.balance(t) by {
            if before.holds(t) {
                let i = before.entry_index(t);
                before.lemma_entry_at(i);
                assert(self.balances@[i] == before.balances@[i]);
                self.lemma_entry_at(i);
            }
        }
    }
}

/// Identity: crediting `amount` of `s` and then debiting the same amount
/// (which the credited account can always afford) gives back every balance
/// the account had.
pub proof fn lemma_credit_debit_identity(
    start: Account,
    credited: Account,
    end: Account,
    s: Seq<char>,
    amount: nat,
)
    requires
        credited.credited(&start, s, amount),
        credited.credited(&end, s, amount),
    ensures
        credited.holds(s) && amount <= credited.balance(s),
        end.balance(s) == start.balance(s),
        forall|t: Seq<char>| #[trigger] end.balance(t) == start.balance(t),
{
    assert forall|t: Seq<char>| #[trigger] end.balance(t) == start.balance(t) by {
        if t != s {
            assert(credited.balance(t) == start.balance(t));
            assert(credited.balance(t) == end.balance(t));
        }
    }
}

} // verus!
