use vstd::prelude::*;

verus! {

/// Total issued amount of one token.
#[derive(Debug, Clone, Copy, PartialEq, Eq, Structural)]
pub struct TokenSupply {
    pub total: u128,
}

impl TokenSupply {
    pub fn new() -> (r: Self)
        ensures
            r.total == 0,
    {
        Self { total: 0 }
    }

    /// Adds `amount` to the total; `None`, with nothing changed, when the
    /// amount is zero or the total would leave the 128-bit range.
    pub fn mint(&mut self, amount: u128) -> (r: Option<u128>)
        ensures
            (r is Some) == (amount > 0 && old(self).total + amount <= u128::MAX),
            r is Some ==> final(self).total == old(self).total + amount && r == Some(final(self).total),
            r is None ==> *final(self) == *old(self),
    {
        if amount == 0 {
            return None;
        }
        match self.total.checked_add(amount) {
            Some(t) => {
                self.total = t;
                Some(t)
            },
            None => None,
        }
    }

    /// Takes `amount` off the total; `None`, with nothing changed, when the
    /// amount is zero or exceeds the total.
    pub fn burn(&mut self, amount: u128) -> (r: Option<u128>)
        ensures
            (r is Some) == (amount > 0 && amount <= old(self).total),
            r is Some ==> final(self).total == old(self).total - amount && r == Some(final(self).total),
            r is None ==> *final(self) == *old(self),
    {
        if amount == 0 || amount > self.total {
            return None;
        }
        self.total = self.total - amount;
        Some(self.total)
    }
}

/// Descriptive data of a token; the symbol is its key in a ledger.
#[derive(Debug, Clone)]
pub struct TokenMeta {
    pub symbol: String,
    pub decimals: u8,
    pub name: String,
}

impl TokenMeta {
    pub fn new(symbol: &str, decimals: u8, name: &str) -> (r: Self)
        ensures
            r.symbol@ == symbol@,
            r.decimals == decimals,
            r.name@ == name@,
    {
        Self { symbol: symbol.to_owned(), decimals, name: name.to_owned() }
    }

    /// Whether two records describe the same token in the same way.
    pub open spec fn same_as(&self, other: &TokenMeta) -> bool {
        &&& self.symbol@ == other.symbol@
        &&& self.decimals == other.decimals
        &&& self.name@ == other.name@
    }
}

} // verus!
