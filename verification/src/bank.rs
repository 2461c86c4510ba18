//! A piggy bank that counts coins by kind.

use std::collections::HashMap;
use vstd::prelude::*;

verus! {

/// The kinds of coin.
#[derive(Clone, Copy, Debug, PartialEq, Eq, Hash, Structural)]
pub enum CoinType {
    TwoDollar,
    OneDollar,
    FiftyCents,
    TwentyCents,
    TenCents,
    FiveCents,
}

/// What a coin of kind `t` is worth, in cents.
pub open spec fn cents_of(t: CoinType) -> nat {
    match t {
        CoinType::TwoDollar => 200,
        CoinType::OneDollar => 100,
        CoinType::FiftyCents => 50,
        CoinType::TwentyCents => 20,
        CoinType::TenCents => 10,
        CoinType::FiveCents => 5,
    }
}

impl CoinType {
    /// What one coin of this kind is worth, in cents.
    pub fn cents(self) -> (c: u64)
        ensures
            c == cents_of(self),
    {
        match self {
            CoinType::TwoDollar => 200,
            CoinType::OneDollar => 100,
            CoinType::FiftyCents => 50,
            CoinType::TwentyCents => 20,
            CoinType::TenCents => 10,
            CoinType::FiveCents => 5,
        }
    }
}

/// A bank that holds a count of coins for each kind. A count that would pass
/// `usize::MAX` stays there.
pub struct PiggyBank {
    coins: HashMap<u64, usize>,
}

/// `a + b`, or `usize::MAX` where that is less.
pub open spec fn capped_sum(a: int, b: int) -> int {
    if a + b > usize::MAX {
        usize::MAX as int
    } else {
        a + b
    }
}

/// `a * b`, or `usize::MAX` where that is less.
fn times_capped(a: usize, b: usize) -> (p: usize)
    ensures
        p == if a * b > usize::MAX {
            usize::MAX as int
        } else {
            a * b
        },
{
    match a.checked_mul(b) {
        Some(p) => p,
        None => usize::MAX,
    }
}

impl PiggyBank {
    /// The number of coins of kind `t` in the bank.
    pub closed spec fn count(&self, t: CoinType) -> nat {
        if self.coins@.contains_key(cents_of(t) as u64) {
            self.coins@[cents_of(t) as u64] as nat
        } else {
            0
        }
    }

    /// What the coins in the bank are worth together, in cents.
    pub open spec fn total_cents(&self) -> nat {
        self.count(CoinType::TwoDollar) * 200 + self.count(CoinType::OneDollar) * 100 + self.count(
            CoinType::FiftyCents,
        ) * 50 + self.count(CoinType::TwentyCents) * 20 + self.count(CoinType::TenCents) * 10
            + self.count(CoinType::FiveCents) * 5
    }

    /// An empty bank.
    pub fn new() -> (bank: Self)
        ensures
            forall|t: CoinType| bank.count(t) == 0,
    {
        PiggyBank { coins: HashMap::new() }
    }

    /// Puts `amt` coins of kind `t` into the bank.
    pub fn push_coin(&mut self, t: CoinType, amt: usize)
        ensures
            final(self).count(t) == capped_sum(old(self).count(t) as int, amt as int),
            forall|u: CoinType| u != t ==> final(self).count(u) == old(self).count(u),
    {
        let key = t.cents();
        let had: usize = match self.coins.get(&key) {
            Some(n) => *n,
            None => 0,
        };
        self.coins.insert(key, had.saturating_add(amt));
        proof {
            assert forall|u: CoinType| u != t implies self.count(u) == old(self).count(u) by {
                assert(cents_of(u) != cents_of(t));
            }
        }
    }

    /// The number of coins of kind `t` in the bank.
    pub fn coins_of(&self, t: CoinType) -> (n: usize)
        ensures
            n == self.count(t),
    {
        match self.coins.get(&t.cents()) {
            Some(n) => *n,
            None => 0,
        }
    }

    /// What the coins in the bank are worth together, in cents, or
    /// `usize::MAX` where that is less.
    pub fn worth_in_cents(&self) -> (total: usize)
        ensures
            total == if self.total_cents() > usize::MAX {
                usize::MAX as nat
            } else {
                self.total_cents()
            },
    {
        let mut total: usize = 0;
        total = total.saturating_add(times_capped(self.coins_of(CoinType::TwoDollar), 200));
        total = total.saturating_add(times_capped(self.coins_of(CoinType::OneDollar), 100));
        total = total.saturating_add(times_capped(self.coins_of(CoinType::FiftyCents), 50));
        total = total.saturating_add(times_capped(self.coins_of(CoinType::TwentyCents), 20));
        total = total.saturating_add(times_capped(self.coins_of(CoinType::TenCents), 10));
        total = total.saturating_add(times_capped(self.coins_of(CoinType::FiveCents), 5));
        total
    }
}

} // verus!
