use vstd::prelude::*;

verus! {

/// Thousandths in one whole coin.
pub const COIN: u64 = 1000;

/// A capped stock of coins, kept in thousandths of a coin so that accrual over
/// short ticks loses nothing.
#[derive(Debug)]
pub struct Item {
    count: u64,
    capacity: u32,
}

/// The coins of one side.
#[derive(Debug)]
pub struct Inventory {
    pub coins: Item,
}

/// What adding `added` thousandths to a stock of `amount` under a cap of `limit`
/// leaves over.
pub open spec fn overflow_of(amount: int, added: int, limit: int) -> int {
    if amount + added >= limit {
        amount + added - limit
    } else {
        0
    }
}

/// The stock after adding `added` thousandths to `amount` under a cap of `limit`.
pub open spec fn filled(amount: int, added: int, limit: int) -> int {
    if amount + added >= limit {
        limit
    } else {
        amount + added
    }
}

impl Item {
    #[verifier::type_invariant]
    spec fn within_capacity(&self) -> bool {
        self.count <= self.capacity * COIN
    }

    /// The stock, in thousandths of a coin.
    pub closed spec fn amount(&self) -> nat {
        self.count as nat
    }

    /// The cap, in thousandths of a coin.
    pub closed spec fn limit(&self) -> nat {
        (self.capacity * COIN) as nat
    }

    /// An empty stock that holds at most `capacity` whole coins.
    pub fn empty(capacity: u32) -> (r: Item)
        ensures
            r.amount() == 0,
            r.limit() == capacity * COIN,
    {
        Item { count: 0, capacity }
    }

    /// A stock of `count` whole coins under a cap of `capacity` whole coins.
    pub fn new(count: u32, capacity: u32) -> (r: Item)
        requires
            count <= capacity,
        ensures
            r.amount() == count * COIN,
            r.limit() == capacity * COIN,
    {
        Item { count: count as u64 * COIN, capacity }
    }

    /// The whole coins in stock (fractions are dropped).
    pub fn count(&self) -> (r: u32)
        ensures
            r == self.amount() / (COIN as nat),
    {
        proof {
            use_type_invariant(self);
        }
        (self.count / COIN) as u32
    }

    /// The cap, in whole coins.
    pub fn capacity(&self) -> (r: u32)
        ensures
            r * COIN == self.limit(),
    {
        self.capacity
    }

    /// The stock, in thousandths of a coin.
    pub fn thousandths(&self) -> (r: u64)
        ensures
            r == self.amount(),
            r <= self.limit(),
    {
        proof {
            use_type_invariant(self);
        }
        self.count
    }

    /// Adds `amount` thousandths up to the cap and returns what did not fit.
    pub fn add_until_full(&mut self, amount: u64) -> (rest: u64)
        ensures
            old(self).amount() <= old(self).limit(),
            final(self).amount() <= final(self).limit(),
            final(self).limit() == old(self).limit(),
            final(self).amount() == filled(old(self).amount() as int, amount as int, old(self).limit() as int),
            rest == overflow_of(old(self).amount() as int, amount as int, old(self).limit() as int),
    {
        proof {
            use_type_invariant(&*self);
        }
        let total: u128 = self.count as u128 + amount as u128;
        let limit: u64 = self.capacity as u64 * COIN;
        if total >= limit as u128 {
            self.count = limit;
            (total - limit as u128) as u64
        } else {
            self.count = total as u64;
            0
        }
    }

    /// Accrues `rate` coins per second over `dt_ms` milliseconds, up to the cap, and
    /// returns the thousandths that did not fit.
    pub fn accrue(&mut self, rate: u32, dt_ms: u32) -> (rest: u64)
        ensures
            old(self).amount() <= old(self).limit(),
            final(self).amount() <= final(self).limit(),
            final(self).limit() == old(self).limit(),
            final(self).amount() == filled(old(self).amount() as int, rate * dt_ms, old(self).limit() as int),
            rest == overflow_of(old(self).amount() as int, rate * dt_ms, old(self).limit() as int),
    {
        proof {
            assert(rate * dt_ms <= u32::MAX * u32::MAX) by (nonlinear_arith);
        }
        self.add_until_full(rate as u64 * dt_ms as u64)
    }

    /// Takes `amount` whole coins if the stock holds them; otherwise changes nothing.
    pub fn try_remove(&mut self, amount: u32) -> (ok: bool)
        ensures
            ok == (old(self).amount() >= amount * COIN),
            ok ==> final(self).amount() == old(self).amount() - amount * COIN,
            !ok ==> final(self).amount() == old(self).amount(),
            final(self).limit() == old(self).limit(),
            final(self).amount() <= final(self).limit(),
    {
        proof {
            use_type_invariant(&*self);
        }
        let price: u64 = amount as u64 * COIN;
        if self.count >= price {
            self.count = self.count - price;
            true
        } else {
            false
        }
    }
}

} // verus!
