use vstd::prelude::*;

use crate::drops::{drops_total, lemma_total_nonneg, lemma_total_update, lemma_total_uniform, uniform};

verus! {

/// Rain that has fallen on each interior column and not yet been taken up
/// by the flow engine, in drops.
pub struct RainBank {
    drops: Vec<u64>,
}

impl View for RainBank {
    type V = Seq<u64>;

    closed spec fn view(&self) -> Seq<u64> {
        self.drops@
    }
}

impl RainBank {
    /// A bank of `n` entries, each holding `amount` drops.
    pub fn new(n: usize, amount: u64) -> (b: RainBank)
        ensures
            b@ == uniform(n as nat, amount),
            drops_total(b@) == n * amount,
    {
        let mut drops: Vec<u64> = Vec::new();
        let mut i: usize = 0;
        while i < n
            invariant
                i <= n,
                drops@ == uniform(i as nat, amount),
            decreases n - i,
        {
            drops.push(amount);
            i = i + 1;
            assert(drops@ =~= uniform(i as nat, amount));
        }
        proof {
            lemma_total_uniform(n as nat, amount);
        }
        RainBank { drops }
    }

    /// A bank holding the given amounts, one per interior column.
    pub fn from_drops(drops: Vec<u64>) -> (b: RainBank)
        ensures
            b@ == drops@,
    {
        RainBank { drops }
    }

    /// Number of entries.
    pub fn len(&self) -> (r: usize)
        ensures
            r == self@.len(),
    {
        self.drops.len()
    }

    /// Returns the rain held for interior column `i` and empties that entry:
    /// a second claim of the same entry returns 0.
    pub fn claim(&mut self, i: usize) -> (r: u64)
        requires
            i < old(self)@.len(),
        ensures
            r == old(self)@[i as int],
            final(self)@ == old(self)@.update(i as int, 0),
            drops_total(final(self)@) == drops_total(old(self)@) - r,
    {
        let r = self.drops[i];
        self.drops.set(i, 0);
        proof {
            lemma_total_update(old(self)@, i as int, 0);
        }
        r
    }
    /// Empties every entry and returns the rain they held.
    pub fn drain(&mut self) -> (r: u64)
        requires
            drops_total(old(self)@) <= u64::MAX,
        ensures
            r == drops_total(old(self)@),
            final(self)@ == uniform(old(self)@.len(), 0),
            drops_total(final(self)@) == 0,
    {
        let mut acc: u64 = 0;
        let mut i: usize = 0;
        while i < self.drops.len()
            invariant
                i <= self.drops.len(),
                self.drops.len() == old(self)@.len(),
                drops_total(old(self)@) <= u64::MAX,
                acc + drops_total(self.drops@) == drops_total(old(self)@),
                forall|j: int| 0 <= j < i ==> self.drops@[j] == 0,
                forall|j: int| i <= j < self.drops.len() ==> self.drops@[j] == old(self)@[j],
            decreases self.drops.len() - i,
        {
            let got = self.claim(i);
            proof {
                lemma_total_nonneg(self.drops@);
            }
            acc = acc + got;
            i = i + 1;
        }
        assert(self.drops@ =~= uniform(old(self)@.len(), 0));
        proof {
            lemma_total_uniform(old(self)@.len(), 0);
        }
        acc
    }
}

} // verus!
