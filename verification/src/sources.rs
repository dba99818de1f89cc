//! Ground-level producers: a vector drained from either end, a counting
//! run of integers, an endless replay of a fixed lap, and a deliberately
//! unfused producer that resumes after exhaustion.

use vstd::prelude::*;
use vstd::arithmetic::div_mod::{
    lemma_small_mod,
    lemma_mod_add_multiples_vanish,
    lemma_mod_division_less_than_divisor,
};
use crate::sequence::{Sequence, Finite, DoubleEnded};

verus! {

/// A sequence that hands out the elements of a vector in order.
pub struct VecSource<T> {
    items: Vec<T>,
}

impl<T> VecSource<T> {
    /// Wrap a vector; its elements come out front to back.
    pub fn new(items: Vec<T>) -> (s: Self)
        ensures
            s.wf(),
            s.size() == items@.len(),
            forall|i: int| 0 <= i < items@.len() ==> #[trigger] s.at(i) == Some(items@[i]),
    {
        VecSource { items }
    }
}

impl<T> Sequence<T> for VecSource<T> {
    closed spec fn wf(&self) -> bool {
        true
    }

    closed spec fn at(&self, i: int) -> Option<T> {
        if 0 <= i < self.items@.len() {
            Some(self.items@[i])
        } else {
            None
        }
    }

    fn pull(&mut self) -> (r: Option<T>) {
        if self.items.len() > 0 {
            let x = self.items.remove(0);
            Some(x)
        } else {
            None
        }
    }
}

impl<T> Finite<T> for VecSource<T> {
    closed spec fn size(&self) -> nat {
        self.items@.len()
    }

    proof fn size_ok(&self) {
    }
}

impl<T> DoubleEnded<T> for VecSource<T> {
    fn pull_back(&mut self) -> (r: Option<T>) {
        self.items.pop()
    }
}

impl<T: Copy> VecSource<T> {
    /// Replay the values still to come, over and over, forever.
    /// A source that has nothing left gives an exhausted replay.
    pub fn cycled(self) -> (c: Cycle<T>)
        ensures
            c.wf(),
            self.size() == 0 ==> forall|i: int| (#[trigger] c.at(i)) is None,
            self.size() > 0 ==> forall|i: int|
                0 <= i ==> #[trigger] c.at(i) == self.at(i % self.size() as int),
    {
        proof {
            if self.size() > 0 {
                assert forall|i: int| 0 <= i implies (Cycle {
                    base: self.items,
                    k: 0usize,
                }).at(i) == self.at(i % self.size() as int) by {
                    lemma_mod_division_less_than_divisor(i, self.items@.len() as int);
                }
            }
        }
        Cycle { base: self.items, k: 0 }
    }
}

/// A counting sequence: the integers from `next` up to, and not
/// including, `limit`.
pub struct Counter {
    next: u64,
    limit: u64,
}

impl Counter {
    /// The integers from `lo` up to, and not including, `hi`.  With
    /// `hi` at the top of the machine's range the run is counting for
    /// every practical purpose.
    pub fn new(lo: u64, hi: u64) -> (c: Self)
        requires
            lo <= hi,
        ensures
            c.wf(),
            c.size() == hi - lo,
            forall|i: int| 0 <= i < hi - lo ==> #[trigger] c.at(i) == Some((lo + i) as u64),
    {
        Counter { next: lo, limit: hi }
    }
}

impl Sequence<u64> for Counter {
    closed spec fn wf(&self) -> bool {
        self.next <= self.limit
    }

    closed spec fn at(&self, i: int) -> Option<u64> {
        if 0 <= i && self.next + i < self.limit {
            Some((self.next + i) as u64)
        } else {
            None
        }
    }

    fn pull(&mut self) -> (r: Option<u64>) {
        if self.next < self.limit {
            let x = self.next;
            self.next = self.next + 1;
            Some(x)
        } else {
            None
        }
    }
}

impl Finite<u64> for Counter {
    closed spec fn size(&self) -> nat {
        (self.limit - self.next) as nat
    }

    proof fn size_ok(&self) {
    }
}

impl DoubleEnded<u64> for Counter {
    fn pull_back(&mut self) -> (r: Option<u64>) {
        if self.next < self.limit {
            self.limit = self.limit - 1;
            Some(self.limit)
        } else {
            None
        }
    }
}

/// An endless replay of a fixed lap of values.  An empty lap gives a
/// sequence that is exhausted from the start, so a consumer never
/// waits on a replay that cannot produce anything.
pub struct Cycle<T> {
    base: Vec<T>,
    k: usize,
}

impl<T: Copy> Cycle<T> {
    /// Replay the elements of `lap` in order, forever.
    pub fn new(lap: Vec<T>) -> (c: Self)
        ensures
            c.wf(),
            lap@.len() == 0 ==> forall|i: int| (#[trigger] c.at(i)) is None,
            lap@.len() > 0 ==> forall|i: int|
                0 <= i ==> #[trigger] c.at(i) == Some(lap@[i % lap@.len() as int]),
    {
        proof {
            if lap@.len() > 0 {
                assert forall|i: int| 0 <= i implies (Cycle { base: lap, k: 0usize }).at(i)
                    == Some(lap@[i % lap@.len() as int]) by {
                    lemma_mod_division_less_than_divisor(i, lap@.len() as int);
                }
            }
        }
        Cycle { base: lap, k: 0 }
    }
}

impl<T: Copy> Sequence<T> for Cycle<T> {
    closed spec fn wf(&self) -> bool {
        if self.base@.len() == 0 {
            self.k == 0
        } else {
            self.k < self.base@.len()
        }
    }

    closed spec fn at(&self, i: int) -> Option<T> {
        if self.base@.len() == 0 {
            None
        } else {
            Some(self.base@[(self.k + i) % self.base@.len() as int])
        }
    }

    fn pull(&mut self) -> (r: Option<T>) {
        if self.base.len() == 0 {
            return None;
        }
        let ghost n = self.base@.len() as int;
        let ghost k0 = self.k as int;
        let x = self.base[self.k];
        proof {
            lemma_small_mod(self.k as nat, self.base@.len());
        }
        self.k = if self.k + 1 == self.base.len() {
            0
        } else {
            self.k + 1
        };
        proof {
            assert forall|i: int| 0 <= i implies #[trigger] self.at(i) == old(self).at(i + 1) by {
                if k0 + 1 == n {
                    lemma_mod_add_multiples_vanish(i, n);
                    assert((k0 + (i + 1)) % n == (n + i) % n);
                }
            }
        }
        Some(x)
    }
}

/// A deliberately unfused producer: it hands out its value, signals
/// exhaustion, then hands the value out again, alternating forever.
/// It exists to show that the pull protocol allows a producer to
/// resume after exhaustion, and to give the `Fuse` adapter something
/// to tame.
pub struct Flicker<T> {
    item: T,
    on: bool,
}

impl<T: Copy> Flicker<T> {
    /// A flickering producer that starts ready to hand `item` out.
    pub fn new(item: T) -> (f: Self)
        ensures
            f.wf(),
            forall|i: int| 0 <= i ==> #[trigger] f.at(i) == (if i % 2 == 0 {
                Some(item)
            } else {
                None
            }),
    {
        Flicker { item, on: true }
    }
}

impl<T: Copy> Sequence<T> for Flicker<T> {
    closed spec fn wf(&self) -> bool {
        true
    }

    closed spec fn at(&self, i: int) -> Option<T> {
        if (i % 2 == 0) == self.on {
            Some(self.item)
        } else {
            None
        }
    }

    fn pull(&mut self) -> (r: Option<T>) {
        let r = if self.on {
            Some(self.item)
        } else {
            None
        };
        self.on = !self.on;
        proof {
            assert forall|i: int| 0 <= i implies #[trigger] self.at(i) == old(self).at(i + 1) by {
                assert(((i + 1) % 2 == 0) <==> (i % 2 != 0)) by (nonlinear_arith);
            }
        }
        r
    }
}

} // verus!
