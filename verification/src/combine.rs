//! Combinators over two sequences or two directions: `zip`, `chain`
//! and `rev`.

use vstd::prelude::*;
use core::marker::PhantomData;
use crate::sequence::{Sequence, Finite, DoubleEnded, size_shift};

verus! {

/// `zip(a, b)`: pull one value from each side per call and hand the
/// pair out; exhausted as soon as either side is, never a fair
/// interleave of leftovers.
pub struct Zip<A, B, T1, T2> {
    a: A,
    b: B,
    marker: PhantomData<(T1, T2)>,
}

impl<T1, T2, A: Sequence<T1>, B: Sequence<T2>> Zip<A, B, T1, T2> {
    /// Pair `a` and `b` up, position by position.
    pub fn new(a: A, b: B) -> (m: Self)
        requires
            a.wf(),
            b.wf(),
        ensures
            m.wf(),
            m.sides() == (a, b),
            forall|i: int| #[trigger] m.at(i) == match (a.at(i), b.at(i)) {
                (Some(x), Some(y)) => Some((x, y)),
                _ => None::<(T1, T2)>,
            },
    {
        Zip { a, b, marker: PhantomData }
    }

    /// The two sides of the pairing, for contracts to speak about.
    pub closed spec fn sides(&self) -> (A, B) {
        (self.a, self.b)
    }
}

impl<T1, T2, A: Sequence<T1>, B: Sequence<T2>> Sequence<(T1, T2)> for Zip<A, B, T1, T2> {
    closed spec fn wf(&self) -> bool {
        &&& self.a.wf()
        &&& self.b.wf()
    }

    closed spec fn at(&self, i: int) -> Option<(T1, T2)> {
        match (self.a.at(i), self.b.at(i)) {
            (Some(x), Some(y)) => Some((x, y)),
            _ => None,
        }
    }

    fn pull(&mut self) -> (r: Option<(T1, T2)>) {
        let ra = self.a.pull();
        let rb = self.b.pull();
        match (ra, rb) {
            (Some(x), Some(y)) => Some((x, y)),
            _ => None,
        }
    }
}

/// The paired run is as long as the shorter side: `zip` hands out
/// exactly `min` of the two sizes many pairs, then exhaustion.
impl<T1, T2, A: Finite<T1>, B: Finite<T2>> Finite<(T1, T2)> for Zip<A, B, T1, T2> {
    closed spec fn size(&self) -> nat {
        if self.a.size() <= self.b.size() {
            self.a.size()
        } else {
            self.b.size()
        }
    }

    proof fn size_ok(&self) {
        self.a.size_ok();
        self.b.size_ok();
    }
}

/// A zip of finite runs is as long as its shorter side: it hands out
/// the minimum of the two sizes many pairs and is exhausted from then
/// on.
pub proof fn lemma_zip_min_size<T1, T2, A: Finite<T1>, B: Finite<T2>>(m: &Zip<A, B, T1, T2>)
    requires
        m.wf(),
    ensures
        m.sides().0.size() <= m.sides().1.size() ==> m.size() == m.sides().0.size(),
        m.sides().1.size() <= m.sides().0.size() ==> m.size() == m.sides().1.size(),
{
}

/// `chain(a, b)`: all of `a`'s values, then, from the pull that finds
/// `a` exhausted, all of `b`'s; the switch happens once and is
/// permanent.
pub struct Chain<A, B, T> {
    a: A,
    b: B,
    switched: bool,
    marker: PhantomData<T>,
}

impl<T, A: Finite<T>, B: Sequence<T>> Chain<A, B, T> {
    /// Run through `a`, then through `b`.
    pub fn new(a: A, b: B) -> (m: Self)
        requires
            a.wf(),
            b.wf(),
        ensures
            m.wf(),
            forall|i: int| 0 <= i ==> #[trigger] m.at(i) == (if i < a.size() {
                a.at(i)
            } else {
                b.at(i - a.size())
            }),
    {
        Chain { a, b, switched: false, marker: PhantomData }
    }
}

impl<T, A: Finite<T>, B: Sequence<T>> Sequence<T> for Chain<A, B, T> {
    closed spec fn wf(&self) -> bool {
        &&& self.a.wf()
        &&& self.b.wf()
    }

    closed spec fn at(&self, i: int) -> Option<T> {
        if self.switched {
            self.b.at(i)
        } else if 0 <= i < self.a.size() {
            self.a.at(i)
        } else {
            self.b.at(i - self.a.size())
        }
    }

    fn pull(&mut self) -> (r: Option<T>) {
        if self.switched {
            return self.b.pull();
        }
        let ghost prev = self.a;
        match self.a.pull() {
            Some(x) => {
                proof {
                    prev.size_ok();
                    size_shift(&prev, &self.a);
                }
                Some(x)
            },
            None => {
                proof {
                    prev.size_ok();
                    size_shift(&prev, &self.a);
                }
                self.switched = true;
                self.b.pull()
            },
        }
    }
}

impl<T, A: Finite<T>, B: Finite<T>> Finite<T> for Chain<A, B, T> {
    closed spec fn size(&self) -> nat {
        if self.switched {
            self.b.size()
        } else {
            self.a.size() + self.b.size()
        }
    }

    proof fn size_ok(&self) {
        self.a.size_ok();
        self.b.size_ok();
    }
}

/// `rev()`: the same run of values from the other end.  A forward
/// pull of the reversal is a backward pull of the wrapped sequence,
/// and the other way round.
pub struct Rev<S, T> {
    up: S,
    marker: PhantomData<T>,
}

impl<T, S: DoubleEnded<T>> Rev<S, T> {
    /// Walk `up` from its back end.
    pub fn new(up: S) -> (m: Self)
        requires
            up.wf(),
        ensures
            m.wf(),
            m.size() == up.size(),
            forall|i: int| 0 <= i < up.size() ==> #[trigger] m.at(i) == up.at(up.size() - 1 - i),
    {
        Rev { up, marker: PhantomData }
    }
}

impl<T, S: DoubleEnded<T>> Sequence<T> for Rev<S, T> {
    closed spec fn wf(&self) -> bool {
        self.up.wf()
    }

    closed spec fn at(&self, i: int) -> Option<T> {
        if 0 <= i < self.up.size() {
            self.up.at(self.up.size() - 1 - i)
        } else {
            None
        }
    }

    fn pull(&mut self) -> (r: Option<T>) {
        proof {
            old(self).up.size_ok();
        }
        let r = self.up.pull_back();
        proof {
            self.up.size_ok();
        }
        r
    }
}

impl<T, S: DoubleEnded<T>> Finite<T> for Rev<S, T> {
    closed spec fn size(&self) -> nat {
        self.up.size()
    }

    proof fn size_ok(&self) {
        self.up.size_ok();
    }
}

impl<T, S: DoubleEnded<T>> DoubleEnded<T> for Rev<S, T> {
    fn pull_back(&mut self) -> (r: Option<T>) {
        proof {
            old(self).up.size_ok();
        }
        let ghost prev = self.up;
        let r = self.up.pull();
        proof {
            size_shift(&prev, &self.up);
            self.up.size_ok();
        }
        r
    }
}

} // verus!
