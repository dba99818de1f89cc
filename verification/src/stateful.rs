//! Stateful adapters: `take-while`, `skip-while`, `scan`, `fuse`,
//! `peek` and `enumerate`.  Each carries a one-way piece of state —
//! a halt flag, a pass-through flag, an accumulator, a cached value or
//! a counter — beside its upstream sequence.

use vstd::prelude::*;
use core::marker::PhantomData;
use crate::sequence::{Sequence, Finite, accepts_all, single_valued, accepts_all2, single_valued2,
    elems, fn_of, fn2_of, size_shift, elems_shift};

verus! {

/// The longest prefix of `s` on which `p` holds everywhere.
pub open spec fn prefix_while<T>(s: Seq<T>, p: spec_fn(T) -> bool) -> Seq<T>
    decreases s.len(),
{
    if s.len() == 0 {
        Seq::empty()
    } else if p(s[0]) {
        seq![s[0]] + prefix_while(s.drop_first(), p)
    } else {
        Seq::empty()
    }
}

/// What is left of `s` from its first element on which `p` fails:
/// that element and everything after it, kept unconditionally.
pub open spec fn suffix_from<T>(s: Seq<T>, p: spec_fn(T) -> bool) -> Seq<T>
    decreases s.len(),
{
    if s.len() == 0 {
        Seq::empty()
    } else if p(s[0]) {
        suffix_from(s.drop_first(), p)
    } else {
        s
    }
}

/// Taking while `p` holds and skipping while `p` holds split a run
/// around its first failing element: together they give the run back,
/// with no element dropped or doubled at the boundary.
pub proof fn lemma_take_skip_partition<T>(s: Seq<T>, p: spec_fn(T) -> bool)
    ensures
        prefix_while(s, p) + suffix_from(s, p) == s,
    decreases s.len(),
{
    if s.len() == 0 {
        assert(prefix_while(s, p) + suffix_from(s, p) =~= s);
    } else if p(s[0]) {
        lemma_take_skip_partition(s.drop_first(), p);
        assert(s =~= seq![s[0]] + s.drop_first());
        assert((seq![s[0]] + prefix_while(s.drop_first(), p)) + suffix_from(s.drop_first(), p)
            =~= seq![s[0]] + (prefix_while(s.drop_first(), p) + suffix_from(s.drop_first(), p)));
        assert(prefix_while(s, p) + suffix_from(s, p) =~= s);
    } else {
        assert(prefix_while(s, p) + suffix_from(s, p) =~= s);
    }
}

/// `take-while(p)`: hand values on while `p` holds of them.  The first
/// failing value is consumed upstream but not handed on, and from then
/// on the adapter is halted for good.
pub struct TakeWhile<S, P, T> {
    up: S,
    p: P,
    halted: bool,
    marker: PhantomData<T>,
}

impl<T: Copy, S: Finite<T>, P: Fn(T) -> bool> TakeWhile<S, P, T> {
    /// Wrap `up`; values come through until `p` first fails.
    pub fn new(up: S, p: P) -> (m: Self)
        requires
            up.wf(),
            accepts_all(p),
            single_valued(p),
        ensures
            m.wf(),
            m.size() == prefix_while(elems(&up), fn_of(p)).len(),
            forall|i: int| #[trigger] m.at(i) == {
                let out = prefix_while(elems(&up), fn_of(p));
                if 0 <= i < out.len() {
                    Some(out[i])
                } else {
                    None::<T>
                }
            },
    {
        TakeWhile { up, p, halted: false, marker: PhantomData }
    }
}

impl<T: Copy, S: Finite<T>, P: Fn(T) -> bool> Sequence<T> for TakeWhile<S, P, T> {
    closed spec fn wf(&self) -> bool {
        &&& self.up.wf()
        &&& accepts_all(self.p)
        &&& single_valued(self.p)
    }

    closed spec fn at(&self, i: int) -> Option<T> {
        if self.halted {
            None
        } else {
            let out = prefix_while(elems(&self.up), fn_of(self.p));
            if 0 <= i < out.len() {
                Some(out[i])
            } else {
                None
            }
        }
    }

    fn pull(&mut self) -> (r: Option<T>) {
        if self.halted {
            return None;
        }
        let ghost prev = self.up;
        match self.up.pull() {
            None => {
                proof {
                    prev.size_ok();
                    assert(elems(&prev).len() == 0);
                    elems_shift(&prev, &self.up);
                }
                None
            },
            Some(x) => {
                proof {
                    prev.size_ok();
                    size_shift(&prev, &self.up);
                    elems_shift(&prev, &self.up);
                    assert(elems(&prev)[0] == x);
                    assert(elems(&prev).drop_first() == elems(&self.up));
                }
                let keep = (self.p)(x);
                proof {
                    assert(keep == fn_of(self.p)(x));
                }
                if keep {
                    proof {
                        assert(prefix_while(elems(&prev), fn_of(self.p)) == seq![x]
                            + prefix_while(elems(&self.up), fn_of(self.p)));
                    }
                    Some(x)
                } else {
                    self.halted = true;
                    None
                }
            },
        }
    }
}

impl<T: Copy, S: Finite<T>, P: Fn(T) -> bool> Finite<T> for TakeWhile<S, P, T> {
    closed spec fn size(&self) -> nat {
        if self.halted {
            0
        } else {
            prefix_while(elems(&self.up), fn_of(self.p)).len()
        }
    }

    proof fn size_ok(&self) {
    }
}

/// `skip-while(p)`: discard leading values while `p` holds of them;
/// from the first failing value on, everything is handed through
/// unconditionally.
pub struct SkipWhile<S, P, T> {
    up: S,
    p: P,
    passing: bool,
    marker: PhantomData<T>,
}

impl<T: Copy, S: Finite<T>, P: Fn(T) -> bool> SkipWhile<S, P, T> {
    /// Wrap `up`; values are dropped until `p` first fails, and come
    /// through untouched from then on.
    pub fn new(up: S, p: P) -> (m: Self)
        requires
            up.wf(),
            accepts_all(p),
            single_valued(p),
        ensures
            m.wf(),
            m.size() == suffix_from(elems(&up), fn_of(p)).len(),
            forall|i: int| #[trigger] m.at(i) == {
                let out = suffix_from(elems(&up), fn_of(p));
                if 0 <= i < out.len() {
                    Some(out[i])
                } else {
                    None::<T>
                }
            },
    {
        SkipWhile { up, p, passing: false, marker: PhantomData }
    }
}

impl<T: Copy, S: Finite<T>, P: Fn(T) -> bool> Sequence<T> for SkipWhile<S, P, T> {
    closed spec fn wf(&self) -> bool {
        &&& self.up.wf()
        &&& accepts_all(self.p)
        &&& single_valued(self.p)
    }

    closed spec fn at(&self, i: int) -> Option<T> {
        if self.passing {
            self.up.at(i)
        } else {
            let out = suffix_from(elems(&self.up), fn_of(self.p));
            if 0 <= i < out.len() {
                Some(out[i])
            } else {
                None
            }
        }
    }

    fn pull(&mut self) -> (r: Option<T>) {
        if self.passing {
            return self.up.pull();
        }
        loop
            invariant
                self.up.wf(),
                accepts_all(self.p),
                single_valued(self.p),
                self.p == old(self).p,
                !self.passing,
                !old(self).passing,
                old(self).wf(),
                suffix_from(elems(&self.up), fn_of(self.p)) == suffix_from(
                    elems(&old(self).up),
                    fn_of(old(self).p),
                ),
            decreases self.up.size(),
        {
            let ghost prev = self.up;
            match self.up.pull() {
                None => {
                    proof {
                        prev.size_ok();
                        assert(elems(&prev).len() == 0);
                        elems_shift(&prev, &self.up);
                    }
                    return None;
                },
                Some(x) => {
                    proof {
                        prev.size_ok();
                        size_shift(&prev, &self.up);
                        elems_shift(&prev, &self.up);
                        assert(elems(&prev)[0] == x);
                        assert(elems(&prev).drop_first() == elems(&self.up));
                    }
                    let drop_it = (self.p)(x);
                    proof {
                        assert(drop_it == fn_of(self.p)(x));
                    }
                    if !drop_it {
                        self.passing = true;
                        proof {
                            self.up.size_ok();
                            assert(suffix_from(elems(&prev), fn_of(self.p)) == elems(&prev));
                        }
                        return Some(x);
                    }
                },
            }
        }
    }
}

impl<T: Copy, S: Finite<T>, P: Fn(T) -> bool> Finite<T> for SkipWhile<S, P, T> {
    closed spec fn size(&self) -> nat {
        if self.passing {
            self.up.size()
        } else {
            suffix_from(elems(&self.up), fn_of(self.p)).len()
        }
    }

    proof fn size_ok(&self) {
        if self.passing {
            self.up.size_ok();
        }
    }
}

/// What a scan emits: the step function folds an accumulator over the
/// run and emits one optional value per input; the first step that
/// emits nothing ends the run for good.
pub open spec fn scan_out<A, T, U>(a: A, s: Seq<T>, g: spec_fn(A, T) -> (A, Option<U>)) -> Seq<U>
    decreases s.len(),
{
    if s.len() == 0 {
        Seq::empty()
    } else {
        let step = g(a, s[0]);
        match step.1 {
            Some(u) => seq![u] + scan_out(step.0, s.drop_first(), g),
            None => Seq::empty(),
        }
    }
}

/// `scan(a, f)`: carry an accumulator across the run.  Each upstream
/// value is fed to `f` with the accumulator; `f` gives the new
/// accumulator and an optional output.  A step with no output halts
/// the adapter permanently.
pub struct Scan<S, F, A, T, U> {
    up: S,
    f: F,
    acc: A,
    halted: bool,
    marker: PhantomData<(T, U)>,
}

impl<A: Copy, T, U, S: Finite<T>, F: Fn(A, T) -> (A, Option<U>)> Scan<S, F, A, T, U> {
    /// Wrap `up` with the starting accumulator `a` and step `f`.
    pub fn new(up: S, a: A, f: F) -> (m: Self)
        requires
            up.wf(),
            accepts_all2(f),
            single_valued2(f),
        ensures
            m.wf(),
            m.size() == scan_out(a, elems(&up), fn2_of(f)).len(),
            forall|i: int| #[trigger] m.at(i) == {
                let out = scan_out(a, elems(&up), fn2_of(f));
                if 0 <= i < out.len() {
                    Some(out[i])
                } else {
                    None::<U>
                }
            },
    {
        Scan { up, f, acc: a, halted: false, marker: PhantomData }
    }
}

impl<A: Copy, T, U, S: Finite<T>, F: Fn(A, T) -> (A, Option<U>)> Sequence<U> for Scan<
    S,
    F,
    A,
    T,
    U,
> {
    closed spec fn wf(&self) -> bool {
        &&& self.up.wf()
        &&& accepts_all2(self.f)
        &&& single_valued2(self.f)
    }

    closed spec fn at(&self, i: int) -> Option<U> {
        if self.halted {
            None
        } else {
            let out = scan_out(self.acc, elems(&self.up), fn2_of(self.f));
            if 0 <= i < out.len() {
                Some(out[i])
            } else {
                None
            }
        }
    }

    fn pull(&mut self) -> (r: Option<U>) {
        if self.halted {
            return None;
        }
        let ghost prev = *self;
        match self.up.pull() {
            None => {
                proof {
                    prev.up.size_ok();
                    assert(elems(&prev.up).len() == 0);
                    elems_shift(&prev.up, &self.up);
                }
                None
            },
            Some(x) => {
                proof {
                    prev.up.size_ok();
                    size_shift(&prev.up, &self.up);
                    elems_shift(&prev.up, &self.up);
                    assert(elems(&prev.up)[0] == x);
                    assert(elems(&prev.up).drop_first() == elems(&self.up));
                }
                let step = (self.f)(self.acc, x);
                proof {
                    assert(step == fn2_of(self.f)(prev.acc, x));
                }
                self.acc = step.0;
                match step.1 {
                    Some(u) => {
                        proof {
                            assert(scan_out(prev.acc, elems(&prev.up), fn2_of(self.f)) == seq![u]
                                + scan_out(self.acc, elems(&self.up), fn2_of(self.f)));
                        }
                        Some(u)
                    },
                    None => {
                        self.halted = true;
                        None
                    },
                }
            },
        }
    }
}

impl<A: Copy, T, U, S: Finite<T>, F: Fn(A, T) -> (A, Option<U>)> Finite<U> for Scan<
    S,
    F,
    A,
    T,
    U,
> {
    closed spec fn size(&self) -> nat {
        if self.halted {
            0
        } else {
            scan_out(self.acc, elems(&self.up), fn2_of(self.f)).len()
        }
    }

    proof fn size_ok(&self) {
    }
}

/// `fuse()`: pass the upstream stream through up to its first
/// exhaustion signal, and from then on signal exhaustion forever, even
/// over an upstream that would resume.
pub struct Fuse<S, T> {
    up: S,
    done: bool,
    marker: PhantomData<T>,
}

impl<T, S: Sequence<T>> Fuse<S, T> {
    /// Wrap `up`; its stream is cut off at its first exhaustion.
    pub fn new(up: S) -> (m: Self)
        requires
            up.wf(),
        ensures
            m.wf(),
            forall|i: int| 0 <= i ==> #[trigger] m.at(i) == (if (forall|j: int|
                0 <= j <= i ==> (#[trigger] up.at(j)) is Some) {
                up.at(i)
            } else {
                None::<T>
            }),
    {
        Fuse { up, done: false, marker: PhantomData }
    }
}

impl<T, S: Sequence<T>> Sequence<T> for Fuse<S, T> {
    closed spec fn wf(&self) -> bool {
        self.up.wf()
    }

    closed spec fn at(&self, i: int) -> Option<T> {
        if self.done {
            None
        } else if (forall|j: int| 0 <= j <= i ==> (#[trigger] self.up.at(j)) is Some) {
            self.up.at(i)
        } else {
            None
        }
    }

    fn pull(&mut self) -> (r: Option<T>) {
        if self.done {
            return None;
        }
        let ghost prev = self.up;
        match self.up.pull() {
            Some(x) => {
                proof {
                    assert(prev.at(0) == Some(x));
                    assert forall|i: int| 0 <= i implies #[trigger] self.at(i) == old(self).at(
                        i + 1,
                    ) by {
                        if forall|j: int| 0 <= j <= i ==> (#[trigger] self.up.at(j)) is Some {
                            assert forall|j: int| 0 <= j <= i + 1 implies (#[trigger] prev.at(
                                j,
                            )) is Some by {
                                if j > 0 {
                                    assert(self.up.at(j - 1) is Some);
                                }
                            }
                            assert(self.at(i) == self.up.at(i));
                            assert(old(self).at(i + 1) == prev.at(i + 1));
                        } else {
                            let w = choose|j: int|
                                0 <= j <= i && !((#[trigger] self.up.at(j)) is Some);
                            assert(prev.at(w + 1) is None);
                            assert(!(forall|j: int|
                                0 <= j <= i + 1 ==> (#[trigger] prev.at(j)) is Some));
                            assert(old(self).at(i + 1) is None);
                        }
                    }
                }
                Some(x)
            },
            None => {
                proof {
                    assert(prev.at(0) is None);
                    assert(old(self).at(0) is None);
                    assert forall|i: int| 0 <= i implies (#[trigger] old(self).at(i + 1)) is None by {
                        assert(!(forall|j: int|
                            0 <= j <= i + 1 ==> (#[trigger] prev.at(j)) is Some));
                    }
                }
                self.done = true;
                None
            },
        }
    }
}

impl<T, S: Finite<T>> Finite<T> for Fuse<S, T> {
    closed spec fn size(&self) -> nat {
        if self.done {
            0
        } else {
            self.up.size()
        }
    }

    proof fn size_ok(&self) {
        self.up.size_ok();
        if !self.done {
            assert forall|i: int| 0 <= i < self.size() implies (#[trigger] self.at(i)) is Some by {
                assert forall|j: int| 0 <= j <= i implies (#[trigger] self.up.at(j)) is Some by {
                    assert(j < self.up.size());
                }
            }
            assert forall|i: int| i >= self.size() implies (#[trigger] self.at(i)) is None by {
                assert(self.up.at(self.size() as int) is None);
                assert(!(forall|j: int| 0 <= j <= i ==> (#[trigger] self.up.at(j)) is Some));
            }
        }
    }
}

/// Exhaustion is permanent for a fused sequence: wherever its stream
/// signals exhaustion, every later position signals it too, whatever
/// the wrapped sequence would have done.
pub proof fn lemma_fuse_stays_exhausted<T, S: Sequence<T>>(m: &Fuse<S, T>, i: int, j: int)
    requires
        0 <= i <= j,
        m.at(i) is None,
    ensures
        m.at(j) is None,
{
    if !m.done {
        if forall|k: int| 0 <= k <= i ==> (#[trigger] m.up.at(k)) is Some {
            assert(m.up.at(i) is None);
            assert(m.up.at(i) is Some);
        } else {
            let w = choose|k: int| 0 <= k <= i && !((#[trigger] m.up.at(k)) is Some);
            assert(0 <= w <= j && m.up.at(w) is None);
            assert(!(forall|k: int| 0 <= k <= j ==> (#[trigger] m.up.at(k)) is Some));
        }
    }
}

/// `peek()`: look at the next value without consuming it.  A peeked
/// answer, exhaustion included, is cached so that the following pull
/// hands out the same answer; upstream is pulled at most once per
/// distinct upcoming answer.
pub struct Peekable<S, T> {
    up: S,
    slot: Option<Option<T>>,
}

impl<T: Copy, S: Finite<T>> Peekable<S, T> {
    /// Wrap `up` with an empty look-ahead cache.
    pub fn new(up: S) -> (m: Self)
        requires
            up.wf(),
        ensures
            m.wf(),
            m.size() == up.size(),
            forall|i: int| #[trigger] m.at(i) == up.at(i),
    {
        Peekable { up, slot: None }
    }

    /// The next answer of the stream, without consuming it: the
    /// stream reads the same after the call, and the following pull
    /// gives this same answer.
    pub fn peek(&mut self) -> (r: Option<T>)
        requires
            old(self).wf(),
        ensures
            final(self).wf(),
            r == old(self).at(0),
            final(self).size() == old(self).size(),
            forall|i: int| 0 <= i ==> #[trigger] final(self).at(i) == old(self).at(i),
    {
        match self.slot {
            Some(o) => o,
            None => {
                let ghost prev = self.up;
                let got = self.up.pull();
                proof {
                    prev.size_ok();
                    size_shift(&prev, &self.up);
                }
                self.slot = Some(got);
                got
            },
        }
    }
}

impl<T: Copy, S: Finite<T>> Sequence<T> for Peekable<S, T> {
    closed spec fn wf(&self) -> bool {
        &&& self.up.wf()
        &&& self.slot == Some(None::<T>) ==> self.up.size() == 0
    }

    closed spec fn at(&self, i: int) -> Option<T> {
        match self.slot {
            None => self.up.at(i),
            Some(o) => if i == 0 {
                o
            } else {
                self.up.at(i - 1)
            },
        }
    }

    fn pull(&mut self) -> (r: Option<T>) {
        match self.slot {
            Some(o) => {
                self.slot = None;
                o
            },
            None => self.up.pull(),
        }
    }
}

impl<T: Copy, S: Finite<T>> Finite<T> for Peekable<S, T> {
    closed spec fn size(&self) -> nat {
        match self.slot {
            None => self.up.size(),
            Some(o) => match o {
                Some(_) => self.up.size() + 1,
                None => 0,
            },
        }
    }

    proof fn size_ok(&self) {
        self.up.size_ok();
    }
}

/// `enumerate()`: pair each value with a zero-based counter that goes
/// up once per value handed out.
pub struct Enumerate<S, T> {
    up: S,
    n: u64,
    marker: PhantomData<T>,
}

impl<T, S: Finite<T>> Enumerate<S, T> {
    /// Wrap `up`; its values come out paired with 0, 1, 2, ...  The
    /// run must fit the counter, which every run held in memory does.
    pub fn new(up: S) -> (m: Self)
        requires
            up.wf(),
            up.size() <= u64::MAX,
        ensures
            m.wf(),
            m.size() == up.size(),
            forall|i: int| 0 <= i ==> #[trigger] m.at(i) == match up.at(i) {
                Some(x) => Some((i as u64, x)),
                None => None::<(u64, T)>,
            },
    {
        proof {
            up.size_ok();
        }
        Enumerate { up, n: 0, marker: PhantomData }
    }
}

impl<T, S: Finite<T>> Sequence<(u64, T)> for Enumerate<S, T> {
    closed spec fn wf(&self) -> bool {
        &&& self.up.wf()
        &&& self.n + self.up.size() <= u64::MAX
    }

    closed spec fn at(&self, i: int) -> Option<(u64, T)> {
        if 0 <= i < self.up.size() {
            Some((((self.n + i) as u64), self.up.at(i).unwrap()))
        } else {
            None
        }
    }

    fn pull(&mut self) -> (r: Option<(u64, T)>) {
        let ghost prev = self.up;
        match self.up.pull() {
            Some(x) => {
                proof {
                    prev.size_ok();
                    size_shift(&prev, &self.up);
                    self.up.size_ok();
                }
                let k = self.n;
                self.n = self.n + 1;
                Some((k, x))
            },
            None => {
                proof {
                    prev.size_ok();
                    size_shift(&prev, &self.up);
                }
                None
            },
        }
    }
}

impl<T, S: Finite<T>> Finite<(u64, T)> for Enumerate<S, T> {
    closed spec fn size(&self) -> nat {
        self.up.size()
    }

    proof fn size_ok(&self) {
        self.up.size_ok();
    }
}

} // verus!
