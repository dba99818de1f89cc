//! Stateless transforms: `map`, `inspect`, `filter`, `filter-map` and
//! `flat-map`.  Each wraps an upstream sequence together with a caller
//! supplied closure and implements the pull protocol itself.
//!
//! A closure is admitted when it accepts every argument and its answer
//! is fixed by its argument (see `crate::sequence`); the adapters'
//! models are then stated through `value_of`.

use vstd::prelude::*;
use core::marker::PhantomData;
use crate::sequence::{Sequence, Finite, accepts_all, value_of, single_valued, elems, fn_of,
    size_shift, elems_shift};

verus! {

/// The subsequence of `s` whose elements satisfy `p`, in order.
pub open spec fn filtered_of<T>(s: Seq<T>, p: spec_fn(T) -> bool) -> Seq<T>
    decreases s.len(),
{
    if s.len() == 0 {
        Seq::empty()
    } else if p(s[0]) {
        seq![s[0]] + filtered_of(s.drop_first(), p)
    } else {
        filtered_of(s.drop_first(), p)
    }
}

/// `map(f)`: pull a value upstream, hand out `f` of it.  Exhaustion
/// passes through unchanged, in both directions of the protocol.
pub struct Mapped<S, F, T, U> {
    up: S,
    f: F,
    marker: PhantomData<(T, U)>,
}

impl<T, U, S: Sequence<T>, F: Fn(T) -> U> Mapped<S, F, T, U> {
    /// Wrap `up`; every pulled value goes through `f`.
    pub fn new(up: S, f: F) -> (m: Self)
        requires
            up.wf(),
            accepts_all(f),
            single_valued(f),
        ensures
            m.wf(),
            forall|i: int| #[trigger] m.at(i) == match up.at(i) {
                Some(x) => Some(value_of(f, x)),
                None => None::<U>,
            },
    {
        Mapped { up, f, marker: PhantomData }
    }
}

impl<T, U, S: Sequence<T>, F: Fn(T) -> U> Sequence<U> for Mapped<S, F, T, U> {
    closed spec fn wf(&self) -> bool {
        &&& self.up.wf()
        &&& accepts_all(self.f)
        &&& single_valued(self.f)
    }

    closed spec fn at(&self, i: int) -> Option<U> {
        match self.up.at(i) {
            Some(x) => Some(value_of(self.f, x)),
            None => None,
        }
    }

    fn pull(&mut self) -> (r: Option<U>) {
        match self.up.pull() {
            Some(x) => {
                let y = (self.f)(x);
                Some(y)
            },
            None => None,
        }
    }
}

impl<T, U, S: Finite<T>, F: Fn(T) -> U> Finite<U> for Mapped<S, F, T, U> {
    closed spec fn size(&self) -> nat {
        self.up.size()
    }

    proof fn size_ok(&self) {
        self.up.size_ok();
    }
}

/// `inspect(f)`: show each pulled value to `f` and hand it on
/// unchanged.  The stream of values is exactly the upstream stream.
pub struct Inspect<S, F, T> {
    up: S,
    f: F,
    marker: PhantomData<T>,
}

impl<T: Copy, S: Sequence<T>, F: Fn(T) -> ()> Inspect<S, F, T> {
    /// Wrap `up`; every pulled value is shown to `f` on its way out.
    pub fn new(up: S, f: F) -> (m: Self)
        requires
            up.wf(),
            accepts_all(f),
        ensures
            m.wf(),
            forall|i: int| #[trigger] m.at(i) == up.at(i),
    {
        Inspect { up, f, marker: PhantomData }
    }
}

impl<T: Copy, S: Sequence<T>, F: Fn(T) -> ()> Sequence<T> for Inspect<S, F, T> {
    closed spec fn wf(&self) -> bool {
        &&& self.up.wf()
        &&& accepts_all(self.f)
    }

    closed spec fn at(&self, i: int) -> Option<T> {
        self.up.at(i)
    }

    fn pull(&mut self) -> (r: Option<T>) {
        match self.up.pull() {
            Some(x) => {
                (self.f)(x);
                Some(x)
            },
            None => None,
        }
    }
}

impl<T: Copy, S: Finite<T>, F: Fn(T) -> ()> Finite<T> for Inspect<S, F, T> {
    closed spec fn size(&self) -> nat {
        self.up.size()
    }

    proof fn size_ok(&self) {
        self.up.size_ok();
    }
}

/// `filter(p)`: pull upstream values, discarding those on which `p`
/// fails, until one passes or upstream is exhausted.
pub struct Filtered<S, P, T> {
    up: S,
    p: P,
    marker: PhantomData<T>,
}

impl<T: Copy, S: Finite<T>, P: Fn(T) -> bool> Filtered<S, P, T> {
    /// Wrap `up`; only values on which `p` holds come through.
    pub fn new(up: S, p: P) -> (m: Self)
        requires
            up.wf(),
            accepts_all(p),
            single_valued(p),
        ensures
            m.wf(),
            m.size() == filtered_of(elems(&up), fn_of(p)).len(),
            forall|i: int| #[trigger] m.at(i) == {
                let out = filtered_of(elems(&up), fn_of(p));
                if 0 <= i < out.len() {
                    Some(out[i])
                } else {
                    None::<T>
                }
            },
    {
        Filtered { up, p, marker: PhantomData }
    }
}

impl<T: Copy, S: Finite<T>, P: Fn(T) -> bool> Sequence<T> for Filtered<S, P, T> {
    closed spec fn wf(&self) -> bool {
        &&& self.up.wf()
        &&& accepts_all(self.p)
        &&& single_valued(self.p)
    }

    closed spec fn at(&self, i: int) -> Option<T> {
        let out = filtered_of(elems(&self.up), fn_of(self.p));
        if 0 <= i < out.len() {
            Some(out[i])
        } else {
            None
        }
    }

    fn pull(&mut self) -> (r: Option<T>) {
        loop
            invariant
                self.up.wf(),
                accepts_all(self.p),
                single_valued(self.p),
                self.p == old(self).p,
                old(self).wf(),
                filtered_of(elems(&self.up), fn_of(self.p)) == filtered_of(
                    elems(&old(self).up),
                    fn_of(old(self).p),
                ),
            decreases self.up.size(),
        {
            let ghost prev = self.up;
            match self.up.pull() {
                None => {
                    proof {
                        prev.size_ok();
                        assert(elems(&prev).len() == 0);
                        elems_shift(&prev, &self.up);
                    }
                    return None;
                },
                Some(x) => {
                    proof {
                        prev.size_ok();
                        size_shift(&prev, &self.up);
                        elems_shift(&prev, &self.up);
                        assert(elems(&prev)[0] == x);
                        assert(elems(&prev).drop_first() == elems(&self.up));
                    }
                    let keep = (self.p)(x);
                    proof {
                        assert(keep == fn_of(self.p)(x));
                    }
                    if keep {
                        proof {
                            assert(filtered_of(elems(&prev), fn_of(self.p)) == seq![x]
                                + filtered_of(elems(&self.up), fn_of(self.p)));
                        }
                        return Some(x);
                    }
                },
            }
        }
    }
}

impl<T: Copy, S: Finite<T>, P: Fn(T) -> bool> Finite<T> for Filtered<S, P, T> {
    closed spec fn size(&self) -> nat {
        filtered_of(elems(&self.up), fn_of(self.p)).len()
    }

    proof fn size_ok(&self) {
    }
}

/// The values that a partial conversion keeps from `s`, in order: an
/// element mapped to `None` contributes nothing, one mapped to
/// `Some(u)` contributes `u`.
pub open spec fn kept_of<T, U>(s: Seq<T>, g: spec_fn(T) -> Option<U>) -> Seq<U>
    decreases s.len(),
{
    if s.len() == 0 {
        Seq::empty()
    } else {
        match g(s[0]) {
            Some(u) => seq![u] + kept_of(s.drop_first(), g),
            None => kept_of(s.drop_first(), g),
        }
    }
}

/// `filter-map(f)`: pull upstream values through a partial conversion,
/// repeating on every dropped value until one converts or upstream is
/// exhausted.  A failed conversion drops that input alone; it never
/// ends the sequence.
pub struct FilterMapped<S, F, T, U> {
    up: S,
    f: F,
    marker: PhantomData<(T, U)>,
}

impl<T, U, S: Finite<T>, F: Fn(T) -> Option<U>> FilterMapped<S, F, T, U> {
    /// Wrap `up`; each value is offered to `f` and only converted
    /// values come through.
    pub fn new(up: S, f: F) -> (m: Self)
        requires
            up.wf(),
            accepts_all(f),
            single_valued(f),
        ensures
            m.wf(),
            m.size() == kept_of(elems(&up), fn_of(f)).len(),
            forall|i: int| #[trigger] m.at(i) == {
                let out = kept_of(elems(&up), fn_of(f));
                if 0 <= i < out.len() {
                    Some(out[i])
                } else {
                    None::<U>
                }
            },
    {
        FilterMapped { up, f, marker: PhantomData }
    }
}

impl<T, U, S: Finite<T>, F: Fn(T) -> Option<U>> Sequence<U> for FilterMapped<S, F, T, U> {
    closed spec fn wf(&self) -> bool {
        &&& self.up.wf()
        &&& accepts_all(self.f)
        &&& single_valued(self.f)
    }

    closed spec fn at(&self, i: int) -> Option<U> {
        let out = kept_of(elems(&self.up), fn_of(self.f));
        if 0 <= i < out.len() {
            Some(out[i])
        } else {
            None
        }
    }

    fn pull(&mut self) -> (r: Option<U>) {
        loop
            invariant
                self.up.wf(),
                accepts_all(self.f),
                single_valued(self.f),
                self.f == old(self).f,
                old(self).wf(),
                kept_of(elems(&self.up), fn_of(self.f)) == kept_of(
                    elems(&old(self).up),
                    fn_of(old(self).f),
                ),
            decreases self.up.size(),
        {
            let ghost prev = self.up;
            match self.up.pull() {
                None => {
                    proof {
                        prev.size_ok();
                        assert(elems(&prev).len() == 0);
                        elems_shift(&prev, &self.up);
                    }
                    return None;
                },
                Some(x) => {
                    proof {
                        prev.size_ok();
                        size_shift(&prev, &self.up);
                        elems_shift(&prev, &self.up);
                        assert(elems(&prev)[0] == x);
                        assert(elems(&prev).drop_first() == elems(&self.up));
                    }
                    let converted = (self.f)(x);
                    proof {
                        assert(converted == fn_of(self.f)(x));
                    }
                    match converted {
                        Some(u) => {
                            proof {
                                assert(kept_of(elems(&prev), fn_of(self.f)) == seq![u]
                                    + kept_of(elems(&self.up), fn_of(self.f)));
                            }
                            return Some(u);
                        },
                        None => {},
                    }
                },
            }
        }
    }
}

impl<T, U, S: Finite<T>, F: Fn(T) -> Option<U>> Finite<U> for FilterMapped<S, F, T, U> {
    closed spec fn size(&self) -> nat {
        kept_of(elems(&self.up), fn_of(self.f)).len()
    }

    proof fn size_ok(&self) {
    }
}

/// A closure that produces vectors, read as the function from an input
/// to the run of elements it produces.
pub open spec fn seqs_of<T, U, F: Fn(T) -> Vec<U>>(f: F) -> spec_fn(T) -> Seq<U> {
    |x: T| (value_of(f, x))@
}

/// The concatenation of `g` over the elements of `s`, in order.
pub open spec fn flat_of<T, U>(s: Seq<T>, g: spec_fn(T) -> Seq<U>) -> Seq<U>
    decreases s.len(),
{
    if s.len() == 0 {
        Seq::empty()
    } else {
        g(s[0]) + flat_of(s.drop_first(), g)
    }
}

/// `flat-map(f)`: each upstream value produces an inner run of values;
/// the inner run is handed out until it is exhausted, then the next
/// upstream value produces the next inner run.  Exhausted when the
/// active inner run and the upstream both are.
pub struct FlatMapped<S, F, T, U> {
    up: S,
    f: F,
    inner: Vec<U>,
    marker: PhantomData<T>,
}

impl<T, U, S: Finite<T>, F: Fn(T) -> Vec<U>> FlatMapped<S, F, T, U> {
    /// Wrap `up`; every value is expanded through `f` and the results
    /// come out in order.
    pub fn new(up: S, f: F) -> (m: Self)
        requires
            up.wf(),
            accepts_all(f),
            single_valued(f),
        ensures
            m.wf(),
            m.size() == flat_of(elems(&up), seqs_of(f)).len(),
            forall|i: int| #[trigger] m.at(i) == {
                let out = flat_of(elems(&up), seqs_of(f));
                if 0 <= i < out.len() {
                    Some(out[i])
                } else {
                    None::<U>
                }
            },
    {
        let m = FlatMapped { up, f, inner: Vec::new(), marker: PhantomData };
        proof {
            assert(m.inner@ + flat_of(elems(&m.up), seqs_of(m.f)) =~= flat_of(
                elems(&up),
                seqs_of(f),
            ));
        }
        m
    }

    /// The whole run still to come: what is left of the active inner
    /// run, then the expansions of the remaining upstream values.
    spec fn remaining(&self) -> Seq<U> {
        self.inner@ + flat_of(elems(&self.up), seqs_of(self.f))
    }
}

impl<T, U, S: Finite<T>, F: Fn(T) -> Vec<U>> Sequence<U> for FlatMapped<S, F, T, U> {
    closed spec fn wf(&self) -> bool {
        &&& self.up.wf()
        &&& accepts_all(self.f)
        &&& single_valued(self.f)
    }

    closed spec fn at(&self, i: int) -> Option<U> {
        let out = self.remaining();
        if 0 <= i < out.len() {
            Some(out[i])
        } else {
            None
        }
    }

    fn pull(&mut self) -> (r: Option<U>) {
        if self.inner.len() > 0 {
            let u = self.inner.remove(0);
            proof {
                assert(self.remaining() =~= old(self).remaining().drop_first());
            }
            return Some(u);
        }
        loop
            invariant
                self.up.wf(),
                accepts_all(self.f),
                single_valued(self.f),
                self.f == old(self).f,
                self.inner@.len() == 0,
                old(self).inner@.len() == 0,
                old(self).wf(),
                self.remaining() == old(self).remaining(),
            decreases self.up.size(),
        {
            let ghost prev = *self;
            match self.up.pull() {
                None => {
                    proof {
                        prev.up.size_ok();
                        assert(elems(&prev.up).len() == 0);
                        elems_shift(&prev.up, &self.up);
                        assert(self.remaining() =~= prev.remaining());
                    }
                    return None;
                },
                Some(x) => {
                    proof {
                        prev.up.size_ok();
                        size_shift(&prev.up, &self.up);
                        elems_shift(&prev.up, &self.up);
                        assert(elems(&prev.up)[0] == x);
                        assert(elems(&prev.up).drop_first() == elems(&self.up));
                    }
                    let mut burst = (self.f)(x);
                    proof {
                        assert(burst@ == seqs_of(self.f)(x));
                        assert(flat_of(elems(&prev.up), seqs_of(self.f)) == burst@ + flat_of(
                            elems(&self.up),
                            seqs_of(self.f),
                        ));
                    }
                    if burst.len() > 0 {
                        let ghost burst0 = burst@;
                        let u = burst.remove(0);
                        self.inner = burst;
                        proof {
                            assert(self.inner@ =~= burst0.drop_first());
                            assert(self.remaining() =~= old(self).remaining().drop_first());
                        }
                        return Some(u);
                    }
                    proof {
                        assert(self.remaining() =~= prev.remaining());
                    }
                },
            }
        }
    }
}

impl<T, U, S: Finite<T>, F: Fn(T) -> Vec<U>> Finite<U> for FlatMapped<S, F, T, U> {
    closed spec fn size(&self) -> nat {
        self.remaining().len()
    }

    proof fn size_ok(&self) {
    }
}

} // verus!
