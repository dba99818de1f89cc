//! The pull protocol: the `Sequence` capability, its finite and
//! double-ended refinements, and the spec-level vocabulary used to talk
//! about the closures that adapters carry.

use vstd::prelude::*;

verus! {

/// A pull-based producer of values.
///
/// The model of a producer is the stream of answers that future pulls
/// will give: `at(0)` is what the next pull returns, `at(1)` what the
/// pull after that returns, and so on.  `None` is the exhaustion signal.
/// The model does not force exhaustion to be permanent: a state whose
/// stream reads `None` at one position and `Some` later describes a
/// producer that resumes after signalling exhaustion.  Whether that
/// happens is left to each implementation; the `Fuse` adapter turns
/// permanence into a guarantee.
pub trait Sequence<T>: Sized {
    /// Well-formedness of the producer's state.
    spec fn wf(&self) -> bool;

    /// The stream of answers that future pulls will give, for `i >= 0`.
    spec fn at(&self, i: int) -> Option<T>;

    /// Produce the next value, or signal exhaustion.  The head of the
    /// stream is handed out and the stream shifts left by one position.
    fn pull(&mut self) -> (r: Option<T>)
        requires
            old(self).wf(),
        ensures
            final(self).wf(),
            r == old(self).at(0),
            forall|i: int| 0 <= i ==> #[trigger] final(self).at(i) == old(self).at(i + 1),
    ;
}

/// A producer whose stream is a proper finite run: `size` values and
/// then exhaustion forever.
pub trait Finite<T>: Sequence<T> {
    /// How many values are still to come.
    spec fn size(&self) -> nat;

    /// The stream holds a value at exactly the positions below `size`.
    proof fn size_ok(&self)
        requires
            self.wf(),
        ensures
            forall|i: int| 0 <= i < self.size() ==> (#[trigger] self.at(i)) is Some,
            forall|i: int| i >= self.size() ==> (#[trigger] self.at(i)) is None,
    ;
}

/// A finite producer that can also hand values out from its back end.
/// Front and back pulls consume the same run of values, so the two
/// directions meet: every interleaving hands each value out once.
pub trait DoubleEnded<T>: Finite<T> {
    /// Produce the value at the back end of the stream, or signal
    /// exhaustion once the two ends have met.
    fn pull_back(&mut self) -> (r: Option<T>)
        requires
            old(self).wf(),
        ensures
            final(self).wf(),
            old(self).size() == 0 ==> r is None && final(self).size() == 0 && (forall|i: int|
                0 <= i ==> #[trigger] final(self).at(i) == old(self).at(i)),
            old(self).size() > 0 ==> r == old(self).at(old(self).size() - 1) && final(self).size()
                == old(self).size() - 1 && (forall|i: int|
                0 <= i < old(self).size() - 1 ==> #[trigger] final(self).at(i) == old(self).at(i)),
    ;
}

/// The values still to come from a proper finite producer, as one
/// mathematical sequence.
pub open spec fn elems<T, S: Finite<T>>(s: &S) -> Seq<T> {
    Seq::new(s.size(), |i: int| s.at(i).unwrap())
}

/// A one-argument closure accepts every argument.
pub open spec fn accepts_all<T, U, F: Fn(T) -> U>(f: F) -> bool {
    forall|x: T| #[trigger] call_requires(f, (x,))
}

/// The one value that a one-argument closure may return for `x`.
pub open spec fn value_of<T, U, F: Fn(T) -> U>(f: F, x: T) -> U {
    choose|y: U| call_ensures(f, (x,), y)
}

/// Every return of a one-argument closure is fixed by its argument:
/// whatever `f` gives for `x` is `value_of(f, x)`.
pub open spec fn single_valued<T, U, F: Fn(T) -> U>(f: F) -> bool {
    forall|x: T, y: U| #[trigger] call_ensures(f, (x,), y) ==> y == value_of(f, x)
}

/// A one-argument closure as the mathematical function it computes.
pub open spec fn fn_of<T, U, F: Fn(T) -> U>(f: F) -> spec_fn(T) -> U {
    |x: T| value_of(f, x)
}

/// A two-argument closure accepts every pair of arguments.
pub open spec fn accepts_all2<A, T, U, F: Fn(A, T) -> U>(f: F) -> bool {
    forall|a: A, x: T| #[trigger] call_requires(f, (a, x))
}

/// The one value that a two-argument closure may return for `(a, x)`.
pub open spec fn value_of2<A, T, U, F: Fn(A, T) -> U>(f: F, a: A, x: T) -> U {
    choose|y: U| call_ensures(f, (a, x), y)
}

/// Every return of a two-argument closure is fixed by its arguments.
pub open spec fn single_valued2<A, T, U, F: Fn(A, T) -> U>(f: F) -> bool {
    forall|a: A, x: T, y: U| #[trigger] call_ensures(f, (a, x), y) ==> y == value_of2(f, a, x)
}

/// A two-argument closure as the mathematical function it computes.
pub open spec fn fn2_of<A, T, U, F: Fn(A, T) -> U>(f: F) -> spec_fn(A, T) -> U {
    |a: A, x: T| value_of2(f, a, x)
}

/// One pull shifts a proper finite stream: its size drops by one, or
/// stays zero.  `b` stands for the state after the pull.
pub proof fn size_shift<T, S: Finite<T>>(a: &S, b: &S)
    requires
        a.wf(),
        b.wf(),
        forall|i: int| 0 <= i ==> #[trigger] b.at(i) == a.at(i + 1),
    ensures
        a.size() > 0 ==> b.size() == a.size() - 1,
        a.size() == 0 ==> b.size() == 0,
{
    a.size_ok();
    b.size_ok();
    if a.size() > 0 {
        if b.size() < a.size() - 1 {
            assert(b.at(b.size() as int) == a.at(b.size() as int + 1));
            assert(false);
        }
        if b.size() > a.size() - 1 {
            assert(b.at(a.size() - 1) == a.at(a.size() as int));
            assert(false);
        }
    } else {
        if b.size() > 0 {
            assert(b.at(0) == a.at(1));
            assert(false);
        }
    }
}

/// One pull drops the first of the remaining values.  `b` stands for
/// the state after the pull.
pub proof fn elems_shift<T, S: Finite<T>>(a: &S, b: &S)
    requires
        a.wf(),
        b.wf(),
        forall|i: int| 0 <= i ==> #[trigger] b.at(i) == a.at(i + 1),
    ensures
        a.size() > 0 ==> elems(b) == elems(a).drop_first(),
        a.size() == 0 ==> elems(b) == elems(a),
{
    size_shift(a, b);
    if a.size() > 0 {
        assert forall|i: int| 0 <= i < b.size() implies elems(b)[i] == elems(a).drop_first()[i] by {
            assert(b.at(i) == a.at(i + 1));
        }
        assert(elems(b) =~= elems(a).drop_first());
    } else {
        assert(elems(b) =~= elems(a));
    }
}

} // verus!
