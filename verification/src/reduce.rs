//! Consuming a whole sequence: `fold`, the law that folding a
//! count-by-one step counts the run, and the triangular-number sum,
//! which is that kind of consumption written out by hand.

use vstd::prelude::*;
use crate::sequence::{Sequence, Finite, accepts_all2, single_valued2, elems, fn2_of, size_shift,
    elems_shift};

verus! {

/// Folding `g` over `s` from the left, starting from `a`.
pub open spec fn fold_of<A, T>(a: A, s: Seq<T>, g: spec_fn(A, T) -> A) -> A
    decreases s.len(),
{
    if s.len() == 0 {
        a
    } else {
        fold_of(g(a, s[0]), s.drop_first(), g)
    }
}

/// `fold(init, f)`: pull the sequence dry, feeding each value and the
/// running accumulator to `f`, and give the final accumulator back.
pub fn fold<A, T, S: Finite<T>, F: Fn(A, T) -> A>(s: S, init: A, f: F) -> (r: A)
    requires
        s.wf(),
        accepts_all2(f),
        single_valued2(f),
    ensures
        r == fold_of(init, elems(&s), fn2_of(f)),
{
    let mut cur = s;
    let mut acc = init;
    loop
        invariant
            cur.wf(),
            accepts_all2(f),
            single_valued2(f),
            fold_of(acc, elems(&cur), fn2_of(f)) == fold_of(init, elems(&s), fn2_of(f)),
        decreases cur.size(),
    {
        let ghost prev = cur;
        let ghost acc0 = acc;
        match cur.pull() {
            None => {
                proof {
                    prev.size_ok();
                    assert(elems(&prev).len() == 0);
                    assert(fold_of(acc, elems(&prev), fn2_of(f)) == acc);
                }
                return acc;
            },
            Some(x) => {
                proof {
                    prev.size_ok();
                    size_shift(&prev, &cur);
                    elems_shift(&prev, &cur);
                    assert(elems(&prev)[0] == x);
                    assert(elems(&prev).drop_first() == elems(&cur));
                }
                acc = f(acc, x);
                proof {
                    assert(acc == fn2_of(f)(acc0, x));
                }
            },
        }
    }
}

/// Folding a step that only adds one per value counts the run: from
/// `init`, over any run, it comes back with `init` plus the run's
/// length.
pub proof fn lemma_fold_count<T>(init: int, s: Seq<T>)
    ensures
        fold_of(init, s, (|a: int, _x: T| a + 1)) == init + s.len(),
    decreases s.len(),
{
    if s.len() > 0 {
        lemma_fold_count(init + 1, s.drop_first());
    }
}

/// The sum of the integers from 1 up to `n`; 0 when `n` is not
/// positive.
pub open spec fn tri(n: int) -> int
    decreases n,
{
    if n <= 0 {
        0
    } else {
        tri(n - 1) + n
    }
}

/// The triangular sum grows with its argument.
proof fn lemma_tri_mono(i: int, n: int)
    requires
        i <= n,
    ensures
        tri(i) <= tri(n),
    decreases n,
{
    if i < n && n > 0 {
        lemma_tri_mono(i, n - 1);
    }
}

/// The closed form of the triangular sum, phrased without division.
proof fn lemma_tri_closed(n: int)
    requires
        n >= 0,
    ensures
        2 * tri(n) == n * (n + 1),
    decreases n,
{
    if n > 0 {
        lemma_tri_closed(n - 1);
        assert(tri(n) == tri(n - 1) + n);
        assert(2 * tri(n) == (n - 1) * n + 2 * n);
        assert((n - 1) * n + 2 * n == n * (n + 1)) by (nonlinear_arith);
    } else {
        assert(tri(n) == 0);
        assert(n * (n + 1) == 0) by (nonlinear_arith)
            requires
                n == 0,
        ;
    }
}

/// The sum of the integers from 1 up to `n`, by one running
/// accumulation; 0 when `n` is not positive.  The bound on `n` is
/// what keeps the sum inside the machine integer.
pub fn triangle(n: i32) -> (sum: i32)
    requires
        n <= 46340,
    ensures
        sum == tri(n as int),
{
    let mut sum: i32 = 0;
    let mut i: i32 = 1;
    while i <= n
        invariant
            n <= 46340,
            1 <= i,
            i > 1 ==> i <= n + 1,
            sum == tri(i - 1),
        decreases n + 1 - i,
    {
        proof {
            lemma_tri_mono(0, i - 1);
            lemma_tri_mono(i as int, n as int);
            lemma_tri_closed(n as int);
            assert(n * (n + 1) <= 46340 * 46341) by (nonlinear_arith)
                requires
                    0 < n <= 46340,
            ;
        }
        sum = sum + i;
        i = i + 1;
    }
    sum
}

} // verus!
