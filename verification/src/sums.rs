//! Finite sums of natural numbers.

use vstd::prelude::*;

verus! {

/// `f(0) + ... + f(n - 1)`.
pub open spec fn sum_to(f: spec_fn(int) -> nat, n: int) -> nat
    decreases n,
{
    if n <= 0 {
        0
    } else {
        sum_to(f, n - 1) + f(n - 1)
    }
}

/// Smaller summands make a smaller sum.
pub proof fn lemma_sum_le(f: spec_fn(int) -> nat, g: spec_fn(int) -> nat, n: int)
    requires
        forall|i: int| 0 <= i < n ==> #[trigger] f(i) <= g(i),
    ensures
        sum_to(f, n) <= sum_to(g, n),
    decreases n,
{
    if n > 0 {
        lemma_sum_le(f, g, n - 1);
        assert(f(n - 1) <= g(n - 1));
    }
}

/// Equal summands make equal sums.
pub proof fn lemma_sum_same(f: spec_fn(int) -> nat, g: spec_fn(int) -> nat, n: int)
    requires
        forall|i: int| 0 <= i < n ==> #[trigger] f(i) == g(i),
    ensures
        sum_to(f, n) == sum_to(g, n),
    decreases n,
{
    if n > 0 {
        lemma_sum_same(f, g, n - 1);
        assert(f(n - 1) == g(n - 1));
    }
}

/// A sum of sums.
pub proof fn lemma_sum_add(
    f: spec_fn(int) -> nat,
    g: spec_fn(int) -> nat,
    h: spec_fn(int) -> nat,
    n: int,
)
    requires
        forall|i: int| 0 <= i < n ==> #[trigger] h(i) == f(i) + g(i),
    ensures
        sum_to(h, n) == sum_to(f, n) + sum_to(g, n),
    decreases n,
{
    if n > 0 {
        lemma_sum_add(f, g, h, n - 1);
        assert(h(n - 1) == f(n - 1) + g(n - 1));
    }
}

/// A summand is no larger than the sum.
pub proof fn lemma_sum_part(f: spec_fn(int) -> nat, n: int, i: int)
    requires
        0 <= i < n,
    ensures
        f(i) <= sum_to(f, n),
    decreases n,
{
    if i < n - 1 {
        lemma_sum_part(f, n - 1, i);
    }
}

/// A longer sum is no smaller.
pub proof fn lemma_sum_grows(f: spec_fn(int) -> nat, m: int, n: int)
    requires
        m <= n,
    ensures
        sum_to(f, m) <= sum_to(f, n),
    decreases n,
{
    if n > 0 && m < n {
        lemma_sum_grows(f, m, n - 1);
    }
}

/// The sum is zero exactly when every summand is.
pub proof fn lemma_sum_zero(f: spec_fn(int) -> nat, n: int)
    ensures
        sum_to(f, n) == 0 <==> forall|i: int| 0 <= i < n ==> #[trigger] f(i) == 0,
    decreases n,
{
    if n > 0 {
        lemma_sum_zero(f, n - 1);
        if sum_to(f, n) == 0 {
            assert forall|i: int| 0 <= i < n implies #[trigger] f(i) == 0 by {
                lemma_sum_part(f, n, i);
            }
        }
        if sum_to(f, n - 1) != 0 {
            let i = choose|i: int| 0 <= i < n - 1 && #[trigger] f(i) != 0;
            assert(f(i) != 0);
        }
    }
}

/// Raising one summand by at most one raises the sum by at most one.
pub proof fn lemma_sum_bump(f: spec_fn(int) -> nat, g: spec_fn(int) -> nat, n: int, p: int)
    requires
        forall|i: int| 0 <= i < n && i != p ==> #[trigger] g(i) <= f(i),
        g(p) <= f(p) + 1,
    ensures
        sum_to(g, n) <= sum_to(f, n) + 1,
        !(0 <= p < n) ==> sum_to(g, n) <= sum_to(f, n),
    decreases n,
{
    if n > 0 {
        lemma_sum_bump(f, g, n - 1, p);
        if n - 1 != p {
            assert(g(n - 1) <= f(n - 1));
        }
    }
}

/// A table sums to the same by rows and by columns.
pub proof fn lemma_sum_swap(f: spec_fn(int, int) -> nat, a: int, b: int)
    ensures
        sum_to(|i: int| sum_to(|j: int| f(i, j), b), a) == sum_to(
            |j: int| sum_to(|i: int| f(i, j), a),
            b,
        ),
    decreases a,
{
    let row = |i: int| sum_to(|j: int| f(i, j), b);
    let col = |j: int| sum_to(|i: int| f(i, j), a);
    if a <= 0 {
        lemma_sum_zero(col, b);
    } else {
        lemma_sum_swap(f, a - 1, b);
        let short = |j: int| sum_to(|i: int| f(i, j), a - 1);
        let last = |j: int| f(a - 1, j);
        assert forall|j: int| 0 <= j < b implies #[trigger] col(j) == short(j) + last(j) by {
            let whole = |i: int| f(i, j);
            assert(sum_to(whole, a) == sum_to(whole, a - 1) + whole(a - 1));
        }
        lemma_sum_add(short, last, col, b);
        assert(row(a - 1) == sum_to(last, b));
    }
}

} // verus!
