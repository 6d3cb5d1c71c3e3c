//! Expectation values of sums in partitions: where contributions add up exactly they depend on
//! the terms alone, not on the partitions nor on the order of the rows.

use crate::basis::Basis;
use crate::bits;
use crate::coeff::CoeffRepr;
use crate::conjugation;
use crate::emit::Gate;
use crate::exchange;
use crate::gate;
use crate::map_laws;
use crate::operator_index::Pos;
use crate::partitioned_termsum;
use crate::partitioned_termsum::PartitionedTermSum;
use crate::strings::BasisString;
use crate::sums;
use crate::tableau::CliffordTableau;
use crate::term_kernel::TruncationKernel;
use crate::termsum;
use crate::termsum::TermSum;
use vstd::multiset::Multiset;
use vstd::prelude::*;

verus! {

/// Contributions to a total add up exactly: in any order, from zero, and part by part.
pub open spec fn totals_exactly<C: CoeffRepr>() -> bool {
    &&& forall|x: C::Real, c: C, d: C, s: int, t: int| #[trigger]
        C::totalled(C::totalled(x, c, s), d, t) == C::totalled(C::totalled(x, d, t), c, s)
    &&& forall|x: C::Real| #[trigger] C::real_sum(x, C::unit(0)) == x
    &&& forall|x: C::Real, y: C::Real, c: C, t: int| #[trigger]
        C::real_sum(x, C::totalled(y, c, t)) == C::totalled(C::real_sum(x, y), c, t)
}

/// The keys and coefficients of a list of rows.
pub open spec fn pairs<C>(keys: Seq<Seq<bool>>, coeffs: Seq<C>) -> Seq<(Seq<bool>, C)> {
    Seq::new(keys.len(), |i: int| (keys[i], coeffs[i]))
}

/// The rows of the first `n` partitions, one partition after another.
pub open spec fn rows_of<C: CoeffRepr, P: Pos, const W: usize>(
    parts: Seq<TermSum<C, P, W>>,
    n: int,
) -> Seq<(Seq<bool>, C)>
    decreases n,
{
    if n <= 0 {
        Seq::empty()
    } else {
        rows_of(parts, n - 1) + pairs(parts[n - 1].keys(), parts[n - 1].coeffs())
    }
}

/// The value of a key in an expectation value: its trace, or the signed trace of its image under
/// the deferred gates.
pub open spec fn value_of<A: Basis<W>, const W: usize>(
    frame: CliffordTableau<W>,
    n_units: nat,
    fock: Seq<u64>,
) -> spec_fn(Seq<bool>) -> int {
    |k: Seq<bool>|
        if frame.is_trivial() {
            A::trace_of(k, n_units, fock) as int
        } else {
            let image = conjugation::carried::<A, W>(frame.readout_rows(), k);
            image.1 * A::trace_of(image.0, n_units, fock)
        }
}

/// One step of an expectation value.
pub open spec fn step<C: CoeffRepr>(value: spec_fn(Seq<bool>) -> int) -> spec_fn(
    C::Real,
    (Seq<bool>, C),
) -> C::Real {
    |x: C::Real, t: (Seq<bool>, C)| C::totalled(x, t.1, value(t.0))
}

/// A partition's share is a fold over its rows.
proof fn lemma_share<A: Basis<W>, C: CoeffRepr, P: Pos, const W: usize>(
    frame: CliffordTableau<W>,
    part: TermSum<C, P, W>,
    fock: Seq<u64>,
)
    requires
        part.keys().len() == part.coeffs().len(),
    ensures
        partitioned_termsum::share::<A, C, P, W>(frame, part, fock) == pairs(
            part.keys(),
            part.coeffs(),
        ).fold_left(C::unit(0), step::<C>(value_of::<A, W>(frame, part.units(), fock))),
{
    let n = part.keys().len() as int;
    let all = pairs(part.keys(), part.coeffs());
    assert(all.take(n) =~= all);
    lemma_share_to::<A, C, P, W>(frame, part, fock, n);
}

/// The first `n` rows of a partition's share.
proof fn lemma_share_to<A: Basis<W>, C: CoeffRepr, P: Pos, const W: usize>(
    frame: CliffordTableau<W>,
    part: TermSum<C, P, W>,
    fock: Seq<u64>,
    n: int,
)
    requires
        part.keys().len() == part.coeffs().len(),
        0 <= n <= part.keys().len(),
    ensures
        pairs(part.keys(), part.coeffs()).take(n).fold_left(
            C::unit(0),
            step::<C>(value_of::<A, W>(frame, part.units(), fock)),
        ) == (if frame.is_trivial() {
            termsum::traced_total::<A, C, W>(part.keys(), part.coeffs(), part.units(), fock, n)
        } else {
            partitioned_termsum::framed_total::<A, C, W>(
                frame.readout_rows(),
                part.keys(),
                part.coeffs(),
                part.units(),
                fock,
                n,
            )
        }),
    decreases n,
{
    reveal(Seq::fold_left);
    let all = pairs(part.keys(), part.coeffs());
    if n > 0 {
        lemma_share_to::<A, C, P, W>(frame, part, fock, n - 1);
        assert(all.take(n).drop_last() =~= all.take(n - 1));
        assert(all.take(n).last() == all[n - 1]);
    }
}

/// Adding a share is going on with its rows.
proof fn lemma_going_on<C: CoeffRepr>(
    s: Seq<(Seq<bool>, C)>,
    value: spec_fn(Seq<bool>) -> int,
    x: C::Real,
)
    requires
        totals_exactly::<C>(),
    ensures
        C::real_sum(x, s.fold_left(C::unit(0), step::<C>(value))) == s.fold_left(
            x,
            step::<C>(value),
        ),
    decreases s.len(),
{
    reveal(Seq::fold_left);
    if s.len() > 0 {
        lemma_going_on(s.drop_last(), value, x);
        let y = s.drop_last().fold_left(C::unit(0), step::<C>(value));
        let t = s.last();
        assert(C::real_sum(x, C::totalled(y, t.1, value(t.0))) == C::totalled(
            C::real_sum(x, y),
            t.1,
            value(t.0),
        ));
    } else {
        assert(C::real_sum(x, C::unit(0)) == x);
    }
}

/// Folding over two lists is folding over one after the other.
proof fn lemma_fold_both<T, R>(a: Seq<T>, b: Seq<T>, x: R, f: spec_fn(R, T) -> R)
    ensures
        (a + b).fold_left(x, f) == b.fold_left(a.fold_left(x, f), f),
    decreases b.len(),
{
    reveal(Seq::fold_left);
    if b.len() > 0 {
        lemma_fold_both(a, b.drop_last(), x, f);
        assert((a + b).drop_last() =~= a + b.drop_last());
        assert((a + b).last() == b.last());
    } else {
        assert(a + b =~= a);
    }
}

/// The expectation value of a sum in partitions is that of all its rows, one after another,
/// each read through the deferred gates.
pub proof fn law_shares_add_up<A: Basis<W>, C: CoeffRepr, P: Pos, const W: usize>(
    frame: CliffordTableau<W>,
    parts: Seq<TermSum<C, P, W>>,
    units: nat,
    fock: Seq<u64>,
    n: int,
)
    requires
        totals_exactly::<C>(),
        0 <= n <= parts.len(),
        forall|p: int|
            0 <= p < parts.len() ==> (#[trigger] parts[p]).keys().len() == parts[p].coeffs().len()
                && parts[p].units() == units,
    ensures
        partitioned_termsum::shares::<A, C, P, W>(frame, parts, fock, n) == rows_of(
            parts,
            n,
        ).fold_left(C::unit(0), step::<C>(value_of::<A, W>(frame, units, fock))),
    decreases n,
{
    reveal(Seq::fold_left);
    if n > 0 {
        law_shares_add_up::<A, C, P, W>(frame, parts, units, fock, n - 1);
        let part = parts[n - 1];
        let value = value_of::<A, W>(frame, units, fock);
        lemma_share::<A, C, P, W>(frame, part, fock);
        let s = pairs(part.keys(), part.coeffs());
        lemma_going_on::<C>(s, value, rows_of(parts, n - 1).fold_left(C::unit(0), step::<C>(value)));
        lemma_fold_both(rows_of(parts, n - 1), s, C::unit(0), step::<C>(value));
    }
}

/// A row stands in some partition.
proof fn lemma_row_stands<C: CoeffRepr, P: Pos, const W: usize>(
    parts: Seq<TermSum<C, P, W>>,
    n: int,
    j: int,
) -> (at: (int, int))
    requires
        0 <= n <= parts.len(),
        0 <= j < rows_of(parts, n).len(),
    ensures
        0 <= at.0 < n,
        0 <= at.1 < parts[at.0].keys().len(),
        rows_of(parts, n)[j] == (parts[at.0].keys()[at.1], parts[at.0].coeffs()[at.1]),
    decreases n,
{
    let rest = rows_of(parts, n - 1);
    if j < rest.len() {
        lemma_row_stands(parts, n - 1, j)
    } else {
        (n - 1, j - rest.len())
    }
}

/// Every partition's rows are among all rows.
proof fn lemma_row_found<C: CoeffRepr, P: Pos, const W: usize>(
    parts: Seq<TermSum<C, P, W>>,
    n: int,
    p: int,
    i: int,
)
    requires
        0 <= p < n <= parts.len(),
        0 <= i < parts[p].keys().len(),
    ensures
        rows_of(parts, n).contains((parts[p].keys()[i], parts[p].coeffs()[i])),
    decreases n,
{
    let rest = rows_of(parts, n - 1);
    let all = rows_of(parts, n);
    if p == n - 1 {
        assert(all[rest.len() + i] == (parts[p].keys()[i], parts[p].coeffs()[i]));
    } else {
        lemma_row_found(parts, n - 1, p, i);
        let j = choose|j: int|
            0 <= j < rest.len() && rest[j] == (parts[p].keys()[i], parts[p].coeffs()[i]);
        assert(all[j] == rest[j]);
    }
}

/// No row of a well-formed sum occurs twice, and the rows are the terms.
proof fn lemma_rows<C: CoeffRepr, P: Pos, const W: usize>(sum: PartitionedTermSum<C, P, W>, n: int)
    requires
        sum.wf(),
        0 <= n <= sum.parts().len(),
    ensures
        rows_of(sum.parts(), n).no_duplicates(),
        n == sum.parts().len() ==> forall|k: Seq<bool>, c: C|
            #![trigger rows_of(sum.parts(), n).contains((k, c))]
            rows_of(sum.parts(), n).contains((k, c)) <==> gate::get(sum.terms(), k) == Some(c),
    decreases n,
{
    let parts = sum.parts();
    sum.lemma_wf();
    let all = rows_of(parts, n);
    if n > 0 {
        lemma_rows(sum, n - 1);
        let rest = rows_of(parts, n - 1);
        let part = parts[n - 1];
        part.lemma_wf();
        assert forall|i: int, j: int| 0 <= i < all.len() && 0 <= j < all.len() && i
            != j implies all[i] != all[j] by {
            if i < rest.len() && j < rest.len() {
                assert(rest[i] != rest[j]);
            } else if i >= rest.len() && j >= rest.len() {
                let (a, b) = (i - rest.len(), j - rest.len());
                if a < b {
                    assert(part.keys()[a] != part.keys()[b]);
                } else {
                    assert(part.keys()[b] != part.keys()[a]);
                }
            } else {
                let (x, y) = if i < rest.len() {
                    (i, j - rest.len())
                } else {
                    (j, i - rest.len())
                };
                let at = lemma_row_stands(parts, n - 1, x);
                sum.law_terms_live_with_their_owner(at.0, at.1);
                sum.law_terms_live_with_their_owner(n - 1, y);
            }
        }
    }
    if n == parts.len() {
        assert forall|k: Seq<bool>, c: C|
            #![trigger all.contains((k, c))]
            all.contains((k, c)) <==> gate::get(sum.terms(), k) == Some(c) by {
            if all.contains((k, c)) {
                let j = choose|j: int| 0 <= j < all.len() && all[j] == (k, c);
                let at = lemma_row_stands(parts, n, j);
                sum.law_terms_live_with_their_owner(at.0, at.1);
            }
            if gate::get(sum.terms(), k) == Some(c) {
                exchange::lemma_owner(k, parts.len());
                let o = gate::owner(k, parts.len());
                parts[o].lemma_wf();
                assert(parts[o].keys().contains(k));
                let i = choose|i: int| 0 <= i < parts[o].keys().len() && parts[o].keys()[i] == k;
                sum.law_terms_live_with_their_owner(o, i);
                lemma_row_found(parts, n, o, i);
            }
        }
    }
}

/// Lists without repetitions that hold the same are permutations of each other.
proof fn lemma_same_rows<T>(a: Seq<T>, b: Seq<T>)
    requires
        a.no_duplicates(),
        b.no_duplicates(),
        forall|x: T| a.contains(x) <==> b.contains(x),
    ensures
        a.to_multiset() == b.to_multiset(),
{
    a.to_multiset_ensures();
    b.to_multiset_ensures();
    a.lemma_multiset_has_no_duplicates();
    b.lemma_multiset_has_no_duplicates();
    assert forall|x: T| a.to_multiset().count(x) == b.to_multiset().count(x) by {
        assert(a.contains(x) <==> a.to_multiset().count(x) > 0);
        assert(b.contains(x) <==> b.to_multiset().count(x) > 0);
    }
    assert(a.to_multiset() =~= b.to_multiset());
}

/// The number of partitions never changes an expectation value: two sums with the same terms and
/// the same deferred gates have the same value, however many partitions each has and in whatever
/// order its rows stand.
pub proof fn law_partitions_leave_the_expectation_alone<
    A: Basis<W>,
    C: CoeffRepr,
    P: Pos,
    const W: usize,
>(a: PartitionedTermSum<C, P, W>, b: PartitionedTermSum<C, P, W>, fock: Seq<u64>)
    requires
        totals_exactly::<C>(),
        a.wf(),
        b.wf(),
        a.terms() == b.terms(),
        a.units() == b.units(),
        a.frame().readout_rows() == b.frame().readout_rows(),
    ensures
        partitioned_termsum::shares::<A, C, P, W>(
            a.frame(),
            a.parts(),
            fock,
            a.parts().len() as int,
        ) == partitioned_termsum::shares::<A, C, P, W>(
            b.frame(),
            b.parts(),
            fock,
            b.parts().len() as int,
        ),
{
    let (n, m) = (a.parts().len() as int, b.parts().len() as int);
    a.lemma_wf();
    b.lemma_wf();
    assert forall|p: int| 0 <= p < n implies (#[trigger] a.parts()[p]).keys().len()
        == a.parts()[p].coeffs().len() && a.parts()[p].units() == a.units() by {
        a.parts()[p].lemma_wf();
    }
    assert forall|p: int| 0 <= p < m implies (#[trigger] b.parts()[p]).keys().len()
        == b.parts()[p].coeffs().len() && b.parts()[p].units() == b.units() by {
        b.parts()[p].lemma_wf();
    }
    law_shares_add_up::<A, C, P, W>(a.frame(), a.parts(), a.units(), fock, n);
    law_shares_add_up::<A, C, P, W>(b.frame(), b.parts(), b.units(), fock, m);
    lemma_rows(a, n);
    lemma_rows(b, m);
    let (s, t) = (rows_of(a.parts(), n), rows_of(b.parts(), m));
    assert forall|x: (Seq<bool>, C)| s.contains(x) <==> t.contains(x) by {
        assert(s.contains((x.0, x.1)) <==> gate::get(a.terms(), x.0) == Some(x.1));
        assert(t.contains((x.0, x.1)) <==> gate::get(b.terms(), x.0) == Some(x.1));
    }
    lemma_same_rows(s, t);
    let va = value_of::<A, W>(a.frame(), a.units(), fock);
    let vb = value_of::<A, W>(b.frame(), b.units(), fock);
    assert(va =~= vb);
    let f = step::<C>(va);
    assert(vstd::seq_lib::commutative_foldl(f)) by {
        assert forall|x: (Seq<bool>, C), y: (Seq<bool>, C), v: C::Real| #[trigger]
            f(f(v, x), y) == f(f(v, y), x) by {
            assert(C::totalled(C::totalled(v, x.1, va(x.0)), y.1, va(y.0)) == C::totalled(
                C::totalled(v, y.1, va(y.0)),
                x.1,
                va(x.0),
            ));
        }
    }
    vstd::seq_lib::lemma_fold_left_permutation(s, t, f, C::unit(0));
}

/// Counting is filtering.
proof fn lemma_count_filter<T>(s: Seq<T>, pred: spec_fn(T) -> bool, n: int)
    requires
        0 <= n <= s.len(),
    ensures
        bits::ones(Seq::new(n as nat, |i: int| pred(s[i]))) == s.take(n).filter(pred).len(),
    decreases n,
{
    reveal(Seq::filter);
    let flags = Seq::new(n as nat, |i: int| pred(s[i]));
    if n > 0 {
        lemma_count_filter(s, pred, n - 1);
        assert(flags.drop_last() =~= Seq::new((n - 1) as nat, |i: int| pred(s[i])));
        assert(s.take(n).drop_last() =~= s.take(n - 1));
        assert(s.take(n).last() == s[n - 1]);
    } else {
        assert(s.take(0) =~= Seq::empty());
        assert(flags =~= Seq::<bool>::empty());
    }
}

/// The terms below a threshold are, over all partitions, the rows whose magnitude is below it.
pub proof fn law_terms_below_are_counted<C: CoeffRepr, P: Pos, const W: usize>(
    sum: PartitionedTermSum<C, P, W>,
    threshold: C::Real,
    n: int,
)
    requires
        sum.wf(),
        0 <= n <= sum.parts().len(),
    ensures
        sums::sum_to(|p: int| sum.faint_rows(p, threshold), n) == rows_of(sum.parts(), n).filter(
            |t: (Seq<bool>, C)| C::real_below(t.1.magnitude_of(), threshold),
        ).len(),
    decreases n,
{
    reveal(Seq::filter);
    let pred = |t: (Seq<bool>, C)| C::real_below(t.1.magnitude_of(), threshold);
    if n > 0 {
        law_terms_below_are_counted(sum, threshold, n - 1);
        sum.lemma_wf();
        let part = sum.parts()[n - 1];
        part.lemma_wf();
        let s = pairs(part.keys(), part.coeffs());
        let m = s.len() as int;
        lemma_count_filter(s, pred, m);
        assert(s.take(m) =~= s);
        assert(Seq::new(m as nat, |i: int| pred(s[i])) =~= Seq::new(
            part.coeffs().len(),
            |i: int| partitioned_termsum::faint(part.coeffs()[i], threshold),
        ));
        Seq::filter_distributes_over_add(rows_of(sum.parts(), n - 1), s, pred);
    }
}

/// Retaining by a function of key and coefficient leaves exactly the terms it keeps.
pub proof fn law_retain_filters<
    C: CoeffRepr,
    P: Pos,
    F: Fn(&BasisString<W>, &C) -> bool,
    const W: usize,
>(
    before: PartitionedTermSum<C, P, W>,
    after: PartitionedTermSum<C, P, W>,
    keep: F,
    kept: spec_fn(Seq<bool>, C) -> bool,
    k: Seq<bool>,
)
    requires
        forall|m: &BasisString<W>, c: &C, b: bool| #[trigger]
            call_ensures(keep, (m, c), b) ==> b == kept(m@, *c),
        before.terms().contains_key(k) ==> BasisString::<W>::with_bits(k)@ == k
            && partitioned_termsum::judged::<C, F, W>(
            keep,
            k,
            before.terms()[k],
            gate::get(after.terms(), k),
        ),
        after.terms().contains_key(k) ==> before.terms().contains_key(k),
    ensures
        gate::get(after.terms(), k) == (if before.terms().contains_key(k) && kept(
            k,
            before.terms()[k],
        ) {
            Some(before.terms()[k])
        } else {
            None
        }),
{
}

/// A counter shows what it counts, as far as it can.
pub proof fn law_counters_saturate(n: nat, a: u64)
    ensures
        partitioned_termsum::capped(n) <= n,
        n <= u64::MAX ==> partitioned_termsum::capped(n) == n,
        n > u64::MAX ==> partitioned_termsum::capped(n) == u64::MAX,
        a + n <= u64::MAX ==> termsum::counted(a, n) == a + n,
        a + n > u64::MAX ==> termsum::counted(a, n) == u64::MAX,
{
}

/// The counters of a rotation: a scan reaches the rows that anticommute with the generator and
/// no others; without truncation it sends a branch from each of them and declines none; and a
/// plugin that does not read keys declines exactly the branches it does not keep.
pub proof fn law_scans_are_counted<
    A: Basis<W>,
    C: CoeffRepr,
    K: TruncationKernel<C::Real>,
    const W: usize,
>(g: Gate<A, C, K, W>, keys: Seq<Seq<bool>>, coeffs: Seq<C>)
    requires
        keys.len() == coeffs.len(),
        keys.len() < u32::MAX,
    ensures
        ({
            let reached = bits::ones(Seq::new(keys.len(), |i: int| A::anti(g.gen, keys[i])));
            let (visited, declined) = termsum::scanned_counts(g, keys, coeffs, (0, 0));
            &&& visited == reached
            &&& g.cutoff.is_lossless() ==> declined == 0 && termsum::emitting(g, keys, coeffs)
                == reached
            &&& g.cutoff.term is None && g.cutoff.native is Some ==> declined == bits::ones(
                Seq::new(
                    keys.len(),
                    |i: int|
                        A::anti(g.gen, keys[i]) && !g.cutoff.native->0.keeps(
                            A::kind_of(),
                            Seq::<u64>::empty(),
                            g.n_units,
                            A::weight_of(bits::xor(g.gen, keys[i]), g.n_units),
                            coeffs[i].sin_branch(
                                g.param,
                                map_laws::phase_with::<A, W>(g.gen, g.negated, keys[i]),
                            ).magnitude_of(),
                        ),
                ),
            )
        }),
{
    let n = keys.len();
    let anti = Seq::new(n, |i: int| A::anti(g.gen, keys[i]));
    let branches = Seq::new(n, |i: int| g.branches(keys[i]));
    let sends = Seq::new(n, |i: int| g.fate(keys[i], coeffs[i]) is Sends);
    let holds = Seq::new(n, |i: int| g.fate(keys[i], coeffs[i]) is Holds);
    assert(anti =~= branches);
    bits::lemma_ones_bound(anti);
    bits::lemma_ones_bound(holds);
    if g.cutoff.is_lossless() {
        assert(sends =~= anti);
        bits::lemma_ones_none(holds);
    }
    if g.cutoff.term is None && g.cutoff.native is Some {
        let refused = Seq::new(
            n,
            |i: int|
                A::anti(g.gen, keys[i]) && !g.cutoff.native->0.keeps(
                    A::kind_of(),
                    Seq::<u64>::empty(),
                    g.n_units,
                    A::weight_of(bits::xor(g.gen, keys[i]), g.n_units),
                    coeffs[i].sin_branch(
                        g.param,
                        map_laws::phase_with::<A, W>(g.gen, g.negated, keys[i]),
                    ).magnitude_of(),
                ),
        );
        assert(holds =~= refused);
    }
}

} // verus!
