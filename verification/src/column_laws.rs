//! Laws of the column store's kernels, stated on its terms: the list of its keys and
//! coefficients, in row order.

use crate::coeff::CoeffRepr;
use crate::kernels;
use crate::kernels::Turn;
use crate::noise::LayeredNoise;
use crate::plugins::LayerContext;
use crate::sparse;
use crate::store;
use crate::store::{SoaBasis, SoaTermSum};
use crate::term_kernel::TruncationKernel;
use crate::truncators::ResolvedConfig;
use vstd::prelude::*;

verus! {

/// A term: its key and its coefficient.
pub type Term<C> = (Seq<bool>, C);

/// The terms a sum holds, in row order.
pub open spec fn terms_in<C: CoeffRepr>(terms: SoaTermSum<C>) -> Seq<Term<C>> {
    Seq::new(terms.row_lists().len(), |i: int| (terms.key(i), terms.coeff_seq()[i]))
}

/// Picking flagged entries is filtering by what raised the flags.
proof fn lemma_flagged_filter<T, U>(
    rows: Seq<T>,
    flags: Seq<u32>,
    all: Seq<U>,
    of: spec_fn(T) -> U,
    pred: spec_fn(U) -> bool,
    n: int,
)
    requires
        0 <= n <= rows.len(),
        n <= flags.len(),
        n <= all.len(),
        forall|i: int| 0 <= i < n ==> #[trigger] all[i] == of(rows[i]),
        forall|i: int| 0 <= i < n ==> (#[trigger] flags[i] != 0 <==> pred(all[i])),
    ensures
        sparse::flagged(rows, flags, n).map_values(of) == all.take(n).filter(pred),
    decreases n,
{
    reveal(Seq::filter);
    let some = all.take(n);
    if n > 0 {
        lemma_flagged_filter(rows, flags, all, of, pred, n - 1);
        assert(some.drop_last() =~= all.take(n - 1));
        assert(some.last() == all[n - 1]);
        assert(flags[n - 1] != 0 <==> pred(all[n - 1]));
        let rest = sparse::flagged(rows, flags, n - 1);
        assert(rest.push(rows[n - 1]).map_values(of) =~= rest.map_values(of).push(of(rows[n - 1])));
    } else {
        assert(some =~= Seq::empty());
        assert(sparse::flagged(rows, flags, n).map_values(of) =~= Seq::<U>::empty());
    }
}

/// The rows and the coefficients picked by one list of flags are the terms picked by it.
proof fn lemma_terms_flagged<C: CoeffRepr>(
    before: SoaTermSum<C>,
    after: SoaTermSum<C>,
    flags: Seq<u32>,
    pred: spec_fn(Term<C>) -> bool,
)
    requires
        before.coeff_seq().len() == before.row_lists().len(),
        after.span() == before.span(),
        flags.len() == before.row_lists().len(),
        after.row_lists() == sparse::flagged(before.row_lists(), flags, flags.len() as int),
        after.coeff_seq() == sparse::flagged(before.coeff_seq(), flags, flags.len() as int),
        forall|i: int|
            0 <= i < flags.len() ==> (#[trigger] flags[i] != 0 <==> pred(
                (before.key(i), before.coeff_seq()[i]),
            )),
    ensures
        terms_in(after) == terms_in(before).filter(pred),
{
    let n = flags.len() as int;
    let all = terms_in(before);
    let pairs = Seq::new(flags.len(), |i: int| (before.row_lists()[i], before.coeff_seq()[i]));
    let span = before.span();
    let of = |t: (Seq<u32>, C)| (sparse::key_in(t.0, 2 * span), t.1);
    lemma_flagged_filter(pairs, flags, all, of, pred, n);
    assert(all.take(n) =~= all);
    sparse::lemma_flagged(before.row_lists(), flags, n);
    sparse::lemma_flagged(before.coeff_seq(), flags, n);
    sparse::lemma_flagged(pairs, flags, n);
    let picked = sparse::flagged(pairs, flags, n);
    assert forall|j: int| 0 <= j < picked.len() implies #[trigger] terms_in(after)[j] == of(
        picked[j],
    ) by {
        assert(sparse::stands_at(pairs, flags, n, j));
        let i = choose|i: int|
            0 <= i < n && flags[i] != 0 && sparse::rank(flags, i) == j && picked[j]
                == #[trigger] pairs[i];
        assert(sparse::ranked(before.row_lists(), flags, n, i));
        assert(sparse::ranked(before.coeff_seq(), flags, n, i));
    }
    assert(terms_in(after) =~= picked.map_values(of));
}

/// A truncation leaves the terms the configuration asks for, all of them and in their order. A
/// plugin alone decides where one is set. Otherwise a term stays exactly where its weight is
/// within the weight cutoff, if one is set, and its coefficient reaches the coefficient cutoff,
/// or zero where none is set.
pub proof fn law_truncation_filters<B: SoaBasis, C: CoeffRepr, K: TruncationKernel<C::Real>>(
    cfg: ResolvedConfig<C::Real, K>,
    before: SoaTermSum<C>,
    after: SoaTermSum<C>,
)
    requires
        before.wf(),
        after.same_setup(before),
        after.row_lists() == sparse::flagged(
            before.row_lists(),
            kernels::kept_flags::<B, C, K>(cfg, before),
            before.row_lists().len() as int,
        ),
        after.coeff_seq() == sparse::flagged(
            before.coeff_seq(),
            kernels::kept_flags::<B, C, K>(cfg, before),
            before.row_lists().len() as int,
        ),
    ensures
        cfg.native matches Some(plugin) ==> terms_in(after) == terms_in(before).filter(
            |t: Term<C>|
                plugin.keeps(
                    B::kind_of(),
                    Seq::<u64>::empty(),
                    before.units(),
                    B::weight_of(t.0, before.units()),
                    t.1.magnitude_of(),
                ),
        ),
        cfg.native is None ==> terms_in(after) == terms_in(before).filter(
            |t: Term<C>|
                (cfg.weight is None || B::weight_of(t.0, before.units()) <= cfg.weight->0)
                    && t.1.reaches(
                    if cfg.coefficient is Some {
                        cfg.coefficient->0
                    } else {
                        C::unit(0)
                    },
                ),
        ),
{
    before.lemma_wf();
    let flags = kernels::kept_flags::<B, C, K>(cfg, before);
    if let Some(plugin) = cfg.native {
        lemma_terms_flagged(
            before,
            after,
            flags,
            |t: Term<C>|
                plugin.keeps(
                    B::kind_of(),
                    Seq::<u64>::empty(),
                    before.units(),
                    B::weight_of(t.0, before.units()),
                    t.1.magnitude_of(),
                ),
        );
    } else {
        lemma_terms_flagged(
            before,
            after,
            flags,
            |t: Term<C>|
                (cfg.weight is None || B::weight_of(t.0, before.units()) <= cfg.weight->0)
                    && t.1.reaches(
                    if cfg.coefficient is Some {
                        cfg.coefficient->0
                    } else {
                        C::unit(0)
                    },
                ),
        );
    }
}

/// After a truncation without a plugin every term left is within the weight cutoff, if one is
/// set, and reaches the coefficient cutoff, if one is set; and every term that does both is
/// left. Where no coefficient cutoff is set a term is left if it reaches zero.
pub proof fn law_truncation_bounds<B: SoaBasis, C: CoeffRepr, K: TruncationKernel<C::Real>>(
    cfg: ResolvedConfig<C::Real, K>,
    before: SoaTermSum<C>,
    after: SoaTermSum<C>,
    i: int,
)
    requires
        before.wf(),
        after.same_setup(before),
        after.row_lists() == sparse::flagged(
            before.row_lists(),
            kernels::kept_flags::<B, C, K>(cfg, before),
            before.row_lists().len() as int,
        ),
        after.coeff_seq() == sparse::flagged(
            before.coeff_seq(),
            kernels::kept_flags::<B, C, K>(cfg, before),
            before.row_lists().len() as int,
        ),
        cfg.native is None,
    ensures
        0 <= i < after.row_lists().len() ==> {
            &&& cfg.weight matches Some(w) ==> B::weight_of(after.key(i), after.units()) <= w
            &&& cfg.coefficient matches Some(c) ==> after.coeff_seq()[i].reaches(c)
            &&& terms_in(before).contains((after.key(i), after.coeff_seq()[i]))
        },
        0 <= i < before.row_lists().len() && (cfg.weight matches Some(w) ==> B::weight_of(
            before.key(i),
            before.units(),
        ) <= w) && (cfg.coefficient matches Some(c) ==> before.coeff_seq()[i].reaches(c)) && (
        cfg.coefficient is None ==> before.coeff_seq()[i].reaches(C::unit(0)))
            ==> terms_in(after).contains((before.key(i), before.coeff_seq()[i])),
{
    law_truncation_filters::<B, C, K>(cfg, before, after);
    let pred = |t: Term<C>|
        (cfg.weight is None || B::weight_of(t.0, before.units()) <= cfg.weight->0) && t.1.reaches(
            if cfg.coefficient is Some {
                cfg.coefficient->0
            } else {
                C::unit(0)
            },
        );
    let all = terms_in(before);
    assert(terms_in(after) =~= all.filter(pred));
    broadcast use vstd::seq_lib::group_filter_ensures;
    if 0 <= i < after.row_lists().len() {
        assert(terms_in(after)[i] == all.filter(pred)[i]);
        assert(pred(all.filter(pred)[i]));
        all.lemma_filter_contains_rev(pred, all.filter(pred)[i]);
    }
    if 0 <= i < before.row_lists().len() && pred(all[i]) {
        assert(all.filter(pred).contains(all[i]));
    }
}

/// A merge with truncation filters the merged terms as a truncation does, where the merged sum
/// has as many terms as the floor asks and something is there to cut by; otherwise it leaves
/// them all.
pub proof fn law_merging_truncation_filters<
    B: SoaBasis,
    C: CoeffRepr,
    K: TruncationKernel<C::Real>,
>(
    cfg: ResolvedConfig<C::Real, K>,
    before: SoaTermSum<C>,
    merged: SoaTermSum<C>,
    after: SoaTermSum<C>,
)
    requires
        before.wf(),
        merged.same_setup(before),
        merged.coeff_seq().len() == merged.row_lists().len(),
        merged.row_lists() == kernels::merged_rows(before.row_lists()),
        merged.coeff_seq() == kernels::merged_coeffs(before.row_lists(), before.coeff_seq()),
        after.same_setup(before),
        kernels::cut_down::<B, C, K>(Some(cfg), before, after),
    ensures
        ({
            let floored = cfg.min_terms matches Some(m) && merged.row_lists().len() < m;
            let idle = cfg.weight is None && cfg.coefficient is None && cfg.native is None;
            if floored || idle {
                terms_in(after) == terms_in(merged)
            } else if cfg.native is Some {
                terms_in(after) == terms_in(merged).filter(
                    |t: Term<C>|
                        cfg.native->0.keeps(
                            B::kind_of(),
                            Seq::<u64>::empty(),
                            before.units(),
                            B::weight_of(t.0, before.units()),
                            t.1.magnitude_of(),
                        ),
                )
            } else {
                terms_in(after) == terms_in(merged).filter(
                    |t: Term<C>|
                        (cfg.weight is None || B::weight_of(t.0, before.units()) <= cfg.weight->0)
                            && t.1.reaches(
                            if cfg.coefficient is Some {
                                cfg.coefficient->0
                            } else {
                                C::unit(0)
                            },
                        ),
                )
            }
        }),
{
    let floored = cfg.min_terms matches Some(m) && merged.row_lists().len() < m;
    let idle = cfg.weight is None && cfg.coefficient is None && cfg.native is None;
    if floored || idle {
        let kept = kernels::merge_kept::<B, C, K>(Some(cfg), before);
        let firsts = kernels::first_flags(before.row_lists());
        assert(kept =~= firsts);
        assert(after.row_lists() == merged.row_lists());
        assert(after.coeff_seq() == merged.coeff_seq());
        assert(terms_in(after) =~= terms_in(merged));
    } else {
        let m = merged.row_lists().len() as int;
        let flags = kernels::kept_flags::<B, C, K>(cfg, merged);
        kernels::lemma_one_pass::<B, C, K>(cfg, before, merged, after);
        if let Some(plugin) = cfg.native {
            lemma_terms_flagged(
                merged,
                after,
                flags,
                |t: Term<C>|
                    plugin.keeps(
                        B::kind_of(),
                        Seq::<u64>::empty(),
                        before.units(),
                        B::weight_of(t.0, before.units()),
                        t.1.magnitude_of(),
                    ),
            );
        } else {
            lemma_terms_flagged(
                merged,
                after,
                flags,
                |t: Term<C>|
                    (cfg.weight is None || B::weight_of(t.0, before.units()) <= cfg.weight->0)
                        && t.1.reaches(
                        if cfg.coefficient is Some {
                            cfg.coefficient->0
                        } else {
                            C::unit(0)
                        },
                    ),
            );
        }
    }
}

/// A term whose weight is within the table is scaled by exactly the table's entry at its
/// weight, and a heavier one by the last entry.
pub proof fn law_noise_by_weight<B: SoaBasis, C: CoeffRepr>(
    exp_lut: Seq<C::Real>,
    before: SoaTermSum<C>,
    after: SoaTermSum<C>,
    i: int,
)
    requires
        exp_lut.len() > 0,
        0 <= i < before.row_lists().len(),
        forall|j: int|
            0 <= j < before.row_lists().len() ==> #[trigger] after.coeff_seq()[j]
                == before.coeff_seq()[j].scaled(
                kernels::lut_factor(exp_lut, B::weight_of(before.key(j), before.units())),
            ),
    ensures
        forall|w: int|
            0 <= w < exp_lut.len() && B::weight_of(before.key(i), before.units()) == w
                ==> after.coeff_seq()[i] == before.coeff_seq()[i].scaled(#[trigger] exp_lut[w]),
        B::weight_of(before.key(i), before.units()) >= exp_lut.len() ==> after.coeff_seq()[i]
            == before.coeff_seq()[i].scaled(exp_lut.last()),
{
    assert(after.coeff_seq()[i] == before.coeff_seq()[i].scaled(
        kernels::lut_factor(exp_lut, B::weight_of(before.key(i), before.units())),
    ));
}

/// An expectation value goes through the terms one by one, whatever their traces: it starts
/// from zero and adds each coefficient times its key's trace.
pub proof fn law_expectation_is_a_fold<B: SoaBasis, C: CoeffRepr>(
    terms: SoaTermSum<C>,
    fock: Seq<u64>,
    n: int,
)
    requires
        0 <= n <= terms.row_lists().len(),
    ensures
        kernels::traced::<B, C>(terms, fock, n) == terms_in(terms).take(n).fold_left(
            C::unit(0),
            |x: C::Real, t: Term<C>|
                C::totalled(x, t.1, B::trace_of(t.0, terms.units(), fock) as int),
        ),
    decreases n,
{
    reveal(Seq::fold_left);
    let some = terms_in(terms).take(n);
    if n > 0 {
        law_expectation_is_a_fold::<B, C>(terms, fock, n - 1);
        assert(some.drop_last() =~= terms_in(terms).take(n - 1));
        assert(some.last() == terms_in(terms)[n - 1]);
    }
}

/// An empty sum has the expectation value zero, and a term appended to a sum adds its own
/// contribution to the value the sum had.
pub proof fn law_expectation_of_a_longer_sum<B: SoaBasis, C: CoeffRepr>(
    terms: SoaTermSum<C>,
    longer: SoaTermSum<C>,
    t: Term<C>,
    fock: Seq<u64>,
)
    requires
        longer.same_setup(terms),
        terms_in(longer) == terms_in(terms).push(t),
    ensures
        terms.row_lists().len() == 0 ==> kernels::traced::<B, C>(terms, fock, 0) == C::unit(0),
        kernels::traced::<B, C>(longer, fock, longer.row_lists().len() as int) == C::totalled(
            kernels::traced::<B, C>(terms, fock, terms.row_lists().len() as int),
            t.1,
            B::trace_of(t.0, terms.units(), fock) as int,
        ),
{
    let n = terms.row_lists().len() as int;
    assert(terms_in(longer).len() == n + 1);
    law_expectation_is_a_fold::<B, C>(terms, fock, n);
    law_expectation_is_a_fold::<B, C>(longer, fock, n);
    law_expectation_is_a_fold::<B, C>(longer, fock, n + 1);
    assert(terms_in(longer).take(n) =~= terms_in(terms).take(n));
    assert(terms_in(longer).take(n + 1).drop_last() =~= terms_in(longer).take(n));
    assert(terms_in(longer).take(n + 1).last() == t);
    reveal(Seq::fold_left);
}

/// Folding over what a filter leaves is folding over all, where the rest changes nothing.
proof fn lemma_fold_filter<T, R>(
    s: Seq<T>,
    pred: spec_fn(T) -> bool,
    start: R,
    step: spec_fn(R, T) -> R,
)
    requires
        forall|x: R, t: T| !pred(t) ==> #[trigger] step(x, t) == x,
    ensures
        s.filter(pred).fold_left(start, step) == s.fold_left(start, step),
    decreases s.len(),
{
    reveal(Seq::filter);
    reveal(Seq::fold_left);
    if s.len() > 0 {
        lemma_fold_filter(s.drop_last(), pred, start, step);
        if pred(s.last()) {
            let rest = s.drop_last().filter(pred);
            assert(rest.push(s.last()).drop_last() =~= rest);
        }
    }
}

/// Where adding nothing changes nothing, terms with trace zero can be left out of an
/// expectation value.
pub proof fn law_untraced_terms_can_go<B: SoaBasis, C: CoeffRepr>(
    terms: SoaTermSum<C>,
    fewer: SoaTermSum<C>,
    fock: Seq<u64>,
)
    requires
        fewer.same_setup(terms),
        terms_in(fewer) == terms_in(terms).filter(
            |t: Term<C>| B::trace_of(t.0, terms.units(), fock) != 0,
        ),
        forall|x: C::Real, c: C| #[trigger] C::totalled(x, c, 0) == x,
    ensures
        kernels::traced::<B, C>(fewer, fock, fewer.row_lists().len() as int) == kernels::traced::<
            B,
            C,
        >(terms, fock, terms.row_lists().len() as int),
{
    let (n, m) = (terms.row_lists().len() as int, fewer.row_lists().len() as int);
    let step = |x: C::Real, t: Term<C>|
        C::totalled(x, t.1, B::trace_of(t.0, terms.units(), fock) as int);
    let step_fewer = |x: C::Real, t: Term<C>|
        C::totalled(x, t.1, B::trace_of(t.0, fewer.units(), fock) as int);
    assert(step_fewer =~= step);
    law_expectation_is_a_fold::<B, C>(terms, fock, n);
    law_expectation_is_a_fold::<B, C>(fewer, fock, m);
    assert(terms_in(terms).take(n) =~= terms_in(terms));
    assert(terms_in(fewer).take(m) =~= terms_in(fewer));
    lemma_fold_filter(
        terms_in(terms),
        |t: Term<C>| B::trace_of(t.0, terms.units(), fock) != 0,
        C::unit(0),
        step,
    );
}

/// Where contributions add up in any order, an expectation value does not depend on the order
/// of the rows.
pub proof fn law_expectation_has_no_order<B: SoaBasis, C: CoeffRepr>(
    terms: SoaTermSum<C>,
    other: SoaTermSum<C>,
    fock: Seq<u64>,
)
    requires
        other.units() == terms.units(),
        terms_in(other).to_multiset() == terms_in(terms).to_multiset(),
        forall|x: C::Real, c: C, d: C, s: int, t: int| #[trigger]
            C::totalled(C::totalled(x, c, s), d, t) == C::totalled(C::totalled(x, d, t), c, s),
    ensures
        kernels::traced::<B, C>(other, fock, other.row_lists().len() as int) == kernels::traced::<
            B,
            C,
        >(terms, fock, terms.row_lists().len() as int),
{
    let (n, m) = (terms.row_lists().len() as int, other.row_lists().len() as int);
    let step = |x: C::Real, t: Term<C>|
        C::totalled(x, t.1, B::trace_of(t.0, terms.units(), fock) as int);
    let step_other = |x: C::Real, t: Term<C>|
        C::totalled(x, t.1, B::trace_of(t.0, other.units(), fock) as int);
    assert(step_other =~= step);
    law_expectation_is_a_fold::<B, C>(terms, fock, n);
    law_expectation_is_a_fold::<B, C>(other, fock, m);
    assert(terms_in(terms).take(n) =~= terms_in(terms));
    assert(terms_in(other).take(m) =~= terms_in(other));
    assert(vstd::seq_lib::commutative_foldl(step));
    vstd::seq_lib::lemma_fold_left_permutation(terms_in(terms), terms_in(other), step, C::unit(0));
}

/// Where a coefficient's contributions add up, two terms with one key contribute what their sum
/// does.
pub proof fn law_expectation_of_a_merged_term<B: SoaBasis, C: CoeffRepr>(
    apart: SoaTermSum<C>,
    merged: SoaTermSum<C>,
    rest: Seq<Term<C>>,
    k: Seq<bool>,
    c: C,
    d: C,
    fock: Seq<u64>,
)
    requires
        merged.units() == apart.units(),
        terms_in(apart) == rest.push((k, c)).push((k, d)),
        terms_in(merged) == rest.push((k, c.sum(d))),
        forall|x: C::Real, a: C, b: C, t: int| #[trigger]
            C::totalled(C::totalled(x, a, t), b, t) == C::totalled(x, a.sum(b), t),
    ensures
        kernels::traced::<B, C>(merged, fock, merged.row_lists().len() as int)
            == kernels::traced::<B, C>(apart, fock, apart.row_lists().len() as int),
{
    reveal_with_fuel(Seq::fold_left, 3);
    let (n, m) = (apart.row_lists().len() as int, merged.row_lists().len() as int);
    let step = |x: C::Real, t: Term<C>|
        C::totalled(x, t.1, B::trace_of(t.0, apart.units(), fock) as int);
    let step_merged = |x: C::Real, t: Term<C>|
        C::totalled(x, t.1, B::trace_of(t.0, merged.units(), fock) as int);
    assert(step_merged =~= step);
    assert(terms_in(apart).len() == n && terms_in(merged).len() == m);
    law_expectation_is_a_fold::<B, C>(apart, fock, n);
    law_expectation_is_a_fold::<B, C>(merged, fock, m);
    assert(terms_in(apart).take(n) =~= rest.push((k, c)).push((k, d)));
    assert(terms_in(merged).take(m) =~= rest.push((k, c.sum(d))));
    assert(rest.push((k, c)).push((k, d)).drop_last() =~= rest.push((k, c)));
    assert(rest.push((k, c)).drop_last() =~= rest);
    assert(rest.push((k, c.sum(d))).drop_last() =~= rest);
}

/// The discarded statistics, as folds over the terms the configuration does not keep.
proof fn lemma_discarded<B: SoaBasis, C: CoeffRepr, K: TruncationKernel<C::Real>>(
    cfg: ResolvedConfig<C::Real, K>,
    terms: SoaTermSum<C>,
    dropped: spec_fn(Term<C>) -> bool,
    n: int,
)
    requires
        0 <= n <= terms.row_lists().len(),
        forall|t: Term<C>| #[trigger]
            dropped(t) == !kernels::kept_by::<B, C, K>(cfg, t.0, t.1, terms.units()),
    ensures
        kernels::discarded::<B, C, K>(cfg, terms, n) == (
            terms_in(terms).take(n).filter(dropped).fold_left(
                C::unit(0),
                |x: C::Real, t: Term<C>| C::real_sum(x, t.1.magnitude_of()),
            ),
            terms_in(terms).take(n).filter(dropped).fold_left(
                C::unit(0),
                |x: C::Real, t: Term<C>|
                    if C::real_below(x, t.1.magnitude_of()) {
                        t.1.magnitude_of()
                    } else {
                        x
                    },
            ),
        ),
    decreases n,
{
    reveal(Seq::filter);
    reveal(Seq::fold_left);
    let some = terms_in(terms).take(n);
    if n > 0 {
        lemma_discarded::<B, C, K>(cfg, terms, dropped, n - 1);
        let rest = terms_in(terms).take(n - 1);
        assert(some.drop_last() =~= rest);
        let t = terms_in(terms)[n - 1];
        assert(some.last() == t);
        assert(dropped(t) == !kernels::kept_by::<B, C, K>(cfg, t.0, t.1, terms.units()));
        if dropped(t) {
            assert(rest.filter(dropped).push(t).drop_last() =~= rest.filter(dropped));
        }
    }
}

/// The discarded statistics are of the terms a truncation would drop and of no other: their
/// magnitudes added up, and the largest of them. A term is dropped where the plugin does not keep
/// it or, without one, where it is over the weight cutoff or does not reach the coefficient
/// cutoff.
pub proof fn law_discarded_statistics<B: SoaBasis, C: CoeffRepr, K: TruncationKernel<C::Real>>(
    cfg: ResolvedConfig<C::Real, K>,
    terms: SoaTermSum<C>,
    dropped: spec_fn(Term<C>) -> bool,
)
    requires
        forall|t: Term<C>| #[trigger]
            dropped(t) == (if cfg.native is Some {
                !cfg.native->0.keeps(
                    B::kind_of(),
                    Seq::<u64>::empty(),
                    terms.units(),
                    B::weight_of(t.0, terms.units()),
                    t.1.magnitude_of(),
                )
            } else {
                cfg.weight is Some && B::weight_of(t.0, terms.units()) > cfg.weight->0
                    || !t.1.reaches(
                    if cfg.coefficient is Some {
                        cfg.coefficient->0
                    } else {
                        C::unit(0)
                    },
                )
            }),
    ensures
        ({
            let gone = terms_in(terms).filter(dropped);
            let (total, largest) = kernels::discarded::<B, C, K>(
                cfg,
                terms,
                terms.row_lists().len() as int,
            );
            &&& total == gone.fold_left(
                C::unit(0),
                |x: C::Real, t: Term<C>| C::real_sum(x, t.1.magnitude_of()),
            )
            &&& largest == gone.fold_left(
                C::unit(0),
                |x: C::Real, t: Term<C>|
                    if C::real_below(x, t.1.magnitude_of()) {
                        t.1.magnitude_of()
                    } else {
                        x
                    },
            )
        }),
{
    let n = terms.row_lists().len() as int;
    assert(terms_in(terms).take(n) =~= terms_in(terms));
    lemma_discarded::<B, C, K>(cfg, terms, dropped, n);
}

/// A merge without a configuration only merges.
pub proof fn law_merging_alone_drops_nothing<
    B: SoaBasis,
    C: CoeffRepr,
    K: TruncationKernel<C::Real>,
>(before: SoaTermSum<C>, after: SoaTermSum<C>)
    requires
        kernels::cut_down::<B, C, K>(None, before, after),
    ensures
        after.row_lists() == kernels::merged_rows(before.row_lists()),
        after.coeff_seq() == kernels::merged_coeffs(before.row_lists(), before.coeff_seq()),
{
    assert(kernels::merge_kept::<B, C, K>(None, before) =~= kernels::first_flags(
        before.row_lists(),
    ));
}

/// A fold over the coefficients whose step and start are functions is the fold of the list of
/// coefficients, first to last, combined once with the start.
pub proof fn law_fold_is_a_fold<C: CoeffRepr, T, ID: Fn() -> T, F: Fn(T, &C) -> T, R: Fn(T, T) -> T>(
    identity: ID,
    fold: F,
    combine: R,
    start: T,
    step: spec_fn(T, C) -> T,
    join: spec_fn(T, T) -> T,
    coeffs: Seq<C>,
    end: T,
)
    requires
        forall|t: T| #[trigger] call_ensures(identity, (), t) ==> t == start,
        forall|t: T, c: &C, u: T| #[trigger] call_ensures(fold, (t, c), u) ==> u == step(t, *c),
        forall|t: T, u: T, v: T| #[trigger] call_ensures(combine, (t, u), v) ==> v == join(t, u),
        kernels::fold_answer(identity, fold, combine, coeffs, end),
    ensures
        end == join(start, coeffs.fold_left(start, step)),
{
    let (a, unit, acc) = choose|a: T, unit: T, acc: T|
        #![trigger kernels::folded(fold, coeffs, a, coeffs.len() as int, acc), call_ensures(combine, (unit, acc), end)]
        {
            &&& call_ensures(identity, (), a)
            &&& call_ensures(identity, (), unit)
            &&& kernels::folded(fold, coeffs, a, coeffs.len() as int, acc)
            &&& call_ensures(combine, (unit, acc), end)
        };
    lemma_folded(fold, step, coeffs, a, coeffs.len() as int, acc);
    assert(coeffs.take(coeffs.len() as int) =~= coeffs);
}

/// What the first `n` steps of a fold come to.
proof fn lemma_folded<C, T, F: Fn(T, &C) -> T>(
    fold: F,
    step: spec_fn(T, C) -> T,
    coeffs: Seq<C>,
    start: T,
    n: int,
    end: T,
)
    requires
        0 <= n <= coeffs.len(),
        forall|t: T, c: &C, u: T| #[trigger] call_ensures(fold, (t, c), u) ==> u == step(t, *c),
        kernels::folded(fold, coeffs, start, n, end),
    ensures
        end == coeffs.take(n).fold_left(start, step),
    decreases n,
{
    reveal(Seq::fold_left);
    if n > 0 {
        let mid = choose|mid: T|
            kernels::folded(fold, coeffs, start, n - 1, mid) && #[trigger] call_ensures(
                fold,
                (mid, &coeffs[n - 1]),
                end,
            );
        lemma_folded(fold, step, coeffs, start, n - 1, mid);
        assert(coeffs.take(n).drop_last() =~= coeffs.take(n - 1));
        assert(coeffs.take(n).last() == coeffs[n - 1]);
    }
}

/// Mapping and retaining, by functions, is mapping every coefficient and then keeping the rows
/// that ask to be kept with their mapped coefficient.
pub proof fn law_map_retain_filters<C: CoeffRepr>(
    rows: Seq<Seq<u32>>,
    mapped: Seq<C>,
    flags: Seq<u32>,
    keep: spec_fn((Seq<u32>, C)) -> bool,
    now_rows: Seq<Seq<u32>>,
    now: Seq<C>,
)
    requires
        mapped.len() == rows.len(),
        flags.len() == rows.len(),
        forall|i: int|
            0 <= i < flags.len() ==> (#[trigger] flags[i] != 0 <==> keep((rows[i], mapped[i]))),
        now_rows == sparse::flagged(rows, flags, rows.len() as int),
        now == sparse::flagged(mapped, flags, rows.len() as int),
    ensures
        now.len() == now_rows.len(),
        Seq::new(now_rows.len(), |j: int| (now_rows[j], now[j])) == Seq::new(
            rows.len(),
            |i: int| (rows[i], mapped[i]),
        ).filter(keep),
{
    let n = rows.len() as int;
    let pairs = Seq::new(rows.len(), |i: int| (rows[i], mapped[i]));
    let of = |t: (Seq<u32>, C)| t;
    lemma_flagged_filter(pairs, flags, pairs, of, keep, n);
    assert(pairs.take(n) =~= pairs);
    sparse::lemma_flagged(rows, flags, n);
    sparse::lemma_flagged(mapped, flags, n);
    sparse::lemma_flagged(pairs, flags, n);
    let picked = sparse::flagged(pairs, flags, n);
    let now_pairs = Seq::new(now_rows.len(), |j: int| (now_rows[j], now[j]));
    assert forall|j: int| 0 <= j < picked.len() implies #[trigger] now_pairs[j] == picked[j] by {
        assert(sparse::stands_at(pairs, flags, n, j));
        let i = choose|i: int|
            0 <= i < n && flags[i] != 0 && sparse::rank(flags, i) == j && picked[j]
                == #[trigger] pairs[i];
        assert(sparse::ranked(rows, flags, n, i));
        assert(sparse::ranked(mapped, flags, n, i));
    }
    assert(now_pairs =~= picked.map_values(of));
}

/// What a rotation does to the rows there were, and how many it adds. A half turn scales the
/// rows that anticommute with the generator, or does nothing where its cosine is one. A quarter
/// turn in place rewrites those rows to their products. Neither adds a row. Any other rotation
/// leaves those rows their cosine branch and adds one row for each of them.
pub proof fn law_rotation_by_row<B: SoaBasis, C: CoeffRepr>(
    gx: Seq<u64>,
    gz: Seq<u64>,
    param: C::GateParam,
    clifford_inplace: bool,
    before: SoaTermSum<C>,
    after: SoaTermSum<C>,
    added: nat,
    i: int,
)
    requires
        0 <= i < before.row_lists().len(),
        kernels::rotated::<B, C>(
            kernels::turn_of::<B, C>(
                gx,
                gz,
                before.span(),
                before.units(),
                param,
                clifford_inplace,
            ),
            before,
            after,
            sparse::key_of(gx, gz, before.span()),
            param,
            added,
        ),
    ensures
        ({
            let n = before.row_lists().len();
            let g = sparse::key_of(gx, gz, before.span());
            let half = C::half_turn(param, C::tolerance_of());
            let (k, c) = (before.key(i), before.coeff_seq()[i]);
            let (now_k, now_c) = (after.key(i), after.coeff_seq()[i]);
            let phase = B::phase_of(k, g);
            &&& after.row_lists().len() == n + added
            &&& added == (if half is None && !clifford_inplace {
                terms_in(before).filter(|t: Term<C>| !B::commuting(t.0, g)).len()
            } else {
                0
            })
            &&& half is Some && C::is_one(half->0) ==> now_k == k && now_c == c
            &&& half is Some && !C::is_one(half->0) && !clifford_inplace ==> now_k == k && now_c
                == (if B::commuting(k, g) {
                c
            } else {
                c.scaled(half->0)
            })
            &&& half is None && clifford_inplace ==> {
                &&& now_k == (if B::commuting(k, g) {
                    k
                } else {
                    B::product_of(k, g)
                })
                &&& B::commuting(k, g) ==> now_c == c || now_c == c.scaled(C::unit(1))
                &&& !B::commuting(k, g) ==> now_c == c.sin_branch(param, phase) || now_c
                    == c.scaled(C::unit(C::turn_sign(param).unwrap() * -phase.imaginary()))
            }
            &&& half is None && !clifford_inplace ==> now_k == k && now_c == (if B::commuting(
                k,
                g,
            ) {
                c
            } else {
                c.cos_branch(param, phase)
            })
        }),
{
    let g = sparse::key_of(gx, gz, before.span());
    let turn = kernels::turn_of::<B, C>(
        gx,
        gz,
        before.span(),
        before.units(),
        param,
        clifford_inplace,
    );
    let n = before.row_lists().len() as int;
    let flags = kernels::anti_flags::<B, C>(before, g);
    let all = terms_in(before);
    let pred = |t: Term<C>| !B::commuting(t.0, g);
    lemma_flagged_filter(all, flags, all, |t: Term<C>| t, pred, n);
    sparse::lemma_flagged(all, flags, n);
    assert(all.take(n) =~= all);
    assert(after.coeff_seq()[i] == kernels::turned_coeff::<B, C>(turn, before, g, param, i));
    assert(after.key(i) == (if turn is Table || turn is InPlace {
        kernels::turned_key::<B, C>(before, g, i)
    } else {
        before.key(i)
    }));
}

/// A branching rotation leaves the terms that commute with the generator as they are and the
/// others their cosine branch, and appends, in the order of their sources, the sine branches:
/// for each term that anticommutes its product with the generator, at the product's phase.
pub proof fn law_branches_are_appended<B: SoaBasis, C: CoeffRepr>(
    before: SoaTermSum<C>,
    after: SoaTermSum<C>,
    g: Seq<bool>,
    param: C::GateParam,
    added: nat,
)
    requires
        kernels::rotated::<B, C>(Turn::Branching, before, after, g, param, added),
    ensures
        terms_in(after) == terms_in(before).map_values(
            |t: Term<C>|
                if B::commuting(t.0, g) {
                    t
                } else {
                    (t.0, t.1.cos_branch(param, B::phase_of(t.0, g)))
                },
        ) + terms_in(before).filter(|t: Term<C>| !B::commuting(t.0, g)).map_values(
            |t: Term<C>| (B::product_of(t.0, g), t.1.sin_branch(param, B::phase_of(t.0, g))),
        ),
{
    let n = before.row_lists().len() as int;
    let flags = kernels::anti_flags::<B, C>(before, g);
    let all = terms_in(before);
    let anti = |t: Term<C>| !B::commuting(t.0, g);
    let stays = |t: Term<C>|
        if B::commuting(t.0, g) {
            t
        } else {
            (t.0, t.1.cos_branch(param, B::phase_of(t.0, g)))
        };
    let goes = |t: Term<C>| (B::product_of(t.0, g), t.1.sin_branch(param, B::phase_of(t.0, g)));
    lemma_flagged_filter(all, flags, all, |t: Term<C>| t, anti, n);
    sparse::lemma_flagged(all, flags, n);
    let picked = sparse::flagged(all, flags, n);
    assert(all.take(n) =~= all);
    assert(picked.map_values(|t: Term<C>| t) =~= picked);
    let now = terms_in(after);
    let want = all.map_values(stays) + all.filter(anti).map_values(goes);
    assert forall|j: int| 0 <= j < now.len() implies #[trigger] now[j] == want[j] by {
        if j < n {
            assert(after.coeff_seq()[j] == kernels::turned_coeff::<B, C>(
                Turn::Branching,
                before,
                g,
                param,
                j,
            ));
            assert(after.key(j) == before.key(j));
            assert(all[j] == (before.key(j), before.coeff_seq()[j]));
        } else {
            assert(sparse::stands_at(all, flags, n, j - n));
            let i = choose|i: int|
                0 <= i < n && flags[i] != 0 && sparse::rank(flags, i) == j - n && picked[j - n]
                    == #[trigger] all[i];
            assert(kernels::sprung::<B, C>(before, after, g, param, flags[i], i));
            assert(want[j] == goes(all[i]));
        }
    }
    assert(now =~= want);
}

/// A merge leaves each row once, in the order in which the rows first occur.
pub proof fn law_merge_keeps_first_places(rows: Seq<Seq<u32>>)
    ensures
        kernels::merged_rows(rows) == Seq::new(rows.len(), |i: int| i).filter(
            |i: int| !rows.take(i).contains(rows[i]),
        ).map_values(|i: int| rows[i]),
{
    let n = rows.len() as int;
    let flags = kernels::first_flags(rows);
    let at = Seq::new(rows.len(), |i: int| i);
    let new = |i: int| !rows.take(i).contains(rows[i]);
    assert forall|i: int| 0 <= i < n implies (#[trigger] flags[i] != 0 <==> new(at[i])) by {
        let head = rows.take(i);
        if head.contains(rows[i]) {
            let j = choose|j: int| 0 <= j < head.len() && head[j] == rows[i];
            assert(rows[j] == rows[i]);
        }
        if !kernels::first(rows, i) {
            let j = choose|j: int| 0 <= j < i && #[trigger] rows[j] == rows[i];
            assert(head[j] == rows[i]);
        }
    }
    lemma_flagged_filter(at, flags, at, |i: int| i, new, n);
    assert(at.take(n) =~= at);
    sparse::lemma_flagged(at, flags, n);
    sparse::lemma_flagged(rows, flags, n);
    let picked = sparse::flagged(at, flags, n);
    assert(picked.map_values(|i: int| i) =~= picked);
    let want = at.filter(new).map_values(|i: int| rows[i]);
    let now = kernels::merged_rows(rows);
    assert forall|j: int| 0 <= j < now.len() implies #[trigger] now[j] == want[j] by {
        assert(sparse::stands_at(at, flags, n, j));
        let i = choose|i: int|
            0 <= i < n && flags[i] != 0 && sparse::rank(flags, i) == j && picked[j]
                == #[trigger] at[i];
        assert(sparse::ranked(rows, flags, n, i));
    }
    assert(now =~= want);
}

/// Damping by a table that was made of a model is damping by the model: a term whose weight the
/// table reaches is scaled by the model's factor for that weight.
pub proof fn law_table_stands_for_its_model<B: SoaBasis, C: CoeffRepr, K: LayeredNoise<C::Real>>(
    model: K,
    max_weight: usize,
    layer: LayerContext,
    exp_lut: Seq<C::Real>,
    before: SoaTermSum<C>,
    after: SoaTermSum<C>,
    i: int,
)
    requires
        exp_lut.len() == max_weight + 1,
        forall|w: int|
            0 <= w <= max_weight ==> #[trigger] exp_lut[w] == model.layer_factor_of(
                B::kind_of(),
                Seq::<u64>::empty(),
                max_weight as nat,
                w as u32,
                layer,
            ),
        0 <= i < before.row_lists().len(),
        B::weight_of(before.key(i), before.units()) <= max_weight,
        forall|j: int|
            0 <= j < before.row_lists().len() ==> #[trigger] after.coeff_seq()[j]
                == before.coeff_seq()[j].scaled(
                kernels::lut_factor(exp_lut, B::weight_of(before.key(j), before.units())),
            ),
    ensures
        after.coeff_seq()[i] == before.coeff_seq()[i].scaled(
            model.layer_factor_of(
                B::kind_of(),
                Seq::<u64>::empty(),
                max_weight as nat,
                B::weight_of(before.key(i), before.units()),
                layer,
            ),
        ),
{
    law_noise_by_weight::<B, C>(exp_lut, before, after, i);
    let w = B::weight_of(before.key(i), before.units()) as int;
    assert(exp_lut[w] == model.layer_factor_of(
        B::kind_of(),
        Seq::<u64>::empty(),
        max_weight as nat,
        w as u32,
        layer,
    ));
}

} // verus!
