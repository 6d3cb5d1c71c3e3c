//! Laws of rotations on maps of terms, stated in terms of the basis, the coefficients and the
//! plugin alone.

use crate::basis;
use crate::basis::{Basis, Phase};
use crate::bits;
use crate::coeff::CoeffRepr;
use crate::emit;
use crate::emit::{EmitCutoff, Fate, Gate};
use crate::exact;
use crate::gate;
use crate::group;
use crate::operator_index::Pos;
use crate::partitioned_termsum;
use crate::partitioned_termsum::PartitionedTermSum;
use crate::strings;
use crate::term_kernel::TruncationKernel;
use vstd::prelude::*;

verus! {

/// The phase of a generator, negated or not, times a string.
pub open spec fn phase_with<A: Basis<W>, const W: usize>(
    gen: Seq<bool>,
    negated: bool,
    k: Seq<bool>,
) -> Phase {
    basis::phase_from(
        if negated {
            A::product_quarters(gen, k) + 2
        } else {
            A::product_quarters(gen, k)
        },
    )
}

/// What a map holds of a key before a rotation that it anticommutes with: the cosine branch.
pub open spec fn own_branch<A: Basis<W>, C: CoeffRepr, const W: usize>(
    gen: Seq<bool>,
    negated: bool,
    param: C::GateParam,
    m: Map<Seq<bool>, C>,
    k: Seq<bool>,
) -> Option<C> {
    if m.contains_key(k) {
        Some(m[k].cos_branch(param, phase_with::<A, W>(gen, negated, k)))
    } else {
        None
    }
}

/// What a key's term sends to its partner: the sine branch.
pub open spec fn sine_of<A: Basis<W>, C: CoeffRepr, const W: usize>(
    gen: Seq<bool>,
    negated: bool,
    param: C::GateParam,
    m: Map<Seq<bool>, C>,
    k: Seq<bool>,
) -> C {
    m[k].sin_branch(param, phase_with::<A, W>(gen, negated, k))
}

/// The key's partner anticommutes with the generator too, and its partner is the key.
proof fn lemma_partners<A: Basis<W>, const W: usize>(gen: Seq<bool>, k: Seq<bool>)
    requires
        group::multiplies::<A, W>(),
        gen.len() == 64 * W,
        k.len() == 64 * W,
    ensures
        A::anti(gen, bits::xor(gen, k)) == A::anti(gen, k),
        bits::xor(gen, bits::xor(gen, k)) == k,
        bits::xor(gen, k).len() == 64 * W,
{
    group::lemma_anti_additive::<A, W>(gen, gen, k);
    group::lemma_anti_never::<A, W>(gen);
    emit::lemma_xor_back(gen, k);
}

/// Without truncation a rotation acts on every key: one that commutes with the generator keeps
/// its term, one that anticommutes gets the cosine branch of its own term and the sine branch of
/// its partner's.
pub proof fn law_rotation_acts<
    A: Basis<W>,
    C: CoeffRepr,
    K: TruncationKernel<C::Real>,
    const W: usize,
>(g: Gate<A, C, K, W>, m: Map<Seq<bool>, C>, k: Seq<bool>)
    requires
        group::multiplies::<A, W>(),
        g.cutoff.is_lossless(),
        C::half_turn(g.param, C::tolerance_of()) is None,
        g.gen.len() == 64 * W,
        k.len() == 64 * W,
    ensures
        !A::anti(g.gen, k) ==> gate::get(gate::turned(g, m), k) == gate::get(m, k),
        A::anti(g.gen, k) ==> gate::get(gate::turned(g, m), k) == ({
            let p = bits::xor(g.gen, k);
            gate::merged(
                own_branch::<A, C, W>(g.gen, g.negated, g.param, m, k),
                if m.contains_key(p) {
                    Some(sine_of::<A, C, W>(g.gen, g.negated, g.param, m, p))
                } else {
                    None
                },
            )
        }),
{
    lemma_partners::<A, W>(g.gen, k);
}

/// A half turn scales the terms that anticommute with the generator, and changes nothing else.
pub proof fn law_half_turn_scales<
    A: Basis<W>,
    C: CoeffRepr,
    K: TruncationKernel<C::Real>,
    const W: usize,
>(g: Gate<A, C, K, W>, m: Map<Seq<bool>, C>, f: C::Real, k: Seq<bool>)
    requires
        C::half_turn(g.param, C::tolerance_of()) == Some(f),
    ensures
        gate::turned(g, m).contains_key(k) == m.contains_key(k),
        m.contains_key(k) && A::anti(g.gen, k) ==> gate::turned(g, m)[k] == m[k].scaled(f),
        m.contains_key(k) && !A::anti(g.gen, k) ==> gate::turned(g, m)[k] == m[k],
{
}

/// What a map holds of a key, zero where it has no term.
pub open spec fn amount<C: CoeffRepr>(m: Map<Seq<bool>, C>, k: Seq<bool>) -> C {
    if m.contains_key(k) {
        m[k]
    } else {
        C::zero_of()
    }
}

/// Where coefficients add and turn exactly, a rotation without truncation turns amounts: the
/// cosine branch of the key's own and the sine branch of its partner's.
pub proof fn law_rotation_turns_amounts<
    A: Basis<W>,
    C: CoeffRepr,
    K: TruncationKernel<C::Real>,
    const W: usize,
>(g: Gate<A, C, K, W>, m: Map<Seq<bool>, C>, k: Seq<bool>)
    requires
        group::multiplies::<A, W>(),
        g.cutoff.is_lossless(),
        g.gen.len() == 64 * W,
        k.len() == 64 * W,
        exact::adds_exactly::<C>(),
        exact::turns_linearly::<C>(g.param),
        exact::half_turn_exact::<C>(g.param),
    ensures
        amount(gate::turned(g, m), k) == (if A::anti(g.gen, k) {
            let p = bits::xor(g.gen, k);
            amount(m, k).cos_branch(g.param, phase_with::<A, W>(g.gen, g.negated, k)).sum(
                amount(m, p).sin_branch(g.param, phase_with::<A, W>(g.gen, g.negated, p)),
            )
        } else {
            amount(m, k)
        }),
{
    reveal(exact::adds_exactly);
    reveal(exact::turns_linearly);
    let p = bits::xor(g.gen, k);
    let (pk, pp) = (phase_with::<A, W>(g.gen, g.negated, k), phase_with::<A, W>(g.gen, g.negated, p));
    assert(C::zero_of().cos_branch(g.param, pk) == C::zero_of());
    assert(C::zero_of().sin_branch(g.param, pp) == C::zero_of());
    let own = amount(m, k).cos_branch(g.param, pk);
    let far = amount(m, p).sin_branch(g.param, pp);
    assert(own.sum(C::zero_of()) == own);
    assert(far.sum(C::zero_of()) == far);
    assert(C::zero_of().sum(far) == far.sum(C::zero_of()));
    if C::half_turn(g.param, C::tolerance_of()) is Some {
        law_half_turn_scales(g, m, C::half_turn(g.param, C::tolerance_of())->0, k);
    } else {
        law_rotation_acts(g, m, k);
    }
}

/// A rotation without truncation and one that takes it back leave every key the amount it had.
pub proof fn law_rotation_is_taken_back<
    A: Basis<W>,
    C: CoeffRepr,
    K: TruncationKernel<C::Real>,
    const W: usize,
>(g: Gate<A, C, K, W>, back: Gate<A, C, K, W>, m: Map<Seq<bool>, C>, k: Seq<bool>)
    requires
        group::multiplies::<A, W>(),
        g.cutoff.is_lossless(),
        back.cutoff.is_lossless(),
        back.gen == g.gen,
        back.negated == g.negated,
        g.gen.len() == 64 * W,
        k.len() == 64 * W,
        exact::adds_exactly::<C>(),
        exact::turns_linearly::<C>(g.param),
        exact::turns_linearly::<C>(back.param),
        exact::half_turn_exact::<C>(g.param),
        exact::half_turn_exact::<C>(back.param),
        exact::takes_back::<C>(g.param, back.param),
    ensures
        amount(gate::turned(back, gate::turned(g, m)), k) == amount(m, k),
{
    let between = gate::turned(g, m);
    law_rotation_turns_amounts(back, between, k);
    law_rotation_turns_amounts(g, m, k);
    if A::anti(g.gen, k) {
        let p = bits::xor(g.gen, k);
        lemma_partners::<A, W>(g.gen, k);
        group::law_partners_have_opposite_phases::<A, W>(g.gen, g.negated, k);
        law_rotation_turns_amounts(g, m, p);
        exact::lemma_pair_comes_back::<C>(
            g.param,
            back.param,
            amount(m, k),
            amount(m, p),
            phase_with::<A, W>(g.gen, g.negated, k),
            phase_with::<A, W>(g.gen, g.negated, p),
        );
    }
}

/// A rotation by one parameter about a generator is the rotation taken back about the negated
/// generator: the sine branches change sign and nothing else does.
pub proof fn law_negated_generator_turns_back<
    A: Basis<W>,
    C: CoeffRepr,
    K: TruncationKernel<C::Real>,
    const W: usize,
>(g: Gate<A, C, K, W>, k: Seq<bool>)
    requires
        group::multiplies::<A, W>(),
        g.gen.len() == 64 * W,
        k.len() == 64 * W,
        A::anti(g.gen, k),
    ensures
        phase_with::<A, W>(g.gen, g.negated, k) == g.phase(k),
        phase_with::<A, W>(g.gen, !g.negated, k).imaginary() == -g.phase(k).imaginary(),
        g.phase(k).imaginary() != 0,
{
    group::law_partners_have_opposite_phases::<A, W>(g.gen, g.negated, k);
}

/// With a plugin set that does not read keys and no other, a rotation creates no term for which
/// the plugin does not answer keep. A plugin that reads keys decides alone, from the key's words.
pub proof fn law_plugin_bounds_hold<
    A: Basis<W>,
    C: CoeffRepr,
    K: TruncationKernel<C::Real>,
    const W: usize,
>(g: Gate<A, C, K, W>, m: Map<Seq<bool>, C>, k: Seq<bool>)
    requires
        g.gen.len() == 64 * W,
        gate::turned(g, m).contains_key(k),
        !m.contains_key(k),
    ensures
        g.cutoff.term is None ==> (g.cutoff.native matches Some(plugin) ==> plugin.keeps(
            A::kind_of(),
            Seq::<u64>::empty(),
            g.n_units,
            A::weight_of(k, g.n_units),
            gate::turned(g, m)[k].magnitude_of(),
        )),
        g.cutoff.term matches Some(plugin) ==> plugin.keeps(
            A::kind_of(),
            strings::words_spelling(k),
            g.n_units,
            A::weight_of(k, g.n_units),
            gate::turned(g, m)[k].magnitude_of(),
        ),
{
    emit::lemma_xor_back(g.gen, k);
}

/// A plugin that does not read keys decides which branches of a rotation are carried: a branch
/// arrives exactly where the plugin keeps it as a term, or where the key is there and the plugin
/// keeps the branch the key sends the other way.
pub proof fn law_plugin_decides<
    A: Basis<W>,
    C: CoeffRepr,
    K: TruncationKernel<C::Real>,
    const W: usize,
>(g: Gate<A, C, K, W>, plugin: K, m: Map<Seq<bool>, C>, k: Seq<bool>)
    requires
        group::multiplies::<A, W>(),
        C::half_turn(g.param, C::tolerance_of()) is None,
        g.gen.len() == 64 * W,
        k.len() == 64 * W,
        A::anti(g.gen, k),
        g.cutoff.term is None,
        g.cutoff.native == Some(plugin),
    ensures
        gate::get(gate::turned(g, m), k) == ({
            let p = bits::xor(g.gen, k);
            let far = sine_of::<A, C, W>(g.gen, g.negated, g.param, m, p);
            let near = sine_of::<A, C, W>(g.gen, g.negated, g.param, m, k);
            let arrives = m.contains_key(p) && (plugin.keeps(
                A::kind_of(),
                Seq::<u64>::empty(),
                g.n_units,
                A::weight_of(k, g.n_units),
                far.magnitude_of(),
            ) || m.contains_key(k) && plugin.keeps(
                A::kind_of(),
                Seq::<u64>::empty(),
                g.n_units,
                A::weight_of(p, g.n_units),
                near.magnitude_of(),
            ));
            gate::merged(
                own_branch::<A, C, W>(g.gen, g.negated, g.param, m, k),
                if arrives {
                    Some(far)
                } else {
                    None
                },
            )
        }),
{
    lemma_partners::<A, W>(g.gen, k);
}

/// A plugin that reads keys decides which branches of a rotation are carried, whatever else is
/// set.
pub proof fn law_key_plugin_decides<
    A: Basis<W>,
    C: CoeffRepr,
    K: TruncationKernel<C::Real>,
    const W: usize,
>(g: Gate<A, C, K, W>, plugin: K, m: Map<Seq<bool>, C>, k: Seq<bool>)
    requires
        group::multiplies::<A, W>(),
        C::half_turn(g.param, C::tolerance_of()) is None,
        g.gen.len() == 64 * W,
        k.len() == 64 * W,
        A::anti(g.gen, k),
        g.cutoff.term == Some(plugin),
    ensures
        gate::get(gate::turned(g, m), k) == ({
            let p = bits::xor(g.gen, k);
            let far = sine_of::<A, C, W>(g.gen, g.negated, g.param, m, p);
            let near = sine_of::<A, C, W>(g.gen, g.negated, g.param, m, k);
            let arrives = m.contains_key(p) && (plugin.keeps(
                A::kind_of(),
                strings::words_spelling(k),
                g.n_units,
                A::weight_of(k, g.n_units),
                far.magnitude_of(),
            ) || m.contains_key(k) && plugin.keeps(
                A::kind_of(),
                strings::words_spelling(p),
                g.n_units,
                A::weight_of(p, g.n_units),
                near.magnitude_of(),
            ));
            gate::merged(
                own_branch::<A, C, W>(g.gen, g.negated, g.param, m, k),
                if arrives {
                    Some(far)
                } else {
                    None
                },
            )
        }),
{
    lemma_partners::<A, W>(g.gen, k);
}

/// What the representation says of a rotation's sine and cosine holds exactly: the branches are
/// the coefficient scaled by them, the sine branch with its phase, and a sine branch's magnitude
/// is told without forming it.
pub open spec fn factors_exact<C: CoeffRepr>(param: C::GateParam) -> bool {
    C::factors(param) matches Some((sin, cos)) ==> {
        &&& forall|c: C, p: Phase| #[trigger] c.cos_branch(param, p) == c.scaled(cos)
        &&& forall|c: C, p: Phase| #[trigger]
            c.sin_branch(param, p) == c.scaled(sin).scaled(C::unit(-p.imaginary()))
        &&& forall|c: C, p: Phase, bound: C::Real|
            p.imaginary() != 0 ==> #[trigger] C::real_reaches(
                c.sin_branch(param, p).magnitude_of(),
                bound,
            ) == !C::real_below(c.branch_magnitude(sin), bound)
    }
}

/// Without plugins a magnitude bound decides which branches of a rotation are carried between
/// keys within the weight bound: a branch arrives exactly where its magnitude reaches the bound,
/// or where the key is there and its own branch reaches it the other way. That the magnitude is
/// tested before the branch is formed, where it can be, changes nothing.
pub proof fn law_magnitude_decides<
    A: Basis<W>,
    C: CoeffRepr,
    K: TruncationKernel<C::Real>,
    const W: usize,
>(g: Gate<A, C, K, W>, bound: C::Real, m: Map<Seq<bool>, C>, k: Seq<bool>)
    requires
        group::multiplies::<A, W>(),
        factors_exact::<C>(g.param),
        C::half_turn(g.param, C::tolerance_of()) is None,
        g.gen.len() == 64 * W,
        k.len() == 64 * W,
        A::anti(g.gen, k),
        g.cutoff.term is None,
        g.cutoff.native is None,
        g.cutoff.min_coeff == Some(bound),
        g.cutoff.max_weight matches Some(w) ==> A::weight_of(k, g.n_units) <= w && A::weight_of(
            bits::xor(g.gen, k),
            g.n_units,
        ) <= w,
    ensures
        gate::get(gate::turned(g, m), k) == ({
            let p = bits::xor(g.gen, k);
            let far = sine_of::<A, C, W>(g.gen, g.negated, g.param, m, p);
            let near = sine_of::<A, C, W>(g.gen, g.negated, g.param, m, k);
            let arrives = m.contains_key(p) && (C::real_reaches(far.magnitude_of(), bound)
                || m.contains_key(k) && C::real_reaches(near.magnitude_of(), bound));
            gate::merged(
                own_branch::<A, C, W>(g.gen, g.negated, g.param, m, k),
                if arrives {
                    Some(far)
                } else {
                    None
                },
            )
        }),
{
    let p = bits::xor(g.gen, k);
    lemma_partners::<A, W>(g.gen, k);
    group::law_partners_have_opposite_phases::<A, W>(g.gen, g.negated, k);
    let (pk, pp) = (phase_with::<A, W>(g.gen, g.negated, k), phase_with::<A, W>(g.gen, g.negated, p));
    assert(pk == g.phase(k) && pp == g.phase(p));
    let far = m[p].sin_branch(g.param, pp);
    let near = m[k].sin_branch(g.param, pk);
    assert(C::real_reaches(far.magnitude_of(), bound) == C::real_reaches(
        m[p].sin_branch(g.param, pp).magnitude_of(),
        bound,
    ));
    assert(C::real_reaches(near.magnitude_of(), bound) == C::real_reaches(
        m[k].sin_branch(g.param, pk).magnitude_of(),
        bound,
    ));
    assert(m[k].cos_branch(g.param, pk) == m[k].cos_branch(g.param, pk));
}

/// Without plugins and without a magnitude bound a branch is carried exactly onto a key within
/// the weight bound.
pub proof fn law_weight_decides<
    A: Basis<W>,
    C: CoeffRepr,
    K: TruncationKernel<C::Real>,
    const W: usize,
>(g: Gate<A, C, K, W>, m: Map<Seq<bool>, C>, k: Seq<bool>)
    requires
        group::multiplies::<A, W>(),
        C::half_turn(g.param, C::tolerance_of()) is None,
        g.gen.len() == 64 * W,
        k.len() == 64 * W,
        A::anti(g.gen, k),
        g.cutoff.term is None,
        g.cutoff.native is None,
        g.cutoff.min_coeff is None,
    ensures
        gate::get(gate::turned(g, m), k) == ({
            let p = bits::xor(g.gen, k);
            let arrives = m.contains_key(p) && (g.cutoff.max_weight matches Some(w)
                ==> A::weight_of(k, g.n_units) <= w);
            gate::merged(
                own_branch::<A, C, W>(g.gen, g.negated, g.param, m, k),
                if arrives {
                    Some(sine_of::<A, C, W>(g.gen, g.negated, g.param, m, p))
                } else {
                    None
                },
            )
        }),
{
    lemma_partners::<A, W>(g.gen, k);
}

/// A reclaim leaves exactly the terms its cutoff asks for, unchanged. A plugin alone decides
/// where one is set, from the key's words if it reads keys. Otherwise a term stays exactly where
/// its weight is within the weight bound and its magnitude reaches the magnitude bound, as far
/// as they are set.
pub proof fn law_reclaim_keeps<
    A: Basis<W>,
    C: CoeffRepr,
    P: Pos,
    K: TruncationKernel<C::Real>,
    const W: usize,
>(
    before: PartitionedTermSum<C, P, W>,
    after: PartitionedTermSum<C, P, W>,
    cutoff: EmitCutoff<C::Real, K>,
    k: Seq<bool>,
)
    requires
        gate::get(after.terms(), k) == partitioned_termsum::reclaimed::<A, C, P, K, W>(
            before,
            cutoff,
            k,
        ),
    ensures
        gate::get(after.terms(), k) == ({
            let weight = A::weight_of(k, before.units());
            let magnitude = before.terms()[k].magnitude_of();
            let stays = before.terms().contains_key(k) && (if cutoff.term is Some {
                cutoff.term->0.keeps(
                    A::kind_of(),
                    strings::words_spelling(k),
                    before.units(),
                    weight,
                    magnitude,
                )
            } else if cutoff.native is Some {
                cutoff.native->0.keeps(
                    A::kind_of(),
                    Seq::<u64>::empty(),
                    before.units(),
                    weight,
                    magnitude,
                )
            } else {
                (cutoff.max_weight is None || weight <= cutoff.max_weight->0) && (
                cutoff.min_coeff is None || C::real_reaches(magnitude, cutoff.min_coeff->0))
            });
            if stays {
                Some(before.terms()[k])
            } else {
                None
            }
        }),
{
}

/// Below the floor of live terms nothing is truncated; at the floor and above, the cutoff is
/// in force as it is.
pub proof fn law_floor_lifts_truncation<R, K>(cutoff: EmitCutoff<R, K>, n_live: nat)
    ensures
        ({
            let c = partitioned_termsum::effective(cutoff, n_live);
            if cutoff.min_terms is Some && n_live < cutoff.min_terms->0 {
                c.max_weight is None && c.min_coeff is None && c.native is None && c.term is None
                    && c.min_terms == cutoff.min_terms
            } else {
                c == cutoff
            }
        }),
{
}

/// The magnitude of a branch is tested before the branch is formed exactly where no plugin is
/// set, a magnitude bound is, and the rotation's sine and cosine are known.
pub proof fn law_when_magnitudes_are_foretold<R, K>(
    factors: Option<(R, R)>,
    cutoff: EmitCutoff<R, K>,
)
    ensures
        emit::precheck_of(factors, cutoff) is Some <==> cutoff.native is None && cutoff.term is None
            && cutoff.min_coeff is Some && factors is Some,
        emit::precheck_of(factors, cutoff) matches Some(pre) ==> pre.sin == (factors->0).0 && pre.cos
            == (factors->0).1 && pre.min_coeff == cutoff.min_coeff->0,
{
}

/// A branch whose magnitude is foretold to be below the bound is not formed: its source is scaled
/// by the cosine, and the key it would go to is not created.
pub proof fn law_foretold_branches_are_not_formed<
    A: Basis<W>,
    C: CoeffRepr,
    K: TruncationKernel<C::Real>,
    const W: usize,
>(
    g: Gate<A, C, K, W>,
    bound: C::Real,
    sin: C::Real,
    cos: C::Real,
    m: Map<Seq<bool>, C>,
    k: Seq<bool>,
)
    requires
        group::multiplies::<A, W>(),
        C::half_turn(g.param, C::tolerance_of()) is None,
        C::factors(g.param) == Some((sin, cos)),
        g.gen.len() == 64 * W,
        k.len() == 64 * W,
        A::anti(g.gen, k),
        g.cutoff.term is None,
        g.cutoff.native is None,
        g.cutoff.min_coeff == Some(bound),
        m.contains_key(k),
        !m.contains_key(bits::xor(g.gen, k)),
        C::real_below(m[k].branch_magnitude(sin), bound),
    ensures
        gate::get(gate::turned(g, m), k) == Some(m[k].scaled(cos)),
        !gate::turned(g, m).contains_key(bits::xor(g.gen, k)),
{
    lemma_partners::<A, W>(g.gen, k);
}

} // verus!
