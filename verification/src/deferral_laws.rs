//! Deferring Clifford gates is invisible: read through the deferred gates, a sum rotates as if
//! none had been deferred.

use crate::basis;
use crate::basis::{Basis, Phase};
use crate::bits;
use crate::coeff::CoeffRepr;
use crate::conjugation;
use crate::emit;
use crate::emit::EmitCutoff;
use crate::exact;
use crate::gate;
use crate::group;
use crate::map_laws;
use crate::operator_index::{Pos, TermIndexCeilingReached};
use crate::partitioned_termsum;
use crate::partitioned_termsum::PartitionedTermSum;
use crate::tableau::CliffordTableau;
use crate::term_kernel::TruncationKernel;
use crate::weights;
use vstd::prelude::*;

verus! {

/// A sign.
pub open spec fn is_sign(s: int) -> bool {
    s == 1 || s == -1
}

/// Signs go through sums and branches exactly: a branch of a signed coefficient is the signed
/// branch, and a sine branch changes sign with its phase.
#[verifier::opaque]
pub open spec fn signs_exactly<C: CoeffRepr>(param: C::GateParam) -> bool {
    &&& forall|c: C| #[trigger] c.scaled(C::unit(1)) == c
    &&& forall|c: C, s: int, t: int|
        is_sign(s) && is_sign(t) ==> #[trigger] c.scaled(C::unit(s)).scaled(C::unit(t)) == c.scaled(
            C::unit(s * t),
        )
    &&& forall|a: C, b: C, s: int|
        is_sign(s) ==> #[trigger] a.sum(b).scaled(C::unit(s)) == a.scaled(C::unit(s)).sum(
            b.scaled(C::unit(s)),
        )
    &&& forall|s: int| is_sign(s) ==> #[trigger] C::zero_of().scaled(C::unit(s)) == C::zero_of()
    &&& forall|c: C, s: int, p: Phase, q: Phase|
        #![trigger c.scaled(C::unit(s)).cos_branch(param, p), c.cos_branch(param, q)]
        is_sign(s) ==> c.scaled(C::unit(s)).cos_branch(param, p) == c.cos_branch(param, q).scaled(
            C::unit(s),
        )
    &&& forall|c: C, s: int, t: int, p: Phase, q: Phase|
        #![trigger c.scaled(C::unit(s)).sin_branch(param, p), c.sin_branch(param, q), is_sign(t)]
        is_sign(s) && is_sign(t) && q.imaginary() != 0 && p.imaginary() == t * q.imaginary()
            ==> c.scaled(C::unit(s)).sin_branch(param, p) == c.sin_branch(param, q).scaled(
            C::unit(s * t),
        )
}

/// What a sum holds of a string once the deferred gates are applied.
pub open spec fn read_out<A: Basis<W>, C: CoeffRepr, P: Pos, const W: usize>(
    sum: PartitionedTermSum<C, P, W>,
    x: Seq<bool>,
) -> C {
    let (k, s) = sum.frame().pushed::<A>(x);
    map_laws::amount(sum.terms(), k).scaled(C::unit(s))
}

/// Products of signs.
proof fn lemma_signs(s: int, t: int)
    requires
        is_sign(s),
        is_sign(t),
    ensures
        is_sign(s * t),
        s * s == 1,
        s * (s * t) == t,
        s * t == t * s,
        s * t == 1 ==> s == t,
{
    assert(s * t == 1 || s * t == -1) by (nonlinear_arith)
        requires
            s == 1 || s == -1,
            t == 1 || t == -1,
    ;
    assert(s * s == 1 && s * (s * t) == t && s * t == t * s) by (nonlinear_arith)
        requires
            s == 1 || s == -1,
            t == 1 || t == -1,
    ;
    assert(s * t == 1 ==> s == t) by (nonlinear_arith)
        requires
            s == 1 || s == -1,
            t == 1 || t == -1,
    ;
}

/// A string pushed through a sound frame: the string and sign, and that reading out takes both
/// back.
proof fn lemma_pushed<A: Basis<W>, const W: usize>(frame: CliffordTableau<W>, x: Seq<bool>)
    requires
        group::multiplies::<A, W>(),
        frame.sound::<A>(),
        x.len() == 64 * W,
        conjugation::within(x, frame.readout_rows().len() as int),
    ensures
        ({
            let (k, s) = frame.pushed::<A>(x);
            &&& k.len() == 64 * W
            &&& conjugation::within(k, frame.readout_rows().len() as int)
            &&& is_sign(s)
            &&& frame.read::<A>(k) == (x, s)
        }),
{
    let (k, s) = frame.pushed::<A>(x);
    conjugation::lemma_image_signed::<A, W>(frame.generator_rows(), x);
    frame.law_directions_are_inverse::<A>(x);
    let t = frame.read::<A>(k).1;
    lemma_signs(t, s);
}

/// The string that a frame reads out as `x` is what `x` is pushed to.
proof fn lemma_read_back<A: Basis<W>, const W: usize>(frame: CliffordTableau<W>, k: Seq<bool>)
    requires
        group::multiplies::<A, W>(),
        frame.sound::<A>(),
        k.len() == 64 * W,
        conjugation::within(k, frame.readout_rows().len() as int),
    ensures
        is_sign(frame.read::<A>(k).1),
        frame.pushed::<A>(frame.read::<A>(k).0) == (k, frame.read::<A>(k).1),
{
    conjugation::lemma_image_signed::<A, W>(frame.readout_rows(), k);
    frame.law_directions_are_inverse::<A>(k);
    let (x, s) = frame.read::<A>(k);
    conjugation::lemma_image_signed::<A, W>(frame.generator_rows(), x);
    let t = frame.pushed::<A>(x).1;
    lemma_signs(t, s);
}

/// A rotation carried out about the pushed generator, read out.
proof fn lemma_carried_out<
    A: Basis<W>,
    C: CoeffRepr,
    P: Pos,
    K: TruncationKernel<C::Real>,
    const W: usize,
>(
    before: PartitionedTermSum<C, P, W>,
    after: PartitionedTermSum<C, P, W>,
    gen: Seq<bool>,
    param: C::GateParam,
    limits: EmitCutoff<C::Real, K>,
    x: Seq<bool>,
)
    requires
        group::multiplies::<A, W>(),
        before.frame().sound::<A>(),
        gen.len() == 64 * W,
        x.len() == 64 * W,
        conjugation::within(gen, before.frame().readout_rows().len() as int),
        conjugation::within(x, before.frame().readout_rows().len() as int),
        limits.is_lossless(),
        exact::adds_exactly::<C>(),
        exact::turns_linearly::<C>(param),
        exact::half_turn_exact::<C>(param),
        signs_exactly::<C>(param),
        after.frame() == before.frame(),
        after.terms() == gate::turned(
            emit::gate_for::<A, C, K, W>(
                before.frame().pushed::<A>(gen).0,
                before.frame().pushed::<A>(gen).1 == -1,
                param,
                limits,
                before.units(),
            ),
            before.terms(),
        ),
    ensures
        read_out::<A, C, P, W>(after, x) == (if A::anti(gen, x) {
            let p = bits::xor(gen, x);
            read_out::<A, C, P, W>(before, x).cos_branch(
                param,
                basis::phase_from(A::product_quarters(gen, x)),
            ).sum(
                read_out::<A, C, P, W>(before, p).sin_branch(
                    param,
                    basis::phase_from(A::product_quarters(gen, p)),
                ),
            )
        } else {
            read_out::<A, C, P, W>(before, x)
        }),
{
    let frame = before.frame();
    let (pg, sg) = frame.pushed::<A>(gen);
    let (k, s) = frame.pushed::<A>(x);
    let neg = sg == -1;
    lemma_pushed::<A, W>(frame, gen);
    lemma_pushed::<A, W>(frame, x);
    let g = emit::gate_for::<A, C, K, W>(pg, neg, param, limits, before.units());
    map_laws::law_rotation_turns_amounts(g, before.terms(), k);
    frame.law_branches_agree::<A>(gen, k);
    if A::anti(gen, x) {
        let p = bits::xor(gen, x);
        let child = bits::xor(pg, k);
        assert(A::anti(pg, k));
        assert(child.len() == 64 * W);
        assert(conjugation::within(child, frame.readout_rows().len() as int));
        lemma_read_back::<A, W>(frame, child);
        let sp = frame.read::<A>(child).1;
        assert(frame.pushed::<A>(p) == (child, sp));
        group::law_partners_have_opposite_phases::<A, W>(pg, neg, k);
        group::law_partners_have_opposite_phases::<A, W>(gen, false, x);
        let ik = map_laws::phase_with::<A, W>(pg, neg, k).imaginary();
        let ic = map_laws::phase_with::<A, W>(pg, neg, child).imaginary();
        let ix = basis::phase_from(A::product_quarters(gen, x)).imaginary();
        let ip = basis::phase_from(A::product_quarters(gen, p)).imaginary();
        assert(basis::product_phase::<A, W>(pg, neg, k) == map_laws::phase_with::<A, W>(
            pg,
            neg,
            k,
        ));
        assert(basis::product_phase::<A, W>(pg, neg, child) == map_laws::phase_with::<A, W>(
            pg,
            neg,
            child,
        ));
        assert(ik * sp == ix * s);
        assert(ic == -ik && ip == -ix);
        lemma_signs(sp, s);
        let t = sp * s;
        assert(ip == t * ic) by (nonlinear_arith)
            requires
                ik * sp == ix * s,
                ic == -ik,
                ip == -ix,
                t == sp * s,
                s == 1 || s == -1,
                sp == 1 || sp == -1,
        ;
        assert(sp * t == s) by (nonlinear_arith)
            requires
                t == sp * s,
                sp == 1 || sp == -1,
        ;
        let (c, d) = (map_laws::amount(before.terms(), k), map_laws::amount(before.terms(), child));
        let (phk, phc) = (
            map_laws::phase_with::<A, W>(pg, neg, k),
            map_laws::phase_with::<A, W>(pg, neg, child),
        );
        let (phx, php) = (
            basis::phase_from(A::product_quarters(gen, x)),
            basis::phase_from(A::product_quarters(gen, p)),
        );
        lemma_signed_branches::<C>(param, c, s, phx, phk, d, sp, t, php, phc);
    }
}

/// The branches of signed coefficients, added.
proof fn lemma_signed_branches<C: CoeffRepr>(
    param: C::GateParam,
    c: C,
    s: int,
    p: Phase,
    q: Phase,
    d: C,
    sd: int,
    t: int,
    pd: Phase,
    qd: Phase,
)
    requires
        signs_exactly::<C>(param),
        is_sign(s),
        is_sign(sd),
        is_sign(t),
        sd * t == s,
        qd.imaginary() != 0,
        pd.imaginary() == t * qd.imaginary(),
    ensures
        c.cos_branch(param, q).sum(d.sin_branch(param, qd)).scaled(C::unit(s)) == c.scaled(
            C::unit(s),
        ).cos_branch(param, p).sum(d.scaled(C::unit(sd)).sin_branch(param, pd)),
{
    reveal(signs_exactly);
    let (a, b) = (c.cos_branch(param, q), d.sin_branch(param, qd));
    assert(a.sum(b).scaled(C::unit(s)) == a.scaled(C::unit(s)).sum(b.scaled(C::unit(s))));
    assert(c.scaled(C::unit(s)).cos_branch(param, p) == a.scaled(C::unit(s)));
    assert(d.scaled(C::unit(sd)).sin_branch(param, pd) == b.scaled(C::unit(sd * t)));
}

/// A quarter turn that joins the frame, read out.
proof fn lemma_deferred<A: Basis<W>, C: CoeffRepr, P: Pos, const W: usize>(
    before: PartitionedTermSum<C, P, W>,
    after: PartitionedTermSum<C, P, W>,
    gen: Seq<bool>,
    param: C::GateParam,
    turn: int,
    x: Seq<bool>,
)
    requires
        group::multiplies::<A, W>(),
        before.frame().sound::<A>(),
        gen.len() == 64 * W,
        x.len() == 64 * W,
        conjugation::within(gen, before.frame().readout_rows().len() as int),
        conjugation::within(x, before.frame().readout_rows().len() as int),
        exact::adds_exactly::<C>(),
        exact::quarter_turn_exact::<C>(param),
        C::turn_sign(param) == Some(turn),
        is_sign(turn),
        signs_exactly::<C>(param),
        after.terms() == before.terms(),
        ({
            let n = before.frame().readout_rows().len();
            let step = conjugation::turn_rows::<A, W>(gen, turn, n);
            let back = conjugation::turn_rows::<A, W>(gen, -turn, n);
            after.frame().generator_rows() == (if step == conjugation::unit_rows::<W>(n) {
                before.frame().generator_rows()
            } else {
                conjugation::composed::<A, W>(back, before.frame().generator_rows())
            })
        }),
    ensures
        read_out::<A, C, P, W>(after, x) == (if A::anti(gen, x) {
            let p = bits::xor(gen, x);
            read_out::<A, C, P, W>(before, x).cos_branch(
                param,
                basis::phase_from(A::product_quarters(gen, x)),
            ).sum(
                read_out::<A, C, P, W>(before, p).sin_branch(
                    param,
                    basis::phase_from(A::product_quarters(gen, p)),
                ),
            )
        } else {
            read_out::<A, C, P, W>(before, x)
        }),
{
    let frame = before.frame();
    let n = frame.readout_rows().len();
    let step = conjugation::turn_rows::<A, W>(gen, turn, n);
    let back = conjugation::turn_rows::<A, W>(gen, -turn, n);
    let anti = A::anti(gen, x);
    let p = bits::xor(gen, x);
    conjugation::lemma_turn_carries::<A, W>(gen, turn, n, x);
    conjugation::lemma_turn_carries::<A, W>(gen, -turn, n, x);
    if step == conjugation::unit_rows::<W>(n) {
        conjugation::lemma_units_carry::<A, W>(n, x);
        if anti {
            assert(p == x);
            group::lemma_xor(gen, x, x, 64 * W as nat);
            group::lemma_xor(x, x, gen, 64 * W as nat);
            assert(gen =~= bits::none(64 * W as nat)) by {
                assert forall|i: int| 0 <= i < gen.len() implies !#[trigger] gen[i] by {
                    assert(p[i] == (gen[i] != x[i]));
                }
            }
            group::lemma_anti_never::<A, W>(x);
        }
    } else {
        conjugation::lemma_turn_valid::<A, W>(gen, -turn, n);
        conjugation::lemma_composed::<A, W>(back, frame.generator_rows(), x);
        if anti {
            let ix = basis::phase_from(A::product_quarters(gen, x)).imaginary();
            let php = basis::phase_from(A::product_quarters(gen, p));
            group::law_partners_have_opposite_phases::<A, W>(gen, false, x);
            assert(php.imaginary() == -ix);
            assert(conjugation::within(p, n as int));
            lemma_pushed::<A, W>(frame, p);
            let (k, sp) = frame.pushed::<A>(p);
            let sigma = -turn * -ix;
            assert(sigma == turn * -php.imaginary()) by (nonlinear_arith)
                requires
                    sigma == -turn * -ix,
                    php.imaginary() == -ix,
            ;
            assert(is_sign(ix));
            lemma_signs(-turn, -ix);
            assert(after.frame().pushed::<A>(x) == (k, sp * sigma));
            let d = map_laws::amount(before.terms(), k);
            let e = d.scaled(C::unit(sp));
            assert(e.sin_branch(param, php) == e.scaled(C::unit(turn * -php.imaginary())));
            let own = read_out::<A, C, P, W>(before, x).cos_branch(
                param,
                basis::phase_from(A::product_quarters(gen, x)),
            );
            assert(own == C::zero_of());
            assert(d.scaled(C::unit(sp)).scaled(C::unit(sigma)) == d.scaled(C::unit(sp * sigma))) by {
                reveal(signs_exactly);
            }
            assert(C::zero_of().sum(e.scaled(C::unit(sigma))) == e.scaled(C::unit(sigma))) by {
                reveal(exact::adds_exactly);
                assert(e.scaled(C::unit(sigma)).sum(C::zero_of()) == e.scaled(C::unit(sigma)));
                assert(C::zero_of().sum(e.scaled(C::unit(sigma))) == e.scaled(C::unit(sigma)).sum(
                    C::zero_of(),
                ));
            }
        } else {
            assert(conjugation::carried::<A, W>(back, x) == (x, 1int));
            let (k, s) = frame.pushed::<A>(x);
            assert(after.frame().pushed::<A>(x) == (k, s * 1));
            assert(s * 1 == s);
        }
    }
}

/// However a sum in partitions carries a rotation out, at once or by joining it to the deferred
/// gates, it rotates: read through the deferred gates, a string that commutes with the generator
/// keeps its amount, and one that anticommutes gets the cosine branch of its own amount and the
/// sine branch of its partner's.
pub proof fn law_deferral_is_invisible<
    A: Basis<W>,
    C: CoeffRepr,
    P: Pos,
    K: TruncationKernel<C::Real>,
    const W: usize,
>(
    before: PartitionedTermSum<C, P, W>,
    after: PartitionedTermSum<C, P, W>,
    gen: Seq<bool>,
    param: C::GateParam,
    cutoff: EmitCutoff<C::Real, K>,
    added: usize,
    x: Seq<bool>,
)
    requires
        group::multiplies::<A, W>(),
        before.wf(),
        before.frame().sound::<A>(),
        gen.len() == 64 * W,
        x.len() == 64 * W,
        conjugation::within(gen, 2 * before.units() as int),
        conjugation::within(x, 2 * before.units() as int),
        cutoff.is_lossless(),
        exact::adds_exactly::<C>(),
        exact::turns_linearly::<C>(param),
        exact::half_turn_exact::<C>(param),
        signs_exactly::<C>(param),
        before.defers() && C::quarter_turn(param, C::tolerance_of())
            ==> exact::quarter_turn_exact::<C>(param) && (C::turn_sign(param) matches Some(t)
            && is_sign(t)),
        partitioned_termsum::turned_into::<A, C, P, K, W>(
            before,
            after,
            gen,
            param,
            cutoff,
            Ok(added),
        ),
    ensures
        read_out::<A, C, P, W>(after, x) == (if A::anti(gen, x) {
            let p = bits::xor(gen, x);
            read_out::<A, C, P, W>(before, x).cos_branch(
                param,
                basis::phase_from(A::product_quarters(gen, x)),
            ).sum(
                read_out::<A, C, P, W>(before, p).sin_branch(
                    param,
                    basis::phase_from(A::product_quarters(gen, p)),
                ),
            )
        } else {
            read_out::<A, C, P, W>(before, x)
        }),
{
    before.lemma_wf();
    let frame = before.frame();
    let limits = partitioned_termsum::effective(cutoff, before.rows());
    let n = 2 * before.units();
    if before.rows() == 0 {
        lemma_nothing::<A, C, P, W>(before, gen, param, x);
    } else if before.defers() && partitioned_termsum::deferrable::<A, C, K, W>(
        gen,
        param,
        limits,
        before.units(),
    ) {
        let turn = C::turn_sign(param)->0;
        lemma_deferred::<A, C, P, W>(before, after, gen, param, turn, x);
    } else {
        if frame.is_trivial() {
            conjugation::lemma_units_carry::<A, W>(n, gen);
            lemma_read_back::<A, W>(frame, gen);
        }
        lemma_carried_out::<A, C, P, K, W>(before, after, gen, param, limits, x);
    }
}

/// A sum without terms holds nothing, and nothing turns to nothing.
proof fn lemma_nothing<A: Basis<W>, C: CoeffRepr, P: Pos, const W: usize>(
    sum: PartitionedTermSum<C, P, W>,
    gen: Seq<bool>,
    param: C::GateParam,
    x: Seq<bool>,
)
    requires
        group::multiplies::<A, W>(),
        sum.wf(),
        sum.rows() == 0,
        sum.frame().sound::<A>(),
        gen.len() == 64 * W,
        x.len() == 64 * W,
        conjugation::within(gen, 2 * sum.units() as int),
        conjugation::within(x, 2 * sum.units() as int),
        exact::adds_exactly::<C>(),
        exact::turns_linearly::<C>(param),
        signs_exactly::<C>(param),
    ensures
        read_out::<A, C, P, W>(sum, x) == C::zero_of(),
        read_out::<A, C, P, W>(sum, x) == read_out::<A, C, P, W>(sum, x).cos_branch(
            param,
            basis::phase_from(A::product_quarters(gen, x)),
        ).sum(
            read_out::<A, C, P, W>(sum, bits::xor(gen, x)).sin_branch(
                param,
                basis::phase_from(A::product_quarters(gen, bits::xor(gen, x))),
            ),
        ),
{
    sum.lemma_wf();
    sum.law_rows_are_terms();
    assert(sum.terms().dom() =~= Set::<Seq<bool>>::empty());
    let p = bits::xor(gen, x);
    lemma_pushed::<A, W>(sum.frame(), x);
    lemma_pushed::<A, W>(sum.frame(), p);
    let (k, s) = sum.frame().pushed::<A>(x);
    let (kp, sp) = sum.frame().pushed::<A>(p);
    assert(!sum.terms().contains_key(k) && !sum.terms().contains_key(kp));
    assert(C::zero_of().scaled(C::unit(s)) == C::zero_of() && C::zero_of().scaled(C::unit(sp))
        == C::zero_of()) by {
        reveal(signs_exactly);
    }
    reveal(exact::turns_linearly);
    let phx = basis::phase_from(A::product_quarters(gen, x));
    let php = basis::phase_from(A::product_quarters(gen, p));
    assert(C::zero_of().cos_branch(param, phx) == C::zero_of());
    assert(C::zero_of().sin_branch(param, php) == C::zero_of());
    assert(C::zero_of().sum(C::zero_of()) == C::zero_of()) by {
        reveal(exact::adds_exactly);
    }
}

/// A rotation joins the deferred gates only where deferring is on, it is a quarter turn, and no
/// weight bound is in force that it would move a string across; every other rotation leaves the
/// deferred gates alone.
pub proof fn law_what_is_deferred<
    A: Basis<W>,
    C: CoeffRepr,
    P: Pos,
    K: TruncationKernel<C::Real>,
    const W: usize,
>(
    before: PartitionedTermSum<C, P, W>,
    after: PartitionedTermSum<C, P, W>,
    gen: Seq<bool>,
    param: C::GateParam,
    cutoff: EmitCutoff<C::Real, K>,
    r: Result<usize, TermIndexCeilingReached>,
    m: Seq<bool>,
)
    requires
        group::multiplies::<A, W>(),
        gen.len() == 64 * W,
        m.len() == 64 * W,
        2 * before.units() <= 64 * W,
        conjugation::within(gen, 2 * before.units() as int),
        conjugation::within(m, 2 * before.units() as int),
        C::turn_sign(param) matches Some(t) ==> is_sign(t),
        partitioned_termsum::turned_into::<A, C, P, K, W>(before, after, gen, param, cutoff, r),
        !before.defers() || !C::quarter_turn(param, C::tolerance_of()) || {
            &&& cutoff.max_weight is Some
            &&& !(cutoff.min_terms is Some && before.rows() < cutoff.min_terms->0)
            &&& A::anti(gen, m)
            &&& bits::ones(bits::pair_any(bits::xor(gen, m))) != bits::ones(bits::pair_any(m))
        },
    ensures
        after.frame() == before.frame(),
{
    let limits = partitioned_termsum::effective(cutoff, before.rows());
    if before.defers() && C::quarter_turn(param, C::tolerance_of()) {
        let turn = CliffordTableau::<W>::turn_of::<C>(param);
        let n = 2 * before.units();
        let rows = conjugation::turn_rows::<A, W>(gen, turn, n);
        conjugation::lemma_turn_carries::<A, W>(gen, turn, n, m);
        conjugation::lemma_turn_valid::<A, W>(gen, turn, n);
        assert(conjugation::carried::<A, W>(rows, m).0 == bits::xor(gen, m));
        weights::lemma_key_image::<A, W>(rows, m);
        assert(weights::shifts::<W>(rows, m));
        assert(weights::moves_weight::<W>(rows));
    }
}

} // verus!
