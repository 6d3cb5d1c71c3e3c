//! Fusing Clifford rotations into tables changes nothing: a table does to every term what the
//! rotations it stands for do to it, one after another.

use crate::basis::Phase;
use crate::bits;
use crate::clifford_ops;
use crate::clifford_ops::CliffordOp;
use crate::coeff::CoeffRepr;
use crate::kernels;
use crate::kernels::Turn;
use crate::soa_propagator;
use crate::soa_propagator::{GateAction, Rotation};
use crate::sparse;
use crate::store;
use crate::store::{SoaBasis, SoaTermSum};
use vstd::prelude::*;

verus! {

/// Scaling twice is scaling by the product, and one changes nothing.
#[verifier::opaque]
pub open spec fn scales_exactly<C: CoeffRepr>() -> bool {
    &&& forall|c: C, a: C::Real, b: C::Real| #[trigger]
        c.scaled(a).scaled(b) == c.scaled(C::real_times(a, b))
    &&& forall|c: C| #[trigger] c.scaled(C::unit(1)) == c
}

/// What the representation says of a Clifford rotation holds exactly: a quarter turn is no half
/// turn, and its sine branch is its sign and the phase; a half turn whose cosine is one changes
/// nothing.
pub open spec fn clifford_exact<C: CoeffRepr>(param: C::GateParam) -> bool {
    &&& C::quarter_turn(param, C::tolerance_of()) ==> {
        &&& C::half_turn(param, C::tolerance_of()) is None
        &&& C::turn_sign(param) matches Some(s) ==> forall|c: C, p: Phase| #[trigger]
            c.sin_branch(param, p) == c.scaled(C::unit(s * -p.imaginary()))
    }
    &&& C::half_turn(param, C::tolerance_of()) matches Some(f) ==> C::is_one(f) ==> forall|c: C|
        #[trigger] c.scaled(f) == c
}

/// Rotation `r` is a Clifford rotation on the masked bits of one word of a sum's planes.
pub open spec fn fits<B: SoaBasis, C: CoeffRepr>(
    r: Rotation<C::GateParam>,
    span: nat,
    word: int,
    mask: u64,
) -> bool {
    &&& 64 * r.x@.len() == span
    &&& 64 * r.z@.len() == span
    &&& C::quarter_turn(r.param, C::tolerance_of()) || C::half_turn(
        r.param,
        C::tolerance_of(),
    ) is Some
    &&& B::local_of(sparse::key_of(r.x@, r.z@, span)) == Some(word)
    &&& store::picked((r.x@[word], r.z@[word]), mask) == (r.x@[word], r.z@[word])
}

/// A run of sums, each the one before with the next rotation applied by itself.
pub open spec fn one_by_one<B: SoaBasis, C: CoeffRepr>(
    applied: Seq<Rotation<C::GateParam>>,
    i: int,
    j: int,
    sums: Seq<SoaTermSum<C>>,
    added: Seq<nat>,
) -> bool {
    &&& sums.len() == j - i + 1
    &&& forall|k: int|
        0 <= k < j - i ==> #[trigger] soa_propagator::acted::<B, C>(
            GateAction::Normal,
            applied[i + k],
            sums[k],
            sums[k + 1],
            added[k],
        )
    &&& forall|k: int| 0 <= k <= j - i ==> (#[trigger] sums[k]).same_setup(sums[0])
}

/// The generator's word pair stands in its key.
proof fn lemma_word_held(x: Seq<u64>, z: Seq<u64>, span: nat, word: int)
    requires
        64 * x.len() == span,
        64 * z.len() == span,
        0 <= word,
        64 * word + 64 <= span,
    ensures
        store::held_at(sparse::key_of(x, z, span), span as int, word, (x[word], z[word])),
{
    let g = sparse::key_of(x, z, span);
    assert forall|b: int| 0 <= b < 64 implies #[trigger] bits::bit(x[word], b) == g[64 * word + b]
        && bits::bit(z[word], b) == g[span + 64 * word + b] by {
        assert((64 * word + b) / 64 == word && (64 * word + b) % 64 == b);
        assert(g[64 * word + b] == bits::bit_at(x, 64 * word + b));
        assert(g[span + 64 * word + b] == bits::bit_at(z, 64 * word + b));
    }
}

/// A word that was put into a key stands there, and another can be put in its place.
proof fn lemma_spliced(key: Seq<bool>, span: int, word: int, w: (u64, u64), v: (u64, u64))
    requires
        key.len() == 2 * span,
        0 <= word,
        64 * word + 64 <= span,
    ensures
        store::held_at(sparse::spliced(key, span, word, [w.0, w.1]), span, word, w),
        sparse::spliced(sparse::spliced(key, span, word, [w.0, w.1]), span, word, [v.0, v.1])
            == sparse::spliced(key, span, word, [v.0, v.1]),
        store::held_at(key, span, word, w) ==> sparse::spliced(key, span, word, [w.0, w.1]) == key,
{
    let once = sparse::spliced(key, span, word, [w.0, w.1]);
    assert forall|b: int| 0 <= b < 64 implies #[trigger] bits::bit(w.0, b) == once[64 * word + b]
        && bits::bit(w.1, b) == once[span + 64 * word + b] by {}
    assert(sparse::spliced(once, span, word, [v.0, v.1]) =~= sparse::spliced(
        key,
        span,
        word,
        [v.0, v.1],
    ));
    if store::held_at(key, span, word, w) {
        assert forall|p: int| 0 <= p < key.len() implies #[trigger] once[p] == key[p] by {
            if 64 * word <= p < 64 * word + 64 {
                assert(bits::bit(w.0, p - 64 * word) == key[64 * word + (p - 64 * word)]);
            } else if span + 64 * word <= p < span + 64 * word + 64 {
                let b = p - span - 64 * word;
                assert(bits::bit(w.0, b) == key[64 * word + b]);
                assert(bits::bit(w.1, b) == key[span + 64 * word + b]);
            }
        }
        assert(once =~= key);
    }
}

/// Scaling twice, and by one.
proof fn lemma_scale<C: CoeffRepr>(c: C, a: C::Real, b: C::Real)
    requires
        scales_exactly::<C>(),
    ensures
        c.scaled(a).scaled(b) == c.scaled(C::real_times(a, b)),
        c.scaled(C::unit(1)) == c,
{
    reveal(scales_exactly);
}

/// What one Clifford rotation does to a row, read off the row's word.
proof fn lemma_row_turns<B: SoaBasis, C: CoeffRepr>(
    rot: Rotation<C::GateParam>,
    before: SoaTermSum<C>,
    after: SoaTermSum<C>,
    added: nat,
    word: int,
    mask: u64,
    r: int,
    v: (u64, u64),
)
    requires
        before.span() % 64 == 0,
        0 <= r < before.row_lists().len(),
        0 <= word,
        64 * word + 64 <= before.span(),
        store::held_at(before.key(r), before.span() as int, word, v),
        scales_exactly::<C>(),
        fits::<B, C>(rot, before.span(), word, mask),
        clifford_exact::<C>(rot.param),
        soa_propagator::acted::<B, C>(GateAction::Normal, rot, before, after, added),
        clifford_ops::turned::<B, C>(
            v,
            C::unit(1),
            (rot.x@[word], rot.z@[word]),
            rot.param,
            C::tolerance_of(),
        ) is Some,
    ensures
        after.row_lists().len() == before.row_lists().len(),
        ({
            let gw = (rot.x@[word], rot.z@[word]);
            let turns = !B::word_commuting(v, gw);
            let quarter = C::quarter_turn(rot.param, C::tolerance_of());
            let c = before.coeff_seq()[r];
            let p = B::word_product(v, gw);
            &&& after.key(r) == (if turns && quarter {
                sparse::spliced(before.key(r), before.span() as int, word, [p.0, p.1])
            } else {
                before.key(r)
            })
            &&& after.coeff_seq()[r] == (if !turns {
                c
            } else if quarter {
                c.scaled(C::unit(C::turn_sign(rot.param)->0 * -B::word_phase(v, gw).imaginary()))
            } else {
                c.scaled(C::half_turn(rot.param, C::tolerance_of())->0)
            })
        }),
{
    let eps = C::tolerance_of();
    let g = sparse::key_of(rot.x@, rot.z@, before.span());
    let gw = (rot.x@[word], rot.z@[word]);
    let c = before.coeff_seq()[r];
    lemma_word_held(rot.x@, rot.z@, before.span(), word);
    B::local_law(before.key(r), g, before.span() as int, word, v, gw);
    let turn = kernels::turn_of::<B, C>(
        rot.x@,
        rot.z@,
        before.span(),
        before.units(),
        rot.param,
        C::quarter_turn(rot.param, eps),
    );
    assert(!(turn is Branching));
    assert(after.coeff_seq()[r] == kernels::turned_coeff::<B, C>(turn, before, g, rot.param, r));
    assert(after.key(r) == (if turn is Table || turn is InPlace {
        kernels::turned_key::<B, C>(before, g, r)
    } else {
        before.key(r)
    }));
    lemma_scale(c, C::unit(1), C::unit(1));
    let ph = B::word_phase(v, gw);
    if turn is InPlace && !B::word_commuting(v, gw) {
        assert(c.sin_branch(rot.param, ph) == c.scaled(
            C::unit(C::turn_sign(rot.param)->0 * -ph.imaginary()),
        ));
    }
}

/// A row after the first `k` rotations: its word as they fold it, and its coefficient scaled by
/// the factor they fold up.
#[verifier::spinoff_prover]
proof fn lemma_row_folds<B: SoaBasis, C: CoeffRepr>(
    applied: Seq<Rotation<C::GateParam>>,
    i: int,
    j: int,
    word: int,
    mask: u64,
    sums: Seq<SoaTermSum<C>>,
    added: Seq<nat>,
    k: int,
    r: int,
    w: (u64, u64),
)
    requires
        0 <= i,
        0 <= k <= j - i,
        j <= applied.len(),
        one_by_one::<B, C>(applied, i, j, sums, added),
        sums[0].span() % 64 == 0,
        0 <= r < sums[0].row_lists().len(),
        store::held_at(sums[0].key(r), sums[0].span() as int, word, w),
        scales_exactly::<C>(),
        forall|x: int| i <= x < j ==> fits::<B, C>(#[trigger] applied[x], sums[0].span(), word, mask),
        forall|x: int| i <= x < j ==> clifford_exact::<C>((#[trigger] applied[x]).param),
        0 <= word,
        64 * word + 64 <= sums[0].span(),
        clifford_ops::folded::<B, C>(
            soa_propagator::group_of(applied, i, j, word),
            k,
            w,
            C::tolerance_of(),
        ) is Some,
    ensures
        ({
            let (v, f) = clifford_ops::folded::<B, C>(
                soa_propagator::group_of(applied, i, j, word),
                k,
                w,
                C::tolerance_of(),
            )->0;
            &&& sums[k].row_lists().len() == sums[0].row_lists().len()
            &&& sums[k].key(r) == sparse::spliced(
                sums[0].key(r),
                sums[0].span() as int,
                word,
                [v.0, v.1],
            )
            &&& sums[k].coeff_seq()[r] == sums[0].coeff_seq()[r].scaled(f)
        }),
    decreases k,
{
    let span = sums[0].span() as int;
    let key = sums[0].key(r);
    let c = sums[0].coeff_seq()[r];
    let group = soa_propagator::group_of(applied, i, j, word);
    let eps = C::tolerance_of();
    if k == 0 {
        lemma_spliced(key, span, word, w, w);
        lemma_scale(c, C::unit(1), C::unit(1));
    } else {
        lemma_row_folds::<B, C>(applied, i, j, word, mask, sums, added, k - 1, r, w);
        let (v, f) = clifford_ops::folded::<B, C>(group, k - 1, w, eps)->0;
        let rot = applied[i + (k - 1)];
        let gw = (rot.x@[word], rot.z@[word]);
        assert(group[k - 1] == (gw, rot.param));
        assert(fits::<B, C>(applied[i + (k - 1)], sums[0].span(), word, mask));
        assert(clifford_exact::<C>(applied[i + (k - 1)].param));
        let before = sums[k - 1];
        let after = sums[k];
        assert(before.same_setup(sums[0]) && after.same_setup(sums[0]));
        assert(soa_propagator::acted::<B, C>(
            GateAction::Normal,
            applied[i + (k - 1)],
            sums[k - 1],
            sums[(k - 1) + 1],
            added[k - 1],
        ));
        let p = B::word_product(v, gw);
        lemma_spliced(key, span, word, v, p);
        lemma_row_turns::<B, C>(rot, before, after, added[k - 1], word, mask, r, v);
        lemma_scale(c, f, C::unit(C::turn_sign(rot.param)->0 * -B::word_phase(v, gw).imaginary()));
        lemma_scale(c, f, C::half_turn(rot.param, eps)->0);
    }
}

/// A table for a run of Clifford rotations does to every term what the rotations do to it one
/// after another: the same key and the same coefficient.
pub proof fn law_fused_run_is_its_rotations<B: SoaBasis, C: CoeffRepr>(
    applied: Seq<Rotation<C::GateParam>>,
    i: int,
    j: int,
    word: int,
    mask: u64,
    op: CliffordOp<C::Real>,
    sums: Seq<SoaTermSum<C>>,
    added: Seq<nat>,
    last: Rotation<C::GateParam>,
    fused: SoaTermSum<C>,
    r: int,
)
    requires
        0 <= i < j <= applied.len(),
        one_by_one::<B, C>(applied, i, j, sums, added),
        sums[0].span() % 64 == 0,
        scales_exactly::<C>(),
        forall|x: int| i <= x < j ==> fits::<B, C>(#[trigger] applied[x], sums[0].span(), word, mask),
        forall|x: int| i <= x < j ==> clifford_exact::<C>((#[trigger] applied[x]).param),
        soa_propagator::stands_for::<B, C>(op, applied, i, j, word, mask),
        soa_propagator::acted::<B, C>(GateAction::Fused(op), last, sums[0], fused, 0),
        0 <= r < sums[0].row_lists().len(),
    ensures
        fused.row_lists().len() == sums[0].row_lists().len(),
        sums[j - i].row_lists().len() == sums[0].row_lists().len(),
        fused.key(r) == sums[j - i].key(r),
        fused.coeff_seq()[r] == sums[j - i].coeff_seq()[r],
{
    let before = sums[0];
    let span = before.span() as int;
    let group = soa_propagator::group_of(applied, i, j, word);
    let eps = C::tolerance_of();
    let n = j - i;
    assert(fits::<B, C>(applied[i], before.span(), word, mask));
    B::local_bound(sparse::key_of(applied[i].x@, applied[i].z@, before.span()), span, word);
    let w = choose|w: (u64, u64)| #[trigger]
        store::held_at(before.key(r), span, op.word_of(), w) && {
            let (label, factor) = op.entry(store::picked(w, op.mask_bits()));
            let new = store::patched(w, op.mask_bits(), label);
            &&& fused.key(r) == sparse::spliced(before.key(r), span, op.word_of(), [new.0, new.1])
            &&& fused.coeff_seq()[r] == before.coeff_seq()[r].scaled(factor)
        };
    assert(clifford_ops::conjugated(
        op,
        before.span(),
        before.key(r),
        before.coeff_seq()[r],
        fused.key(r),
        fused.coeff_seq()[r],
    ));
    assert forall|x: int| 0 <= x < n implies store::picked((#[trigger] group[x]).0, mask)
        == group[x].0 by {
        assert(fits::<B, C>(applied[i + x], before.span(), word, mask));
    }
    clifford_ops::law_fusion_is_exact::<B, C>(group, n, mask, w, eps);
    let label = store::picked(w, mask);
    let (x, z) = w;
    assert((x & mask) & mask == x & mask && (z & mask) & mask == z & mask) by (bit_vector);
    assert(clifford_ops::folded::<B, C>(group, n, label, eps) == Some(op.entry(label)));
    lemma_row_folds::<B, C>(applied, i, j, word, mask, sums, added, n, r, w);
}

/// Two sums hold the same terms in the same rows.
pub open spec fn alike<C: CoeffRepr>(a: SoaTermSum<C>, b: SoaTermSum<C>) -> bool {
    &&& a.same_setup(b)
    &&& a.row_lists().len() == b.row_lists().len()
    &&& forall|i: int| 0 <= i < a.row_lists().len() ==> #[trigger] a.key(i) == b.key(i)
    &&& forall|i: int|
        0 <= i < a.row_lists().len() ==> #[trigger] a.coeff_seq()[i] == b.coeff_seq()[i]
}

/// Rotating like sums leaves like sums.
proof fn lemma_rotates_alike<B: SoaBasis, C: CoeffRepr>(
    turn: Turn<C::Real>,
    g: Seq<bool>,
    param: C::GateParam,
    a: SoaTermSum<C>,
    a_after: SoaTermSum<C>,
    a_added: nat,
    b: SoaTermSum<C>,
    b_after: SoaTermSum<C>,
    b_added: nat,
)
    requires
        alike(a, b),
        a_after.same_setup(a),
        b_after.same_setup(b),
        kernels::rotated::<B, C>(turn, a, a_after, g, param, a_added),
        kernels::rotated::<B, C>(turn, b, b_after, g, param, b_added),
    ensures
        alike(a_after, b_after),
        a_added == b_added,
{
    let n = a.row_lists().len() as int;
    let flags = kernels::anti_flags::<B, C>(a, g);
    assert(flags =~= kernels::anti_flags::<B, C>(b, g));
    let at = Seq::new(n as nat, |i: int| i);
    sparse::lemma_flagged(at, flags, n);
    assert forall|i: int| 0 <= i < a_after.row_lists().len() implies #[trigger] a_after.key(i)
        == b_after.key(i) && a_after.coeff_seq()[i] == b_after.coeff_seq()[i] by {
        if i < n {
            assert(a.key(i) == b.key(i));
            assert(a.coeff_seq()[i] == b.coeff_seq()[i]);
            assert(a_after.coeff_seq()[i] == kernels::turned_coeff::<B, C>(turn, a, g, param, i));
            assert(b_after.coeff_seq()[i] == kernels::turned_coeff::<B, C>(turn, b, g, param, i));
            assert(b_after.key(i) == b_after.key(i));
        } else {
            assert(sparse::stands_at(at, flags, n, i - n));
            let x = choose|x: int|
                0 <= x < n && flags[x] != 0 && sparse::rank(flags, x) == i - n && sparse::flagged(
                    at,
                    flags,
                    n,
                )[i - n] == #[trigger] at[x];
            assert(kernels::sprung::<B, C>(a, a_after, g, param, flags[x], x));
            assert(kernels::sprung::<B, C>(b, b_after, g, param, flags[x], x));
            assert(a.key(x) == b.key(x));
            assert(a.coeff_seq()[x] == b.coeff_seq()[x]);
        }
    }
    assert forall|i: int| 0 <= i < a_after.row_lists().len() implies #[trigger] a_after.coeff_seq()[i]
        == b_after.coeff_seq()[i] by {
        assert(a_after.key(i) == b_after.key(i));
    }
}

/// A run's rotations are on the run's word and on the bits of its mask.
proof fn lemma_run<B: SoaBasis, C: CoeffRepr>(
    applied: Seq<Rotation<C::GateParam>>,
    j: int,
    word: int,
    mask: u64,
    x: int,
)
    requires
        0 <= j <= applied.len(),
    ensures
        ({
            let (end, full) = soa_propagator::run_end::<B, C>(applied, j, word, mask);
            &&& j <= end <= applied.len()
            &&& mask & full == mask
            &&& j <= x < end ==> (soa_propagator::fusable::<B, C>(applied[x]) matches Some((w, m))
                && w == word && m & full == m)
        }),
    decreases applied.len() - j,
{
    assert(mask & mask == mask) by (bit_vector);
    if j < applied.len() {
        if let Some((w, m)) = soa_propagator::fusable::<B, C>(applied[j]) {
            if w == word && soa_propagator::popcount(mask | m) <= 2 {
                lemma_run::<B, C>(applied, j + 1, word, mask | m, x);
                let full = soa_propagator::run_end::<B, C>(applied, j + 1, word, mask | m).1;
                assert(mask & full == mask && m & full == m) by (bit_vector)
                    requires
                        (mask | m) & full == (mask | m),
                ;
            }
        }
    }
}

/// A sum after each rotation of a circuit, carried out as the actions say.
pub open spec fn carried_out<B: SoaBasis, C: CoeffRepr>(
    applied: Seq<Rotation<C::GateParam>>,
    actions: Seq<GateAction<C::Real>>,
    sums: Seq<SoaTermSum<C>>,
    added: Seq<nat>,
) -> bool {
    &&& actions.len() == applied.len()
    &&& sums.len() == applied.len() + 1
    &&& added.len() == applied.len()
    &&& forall|k: int|
        0 <= k < applied.len() ==> #[trigger] soa_propagator::acted::<B, C>(
            actions[k],
            applied[k],
            sums[k],
            sums[k + 1],
            added[k],
        )
    &&& forall|k: int| 0 <= k < sums.len() ==> (#[trigger] sums[k]).same_setup(sums[0])
}

/// Rotations applied by themselves from like sums leave like sums.
proof fn lemma_plain_stretch<B: SoaBasis, C: CoeffRepr>(
    applied: Seq<Rotation<C::GateParam>>,
    actions: Seq<GateAction<C::Real>>,
    sums: Seq<SoaTermSum<C>>,
    added: Seq<nat>,
    plain_actions: Seq<GateAction<C::Real>>,
    plain: Seq<SoaTermSum<C>>,
    plain_added: Seq<nat>,
    i: int,
    j: int,
)
    requires
        0 <= i <= j <= applied.len(),
        carried_out::<B, C>(applied, actions, sums, added),
        carried_out::<B, C>(applied, plain_actions, plain, plain_added),
        forall|k: int| 0 <= k < applied.len() ==> #[trigger] plain_actions[k] is Normal,
        forall|k: int| i <= k < j ==> #[trigger] actions[k] is Normal,
        alike(sums[i], plain[i]),
        sums[0].same_setup(plain[0]),
    ensures
        alike(sums[j], plain[j]),
    decreases j - i,
{
    if i < j {
        lemma_plain_stretch::<B, C>(
            applied,
            actions,
            sums,
            added,
            plain_actions,
            plain,
            plain_added,
            i,
            j - 1,
        );
        let k = j - 1;
        let rot = applied[k];
        assert(actions[k] is Normal && plain_actions[k] is Normal);
        assert(soa_propagator::acted::<B, C>(
            actions[k],
            applied[k],
            sums[k],
            sums[k + 1],
            added[k],
        ));
        assert(soa_propagator::acted::<B, C>(
            plain_actions[k],
            applied[k],
            plain[k],
            plain[k + 1],
            plain_added[k],
        ));
        assert(sums[k].same_setup(sums[0]) && sums[k + 1].same_setup(sums[0]));
        assert(plain[k].same_setup(plain[0]) && plain[k + 1].same_setup(plain[0]));
        lemma_rotates_alike::<B, C>(
            kernels::turn_of::<B, C>(
                rot.x@,
                rot.z@,
                sums[k].span(),
                sums[k].units(),
                rot.param,
                C::quarter_turn(rot.param, C::tolerance_of()),
            ),
            sparse::key_of(rot.x@, rot.z@, sums[k].span()),
            rot.param,
            sums[k],
            sums[k + 1],
            added[k],
            plain[k],
            plain[k + 1],
            plain_added[k],
        );
    }
}

/// A fused run from like sums leaves like sums.
proof fn lemma_fused_stretch<B: SoaBasis, C: CoeffRepr>(
    applied: Seq<Rotation<C::GateParam>>,
    actions: Seq<GateAction<C::Real>>,
    sums: Seq<SoaTermSum<C>>,
    added: Seq<nat>,
    plain_actions: Seq<GateAction<C::Real>>,
    plain: Seq<SoaTermSum<C>>,
    plain_added: Seq<nat>,
    i: int,
    j: int,
    word: int,
    mask: u64,
    op: CliffordOp<C::Real>,
)
    requires
        0 <= i < j <= applied.len(),
        carried_out::<B, C>(applied, actions, sums, added),
        carried_out::<B, C>(applied, plain_actions, plain, plain_added),
        forall|k: int| 0 <= k < applied.len() ==> #[trigger] plain_actions[k] is Normal,
        forall|k: int| i <= k < j - 1 ==> #[trigger] actions[k] is Skip,
        actions[j - 1] == GateAction::Fused(op),
        soa_propagator::stands_for::<B, C>(op, applied, i, j, word, mask),
        scales_exactly::<C>(),
        forall|x: int| i <= x < j ==> fits::<B, C>(#[trigger] applied[x], sums[0].span(), word, mask),
        forall|x: int| i <= x < j ==> clifford_exact::<C>((#[trigger] applied[x]).param),
        sums[0].span() % 64 == 0,
        alike(sums[i], plain[i]),
        sums[0].same_setup(plain[0]),
    ensures
        alike(sums[j], plain[j]),
{
    assert forall|k: int| i <= k <= j - 1 implies #[trigger] sums[k] == sums[i] by {
        lemma_skipped::<B, C>(applied, actions, sums, added, i, k);
    }
    assert(soa_propagator::acted::<B, C>(
        actions[j - 1],
        applied[j - 1],
        sums[j - 1],
        sums[(j - 1) + 1],
        added[j - 1],
    ));
    assert(sums[i].same_setup(sums[0]) && sums[j].same_setup(sums[0]));
    assert(plain[i].same_setup(plain[0]) && plain[j].same_setup(plain[0]));
    let part = plain.subrange(i, j + 1);
    let part_added = plain_added.skip(i);
    assert(part[0] == plain[i] && part[j - i] == plain[j]);
    assert forall|k: int| 0 <= k < j - i implies #[trigger] soa_propagator::acted::<B, C>(
        GateAction::Normal,
        applied[i + k],
        part[k],
        part[k + 1],
        part_added[k],
    ) by {
        assert(plain_actions[i + k] is Normal);
        assert(soa_propagator::acted::<B, C>(
            plain_actions[i + k],
            applied[i + k],
            plain[i + k],
            plain[(i + k) + 1],
            plain_added[i + k],
        ));
        assert(part[k] == plain[i + k] && part[k + 1] == plain[(i + k) + 1]);
        assert(part_added[k] == plain_added[i + k]);
    }
    assert forall|k: int| 0 <= k <= j - i implies (#[trigger] part[k]).same_setup(part[0]) by {
        assert(plain[i + k].same_setup(plain[0]));
    }
    let before = plain[i];
    let fused = sums[j];
    assert forall|r: int| 0 <= r < before.row_lists().len() implies clifford_ops::conjugated(
        op,
        before.span(),
        #[trigger] before.key(r),
        before.coeff_seq()[r],
        fused.key(r),
        fused.coeff_seq()[r],
    ) by {
        assert(sums[i].key(r) == before.key(r));
        assert(sums[i].coeff_seq()[r] == before.coeff_seq()[r]);
        assert(sums[j - 1] == sums[i]);
    }
    assert(soa_propagator::acted::<B, C>(GateAction::Fused(op), applied[j - 1], part[0], fused, 0));
    if before.row_lists().len() == 0 {
        lemma_no_rows::<B, C>(applied, i, j, word, mask, part, part_added, j - i);
    }
    assert forall|r: int| 0 <= r < fused.row_lists().len() implies #[trigger] fused.key(r)
        == plain[j].key(r) && fused.coeff_seq()[r] == plain[j].coeff_seq()[r] by {
        law_fused_run_is_its_rotations::<B, C>(
            applied,
            i,
            j,
            word,
            mask,
            op,
            part,
            part_added,
            applied[j - 1],
            fused,
            r,
        );
    }
    if before.row_lists().len() > 0 {
        law_fused_run_is_its_rotations::<B, C>(
            applied,
            i,
            j,
            word,
            mask,
            op,
            part,
            part_added,
            applied[j - 1],
            fused,
            0,
        );
    }
    assert forall|r: int| 0 <= r < fused.row_lists().len() implies #[trigger] fused.coeff_seq()[r]
        == plain[j].coeff_seq()[r] by {
        assert(fused.key(r) == plain[j].key(r));
    }
}

/// Skipped rotations change nothing.
proof fn lemma_skipped<B: SoaBasis, C: CoeffRepr>(
    applied: Seq<Rotation<C::GateParam>>,
    actions: Seq<GateAction<C::Real>>,
    sums: Seq<SoaTermSum<C>>,
    added: Seq<nat>,
    i: int,
    k: int,
)
    requires
        0 <= i <= k <= applied.len(),
        carried_out::<B, C>(applied, actions, sums, added),
        forall|x: int| i <= x < k ==> #[trigger] actions[x] is Skip,
    ensures
        sums[k] == sums[i],
    decreases k - i,
{
    if i < k {
        lemma_skipped::<B, C>(applied, actions, sums, added, i, k - 1);
        assert(actions[k - 1] is Skip);
        assert(soa_propagator::acted::<B, C>(
            actions[k - 1],
            applied[k - 1],
            sums[k - 1],
            sums[(k - 1) + 1],
            added[k - 1],
        ));
    }
}

/// An empty sum stays empty.
proof fn lemma_no_rows<B: SoaBasis, C: CoeffRepr>(
    applied: Seq<Rotation<C::GateParam>>,
    i: int,
    j: int,
    word: int,
    mask: u64,
    sums: Seq<SoaTermSum<C>>,
    added: Seq<nat>,
    k: int,
)
    requires
        0 <= k <= j - i,
        one_by_one::<B, C>(applied, i, j, sums, added),
        sums[0].row_lists().len() == 0,
    ensures
        sums[k].row_lists().len() == 0,
    decreases k,
{
    if k > 0 {
        lemma_no_rows::<B, C>(applied, i, j, word, mask, sums, added, k - 1);
        let before = sums[k - 1];
        let rot = applied[i + (k - 1)];
        assert(soa_propagator::acted::<B, C>(
            GateAction::Normal,
            applied[i + (k - 1)],
            sums[k - 1],
            sums[(k - 1) + 1],
            added[k - 1],
        ));
        let flags = kernels::anti_flags::<B, C>(
            before,
            sparse::key_of(rot.x@, rot.z@, before.span()),
        );
        assert(Seq::new(0, |x: int| flags[x] != 0) =~= Seq::<bool>::empty());
    }
}

/// A fusion plan changes nothing: a circuit carried out as planned leaves, after its last
/// rotation, row by row the terms that the rotations leave applied one by one.
pub proof fn law_fusion_plan_changes_nothing<B: SoaBasis, C: CoeffRepr>(
    applied: Seq<Rotation<C::GateParam>>,
    actions: Seq<GateAction<C::Real>>,
    sums: Seq<SoaTermSum<C>>,
    added: Seq<nat>,
    plain_actions: Seq<GateAction<C::Real>>,
    plain: Seq<SoaTermSum<C>>,
    plain_added: Seq<nat>,
    i: int,
)
    requires
        0 <= i <= applied.len(),
        carried_out::<B, C>(applied, actions, sums, added),
        carried_out::<B, C>(applied, plain_actions, plain, plain_added),
        forall|k: int| 0 <= k < applied.len() ==> #[trigger] plain_actions[k] is Normal,
        soa_propagator::planned::<B, C>(applied, actions, i),
        scales_exactly::<C>(),
        forall|x: int|
            0 <= x < applied.len() ==> clifford_exact::<C>((#[trigger] applied[x]).param),
        forall|x: int|
            0 <= x < applied.len() ==> 64 * (#[trigger] applied[x]).x@.len() == sums[0].span()
                && 64 * applied[x].z@.len() == sums[0].span(),
        sums[0].span() % 64 == 0,
        alike(sums[i], plain[i]),
        sums[0].same_setup(plain[0]),
    ensures
        alike(sums[applied.len() as int], plain[applied.len() as int]),
    decreases applied.len() - i,
{
    let n = applied.len() as int;
    if i < n {
        match soa_propagator::fusable::<B, C>(applied[i]) {
            Some((word, first)) => {
                let (j, mask) = soa_propagator::run_end::<B, C>(applied, i + 1, word, first);
                lemma_run::<B, C>(applied, i + 1, word, first, i + 1);
                if j - i >= 2 && soa_propagator::folds::<B, C>(applied, i, j, word, mask) {
                    let op = actions[j - 1]->Fused_0;
                    assert forall|x: int| i <= x < j implies fits::<B, C>(
                        #[trigger] applied[x],
                        sums[0].span(),
                        word,
                        mask,
                    ) by {
                        lemma_run::<B, C>(applied, i + 1, word, first, x);
                        let (a, b) = (applied[x].x@[word], applied[x].z@[word]);
                        assert((a | b) & mask == (a | b));
                        assert(a & mask == a && b & mask == b) by (bit_vector)
                            requires
                                (a | b) & mask == (a | b),
                        ;
                    }
                    assert forall|x: int| i <= x < j implies clifford_exact::<C>(
                        (#[trigger] applied[x]).param,
                    ) by {}
                    lemma_fused_stretch::<B, C>(
                        applied,
                        actions,
                        sums,
                        added,
                        plain_actions,
                        plain,
                        plain_added,
                        i,
                        j,
                        word,
                        mask,
                        op,
                    );
                } else {
                    lemma_plain_stretch::<B, C>(
                        applied,
                        actions,
                        sums,
                        added,
                        plain_actions,
                        plain,
                        plain_added,
                        i,
                        j,
                    );
                }
                law_fusion_plan_changes_nothing::<B, C>(
                    applied,
                    actions,
                    sums,
                    added,
                    plain_actions,
                    plain,
                    plain_added,
                    j,
                );
            },
            None => {
                lemma_plain_stretch::<B, C>(
                    applied,
                    actions,
                    sums,
                    added,
                    plain_actions,
                    plain,
                    plain_added,
                    i,
                    i + 1,
                );
                law_fusion_plan_changes_nothing::<B, C>(
                    applied,
                    actions,
                    sums,
                    added,
                    plain_actions,
                    plain,
                    plain_added,
                    i + 1,
                );
            },
        }
    }
}

/// A rotation that is no Clifford rotation, or is not confined to one word, or acts on more than
/// two of its bits, is applied by itself.
pub proof fn law_other_rotations_stay<B: SoaBasis, C: CoeffRepr>(
    applied: Seq<Rotation<C::GateParam>>,
    actions: Seq<GateAction<C::Real>>,
    i: int,
    k: int,
)
    requires
        0 <= i <= k < applied.len(),
        soa_propagator::planned::<B, C>(applied, actions, i),
        ({
            let r = applied[k];
            let eps = C::tolerance_of();
            let local = B::local_of(sparse::key_of(r.x@, r.z@, 64 * r.x@.len()));
            ||| !C::quarter_turn(r.param, eps) && C::half_turn(r.param, eps) is None
            ||| local is None
            ||| bits::ones(bits::word_bits(r.x@[local->0] | r.z@[local->0])) > 2
        }),
    ensures
        actions[k] is Normal,
    decreases applied.len() - i,
{
    assert(soa_propagator::fusable::<B, C>(applied[k]) is None);
    match soa_propagator::fusable::<B, C>(applied[i]) {
        Some((word, first)) => {
            let (j, mask) = soa_propagator::run_end::<B, C>(applied, i + 1, word, first);
            lemma_run::<B, C>(applied, i + 1, word, first, k);
            law_other_rotations_stay::<B, C>(applied, actions, j, k);
        },
        None => {
            if i < k {
                law_other_rotations_stay::<B, C>(applied, actions, i + 1, k);
            }
        },
    }
}

/// A label is folded through any Clifford rotations whose signs are known.
proof fn lemma_folds<B: SoaBasis, C: CoeffRepr>(
    rotations: Seq<((u64, u64), C::GateParam)>,
    k: int,
    label: (u64, u64),
)
    requires
        0 <= k <= rotations.len(),
        forall|x: int|
            0 <= x < k ==> {
                let param = (#[trigger] rotations[x]).1;
                if C::quarter_turn(param, C::tolerance_of()) {
                    C::turn_sign(param) is Some
                } else {
                    C::half_turn(param, C::tolerance_of()) is Some
                }
            },
    ensures
        clifford_ops::folded::<B, C>(rotations, k, label, C::tolerance_of()) is Some,
    decreases k,
{
    if k > 0 {
        lemma_folds::<B, C>(rotations, k - 1, label);
        let param = rotations[k - 1].1;
        assert(C::quarter_turn(param, C::tolerance_of()) || C::half_turn(
            param,
            C::tolerance_of(),
        ) is Some);
    }
}

/// Two Clifford rotations one after the other, on one word and together on no more than two of
/// its bits, are fused where the plan comes to the first of them, if the signs of quarter turns
/// are known.
pub proof fn law_neighbours_fuse<B: SoaBasis, C: CoeffRepr>(
    applied: Seq<Rotation<C::GateParam>>,
    actions: Seq<GateAction<C::Real>>,
    i: int,
    word: int,
)
    requires
        0 <= i < applied.len() - 1,
        soa_propagator::planned::<B, C>(applied, actions, i),
        forall|x: int|
            i <= x < i + 2 ==> {
                let r = #[trigger] applied[x];
                let eps = C::tolerance_of();
                &&& C::quarter_turn(r.param, eps) || C::half_turn(r.param, eps) is Some
                &&& B::local_of(sparse::key_of(r.x@, r.z@, 64 * r.x@.len())) == Some(word)
                &&& r.x@[word] | r.z@[word] != 0
                &&& bits::ones(bits::word_bits(r.x@[word] | r.z@[word])) <= 2
            },
        bits::ones(
            bits::word_bits(
                (applied[i].x@[word] | applied[i].z@[word]) | (applied[i + 1].x@[word]
                    | applied[i + 1].z@[word]),
            ),
        ) <= 2,
        forall|x: int|
            0 <= x < applied.len() && C::quarter_turn(
                (#[trigger] applied[x]).param,
                C::tolerance_of(),
            ) ==> C::turn_sign(applied[x].param) is Some,
    ensures
        actions[i] is Skip,
{
    let eps = C::tolerance_of();
    let (a, b) = (applied[i], applied[i + 1]);
    let first = a.x@[word] | a.z@[word];
    let second = b.x@[word] | b.z@[word];
    assert(soa_propagator::fusable::<B, C>(applied[i]) == Some((word, first)));
    assert(soa_propagator::fusable::<B, C>(applied[i + 1]) == Some((word, second)));
    let (j, mask) = soa_propagator::run_end::<B, C>(applied, i + 1, word, first);
    lemma_run::<B, C>(applied, i + 2, word, first | second, i + 2);
    assert(j >= i + 2);
    assert forall|l: (u64, u64)|
        store::picked(l, mask) == l implies #[trigger] clifford_ops::folded::<B, C>(
        soa_propagator::group_of(applied, i, j, word),
        j - i,
        l,
        eps,
    ) is Some by {
        let group = soa_propagator::group_of(applied, i, j, word);
        lemma_run::<B, C>(applied, i + 1, word, first, i + 1);
        assert forall|x: int| 0 <= x < j - i implies {
            let param = (#[trigger] group[x]).1;
            if C::quarter_turn(param, eps) {
                C::turn_sign(param) is Some
            } else {
                C::half_turn(param, eps) is Some
            }
        } by {
            lemma_run::<B, C>(applied, i + 1, word, first, i + x);
            assert(group[x].1 == applied[i + x].param);
        }
        lemma_folds::<B, C>(group, j - i, l);
    }
    assert(soa_propagator::folds::<B, C>(applied, i, j, word, mask));
}

} // verus!
