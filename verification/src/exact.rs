//! What the operations on a column store come to where coefficients add and turn exactly.
//!
//! A sum may hold a key in several rows; what counts is the key's amount, all its coefficients
//! together. Floating point rounds, so these laws are stated of representations that add and
//! turn without rounding.

use crate::basis::Phase;
use crate::bits;
use crate::clifford_ops;
use crate::coeff::CoeffRepr;
use crate::kernels;
use crate::kernels::Turn;
use crate::sparse;
use crate::store;
use crate::store::{SoaBasis, SoaTermSum};
use crate::term_kernel::TruncationKernel;
use crate::truncators::ResolvedConfig;
use vstd::prelude::*;

verus! {

/// Coefficients add in any order and grouping, zero changes nothing, and there is nothing to
/// collapse.
#[verifier::opaque]
pub open spec fn adds_exactly<C: CoeffRepr>() -> bool {
    &&& forall|a: C, b: C| #[trigger] a.sum(b) == b.sum(a)
    &&& forall|a: C, b: C, c: C| #[trigger] a.sum(b).sum(c) == a.sum(b.sum(c))
    &&& forall|a: C| #[trigger] a.sum(C::zero_of()) == a
    &&& forall|a: C| #[trigger] a.settled() == a
}

/// Both branches of a rotation are linear.
#[verifier::opaque]
pub open spec fn turns_linearly<C: CoeffRepr>(param: C::GateParam) -> bool {
    &&& forall|a: C, b: C, p: Phase| #[trigger]
        a.sum(b).cos_branch(param, p) == a.cos_branch(param, p).sum(b.cos_branch(param, p))
    &&& forall|a: C, b: C, p: Phase| #[trigger]
        a.sum(b).sin_branch(param, p) == a.sin_branch(param, p).sum(b.sin_branch(param, p))
    &&& forall|p: Phase| #[trigger] C::zero_of().cos_branch(param, p) == C::zero_of()
    &&& forall|p: Phase| #[trigger] C::zero_of().sin_branch(param, p) == C::zero_of()
}

/// What the representation says of a rotation holds exactly: a half turn has no sine branch and
/// scales by its cosine, and one whose cosine is one changes nothing.
pub open spec fn half_turn_exact<C: CoeffRepr>(param: C::GateParam) -> bool {
    C::half_turn(param, C::tolerance_of()) matches Some(f) ==> {
        &&& forall|c: C, p: Phase| #[trigger] c.sin_branch(param, p) == C::zero_of()
        &&& forall|c: C, p: Phase| #[trigger] c.cos_branch(param, p) == c.scaled(f)
        &&& C::is_one(f) ==> forall|c: C| #[trigger] c.scaled(f) == c
    }
}

/// The rotation is exactly a quarter turn: no cosine branch, and a sine branch that is the sign
/// of the turn and the phase where that sign is known.
pub open spec fn quarter_turn_exact<C: CoeffRepr>(param: C::GateParam) -> bool {
    &&& forall|c: C, p: Phase| #[trigger] c.cos_branch(param, p) == C::zero_of()
    &&& forall|c: C| #[trigger] c.scaled(C::unit(1)) == c
    &&& C::turn_sign(param) matches Some(s) ==> forall|c: C, p: Phase| #[trigger]
        c.sin_branch(param, p) == c.scaled(C::unit(s * -p.imaginary()))
}

/// The rotation by `back` takes the rotation by `param` back: the branches that return add up to
/// the term, and those that do not cancel. The two branches of a pair have opposite phases.
pub open spec fn takes_back<C: CoeffRepr>(param: C::GateParam, back: C::GateParam) -> bool {
    forall|c: C, p: Phase, q: Phase|
        p.imaginary() == -q.imaginary() && p.imaginary() != 0 ==> {
            &&& c.cos_branch(param, p).cos_branch(back, p).sum(
                #[trigger] c.sin_branch(param, p).sin_branch(back, q),
            ) == c
            &&& c.cos_branch(param, p).sin_branch(back, p).sum(
                c.sin_branch(param, p).cos_branch(back, q),
            ) == C::zero_of()
        }
}

/// Strings of `len` bits that anticommute with `g` come in pairs: a string's product is one
/// too, its product is the string again, and the two phases are opposite.
pub open spec fn pairs_up<B: SoaBasis>(g: Seq<bool>, len: nat) -> bool {
    forall|k: Seq<bool>|
        k.len() == len && !#[trigger] B::commuting(k, g) ==> {
            let p = B::product_of(k, g);
            &&& p.len() == len
            &&& !B::commuting(p, g)
            &&& B::product_of(p, g) == k
            &&& B::phase_of(p, g).imaginary() == -B::phase_of(k, g).imaginary()
            &&& B::phase_of(k, g).imaginary() != 0
        }
}

/// The first `n` values of `f`, added up in order.
pub open spec fn added<C: CoeffRepr>(f: spec_fn(int) -> C, n: int) -> C
    decreases n,
{
    if n <= 0 {
        C::zero_of()
    } else {
        added(f, n - 1).sum(f(n - 1))
    }
}

/// What row `i` holds of key `k`.
pub open spec fn held<C: CoeffRepr>(terms: SoaTermSum<C>, k: Seq<bool>) -> spec_fn(int) -> C {
    |i: int|
        if terms.key(i) == k {
            terms.coeff_seq()[i]
        } else {
            C::zero_of()
        }
}

/// The amount of a key: the coefficients of all its rows together.
pub open spec fn amount<C: CoeffRepr>(terms: SoaTermSum<C>, k: Seq<bool>) -> C {
    added(held(terms, k), terms.row_lists().len() as int)
}

/// Order of two.
proof fn lemma_swap<C: CoeffRepr>(a: C, b: C)
    requires
        adds_exactly::<C>(),
    ensures
        a.sum(b) == b.sum(a),
        a.sum(C::zero_of()) == a,
        C::zero_of().sum(a) == a,
        a.settled() == a,
{
    reveal(adds_exactly);
    assert(a.sum(C::zero_of()) == a);
    assert(C::zero_of().sum(a) == a.sum(C::zero_of()));
}

/// Grouping of three.
proof fn lemma_group<C: CoeffRepr>(a: C, b: C, c: C)
    requires
        adds_exactly::<C>(),
    ensures
        a.sum(b).sum(c) == a.sum(b.sum(c)),
{
    reveal(adds_exactly);
}

/// Two sums of two, exchanged.
proof fn lemma_exchange<C: CoeffRepr>(a: C, b: C, c: C, d: C)
    requires
        adds_exactly::<C>(),
    ensures
        a.sum(b).sum(c.sum(d)) == a.sum(c).sum(b.sum(d)),
{
    lemma_group(a, b, c.sum(d));
    lemma_group(b, c, d);
    lemma_swap(b, c);
    lemma_group(c, b, d);
    lemma_group(a, c, b.sum(d));
}

/// Both branches of a sum.
proof fn lemma_linear<C: CoeffRepr>(param: C::GateParam, a: C, b: C, p: Phase)
    requires
        turns_linearly::<C>(param),
    ensures
        a.sum(b).cos_branch(param, p) == a.cos_branch(param, p).sum(b.cos_branch(param, p)),
        a.sum(b).sin_branch(param, p) == a.sin_branch(param, p).sum(b.sin_branch(param, p)),
        C::zero_of().cos_branch(param, p) == C::zero_of(),
        C::zero_of().sin_branch(param, p) == C::zero_of(),
{
    reveal(turns_linearly);
}

/// Equal values have equal sums.
proof fn lemma_added_same<C: CoeffRepr>(f: spec_fn(int) -> C, g: spec_fn(int) -> C, n: int)
    requires
        forall|i: int| 0 <= i < n ==> #[trigger] f(i) == g(i),
    ensures
        added(f, n) == added(g, n),
    decreases n,
{
    if n > 0 {
        lemma_added_same(f, g, n - 1);
        assert(f(n - 1) == g(n - 1));
    }
}

/// The sum of sums.
proof fn lemma_added_both<C: CoeffRepr>(
    f: spec_fn(int) -> C,
    g: spec_fn(int) -> C,
    h: spec_fn(int) -> C,
    n: int,
)
    requires
        adds_exactly::<C>(),
        forall|i: int| 0 <= i < n ==> #[trigger] h(i) == f(i).sum(g(i)),
    ensures
        added(h, n) == added(f, n).sum(added(g, n)),
    decreases n,
{
    if n > 0 {
        lemma_added_both(f, g, h, n - 1);
        assert(h(n - 1) == f(n - 1).sum(g(n - 1)));
        lemma_exchange(added(f, n - 1), added(g, n - 1), f(n - 1), g(n - 1));
    } else {
        lemma_swap(C::zero_of(), C::zero_of());
    }
}

/// Nothing adds up to nothing.
proof fn lemma_added_nothing<C: CoeffRepr>(f: spec_fn(int) -> C, n: int)
    requires
        adds_exactly::<C>(),
        forall|i: int| 0 <= i < n ==> #[trigger] f(i) == C::zero_of(),
    ensures
        added(f, n) == C::zero_of(),
    decreases n,
{
    if n > 0 {
        lemma_added_nothing(f, n - 1);
        assert(f(n - 1) == C::zero_of());
        lemma_swap(C::zero_of(), C::zero_of());
    }
}

/// The branches of a sum are the sums of the branches.
proof fn lemma_added_branches<C: CoeffRepr>(
    param: C::GateParam,
    p: Phase,
    f: spec_fn(int) -> C,
    cos: spec_fn(int) -> C,
    sin: spec_fn(int) -> C,
    n: int,
)
    requires
        turns_linearly::<C>(param),
        forall|i: int| 0 <= i < n ==> #[trigger] cos(i) == f(i).cos_branch(param, p),
        forall|i: int| 0 <= i < n ==> #[trigger] sin(i) == f(i).sin_branch(param, p),
    ensures
        added(cos, n) == added(f, n).cos_branch(param, p),
        added(sin, n) == added(f, n).sin_branch(param, p),
    decreases n,
{
    if n > 0 {
        lemma_added_branches(param, p, f, cos, sin, n - 1);
        assert(cos(n - 1) == f(n - 1).cos_branch(param, p));
        assert(sin(n - 1) == f(n - 1).sin_branch(param, p));
        lemma_linear(param, added(f, n - 1), f(n - 1), p);
    } else {
        lemma_linear(param, C::zero_of(), C::zero_of(), p);
    }
}

/// What row `i` keeps of key `k` under a rotation.
spec fn kept_part<B: SoaBasis, C: CoeffRepr>(
    terms: SoaTermSum<C>,
    g: Seq<bool>,
    param: C::GateParam,
    k: Seq<bool>,
) -> spec_fn(int) -> C {
    |i: int|
        if terms.key(i) != k {
            C::zero_of()
        } else if B::commuting(k, g) {
            terms.coeff_seq()[i]
        } else {
            terms.coeff_seq()[i].cos_branch(param, B::phase_of(k, g))
        }
}

/// What row `i` sends to key `k` under a rotation.
spec fn sent_part<B: SoaBasis, C: CoeffRepr>(
    terms: SoaTermSum<C>,
    g: Seq<bool>,
    param: C::GateParam,
    k: Seq<bool>,
) -> spec_fn(int) -> C {
    |i: int|
        if !B::commuting(terms.key(i), g) && B::product_of(terms.key(i), g) == k {
            terms.coeff_seq()[i].sin_branch(param, B::phase_of(terms.key(i), g))
        } else {
            C::zero_of()
        }
}

/// Rows past the first `n` add what they hold.
proof fn lemma_added_step<C: CoeffRepr>(f: spec_fn(int) -> C, n: int)
    requires
        n >= 0,
    ensures
        added(f, n + 1) == added(f, n).sum(f(n)),
{
}

/// The rows a branching rotation appends hold what the rows before them send.
proof fn lemma_appended<B: SoaBasis, C: CoeffRepr>(
    before: SoaTermSum<C>,
    after: SoaTermSum<C>,
    g: Seq<bool>,
    param: C::GateParam,
    k: Seq<bool>,
    m: int,
    added_rows: nat,
)
    requires
        adds_exactly::<C>(),
        0 <= m <= before.row_lists().len(),
        kernels::rotated::<B, C>(Turn::Branching, before, after, g, param, added_rows),
    ensures
        added(
            held(after, k),
            before.row_lists().len() as int + sparse::rank(
                kernels::anti_flags::<B, C>(before, g),
                m,
            ),
        ) == added(held(after, k), before.row_lists().len() as int).sum(
            added(sent_part::<B, C>(before, g, param, k), m),
        ),
    decreases m,
{
    let n = before.row_lists().len() as int;
    let flags = kernels::anti_flags::<B, C>(before, g);
    let f = held(after, k);
    let s = sent_part::<B, C>(before, g, param, k);
    let base = added(f, n);
    if m == 0 {
        assert(sparse::rank(flags, 0) == 0) by {
            assert(Seq::new(0, |x: int| flags[x] != 0) =~= Seq::<bool>::empty());
        }
        lemma_swap(base, base);
    } else {
        let i = m - 1;
        lemma_appended::<B, C>(before, after, g, param, k, i, added_rows);
        sparse::lemma_rank_step(flags, i);
        let at = n + sparse::rank(flags, i);
        if flags[i] != 0 {
            assert(kernels::sprung::<B, C>(before, after, g, param, flags[i], i));
            lemma_added_step(f, at);
            assert(f(at) == s(i));
            lemma_group(base, added(s, i), s(i));
        } else {
            assert(B::commuting(before.key(i), g));
            assert(s(i) == C::zero_of());
            lemma_swap(added(s, i), added(s, i));
        }
    }
}

/// What is kept of a key, and what is sent to it, over all rows.
proof fn lemma_parts<B: SoaBasis, C: CoeffRepr>(
    g: Seq<bool>,
    param: C::GateParam,
    before: SoaTermSum<C>,
    k: Seq<bool>,
)
    requires
        adds_exactly::<C>(),
        turns_linearly::<C>(param),
        pairs_up::<B>(g, 2 * before.span()),
        k.len() == 2 * before.span(),
    ensures
        ({
            let n = before.row_lists().len() as int;
            let p = B::product_of(k, g);
            added(kept_part::<B, C>(before, g, param, k), n).sum(
                added(sent_part::<B, C>(before, g, param, k), n),
            ) == (if B::commuting(k, g) {
                amount(before, k)
            } else {
                amount(before, k).cos_branch(param, B::phase_of(k, g)).sum(
                    amount(before, p).sin_branch(param, B::phase_of(p, g)),
                )
            })
        }),
{
    let n = before.row_lists().len() as int;
    let kept = kept_part::<B, C>(before, g, param, k);
    let sent = sent_part::<B, C>(before, g, param, k);
    let p = B::product_of(k, g);
    if B::commuting(k, g) {
        assert forall|i: int| 0 <= i < n implies #[trigger] kept(i) == held(before, k)(i) by {}
        lemma_added_same(kept, held(before, k), n);
        assert forall|i: int| 0 <= i < n implies #[trigger] sent(i) == C::zero_of() by {
            assert(before.key(i).len() == 2 * before.span());
        }
        lemma_added_nothing(sent, n);
        lemma_swap(added(kept, n), added(kept, n));
    } else {
        let pk = B::phase_of(k, g);
        let pp = B::phase_of(p, g);
        let own_sin = |i: int| held(before, k)(i).sin_branch(param, pk);
        let far_cos = |i: int| held(before, p)(i).cos_branch(param, pp);
        lemma_linear(param, C::zero_of(), C::zero_of(), pk);
        lemma_linear(param, C::zero_of(), C::zero_of(), pp);
        assert forall|i: int| 0 <= i < n implies #[trigger] kept(i) == held(before, k)(
            i,
        ).cos_branch(param, pk) by {}
        lemma_added_branches(param, pk, held(before, k), kept, own_sin, n);
        assert forall|i: int| 0 <= i < n implies #[trigger] sent(i) == held(before, p)(
            i,
        ).sin_branch(param, pp) by {
            let key = before.key(i);
            assert(key.len() == 2 * before.span());
            if !B::commuting(key, g) && B::product_of(key, g) == k {
                assert(B::product_of(k, g) == key);
            }
        }
        lemma_added_branches(param, pp, held(before, p), far_cos, sent, n);
    }
}

/// A branching rotation rotates every amount.
proof fn lemma_branching_acts<B: SoaBasis, C: CoeffRepr>(
    g: Seq<bool>,
    param: C::GateParam,
    before: SoaTermSum<C>,
    after: SoaTermSum<C>,
    added_rows: nat,
    k: Seq<bool>,
)
    requires
        adds_exactly::<C>(),
        turns_linearly::<C>(param),
        pairs_up::<B>(g, 2 * before.span()),
        k.len() == 2 * before.span(),
        kernels::rotated::<B, C>(Turn::Branching, before, after, g, param, added_rows),
    ensures
        amount(after, k) == (if B::commuting(k, g) {
            amount(before, k)
        } else {
            amount(before, k).cos_branch(param, B::phase_of(k, g)).sum(
                amount(before, B::product_of(k, g)).sin_branch(
                    param,
                    B::phase_of(B::product_of(k, g), g),
                ),
            )
        }),
{
    let n = before.row_lists().len() as int;
    let kept = kept_part::<B, C>(before, g, param, k);
    assert forall|i: int| 0 <= i < n implies #[trigger] held(after, k)(i) == kept(i) by {
        assert(after.key(i) == before.key(i));
    }
    lemma_added_same(held(after, k), kept, n);
    lemma_appended::<B, C>(before, after, g, param, k, n, added_rows);
    lemma_parts::<B, C>(g, param, before, k);
}

/// However a rotation is carried out, it rotates: a key that commutes with the generator keeps
/// its amount, and one that anticommutes gets the cosine branch of its own amount and the sine
/// branch of its partner's, at the phase of the partner's product with the generator.
pub proof fn law_rotation_acts<B: SoaBasis, C: CoeffRepr>(
    gx: Seq<u64>,
    gz: Seq<u64>,
    param: C::GateParam,
    clifford_inplace: bool,
    before: SoaTermSum<C>,
    after: SoaTermSum<C>,
    added_rows: nat,
    k: Seq<bool>,
)
    requires
        adds_exactly::<C>(),
        turns_linearly::<C>(param),
        half_turn_exact::<C>(param),
        clifford_inplace ==> quarter_turn_exact::<C>(param),
        kernels::turn_of::<B, C>(
            gx,
            gz,
            before.span(),
            before.units(),
            param,
            clifford_inplace,
        ) is Table ==> C::turn_sign(param) is Some,
        pairs_up::<B>(sparse::key_of(gx, gz, before.span()), 2 * before.span()),
        k.len() == 2 * before.span(),
        kernels::rotated::<B, C>(
            kernels::turn_of::<B, C>(
                gx,
                gz,
                before.span(),
                before.units(),
                param,
                clifford_inplace,
            ),
            before,
            after,
            sparse::key_of(gx, gz, before.span()),
            param,
            added_rows,
        ),
    ensures
        amount(after, k) == ({
            let g = sparse::key_of(gx, gz, before.span());
            if B::commuting(k, g) {
                amount(before, k)
            } else {
                let p = B::product_of(k, g);
                amount(before, k).cos_branch(param, B::phase_of(k, g)).sum(
                    amount(before, p).sin_branch(param, B::phase_of(p, g)),
                )
            }
        }),
{
    let g = sparse::key_of(gx, gz, before.span());
    let turn = kernels::turn_of::<B, C>(
        gx,
        gz,
        before.span(),
        before.units(),
        param,
        clifford_inplace,
    );
    let n = before.row_lists().len() as int;
    let kept = kept_part::<B, C>(before, g, param, k);
    let sent = sent_part::<B, C>(before, g, param, k);
    let p = B::product_of(k, g);
    assert forall|i: int| 0 <= i < n implies (#[trigger] before.key(i)).len() == 2
        * before.span() by {}
    // The rows there were.
    if turn is Branching {
        lemma_branching_acts::<B, C>(g, param, before, after, added_rows, k);
    } else {
        assert forall|i: int| 0 <= i < n implies #[trigger] held(after, k)(i) == kept(i).sum(
            sent(i),
        ) by {
            let key = before.key(i);
            let c = before.coeff_seq()[i];
            assert(after.coeff_seq()[i] == kernels::turned_coeff::<B, C>(turn, before, g, param, i));
            assert(after.key(i) == (if turn is Table || turn is InPlace {
                kernels::turned_key::<B, C>(before, g, i)
            } else {
                key
            }));
            lemma_swap(c, c);
            lemma_swap(C::zero_of(), C::zero_of());
            if !B::commuting(key, g) {
                let ph = B::phase_of(key, g);
                lemma_swap(c.sin_branch(param, ph), c.cos_branch(param, ph));
                lemma_swap(c.cos_branch(param, ph), c.cos_branch(param, ph));
                assert(c.sin_branch(param, ph) == c.sin_branch(param, ph));
                assert(c.cos_branch(param, ph) == c.cos_branch(param, ph));
            }
        }
        lemma_added_both(kept, sent, held(after, k), n);
        lemma_parts::<B, C>(g, param, before, k);
    }
}

/// The amounts of a pair, turned and taken back.
pub proof fn lemma_pair_comes_back<C: CoeffRepr>(
    param: C::GateParam,
    back: C::GateParam,
    c: C,
    d: C,
    pk: Phase,
    pp: Phase,
)
    requires
        adds_exactly::<C>(),
        turns_linearly::<C>(back),
        takes_back::<C>(param, back),
        pk.imaginary() == -pp.imaginary(),
        pk.imaginary() != 0,
    ensures
        c.cos_branch(param, pk).sum(d.sin_branch(param, pp)).cos_branch(back, pk).sum(
            d.cos_branch(param, pp).sum(c.sin_branch(param, pk)).sin_branch(back, pp),
        ) == c,
{
    lemma_linear(back, c.cos_branch(param, pk), d.sin_branch(param, pp), pk);
    lemma_linear(back, d.cos_branch(param, pp), c.sin_branch(param, pk), pp);
    let stay = c.cos_branch(param, pk).cos_branch(back, pk);
    let come = c.sin_branch(param, pk).sin_branch(back, pp);
    let lost = d.sin_branch(param, pp).cos_branch(back, pk);
    let gone = d.cos_branch(param, pp).sin_branch(back, pp);
    assert(stay.sum(come) == c);
    let again = d.sin_branch(param, pp).sin_branch(back, pk);
    assert(d.cos_branch(param, pp).cos_branch(back, pp).sum(again) == d);
    assert(gone.sum(lost) == C::zero_of());
    // (stay + lost) + (gone + come) == (stay + come) + (gone + lost)
    lemma_swap(gone, come);
    lemma_exchange(stay, lost, come, gone);
    lemma_swap(lost, gone);
    lemma_swap(c, c);
}

/// A branching rotation and one that takes it back, about the same generator, leave every key
/// the amount it had.
pub proof fn law_rotation_is_taken_back<B: SoaBasis, C: CoeffRepr>(
    g: Seq<bool>,
    param: C::GateParam,
    back: C::GateParam,
    before: SoaTermSum<C>,
    between: SoaTermSum<C>,
    after: SoaTermSum<C>,
    sent: nat,
    returned: nat,
    k: Seq<bool>,
)
    requires
        adds_exactly::<C>(),
        turns_linearly::<C>(param),
        turns_linearly::<C>(back),
        takes_back::<C>(param, back),
        pairs_up::<B>(g, 2 * before.span()),
        k.len() == 2 * before.span(),
        between.span() == before.span(),
        kernels::rotated::<B, C>(Turn::Branching, before, between, g, param, sent),
        kernels::rotated::<B, C>(Turn::Branching, between, after, g, back, returned),
    ensures
        amount(after, k) == amount(before, k),
{
    lemma_branching_acts::<B, C>(g, back, between, after, returned, k);
    lemma_branching_acts::<B, C>(g, param, before, between, sent, k);
    if !B::commuting(k, g) {
        let p = B::product_of(k, g);
        lemma_branching_acts::<B, C>(g, param, before, between, sent, p);
        lemma_pair_comes_back::<C>(
            param,
            back,
            amount(before, k),
            amount(before, p),
            B::phase_of(k, g),
            B::phase_of(p, g),
        );
    }
}

/// Row `i`'s coefficient with those of the equal rows after it is what the rows from `i` on hold
/// of its key.
proof fn lemma_gathered<C: CoeffRepr>(terms: SoaTermSum<C>, i: int, n: int)
    requires
        adds_exactly::<C>(),
        terms.wf(),
        0 <= i < n <= terms.row_lists().len(),
        kernels::first(terms.row_lists(), i),
    ensures
        kernels::gathered(terms.row_lists(), terms.coeff_seq(), i, n) == added(
            held(terms, terms.key(i)),
            n,
        ),
    decreases n,
{
    let rows = terms.row_lists();
    let f = held(terms, terms.key(i));
    if n == i + 1 {
        assert forall|j: int| 0 <= j < i implies #[trigger] f(j) == C::zero_of() by {
            lemma_keys(terms, j, i);
            assert(rows[j] != rows[i]);
        }
        lemma_added_nothing(f, i);
        lemma_swap(terms.coeff_seq()[i], C::zero_of());
    } else {
        lemma_gathered(terms, i, n - 1);
        lemma_keys(terms, n - 1, i);
        let sum = added(f, n - 1);
        lemma_swap(sum, C::zero_of());
        lemma_swap(sum.sum(terms.coeff_seq()[n - 1]), C::zero_of());
    }
}

/// Rows are equal exactly where their keys are.
proof fn lemma_keys<C: CoeffRepr>(terms: SoaTermSum<C>, i: int, j: int)
    requires
        terms.wf(),
        0 <= i < terms.row_lists().len(),
        0 <= j < terms.row_lists().len(),
    ensures
        terms.row_lists()[i] == terms.row_lists()[j] <==> terms.key(i) == terms.key(j),
{
    terms.lemma_wf();
    assert(sparse::spells(terms.row_lists()[i], terms.key(i)));
    assert(sparse::spells(terms.row_lists()[j], terms.key(j)));
    if terms.key(i) == terms.key(j) {
        sparse::lemma_same_row(terms.row_lists()[i], terms.row_lists()[j], terms.key(i));
    }
}

/// Some row of a key is its first.
proof fn lemma_first_row(rows: Seq<Seq<u32>>, i: int) -> (j: int)
    requires
        0 <= i < rows.len(),
    ensures
        0 <= j <= i,
        rows[j] == rows[i],
        kernels::first(rows, j),
    decreases i,
{
    if kernels::first(rows, i) {
        i
    } else {
        let k = choose|k: int| 0 <= k < i && #[trigger] rows[k] == rows[i];
        lemma_first_row(rows, k)
    }
}

/// A value that one index has and the others have not is the sum.
proof fn lemma_added_once<C: CoeffRepr>(f: spec_fn(int) -> C, n: int, i: int)
    requires
        adds_exactly::<C>(),
        0 <= i < n,
        forall|j: int| 0 <= j < n && j != i ==> #[trigger] f(j) == C::zero_of(),
    ensures
        added(f, n) == f(i),
    decreases n,
{
    if i == n - 1 {
        lemma_added_nothing(f, n - 1);
        lemma_swap(f(i), C::zero_of());
    } else {
        lemma_added_once(f, n - 1, i);
        assert(f(n - 1) == C::zero_of());
        lemma_swap(f(i), C::zero_of());
    }
}

/// A merge leaves every key the amount it had, in one row at most.
pub proof fn law_merge_keeps_amounts<C: CoeffRepr>(
    before: SoaTermSum<C>,
    after: SoaTermSum<C>,
    k: Seq<bool>,
)
    requires
        adds_exactly::<C>(),
        before.wf(),
        after.wf(),
        after.same_setup(before),
        after.row_lists() == kernels::merged_rows(before.row_lists()),
        after.coeff_seq() == kernels::merged_coeffs(before.row_lists(), before.coeff_seq()),
    ensures
        amount(after, k) == amount(before, k),
        forall|i: int, j: int|
            0 <= i < j < after.row_lists().len() ==> #[trigger] after.key(i) != #[trigger] after.key(
                j,
            ),
{
    before.lemma_wf();
    after.lemma_wf();
    let rows = before.row_lists();
    let n = rows.len() as int;
    let flags = kernels::first_flags(rows);
    let sums = kernels::gathered_all(rows, before.coeff_seq());
    sparse::lemma_flagged(rows, flags, n);
    sparse::lemma_flagged(sums, flags, n);
    let m = after.row_lists().len() as int;
    assert forall|i: int, j: int| 0 <= i < j < m implies #[trigger] after.key(i)
        != #[trigger] after.key(j) by {
        lemma_keys(after, i, j);
        assert(sparse::stands_at(rows, flags, n, i));
        assert(sparse::stands_at(rows, flags, n, j));
        let a = choose|a: int|
            0 <= a < n && flags[a] != 0 && sparse::rank(flags, a) == i && sparse::flagged(
                rows,
                flags,
                n,
            )[i] == #[trigger] rows[a];
        let b = choose|b: int|
            0 <= b < n && flags[b] != 0 && sparse::rank(flags, b) == j && sparse::flagged(
                rows,
                flags,
                n,
            )[j] == #[trigger] rows[b];
        assert(kernels::first(rows, a) && kernels::first(rows, b));
        if a < b {
            assert(rows[a] != rows[b]);
        } else if b < a {
            assert(rows[b] != rows[a]);
        }
    }
    let f = held(after, k);
    if exists|i: int| 0 <= i < n && #[trigger] before.key(i) == k {
        let i = choose|i: int| 0 <= i < n && #[trigger] before.key(i) == k;
        let a = lemma_first_row(rows, i);
        lemma_keys(before, a, i);
        assert(flags[a] != 0);
        assert(sparse::ranked(rows, flags, n, a));
        assert(sparse::ranked(sums, flags, n, a));
        let at = sparse::rank(flags, a) as int;
        assert(after.row_lists()[at] == rows[a]);
        assert(after.key(at) == k);
        assert(f(at) == sums[a]);
        assert forall|j: int| 0 <= j < m && j != at implies #[trigger] f(j) == C::zero_of() by {
            if j < at {
                assert(after.key(j) != after.key(at));
            } else {
                assert(after.key(at) != after.key(j));
            }
        }
        lemma_added_once(f, m, at);
        lemma_gathered(before, a, n);
    } else {
        assert forall|j: int| 0 <= j < m implies #[trigger] f(j) == C::zero_of() by {
            assert(sparse::stands_at(rows, flags, n, j));
            let a = choose|a: int|
                0 <= a < n && flags[a] != 0 && sparse::rank(flags, a) == j && sparse::flagged(
                    rows,
                    flags,
                    n,
                )[j] == #[trigger] rows[a];
            assert(after.row_lists()[j] == rows[a]);
            assert(before.key(a) != k);
        }
        lemma_added_nothing(f, m);
        assert forall|i: int| 0 <= i < n implies #[trigger] held(before, k)(i) == C::zero_of() by {
            assert(before.key(i) != k);
        }
        lemma_added_nothing(held(before, k), n);
    }
}

/// Two rows of one key merge into the first of them, their sum collapsed, in any arithmetic.
pub proof fn law_two_rows_merge<C: CoeffRepr>(rows: Seq<Seq<u32>>, coeffs: Seq<C>, i: int, j: int)
    requires
        coeffs.len() == rows.len(),
        0 <= i < j < rows.len(),
        rows[j] == rows[i],
        forall|x: int| 0 <= x < rows.len() && x != i && x != j ==> #[trigger] rows[x] != rows[i],
    ensures
        exists|at: int|
            0 <= at <= i && #[trigger] kernels::merged_rows(rows)[at] == rows[i]
                && kernels::merged_coeffs(rows, coeffs)[at] == coeffs[i].sum(coeffs[j]).settled(),
{
    let n = rows.len() as int;
    let flags = kernels::first_flags(rows);
    let sums = kernels::gathered_all(rows, coeffs);
    assert(kernels::first(rows, i));
    sparse::lemma_flagged(rows, flags, n);
    sparse::lemma_flagged(sums, flags, n);
    assert(flags[i] != 0);
    assert(sparse::ranked(rows, flags, n, i));
    assert(sparse::ranked(sums, flags, n, i));
    let at = sparse::rank(flags, i) as int;
    sparse::lemma_flagged(rows, flags, i);
    kernels::lemma_gathered_same(rows, coeffs, i, i + 1, j);
    kernels::lemma_gathered_same(rows, coeffs, i, j + 1, n);
    assert(kernels::merged_rows(rows)[at] == rows[i]);
}

} // verus!
