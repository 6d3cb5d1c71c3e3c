//! The two engines are one: the column store and the map of terms rotate alike.

use crate::basis;
use crate::basis::Basis;
use crate::bits;
use crate::coeff::CoeffRepr;
use crate::emit;
use crate::emit::Gate;
use crate::exact;
use crate::gate;
use crate::group;
use crate::kernels;
use crate::kernels::Turn;
use crate::map_laws;
use crate::pauli;
use crate::pauli::PauliBasis;
use crate::plane_pauli;
use crate::plane_pauli::PlanePauli;
use crate::sparse;
use crate::store::{SoaBasis, SoaTermSum};
use crate::term_kernel::TruncationKernel;
use crate::termsum;
use vstd::prelude::*;

verus! {

/// The coefficients that the first `n` rows hold of a key, added in row order; none where no
/// row has the key.
pub open spec fn found<C: CoeffRepr>(terms: SoaTermSum<C>, k: Seq<bool>, n: int) -> Option<C>
    decreases n,
{
    if n <= 0 {
        None
    } else if terms.key(n - 1) == k {
        gate::merged(found(terms, k, n - 1), Some(terms.coeff_seq()[n - 1]))
    } else {
        found(terms, k, n - 1)
    }
}

/// The term of a key, all its rows together.
pub open spec fn term<C: CoeffRepr>(terms: SoaTermSum<C>, k: Seq<bool>) -> Option<C> {
    found(terms, k, terms.row_lists().len() as int)
}

/// No two rows have the same key.
pub open spec fn keys_differ<C: CoeffRepr>(terms: SoaTermSum<C>) -> bool {
    forall|i: int, j: int|
        0 <= i < j < terms.row_lists().len() ==> #[trigger] terms.key(i) != #[trigger] terms.key(j)
}

/// A key that no row has is not found.
proof fn lemma_not_found<C: CoeffRepr>(terms: SoaTermSum<C>, k: Seq<bool>, n: int)
    requires
        forall|i: int| 0 <= i < n ==> #[trigger] terms.key(i) != k,
    ensures
        found(terms, k, n) is None,
    decreases n,
{
    if n > 0 {
        assert(terms.key(n - 1) != k);
        lemma_not_found(terms, k, n - 1);
    }
}

/// A key that one row has is found there.
proof fn lemma_found_once<C: CoeffRepr>(terms: SoaTermSum<C>, k: Seq<bool>, n: int, i: int)
    requires
        0 <= i < n,
        terms.key(i) == k,
        forall|j: int| 0 <= j < n && j != i ==> #[trigger] terms.key(j) != k,
    ensures
        found(terms, k, n) == Some(terms.coeff_seq()[i]),
    decreases n,
{
    if i == n - 1 {
        lemma_not_found(terms, k, n - 1);
    } else {
        assert(terms.key(n - 1) != k);
        lemma_found_once(terms, k, n - 1, i);
    }
}

/// The row that a key stands in, if it stands in one.
pub open spec fn stands_in<C: CoeffRepr>(terms: SoaTermSum<C>, k: Seq<bool>, i: int) -> bool {
    0 <= i < terms.row_lists().len() && terms.key(i) == k
}

/// Where keys differ, the term of a key is the coefficient of its row.
pub proof fn law_rows_are_terms<C: CoeffRepr>(terms: SoaTermSum<C>, k: Seq<bool>)
    requires
        keys_differ(terms),
    ensures
        forall|i: int| #[trigger] stands_in(terms, k, i) ==> term(terms, k) == Some(
            terms.coeff_seq()[i],
        ),
        term(terms, k) is Some ==> exists|i: int| #[trigger] stands_in(terms, k, i),
{
    let n = terms.row_lists().len() as int;
    assert forall|i: int| #[trigger] stands_in(terms, k, i) implies term(terms, k) == Some(
        terms.coeff_seq()[i],
    ) by {
        assert forall|j: int| 0 <= j < n && j != i implies #[trigger] terms.key(j) != k by {
            assert(terms.key(i) == k);
            if j < i {
                assert(terms.key(j) != terms.key(i));
            } else {
                assert(terms.key(i) != terms.key(j));
            }
        }
        lemma_found_once(terms, k, n, i);
    }
    if !exists|i: int| #[trigger] stands_in(terms, k, i) {
        assert forall|i: int| 0 <= i < n implies #[trigger] terms.key(i) != k by {
            assert(!stands_in(terms, k, i));
        }
        lemma_not_found(terms, k, n);
    }
}

/// A key's rows among the first `n`, where another sum has the same keys there.
proof fn lemma_found_like<C: CoeffRepr>(
    terms: SoaTermSum<C>,
    other: SoaTermSum<C>,
    k: Seq<bool>,
    n: int,
)
    requires
        keys_differ(terms),
        0 <= n <= terms.row_lists().len(),
        forall|i: int| 0 <= i < n ==> #[trigger] other.key(i) == terms.key(i),
    ensures
        found(other, k, n) is Some == found(terms, k, n) is Some,
        forall|i: int|
            0 <= i < n && #[trigger] terms.key(i) == k ==> found(terms, k, n) == Some(
                terms.coeff_seq()[i],
            ) && found(other, k, n) == Some(other.coeff_seq()[i]),
        found(terms, k, n) is Some ==> exists|i: int| 0 <= i < n && #[trigger] terms.key(i) == k,
{
    assert forall|i: int| 0 <= i < n && #[trigger] terms.key(i) == k implies found(terms, k, n)
        == Some(terms.coeff_seq()[i]) && found(other, k, n) == Some(other.coeff_seq()[i]) by {
        assert forall|j: int| 0 <= j < n && j != i implies #[trigger] terms.key(j) != k by {
            if j < i {
                assert(terms.key(j) != terms.key(i));
            } else {
                assert(terms.key(i) != terms.key(j));
            }
        }
        assert forall|j: int| 0 <= j < n && j != i implies #[trigger] other.key(j) != k by {
            assert(terms.key(j) != k);
        }
        assert(other.key(i) == k);
        lemma_found_once(terms, k, n, i);
        lemma_found_once(other, k, n, i);
    }
    if !exists|i: int| 0 <= i < n && #[trigger] terms.key(i) == k {
        assert forall|j: int| 0 <= j < n implies #[trigger] other.key(j) != k by {
            assert(terms.key(j) != k);
        }
        lemma_not_found(terms, k, n);
        lemma_not_found(other, k, n);
    }
}

/// What the first `m` rows of the sum send to key `k`: row `i` is the only one that can.
spec fn sent<B: SoaBasis, C: CoeffRepr>(
    before: SoaTermSum<C>,
    g: Seq<bool>,
    param: C::GateParam,
    p: Seq<bool>,
    m: int,
) -> Option<C> {
    match found(before, p, m) {
        Some(c) => Some(c.sin_branch(param, B::phase_of(p, g))),
        None => None,
    }
}

/// The rows a branching rotation appends bring a key its partner's branch, once.
proof fn lemma_appended<B: SoaBasis, C: CoeffRepr>(
    before: SoaTermSum<C>,
    after: SoaTermSum<C>,
    g: Seq<bool>,
    param: C::GateParam,
    k: Seq<bool>,
    m: int,
    added: nat,
)
    requires
        keys_differ(before),
        exact::pairs_up::<B>(g, 2 * before.span()),
        k.len() == 2 * before.span(),
        0 <= m <= before.row_lists().len(),
        kernels::rotated::<B, C>(Turn::Branching, before, after, g, param, added),
    ensures
        found(
            after,
            k,
            before.row_lists().len() as int + sparse::rank(
                kernels::anti_flags::<B, C>(before, g),
                m,
            ),
        ) == gate::merged(
            found(after, k, before.row_lists().len() as int),
            if B::commuting(k, g) {
                None
            } else {
                sent::<B, C>(before, g, param, B::product_of(k, g), m)
            },
        ),
    decreases m,
{
    let n = before.row_lists().len() as int;
    let flags = kernels::anti_flags::<B, C>(before, g);
    let p = B::product_of(k, g);
    if m == 0 {
        assert(sparse::rank(flags, 0) == 0) by {
            assert(Seq::new(0, |x: int| flags[x] != 0) =~= Seq::<bool>::empty());
        }
    } else {
        let i = m - 1;
        lemma_appended::<B, C>(before, after, g, param, k, i, added);
        sparse::lemma_rank_step(flags, i);
        let at = n + sparse::rank(flags, i);
        let key = before.key(i);
        assert(key.len() == 2 * before.span());
        if flags[i] != 0 {
            assert(kernels::sprung::<B, C>(before, after, g, param, flags[i], i));
            assert(!B::commuting(key, g));
            if after.key(at) == k {
                assert(!B::commuting(k, g));
                assert(key == p);
                assert forall|j: int| 0 <= j < i implies #[trigger] before.key(j) != p by {
                    assert(before.key(j) != before.key(i));
                }
                lemma_not_found(before, p, i);
            } else if !B::commuting(k, g) {
                assert(key != p);
            }
        } else {
            assert(B::commuting(key, g));
            if !B::commuting(k, g) {
                assert(!B::commuting(p, g));
                assert(key != p);
            }
        }
    }
}

/// A branching rotation of a column store whose keys differ is the rotation of its terms, key
/// by key: a term that commutes with the generator stays, and one that anticommutes becomes its
/// cosine branch with its partner's sine branch added, each where it is there.
pub proof fn law_branching_by_key<B: SoaBasis, C: CoeffRepr>(
    before: SoaTermSum<C>,
    after: SoaTermSum<C>,
    g: Seq<bool>,
    param: C::GateParam,
    added: nat,
    k: Seq<bool>,
)
    requires
        keys_differ(before),
        exact::pairs_up::<B>(g, 2 * before.span()),
        k.len() == 2 * before.span(),
        kernels::rotated::<B, C>(Turn::Branching, before, after, g, param, added),
    ensures
        B::commuting(k, g) ==> term(after, k) == term(before, k),
        !B::commuting(k, g) ==> term(after, k) == ({
            let p = B::product_of(k, g);
            gate::merged(
                match term(before, k) {
                    Some(c) => Some(c.cos_branch(param, B::phase_of(k, g))),
                    None => None,
                },
                match term(before, p) {
                    Some(c) => Some(c.sin_branch(param, B::phase_of(p, g))),
                    None => None,
                },
            )
        }),
{
    let n = before.row_lists().len() as int;
    assert forall|i: int| 0 <= i < n implies #[trigger] after.key(i) == before.key(i) by {}
    lemma_found_like(before, after, k, n);
    lemma_appended::<B, C>(before, after, g, param, k, n, added);
    if term(before, k) is Some {
        let i = choose|i: int| 0 <= i < n && #[trigger] before.key(i) == k;
        assert(after.coeff_seq()[i] == kernels::turned_coeff::<B, C>(
            Turn::Branching,
            before,
            g,
            param,
            i,
        ));
    }
}

/// The string whose planes are `t`.
pub open spec fn string_of(t: Seq<bool>) -> Seq<bool> {
    Seq::new(
        t.len(),
        |i: int|
            if i % 2 == 0 {
                t[i / 2]
            } else {
                t[t.len() / 2 + i / 2]
            },
    )
}

/// Planes and strings stand for one another.
pub proof fn law_planes_are_strings<const W: usize>(t: Seq<bool>)
    requires
        t.len() == 64 * W,
    ensures
        plane_pauli::planes(string_of(t)) == t,
        string_of(plane_pauli::planes(t)) == t,
        string_of(t).len() == 64 * W,
        plane_pauli::planes(t).len() == 64 * W,
{
    assert(plane_pauli::planes(string_of(t)) =~= t);
    assert(string_of(plane_pauli::planes(t)) =~= t);
}

/// A string in planes and its product with the generator.
proof fn lemma_pair<const W: usize>(g: Seq<bool>, k: Seq<bool>)
    requires
        g.len() == 64 * W,
        k.len() == 64 * W,
        64 * W <= u32::MAX,
        !PlanePauli::commuting(k, g),
    ensures
        PlanePauli::product_of(k, g).len() == 64 * W,
        !PlanePauli::commuting(PlanePauli::product_of(k, g), g),
        PlanePauli::product_of(PlanePauli::product_of(k, g), g) == k,
        PlanePauli::phase_of(PlanePauli::product_of(k, g), g).imaginary()
            == -PlanePauli::phase_of(k, g).imaginary(),
        PlanePauli::phase_of(k, g).imaginary() != 0,
{
    law_planes_are_strings::<W>(g);
    law_planes_are_strings::<W>(k);
    let (gs, ks) = (string_of(g), string_of(k));
    let ps = bits::xor(gs, ks);
    plane_pauli::law_layouts_agree::<W>(ks, gs, 0, Seq::empty());
    plane_pauli::law_layouts_agree::<W>(ps, gs, 0, Seq::empty());
    law_planes_are_strings::<W>(ps);
    assert(PlanePauli::product_of(k, g) == plane_pauli::planes(ps));
    assert(PlanePauli::product_of(plane_pauli::planes(ps), g) == plane_pauli::planes(
        bits::xor(gs, ps),
    ));
    assert(<PauliBasis as Basis<W>>::anti(gs, ks));
    assert(group::multiplies::<PauliBasis, W>()) by {
        pauli::law_pauli_multiplies::<W>();
    }
    group::law_partners_have_opposite_phases::<PauliBasis, W>(gs, false, ks);
}

/// Pauli strings that anticommute with a generator come in pairs, and the two phases of a pair
/// are opposite: where one product carries the imaginary unit, the other carries its negative.
pub proof fn law_planes_pair_up<const W: usize>(g: Seq<bool>)
    requires
        g.len() == 64 * W,
        64 * W <= u32::MAX,
    ensures
        exact::pairs_up::<PlanePauli>(g, 64 * W as nat),
{
    assert forall|k: Seq<bool>|
        k.len() == 64 * W && !#[trigger] PlanePauli::commuting(k, g) implies ({
        let p = PlanePauli::product_of(k, g);
        &&& p.len() == 64 * W
        &&& !PlanePauli::commuting(p, g)
        &&& PlanePauli::product_of(p, g) == k
        &&& PlanePauli::phase_of(p, g).imaginary() == -PlanePauli::phase_of(k, g).imaginary()
        &&& PlanePauli::phase_of(k, g).imaginary() != 0
    }) by {
        lemma_pair::<W>(g, k);
    }
}

/// The column store holds the terms of the map.
pub open spec fn holds<C: CoeffRepr>(
    terms: SoaTermSum<C>,
    m: Map<Seq<bool>, C>,
    len: nat,
) -> bool {
    forall|k: Seq<bool>|
        k.len() == len ==> #[trigger] gate::get(m, k) == term(terms, plane_pauli::planes(k))
}

/// A branching rotation of the column store gives, key by key, what a rotation without
/// truncation makes of the map of its terms.
pub proof fn law_engines_agree<
    C: CoeffRepr,
    K: TruncationKernel<C::Real>,
    const W: usize,
>(
    gate: Gate<PauliBasis, C, K, W>,
    m: Map<Seq<bool>, C>,
    before: SoaTermSum<C>,
    after: SoaTermSum<C>,
    added: nat,
)
    requires
        64 * W <= u32::MAX,
        gate.gen.len() == 64 * W,
        !gate.negated,
        gate.cutoff.is_lossless(),
        C::half_turn(gate.param, C::tolerance_of()) is None,
        2 * before.span() == 64 * W,
        keys_differ(before),
        holds(before, m, 64 * W as nat),
        kernels::rotated::<PlanePauli, C>(
            Turn::Branching,
            before,
            after,
            plane_pauli::planes(gate.gen),
            gate.param,
            added,
        ),
    ensures
        holds(after, gate::turned(gate, m), 64 * W as nat),
{
    let g = plane_pauli::planes(gate.gen);
    pauli::law_pauli_multiplies::<W>();
    law_planes_are_strings::<W>(gate.gen);
    law_planes_pair_up::<W>(g);
    assert forall|k: Seq<bool>| k.len() == 64 * W implies #[trigger] gate::get(
        gate::turned(gate, m),
        k,
    ) == term(after, plane_pauli::planes(k)) by {
        let t = plane_pauli::planes(k);
        law_planes_are_strings::<W>(k);
        plane_pauli::law_layouts_agree::<W>(k, gate.gen, 0, Seq::empty());
        law_branching_by_key::<PlanePauli, C>(before, after, g, gate.param, added, t);
        assert(gate::get(m, k) == term(before, t));
        if PlanePauli::commuting(t, g) {
            gate::law_commuting_terms_stay(gate, m, k);
        } else {
            let p = gate.partner(k);
            plane_pauli::law_layouts_agree::<W>(p, gate.gen, 0, Seq::empty());
            gate::law_lossless_rotation(gate, m, k);
            assert(gate::get(m, p) == term(before, plane_pauli::planes(p)));
        }
    }
}

/// The two engines read the same expectation value off the same Pauli terms.
pub proof fn law_engines_expect_alike<C: CoeffRepr, const W: usize>(
    terms: SoaTermSum<C>,
    keys: Seq<Seq<bool>>,
    coeffs: Seq<C>,
    fock: Seq<u64>,
    n: int,
)
    requires
        64 * W <= u32::MAX,
        0 <= n <= keys.len(),
        keys.len() == coeffs.len(),
        keys.len() == terms.row_lists().len(),
        forall|i: int| 0 <= i < keys.len() ==> (#[trigger] keys[i]).len() == 64 * W,
        forall|i: int|
            0 <= i < keys.len() ==> #[trigger] terms.key(i) == plane_pauli::planes(keys[i]),
        terms.coeff_seq() == coeffs,
    ensures
        kernels::traced::<PlanePauli, C>(terms, fock, n) == termsum::traced_total::<
            PauliBasis,
            C,
            W,
        >(keys, coeffs, terms.units(), fock, n),
    decreases n,
{
    if n > 0 {
        law_engines_expect_alike::<C, W>(terms, keys, coeffs, fock, n - 1);
        assert(terms.key(n - 1) == plane_pauli::planes(keys[n - 1]));
        plane_pauli::law_layouts_agree::<W>(keys[n - 1], keys[n - 1], terms.units(), fock);
    }
}

/// Where coefficients add and turn exactly, the two engines turn amounts alike, whatever the
/// rotation is: a full or a half turn, a quarter turn in place, or any other.
pub proof fn law_engines_turn_amounts_alike<
    C: CoeffRepr,
    K: TruncationKernel<C::Real>,
    const W: usize,
>(
    gate: Gate<PauliBasis, C, K, W>,
    m: Map<Seq<bool>, C>,
    gx: Seq<u64>,
    gz: Seq<u64>,
    clifford_inplace: bool,
    before: SoaTermSum<C>,
    after: SoaTermSum<C>,
    added: nat,
    k: Seq<bool>,
)
    requires
        64 * W <= u32::MAX,
        gate.gen.len() == 64 * W,
        k.len() == 64 * W,
        !gate.negated,
        gate.cutoff.is_lossless(),
        2 * before.span() == 64 * W,
        sparse::key_of(gx, gz, before.span()) == plane_pauli::planes(gate.gen),
        exact::adds_exactly::<C>(),
        exact::turns_linearly::<C>(gate.param),
        exact::half_turn_exact::<C>(gate.param),
        clifford_inplace ==> exact::quarter_turn_exact::<C>(gate.param),
        kernels::turn_of::<PlanePauli, C>(
            gx,
            gz,
            before.span(),
            before.units(),
            gate.param,
            clifford_inplace,
        ) is Table ==> C::turn_sign(gate.param) is Some,
        forall|x: Seq<bool>|
            x.len() == 64 * W ==> #[trigger] map_laws::amount(m, x) == exact::amount(
                before,
                plane_pauli::planes(x),
            ),
        kernels::rotated::<PlanePauli, C>(
            kernels::turn_of::<PlanePauli, C>(
                gx,
                gz,
                before.span(),
                before.units(),
                gate.param,
                clifford_inplace,
            ),
            before,
            after,
            sparse::key_of(gx, gz, before.span()),
            gate.param,
            added,
        ),
    ensures
        exact::amount(after, plane_pauli::planes(k)) == map_laws::amount(
            gate::turned(gate, m),
            k,
        ),
{
    let g = plane_pauli::planes(gate.gen);
    let t = plane_pauli::planes(k);
    let p = bits::xor(gate.gen, k);
    pauli::law_pauli_multiplies::<W>();
    law_planes_are_strings::<W>(gate.gen);
    law_planes_are_strings::<W>(k);
    law_planes_pair_up::<W>(g);
    plane_pauli::law_layouts_agree::<W>(k, gate.gen, 0, Seq::empty());
    plane_pauli::law_layouts_agree::<W>(p, gate.gen, 0, Seq::empty());
    exact::law_rotation_acts::<PlanePauli, C>(
        gx,
        gz,
        gate.param,
        clifford_inplace,
        before,
        after,
        added,
        t,
    );
    map_laws::law_rotation_turns_amounts(gate, m, k);
    assert(map_laws::amount(m, k) == exact::amount(before, t));
    assert(map_laws::amount(m, p) == exact::amount(before, plane_pauli::planes(p)));
}

} // verus!
