//! A frame of label tables conjugates as the rotations that went into it do.

use crate::basis;
use crate::basis::Basis;
use crate::bits;
use crate::clifford_frame;
use crate::clifford_frame::{CliffordFrame, LabelTable};
use crate::coeff::CoeffRepr;
use crate::group;
use crate::pauli::PauliBasis;
use crate::pauli_laws;
use crate::sums;
use vstd::prelude::*;

verus! {

/// A string on one qubit multiplies with another as the two letters there do.
proof fn lemma_one_letter(g: Seq<bool>, m: Seq<bool>, q: int, n: int)
    requires
        0 <= q,
        forall|k: int| 0 <= k < n && k != q ==> (#[trigger] pauli_laws::letter(g, k)) is Identity,
    ensures
        pauli_laws::quarters_to(g, m, n) == (if q < n {
            pauli_laws::letter_quarters(pauli_laws::letter(g, q), pauli_laws::letter(m, q))
        } else {
            0
        }),
    decreases n,
{
    if n > 0 {
        lemma_one_letter(g, m, q, n - 1);
        if n - 1 != q {
            assert(pauli_laws::letter(g, n - 1) is Identity);
        }
    }
}

/// The letters of a string on one qubit.
proof fn lemma_lone_letters(len: nat, q: int, l: int, k: int)
    requires
        0 <= q,
        0 <= k,
        2 * q + 1 < len,
        2 * k + 1 < len,
        0 <= l < 4,
    ensures
        k != q ==> pauli_laws::letter(clifford_frame::lone_label(len, q, l), k) is Identity,
        clifford_frame::label(clifford_frame::lone_label(len, q, l), q) == l,
{
    assert((2 * k) / 2 == k && (2 * k) % 2 == 0 && (2 * k + 1) / 2 == k && (2 * k + 1) % 2 == 1);
    assert((2 * q) / 2 == q && (2 * q) % 2 == 0 && (2 * q + 1) / 2 == q && (2 * q + 1) % 2 == 1);
}

/// What a generator on one qubit does to a string it does to the string's letter there.
proof fn lemma_acts_on_letter<const W: usize>(g: Seq<bool>, m: Seq<bool>, q: int)
    requires
        0 <= q,
        2 * q + 1 < 64 * W,
        m.len() == 64 * W,
        g == clifford_frame::lone_label(64 * W as nat, q, clifford_frame::label(g, q)),
    ensures
        ({
            let lone = clifford_frame::lone_label(64 * W as nat, q, clifford_frame::label(m, q));
            &&& <PauliBasis as Basis<W>>::anti(g, m) == <PauliBasis as Basis<W>>::anti(g, lone)
            &&& (<PauliBasis as Basis<W>>::product_quarters(g, m) - <PauliBasis as Basis<
                W,
            >>::product_quarters(g, lone)) % 4 == 0
            &&& clifford_frame::label(bits::xor(g, lone), q) == clifford_frame::label(
                bits::xor(g, m),
                q,
            )
        }),
{
    let len = 64 * W as nat;
    let n = 32 * W as int;
    let l = clifford_frame::label(m, q);
    let lone = clifford_frame::lone_label(len, q, l);
    assert forall|k: int| 0 <= k < n && k != q implies (#[trigger] pauli_laws::letter(
        g,
        k,
    )) is Identity by {
        lemma_lone_letters(len, q, clifford_frame::label(g, q), k);
    }
    lemma_lone_letters(len, q, l, q);
    assert((2 * q) / 2 == q && (2 * q) % 2 == 0 && (2 * q + 1) / 2 == q && (2 * q + 1) % 2 == 1);
    assert(pauli_laws::letter(lone, q) == pauli_laws::letter(m, q));
    lemma_one_letter(g, m, q, n);
    lemma_one_letter(g, lone, q, n);
    pauli_laws::law_products_go_by_letter::<W>(g, m);
    pauli_laws::law_products_go_by_letter::<W>(g, lone);
}

/// A table for a quarter turn about a generator on its qubit sends a label that commutes with it
/// to itself, and one that anticommutes to that of the product, with the sign of the turn and of
/// the product's phase.
pub proof fn law_table_turns_labels<A: Basis<W>, C: CoeffRepr, const W: usize>(
    g: Seq<bool>,
    q: int,
    param: C::GateParam,
    t: LabelTable,
    l: int,
)
    requires
        0 <= l < 4,
        clifford_frame::turned_label::<A, C, W>(g, q, param, l) == Some(clifford_frame::entry(t, l)),
    ensures
        ({
            let m = clifford_frame::lone_label(64 * W as nat, q, l);
            if A::anti(g, m) {
                &&& C::turn_sign(param) is Some
                &&& clifford_frame::entry(t, l).0 == clifford_frame::label(bits::xor(g, m), q)
                &&& clifford_frame::entry(t, l).1 == C::turn_sign(param)->0 * -basis::phase_from(
                    A::product_quarters(g, m),
                ).imaginary()
            } else {
                clifford_frame::entry(t, l) == (l, 1int)
            }
        }),
{
}

/// Only one table gives a sign.
proof fn lemma_one_sign(
    k: int,
    f: spec_fn(int, int) -> (int, int),
    m: Seq<bool>,
    q: int,
)
    requires
        0 <= q,
        forall|x: int| 0 <= x < k && x != q ==> (#[trigger] f(x, clifford_frame::label(m, x))).1 == 1,
    ensures
        clifford_frame::relabelled_sign(k, f, m) == (if q < k {
            f(q, clifford_frame::label(m, q)).1
        } else {
            1
        }),
    decreases k,
{
    if k > 0 {
        lemma_one_sign(k - 1, f, m, q);
        let s = f(k - 1, clifford_frame::label(m, k - 1)).1;
        if k - 1 != q {
            assert(s == 1);
        } else {
            assert(1 * s == s);
        }
        assert(clifford_frame::relabelled_sign(k, f, m) == clifford_frame::relabelled_sign(
            k - 1,
            f,
            m,
        ) * s);
        if s == 1 {
            assert(clifford_frame::relabelled_sign(k - 1, f, m) * 1
                == clifford_frame::relabelled_sign(k - 1, f, m));
        }
    }
}

/// A frame into which one quarter turn about a single-qubit generator went conjugates every
/// Pauli string as the rotation does: it leaves a string that commutes with the generator alone,
/// and sends one that anticommutes to the product, signed by the turn and the product's phase.
pub proof fn law_frame_of_a_turn<C: CoeffRepr, const W: usize>(
    frame: CliffordFrame,
    g: Seq<bool>,
    q: int,
    param: C::GateParam,
    m: Seq<bool>,
)
    requires
        frame.wf(),
        0 <= q < frame.view_tables().len(),
        2 * q + 1 < 64 * W,
        m.len() == 64 * W,
        clifford_frame::within(m, frame.view_tables().len() as int),
        g == clifford_frame::lone_label(64 * W as nat, q, clifford_frame::label(g, q)),
        forall|k: int|
            0 <= k < frame.view_tables().len() && k != q ==> clifford_frame::idle(
                #[trigger] frame.view_tables()[k],
            ),
        forall|l: int|
            0 <= l < 4 ==> clifford_frame::turned_label::<PauliBasis, C, W>(g, q, param, l) == Some(
                #[trigger] clifford_frame::entry(frame.view_tables()[q], l),
            ),
    ensures
        frame.sent(clifford_frame::forward(frame.view_tables()), m) == (if <PauliBasis as Basis<
            W,
        >>::anti(g, m) {
            (
                bits::xor(g, m),
                C::turn_sign(param)->0 * -basis::phase_from(
                    <PauliBasis as Basis<W>>::product_quarters(g, m),
                ).imaginary(),
            )
        } else {
            (m, 1int)
        }),
{
    let tables = frame.view_tables();
    let n = tables.len() as int;
    let f = clifford_frame::forward(tables);
    let l = clifford_frame::label(m, q);
    let t = tables[q];
    let len = 64 * W as nat;
    let lone = clifford_frame::lone_label(len, q, l);
    lemma_acts_on_letter::<W>(g, m, q);
    law_table_turns_labels::<PauliBasis, C, W>(g, q, param, t, l);
    let anti = <PauliBasis as Basis<W>>::anti(g, m);
    let image = if anti {
        bits::xor(g, m)
    } else {
        m
    };
    assert((2 * q) / 2 == q && (2 * q) % 2 == 0 && (2 * q + 1) / 2 == q && (2 * q + 1) % 2 == 1);
    assert(clifford_frame::label(image, q) == clifford_frame::entry(t, l).0);
    if anti {
        // The generator is not the identity there, so the table moves the label.
        let lg = clifford_frame::label(g, q);
        if lg == 0 {
            assert(g =~= bits::none(len));
            crate::pauli::law_pauli_multiplies::<W>();
            group::lemma_anti_never::<PauliBasis, W>(m);
        }
        assert(clifford_frame::label(bits::xor(g, m), q) != l);
        assert(!clifford_frame::idle(tables[q]));
        assert(!frame.trivial());
    }
    if !frame.trivial() {
        let out = clifford_frame::relabelled(n, f, m);
        assert forall|p: int| 0 <= p < m.len() implies #[trigger] out[p] == image[p] by {
            let k = p / 2;
            if k < n && k != q {
                assert(clifford_frame::idle(tables[k]));
                assert(clifford_frame::entry(tables[k], clifford_frame::label(m, k)) == (
                    clifford_frame::label(m, k),
                    1int,
                ));
                assert(p == 2 * k || p == 2 * k + 1);
                if anti {
                    assert(!g[p]);
                }
            } else if k == q {
                assert(p == 2 * q || p == 2 * q + 1);
            } else {
                assert(!m[p]);
                if anti {
                    assert(!g[p]);
                }
            }
        }
        assert(out =~= image);
        let c = frame.covered(m.len() as int);
        assert forall|x: int| 0 <= x < c && x != q implies (#[trigger] f(
            x,
            clifford_frame::label(m, x),
        )).1 == 1 by {
            assert(clifford_frame::idle(tables[x]));
            assert(clifford_frame::entry(tables[x], clifford_frame::label(m, x)) == (
                clifford_frame::label(m, x),
                1int,
            ));
        }
        lemma_one_sign(c, f, m, q);
    }
}

} // verus!
