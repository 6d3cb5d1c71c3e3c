//! Pauli strings, qubit by qubit: products, commutation, weights and traces of strings are made
//! of those of their letters.

use crate::basis::Basis;
use crate::bits;
use crate::group;
use crate::pauli;
use crate::pauli::PauliBasis;
use crate::sums;
use vstd::prelude::*;

verus! {

/// A Pauli matrix.
pub ghost enum Letter {
    Identity,
    X,
    Y,
    Z,
}

/// The letter a string has on a qubit: its bits say X, Z, or both, which is Y.
pub open spec fn letter(m: Seq<bool>, q: int) -> Letter {
    if m[2 * q] {
        if m[2 * q + 1] {
            Letter::Y
        } else {
            Letter::X
        }
    } else if m[2 * q + 1] {
        Letter::Z
    } else {
        Letter::Identity
    }
}

/// The exponent of the imaginary unit in a product of two Pauli matrices: one going round from X
/// to Y to Z to X, three going the other way, none where they are equal or one is the identity.
pub open spec fn letter_quarters(a: Letter, b: Letter) -> nat {
    match (a, b) {
        (Letter::X, Letter::Y) => 1,
        (Letter::Y, Letter::Z) => 1,
        (Letter::Z, Letter::X) => 1,
        (Letter::Y, Letter::X) => 3,
        (Letter::Z, Letter::Y) => 3,
        (Letter::X, Letter::Z) => 3,
        _ => 0,
    }
}

/// The exponents of the letters' products, over the first `n` qubits.
pub open spec fn quarters_to(a: Seq<bool>, b: Seq<bool>, n: int) -> nat {
    sums::sum_to(|q: int| letter_quarters(letter(a, q), letter(b, q)), n)
}

/// One more entry counts if it is true.
proof fn lemma_count(s: Seq<bool>, n: int)
    requires
        0 <= n < s.len(),
    ensures
        bits::ones(s.take(n + 1)) == bits::ones(s.take(n)) + (if s[n] {
            1nat
        } else {
            0nat
        }),
        bits::ones(s.take(0)) == 0,
        bits::ones(s.take(s.len() as int)) == bits::ones(s),
{
    assert(s.take(n + 1).drop_last() =~= s.take(n));
    assert(s.take(0) =~= Seq::<bool>::empty());
    assert(s.take(s.len() as int) =~= s);
}

/// The counts behind a product's exponent, over the first `n` qubits.
proof fn lemma_quarters_to(a: Seq<bool>, b: Seq<bool>, n: int)
    requires
        a.len() == b.len(),
        0 <= n <= a.len() / 2,
    ensures
        ({
            let c = bits::xor(a, b);
            let count = bits::ones(
                bits::both(pauli::x_plane(a), pauli::z_plane(a)).take(n),
            ) + bits::ones(bits::both(pauli::x_plane(b), pauli::z_plane(b)).take(n)) - bits::ones(
                bits::both(pauli::x_plane(c), pauli::z_plane(c)).take(n),
            ) + 2 * bits::ones(bits::both(pauli::z_plane(a), pauli::x_plane(b)).take(n));
            (count - quarters_to(a, b, n)) % 4 == 0
        }),
    decreases n,
{
    let c = bits::xor(a, b);
    let ya = bits::both(pauli::x_plane(a), pauli::z_plane(a));
    let yb = bits::both(pauli::x_plane(b), pauli::z_plane(b));
    let yc = bits::both(pauli::x_plane(c), pauli::z_plane(c));
    let zx = bits::both(pauli::z_plane(a), pauli::x_plane(b));
    if n == 0 {
        assert(ya.take(0) =~= Seq::<bool>::empty());
        assert(yb.take(0) =~= Seq::<bool>::empty());
        assert(yc.take(0) =~= Seq::<bool>::empty());
        assert(zx.take(0) =~= Seq::<bool>::empty());
    } else {
        let q = n - 1;
        lemma_quarters_to(a, b, q);
        lemma_count(ya, q);
        lemma_count(yb, q);
        lemma_count(yc, q);
        lemma_count(zx, q);
        let (ax, az, bx, bz) = (a[2 * q], a[2 * q + 1], b[2 * q], b[2 * q + 1]);
        assert(ya[q] == (ax && az) && yb[q] == (bx && bz) && zx[q] == (az && bx));
        assert(yc[q] == ((ax != bx) && (az != bz)));
        let l = letter_quarters(letter(a, q), letter(b, q));
        assert(quarters_to(a, b, n) == quarters_to(a, b, q) + l);
    }
}

/// The product of two Pauli strings carries the imaginary unit as often as the products of their
/// letters do, and they anticommute exactly where that is an odd number of times.
pub proof fn law_products_go_by_letter<const W: usize>(a: Seq<bool>, b: Seq<bool>)
    requires
        a.len() == 64 * W,
        b.len() == 64 * W,
    ensures
        (<PauliBasis as Basis<W>>::product_quarters(a, b) - quarters_to(a, b, 32 * W as int)) % 4
            == 0,
        <PauliBasis as Basis<W>>::anti(a, b) == (quarters_to(a, b, 32 * W as int) % 2 == 1),
{
    let n = 32 * W as int;
    let c = bits::xor(a, b);
    lemma_quarters_to(a, b, n);
    let ya = bits::both(pauli::x_plane(a), pauli::z_plane(a));
    let yb = bits::both(pauli::x_plane(b), pauli::z_plane(b));
    let yc = bits::both(pauli::x_plane(c), pauli::z_plane(c));
    let zx = bits::both(pauli::z_plane(a), pauli::x_plane(b));
    assert(ya.take(n) =~= ya && yb.take(n) =~= yb && yc.take(n) =~= yc && zx.take(n) =~= zx);
    pauli::law_pauli_multiplies::<W>();
    group::lemma_anti_imaginary::<PauliBasis, W>(a, b);
}

/// Counting is adding ones.
proof fn lemma_ones_sum(s: Seq<bool>, f: spec_fn(int) -> nat, n: int)
    requires
        0 <= n <= s.len(),
        forall|i: int|
            0 <= i < n ==> #[trigger] f(i) == (if s[i] {
                1nat
            } else {
                0nat
            }),
    ensures
        bits::ones(s.take(n)) == sums::sum_to(f, n),
    decreases n,
{
    if n > 0 {
        lemma_ones_sum(s, f, n - 1);
        lemma_count(s, n - 1);
        assert(f(n - 1) == (if s[n - 1] {
            1nat
        } else {
            0nat
        }));
    } else {
        assert(s.take(0) =~= Seq::<bool>::empty());
    }
}

/// The weight of a string is the number of its letters other than the identity.
pub proof fn law_weight_counts_letters<const W: usize>(m: Seq<bool>, n_units: nat)
    requires
        m.len() == 64 * W,
        64 * W <= u32::MAX,
    ensures
        <PauliBasis as Basis<W>>::weight_of(m, n_units) == sums::sum_to(
            |q: int|
                if letter(m, q) is Identity {
                    0nat
                } else {
                    1nat
                },
            32 * W as int,
        ),
{
    let any = bits::pair_any(m);
    let f = |q: int|
        if letter(m, q) is Identity {
            0nat
        } else {
            1nat
        };
    lemma_ones_sum(any, f, 32 * W as int);
    assert(any.take(32 * W as int) =~= any);
    bits::lemma_ones_bound(any);
}

/// A string with an X or a Y has no diagonal: its trace is zero. Otherwise its trace is the sign
/// of its Zs on the occupied qubits, minus where they are odd in number.
pub proof fn law_trace_goes_by_letter<const W: usize>(
    m: Seq<bool>,
    n_units: nat,
    fock: Seq<u64>,
    q: int,
)
    requires
        m.len() == 64 * W,
        0 <= q < 32 * W,
    ensures
        letter(m, q) is X || letter(m, q) is Y ==> <PauliBasis as Basis<W>>::trace_of(
            m,
            n_units,
            fock,
        ) == 0,
        (forall|k: int|
            0 <= k < 32 * W ==> (#[trigger] letter(m, k)) is Identity || letter(m, k) is Z)
            ==> <PauliBasis as Basis<W>>::trace_of(m, n_units, fock) == (if sums::sum_to(
            |k: int|
                if letter(m, k) is Z && bits::bit_at(fock, k) {
                    1nat
                } else {
                    0nat
                },
            32 * W as int,
        ) % 2 == 1 {
            -1
        } else {
            1int
        }),
{
    let xs = pauli::x_plane(m);
    bits::lemma_ones_none(xs);
    if letter(m, q) is X || letter(m, q) is Y {
        assert(xs[q]);
    }
    if forall|k: int|
        0 <= k < 32 * W ==> (#[trigger] letter(m, k)) is Identity || letter(m, k) is Z {
        assert forall|k: int| 0 <= k < xs.len() implies !#[trigger] xs[k] by {
            assert(letter(m, k) is Identity || letter(m, k) is Z);
        }
        let zs = Seq::new(m.len() / 2, |k: int| m[2 * k + 1] && bits::bit_at(fock, k));
        let f = |k: int|
            if letter(m, k) is Z && bits::bit_at(fock, k) {
                1nat
            } else {
                0nat
            };
        assert forall|k: int| 0 <= k < 32 * W implies #[trigger] f(k) == (if zs[k] {
            1nat
        } else {
            0nat
        }) by {
            assert(letter(m, k) is Identity || letter(m, k) is Z);
        }
        lemma_ones_sum(zs, f, 32 * W as int);
        assert(zs.take(32 * W as int) =~= zs);
    }
}

} // verus!
