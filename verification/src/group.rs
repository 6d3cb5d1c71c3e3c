//! The multiplicative structure of a basis: signed strings, their products, and what follows
//! from the laws every operator basis obeys.

use crate::basis;
use crate::basis::Basis;
use crate::bits;
use vstd::prelude::*;

verus! {

/// A string times a power of the imaginary unit.
pub type Element = (Seq<bool>, int);

/// The product of two elements.
pub open spec fn times<A: Basis<W>, const W: usize>(a: Element, b: Element) -> Element {
    (bits::xor(a.0, b.0), a.1 + b.1 + A::product_quarters(a.0, b.0))
}

/// Two elements are the same operator: the same string, and exponents equal modulo four.
pub open spec fn same(a: Element, b: Element) -> bool {
    a.0 == b.0 && (a.1 - b.1) % 4 == 0
}

/// Regrouping a product of three strings costs nothing.
pub open spec fn regroups<A: Basis<W>, const W: usize>(
    a: Seq<bool>,
    b: Seq<bool>,
    c: Seq<bool>,
) -> bool {
    a.len() == 64 * W && b.len() == 64 * W && c.len() == 64 * W ==> (A::product_quarters(a, b)
        + A::product_quarters(bits::xor(a, b), c) - A::product_quarters(b, c)
        - A::product_quarters(a, bits::xor(b, c))) % 4 == 0
}

/// The empty string multiplies as one, and a string is its own inverse.
pub open spec fn squares_to_one<A: Basis<W>, const W: usize>(a: Seq<bool>) -> bool {
    a.len() == 64 * W ==> A::product_quarters(bits::none(64 * W as nat), a) % 4 == 0
        && A::product_quarters(a, bits::none(64 * W as nat)) % 4 == 0 && A::product_quarters(a, a)
        % 4 == 0
}

/// Two strings commute or anticommute, as the basis says.
pub open spec fn commutes_or_anti<A: Basis<W>, const W: usize>(a: Seq<bool>, b: Seq<bool>) -> bool {
    a.len() == 64 * W && b.len() == 64 * W ==> (A::product_quarters(a, b) - A::product_quarters(
        b,
        a,
    ) - (if A::anti(a, b) {
        2int
    } else {
        0int
    })) % 4 == 0
}

/// The strings of a basis multiply as Hermitian, self-inverse operators that commute or
/// anticommute.
pub open spec fn multiplies<A: Basis<W>, const W: usize>() -> bool {
    &&& forall|a: Seq<bool>, b: Seq<bool>, c: Seq<bool>| #[trigger] regroups::<A, W>(a, b, c)
    &&& forall|a: Seq<bool>| #[trigger] squares_to_one::<A, W>(a)
    &&& forall|a: Seq<bool>, b: Seq<bool>| #[trigger] commutes_or_anti::<A, W>(a, b)
}

/// Exclusive or of strings: associative, commutative, with the empty string as unit.
pub proof fn lemma_xor(a: Seq<bool>, b: Seq<bool>, c: Seq<bool>, n: nat)
    requires
        a.len() == n,
        b.len() == n,
        c.len() == n,
    ensures
        bits::xor(bits::xor(a, b), c) == bits::xor(a, bits::xor(b, c)),
        bits::xor(a, b) == bits::xor(b, a),
        bits::xor(a, a) == bits::none(n),
        bits::xor(bits::none(n), a) == a,
        bits::xor(a, bits::none(n)) == a,
        bits::xor(a, bits::xor(a, b)) == b,
{
    assert(bits::xor(bits::xor(a, b), c) =~= bits::xor(a, bits::xor(b, c)));
    assert(bits::xor(a, b) =~= bits::xor(b, a));
    assert(bits::xor(a, a) =~= bits::none(n));
    assert(bits::xor(bits::none(n), a) =~= a);
    assert(bits::xor(a, bits::none(n)) =~= a);
    assert(bits::xor(a, bits::xor(a, b)) =~= b);
}

/// The product law of three strings.
pub proof fn lemma_quarters_assoc<A: Basis<W>, const W: usize>(
    a: Seq<bool>,
    b: Seq<bool>,
    c: Seq<bool>,
)
    requires
        multiplies::<A, W>(),
        a.len() == 64 * W,
        b.len() == 64 * W,
        c.len() == 64 * W,
    ensures
        (A::product_quarters(a, b) + A::product_quarters(bits::xor(a, b), c)
            - A::product_quarters(b, c) - A::product_quarters(a, bits::xor(b, c))) % 4 == 0,
{
    assert(regroups::<A, W>(a, b, c));
}

/// The exponents a string has with the empty string and with itself.
pub proof fn lemma_quarters_unit<A: Basis<W>, const W: usize>(a: Seq<bool>)
    requires
        multiplies::<A, W>(),
        a.len() == 64 * W,
    ensures
        A::product_quarters(bits::none(64 * W as nat), a) % 4 == 0,
        A::product_quarters(a, bits::none(64 * W as nat)) % 4 == 0,
        A::product_quarters(a, a) % 4 == 0,
{
    assert(squares_to_one::<A, W>(a));
}

/// The exponents of a product taken both ways.
pub proof fn lemma_quarters_commute<A: Basis<W>, const W: usize>(a: Seq<bool>, b: Seq<bool>)
    requires
        multiplies::<A, W>(),
        a.len() == 64 * W,
        b.len() == 64 * W,
    ensures
        (A::product_quarters(a, b) - A::product_quarters(b, a) - (if A::anti(a, b) {
            2int
        } else {
            0int
        })) % 4 == 0,
{
    assert(commutes_or_anti::<A, W>(a, b));
}

/// Products may be regrouped.
pub proof fn lemma_assoc<A: Basis<W>, const W: usize>(a: Element, b: Element, c: Element)
    requires
        multiplies::<A, W>(),
        a.0.len() == 64 * W,
        b.0.len() == 64 * W,
        c.0.len() == 64 * W,
    ensures
        same(
            times::<A, W>(times::<A, W>(a, b), c),
            times::<A, W>(a, times::<A, W>(b, c)),
        ),
{
    lemma_xor(a.0, b.0, c.0, 64 * W as nat);
    lemma_quarters_assoc::<A, W>(a.0, b.0, c.0);
}

/// A factor may be replaced by the same operator.
pub proof fn lemma_times_same<A: Basis<W>, const W: usize>(
    a: Element,
    b: Element,
    c: Element,
    d: Element,
)
    requires
        same(a, c),
        same(b, d),
    ensures
        same(times::<A, W>(a, b), times::<A, W>(c, d)),
{
}

/// Commuting two factors costs a sign where they anticommute.
pub proof fn lemma_commute<A: Basis<W>, const W: usize>(a: Element, b: Element)
    requires
        multiplies::<A, W>(),
        a.0.len() == 64 * W,
        b.0.len() == 64 * W,
    ensures
        same(
            times::<A, W>(a, b),
            (
                times::<A, W>(b, a).0,
                times::<A, W>(b, a).1 + (if A::anti(a.0, b.0) {
                    2int
                } else {
                    0int
                }),
            ),
        ),
{
    lemma_xor(a.0, b.0, a.0, 64 * W as nat);
    lemma_quarters_commute::<A, W>(a.0, b.0);
}

/// Anticommutation is symmetric.
pub proof fn lemma_anti_symmetric<A: Basis<W>, const W: usize>(a: Seq<bool>, b: Seq<bool>)
    requires
        multiplies::<A, W>(),
        a.len() == 64 * W,
        b.len() == 64 * W,
    ensures
        A::anti(a, b) == A::anti(b, a),
{
    lemma_quarters_commute::<A, W>(a, b);
    lemma_quarters_commute::<A, W>(b, a);
}

/// No string anticommutes with itself or with the empty string.
pub proof fn lemma_anti_never<A: Basis<W>, const W: usize>(a: Seq<bool>)
    requires
        multiplies::<A, W>(),
        a.len() == 64 * W,
    ensures
        !A::anti(a, a),
        !A::anti(bits::none(64 * W as nat), a),
        !A::anti(a, bits::none(64 * W as nat)),
{
    let none = bits::none(64 * W as nat);
    lemma_quarters_unit::<A, W>(a);
    lemma_quarters_commute::<A, W>(a, a);
    lemma_quarters_commute::<A, W>(none, a);
    lemma_anti_symmetric::<A, W>(none, a);
}

/// Anticommutation is additive.
pub proof fn lemma_anti_additive<A: Basis<W>, const W: usize>(
    g: Seq<bool>,
    a: Seq<bool>,
    b: Seq<bool>,
)
    requires
        multiplies::<A, W>(),
        g.len() == 64 * W,
        a.len() == 64 * W,
        b.len() == 64 * W,
    ensures
        A::anti(g, bits::xor(a, b)) == (A::anti(g, a) != A::anti(g, b)),
{
    let n = 64 * W as nat;
    let c = bits::xor(a, b);
    lemma_xor(g, a, b, n);
    lemma_xor(a, g, b, n);
    lemma_xor(b, g, a, n);
    // g (a b) == (g a) b, (a g) b == a (g b), (a b) g == a (b g)
    lemma_quarters_assoc::<A, W>(g, a, b);
    lemma_quarters_assoc::<A, W>(a, g, b);
    lemma_quarters_assoc::<A, W>(a, b, g);
    lemma_quarters_commute::<A, W>(g, c);
    lemma_quarters_commute::<A, W>(g, a);
    lemma_quarters_commute::<A, W>(g, b);
}

/// Strings anticommute exactly when their product is imaginary.
pub proof fn lemma_anti_imaginary<A: Basis<W>, const W: usize>(a: Seq<bool>, b: Seq<bool>)
    requires
        multiplies::<A, W>(),
        a.len() == 64 * W,
        b.len() == 64 * W,
    ensures
        A::anti(a, b) == (A::product_quarters(a, b) % 2 == 1),
{
    let n = 64 * W as nat;
    let c = bits::xor(a, b);
    lemma_xor(a, b, a, n);
    lemma_xor(b, a, b, n);
    lemma_xor(c, a, b, n);
    // b (b a) == a
    assert((A::product_quarters(b, a) + A::product_quarters(b, c)) % 4 == 0) by {
        lemma_quarters_assoc::<A, W>(b, b, a);
        lemma_quarters_unit::<A, W>(a);
        lemma_quarters_unit::<A, W>(b);
    }
    // (a b) (a b) == a (b (a b))
    assert((A::product_quarters(a, b) - A::product_quarters(b, c)) % 4 == 0) by {
        lemma_quarters_assoc::<A, W>(a, b, c);
        lemma_quarters_unit::<A, W>(a);
        lemma_quarters_unit::<A, W>(c);
    }
    lemma_quarters_commute::<A, W>(a, b);
}

/// A string that anticommutes with a generator and its partner, the product of the two, carry
/// opposite phases: where one product with the generator is imaginary upwards, the other is
/// downwards. Negating the generator turns both round.
pub proof fn law_partners_have_opposite_phases<A: Basis<W>, const W: usize>(
    g: Seq<bool>,
    negated: bool,
    k: Seq<bool>,
)
    requires
        multiplies::<A, W>(),
        g.len() == 64 * W,
        k.len() == 64 * W,
        A::anti(g, k),
    ensures
        A::anti(g, bits::xor(g, k)),
        bits::xor(g, bits::xor(g, k)) == k,
        basis::product_phase::<A, W>(g, negated, k).imaginary() != 0,
        basis::product_phase::<A, W>(g, negated, bits::xor(g, k)).imaginary()
            == -basis::product_phase::<A, W>(g, negated, k).imaginary(),
        basis::product_phase::<A, W>(g, !negated, k).imaginary() == -basis::product_phase::<A, W>(
            g,
            negated,
            k,
        ).imaginary(),
{
    lemma_xor(g, k, g, 64 * W as nat);
    lemma_anti_additive::<A, W>(g, g, k);
    lemma_anti_never::<A, W>(g);
    lemma_anti_imaginary::<A, W>(g, k);
    lemma_quarters_assoc::<A, W>(g, g, k);
    lemma_quarters_unit::<A, W>(g);
    lemma_quarters_unit::<A, W>(k);
    let q = A::product_quarters(g, k);
    let r = A::product_quarters(g, bits::xor(g, k));
    assert((q + r) % 4 == 0);
    assert(q % 2 == 1);
}

} // verus!
