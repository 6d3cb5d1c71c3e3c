//! What an operator basis must provide: commutation, products and weights of its strings.

use crate::bits;
use crate::bits::Key;
use crate::strings::BasisString;
use vstd::prelude::*;

verus! {

/// Which algebra a basis string belongs to.
#[derive(Clone, Copy, PartialEq, Eq, Debug, Structural)]
pub enum BasisKind {
    Pauli,
    Majorana,
}

impl BasisKind {
    /// The plugin interface's encoding of this kind.
    pub open spec fn code(self) -> u32 {
        match self {
            BasisKind::Pauli => 0,
            BasisKind::Majorana => 1,
        }
    }

    /// The plugin interface's encoding of this kind.
    pub fn as_u32(self) -> (n: u32)
        ensures
            n == self.code(),
    {
        match self {
            BasisKind::Pauli => 0,
            BasisKind::Majorana => 1,
        }
    }

    /// The kind a plugin interface code stands for.
    pub fn from_u32(code: u32) -> (r: Option<BasisKind>)
        ensures
            match r {
                Some(k) => k.code() == code,
                None => code > 1,
            },
    {
        if code == 0 {
            Some(BasisKind::Pauli)
        } else if code == 1 {
            Some(BasisKind::Majorana)
        } else {
            None
        }
    }
}

/// A power of the imaginary unit: the factor a product of two basis strings carries.
#[derive(Clone, Copy, PartialEq, Eq, Debug, Structural)]
pub enum Phase {
    One,
    I,
    MinusOne,
    MinusI,
}

/// The power of the imaginary unit with exponent `q`.
pub open spec fn phase_from(q: int) -> Phase {
    let r = q % 4;
    if r == 0 {
        Phase::One
    } else if r == 1 {
        Phase::I
    } else if r == 2 {
        Phase::MinusOne
    } else {
        Phase::MinusI
    }
}

impl Phase {
    /// The exponent, from 0 to 3.
    pub open spec fn quarters(self) -> int {
        match self {
            Phase::One => 0,
            Phase::I => 1,
            Phase::MinusOne => 2,
            Phase::MinusI => 3,
        }
    }

    /// The imaginary part.
    pub open spec fn imaginary(self) -> int {
        match self {
            Phase::One => 0,
            Phase::I => 1,
            Phase::MinusOne => 0,
            Phase::MinusI => -1,
        }
    }

    /// The power with exponent `q`.
    pub fn from_quarters(q: u8) -> (p: Phase)
        ensures
            p == phase_from(q as int),
    {
        let r: u8 = q % 4;
        if r == 0 {
            Phase::One
        } else if r == 1 {
            Phase::I
        } else if r == 2 {
            Phase::MinusOne
        } else {
            Phase::MinusI
        }
    }

    fn exponent(self) -> (q: u8)
        ensures
            q == self.quarters(),
            q < 4,
    {
        match self {
            Phase::One => 0,
            Phase::I => 1,
            Phase::MinusOne => 2,
            Phase::MinusI => 3,
        }
    }

    /// The product of two phases.
    pub fn times(self, other: Phase) -> (p: Phase)
        ensures
            p == phase_from(self.quarters() + other.quarters()),
    {
        Phase::from_quarters(self.exponent() + other.exponent())
    }

    /// The quotient of two phases.
    pub fn over(self, other: Phase) -> (p: Phase)
        ensures
            p == phase_from(self.quarters() - other.quarters()),
    {
        let q: u8 = self.exponent() + 4 - other.exponent();
        proof {
            assert((self.quarters() + 4 - other.quarters()) % 4 == (self.quarters()
                - other.quarters()) % 4);
        }
        Phase::from_quarters(q)
    }

    /// The phase multiplied by a sign, `1` or `-1`.
    pub fn signed(self, sign: i8) -> (p: Phase)
        requires
            sign == 1 || sign == -1,
        ensures
            p == phase_from(self.quarters() + (if sign == 1 {
                0int
            } else {
                2int
            })),
    {
        if sign == 1 {
            Phase::from_quarters(self.exponent())
        } else {
            Phase::from_quarters(self.exponent() + 2)
        }
    }

    /// The imaginary part, negated: `-1`, `0` or `1`.
    pub fn minus_imaginary(self) -> (r: i8)
        ensures
            r == -self.imaginary(),
    {
        match self {
            Phase::One => 0,
            Phase::I => -1,
            Phase::MinusOne => 0,
            Phase::MinusI => 1,
        }
    }
}

/// Multiplying phases adds exponents.
pub proof fn lemma_phase_sum(a: int, b: int)
    ensures
        phase_from(phase_from(a).quarters() + phase_from(b).quarters()) == phase_from(a + b),
        phase_from(phase_from(a).quarters() - phase_from(b).quarters()) == phase_from(a - b),
        phase_from(phase_from(a).quarters() + b) == phase_from(a + b),
        phase_from(a).quarters() == a % 4,
{
}

/// The purely imaginary phase with sign `1` or `-1`.
pub fn imaginary_phase(sign: i8) -> (p: Phase)
    requires
        sign == 1 || sign == -1,
    ensures
        p.imaginary() == sign,
{
    if sign == 1 {
        Phase::I
    } else {
        Phase::MinusI
    }
}

/// A basis-specific algebra.
///
/// Strings are identified by their bits. The spec functions are the algebra's tables; the
/// executable functions look them up. Each table has a default, which says nothing, so that an
/// implementation the verifier does not read may leave it out.
pub trait Basis<const W: usize>: Sized {
    /// Generator information computed once per gate and reused for every term.
    type GenContext;

    /// The generator a context was built from.
    open spec fn generator_of(ctx: Self::GenContext) -> Seq<bool> {
        arbitrary()
    }

    /// Whether the generator carries an overall minus sign.
    open spec fn negated(ctx: Self::GenContext) -> bool {
        arbitrary()
    }

    /// The columns whose folded parity decides anticommutation with a context's generator.
    open spec fn fold_of(ctx: Self::GenContext) -> Seq<bool> {
        arbitrary()
    }

    /// Whether the row's own parity is folded in as well.
    open spec fn fold_odd(ctx: Self::GenContext) -> bool {
        arbitrary()
    }

    /// Two strings anticommute.
    open spec fn anti(g: Seq<bool>, m: Seq<bool>) -> bool {
        arbitrary()
    }

    /// The exponent of the imaginary unit in the product of two strings.
    open spec fn product_quarters(g: Seq<bool>, m: Seq<bool>) -> int {
        arbitrary()
    }

    /// The weight of a string.
    open spec fn weight_of(m: Seq<bool>, n_units: nat) -> u32 {
        arbitrary()
    }

    /// The diagonal expectation of a string against a computational basis state.
    open spec fn trace_of(m: Seq<bool>, n_units: nat, fock: Seq<u64>) -> i8 {
        arbitrary()
    }

    /// Which algebra this is.
    open spec fn kind_of() -> BasisKind {
        arbitrary()
    }

    /// Folding the named columns of a string, and its own parity where asked, gives its
    /// anticommutation bit.
    proof fn fold_law(ctx: Self::GenContext, m: Key)
        requires
            m.len() == 64 * W,
        ensures
            Self::generator_of(ctx).len() == 64 * W,
            Self::fold_of(ctx).len() == 64 * W,
            Self::anti(Self::generator_of(ctx), m) == (bits::odd(bits::both(Self::fold_of(ctx), m))
                != (Self::fold_odd(ctx) && bits::odd(m))),
    ;

    /// The product of anticommuting strings is imaginary.
    proof fn imaginary_law(g: Key, m: Key)
        requires
            g.len() == 64 * W,
            m.len() == 64 * W,
            Self::anti(g, m),
        ensures
            Self::product_quarters(g, m) % 2 == 1,
    ;

    /// Which algebra this is, for models that read a term's raw words.
    fn kind() -> (k: BasisKind)
        ensures
            k == Self::kind_of(),
    ;

    /// Builds the per-gate context.
    fn make_gen_context(gen: &BasisString<W>) -> (ctx: Self::GenContext)
        ensures
            Self::generator_of(ctx) == gen@,
            !Self::negated(ctx),
    {
        Self::make_signed_gen_context(gen, 1)
    }

    /// Builds a context for a generator carrying an overall sign, `1` or `-1`, which is folded
    /// into the product phase: a symbolic angle cannot be negated.
    fn make_signed_gen_context(gen: &BasisString<W>, sign: i8) -> (ctx: Self::GenContext)
        requires
            sign == 1 || sign == -1,
        ensures
            Self::generator_of(ctx) == gen@,
            Self::negated(ctx) == (sign == -1),
    ;

    /// The generator this context was built from.
    fn generator(ctx: &Self::GenContext) -> (g: &BasisString<W>)
        ensures
            g@ == Self::generator_of(*ctx),
    ;

    /// True if `mono` anticommutes with the context's generator, and therefore branches under
    /// a rotation about it.
    fn anticommutes(ctx: &Self::GenContext, mono: &BasisString<W>) -> (r: bool)
        ensures
            r == Self::anti(Self::generator_of(*ctx), mono@),
    ;

    /// The string whose set positions name the columns to fold for anticommutation.
    fn fold_generator(ctx: &Self::GenContext) -> (g: &BasisString<W>)
        ensures
            g@ == Self::fold_of(*ctx),
    ;

    /// Whether the row's own parity is folded in for anticommutation.
    fn fold_needs_odd_correction(ctx: &Self::GenContext) -> (r: bool)
        ensures
            r == Self::fold_odd(*ctx),
    ;

    /// The product of the generator with `mono`: its key and its phase factor.
    fn product(ctx: &Self::GenContext, mono: &BasisString<W>) -> (r: (BasisString<W>, Phase))
        requires
            64 * W <= u32::MAX,
        ensures
            r.0@ == bits::xor(Self::generator_of(*ctx), mono@),
            r.1 == phase_from(
                Self::product_quarters(Self::generator_of(*ctx), mono@) + (if Self::negated(*ctx) {
                    2int
                } else {
                    0int
                }),
            ),
    ;

    /// The term's weight.
    fn weight(mono: &BasisString<W>, n_units: usize) -> (w: u32)
        requires
            64 * W <= u32::MAX,
        ensures
            w == Self::weight_of(mono@, n_units as nat),
    ;

    /// The term's diagonal expectation against a computational basis state, with `fock`
    /// holding one bit per unit: `-1`, `0` or `1`.
    fn trace(mono: &BasisString<W>, n_units: usize, fock: &[u64]) -> (t: i8)
        requires
            64 * W <= u32::MAX,
        ensures
            t == Self::trace_of(mono@, n_units as nat, fock@),
            -1 <= t <= 1,
    ;
}

/// The phase of the generator `gen`, negated or not, multiplied onto the string `m`.
pub open spec fn product_phase<A: Basis<W>, const W: usize>(
    gen: Seq<bool>,
    negated: bool,
    m: Seq<bool>,
) -> Phase {
    phase_from(
        A::product_quarters(gen, m) + (if negated {
            2int
        } else {
            0int
        }),
    )
}

/// The plugin interface's codes tell the algebras apart.
pub proof fn law_kinds_have_distinct_codes(a: BasisKind, b: BasisKind)
    ensures
        a.code() == b.code() <==> a == b,
{
}

/// The kinds have the codes zero and one, Pauli strings first.
pub proof fn law_kind_codes(k: BasisKind)
    ensures
        k.code() < 2,
        k is Pauli <==> k.code() == 0,
{
}

/// The real part of a power of the imaginary unit.
pub open spec fn real_part(p: Phase) -> int {
    if p is One {
        1
    } else if p is MinusOne {
        -1
    } else {
        0
    }
}

/// Phases multiply as complex numbers do: adding exponents multiplies, subtracting them
/// divides, and the imaginary part of a power is that of the complex number.
pub proof fn law_phases_are_complex(a: Phase, b: Phase)
    ensures
        ({
            let p = phase_from(a.quarters() + b.quarters());
            &&& real_part(p) == real_part(a) * real_part(b) - a.imaginary() * b.imaginary()
            &&& p.imaginary() == real_part(a) * b.imaginary() + a.imaginary() * real_part(b)
        }),
        ({
            let q = phase_from(a.quarters() - b.quarters());
            phase_from(q.quarters() + b.quarters()) == a
        }),
        a is One ==> real_part(a) == 1 && a.imaginary() == 0,
        a is I ==> real_part(a) == 0 && a.imaginary() == 1,
        phase_from(1) is I,
        phase_from(a.quarters()) == a,
{
    assert(real_part(a) * real_part(b) - a.imaginary() * b.imaginary() == real_part(
        phase_from(a.quarters() + b.quarters()),
    )) by (nonlinear_arith)
        requires
            (real_part(a), a.imaginary()) == (1int, 0int) && a.quarters() == 0 || (real_part(a), a.imaginary()) == (0int, 1int) && a.quarters() == 1
                || (real_part(a), a.imaginary()) == (-1int, 0int) && a.quarters() == 2 || (real_part(a), a.imaginary()) == (0int, -1int) && a.quarters() == 3,
            (real_part(b), b.imaginary()) == (1int, 0int) && b.quarters() == 0 || (real_part(b), b.imaginary()) == (0int, 1int) && b.quarters() == 1
                || (real_part(b), b.imaginary()) == (-1int, 0int) && b.quarters() == 2 || (real_part(b), b.imaginary()) == (0int, -1int) && b.quarters() == 3,
    ;
}

} // verus!
