//! What a coefficient must provide: addition, the two branches of a rotation, and damping.
//!
//! Coefficients are numbers of some precision, or symbolic expressions in the rotation
//! parameters. The real scalars they are damped by and compared against are left to the
//! implementation too, so nothing here depends on how a number is rounded.

use crate::basis::Phase;
use vstd::prelude::*;

verus! {

/// A coefficient of a basis string.
///
/// The spec functions name what the operations return; each depends on its arguments alone.
/// They have a default, which says nothing, so that an implementation the verifier does not
/// read, such as one over floating-point numbers, may leave them out.
pub trait CoeffRepr: Sized {
    /// Gate parameter: an angle for numerical coefficients, a parameter index for symbolic
    /// ones.
    type GateParam;

    /// The real scalar a coefficient is scaled by and compared against.
    type Real: Copy;

    /// The additive identity.
    open spec fn zero_of() -> Self {
        arbitrary()
    }

    /// The coefficient with a real value.
    open spec fn real_of(c: Self::Real) -> Self {
        arbitrary()
    }

    /// The sum of two coefficients.
    open spec fn sum(self, other: Self) -> Self {
        arbitrary()
    }

    /// The coefficient once structure that a merge made collapsible has been collapsed.
    open spec fn settled(self) -> Self {
        arbitrary()
    }

    /// What a rotation leaves on the source.
    open spec fn cos_branch(self, param: Self::GateParam, phase: Phase) -> Self {
        arbitrary()
    }

    /// What a rotation sends to the product.
    open spec fn sin_branch(self, param: Self::GateParam, phase: Phase) -> Self {
        arbitrary()
    }

    /// The sine and the cosine of the rotation, where the representation has them.
    open spec fn factors(param: Self::GateParam) -> Option<(Self::Real, Self::Real)> {
        arbitrary()
    }

    /// The magnitude of the sine branch of a rotation with the sine `sin`.
    open spec fn branch_magnitude(self, sin: Self::Real) -> Self::Real {
        arbitrary()
    }

    /// The coefficient scaled by a real factor.
    open spec fn scaled(self, factor: Self::Real) -> Self {
        arbitrary()
    }

    /// The real scalar of a small integer.
    open spec fn unit(n: int) -> Self::Real {
        arbitrary()
    }

    /// The number of scalars the coefficient is made of.
    open spec fn size(self) -> u128 {
        arbitrary()
    }

    /// A term with this coefficient outlives a truncation at `cutoff`.
    open spec fn reaches(self, cutoff: Self::Real) -> bool {
        arbitrary()
    }

    /// The absolute value.
    open spec fn magnitude_of(self) -> Self::Real {
        arbitrary()
    }

    /// One real scalar is at least another.
    open spec fn real_reaches(a: Self::Real, b: Self::Real) -> bool {
        arbitrary()
    }

    /// One real scalar is below another.
    open spec fn real_below(a: Self::Real, b: Self::Real) -> bool {
        arbitrary()
    }

    /// A running total with the coefficient's real value, times `trace`, added.
    open spec fn totalled(total: Self::Real, c: Self, trace: int) -> Self::Real {
        arbitrary()
    }

    /// The sum of two real scalars.
    open spec fn real_sum(a: Self::Real, b: Self::Real) -> Self::Real {
        arbitrary()
    }

    /// The product of two real scalars.
    open spec fn real_times(a: Self::Real, b: Self::Real) -> Self::Real {
        arbitrary()
    }

    /// The scalar is one, up to the implementation's tolerance.
    open spec fn is_one(a: Self::Real) -> bool {
        arbitrary()
    }

    /// The scalar is zero.
    open spec fn is_nought(a: Self::Real) -> bool {
        arbitrary()
    }

    /// How far from a Clifford rotation one may be and still be taken for it.
    open spec fn tolerance_of() -> Self::Real {
        arbitrary()
    }

    /// The rotation is a quarter turn: its cosine is smaller than `eps`.
    open spec fn quarter_turn(param: Self::GateParam, eps: Self::Real) -> bool {
        arbitrary()
    }

    /// The sine of a quarter turn, `1` or `-1`, where the representation can tell.
    open spec fn turn_sign(param: Self::GateParam) -> Option<int> {
        arbitrary()
    }

    /// The cosine of a rotation whose sine is smaller than `eps`.
    open spec fn half_turn(param: Self::GateParam, eps: Self::Real) -> Option<Self::Real> {
        arbitrary()
    }

    /// Additive identity.
    fn zero() -> (c: Self)
        ensures
            c == Self::zero_of(),
    ;

    /// Converts a real coefficient into this representation.
    fn from_real(c: Self::Real) -> (r: Self)
        ensures
            r == Self::real_of(c),
    ;

    /// A copy of the coefficient.
    fn duplicate(&self) -> (c: Self)
        ensures
            c == *self,
    ;

    /// Additive merge, used when duplicate terms fold into the same row.
    fn add_assign(&mut self, other: Self)
        ensures
            *final(self) == old(self).sum(other),
    ;

    /// Collapses structure that a merge made collapsible.
    fn post_merge(&mut self)
        ensures
            *final(self) == old(self).settled(),
    ;

    /// Applies a non-commuting rotation: leaves the cosine branch in place and returns the
    /// sine branch. `phase` is the phase of the generator's product.
    fn apply_rotation(&mut self, param: &Self::GateParam, phase: Phase) -> (sin: Self)
        ensures
            *final(self) == old(self).cos_branch(*param, phase),
            sin == old(self).sin_branch(*param, phase),
    ;

    /// The sine and cosine of this gate, so that they are computed once per gate rather than
    /// once per term.
    fn rotation_factors(param: &Self::GateParam) -> (r: Option<(Self::Real, Self::Real)>)
        ensures
            r == Self::factors(*param),
    ;

    /// The magnitude the sine branch will carry, without forming it.
    fn sin_branch_magnitude(&self, sin: Self::Real) -> (r: Self::Real)
        ensures
            r == self.branch_magnitude(sin),
    ;

    /// [`CoeffRepr::apply_rotation`] with the rotation's factors at hand.
    fn apply_rotation_with(
        &mut self,
        param: &Self::GateParam,
        factors: Option<(Self::Real, Self::Real)>,
        phase: Phase,
    ) -> (sin: Self)
        requires
            factors == Self::factors(*param),
        ensures
            *final(self) == old(self).cos_branch(*param, phase),
            sin == old(self).sin_branch(*param, phase),
    {
        self.apply_rotation(param, phase)
    }

    /// Multiplies all scalar components by a real factor.
    fn scale_real(&mut self, factor: Self::Real)
        ensures
            *final(self) == old(self).scaled(factor),
    ;

    /// The real scalar of `-1`, `0` or `1`.
    fn real_unit(n: i8) -> (r: Self::Real)
        requires
            -1 <= n <= 1,
        ensures
            r == Self::unit(n as int),
    ;

    /// The number of scalars the coefficient is made of.
    fn size_hint(&self) -> (n: u128)
        ensures
            n == self.size(),
    ;

    /// Whether a term with this coefficient outlives a truncation at `cutoff`.
    fn passes_coeff_cutoff(&self, cutoff: Self::Real) -> (r: bool)
        ensures
            r == self.reaches(cutoff),
    ;

    /// The coefficient's absolute value.
    fn magnitude(&self) -> (r: Self::Real)
        ensures
            r == self.magnitude_of(),
    ;

    /// Whether one real scalar is at least another.
    fn real_at_least(a: Self::Real, b: Self::Real) -> (r: bool)
        ensures
            r == Self::real_reaches(a, b),
    ;

    /// Whether one real scalar is below another.
    fn real_less(a: Self::Real, b: Self::Real) -> (r: bool)
        ensures
            r == Self::real_below(a, b),
    ;

    /// Adds this coefficient's real value, times `trace`, to a running total.
    fn add_to_total(&self, total: Self::Real, trace: i8) -> (r: Self::Real)
        requires
            -1 <= trace <= 1,
        ensures
            r == Self::totalled(total, *self, trace as int),
    ;

    /// The sum of two real scalars.
    fn real_add(a: Self::Real, b: Self::Real) -> (r: Self::Real)
        ensures
            r == Self::real_sum(a, b),
    ;

    /// The product of two real scalars.
    fn real_mul(a: Self::Real, b: Self::Real) -> (r: Self::Real)
        ensures
            r == Self::real_times(a, b),
    ;

    /// Whether the scalar is one.
    fn real_is_one(a: Self::Real) -> (r: bool)
        ensures
            r == Self::is_one(a),
    ;

    /// Whether the scalar is zero.
    fn real_is_zero(a: Self::Real) -> (r: bool)
        ensures
            r == Self::is_nought(a),
    ;

    /// The tolerance that a run tests its rotations with.
    fn tolerance() -> (r: Self::Real)
        ensures
            r == Self::tolerance_of(),
    ;

    /// Whether the rotation is a Clifford quarter turn, within `eps`.
    fn is_clifford_param(param: &Self::GateParam, eps: Self::Real) -> (r: bool)
        ensures
            r == Self::quarter_turn(*param, eps),
    ;

    /// The factor a rotation that creates no branch, within `eps`, scales anticommuting terms by.
    fn phase_only_scale(param: &Self::GateParam, eps: Self::Real) -> (r: Option<Self::Real>)
        ensures
            r == Self::half_turn(*param, eps),
    ;

    /// The sign a quarter turn gives the product it sends a string to.
    fn clifford_branch_sign(param: &Self::GateParam, phase: Phase) -> (r: Option<i8>)
        ensures
            match r {
                Some(s) => Self::turn_sign(*param) matches Some(t) && (t == 1 || t == -1) && s == t
                    * -phase.imaginary(),
                None => Self::turn_sign(*param) is None,
            },
    ;
}

} // verus!
