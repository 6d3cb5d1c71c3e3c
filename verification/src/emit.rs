//! The emit gate: which branches of a rotation are carried, held back or dropped.

use crate::basis;
use crate::basis::{Basis, Phase};
use crate::bits;
use crate::coeff::CoeffRepr;
use crate::strings;
use crate::strings::BasisString;
use crate::term_kernel::{TermView, TruncationKernel};
use vstd::prelude::*;

verus! {

/// Truncation predicates for the emit gate, over real scalars of type `R`.
///
/// A plugin replaces the weight and magnitude bounds: where one is set, it alone decides.
pub struct EmitCutoff<R, K> {
    /// Structural weight bound. A child above it is never created.
    pub max_weight: Option<u32>,
    /// Magnitude bound on the emitted branch. A child below it is never created.
    pub min_coeff: Option<R>,
    /// A plugin that reads a term's weight and magnitude and not its key.
    pub native: Option<K>,
    /// A plugin that reads the term's key as well.
    pub term: Option<K>,
    /// Live-term floor. Lossy truncation is inhibited until the operator has at least this
    /// many terms.
    pub min_terms: Option<usize>,
}

impl<R, K> EmitCutoff<R, K> {
    /// No truncation is asked for.
    pub open spec fn is_lossless(&self) -> bool {
        self.max_weight is None && self.min_coeff is None && self.native is None && self.term
            is None
    }

    /// No truncation at all.
    pub fn none() -> (c: Self)
        ensures
            c.is_lossless(),
            c.min_terms is None,
    {
        EmitCutoff { max_weight: None, min_coeff: None, native: None, term: None, min_terms: None }
    }

    /// The same floor with every truncation lifted.
    pub fn lossless(&self) -> (c: Self)
        ensures
            c.is_lossless(),
            c.min_terms == self.min_terms,
    {
        EmitCutoff {
            max_weight: None,
            min_coeff: None,
            native: None,
            term: None,
            min_terms: self.min_terms,
        }
    }

    /// An operator of `n_live` terms is below the floor, so nothing may be truncated.
    pub open spec fn inhibited(&self, n_live: nat) -> bool {
        self.min_terms matches Some(floor) && n_live < floor
    }

    /// Whether an operator of `n_live` terms is still below the floor. Its cutoff is then
    /// [`EmitCutoff::lossless`], and this one otherwise.
    pub fn inhibits(&self, n_live: usize) -> (r: bool)
        ensures
            r == self.inhibited(n_live as nat),
    {
        match self.min_terms {
            Some(floor) => n_live < floor,
            None => false,
        }
    }
}

impl<R: Copy, K: Copy> EmitCutoff<R, K> {
    /// The cutoff for an operator of `n_live` terms: no truncation below the floor.
    pub fn at_size(&self, n_live: usize) -> (c: Self)
        ensures
            c.min_terms == self.min_terms,
            if self.inhibited(n_live as nat) {
                c.is_lossless()
            } else {
                c == *self
            },
    {
        if self.inhibits(n_live) {
            self.lossless()
        } else {
            EmitCutoff {
                max_weight: self.max_weight,
                min_coeff: self.min_coeff,
                native: self.native,
                term: self.term,
                min_terms: self.min_terms,
            }
        }
    }
}

/// A child with key `key` may be created at all.
pub open spec fn key_admitted<A: Basis<W>, R, K, const W: usize>(
    cutoff: EmitCutoff<R, K>,
    key: Seq<bool>,
    n_units: nat,
) -> bool {
    cutoff.native is Some || cutoff.term is Some || match cutoff.max_weight {
        Some(w) => A::weight_of(key, n_units) <= w,
        None => true,
    }
}

/// A branch onto `key` is worth carrying.
pub open spec fn child_admitted<
    A: Basis<W>,
    C: CoeffRepr,
    K: TruncationKernel<C::Real>,
    const W: usize,
>(cutoff: EmitCutoff<C::Real, K>, key: Seq<bool>, coeff: C, n_units: nat) -> bool {
    match cutoff.term {
        Some(kernel) => kernel.keeps(
            A::kind_of(),
            strings::words_spelling(key),
            n_units,
            A::weight_of(key, n_units),
            coeff.magnitude_of(),
        ),
        None => match cutoff.native {
            Some(kernel) => kernel.keeps(
                A::kind_of(),
                Seq::<u64>::empty(),
                n_units,
                A::weight_of(key, n_units),
                coeff.magnitude_of(),
            ),
            None => match cutoff.min_coeff {
                Some(c) => C::real_reaches(coeff.magnitude_of(), c),
                None => true,
            },
        },
    }
}

/// True if a child with this key may be created at all.
pub fn admits_key<A: Basis<W>, R, K, const W: usize>(
    cutoff: &EmitCutoff<R, K>,
    key: &BasisString<W>,
    n_units: usize,
) -> (r: bool)
    requires
        64 * W <= u32::MAX,
    ensures
        r == key_admitted::<A, R, K, W>(*cutoff, key@, n_units as nat),
        r <==> cutoff.native is Some || cutoff.term is Some || cutoff.max_weight is None
            || A::weight_of(key@, n_units as nat) <= cutoff.max_weight->0,
{
    if cutoff.native.is_some() || cutoff.term.is_some() {
        return true;
    }
    match cutoff.max_weight {
        Some(w) => A::weight(key, n_units) <= w,
        None => true,
    }
}

/// True if a branch of this magnitude is worth carrying.
fn admits_coeff<C: CoeffRepr, K>(cutoff: &EmitCutoff<C::Real, K>, coeff: &C) -> (r: bool)
    ensures
        r == match cutoff.min_coeff {
            Some(c) => C::real_reaches(coeff.magnitude_of(), c),
            None => true,
        },
{
    match cutoff.min_coeff {
        Some(c) => C::real_at_least(coeff.magnitude(), c),
        None => true,
    }
}

/// True if a branch onto this key is worth carrying.
pub fn admits_child<A: Basis<W>, C: CoeffRepr, K: TruncationKernel<C::Real>, const W: usize>(
    cutoff: &EmitCutoff<C::Real, K>,
    key: &BasisString<W>,
    coeff: &C,
    n_units: usize,
) -> (r: bool)
    requires
        64 * W <= u32::MAX,
    ensures
        r == child_admitted::<A, C, K, W>(*cutoff, key@, *coeff, n_units as nat),
        cutoff.term matches Some(plugin) ==> r == plugin.keeps(
            A::kind_of(),
            strings::words_spelling(key@),
            n_units as nat,
            A::weight_of(key@, n_units as nat),
            coeff.magnitude_of(),
        ),
        cutoff.term is None ==> (cutoff.native matches Some(plugin) ==> r == plugin.keeps(
            A::kind_of(),
            Seq::<u64>::empty(),
            n_units as nat,
            A::weight_of(key@, n_units as nat),
            coeff.magnitude_of(),
        )),
        cutoff.term is None && cutoff.native is None ==> (r <==> cutoff.min_coeff is None
            || C::real_reaches(coeff.magnitude_of(), cutoff.min_coeff->0)),
{
    if let Some(kernel) = &cutoff.term {
        proof {
            BasisString::lemma_words_spelling(*key);
        }
        let view = TermView {
            basis_kind: A::kind(),
            words: key.words().as_slice(),
            n_units,
            weight: A::weight(key, n_units),
        };
        return kernel.keep(view, coeff.magnitude());
    }
    match &cutoff.native {
        Some(kernel) => {
            let no_words: [u64; 0] = [];
            let view = TermView {
                basis_kind: A::kind(),
                words: no_words.as_slice(),
                n_units,
                weight: A::weight(key, n_units),
            };
            proof {
                assert(no_words@ =~= Seq::<u64>::empty());
            }
            kernel.keep(view, coeff.magnitude())
        },
        None => admits_coeff(cutoff, coeff),
    }
}

/// True if a term belongs in the term sum.
pub fn admits_initial<A: Basis<W>, C: CoeffRepr, K: TruncationKernel<C::Real>, const W: usize>(
    cutoff: &EmitCutoff<C::Real, K>,
    key: &BasisString<W>,
    coeff: &C,
    n_units: usize,
) -> (r: bool)
    requires
        64 * W <= u32::MAX,
    ensures
        r == (key_admitted::<A, C::Real, K, W>(*cutoff, key@, n_units as nat) && child_admitted::<
            A,
            C,
            K,
            W,
        >(*cutoff, key@, *coeff, n_units as nat)),
{
    admits_key::<A, C::Real, K, W>(cutoff, key, n_units) && admits_child::<A, C, K, W>(
        cutoff,
        key,
        coeff,
        n_units,
    )
}

/// A magnitude test made before the branch is formed: the rotation's sine and cosine, and the
/// magnitude bound.
pub struct EmitPrecheck<R> {
    pub sin: R,
    pub cos: R,
    pub min_coeff: R,
}

/// The precheck a gate runs, if it runs one.
pub open spec fn precheck_of<R, K>(
    factors: Option<(R, R)>,
    cutoff: EmitCutoff<R, K>,
) -> Option<EmitPrecheck<R>> {
    if cutoff.native is Some || cutoff.term is Some {
        None
    } else {
        match (cutoff.min_coeff, factors) {
            (Some(min_coeff), Some((sin, cos))) => Some(EmitPrecheck { sin, cos, min_coeff }),
            _ => None,
        }
    }
}

impl<R: Copy> EmitPrecheck<R> {
    /// The precheck a gate runs: only a plain magnitude bound on a gate with known factors
    /// can be tested ahead of the branch.
    pub fn for_gate<K>(factors: Option<(R, R)>, cutoff: &EmitCutoff<R, K>) -> (r: Option<Self>)
        ensures
            r == precheck_of(factors, *cutoff),
    {
        if cutoff.native.is_some() || cutoff.term.is_some() {
            return None;
        }
        match cutoff.min_coeff {
            Some(min_coeff) => match factors {
                Some((sin, cos)) => Some(EmitPrecheck { sin, cos, min_coeff }),
                None => None,
            },
            None => None,
        }
    }
}

/// What becomes of a term's sine branch under a rotation.
pub enum Fate<C> {
    /// The term commutes and does not branch.
    Stays,
    /// The branch leads to a key that may not be created.
    Drops,
    /// The branch is too small to carry on its own account, and is held back.
    Holds(C),
    /// The branch is carried.
    Sends(C),
}

/// A gate: the rotation's generator and whether it is negated, its parameter, the cutoff in
/// force, and the system size.
pub ghost struct Gate<A: Basis<W>, C: CoeffRepr, K, const W: usize> {
    pub gen: Seq<bool>,
    pub negated: bool,
    pub basis: core::marker::PhantomData<A>,
    pub param: C::GateParam,
    pub cutoff: EmitCutoff<C::Real, K>,
    pub n_units: nat,
}

impl<A: Basis<W>, C: CoeffRepr, K: TruncationKernel<C::Real>, const W: usize> Gate<A, C, K, W> {
    /// The key a term's branch leads to.
    pub open spec fn partner(self, key: Seq<bool>) -> Seq<bool> {
        bits::xor(self.gen, key)
    }

    /// The term branches.
    pub open spec fn branches(self, key: Seq<bool>) -> bool {
        A::anti(self.gen, key)
    }

    /// The phase of the branch.
    pub open spec fn phase(self, key: Seq<bool>) -> Phase {
        basis::product_phase::<A, W>(self.gen, self.negated, key)
    }

    /// The precheck in force.
    pub open spec fn precheck(self) -> Option<EmitPrecheck<C::Real>> {
        precheck_of(C::factors(self.param), self.cutoff)
    }

    /// The precheck declines a term's branch before it is formed.
    pub open spec fn declines(self, coeff: C) -> bool {
        self.precheck() matches Some(pre) && C::real_below(
            coeff.branch_magnitude(pre.sin),
            pre.min_coeff,
        )
    }

    /// The coefficient the rotation leaves on a term, before any branch arrives.
    pub open spec fn remains(self, key: Seq<bool>, coeff: C) -> C {
        if !self.branches(key) {
            coeff
        } else if self.declines(coeff) {
            coeff.scaled(self.precheck()->0.cos)
        } else {
            coeff.cos_branch(self.param, self.phase(key))
        }
    }

    /// What becomes of a term's branch.
    pub open spec fn fate(self, key: Seq<bool>, coeff: C) -> Fate<C> {
        if !self.branches(key) {
            Fate::Stays
        } else if self.declines(coeff) {
            Fate::Holds(coeff.scaled(self.precheck()->0.sin))
        } else {
            let child = self.partner(key);
            let branch = coeff.sin_branch(self.param, self.phase(key));
            if !key_admitted::<A, C::Real, K, W>(self.cutoff, child, self.n_units) {
                Fate::Drops
            } else if !child_admitted::<A, C, K, W>(self.cutoff, child, branch, self.n_units) {
                Fate::Holds(branch)
            } else {
                Fate::Sends(branch)
            }
        }
    }

    /// A held-back branch, as it is sent once its partner has paid for it: a branch held back
    /// by the precheck still lacks the product's phase.
    pub open spec fn rescued(self, key: Seq<bool>, held: C) -> C {
        if self.precheck() is Some {
            held.scaled(C::unit(-self.phase(key).imaginary()))
        } else {
            held
        }
    }
}

/// What a rotation about `gen` does.
pub open spec fn gate_for<A: Basis<W>, C: CoeffRepr, K, const W: usize>(
    gen: Seq<bool>,
    negated: bool,
    param: C::GateParam,
    cutoff: EmitCutoff<C::Real, K>,
    n_units: nat,
) -> Gate<A, C, K, W> {
    Gate { gen, negated, basis: core::marker::PhantomData, param, cutoff, n_units }
}

/// A partner's partner is the term itself.
pub proof fn lemma_xor_back(g: Seq<bool>, k: Seq<bool>)
    requires
        g.len() == k.len(),
    ensures
        bits::xor(g, bits::xor(g, k)) == k,
        bits::xor(g, k).len() == k.len(),
{
    assert(bits::xor(g, bits::xor(g, k)) =~= k);
}

/// The cutoff in force has settled: asking again at the same size changes nothing.
pub proof fn law_cutoff_settles<R, K>(
    cutoff: EmitCutoff<R, K>,
    once: EmitCutoff<R, K>,
    twice: EmitCutoff<R, K>,
    n_live: nat,
)
    requires
        once.min_terms == cutoff.min_terms,
        if cutoff.inhibited(n_live) {
            once.is_lossless()
        } else {
            once == cutoff
        },
        twice.min_terms == once.min_terms,
        if once.inhibited(n_live) {
            twice.is_lossless()
        } else {
            twice == once
        },
    ensures
        twice == once,
{
}

} // verus!
