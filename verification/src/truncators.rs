//! Truncation policy: the composable truncators a run is given, the flat configuration they
//! resolve into, and the single policy that decomposes into them.

use crate::coeff::CoeffRepr;
use crate::emit::EmitCutoff;
use vstd::prelude::*;

verus! {

/// Drops terms above a frequency. Applies to surrogate propagation only.
#[derive(Clone, Copy)]
pub struct FrequencyTruncator {
    pub frequency: Option<usize>,
}

impl FrequencyTruncator {
    pub fn new(frequency: Option<usize>) -> (t: Self)
        ensures
            t.frequency == frequency,
    {
        FrequencyTruncator { frequency }
    }
}

/// Drops terms whose coefficient's magnitude is below `coefficient`.
#[derive(Clone, Copy)]
pub struct CoefficientTruncator<R> {
    pub coefficient: Option<R>,
}

impl<R> CoefficientTruncator<R> {
    pub fn new(coefficient: Option<R>) -> (t: Self)
        ensures
            t.coefficient == coefficient,
    {
        CoefficientTruncator { coefficient }
    }
}

/// Drops whole terms whose operator weight exceeds `weight`.
#[derive(Clone, Copy)]
pub struct WeightTruncator {
    pub weight: Option<u32>,
}

impl WeightTruncator {
    pub fn new(weight: Option<u32>) -> (t: Self)
        ensures
            t.weight == weight,
    {
        WeightTruncator { weight }
    }
}

/// Term-count floor, below which truncation is suppressed.
#[derive(Clone, Copy)]
pub struct TermBudget {
    pub min_terms: Option<usize>,
}

impl TermBudget {
    pub fn new(min_terms: Option<usize>) -> (t: Self)
        ensures
            t.min_terms == min_terms,
    {
        TermBudget { min_terms }
    }
}

/// Simplifies symbolic coefficients. Applies to surrogate propagation only.
#[derive(Clone, Copy)]
pub struct Simplify {
    pub enabled: bool,
}

impl Simplify {
    pub fn new(enabled: bool) -> (t: Self)
        ensures
            t.enabled == enabled,
    {
        Simplify { enabled }
    }
}

/// One step of a truncation pipeline, over real scalars of type `R` and plugins of type `K`.
#[derive(Clone, Copy)]
pub enum Truncator<R, K> {
    Frequency(FrequencyTruncator),
    Coefficient(CoefficientTruncator<R>),
    Weight(WeightTruncator),
    TermBudget(TermBudget),
    Simplify(Simplify),
    Native(K),
}

impl<R, K> Truncator<R, K> {
    /// The truncator applies to surrogate propagation only.
    pub open spec fn surrogate_only(self) -> bool {
        self is Frequency || self is Simplify
    }

    /// The truncator applies to numerical propagation only.
    pub open spec fn numerical_only(self) -> bool {
        self is Native
    }

    pub fn is_surrogate_only(&self) -> (r: bool)
        ensures
            r == self.surrogate_only(),
    {
        match self {
            Truncator::Frequency(_) => true,
            Truncator::Simplify(_) => true,
            _ => false,
        }
    }

    pub fn is_numerical_only(&self) -> (r: bool)
        ensures
            r == self.numerical_only(),
    {
        match self {
            Truncator::Native(_) => true,
            _ => false,
        }
    }
}

/// Why a pipeline is refused.
#[derive(Clone, Copy, PartialEq, Eq, Structural)]
pub enum TruncatorRefused {
    /// A truncator applies to surrogate propagation only.
    SurrogateOnly,
    /// A truncator applies to numerical propagation only.
    NumericalOnly,
}

impl TruncatorRefused {
    /// What the user is told.
    pub fn message(&self) -> (s: &'static str)
        ensures
            s@ == (match self {
                TruncatorRefused::SurrogateOnly =>
                    "FrequencyTruncator/Simplify only apply to surrogate propagation, use WeightTruncator / CoefficientTruncator / TermBudget with the numerical propagator"@,
                TruncatorRefused::NumericalOnly =>
                    "NativeTruncator only applies to numerical propagation, use it with PauliPropagator/MajoranaPropagator instead"@,
            }),
    {
        match self {
            TruncatorRefused::SurrogateOnly =>
                "FrequencyTruncator/Simplify only apply to surrogate propagation, use WeightTruncator / CoefficientTruncator / TermBudget with the numerical propagator",
            TruncatorRefused::NumericalOnly =>
                "NativeTruncator only applies to numerical propagation, use it with PauliPropagator/MajoranaPropagator instead",
        }
    }
}

/// Refuses a pipeline with a truncator for surrogate propagation only.
pub fn reject_surrogate_only<R, K>(truncators: &[Truncator<R, K>]) -> (r: Result<
    (),
    TruncatorRefused,
>)
    ensures
        r == Err::<(), TruncatorRefused>(TruncatorRefused::SurrogateOnly) <==> exists|i: int|
            0 <= i < truncators@.len() && (#[trigger] truncators@[i]).surrogate_only(),
        r is Err ==> r == Err::<(), TruncatorRefused>(TruncatorRefused::SurrogateOnly),
{
    let mut i: usize = 0;
    while i < truncators.len()
        invariant
            i <= truncators@.len(),
            forall|j: int| 0 <= j < i ==> !(#[trigger] truncators@[j]).surrogate_only(),
        decreases truncators@.len() - i,
    {
        if truncators[i].is_surrogate_only() {
            return Err(TruncatorRefused::SurrogateOnly);
        }
        i += 1;
    }
    Ok(())
}

/// Refuses a pipeline with a truncator for numerical propagation only.
pub fn reject_numerical_only<R, K>(truncators: &[Truncator<R, K>]) -> (r: Result<
    (),
    TruncatorRefused,
>)
    ensures
        r == Err::<(), TruncatorRefused>(TruncatorRefused::NumericalOnly) <==> exists|i: int|
            0 <= i < truncators@.len() && (#[trigger] truncators@[i]).numerical_only(),
        r is Err ==> r == Err::<(), TruncatorRefused>(TruncatorRefused::NumericalOnly),
{
    let mut i: usize = 0;
    while i < truncators.len()
        invariant
            i <= truncators@.len(),
            forall|j: int| 0 <= j < i ==> !(#[trigger] truncators@[j]).numerical_only(),
        decreases truncators@.len() - i,
    {
        if truncators[i].is_numerical_only() {
            return Err(TruncatorRefused::NumericalOnly);
        }
        i += 1;
    }
    Ok(())
}

/// A truncation pipeline, collapsed.
pub struct ResolvedConfig<R, K> {
    pub frequency: Option<usize>,
    pub coefficient: Option<R>,
    pub weight: Option<u32>,
    pub min_terms: Option<usize>,
    pub simplify: bool,
    /// When set, the plugin's own decision replaces the weight and coefficient cutoffs.
    pub native: Option<K>,
}

impl<R, K> ResolvedConfig<R, K> {
    /// Something is truncated.
    pub open spec fn truncates(&self) -> bool {
        self.weight is Some || self.coefficient is Some || self.native is Some
    }

    /// No truncation at all.
    pub fn none() -> (c: Self)
        ensures
            c == Self::nothing(),
    {
        ResolvedConfig {
            frequency: None,
            coefficient: None,
            weight: None,
            min_terms: None,
            simplify: false,
            native: None,
        }
    }

    /// The configuration of an empty pipeline.
    pub open spec fn nothing() -> Self {
        ResolvedConfig {
            frequency: None,
            coefficient: None,
            weight: None,
            min_terms: None,
            simplify: false,
            native: None,
        }
    }

    /// The configuration with one more truncator applied. A plugin stays once it is set.
    pub open spec fn with(self, t: Truncator<R, K>) -> Self {
        match t {
            Truncator::Frequency(x) => ResolvedConfig { frequency: x.frequency, ..self },
            Truncator::Coefficient(x) => ResolvedConfig { coefficient: x.coefficient, ..self },
            Truncator::Weight(x) => ResolvedConfig { weight: x.weight, ..self },
            Truncator::TermBudget(x) => ResolvedConfig { min_terms: x.min_terms, ..self },
            Truncator::Simplify(x) => ResolvedConfig { simplify: x.enabled, ..self },
            Truncator::Native(x) => ResolvedConfig { native: Some(x), ..self },
        }
    }

    /// The emit gate's cutoff. A plugin that reads keys decides as one.
    pub fn cutoff(self, plugin_reads_keys: bool) -> (c: EmitCutoff<R, K>)
        ensures
            c.max_weight == self.weight,
            c.min_coeff == self.coefficient,
            c.min_terms == self.min_terms,
            c.native == (if plugin_reads_keys {
                None
            } else {
                self.native
            }),
            c.term == (if plugin_reads_keys {
                self.native
            } else {
                None
            }),
    {
        let (native, term) = if plugin_reads_keys {
            (None, self.native)
        } else {
            (self.native, None)
        };
        EmitCutoff {
            max_weight: self.weight,
            min_coeff: self.coefficient,
            native,
            term,
            min_terms: self.min_terms,
        }
    }
}

/// The configuration of the first `n` truncators of a pipeline.
pub open spec fn resolved<R, K>(truncators: Seq<Truncator<R, K>>, n: int) -> ResolvedConfig<R, K>
    decreases n,
{
    if n <= 0 {
        ResolvedConfig::nothing()
    } else {
        resolved(truncators, n - 1).with(truncators[n - 1])
    }
}

/// Collapses a truncator pipeline: of two truncators of one sort, the later one counts.
pub fn resolve_config<R: Copy, K: Copy>(truncators: &[Truncator<R, K>]) -> (r: ResolvedConfig<R, K>)
    ensures
        r == resolved(truncators@, truncators@.len() as int),
{
    let mut r: ResolvedConfig<R, K> = ResolvedConfig::none();
    let mut i: usize = 0;
    while i < truncators.len()
        invariant
            i <= truncators@.len(),
            r == resolved(truncators@, i as int),
        decreases truncators@.len() - i,
    {
        match truncators[i] {
            Truncator::Frequency(x) => {
                r.frequency = x.frequency;
            },
            Truncator::Coefficient(x) => {
                r.coefficient = x.coefficient;
            },
            Truncator::Weight(x) => {
                r.weight = x.weight;
            },
            Truncator::TermBudget(x) => {
                r.min_terms = x.min_terms;
            },
            Truncator::Simplify(x) => {
                r.simplify = x.enabled;
            },
            Truncator::Native(x) => {
                r.native = Some(x);
            },
        }
        i += 1;
    }
    r
}

/// Where one truncator of a sort is set and no later one of its sort, it is what counts.
pub proof fn law_last_truncator_counts<R, K>(truncators: Seq<Truncator<R, K>>, i: int)
    requires
        0 <= i < truncators.len(),
    ensures
        (forall|j: int| i < j < truncators.len() ==> !((#[trigger] truncators[j]) is Weight))
            ==> (truncators[i] matches Truncator::Weight(x) ==> resolved(
            truncators,
            truncators.len() as int,
        ).weight == x.weight),
        (forall|j: int| i < j < truncators.len() ==> !((#[trigger] truncators[j]) is Coefficient))
            ==> (truncators[i] matches Truncator::Coefficient(x) ==> resolved(
            truncators,
            truncators.len() as int,
        ).coefficient == x.coefficient),
        (forall|j: int| i < j < truncators.len() ==> !((#[trigger] truncators[j]) is TermBudget))
            ==> (truncators[i] matches Truncator::TermBudget(x) ==> resolved(
            truncators,
            truncators.len() as int,
        ).min_terms == x.min_terms),
        (forall|j: int| i < j < truncators.len() ==> !((#[trigger] truncators[j]) is Native))
            ==> (truncators[i] matches Truncator::Native(x) ==> resolved(
            truncators,
            truncators.len() as int,
        ).native == Some(x)),
        (forall|j: int| i < j < truncators.len() ==> !((#[trigger] truncators[j]) is Frequency))
            ==> (truncators[i] matches Truncator::Frequency(x) ==> resolved(
            truncators,
            truncators.len() as int,
        ).frequency == x.frequency),
        (forall|j: int| i < j < truncators.len() ==> !((#[trigger] truncators[j]) is Simplify))
            ==> (truncators[i] matches Truncator::Simplify(x) ==> resolved(
            truncators,
            truncators.len() as int,
        ).simplify == x.enabled),
{
    lemma_last_counts(truncators, i, truncators.len() as int);
}

proof fn lemma_last_counts<R, K>(truncators: Seq<Truncator<R, K>>, i: int, n: int)
    requires
        0 <= i < n <= truncators.len(),
    ensures
        (forall|j: int| i < j < n ==> !((#[trigger] truncators[j]) is Weight)) ==> (
        truncators[i] matches Truncator::Weight(x) ==> resolved(truncators, n).weight == x.weight),
        (forall|j: int| i < j < n ==> !((#[trigger] truncators[j]) is Coefficient)) ==> (
        truncators[i] matches Truncator::Coefficient(x) ==> resolved(truncators, n).coefficient
            == x.coefficient),
        (forall|j: int| i < j < n ==> !((#[trigger] truncators[j]) is TermBudget)) ==> (
        truncators[i] matches Truncator::TermBudget(x) ==> resolved(truncators, n).min_terms
            == x.min_terms),
        (forall|j: int| i < j < n ==> !((#[trigger] truncators[j]) is Native)) ==> (
        truncators[i] matches Truncator::Native(x) ==> resolved(truncators, n).native == Some(x)),
        (forall|j: int| i < j < n ==> !((#[trigger] truncators[j]) is Frequency)) ==> (
        truncators[i] matches Truncator::Frequency(x) ==> resolved(truncators, n).frequency
            == x.frequency),
        (forall|j: int| i < j < n ==> !((#[trigger] truncators[j]) is Simplify)) ==> (
        truncators[i] matches Truncator::Simplify(x) ==> resolved(truncators, n).simplify
            == x.enabled),
    decreases n,
{
    if i < n - 1 {
        lemma_last_counts(truncators, i, n - 1);
        let last = truncators[n - 1];
    }
}

/// Largest term count the default policy allows.
const DEFAULT_MAX_TERMS: usize = 10_000_000;

/// Controls when and how terms are discarded during propagation.
pub struct TruncationPolicy<C: CoeffRepr> {
    /// Discard terms with a weight strictly greater. `None` disables weight-based truncation.
    pub weight_cutoff: Option<u32>,
    /// Discard terms with a magnitude strictly less.
    pub coeff_cutoff: C::Real,
    /// Live-term floor below which truncation is suppressed, and the term count at which it
    /// fires.
    pub truncation_range: (Option<usize>, Option<usize>),
}

impl<C: CoeffRepr> TruncationPolicy<C> {
    /// A policy; the range defaults to no floor and the default largest count.
    pub fn new(
        weight_cutoff: Option<u32>,
        coeff_cutoff: C::Real,
        truncation_range: Option<(Option<usize>, Option<usize>)>,
    ) -> (p: Self)
        ensures
            p.weight_cutoff == weight_cutoff,
            p.coeff_cutoff == coeff_cutoff,
            p.truncation_range == (match truncation_range {
                Some(range) => range,
                None => (None, Some(10_000_000usize)),
            }),
    {
        TruncationPolicy {
            weight_cutoff,
            coeff_cutoff,
            truncation_range: match truncation_range {
                Some(range) => range,
                None => (None, Some(DEFAULT_MAX_TERMS)),
            },
        }
    }

    /// The floor and the largest count.
    pub fn truncation_range(&self) -> (r: (Option<usize>, Option<usize>))
        ensures
            r == self.truncation_range,
    {
        self.truncation_range
    }

    /// Sets the floor and the largest count.
    pub fn set_truncation_range(&mut self, value: (Option<usize>, Option<usize>))
        ensures
            final(self).truncation_range == value,
            final(self).weight_cutoff == old(self).weight_cutoff,
            final(self).coeff_cutoff == old(self).coeff_cutoff,
    {
        self.truncation_range = value;
    }

    /// A term of this weight and magnitude is discarded.
    pub open spec fn discards(&self, weight: u32, abs_coeff: C::Real) -> bool {
        (self.weight_cutoff matches Some(wc) && weight > wc) || C::real_below(
            abs_coeff,
            self.coeff_cutoff,
        )
    }

    /// True if a term of this weight and magnitude should be discarded.
    pub fn should_truncate(&self, weight: u32, abs_coeff: C::Real) -> (r: bool)
        ensures
            r == self.discards(weight, abs_coeff),
    {
        let heavy: bool = match self.weight_cutoff {
            Some(wc) => weight > wc,
            None => false,
        };
        heavy || C::real_less(abs_coeff, self.coeff_cutoff)
    }

    /// The truncators this policy amounts to: a weight bound, a positive coefficient bound and a
    /// floor, as far as they are set.
    pub fn decompose<K>(&self) -> (ops: Vec<Truncator<C::Real, K>>)
        ensures
            ops@ == (match self.weight_cutoff {
                Some(w) => seq![
                    Truncator::<C::Real, K>::Weight(WeightTruncator { weight: Some(w) }),
                ],
                None => Seq::empty(),
            }) + (if C::real_below(C::unit(0), self.coeff_cutoff) {
                seq![
                    Truncator::<C::Real, K>::Coefficient(
                        CoefficientTruncator { coefficient: Some(self.coeff_cutoff) },
                    ),
                ]
            } else {
                Seq::empty()
            }) + (if self.truncation_range.0 is Some {
                seq![
                    Truncator::<C::Real, K>::TermBudget(
                        TermBudget { min_terms: self.truncation_range.0 },
                    ),
                ]
            } else {
                Seq::empty()
            }),
    {
        let mut ops: Vec<Truncator<C::Real, K>> = Vec::new();
        if let Some(weight) = self.weight_cutoff {
            ops.push(Truncator::Weight(WeightTruncator { weight: Some(weight) }));
        }
        if C::real_less(C::real_unit(0), self.coeff_cutoff) {
            ops.push(
                Truncator::Coefficient(
                    CoefficientTruncator { coefficient: Some(self.coeff_cutoff) },
                ),
            );
        }
        if self.truncation_range.0.is_some() {
            ops.push(Truncator::TermBudget(TermBudget { min_terms: self.truncation_range.0 }));
        }
        ops
    }
}

/// A policy's truncators resolve to its own cutoffs: a weight bound, a coefficient bound where
/// it is positive, and the floor.
pub proof fn law_policy_resolves<C: CoeffRepr, K>(
    p: TruncationPolicy<C>,
    ops: Seq<Truncator<C::Real, K>>,
)
    requires
        ops == (match p.weight_cutoff {
            Some(w) => seq![Truncator::<C::Real, K>::Weight(WeightTruncator { weight: Some(w) })],
            None => Seq::empty(),
        }) + (if C::real_below(C::unit(0), p.coeff_cutoff) {
            seq![
                Truncator::<C::Real, K>::Coefficient(
                    CoefficientTruncator { coefficient: Some(p.coeff_cutoff) },
                ),
            ]
        } else {
            Seq::empty()
        }) + (if p.truncation_range.0 is Some {
            seq![
                Truncator::<C::Real, K>::TermBudget(
                    TermBudget { min_terms: p.truncation_range.0 },
                ),
            ]
        } else {
            Seq::empty()
        }),
    ensures
        resolved(ops, ops.len() as int) == (ResolvedConfig::<C::Real, K> {
            frequency: None,
            coefficient: if C::real_below(C::unit(0), p.coeff_cutoff) {
                Some(p.coeff_cutoff)
            } else {
                None
            },
            weight: p.weight_cutoff,
            min_terms: p.truncation_range.0,
            simplify: false,
            native: None,
        }),
{
    reveal_with_fuel(resolved, 4);
}

/// What no truncator of a pipeline sets is not set.
pub proof fn law_unset_stays_unset<R, K>(truncators: Seq<Truncator<R, K>>, n: int)
    requires
        0 <= n <= truncators.len(),
    ensures
        (forall|j: int| 0 <= j < n ==> !((#[trigger] truncators[j]) is Weight)) ==> resolved(
            truncators,
            n,
        ).weight is None,
        (forall|j: int| 0 <= j < n ==> !((#[trigger] truncators[j]) is Coefficient)) ==> resolved(
            truncators,
            n,
        ).coefficient is None,
        (forall|j: int| 0 <= j < n ==> !((#[trigger] truncators[j]) is TermBudget)) ==> resolved(
            truncators,
            n,
        ).min_terms is None,
        (forall|j: int| 0 <= j < n ==> !((#[trigger] truncators[j]) is Native)) ==> resolved(
            truncators,
            n,
        ).native is None,
        (forall|j: int| 0 <= j < n ==> !((#[trigger] truncators[j]) is Frequency)) ==> resolved(
            truncators,
            n,
        ).frequency is None,
        (forall|j: int| 0 <= j < n ==> !((#[trigger] truncators[j]) is Simplify)) ==> !resolved(
            truncators,
            n,
        ).simplify,
    decreases n,
{
    if n > 0 {
        law_unset_stays_unset(truncators, n - 1);
        assert(!(truncators[n - 1] is Weight) || truncators[n - 1] is Weight);
    }
}

/// A policy discards a term exactly where its weight is over the weight cutoff, if one is set,
/// or its magnitude is below the coefficient cutoff; so a policy without a weight cutoff looks
/// at magnitudes alone.
pub proof fn law_policy_discards<C: CoeffRepr>(
    p: TruncationPolicy<C>,
    weight: u32,
    magnitude: C::Real,
)
    ensures
        C::real_below(magnitude, p.coeff_cutoff) ==> p.discards(weight, magnitude),
        !C::real_below(magnitude, p.coeff_cutoff) ==> (p.discards(weight, magnitude)
            <==> p.weight_cutoff is Some && p.weight_cutoff->0 < weight),
{
}

/// Surrogate propagation takes every truncator but a plugin, numerical propagation every one but
/// a frequency cutoff and a simplification.
pub proof fn law_truncators_have_their_place<R, K>(t: Truncator<R, K>)
    ensures
        t.surrogate_only() <==> t is Frequency || t is Simplify,
        t.numerical_only() <==> t is Native,
        !(t.surrogate_only() && t.numerical_only()),
        t is Weight || t is Coefficient || t is TermBudget ==> !t.surrogate_only()
            && !t.numerical_only(),
{
}

} // verus!
