use propaq::basis::Phase;
use propaq::coeff::CoeffRepr;
use propaq::emit::EmitCutoff;
use propaq::term_kernel::KeepAll;
use propaq::truncators::{
    reject_numerical_only, reject_surrogate_only, resolve_config, CoefficientTruncator,
    FrequencyTruncator, ResolvedConfig, Simplify, TermBudget, TruncationPolicy, Truncator,
    TruncatorRefused, WeightTruncator,
};

/// A double-precision coefficient.
#[derive(Clone, Copy, Debug, PartialEq)]
struct F(f64);

const EPS: f64 = 1e-9;

impl CoeffRepr for F {
    type GateParam = f64;
    type Real = f64;

    fn zero() -> Self {
        F(0.0)
    }
    fn from_real(c: f64) -> Self {
        F(c)
    }
    fn duplicate(&self) -> Self {
        *self
    }
    fn add_assign(&mut self, other: Self) {
        self.0 += other.0;
    }
    fn post_merge(&mut self) {}
    fn apply_rotation(&mut self, angle: &f64, phase: Phase) -> Self {
        let (sin_t, cos_t) = angle.sin_cos();
        let sin = F(self.0 * sin_t * f64::from(phase.minus_imaginary()));
        self.0 *= cos_t;
        sin
    }
    fn rotation_factors(angle: &f64) -> Option<(f64, f64)> {
        Some(angle.sin_cos())
    }
    fn sin_branch_magnitude(&self, sin: f64) -> f64 {
        (self.0 * sin).abs()
    }
    fn scale_real(&mut self, factor: f64) {
        self.0 *= factor;
    }
    fn real_unit(n: i8) -> f64 {
        f64::from(n)
    }
    fn size_hint(&self) -> u128 {
        1
    }
    fn passes_coeff_cutoff(&self, cutoff: f64) -> bool {
        self.0.abs() >= cutoff
    }
    fn magnitude(&self) -> f64 {
        self.0.abs()
    }
    fn real_at_least(a: f64, b: f64) -> bool {
        a >= b
    }
    fn real_less(a: f64, b: f64) -> bool {
        a < b
    }
    fn add_to_total(&self, total: f64, trace: i8) -> f64 {
        total + self.0 * f64::from(trace)
    }
    fn real_add(a: f64, b: f64) -> f64 {
        a + b
    }
    fn real_mul(a: f64, b: f64) -> f64 {
        a * b
    }
    fn real_is_one(a: f64) -> bool {
        (a - 1.0).abs() < EPS
    }
    fn real_is_zero(a: f64) -> bool {
        a == 0.0
    }
    fn tolerance() -> f64 {
        EPS
    }
    fn is_clifford_param(angle: &f64, eps: f64) -> bool {
        angle.cos().abs() < eps
    }
    fn phase_only_scale(angle: &f64, eps: f64) -> Option<f64> {
        let (sin_t, cos_t) = angle.sin_cos();
        if sin_t.abs() < eps {
            Some(cos_t)
        } else {
            None
        }
    }
    fn clifford_branch_sign(angle: &f64, phase: Phase) -> Option<i8> {
        let turn = if angle.sin() < 0.0 { -1 } else { 1 };
        Some(turn * phase.minus_imaginary())
    }
}

type Policy = TruncationPolicy<F>;
type Config = ResolvedConfig<f64, KeepAll>;
type Step = Truncator<f64, KeepAll>;

fn policy(
    weight_cutoff: Option<u32>,
    coeff_cutoff: f64,
    truncation_range: (Option<usize>, Option<usize>),
) -> Policy {
    TruncationPolicy { weight_cutoff, coeff_cutoff, truncation_range }
}

#[test]
fn truncate_high_weight() {
    let p = policy(Some(2), 0.1, (None, None));
    assert!(p.should_truncate(3, 1.0));
}

#[test]
fn truncate_low_coeff() {
    let p = policy(Some(5), 0.5, (None, None));
    assert!(p.should_truncate(2, 0.49));
}

#[test]
fn keep_within_both_cutoffs() {
    let p = policy(Some(5), 0.1, (None, None));
    assert!(!p.should_truncate(3, 0.5));
}

#[test]
fn weight_boundary_exact_keeps() {
    // weight == cutoff: not strictly greater, so keep
    let p = policy(Some(3), 0.0, (None, None));
    assert!(!p.should_truncate(3, 0.1));
    assert!(p.should_truncate(4, 0.1));
}

#[test]
fn coeff_boundary_exact_keeps() {
    // abs_coeff == cutoff: not strictly less, so keep
    let p = policy(Some(10), 0.5, (None, None));
    assert!(!p.should_truncate(1, 0.5));
    assert!(p.should_truncate(1, 0.4999));
}

#[test]
fn truncate_both_conditions() {
    let p = policy(Some(2), 0.5, (None, None));
    assert!(p.should_truncate(5, 0.1));
}

#[test]
fn zero_cutoffs_keep_nothing_nonzero_weight() {
    let p = policy(Some(0), 0.0, (None, None));
    assert!(p.should_truncate(1, 1.0)); // weight 1 > 0
    assert!(!p.should_truncate(0, 1.0)); // weight 0, coeff fine
}

#[test]
fn none_weight_cutoff_never_truncates_on_weight() {
    let p = policy(None, 0.0, (None, None));
    assert!(!p.should_truncate(100, 1.0));
    assert!(!p.should_truncate(1000, 0.5));
}

#[test]
fn none_weight_cutoff_still_truncates_on_coeff() {
    let p = policy(None, 0.5, (None, None));
    assert!(p.should_truncate(100, 0.1));
    assert!(!p.should_truncate(100, 0.6));
}

#[test]
fn truncation_range_default() {
    let p = Policy::new(None, 0.0, None);
    assert_eq!(p.truncation_range, (None, Some(10_000_000)));
}

#[test]
fn truncation_range_min_only() {
    let p = policy(None, 0.0, (Some(100), None));
    assert_eq!(p.truncation_range.0, Some(100));
    assert_eq!(p.truncation_range.1, None);
}

#[test]
fn truncation_range_max_only() {
    let p = policy(None, 0.0, (None, Some(10_000_000)));
    assert_eq!(p.truncation_range.0, None);
    assert_eq!(p.truncation_range.1, Some(10_000_000));
}

#[test]
fn truncation_range_both() {
    let p = policy(None, 0.0, (Some(50), Some(1_000)));
    assert_eq!(p.truncation_range, (Some(50), Some(1_000)));
}

#[test]
fn the_last_truncator_of_a_kind_counts() {
    let steps: [Step; 4] = [
        Truncator::Weight(WeightTruncator::new(Some(3))),
        Truncator::Coefficient(CoefficientTruncator::new(Some(0.5))),
        Truncator::Weight(WeightTruncator::new(Some(7))),
        Truncator::TermBudget(TermBudget::new(Some(12))),
    ];
    let cfg: Config = resolve_config(&steps);
    assert_eq!(cfg.weight, Some(7));
    assert_eq!(cfg.coefficient, Some(0.5));
    assert_eq!(cfg.min_terms, Some(12));
    assert_eq!(cfg.frequency, None);
    let cutoff: EmitCutoff<f64, KeepAll> = cfg.cutoff(false);
    assert_eq!(cutoff.max_weight, Some(7));
    assert_eq!(cutoff.min_coeff, Some(0.5));
    assert_eq!(cutoff.min_terms, Some(12));
}

#[test]
fn a_plugin_goes_where_it_reads_keys_or_not() {
    let cfg: Config = resolve_config(&[Truncator::Native(KeepAll)]);
    let by_key = cfg.cutoff(true);
    assert!(by_key.term.is_some() && by_key.native.is_none());
    let cfg: Config = resolve_config(&[Truncator::Native(KeepAll)]);
    let by_weight = cfg.cutoff(false);
    assert!(by_weight.term.is_none() && by_weight.native.is_some());
}

#[test]
fn a_policy_decomposes_into_the_truncators_it_stands_for() {
    let p = policy(Some(4), 0.25, (Some(9), None));
    let steps: Vec<Step> = p.decompose();
    let cfg: Config = resolve_config(&steps);
    assert_eq!(cfg.weight, Some(4));
    assert_eq!(cfg.coefficient, Some(0.25));
    assert_eq!(cfg.min_terms, Some(9));
}

#[test]
fn propagators_refuse_the_other_kinds_truncators() {
    let surrogate: [Step; 1] = [Truncator::Frequency(FrequencyTruncator::new(Some(2)))];
    assert!(reject_surrogate_only(&surrogate).is_err());
    assert!(reject_numerical_only(&surrogate).is_ok());
    let numerical: [Step; 1] = [Truncator::Native(KeepAll)];
    assert!(reject_numerical_only(&numerical).is_err());
    assert!(reject_surrogate_only(&numerical).is_ok());
    let shared: [Step; 1] = [Truncator::Coefficient(CoefficientTruncator::new(Some(0.1)))];
    assert!(reject_numerical_only(&shared).is_ok());
    assert!(reject_surrogate_only(&shared).is_ok());
    let simplify: [Step; 1] = [Truncator::Simplify(Simplify::new(true))];
    let refused: TruncatorRefused = reject_surrogate_only(&simplify).unwrap_err();
    assert!(!refused.message().is_empty());
}
