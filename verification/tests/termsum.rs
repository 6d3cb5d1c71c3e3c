use propaq::basis::{Basis, BasisKind, Phase};
use propaq::bits::Key;
use propaq::coeff::CoeffRepr;
use propaq::emit::{admits_initial, EmitCutoff};
use propaq::strings::Monomial;
use propaq::term_kernel::KeepAll;
use propaq::termsum::TermSum;

/// A double-precision coefficient.
#[derive(Clone, Copy, Debug, PartialEq)]
struct F(f64);

const EPS: f64 = 1e-9;

impl CoeffRepr for F {
    type GateParam = f64;
    type Real = f64;

    fn zero() -> Self {
        F(0.0)
    }
    fn from_real(c: f64) -> Self {
        F(c)
    }
    fn duplicate(&self) -> Self {
        *self
    }
    fn add_assign(&mut self, other: Self) {
        self.0 += other.0;
    }
    fn post_merge(&mut self) {}
    fn apply_rotation(&mut self, angle: &f64, phase: Phase) -> Self {
        let (sin_t, cos_t) = angle.sin_cos();
        let sin = F(self.0 * sin_t * f64::from(phase.minus_imaginary()));
        self.0 *= cos_t;
        sin
    }
    fn rotation_factors(angle: &f64) -> Option<(f64, f64)> {
        Some(angle.sin_cos())
    }
    fn sin_branch_magnitude(&self, sin: f64) -> f64 {
        (self.0 * sin).abs()
    }
    fn scale_real(&mut self, factor: f64) {
        self.0 *= factor;
    }
    fn real_unit(n: i8) -> f64 {
        f64::from(n)
    }
    fn size_hint(&self) -> u128 {
        1
    }
    fn passes_coeff_cutoff(&self, cutoff: f64) -> bool {
        self.0.abs() >= cutoff
    }
    fn magnitude(&self) -> f64 {
        self.0.abs()
    }
    fn real_at_least(a: f64, b: f64) -> bool {
        a >= b
    }
    fn real_less(a: f64, b: f64) -> bool {
        a < b
    }
    fn add_to_total(&self, total: f64, trace: i8) -> f64 {
        total + self.0 * f64::from(trace)
    }
    fn real_add(a: f64, b: f64) -> f64 {
        a + b
    }
    fn real_mul(a: f64, b: f64) -> f64 {
        a * b
    }
    fn real_is_one(a: f64) -> bool {
        (a - 1.0).abs() < EPS
    }
    fn real_is_zero(a: f64) -> bool {
        a == 0.0
    }
    fn tolerance() -> f64 {
        EPS
    }
    fn is_clifford_param(angle: &f64, eps: f64) -> bool {
        angle.cos().abs() < eps
    }
    fn phase_only_scale(angle: &f64, eps: f64) -> Option<f64> {
        let (sin_t, cos_t) = angle.sin_cos();
        if sin_t.abs() < eps {
            Some(cos_t)
        } else {
            None
        }
    }
    fn clifford_branch_sign(angle: &f64, phase: Phase) -> Option<i8> {
        let turn = if angle.sin() < 0.0 { -1 } else { 1 };
        Some(turn * phase.minus_imaginary())
    }
}

const W: usize = 1;

/// A minimal test algebra: units are single bits, terms anticommute when
/// their overlap with the generator is odd, and the product is an XOR.
struct TestAlgebra;

impl Basis<W> for TestAlgebra {
    type GenContext = Monomial<W>;

    // The laws have no run-time content.
    fn fold_law(_ctx: Monomial<W>, _m: Key) {}
    fn imaginary_law(_g: Key, _m: Key) {}

    fn kind() -> BasisKind {
        BasisKind::Pauli
    }
    fn make_signed_gen_context(gen: &Monomial<W>, sign: i8) -> Self::GenContext {
        assert_eq!(sign, 1, "the test algebra carries no generator sign");
        *gen
    }
    fn generator(ctx: &Self::GenContext) -> &Monomial<W> {
        ctx
    }
    fn anticommutes(ctx: &Self::GenContext, mono: &Monomial<W>) -> bool {
        mono.parity_and(ctx)
    }
    // The test algebra's fold is the generator itself: anticommutation is
    // the plain overlap parity, with no pair swap.
    fn fold_generator(ctx: &Self::GenContext) -> &Monomial<W> {
        ctx
    }
    fn fold_needs_odd_correction(_ctx: &Self::GenContext) -> bool {
        false
    }
    fn product(ctx: &Self::GenContext, mono: &Monomial<W>) -> (Monomial<W>, Phase) {
        (*mono ^ *ctx, Phase::I)
    }
    fn weight(mono: &Monomial<W>, _n_units: usize) -> u32 {
        mono.count() as u32
    }
    fn trace(mono: &Monomial<W>, _n_units: usize, fock: &[u64]) -> i8 {
        let f = fock.first().copied().unwrap_or(0);
        if mono.words()[0] & f == 0 {
            1
        } else {
            -1
        }
    }
}

fn mono(bits: &[usize]) -> Monomial<W> {
    Monomial::from_positions(bits)
}

type Op = TermSum<F, u16, W>;
type Cutoff = EmitCutoff<f64, KeepAll>;

fn values(op: &Op) -> std::collections::HashMap<u64, f64> {
    op.iter().iter().map(|(k, c)| (k.words()[0], c.0)).collect()
}

fn rotate(op: &mut Op, gen: &Monomial<W>, angle: f64, cutoff: &Cutoff) -> usize {
    op.apply_rotation::<TestAlgebra, KeepAll>(gen, &angle, cutoff).unwrap()
}

#[test]
fn add_folds_a_duplicate_key_instead_of_appending() {
    let mut op = Op::new(8);
    op.add(&mono(&[0]), F(1.0)).unwrap();
    op.add(&mono(&[1]), F(2.0)).unwrap();
    op.add(&mono(&[0]), F(3.0)).unwrap();
    assert_eq!(op.len(), 2, "the duplicate must fold, not append");
    let v = values(&op);
    assert_eq!(v[&0b01], 4.0);
    assert_eq!(v[&0b10], 2.0);
}

#[test]
fn a_commuting_term_is_untouched_by_a_rotation() {
    let mut op = Op::new(8);
    op.add(&mono(&[1]), F(5.0)).unwrap();
    // Overlap with generator {0} is zero, so it commutes.
    let added = rotate(&mut op, &mono(&[0]), 0.7, &Cutoff::none());
    assert_eq!(added, 0);
    assert_eq!(op.len(), 1);
    assert_eq!(op.coeff(0).0, 5.0);
}

#[test]
fn an_anticommuting_term_splits_into_cos_and_sin_branches() {
    let mut op = Op::new(8);
    op.add(&mono(&[0]), F(2.0)).unwrap();
    let angle = 0.3f64;
    let added = rotate(&mut op, &mono(&[0]), angle, &Cutoff::none());
    assert_eq!(added, 1);
    assert_eq!(op.len(), 2);
    let v = values(&op);
    assert!((v[&0b01] - 2.0 * angle.cos()).abs() < 1e-12, "cos branch");
    assert!((v[&0b00] - (2.0 * angle.sin() * -1.0)).abs() < 1e-12, "sin branch");
}

/// A generator of even popcount, so that a key and its image under the
/// generator both anticommute with it.
fn paired_generator() -> Monomial<W> {
    mono(&[0, 1])
}

#[test]
fn a_child_landing_on_an_existing_row_accumulates_rather_than_appending() {
    let mut op = Op::new(8);
    // Both keys anticommute with {0,1}, and each maps onto the other.
    op.add(&mono(&[0]), F(2.0)).unwrap();
    op.add(&mono(&[1]), F(3.0)).unwrap();
    assert_eq!(op.len(), 2);
    let added = rotate(&mut op, &paired_generator(), 0.3, &Cutoff::none());
    assert_eq!(added, 0, "both children already exist, so nothing is appended");
    assert_eq!(op.len(), 2);
}

#[test]
fn the_sine_branch_is_taken_against_the_pre_rotation_coefficient() {
    // Rows 0 and 1 map onto each other under the generator and are both
    // sources of one rotation.
    let angle = 0.4f64;
    let (c0, c1) = (2.0f64, 5.0f64);
    let mut op = Op::new(8);
    op.add(&mono(&[0]), F(c0)).unwrap();
    op.add(&mono(&[1]), F(c1)).unwrap();
    rotate(&mut op, &paired_generator(), angle, &Cutoff::none());

    let v = values(&op);
    let (sin_t, cos_t) = angle.sin_cos();
    // Each row keeps its own cos branch and receives the other's sin branch.
    let want_0 = c0 * cos_t + c1 * sin_t * -1.0;
    let want_1 = c1 * cos_t + c0 * sin_t * -1.0;
    assert!((v[&0b01] - want_0).abs() < 1e-12, "got {}, want {want_0}", v[&0b01]);
    assert!((v[&0b10] - want_1).abs() < 1e-12, "got {}, want {want_1}", v[&0b10]);
}

#[test]
fn a_phase_only_rotation_scales_without_appending() {
    let mut op = Op::new(8);
    op.add(&mono(&[0]), F(2.0)).unwrap();
    op.add(&mono(&[1]), F(3.0)).unwrap();
    let added = rotate(&mut op, &mono(&[0]), std::f64::consts::PI, &Cutoff::none());
    assert_eq!(added, 0);
    assert_eq!(op.len(), 2, "a phase-only rotation must not grow the store");
    let v = values(&op);
    assert!((v[&0b01] + 2.0).abs() < 1e-12, "anticommuting term scaled by cos(pi)");
    assert_eq!(v[&0b10], 3.0, "commuting term untouched");
}

#[test]
fn a_weight_cutoff_suppresses_the_child_at_emit_time() {
    let mut op = Op::new(8);
    op.add(&mono(&[0, 1]), F(1.0)).unwrap();
    // The child is {0,1,2}, weight 3, above the cutoff.
    let cutoff = Cutoff { max_weight: Some(2), ..Cutoff::none() };
    let added = rotate(&mut op, &mono(&[2]), 0.3, &cutoff);
    assert_eq!(added, 0, "the over-weight child must never be created");
    assert_eq!(op.len(), 1);
}

#[test]
fn a_coefficient_cutoff_suppresses_a_small_child_at_emit_time() {
    let mut op = Op::new(8);
    op.add(&mono(&[0]), F(1e-12)).unwrap();
    let cutoff = Cutoff { min_coeff: Some(1e-6), ..Cutoff::none() };
    let added = rotate(&mut op, &mono(&[0]), 0.3, &cutoff);
    assert_eq!(added, 0, "the tiny child must never be created");
    assert_eq!(op.len(), 1);
}

#[test]
fn a_pair_rescue_keeps_the_branch_its_partner_paid_for() {
    // Rows 0 and 1 are each other's image under the generator and rotate as a
    // pair. The small one's branch is far below the cutoff and the large one's
    // is far above it.
    let angle = 0.3f64;
    let (big, small) = (1.0f64, 1e-9f64);
    let cutoff = Cutoff { min_coeff: Some(1e-6), ..Cutoff::none() };
    let mut op = Op::new(8);
    op.add(&mono(&[0]), F(big)).unwrap();
    op.add(&mono(&[1]), F(small)).unwrap();
    rotate(&mut op, &paired_generator(), angle, &cutoff);

    let v = values(&op);
    let (sin_t, cos_t) = angle.sin_cos();
    assert_eq!(op.len(), 2, "a rescue must not create a row");
    assert!(
        (v[&0b01] - (big * cos_t + small * sin_t * -1.0)).abs() < 1e-18,
        "the rejected branch is owed back to its partner, got {}",
        v[&0b01]
    );
    assert!((v[&0b10] - (small * cos_t + big * sin_t * -1.0)).abs() < 1e-15, "the cleared branch");
}

#[test]
fn a_term_floor_suppresses_the_lossy_predicates_while_the_store_is_small() {
    // Below the floor nothing may be refused, so a branch the coefficient
    // bound would drop has to survive.
    let angle = 0.3f64;
    let biting = Cutoff { min_coeff: Some(1e-6), ..Cutoff::none() };
    assert!(biting.at_size(1).min_coeff.is_some(), "no floor set, so nothing is suppressed");

    let floored = Cutoff { min_coeff: Some(1e-6), min_terms: Some(1000), ..Cutoff::none() };
    assert!(floored.at_size(10).min_coeff.is_none(), "below the floor the bound must be off");
    assert!(floored.at_size(1000).min_coeff.is_some(), "at the floor the bound comes back");

    // And end to end. The generator must overlap the term oddly or nothing
    // branches at all and the test would pass for the wrong reason.
    let tiny = 1e-9f64;
    let gen = mono(&[0]);
    let mut with_floor = Op::new(8);
    with_floor.add(&mono(&[0]), F(tiny)).unwrap();
    let effective = floored.at_size(with_floor.len());
    rotate(&mut with_floor, &gen, angle, &effective);
    assert_eq!(with_floor.len(), 2, "below the floor the tiny branch must survive");

    let mut no_floor = Op::new(8);
    no_floor.add(&mono(&[0]), F(tiny)).unwrap();
    let effective = biting.at_size(no_floor.len());
    rotate(&mut no_floor, &gen, angle, &effective);
    assert_eq!(no_floor.len(), 1, "without a floor the same branch must be refused");
}

#[test]
fn a_term_floor_carries_through_a_lossless_copy() {
    // `lossless` must keep the floor itself, or the suppression would
    // un-suppress on the next rotation and oscillate.
    let c = Cutoff {
        max_weight: Some(3),
        min_coeff: Some(1e-6),
        min_terms: Some(50),
        ..Cutoff::none()
    };
    let l = c.lossless();
    assert_eq!(l.min_terms, Some(50));
    assert!(l.max_weight.is_none() && l.min_coeff.is_none() && l.native.is_none());
}

#[test]
fn a_pair_rescue_does_not_revive_a_branch_neither_half_earned() {
    // Both branches are below the cutoff, so there is nothing to rescue:
    // the pair is only scaled by its cosines.
    let angle = 0.3f64;
    let cutoff = Cutoff { min_coeff: Some(1e-6), ..Cutoff::none() };
    let mut op = Op::new(8);
    op.add(&mono(&[0]), F(1e-9)).unwrap();
    op.add(&mono(&[1]), F(2e-9)).unwrap();
    rotate(&mut op, &paired_generator(), angle, &cutoff);

    let v = values(&op);
    let cos_t = angle.cos();
    assert_eq!(op.len(), 2);
    assert!((v[&0b01] - 1e-9 * cos_t).abs() < 1e-24);
    assert!((v[&0b10] - 2e-9 * cos_t).abs() < 1e-24);
}

#[test]
fn a_pair_rescue_needs_both_halves_in_the_store() {
    // The partner is absent, so the small branch has no pair to belong to
    // and the cutoff stands.
    let cutoff = Cutoff { min_coeff: Some(1e-6), ..Cutoff::none() };
    let mut op = Op::new(8);
    op.add(&mono(&[0]), F(1e-9)).unwrap();
    let added = rotate(&mut op, &mono(&[0]), 0.3, &cutoff);
    assert_eq!(added, 0, "a lone tiny term still may not create a child");
    assert_eq!(op.len(), 1);
}

#[test]
fn repeated_rotations_keep_the_store_deduplicated() {
    let mut op = Op::new(8);
    op.add(&mono(&[0]), F(1.0)).unwrap();
    for _ in 0..12 {
        rotate(&mut op, &mono(&[0]), 0.3, &Cutoff::none());
    }
    // The generator toggles bit 0, so the orbit is exactly two keys no
    // matter how many times it is applied.
    assert_eq!(op.len(), 2, "dedup on insert must bound the orbit");
}

#[test]
fn expectation_sums_coefficient_times_trace() {
    let mut op = Op::new(8);
    op.add(&mono(&[0]), F(2.0)).unwrap();
    op.add(&mono(&[1]), F(3.0)).unwrap();
    let got = op.expectation::<TestAlgebra>(&[0b01]);
    assert!((got - (2.0 * -1.0 + 3.0 * 1.0)).abs() < 1e-12);
}

#[test]
fn rows_are_never_removed_so_indices_stay_stable() {
    let mut op = Op::new(8);
    op.add(&mono(&[0]), F(1.0)).unwrap();
    let key0 = op.key(0);
    for _ in 0..8 {
        rotate(&mut op, &mono(&[1]), 0.3, &Cutoff::none());
    }
    assert_eq!(op.key(0), key0, "row 0 must still hold its original key");
}

#[test]
fn u16_positions_are_wide_enough_for_this_width() {
    assert!(Monomial::<W>::num_bits() <= u16::MAX as usize);
}

#[test]
fn repacking_moves_no_row_and_loses_no_term() {
    let mut op = Op::with_inline_positions(8, 1);
    op.add(&mono(&[0, 1, 2]), F(1.0)).unwrap();
    op.add(&mono(&[3]), F(2.0)).unwrap();
    assert_eq!(op.overflow_len(), 1);
    op.repack(4).unwrap();
    assert_eq!(op.overflow_len(), 0);
    assert_eq!(op.key(0), mono(&[0, 1, 2]));
    assert_eq!(op.key(1), mono(&[3]));
    assert_eq!(op.coeff(1).0, 2.0);
}

#[test]
fn retained_rows_keep_their_order() {
    let mut op = Op::new(8);
    for k in 0..5usize {
        op.add(&mono(&[k]), F(k as f64)).unwrap();
    }
    let dropped = op.reclaim(|_key: &Monomial<W>, c: &F| c.0 >= 2.0).unwrap();
    assert_eq!(dropped, 2);
    assert_eq!(op.len(), 3);
    for k in 0..3usize {
        assert_eq!(op.key(k), mono(&[k + 2]));
        assert_eq!(op.coeff(k).0, (k + 2) as f64);
    }
}

#[test]
fn damping_reads_the_weight() {
    let mut op = Op::new(8);
    op.add(&mono(&[0]), F(8.0)).unwrap();
    op.add(&mono(&[0, 1, 2]), F(8.0)).unwrap();
    op.scale_by_weight::<TestAlgebra, _>(|w: u32| if w == 1 { 0.5 } else { 0.25 });
    assert_eq!(op.coeff(0).0, 4.0);
    assert_eq!(op.coeff(1).0, 2.0);
}

#[test]
fn terms_that_have_cancelled_are_counted() {
    let mut op = Op::new(8);
    op.add(&mono(&[0]), F(1.0)).unwrap();
    op.add(&mono(&[1]), F(2.0)).unwrap();
    op.add(&mono(&[0]), F(-1.0)).unwrap();
    assert_eq!(op.zero_terms(), 1);
    assert_eq!(op.len(), 2, "a cancelled term keeps its row");
    let (dense, sparse, dense_columns) = op.inverted_index_tiers();
    assert_eq!(op.inverted_index_bytes(), dense + sparse);
    assert_eq!(dense_columns, 0);
}

/// A symbolic coefficient: it cannot tell its size, and outlives every truncation.
#[derive(Clone, Copy, Debug, PartialEq)]
struct Symbol(u32);

impl CoeffRepr for Symbol {
    type GateParam = f64;
    type Real = f64;

    fn zero() -> Self {
        Symbol(0)
    }
    fn from_real(_c: f64) -> Self {
        Symbol(1)
    }
    fn duplicate(&self) -> Self {
        *self
    }
    fn add_assign(&mut self, other: Self) {
        self.0 += other.0;
    }
    fn post_merge(&mut self) {}
    fn apply_rotation(&mut self, _angle: &f64, _phase: Phase) -> Self {
        *self
    }
    fn rotation_factors(_angle: &f64) -> Option<(f64, f64)> {
        None
    }
    fn sin_branch_magnitude(&self, _sin: f64) -> f64 {
        f64::INFINITY
    }
    fn scale_real(&mut self, _factor: f64) {}
    fn real_unit(n: i8) -> f64 {
        f64::from(n)
    }
    fn size_hint(&self) -> u128 {
        1
    }
    fn passes_coeff_cutoff(&self, _cutoff: f64) -> bool {
        true
    }
    fn magnitude(&self) -> f64 {
        0.0
    }
    fn real_at_least(a: f64, b: f64) -> bool {
        a >= b
    }
    fn real_less(a: f64, b: f64) -> bool {
        a < b
    }
    fn add_to_total(&self, total: f64, _trace: i8) -> f64 {
        total
    }
    fn real_add(a: f64, b: f64) -> f64 {
        a + b
    }
    fn real_mul(a: f64, b: f64) -> f64 {
        a * b
    }
    fn real_is_one(a: f64) -> bool {
        a == 1.0
    }
    fn real_is_zero(a: f64) -> bool {
        a == 0.0
    }
    fn tolerance() -> f64 {
        EPS
    }
    fn is_clifford_param(_angle: &f64, _eps: f64) -> bool {
        false
    }
    fn phase_only_scale(_angle: &f64, _eps: f64) -> Option<f64> {
        None
    }
    fn clifford_branch_sign(_angle: &f64, _phase: Phase) -> Option<i8> {
        None
    }
}

#[test]
fn a_branch_is_carried_by_its_magnitude_alone() {
    type Symbolic = TermSum<Symbol, u16, W>;
    let key = Monomial::from_positions(&[0]);
    let bounded = EmitCutoff::<f64, KeepAll> { min_coeff: Some(0.1), ..EmitCutoff::none() };
    assert!(!admits_initial::<TestAlgebra, Symbol, KeepAll, W>(&bounded, &key, &Symbol(3), 4));
    let mut op = Symbolic::new(4);
    op.add(&key, Symbol(1)).unwrap();
    let added = op.apply_rotation::<TestAlgebra, KeepAll>(&key, &0.3, &bounded).unwrap();
    assert_eq!((added, op.len()), (0, 1), "a magnitude of zero is below the bound");
    let at_zero = EmitCutoff::<f64, KeepAll> { min_coeff: Some(0.0), ..EmitCutoff::none() };
    let added = op.apply_rotation::<TestAlgebra, KeepAll>(&key, &0.3, &at_zero).unwrap();
    assert_eq!((added, op.len()), (1, 2), "the bound itself is reached");
}
