use propaq::basis::{Basis, BasisKind, Phase};
use propaq::bits::Key;
use propaq::coeff::CoeffRepr;
use propaq::emit::EmitCutoff;
use propaq::partitioned_termsum::PartitionedTermSum;
use propaq::strings::Monomial;
use propaq::term_kernel::KeepAll;
use propaq::termsum::{partition_of, TermSum};

/// A double-precision coefficient.
#[derive(Clone, Copy, Debug, PartialEq)]
struct F(f64);

const EPS: f64 = 1e-9;

impl CoeffRepr for F {
    type GateParam = f64;
    type Real = f64;

    fn zero() -> Self {
        F(0.0)
    }
    fn from_real(c: f64) -> Self {
        F(c)
    }
    fn duplicate(&self) -> Self {
        *self
    }
    fn add_assign(&mut self, other: Self) {
        self.0 += other.0;
    }
    fn post_merge(&mut self) {}
    fn apply_rotation(&mut self, angle: &f64, phase: Phase) -> Self {
        let (sin_t, cos_t) = angle.sin_cos();
        let sin = F(self.0 * sin_t * f64::from(phase.minus_imaginary()));
        self.0 *= cos_t;
        sin
    }
    fn rotation_factors(angle: &f64) -> Option<(f64, f64)> {
        Some(angle.sin_cos())
    }
    fn sin_branch_magnitude(&self, sin: f64) -> f64 {
        (self.0 * sin).abs()
    }
    fn scale_real(&mut self, factor: f64) {
        self.0 *= factor;
    }
    fn real_unit(n: i8) -> f64 {
        f64::from(n)
    }
    fn size_hint(&self) -> u128 {
        1
    }
    fn passes_coeff_cutoff(&self, cutoff: f64) -> bool {
        self.0.abs() >= cutoff
    }
    fn magnitude(&self) -> f64 {
        self.0.abs()
    }
    fn real_at_least(a: f64, b: f64) -> bool {
        a >= b
    }
    fn real_less(a: f64, b: f64) -> bool {
        a < b
    }
    fn add_to_total(&self, total: f64, trace: i8) -> f64 {
        total + self.0 * f64::from(trace)
    }
    fn real_add(a: f64, b: f64) -> f64 {
        a + b
    }
    fn real_mul(a: f64, b: f64) -> f64 {
        a * b
    }
    fn real_is_one(a: f64) -> bool {
        (a - 1.0).abs() < EPS
    }
    fn real_is_zero(a: f64) -> bool {
        a == 0.0
    }
    fn tolerance() -> f64 {
        EPS
    }
    fn is_clifford_param(angle: &f64, eps: f64) -> bool {
        angle.cos().abs() < eps
    }
    fn phase_only_scale(angle: &f64, eps: f64) -> Option<f64> {
        let (sin_t, cos_t) = angle.sin_cos();
        if sin_t.abs() < eps {
            Some(cos_t)
        } else {
            None
        }
    }
    fn clifford_branch_sign(angle: &f64, phase: Phase) -> Option<i8> {
        let turn = if angle.sin() < 0.0 { -1 } else { 1 };
        Some(turn * phase.minus_imaginary())
    }
}

const W: usize = 1;

/// A minimal test algebra: units are single bits, terms anticommute when
/// their overlap with the generator is odd, and the product is an XOR.
struct TestAlgebra;

impl Basis<W> for TestAlgebra {
    type GenContext = Monomial<W>;

    // The laws have no run-time content.
    fn fold_law(_ctx: Monomial<W>, _m: Key) {}
    fn imaginary_law(_g: Key, _m: Key) {}

    fn kind() -> BasisKind {
        BasisKind::Pauli
    }
    fn make_signed_gen_context(gen: &Monomial<W>, sign: i8) -> Self::GenContext {
        assert_eq!(sign, 1, "the test algebra carries no generator sign");
        *gen
    }
    fn generator(ctx: &Self::GenContext) -> &Monomial<W> {
        ctx
    }
    fn anticommutes(ctx: &Self::GenContext, mono: &Monomial<W>) -> bool {
        mono.parity_and(ctx)
    }
    // The test algebra's fold is the generator itself: anticommutation is
    // the plain overlap parity, with no pair swap.
    fn fold_generator(ctx: &Self::GenContext) -> &Monomial<W> {
        ctx
    }
    fn fold_needs_odd_correction(_ctx: &Self::GenContext) -> bool {
        false
    }
    fn product(ctx: &Self::GenContext, mono: &Monomial<W>) -> (Monomial<W>, Phase) {
        (*mono ^ *ctx, Phase::I)
    }
    fn weight(mono: &Monomial<W>, _n_units: usize) -> u32 {
        mono.count() as u32
    }
    fn trace(mono: &Monomial<W>, _n_units: usize, fock: &[u64]) -> i8 {
        let f = fock.first().copied().unwrap_or(0);
        if mono.words()[0] & f == 0 {
            1
        } else {
            -1
        }
    }
}

fn mono(bits: &[usize]) -> Monomial<W> {
    Monomial::from_positions(bits)
}

type Part = PartitionedTermSum<F, u16, W>;
type Narrow = PartitionedTermSum<F, u8, W>;
type Single = TermSum<F, u16, W>;
type Cutoff = EmitCutoff<f64, KeepAll>;
type Values = std::collections::HashMap<u64, f64>;

fn values<I: Iterator<Item = (Monomial<W>, f64)>>(it: I) -> Values {
    it.filter(|(_, c)| *c != 0.0).map(|(k, c)| (k.words()[0], c)).collect()
}

struct Rng(u64);

impl Rng {
    fn next_u64(&mut self) -> u64 {
        let mut x = self.0;
        x ^= x << 13;
        x ^= x >> 7;
        x ^= x << 17;
        self.0 = x;
        x
    }
    fn below(&mut self, n: u64) -> u64 {
        self.next_u64() % n
    }
    fn unit(&mut self) -> f64 {
        (self.next_u64() >> 11) as f64 * (1.0 / (1u64 << 53) as f64)
    }
}

/// Drives both engines through one seeded circuit and returns their term maps.
/// The partitioned engine must agree with the single-partition one term for
/// term regardless of how many partitions it uses.
fn run_both(seed: u64, n_partitions: usize, n_gates: usize) -> (Values, Values) {
    run_both_with(seed, n_partitions, n_gates, &Cutoff::none())
}

/// [`run_both`] under a given cutoff.
fn run_both_with(
    seed: u64,
    n_partitions: usize,
    n_gates: usize,
    cutoff: &Cutoff,
) -> (Values, Values) {
    let mut rng = Rng(seed);
    let seeds: Vec<(Monomial<W>, f64)> =
        (0..4).map(|_| (mono(&[rng.below(6) as usize]), 1.0 + rng.unit())).collect();
    let gates: Vec<(Monomial<W>, f64)> = (0..n_gates)
        .map(|_| {
            // Even-popcount generators, so a key and its image can both be
            // sources of one rotation and the ordering is tested.
            let a = rng.below(6) as usize;
            let b = (a + 1 + rng.below(5) as usize) % 6;
            (mono(&[a, b]), 0.1 + rng.unit())
        })
        .collect();

    let mut single = Single::new(8);
    for (k, c) in &seeds {
        single.add(k, F(*c)).unwrap();
    }
    for (g, angle) in &gates {
        single.apply_rotation::<TestAlgebra, KeepAll>(g, angle, cutoff).unwrap();
    }

    let mut part = Part::new(8, n_partitions);
    for (k, c) in &seeds {
        part.add(k, F(*c)).unwrap();
    }
    for (g, angle) in &gates {
        part.apply_rotation::<TestAlgebra, KeepAll>(g, angle, cutoff).unwrap();
    }

    (
        values(single.iter().iter().map(|(k, c)| (*k, c.0))),
        values(part.iter::<TestAlgebra>().iter().map(|(k, sign, c)| (*k, f64::from(*sign) * c.0))),
    )
}

#[test]
fn one_partition_matches_the_single_partition_engine() {
    let (want, got) = run_both(0x9E37_79B9_7F4A_7C15, 1, 20);
    assert_eq!(got, want);
}

#[test]
fn the_pair_rescue_is_independent_of_partition_count() {
    // The rescue is the one decision that spans partitions: a branch is
    // rejected in the partition that owns its source and only earned back
    // by a partner that may live anywhere.
    let cutoff = Cutoff { min_coeff: Some(0.1), ..Cutoff::none() };
    for &s in &[1usize, 2, 3, 5, 8] {
        let (want, got) = run_both_with(0x1234_5678_9ABC_DEF1, s, 40, &cutoff);
        assert_eq!(got.len(), want.len(), "{s} partitions: term count diverged");
        for (key, wv) in &want {
            let gv = got.get(key).unwrap_or_else(|| panic!("{s} partitions: key {key} missing"));
            assert!(
                (gv - wv).abs() <= 1e-9 * wv.abs().max(1.0),
                "{s} partitions: key {key} diverged: got {gv} want {wv}"
            );
        }
    }
}

#[test]
fn reclaim_drops_decayed_terms_and_leaves_the_store_usable() {
    // A coefficient that only falls under the cutoff after the term was
    // admitted. Every row index moves, so this also asserts the rebuilt store
    // still propagates.
    let cutoff = Cutoff { min_coeff: Some(0.1), ..Cutoff::none() };
    let mut op = Narrow::new(8, 4);
    for k in 0..24u64 {
        op.add(&mono(&[(k % 6) as usize, ((k / 6) + 1) as usize]), F(1.0)).unwrap();
    }
    let before = op.len();
    assert!(before > 4, "need enough terms to spread over four partitions");

    // Decay everything well under the cutoff, as a noise layer would.
    op.scale_by_weight::<TestAlgebra, _>(|_w: u32| 1e-6);
    let dropped = op.reclaim::<TestAlgebra, KeepAll>(&cutoff).unwrap();
    assert_eq!(dropped, before, "every term was below the cutoff");
    assert_eq!(op.len(), 0);

    // And the emptied store still works.
    op.add(&mono(&[0]), F(1.0)).unwrap();
    op.apply_rotation::<TestAlgebra, KeepAll>(&mono(&[0]), &0.3, &Cutoff::none()).unwrap();
    assert_eq!(op.len(), 2, "the rebuilt store must still branch");
}

#[test]
fn reclaim_keeps_what_the_cutoff_still_admits() {
    let cutoff = Cutoff { min_coeff: Some(0.1), ..Cutoff::none() };
    let mut op = Narrow::new(8, 4);
    op.add(&mono(&[0]), F(1.0)).unwrap();
    op.add(&mono(&[1]), F(1e-9)).unwrap();
    op.add(&mono(&[2]), F(0.5)).unwrap();
    let dropped = op.reclaim::<TestAlgebra, KeepAll>(&cutoff).unwrap();
    assert_eq!(dropped, 1, "only the term under the cutoff goes");
    assert_eq!(op.len(), 2);
}

#[test]
fn reclaim_without_a_cutoff_is_a_no_op() {
    let mut op = Narrow::new(8, 4);
    op.add(&mono(&[0]), F(1e-30)).unwrap();
    assert_eq!(op.reclaim::<TestAlgebra, KeepAll>(&Cutoff::none()).unwrap(), 0);
    assert_eq!(op.len(), 1, "nothing may be dropped when nothing was asked for");
}

#[test]
fn partition_count_does_not_change_the_result() {
    for &s in &[1usize, 2, 3, 4, 8, 16] {
        let (want, got) = run_both(0x2545_F491_4F6C_DD1D, s, 24);
        assert_eq!(got.len(), want.len(), "{s} partitions: term count diverged");
        for (key, wv) in &want {
            let gv = got.get(key).unwrap_or_else(|| panic!("{s} partitions: key {key} missing"));
            assert!(
                (gv - wv).abs() <= 1e-9 * wv.abs().max(1.0),
                "{s} partitions: key {key} diverged: got {gv} want {wv}"
            );
        }
    }
}

#[test]
fn a_term_lives_only_in_the_partition_that_owns_its_key() {
    let mut part = Part::new(8, 4);
    let mut rng = Rng(0x853C_49E6_748F_EA9B);
    for _ in 0..64 {
        part.add(&mono(&[rng.below(6) as usize]), F(1.0)).unwrap();
    }
    for _ in 0..12 {
        let a = rng.below(6) as usize;
        let b = (a + 1) % 6;
        part.apply_rotation::<TestAlgebra, KeepAll>(&mono(&[a, b]), &0.3, &Cutoff::none())
            .unwrap();
    }
    for idx in 0..part.n_partitions() {
        for (key, _) in part.partition(idx).iter() {
            assert_eq!(
                partition_of(&key, 4),
                idx,
                "a key was stored outside its owning partition"
            );
        }
    }
}

#[test]
fn expectation_agrees_across_partition_counts() {
    let fock = [0b101u64];
    let mut baseline = None;
    for &s in &[1usize, 2, 5, 8] {
        let mut part = Part::new(8, s);
        let mut rng = Rng(0xD1B5_4A32_D192_ED03);
        for _ in 0..16 {
            part.add(&mono(&[rng.below(6) as usize]), F(1.0 + rng.unit())).unwrap();
        }
        for _ in 0..10 {
            let a = rng.below(6) as usize;
            let b = (a + 1) % 6;
            part.apply_rotation::<TestAlgebra, KeepAll>(&mono(&[a, b]), &0.3, &Cutoff::none())
                .unwrap();
        }
        let got = part.expectation::<TestAlgebra>(&fock);
        match baseline {
            None => baseline = Some(got),
            Some(want) => {
                assert!((got - want as f64).abs() < 1e-9, "{s} partitions: expectation {got} vs {want}")
            }
        }
    }
}

#[test]
fn a_phase_only_rotation_scales_every_partition_without_appending() {
    let mut part = Part::new(8, 4);
    for q in 0..6usize {
        part.add(&mono(&[q]), F(1.0)).unwrap();
    }
    let before = part.len();
    let added = part
        .apply_rotation::<TestAlgebra, KeepAll>(
            &mono(&[0, 1]),
            &std::f64::consts::PI,
            &Cutoff::none(),
        )
        .unwrap();
    assert_eq!(added, 0);
    assert_eq!(part.len(), before, "a phase-only rotation must not grow the store");
}

#[test]
fn an_empty_operator_is_a_no_op() {
    let mut part = Part::new(8, 4);
    assert_eq!(
        part.apply_rotation::<TestAlgebra, KeepAll>(&mono(&[0]), &0.3, &Cutoff::none()).unwrap(),
        0
    );
    assert!(part.is_empty());
}

#[test]
fn retain_drops_what_the_predicate_refuses_in_every_partition() {
    let mut part = Part::new(8, 3);
    for q in 0..6usize {
        part.add(&mono(&[q]), F(q as f64)).unwrap();
    }
    let dropped = part.retain(|_key: &Monomial<W>, c: &F| c.0 >= 3.0).unwrap();
    assert_eq!(dropped, 3);
    assert_eq!(part.len(), 3);
    assert_eq!(part.terms_below(4.5), 2);
    assert_eq!(part.sum_coeffs(|c: &F| c.0 as u128), 12);
}

#[test]
fn rotations_are_counted_as_they_branch_and_meet() {
    let mut op = Part::new(8, 3);
    op.add(&mono(&[0]), F(1.0)).unwrap();
    op.apply_rotation::<TestAlgebra, KeepAll>(&mono(&[0]), &0.3, &Cutoff::none()).unwrap();
    assert_eq!(op.exchange_counts(), (1, 0), "the branch is new");
    assert_eq!(op.scan_counts(), (1, 0));
    op.apply_rotation::<TestAlgebra, KeepAll>(&mono(&[0]), &0.3, &Cutoff::none()).unwrap();
    assert_eq!(op.exchange_counts(), (2, 1), "the branch meets a term");
    assert_eq!(op.scan_counts(), (2, 0));
    let half = std::f64::consts::PI;
    op.apply_rotation::<TestAlgebra, KeepAll>(&mono(&[0]), &half, &Cutoff::none()).unwrap();
    assert_eq!(op.exchange_counts(), (2, 1), "a half turn sends nothing");
}

#[test]
fn time_spent_is_never_taken_back() {
    let mut op = Part::new(8, 2);
    assert_eq!((op.phase_nanos(), op.claims_nanos()), ((0, 0), 0));
    op.add(&mono(&[0]), F(1.0)).unwrap();
    let mut last = (0, 0);
    for _ in 0..20 {
        op.apply_rotation::<TestAlgebra, KeepAll>(&mono(&[0]), &0.3, &Cutoff::none()).unwrap();
        let now = op.phase_nanos();
        assert!(last.0 <= now.0 && last.1 <= now.1);
        last = now;
    }
    let (scan, absorb) = op.phase_nanos();
    assert_eq!(op.phase_busy_nanos(), (scan, absorb + op.claims_nanos()));
    let stats = op.phase_stats(4);
    assert_eq!((stats.times.scan, stats.times.absorb), (scan, absorb));
}

#[test]
fn a_second_reclaim_drops_nothing() {
    let cutoff = Cutoff { min_coeff: Some(0.1), ..Cutoff::none() };
    let mut op = Narrow::new(8, 4);
    for (i, c) in [1.0, 0.01, 0.5, 0.02, 0.2].into_iter().enumerate() {
        op.add(&mono(&[i]), F(c)).unwrap();
    }
    assert_eq!(op.reclaim::<TestAlgebra, KeepAll>(&cutoff).unwrap(), 2);
    assert_eq!(op.reclaim::<TestAlgebra, KeepAll>(&cutoff).unwrap(), 0);
    assert_eq!(op.len(), 3);
}
