use propaq::basis::{Basis, BasisKind, Phase};
use propaq::bits::Key;
use propaq::coeff::CoeffRepr;
use propaq::strings::Monomial;
use propaq::tableau::CliffordTableau;

const W: usize = 2;
const N_UNITS: usize = 8;

/// A double-precision coefficient.
#[derive(Clone, Copy, Debug, PartialEq)]
struct F(f64);

const EPS: f64 = 1e-9;

impl CoeffRepr for F {
    type GateParam = f64;
    type Real = f64;

    fn zero() -> Self {
        F(0.0)
    }
    fn from_real(c: f64) -> Self {
        F(c)
    }
    fn duplicate(&self) -> Self {
        *self
    }
    fn add_assign(&mut self, other: Self) {
        self.0 += other.0;
    }
    fn post_merge(&mut self) {}
    fn apply_rotation(&mut self, angle: &f64, phase: Phase) -> Self {
        let (sin_t, cos_t) = angle.sin_cos();
        let sin = F(self.0 * sin_t * f64::from(phase.minus_imaginary()));
        self.0 *= cos_t;
        sin
    }
    fn rotation_factors(angle: &f64) -> Option<(f64, f64)> {
        Some(angle.sin_cos())
    }
    fn sin_branch_magnitude(&self, sin: f64) -> f64 {
        (self.0 * sin).abs()
    }
    fn scale_real(&mut self, factor: f64) {
        self.0 *= factor;
    }
    fn real_unit(n: i8) -> f64 {
        f64::from(n)
    }
    fn size_hint(&self) -> u128 {
        1
    }
    fn passes_coeff_cutoff(&self, cutoff: f64) -> bool {
        self.0.abs() >= cutoff
    }
    fn magnitude(&self) -> f64 {
        self.0.abs()
    }
    fn real_at_least(a: f64, b: f64) -> bool {
        a >= b
    }
    fn real_less(a: f64, b: f64) -> bool {
        a < b
    }
    fn add_to_total(&self, total: f64, trace: i8) -> f64 {
        total + self.0 * f64::from(trace)
    }
    fn real_add(a: f64, b: f64) -> f64 {
        a + b
    }
    fn real_mul(a: f64, b: f64) -> f64 {
        a * b
    }
    fn real_is_one(a: f64) -> bool {
        (a - 1.0).abs() < EPS
    }
    fn real_is_zero(a: f64) -> bool {
        a == 0.0
    }
    fn tolerance() -> f64 {
        EPS
    }
    fn is_clifford_param(angle: &f64, eps: f64) -> bool {
        angle.cos().abs() < eps
    }
    fn phase_only_scale(angle: &f64, eps: f64) -> Option<f64> {
        let (sin_t, cos_t) = angle.sin_cos();
        if sin_t.abs() < eps {
            Some(cos_t)
        } else {
            None
        }
    }
    fn clifford_branch_sign(angle: &f64, phase: Phase) -> Option<i8> {
        let turn = if angle.sin() < 0.0 { -1 } else { 1 };
        Some(turn * phase.minus_imaginary())
    }
}

/// A minimal Pauli-like algebra over the interleaved layout.
struct TestPauli;

impl Basis<W> for TestPauli {
    type GenContext = (Monomial<W>, Monomial<W>, i8);

    // The laws have no run-time content.
    fn fold_law(_ctx: Self::GenContext, _m: Key) {}
    fn imaginary_law(_g: Key, _m: Key) {}

    fn kind() -> BasisKind {
        BasisKind::Pauli
    }
    fn make_signed_gen_context(gen: &Monomial<W>, sign: i8) -> Self::GenContext {
        (*gen, gen.pair_swap(), sign)
    }
    fn generator(ctx: &Self::GenContext) -> &Monomial<W> {
        &ctx.0
    }
    fn anticommutes(ctx: &Self::GenContext, mono: &Monomial<W>) -> bool {
        mono.parity_and(&ctx.1)
    }
    fn fold_generator(ctx: &Self::GenContext) -> &Monomial<W> {
        &ctx.1
    }
    fn fold_needs_odd_correction(_ctx: &Self::GenContext) -> bool {
        false
    }
    fn product(ctx: &Self::GenContext, mono: &Monomial<W>) -> (Monomial<W>, Phase) {
        let out = *mono ^ ctx.0;
        let y = |m: &Monomial<W>| -> i32 {
            let mut n = 0u32;
            for &w in m.words() {
                n += (w & (w >> 1) & 0x5555_5555_5555_5555).count_ones();
            }
            n as i32
        };
        let zx = {
            let mut n = 0u32;
            for i in 0..W {
                n += ((ctx.0.words()[i] >> 1) & mono.words()[i] & 0x5555_5555_5555_5555)
                    .count_ones();
            }
            n as i32
        };
        let p = (y(&ctx.0) + y(mono) - y(&out) + 2 * zx).rem_euclid(4);
        (out, Phase::from_quarters(p as u8).signed(ctx.2))
    }
    fn weight(mono: &Monomial<W>, _n_units: usize) -> u32 {
        mono.support() as u32
    }
    fn trace(_mono: &Monomial<W>, _n_units: usize, _fock: &[u64]) -> i8 {
        0
    }
}

/// X on qubit q.
fn x(q: usize) -> Monomial<W> {
    Monomial::from_positions(&[2 * q])
}
/// Z on qubit q.
fn z(q: usize) -> Monomial<W> {
    Monomial::from_positions(&[2 * q + 1])
}
/// The product of several single-qubit factors.
fn prod(parts: &[Monomial<W>]) -> Monomial<W> {
    parts.iter().fold(Monomial::zero(), |a, b| a ^ *b)
}

fn zz(a: usize, b: usize) -> Monomial<W> {
    prod(&[z(a), z(b)])
}

const QUARTER: f64 = std::f64::consts::FRAC_PI_2;

fn turn(gen: &Monomial<W>, angle: f64) -> Option<CliffordTableau<W>> {
    CliffordTableau::<W>::for_rotation::<TestPauli, F>(N_UNITS, gen, &angle, EPS)
}

#[test]
fn a_fresh_tableau_is_the_identity() {
    let t = CliffordTableau::<W>::new(N_UNITS);
    assert!(t.is_identity());
    assert!(!t.changes_weight());
    for m in [x(0), z(1), prod(&[x(0), z(2)])] {
        assert_eq!(t.conjugate::<TestPauli>(&m), (m, 1));
    }
}

#[test]
fn a_single_qubit_rotation_reproduces_the_per_qubit_behaviour() {
    // A quarter turn about Z on qubit 0 must send X to Y and leave Z alone.
    let t = turn(&z(0), QUARTER).expect("a quarter turn is Clifford");
    let (img, _) = t.conjugate::<TestPauli>(&x(0));
    assert_eq!(img, prod(&[x(0), z(0)]), "X should map to Y");
    assert_eq!(t.conjugate::<TestPauli>(&z(0)).0, z(0), "Z commutes and is fixed");
    assert!(!t.changes_weight(), "a single-qubit conjugation preserves support");
}

#[test]
fn a_two_qubit_rotation_entangles_and_changes_weight() {
    let t = turn(&zz(0, 1), QUARTER).expect("a quarter turn is Clifford");
    let (img, _) = t.conjugate::<TestPauli>(&x(0));
    assert_eq!(img.support(), 2, "X on one qubit must spread onto two");
    assert!(t.changes_weight(), "a two-qubit conjugation moves weight");
}

#[test]
fn conjugation_preserves_commutation_relations() {
    // This is what makes deferral sound: branching is unchanged, because M
    // anticommutes with C P C^dag exactly when C^dag M C anticommutes with P.
    let t = turn(&zz(0, 1), QUARTER).unwrap();
    let probes = [x(0), z(0), x(1), z(1), prod(&[x(0), x(1)]), prod(&[z(0), x(2)])];
    for a in probes {
        for b in probes {
            let ctx = TestPauli::make_gen_context(&b);
            let before = TestPauli::anticommutes(&ctx, &a);
            let (ia, _) = t.conjugate::<TestPauli>(&a);
            let (ib, _) = t.conjugate::<TestPauli>(&b);
            let ctx_i = TestPauli::make_gen_context(&ib);
            assert_eq!(
                before,
                TestPauli::anticommutes(&ctx_i, &ia),
                "conjugation must preserve commutation"
            );
        }
    }
}

#[test]
fn tableau_conjugation_is_injective_on_keys() {
    let t = turn(&zz(0, 1), QUARTER).unwrap();
    let mut seen = std::collections::HashSet::new();
    for bits in 0..1024u64 {
        let m = Monomial::<W>::from_words([bits, 0]);
        assert!(seen.insert(t.conjugate::<TestPauli>(&m).0), "tableau collapsed two keys");
    }
}

#[test]
fn conjugation_preserves_the_sign_magnitude() {
    let t = turn(&zz(0, 1), QUARTER).unwrap();
    for bits in 0..512u64 {
        let m = Monomial::<W>::from_words([bits, 0]);
        let (_, sign) = t.conjugate::<TestPauli>(&m);
        assert_eq!(sign.abs(), 1, "a conjugation only ever flips a sign");
    }
}

#[test]
fn four_quarter_turns_return_to_the_identity() {
    let step = turn(&zz(0, 1), QUARTER).unwrap();
    let mut acc = CliffordTableau::<W>::new(N_UNITS);
    for _ in 0..4 {
        acc.compose::<TestPauli>(&step);
    }
    for bits in 0..512u64 {
        let m = Monomial::<W>::from_words([bits, 0]);
        let (img, sign) = acc.conjugate::<TestPauli>(&m);
        assert_eq!(img, m, "four quarter turns must restore every key");
        assert_eq!(sign, 1, "and leave no residual sign");
    }
}

#[test]
fn composing_matches_conjugating_in_sequence() {
    let a = turn(&z(0), QUARTER).unwrap();
    let b = turn(&zz(0, 1), QUARTER).unwrap();
    let mut composed = a.clone();
    composed.compose::<TestPauli>(&b);

    for bits in 0..512u64 {
        let m = Monomial::<W>::from_words([bits, 0]);
        let (once, s1) = composed.conjugate::<TestPauli>(&m);
        let (mid, sa) = a.conjugate::<TestPauli>(&m);
        let (twice, sb) = b.conjugate::<TestPauli>(&mid);
        assert_eq!(once, twice, "composition must equal sequential conjugation");
        assert_eq!(s1, sa * sb, "and the signs must agree too");
    }
}

#[test]
fn the_two_directions_are_inverses() {
    // The bug this catches produces keys of the right magnitude with the
    // wrong sign, which no single-direction test can see.
    let mut acc = CliffordTableau::<W>::new(N_UNITS);
    for gen in [z(0), zz(0, 1), x(2), zz(1, 2)] {
        let step = turn(&gen, QUARTER).unwrap();
        acc.compose::<TestPauli>(&step);
    }
    for bits in 0..1024u64 {
        let m = Monomial::<W>::from_words([bits, 0]);
        let (fwd, s1) = acc.conjugate::<TestPauli>(&m);
        let (back, s2) = acc.conjugate_generator::<TestPauli>(&fwd);
        assert_eq!(back, m, "the two directions must round-trip");
        assert_eq!(s1 * s2, 1, "and their signs must cancel");
    }
}

#[test]
fn a_non_clifford_angle_is_rejected() {
    assert!(turn(&z(0), 0.37).is_none(), "a generic angle has no Clifford branch sign");
}

/// Majorana strings: two strings anticommute by the parity of their overlap and lengths.
struct TestMajorana;

impl Basis<W> for TestMajorana {
    type GenContext = (Monomial<W>, i8);

    // The laws have no run-time content.
    fn fold_law(_ctx: Self::GenContext, _m: Key) {}
    fn imaginary_law(_g: Key, _m: Key) {}

    fn kind() -> BasisKind {
        BasisKind::Majorana
    }
    fn make_signed_gen_context(gen: &Monomial<W>, sign: i8) -> Self::GenContext {
        (*gen, sign)
    }
    fn generator(ctx: &Self::GenContext) -> &Monomial<W> {
        &ctx.0
    }
    fn anticommutes(ctx: &Self::GenContext, mono: &Monomial<W>) -> bool {
        let odd = ctx.0.count() % 2 == 1 && mono.count() % 2 == 1;
        mono.parity_and(&ctx.0) != odd
    }
    fn fold_generator(ctx: &Self::GenContext) -> &Monomial<W> {
        &ctx.0
    }
    fn fold_needs_odd_correction(ctx: &Self::GenContext) -> bool {
        ctx.0.count() % 2 == 1
    }
    fn product(ctx: &Self::GenContext, mono: &Monomial<W>) -> (Monomial<W>, Phase) {
        (*mono ^ ctx.0, Phase::from_quarters(1).signed(ctx.1))
    }
    fn weight(mono: &Monomial<W>, _n_units: usize) -> u32 {
        mono.support() as u32
    }
    fn trace(_mono: &Monomial<W>, _n_units: usize, _fock: &[u64]) -> i8 {
        0
    }
}

#[test]
fn exchanging_halves_of_two_modes_moves_weight() {
    // Every single bit keeps its support, but the pair within mode 0 is torn apart.
    let gen = Monomial::from_positions(&[0, 2]);
    let t = CliffordTableau::<W>::for_rotation::<TestMajorana, F>(N_UNITS, &gen, &QUARTER, EPS)
        .expect("a quarter turn is Clifford");
    let pair = Monomial::from_positions(&[0, 1]);
    let (img, _) = t.conjugate::<TestMajorana>(&pair);
    assert_eq!(img, Monomial::from_positions(&[1, 2]));
    assert_eq!((pair.support(), img.support()), (1, 2));
    assert!(t.changes_weight());
}

#[test]
fn turning_within_one_mode_keeps_weight() {
    let gen = Monomial::from_positions(&[0, 1]);
    let t = CliffordTableau::<W>::for_rotation::<TestMajorana, F>(N_UNITS, &gen, &QUARTER, EPS)
        .unwrap();
    assert!(!t.changes_weight());
}

#[test]
fn the_tolerance_decides_what_counts_as_a_quarter_turn() {
    let near = QUARTER + 1e-6;
    assert!(CliffordTableau::<W>::for_rotation::<TestPauli, F>(N_UNITS, &x(0), &near, EPS).is_none());
    assert!(CliffordTableau::<W>::for_rotation::<TestPauli, F>(N_UNITS, &x(0), &near, 1e-3).is_some());
}

#[test]
fn a_built_tableau_reads_back_what_it_pushes() {
    let mut t = CliffordTableau::<W>::new(N_UNITS);
    for (gen, angle) in [
        (zz(0, 1), QUARTER),
        (x(1), -QUARTER),
        (prod(&[x(0), z(2)]), QUARTER),
        (prod(&[x(0), z(0)]), QUARTER),
    ] {
        t.compose::<TestPauli>(&turn(&gen, angle).unwrap());
    }
    for m in [x(0), z(1), prod(&[x(0), x(1), z(2)]), prod(&[z(0), x(2)])] {
        let (read, s) = t.conjugate::<TestPauli>(&m);
        assert_eq!(t.conjugate_generator::<TestPauli>(&read), (m, s));
    }
}
