use propaq::basis::Phase;
use propaq::coeff::CoeffRepr;
use propaq::store::{KernelLayout, SoaTermSum};

/// A double-precision coefficient.
#[derive(Clone, Copy, Debug, PartialEq)]
struct F(f64);

const EPS: f64 = 1e-9;

impl CoeffRepr for F {
    type GateParam = f64;
    type Real = f64;

    fn zero() -> Self {
        F(0.0)
    }
    fn from_real(c: f64) -> Self {
        F(c)
    }
    fn duplicate(&self) -> Self {
        *self
    }
    fn add_assign(&mut self, other: Self) {
        self.0 += other.0;
    }
    fn post_merge(&mut self) {}
    fn apply_rotation(&mut self, angle: &f64, phase: Phase) -> Self {
        let (sin_t, cos_t) = angle.sin_cos();
        let sin = F(self.0 * sin_t * f64::from(phase.minus_imaginary()));
        self.0 *= cos_t;
        sin
    }
    fn rotation_factors(angle: &f64) -> Option<(f64, f64)> {
        Some(angle.sin_cos())
    }
    fn sin_branch_magnitude(&self, sin: f64) -> f64 {
        (self.0 * sin).abs()
    }
    fn scale_real(&mut self, factor: f64) {
        self.0 *= factor;
    }
    fn real_unit(n: i8) -> f64 {
        f64::from(n)
    }
    fn size_hint(&self) -> u128 {
        1
    }
    fn passes_coeff_cutoff(&self, cutoff: f64) -> bool {
        self.0.abs() >= cutoff
    }
    fn magnitude(&self) -> f64 {
        self.0.abs()
    }
    fn real_at_least(a: f64, b: f64) -> bool {
        a >= b
    }
    fn real_less(a: f64, b: f64) -> bool {
        a < b
    }
    fn add_to_total(&self, total: f64, trace: i8) -> f64 {
        total + self.0 * f64::from(trace)
    }
    fn real_add(a: f64, b: f64) -> f64 {
        a + b
    }
    fn real_mul(a: f64, b: f64) -> f64 {
        a * b
    }
    fn real_is_one(a: f64) -> bool {
        (a - 1.0).abs() < EPS
    }
    fn real_is_zero(a: f64) -> bool {
        a == 0.0
    }
    fn tolerance() -> f64 {
        EPS
    }
    fn is_clifford_param(angle: &f64, eps: f64) -> bool {
        angle.cos().abs() < eps
    }
    fn phase_only_scale(angle: &f64, eps: f64) -> Option<f64> {
        let (sin_t, cos_t) = angle.sin_cos();
        if sin_t.abs() < eps {
            Some(cos_t)
        } else {
            None
        }
    }
    fn clifford_branch_sign(angle: &f64, phase: Phase) -> Option<i8> {
        let turn = if angle.sin() < 0.0 { -1 } else { 1 };
        Some(turn * phase.minus_imaginary())
    }
}

/// Guards the storage objective directly: two persistent dense planes would
/// cost `2 * stride * rows` words no matter how few bits each key sets, so a
/// wide, low-weight term sum whose key bytes stay near the set-bit count can
/// have no persistent dense plane fields.
#[test]
fn production_term_sum_has_no_persistent_dense_planes() {
    let stride = 64; // 4096 qubits per plane
    let n_rows = 1000;
    let mut terms = SoaTermSum::<F>::new(4096, stride);
    let mut x = vec![0u64; stride];
    let z = vec![0u64; stride];
    for i in 0..n_rows {
        x[i % stride] = 1;
        terms.push([&x, &z], F(1.0));
        x[i % stride] = 0;
    }
    assert_eq!(terms.len(), n_rows);

    let dense_bytes = 2 * stride * n_rows * std::mem::size_of::<u64>();
    assert!(
        terms.sparse_key_bytes() * 8 < dense_bytes,
        "key storage ({} bytes) is not sparse against the dense equivalent ({dense_bytes} bytes)",
        terms.sparse_key_bytes()
    );
}

#[test]
fn decode_row_reproduces_the_pushed_planes() {
    let stride = 3;
    let mut terms = SoaTermSum::<F>::new(160, stride);
    let x = [0b101u64, 0, 1 << 40];
    let z = [0u64, 1 << 7, 0];
    terms.push([&x, &z], F(2.0));
    let planes = terms.decode_row(0);
    assert_eq!(planes.0, &x[..]);
    assert_eq!(planes.1, &z[..]);
}

#[test]
fn clear_drops_rows_and_invalidates_the_merge_index() {
    let mut terms = SoaTermSum::<F>::new(8, 1);
    terms.push([&[1], &[0]], F(1.0));
    terms.merge_synced_len = 1;
    terms.clear();
    assert!(terms.is_empty());
    assert_eq!(terms.merge_synced_len, 0);
}

#[test]
fn kernel_layout_can_be_overridden_for_a_b_runs() {
    let mut terms = SoaTermSum::<F>::new(8, 1);
    terms.set_kernel_layout(KernelLayout::Dense);
    assert!(terms.layout == KernelLayout::Dense);
    terms.set_kernel_layout(KernelLayout::Sparse);
    assert!(terms.layout == KernelLayout::Sparse);
}

#[test]
fn the_coefficient_column_grows_by_doubling() {
    let mut terms = SoaTermSum::<F>::new(8, 1);
    assert_eq!(terms.coeff_room, 0);
    terms.ensure_capacity(3);
    assert_eq!(terms.coeff_room, 16);
    terms.ensure_capacity(16);
    assert_eq!(terms.coeff_room, 16);
    terms.ensure_capacity(17);
    assert_eq!(terms.coeff_room, 34);
    assert!(terms.coeffs.capacity() >= 34);
    assert!(terms.is_empty());

    for k in 0..35u64 {
        terms.push([&[k], &[0]], F(k as f64));
    }
    assert_eq!(terms.coeff_room, 70);
    assert_eq!(terms.copy().coeff_room, 35);
    terms.clear();
    assert_eq!(terms.coeff_room, 70, "the room stays");
}
