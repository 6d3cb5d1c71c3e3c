use propaq::basis::{BasisKind, Phase};
use propaq::bits::{Key, Whole};
use propaq::coeff::CoeffRepr;
use propaq::kernels::{
    apply_noise_inplace, apply_noise_native, apply_rotation, discarded_coeff_stats, expectation,
    fold_coeffs, map_retain, merge, merge_and_truncate, prefix_sum, sum_coeffs, terms_below,
    truncate,
};
use propaq::sparse::Position;
use propaq::store::{KernelLayout, SoaBasis, SoaTermSum};
use propaq::term_kernel::{KeepAll, NoiseKernel, TermView};
use propaq::truncators::ResolvedConfig;
use std::hash::{Hash, Hasher};

/// A double-precision coefficient.
#[derive(Clone, Copy, Debug, PartialEq)]
struct F(f64);

const EPS: f64 = 1e-9;

impl CoeffRepr for F {
    type GateParam = f64;
    type Real = f64;

    fn zero() -> Self {
        F(0.0)
    }
    fn from_real(c: f64) -> Self {
        F(c)
    }
    fn duplicate(&self) -> Self {
        *self
    }
    fn add_assign(&mut self, other: Self) {
        self.0 += other.0;
    }
    fn post_merge(&mut self) {}
    fn apply_rotation(&mut self, angle: &f64, phase: Phase) -> Self {
        let (sin_t, cos_t) = angle.sin_cos();
        let sin = F(self.0 * sin_t * f64::from(phase.minus_imaginary()));
        self.0 *= cos_t;
        sin
    }
    fn rotation_factors(angle: &f64) -> Option<(f64, f64)> {
        Some(angle.sin_cos())
    }
    fn sin_branch_magnitude(&self, sin: f64) -> f64 {
        (self.0 * sin).abs()
    }
    fn scale_real(&mut self, factor: f64) {
        self.0 *= factor;
    }
    fn real_unit(n: i8) -> f64 {
        f64::from(n)
    }
    fn size_hint(&self) -> u128 {
        1
    }
    fn passes_coeff_cutoff(&self, cutoff: f64) -> bool {
        self.0.abs() >= cutoff
    }
    fn magnitude(&self) -> f64 {
        self.0.abs()
    }
    fn real_at_least(a: f64, b: f64) -> bool {
        a >= b
    }
    fn real_less(a: f64, b: f64) -> bool {
        a < b
    }
    fn add_to_total(&self, total: f64, trace: i8) -> f64 {
        total + self.0 * f64::from(trace)
    }
    fn real_add(a: f64, b: f64) -> f64 {
        a + b
    }
    fn real_mul(a: f64, b: f64) -> f64 {
        a * b
    }
    fn real_is_one(a: f64) -> bool {
        (a - 1.0).abs() < EPS
    }
    fn real_is_zero(a: f64) -> bool {
        a == 0.0
    }
    fn tolerance() -> f64 {
        EPS
    }
    fn is_clifford_param(angle: &f64, eps: f64) -> bool {
        angle.cos().abs() < eps
    }
    fn phase_only_scale(angle: &f64, eps: f64) -> Option<f64> {
        let (sin_t, cos_t) = angle.sin_cos();
        if sin_t.abs() < eps {
            Some(cos_t)
        } else {
            None
        }
    }
    fn clifford_branch_sign(angle: &f64, phase: Phase) -> Option<i8> {
        let turn = if angle.sin() < 0.0 { -1 } else { 1 };
        Some(turn * phase.minus_imaginary())
    }
}

type Config = ResolvedConfig<f64, KeepAll>;

/// Keys of one word in the first plane: anticommuting on odd overlap, with an XOR product.
struct TestBasis;

impl SoaBasis for TestBasis {
    // The laws have no run-time content.
    fn product_len(_t: Key, _g: Key) {}
    fn local_law(
        _t: Key,
        _g: Key,
        _span: Whole,
        _word: Whole,
        _tw: (u64, u64),
        _gw: (u64, u64),
    ) {
    }
    fn masked_law(_tw: (u64, u64), _gw: (u64, u64), _mask: u64) {}
    fn local_bound(_g: Key, _span: Whole, _word: Whole) {}

    fn kind() -> BasisKind {
        BasisKind::Pauli
    }
    fn commutes(term: [&[u64]; 2], gen: [&[u64]; 2]) -> bool {
        (term[0][0] & gen[0][0]).count_ones() % 2 == 0
    }
    fn product(term: [&[u64]; 2], gen: [&[u64]; 2], x: &mut Vec<u64>, z: &mut Vec<u64>) -> Phase {
        x[0] = term[0][0] ^ gen[0][0];
        z[0] = 0;
        Phase::I
    }
    fn weight(term: [&[u64]; 2], _n_units: usize) -> u32 {
        term[0][0].count_ones()
    }
    fn trace(term: [&[u64]; 2], _n_units: usize, fock: &[u64]) -> i8 {
        let f = fock.first().copied().unwrap_or(0);
        if term[0][0] & f == 0 {
            1
        } else {
            -1
        }
    }
    fn key_hash(term: [&[u64]; 2]) -> u64 {
        let x = term[0][0];
        let mut z = x.wrapping_add(0x9E3779B97F4A7C15);
        z = (z ^ (z >> 30)).wrapping_mul(0xBF58476D1CE4E5B9);
        z = (z ^ (z >> 27)).wrapping_mul(0x94D049BB133111EB);
        z ^ (z >> 31)
    }
    fn local_word(_gen: [&[u64]; 2]) -> Option<usize> {
        None
    }
    fn commutes_at_word(term_word: [u64; 2], gen_word: [u64; 2]) -> bool {
        (term_word[0] & gen_word[0]).count_ones() % 2 == 0
    }
    fn product_at_word(term_word: [u64; 2], gen_word: [u64; 2]) -> ([u64; 2], Phase) {
        ([term_word[0] ^ gen_word[0], 0], Phase::I)
    }
}

/// [`TestBasis`] with a hash that sends a quarter of all keys to each value.
struct CollidingTestBasis;

impl SoaBasis for CollidingTestBasis {
    // The laws have no run-time content.
    fn product_len(_t: Key, _g: Key) {}
    fn local_law(
        _t: Key,
        _g: Key,
        _span: Whole,
        _word: Whole,
        _tw: (u64, u64),
        _gw: (u64, u64),
    ) {
    }
    fn masked_law(_tw: (u64, u64), _gw: (u64, u64), _mask: u64) {}
    fn local_bound(_g: Key, _span: Whole, _word: Whole) {}

    fn kind() -> BasisKind {
        BasisKind::Pauli
    }
    fn commutes(term: [&[u64]; 2], gen: [&[u64]; 2]) -> bool {
        TestBasis::commutes(term, gen)
    }
    fn product(term: [&[u64]; 2], gen: [&[u64]; 2], x: &mut Vec<u64>, z: &mut Vec<u64>) -> Phase {
        TestBasis::product(term, gen, x, z)
    }
    fn weight(term: [&[u64]; 2], n_units: usize) -> u32 {
        TestBasis::weight(term, n_units)
    }
    fn trace(term: [&[u64]; 2], n_units: usize, fock: &[u64]) -> i8 {
        TestBasis::trace(term, n_units, fock)
    }
    fn key_hash(term: [&[u64]; 2]) -> u64 {
        term[0][0] % 4
    }
    fn local_word(_gen: [&[u64]; 2]) -> Option<usize> {
        None
    }
    fn commutes_at_word(term_word: [u64; 2], gen_word: [u64; 2]) -> bool {
        TestBasis::commutes_at_word(term_word, gen_word)
    }
    fn product_at_word(term_word: [u64; 2], gen_word: [u64; 2]) -> ([u64; 2], Phase) {
        TestBasis::product_at_word(term_word, gen_word)
    }
}

/// Keys of several words in the first plane.
struct MultiWordTestBasis;

impl SoaBasis for MultiWordTestBasis {
    // The laws have no run-time content.
    fn product_len(_t: Key, _g: Key) {}
    fn local_law(
        _t: Key,
        _g: Key,
        _span: Whole,
        _word: Whole,
        _tw: (u64, u64),
        _gw: (u64, u64),
    ) {
    }
    fn masked_law(_tw: (u64, u64), _gw: (u64, u64), _mask: u64) {}
    fn local_bound(_g: Key, _span: Whole, _word: Whole) {}

    fn kind() -> BasisKind {
        BasisKind::Pauli
    }
    fn commutes(term: [&[u64]; 2], gen: [&[u64]; 2]) -> bool {
        let parity: u32 = term[0].iter().zip(gen[0]).map(|(t, g)| (t & g).count_ones()).sum();
        parity % 2 == 0
    }
    fn product(term: [&[u64]; 2], gen: [&[u64]; 2], x: &mut Vec<u64>, z: &mut Vec<u64>) -> Phase {
        for w in 0..term[0].len() {
            x[w] = term[0][w] ^ gen[0][w];
            z[w] = 0;
        }
        Phase::I
    }
    fn weight(term: [&[u64]; 2], _n_units: usize) -> u32 {
        term[0].iter().map(|w| w.count_ones()).sum()
    }
    fn trace(term: [&[u64]; 2], _n_units: usize, fock: &[u64]) -> i8 {
        let f = fock.first().copied().unwrap_or(0);
        if term[0][0] & f == 0 {
            1
        } else {
            -1
        }
    }
    fn key_hash(term: [&[u64]; 2]) -> u64 {
        let mut h = std::collections::hash_map::DefaultHasher::new();
        term[0].hash(&mut h);
        term[1].hash(&mut h);
        h.finish()
    }
    fn local_word(_gen: [&[u64]; 2]) -> Option<usize> {
        None
    }
    fn commutes_at_word(term_word: [u64; 2], gen_word: [u64; 2]) -> bool {
        TestBasis::commutes_at_word(term_word, gen_word)
    }
    fn product_at_word(term_word: [u64; 2], gen_word: [u64; 2]) -> ([u64; 2], Phase) {
        TestBasis::product_at_word(term_word, gen_word)
    }
}

/// [`MultiWordTestBasis`] with a hash that sends a quarter of all keys to each value, while
/// keys are still compared in full.
struct CollidingMultiWordTestBasis;

impl SoaBasis for CollidingMultiWordTestBasis {
    // The laws have no run-time content.
    fn product_len(_t: Key, _g: Key) {}
    fn local_law(
        _t: Key,
        _g: Key,
        _span: Whole,
        _word: Whole,
        _tw: (u64, u64),
        _gw: (u64, u64),
    ) {
    }
    fn masked_law(_tw: (u64, u64), _gw: (u64, u64), _mask: u64) {}
    fn local_bound(_g: Key, _span: Whole, _word: Whole) {}

    fn kind() -> BasisKind {
        BasisKind::Pauli
    }
    fn commutes(term: [&[u64]; 2], gen: [&[u64]; 2]) -> bool {
        MultiWordTestBasis::commutes(term, gen)
    }
    fn product(term: [&[u64]; 2], gen: [&[u64]; 2], x: &mut Vec<u64>, z: &mut Vec<u64>) -> Phase {
        MultiWordTestBasis::product(term, gen, x, z)
    }
    fn weight(term: [&[u64]; 2], n_units: usize) -> u32 {
        MultiWordTestBasis::weight(term, n_units)
    }
    fn trace(term: [&[u64]; 2], n_units: usize, fock: &[u64]) -> i8 {
        MultiWordTestBasis::trace(term, n_units, fock)
    }
    fn key_hash(term: [&[u64]; 2]) -> u64 {
        term[0][0] % 4
    }
    fn local_word(_gen: [&[u64]; 2]) -> Option<usize> {
        None
    }
    fn commutes_at_word(term_word: [u64; 2], gen_word: [u64; 2]) -> bool {
        TestBasis::commutes_at_word(term_word, gen_word)
    }
    fn product_at_word(term_word: [u64; 2], gen_word: [u64; 2]) -> ([u64; 2], Phase) {
        TestBasis::product_at_word(term_word, gen_word)
    }
}

fn make(n_units: usize) -> SoaTermSum<F> {
    SoaTermSum::new(n_units, 1)
}

fn make_multiword(n_units: usize, stride: usize) -> SoaTermSum<F> {
    SoaTermSum::new(n_units, stride)
}

/// Row `i`'s word planes.
fn planes_of(terms: &SoaTermSum<F>, i: usize) -> (Vec<u64>, Vec<u64>) {
    terms.decode_row(i)
}

fn values(terms: &SoaTermSum<F>) -> std::collections::HashMap<u64, f64> {
    (0..terms.len()).map(|i| (planes_of(terms, i).0[0], terms.coeff(i).0)).collect()
}

fn values_multiword(
    terms: &SoaTermSum<F>,
) -> std::collections::HashMap<(Vec<u64>, Vec<u64>), f64> {
    (0..terms.len()).map(|i| (planes_of(terms, i), terms.coeff(i).0)).collect()
}

/// Merges by walking every row against a map of the keys seen so far.
fn merge_reference_full_rescan(terms: &mut SoaTermSum<F>) {
    let mut at: std::collections::HashMap<Vec<Position>, usize> = std::collections::HashMap::new();
    let mut rows: Vec<(Vec<Position>, F)> = Vec::new();
    for i in 0..terms.len() {
        let key = terms.row_positions(i).to_vec();
        match at.get(&key) {
            Some(&canonical) => {
                rows[canonical].1.add_assign(*terms.coeff(i));
                rows[canonical].1.post_merge();
            }
            None => {
                at.insert(key.clone(), rows.len());
                rows.push((key, *terms.coeff(i)));
            }
        }
    }
    terms.clear();
    for (key, c) in &rows {
        terms.push_positions(key, *c);
    }
}

#[test]
fn prefix_sum_matches_hand_computed() {
    let flags = vec![1u32, 0, 1, 1, 0, 1];
    let mut idx = vec![0usize; flags.len()];
    let total = prefix_sum(&flags, &mut idx);
    assert_eq!(total, 4);
    assert_eq!(idx, vec![0, 1, 1, 2, 3, 3]);
}

#[test]
fn prefix_sum_empty_is_zero() {
    let mut idx: Vec<usize> = vec![];
    assert_eq!(prefix_sum(&[], &mut idx), 0);
}

#[test]
fn prefix_sum_all_false_is_zero() {
    let flags = vec![0u32; 10];
    let mut idx = vec![0usize; 10];
    assert_eq!(prefix_sum(&flags, &mut idx), 0);
    assert_eq!(idx, vec![0usize; 10]);
}

#[test]
fn merge_dedups_and_accumulates() {
    let mut terms = make(4);
    terms.push([&[0b01], &[0]], F(1.0));
    terms.push([&[0b10], &[0]], F(2.0));
    terms.push([&[0b01], &[0]], F(3.0)); // duplicate of the first
    merge::<TestBasis, F>(&mut terms);
    assert_eq!(terms.len(), 2);
    let v = values(&terms);
    assert_eq!(v[&0b01], 4.0);
    assert_eq!(v[&0b10], 2.0);
}

#[test]
fn merge_no_duplicates_is_a_noop_on_values() {
    let mut terms = make(4);
    terms.push([&[1], &[0]], F(1.0));
    terms.push([&[2], &[0]], F(2.0));
    terms.push([&[3], &[0]], F(3.0));
    merge::<TestBasis, F>(&mut terms);
    assert_eq!(terms.len(), 3);
    let v = values(&terms);
    assert_eq!(v[&1], 1.0);
    assert_eq!(v[&2], 2.0);
    assert_eq!(v[&3], 3.0);
}

#[test]
fn merge_incremental_second_call_only_hashes_new_rows_but_dedups_correctly() {
    let mut terms = make(4);
    terms.push([&[0b01], &[0]], F(1.0));
    terms.push([&[0b10], &[0]], F(2.0));
    merge::<TestBasis, F>(&mut terms);
    assert_eq!(terms.len(), 2);

    terms.push([&[0b01], &[0]], F(5.0)); // dup of old row
    terms.push([&[0b11], &[0]], F(3.0)); // new
    terms.push([&[0b11], &[0]], F(4.0)); // dup of new row, same cycle
    merge::<TestBasis, F>(&mut terms);
    assert_eq!(terms.len(), 3);
    let v = values(&terms);
    assert_eq!(v[&0b01], 6.0);
    assert_eq!(v[&0b10], 2.0);
    assert_eq!(v[&0b11], 7.0);

    terms.push([&[0b10], &[0]], F(1.0));
    terms.push([&[0b01], &[0]], F(1.0));
    merge::<TestBasis, F>(&mut terms);
    assert_eq!(terms.len(), 3);
    let v = values(&terms);
    assert_eq!(v[&0b01], 7.0);
    assert_eq!(v[&0b10], 3.0);
    assert_eq!(v[&0b11], 7.0);
}

#[test]
fn merge_incremental_survives_intervening_truncate() {
    let mut terms = make(4);
    terms.push([&[0b0001], &[0]], F(1.0)); // weight 1, survives truncation below
    terms.push([&[0b0111], &[0]], F(1.0)); // weight 3, gets truncated away
    merge::<TestBasis, F>(&mut terms);
    assert_eq!(terms.len(), 2);

    let cfg = Config { weight: Some(2), ..Config::none() };
    truncate::<TestBasis, F, KeepAll>(&mut terms, &cfg);
    assert_eq!(terms.len(), 1, "only the weight-1 row should survive");

    terms.push([&[0b0001], &[0]], F(2.0)); // dup of survivor
    terms.push([&[0b0010], &[0]], F(3.0)); // new, weight 1
    merge::<TestBasis, F>(&mut terms);
    assert_eq!(terms.len(), 2);
    let v = values(&terms);
    assert_eq!(v[&0b0001], 3.0);
    assert_eq!(v[&0b0010], 3.0);
}

#[test]
fn merge_incremental_survives_intervening_map_retain() {
    let mut terms = make(4);
    terms.push([&[1], &[0]], F(1.0)); // weight 1, survives the filter below
    terms.push([&[7], &[0]], F(1.0)); // weight 3, gets filtered out
    merge::<TestBasis, F>(&mut terms);
    assert_eq!(terms.len(), 2);

    let _ = map_retain::<TestBasis, F, _, _>(
        &mut terms,
        |c: &F| F(c.0 * 2.0),
        |row: &[Position], _c: &F| TestBasis::weight_sparse(row, 64, 4) <= 2,
    );
    assert_eq!(terms.len(), 1, "only key=1 should survive the retain predicate");
    assert_eq!(values(&terms)[&1], 2.0);

    terms.push([&[1], &[0]], F(5.0)); // dup of survivor
    terms.push([&[2], &[0]], F(3.0)); // new
    merge::<TestBasis, F>(&mut terms);
    assert_eq!(terms.len(), 2);
    let v = values(&terms);
    assert_eq!(v[&1], 7.0);
    assert_eq!(v[&2], 3.0);
}

#[test]
fn merge_table_grows_during_incremental_insert() {
    let mut terms = make(4);
    terms.push([&[0], &[0]], F(1.0));
    merge::<TestBasis, F>(&mut terms);
    assert_eq!(terms.len(), 1);

    let n_new = 2_000usize;
    let mut expected = std::collections::HashMap::new();
    expected.insert(0u64, 1.0);
    for i in 1..=n_new as u64 {
        terms.push([&[i], &[0]], F(i as f64));
        expected.insert(i, i as f64);
    }
    merge::<TestBasis, F>(&mut terms);
    assert_eq!(terms.len(), expected.len());
    let v = values(&terms);
    for (&k, &val) in expected.iter() {
        assert_eq!(v[&k], val, "key {k} lost or wrong after a table grow event");
    }

    terms.push([&[0], &[0]], F(10.0));
    merge::<TestBasis, F>(&mut terms);
    assert_eq!(terms.len(), expected.len());
    assert_eq!(values(&terms)[&0], 11.0);
}

#[test]
fn merge_incremental_after_clifford_inplace_rewrite() {
    let mut terms = make(4);
    terms.push([&[1], &[0]], F(2.0));
    terms.push([&[0b10], &[0]], F(3.0)); // commutes with gen below, left untouched
    merge::<TestBasis, F>(&mut terms);
    assert_eq!(terms.len(), 2);

    let gen = [&[1u64][..], &[0u64][..]];
    let angle = std::f64::consts::FRAC_PI_2;
    let added = apply_rotation::<TestBasis, F>(&mut terms, gen, &angle, true);

    assert_eq!(added, 0);
    assert_eq!(terms.len(), 2, "in-place branch must not grow the container");

    terms.push([&[0], &[0]], F(100.0));
    merge::<TestBasis, F>(&mut terms);
    assert_eq!(terms.len(), 2, "post-rotation duplicate must merge, not create a ghost entry");
    let v = values(&terms);
    let expected_0 = 2.0 * angle.sin() * -1.0 + 100.0;
    assert!((v[&0] - expected_0).abs() < 1e-9, "got {v:?}, expected key 0 ~= {expected_0}");
    assert_eq!(v[&0b10], 3.0);
}

#[test]
fn phase_only_rotation_matches_the_generic_path() {

    let pi = std::f64::consts::PI;
    let gen = [&[1u64][..], &[0u64][..]];

    let mut fast = make(4);
    fast.push([&[1], &[0]], F(2.0)); // anticommutes with gen (TestBasis: popcount(x & gen.x) odd)
    fast.push([&[2], &[0]], F(3.0)); // commutes, must be left completely alone
    let added = apply_rotation::<TestBasis, F>(&mut fast, gen, &pi, false);
    assert_eq!(added, 0, "phase-only rotation must never append a row");
    assert_eq!(fast.len(), 2, "phase-only rotation must not grow the container");
    let v = values(&fast);
    assert_eq!(v[&1], -2.0, "anticommuting term should be scaled by cos(pi) = -1");
    assert_eq!(v[&2], 3.0, "commuting term must be untouched");

    let mut synced = make(4);
    synced.push([&[1], &[0]], F(2.0));
    synced.push([&[2], &[0]], F(3.0));
    merge::<TestBasis, F>(&mut synced);
    apply_rotation::<TestBasis, F>(&mut synced, gen, &pi, false);
    synced.push([&[1], &[0]], F(10.0));
    merge::<TestBasis, F>(&mut synced);
    assert_eq!(synced.len(), 2, "merge index must stay valid across a phase-only rotation");
    assert_eq!(values(&synced)[&1], 8.0); // -2.0 + 10.0
}

#[test]
fn phase_only_rotation_at_theta_zero_is_a_complete_noop() {
    let gen = [&[1u64][..], &[0u64][..]];
    let mut terms = make(4);
    terms.push([&[1], &[0]], F(2.0));
    terms.push([&[2], &[0]], F(3.0));
    let added = apply_rotation::<TestBasis, F>(&mut terms, gen, &0.0, false);
    assert_eq!(added, 0);
    assert_eq!(terms.len(), 2);
    let v = values(&terms);
    assert_eq!(v[&1], 2.0);
    assert_eq!(v[&2], 3.0);
}

#[test]
fn in_place_and_scatter_compaction_agree_on_a_large_merge() {
    let build = || {
        let mut terms = make(64);
        for i in 0..1500u64 {
            terms.push([&[i % 750], &[0]], F(i as f64));
        }
        terms
    };

    let mut in_place = build();
    in_place.set_batches(1);
    merge::<TestBasis, F>(&mut in_place);

    let mut scattered = build();
    scattered.set_batches(4);
    merge::<TestBasis, F>(&mut scattered);

    assert_eq!(in_place.len(), 750);
    assert_eq!(scattered.len(), 750);
    let (a, b) = (values(&in_place), values(&scattered));
    assert_eq!(a, b, "in-place and scatter compaction produced different term sets");
    for k in 0..750u64 {
        assert_eq!(a[&k], k as f64 + (k + 750) as f64, "key {k} merged to the wrong value");
    }
}

#[test]
fn merge_index_survives_cycles_that_remove_nothing() {
    let mut terms = make(8);
    terms.push([&[1], &[0]], F(1.0));
    terms.push([&[2], &[0]], F(2.0));
    merge::<TestBasis, F>(&mut terms);
    assert_eq!(terms.len(), 2);

    terms.push([&[4], &[0]], F(4.0));
    merge::<TestBasis, F>(&mut terms);
    assert_eq!(terms.len(), 3);
    terms.push([&[8], &[0]], F(8.0));
    merge::<TestBasis, F>(&mut terms);
    assert_eq!(terms.len(), 4);

    terms.push([&[1], &[0]], F(10.0));
    terms.push([&[4], &[0]], F(40.0));
    merge::<TestBasis, F>(&mut terms);
    assert_eq!(terms.len(), 4);
    let v = values(&terms);
    assert_eq!(v[&1], 11.0);
    assert_eq!(v[&2], 2.0);
    assert_eq!(v[&4], 44.0);
    assert_eq!(v[&8], 8.0);
}

#[test]
fn in_place_compaction_handles_a_hole_at_the_front() {
    let mut terms = make(8);
    terms.push([&[0b111], &[0]], F(1.0)); // weight 3, removed
    terms.push([&[0b001], &[0]], F(2.0));
    terms.push([&[0b010], &[0]], F(3.0));
    let cfg = Config { weight: Some(1), ..Config::none() };
    truncate::<TestBasis, F, KeepAll>(&mut terms, &cfg);
    assert_eq!(terms.len(), 2);
    let v = values(&terms);
    assert_eq!(v[&0b001], 2.0);
    assert_eq!(v[&0b010], 3.0);
    assert!(!v.contains_key(&0b111));
}

#[test]
fn in_place_compaction_handles_removing_every_row() {
    let mut terms = make(8);
    terms.push([&[0b111], &[0]], F(1.0));
    terms.push([&[0b011], &[0]], F(2.0));
    let cfg = Config { weight: Some(1), ..Config::none() };
    truncate::<TestBasis, F, KeepAll>(&mut terms, &cfg);
    assert_eq!(terms.len(), 0);
    assert!(terms.is_empty());
}

#[test]
fn merge_incremental_matches_reference_full_rescan_under_randomized_operations() {
    let mut seed = 0x2545F4914F6CDD1Du64;
    let mut next = move || {
        seed ^= seed << 13;
        seed ^= seed >> 7;
        seed ^= seed << 17;
        seed
    };

    for trial in 0..20u32 {
        let mut incremental = make(6);
        let mut reference = make(6);
        for step in 0..40u32 {
            match next() % 5 {
                0 | 1 => {
                    let batch = 1 + (next() % 5) as usize;
                    for _ in 0..batch {
                        let key = next() % 64; // small keyspace, frequent duplicates
                        let coeff = ((next() % 1000) as f64) / 10.0;
                        incremental.push([&[key], &[0]], F(coeff));
                        reference.push([&[key], &[0]], F(coeff));
                    }
                }
                2 => {
                    let gen_key = next() % 64;
                    let angle = ((next() % 1000) as f64) / 1000.0 * std::f64::consts::PI;
                    apply_rotation::<TestBasis, F>(&mut incremental, [&[gen_key], &[0]], &angle, false);
                    apply_rotation::<TestBasis, F>(&mut reference, [&[gen_key], &[0]], &angle, false);
                }
                3 => {
                    // Clifford in-place, to exercise the merge index's reset.
                    let gen_key = next() % 64;
                    let angle = std::f64::consts::FRAC_PI_2;
                    apply_rotation::<TestBasis, F>(&mut incremental, [&[gen_key], &[0]], &angle, true);
                    apply_rotation::<TestBasis, F>(&mut reference, [&[gen_key], &[0]], &angle, true);
                }
                _ => {
                    let cfg = Config { weight: Some(3), ..Config::none() };
                    truncate::<TestBasis, F, KeepAll>(&mut incremental, &cfg);
                    truncate::<TestBasis, F, KeepAll>(&mut reference, &cfg);
                }
            }
            merge::<TestBasis, F>(&mut incremental);
            merge_reference_full_rescan(&mut reference);

            let got = values(&incremental);
            let want = values(&reference);
            assert_eq!(got.len(), want.len(), "trial {trial} step {step}: term count diverged");
            for (&k, &wv) in want.iter() {
                let gv = *got.get(&k).unwrap_or_else(|| {
                    panic!("trial {trial} step {step}: key {k} missing from incremental result")
                });
                assert!(
                    (gv - wv).abs() < 1e-9,
                    "trial {trial} step {step}: key {k} mismatch: incremental={gv} reference={wv}"
                );
            }
        }
    }
}

#[test]
fn merge_incremental_matches_reference_full_rescan_at_scale_crossing_par_min_len() {

    let mut seed = 0x9E3779B97F4A7C15u64;
    let mut next = move || {
        seed ^= seed << 13;
        seed ^= seed >> 7;
        seed ^= seed << 17;
        seed
    };

    let mut incremental = make(10);
    let mut reference = make(10);
    for cycle in 0..6u32 {
        let batch = 300 + (next() % 700) as usize; // crosses 512 depending on prior state
        for _ in 0..batch {
            let key = next() % 400;
            let coeff = ((next() % 1000) as f64) / 10.0;
            incremental.push([&[key], &[0]], F(coeff));
            reference.push([&[key], &[0]], F(coeff));
        }
        merge::<TestBasis, F>(&mut incremental);
        merge_reference_full_rescan(&mut reference);

        if cycle % 2 == 0 {
            let cfg = Config { weight: Some(3), ..Config::none() };
            truncate::<TestBasis, F, KeepAll>(&mut incremental, &cfg);
            truncate::<TestBasis, F, KeepAll>(&mut reference, &cfg);
        }

        let got = values(&incremental);
        let want = values(&reference);
        assert_eq!(got.len(), want.len(), "cycle {cycle}: term count diverged");
        for (&k, &wv) in want.iter() {
            let gv = *got
                .get(&k)
                .unwrap_or_else(|| panic!("cycle {cycle}: key {k} missing from incremental result"));
            assert!((gv - wv).abs() < 1e-6, "cycle {cycle}: key {k} mismatch: incremental={gv} reference={wv}");
        }
    }
}

#[test]
fn truncate_drops_by_weight() {
    let mut terms = make(4);
    terms.push([&[0b0001], &[0]], F(1.0)); // weight 1
    terms.push([&[0b0011], &[0]], F(1.0)); // weight 2
    terms.push([&[0b0111], &[0]], F(1.0)); // weight 3
    let cfg = Config { weight: Some(2), ..Config::none() };
    truncate::<TestBasis, F, KeepAll>(&mut terms, &cfg);
    assert_eq!(terms.len(), 2);
    let v = values(&terms);
    assert!(v.contains_key(&0b0001));
    assert!(v.contains_key(&0b0011));
    assert!(!v.contains_key(&0b0111));
}

#[test]
fn truncate_drops_by_coefficient_magnitude() {
    let mut terms = make(4);
    terms.push([&[1], &[0]], F(1e-3));
    terms.push([&[2], &[0]], F(1e-9));
    let cfg = Config { coefficient: Some(1e-6), ..Config::none() };
    truncate::<TestBasis, F, KeepAll>(&mut terms, &cfg);
    assert_eq!(terms.len(), 1);
    assert_eq!(values(&terms)[&1], 1e-3);
}

#[test]
fn map_retain_scales_then_filters_and_returns_size_hint_sum() {
    let mut terms = make(4);
    terms.push([&[1], &[0]], F(1.0)); // weight 1
    terms.push([&[3], &[0]], F(2.0)); // weight 2
    terms.push([&[7], &[0]], F(3.0)); // weight 3
    let total_size = map_retain::<TestBasis, F, _, _>(
        &mut terms,
        |c: &F| F(c.0 * 2.0),
        |row: &[Position], _c: &F| TestBasis::weight_sparse(row, 64, 4) <= 2,
    );
    assert_eq!(terms.len(), 2);
    assert_eq!(total_size, 2); // f64::size_hint() == 1 per survivor
    let v = values(&terms);
    assert_eq!(v[&1], 2.0);
    assert_eq!(v[&3], 4.0);
    assert!(!v.contains_key(&7));
}

#[test]
fn map_retain_parallel_matches_serial_reference_large() {
    let n = 20_000usize;
    let mut terms = make(4);
    for i in 0..n {
        terms.push([&[i as u64], &[0]], F(i as f64));
    }

    let total_size = map_retain::<TestBasis, F, _, _>(
        &mut terms,
        |c: &F| F(c.0 + 1.0),
        |_row: &[Position], c: &F| (c.0 as u64) % 3 == 0,
    );
    let v = values(&terms);
    let expected: std::collections::HashMap<u64, f64> = (0..n as u64)
        .map(|i| (i, i as f64 + 1.0))
        .filter(|&(_, c)| (c as u64) % 3 == 0)
        .collect();
    assert_eq!(terms.len(), expected.len());
    assert_eq!(total_size, expected.len() as u128);
    for (&k, &expected_v) in expected.iter() {
        assert_eq!(v[&k], expected_v, "key {k} mismatch");
    }
}

#[test]
fn fold_coeffs_matches_serial_sum_reference() {
    let n = 20_000usize;
    let mut terms = make(4);
    for i in 0..n {
        terms.push([&[i as u64], &[0]], F(i as f64));
    }
    let folded = fold_coeffs(&terms, || 0.0f64, |acc: f64, c: &F| acc + c.0, |a: f64, b: f64| a + b);
    let expected: f64 = (0..n as u64).map(|i| i as f64).sum();
    assert_eq!(folded, expected);
}

#[test]
fn sum_coeffs_matches_serial_sum_reference() {
    let n = 20_000usize;
    let mut terms = make(4);
    for i in 0..n {
        terms.push([&[i as u64], &[0]], F(i as f64));
    }
    let summed = sum_coeffs(&terms, |c: &F| c.0 as u128);
    let expected: u128 = (0..n as u128).sum();
    assert_eq!(summed, expected);
}

#[test]
fn sum_coeffs_saturates_instead_of_wrapping() {
    let mut terms = make(4);
    terms.push([&[1], &[0]], F(1.0));
    terms.push([&[2], &[0]], F(1.0));
    let summed = sum_coeffs(&terms, |_c: &F| u128::MAX);
    assert_eq!(summed, u128::MAX);
}

#[test]
fn apply_rotation_append_branch_grows_and_computes_both_branches() {
    let mut terms = make(4);

    terms.push([&[1], &[0]], F(2.0));
    let gen = [&[1u64][..], &[0u64][..]];
    let angle = 0.3f64;
    let added = apply_rotation::<TestBasis, F>(&mut terms, gen, &angle, false);
    assert_eq!(added, 1);
    assert_eq!(terms.len(), 2);
    assert_eq!(planes_of(&terms, 0).0[0], 1);
    assert!((terms.coeff(0).0 - 2.0 * angle.cos()).abs() < 1e-12);
    assert_eq!(planes_of(&terms, 1).0[0], 0);
    assert!((terms.coeff(1).0 - (2.0 * angle.sin() * -1.0)).abs() < 1e-12);
}

#[test]
fn apply_rotation_commuting_term_is_untouched() {
    let mut terms = make(4);
    terms.push([&[0b10], &[0]], F(5.0));
    let gen = [&[0b01u64][..], &[0u64][..]]; // (0b10 & 0b01) popcount = 0, even, so it commutes
    let added = apply_rotation::<TestBasis, F>(&mut terms, gen, &0.7, false);
    assert_eq!(added, 0);
    assert_eq!(terms.len(), 1);
    assert_eq!(terms.coeff(0).0, 5.0);
}

#[test]
fn apply_rotation_clifford_inplace_overwrites_without_growing() {
    let mut terms = make(4);
    terms.push([&[1], &[0]], F(2.0));
    terms.push([&[0b10], &[0]], F(3.0)); // commutes with gen, untouched
    let gen = [&[1u64][..], &[0u64][..]];
    let angle = std::f64::consts::FRAC_PI_2; // cos is near 0
    let added = apply_rotation::<TestBasis, F>(&mut terms, gen, &angle, true);

    assert_eq!(added, 0);
    assert_eq!(terms.len(), 2, "in-place branch must not grow the container");
    assert_eq!(planes_of(&terms, 0).0[0], 0);
    assert!((terms.coeff(0).0 - (2.0 * angle.sin() * -1.0)).abs() < 1e-9);
    assert_eq!(planes_of(&terms, 1).0[0], 0b10);
    assert_eq!(terms.coeff(1).0, 3.0);
}

#[test]
fn apply_noise_scales_by_weight_lut() {
    let mut terms = make(4);
    terms.push([&[0b0001], &[0]], F(1.0)); // weight 1
    terms.push([&[0b0011], &[0]], F(1.0)); // weight 2
    let lut = vec![1.0, 0.5, 0.25];
    apply_noise_inplace::<TestBasis, F>(&mut terms, &lut);
    assert_eq!(terms.coeff(0).0, 0.5);
    assert_eq!(terms.coeff(1).0, 0.25);
}

#[test]
fn expectation_sums_coeff_times_trace() {
    let mut terms = make(4);
    terms.push([&[0b01], &[0]], F(2.0));
    terms.push([&[0b10], &[0]], F(3.0));
    let total = expectation::<TestBasis, F>(&terms, &[0b01]);
    assert!((total - (2.0 * -1.0 + 3.0 * 1.0)).abs() < 1e-12);
}

const BIG: usize = 5_000;

#[test]
fn prefix_sum_parallel_matches_serial_reference() {
    // Deterministic pseudo-random 0/1 pattern, no `rand` dependency.
    let flags: Vec<u32> = (0..BIG as u64).map(|i| ((i.wrapping_mul(2654435761)) >> 31) as u32 & 1).collect();
    let mut expected = vec![0usize; BIG];
    let mut acc = 0usize;
    for i in 0..BIG {
        expected[i] = acc;
        acc += flags[i] as usize;
    }
    let mut got = vec![0usize; BIG];
    let total = prefix_sum(&flags, &mut got);
    assert_eq!(total, acc);
    assert_eq!(got, expected);
}

#[test]
fn merge_resolves_hash_collisions_correctly() {
    let n_keys = 50u64;
    let mut terms = make(4);
    terms.set_kernel_layout(KernelLayout::Dense);
    let mut expected_counts = std::collections::HashMap::new();
    for k in 0..n_keys {
        let reps = 1 + (k % 7);
        for _ in 0..reps {
            terms.push([&[k], &[0]], F(1.0));
        }
        expected_counts.insert(k, reps as f64);
    }
    merge::<CollidingTestBasis, F>(&mut terms);
    assert_eq!(terms.len(), n_keys as usize);
    let v = values(&terms);
    for (&k, &expected) in expected_counts.iter() {
        assert_eq!(v[&k], expected, "key {k} accumulated wrong under forced hash collisions");
    }
}

#[test]
fn merge_handles_tiny_n() {
    for n in [0usize, 1, 2, 3] {
        let mut terms = make(4);
        for i in 0..n {
            terms.push([&[(n - i) as u64], &[0]], F(1.0));
        }
        merge::<TestBasis, F>(&mut terms);
        assert_eq!(terms.len(), n);
    }
}

#[test]
fn merge_handles_all_identical_keys() {
    let n = 20_000usize;
    let mut terms = make(4);
    for _ in 0..n {
        terms.push([&[42u64], &[0]], F(1.0));
    }
    merge::<TestBasis, F>(&mut terms);
    assert_eq!(terms.len(), 1);
    assert_eq!(terms.coeff(0).0, n as f64);
}

#[test]
fn merge_dedups_and_accumulates_at_scale_diverse_keys() {
    let n = 50_000usize;
    let mut terms = make(4);
    let mut seed = 0x9E3779B97F4A7C15u64;
    let mut expected_counts = std::collections::HashMap::new();
    for _ in 0..n {
        seed = seed.wrapping_add(0x9E3779B97F4A7C15);
        let mut z = seed;
        z = (z ^ (z >> 30)).wrapping_mul(0xBF58476D1CE4E5B9);
        z = (z ^ (z >> 27)).wrapping_mul(0x94D049BB133111EB);
        z ^= z >> 31;
        let key = z % 137;
        terms.push([&[key], &[0]], F(1.0));
        *expected_counts.entry(key).or_insert(0.0) += 1.0;
    }
    merge::<TestBasis, F>(&mut terms);
    assert_eq!(terms.len(), expected_counts.len());
    let v = values(&terms);
    for (&k, &expected) in expected_counts.iter() {
        assert_eq!(v[&k], expected, "key {k} accumulated wrong");
    }
}

#[test]
fn merge_parallel_dedups_and_accumulates_large() {
    let mut terms = make(4);
    for i in 0..BIG {
        terms.push([&[(i % 100) as u64], &[0]], F(1.0));
    }
    merge::<TestBasis, F>(&mut terms);
    assert_eq!(terms.len(), 100);
    let v = values(&terms);
    for k in 0..100u64 {
        assert_eq!(v[&k], (BIG / 100) as f64, "key {k} accumulated wrong");
    }
}

#[test]
fn truncate_parallel_matches_serial_reference_large() {
    let mut terms = make(4);
    for i in 0..BIG {
        terms.push([&[(i % 8) as u64], &[0]], F((i % 8) as f64));
    }
    let cfg = Config { weight: Some(2), ..Config::none() };
    truncate::<TestBasis, F, KeepAll>(&mut terms, &cfg);
    let expected_kept = BIG - BIG / 8;
    assert_eq!(terms.len(), expected_kept);
    assert!(!values(&terms).contains_key(&7));
}

#[test]
fn apply_rotation_parallel_append_matches_serial_reference() {
    let mut terms = make(4);
    for i in 0..BIG {
        terms.push([&[i as u64], &[0]], F(1.0));
    }
    let gen = [&[1u64][..], &[0u64][..]];
    let expected_added = (0..BIG).filter(|&i| i % 2 == 1).count();
    let added = apply_rotation::<TestBasis, F>(&mut terms, gen, &0.4, false);
    assert_eq!(added, expected_added);
    assert_eq!(terms.len(), BIG + expected_added);
    for i in 0..BIG {
        let is_anticommuting = i % 2 == 1;
        if is_anticommuting {
            assert!((terms.coeff(i).0 - 0.4f64.cos()).abs() < 1e-12);
        } else {
            assert_eq!(terms.coeff(i).0, 1.0);
        }
    }
    for i in BIG..(BIG + expected_added) {
        assert_eq!(planes_of(&terms, i).0[0] & 1, 0, "appended term must be even (source XOR 1)");
    }
}

#[test]
fn merge_dedups_and_accumulates_multiword() {
    let mut terms = make_multiword(8, 2);
    terms.push([&[0b01, 5], &[0, 0]], F(1.0));
    terms.push([&[0b10, 7], &[0, 0]], F(2.0));
    terms.push([&[0b01, 5], &[0, 0]], F(3.0)); // duplicate of the first (both words match)
    terms.push([&[0b01, 9], &[0, 0]], F(4.0)); // word 0 matches the first, word 1 differs, so distinct
    merge::<MultiWordTestBasis, F>(&mut terms);
    assert_eq!(terms.len(), 3);
    let v = values_multiword(&terms);
    assert_eq!(v[&(vec![0b01, 5], vec![0, 0])], 4.0);
    assert_eq!(v[&(vec![0b10, 7], vec![0, 0])], 2.0);
    assert_eq!(v[&(vec![0b01, 9], vec![0, 0])], 4.0);
}

#[test]
fn merge_table_grows_during_incremental_insert_multiword() {

    let mut terms = make_multiword(8, 2);
    terms.push([&[0, 0], &[0, 0]], F(1.0));
    merge::<MultiWordTestBasis, F>(&mut terms);
    assert_eq!(terms.len(), 1);

    let n_new = 2_000u64;
    let mut expected = std::collections::HashMap::new();
    expected.insert((vec![0u64, 0], vec![0u64, 0]), 1.0);
    for i in 1..=n_new {
        terms.push([&[i, i.wrapping_mul(7)], &[0, 0]], F(i as f64));
        expected.insert((vec![i, i.wrapping_mul(7)], vec![0, 0]), i as f64);
    }
    merge::<MultiWordTestBasis, F>(&mut terms);
    assert_eq!(terms.len(), expected.len());
    let v = values_multiword(&terms);
    for (k, &val) in expected.iter() {
        assert_eq!(v[k], val, "key {k:?} lost or wrong after a table grow event (multiword)");
    }
}

#[test]
fn merge_resolves_hash_collisions_correctly_multiword() {
    let n_keys = 50u64;
    let mut terms = make_multiword(8, 2);
    terms.set_kernel_layout(KernelLayout::Dense);
    let mut expected_counts = std::collections::HashMap::new();
    for k in 0..n_keys {
        let reps = 1 + (k % 7);
        for _ in 0..reps {
            terms.push([&[k, k.wrapping_mul(13)], &[0, 0]], F(1.0));
        }
        expected_counts.insert((vec![k, k.wrapping_mul(13)], vec![0, 0]), reps as f64);
    }
    merge::<CollidingMultiWordTestBasis, F>(&mut terms);
    assert_eq!(terms.len(), n_keys as usize);
    let v = values_multiword(&terms);
    for (k, &expected) in expected_counts.iter() {
        assert_eq!(v[k], expected, "key {k:?} accumulated wrong under forced hash collisions (multiword)");
    }
}

#[test]
fn merge_incremental_matches_reference_full_rescan_under_randomized_operations_multiword() {
    // Stride=2 analogue of the stride=1 randomized differential test above, exercising
    // `merge_insert_batches_generic` with a real multi-word key.
    let mut seed = 0x853C49E6748FEA9Bu64;
    let mut next = move || {
        seed ^= seed << 13;
        seed ^= seed >> 7;
        seed ^= seed << 17;
        seed
    };

    for trial in 0..20u32 {
        let mut incremental = make_multiword(8, 2);
        let mut reference = make_multiword(8, 2);
        for step in 0..40u32 {
            match next() % 5 {
                0 | 1 => {
                    let batch = 1 + (next() % 5) as usize;
                    for _ in 0..batch {
                        let k0 = next() % 16; // small keyspace, frequent duplicates
                        let k1 = next() % 16;
                        let coeff = ((next() % 1000) as f64) / 10.0;
                        incremental.push([&[k0, k1], &[0, 0]], F(coeff));
                        reference.push([&[k0, k1], &[0, 0]], F(coeff));
                    }
                }
                2 => {
                    let g0 = next() % 16;
                    let g1 = next() % 16;
                    let angle = ((next() % 1000) as f64) / 1000.0 * std::f64::consts::PI;
                    apply_rotation::<MultiWordTestBasis, F>(&mut incremental, [&[g0, g1], &[0, 0]], &angle, false);
                    apply_rotation::<MultiWordTestBasis, F>(&mut reference, [&[g0, g1], &[0, 0]], &angle, false);
                }
                3 => {
                    let g0 = next() % 16;
                    let g1 = next() % 16;
                    let angle = std::f64::consts::FRAC_PI_2;
                    apply_rotation::<MultiWordTestBasis, F>(&mut incremental, [&[g0, g1], &[0, 0]], &angle, true);
                    apply_rotation::<MultiWordTestBasis, F>(&mut reference, [&[g0, g1], &[0, 0]], &angle, true);
                }
                _ => {
                    let cfg = Config { weight: Some(3), ..Config::none() };
                    truncate::<MultiWordTestBasis, F, KeepAll>(&mut incremental, &cfg);
                    truncate::<MultiWordTestBasis, F, KeepAll>(&mut reference, &cfg);
                }
            }
            merge::<MultiWordTestBasis, F>(&mut incremental);
            merge_reference_full_rescan(&mut reference);

            let got = values_multiword(&incremental);
            let want = values_multiword(&reference);
            assert_eq!(got.len(), want.len(), "trial {trial} step {step}: term count diverged (multiword)");
            for (k, &wv) in want.iter() {
                let gv = *got.get(k).unwrap_or_else(|| {
                    panic!("trial {trial} step {step}: key {k:?} missing from incremental result (multiword)")
                });
                assert!(
                    (gv - wv).abs() < 1e-9,
                    "trial {trial} step {step}: key {k:?} mismatch: incremental={gv} reference={wv} (multiword)"
                );
            }
        }
    }
}

#[test]
fn merge_incremental_matches_reference_full_rescan_at_scale_crossing_par_min_len_multiword() {
    // Stride=3 version specifically to exercise the parallel/multi-batch path for the
    // generic table at scale, mirroring the stride=1 at-scale test above.
    let mut seed = 0xD1B54A32D192ED03u64;
    let mut next = move || {
        seed ^= seed << 13;
        seed ^= seed >> 7;
        seed ^= seed << 17;
        seed
    };

    let mut incremental = make_multiword(10, 3);
    let mut reference = make_multiword(10, 3);
    for step in 0..30u32 {
        match next() % 4 {
            0 | 1 => {
                // Push well past PAR_MIN_LEN so hashing/insertion runs on the parallel path.
                let batch = 300 + (next() % 400) as usize;
                for _ in 0..batch {
                    let k0 = next() % 64;
                    let k1 = next() % 64;
                    let k2 = next() % 64;
                    let coeff = ((next() % 1000) as f64) / 10.0;
                    incremental.push([&[k0, k1, k2], &[0, 0, 0]], F(coeff));
                    reference.push([&[k0, k1, k2], &[0, 0, 0]], F(coeff));
                }
            }
            2 => {
                let cfg = Config { weight: Some(6), ..Config::none() };
                truncate::<MultiWordTestBasis, F, KeepAll>(&mut incremental, &cfg);
                truncate::<MultiWordTestBasis, F, KeepAll>(&mut reference, &cfg);
            }
            _ => {
                let g0 = next() % 64;
                let g1 = next() % 64;
                let g2 = next() % 64;
                let angle = std::f64::consts::FRAC_PI_2;
                apply_rotation::<MultiWordTestBasis, F>(&mut incremental, [&[g0, g1, g2], &[0, 0, 0]], &angle, true);
                apply_rotation::<MultiWordTestBasis, F>(&mut reference, [&[g0, g1, g2], &[0, 0, 0]], &angle, true);
            }
        }
        merge::<MultiWordTestBasis, F>(&mut incremental);
        merge_reference_full_rescan(&mut reference);

        let got = values_multiword(&incremental);
        let want = values_multiword(&reference);
        assert_eq!(got.len(), want.len(), "step {step}: term count diverged (multiword at scale)");
        for (k, &wv) in want.iter() {
            let gv = *got.get(k).unwrap_or_else(|| {
                panic!("step {step}: key {k:?} missing from incremental result (multiword at scale)")
            });
            assert!(
                (gv - wv).abs() < 1e-9,
                "step {step}: key {k:?} mismatch: incremental={gv} reference={wv} (multiword at scale)"
            );
        }
    }
}

#[test]
fn merge_and_truncate_is_a_merge_and_then_a_truncation() {
    let build = || {
        let mut terms = make(16);
        for i in 0..300u64 {
            terms.push([&[i % 40], &[0]], F(i as f64 - 150.0));
        }
        terms
    };
    let cfg = Config { weight: Some(2), coefficient: Some(100.0), ..Config::none() };
    let mut both = build();
    let (after_dedup, total) = merge_and_truncate::<TestBasis, F, KeepAll>(&mut both, Some(&cfg));
    let mut apart = build();
    merge::<TestBasis, F>(&mut apart);
    assert_eq!(after_dedup, apart.len());
    truncate::<TestBasis, F, KeepAll>(&mut apart, &cfg);
    assert_eq!(total, apart.len());
    assert_eq!(values(&both), values(&apart));
}

#[test]
fn merging_twice_changes_nothing() {
    let mut terms = make(8);
    for i in 0..50u64 {
        terms.push([&[i % 9], &[0]], F(i as f64));
    }
    merge::<TestBasis, F>(&mut terms);
    let once = values(&terms);
    merge::<TestBasis, F>(&mut terms);
    assert_eq!(values(&terms), once);
}

#[test]
fn discarded_terms_are_counted_by_what_truncation_drops() {
    let mut terms = make(8);
    terms.push([&[0b111], &[0]], F(-3.0));
    terms.push([&[0b1], &[0]], F(2.0));
    terms.push([&[0b11], &[0]], F(0.5));
    let cfg = Config { weight: Some(1), ..Config::none() };
    let (sum, largest) = discarded_coeff_stats::<TestBasis, F, KeepAll>(&terms, &cfg);
    assert_eq!(sum, 3.5);
    assert_eq!(largest, 3.0);
}

/// Halves each unit of weight.
struct Halving;

impl NoiseKernel<f64> for Halving {
    fn factor(&self, term: TermView<'_>) -> f64 {
        0.5f64.powi(term.weight as i32)
    }
}

#[test]
fn a_noise_plugin_scales_each_term_by_its_factor() {
    let mut terms = make(8);
    terms.push([&[0b1], &[0]], F(8.0));
    terms.push([&[0b111], &[0]], F(8.0));
    apply_noise_native::<TestBasis, F, Halving>(&mut terms, &Halving);
    assert_eq!(terms.coeff(0).0, 4.0);
    assert_eq!(terms.coeff(1).0, 1.0);
}

#[test]
fn a_weight_beyond_the_noise_table_takes_its_last_factor() {
    let mut terms = make(8);
    terms.push([&[0b1111], &[0]], F(1.0));
    apply_noise_inplace::<TestBasis, F>(&mut terms, &vec![1.0, 0.5]);
    assert_eq!(terms.coeff(0).0, 0.5);
}

#[test]
fn terms_below_a_cutoff_are_counted_by_magnitude() {
    let mut terms = make(8);
    terms.push([&[0b1], &[0]], F(-0.5));
    terms.push([&[0b10], &[0]], F(0.25));
    terms.push([&[0b100], &[0]], F(-0.125));
    assert_eq!(terms_below(&terms, 0.25), 1, "the cutoff itself is not below");
    assert_eq!(terms_below(&terms, 0.5), 2);
    assert_eq!(terms_below(&terms, 0.0), 0);
}
