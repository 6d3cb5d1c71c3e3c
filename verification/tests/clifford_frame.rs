use propaq::basis::Phase;
use propaq::clifford_frame::{
    clifford_table_for, single_qubit_support, CliffordFrame, LabelTable,
};
use propaq::coeff::CoeffRepr;
use propaq::pauli::PauliBasis;
use propaq::strings::Monomial;

/// A coefficient under rotations by whole eighths: 1 is a quarter turn, the rest are not
/// Clifford.
#[derive(Clone, Copy, Debug, PartialEq)]
struct Turn(i64);

impl CoeffRepr for Turn {
    type GateParam = i8;
    type Real = i64;

    fn zero() -> Self {
        Turn(0)
    }
    fn from_real(c: i64) -> Self {
        Turn(c)
    }
    fn duplicate(&self) -> Self {
        *self
    }
    fn add_assign(&mut self, other: Self) {
        self.0 += other.0;
    }
    fn post_merge(&mut self) {}
    fn apply_rotation(&mut self, _param: &i8, phase: Phase) -> Self {
        let sin = Turn(self.0 * i64::from(phase.minus_imaginary()));
        self.0 = 0;
        sin
    }
    fn rotation_factors(_param: &i8) -> Option<(i64, i64)> {
        None
    }
    fn sin_branch_magnitude(&self, _sin: i64) -> i64 {
        i64::MAX
    }
    fn scale_real(&mut self, factor: i64) {
        self.0 *= factor;
    }
    fn real_unit(n: i8) -> i64 {
        i64::from(n)
    }
    fn size_hint(&self) -> u128 {
        1
    }
    fn passes_coeff_cutoff(&self, cutoff: i64) -> bool {
        self.0.abs() >= cutoff
    }
    fn magnitude(&self) -> i64 {
        self.0.abs()
    }
    fn real_at_least(a: i64, b: i64) -> bool {
        a >= b
    }
    fn real_less(a: i64, b: i64) -> bool {
        a < b
    }
    fn add_to_total(&self, total: i64, trace: i8) -> i64 {
        total + self.0 * i64::from(trace)
    }
    fn real_add(a: i64, b: i64) -> i64 {
        a + b
    }
    fn real_mul(a: i64, b: i64) -> i64 {
        a * b
    }
    fn real_is_one(a: i64) -> bool {
        a == 1
    }
    fn real_is_zero(a: i64) -> bool {
        a == 0
    }
    fn tolerance() -> i64 {
        0
    }
    fn is_clifford_param(param: &i8, _eps: i64) -> bool {
        *param == 1
    }
    fn phase_only_scale(_param: &i8, _eps: i64) -> Option<i64> {
        None
    }
    fn clifford_branch_sign(param: &i8, phase: Phase) -> Option<i8> {
        if *param == 1 {
            Some(phase.minus_imaginary())
        } else {
            None
        }
    }
}

const W: usize = 1;

/// The Hadamard conjugation on one qubit: X and Z swap, Y picks up a sign.
fn hadamard() -> LabelTable {
    [(0, 1), (2, 1), (1, 1), (3, -1)]
}

/// The S (phase) conjugation: X -> Y, Z -> Z, Y -> -X.
fn s_gate() -> LabelTable {
    [(0, 1), (3, 1), (2, 1), (1, -1)]
}

fn mono(bits: &[usize]) -> Monomial<W> {
    Monomial::from_positions(bits)
}

#[test]
fn a_fresh_frame_is_the_identity_and_conjugates_nothing() {
    let frame = CliffordFrame::new(8);
    assert!(frame.is_identity());
    let m = mono(&[0, 3]);
    let (out, sign) = frame.conjugate::<W>(&m);
    assert_eq!(out, m);
    assert_eq!(sign, 1);
}

#[test]
fn hadamard_swaps_x_and_z_on_its_own_qubit() {
    let mut frame = CliffordFrame::new(8);
    frame.compose(0, &hadamard());
    assert!(!frame.is_identity());
    // X on qubit 0 is bit 0; Z on qubit 0 is bit 1.
    let (out, sign) = frame.conjugate::<W>(&mono(&[0]));
    assert_eq!(out, mono(&[1]), "X should become Z");
    assert_eq!(sign, 1);
    let (out, sign) = frame.conjugate::<W>(&mono(&[1]));
    assert_eq!(out, mono(&[0]), "Z should become X");
    assert_eq!(sign, 1);
}

#[test]
fn hadamard_negates_y() {
    let mut frame = CliffordFrame::new(8);
    frame.compose(0, &hadamard());
    // Y on qubit 0 is both bits set.
    let (out, sign) = frame.conjugate::<W>(&mono(&[0, 1]));
    assert_eq!(out, mono(&[0, 1]), "Y maps to itself");
    assert_eq!(sign, -1, "and picks up a sign");
}

#[test]
fn a_frame_leaves_untouched_qubits_alone() {
    let mut frame = CliffordFrame::new(8);
    frame.compose(0, &hadamard());
    // X on qubit 2 is bit 4, far from the composed qubit.
    let (out, sign) = frame.conjugate::<W>(&mono(&[4]));
    assert_eq!(out, mono(&[4]));
    assert_eq!(sign, 1);
}

#[test]
fn hadamard_composed_twice_is_the_identity() {
    let mut frame = CliffordFrame::new(8);
    frame.compose(0, &hadamard());
    frame.compose(0, &hadamard());
    assert!(frame.is_identity(), "H squared must return to the identity");
    for m in [mono(&[0]), mono(&[1]), mono(&[0, 1])] {
        let (out, sign) = frame.conjugate::<W>(&m);
        assert_eq!(out, m);
        assert_eq!(sign, 1);
    }
}

#[test]
fn s_gate_has_order_four_on_the_pauli_group() {
    let mut frame = CliffordFrame::new(8);
    for _ in 0..4 {
        frame.compose(0, &s_gate());
    }
    assert!(frame.is_identity(), "S to the fourth must be the identity");
}

#[test]
fn composition_order_is_respected() {
    // H then S differs from S then H, so a frame that composed on the wrong
    // side would pass every test of one step and still be wrong.
    let mut hs = CliffordFrame::new(8);
    hs.compose(0, &hadamard());
    hs.compose(0, &s_gate());

    let mut sh = CliffordFrame::new(8);
    sh.compose(0, &s_gate());
    sh.compose(0, &hadamard());

    let x = mono(&[0]);
    assert_ne!(
        hs.conjugate::<W>(&x),
        sh.conjugate::<W>(&x),
        "composition must not be order-independent"
    );
}

#[test]
fn composing_matches_conjugating_twice_in_sequence() {
    let mut composed = CliffordFrame::new(8);
    composed.compose(0, &hadamard());
    composed.compose(0, &s_gate());

    let mut first = CliffordFrame::new(8);
    first.compose(0, &hadamard());
    let mut second = CliffordFrame::new(8);
    second.compose(0, &s_gate());

    for m in [mono(&[0]), mono(&[1]), mono(&[0, 1]), mono(&[0, 4])] {
        let (once, s1) = composed.conjugate::<W>(&m);
        let (mid, sa) = first.conjugate::<W>(&m);
        let (twice, sb) = second.conjugate::<W>(&mid);
        assert_eq!(once, twice, "composed frame must equal sequential conjugation");
        assert_eq!(s1, sa * sb, "signs must compose too");
    }
}

#[test]
fn conjugation_preserves_weight_and_magnitude() {
    let mut frame = CliffordFrame::new(8);
    frame.compose(0, &hadamard());
    frame.compose(1, &s_gate());
    assert!(!frame.apply_changes_weight());
    for m in [mono(&[0]), mono(&[0, 1]), mono(&[0, 2, 5]), mono(&[1, 3])] {
        let (out, sign) = frame.conjugate::<W>(&m);
        assert_eq!(out.support(), m.support(), "a single-qubit frame preserves support");
        assert_eq!(sign.abs(), 1, "conjugation only ever flips a sign");
    }
}

#[test]
fn the_two_conjugation_directions_are_inverses() {
    // A stored key and a generator transform opposite ways, so getting one
    // direction right and reusing it for the other is the easy mistake.
    let mut frame = CliffordFrame::new(8);
    frame.compose(0, &hadamard());
    frame.compose(1, &s_gate());
    frame.compose(0, &s_gate());
    for bits in 0..256u64 {
        let m = Monomial::<W>::from_words([bits]);
        let (fwd, s1) = frame.conjugate::<W>(&m);
        let (back, s2) = frame.conjugate_generator::<W>(&fwd);
        assert_eq!(back, m, "conjugate then conjugate_generator must be the identity");
        assert_eq!(s1 * s2, 1, "signs must cancel on the round trip");
    }
}

#[test]
fn clifford_frame_conjugation_is_injective_on_keys() {
    // The frame is a relabeling, so distinct keys must stay distinct; if it
    // collapsed two keys the final application would silently merge terms.
    let mut frame = CliffordFrame::new(4);
    frame.compose(0, &hadamard());
    frame.compose(1, &s_gate());
    let mut seen = std::collections::HashSet::new();
    for bits in 0..256u64 {
        let m = Monomial::<W>::from_words([bits]);
        assert!(seen.insert(frame.conjugate::<W>(&m).0), "frame collapsed two keys");
    }
}

#[test]
fn a_quarter_turn_about_z_has_the_table_of_a_phase_step() {
    let z = mono(&[1]);
    assert_eq!(single_qubit_support(&z), Some(0));
    let table = clifford_table_for::<PauliBasis, Turn, W>(&z, 0, &1).unwrap();
    assert_eq!(table[0], (0, 1));
    assert_eq!(table[2], (2, 1));
    assert_eq!(table[1].0, 3);
    assert_eq!(table[3].0, 1);
    assert_eq!(table[1].1 * table[3].1, -1, "X and Y trade places with one sign between them");
    assert!(clifford_table_for::<PauliBasis, Turn, W>(&z, 0, &3).is_none());
    assert_eq!(single_qubit_support(&mono(&[0, 2])), None);
    assert_eq!(single_qubit_support(&Monomial::<W>::zero()), None);
}

#[test]
fn a_turn_table_composes_and_undoes() {
    // A quarter turn about each single-qubit generator permutes the labels, so four of them
    // leave the frame as it was.
    for gen in [mono(&[0]), mono(&[1]), mono(&[0, 1])] {
        let table = clifford_table_for::<PauliBasis, Turn, W>(&gen, 0, &1).unwrap();
        assert_eq!(table[0], (0, 1));
        let mut seen: Vec<u8> = table.iter().map(|e| e.0).collect();
        seen.sort_unstable();
        assert_eq!(seen, vec![0, 1, 2, 3]);
        assert!(table.iter().all(|e| e.1 == 1 || e.1 == -1));
        let mut frame = CliffordFrame::new(4);
        for turn in 1..=4 {
            frame.compose(0, &table);
            assert_eq!(frame.is_identity(), turn == 4);
        }
    }
}
