use propaq::basis::{Basis, BasisKind, Phase};
use propaq::pauli::PauliBasis;
use propaq::plane_pauli::PlanePauli;
use propaq::sparse::{decode_row_into, encode_planes_into};
use propaq::store::{hash_positions, stride_words, SoaBasis};
use propaq::strings::Monomial;

type Planes = ([u64; 2], [u64; 2]);

fn product(t: Planes, g: Planes) -> (Planes, Phase) {
    let mut x = vec![9, 9];
    let mut z = vec![9, 9];
    let phase = PlanePauli::product([&t.0, &t.1], [&g.0, &g.1], &mut x, &mut z);
    (([x[0], x[1]], [z[0], z[1]]), phase)
}

const X: Planes = ([1, 0], [0, 0]);
const Y: Planes = ([1, 0], [1, 0]);
const Z: Planes = ([0, 0], [1, 0]);

#[test]
fn single_qubit_products_follow_the_pauli_table() {
    // The generator stands on the left.
    assert_eq!(product(Y, X), (Z, Phase::I));
    assert_eq!(product(X, Y), (Z, Phase::MinusI));
    assert_eq!(product(Z, Y), (X, Phase::I));
    assert_eq!(product(X, Z), (Y, Phase::I));
    assert_eq!(product(X, X), (([0, 0], [0, 0]), Phase::One));
    assert!(!PlanePauli::commutes([&X.0, &X.1], [&Z.0, &Z.1]));
    assert!(PlanePauli::commutes([&X.0, &X.1], [&X.0, &X.1]));
    assert!(PlanePauli::kind() == BasisKind::Pauli);
}

#[test]
fn clashes_on_two_qubits_cancel() {
    let xx: Planes = ([1, 1], [0, 0]);
    let zz: Planes = ([0, 0], [1, 1]);
    assert!(PlanePauli::commutes([&xx.0, &xx.1], [&zz.0, &zz.1]));
    assert_eq!(product(xx, zz), (([1, 1], [1, 1]), Phase::MinusOne));
}

#[test]
fn weight_counts_qubits_and_trace_reads_the_state() {
    assert_eq!(PlanePauli::weight([&[0b11, 1], &[0b10, 2]], 128), 4);
    assert_eq!(PlanePauli::trace([&[0, 1], &[0, 0]], 128, &[0]), 0);
    assert_eq!(PlanePauli::trace([&[0, 0], &[0b11, 1]], 128, &[0b01]), -1);
    assert_eq!(PlanePauli::trace([&[0, 0], &[0b11, 1]], 128, &[0b01, 1]), 1);
    assert_eq!(PlanePauli::trace([&[0, 0], &[0, 0]], 128, &[]), 1);
}

#[test]
fn a_generator_is_local_if_one_word_holds_it() {
    assert_eq!(PlanePauli::local_word([&[0, 4], &[0, 0]]), Some(1));
    assert_eq!(PlanePauli::local_word([&[0, 4], &[0, 1]]), Some(1));
    assert_eq!(PlanePauli::local_word([&[1, 4], &[0, 0]]), None);
    assert_eq!(PlanePauli::local_word([&[0, 4], &[2, 0]]), None);
    assert_eq!(PlanePauli::local_word([&[0, 0], &[0, 0]]), None);
}

#[test]
fn a_local_product_is_the_product_of_its_word() {
    let t: Planes = ([0b0110, 7], [0b0011, 5]);
    let g: Planes = ([0b0101, 0], [0b1100, 0]);
    let (out, phase) = product(t, g);
    let (word, word_phase) = PlanePauli::product_at_word([t.0[0], t.1[0]], [g.0[0], g.1[0]]);
    assert_eq!((out.0[0], out.1[0]), (word[0], word[1]));
    assert_eq!((out.0[1], out.1[1]), (7, 5));
    assert_eq!(phase, word_phase);
    assert_eq!(
        PlanePauli::commutes([&t.0, &t.1], [&g.0, &g.1]),
        PlanePauli::commutes_at_word([t.0[0], t.1[0]], [g.0[0], g.1[0]]),
    );
}

#[test]
fn keys_hash_as_their_rows() {
    let mut row = Vec::new();
    encode_planes_into([&[5, 1], &[2, 0]], 128, &mut row);
    assert_eq!(row, vec![0, 2, 64, 129]);
    assert_eq!(PlanePauli::key_hash([&[5, 1], &[2, 0]]), hash_positions(&row));
    assert_ne!(
        PlanePauli::key_hash([&[5, 1], &[2, 0]]),
        PlanePauli::key_hash([&[5, 1], &[0, 0]]),
    );
}

/// The alternating string with the same components.
fn woven(p: Planes) -> Monomial<4> {
    let mut m = Monomial::<4>::zero();
    for q in 0..128 {
        if p.0[q / 64] >> (q % 64) & 1 == 1 {
            m.set(2 * q);
        }
        if p.1[q / 64] >> (q % 64) & 1 == 1 {
            m.set(2 * q + 1);
        }
    }
    m
}

#[test]
fn both_layouts_are_one_algebra() {
    let strings: [Planes; 4] = [
        ([0b1011, 1 << 63], [0b0110, 3]),
        ([0b0001, 2], [0b1111, 1 << 63]),
        ([0, 0], [u64::MAX, 1]),
        ([u64::MAX, 5], [1, u64::MAX]),
    ];
    let fock = [0x0F0F, 1u64];
    for t in strings {
        assert_eq!(
            PlanePauli::weight([&t.0, &t.1], 128),
            PauliBasis::weight(&woven(t), 128),
        );
        assert_eq!(
            PlanePauli::trace([&t.0, &t.1], 128, &fock),
            PauliBasis::trace(&woven(t), 128, &fock),
        );
        for g in strings {
            let ctx = PauliBasis::make_gen_context(&woven(g));
            let (out, phase) = product(t, g);
            assert_eq!(PauliBasis::product(&ctx, &woven(t)), (woven(out), phase));
            assert_eq!(
                PlanePauli::commutes([&t.0, &t.1], [&g.0, &g.1]),
                !PauliBasis::anticommutes(&ctx, &woven(t)),
            );
        }
    }
}

#[test]
fn surplus_words_that_are_zero_are_no_part_of_a_row() {
    let mut row = Vec::new();
    encode_planes_into([&[5, 0, 0], &[2, 0]], 64, &mut row);
    assert_eq!(row, vec![0, 2, 65]);
}

#[test]
fn planes_need_only_be_long_enough_for_the_row() {
    let (mut x, mut z) = (vec![9, 9, 9], vec![9]);
    decode_row_into(&[0, 70, 128 + 3], 128, &mut x, &mut z);
    assert_eq!(x, vec![1, 1 << 6, 0], "what is beyond the row is cleared");
    assert_eq!(z, vec![1 << 3]);
}

#[test]
fn planes_are_sized_for_any_number_of_units() {
    for (units, words) in [(0, 1), (1, 1), (64, 1), (65, 2), (129, 4), (1 << 20, 1 << 14)] {
        assert_eq!(stride_words(units), words);
    }
    assert_eq!(stride_words((1 << 62) + 1), 1 << 57);
    assert_eq!(stride_words(1 << 63), 1 << 57);
}
