//! Clifford conjugations as lookup tables: a rotation that sends every basis string to one basis
//! string rewrites one word of a key, and a run of them on the same one or two qubits collapses
//! into a single table.

use crate::basis::Phase;
use crate::bits;
use crate::coeff::CoeffRepr;
use crate::sparse;
use crate::sparse::{Position, SparseRows};
use crate::store;
use crate::store::{SoaBasis, SoaTermSum};
use vstd::prelude::*;

verus! {

/// What one Clifford rotation makes of a label and its factor: nothing if they commute, the
/// product and a sign for a quarter turn, a sign for a half turn. `None` where the rotation is
/// neither, or its sign is unknown.
pub open spec fn turned<B: SoaBasis, C: CoeffRepr>(
    label: (u64, u64),
    factor: C::Real,
    gw: (u64, u64),
    param: C::GateParam,
    eps: C::Real,
) -> Option<((u64, u64), C::Real)> {
    if B::word_commuting(label, gw) {
        Some((label, factor))
    } else if C::quarter_turn(param, eps) {
        match C::turn_sign(param) {
            Some(t) => Some(
                (
                    B::word_product(label, gw),
                    C::real_times(factor, C::unit(t * -B::word_phase(label, gw).imaginary())),
                ),
            ),
            None => None,
        }
    } else {
        match C::half_turn(param, eps) {
            Some(cos) => Some((label, C::real_times(factor, cos))),
            None => None,
        }
    }
}

/// What the first `k` rotations make of a label, one after another.
pub open spec fn folded<B: SoaBasis, C: CoeffRepr>(
    rotations: Seq<((u64, u64), C::GateParam)>,
    k: int,
    label: (u64, u64),
    eps: C::Real,
) -> Option<((u64, u64), C::Real)>
    decreases k,
{
    if k <= 0 {
        Some((label, C::unit(1)))
    } else {
        match folded::<B, C>(rotations, k - 1, label, eps) {
            Some((l, f)) => turned::<B, C>(
                l,
                f,
                rotations[k - 1].0,
                rotations[k - 1].1,
                eps,
            ),
            None => None,
        }
    }
}

/// The words and parameters that a list refers to.
pub open spec fn seen<P>(rotations: Seq<((u64, u64), &P)>) -> Seq<((u64, u64), P)> {
    Seq::new(rotations.len(), |k: int| (rotations[k].0, *rotations[k].1))
}

/// Folds one Clifford rotation onto a label and its factor.
fn fold_clifford_rotation<B: SoaBasis, C: CoeffRepr>(
    label: [u64; 2],
    factor: C::Real,
    gw: [u64; 2],
    param: &C::GateParam,
    eps: C::Real,
) -> (r: Option<([u64; 2], C::Real)>)
    ensures
        match r {
            Some((l, f)) => turned::<B, C>((label[0], label[1]), factor, (gw[0], gw[1]), *param, eps)
                == Some(((l[0], l[1]), f)),
            None => turned::<B, C>((label[0], label[1]), factor, (gw[0], gw[1]), *param, eps) is None,
        },
{
    if B::commutes_at_word(label, gw) {
        return Some((label, factor));
    }
    if C::is_clifford_param(param, eps) {
        let (out, phase) = B::product_at_word(label, gw);
        return match C::clifford_branch_sign(param, phase) {
            Some(s) => {
                proof {
                    lemma_sign(C::turn_sign(*param).unwrap(), phase);
                }
                Some((out, C::real_mul(factor, C::real_unit(s))))
            },
            None => None,
        };
    }
    match C::phase_only_scale(param, eps) {
        Some(cos) => Some((label, C::real_mul(factor, cos))),
        None => None,
    }
}

/// A sign times an imaginary part is a sign or zero.
proof fn lemma_sign(t: int, phase: Phase)
    requires
        t == 1 || t == -1,
    ensures
        -1 <= t * -phase.imaginary() <= 1,
{
    let y = -phase.imaginary();
    assert(t == 1 ==> t * y == y) by (nonlinear_arith);
    assert(t == -1 ==> t * y == -y) by (nonlinear_arith);
}

/// The label that table entry `idx` stands for: qubit `i` is in the two low bits, qubit `j` in
/// the two above.
spec fn label_of(idx: u64, bi: u64, bj: u64, two: bool) -> (u64, u64) {
    if two {
        (
            ((idx & 1) << bi) | (((idx >> 2) & 1) << bj),
            (((idx >> 1) & 1) << bi) | (((idx >> 3) & 1) << bj),
        )
    } else {
        ((idx & 1) << bi, ((idx >> 1) & 1) << bi)
    }
}

/// The table entry that a word pair falls under.
spec fn index_of(w: (u64, u64), bi: u64, bj: u64, two: bool) -> u64 {
    if two {
        (((w.0 >> bi) & 1) | (((w.1 >> bi) & 1) << 1)) | ((((w.0 >> bj) & 1) | (((w.1 >> bj) & 1)
            << 1)) << 2)
    } else {
        ((w.0 >> bi) & 1) | (((w.1 >> bi) & 1) << 1)
    }
}

/// The bits of the qubits.
pub open spec fn mask_of(bi: u64, bj: u64, two: bool) -> u64 {
    if two {
        (1u64 << bi) | (1u64 << bj)
    } else {
        1u64 << bi
    }
}

/// A word pair's entry stands for the part of it on the qubits.
proof fn lemma_index(w: (u64, u64), bi: u64, bj: u64, two: bool)
    requires
        bi < 64,
        bj < 64,
    ensures
        index_of(w, bi, bj, two) < (if two {
            16u64
        } else {
            4
        }),
        label_of(index_of(w, bi, bj, two), bi, bj, two) == store::picked(w, mask_of(bi, bj, two)),
{
    let (x, z) = w;
    let i1 = ((x >> bi) & 1) | (((z >> bi) & 1) << 1);
    let i2 = (((x >> bi) & 1) | (((z >> bi) & 1) << 1)) | ((((x >> bj) & 1) | (((z >> bj) & 1)
        << 1)) << 2);
    assert(i1 < 4 && (i1 & 1) << bi == x & (1u64 << bi) && ((i1 >> 1) & 1) << bi == z & (1u64
        << bi)) by (bit_vector)
        requires
            bi < 64,
            i1 == ((x >> bi) & 1) | (((z >> bi) & 1) << 1),
    ;
    assert(i2 < 16 && ((i2 & 1) << bi) | (((i2 >> 2) & 1) << bj) == x & ((1u64 << bi) | (1u64
        << bj)) && (((i2 >> 1) & 1) << bi) | (((i2 >> 3) & 1) << bj) == z & ((1u64 << bi) | (1u64
        << bj))) by (bit_vector)
        requires
            bi < 64,
            bj < 64,
            i2 == (((x >> bi) & 1) | (((z >> bi) & 1) << 1)) | ((((x >> bj) & 1) | (((z >> bj) & 1)
                << 1)) << 2),
    ;
}

/// Every entry's label is on the qubits.
proof fn lemma_label(idx: u64, bi: u64, bj: u64, two: bool)
    requires
        bi < 64,
        bj < 64,
    ensures
        store::picked(label_of(idx, bi, bj, two), mask_of(bi, bj, two)) == label_of(
            idx,
            bi,
            bj,
            two,
        ),
{
    let a = idx & 1;
    let b = (idx >> 1) & 1;
    let c = (idx >> 2) & 1;
    let d = (idx >> 3) & 1;
    assert(a <= 1 && b <= 1 && c <= 1 && d <= 1) by (bit_vector)
        requires
            a == idx & 1,
            b == (idx >> 1) & 1,
            c == (idx >> 2) & 1,
            d == (idx >> 3) & 1,
    ;
    assert((a << bi) & (1u64 << bi) == a << bi && (b << bi) & (1u64 << bi) == b << bi && ((a << bi)
        | (c << bj)) & ((1u64 << bi) | (1u64 << bj)) == (a << bi) | (c << bj) && ((b << bi) | (d
        << bj)) & ((1u64 << bi) | (1u64 << bj)) == (b << bi) | (d << bj)) by (bit_vector)
        requires
            bi < 64,
            bj < 64,
            a <= 1,
            b <= 1,
            c <= 1,
            d <= 1,
    ;
}

/// A Clifford conjugation supported on one or two qubits inside a single word of a key.
pub struct CliffordOp<R> {
    /// The word that holds the qubits.
    word: usize,
    /// Bit positions within the word; both the same for one qubit.
    bits: [u32; 2],
    n_qubits: usize,
    /// Bits of the word that may be rewritten.
    mask: u64,
    /// What each label becomes, and its factor.
    table: Vec<([u64; 2], R)>,
}

impl<R: Copy> CliffordOp<R> {
    /// There are one or two qubits, and an entry for each of their labels.
    pub closed spec fn wf(&self) -> bool {
        &&& self.n_qubits == 1 || self.n_qubits == 2
        &&& self.bits[0] < 64
        &&& self.bits[1] < 64
        &&& self.mask == mask_of(self.bits[0] as u64, self.bits[1] as u64, self.n_qubits == 2)
        &&& self.table@.len() == (if self.n_qubits == 2 {
            16int
        } else {
            4
        })
    }

    /// The word that holds the qubits.
    pub closed spec fn word_of(&self) -> int {
        self.word as int
    }

    /// How many qubits there are.
    pub closed spec fn qubits(&self) -> int {
        self.n_qubits as int
    }

    /// The bits that may be rewritten.
    pub closed spec fn mask_bits(&self) -> u64 {
        self.mask
    }

    /// What a label becomes, and its factor.
    pub closed spec fn entry(&self, label: (u64, u64)) -> ((u64, u64), R) {
        let e = self.table@[index_of(
            label,
            self.bits[0] as u64,
            self.bits[1] as u64,
            self.n_qubits == 2,
        ) as int];
        ((e.0[0], e.0[1]), e.1)
    }

    /// Number of qubits this conjugation is built over.
    pub fn n_qubits(&self) -> (n: usize)
        ensures
            n == self.qubits(),
    {
        self.n_qubits
    }

    /// The entry a word pair falls under.
    fn lookup(&self, w: [u64; 2]) -> (r: ([u64; 2], R))
        requires
            self.wf(),
        ensures
            ((r.0[0], r.0[1]), r.1) == self.entry(
                store::picked((w[0], w[1]), self.mask_bits()),
            ),
    {
        let bi: u64 = self.bits[0] as u64;
        let bj: u64 = self.bits[1] as u64;
        let (x, z): (u64, u64) = (w[0], w[1]);
        proof {
            let two = self.n_qubits == 2;
            let label = store::picked((x, z), self.mask);
            lemma_index((x, z), bi, bj, two);
            lemma_same_entry((x, z), bi, bj, two);
        }
        let low: u64 = ((x >> bi) & 1) | (((z >> bi) & 1) << 1);
        if self.n_qubits == 2 {
            let high: u64 = ((x >> bj) & 1) | (((z >> bj) & 1) << 1);
            self.table[(low | (high << 2)) as usize]
        } else {
            self.table[low as usize]
        }
    }
}

/// A word pair falls under the entry of the part of it on the qubits.
proof fn lemma_same_entry(w: (u64, u64), bi: u64, bj: u64, two: bool)
    requires
        bi < 64,
        bj < 64,
    ensures
        index_of(store::picked(w, mask_of(bi, bj, two)), bi, bj, two) == index_of(w, bi, bj, two),
{
    let (x, z) = w;
    assert(((x & (1u64 << bi)) >> bi) & 1 == (x >> bi) & 1 && ((z & (1u64 << bi)) >> bi) & 1 == (z
        >> bi) & 1) by (bit_vector)
        requires
            bi < 64,
    ;
    let m = (1u64 << bi) | (1u64 << bj);
    assert(((x & m) >> bi) & 1 == (x >> bi) & 1 && ((z & m) >> bi) & 1 == (z >> bi) & 1 && ((x & m)
        >> bj) & 1 == (x >> bj) & 1 && ((z & m) >> bj) & 1 == (z >> bj) & 1) by (bit_vector)
        requires
            bi < 64,
            bj < 64,
            m == (1u64 << bi) | (1u64 << bj),
    ;
}

/// Builds the table of a run of Clifford rotations, given as their words and parameters.
/// `None` if some label meets a rotation that is not Clifford or whose sign is unknown.
pub fn build_fused_clifford<B: SoaBasis, C: CoeffRepr>(
    word: usize,
    bits: [u32; 2],
    n_qubits: usize,
    rotations: &Vec<((u64, u64), &C::GateParam)>,
    eps: C::Real,
) -> (r: Option<CliffordOp<C::Real>>)
    requires
        n_qubits == 1 || n_qubits == 2,
        bits[0] < 64,
        bits[1] < 64,
    ensures
        ({
            let mask = mask_of(bits[0] as u64, bits[1] as u64, n_qubits == 2);
            let n = rotations@.len() as int;
            match r {
                Some(op) => {
                    &&& op.wf()
                    &&& op.word_of() == word
                    &&& op.qubits() == n_qubits
                    &&& op.mask_bits() == mask
                    &&& forall|l: (u64, u64)|
                        store::picked(l, mask) == l ==> folded::<B, C>(seen(rotations@), n, l, eps) == Some(
                            #[trigger] op.entry(l),
                        )
                },
                None => exists|l: (u64, u64)|
                    store::picked(l, mask) == l && #[trigger] folded::<B, C>(
                        seen(rotations@),
                        n,
                        l,
                        eps,
                    ) is None,
            }
        }),
{
    let bi: u64 = bits[0] as u64;
    let bj: u64 = bits[1] as u64;
    let two: bool = n_qubits == 2;
    let mask: u64 = if two {
        (1u64 << bi) | (1u64 << bj)
    } else {
        1u64 << bi
    };
    let n_labels: u64 = if two {
        16
    } else {
        4
    };
    let n: usize = rotations.len();
    let mut table: Vec<([u64; 2], C::Real)> = Vec::new();
    let mut idx: u64 = 0;
    while idx < n_labels
        invariant
            idx <= n_labels,
            n_labels == (if two {
                16u64
            } else {
                4
            }),
            bi < 64,
            bj < 64,
            n == rotations@.len(),
            mask == mask_of(bi, bj, two),
            bi == bits[0],
            bj == bits[1],
            two == (n_qubits == 2),
            table@.len() == idx,
            forall|k: int|
                0 <= k < idx ==> folded::<B, C>(
                    seen(rotations@),
                    n as int,
                    label_of(k as u64, bi, bj, two),
                    eps,
                ) == Some((((#[trigger] table@[k]).0[0], table@[k].0[1]), table@[k].1)),
        decreases n_labels - idx,
    {
        let ghost start = label_of(idx, bi, bj, two);
        proof {
            lemma_label(idx, bi, bj, two);
        }
        let mut label: [u64; 2] = if two {
            [
                ((idx & 1) << bi) | (((idx >> 2) & 1) << bj),
                (((idx >> 1) & 1) << bi) | (((idx >> 3) & 1) << bj),
            ]
        } else {
            [(idx & 1) << bi, ((idx >> 1) & 1) << bi]
        };
        let mut factor: C::Real = C::real_unit(1);
        let mut k: usize = 0;
        while k < n
            invariant
                k <= n,
                n == rotations@.len(),
                folded::<B, C>(seen(rotations@), k as int, start, eps) == Some(((label[0], label[1]), factor)),
                store::picked(start, mask) == start,
                mask == mask_of(bi, bj, two),
                bi == bits[0],
                bj == bits[1],
                two == (n_qubits == 2),
            decreases n - k,
        {
            let gw: [u64; 2] = [rotations[k].0.0, rotations[k].0.1];
            match fold_clifford_rotation::<B, C>(label, factor, gw, rotations[k].1, eps) {
                Some((l, f)) => {
                    label = l;
                    factor = f;
                },
                None => {
                    proof {
                        assert(folded::<B, C>(seen(rotations@), k + 1, start, eps) is None);
                        lemma_folded_none::<B, C>(seen(rotations@), k + 1, n as int, start, eps);
                    }
                    return None;
                },
            }
            k += 1;
        }
        table.push((label, factor));
        idx += 1;
    }
    let op = CliffordOp { word, bits, n_qubits, mask, table };
    proof {
        assert forall|l: (u64, u64)| store::picked(l, mask) == l implies folded::<B, C>(
            seen(rotations@),
            n as int,
            l,
            eps,
        ) == Some(#[trigger] op.entry(l)) by {
            lemma_index(l, bi, bj, two);
            let k = index_of(l, bi, bj, two) as int;
            assert(label_of(k as u64, bi, bj, two) == l);
            let e = op.table@[k];
        }
    }
    Some(op)
}

/// A label that has met a rotation that cannot be folded stays so.
proof fn lemma_folded_none<B: SoaBasis, C: CoeffRepr>(
    rotations: Seq<((u64, u64), C::GateParam)>,
    a: int,
    b: int,
    label: (u64, u64),
    eps: C::Real,
)
    requires
        0 <= a <= b,
        folded::<B, C>(rotations, a, label, eps) is None,
    ensures
        folded::<B, C>(rotations, b, label, eps) is None,
    decreases b - a,
{
    if a < b {
        lemma_folded_none::<B, C>(rotations, a, b - 1, label, eps);
    }
}

/// What a quarter turn makes of a label: nothing if they commute, else the product and its sign.
pub open spec fn quarter_turned<B: SoaBasis, C: CoeffRepr>(
    label: (u64, u64),
    gw: (u64, u64),
    param: C::GateParam,
) -> Option<((u64, u64), C::Real)> {
    if B::word_commuting(label, gw) {
        Some((label, C::unit(1)))
    } else {
        match C::turn_sign(param) {
            Some(t) => Some(
                (
                    B::word_product(label, gw),
                    C::unit(t * -B::word_phase(label, gw).imaginary()),
                ),
            ),
            None => None,
        }
    }
}

/// Builds the table of one quarter turn about a generator on the single qubit at bit `bit` of
/// word `word`. `None` if some label does not commute with it and its sign is unknown.
pub fn build_clifford_table<B: SoaBasis, C: CoeffRepr>(
    word: usize,
    bit: u32,
    gw: [u64; 2],
    param: &C::GateParam,
) -> (r: Option<CliffordOp<C::Real>>)
    requires
        bit < 64,
    ensures
        ({
            let mask = 1u64 << (bit as u64);
            match r {
                Some(op) => {
                    &&& op.wf()
                    &&& op.word_of() == word
                    &&& op.qubits() == 1
                    &&& op.mask_bits() == mask
                    &&& forall|l: (u64, u64)|
                        store::picked(l, mask) == l ==> quarter_turned::<B, C>(
                            l,
                            (gw[0], gw[1]),
                            *param,
                        ) == Some(#[trigger] op.entry(l))
                },
                None => C::turn_sign(*param) is None && exists|l: (u64, u64)|
                    store::picked(l, mask) == l && !(#[trigger] B::word_commuting(
                        l,
                        (gw[0], gw[1]),
                    )),
            }
        }),
{
    let bi: u64 = bit as u64;
    let ghost mask = 1u64 << bi;
    let mut table: Vec<([u64; 2], C::Real)> = Vec::new();
    let mut idx: u64 = 0;
    while idx < 4
        invariant
            idx <= 4,
            bi < 64,
            bi == bit,
            mask == 1u64 << bi,
            table@.len() == idx,
            forall|k: int|
                0 <= k < idx ==> quarter_turned::<B, C>(
                    label_of(k as u64, bi, bi, false),
                    (gw[0], gw[1]),
                    *param,
                ) == Some((((#[trigger] table@[k]).0[0], table@[k].0[1]), table@[k].1)),
        decreases 4 - idx,
    {
        proof {
            lemma_label(idx, bi, bi, false);
        }
        let label: [u64; 2] = [(idx & 1) << bi, ((idx >> 1) & 1) << bi];
        if B::commutes_at_word(label, gw) {
            table.push((label, C::real_unit(1)));
        } else {
            let (out, phase) = B::product_at_word(label, gw);
            match C::clifford_branch_sign(param, phase) {
                Some(s) => {
                    proof {
                        lemma_sign(C::turn_sign(*param).unwrap(), phase);
                    }
                    table.push((out, C::real_unit(s)));
                },
                None => {
                    proof {
                        let l = label_of(idx, bi, bi, false);
                        assert(store::picked(l, mask) == l && !B::word_commuting(
                            l,
                            (gw[0], gw[1]),
                        ));
                    }
                    return None;
                },
            }
        }
        idx += 1;
    }
    let op = CliffordOp { word, bits: [bit, bit], n_qubits: 1, mask: 1u64 << bi, table };
    proof {
        assert forall|l: (u64, u64)| store::picked(l, mask) == l implies quarter_turned::<B, C>(
            l,
            (gw[0], gw[1]),
            *param,
        ) == Some(#[trigger] op.entry(l)) by {
            lemma_index(l, bi, bi, false);
            let k = index_of(l, bi, bi, false) as int;
            assert(label_of(k as u64, bi, bi, false) == l);
            let e = op.table@[k];
        }
    }
    Some(op)
}

/// What a conjugation makes of one term.
pub open spec fn conjugated<C: CoeffRepr>(
    op: CliffordOp<C::Real>,
    span: nat,
    key: Seq<bool>,
    coeff: C,
    new_key: Seq<bool>,
    new_coeff: C,
) -> bool {
    exists|w: (u64, u64)| #[trigger]
        store::held_at(key, span as int, op.word_of(), w) && {
            let (label, factor) = op.entry(store::picked(w, op.mask_bits()));
            let new = store::patched(w, op.mask_bits(), label);
            &&& new_key == sparse::spliced(key, span as int, op.word_of(), [new.0, new.1])
            &&& new_coeff == coeff.scaled(factor)
        }
}

/// The word pair that a row holds at a word.
pub fn word_of_row(row: &[Position], plane_span: usize, word: usize) -> (w: [u64; 2])
    requires
        sparse::orderly(row@, 2 * plane_span),
        2 * plane_span <= u32::MAX + 1,
        2 * plane_span <= usize::MAX,
        64 * word + 64 <= plane_span,
    ensures
        store::held_at(
            sparse::key_in(row@, (2 * plane_span) as nat),
            plane_span as int,
            word as int,
            (w[0], w[1]),
        ),
{
    let w: [u64; 2] = sparse::row_word_pair(row, plane_span, word);
    proof {
        let key = sparse::key_in(row@, (2 * plane_span) as nat);
        assert forall|b: int| 0 <= b < 64 implies #[trigger] bits::bit(w[0], b) == key[64 * word
            + b] && bits::bit(w[1], b) == key[plane_span + 64 * word + b] by {
            assert(bits::bit(w[0], b) == row@.contains((64 * word + b) as u32));
            assert(bits::bit(w[1], b) == row@.contains((plane_span + 64 * word + b) as u32));
        }
    }
    w
}

/// Applies a conjugation to every term. Only one word of each key is rewritten.
pub fn apply_clifford_op<C: CoeffRepr>(terms: &mut SoaTermSum<C>, op: &CliffordOp<C::Real>)
    requires
        old(terms).wf(),
        op.wf(),
        64 * op.word_of() + 64 <= old(terms).span(),
    ensures
        final(terms).wf(),
        final(terms).room() == old(terms).room(),
        final(terms).same_setup(*old(terms)),
        final(terms).row_lists().len() == old(terms).row_lists().len(),
        final(terms).synced() == 0,
        forall|i: int|
            0 <= i < old(terms).row_lists().len() ==> conjugated(
                *op,
                old(terms).span(),
                #[trigger] old(terms).key(i),
                old(terms).coeff_seq()[i],
                final(terms).key(i),
                final(terms).coeff_seq()[i],
            ),
{
    let n: usize = terms.len();
    let ghost before = *terms;
    proof {
        terms.lemma_wf();
        terms.rows.lemma_wf();
    }
    let span: usize = terms.rows.plane_span();
    let mut next: SparseRows = SparseRows::new(terms.rows.stride());
    let mut coeffs: Vec<C> = Vec::new();
    let mut i: usize = 0;
    while i < n
        invariant
            i <= n,
            n == before.row_lists().len(),
            *terms == before,
            before.wf(),
            op.wf(),
            span == before.span(),
            span % 64 == 0,
            2 * span <= u32::MAX + 1,
            2 * span <= usize::MAX,
            64 * op.word_of() + 64 <= span,
            forall|x: int|
                0 <= x < n ==> sparse::orderly(#[trigger] before.row_lists()[x], 2 * span),
            next.wf(),
            next.span() == span,
            next.rows().len() == i,
            coeffs@.len() == i,
            forall|x: int|
                0 <= x < i ==> conjugated(
                    *op,
                    span as nat,
                    before.key(x),
                    before.coeff_seq()[x],
                    sparse::key_in(#[trigger] next.rows()[x], (2 * span) as nat),
                    coeffs@[x],
                ),
        decreases n - i,
    {
        let row: &[Position] = terms.rows.row(i);
        let ghost key = before.key(i as int);
        proof {
            assert(sparse::orderly(before.row_lists()[i as int], 2 * span));
        }
        let w: [u64; 2] = word_of_row(row, span, op.word);
        let (label, factor) = op.lookup(w);
        let new: [u64; 2] = [(w[0] & !op.mask) | label[0], (w[1] & !op.mask) | label[1]];
        let mut out: Vec<Position> = Vec::new();
        sparse::splice_row_word(row, span, op.word, new, &mut out);
        let mut c: C = terms.coeffs[i].duplicate();
        c.scale_real(factor);
        coeffs.push(c);
        proof {
            let want = sparse::spliced(key, span as int, op.word as int, new);
            assert(out@.skip(0) =~= out@);
            sparse::lemma_spells(out@, want);
            let p = store::patched((w[0], w[1]), op.mask, (label[0], label[1]));
            assert([p.0, p.1] =~= new);
            assert(store::held_at(key, span as int, op.word as int, (w[0], w[1])));
            assert(conjugated(
                *op,
                span as nat,
                key,
                before.coeff_seq()[i as int],
                want,
                c,
            ));
        }
        let ghost was = next.rows();
        next.push_row(out.as_slice());
        i += 1;
        proof {
            assert(next.rows()[i - 1] == out@);
            assert forall|x: int| 0 <= x < i implies conjugated(
                *op,
                span as nat,
                before.key(x),
                before.coeff_seq()[x],
                sparse::key_in(#[trigger] next.rows()[x], (2 * span) as nat),
                coeffs@[x],
            ) by {
                if x < i - 1 {
                    assert(next.rows()[x] == was[x]);
                }
            }
        }
    }
    terms.rows = next;
    terms.coeffs = coeffs;
    terms.coeffs.reserve(terms.coeff_room - terms.coeffs.len());
    terms.merge_synced_len = 0;
    proof {
        assert forall|x: int| 0 <= x < n implies conjugated(
            *op,
            before.span(),
            #[trigger] before.key(x),
            before.coeff_seq()[x],
            terms.key(x),
            terms.coeff_seq()[x],
        ) by {
            let r = terms.row_lists()[x];
        }
    }
}

/// Replacing the masked bits twice is replacing them once, and they can be read back.
proof fn lemma_patched(w: (u64, u64), mask: u64, a: (u64, u64), b: (u64, u64))
    requires
        store::picked(a, mask) == a,
    ensures
        store::picked(store::patched(w, mask, a), mask) == a,
        store::patched(store::patched(w, mask, a), mask, b) == store::patched(w, mask, b),
        store::patched(w, mask, store::picked(w, mask)) == w,
{
    let (x, z) = w;
    let (ax, az) = a;
    assert(((x & !mask) | ax) & mask == ax && (((x & !mask) | ax) & !mask) == x & !mask && ((x
        & !mask) | (x & mask)) == x) by (bit_vector)
        requires
            ax & mask == ax,
    ;
    assert(((z & !mask) | az) & mask == az && (((z & !mask) | az) & !mask) == z & !mask && ((z
        & !mask) | (z & mask)) == z) by (bit_vector)
        requires
            az & mask == az,
    ;
}

/// Fusing is exact: folding a run of rotations onto the masked bits of a word and putting the
/// result back gives what the rotations give on the whole word, one after another, with the same
/// factor.
pub proof fn law_fusion_is_exact<B: SoaBasis, C: CoeffRepr>(
    rotations: Seq<((u64, u64), C::GateParam)>,
    k: int,
    mask: u64,
    w: (u64, u64),
    eps: C::Real,
)
    requires
        0 <= k <= rotations.len(),
        forall|j: int|
            0 <= j < k ==> store::picked((#[trigger] rotations[j]).0, mask) == rotations[j].0,
    ensures
        folded::<B, C>(rotations, k, w, eps) == match folded::<B, C>(
            rotations,
            k,
            store::picked(w, mask),
            eps,
        ) {
            Some((l, f)) => Some((store::patched(w, mask, l), f)),
            None => None,
        },
        folded::<B, C>(rotations, k, store::picked(w, mask), eps) matches Some((l, f))
            ==> store::picked(l, mask) == l,
    decreases k,
{
    let label = store::picked(w, mask);
    assert(store::picked(label, mask) == label) by {
        let (x, z) = w;
        assert((x & mask) & mask == x & mask && (z & mask) & mask == z & mask) by (bit_vector);
    }
    lemma_patched(w, mask, label, label);
    if k > 0 {
        law_fusion_is_exact::<B, C>(rotations, k - 1, mask, w, eps);
        if let Some((l, f)) = folded::<B, C>(rotations, k - 1, label, eps) {
            let gw = rotations[k - 1].0;
            let full = store::patched(w, mask, l);
            let p = B::word_product(l, gw);
            lemma_patched(w, mask, l, p);
            B::masked_law(full, gw, mask);
            B::masked_law(l, gw, mask);
        }
    }
}

/// A table rewrites the bits of its qubits and no others.
pub proof fn law_mask_has_the_qubits(bi: u64, bj: u64, two: bool, i: int)
    requires
        bi < 64,
        bj < 64,
        0 <= i < 64,
    ensures
        bits::bit(mask_of(bi, bj, two), i) <==> i == bi || two && i == bj,
{
    bits::lemma_bit_one_hot(bi, i);
    bits::lemma_bit_one_hot(bj, i);
    bits::lemma_bit_ops(1u64 << bi, 1u64 << bj, i);
}

} // verus!
