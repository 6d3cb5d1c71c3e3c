//! Driving a circuit's rotations over a sum in columns: which runs of rotations collapse into one
//! table, and when a sum is merged and cut.

use crate::bits;
use crate::clifford_ops;
use crate::clifford_ops::CliffordOp;
use crate::coeff::CoeffRepr;
use crate::kernels;
use crate::sparse;
use crate::store;
use crate::store::{SoaBasis, SoaTermSum};
use crate::term_kernel::TruncationKernel;
use crate::truncators::ResolvedConfig;
use vstd::prelude::*;

verus! {

/// One rotation of a circuit: the generator's planes, the parameter, and whether it is an inner
/// step of a larger gate.
pub struct Rotation<P> {
    pub x: Vec<u64>,
    pub z: Vec<u64>,
    pub param: P,
    pub is_intermediate: bool,
    /// The place in the source circuit of what it belongs to.
    pub gate_idx: Option<usize>,
}

/// What is done for one rotation of a layer.
pub enum GateAction<R> {
    /// Apply the rotation.
    Normal,
    /// Nothing: it is folded into a later rotation's table.
    Skip,
    /// Apply this table in place of the rotation and those folded into it.
    Fused(CliffordOp<R>),
}

/// How many bits of a word are set.
pub open spec fn popcount(m: u64) -> nat {
    bits::ones(bits::word_bits(m))
}

/// The word and the bits of a rotation that may be folded into a table: a Clifford rotation on
/// one or two bits of one word.
pub open spec fn fusable<B: SoaBasis, C: CoeffRepr>(r: Rotation<C::GateParam>) -> Option<
    (int, u64),
> {
    if C::quarter_turn(r.param, C::tolerance_of()) || C::half_turn(r.param, C::tolerance_of()) is Some {
        match B::local_of(sparse::key_of(r.x@, r.z@, 64 * r.x@.len())) {
            Some(w) => {
                let m = r.x@[w] | r.z@[w];
                if m == 0 || popcount(m) > 2 {
                    None
                } else {
                    Some((w, m))
                }
            },
            None => None,
        }
    } else {
        None
    }
}

/// The one- or two-qubit support of a rotation that may be folded into a table.
fn clifford_support<B: SoaBasis, C: CoeffRepr>(r: &Rotation<C::GateParam>) -> (s: Option<
    (usize, u64),
>)
    requires
        r.x@.len() == r.z@.len(),
    ensures
        match s {
            Some((w, m)) => fusable::<B, C>(*r) == Some((w as int, m)) && w < r.x@.len(),
            None => fusable::<B, C>(*r) is None,
        },
{
    if !C::is_clifford_param(&r.param, C::tolerance()) && C::phase_only_scale(&r.param, C::tolerance()).is_none() {
        return None;
    }
    match B::local_word([r.x.as_slice(), r.z.as_slice()]) {
        Some(w) => {
            proof {
                let g = sparse::key_of(r.x@, r.z@, 64 * r.x@.len());
                B::local_bound(g, (64 * r.x@.len()) as int, w as int);
            }
            let m: u64 = r.x[w] | r.z[w];
            if m == 0 || bits::count_ones(m) > 2 {
                None
            } else {
                Some((w, m))
            }
        },
        None => None,
    }
}

/// The at most two set bit positions of `mask`.
fn support_bits(mask: u64) -> (r: [u32; 2])
    requires
        mask != 0,
        popcount(mask) <= 2,
    ensures
        r[0] < 64,
        r[1] < 64,
        clifford_ops::mask_of(r[0] as u64, r[1] as u64, popcount(mask) == 2) == mask,
        popcount(mask) == 1 ==> r[0] == r[1],
        popcount(mask) >= 1,
{
    proof {
        lemma_lowest(mask);
    }
    let b0: u32 = mask.trailing_zeros();
    let rest: u64 = mask & (mask - 1);
    if rest == 0 {
        proof {
            lemma_no_bits(rest);
            assert forall|i: int| 0 <= i < 64 implies bits::bit(mask, i) == bits::bit(
                1u64 << (b0 as u64),
                i,
            ) by {
                bits::lemma_bit_one_hot(b0 as u64, i);
                bits::lemma_bit_zero(i);
                assert(bits::bit(rest, i) == (bits::bit(mask, i) && i != b0));
            }
            bits::lemma_word_ext(mask, 1u64 << (b0 as u64));
        }
        return [b0, b0];
    }
    proof {
        lemma_lowest(rest);
    }
    let b1: u32 = rest.trailing_zeros();
    proof {
        let last = rest & (rest - 1) as u64;
        lemma_no_bits(last);
        let both = (1u64 << (b0 as u64)) | (1u64 << (b1 as u64));
        assert forall|i: int| 0 <= i < 64 implies bits::bit(mask, i) == bits::bit(both, i) by {
            bits::lemma_bit_one_hot(b0 as u64, i);
            bits::lemma_bit_one_hot(b1 as u64, i);
            bits::lemma_bit_ops(1u64 << (b0 as u64), 1u64 << (b1 as u64), i);
            assert(bits::bit(rest, i) == (bits::bit(mask, i) && i != b0));
            assert(bits::bit(last, i) == (bits::bit(rest, i) && i != b1));
            assert(bits::word_bits(last)[i] == bits::bit(last, i));
            assert(bits::word_bits(rest)[b1 as int] == bits::bit(rest, b1 as int));
        }
        bits::lemma_word_ext(mask, both);
    }
    [b0, b1]
}

/// Dropping the lowest set bit leaves one fewer.
proof fn lemma_lowest(m: u64)
    requires
        m != 0,
    ensures
        0 <= vstd::std_specs::bits::u64_trailing_zeros(m) < 64,
        bits::bit(m, vstd::std_specs::bits::u64_trailing_zeros(m) as int),
        popcount(m & (m - 1) as u64) + 1 == popcount(m),
        forall|i: int| #[trigger]
            bits::bit(m & ((m - 1) as u64), i) == (bits::bit(m, i) && i
                != vstd::std_specs::bits::u64_trailing_zeros(m)),
{
    bits::lemma_drop_lowest(m);
    let t = vstd::std_specs::bits::u64_trailing_zeros(m) as int;
    let rest = m & (m - 1) as u64;
    assert(bits::word_bits(rest) =~= bits::word_bits(m).update(t, false));
    bits::lemma_ones_update(bits::word_bits(m), t, false);
}

/// A word is zero exactly when no bit is set.
proof fn lemma_no_bits(m: u64)
    ensures
        popcount(m) == 0 <==> m == 0,
        popcount(m) == 0 ==> forall|i: int|
            0 <= i < 64 ==> !(#[trigger] bits::word_bits(m)[i]),
{
    bits::lemma_ones_none(bits::word_bits(m));
    if m == 0 {
        assert forall|i: int| 0 <= i < 64 implies !#[trigger] bits::word_bits(m)[i] by {
            bits::lemma_bit_zero(i);
        }
    }
    if popcount(m) == 0 {
        assert forall|i: int| 0 <= i < 64 implies bits::bit(m, i) == bits::bit(0, i) by {
            bits::lemma_bit_zero(i);
            assert(bits::word_bits(m)[i] == bits::bit(m, i));
        }
        bits::lemma_word_ext(m, 0);
    }
}

/// Where a run of rotations that share a word and at most two of its bits ends, and all the bits
/// it touches. The run has come to rotation `j` with the bits `mask`.
pub open spec fn run_end<B: SoaBasis, C: CoeffRepr>(
    applied: Seq<Rotation<C::GateParam>>,
    j: int,
    word: int,
    mask: u64,
) -> (int, u64)
    decreases applied.len() - j,
{
    if j < applied.len() {
        match fusable::<B, C>(applied[j]) {
            Some((w, m)) => if w == word && popcount(mask | m) <= 2 {
                run_end::<B, C>(applied, j + 1, word, mask | m)
            } else {
                (j, mask)
            },
            None => (j, mask),
        }
    } else {
        (j, mask)
    }
}

/// The words and parameters of rotations `i` to `j` at word `word`.
pub open spec fn group_of<P>(applied: Seq<Rotation<P>>, i: int, j: int, word: int) -> Seq<
    ((u64, u64), P),
> {
    Seq::new(
        (j - i) as nat,
        |k: int| ((applied[i + k].x@[word], applied[i + k].z@[word]), applied[i + k].param),
    )
}

/// Every label on the bits of `mask` can be folded through rotations `i` to `j`.
pub open spec fn folds<B: SoaBasis, C: CoeffRepr>(
    applied: Seq<Rotation<C::GateParam>>,
    i: int,
    j: int,
    word: int,
    mask: u64,
) -> bool {
    forall|l: (u64, u64)|
        store::picked(l, mask) == l ==> #[trigger] clifford_ops::folded::<B, C>(
            group_of(applied, i, j, word),
            j - i,
            l,
            C::tolerance_of(),
        ) is Some
}

/// The table stands for rotations `i` to `j`.
pub open spec fn stands_for<B: SoaBasis, C: CoeffRepr>(
    op: CliffordOp<C::Real>,
    applied: Seq<Rotation<C::GateParam>>,
    i: int,
    j: int,
    word: int,
    mask: u64,
) -> bool {
    &&& op.wf()
    &&& op.word_of() == word
    &&& op.qubits() == popcount(mask)
    &&& op.mask_bits() == mask
    &&& forall|l: (u64, u64)|
        store::picked(l, mask) == l ==> clifford_ops::folded::<B, C>(
            group_of(applied, i, j, word),
            j - i,
            l,
            C::tolerance_of(),
        ) == Some(#[trigger] op.entry(l))
}

/// The actions of rotations `i` to `j`, which are one run.
pub open spec fn run_planned<B: SoaBasis, C: CoeffRepr>(
    applied: Seq<Rotation<C::GateParam>>,
    actions: Seq<GateAction<C::Real>>,
    i: int,
    j: int,
    word: int,
    mask: u64,
) -> bool {
    if j - i >= 2 && folds::<B, C>(applied, i, j, word, mask) {
        &&& forall|k: int| i <= k < j - 1 ==> #[trigger] actions[k] is Skip
        &&& actions[j - 1] matches GateAction::Fused(op) && stands_for::<B, C>(
            op,
            applied,
            i,
            j,
            word,
            mask,
        )
    } else {
        forall|k: int| i <= k < j ==> #[trigger] actions[k] is Normal
    }
}

/// The actions from rotation `i` on: each maximal run of two or more that can be folded is one
/// table at its last rotation, and every other rotation is applied by itself.
pub open spec fn planned<B: SoaBasis, C: CoeffRepr>(
    applied: Seq<Rotation<C::GateParam>>,
    actions: Seq<GateAction<C::Real>>,
    i: int,
) -> bool
    decreases applied.len() - i,
{
    if i < applied.len() {
        match fusable::<B, C>(applied[i]) {
            Some((word, first)) => {
                let (j, mask) = run_end::<B, C>(applied, i + 1, word, first);
                i < j <= applied.len() && run_planned::<B, C>(applied, actions, i, j, word, mask) && planned::<B, C>(
                    applied,
                    actions,
                    j,
                )
            },
            None => actions[i] is Normal && planned::<B, C>(applied, actions, i + 1),
        }
    } else {
        true
    }
}

/// A run ends within the layer, and touches one or two bits.
proof fn lemma_run_end<B: SoaBasis, C: CoeffRepr>(
    applied: Seq<Rotation<C::GateParam>>,
    j: int,
    word: int,
    mask: u64,
)
    requires
        0 <= j <= applied.len(),
        mask != 0,
        popcount(mask) <= 2,
    ensures
        ({
            let (e, m) = run_end::<B, C>(applied, j, word, mask);
            j <= e <= applied.len() && m != 0 && popcount(m) <= 2
        }),
    decreases applied.len() - j,
{
    if j < applied.len() {
        if let Some((w, m)) = fusable::<B, C>(applied[j]) {
            if w == word && popcount(mask | m) <= 2 {
                assert(mask | m != 0) by (bit_vector)
                    requires
                        mask != 0,
                ;
                lemma_run_end::<B, C>(applied, j + 1, word, mask | m);
            }
        }
    }
}

/// Collapses each maximal run of Clifford rotations on one or two qubits into one table.
pub fn plan_clifford_fusion<B: SoaBasis, C: CoeffRepr>(applied: &Vec<Rotation<C::GateParam>>) -> (actions:
    Vec<GateAction<C::Real>>)
    requires
        forall|k: int|
            0 <= k < applied@.len() ==> (#[trigger] applied@[k]).x@.len() == applied@[k].z@.len(),
        forall|k: int|
            0 <= k < applied@.len() ==> (#[trigger] applied@[k]).x@.len() == applied@[0].x@.len(),
    ensures
        actions@.len() == applied@.len(),
        planned::<B, C>(applied@, actions@, 0),
{
    let n: usize = applied.len();
    let mut actions: Vec<GateAction<C::Real>> = Vec::new();
    let mut i: usize = 0;
    while i < n
        invariant
            i <= n,
            n == applied@.len(),
            actions@.len() == i,
            forall|k: int|
                0 <= k < applied@.len() ==> (#[trigger] applied@[k]).x@.len()
                    == applied@[k].z@.len(),
            forall|k: int|
                0 <= k < applied@.len() ==> (#[trigger] applied@[k]).x@.len()
                    == applied@[0].x@.len(),
            forall|a: Seq<GateAction<C::Real>>|
                a.len() >= i && a.take(i as int) == actions@ && #[trigger] planned::<B, C>(
                    applied@,
                    a,
                    i as int,
                ) ==> planned::<B, C>(applied@, a, 0),
        decreases n - i,
    {
        let ghost done = actions@;
        let ghost start = i as int;
        match clifford_support::<B, C>(&applied[i]) {
            None => {
                actions.push(GateAction::Normal);
                i += 1;
                proof {
                    assert forall|a: Seq<GateAction<C::Real>>|
                        a.len() >= i && a.take(i as int) == actions@ && #[trigger] planned::<B, C>(
                            applied@,
                            a,
                            i as int,
                        ) implies planned::<B, C>(applied@, a, 0) by {
                        assert(a.take(start) =~= done) by {
                            assert(a.take(i as int).take(start) =~= a.take(start));
                            assert(actions@.take(start) =~= done);
                        }
                        assert(a[start] == a.take(i as int)[start]);
                        assert(planned::<B, C>(applied@, a, start));
                    }
                }
            },
            Some((word, first)) => {
                let (j, mask) = extend_run::<B, C>(applied, i, word, first);
                proof {
                    lemma_run_end::<B, C>(applied@, start + 1, word as int, first);
                }
                plan_run::<B, C>(applied, i, j, word, mask, &mut actions);
                i = j;
                proof {
                    assert forall|a: Seq<GateAction<C::Real>>|
                        a.len() >= i && a.take(i as int) == actions@ && #[trigger] planned::<B, C>(
                            applied@,
                            a,
                            i as int,
                        ) implies planned::<B, C>(applied@, a, 0) by {
                        assert(a.take(start) =~= done) by {
                            assert(a.take(i as int).take(start) =~= a.take(start));
                            assert(actions@.take(start) =~= done);
                        }
                        assert forall|k: int| 0 <= k < i implies #[trigger] a[k] == actions@[k] by {
                            assert(a[k] == a.take(i as int)[k]);
                        }
                        assert(run_planned::<B, C>(
                            applied@,
                            a,
                            start,
                            j as int,
                            word as int,
                            mask,
                        ));
                        assert(planned::<B, C>(applied@, a, start));
                    }
                }
            },
        }
    }
    proof {
        assert(actions@.take(n as int) =~= actions@);
        assert(planned::<B, C>(applied@, actions@, n as int));
    }
    actions
}

/// Finds where the run from rotation `i` ends, and the bits it touches.
fn extend_run<B: SoaBasis, C: CoeffRepr>(
    applied: &Vec<Rotation<C::GateParam>>,
    i: usize,
    word: usize,
    first: u64,
) -> (r: (usize, u64))
    requires
        i < applied@.len(),
        forall|k: int|
            0 <= k < applied@.len() ==> (#[trigger] applied@[k]).x@.len() == applied@[k].z@.len(),
    ensures
        run_end::<B, C>(applied@, i + 1, word as int, first) == (r.0 as int, r.1),
        i < r.0,
{
    let n: usize = applied.len();
    let mut mask: u64 = first;
    let mut j: usize = i + 1;
    while j < n
        invariant
            i < j <= n,
            n == applied@.len(),
            forall|k: int|
                0 <= k < applied@.len() ==> (#[trigger] applied@[k]).x@.len()
                    == applied@[k].z@.len(),
            run_end::<B, C>(applied@, j as int, word as int, mask) == run_end::<B, C>(
                applied@,
                i + 1,
                word as int,
                first,
            ),
        decreases applied@.len() - j,
    {
        match clifford_support::<B, C>(&applied[j]) {
            Some((w, m)) => {
                if w != word || bits::count_ones(mask | m) > 2 {
                    return (j, mask);
                }
                mask = mask | m;
                j += 1;
            },
            None => {
                return (j, mask);
            },
        }
    }
    (j, mask)
}

/// Adds the actions of one run.
fn plan_run<B: SoaBasis, C: CoeffRepr>(
    applied: &Vec<Rotation<C::GateParam>>,
    i: usize,
    j: usize,
    word: usize,
    mask: u64,
    actions: &mut Vec<GateAction<C::Real>>,
)
    requires
        i < j <= applied@.len(),
        old(actions)@.len() == i,
        word < applied@[i as int].x@.len(),
        mask != 0,
        popcount(mask) <= 2,
        forall|k: int|
            0 <= k < applied@.len() ==> (#[trigger] applied@[k]).x@.len() == applied@[k].z@.len(),
        forall|k: int|
            0 <= k < applied@.len() ==> (#[trigger] applied@[k]).x@.len() == applied@[0].x@.len(),
    ensures
        final(actions)@.len() == j,
        final(actions)@.take(i as int) == old(actions)@,
        run_planned::<B, C>(
            applied@,
            final(actions)@,
            i as int,
            j as int,
            word as int,
            mask,
        ),
{
    if j - i >= 2 {
        let mut group: Vec<((u64, u64), &C::GateParam)> = Vec::new();
        let mut k: usize = i;
        while k < j
            invariant
                i <= k <= j <= applied@.len(),
                i < applied@.len(),
                word < applied@[i as int].x@.len(),
                forall|x: int|
                    0 <= x < applied@.len() ==> (#[trigger] applied@[x]).x@.len()
                        == applied@[x].z@.len(),
                forall|x: int|
                    0 <= x < applied@.len() ==> (#[trigger] applied@[x]).x@.len()
                        == applied@[0].x@.len(),
                clifford_ops::seen(group@) == group_of(applied@, i as int, k as int, word as int),
            decreases j - k,
        {
            let r: &Rotation<C::GateParam> = &applied[k];
            proof {
                assert(applied@[k as int].x@.len() == applied@[0].x@.len());
                assert(applied@[i as int].x@.len() == applied@[0].x@.len());
            }
            let ghost was = group@;
            group.push(((r.x[word], r.z[word]), &r.param));
            proof {
                let now = clifford_ops::seen(group@);
                let want = group_of(applied@, i as int, k + 1, word as int);
                assert(was.len() == clifford_ops::seen(was).len());
                assert(was.len() == k - i);
                assert forall|x: int| 0 <= x < now.len() implies #[trigger] now[x] == want[x] by {
                    if x < was.len() {
                        assert(clifford_ops::seen(was)[x] == now[x]);
                        assert(group_of(applied@, i as int, k as int, word as int)[x] == want[x]);
                    }
                }
                assert(now =~= want);
            }
            k += 1;
        }
        let bits: [u32; 2] = support_bits(mask);
        let n_qubits: usize = bits::count_ones(mask) as usize;
        match clifford_ops::build_fused_clifford::<B, C>(word, bits, n_qubits, &group, C::tolerance()) {
            Some(op) => {
                proof {
                    assert(stands_for::<B, C>(
                        op,
                        applied@,
                        i as int,
                        j as int,
                        word as int,
                        mask,
                    ));
                    assert(folds::<B, C>(applied@, i as int, j as int, word as int, mask)) by {
                        assert forall|l: (u64, u64)| store::picked(l, mask) == l implies #[trigger] clifford_ops::folded::<
                            B,
                            C,
                        >(group_of(applied@, i as int, j as int, word as int), j - i, l, C::tolerance_of()) is Some by {
                            let e = op.entry(l);
                        }
                    }
                }
                push_plain(actions, j - 1, true);
                actions.push(GateAction::Fused(op));
                proof {
                    assert(actions@.take(i as int) =~= old(actions)@);
                }
                return;
            },
            None => {},
        }
    }
    push_plain(actions, j, false);
}

/// Fills up with `Skip` or `Normal` actions.
fn push_plain<R>(actions: &mut Vec<GateAction<R>>, len: usize, skip: bool)
    requires
        old(actions)@.len() <= len,
    ensures
        final(actions)@.len() == len,
        final(actions)@.take(old(actions)@.len() as int) == old(actions)@,
        forall|k: int|
            old(actions)@.len() <= k < len ==> if skip {
                #[trigger] final(actions)@[k] is Skip
            } else {
                final(actions)@[k] is Normal
            },
{
    let ghost was = actions@;
    proof {
        assert(actions@.take(was.len() as int) =~= was);
    }
    while actions.len() < len
        invariant
            was.len() <= actions@.len() <= len,
            actions@.take(was.len() as int) == was,
            forall|k: int|
                was.len() <= k < actions@.len() ==> if skip {
                    #[trigger] actions@[k] is Skip
                } else {
                    actions@[k] is Normal
                },
        decreases len - actions@.len(),
    {
        let ghost now = actions@;
        if skip {
            actions.push(GateAction::Skip);
        } else {
            actions.push(GateAction::Normal);
        }
        proof {
            assert(actions@.take(was.len() as int) =~= now.take(was.len() as int));
        }
    }
}

/// The order in which a run meets the rotations of a circuit: the last layer first, and in each
/// layer the last rotation first.
pub open spec fn backwards<P>(circuit: Seq<Vec<Rotation<P>>>, met: Seq<Vec<Rotation<P>>>) -> bool {
    &&& met.len() == circuit.len()
    &&& forall|l: int|
        0 <= l < circuit.len() ==> (#[trigger] met[l])@ == circuit[circuit.len() - 1 - l]@.reverse()
}

/// A layer's rotations in the order in which a run meets them.
fn reversed_layer<P>(layer: Vec<Rotation<P>>) -> (met: Vec<Rotation<P>>)
    ensures
        met@ == layer@.reverse(),
{
    let ghost all = layer@;
    let mut rest: Vec<Rotation<P>> = layer;
    let mut met: Vec<Rotation<P>> = Vec::new();
    while rest.len() > 0
        invariant
            rest@.len() <= all.len(),
            rest@ == all.take(rest@.len() as int),
            met@ == all.skip(rest@.len() as int).reverse(),
        decreases rest@.len(),
    {
        let ghost n = rest@.len() as int;
        match rest.pop() {
            Some(rotation) => {
                met.push(rotation);
                proof {
                    assert(all.take(n).drop_last() =~= all.take(n - 1));
                    assert(met@ =~= all.skip(n - 1).reverse());
                }
            },
            None => {},
        }
    }
    proof {
        assert(all.skip(0) =~= all);
    }
    met
}

/// The rotations of a circuit in the order in which a run meets them.
pub fn traversal<P>(circuit: Vec<Vec<Rotation<P>>>) -> (met: Vec<Vec<Rotation<P>>>)
    ensures
        backwards(circuit@, met@),
{
    let ghost all = circuit@;
    let mut rest: Vec<Vec<Rotation<P>>> = circuit;
    let mut met: Vec<Vec<Rotation<P>>> = Vec::new();
    while rest.len() > 0
        invariant
            rest@.len() + met@.len() == all.len(),
            rest@ == all.take(rest@.len() as int),
            forall|l: int|
                0 <= l < met@.len() ==> (#[trigger] met@[l])@ == all[all.len() - 1 - l]@.reverse(),
        decreases rest@.len(),
    {
        let ghost n = rest@.len() as int;
        match rest.pop() {
            Some(layer) => {
                proof {
                    assert(all.take(n).drop_last() =~= all.take(n - 1));
                    assert(layer == all[n - 1]);
                }
                met.push(reversed_layer(layer));
            },
            None => {},
        }
    }
    met
}

/// Every rotation of a circuit is met exactly once, and of two the later one first.
pub proof fn law_traversal<P>(
    circuit: Seq<Vec<Rotation<P>>>,
    met: Seq<Vec<Rotation<P>>>,
    l: int,
    r: int,
)
    requires
        backwards(circuit, met),
        0 <= l < circuit.len(),
        0 <= r < circuit[l]@.len(),
    ensures
        ({
            let n = circuit.len();
            &&& met[n - 1 - l]@.len() == circuit[l]@.len()
            &&& met[n - 1 - l]@[circuit[l]@.len() - 1 - r] == circuit[l]@[r]
        }),
        forall|k: int|
            0 <= k < met.len() ==> (#[trigger] met[k])@.len() == circuit[circuit.len() - 1
                - k]@.len(),
{
    let k = circuit.len() - 1 - l;
    assert(met[k]@ == circuit[circuit.len() - 1 - k]@.reverse());
}

/// Whether the rotation after the one at `idx` is an inner step of a larger gate.
pub open spec fn inner_next<P>(met: Seq<Rotation<P>>, idx: int) -> bool {
    idx + 1 < met.len() && met[idx + 1].is_intermediate
}

/// Whether the rotation that a layer's run meets after the one at `idx` is an inner step of a
/// larger gate. Behind the last there is none.
pub fn next_is_intermediate<P>(met: &Vec<Rotation<P>>, idx: usize) -> (r: bool)
    requires
        idx < met@.len(),
    ensures
        r == inner_next(met@, idx as int),
{
    let _len: usize = met.len();
    idx + 1 < met.len() && met[idx + 1].is_intermediate
}

/// Something a run does to its sum.
#[derive(Clone, Copy, PartialEq, Eq, Debug, Structural)]
pub enum Task {
    /// Apply the noise that comes before a layer.
    Noise { layer: usize },
    /// Apply a rotation, and then merge the sum if that is due. Inside a larger gate it never
    /// is.
    Turn { layer: usize, idx: usize, inner_next: bool },
    /// Merge and cut the sum at the end.
    Finish,
}

/// What a run does for layer `l`: the noise, and then each rotation.
pub open spec fn layer_tasks<P>(met: Seq<Vec<Rotation<P>>>, l: int) -> Seq<Task> {
    seq![Task::Noise { layer: l as usize }] + Seq::new(
        met[l]@.len(),
        |k: int|
            Task::Turn {
                layer: l as usize,
                idx: k as usize,
                inner_next: inner_next(met[l]@, k),
            },
    )
}

/// What a run does for the first `n` layers, in order.
pub open spec fn tasks_to<P>(met: Seq<Vec<Rotation<P>>>, n: int) -> Seq<Task>
    decreases n,
{
    if n <= 0 {
        Seq::empty()
    } else {
        tasks_to(met, n - 1) + layer_tasks(met, n - 1)
    }
}

/// Everything a run over layers does, in order, given the layers in the order in which it meets
/// them.
pub fn agenda<P>(met: &Vec<Vec<Rotation<P>>>) -> (tasks: Vec<Task>)
    ensures
        tasks@ == tasks_to(met@, met@.len() as int).push(Task::Finish),
{
    let mut tasks: Vec<Task> = Vec::new();
    let mut layer: usize = 0;
    while layer < met.len()
        invariant
            layer <= met@.len(),
            tasks@ == tasks_to(met@, layer as int),
        decreases met@.len() - layer,
    {
        let ghost before = tasks@;
        tasks.push(Task::Noise { layer });
        let mut idx: usize = 0;
        while idx < met[layer].len()
            invariant
                layer < met@.len(),
                idx <= met@[layer as int]@.len(),
                before == tasks_to(met@, layer as int),
                tasks@ == before + layer_tasks(met@, layer as int).take(idx + 1),
            decreases met@[layer as int]@.len() - idx,
        {
            tasks.push(
                Task::Turn { layer, idx, inner_next: next_is_intermediate(&met[layer], idx) },
            );
            proof {
                let all = layer_tasks(met@, layer as int);
                assert(all[idx + 1] == tasks@.last());
                assert(tasks@ =~= before + all.take(idx + 2));
            }
            idx += 1;
        }
        proof {
            let all = layer_tasks(met@, layer as int);
            assert(all.take(all.len() as int) =~= all);
        }
        layer += 1;
    }
    tasks.push(Task::Finish);
    tasks
}

/// Where the tasks of layer `l` start.
pub open spec fn tasks_start<P>(met: Seq<Vec<Rotation<P>>>, l: int) -> int
    decreases l,
{
    if l <= 0 {
        0
    } else {
        tasks_start(met, l - 1) + 1 + met[l - 1]@.len()
    }
}

/// A run applies the noise of every layer and each of its rotations exactly once: at the place
/// that the layers before it leave, noise first, and then the rotations in order. There is no
/// place for anything else but the end.
pub proof fn law_agenda<P>(met: Seq<Vec<Rotation<P>>>, n: int, l: int)
    requires
        0 <= l < n <= met.len(),
    ensures
        tasks_to(met, n).len() == tasks_start(met, n),
        0 <= tasks_start(met, l),
        tasks_start(met, l + 1) <= tasks_start(met, n),
        tasks_to(met, n)[tasks_start(met, l)] == (Task::Noise { layer: l as usize }),
        forall|k: int|
            0 <= k < met[l]@.len() ==> #[trigger] tasks_to(met, n)[tasks_start(met, l) + 1 + k] == (
            Task::Turn {
                layer: l as usize,
                idx: k as usize,
                inner_next: inner_next(met[l]@, k),
            }),
    decreases n,
{
    let start = tasks_start(met, l);
    lemma_tasks_len(met, n - 1);
    lemma_tasks_len(met, l);
    if l < n - 1 {
        law_agenda(met, n - 1, l);
        assert forall|k: int| 0 <= k < met[l]@.len() implies #[trigger] tasks_to(met, n)[start + 1
            + k] == (Task::Turn {
            layer: l as usize,
            idx: k as usize,
            inner_next: inner_next(met[l]@, k),
        }) by {
            assert(tasks_to(met, n)[start + 1 + k] == tasks_to(met, n - 1)[start + 1 + k]);
        }
    } else {
        assert forall|k: int| 0 <= k < met[l]@.len() implies #[trigger] tasks_to(met, n)[start + 1
            + k] == (Task::Turn {
            layer: l as usize,
            idx: k as usize,
            inner_next: inner_next(met[l]@, k),
        }) by {
            assert(tasks_to(met, n)[start + 1 + k] == layer_tasks(met, l)[1 + k]);
        }
    }
}

/// The tasks of the first layers take the places up to the next layer's.
proof fn lemma_tasks_len<P>(met: Seq<Vec<Rotation<P>>>, n: int)
    requires
        0 <= n <= met.len(),
    ensures
        tasks_to(met, n).len() == tasks_start(met, n),
        0 <= tasks_start(met, n),
    decreases n,
{
    if n > 0 {
        lemma_tasks_len(met, n - 1);
    }
}

/// When a sum is merged, and when it is merged and cut.
#[derive(Clone, Copy, PartialEq, Eq, Structural)]
pub struct FlushSchedule {
    /// Merge and cut once there are this many terms.
    pub max_terms: Option<usize>,
    /// Merge once this many terms were added since the last time.
    pub merge_max_terms: Option<usize>,
}

/// Why a sum was merged.
#[derive(Clone, Copy, PartialEq, Eq, Structural)]
pub enum Trigger {
    /// It reached the size to cut at.
    Threshold,
    /// Enough terms were added.
    Merge,
    /// A noise model was to see each key once.
    Noise,
    /// The run came to its end.
    Final,
}

impl Trigger {
    /// The trigger's name in the log.
    pub open spec fn name_of(self) -> Seq<char> {
        match self {
            Trigger::Threshold => "threshold"@,
            Trigger::Merge => "merge"@,
            Trigger::Noise => "noise"@,
            Trigger::Final => "final"@,
        }
    }

    /// The trigger's name in the log.
    pub fn name(self) -> (s: &'static str)
        ensures
            s@ == self.name_of(),
    {
        match self {
            Trigger::Threshold => "threshold",
            Trigger::Merge => "merge",
            Trigger::Noise => "noise",
            Trigger::Final => "final",
        }
    }
}

/// Whether a sum of `len` terms, `pending` of them added since it was last merged, is due for a
/// merge. Inside a larger gate it never is.
pub open spec fn flush_due(
    schedule: FlushSchedule,
    len: nat,
    pending: nat,
    next_is_intermediate: bool,
) -> Option<Trigger> {
    if next_is_intermediate {
        None
    } else if schedule.max_terms matches Some(m) && len >= m {
        Some(Trigger::Threshold)
    } else if schedule.merge_max_terms matches Some(m) && pending >= m {
        Some(Trigger::Merge)
    } else {
        None
    }
}

/// What an action does to a sum, and how many terms it adds.
pub open spec fn acted<B: SoaBasis, C: CoeffRepr>(
    action: GateAction<C::Real>,
    rotation: Rotation<C::GateParam>,
    before: SoaTermSum<C>,
    after: SoaTermSum<C>,
    added: nat,
) -> bool {
    match action {
        GateAction::Normal => kernels::rotated::<B, C>(
            kernels::turn_of::<B, C>(
                rotation.x@,
                rotation.z@,
                before.span(),
                before.units(),
                rotation.param,
                C::quarter_turn(rotation.param, C::tolerance_of()),
            ),
            before,
            after,
            sparse::key_of(rotation.x@, rotation.z@, before.span()),
            rotation.param,
            added,
        ),
        GateAction::Skip => after == before && added == 0,
        GateAction::Fused(op) => {
            &&& added == 0
            &&& after.row_lists().len() == before.row_lists().len()
            &&& forall|i: int|
                0 <= i < before.row_lists().len() ==> clifford_ops::conjugated(
                    op,
                    before.span(),
                    #[trigger] before.key(i),
                    before.coeff_seq()[i],
                    after.key(i),
                    after.coeff_seq()[i],
                )
        },
    }
}

/// What one step of a run did.
pub struct StepReport {
    /// Why the sum was merged, if it was.
    pub trigger: Option<Trigger>,
    /// Terms left by the merge, before cutting.
    pub before: usize,
    /// Terms left.
    pub after: usize,
}

/// Where a run stands between rotations.
pub struct SoaRun {
    /// Terms added since the sum was last merged.
    pub pending: usize,
    /// Terms there were when the sum was last merged.
    pub merged_len: usize,
    /// Rotations done.
    pub gate_idx: usize,
}

impl SoaRun {
    /// Starts a run on a sum of `len` terms.
    pub fn new(len: usize) -> (r: Self)
        ensures
            r.pending == 0,
            r.merged_len == len,
            r.gate_idx == 0,
    {
        SoaRun { pending: 0, merged_len: len, gate_idx: 0 }
    }

    /// Does what is planned for one rotation, and gives the number of terms it added.
    pub fn act<B: SoaBasis, C: CoeffRepr>(
        &mut self,
        terms: &mut SoaTermSum<C>,
        rotation: &Rotation<C::GateParam>,
        action: &GateAction<C::Real>,
    ) -> (added: usize)
        requires
            old(terms).wf(),
            old(terms).indexed::<B>(),
            64 * rotation.x@.len() == old(terms).span(),
            64 * rotation.z@.len() == old(terms).span(),
            *action matches GateAction::Fused(op) ==> op.wf() && 64 * op.word_of() + 64 <= old(terms).span(),
            old(self).pending + old(terms).row_lists().len() <= usize::MAX,
            old(self).gate_idx < usize::MAX,
        ensures
            final(terms).wf(),
            final(terms).indexed::<B>(),
            final(terms).same_setup(*old(terms)),
            acted::<B, C>(*action, *rotation, *old(terms), *final(terms), added as nat),
            final(self).pending == old(self).pending + added,
            final(self).merged_len == old(self).merged_len,
            final(self).gate_idx == old(self).gate_idx + 1,
    {
        let ghost start = *terms;
        let added: usize = match action {
            GateAction::Skip => 0,
            GateAction::Fused(op) => {
                clifford_ops::apply_clifford_op(terms, op);
                0
            },
            GateAction::Normal => {
                let inplace: bool = C::is_clifford_param(&rotation.param, C::tolerance());
                kernels::apply_rotation::<B, C>(
                    terms,
                    [rotation.x.as_slice(), rotation.z.as_slice()],
                    &rotation.param,
                    inplace,
                )
            },
        };
        proof {
            assert(acted::<B, C>(*action, *rotation, start, *terms, added as nat));
            lemma_added::<B, C>(*action, *rotation, start, *terms, added as nat);
        }
        self.pending = self.pending + added;
        self.gate_idx = self.gate_idx + 1;
        added
    }

    /// Why a sum of `len` terms is to be merged before the next rotation, if it is.
    pub fn due(&self, len: usize, next_is_intermediate: bool, schedule: FlushSchedule) -> (r: Option<
        Trigger,
    >)
        ensures
            r == flush_due(schedule, len as nat, self.pending as nat, next_is_intermediate),
    {
        if next_is_intermediate {
            return None;
        }
        let full: bool = match schedule.max_terms {
            Some(m) => len >= m,
            None => false,
        };
        let many: bool = match schedule.merge_max_terms {
            Some(m) => self.pending >= m,
            None => false,
        };
        if full {
            Some(Trigger::Threshold)
        } else if many {
            Some(Trigger::Merge)
        } else {
            None
        }
    }

    /// Merges the sum between two rotations, and cuts it by the configuration.
    pub fn merge<B: SoaBasis, C: CoeffRepr, K: TruncationKernel<C::Real>>(
        &mut self,
        terms: &mut SoaTermSum<C>,
        cfg: &ResolvedConfig<C::Real, K>,
        trigger: Trigger,
    ) -> (r: StepReport)
        requires
            old(terms).wf(),
            old(terms).indexed::<B>(),
        ensures
            final(terms).wf(),
            final(terms).indexed::<B>(),
            final(terms).same_setup(*old(terms)),
            kernels::cut_down::<B, C, K>(Some(*cfg), *old(terms), *final(terms)),
            r.trigger == Some(trigger),
            r.before == kernels::merged_rows(old(terms).row_lists()).len(),
            r.after == final(terms).row_lists().len(),
            final(self).pending == 0,
            final(self).merged_len == final(terms).row_lists().len(),
            final(self).gate_idx == old(self).gate_idx,
    {
        let r: StepReport = flush::<B, C, K>(terms, Some(cfg), trigger);
        self.pending = 0;
        self.merged_len = r.after;
        r
    }

    /// Does what is planned for one rotation, and merges and cuts the sum if that is due.
    pub fn step<B: SoaBasis, C: CoeffRepr, K: TruncationKernel<C::Real>>(
        &mut self,
        terms: &mut SoaTermSum<C>,
        rotation: &Rotation<C::GateParam>,
        action: &GateAction<C::Real>,
        next_is_intermediate: bool,
        cfg: &ResolvedConfig<C::Real, K>,
        schedule: FlushSchedule,
    ) -> (r: StepReport)
        requires
            old(terms).wf(),
            old(terms).indexed::<B>(),
            64 * rotation.x@.len() == old(terms).span(),
            64 * rotation.z@.len() == old(terms).span(),
            *action matches GateAction::Fused(op) ==> op.wf() && 64 * op.word_of() + 64 <= old(terms).span(),
            old(self).pending + old(terms).row_lists().len() <= usize::MAX,
            old(self).gate_idx < usize::MAX,
        ensures
            final(terms).wf(),
            final(terms).indexed::<B>(),
            final(terms).same_setup(*old(terms)),
            final(self).gate_idx == old(self).gate_idx + 1,
            r.after == final(terms).row_lists().len(),
            exists|mid: SoaTermSum<C>, added: nat|
                {
                    &&& #[trigger] acted::<B, C>(*action, *rotation, *old(terms), mid, added)
                    &&& r.trigger == flush_due(
                        schedule,
                        mid.row_lists().len(),
                        old(self).pending as nat + added,
                        next_is_intermediate,
                    )
                    &&& match r.trigger {
                        Some(_) => {
                            &&& kernels::cut_down::<B, C, K>(Some(*cfg), mid, *final(terms))
                            &&& r.before == kernels::merged_rows(mid.row_lists()).len()
                            &&& final(self).pending == 0
                            &&& final(self).merged_len == final(terms).row_lists().len()
                        },
                        None => {
                            &&& *final(terms) == mid
                            &&& r.before == mid.row_lists().len()
                            &&& final(self).pending == old(self).pending + added
                            &&& final(self).merged_len == old(self).merged_len
                        },
                    }
                },
    {
        let _added: usize = self.act::<B, C>(terms, rotation, action);
        let len: usize = terms.len();
        match self.due(len, next_is_intermediate, schedule) {
            Some(trigger) => self.merge::<B, C, K>(terms, cfg, trigger),
            None => StepReport { trigger: None, before: len, after: len },
        }
    }

    /// Terms that a sum of `len` has beyond those there were when it was last merged here, as
    /// the log counts them: none where it has fewer since.
    pub fn outbox(&self, len: usize) -> (n: usize)
        ensures
            n == (if self.merged_len <= len {
                len - self.merged_len
            } else {
                0
            }),
    {
        if self.merged_len <= len {
            len - self.merged_len
        } else {
            0
        }
    }
}

/// An action adds no more terms than there were.
proof fn lemma_added<B: SoaBasis, C: CoeffRepr>(
    action: GateAction<C::Real>,
    rotation: Rotation<C::GateParam>,
    before: SoaTermSum<C>,
    after: SoaTermSum<C>,
    added: nat,
)
    requires
        acted::<B, C>(action, rotation, before, after, added),
    ensures
        added <= before.row_lists().len(),
{
    let g = sparse::key_of(rotation.x@, rotation.z@, before.span());
    let flags = kernels::anti_flags::<B, C>(before, g);
    bits::lemma_ones_bound(Seq::new(flags.len(), |x: int| flags[x] != 0));
}

/// Merges the sum and cuts it by the configuration, as a run does at its end.
pub fn flush<B: SoaBasis, C: CoeffRepr, K: TruncationKernel<C::Real>>(
    terms: &mut SoaTermSum<C>,
    cfg: Option<&ResolvedConfig<C::Real, K>>,
    trigger: Trigger,
) -> (r: StepReport)
    requires
        old(terms).wf(),
        old(terms).indexed::<B>(),
    ensures
        final(terms).wf(),
        final(terms).indexed::<B>(),
        final(terms).same_setup(*old(terms)),
        r.trigger == Some(trigger),
        r.before == kernels::merged_rows(old(terms).row_lists()).len(),
        r.after == final(terms).row_lists().len(),
        kernels::cut_down::<B, C, K>(
            match cfg {
                Some(c) => Some(*c),
                None => None,
            },
            *old(terms),
            *final(terms),
        ),
{
    let (before, after) = kernels::merge_and_truncate::<B, C, K>(terms, cfg);
    StepReport { trigger: Some(trigger), before, after }
}

/// A sum is never merged inside a larger gate. Outside it is merged exactly where a bound is
/// reached: the bound on all terms first, then the one on terms added since the last merge.
pub proof fn law_merges_are_due(
    schedule: FlushSchedule,
    len: nat,
    pending: nat,
    next_is_intermediate: bool,
)
    ensures
        next_is_intermediate ==> flush_due(schedule, len, pending, next_is_intermediate) is None,
        !next_is_intermediate ==> {
            let full = schedule.max_terms is Some && len >= schedule.max_terms->0;
            let stale = schedule.merge_max_terms is Some && pending >= schedule.merge_max_terms->0;
            let due = flush_due(schedule, len, pending, next_is_intermediate);
            &&& due is Some <==> full || stale
            &&& due == Some(Trigger::Threshold) <==> full
            &&& due == Some(Trigger::Merge) <==> !full && stale
        },
{
}

/// A rotation is followed by an inner step of a larger gate exactly where there is a next one in
/// its layer and that one says so; the last of a layer never is.
pub proof fn law_inner_steps<P>(met: Seq<Rotation<P>>, idx: int)
    requires
        0 <= idx < met.len(),
    ensures
        idx == met.len() - 1 ==> !inner_next(met, idx),
        idx < met.len() - 1 ==> inner_next(met, idx) == met[idx + 1].is_intermediate,
{
}

} // verus!
