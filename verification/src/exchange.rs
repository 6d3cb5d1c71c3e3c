//! The exchange of branches between the partitions of a sum.
//!
//! Branches wait in boxes, one for each source and destination. A destination folds in its
//! column of boxes, source by source.

use crate::basis::Basis;
use crate::bits;
use crate::coeff::CoeffRepr;
use crate::emit;
use crate::emit::{EmitCutoff, Fate, Gate};
use crate::gate;
use crate::gate::Message;
use crate::operator_index;
use crate::operator_index::{Pos, TermIndexCeilingReached};
use crate::sums;
use crate::term_kernel::TruncationKernel;
use crate::termsum;
use crate::termsum::{Routed, TermSum};
use crate::timing;
use crate::timing::PhaseTimes;
use vstd::prelude::*;

verus! {

/// The messages source `src` has for destination `dst`.
pub open spec fn letters<C, const W: usize>(
    boxes: Seq<Vec<Vec<Routed<C, W>>>>,
    src: int,
    dst: int,
) -> Seq<Message<C>> {
    termsum::posted(boxes[src]@[dst]@)
}

/// The messages the first `n` sources have for destination `dst`, source by source.
pub open spec fn column<C, const W: usize>(
    boxes: Seq<Vec<Vec<Routed<C, W>>>>,
    dst: int,
    n: int,
) -> Seq<Message<C>>
    decreases n,
{
    if n <= 0 {
        Seq::empty()
    } else {
        column(boxes, dst, n - 1) + letters(boxes, n - 1, dst)
    }
}

/// There is a box for each of `n` sources and `s` destinations, and every message carries its
/// key's hash.
pub open spec fn squared<C, const W: usize>(
    boxes: Seq<Vec<Vec<Routed<C, W>>>>,
    n: int,
    s: int,
) -> bool {
    &&& boxes.len() == n
    &&& forall|src: int| 0 <= src < n ==> (#[trigger] boxes[src])@.len() == s
    &&& forall|src: int, dst: int|
        0 <= src < n && 0 <= dst < s ==> termsum::stamped((#[trigger] boxes[src]@[dst])@)
}

/// Each message in a column is one of some source's.
proof fn lemma_column_at<C, const W: usize>(
    boxes: Seq<Vec<Vec<Routed<C, W>>>>,
    dst: int,
    n: int,
    j: int,
)
    requires
        0 <= j < column(boxes, dst, n).len(),
    ensures
        exists|src: int, i: int|
            0 <= src < n && 0 <= i < letters(boxes, src, dst).len() && column(boxes, dst, n)[j]
                == #[trigger] letters(boxes, src, dst)[i],
    decreases n,
{
    if n > 0 {
        let head = column(boxes, dst, n - 1);
        if j < head.len() {
            lemma_column_at(boxes, dst, n - 1, j);
            let (src, i) = choose|src: int, i: int|
                0 <= src < n - 1 && 0 <= i < letters(boxes, src, dst).len() && head[j]
                    == #[trigger] letters(boxes, src, dst)[i];
            assert(column(boxes, dst, n)[j] == letters(boxes, src, dst)[i]);
        } else {
            assert(column(boxes, dst, n)[j] == letters(boxes, n - 1, dst)[j - head.len()]);
        }
    }
}

/// A column's length is the sum of its boxes' lengths.
pub proof fn lemma_column_len<C, const W: usize>(
    boxes: Seq<Vec<Vec<Routed<C, W>>>>,
    dst: int,
    n: int,
)
    ensures
        column(boxes, dst, n).len() == sums::sum_to(
            |src: int| letters(boxes, src, dst).len(),
            n,
        ),
    decreases n,
{
    if n > 0 {
        lemma_column_len(boxes, dst, n - 1);
    }
}

/// A column brings a key what the one source that writes to it does.
pub proof fn lemma_column_brought<C, const W: usize>(
    boxes: Seq<Vec<Vec<Routed<C, W>>>>,
    dst: int,
    n: int,
    k: Seq<bool>,
    q: int,
)
    requires
        forall|src: int|
            0 <= src < n && src != q ==> gate::brought(#[trigger] letters(boxes, src, dst), k)
                is None,
    ensures
        gate::brought(column(boxes, dst, n), k) == (if 0 <= q < n {
            gate::brought(letters(boxes, q, dst), k)
        } else {
            None
        }),
    decreases n,
{
    if n > 0 {
        lemma_column_brought(boxes, dst, n - 1, k, q);
        gate::lemma_brought_add(column(boxes, dst, n - 1), letters(boxes, n - 1, dst), k);
    }
}

/// A column is separate if its boxes are, and no two sources write to one key.
pub proof fn lemma_column_separate<C, const W: usize>(
    boxes: Seq<Vec<Vec<Routed<C, W>>>>,
    dst: int,
    n: int,
    w: int,
)
    requires
        forall|src: int|
            0 <= src < n ==> gate::separate(#[trigger] letters(boxes, src, dst), w),
        forall|a: int, b: int, k: Seq<bool>|
            0 <= a < b < n ==> (#[trigger] gate::brought(letters(boxes, a, dst), k)) is None
                || (#[trigger] gate::brought(letters(boxes, b, dst), k)) is None,
    ensures
        gate::separate(column(boxes, dst, n), w),
    decreases n,
{
    if n > 0 {
        lemma_column_separate(boxes, dst, n - 1, w);
        let head = column(boxes, dst, n - 1);
        let tail = letters(boxes, n - 1, dst);
        let all = column(boxes, dst, n);
        assert(gate::separate(letters(boxes, n - 1, dst), w));
        assert forall|i: int| 0 <= i < all.len() implies (#[trigger] all[i]).0.len() == w by {
            if i < head.len() {
                assert(all[i] == head[i]);
            } else {
                assert(all[i] == tail[i - head.len()]);
            }
        }
        assert forall|i: int, j: int| 0 <= i < j < all.len() implies (#[trigger] all[i]).0 != (
        #[trigger] all[j]).0 by {
            if j < head.len() {
                assert(all[i] == head[i] && all[j] == head[j]);
            } else if i >= head.len() {
                assert(all[i] == tail[i - head.len()] && all[j] == tail[j - head.len()]);
            } else {
                lemma_column_at(boxes, dst, n - 1, i);
                let (src, x) = choose|src: int, x: int|
                    0 <= src < n - 1 && 0 <= x < letters(boxes, src, dst).len() && head[i]
                        == #[trigger] letters(boxes, src, dst)[x];
                let k = letters(boxes, src, dst)[x].0;
                gate::lemma_brought(letters(boxes, src, dst), k);
                assert(letters(boxes, src, dst)[x].0 == k);
                gate::lemma_brought(tail, k);
                assert(gate::brought(letters(boxes, src, dst), k) is Some);
                assert(gate::brought(letters(boxes, n - 1, dst), k) is None);
                assert(all[j] == tail[j - head.len()]);
            }
        }
    } else {
        assert(column(boxes, dst, n) =~= Seq::<Message<C>>::empty());
    }
}

/// The head of a separate list is separate, and creates no more rows than the list.
proof fn lemma_head<C>(keys: Seq<Seq<bool>>, a: Seq<Message<C>>, b: Seq<Message<C>>, w: int)
    requires
        gate::separate(a + b, w),
    ensures
        gate::separate(a, w),
        gate::fresh(keys, a, a.len() as int) <= gate::fresh(keys, a + b, (a + b).len() as int),
        gate::fresh(keys, a, a.len() as int) <= a.len(),
{
    let l = a + b;
    assert forall|i: int| 0 <= i < a.len() implies (#[trigger] a[i]).0.len() == w by {
        assert(l[i] == a[i]);
    }
    assert forall|i: int, j: int| 0 <= i < j < a.len() implies (#[trigger] a[i]).0 != (
    #[trigger] a[j]).0 by {
        assert(l[i] == a[i] && l[j] == a[j]);
    }
    let fa = Seq::new(a.len(), |j: int| !keys.contains(a[j].0));
    let fl = Seq::new(l.len(), |j: int| !keys.contains(l[j].0));
    let fb = Seq::new(b.len(), |j: int| !keys.contains(b[j].0));
    assert(fl =~= fa + fb) by {
        assert forall|j: int| 0 <= j < l.len() implies fl[j] == (fa + fb)[j] by {}
    }
    bits::lemma_ones_add(fa, fb);
    bits::lemma_ones_bound(fa);
}

/// A column's head is a prefix of the column.
proof fn lemma_column_split<C, const W: usize>(
    boxes: Seq<Vec<Vec<Routed<C, W>>>>,
    dst: int,
    m: int,
    n: int,
) -> (rest: Seq<Message<C>>)
    requires
        0 <= m <= n,
    ensures
        column(boxes, dst, n) == column(boxes, dst, m) + rest,
    decreases n,
{
    if m == n {
        assert(column(boxes, dst, n) =~= column(boxes, dst, m) + Seq::<Message<C>>::empty());
        Seq::empty()
    } else {
        let rest = lemma_column_split(boxes, dst, m, n - 1);
        let more = rest + letters(boxes, n - 1, dst);
        assert(column(boxes, dst, n) =~= column(boxes, dst, m) + more);
        more
    }
}

/// Every term of `after` was there before or has been brought.
pub open spec fn grown<C: CoeffRepr>(
    before: Map<Seq<bool>, C>,
    msgs: Seq<Message<C>>,
    after: Map<Seq<bool>, C>,
) -> bool {
    forall|k: Seq<bool>| #[trigger]
        after.contains_key(k) ==> before.contains_key(k) || gate::brought(msgs, k) is Some
}

/// `after` is `before` with the first of the messages folded in, up to some one of them.
pub open spec fn partly_absorbed<C: CoeffRepr, P: Pos, const W: usize>(
    before: TermSum<C, P, W>,
    msgs: Seq<Message<C>>,
    after: TermSum<C, P, W>,
) -> bool {
    exists|t: int| 0 <= t <= msgs.len() && #[trigger] before.absorbed(after, msgs, t)
}

/// A sum that has folded in messages has grown by them.
pub proof fn lemma_absorbed_grown<C: CoeffRepr, P: Pos, const W: usize>(
    before: TermSum<C, P, W>,
    after: TermSum<C, P, W>,
    msgs: Seq<Message<C>>,
    t: int,
)
    requires
        before.absorbed(after, msgs, t),
        0 <= t <= msgs.len(),
    ensures
        grown(before.terms(), msgs, after.terms()),
{
    assert forall|k: Seq<bool>| #[trigger] after.terms().contains_key(k) implies before.terms().contains_key(
        k,
    ) || gate::brought(msgs, k) is Some by {
        assert(gate::get(after.terms(), k) == gate::merged(
            gate::get(before.terms(), k),
            gate::brought(msgs.take(t), k),
        ));
        gate::lemma_brought_add(msgs.take(t), msgs.skip(t), k);
        assert(msgs.take(t) + msgs.skip(t) =~= msgs);
    }
}

/// Folds one destination's column of boxes into its partition. Returns how many rows are new.
///
/// When the store cannot number a new row, some of the branches have been folded in.
pub fn absorb_column<C: CoeffRepr, P: Pos, const W: usize>(
    partition: &mut TermSum<C, P, W>,
    boxes: &Vec<Vec<Vec<Routed<C, W>>>>,
    dst: usize,
) -> (r: Result<usize, TermIndexCeilingReached>)
    requires
        old(partition).wf(),
        exists|s: int| #[trigger] squared(boxes@, boxes@.len() as int, s) && dst < s,
        gate::separate(column(boxes@, dst as int, boxes@.len() as int), 64 * W as int),
        operator_index::addressable(
            old(partition).keys().len() + column(boxes@, dst as int, boxes@.len() as int).len()
                as int,
        ),
    ensures
        final(partition).wf(),
        final(partition).units() == old(partition).units(),
        final(partition).row_width() == old(partition).row_width(),
        final(partition).lacks_phase() == old(partition).lacks_phase(),
        ({
            let msgs = column(boxes@, dst as int, boxes@.len() as int);
            let fresh = gate::fresh(old(partition).keys(), msgs, msgs.len() as int);
            &&& r is Err <==> old(partition).keys().len() + fresh >= u32::MAX
            &&& r matches Ok(added) ==> added == fresh && old(partition).absorbed(
                *final(partition),
                msgs,
                msgs.len() as int,
            )
            &&& grown(old(partition).terms(), msgs, final(partition).terms())
            &&& partly_absorbed(*old(partition), msgs, *final(partition))
        }),
{
    let ghost n = boxes@.len() as int;
    let ghost d = dst as int;
    let ghost s = choose|s: int| #[trigger] squared(boxes@, n, s) && dst < s;
    let ghost w = 64 * W as int;
    let ghost start = *partition;
    let mut added: usize = 0;
    let mut src: usize = 0;
    proof {
        start.lemma_absorbed_none(column(boxes@, d, 0));
    }
    while src < boxes.len()
        invariant
            n == boxes@.len(),
            d == dst,
            w == 64 * W,
            squared(boxes@, n, s),
            dst < s,
            start.wf(),
            partition.wf(),
            start == *old(partition),
            gate::separate(column(boxes@, d, n), w),
            operator_index::addressable(start.keys().len() + column(boxes@, d, n).len() as int),
            src <= n,
            start.absorbed(*partition, column(boxes@, d, src as int), column(boxes@, d, src as int).len() as int),
            added == gate::fresh(
                start.keys(),
                column(boxes@, d, src as int),
                column(boxes@, d, src as int).len() as int,
            ),
            partition.units() == start.units(),
            partition.row_width() == start.row_width(),
            partition.lacks_phase() == start.lacks_phase(),
        decreases n - src,
    {
        let ghost mid = *partition;
        let ghost head = column(boxes@, d, src as int);
        let ghost tail = letters(boxes@, src as int, d);
        let ghost both = column(boxes@, d, src + 1);
        proof {
            assert(both == head + tail);
            let rest = lemma_column_split(boxes@, d, src + 1, n);
            lemma_head(start.keys(), both, rest, w);
            lemma_head(start.keys(), head, tail, w);
            let whole = column(boxes@, d, n);
            assert(whole == both + rest);
            assert forall|i: int| 0 <= i < tail.len() implies #[trigger] tail[i] == both[head.len() + i] by {}
            assert(gate::separate(tail, w));
            assert(boxes@[src as int]@.len() == s);
            assert(termsum::stamped(boxes@[src as int]@[d]@));
        }
        match partition.absorb_batch(&boxes[src][dst]) {
            Ok(new) => {
                proof {
                    start.lemma_absorbed_both(mid, *partition, head, tail);
                    let rest = lemma_column_split(boxes@, d, src + 1, n);
                    lemma_head(start.keys(), both, rest, w);
                }
                added += new;
            },
            Err(e) => {
                proof {
                    start.lemma_fresh_both(mid, head, tail);
                    let t = choose|t: int| 0 <= t < tail.len() && #[trigger] mid.absorbed(*partition, tail, t);
                    lemma_absorbed_grown(mid, *partition, tail, t);
                    lemma_absorbed_grown(start, mid, head, head.len() as int);
                    let rest = lemma_column_split(boxes@, d, src + 1, n);
                    let whole = column(boxes@, d, n);
                    let short = tail.take(t);
                    assert(short.take(t) =~= tail.take(t));
                    mid.lemma_absorbed_prefix(*partition, tail, short, t);
                    assert(gate::separate(head + short, w)) by {
                        assert forall|i: int| 0 <= i < (head + short).len() implies #[trigger] (head
                            + short)[i] == whole[i] by {}
                    }
                    start.lemma_absorbed_both(mid, *partition, head, short);
                    assert((head + short).take((head + short).len() as int) =~= whole.take(
                        (head + short).len() as int,
                    ));
                    start.lemma_absorbed_prefix(
                        *partition,
                        head + short,
                        whole,
                        (head + short).len() as int,
                    );
                    assert forall|k: Seq<bool>| #[trigger] partition.terms().contains_key(k) implies start.terms().contains_key(k)
                        || gate::brought(column(boxes@, d, n), k) is Some by {
                        gate::lemma_brought_add(head, tail, k);
                        gate::lemma_brought_add(both, rest, k);
                    }
                }
                return Err(e);
            },
        }
        src += 1;
    }
    proof {
        partition.lemma_wf();
        lemma_absorbed_grown(start, *partition, column(boxes@, d, n), column(boxes@, d, n).len() as int);
    }
    Ok(added)
}

/// Rows held by all partitions together.
pub open spec fn rows_held<C: CoeffRepr, P: Pos, const W: usize>(
    parts: Seq<TermSum<C, P, W>>,
) -> nat {
    sums::sum_to(|p: int| parts[p].keys().len(), parts.len() as int)
}

/// Every partition is well formed and sized for `units` qubits or modes.
pub open spec fn tended<C: CoeffRepr, P: Pos, const W: usize>(
    parts: Seq<TermSum<C, P, W>>,
    units: nat,
) -> bool {
    forall|p: int| 0 <= p < parts.len() ==> (#[trigger] parts[p]).wf() && parts[p].units() == units
}

/// Every partition holds only keys it owns.
pub open spec fn owned<C: CoeffRepr, P: Pos, const W: usize>(parts: Seq<TermSum<C, P, W>>) -> bool {
    forall|p: int, k: Seq<bool>|
        0 <= p < parts.len() && #[trigger] parts[p].terms().contains_key(k) ==> gate::owner(
            k,
            parts.len(),
        ) == p
}

/// The terms of all partitions together.
pub open spec fn joined<C: CoeffRepr, P: Pos, const W: usize>(
    parts: Seq<TermSum<C, P, W>>,
) -> Map<Seq<bool>, C> {
    Map::new(
        |k: Seq<bool>| parts[gate::owner(k, parts.len())].terms().contains_key(k),
        |k: Seq<bool>| parts[gate::owner(k, parts.len())].terms()[k],
    )
}

/// `after` is `before` once the rotation has rotated its sources.
pub open spec fn swept<
    A: Basis<W>,
    C: CoeffRepr,
    P: Pos,
    K: TruncationKernel<C::Real>,
    const W: usize,
>(g: Gate<A, C, K, W>, before: TermSum<C, P, W>, after: TermSum<C, P, W>) -> bool {
    &&& after.keys() == before.keys()
    &&& after.claims() == Seq::<int>::empty()
    &&& after.lacks_phase() == (g.precheck() is Some)
    &&& after.row_width() == before.row_width()
    &&& after.coeffs() == Seq::new(
        before.keys().len(),
        |i: int| g.remains(before.keys()[i], before.coeffs()[i]),
    )
    &&& after.held() == Seq::new(
        before.keys().len(),
        |i: int| TermSum::<C, P, W>::held_by(g.fate(before.keys()[i], before.coeffs()[i])),
    )
    &&& after.scans() == termsum::scanned_counts(
        g,
        before.keys(),
        before.coeffs(),
        before.scans(),
    )
    &&& after.exchanges() == (
        termsum::counted(
            before.exchanges().0,
            termsum::emitting(g, before.keys(), before.coeffs()),
        ),
        before.exchanges().1,
    )
}

/// An empty box for each of `s` destinations.
fn empty_boxes<C, const W: usize>(s: usize) -> (b: Vec<Vec<Routed<C, W>>>)
    ensures
        b@.len() == s,
        forall|p: int| 0 <= p < s ==> (#[trigger] b@[p])@.len() == 0,
{
    let mut b: Vec<Vec<Routed<C, W>>> = Vec::new();
    while b.len() < s
        invariant
            b@.len() <= s,
            forall|p: int| 0 <= p < b@.len() ==> (#[trigger] b@[p])@.len() == 0,
        decreases s - b@.len(),
    {
        b.push(Vec::new());
    }
    b
}

/// Rotates every partition's sources and collects their sine branches, one box for each
/// source and destination.
pub fn scan_all<
    A: Basis<W>,
    C: CoeffRepr,
    P: Pos,
    K: TruncationKernel<C::Real>,
    const W: usize,
>(
    parts: &mut Vec<TermSum<C, P, W>>,
    ctx: &A::GenContext,
    param: &C::GateParam,
    cutoff: &EmitCutoff<C::Real, K>,
    n_units: usize,
) -> (boxes: Vec<Vec<Vec<Routed<C, W>>>>)
    requires
        0 < old(parts)@.len(),
        tended(old(parts)@, n_units as nat),
        forall|p: int|
            0 <= p < old(parts)@.len() ==> operator_index::addressable(
                (#[trigger] old(parts)@[p]).keys().len() as int,
            ),
    ensures
        final(parts)@.len() == old(parts)@.len(),
        tended(final(parts)@, n_units as nat),
        squared(boxes@, old(parts)@.len() as int, old(parts)@.len() as int),
        ({
            let g = emit::gate_for::<A, C, K, W>(
                A::generator_of(*ctx),
                A::negated(*ctx),
                *param,
                *cutoff,
                n_units as nat,
            );
            &&& forall|p: int|
                0 <= p < old(parts)@.len() ==> swept(
                    g,
                    old(parts)@[p],
                    #[trigger] final(parts)@[p],
                )
            &&& forall|src: int, dst: int|
                0 <= src < old(parts)@.len() && 0 <= dst < old(parts)@.len()
                    ==> #[trigger] letters(boxes@, src, dst) == gate::sent(
                    g,
                    old(parts)@[src].keys(),
                    old(parts)@[src].coeffs(),
                    old(parts)@[src].keys().len() as int,
                    dst,
                    old(parts)@.len(),
                )
        }),
{
    let s: usize = parts.len();
    let ghost before = parts@;
    let ghost units = n_units as nat;
    let ghost g = emit::gate_for::<A, C, K, W>(
        A::generator_of(*ctx),
        A::negated(*ctx),
        *param,
        *cutoff,
        units,
    );
    let mut boxes: Vec<Vec<Vec<Routed<C, W>>>> = Vec::new();
    let mut p: usize = 0;
    while p < s
        invariant
            p <= s,
            0 < s,
            s == before.len(),
            parts@.len() == s,
            before == old(parts)@,
            units == n_units,
            tended(before, units),
            tended(parts@, units),
            g == emit::gate_for::<A, C, K, W>(
                A::generator_of(*ctx),
                A::negated(*ctx),
                *param,
                *cutoff,
                units,
            ),
            forall|q: int|
                0 <= q < s ==> operator_index::addressable(
                    (#[trigger] before[q]).keys().len() as int,
                ),
            forall|q: int| p <= q < s ==> #[trigger] parts@[q] == before[q],
            forall|q: int| 0 <= q < p ==> swept(g, before[q], #[trigger] parts@[q]),
            squared(boxes@, p as int, s as int),
            forall|src: int, dst: int|
                0 <= src < p && 0 <= dst < s ==> #[trigger] letters(boxes@, src, dst)
                    == gate::sent(
                    g,
                    before[src].keys(),
                    before[src].coeffs(),
                    before[src].keys().len() as int,
                    dst,
                    s as nat,
                ),
        decreases s - p,
    {
        let mut outbox: Vec<Vec<Routed<C, W>>> = empty_boxes(s);
        let ghost done = boxes@;
        let ghost held_parts = parts@;
        proof {
            assert(parts@[p as int] == before[p as int]);
            assert(operator_index::addressable(before[p as int].keys().len() as int));
            assert(parts@[p as int].wf());
            assert forall|d: int| 0 <= d < s implies termsum::posted((#[trigger] outbox@[d])@)
                == Seq::<Message<C>>::empty() by {
                assert(termsum::posted(outbox@[d]@) =~= Seq::<Message<C>>::empty());
            }
        }
        let ghost empty = outbox@;
        parts[p].scan_into::<A, K>(ctx, param, cutoff, s, &mut outbox);
        proof {
            assert(before[p as int].gate::<A, K>(*ctx, *param, *cutoff) == g);
            assert forall|d: int| 0 <= d < s implies termsum::posted((#[trigger] outbox@[d])@)
                == gate::sent(
                g,
                before[p as int].keys(),
                before[p as int].coeffs(),
                before[p as int].keys().len() as int,
                d,
                s as nat,
            ) by {
                assert(termsum::posted(empty[d]@) == Seq::<Message<C>>::empty());
                assert(Seq::<Message<C>>::empty() + gate::sent(
                    g,
                    before[p as int].keys(),
                    before[p as int].coeffs(),
                    before[p as int].keys().len() as int,
                    d,
                    s as nat,
                ) =~= gate::sent(
                    g,
                    before[p as int].keys(),
                    before[p as int].coeffs(),
                    before[p as int].keys().len() as int,
                    d,
                    s as nat,
                ));
            }
            assert(swept(g, before[p as int], parts@[p as int]));
            assert forall|q: int| 0 <= q < s && q != p implies #[trigger] parts@[q] == held_parts[q] by {}
        }
        boxes.push(outbox);
        proof {
            assert forall|src: int, dst: int| 0 <= src < p + 1 && 0 <= dst < s implies #[trigger] letters(
                boxes@,
                src,
                dst,
            ) == gate::sent(
                g,
                before[src].keys(),
                before[src].coeffs(),
                before[src].keys().len() as int,
                dst,
                s as nat,
            ) by {
                if src < p {
                    assert(boxes@[src] == done[src]);
                    assert(letters(done, src, dst) == letters(boxes@, src, dst));
                } else {
                    assert(boxes@[src] == outbox);
                }
            }
            assert(squared(boxes@, p + 1, s as int)) by {
                assert forall|src: int| 0 <= src < p + 1 implies (#[trigger] boxes@[src])@.len() == s by {
                    if src < p {
                        assert(boxes@[src] == done[src]);
                    }
                }
                assert forall|src: int, dst: int|
                    0 <= src < p + 1 && 0 <= dst < s implies termsum::stamped(
                    (#[trigger] boxes@[src]@[dst])@,
                ) by {
                    if src < p {
                        assert(boxes@[src] == done[src]);
                        assert(termsum::stamped(done[src]@[dst]@));
                    }
                }
            }
        }
        p += 1;
    }
    boxes
}

/// Has every partition release the branches its partners have paid for, one box for each
/// source and destination.
pub fn drain_all<A: Basis<W>, C: CoeffRepr, P: Pos, const W: usize>(
    parts: &mut Vec<TermSum<C, P, W>>,
    ctx: &A::GenContext,
    n_units: usize,
) -> (boxes: Vec<Vec<Vec<Routed<C, W>>>>)
    requires
        0 < old(parts)@.len(),
        tended(old(parts)@, n_units as nat),
    ensures
        final(parts)@.len() == old(parts)@.len(),
        tended(final(parts)@, n_units as nat),
        squared(boxes@, old(parts)@.len() as int, old(parts)@.len() as int),
        forall|p: int|
            0 <= p < old(parts)@.len() ==> {
                let after = #[trigger] final(parts)@[p];
                &&& after.keys() == old(parts)@[p].keys()
                &&& after.coeffs() == old(parts)@[p].coeffs()
                &&& after.held() == old(parts)@[p].held()
                &&& after.row_width() == old(parts)@[p].row_width()
                &&& after.claims() == Seq::<int>::empty()
                &&& after.exchanges() == (
                    termsum::counted(
                        old(parts)@[p].exchanges().0,
                        old(parts)@[p].claims().len(),
                    ),
                    old(parts)@[p].exchanges().1,
                )
                &&& after.scans() == old(parts)@[p].scans()
            },
        forall|src: int, dst: int|
            0 <= src < old(parts)@.len() && 0 <= dst < old(parts)@.len() ==> #[trigger] letters(
                boxes@,
                src,
                dst,
            ) == termsum::released::<A, C, W>(
                A::generator_of(*ctx),
                A::negated(*ctx),
                old(parts)@[src].lacks_phase(),
                old(parts)@[src].keys(),
                old(parts)@[src].held(),
                old(parts)@[src].claims(),
                old(parts)@[src].claims().len() as int,
                dst,
                old(parts)@.len(),
            ),
{
    let s: usize = parts.len();
    let ghost before = parts@;
    let ghost units = n_units as nat;
    let ghost out = |src: int, dst: int|
        termsum::released::<A, C, W>(
            A::generator_of(*ctx),
            A::negated(*ctx),
            before[src].lacks_phase(),
            before[src].keys(),
            before[src].held(),
            before[src].claims(),
            before[src].claims().len() as int,
            dst,
            s as nat,
        );
    let mut boxes: Vec<Vec<Vec<Routed<C, W>>>> = Vec::new();
    let mut p: usize = 0;
    while p < s
        invariant
            p <= s,
            0 < s,
            s == before.len(),
            parts@.len() == s,
            before == old(parts)@,
            units == n_units,
            tended(before, units),
            tended(parts@, units),
            out == |src: int, dst: int|
                termsum::released::<A, C, W>(
                    A::generator_of(*ctx),
                    A::negated(*ctx),
                    before[src].lacks_phase(),
                    before[src].keys(),
                    before[src].held(),
                    before[src].claims(),
                    before[src].claims().len() as int,
                    dst,
                    s as nat,
                ),
            forall|q: int| p <= q < s ==> #[trigger] parts@[q] == before[q],
            forall|q: int|
                0 <= q < p ==> {
                    let after = #[trigger] parts@[q];
                    &&& after.keys() == before[q].keys()
                    &&& after.coeffs() == before[q].coeffs()
                    &&& after.held() == before[q].held()
                    &&& after.row_width() == before[q].row_width()
                    &&& after.claims() == Seq::<int>::empty()
                    &&& after.exchanges() == (
                        termsum::counted(before[q].exchanges().0, before[q].claims().len()),
                        before[q].exchanges().1,
                    )
                    &&& after.scans() == before[q].scans()
                },
            squared(boxes@, p as int, s as int),
            forall|src: int, dst: int|
                0 <= src < p && 0 <= dst < s ==> #[trigger] letters(boxes@, src, dst) == out(
                    src,
                    dst,
                ),
        decreases s - p,
    {
        let mut outbox: Vec<Vec<Routed<C, W>>> = empty_boxes(s);
        let ghost done = boxes@;
        let ghost held_parts = parts@;
        proof {
            assert(parts@[p as int] == before[p as int]);
            assert(parts@[p as int].wf());
            assert forall|d: int| 0 <= d < s implies termsum::posted((#[trigger] outbox@[d])@)
                == Seq::<Message<C>>::empty() by {
                assert(termsum::posted(outbox@[d]@) =~= Seq::<Message<C>>::empty());
            }
        }
        let ghost empty = outbox@;
        parts[p].drain_claims::<A>(ctx, s, &mut outbox);
        proof {
            assert forall|d: int| 0 <= d < s implies termsum::posted((#[trigger] outbox@[d])@)
                == out(p as int, d) by {
                assert(termsum::posted(empty[d]@) == Seq::<Message<C>>::empty());
                assert(Seq::<Message<C>>::empty() + out(p as int, d) =~= out(p as int, d));
            }
            assert forall|q: int| 0 <= q < s && q != p implies #[trigger] parts@[q] == held_parts[q] by {}
        }
        boxes.push(outbox);
        proof {
            assert forall|src: int, dst: int| 0 <= src < p + 1 && 0 <= dst < s implies #[trigger] letters(
                boxes@,
                src,
                dst,
            ) == out(src, dst) by {
                if src < p {
                    assert(boxes@[src] == done[src]);
                    assert(letters(done, src, dst) == letters(boxes@, src, dst));
                } else {
                    assert(boxes@[src] == outbox);
                }
            }
            assert(squared(boxes@, p + 1, s as int)) by {
                assert forall|src: int| 0 <= src < p + 1 implies (#[trigger] boxes@[src])@.len() == s by {
                    if src < p {
                        assert(boxes@[src] == done[src]);
                    }
                }
                assert forall|src: int, dst: int|
                    0 <= src < p + 1 && 0 <= dst < s implies termsum::stamped(
                    (#[trigger] boxes@[src]@[dst])@,
                ) by {
                    if src < p {
                        assert(boxes@[src] == done[src]);
                        assert(termsum::stamped(done[src]@[dst]@));
                    }
                }
            }
        }
        p += 1;
    }
    boxes
}

/// How many rows the boxes create in partition `dst`.
pub open spec fn newcomers<C: CoeffRepr, P: Pos, const W: usize>(
    parts: Seq<TermSum<C, P, W>>,
    boxes: Seq<Vec<Vec<Routed<C, W>>>>,
    dst: int,
) -> nat {
    let msgs = column(boxes, dst, parts.len() as int);
    gate::fresh(parts[dst].keys(), msgs, msgs.len() as int)
}

/// How many rows the boxes create in all partitions together.
pub open spec fn newcomers_total<C: CoeffRepr, P: Pos, const W: usize>(
    parts: Seq<TermSum<C, P, W>>,
    boxes: Seq<Vec<Vec<Routed<C, W>>>>,
) -> nat {
    sums::sum_to(|dst: int| newcomers(parts, boxes, dst), parts.len() as int)
}

/// The store of some partition could not number all the rows its column brings.
pub open spec fn overfull<C: CoeffRepr, P: Pos, const W: usize>(
    parts: Seq<TermSum<C, P, W>>,
    boxes: Seq<Vec<Vec<Routed<C, W>>>>,
    dst: int,
) -> bool {
    parts[dst].keys().len() + newcomers(parts, boxes, dst) >= u32::MAX
}

/// Has every partition fold in its column of boxes. Returns how many rows are new.
pub fn absorb_all<C: CoeffRepr, P: Pos, const W: usize>(
    parts: &mut Vec<TermSum<C, P, W>>,
    boxes: &Vec<Vec<Vec<Routed<C, W>>>>,
    n_units: usize,
) -> (r: Result<usize, TermIndexCeilingReached>)
    requires
        tended(old(parts)@, n_units as nat),
        squared(boxes@, old(parts)@.len() as int, old(parts)@.len() as int),
        forall|dst: int|
            0 <= dst < old(parts)@.len() ==> gate::separate(
                #[trigger] column(boxes@, dst, old(parts)@.len() as int),
                64 * W as int,
            ) && operator_index::addressable(
                old(parts)@[dst].keys().len() + column(boxes@, dst, old(parts)@.len() as int).len()
                    as int,
            ),
        rows_held(old(parts)@) + newcomers_total(old(parts)@, boxes@) <= usize::MAX,
    ensures
        final(parts)@.len() == old(parts)@.len(),
        tended(final(parts)@, n_units as nat),
        forall|p: int|
            0 <= p < old(parts)@.len() ==> (#[trigger] final(parts)@[p]).row_width() == old(
                parts,
            )@[p].row_width() && final(parts)@[p].lacks_phase() == old(parts)@[p].lacks_phase()
                && grown(
                old(parts)@[p].terms(),
                column(boxes@, p, old(parts)@.len() as int),
                final(parts)@[p].terms(),
            ) && partly_absorbed(
                old(parts)@[p],
                column(boxes@, p, old(parts)@.len() as int),
                final(parts)@[p],
            ),
        r is Err <==> exists|dst: int|
            0 <= dst < old(parts)@.len() && #[trigger] overfull(old(parts)@, boxes@, dst),
        r matches Ok(added) ==> added == newcomers_total(old(parts)@, boxes@) && rows_held(
            final(parts)@,
        ) == rows_held(old(parts)@) + added && forall|p: int|
            0 <= p < old(parts)@.len() ==> old(parts)@[p].absorbed(
                #[trigger] final(parts)@[p],
                column(boxes@, p, old(parts)@.len() as int),
                column(boxes@, p, old(parts)@.len() as int).len() as int,
            ),
{
    let s: usize = parts.len();
    let ghost before = parts@;
    let ghost units = n_units as nat;
    let ghost len = |dst: int| newcomers(before, boxes@, dst);
    let ghost was = |p: int| before[p].keys().len();
    let mut added: usize = 0;
    let mut p: usize = 0;
    proof {
        assert(rows_held(before) == sums::sum_to(was, s as int));
        assert forall|q: int| 0 <= q < s implies grown(
            before[q].terms(),
            column(boxes@, q, s as int),
            (#[trigger] parts@[q]).terms(),
        ) && partly_absorbed(before[q], column(boxes@, q, s as int), parts@[q]) by {
            before[q].lemma_absorbed_none(column(boxes@, q, s as int));
        }
    }
    while p < s
        invariant
            p <= s,
            s == before.len(),
            parts@.len() == s,
            before == old(parts)@,
            units == n_units,
            tended(before, units),
            tended(parts@, units),
            squared(boxes@, s as int, s as int),
            len == |dst: int| newcomers(before, boxes@, dst),
            was == |p: int| before[p].keys().len(),
            forall|dst: int|
                0 <= dst < s ==> gate::separate(
                    #[trigger] column(boxes@, dst, s as int),
                    64 * W as int,
                ) && operator_index::addressable(
                    before[dst].keys().len() + column(boxes@, dst, s as int).len() as int,
                ),
            rows_held(before) == sums::sum_to(was, s as int),
            rows_held(before) + newcomers_total(before, boxes@) <= usize::MAX,
            forall|q: int| p <= q < s ==> #[trigger] parts@[q] == before[q],
            forall|q: int|
                0 <= q < s ==> (#[trigger] parts@[q]).row_width() == before[q].row_width()
                    && parts@[q].lacks_phase() == before[q].lacks_phase() && grown(
                    before[q].terms(),
                    column(boxes@, q, s as int),
                    parts@[q].terms(),
                ) && partly_absorbed(before[q], column(boxes@, q, s as int), parts@[q]),
            forall|q: int| 0 <= q < p ==> !#[trigger] overfull(before, boxes@, q),
            forall|q: int|
                0 <= q < p ==> before[q].absorbed(
                    #[trigger] parts@[q],
                    column(boxes@, q, s as int),
                    column(boxes@, q, s as int).len() as int,
                ),
            added == sums::sum_to(len, p as int),
            sums::sum_to(|q: int| parts@[q].keys().len(), p as int) == sums::sum_to(was, p as int)
                + added,
        decreases s - p,
    {
        let ghost held_parts = parts@;
        proof {
            assert(parts@[p as int] == before[p as int]);
            assert(parts@[p as int].wf());
            let msgs = column(boxes@, p as int, s as int);
            assert(gate::separate(msgs, 64 * W as int));
            assert(squared(boxes@, boxes@.len() as int, s as int));
        }
        match absorb_column(&mut parts[p], boxes, p) {
            Ok(new) => {
                proof {
                    assert(new == len(p as int));
                    sums::lemma_sum_grows(len, p + 1, s as int);
                    assert(newcomers_total(before, boxes@) == sums::sum_to(len, s as int));
                    assert forall|q: int| 0 <= q < s && q != p implies #[trigger] parts@[q]
                        == held_parts[q] by {}
                    sums::lemma_sum_same(
                        |q: int| parts@[q].keys().len(),
                        |q: int| held_parts[q].keys().len(),
                        p as int,
                    );
                    assert(!overfull(before, boxes@, p as int));
                }
                added += new;
            },
            Err(e) => {
                proof {
                    assert(overfull(before, boxes@, p as int));
                    assert forall|q: int| 0 <= q < s && q != p implies #[trigger] parts@[q]
                        == held_parts[q] by {}
                }
                return Err(e);
            },
        }
        p += 1;
    }
    Ok(added)
}

/// An owner is one of the partitions.
pub proof fn lemma_owner(k: Seq<bool>, s: nat)
    requires
        0 < s,
    ensures
        0 <= gate::owner(k, s) < s,
{
}

/// The owner of a key answers for all partitions.
pub proof fn lemma_joined<C: CoeffRepr, P: Pos, const W: usize>(
    parts: Seq<TermSum<C, P, W>>,
    k: Seq<bool>,
    p: int,
)
    requires
        owned(parts),
        0 <= p < parts.len(),
    ensures
        gate::get(joined(parts), k) == gate::get(
            parts[gate::owner(k, parts.len())].terms(),
            k,
        ),
        gate::owner(k, parts.len()) != p ==> gate::get(parts[p].terms(), k) is None,
{
}

/// The messages that arrive at partition `dst` from the first `n` partitions under a gate.
pub open spec fn arriving<
    A: Basis<W>,
    C: CoeffRepr,
    P: Pos,
    K: TruncationKernel<C::Real>,
    const W: usize,
>(g: Gate<A, C, K, W>, parts: Seq<TermSum<C, P, W>>, dst: int, n: int) -> Seq<Message<C>>
    decreases n,
{
    if n <= 0 {
        Seq::empty()
    } else {
        arriving(g, parts, dst, n - 1) + gate::sent(
            g,
            parts[n - 1].keys(),
            parts[n - 1].coeffs(),
            parts[n - 1].keys().len() as int,
            dst,
            parts.len(),
        )
    }
}

/// The boxes hold what the rotation sends.
pub open spec fn delivers<
    A: Basis<W>,
    C: CoeffRepr,
    P: Pos,
    K: TruncationKernel<C::Real>,
    const W: usize,
>(
    g: Gate<A, C, K, W>,
    parts: Seq<TermSum<C, P, W>>,
    boxes: Seq<Vec<Vec<Routed<C, W>>>>,
) -> bool {
    forall|src: int, dst: int|
        0 <= src < parts.len() && 0 <= dst < parts.len() ==> #[trigger] letters(boxes, src, dst)
            == gate::sent(
            g,
            parts[src].keys(),
            parts[src].coeffs(),
            parts[src].keys().len() as int,
            dst,
            parts.len(),
        )
}

proof fn lemma_arriving<
    A: Basis<W>,
    C: CoeffRepr,
    P: Pos,
    K: TruncationKernel<C::Real>,
    const W: usize,
>(
    g: Gate<A, C, K, W>,
    parts: Seq<TermSum<C, P, W>>,
    boxes: Seq<Vec<Vec<Routed<C, W>>>>,
    dst: int,
    n: int,
)
    requires
        delivers(g, parts, boxes),
        0 <= dst < parts.len(),
        n <= parts.len(),
    ensures
        column(boxes, dst, n) == arriving(g, parts, dst, n),
    decreases n,
{
    if n > 0 {
        lemma_arriving(g, parts, boxes, dst, n - 1);
        assert(letters(boxes, n - 1, dst) == letters(boxes, n - 1, dst));
    }
}

/// A row's branch goes to one partition only.
proof fn lemma_sent_spread<
    A: Basis<W>,
    C: CoeffRepr,
    K: TruncationKernel<C::Real>,
    const W: usize,
>(g: Gate<A, C, K, W>, keys: Seq<Seq<bool>>, coeffs: Seq<C>, n: int, s: nat)
    requires
        0 <= n,
    ensures
        sums::sum_to(|dst: int| gate::sent(g, keys, coeffs, n, dst, s).len(), s as int) <= n,
    decreases n,
{
    let now = |dst: int| gate::sent(g, keys, coeffs, n, dst, s).len();
    if n == 0 {
        sums::lemma_sum_zero(now, s as int);
    } else {
        lemma_sent_spread(g, keys, coeffs, n - 1, s);
        let before = |dst: int| gate::sent(g, keys, coeffs, n - 1, dst, s).len();
        let p = gate::owner(g.partner(keys[n - 1]), s);
        sums::lemma_sum_bump(before, now, s as int, p);
    }
}

/// What the first exchange brings: each key its partner's branch, through its owner's column.
proof fn lemma_first_round<
    A: Basis<W>,
    C: CoeffRepr,
    P: Pos,
    K: TruncationKernel<C::Real>,
    const W: usize,
>(
    g: Gate<A, C, K, W>,
    parts: Seq<TermSum<C, P, W>>,
    units: nat,
    boxes: Seq<Vec<Vec<Routed<C, W>>>>,
    dst: int,
)
    requires
        tended(parts, units),
        owned(parts),
        delivers(g, parts, boxes),
        g.gen.len() == 64 * W,
        0 <= dst < parts.len(),
    ensures
        gate::separate(column(boxes, dst, parts.len() as int), 64 * W as int),
        forall|k: Seq<bool>| #[trigger]
            gate::brought(column(boxes, dst, parts.len() as int), k) == (if gate::owner(
                k,
                parts.len(),
            ) == dst {
                gate::sent_by(g, joined(parts), k)
            } else {
                None
            }),
{
    let s = parts.len();
    let n = s as int;
    let w = 64 * W as int;
    assert forall|src: int, k: Seq<bool>| 0 <= src < n implies #[trigger] gate::brought(
        letters(boxes, src, dst),
        k,
    ) == (if gate::owner(k, s) == dst {
        gate::sent_by(g, parts[src].terms(), k)
    } else {
        None
    }) by {
        parts[src].lemma_wf();
        gate::lemma_sent_by(g, parts[src].keys(), parts[src].coeffs(), s, k, dst);
    }
    assert forall|src: int| 0 <= src < n implies gate::separate(
        #[trigger] letters(boxes, src, dst),
        w,
    ) by {
        parts[src].lemma_wf();
        gate::lemma_sent(
            g,
            parts[src].keys(),
            parts[src].coeffs(),
            parts[src].keys().len() as int,
            dst,
            s,
        );
    }
    assert forall|a: int, b: int, k: Seq<bool>| 0 <= a < b < n implies (#[trigger] gate::brought(
        letters(boxes, a, dst),
        k,
    )) is None || (#[trigger] gate::brought(letters(boxes, b, dst), k)) is None by {
        lemma_joined(parts, g.partner(k), a);
        lemma_joined(parts, g.partner(k), b);
    }
    lemma_column_separate(boxes, dst, n, w);
    assert forall|k: Seq<bool>| #[trigger] gate::brought(column(boxes, dst, n), k) == (
    if gate::owner(k, s) == dst {
        gate::sent_by(g, joined(parts), k)
    } else {
        None
    }) by {
        let far = g.partner(k);
        let q = gate::owner(far, s);
        lemma_owner(far, s);
        assert forall|src: int| 0 <= src < n && src != q implies gate::brought(
            #[trigger] letters(boxes, src, dst),
            k,
        ) is None by {
            lemma_joined(parts, far, src);
        }
        lemma_column_brought(boxes, dst, n, k, q);
        lemma_joined(parts, far, q);
    }
}

/// The rotation sends no more messages than there are rows.
proof fn lemma_mail<
    A: Basis<W>,
    C: CoeffRepr,
    P: Pos,
    K: TruncationKernel<C::Real>,
    const W: usize,
>(
    g: Gate<A, C, K, W>,
    parts: Seq<TermSum<C, P, W>>,
    boxes: Seq<Vec<Vec<Routed<C, W>>>>,
)
    requires
        delivers(g, parts, boxes),
    ensures
        sums::sum_to(
            |dst: int| column(boxes, dst, parts.len() as int).len(),
            parts.len() as int,
        ) <= rows_held(parts),
        newcomers_total(parts, boxes) <= rows_held(parts),
        forall|dst: int|
            0 <= dst < parts.len() ==> (#[trigger] column(boxes, dst, parts.len() as int)).len()
                <= rows_held(parts),
{
    let s = parts.len();
    let n = s as int;
    let f = |src: int, dst: int| letters(boxes, src, dst).len();
    let by_dst = |dst: int| column(boxes, dst, n).len();
    let by_col = |dst: int| sums::sum_to(|src: int| f(src, dst), n);
    let by_row = |src: int| sums::sum_to(|dst: int| f(src, dst), n);
    let held = |p: int| parts[p].keys().len();
    assert forall|dst: int| 0 <= dst < n implies #[trigger] by_dst(dst) == by_col(dst) by {
        lemma_column_len(boxes, dst, n);
        sums::lemma_sum_same(
            |src: int| letters(boxes, src, dst).len(),
            |src: int| f(src, dst),
            n,
        );
    }
    sums::lemma_sum_same(by_dst, by_col, n);
    sums::lemma_sum_swap(f, n, n);
    assert forall|src: int| 0 <= src < n implies #[trigger] by_row(src) <= held(src) by {
        let k = parts[src].keys();
        let c = parts[src].coeffs();
        lemma_sent_spread(g, k, c, k.len() as int, s);
        sums::lemma_sum_same(
            |dst: int| f(src, dst),
            |dst: int| gate::sent(g, k, c, k.len() as int, dst, s).len(),
            n,
        );
    }
    sums::lemma_sum_le(by_row, held, n);
    let fresh = |dst: int| newcomers(parts, boxes, dst);
    assert forall|dst: int| 0 <= dst < n implies #[trigger] fresh(dst) <= by_dst(dst) by {
        let msgs = column(boxes, dst, n);
        bits::lemma_ones_bound(
            Seq::new(msgs.len(), |j: int| !parts[dst].keys().contains(msgs[j].0)),
        );
    }
    sums::lemma_sum_le(fresh, by_dst, n);
    assert forall|dst: int| 0 <= dst < n implies (#[trigger] column(boxes, dst, n)).len()
        <= rows_held(parts) by {
        sums::lemma_sum_part(by_dst, n, dst);
        assert(by_dst(dst) == column(boxes, dst, n).len());
    }
}

/// `mid` is `before` after the rotation's sweep and the first exchange.
spec fn paid_up<
    A: Basis<W>,
    C: CoeffRepr,
    P: Pos,
    K: TruncationKernel<C::Real>,
    const W: usize,
>(
    g: Gate<A, C, K, W>,
    before: TermSum<C, P, W>,
    msgs: Seq<Message<C>>,
    mid: TermSum<C, P, W>,
) -> bool {
    let held = Seq::new(
        before.keys().len(),
        |i: int| TermSum::<C, P, W>::held_by(g.fate(before.keys()[i], before.coeffs()[i])),
    );
    &&& mid.wf()
    &&& mid.keys().len() >= before.keys().len()
    &&& mid.keys().take(before.keys().len() as int) == before.keys()
    &&& mid.held().take(before.keys().len() as int) == held
    &&& mid.lacks_phase() == (g.precheck() is Some)
    &&& mid.claims() == termsum::paid_rows(before.keys(), held, msgs, msgs.len() as int)
    &&& forall|k: Seq<bool>| #[trigger]
        gate::get(mid.terms(), k) == gate::merged(
            gate::get(before.terms().map_entries(|k: Seq<bool>, c: C| g.remains(k, c)), k),
            gate::brought(msgs, k),
        )
}

proof fn lemma_paid_up<
    A: Basis<W>,
    C: CoeffRepr,
    P: Pos,
    K: TruncationKernel<C::Real>,
    const W: usize,
>(
    g: Gate<A, C, K, W>,
    before: TermSum<C, P, W>,
    scanned: TermSum<C, P, W>,
    msgs: Seq<Message<C>>,
    mid: TermSum<C, P, W>,
)
    requires
        before.wf(),
        scanned.wf(),
        mid.wf(),
        swept(g, before, scanned),
        scanned.absorbed(mid, msgs, msgs.len() as int),
        mid.lacks_phase() == scanned.lacks_phase(),
    ensures
        paid_up(g, before, msgs, mid),
{
    before.lemma_wf();
    termsum::lemma_scanned(g, before.keys(), before.coeffs(), scanned.coeffs());
    assert(msgs.take(msgs.len() as int) =~= msgs);
    let rows = termsum::paid_rows(before.keys(), scanned.held(), msgs, msgs.len() as int);
    assert(scanned.claims() + rows =~= rows);
}

/// What the second exchange brings: each key its partner's held-back branch, if the key's own
/// has been sent.
proof fn lemma_second_round<
    A: Basis<W>,
    C: CoeffRepr,
    P: Pos,
    K: TruncationKernel<C::Real>,
    const W: usize,
>(
    g: Gate<A, C, K, W>,
    parts: Seq<TermSum<C, P, W>>,
    units: nat,
    boxes: Seq<Vec<Vec<Routed<C, W>>>>,
    mids: Seq<TermSum<C, P, W>>,
    rescues: Seq<Vec<Vec<Routed<C, W>>>>,
    dst: int,
)
    requires
        tended(parts, units),
        owned(parts),
        delivers(g, parts, boxes),
        g.gen.len() == 64 * W,
        0 <= dst < parts.len(),
        mids.len() == parts.len(),
        forall|p: int|
            0 <= p < parts.len() ==> paid_up(
                g,
                parts[p],
                column(boxes, p, parts.len() as int),
                #[trigger] mids[p],
            ),
        forall|src: int, d: int|
            0 <= src < parts.len() && 0 <= d < parts.len() ==> #[trigger] letters(rescues, src, d)
                == termsum::released::<A, C, W>(
                g.gen,
                g.negated,
                mids[src].lacks_phase(),
                mids[src].keys(),
                mids[src].held(),
                mids[src].claims(),
                mids[src].claims().len() as int,
                d,
                parts.len(),
            ),
    ensures
        gate::separate(column(rescues, dst, parts.len() as int), 64 * W as int),
        forall|k: Seq<bool>| #[trigger]
            gate::brought(column(rescues, dst, parts.len() as int), k) == (if gate::owner(
                k,
                parts.len(),
            ) == dst {
                gate::repaid_by(
                    g,
                    joined(parts),
                    k,
                    gate::sent_by(g, joined(parts), g.partner(k)) is Some,
                )
            } else {
                None
            }),
        column(rescues, dst, parts.len() as int).len() <= rows_held(parts),
        gate::fresh(
            mids[dst].keys(),
            column(rescues, dst, parts.len() as int),
            column(rescues, dst, parts.len() as int).len() as int,
        ) == 0,
{
    let s = parts.len();
    let n = s as int;
    let w = 64 * W as int;
    let m = joined(parts);
    assert forall|src: int, k: Seq<bool>| 0 <= src < n implies gate::separate(
        letters(rescues, src, dst),
        w,
    ) && #[trigger] gate::brought(letters(rescues, src, dst), k) == (if gate::owner(k, s) == dst {
        gate::repaid_by(
            g,
            parts[src].terms(),
            k,
            gate::brought(column(boxes, src, n), g.partner(k)) is Some,
        )
    } else {
        None
    }) by {
        lemma_first_round(g, parts, units, boxes, src);
        parts[src].lemma_wf();
        mids[src].lemma_wf();
        assert(paid_up(g, parts[src], column(boxes, src, n), mids[src]));
        let held = Seq::new(
            parts[src].keys().len(),
            |i: int|
                TermSum::<C, P, W>::held_by(g.fate(parts[src].keys()[i], parts[src].coeffs()[i])),
        );
        termsum::lemma_repaid_by(
            g,
            parts[src].keys(),
            parts[src].coeffs(),
            mids[src].keys(),
            held,
            mids[src].held(),
            column(boxes, src, n),
            s,
            k,
            dst,
        );
    }
    assert forall|src: int| 0 <= src < n implies gate::separate(
        #[trigger] letters(rescues, src, dst),
        w,
    ) by {
        assert(gate::brought(letters(rescues, src, dst), g.gen) == gate::brought(
            letters(rescues, src, dst),
            g.gen,
        ));
    }
    assert forall|a: int, b: int, k: Seq<bool>| 0 <= a < b < n implies (#[trigger] gate::brought(
        letters(rescues, a, dst),
        k,
    )) is None || (#[trigger] gate::brought(letters(rescues, b, dst), k)) is None by {
        lemma_joined(parts, g.partner(k), a);
        lemma_joined(parts, g.partner(k), b);
    }
    lemma_column_separate(rescues, dst, n, w);
    let all = column(rescues, dst, n);
    assert forall|k: Seq<bool>| #[trigger] gate::brought(all, k) == (if gate::owner(k, s) == dst {
        gate::repaid_by(g, m, k, gate::sent_by(g, m, g.partner(k)) is Some)
    } else {
        None
    }) by {
        let far = g.partner(k);
        let q = gate::owner(far, s);
        lemma_owner(far, s);
        assert forall|src: int| 0 <= src < n && src != q implies gate::brought(
            #[trigger] letters(rescues, src, dst),
            k,
        ) is None by {
            lemma_joined(parts, far, src);
        }
        lemma_column_brought(rescues, dst, n, k, q);
        lemma_joined(parts, far, q);
        lemma_first_round(g, parts, units, boxes, q);
        assert(gate::brought(column(boxes, q, n), far) == gate::sent_by(g, m, far));
    }
    // Its length.
    lemma_mail(g, parts, boxes);
    lemma_column_len(rescues, dst, n);
    let out = |src: int| letters(rescues, src, dst).len();
    let paid = |src: int| column(boxes, src, n).len();
    assert forall|src: int| 0 <= src < n implies #[trigger] out(src) <= paid(src) by {
        assert(paid_up(g, parts[src], column(boxes, src, n), mids[src]));
        let held = Seq::new(
            parts[src].keys().len(),
            |i: int|
                TermSum::<C, P, W>::held_by(g.fate(parts[src].keys()[i], parts[src].coeffs()[i])),
        );
        termsum::lemma_paid_len(
            parts[src].keys(),
            held,
            column(boxes, src, n),
            column(boxes, src, n).len() as int,
        );
        termsum::lemma_released_len::<A, C, W>(
            g.gen,
            g.negated,
            mids[src].lacks_phase(),
            mids[src].keys(),
            mids[src].held(),
            mids[src].claims(),
            mids[src].claims().len() as int,
            dst,
            s,
        );
        assert(letters(rescues, src, dst) == letters(rescues, src, dst));
    }
    sums::lemma_sum_le(out, paid, n);
    // A released branch lands on the row that paid for it.
    assert forall|j: int| 0 <= j < all.len() implies mids[dst].keys().contains(
        (#[trigger] all[j]).0,
    ) by {
        let k = all[j].0;
        gate::lemma_brought_at(all, w, j);
        assert(gate::brought(all, k) is Some);
        emit::lemma_xor_back(g.gen, k);
        assert(gate::get(m, k) is Some);
        lemma_joined(parts, k, dst);
        assert(parts[dst].terms().contains_key(k));
        let i = choose|i: int| 0 <= i < parts[dst].keys().len() && parts[dst].keys()[i] == k;
        assert(paid_up(g, parts[dst], column(boxes, dst, n), mids[dst]));
        assert(mids[dst].keys().take(parts[dst].keys().len() as int)[i] == mids[dst].keys()[i]);
    }
    termsum::lemma_none_fresh(mids[dst].keys(), all);
}

/// The held-back branches that return to partition `dst` from the first `n` partitions under a
/// gate: those their partners' messages have paid for.
pub open spec fn returning<
    A: Basis<W>,
    C: CoeffRepr,
    P: Pos,
    K: TruncationKernel<C::Real>,
    const W: usize,
>(g: Gate<A, C, K, W>, parts: Seq<TermSum<C, P, W>>, dst: int, n: int) -> Seq<Message<C>>
    decreases n,
{
    if n <= 0 {
        Seq::empty()
    } else {
        let part = parts[n - 1];
        let held = termsum::held_back(g, part.keys(), part.coeffs());
        let msgs = arriving(g, parts, n - 1, parts.len() as int);
        let claims = termsum::paid_rows(part.keys(), held, msgs, msgs.len() as int);
        returning(g, parts, dst, n - 1) + termsum::released::<A, C, W>(
            g.gen,
            g.negated,
            g.precheck() is Some,
            part.keys(),
            held,
            claims,
            claims.len() as int,
            dst,
            parts.len(),
        )
    }
}

/// Partition `p`'s counters after a gate: its rows have been scanned, its branches and the ones
/// paid for routed, and what arrived at keys that were there, or returned, has landed on a row.
pub open spec fn tallied<
    A: Basis<W>,
    C: CoeffRepr,
    P: Pos,
    K: TruncationKernel<C::Real>,
    const W: usize,
>(g: Gate<A, C, K, W>, before: Seq<TermSum<C, P, W>>, p: int, after: TermSum<C, P, W>) -> bool {
    let part = before[p];
    &&& after.scans() == termsum::scanned_counts(g, part.keys(), part.coeffs(), part.scans())
    &&& after.exchanges() == termsum::exchanged_counts(
        g,
        part.keys(),
        part.coeffs(),
        arriving(g, before, p, before.len() as int),
        returning(g, before, p, before.len() as int).len(),
        part.exchanges(),
    )
}

/// Partition `p` after a gate that could not finish: its sources have been rotated, and the
/// first of the messages for it have arrived, up to the `t`-th.
pub open spec fn stopped_at<
    A: Basis<W>,
    C: CoeffRepr,
    P: Pos,
    K: TruncationKernel<C::Real>,
    const W: usize,
>(
    g: Gate<A, C, K, W>,
    before: Seq<TermSum<C, P, W>>,
    p: int,
    t: int,
    after: TermSum<C, P, W>,
) -> bool {
    let part = before[p];
    let msgs = arriving(g, before, p, before.len() as int);
    &&& 0 <= t <= msgs.len()
    &&& termsum::partly_rotated(g, part.terms(), msgs.take(t), after.terms())
    &&& after.scans() == termsum::scanned_counts(g, part.keys(), part.coeffs(), part.scans())
    &&& after.exchanges() == (
        termsum::counted(part.exchanges().0, termsum::emitting(g, part.keys(), part.coeffs())),
        termsum::counted(part.exchanges().1, termsum::met(part.keys(), msgs, t)),
    )
}

/// Partition `p` after a gate that could not finish.
pub open spec fn stopped<
    A: Basis<W>,
    C: CoeffRepr,
    P: Pos,
    K: TruncationKernel<C::Real>,
    const W: usize,
>(g: Gate<A, C, K, W>, before: Seq<TermSum<C, P, W>>, p: int, after: TermSum<C, P, W>) -> bool {
    exists|t: int| #[trigger] stopped_at(g, before, p, t, after)
}

/// A swept partition that has folded in some of its messages has stopped there.
proof fn lemma_stopped<
    A: Basis<W>,
    C: CoeffRepr,
    P: Pos,
    K: TruncationKernel<C::Real>,
    const W: usize,
>(
    g: Gate<A, C, K, W>,
    before: Seq<TermSum<C, P, W>>,
    p: int,
    scanned: TermSum<C, P, W>,
    after: TermSum<C, P, W>,
)
    requires
        0 <= p < before.len(),
        before[p].wf(),
        scanned.wf(),
        swept(g, before[p], scanned),
        partly_absorbed(scanned, arriving(g, before, p, before.len() as int), after),
    ensures
        stopped(g, before, p, after),
{
    let part = before[p];
    let msgs = arriving(g, before, p, before.len() as int);
    let t = choose|t: int| 0 <= t <= msgs.len() && #[trigger] scanned.absorbed(after, msgs, t);
    part.lemma_wf();
    termsum::lemma_scanned(g, part.keys(), part.coeffs(), scanned.coeffs());
    assert(termsum::partly_rotated(g, part.terms(), msgs.take(t), after.terms())) by {
        assert forall|k: Seq<bool>| #[trigger] gate::get(after.terms(), k) == gate::merged(
            gate::get(part.terms().map_entries(|k: Seq<bool>, c: C| g.remains(k, c)), k),
            gate::brought(msgs.take(t), k),
        ) by {}
    }
    assert(stopped_at(g, before, p, t, after));
}

/// What the drained boxes hold for a partition is what returns to it.
proof fn lemma_returning<
    A: Basis<W>,
    C: CoeffRepr,
    P: Pos,
    K: TruncationKernel<C::Real>,
    const W: usize,
>(
    g: Gate<A, C, K, W>,
    parts: Seq<TermSum<C, P, W>>,
    units: nat,
    boxes: Seq<Vec<Vec<Routed<C, W>>>>,
    mids: Seq<TermSum<C, P, W>>,
    rescues: Seq<Vec<Vec<Routed<C, W>>>>,
    dst: int,
    n: int,
)
    requires
        tended(parts, units),
        delivers(g, parts, boxes),
        forall|p: int|
            0 <= p < parts.len() ==> gate::separate(
                #[trigger] column(boxes, p, parts.len() as int),
                64 * W as int,
            ),
        0 <= dst < parts.len(),
        0 <= n <= parts.len(),
        mids.len() == parts.len(),
        forall|p: int|
            0 <= p < parts.len() ==> paid_up(
                g,
                parts[p],
                column(boxes, p, parts.len() as int),
                #[trigger] mids[p],
            ),
        forall|src: int, d: int|
            0 <= src < parts.len() && 0 <= d < parts.len() ==> #[trigger] letters(rescues, src, d)
                == termsum::released::<A, C, W>(
                g.gen,
                g.negated,
                mids[src].lacks_phase(),
                mids[src].keys(),
                mids[src].held(),
                mids[src].claims(),
                mids[src].claims().len() as int,
                d,
                parts.len(),
            ),
    ensures
        column(rescues, dst, n) == returning(g, parts, dst, n),
    decreases n,
{
    if n > 0 {
        lemma_returning(g, parts, units, boxes, mids, rescues, dst, n - 1);
        let src = n - 1;
        let part = parts[src];
        let held = termsum::held_back(g, part.keys(), part.coeffs());
        let msgs = column(boxes, src, parts.len() as int);
        lemma_arriving(g, parts, boxes, src, parts.len() as int);
        assert(paid_up(g, part, msgs, mids[src]));
        assert(held =~= Seq::new(
            part.keys().len(),
            |i: int| TermSum::<C, P, W>::held_by(g.fate(part.keys()[i], part.coeffs()[i])),
        ));
        part.lemma_wf();
        termsum::lemma_paid_rows(
            part.keys(),
            held,
            msgs,
            64 * W as int,
            msgs.len() as int,
        );
        let claims = mids[src].claims();
        mids[src].lemma_wf();
        termsum::lemma_released_prefix::<A, C, W>(
            g.gen,
            g.negated,
            g.precheck() is Some,
            part.keys(),
            held,
            mids[src].keys(),
            mids[src].held(),
            claims,
            claims.len() as int,
            dst,
            parts.len(),
        );
        assert(letters(rescues, src, dst) == letters(rescues, src, dst));
    }
}

/// A partition's counters after all rounds of an exchange.
proof fn lemma_tallied<
    A: Basis<W>,
    C: CoeffRepr,
    P: Pos,
    K: TruncationKernel<C::Real>,
    const W: usize,
>(
    g: Gate<A, C, K, W>,
    before: TermSum<C, P, W>,
    scanned: TermSum<C, P, W>,
    mid: TermSum<C, P, W>,
    drained: TermSum<C, P, W>,
    fin: TermSum<C, P, W>,
    first: Seq<Message<C>>,
    second: Seq<Message<C>>,
)
    requires
        swept(g, before, scanned),
        scanned.absorbed(mid, first, first.len() as int),
        drained.exchanges() == (
            termsum::counted(mid.exchanges().0, mid.claims().len()),
            mid.exchanges().1,
        ),
        drained.scans() == mid.scans(),
        drained.absorbed(fin, second, second.len() as int),
        gate::fresh(drained.keys(), second, second.len() as int) == 0,
    ensures
        fin.scans() == termsum::scanned_counts(
            g,
            before.keys(),
            before.coeffs(),
            before.scans(),
        ),
        fin.exchanges() == termsum::exchanged_counts(
            g,
            before.keys(),
            before.coeffs(),
            first,
            second.len(),
            before.exchanges(),
        ),
{
    assert(scanned.held() =~= termsum::held_back(g, before.keys(), before.coeffs()));
    let rows = termsum::paid_rows(before.keys(), scanned.held(), first, first.len() as int);
    assert(scanned.claims() + rows =~= rows);
}

/// Some partition's store cannot number the rows a gate creates in it.
pub open spec fn exhausted<
    A: Basis<W>,
    C: CoeffRepr,
    P: Pos,
    K: TruncationKernel<C::Real>,
    const W: usize,
>(g: Gate<A, C, K, W>, parts: Seq<TermSum<C, P, W>>, dst: int) -> bool {
    let msgs = arriving(g, parts, dst, parts.len() as int);
    parts[dst].keys().len() + gate::fresh(parts[dst].keys(), msgs, msgs.len() as int) >= u32::MAX
}

/// Applies the rotation a context describes to all partitions: scans them, exchanges the
/// branches, and exchanges the branches whose partners have paid for them. Returns how many
/// rows are new.
///
/// When a store cannot number a new row, the sources have been rotated and some of the
/// branches are missing.
pub fn rotate_all<
    A: Basis<W>,
    C: CoeffRepr,
    P: Pos,
    K: TruncationKernel<C::Real>,
    const W: usize,
>(
    parts: &mut Vec<TermSum<C, P, W>>,
    ctx: &A::GenContext,
    param: &C::GateParam,
    cutoff: &EmitCutoff<C::Real, K>,
    n_units: usize,
    times: &mut PhaseTimes,
) -> (r: Result<usize, TermIndexCeilingReached>)
    requires
        0 < old(parts)@.len(),
        tended(old(parts)@, n_units as nat),
        owned(old(parts)@),
        A::generator_of(*ctx).len() == 64 * W,
        operator_index::addressable(3 * rows_held(old(parts)@) as int),
    ensures
        final(times).grown_from(*old(times)),
        final(parts)@.len() == old(parts)@.len(),
        tended(final(parts)@, n_units as nat),
        owned(final(parts)@),
        forall|p: int|
            0 <= p < old(parts)@.len() ==> (#[trigger] final(parts)@[p]).row_width() == old(
                parts,
            )@[p].row_width(),
        ({
            let g = emit::gate_for::<A, C, K, W>(
                A::generator_of(*ctx),
                A::negated(*ctx),
                *param,
                *cutoff,
                n_units as nat,
            );
            &&& r is Err <==> exists|dst: int|
                0 <= dst < old(parts)@.len() && #[trigger] exhausted(g, old(parts)@, dst)
            &&& r matches Ok(added) ==> {
                &&& joined(final(parts)@) == gate::rotate(g, joined(old(parts)@))
                &&& rows_held(final(parts)@) == rows_held(old(parts)@) + added
                &&& forall|p: int|
                    0 <= p < old(parts)@.len() ==> tallied(
                        g,
                        old(parts)@,
                        p,
                        #[trigger] final(parts)@[p],
                    )
            }
            &&& r is Err ==> forall|p: int|
                0 <= p < old(parts)@.len() ==> stopped(
                    g,
                    old(parts)@,
                    p,
                    #[trigger] final(parts)@[p],
                )
            &&& forall|k: Seq<bool>| #[trigger]
                joined(final(parts)@).contains_key(k) ==> joined(old(parts)@).contains_key(k)
                    || gate::sent_by(g, joined(old(parts)@), k) is Some
        }),
{
    let ghost before = parts@;
    let ghost s = parts@.len();
    let ghost n = s as int;
    let ghost units = n_units as nat;
    let ghost total = rows_held(before);
    let ghost g = emit::gate_for::<A, C, K, W>(
        A::generator_of(*ctx),
        A::negated(*ctx),
        *param,
        *cutoff,
        units,
    );
    let ghost m = joined(before);
    proof {
        assert forall|p: int| 0 <= p < n implies (#[trigger] before[p]).keys().len() <= total by {
            sums::lemma_sum_part(|p: int| before[p].keys().len(), n, p);
        }
    }
    let scan_start = timing::now();
    let boxes: Vec<Vec<Vec<Routed<C, W>>>> = scan_all::<A, C, P, K, W>(
        parts,
        ctx,
        param,
        cutoff,
        n_units,
    );
    times.scanned(&scan_start);
    let ghost scanned = parts@;
    proof {
        assert(delivers(g, before, boxes@));
        lemma_mail(g, before, boxes@);
        assert forall|dst: int| 0 <= dst < n implies gate::separate(
            #[trigger] column(boxes@, dst, n),
            64 * W as int,
        ) && operator_index::addressable(
            scanned[dst].keys().len() + column(boxes@, dst, n).len() as int,
        ) by {
            lemma_first_round(g, before, units, boxes@, dst);
            assert(swept(g, before[dst], scanned[dst]));
            assert(before[dst].keys().len() <= total);
        }
        sums::lemma_sum_same(
            |p: int| before[p].keys().len(),
            |p: int| scanned[p].keys().len(),
            n,
        );
        assert forall|dst: int| 0 <= dst < n implies #[trigger] newcomers(scanned, boxes@, dst)
            == newcomers(before, boxes@, dst) by {
            assert(swept(g, before[dst], scanned[dst]));
        }
        sums::lemma_sum_same(
            |dst: int| newcomers(before, boxes@, dst),
            |dst: int| newcomers(scanned, boxes@, dst),
            n,
        );
        assert forall|dst: int| 0 <= dst < n implies #[trigger] exhausted(g, before, dst)
            == overfull(scanned, boxes@, dst) by {
            lemma_arriving(g, before, boxes@, dst, n);
            assert(swept(g, before[dst], scanned[dst]));
        }
        assert forall|dst: int| 0 <= dst < n implies #[trigger] overfull(scanned, boxes@, dst)
            == exhausted(g, before, dst) by {}
        assert forall|p: int, k: Seq<bool>| 0 <= p < n implies #[trigger] scanned[p].terms().contains_key(
            k,
        ) == before[p].terms().contains_key(k) by {
            assert(swept(g, before[p], scanned[p]));
        }
    }
    let absorb_start = timing::now();
    let added: usize = match absorb_all(parts, &boxes, n_units) {
        Ok(added) => added,
        Err(e) => {
            proof {
                let fin = parts@;
                assert forall|p: int, k: Seq<bool>|
                    0 <= p < n && #[trigger] fin[p].terms().contains_key(k) implies gate::owner(k, s)
                    == p && (m.contains_key(k) || gate::sent_by(g, m, k) is Some) by {
                    lemma_first_round(g, before, units, boxes@, p);
                    assert(grown(scanned[p].terms(), column(boxes@, p, n), fin[p].terms()));
                    assert(scanned[p].terms().contains_key(k) == before[p].terms().contains_key(k));
                    lemma_joined(before, k, p);
                }
                assert forall|k: Seq<bool>| #[trigger] joined(fin).contains_key(k) implies m.contains_key(
                    k,
                ) || gate::sent_by(g, m, k) is Some by {
                    lemma_owner(k, s);
                    assert(fin[gate::owner(k, s)].terms().contains_key(k));
                }
                assert forall|p: int| 0 <= p < n implies (#[trigger] fin[p]).row_width()
                    == before[p].row_width() by {
                    assert(swept(g, before[p], scanned[p]));
                }
                let dst = choose|dst: int| 0 <= dst < n && #[trigger] overfull(scanned, boxes@, dst);
                assert(exhausted(g, before, dst));
                assert forall|p: int| 0 <= p < n implies stopped(
                    g,
                    before,
                    p,
                    #[trigger] fin[p],
                ) by {
                    lemma_arriving(g, before, boxes@, p, n);
                    assert(swept(g, before[p], scanned[p]));
                    assert(before[p].wf() && scanned[p].wf());
                    lemma_stopped(g, before, p, scanned[p], fin[p]);
                }
            }
            return Err(e);
        },
    };
    let ghost mids = parts@;
    let rescues: Vec<Vec<Vec<Routed<C, W>>>> = drain_all::<A, C, P, W>(parts, ctx, n_units);
    times.absorbed(&absorb_start);
    let ghost drained = parts@;
    proof {
        assert forall|dst: int| 0 <= dst < n implies !#[trigger] exhausted(g, before, dst) by {
            assert(!overfull(scanned, boxes@, dst));
        }
        assert forall|p: int| 0 <= p < n implies paid_up(
            g,
            before[p],
            column(boxes@, p, n),
            #[trigger] mids[p],
        ) by {
            assert(swept(g, before[p], scanned[p]));
            assert(scanned[p].wf() && before[p].wf());
            lemma_paid_up(g, before[p], scanned[p], column(boxes@, p, n), mids[p]);
        }
        assert forall|dst: int| 0 <= dst < n implies gate::separate(
            #[trigger] column(rescues@, dst, n),
            64 * W as int,
        ) && operator_index::addressable(
            drained[dst].keys().len() + column(rescues@, dst, n).len() as int,
        ) && newcomers(drained, rescues@, dst) == 0 by {
            lemma_second_round(g, before, units, boxes@, mids, rescues@, dst);
            let msgs = column(boxes@, dst, n);
            bits::lemma_ones_bound(
                Seq::new(msgs.len(), |j: int| !scanned[dst].keys().contains(msgs[j].0)),
            );
            assert(scanned[dst].absorbed(mids[dst], msgs, msgs.len() as int));
            assert(swept(g, before[dst], scanned[dst]));
            assert(drained[dst].keys() == mids[dst].keys());
            assert(before[dst].keys().len() <= total);
        }
        let none = |dst: int| newcomers(drained, rescues@, dst);
        assert forall|dst: int| 0 <= dst < n implies #[trigger] none(dst) == 0 by {
            assert(column(rescues@, dst, n) == column(rescues@, dst, n));
        }
        sums::lemma_sum_zero(none, n);
        assert(newcomers_total(drained, rescues@) == 0);
        sums::lemma_sum_same(
            |p: int| mids[p].keys().len(),
            |p: int| drained[p].keys().len(),
            n,
        );
        assert forall|dst: int| 0 <= dst < n implies !#[trigger] overfull(
            drained,
            rescues@,
            dst,
        ) by {
            assert(column(rescues@, dst, n) == column(rescues@, dst, n));
            drained[dst].lemma_wf();
        }
    }
    let claims_start = timing::now();
    match absorb_all(parts, &rescues, n_units) {
        Ok(_) => {
            times.claimed(&claims_start);
        },
        Err(e) => {
            return Err(e);
        },
    }
    proof {
        let fin = parts@;
        assert forall|p: int, k: Seq<bool>| 0 <= p < n implies (#[trigger] gate::get(
            fin[p].terms(),
            k,
        )) == (if gate::owner(k, s) == p {
            gate::rotated(g, m, k)
        } else {
            None
        }) by {
            let first = column(boxes@, p, n);
            let second = column(rescues@, p, n);
            lemma_first_round(g, before, units, boxes@, p);
            lemma_second_round(g, before, units, boxes@, mids, rescues@, p);
            assert(paid_up(g, before[p], first, mids[p]));
            assert(drained[p].terms() == mids[p].terms());
            assert(drained[p].absorbed(fin[p], second, second.len() as int));
            assert(second.take(second.len() as int) =~= second);
            assert(gate::get(fin[p].terms(), k) == gate::merged(
                gate::get(drained[p].terms(), k),
                gate::brought(second, k),
            ));
            assert(gate::get(mids[p].terms(), k) == gate::merged(
                gate::get(
                    before[p].terms().map_entries(|k: Seq<bool>, c: C| g.remains(k, c)),
                    k,
                ),
                gate::brought(first, k),
            ));
            lemma_joined(before, k, p);
            gate::lemma_rotated(g, m, k, gate::sent_by(g, m, g.partner(k)) is Some);
        }
        assert(owned(fin)) by {
            assert forall|p: int, k: Seq<bool>|
                0 <= p < fin.len() && #[trigger] fin[p].terms().contains_key(k) implies gate::owner(
                k,
                fin.len(),
            ) == p by {
                assert(gate::get(fin[p].terms(), k) is Some);
            }
        }
        assert forall|k: Seq<bool>| #[trigger] gate::get(joined(fin), k) == gate::get(
            gate::rotate(g, m),
            k,
        ) by {
            lemma_owner(k, s);
            lemma_joined(fin, k, gate::owner(k, s));
            assert(gate::get(fin[gate::owner(k, s)].terms(), k) == gate::rotated(g, m, k));
        }
        termsum::lemma_same_map(joined(fin), gate::rotate(g, m));
        assert forall|k: Seq<bool>| #[trigger] joined(fin).contains_key(k) implies m.contains_key(k)
            || gate::sent_by(g, m, k) is Some by {
            if k.len() == 64 * W {
                emit::lemma_xor_back(g.gen, k);
            }
        }
        assert forall|p: int| 0 <= p < n implies (#[trigger] fin[p]).row_width()
            == before[p].row_width() by {
            assert(swept(g, before[p], scanned[p]));
            assert(mids[p].row_width() == scanned[p].row_width());
            assert(drained[p].row_width() == mids[p].row_width());
        }
        sums::lemma_sum_same(
            |p: int| before[p].keys().len(),
            |p: int| scanned[p].keys().len(),
            n,
        );
        assert forall|p: int| 0 <= p < n implies tallied(g, before, p, #[trigger] fin[p]) by {
            let first = column(boxes@, p, n);
            let second = column(rescues@, p, n);
            assert(swept(g, before[p], scanned[p]));
            assert(scanned[p].absorbed(mids[p], first, first.len() as int));
            assert(drained[p].absorbed(fin[p], second, second.len() as int));
            assert(newcomers(drained, rescues@, p) == 0);
            lemma_arriving(g, before, boxes@, p, n);
            lemma_returning(g, before, units, boxes@, mids, rescues@, p, n);
            lemma_tallied(
                g,
                before[p],
                scanned[p],
                mids[p],
                drained[p],
                fin[p],
                first,
                second,
            );
        }
    }
    Ok(added)
}

} // verus!
