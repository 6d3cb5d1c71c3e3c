//! The kernels that work on a sum's columns: flag rows, number the survivors, and move them up.

use crate::basis::Phase;
use crate::bits;
use crate::clifford_ops;
use crate::clifford_ops::CliffordOp;
use crate::coeff::CoeffRepr;
use crate::column_laws;
use crate::sparse;
use crate::sparse::{DenseWorkspace, Position, Slot, SparseRows};
use crate::store;
use crate::store::{KernelLayout, MergeTable, SoaBasis, SoaTermSum};
use crate::sums;
use crate::term_kernel;
use crate::term_kernel::{NoiseKernel, TermView, TruncationKernel};
use crate::termsum;
use crate::truncators::ResolvedConfig;
use vstd::prelude::*;

verus! {

/// What a kernel needs to get at one row's algebra: nothing under the sparse layout, two
/// decoded rows under the dense one.
pub struct RowWorkspace {
    dense: Option<DenseWorkspace>,
}

impl RowWorkspace {
    /// The workspace is ready for rows of `stride` words a plane.
    pub closed spec fn fits(&self, span: nat) -> bool {
        self.dense matches Some(w) ==> w.wf() && w.span() == span && w.planes().len() == 2
    }

    /// The layout this workspace serves.
    pub closed spec fn layout(&self) -> KernelLayout {
        if self.dense is Some {
            KernelLayout::Dense
        } else {
            KernelLayout::Sparse
        }
    }

    /// A workspace for rows of `stride` words a plane.
    pub fn new(layout: KernelLayout, stride: usize) -> (w: Self)
        requires
            128 * stride <= u32::MAX + 1,
            128 * stride <= usize::MAX,
        ensures
            w.fits(64 * stride as nat),
            w.layout() == layout,
    {
        match layout {
            KernelLayout::Dense => RowWorkspace { dense: Some(DenseWorkspace::new(stride, 2)) },
            KernelLayout::Sparse => RowWorkspace { dense: None },
        }
    }
}

/// Row `i`'s weight.
fn row_weight<B: SoaBasis>(
    rows: &SparseRows,
    i: usize,
    n_units: usize,
    ws: &mut RowWorkspace,
) -> (w: u32)
    requires
        rows.wf(),
        i < rows.rows().len(),
        old(ws).fits(rows.span()),
    ensures
        final(ws).fits(rows.span()),
        final(ws).layout() == old(ws).layout(),
        w == B::weight_of(rows.key(i as int), n_units as nat),
{
    proof {
        rows.lemma_wf();
    }
    match &mut ws.dense {
        Some(w) => {
            w.load_slot(rows, i, 0);
            B::weight(w.row(0), n_units)
        },
        None => B::weight_sparse(rows.row(i), rows.plane_span(), n_units),
    }
}

/// Row `i`'s trace against `fock`.
fn row_trace<B: SoaBasis>(
    rows: &SparseRows,
    i: usize,
    n_units: usize,
    fock: &[u64],
    ws: &mut RowWorkspace,
) -> (r: i8)
    requires
        rows.wf(),
        i < rows.rows().len(),
        old(ws).fits(rows.span()),
    ensures
        final(ws).fits(rows.span()),
        final(ws).layout() == old(ws).layout(),
        r == B::trace_of(rows.key(i as int), n_units as nat, fock@),
        -1 <= r <= 1,
{
    proof {
        rows.lemma_wf();
    }
    match &mut ws.dense {
        Some(w) => {
            w.load_slot(rows, i, 0);
            B::trace(w.row(0), n_units, fock)
        },
        None => B::trace_sparse(rows.row(i), rows.plane_span(), n_units, fock),
    }
}

/// Row `i`'s merge hash.
fn row_key_hash<B: SoaBasis>(rows: &SparseRows, i: usize, ws: &mut RowWorkspace) -> (h: u64)
    requires
        rows.wf(),
        i < rows.rows().len(),
        old(ws).fits(rows.span()),
    ensures
        final(ws).fits(rows.span()),
        final(ws).layout() == old(ws).layout(),
        h == store::merge_hash::<B>(
            old(ws).layout(),
            rows.rows()[i as int],
            (2 * rows.span()) as nat,
        ),
{
    proof {
        rows.lemma_wf();
    }
    match &mut ws.dense {
        Some(w) => {
            w.load_slot(rows, i, 0);
            B::key_hash(w.row(0))
        },
        None => store::hash_positions(rows.row(i)),
    }
}

/// True if a row commutes with the generator, given as planes and as a row.
fn row_commutes<B: SoaBasis>(
    row: &[Position],
    gen_planes: [&[u64]; 2],
    gen_row: &[Position],
    plane_span: usize,
    ws: &mut RowWorkspace,
) -> (r: bool)
    requires
        old(ws).fits(plane_span as nat),
        sparse::orderly(row@, 2 * plane_span),
        plane_span % 64 == 0,
        2 * plane_span <= u32::MAX + 1,
        2 * plane_span <= usize::MAX,
        64 * gen_planes[0]@.len() == plane_span,
        64 * gen_planes[1]@.len() == plane_span,
        sparse::spells(
            gen_row@,
            sparse::key_of(gen_planes[0]@, gen_planes[1]@, plane_span as nat),
        ),
    ensures
        final(ws).fits(plane_span as nat),
        final(ws).layout() == old(ws).layout(),
        r == B::commuting(
            sparse::key_in(row@, (2 * plane_span) as nat),
            sparse::key_of(gen_planes[0]@, gen_planes[1]@, plane_span as nat),
        ),
{
    proof {
        sparse::lemma_spells(
            gen_row@,
            sparse::key_of(gen_planes[0]@, gen_planes[1]@, plane_span as nat),
        );
    }
    match &mut ws.dense {
        Some(w) => {
            w.load_slot_positions(row, 0);
            B::commutes(w.row(0), gen_planes)
        },
        None => B::commutes_sparse(row, gen_row, plane_span),
    }
}

/// Appends the row of `gen * row` and returns the phase.
fn row_product<B: SoaBasis>(
    row: &[Position],
    gen_planes: [&[u64]; 2],
    gen_row: &[Position],
    plane_span: usize,
    out: &mut Vec<Position>,
    ws: &mut RowWorkspace,
) -> (phase: Phase)
    requires
        old(ws).fits(plane_span as nat),
        sparse::orderly(row@, 2 * plane_span),
        plane_span % 64 == 0,
        2 * plane_span <= u32::MAX + 1,
        2 * plane_span <= usize::MAX,
        64 * gen_planes[0]@.len() == plane_span,
        64 * gen_planes[1]@.len() == plane_span,
        sparse::spells(
            gen_row@,
            sparse::key_of(gen_planes[0]@, gen_planes[1]@, plane_span as nat),
        ),
    ensures
        final(ws).fits(plane_span as nat),
        final(ws).layout() == old(ws).layout(),
        ({
            let t = sparse::key_in(row@, (2 * plane_span) as nat);
            let g = sparse::key_of(gen_planes[0]@, gen_planes[1]@, plane_span as nat);
            &&& sparse::appended(old(out)@, final(out)@, B::product_of(t, g))
            &&& phase == B::phase_of(t, g)
        }),
{
    proof {
        sparse::lemma_spells(
            gen_row@,
            sparse::key_of(gen_planes[0]@, gen_planes[1]@, plane_span as nat),
        );
    }
    match &mut ws.dense {
        Some(w) => {
            w.load_slot_positions(row, 0);
            let mut slot: Slot = w.take_slot(1);
            let phase: Phase = B::product(w.row(0), gen_planes, &mut slot.x, &mut slot.z);
            w.put_slot(1, slot);
            w.encode_row_into(1, out);
            phase
        },
        None => B::product_sparse(row, gen_row, plane_span, out),
    }
}

/// The sum of the first `i` flags.
pub open spec fn flag_sum(flags: Seq<u32>, i: int) -> nat {
    sums::sum_to(|j: int| flags[j] as nat, i)
}

/// Computes the exclusive prefix sum of `flags` into `index`, returning the total.
pub fn prefix_sum(flags: &[u32], index: &mut Vec<usize>) -> (total: usize)
    requires
        flags@.len() <= old(index)@.len(),
        flag_sum(flags@, flags@.len() as int) <= usize::MAX,
    ensures
        total == flag_sum(flags@, flags@.len() as int),
        final(index)@.len() == old(index)@.len(),
        forall|i: int| 0 <= i < flags@.len() ==> #[trigger] final(index)@[i] == flag_sum(flags@, i),
        forall|i: int|
            flags@.len() <= i < old(index)@.len() ==> #[trigger] final(index)@[i] == old(index)@[i],
{
    let ghost f = |j: int| flags@[j] as nat;
    let n: usize = flags.len();
    let mut acc: usize = 0;
    let mut i: usize = 0;
    while i < n
        invariant
            n == flags@.len(),
            i <= n,
            n <= index@.len(),
            index@.len() == old(index)@.len(),
            f == |j: int| flags@[j] as nat,
            sums::sum_to(f, n as int) <= usize::MAX,
            acc == sums::sum_to(f, i as int),
            forall|j: int| 0 <= j < i ==> #[trigger] index@[j] == flag_sum(flags@, j),
            forall|j: int| i <= j < index@.len() ==> #[trigger] index@[j] == old(index)@[j],
        decreases n - i,
    {
        proof {
            sums::lemma_sum_grows(f, i + 1, n as int);
        }
        index.set(i, acc);
        acc += flags[i] as usize;
        i += 1;
    }
    acc
}

/// Every flag is raised once or not at all.
pub open spec fn plain(flags: Seq<u32>) -> bool {
    forall|i: int| 0 <= i < flags.len() ==> #[trigger] flags[i] == 0 || flags[i] == 1
}

/// Plain flags add up to their ranks.
proof fn lemma_plain(flags: Seq<u32>, i: int)
    requires
        plain(flags),
        0 <= i <= flags.len(),
    ensures
        flag_sum(flags, i) == sparse::rank(flags, i),
        sparse::rank(flags, i) <= i,
    decreases i,
{
    if i > 0 {
        lemma_plain(flags, i - 1);
        sparse::lemma_rank_step(flags, i - 1);
        assert(flags[i - 1] == 0 || flags[i - 1] == 1);
    } else {
        assert(Seq::new(0, |x: int| flags[x] != 0) =~= Seq::<bool>::empty());
    }
}

/// The ranks of plain flags, and how many are raised.
fn number(flags: &Vec<u32>) -> (r: (Vec<usize>, usize))
    requires
        plain(flags@),
    ensures
        r.0@.len() == flags@.len(),
        forall|i: int| 0 <= i < flags@.len() ==> #[trigger] r.0@[i] == sparse::rank(flags@, i),
        r.1 == sparse::rank(flags@, flags@.len() as int),
        r.1 <= flags@.len(),
{
    let n: usize = flags.len();
    let mut index: Vec<usize> = Vec::new();
    while index.len() < n
        invariant
            index@.len() <= n,
        decreases n - index@.len(),
    {
        index.push(0);
    }
    proof {
        lemma_plain(flags@, n as int);
    }
    let total: usize = prefix_sum(flags.as_slice(), &mut index);
    proof {
        assert forall|i: int| 0 <= i < flags@.len() implies #[trigger] index@[i] == sparse::rank(
            flags@,
            i,
        ) by {
            lemma_plain(flags@, i);
        }
    }
    (index, total)
}

/// The table holds only rows among the first `n`, under their hashes in batch `b`, and all of
/// those that are flagged.
pub open spec fn covers(
    t: MergeTable,
    b: int,
    batches: nat,
    hashes: Seq<u64>,
    flags: Seq<u32>,
    n: int,
) -> bool {
    &&& forall|x: usize, h: u64| #[trigger]
        store::table_entries(t).contains((x, h)) ==> x < n && h == hashes[x as int]
            && store::batch_of(h, batches) == b
    &&& forall|x: usize|
        x < n && flags[x as int] != 0 && store::batch_of(hashes[x as int], batches) == b
            ==> #[trigger] store::table_entries(t).contains((x, hashes[x as int]))
}

/// Once row numbers are moved, the table holds exactly the survivors.
proof fn lemma_moved(
    before: MergeTable,
    after: MergeTable,
    b: int,
    batches: nat,
    hashes: Seq<u64>,
    flags: Seq<u32>,
    index: Seq<usize>,
    n: int,
)
    requires
        covers(before, b, batches, hashes, flags, n),
        store::table_entries(after) == store::moved(store::table_entries(before), flags, index),
        0 <= n <= flags.len(),
        n <= hashes.len(),
        n <= index.len(),
        n <= usize::MAX,
        forall|i: int| 0 <= i < n ==> #[trigger] index[i] == sparse::rank(flags, i),
    ensures
        store::tabled(
            after,
            b,
            batches,
            sparse::flagged(hashes, flags, n),
            sparse::rank(flags, n) as int,
        ),
{
    let kept = sparse::flagged(hashes, flags, n);
    sparse::lemma_flagged(hashes, flags, n);
    let was = store::table_entries(before);
    assert forall|y: usize, h: u64| #[trigger] store::table_entries(after).contains((y, h)) <==> (y
        < sparse::rank(flags, n) && h == kept[y as int] && store::batch_of(h, batches) == b) by {
        if store::table_entries(after).contains((y, h)) {
            let x = choose|x: usize| #[trigger]
                was.contains((x, h)) && flags[x as int] != 0 && y == index[x as int];
            assert(index[x as int] == sparse::rank(flags, x as int));
            assert(sparse::ranked(hashes, flags, n, x as int));
        }
        if y < sparse::rank(flags, n) && h == kept[y as int] && store::batch_of(h, batches) == b {
            assert(sparse::stands_at(hashes, flags, n, y as int));
            let i = choose|i: int|
                0 <= i < n && flags[i] != 0 && sparse::rank(flags, i) == y && kept[y as int]
                    == #[trigger] hashes[i];
            let x = i as usize;
            assert(was.contains((x, hashes[x as int])));
            assert(index[i] == sparse::rank(flags, i));
        }
    }
}

/// No two flagged rows among the first `n` are equal.
pub open spec fn distinct_flagged(rows: Seq<Seq<u32>>, flags: Seq<u32>, n: int) -> bool {
    forall|i: int, j: int|
        0 <= i < j < n && flags[i] != 0 && flags[j] != 0 ==> #[trigger] rows[i]
            != #[trigger] rows[j]
}

/// A prefix of the flagged rows is what the flagged prefix gives.
proof fn lemma_flagged_prefix<T>(rows: Seq<T>, flags: Seq<u32>, m: int, n: int)
    requires
        0 <= m <= n <= rows.len(),
        n <= flags.len(),
    ensures
        sparse::rank(flags, m) <= sparse::rank(flags, n),
        forall|y: int|
            0 <= y < sparse::rank(flags, m) ==> #[trigger] sparse::flagged(rows, flags, n)[y]
                == sparse::flagged(rows, flags, m)[y],
    decreases n - m,
{
    if m < n {
        lemma_flagged_prefix(rows, flags, m, n - 1);
        sparse::lemma_rank_step(flags, n - 1);
        sparse::lemma_flagged(rows, flags, n - 1);
        assert forall|y: int| 0 <= y < sparse::rank(flags, m) implies #[trigger] sparse::flagged(
            rows,
            flags,
            n,
        )[y] == sparse::flagged(rows, flags, m)[y] by {
            assert(sparse::flagged(rows, flags, n - 1)[y] == sparse::flagged(rows, flags, m)[y]);
        }
    }
}

/// Flagged entries of a column, moved up.
fn keep_flagged<C: CoeffRepr>(column: &Vec<C>, flags: &Vec<u32>, n: usize) -> (out: Vec<C>)
    requires
        n <= column@.len(),
        n <= flags@.len(),
    ensures
        out@ == sparse::flagged(column@, flags@, n as int),
{
    let mut out: Vec<C> = Vec::new();
    let mut i: usize = 0;
    while i < n
        invariant
            n <= column@.len(),
            n <= flags@.len(),
            i <= n,
            out@ == sparse::flagged(column@, flags@, i as int),
        decreases n - i,
    {
        if flags[i] != 0 {
            out.push(column[i].duplicate());
        }
        i += 1;
    }
    out
}

/// Flagged hashes, moved up.
fn keep_hashes(column: &Vec<u64>, flags: &Vec<u32>, n: usize) -> (out: Vec<u64>)
    requires
        n <= column@.len(),
        n <= flags@.len(),
    ensures
        out@ == sparse::flagged(column@, flags@, n as int),
{
    let mut out: Vec<u64> = Vec::new();
    let mut i: usize = 0;
    while i < n
        invariant
            n <= column@.len(),
            n <= flags@.len(),
            i <= n,
            out@ == sparse::flagged(column@, flags@, i as int),
        decreases n - i,
    {
        if flags[i] != 0 {
            out.push(column[i]);
        }
        i += 1;
    }
    out
}

/// The merge tables cover the first rows, and those flagged among them are different.
spec fn covered<B: SoaBasis, C: CoeffRepr>(terms: SoaTermSum<C>, flags: Seq<u32>) -> bool {
    let n = (2 * terms.rows.span()) as nat;
    terms.merge_synced_len > 0 ==> {
        &&& terms.merge_tables@.len() == terms.batches
        &&& forall|x: int|
            0 <= x < terms.merge_synced_len ==> #[trigger] terms.hashes@[x] == store::merge_hash::<B>(
                terms.layout,
                terms.rows.rows()[x],
                n,
            )
        &&& distinct_flagged(terms.rows.rows(), flags, terms.merge_synced_len as int)
        &&& forall|b: int|
            0 <= b < terms.batches ==> covers(
                #[trigger] terms.merge_tables@[b],
                b,
                terms.batches as nat,
                terms.hashes@,
                flags,
                terms.merge_synced_len as int,
            )
    }
}

/// Removes the rows that are not flagged and moves the survivors up, in order. The merge tables
/// go with them.
fn compact<B: SoaBasis, C: CoeffRepr>(terms: &mut SoaTermSum<C>, flags: &Vec<u32>)
    requires
        old(terms).wf(),
        flags@.len() == old(terms).row_lists().len(),
        plain(flags@),
        covered::<B, C>(*old(terms), flags@),
    ensures
        final(terms).wf(),
        final(terms).indexed::<B>(),
        final(terms).same_setup(*old(terms)),
        final(terms).row_lists() == sparse::flagged(
            old(terms).row_lists(),
            flags@,
            flags@.len() as int,
        ),
        final(terms).coeff_seq() == sparse::flagged(
            old(terms).coeff_seq(),
            flags@,
            flags@.len() as int,
        ),
        final(terms).synced() == sparse::rank(flags@, old(terms).synced() as int),
{
    let n: usize = flags.len();
    let ghost before = *terms;
    let ghost rows = terms.rows.rows();
    let ghost m = terms.merge_synced_len as int;
    let (index, total) = number(flags);
    proof {
        sparse::lemma_flagged(rows, flags@, n as int);
        lemma_flagged_prefix(rows, flags@, m, n as int);
        lemma_plain(flags@, m);
    }
    let synced: usize = terms.merge_synced_len;
    terms.rows.compact(n, flags.as_slice(), index.as_slice(), total);
    terms.coeffs = keep_flagged(&terms.coeffs, flags, n);
    proof {
        sparse::lemma_flagged(before.coeffs@, flags@, n as int);
    }
    terms.coeffs.reserve(terms.coeff_room - terms.coeffs.len());
    proof {
        sparse::lemma_flagged(before.hashes@, flags@, m);
        sparse::lemma_flagged(rows, flags@, m);
    }
    if synced == 0 {
        proof {
            lemma_plain(flags@, 0);
        }
        return;
    }
    let mut b: usize = 0;
    while b < terms.merge_tables.len()
        invariant
            0 < m,
            m == before.merge_synced_len,
            m <= n,
            n == flags@.len(),
            n <= usize::MAX,
            before.wf(),
            before.merge_tables@.len() == before.batches,
            terms.merge_tables@.len() == before.batches,
            b <= terms.merge_tables@.len(),
            index@.len() == n,
            forall|i: int| 0 <= i < n ==> #[trigger] index@[i] == sparse::rank(flags@, i),
            forall|c: int|
                0 <= c < before.batches ==> covers(
                    #[trigger] before.merge_tables@[c],
                    c,
                    before.batches as nat,
                    before.hashes@,
                    flags@,
                    m,
                ),
            forall|c: int|
                b <= c < before.batches ==> #[trigger] terms.merge_tables@[c]
                    == before.merge_tables@[c],
            forall|c: int|
                0 <= c < b ==> store::tabled(
                    #[trigger] terms.merge_tables@[c],
                    c,
                    before.batches as nat,
                    sparse::flagged(before.hashes@, flags@, m),
                    sparse::rank(flags@, m) as int,
                ),
            terms.rows.wf(),
            terms.rows.rows() == sparse::flagged(rows, flags@, n as int),
            terms.rows.span() == before.rows.span(),
            terms.coeffs@ == sparse::flagged(before.coeffs@, flags@, n as int),
            terms.coeff_room == before.coeff_room,
            terms.hashes == before.hashes,
            terms.merge_synced_len == before.merge_synced_len,
            terms.batches == before.batches,
            terms.layout == before.layout,
            terms.n_units == before.n_units,
        decreases terms.merge_tables@.len() - b,
    {
        let ghost now = terms.merge_tables@;
        proof {
            assert(now[b as int] == before.merge_tables@[b as int]);
            assert(covers(
                before.merge_tables@[b as int],
                b as int,
                before.batches as nat,
                before.hashes@,
                flags@,
                m,
            ));
        }
        terms.merge_tables[b].relocate_all(flags, &index);
        proof {
            lemma_moved(
                now[b as int],
                terms.merge_tables@[b as int],
                b as int,
                before.batches as nat,
                before.hashes@,
                flags@,
                index@,
                m,
            );
            assert forall|c: int| 0 <= c < before.batches && c != b implies #[trigger] terms.merge_tables@[c]
                == now[c] by {}
        }
        b += 1;
    }
    terms.hashes = keep_hashes(&terms.hashes, flags, synced);
    terms.merge_synced_len = if synced < n {
        index[synced]
    } else {
        total
    };
    proof {
        let k = sparse::rank(flags@, m) as int;
        let hs = sparse::flagged(before.hashes@, flags@, m);
        let rs = sparse::flagged(rows, flags@, n as int);
        assert forall|y: int| 0 <= y < k implies #[trigger] hs[y] == store::merge_hash::<B>(
            terms.layout,
            rs[y],
            (2 * terms.rows.span()) as nat,
        ) by {
            assert(sparse::stands_at(before.hashes@, flags@, m, y));
            let i = choose|i: int|
                0 <= i < m && flags@[i] != 0 && sparse::rank(flags@, i) == y && hs[y]
                    == #[trigger] before.hashes@[i];
            assert(sparse::ranked(rows, flags@, m, i));
            assert(rs[y] == sparse::flagged(rows, flags@, m)[y]);
            assert(before.hashes@[i] == store::merge_hash::<B>(
                before.layout,
                rows[i],
                (2 * before.rows.span()) as nat,
            ));
        }
        assert(store::distinct_rows(rs, k)) by {
            assert forall|y: int, z: int| 0 <= y < z < k implies #[trigger] rs[y]
                != #[trigger] rs[z] by {
                assert(sparse::stands_at(rows, flags@, m, y));
                assert(sparse::stands_at(rows, flags@, m, z));
                let part = sparse::flagged(rows, flags@, m);
                assert(rs[y] == part[y] && rs[z] == part[z]);
                let i = choose|i: int|
                    0 <= i < m && flags@[i] != 0 && sparse::rank(flags@, i) == y && part[y]
                        == #[trigger] rows[i];
                let j = choose|j: int|
                    0 <= j < m && flags@[j] != 0 && sparse::rank(flags@, j) == z && part[z]
                        == #[trigger] rows[j];
                if i < j {
                    assert(rows[i] != rows[j]);
                } else if j < i {
                    assert(rows[j] != rows[i]);
                }
            }
        }
    }
}

/// The configuration keeps a term of this key and coefficient.
pub open spec fn kept_by<B: SoaBasis, C: CoeffRepr, K: TruncationKernel<C::Real>>(
    cfg: ResolvedConfig<C::Real, K>,
    key: Seq<bool>,
    coeff: C,
    n_units: nat,
) -> bool {
    match cfg.native {
        Some(kernel) => kernel.keeps(
            B::kind_of(),
            Seq::<u64>::empty(),
            n_units,
            B::weight_of(key, n_units),
            coeff.magnitude_of(),
        ),
        None => (cfg.weight matches Some(w) ==> B::weight_of(key, n_units) <= w) && coeff.reaches(
            match cfg.coefficient {
                Some(c) => c,
                None => C::unit(0),
            },
        ),
    }
}

/// One for a true entry, zero for a false one.
pub open spec fn flag_of(b: bool) -> u32 {
    if b {
        1
    } else {
        0
    }
}

/// Which rows the configuration keeps.
pub open spec fn kept_flags<B: SoaBasis, C: CoeffRepr, K: TruncationKernel<C::Real>>(
    cfg: ResolvedConfig<C::Real, K>,
    terms: SoaTermSum<C>,
) -> Seq<u32> {
    Seq::new(
        terms.row_lists().len(),
        |i: int|
            flag_of(
                kept_by::<B, C, K>(cfg, terms.key(i), terms.coeff_seq()[i], terms.units()),
            ),
    )
}

/// Every row's weight.
pub fn weights_of<B: SoaBasis, C: CoeffRepr>(terms: &SoaTermSum<C>) -> (w: Vec<u32>)
    requires
        terms.wf(),
    ensures
        w@.len() == terms.row_lists().len(),
        forall|i: int|
            0 <= i < w@.len() ==> #[trigger] w@[i] == B::weight_of(terms.key(i), terms.units()),
{
    let n: usize = terms.len();
    proof {
        terms.rows.lemma_wf();
    }
    let mut ws: RowWorkspace = RowWorkspace::new(terms.layout, terms.rows.stride());
    let mut w: Vec<u32> = Vec::new();
    while w.len() < n
        invariant
            terms.wf(),
            n == terms.row_lists().len(),
            ws.fits(terms.rows.span()),
            w@.len() <= n,
            forall|i: int|
                0 <= i < w@.len() ==> #[trigger] w@[i] == B::weight_of(terms.key(i), terms.units()),
        decreases n - w@.len(),
    {
        let i: usize = w.len();
        let one: u32 = row_weight::<B>(&terms.rows, i, terms.n_units, &mut ws);
        w.push(one);
    }
    w
}

/// Every row's magnitude.
fn magnitudes_of<C: CoeffRepr>(terms: &SoaTermSum<C>) -> (m: Vec<C::Real>)
    requires
        terms.wf(),
    ensures
        m@.len() == terms.row_lists().len(),
        forall|i: int|
            0 <= i < m@.len() ==> #[trigger] m@[i] == terms.coeff_seq()[i].magnitude_of(),
{
    let n: usize = terms.coeffs.len();
    let mut m: Vec<C::Real> = Vec::new();
    while m.len() < n
        invariant
            n == terms.coeffs@.len(),
            m@.len() <= n,
            forall|i: int|
                0 <= i < m@.len() ==> #[trigger] m@[i] == terms.coeff_seq()[i].magnitude_of(),
        decreases n - m@.len(),
    {
        let i: usize = m.len();
        m.push(terms.coeffs[i].magnitude());
    }
    m
}

/// A plugin's verdict on every row, as one batch if it takes one and row by row otherwise.
fn native_keep_flags<B: SoaBasis, R: Copy, K: TruncationKernel<R>>(
    weights: &Vec<u32>,
    magnitudes: &Vec<R>,
    n_units: usize,
    kernel: &K,
) -> (flags: Vec<u32>)
    requires
        weights@.len() == magnitudes@.len(),
    ensures
        flags@.len() == weights@.len(),
        forall|i: int|
            0 <= i < flags@.len() ==> #[trigger] flags@[i] == flag_of(
                kernel.keeps(
                    B::kind_of(),
                    Seq::<u64>::empty(),
                    n_units as nat,
                    weights@[i],
                    magnitudes@[i],
                ),
            ),
{
    let no_words: [u64; 0] = [];
    let n: usize = weights.len();
    proof {
        assert(no_words@ =~= Seq::<u64>::empty());
        assert(weights@.len() * 0 == 0) by (nonlinear_arith);
        assert forall|i: int| 0 <= i < n implies #[trigger] term_kernel::batch_words(
            no_words@,
            0,
            i,
        ) == Seq::<u64>::empty() by {
            assert(i * 0 == 0) by (nonlinear_arith);
            assert(term_kernel::batch_words(no_words@, 0, i) =~= Seq::<u64>::empty());
        }
    }
    let verdict: Option<Vec<bool>> = kernel.keep_batch(
        B::kind(),
        no_words.as_slice(),
        0,
        weights.as_slice(),
        n_units,
        magnitudes.as_slice(),
    );
    let mut flags: Vec<u32> = Vec::new();
    match verdict {
        Some(keep) => {
            while flags.len() < n
                invariant
                    n == weights@.len(),
                    keep@.len() == n,
                    flags@.len() <= n,
                    forall|i: int| 0 <= i < flags@.len() ==> #[trigger] flags@[i] == flag_of(keep@[i]),
                decreases n - flags@.len(),
            {
                let i: usize = flags.len();
                flags.push(if keep[i] {
                    1
                } else {
                    0
                });
            }
            proof {
                assert forall|i: int| 0 <= i < flags@.len() implies #[trigger] flags@[i] == flag_of(
                    kernel.keeps(
                        B::kind_of(),
                        Seq::<u64>::empty(),
                        n_units as nat,
                        weights@[i],
                        magnitudes@[i],
                    ),
                ) by {
                    assert(flags@[i] == flag_of(keep@[i]));
                    assert(term_kernel::batch_words(no_words@, 0, i) == Seq::<u64>::empty());
                }
            }
        },
        None => {
            while flags.len() < n
                invariant
                    n == weights@.len(),
                    n == magnitudes@.len(),
                    no_words@ == Seq::<u64>::empty(),
                    flags@.len() <= n,
                    forall|i: int|
                        0 <= i < flags@.len() ==> #[trigger] flags@[i] == flag_of(
                            kernel.keeps(
                                B::kind_of(),
                                Seq::<u64>::empty(),
                                n_units as nat,
                                weights@[i],
                                magnitudes@[i],
                            ),
                        ),
                decreases n - flags@.len(),
            {
                let i: usize = flags.len();
                let view = TermView {
                    basis_kind: B::kind(),
                    words: no_words.as_slice(),
                    n_units,
                    weight: weights[i],
                };
                let keep: bool = kernel.keep(view, magnitudes[i]);
                flags.push(if keep {
                    1
                } else {
                    0
                });
            }
        },
    }
    flags
}

/// Which rows the configuration keeps.
fn keep_flags<B: SoaBasis, C: CoeffRepr, K: TruncationKernel<C::Real>>(
    terms: &SoaTermSum<C>,
    cfg: &ResolvedConfig<C::Real, K>,
) -> (flags: Vec<u32>)
    requires
        terms.wf(),
    ensures
        flags@ == kept_flags::<B, C, K>(*cfg, *terms),
{
    let weights: Vec<u32> = weights_of::<B, C>(terms);
    if let Some(kernel) = &cfg.native {
        let magnitudes: Vec<C::Real> = magnitudes_of(terms);
        let flags: Vec<u32> = native_keep_flags::<B, C::Real, K>(
            &weights,
            &magnitudes,
            terms.n_units,
            kernel,
        );
        proof {
            assert(flags@ =~= kept_flags::<B, C, K>(*cfg, *terms));
        }
        return flags;
    }
    let cc: C::Real = match cfg.coefficient {
        Some(c) => c,
        None => C::real_unit(0),
    };
    let n: usize = terms.len();
    let mut flags: Vec<u32> = Vec::new();
    while flags.len() < n
        invariant
            terms.wf(),
            n == terms.row_lists().len(),
            weights@.len() == n,
            cfg.native is None,
            cc == (match cfg.coefficient {
                Some(c) => c,
                None => C::unit(0),
            }),
            forall|i: int|
                0 <= i < n ==> #[trigger] weights@[i] == B::weight_of(terms.key(i), terms.units()),
            flags@.len() <= n,
            forall|i: int|
                0 <= i < flags@.len() ==> #[trigger] flags@[i] == kept_flags::<B, C, K>(
                    *cfg,
                    *terms,
                )[i],
        decreases n - flags@.len(),
    {
        let i: usize = flags.len();
        let light: bool = match cfg.weight {
            Some(w) => weights[i] <= w,
            None => true,
        };
        let keep: bool = light && terms.coeffs[i].passes_coeff_cutoff(cc);
        flags.push(if keep {
            1
        } else {
            0
        });
    }
    proof {
        assert(flags@ =~= kept_flags::<B, C, K>(*cfg, *terms));
    }
    flags
}

/// Rows that the merge tables know stay covered, whatever is flagged.
proof fn lemma_indexed_covered<B: SoaBasis, C: CoeffRepr>(terms: SoaTermSum<C>, flags: Seq<u32>)
    requires
        terms.wf(),
        terms.indexed::<B>(),
        flags.len() == terms.row_lists().len(),
    ensures
        covered::<B, C>(terms, flags),
{
    if terms.merge_synced_len > 0 {
        assert forall|b: int| 0 <= b < terms.batches implies covers(
            #[trigger] terms.merge_tables@[b],
            b,
            terms.batches as nat,
            terms.hashes@,
            flags,
            terms.merge_synced_len as int,
        ) by {
            assert(store::tabled(
                terms.merge_tables@[b],
                b,
                terms.batches as nat,
                terms.hashes@,
                terms.merge_synced_len as int,
            ));
        }
    }
}

/// Drops every term the configuration does not keep.
pub fn truncate<B: SoaBasis, C: CoeffRepr, K: TruncationKernel<C::Real>>(
    terms: &mut SoaTermSum<C>,
    cfg: &ResolvedConfig<C::Real, K>,
)
    requires
        old(terms).wf(),
        old(terms).indexed::<B>(),
    ensures
        final(terms).wf(),
        final(terms).indexed::<B>(),
        final(terms).same_setup(*old(terms)),
        ({
            let flags = kept_flags::<B, C, K>(*cfg, *old(terms));
            &&& final(terms).row_lists() == sparse::flagged(
                old(terms).row_lists(),
                flags,
                flags.len() as int,
            )
            &&& final(terms).coeff_seq() == sparse::flagged(
                old(terms).coeff_seq(),
                flags,
                flags.len() as int,
            )
            &&& final(terms).synced() == sparse::rank(flags, old(terms).synced() as int)
        }),
        forall|j: int|
            0 <= j < final(terms).row_lists().len() && cfg.native is None && cfg.weight is Some
                ==> B::weight_of(#[trigger] final(terms).key(j), final(terms).units())
                <= cfg.weight->0,
        forall|j: int|
            0 <= j < final(terms).row_lists().len() && cfg.native is None && cfg.coefficient is Some
                ==> (#[trigger] final(terms).coeff_seq()[j]).reaches(cfg.coefficient->0),
{
    let ghost before = *terms;
    let flags: Vec<u32> = keep_flags::<B, C, K>(terms, cfg);
    proof {
        lemma_indexed_covered::<B, C>(*terms, flags@);
    }
    compact::<B, C>(terms, &flags);
    proof {
        assert forall|j: int|
            0 <= j < terms.row_lists().len() && cfg.native is None && cfg.weight
                is Some implies B::weight_of(#[trigger] terms.key(j), terms.units())
            <= cfg.weight->0 by {
            column_laws::law_truncation_bounds::<B, C, K>(*cfg, before, *terms, j);
        }
        assert forall|j: int|
            0 <= j < terms.row_lists().len() && cfg.native is None && cfg.coefficient
                is Some implies (#[trigger] terms.coeff_seq()[j]).reaches(cfg.coefficient->0) by {
            column_laws::law_truncation_bounds::<B, C, K>(*cfg, before, *terms, j);
        }
    }
}

/// `keep` may answer `flag` of a row.
pub open spec fn row_answer<C, F: Fn(&[Position], &C) -> bool>(
    keep: F,
    row: Seq<u32>,
    c: C,
    flag: u32,
) -> bool {
    exists|s: &[Position], b: bool|
        s@ == row && #[trigger] call_ensures(keep, (s, &c), b) && flag == flag_of(b)
}

/// The scalars the coefficients are made of, added up to the largest `u128`.
pub open spec fn size_sum<C: CoeffRepr>(coeffs: Seq<C>) -> u128 {
    termsum::saturating_sum(Seq::new(coeffs.len(), |i: int| coeffs[i].size()))
}

/// Maps every coefficient, keeps the rows that `keep` then keeps, and returns how many scalars
/// the survivors are made of.
pub fn map_retain<
    B: SoaBasis,
    C: CoeffRepr,
    F: Fn(&C) -> C,
    G: Fn(&[Position], &C) -> bool,
>(terms: &mut SoaTermSum<C>, map_fn: F, keep: G) -> (size: u128)
    requires
        old(terms).wf(),
        old(terms).indexed::<B>(),
        forall|c: &C| call_requires(map_fn, (c,)),
        forall|s: &[Position], c: &C| call_requires(keep, (s, c)),
    ensures
        final(terms).wf(),
        final(terms).indexed::<B>(),
        final(terms).same_setup(*old(terms)),
        size == size_sum(final(terms).coeff_seq()),
        exists|mapped: Seq<C>, flags: Seq<u32>|
            #![trigger sparse::flagged(mapped, flags, flags.len() as int)]
            {
                let n = old(terms).row_lists().len() as int;
                &&& mapped.len() == n
                &&& flags.len() == n
                &&& forall|i: int|
                    0 <= i < n ==> call_ensures(
                        map_fn,
                        (&old(terms).coeff_seq()[i],),
                        #[trigger] mapped[i],
                    )
                &&& forall|i: int|
                    0 <= i < n ==> row_answer(
                        keep,
                        old(terms).row_lists()[i],
                        mapped[i],
                        #[trigger] flags[i],
                    )
                &&& final(terms).row_lists() == sparse::flagged(old(terms).row_lists(), flags, n)
                &&& final(terms).coeff_seq() == sparse::flagged(mapped, flags, n)
            },
{
    let n: usize = terms.len();
    let ghost before = *terms;
    let mut mapped: Vec<C> = Vec::new();
    while mapped.len() < n
        invariant
            n == terms.coeffs@.len(),
            *terms == before,
            mapped@.len() <= n,
            forall|c: &C| call_requires(map_fn, (c,)),
            forall|i: int|
                0 <= i < mapped@.len() ==> call_ensures(
                    map_fn,
                    (&before.coeffs@[i],),
                    #[trigger] mapped@[i],
                ),
        decreases n - mapped@.len(),
    {
        let i: usize = mapped.len();
        let c: C = map_fn(&terms.coeffs[i]);
        mapped.push(c);
    }
    let mut flags: Vec<u32> = Vec::new();
    while flags.len() < n
        invariant
            terms.wf(),
            n == terms.row_lists().len(),
            *terms == before,
            mapped@.len() == n,
            flags@.len() <= n,
            forall|s: &[Position], c: &C| call_requires(keep, (s, c)),
            forall|i: int|
                0 <= i < flags@.len() ==> row_answer(
                    keep,
                    before.row_lists()[i],
                    mapped@[i],
                    #[trigger] flags@[i],
                ) && (flags@[i] == 0 || flags@[i] == 1),
        decreases n - flags@.len(),
    {
        let i: usize = flags.len();
        let row: &[Position] = terms.rows.row(i);
        let b: bool = keep(row, &mapped[i]);
        proof {
            assert(call_ensures(keep, (row, &mapped@[i as int]), b));
        }
        flags.push(if b {
            1
        } else {
            0
        });
    }
    let ghost chosen = mapped@;
    terms.coeffs = mapped;
    terms.coeffs.reserve(terms.coeff_room - terms.coeffs.len());
    proof {
        lemma_indexed_covered::<B, C>(*terms, flags@);
    }
    compact::<B, C>(terms, &flags);
    proof {
        assert(terms.coeff_seq() == sparse::flagged(chosen, flags@, flags@.len() as int));
    }
    total_size(terms)
}

/// The scalars the coefficients are made of, added up.
fn total_size<C: CoeffRepr>(terms: &SoaTermSum<C>) -> (size: u128)
    ensures
        size == size_sum(terms.coeff_seq()),
{
    let mut size: u128 = 0;
    let mut i: usize = 0;
    let ghost all = Seq::new(terms.coeffs@.len(), |i: int| terms.coeffs@[i].size());
    proof {
        assert(all.take(0) =~= Seq::<u128>::empty());
    }
    while i < terms.coeffs.len()
        invariant
            i <= terms.coeffs@.len(),
            all == Seq::new(terms.coeffs@.len(), |i: int| terms.coeffs@[i].size()),
            size == termsum::saturating_sum(all.take(i as int)),
        decreases terms.coeffs@.len() - i,
    {
        proof {
            assert(all.take(i + 1).drop_last() =~= all.take(i as int));
        }
        size = size.saturating_add(terms.coeffs[i].size_hint());
        i += 1;
    }
    proof {
        assert(all.take(all.len() as int) =~= all);
    }
    size
}

/// What folding `fold` over the first `n` coefficients may give, starting from `start`.
pub open spec fn folded<C, T, F: Fn(T, &C) -> T>(
    fold: F,
    coeffs: Seq<C>,
    start: T,
    n: int,
    end: T,
) -> bool
    decreases n,
{
    if n <= 0 {
        end == start
    } else {
        exists|mid: T|
            folded(fold, coeffs, start, n - 1, mid) && #[trigger] call_ensures(
                fold,
                (mid, &coeffs[n - 1]),
                end,
            )
    }
}

/// `end` may come of folding the coefficients, in row order, and combining the result with the
/// identity.
pub open spec fn fold_answer<C, T, ID: Fn() -> T, F: Fn(T, &C) -> T, R: Fn(T, T) -> T>(
    identity: ID,
    fold: F,
    combine: R,
    coeffs: Seq<C>,
    end: T,
) -> bool {
    exists|start: T, unit: T, acc: T|
        #![trigger folded(fold, coeffs, start, coeffs.len() as int, acc), call_ensures(combine, (unit, acc), end)]
        {
            &&& call_ensures(identity, (), start)
            &&& call_ensures(identity, (), unit)
            &&& folded(fold, coeffs, start, coeffs.len() as int, acc)
            &&& call_ensures(combine, (unit, acc), end)
        }
}

/// Folds `fold` over the coefficients, in row order, and combines the result with the identity.
pub fn fold_coeffs<C: CoeffRepr, T, ID: Fn() -> T, F: Fn(T, &C) -> T, R: Fn(T, T) -> T>(
    terms: &SoaTermSum<C>,
    identity: ID,
    fold: F,
    combine: R,
) -> (end: T)
    requires
        terms.wf(),
        call_requires(identity, ()),
        forall|t: T, c: &C| call_requires(fold, (t, c)),
        forall|t: T, u: T| call_requires(combine, (t, u)),
    ensures
        fold_answer(identity, fold, combine, terms.coeff_seq(), end),
{
    let mut acc: T = identity();
    let ghost first = acc;
    let mut i: usize = 0;
    while i < terms.coeffs.len()
        invariant
            i <= terms.coeffs@.len(),
            forall|t: T, c: &C| call_requires(fold, (t, c)),
            folded(fold, terms.coeffs@, first, i as int, acc),
        decreases terms.coeffs@.len() - i,
    {
        let ghost mid = acc;
        acc = fold(acc, &terms.coeffs[i]);
        i += 1;
        proof {
            assert(folded(fold, terms.coeffs@, first, i - 1, mid));
            assert(call_ensures(fold, (mid, &terms.coeffs@[i - 1]), acc));
        }
    }
    let ghost folded_acc = acc;
    let unit: T = identity();
    let ghost u = unit;
    let end: T = combine(unit, acc);
    proof {
        assert(call_ensures(combine, (u, folded_acc), end));
    }
    end
}

/// The sum of `f` over the coefficients. It stops at the largest `u128`.
pub fn sum_coeffs<C: CoeffRepr, F: Fn(&C) -> u128>(terms: &SoaTermSum<C>, f: F) -> (total: u128)
    requires
        terms.wf(),
        forall|c: &C| call_requires(f, (c,)),
    ensures
        exists|each: Seq<u128>|
            each.len() == terms.coeff_seq().len() && (forall|i: int|
                0 <= i < each.len() ==> call_ensures(
                    f,
                    (&terms.coeff_seq()[i],),
                    #[trigger] each[i],
                )) && total == #[trigger] termsum::saturating_sum(each),
{
    let mut total: u128 = 0;
    let mut i: usize = 0;
    let ghost mut each: Seq<u128> = Seq::empty();
    while i < terms.coeffs.len()
        invariant
            i <= terms.coeffs@.len(),
            forall|c: &C| call_requires(f, (c,)),
            each.len() == i,
            forall|j: int|
                0 <= j < each.len() ==> call_ensures(f, (&terms.coeffs@[j],), #[trigger] each[j]),
            total == termsum::saturating_sum(each),
        decreases terms.coeffs@.len() - i,
    {
        let one: u128 = f(&terms.coeffs[i]);
        total = total.saturating_add(one);
        proof {
            assert(each.push(one).drop_last() =~= each);
            each = each.push(one);
        }
        i += 1;
    }
    total
}

/// No earlier row equals row `i`.
pub open spec fn first(rows: Seq<Seq<u32>>, i: int) -> bool {
    forall|j: int| 0 <= j < i ==> #[trigger] rows[j] != rows[i]
}

/// Row `i`'s coefficient with those of the equal rows after it, up to row `n`, added in order.
pub open spec fn gathered<C: CoeffRepr>(rows: Seq<Seq<u32>>, coeffs: Seq<C>, i: int, n: int) -> C
    decreases n - i,
{
    if n <= i + 1 {
        coeffs[i]
    } else {
        let sum = gathered(rows, coeffs, i, n - 1);
        if rows[n - 1] == rows[i] {
            sum.sum(coeffs[n - 1]).settled()
        } else {
            sum
        }
    }
}

/// Which rows are the first of their key.
pub open spec fn first_flags(rows: Seq<Seq<u32>>) -> Seq<u32> {
    Seq::new(rows.len(), |i: int| flag_of(first(rows, i)))
}

/// Every row's coefficient once the equal rows after it are added.
pub open spec fn gathered_all<C: CoeffRepr>(rows: Seq<Seq<u32>>, coeffs: Seq<C>) -> Seq<C> {
    Seq::new(rows.len(), |i: int| gathered(rows, coeffs, i, rows.len() as int))
}

/// Rows unlike row `x` leave its sum alone.
pub proof fn lemma_gathered_same<C: CoeffRepr>(
    rows: Seq<Seq<u32>>,
    coeffs: Seq<C>,
    x: int,
    a: int,
    b: int,
)
    requires
        a <= b,
        forall|j: int| x < j && a <= j < b ==> #[trigger] rows[j] != rows[x],
    ensures
        gathered(rows, coeffs, x, a) == gathered(rows, coeffs, x, b),
    decreases b - a,
{
    if a < b {
        lemma_gathered_same(rows, coeffs, x, a, b - 1);
        if b > x + 1 {
            assert(rows[b - 1] != rows[x]);
        }
    }
}

/// What a merge reads and does not change: the rows, their hashes, the coefficients it began
/// with, how many batches there are, and how many rows the tables knew.
pub ghost struct Merge<C> {
    pub rows: Seq<Seq<u32>>,
    pub hashes: Seq<u64>,
    pub start: Seq<C>,
    pub batches: nat,
    pub synced: int,
}

impl<C: CoeffRepr> Merge<C> {
    /// Row `x`'s batch.
    pub open spec fn batch(self, x: int) -> int {
        store::batch_of(self.hashes[x], self.batches)
    }

    /// Row `x` is in the tables, or has been merged, once batch `b` has come to row `i`.
    pub open spec fn done(self, x: int, b: int, i: int) -> bool {
        x < self.synced || self.batch(x) < b || (self.batch(x) == b && x < i)
    }

    /// How far the rows have been added to row `x`.
    pub open spec fn limit(self, x: int, b: int, i: int) -> int {
        if self.batch(x) < b {
            self.rows.len() as int
        } else if self.batch(x) == b {
            i
        } else {
            0
        }
    }

    /// The first rows are different, and equal rows have equal hashes.
    pub open spec fn sound(self) -> bool {
        &&& self.batches > 0
        &&& 0 <= self.synced <= self.rows.len() <= usize::MAX
        &&& self.hashes.len() >= self.rows.len()
        &&& self.start.len() == self.rows.len()
        &&& store::distinct_rows(self.rows, self.synced)
        &&& forall|x: int, y: int|
            0 <= x < self.rows.len() && 0 <= y < self.rows.len() && #[trigger] self.rows[x]
                == #[trigger] self.rows[y] ==> self.hashes[x] == self.hashes[y]
    }

    /// Row `x`'s flag and coefficient are what they are to be once batch `b` has come to row
    /// `i`.
    pub open spec fn settled_at(
        self,
        x: int,
        b: int,
        i: int,
        coeffs: Seq<C>,
        flags: Seq<u32>,
    ) -> bool {
        &&& flags[x] == flag_of(!self.done(x, b, i) || first(self.rows, x))
        &&& coeffs[x] == if first(self.rows, x) {
            gathered(self.rows, self.start, x, self.limit(x, b, i))
        } else {
            self.start[x]
        }
    }

    /// Table `t` holds the first rows of their keys that belong to batch `t` and are done.
    pub open spec fn table_at(self, t: int, table: MergeTable, b: int, i: int) -> bool {
        forall|x: usize, h: u64| #[trigger]
            store::table_entries(table).contains((x, h)) <==> (x < self.rows.len() && h
                == self.hashes[x as int] && self.batch(x as int) == t && first(
                self.rows,
                x as int,
            ) && self.done(x as int, b, i))
    }

    /// Where things stand once batch `b` has come to row `i`.
    pub open spec fn midway(
        self,
        b: int,
        i: int,
        coeffs: Seq<C>,
        flags: Seq<u32>,
        tables: Seq<MergeTable>,
    ) -> bool {
        &&& coeffs.len() == self.rows.len()
        &&& flags.len() == self.rows.len()
        &&& tables.len() == self.batches
        &&& forall|x: int|
            0 <= x < self.rows.len() ==> #[trigger] self.settled_at(x, b, i, coeffs, flags)
        &&& forall|t: int|
            0 <= t < self.batches ==> self.table_at(t, #[trigger] tables[t], b, i)
    }

    /// Every row's batch is one there is.
    pub proof fn lemma_batch(self, x: int)
        requires
            self.sound(),
        ensures
            0 <= self.batch(x) < self.batches,
    {
    }

    /// Once batch `b` has come to an end, so has the start of batch `b + 1`.
    proof fn lemma_next_batch(
        self,
        b: int,
        coeffs: Seq<C>,
        flags: Seq<u32>,
        tables: Seq<MergeTable>,
    )
        requires
            self.sound(),
            self.midway(b, self.rows.len() as int, coeffs, flags, tables),
        ensures
            self.midway(b + 1, self.synced, coeffs, flags, tables),
    {
        let n = self.rows.len() as int;
        assert forall|x: int| 0 <= x < n implies #[trigger] self.settled_at(
            x,
            b + 1,
            self.synced,
            coeffs,
            flags,
        ) by {
            assert(self.settled_at(x, b, n, coeffs, flags));
            assert(self.done(x, b, n) == self.done(x, b + 1, self.synced));
            if first(self.rows, x) && self.batch(x) == b + 1 {
                assert forall|j: int| x < j && 0 <= j < self.synced implies #[trigger] self.rows[j]
                    != self.rows[x] by {
                    assert(self.rows[x] != self.rows[j]);
                }
                lemma_gathered_same(self.rows, self.start, x, 0, self.synced);
            }
        }
        assert forall|t: int| 0 <= t < self.batches implies self.table_at(
            t,
            #[trigger] tables[t],
            b + 1,
            self.synced,
        ) by {
            assert(self.table_at(t, tables[t], b, n));
            assert forall|x: usize, h: u64| #[trigger]
                store::table_entries(tables[t]).contains((x, h)) <==> (x < self.rows.len() && h
                    == self.hashes[x as int] && self.batch(x as int) == t && first(
                    self.rows,
                    x as int,
                ) && self.done(x as int, b + 1, self.synced)) by {
                if x < n {
                    assert(self.done(x as int, b, n) == self.done(x as int, b + 1, self.synced));
                }
            }
        }
    }

    /// A row of another batch leaves everything as it is.
    proof fn lemma_other_row(
        self,
        b: int,
        i: int,
        coeffs: Seq<C>,
        flags: Seq<u32>,
        tables: Seq<MergeTable>,
    )
        requires
            self.sound(),
            self.synced <= i < self.rows.len(),
            self.batch(i) != b,
            self.midway(b, i, coeffs, flags, tables),
        ensures
            self.midway(b, i + 1, coeffs, flags, tables),
    {
        let n = self.rows.len() as int;
        assert forall|x: int| 0 <= x < n implies #[trigger] self.settled_at(
            x,
            b,
            i + 1,
            coeffs,
            flags,
        ) by {
            assert(self.settled_at(x, b, i, coeffs, flags));
            assert(self.done(x, b, i) == self.done(x, b, i + 1));
            if self.batch(x) == b {
                assert(self.rows[i] != self.rows[x]);
                lemma_gathered_same(self.rows, self.start, x, i, i + 1);
            }
        }
        assert forall|t: int| 0 <= t < self.batches implies self.table_at(
            t,
            #[trigger] tables[t],
            b,
            i + 1,
        ) by {
            assert(self.table_at(t, tables[t], b, i));
            assert forall|x: usize, h: u64| #[trigger]
                store::table_entries(tables[t]).contains((x, h)) <==> (x < self.rows.len() && h
                    == self.hashes[x as int] && self.batch(x as int) == t && first(
                    self.rows,
                    x as int,
                ) && self.done(x as int, b, i + 1)) by {
                if x < n {
                    assert(self.done(x as int, b, i) == self.done(x as int, b, i + 1));
                }
            }
        }
    }

    /// A row that the table knows is added to the one it equals.
    proof fn lemma_known_row(
        self,
        b: int,
        i: int,
        y: int,
        coeffs: Seq<C>,
        flags: Seq<u32>,
        tables: Seq<MergeTable>,
        after: Seq<MergeTable>,
    )
        requires
            self.sound(),
            self.synced <= i < self.rows.len(),
            self.batch(i) == b,
            0 <= y < i,
            self.midway(b, i, coeffs, flags, tables),
            first(self.rows, y),
            self.rows[y] == self.rows[i],
            after.len() == tables.len(),
            forall|t: int|
                0 <= t < tables.len() ==> store::table_entries(#[trigger] after[t])
                    == store::table_entries(tables[t]),
        ensures
            self.midway(
                b,
                i + 1,
                coeffs.update(y, coeffs[y].sum(coeffs[i]).settled()),
                flags.update(i, 0),
                after,
            ),
    {
        let n = self.rows.len() as int;
        let now = coeffs.update(y, coeffs[y].sum(coeffs[i]).settled());
        let raised = flags.update(i, 0);
        assert(self.settled_at(y, b, i, coeffs, flags));
        assert(self.settled_at(i, b, i, coeffs, flags));
        assert(!first(self.rows, i));
        assert(self.hashes[y] == self.hashes[i]);
        assert forall|x: int| 0 <= x < n implies #[trigger] self.settled_at(
            x,
            b,
            i + 1,
            now,
            raised,
        ) by {
            assert(self.settled_at(x, b, i, coeffs, flags));
            if x != i {
                assert(self.done(x, b, i) == self.done(x, b, i + 1));
            }
            if first(self.rows, x) && x != y && self.batch(x) == b {
                if x < y {
                    assert(self.rows[x] != self.rows[y]);
                } else {
                    assert(self.rows[y] != self.rows[x]);
                }
                lemma_gathered_same(self.rows, self.start, x, i, i + 1);
            }
        }
        assert forall|t: int| 0 <= t < self.batches implies self.table_at(
            t,
            #[trigger] after[t],
            b,
            i + 1,
        ) by {
            assert(self.table_at(t, tables[t], b, i));
            assert forall|x: usize, h: u64| #[trigger]
                store::table_entries(after[t]).contains((x, h)) <==> (x < self.rows.len() && h
                    == self.hashes[x as int] && self.batch(x as int) == t && first(
                    self.rows,
                    x as int,
                ) && self.done(x as int, b, i + 1)) by {
                if x < n && x != i {
                    assert(self.done(x as int, b, i) == self.done(x as int, b, i + 1));
                }
                assert(store::table_entries(tables[t]).contains((x, h))
                    == store::table_entries(after[t]).contains((x, h)));
            }
        }
    }

    /// A row that the table does not know is the first of its key.
    proof fn lemma_fresh_row(
        self,
        b: int,
        i: int,
        coeffs: Seq<C>,
        flags: Seq<u32>,
        tables: Seq<MergeTable>,
        after: Seq<MergeTable>,
    )
        requires
            self.sound(),
            self.synced <= i < self.rows.len(),
            self.batch(i) == b,
            self.midway(b, i, coeffs, flags, tables),
            after.len() == tables.len(),
            0 <= b < tables.len(),
            forall|x: usize| #[trigger]
                store::table_entries(tables[b]).contains((x, self.hashes[i]))
                    ==> self.rows[x as int] != self.rows[i],
            store::table_entries(after[b]) == store::table_entries(tables[b]).insert(
                (i as usize, self.hashes[i]),
            ),
            forall|t: int|
                0 <= t < tables.len() && t != b ==> #[trigger] after[t] == tables[t],
        ensures
            self.midway(b, i + 1, coeffs, flags, after),
    {
        let n = self.rows.len() as int;
        assert(self.table_at(b, tables[b], b, i));
        assert(self.settled_at(i, b, i, coeffs, flags));
        if !first(self.rows, i) {
            self.lemma_least(i);
            let y = choose|y: int|
                0 <= y < i && first(self.rows, y) && #[trigger] self.rows[y] == self.rows[i];
            assert(self.hashes[y] == self.hashes[i]);
            let x = y as usize;
            assert(store::table_entries(tables[b]).contains((x, self.hashes[i])));
        }
        assert(first(self.rows, i));
        assert forall|x: int| 0 <= x < n implies #[trigger] self.settled_at(
            x,
            b,
            i + 1,
            coeffs,
            flags,
        ) by {
            assert(self.settled_at(x, b, i, coeffs, flags));
            if x != i {
                assert(self.done(x, b, i) == self.done(x, b, i + 1));
            }
            if first(self.rows, x) && self.batch(x) == b {
                if x < i {
                    assert(self.rows[x] != self.rows[i]);
                }
                lemma_gathered_same(self.rows, self.start, x, i, i + 1);
            }
        }
        assert forall|t: int| 0 <= t < self.batches implies self.table_at(
            t,
            #[trigger] after[t],
            b,
            i + 1,
        ) by {
            assert(self.table_at(t, tables[t], b, i));
            assert forall|x: usize, h: u64| #[trigger]
                store::table_entries(after[t]).contains((x, h)) <==> (x < self.rows.len() && h
                    == self.hashes[x as int] && self.batch(x as int) == t && first(
                    self.rows,
                    x as int,
                ) && self.done(x as int, b, i + 1)) by {
                let was = store::table_entries(tables[t]).contains((x, h));
                if x < n && x != i {
                    assert(self.done(x as int, b, i) == self.done(x as int, b, i + 1));
                }
                if t == b {
                    assert(store::table_entries(after[t]).contains((x, h)) == (was || (x == i && h
                        == self.hashes[i])));
                }
            }
        }
    }

    /// A row that is not the first of its key has a first row before it.
    proof fn lemma_least(self, i: int)
        requires
            0 <= i < self.rows.len(),
            !first(self.rows, i),
        ensures
            exists|y: int|
                0 <= y < i && first(self.rows, y) && #[trigger] self.rows[y] == self.rows[i],
        decreases i,
    {
        let j = choose|j: int| 0 <= j < i && #[trigger] self.rows[j] == self.rows[i];
        if !first(self.rows, j) {
            self.lemma_least(j);
            let y = choose|y: int|
                0 <= y < j && first(self.rows, y) && #[trigger] self.rows[y] == self.rows[j];
            assert(0 <= y < i && first(self.rows, y) && self.rows[y] == self.rows[i]);
        }
    }

    /// Once the last batch is done, everything is as it is to be.
    proof fn lemma_finished(
        self,
        i: int,
        coeffs: Seq<C>,
        flags: Seq<u32>,
        tables: Seq<MergeTable>,
    )
        requires
            self.sound(),
            self.midway(self.batches as int, i, coeffs, flags, tables),
        ensures
            flags == first_flags(self.rows),
            sparse::flagged(coeffs, flags, flags.len() as int) == sparse::flagged(
                gathered_all(self.rows, self.start),
                flags,
                flags.len() as int,
            ),
            forall|x: int|
                0 <= x < self.rows.len() && flags[x] != 0 ==> #[trigger] coeffs[x] == gathered_all(
                    self.rows,
                    self.start,
                )[x],
            forall|t: int|
                0 <= t < self.batches ==> covers(
                    #[trigger] tables[t],
                    t,
                    self.batches,
                    self.hashes,
                    flags,
                    self.rows.len() as int,
                ),
            distinct_flagged(self.rows, flags, self.rows.len() as int),
    {
        let n = self.rows.len() as int;
        let all = gathered_all(self.rows, self.start);
        assert forall|x: int| 0 <= x < n implies #[trigger] flags[x] == first_flags(self.rows)[x] by {
            self.lemma_batch(x);
            assert(self.settled_at(x, self.batches as int, i, coeffs, flags));
        }
        assert forall|x: int| 0 <= x < n && flags[x] != 0 implies #[trigger] coeffs[x] == all[x] by {
            self.lemma_batch(x);
            assert(self.settled_at(x, self.batches as int, i, coeffs, flags));
        }
        assert(flags =~= first_flags(self.rows));
        lemma_flagged_same(coeffs, all, flags, n);
        assert forall|t: int| 0 <= t < self.batches implies covers(
            #[trigger] tables[t],
            t,
            self.batches,
            self.hashes,
            flags,
            n,
        ) by {
            assert(self.table_at(t, tables[t], self.batches as int, i));
            assert forall|x: usize|
                x < n && flags[x as int] != 0 && store::batch_of(
                    self.hashes[x as int],
                    self.batches,
                ) == t implies #[trigger] store::table_entries(tables[t]).contains(
                (x, self.hashes[x as int]),
            ) by {
                assert(first(self.rows, x as int));
                assert(self.batch(x as int) == t);
                assert(self.done(x as int, self.batches as int, i));
            }
        }
    }
}

/// Two columns that agree where the flags are raised have the same flagged entries.
proof fn lemma_flagged_same<T>(a: Seq<T>, b: Seq<T>, flags: Seq<u32>, n: int)
    requires
        0 <= n <= a.len(),
        n <= b.len(),
        n <= flags.len(),
        forall|x: int| 0 <= x < n && flags[x] != 0 ==> #[trigger] a[x] == b[x],
    ensures
        sparse::flagged(a, flags, n) == sparse::flagged(b, flags, n),
    decreases n,
{
    if n > 0 {
        lemma_flagged_same(a, b, flags, n - 1);
        if flags[n - 1] != 0 {
            assert(a[n - 1] == b[n - 1]);
        }
    }
}

/// Works out the merge hash of every row the tables do not know yet.
fn hash_new_rows<B: SoaBasis, C: CoeffRepr>(terms: &mut SoaTermSum<C>)
    requires
        old(terms).wf(),
        old(terms).indexed::<B>(),
    ensures
        final(terms).wf(),
        final(terms).indexed::<B>(),
        final(terms).same_terms(*old(terms)),
        final(terms).same_setup(*old(terms)),
        final(terms).synced() == old(terms).synced(),
        final(terms).rows == old(terms).rows,
        final(terms).coeff_room == old(terms).coeff_room,
        final(terms).merge_tables == old(terms).merge_tables,
        final(terms).hashes@.len() == old(terms).row_lists().len(),
        forall|x: int|
            0 <= x < final(terms).hashes@.len() ==> #[trigger] final(terms).hashes@[x]
                == store::merge_hash::<B>(
                old(terms).layout,
                old(terms).row_lists()[x],
                2 * old(terms).span(),
            ),
{
    let n: usize = terms.len();
    let synced: usize = terms.merge_synced_len;
    let ghost before = *terms;
    proof {
        terms.rows.lemma_wf();
    }
    let mut ws: RowWorkspace = RowWorkspace::new(terms.layout, terms.rows.stride());
    terms.hashes.truncate(synced);
    while terms.hashes.len() < n
        invariant
            n == before.row_lists().len(),
            before.wf(),
            before.indexed::<B>(),
            synced == before.merge_synced_len,
            synced <= terms.hashes@.len() <= n,
            ws.fits(before.span()),
            ws.layout() == before.layout,
            terms.rows == before.rows,
            terms.coeffs == before.coeffs,
            terms.coeff_room == before.coeff_room,
            terms.merge_tables == before.merge_tables,
            terms.merge_synced_len == before.merge_synced_len,
            terms.batches == before.batches,
            terms.layout == before.layout,
            terms.n_units == before.n_units,
            forall|x: int|
                0 <= x < terms.hashes@.len() ==> #[trigger] terms.hashes@[x] == store::merge_hash::<B>(
                    before.layout,
                    before.row_lists()[x],
                    2 * before.span(),
                ),
            forall|x: int| 0 <= x < synced ==> #[trigger] terms.hashes@[x] == before.hashes@[x],
        decreases n - terms.hashes@.len(),
    {
        let i: usize = terms.hashes.len();
        let h: u64 = row_key_hash::<B>(&terms.rows, i, &mut ws);
        terms.hashes.push(h);
    }
    proof {
        if synced > 0 {
            assert forall|b: int| 0 <= b < terms.batches implies store::tabled(
                #[trigger] terms.merge_tables@[b],
                b,
                terms.batches as nat,
                terms.hashes@,
                synced as int,
            ) by {
                assert(store::tabled(
                    before.merge_tables@[b],
                    b,
                    before.batches as nat,
                    before.hashes@,
                    synced as int,
                ));
                assert forall|x: usize, h: u64| #[trigger]
                    store::table_entries(terms.merge_tables@[b]).contains((x, h)) <==> (x < synced
                        && h == terms.hashes@[x as int] && store::batch_of(
                        h,
                        terms.batches as nat,
                    ) == b) by {
                    if x < synced {
                        assert(terms.hashes@[x as int] == before.hashes@[x as int]);
                    }
                }
            }
        }
    }
}

/// Empty tables, one for each batch.
fn fresh_tables(batches: usize) -> (tables: Vec<MergeTable>)
    ensures
        tables@.len() == batches,
        forall|t: int|
            0 <= t < batches ==> store::table_entries(#[trigger] tables@[t]) == Set::<
                (usize, u64),
            >::empty(),
{
    let mut tables: Vec<MergeTable> = Vec::new();
    while tables.len() < batches
        invariant
            tables@.len() <= batches,
            forall|t: int|
                0 <= t < tables@.len() ==> store::table_entries(#[trigger] tables@[t]) == Set::<
                    (usize, u64),
                >::empty(),
        decreases batches - tables@.len(),
    {
        tables.push(MergeTable::new());
    }
    tables
}

/// What a merge of `terms` reads.
spec fn merge_of<C: CoeffRepr>(terms: SoaTermSum<C>, hashes: Seq<u64>) -> Merge<C> {
    Merge {
        rows: terms.row_lists(),
        hashes,
        start: terms.coeff_seq(),
        batches: terms.batches as nat,
        synced: terms.merge_synced_len as int,
    }
}

/// Files row `i` in its batch's table, or adds it to the row it equals.
fn merge_row<C: CoeffRepr>(
    terms: &mut SoaTermSum<C>,
    b: usize,
    i: usize,
    flags: &mut Vec<u32>,
    m: Ghost<Merge<C>>,
) -> (known: bool)
    requires
        m@.sound(),
        m@.synced <= i < m@.rows.len(),
        b < m@.batches,
        m@.batch(i as int) == b,
        old(terms).rows.wf(),
        old(terms).rows.rows() == m@.rows,
        old(terms).hashes@ == m@.hashes,
        m@.midway(
            b as int,
            i as int,
            old(terms).coeffs@,
            old(flags)@,
            old(terms).merge_tables@,
        ),
    ensures
        final(terms).rows == old(terms).rows,
        final(terms).coeff_room == old(terms).coeff_room,
        final(terms).hashes == old(terms).hashes,
        final(terms).merge_synced_len == old(terms).merge_synced_len,
        final(terms).same_setup(*old(terms)),
        known == !first(m@.rows, i as int),
        m@.midway(
            b as int,
            i + 1,
            final(terms).coeffs@,
            final(flags)@,
            final(terms).merge_tables@,
        ),
{
    let h: u64 = terms.hashes[i];
    let ghost coeffs = terms.coeffs@;
    let ghost tables = terms.merge_tables@;
    proof {
        assert(m@.table_at(b as int, tables[b as int], b as int, i as int));
    }
    match terms.merge_tables[b].find_or_insert(h, i, &terms.rows, &terms.hashes) {
        Some(y) => {
            proof {
                let g = choose|g: u64| #[trigger]
                    store::table_entries(tables[b as int]).contains((y, g));
                assert(m@.table_at(b as int, tables[b as int], b as int, i as int));
                assert(y < i) by {
                    if y > i {
                        assert(m@.rows[i as int] != m@.rows[y as int]);
                    }
                }
                m@.lemma_known_row(
                    b as int,
                    i as int,
                    y as int,
                    coeffs,
                    flags@,
                    tables,
                    terms.merge_tables@,
                );
                assert(m@.rows[y as int] == m@.rows[i as int]);
            }
            let mut sum: C = terms.coeffs[y].duplicate();
            sum.add_assign(terms.coeffs[i].duplicate());
            sum.post_merge();
            terms.coeffs.set(y, sum);
            flags.set(i, 0);
            true
        },
        None => {
            proof {
                m@.lemma_fresh_row(
                    b as int,
                    i as int,
                    coeffs,
                    flags@,
                    tables,
                    terms.merge_tables@,
                );
                assert(m@.settled_at(i as int, b as int, i + 1, coeffs, flags@));
                assert(m@.settled_at(i as int, b as int, i as int, coeffs, flags@));
            }
            false
        },
    }
}

/// Merges the rows the tables do not know yet, one batch after another. A row that equals an
/// earlier one is added to it and its flag lowered.
fn merge_insert_batches<B: SoaBasis, C: CoeffRepr>(terms: &mut SoaTermSum<C>) -> (flags: Vec<u32>)
    requires
        old(terms).wf(),
        old(terms).indexed::<B>(),
    ensures
        final(terms).wf(),
        final(terms).rows == old(terms).rows,
        final(terms).same_setup(*old(terms)),
        final(terms).synced() == old(terms).row_lists().len(),
        flags@ == first_flags(old(terms).row_lists()),
        covered::<B, C>(*final(terms), flags@),
        forall|x: int|
            0 <= x < flags@.len() && flags@[x] != 0 ==> #[trigger] final(terms).coeff_seq()[x]
                == gathered_all(old(terms).row_lists(), old(terms).coeff_seq())[x],
{
    hash_new_rows::<B, C>(terms);
    let n: usize = terms.len();
    let synced: usize = terms.merge_synced_len;
    if synced == 0 {
        terms.merge_tables = fresh_tables(terms.batches);
    }
    let batches: usize = terms.batches;
    let ghost m = merge_of(*old(terms), terms.hashes@);
    let mut flags: Vec<u32> = Vec::new();
    while flags.len() < n
        invariant
            flags@.len() <= n,
            forall|x: int| 0 <= x < flags@.len() ==> #[trigger] flags@[x] == 1,
        decreases n - flags@.len(),
    {
        flags.push(1);
    }
    proof {
        assert(m.sound());
        assert forall|x: int| 0 <= x < n implies #[trigger] m.settled_at(
            x,
            0,
            synced as int,
            terms.coeffs@,
            flags@,
        ) by {
            m.lemma_batch(x);
            if x < synced {
                assert forall|j: int| 0 <= j < x implies #[trigger] m.rows[j] != m.rows[x] by {}
                assert(first(m.rows, x));
            }
            assert forall|j: int| x < j && 0 <= j < synced implies #[trigger] m.rows[j] != m.rows[x] by {
                assert(m.rows[x] != m.rows[j]);
            }
            lemma_gathered_same(m.rows, m.start, x, 0, synced as int);
        }
        assert forall|t: int| 0 <= t < m.batches implies m.table_at(
            t,
            #[trigger] terms.merge_tables@[t],
            0,
            synced as int,
        ) by {
            if synced > 0 {
                assert(store::tabled(
                    terms.merge_tables@[t],
                    t,
                    m.batches,
                    m.hashes,
                    synced as int,
                ));
            }
            assert forall|x: usize, h: u64| #[trigger]
                store::table_entries(terms.merge_tables@[t]).contains((x, h)) <==> (x < m.rows.len()
                    && h == m.hashes[x as int] && m.batch(x as int) == t && first(
                    m.rows,
                    x as int,
                ) && m.done(x as int, 0, synced as int)) by {
                m.lemma_batch(x as int);
                if x < synced {
                    assert forall|j: int| 0 <= j < x implies #[trigger] m.rows[j] != m.rows[x as int] by {}
                    assert(first(m.rows, x as int));
                }
            }
        }
    }
    let mut b: usize = 0;
    while b < batches
        invariant
            m == merge_of(*old(terms), terms.hashes@),
            m.sound(),
            old(terms).wf(),
            n == m.rows.len(),
            synced == m.synced,
            batches == m.batches,
            b <= batches,
            terms.rows == old(terms).rows,
            terms.coeff_room == old(terms).coeff_room,
            terms.merge_synced_len == synced,
            terms.same_setup(*old(terms)),
            m.midway(b as int, synced as int, terms.coeffs@, flags@, terms.merge_tables@),
        decreases batches - b,
    {
        let mut i: usize = synced;
        while i < n
            invariant
                m == merge_of(*old(terms), terms.hashes@),
                m.sound(),
                old(terms).wf(),
                n == m.rows.len(),
                synced == m.synced,
                batches == m.batches,
                b < batches,
                synced <= i <= n,
                terms.rows == old(terms).rows,
                terms.coeff_room == old(terms).coeff_room,
                terms.merge_synced_len == synced,
                terms.same_setup(*old(terms)),
                m.midway(b as int, i as int, terms.coeffs@, flags@, terms.merge_tables@),
            decreases n - i,
        {
            let home: u64 = (terms.hashes[i] >> 32) % (batches as u64);
            if home as usize == b {
                merge_row(terms, b, i, &mut flags, Ghost(m));
            } else {
                proof {
                    m.lemma_other_row(
                        b as int,
                        i as int,
                        terms.coeffs@,
                        flags@,
                        terms.merge_tables@,
                    );
                }
            }
            i += 1;
        }
        proof {
            m.lemma_next_batch(b as int, terms.coeffs@, flags@, terms.merge_tables@);
        }
        b += 1;
    }
    proof {
        m.lemma_finished(synced as int, terms.coeffs@, flags@, terms.merge_tables@);
    }
    terms.merge_synced_len = n;
    flags
}

/// The keys that a merge leaves: each row whose key no earlier row has.
pub open spec fn merged_rows(rows: Seq<Seq<u32>>) -> Seq<Seq<u32>> {
    sparse::flagged(rows, first_flags(rows), rows.len() as int)
}

/// The coefficients that a merge leaves: each key's, added up in row order.
pub open spec fn merged_coeffs<C: CoeffRepr>(rows: Seq<Seq<u32>>, coeffs: Seq<C>) -> Seq<C> {
    sparse::flagged(gathered_all(rows, coeffs), first_flags(rows), rows.len() as int)
}

/// Sums the coefficients of rows with the same key into the first of them, and drops the others.
pub fn merge<B: SoaBasis, C: CoeffRepr>(terms: &mut SoaTermSum<C>)
    requires
        old(terms).wf(),
        old(terms).indexed::<B>(),
    ensures
        final(terms).wf(),
        final(terms).indexed::<B>(),
        final(terms).same_setup(*old(terms)),
        final(terms).row_lists() == merged_rows(old(terms).row_lists()),
        final(terms).coeff_seq() == merged_coeffs(
            old(terms).row_lists(),
            old(terms).coeff_seq(),
        ),
        store::distinct_rows(final(terms).row_lists(), final(terms).row_lists().len() as int),
        old(terms).row_lists().len() > 1 ==> final(terms).synced() == final(terms).row_lists().len(),
{
    let n: usize = terms.len();
    let ghost before = *terms;
    proof {
        reveal_with_fuel(sparse::flagged, 2);
        if n == 1 {
            assert(first(before.row_lists(), 0));
            assert(terms.row_lists() =~= merged_rows(before.row_lists()));
            assert(terms.coeff_seq() =~= merged_coeffs(before.row_lists(), before.coeff_seq()));
        }
        if n == 0 {
            assert(terms.row_lists() =~= merged_rows(before.row_lists()));
            assert(terms.coeff_seq() =~= merged_coeffs(before.row_lists(), before.coeff_seq()));
        }
    }
    if n <= 1 {
        return;
    }
    let flags: Vec<u32> = merge_insert_batches::<B, C>(terms);
    proof {
        lemma_flagged_same(
            terms.coeff_seq(),
            gathered_all(before.row_lists(), before.coeff_seq()),
            flags@,
            n as int,
        );
        assert(plain(flags@));
        sparse::lemma_flagged(before.row_lists(), flags@, n as int);
    }
    compact::<B, C>(terms, &flags);
}

/// Which rows a merge followed by a truncation keeps.
pub open spec fn merge_kept<B: SoaBasis, C: CoeffRepr, K: TruncationKernel<C::Real>>(
    cfg: Option<ResolvedConfig<C::Real, K>>,
    terms: SoaTermSum<C>,
) -> Seq<u32> {
    let rows = terms.row_lists();
    let sums = gathered_all(rows, terms.coeff_seq());
    Seq::new(
        rows.len(),
        |i: int|
            flag_of(
                first(rows, i) && (cfg matches Some(c) ==> cuts(c, merged_rows(rows).len())
                    ==> kept_by::<B, C, K>(c, terms.key(i), sums[i], terms.units())),
            ),
    )
}

/// The configuration truncates a sum of `len` terms.
pub open spec fn cuts<R, K>(cfg: ResolvedConfig<R, K>, len: nat) -> bool {
    &&& cfg.weight is Some || cfg.coefficient is Some || cfg.native is Some
    &&& cfg.min_terms matches Some(m) ==> len >= m
}

/// `after` is `before` merged and cut by the configuration.
pub open spec fn cut_down<B: SoaBasis, C: CoeffRepr, K: TruncationKernel<C::Real>>(
    cfg: Option<ResolvedConfig<C::Real, K>>,
    before: SoaTermSum<C>,
    after: SoaTermSum<C>,
) -> bool {
    let kept = merge_kept::<B, C, K>(cfg, before);
    &&& after.row_lists() == sparse::flagged(before.row_lists(), kept, kept.len() as int)
    &&& after.coeff_seq() == sparse::flagged(
        gathered_all(before.row_lists(), before.coeff_seq()),
        kept,
        kept.len() as int,
    )
}

/// Whether the configuration keeps one row.
fn keeps_row<B: SoaBasis, C: CoeffRepr, K: TruncationKernel<C::Real>>(
    terms: &SoaTermSum<C>,
    i: usize,
    cfg: &ResolvedConfig<C::Real, K>,
    ws: &mut RowWorkspace,
) -> (keep: bool)
    requires
        terms.wf(),
        i < terms.row_lists().len(),
        old(ws).fits(terms.rows.span()),
    ensures
        final(ws).fits(terms.rows.span()),
        keep == kept_by::<B, C, K>(
            *cfg,
            terms.key(i as int),
            terms.coeff_seq()[i as int],
            terms.units(),
        ),
{
    if let Some(kernel) = &cfg.native {
        let no_words: [u64; 0] = [];
        proof {
            assert(no_words@ =~= Seq::<u64>::empty());
        }
        let weight: u32 = row_weight::<B>(&terms.rows, i, terms.n_units, ws);
        let view = TermView {
            basis_kind: B::kind(),
            words: no_words.as_slice(),
            n_units: terms.n_units,
            weight,
        };
        return kernel.keep(view, terms.coeffs[i].magnitude());
    }
    if let Some(w) = cfg.weight {
        if row_weight::<B>(&terms.rows, i, terms.n_units, ws) > w {
            return false;
        }
    }
    let cc: C::Real = match cfg.coefficient {
        Some(c) => c,
        None => C::real_unit(0),
    };
    terms.coeffs[i].passes_coeff_cutoff(cc)
}

/// Lowers the flag of every flagged row that the configuration does not keep.
fn lower_flags<B: SoaBasis, C: CoeffRepr, K: TruncationKernel<C::Real>>(
    terms: &SoaTermSum<C>,
    cfg: &ResolvedConfig<C::Real, K>,
    flags: &mut Vec<u32>,
)
    requires
        terms.wf(),
        old(flags)@.len() == terms.row_lists().len(),
        plain(old(flags)@),
    ensures
        final(flags)@.len() == old(flags)@.len(),
        forall|x: int|
            0 <= x < old(flags)@.len() ==> #[trigger] final(flags)@[x] == flag_of(
                old(flags)@[x] != 0 && kept_by::<B, C, K>(
                    *cfg,
                    terms.key(x),
                    terms.coeff_seq()[x],
                    terms.units(),
                ),
            ),
{
    let n: usize = flags.len();
    proof {
        terms.rows.lemma_wf();
    }
    let mut ws: RowWorkspace = RowWorkspace::new(terms.layout, terms.rows.stride());
    let mut i: usize = 0;
    while i < n
        invariant
            terms.wf(),
            n == terms.row_lists().len(),
            n == old(flags)@.len(),
            flags@.len() == n,
            i <= n,
            plain(old(flags)@),
            ws.fits(terms.rows.span()),
            forall|x: int|
                0 <= x < i ==> #[trigger] flags@[x] == flag_of(
                    old(flags)@[x] != 0 && kept_by::<B, C, K>(
                        *cfg,
                        terms.key(x),
                        terms.coeff_seq()[x],
                        terms.units(),
                    ),
                ),
            forall|x: int| i <= x < n ==> #[trigger] flags@[x] == old(flags)@[x],
        decreases n - i,
    {
        proof {
            assert(flags@[i as int] == old(flags)@[i as int]);
        }
        if flags[i] != 0 {
            if !keeps_row::<B, C, K>(terms, i, cfg, &mut ws) {
                flags.set(i, 0);
            }
        }
        i += 1;
    }
}

/// Merges rows with the same key, drops what the configuration does not keep once there are
/// enough terms for it to cut, and returns how many terms each of the two left.
pub fn merge_and_truncate<B: SoaBasis, C: CoeffRepr, K: TruncationKernel<C::Real>>(
    terms: &mut SoaTermSum<C>,
    cfg: Option<&ResolvedConfig<C::Real, K>>,
) -> (r: (usize, usize))
    requires
        old(terms).wf(),
        old(terms).indexed::<B>(),
    ensures
        final(terms).wf(),
        final(terms).indexed::<B>(),
        final(terms).same_setup(*old(terms)),
        r.0 == merged_rows(old(terms).row_lists()).len(),
        r.1 == final(terms).row_lists().len(),
        cut_down::<B, C, K>(
            match cfg {
                Some(c) => Some(*c),
                None => None,
            },
            *old(terms),
            *final(terms),
        ),
        store::distinct_rows(final(terms).row_lists(), final(terms).row_lists().len() as int),
        final(terms).synced() == final(terms).row_lists().len(),
{
    let ghost before = *terms;
    let ghost rows = terms.row_lists();
    let ghost n = rows.len() as int;
    let mut flags: Vec<u32> = merge_insert_batches::<B, C>(terms);
    proof {
        assert(plain(flags@));
        sparse::lemma_flagged(rows, flags@, n);
    }
    let (_index, after_dedup) = number(&flags);
    let ghost firsts = flags@;
    if let Some(c) = cfg {
        let enough: bool = match c.min_terms {
            Some(m) => after_dedup >= m,
            None => true,
        };
        if enough && (c.weight.is_some() || c.coefficient.is_some() || c.native.is_some()) {
            lower_flags::<B, C, K>(terms, c, &mut flags);
        }
    }
    proof {
        let sums = gathered_all(rows, before.coeff_seq());
        let kept = merge_kept::<B, C, K>(
            match cfg {
                Some(c) => Some(*c),
                None => None,
            },
            before,
        );
        assert forall|x: int| 0 <= x < n implies #[trigger] flags@[x] == kept[x] by {
            assert(firsts[x] == flag_of(first(rows, x)));
            if firsts[x] != 0 {
                assert(terms.coeff_seq()[x] == sums[x]);
            }
            assert(terms.key(x) == before.key(x));
        }
        assert(flags@ =~= kept);
        assert forall|x: int| 0 <= x < n && flags@[x] != 0 implies #[trigger] terms.coeff_seq()[x]
            == sums[x] by {
            assert(firsts[x] == flag_of(first(rows, x)));
        }
        lemma_flagged_same(terms.coeff_seq(), sums, flags@, n);
        assert(forall|x: int| 0 <= x < n && flags@[x] != 0 ==> #[trigger] firsts[x] != 0);
        assert(distinct_flagged(rows, flags@, n));
        assert(plain(flags@));
        sparse::lemma_flagged(rows, flags@, n);
        assert forall|b: int| 0 <= b < terms.batches && n > 0 implies covers(
            #[trigger] terms.merge_tables@[b],
            b,
            terms.batches as nat,
            terms.hashes@,
            flags@,
            n,
        ) by {
            assert(covers(
                terms.merge_tables@[b],
                b,
                terms.batches as nat,
                terms.hashes@,
                firsts,
                n,
            ));
            assert forall|x: usize|
                x < n && flags@[x as int] != 0 && store::batch_of(
                    terms.hashes@[x as int],
                    terms.batches as nat,
                ) == b implies #[trigger] store::table_entries(terms.merge_tables@[b]).contains(
                (x, terms.hashes@[x as int]),
            ) by {
                assert(firsts[x as int] != 0);
            }
        }
        assert(covered::<B, C>(*terms, flags@));
    }
    compact::<B, C>(terms, &flags);
    (after_dedup, terms.len())
}

/// A generator's word, where the basis confines it to one.
pub struct LocalWord {
    pub word: usize,
    pub bits: [u64; 2],
}

/// The word of a generator with planes `gx` and `gz`, where the basis confines it to one.
pub open spec fn localized<B: SoaBasis>(
    gx: Seq<u64>,
    gz: Seq<u64>,
    span: nat,
    local: Option<LocalWord>,
) -> bool {
    let g = sparse::key_of(gx, gz, span);
    match local {
        Some(l) => {
            &&& B::local_of(g) == Some(l.word as int)
            &&& 64 * l.word + 64 <= span
            &&& l.bits[0] == gx[l.word as int]
            &&& l.bits[1] == gz[l.word as int]
            &&& store::held_at(g, span as int, l.word as int, (l.bits[0], l.bits[1]))
        },
        None => B::local_of(g) is None,
    }
}

/// Finds the generator's word, where the basis confines it to one.
fn localize<B: SoaBasis>(gen: [&[u64]; 2], span: usize) -> (local: Option<LocalWord>)
    requires
        64 * gen[0]@.len() == span,
        64 * gen[1]@.len() == span,
    ensures
        localized::<B>(gen[0]@, gen[1]@, span as nat, local),
{
    match B::local_word(gen) {
        Some(word) => {
            let ghost g = sparse::key_of(gen[0]@, gen[1]@, span as nat);
            proof {
                B::local_bound(g, span as int, word as int);
            }
            let bits: [u64; 2] = [gen[0][word], gen[1][word]];
            proof {
                assert forall|b: int| 0 <= b < 64 implies #[trigger] bits::bit(bits[0], b) == g[64
                    * word + b] && bits::bit(bits[1], b) == g[span + 64 * word + b] by {
                    assert((64 * word + b) / 64 == word && (64 * word + b) % 64 == b);
                    assert(g[64 * word + b] == bits::bit_at(gen[0]@, 64 * word + b));
                    assert(g[span + 64 * word + b] == bits::bit_at(gen[1]@, 64 * word + b));
                }
            }
            Some(LocalWord { word, bits })
        },
        None => None,
    }
}

/// Whether a row anticommutes with the generator.
fn row_anticommutes<B: SoaBasis>(
    row: &[Position],
    gen: [&[u64]; 2],
    gen_row: &[Position],
    local: &Option<LocalWord>,
    span: usize,
    ws: &mut RowWorkspace,
) -> (r: bool)
    requires
        old(ws).fits(span as nat),
        sparse::orderly(row@, 2 * span),
        span % 64 == 0,
        2 * span <= u32::MAX + 1,
        2 * span <= usize::MAX,
        64 * gen[0]@.len() == span,
        64 * gen[1]@.len() == span,
        sparse::spells(gen_row@, sparse::key_of(gen[0]@, gen[1]@, span as nat)),
        localized::<B>(gen[0]@, gen[1]@, span as nat, *local),
    ensures
        final(ws).fits(span as nat),
        r == !B::commuting(
            sparse::key_in(row@, (2 * span) as nat),
            sparse::key_of(gen[0]@, gen[1]@, span as nat),
        ),
{
    match local {
        Some(l) => {
            let w: [u64; 2] = clifford_ops::word_of_row(row, span, l.word);
            proof {
                B::local_law(
                    sparse::key_in(row@, (2 * span) as nat),
                    sparse::key_of(gen[0]@, gen[1]@, span as nat),
                    span as int,
                    l.word as int,
                    (w[0], w[1]),
                    (l.bits[0], l.bits[1]),
                );
            }
            !B::commutes_at_word(w, l.bits)
        },
        None => !row_commutes::<B>(row, gen, gen_row, span, ws),
    }
}

/// The row of the generator's product with a row, and its phase.
fn branch_row<B: SoaBasis>(
    row: &[Position],
    gen: [&[u64]; 2],
    gen_row: &[Position],
    local: &Option<LocalWord>,
    span: usize,
    ws: &mut RowWorkspace,
) -> (r: (Vec<Position>, Phase))
    requires
        old(ws).fits(span as nat),
        sparse::orderly(row@, 2 * span),
        span % 64 == 0,
        2 * span <= u32::MAX + 1,
        2 * span <= usize::MAX,
        64 * gen[0]@.len() == span,
        64 * gen[1]@.len() == span,
        sparse::spells(gen_row@, sparse::key_of(gen[0]@, gen[1]@, span as nat)),
        localized::<B>(gen[0]@, gen[1]@, span as nat, *local),
    ensures
        final(ws).fits(span as nat),
        ({
            let t = sparse::key_in(row@, (2 * span) as nat);
            let g = sparse::key_of(gen[0]@, gen[1]@, span as nat);
            &&& sparse::orderly(r.0@, 2 * span)
            &&& sparse::key_in(r.0@, (2 * span) as nat) == B::product_of(t, g)
            &&& r.1 == B::phase_of(t, g)
        }),
{
    let ghost t = sparse::key_in(row@, (2 * span) as nat);
    let ghost g = sparse::key_of(gen[0]@, gen[1]@, span as nat);
    let mut out: Vec<Position> = Vec::new();
    let phase: Phase = match local {
        Some(l) => {
            let w: [u64; 2] = clifford_ops::word_of_row(row, span, l.word);
            let (new, phase) = B::product_at_word(w, l.bits);
            proof {
                B::local_law(
                    t,
                    g,
                    span as int,
                    l.word as int,
                    (w[0], w[1]),
                    (l.bits[0], l.bits[1]),
                );
                assert([new[0], new[1]] =~= new);
            }
            sparse::splice_row_word(row, span, l.word, new, &mut out);
            phase
        },
        None => row_product::<B>(row, gen, gen_row, span, &mut out, ws),
    };
    proof {
        assert(out@.skip(0) =~= out@);
        B::product_len(t, g);
        sparse::lemma_spells(out@, B::product_of(t, g));
    }
    (out, phase)
}

/// Which rows anticommute with the generator.
pub open spec fn anti_flags<B: SoaBasis, C: CoeffRepr>(
    terms: SoaTermSum<C>,
    g: Seq<bool>,
) -> Seq<u32> {
    Seq::new(terms.row_lists().len(), |i: int| flag_of(!B::commuting(terms.key(i), g)))
}

/// Flags the rows that anticommute with the generator.
fn flag_anticommuting<B: SoaBasis, C: CoeffRepr>(
    terms: &SoaTermSum<C>,
    gen: [&[u64]; 2],
    gen_row: &[Position],
    local: &Option<LocalWord>,
) -> (flags: Vec<u32>)
    requires
        terms.wf(),
        64 * gen[0]@.len() == terms.span(),
        64 * gen[1]@.len() == terms.span(),
        sparse::spells(gen_row@, sparse::key_of(gen[0]@, gen[1]@, terms.span())),
        localized::<B>(gen[0]@, gen[1]@, terms.span(), *local),
    ensures
        flags@ == anti_flags::<B, C>(*terms, sparse::key_of(gen[0]@, gen[1]@, terms.span())),
{
    let n: usize = terms.len();
    proof {
        terms.lemma_wf();
        terms.rows.lemma_wf();
    }
    let span: usize = terms.rows.plane_span();
    let ghost g = sparse::key_of(gen[0]@, gen[1]@, span as nat);
    let mut ws: RowWorkspace = RowWorkspace::new(terms.layout, terms.rows.stride());
    let mut flags: Vec<u32> = Vec::new();
    while flags.len() < n
        invariant
            terms.wf(),
            n == terms.row_lists().len(),
            span == terms.span(),
            span % 64 == 0,
            2 * span <= u32::MAX + 1,
            2 * span <= usize::MAX,
            forall|i: int|
                0 <= i < n ==> sparse::orderly(#[trigger] terms.row_lists()[i], 2 * span),
            ws.fits(span as nat),
            64 * gen[0]@.len() == span,
            64 * gen[1]@.len() == span,
            g == sparse::key_of(gen[0]@, gen[1]@, span as nat),
            sparse::spells(gen_row@, g),
            localized::<B>(gen[0]@, gen[1]@, span as nat, *local),
            flags@.len() <= n,
            forall|i: int|
                0 <= i < flags@.len() ==> #[trigger] flags@[i] == anti_flags::<B, C>(*terms, g)[i],
        decreases n - flags@.len(),
    {
        let i: usize = flags.len();
        let row: &[Position] = terms.rows.row(i);
        proof {
            assert(sparse::orderly(terms.row_lists()[i as int], 2 * span));
        }
        let anti: bool = row_anticommutes::<B>(row, gen, gen_row, local, span, &mut ws);
        flags.push(if anti {
            1
        } else {
            0
        });
    }
    proof {
        assert(flags@ =~= anti_flags::<B, C>(*terms, g));
    }
    flags
}

/// `m` has exactly one bit set.
pub open spec fn one_bit(m: u64) -> bool {
    exists|b: u64| b < 64 && m == #[trigger] (1u64 << b)
}

/// The one bit of a word that has one.
fn lone_bit(m: u64) -> (r: Option<u32>)
    ensures
        match r {
            Some(b) => b < 64 && m == 1u64 << (b as u64),
            None => !one_bit(m),
        },
{
    if m == 0 {
        proof {
            assert forall|b: u64| b < 64 implies m != #[trigger] (1u64 << b) by {
                bits::lemma_bit_one_hot(b, b as int);
                bits::lemma_bit_zero(b as int);
            }
        }
        return None;
    }
    proof {
        bits::lemma_drop_lowest(m);
    }
    if m & (m - 1) != 0 {
        proof {
            assert forall|b: u64| b < 64 implies m != #[trigger] (1u64 << b) by {
                if m == 1u64 << b {
                    let t = vstd::std_specs::bits::u64_trailing_zeros(m) as int;
                    bits::lemma_bit_one_hot(b, t);
                    let rest = m & (m - 1) as u64;
                    assert forall|i: int| 0 <= i < 64 implies bits::bit(rest, i) == bits::bit(
                        0,
                        i,
                    ) by {
                        bits::lemma_bit_one_hot(b, i);
                        bits::lemma_bit_zero(i);
                    }
                    bits::lemma_word_ext(rest, 0);
                }
            }
        }
        return None;
    }
    let b: u32 = m.trailing_zeros();
    proof {
        assert forall|i: int| 0 <= i < 64 implies bits::bit(m, i) == bits::bit(
            1u64 << (b as u64),
            i,
        ) by {
            bits::lemma_bit_one_hot(b as u64, i);
            bits::lemma_bit_zero(i);
            assert(bits::bit(m & (m - 1) as u64, i) == (bits::bit(m, i) && i != b));
        }
        bits::lemma_word_ext(m, 1u64 << (b as u64));
    }
    Some(b)
}

/// How a rotation acts on a sum.
pub ghost enum Turn<R> {
    /// Not at all: the angle is a multiple of a full turn.
    Idle,
    /// A quarter turn on one qubit: keys are rewritten and signs applied.
    Table,
    /// A half turn: terms that anticommute are scaled.
    Scaled(R),
    /// A quarter turn: every term that anticommutes becomes its product.
    InPlace,
    /// Every term that anticommutes leaves its cosine branch and sends out its sine branch.
    Branching,
}

/// The generator is on one bit of one word, and each label there commutes with it or the sign
/// of the quarter turn is known.
pub open spec fn table_ready<B: SoaBasis, C: CoeffRepr>(
    gx: Seq<u64>,
    gz: Seq<u64>,
    span: nat,
    n_units: nat,
    param: C::GateParam,
) -> bool {
    let g = sparse::key_of(gx, gz, span);
    &&& B::weight_of(g, n_units) == 1
    &&& B::local_of(g) matches Some(w) && one_bit(gx[w] | gz[w]) && (C::turn_sign(param) is Some
        || forall|l: (u64, u64)|
        store::picked(l, gx[w] | gz[w]) == l ==> #[trigger] B::word_commuting(l, (gx[w], gz[w])))
}

/// How a rotation acts.
pub open spec fn turn_of<B: SoaBasis, C: CoeffRepr>(
    gx: Seq<u64>,
    gz: Seq<u64>,
    span: nat,
    n_units: nat,
    param: C::GateParam,
    clifford_inplace: bool,
) -> Turn<C::Real> {
    match C::half_turn(param, C::tolerance_of()) {
        Some(f) => if C::is_one(f) {
            Turn::Idle
        } else if clifford_inplace && table_ready::<B, C>(gx, gz, span, n_units, param) {
            Turn::Table
        } else {
            Turn::Scaled(f)
        },
        None => if clifford_inplace && table_ready::<B, C>(gx, gz, span, n_units, param) {
            Turn::Table
        } else if clifford_inplace {
            Turn::InPlace
        } else {
            Turn::Branching
        },
    }
}

/// Row `i`'s key after a quarter turn about `g`.
pub open spec fn turned_key<B: SoaBasis, C: CoeffRepr>(
    terms: SoaTermSum<C>,
    g: Seq<bool>,
    i: int,
) -> Seq<bool> {
    if B::commuting(terms.key(i), g) {
        terms.key(i)
    } else {
        B::product_of(terms.key(i), g)
    }
}

/// Row `i`'s coefficient after a rotation about `g`.
pub open spec fn turned_coeff<B: SoaBasis, C: CoeffRepr>(
    turn: Turn<C::Real>,
    terms: SoaTermSum<C>,
    g: Seq<bool>,
    param: C::GateParam,
    i: int,
) -> C {
    let c = terms.coeff_seq()[i];
    let commuting = B::commuting(terms.key(i), g);
    let phase = B::phase_of(terms.key(i), g);
    match turn {
        Turn::Idle => c,
        Turn::Table => if commuting {
            c.scaled(C::unit(1))
        } else {
            c.scaled(C::unit(C::turn_sign(param).unwrap() * -phase.imaginary()))
        },
        Turn::Scaled(f) => if commuting {
            c
        } else {
            c.scaled(f)
        },
        Turn::InPlace => if commuting {
            c
        } else {
            c.sin_branch(param, phase)
        },
        Turn::Branching => if commuting {
            c
        } else {
            c.cos_branch(param, phase)
        },
    }
}

/// The sum after a rotation: the rows there were, and behind them, for a branching rotation, one
/// for each that anticommutes, in order.
pub open spec fn rotated<B: SoaBasis, C: CoeffRepr>(
    turn: Turn<C::Real>,
    before: SoaTermSum<C>,
    after: SoaTermSum<C>,
    g: Seq<bool>,
    param: C::GateParam,
    added: nat,
) -> bool {
    let n = before.row_lists().len() as int;
    let flags = anti_flags::<B, C>(before, g);
    &&& added == (if turn is Branching {
        sparse::rank(flags, n)
    } else {
        0
    })
    &&& after.row_lists().len() == n + added
    &&& forall|i: int|
        0 <= i < n ==> #[trigger] after.coeff_seq()[i] == turned_coeff::<B, C>(
            turn,
            before,
            g,
            param,
            i,
        )
    &&& forall|i: int|
        0 <= i < n ==> #[trigger] after.key(i) == (if turn is Table || turn is InPlace {
            turned_key::<B, C>(before, g, i)
        } else {
            before.key(i)
        })
    &&& turn is Branching ==> forall|i: int|
        0 <= i < n && flags[i] != 0 ==> sprung::<B, C>(before, after, g, param, #[trigger] flags[i], i)
}

/// Row `i`'s sine branch stands behind the rows there were, at its rank.
pub open spec fn sprung<B: SoaBasis, C: CoeffRepr>(
    before: SoaTermSum<C>,
    after: SoaTermSum<C>,
    g: Seq<bool>,
    param: C::GateParam,
    flag: u32,
    i: int,
) -> bool {
    let n = before.row_lists().len() as int;
    let at = n + sparse::rank(anti_flags::<B, C>(before, g), i);
    &&& after.key(at) == B::product_of(before.key(i), g)
    &&& after.coeff_seq()[at] == before.coeff_seq()[i].sin_branch(
        param,
        B::phase_of(before.key(i), g),
    )
}

/// Scales the flagged coefficients.
fn scale_flagged<C: CoeffRepr>(terms: &mut SoaTermSum<C>, flags: &Vec<u32>, factor: C::Real)
    requires
        old(terms).wf(),
        flags@.len() == old(terms).row_lists().len(),
    ensures
        final(terms).wf(),
        final(terms).rows == old(terms).rows,
        final(terms).hashes == old(terms).hashes,
        final(terms).merge_tables == old(terms).merge_tables,
        final(terms).merge_synced_len == old(terms).merge_synced_len,
        final(terms).coeff_room == old(terms).coeff_room,
        final(terms).same_setup(*old(terms)),
        forall|i: int|
            0 <= i < flags@.len() ==> #[trigger] final(terms).coeff_seq()[i] == (if flags@[i] != 0 {
                old(terms).coeff_seq()[i].scaled(factor)
            } else {
                old(terms).coeff_seq()[i]
            }),
{
    let n: usize = flags.len();
    let mut i: usize = 0;
    while i < n
        invariant
            i <= n,
            n == flags@.len(),
            n == terms.coeffs@.len(),
            n == old(terms).coeffs@.len(),
            n <= terms.coeff_room,
            terms.coeff_room == old(terms).coeff_room,
            terms.rows == old(terms).rows,
            terms.hashes == old(terms).hashes,
            terms.merge_tables == old(terms).merge_tables,
            terms.merge_synced_len == old(terms).merge_synced_len,
            terms.same_setup(*old(terms)),
            forall|x: int|
                0 <= x < i ==> #[trigger] terms.coeffs@[x] == (if flags@[x] != 0 {
                    old(terms).coeffs@[x].scaled(factor)
                } else {
                    old(terms).coeffs@[x]
                }),
            forall|x: int| i <= x < n ==> #[trigger] terms.coeffs@[x] == old(terms).coeffs@[x],
        decreases n - i,
    {
        if flags[i] != 0 {
            let mut c: C = terms.coeffs[i].duplicate();
            c.scale_real(factor);
            terms.coeffs.set(i, c);
        }
        i += 1;
    }
}

/// Turns every flagged row into its product with the generator.
fn rewrite_flagged<B: SoaBasis, C: CoeffRepr>(
    terms: &mut SoaTermSum<C>,
    gen: [&[u64]; 2],
    gen_row: &[Position],
    local: &Option<LocalWord>,
    flags: &Vec<u32>,
    param: &C::GateParam,
)
    requires
        old(terms).wf(),
        64 * gen[0]@.len() == old(terms).span(),
        64 * gen[1]@.len() == old(terms).span(),
        sparse::spells(gen_row@, sparse::key_of(gen[0]@, gen[1]@, old(terms).span())),
        localized::<B>(gen[0]@, gen[1]@, old(terms).span(), *local),
        flags@ == anti_flags::<B, C>(
            *old(terms),
            sparse::key_of(gen[0]@, gen[1]@, old(terms).span()),
        ),
    ensures
        final(terms).wf(),
        final(terms).synced() == 0,
        final(terms).coeff_room == old(terms).coeff_room,
        final(terms).same_setup(*old(terms)),
        rotated::<B, C>(
            Turn::InPlace,
            *old(terms),
            *final(terms),
            sparse::key_of(gen[0]@, gen[1]@, old(terms).span()),
            *param,
            0,
        ),
{
    let n: usize = flags.len();
    let ghost before = *terms;
    proof {
        terms.lemma_wf();
        terms.rows.lemma_wf();
    }
    let span: usize = terms.rows.plane_span();
    let ghost g = sparse::key_of(gen[0]@, gen[1]@, span as nat);
    let mut ws: RowWorkspace = RowWorkspace::new(terms.layout, terms.rows.stride());
    let mut next: SparseRows = SparseRows::new(terms.rows.stride());
    let mut i: usize = 0;
    while i < n
        invariant
            i <= n,
            n == before.row_lists().len(),
            n == terms.coeffs@.len(),
            n <= terms.coeff_room,
            terms.coeff_room == before.coeff_room,
            flags@ == anti_flags::<B, C>(before, g),
            before.wf(),
            terms.rows == before.rows,
            terms.same_setup(before),
            span == before.span(),
            span % 64 == 0,
            2 * span <= u32::MAX + 1,
            2 * span <= usize::MAX,
            forall|x: int|
                0 <= x < n ==> sparse::orderly(#[trigger] before.row_lists()[x], 2 * span),
            ws.fits(span as nat),
            64 * gen[0]@.len() == span,
            64 * gen[1]@.len() == span,
            g == sparse::key_of(gen[0]@, gen[1]@, span as nat),
            sparse::spells(gen_row@, g),
            localized::<B>(gen[0]@, gen[1]@, span as nat, *local),
            next.wf(),
            next.span() == span,
            next.rows().len() == i,
            forall|x: int|
                0 <= x < i ==> sparse::key_in(#[trigger] next.rows()[x], (2 * span) as nat)
                    == turned_key::<B, C>(before, g, x),
            forall|x: int|
                0 <= x < i ==> #[trigger] terms.coeffs@[x] == turned_coeff::<B, C>(
                    Turn::InPlace,
                    before,
                    g,
                    *param,
                    x,
                ),
            forall|x: int| i <= x < n ==> #[trigger] terms.coeffs@[x] == before.coeffs@[x],
        decreases n - i,
    {
        let row: &[Position] = terms.rows.row(i);
        let ghost was = next.rows();
        proof {
            assert(sparse::orderly(before.row_lists()[i as int], 2 * span));
            assert(flags@[i as int] == flag_of(!B::commuting(before.key(i as int), g)));
            assert(terms.coeffs@[i as int] == before.coeffs@[i as int]);
        }
        if flags[i] == 0 {
            next.push_row(row);
        } else {
            let (out, phase) = branch_row::<B>(row, gen, gen_row, local, span, &mut ws);
            next.push_row(out.as_slice());
            let mut c: C = terms.coeffs[i].duplicate();
            let sin: C = c.apply_rotation(param, phase);
            terms.coeffs.set(i, sin);
        }
        i += 1;
        proof {
            assert forall|x: int| 0 <= x < i implies sparse::key_in(
                #[trigger] next.rows()[x],
                (2 * span) as nat,
            ) == turned_key::<B, C>(before, g, x) by {
                if x < i - 1 {
                    assert(next.rows()[x] == was[x]);
                }
            }
        }
    }
    terms.rows = next;
    terms.merge_synced_len = 0;
    proof {
        assert forall|x: int| 0 <= x < n implies #[trigger] terms.key(x) == turned_key::<B, C>(
            before,
            g,
            x,
        ) by {
            let r = terms.row_lists()[x];
        }
    }
}

/// A flagged row's rank is below the number of flagged rows.
proof fn lemma_rank_below(flags: Seq<u32>, x: int, n: int)
    requires
        0 <= x < n <= flags.len(),
        flags[x] != 0,
    ensures
        sparse::rank(flags, x) < sparse::rank(flags, n),
{
    sparse::lemma_rank_step(flags, x);
    lemma_flagged_prefix(flags, flags, x + 1, n);
}

/// Row `x`'s branch is where it is to be.
spec fn sprung_at<B: SoaBasis, C: CoeffRepr>(
    before: SoaTermSum<C>,
    rows: Seq<Seq<u32>>,
    coeffs: Seq<C>,
    g: Seq<bool>,
    param: C::GateParam,
    x: int,
) -> bool {
    let n = before.row_lists().len() as int;
    let at = n + sparse::rank(anti_flags::<B, C>(before, g), x);
    &&& sparse::key_in(rows[at], 2 * before.span()) == B::product_of(before.key(x), g)
    &&& coeffs[at] == before.coeff_seq()[x].sin_branch(param, B::phase_of(before.key(x), g))
}

/// Leaves the cosine branch on every flagged row and appends its sine branch.
fn append_flagged<B: SoaBasis, C: CoeffRepr>(
    terms: &mut SoaTermSum<C>,
    gen: [&[u64]; 2],
    gen_row: &[Position],
    local: &Option<LocalWord>,
    flags: &Vec<u32>,
    param: &C::GateParam,
) -> (added: usize)
    requires
        old(terms).wf(),
        old(terms).indexed::<B>(),
        64 * gen[0]@.len() == old(terms).span(),
        64 * gen[1]@.len() == old(terms).span(),
        sparse::spells(gen_row@, sparse::key_of(gen[0]@, gen[1]@, old(terms).span())),
        localized::<B>(gen[0]@, gen[1]@, old(terms).span(), *local),
        flags@ == anti_flags::<B, C>(
            *old(terms),
            sparse::key_of(gen[0]@, gen[1]@, old(terms).span()),
        ),
    ensures
        final(terms).wf(),
        final(terms).indexed::<B>(),
        final(terms).synced() == old(terms).synced(),
        final(terms).room() == store::room_for(
            old(terms).room() as int,
            final(terms).row_lists().len() as int,
        ),
        final(terms).same_setup(*old(terms)),
        rotated::<B, C>(
            Turn::Branching,
            *old(terms),
            *final(terms),
            sparse::key_of(gen[0]@, gen[1]@, old(terms).span()),
            *param,
            added as nat,
        ),
{
    let n: usize = flags.len();
    let ghost before = *terms;
    proof {
        terms.lemma_wf();
        terms.rows.lemma_wf();
        assert(terms.row_lists().take(n as int) =~= before.row_lists());
        lemma_plain_zero(flags@);
    }
    let span: usize = terms.rows.plane_span();
    let ghost g = sparse::key_of(gen[0]@, gen[1]@, span as nat);
    let mut ws: RowWorkspace = RowWorkspace::new(terms.layout, terms.rows.stride());
    proof {
        assert(plain(flags@));
    }
    let (_, total) = number(flags);
    terms.ensure_capacity(n.saturating_add(total));
    let mut added: usize = 0;
    let mut i: usize = 0;
    while i < n
        invariant
            i <= n,
            n == before.row_lists().len(),
            total == sparse::rank(flags@, n as int),
            terms.coeff_room == store::room_for(
                before.coeff_room as int,
                if n + total <= usize::MAX {
                    n + total
                } else {
                    usize::MAX as int
                },
            ),
            flags@ == anti_flags::<B, C>(before, g),
            before.wf(),
            terms.rows.wf(),
            terms.rows.span() == span,
            terms.rows.rows().len() == n + added,
            terms.rows.rows().take(n as int) == before.row_lists(),
            terms.coeffs@.len() == n + added,
            terms.coeffs@.len() <= terms.coeff_room,
            terms.hashes == before.hashes,
            terms.merge_tables == before.merge_tables,
            terms.merge_synced_len == before.merge_synced_len,
            terms.same_setup(before),
            added == sparse::rank(flags@, i as int),
            span == before.span(),
            span % 64 == 0,
            2 * span <= u32::MAX + 1,
            2 * span <= usize::MAX,
            forall|x: int|
                0 <= x < n ==> sparse::orderly(#[trigger] before.row_lists()[x], 2 * span),
            ws.fits(span as nat),
            64 * gen[0]@.len() == span,
            64 * gen[1]@.len() == span,
            g == sparse::key_of(gen[0]@, gen[1]@, span as nat),
            sparse::spells(gen_row@, g),
            localized::<B>(gen[0]@, gen[1]@, span as nat, *local),
            forall|x: int|
                0 <= x < i ==> #[trigger] terms.coeffs@[x] == turned_coeff::<B, C>(
                    Turn::Branching,
                    before,
                    g,
                    *param,
                    x,
                ),
            forall|x: int| i <= x < n ==> #[trigger] terms.coeffs@[x] == before.coeffs@[x],
            forall|x: int|
                0 <= x < i && flags@[x] != 0 ==> #[trigger] sprung_at::<B, C>(
                    before,
                    terms.rows.rows(),
                    terms.coeffs@,
                    g,
                    *param,
                    x,
                ),
        decreases n - i,
    {
        let ghost rows = terms.rows.rows();
        let ghost coeffs = terms.coeffs@;
        proof {
            assert(sparse::orderly(before.row_lists()[i as int], 2 * span));
            assert(rows.take(n as int)[i as int] == rows[i as int]);
            assert(flags@[i as int] == flag_of(!B::commuting(before.key(i as int), g)));
            assert(terms.coeffs@[i as int] == before.coeffs@[i as int]);
            sparse::lemma_rank_step(flags@, i as int);
            if flags@[i as int] != 0 {
                lemma_rank_below(flags@, i as int, n as int);
            }
        }
        if flags[i] != 0 {
            let (out, phase) = branch_row::<B>(
                terms.rows.row(i),
                gen,
                gen_row,
                local,
                span,
                &mut ws,
            );
            terms.rows.push_row(out.as_slice());
            let mut c: C = terms.coeffs[i].duplicate();
            let sin: C = c.apply_rotation(param, phase);
            terms.coeffs.set(i, c);
            terms.coeffs.push(sin);
            let _len: usize = terms.coeffs.len();
            added += 1;
            proof {
                assert(terms.rows.rows().take(n as int) =~= before.row_lists()) by {
                    assert forall|x: int| 0 <= x < n implies terms.rows.rows()[x]
                        == before.row_lists()[x] by {
                        assert(rows.take(n as int)[x] == rows[x]);
                    }
                }
                assert forall|x: int| 0 <= x < i + 1 && flags@[x] != 0 implies #[trigger] sprung_at::<
                    B,
                    C,
                >(before, terms.rows.rows(), terms.coeffs@, g, *param, x) by {
                    if x < i {
                        assert(sprung_at::<B, C>(before, rows, coeffs, g, *param, x));
                        lemma_rank_below(flags@, x, i as int);
                    }
                }
            }
        }
        i += 1;
    }
    let _len: usize = terms.coeffs.len();
    proof {
        let after = *terms;
        assert forall|x: int| 0 <= x < n implies #[trigger] after.key(x) == before.key(x) by {
            assert(after.row_lists().take(n as int)[x] == after.row_lists()[x]);
        }
        assert forall|x: int| 0 <= x < n && flags@[x] != 0 implies sprung::<B, C>(
            before,
            after,
            g,
            *param,
            #[trigger] flags@[x],
            x,
        ) by {
            assert(sprung_at::<B, C>(before, after.rows.rows(), after.coeffs@, g, *param, x));
        }
        if before.merge_synced_len > 0 {
            let m = before.merge_synced_len as int;
            assert forall|x: int| 0 <= x < m implies #[trigger] after.rows.rows()[x]
                == before.rows.rows()[x] by {
                assert(after.row_lists().take(n as int)[x] == after.row_lists()[x]);
            }
            assert(store::distinct_rows(after.rows.rows(), m)) by {
                assert forall|x: int, y: int| 0 <= x < y < m implies #[trigger] after.rows.rows()[x]
                    != #[trigger] after.rows.rows()[y] by {
                    assert(before.rows.rows()[x] != before.rows.rows()[y]);
                }
            }
        }
    }
    added
}

/// No flag comes before the first.
proof fn lemma_plain_zero(flags: Seq<u32>)
    ensures
        sparse::rank(flags, 0) == 0,
{
    assert(Seq::new(0, |x: int| flags[x] != 0) =~= Seq::<bool>::empty());
}

/// Conjugating by the table of a quarter turn about a generator on one qubit does to a term what
/// the quarter turn does.
proof fn lemma_table_turn<B: SoaBasis, C: CoeffRepr>(
    before: SoaTermSum<C>,
    after: SoaTermSum<C>,
    op: CliffordOp<C::Real>,
    gx: Seq<u64>,
    gz: Seq<u64>,
    local: LocalWord,
    param: C::GateParam,
    i: int,
)
    requires
        before.wf(),
        64 * gx.len() == before.span(),
        64 * gz.len() == before.span(),
        localized::<B>(gx, gz, before.span(), Some(local)),
        op.word_of() == local.word,
        op.mask_bits() == local.bits[0] | local.bits[1],
        forall|l: (u64, u64)|
            store::picked(l, op.mask_bits()) == l ==> clifford_ops::quarter_turned::<B, C>(
                l,
                (local.bits[0], local.bits[1]),
                param,
            ) == Some(#[trigger] op.entry(l)),
        0 <= i < before.row_lists().len(),
        clifford_ops::conjugated(
            op,
            before.span(),
            before.key(i),
            before.coeff_seq()[i],
            after.key(i),
            after.coeff_seq()[i],
        ),
    ensures
        after.key(i) == turned_key::<B, C>(before, sparse::key_of(gx, gz, before.span()), i),
        after.coeff_seq()[i] == turned_coeff::<B, C>(
            Turn::Table,
            before,
            sparse::key_of(gx, gz, before.span()),
            param,
            i,
        ),
{
    before.lemma_wf();
    let span = before.span() as int;
    let key = before.key(i);
    let g = sparse::key_of(gx, gz, before.span());
    let word = local.word as int;
    let gw = (local.bits[0], local.bits[1]);
    let mask = op.mask_bits();
    let w = choose|w: (u64, u64)| #[trigger]
        store::held_at(key, span, op.word_of(), w) && {
            let (label, factor) = op.entry(store::picked(w, op.mask_bits()));
            let new = store::patched(w, op.mask_bits(), label);
            &&& after.key(i) == sparse::spliced(key, span, op.word_of(), [new.0, new.1])
            &&& after.coeff_seq()[i] == before.coeff_seq()[i].scaled(factor)
        };
    let label = store::picked(w, mask);
    let (a, b) = gw;
    let (x, z) = w;
    assert(a & (a | b) == a && b & (a | b) == b) by (bit_vector);
    assert((x & mask) & mask == x & mask && (z & mask) & mask == z & mask && (x & !mask) | (x
        & mask) == x && (z & !mask) | (z & mask) == z) by (bit_vector);
    let e = op.entry(label);
    assert(clifford_ops::quarter_turned::<B, C>(label, gw, param) == Some(e));
    B::local_law(key, g, span, word, w, gw);
    B::masked_law(w, gw, mask);
    if B::commuting(key, g) {
        assert(store::patched(w, mask, label) == w);
        let same = sparse::spliced(key, span, word, [w.0, w.1]);
        assert(same =~= key) by {
            assert forall|p: int| 0 <= p < key.len() implies #[trigger] same[p] == key[p] by {
                if 64 * word <= p < 64 * word + 64 {
                    assert(bits::bit(w.0, p - 64 * word) == key[64 * word + (p - 64 * word)]);
                } else if span + 64 * word <= p < span + 64 * word + 64 {
                    let b = p - span - 64 * word;
                    assert(bits::bit(w.0, b) == key[64 * word + b]);
                    assert(bits::bit(w.1, b) == key[span + 64 * word + b]);
                }
            }
        }
    } else {
        let p = B::word_product(w, gw);
        assert(store::patched(w, mask, B::word_product(label, gw)) == p);
    }
}

/// Applies a rotation about a generator, given as two planes, to every term, and returns how
/// many terms it added. `clifford_inplace` says that it is a quarter turn, which adds none.
pub fn apply_rotation<B: SoaBasis, C: CoeffRepr>(
    terms: &mut SoaTermSum<C>,
    gen: [&[u64]; 2],
    param: &C::GateParam,
    clifford_inplace: bool,
) -> (added: usize)
    requires
        old(terms).wf(),
        old(terms).indexed::<B>(),
        64 * gen[0]@.len() == old(terms).span(),
        64 * gen[1]@.len() == old(terms).span(),
    ensures
        final(terms).wf(),
        final(terms).indexed::<B>(),
        final(terms).room() == store::room_for(
            old(terms).room() as int,
            final(terms).row_lists().len() as int,
        ),
        final(terms).same_setup(*old(terms)),
        rotated::<B, C>(
            turn_of::<B, C>(
                gen[0]@,
                gen[1]@,
                old(terms).span(),
                old(terms).units(),
                *param,
                clifford_inplace,
            ),
            *old(terms),
            *final(terms),
            sparse::key_of(gen[0]@, gen[1]@, old(terms).span()),
            *param,
            added as nat,
        ),
{
    let ghost before = *terms;
    let ghost n = terms.row_lists().len() as int;
    let ghost turn = turn_of::<B, C>(
        gen[0]@,
        gen[1]@,
        terms.span(),
        terms.units(),
        *param,
        clifford_inplace,
    );
    let ghost g = sparse::key_of(gen[0]@, gen[1]@, terms.span());
    let phase_only: Option<C::Real> = C::phase_only_scale(param, C::tolerance());
    if let Some(c) = phase_only {
        if C::real_is_one(c) {
            return 0;
        }
    }
    proof {
        terms.rows.lemma_wf();
        terms.lemma_wf();
    }
    let span: usize = terms.rows.plane_span();
    let local: Option<LocalWord> = localize::<B>(gen, span);
    let mut gen_row: Vec<Position> = Vec::new();
    sparse::encode_planes_into(gen, span, &mut gen_row);
    proof {
        assert(gen_row@.skip(0) =~= gen_row@);
    }
    if clifford_inplace && B::weight(gen, terms.n_units) == 1 {
        if let Some(l) = &local {
            if let Some(bit) = lone_bit(l.bits[0] | l.bits[1]) {
                if let Some(op) = clifford_ops::build_clifford_table::<B, C>(
                    l.word,
                    bit,
                    l.bits,
                    param,
                ) {
                    proof {
                        let m = l.bits[0] | l.bits[1];
                        let b = bit as u64;
                        assert(m == 1u64 << b);
                        assert(one_bit(m));
                        if C::turn_sign(*param) is None {
                            assert forall|x: (u64, u64)| store::picked(x, m) == x implies #[trigger] B::word_commuting(
                                x,
                                (l.bits[0], l.bits[1]),
                            ) by {
                                let e = op.entry(x);
                            }
                        }
                        assert(turn is Table);
                    }
                    clifford_ops::apply_clifford_op(terms, &op);
                    proof {
                        assert forall|i: int| 0 <= i < n implies #[trigger] terms.key(i)
                            == turned_key::<B, C>(before, g, i) && terms.coeff_seq()[i]
                            == turned_coeff::<B, C>(turn, before, g, *param, i) by {
                            let k = before.key(i);
                            lemma_table_turn::<B, C>(
                                before,
                                *terms,
                                op,
                                gen[0]@,
                                gen[1]@,
                                *l,
                                *param,
                                i,
                            );
                        }
                        assert forall|i: int| 0 <= i < n implies #[trigger] terms.coeff_seq()[i]
                            == turned_coeff::<B, C>(turn, before, g, *param, i) by {
                            let k = terms.key(i);
                        }
                    }
                    return 0;
                }
            }
        }
    }
    proof {
        assert(!(turn is Table));
    }
    let flags: Vec<u32> = flag_anticommuting::<B, C>(terms, gen, gen_row.as_slice(), &local);
    if let Some(cos) = phase_only {
        scale_flagged(terms, &flags, cos);
        proof {
            assert forall|i: int| 0 <= i < n implies #[trigger] terms.coeff_seq()[i]
                == turned_coeff::<B, C>(turn, before, g, *param, i) by {
                assert(flags@[i] == flag_of(!B::commuting(before.key(i), g)));
            }
            assert forall|i: int| 0 <= i < n implies #[trigger] terms.key(i) == before.key(i) by {}
        }
        return 0;
    }
    let (_index, total_new) = number(&flags);
    if total_new == 0 {
        proof {
            assert forall|i: int| 0 <= i < n implies B::commuting(#[trigger] before.key(i), g) by {
                assert(flags@[i] == flag_of(!B::commuting(before.key(i), g)));
                if flags@[i] != 0 {
                    lemma_rank_below(flags@, i, n);
                }
            }
            assert forall|i: int| 0 <= i < n implies #[trigger] terms.coeff_seq()[i]
                == turned_coeff::<B, C>(turn, before, g, *param, i) by {
                let k = before.key(i);
            }
            assert forall|i: int| 0 <= i < n implies #[trigger] flags@[i] == 0 by {
                let k = before.key(i);
            }
        }
        return 0;
    }
    if clifford_inplace {
        rewrite_flagged::<B, C>(terms, gen, gen_row.as_slice(), &local, &flags, param);
        return 0;
    }
    append_flagged::<B, C>(terms, gen, gen_row.as_slice(), &local, &flags, param)
}

/// The factor a table gives a weight; weights past its end get the last.
pub open spec fn lut_factor<R>(lut: Seq<R>, weight: u32) -> R {
    lut[if weight < lut.len() {
        weight as int
    } else {
        lut.len() - 1
    }]
}

/// Damps every coefficient by the factor its weight has in the table.
pub fn apply_noise_inplace<B: SoaBasis, C: CoeffRepr>(
    terms: &mut SoaTermSum<C>,
    exp_lut: &Vec<C::Real>,
)
    requires
        old(terms).wf(),
        old(terms).row_lists().len() > 0 ==> exp_lut@.len() > 0,
    ensures
        final(terms).wf(),
        final(terms).rows == old(terms).rows,
        final(terms).same_setup(*old(terms)),
        final(terms).synced() == old(terms).synced(),
        old(terms).indexed::<B>() ==> final(terms).indexed::<B>(),
        forall|i: int|
            0 <= i < old(terms).row_lists().len() ==> #[trigger] final(terms).coeff_seq()[i] == old(terms).coeff_seq()[i].scaled(
                lut_factor(exp_lut@, B::weight_of(old(terms).key(i), old(terms).units())),
            ),
        forall|i: int|
            0 <= i < old(terms).row_lists().len() && B::weight_of(
                old(terms).key(i),
                old(terms).units(),
            ) < exp_lut@.len() ==> #[trigger] final(terms).coeff_seq()[i]
                == old(terms).coeff_seq()[i].scaled(
                exp_lut@[B::weight_of(old(terms).key(i), old(terms).units()) as int],
            ),
        forall|i: int|
            0 <= i < old(terms).row_lists().len() && B::weight_of(
                old(terms).key(i),
                old(terms).units(),
            ) >= exp_lut@.len() ==> #[trigger] final(terms).coeff_seq()[i]
                == old(terms).coeff_seq()[i].scaled(exp_lut@.last()),
{
    let weights: Vec<u32> = weights_of::<B, C>(terms);
    if weights.len() == 0 {
        return;
    }
    let lut_max: usize = exp_lut.len() - 1;
    let mut factors: Vec<C::Real> = Vec::new();
    while factors.len() < weights.len()
        invariant
            exp_lut@.len() == lut_max + 1,
            factors@.len() <= weights@.len(),
            forall|i: int|
                0 <= i < factors@.len() ==> #[trigger] factors@[i] == lut_factor(
                    exp_lut@,
                    weights@[i],
                ),
        decreases weights@.len() - factors@.len(),
    {
        let w: u32 = weights[factors.len()];
        let at: usize = if (w as u64) < (lut_max as u64) {
            w as usize
        } else {
            lut_max
        };
        factors.push(exp_lut[at]);
    }
    scale_each(terms, &factors);
}

/// Scales every coefficient by its factor.
pub fn scale_each<C: CoeffRepr>(terms: &mut SoaTermSum<C>, factors: &Vec<C::Real>)
    requires
        old(terms).wf(),
        factors@.len() == old(terms).row_lists().len(),
    ensures
        final(terms).wf(),
        final(terms).rows == old(terms).rows,
        final(terms).hashes == old(terms).hashes,
        final(terms).merge_tables == old(terms).merge_tables,
        final(terms).merge_synced_len == old(terms).merge_synced_len,
        final(terms).same_setup(*old(terms)),
        forall|i: int|
            0 <= i < factors@.len() ==> #[trigger] final(terms).coeff_seq()[i] == old(terms).coeff_seq()[i].scaled(factors@[i]),
{
    let n: usize = factors.len();
    let mut i: usize = 0;
    while i < n
        invariant
            i <= n,
            n == factors@.len(),
            n == terms.coeffs@.len(),
            n == old(terms).coeffs@.len(),
            n <= terms.coeff_room,
            terms.coeff_room == old(terms).coeff_room,
            terms.rows == old(terms).rows,
            terms.hashes == old(terms).hashes,
            terms.merge_tables == old(terms).merge_tables,
            terms.merge_synced_len == old(terms).merge_synced_len,
            terms.same_setup(*old(terms)),
            forall|x: int|
                0 <= x < i ==> #[trigger] terms.coeffs@[x] == old(terms).coeffs@[x].scaled(
                    factors@[x],
                ),
            forall|x: int| i <= x < n ==> #[trigger] terms.coeffs@[x] == old(terms).coeffs@[x],
        decreases n - i,
    {
        let mut c: C = terms.coeffs[i].duplicate();
        c.scale_real(factors[i]);
        terms.coeffs.set(i, c);
        i += 1;
    }
}

/// Damps every coefficient by the factor a plugin gives its weight, as one batch if the plugin
/// takes one and term by term otherwise.
pub fn apply_noise_native<B: SoaBasis, C: CoeffRepr, K: NoiseKernel<C::Real>>(
    terms: &mut SoaTermSum<C>,
    handle: &K,
)
    requires
        old(terms).wf(),
    ensures
        final(terms).wf(),
        final(terms).rows == old(terms).rows,
        final(terms).same_setup(*old(terms)),
        final(terms).synced() == old(terms).synced(),
        old(terms).indexed::<B>() ==> final(terms).indexed::<B>(),
        forall|i: int|
            0 <= i < old(terms).row_lists().len() ==> #[trigger] final(terms).coeff_seq()[i] == old(terms).coeff_seq()[i].scaled(
                handle.factor_of(
                    B::kind_of(),
                    Seq::<u64>::empty(),
                    old(terms).units(),
                    B::weight_of(old(terms).key(i), old(terms).units()),
                ),
            ),
{
    let weights: Vec<u32> = weights_of::<B, C>(terms);
    let no_words: [u64; 0] = [];
    proof {
        assert(no_words@ =~= Seq::<u64>::empty());
        assert(weights@.len() * 0 == 0) by (nonlinear_arith);
        assert forall|i: int| 0 <= i < weights@.len() implies #[trigger] term_kernel::batch_words(
            no_words@,
            0,
            i,
        ) == Seq::<u64>::empty() by {
            assert(i * 0 == 0) by (nonlinear_arith);
            assert(term_kernel::batch_words(no_words@, 0, i) =~= Seq::<u64>::empty());
        }
    }
    let factors: Vec<C::Real> = handle.factor_batch(
        B::kind(),
        no_words.as_slice(),
        0,
        weights.as_slice(),
        terms.n_units,
    );
    scale_each(terms, &factors);
    proof {
        assert forall|i: int| 0 <= i < factors@.len() implies #[trigger] factors@[i]
            == handle.factor_of(B::kind_of(), Seq::<u64>::empty(), terms.units(), weights@[i]) by {
            assert(term_kernel::batch_words(no_words@, 0, i) == Seq::<u64>::empty());
        }
    }
}

/// Sum of every coefficient's value times its row's trace, up to row `n`.
pub open spec fn traced<B: SoaBasis, C: CoeffRepr>(
    terms: SoaTermSum<C>,
    fock: Seq<u64>,
    n: int,
) -> C::Real
    decreases n,
{
    if n <= 0 {
        C::unit(0)
    } else {
        C::totalled(
            traced::<B, C>(terms, fock, n - 1),
            terms.coeff_seq()[n - 1],
            B::trace_of(terms.key(n - 1), terms.units(), fock) as int,
        )
    }
}

/// The expectation value of the sum against a computational basis state, added up in row order.
pub fn expectation<B: SoaBasis, C: CoeffRepr>(terms: &SoaTermSum<C>, fock_state: &[u64]) -> (total:
    C::Real)
    requires
        terms.wf(),
    ensures
        total == traced::<B, C>(*terms, fock_state@, terms.row_lists().len() as int),
{
    let n: usize = terms.len();
    proof {
        terms.rows.lemma_wf();
    }
    let mut ws: RowWorkspace = RowWorkspace::new(terms.layout, terms.rows.stride());
    let mut total: C::Real = C::real_unit(0);
    let mut i: usize = 0;
    while i < n
        invariant
            terms.wf(),
            i <= n,
            n == terms.row_lists().len(),
            ws.fits(terms.rows.span()),
            total == traced::<B, C>(*terms, fock_state@, i as int),
        decreases n - i,
    {
        let t: i8 = row_trace::<B>(&terms.rows, i, terms.n_units, fock_state, &mut ws);
        proof {
            assert(terms.key(i as int) == terms.rows.key(i as int));
        }
        total = terms.coeffs[i].add_to_total(total, t);
        i += 1;
    }
    total
}

/// What the configuration does not keep of the first `n` rows: the magnitudes added up, and the
/// largest.
pub open spec fn discarded<B: SoaBasis, C: CoeffRepr, K: TruncationKernel<C::Real>>(
    cfg: ResolvedConfig<C::Real, K>,
    terms: SoaTermSum<C>,
    n: int,
) -> (C::Real, C::Real)
    decreases n,
{
    if n <= 0 {
        (C::unit(0), C::unit(0))
    } else {
        let (l1, max) = discarded::<B, C, K>(cfg, terms, n - 1);
        let mag = terms.coeff_seq()[n - 1].magnitude_of();
        if kept_by::<B, C, K>(cfg, terms.key(n - 1), terms.coeff_seq()[n - 1], terms.units()) {
            (l1, max)
        } else {
            (
                C::real_sum(l1, mag),
                if C::real_below(max, mag) {
                    mag
                } else {
                    max
                },
            )
        }
    }
}

/// The total and the largest magnitude of the terms the configuration would drop.
pub fn discarded_coeff_stats<B: SoaBasis, C: CoeffRepr, K: TruncationKernel<C::Real>>(
    terms: &SoaTermSum<C>,
    cfg: &ResolvedConfig<C::Real, K>,
) -> (r: (C::Real, C::Real))
    requires
        terms.wf(),
    ensures
        r == discarded::<B, C, K>(*cfg, *terms, terms.row_lists().len() as int),
{
    let n: usize = terms.len();
    proof {
        terms.rows.lemma_wf();
    }
    let mut ws: RowWorkspace = RowWorkspace::new(terms.layout, terms.rows.stride());
    let mut l1: C::Real = C::real_unit(0);
    let mut max: C::Real = C::real_unit(0);
    let mut i: usize = 0;
    while i < n
        invariant
            terms.wf(),
            i <= n,
            n == terms.row_lists().len(),
            ws.fits(terms.rows.span()),
            (l1, max) == discarded::<B, C, K>(*cfg, *terms, i as int),
        decreases n - i,
    {
        if !keeps_row::<B, C, K>(terms, i, cfg, &mut ws) {
            let mag: C::Real = terms.coeffs[i].magnitude();
            l1 = C::real_add(l1, mag);
            if C::real_less(max, mag) {
                max = mag;
            }
        }
        i += 1;
    }
    (l1, max)
}

/// Terms whose magnitude is below `cutoff`.
pub fn terms_below<C: CoeffRepr>(terms: &SoaTermSum<C>, cutoff: C::Real) -> (n: usize)
    ensures
        n == bits::ones(
            Seq::new(
                terms.coeff_seq().len(),
                |i: int| C::real_below(terms.coeff_seq()[i].magnitude_of(), cutoff),
            ),
        ),
{
    let len: usize = terms.coeffs.len();
    let ghost below = Seq::new(
        terms.coeff_seq().len(),
        |i: int| C::real_below(terms.coeff_seq()[i].magnitude_of(), cutoff),
    );
    let mut n: usize = 0;
    let mut i: usize = 0;
    proof {
        assert(below.take(0) =~= Seq::<bool>::empty());
    }
    while i < len
        invariant
            i <= len,
            len == terms.coeff_seq().len(),
            terms.coeff_seq() == terms.coeffs@,
            below == Seq::new(
                terms.coeff_seq().len(),
                |i: int| C::real_below(terms.coeff_seq()[i].magnitude_of(), cutoff),
            ),
            n == bits::ones(below.take(i as int)),
            n <= i,
        decreases len - i,
    {
        proof {
            assert(below.take(i + 1).drop_last() =~= below.take(i as int));
        }
        if C::real_less(terms.coeffs[i].magnitude(), cutoff) {
            n += 1;
        }
        i += 1;
    }
    proof {
        assert(below.take(len as int) =~= below);
    }
    n
}

/// Among the rows up to `i` there is a first one with row `i`'s key.
proof fn lemma_some_first(rows: Seq<Seq<u32>>, i: int) -> (j: int)
    requires
        0 <= i < rows.len(),
    ensures
        0 <= j <= i,
        first(rows, j),
        rows[j] == rows[i],
    decreases i,
{
    if first(rows, i) {
        i
    } else {
        let x = choose|x: int| 0 <= x < i && #[trigger] rows[x] == rows[i];
        lemma_some_first(rows, x)
    }
}

/// A merge loses no key.
pub proof fn law_merge_keeps_keys(rows: Seq<Seq<u32>>, i: int)
    requires
        0 <= i < rows.len(),
    ensures
        merged_rows(rows).contains(rows[i]),
{
    let n = rows.len() as int;
    let flags = first_flags(rows);
    let j = lemma_some_first(rows, i);
    sparse::lemma_flagged(rows, flags, n);
    assert(flags[j] != 0);
    assert(sparse::ranked(rows, flags, n, j));
    assert(merged_rows(rows)[sparse::rank(flags, j) as int] == rows[i]);
}

/// A merge brings in no key.
pub proof fn law_merge_adds_no_key(rows: Seq<Seq<u32>>, j: int)
    requires
        0 <= j < merged_rows(rows).len(),
    ensures
        rows.contains(merged_rows(rows)[j]),
{
    let n = rows.len() as int;
    let flags = first_flags(rows);
    sparse::lemma_flagged(rows, flags, n);
    assert(sparse::stands_at(rows, flags, n, j));
}

/// As many raised flags as there are.
proof fn lemma_rank_all(flags: Seq<u32>, n: int)
    requires
        0 <= n <= flags.len(),
        forall|i: int| 0 <= i < n ==> #[trigger] flags[i] != 0,
    ensures
        sparse::rank(flags, n) == n,
    decreases n,
{
    if n > 0 {
        lemma_rank_all(flags, n - 1);
        sparse::lemma_rank_step(flags, n - 1);
    } else {
        assert(Seq::new(0, |x: int| flags[x] != 0) =~= Seq::<bool>::empty());
    }
}

/// A merged sum is left alone by another merge.
pub proof fn law_merge_settles<C: CoeffRepr>(rows: Seq<Seq<u32>>, coeffs: Seq<C>)
    requires
        store::distinct_rows(rows, rows.len() as int),
        coeffs.len() == rows.len(),
    ensures
        merged_rows(rows) == rows,
        merged_coeffs(rows, coeffs) == coeffs,
{
    let n = rows.len() as int;
    let flags = first_flags(rows);
    assert forall|i: int| 0 <= i < n implies #[trigger] flags[i] != 0 by {
        assert forall|j: int| 0 <= j < i implies #[trigger] rows[j] != rows[i] by {}
        assert(first(rows, i));
    }
    let sums = gathered_all(rows, coeffs);
    assert forall|i: int| 0 <= i < n implies #[trigger] sums[i] == coeffs[i] by {
        assert forall|j: int| i < j && i + 1 <= j < n implies #[trigger] rows[j] != rows[i] by {
            assert(rows[i] != rows[j]);
        }
        lemma_gathered_same(rows, coeffs, i, i + 1, n);
    }
    assert(sums =~= coeffs);
    lemma_rank_all(flags, n);
    sparse::lemma_all_flagged(rows, flags, n);
    sparse::lemma_all_flagged(sums, flags, n);
    assert(rows.take(n) =~= rows);
    assert(coeffs.take(n) =~= coeffs);
}

/// Picking among picked rows is picking once.
proof fn lemma_flagged_twice<T>(rows: Seq<T>, f: Seq<u32>, g: Seq<u32>, h: Seq<u32>, n: int)
    requires
        0 <= n <= rows.len(),
        n <= f.len(),
        n <= h.len(),
        sparse::rank(f, n) <= g.len(),
        forall|i: int|
            0 <= i < n ==> (#[trigger] h[i] != 0 <==> f[i] != 0 && g[sparse::rank(f, i) as int] != 0),
    ensures
        sparse::flagged(sparse::flagged(rows, f, n), g, sparse::rank(f, n) as int)
            == sparse::flagged(rows, h, n),
    decreases n,
{
    sparse::lemma_flagged(rows, f, n);
    if n > 0 {
        sparse::lemma_rank_step(f, n - 1);
        sparse::lemma_flagged(rows, f, n - 1);
        lemma_flagged_twice(rows, f, g, h, n - 1);
        let m = sparse::rank(f, n - 1) as int;
        lemma_flagged_same(
            sparse::flagged(rows, f, n),
            sparse::flagged(rows, f, n - 1),
            g,
            m,
        );
        assert(h[n - 1] != 0 <==> f[n - 1] != 0 && g[m] != 0);
    } else {
        assert(sparse::rank(f, 0) == 0);
    }
}

/// Merging and truncating in one pass picks what a truncation of the merged sum picks.
pub proof fn lemma_one_pass<B: SoaBasis, C: CoeffRepr, K: TruncationKernel<C::Real>>(
    cfg: ResolvedConfig<C::Real, K>,
    before: SoaTermSum<C>,
    merged: SoaTermSum<C>,
    both: SoaTermSum<C>,
)
    requires
        before.wf(),
        cut_down::<B, C, K>(Some(cfg), before, both),
        merged.same_setup(before),
        merged.row_lists() == merged_rows(before.row_lists()),
        merged.coeff_seq() == merged_coeffs(before.row_lists(), before.coeff_seq()),
        cuts(cfg, merged.row_lists().len()),
    ensures
        both.row_lists() == sparse::flagged(
            merged.row_lists(),
            kept_flags::<B, C, K>(cfg, merged),
            merged.row_lists().len() as int,
        ),
        both.coeff_seq() == sparse::flagged(
            merged.coeff_seq(),
            kept_flags::<B, C, K>(cfg, merged),
            merged.row_lists().len() as int,
        ),
{
    let rows = before.row_lists();
    let sums = gathered_all(rows, before.coeff_seq());
    let n = rows.len() as int;
    let f = first_flags(rows);
    let g = kept_flags::<B, C, K>(cfg, merged);
    let h = merge_kept::<B, C, K>(Some(cfg), before);
    sparse::lemma_flagged(rows, f, n);
    sparse::lemma_flagged(sums, f, n);
    assert forall|i: int| 0 <= i < n implies (#[trigger] h[i] != 0 <==> f[i] != 0 && g[sparse::rank(
        f,
        i,
    ) as int] != 0) by {
        if f[i] != 0 {
            assert(sparse::ranked(rows, f, n, i));
            assert(sparse::ranked(sums, f, n, i));
            let j = sparse::rank(f, i) as int;
            assert(merged.row_lists()[j] == rows[i]);
            assert(merged.coeff_seq()[j] == sums[i]);
            assert(merged.key(j) == before.key(i));
        }
    }
    lemma_flagged_twice(rows, f, g, h, n);
    lemma_flagged_twice(sums, f, g, h, n);
}

/// Merging and truncating in one pass is merging and then truncating, where the merged sum is
/// large enough to be truncated.
pub proof fn law_one_pass_is_two<B: SoaBasis, C: CoeffRepr, K: TruncationKernel<C::Real>>(
    cfg: ResolvedConfig<C::Real, K>,
    before: SoaTermSum<C>,
    both: SoaTermSum<C>,
    merged: SoaTermSum<C>,
    apart: SoaTermSum<C>,
)
    requires
        before.wf(),
        cut_down::<B, C, K>(Some(cfg), before, both),
        merged.same_setup(before),
        merged.row_lists() == merged_rows(before.row_lists()),
        merged.coeff_seq() == merged_coeffs(before.row_lists(), before.coeff_seq()),
        cuts(cfg, merged.row_lists().len()),
        apart.row_lists() == sparse::flagged(
            merged.row_lists(),
            kept_flags::<B, C, K>(cfg, merged),
            merged.row_lists().len() as int,
        ),
        apart.coeff_seq() == sparse::flagged(
            merged.coeff_seq(),
            kept_flags::<B, C, K>(cfg, merged),
            merged.row_lists().len() as int,
        ),
    ensures
        both.row_lists() == apart.row_lists(),
        both.coeff_seq() == apart.coeff_seq(),
{
    lemma_one_pass::<B, C, K>(cfg, before, merged, both);
}

/// A truncation keeps a row exactly where the configuration asks it to, key and coefficient
/// unchanged.
pub proof fn law_truncation_keeps_a_part<B: SoaBasis, C: CoeffRepr, K: TruncationKernel<C::Real>>(
    cfg: ResolvedConfig<C::Real, K>,
    before: SoaTermSum<C>,
    after: SoaTermSum<C>,
    i: int,
)
    requires
        before.wf(),
        0 <= i < before.row_lists().len(),
        after.row_lists() == sparse::flagged(
            before.row_lists(),
            kept_flags::<B, C, K>(cfg, before),
            before.row_lists().len() as int,
        ),
        after.coeff_seq() == sparse::flagged(
            before.coeff_seq(),
            kept_flags::<B, C, K>(cfg, before),
            before.row_lists().len() as int,
        ),
    ensures
        after.row_lists().len() <= before.row_lists().len(),
        kept_by::<B, C, K>(cfg, before.key(i), before.coeff_seq()[i], before.units()) ==> exists|
            j: int,
        |
            0 <= j < after.row_lists().len() && #[trigger] after.row_lists()[j]
                == before.row_lists()[i] && after.coeff_seq()[j] == before.coeff_seq()[i],
        i < after.row_lists().len() ==> exists|j: int|
            0 <= j < before.row_lists().len() && #[trigger] before.row_lists()[j]
                == after.row_lists()[i] && before.coeff_seq()[j] == after.coeff_seq()[i] && kept_by::<
                B,
                C,
                K,
            >(cfg, before.key(j), before.coeff_seq()[j], before.units()),
{
    let rows = before.row_lists();
    let coeffs = before.coeff_seq();
    let n = rows.len() as int;
    let flags = kept_flags::<B, C, K>(cfg, before);
    sparse::lemma_flagged(rows, flags, n);
    sparse::lemma_flagged(coeffs, flags, n);
    if kept_by::<B, C, K>(cfg, before.key(i), coeffs[i], before.units()) {
        assert(flags[i] != 0);
        assert(sparse::ranked(rows, flags, n, i));
        assert(sparse::ranked(coeffs, flags, n, i));
        assert(after.row_lists()[sparse::rank(flags, i) as int] == rows[i]);
    }
    if i < after.row_lists().len() {
        assert(sparse::stands_at(rows, flags, n, i));
        let j = choose|j: int|
            0 <= j < n && flags[j] != 0 && sparse::rank(flags, j) == i && sparse::flagged(
                rows,
                flags,
                n,
            )[i] == #[trigger] rows[j];
        assert(sparse::ranked(coeffs, flags, n, j));
    }
}

} // verus!
