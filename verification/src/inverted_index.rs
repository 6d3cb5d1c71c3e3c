//! A transposed view of an operator's keys, one bit vector per bit position.
//!
//! Column `c` has bit `r` set exactly when row `r` touches position `c`. Folding together the
//! columns a generator names leaves, for every row at once, the parity of its overlap with
//! the generator: the anticommutation bit.
//!
//! Columns are tiered, and both tiers answer alike: a column dense enough to be worth a
//! full-height bitmap becomes one, everything else stays an ascending list of rows.
//! Promotion is one-way, which is sound because the store this indexes only ever grows.

use crate::bits;
use crate::conjugation;
use crate::operator_index;
use crate::operator_index::{OperatorIndex, Pos, TermIndex};
use crate::sums;
use vstd::prelude::*;

verus! {

/// One column of the transposed matrix.
enum Column {
    /// Full-height bitmap, one bit per row.
    Dense(Vec<u64>),
    /// Ascending row numbers.
    Sparse(Vec<TermIndex>),
}

/// Words needed for a bitmap over `n` rows.
pub open spec fn words_over(n: int) -> int {
    (n + 63) / 64
}

impl Column {
    /// The column has row `r`.
    spec fn has(&self, r: int) -> bool {
        match self {
            Column::Dense(v) => bits::bit_at(v@, r),
            Column::Sparse(rows) => exists|k: int| 0 <= k < rows@.len() && rows@[k] == r,
        }
    }

    /// The column is laid out for `n` rows.
    spec fn wf(&self, n: int) -> bool {
        match self {
            Column::Dense(v) => v@.len() == words_over(n) && forall|p: int|
                n <= p ==> !#[trigger] bits::bit_at(v@, p),
            Column::Sparse(rows) => {
                &&& forall|k: int| 0 <= k < rows@.len() ==> #[trigger] rows@[k] < n
                &&& forall|j: int, k: int|
                    0 <= j < k < rows@.len() ==> #[trigger] rows@[j] < #[trigger] rows@[k]
            },
        }
    }

    fn is_dense(&self) -> (r: bool)
        ensures
            r == (self is Dense),
    {
        match self {
            Column::Dense(_) => true,
            Column::Sparse(_) => false,
        }
    }
}

/// Transposed key storage over an append-only operator store.
pub struct InvertedIndex {
    columns: Vec<Column>,
    row_count: usize,
    /// Bit `r` is set when row `r`'s key has an odd number of set positions.
    row_parity: Vec<u64>,
}

/// Lengthens `v` to `n` words with zeros.
fn extend_zero(v: &mut Vec<u64>, n: usize)
    requires
        old(v)@.len() <= n,
    ensures
        final(v)@.len() == n,
        forall|p: int| #[trigger] bits::bit_at(final(v)@, p) == bits::bit_at(old(v)@, p),
{
    while v.len() < n
        invariant
            old(v)@.len() <= v@.len() <= n,
            forall|k: int| 0 <= k < old(v)@.len() ==> v@[k] == old(v)@[k],
            forall|k: int| old(v)@.len() <= k < v@.len() ==> v@[k] == 0,
        decreases n - v@.len(),
    {
        v.push(0);
    }
    proof {
        assert forall|p: int| #[trigger] bits::bit_at(v@, p) == bits::bit_at(old(v)@, p) by {
            if 0 <= p < 64 * v@.len() && p >= 64 * old(v)@.len() {
                bits::lemma_bit_zero(p % 64);
                assert(v@[p / 64] == 0);
            }
        }
    }
}

/// Sets bit `r`.
fn set_bit(v: &mut Vec<u64>, r: usize)
    requires
        r < 64 * old(v)@.len(),
    ensures
        final(v)@.len() == old(v)@.len(),
        forall|p: int| #[trigger]
            bits::bit_at(final(v)@, p) == (p == r || bits::bit_at(old(v)@, p)),
{
    let word: usize = r / 64;
    let s: u64 = (r % 64) as u64;
    let x: u64 = v[word] | (1u64 << s);
    v.set(word, x);
    proof {
        assert forall|p: int| #[trigger] bits::bit_at(v@, p) == (p == r || bits::bit_at(
            old(v)@,
            p,
        )) by {
            if 0 <= p < 64 * v@.len() {
                bits::lemma_set_bit_at(old(v)@, r as int, p);
            }
        }
    }
}

/// Flips bit `r`.
fn flip_bit(v: &mut Vec<u64>, r: usize)
    requires
        r < 64 * old(v)@.len(),
    ensures
        final(v)@.len() == old(v)@.len(),
        forall|p: int| #[trigger]
            bits::bit_at(final(v)@, p) == (bits::bit_at(old(v)@, p) != (p == r)),
{
    let word: usize = r / 64;
    let s: u64 = (r % 64) as u64;
    let x: u64 = v[word] ^ (1u64 << s);
    v.set(word, x);
    proof {
        assert forall|p: int| #[trigger] bits::bit_at(v@, p) == (bits::bit_at(old(v)@, p) != (p
            == r)) by {
            if 0 <= p < 64 * v@.len() {
                bits::lemma_set_bit_at(old(v)@, r as int, p);
            }
        }
    }
}

/// Exclusive-ors `src` into `dst`, word by word, over the words both have.
fn xor_into(dst: &mut Vec<u64>, src: &Vec<u64>)
    ensures
        final(dst)@.len() == old(dst)@.len(),
        forall|p: int|
            0 <= p < 64 * old(dst)@.len() ==> #[trigger] bits::bit_at(final(dst)@, p) == (
            bits::bit_at(old(dst)@, p) != bits::bit_at(src@, p)),
{
    let mut i: usize = 0;
    while i < dst.len() && i < src.len()
        invariant
            dst@.len() == old(dst)@.len(),
            i <= dst@.len(),
            i <= src@.len(),
            forall|k: int| 0 <= k < i ==> #[trigger] dst@[k] == old(dst)@[k] ^ src@[k],
            forall|k: int| i <= k < dst@.len() ==> #[trigger] dst@[k] == old(dst)@[k],
        decreases dst@.len() - i,
    {
        let x: u64 = dst[i] ^ src[i];
        dst.set(i, x);
        i += 1;
    }
    proof {
        assert forall|p: int| 0 <= p < 64 * old(dst)@.len() implies #[trigger] bits::bit_at(
            dst@,
            p,
        ) == (bits::bit_at(old(dst)@, p) != bits::bit_at(src@, p)) by {
            if p / 64 < src@.len() {
                bits::lemma_bit_ops(old(dst)@[p / 64], src@[p / 64], p % 64);
                assert(p / 64 < i);
            } else {
                assert(p / 64 >= i);
            }
        }
    }
}

impl InvertedIndex {
    /// Number of rows indexed.
    pub closed spec fn row_total(&self) -> nat {
        self.row_count as nat
    }

    /// Number of columns.
    pub closed spec fn column_total(&self) -> nat {
        self.columns@.len()
    }

    /// Row `r` touches position `c`.
    pub closed spec fn has(&self, c: int, r: int) -> bool {
        self.columns@[c].has(r)
    }

    /// Row `r` touches an odd number of positions.
    pub closed spec fn odd_row(&self, r: int) -> bool {
        bits::bit_at(self.row_parity@, r)
    }

    /// Column `c` is held as a bitmap.
    pub closed spec fn is_dense(&self, c: int) -> bool {
        self.columns@[c] is Dense
    }

    /// The index is laid out for its rows.
    pub closed spec fn wf(&self) -> bool {
        &&& self.row_count < u32::MAX
        &&& forall|c: int|
            0 <= c < self.columns@.len() ==> (#[trigger] self.columns@[c]).wf(
                self.row_count as int,
            )
        &&& self.row_parity@.len() == words_over(self.row_count as int)
        &&& forall|p: int|
            self.row_count <= p ==> !#[trigger] bits::bit_at(self.row_parity@, p)
    }

    /// The index holds the first rows of a store with keys `keys`.
    pub open spec fn mirrors(&self, keys: Seq<Seq<bool>>) -> bool {
        &&& self.row_total() <= keys.len()
        &&& forall|c: int, r: int|
            0 <= c < self.column_total() && 0 <= r < self.row_total() ==> #[trigger] self.has(c, r)
                == (c < keys[r].len() && keys[r][c])
        &&& forall|r: int|
            0 <= r < self.row_total() ==> #[trigger] self.odd_row(r) == bits::odd(keys[r])
    }

    /// Nothing is indexed past the last row.
    pub proof fn lemma_past_end(&self, c: int, r: int)
        requires
            self.wf(),
            0 <= c < self.column_total(),
            r < 0 || r >= self.row_total(),
        ensures
            !self.has(c, r),
    {
        assert(self.columns@[c].wf(self.row_count as int));
    }

    /// No row past the last has odd parity.
    pub proof fn lemma_parity_past_end(&self, r: int)
        requires
            self.wf(),
            r < 0 || r >= self.row_total(),
        ensures
            !self.odd_row(r),
    {
    }

    /// Creates an empty index over `n_columns` bit positions.
    pub fn new(n_columns: usize) -> (s: Self)
        ensures
            s.wf(),
            s.row_total() == 0,
            s.column_total() == n_columns,
            forall|c: int| 0 <= c < n_columns ==> !s.is_dense(c),
    {
        let mut columns: Vec<Column> = Vec::new();
        while columns.len() < n_columns
            invariant
                columns@.len() <= n_columns,
                forall|c: int|
                    0 <= c < columns@.len() ==> (#[trigger] columns@[c]).wf(0) && columns@[c]
                        is Sparse,
            decreases n_columns - columns@.len(),
        {
            columns.push(Column::Sparse(Vec::new()));
        }
        InvertedIndex { columns, row_count: 0, row_parity: Vec::new() }
    }

    /// Number of rows currently indexed.
    pub fn rows(&self) -> (n: usize)
        ensures
            n == self.row_total(),
    {
        self.row_count
    }

    /// Words needed for a full-height bitmap.
    pub fn words(&self) -> (n: usize)
        ensures
            n == words_over(self.row_total() as int),
    {
        let whole: usize = self.row_count / 64;
        if self.row_count % 64 == 0 {
            whole
        } else {
            whole + 1
        }
    }

    /// Lengthens every bitmap to the current height.
    fn extend_columns(&mut self, Ghost(base): Ghost<int>, words: usize)
        requires
            0 <= base <= old(self).row_count,
            words == words_over(old(self).row_count as int),
            forall|c: int|
                0 <= c < old(self).columns@.len() ==> (#[trigger] old(self).columns@[c]).wf(base),
        ensures
            final(self).row_count == old(self).row_count,
            final(self).row_parity == old(self).row_parity,
            final(self).columns@.len() == old(self).columns@.len(),
            forall|c: int|
                0 <= c < old(self).columns@.len() ==> (#[trigger] final(self).columns@[c]).wf(
                    final(self).row_count as int,
                ) && (final(self).columns@[c] is Dense <==> old(self).columns@[c] is Dense) && (
                forall|r: int| #[trigger]
                    final(self).columns@[c].has(r) == old(self).columns@[c].has(r)),
    {
        let mut c: usize = 0;
        while c < self.columns.len()
            invariant
                0 <= base <= self.row_count,
                words == words_over(self.row_count as int),
                self.row_count == old(self).row_count,
                self.row_parity == old(self).row_parity,
                self.columns@.len() == old(self).columns@.len(),
                c <= self.columns@.len(),
                forall|k: int|
                    c <= k < self.columns@.len() ==> #[trigger] self.columns@[k] == old(
                        self,
                    ).columns@[k],
                forall|k: int|
                    0 <= k < old(self).columns@.len() ==> (#[trigger] old(self).columns@[k]).wf(
                        base,
                    ),
                forall|k: int|
                    0 <= k < c ==> (#[trigger] self.columns@[k]).wf(self.row_count as int) && (
                    self.columns@[k] is Dense <==> old(self).columns@[k] is Dense) && (forall|
                        r: int,
                    | #[trigger]
                        self.columns@[k].has(r) == old(self).columns@[k].has(r)),
            decreases self.columns@.len() - c,
        {
            assert(old(self).columns@[c as int].wf(base));
            match &mut self.columns[c] {
                Column::Dense(v) => {
                    extend_zero(v, words);
                },
                Column::Sparse(_) => {},
            }
            c += 1;
        }
    }

    /// Brings the index up to date with `store`, indexing the rows appended since the last
    /// call. Rows already indexed are not read again.
    pub fn sync_to<P: Pos, const W: usize>(&mut self, store: &OperatorIndex<P, W>)
        requires
            old(self).wf(),
            store.wf(),
            forall|r: int|
                old(self).row_total() <= r < store.keys().len() ==> conjugation::within(
                    #[trigger] store.keys()[r],
                    old(self).column_total() as int,
                ),
        ensures
            final(self).wf(),
            final(self).column_total() == old(self).column_total(),
            final(self).row_total() == (if store.keys().len() > old(self).row_total() {
                store.keys().len()
            } else {
                old(self).row_total()
            }),
            forall|c: int, r: int|
                0 <= c < final(self).column_total() && 0 <= r < final(self).row_total()
                    ==> #[trigger] final(self).has(c, r) == (if r < old(self).row_total() {
                    old(self).has(c, r)
                } else {
                    c < 64 * W && store.keys()[r][c]
                }),
            forall|r: int|
                0 <= r < final(self).row_total() ==> #[trigger] final(self).odd_row(r) == (if r
                    < old(self).row_total() {
                    old(self).odd_row(r)
                } else {
                    bits::odd(store.keys()[r])
                }),
            forall|c: int|
                0 <= c < final(self).column_total() ==> #[trigger] final(self).is_dense(c) == (
                old(self).is_dense(c) || (store.keys().len() > old(self).row_total() && 64
                    * final(self).entries(c) >= final(self).row_total())),
    {
        let total: usize = store.len();
        if total <= self.row_count {
            return;
        }
        proof {
            store.lemma_wf();
        }
        let base: usize = self.row_count;
        let ghost n_columns = self.columns@.len();
        self.row_count = total;
        let words: usize = self.words();
        self.extend_columns(Ghost(base as int), words);
        extend_zero(&mut self.row_parity, words);
        let mut r: usize = base;
        proof {
            assert forall|c: int, x: int| 0 <= c < n_columns && base <= x implies !#[trigger] self.columns@[c].has(x) by {
                old(self).lemma_past_end(c, x);
                assert(old(self).columns@[c].wf(base as int));
            }
            assert forall|x: int| base <= x implies !#[trigger] bits::bit_at(self.row_parity@, x) by {}
        }
        while r < total
            invariant
                store.wf(),
                total == store.keys().len(),
                total == store.row_count(),
                total < u32::MAX,
                forall|i: int| 0 <= i < total ==> (#[trigger] store.keys()[i]).len() == 64 * W,
                forall|i: int|
                    base <= i < total ==> conjugation::within(
                        #[trigger] store.keys()[i],
                        n_columns as int,
                    ),
                words == words_over(total as int),
                self.row_count == total,
                self.columns@.len() == n_columns,
                old(self).columns@.len() == n_columns,
                old(self).row_count == base,
                old(self).row_parity@.len() == words_over(base as int),
                base <= r <= total,
                forall|c: int|
                    0 <= c < n_columns ==> (#[trigger] self.columns@[c]).wf(total as int) && (
                    self.columns@[c] is Dense <==> old(self).columns@[c] is Dense),
                forall|c: int, x: int|
                    0 <= c < n_columns && x < base ==> #[trigger] self.columns@[c].has(x) == old(
                        self,
                    ).columns@[c].has(x),
                forall|c: int, x: int|
                    0 <= c < n_columns && base <= x < r ==> #[trigger] self.columns@[c].has(x) == (
                    c < 64 * W && store.keys()[x][c]),
                forall|c: int, x: int|
                    0 <= c < n_columns && r <= x ==> !#[trigger] self.columns@[c].has(x),
                self.row_parity@.len() == words,
                forall|x: int|
                    x < base ==> #[trigger] bits::bit_at(self.row_parity@, x) == bits::bit_at(
                        old(self).row_parity@,
                        x,
                    ),
                forall|x: int|
                    base <= x < r ==> #[trigger] bits::bit_at(self.row_parity@, x) == bits::odd(
                        store.keys()[x],
                    ),
                forall|x: int| r <= x ==> !#[trigger] bits::bit_at(self.row_parity@, x),
            decreases total - r,
        {
            let ghost key = store.keys()[r as int];
            let mut positions: Vec<usize> = Vec::new();
            store.for_each_position(r, &mut positions);
            let ghost start = self.columns@;
            let ghost parity = self.row_parity@;
            proof {
                bits::lemma_set_positions(key);
                assert(positions@.len() == bits::ones(key));
                assert forall|k: int| 0 <= k < positions@.len() implies #[trigger] positions@[k]
                    == bits::set_positions(key)[k] by {
                    assert(positions@[0 + k] == bits::set_positions(key)[k]);
                }
                assert forall|k: int| 0 <= k < positions@.len() implies #[trigger] positions@[k]
                    < n_columns by {
                    let p = bits::set_positions(key)[k];
                    assert(conjugation::within(key, n_columns as int));
                    assert(key[p]);
                }
            }
            let mut j: usize = 0;
            while j < positions.len()
                invariant
                    r < total,
                    total < u32::MAX,
                    words == words_over(total as int),
                    key.len() == 64 * W,
                    j <= positions@.len(),
                    positions@.len() == bits::set_positions(key).len(),
                    forall|k: int|
                        0 <= k < positions@.len() ==> #[trigger] positions@[k]
                            == bits::set_positions(key)[k],
                    forall|k: int|
                        0 <= k < positions@.len() ==> #[trigger] positions@[k] < n_columns,
                    forall|a: int, b: int|
                        0 <= a < b < positions@.len() ==> #[trigger] positions@[a]
                            < #[trigger] positions@[b],
                    self.row_count == total,
                    self.row_parity@ == parity,
                    self.columns@.len() == n_columns,
                    start.len() == n_columns,
                    forall|c: int|
                        0 <= c < n_columns ==> (#[trigger] self.columns@[c]).wf(total as int) && (
                        self.columns@[c] is Dense <==> start[c] is Dense),
                    forall|c: int, x: int|
                        0 <= c < n_columns && r <= x ==> !#[trigger] start[c].has(x),
                    forall|c: int, x: int|
                        0 <= c < n_columns && x != r ==> #[trigger] self.columns@[c].has(x)
                            == start[c].has(x),
                    forall|c: int|
                        0 <= c < n_columns ==> #[trigger] self.columns@[c].has(r as int) == exists|
                            k: int,
                        |
                            0 <= k < j && positions@[k] == c,
                decreases positions@.len() - j,
            {
                let pos: usize = positions[j];
                let ghost before = self.columns@;
                proof {
                    assert(before[pos as int].wf(total as int));
                    assert(!before[pos as int].has(r as int)) by {
                        if before[pos as int].has(r as int) {
                            let k = choose|k: int| 0 <= k < j && positions@[k] == pos;
                            assert(positions@[k] < positions@[j as int]);
                        }
                    }
                    assert forall|x: int| r <= x implies !#[trigger] before[pos as int].has(x) by {
                        if x != r {
                            assert(before[pos as int].has(x) == start[pos as int].has(x));
                        }
                    }
                }
                match &mut self.columns[pos] {
                    Column::Dense(v) => {
                        set_bit(v, r);
                    },
                    Column::Sparse(rows) => {
                        let ghost prev = rows@;
                        proof {
                            assert forall|k: int| 0 <= k < prev.len() implies #[trigger] prev[k]
                                < r by {
                                if prev[k] >= r {
                                    assert(before[pos as int].has(prev[k] as int));
                                }
                            }
                        }
                        rows.push(r as TermIndex);
                    },
                }
                proof {
                    let now = self.columns@[pos as int];
                    let was = before[pos as int];
                    assert forall|x: int| #[trigger] now.has(x) == (x == r || was.has(x)) by {
                        match (now, was) {
                            (Column::Sparse(a), Column::Sparse(b)) => {
                                if was.has(x) {
                                    let k = choose|k: int| 0 <= k < b@.len() && b@[k] == x;
                                    assert(a@[k] == x);
                                }
                                if x == r {
                                    assert(a@[b@.len() as int] == x);
                                }
                                if now.has(x) {
                                    let k = choose|k: int| 0 <= k < a@.len() && a@[k] == x;
                                    if k < b@.len() {
                                        assert(b@[k] == x);
                                    }
                                }
                            },
                            _ => {},
                        }
                    }
                    assert forall|c: int| 0 <= c < n_columns implies #[trigger] self.columns@[c].has(
                        r as int,
                    ) == exists|k: int| 0 <= k < j + 1 && positions@[k] == c by {
                        if c == pos {
                            assert(positions@[j as int] == c);
                        } else {
                            assert(self.columns@[c] == before[c]);
                        }
                    }
                    assert forall|c: int, x: int|
                        0 <= c < n_columns && x != r implies #[trigger] self.columns@[c].has(x)
                        == start[c].has(x) by {
                        if c != pos {
                            assert(self.columns@[c] == before[c]);
                        }
                        assert(before[c].has(x) == start[c].has(x));
                    }
                }
                j += 1;
            }
            if positions.len() % 2 == 1 {
                set_bit(&mut self.row_parity, r);
            }
            proof {
                assert forall|c: int| 0 <= c < n_columns implies #[trigger] self.columns@[c].has(
                    r as int,
                ) == (c < 64 * W && key[c]) by {
                    if c < 64 * W && key[c] {
                        assert(bits::set_positions(key).contains(c));
                        let k = choose|k: int|
                            0 <= k < bits::set_positions(key).len() && bits::set_positions(key)[k]
                                == c;
                        assert(positions@[k] == c);
                    }
                    if self.columns@[c].has(r as int) {
                        let k = choose|k: int| 0 <= k < j && positions@[k] == c;
                        assert(key[bits::set_positions(key)[k]]);
                    }
                }
                assert forall|c: int, x: int|
                    0 <= c < n_columns && x < base implies #[trigger] self.columns@[c].has(x)
                    == old(self).columns@[c].has(x) by {
                    assert(self.columns@[c].has(x) == start[c].has(x));
                }
                assert forall|c: int, x: int|
                    0 <= c < n_columns && base <= x < r + 1 implies #[trigger] self.columns@[c].has(
                    x,
                ) == (c < 64 * W && store.keys()[x][c]) by {
                    if x < r {
                        assert(self.columns@[c].has(x) == start[c].has(x));
                    }
                }
                assert forall|c: int, x: int|
                    0 <= c < n_columns && r + 1 <= x implies !#[trigger] self.columns@[c].has(
                    x,
                ) by {
                    assert(self.columns@[c].has(x) == start[c].has(x));
                }
            }
            r += 1;
        }
        let ghost full = *self;
        self.promote_columns(words);
        proof {
            assert forall|c: int| 0 <= c < n_columns implies #[trigger] self.is_dense(c) == (old(
                self,
            ).is_dense(c) || 64 * self.entries(c) >= self.row_total()) by {
                assert(full.is_dense(c) == old(self).is_dense(c)) by {
                    assert(full.columns@[c] is Dense <==> old(self).columns@[c] is Dense);
                }
                assert(Seq::new(self.row_total(), |r: int| self.has(c, r)) =~= Seq::new(
                    full.row_total(),
                    |r: int| full.has(c, r),
                ));
            }
        }
    }

    /// Promotes every list that at least one row in 64 touches to a bitmap.
    fn promote_columns(&mut self, words: usize)
        requires
            old(self).wf(),
            words == words_over(old(self).row_count as int),
        ensures
            final(self).wf(),
            final(self).row_count == old(self).row_count,
            final(self).row_parity == old(self).row_parity,
            final(self).columns@.len() == old(self).columns@.len(),
            forall|c: int, r: int|
                0 <= c < old(self).columns@.len() ==> #[trigger] final(self).has(c, r) == old(
                    self,
                ).has(c, r),
            forall|c: int|
                0 <= c < old(self).columns@.len() ==> #[trigger] final(self).is_dense(c) == (old(
                    self,
                ).is_dense(c) || 64 * old(self).entries(c) >= old(self).row_total()),
    {
        let mut c: usize = 0;
        while c < self.columns.len()
            invariant
                words == words_over(self.row_count as int),
                old(self).wf(),
                forall|k: int|
                    0 <= k < c ==> (#[trigger] self.columns@[k] is Dense) == (old(self).is_dense(k)
                        || 64 * old(self).entries(k) >= old(self).row_total()),
                forall|k: int|
                    c <= k < self.columns@.len() ==> #[trigger] self.columns@[k] == old(
                        self,
                    ).columns@[k],
                self.row_count == old(self).row_count,
                self.row_parity == old(self).row_parity,
                self.columns@.len() == old(self).columns@.len(),
                c <= self.columns@.len(),
                forall|k: int|
                    0 <= k < self.columns@.len() ==> (#[trigger] self.columns@[k]).wf(
                        self.row_count as int,
                    ) && (forall|r: int| #[trigger]
                        self.columns@[k].has(r) == old(self).columns@[k].has(r)),
            decreases self.columns@.len() - c,
        {
            proof {
                old(self).lemma_list_len(c as int);
                assert(self.columns@[c as int] == old(self).columns@[c as int]);
            }
            // A list of at least `words` rows is one row in 64 or more.
            let promote: bool = match &self.columns[c] {
                Column::Sparse(rows) => rows.len() >= words,
                Column::Dense(_) => false,
            };
            if promote {
                let dense: Column = Self::promote(&self.columns[c], words, Ghost(self.row_count as int));
                self.columns.set(c, dense);
            }
            c += 1;
        }
    }

    /// A list rewritten as a full-height bitmap.
    fn promote(col: &Column, words: usize, Ghost(n): Ghost<int>) -> (dense: Column)
        requires
            0 <= n < u32::MAX,
            words == words_over(n),
            col.wf(n),
        ensures
            dense.wf(n),
            dense is Dense,
            forall|r: int| #[trigger] dense.has(r) == col.has(r),
    {
        let mut v: Vec<u64> = Vec::new();
        match col {
            Column::Dense(d) => {
                let mut i: usize = 0;
                while i < d.len()
                    invariant
                        i <= d@.len(),
                        v@ == d@.take(i as int),
                    decreases d@.len() - i,
                {
                    v.push(d[i]);
                    i += 1;
                }
                proof {
                    assert(v@ =~= d@);
                }
            },
            Column::Sparse(rows) => {
                extend_zero(&mut v, words);
                let mut i: usize = 0;
                while i < rows.len()
                    invariant
                        i <= rows@.len(),
                        v@.len() == words,
                        words == words_over(n),
                        forall|k: int| 0 <= k < rows@.len() ==> #[trigger] rows@[k] < n,
                        forall|p: int| #[trigger]
                            bits::bit_at(v@, p) == exists|k: int| 0 <= k < i && rows@[k] == p,
                    decreases rows@.len() - i,
                {
                    let ghost before = v@;
                    set_bit(&mut v, rows[i] as usize);
                    proof {
                        assert forall|p: int| #[trigger] bits::bit_at(v@, p) == exists|k: int|
                            0 <= k < i + 1 && rows@[k] == p by {
                            if p == rows@[i as int] {
                                assert(rows@[i as int] == p);
                            } else {
                                assert(bits::bit_at(v@, p) == bits::bit_at(before, p));
                            }
                        }
                    }
                    i += 1;
                }
            },
        }
        Column::Dense(v)
    }

    /// Drops every indexed row, keeping the column set.
    pub fn reset(&mut self)
        ensures
            final(self).wf(),
            final(self).row_total() == 0,
            final(self).column_total() == old(self).column_total(),
            forall|c: int|
                0 <= c < final(self).column_total() ==> !#[trigger] final(self).is_dense(c),
    {
        let mut c: usize = 0;
        while c < self.columns.len()
            invariant
                self.columns@.len() == old(self).columns@.len(),
                c <= self.columns@.len(),
                forall|k: int|
                    0 <= k < c ==> (#[trigger] self.columns@[k]).wf(0) && self.columns@[k]
                        is Sparse,
            decreases self.columns@.len() - c,
        {
            self.columns.set(c, Column::Sparse(Vec::new()));
            c += 1;
        }
        self.row_parity.clear();
        self.row_count = 0;
    }

    /// Folds the named columns together into `out`: bit `r` is set exactly when row `r`
    /// touches the given columns an odd number of times.
    pub fn combine(&self, columns: &[usize], out: &mut Vec<u64>)
        requires
            self.wf(),
            forall|k: int| 0 <= k < columns@.len() ==> #[trigger] columns@[k] < self.column_total(),
        ensures
            final(out)@.len() == words_over(self.row_total() as int),
            forall|r: int| #[trigger]
                bits::bit_at(final(out)@, r) == bits::odd(
                    Seq::new(columns@.len(), |k: int| self.has(columns@[k] as int, r)),
                ),
    {
        let words: usize = self.words();
        out.clear();
        extend_zero(out, words);
        let mut i: usize = 0;
        proof {
            assert forall|r: int| #[trigger] bits::bit_at(out@, r) == bits::odd(
                Seq::new(0, |k: int| self.has(columns@[k] as int, r)),
            ) by {
                bits::lemma_ones_none(Seq::new(0, |k: int| self.has(columns@[k] as int, r)));
            }
        }
        while i < columns.len()
            invariant
                self.wf(),
                i <= columns@.len(),
                words == words_over(self.row_count as int),
                out@.len() == words,
                forall|k: int|
                    0 <= k < columns@.len() ==> #[trigger] columns@[k] < self.column_total(),
                forall|r: int| #[trigger]
                    bits::bit_at(out@, r) == bits::odd(
                        Seq::new(i as nat, |k: int| self.has(columns@[k] as int, r)),
                    ),
            decreases columns@.len() - i,
        {
            let c: usize = columns[i];
            let ghost before = out@;
            proof {
                assert(self.columns@[c as int].wf(self.row_count as int));
            }
            match &self.columns[c] {
                Column::Dense(v) => {
                    xor_into(out, v);
                },
                Column::Sparse(rows) => {
                    let mut j: usize = 0;
                    while j < rows.len()
                        invariant
                            j <= rows@.len(),
                            words == words_over(self.row_count as int),
                            out@.len() == words,
                            forall|k: int|
                                0 <= k < rows@.len() ==> #[trigger] rows@[k] < self.row_count,
                            forall|a: int, b: int|
                                0 <= a < b < rows@.len() ==> #[trigger] rows@[a]
                                    < #[trigger] rows@[b],
                            forall|p: int| #[trigger]
                                bits::bit_at(out@, p) == (bits::bit_at(before, p) != (exists|k: int|
                                    0 <= k < j && rows@[k] == p)),
                        decreases rows@.len() - j,
                    {
                        let ghost prev = out@;
                        flip_bit(out, rows[j] as usize);
                        proof {
                            assert forall|p: int| #[trigger] bits::bit_at(out@, p) == (bits::bit_at(
                                before,
                                p,
                            ) != (exists|k: int| 0 <= k < j + 1 && rows@[k] == p)) by {
                                assert(bits::bit_at(out@, p) == (bits::bit_at(prev, p) != (p
                                    == rows@[j as int])));
                                if p == rows@[j as int] {
                                    assert(!(exists|k: int| 0 <= k < j && rows@[k] == p));
                                    assert(rows@[j as int] == p);
                                }
                            }
                        }
                        j += 1;
                    }
                },
            }
            proof {
                assert forall|r: int| #[trigger] bits::bit_at(out@, r) == bits::odd(
                    Seq::new((i + 1) as nat, |k: int| self.has(columns@[k] as int, r)),
                ) by {
                    let s = Seq::new((i + 1) as nat, |k: int| self.has(columns@[k] as int, r));
                    assert(s.drop_last() =~= Seq::new(
                        i as nat,
                        |k: int| self.has(columns@[k] as int, r),
                    ));
                    assert(bits::bit_at(before, r) == bits::odd(s.drop_last()));
                    if r < 0 || r >= 64 * words {
                        self.lemma_past_end(c as int, r);
                    }
                    assert(bits::bit_at(out@, r) == (bits::bit_at(before, r) != self.has(
                        c as int,
                        r,
                    )));
                    assert(s.last() == self.has(c as int, r));
                }
            }
            i += 1;
        }
    }

    /// Exclusive-ors the per-row key parity into `out`.
    pub fn apply_row_parity(&self, out: &mut Vec<u64>)
        ensures
            final(out)@.len() == old(out)@.len(),
            forall|r: int|
                0 <= r < 64 * old(out)@.len() ==> #[trigger] bits::bit_at(final(out)@, r) == (
                bits::bit_at(old(out)@, r) != self.odd_row(r)),
    {
        xor_into(out, &self.row_parity);
    }

    /// How many of the first `n` columns are bitmaps.
    pub open spec fn dense_among(&self, n: int) -> nat {
        bits::ones(Seq::new(n as nat, |c: int| self.is_dense(c)))
    }

    /// Number of dense columns.
    pub fn dense_column_count(&self) -> (n: usize)
        ensures
            n == self.dense_among(self.column_total() as int),
    {
        let mut n: usize = 0;
        let mut c: usize = 0;
        while c < self.columns.len()
            invariant
                c <= self.columns@.len(),
                n <= c,
                n == self.dense_among(c as int),
            decreases self.columns@.len() - c,
        {
            proof {
                assert(Seq::new((c + 1) as nat, |k: int| self.is_dense(k)).drop_last() =~= Seq::new(
                    c as nat,
                    |k: int| self.is_dense(k),
                ));
            }
            if self.columns[c].is_dense() {
                n += 1;
            }
            c += 1;
        }
        n
    }

    /// How many rows column `c` has.
    pub open spec fn entries(&self, c: int) -> nat {
        bits::ones(Seq::new(self.row_total(), |r: int| self.has(c, r)))
    }

    /// The columns may have room for `room[c]` words or rows each: for all they hold, within what
    /// a vector can allocate.
    pub open spec fn room_fits(&self, room: Seq<usize>) -> bool {
        &&& room.len() == self.column_total()
        &&& forall|c: int|
            0 <= c < room.len() ==> if self.is_dense(c) {
                #[trigger] room[c] >= words_over(self.row_total() as int) && 8 * room[c]
                    <= isize::MAX
            } else {
                room[c] >= self.entries(c) && 4 * room[c] <= isize::MAX
            }
    }

    /// Bytes of the bitmaps among the first `n` columns.
    pub open spec fn dense_bytes(&self, room: Seq<usize>, n: int) -> nat
        decreases n,
    {
        if n <= 0 {
            0
        } else {
            self.dense_bytes(room, n - 1) + (if self.is_dense(n - 1) {
                8 * room[n - 1] as nat
            } else {
                0
            })
        }
    }

    /// Bytes of the lists among the first `n` columns.
    pub open spec fn sparse_bytes(&self, room: Seq<usize>, n: int) -> nat
        decreases n,
    {
        if n <= 0 {
            0
        } else {
            self.sparse_bytes(room, n - 1) + (if self.is_dense(n - 1) {
                0
            } else {
                4 * room[n - 1] as nat
            })
        }
    }

    /// The bytes of bitmaps and of lists are `r`, as far as they can be counted, and so many
    /// columns are bitmaps, if the columns have room for `room[c]` words or rows each.
    pub open spec fn tiers(&self, room: Seq<usize>, r: (usize, usize, usize)) -> bool {
        let n = self.column_total() as int;
        &&& r.0 == operator_index::counted(self.dense_bytes(room, n) as int)
        &&& r.1 == operator_index::counted(self.sparse_bytes(room, n) as int)
        &&& r.2 == self.dense_among(n)
    }

    /// A list holds each of its rows once.
    proof fn lemma_list_len(&self, c: int)
        requires
            self.wf(),
            0 <= c < self.columns@.len(),
        ensures
            self.columns@[c] matches Column::Sparse(rows) ==> rows@.len() == self.entries(c),
    {
        assert(self.columns@[c].wf(self.row_count as int));
        if let Column::Sparse(rows) = self.columns@[c] {
            let s = Seq::new(self.row_total(), |r: int| self.has(c, r));
            let a = Seq::new(rows@.len(), |k: int| rows@[k] as int);
            bits::lemma_set_positions(s);
            let b = bits::set_positions(s);
            assert forall|x: int| a.contains(x) <==> b.contains(x) by {
                if a.contains(x) {
                    let k = choose|k: int| 0 <= k < a.len() && a[k] == x;
                    assert(rows@[k] == x);
                    assert(self.has(c, x));
                    assert(s[x]);
                }
                if b.contains(x) {
                    let k = choose|k: int| 0 <= k < b.len() && b[k] == x;
                    assert(s[b[k]]);
                    let j = choose|j: int| 0 <= j < rows@.len() && rows@[j] == x;
                    assert(a[j] == x);
                }
            }
            bits::lemma_ascending_unique(a, b);
        }
    }

    /// How many words or rows each column has room for.
    fn room(&self) -> (room: Vec<usize>)
        requires
            self.wf(),
        ensures
            self.room_fits(room@),
    {
        let mut room: Vec<usize> = Vec::new();
        while room.len() < self.columns.len()
            invariant
                self.wf(),
                room@.len() <= self.columns@.len(),
                forall|c: int|
                    0 <= c < room@.len() ==> if self.is_dense(c) {
                        #[trigger] room@[c] >= words_over(self.row_total() as int) && 8 * room@[c]
                            <= isize::MAX
                    } else {
                        room@[c] >= self.entries(c) && 4 * room@[c] <= isize::MAX
                    },
            decreases self.columns@.len() - room@.len(),
        {
            let c: usize = room.len();
            proof {
                self.lemma_list_len(c as int);
                assert(self.columns@[c as int].wf(self.row_count as int));
                broadcast use vstd::layout::layout_of_primitives;

            }
            let n: usize = match &self.columns[c] {
                Column::Dense(v) => operator_index::vec_capacity(v),
                Column::Sparse(rows) => operator_index::vec_capacity(rows),
            };
            room.push(n);
        }
        room
    }

    /// Bytes of bitmaps, bytes of lists, and how many columns are bitmaps, if the columns have
    /// room for `room[c]` words or rows each. Bytes are counted up to the largest `usize`.
    pub fn tiers_with(&self, room: &Vec<usize>) -> (r: (usize, usize, usize))
        requires
            self.wf(),
            self.room_fits(room@),
        ensures
            self.tiers(room@, r),
    {
        let mut dense_bytes: usize = 0;
        let mut sparse_bytes: usize = 0;
        let mut dense_columns: usize = 0;
        let mut c: usize = 0;
        while c < self.columns.len()
            invariant
                self.wf(),
                self.room_fits(room@),
                c <= self.columns@.len(),
                dense_columns <= c,
                dense_columns == self.dense_among(c as int),
                dense_bytes == operator_index::counted(self.dense_bytes(room@, c as int) as int),
                sparse_bytes == operator_index::counted(self.sparse_bytes(room@, c as int) as int),
            decreases self.columns@.len() - c,
        {
            proof {
                assert(Seq::new((c + 1) as nat, |k: int| self.is_dense(k)).drop_last() =~= Seq::new(
                    c as nat,
                    |k: int| self.is_dense(k),
                ));
                assert(room@[c as int] == room[c as int]);
            }
            if self.columns[c].is_dense() {
                dense_bytes = dense_bytes.saturating_add(8 * room[c]);
                dense_columns += 1;
            } else {
                sparse_bytes = sparse_bytes.saturating_add(4 * room[c]);
            }
            c += 1;
        }
        (dense_bytes, sparse_bytes, dense_columns)
    }

    /// Bytes held by the columns, and their split: bytes of bitmaps, bytes of lists, and how many
    /// columns are bitmaps. Bytes are counted up to the largest `usize`. How much room a column
    /// has beyond its rows is the allocator's choice.
    pub fn byte_split(&self) -> (r: (usize, (usize, usize, usize)))
        requires
            self.wf(),
        ensures
            exists|room: Seq<usize>| #[trigger] self.room_fits(room) && self.tiers(room, r.1),
            r.0 == operator_index::counted(r.1.0 + r.1.1),
    {
        let room: Vec<usize> = self.room();
        let tiers: (usize, usize, usize) = self.tiers_with(&room);
        (tiers.0.saturating_add(tiers.1), tiers)
    }

    /// Bytes held by the columns, counted up to the largest `usize`. How much room a column
    /// has beyond its rows is the allocator's choice.
    pub fn memory_bytes(&self) -> (b: usize)
        requires
            self.wf(),
        ensures
            exists|room: Seq<usize>|
                #[trigger] self.room_fits(room) && b == operator_index::counted(
                    (self.dense_bytes(room, self.column_total() as int) + self.sparse_bytes(
                        room,
                        self.column_total() as int,
                    )) as int,
                ),
    {
        let (b, tiers) = self.byte_split();
        proof {
            let room = choose|room: Seq<usize>|
                #[trigger] self.room_fits(room) && self.tiers(room, tiers);
            assert(self.room_fits(room));
        }
        b
    }

    /// The split of [`InvertedIndex::memory_bytes`]: bytes of bitmaps, bytes of lists, and how
    /// many columns are bitmaps. How much room a column has beyond its rows is the
    /// allocator's choice.
    pub fn tier_stats(&self) -> (r: (usize, usize, usize))
        requires
            self.wf(),
        ensures
            exists|room: Seq<usize>| #[trigger] self.room_fits(room) && self.tiers(room, r),
    {
        self.byte_split().1
    }
}

/// Appends the set bits of a bitmap to `out`, in ascending order.
pub fn for_each_set_bit(bitmap: &[u64], out: &mut Vec<usize>)
    requires
        64 * bitmap@.len() <= usize::MAX,
    ensures
        final(out)@.len() == old(out)@.len() + bits::set_positions(bits::bits_of(bitmap@)).len(),
        forall|k: int| 0 <= k < old(out)@.len() ==> #[trigger] final(out)@[k] == old(out)@[k],
        forall|k: int|
            0 <= k < bits::set_positions(bits::bits_of(bitmap@)).len()
                ==> #[trigger] final(out)@[old(out)@.len() + k] == bits::set_positions(
                bits::bits_of(bitmap@),
            )[k],
{
    let ghost start = out@.len() as int;
    let mut w: usize = 0;
    proof {
        assert(bits::bits_of(bitmap@.take(0)) =~= Seq::<bool>::empty());
    }
    while w < bitmap.len()
        invariant
            w <= bitmap@.len(),
            64 * bitmap@.len() <= usize::MAX,
            start == old(out)@.len(),
            out@.len() == start + bits::set_positions(bits::bits_of(bitmap@.take(w as int))).len(),
            forall|k: int| 0 <= k < start ==> #[trigger] out@[k] == old(out)@[k],
            forall|k: int|
                0 <= k < bits::set_positions(bits::bits_of(bitmap@.take(w as int))).len()
                    ==> #[trigger] out@[start + k] == bits::set_positions(
                    bits::bits_of(bitmap@.take(w as int)),
                )[k],
        decreases bitmap@.len() - w,
    {
        let word: u64 = bitmap[w];
        let ghost head = bits::bits_of(bitmap@.take(w as int));
        let ghost tail = bits::word_bits(word);
        let ghost done = bits::set_positions(head).len() as int;
        proof {
            let t = bitmap@.take(w + 1);
            bits::lemma_bits_of_push(t);
            assert(t.drop_last() =~= bitmap@.take(w as int));
            bits::lemma_positions_add(head, tail);
            bits::lemma_set_positions(tail);
        }
        let mut rest: u64 = word;
        let ghost mut got: int = 0;
        let ghost all = bits::set_positions(tail);
        while rest != 0
            invariant
                w < bitmap@.len(),
                64 * bitmap@.len() <= usize::MAX,
                start == old(out)@.len(),
                head.len() == 64 * w,
                0 <= got <= all.len(),
                out@.len() == start + done + got,
                all.skip(got) == bits::set_positions(bits::word_bits(rest)),
                forall|k: int| 0 <= k < start ==> #[trigger] out@[k] == old(out)@[k],
                done == bits::set_positions(head).len(),
                forall|k: int|
                    0 <= k < done ==> #[trigger] out@[start + k] == bits::set_positions(head)[k],
                forall|k: int|
                    0 <= k < got ==> #[trigger] out@[start + done + k] == all[k] + 64 * w,
            decreases rest,
        {
            proof {
                bits::lemma_drop_lowest(rest);
            }
            let ghost before = bits::word_bits(rest);
            let b: usize = rest.trailing_zeros() as usize;
            let ghost was = rest;
            rest = rest & (rest - 1);
            proof {
                assert forall|q: int| 0 <= q < b implies !#[trigger] before[q] by {
                    assert(!bits::bit(was, q));
                }
                bits::lemma_first_position(before, b as int);
                assert forall|q: int| 0 <= q < 64 implies #[trigger] bits::word_bits(rest)[q]
                    == before.update(b as int, false)[q] by {
                    assert(bits::bit(was & ((was - 1) as u64), q) == (bits::bit(was, q) && q != b));
                }
                assert(bits::word_bits(rest) =~= before.update(b as int, false));
                assert(all.skip(got)[0] == b);
                assert(all.skip(got).len() > 0);
                assert(all.skip(got + 1) =~= all.skip(got).skip(1));
                assert((seq![b as int] + bits::set_positions(bits::word_bits(rest))).skip(1)
                    =~= bits::set_positions(bits::word_bits(rest)));
            }
            let ghost prev = out@;
            out.push(w * 64 + b);
            proof {
                assert forall|k: int| 0 <= k < done implies #[trigger] out@[start + k]
                    == bits::set_positions(head)[k] by {
                    assert(prev[start + k] == bits::set_positions(head)[k]);
                }
                assert forall|k: int| 0 <= k < got + 1 implies #[trigger] out@[start + done + k]
                    == all[k] + 64 * w by {
                    if k < got {
                        assert(prev[start + done + k] == all[k] + 64 * w);
                    }
                }
                got = got + 1;
            }
        }
        proof {
            assert forall|q: int| 0 <= q < 64 implies !#[trigger] bits::word_bits(0)[q] by {
                bits::lemma_bit_zero(q);
            }
            bits::lemma_ones_none(bits::word_bits(0));
            bits::lemma_set_positions(bits::word_bits(0));
            assert(all.skip(got).len() == 0);
            let full = bits::set_positions(head + tail);
            assert forall|k: int| 0 <= k < full.len() implies #[trigger] out@[start + k]
                == full[k] by {
                if k < done {
                    assert(out@[start + k] == bits::set_positions(head)[k]);
                } else {
                    assert(out@[start + done + (k - done)] == all[k - done] + 64 * w);
                }
            }
        }
        w += 1;
    }
    proof {
        assert(bitmap@.take(w as int) =~= bitmap@);
    }
}

/// A bitmap column takes eight bytes for each word it has room for, a list four for each row,
/// and a column is counted as one of the two.
pub proof fn law_column_bytes(index: InvertedIndex, room: Seq<usize>, n: int)
    requires
        0 <= n,
    ensures
        index.dense_bytes(room, n) == 8 * sums::sum_to(
            |c: int|
                if index.is_dense(c) {
                    room[c] as nat
                } else {
                    0nat
                },
            n,
        ),
        index.sparse_bytes(room, n) == 4 * sums::sum_to(
            |c: int|
                if index.is_dense(c) {
                    0nat
                } else {
                    room[c] as nat
                },
            n,
        ),
    decreases n,
{
    if n > 0 {
        law_column_bytes(index, room, n - 1);
    }
}

} // verus!
