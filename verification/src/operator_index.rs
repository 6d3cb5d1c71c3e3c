//! Basis strings stored as short position lists, with a hash index over the rows.
//!
//! A row holds its set-bit positions inline up to a fixed width and spills into a map past
//! it. A store is modelled by its rows, [`OperatorIndex::keys`], and by the rows its index
//! knows, [`OperatorIndex::indexed`].

use crate::bits;
use crate::slots;
use crate::slots::{Slot, SlotTable};
use crate::strings;
use crate::strings::BasisString;
use std::collections::HashMap;
use vstd::prelude::*;

verus! {

broadcast use vstd::std_specs::hash::group_hash_axioms;

/// A row number as the index stores it.
pub type TermIndex = u32;

/// Positions held inline per row unless a caller asks otherwise.
pub const DEFAULT_INLINE_POSITIONS: usize = 11;

/// Most positions a row may hold inline.
pub const MAX_INLINE_POSITIONS: usize = 32;

/// A position index into a basis string, narrowed to the smallest type that can address
/// every bit of the instantiated width.
pub trait Pos: Copy + Sized {
    /// The bit position this index stands for.
    spec fn bit_of(self) -> nat;

    /// Largest value this type can hold, reserved as the overflow marker.
    spec fn limit() -> nat;

    /// Every position type reaches past the widest inline row and fits a row number.
    proof fn limit_bounds()
        ensures
            255 <= Self::limit() <= u32::MAX,
    ;

    /// The value reserved as the overflow marker.
    fn max() -> (p: Self)
        ensures
            p.bit_of() == Self::limit(),
    ;

    /// Narrows a bit position.
    fn from_bit(bit: usize) -> (p: Self)
        requires
            bit < Self::limit(),
        ensures
            p.bit_of() == bit,
    ;

    /// Widens back to a bit position.
    fn to_bit(self) -> (bit: usize)
        ensures
            bit == self.bit_of(),
            bit <= Self::limit(),
    ;

    /// Number of distinct bit positions this type can address.
    fn capacity() -> (n: usize)
        ensures
            n == Self::limit(),
    ;
}

impl Pos for u8 {
    open spec fn bit_of(self) -> nat {
        self as nat
    }

    open spec fn limit() -> nat {
        u8::MAX as nat
    }

    proof fn limit_bounds() {
    }

    fn max() -> (p: Self) {
        u8::MAX
    }

    fn from_bit(bit: usize) -> (p: Self) {
        bit as u8
    }

    fn to_bit(self) -> (bit: usize) {
        self as usize
    }

    fn capacity() -> (n: usize) {
        u8::MAX as usize
    }
}

impl Pos for u16 {
    open spec fn bit_of(self) -> nat {
        self as nat
    }

    open spec fn limit() -> nat {
        u16::MAX as nat
    }

    proof fn limit_bounds() {
    }

    fn max() -> (p: Self) {
        u16::MAX
    }

    fn from_bit(bit: usize) -> (p: Self) {
        bit as u16
    }

    fn to_bit(self) -> (bit: usize) {
        self as usize
    }

    fn capacity() -> (n: usize) {
        u16::MAX as usize
    }
}

impl Pos for u32 {
    open spec fn bit_of(self) -> nat {
        self as nat
    }

    open spec fn limit() -> nat {
        u32::MAX as nat
    }

    proof fn limit_bounds() {
    }

    fn max() -> (p: Self) {
        u32::MAX
    }

    fn from_bit(bit: usize) -> (p: Self) {
        bit as u32
    }

    fn to_bit(self) -> (bit: usize) {
        self as usize
    }

    fn capacity() -> (n: usize) {
        u32::MAX as usize
    }
}

/// A store cannot number another row: it already holds about 2^32 terms.
#[derive(Debug)]
pub struct TermIndexCeilingReached;

impl TermIndexCeilingReached {
    /// The message a caller reports.
    pub fn message(&self) -> (s: String)
        ensures
            s@ == "operator index reached the TermIndex ceiling (~2^32 terms in one partition)"@,
    {
        "operator index reached the TermIndex ceiling (~2^32 terms in one partition)".to_string()
    }
}

/// Whether `n` rows, at the widest inline row, can be addressed in this machine's memory.
pub open spec fn addressable(n: int) -> bool {
    64 * (n + 1) <= usize::MAX
}

/// Number of elements `v` has room for.
///
/// Trusts `Vec::capacity`: a vector has room for at least its elements, and never allocates
/// more than `isize::MAX` bytes.
#[verifier::external_body]
pub(crate) fn vec_capacity<T>(v: &Vec<T>) -> (n: usize)
    ensures
        n >= v@.len(),
        n * vstd::layout::size_of::<T>() <= isize::MAX,
{
    v.capacity()
}

/// A number of bytes as far as a `usize` counts it.
pub open spec fn counted(n: int) -> int {
    if n <= usize::MAX {
        n
    } else {
        usize::MAX as int
    }
}

/// `n` items of `each` bytes, or the largest count if that many bytes cannot be counted.
pub(crate) fn total_bytes(n: usize, each: usize) -> (b: usize)
    ensures
        b == counted(n * each),
{
    match n.checked_mul(each) {
        Some(b) => b,
        None => usize::MAX,
    }
}

/// Basis strings in rows, findable by key.
pub struct OperatorIndex<P: Pos, const W: usize> {
    rows: Vec<P>,
    len: usize,
    inline_width: usize,
    stride: usize,
    overflow: HashMap<usize, BasisString<W>>,
    table: SlotTable,
}

proof fn lemma_row_bounds(i: int, k: int, n: int, stride: int)
    requires
        0 <= i < n,
        0 <= k < stride,
    ensures
        0 <= i * stride + k < n * stride,
        i * stride >= 0,
{
    assert(0 <= i * stride + k < n * stride && i * stride >= 0) by (nonlinear_arith)
        requires
            0 <= i < n,
            0 <= k < stride,
    ;
}

proof fn lemma_rows_apart(i: int, j: int, k: int, l: int, stride: int)
    requires
        i != j,
        0 <= k < stride,
        0 <= l < stride,
    ensures
        i * stride + k != j * stride + l,
{
    assert(i * stride + k != j * stride + l) by (nonlinear_arith)
        requires
            i != j,
            0 <= k < stride,
            0 <= l < stride,
    ;
}

/// A set of numbers below `n` has at most `n` elements.
proof fn lemma_below(s: Set<usize>, n: nat)
    requires
        forall|i: usize| #[trigger] s.contains(i) ==> i < n,
        n <= usize::MAX,
    ensures
        s.finite(),
        s.len() <= n,
    decreases n,
{
    if n == 0 {
        assert(s =~= Set::<usize>::empty());
    } else {
        let last = (n - 1) as usize;
        let rest = s.remove(last);
        lemma_below(rest, (n - 1) as nat);
        if s.contains(last) {
            assert(s =~= rest.insert(last));
        } else {
            assert(s =~= rest);
        }
    }
}

impl<P: Pos, const W: usize> OperatorIndex<P, W> {
    /// Entry `k` of row `i`'s slice of the arena.
    closed spec fn cell(&self, i: int, k: int) -> nat {
        self.rows@[i * self.stride + k].bit_of()
    }

    /// Position `k` of row `i`, when its positions are held inline.
    closed spec fn place(&self, i: int, k: int) -> nat {
        self.rows@[i * self.stride + (k + 1)].bit_of()
    }

    /// Row `i`'s positions, when they are held inline.
    closed spec fn inline_positions(&self, i: int) -> Seq<int> {
        Seq::new(self.cell(i, 0), |k: int| self.place(i, k) as int)
    }

    /// Row `i`'s key.
    pub closed spec fn key_at(&self, i: int) -> Seq<bool> {
        if self.cell(i, 0) == P::limit() {
            self.overflow@[i as usize]@
        } else {
            Seq::new(64 * W as nat, |p: int| self.inline_positions(i).contains(p))
        }
    }

    /// The rows' keys, in order.
    pub open spec fn keys(&self) -> Seq<Seq<bool>> {
        Seq::new(self.row_count(), |i: int| self.key_at(i))
    }

    /// Number of rows.
    pub closed spec fn row_count(&self) -> nat {
        self.len as nat
    }

    /// Positions held inline per row.
    pub closed spec fn width(&self) -> nat {
        self.inline_width as nat
    }

    /// Row `i` is filed in the index under the folded hash `h`.
    pub closed spec fn indexed(&self, i: int, h: u32) -> bool {
        0 <= i < slots::EMPTY_SLOT && self.table.holds(i as u32, h)
    }

    /// Number of entries in the index.
    pub closed spec fn index_size(&self) -> nat {
        self.table.size()
    }

    /// Number of slots the index has for its entries.
    pub closed spec fn slot_count(&self) -> nat {
        self.table.width()
    }

    /// Row `i` is stored as its header says.
    closed spec fn row_ok(&self, i: int) -> bool {
        if self.cell(i, 0) == P::limit() {
            &&& self.overflow@.contains_key(i as usize)
            &&& bits::ones(self.overflow@[i as usize]@) > self.inline_width
        } else {
            &&& self.cell(i, 0) <= self.inline_width
            &&& !self.overflow@.contains_key(i as usize)
            &&& self.inline_positions(i) == bits::set_positions(self.key_at(i))
        }
    }

    /// Everything but what the index holds.
    closed spec fn rows_wf(&self) -> bool {
        &&& 64 * W <= P::limit()
        &&& 1 <= self.inline_width <= MAX_INLINE_POSITIONS
        &&& self.stride == 1 + self.inline_width
        &&& self.rows@.len() == self.len * self.stride
        &&& self.len < slots::EMPTY_SLOT
        &&& forall|i: int| 0 <= i < self.len ==> #[trigger] self.row_ok(i)
        &&& forall|i: usize| #[trigger] self.overflow@.contains_key(i) ==> i < self.len
    }

    /// The store is well formed: every row reads back, and the index names only rows.
    pub closed spec fn wf(&self) -> bool {
        &&& self.rows_wf()
        &&& self.table.wf()
        &&& forall|i: TermIndex, h: u32| #[trigger] self.table.holds(i, h) ==> i < self.len
    }

    /// What a well-formed store promises of its sizes.
    pub proof fn lemma_wf(&self)
        requires
            self.wf(),
        ensures
            64 * W <= P::limit() <= u32::MAX,
            self.keys().len() == self.row_count(),
            self.row_count() < u32::MAX,
            1 <= self.width() <= MAX_INLINE_POSITIONS,
            forall|i: int| 0 <= i < self.row_count() ==> (#[trigger] self.keys()[i]).len() == 64 * W,
            forall|i: int, h: u32| #[trigger] self.indexed(i, h) ==> 0 <= i < self.row_count(),
    {
        P::limit_bounds();
        assert forall|i: int| 0 <= i < self.row_count() implies (#[trigger] self.keys()[i]).len()
            == 64 * W by {
            self.lemma_key_len(i);
        }
    }

    proof fn lemma_key_len(&self, i: int)
        requires
            self.rows_wf(),
            0 <= i < self.len,
        ensures
            self.key_at(i).len() == 64 * W,
    {
        assert(self.row_ok(i));
        BasisString::lemma_len(self.overflow@[i as usize]);
    }

    /// Row `i`'s slice lies inside the arena.
    proof fn lemma_cell_bounds(&self, i: int, k: int)
        requires
            self.rows_wf(),
            0 <= i < self.len,
            0 <= k < self.stride,
        ensures
            0 <= i * self.stride <= i * self.stride + k < self.rows@.len() <= usize::MAX,
    {
        lemma_row_bounds(i, k, self.len as int, self.stride as int);
        assert(self.rows.len() == self.rows@.len());
    }

    /// Stores that agree on the rows' storage agree on the rows.
    proof fn lemma_same_rows(a: Self, b: Self)
        requires
            a.rows@ == b.rows@,
            a.len == b.len,
            a.inline_width == b.inline_width,
            a.stride == b.stride,
            a.overflow@ == b.overflow@,
        ensures
            forall|i: int| #[trigger] a.key_at(i) == b.key_at(i),
            a.keys() == b.keys(),
            a.rows_wf() == b.rows_wf(),
    {
        assert forall|i: int| #![trigger a.key_at(i)] #![trigger a.row_ok(i)] a.key_at(i)
            == b.key_at(i) && a.row_ok(i) == b.row_ok(i) by {
            assert(a.cell(i, 0) == b.cell(i, 0));
            assert forall|k: int| #[trigger] a.place(i, k) == b.place(i, k) by {}
            assert(a.inline_positions(i) =~= b.inline_positions(i));
            assert(a.key_at(i) =~= b.key_at(i));
        }
        assert(a.keys() =~= b.keys());
        if b.rows_wf() {
            assert forall|i: int| 0 <= i < a.len implies #[trigger] a.row_ok(i) by {
                assert(b.row_ok(i));
            }
        }
        if a.rows_wf() {
            assert forall|i: int| 0 <= i < b.len implies #[trigger] b.row_ok(i) by {
                assert(a.row_ok(i));
            }
        }
    }

    /// A row's position list is its key's, whichever way it is stored.
    proof fn lemma_inline_row(&self, i: int)
        requires
            self.rows_wf(),
            0 <= i < self.len,
            self.cell(i, 0) != P::limit(),
        ensures
            self.inline_positions(i) == bits::set_positions(self.key_at(i)),
            self.cell(i, 0) == bits::ones(self.key_at(i)),
            forall|k: int|
                0 <= k < self.cell(i, 0) ==> #[trigger] self.place(i, k) < 64 * W
                    && self.key_at(i)[self.place(i, k) as int],
            forall|p: int|
                0 <= p < 64 * W && #[trigger] self.key_at(i)[p] ==> exists|k: int|
                    0 <= k < self.cell(i, 0) && self.place(i, k) == p,
    {
        assert(self.row_ok(i));
        let key = self.key_at(i);
        bits::lemma_set_positions(key);
        assert forall|k: int| 0 <= k < self.cell(i, 0) implies #[trigger] self.place(i, k) < 64
            * W && key[self.place(i, k) as int] by {
            assert(self.inline_positions(i)[k] == self.place(i, k));
            assert(bits::set_positions(key)[k] == self.place(i, k));
        }
        assert forall|p: int| 0 <= p < 64 * W && #[trigger] key[p] implies exists|k: int|
            0 <= k < self.cell(i, 0) && self.place(i, k) == p by {
            assert(bits::set_positions(key).contains(p));
            let k = choose|k: int|
                0 <= k < bits::set_positions(key).len() && bits::set_positions(key)[k] == p;
            assert(self.inline_positions(i)[k] == p);
            assert(self.place(i, k) == p);
        }
    }

    /// Creates an empty store whose rows hold `inline_width` positions inline, clamped to
    /// the widths a row may have.
    pub fn new(inline_width: usize) -> (s: Self)
        requires
            64 * W <= P::limit(),
        ensures
            s.wf(),
            s.keys() == Seq::<Seq<bool>>::empty(),
            s.width() == (if inline_width < 1 {
                1
            } else if inline_width > MAX_INLINE_POSITIONS {
                MAX_INLINE_POSITIONS as int
            } else {
                inline_width as int
            }),
            s.index_size() == 0,
            forall|i: int, h: u32| !s.indexed(i, h),
    {
        let inline_width: usize = if inline_width < 1 {
            1
        } else if inline_width > MAX_INLINE_POSITIONS {
            MAX_INLINE_POSITIONS
        } else {
            inline_width
        };
        let s = OperatorIndex {
            rows: Vec::new(),
            len: 0,
            inline_width,
            stride: 1 + inline_width,
            overflow: HashMap::new(),
            table: SlotTable::new(),
        };
        proof {
            assert(0 * s.stride == 0) by (nonlinear_arith);
            assert(s.keys() =~= Seq::<Seq<bool>>::empty());
        }
        s
    }

    /// Creates a store with the default inline capacity.
    pub fn with_default_width() -> (s: Self)
        requires
            64 * W <= P::limit(),
        ensures
            s.wf(),
            s.keys() == Seq::<Seq<bool>>::empty(),
            s.width() == DEFAULT_INLINE_POSITIONS,
            s.index_size() == 0,
            forall|i: int, h: u32| !s.indexed(i, h),
    {
        Self::new(DEFAULT_INLINE_POSITIONS)
    }

    /// Inline capacity implied by a structural cutoff on unit support: two positions per
    /// unit, clamped to the widths a row may have.
    pub fn inline_width_for_support_cutoff(cutoff: usize) -> (w: usize)
        requires
            2 * cutoff <= usize::MAX,
        ensures
            w == (if cutoff == 0 {
                1
            } else if 2 * cutoff > MAX_INLINE_POSITIONS {
                MAX_INLINE_POSITIONS as int
            } else {
                2 * cutoff
            }),
    {
        let w: usize = 2 * cutoff;
        if w < 1 {
            1
        } else if w > MAX_INLINE_POSITIONS {
            MAX_INLINE_POSITIONS
        } else {
            w
        }
    }

    /// Number of stored rows.
    pub fn len(&self) -> (n: usize)
        ensures
            n == self.row_count(),
            n == self.keys().len(),
    {
        self.len
    }

    /// True if no rows are stored.
    pub fn is_empty(&self) -> (r: bool)
        ensures
            r == (self.keys().len() == 0),
    {
        self.len == 0
    }

    /// Positions held inline per row.
    pub fn inline_width(&self) -> (n: usize)
        ensures
            n == self.width(),
    {
        self.inline_width
    }

    /// The rows whose positions do not fit inline.
    pub open spec fn spilled(&self) -> Set<usize> {
        Set::new(
            |i: usize| i < self.row_count() && bits::ones(self.keys()[i as int]) > self.width(),
        )
    }

    proof fn lemma_spilled(&self)
        requires
            self.rows_wf(),
        ensures
            self.spilled() == self.overflow@.dom(),
    {
        assert forall|i: usize| #[trigger] self.spilled().contains(i)
            == self.overflow@.dom().contains(i) by {
            if i < self.len {
                assert(self.row_ok(i as int));
                if self.cell(i as int, 0) != P::limit() {
                    self.lemma_inline_row(i as int);
                }
            }
        }
        assert(self.spilled() =~= self.overflow@.dom());
    }

    /// No more rows spill than there are.
    pub proof fn lemma_spilled_len(&self)
        requires
            self.wf(),
        ensures
            self.spilled().len() <= self.row_count(),
    {
        self.lemma_wf();
        lemma_below(self.spilled(), self.row_count());
    }

    /// Number of rows whose positions spilled to the overflow map.
    pub fn overflow_len(&self) -> (n: usize)
        requires
            self.wf(),
        ensures
            n == self.spilled().len(),
    {
        proof {
            self.lemma_spilled();
        }
        self.overflow.len()
    }

    /// Grows the row arena by `n` identity rows and returns the first new row index.
    ///
    /// Fails, changing nothing, when the store could not number the rows.
    pub fn grow_rows(&mut self, n: usize) -> (r: Result<usize, TermIndexCeilingReached>)
        requires
            old(self).wf(),
            old(self).row_count() + n <= usize::MAX,
            old(self).row_count() + n < u32::MAX ==> addressable(old(self).row_count() + n),
        ensures
            final(self).wf(),
            final(self).width() == old(self).width(),
            final(self).row_count() == final(self).keys().len(),
            r is Err <==> old(self).row_count() + n >= u32::MAX,
            r is Err ==> *final(self) == *old(self),
            r matches Ok(base) ==> base == old(self).row_count() && final(self).keys() == old(
                self,
            ).keys() + Seq::new(n as nat, |k: int| bits::none(64 * W as nat)),
            final(self).index_size() == old(self).index_size(),
            final(self).slot_count() == old(self).slot_count(),
            forall|i: int, h: u32| #[trigger]
                final(self).indexed(i, h) == old(self).indexed(i, h),
            forall|k: Seq<bool>, h: u32| #[trigger]
                final(self).looked_up(k, h) == old(self).looked_up(k, h),
            forall|k: Seq<bool>, h: u32| #[trigger]
                final(self).relaid(k, h) == old(self).relaid(k, h),
    {
        let base: usize = self.len;
        if base + n >= slots::EMPTY_SLOT as usize {
            return Err(TermIndexCeilingReached);
        }
        let ghost before = *self;
        let total: usize = base + n;
        proof {
            P::limit_bounds();
            assert(total * self.stride <= 33 * total && base * self.stride <= total * self.stride)
                by (nonlinear_arith)
                requires
                    1 <= self.stride <= 33,
                    0 <= base <= total,
            ;
        }
        let needed: usize = total * self.stride;
        let cap: usize = vec_capacity(&self.rows);
        if cap < needed {
            // Grow by half again, so that appending stays amortized.
            let roomy: usize = cap.saturating_add(cap / 2).saturating_add(1);
            let target: usize = if needed > roomy {
                needed
            } else {
                roomy
            };
            self.rows.reserve(target - self.rows.len());
        }
        let zero = P::from_bit(0);
        while self.rows.len() < needed
            invariant
                self.len == before.len,
                self.inline_width == before.inline_width,
                self.stride == before.stride,
                self.overflow == before.overflow,
                self.table == before.table,
                zero.bit_of() == 0,
                before.rows@.len() <= self.rows@.len() <= needed,
                forall|k: int| 0 <= k < before.rows@.len() ==> self.rows@[k] == before.rows@[k],
                forall|k: int|
                    before.rows@.len() <= k < self.rows@.len() ==> #[trigger] self.rows@[k]
                        == zero,
            decreases needed - self.rows@.len(),
        {
            self.rows.push(zero);
        }
        self.len = total;
        proof {
            assert forall|i: int|
                #![trigger self.row_ok(i)]
                #![trigger self.key_at(i)]
                0 <= i < base implies self.row_ok(i) && self.key_at(i) == before.key_at(i) by {
                assert(before.row_ok(i));
                assert forall|k: int| 0 <= k < self.stride implies #[trigger] self.cell(i, k)
                    == before.cell(i, k) by {
                    lemma_row_bounds(i, k, base as int, self.stride as int);
                }
                assert(self.cell(i, 0) == before.cell(i, 0));
                if self.cell(i, 0) != P::limit() {
                    assert forall|k: int| 0 <= k < self.cell(i, 0) implies #[trigger] self.place(
                        i,
                        k,
                    ) == before.place(i, k) by {
                        assert(self.cell(i, k + 1) == before.cell(i, k + 1));
                    }
                    assert(self.inline_positions(i) =~= before.inline_positions(i));
                }
                assert(self.key_at(i) =~= before.key_at(i));
            }
            assert forall|i: int|
                #![trigger self.row_ok(i)]
                #![trigger self.key_at(i)]
                base <= i < total implies self.row_ok(i) && self.key_at(i) == bits::none(
                64 * W as nat,
            ) by {
                lemma_row_bounds(i, 0, total as int, self.stride as int);
                assert(base * self.stride <= i * self.stride) by (nonlinear_arith)
                    requires
                        base <= i,
                        1 <= self.stride,
                ;
                assert(self.rows@[i * self.stride] == zero);
                assert(self.cell(i, 0) == 0);
                assert(self.inline_positions(i) =~= Seq::<int>::empty());
                assert(self.key_at(i) =~= bits::none(64 * W as nat));
                bits::lemma_set_positions(self.key_at(i));
                bits::lemma_ones_none(self.key_at(i));
                assert(bits::set_positions(self.key_at(i)) =~= Seq::<int>::empty());
            }
            assert(self.keys() =~= before.keys() + Seq::new(
                n as nat,
                |k: int| bits::none(64 * W as nat),
            ));
            assert forall|k: Seq<bool>, h: u32|
                #![trigger self.looked_up(k, h)]
                #![trigger self.relaid(k, h)]
                self.looked_up(k, h) == before.looked_up(k, h) && self.relaid(k, h)
                    == before.relaid(k, h) by {
                self.table.lemma_keys_matter(h, before.keys(), self.keys(), k);
            }
        }
        Ok(base)
    }

    /// Writes `mono` into row `i`. The index is left as it is.
    pub fn set(&mut self, i: usize, mono: &BasisString<W>)
        requires
            old(self).wf(),
            i < old(self).row_count(),
        ensures
            final(self).wf(),
            final(self).width() == old(self).width(),
            final(self).row_count() == old(self).row_count(),
            final(self).keys() == old(self).keys().update(i as int, mono@),
            final(self).index_size() == old(self).index_size(),
            final(self).slot_count() == old(self).slot_count(),
            forall|j: int, h: u32| #[trigger]
                final(self).indexed(j, h) == old(self).indexed(j, h),
            forall|k: Seq<bool>, h: u32|
                !old(self).indexed(i as int, h) || (k != old(self).keys()[i as int] && k != mono@)
                    ==> #[trigger] final(self).looked_up(k, h) == old(self).looked_up(k, h),
            forall|k: Seq<bool>, h: u32|
                !old(self).indexed(i as int, h) || (k != old(self).keys()[i as int] && k != mono@)
                    ==> #[trigger] final(self).relaid(k, h) == old(self).relaid(k, h),
    {
        let ghost before = *self;
        proof {
            P::limit_bounds();
            self.lemma_cell_bounds(i as int, 0);
            self.lemma_cell_bounds(i as int, self.inline_width as int);
            BasisString::lemma_len(*mono);
            bits::lemma_set_positions(mono@);
            assert(self.row_ok(i as int));
        }
        let c: usize = mono.count();
        let base: usize = i * self.stride;
        if c > self.inline_width {
            self.rows.set(base, P::max());
            self.overflow.insert(i, *mono);
            proof {
                assert(self.cell(i as int, 0) == P::limit());
                self.lemma_set_others(before, i as int);
                assert(self.key_at(i as int) == mono@);
                assert(self.row_ok(i as int));
                assert(self.keys() =~= before.keys().update(i as int, mono@));
                Self::lemma_set_lookups(before, *self, i as int, mono@);
            }
            return;
        }
        self.overflow.remove(&i);
        self.rows.set(base, P::from_bit(c));
        let mut it = mono.positions();
        let mut slot: usize = 0;
        let ghost want = bits::set_positions(mono@);
        loop
            invariant
                64 * W <= P::limit() <= u32::MAX,
                it.wf(),
                self.len == before.len,
                self.inline_width == before.inline_width,
                self.stride == before.stride,
                self.stride == 1 + self.inline_width,
                self.table == before.table,
                self.overflow@ == before.overflow@.remove(i),
                before.rows_wf(),
                i < before.len,
                base == i * self.stride,
                base + self.stride <= self.rows@.len(),
                self.rows@.len() == before.rows@.len(),
                want == bits::set_positions(mono@),
                mono@.len() == 64 * W,
                c == want.len(),
                c <= self.inline_width,
                slot <= c,
                it.remaining() == want.skip(slot as int),
                forall|k: int|
                    0 <= k < self.rows@.len() && !(base <= k < base + self.stride)
                        ==> #[trigger] self.rows@[k] == before.rows@[k],
                self.rows@[base as int].bit_of() == c,
                forall|k: int|
                    0 <= k < slot ==> (#[trigger] self.rows@[base + 1 + k]).bit_of() == want[k],
            ensures
                slot == c,
            decreases c - slot,
        {
            match it.next() {
                Some(pos) => {
                    proof {
                        bits::lemma_set_positions(mono@);
                        assert(want[slot as int] == pos);
                        assert(self.rows.len() == self.rows@.len());
                    }
                    self.rows.set(base + 1 + slot, P::from_bit(pos));
                    slot += 1;
                    proof {
                        assert(it.remaining() =~= want.skip(slot as int));
                    }
                },
                None => {
                    break;
                },
            }
        }
        proof {
            let j = i as int;
            assert(self.cell(j, 0) == c);
            assert forall|k: int| 0 <= k < c implies #[trigger] self.inline_positions(j)[k]
                == want[k] by {
                assert(self.rows@[base + 1 + k].bit_of() == want[k]);
                assert(j * self.stride + (k + 1) == base + 1 + k);
            }
            assert(self.inline_positions(j) =~= want);
            bits::lemma_set_positions(mono@);
            assert forall|p: int| 0 <= p < 64 * W implies #[trigger] self.key_at(j)[p]
                == mono@[p] by {
                if mono@[p] {
                    assert(want.contains(p));
                }
                if want.contains(p) {
                    let k = choose|k: int| 0 <= k < want.len() && want[k] == p;
                    assert(mono@[want[k]]);
                }
            }
            assert(self.key_at(j) =~= mono@);
            self.lemma_set_others(before, j);
            assert(self.row_ok(j));
            assert(self.keys() =~= before.keys().update(j, mono@));
            Self::lemma_set_lookups(before, *self, j, mono@);
        }
    }

    /// Rewriting row `i` leaves the other rows readable and unchanged.
    proof fn lemma_set_others(&self, before: Self, i: int)
        requires
            before.rows_wf(),
            0 <= i < before.len,
            self.len == before.len,
            self.inline_width == before.inline_width,
            self.stride == before.stride,
            self.rows@.len() == before.rows@.len(),
            forall|k: int|
                0 <= k < self.rows@.len() && !(i * self.stride <= k < i * self.stride + self.stride)
                    ==> #[trigger] self.rows@[k] == before.rows@[k],
            forall|j: usize|
                j != i ==> #[trigger] self.overflow@.contains_key(j)
                    == before.overflow@.contains_key(j) && self.overflow@[j]
                    == before.overflow@[j],
        ensures
            forall|j: int|
                #![trigger self.row_ok(j)]
                #![trigger self.key_at(j)]
                0 <= j < self.len && j != i ==> self.row_ok(j) && self.key_at(j) == before.key_at(
                    j,
                ),
    {
        assert forall|j: int|
            #![trigger self.row_ok(j)]
            #![trigger self.key_at(j)]
            0 <= j < self.len && j != i implies self.row_ok(j) && self.key_at(j) == before.key_at(
            j,
        ) by {
            assert(before.row_ok(j));
            assert forall|k: int| 0 <= k < self.stride implies #[trigger] self.cell(j, k)
                == before.cell(j, k) by {
                before.lemma_cell_bounds(j, k);
                let q = j * self.stride + k;
                if i * self.stride <= q < i * self.stride + self.stride {
                    let l = q - i * self.stride;
                    lemma_rows_apart(j, i, k, l, self.stride as int);
                }
            }
            assert(self.cell(j, 0) == before.cell(j, 0));
            let ju = j as usize;
            assert(self.overflow@.contains_key(ju) == before.overflow@.contains_key(ju));
            if self.cell(j, 0) != P::limit() {
                assert forall|k: int| 0 <= k < self.cell(j, 0) implies #[trigger] self.place(j, k)
                    == before.place(j, k) by {
                    assert(self.cell(j, k + 1) == before.cell(j, k + 1));
                }
                assert(self.inline_positions(j) =~= before.inline_positions(j));
            }
            assert(self.key_at(j) =~= before.key_at(j));
        }
    }

    /// Rewriting a row changes no lookup but those of its two keys under hashes it is filed under.
    proof fn lemma_set_lookups(before: Self, after: Self, i: int, key: Seq<bool>)
        requires
            before.wf(),
            0 <= i < before.row_count(),
            after.table == before.table,
            after.keys() == before.keys().update(i, key),
        ensures
            forall|k: Seq<bool>, h: u32|
                !before.indexed(i, h) || (k != before.keys()[i] && k != key)
                    ==> #[trigger] after.looked_up(k, h) == before.looked_up(k, h),
            forall|k: Seq<bool>, h: u32|
                !before.indexed(i, h) || (k != before.keys()[i] && k != key)
                    ==> #[trigger] after.relaid(k, h) == before.relaid(k, h),
    {
        before.lemma_wf();
        assert forall|k: Seq<bool>, h: u32|
            #![trigger after.looked_up(k, h)]
            #![trigger after.relaid(k, h)]
            !before.indexed(i, h) || (k != before.keys()[i] && k != key) implies after.looked_up(
            k,
            h,
        ) == before.looked_up(k, h) && after.relaid(k, h) == before.relaid(k, h) by {
            assert forall|j: TermIndex| #[trigger] before.table.holds(j, h) implies (j
                < before.keys().len() && before.keys()[j as int] == k) == (j < after.keys().len()
                && after.keys()[j as int] == k) by {
                assert(before.indexed(j as int, h));
            }
            before.table.lemma_keys_matter(h, before.keys(), after.keys(), k);
        }
    }

    /// Appends `mono` as a new row and returns its index. The index does not learn of it.
    pub fn push(&mut self, mono: &BasisString<W>) -> (r: Result<usize, TermIndexCeilingReached>)
        requires
            old(self).wf(),
            addressable(old(self).row_count() as int + 1),
        ensures
            final(self).wf(),
            final(self).width() == old(self).width(),
            final(self).row_count() == final(self).keys().len(),
            r is Err <==> old(self).row_count() + 1 >= u32::MAX,
            r is Err ==> *final(self) == *old(self),
            r matches Ok(i) ==> i == old(self).row_count() && final(self).keys() == old(
                self,
            ).keys().push(mono@),
            final(self).index_size() == old(self).index_size(),
            final(self).slot_count() == old(self).slot_count(),
            forall|j: int, h: u32| #[trigger]
                final(self).indexed(j, h) == old(self).indexed(j, h),
            forall|k: Seq<bool>, h: u32| #[trigger]
                final(self).looked_up(k, h) == old(self).looked_up(k, h),
            forall|k: Seq<bool>, h: u32| #[trigger]
                final(self).relaid(k, h) == old(self).relaid(k, h),
    {
        match self.grow_rows(1) {
            Ok(i) => {
                assert(self.row_count() == self.keys().len());
                proof {
                    old(self).lemma_wf();
                    assert forall|h: u32| !#[trigger] self.indexed(i as int, h) by {
                        assert(self.indexed(i as int, h) == old(self).indexed(i as int, h));
                    }
                }
                self.set(i, mono);
                proof {
                    assert(self.keys() =~= old(self).keys().push(mono@));
                }
                Ok(i)
            },
            Err(e) => Err(e),
        }
    }

    /// True if row `i`'s positions live in the overflow map.
    fn is_overflow(&self, i: usize) -> (r: bool)
        requires
            self.rows_wf(),
            i < self.len,
        ensures
            r == (self.cell(i as int, 0) == P::limit()),
    {
        proof {
            self.lemma_cell_bounds(i as int, 0);
        }
        self.rows[i * self.stride].to_bit() == P::capacity()
    }

    /// The overflow map's copy of row `i`.
    fn overflow_row(&self, i: usize) -> (m: BasisString<W>)
        requires
            self.rows_wf(),
            i < self.len,
            self.cell(i as int, 0) == P::limit(),
        ensures
            m@ == self.key_at(i as int),
    {
        proof {
            assert(self.row_ok(i as int));
        }
        match self.overflow.get(&i) {
            Some(m) => *m,
            None => BasisString::zero(),
        }
    }

    /// Reconstructs row `i` as a basis string.
    pub fn row(&self, i: usize) -> (m: BasisString<W>)
        requires
            self.wf(),
            i < self.row_count(),
        ensures
            m@ == self.keys()[i as int],
    {
        if self.is_overflow(i) {
            return self.overflow_row(i);
        }
        proof {
            self.lemma_inline_row(i as int);
            self.lemma_key_len(i as int);
            assert(self.row_ok(i as int));
            self.lemma_cell_bounds(i as int, 0);
        }
        let base: usize = i * self.stride;
        let c: usize = self.rows[base].to_bit();
        let mut m = BasisString::zero();
        let mut slot: usize = 0;
        while slot < c
            invariant
                self.rows_wf(),
                i < self.len,
                base == i * self.stride,
                c == self.cell(i as int, 0),
                c <= self.inline_width,
                slot <= c,
                m@.len() == 64 * W,
                forall|k: int| 0 <= k < c ==> #[trigger] self.place(i as int, k) < 64 * W,
                forall|p: int|
                    0 <= p < 64 * W ==> #[trigger] m@[p] == exists|k: int|
                        0 <= k < slot && self.place(i as int, k) == p,
            decreases c - slot,
        {
            let ghost prev = m@;
            proof {
                self.lemma_cell_bounds(i as int, slot + 1);
            }
            assert(self.place(i as int, slot as int) < 64 * W);
            m.set(self.rows[base + 1 + slot].to_bit());
            proof {
                assert forall|p: int| 0 <= p < 64 * W implies #[trigger] m@[p] == exists|k: int|
                    0 <= k < slot + 1 && self.place(i as int, k) == p by {
                    if p == self.place(i as int, slot as int) {
                        assert(self.place(i as int, slot as int) == p);
                    } else {
                        assert(m@[p] == prev[p]);
                    }
                }
            }
            slot += 1;
        }
        proof {
            assert forall|p: int| 0 <= p < 64 * W implies #[trigger] m@[p] == self.key_at(
                i as int,
            )[p] by {}
            assert(m@ =~= self.key_at(i as int));
        }
        m
    }

    /// Number of set bits in row `i`, without reconstructing it.
    pub fn popcount(&self, i: usize) -> (n: usize)
        requires
            self.wf(),
            i < self.row_count(),
        ensures
            n == bits::ones(self.keys()[i as int]),
    {
        proof {
            P::limit_bounds();
            self.lemma_cell_bounds(i as int, 0);
        }
        if self.is_overflow(i) {
            return self.overflow_row(i).count();
        }
        proof {
            self.lemma_inline_row(i as int);
        }
        self.rows[i * self.stride].to_bit()
    }

    /// Appends each ascending set-bit position of row `i` to `out`.
    pub fn for_each_position(&self, i: usize, out: &mut Vec<usize>)
        requires
            self.wf(),
            i < self.row_count(),
        ensures
            final(out)@.len() == old(out)@.len() + bits::ones(self.keys()[i as int]),
            forall|k: int|
                0 <= k < old(out)@.len() ==> #[trigger] final(out)@[k] == old(out)@[k],
            forall|k: int|
                0 <= k < bits::ones(self.keys()[i as int]) ==> #[trigger] final(out)@[old(
                    out,
                )@.len() + k] == bits::set_positions(self.keys()[i as int])[k],
    {
        let ghost key = self.keys()[i as int];
        let ghost start = out@.len();
        proof {
            P::limit_bounds();
            bits::lemma_set_positions(key);
            self.lemma_cell_bounds(i as int, 0);
        }
        if self.is_overflow(i) {
            let m = self.overflow_row(i);
            let all: Vec<usize> = m.positions().collect();
            let mut j: usize = 0;
            while j < all.len()
                invariant
                    j <= all@.len(),
                    all@.len() == bits::ones(key),
                    start == old(out)@.len(),
                    out@.len() == start + j,
                    forall|k: int| 0 <= k < all@.len() ==> all@[k] == bits::set_positions(key)[k],
                    forall|k: int| 0 <= k < start ==> #[trigger] out@[k] == old(out)@[k],
                    forall|k: int|
                        0 <= k < j ==> #[trigger] out@[start + k] == bits::set_positions(key)[k],
                decreases all@.len() - j,
            {
                out.push(all[j]);
                j += 1;
            }
            return;
        }
        proof {
            self.lemma_inline_row(i as int);
            assert(self.row_ok(i as int));
        }
        let base: usize = i * self.stride;
        let c: usize = self.rows[base].to_bit();
        let mut slot: usize = 0;
        while slot < c
            invariant
                self.rows_wf(),
                i < self.len,
                base == i * self.stride,
                c == self.cell(i as int, 0),
                c <= self.inline_width,
                slot <= c,
                key == self.key_at(i as int),
                start == old(out)@.len(),
                out@.len() == start + slot,
                self.inline_positions(i as int) == bits::set_positions(key),
                forall|k: int| 0 <= k < start ==> #[trigger] out@[k] == old(out)@[k],
                forall|k: int|
                    0 <= k < slot ==> #[trigger] out@[start + k] == bits::set_positions(key)[k],
            decreases c - slot,
        {
            proof {
                self.lemma_cell_bounds(i as int, slot + 1);
                assert(self.inline_positions(i as int)[slot as int] == self.place(i as int, slot as int));
            }
            out.push(self.rows[base + 1 + slot].to_bit());
            slot += 1;
        }
    }

    /// Compares row `i` against `key` without reconstructing the row.
    fn row_eq(&self, i: usize, key: &BasisString<W>) -> (r: bool)
        requires
            self.rows_wf(),
            i < self.len,
        ensures
            r == (self.key_at(i as int) == key@),
    {
        proof {
            P::limit_bounds();
            self.lemma_cell_bounds(i as int, 0);
            self.lemma_key_len(i as int);
            BasisString::lemma_len(*key);
        }
        if self.is_overflow(i) {
            let m = self.overflow_row(i);
            proof {
                if m@ == key@ {
                    BasisString::lemma_ext(m, *key);
                }
            }
            return m == *key;
        }
        proof {
            self.lemma_inline_row(i as int);
            assert(self.row_ok(i as int));
        }
        let base: usize = i * self.stride;
        let c: usize = self.rows[base].to_bit();
        if key.count() != c {
            return false;
        }
        let mut slot: usize = 0;
        while slot < c
            invariant
                self.rows_wf(),
                i < self.len,
                base == i * self.stride,
                c == self.cell(i as int, 0),
                c <= self.inline_width,
                slot <= c,
                key@.len() == 64 * W,
                forall|k: int|
                    0 <= k < c ==> #[trigger] self.place(i as int, k) < 64 * W && self.key_at(
                        i as int,
                    )[self.place(i as int, k) as int],
                forall|k: int| 0 <= k < slot ==> key@[#[trigger] self.place(i as int, k) as int],
            decreases c - slot,
        {
            proof {
                self.lemma_cell_bounds(i as int, slot + 1);
                assert(self.place(i as int, slot as int) < 64 * W);
            }
            if !key.test(self.rows[base + 1 + slot].to_bit()) {
                proof {
                    assert(self.key_at(i as int)[self.place(i as int, slot as int) as int]);
                }
                return false;
            }
            slot += 1;
        }
        proof {
            let a = self.key_at(i as int);
            assert forall|p: int| 0 <= p < a.len() && #[trigger] a[p] implies key@[p] by {
                let k = choose|k: int| 0 <= k < c && self.place(i as int, k) == p;
                assert(key@[self.place(i as int, k) as int]);
            }
            bits::lemma_subset_same_count(a, key@);
        }
        true
    }

    /// The full-width hash of a key.
    pub fn hash_of(key: &BasisString<W>) -> (h: u64)
        ensures
            h == strings::hash_of(key@),
    {
        key.hash_value()
    }

    /// The 32-bit folded hash stored in a slot as an equality prefilter.
    fn fold_hash(key: &BasisString<W>) -> (h: u32)
        ensures
            h == slots::folded(strings::hash_of(key@)),
    {
        slots::fold_from_full(key.hash_value())
    }

    /// No two rows with one key are filed under one hash.
    pub open spec fn filed_once(&self) -> bool {
        forall|i: int, j: int, h: u32|
            #[trigger] self.indexed(i, h) && #[trigger] self.indexed(j, h) && self.keys()[i]
                == self.keys()[j] ==> i == j
    }

    /// What a lookup of the key `k` under the folded hash `h` may answer: a row that has the key
    /// and is filed under the hash, or nothing if there is none.
    pub open spec fn answers(&self, k: Seq<bool>, h: u32, r: Option<usize>) -> bool {
        match r {
            Some(i) => i < self.row_count() && self.keys()[i as int] == k && self.indexed(
                i as int,
                h,
            ),
            None => forall|i: int|
                0 <= i < self.row_count() && #[trigger] self.keys()[i] == k ==> !self.indexed(i, h),
        }
    }

    /// At most one row with the key `k` is filed under the folded hash `h`.
    pub open spec fn filed_alone(&self, k: Seq<bool>, h: u32) -> bool {
        forall|i: int, j: int|
            #[trigger] self.indexed(i, h) && #[trigger] self.indexed(j, h) && self.keys()[i] == k
                && self.keys()[j] == k ==> i == j
    }

    /// The row that a lookup of the key `k` under the folded hash `h` finds: the first with the
    /// key that the probe meets.
    pub closed spec fn looked_up(&self, k: Seq<bool>, h: u32) -> Option<usize> {
        match self.table.found(h, self.keys(), k) {
            Some(i) => Some(i as usize),
            None => None,
        }
    }

    /// The row that a lookup of the key `k` under the folded hash `h` finds once the index has
    /// been laid out anew: the first with the key in the order of the slots, which is the order
    /// in which they are filed again.
    pub closed spec fn relaid(&self, k: Seq<bool>, h: u32) -> Option<usize> {
        match self.table.laid(h, self.keys(), k) {
            Some(i) => Some(i as usize),
            None => None,
        }
    }

    /// One more entry would take the index to its load bound, so it grows before it takes one.
    pub open spec fn grows(&self) -> bool {
        (self.index_size() + 1) * 10 >= self.slot_count() * 7
    }

    /// The row that a lookup finds once there is room for one more entry.
    pub open spec fn found_with_room(&self, k: Seq<bool>, h: u32) -> Option<usize> {
        if self.grows() {
            self.relaid(k, h)
        } else {
            self.looked_up(k, h)
        }
    }

    /// The row that a lookup finds once `row` is filed under `at`, behind all that is filed.
    pub open spec fn found_with_row(&self, row: int, at: u32, k: Seq<bool>, h: u32) -> Option<
        usize,
    > {
        match self.found_with_room(k, h) {
            Some(i) => Some(i),
            None => if h == at && self.keys()[row] == k {
                Some(row as usize)
            } else {
                None
            },
        }
    }

    /// What a lookup finds answers it, before and after the index is laid out anew. Where the
    /// key is filed once, laying it out anew changes nothing.
    pub proof fn law_lookups_answer(&self, k: Seq<bool>, h: u32)
        requires
            self.wf(),
        ensures
            self.answers(k, h, self.looked_up(k, h)),
            self.answers(k, h, self.relaid(k, h)),
            self.filed_alone(k, h) ==> self.relaid(k, h) == self.looked_up(k, h),
            self.filed_once() ==> self.filed_alone(k, h),
    {
        self.lemma_wf();
        self.table.lemma_found(h, self.keys(), k);
        self.table.lemma_laid(h, self.keys(), k);
        assert forall|i: int| 0 <= i < self.row_count() implies #[trigger] self.indexed(i, h)
            == self.table.holds(i as u32, h) by {}
        let a = self.looked_up(k, h);
        let b = self.relaid(k, h);
        if self.filed_alone(k, h) {
            if a is Some {
                assert(self.indexed(a->0 as int, h));
            }
            if b is Some {
                assert(self.indexed(b->0 as int, h));
            }
        }
    }

    /// Filing a row for a key that no lookup finds makes it the one that is found, and changes no
    /// other lookup: none at all while the index does not grow, and none of a key that is filed
    /// once when it does.
    pub proof fn law_filing_finds(&self, row: int, at: u32, k: Seq<bool>, h: u32)
        requires
            self.wf(),
            0 <= row < self.row_count(),
            self.looked_up(self.keys()[row], at) is None,
        ensures
            self.found_with_row(row, at, self.keys()[row], at) == Some(row as usize),
            (k != self.keys()[row] || h != at) && (!self.grows() || self.filed_alone(k, h))
                ==> self.found_with_row(row, at, k, h) == self.looked_up(k, h),
    {
        let key = self.keys()[row];
        self.law_lookups_answer(k, h);
        self.law_lookups_answer(key, at);
        if self.relaid(key, at) is Some {
            let i = self.relaid(key, at)->0 as int;
            assert(self.keys()[i] == key && self.indexed(i, at));
        }
    }

    /// Filing a row as absent under its key's hash does to the lookups what inserting its key
    /// does, where the index does not know the key.
    pub proof fn law_inserts_agree(
        &self,
        filed: Self,
        inserted: Self,
        row: int,
        full: u64,
        k: Seq<bool>,
        h: u32,
    )
        requires
            self.wf(),
            0 <= row < self.row_count(),
            full == strings::hash_of(self.keys()[row]),
            !self.knows(self.keys()[row]),
            filed.looked_up(k, h) == self.found_with_row(row, slots::folded(full), k, h),
            inserted.looked_up(k, h) == (if self.knows(self.keys()[row]) {
                self.found_with_room(k, h)
            } else {
                self.found_with_row(
                    row,
                    slots::folded(strings::hash_of(self.keys()[row])),
                    k,
                    h,
                )
            }),
        ensures
            filed.looked_up(k, h) == inserted.looked_up(k, h),
            k == self.keys()[row] && h == slots::folded(full) ==> filed.looked_up(k, h) == Some(
                row as usize,
            ),
    {
        let key = self.keys()[row];
        let at = slots::folded(full);
        self.law_lookups_answer(key, at);
        if self.looked_up(key, at) is Some {
            let i = self.looked_up(key, at)->0 as int;
            assert(self.keys()[i] == key && self.indexed(i, at));
        }
        self.law_filing_finds(row, at, k, h);
    }

    /// A run of insertions into an index with room for `n` entries never makes it grow, as long
    /// as it has no more than `n`. `run` lists the index before the first insertion and after
    /// each.
    pub proof fn law_reserved_room(run: Seq<Self>, n: nat, i: int)
        requires
            0 <= i < run.len(),
            run[0].index_size() + run.len() <= n + 1,
            (n + 1) * 10 < run[0].slot_count() * 7,
            forall|j: int|
                0 <= j < run.len() - 1 ==> (#[trigger] run[j + 1]).index_size()
                    <= run[j].index_size() + 1,
            forall|j: int|
                0 <= j < run.len() - 1 && !run[j].grows() ==> (#[trigger] run[j + 1]).slot_count()
                    == run[j].slot_count(),
        ensures
            run[i].slot_count() == run[0].slot_count(),
            run[i].index_size() <= run[0].index_size() + i,
            !run[i].grows(),
        decreases i,
    {
        if i > 0 {
            Self::law_reserved_room(run, n, i - 1);
            let j = i - 1;
            assert(run[j + 1].index_size() <= run[j].index_size() + 1);
            assert(run[j + 1].slot_count() == run[j].slot_count());
        }
    }

    /// Where no key is filed twice under a hash, a lookup has one answer.
    pub proof fn law_lookup_has_one_answer(
        &self,
        k: Seq<bool>,
        h: u32,
        r: Option<usize>,
        s: Option<usize>,
    )
        requires
            self.wf(),
            self.filed_once(),
            self.answers(k, h, r),
            self.answers(k, h, s),
        ensures
            r == s,
    {
        self.lemma_wf();
        if r is Some && s is Some {
            assert(self.indexed(r->0 as int, h) && self.indexed(s->0 as int, h));
        }
    }

    /// Lookups answer alike as long as the rows that are filed keep their keys and stay filed,
    /// and none is filed anew: appending rows and reserving room change no answer.
    pub proof fn law_lookups_stay(
        &self,
        after: Self,
        k: Seq<bool>,
        h: u32,
        r: Option<usize>,
    )
        requires
            self.wf(),
            after.wf(),
            self.row_count() <= after.row_count(),
            after.keys().take(self.row_count() as int) == self.keys(),
            forall|i: int, g: u32| #[trigger] after.indexed(i, g) == self.indexed(i, g),
        ensures
            self.answers(k, h, r) == after.answers(k, h, r),
            self.filed_once() == after.filed_once(),
    {
        self.lemma_wf();
        after.lemma_wf();
        assert forall|i: int| 0 <= i < self.row_count() implies #[trigger] after.keys()[i]
            == self.keys()[i] by {
            assert(after.keys().take(self.row_count() as int)[i] == after.keys()[i]);
        }
        assert forall|i: int| #![trigger after.keys()[i]] #![trigger self.keys()[i]]
            self.indexed(i, h) implies after.keys()[i] == self.keys()[i] by {}
        if r is None {
            if self.answers(k, h, r) {
                assert forall|i: int|
                    0 <= i < after.row_count() && #[trigger] after.keys()[i] == k implies !after.indexed(
                    i,
                    h,
                ) by {
                    if i < self.row_count() {
                        assert(self.keys()[i] == k);
                    }
                    assert(after.indexed(i, h) == self.indexed(i, h));
                }
            }
            if after.answers(k, h, r) {
                assert forall|i: int|
                    0 <= i < self.row_count() && #[trigger] self.keys()[i] == k implies !self.indexed(
                    i,
                    h,
                ) by {
                    assert(after.keys()[i] == k);
                    assert(after.indexed(i, h) == self.indexed(i, h));
                }
            }
        } else {
            assert(after.indexed(r->0 as int, h) == self.indexed(r->0 as int, h));
        }
        if self.filed_once() {
            assert forall|i: int, j: int, g: u32|
                #[trigger] after.indexed(i, g) && #[trigger] after.indexed(j, g) && after.keys()[i]
                    == after.keys()[j] implies i == j by {
                assert(self.indexed(i, g) && self.indexed(j, g));
            }
        }
        if after.filed_once() {
            assert forall|i: int, j: int, g: u32|
                #[trigger] self.indexed(i, g) && #[trigger] self.indexed(j, g) && self.keys()[i]
                    == self.keys()[j] implies i == j by {
                assert(after.indexed(i, g) == self.indexed(i, g));
                assert(after.indexed(j, g) == self.indexed(j, g));
            }
        }
    }

    /// Row index holding `key`, if the index knows one.
    pub fn find(&self, key: &BasisString<W>) -> (r: Option<usize>)
        requires
            self.wf(),
        ensures
            self.answers(key@, slots::folded(strings::hash_of(key@)), r),
            r == self.looked_up(key@, slots::folded(strings::hash_of(key@))),
    {
        self.find_with_hash(key, Self::hash_of(key))
    }

    /// [`OperatorIndex::find`] with the key's hash already computed.
    pub fn find_with_hash(&self, key: &BasisString<W>, full: u64) -> (r: Option<usize>)
        requires
            self.wf(),
        ensures
            self.answers(key@, slots::folded(full), r),
            r == self.looked_up(key@, slots::folded(full)),
    {
        let h: u32 = slots::fold_from_full(full);
        let mut s: usize = self.table.start(h);
        let ghost mut d: int = 0;
        loop
            invariant
                self.wf(),
                h == slots::folded(full),
                s < self.table.width(),
                self.table.shape(),
                self.table.probing(h, s, d),
                0 <= d < self.table.width(),
                self.table.found(h, self.keys(), key@) == self.table.found_from(
                    h,
                    self.keys(),
                    key@,
                    d,
                ),
            decreases self.table.width() - d,
        {
            let slot: Slot = self.table.get(s);
            proof {
                self.table.lemma_probing(h, s, d);
                self.law_lookups_answer(key@, h);
            }
            if slot.idx == slots::EMPTY_SLOT {
                return None;
            }
            proof {
                self.table.lemma_slot_holds(s);
            }
            if slot.hash == h && self.row_eq(slot.idx as usize, key) {
                return Some(slot.idx as usize);
            }
            s = self.table.advance(h, s, Ghost(d));
            proof {
                d = d + 1;
            }
        }
    }

    /// Indexes `(key, row)` unless `key` is already indexed: the first row filed for a key
    /// stays the one it is found at.
    pub fn insert(&mut self, key: &BasisString<W>, row: usize) -> (r: Result<
        (),
        TermIndexCeilingReached,
    >)
        requires
            old(self).wf(),
            addressable(old(self).index_size() as int),
            row < old(self).row_count() || row >= u32::MAX || old(self).knows(key@),
        ensures
            final(self).wf(),
            final(self).keys() == old(self).keys(),
            final(self).row_count() == old(self).row_count(),
            final(self).width() == old(self).width(),
            (old(self).index_size() + 1) * 10 < old(self).slot_count() * 7
                ==> final(self).slot_count() == old(self).slot_count(),
            r is Err <==> row >= u32::MAX,
            forall|j: int, h: u32| #[trigger]
                final(self).indexed(j, h) == (old(self).indexed(j, h) || (r is Ok && !old(
                    self,
                ).knows(key@) && j == row && h == slots::folded(strings::hash_of(key@)))),
            final(self).index_size() == old(self).index_size() + (if r is Ok && !old(self).knows(
                key@,
            ) {
                1int
            } else {
                0int
            }),
            r is Err ==> *final(self) == *old(self),
            forall|k: Seq<bool>, h: u32| #[trigger]
                final(self).looked_up(k, h) == (if r is Err {
                    old(self).looked_up(k, h)
                } else if old(self).knows(key@) {
                    old(self).found_with_room(k, h)
                } else {
                    old(self).found_with_row(
                        row as int,
                        slots::folded(strings::hash_of(key@)),
                        k,
                        h,
                    )
                }),
            old(self).filed_once() && (row < old(self).row_count() ==> old(
                self,
            ).keys()[row as int] == key@) ==> final(self).filed_once(),
    {
        if row >= slots::EMPTY_SLOT as usize {
            return Err(TermIndexCeilingReached);
        }
        let h: u32 = Self::fold_hash(key);
        self.table.rehash_if_needed();
        proof {
            Self::lemma_same_rows(*self, *old(self));
        }
        let ghost mid = *self;
        let mut s: usize = self.table.start(h);
        let ghost mut d: int = 0;
        while self.table.get(s).idx != slots::EMPTY_SLOT
            invariant
                self.wf(),
                *self == mid,
                mid.keys() == old(self).keys(),
                mid.row_count() == old(self).row_count(),
                mid.width() == old(self).width(),
                (old(self).index_size() + 1) * 10 < old(self).slot_count() * 7
                    ==> mid.slot_count() == old(self).slot_count(),
                mid.index_size() == old(self).index_size(),
                forall|j: int, g: u32| #[trigger] mid.indexed(j, g) == old(self).indexed(j, g),
                forall|k: Seq<bool>, g: u32| #[trigger]
                    mid.looked_up(k, g) == old(self).found_with_room(k, g),
                row < slots::EMPTY_SLOT,
                h == slots::folded(strings::hash_of(key@)),
                s < self.table.width(),
                self.table.shape(),
                self.table.probing(h, s, d),
                0 <= d < self.table.width(),
                forall|e: int|
                    0 <= e < d && (#[trigger] self.table.probed(h, e)).hash == h ==> self.key_at(
                        self.table.probed(h, e).idx as int,
                    ) != key@,
            decreases self.table.width() - d,
        {
            let slot: Slot = self.table.get(s);
            proof {
                self.table.lemma_slot_holds(s);
            }
            if slot.hash == h && self.row_eq(slot.idx as usize, key) {
                proof {
                    let i = slot.idx as int;
                    assert(mid.indexed(i, h));
                    assert(old(self).keys()[i] == key@);
                    assert(old(self).knows(key@));
                }
                return Ok(());
            }
            s = self.table.advance(h, s, Ghost(d));
            proof {
                d = d + 1;
            }
        }
        proof {
            assert(!old(self).knows(key@)) by {
                if old(self).knows(key@) {
                    let i = choose|i: int|
                        0 <= i < old(self).row_count() && #[trigger] old(self).keys()[i] == key@
                            && old(self).indexed(i, h);
                    assert(mid.indexed(i, h));
                    assert(mid.keys()[i] == key@);
                    self.table.lemma_probe_complete(h, s, d, i as u32);
                }
            }
        }
        self.table.insert_at(s, Ghost(d), row as u32, h);
        proof {
            Self::lemma_same_rows(*self, mid);
            assert forall|k: Seq<bool>, g: u32| #[trigger] self.looked_up(k, g) == old(
                self,
            ).found_with_row(row as int, h, k, g) by {
                assert(mid.looked_up(k, g) == old(self).found_with_room(k, g));
            }
            assert forall|j: int, g: u32| #[trigger] self.indexed(j, g) == (old(self).indexed(j, g)
                || (j == row && g == h)) by {
                assert(mid.indexed(j, g) == old(self).indexed(j, g));
            }
            if old(self).filed_once() && (row < old(self).row_count() ==> old(
                self,
            ).keys()[row as int] == key@) {
                assert forall|i: int, j: int, g: u32|
                    #[trigger] self.indexed(i, g) && #[trigger] self.indexed(j, g)
                        && self.keys()[i] == self.keys()[j] implies i == j by {
                    assert(self.indexed(i, g) == (old(self).indexed(i, g) || (i == row && g == h)));
                    assert(self.indexed(j, g) == (old(self).indexed(j, g) || (j == row && g == h)));
                    old(self).lemma_wf();
                    if old(self).indexed(i, g) && old(self).indexed(j, g) {
                    } else if old(self).indexed(i, g) {
                        assert(old(self).keys()[i] == key@);
                    } else if old(self).indexed(j, g) {
                        assert(old(self).keys()[j] == key@);
                    }
                }
            }
        }
        Ok(())
    }

    /// The index knows a row for the key `k`.
    pub open spec fn knows(&self, k: Seq<bool>) -> bool {
        exists|i: int|
            0 <= i < self.row_count() && #[trigger] self.keys()[i] == k && self.indexed(
                i,
                slots::folded(strings::hash_of(k)),
            )
    }

    /// Indexes a key already known to be absent, skipping the duplicate probe.
    pub fn insert_absent(&mut self, key: &BasisString<W>, row: usize) -> (r: Result<
        (),
        TermIndexCeilingReached,
    >)
        requires
            old(self).wf(),
            addressable(old(self).index_size() as int),
            row < old(self).row_count() || row >= u32::MAX,
        ensures
            final(self).wf(),
            final(self).keys() == old(self).keys(),
            final(self).row_count() == old(self).row_count(),
            final(self).width() == old(self).width(),
            (old(self).index_size() + 1) * 10 < old(self).slot_count() * 7
                ==> final(self).slot_count() == old(self).slot_count(),
            r is Err <==> row >= u32::MAX,
            final(self).index_size() == old(self).index_size() + (if r is Ok {
                1int
            } else {
                0int
            }),
            forall|j: int, h: u32| #[trigger]
                final(self).indexed(j, h) == (old(self).indexed(j, h) || (r is Ok && j == row && h
                    == slots::folded(strings::hash_of(key@)))),
            r is Err ==> *final(self) == *old(self),
            forall|k: Seq<bool>, h: u32| #[trigger]
                final(self).looked_up(k, h) == (if r is Err {
                    old(self).looked_up(k, h)
                } else {
                    old(self).found_with_row(
                        row as int,
                        slots::folded(strings::hash_of(key@)),
                        k,
                        h,
                    )
                }),
    {
        self.insert_absent_with_hash(row, Self::hash_of(key))
    }

    /// [`OperatorIndex::insert_absent`] with the key's hash already computed.
    pub fn insert_absent_with_hash(&mut self, row: usize, full: u64) -> (r: Result<
        (),
        TermIndexCeilingReached,
    >)
        requires
            old(self).wf(),
            addressable(old(self).index_size() as int),
            row < old(self).row_count() || row >= u32::MAX,
        ensures
            final(self).wf(),
            final(self).keys() == old(self).keys(),
            final(self).row_count() == old(self).row_count(),
            final(self).width() == old(self).width(),
            (old(self).index_size() + 1) * 10 < old(self).slot_count() * 7
                ==> final(self).slot_count() == old(self).slot_count(),
            r is Err <==> row >= u32::MAX,
            final(self).index_size() == old(self).index_size() + (if r is Ok {
                1int
            } else {
                0int
            }),
            forall|j: int, h: u32| #[trigger]
                final(self).indexed(j, h) == (old(self).indexed(j, h) || (r is Ok && j == row && h
                    == slots::folded(full))),
            r is Err ==> *final(self) == *old(self),
            forall|k: Seq<bool>, h: u32| #[trigger]
                final(self).looked_up(k, h) == (if r is Err {
                    old(self).looked_up(k, h)
                } else {
                    old(self).found_with_row(row as int, slots::folded(full), k, h)
                }),
    {
        if row >= slots::EMPTY_SLOT as usize {
            return Err(TermIndexCeilingReached);
        }
        let h: u32 = slots::fold_from_full(full);
        self.table.insert_slot(row as u32, h);
        proof {
            Self::lemma_same_rows(*self, *old(self));
        }
        Ok(())
    }

    /// Slots the index is sized to for `n` entries, which leaves it under its load bound.
    pub open spec fn slots_for_entries(n: int) -> int {
        slots::slots_for((n + 1) * 10 / 7 + 1)
    }

    /// Reserves room for `n` rows and `n` index entries. Nothing that is stored changes. The
    /// index gets the slots that `n` entries take, unless it has entries and as many slots
    /// already. How much room the row arena has afterwards is the allocator's choice.
    pub fn reserve(&mut self, n: usize)
        requires
            old(self).wf(),
            addressable(n as int),
        ensures
            final(self).wf(),
            final(self).keys() == old(self).keys(),
            final(self).row_count() == old(self).row_count(),
            final(self).width() == old(self).width(),
            final(self).index_size() == old(self).index_size(),
            forall|j: int, h: u32| #[trigger]
                final(self).indexed(j, h) == old(self).indexed(j, h),
            final(self).slot_count() == (if old(self).index_size() > 0 && old(self).slot_count()
                >= Self::slots_for_entries(n as int) {
                old(self).slot_count() as int
            } else {
                Self::slots_for_entries(n as int)
            }),
            (n + 1) * 10 < final(self).slot_count() * 7,
            forall|k: Seq<bool>, h: u32| #[trigger]
                final(self).looked_up(k, h) == (if old(self).index_size() > 0 && old(
                    self,
                ).slot_count() >= Self::slots_for_entries(n as int) {
                    old(self).looked_up(k, h)
                } else {
                    old(self).relaid(k, h)
                }),
    {
        proof {
            assert(n * self.stride <= 33 * n) by (nonlinear_arith)
                requires
                    self.stride <= 33,
                    0 <= n,
            ;
        }
        self.rows.reserve(n * self.stride);
        self.table.rehash_to((n + 1) * 10 / 7 + 1);
        proof {
            Self::lemma_same_rows(*self, *old(self));
        }
    }

    /// Bytes a spilled row takes in the overflow map, with the map's own bookkeeping.
    pub open spec fn spilled_row_bytes() -> nat {
        vstd::layout::size_of::<BasisString<W>>() + vstd::layout::size_of::<usize>() + 24
    }

    /// Cells the rows take in the row arena.
    pub open spec fn cells_used(&self) -> nat {
        self.keys().len() * (1 + self.width())
    }

    /// Bytes of row storage with an arena of `room` cells.
    pub open spec fn bytes_with(&self, room: nat) -> nat {
        room * vstd::layout::size_of::<P>() + self.spilled().len() * Self::spilled_row_bytes()
    }

    /// A row arena may have room for `room` cells: for all that are used, within what a vector
    /// can allocate.
    pub open spec fn arena_fits(&self, room: nat) -> bool {
        room >= self.cells_used() && room * vstd::layout::size_of::<P>() <= isize::MAX
    }

    /// Bytes of row storage, including the overflow map, and the unused part of them, for an
    /// arena of `room` cells.
    pub fn storage_with(&self, room: usize) -> (r: (usize, usize))
        requires
            self.wf(),
            self.arena_fits(room as nat),
        ensures
            r.0 == counted(self.bytes_with(room as nat) as int),
            r.1 == (room - self.cells_used()) * vstd::layout::size_of::<P>(),
            r.0 == counted(r.1 + self.bytes_with(self.cells_used())),
    {
        proof {
            self.lemma_spilled();
        }
        let rows: usize = total_bytes(room, std::mem::size_of::<P>());
        let each: usize = std::mem::size_of::<BasisString<W>>().saturating_add(
            std::mem::size_of::<usize>(),
        ).saturating_add(24);
        let spilled: usize = total_bytes(self.overflow.len(), each);
        let slack: usize = room - self.rows.len();
        proof {
            let n = self.overflow@.dom().len();
            if each == usize::MAX && n >= 1 {
                assert(n * each >= usize::MAX) by (nonlinear_arith)
                    requires
                        each == usize::MAX,
                        n >= 1,
                ;
                let exact = Self::spilled_row_bytes();
                assert(n * exact >= usize::MAX) by (nonlinear_arith)
                    requires
                        exact >= usize::MAX,
                        n >= 1,
                ;
            }
            if n == 0 {
                assert(0 * Self::spilled_row_bytes() == 0) by (nonlinear_arith);
                assert(0 * each == 0) by (nonlinear_arith);
            }
            let size = vstd::layout::size_of::<P>();
            let used = self.cells_used();
            assert(used == self.rows@.len());
            assert(slack as nat * size <= room as nat * size && slack * size + used * size == room
                * size) by (nonlinear_arith)
                requires
                    slack + used == room,
            ;
        }
        (rows.saturating_add(spilled), slack * std::mem::size_of::<P>())
    }

    /// Bytes of resident row storage, including the overflow map, and the part of them that is
    /// unused growth slack, both for the arena as it stands. How much room it has is the
    /// allocator's choice.
    pub fn row_storage(&self) -> (r: (usize, usize))
        requires
            self.wf(),
        ensures
            exists|room: nat|
                #[trigger] self.arena_fits(room) && r.0 == counted(self.bytes_with(room) as int)
                    && r.1 == (room - self.cells_used()) * vstd::layout::size_of::<P>(),
            r.0 == counted(r.1 + self.bytes_with(self.cells_used())),
    {
        let room: usize = vec_capacity(&self.rows);
        proof {
            self.lemma_wf();
            assert(self.cells_used() == self.rows@.len());
            assert(self.arena_fits(room as nat));
        }
        self.storage_with(room)
    }

    /// Bytes of resident row storage, including the overflow map. How much room the row
    /// arena has beyond its rows is the allocator's choice.
    pub fn memory_bytes(&self) -> (b: usize)
        requires
            self.wf(),
        ensures
            exists|room: nat|
                #[trigger] self.arena_fits(room) && b == counted(self.bytes_with(room) as int),
    {
        self.row_storage().0
    }

    /// Bytes held by the index table. How much room it has is the allocator's choice.
    pub fn index_memory_bytes(&self) -> (b: usize)
        requires
            self.wf(),
        ensures
            exists|room: nat|
                room >= self.slot_count() && room > self.index_size() && b == #[trigger] (room
                    * vstd::layout::size_of::<Slot>()),
            b <= isize::MAX,
    {
        let cap: usize = vec_capacity(self.table.slots());
        proof {
            assert(cap as nat * vstd::layout::size_of::<Slot>() <= isize::MAX);
        }
        cap * std::mem::size_of::<Slot>()
    }

    /// The part of [`OperatorIndex::memory_bytes`] that is unused growth slack. How much there is
    /// is the allocator's choice.
    pub fn slack_bytes(&self) -> (b: usize)
        requires
            self.wf(),
        ensures
            exists|room: nat|
                #[trigger] self.arena_fits(room) && b == (room - self.cells_used())
                    * vstd::layout::size_of::<P>(),
    {
        self.row_storage().1
    }
}

} // verus!
