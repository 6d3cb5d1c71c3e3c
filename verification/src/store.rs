//! Terms in columns: sparse key rows beside their coefficients, and the algebra the kernels ask
//! of a basis.

use crate::basis::{BasisKind, Phase};
use crate::bits;
use crate::bits::{Key, Whole};
use crate::coeff::CoeffRepr;
use crate::operator_index;
use crate::sparse;
use crate::sparse::{Position, SparseRows};
use vstd::prelude::*;

verus! {

/// How a kernel gets at a row's algebra. Storage is sparse either way.
#[derive(Clone, Copy, PartialEq, Eq, Structural)]
pub enum KernelLayout {
    /// Work on position lists.
    Sparse,
    /// Decode each row into a workspace and work on word planes.
    Dense,
}

/// What `rustc_hash::FxHasher` makes of a run of positions in little-endian byte order, on the
/// kind of target the crate is built for, whose pointers have `word_bits` bits.
pub uninterp spec fn fx_positions_of(row: Seq<u32>, word_bits: nat) -> u64;

/// Hash of a position list.
///
/// Trusts that `rustc_hash::FxHasher`, started from its default state, is seeded by a constant
/// and reads bytes in little-endian order, so that the result is a function of the positions
/// alone for one width of pointers. What the function is stays unsaid.
#[verifier::external_body]
pub fn hash_positions(row: &[Position]) -> (h: u64)
    ensures
        h == fx_positions_of(row@, usize::BITS as nat),
{
    let mut h = rustc_hash::FxHasher::default();
    let bytes: Vec<u32> = row.iter().map(|p| p.to_le()).collect();
    std::hash::Hash::hash(bytes.as_slice(), &mut h);
    std::hash::Hasher::finish(&h)
}

/// Words per plane for `n_units` units: the least power of two that holds them.
pub open spec fn words_for(n_units: int, r: int) -> bool {
    &&& n_units <= 64 * r
    &&& r == 1 || (r % 2 == 0 && 32 * r < n_units)
    &&& is_power(r)
}

/// `r` is a power of two.
pub open spec fn is_power(r: int) -> bool
    decreases r,
{
    r == 1 || (r > 1 && r % 2 == 0 && is_power(r / 2))
}

/// The algebra the kernels ask of a term representation. A term and a generator are keys of two
/// planes each.
///
/// The spec functions are the algebra's tables. Each has a default, which says nothing, so that
/// an implementation the verifier does not read may leave it out.
pub trait SoaBasis {
    /// Two keys commute.
    open spec fn commuting(t: Seq<bool>, g: Seq<bool>) -> bool {
        arbitrary()
    }

    /// The key of `g * t`.
    open spec fn product_of(t: Seq<bool>, g: Seq<bool>) -> Seq<bool> {
        arbitrary()
    }

    /// The phase of `g * t`.
    open spec fn phase_of(t: Seq<bool>, g: Seq<bool>) -> Phase {
        arbitrary()
    }

    /// The weight of a key.
    open spec fn weight_of(t: Seq<bool>, n_units: nat) -> u32 {
        arbitrary()
    }

    /// The trace of a key against a computational basis state.
    open spec fn trace_of(t: Seq<bool>, n_units: nat, fock: Seq<u64>) -> i8 {
        arbitrary()
    }

    /// The hash of a key, read from its planes.
    open spec fn plane_hash(t: Seq<bool>) -> u64 {
        arbitrary()
    }

    /// The one word a generator is confined to, where the basis works word by word.
    open spec fn local_of(g: Seq<bool>) -> Option<int> {
        arbitrary()
    }

    /// Two keys commute, as far as one word of each tells.
    open spec fn word_commuting(t: (u64, u64), g: (u64, u64)) -> bool {
        arbitrary()
    }

    /// The word of `g * t`.
    open spec fn word_product(t: (u64, u64), g: (u64, u64)) -> (u64, u64) {
        arbitrary()
    }

    /// The phase of `g * t`, as far as one word of each tells.
    open spec fn word_phase(t: (u64, u64), g: (u64, u64)) -> Phase {
        arbitrary()
    }

    /// Which algebra this is.
    open spec fn kind_of() -> BasisKind {
        arbitrary()
    }

    /// A product has the width of its factors.
    proof fn product_len(t: Key, g: Key)
        requires
            t.len() == g.len(),
        ensures
            Self::product_of(t, g).len() == t.len(),
    ;

    /// A generator confined to a word acts on that word alone.
    proof fn local_law(
        t: Key,
        g: Key,
        span: Whole,
        word: Whole,
        tw: (u64, u64),
        gw: (u64, u64),
    )
        requires
            t.len() == 2 * span,
            g.len() == 2 * span,
            span % 64 == 0,
            Self::local_of(g) == Some(word),
            held_at(t, span, word, tw),
            held_at(g, span, word, gw),
        ensures
            Self::commuting(t, g) == Self::word_commuting(tw, gw),
            Self::phase_of(t, g) == Self::word_phase(tw, gw),
            Self::product_of(t, g) == sparse::spliced(
                t,
                span,
                word,
                [Self::word_product(tw, gw).0, Self::word_product(tw, gw).1],
            ),
    ;

    /// A generator confined to the bits of `mask` acts on those bits alone.
    proof fn masked_law(tw: (u64, u64), gw: (u64, u64), mask: u64)
        requires
            picked(gw, mask) == gw,
        ensures
            Self::word_commuting(tw, gw) == Self::word_commuting(picked(tw, mask), gw),
            Self::word_phase(tw, gw) == Self::word_phase(picked(tw, mask), gw),
            Self::word_product(tw, gw) == patched(
                tw,
                mask,
                Self::word_product(picked(tw, mask), gw),
            ),
            picked(Self::word_product(picked(tw, mask), gw), mask) == Self::word_product(
                picked(tw, mask),
                gw,
            ),
    ;

    /// A local generator's word lies within the planes.
    proof fn local_bound(g: Key, span: Whole, word: Whole)
        requires
            g.len() == 2 * span,
            span % 64 == 0,
            Self::local_of(g) == Some(word),
        ensures
            0 <= word,
            64 * word + 64 <= span,
    ;

    /// Which algebra this is.
    fn kind() -> (k: BasisKind)
        ensures
            k == Self::kind_of(),
    ;

    /// True if `term` commutes with `gen`.
    fn commutes(term: [&[u64]; 2], gen: [&[u64]; 2]) -> (r: bool)
        requires
            term[0]@.len() == gen[0]@.len(),
            term[1]@.len() == gen[0]@.len(),
            gen[1]@.len() == gen[0]@.len(),
        ensures
            r == Self::commuting(
                sparse::key_of(term[0]@, term[1]@, 64 * gen[0]@.len()),
                sparse::key_of(gen[0]@, gen[1]@, 64 * gen[0]@.len()),
            ),
    ;

    /// Computes `gen * term`, writing the planes and returning the phase.
    fn product(term: [&[u64]; 2], gen: [&[u64]; 2], x: &mut Vec<u64>, z: &mut Vec<u64>) -> (phase:
        Phase)
        requires
            term[0]@.len() == gen[0]@.len(),
            term[1]@.len() == gen[0]@.len(),
            gen[1]@.len() == gen[0]@.len(),
            old(x)@.len() == gen[0]@.len(),
            old(z)@.len() == gen[0]@.len(),
        ensures
            final(x)@.len() == gen[0]@.len(),
            final(z)@.len() == gen[0]@.len(),
            ({
                let t = sparse::key_of(term[0]@, term[1]@, 64 * gen[0]@.len());
                let g = sparse::key_of(gen[0]@, gen[1]@, 64 * gen[0]@.len());
                &&& sparse::key_of(final(x)@, final(z)@, 64 * gen[0]@.len()) == Self::product_of(
                    t,
                    g,
                )
                &&& phase == Self::phase_of(t, g)
            }),
    ;

    /// The term's weight.
    fn weight(term: [&[u64]; 2], n_units: usize) -> (w: u32)
        requires
            term[0]@.len() == term[1]@.len(),
        ensures
            w == Self::weight_of(
                sparse::key_of(term[0]@, term[1]@, 64 * term[0]@.len()),
                n_units as nat,
            ),
    ;

    /// The term's trace against a computational basis state.
    fn trace(term: [&[u64]; 2], n_units: usize, fock: &[u64]) -> (r: i8)
        requires
            term[0]@.len() == term[1]@.len(),
        ensures
            r == Self::trace_of(
                sparse::key_of(term[0]@, term[1]@, 64 * term[0]@.len()),
                n_units as nat,
                fock@,
            ),
            -1 <= r <= 1,
    ;

    /// Hash of the term's key.
    fn key_hash(term: [&[u64]; 2]) -> (h: u64)
        requires
            term[0]@.len() == term[1]@.len(),
        ensures
            h == Self::plane_hash(sparse::key_of(term[0]@, term[1]@, 64 * term[0]@.len())),
    ;

    /// The one word the generator is confined to, where the basis works word by word.
    fn local_word(gen: [&[u64]; 2]) -> (w: Option<usize>)
        requires
            gen[0]@.len() == gen[1]@.len(),
        ensures
            match w {
                Some(word) => Self::local_of(
                    sparse::key_of(gen[0]@, gen[1]@, 64 * gen[0]@.len()),
                ) == Some(word as int),
                None => Self::local_of(sparse::key_of(gen[0]@, gen[1]@, 64 * gen[0]@.len())) is None,
            },
    ;

    /// Whether two words of keys commute.
    fn commutes_at_word(term_word: [u64; 2], gen_word: [u64; 2]) -> (r: bool)
        ensures
            r == Self::word_commuting((term_word[0], term_word[1]), (gen_word[0], gen_word[1])),
    ;

    /// The word of the product, and its phase.
    fn product_at_word(term_word: [u64; 2], gen_word: [u64; 2]) -> (r: ([u64; 2], Phase))
        ensures
            (r.0[0], r.0[1]) == Self::word_product(
                (term_word[0], term_word[1]),
                (gen_word[0], gen_word[1]),
            ),
            r.1 == Self::word_phase((term_word[0], term_word[1]), (gen_word[0], gen_word[1])),
    ;

    /// The weight of a row.
    fn weight_sparse(row: &[Position], plane_span: usize, n_units: usize) -> (w: u32)
        requires
            sparse::orderly(row@, 2 * plane_span),
            plane_span % 64 == 0,
            2 * plane_span <= u32::MAX + 1,
            2 * plane_span <= usize::MAX,
        ensures
            w == Self::weight_of(
                sparse::key_in(row@, (2 * plane_span) as nat),
                n_units as nat,
            ),
    {
        let (x, z) = decode(row, plane_span);
        Self::weight([x.as_slice(), z.as_slice()], n_units)
    }

    /// The trace of a row.
    fn trace_sparse(row: &[Position], plane_span: usize, n_units: usize, fock: &[u64]) -> (r: i8)
        requires
            sparse::orderly(row@, 2 * plane_span),
            plane_span % 64 == 0,
            2 * plane_span <= u32::MAX + 1,
            2 * plane_span <= usize::MAX,
        ensures
            r == Self::trace_of(
                sparse::key_in(row@, (2 * plane_span) as nat),
                n_units as nat,
                fock@,
            ),
            -1 <= r <= 1,
    {
        let (x, z) = decode(row, plane_span);
        Self::trace([x.as_slice(), z.as_slice()], n_units, fock)
    }

    /// True if the row commutes with the generator's row.
    fn commutes_sparse(term: &[Position], gen: &[Position], plane_span: usize) -> (r: bool)
        requires
            sparse::orderly(term@, 2 * plane_span),
            sparse::orderly(gen@, 2 * plane_span),
            plane_span % 64 == 0,
            2 * plane_span <= u32::MAX + 1,
            2 * plane_span <= usize::MAX,
        ensures
            r == Self::commuting(
                sparse::key_in(term@, (2 * plane_span) as nat),
                sparse::key_in(gen@, (2 * plane_span) as nat),
            ),
    {
        let (tx, tz) = decode(term, plane_span);
        let (gx, gz) = decode(gen, plane_span);
        Self::commutes([tx.as_slice(), tz.as_slice()], [gx.as_slice(), gz.as_slice()])
    }

    /// Appends the row of `gen * term` and returns the phase.
    fn product_sparse(
        term: &[Position],
        gen: &[Position],
        plane_span: usize,
        out: &mut Vec<Position>,
    ) -> (phase: Phase)
        requires
            sparse::orderly(term@, 2 * plane_span),
            sparse::orderly(gen@, 2 * plane_span),
            plane_span % 64 == 0,
            2 * plane_span <= u32::MAX + 1,
            2 * plane_span <= usize::MAX,
        ensures
            ({
                let t = sparse::key_in(term@, (2 * plane_span) as nat);
                let g = sparse::key_in(gen@, (2 * plane_span) as nat);
                &&& sparse::appended(old(out)@, final(out)@, Self::product_of(t, g))
                &&& phase == Self::phase_of(t, g)
            }),
    {
        let (tx, tz) = decode(term, plane_span);
        let (gx, gz) = decode(gen, plane_span);
        let (mut x, mut z) = decode(term, plane_span);
        let phase = Self::product(
            [tx.as_slice(), tz.as_slice()],
            [gx.as_slice(), gz.as_slice()],
            &mut x,
            &mut z,
        );
        sparse::encode_planes_into([x.as_slice(), z.as_slice()], plane_span, out);
        phase
    }
}

/// The bits of a word pair that a mask selects.
pub open spec fn picked(w: (u64, u64), mask: u64) -> (u64, u64) {
    (w.0 & mask, w.1 & mask)
}

/// The word pair with the bits that a mask selects replaced.
pub open spec fn patched(w: (u64, u64), mask: u64, new: (u64, u64)) -> (u64, u64) {
    ((w.0 & !mask) | new.0, (w.1 & !mask) | new.1)
}

/// The words at word `word` of both planes of `key` are `w`.
pub open spec fn held_at(key: Seq<bool>, span: int, word: int, w: (u64, u64)) -> bool {
    forall|b: int|
        0 <= b < 64 ==> #[trigger] bits::bit(w.0, b) == key[64 * word + b] && bits::bit(w.1, b)
            == key[span + 64 * word + b]
}

/// Decodes a row into fresh planes.
pub fn decode(row: &[Position], plane_span: usize) -> (r: (Vec<u64>, Vec<u64>))
    requires
        sparse::orderly(row@, 2 * plane_span),
        plane_span % 64 == 0,
        2 * plane_span <= u32::MAX + 1,
    ensures
        64 * r.0@.len() == plane_span,
        64 * r.1@.len() == plane_span,
        sparse::key_of(r.0@, r.1@, plane_span as nat) == sparse::key_in(
            row@,
            (2 * plane_span) as nat,
        ),
{
    let stride: usize = plane_span / 64;
    let mut x: Vec<u64> = Vec::new();
    let mut z: Vec<u64> = Vec::new();
    while x.len() < stride
        invariant
            x@.len() <= stride,
            z@.len() == x@.len(),
        decreases stride - x@.len(),
    {
        x.push(0);
        z.push(0);
    }
    sparse::decode_row_into(row, plane_span, &mut x, &mut z);
    (x, z)
}

/// Number of `u64` words a plane takes for `n_units` units.
pub fn stride_words(n_units: usize) -> (r: usize)
    requires
        n_units <= usize::MAX / 2 + 1,
    ensures
        words_for(n_units as int, r as int),
{
    let words: usize = n_units / 64 + (if n_units % 64 == 0 {
        0usize
    } else {
        1usize
    });
    let mut r: usize = 1;
    while r < words
        invariant
            1 <= r,
            n_units <= 64 * words < n_units + 64,
            r == 1 || 32 * r < n_units,
            r == 1 || r % 2 == 0,
            is_power(r as int),
        decreases 2 * words - r,
    {
        proof {
            assert(is_power(2 * r)) by {
                assert((2 * r) / 2 == r && (2 * r) % 2 == 0);
            }
        }
        r = 2 * r;
    }
    r
}

/// Rows by hash, for finding a row with a given key.
#[verifier::external_body]
pub struct MergeTable {
    table: hashbrown::HashTable<usize>,
}

/// What a merge table holds: row numbers, each with the hash it was inserted under.
pub uninterp spec fn table_entries(t: MergeTable) -> Set<(usize, u64)>;

/// Whether two rows are equal.
fn same_row(rows: &SparseRows, a: usize, b: usize) -> (r: bool)
    requires
        rows.wf(),
        a < rows.rows().len(),
        b < rows.rows().len(),
    ensures
        r == (rows.rows()[a as int] == rows.rows()[b as int]),
{
    let x: &[Position] = rows.row(a);
    let y: &[Position] = rows.row(b);
    if x.len() != y.len() {
        return false;
    }
    let mut i: usize = 0;
    while i < x.len()
        invariant
            i <= x@.len(),
            x@.len() == y@.len(),
            x@ == rows.rows()[a as int],
            y@ == rows.rows()[b as int],
            forall|j: int| 0 <= j < i ==> x@[j] == y@[j],
        decreases x@.len() - i,
    {
        if x[i] != y[i] {
            return false;
        }
        i += 1;
    }
    proof {
        assert(x@ =~= y@);
    }
    true
}

/// Row `x`'s hash.
fn hash_at(hashes: &Vec<u64>, x: usize) -> (h: u64)
    requires
        x < hashes@.len(),
    ensures
        h == hashes@[x as int],
{
    hashes[x]
}

/// Moves a row number to where its row has gone; a dropped row's number goes.
fn relocate(slot: &mut usize, flags: &Vec<u32>, index: &Vec<usize>) -> (stays: bool)
    requires
        *old(slot) < flags@.len(),
        *old(slot) < index@.len(),
    ensures
        stays == (flags@[*old(slot) as int] != 0),
        *final(slot) == (if stays {
            index@[*old(slot) as int]
        } else {
            *old(slot)
        }),
{
    let x: usize = *slot;
    if flags[x] != 0 {
        *slot = index[x];
        true
    } else {
        false
    }
}

/// The entries whose row stays, each with its row's new number.
pub open spec fn moved(
    entries: Set<(usize, u64)>,
    flags: Seq<u32>,
    index: Seq<usize>,
) -> Set<(usize, u64)> {
    Set::new(
        |e: (usize, u64)|
            exists|x: usize| #[trigger]
                entries.contains((x, e.1)) && flags[x as int] != 0 && e.0 == index[x as int],
    )
}

impl MergeTable {
    /// Creates an empty table.
    ///
    /// Trusts `hashbrown::HashTable::new`: the table holds nothing.
    #[verifier::external_body]
    pub(crate) fn new() -> (t: Self)
        ensures
            table_entries(t) == Set::<(usize, u64)>::empty(),
    {
        MergeTable { table: hashbrown::HashTable::new() }
    }

    /// Finds a row equal to row `i` among those inserted under `hash`, or inserts row `i`.
    ///
    /// Trusts `hashbrown::HashTable::entry`, where the closures give every entry the hash it was
    /// inserted under: an occupied entry is one of the table's and equal by the closure, and
    /// the table stays as it was; a vacant one means that no entry inserted under this hash is
    /// equal, and filling it adds the one entry.
    #[verifier::external_body]
    pub(crate) fn find_or_insert(
        &mut self,
        hash: u64,
        i: usize,
        rows: &SparseRows,
        hashes: &Vec<u64>,
    ) -> (r: Option<usize>)
        requires
            rows.wf(),
            i < rows.rows().len(),
            i < hashes@.len(),
            hashes@[i as int] == hash,
            forall|x: usize, h: u64| #[trigger]
                table_entries(*old(self)).contains((x, h)) ==> x != i && x < rows.rows().len() && x
                    < hashes@.len() && hashes@[x as int] == h,
        ensures
            match r {
                Some(x) => {
                    &&& table_entries(*final(self)) == table_entries(*old(self))
                    &&& exists|h: u64| #[trigger] table_entries(*old(self)).contains((x, h))
                    &&& rows.rows()[x as int] == rows.rows()[i as int]
                },
                None => {
                    &&& table_entries(*final(self)) == table_entries(*old(self)).insert((i, hash))
                    &&& forall|x: usize| #[trigger]
                        table_entries(*old(self)).contains((x, hash)) ==> rows.rows()[x as int]
                            != rows.rows()[i as int]
                },
            },
    {
        match self.table.entry(hash, |c| same_row(rows, *c, i), |c| hash_at(hashes, *c)) {
            hashbrown::hash_table::Entry::Occupied(e) => Some(*e.get()),
            hashbrown::hash_table::Entry::Vacant(e) => {
                e.insert(i);
                None
            },
        }
    }

    /// Moves every row number to where its row has gone.
    ///
    /// Trusts `hashbrown::HashTable::retain`: it hands each entry to the closure once, keeps the
    /// entry as the closure leaves it where the closure says so, under the hash it was inserted
    /// under, and drops it otherwise.
    #[verifier::external_body]
    pub(crate) fn relocate_all(&mut self, flags: &Vec<u32>, index: &Vec<usize>)
        requires
            forall|x: usize, h: u64| #[trigger]
                table_entries(*old(self)).contains((x, h)) ==> x < flags@.len() && x < index@.len(),
        ensures
            table_entries(*final(self)) == moved(table_entries(*old(self)), flags@, index@),
    {
        self.table.retain(|slot| relocate(slot, flags, index));
    }
}

/// The hash a row is merged by.
pub open spec fn merge_hash<B: SoaBasis>(layout: KernelLayout, row: Seq<u32>, n: nat) -> u64 {
    match layout {
        KernelLayout::Sparse => fx_positions_of(row, usize::BITS as nat),
        KernelLayout::Dense => B::plane_hash(sparse::key_in(row, n)),
    }
}

/// The merge batch a hash belongs to, among `batches`.
pub open spec fn batch_of(hash: u64, batches: nat) -> int {
    (hash >> 32) as int % batches as int
}

/// The room a column with room for `room` rows has once it is sized for `needed`.
pub open spec fn room_for(room: int, needed: int) -> int {
    if needed <= room {
        room
    } else if 2 * needed < 16 {
        16
    } else if 2 * needed <= usize::MAX {
        2 * needed
    } else {
        usize::MAX as int
    }
}

/// A sum of terms in columns.
pub struct SoaTermSum<C: CoeffRepr> {
    /// The keys.
    pub rows: SparseRows,
    /// The coefficients, row by row.
    pub coeffs: Vec<C>,
    /// How many rows the column of coefficients is sized for.
    pub coeff_room: usize,
    /// The hashes of the rows the merge tables know.
    pub hashes: Vec<u64>,
    /// One table for each merge batch.
    pub merge_tables: Vec<MergeTable>,
    /// How many rows the merge tables know.
    pub merge_synced_len: usize,
    pub batches: usize,
    pub layout: KernelLayout,
    pub n_units: usize,
}

impl<C: CoeffRepr> SoaTermSum<C> {
    /// The rows, in order.
    pub open spec fn row_lists(&self) -> Seq<Seq<u32>> {
        self.rows.rows()
    }

    /// The coefficients, in order.
    pub open spec fn coeff_seq(&self) -> Seq<C> {
        self.coeffs@
    }

    /// How many rows the column of coefficients is sized for.
    pub open spec fn room(&self) -> nat {
        self.coeff_room as nat
    }

    /// Positions between the two planes.
    pub open spec fn span(&self) -> nat {
        self.rows.span()
    }

    /// Row `i`'s key.
    pub open spec fn key(&self, i: int) -> Seq<bool> {
        sparse::key_in(self.row_lists()[i], 2 * self.span())
    }

    /// Number of qubits or modes.
    pub open spec fn units(&self) -> nat {
        self.n_units as nat
    }

    /// How the kernels get at a row.
    pub open spec fn kernel_layout(&self) -> KernelLayout {
        self.layout
    }

    /// How many merge batches there are.
    pub open spec fn batch_count(&self) -> nat {
        self.batches as nat
    }

    /// How many rows the merge tables know.
    pub open spec fn synced(&self) -> nat {
        self.merge_synced_len as nat
    }

    /// Every row has a coefficient, for which there is room, and the rows the merge tables know
    /// are there.
    pub open spec fn wf(&self) -> bool {
        &&& self.rows.wf()
        &&& self.coeffs@.len() == self.rows.rows().len()
        &&& self.coeffs@.len() <= self.coeff_room
        &&& self.merge_synced_len <= self.rows.rows().len()
        &&& self.merge_synced_len <= self.hashes@.len()
        &&& self.batches > 0
        &&& self.rows.rows().len() <= usize::MAX
    }

    /// The merge tables know the first rows, by the hashes that basis `B` gives them, and those
    /// rows are all different.
    pub open spec fn indexed<B: SoaBasis>(&self) -> bool {
        let n = 2 * self.rows.span();
        self.merge_synced_len > 0 ==> {
            &&& self.merge_tables@.len() == self.batches
            &&& forall|x: int|
                0 <= x < self.merge_synced_len ==> #[trigger] self.hashes@[x] == merge_hash::<B>(
                    self.layout,
                    self.rows.rows()[x],
                    n,
                )
            &&& distinct_rows(self.rows.rows(), self.merge_synced_len as int)
            &&& forall|b: int|
                0 <= b < self.batches ==> tabled(
                    #[trigger] self.merge_tables@[b],
                    b,
                    self.batches as nat,
                    self.hashes@,
                    self.merge_synced_len as int,
                )
        }
    }

    /// What a well-formed sum promises.
    pub proof fn lemma_wf(&self)
        requires
            self.wf(),
        ensures
            self.coeff_seq().len() == self.row_lists().len(),
            self.synced() <= self.row_lists().len(),
            self.span() % 64 == 0,
            2 * self.span() <= u32::MAX + 1,
            2 * self.span() <= usize::MAX,
            forall|i: int|
                0 <= i < self.row_lists().len() ==> sparse::orderly(
                    #[trigger] self.row_lists()[i],
                    2 * self.span() as int,
                ),
            forall|i: int|
                0 <= i < self.row_lists().len() ==> sparse::spells(
                    #[trigger] self.row_lists()[i],
                    self.key(i),
                ),
    {
        self.rows.lemma_wf();
        assert forall|i: int| 0 <= i < self.row_lists().len() implies sparse::spells(
            #[trigger] self.row_lists()[i],
            self.key(i),
        ) by {
            assert(self.key(i) == self.rows.key(i));
        }
    }

    /// Creates an empty sum over `n_units` units, `stride` words to a plane.
    pub fn new(n_units: usize, stride: usize) -> (s: Self)
        requires
            128 * stride <= u32::MAX + 1,
            128 * stride <= usize::MAX,
        ensures
            s.wf(),
            s.row_lists() == Seq::<Seq<u32>>::empty(),
            s.coeff_seq() == Seq::<C>::empty(),
            s.room() == 0,
            s.span() == 64 * stride,
            s.units() == n_units,
            s.synced() == 0,
            s.kernel_layout() == KernelLayout::Sparse,
            s.batch_count() == 1,
    {
        SoaTermSum {
            rows: SparseRows::new(stride),
            coeffs: Vec::new(),
            coeff_room: 0,
            hashes: Vec::new(),
            merge_tables: Vec::new(),
            merge_synced_len: 0,
            batches: 1,
            layout: KernelLayout::Sparse,
            n_units,
        }
    }

    /// Sets how the kernels get at a row. The merge tables are rebuilt at the next merge.
    pub fn set_kernel_layout(&mut self, layout: KernelLayout)
        requires
            old(self).wf(),
        ensures
            final(self).wf(),
            final(self).room() == old(self).room(),
            final(self).same_terms(*old(self)),
            final(self).kernel_layout() == layout,
            final(self).batch_count() == old(self).batch_count(),
            final(self).synced() == 0,
    {
        self.layout = layout;
        self.merge_synced_len = 0;
    }

    /// Sets how many batches a merge is split into. The merge tables are rebuilt at the next
    /// merge.
    pub fn set_batches(&mut self, batches: usize)
        requires
            old(self).wf(),
            batches > 0,
        ensures
            final(self).wf(),
            final(self).room() == old(self).room(),
            final(self).same_terms(*old(self)),
            final(self).kernel_layout() == old(self).kernel_layout(),
            final(self).batch_count() == batches,
            final(self).synced() == 0,
    {
        self.batches = batches;
        self.merge_synced_len = 0;
    }

    /// The two sums have the same rows, coefficients and size.
    pub open spec fn same_terms(&self, other: Self) -> bool {
        &&& self.row_lists() == other.row_lists()
        &&& self.coeff_seq() == other.coeff_seq()
        &&& self.span() == other.span()
        &&& self.units() == other.units()
    }

    /// The two sums are sized and set up alike.
    pub open spec fn same_setup(&self, other: Self) -> bool {
        &&& self.span() == other.span()
        &&& self.units() == other.units()
        &&& self.kernel_layout() == other.kernel_layout()
        &&& self.batch_count() == other.batch_count()
    }

    /// Number of live rows.
    pub fn len(&self) -> (n: usize)
        requires
            self.wf(),
        ensures
            n == self.row_lists().len(),
    {
        self.rows.len()
    }

    /// True if there are no live rows.
    pub fn is_empty(&self) -> (r: bool)
        requires
            self.wf(),
        ensures
            r == (self.row_lists().len() == 0),
    {
        self.rows.is_empty()
    }

    /// The key rows.
    pub fn rows(&self) -> (r: &SparseRows)
        requires
            self.wf(),
        ensures
            r.wf(),
            r.rows() == self.row_lists(),
            r.span() == self.span(),
    {
        &self.rows
    }

    /// Row `i`'s ascending set positions.
    pub fn row_positions(&self, i: usize) -> (r: &[Position])
        requires
            self.wf(),
            i < self.row_lists().len(),
        ensures
            r@ == self.row_lists()[i as int],
    {
        self.rows.row(i)
    }

    /// Positions between the two planes.
    pub fn plane_span(&self) -> (n: usize)
        ensures
            n == self.span(),
    {
        self.rows.plane_span()
    }

    /// Number of qubits or modes.
    pub fn n_units(&self) -> (n: usize)
        ensures
            n == self.units(),
    {
        self.n_units
    }

    /// Row `i`'s coefficient.
    pub fn coeff(&self, i: usize) -> (c: &C)
        requires
            self.wf(),
            i < self.row_lists().len(),
        ensures
            *c == self.coeff_seq()[i as int],
    {
        &self.coeffs[i]
    }

    /// How many rows the merge tables know.
    pub fn merge_synced_len(&self) -> (n: usize)
        ensures
            n == self.synced(),
    {
        self.merge_synced_len
    }

    /// Decodes row `i` into its two word planes.
    pub fn decode_row(&self, i: usize) -> (r: (Vec<u64>, Vec<u64>))
        requires
            self.wf(),
            i < self.row_lists().len(),
        ensures
            64 * r.0@.len() == self.span(),
            64 * r.1@.len() == self.span(),
            sparse::key_of(r.0@, r.1@, self.span()) == self.key(i as int),
    {
        proof {
            self.lemma_wf();
        }
        decode(self.rows.row(i), self.rows.plane_span())
    }

    /// Sizes the column of coefficients so that at least `needed_len` rows fit: to twice as many,
    /// and no fewer than 16, if it has less room. The terms stay as they are. How much memory
    /// stands behind the room is the allocator's choice.
    pub fn ensure_capacity(&mut self, needed_len: usize)
        requires
            old(self).wf(),
        ensures
            final(self).wf(),
            final(self).room() == room_for(old(self).room() as int, needed_len as int),
            final(self).room() >= needed_len,
            final(self).coeffs@ == old(self).coeffs@,
            final(self).rows == old(self).rows,
            final(self).hashes == old(self).hashes,
            final(self).merge_tables == old(self).merge_tables,
            final(self).synced() == old(self).synced(),
            final(self).same_setup(*old(self)),
    {
        if needed_len <= self.coeff_room {
            return;
        }
        let twice: usize = if needed_len > usize::MAX / 2 {
            usize::MAX
        } else {
            2 * needed_len
        };
        self.coeff_room = if twice < 16 {
            16
        } else {
            twice
        };
        self.coeffs.reserve(self.coeff_room - self.coeffs.len());
    }

    /// Appends one row with the given word planes and coefficient.
    pub fn push(&mut self, term_planes: [&[u64]; 2], coeff: C)
        requires
            old(self).wf(),
            64 * term_planes[0]@.len() <= old(self).span(),
            64 * term_planes[1]@.len() <= old(self).span(),
        ensures
            final(self).wf(),
            final(self).same_setup(*old(self)),
            final(self).synced() == old(self).synced(),
            final(self).row_lists().drop_last() == old(self).row_lists(),
            final(self).row_lists().len() == old(self).row_lists().len() + 1,
            final(self).key(old(self).row_lists().len() as int) == sparse::key_of(
                term_planes[0]@,
                term_planes[1]@,
                old(self).span(),
            ),
            final(self).coeff_seq() == old(self).coeff_seq().push(coeff),
            final(self).room() == room_for(
                old(self).room() as int,
                old(self).row_lists().len() as int + 1,
            ),
    {
        proof {
            self.rows.lemma_wf();
        }
        self.ensure_capacity(self.rows.len().saturating_add(1));
        self.rows.push_planes(term_planes);
        self.coeffs.push(coeff);
        let n: usize = self.coeffs.len();
        proof {
            assert(self.key(old(self).row_lists().len() as int) == self.rows.key(
                old(self).row_lists().len() as int,
            ));
        }
    }

    /// Appends one row from an ascending position list.
    pub fn push_positions(&mut self, positions: &[Position], coeff: C)
        requires
            old(self).wf(),
            sparse::orderly(positions@, 2 * old(self).span() as int),
        ensures
            final(self).wf(),
            final(self).same_setup(*old(self)),
            final(self).synced() == old(self).synced(),
            final(self).row_lists() == old(self).row_lists().push(positions@),
            final(self).coeff_seq() == old(self).coeff_seq().push(coeff),
            final(self).room() == room_for(
                old(self).room() as int,
                old(self).row_lists().len() as int + 1,
            ),
    {
        self.ensure_capacity(self.rows.len().saturating_add(1));
        self.rows.push_row(positions);
        self.coeffs.push(coeff);
        let n: usize = self.coeffs.len();
    }

    /// Drops every row. The room there was stays.
    pub fn clear(&mut self)
        requires
            old(self).wf(),
        ensures
            final(self).wf(),
            final(self).same_setup(*old(self)),
            final(self).row_lists() == Seq::<Seq<u32>>::empty(),
            final(self).coeff_seq() == Seq::<C>::empty(),
            final(self).room() == old(self).room(),
            final(self).synced() == 0,
    {
        self.rows.clear();
        self.coeffs.clear();
        self.merge_synced_len = 0;
    }

    /// How many positions the rows hold together.
    pub open spec fn positions_held(&self) -> nat {
        self.rows.total()
    }

    /// Bytes of the resident keys. How much room they have is the allocator's choice.
    pub fn sparse_key_bytes(&self) -> (b: usize)
        requires
            self.wf(),
        ensures
            sparse::takes((self.row_lists().len() + 1, self.positions_held()), b as nat),
            b < usize::MAX,
    {
        self.rows.memory_bytes()
    }

    /// Bytes of the resident coefficients. How much room they have is the allocator's choice.
    pub fn coeff_bytes(&self) -> (b: usize)
        ensures
            exists|room: nat|
                room >= self.coeff_seq().len() && b == #[trigger] (room * vstd::layout::size_of::<
                    C,
                >()),
            b <= isize::MAX,
    {
        let n: usize = operator_index::vec_capacity(&self.coeffs);
        proof {
            assert(n as nat * vstd::layout::size_of::<C>() <= isize::MAX);
        }
        n * core::mem::size_of::<C>()
    }

    /// Offsets and positions in the key rebuild buffers.
    pub open spec fn key_scratch(&self) -> (nat, nat) {
        self.rows.scratch()
    }

    /// Bytes the key rebuild buffers hold. How much room they have is the allocator's choice.
    pub fn key_scratch_bytes(&self) -> (b: usize)
        ensures
            sparse::takes(self.key_scratch(), b as nat),
            b < usize::MAX,
    {
        self.rows.scratch_bytes()
    }

    /// A copy of the live rows, whose merge tables know nothing yet.
    pub fn copy(&self) -> (s: Self)
        requires
            self.wf(),
        ensures
            s.wf(),
            s.same_terms(*self),
            s.same_setup(*self),
            s.room() == self.row_lists().len(),
            s.synced() == 0,
    {
        let mut coeffs: Vec<C> = Vec::new();
        let n: usize = self.coeffs.len();
        while coeffs.len() < n
            invariant
                n == self.coeffs@.len(),
                coeffs@.len() <= n,
                coeffs@ == self.coeffs@.take(coeffs@.len() as int),
            decreases n - coeffs@.len(),
        {
            let i: usize = coeffs.len();
            coeffs.push(self.coeffs[i].duplicate());
            proof {
                assert(coeffs@ =~= self.coeffs@.take(coeffs@.len() as int));
            }
        }
        proof {
            assert(self.coeffs@.take(n as int) =~= self.coeffs@);
        }
        SoaTermSum {
            rows: self.rows.copy(),
            coeffs,
            coeff_room: n,
            hashes: Vec::new(),
            merge_tables: Vec::new(),
            merge_synced_len: 0,
            batches: self.batches,
            layout: self.layout,
            n_units: self.n_units,
        }
    }

    /// The same rows with every coefficient mapped through `f`.
    pub fn map_coeffs<D: CoeffRepr, F: Fn(&C) -> D>(&self, f: F) -> (s: SoaTermSum<D>)
        requires
            self.wf(),
            forall|c: &C| call_requires(f, (c,)),
        ensures
            s.wf(),
            s.row_lists() == self.row_lists(),
            s.span() == self.span(),
            s.units() == self.units(),
            s.kernel_layout() == self.kernel_layout(),
            s.batch_count() == self.batch_count(),
            s.room() == self.row_lists().len(),
            s.synced() == 0,
            s.coeff_seq().len() == self.coeff_seq().len(),
            forall|i: int|
                0 <= i < s.coeff_seq().len() ==> call_ensures(
                    f,
                    (&self.coeff_seq()[i],),
                    #[trigger] s.coeff_seq()[i],
                ),
    {
        let mut coeffs: Vec<D> = Vec::new();
        let n: usize = self.coeffs.len();
        while coeffs.len() < n
            invariant
                n == self.coeffs@.len(),
                coeffs@.len() <= n,
                forall|c: &C| call_requires(f, (c,)),
                forall|i: int|
                    0 <= i < coeffs@.len() ==> call_ensures(
                        f,
                        (&self.coeffs@[i],),
                        #[trigger] coeffs@[i],
                    ),
            decreases n - coeffs@.len(),
        {
            let i: usize = coeffs.len();
            let c: D = f(&self.coeffs[i]);
            coeffs.push(c);
        }
        SoaTermSum {
            rows: self.rows.copy(),
            coeffs,
            coeff_room: n,
            hashes: Vec::new(),
            merge_tables: Vec::new(),
            merge_synced_len: 0,
            batches: self.batches,
            layout: self.layout,
            n_units: self.n_units,
        }
    }
}

/// No two of the first `n` rows are equal.
pub open spec fn distinct_rows(rows: Seq<Seq<u32>>, n: int) -> bool {
    forall|i: int, j: int| 0 <= i < j < n ==> #[trigger] rows[i] != #[trigger] rows[j]
}

/// The table holds the first `n` rows whose hash belongs to batch `b`, under their hashes.
pub open spec fn tabled(
    t: MergeTable,
    b: int,
    batches: nat,
    hashes: Seq<u64>,
    n: int,
) -> bool {
    forall|x: usize, h: u64| #[trigger]
        table_entries(t).contains((x, h)) <==> (x < n && h == hashes[x as int] && batch_of(
            h,
            batches,
        ) == b)
}

/// A column that is grown has room for what is needed, is never made smaller, and where it grows
/// gets room for twice as much, so far as that can be counted, and for no fewer than the least.
pub proof fn law_room_doubles(room: int, needed: int)
    requires
        0 <= room,
        0 <= needed <= usize::MAX,
    ensures
        room_for(room, needed) >= needed,
        needed <= room ==> room_for(room, needed) == room,
        needed > room ==> room_for(room, needed) >= 16 && (room_for(room, needed) >= 2 * needed
            || room_for(room, needed) == usize::MAX),
        room_for(room_for(room, needed), needed) == room_for(room, needed),
{
}

/// The word counts are the powers of two: one, and the double of each.
pub proof fn law_powers_double(r: int)
    ensures
        is_power(1),
        is_power(r) ==> is_power(2 * r) && r > 0,
        r > 1 && r % 2 == 1 ==> !is_power(r),
        r <= 0 ==> !is_power(r),
{
    reveal_with_fuel(is_power, 2);
    assert((2 * r) / 2 == r && (2 * r) % 2 == 0);
}

} // verus!
