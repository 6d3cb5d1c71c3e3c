//! A single basis operator, such as a Pauli string or a Majorana monomial, as one
//! fixed-width bitset in the symplectic representation.
//!
//! Two bits per unit: bits `2k` and `2k + 1` describe unit `k`. Read as a Majorana product
//! they are the even and the odd mode of site `k`; read as a Pauli string they are the X and
//! the Z component of qubit `k`. A product of two operators is then one exclusive or.
//!
//! A string is modelled by its sequence of bits, `s@: Seq<bool>`.

use crate::bits;
use vstd::prelude::*;

verus! {

/// Number of bits in one storage word.
const WORD_BITS: usize = 64;

/// Mask selecting the even bit of every unit pair.
const EVEN_MASK: u64 = 0x5555_5555_5555_5555;

/// One basis operator, as `W` words of interleaved unit pairs.
#[derive(Clone, Copy, Eq, PartialOrd, Ord, Debug, Hash)]
pub struct BasisString<const W: usize> {
    words: [u64; W],
}

/// A basis string read as a product of Majorana modes.
pub type Monomial<const W: usize> = BasisString<W>;

/// The words that spell the bit sequence `s`.
pub open spec fn words_spelling(s: Seq<bool>) -> Seq<u64> {
    choose|w: Seq<u64>| bits::bits_of(w) == s
}

/// Finalizer of the splitmix64 generator.
pub open spec fn splitmix64_of(x: u64) -> u64 {
    let a = vstd::wrapping::u64_specs::wrapping_add(x, 0x9E37_79B9_7F4A_7C15);
    let b = vstd::wrapping::u64_specs::wrapping_mul(a ^ (a >> 30), 0xBF58_476D_1CE4_E5B9);
    let c = vstd::wrapping::u64_specs::wrapping_mul(b ^ (b >> 27), 0x94D0_49BB_1331_11EB);
    c ^ (c >> 31)
}

/// What `rustc_hash::FxHasher` makes of an array of words in little-endian byte order, on the
/// kind of target the crate is built for, whose pointers have `word_bits` bits.
pub uninterp spec fn fx_hash_of(words: Seq<u64>, word_bits: nat) -> u64;

/// The hash of a basis string with bits `s`.
pub open spec fn hash_of(s: Seq<bool>) -> u64 {
    let w = words_spelling(s);
    if w.len() == 1 {
        splitmix64_of(w[0])
    } else {
        fx_hash_of(w, usize::BITS as nat)
    }
}

/// Hashes an array of words with `rustc_hash::FxHasher`, started from its default state.
///
/// Trusts that the hasher is seeded by a constant and reads bytes in little-endian order, so
/// that the result is a function of the words alone for one width of pointers. What the function
/// is stays unsaid.
#[verifier::external_body]
fn fx_hash<const W: usize>(words: &[u64; W]) -> (h: u64)
    ensures
        h == fx_hash_of(words@, usize::BITS as nat),
{
    let mut h = rustc_hash::FxHasher::default();
    std::hash::Hash::hash(&words.map(u64::to_le), &mut h);
    std::hash::Hasher::finish(&h)
}

/// Finalizer from splitmix64, used to avalanche a single storage word.
fn splitmix64(x: u64) -> (z: u64)
    ensures
        z == splitmix64_of(x),
{
    let a: u64 = x.wrapping_add(0x9E37_79B9_7F4A_7C15);
    let b: u64 = (a ^ (a >> 30)).wrapping_mul(0xBF58_476D_1CE4_E5B9);
    let c: u64 = (b ^ (b >> 27)).wrapping_mul(0x94D0_49BB_1331_11EB);
    c ^ (c >> 31)
}

impl<const W: usize> View for BasisString<W> {
    type V = Seq<bool>;

    open spec fn view(&self) -> Seq<bool> {
        bits::bits_of(self.word_seq())
    }
}

impl<const W: usize> BasisString<W> {
    /// The storage words.
    pub closed spec fn word_seq(&self) -> Seq<u64> {
        self.words@
    }

    /// The string with bits `s`.
    pub open spec fn with_bits(s: Seq<bool>) -> Self {
        choose|m: Self| m@ == s
    }

    /// Two strings with the same bits are equal.
    pub proof fn lemma_ext(a: Self, b: Self)
        requires
            a@ == b@,
        ensures
            a == b,
    {
        assert(a.words@.len() == W && b.words@.len() == W);
        assert forall|p: int| 0 <= p < 64 * W implies bits::bit_at(a.words@, p) == bits::bit_at(
            b.words@,
            p,
        ) by {
            assert(bits::bits_of(a.word_seq())[p] == bits::bits_of(b.word_seq())[p]);
        }
        bits::lemma_words_ext(a.words@, b.words@);
        assert(a.words =~= b.words);
    }

    /// A string has 64 bits per word.
    pub proof fn lemma_len(a: Self)
        ensures
            a@.len() == 64 * W,
            a.word_seq().len() == W,
    {
    }

    /// The words are those that spell the bits.
    pub proof fn lemma_words_spelling(a: Self)
        ensures
            words_spelling(a@) == a.word_seq(),
    {
        let w = words_spelling(a@);
        assert(bits::bits_of(a.word_seq()) == a@);
        assert(bits::bits_of(w) == a@);
        assert(bits::bits_of(w).len() == a@.len());
        assert(w.len() == W);
        assert forall|p: int| 0 <= p < 64 * W implies bits::bit_at(w, p) == bits::bit_at(
            a.words@,
            p,
        ) by {
            assert(bits::bits_of(w)[p] == a@[p]);
        }
        bits::lemma_words_ext(w, a.words@);
    }

    /// A string built to have given bits is found by them.
    pub proof fn lemma_with_bits(a: Self)
        ensures
            Self::with_bits(a@) == a,
    {
        let m = Self::with_bits(a@);
        assert(m@ == a@);
        Self::lemma_ext(m, a);
    }

    /// The identity operator, with no bit set.
    pub fn zero() -> (m: Self)
        ensures
            m@ == bits::none(64 * W as nat),
    {
        let words: [u64; W] = [0u64;W];
        let m = BasisString { words };
        proof {
            assert forall|p: int| 0 <= p < 64 * W implies !#[trigger] m@[p] by {
                bits::lemma_bit_zero(p % 64);
                assert(m.words@[p / 64] == 0);
            }
            assert(m@ =~= bits::none(64 * W as nat));
        }
        m
    }

    /// Builds a basis string from raw storage words.
    pub fn from_words(words: [u64; W]) -> (m: Self)
        ensures
            m.word_seq() == words@,
            m@ == bits::bits_of(words@),
    {
        BasisString { words }
    }

    /// The raw storage words.
    pub fn words(&self) -> (words: &[u64; W])
        ensures
            words@ == self.word_seq(),
    {
        &self.words
    }

    /// Number of storage words, known at compile time.
    pub fn num_words() -> (n: usize)
        ensures
            n == W,
    {
        W
    }

    /// Number of addressable bit positions, known at compile time.
    pub fn num_bits() -> (n: usize)
        requires
            64 * W <= usize::MAX,
        ensures
            n == 64 * W,
    {
        W * WORD_BITS
    }

    /// The smallest `W` that can hold `n_units` units at two bits each.
    pub fn words_for(n_units: usize) -> (n: usize)
        requires
            2 * n_units <= usize::MAX,
        ensures
            2 * n_units <= 64 * n,
            64 * n < 2 * n_units + 64,
    {
        let bits: usize = 2 * n_units;
        let whole: usize = bits / WORD_BITS;
        if bits % WORD_BITS == 0 {
            whole
        } else {
            whole + 1
        }
    }

    /// True if bit `pos` is set.
    pub fn test(&self, pos: usize) -> (r: bool)
        requires
            pos < 64 * W,
        ensures
            r == self@[pos as int],
    {
        let s: u64 = (pos % WORD_BITS) as u64;
        let w: u64 = self.words[pos / WORD_BITS];
        proof {
            assert(w >> s & 1 == 0 || w >> s & 1 == 1) by (bit_vector);
        }
        (w >> s) & 1 != 0
    }

    /// Sets bit `pos`.
    pub fn set(&mut self, pos: usize)
        requires
            pos < 64 * W,
        ensures
            final(self)@ == old(self)@.update(pos as int, true),
    {
        let s: u64 = (pos % WORD_BITS) as u64;
        let k: usize = pos / WORD_BITS;
        let w: u64 = self.words[k];
        let x: u64 = 1u64 << s;
        self.words[k] = w | x;
        proof {
            assert forall|p: int| 0 <= p < 64 * W implies #[trigger] self@[p] == old(
                self,
            )@.update(pos as int, true)[p] by {
                bits::lemma_bit_ops(w, x, p % 64);
                bits::lemma_bit_one_hot(s, p % 64);
            }
            assert(self@ =~= old(self)@.update(pos as int, true));
        }
    }

    /// Clears bit `pos`.
    pub fn clear(&mut self, pos: usize)
        requires
            pos < 64 * W,
        ensures
            final(self)@ == old(self)@.update(pos as int, false),
    {
        let s: u64 = (pos % WORD_BITS) as u64;
        let k: usize = pos / WORD_BITS;
        let w: u64 = self.words[k];
        let x: u64 = 1u64 << s;
        self.words[k] = w & !x;
        proof {
            assert forall|p: int| 0 <= p < 64 * W implies #[trigger] self@[p] == old(
                self,
            )@.update(pos as int, false)[p] by {
                bits::lemma_bit_ops(w, !x, p % 64);
                bits::lemma_bit_ops(x, 0, p % 64);
                bits::lemma_bit_one_hot(s, p % 64);
            }
            assert(self@ =~= old(self)@.update(pos as int, false));
        }
    }

    /// True if no bit is set.
    pub fn is_zero(&self) -> (r: bool)
        ensures
            r == (self@ == bits::none(64 * W as nat)),
    {
        let mut i: usize = 0;
        while i < W
            invariant
                i <= W,
                forall|k: int| 0 <= k < i ==> self.words@[k] == 0,
            decreases W - i,
        {
            let w: u64 = self.words[i];
            if w != 0 {
                proof {
                    bits::lemma_drop_lowest(w);
                    let t = vstd::std_specs::bits::u64_trailing_zeros(w) as int;
                    assert((64 * i + t) / 64 == i && (64 * i + t) % 64 == t);
                    assert(self@[64 * i + t]);
                    assert(!bits::none(64 * W as nat)[64 * i + t]);
                }
                return false;
            }
            i += 1;
        }
        proof {
            assert forall|p: int| 0 <= p < 64 * W implies !#[trigger] self@[p] by {
                bits::lemma_bit_zero(p % 64);
                assert(self.words@[p / 64] == 0);
            }
            assert(self@ =~= bits::none(64 * W as nat));
        }
        true
    }

    /// Number of set bits.
    pub fn count(&self) -> (r: usize)
        requires
            64 * W <= u32::MAX,
        ensures
            r == bits::ones(self@),
    {
        let mut n: u32 = 0;
        let mut i: usize = 0;
        proof {
            assert(bits::bits_of(self.words@.take(0)) =~= Seq::<bool>::empty());
        }
        while i < W
            invariant
                i <= W,
                64 * W <= u32::MAX,
                n <= 64 * i,
                n == bits::ones(bits::bits_of(self.words@.take(i as int))),
            decreases W - i,
        {
            proof {
                let t = self.words@.take(i + 1);
                bits::lemma_bits_of_push(t);
                assert(t.drop_last() =~= self.words@.take(i as int));
                bits::lemma_ones_add(bits::bits_of(t.drop_last()), bits::word_bits(t.last()));
            }
            n += bits::count_ones(self.words[i]);
            i += 1;
        }
        proof {
            assert(self.words@.take(W as int) =~= self.words@);
        }
        n as usize
    }

    /// Number of bits set in both basis strings, without materializing the conjunction.
    pub fn count_and(&self, other: &Self) -> (r: usize)
        requires
            64 * W <= u32::MAX,
        ensures
            r == bits::ones(bits::both(self@, other@)),
    {
        let mut n: u32 = 0;
        let mut i: usize = 0;
        let ghost ws = Seq::new(W as nat, |k: int| self.words@[k] & other.words@[k]);
        proof {
            assert(bits::bits_of(ws.take(0)) =~= Seq::<bool>::empty());
        }
        while i < W
            invariant
                i <= W,
                64 * W <= u32::MAX,
                n <= 64 * i,
                ws == Seq::new(W as nat, |k: int| self.words@[k] & other.words@[k]),
                n == bits::ones(bits::bits_of(ws.take(i as int))),
            decreases W - i,
        {
            proof {
                let t = ws.take(i + 1);
                bits::lemma_bits_of_push(t);
                assert(t.drop_last() =~= ws.take(i as int));
                bits::lemma_ones_add(bits::bits_of(t.drop_last()), bits::word_bits(t.last()));
            }
            n += bits::count_ones(self.words[i] & other.words[i]);
            i += 1;
        }
        proof {
            assert(ws.take(W as int) =~= ws);
            lemma_and_words(self.words@, other.words@, ws);
        }
        n as usize
    }

    /// Parity of [`BasisString::count_and`].
    pub fn parity_and(&self, other: &Self) -> (r: bool)
        ensures
            r == bits::odd(bits::both(self@, other@)),
    {
        let mut acc: u64 = 0;
        let mut i: usize = 0;
        let ghost ws = Seq::new(W as nat, |k: int| self.words@[k] & other.words@[k]);
        proof {
            assert(bits::bits_of(ws.take(0)) =~= Seq::<bool>::empty());
            assert forall|p: int| 0 <= p < 64 implies !#[trigger] bits::word_bits(0)[p] by {
                bits::lemma_bit_zero(p);
            }
            bits::lemma_ones_none(bits::word_bits(0));
        }
        while i < W
            invariant
                i <= W,
                ws == Seq::new(W as nat, |k: int| self.words@[k] & other.words@[k]),
                bits::odd(bits::word_bits(acc)) == bits::odd(bits::bits_of(ws.take(i as int))),
            decreases W - i,
        {
            let x: u64 = self.words[i] & other.words[i];
            proof {
                let t = ws.take(i + 1);
                bits::lemma_bits_of_push(t);
                assert(t.drop_last() =~= ws.take(i as int));
                bits::lemma_ones_add(bits::bits_of(t.drop_last()), bits::word_bits(t.last()));
                assert forall|p: int| 0 <= p < 64 implies #[trigger] bits::word_bits(acc ^ x)[p]
                    == bits::xor(bits::word_bits(acc), bits::word_bits(x))[p] by {
                    bits::lemma_bit_ops(acc, x, p);
                }
                assert(bits::word_bits(acc ^ x) =~= bits::xor(
                    bits::word_bits(acc),
                    bits::word_bits(x),
                ));
                bits::lemma_ones_xor(bits::word_bits(acc), bits::word_bits(x));
            }
            acc = acc ^ x;
            i += 1;
        }
        proof {
            assert(ws.take(W as int) =~= ws);
            lemma_and_words(self.words@, other.words@, ws);
        }
        bits::count_ones(acc) % 2 == 1
    }

    /// Number of units with at least one of their two bits set: the Pauli weight of the
    /// string, and of the Jordan-Wigner image of the monomial.
    pub fn support(&self) -> (r: usize)
        requires
            64 * W <= u32::MAX,
        ensures
            r == bits::ones(bits::pair_any(self@)),
    {
        let mut n: u32 = 0;
        let mut i: usize = 0;
        proof {
            assert(bits::pair_any(bits::bits_of(self.words@.take(0))) =~= Seq::<bool>::empty());
        }
        while i < W
            invariant
                i <= W,
                64 * W <= u32::MAX,
                n <= 64 * i,
                n == bits::ones(bits::pair_any(bits::bits_of(self.words@.take(i as int)))),
            decreases W - i,
        {
            let w: u64 = self.words[i];
            let x: u64 = (w | (w >> 1)) & EVEN_MASK;
            proof {
                let t = self.words@.take(i + 1);
                bits::lemma_bits_of_push(t);
                assert(t.drop_last() =~= self.words@.take(i as int));
                let a = bits::bits_of(t.drop_last());
                let b = bits::word_bits(t.last());
                assert(bits::pair_any(a + b) =~= bits::pair_any(a) + bits::pair_any(b));
                bits::lemma_ones_add(bits::pair_any(a), bits::pair_any(b));
                lemma_unit_word(w);
            }
            // Fold each unit's two bits onto its even bit, then count those.
            n += bits::count_ones(x);
            i += 1;
        }
        proof {
            assert(self.words@.take(W as int) =~= self.words@);
        }
        n as usize
    }

    /// Swaps the two bits of every unit pair.
    ///
    /// For a Pauli string this is the map that turns a generator into its anticommutation
    /// columns, since X and Z exchange roles there.
    pub fn pair_swap(&self) -> (r: Self)
        ensures
            r@ == bits::pair_exchange(self@),
    {
        let mut out: [u64; W] = [0u64;W];
        let mut i: usize = 0;
        while i < W
            invariant
                i <= W,
                forall|k: int|
                    0 <= k < i ==> #[trigger] out@[k] == ((self.words@[k] & EVEN_MASK) << 1) | ((
                    self.words@[k] >> 1) & EVEN_MASK),
            decreases W - i,
        {
            let w: u64 = self.words[i];
            out[i] = ((w & EVEN_MASK) << 1) | ((w >> 1) & EVEN_MASK);
            i += 1;
        }
        let r = BasisString { words: out };
        proof {
            assert forall|p: int| 0 <= p < 64 * W implies #[trigger] r@[p] == bits::pair_exchange(
                self@,
            )[p] by {
                lemma_swap_word(self.words@[p / 64], p % 64);
                assert(r.words@[p / 64] == out@[p / 64]);
                if p % 2 == 0 {
                    assert((p % 64) % 2 == 0);
                    assert((p + 1) / 64 == p / 64 && (p + 1) % 64 == p % 64 + 1);
                } else {
                    assert((p % 64) % 2 == 1);
                    assert((p - 1) / 64 == p / 64 && (p - 1) % 64 == p % 64 - 1);
                }
            }
            assert(r@ =~= bits::pair_exchange(self@));
        }
        r
    }

    /// Ascending positions of the set bits.
    pub fn positions(&self) -> (r: Positions<'_, W>)
        ensures
            r.wf(),
            r.remaining() == bits::set_positions(self@),
    {
        let rest: u64 = if W > 0 {
            self.words[0]
        } else {
            0
        };
        let r = Positions { words: &self.words, word: 0, rest };
        proof {
            assert(r.pending() =~= self@);
        }
        r
    }

    /// Rebuilds a basis string from set-bit positions.
    pub fn from_positions(positions: &[usize]) -> (m: Self)
        requires
            forall|k: int| 0 <= k < positions@.len() ==> #[trigger] positions@[k] < 64 * W,
        ensures
            forall|p: int|
                0 <= p < 64 * W ==> #[trigger] m@[p] == exists|k: int|
                    0 <= k < positions@.len() && positions@[k] == p,
    {
        let mut m = Self::zero();
        let mut i: usize = 0;
        while i < positions.len()
            invariant
                i <= positions@.len(),
                forall|k: int| 0 <= k < positions@.len() ==> #[trigger] positions@[k] < 64 * W,
                m@.len() == 64 * W,
                forall|p: int|
                    0 <= p < 64 * W ==> #[trigger] m@[p] == exists|k: int|
                        0 <= k < i && positions@[k] == p,
            decreases positions@.len() - i,
        {
            let ghost before = m@;
            m.set(positions[i]);
            proof {
                assert forall|p: int| 0 <= p < 64 * W implies #[trigger] m@[p] == exists|k: int|
                    0 <= k < i + 1 && positions@[k] == p by {
                    if p == positions@[i as int] {
                        assert(positions@[i as int] == p);
                    } else {
                        assert(m@[p] == before[p]);
                    }
                }
            }
            i += 1;
        }
        m
    }

    /// A 64-bit hash of the whole basis string.
    pub fn hash_value(&self) -> (h: u64)
        ensures
            h == hash_of(self@),
    {
        proof {
            Self::lemma_words_spelling(*self);
        }
        if W == 1 {
            return splitmix64(self.words[0]);
        }
        fx_hash(&self.words)
    }
}

proof fn lemma_and_words(a: Seq<u64>, b: Seq<u64>, c: Seq<u64>)
    requires
        a.len() == b.len(),
        a.len() == c.len(),
        forall|k: int| 0 <= k < a.len() ==> #[trigger] c[k] == a[k] & b[k],
    ensures
        bits::bits_of(c) == bits::both(bits::bits_of(a), bits::bits_of(b)),
{
    assert forall|p: int| 0 <= p < 64 * a.len() implies #[trigger] bits::bits_of(c)[p]
        == bits::both(bits::bits_of(a), bits::bits_of(b))[p] by {
        bits::lemma_bit_ops(a[p / 64], b[p / 64], p % 64);
        assert(c[p / 64] == a[p / 64] & b[p / 64]);
    }
    assert(bits::bits_of(c) =~= bits::both(bits::bits_of(a), bits::bits_of(b)));
}

proof fn lemma_unit_word(w: u64)
    ensures
        bits::ones(bits::word_bits((w | (w >> 1)) & EVEN_MASK)) == bits::ones(
            bits::pair_any(bits::word_bits(w)),
        ),
{
    let x = (w | (w >> 1)) & EVEN_MASK;
    let t = bits::word_bits(x);
    assert forall|k: int| 0 <= k < 32 implies !#[trigger] t[2 * k + 1] && t[2 * k] == (bits::bit(
        w,
        2 * k,
    ) || bits::bit(w, 2 * k + 1)) by {
        let j = (2 * k) as u64;
        let j1 = (2 * k + 1) as u64;
        assert(!(x >> j1 & 1 == 1) && (x >> j & 1 == 1) == ((w >> j & 1 == 1) || (w >> j1 & 1
            == 1))) by (bit_vector)
            requires
                j < 63,
                j % 2 == 0,
                j1 == j + 1,
                x == (w | (w >> 1)) & 0x5555_5555_5555_5555,
        ;
    }
    bits::lemma_ones_even_only(t);
    assert forall|k: int| 0 <= k < 32 implies t[2 * k] == #[trigger] bits::pair_any(
        bits::word_bits(w),
    )[k] by {
        assert(!t[2 * k + 1]);
    }
    assert(Seq::new(t.len() / 2, |k: int| t[2 * k]) =~= bits::pair_any(bits::word_bits(w)));
}

proof fn lemma_swap_word(w: u64, i: int)
    requires
        0 <= i < 64,
    ensures
        bits::bit(((w & EVEN_MASK) << 1) | ((w >> 1) & EVEN_MASK), i) == (if i % 2 == 0 {
            bits::bit(w, i + 1)
        } else {
            bits::bit(w, i - 1)
        }),
{
    let k = i as u64;
    let j = (if i % 2 == 0 {
        i + 1
    } else {
        i - 1
    }) as u64;
    assert((((w & 0x5555_5555_5555_5555) << 1) | ((w >> 1) & 0x5555_5555_5555_5555)) >> k & 1 == w
        >> j & 1) by (bit_vector)
        requires
            k < 64,
            (k % 2 == 0 && j == k + 1) || (k % 2 == 1 && j == k - 1),
    ;
}

impl<const W: usize> Default for BasisString<W> {
    fn default() -> (m: Self)
        ensures
            m@ == bits::none(64 * W as nat),
    {
        Self::zero()
    }
}

impl<const W: usize> PartialEq for BasisString<W> {
    fn eq(&self, other: &Self) -> (r: bool) {
        let mut i: usize = 0;
        while i < W
            invariant
                i <= W,
                forall|k: int| 0 <= k < i ==> self.words@[k] == other.words@[k],
            decreases W - i,
        {
            if self.words[i] != other.words[i] {
                return false;
            }
            i += 1;
        }
        proof {
            assert(self.words =~= other.words);
        }
        true
    }
}

impl<const W: usize> vstd::std_specs::cmp::PartialEqSpecImpl for BasisString<W> {
    open spec fn obeys_eq_spec() -> bool {
        true
    }

    open spec fn eq_spec(&self, other: &Self) -> bool {
        *self == *other
    }
}

/// A walk over a basis string's ascending set-bit positions.
pub struct Positions<'a, const W: usize> {
    words: &'a [u64; W],
    word: usize,
    rest: u64,
}

impl<'a, const W: usize> Positions<'a, W> {
    /// The walk stands at a word of the string.
    pub closed spec fn wf(&self) -> bool {
        &&& self.word < W || (self.word == 0 && self.rest == 0)
        &&& self.words@.len() == W
    }

    /// The bits not yet walked over.
    closed spec fn pending(&self) -> Seq<bool> {
        Seq::new(
            64 * W as nat,
            |p: int|
                if p / 64 < self.word {
                    false
                } else if p / 64 == self.word {
                    bits::bit(self.rest, p % 64)
                } else {
                    bits::bit(self.words@[p / 64], p % 64)
                },
        )
    }

    /// The positions still to come, in order.
    pub closed spec fn remaining(&self) -> Seq<int> {
        bits::set_positions(self.pending())
    }

    /// The next position, or none when the walk is over.
    pub fn next(&mut self) -> (r: Option<usize>)
        requires
            old(self).wf(),
            64 * W <= usize::MAX,
        ensures
            final(self).wf(),
            match r {
                Some(p) => old(self).remaining().len() > 0 && p == old(self).remaining()[0]
                    && final(self).remaining() == old(self).remaining().skip(1),
                None => old(self).remaining().len() == 0 && final(self).remaining().len() == 0,
            },
    {
        loop
            invariant
                self.wf(),
                64 * W <= usize::MAX,
                self.remaining() == old(self).remaining(),
            decreases W - self.word,
        {
            if self.rest != 0 {
                let ghost before = self.pending();
                let ghost rest = self.rest;
                proof {
                    bits::lemma_drop_lowest(self.rest);
                }
                let bit: usize = self.rest.trailing_zeros() as usize;
                self.rest = self.rest & (self.rest - 1);
                let p: usize = self.word * WORD_BITS + bit;
                proof {
                    assert(p / 64 == self.word && p % 64 == bit);
                    assert forall|q: int| 0 <= q < p implies !#[trigger] before[q] by {
                        if q / 64 == self.word {
                            assert(q % 64 < bit);
                        }
                    }
                    assert(before[p as int]);
                    bits::lemma_first_position(before, p as int);
                    assert forall|q: int| 0 <= q < 64 * W implies #[trigger] self.pending()[q]
                        == before.update(p as int, false)[q] by {
                        if q / 64 == self.word {
                            assert(bits::bit(rest & ((rest - 1) as u64), q % 64) == (bits::bit(
                                rest,
                                q % 64,
                            ) && q % 64 != bit));
                            assert((q % 64 == bit) == (q == p));
                        }
                    }
                    assert(self.pending() =~= before.update(p as int, false));
                    assert(old(self).remaining().skip(1) =~= self.remaining());
                }
                return Some(p);
            }
            let ghost before = self.pending();
            if self.word + 1 >= W {
                proof {
                    assert forall|q: int| 0 <= q < 64 * W implies !#[trigger] before[q] by {
                        bits::lemma_bit_zero(q % 64);
                    }
                    bits::lemma_ones_none(before);
                    bits::lemma_set_positions(before);
                }
                return None;
            }
            self.word = self.word + 1;
            self.rest = self.words[self.word];
            proof {
                assert forall|q: int| 0 <= q < 64 * W implies #[trigger] self.pending()[q]
                    == before[q] by {
                    bits::lemma_bit_zero(q % 64);
                }
                assert(self.pending() =~= before);
            }
        }
    }

    /// All positions still to come.
    pub fn collect(self) -> (v: Vec<usize>)
        requires
            self.wf(),
            64 * W <= usize::MAX,
        ensures
            v@.len() == self.remaining().len(),
            forall|k: int| 0 <= k < v@.len() ==> #[trigger] v@[k] == self.remaining()[k],
    {
        let mut it = self;
        let mut v: Vec<usize> = Vec::new();
        let ghost all = it.remaining();
        loop
            invariant
                it.wf(),
                64 * W <= usize::MAX,
                all == self.remaining(),
                v@.len() <= all.len(),
                it.remaining() == all.skip(v@.len() as int),
                forall|k: int| 0 <= k < v@.len() ==> #[trigger] v@[k] == all[k],
            decreases it.remaining().len(),
        {
            match it.next() {
                Some(p) => {
                    v.push(p);
                    proof {
                        assert(it.remaining() =~= all.skip(v@.len() as int));
                    }
                },
                None => {
                    return v;
                },
            }
        }
    }

    /// How many positions are still to come.
    pub fn count(self) -> (n: usize)
        requires
            self.wf(),
            64 * W <= usize::MAX,
        ensures
            n == self.remaining().len(),
    {
        let v = self.collect();
        v.len()
    }
}

fn xor_words<const W: usize>(a: &BasisString<W>, b: &BasisString<W>) -> (r: BasisString<W>)
    ensures
        r@ == bits::xor(a@, b@),
{
    let mut out: [u64; W] = [0u64;W];
    let mut i: usize = 0;
    while i < W
        invariant
            i <= W,
            forall|k: int| 0 <= k < i ==> #[trigger] out@[k] == a.words@[k] ^ b.words@[k],
        decreases W - i,
    {
        out[i] = a.words[i] ^ b.words[i];
        i += 1;
    }
    let r = BasisString { words: out };
    proof {
        assert forall|p: int| 0 <= p < 64 * W implies #[trigger] r@[p] == bits::xor(a@, b@)[p] by {
            bits::lemma_bit_ops(a.words@[p / 64], b.words@[p / 64], p % 64);
            assert(r.words@[p / 64] == out@[p / 64]);
        }
        assert(r@ =~= bits::xor(a@, b@));
    }
    r
}

fn and_words<const W: usize>(a: &BasisString<W>, b: &BasisString<W>) -> (r: BasisString<W>)
    ensures
        r@ == bits::both(a@, b@),
{
    let mut out: [u64; W] = [0u64;W];
    let mut i: usize = 0;
    while i < W
        invariant
            i <= W,
            forall|k: int| 0 <= k < i ==> #[trigger] out@[k] == a.words@[k] & b.words@[k],
        decreases W - i,
    {
        out[i] = a.words[i] & b.words[i];
        i += 1;
    }
    let r = BasisString { words: out };
    proof {
        assert forall|p: int| 0 <= p < 64 * W implies #[trigger] r@[p] == bits::both(a@, b@)[p] by {
            bits::lemma_bit_ops(a.words@[p / 64], b.words@[p / 64], p % 64);
            assert(r.words@[p / 64] == out@[p / 64]);
        }
        assert(r@ =~= bits::both(a@, b@));
    }
    r
}

fn or_words<const W: usize>(a: &BasisString<W>, b: &BasisString<W>) -> (r: BasisString<W>)
    ensures
        r@ == bits::either(a@, b@),
{
    let mut out: [u64; W] = [0u64;W];
    let mut i: usize = 0;
    while i < W
        invariant
            i <= W,
            forall|k: int| 0 <= k < i ==> #[trigger] out@[k] == a.words@[k] | b.words@[k],
        decreases W - i,
    {
        out[i] = a.words[i] | b.words[i];
        i += 1;
    }
    let r = BasisString { words: out };
    proof {
        assert forall|p: int| 0 <= p < 64 * W implies #[trigger] r@[p] == bits::either(
            a@,
            b@,
        )[p] by {
            bits::lemma_bit_ops(a.words@[p / 64], b.words@[p / 64], p % 64);
            assert(r.words@[p / 64] == out@[p / 64]);
        }
        assert(r@ =~= bits::either(a@, b@));
    }
    r
}

impl<const W: usize> std::ops::BitXor for BasisString<W> {
    type Output = BasisString<W>;

    fn bitxor(self, rhs: Self) -> (r: BasisString<W>)
        ensures
            r@ == bits::xor(self@, rhs@),
    {
        let r = xor_words(&self, &rhs);
        proof {
            Self::lemma_with_bits(r);
        }
        r
    }
}

impl<const W: usize> vstd::std_specs::ops::BitXorSpecImpl for BasisString<W> {
    open spec fn obeys_bitxor_spec() -> bool {
        true
    }

    open spec fn bitxor_req(self, rhs: Self) -> bool {
        true
    }

    open spec fn bitxor_spec(self, rhs: Self) -> BasisString<W> {
        BasisString::with_bits(bits::xor(self@, rhs@))
    }
}

impl<const W: usize> std::ops::BitAnd for BasisString<W> {
    type Output = BasisString<W>;

    fn bitand(self, rhs: Self) -> (r: BasisString<W>)
        ensures
            r@ == bits::both(self@, rhs@),
    {
        let r = and_words(&self, &rhs);
        proof {
            Self::lemma_with_bits(r);
        }
        r
    }
}

impl<const W: usize> vstd::std_specs::ops::BitAndSpecImpl for BasisString<W> {
    open spec fn obeys_bitand_spec() -> bool {
        true
    }

    open spec fn bitand_req(self, rhs: Self) -> bool {
        true
    }

    open spec fn bitand_spec(self, rhs: Self) -> BasisString<W> {
        BasisString::with_bits(bits::both(self@, rhs@))
    }
}

impl<const W: usize> std::ops::BitOr for BasisString<W> {
    type Output = BasisString<W>;

    fn bitor(self, rhs: Self) -> (r: BasisString<W>)
        ensures
            r@ == bits::either(self@, rhs@),
    {
        let r = or_words(&self, &rhs);
        proof {
            Self::lemma_with_bits(r);
        }
        r
    }
}

impl<const W: usize> vstd::std_specs::ops::BitOrSpecImpl for BasisString<W> {
    open spec fn obeys_bitor_spec() -> bool {
        true
    }

    open spec fn bitor_req(self, rhs: Self) -> bool {
        true
    }

    open spec fn bitor_spec(self, rhs: Self) -> BasisString<W> {
        BasisString::with_bits(bits::either(self@, rhs@))
    }
}

impl<'a, 'b, const W: usize> std::ops::BitXor<&'b BasisString<W>> for &'a BasisString<W> {
    type Output = BasisString<W>;

    fn bitxor(self, rhs: &'b BasisString<W>) -> (r: BasisString<W>)
        ensures
            r@ == bits::xor(self@, rhs@),
    {
        let r = xor_words(self, rhs);
        proof {
            BasisString::lemma_with_bits(r);
        }
        r
    }
}

impl<'a, 'b, const W: usize> vstd::std_specs::ops::BitXorSpecImpl<&'b BasisString<W>> for &'a BasisString<W> {
    open spec fn obeys_bitxor_spec() -> bool {
        true
    }

    open spec fn bitxor_req(self, rhs: &'b BasisString<W>) -> bool {
        true
    }

    open spec fn bitxor_spec(self, rhs: &'b BasisString<W>) -> BasisString<W> {
        BasisString::with_bits(bits::xor(self@, rhs@))
    }
}

impl<'a, 'b, const W: usize> std::ops::BitAnd<&'b BasisString<W>> for &'a BasisString<W> {
    type Output = BasisString<W>;

    fn bitand(self, rhs: &'b BasisString<W>) -> (r: BasisString<W>)
        ensures
            r@ == bits::both(self@, rhs@),
    {
        let r = and_words(self, rhs);
        proof {
            BasisString::lemma_with_bits(r);
        }
        r
    }
}

impl<'a, 'b, const W: usize> vstd::std_specs::ops::BitAndSpecImpl<&'b BasisString<W>> for &'a BasisString<W> {
    open spec fn obeys_bitand_spec() -> bool {
        true
    }

    open spec fn bitand_req(self, rhs: &'b BasisString<W>) -> bool {
        true
    }

    open spec fn bitand_spec(self, rhs: &'b BasisString<W>) -> BasisString<W> {
        BasisString::with_bits(bits::both(self@, rhs@))
    }
}

impl<'a, 'b, const W: usize> std::ops::BitOr<&'b BasisString<W>> for &'a BasisString<W> {
    type Output = BasisString<W>;

    fn bitor(self, rhs: &'b BasisString<W>) -> (r: BasisString<W>)
        ensures
            r@ == bits::either(self@, rhs@),
    {
        let r = or_words(self, rhs);
        proof {
            BasisString::lemma_with_bits(r);
        }
        r
    }
}

impl<'a, 'b, const W: usize> vstd::std_specs::ops::BitOrSpecImpl<&'b BasisString<W>> for &'a BasisString<W> {
    open spec fn obeys_bitor_spec() -> bool {
        true
    }

    open spec fn bitor_req(self, rhs: &'b BasisString<W>) -> bool {
        true
    }

    open spec fn bitor_spec(self, rhs: &'b BasisString<W>) -> BasisString<W> {
        BasisString::with_bits(bits::either(self@, rhs@))
    }
}

/// Multiplying by a string twice changes nothing.
pub proof fn law_xor_undoes_itself<const W: usize>(a: BasisString<W>, b: BasisString<W>)
    ensures
        bits::xor(bits::xor(a@, b@), b@) == a@,
        bits::xor(a@, a@) == bits::none(64 * W as nat),
{
    BasisString::lemma_len(a);
    BasisString::lemma_len(b);
    assert(bits::xor(bits::xor(a@, b@), b@) =~= a@);
    assert(bits::xor(a@, a@) =~= bits::none(64 * W as nat));
}

/// A string touches at most as many units as it has set bits, and has at most two set bits in
/// each.
pub proof fn law_support_bounds_count<const W: usize>(m: BasisString<W>)
    ensures
        bits::ones(bits::pair_any(m@)) <= bits::ones(m@) <= 2 * bits::ones(bits::pair_any(m@)),
{
    bits::lemma_pairs_bound_ones(m@);
}

/// Swapping the members of every pair twice changes nothing; once, it keeps the number of bits
/// and the support.
pub proof fn law_pair_swap_undoes_itself<const W: usize>(m: BasisString<W>)
    ensures
        bits::pair_exchange(bits::pair_exchange(m@)) == m@,
        bits::ones(bits::pair_exchange(m@)) == bits::ones(m@),
        bits::ones(bits::pair_any(bits::pair_exchange(m@))) == bits::ones(bits::pair_any(m@)),
{
    BasisString::lemma_len(m);
    bits::lemma_pair_exchange_ones(m@);
    bits::lemma_pair_exchange_twice(m@);
}

/// A string is what its positions make it.
pub proof fn law_positions_round_trip<const W: usize>(
    m: BasisString<W>,
    positions: Seq<usize>,
    back: BasisString<W>,
)
    requires
        positions.len() == bits::set_positions(m@).len(),
        forall|k: int|
            0 <= k < positions.len() ==> #[trigger] positions[k] == bits::set_positions(m@)[k],
        forall|p: int|
            0 <= p < 64 * W ==> #[trigger] back@[p] == exists|k: int|
                0 <= k < positions.len() && positions[k] == p,
    ensures
        back == m,
{
    BasisString::lemma_len(m);
    BasisString::lemma_len(back);
    bits::lemma_set_positions(m@);
    assert forall|p: int| 0 <= p < 64 * W implies #[trigger] back@[p] == m@[p] by {
        if m@[p] {
            let k = choose|k: int|
                0 <= k < bits::set_positions(m@).len() && bits::set_positions(m@)[k] == p;
            assert(positions[k] == p);
        }
        if back@[p] {
            let k = choose|k: int| 0 <= k < positions.len() && positions[k] == p;
            assert(bits::set_positions(m@)[k] == p);
        }
    }
    assert(back@ =~= m@);
    BasisString::lemma_ext(back, m);
}

} // verus!
