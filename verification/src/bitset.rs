//! A growable set of bits: words from the least significant up, with no zero word at the top.

use crate::bits;
use core::cmp::Ordering;
use core::ops::{BitAnd, BitOr, BitXor};
use vstd::prelude::*;

verus! {

/// A short run of words, kept inline while there are at most four.
#[verifier::external_body]
#[derive(Debug)]
pub struct Words {
    words: smallvec::SmallVec<[u64; 4]>,
}

/// What a run of words holds.
pub uninterp spec fn words_held(w: Words) -> Seq<u64>;

impl Words {
    /// An empty run.
    ///
    /// Trusts `smallvec::SmallVec::new`: the vector holds nothing.
    #[verifier::external_body]
    fn new() -> (w: Self)
        ensures
            words_held(w) == Seq::<u64>::empty(),
    {
        Words { words: smallvec::SmallVec::new() }
    }

    /// A run with the given words.
    ///
    /// Trusts `smallvec::SmallVec::from_slice`: the vector holds a copy of the slice.
    #[verifier::external_body]
    fn from_slice(words: &[u64]) -> (w: Self)
        ensures
            words_held(w) == words@,
    {
        Words { words: smallvec::SmallVec::from_slice(words) }
    }

    /// Adds a word at the top.
    ///
    /// Trusts `smallvec::SmallVec::push`: the value is appended.
    #[verifier::external_body]
    fn push(&mut self, word: u64)
        ensures
            words_held(*final(self)) == words_held(*old(self)).push(word),
    {
        self.words.push(word);
    }

    /// Drops the top word.
    ///
    /// Trusts `smallvec::SmallVec::pop`: the last value is removed and returned, if there is one.
    #[verifier::external_body]
    fn pop(&mut self) -> (r: Option<u64>)
        ensures
            match r {
                Some(x) => words_held(*old(self)).len() > 0 && x == words_held(*old(self)).last()
                    && words_held(*final(self)) == words_held(*old(self)).drop_last(),
                None => words_held(*old(self)).len() == 0 && words_held(*final(self))
                    == words_held(*old(self)),
            },
    {
        self.words.pop()
    }

    /// The words as a slice.
    ///
    /// Trusts `smallvec::SmallVec::as_slice`: the slice holds what the vector holds.
    #[verifier::external_body]
    fn as_slice(&self) -> (s: &[u64])
        ensures
            s@ == words_held(*self),
    {
        self.words.as_slice()
    }
}

/// A set of bits.
#[derive(Debug)]
pub struct Bitset {
    words: Words,
}

/// Byte `i` of a run of bytes has bit `b` set.
pub open spec fn byte_bit(bytes: Seq<u8>, p: int) -> bool {
    0 <= p < 8 * bytes.len() && bits::bit(bytes[p / 8] as u64, p % 8)
}

/// The words of the least length that have the same bits.
pub open spec fn trimmed(words: Seq<u64>) -> Seq<u64>
    decreases words.len(),
{
    if words.len() > 0 && words.last() == 0 {
        trimmed(words.drop_last())
    } else {
        words
    }
}

/// Trimming keeps every bit and leaves no zero word at the top.
proof fn lemma_trimmed(words: Seq<u64>)
    ensures
        trimmed(words).len() <= words.len(),
        trimmed(words) == words.take(trimmed(words).len() as int),
        forall|i: int| trimmed(words).len() <= i < words.len() ==> #[trigger] words[i] == 0,
        trimmed(words).len() > 0 ==> trimmed(words).last() != 0,
        forall|p: int| #[trigger] bits::bit_at(trimmed(words), p) == bits::bit_at(words, p),
    decreases words.len(),
{
    if words.len() > 0 && words.last() == 0 {
        let d = words.drop_last();
        lemma_trimmed(d);
        let t = trimmed(d);
        assert(t =~= words.take(t.len() as int)) by {
            assert(d.take(t.len() as int) =~= words.take(t.len() as int));
        }
        assert forall|i: int| t.len() <= i < words.len() implies #[trigger] words[i] == 0 by {
            if i < d.len() {
                assert(d[i] == words[i]);
            }
        }
        assert forall|p: int| #[trigger] bits::bit_at(t, p) == bits::bit_at(words, p) by {
            assert(bits::bit_at(t, p) == bits::bit_at(d, p));
            if 0 <= p < 64 * words.len() {
                if p / 64 == d.len() {
                    bits::lemma_bit_zero(p % 64);
                } else {
                    assert(d[p / 64] == words[p / 64]);
                }
            }
        }
    } else {
        assert(words.take(words.len() as int) =~= words);
    }
}

/// How word sequences compare from word `n` down: the first that differ decide.
pub open spec fn order_from(a: Seq<u64>, b: Seq<u64>, n: int) -> Ordering
    decreases n,
{
    if n <= 0 {
        Ordering::Equal
    } else {
        let x = word_of(a, n - 1);
        let y = word_of(b, n - 1);
        if x < y {
            Ordering::Less
        } else if x > y {
            Ordering::Greater
        } else {
            order_from(a, b, n - 1)
        }
    }
}

/// Word `i`, zero past the end.
pub open spec fn word_of(a: Seq<u64>, i: int) -> u64 {
    if 0 <= i < a.len() {
        a[i]
    } else {
        0
    }
}

impl Bitset {
    /// The words, least significant first.
    pub closed spec fn words(&self) -> Seq<u64> {
        words_held(self.words)
    }

    /// Bit `p` is set.
    pub open spec fn has(&self, p: int) -> bool {
        bits::bit_at(self.words(), p)
    }

    /// There is no zero word at the top.
    pub open spec fn wf(&self) -> bool {
        self.words().len() > 0 ==> self.words().last() != 0
    }

    /// The empty set.
    pub fn zero() -> (b: Self)
        ensures
            b.wf(),
            b.words() == Seq::<u64>::empty(),
    {
        Bitset { words: Words::new() }
    }

    /// The set with the bits of the given words.
    pub fn from_words(words: Vec<u64>) -> (b: Self)
        ensures
            b.wf(),
            b.words() == trimmed(words@),
            forall|p: int| #[trigger] b.has(p) == bits::bit_at(words@, p),
    {
        Bitset::from_slice(words.as_slice())
    }

    /// The set with the bits of the given words.
    pub fn from_slice(words: &[u64]) -> (b: Self)
        ensures
            b.wf(),
            b.words() == trimmed(words@),
            forall|p: int| #[trigger] b.has(p) == bits::bit_at(words@, p),
    {
        let mut b = Bitset { words: Words::from_slice(words) };
        b.normalize();
        proof {
            lemma_trimmed(words@);
        }
        b
    }

    /// Drops zero words from the top.
    fn normalize(&mut self)
        ensures
            final(self).words() == trimmed(old(self).words()),
    {
        loop
            invariant
                trimmed(self.words()) == trimmed(old(self).words()),
            ensures
                self.words() == trimmed(old(self).words()),
            decreases self.words().len(),
        {
            let s: &[u64] = self.words.as_slice();
            let n: usize = s.len();
            if n == 0 || s[n - 1] != 0 {
                break;
            }
            let _top: Option<u64> = self.words.pop();
        }
    }

    /// True if no bit is set.
    pub fn is_zero(&self) -> (r: bool)
        requires
            self.wf(),
        ensures
            r == (forall|p: int| !self.has(p)),
            r == (self.words().len() == 0),
    {
        let n: usize = self.words.as_slice().len();
        proof {
            if n > 0 {
                let top = self.words().last();
                if forall|p: int| !self.has(p) {
                    assert forall|i: int| 0 <= i < 64 implies bits::bit(top, i) == bits::bit(
                        0,
                        i,
                    ) by {
                        let p = 64 * (n - 1) + i;
                        assert(p / 64 == n - 1 && p % 64 == i);
                        assert(!self.has(p));
                        bits::lemma_bit_zero(i);
                    }
                    bits::lemma_word_ext(top, 0);
                }
            }
        }
        n == 0
    }

    /// How many bits are set.
    pub fn count_ones(&self) -> (n: u32)
        requires
            64 * self.words().len() <= u32::MAX,
        ensures
            n == bits::ones(bits::bits_of(self.words())),
    {
        let s: &[u64] = self.words.as_slice();
        let mut n: u32 = 0;
        let mut i: usize = 0;
        proof {
            assert(bits::bits_of(s@.take(0)) =~= Seq::<bool>::empty());
        }
        while i < s.len()
            invariant
                i <= s@.len(),
                64 * s@.len() <= u32::MAX,
                n == bits::ones(bits::bits_of(s@.take(i as int))),
                n <= 64 * i,
            decreases s@.len() - i,
        {
            proof {
                let t = s@.take(i + 1);
                bits::lemma_bits_of_push(t);
                assert(t.drop_last() =~= s@.take(i as int));
                bits::lemma_ones_add(bits::bits_of(t.drop_last()), bits::word_bits(t.last()));
            }
            n += bits::count_ones(s[i]);
            i += 1;
        }
        proof {
            assert(s@.take(s@.len() as int) =~= s@);
        }
        n
    }

    /// Bit `pos`, `0` or `1`.
    pub fn bit(&self, pos: usize) -> (b: u64)
        ensures
            b == (if self.has(pos as int) {
                1u64
            } else {
                0
            }),
    {
        let s: &[u64] = self.words.as_slice();
        let wi: usize = pos / 64;
        if wi >= s.len() {
            return 0;
        }
        let bi: u64 = (pos % 64) as u64;
        let w: u64 = s[wi];
        proof {
            assert((w >> bi) & 1 == 0 || (w >> bi) & 1 == 1) by (bit_vector);
        }
        (w >> bi) & 1
    }

    /// The words, least significant first.
    pub fn as_words(&self) -> (s: &[u64])
        ensures
            s@ == self.words(),
    {
        self.words.as_slice()
    }

    /// Word `i`, zero past the end.
    pub fn word_at(&self, i: usize) -> (w: u64)
        ensures
            w == word_of(self.words(), i as int),
    {
        let s: &[u64] = self.words.as_slice();
        if i < s.len() {
            s[i]
        } else {
            0
        }
    }

    /// A copy of the set.
    pub fn copy(&self) -> (b: Self)
        ensures
            b.words() == self.words(),
    {
        Bitset { words: Words::from_slice(self.words.as_slice()) }
    }

    /// The set of the bits below `n`.
    pub fn all_ones_upto(n: usize) -> (b: Self)
        ensures
            b.wf(),
            forall|p: int| #[trigger] b.has(p) == (0 <= p < n),
    {
        let mut words: Vec<u64> = Vec::new();
        let full: usize = n / 64;
        while words.len() < full
            invariant
                words@.len() <= full,
                forall|i: int| 0 <= i < words@.len() ==> #[trigger] words@[i] == !0u64,
            decreases full - words@.len(),
        {
            words.push(!0u64);
        }
        let rem: u64 = (n % 64) as u64;
        if rem != 0 {
            proof {
                assert((1u64 << rem) >= 1) by (bit_vector)
                    requires
                        rem < 64,
                ;
            }
            words.push((1u64 << rem) - 1);
        }
        proof {
            assert forall|p: int| #[trigger] bits::bit_at(words@, p) == (0 <= p < n) by {
                if 0 <= p < 64 * words@.len() {
                    let k = (p % 64) as u64;
                    if p / 64 < full {
                        bits::lemma_bit_ops(0, 0, p % 64);
                        bits::lemma_bit_zero(p % 64);
                        assert(words@[p / 64] == !0u64);
                    } else {
                        let m = ((1u64 << rem) - 1) as u64;
                        assert((m >> k & 1 == 1) == (k < rem)) by (bit_vector)
                            requires
                                k < 64,
                                rem < 64,
                                m == (1u64 << rem) - 1,
                        ;
                    }
                }
            }
        }
        Bitset::from_words(words)
    }

    /// Every bit moved up by `shift` positions.
    pub fn shl(&self, shift: usize) -> (b: Self)
        requires
            self.wf(),
            self.words().len() + shift / 64 + 1 <= usize::MAX,
        ensures
            b.wf(),
            shifted(*self, shift as int, b),
            shift == 0 ==> b.words() == self.words(),
    {
        if shift == 0 {
            return self.copy();
        }
        let s: &[u64] = self.words.as_slice();
        let len: usize = s.len();
        let word_shift: usize = shift / 64;
        let bit_shift: u64 = (shift % 64) as u64;
        let new_len: usize = len + word_shift + 1;
        let mut words: Vec<u64> = Vec::new();
        while words.len() < new_len
            invariant
                s@ == self.words(),
                len == s@.len(),
                word_shift == shift / 64,
                bit_shift == shift % 64,
                new_len == len + word_shift + 1,
                words@.len() <= new_len,
                forall|k: int|
                    0 <= k < words@.len() ==> #[trigger] words@[k] == shifted_word(
                        s@,
                        word_shift as int,
                        bit_shift,
                        k,
                    ),
            decreases new_len - words@.len(),
        {
            let k: usize = words.len();
            let low: u64 = if k >= word_shift && k - word_shift < len {
                s[k - word_shift] << bit_shift
            } else {
                0
            };
            let high: u64 = if bit_shift > 0 && k > word_shift && k - word_shift - 1 < len {
                s[k - word_shift - 1] >> (64 - bit_shift)
            } else {
                0
            };
            words.push(low | high);
        }
        proof {
            assert forall|p: int| #[trigger] bits::bit_at(words@, p) == (p >= shift && self.has(
                p - shift,
            )) by {
                if 0 <= p < 64 * new_len {
                    lemma_shifted(s@, word_shift as int, bit_shift, shift as int, p);
                } else if p >= 64 * new_len {
                    assert(p - shift >= 64 * len);
                }
            }
        }
        Bitset::from_words(words)
    }

    /// The set whose bits are those of the bytes, least significant first.
    pub fn from_le_bytes(bytes: &[u8]) -> (b: Self)
        ensures
            b.wf(),
            forall|p: int| #[trigger] b.has(p) == byte_bit(bytes@, p),
    {
        let n: usize = bytes.len();
        let mut words: Vec<u64> = Vec::new();
        let mut i: usize = 0;
        while i < n
            invariant
                n == bytes@.len(),
                i == 8 * words@.len() || (i == n && n <= 8 * words@.len() < n + 8),
                i <= n,
                forall|p: int|
                    0 <= p < 64 * words@.len() ==> #[trigger] bits::bit_at(words@, p) == byte_bit(
                        bytes@,
                        p,
                    ),
            decreases n - i,
        {
            let end: usize = if n - i < 8 {
                n
            } else {
                i + 8
            };
            let mut w: u64 = 0;
            let mut j: usize = i;
            proof {
                assert forall|q: int| 0 <= q < 64 implies #[trigger] bits::bit(w, q) == (8 * i + q < 8
                    * j && byte_bit(bytes@, 8 * i + q)) by {
                    bits::lemma_bit_zero(q);
                }
            }
            while j < end
                invariant
                    n == bytes@.len(),
                    i <= j <= end <= n,
                    end <= i + 8,
                    forall|q: int|
                        0 <= q < 64 ==> #[trigger] bits::bit(w, q) == (8 * i + q < 8 * j
                            && byte_bit(bytes@, 8 * i + q)),
                decreases end - j,
            {
                let s: u64 = 8 * ((j - i) as u64);
                let byte: u64 = bytes[j] as u64;
                proof {
                    assert forall|q: int| 0 <= q < 64 implies #[trigger] bits::bit(
                        w | (byte << s),
                        q,
                    ) == (8 * i + q < 8 * (j + 1) && byte_bit(bytes@, 8 * i + q)) by {
                        bits::lemma_bit_ops(w, byte << s, q);
                        bits::lemma_bit_shifts(byte, s, q);
                        assert(bits::bit(w, q) == (8 * i + q < 8 * j && byte_bit(
                            bytes@,
                            8 * i + q,
                        )));
                        if q >= s {
                            lemma_byte_bits(bytes@[j as int], q - s);
                            if q < s + 8 {
                                assert((8 * i + q) / 8 == j && (8 * i + q) % 8 == q - s);
                            }
                        }
                    }
                }
                w = w | (byte << s);
                j += 1;
            }
            let ghost was = words@;
            words.push(w);
            proof {
                assert forall|p: int| 0 <= p < 64 * words@.len() implies #[trigger] bits::bit_at(
                    words@,
                    p,
                ) == byte_bit(bytes@, p) by {
                    if p < 64 * was.len() {
                        assert(bits::bit_at(was, p) == byte_bit(bytes@, p));
                    } else {
                        let q = p - 64 * was.len();
                        assert(p / 64 == was.len() && p % 64 == q);
                        assert(bits::bit(w, q) == (8 * i + q < 8 * j && byte_bit(
                            bytes@,
                            8 * i + q,
                        )));
                    }
                }
            }
            i = end;
        }
        proof {
            assert forall|p: int| #[trigger] bits::bit_at(words@, p) == byte_bit(bytes@, p) by {}
        }
        Bitset::from_words(words)
    }

    /// The bytes of the set, least significant first, with no zero byte at the end.
    pub fn to_le_bytes(&self) -> (bytes: Vec<u8>)
        ensures
            forall|p: int| #[trigger] byte_bit(bytes@, p) == self.has(p),
            bytes@.len() > 0 ==> bytes@.last() != 0,
    {
        let s: &[u64] = self.words.as_slice();
        let mut bytes: Vec<u8> = Vec::new();
        let mut i: usize = 0;
        while i < s.len()
            invariant
                s@ == self.words(),
                i <= s@.len(),
                bytes@.len() == 8 * i,
                forall|p: int|
                    0 <= p < 64 * i ==> #[trigger] byte_bit(bytes@, p) == bits::bit_at(s@, p),
            decreases s@.len() - i,
        {
            let w: u64 = s[i];
            let mut k: u64 = 0;
            while k < 8
                invariant
                    s@ == self.words(),
                    i < s@.len(),
                    w == s@[i as int],
                    k <= 8,
                    bytes@.len() == 8 * i + k,
                    forall|p: int|
                        0 <= p < 64 * i + 8 * k ==> #[trigger] byte_bit(bytes@, p) == bits::bit_at(
                            s@,
                            p,
                        ),
                decreases 8 - k,
            {
                let sh: u64 = 8 * k;
                let ghost was = bytes@;
                let b: u64 = (w >> sh) & 0xff;
                proof {
                    assert(b <= 0xff) by (bit_vector)
                        requires
                            b == (w >> sh) & 0xff,
                    ;
                }
                bytes.push(b as u8);
                proof {
                    assert forall|p: int| 0 <= p < 64 * i + 8 * (k + 1) implies #[trigger] byte_bit(
                        bytes@,
                        p,
                    ) == bits::bit_at(s@, p) by {
                        if p < 64 * i + 8 * k {
                            assert(byte_bit(was, p) == bits::bit_at(s@, p));
                            assert(bytes@[p / 8] == was[p / 8]);
                        } else {
                            let q = p - 64 * i - 8 * k;
                            assert(p / 8 == 8 * i + k && p % 8 == q);
                            assert(p / 64 == i && p % 64 == 8 * k + q);
                            bits::lemma_bit_ops(w >> sh, 0xff, q);
                            bits::lemma_bit_shifts(w, sh, q);
                            lemma_low_byte(q);
                        }
                    }
                }
                k += 1;
            }
            i += 1;
        }
        proof {
            assert forall|p: int| #[trigger] byte_bit(bytes@, p) == bits::bit_at(s@, p) by {}
        }
        loop
            invariant
                s@ == self.words(),
                forall|p: int| #[trigger] byte_bit(bytes@, p) == bits::bit_at(s@, p),
            ensures
                forall|p: int| #[trigger] byte_bit(bytes@, p) == bits::bit_at(s@, p),
                bytes@.len() > 0 ==> bytes@.last() != 0,
            decreases bytes@.len(),
        {
            let n: usize = bytes.len();
            if n == 0 || bytes[n - 1] != 0 {
                break;
            }
            let ghost was = bytes@;
            let _top: Option<u8> = bytes.pop();
            proof {
                assert forall|p: int| #[trigger] byte_bit(bytes@, p) == bits::bit_at(s@, p) by {
                    assert(byte_bit(was, p) == bits::bit_at(s@, p));
                    if 0 <= p < 8 * was.len() {
                        if p / 8 == n - 1 {
                            bits::lemma_bit_zero(p % 8);
                        } else {
                            assert(bytes@[p / 8] == was[p / 8]);
                        }
                    }
                }
            }
        }
        bytes
    }

    /// How two sets compare as numbers.
    pub fn cmp(&self, other: &Self) -> (o: Ordering)
        ensures
            o == order_of(self.words(), other.words()),
    {
        let a: &[u64] = self.words.as_slice();
        let b: &[u64] = other.words.as_slice();
        let mut n: usize = if a.len() < b.len() {
            b.len()
        } else {
            a.len()
        };
        let ghost mut k: int = longest(a@, b@);
        while n > 0
            invariant
                a@ == self.words(),
                b@ == other.words(),
                k == n,
                order_of(a@, b@) == order_from(a@, b@, k),
            decreases n,
        {
            let x: u64 = self.word_at(n - 1);
            let y: u64 = other.word_at(n - 1);
            if x < y {
                return Ordering::Less;
            }
            if x > y {
                return Ordering::Greater;
            }
            n -= 1;
            proof {
                k = k - 1;
            }
        }
        Ordering::Equal
    }
}

/// How word sequences compare as numbers.
pub open spec fn order_of(a: Seq<u64>, b: Seq<u64>) -> Ordering {
    order_from(a, b, longest(a, b))
}

/// The greater of two lengths.
pub open spec fn longest(a: Seq<u64>, b: Seq<u64>) -> int {
    if a.len() < b.len() {
        b.len() as int
    } else {
        a.len() as int
    }
}

/// A byte has no bit past its eighth.
proof fn lemma_byte_bits(byte: u8, q: int)
    ensures
        bits::bit(byte as u64, q) ==> 0 <= q < 8,
{
    if 8 <= q < 64 {
        let k = q as u64;
        let x = byte as u64;
        assert(x >> k & 1 == 0) by (bit_vector)
            requires
                8 <= k < 64,
                x <= 0xff,
        ;
    }
}

/// The eight low bits of `0xff` are set.
proof fn lemma_low_byte(q: int)
    requires
        0 <= q < 8,
    ensures
        bits::bit(0xff, q),
{
    let k = q as u64;
    assert(0xffu64 >> k & 1 == 1) by (bit_vector)
        requires
            k < 8,
    ;
}

/// Word `k` of a run of words moved up.
spec fn shifted_word(s: Seq<u64>, word_shift: int, bit_shift: u64, k: int) -> u64 {
    let low = if 0 <= k - word_shift < s.len() {
        s[k - word_shift] << bit_shift
    } else {
        0
    };
    let high = if bit_shift > 0 && 0 <= k - word_shift - 1 < s.len() {
        s[k - word_shift - 1] >> ((64 - bit_shift) as u64)
    } else {
        0
    };
    low | high
}

/// Bit `p` of a run of words moved up is the bit `shift` below it.
proof fn lemma_shifted(s: Seq<u64>, word_shift: int, bit_shift: u64, shift: int, p: int)
    requires
        0 <= word_shift,
        bit_shift < 64,
        shift == 64 * word_shift + bit_shift,
        0 <= p,
    ensures
        bits::bit(shifted_word(s, word_shift, bit_shift, p / 64), p % 64) == (p >= shift
            && bits::bit_at(s, p - shift)),
{
    let k = p / 64;
    let q = p % 64;
    let a = k - word_shift;
    let low = if 0 <= a < s.len() {
        s[a] << bit_shift
    } else {
        0
    };
    let high = if bit_shift > 0 && 0 <= a - 1 < s.len() {
        s[a - 1] >> ((64 - bit_shift) as u64)
    } else {
        0
    };
    bits::lemma_bit_ops(low, high, q);
    bits::lemma_bit_zero(q);
    if 0 <= a < s.len() {
        bits::lemma_bit_shifts(s[a], bit_shift, q);
    }
    if bit_shift > 0 && 0 <= a - 1 < s.len() {
        bits::lemma_bit_shifts(s[a - 1], (64 - bit_shift) as u64, q);
    }
    let r = p - shift;
    if q >= bit_shift {
        assert(r == 64 * a + (q - bit_shift));
        if r >= 0 {
            assert(r / 64 == a && r % 64 == q - bit_shift);
        }
    } else {
        assert(r == 64 * (a - 1) + (q + 64 - bit_shift));
        if r >= 0 {
            assert(r / 64 == a - 1 && r % 64 == q + 64 - bit_shift);
        }
    }
}

impl PartialEq for Bitset {
    fn eq(&self, other: &Self) -> (r: bool) {
        let a: &[u64] = self.words.as_slice();
        let b: &[u64] = other.words.as_slice();
        if a.len() != b.len() {
            return false;
        }
        let mut i: usize = 0;
        while i < a.len()
            invariant
                a@ == self.words(),
                b@ == other.words(),
                a@.len() == b@.len(),
                i <= a@.len(),
                forall|k: int| 0 <= k < i ==> a@[k] == b@[k],
            decreases a@.len() - i,
        {
            if a[i] != b[i] {
                return false;
            }
            i += 1;
        }
        proof {
            assert(a@ =~= b@);
        }
        true
    }
}

impl vstd::std_specs::cmp::PartialEqSpecImpl for Bitset {
    open spec fn obeys_eq_spec() -> bool {
        true
    }

    open spec fn eq_spec(&self, other: &Self) -> bool {
        self.words() == other.words()
    }
}

impl Eq for Bitset {

}

impl PartialOrd for Bitset {
    fn partial_cmp(&self, other: &Self) -> (r: Option<Ordering>) {
        Some(self.cmp(other))
    }
}

impl vstd::std_specs::cmp::PartialOrdSpecImpl for Bitset {
    open spec fn obeys_partial_cmp_spec() -> bool {
        true
    }

    open spec fn partial_cmp_spec(&self, other: &Self) -> Option<Ordering> {
        Some(order_of(self.words(), other.words()))
    }
}

/// Bit `p` of a run of words is that of the word it falls in.
proof fn lemma_word_bit(a: Seq<u64>, p: int)
    requires
        0 <= p,
    ensures
        bits::bit_at(a, p) == bits::bit(word_of(a, p / 64), p % 64),
{
    bits::lemma_bit_zero(p % 64);
}

impl BitAnd for &Bitset {
    type Output = Bitset;

    fn bitand(self, rhs: &Bitset) -> (r: Bitset)
        ensures
            r.wf(),
            forall|p: int| #[trigger] r.has(p) == (self.has(p) && rhs.has(p)),
    {
        let a: &[u64] = self.words.as_slice();
        let b: &[u64] = rhs.words.as_slice();
        let len: usize = if a.len() < b.len() {
            a.len()
        } else {
            b.len()
        };
        let mut words: Vec<u64> = Vec::new();
        while words.len() < len
            invariant
                a@ == self.words(),
                b@ == rhs.words(),
                words@.len() <= len,
                forall|k: int|
                    0 <= k < words@.len() ==> #[trigger] words@[k] == word_of(a@, k) & word_of(
                        b@,
                        k,
                    ),
            decreases len - words@.len(),
        {
            let k: usize = words.len();
            words.push(self.word_at(k) & rhs.word_at(k));
        }
        proof {
            assert forall|p: int| #[trigger] bits::bit_at(words@, p) == (self.has(p) && rhs.has(
                p,
            )) by {
                if p >= 0 {
                    lemma_word_bit(a@, p);
                    lemma_word_bit(b@, p);
                    bits::lemma_bit_ops(word_of(a@, p / 64), word_of(b@, p / 64), p % 64);
                }
            }
        }
        Bitset::from_words(words)
    }
}

impl vstd::std_specs::ops::BitAndSpecImpl for &Bitset {
    open spec fn obeys_bitand_spec() -> bool {
        false
    }

    open spec fn bitand_req(self, rhs: &Bitset) -> bool {
        true
    }

    open spec fn bitand_spec(self, rhs: &Bitset) -> Bitset {
        *self
    }
}

impl BitXor for &Bitset {
    type Output = Bitset;

    fn bitxor(self, rhs: &Bitset) -> (r: Bitset)
        ensures
            r.wf(),
            forall|p: int| #[trigger] r.has(p) == (self.has(p) != rhs.has(p)),
    {
        let a: &[u64] = self.words.as_slice();
        let b: &[u64] = rhs.words.as_slice();
        let len: usize = if a.len() < b.len() {
            b.len()
        } else {
            a.len()
        };
        let mut words: Vec<u64> = Vec::new();
        while words.len() < len
            invariant
                a@ == self.words(),
                b@ == rhs.words(),
                words@.len() <= len,
                forall|k: int|
                    0 <= k < words@.len() ==> #[trigger] words@[k] == word_of(a@, k) ^ word_of(
                        b@,
                        k,
                    ),
            decreases len - words@.len(),
        {
            let k: usize = words.len();
            words.push(self.word_at(k) ^ rhs.word_at(k));
        }
        proof {
            assert forall|p: int| #[trigger] bits::bit_at(words@, p) == (self.has(p) != rhs.has(
                p,
            )) by {
                if p >= 0 {
                    lemma_word_bit(a@, p);
                    lemma_word_bit(b@, p);
                    bits::lemma_bit_ops(word_of(a@, p / 64), word_of(b@, p / 64), p % 64);
                }
            }
        }
        Bitset::from_words(words)
    }
}

impl vstd::std_specs::ops::BitXorSpecImpl for &Bitset {
    open spec fn obeys_bitxor_spec() -> bool {
        false
    }

    open spec fn bitxor_req(self, rhs: &Bitset) -> bool {
        true
    }

    open spec fn bitxor_spec(self, rhs: &Bitset) -> Bitset {
        *self
    }
}

impl BitOr for &Bitset {
    type Output = Bitset;

    fn bitor(self, rhs: &Bitset) -> (r: Bitset)
        ensures
            r.wf(),
            forall|p: int| #[trigger] r.has(p) == (self.has(p) || rhs.has(p)),
    {
        let a: &[u64] = self.words.as_slice();
        let b: &[u64] = rhs.words.as_slice();
        let len: usize = if a.len() < b.len() {
            b.len()
        } else {
            a.len()
        };
        let mut words: Vec<u64> = Vec::new();
        while words.len() < len
            invariant
                a@ == self.words(),
                b@ == rhs.words(),
                words@.len() <= len,
                forall|k: int|
                    0 <= k < words@.len() ==> #[trigger] words@[k] == word_of(a@, k) | word_of(
                        b@,
                        k,
                    ),
            decreases len - words@.len(),
        {
            let k: usize = words.len();
            words.push(self.word_at(k) | rhs.word_at(k));
        }
        proof {
            assert forall|p: int| #[trigger] bits::bit_at(words@, p) == (self.has(p) || rhs.has(
                p,
            )) by {
                if p >= 0 {
                    lemma_word_bit(a@, p);
                    lemma_word_bit(b@, p);
                    bits::lemma_bit_ops(word_of(a@, p / 64), word_of(b@, p / 64), p % 64);
                }
            }
        }
        Bitset::from_words(words)
    }
}

impl vstd::std_specs::ops::BitOrSpecImpl for &Bitset {
    open spec fn obeys_bitor_spec() -> bool {
        false
    }

    open spec fn bitor_req(self, rhs: &Bitset) -> bool {
        true
    }

    open spec fn bitor_spec(self, rhs: &Bitset) -> Bitset {
        *self
    }
}

/// `s` is `a` shifted up by `n` places.
pub open spec fn shifted(a: Bitset, n: int, s: Bitset) -> bool {
    forall|p: int| #[trigger] s.has(p) == (p >= n && a.has(p - n))
}

/// Shifting up twice is shifting up by the sum, shifting by nothing changes nothing, and no
/// shift loses a bit.
pub proof fn law_shift(a: Bitset, m: nat, n: nat, once: Bitset, twice: Bitset, at_once: Bitset)
    requires
        a.wf(),
        once.wf(),
        twice.wf(),
        at_once.wf(),
        shifted(a, m as int, once),
        shifted(once, n as int, twice),
        shifted(a, (m + n) as int, at_once),
    ensures
        twice.words() == at_once.words(),
        m == 0 ==> once.words() == a.words(),
        bits::ones(bits::bits_of(once.words())) == bits::ones(bits::bits_of(a.words())),
{
    assert forall|p: int| 0 <= p implies #[trigger] twice.has(p) == at_once.has(p) by {
        assert(twice.has(p) == (p >= n && once.has(p - n)));
        if p >= n {
            assert(once.has(p - n) == (p - n >= m && a.has(p - n - m)));
        }
        assert(at_once.has(p) == (p >= m + n && a.has(p - (m + n))));
    }
    law_bits_decide(twice, at_once);
    if m == 0 {
        assert forall|p: int| 0 <= p implies #[trigger] once.has(p) == a.has(p) by {
            assert(once.has(p) == (p >= 0 && a.has(p - 0)));
        }
        law_bits_decide(once, a);
    }
    assert forall|p: int| #[trigger]
        bits::bit_at(once.words(), p) == (p >= m && bits::bit_at(a.words(), p - m)) by {
        assert(once.has(p) == (p >= m && a.has(p - m)));
    }
    lemma_shift_keeps_count(a.words(), once.words(), m);
}

/// Shifting up keeps the number of set bits.
proof fn lemma_shift_keeps_count(x: Seq<u64>, y: Seq<u64>, m: nat)
    requires
        forall|p: int| #[trigger] bits::bit_at(y, p) == (p >= m && bits::bit_at(x, p - m)),
    ensures
        bits::ones(bits::bits_of(y)) == bits::ones(bits::bits_of(x)),
{
    let below = bits::none(m);
    let want = below + bits::bits_of(x);
    let got = bits::bits_of(y);
    bits::lemma_ones_none(below);
    bits::lemma_ones_add(below, bits::bits_of(x));
    assert forall|p: int| 0 <= p < want.len() implies want[p] == bits::bit_at(y, p) by {
        if p >= m {
            assert(want[p] == bits::bits_of(x)[p - m]);
        }
    }
    assert forall|p: int| want.len() <= p implies !bits::bit_at(y, p) by {
        assert(!bits::bit_at(x, p - m));
    }
    if want.len() <= got.len() {
        bits::lemma_ones_padded(want, got);
    } else {
        assert forall|p: int| got.len() <= p < want.len() implies !want[p] by {
            assert(!bits::bit_at(y, p));
        }
        bits::lemma_ones_padded(got, want);
    }
}

/// Sets with the same bits are equal.
pub proof fn law_bits_decide(a: Bitset, b: Bitset)
    requires
        a.wf(),
        b.wf(),
        forall|p: int| a.has(p) == b.has(p),
    ensures
        a.words() == b.words(),
{
    let x = a.words();
    let y = b.words();
    assert forall|p: int| bits::bit_at(x, p) == bits::bit_at(y, p) by {
        assert(a.has(p) == b.has(p));
    }
    lemma_no_longer(x, y);
    lemma_no_longer(y, x);
    assert forall|k: int| 0 <= k < x.len() implies x[k] == y[k] by {
        assert forall|i: int| 0 <= i < 64 implies bits::bit(x[k], i) == bits::bit(y[k], i) by {
            let p = 64 * k + i;
            assert(p / 64 == k && p % 64 == i);
            assert(a.has(p) == b.has(p));
        }
        bits::lemma_word_ext(x[k], y[k]);
    }
    assert(x =~= y);
}

/// A run of words with no zero at the top is no longer than one with the same bits.
proof fn lemma_no_longer(x: Seq<u64>, y: Seq<u64>)
    requires
        x.len() > 0 ==> x.last() != 0,
        forall|p: int| bits::bit_at(x, p) == bits::bit_at(y, p),
    ensures
        x.len() <= y.len(),
{
    if x.len() > y.len() {
        let top = x.last();
        assert forall|i: int| 0 <= i < 64 implies bits::bit(top, i) == bits::bit(0, i) by {
            let p = 64 * (x.len() - 1) + i;
            assert(p / 64 == x.len() - 1 && p % 64 == i);
            assert(bits::bit_at(x, p) == bits::bit_at(y, p));
            bits::lemma_bit_zero(i);
        }
        bits::lemma_word_ext(top, 0);
    }
}

/// Reading back the bytes written for a set gives the set.
pub proof fn law_bytes_round_trip(a: Bitset, bytes: Seq<u8>, b: Bitset)
    requires
        a.wf(),
        b.wf(),
        forall|p: int| #[trigger] byte_bit(bytes, p) == a.has(p),
        forall|p: int| #[trigger] b.has(p) == byte_bit(bytes, p),
    ensures
        b.words() == a.words(),
{
    assert forall|p: int| a.has(p) == b.has(p) by {
        assert(byte_bit(bytes, p) == a.has(p));
        assert(b.has(p) == byte_bit(bytes, p));
    }
    law_bits_decide(a, b);
}

/// Bytes come least significant first, and so do the bits of each: bit `b` of byte `i` stands
/// for position `8 * i + b`, and past the last byte there is nothing.
pub proof fn law_bytes_are_little_endian(bytes: Seq<u8>, i: int, b: int)
    requires
        0 <= b < 8,
        0 <= i,
    ensures
        byte_bit(bytes, 8 * i + b) <==> i < bytes.len() && bits::bit(bytes[i] as u64, b),
{
    assert((8 * i + b) / 8 == i && (8 * i + b) % 8 == b);
}

/// Two to the sixty-fourth, to the power `n`.
pub open spec fn place_value(n: int) -> int
    decreases n,
{
    if n <= 0 {
        1
    } else {
        0x1_0000_0000_0000_0000 * place_value(n - 1)
    }
}

/// The number that the first `n` words spell, least significant first.
pub open spec fn number(a: Seq<u64>, n: int) -> int
    decreases n,
{
    if n <= 0 {
        0
    } else {
        number(a, n - 1) + word_of(a, n - 1) * place_value(n - 1)
    }
}

/// The number that `n` words spell is below the value of the next place.
proof fn lemma_number_bound(a: Seq<u64>, n: int)
    requires
        0 <= n,
    ensures
        0 <= number(a, n) < place_value(n),
    decreases n,
{
    if n > 0 {
        lemma_number_bound(a, n - 1);
        let (low, w, v) = (number(a, n - 1), word_of(a, n - 1), place_value(n - 1));
        assert(0 <= low + w * v < 0x1_0000_0000_0000_0000 * v) by (nonlinear_arith)
            requires
                0 <= low < v,
                0 <= w <= 0xffff_ffff_ffff_ffff,
        ;
    }
}

/// Word sequences compare as the numbers they spell do, from word `n` down.
proof fn lemma_order_from(a: Seq<u64>, b: Seq<u64>, n: int)
    requires
        0 <= n,
    ensures
        order_from(a, b, n) is Less <==> number(a, n) < number(b, n),
        order_from(a, b, n) is Equal <==> number(a, n) == number(b, n),
    decreases n,
{
    if n > 0 {
        lemma_order_from(a, b, n - 1);
        lemma_number_bound(a, n - 1);
        lemma_number_bound(b, n - 1);
        let (p, x) = (number(a, n - 1), word_of(a, n - 1));
        let (q, y) = (number(b, n - 1), word_of(b, n - 1));
        let v = place_value(n - 1);
        assert(x < y ==> p + x * v < q + y * v) by (nonlinear_arith)
            requires
                0 <= p < v,
                0 <= q,
        ;
        assert(y < x ==> q + y * v < p + x * v) by (nonlinear_arith)
            requires
                0 <= q < v,
                0 <= p,
        ;
    }
}

/// Bitsets compare as the numbers their words spell.
pub proof fn law_order_is_numeric(a: Seq<u64>, b: Seq<u64>, n: int)
    requires
        n == longest(a, b),
    ensures
        order_of(a, b) is Less <==> number(a, n) < number(b, n),
        order_of(a, b) is Equal <==> number(a, n) == number(b, n),
        order_of(a, b) is Greater <==> number(a, n) > number(b, n),
{
    lemma_order_from(a, b, n);
}

} // verus!
