//! Bits of 64-bit words: the vocabulary every packed structure of the crate is specified in.

use vstd::prelude::*;

verus! {

/// A key: one bit for each position.
pub type Key = Seq<bool>;

/// A whole number of bits or words.
pub type Whole = int;

/// Bit `i` of `w`, counted from the least significant one.
pub open spec fn bit(w: u64, i: int) -> bool {
    0 <= i < 64 && (w >> (i as u64)) & 1 == 1
}

/// Bit `p` of a run of words, 64 bits to a word, least significant first.
pub open spec fn bit_at(words: Seq<u64>, p: int) -> bool {
    0 <= p < 64 * words.len() && bit(words[p / 64], p % 64)
}

/// How many entries of `s` are true.
pub open spec fn ones(s: Seq<bool>) -> nat
    decreases s.len(),
{
    if s.len() == 0 {
        0
    } else {
        ones(s.drop_last()) + (if s.last() { 1nat } else { 0nat })
    }
}

/// The bits of `w`, least significant first.
pub open spec fn word_bits(w: u64) -> Seq<bool> {
    Seq::new(64, |i: int| bit(w, i))
}

/// The bits of `words`, least significant first.
pub open spec fn bits_of(words: Seq<u64>) -> Seq<bool> {
    Seq::new(64 * words.len(), |p: int| bit_at(words, p))
}

/// The indices of the true entries of `s`, ascending.
pub open spec fn set_positions(s: Seq<bool>) -> Seq<int>
    decreases s.len(),
{
    if s.len() == 0 {
        Seq::empty()
    } else if s.last() {
        set_positions(s.drop_last()).push(s.len() - 1)
    } else {
        set_positions(s.drop_last())
    }
}

/// Whether an odd number of entries of `s` is true.
pub open spec fn odd(s: Seq<bool>) -> bool {
    ones(s) % 2 == 1
}

/// Entrywise exclusive or.
pub open spec fn xor(a: Seq<bool>, b: Seq<bool>) -> Seq<bool> {
    Seq::new(a.len(), |i: int| a[i] != b[i])
}

/// Entrywise conjunction.
pub open spec fn both(a: Seq<bool>, b: Seq<bool>) -> Seq<bool> {
    Seq::new(a.len(), |i: int| a[i] && b[i])
}

/// Entrywise disjunction.
pub open spec fn either(a: Seq<bool>, b: Seq<bool>) -> Seq<bool> {
    Seq::new(a.len(), |i: int| a[i] || b[i])
}

/// `n` entries, none of them true.
pub open spec fn none(n: nat) -> Seq<bool> {
    Seq::new(n, |i: int| false)
}

/// `n` entries, of which only entry `p` is true.
pub open spec fn single(n: nat, p: int) -> Seq<bool> {
    Seq::new(n, |i: int| i == p)
}

/// For each consecutive pair of entries, whether either is true.
pub open spec fn pair_any(s: Seq<bool>) -> Seq<bool> {
    Seq::new(s.len() / 2, |k: int| s[2 * k] || s[2 * k + 1])
}

/// The entries with the two members of every consecutive pair exchanged.
pub open spec fn pair_exchange(s: Seq<bool>) -> Seq<bool> {
    Seq::new(
        s.len(),
        |p: int|
            if p % 2 == 0 {
                s[p + 1]
            } else {
                s[p - 1]
            },
    )
}

/// Exclusive or and conjunction split the two counts between them.
pub proof fn lemma_ones_xor(a: Seq<bool>, b: Seq<bool>)
    requires
        a.len() == b.len(),
    ensures
        ones(xor(a, b)) + 2 * ones(both(a, b)) == ones(a) + ones(b),
        odd(xor(a, b)) == (odd(a) != odd(b)),
    decreases a.len(),
{
    if a.len() > 0 {
        assert(xor(a, b).drop_last() =~= xor(a.drop_last(), b.drop_last()));
        assert(both(a, b).drop_last() =~= both(a.drop_last(), b.drop_last()));
        lemma_ones_xor(a.drop_last(), b.drop_last());
    }
}

/// Overlap parity is additive in either argument.
pub proof fn lemma_overlap_xor(a: Seq<bool>, b: Seq<bool>, c: Seq<bool>)
    requires
        a.len() == b.len(),
        b.len() == c.len(),
    ensures
        odd(both(xor(a, b), c)) == (odd(both(a, c)) != odd(both(b, c))),
        odd(both(c, xor(a, b))) == (odd(both(c, a)) != odd(both(c, b))),
{
    assert(both(xor(a, b), c) =~= xor(both(a, c), both(b, c)));
    assert(both(c, xor(a, b)) =~= xor(both(c, a), both(c, b)));
    lemma_ones_xor(both(a, c), both(b, c));
    lemma_ones_xor(both(c, a), both(c, b));
}

/// A list whose odd entries are all false counts as its even entries do.
pub proof fn lemma_ones_even_only(t: Seq<bool>)
    requires
        t.len() % 2 == 0,
        forall|k: int| 0 <= k < t.len() / 2 ==> !#[trigger] t[2 * k + 1],
    ensures
        ones(t) == ones(Seq::new(t.len() / 2, |k: int| t[2 * k])),
    decreases t.len(),
{
    let e = Seq::new(t.len() / 2, |k: int| t[2 * k]);
    if t.len() > 0 {
        let u = t.drop_last().drop_last();
        assert(t.last() == t[2 * (t.len() / 2 - 1) + 1]);
        assert(t.drop_last().last() == t[2 * (t.len() / 2 - 1)]);
        assert forall|k: int| 0 <= k < u.len() / 2 implies !#[trigger] u[2 * k + 1] by {
            assert(!t[2 * k + 1]);
        }
        lemma_ones_even_only(u);
        assert(e.drop_last() =~= Seq::new(u.len() / 2, |k: int| u[2 * k]));
        reveal_with_fuel(ones, 3);
    }
}

/// The count with the last two entries split off.
pub proof fn lemma_ones_last_pair(s: Seq<bool>)
    requires
        s.len() >= 2,
    ensures
        ones(s) == ones(s.take(s.len() - 2)) + (if s[s.len() - 2] {
            1nat
        } else {
            0nat
        }) + (if s[s.len() - 1] {
            1nat
        } else {
            0nat
        }),
{
    assert(s.drop_last().drop_last() =~= s.take(s.len() - 2));
    assert(ones(s) == ones(s.drop_last()) + (if s.last() { 1nat } else { 0nat }));
    assert(ones(s.drop_last()) == ones(s.drop_last().drop_last()) + (if s.drop_last().last() {
        1nat
    } else {
        0nat
    }));
}

/// Of the entries taken in pairs, at least as many are true as there are pairs with a true
/// one, and at most twice as many.
pub proof fn lemma_pairs_bound_ones(s: Seq<bool>)
    requires
        s.len() % 2 == 0,
    ensures
        ones(pair_any(s)) <= ones(s) <= 2 * ones(pair_any(s)),
    decreases s.len(),
{
    if s.len() > 0 {
        let rest = s.take(s.len() - 2);
        lemma_pairs_bound_ones(rest);
        lemma_ones_last_pair(s);
        assert(pair_any(s).drop_last() =~= pair_any(rest));
        assert(pair_any(s).last() == (s[s.len() - 2] || s[s.len() - 1]));
    }
}

/// Exchanging the members of each pair keeps the count.
pub proof fn lemma_pair_exchange_ones(s: Seq<bool>)
    requires
        s.len() % 2 == 0,
    ensures
        ones(pair_exchange(s)) == ones(s),
    decreases s.len(),
{
    if s.len() > 0 {
        let n = s.len();
        let e = pair_exchange(s);
        lemma_pair_exchange_ones(s.take(n - 2));
        assert(e.take(n - 2) =~= pair_exchange(s.take(n - 2)));
        lemma_ones_last_pair(s);
        lemma_ones_last_pair(e);
        assert((n - 1) % 2 == 1 && (n - 2) % 2 == 0);
    } else {
        assert(pair_exchange(s) =~= s);
    }
}

/// Exchanging the members of each pair twice changes nothing, and keeps the pairs touched.
pub proof fn lemma_pair_exchange_twice(s: Seq<bool>)
    requires
        s.len() % 2 == 0,
    ensures
        pair_exchange(pair_exchange(s)) == s,
        pair_any(pair_exchange(s)) == pair_any(s),
{
    assert forall|k: int| 0 <= k < s.len() / 2 implies #[trigger] pair_any(pair_exchange(s))[k]
        == pair_any(s)[k] by {
        assert((2 * k) % 2 == 0 && (2 * k + 1) % 2 == 1);
    }
    assert(pair_any(pair_exchange(s)) =~= pair_any(s));
    assert(pair_exchange(pair_exchange(s)) =~= s);
}

/// Taking the first true entry off the position list.
pub proof fn lemma_first_position(s: Seq<bool>, p: int)
    requires
        0 <= p < s.len(),
        s[p],
        forall|i: int| 0 <= i < p ==> !#[trigger] s[i],
    ensures
        set_positions(s) == seq![p] + set_positions(s.update(p, false)),
    decreases s.len(),
{
    let u = s.update(p, false);
    if p == s.len() - 1 {
        assert(u.drop_last() =~= s.drop_last());
        lemma_ones_none(s.drop_last());
        lemma_set_positions(s.drop_last());
        assert(forall|i: int| 0 <= i < s.len() - 1 ==> s.drop_last()[i] == s[i]);
        assert(set_positions(s.drop_last()) =~= Seq::<int>::empty());
        assert(set_positions(s) =~= seq![p]);
        assert(seq![p] + set_positions(u) =~= seq![p]);
    } else {
        assert(u.drop_last() =~= s.drop_last().update(p, false));
        lemma_first_position(s.drop_last(), p);
        assert(set_positions(s) =~= seq![p] + set_positions(u));
    }
}

pub proof fn lemma_bit_zero(i: int)
    ensures
        !bit(0, i),
{
    if 0 <= i < 64 {
        let k = i as u64;
        assert(0u64 >> k & 1 == 0) by (bit_vector)
            requires
                k < 64,
        ;
    }
}

/// The words formed by the bitwise operations, bit by bit.
pub proof fn lemma_bit_ops(a: u64, b: u64, i: int)
    ensures
        bit(a ^ b, i) == (bit(a, i) != bit(b, i)),
        bit(a & b, i) == (bit(a, i) && bit(b, i)),
        bit(a | b, i) == (bit(a, i) || bit(b, i)),
        0 <= i < 64 ==> bit(!a, i) == !bit(a, i),
{
    if 0 <= i < 64 {
        let k = i as u64;
        assert(((a ^ b) >> k & 1 == 1) == ((a >> k & 1 == 1) != (b >> k & 1 == 1))
            && ((a & b) >> k & 1 == 1) == ((a >> k & 1 == 1) && (b >> k & 1 == 1))
            && ((a | b) >> k & 1 == 1) == ((a >> k & 1 == 1) || (b >> k & 1 == 1))
            && ((!a) >> k & 1 == 1) == !(a >> k & 1 == 1)) by (bit_vector)
            requires
                k < 64,
        ;
    }
}

/// A single shifted one is set at the shift and nowhere else.
pub proof fn lemma_bit_one_hot(s: u64, i: int)
    requires
        s < 64,
    ensures
        bit(1u64 << s, i) == (i == s),
{
    if 0 <= i < 64 {
        let k = i as u64;
        assert(((1u64 << s) >> k & 1 == 1) == (k == s)) by (bit_vector)
            requires
                k < 64,
                s < 64,
        ;
    }
}

/// Shifts move bits, dropping those that leave the word.
pub proof fn lemma_bit_shifts(a: u64, s: u64, i: int)
    requires
        s < 64,
    ensures
        bit(a >> s, i) == (0 <= i && bit(a, i + s)),
        bit(a << s, i) == (i < 64 && bit(a, i - s)),
{
    if 0 <= i < 64 {
        let k = i as u64;
        let up = (k + s) as u64;
        let down = (k - s) as u64;
        assert(((a >> s) >> k & 1 == 1) == (up < 64 && (a >> up & 1 == 1))) by (bit_vector)
            requires
                k < 64,
                s < 64,
                up == k + s,
        ;
        if k >= s {
            assert(((a << s) >> k & 1 == 1) == (a >> down & 1 == 1)) by (bit_vector)
                requires
                    k < 64,
                    s <= k,
                    down == k - s,
            ;
        } else {
            assert(!((a << s) >> k & 1 == 1)) by (bit_vector)
                requires
                    k < s,
                    s < 64,
            ;
        }
    }
}

/// A word is determined by its bits.
pub proof fn lemma_word_ext(a: u64, b: u64)
    requires
        forall|i: int| 0 <= i < 64 ==> bit(a, i) == bit(b, i),
    ensures
        a == b,
{
    let x = a ^ b;
    if x != 0 {
        vstd::std_specs::bits::axiom_u64_trailing_zeros(x);
        let t = vstd::std_specs::bits::u64_trailing_zeros(x) as int;
        assert(bit(x, t));
        lemma_bit_ops(a, b, t);
        assert(bit(a, t) == bit(b, t));
        assert(false);
    }
    assert(a == b) by (bit_vector)
        requires
            a ^ b == 0,
    ;
}

/// Dropping the lowest set bit, as `w & (w - 1)` does.
pub proof fn lemma_drop_lowest(w: u64)
    requires
        w != 0,
    ensures
        0 <= vstd::std_specs::bits::u64_trailing_zeros(w) < 64,
        bit(w, vstd::std_specs::bits::u64_trailing_zeros(w) as int),
        forall|i: int|
            0 <= i < vstd::std_specs::bits::u64_trailing_zeros(w) ==> !#[trigger] bit(w, i),
        forall|i: int| #[trigger]
            bit(w & ((w - 1) as u64), i) == (bit(w, i) && i
                != vstd::std_specs::bits::u64_trailing_zeros(w)),
        (w & (w - 1) as u64) < w,
{
    vstd::std_specs::bits::axiom_u64_trailing_zeros(w);
    let t = vstd::std_specs::bits::u64_trailing_zeros(w) as u64;
    let d = (w - 1) as u64;
    assert forall|i: int| 0 <= i < t implies !#[trigger] bit(w, i) by {
        let k = i as u64;
        assert((w >> k) & 1u64 == 0u64);
    }
    assert(w & d < w) by (bit_vector)
        requires
            w != 0,
            d == w - 1,
    ;
    assert forall|i: int| #[trigger] bit(w & d, i) == (bit(w, i) && i != t) by {
        if 0 <= i < 64 {
            let k = i as u64;
            assert(((w & d) >> k & 1 == 1) == ((w >> k & 1 == 1) && k != t)) by (bit_vector)
                requires
                    k < 64,
                    t < 64,
                    d == w - 1,
                    w >> t & 1 == 1,
                    w << ((64 - t) as u64) == 0,
            ;
        }
    }
}

/// Counting over a concatenation.
pub proof fn lemma_ones_add(a: Seq<bool>, b: Seq<bool>)
    ensures
        ones(a + b) == ones(a) + ones(b),
    decreases b.len(),
{
    if b.len() == 0 {
        assert(a + b =~= a);
    } else {
        assert((a + b).drop_last() =~= a + b.drop_last());
        lemma_ones_add(a, b.drop_last());
    }
}

pub proof fn lemma_ones_bound(s: Seq<bool>)
    ensures
        ones(s) <= s.len(),
    decreases s.len(),
{
    if s.len() > 0 {
        lemma_ones_bound(s.drop_last());
    }
}

/// Nothing set counts to zero.
pub proof fn lemma_ones_none(s: Seq<bool>)
    ensures
        ones(s) == 0 <==> forall|i: int| 0 <= i < s.len() ==> !#[trigger] s[i],
    decreases s.len(),
{
    if s.len() > 0 {
        lemma_ones_none(s.drop_last());
        assert(forall|i: int| 0 <= i < s.len() - 1 ==> s.drop_last()[i] == s[i]);
        if forall|i: int| 0 <= i < s.drop_last().len() ==> !#[trigger] s.drop_last()[i] {
            assert forall|i: int| 0 <= i < s.len() && !s.last() implies !#[trigger] s[i] by {
                if i < s.len() - 1 {
                    assert(!s.drop_last()[i]);
                }
            }
        }
    }
}

/// Entries that are not true may be appended without changing the count or the positions.
pub proof fn lemma_ones_padded(a: Seq<bool>, b: Seq<bool>)
    requires
        a.len() <= b.len(),
        forall|i: int| 0 <= i < a.len() ==> #[trigger] a[i] == b[i],
        forall|i: int| a.len() <= i < b.len() ==> !#[trigger] b[i],
    ensures
        ones(a) == ones(b),
        set_positions(a) == set_positions(b),
    decreases b.len() - a.len(),
{
    if a.len() == b.len() {
        assert(a =~= b);
    } else {
        let d = b.drop_last();
        assert forall|i: int| a.len() <= i < d.len() implies !#[trigger] d[i] by {
            assert(!b[i]);
        }
        lemma_ones_padded(a, d);
        assert(!b[b.len() - 1]);
    }
}

/// A list counts as its head does if nothing after the head is true.
pub proof fn lemma_ones_padded_all(head: Seq<bool>, s: Seq<bool>)
    requires
        head.len() <= s.len(),
        head == s.take(head.len() as int),
        forall|i: int| head.len() <= i < s.len() ==> !#[trigger] s[i],
    ensures
        ones(head) == ones(s),
{
    assert forall|i: int| 0 <= i < head.len() implies #[trigger] head[i] == s[i] by {
        assert(s.take(head.len() as int)[i] == s[i]);
    }
    lemma_ones_padded(head, s);
}

/// Everything set counts to the length.
pub proof fn lemma_ones_all(s: Seq<bool>)
    requires
        forall|i: int| 0 <= i < s.len() ==> #[trigger] s[i],
    ensures
        ones(s) == s.len(),
    decreases s.len(),
{
    if s.len() > 0 {
        assert forall|i: int| 0 <= i < s.drop_last().len() implies #[trigger] s.drop_last()[i] by {
            assert(s[i]);
        }
        lemma_ones_all(s.drop_last());
    }
}

/// A list contained in another of the same count is that list.
pub proof fn lemma_subset_same_count(a: Seq<bool>, b: Seq<bool>)
    requires
        a.len() == b.len(),
        ones(a) == ones(b),
        forall|p: int| 0 <= p < a.len() && #[trigger] a[p] ==> b[p],
    ensures
        a == b,
{
    assert(both(a, b) =~= a);
    lemma_ones_xor(a, b);
    lemma_ones_none(xor(a, b));
    assert forall|p: int| 0 <= p < a.len() implies a[p] == b[p] by {
        assert(!xor(a, b)[p]);
    }
    assert(a =~= b);
}

/// A prefix counts no more than the whole.
pub proof fn lemma_ones_take(s: Seq<bool>, k: int)
    requires
        0 <= k <= s.len(),
    ensures
        ones(s.take(k)) <= ones(s),
{
    assert(s =~= s.take(k) + s.skip(k));
    lemma_ones_add(s.take(k), s.skip(k));
}

/// Clearing one true entry lowers the count by one.
pub proof fn lemma_ones_update(s: Seq<bool>, i: int, v: bool)
    requires
        0 <= i < s.len(),
    ensures
        ones(s.update(i, v)) + (if s[i] { 1int } else { 0int }) == ones(s) + (if v {
            1int
        } else {
            0int
        }),
    decreases s.len(),
{
    if i == s.len() - 1 {
        assert(s.update(i, v).drop_last() =~= s.drop_last());
    } else {
        assert(s.update(i, v).drop_last() =~= s.drop_last().update(i, v));
        lemma_ones_update(s.drop_last(), i, v);
    }
}

/// The position list holds exactly the true indices, in ascending order.
pub proof fn lemma_set_positions(s: Seq<bool>)
    ensures
        set_positions(s).len() == ones(s),
        forall|k: int|
            0 <= k < set_positions(s).len() ==> 0 <= #[trigger] set_positions(s)[k] < s.len()
                && s[set_positions(s)[k]],
        forall|j: int, k: int|
            0 <= j < k < set_positions(s).len() ==> #[trigger] set_positions(s)[j]
                < #[trigger] set_positions(s)[k],
        forall|i: int| 0 <= i < s.len() && #[trigger] s[i] ==> set_positions(s).contains(i),
    decreases s.len(),
{
    if s.len() > 0 {
        let d = s.drop_last();
        lemma_set_positions(d);
        assert forall|i: int| 0 <= i < s.len() && #[trigger] s[i] implies set_positions(
            s,
        ).contains(i) by {
            if i < s.len() - 1 {
                assert(d[i]);
                let k = choose|k: int| 0 <= k < set_positions(d).len() && set_positions(d)[k] == i;
                assert(set_positions(s)[k] == i);
            } else {
                assert(set_positions(s)[set_positions(s).len() - 1] == i);
            }
        }
    }
}

/// Two ascending lists of the same indices are one list.
pub proof fn lemma_ascending_unique(a: Seq<int>, b: Seq<int>)
    requires
        forall|j: int, k: int| 0 <= j < k < a.len() ==> #[trigger] a[j] < #[trigger] a[k],
        forall|j: int, k: int| 0 <= j < k < b.len() ==> #[trigger] b[j] < #[trigger] b[k],
        forall|x: int| a.contains(x) <==> b.contains(x),
    ensures
        a == b,
    decreases a.len() + b.len(),
{
    if a.len() == 0 {
        if b.len() > 0 {
            assert(b.contains(b[0]));
            assert(a.contains(b[0]));
        }
        assert(a =~= b);
    } else if b.len() == 0 {
        assert(a.contains(a[0]));
        assert(b.contains(a[0]));
    } else {
        let la = a.last();
        let lb = b.last();
        assert(a.contains(la) && b.contains(lb));
        assert(b.contains(la) && a.contains(lb));
        let i = choose|i: int| 0 <= i < b.len() && b[i] == la;
        let j = choose|j: int| 0 <= j < a.len() && a[j] == lb;
        assert(la <= lb) by {
            if i < b.len() - 1 {
                assert(b[i] < b[b.len() - 1]);
            }
        }
        assert(lb <= la) by {
            if j < a.len() - 1 {
                assert(a[j] < a[a.len() - 1]);
            }
        }
        let da = a.drop_last();
        let db = b.drop_last();
        assert forall|x: int| da.contains(x) <==> db.contains(x) by {
            if da.contains(x) {
                let k = choose|k: int| 0 <= k < da.len() && da[k] == x;
                assert(a[k] == x && a[k] < a[a.len() - 1]);
                assert(a.contains(x));
                assert(b.contains(x));
                let m = choose|m: int| 0 <= m < b.len() && b[m] == x;
                assert(m != b.len() - 1);
                assert(db[m] == x);
            }
            if db.contains(x) {
                let k = choose|k: int| 0 <= k < db.len() && db[k] == x;
                assert(b[k] == x && b[k] < b[b.len() - 1]);
                assert(b.contains(x));
                assert(a.contains(x));
                let m = choose|m: int| 0 <= m < a.len() && a[m] == x;
                assert(m != a.len() - 1);
                assert(da[m] == x);
            }
        }
        lemma_ascending_unique(da, db);
        assert(a =~= da.push(la));
        assert(b =~= db.push(lb));
    }
}

/// Reading one list at another's true positions counts their overlap.
pub proof fn lemma_ones_at_positions(s: Seq<bool>, t: Seq<bool>)
    requires
        s.len() <= t.len(),
    ensures
        ones(Seq::new(set_positions(s).len(), |k: int| t[set_positions(s)[k]])) == ones(
            both(s, t),
        ),
    decreases s.len(),
{
    let at = Seq::new(set_positions(s).len(), |k: int| t[set_positions(s)[k]]);
    if s.len() > 0 {
        let d = s.drop_last();
        lemma_ones_at_positions(d, t);
        let at_d = Seq::new(set_positions(d).len(), |k: int| t[set_positions(d)[k]]);
        assert(both(s, t).drop_last() =~= both(d, t));
        if s.last() {
            assert(at.drop_last() =~= at_d);
        } else {
            assert(at =~= at_d);
        }
    } else {
        assert(at =~= Seq::<bool>::empty());
        assert(both(s, t) =~= Seq::<bool>::empty());
    }
}

/// Positions over a concatenation.
pub proof fn lemma_positions_add(a: Seq<bool>, b: Seq<bool>)
    ensures
        set_positions(a + b) == set_positions(a) + Seq::new(
            set_positions(b).len(),
            |k: int| set_positions(b)[k] + a.len(),
        ),
    decreases b.len(),
{
    let shifted = Seq::new(set_positions(b).len(), |k: int| set_positions(b)[k] + a.len());
    if b.len() == 0 {
        assert(a + b =~= a);
        assert(set_positions(a) + shifted =~= set_positions(a));
    } else {
        let d = b.drop_last();
        assert((a + b).drop_last() =~= a + d);
        lemma_positions_add(a, d);
        assert(set_positions(a + b) =~= set_positions(a) + shifted);
    }
}

/// Setting one more bit of a run of words.
pub proof fn lemma_set_bit_at(words: Seq<u64>, r: int, p: int)
    requires
        0 <= r < 64 * words.len(),
        0 <= p < 64 * words.len(),
    ensures
        bit_at(words.update(r / 64, words[r / 64] | (1u64 << ((r % 64) as u64))), p) == (p == r
            || bit_at(words, p)),
        bit_at(words.update(r / 64, words[r / 64] ^ (1u64 << ((r % 64) as u64))), p) == (bit_at(
            words,
            p,
        ) != (p == r)),
{
    let s = (r % 64) as u64;
    lemma_bit_ops(words[r / 64], 1u64 << s, p % 64);
    lemma_bit_one_hot(s, p % 64);
}

/// The bits of a run of words are the bits of its first words followed by those of its last.
pub proof fn lemma_bits_of_push(words: Seq<u64>)
    requires
        words.len() > 0,
    ensures
        bits_of(words) == bits_of(words.drop_last()) + word_bits(words.last()),
{
    assert forall|p: int| 0 <= p < 64 * words.len() implies bits_of(words)[p] == (bits_of(
        words.drop_last(),
    ) + word_bits(words.last()))[p] by {
        if p < 64 * (words.len() - 1) {
            assert(p / 64 < words.len() - 1);
            assert(words.drop_last()[p / 64] == words[p / 64]);
        } else {
            assert(p / 64 == words.len() - 1);
            assert(p % 64 == p - 64 * (words.len() - 1));
        }
    }
    assert(bits_of(words) =~= bits_of(words.drop_last()) + word_bits(words.last()));
}

/// A run of words is determined by its bits.
pub proof fn lemma_words_ext(a: Seq<u64>, b: Seq<u64>)
    requires
        a.len() == b.len(),
        forall|p: int| 0 <= p < 64 * a.len() ==> bit_at(a, p) == bit_at(b, p),
    ensures
        a == b,
{
    assert forall|k: int| 0 <= k < a.len() implies a[k] == b[k] by {
        assert forall|i: int| 0 <= i < 64 implies bit(a[k], i) == bit(b[k], i) by {
            let p = 64 * k + i;
            assert(p / 64 == k && p % 64 == i);
            assert(bit_at(a, p) == bit_at(b, p));
        }
        lemma_word_ext(a[k], b[k]);
    }
    assert(a =~= b);
}

/// How many bits of `w` are set, as the population-count instruction reports it.
///
/// Trusts `u64::count_ones`: the number of ones in the binary representation.
#[verifier::external_body]
pub(crate) fn count_ones(w: u64) -> (n: u32)
    ensures
        n == ones(word_bits(w)),
        n <= 64,
{
    w.count_ones()
}

/// The bits of a word are its binary digits, least significant first: bit zero says whether it
/// is odd, and each further bit is the one before it of half the word.
pub proof fn law_bits_are_binary_digits(w: u64, i: int)
    requires
        0 <= i < 63,
    ensures
        bit(w, 0) <==> w % 2 == 1,
        bit(w, i + 1) <==> bit(w / 2, i),
{
    let j = i as u64;
    let k = (i + 1) as u64;
    assert((w >> 0u64) & 1 == 1 <==> w % 2 == 1) by (bit_vector);
    assert((w >> k) & 1 == ((w / 2) >> j) & 1) by (bit_vector)
        requires
            k == j + 1,
            j < 63,
    ;
}

/// Counting adds up: a true entry counts one, a false one nothing, and a list in two parts counts
/// as its parts do together.
pub proof fn law_counts_add_up(a: Seq<bool>, b: Seq<bool>)
    ensures
        ones(Seq::empty()) == 0,
        ones(seq![true]) == 1,
        ones(seq![false]) == 0,
        ones(a + b) == ones(a) + ones(b),
{
    reveal_with_fuel(ones, 2);
    assert(seq![true].drop_last() =~= Seq::<bool>::empty());
    assert(seq![false].drop_last() =~= Seq::<bool>::empty());
    lemma_ones_add(a, b);
}

} // verus!
