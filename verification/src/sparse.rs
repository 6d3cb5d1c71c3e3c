//! Sparse storage for term keys.
//!
//! A key is two planes of `span` bits, the second behind the first. A row is the ascending list
//! of the key's set positions, and the only form in which a key is kept; word planes exist only
//! in a workspace that a kernel owns while it runs.

use crate::bits;
use crate::inverted_index;
use crate::operator_index;
use crate::sums;
use vstd::prelude::*;
use vstd::slice::slice_subrange;

verus! {

/// One set bit of a key: `plane * span + word * 64 + bit`.
pub type Position = u32;

/// The first `span` bits of a run of words; bits past its end are not set.
pub open spec fn plane(words: Seq<u64>, span: nat) -> Seq<bool> {
    Seq::new(span, |p: int| bits::bit_at(words, p))
}

/// The key with planes `x` and `z`.
pub open spec fn key_of(x: Seq<u64>, z: Seq<u64>, span: nat) -> Seq<bool> {
    plane(x, span) + plane(z, span)
}

/// The row lists the set positions of `key`.
pub open spec fn spells(row: Seq<u32>, key: Seq<bool>) -> bool {
    &&& row.len() == bits::set_positions(key).len()
    &&& forall|i: int| 0 <= i < row.len() ==> #[trigger] row[i] == bits::set_positions(key)[i]
}

/// The key of `n` bits whose set positions the row lists.
pub open spec fn key_in(row: Seq<u32>, n: nat) -> Seq<bool> {
    Seq::new(n, |p: int| row.contains(p as u32))
}

/// The row is strictly ascending and below `n`.
pub open spec fn orderly(row: Seq<u32>, n: int) -> bool {
    &&& forall|i: int| 0 <= i < row.len() ==> (#[trigger] row[i]) < n
    &&& forall|i: int, j: int| 0 <= i < j < row.len() ==> #[trigger] row[i] < #[trigger] row[j]
}

/// `after` is `before` with the set positions of `key` appended.
pub open spec fn appended(before: Seq<u32>, after: Seq<u32>, key: Seq<bool>) -> bool {
    &&& after.len() == before.len() + bits::set_positions(key).len()
    &&& after.take(before.len() as int) == before
    &&& spells(after.skip(before.len() as int), key)
}

/// A row that spells a key is orderly, and spells no other of that length.
pub proof fn lemma_spells(row: Seq<u32>, key: Seq<bool>)
    requires
        spells(row, key),
        key.len() <= u32::MAX + 1,
    ensures
        orderly(row, key.len() as int),
        key_in(row, key.len()) == key,
        row.len() == bits::ones(key),
        forall|p: int| 0 <= p < key.len() ==> key[p] == #[trigger] row.contains(p as u32),
{
    let pos = bits::set_positions(key);
    bits::lemma_set_positions(key);
    assert forall|p: int| 0 <= p < key.len() implies key[p] == #[trigger] row.contains(
        p as u32,
    ) by {
        if key[p] {
            let k = choose|k: int| 0 <= k < pos.len() && pos[k] == p;
            assert(row[k] == p as u32);
        }
        if row.contains(p as u32) {
            let k = choose|k: int| 0 <= k < row.len() && row[k] == p as u32;
            assert(pos[k] == p);
        }
    }
    assert forall|i: int, j: int| 0 <= i < j < row.len() implies #[trigger] row[i]
        < #[trigger] row[j] by {
        assert(pos[i] < pos[j]);
    }
    assert forall|i: int| 0 <= i < row.len() implies (#[trigger] row[i]) < key.len() by {
        assert(0 <= pos[i] < key.len());
    }
    assert(key_in(row, key.len()) =~= key);
}

/// An orderly row spells the key that is set where it says.
pub proof fn lemma_orderly(row: Seq<u32>, n: nat)
    requires
        orderly(row, n as int),
        n <= u32::MAX + 1,
    ensures
        spells(row, key_in(row, n)),
{
    let key = key_in(row, n);
    let pos = bits::set_positions(key);
    bits::lemma_set_positions(key);
    let ints = Seq::new(row.len(), |i: int| row[i] as int);
    assert forall|x: int| ints.contains(x) <==> pos.contains(x) by {
        if ints.contains(x) {
            let i = choose|i: int| 0 <= i < ints.len() && ints[i] == x;
            assert(row[i] == x && row[i] < n);
            assert(row.contains(x as u32));
            assert(key[x]);
        }
        if pos.contains(x) {
            let k = choose|k: int| 0 <= k < pos.len() && pos[k] == x;
            assert(key[x]);
            let i = choose|i: int| 0 <= i < row.len() && row[i] == x as u32;
            assert(ints[i] == x);
        }
    }
    bits::lemma_ascending_unique(ints, pos);
    assert forall|i: int| 0 <= i < row.len() implies #[trigger] row[i] == pos[i] by {
        assert(ints[i] == pos[i]);
    }
}

/// Rows that spell the same key are the same.
pub proof fn lemma_same_row(a: Seq<u32>, b: Seq<u32>, key: Seq<bool>)
    requires
        spells(a, key),
        spells(b, key),
    ensures
        a == b,
{
    assert(a =~= b);
}

/// The set positions of both planes are those of the first and then those of the second.
pub proof fn lemma_appended(before: Seq<u32>, mid: Seq<u32>, after: Seq<u32>, a: Seq<bool>, b: Seq<bool>)
    requires
        appended(before, mid, a),
        after.len() == mid.len() + bits::set_positions(b).len(),
        after.take(mid.len() as int) == mid,
        forall|k: int|
            0 <= k < bits::set_positions(b).len() ==> #[trigger] after[mid.len() + k]
                == bits::set_positions(b)[k] + a.len(),
    ensures
        appended(before, after, a + b),
{
    bits::lemma_positions_add(a, b);
    let n = before.len() as int;
    assert(after.take(n) =~= before) by {
        assert(mid.take(n) == before);
        assert forall|i: int| 0 <= i < n implies after[i] == before[i] by {
            assert(after.take(mid.len() as int)[i] == after[i]);
            assert(mid.take(n)[i] == mid[i]);
        }
    }
    let tail = after.skip(n);
    let pos = bits::set_positions(a + b);
    assert forall|i: int| 0 <= i < tail.len() implies #[trigger] tail[i] == pos[i] by {
        if n + i < mid.len() {
            assert(after.take(mid.len() as int)[n + i] == after[n + i]);
            assert(mid.skip(n)[i] == mid[n + i]);
        } else {
            let k = n + i - mid.len();
            assert(after[mid.len() + k] == bits::set_positions(b)[k] + a.len());
        }
    }
}

/// Appends one plane's set positions, each raised by `base`.
fn push_plane(words: &[u64], base: usize, out: &mut Vec<Position>)
    requires
        64 * words@.len() <= usize::MAX,
        forall|p: int| #[trigger] bits::bit_at(words@, p) ==> base + p <= u32::MAX,
    ensures
        final(out)@.len() == old(out)@.len() + bits::set_positions(bits::bits_of(words@)).len(),
        final(out)@.take(old(out)@.len() as int) == old(out)@,
        forall|k: int|
            0 <= k < bits::set_positions(bits::bits_of(words@)).len() ==> #[trigger] final(out)@[old(out)@.len() + k] == bits::set_positions(bits::bits_of(words@))[k] + base,
{
    let ghost start = out@.len() as int;
    let ghost key = bits::bits_of(words@);
    let mut at: Vec<usize> = Vec::new();
    inverted_index::for_each_set_bit(words, &mut at);
    proof {
        bits::lemma_set_positions(key);
        assert forall|k: int| 0 <= k < at@.len() implies #[trigger] at@[k] == bits::set_positions(
            key,
        )[k] by {
            assert(at@[0 + k] == bits::set_positions(key)[k]);
        }
    }
    let mut k: usize = 0;
    while k < at.len()
        invariant
            k <= at@.len(),
            start == old(out)@.len(),
            key == bits::bits_of(words@),
            forall|p: int| #[trigger] bits::bit_at(words@, p) ==> base + p <= u32::MAX,
            at@.len() == bits::set_positions(key).len(),
            forall|j: int| 0 <= j < at@.len() ==> #[trigger] at@[j] == bits::set_positions(key)[j],
            forall|j: int|
                0 <= j < bits::set_positions(key).len() ==> 0 <= #[trigger] bits::set_positions(
                    key,
                )[j] < key.len() && key[bits::set_positions(key)[j]],
            out@.len() == start + k,
            out@.take(start) == old(out)@,
            forall|j: int|
                0 <= j < k ==> #[trigger] out@[start + j] == bits::set_positions(key)[j] + base,
        decreases at@.len() - k,
    {
        let ghost before = out@;
        proof {
            assert(at@[k as int] == bits::set_positions(key)[k as int]);
            assert(bits::bit_at(words@, at@[k as int] as int));
        }
        out.push((base + at[k]) as Position);
        proof {
            assert(out@.take(start) =~= before.take(start));
            assert forall|j: int| 0 <= j < k + 1 implies #[trigger] out@[start + j]
                == bits::set_positions(key)[j] + base by {
                if j < k {
                    assert(before[start + j] == bits::set_positions(key)[j] + base);
                }
            }
        }
        k += 1;
    }
}

/// No bit of a run of words is set at `span` or beyond.
pub open spec fn within_span(words: Seq<u64>, span: int) -> bool {
    forall|p: int| p >= span ==> !#[trigger] bits::bit_at(words, p)
}

/// The words of a plane that its span takes in.
fn clipped(words: &[u64], plane_span: usize) -> (r: &[u64])
    requires
        2 * plane_span <= usize::MAX,
        within_span(words@, plane_span as int),
    ensures
        64 * r@.len() <= plane_span + 63,
        forall|p: int| #[trigger] bits::bit_at(r@, p) == bits::bit_at(words@, p),
{
    let most: usize = plane_span / 64 + (if plane_span % 64 == 0 {
        0usize
    } else {
        1usize
    });
    if words.len() <= most {
        return words;
    }
    let r: &[u64] = slice_subrange(words, 0, most);
    proof {
        assert forall|p: int| #[trigger] bits::bit_at(r@, p) == bits::bit_at(words@, p) by {
            if 0 <= p < 64 * most {
                assert(r@[p / 64] == words@[p / 64]);
            }
        }
    }
    r
}

/// Appends the key's set positions to `out`, ascending.
pub fn encode_planes_into(planes: [&[u64]; 2], plane_span: usize, out: &mut Vec<Position>)
    requires
        2 * plane_span <= u32::MAX + 1,
        2 * plane_span <= usize::MAX,
        within_span(planes[0]@, plane_span as int),
        within_span(planes[1]@, plane_span as int),
    ensures
        appended(
            old(out)@,
            final(out)@,
            key_of(planes[0]@, planes[1]@, plane_span as nat),
        ),
{
    let ghost before = out@;
    let ghost span = plane_span as nat;
    let x: &[u64] = clipped(planes[0], plane_span);
    let z: &[u64] = clipped(planes[1], plane_span);
    proof {
        assert forall|p: int| #[trigger] bits::bit_at(x@, p) implies p <= u32::MAX by {
            assert(bits::bit_at(planes[0]@, p));
        }
        assert forall|p: int| #[trigger] bits::bit_at(z@, p) implies plane_span + p <= u32::MAX by {
            assert(bits::bit_at(planes[1]@, p));
        }
    }
    push_plane(x, 0, out);
    let ghost mid = out@;
    proof {
        let a = bits::bits_of(x@);
        let pa = plane(planes[0]@, span);
        lemma_plane_positions(x@, planes[0]@, span);
        let n = before.len() as int;
        assert forall|i: int| 0 <= i < mid.skip(n).len() implies #[trigger] mid.skip(n)[i]
            == bits::set_positions(pa)[i] by {
            assert(mid[n + i] == bits::set_positions(a)[i] + 0);
        }
        assert(appended(before, mid, pa));
    }
    push_plane(z, plane_span, out);
    proof {
        let pb = plane(planes[1]@, span);
        lemma_plane_positions(z@, planes[1]@, span);
        lemma_appended(before, mid, out@, plane(planes[0]@, span), pb);
    }
}

/// The words that a span takes in have the plane's set positions.
proof fn lemma_plane_positions(words: Seq<u64>, all: Seq<u64>, span: nat)
    requires
        within_span(all, span as int),
        forall|p: int| #[trigger] bits::bit_at(words, p) == bits::bit_at(all, p),
    ensures
        bits::set_positions(bits::bits_of(words)) == bits::set_positions(plane(all, span)),
{
    let a = bits::bits_of(words);
    let b = plane(all, span);
    assert forall|p: int| 0 <= p < a.len() implies #[trigger] a[p] == bits::bit_at(all, p) by {
        assert(bits::bit_at(words, p) == bits::bit_at(all, p));
    }
    if a.len() <= b.len() {
        assert forall|p: int| a.len() <= p < b.len() implies !#[trigger] b[p] by {
            assert(bits::bit_at(words, p) == bits::bit_at(all, p));
        }
        bits::lemma_ones_padded(a, b);
    } else {
        assert forall|p: int| b.len() <= p < a.len() implies !#[trigger] a[p] by {
            assert(!bits::bit_at(all, p));
        }
        bits::lemma_ones_padded(b, a);
    }
}

/// How many entries of an orderly row are below `limit`.
pub open spec fn below(row: Seq<u32>, limit: int, n: int) -> bool {
    &&& 0 <= n <= row.len()
    &&& forall|i: int| 0 <= i < n ==> (#[trigger] row[i]) < limit
    &&& forall|i: int| n <= i < row.len() ==> (#[trigger] row[i]) >= limit
}

/// How many entries of an orderly row are below `limit`, by bisection.
fn split_point(row: &[Position], limit: usize) -> (n: usize)
    requires
        forall|i: int, j: int|
            0 <= i < j < row@.len() ==> #[trigger] row@[i] < #[trigger] row@[j],
    ensures
        below(row@, limit as int, n as int),
{
    let mut lo: usize = 0;
    let mut hi: usize = row.len();
    while lo < hi
        invariant
            0 <= lo <= hi <= row@.len(),
            forall|i: int, j: int|
                0 <= i < j < row@.len() ==> #[trigger] row@[i] < #[trigger] row@[j],
            forall|i: int| 0 <= i < lo ==> (#[trigger] row@[i]) < limit,
            forall|i: int| hi <= i < row@.len() ==> (#[trigger] row@[i]) >= limit,
        decreases hi - lo,
    {
        let mid: usize = lo + (hi - lo) / 2;
        if (row[mid] as usize) < limit {
            proof {
                assert forall|i: int| 0 <= i < mid + 1 implies (#[trigger] row@[i]) < limit by {
                    if i < mid {
                        assert(row@[i] < row@[mid as int]);
                    }
                }
            }
            lo = mid + 1;
        } else {
            proof {
                assert forall|i: int| mid <= i < row@.len() implies (#[trigger] row@[i])
                    >= limit by {
                    if mid < i {
                        assert(row@[mid as int] < row@[i]);
                    }
                }
            }
            hi = mid;
        }
    }
    lo
}

/// Splits a row into its two planes' positions.
pub fn split_planes(row: &[Position], plane_span: usize) -> (r: (&[Position], &[Position]))
    requires
        forall|i: int, j: int|
            0 <= i < j < row@.len() ==> #[trigger] row@[i] < #[trigger] row@[j],
    ensures
        r.0@ + r.1@ == row@,
        forall|i: int| 0 <= i < r.0@.len() ==> (#[trigger] r.0@[i]) < plane_span,
        forall|i: int| 0 <= i < r.1@.len() ==> (#[trigger] r.1@[i]) >= plane_span,
{
    let n: usize = split_point(row, plane_span);
    let a: &[Position] = slice_subrange(row, 0, n);
    let b: &[Position] = slice_subrange(row, n, row.len());
    proof {
        assert(a@ + b@ =~= row@);
    }
    (a, b)
}

/// Planes of `x` and `z` words are long enough for a row.
pub open spec fn holds_row(row: Seq<u32>, span: int, x: int, z: int) -> bool {
    forall|i: int|
        0 <= i < row.len() ==> if (#[trigger] row[i]) < span {
            row[i] < 64 * x
        } else {
            row[i] - span < 64 * z
        }
}

/// Position `p` of the first plane is in the row.
pub open spec fn in_first(row: Seq<u32>, span: int, p: int) -> bool {
    0 <= p < span && exists|i: int| 0 <= i < row.len() && #[trigger] row[i] == p
}

/// Position `p` of the second plane is in the row.
pub open spec fn in_second(row: Seq<u32>, span: int, p: int) -> bool {
    0 <= p && exists|i: int| 0 <= i < row.len() && #[trigger] row[i] == p + span
}

/// Decodes a row into its two word planes, which need only be long enough for it. What is
/// beyond the row is cleared.
pub fn decode_row_into(row: &[Position], plane_span: usize, x: &mut Vec<u64>, z: &mut Vec<u64>)
    requires
        holds_row(
            row@,
            plane_span as int,
            old(x)@.len() as int,
            old(z)@.len() as int,
        ),
    ensures
        final(x)@.len() == old(x)@.len(),
        final(z)@.len() == old(z)@.len(),
        forall|p: int| #[trigger]
            bits::bit_at(final(x)@, p) == in_first(row@, plane_span as int, p),
        forall|p: int| #[trigger]
            bits::bit_at(final(z)@, p) == in_second(row@, plane_span as int, p),
        orderly(row@, 2 * plane_span) && 2 * plane_span <= u32::MAX + 1 ==> key_of(
            final(x)@,
            final(z)@,
            plane_span as nat,
        ) == key_in(row@, (2 * plane_span) as nat),
{
    clear_words(x);
    clear_words(z);
    let ghost span = plane_span as int;
    let mut i: usize = 0;
    proof {
        assert forall|p: int| !#[trigger] bits::bit_at(x@, p) by {
            bits::lemma_bit_zero(p % 64);
        }
        assert forall|p: int| !#[trigger] bits::bit_at(z@, p) by {
            bits::lemma_bit_zero(p % 64);
        }
    }
    while i < row.len()
        invariant
            i <= row@.len(),
            span == plane_span,
            x@.len() == old(x)@.len(),
            z@.len() == old(z)@.len(),
            holds_row(row@, span, x@.len() as int, z@.len() as int),
            forall|p: int| #[trigger] bits::bit_at(x@, p) == in_first(row@.take(i as int), span, p),
            forall|p: int| #[trigger]
                bits::bit_at(z@, p) == in_second(row@.take(i as int), span, p),
        decreases row@.len() - i,
    {
        let pos: usize = row[i] as usize;
        let ghost x0 = x@;
        let ghost z0 = z@;
        let ghost done = row@.take(i as int);
        let ghost next = row@.take(i + 1);
        proof {
            assert(next =~= done.push(row@[i as int]));
            assert forall|p: int| #[trigger] in_first(next, span, p) == (in_first(done, span, p)
                || (p < span && p == row@[i as int])) by {
                lemma_with_one(done, row@[i as int], p);
            }
            assert forall|p: int| #[trigger] in_second(next, span, p) == (in_second(done, span, p)
                || (0 <= p && p + span == row@[i as int])) by {
                lemma_with_one(done, row@[i as int], p + span);
            }
        }
        if pos >= plane_span {
            let local: usize = pos - plane_span;
            set_bit(z, local);
            proof {
                assert forall|p: int| #[trigger] bits::bit_at(z@, p) == in_second(next, span, p) by {
                    assert(bits::bit_at(z0, p) == in_second(done, span, p));
                }
                assert forall|p: int| #[trigger] bits::bit_at(x@, p) == in_first(next, span, p) by {}
            }
        } else {
            set_bit(x, pos);
            proof {
                assert forall|p: int| #[trigger] bits::bit_at(x@, p) == in_first(next, span, p) by {
                    assert(bits::bit_at(x0, p) == in_first(done, span, p));
                }
                assert forall|p: int| #[trigger] bits::bit_at(z@, p) == in_second(next, span, p) by {
                }
            }
        }
        i += 1;
    }
    proof {
        assert(row@.take(row@.len() as int) =~= row@);
        if orderly(row@, 2 * plane_span) && 2 * plane_span <= u32::MAX + 1 {
            let k = key_of(x@, z@, plane_span as nat);
            let want = key_in(row@, (2 * plane_span) as nat);
            assert forall|p: int| 0 <= p < 2 * span implies k[p] == want[p] by {
                if row@.contains(p as u32) {
                    let i = choose|i: int| 0 <= i < row@.len() && row@[i] == p as u32;
                    assert(row@[i] == p);
                }
                if p < span {
                    assert(bits::bit_at(x@, p) == in_first(row@, span, p));
                } else {
                    assert(bits::bit_at(z@, p - span) == in_second(row@, span, p - span));
                }
            }
            assert(k =~= want);
        }
    }
}

/// A list with one more entry holds that entry and what it held.
proof fn lemma_with_one(done: Seq<u32>, v: u32, p: int)
    ensures
        (exists|i: int| 0 <= i < done.push(v).len() && #[trigger] done.push(v)[i] == p) == ((
        exists|i: int| 0 <= i < done.len() && #[trigger] done[i] == p) || v == p),
{
    let next = done.push(v);
    if v == p {
        assert(next[done.len() as int] == p);
    }
    if exists|i: int| 0 <= i < done.len() && #[trigger] done[i] == p {
        let i = choose|i: int| 0 <= i < done.len() && #[trigger] done[i] == p;
        assert(next[i] == p);
    }
    if exists|i: int| 0 <= i < next.len() && #[trigger] next[i] == p {
        let i = choose|i: int| 0 <= i < next.len() && #[trigger] next[i] == p;
        if i < done.len() {
            assert(done[i] == p);
        }
    }
}

/// Clears every word.
fn clear_words(words: &mut Vec<u64>)
    ensures
        final(words)@.len() == old(words)@.len(),
        forall|i: int| 0 <= i < final(words)@.len() ==> #[trigger] final(words)@[i] == 0,
{
    let mut i: usize = 0;
    while i < words.len()
        invariant
            i <= words@.len(),
            words@.len() == old(words)@.len(),
            forall|j: int| 0 <= j < i ==> #[trigger] words@[j] == 0,
        decreases words@.len() - i,
    {
        words.set(i, 0);
        i += 1;
    }
}

/// Sets bit `p` of a run of words.
fn set_bit(words: &mut Vec<u64>, p: usize)
    requires
        p < 64 * old(words)@.len(),
    ensures
        final(words)@.len() == old(words)@.len(),
        forall|q: int|
            0 <= q < 64 * old(words)@.len() ==> #[trigger] bits::bit_at(final(words)@, q) == (q == p
                || bits::bit_at(old(words)@, q)),
{
    let w: usize = p / 64;
    let b: u64 = (p % 64) as u64;
    proof {
        assert forall|q: int| 0 <= q < 64 * words@.len() implies #[trigger] bits::bit_at(
            words@.update(w as int, words@[w as int] | (1u64 << b)),
            q,
        ) == (q == p || bits::bit_at(words@, q)) by {
            bits::lemma_set_bit_at(words@, p as int, q);
        }
    }
    words.set(w, words[w] | (1u64 << b));
}

/// The words at word `word` of both planes of a row.
pub fn row_word_pair(row: &[Position], plane_span: usize, word: usize) -> (r: [u64; 2])
    requires
        orderly(row@, 2 * plane_span),
        2 * plane_span <= u32::MAX + 1,
        2 * plane_span <= usize::MAX,
        64 * word + 64 <= plane_span,
    ensures
        forall|b: int|
            0 <= b < 64 ==> #[trigger] bits::bit(r[0], b) == row@.contains((64 * word + b) as u32),
        forall|b: int|
            0 <= b < 64 ==> #[trigger] bits::bit(r[1], b) == row@.contains(
                (plane_span + 64 * word + b) as u32,
            ),
{
    [window(row, 64 * word), window(row, plane_span + 64 * word)]
}

/// The 64 positions from `lo` on, as a word.
fn window(row: &[Position], lo: usize) -> (w: u64)
    requires
        forall|i: int, j: int|
            0 <= i < j < row@.len() ==> #[trigger] row@[i] < #[trigger] row@[j],
        lo + 64 <= u32::MAX + 1,
        lo + 64 <= usize::MAX,
    ensures
        forall|b: int| 0 <= b < 64 ==> #[trigger] bits::bit(w, b) == row@.contains((lo + b) as u32),
{
    let start: usize = split_point(row, lo);
    let mut w: u64 = 0;
    let mut i: usize = start;
    proof {
        assert forall|b: int| 0 <= b < 64 implies !#[trigger] bits::bit(0, b) by {
            bits::lemma_bit_zero(b);
        }
        assert(row@.subrange(start as int, start as int) =~= Seq::<u32>::empty());
    }
    while i < row.len() && ((row[i] as usize) < lo + 64)
        invariant
            start <= i <= row@.len(),
            below(row@, lo as int, start as int),
            lo + 64 <= u32::MAX + 1,
            lo + 64 <= usize::MAX,
            forall|b: int|
                0 <= b < 64 ==> #[trigger] bits::bit(w, b) == row@.subrange(
                    start as int,
                    i as int,
                ).contains((lo + b) as u32),
        decreases row@.len() - i,
    {
        let s: u64 = (row[i] as usize - lo) as u64;
        let ghost w0 = w;
        w = w | (1u64 << s);
        proof {
            let t = row@.subrange(start as int, i as int);
            let u = row@.subrange(start as int, i + 1);
            assert(u =~= t.push(row@[i as int]));
            assert forall|b: int| 0 <= b < 64 implies #[trigger] bits::bit(w, b) == u.contains(
                (lo + b) as u32,
            ) by {
                bits::lemma_bit_ops(w0, 1u64 << s, b);
                bits::lemma_bit_one_hot(s, b);
                let v = (lo + b) as u32;
                if t.contains(v) {
                    let j = choose|j: int| 0 <= j < t.len() && t[j] == v;
                    assert(u[j] == v);
                }
                if b == s {
                    assert(u[t.len() as int] == v);
                }
                if u.contains(v) && b != s {
                    let j = choose|j: int| 0 <= j < u.len() && u[j] == v;
                    assert(t[j] == v);
                }
            }
        }
        i += 1;
    }
    proof {
        let u = row@.subrange(start as int, i as int);
        assert forall|b: int| 0 <= b < 64 implies #[trigger] bits::bit(w, b) == row@.contains(
            (lo + b) as u32,
        ) by {
            let v = (lo + b) as u32;
            if u.contains(v) {
                let j = choose|j: int| 0 <= j < u.len() && u[j] == v;
                assert(row@[start + j] == v);
            }
            if row@.contains(v) {
                let j = choose|j: int| 0 <= j < row@.len() && row@[j] == v;
                assert(j >= start);
                if j >= i {
                    if i < j {
                        assert(row@[i as int] < row@[j]);
                    }
                }
                assert(u[j - start] == v);
            }
        }
    }
    w
}

/// The key with word `word` of both planes replaced.
pub open spec fn spliced(key: Seq<bool>, span: int, word: int, new: [u64; 2]) -> Seq<bool> {
    Seq::new(
        key.len(),
        |p: int|
            if 64 * word <= p < 64 * word + 64 {
                bits::bit(new[0], p - 64 * word)
            } else if span + 64 * word <= p < span + 64 * word + 64 {
                bits::bit(new[1], p - span - 64 * word)
            } else {
                key[p]
            },
    )
}

/// The entries of an orderly row in a range of positions are the set positions of that part of
/// the key.
proof fn lemma_segment(row: Seq<u32>, n: nat, lo: int, hi: int, a: int, b: int)
    requires
        orderly(row, n as int),
        n <= u32::MAX + 1,
        0 <= lo <= hi <= n,
        below(row, lo, a),
        below(row, hi, b),
    ensures
        a <= b,
        bits::set_positions(key_in(row, n).subrange(lo, hi)).len() == b - a,
        forall|i: int|
            0 <= i < b - a ==> (#[trigger] row[a + i]) == bits::set_positions(
                key_in(row, n).subrange(lo, hi),
            )[i] + lo,
{
    if b < a {
        assert(row[b] >= hi);
        assert(row[b] < lo);
    }
    let key = key_in(row, n);
    let part = key.subrange(lo, hi);
    let pos = bits::set_positions(part);
    bits::lemma_set_positions(part);
    let ints = Seq::new((b - a) as nat, |i: int| row[a + i] - lo);
    assert forall|j: int, k: int| 0 <= j < k < ints.len() implies #[trigger] ints[j]
        < #[trigger] ints[k] by {
        assert(row[a + j] < row[a + k]);
    }
    assert forall|x: int| ints.contains(x) <==> pos.contains(x) by {
        if ints.contains(x) {
            let i = choose|i: int| 0 <= i < ints.len() && ints[i] == x;
            let v = row[a + i];
            assert(lo <= v < hi);
            assert(row.contains(v));
            assert(key[v as int]);
            assert(part[x]);
        }
        if pos.contains(x) {
            let k = choose|k: int| 0 <= k < pos.len() && pos[k] == x;
            assert(part[x]);
            assert(key[x + lo]);
            let i = choose|i: int| 0 <= i < row.len() && row[i] == (x + lo) as u32;
            assert(a <= i < b);
            assert(ints[i - a] == x);
        }
    }
    bits::lemma_ascending_unique(ints, pos);
    assert forall|i: int| 0 <= i < b - a implies (#[trigger] row[a + i]) == pos[i] + lo by {
        assert(ints[i] == pos[i]);
    }
}

/// Appends entries `a..b` of `row` to `out`.
fn push_run(row: &[Position], a: usize, b: usize, out: &mut Vec<Position>)
    requires
        a <= b <= row@.len(),
    ensures
        final(out)@ == old(out)@ + row@.subrange(a as int, b as int),
{
    let mut i: usize = a;
    proof {
        assert(out@ =~= old(out)@ + row@.subrange(a as int, a as int));
    }
    while i < b
        invariant
            a <= i <= b,
            b <= row@.len(),
            out@ == old(out)@ + row@.subrange(a as int, i as int),
        decreases b - i,
    {
        out.push(row[i]);
        i += 1;
        proof {
            assert(out@ =~= old(out)@ + row@.subrange(a as int, i as int));
        }
    }
}

/// Appends the set bits of `bits`, each raised by `lo`, ascending.
fn push_word_bits(out: &mut Vec<Position>, lo: usize, word: u64)
    requires
        lo + 64 <= u32::MAX + 1,
        lo + 64 <= usize::MAX,
    ensures
        final(out)@.len() == old(out)@.len() + bits::set_positions(bits::word_bits(word)).len(),
        final(out)@.take(old(out)@.len() as int) == old(out)@,
        forall|k: int|
            0 <= k < bits::set_positions(bits::word_bits(word)).len() ==> #[trigger] final(out)@[old(out)@.len() + k] == bits::set_positions(bits::word_bits(word))[k] + lo,
{
    let words: [u64; 1] = [word];
    proof {
        assert(bits::bits_of(words@) =~= bits::word_bits(word));
    }
    push_plane(words.as_slice(), lo, out);
}

/// Appends `row` to `out` with word `word` of both planes replaced; every position outside
/// those two words stays.
pub fn splice_row_word(
    row: &[Position],
    plane_span: usize,
    word: usize,
    new_word: [u64; 2],
    out: &mut Vec<Position>,
)
    requires
        orderly(row@, 2 * plane_span),
        2 * plane_span <= u32::MAX + 1,
        2 * plane_span <= usize::MAX,
        64 * word + 64 <= plane_span,
    ensures
        appended(
            old(out)@,
            final(out)@,
            spliced(
                key_in(row@, (2 * plane_span) as nat),
                plane_span as int,
                word as int,
                new_word,
            ),
        ),
{
    let lo0: usize = 64 * word;
    let lo1: usize = plane_span + lo0;
    let ghost n = (2 * plane_span) as nat;
    let ghost key = key_in(row@, n);
    let ghost before = out@;
    let a: usize = split_point(row, lo0);
    let b: usize = split_point(row, lo0 + 64);
    let c: usize = split_point(row, lo1);
    let d: usize = split_point(row, lo1 + 64);
    let ghost k0 = key.subrange(0, lo0 as int);
    let ghost w0 = bits::word_bits(new_word[0]);
    let ghost k1 = key.subrange(lo0 + 64, lo1 as int);
    let ghost w1 = bits::word_bits(new_word[1]);
    let ghost k2 = key.subrange(lo1 + 64, n as int);
    proof {
        assert(below(row@, 0, 0));
        assert(below(row@, n as int, row@.len() as int));
        lemma_segment(row@, n, 0, lo0 as int, 0, a as int);
        lemma_segment(row@, n, lo0 + 64, lo1 as int, b as int, c as int);
        lemma_segment(row@, n, lo1 + 64, n as int, d as int, row@.len() as int);
        let e = Seq::<bool>::empty();
        assert(bits::set_positions(e) =~= Seq::<int>::empty());
        assert(before.take(before.len() as int) =~= before);
        assert(appended(before, before, e));
    }
    push_run(row, 0, a, out);
    let ghost s0 = out@;
    proof {
        let e = Seq::<bool>::empty();
        assert forall|k: int| 0 <= k < bits::set_positions(k0).len() implies #[trigger] s0[before.len()
            + k] == bits::set_positions(k0)[k] + e.len() by {
            assert(row@[0 + k] == bits::set_positions(k0)[k] + 0);
        }
        assert(s0.take(before.len() as int) =~= before);
        lemma_appended(before, before, s0, e, k0);
        assert(e + k0 =~= k0);
    }
    push_word_bits(out, lo0, new_word[0]);
    let ghost s1 = out@;
    proof {
        lemma_appended(before, s0, s1, k0, w0);
    }
    push_run(row, b, c, out);
    let ghost s2 = out@;
    proof {
        assert forall|k: int| 0 <= k < bits::set_positions(k1).len() implies #[trigger] s2[s1.len()
            + k] == bits::set_positions(k1)[k] + (k0 + w0).len() by {
            assert(row@[b + k] == bits::set_positions(k1)[k] + (lo0 + 64));
        }
        assert(s2.take(s1.len() as int) =~= s1);
        lemma_appended(before, s1, s2, k0 + w0, k1);
    }
    push_word_bits(out, lo1, new_word[1]);
    let ghost s3 = out@;
    proof {
        lemma_appended(before, s2, s3, k0 + w0 + k1, w1);
    }
    push_run(row, d, row.len(), out);
    proof {
        let s4 = out@;
        assert forall|k: int| 0 <= k < bits::set_positions(k2).len() implies #[trigger] s4[s3.len()
            + k] == bits::set_positions(k2)[k] + (k0 + w0 + k1 + w1).len() by {
            assert(row@[d + k] == bits::set_positions(k2)[k] + (lo1 + 64));
        }
        assert(s4.take(s3.len() as int) =~= s3);
        lemma_appended(before, s3, s4, k0 + w0 + k1 + w1, k2);
        assert(k0 + w0 + k1 + w1 + k2 =~= spliced(
            key,
            plane_span as int,
            word as int,
            new_word,
        ));
    }
}

/// How many entries of `a` are also in `b`.
pub open spec fn common(a: Seq<u32>, b: Seq<u32>) -> nat {
    bits::ones(Seq::new(a.len(), |i: int| b.contains(a[i])))
}

/// The row with every entry lowered by `shift`.
pub open spec fn lowered(row: Seq<u32>, shift: int) -> Seq<u32> {
    Seq::new(row.len(), |i: int| (row[i] - shift) as u32)
}

/// The row is strictly ascending.
pub open spec fn ascending(row: Seq<u32>) -> bool {
    forall|i: int, j: int| 0 <= i < j < row.len() ==> #[trigger] row[i] < #[trigger] row[j]
}

/// The first `i` entries of `a` and `j` of `b` are below all that follow.
spec fn apart(a: Seq<u32>, b: Seq<u32>, i: int, j: int) -> bool {
    &&& 0 <= i <= a.len()
    &&& 0 <= j <= b.len()
    &&& forall|x: int, y: int|
        i <= x < a.len() && 0 <= y < j ==> #[trigger] b[y] < #[trigger] a[x]
    &&& forall|x: int, y: int|
        0 <= x < i && j <= y < b.len() ==> #[trigger] a[x] < #[trigger] b[y]
}

/// Whether `b` has entry `i` of `a`, once everything before is known to be apart.
proof fn lemma_apart(a: Seq<u32>, b: Seq<u32>, i: int, j: int)
    requires
        ascending(a),
        ascending(b),
        apart(a, b, i, j),
        i < a.len(),
        j < b.len(),
    ensures
        a[i] < b[j] ==> !b.contains(a[i]) && apart(a, b, i + 1, j),
        a[i] > b[j] ==> !a.contains(b[j]) && apart(a, b, i, j + 1),
        a[i] == b[j] ==> b.contains(a[i]) && a.contains(b[j]) && apart(a, b, i + 1, j + 1),
{
    if a[i] < b[j] && b.contains(a[i]) {
        let y = choose|y: int| 0 <= y < b.len() && b[y] == a[i];
        if y < j {
            assert(b[y] < a[i]);
        } else if j < y {
            assert(b[j] < b[y]);
        }
    }
    if a[i] > b[j] && a.contains(b[j]) {
        let x = choose|x: int| 0 <= x < a.len() && a[x] == b[j];
        if x < i {
            assert(a[x] < b[j]);
        } else if i < x {
            assert(a[i] < a[x]);
        }
    }
    assert forall|x: int, y: int| i + 1 <= x < a.len() && 0 <= y < j implies #[trigger] b[y]
        < #[trigger] a[x] by {}
    if a[i] <= b[j] {
        assert forall|x: int, y: int|
            0 <= x < i + 1 && j <= y < b.len() && !(x == i && y == j) implies #[trigger] a[x]
            < #[trigger] b[y] by {
            if x == i {
                assert(b[j] < b[y]);
            }
        }
    }
    if a[i] >= b[j] {
        assert forall|x: int, y: int|
            i <= x < a.len() && 0 <= y < j + 1 && !(x == i && y == j) implies #[trigger] b[y]
            < #[trigger] a[x] by {
            if y == j {
                assert(a[i] < a[x]);
            }
        }
    }
}

/// Past the end of the other list nothing is common.
proof fn lemma_past(a: Seq<u32>, b: Seq<u32>, i: int)
    requires
        apart(a, b, i, b.len() as int),
    ensures
        forall|x: int| i <= x < a.len() ==> !b.contains(#[trigger] a[x]),
{
    assert forall|x: int| i <= x < a.len() implies !b.contains(#[trigger] a[x]) by {
        if b.contains(a[x]) {
            let y = choose|y: int| 0 <= y < b.len() && b[y] == a[x];
            assert(b[y] < a[x]);
        }
    }
}

/// Number of positions common to two ascending rows.
pub fn intersection_count(a: &[Position], b: &[Position]) -> (n: u32)
    requires
        ascending(a@),
        ascending(b@),
        a@.len() <= u32::MAX,
    ensures
        n == common(a@, b@),
{
    let mut i: usize = 0;
    let mut j: usize = 0;
    let mut n: u32 = 0;
    let ghost hit = Seq::new(a@.len(), |x: int| b@.contains(a@[x]));
    proof {
        assert(hit.take(0) =~= Seq::<bool>::empty());
    }
    while i < a.len() && j < b.len()
        invariant
            ascending(a@),
            ascending(b@),
            a@.len() <= u32::MAX,
            apart(a@, b@, i as int, j as int),
            hit == Seq::new(a@.len(), |x: int| b@.contains(a@[x])),
            n == bits::ones(hit.take(i as int)),
            n <= i,
        decreases a@.len() - i + b@.len() - j,
    {
        proof {
            lemma_apart(a@, b@, i as int, j as int);
            assert(hit.take(i + 1).drop_last() =~= hit.take(i as int));
        }
        if a[i] < b[j] {
            i += 1;
        } else if a[i] > b[j] {
            j += 1;
        } else {
            n += 1;
            i += 1;
            j += 1;
        }
    }
    proof {
        if j == b@.len() {
            lemma_past(a@, b@, i as int);
        }
        bits::lemma_ones_padded_all(hit.take(i as int), hit);
    }
    n
}

/// Number of positions common to `a` and `b` lowered by `shift`.
pub fn shifted_intersection_count(a: &[Position], b: &[Position], shift: usize) -> (n: u32)
    requires
        ascending(a@),
        ascending(b@),
        a@.len() <= u32::MAX,
        shift <= u32::MAX,
        forall|y: int| 0 <= y < b@.len() ==> (#[trigger] b@[y]) >= shift,
    ensures
        n == common(a@, lowered(b@, shift as int)),
{
    let down: u32 = shift as u32;
    let ghost c = lowered(b@, shift as int);
    let mut i: usize = 0;
    let mut j: usize = 0;
    let mut n: u32 = 0;
    let ghost hit = Seq::new(a@.len(), |x: int| c.contains(a@[x]));
    proof {
        assert(hit.take(0) =~= Seq::<bool>::empty());
        assert(ascending(c));
    }
    while i < a.len() && j < b.len()
        invariant
            ascending(a@),
            ascending(c),
            a@.len() <= u32::MAX,
            down == shift,
            c == lowered(b@, shift as int),
            forall|y: int| 0 <= y < b@.len() ==> (#[trigger] b@[y]) >= shift,
            apart(a@, c, i as int, j as int),
            hit == Seq::new(a@.len(), |x: int| c.contains(a@[x])),
            n == bits::ones(hit.take(i as int)),
            n <= i,
        decreases a@.len() - i + b@.len() - j,
    {
        let y: u32 = b[j] - down;
        proof {
            assert(c[j as int] == y);
            lemma_apart(a@, c, i as int, j as int);
            assert(hit.take(i + 1).drop_last() =~= hit.take(i as int));
        }
        if a[i] < y {
            i += 1;
        } else if a[i] > y {
            j += 1;
        } else {
            n += 1;
            i += 1;
            j += 1;
        }
    }
    proof {
        if j == b@.len() {
            lemma_past(a@, c, i as int);
        }
        bits::lemma_ones_padded_all(hit.take(i as int), hit);
    }
    n
}

/// Number of distinct values in `a` and `b` lowered by `shift`.
pub fn shifted_union_count(a: &[Position], b: &[Position], shift: usize) -> (n: u32)
    requires
        ascending(a@),
        ascending(b@),
        a@.len() + b@.len() <= u32::MAX,
        shift <= u32::MAX,
        forall|y: int| 0 <= y < b@.len() ==> (#[trigger] b@[y]) >= shift,
    ensures
        n == a@.len() + b@.len() - common(a@, lowered(b@, shift as int)),
{
    let n: u32 = shifted_intersection_count(a, b, shift);
    proof {
        bits::lemma_ones_bound(
            Seq::new(a@.len(), |i: int| lowered(b@, shift as int).contains(a@[i])),
        );
    }
    (a.len() + b.len() - n as usize) as u32
}

/// `d` lists what exactly one of `a` and `b` lists, ascending.
pub open spec fn differs(a: Seq<u32>, b: Seq<u32>, d: Seq<u32>) -> bool {
    &&& ascending(d)
    &&& forall|v: u32| #[trigger] d.contains(v) == (a.contains(v) != b.contains(v))
}

/// `d` lists what exactly one of the first `i` entries of `a` and `j` of `b` lists.
spec fn differs_to(a: Seq<u32>, b: Seq<u32>, i: int, j: int, d: Seq<u32>) -> bool {
    &&& ascending(d)
    &&& forall|v: u32| #[trigger]
        d.contains(v) == (a.take(i).contains(v) != b.take(j).contains(v))
    &&& forall|x: int, k: int| i <= x < a.len() && 0 <= k < d.len() ==> #[trigger] d[k] < #[trigger] a[x]
    &&& forall|y: int, k: int| j <= y < b.len() && 0 <= k < d.len() ==> #[trigger] d[k] < #[trigger] b[y]
}

proof fn lemma_take_push(a: Seq<u32>, i: int)
    requires
        0 <= i < a.len(),
    ensures
        forall|v: u32| #[trigger] a.take(i + 1).contains(v) == (a.take(i).contains(v) || v == a[i]),
{
    let t = a.take(i);
    let u = a.take(i + 1);
    assert forall|v: u32| #[trigger] u.contains(v) == (t.contains(v) || v == a[i]) by {
        if t.contains(v) {
            let j = choose|j: int| 0 <= j < t.len() && t[j] == v;
            assert(u[j] == v);
        }
        if v == a[i] {
            assert(u[i] == v);
        }
        if u.contains(v) && v != a[i] {
            let j = choose|j: int| 0 <= j < u.len() && u[j] == v;
            assert(t[j] == v);
        }
    }
}

/// One entry of one of the lists goes to the difference.
proof fn lemma_differs_push(a: Seq<u32>, b: Seq<u32>, i: int, j: int, d: Seq<u32>)
    requires
        ascending(a),
        ascending(b),
        differs_to(a, b, i, j, d),
        0 <= i < a.len(),
        0 <= j <= b.len(),
        forall|y: int| j <= y < b.len() ==> a[i] < #[trigger] b[y],
        !b.take(j).contains(a[i]),
    ensures
        differs_to(a, b, i + 1, j, d.push(a[i])),
{
    let e = d.push(a[i]);
    lemma_take_push(a, i);
    if a.take(i).contains(a[i]) {
        let x = choose|x: int| 0 <= x < i && a.take(i)[x] == a[i];
        assert(a[x] < a[i]);
    }
    assert forall|v: u32| #[trigger] e.contains(v) == (a.take(i + 1).contains(v) != b.take(
        j,
    ).contains(v)) by {
        assert(d.contains(v) == (a.take(i).contains(v) != b.take(j).contains(v)));
        if d.contains(v) {
            let k = choose|k: int| 0 <= k < d.len() && d[k] == v;
            assert(e[k] == v);
        }
        if v == a[i] {
            assert(e[d.len() as int] == v);
        }
        if e.contains(v) && v != a[i] {
            let k = choose|k: int| 0 <= k < e.len() && e[k] == v;
            assert(d[k] == v);
        }
    }
}

proof fn lemma_differs_swap(a: Seq<u32>, b: Seq<u32>, i: int, j: int, d: Seq<u32>)
    requires
        differs_to(a, b, i, j, d),
    ensures
        differs_to(b, a, j, i, d),
{
}

/// Nothing taken so far is what comes next in the other list.
proof fn lemma_not_taken(a: Seq<u32>, b: Seq<u32>, i: int, j: int)
    requires
        apart(a, b, i, j),
        i < a.len(),
    ensures
        !b.take(j).contains(a[i]),
{
    if b.take(j).contains(a[i]) {
        let y = choose|y: int| 0 <= y < j && b.take(j)[y] == a[i];
        assert(b[y] < a[i]);
    }
}

proof fn lemma_apart_swap(a: Seq<u32>, b: Seq<u32>, i: int, j: int)
    requires
        apart(a, b, i, j),
    ensures
        apart(b, a, j, i),
{
}

/// Appends what exactly one of two ascending rows lists to `out`.
pub fn symmetric_difference_into(a: &[Position], b: &[Position], out: &mut Vec<Position>)
    requires
        ascending(a@),
        ascending(b@),
    ensures
        final(out)@.len() >= old(out)@.len(),
        final(out)@.take(old(out)@.len() as int) == old(out)@,
        differs(a@, b@, final(out)@.skip(old(out)@.len() as int)),
{
    let ghost start = out@.len() as int;
    let ghost mut d: Seq<u32> = Seq::empty();
    let mut i: usize = 0;
    let mut j: usize = 0;
    proof {
        assert(a@.take(0) =~= Seq::<u32>::empty());
        assert(b@.take(0) =~= Seq::<u32>::empty());
        assert(out@ =~= old(out)@ + d);
    }
    while i < a.len() && j < b.len()
        invariant
            ascending(a@),
            ascending(b@),
            apart(a@, b@, i as int, j as int),
            differs_to(a@, b@, i as int, j as int, d),
            out@ == old(out)@ + d,
        decreases a@.len() - i + b@.len() - j,
    {
        proof {
            lemma_apart(a@, b@, i as int, j as int);
            lemma_not_taken(a@, b@, i as int, j as int);
            lemma_apart_swap(a@, b@, i as int, j as int);
            lemma_not_taken(b@, a@, j as int, i as int);
        }
        if a[i] < b[j] {
            out.push(a[i]);
            proof {
                assert forall|y: int| j <= y < b@.len() implies a@[i as int] < #[trigger] b@[y] by {
                    if j < y {
                        assert(b@[j as int] < b@[y]);
                    }
                }
                lemma_differs_push(a@, b@, i as int, j as int, d);
                d = d.push(a@[i as int]);
                assert(out@ =~= old(out)@ + d);
            }
            i += 1;
        } else if a[i] > b[j] {
            out.push(b[j]);
            proof {
                assert forall|x: int| i <= x < a@.len() implies b@[j as int] < #[trigger] a@[x] by {
                    if i < x {
                        assert(a@[i as int] < a@[x]);
                    }
                }
                lemma_differs_swap(a@, b@, i as int, j as int, d);
                lemma_differs_push(b@, a@, j as int, i as int, d);
                d = d.push(b@[j as int]);
                lemma_differs_swap(b@, a@, j + 1, i as int, d);
                assert(out@ =~= old(out)@ + d);
            }
            j += 1;
        } else {
            proof {
                lemma_take_push(a@, i as int);
                lemma_take_push(b@, j as int);
                assert forall|v: u32| #[trigger] d.contains(v) == (a@.take(i + 1).contains(v)
                    != b@.take(j + 1).contains(v)) by {
                    assert(d.contains(v) == (a@.take(i as int).contains(v) != b@.take(
                        j as int,
                    ).contains(v)));
                }
            }
            i += 1;
            j += 1;
        }
    }
    while i < a.len()
        invariant
            ascending(a@),
            ascending(b@),
            apart(a@, b@, i as int, j as int),
            i < a@.len() ==> j == b@.len(),
            differs_to(a@, b@, i as int, j as int, d),
            out@ == old(out)@ + d,
        decreases a@.len() - i,
    {
        out.push(a[i]);
        proof {
            lemma_not_taken(a@, b@, i as int, j as int);
            lemma_differs_push(a@, b@, i as int, j as int, d);
            d = d.push(a@[i as int]);
            assert(out@ =~= old(out)@ + d);
        }
        i += 1;
    }
    while j < b.len()
        invariant
            ascending(a@),
            ascending(b@),
            apart(a@, b@, i as int, j as int),
            i == a@.len(),
            differs_to(a@, b@, i as int, j as int, d),
            out@ == old(out)@ + d,
        decreases b@.len() - j,
    {
        out.push(b[j]);
        proof {
            lemma_apart_swap(a@, b@, i as int, j as int);
            lemma_not_taken(b@, a@, j as int, i as int);
            lemma_differs_swap(a@, b@, i as int, j as int, d);
            lemma_differs_push(b@, a@, j as int, i as int, d);
            d = d.push(b@[j as int]);
            lemma_differs_swap(b@, a@, j + 1, i as int, d);
            assert(out@ =~= old(out)@ + d);
        }
        j += 1;
    }
    proof {
        assert(a@.take(a@.len() as int) =~= a@);
        assert(b@.take(b@.len() as int) =~= b@);
        assert(out@.take(start) =~= old(out)@);
        assert(out@.skip(start) =~= d);
    }
}

/// Largest number of positions a [`Position`] can address.
pub const MAX_SPAN: u64 = 0x1_0000_0000;

/// A store of sparse term keys, one row per term.
///
/// Row `i` occupies `positions[row_offsets[i]..row_offsets[i + 1]]`.
pub struct SparseRows {
    row_offsets: Vec<usize>,
    positions: Vec<Position>,
    /// Buffers for rebuilding the store, kept between rebuilds.
    aux_offsets: Vec<usize>,
    aux_positions: Vec<Position>,
    stride: usize,
    plane_span: usize,
}

/// `offsets` cuts a run of positions into rows.
spec fn cuts(offsets: Seq<usize>, positions: Seq<u32>) -> bool {
    &&& offsets.len() > 0
    &&& offsets[0] == 0
    &&& offsets[offsets.len() - 1] == positions.len()
    &&& forall|i: int, j: int|
        0 <= i <= j < offsets.len() ==> #[trigger] offsets[i] <= #[trigger] offsets[j]
}

/// The rows that `offsets` cuts a run of positions into.
spec fn rows_cut(offsets: Seq<usize>, positions: Seq<u32>) -> Seq<Seq<u32>> {
    Seq::new(
        (offsets.len() - 1) as nat,
        |i: int| positions.subrange(offsets[i] as int, offsets[i + 1] as int),
    )
}

/// Appending a run and its end appends a row.
proof fn lemma_cut_push(offsets: Seq<usize>, positions: Seq<u32>, row: Seq<u32>)
    requires
        cuts(offsets, positions),
        positions.len() + row.len() <= usize::MAX,
    ensures
        cuts(offsets.push((positions.len() + row.len()) as usize), positions + row),
        rows_cut(offsets.push((positions.len() + row.len()) as usize), positions + row)
            == rows_cut(offsets, positions).push(row),
{
    let end = (positions.len() + row.len()) as usize;
    let o2 = offsets.push(end);
    let p2 = positions + row;
    assert forall|i: int, j: int| 0 <= i <= j < o2.len() implies #[trigger] o2[i]
        <= #[trigger] o2[j] by {
        if j == offsets.len() {
            if i < offsets.len() {
                assert(offsets[i] <= offsets[offsets.len() - 1]);
            }
        }
    }
    let before = rows_cut(offsets, positions);
    let after = rows_cut(o2, p2);
    assert forall|i: int| 0 <= i < after.len() implies #[trigger] after[i] == before.push(row)[i] by {
        if i < before.len() {
            assert(offsets[i] <= offsets[i + 1]);
            assert(offsets[i + 1] <= offsets[offsets.len() - 1]);
            assert(after[i] =~= before[i]);
        } else {
            assert(after[i] =~= row);
        }
    }
    assert(after =~= before.push(row));
}

/// `out` may come of handing row `i` to `f`.
pub open spec fn derived<F: Fn(usize, &[Position]) -> Vec<Position>>(
    f: F,
    i: int,
    row: Seq<u32>,
    out: Seq<u32>,
) -> bool {
    exists|x: usize, s: &[Position], v: Vec<Position>|
        x == i && s@ == row && v@ == out && #[trigger] call_ensures(f, (x, s), v)
}

/// How many of the first `i` flags are raised.
pub open spec fn rank(flags: Seq<u32>, i: int) -> nat {
    bits::ones(Seq::new(i as nat, |x: int| flags[x] != 0))
}

/// The rows whose flag is raised, in order, among the first `n`.
pub open spec fn flagged<T>(rows: Seq<T>, flags: Seq<u32>, n: int) -> Seq<T>
    decreases n,
{
    if n <= 0 {
        Seq::empty()
    } else if flags[n - 1] != 0 {
        flagged(rows, flags, n - 1).push(rows[n - 1])
    } else {
        flagged(rows, flags, n - 1)
    }
}

/// Entry `j` of the flagged rows is the row of rank `j`.
pub open spec fn stands_at<T>(rows: Seq<T>, flags: Seq<u32>, n: int, j: int) -> bool {
    exists|i: int|
        0 <= i < n && flags[i] != 0 && rank(flags, i) == j && flagged(rows, flags, n)[j]
            == #[trigger] rows[i]
}

/// Row `i` stands at its rank among the flagged rows.
pub open spec fn ranked<T>(rows: Seq<T>, flags: Seq<u32>, n: int, i: int) -> bool {
    rank(flags, i) < rank(flags, n) && flagged(rows, flags, n)[rank(flags, i) as int] == rows[i]
}

/// The rows whose flag is raised stand at their rank.
pub proof fn lemma_flagged<T>(rows: Seq<T>, flags: Seq<u32>, n: int)
    requires
        0 <= n <= rows.len(),
        n <= flags.len(),
    ensures
        flagged(rows, flags, n).len() == rank(flags, n),
        rank(flags, n) <= n,
        forall|i: int|
            0 <= i < n && flags[i] != 0 ==> #[trigger] ranked(rows, flags, n, i),
        forall|j: int|
            0 <= j < rank(flags, n) ==> #[trigger] stands_at(rows, flags, n, j),
    decreases n,
{
    if n > 0 {
        lemma_flagged(rows, flags, n - 1);
        lemma_rank_step(flags, n - 1);
        let all = flagged(rows, flags, n);
        let rest = flagged(rows, flags, n - 1);
        assert forall|i: int| 0 <= i < n && flags[i] != 0 implies #[trigger] ranked(
            rows,
            flags,
            n,
            i,
        ) by {
            if i < n - 1 {
                assert(ranked(rows, flags, n - 1, i));
            }
        }
        assert forall|j: int| 0 <= j < rank(flags, n) implies stands_at(rows, flags, n, j) by {
            if j < rest.len() {
                assert(stands_at(rows, flags, n - 1, j));
                let i = choose|i: int|
                    0 <= i < n - 1 && flags[i] != 0 && rank(flags, i) == j && rest[j]
                        == #[trigger] rows[i];
                assert(all[j] == rows[i]);
            } else {
                assert(all[j] == rows[n - 1]);
            }
        }
    } else {
        assert(Seq::new(0, |x: int| flags[x] != 0) =~= Seq::<bool>::empty());
    }
}

/// If as many flags are raised as there are, all rows stay.
pub proof fn lemma_all_flagged<T>(rows: Seq<T>, flags: Seq<u32>, n: int)
    requires
        0 <= n <= rows.len(),
        n <= flags.len(),
        rank(flags, n) == n,
    ensures
        flagged(rows, flags, n) == rows.take(n),
    decreases n,
{
    if n > 0 {
        lemma_flagged(rows, flags, n - 1);
        lemma_rank_step(flags, n - 1);
        lemma_all_flagged(rows, flags, n - 1);
        assert(rows.take(n) =~= rows.take(n - 1).push(rows[n - 1]));
    } else {
        assert(rows.take(0) =~= Seq::<T>::empty());
    }
}

/// One more flag raises the rank if it is raised.
pub proof fn lemma_rank_step(flags: Seq<u32>, i: int)
    requires
        0 <= i < flags.len(),
    ensures
        rank(flags, i + 1) == rank(flags, i) + (if flags[i] != 0 {
            1nat
        } else {
            0nat
        }),
        rank(flags, 0) == 0,
{
    assert(Seq::new((i + 1) as nat, |x: int| flags[x] != 0).drop_last() =~= Seq::new(
        i as nat,
        |x: int| flags[x] != 0,
    ));
    assert(Seq::new(0, |x: int| flags[x] != 0) =~= Seq::<bool>::empty());
}

/// Row `j`'s derived row stands past the rows, at row `j`'s rank.
spec fn sprouted<F: Fn(usize, &[Position]) -> Vec<Position>>(
    f: F,
    rows: Seq<Seq<u32>>,
    now: Seq<Seq<u32>>,
    flags: Seq<u32>,
    j: int,
) -> bool {
    derived(f, j, rows[j], now[(rows.len() + rank(flags, j)) as int])
}

impl SparseRows {
    /// The rows, in order.
    pub closed spec fn rows(&self) -> Seq<Seq<u32>> {
        rows_cut(self.row_offsets@, self.positions@)
    }

    /// Words one plane of a decoded row takes.
    pub closed spec fn words(&self) -> nat {
        self.stride as nat
    }

    /// Positions between the two planes.
    pub closed spec fn span(&self) -> nat {
        self.plane_span as nat
    }

    /// How many positions the rows hold together.
    pub open spec fn total(&self) -> nat {
        sums::sum_to(|i: int| self.rows()[i].len(), self.rows().len() as int)
    }

    /// The rows hold all positions stored.
    proof fn lemma_total(&self, n: int)
        requires
            self.wf(),
            0 <= n <= self.rows().len(),
        ensures
            sums::sum_to(|i: int| self.rows()[i].len(), n) == self.row_offsets@[n],
            self.row_offsets@.len() == self.rows().len() + 1,
            self.row_offsets@[self.rows().len() as int] == self.positions@.len(),
        decreases n,
    {
        if n > 0 {
            self.lemma_total(n - 1);
            assert(self.row_offsets@[n - 1] <= self.row_offsets@[n]);
        }
    }

    /// Row `i`'s key.
    pub open spec fn key(&self, i: int) -> Seq<bool> {
        key_in(self.rows()[i], 2 * self.span())
    }

    /// The rows' keys, in order.
    pub open spec fn keys(&self) -> Seq<Seq<bool>> {
        Seq::new(self.rows().len(), |i: int| self.key(i))
    }

    closed spec fn sized(&self) -> bool {
        &&& self.plane_span == 64 * self.stride
        &&& 2 * self.plane_span <= u32::MAX + 1
        &&& 2 * self.plane_span <= usize::MAX
    }

    /// Every row is strictly ascending and within the two planes.
    pub closed spec fn wf(&self) -> bool {
        &&& self.sized()
        &&& cuts(self.row_offsets@, self.positions@)
        &&& forall|i: int|
            0 <= i < self.rows().len() ==> orderly(#[trigger] self.rows()[i], 2 * self.plane_span)
    }

    /// What a well-formed store promises.
    pub proof fn lemma_wf(&self)
        requires
            self.wf(),
        ensures
            self.span() == 64 * self.words(),
            2 * self.span() <= u32::MAX + 1,
            2 * self.span() <= usize::MAX,
            forall|i: int|
                0 <= i < self.rows().len() ==> orderly(
                    #[trigger] self.rows()[i],
                    2 * self.span() as int,
                ),
            forall|i: int|
                0 <= i < self.rows().len() ==> spells(#[trigger] self.rows()[i], self.key(i)),
    {
        assert forall|i: int| 0 <= i < self.rows().len() implies spells(
            #[trigger] self.rows()[i],
            self.key(i),
        ) by {
            lemma_orderly(self.rows()[i], 2 * self.span());
        }
    }

    /// Rows are equal exactly when their keys are.
    pub proof fn law_rows_are_keys(&self, i: int, j: int)
        requires
            self.wf(),
            0 <= i < self.rows().len(),
            0 <= j < self.rows().len(),
        ensures
            self.rows()[i] == self.rows()[j] <==> self.key(i) == self.key(j),
    {
        self.lemma_wf();
        assert(spells(self.rows()[i], self.key(i)) && spells(self.rows()[j], self.key(j)));
        if self.key(i) == self.key(j) {
            lemma_same_row(self.rows()[i], self.rows()[j], self.key(i));
        }
    }

    /// Creates an empty store for terms of `stride` words per plane.
    pub fn new(stride: usize) -> (s: Self)
        requires
            128 * stride <= u32::MAX + 1,
            128 * stride <= usize::MAX,
        ensures
            s.wf(),
            s.rows() == Seq::<Seq<u32>>::empty(),
            s.words() == stride,
            s.span() == 64 * stride,
            s.total() == 0,
    {
        let mut row_offsets: Vec<usize> = Vec::new();
        row_offsets.push(0);
        let s = SparseRows {
            row_offsets,
            positions: Vec::new(),
            aux_offsets: Vec::new(),
            aux_positions: Vec::new(),
            stride,
            plane_span: 64 * stride,
        };
        proof {
            assert(s.rows() =~= Seq::<Seq<u32>>::empty());
        }
        s
    }

    /// Words one plane of a decoded row takes.
    pub fn stride(&self) -> (n: usize)
        ensures
            n == self.words(),
    {
        self.stride
    }

    /// Positions between the two planes.
    pub fn plane_span(&self) -> (n: usize)
        ensures
            n == self.span(),
    {
        self.plane_span
    }

    /// Number of stored rows.
    pub fn len(&self) -> (n: usize)
        requires
            self.wf(),
        ensures
            n == self.rows().len(),
    {
        self.row_offsets.len() - 1
    }

    /// True if no rows are stored.
    pub fn is_empty(&self) -> (r: bool)
        requires
            self.wf(),
        ensures
            r == (self.rows().len() == 0),
    {
        self.len() == 0
    }

    /// Row `i`'s ascending positions.
    pub fn row(&self, i: usize) -> (r: &[Position])
        requires
            self.wf(),
            i < self.rows().len(),
        ensures
            r@ == self.rows()[i as int],
    {
        proof {
            assert(self.row_offsets@[i as int] <= self.row_offsets@[i + 1]);
            assert(self.row_offsets@[i + 1] <= self.row_offsets@[self.row_offsets@.len() - 1]);
        }
        let n: usize = self.row_offsets.len();
        let (lo, hi): (usize, usize) = (self.row_offsets[i], self.row_offsets[i + 1]);
        slice_subrange(self.positions.as_slice(), lo, hi)
    }

    /// Number of set bits in row `i`.
    pub fn row_len(&self, i: usize) -> (n: usize)
        requires
            self.wf(),
            i < self.rows().len(),
        ensures
            n == self.rows()[i as int].len(),
            n == bits::ones(self.key(i as int)),
    {
        proof {
            assert(self.row_offsets@[i as int] <= self.row_offsets@[i + 1]);
            assert(self.row_offsets@[i + 1] <= self.row_offsets@[self.row_offsets@.len() - 1]);
            self.lemma_wf();
            lemma_spells(self.rows()[i as int], self.key(i as int));
        }
        let n: usize = self.row_offsets.len();
        self.row_offsets[i + 1] - self.row_offsets[i]
    }

    /// Positions stored over all rows.
    pub fn total_positions(&self) -> (n: usize)
        requires
            self.wf(),
        ensures
            n == self.total(),
    {
        proof {
            self.lemma_total(self.rows().len() as int);
        }
        self.positions.len()
    }

    /// Drops every row.
    pub fn clear(&mut self)
        requires
            old(self).wf(),
        ensures
            final(self).wf(),
            final(self).rows() == Seq::<Seq<u32>>::empty(),
            final(self).total() == 0,
            final(self).words() == old(self).words(),
            final(self).span() == old(self).span(),
    {
        self.row_offsets.truncate(1);
        self.positions.clear();
        proof {
            assert(self.rows() =~= Seq::<Seq<u32>>::empty());
        }
    }

    /// Closes the row made of the positions past the last one.
    fn close_row(&mut self, Ghost(was): Ghost<Self>, Ghost(row): Ghost<Seq<u32>>)
        requires
            was.wf(),
            old(self).sized(),
            old(self).row_offsets == was.row_offsets,
            old(self).positions@ == was.positions@ + row,
            old(self).plane_span == was.plane_span,
            orderly(row, 2 * was.plane_span),
        ensures
            final(self).wf(),
            final(self).rows() == was.rows().push(row),
            final(self).words() == old(self).words(),
            final(self).span() == old(self).span(),
    {
        self.row_offsets.push(self.positions.len());
        proof {
            lemma_cut_push(was.row_offsets@, was.positions@, row);
            assert(self.rows() == was.rows().push(row));
            assert forall|i: int| 0 <= i < self.rows().len() implies orderly(
                #[trigger] self.rows()[i],
                2 * self.plane_span,
            ) by {
                if i < was.rows().len() {
                    assert(self.rows()[i] == was.rows()[i]);
                }
            }
        }
    }

    /// Appends one row encoded from its two word planes.
    pub fn push_planes(&mut self, planes: [&[u64]; 2])
        requires
            old(self).wf(),
            planes[0]@.len() <= old(self).words(),
            planes[1]@.len() <= old(self).words(),
        ensures
            final(self).wf(),
            final(self).words() == old(self).words(),
            final(self).span() == old(self).span(),
            final(self).rows().len() == old(self).rows().len() + 1,
            final(self).rows().drop_last() == old(self).rows(),
            spells(
                final(self).rows().last(),
                key_of(planes[0]@, planes[1]@, old(self).span()),
            ),
            final(self).key(old(self).rows().len() as int) == key_of(
                planes[0]@,
                planes[1]@,
                old(self).span(),
            ),
    {
        let ghost was = *self;
        let ghost key = key_of(planes[0]@, planes[1]@, self.span());
        encode_planes_into(planes, self.plane_span, &mut self.positions);
        let ghost row = self.positions@.skip(was.positions@.len() as int);
        proof {
            assert(self.positions@ =~= was.positions@ + row);
            lemma_spells(row, key);
        }
        self.close_row(Ghost(was), Ghost(row));
        proof {
            assert(self.rows().drop_last() =~= was.rows());
        }
    }

    /// Appends one row from an ascending run of positions.
    pub fn push_row(&mut self, row: &[Position])
        requires
            old(self).wf(),
            orderly(row@, 2 * old(self).span() as int),
        ensures
            final(self).wf(),
            final(self).words() == old(self).words(),
            final(self).span() == old(self).span(),
            final(self).rows() == old(self).rows().push(row@),
    {
        let ghost was = *self;
        push_run(row, 0, row.len(), &mut self.positions);
        proof {
            assert(row@.subrange(0, row@.len() as int) =~= row@);
        }
        self.close_row(Ghost(was), Ghost(row@));
    }

    /// Appends a copy of row `i` of `src`.
    pub fn copy_row(&mut self, src: &SparseRows, i: usize)
        requires
            old(self).wf(),
            src.wf(),
            src.span() == old(self).span(),
            i < src.rows().len(),
        ensures
            final(self).wf(),
            final(self).words() == old(self).words(),
            final(self).span() == old(self).span(),
            final(self).rows() == old(self).rows().push(src.rows()[i as int]),
    {
        proof {
            src.lemma_wf();
        }
        self.push_row(src.row(i));
    }

    /// Decodes row `i` into two word planes.
    pub fn decode_into(&self, i: usize, x: &mut Vec<u64>, z: &mut Vec<u64>)
        requires
            self.wf(),
            i < self.rows().len(),
            holds_row(
                self.rows()[i as int],
                self.span() as int,
                old(x)@.len() as int,
                old(z)@.len() as int,
            ),
        ensures
            final(x)@.len() == old(x)@.len(),
            final(z)@.len() == old(z)@.len(),
            key_of(final(x)@, final(z)@, self.span()) == self.key(i as int),
            within_span(final(x)@, self.span() as int),
            within_span(final(z)@, self.span() as int),
    {
        proof {
            self.lemma_wf();
        }
        decode_row_into(self.row(i), self.plane_span, x, z);
    }

    /// Takes the rebuild buffers, emptied.
    fn take_aux(&mut self) -> (r: (Vec<usize>, Vec<Position>))
        ensures
            r.0@ == Seq::<usize>::empty().push(0),
            r.1@ == Seq::<u32>::empty(),
            final(self).row_offsets == old(self).row_offsets,
            final(self).positions == old(self).positions,
            final(self).stride == old(self).stride,
            final(self).plane_span == old(self).plane_span,
    {
        let mut offsets: Vec<usize> = Vec::new();
        let mut positions: Vec<Position> = Vec::new();
        std::mem::swap(&mut offsets, &mut self.aux_offsets);
        std::mem::swap(&mut positions, &mut self.aux_positions);
        offsets.clear();
        offsets.push(0);
        positions.clear();
        (offsets, positions)
    }

    /// Makes a rebuilt arena the live one, and keeps the previous one as the buffer.
    fn commit_aux(&mut self, offsets: Vec<usize>, positions: Vec<Position>)
        requires
            old(self).sized(),
            cuts(offsets@, positions@),
            forall|i: int|
                0 <= i < rows_cut(offsets@, positions@).len() ==> orderly(
                    #[trigger] rows_cut(offsets@, positions@)[i],
                    2 * old(self).plane_span,
                ),
        ensures
            final(self).wf(),
            final(self).rows() == rows_cut(offsets@, positions@),
            final(self).words() == old(self).words(),
            final(self).span() == old(self).span(),
    {
        let mut offsets = offsets;
        let mut positions = positions;
        std::mem::swap(&mut self.row_offsets, &mut offsets);
        std::mem::swap(&mut self.positions, &mut positions);
        self.aux_offsets = offsets;
        self.aux_positions = positions;
    }

    /// Keeps the rows with a nonzero flag, in their original order.
    ///
    /// `index` is the exclusive prefix sum of `flags`: survivor `i` lands at row `index[i]`.
    pub fn compact(&mut self, n: usize, flags: &[u32], index: &[usize], total: usize)
        requires
            old(self).wf(),
            n == old(self).rows().len(),
            n <= flags@.len(),
            n <= index@.len(),
            forall|i: int| 0 <= i < n ==> #[trigger] index@[i] == rank(flags@, i),
            total == rank(flags@, n as int),
        ensures
            final(self).wf(),
            final(self).words() == old(self).words(),
            final(self).span() == old(self).span(),
            final(self).rows() == flagged(old(self).rows(), flags@, n as int),
            final(self).rows().len() == total,
            forall|i: int|
                0 <= i < n && flags@[i] != 0 ==> final(self).rows()[#[trigger] index@[i] as int]
                    == old(self).rows()[i],
    {
        let ghost rows = self.rows();
        proof {
            lemma_flagged(rows, flags@, n as int);
            assert forall|i: int| 0 <= i < n && flags@[i] != 0 implies flagged(
                rows,
                flags@,
                n as int,
            )[#[trigger] index@[i] as int] == rows[i] by {
                assert(ranked(rows, flags@, n as int, i));
            }
        }
        if total == n {
            proof {
                lemma_all_flagged(rows, flags@, n as int);
                assert(rows.take(n as int) =~= rows);
            }
            return;
        }
        let (mut offsets, mut positions) = self.take_aux();
        let mut i: usize = 0;
        proof {
            assert(rows_cut(offsets@, positions@) =~= flagged(rows, flags@, 0));
        }
        while i < n
            invariant
                self.wf(),
                self.rows() == rows,
                n == rows.len(),
                n <= flags@.len(),
                i <= n,
                self.words() == old(self).words(),
                self.span() == old(self).span(),
                cuts(offsets@, positions@),
                rows_cut(offsets@, positions@) == flagged(rows, flags@, i as int),
                forall|j: int|
                    0 <= j < rows_cut(offsets@, positions@).len() ==> orderly(
                        #[trigger] rows_cut(offsets@, positions@)[j],
                        2 * self.plane_span,
                    ),
            decreases n - i,
        {
            if flags[i] != 0 {
                let ghost o0 = offsets@;
                let ghost p0 = positions@;
                let row: &[Position] = self.row(i);
                push_run(row, 0, row.len(), &mut positions);
                proof {
                    assert(row@.subrange(0, row@.len() as int) =~= row@);
                }
                offsets.push(positions.len());
                proof {
                    lemma_cut_push(o0, p0, rows[i as int]);
                    let cut = rows_cut(o0, p0);
                    assert forall|j: int| 0 <= j < rows_cut(offsets@, positions@).len() implies orderly(
                        #[trigger] rows_cut(offsets@, positions@)[j],
                        2 * self.plane_span,
                    ) by {
                        if j < cut.len() {
                            assert(rows_cut(offsets@, positions@)[j] == cut[j]);
                        } else {
                            assert(orderly(self.rows()[i as int], 2 * self.plane_span));
                        }
                    }
                }
            }
            i += 1;
        }
        self.commit_aux(offsets, positions);
    }

    /// Rebuilds every row through `f`. Row order and row count stay.
    pub fn rewrite_rows<F: Fn(usize, &[Position]) -> Vec<Position>>(&mut self, f: F)
        requires
            old(self).wf(),
            forall|i: usize, s: &[Position]|
                i < old(self).rows().len() && s@ == old(self).rows()[i as int] ==> call_requires(
                    f,
                    (i, s),
                ),
            forall|i: usize, s: &[Position], v: Vec<Position>|
                i < old(self).rows().len() && s@ == old(self).rows()[i as int] && #[trigger] call_ensures(
                    f,
                    (i, s),
                    v,
                ) ==> orderly(v@, 2 * old(self).span() as int),
        ensures
            final(self).wf(),
            final(self).words() == old(self).words(),
            final(self).span() == old(self).span(),
            final(self).rows().len() == old(self).rows().len(),
            forall|i: int|
                0 <= i < old(self).rows().len() ==> derived(
                    f,
                    i,
                    old(self).rows()[i],
                    #[trigger] final(self).rows()[i],
                ),
    {
        let ghost rows = self.rows();
        let n: usize = self.len();
        let (mut offsets, mut positions) = self.take_aux();
        let mut i: usize = 0;
        while i < n
            invariant
                self.wf(),
                self.rows() == rows,
                n == rows.len(),
                i <= n,
                self.words() == old(self).words(),
                self.span() == old(self).span(),
                forall|i: usize, s: &[Position]|
                    i < rows.len() && s@ == rows[i as int] ==> call_requires(f, (i, s)),
                forall|i: usize, s: &[Position], v: Vec<Position>|
                    i < rows.len() && s@ == rows[i as int] && #[trigger] call_ensures(f, (i, s), v)
                        ==> orderly(v@, 2 * self.plane_span),
                cuts(offsets@, positions@),
                rows_cut(offsets@, positions@).len() == i,
                forall|j: int|
                    0 <= j < i ==> derived(f, j, rows[j], #[trigger] rows_cut(offsets@, positions@)[j]),
                forall|j: int|
                    0 <= j < i ==> orderly(
                        #[trigger] rows_cut(offsets@, positions@)[j],
                        2 * self.plane_span,
                    ),
            decreases n - i,
        {
            let ghost o0 = offsets@;
            let ghost p0 = positions@;
            let row: &[Position] = self.row(i);
            let new: Vec<Position> = f(i, row);
            push_run(new.as_slice(), 0, new.len(), &mut positions);
            proof {
                assert(new@.subrange(0, new@.len() as int) =~= new@);
            }
            offsets.push(positions.len());
            proof {
                lemma_cut_push(o0, p0, new@);
                assert(derived(f, i as int, rows[i as int], new@)) by {
                    assert(call_ensures(f, (i, row), new));
                }
                let cut = rows_cut(o0, p0);
                assert forall|j: int| 0 <= j < i + 1 implies orderly(
                    #[trigger] rows_cut(offsets@, positions@)[j],
                    2 * self.plane_span,
                ) && derived(f, j, rows[j], rows_cut(offsets@, positions@)[j]) by {
                    if j < cut.len() {
                        assert(rows_cut(offsets@, positions@)[j] == cut[j]);
                    }
                }
            }
            i += 1;
        }
        self.commit_aux(offsets, positions);
    }

    /// Appends one row for each flagged row among the first `n`, in row order: `f` derives it.
    /// The row of rank `k` becomes row `n + k`.
    pub fn append_selected<F: Fn(usize, &[Position]) -> Vec<Position>>(
        &mut self,
        n: usize,
        flags: &[u32],
        f: F,
    )
        requires
            old(self).wf(),
            n == old(self).rows().len(),
            n <= flags@.len(),
            forall|i: usize, s: &[Position]|
                i < n && flags@[i as int] != 0 && s@ == old(self).rows()[i as int]
                    ==> call_requires(f, (i, s)),
            forall|i: usize, s: &[Position], v: Vec<Position>|
                i < n && flags@[i as int] != 0 && s@ == old(self).rows()[i as int]
                    && #[trigger] call_ensures(f, (i, s), v) ==> orderly(
                    v@,
                    2 * old(self).span() as int,
                ),
        ensures
            final(self).wf(),
            final(self).words() == old(self).words(),
            final(self).span() == old(self).span(),
            final(self).rows().len() == n + rank(flags@, n as int),
            final(self).rows().take(n as int) == old(self).rows(),
            forall|i: int|
                0 <= i < n && flags@[i] != 0 ==> derived(
                    f,
                    i,
                    #[trigger] old(self).rows()[i],
                    final(self).rows()[n + rank(flags@, i)],
                ),
    {
        let ghost rows = self.rows();
        let ghost span = self.plane_span;
        let mut i: usize = 0;
        proof {
            assert(rows.take(n as int) =~= rows);
            if 0 < flags@.len() {
                lemma_rank_step(flags@, 0);
            } else {
                assert(Seq::new(0, |x: int| flags@[x] != 0) =~= Seq::<bool>::empty());
            }
        }
        while i < n
            invariant
                self.wf(),
                n == rows.len(),
                n <= flags@.len(),
                i <= n,
                span == self.plane_span,
                self.words() == old(self).words(),
                self.span() == old(self).span(),
                forall|i: usize, s: &[Position]|
                    i < n && flags@[i as int] != 0 && s@ == rows[i as int] ==> call_requires(
                        f,
                        (i, s),
                    ),
                forall|i: usize, s: &[Position], v: Vec<Position>|
                    i < n && flags@[i as int] != 0 && s@ == rows[i as int]
                        && #[trigger] call_ensures(f, (i, s), v) ==> orderly(v@, 2 * span),
                self.rows().len() == n + rank(flags@, i as int),
                self.rows().take(n as int) == rows,
                forall|j: int|
                    0 <= j < i && flags@[j] != 0 ==> rank(flags@, j) < rank(flags@, i as int)
                        && #[trigger] sprouted(f, rows, self.rows(), flags@, j),
            decreases n - i,
        {
            let ghost before = self.rows();
            proof {
                lemma_rank_step(flags@, i as int);
            }
            if flags[i] != 0 {
                proof {
                    assert(self.rows().take(n as int)[i as int] == self.rows()[i as int]);
                }
                let row: &[Position] = self.row(i);
                let new: Vec<Position> = f(i, row);
                proof {
                    assert(derived(f, i as int, rows[i as int], new@)) by {
                        assert(call_ensures(f, (i, row), new));
                    }
                }
                self.push_row(new.as_slice());
                proof {
                    assert(self.rows().take(n as int) =~= before.take(n as int));
                }
            }
            proof {
                assert forall|j: int| 0 <= j < i + 1 && flags@[j] != 0 implies rank(flags@, j)
                    < rank(flags@, i + 1) && #[trigger] sprouted(
                    f,
                    rows,
                    self.rows(),
                    flags@,
                    j,
                ) by {
                    if j < i {
                        assert(sprouted(f, rows, before, flags@, j));
                        assert(self.rows()[n + rank(flags@, j)] == before[n + rank(flags@, j)]);
                    }
                }
            }
            let ghost was = i as int;
            i += 1;
            proof {
                assert(i as int == was + 1);
                assert(rank(flags@, i as int) == rank(flags@, was + 1));
                assert forall|j: int| 0 <= j < i && flags@[j] != 0 implies rank(flags@, j) < rank(flags@, i as int) by {
                    assert(sprouted(f, rows, self.rows(), flags@, j));
                }
                assert forall|j: int| 0 <= j < i && flags@[j] != 0 implies #[trigger] sprouted(f, rows, self.rows(), flags@, j) by {
                }
            }
        }
        proof {
            assert forall|i: int| 0 <= i < n && flags@[i] != 0 implies derived(
                f,
                i,
                #[trigger] rows[i],
                self.rows()[n + rank(flags@, i)],
            ) by {
                assert(sprouted(f, rows, self.rows(), flags@, i));
            }
        }
    }

    /// Offsets and positions in the rebuild buffers.
    pub closed spec fn scratch(&self) -> (nat, nat) {
        (self.aux_offsets@.len(), self.aux_positions@.len())
    }

    /// Bytes held by the rebuild buffers. How much room they have is the allocator's choice.
    pub fn scratch_bytes(&self) -> (b: usize)
        ensures
            takes(self.scratch(), b as nat),
            b < usize::MAX,
    {
        let m: usize = operator_index::vec_capacity(&self.aux_offsets);
        let n: usize = operator_index::vec_capacity(&self.aux_positions);
        proof {
            assert(bytes_for(m as nat, n as nat) < usize::MAX);
        }
        m * core::mem::size_of::<usize>() + n * core::mem::size_of::<Position>()
    }

    /// A copy of the rows, without the buffers.
    pub fn copy(&self) -> (s: Self)
        requires
            self.wf(),
        ensures
            s.wf(),
            s.rows() == self.rows(),
            s.words() == self.words(),
            s.span() == self.span(),
    {
        let mut s = SparseRows {
            row_offsets: Vec::new(),
            positions: Vec::new(),
            aux_offsets: Vec::new(),
            aux_positions: Vec::new(),
            stride: self.stride,
            plane_span: self.plane_span,
        };
        s.row_offsets.push(0);
        let n: usize = self.len();
        let mut i: usize = 0;
        proof {
            assert(s.rows() =~= self.rows().take(0));
        }
        while i < n
            invariant
                self.wf(),
                s.wf(),
                n == self.rows().len(),
                i <= n,
                s.words() == self.words(),
                s.span() == self.span(),
                s.rows() == self.rows().take(i as int),
            decreases n - i,
        {
            s.copy_row(self, i);
            i += 1;
            proof {
                assert(s.rows() =~= self.rows().take(i as int));
            }
        }
        proof {
            assert(self.rows().take(n as int) =~= self.rows());
        }
        s
    }

    /// Bytes of resident key storage. How much room the offsets and positions have is the
    /// allocator's choice.
    pub fn memory_bytes(&self) -> (b: usize)
        requires
            self.wf(),
        ensures
            takes((self.rows().len() + 1, self.total()), b as nat),
            b < usize::MAX,
    {
        let m: usize = operator_index::vec_capacity(&self.row_offsets);
        let n: usize = operator_index::vec_capacity(&self.positions);
        proof {
            self.lemma_total(self.rows().len() as int);
            assert(bytes_for(m as nat, n as nat) < usize::MAX);
        }
        m * core::mem::size_of::<usize>() + n * core::mem::size_of::<Position>()
    }
}

/// Bytes that room for `m` offsets and `n` positions takes.
pub open spec fn bytes_for(m: nat, n: nat) -> nat {
    m * vstd::layout::size_of::<usize>() + n * vstd::layout::size_of::<Position>()
}

/// `b` bytes are what room for the offsets and positions of `least`, or for more, takes.
pub open spec fn takes(least: (nat, nat), b: nat) -> bool {
    exists|m: nat, n: nat| m >= least.0 && n >= least.1 && b == #[trigger] bytes_for(m, n)
}

/// One decoded row.
pub struct Slot {
    pub x: Vec<u64>,
    pub z: Vec<u64>,
}

/// Word planes for a bounded number of rows, owned by a kernel while it runs.
pub struct DenseWorkspace {
    slots: Vec<Slot>,
    stride: usize,
    plane_span: usize,
    bytes: usize,
}

/// `n` words, none of them set.
fn no_words(n: usize) -> (v: Vec<u64>)
    ensures
        v@.len() == n,
        forall|i: int| 0 <= i < n ==> #[trigger] v@[i] == 0,
{
    let mut v: Vec<u64> = Vec::new();
    while v.len() < n
        invariant
            v@.len() <= n,
            forall|i: int| 0 <= i < v@.len() ==> #[trigger] v@[i] == 0,
        decreases n - v@.len(),
    {
        v.push(0);
    }
    v
}

impl DenseWorkspace {
    /// The planes of each slot.
    pub closed spec fn planes(&self) -> Seq<(Seq<u64>, Seq<u64>)> {
        Seq::new(self.slots@.len(), |k: int| (self.slots@[k].x@, self.slots@[k].z@))
    }

    /// Words one plane takes.
    pub closed spec fn words(&self) -> nat {
        self.stride as nat
    }

    /// Positions between the two planes.
    pub open spec fn span(&self) -> nat {
        64 * self.words()
    }

    /// Slot `k`'s key.
    pub open spec fn key(&self, k: int) -> Seq<bool> {
        key_of(self.planes()[k].0, self.planes()[k].1, self.span())
    }

    /// Every slot holds two planes of the workspace's width.
    pub closed spec fn wf(&self) -> bool {
        &&& self.plane_span == 64 * self.stride
        &&& 2 * self.plane_span <= u32::MAX + 1
        &&& 2 * self.plane_span <= usize::MAX
        &&& self.bytes == 16 * self.stride * self.slots@.len()
        &&& forall|k: int|
            0 <= k < self.slots@.len() ==> (#[trigger] self.slots@[k]).x@.len() == self.stride
                && self.slots@[k].z@.len() == self.stride
    }

    /// Allocates planes for `rows` decoded terms of `stride` words each.
    pub fn new(stride: usize, rows: usize) -> (w: Self)
        requires
            128 * stride <= u32::MAX + 1,
            128 * stride <= usize::MAX,
            16 * stride * rows <= usize::MAX,
        ensures
            w.wf(),
            w.words() == stride,
            w.planes().len() == rows,
            forall|k: int|
                0 <= k < rows ==> (#[trigger] w.key(k)) == bits::none((2 * w.span()) as nat),
    {
        let mut slots: Vec<Slot> = Vec::new();
        while slots.len() < rows
            invariant
                slots@.len() <= rows,
                forall|k: int|
                    0 <= k < slots@.len() ==> (#[trigger] slots@[k]).x@.len() == stride
                        && slots@[k].z@.len() == stride && (forall|i: int|
                        0 <= i < stride ==> #[trigger] slots@[k].x@[i] == 0) && (forall|i: int|
                        0 <= i < stride ==> #[trigger] slots@[k].z@[i] == 0),
            decreases rows - slots@.len(),
        {
            slots.push(Slot { x: no_words(stride), z: no_words(stride) });
        }
        let w = DenseWorkspace {
            slots,
            stride,
            plane_span: 64 * stride,
            bytes: 16 * stride * rows,
        };
        proof {
            assert forall|k: int| 0 <= k < rows implies (#[trigger] w.key(k)) == bits::none(
                (2 * w.span()) as nat,
            ) by {
                let x = w.slots@[k].x@;
                let z = w.slots@[k].z@;
                assert forall|p: int| 0 <= p < 64 * stride implies !#[trigger] bits::bit_at(x, p)
                    && !bits::bit_at(z, p) by {
                    assert(x[p / 64] == 0 && z[p / 64] == 0);
                    bits::lemma_bit_zero(p % 64);
                }
                assert forall|p: int| 0 <= p < 2 * w.span() implies !w.key(k)[p] by {
                    if p >= w.span() {
                        assert(!bits::bit_at(x, p - w.span()));
                    } else {
                        assert(!bits::bit_at(x, p));
                    }
                }
                assert(w.key(k) =~= bits::none((2 * w.span()) as nat));
            }
        }
        w
    }

    /// A workspace for exactly one row.
    pub fn single_row(stride: usize) -> (w: Self)
        requires
            128 * stride <= u32::MAX + 1,
            128 * stride <= usize::MAX,
        ensures
            w.wf(),
            w.words() == stride,
            w.planes().len() == 1,
            w.key(0) == bits::none((2 * w.span()) as nat),
    {
        Self::new(stride, 1)
    }

    /// Number of rows this workspace can hold.
    pub fn capacity(&self) -> (n: usize)
        ensures
            n == self.planes().len(),
    {
        self.slots.len()
    }

    /// Bytes of word planes this workspace holds.
    pub fn memory_bytes(&self) -> (b: usize)
        requires
            self.wf(),
        ensures
            b == 16 * self.words() * self.planes().len(),
    {
        self.bytes
    }

    /// Decodes one row's positions into slot `slot`.
    pub fn load_slot_positions(&mut self, row: &[Position], slot: usize)
        requires
            old(self).wf(),
            slot < old(self).planes().len(),
            orderly(row@, 2 * old(self).span() as int),
        ensures
            final(self).wf(),
            final(self).words() == old(self).words(),
            final(self).planes().len() == old(self).planes().len(),
            final(self).key(slot as int) == key_in(row@, (2 * old(self).span()) as nat),
            forall|k: int|
                0 <= k < old(self).planes().len() && k != slot ==> #[trigger] final(self).planes()[k]
                    == old(self).planes()[k],
    {
        let mut x: Vec<u64> = Vec::new();
        let mut z: Vec<u64> = Vec::new();
        let ghost before = self.slots@;
        proof {
            assert(self.slots@[slot as int].x@.len() == self.stride);
        }
        std::mem::swap(&mut x, &mut self.slots[slot].x);
        std::mem::swap(&mut z, &mut self.slots[slot].z);
        decode_row_into(row, self.plane_span, &mut x, &mut z);
        std::mem::swap(&mut x, &mut self.slots[slot].x);
        std::mem::swap(&mut z, &mut self.slots[slot].z);
        proof {
            assert forall|k: int| 0 <= k < before.len() && k != slot implies #[trigger] self.slots@[k]
                == before[k] by {}
        }
    }

    /// Decodes row `i` of `rows` into slot `slot`.
    pub fn load_slot(&mut self, rows: &SparseRows, i: usize, slot: usize)
        requires
            old(self).wf(),
            rows.wf(),
            rows.words() == old(self).words(),
            i < rows.rows().len(),
            slot < old(self).planes().len(),
        ensures
            final(self).wf(),
            final(self).words() == old(self).words(),
            final(self).planes().len() == old(self).planes().len(),
            final(self).key(slot as int) == rows.key(i as int),
            forall|k: int|
                0 <= k < old(self).planes().len() && k != slot ==> #[trigger] final(self).planes()[k]
                    == old(self).planes()[k],
    {
        proof {
            rows.lemma_wf();
        }
        self.load_slot_positions(rows.row(i), slot);
    }

    /// Decodes `len` rows from `start` on into the first slots.
    pub fn load(&mut self, rows: &SparseRows, start: usize, len: usize)
        requires
            old(self).wf(),
            rows.wf(),
            rows.words() == old(self).words(),
            start + len <= rows.rows().len(),
            len <= old(self).planes().len(),
        ensures
            final(self).wf(),
            final(self).words() == old(self).words(),
            final(self).planes().len() == old(self).planes().len(),
            forall|k: int| 0 <= k < len ==> #[trigger] final(self).key(k) == rows.key(start + k),
            forall|k: int|
                len <= k < old(self).planes().len() ==> #[trigger] final(self).planes()[k] == old(self).planes()[k],
    {
        let mut k: usize = 0;
        let n: usize = rows.len();
        while k < len
            invariant
                self.wf(),
                rows.wf(),
                n == rows.rows().len(),
                rows.words() == self.words(),
                self.words() == old(self).words(),
                start + len <= n,
                len <= self.planes().len(),
                self.planes().len() == old(self).planes().len(),
                k <= len,
                forall|j: int| 0 <= j < k ==> #[trigger] self.key(j) == rows.key(start + j),
                forall|j: int|
                    k <= j < self.planes().len() ==> #[trigger] self.planes()[j] == old(self).planes()[j],
            decreases len - k,
        {
            let ghost before = *self;
            self.load_slot(rows, start + k, k);
            proof {
                assert forall|j: int| 0 <= j < k + 1 implies #[trigger] self.key(j) == rows.key(
                    start + j,
                ) by {
                    if j < k {
                        assert(self.planes()[j] == before.planes()[j]);
                        assert(before.key(j) == rows.key(start + j));
                    }
                }
            }
            k += 1;
        }
    }

    /// Slot `k`'s word planes.
    pub fn row(&self, k: usize) -> (r: [&[u64]; 2])
        requires
            self.wf(),
            k < self.planes().len(),
        ensures
            r[0]@ == self.planes()[k as int].0,
            r[1]@ == self.planes()[k as int].1,
            r[0]@.len() == self.words(),
            r[1]@.len() == self.words(),
    {
        proof {
            assert(self.slots@[k as int].x@.len() == self.stride);
        }
        [self.slots[k].x.as_slice(), self.slots[k].z.as_slice()]
    }

    /// Takes slot `k`'s planes out; [`DenseWorkspace::put_slot`] puts them back.
    pub fn take_slot(&mut self, k: usize) -> (s: Slot)
        requires
            old(self).wf(),
            k < old(self).planes().len(),
        ensures
            s.x@.len() == old(self).words(),
            s.z@.len() == old(self).words(),
            (s.x@, s.z@) == old(self).planes()[k as int],
            final(self).words() == old(self).words(),
            final(self).wf(),
            final(self).planes().len() == old(self).planes().len(),
            forall|j: int|
                0 <= j < old(self).planes().len() && j != k ==> #[trigger] final(self).planes()[j]
                    == old(self).planes()[j],
    {
        let ghost before = self.slots@;
        proof {
            assert(self.slots@[k as int].x@.len() == self.stride);
        }
        let mut s = Slot { x: no_words(self.stride), z: no_words(self.stride) };
        std::mem::swap(&mut s, &mut self.slots[k]);
        proof {
            assert forall|j: int| 0 <= j < before.len() && j != k implies #[trigger] self.slots@[j]
                == before[j] by {}
        }
        s
    }

    /// Puts planes into slot `k`.
    pub fn put_slot(&mut self, k: usize, s: Slot)
        requires
            old(self).wf(),
            k < old(self).planes().len(),
            s.x@.len() == old(self).words(),
            s.z@.len() == old(self).words(),
        ensures
            final(self).wf(),
            final(self).words() == old(self).words(),
            final(self).planes() == old(self).planes().update(k as int, (s.x@, s.z@)),
    {
        self.slots.set(k, s);
        proof {
            assert(self.planes() =~= old(self).planes().update(k as int, (s.x@, s.z@)));
        }
    }

    /// Appends slot `k`'s set positions to `out`, ascending.
    pub fn encode_row_into(&self, k: usize, out: &mut Vec<Position>)
        requires
            self.wf(),
            k < self.planes().len(),
        ensures
            appended(old(out)@, final(out)@, self.key(k as int)),
    {
        encode_planes_into(self.row(k), self.plane_span, out);
    }
}

/// Bytes of workspace held live, and the most ever held at once.
#[derive(Clone, Copy)]
pub struct WorkspaceMeter {
    live: usize,
    peak: usize,
}

impl WorkspaceMeter {
    /// Bytes held now.
    pub closed spec fn held(&self) -> nat {
        self.live as nat
    }

    /// The most ever held at once since the last reset.
    pub closed spec fn highest(&self) -> nat {
        self.peak as nat
    }

    /// The peak is no lower than what is held.
    pub closed spec fn wf(&self) -> bool {
        self.live <= self.peak
    }

    /// Nothing held.
    pub fn new() -> (m: Self)
        ensures
            m.wf(),
            m.held() == 0,
            m.highest() == 0,
    {
        WorkspaceMeter { live: 0, peak: 0 }
    }

    /// Records `bytes` becoming live.
    pub fn workspace_acquire(&mut self, bytes: usize)
        requires
            old(self).wf(),
            old(self).held() + bytes <= usize::MAX,
        ensures
            final(self).wf(),
            final(self).held() == old(self).held() + bytes,
            final(self).highest() == (if old(self).held() + bytes > old(self).highest() {
                old(self).held() + bytes
            } else {
                old(self).highest() as int
            }),
    {
        self.live = self.live + bytes;
        if self.live > self.peak {
            self.peak = self.live;
        }
    }

    /// Records `bytes` being released.
    pub fn workspace_release(&mut self, bytes: usize)
        requires
            old(self).wf(),
            bytes <= old(self).held(),
        ensures
            final(self).wf(),
            final(self).held() == old(self).held() - bytes,
            final(self).highest() == old(self).highest(),
    {
        self.live = self.live - bytes;
    }

    /// The most ever held at once.
    pub fn workspace_peak_bytes(&self) -> (b: usize)
        ensures
            b == self.highest(),
    {
        self.peak
    }

    /// Lowers the high-water mark to what is held now.
    pub fn reset_workspace_peak(&mut self)
        ensures
            final(self).wf(),
            final(self).held() == old(self).held(),
            final(self).highest() == old(self).held(),
    {
        self.peak = self.live;
    }
}

/// Encoding and decoding are inverse: planes that a row was encoded from are the planes it
/// decodes to.
pub proof fn law_rows_round_trip(
    x: Seq<u64>,
    z: Seq<u64>,
    row: Seq<u32>,
    x_back: Seq<u64>,
    z_back: Seq<u64>,
    span: nat,
)
    requires
        2 * span <= u32::MAX + 1,
        span == 64 * x.len(),
        span == 64 * z.len(),
        spells(row, key_of(x, z, span)),
        x_back.len() == x.len(),
        z_back.len() == z.len(),
        key_of(x_back, z_back, span) == key_in(row, 2 * span),
    ensures
        x_back == x,
        z_back == z,
{
    let key = key_of(x, z, span);
    let back = key_of(x_back, z_back, span);
    lemma_spells(row, key);
    assert forall|p: int| 0 <= p < 64 * x.len() implies bits::bit_at(x, p) == bits::bit_at(
        x_back,
        p,
    ) by {
        assert(key[p] == back[p]);
    }
    assert forall|p: int| 0 <= p < 64 * z.len() implies bits::bit_at(z, p) == bits::bit_at(
        z_back,
        p,
    ) by {
        assert(key[span + p] == back[span + p]);
    }
    bits::lemma_words_ext(x, x_back);
    bits::lemma_words_ext(z, z_back);
}

/// Putting a word pair back where it was read leaves the row as it was.
pub proof fn law_splicing_back_changes_nothing(
    row: Seq<u32>,
    span: nat,
    word: nat,
    pair: [u64; 2],
    out: Seq<u32>,
)
    requires
        orderly(row, 2 * span as int),
        2 * span <= u32::MAX + 1,
        64 * word + 64 <= span,
        forall|b: int|
            0 <= b < 64 ==> #[trigger] bits::bit(pair[0], b) == row.contains(
                (64 * word + b) as u32,
            ),
        forall|b: int|
            0 <= b < 64 ==> #[trigger] bits::bit(pair[1], b) == row.contains(
                (span + 64 * word + b) as u32,
            ),
        spells(out, spliced(key_in(row, 2 * span), span as int, word as int, pair)),
    ensures
        out == row,
{
    let key = key_in(row, 2 * span);
    let new = spliced(key, span as int, word as int, pair);
    assert forall|p: int| 0 <= p < key.len() implies #[trigger] new[p] == key[p] by {
        if 64 * word <= p < 64 * word + 64 {
            assert(bits::bit(pair[0], p - 64 * word) == row.contains(p as u32));
        } else if span + 64 * word <= p < span + 64 * word + 64 {
            assert(bits::bit(pair[1], p - span - 64 * word) == row.contains(p as u32));
        }
    }
    assert(new =~= key);
    lemma_orderly(row, 2 * span);
    lemma_same_row(out, row, key);
}

/// How many of the first `n` entries of a row are in another, as a set.
proof fn lemma_common_set(a: Seq<u32>, b: Seq<u32>, n: int)
    requires
        ascending(a),
        0 <= n <= a.len(),
    ensures
        bits::ones(Seq::new(n as nat, |i: int| b.contains(a[i]))) == a.take(n).to_set().intersect(
            b.to_set(),
        ).len(),
        a.take(n).to_set().intersect(b.to_set()).finite(),
    decreases n,
{
    let hits = Seq::new(n as nat, |i: int| b.contains(a[i]));
    let now = a.take(n).to_set().intersect(b.to_set());
    if n > 0 {
        lemma_common_set(a, b, n - 1);
        let was = a.take(n - 1).to_set().intersect(b.to_set());
        let v = a[n - 1];
        let (head, all) = (a.take(n - 1), a.take(n));
        assert(hits.drop_last() =~= Seq::new((n - 1) as nat, |i: int| b.contains(a[i])));
        assert(all =~= head.push(v));
        assert(!head.contains(v)) by {
            if head.contains(v) {
                let i = choose|i: int| 0 <= i < n - 1 && head[i] == v;
                assert(a[i] < a[n - 1]);
            }
        }
        assert(all.contains(v)) by {
            assert(all[n - 1] == v);
        }
        assert forall|x: u32| all.contains(x) <==> head.contains(x) || x == v by {
            if all.contains(x) && x != v {
                let i = choose|i: int| 0 <= i < n && all[i] == x;
                assert(head[i] == x);
            }
            if head.contains(x) {
                let i = choose|i: int| 0 <= i < n - 1 && head[i] == x;
                assert(all[i] == x);
            }
        }
        if b.contains(v) {
            assert(now =~= was.insert(v));
        } else {
            assert(now =~= was);
        }
    } else {
        assert(now =~= Set::<u32>::empty());
        assert(hits =~= Seq::<bool>::empty());
    }
}

/// The entries two rows have in common are those of the intersection of the two as sets.
pub proof fn law_common_is_the_intersection(a: Seq<u32>, b: Seq<u32>)
    requires
        ascending(a),
    ensures
        common(a, b) == a.to_set().intersect(b.to_set()).len(),
{
    lemma_common_set(a, b, a.len() as int);
    assert(a.take(a.len() as int) =~= a);
}

/// A row lowered by a shift has each of its entries that much lower.
pub proof fn law_lowering_shifts(row: Seq<u32>, shift: int, i: int)
    requires
        0 <= i < row.len(),
        0 <= shift <= row[i],
    ensures
        lowered(row, shift).len() == row.len(),
        lowered(row, shift)[i] + shift == row[i],
{
}

/// A key holds its first plane and then its second, each bit where the word that holds it has
/// it.
pub proof fn law_key_layout(x: Seq<u64>, z: Seq<u64>, span: nat, w: int, b: int)
    requires
        0 <= w,
        0 <= b < 64,
        64 * w + b < span,
    ensures
        key_of(x, z, span).len() == 2 * span,
        key_of(x, z, span)[64 * w + b] <==> w < x.len() && bits::bit(x[w], b),
        key_of(x, z, span)[span + 64 * w + b] <==> w < z.len() && bits::bit(z[w], b),
{
    let p = 64 * w + b;
    assert(p / 64 == w && p % 64 == b);
    assert(key_of(x, z, span)[p] == bits::bit_at(x, p));
    assert(key_of(x, z, span)[span + p] == bits::bit_at(z, p));
}

/// The row of a key lists exactly the key's set positions, in ascending order.
pub proof fn law_row_lists_positions(row: Seq<u32>, key: Seq<bool>, p: int)
    requires
        orderly(row, key.len() as int),
        key == key_in(row, key.len()),
        key.len() <= u32::MAX + 1,
        0 <= p < key.len(),
    ensures
        key[p] <==> exists|i: int| 0 <= i < row.len() && #[trigger] row[i] == p,
        ascending(row),
{
    if key[p] {
        let i = choose|i: int| 0 <= i < row.len() && row[i] == p as u32;
        assert(row[i] == p);
    }
}

} // verus!
