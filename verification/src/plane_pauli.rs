//! The Pauli basis over two planes: the first half of a key holds the X components, the second
//! half the Z components.

use crate::basis;
use crate::basis::{BasisKind, Phase};
use crate::bits;
use crate::bits::{Key, Whole};
use crate::pauli;
use crate::sparse;
use crate::sparse::Position;
use crate::store;
use crate::store::SoaBasis;
use vstd::prelude::*;

verus! {

/// The X components of a key.
pub open spec fn xs(k: Seq<bool>) -> Seq<bool> {
    k.take(k.len() as int / 2)
}

/// The Z components of a key.
pub open spec fn zs(k: Seq<bool>) -> Seq<bool> {
    k.skip(k.len() as int / 2)
}

/// How many qubits two strings clash on: an X component of one on a Z component of the other.
pub open spec fn clashes(
    tx: Seq<bool>,
    tz: Seq<bool>,
    gx: Seq<bool>,
    gz: Seq<bool>,
) -> nat {
    bits::ones(bits::both(tx, gz)) + bits::ones(bits::both(tz, gx))
}

/// The exponent of the imaginary unit in the product of the generator and the term.
pub open spec fn quarters(
    tx: Seq<bool>,
    tz: Seq<bool>,
    gx: Seq<bool>,
    gz: Seq<bool>,
) -> int {
    bits::ones(bits::both(gx, gz)) + bits::ones(bits::both(tx, tz)) - bits::ones(
        bits::both(bits::xor(tx, gx), bits::xor(tz, gz)),
    ) + 2 * bits::ones(bits::both(gz, tx))
}

/// The generator has a bit in word `w`, and none elsewhere.
pub open spec fn sole_word(g: Seq<bool>, w: int) -> bool {
    let span = g.len() as int / 2;
    &&& 0 <= w
    &&& 64 * w + 64 <= span
    &&& exists|p: int| 64 * w <= p < 64 * w + 64 && (#[trigger] xs(g)[p] || zs(g)[p])
    &&& forall|p: int|
        0 <= p < span && !(64 * w <= p < 64 * w + 64) ==> !(#[trigger] xs(g)[p]) && !zs(g)[p]
}

/// The diagonal expectation of a key: nothing if it flips a qubit, else the parity of its Z
/// components on the occupied qubits.
pub open spec fn plane_trace(t: Seq<bool>, fock: Seq<u64>) -> i8 {
    if bits::ones(xs(t)) > 0 {
        0
    } else if bits::odd(Seq::new(zs(t).len(), |k: int| zs(t)[k] && bits::bit_at(fock, k))) {
        -1i8
    } else {
        1
    }
}

/// The set positions of a key, as a row lists them.
pub open spec fn row_of(t: Seq<bool>) -> Seq<u32> {
    Seq::new(bits::set_positions(t).len(), |i: int| bits::set_positions(t)[i] as u32)
}

/// The planes of a key made of words.
proof fn lemma_planes(x: Seq<u64>, z: Seq<u64>)
    requires
        x.len() == z.len(),
    ensures
        ({
            let k = sparse::key_of(x, z, 64 * x.len());
            &&& k.len() == 128 * x.len()
            &&& xs(k) == bits::bits_of(x)
            &&& zs(k) == bits::bits_of(z)
        }),
{
    let k = sparse::key_of(x, z, 64 * x.len());
    assert(xs(k) =~= bits::bits_of(x));
    assert(zs(k) =~= bits::bits_of(z));
}

/// Counting one more word of a run of words.
proof fn lemma_count_step(a: Seq<u64>, b: Seq<u64>, i: int)
    requires
        0 <= i < a.len(),
        a.len() == b.len(),
    ensures
        bits::ones(bits::both(bits::bits_of(a.take(i + 1)), bits::bits_of(b.take(i + 1))))
            == bits::ones(bits::both(bits::bits_of(a.take(i)), bits::bits_of(b.take(i))))
            + bits::ones(bits::word_bits(a[i] & b[i])),
{
    let ta = a.take(i + 1);
    let tb = b.take(i + 1);
    bits::lemma_bits_of_push(ta);
    bits::lemma_bits_of_push(tb);
    assert(ta.drop_last() =~= a.take(i));
    assert(tb.drop_last() =~= b.take(i));
    let ha = bits::bits_of(a.take(i));
    let hb = bits::bits_of(b.take(i));
    let w = bits::word_bits(a[i] & b[i]);
    assert forall|j: int| 0 <= j < 64 implies #[trigger] w[j] == (bits::word_bits(a[i])[j]
        && bits::word_bits(b[i])[j]) by {
        bits::lemma_bit_ops(a[i], b[i], j);
    }
    assert(bits::both(ha + bits::word_bits(a[i]), hb + bits::word_bits(b[i])) =~= bits::both(
        ha,
        hb,
    ) + w);
    bits::lemma_ones_add(bits::both(ha, hb), w);
}

/// How many bits two runs of words share, modulo four.
fn shared(a: &[u64], b: &[u64]) -> (r: u32)
    requires
        a@.len() == b@.len(),
    ensures
        r == bits::ones(bits::both(bits::bits_of(a@), bits::bits_of(b@))) % 4,
{
    let mut n: u32 = 0;
    let mut i: usize = 0;
    proof {
        assert(bits::both(bits::bits_of(a@.take(0)), bits::bits_of(b@.take(0))) =~= Seq::<
            bool,
        >::empty());
    }
    while i < a.len()
        invariant
            i <= a@.len(),
            a@.len() == b@.len(),
            n == bits::ones(
                bits::both(
                    bits::bits_of(a@.take(i as int)),
                    bits::bits_of(b@.take(i as int)),
                ),
            ) % 4,
        decreases a@.len() - i,
    {
        proof {
            lemma_count_step(a@, b@, i as int);
        }
        n = (n + bits::count_ones(a[i] & b[i])) % 4;
        i += 1;
    }
    proof {
        assert(a@.take(i as int) =~= a@);
        assert(b@.take(i as int) =~= b@);
    }
    n
}

/// A count splits at a window of 64 entries.
proof fn lemma_split(s: Seq<bool>, lo: int)
    requires
        0 <= lo,
        lo + 64 <= s.len(),
    ensures
        bits::ones(s) == bits::ones(s.take(lo)) + bits::ones(s.subrange(lo, lo + 64)) + bits::ones(
            s.skip(lo + 64),
        ),
{
    let head = s.take(lo);
    let window = s.subrange(lo, lo + 64);
    let tail = s.skip(lo + 64);
    assert(s =~= (head + window) + tail);
    bits::lemma_ones_add(head + window, tail);
    bits::lemma_ones_add(head, window);
}

/// Two lists that differ in a window only differ in count as the window does.
proof fn lemma_window(a: Seq<bool>, b: Seq<bool>, lo: int, wa: Seq<bool>, wb: Seq<bool>)
    requires
        0 <= lo,
        lo + 64 <= a.len(),
        a.len() == b.len(),
        wa.len() == 64,
        wb.len() == 64,
        forall|p: int|
            0 <= p < a.len() && !(lo <= p < lo + 64) ==> #[trigger] a[p] == b[p],
        forall|i: int| 0 <= i < 64 ==> #[trigger] wa[i] == a[lo + i],
        forall|i: int| 0 <= i < 64 ==> #[trigger] wb[i] == b[lo + i],
    ensures
        bits::ones(a) - bits::ones(b) == bits::ones(wa) - bits::ones(wb),
{
    lemma_split(a, lo);
    lemma_split(b, lo);
    assert(a.take(lo) =~= b.take(lo));
    assert(a.skip(lo + 64) =~= b.skip(lo + 64)) by {
        assert forall|i: int| 0 <= i < a.len() - lo - 64 implies #[trigger] a.skip(lo + 64)[i]
            == b.skip(lo + 64)[i] by {
            assert(a[lo + 64 + i] == b[lo + 64 + i]);
        }
    }
    assert(a.subrange(lo, lo + 64) =~= wa);
    assert(b.subrange(lo, lo + 64) =~= wb);
}

/// A list that is false outside a window counts as the window does.
proof fn lemma_inside(a: Seq<bool>, lo: int, wa: Seq<bool>)
    requires
        0 <= lo,
        lo + 64 <= a.len(),
        wa.len() == 64,
        forall|p: int| 0 <= p < a.len() && !(lo <= p < lo + 64) ==> !(#[trigger] a[p]),
        forall|i: int| 0 <= i < 64 ==> #[trigger] wa[i] == a[lo + i],
    ensures
        bits::ones(a) == bits::ones(wa),
{
    let n = bits::none(a.len());
    let nw = bits::none(64);
    lemma_window(a, n, lo, wa, nw);
    bits::lemma_ones_none(n);
    bits::lemma_ones_none(nw);
}

/// The bits of words combined are the bits combined.
proof fn lemma_word_ops(a: u64, b: u64)
    ensures
        bits::word_bits(a & b) == bits::both(bits::word_bits(a), bits::word_bits(b)),
        bits::word_bits(a ^ b) == bits::xor(bits::word_bits(a), bits::word_bits(b)),
        bits::word_bits(a | b) == bits::either(bits::word_bits(a), bits::word_bits(b)),
{
    assert forall|j: int| 0 <= j < 64 implies bits::bit(a & b, j) == (bits::bit(a, j)
        && bits::bit(b, j)) && bits::bit(a ^ b, j) == (bits::bit(a, j) != bits::bit(b, j))
        && #[trigger] bits::bit(a | b, j) == (bits::bit(a, j) || bits::bit(b, j)) by {
        bits::lemma_bit_ops(a, b, j);
    }
    assert forall|j: int| 0 <= j < 64 implies bits::word_bits(a & b)[j] == bits::both(
        bits::word_bits(a),
        bits::word_bits(b),
    )[j] && #[trigger] bits::word_bits(a ^ b)[j] == bits::xor(
        bits::word_bits(a),
        bits::word_bits(b),
    )[j] by {
        bits::lemma_bit_ops(a, b, j);
    }
    assert forall|j: int| 0 <= j < 64 implies #[trigger] bits::word_bits(a & b)[j] == bits::both(
        bits::word_bits(a),
        bits::word_bits(b),
    )[j] by {
        bits::lemma_bit_ops(a, b, j);
    }
    assert(bits::word_bits(a & b) =~= bits::both(bits::word_bits(a), bits::word_bits(b)));
    assert(bits::word_bits(a ^ b) =~= bits::xor(bits::word_bits(a), bits::word_bits(b)));
    assert(bits::word_bits(a | b) =~= bits::either(bits::word_bits(a), bits::word_bits(b)));
}

/// How many qubits two words clash on.
pub open spec fn word_clashes(t: (u64, u64), g: (u64, u64)) -> nat {
    clashes(
        bits::word_bits(t.0),
        bits::word_bits(t.1),
        bits::word_bits(g.0),
        bits::word_bits(g.1),
    )
}

/// The exponent of the imaginary unit in the product of two words.
pub open spec fn word_quarters(t: (u64, u64), g: (u64, u64)) -> int {
    quarters(
        bits::word_bits(t.0),
        bits::word_bits(t.1),
        bits::word_bits(g.0),
        bits::word_bits(g.1),
    )
}

/// A generator confined to a word clashes, and picks up phases, on that word alone.
#[verifier::spinoff_prover]
proof fn lemma_local(t: Seq<bool>, g: Seq<bool>, span: int, w: int, tw: (u64, u64), gw: (u64, u64))
    requires
        t.len() == 2 * span,
        g.len() == 2 * span,
        sole_word(g, w),
        store::held_at(t, span, w, tw),
        store::held_at(g, span, w, gw),
    ensures
        clashes(xs(t), zs(t), xs(g), zs(g)) == word_clashes(tw, gw),
        quarters(xs(t), zs(t), xs(g), zs(g)) == word_quarters(tw, gw),
{
    let lo = 64 * w;
    let (tx, tz, gx, gz) = (xs(t), zs(t), xs(g), zs(g));
    let (ax, az, bx, bz) = (
        bits::word_bits(tw.0),
        bits::word_bits(tw.1),
        bits::word_bits(gw.0),
        bits::word_bits(gw.1),
    );
    assert forall|i: int| 0 <= i < 64 implies #[trigger] ax[i] == tx[lo + i] && az[i] == tz[lo + i]
        && bx[i] == gx[lo + i] && bz[i] == gz[lo + i] by {
        assert(bits::bit(tw.0, i) == t[64 * w + i]);
        assert(bits::bit(gw.0, i) == g[64 * w + i]);
    }
    assert forall|p: int| 0 <= p < span && !(lo <= p < lo + 64) implies !(#[trigger] gx[p])
        && !gz[p] by {
        assert(!xs(g)[p]);
    }
    assert forall|i: int| 0 <= i < 64 implies #[trigger] bits::both(ax, bz)[i] == bits::both(
        tx,
        gz,
    )[lo + i] by {
        assert(ax[i] == tx[lo + i]);
    }
    assert forall|p: int| 0 <= p < span && !(lo <= p < lo + 64) implies !(#[trigger] bits::both(
        tx,
        gz,
    )[p]) by {
        assert(!gx[p]);
        assert(!gz[p]);
    }
    lemma_inside(bits::both(tx, gz), lo, bits::both(ax, bz));
    assert forall|i: int| 0 <= i < 64 implies #[trigger] bits::both(az, bx)[i] == bits::both(
        tz,
        gx,
    )[lo + i] by {
        assert(ax[i] == tx[lo + i]);
    }
    lemma_inside(bits::both(tz, gx), lo, bits::both(az, bx));
    assert forall|i: int| 0 <= i < 64 implies #[trigger] bits::both(bz, ax)[i] == bits::both(
        gz,
        tx,
    )[lo + i] by {
        assert(ax[i] == tx[lo + i]);
    }
    assert forall|p: int| 0 <= p < span && !(lo <= p < lo + 64) implies !(#[trigger] bits::both(
        gz,
        tx,
    )[p]) by {
        assert(!gx[p]);
        assert(!gz[p]);
    }
    lemma_inside(bits::both(gz, tx), lo, bits::both(bz, ax));
    assert forall|i: int| 0 <= i < 64 implies #[trigger] bits::both(bx, bz)[i] == bits::both(
        gx,
        gz,
    )[lo + i] by {
        assert(ax[i] == tx[lo + i]);
    }
    lemma_inside(bits::both(gx, gz), lo, bits::both(bx, bz));
    let was = bits::both(tx, tz);
    let now = bits::both(bits::xor(tx, gx), bits::xor(tz, gz));
    let was_word = bits::both(ax, az);
    let now_word = bits::both(bits::xor(ax, bx), bits::xor(az, bz));
    assert forall|i: int| 0 <= i < 64 implies #[trigger] was_word[i] == was[lo + i] by {
        assert(ax[i] == tx[lo + i]);
    }
    assert forall|i: int| 0 <= i < 64 implies #[trigger] now_word[i] == now[lo + i] by {
        assert(ax[i] == tx[lo + i]);
    }
    assert forall|p: int| 0 <= p < was.len() && !(lo <= p < lo + 64) implies #[trigger] was[p]
        == now[p] by {
        assert(!gx[p]);
    }
    lemma_window(was, now, lo, was_word, now_word);
}

/// A count splits into what a mask selects and what it leaves.
proof fn lemma_masked_count(s: Seq<bool>, m: Seq<bool>)
    requires
        s.len() == m.len(),
    ensures
        bits::ones(s) == bits::ones(bits::both(s, m)) + bits::ones(
            Seq::new(s.len(), |i: int| s[i] && !m[i]),
        ),
{
    let inside = bits::both(s, m);
    let outside = Seq::new(s.len(), |i: int| s[i] && !m[i]);
    bits::lemma_ones_xor(inside, outside);
    assert(bits::xor(inside, outside) =~= s);
    bits::lemma_ones_none(bits::both(inside, outside));
}

/// A generator confined to the bits of a mask clashes, and picks up phases, on those bits alone.
proof fn lemma_masked(t: (u64, u64), g: (u64, u64), mask: u64)
    requires
        store::picked(g, mask) == g,
    ensures
        word_clashes(t, g) == word_clashes(store::picked(t, mask), g),
        word_quarters(t, g) == word_quarters(store::picked(t, mask), g),
{
    let p = store::picked(t, mask);
    let m = bits::word_bits(mask);
    let (tx, tz) = (bits::word_bits(t.0), bits::word_bits(t.1));
    let (px, pz) = (bits::word_bits(p.0), bits::word_bits(p.1));
    let (gx, gz) = (bits::word_bits(g.0), bits::word_bits(g.1));
    lemma_word_ops(t.0, mask);
    lemma_word_ops(t.1, mask);
    lemma_word_ops(g.0, mask);
    lemma_word_ops(g.1, mask);
    assert forall|i: int| 0 <= i < 64 implies (#[trigger] gx[i] ==> m[i]) && (gz[i] ==> m[i]) by {
        assert(bits::both(gx, m)[i] == gx[i]);
        assert(bits::both(gz, m)[i] == gz[i]);
    }
    assert(bits::both(tx, gz) =~= bits::both(px, gz)) by {
        assert forall|i: int| 0 <= i < 64 implies bits::both(tx, gz)[i] == bits::both(px, gz)[i] by {
            assert(gx[i] ==> m[i]);
        }
    }
    assert(bits::both(gz, tx) =~= bits::both(gz, px)) by {
        assert forall|i: int| 0 <= i < 64 implies bits::both(gz, tx)[i] == bits::both(gz, px)[i] by {
            assert(gx[i] ==> m[i]);
        }
    }
    assert(bits::both(tz, gx) =~= bits::both(pz, gx)) by {
        assert forall|i: int| 0 <= i < 64 implies bits::both(tz, gx)[i] == bits::both(pz, gx)[i] by {
            assert(gx[i] ==> m[i]);
        }
    }
    let was = bits::both(tx, tz);
    let now = bits::both(bits::xor(tx, gx), bits::xor(tz, gz));
    let was_in = bits::both(px, pz);
    let now_in = bits::both(bits::xor(px, gx), bits::xor(pz, gz));
    lemma_masked_count(was, m);
    lemma_masked_count(now, m);
    assert(bits::both(was, m) =~= was_in);
    assert(bits::both(now, m) =~= now_in) by {
        assert forall|i: int| 0 <= i < 64 implies bits::both(now, m)[i] == now_in[i] by {
            assert(gx[i] ==> m[i]);
        }
    }
    assert(Seq::new(was.len(), |i: int| was[i] && !m[i]) =~= Seq::new(
        now.len(),
        |i: int| now[i] && !m[i],
    )) by {
        assert forall|i: int| 0 <= i < 64 implies (was[i] && !m[i]) == (now[i] && !m[i]) by {
            assert(gx[i] ==> m[i]);
        }
    }
}

/// At most one word is the only one.
proof fn lemma_sole_unique(g: Seq<bool>, v: int, w: int)
    requires
        sole_word(g, v),
        sole_word(g, w),
    ensures
        v == w,
{
    let p = choose|p: int| 64 * v <= p < 64 * v + 64 && (#[trigger] xs(g)[p] || zs(g)[p]);
    assert(64 * w <= p < 64 * w + 64);
}

/// Word `i` of both planes is clear.
spec fn clear_word(x: Seq<u64>, z: Seq<u64>, i: int) -> bool {
    x[i] == 0 && z[i] == 0
}

/// The first `n` words but word `w` are clear.
spec fn clear_but(x: Seq<u64>, z: Seq<u64>, n: int, w: int) -> bool {
    forall|i: int| 0 <= i < n && i != w ==> #[trigger] clear_word(x, z, i)
}

/// A word with a bit is no clear word.
proof fn lemma_word_has_bit(w: u64) -> (b: int)
    requires
        w != 0,
    ensures
        0 <= b < 64,
        bits::bit(w, b),
{
    bits::lemma_drop_lowest(w);
    vstd::std_specs::bits::u64_trailing_zeros(w) as int
}

/// The bits of a clear word, and of one that is not.
proof fn lemma_word_clear(x: Seq<u64>, z: Seq<u64>, w: int)
    requires
        x.len() == z.len(),
        0 <= w < x.len(),
    ensures
        ({
            let g = sparse::key_of(x, z, 64 * x.len());
            clear_word(x, z, w) <==> forall|p: int|
                64 * w <= p < 64 * w + 64 ==> !(#[trigger] xs(g)[p]) && !zs(g)[p]
        }),
{
    let g = sparse::key_of(x, z, 64 * x.len());
    lemma_planes(x, z);
    if x[w] == 0 && z[w] == 0 {
        assert forall|p: int| 64 * w <= p < 64 * w + 64 implies !(#[trigger] xs(g)[p])
            && !zs(g)[p] by {
            assert(p / 64 == w);
            bits::lemma_bit_zero(p % 64);
        }
    } else {
        let b = if x[w] != 0 {
            lemma_word_has_bit(x[w])
        } else {
            lemma_word_has_bit(z[w])
        };
        let p = 64 * w + b;
        assert(p / 64 == w && p % 64 == b);
        assert(xs(g)[p] || zs(g)[p]);
    }
}

/// The only word of a generator is the one whose words are not clear.
proof fn lemma_sole_words(x: Seq<u64>, z: Seq<u64>, w: int)
    requires
        x.len() == z.len(),
    ensures
        sole_word(sparse::key_of(x, z, 64 * x.len()), w) <==> {
            &&& 0 <= w < x.len()
            &&& !clear_word(x, z, w)
            &&& clear_but(x, z, x.len() as int, w)
        },
{
    let g = sparse::key_of(x, z, 64 * x.len());
    lemma_planes(x, z);
    if 0 <= w < x.len() {
        lemma_word_clear(x, z, w);
        if clear_but(x, z, x.len() as int, w) {
            assert forall|p: int| 0 <= p < 64 * x.len() && !(64 * w <= p < 64 * w + 64) implies !(
            #[trigger] xs(g)[p]) && !zs(g)[p] by {
                let i = p / 64;
                assert(64 * i <= p < 64 * i + 64);
                assert(clear_word(x, z, i));
                lemma_word_clear(x, z, i);
                let q = xs(g)[p];
                assert(!q);
            }
        }
        if sole_word(g, w) {
            assert forall|i: int| 0 <= i < x.len() && i != w implies #[trigger] clear_word(
                x,
                z,
                i,
            ) by {
                lemma_word_clear(x, z, i);
                assert forall|p: int| 64 * i <= p < 64 * i + 64 implies !(#[trigger] xs(g)[p])
                    && !zs(g)[p] by {
                    assert(!(64 * w <= p < 64 * w + 64));
                    assert(0 <= p < g.len() as int / 2);
                    let q = xs(g)[p];
                    assert(!q);
                }
            }
        }
    }
}

/// The exponent may be reduced term by term.
proof fn lemma_exponent(a: int, b: int, c: int, d: int)
    ensures
        (a % 4 + b % 4 + 2 * (d % 4) + 4 - c % 4) % 4 == (a + b - c + 2 * d) % 4,
{
}

/// One more word of the occupied Z components.
#[verifier::spinoff_prover]
proof fn lemma_occupied_word(z: Seq<u64>, fock: Seq<u64>, occupied: Seq<bool>, i: int, f: u64)
    requires
        0 <= i < z.len(),
        occupied == Seq::new(
            bits::bits_of(z).len(),
            |k: int| bits::bits_of(z)[k] && bits::bit_at(fock, k),
        ),
        f == (if i < fock.len() {
            fock[i]
        } else {
            0
        }),
    ensures
        occupied.take(64 * (i + 1)) == occupied.take(64 * i) + bits::word_bits(z[i] & f),
{
    let w = bits::word_bits(z[i] & f);
    assert forall|j: int| 0 <= j < 64 implies #[trigger] occupied[64 * i + j] == w[j] by {
        let p = 64 * i + j;
        assert(p / 64 == i && p % 64 == j);
        bits::lemma_bit_ops(z[i], f, j);
        bits::lemma_bit_zero(j);
    }
    assert forall|q: int| 0 <= q < 64 * (i + 1) implies #[trigger] occupied[q] == (occupied.take(
        64 * i,
    ) + w)[q] by {
        if q >= 64 * i {
            assert(occupied[64 * i + (q - 64 * i)] == w[q - 64 * i]);
        }
    }
    assert(occupied.take(64 * (i + 1)) =~= occupied.take(64 * i) + w);
}

/// The algebra of Pauli strings in two planes.
pub struct PlanePauli;

impl SoaBasis for PlanePauli {
    open spec fn commuting(t: Seq<bool>, g: Seq<bool>) -> bool {
        clashes(xs(t), zs(t), xs(g), zs(g)) % 2 == 0
    }

    open spec fn product_of(t: Seq<bool>, g: Seq<bool>) -> Seq<bool> {
        bits::xor(t, g)
    }

    open spec fn phase_of(t: Seq<bool>, g: Seq<bool>) -> Phase {
        basis::phase_from(quarters(xs(t), zs(t), xs(g), zs(g)))
    }

    open spec fn weight_of(t: Seq<bool>, n_units: nat) -> u32 {
        let n = bits::ones(bits::either(xs(t), zs(t)));
        if n <= u32::MAX {
            n as u32
        } else {
            u32::MAX
        }
    }

    open spec fn trace_of(t: Seq<bool>, n_units: nat, fock: Seq<u64>) -> i8 {
        plane_trace(t, fock)
    }

    open spec fn plane_hash(t: Seq<bool>) -> u64 {
        if t.len() <= u32::MAX + 1 && t.len() <= usize::MAX {
            store::fx_positions_of(row_of(t), usize::BITS as nat)
        } else {
            0
        }
    }

    open spec fn local_of(g: Seq<bool>) -> Option<int> {
        if exists|w: int| sole_word(g, w) {
            Some(choose|w: int| sole_word(g, w))
        } else {
            None
        }
    }

    open spec fn word_commuting(t: (u64, u64), g: (u64, u64)) -> bool {
        word_clashes(t, g) % 2 == 0
    }

    open spec fn word_product(t: (u64, u64), g: (u64, u64)) -> (u64, u64) {
        (t.0 ^ g.0, t.1 ^ g.1)
    }

    open spec fn word_phase(t: (u64, u64), g: (u64, u64)) -> Phase {
        basis::phase_from(word_quarters(t, g))
    }

    open spec fn kind_of() -> BasisKind {
        BasisKind::Pauli
    }

    proof fn product_len(t: Key, g: Key) {
    }

    proof fn local_law(
        t: Key,
        g: Key,
        span: Whole,
        word: Whole,
        tw: (u64, u64),
        gw: (u64, u64),
    ) {
        lemma_local(t, g, span, word, tw, gw);
        let out = sparse::spliced(t, span, word, [tw.0 ^ gw.0, tw.1 ^ gw.1]);
        assert forall|p: int| 0 <= p < t.len() implies #[trigger] bits::xor(t, g)[p] == out[p] by {
            let q = if p < span {
                p
            } else {
                p - span
            };
            if 64 * word <= q < 64 * word + 64 {
                let b = q - 64 * word;
                assert(bits::bit(tw.0, b) == t[64 * word + b]);
                assert(bits::bit(gw.0, b) == g[64 * word + b]);
                bits::lemma_bit_ops(tw.0, gw.0, b);
                bits::lemma_bit_ops(tw.1, gw.1, b);
            } else {
                assert(!xs(g)[q] && !zs(g)[q]);
            }
        }
        assert(bits::xor(t, g) =~= out);
    }

    proof fn masked_law(tw: (u64, u64), gw: (u64, u64), mask: u64) {
        lemma_masked(tw, gw, mask);
        let (a, b, c, d) = (tw.0, tw.1, gw.0, gw.1);
        assert(a ^ c == (a & !mask) | ((a & mask) ^ c) && ((a & mask) ^ c) & mask == (a & mask) ^ c)
            by (bit_vector)
            requires
                c & mask == c,
        ;
        assert(b ^ d == (b & !mask) | ((b & mask) ^ d) && ((b & mask) ^ d) & mask == (b & mask) ^ d)
            by (bit_vector)
            requires
                d & mask == d,
        ;
    }

    proof fn local_bound(g: Key, span: Whole, word: Whole) {
    }

    fn kind() -> (k: BasisKind) {
        BasisKind::Pauli
    }

    fn commutes(term: [&[u64]; 2], gen: [&[u64]; 2]) -> (r: bool) {
        proof {
            lemma_planes(term[0]@, term[1]@);
            lemma_planes(gen[0]@, gen[1]@);
        }
        let a: u32 = shared(term[0], gen[1]);
        let b: u32 = shared(term[1], gen[0]);
        (a + b) % 2 == 0
    }

    fn product(term: [&[u64]; 2], gen: [&[u64]; 2], x: &mut Vec<u64>, z: &mut Vec<u64>) -> (phase:
        Phase) {
        let n: usize = gen[0].len();
        let mut i: usize = 0;
        while i < n
            invariant
                i <= n,
                n == gen[0]@.len(),
                n == gen[1]@.len(),
                n == term[0]@.len(),
                n == term[1]@.len(),
                x@.len() == n,
                z@.len() == n,
                forall|j: int| 0 <= j < i ==> #[trigger] x@[j] == term[0]@[j] ^ gen[0]@[j],
                forall|j: int| 0 <= j < i ==> #[trigger] z@[j] == term[1]@[j] ^ gen[1]@[j],
            decreases n - i,
        {
            x.set(i, term[0][i] ^ gen[0][i]);
            z.set(i, term[1][i] ^ gen[1][i]);
            i += 1;
        }
        let plus: u32 = shared(gen[0], gen[1]) + shared(term[0], term[1]);
        let minus: u32 = shared(x.as_slice(), z.as_slice());
        let zx: u32 = shared(gen[1], term[0]);
        let q: u32 = plus + 2 * zx + 4 - minus;
        proof {
            lemma_planes(term[0]@, term[1]@);
            lemma_planes(gen[0]@, gen[1]@);
            lemma_planes(x@, z@);
            let t = sparse::key_of(term[0]@, term[1]@, 64 * gen[0]@.len());
            let g = sparse::key_of(gen[0]@, gen[1]@, 64 * gen[0]@.len());
            let out = sparse::key_of(x@, z@, 64 * gen[0]@.len());
            assert forall|p: int| 0 <= p < 64 * n implies #[trigger] xs(out)[p] == (xs(t)[p]
                != xs(g)[p]) by {
                assert(x@[p / 64] == term[0]@[p / 64] ^ gen[0]@[p / 64]);
                bits::lemma_bit_ops(term[0]@[p / 64], gen[0]@[p / 64], p % 64);
            }
            assert forall|p: int| 0 <= p < 64 * n implies #[trigger] zs(out)[p] == (zs(t)[p]
                != zs(g)[p]) by {
                assert(z@[p / 64] == term[1]@[p / 64] ^ gen[1]@[p / 64]);
                bits::lemma_bit_ops(term[1]@[p / 64], gen[1]@[p / 64], p % 64);
            }
            assert(xs(out) =~= bits::xor(xs(t), xs(g)));
            assert(zs(out) =~= bits::xor(zs(t), zs(g)));
            assert(out =~= xs(out) + zs(out));
            assert(bits::xor(t, g) =~= xs(out) + zs(out));
            lemma_exponent(
                bits::ones(bits::both(xs(g), zs(g))) as int,
                bits::ones(bits::both(xs(t), zs(t))) as int,
                bits::ones(bits::both(xs(out), zs(out))) as int,
                bits::ones(bits::both(zs(g), xs(t))) as int,
            );
        }
        Phase::from_quarters((q % 4) as u8)
    }

    fn weight(term: [&[u64]; 2], n_units: usize) -> (w: u32) {
        let n: usize = term[0].len();
        let mut w: u32 = 0;
        let mut i: usize = 0;
        proof {
            lemma_planes(term[0]@, term[1]@);
            assert(bits::either(
                bits::bits_of(term[0]@.take(0)),
                bits::bits_of(term[1]@.take(0)),
            ) =~= Seq::<bool>::empty());
        }
        while i < n
            invariant
                i <= n,
                n == term[0]@.len(),
                n == term[1]@.len(),
                ({
                    let all = bits::ones(
                        bits::either(
                            bits::bits_of(term[0]@.take(i as int)),
                            bits::bits_of(term[1]@.take(i as int)),
                        ),
                    );
                    w == (if all <= u32::MAX {
                        all
                    } else {
                        u32::MAX as nat
                    })
                }),
            decreases n - i,
        {
            proof {
                let ta = term[0]@.take(i + 1);
                let tb = term[1]@.take(i + 1);
                bits::lemma_bits_of_push(ta);
                bits::lemma_bits_of_push(tb);
                assert(ta.drop_last() =~= term[0]@.take(i as int));
                assert(tb.drop_last() =~= term[1]@.take(i as int));
                let ha = bits::bits_of(ta.drop_last());
                let hb = bits::bits_of(tb.drop_last());
                lemma_word_ops(ta.last(), tb.last());
                let wb = bits::word_bits(ta.last() | tb.last());
                assert(bits::either(bits::bits_of(ta), bits::bits_of(tb)) =~= bits::either(ha, hb)
                    + wb);
                bits::lemma_ones_add(bits::either(ha, hb), wb);
            }
            w = w.saturating_add(bits::count_ones(term[0][i] | term[1][i]));
            i += 1;
        }
        proof {
            assert(term[0]@.take(n as int) =~= term[0]@);
            assert(term[1]@.take(n as int) =~= term[1]@);
        }
        w
    }

    fn trace(term: [&[u64]; 2], n_units: usize, fock: &[u64]) -> (r: i8) {
        let n: usize = term[0].len();
        let ghost t = sparse::key_of(term[0]@, term[1]@, 64 * n as nat);
        let ghost occupied = Seq::new(zs(t).len(), |k: int| zs(t)[k] && bits::bit_at(fock@, k));
        let mut negative: bool = false;
        let mut i: usize = 0;
        proof {
            lemma_planes(term[0]@, term[1]@);
            assert(occupied.take(0) =~= Seq::<bool>::empty());
        }
        while i < n
            invariant
                i <= n,
                n == term[0]@.len(),
                n == term[1]@.len(),
                t == sparse::key_of(term[0]@, term[1]@, 64 * n as nat),
                t.len() == 128 * n,
                xs(t) == bits::bits_of(term[0]@),
                zs(t) == bits::bits_of(term[1]@),
                occupied == Seq::new(
                    zs(t).len(),
                    |k: int| zs(t)[k] && bits::bit_at(fock@, k),
                ),
                negative == bits::odd(occupied.take(64 * i)),
                forall|j: int| 0 <= j < i ==> #[trigger] term[0]@[j] == 0,
            decreases n - i,
        {
            if term[0][i] != 0 {
                proof {
                    let b = lemma_word_has_bit(term[0]@[i as int]);
                    let p = 64 * i + b;
                    assert(p / 64 == i && p % 64 == b);
                    assert(xs(t)[p]);
                    bits::lemma_ones_none(xs(t));
                }
                return 0;
            }
            let f: u64 = if i < fock.len() {
                fock[i]
            } else {
                0
            };
            proof {
                let w = bits::word_bits(term[1]@[i as int] & f);
                lemma_occupied_word(term[1]@, fock@, occupied, i as int, f);
                bits::lemma_ones_add(occupied.take(64 * i), w);
            }
            if bits::count_ones(term[1][i] & f) % 2 == 1 {
                negative = !negative;
            }
            i += 1;
        }
        proof {
            assert(occupied.take(64 * n as int) =~= occupied);
            assert forall|p: int| 0 <= p < xs(t).len() implies !(#[trigger] xs(t)[p]) by {
                assert(term[0]@[p / 64] == 0);
                bits::lemma_bit_zero(p % 64);
            }
            bits::lemma_ones_none(xs(t));
        }
        if negative {
            -1
        } else {
            1
        }
    }

    fn key_hash(term: [&[u64]; 2]) -> (h: u64) {
        let n: usize = term[0].len();
        proof {
            lemma_planes(term[0]@, term[1]@);
        }
        if n > usize::MAX / 128 || n > 0x0200_0000 {
            return 0;
        }
        let mut row: Vec<Position> = Vec::new();
        sparse::encode_planes_into(term, 64 * n, &mut row);
        proof {
            let t = sparse::key_of(term[0]@, term[1]@, 64 * n as nat);
            assert(row@.skip(0) =~= row@);
            assert forall|i: int| 0 <= i < row@.len() implies #[trigger] row@[i] == row_of(t)[i] by {
                assert(row@[i] == bits::set_positions(t)[i]);
            }
            assert(row@ =~= row_of(t));
        }
        store::hash_positions(row.as_slice())
    }

    fn local_word(gen: [&[u64]; 2]) -> (w: Option<usize>) {
        let n: usize = gen[0].len();
        let ghost g = sparse::key_of(gen[0]@, gen[1]@, 64 * n as nat);
        let mut found: Option<usize> = None;
        let mut i: usize = 0;
        while i < n
            invariant
                i <= n,
                n == gen[0]@.len(),
                n == gen[1]@.len(),
                g == sparse::key_of(gen[0]@, gen[1]@, 64 * n as nat),
                match found {
                    Some(f) => f < i && !clear_word(gen[0]@, gen[1]@, f as int) && clear_but(
                        gen[0]@,
                        gen[1]@,
                        i as int,
                        f as int,
                    ),
                    None => clear_but(gen[0]@, gen[1]@, i as int, -1),
                },
            decreases n - i,
        {
            if gen[0][i] != 0 || gen[1][i] != 0 {
                if found.is_some() {
                    proof {
                        if exists|v: int| sole_word(g, v) {
                            let v = choose|v: int| sole_word(g, v);
                            lemma_sole_words(gen[0]@, gen[1]@, v);
                            assert(!clear_word(gen[0]@, gen[1]@, i as int));
                        }
                    }
                    return None;
                }
                found = Some(i);
            }
            i += 1;
        }
        proof {
            match found {
                Some(f) => {
                    lemma_sole_words(gen[0]@, gen[1]@, f as int);
                    lemma_sole_unique(g, f as int, choose|v: int| sole_word(g, v));
                },
                None => {
                    if exists|v: int| sole_word(g, v) {
                        let v = choose|v: int| sole_word(g, v);
                        lemma_sole_words(gen[0]@, gen[1]@, v);
                        assert(clear_word(gen[0]@, gen[1]@, v));
                    }
                },
            }
        }
        found
    }

    fn commutes_at_word(term_word: [u64; 2], gen_word: [u64; 2]) -> (r: bool) {
        proof {
            lemma_word_ops(term_word[0], gen_word[1]);
            lemma_word_ops(term_word[1], gen_word[0]);
        }
        let a: u32 = bits::count_ones(term_word[0] & gen_word[1]);
        let b: u32 = bits::count_ones(term_word[1] & gen_word[0]);
        (a + b) % 2 == 0
    }

    fn product_at_word(term_word: [u64; 2], gen_word: [u64; 2]) -> (r: ([u64; 2], Phase)) {
        let x: u64 = term_word[0] ^ gen_word[0];
        let z: u64 = term_word[1] ^ gen_word[1];
        let plus: u32 = bits::count_ones(gen_word[0] & gen_word[1]) + bits::count_ones(
            term_word[0] & term_word[1],
        );
        let minus: u32 = bits::count_ones(x & z);
        let zx: u32 = bits::count_ones(gen_word[1] & term_word[0]);
        let q: u32 = plus + 2 * zx + 64 - minus;
        proof {
            lemma_word_ops(gen_word[0], gen_word[1]);
            lemma_word_ops(term_word[0], term_word[1]);
            lemma_word_ops(term_word[0], gen_word[0]);
            lemma_word_ops(term_word[1], gen_word[1]);
            lemma_word_ops(gen_word[1], term_word[0]);
            lemma_word_ops(x, z);
        }
        ([x, z], Phase::from_quarters((q % 4) as u8))
    }
}

/// The planes of a string whose X and Z components alternate.
pub open spec fn planes(m: Seq<bool>) -> Seq<bool> {
    pauli::x_plane(m) + pauli::z_plane(m)
}

/// The two layouts are one algebra: strings with alternating components and strings in planes
/// commute, multiply, weigh and trace alike.
pub proof fn law_layouts_agree<const W: usize>(
    t: Seq<bool>,
    g: Seq<bool>,
    n_units: nat,
    fock: Seq<u64>,
)
    requires
        t.len() == 64 * W,
        g.len() == 64 * W,
        64 * W <= u32::MAX,
    ensures
        PlanePauli::commuting(planes(t), planes(g)) == !<pauli::PauliBasis as basis::Basis<
            W,
        >>::anti(g, t),
        PlanePauli::product_of(planes(t), planes(g)) == planes(bits::xor(g, t)),
        PlanePauli::phase_of(planes(t), planes(g)) == basis::product_phase::<
            pauli::PauliBasis,
            W,
        >(g, false, t),
        PlanePauli::weight_of(planes(t), n_units) == <pauli::PauliBasis as basis::Basis<
            W,
        >>::weight_of(t, n_units),
        PlanePauli::trace_of(planes(t), n_units, fock) == <pauli::PauliBasis as basis::Basis<
            W,
        >>::trace_of(t, n_units, fock),
{
    let (tx, tz) = (pauli::x_plane(t), pauli::z_plane(t));
    let (gx, gz) = (pauli::x_plane(g), pauli::z_plane(g));
    assert(xs(planes(t)) =~= tx && zs(planes(t)) =~= tz);
    assert(xs(planes(g)) =~= gx && zs(planes(g)) =~= gz);
    pauli::lemma_anti_counts(g, t);
    pauli::lemma_planes_xor(g, t);
    assert(bits::both(tx, gz) =~= bits::both(gz, tx));
    assert(bits::xor(tx, gx) =~= bits::xor(gx, tx));
    assert(bits::xor(tz, gz) =~= bits::xor(gz, tz));
    assert(bits::xor(planes(t), planes(g)) =~= planes(bits::xor(g, t)));
    assert(bits::either(tx, tz) =~= bits::pair_any(t));
    bits::lemma_ones_bound(bits::pair_any(t));
    assert(Seq::new(tz.len(), |k: int| tz[k] && bits::bit_at(fock, k)) =~= Seq::new(
        t.len() / 2,
        |k: int| t[2 * k + 1] && bits::bit_at(fock, k),
    ));
}

} // verus!
