//! Which conjugations keep the number of units every string touches.

use crate::basis::Basis;
use crate::bits;
use crate::conjugation;
use crate::conjugation::Signed;
use vstd::prelude::*;

verus! {

/// The product of the keys of the rows that the first `n` bits of `m` select.
pub open spec fn selected<const W: usize>(rows: Seq<Signed>, m: Seq<bool>, n: int) -> Seq<bool>
    decreases n,
{
    if n <= 0 {
        bits::none(64 * W as nat)
    } else if m[n - 1] {
        bits::xor(rows[n - 1].0, selected::<W>(rows, m, n - 1))
    } else {
        selected::<W>(rows, m, n - 1)
    }
}

/// The key the rows send the string `m` to.
pub open spec fn key_image<const W: usize>(rows: Seq<Signed>, m: Seq<bool>) -> Seq<bool> {
    selected::<W>(rows, m, conjugation::reach::<W>(rows))
}

/// How many units a string touches.
pub open spec fn touched(m: Seq<bool>) -> nat {
    bits::ones(bits::pair_any(m))
}

/// The image of `m` touches more units than `m`, or fewer.
pub open spec fn shifts<const W: usize>(rows: Seq<Signed>, m: Seq<bool>) -> bool {
    touched(key_image::<W>(rows, m)) != touched(m)
}

/// Some string on the bits that the rows cover has an image of another weight.
pub open spec fn moves_weight<const W: usize>(rows: Seq<Signed>) -> bool {
    exists|m: Seq<bool>|
        m.len() == 64 * W && conjugation::within(m, rows.len() as int) && #[trigger] shifts::<W>(
            rows,
            m,
        )
}

/// The key of an image does not depend on the phases of a basis.
pub proof fn lemma_key_image<A: Basis<W>, const W: usize>(rows: Seq<Signed>, m: Seq<bool>)
    ensures
        conjugation::carried::<A, W>(rows, m).0 == key_image::<W>(rows, m),
{
    lemma_walk_key::<A, W>(rows, m, conjugation::reach::<W>(rows));
}

proof fn lemma_walk_key<A: Basis<W>, const W: usize>(rows: Seq<Signed>, m: Seq<bool>, n: int)
    ensures
        conjugation::walk::<A, W>(rows, m, n).0 == selected::<W>(rows, m, n),
    decreases n,
{
    if n > 0 {
        lemma_walk_key::<A, W>(rows, m, n - 1);
    }
}

/// The string touches unit `t` alone.
pub open spec fn confined(a: Seq<bool>, t: int) -> bool {
    let any = bits::pair_any(a);
    &&& 0 <= t < any.len()
    &&& any[t]
    &&& forall|k: int| 0 <= k < any.len() && k != t ==> !(#[trigger] any[k])
}

/// Unit `u`'s strings go to different strings of unit `t`.
pub open spec fn lands(rows: Seq<Signed>, u: int, t: int) -> bool {
    &&& confined(rows[2 * u].0, t)
    &&& confined(rows[2 * u + 1].0, t)
    &&& rows[2 * u].0 != rows[2 * u + 1].0
}

/// The first `n` units land on the units `homes` names, each on its own.
pub open spec fn housed(rows: Seq<Signed>, homes: Seq<int>, n: int) -> bool {
    &&& homes.len() == n
    &&& forall|u: int| 0 <= u < n ==> lands(rows, u, #[trigger] homes[u])
    &&& forall|u: int, v: int| 0 <= u < v < n ==> #[trigger] homes[u] != #[trigger] homes[v]
}

/// Every row's key has the width of a string.
pub open spec fn wide<const W: usize>(rows: Seq<Signed>) -> bool {
    forall|p: int| 0 <= p < rows.len() ==> (#[trigger] rows[p]).0.len() == 64 * W
}

/// Counting a list that is false but for one entry at most.
proof fn lemma_count_one(s: Seq<bool>, t: int)
    requires
        0 <= t < s.len(),
        forall|k: int| 0 <= k < s.len() && k != t ==> !(#[trigger] s[k]),
    ensures
        bits::ones(s) == (if s[t] {
            1nat
        } else {
            0nat
        }),
{
    let n = bits::none(s.len());
    bits::lemma_ones_none(n);
    bits::lemma_ones_update(n, t, s[t]);
    assert(n.update(t, s[t]) =~= s);
}

/// Two true entries count to two at least.
proof fn lemma_count_two(s: Seq<bool>, i: int, j: int)
    requires
        0 <= i < s.len(),
        0 <= j < s.len(),
        i != j,
        s[i],
        s[j],
    ensures
        bits::ones(s) >= 2,
{
    let r = s.update(i, false);
    bits::lemma_ones_update(s, i, false);
    bits::lemma_ones_none(r);
    assert(r[j]);
}

/// The strings of one unit multiply within it.
proof fn lemma_confined_product(a: Seq<bool>, b: Seq<bool>, t: int)
    requires
        a.len() == b.len(),
        a.len() % 2 == 0,
        confined(a, t),
        confined(b, t),
    ensures
        a != b ==> confined(bits::xor(b, a), t),
        a == b ==> touched(bits::xor(b, a)) == 0,
        touched(bits::xor(b, a)) <= 1,
{
    let x = bits::xor(b, a);
    let any = bits::pair_any(x);
    assert forall|k: int| 0 <= k < any.len() && k != t implies !(#[trigger] any[k]) by {
        assert(!bits::pair_any(a)[k] && !bits::pair_any(b)[k]);
    }
    lemma_count_one(any, t);
    if a != b {
        if !any[t] {
            assert forall|p: int| 0 <= p < a.len() implies a[p] == b[p] by {
                let k = p / 2;
                assert(p == 2 * k || p == 2 * k + 1);
                assert(!any[k]) by {
                    if k != t {
                        assert(!bits::pair_any(a)[k]);
                    }
                }
            }
            assert(a =~= b);
        }
    } else {
        assert(!any[t]);
    }
}

/// The first `n` units' share of an image touches the homes of the units that `m` touches.
proof fn lemma_housed<const W: usize>(rows: Seq<Signed>, homes: Seq<int>, m: Seq<bool>, n: int)
    requires
        wide::<W>(rows),
        m.len() == 64 * W,
        0 <= n <= 32 * W,
        2 * n <= rows.len(),
        housed(rows, homes, n),
    ensures
        selected::<W>(rows, m, 2 * n).len() == 64 * W,
        bits::ones(bits::pair_any(selected::<W>(rows, m, 2 * n))) == bits::ones(
            bits::pair_any(m).take(n),
        ),
        forall|t: int|
            0 <= t < 32 * W && !homes.contains(t) ==> !(#[trigger] bits::pair_any(
                selected::<W>(rows, m, 2 * n),
            )[t]),
    decreases n,
{
    if n <= 0 {
        let s = bits::pair_any(selected::<W>(rows, m, 0));
        bits::lemma_ones_none(s);
        assert(bits::pair_any(m).take(0) =~= Seq::<bool>::empty());
    } else {
        let u = n - 1;
        let fewer = homes.drop_last();
        assert(housed(rows, fewer, u)) by {
            assert forall|v: int| 0 <= v < u implies lands(rows, v, #[trigger] fewer[v]) by {
                assert(fewer[v] == homes[v]);
            }
        }
        lemma_housed::<W>(rows, fewer, m, u);
        let t = homes[u];
        assert(lands(rows, u, t));
        let rest = selected::<W>(rows, m, 2 * u);
        let all = selected::<W>(rows, m, 2 * n);
        let a = rows[2 * u].0;
        let b = rows[2 * u + 1].0;
        lemma_confined_product(a, b, t);
        reveal_with_fuel(selected, 3);
        assert(!fewer.contains(t)) by {
            if fewer.contains(t) {
                let v = choose|v: int| 0 <= v < fewer.len() && fewer[v] == t;
                assert(homes[v] == homes[u]);
            }
        }
        let before = bits::pair_any(rest);
        let after = bits::pair_any(all);
        let hit = m[2 * u] || m[2 * u + 1];
        let own = if m[2 * u] && m[2 * u + 1] {
            bits::xor(b, a)
        } else if m[2 * u + 1] {
            b
        } else {
            a
        };
        assert(confined(own, t));
        assert(all =~= (if hit {
            bits::xor(own, rest)
        } else {
            rest
        }));
        assert forall|k: int| 0 <= k < 32 * W implies #[trigger] after[k] == (if k == t && hit {
            true
        } else {
            before[k]
        }) by {
            if hit {
                if k == t {
                    assert(!before[t]);
                    assert(bits::pair_any(own)[t]);
                } else {
                    assert(!bits::pair_any(own)[k]);
                }
            }
        }
        assert(!before[t]);
        bits::lemma_ones_update(before, t, hit);
        assert(after =~= before.update(t, hit));
        let any = bits::pair_any(m);
        assert(any.take(n).drop_last() =~= any.take(u));
        assert(any[u] == hit);
        assert forall|k: int| 0 <= k < 32 * W && !homes.contains(k) implies !(#[trigger] after[k]) by {
            assert(homes[u] == t);
            if fewer.contains(k) {
                let v = choose|v: int| 0 <= v < fewer.len() && fewer[v] == k;
                assert(homes[v] == k);
            }
            assert(!before[k]);
        }
    }
}

/// Rows that send every unit to a unit of its own move no weight.
pub proof fn lemma_housed_keeps<const W: usize>(rows: Seq<Signed>, homes: Seq<int>)
    requires
        wide::<W>(rows),
        rows.len() % 2 == 0,
        housed(rows, homes, conjugation::reach::<W>(rows) / 2),
    ensures
        !moves_weight::<W>(rows),
{
    let n = conjugation::reach::<W>(rows) / 2;
    assert forall|m: Seq<bool>|
        m.len() == 64 * W && conjugation::within(m, rows.len() as int) implies !(
    #[trigger] shifts::<W>(rows, m)) by {
        lemma_housed::<W>(rows, homes, m, n);
        let any = bits::pair_any(m);
        let rest = any.skip(n);
        assert(any =~= any.take(n) + rest);
        bits::lemma_ones_add(any.take(n), rest);
        assert forall|k: int| 0 <= k < rest.len() implies !(#[trigger] rest[k]) by {
            assert(!m[2 * (n + k)] && !m[2 * (n + k) + 1]);
        }
        bits::lemma_ones_none(rest);
    }
}

/// The string with bits `p` and `q`.
pub open spec fn two(n: nat, p: int, q: int) -> Seq<bool> {
    Seq::new(n, |i: int| i == p || i == q)
}

/// What the rows send strings of one bit and of two bits to.
proof fn lemma_selected_few<const W: usize>(rows: Seq<Signed>, p: int, q: int, n: int)
    requires
        wide::<W>(rows),
        0 <= p < q,
        n <= 64 * W,
        n <= rows.len(),
    ensures
        p < n ==> selected::<W>(rows, bits::single(64 * W as nat, p), n) == rows[p].0,
        p >= n ==> selected::<W>(rows, bits::single(64 * W as nat, p), n) == bits::none(
            64 * W as nat,
        ),
        q < n ==> selected::<W>(rows, two(64 * W as nat, p, q), n) == bits::xor(
            rows[q].0,
            rows[p].0,
        ),
        p < n <= q ==> selected::<W>(rows, two(64 * W as nat, p, q), n) == rows[p].0,
        p >= n ==> selected::<W>(rows, two(64 * W as nat, p, q), n) == bits::none(64 * W as nat),
    decreases n,
{
    if n > 0 {
        lemma_selected_few::<W>(rows, p, q, n - 1);
        if p == n - 1 {
            assert(bits::xor(rows[p].0, bits::none(64 * W as nat)) =~= rows[p].0);
        }
    }
}

/// How many units strings of one bit and of two bits touch.
proof fn lemma_touched_few<const W: usize>(p: int, q: int)
    requires
        0 <= p < q < 64 * W,
    ensures
        touched(bits::single(64 * W as nat, p)) == 1,
        touched(two(64 * W as nat, p, q)) == (if p / 2 == q / 2 {
            1nat
        } else {
            2nat
        }),
{
    let one = bits::pair_any(bits::single(64 * W as nat, p));
    assert forall|k: int| 0 <= k < one.len() implies #[trigger] one[k] == (k == p / 2) by {}
    lemma_count_one(one, p / 2);
    let both = bits::pair_any(two(64 * W as nat, p, q));
    assert forall|k: int| 0 <= k < both.len() implies #[trigger] both[k] == (k == p / 2 || k == q
        / 2) by {}
    if p / 2 == q / 2 {
        lemma_count_one(both, p / 2);
    } else {
        bits::lemma_ones_update(one, q / 2, true);
        assert(both =~= one.update(q / 2, true));
    }
}

/// A single bit whose image touches another number of units than one.
pub proof fn lemma_row_moves<const W: usize>(rows: Seq<Signed>, p: int)
    requires
        wide::<W>(rows),
        0 <= p < conjugation::reach::<W>(rows),
        touched(rows[p].0) != 1,
    ensures
        moves_weight::<W>(rows),
{
    let n = conjugation::reach::<W>(rows);
    let m = bits::single(64 * W as nat, p);
    if p == 0 {
        lemma_selected_few::<W>(rows, 0, 1, n);
        lemma_touched_few::<W>(0, 1);
    } else {
        lemma_selected_few::<W>(rows, p, p + 1, n);
        let one = bits::pair_any(m);
        assert forall|k: int| 0 <= k < one.len() implies #[trigger] one[k] == (k == p / 2) by {}
        lemma_count_one(one, p / 2);
    }
    assert(shifts::<W>(rows, m));
}

/// Two bits whose images are in the way of each other, or apart where the bits are not.
pub proof fn lemma_rows_move<const W: usize>(rows: Seq<Signed>, p: int, q: int, s: int, t: int)
    requires
        wide::<W>(rows),
        0 <= p < q < conjugation::reach::<W>(rows),
        confined(rows[p].0, s),
        confined(rows[q].0, t),
        if p / 2 == q / 2 {
            s != t || rows[p].0 == rows[q].0
        } else {
            s == t
        },
    ensures
        moves_weight::<W>(rows),
{
    let n = conjugation::reach::<W>(rows);
    let m = two(64 * W as nat, p, q);
    let x = bits::xor(rows[q].0, rows[p].0);
    lemma_selected_few::<W>(rows, p, q, n);
    lemma_touched_few::<W>(p, q);
    if s == t {
        lemma_confined_product(rows[p].0, rows[q].0, s);
    } else {
        let any = bits::pair_any(x);
        assert(!bits::pair_any(rows[p].0)[t] && !bits::pair_any(rows[q].0)[s]);
        assert(any[s] && any[t]);
        lemma_count_two(any, s, t);
    }
    assert(shifts::<W>(rows, m));
}

} // verus!
