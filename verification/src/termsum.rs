//! A sum of basis strings with coefficients, and the rotations applied to it.
//!
//! Rows are appended and never removed by a rotation, so a row number keeps its meaning. The
//! sum is modelled by its rows, [`TermSum::keys`] and [`TermSum::coeffs`], and by the map they
//! spell, [`TermSum::terms`].

use crate::basis;
use crate::basis::{Basis, Phase};
use crate::bits;
use crate::coeff::CoeffRepr;
use crate::emit;
use crate::emit::{EmitCutoff, EmitPrecheck, Fate, Gate};
use crate::gate;
use crate::gate::Message;
use crate::inverted_index;
use crate::inverted_index::InvertedIndex;
use crate::operator_index;
use crate::operator_index::{OperatorIndex, Pos, TermIndexCeilingReached};
use crate::slots;
use crate::strings;
use crate::strings::BasisString;
use crate::term_kernel;
use crate::term_kernel::{NoiseKernel, TermView, TruncationKernel, KERNEL_BATCH};
use vstd::prelude::*;
use vstd::slice::slice_subrange;

verus! {

/// A routed child term, with its key, hash and coefficient.
pub struct Routed<C, const W: usize> {
    pub key: BasisString<W>,
    pub hash: u64,
    pub coeff: C,
}

/// The messages in a box, in order.
pub open spec fn posted<C, const W: usize>(msgs: Seq<Routed<C, W>>) -> Seq<Message<C>> {
    Seq::new(msgs.len(), |j: int| (msgs[j].key@, msgs[j].coeff))
}

/// Every message carries its key's hash.
pub open spec fn stamped<C, const W: usize>(msgs: Seq<Routed<C, W>>) -> bool {
    forall|j: int|
        0 <= j < msgs.len() ==> (#[trigger] msgs[j]).hash == strings::hash_of(msgs[j].key@)
}

/// Marks a row that holds no branch back.
const NO_BRANCH: u32 = 0xFFFF_FFFF;

/// `a` raised by `n`, up to the largest `u64`.
pub open spec fn counted(a: u64, n: nat) -> u64 {
    if a + n <= u64::MAX {
        (a + n) as u64
    } else {
        u64::MAX
    }
}

/// A sum of terms.
pub struct TermSum<C: CoeffRepr, P: Pos, const W: usize> {
    store: OperatorIndex<P, W>,
    coeffs: Vec<C>,
    /// Transposed view of the keys.
    inverted: InvertedIndex,
    scan_bitmap: Vec<u64>,
    pending_slot: Vec<u32>,
    pending_rows: Vec<u32>,
    pending_vals: Vec<C>,
    claimed_rows: Vec<u32>,
    /// True when the held-back branches still lack their phase factor.
    pending_needs_phase: bool,
    emitted: u64,
    hits: u64,
    visited: u64,
    declined: u64,
    n_units: usize,
}

/// The partition that owns `key`.
pub fn partition_of<const W: usize>(key: &BasisString<W>, n_partitions: usize) -> (p: usize)
    ensures
        p == gate::owner(key@, n_partitions as nat),
        n_partitions > 0 ==> p < n_partitions,
{
    partition_from_hash(key.hash_value(), n_partitions)
}

/// [`partition_of`] with the key's hash already computed.
pub fn partition_from_hash(hash: u64, n_partitions: usize) -> (p: usize)
    ensures
        p == gate::owner_of_hash(hash, n_partitions as nat),
        n_partitions > 0 ==> p < n_partitions,
{
    if n_partitions <= 1 {
        return 0;
    }
    ((hash >> 32) % n_partitions as u64) as usize
}

/// The rows of a sum that a list of messages reaches while they hold a branch back, in
/// message order.
pub open spec fn paid_rows<C>(
    keys: Seq<Seq<bool>>,
    held: Seq<Option<C>>,
    msgs: Seq<Message<C>>,
    t: int,
) -> Seq<int>
    decreases t,
{
    if t <= 0 {
        Seq::empty()
    } else {
        let rest = paid_rows(keys, held, msgs, t - 1);
        let k = msgs[t - 1].0;
        if keys.contains(k) && held[keys.index_of(k)] is Some {
            rest.push(keys.index_of(k))
        } else {
            rest
        }
    }
}

/// The scan counters once a gate has scanned rows: those it branches are reached, and those it
/// holds back declined.
pub open spec fn scanned_counts<
    A: Basis<W>,
    C: CoeffRepr,
    K: TruncationKernel<C::Real>,
    const W: usize,
>(g: Gate<A, C, K, W>, keys: Seq<Seq<bool>>, coeffs: Seq<C>, scans: (u64, u64)) -> (u64, u64) {
    (
        counted(scans.0, bits::ones(Seq::new(keys.len(), |i: int| g.branches(keys[i])))),
        counted(
            scans.1,
            bits::ones(Seq::new(keys.len(), |i: int| g.fate(keys[i], coeffs[i]) is Holds)),
        ),
    )
}

/// How many rows a gate sends branches from.
pub open spec fn emitting<
    A: Basis<W>,
    C: CoeffRepr,
    K: TruncationKernel<C::Real>,
    const W: usize,
>(g: Gate<A, C, K, W>, keys: Seq<Seq<bool>>, coeffs: Seq<C>) -> nat {
    bits::ones(Seq::new(keys.len(), |i: int| g.fate(keys[i], coeffs[i]) is Sends))
}

/// The exchange counters once a gate has sent its branches, the messages have been folded in
/// together with `back` branches that were paid for: what was sent or paid for has been routed,
/// and what went to keys that were there has landed on a row.
pub open spec fn exchanged_counts<
    A: Basis<W>,
    C: CoeffRepr,
    K: TruncationKernel<C::Real>,
    const W: usize,
>(
    g: Gate<A, C, K, W>,
    keys: Seq<Seq<bool>>,
    coeffs: Seq<C>,
    msgs: Seq<Message<C>>,
    back: nat,
    exchanges: (u64, u64),
) -> (u64, u64) {
    (
        counted(exchanges.0, emitting(g, keys, coeffs) + paid_for(g, keys, coeffs, msgs)),
        counted(exchanges.1, met(keys, msgs, msgs.len() as int) + back),
    )
}

/// How many of the rows that hold a branch back messages pay for.
pub open spec fn paid_for<
    A: Basis<W>,
    C: CoeffRepr,
    K: TruncationKernel<C::Real>,
    const W: usize,
>(g: Gate<A, C, K, W>, keys: Seq<Seq<bool>>, coeffs: Seq<C>, msgs: Seq<Message<C>>) -> nat {
    paid_rows(keys, held_back(g, keys, coeffs), msgs, msgs.len() as int).len()
}

/// The branches a gate holds back on rows.
pub open spec fn held_back<
    A: Basis<W>,
    C: CoeffRepr,
    K: TruncationKernel<C::Real>,
    const W: usize,
>(g: Gate<A, C, K, W>, keys: Seq<Seq<bool>>, coeffs: Seq<C>) -> Seq<Option<C>> {
    Seq::new(
        keys.len(),
        |i: int|
            match g.fate(keys[i], coeffs[i]) {
                Fate::Holds(b) => Some(b),
                _ => None,
            },
    )
}

/// A gate scans no rows where there are none.
proof fn lemma_no_counts<
    A: Basis<W>,
    C: CoeffRepr,
    K: TruncationKernel<C::Real>,
    const W: usize,
>(g: Gate<A, C, K, W>, keys: Seq<Seq<bool>>, coeffs: Seq<C>, scans: (u64, u64), exchanges: (u64, u64))
    requires
        keys.len() == 0,
    ensures
        scanned_counts(g, keys, coeffs, scans) == scans,
        exchanged_counts(g, keys, coeffs, Seq::empty(), 0, exchanges) == exchanges,
        paid_for(g, keys, coeffs, Seq::empty()) == 0,
{
    assert(Seq::new(keys.len(), |i: int| g.branches(keys[i])) =~= Seq::<bool>::empty());
    assert(Seq::new(keys.len(), |i: int| g.fate(keys[i], coeffs[i]) is Holds) =~= Seq::<
        bool,
    >::empty());
    assert(Seq::new(keys.len(), |i: int| g.fate(keys[i], coeffs[i]) is Sends) =~= Seq::<
        bool,
    >::empty());
    let none = Seq::<Message<C>>::empty();
    assert(Seq::new(0, |j: int| !keys.contains(none[j].0)) =~= Seq::<bool>::empty());
}

/// The rows paid for depend on the messages read only.
proof fn lemma_paid_same<C>(
    keys: Seq<Seq<bool>>,
    held: Seq<Option<C>>,
    a: Seq<Message<C>>,
    b: Seq<Message<C>>,
    t: int,
)
    requires
        0 <= t <= a.len(),
        t <= b.len(),
        forall|j: int| 0 <= j < t ==> a[j] == b[j],
    ensures
        paid_rows(keys, held, a, t) == paid_rows(keys, held, b, t),
    decreases t,
{
    if t > 0 {
        lemma_paid_same(keys, held, a, b, t - 1);
        assert(a[t - 1] == b[t - 1]);
    }
}

/// How many of the first `t` messages go to keys that are there.
pub open spec fn met<C>(keys: Seq<Seq<bool>>, msgs: Seq<Message<C>>, t: int) -> nat {
    (t - gate::fresh(keys, msgs, t)) as nat
}

/// No more messages are to new keys than there are.
proof fn lemma_met<C>(keys: Seq<Seq<bool>>, msgs: Seq<Message<C>>, t: int)
    requires
        0 <= t,
    ensures
        gate::fresh(keys, msgs, t) <= t,
        met(keys, msgs, t) + gate::fresh(keys, msgs, t) == t,
{
    bits::lemma_ones_bound(Seq::new(t as nat, |j: int| !keys.contains(msgs[j].0)));
}

/// A held-back branch, with its phase factor applied if it still lacks it.
pub open spec fn payment<A: Basis<W>, C: CoeffRepr, const W: usize>(
    gen: Seq<bool>,
    negated: bool,
    needs_phase: bool,
    key: Seq<bool>,
    held: C,
) -> C {
    if needs_phase {
        held.scaled(C::unit(-basis::product_phase::<A, W>(gen, negated, key).imaginary()))
    } else {
        held
    }
}

/// The branches the first `t` claimed rows release to partition `p` of `s`, in claim order.
pub open spec fn released<A: Basis<W>, C: CoeffRepr, const W: usize>(
    gen: Seq<bool>,
    negated: bool,
    needs_phase: bool,
    keys: Seq<Seq<bool>>,
    held: Seq<Option<C>>,
    claims: Seq<int>,
    t: int,
    p: int,
    s: nat,
) -> Seq<Message<C>>
    decreases t,
{
    if t <= 0 {
        Seq::empty()
    } else {
        let rest = released::<A, C, W>(
            gen,
            negated,
            needs_phase,
            keys,
            held,
            claims,
            t - 1,
            p,
            s,
        );
        let key = keys[claims[t - 1]];
        let child = bits::xor(gen, key);
        if gate::owner(child, s) == p {
            rest.push((child, payment::<A, C, W>(gen, negated, needs_phase, key, held[claims[t - 1]]->0)))
        } else {
            rest
        }
    }
}

/// Rows that are appended change nothing of what is released.
pub proof fn lemma_released_prefix<A: Basis<W>, C: CoeffRepr, const W: usize>(
    gen: Seq<bool>,
    negated: bool,
    needs_phase: bool,
    keys: Seq<Seq<bool>>,
    held: Seq<Option<C>>,
    more_keys: Seq<Seq<bool>>,
    more_held: Seq<Option<C>>,
    claims: Seq<int>,
    t: int,
    p: int,
    s: nat,
)
    requires
        0 <= t <= claims.len(),
        keys.len() == held.len(),
        keys.len() <= more_keys.len(),
        keys.len() <= more_held.len(),
        more_keys.take(keys.len() as int) == keys,
        more_held.take(keys.len() as int) == held,
        forall|j: int| 0 <= j < claims.len() ==> 0 <= #[trigger] claims[j] < keys.len(),
    ensures
        released::<A, C, W>(
            gen,
            negated,
            needs_phase,
            more_keys,
            more_held,
            claims,
            t,
            p,
            s,
        ) == released::<A, C, W>(gen, negated, needs_phase, keys, held, claims, t, p, s),
    decreases t,
{
    if t > 0 {
        lemma_released_prefix::<A, C, W>(
            gen,
            negated,
            needs_phase,
            keys,
            held,
            more_keys,
            more_held,
            claims,
            t - 1,
            p,
            s,
        );
        let i = claims[t - 1];
        assert(more_keys.take(keys.len() as int)[i] == more_keys[i]);
        assert(more_held.take(keys.len() as int)[i] == more_held[i]);
    }
}

/// Which rows have been paid for.
pub proof fn lemma_paid_rows<C>(
    keys: Seq<Seq<bool>>,
    held: Seq<Option<C>>,
    msgs: Seq<Message<C>>,
    n: int,
    t: int,
)
    requires
        gate::distinct(keys, n),
        gate::separate(msgs, n),
        keys.len() == held.len(),
        0 <= t <= msgs.len(),
    ensures
        forall|j: int|
            0 <= j < paid_rows(keys, held, msgs, t).len() ==> {
                let i = #[trigger] paid_rows(keys, held, msgs, t)[j];
                0 <= i < keys.len() && held[i] is Some && exists|u: int|
                    0 <= u < t && (#[trigger] msgs[u]).0 == keys[i]
            },
        forall|i: int, u: int|
            0 <= i < keys.len() && 0 <= u < t && held[i] is Some && (#[trigger] msgs[u]).0
                == #[trigger] keys[i] ==> paid_rows(keys, held, msgs, t).contains(i),
        forall|j: int, k: int|
            0 <= j < k < paid_rows(keys, held, msgs, t).len() ==> #[trigger] paid_rows(
                keys,
                held,
                msgs,
                t,
            )[j] != #[trigger] paid_rows(keys, held, msgs, t)[k],
    decreases t,
{
    let all = paid_rows(keys, held, msgs, t);
    if t > 0 {
        lemma_paid_rows(keys, held, msgs, n, t - 1);
        let rest = paid_rows(keys, held, msgs, t - 1);
        let k = msgs[t - 1].0;
        assert forall|j: int| 0 <= j < all.len() implies {
            let i = #[trigger] all[j];
            0 <= i < keys.len() && held[i] is Some && exists|u: int|
                0 <= u < t && (#[trigger] msgs[u]).0 == keys[i]
        } by {
            if j < rest.len() {
                let i = rest[j];
                let u = choose|u: int| 0 <= u < t - 1 && (#[trigger] msgs[u]).0 == keys[i];
                assert(msgs[u].0 == keys[i]);
            } else {
                assert(msgs[t - 1].0 == keys[all[j]]);
            }
        }
        assert forall|i: int, u: int|
            0 <= i < keys.len() && 0 <= u < t && held[i] is Some && (#[trigger] msgs[u]).0
                == #[trigger] keys[i] implies all.contains(i) by {
            if u < t - 1 {
                let j = choose|j: int| 0 <= j < rest.len() && rest[j] == i;
                assert(all[j] == i);
            } else {
                assert(keys.contains(k));
                let x = keys.index_of(k);
                assert(keys[x] == k && 0 <= x < keys.len());
                if x < i {
                    assert(keys[x] != keys[i]);
                }
                if i < x {
                    assert(keys[i] != keys[x]);
                }
                assert(all[all.len() - 1] == i);
            }
        }
        assert forall|j: int, l: int| 0 <= j < l < all.len() implies #[trigger] all[j]
            != #[trigger] all[l] by {
            if l == rest.len() {
                let u = choose|u: int| 0 <= u < t - 1 && (#[trigger] msgs[u]).0 == keys[rest[j]];
                assert(msgs[u].0 != msgs[t - 1].0);
            }
        }
    }
}

/// What a list pays for does not depend on what follows.
proof fn lemma_paid_prefix<C>(
    keys: Seq<Seq<bool>>,
    held: Seq<Option<C>>,
    a: Seq<Message<C>>,
    b: Seq<Message<C>>,
    t: int,
)
    requires
        0 <= t <= a.len(),
    ensures
        paid_rows(keys, held, a + b, t) == paid_rows(keys, held, a, t),
    decreases t,
{
    if t > 0 {
        lemma_paid_prefix(keys, held, a, b, t - 1);
        assert((a + b)[t - 1] == a[t - 1]);
    }
}

/// What is released, and by which claims.
pub proof fn lemma_released<A: Basis<W>, C: CoeffRepr, const W: usize>(
    gen: Seq<bool>,
    negated: bool,
    needs_phase: bool,
    keys: Seq<Seq<bool>>,
    held: Seq<Option<C>>,
    claims: Seq<int>,
    t: int,
    p: int,
    s: nat,
)
    requires
        gate::distinct(keys, 64 * W as int),
        gen.len() == 64 * W,
        0 <= t <= claims.len(),
        forall|j: int| 0 <= j < claims.len() ==> 0 <= #[trigger] claims[j] < keys.len(),
        forall|j: int, k: int|
            0 <= j < k < claims.len() ==> #[trigger] claims[j] != #[trigger] claims[k],
    ensures
        ({
            let out = released::<A, C, W>(gen, negated, needs_phase, keys, held, claims, t, p, s);
            &&& gate::separate(out, 64 * W as int)
            &&& forall|j: int|
                0 <= j < out.len() ==> gate::owner((#[trigger] out[j]).0, s) == p && exists|c: int|
                    0 <= c < t && out[j] == (
                        bits::xor(gen, keys[#[trigger] claims[c]]),
                        payment::<A, C, W>(
                            gen,
                            negated,
                            needs_phase,
                            keys[claims[c]],
                            held[claims[c]]->0,
                        ),
                    )
            &&& forall|c: int|
                0 <= c < t && gate::owner(bits::xor(gen, keys[#[trigger] claims[c]]), s) == p
                    ==> gate::brought(out, bits::xor(gen, keys[claims[c]])) == Some(
                    payment::<A, C, W>(
                        gen,
                        negated,
                        needs_phase,
                        keys[claims[c]],
                        held[claims[c]]->0,
                    ),
                )
        }),
    decreases t,
{
    let out = released::<A, C, W>(gen, negated, needs_phase, keys, held, claims, t, p, s);
    if t > 0 {
        lemma_released::<A, C, W>(
            gen,
            negated,
            needs_phase,
            keys,
            held,
            claims,
            t - 1,
            p,
            s,
        );
        let rest = released::<A, C, W>(
            gen,
            negated,
            needs_phase,
            keys,
            held,
            claims,
            t - 1,
            p,
            s,
        );
        let last = claims[t - 1];
        let child = bits::xor(gen, keys[last]);
        emit::lemma_xor_back(gen, keys[last]);
        assert forall|j: int| 0 <= j < rest.len() implies (#[trigger] rest[j]).0 != child by {
            let c = choose|c: int|
                0 <= c < t - 1 && rest[j] == (
                    bits::xor(gen, keys[#[trigger] claims[c]]),
                    payment::<A, C, W>(
                        gen,
                        negated,
                        needs_phase,
                        keys[claims[c]],
                        held[claims[c]]->0,
                    ),
                );
            emit::lemma_xor_back(gen, keys[claims[c]]);
            assert(claims[c] != claims[t - 1]);
            let a = claims[c];
            if a < last {
                assert(keys[a] != keys[last]);
            } else {
                assert(keys[last] != keys[a]);
            }
        }
        assert forall|j: int| 0 <= j < out.len() implies gate::owner((#[trigger] out[j]).0, s) == p
            && exists|c: int|
            0 <= c < t && out[j] == (
                bits::xor(gen, keys[#[trigger] claims[c]]),
                payment::<A, C, W>(
                    gen,
                    negated,
                    needs_phase,
                    keys[claims[c]],
                    held[claims[c]]->0,
                ),
            ) by {
            if j < rest.len() {
                assert(out[j] == rest[j]);
                let c = choose|c: int|
                    0 <= c < t - 1 && rest[j] == (
                        bits::xor(gen, keys[#[trigger] claims[c]]),
                        payment::<A, C, W>(
                            gen,
                            negated,
                            needs_phase,
                            keys[claims[c]],
                            held[claims[c]]->0,
                        ),
                    );
                assert(0 <= claims[c]);
            } else {
                assert(0 <= claims[t - 1]);
            }
        }
        assert forall|c: int|
            0 <= c < t && gate::owner(bits::xor(gen, keys[#[trigger] claims[c]]), s)
                == p implies gate::brought(out, bits::xor(gen, keys[claims[c]])) == Some(
            payment::<A, C, W>(
                gen,
                negated,
                needs_phase,
                keys[claims[c]],
                held[claims[c]]->0,
            ),
        ) by {
            if c == t - 1 {
                gate::lemma_brought(rest, child);
                assert(out.drop_last() =~= rest);
            } else {
                if out.len() > rest.len() {
                    assert(out.drop_last() =~= rest);
                }
            }
        }
    }
}

/// The releases to a key's partition bring it what its partner repays.
pub proof fn lemma_repaid_by<A: Basis<W>, C: CoeffRepr, K: TruncationKernel<C::Real>, const W: usize>(
    g: Gate<A, C, K, W>,
    keys: Seq<Seq<bool>>,
    coeffs: Seq<C>,
    now: Seq<Seq<bool>>,
    held: Seq<Option<C>>,
    held_now: Seq<Option<C>>,
    msgs: Seq<Message<C>>,
    s: nat,
    k: Seq<bool>,
    p: int,
)
    requires
        gate::distinct(keys, 64 * W as int),
        gate::distinct(now, 64 * W as int),
        keys.len() == coeffs.len(),
        keys.len() == held.len(),
        now.len() == held_now.len(),
        keys.len() <= now.len(),
        now.take(keys.len() as int) == keys,
        held_now.take(keys.len() as int) == held,
        gate::separate(msgs, 64 * W as int),
        g.gen.len() == 64 * W,
        forall|i: int|
            0 <= i < keys.len() ==> #[trigger] held[i] == (match g.fate(keys[i], coeffs[i]) {
                Fate::Holds(b) => Some(b),
                _ => None,
            }),
    ensures
        ({
            let claims = paid_rows(keys, held, msgs, msgs.len() as int);
            let out = released::<A, C, W>(
                g.gen,
                g.negated,
                g.precheck() is Some,
                now,
                held_now,
                claims,
                claims.len() as int,
                p,
                s,
            );
            &&& gate::separate(out, 64 * W as int)
            &&& gate::brought(out, k) == (if gate::owner(k, s) == p {
                gate::repaid_by(
                    g,
                    gate::terms_of(keys, coeffs),
                    k,
                    gate::brought(msgs, g.partner(k)) is Some,
                )
            } else {
                None
            })
        }),
{
    let n = keys.len() as int;
    let claims = paid_rows(keys, held, msgs, msgs.len() as int);
    lemma_paid_rows(keys, held, msgs, 64 * W as int, msgs.len() as int);
    assert forall|j: int| 0 <= j < claims.len() implies 0 <= #[trigger] claims[j] < now.len()
        && now[claims[j]] == keys[claims[j]] && held_now[claims[j]] == held[claims[j]] by {
        let i = claims[j];
        assert(now.take(n)[i] == now[i]);
        assert(held_now.take(n)[i] == held_now[i]);
    }
    lemma_released::<A, C, W>(
        g.gen,
        g.negated,
        g.precheck() is Some,
        now,
        held_now,
        claims,
        claims.len() as int,
        p,
        s,
    );
    let out = released::<A, C, W>(
        g.gen,
        g.negated,
        g.precheck() is Some,
        now,
        held_now,
        claims,
        claims.len() as int,
        p,
        s,
    );
    let m = gate::terms_of(keys, coeffs);
    let q = g.partner(k);
    gate::lemma_brought(out, k);
    gate::lemma_brought(msgs, q);
    if gate::brought(out, k) is Some {
        let j = choose|j: int|
            0 <= j < out.len() && (#[trigger] out[j]).0 == k && out[j].1 == gate::brought(out, k)->0;
        let c = choose|c: int|
            0 <= c < claims.len() && out[j] == (
                bits::xor(g.gen, now[#[trigger] claims[c]]),
                payment::<A, C, W>(
                    g.gen,
                    g.negated,
                    g.precheck() is Some,
                    now[claims[c]],
                    held_now[claims[c]]->0,
                ),
            );
        let i = claims[c];
        emit::lemma_xor_back(g.gen, keys[i]);
        assert(q == keys[i]);
        gate::lemma_terms_at(keys, coeffs, 64 * W as int, i);
        let u = choose|u: int| 0 <= u < msgs.len() && (#[trigger] msgs[u]).0 == keys[i];
        assert(msgs[u].0 == q);
        assert(gate::brought(msgs, q) is Some);
        assert(held[i] is Some);
    }
    if gate::owner(k, s) == p && gate::repaid_by(g, m, k, gate::brought(msgs, q) is Some) is Some {
        emit::lemma_xor_back(g.gen, k);
        let i = choose|i: int| 0 <= i < keys.len() && keys[i] == q;
        gate::lemma_terms_at(keys, coeffs, 64 * W as int, i);
        let u = choose|u: int| 0 <= u < msgs.len() && (#[trigger] msgs[u]).0 == q;
        assert(msgs[u].0 == keys[i]);
        assert(held[i] is Some);
        assert(claims.contains(i));
        let c = choose|c: int| 0 <= c < claims.len() && claims[c] == i;
        assert(bits::xor(g.gen, now[claims[c]]) == k);
    }
}

impl<C: CoeffRepr, P: Pos, const W: usize> TermSum<C, P, W> {
    /// The keys of the rows, in order.
    pub closed spec fn keys(&self) -> Seq<Seq<bool>> {
        self.store.keys()
    }

    /// The coefficients of the rows, in order.
    pub closed spec fn coeffs(&self) -> Seq<C> {
        self.coeffs@
    }

    /// The terms: each key with its coefficient.
    pub open spec fn terms(&self) -> Map<Seq<bool>, C> {
        gate::terms_of(self.keys(), self.coeffs())
    }

    /// Number of qubits or modes the sum is sized for.
    pub closed spec fn units(&self) -> nat {
        self.n_units as nat
    }

    /// Positions a row holds inline.
    pub closed spec fn row_width(&self) -> nat {
        self.store.width()
    }

    /// The branch row `i` holds back, if any.
    closed spec fn held_at(&self, i: int) -> Option<C> {
        if 0 <= i < self.pending_slot@.len() && self.pending_slot@[i] != NO_BRANCH {
            Some(self.pending_vals@[self.pending_slot@[i] as int])
        } else {
            None
        }
    }

    /// The branches the rows hold back.
    pub closed spec fn held(&self) -> Seq<Option<C>> {
        Seq::new(self.keys().len(), |i: int| self.held_at(i))
    }

    /// The rows whose held-back branch has been paid for, in order of payment.
    pub closed spec fn claims(&self) -> Seq<int> {
        Seq::new(self.claimed_rows@.len(), |j: int| self.claimed_rows@[j] as int)
    }

    /// Whether the held-back branches still lack their phase factor.
    pub closed spec fn lacks_phase(&self) -> bool {
        self.pending_needs_phase
    }

    /// Branches routed so far and branches that landed on an existing row.
    pub closed spec fn exchanges(&self) -> (u64, u64) {
        (self.emitted, self.hits)
    }

    /// Anticommuting rows the scans have reached and branches they declined.
    pub closed spec fn scans(&self) -> (u64, u64) {
        (self.visited, self.declined)
    }

    closed spec fn pending_wf(&self) -> bool {
        &&& self.pending_slot@.len() <= self.store.row_count()
        &&& self.pending_rows@.len() == self.pending_vals@.len()
        &&& self.pending_rows@.len() <= self.store.row_count()
        &&& forall|s: int|
            0 <= s < self.pending_rows@.len() ==> (#[trigger] self.pending_rows@[s])
                < self.pending_slot@.len() && self.pending_slot@[self.pending_rows@[s] as int] == s
        &&& forall|i: int|
            0 <= i < self.pending_slot@.len() ==> (#[trigger] self.pending_slot@[i]) == NO_BRANCH
                || (self.pending_slot@[i] < self.pending_rows@.len()
                && self.pending_rows@[self.pending_slot@[i] as int] == i)
        &&& forall|j: int|
            0 <= j < self.claimed_rows@.len() ==> self.held_at(
                (#[trigger] self.claimed_rows@[j]) as int,
            ) is Some
    }

    closed spec fn store_wf(&self) -> bool {
        &&& self.store.wf()
        &&& self.coeffs@.len() == self.store.row_count()
        &&& gate::distinct(self.store.keys(), 64 * W as int)
        &&& self.store.index_size() == self.store.row_count()
        &&& forall|i: int|
            0 <= i < self.store.row_count() ==> self.store.indexed(
                i,
                slots::folded(strings::hash_of(#[trigger] self.store.keys()[i])),
            )
        &&& self.inverted.wf()
        &&& self.inverted.column_total() == 64 * W
        &&& self.inverted.mirrors(self.store.keys())
    }

    /// The transposed index.
    pub closed spec fn transposed(&self) -> InvertedIndex {
        self.inverted
    }

    /// The sum is well formed: no key occurs twice, and every row is found by its key.
    pub closed spec fn wf(&self) -> bool {
        self.store_wf() && self.pending_wf()
    }

    /// What a well-formed sum promises.
    pub proof fn lemma_wf(&self)
        requires
            self.wf(),
        ensures
            self.keys().len() == self.coeffs().len(),
            self.keys().len() == self.held().len(),
            self.keys().len() < u32::MAX,
            64 * W <= P::limit() <= u32::MAX,
            gate::distinct(self.keys(), 64 * W as int),
            forall|j: int|
                0 <= j < self.claims().len() ==> 0 <= #[trigger] self.claims()[j]
                    < self.keys().len() && self.held()[self.claims()[j]] is Some,
    {
        self.store.lemma_wf();
        assert forall|j: int| 0 <= j < self.claims().len() implies 0 <= #[trigger] self.claims()[j]
            < self.keys().len() && self.held()[self.claims()[j]] is Some by {
            assert(self.held_at(self.claimed_rows@[j] as int) is Some);
        }
    }

    /// Creates an empty sum over `n_units` qubits or modes.
    pub fn new(n_units: usize) -> (s: Self)
        requires
            64 * W <= P::limit(),
        ensures
            s.wf(),
            s.keys() == Seq::<Seq<bool>>::empty(),
            s.terms() == Map::<Seq<bool>, C>::empty(),
            s.units() == n_units,
            s.row_width() == operator_index::DEFAULT_INLINE_POSITIONS,
            s.exchanges() == (0u64, 0u64),
            s.scans() == (0u64, 0u64),
            s.claims().len() == 0,
    {
        Self::with_inline_positions(n_units, operator_index::DEFAULT_INLINE_POSITIONS)
    }

    /// Creates an empty sum whose rows are sized for a structural cutoff.
    pub fn with_weight_cutoff(n_units: usize, max_weight: usize) -> (s: Self)
        requires
            64 * W <= P::limit(),
            2 * max_weight <= usize::MAX,
        ensures
            s.wf(),
            s.keys() == Seq::<Seq<bool>>::empty(),
            s.terms() == Map::<Seq<bool>, C>::empty(),
            s.units() == n_units,
            s.row_width() == (if max_weight == 0 {
                1
            } else if 2 * max_weight > operator_index::MAX_INLINE_POSITIONS {
                operator_index::MAX_INLINE_POSITIONS as int
            } else {
                2 * max_weight
            }),
    {
        Self::with_inline_positions(
            n_units,
            OperatorIndex::<P, W>::inline_width_for_support_cutoff(max_weight),
        )
    }

    /// Creates an empty sum holding `width` positions inline per row.
    pub fn with_inline_positions(n_units: usize, width: usize) -> (s: Self)
        requires
            64 * W <= P::limit(),
        ensures
            s.wf(),
            s.keys() == Seq::<Seq<bool>>::empty(),
            s.terms() == Map::<Seq<bool>, C>::empty(),
            s.units() == n_units,
            s.row_width() == (if width < 1 {
                1
            } else if width > operator_index::MAX_INLINE_POSITIONS {
                operator_index::MAX_INLINE_POSITIONS as int
            } else {
                width as int
            }),
            s.exchanges() == (0u64, 0u64),
            s.scans() == (0u64, 0u64),
            s.claims().len() == 0,
    {
        proof {
            P::limit_bounds();
        }
        let s = TermSum {
            store: OperatorIndex::new(width),
            coeffs: Vec::new(),
            inverted: InvertedIndex::new(BasisString::<W>::num_bits()),
            scan_bitmap: Vec::new(),
            pending_slot: Vec::new(),
            pending_rows: Vec::new(),
            pending_vals: Vec::new(),
            claimed_rows: Vec::new(),
            pending_needs_phase: false,
            emitted: 0,
            hits: 0,
            visited: 0,
            declined: 0,
            n_units,
        };
        proof {
            s.store.lemma_wf();
            assert(s.terms() =~= Map::<Seq<bool>, C>::empty());
        }
        s
    }

    /// Number of live terms.
    pub fn len(&self) -> (n: usize)
        requires
            self.wf(),
        ensures
            n == self.keys().len(),
    {
        self.store.len()
    }

    /// True if the sum has no terms.
    pub fn is_empty(&self) -> (r: bool)
        requires
            self.wf(),
        ensures
            r == (self.keys().len() == 0),
    {
        self.store.is_empty()
    }

    /// Number of qubits or modes this sum is sized for.
    pub fn n_units(&self) -> (n: usize)
        ensures
            n == self.units(),
    {
        self.n_units
    }

    /// Positions held inline per row.
    pub fn inline_width(&self) -> (n: usize)
        ensures
            n == self.row_width(),
    {
        self.store.inline_width()
    }

    /// The rows whose positions do not fit inline.
    pub closed spec fn spilled(&self) -> Set<usize> {
        self.store.spilled()
    }

    /// No more rows spill than there are.
    pub proof fn lemma_spilled_len(&self)
        requires
            self.wf(),
        ensures
            self.spilled().len() <= self.keys().len(),
    {
        self.store.lemma_wf();
        self.store.lemma_spilled_len();
    }

    /// A row holds at least one position inline, and no more than the largest width.
    pub proof fn lemma_width(&self)
        requires
            self.wf(),
        ensures
            1 <= self.row_width() <= operator_index::MAX_INLINE_POSITIONS,
    {
        self.store.lemma_wf();
    }

    /// Rows whose positions spilled past the inline width.
    pub fn overflow_len(&self) -> (n: usize)
        requires
            self.wf(),
        ensures
            n == self.spilled().len(),
    {
        self.store.overflow_len()
    }

    /// Row `i`'s key.
    pub fn key(&self, i: usize) -> (k: BasisString<W>)
        requires
            self.wf(),
            i < self.keys().len(),
        ensures
            k@ == self.keys()[i as int],
    {
        self.store.row(i)
    }

    /// Row `i`'s coefficient.
    pub fn coeff(&self, i: usize) -> (c: &C)
        requires
            self.wf(),
            i < self.keys().len(),
        ensures
            *c == self.coeffs()[i as int],
    {
        &self.coeffs[i]
    }

    /// The underlying store.
    pub fn store(&self) -> (s: &OperatorIndex<P, W>)
        requires
            self.wf(),
        ensures
            s.wf(),
            s.keys() == self.keys(),
            s.row_count() == self.keys().len(),
            s.index_size() == self.keys().len(),
            s.filed_once(),
            forall|i: int|
                0 <= i < s.keys().len() ==> s.knows(#[trigger] s.keys()[i]) && s.indexed(
                    i,
                    slots::folded(strings::hash_of(s.keys()[i])),
                ),
            forall|i: int, r: Option<usize>|
                0 <= i < s.keys().len() && #[trigger] s.answers(
                    s.keys()[i],
                    slots::folded(strings::hash_of(s.keys()[i])),
                    r,
                ) ==> r == Some(i as usize),
    {
        proof {
            let s = self.store;
            s.lemma_wf();
            assert forall|i: int, r: Option<usize>|
                0 <= i < s.keys().len() && #[trigger] s.answers(
                    s.keys()[i],
                    slots::folded(strings::hash_of(s.keys()[i])),
                    r,
                ) implies r == Some(i as usize) by {
                s.law_lookup_has_one_answer(
                    s.keys()[i],
                    slots::folded(strings::hash_of(s.keys()[i])),
                    r,
                    Some(i as usize),
                );
            }
        }
        &self.store
    }

    /// Branches routed so far, and branches that landed on an existing row. Each count stops
    /// at the largest `u64`.
    pub fn exchange_counts(&self) -> (r: (u64, u64))
        ensures
            r == self.exchanges(),
    {
        (self.emitted, self.hits)
    }

    /// Anticommuting rows the scans have reached, and branches they declined. Each count
    /// stops at the largest `u64`.
    pub fn scan_counts(&self) -> (r: (u64, u64))
        ensures
            r == self.scans(),
    {
        (self.visited, self.declined)
    }

    /// A key the index finds nothing for is in no row.
    proof fn lemma_absent(&self, key: Seq<bool>)
        requires
            self.store_wf(),
            forall|i: int|
                0 <= i < self.store.row_count() && #[trigger] self.store.keys()[i] == key
                    ==> !self.store.indexed(i, slots::folded(strings::hash_of(key))),
        ensures
            !self.keys().contains(key),
    {
        if self.keys().contains(key) {
            let i = choose|i: int| 0 <= i < self.keys().len() && self.keys()[i] == key;
            assert(self.store.keys()[i] == key);
        }
    }

    /// Appends a row for a key the sum lacks.
    fn append(&mut self, key: &BasisString<W>, hash: u64, coeff: C) -> (r: Result<
        (),
        TermIndexCeilingReached,
    >)
        requires
            old(self).wf(),
            !old(self).keys().contains(key@),
            hash == strings::hash_of(key@),
            operator_index::addressable(old(self).keys().len() as int + 1),
        ensures
            final(self).wf(),
            r is Err <==> old(self).keys().len() + 1 >= u32::MAX,
            r is Err ==> final(self).keys() == old(self).keys() && final(self).coeffs() == old(self).coeffs() && final(self).held() == old(self).held(),
            r is Ok ==> final(self).keys() == old(self).keys().push(key@) && final(self).coeffs()
                == old(self).coeffs().push(coeff) && final(self).terms() == old(self).terms().insert(key@, coeff) && final(self).held() == old(self).held().push(None),
            final(self).claims() == old(self).claims(),
            final(self).lacks_phase() == old(self).lacks_phase(),
            final(self).exchanges() == old(self).exchanges(),
            final(self).scans() == old(self).scans(),
            final(self).units() == old(self).units(),
            final(self).row_width() == old(self).row_width(),
    {
        proof {
            BasisString::lemma_len(*key);
            self.store.lemma_wf();
        }
        match self.store.push(key) {
            Ok(row) => {
                match self.store.insert_absent_with_hash(row, hash) {
                    Ok(()) => {
                        self.coeffs.push(coeff);
                        proof {
                            let was = old(self).store.keys();
                            gate::lemma_terms_push(
                                was,
                                old(self).coeffs@,
                                64 * W as int,
                                key@,
                                coeff,
                            );
                            assert(self.store.keys() == was.push(key@));
                            assert forall|i: int| 0 <= i < self.store.row_count() implies self.store.indexed(
                                i,
                                slots::folded(strings::hash_of(#[trigger] self.store.keys()[i])),
                            ) by {
                                if i < was.len() {
                                    assert(self.store.keys()[i] == was[i]);
                                    assert(old(self).store.indexed(
                                        i,
                                        slots::folded(strings::hash_of(was[i])),
                                    ));
                                }
                            }
                            assert(self.inverted.mirrors(self.store.keys())) by {
                                assert(self.inverted == old(self).inverted);
                                assert forall|c: int, r: int|
                                    0 <= c < self.inverted.column_total() && 0 <= r
                                        < self.inverted.row_total() implies #[trigger] self.inverted.has(
                                    c,
                                    r,
                                ) == (c < self.store.keys()[r].len()
                                    && self.store.keys()[r][c]) by {
                                    assert(self.store.keys()[r] == was[r]);
                                }
                                assert forall|r: int|
                                    0 <= r
                                        < self.inverted.row_total() implies #[trigger] self.inverted.odd_row(
                                    r,
                                ) == bits::odd(self.store.keys()[r]) by {
                                    assert(self.store.keys()[r] == was[r]);
                                }
                            }
                            assert forall|i: int| #[trigger] self.held_at(i) == old(self).held_at(
                                i,
                            ) by {}
                            assert(self.held() =~= old(self).held().push(None));
                            assert(self.claims() =~= old(self).claims());
                        }
                        Ok(())
                    },
                    Err(e) => Err(e),
                }
            },
            Err(e) => {
                proof {
                    assert(self.held() =~= old(self).held());
                }
                Err(e)
            },
        }
    }

    /// Adds `coeff` to row `row`'s coefficient.
    fn fold_into(&mut self, row: usize, coeff: C)
        requires
            old(self).wf(),
            row < old(self).keys().len(),
        ensures
            final(self).wf(),
            final(self).keys() == old(self).keys(),
            final(self).coeffs() == old(self).coeffs().update(
                row as int,
                old(self).coeffs()[row as int].sum(coeff),
            ),
            final(self).terms() == old(self).terms().insert(
                old(self).keys()[row as int],
                old(self).terms()[old(self).keys()[row as int]].sum(coeff),
            ),
            old(self).terms().contains_key(old(self).keys()[row as int]),
            final(self).held() == old(self).held(),
            final(self).claims() == old(self).claims(),
            final(self).lacks_phase() == old(self).lacks_phase(),
            final(self).exchanges() == old(self).exchanges(),
            final(self).scans() == old(self).scans(),
            final(self).units() == old(self).units(),
            final(self).row_width() == old(self).row_width(),
    {
        let mut c: C = self.coeffs[row].duplicate();
        c.add_assign(coeff);
        self.coeffs.set(row, c);
        proof {
            gate::lemma_terms_at(
                self.store.keys(),
                old(self).coeffs@,
                64 * W as int,
                row as int,
            );
            gate::lemma_terms_update(
                self.store.keys(),
                old(self).coeffs@,
                64 * W as int,
                row as int,
                c,
            );
            assert forall|i: int| #[trigger] self.held_at(i) == old(self).held_at(i) by {}
            assert(self.held() =~= old(self).held());
            assert(self.claims() =~= old(self).claims());
        }
    }

    /// Adds `coeff` to `key`'s term, creating the term if it is absent.
    pub fn add(&mut self, key: &BasisString<W>, coeff: C) -> (r: Result<
        (),
        TermIndexCeilingReached,
    >)
        requires
            old(self).wf(),
            operator_index::addressable(old(self).keys().len() as int + 1),
        ensures
            final(self).wf(),
            r is Err <==> !old(self).terms().contains_key(key@) && old(self).keys().len() + 1
                >= u32::MAX,
            r is Err ==> final(self).keys() == old(self).keys() && final(self).coeffs() == old(self).coeffs(),
            r is Ok ==> final(self).terms() == old(self).terms().insert(
                key@,
                gate::merged(gate::get(old(self).terms(), key@), Some(coeff))->0,
            ),
            r is Ok ==> final(self).keys() == (if old(self).terms().contains_key(key@) {
                old(self).keys()
            } else {
                old(self).keys().push(key@)
            }),
            final(self).exchanges() == old(self).exchanges(),
            final(self).scans() == old(self).scans(),
            final(self).units() == old(self).units(),
            final(self).row_width() == old(self).row_width(),
    {
        let hash: u64 = OperatorIndex::<P, W>::hash_of(key);
        match self.store.find_with_hash(key, hash) {
            Some(row) => {
                self.fold_into(row, coeff);
                Ok(())
            },
            None => {
                proof {
                    self.lemma_absent(key@);
                }
                self.append(key, hash, coeff)
            },
        }
    }

    /// Folds one child into this sum, appending it if absent. Returns whether it was new.
    pub fn absorb(&mut self, key: &BasisString<W>, coeff: C) -> (r: Result<
        bool,
        TermIndexCeilingReached,
    >)
        requires
            old(self).wf(),
            operator_index::addressable(old(self).keys().len() as int + 1),
        ensures
            final(self).wf(),
            r is Err <==> !old(self).terms().contains_key(key@) && old(self).keys().len() + 1
                >= u32::MAX,
            r is Err ==> final(self).keys() == old(self).keys() && final(self).coeffs() == old(self).coeffs(),
            r matches Ok(new) ==> new == !old(self).terms().contains_key(key@) && final(self).terms() == old(self).terms().insert(
                key@,
                gate::merged(gate::get(old(self).terms(), key@), Some(coeff))->0,
            ),
            r matches Ok(new) ==> final(self).keys() == (if new {
                old(self).keys().push(key@)
            } else {
                old(self).keys()
            }),
            final(self).exchanges() == (old(self).exchanges().0, counted(
                old(self).exchanges().1,
                if old(self).terms().contains_key(key@) {
                    1
                } else {
                    0
                },
            )),
            final(self).scans() == old(self).scans(),
            final(self).units() == old(self).units(),
            final(self).row_width() == old(self).row_width(),
    {
        let hash: u64 = OperatorIndex::<P, W>::hash_of(key);
        self.absorb_with_hash(key, hash, coeff)
    }

    /// [`TermSum::absorb`] with the key's hash already computed.
    pub fn absorb_with_hash(&mut self, key: &BasisString<W>, hash: u64, coeff: C) -> (r: Result<
        bool,
        TermIndexCeilingReached,
    >)
        requires
            old(self).wf(),
            hash == strings::hash_of(key@),
            operator_index::addressable(old(self).keys().len() as int + 1),
        ensures
            final(self).wf(),
            r is Err <==> !old(self).terms().contains_key(key@) && old(self).keys().len() + 1
                >= u32::MAX,
            r is Err ==> final(self).keys() == old(self).keys() && final(self).coeffs() == old(self).coeffs(),
            r matches Ok(new) ==> new == !old(self).terms().contains_key(key@) && final(self).terms() == old(self).terms().insert(
                key@,
                gate::merged(gate::get(old(self).terms(), key@), Some(coeff))->0,
            ),
            r matches Ok(new) ==> final(self).keys() == (if new {
                old(self).keys().push(key@)
            } else {
                old(self).keys()
            }),
            final(self).exchanges() == (old(self).exchanges().0, counted(
                old(self).exchanges().1,
                if old(self).terms().contains_key(key@) {
                    1
                } else {
                    0
                },
            )),
            final(self).scans() == old(self).scans(),
            final(self).units() == old(self).units(),
            final(self).row_width() == old(self).row_width(),
    {
        match self.store.find_with_hash(key, hash) {
            Some(row) => {
                self.fold_into(row, coeff);
                self.count_hit();
                Ok(false)
            },
            None => {
                proof {
                    self.lemma_absent(key@);
                }
                match self.append(key, hash, coeff) {
                    Ok(()) => Ok(true),
                    Err(e) => Err(e),
                }
            },
        }
    }

    /// Counts a branch that landed on an existing row.
    fn count_hit(&mut self)
        requires
            old(self).wf(),
        ensures
            final(self).wf(),
            final(self).keys() == old(self).keys(),
            final(self).coeffs() == old(self).coeffs(),
            final(self).held() == old(self).held(),
            final(self).claims() == old(self).claims(),
            final(self).lacks_phase() == old(self).lacks_phase(),
            final(self).exchanges() == (old(self).exchanges().0, counted(
                old(self).exchanges().1,
                1,
            )),
            final(self).scans() == old(self).scans(),
            final(self).units() == old(self).units(),
            final(self).row_width() == old(self).row_width(),
    {
        self.hits = self.hits.saturating_add(1);
        proof {
            assert forall|i: int| #[trigger] self.held_at(i) == old(self).held_at(i) by {}
            assert(self.held() =~= old(self).held());
            assert(self.claims() =~= old(self).claims());
        }
    }

    /// Notes that a partner has paid for row `row`'s held-back branch, if it holds one.
    fn claim(&mut self, row: usize)
        requires
            old(self).wf(),
            row < old(self).keys().len(),
        ensures
            final(self).wf(),
            final(self).keys() == old(self).keys(),
            final(self).coeffs() == old(self).coeffs(),
            final(self).held() == old(self).held(),
            final(self).claims() == (if old(self).held()[row as int] is Some {
                old(self).claims().push(row as int)
            } else {
                old(self).claims()
            }),
            final(self).lacks_phase() == old(self).lacks_phase(),
            final(self).exchanges() == old(self).exchanges(),
            final(self).scans() == old(self).scans(),
            final(self).units() == old(self).units(),
            final(self).row_width() == old(self).row_width(),
    {
        if row < self.pending_slot.len() && self.pending_slot[row] != NO_BRANCH {
            self.claimed_rows.push(row as u32);
            proof {
                self.store.lemma_wf();
                assert forall|i: int| #[trigger] self.held_at(i) == old(self).held_at(i) by {}
                assert(self.claims() =~= old(self).claims().push(row as int));
                assert forall|j: int| 0 <= j < self.claimed_rows@.len() implies self.held_at(
                    (#[trigger] self.claimed_rows@[j]) as int,
                ) is Some by {
                    if j < old(self).claimed_rows@.len() {
                        assert(old(self).held_at(old(self).claimed_rows@[j] as int) is Some);
                    }
                }
            }
        }
        proof {
            assert forall|i: int| #[trigger] self.held_at(i) == old(self).held_at(i) by {}
            assert(self.held() =~= old(self).held());
            assert(self.claims() =~= self.claims());
        }
    }

    /// Folds one routed branch into this sum, appending it if absent, and pays for the branch
    /// the row holds back. Returns whether the row is new.
    pub fn absorb_routed(&mut self, msg: &Routed<C, W>) -> (r: Result<
        bool,
        TermIndexCeilingReached,
    >)
        requires
            old(self).wf(),
            msg.hash == strings::hash_of(msg.key@),
            operator_index::addressable(old(self).keys().len() as int + 1),
        ensures
            final(self).wf(),
            r is Err <==> !old(self).keys().contains(msg.key@) && old(self).keys().len() + 1
                >= u32::MAX,
            r is Err ==> final(self).keys() == old(self).keys() && final(self).coeffs() == old(self).coeffs() && final(self).held() == old(self).held(),
            r matches Ok(new) ==> {
                &&& new == !old(self).keys().contains(msg.key@)
                &&& final(self).terms() == old(self).terms().insert(
                    msg.key@,
                    gate::merged(gate::get(old(self).terms(), msg.key@), Some(msg.coeff))->0,
                )
                &&& final(self).keys() == (if new {
                    old(self).keys().push(msg.key@)
                } else {
                    old(self).keys()
                })
                &&& final(self).held() == (if new {
                    old(self).held().push(None)
                } else {
                    old(self).held()
                })
            },
            final(self).claims() == (if old(self).keys().contains(msg.key@) && old(self).held()[old(self).keys().index_of(msg.key@)] is Some {
                old(self).claims().push(old(self).keys().index_of(msg.key@))
            } else {
                old(self).claims()
            }),
            final(self).lacks_phase() == old(self).lacks_phase(),
            final(self).exchanges() == (old(self).exchanges().0, counted(
                old(self).exchanges().1,
                if old(self).keys().contains(msg.key@) {
                    1
                } else {
                    0
                },
            )),
            final(self).scans() == old(self).scans(),
            final(self).units() == old(self).units(),
            final(self).row_width() == old(self).row_width(),
    {
        match self.store.find_with_hash(&msg.key, msg.hash) {
            Some(row) => {
                proof {
                    let keys = self.keys();
                    assert(keys[row as int] == msg.key@);
                    assert(keys.contains(msg.key@));
                    let i = keys.index_of(msg.key@);
                    assert(keys[i] == msg.key@ && 0 <= i < keys.len());
                    if i < row {
                        assert(keys[i] != keys[row as int]);
                    }
                    if row < i {
                        assert(keys[row as int] != keys[i]);
                    }
                }
                self.count_hit();
                self.fold_into(row, msg.coeff.duplicate());
                self.claim(row);
                Ok(false)
            },
            None => {
                proof {
                    self.lemma_absent(msg.key@);
                }
                match self.append(&msg.key, msg.hash, msg.coeff.duplicate()) {
                    Ok(()) => Ok(true),
                    Err(e) => Err(e),
                }
            },
        }
    }

    /// True if a partner has paid for a held-back branch this gate.
    pub fn has_claims(&self) -> (r: bool)
        ensures
            r == (self.claims().len() > 0),
    {
        self.claimed_rows.len() > 0
    }

    /// Folds a list of routed branches into this sum, in order. Returns how many rows are
    /// new.
    ///
    /// When the store cannot number a new row, the branches before it have been folded in.
    pub fn absorb_batch(&mut self, msgs: &Vec<Routed<C, W>>) -> (r: Result<
        usize,
        TermIndexCeilingReached,
    >)
        requires
            old(self).wf(),
            stamped(msgs@),
            gate::separate(posted(msgs@), 64 * W as int),
            operator_index::addressable(old(self).keys().len() + msgs@.len() as int),
        ensures
            final(self).wf(),
            r is Err <==> old(self).keys().len() + gate::fresh(
                old(self).keys(),
                posted(msgs@),
                msgs@.len() as int,
            ) >= u32::MAX,
            r matches Ok(added) ==> added == gate::fresh(
                old(self).keys(),
                posted(msgs@),
                msgs@.len() as int,
            ) && old(self).absorbed(*final(self), posted(msgs@), msgs@.len() as int),
            r is Err ==> exists|t: int|
                0 <= t < msgs@.len() && #[trigger] old(self).absorbed(
                    *final(self),
                    posted(msgs@),
                    t,
                ),
            final(self).lacks_phase() == old(self).lacks_phase(),
            final(self).exchanges().0 == old(self).exchanges().0,
            final(self).scans() == old(self).scans(),
            final(self).units() == old(self).units(),
            final(self).row_width() == old(self).row_width(),
    {
        let ghost l = posted(msgs@);
        let mut added: usize = 0;
        let mut t: usize = 0;
        proof {
            self.lemma_wf();
            old(self).lemma_absorbed_none(l);
        }
        while t < msgs.len()
            invariant
                self.wf(),
                old(self).wf(),
                stamped(msgs@),
                l == posted(msgs@),
                gate::separate(l, 64 * W as int),
                operator_index::addressable(old(self).keys().len() + msgs@.len() as int),
                0 <= t <= msgs@.len(),
                added <= t,
                added == gate::fresh(old(self).keys(), l, t as int),
                old(self).absorbed(*self, l, t as int),
                self.lacks_phase() == old(self).lacks_phase(),
                self.exchanges().0 == old(self).exchanges().0,
                self.scans() == old(self).scans(),
                self.units() == old(self).units(),
                self.row_width() == old(self).row_width(),
            decreases msgs@.len() - t,
        {
            let ghost before = *self;
            proof {
                assert(l[t as int] == (msgs@[t as int].key@, msgs@[t as int].coeff));
                assert(before.keys().len() == old(self).keys().len() + added);
            }
            match self.absorb_routed(&msgs[t]) {
                Ok(new) => {
                    proof {
                        old(self).lemma_absorbed_step(before, *self, l, t as int, new);
                    }
                    if new {
                        added += 1;
                    }
                },
                Err(e) => {
                    proof {
                        old(self).lemma_absorbed_same(before, *self, l, t as int);
                        old(self).lemma_absorbed_full(before, l, t as int);
                        assert(old(self).absorbed(*self, l, t as int));
                    }
                    return Err(e);
                },
            }
            t += 1;
        }
        proof {
            self.lemma_wf();
        }
        Ok(added)
    }

    /// `after` is this sum with the first `t` messages folded in.
    pub open spec fn absorbed(&self, after: Self, msgs: Seq<Message<C>>, t: int) -> bool {
        &&& after.keys().len() == self.keys().len() + gate::fresh(self.keys(), msgs, t)
        &&& after.keys().take(self.keys().len() as int) == self.keys()
        &&& forall|k: Seq<bool>| #[trigger]
            gate::get(after.terms(), k) == gate::merged(
                gate::get(self.terms(), k),
                gate::brought(msgs.take(t), k),
            )
        &&& after.claims() == self.claims() + paid_rows(self.keys(), self.held(), msgs, t)
        &&& after.held().take(self.keys().len() as int) == self.held()
        &&& after.exchanges() == (self.exchanges().0, counted(
            self.exchanges().1,
            met(self.keys(), msgs, t),
        ))
        &&& after.scans() == self.scans()
    }

    /// No messages change nothing.
    pub proof fn lemma_absorbed_none(&self, msgs: Seq<Message<C>>)
        requires
            self.wf(),
        ensures
            self.absorbed(*self, msgs, 0),
            gate::fresh(self.keys(), msgs, 0) == 0,
    {
        self.lemma_wf();
        assert(msgs.take(0) =~= Seq::<Message<C>>::empty());
        assert(self.keys().take(self.keys().len() as int) =~= self.keys());
        assert(self.held().take(self.keys().len() as int) =~= self.held());
        assert(self.claims() + Seq::<int>::empty() =~= self.claims());
    }

    /// Only the rows, the held branches and the claims matter.
    proof fn lemma_absorbed_same(&self, a: Self, b: Self, msgs: Seq<Message<C>>, t: int)
        requires
            self.absorbed(a, msgs, t),
            a.keys() == b.keys(),
            a.coeffs() == b.coeffs(),
            a.held() == b.held(),
            a.claims() == b.claims(),
            a.exchanges() == b.exchanges(),
            a.scans() == b.scans(),
        ensures
            self.absorbed(b, msgs, t),
    {
        assert(a.terms() == b.terms());
    }

    /// A message to a new key, refused for want of row numbers, was one too many.
    proof fn lemma_absorbed_full(&self, before: Self, msgs: Seq<Message<C>>, t: int)
        requires
            self.wf(),
            before.wf(),
            self.absorbed(before, msgs, t),
            0 <= t < msgs.len(),
            !before.keys().contains(msgs[t].0),
            before.keys().len() + 1 >= u32::MAX,
        ensures
            self.keys().len() + gate::fresh(self.keys(), msgs, msgs.len() as int) >= u32::MAX,
    {
        let k = msgs[t].0;
        let all = Seq::new(msgs.len(), |j: int| !self.keys().contains(msgs[j].0));
        let next = Seq::new((t + 1) as nat, |j: int| !self.keys().contains(msgs[j].0));
        assert(next.drop_last() =~= Seq::new(t as nat, |j: int| !self.keys().contains(msgs[j].0)));
        assert(!self.keys().contains(k)) by {
            if self.keys().contains(k) {
                let i = choose|i: int| 0 <= i < self.keys().len() && self.keys()[i] == k;
                assert(before.keys().take(self.keys().len() as int)[i] == before.keys()[i]);
            }
        }
        assert(all.take(t + 1) =~= next);
        bits::lemma_ones_take(all, t + 1);
    }

    proof fn lemma_absorbed_step(
        &self,
        before: Self,
        after: Self,
        msgs: Seq<Message<C>>,
        t: int,
        new: bool,
    )
        requires
            self.wf(),
            before.wf(),
            after.wf(),
            gate::separate(msgs, 64 * W as int),
            0 <= t < msgs.len(),
            self.absorbed(before, msgs, t),
            new == !before.keys().contains(msgs[t].0),
            after.terms() == before.terms().insert(
                msgs[t].0,
                gate::merged(gate::get(before.terms(), msgs[t].0), Some(msgs[t].1))->0,
            ),
            after.keys() == (if new {
                before.keys().push(msgs[t].0)
            } else {
                before.keys()
            }),
            after.held() == (if new {
                before.held().push(None)
            } else {
                before.held()
            }),
            after.claims() == (if before.keys().contains(msgs[t].0)
                && before.held()[before.keys().index_of(msgs[t].0)] is Some {
                before.claims().push(before.keys().index_of(msgs[t].0))
            } else {
                before.claims()
            }),
            after.exchanges() == (before.exchanges().0, counted(
                before.exchanges().1,
                if new {
                    0
                } else {
                    1
                },
            )),
            after.scans() == before.scans(),
        ensures
            self.absorbed(after, msgs, t + 1),
            gate::fresh(self.keys(), msgs, t + 1) == gate::fresh(self.keys(), msgs, t) + (if new {
                1nat
            } else {
                0nat
            }),
    {
        let k = msgs[t].0;
        let n = self.keys().len() as int;
        self.lemma_wf();
        before.lemma_wf();
        after.lemma_wf();
        let head = msgs.take(t);
        assert(msgs.take(t + 1).drop_last() =~= head);
        assert(msgs.take(t + 1).last() == msgs[t]);
        // No earlier message went to `k`.
        gate::lemma_brought(head, k);
        assert(gate::brought(head, k) is None) by {
            if gate::brought(head, k) is Some {
                let j = choose|j: int| 0 <= j < head.len() && (#[trigger] head[j]).0 == k;
                assert(msgs[j] == head[j]);
                assert(msgs[j].0 != msgs[t].0);
            }
        }
        assert(gate::get(before.terms(), k) == gate::get(self.terms(), k));
        // So a row for `k` is one of the rows there were at first.
        assert(before.keys().contains(k) == self.keys().contains(k)) by {
            assert(before.terms().contains_key(k) == self.terms().contains_key(k));
        }
        if self.keys().contains(k) {
            let i = self.keys().index_of(k);
            assert(self.keys()[i] == k && 0 <= i < n);
            assert(before.keys().take(n)[i] == before.keys()[i]);
            let j = before.keys().index_of(k);
            assert(before.keys()[j] == k && 0 <= j < before.keys().len());
            if i < j {
                assert(before.keys()[i] != before.keys()[j]);
            }
            if j < i {
                assert(before.keys()[j] != before.keys()[i]);
            }
            assert(before.held().take(n)[i] == before.held()[i]);
        }
        assert(Seq::new((t + 1) as nat, |j: int| !self.keys().contains(msgs[j].0)).drop_last()
            =~= Seq::new(t as nat, |j: int| !self.keys().contains(msgs[j].0)));
        assert(after.keys().take(n) =~= before.keys().take(n));
        assert(after.held().take(n) =~= before.held().take(n));
        assert forall|x: Seq<bool>| #[trigger] gate::get(after.terms(), x) == gate::merged(
            gate::get(self.terms(), x),
            gate::brought(msgs.take(t + 1), x),
        ) by {
            assert(gate::get(before.terms(), x) == gate::merged(
                gate::get(self.terms(), x),
                gate::brought(head, x),
            ));
        }
        assert(after.claims() =~= self.claims() + paid_rows(
            self.keys(),
            self.held(),
            msgs,
            t + 1,
        ));
        lemma_met(self.keys(), msgs, t);
        lemma_met(self.keys(), msgs, t + 1);
    }

    /// Folding in the first messages of a list reads no others.
    pub proof fn lemma_absorbed_prefix(
        &self,
        after: Self,
        a: Seq<Message<C>>,
        b: Seq<Message<C>>,
        t: int,
    )
        requires
            0 <= t <= a.len(),
            t <= b.len(),
            a.take(t) == b.take(t),
            self.absorbed(after, a, t),
        ensures
            self.absorbed(after, b, t),
            gate::fresh(self.keys(), a, t) == gate::fresh(self.keys(), b, t),
    {
        assert forall|j: int| 0 <= j < t implies a[j] == b[j] by {
            assert(a.take(t)[j] == b.take(t)[j]);
        }
        assert(Seq::new(t as nat, |j: int| !self.keys().contains(a[j].0)) =~= Seq::new(
            t as nat,
            |j: int| !self.keys().contains(b[j].0),
        ));
        lemma_paid_same(self.keys(), self.held(), a, b, t);
    }

    /// Two lists of messages create the rows of the first and then those of the second.
    pub proof fn lemma_fresh_both(&self, mid: Self, a: Seq<Message<C>>, b: Seq<Message<C>>)
        requires
            gate::separate(a + b, 64 * W as int),
            self.absorbed(mid, a, a.len() as int),
        ensures
            gate::fresh(self.keys(), a + b, (a + b).len() as int) == gate::fresh(
                self.keys(),
                a,
                a.len() as int,
            ) + gate::fresh(mid.keys(), b, b.len() as int),
            forall|j: int|
                0 <= j < b.len() ==> mid.keys().contains((#[trigger] b[j]).0)
                    == self.keys().contains(b[j].0),
    {
        let l = a + b;
        assert(a.take(a.len() as int) =~= a);
        // The second list goes to no key of the first.
        assert forall|j: int| 0 <= j < b.len() implies mid.keys().contains((#[trigger] b[j]).0)
            == self.keys().contains(b[j].0) by {
            let k = b[j].0;
            assert(l[a.len() + j] == b[j]);
            gate::lemma_brought(a, k);
            if gate::brought(a, k) is Some {
                let i = choose|i: int| 0 <= i < a.len() && (#[trigger] a[i]).0 == k;
                assert(l[i] == a[i]);
                assert(l[i].0 != l[a.len() + j].0);
            }
            assert(gate::get(mid.terms(), k) == gate::get(self.terms(), k));
            assert(mid.terms().contains_key(k) == self.terms().contains_key(k));
        }
        let fa = Seq::new(a.len(), |j: int| !self.keys().contains(a[j].0));
        let fb = Seq::new(b.len(), |j: int| !mid.keys().contains(b[j].0));
        let fl = Seq::new(l.len(), |j: int| !self.keys().contains(l[j].0));
        assert forall|j: int| 0 <= j < l.len() implies fl[j] == (fa + fb)[j] by {
            if j >= a.len() {
                assert(l[j] == b[j - a.len()]);
                assert(mid.keys().contains(b[j - a.len()].0) == self.keys().contains(
                    b[j - a.len()].0,
                ));
            }
        }
        assert(fl =~= fa + fb);
        bits::lemma_ones_add(fa, fb);
    }

    /// Folding in one list of messages and then another folds in both.
    pub proof fn lemma_absorbed_both(
        &self,
        mid: Self,
        after: Self,
        a: Seq<Message<C>>,
        b: Seq<Message<C>>,
    )
        requires
            self.wf(),
            mid.wf(),
            after.wf(),
            gate::separate(a + b, 64 * W as int),
            self.absorbed(mid, a, a.len() as int),
            mid.absorbed(after, b, b.len() as int),
        ensures
            self.absorbed(after, a + b, (a + b).len() as int),
            gate::fresh(self.keys(), a + b, (a + b).len() as int) == gate::fresh(
                self.keys(),
                a,
                a.len() as int,
            ) + gate::fresh(mid.keys(), b, b.len() as int),
    {
        let n = self.keys().len() as int;
        let l = a + b;
        self.lemma_wf();
        mid.lemma_wf();
        after.lemma_wf();
        assert(a.take(a.len() as int) =~= a);
        assert(b.take(b.len() as int) =~= b);
        assert(l.take(l.len() as int) =~= l);
        self.lemma_fresh_both(mid, a, b);
        assert forall|k: Seq<bool>| #[trigger] gate::get(after.terms(), k) == gate::merged(
            gate::get(self.terms(), k),
            gate::brought(l, k),
        ) by {
            gate::lemma_brought_add(a, b, k);
            gate::lemma_brought(a, k);
            gate::lemma_brought(b, k);
            assert(gate::get(mid.terms(), k) == gate::merged(
                gate::get(self.terms(), k),
                gate::brought(a, k),
            ));
            if gate::brought(a, k) is Some && gate::brought(b, k) is Some {
                let i = choose|i: int| 0 <= i < a.len() && (#[trigger] a[i]).0 == k;
                let j = choose|j: int| 0 <= j < b.len() && (#[trigger] b[j]).0 == k;
                assert(l[i] == a[i] && l[a.len() + j] == b[j]);
                assert(l[i].0 != l[a.len() + j].0);
            }
        }
        assert(after.keys().take(n) =~= self.keys()) by {
            assert forall|i: int| 0 <= i < n implies after.keys()[i] == self.keys()[i] by {
                assert(after.keys().take(mid.keys().len() as int)[i] == after.keys()[i]);
                assert(mid.keys().take(n)[i] == mid.keys()[i]);
            }
        }
        assert(after.held().take(n) =~= self.held()) by {
            assert forall|i: int| 0 <= i < n implies after.held()[i] == self.held()[i] by {
                assert(after.held().take(mid.keys().len() as int)[i] == after.held()[i]);
                assert(mid.held().take(n)[i] == mid.held()[i]);
            }
        }
        self.lemma_paid_both(mid, a, b, b.len() as int);
        lemma_paid_prefix(self.keys(), self.held(), a, b, a.len() as int);
        assert(after.claims() =~= self.claims() + paid_rows(
            self.keys(),
            self.held(),
            l,
            l.len() as int,
        ));
        lemma_met(self.keys(), a, a.len() as int);
        lemma_met(mid.keys(), b, b.len() as int);
        lemma_met(self.keys(), l, l.len() as int);
    }

    /// The second list pays for rows as it would have after the first.
    proof fn lemma_paid_both(&self, mid: Self, a: Seq<Message<C>>, b: Seq<Message<C>>, t: int)
        requires
            self.wf(),
            mid.wf(),
            0 <= t <= b.len(),
            mid.keys().take(self.keys().len() as int) == self.keys(),
            mid.keys().len() >= self.keys().len(),
            mid.held().take(self.keys().len() as int) == self.held(),
            forall|j: int|
                0 <= j < b.len() ==> mid.keys().contains((#[trigger] b[j]).0)
                    == self.keys().contains(b[j].0),
        ensures
            paid_rows(self.keys(), self.held(), a + b, a.len() + t) == paid_rows(
                self.keys(),
                self.held(),
                a + b,
                a.len() as int,
            ) + paid_rows(mid.keys(), mid.held(), b, t),
        decreases t,
    {
        let l = a + b;
        let n = self.keys().len() as int;
        self.lemma_wf();
        mid.lemma_wf();
        if t == 0 {
            assert(paid_rows(self.keys(), self.held(), l, a.len() as int)
                + Seq::<int>::empty() =~= paid_rows(
                self.keys(),
                self.held(),
                l,
                a.len() as int,
            ));
        } else {
            self.lemma_paid_both(mid, a, b, t - 1);
            let k = b[t - 1].0;
            assert(l[a.len() + t - 1] == b[t - 1]);
            assert(mid.keys().contains(b[t - 1].0) == self.keys().contains(b[t - 1].0));
            if self.keys().contains(k) {
                let i = self.keys().index_of(k);
                assert(self.keys()[i] == k && 0 <= i < n);
                assert(mid.keys().take(n)[i] == mid.keys()[i]);
                assert(mid.held().take(n)[i] == mid.held()[i]);
                let j = mid.keys().index_of(k);
                assert(mid.keys()[j] == k && 0 <= j < mid.keys().len());
                if i < j {
                    assert(mid.keys()[i] != mid.keys()[j]);
                }
                if j < i {
                    assert(mid.keys()[j] != mid.keys()[i]);
                }
            }
            assert(paid_rows(self.keys(), self.held(), l, a.len() + t) =~= paid_rows(
                self.keys(),
                self.held(),
                l,
                a.len() as int,
            ) + paid_rows(mid.keys(), mid.held(), b, t));
        }
    }

    /// The rotation a context, a parameter and a cutoff make on this sum.
    pub open spec fn gate<A: Basis<W>, K>(
        &self,
        ctx: A::GenContext,
        param: C::GateParam,
        cutoff: EmitCutoff<C::Real, K>,
    ) -> Gate<A, C, K, W> {
        emit::gate_for(A::generator_of(ctx), A::negated(ctx), param, cutoff, self.units())
    }

    /// Clears the previous gate's held-back branches and makes room for this one's.
    fn reset_pending(&mut self)
        requires
            old(self).wf(),
        ensures
            final(self).wf(),
            final(self).store == old(self).store,
            final(self).coeffs == old(self).coeffs,
            final(self).inverted == old(self).inverted,
            final(self).pending_slot@.len() == final(self).store.row_count(),
            final(self).pending_rows@.len() == 0,
            forall|i: int| final(self).held_at(i) is None,
            final(self).claims() == Seq::<int>::empty(),
            final(self).exchanges() == old(self).exchanges(),
            final(self).scans() == old(self).scans(),
            final(self).units() == old(self).units(),
            final(self).row_width() == old(self).row_width(),
    {
        let mut j: usize = 0;
        while j < self.pending_rows.len()
            invariant
                j <= self.pending_rows@.len(),
                self.store == old(self).store,
                self.coeffs == old(self).coeffs,
                self.inverted == old(self).inverted,
                self.pending_rows@ == old(self).pending_rows@,
                self.pending_slot@.len() == old(self).pending_slot@.len(),
                old(self).pending_wf(),
                self.emitted == old(self).emitted,
                self.hits == old(self).hits,
                self.visited == old(self).visited,
                self.declined == old(self).declined,
                self.n_units == old(self).n_units,
                forall|i: int|
                    0 <= i < self.pending_slot@.len() ==> (#[trigger] self.pending_slot@[i])
                        == NO_BRANCH || (self.pending_slot@[i] == old(self).pending_slot@[i]
                        && self.pending_slot@[i] >= j),
            decreases self.pending_rows@.len() - j,
        {
            let row: usize = self.pending_rows[j] as usize;
            self.pending_slot.set(row, NO_BRANCH);
            proof {
                assert forall|i: int| 0 <= i < self.pending_slot@.len() implies (
                #[trigger] self.pending_slot@[i]) == NO_BRANCH || (self.pending_slot@[i] == old(
                    self,
                ).pending_slot@[i] && self.pending_slot@[i] >= j + 1) by {
                    if self.pending_slot@[i] != NO_BRANCH && self.pending_slot@[i] == j {
                        assert(old(self).pending_slot@[i] == j);
                        assert(old(self).pending_rows@[j as int] == i);
                    }
                }
            }
            j += 1;
        }
        self.pending_rows.clear();
        self.pending_vals.clear();
        self.claimed_rows.clear();
        proof {
            assert forall|i: int| 0 <= i < self.pending_slot@.len() implies (
            #[trigger] self.pending_slot@[i]) == NO_BRANCH by {}
        }
        let n: usize = self.store.len();
        while self.pending_slot.len() < n
            invariant
                n == self.store.row_count(),
                self.store == old(self).store,
                self.coeffs == old(self).coeffs,
                self.inverted == old(self).inverted,
                self.pending_rows@.len() == 0,
                self.pending_vals@.len() == 0,
                self.claimed_rows@.len() == 0,
                self.emitted == old(self).emitted,
                self.hits == old(self).hits,
                self.visited == old(self).visited,
                self.declined == old(self).declined,
                self.n_units == old(self).n_units,
                self.pending_slot@.len() <= n,
                forall|i: int|
                    0 <= i < self.pending_slot@.len() ==> (#[trigger] self.pending_slot@[i])
                        == NO_BRANCH,
            decreases n - self.pending_slot@.len(),
        {
            self.pending_slot.push(NO_BRANCH);
        }
        proof {
            assert(self.claims() =~= Seq::<int>::empty());
        }
    }

    /// Holds row `row`'s branch back for its partner to claim.
    fn hold_back(&mut self, row: usize, coeff: C)
        requires
            old(self).wf(),
            row < old(self).pending_slot@.len(),
            old(self).held_at(row as int) is None,
            old(self).pending_rows@.len() < old(self).keys().len(),
        ensures
            final(self).wf(),
            final(self).store == old(self).store,
            final(self).coeffs == old(self).coeffs,
            final(self).inverted == old(self).inverted,
            final(self).pending_slot@.len() == old(self).pending_slot@.len(),
            final(self).pending_rows@.len() == old(self).pending_rows@.len() + 1,
            final(self).held() == old(self).held().update(row as int, Some(coeff)),
            final(self).claims() == old(self).claims(),
            final(self).lacks_phase() == old(self).lacks_phase(),
            final(self).exchanges() == old(self).exchanges(),
            final(self).scans() == old(self).scans(),
            final(self).units() == old(self).units(),
            final(self).row_width() == old(self).row_width(),
    {
        proof {
            self.store.lemma_wf();
        }
        let slot: usize = self.pending_rows.len();
        self.pending_slot.set(row, slot as u32);
        self.pending_rows.push(row as u32);
        self.pending_vals.push(coeff);
        proof {
            assert forall|i: int| 0 <= i < self.pending_slot@.len() implies (
            #[trigger] self.pending_slot@[i]) == NO_BRANCH || (self.pending_slot@[i]
                < self.pending_rows@.len() && self.pending_rows@[self.pending_slot@[i] as int]
                == i) by {
                if i != row {
                    assert(self.pending_slot@[i] == old(self).pending_slot@[i]);
                }
            }
            assert forall|s: int| 0 <= s < self.pending_rows@.len() implies (
            #[trigger] self.pending_rows@[s]) < self.pending_slot@.len()
                && self.pending_slot@[self.pending_rows@[s] as int] == s by {
                if s < slot {
                    let r = old(self).pending_rows@[s];
                    assert(self.pending_rows@[s] == r);
                    assert(old(self).pending_slot@[r as int] == s);
                    assert(r != row);
                }
            }
            assert forall|i: int| #[trigger] self.held_at(i) == (if i == row {
                Some(coeff)
            } else {
                old(self).held_at(i)
            }) by {
                if 0 <= i < self.pending_slot@.len() && i != row && self.pending_slot@[i]
                    != NO_BRANCH {
                    assert(self.pending_slot@[i] == old(self).pending_slot@[i]);
                    assert(self.pending_slot@[i] < slot);
                }
            }
            assert(self.held() =~= old(self).held().update(row as int, Some(coeff)));
            assert(self.claims() =~= old(self).claims());
            assert forall|j: int| 0 <= j < self.claimed_rows@.len() implies self.held_at(
                (#[trigger] self.claimed_rows@[j]) as int,
            ) is Some by {
                assert(old(self).held_at(old(self).claimed_rows@[j] as int) is Some);
            }
        }
    }

    /// Rewrites row `i`'s coefficient.
    fn set_coeff(&mut self, i: usize, c: C)
        requires
            old(self).wf(),
            i < old(self).keys().len(),
        ensures
            final(self).wf(),
            final(self).store == old(self).store,
            final(self).coeffs() == old(self).coeffs().update(i as int, c),
            final(self).inverted == old(self).inverted,
            final(self).pending_slot == old(self).pending_slot,
            final(self).pending_rows == old(self).pending_rows,
            final(self).held() == old(self).held(),
            final(self).claims() == old(self).claims(),
            final(self).lacks_phase() == old(self).lacks_phase(),
            final(self).exchanges() == old(self).exchanges(),
            final(self).scans() == old(self).scans(),
            final(self).units() == old(self).units(),
            final(self).row_width() == old(self).row_width(),
    {
        self.coeffs.set(i, c);
        proof {
            assert forall|r: int| #[trigger] self.held_at(r) == old(self).held_at(r) by {}
            assert(self.held() =~= old(self).held());
            assert(self.claims() =~= old(self).claims());
        }
    }

    /// Moves the counters.
    fn count_scan(&mut self, visited: bool, declined: bool, emitted: bool)
        requires
            old(self).wf(),
        ensures
            final(self).wf(),
            final(self).store == old(self).store,
            final(self).coeffs == old(self).coeffs,
            final(self).inverted == old(self).inverted,
            final(self).pending_slot == old(self).pending_slot,
            final(self).pending_rows == old(self).pending_rows,
            final(self).held() == old(self).held(),
            final(self).claims() == old(self).claims(),
            final(self).lacks_phase() == old(self).lacks_phase(),
            final(self).exchanges() == (counted(
                old(self).exchanges().0,
                if emitted {
                    1
                } else {
                    0
                },
            ), old(self).exchanges().1),
            final(self).scans() == (counted(
                old(self).scans().0,
                if visited {
                    1
                } else {
                    0
                },
            ), counted(
                old(self).scans().1,
                if declined {
                    1
                } else {
                    0
                },
            )),
            final(self).units() == old(self).units(),
            final(self).row_width() == old(self).row_width(),
    {
        if visited {
            self.visited = self.visited.saturating_add(1);
        }
        if declined {
            self.declined = self.declined.saturating_add(1);
        }
        if emitted {
            self.emitted = self.emitted.saturating_add(1);
        }
        proof {
            assert forall|r: int| #[trigger] self.held_at(r) == old(self).held_at(r) by {}
            assert(self.held() =~= old(self).held());
            assert(self.claims() =~= old(self).claims());
        }
    }

    /// The branch a row holds back once the rotation has reached it.
    pub open spec fn held_by(fate: Fate<C>) -> Option<C> {
        match fate {
            Fate::Holds(b) => Some(b),
            _ => None,
        }
    }

    /// Rotates row `i` into its cosine branch and either routes the sine branch or holds it
    /// back for the partner to claim.
    fn emit_from_row<A: Basis<W>, K: TruncationKernel<C::Real>>(
        &mut self,
        i: usize,
        ctx: &A::GenContext,
        param: &C::GateParam,
        cutoff: &EmitCutoff<C::Real, K>,
        n_partitions: usize,
        outbox: &mut Vec<Vec<Routed<C, W>>>,
        precheck: &Option<EmitPrecheck<C::Real>>,
        factors: Option<(C::Real, C::Real)>,
    )
        requires
            old(self).wf(),
            i < old(self).keys().len(),
            factors == C::factors(*param),
            *precheck == emit::precheck_of(factors, *cutoff),
            A::anti(A::generator_of(*ctx), old(self).keys()[i as int]),
            old(self).pending_slot@.len() == old(self).keys().len(),
            old(self).pending_rows@.len() <= i,
            old(self).held()[i as int] is None,
            0 < old(outbox)@.len(),
            n_partitions <= old(outbox)@.len(),
            forall|p: int| 0 <= p < old(outbox)@.len() ==> stamped((#[trigger] old(outbox)@[p])@),
        ensures
            final(self).wf(),
            final(self).store == old(self).store,
            final(self).inverted == old(self).inverted,
            final(self).keys() == old(self).keys(),
            final(self).pending_slot@.len() == old(self).pending_slot@.len(),
            final(self).pending_rows@.len() <= i + 1,
            final(self).claims() == old(self).claims(),
            final(self).lacks_phase() == old(self).lacks_phase(),
            final(self).units() == old(self).units(),
            final(self).row_width() == old(self).row_width(),
            ({
                let g = old(self).gate::<A, K>(*ctx, *param, *cutoff);
                let key = old(self).keys()[i as int];
                let c = old(self).coeffs()[i as int];
                let fate = g.fate(key, c);
                &&& final(self).coeffs() == old(self).coeffs().update(i as int, g.remains(key, c))
                &&& final(self).held() == old(self).held().update(i as int, Self::held_by(fate))
                &&& final(self).exchanges() == (counted(
                    old(self).exchanges().0,
                    if fate is Sends {
                        1
                    } else {
                        0
                    },
                ), old(self).exchanges().1)
                &&& final(self).scans() == (counted(old(self).scans().0, 1), counted(
                    old(self).scans().1,
                    if fate is Holds {
                        1
                    } else {
                        0
                    },
                ))
                &&& final(outbox)@.len() == old(outbox)@.len()
                &&& forall|p: int|
                    0 <= p < old(outbox)@.len() ==> stamped((#[trigger] final(outbox)@[p])@)
                        && posted(final(outbox)@[p]@) == (if fate is Sends && gate::owner(
                        g.partner(key),
                        n_partitions as nat,
                    ) == p {
                        posted(old(outbox)@[p]@).push((g.partner(key), fate->Sends_0))
                    } else {
                        posted(old(outbox)@[p]@)
                    })
            }),
    {
        let ghost g = self.gate::<A, K>(*ctx, *param, *cutoff);
        let ghost key = self.keys()[i as int];
        let ghost c = self.coeffs()[i as int];
        proof {
            assert(self.held()[i as int] == self.held_at(i as int));
        }
        if let Some(pre) = precheck {
            if C::real_less(self.coeffs[i].sin_branch_magnitude(pre.sin), pre.min_coeff) {
                let mut held: C = self.coeffs[i].duplicate();
                held.scale_real(pre.sin);
                let mut left: C = self.coeffs[i].duplicate();
                left.scale_real(pre.cos);
                self.hold_back(i, held);
                self.set_coeff(i, left);
                self.count_scan(true, true, false);
                return;
            }
        }
        proof {
            self.lemma_wf();
        }
        let mono: BasisString<W> = self.store.row(i);
        let (child, phase) = A::product(ctx, &mono);
        let mut left: C = self.coeffs[i].duplicate();
        let sin_branch: C = left.apply_rotation_with(param, factors, phase);
        self.set_coeff(i, left);
        proof {
            assert(self.held().update(i as int, None::<C>) =~= self.held());
        }
        if !emit::admits_key::<A, C::Real, K, W>(cutoff, &child, self.n_units) {
            self.count_scan(true, false, false);
            return;
        }
        if !emit::admits_child::<A, C, K, W>(cutoff, &child, &sin_branch, self.n_units) {
            self.hold_back(i, sin_branch);
            self.count_scan(true, true, false);
            return;
        }
        let hash: u64 = OperatorIndex::<P, W>::hash_of(&child);
        let p: usize = partition_from_hash(hash, n_partitions);
        self.count_scan(true, false, true);
        Self::post(outbox, p, Routed { key: child, hash, coeff: sin_branch });
    }

    /// Puts a message into box `p`.
    fn post(outbox: &mut Vec<Vec<Routed<C, W>>>, p: usize, msg: Routed<C, W>)
        requires
            p < old(outbox)@.len(),
            msg.hash == strings::hash_of(msg.key@),
            forall|q: int| 0 <= q < old(outbox)@.len() ==> stamped((#[trigger] old(outbox)@[q])@),
        ensures
            final(outbox)@.len() == old(outbox)@.len(),
            forall|q: int|
                0 <= q < old(outbox)@.len() ==> stamped((#[trigger] final(outbox)@[q])@) && posted(
                    final(outbox)@[q]@,
                ) == (if q == p {
                    posted(old(outbox)@[q]@).push((msg.key@, msg.coeff))
                } else {
                    posted(old(outbox)@[q]@)
                }),
    {
        let ghost m = (msg.key@, msg.coeff);
        outbox[p].push(msg);
        proof {
            assert(stamped(old(outbox)@[p as int]@));
            assert(posted(outbox@[p as int]@) =~= posted(old(outbox)@[p as int]@).push(m));
        }
    }

    /// Rotates every source into its cosine branch and routes the sine branches into
    /// `outbox`, one box per owning partition, in row order. Branches too small to carry are
    /// held back.
    pub fn scan_into<A: Basis<W>, K: TruncationKernel<C::Real>>(
        &mut self,
        ctx: &A::GenContext,
        param: &C::GateParam,
        cutoff: &EmitCutoff<C::Real, K>,
        n_partitions: usize,
        outbox: &mut Vec<Vec<Routed<C, W>>>,
    )
        requires
            old(self).wf(),
            operator_index::addressable(old(self).keys().len() as int),
            0 < old(outbox)@.len(),
            n_partitions <= old(outbox)@.len(),
            forall|p: int| 0 <= p < old(outbox)@.len() ==> stamped((#[trigger] old(outbox)@[p])@),
        ensures
            final(self).wf(),
            final(self).keys() == old(self).keys(),
            final(self).claims() == Seq::<int>::empty(),
            final(self).units() == old(self).units(),
            final(self).row_width() == old(self).row_width(),
            final(outbox)@.len() == old(outbox)@.len(),
            ({
                let g = old(self).gate::<A, K>(*ctx, *param, *cutoff);
                let n = old(self).keys().len();
                &&& final(self).lacks_phase() == (g.precheck() is Some)
                &&& final(self).coeffs() == Seq::new(
                    n,
                    |i: int| g.remains(old(self).keys()[i], old(self).coeffs()[i]),
                )
                &&& final(self).held() == Seq::new(
                    n,
                    |i: int| Self::held_by(g.fate(old(self).keys()[i], old(self).coeffs()[i])),
                )
                &&& final(self).exchanges() == (counted(
                    old(self).exchanges().0,
                    bits::ones(
                        Seq::new(
                            n,
                            |i: int| g.fate(old(self).keys()[i], old(self).coeffs()[i]) is Sends,
                        ),
                    ),
                ), old(self).exchanges().1)
                &&& final(self).scans() == (counted(
                    old(self).scans().0,
                    bits::ones(Seq::new(n, |i: int| g.branches(old(self).keys()[i]))),
                ), counted(
                    old(self).scans().1,
                    bits::ones(
                        Seq::new(
                            n,
                            |i: int| g.fate(old(self).keys()[i], old(self).coeffs()[i]) is Holds,
                        ),
                    ),
                ))
                &&& forall|p: int|
                    0 <= p < old(outbox)@.len() ==> stamped((#[trigger] final(outbox)@[p])@)
                        && posted(final(outbox)@[p]@) == posted(old(outbox)@[p]@) + gate::sent(
                        g,
                        old(self).keys(),
                        old(self).coeffs(),
                        n as int,
                        p,
                        n_partitions as nat,
                    )
            }),
    {
        let ghost g = self.gate::<A, K>(*ctx, *param, *cutoff);
        let ghost keys = self.keys();
        let ghost c0 = self.coeffs();
        let ghost n = self.keys().len() as int;
        let ghost s = n_partitions as nat;
        proof {
            self.lemma_wf();
            self.store.lemma_wf();
        }
        self.reset_pending();
        let factors = C::rotation_factors(param);
        let precheck: Option<EmitPrecheck<C::Real>> = EmitPrecheck::for_gate(factors, cutoff);
        self.pending_needs_phase = precheck.is_some();
        proof {
            assert forall|i: int| self.held_at(i) is None by {}
        }
        let rows: Vec<usize> = self.select_rows::<A>(ctx);
        let ghost flags = Seq::new(n as nat, |i: int| g.branches(keys[i]));
        let ghost mut done: int = 0;
        let mut t: usize = 0;
        proof {
            assert(flags =~= Seq::new(
                keys.len(),
                |i: int| A::anti(A::generator_of(*ctx), keys[i]),
            ));
            bits::lemma_set_positions(flags);
            assert forall|p: int| 0 <= p < outbox@.len() implies posted(
                (#[trigger] outbox@[p])@,
            ) == posted(old(outbox)@[p]@) + gate::sent(g, keys, c0, 0, p, s) by {
                assert(posted(old(outbox)@[p]@) + Seq::<Message<C>>::empty() =~= posted(
                    old(outbox)@[p]@,
                ));
            }
            assert(Seq::new(0, |i: int| g.fate(keys[i], c0[i]) is Sends) =~= Seq::<bool>::empty());
            assert(Seq::new(0, |i: int| g.fate(keys[i], c0[i]) is Holds) =~= Seq::<bool>::empty());
            assert(Seq::new(0, |i: int| g.branches(keys[i])) =~= Seq::<bool>::empty());
        }
        while t < rows.len()
            invariant
                self.wf(),
                self.keys() == keys,
                keys.len() == n,
                c0.len() == n,
                g == self.gate::<A, K>(*ctx, *param, *cutoff),
                s == n_partitions,
                factors == C::factors(*param),
                precheck == emit::precheck_of(factors, *cutoff),
                flags == Seq::new(n as nat, |i: int| g.branches(keys[i])),
                rows@.len() == bits::set_positions(flags).len(),
                forall|k: int|
                    0 <= k < rows@.len() ==> #[trigger] rows@[k] == bits::set_positions(flags)[k],
                0 <= t <= rows@.len(),
                0 <= done <= n,
                forall|k: int| 0 <= k < t ==> #[trigger] rows@[k] < done,
                forall|k: int| t <= k < rows@.len() ==> #[trigger] rows@[k] >= done,
                self.coeffs().len() == n,
                self.held().len() == n,
                forall|i: int|
                    0 <= i < n ==> #[trigger] self.coeffs()[i] == (if i < done {
                        g.remains(keys[i], c0[i])
                    } else {
                        c0[i]
                    }),
                forall|i: int|
                    0 <= i < n ==> #[trigger] self.held()[i] == (if i < done {
                        Self::held_by(g.fate(keys[i], c0[i]))
                    } else {
                        None
                    }),
                self.pending_slot@.len() == n,
                self.pending_rows@.len() <= done,
                self.claims() == Seq::<int>::empty(),
                self.lacks_phase() == (g.precheck() is Some),
                self.units() == old(self).units(),
                self.row_width() == old(self).row_width(),
                0 < outbox@.len(),
                n_partitions <= outbox@.len(),
                outbox@.len() == old(outbox)@.len(),
                forall|p: int|
                    0 <= p < outbox@.len() ==> stamped((#[trigger] outbox@[p])@) && posted(
                        outbox@[p]@,
                    ) == posted(old(outbox)@[p]@) + gate::sent(g, keys, c0, done, p, s),
                self.exchanges() == (counted(
                    old(self).exchanges().0,
                    bits::ones(Seq::new(done as nat, |i: int| g.fate(keys[i], c0[i]) is Sends)),
                ), old(self).exchanges().1),
                self.scans() == (counted(
                    old(self).scans().0,
                    bits::ones(Seq::new(done as nat, |i: int| g.branches(keys[i]))),
                ), counted(
                    old(self).scans().1,
                    bits::ones(Seq::new(done as nat, |i: int| g.fate(keys[i], c0[i]) is Holds)),
                )),
            decreases rows@.len() - t,
        {
            let i: usize = rows[t];
            let ghost was = self.coeffs();
            let ghost had = self.held();
            let ghost boxes = outbox@;
            proof {
                bits::lemma_set_positions(flags);
                assert(flags[bits::set_positions(flags)[t as int]]);
                assert forall|x: int| done <= x < i implies !g.branches(#[trigger] keys[x]) by {
                    if flags[x] {
                        assert(bits::set_positions(flags).contains(x));
                        let k = choose|k: int|
                            0 <= k < bits::set_positions(flags).len() && bits::set_positions(
                                flags,
                            )[k] == x;
                        assert(rows@[k] == x);
                        if k < t {
                            assert(rows@[k] < done);
                        } else if k > t {
                            assert(bits::set_positions(flags)[t as int] < bits::set_positions(
                                flags,
                            )[k]);
                        }
                    }
                }
                lemma_scan_skip(g, keys, c0, done, i as int);
                assert forall|p: int| gate::sent(g, keys, c0, i as int, p, s) == #[trigger] gate::sent(
                    g,
                    keys,
                    c0,
                    done,
                    p,
                    s,
                ) by {
                    gate::lemma_sent_skip(g, keys, c0, done, i as int, p, s);
                }
            }
            self.emit_from_row::<A, K>(
                i,
                ctx,
                param,
                cutoff,
                n_partitions,
                outbox,
                &precheck,
                factors,
            );
            proof {
                let next = i + 1;
                lemma_scan_count(g, keys, c0, i as int);
                assert forall|x: int| 0 <= x < n implies #[trigger] self.coeffs()[x] == (if x
                    < next {
                    g.remains(keys[x], c0[x])
                } else {
                    c0[x]
                }) by {
                    if x != i {
                        assert(self.coeffs()[x] == was[x]);
                    }
                }
                assert forall|x: int| 0 <= x < n implies #[trigger] self.held()[x] == (if x < next {
                    Self::held_by(g.fate(keys[x], c0[x]))
                } else {
                    None
                }) by {
                    if x != i {
                        assert(self.held()[x] == had[x]);
                    }
                }
                assert forall|p: int| 0 <= p < outbox@.len() implies stamped(
                    (#[trigger] outbox@[p])@,
                ) && posted(outbox@[p]@) == posted(old(outbox)@[p]@) + gate::sent(
                    g,
                    keys,
                    c0,
                    next,
                    p,
                    s,
                ) by {
                    assert(posted(boxes[p]@) == posted(old(outbox)@[p]@) + gate::sent(
                        g,
                        keys,
                        c0,
                        done,
                        p,
                        s,
                    ));
                    assert(posted(outbox@[p]@) =~= posted(old(outbox)@[p]@) + gate::sent(
                        g,
                        keys,
                        c0,
                        next,
                        p,
                        s,
                    ));
                }
                assert forall|k: int| t + 1 <= k < rows@.len() implies #[trigger] rows@[k]
                    >= next by {
                    assert(bits::set_positions(flags)[t as int] < bits::set_positions(flags)[k]);
                }
                done = next;
            }
            t += 1;
        }
        proof {
            bits::lemma_set_positions(flags);
            assert forall|x: int| done <= x < n implies !g.branches(#[trigger] keys[x]) by {
                if flags[x] {
                    assert(bits::set_positions(flags).contains(x));
                    let k = choose|k: int|
                        0 <= k < bits::set_positions(flags).len() && bits::set_positions(flags)[k]
                            == x;
                    assert(rows@[k] == x);
                    assert(rows@[k] < done);
                }
            }
            lemma_scan_skip(g, keys, c0, done, n);
            assert forall|p: int| gate::sent(g, keys, c0, n, p, s) == #[trigger] gate::sent(
                g,
                keys,
                c0,
                done,
                p,
                s,
            ) by {
                gate::lemma_sent_skip(g, keys, c0, done, n, p, s);
            }
            assert(self.coeffs() =~= Seq::new(n as nat, |i: int| g.remains(keys[i], c0[i])));
            assert(self.held() =~= Seq::new(
                n as nat,
                |i: int| Self::held_by(g.fate(keys[i], c0[i])),
            ));
        }
    }

    /// Routes the branches whose partners have paid for them into `outbox`, in order of
    /// payment.
    pub fn drain_claims<A: Basis<W>>(
        &mut self,
        ctx: &A::GenContext,
        n_partitions: usize,
        outbox: &mut Vec<Vec<Routed<C, W>>>,
    )
        requires
            old(self).wf(),
            0 < old(outbox)@.len(),
            n_partitions <= old(outbox)@.len(),
            forall|p: int| 0 <= p < old(outbox)@.len() ==> stamped((#[trigger] old(outbox)@[p])@),
        ensures
            final(self).wf(),
            final(self).keys() == old(self).keys(),
            final(self).coeffs() == old(self).coeffs(),
            final(self).held() == old(self).held(),
            final(self).claims() == Seq::<int>::empty(),
            final(self).lacks_phase() == old(self).lacks_phase(),
            final(self).exchanges() == (counted(
                old(self).exchanges().0,
                old(self).claims().len(),
            ), old(self).exchanges().1),
            final(self).scans() == old(self).scans(),
            final(self).units() == old(self).units(),
            final(self).row_width() == old(self).row_width(),
            final(outbox)@.len() == old(outbox)@.len(),
            forall|p: int|
                0 <= p < old(outbox)@.len() ==> stamped((#[trigger] final(outbox)@[p])@) && posted(
                    final(outbox)@[p]@,
                ) == posted(old(outbox)@[p]@) + released::<A, C, W>(
                    A::generator_of(*ctx),
                    A::negated(*ctx),
                    old(self).lacks_phase(),
                    old(self).keys(),
                    old(self).held(),
                    old(self).claims(),
                    old(self).claims().len() as int,
                    p,
                    n_partitions as nat,
                ),
    {
        let ghost keys = self.keys();
        let ghost held = self.held();
        let ghost claims = self.claims();
        let ghost gen = A::generator_of(*ctx);
        let ghost neg = A::negated(*ctx);
        let ghost lacks = self.lacks_phase();
        let ghost s = n_partitions as nat;
        let mut t: usize = 0;
        proof {
            self.lemma_wf();
            assert forall|p: int| 0 <= p < outbox@.len() implies posted(
                (#[trigger] outbox@[p])@,
            ) == posted(old(outbox)@[p]@) + released::<A, C, W>(
                gen,
                neg,
                lacks,
                keys,
                held,
                claims,
                0,
                p,
                s,
            ) by {
                assert(posted(old(outbox)@[p]@) + Seq::<Message<C>>::empty() =~= posted(
                    old(outbox)@[p]@,
                ));
            }
        }
        while t < self.claimed_rows.len()
            invariant
                self.wf(),
                self.keys() == keys,
                self.coeffs() == old(self).coeffs(),
                self.held() == held,
                held.len() == keys.len(),
                self.claims() == claims,
                self.lacks_phase() == lacks,
                self.exchanges() == (counted(old(self).exchanges().0, t as nat), old(
                    self,
                ).exchanges().1),
                self.scans() == old(self).scans(),
                self.units() == old(self).units(),
                self.row_width() == old(self).row_width(),
                gen == A::generator_of(*ctx),
                neg == A::negated(*ctx),
                s == n_partitions,
                t <= claims.len(),
                0 < outbox@.len(),
                n_partitions <= outbox@.len(),
                outbox@.len() == old(outbox)@.len(),
                forall|j: int|
                    0 <= j < claims.len() ==> 0 <= #[trigger] claims[j] < keys.len()
                        && held[claims[j]] is Some,
                forall|p: int|
                    0 <= p < outbox@.len() ==> stamped((#[trigger] outbox@[p])@) && posted(
                        outbox@[p]@,
                    ) == posted(old(outbox)@[p]@) + released::<A, C, W>(
                        gen,
                        neg,
                        lacks,
                        keys,
                        held,
                        claims,
                        t as int,
                        p,
                        s,
                    ),
            decreases claims.len() - t,
        {
            let row: usize = self.claimed_rows[t] as usize;
            let ghost boxes = outbox@;
            proof {
                self.lemma_wf();
                assert(claims[t as int] == row);
                assert(self.held()[row as int] == self.held_at(row as int));
            }
            let slot: usize = self.pending_slot[row] as usize;
            let key: BasisString<W> = self.store.row(row);
            let (child, phase) = A::product(ctx, &key);
            let hash: u64 = OperatorIndex::<P, W>::hash_of(&child);
            let mut coeff: C = self.pending_vals[slot].duplicate();
            if self.pending_needs_phase {
                coeff.scale_real(C::real_unit(phase.minus_imaginary()));
            }
            self.count_scan(false, false, true);
            let p: usize = partition_from_hash(hash, n_partitions);
            Self::post(outbox, p, Routed { key: child, hash, coeff });
            proof {
                assert forall|q: int| 0 <= q < outbox@.len() implies stamped(
                    (#[trigger] outbox@[q])@,
                ) && posted(outbox@[q]@) == posted(old(outbox)@[q]@) + released::<A, C, W>(
                    gen,
                    neg,
                    lacks,
                    keys,
                    held,
                    claims,
                    t + 1,
                    q,
                    s,
                ) by {
                    assert(posted(boxes[q]@) == posted(old(outbox)@[q]@) + released::<A, C, W>(
                        gen,
                        neg,
                        lacks,
                        keys,
                        held,
                        claims,
                        t as int,
                        q,
                        s,
                    ));
                    assert(posted(outbox@[q]@) =~= posted(old(outbox)@[q]@) + released::<A, C, W>(
                        gen,
                        neg,
                        lacks,
                        keys,
                        held,
                        claims,
                        t + 1,
                        q,
                        s,
                    ));
                }
            }
            t += 1;
        }
        self.claimed_rows.clear();
        proof {
            assert forall|i: int| #[trigger] self.held_at(i) == old(self).held_at(i) by {
                if 0 <= i < keys.len() {
                    assert(self.held()[i] == held[i]);
                }
            }
            assert(self.held() =~= held);
            assert(self.claims() =~= Seq::<int>::empty());
        }
    }

    /// Scales every anticommuting term by `factor`.
    pub fn scale_anticommuting<A: Basis<W>>(&mut self, ctx: &A::GenContext, factor: C::Real)
        requires
            old(self).wf(),
        ensures
            final(self).wf(),
            final(self).keys() == old(self).keys(),
            final(self).coeffs() == Seq::new(
                old(self).keys().len(),
                |i: int|
                    if A::anti(A::generator_of(*ctx), old(self).keys()[i]) {
                        old(self).coeffs()[i].scaled(factor)
                    } else {
                        old(self).coeffs()[i]
                    },
            ),
            final(self).terms() == gate::half_turned::<A, C, W>(
                A::generator_of(*ctx),
                factor,
                old(self).terms(),
            ),
            final(self).held() == old(self).held(),
            final(self).claims() == old(self).claims(),
            final(self).exchanges() == old(self).exchanges(),
            final(self).scans() == old(self).scans(),
            final(self).units() == old(self).units(),
            final(self).row_width() == old(self).row_width(),
    {
        let ghost keys = self.keys();
        let ghost c0 = self.coeffs();
        let n: usize = self.store.len();
        let mut i: usize = 0;
        proof {
            self.lemma_wf();
        }
        while i < n
            invariant
                self.wf(),
                self.keys() == keys,
                keys.len() == n,
                c0.len() == n,
                self.coeffs().len() == n,
                i <= n,
                forall|x: int|
                    0 <= x < n ==> #[trigger] self.coeffs()[x] == (if x < i && A::anti(
                        A::generator_of(*ctx),
                        keys[x],
                    ) {
                        c0[x].scaled(factor)
                    } else {
                        c0[x]
                    }),
                self.held() == old(self).held(),
                self.claims() == old(self).claims(),
                self.exchanges() == old(self).exchanges(),
                self.scans() == old(self).scans(),
                self.units() == old(self).units(),
                self.row_width() == old(self).row_width(),
            decreases n - i,
        {
            let key: BasisString<W> = self.store.row(i);
            if A::anticommutes(ctx, &key) {
                let mut c: C = self.coeffs[i].duplicate();
                c.scale_real(factor);
                self.set_coeff(i, c);
            }
            i += 1;
        }
        proof {
            let want = Seq::new(
                keys.len(),
                |x: int|
                    if A::anti(A::generator_of(*ctx), keys[x]) {
                        c0[x].scaled(factor)
                    } else {
                        c0[x]
                    },
            );
            assert(self.coeffs() =~= want);
            gate::lemma_terms_map(
                keys,
                c0,
                want,
                64 * W as int,
                |k: Seq<bool>, c: C|
                    if A::anti(A::generator_of(*ctx), k) {
                        c.scaled(factor)
                    } else {
                        c
                    },
            );
            assert(self.terms() =~= gate::half_turned::<A, C, W>(
                A::generator_of(*ctx),
                factor,
                old(self).terms(),
            ));
        }
    }

    /// Applies the rotation generated by `gen`, returning how many terms are new.
    ///
    /// A rotation that creates no branch only rescales. When the store cannot number a new
    /// row, the sources have been rotated and the branches before it folded in.
    #[verifier::rlimit(60)]
    pub fn apply_rotation<A: Basis<W>, K: TruncationKernel<C::Real>>(
        &mut self,
        gen: &BasisString<W>,
        param: &C::GateParam,
        cutoff: &EmitCutoff<C::Real, K>,
    ) -> (r: Result<usize, TermIndexCeilingReached>)
        requires
            old(self).wf(),
            operator_index::addressable(3 * old(self).keys().len() as int),
        ensures
            final(self).wf(),
            final(self).units() == old(self).units(),
            final(self).row_width() == old(self).row_width(),
            C::half_turn(*param, C::tolerance_of()) matches Some(f) ==> r == Ok::<usize, TermIndexCeilingReached>(0)
                && final(self).exchanges() == old(self).exchanges() && final(self).scans() == old(
                self,
            ).scans()
                && final(self).keys() == old(self).keys() && final(self).terms()
                == gate::half_turned::<A, C, W>(gen@, f, old(self).terms()),
            C::half_turn(*param, C::tolerance_of()) is None ==> ({
                let g = emit::gate_for::<A, C, K, W>(
                    gen@,
                    false,
                    *param,
                    *cutoff,
                    old(self).units(),
                );
                let n = old(self).keys().len() as int;
                let msgs = gate::sent(g, old(self).keys(), old(self).coeffs(), n, 0, 1);
                let fresh = gate::fresh(old(self).keys(), msgs, msgs.len() as int);
                &&& r is Err <==> n + fresh >= u32::MAX
                &&& r matches Ok(added) ==> {
                    &&& final(self).terms() == gate::rotate(g, old(self).terms())
                    &&& final(self).keys().take(n) == old(self).keys()
                    &&& added == fresh
                    &&& final(self).keys().len() == n + added
                }
                &&& final(self).scans() == scanned_counts(
                    g,
                    old(self).keys(),
                    old(self).coeffs(),
                    old(self).scans(),
                )
                &&& r is Ok ==> final(self).exchanges() == exchanged_counts(
                    g,
                    old(self).keys(),
                    old(self).coeffs(),
                    msgs,
                    paid_for(g, old(self).keys(), old(self).coeffs(), msgs),
                    old(self).exchanges(),
                )
                &&& r is Err ==> exists|t: int|
                    0 <= t < msgs.len() && #[trigger] partly_rotated(
                        g,
                        old(self).terms(),
                        msgs.take(t),
                        final(self).terms(),
                    ) && final(self).exchanges() == (counted(
                        old(self).exchanges().0,
                        emitting(g, old(self).keys(), old(self).coeffs()),
                    ), counted(old(self).exchanges().1, met(old(self).keys(), msgs, t)))
            }),
    {
        let ghost keys = self.keys();
        let ghost c0 = self.coeffs();
        let ghost m0 = self.terms();
        let ghost n = self.keys().len() as int;
        let ghost g = emit::gate_for::<A, C, K, W>(gen@, false, *param, *cutoff, self.units());
        proof {
            self.lemma_wf();
            BasisString::lemma_len(*gen);
            gate::lemma_sent(g, keys, c0, n, 0, 1);
        }
        if self.store.is_empty() {
            proof {
                assert(m0 =~= Map::<Seq<bool>, C>::empty());
                assert(gate::rotate(g, m0) =~= Map::<Seq<bool>, C>::empty());
                if let Some(f) = C::half_turn(*param, C::tolerance_of()) {
                    assert(gate::half_turned::<A, C, W>(gen@, f, m0) =~= m0);
                }
                assert(self.keys().take(0) =~= self.keys());
                lemma_sent_len(g, keys, c0, n, 0, 1);
                assert(gate::sent(g, keys, c0, n, 0, 1) =~= Seq::<Message<C>>::empty());
                lemma_no_counts(g, keys, c0, self.scans(), self.exchanges());
            }
            return Ok(0);
        }
        let ctx = A::make_gen_context(gen);
        if let Some(cos_t) = C::phase_only_scale(param, C::tolerance()) {
            self.scale_anticommuting::<A>(&ctx, cos_t);
            return Ok(0);
        }
        let mut outbox: Vec<Vec<Routed<C, W>>> = Vec::new();
        outbox.push(Vec::new());
        proof {
            assert(posted(outbox@[0]@) =~= Seq::<Message<C>>::empty());
        }
        self.scan_into::<A, K>(&ctx, param, cutoff, 1, &mut outbox);
        let ghost scanned = *self;
        let ghost msgs = gate::sent(g, keys, c0, n, 0, 1);
        proof {
            assert(scanned.scans() == scanned_counts(g, keys, c0, old(self).scans()));
            assert(scanned.held() =~= held_back(g, keys, c0));
        }
        let batch: Vec<Routed<C, W>> = match outbox.pop() {
            Some(b) => b,
            None => Vec::new(),
        };
        proof {
            assert(posted(batch@) =~= msgs);
            lemma_sent_len(g, keys, c0, n, 0, 1);
            scanned.lemma_wf();
            lemma_scanned(g, keys, c0, scanned.coeffs());
        }
        let added: usize = match self.absorb_batch(&batch) {
            Ok(added) => added,
            Err(e) => {
                proof {
                    let t = choose|t: int|
                        0 <= t < batch@.len() && #[trigger] scanned.absorbed(*self, msgs, t);
                    assert(partly_rotated(g, m0, msgs.take(t), self.terms())) by {
                        assert forall|k: Seq<bool>| #[trigger] gate::get(self.terms(), k)
                            == gate::merged(
                            gate::get(m0.map_entries(|k: Seq<bool>, c: C| g.remains(k, c)), k),
                            gate::brought(msgs.take(t), k),
                        ) by {}
                    }
                }
                return Err(e);
            },
        };
        let ghost mid = *self;
        proof {
            assert(msgs.take(msgs.len() as int) =~= msgs);
            assert(scanned.claims() + paid_rows(keys, scanned.held(), msgs, msgs.len() as int)
                =~= paid_rows(keys, scanned.held(), msgs, msgs.len() as int));
            mid.lemma_wf();
        }
        let mut rescues: Vec<Vec<Routed<C, W>>> = Vec::new();
        rescues.push(Vec::new());
        proof {
            assert(posted(rescues@[0]@) =~= Seq::<Message<C>>::empty());
        }
        self.drain_claims::<A>(&ctx, 1, &mut rescues);
        let paid: Vec<Routed<C, W>> = match rescues.pop() {
            Some(b) => b,
            None => Vec::new(),
        };
        let ghost repaid = posted(paid@);
        let ghost drained = *self;
        proof {
            assert(repaid =~= released::<A, C, W>(
                gen@,
                false,
                g.precheck() is Some,
                mid.keys(),
                mid.held(),
                mid.claims(),
                mid.claims().len() as int,
                0,
                1,
            ));
            assert forall|k: Seq<bool>| gate::separate(repaid, 64 * W as int) && #[trigger] gate::brought(
                repaid,
                k,
            ) == gate::repaid_by(g, m0, k, gate::brought(msgs, g.partner(k)) is Some) by {
                lemma_repaid_by(
                    g,
                    keys,
                    c0,
                    mid.keys(),
                    scanned.held(),
                    mid.held(),
                    msgs,
                    1,
                    k,
                    0,
                );
            }
            assert(gate::separate(repaid, 64 * W as int)) by {
                lemma_repaid_by(
                    g,
                    keys,
                    c0,
                    mid.keys(),
                    scanned.held(),
                    mid.held(),
                    msgs,
                    1,
                    gen@,
                    0,
                );
            }
            lemma_released_len::<A, C, W>(
                gen@,
                false,
                g.precheck() is Some,
                mid.keys(),
                mid.held(),
                mid.claims(),
                mid.claims().len() as int,
                0,
                1,
            );
            lemma_paid_len(keys, scanned.held(), msgs, msgs.len() as int);
            // A released branch lands on the row that paid for it.
            assert forall|j: int| 0 <= j < repaid.len() implies mid.keys().contains(
                (#[trigger] repaid[j]).0,
            ) by {
                let k = repaid[j].0;
                gate::lemma_brought_at(repaid, 64 * W as int, j);
                assert(gate::repaid_by(g, m0, k, gate::brought(msgs, g.partner(k)) is Some) is Some);
                gate::lemma_sent_by(g, keys, c0, 1, g.partner(k), 0);
                emit::lemma_xor_back(g.gen, k);
                assert(m0.contains_key(k));
                let i = choose|i: int| 0 <= i < keys.len() && keys[i] == k;
                assert(mid.keys().take(n)[i] == mid.keys()[i]);
            }
            lemma_none_fresh(mid.keys(), repaid);
            bits::lemma_ones_bound(
                Seq::new(msgs.len(), |j: int| !keys.contains(msgs[j].0)),
            );
        }
        match self.absorb_batch(&paid) {
            Ok(_) => {},
            Err(e) => {
                return Err(e);
            },
        }
        proof {
            assert(repaid.take(repaid.len() as int) =~= repaid);
            let fin = self.terms();
            assert forall|k: Seq<bool>| #[trigger] gate::get(fin, k) == gate::rotated(
                g,
                m0,
                k,
            ) by {
                gate::lemma_sent_by(g, keys, c0, 1, k, 0);
                gate::lemma_sent_by(g, keys, c0, 1, g.partner(k), 0);
                let paid = gate::brought(msgs, g.partner(k)) is Some;
                gate::lemma_rotated(g, m0, k, paid);
                assert(gate::get(fin, k) == gate::merged(
                    gate::get(drained.terms(), k),
                    gate::brought(repaid, k),
                ));
                assert(gate::get(mid.terms(), k) == gate::merged(
                    gate::get(scanned.terms(), k),
                    gate::brought(msgs, k),
                ));
                assert(gate::brought(repaid, k) == gate::repaid_by(g, m0, k, paid));
            }
            lemma_same_map(fin, gate::rotate(g, m0));
            assert(self.keys().take(n) =~= keys) by {
                assert(self.keys().take(mid.keys().len() as int) == mid.keys());
                assert forall|i: int| 0 <= i < n implies self.keys()[i] == keys[i] by {
                    assert(self.keys().take(mid.keys().len() as int)[i] == self.keys()[i]);
                    assert(mid.keys().take(n)[i] == mid.keys()[i]);
                }
            }
            let back = repaid.len() as nat;
            assert(back == paid_for(g, keys, c0, msgs));
            assert(met(drained.keys(), repaid, repaid.len() as int) == back);
            assert(mid.exchanges() == (scanned.exchanges().0, counted(
                scanned.exchanges().1,
                met(keys, msgs, msgs.len() as int),
            )));
            assert(self.exchanges() == exchanged_counts(g, keys, c0, msgs, back, old(self).exchanges()));
        }
        Ok(added)
    }

    /// The rows that anticommute with a context's generator, ascending.
    fn select_rows<A: Basis<W>>(&mut self, ctx: &A::GenContext) -> (rows: Vec<usize>)
        requires
            old(self).wf(),
            operator_index::addressable(old(self).keys().len() as int),
        ensures
            final(self).wf(),
            final(self).store == old(self).store,
            final(self).coeffs == old(self).coeffs,
            final(self).pending_slot == old(self).pending_slot,
            final(self).pending_rows == old(self).pending_rows,
            final(self).held() == old(self).held(),
            final(self).claims() == old(self).claims(),
            final(self).lacks_phase() == old(self).lacks_phase(),
            final(self).exchanges() == old(self).exchanges(),
            final(self).scans() == old(self).scans(),
            final(self).units() == old(self).units(),
            final(self).row_width() == old(self).row_width(),
            ({
                let flags = Seq::new(
                    old(self).keys().len(),
                    |i: int| A::anti(A::generator_of(*ctx), old(self).keys()[i]),
                );
                &&& rows@.len() == bits::set_positions(flags).len()
                &&& forall|k: int|
                    0 <= k < rows@.len() ==> #[trigger] rows@[k] == bits::set_positions(flags)[k]
            }),
    {
        let ghost keys = self.keys();
        let ghost n = self.keys().len() as int;
        let ghost flags = Seq::new(n as nat, |i: int| A::anti(A::generator_of(*ctx), keys[i]));
        proof {
            self.lemma_wf();
            self.store.lemma_wf();
        }
        self.inverted.sync_to(&self.store);
        let mut bitmap: Vec<u64> = Vec::new();
        std::mem::swap(&mut bitmap, &mut self.scan_bitmap);
        let fold: &BasisString<W> = A::fold_generator(ctx);
        let columns: Vec<usize> = fold.positions().collect();
        let ghost f = fold@;
        proof {
            BasisString::lemma_len(*fold);
            bits::lemma_set_positions(f);
            assert forall|k: int| 0 <= k < columns@.len() implies #[trigger] columns@[k] < 64
                * W by {
                assert(bits::set_positions(f)[k] < 64 * W);
            }
        }
        self.inverted.combine(columns.as_slice(), &mut bitmap);
        let ghost plain = bitmap@;
        if A::fold_needs_odd_correction(ctx) {
            self.inverted.apply_row_parity(&mut bitmap);
        }
        proof {
            let all = bits::bits_of(bitmap@);
            assert forall|r: int| 0 <= r < all.len() implies #[trigger] all[r] == (r < n
                && flags[r]) by {
                let touched = Seq::new(
                    columns@.len(),
                    |k: int| self.inverted.has(columns@[k] as int, r),
                );
                assert(bits::bit_at(plain, r) == bits::odd(touched));
                assert(all[r] == (bits::odd(touched) != (A::fold_odd(*ctx) && self.inverted.odd_row(
                    r,
                ))));
                if r < n {
                    let at = Seq::new(
                        bits::set_positions(f).len(),
                        |k: int| keys[r][bits::set_positions(f)[k]],
                    );
                    assert forall|k: int| 0 <= k < touched.len() implies touched[k] == at[k] by {
                        assert(columns@[k] == bits::set_positions(f)[k]);
                        assert(self.inverted.has(columns@[k] as int, r) == keys[r][columns@[k] as int]);
                    }
                    assert(touched =~= at);
                    bits::lemma_ones_at_positions(f, keys[r]);
                    A::fold_law(*ctx, keys[r]);
                    assert(self.inverted.odd_row(r) == bits::odd(keys[r]));
                } else {
                    assert forall|k: int| 0 <= k < touched.len() implies !#[trigger] touched[k] by {
                        self.inverted.lemma_past_end(columns@[k] as int, r);
                    }
                    bits::lemma_ones_none(touched);
                    self.inverted.lemma_parity_past_end(r);
                }
            }
            bits::lemma_ones_padded(flags, all);
        }
        let mut rows: Vec<usize> = Vec::new();
        inverted_index::for_each_set_bit(bitmap.as_slice(), &mut rows);
        self.scan_bitmap = bitmap;
        proof {
            assert forall|k: int| 0 <= k < rows@.len() implies #[trigger] rows@[k]
                == bits::set_positions(flags)[k] by {
                assert(rows@[0 + k] == bits::set_positions(bits::bits_of(bitmap@))[k]);
            }
            assert(self.inverted.mirrors(self.store.keys())) by {
                assert forall|c: int, r: int|
                    0 <= c < self.inverted.column_total() && 0 <= r
                        < self.inverted.row_total() implies #[trigger] self.inverted.has(c, r) == (c
                    < keys[r].len() && keys[r][c]) by {
                    assert(keys[r].len() == 64 * W);
                    if r < old(self).inverted.row_total() {
                        assert(old(self).inverted.has(c, r) == (c < keys[r].len() && keys[r][c]));
                    }
                }
            }
            assert forall|i: int| #[trigger] self.held_at(i) == old(self).held_at(i) by {}
            assert(self.held() =~= old(self).held());
            assert(self.claims() =~= old(self).claims());
        }
        rows
    }
}

/// The entries of `s` among the first `n` whose flag is set, in order.
pub open spec fn picked<T>(s: Seq<T>, flags: Seq<bool>, n: int) -> Seq<T>
    decreases n,
{
    if n <= 0 {
        Seq::empty()
    } else if flags[n - 1] {
        picked(s, flags, n - 1).push(s[n - 1])
    } else {
        picked(s, flags, n - 1)
    }
}

/// The coefficients with the first ones scaled by the given factors.
pub open spec fn scaled_rows<C: CoeffRepr>(coeffs: Seq<C>, factors: Seq<C::Real>) -> Seq<C> {
    Seq::new(
        coeffs.len(),
        |i: int|
            if i < factors.len() {
                coeffs[i].scaled(factors[i])
            } else {
                coeffs[i]
            },
    )
}

/// A total with each row's real value times its trace added, in row order.
pub open spec fn traced_total<A: Basis<W>, C: CoeffRepr, const W: usize>(
    keys: Seq<Seq<bool>>,
    coeffs: Seq<C>,
    n_units: nat,
    fock: Seq<u64>,
    n: int,
) -> C::Real
    decreases n,
{
    if n <= 0 {
        C::unit(0)
    } else {
        C::totalled(
            traced_total::<A, C, W>(keys, coeffs, n_units, fock, n - 1),
            coeffs[n - 1],
            A::trace_of(keys[n - 1], n_units, fock) as int,
        )
    }
}

/// The sum of a list, up to the largest `u128`.
pub open spec fn saturating_sum(s: Seq<u128>) -> u128
    decreases s.len(),
{
    if s.len() == 0 {
        0
    } else {
        let rest = saturating_sum(s.drop_last());
        if rest + s.last() <= u128::MAX {
            (rest + s.last()) as u128
        } else {
            u128::MAX
        }
    }
}

/// `x` is one of the first `n` entries of `s` whose flag is set.
pub open spec fn among<T>(s: Seq<T>, flags: Seq<bool>, n: int, x: T) -> bool {
    exists|i: int| 0 <= i < n && flags[i] && #[trigger] s[i] == x
}

/// What picking rows keeps.
pub proof fn lemma_picked<T>(s: Seq<T>, flags: Seq<bool>, n: int)
    requires
        0 <= n <= s.len(),
        s.len() == flags.len(),
    ensures
        picked(s, flags, n).len() == bits::ones(flags.take(n)),
        picked(s, flags, n).len() <= n,
        forall|j: int|
            0 <= j < picked(s, flags, n).len() ==> among(
                s,
                flags,
                n,
                #[trigger] picked(s, flags, n)[j],
            ),
        forall|i: int|
            0 <= i < n && flags[i] ==> picked(s, flags, n).contains(#[trigger] s[i]),
    decreases n,
{
    assert(flags.take(0) =~= Seq::<bool>::empty());
    if n > 0 {
        lemma_picked(s, flags, n - 1);
        let rest = picked(s, flags, n - 1);
        let all = picked(s, flags, n);
        assert(flags.take(n).drop_last() =~= flags.take(n - 1));
        assert forall|j: int| 0 <= j < all.len() implies among(
            s,
            flags,
            n,
            #[trigger] all[j],
        ) by {
            if j < rest.len() {
                assert(among(s, flags, n - 1, rest[j]));
                let i = choose|i: int| 0 <= i < n - 1 && flags[i] && #[trigger] s[i] == rest[j];
                assert(s[i] == all[j]);
            } else {
                assert(s[n - 1] == all[j]);
            }
        }
        assert forall|i: int| 0 <= i < n && flags[i] implies all.contains(#[trigger] s[i]) by {
            if i < n - 1 {
                let j = choose|j: int| 0 <= j < rest.len() && rest[j] == s[i];
                assert(all[j] == s[i]);
            } else {
                assert(all[all.len() - 1] == s[i]);
            }
        }
    }
}

/// The terms of the picked rows are the terms of the rows, where the flag is set.
pub proof fn lemma_picked_terms<C>(
    keys: Seq<Seq<bool>>,
    coeffs: Seq<C>,
    flags: Seq<bool>,
    w: int,
    n: int,
)
    requires
        gate::distinct(keys, w),
        keys.len() == coeffs.len(),
        keys.len() == flags.len(),
        0 <= n <= keys.len(),
    ensures
        picked(keys, flags, n).len() == picked(coeffs, flags, n).len(),
        gate::distinct(picked(keys, flags, n), w),
        forall|i: int|
            0 <= i < n ==> gate::get(
                gate::terms_of(picked(keys, flags, n), picked(coeffs, flags, n)),
                #[trigger] keys[i],
            ) == (if flags[i] {
                Some(coeffs[i])
            } else {
                None
            }),
        forall|k: Seq<bool>| #[trigger]
            gate::terms_of(picked(keys, flags, n), picked(coeffs, flags, n)).contains_key(k)
                ==> exists|i: int| 0 <= i < n && #[trigger] keys[i] == k,
    decreases n,
{
    let ks = picked(keys, flags, n);
    let cs = picked(coeffs, flags, n);
    if n > 0 {
        lemma_picked_terms(keys, coeffs, flags, w, n - 1);
        let k0 = picked(keys, flags, n - 1);
        let c0 = picked(coeffs, flags, n - 1);
        let last = keys[n - 1];
        if k0.contains(last) {
            assert(gate::terms_of(k0, c0).contains_key(last));
            let i = choose|i: int| 0 <= i < n - 1 && #[trigger] keys[i] == last;
            assert(keys[i] != keys[n - 1]);
        }
        if flags[n - 1] {
            gate::lemma_terms_push(k0, c0, w, last, coeffs[n - 1]);
        }
        assert forall|i: int| 0 <= i < n implies gate::get(
            gate::terms_of(ks, cs),
            #[trigger] keys[i],
        ) == (if flags[i] {
            Some(coeffs[i])
        } else {
            None
        }) by {
            if i < n - 1 {
                assert(keys[i] != keys[n - 1]);
                assert(gate::get(gate::terms_of(k0, c0), keys[i]) == (if flags[i] {
                    Some(coeffs[i])
                } else {
                    None
                }));
            } else {
                assert(!gate::terms_of(k0, c0).contains_key(last));
            }
        }
        assert forall|k: Seq<bool>| #[trigger] gate::terms_of(ks, cs).contains_key(k) implies exists|
            i: int,
        |
            0 <= i < n && #[trigger] keys[i] == k by {
            if gate::terms_of(k0, c0).contains_key(k) {
                let i = choose|i: int| 0 <= i < n - 1 && #[trigger] keys[i] == k;
                assert(keys[i] == k);
            } else {
                assert(keys[n - 1] == k);
            }
        }
    }
}

impl<C: CoeffRepr, P: Pos, const W: usize> TermSum<C, P, W> {
    /// Rebuilds the store at `inline_width` positions per row, keeping the rows whose flag is
    /// set, in order.
    fn rebuild(&mut self, inline_width: usize, flags: &Vec<bool>) -> (r: Result<
        usize,
        TermIndexCeilingReached,
    >)
        requires
            old(self).wf(),
            flags@.len() == old(self).keys().len(),
            operator_index::addressable(old(self).keys().len() as int),
        ensures
            final(self).wf(),
            final(self).keys() == picked(old(self).keys(), flags@, flags@.len() as int),
            final(self).coeffs() == picked(old(self).coeffs(), flags@, flags@.len() as int),
            final(self).claims() == Seq::<int>::empty(),
            final(self).units() == old(self).units(),
            final(self).exchanges() == old(self).exchanges(),
            final(self).scans() == old(self).scans(),
            final(self).row_width() == (if inline_width < 1 {
                1
            } else if inline_width > operator_index::MAX_INLINE_POSITIONS {
                operator_index::MAX_INLINE_POSITIONS as int
            } else {
                inline_width as int
            }),
            r == Ok::<usize, TermIndexCeilingReached>(
                (old(self).keys().len() - bits::ones(flags@)) as usize,
            ),
    {
        let before: usize = self.store.len();
        let ghost keys = self.keys();
        let ghost c0 = self.coeffs();
        proof {
            self.lemma_wf();
            self.store.lemma_wf();
        }
        let mut fresh: TermSum<C, P, W> = TermSum::with_inline_positions(self.n_units, inline_width);
        let ghost width = fresh.row_width();
        fresh.store.reserve(before);
        proof {
            fresh.store.lemma_wf();
            assert forall|i: int| #[trigger] fresh.held_at(i) is None by {}
            assert(fresh.held() =~= Seq::<Option<C>>::empty());
            assert(fresh.keys() =~= Seq::<Seq<bool>>::empty());
            assert(fresh.coeffs() =~= Seq::<C>::empty());
            assert(fresh.claims() =~= Seq::<int>::empty());
        }
        let mut i: usize = 0;
        while i < before
            invariant
                self.wf(),
                *self == *old(self),
                self.keys() == keys,
                self.coeffs() == c0,
                keys.len() == before,
                c0.len() == before,
                gate::distinct(keys, 64 * W as int),
                flags@.len() == before,
                before < u32::MAX,
                operator_index::addressable(before as int),
                i <= before,
                fresh.wf(),
                fresh.keys() == picked(keys, flags@, i as int),
                fresh.coeffs() == picked(c0, flags@, i as int),
                fresh.claims() == Seq::<int>::empty(),
                fresh.row_width() == width,
                fresh.units() == self.units(),
            decreases before - i,
        {
            if flags[i] {
                let key: BasisString<W> = self.store.row(i);
                let hash: u64 = OperatorIndex::<P, W>::hash_of(&key);
                proof {
                    lemma_picked(keys, flags@, i as int);
                    assert(!fresh.keys().contains(key@)) by {
                        if fresh.keys().contains(key@) {
                            let j = choose|j: int|
                                0 <= j < fresh.keys().len() && fresh.keys()[j] == key@;
                            assert(among(
                                keys,
                                flags@,
                                i as int,
                                picked(keys, flags@, i as int)[j],
                            ));
                            let x = choose|x: int|
                                0 <= x < i && flags@[x] && #[trigger] keys[x] == picked(
                                    keys,
                                    flags@,
                                    i as int,
                                )[j];
                            assert(keys[x] != keys[i as int]);
                        }
                    }
                }
                let c: C = self.coeffs[i].duplicate();
                match fresh.append(&key, hash, c) {
                    Ok(()) => {},
                    Err(e) => {
                        return Err(e);
                    },
                }
            }
            i += 1;
        }
        proof {
            lemma_picked(keys, flags@, before as int);
            assert(flags@.take(before as int) =~= flags@);
            fresh.store.lemma_wf();
        }
        fresh.emitted = self.emitted;
        fresh.hits = self.hits;
        fresh.visited = self.visited;
        fresh.declined = self.declined;
        let kept: usize = fresh.store.len();
        proof {
            assert forall|i: int| #[trigger] fresh.held_at(i) == fresh.held_at(i) by {}
            assert(fresh.claims() =~= Seq::<int>::empty());
        }
        *self = fresh;
        Ok(before - kept)
    }

    /// Rebuilds the store at another inline row width, keeping every term.
    pub fn repack(&mut self, inline_width: usize) -> (r: Result<(), TermIndexCeilingReached>)
        requires
            old(self).wf(),
            operator_index::addressable(old(self).keys().len() as int),
        ensures
            final(self).wf(),
            r is Ok,
            final(self).keys() == old(self).keys(),
            final(self).coeffs() == old(self).coeffs(),
            final(self).claims() == Seq::<int>::empty(),
            final(self).units() == old(self).units(),
            final(self).exchanges() == old(self).exchanges(),
            final(self).scans() == old(self).scans(),
            final(self).row_width() == (if inline_width < 1 {
                1
            } else if inline_width > operator_index::MAX_INLINE_POSITIONS {
                operator_index::MAX_INLINE_POSITIONS as int
            } else {
                inline_width as int
            }),
    {
        let n: usize = self.store.len();
        let mut flags: Vec<bool> = Vec::new();
        while flags.len() < n
            invariant
                flags@.len() <= n,
                forall|i: int| 0 <= i < flags@.len() ==> #[trigger] flags@[i],
            decreases n - flags@.len(),
        {
            flags.push(true);
        }
        proof {
            self.lemma_wf();
            lemma_picked_all(self.keys(), flags@, n as int);
            lemma_picked_all(self.coeffs(), flags@, n as int);
        }
        match self.rebuild(inline_width, &flags) {
            Ok(_) => Ok(()),
            Err(e) => Err(e),
        }
    }

    /// Drops the rows whose flag is not set, returning how many went.
    pub fn retain_flagged(&mut self, flags: &Vec<bool>) -> (r: Result<
        usize,
        TermIndexCeilingReached,
    >)
        requires
            old(self).wf(),
            flags@.len() == old(self).keys().len(),
            operator_index::addressable(old(self).keys().len() as int),
        ensures
            final(self).wf(),
            final(self).keys() == picked(old(self).keys(), flags@, flags@.len() as int),
            final(self).coeffs() == picked(old(self).coeffs(), flags@, flags@.len() as int),
            final(self).claims() == Seq::<int>::empty(),
            final(self).units() == old(self).units(),
            final(self).exchanges() == old(self).exchanges(),
            final(self).scans() == old(self).scans(),
            final(self).row_width() == old(self).row_width(),
            r == Ok::<usize, TermIndexCeilingReached>(
                (old(self).keys().len() - bits::ones(flags@)) as usize,
            ),
    {
        proof {
            self.store.lemma_wf();
        }
        let width: usize = self.store.inline_width();
        self.rebuild(width, flags)
    }

    /// Drops every term `keep` rejects, returning how many went.
    pub fn reclaim<F: Fn(&BasisString<W>, &C) -> bool>(&mut self, keep: F) -> (r: Result<
        usize,
        TermIndexCeilingReached,
    >)
        requires
            old(self).wf(),
            operator_index::addressable(old(self).keys().len() as int),
            forall|k: &BasisString<W>, c: &C| call_requires(keep, (k, c)),
        ensures
            final(self).wf(),
            final(self).units() == old(self).units(),
            final(self).row_width() == old(self).row_width(),
            exists|flags: Seq<bool>|
                flags.len() == old(self).keys().len() && (forall|i: int|
                    0 <= i < flags.len() ==> call_ensures(
                        keep,
                        (
                            &BasisString::with_bits(old(self).keys()[i]),
                            &old(self).coeffs()[i],
                        ),
                        #[trigger] flags[i],
                    )) && final(self).keys() == #[trigger] picked(
                    old(self).keys(),
                    flags,
                    flags.len() as int,
                ) && final(self).coeffs() == picked(
                    old(self).coeffs(),
                    flags,
                    flags.len() as int,
                ) && r == Ok::<usize, TermIndexCeilingReached>(
                    (old(self).keys().len() - bits::ones(flags)) as usize,
                ),
    {
        let n: usize = self.store.len();
        let mut flags: Vec<bool> = Vec::new();
        let mut i: usize = 0;
        proof {
            self.lemma_wf();
        }
        while i < n
            invariant
                self.wf(),
                *self == *old(self),
                n == self.keys().len(),
                n == self.coeffs().len(),
                i <= n,
                flags@.len() == i,
                forall|k: &BasisString<W>, c: &C| call_requires(keep, (k, c)),
                forall|j: int|
                    0 <= j < i ==> call_ensures(
                        keep,
                        (&BasisString::with_bits(self.keys()[j]), &self.coeffs()[j]),
                        #[trigger] flags@[j],
                    ),
            decreases n - i,
        {
            let key: BasisString<W> = self.store.row(i);
            proof {
                BasisString::lemma_with_bits(key);
            }
            let flag: bool = keep(&key, &self.coeffs[i]);
            flags.push(flag);
            i += 1;
        }
        self.retain_flagged(&flags)
    }

    /// Scales every coefficient by `factor(weight)`.
    pub fn scale_by_weight<A: Basis<W>, F: Fn(u32) -> C::Real>(&mut self, factor: F)
        requires
            old(self).wf(),
            forall|w: u32| call_requires(factor, (w,)),
        ensures
            final(self).wf(),
            final(self).keys() == old(self).keys(),
            final(self).units() == old(self).units(),
            final(self).row_width() == old(self).row_width(),
            exists|factors: Seq<C::Real>|
                factors.len() == old(self).keys().len() && final(self).coeffs()
                    == #[trigger] scaled_rows(old(self).coeffs(), factors) && forall|i: int|
                    0 <= i < factors.len() ==> call_ensures(
                        factor,
                        (A::weight_of(old(self).keys()[i], old(self).units()),),
                        #[trigger] factors[i],
                    ),
    {
        let ghost keys = self.keys();
        let ghost c0 = self.coeffs();
        let ghost mut factors: Seq<C::Real> = Seq::empty();
        let n: usize = self.store.len();
        let mut i: usize = 0;
        proof {
            self.lemma_wf();
            assert(scaled_rows(c0, factors) =~= c0);
        }
        while i < n
            invariant
                self.wf(),
                self.keys() == keys,
                keys.len() == n,
                c0.len() == n,
                self.coeffs() == scaled_rows(c0, factors),
                self.units() == old(self).units(),
                self.row_width() == old(self).row_width(),
                i <= n,
                factors.len() == i,
                forall|w: u32| call_requires(factor, (w,)),
                forall|j: int|
                    0 <= j < i ==> call_ensures(
                        factor,
                        (A::weight_of(keys[j], old(self).units()),),
                        #[trigger] factors[j],
                    ),
            decreases n - i,
        {
            proof {
                self.lemma_wf();
            }
            let key: BasisString<W> = self.store.row(i);
            let w: u32 = A::weight(&key, self.n_units);
            let f: C::Real = factor(w);
            let mut c: C = self.coeffs[i].duplicate();
            c.scale_real(f);
            self.set_coeff(i, c);
            proof {
                assert(self.coeffs() =~= scaled_rows(c0, factors.push(f)));
                factors = factors.push(f);
            }
            i += 1;
        }
    }

    /// [`TermSum::scale_by_weight`] for a factor that can fail. On failure the rows before
    /// the one it failed at have been scaled.
    pub fn try_scale_by_weight<A: Basis<W>, E, F: Fn(u32) -> Result<C::Real, E>>(
        &mut self,
        factor: F,
    ) -> (r: Result<(), E>)
        requires
            old(self).wf(),
            forall|w: u32| call_requires(factor, (w,)),
        ensures
            final(self).wf(),
            final(self).keys() == old(self).keys(),
            final(self).units() == old(self).units(),
            final(self).row_width() == old(self).row_width(),
            exists|factors: Seq<C::Real>|
                factors.len() <= old(self).keys().len() && final(self).coeffs()
                    == #[trigger] scaled_rows(old(self).coeffs(), factors) && (forall|i: int|
                    0 <= i < factors.len() ==> call_ensures(
                        factor,
                        (A::weight_of(old(self).keys()[i], old(self).units()),),
                        Ok(#[trigger] factors[i]),
                    )) && match r {
                    Ok(_) => factors.len() == old(self).keys().len(),
                    Err(e) => factors.len() < old(self).keys().len() && call_ensures(
                        factor,
                        (
                            A::weight_of(
                                old(self).keys()[factors.len() as int],
                                old(self).units(),
                            ),
                        ),
                        Err(e),
                    ),
                },
    {
        let ghost keys = self.keys();
        let ghost c0 = self.coeffs();
        let ghost mut factors: Seq<C::Real> = Seq::empty();
        let n: usize = self.store.len();
        let mut i: usize = 0;
        proof {
            self.lemma_wf();
            assert(scaled_rows(c0, factors) =~= c0);
        }
        while i < n
            invariant
                self.wf(),
                self.keys() == keys,
                keys == old(self).keys(),
                c0 == old(self).coeffs(),
                keys.len() == n,
                c0.len() == n,
                self.coeffs() == scaled_rows(c0, factors),
                self.units() == old(self).units(),
                self.row_width() == old(self).row_width(),
                i <= n,
                factors.len() == i,
                forall|w: u32| call_requires(factor, (w,)),
                forall|j: int|
                    0 <= j < i ==> call_ensures(
                        factor,
                        (A::weight_of(keys[j], old(self).units()),),
                        Ok(#[trigger] factors[j]),
                    ),
            decreases n - i,
        {
            proof {
                self.lemma_wf();
            }
            let key: BasisString<W> = self.store.row(i);
            let w: u32 = A::weight(&key, self.n_units);
            match factor(w) {
                Ok(f) => {
                    let mut c: C = self.coeffs[i].duplicate();
                    c.scale_real(f);
                    self.set_coeff(i, c);
                    proof {
                        assert(self.coeffs() =~= scaled_rows(c0, factors.push(f)));
                        factors = factors.push(f);
                    }
                },
                Err(e) => {
                    return Err(e);
                },
            }
            i += 1;
        }
        Ok(())
    }

    /// [`TermSum::scale_by_key`] for a factor that can fail. On failure the rows before the
    /// one it failed at have been scaled.
    pub fn try_scale_by_key<
        A: Basis<W>,
        E,
        F: Fn(&BasisString<W>, u32) -> Result<C::Real, E>,
    >(&mut self, factor: F) -> (r: Result<(), E>)
        requires
            old(self).wf(),
            forall|k: &BasisString<W>, w: u32| call_requires(factor, (k, w)),
        ensures
            final(self).wf(),
            final(self).keys() == old(self).keys(),
            final(self).units() == old(self).units(),
            final(self).row_width() == old(self).row_width(),
            exists|factors: Seq<C::Real>|
                factors.len() <= old(self).keys().len() && final(self).coeffs()
                    == #[trigger] scaled_rows(old(self).coeffs(), factors) && (forall|i: int|
                    0 <= i < factors.len() ==> call_ensures(
                        factor,
                        (
                            &BasisString::with_bits(old(self).keys()[i]),
                            A::weight_of(old(self).keys()[i], old(self).units()),
                        ),
                        Ok(#[trigger] factors[i]),
                    )) && match r {
                    Ok(_) => factors.len() == old(self).keys().len(),
                    Err(e) => factors.len() < old(self).keys().len() && call_ensures(
                        factor,
                        (
                            &BasisString::with_bits(old(self).keys()[factors.len() as int]),
                            A::weight_of(
                                old(self).keys()[factors.len() as int],
                                old(self).units(),
                            ),
                        ),
                        Err(e),
                    ),
                },
    {
        let ghost keys = self.keys();
        let ghost c0 = self.coeffs();
        let ghost mut factors: Seq<C::Real> = Seq::empty();
        let n: usize = self.store.len();
        let mut i: usize = 0;
        proof {
            self.lemma_wf();
            assert(scaled_rows(c0, factors) =~= c0);
        }
        while i < n
            invariant
                self.wf(),
                self.keys() == keys,
                keys == old(self).keys(),
                c0 == old(self).coeffs(),
                keys.len() == n,
                c0.len() == n,
                self.coeffs() == scaled_rows(c0, factors),
                self.units() == old(self).units(),
                self.row_width() == old(self).row_width(),
                i <= n,
                factors.len() == i,
                forall|k: &BasisString<W>, w: u32| call_requires(factor, (k, w)),
                forall|j: int|
                    0 <= j < i ==> call_ensures(
                        factor,
                        (
                            &BasisString::with_bits(keys[j]),
                            A::weight_of(keys[j], old(self).units()),
                        ),
                        Ok(#[trigger] factors[j]),
                    ),
            decreases n - i,
        {
            let key: BasisString<W> = self.store.row(i);
            proof {
                self.lemma_wf();
                BasisString::lemma_with_bits(key);
            }
            let w: u32 = A::weight(&key, self.n_units);
            match factor(&key, w) {
                Ok(f) => {
                    let mut c: C = self.coeffs[i].duplicate();
                    c.scale_real(f);
                    self.set_coeff(i, c);
                    proof {
                        assert(self.coeffs() =~= scaled_rows(c0, factors.push(f)));
                        factors = factors.push(f);
                    }
                },
                Err(e) => {
                    return Err(e);
                },
            }
            i += 1;
        }
        Ok(())
    }

    /// The keys' words and weights of `len` rows from row `start`.
    fn gather<A: Basis<W>>(&self, start: usize, len: usize) -> (r: (Vec<u64>, Vec<u32>))
        requires
            self.wf(),
            start + len <= self.keys().len(),
        ensures
            r.0@.len() == len * W,
            r.1@.len() == len,
            forall|j: int|
                0 <= j < len ==> #[trigger] r.1@[j] == A::weight_of(
                    self.keys()[start + j],
                    self.units(),
                ),
            forall|j: int|
                0 <= j < len ==> #[trigger] term_kernel::batch_words(r.0@, W as int, j)
                    == strings::words_spelling(self.keys()[start + j]),
    {
        let mut words: Vec<u64> = Vec::new();
        let mut weights: Vec<u32> = Vec::new();
        let mut j: usize = 0;
        proof {
            self.lemma_wf();
            assert(0 * W == 0) by (nonlinear_arith);
        }
        while j < len
            invariant
                self.wf(),
                start + len <= self.keys().len() <= u32::MAX,
                j <= len,
                words@.len() == j * W,
                weights@.len() == j,
                forall|i: int|
                    0 <= i < j ==> #[trigger] weights@[i] == A::weight_of(
                        self.keys()[start + i],
                        self.units(),
                    ),
                forall|i: int|
                    0 <= i < j ==> #[trigger] term_kernel::batch_words(words@, W as int, i)
                        == strings::words_spelling(self.keys()[start + i]),
            decreases len - j,
        {
            let key: BasisString<W> = self.store.row(start + j);
            let kw: &[u64; W] = key.words();
            let ghost head = words@;
            proof {
                self.lemma_wf();
                BasisString::lemma_words_spelling(key);
                BasisString::lemma_len(key);
            }
            let mut w: usize = 0;
            while w < W
                invariant
                    w <= W,
                    kw@ == key.word_seq(),
                    words@ == head + kw@.take(w as int),
                decreases W - w,
            {
                words.push(kw[w]);
                proof {
                    assert(words@ =~= head + kw@.take(w + 1));
                }
                w += 1;
            }
            proof {
                assert(kw@.take(W as int) =~= kw@);
                assert((j + 1) * W == j * W + W) by (nonlinear_arith);
                assert forall|i: int| 0 <= i < j + 1 implies #[trigger] term_kernel::batch_words(
                    words@,
                    W as int,
                    i,
                ) == strings::words_spelling(self.keys()[start + i]) by {
                    term_kernel::lemma_batch_bounds(i, j + 1, W as int);
                    if i < j {
                        term_kernel::lemma_batch_bounds(i, j as int, W as int);
                        assert(term_kernel::batch_words(words@, W as int, i) =~= term_kernel::batch_words(
                            head,
                            W as int,
                            i,
                        ));
                    } else {
                        assert(term_kernel::batch_words(words@, W as int, i) =~= kw@);
                    }
                }
            }
            weights.push(A::weight(&key, self.n_units));
            j += 1;
        }
        (words, weights)
    }

    /// Scales every coefficient by a kernel's factor for that term's key.
    pub fn scale_by_key<A: Basis<W>, N: NoiseKernel<C::Real>>(&mut self, kernel: &N)
        requires
            old(self).wf(),
        ensures
            final(self).wf(),
            final(self).keys() == old(self).keys(),
            final(self).units() == old(self).units(),
            final(self).row_width() == old(self).row_width(),
            final(self).coeffs() == Seq::new(
                old(self).keys().len(),
                |i: int|
                    old(self).coeffs()[i].scaled(
                        kernel.factor_of(
                            A::kind_of(),
                            strings::words_spelling(old(self).keys()[i]),
                            old(self).units(),
                            A::weight_of(old(self).keys()[i], old(self).units()),
                        ),
                    ),
            ),
    {
        let ghost keys = self.keys();
        let ghost c0 = self.coeffs();
        let ghost want = Seq::new(
            keys.len(),
            |i: int|
                c0[i].scaled(
                    kernel.factor_of(
                        A::kind_of(),
                        strings::words_spelling(keys[i]),
                        self.units(),
                        A::weight_of(keys[i], self.units()),
                    ),
                ),
        );
        let n: usize = self.store.len();
        let mut start: usize = 0;
        proof {
            self.lemma_wf();
        }
        while start < n
            invariant
                self.wf(),
                self.keys() == keys,
                keys.len() == n,
                want.len() == n,
                self.coeffs().len() == n,
                self.units() == old(self).units(),
                self.row_width() == old(self).row_width(),
                start <= n,
                keys == old(self).keys(),
                c0 == old(self).coeffs(),
                want == Seq::new(
                    keys.len(),
                    |i: int|
                        c0[i].scaled(
                            kernel.factor_of(
                                A::kind_of(),
                                strings::words_spelling(keys[i]),
                                old(self).units(),
                                A::weight_of(keys[i], old(self).units()),
                            ),
                        ),
                ),
                forall|i: int|
                    0 <= i < n ==> #[trigger] self.coeffs()[i] == (if i < start {
                        want[i]
                    } else {
                        c0[i]
                    }),
            decreases n - start,
        {
            let len: usize = if n - start < KERNEL_BATCH {
                n - start
            } else {
                KERNEL_BATCH
            };
            let (words, weights) = self.gather::<A>(start, len);
            let factors: Vec<C::Real> = kernel.factor_batch(
                A::kind(),
                words.as_slice(),
                W,
                weights.as_slice(),
                self.n_units,
            );
            let mut j: usize = 0;
            while j < len
                invariant
                    self.wf(),
                    self.keys() == keys,
                    keys.len() == n,
                    self.coeffs().len() == n,
                    self.units() == old(self).units(),
                    self.row_width() == old(self).row_width(),
                    start + len <= n,
                    j <= len,
                    factors@.len() == len,
                    forall|i: int|
                        0 <= i < len ==> c0[start + i].scaled(#[trigger] factors@[i])
                            == want[start + i],
                    forall|i: int|
                        0 <= i < n ==> #[trigger] self.coeffs()[i] == (if i < start + j {
                            want[i]
                        } else {
                            c0[i]
                        }),
                decreases len - j,
            {
                let mut c: C = self.coeffs[start + j].duplicate();
                c.scale_real(factors[j]);
                self.set_coeff(start + j, c);
                j += 1;
            }
            start += len;
        }
        proof {
            assert(self.coeffs() =~= want);
        }
    }

    /// Drops every term a kernel rejects, asking it a batch at a time, and returns how many
    /// went.
    pub fn reclaim_by_kernel<A: Basis<W>, K: TruncationKernel<C::Real>>(
        &mut self,
        kernel: &K,
    ) -> (r: Result<usize, TermIndexCeilingReached>)
        requires
            old(self).wf(),
            operator_index::addressable(old(self).keys().len() as int),
        ensures
            final(self).wf(),
            final(self).units() == old(self).units(),
            final(self).row_width() == old(self).row_width(),
            ({
                let flags = Seq::new(
                    old(self).keys().len(),
                    |i: int|
                        kernel.keeps(
                            A::kind_of(),
                            strings::words_spelling(old(self).keys()[i]),
                            old(self).units(),
                            A::weight_of(old(self).keys()[i], old(self).units()),
                            old(self).coeffs()[i].magnitude_of(),
                        ),
                );
                &&& final(self).keys() == picked(old(self).keys(), flags, flags.len() as int)
                &&& final(self).coeffs() == picked(old(self).coeffs(), flags, flags.len() as int)
                &&& r == Ok::<usize, TermIndexCeilingReached>(
                    (old(self).keys().len() - bits::ones(flags)) as usize,
                )
            }),
    {
        let ghost keys = self.keys();
        let ghost want = Seq::new(
            keys.len(),
            |i: int|
                kernel.keeps(
                    A::kind_of(),
                    strings::words_spelling(keys[i]),
                    self.units(),
                    A::weight_of(keys[i], self.units()),
                    self.coeffs()[i].magnitude_of(),
                ),
        );
        let n: usize = self.store.len();
        let mut flags: Vec<bool> = Vec::new();
        let mut start: usize = 0;
        proof {
            self.lemma_wf();
        }
        while start < n
            invariant
                self.wf(),
                *self == *old(self),
                self.keys() == keys,
                keys.len() == n,
                self.coeffs().len() == n,
                start <= n,
                flags@.len() == start,
                want == Seq::new(
                    keys.len(),
                    |i: int|
                        kernel.keeps(
                            A::kind_of(),
                            strings::words_spelling(keys[i]),
                            self.units(),
                            A::weight_of(keys[i], self.units()),
                            self.coeffs()[i].magnitude_of(),
                        ),
                ),
                forall|i: int| 0 <= i < start ==> #[trigger] flags@[i] == want[i],
            decreases n - start,
        {
            let len: usize = if n - start < KERNEL_BATCH {
                n - start
            } else {
                KERNEL_BATCH
            };
            let (words, weights) = self.gather::<A>(start, len);
            let mut magnitudes: Vec<C::Real> = Vec::new();
            let mut j: usize = 0;
            while j < len
                invariant
                    self.wf(),
                    self.coeffs().len() == n,
                    start + len <= n,
                    j <= len,
                    magnitudes@.len() == j,
                    forall|i: int|
                        0 <= i < j ==> #[trigger] magnitudes@[i]
                            == self.coeffs()[start + i].magnitude_of(),
                decreases len - j,
            {
                magnitudes.push(self.coeffs[start + j].magnitude());
                j += 1;
            }
            let batched: Option<Vec<bool>> = kernel.keep_batch(
                A::kind(),
                words.as_slice(),
                W,
                weights.as_slice(),
                self.n_units,
                magnitudes.as_slice(),
            );
            let mut j: usize = 0;
            while j < len
                invariant
                    self.wf(),
                    self.keys() == keys,
                    keys.len() == n,
                    self.coeffs().len() == n,
                    start + len <= n,
                    j <= len,
                    words@.len() == len * W,
                    weights@.len() == len,
                    magnitudes@.len() == len,
                    flags@.len() == start + j,
                    forall|i: int|
                        0 <= i < len ==> #[trigger] weights@[i] == A::weight_of(
                            keys[start + i],
                            self.units(),
                        ),
                    forall|i: int|
                        0 <= i < len ==> #[trigger] term_kernel::batch_words(words@, W as int, i)
                            == strings::words_spelling(keys[start + i]),
                    forall|i: int|
                        0 <= i < len ==> #[trigger] magnitudes@[i]
                            == self.coeffs()[start + i].magnitude_of(),
                    batched matches Some(v) ==> v@.len() == len && forall|i: int|
                        0 <= i < len ==> #[trigger] v@[i] == want[start + i],
                    want == Seq::new(
                        keys.len(),
                        |i: int|
                            kernel.keeps(
                                A::kind_of(),
                                strings::words_spelling(keys[i]),
                                self.units(),
                                A::weight_of(keys[i], self.units()),
                                self.coeffs()[i].magnitude_of(),
                            ),
                    ),
                    forall|i: int| 0 <= i < start + j ==> #[trigger] flags@[i] == want[i],
                decreases len - j,
            {
                let flag: bool = match &batched {
                    Some(v) => v[j],
                    None => {
                        proof {
                            term_kernel::lemma_batch_bounds(j as int, len as int, W as int);
                            assert(words.len() == words@.len());
                            assert(term_kernel::batch_words(words@, W as int, j as int)
                                == strings::words_spelling(keys[start + j]));
                        }
                        let key = slice_subrange(words.as_slice(), j * W, j * W + W);
                        kernel.keep(
                            TermView {
                                basis_kind: A::kind(),
                                words: key,
                                n_units: self.n_units,
                                weight: weights[j],
                            },
                            magnitudes[j],
                        )
                    },
                };
                flags.push(flag);
                j += 1;
            }
            start += len;
        }
        proof {
            assert(flags@ =~= want);
        }
        self.retain_flagged(&flags)
    }

    /// Replaces every coefficient by what `f` makes of it and its key, in row order.
    pub fn for_each_term_mut<F: Fn(&BasisString<W>, &C) -> C>(&mut self, f: F)
        requires
            old(self).wf(),
            forall|k: &BasisString<W>, c: &C| call_requires(f, (k, c)),
        ensures
            final(self).wf(),
            final(self).keys() == old(self).keys(),
            final(self).units() == old(self).units(),
            final(self).row_width() == old(self).row_width(),
            final(self).coeffs().len() == old(self).coeffs().len(),
            forall|i: int|
                0 <= i < old(self).keys().len() ==> call_ensures(
                    f,
                    (&BasisString::with_bits(old(self).keys()[i]), &old(self).coeffs()[i]),
                    #[trigger] final(self).coeffs()[i],
                ),
    {
        let ghost keys = self.keys();
        let ghost c0 = self.coeffs();
        let n: usize = self.store.len();
        let mut i: usize = 0;
        proof {
            self.lemma_wf();
        }
        while i < n
            invariant
                self.wf(),
                self.keys() == keys,
                keys.len() == n,
                c0.len() == n,
                self.coeffs().len() == n,
                self.units() == old(self).units(),
                self.row_width() == old(self).row_width(),
                i <= n,
                forall|k: &BasisString<W>, c: &C| call_requires(f, (k, c)),
                forall|j: int| i <= j < n ==> #[trigger] self.coeffs()[j] == c0[j],
                forall|j: int|
                    0 <= j < i ==> call_ensures(
                        f,
                        (&BasisString::with_bits(keys[j]), &c0[j]),
                        #[trigger] self.coeffs()[j],
                    ),
            decreases n - i,
        {
            let key: BasisString<W> = self.store.row(i);
            proof {
                BasisString::lemma_with_bits(key);
            }
            let c: C = f(&key, &self.coeffs[i]);
            let ghost was = self.coeffs();
            self.set_coeff(i, c);
            proof {
                assert forall|j: int| 0 <= j < i + 1 implies call_ensures(
                    f,
                    (&BasisString::with_bits(keys[j]), &c0[j]),
                    #[trigger] self.coeffs()[j],
                ) by {
                    if j < i {
                        assert(self.coeffs()[j] == was[j]);
                    }
                }
            }
            i += 1;
        }
    }

    /// Sums `measure` over every live coefficient, up to the largest `u128`.
    pub fn sum_coeffs<F: Fn(&C) -> u128>(&self, measure: F) -> (total: u128)
        requires
            self.wf(),
            forall|c: &C| call_requires(measure, (c,)),
        ensures
            exists|parts: Seq<u128>|
                parts.len() == self.coeffs().len() && (forall|i: int|
                    0 <= i < parts.len() ==> call_ensures(
                        measure,
                        (&self.coeffs()[i],),
                        #[trigger] parts[i],
                    )) && total == #[trigger] saturating_sum(parts),
    {
        let mut total: u128 = 0;
        let mut i: usize = 0;
        let ghost mut parts: Seq<u128> = Seq::empty();
        while i < self.coeffs.len()
            invariant
                self.wf(),
                i <= self.coeffs@.len(),
                parts.len() == i,
                total == saturating_sum(parts),
                forall|c: &C| call_requires(measure, (c,)),
                forall|j: int|
                    0 <= j < i ==> call_ensures(
                        measure,
                        (&self.coeffs()[j],),
                        #[trigger] parts[j],
                    ),
            decreases self.coeffs@.len() - i,
        {
            let part: u128 = measure(&self.coeffs[i]);
            proof {
                assert(parts.push(part).drop_last() =~= parts);
                parts = parts.push(part);
            }
            total = total.saturating_add(part);
            i += 1;
        }
        total
    }

    /// Expectation value against a computational basis state: the real values of the
    /// coefficients, weighted by their keys' traces and added up in row order.
    pub fn expectation<A: Basis<W>>(&self, fock: &[u64]) -> (total: C::Real)
        requires
            self.wf(),
        ensures
            total == traced_total::<A, C, W>(
                self.keys(),
                self.coeffs(),
                self.units(),
                fock@,
                self.keys().len() as int,
            ),
    {
        let mut total: C::Real = C::real_unit(0);
        let n: usize = self.store.len();
        let mut i: usize = 0;
        proof {
            self.lemma_wf();
        }
        while i < n
            invariant
                self.wf(),
                n == self.keys().len(),
                n == self.coeffs().len(),
                i <= n,
                total == traced_total::<A, C, W>(
                    self.keys(),
                    self.coeffs(),
                    self.units(),
                    fock@,
                    i as int,
                ),
            decreases n - i,
        {
            proof {
                self.lemma_wf();
            }
            let key: BasisString<W> = self.store.row(i);
            let t: i8 = A::trace(&key, self.n_units, fock);
            total = self.coeffs[i].add_to_total(total, t);
            i += 1;
        }
        total
    }

    /// Number of terms whose magnitude is zero. No rotation reclaims these, so this is what not
    /// compacting costs.
    pub fn zero_terms(&self) -> (n: usize)
        requires
            self.wf(),
        ensures
            n == bits::ones(
                Seq::new(
                    self.coeffs().len(),
                    |i: int| C::is_nought(self.coeffs()[i].magnitude_of()),
                ),
            ),
    {
        let len: usize = self.len();
        let mut n: usize = 0;
        let mut i: usize = 0;
        proof {
            self.lemma_wf();
            assert(Seq::new(0, |x: int| C::is_nought(self.coeffs()[x].magnitude_of())) =~= Seq::<
                bool,
            >::empty());
        }
        while i < len
            invariant
                self.wf(),
                len == self.keys().len(),
                len == self.coeffs().len(),
                i <= len,
                n <= i,
                n == bits::ones(
                    Seq::new(i as nat, |x: int| C::is_nought(self.coeffs()[x].magnitude_of())),
                ),
            decreases len - i,
        {
            proof {
                assert(Seq::new(
                    (i + 1) as nat,
                    |x: int| C::is_nought(self.coeffs()[x].magnitude_of()),
                ).drop_last() =~= Seq::new(
                    i as nat,
                    |x: int| C::is_nought(self.coeffs()[x].magnitude_of()),
                ));
            }
            if C::real_is_zero(self.coeff(i).magnitude()) {
                n += 1;
            }
            i += 1;
        }
        n
    }

    /// Bytes held by the transposed index, which speeds up scans and stores no keys, counted up
    /// to the largest `usize`.
    pub fn inverted_index_bytes(&self) -> (b: usize)
        requires
            self.wf(),
        ensures
            exists|room: Seq<usize>|
                #[trigger] self.transposed().room_fits(room) && b == operator_index::counted(
                    (self.transposed().dense_bytes(room, self.transposed().column_total() as int)
                        + self.transposed().sparse_bytes(
                        room,
                        self.transposed().column_total() as int,
                    )) as int,
                ),
    {
        let b: usize = self.inverted.memory_bytes();
        proof {
            let t = self.transposed();
            let n = t.column_total() as int;
            let room = choose|room: Seq<usize>|
                #[trigger] self.inverted.room_fits(room) && b == operator_index::counted(
                    (self.inverted.dense_bytes(room, n) + self.inverted.sparse_bytes(
                        room,
                        n,
                    )) as int,
                );
            assert(t.room_fits(room));
        }
        b
    }

    /// Bytes of bitmaps, bytes of lists, and number of bitmaps of the transposed index.
    pub fn inverted_index_tiers(&self) -> (r: (usize, usize, usize))
        requires
            self.wf(),
        ensures
            exists|room: Seq<usize>|
                #[trigger] self.transposed().room_fits(room) && self.transposed().tiers(room, r),
    {
        let r: (usize, usize, usize) = self.inverted.tier_stats();
        proof {
            let room = choose|room: Seq<usize>|
                #[trigger] self.inverted.room_fits(room) && self.inverted.tiers(room, r);
            assert(self.transposed().room_fits(room));
        }
        r
    }

    /// The store of keys.
    pub closed spec fn key_store(&self) -> OperatorIndex<P, W> {
        self.store
    }

    /// Keys and index take `b` bytes, as far as they can be counted, with a row arena of `room`
    /// cells and an index of `entries` slots.
    pub open spec fn keys_take(&self, room: nat, entries: nat, b: usize) -> bool {
        &&& self.key_store().arena_fits(room)
        &&& entries >= self.key_store().slot_count()
        &&& entries * vstd::layout::size_of::<slots::Slot>() <= isize::MAX
        &&& b == operator_index::counted(
            (self.key_store().bytes_with(room) + entries * vstd::layout::size_of::<
                slots::Slot,
            >()) as int,
        )
    }

    /// Bytes of key storage and index, counted up to the largest `usize`. How much room they
    /// have beyond the rows is the allocator's choice.
    pub fn key_bytes(&self) -> (b: usize)
        requires
            self.wf(),
        ensures
            exists|room: nat, entries: nat| #[trigger] self.keys_take(room, entries, b),
    {
        let rows: usize = self.store.memory_bytes();
        let index: usize = self.store.index_memory_bytes();
        let b: usize = rows.saturating_add(index);
        proof {
            let room = choose|room: nat|
                #[trigger] self.store.arena_fits(room) && rows == operator_index::counted(
                    self.store.bytes_with(room) as int,
                );
            let entries = choose|n: nat|
                n >= self.store.slot_count() && n > self.store.index_size() && index
                    == #[trigger] (n * vstd::layout::size_of::<slots::Slot>());
            assert(self.keys_take(room, entries, b));
        }
        b
    }

    /// The coefficient column, to be rewritten in place.
    pub fn with_coeffs_mut(&mut self) -> (column: &mut [C])
        requires
            old(self).wf(),
        ensures
            column@ == old(self).coeffs(),
            final(column)@.len() == column@.len() ==> final(self).wf(),
            final(self).keys() == old(self).keys(),
            final(self).coeffs() == final(column)@,
            final(self).units() == old(self).units(),
            final(self).row_width() == old(self).row_width(),
    {
        self.coeffs.as_mut_slice()
    }

    /// Every live term as a key and coefficient pair, in row order.
    pub fn iter(&self) -> (v: Vec<(BasisString<W>, &C)>)
        requires
            self.wf(),
        ensures
            v@.len() == self.keys().len(),
            forall|i: int|
                0 <= i < v@.len() ==> (#[trigger] v@[i]).0@ == self.keys()[i] && *v@[i].1
                    == self.coeffs()[i],
    {
        let n: usize = self.store.len();
        let mut v: Vec<(BasisString<W>, &C)> = Vec::new();
        let mut i: usize = 0;
        proof {
            self.lemma_wf();
        }
        while i < n
            invariant
                self.wf(),
                n == self.keys().len(),
                n == self.coeffs().len(),
                i <= n,
                v@.len() == i,
                forall|j: int|
                    0 <= j < i ==> (#[trigger] v@[j]).0@ == self.keys()[j] && *v@[j].1
                        == self.coeffs()[j],
            decreases n - i,
        {
            v.push((self.store.row(i), &self.coeffs[i]));
            i += 1;
        }
        v
    }
}

/// Picking everything changes nothing.
proof fn lemma_picked_all<T>(s: Seq<T>, flags: Seq<bool>, n: int)
    requires
        0 <= n <= s.len(),
        n <= flags.len(),
        forall|i: int| 0 <= i < n ==> #[trigger] flags[i],
    ensures
        picked(s, flags, n) == s.take(n),
    decreases n,
{
    if n > 0 {
        lemma_picked_all(s, flags, n - 1);
        assert(s.take(n - 1).push(s[n - 1]) =~= s.take(n));
    } else {
        assert(picked(s, flags, n) =~= s.take(n));
    }
}

/// The sources have been rotated, and the messages so far have arrived.
pub open spec fn partly_rotated<
    A: Basis<W>,
    C: CoeffRepr,
    K: TruncationKernel<C::Real>,
    const W: usize,
>(
    g: Gate<A, C, K, W>,
    before: Map<Seq<bool>, C>,
    msgs: Seq<Message<C>>,
    after: Map<Seq<bool>, C>,
) -> bool {
    forall|k: Seq<bool>| #[trigger]
        gate::get(after, k) == gate::merged(
            gate::get(before.map_entries(|k: Seq<bool>, c: C| g.remains(k, c)), k),
            gate::brought(msgs, k),
        )
}

/// What the scan leaves, key by key.
pub proof fn lemma_scanned<A: Basis<W>, C: CoeffRepr, K: TruncationKernel<C::Real>, const W: usize>(
    g: Gate<A, C, K, W>,
    keys: Seq<Seq<bool>>,
    coeffs: Seq<C>,
    after: Seq<C>,
)
    requires
        gate::distinct(keys, 64 * W as int),
        keys.len() == coeffs.len(),
        after == Seq::new(keys.len(), |i: int| g.remains(keys[i], coeffs[i])),
    ensures
        gate::terms_of(keys, after) == gate::terms_of(keys, coeffs).map_entries(
            |k: Seq<bool>, c: C| g.remains(k, c),
        ),
{
    gate::lemma_terms_map(
        keys,
        coeffs,
        after,
        64 * W as int,
        |k: Seq<bool>, c: C| g.remains(k, c),
    );
}

/// A row sends at most one message.
pub proof fn lemma_sent_len<A: Basis<W>, C: CoeffRepr, K: TruncationKernel<C::Real>, const W: usize>(
    g: Gate<A, C, K, W>,
    keys: Seq<Seq<bool>>,
    coeffs: Seq<C>,
    n: int,
    p: int,
    s: nat,
)
    requires
        0 <= n,
    ensures
        gate::sent(g, keys, coeffs, n, p, s).len() <= n,
    decreases n,
{
    if n > 0 {
        lemma_sent_len(g, keys, coeffs, n - 1, p, s);
    }
}

/// A claim releases at most one message.
pub proof fn lemma_released_len<A: Basis<W>, C: CoeffRepr, const W: usize>(
    gen: Seq<bool>,
    negated: bool,
    needs_phase: bool,
    keys: Seq<Seq<bool>>,
    held: Seq<Option<C>>,
    claims: Seq<int>,
    t: int,
    p: int,
    s: nat,
)
    requires
        0 <= t,
    ensures
        released::<A, C, W>(gen, negated, needs_phase, keys, held, claims, t, p, s).len() <= t,
        s <= 1 && p == 0 ==> released::<A, C, W>(
            gen,
            negated,
            needs_phase,
            keys,
            held,
            claims,
            t,
            p,
            s,
        ).len() == t,
    decreases t,
{
    if t > 0 {
        lemma_released_len::<A, C, W>(
            gen,
            negated,
            needs_phase,
            keys,
            held,
            claims,
            t - 1,
            p,
            s,
        );
    }
}

/// A message pays for at most one row.
pub proof fn lemma_paid_len<C>(
    keys: Seq<Seq<bool>>,
    held: Seq<Option<C>>,
    msgs: Seq<Message<C>>,
    t: int,
)
    requires
        0 <= t,
    ensures
        paid_rows(keys, held, msgs, t).len() <= t,
    decreases t,
{
    if t > 0 {
        lemma_paid_len(keys, held, msgs, t - 1);
    }
}

/// Messages to known keys create nothing.
pub proof fn lemma_none_fresh<C>(keys: Seq<Seq<bool>>, msgs: Seq<Message<C>>)
    requires
        forall|j: int| 0 <= j < msgs.len() ==> keys.contains((#[trigger] msgs[j]).0),
    ensures
        gate::fresh(keys, msgs, msgs.len() as int) == 0,
{
    bits::lemma_ones_none(Seq::new(msgs.len(), |j: int| !keys.contains(msgs[j].0)));
}

/// Maps that answer alike are one map.
pub proof fn lemma_same_map<C>(a: Map<Seq<bool>, C>, b: Map<Seq<bool>, C>)
    requires
        forall|k: Seq<bool>| #[trigger] gate::get(a, k) == gate::get(b, k),
    ensures
        a == b,
{
    assert forall|k: Seq<bool>| #[trigger] a.contains_key(k) == b.contains_key(k) by {
        assert(gate::get(a, k) == gate::get(b, k));
    }
    assert forall|k: Seq<bool>| a.contains_key(k) implies #[trigger] a[k] == b[k] by {
        assert(gate::get(a, k) == gate::get(b, k));
    }
    assert(a =~= b);
}

/// Rows that do not branch leave the counts as they are.
proof fn lemma_scan_skip<A: Basis<W>, C: CoeffRepr, K: TruncationKernel<C::Real>, const W: usize>(
    g: Gate<A, C, K, W>,
    keys: Seq<Seq<bool>>,
    coeffs: Seq<C>,
    a: int,
    b: int,
)
    requires
        0 <= a <= b <= keys.len(),
        forall|x: int| a <= x < b ==> !g.branches(#[trigger] keys[x]),
    ensures
        bits::ones(Seq::new(b as nat, |i: int| g.fate(keys[i], coeffs[i]) is Sends)) == bits::ones(
            Seq::new(a as nat, |i: int| g.fate(keys[i], coeffs[i]) is Sends),
        ),
        bits::ones(Seq::new(b as nat, |i: int| g.fate(keys[i], coeffs[i]) is Holds)) == bits::ones(
            Seq::new(a as nat, |i: int| g.fate(keys[i], coeffs[i]) is Holds),
        ),
        bits::ones(Seq::new(b as nat, |i: int| g.branches(keys[i]))) == bits::ones(
            Seq::new(a as nat, |i: int| g.branches(keys[i])),
        ),
{
    bits::lemma_ones_padded(
        Seq::new(a as nat, |i: int| g.fate(keys[i], coeffs[i]) is Sends),
        Seq::new(b as nat, |i: int| g.fate(keys[i], coeffs[i]) is Sends),
    );
    bits::lemma_ones_padded(
        Seq::new(a as nat, |i: int| g.fate(keys[i], coeffs[i]) is Holds),
        Seq::new(b as nat, |i: int| g.fate(keys[i], coeffs[i]) is Holds),
    );
    bits::lemma_ones_padded(
        Seq::new(a as nat, |i: int| g.branches(keys[i])),
        Seq::new(b as nat, |i: int| g.branches(keys[i])),
    );
}

/// One more row, one more count where it applies.
proof fn lemma_scan_count<A: Basis<W>, C: CoeffRepr, K: TruncationKernel<C::Real>, const W: usize>(
    g: Gate<A, C, K, W>,
    keys: Seq<Seq<bool>>,
    coeffs: Seq<C>,
    i: int,
)
    requires
        0 <= i < keys.len(),
    ensures
        bits::ones(Seq::new((i + 1) as nat, |x: int| g.fate(keys[x], coeffs[x]) is Sends))
            == bits::ones(Seq::new(i as nat, |x: int| g.fate(keys[x], coeffs[x]) is Sends)) + (
        if g.fate(keys[i], coeffs[i]) is Sends {
            1nat
        } else {
            0nat
        }),
        bits::ones(Seq::new((i + 1) as nat, |x: int| g.fate(keys[x], coeffs[x]) is Holds))
            == bits::ones(Seq::new(i as nat, |x: int| g.fate(keys[x], coeffs[x]) is Holds)) + (
        if g.fate(keys[i], coeffs[i]) is Holds {
            1nat
        } else {
            0nat
        }),
        bits::ones(Seq::new((i + 1) as nat, |x: int| g.branches(keys[x]))) == bits::ones(
            Seq::new(i as nat, |x: int| g.branches(keys[x])),
        ) + (if g.branches(keys[i]) {
            1nat
        } else {
            0nat
        }),
{
    assert(Seq::new((i + 1) as nat, |x: int| g.fate(keys[x], coeffs[x]) is Sends).drop_last()
        =~= Seq::new(i as nat, |x: int| g.fate(keys[x], coeffs[x]) is Sends));
    assert(Seq::new((i + 1) as nat, |x: int| g.fate(keys[x], coeffs[x]) is Holds).drop_last()
        =~= Seq::new(i as nat, |x: int| g.fate(keys[x], coeffs[x]) is Holds));
    assert(Seq::new((i + 1) as nat, |x: int| g.branches(keys[x])).drop_last() =~= Seq::new(
        i as nat,
        |x: int| g.branches(keys[x]),
    ));
}

/// A saturating sum is the sum where it fits, and the largest value where it does not.
pub proof fn law_sums_saturate(s: Seq<u128>)
    ensures
        ({
            let total = s.fold_left(0int, |x: int, v: u128| x + v);
            saturating_sum(s) == (if total <= u128::MAX {
                total
            } else {
                u128::MAX as int
            })
        }),
        s.fold_left(0int, |x: int, v: u128| x + v) >= 0,
    decreases s.len(),
{
    reveal(Seq::fold_left);
    if s.len() > 0 {
        law_sums_saturate(s.drop_last());
    }
}

/// Keeping the flagged rows is filtering them by what raised the flags.
pub proof fn law_picking_is_filtering<T>(
    s: Seq<T>,
    flags: Seq<bool>,
    keep: spec_fn(T) -> bool,
    n: int,
)
    requires
        0 <= n <= s.len(),
        forall|i: int| 0 <= i < n ==> #[trigger] flags[i] == keep(s[i]),
    ensures
        picked(s, flags, n) == s.take(n).filter(keep),
    decreases n,
{
    reveal(Seq::filter);
    if n > 0 {
        law_picking_is_filtering(s, flags, keep, n - 1);
        assert(s.take(n).drop_last() =~= s.take(n - 1));
        assert(s.take(n).last() == s[n - 1]);
        assert(flags[n - 1] == keep(s[n - 1]));
    } else {
        assert(s.take(0) =~= Seq::empty());
    }
}

/// Keys and coefficients picked by the same flags keep each other's company.
pub proof fn law_picking_keeps_pairs<S, T>(a: Seq<S>, b: Seq<T>, flags: Seq<bool>, n: int)
    requires
        0 <= n <= a.len(),
        a.len() == b.len(),
    ensures
        picked(a, flags, n).len() == picked(b, flags, n).len(),
        Seq::new(
            picked(a, flags, n).len(),
            |j: int| (picked(a, flags, n)[j], picked(b, flags, n)[j]),
        ) == picked(Seq::new(a.len(), |i: int| (a[i], b[i])), flags, n),
    decreases n,
{
    let pairs = Seq::new(a.len(), |i: int| (a[i], b[i]));
    if n > 0 {
        law_picking_keeps_pairs(a, b, flags, n - 1);
        let rest = Seq::new(
            picked(a, flags, n - 1).len(),
            |j: int| (picked(a, flags, n - 1)[j], picked(b, flags, n - 1)[j]),
        );
        let now = Seq::new(
            picked(a, flags, n).len(),
            |j: int| (picked(a, flags, n)[j], picked(b, flags, n)[j]),
        );
        if flags[n - 1] {
            assert(now =~= rest.push(pairs[n - 1]));
        } else {
            assert(now =~= rest);
        }
    } else {
        assert(Seq::new(
            picked(a, flags, n).len(),
            |j: int| (picked(a, flags, n)[j], picked(b, flags, n)[j]),
        ) =~= picked(pairs, flags, n));
    }
}

/// An expectation value goes through the rows one by one, whatever their traces: it starts from
/// zero and adds each coefficient times its key's trace.
pub proof fn law_expectation_is_a_fold<A: Basis<W>, C: CoeffRepr, const W: usize>(
    keys: Seq<Seq<bool>>,
    coeffs: Seq<C>,
    n_units: nat,
    fock: Seq<u64>,
    n: int,
)
    requires
        0 <= n <= keys.len(),
        keys.len() == coeffs.len(),
    ensures
        traced_total::<A, C, W>(keys, coeffs, n_units, fock, n) == Seq::new(
            keys.len(),
            |i: int| (keys[i], coeffs[i]),
        ).take(n).fold_left(
            C::unit(0),
            |x: C::Real, t: (Seq<bool>, C)|
                C::totalled(x, t.1, A::trace_of(t.0, n_units, fock) as int),
        ),
    decreases n,
{
    reveal(Seq::fold_left);
    let all = Seq::new(keys.len(), |i: int| (keys[i], coeffs[i]));
    if n > 0 {
        law_expectation_is_a_fold::<A, C, W>(keys, coeffs, n_units, fock, n - 1);
        assert(all.take(n).drop_last() =~= all.take(n - 1));
        assert(all.take(n).last() == all[n - 1]);
    }
}

/// Scaling rows by a list of factors scales each row by its own and leaves the rows past the
/// list alone.
pub proof fn law_rows_are_scaled<C: CoeffRepr>(coeffs: Seq<C>, factors: Seq<C::Real>, i: int)
    requires
        0 <= i < coeffs.len(),
    ensures
        scaled_rows(coeffs, factors).len() == coeffs.len(),
        i < factors.len() ==> scaled_rows(coeffs, factors)[i] == coeffs[i].scaled(factors[i]),
        i >= factors.len() ==> scaled_rows(coeffs, factors)[i] == coeffs[i],
{
}

/// A reclaim by a plugin leaves exactly the rows for which the plugin answers keep, in their
/// order and unchanged.
pub proof fn law_reclaim_by_plugin<
    A: Basis<W>,
    C: CoeffRepr,
    K: TruncationKernel<C::Real>,
    const W: usize,
>(
    plugin: K,
    keys: Seq<Seq<bool>>,
    coeffs: Seq<C>,
    n_units: nat,
    flags: Seq<bool>,
    now_keys: Seq<Seq<bool>>,
    now_coeffs: Seq<C>,
)
    requires
        keys.len() == coeffs.len(),
        flags == Seq::new(
            keys.len(),
            |i: int|
                plugin.keeps(
                    A::kind_of(),
                    strings::words_spelling(keys[i]),
                    n_units,
                    A::weight_of(keys[i], n_units),
                    coeffs[i].magnitude_of(),
                ),
        ),
        now_keys == picked(keys, flags, flags.len() as int),
        now_coeffs == picked(coeffs, flags, flags.len() as int),
    ensures
        Seq::new(now_keys.len(), |j: int| (now_keys[j], now_coeffs[j])) == Seq::new(
            keys.len(),
            |i: int| (keys[i], coeffs[i]),
        ).filter(
            |t: (Seq<bool>, C)|
                plugin.keeps(
                    A::kind_of(),
                    strings::words_spelling(t.0),
                    n_units,
                    A::weight_of(t.0, n_units),
                    t.1.magnitude_of(),
                ),
        ),
{
    let n = keys.len() as int;
    let all = Seq::new(keys.len(), |i: int| (keys[i], coeffs[i]));
    let keep = |t: (Seq<bool>, C)|
        plugin.keeps(
            A::kind_of(),
            strings::words_spelling(t.0),
            n_units,
            A::weight_of(t.0, n_units),
            t.1.magnitude_of(),
        );
    law_picking_keeps_pairs(keys, coeffs, flags, n);
    law_picking_is_filtering(all, flags, keep, n);
    assert(all.take(n) =~= all);
}

} // verus!
