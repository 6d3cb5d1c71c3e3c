//! What a rotation does to a sum of terms, stated on finite maps from keys to coefficients.
//!
//! Under a rotation about `G` every key has one partner, itself times `G`, so a key receives
//! at most one branch per gate. The result is therefore a function of the sum alone: the
//! order in which rows are visited, and the partition they are visited in, leave no trace.

use crate::basis::Basis;
use crate::bits;
use crate::coeff::CoeffRepr;
use crate::emit;
use crate::emit::{Fate, Gate};
use crate::group;
use crate::strings;
use crate::term_kernel::TruncationKernel;
use vstd::prelude::*;

verus! {

/// The value a map gives a key, if it has the key.
pub open spec fn get<C>(m: Map<Seq<bool>, C>, k: Seq<bool>) -> Option<C> {
    if m.contains_key(k) {
        Some(m[k])
    } else {
        None
    }
}

/// The sum of what is there and what arrives.
pub open spec fn merged<C: CoeffRepr>(there: Option<C>, arrives: Option<C>) -> Option<C> {
    match there {
        Some(a) => match arrives {
            Some(b) => Some(a.sum(b)),
            None => Some(a),
        },
        None => arrives,
    }
}

/// The terms of a list of distinct keys and their coefficients.
pub open spec fn terms_of<C>(keys: Seq<Seq<bool>>, coeffs: Seq<C>) -> Map<Seq<bool>, C> {
    Map::new(|k: Seq<bool>| keys.contains(k), |k: Seq<bool>| coeffs[keys.index_of(k)])
}

/// No key occurs twice, and every key has `n` bits.
pub open spec fn distinct(keys: Seq<Seq<bool>>, n: int) -> bool {
    &&& forall|i: int| 0 <= i < keys.len() ==> (#[trigger] keys[i]).len() == n
    &&& forall|i: int, j: int|
        0 <= i < j < keys.len() ==> #[trigger] keys[i] != #[trigger] keys[j]
}

/// A row's coefficient is its key's.
pub proof fn lemma_terms_at<C>(keys: Seq<Seq<bool>>, coeffs: Seq<C>, n: int, i: int)
    requires
        distinct(keys, n),
        keys.len() == coeffs.len(),
        0 <= i < keys.len(),
    ensures
        terms_of(keys, coeffs).contains_key(keys[i]),
        terms_of(keys, coeffs)[keys[i]] == coeffs[i],
        get(terms_of(keys, coeffs), keys[i]) == Some(coeffs[i]),
{
    assert(keys.contains(keys[i]));
    let j = keys.index_of(keys[i]);
    assert(keys[j] == keys[i] && 0 <= j < keys.len());
    if j < i {
        assert(keys[j] != keys[i]);
    }
    if i < j {
        assert(keys[i] != keys[j]);
    }
}

/// Appending a new key adds its term and nothing else.
pub proof fn lemma_terms_push<C>(keys: Seq<Seq<bool>>, coeffs: Seq<C>, n: int, k: Seq<bool>, c: C)
    requires
        distinct(keys, n),
        keys.len() == coeffs.len(),
        k.len() == n,
        !keys.contains(k),
    ensures
        distinct(keys.push(k), n),
        terms_of(keys.push(k), coeffs.push(c)) == terms_of(keys, coeffs).insert(k, c),
{
    let keys2 = keys.push(k);
    let coeffs2 = coeffs.push(c);
    assert forall|i: int, j: int| 0 <= i < j < keys2.len() implies #[trigger] keys2[i]
        != #[trigger] keys2[j] by {
        if j == keys.len() {
            assert(keys.contains(keys[i]));
        }
    }
    assert forall|x: Seq<bool>| #[trigger] terms_of(keys2, coeffs2).contains_key(x) == terms_of(
        keys,
        coeffs,
    ).insert(k, c).contains_key(x) by {
        if keys.contains(x) {
            let i = choose|i: int| 0 <= i < keys.len() && keys[i] == x;
            assert(keys2[i] == x);
        }
        if x == k {
            assert(keys2[keys.len() as int] == x);
        }
        if keys2.contains(x) && x != k {
            let i = choose|i: int| 0 <= i < keys2.len() && keys2[i] == x;
            assert(keys[i] == x);
        }
    }
    assert forall|x: Seq<bool>| terms_of(keys2, coeffs2).contains_key(x) implies #[trigger] terms_of(
        keys2,
        coeffs2,
    )[x] == terms_of(keys, coeffs).insert(k, c)[x] by {
        let i = choose|i: int| 0 <= i < keys2.len() && keys2[i] == x;
        lemma_terms_at(keys2, coeffs2, n, i);
        if i < keys.len() {
            lemma_terms_at(keys, coeffs, n, i);
        }
    }
    assert(terms_of(keys2, coeffs2) =~= terms_of(keys, coeffs).insert(k, c));
}

/// Rewriting a row's coefficient rewrites its term and nothing else.
pub proof fn lemma_terms_update<C>(keys: Seq<Seq<bool>>, coeffs: Seq<C>, n: int, i: int, c: C)
    requires
        distinct(keys, n),
        keys.len() == coeffs.len(),
        0 <= i < keys.len(),
    ensures
        terms_of(keys, coeffs.update(i, c)) == terms_of(keys, coeffs).insert(keys[i], c),
{
    let coeffs2 = coeffs.update(i, c);
    assert forall|x: Seq<bool>| terms_of(keys, coeffs2).contains_key(x) implies #[trigger] terms_of(
        keys,
        coeffs2,
    )[x] == terms_of(keys, coeffs).insert(keys[i], c)[x] by {
        let j = choose|j: int| 0 <= j < keys.len() && keys[j] == x;
        lemma_terms_at(keys, coeffs2, n, j);
        lemma_terms_at(keys, coeffs, n, j);
        if j != i {
            if j < i {
                assert(keys[j] != keys[i]);
            } else {
                assert(keys[i] != keys[j]);
            }
        }
    }
    assert forall|x: Seq<bool>| #[trigger] terms_of(keys, coeffs2).contains_key(x) == terms_of(
        keys,
        coeffs,
    ).insert(keys[i], c).contains_key(x) by {
        if x == keys[i] {
            assert(keys.contains(x));
        }
    }
    assert(terms_of(keys, coeffs2) =~= terms_of(keys, coeffs).insert(keys[i], c));
}

/// Mapping the coefficients row by row maps the terms.
pub proof fn lemma_terms_map<C, D>(
    keys: Seq<Seq<bool>>,
    coeffs: Seq<C>,
    mapped: Seq<D>,
    n: int,
    f: spec_fn(Seq<bool>, C) -> D,
)
    requires
        distinct(keys, n),
        keys.len() == coeffs.len(),
        keys.len() == mapped.len(),
        forall|i: int| 0 <= i < keys.len() ==> #[trigger] mapped[i] == f(keys[i], coeffs[i]),
    ensures
        terms_of(keys, mapped) == terms_of(keys, coeffs).map_entries(f),
{
    let a = terms_of(keys, mapped);
    let b = terms_of(keys, coeffs).map_entries(f);
    assert forall|k: Seq<bool>| a.contains_key(k) implies #[trigger] a[k] == b[k] by {
        let i = choose|i: int| 0 <= i < keys.len() && keys[i] == k;
        lemma_terms_at(keys, mapped, n, i);
        lemma_terms_at(keys, coeffs, n, i);
    }
    assert(a =~= b);
}

/// A branch on its way to a key.
pub type Message<C> = (Seq<bool>, C);

/// What a list of messages brings a key: the first message to it.
pub open spec fn brought<C>(msgs: Seq<Message<C>>, k: Seq<bool>) -> Option<C>
    decreases msgs.len(),
{
    if msgs.len() == 0 {
        None
    } else {
        match brought(msgs.drop_last(), k) {
            Some(c) => Some(c),
            None => if msgs.last().0 == k {
                Some(msgs.last().1)
            } else {
                None
            },
        }
    }
}

/// No two messages go to one key, and every key has `n` bits.
pub open spec fn separate<C>(msgs: Seq<Message<C>>, n: int) -> bool {
    &&& forall|i: int| 0 <= i < msgs.len() ==> (#[trigger] msgs[i]).0.len() == n
    &&& forall|i: int, j: int|
        0 <= i < j < msgs.len() ==> (#[trigger] msgs[i]).0 != (#[trigger] msgs[j]).0
}

/// A key is brought something exactly when a message goes to it.
pub proof fn lemma_brought<C>(msgs: Seq<Message<C>>, k: Seq<bool>)
    ensures
        brought(msgs, k) is Some <==> exists|j: int|
            0 <= j < msgs.len() && (#[trigger] msgs[j]).0 == k,
        brought(msgs, k) matches Some(c) ==> exists|j: int|
            0 <= j < msgs.len() && (#[trigger] msgs[j]).0 == k && msgs[j].1 == c,
    decreases msgs.len(),
{
    if msgs.len() > 0 {
        let d = msgs.drop_last();
        lemma_brought(d, k);
        if brought(d, k) is Some {
            let j = choose|j: int|
                0 <= j < d.len() && (#[trigger] d[j]).0 == k && d[j].1 == brought(d, k)->0;
            assert(msgs[j] == d[j]);
        } else if msgs.last().0 == k {
            assert(msgs[msgs.len() - 1].0 == k);
        } else {
            assert forall|j: int| 0 <= j < msgs.len() implies (#[trigger] msgs[j]).0 != k by {
                if j < d.len() {
                    assert(d[j] == msgs[j]);
                }
            }
        }
    }
}

/// Among separate messages, the one to a key is what the key is brought.
pub proof fn lemma_brought_at<C>(msgs: Seq<Message<C>>, n: int, j: int)
    requires
        separate(msgs, n),
        0 <= j < msgs.len(),
    ensures
        brought(msgs, msgs[j].0) == Some(msgs[j].1),
{
    lemma_brought(msgs, msgs[j].0);
    assert(msgs[j].0 == msgs[j].0);
    let i = choose|i: int|
        0 <= i < msgs.len() && (#[trigger] msgs[i]).0 == msgs[j].0 && msgs[i].1 == brought(
            msgs,
            msgs[j].0,
        )->0;
    if i < j {
        assert(msgs[i].0 != msgs[j].0);
    }
    if j < i {
        assert(msgs[j].0 != msgs[i].0);
    }
}

/// What two lists of messages bring between them.
pub proof fn lemma_brought_add<C>(a: Seq<Message<C>>, b: Seq<Message<C>>, k: Seq<bool>)
    ensures
        brought(a + b, k) == (match brought(a, k) {
            Some(c) => Some(c),
            None => brought(b, k),
        }),
    decreases b.len(),
{
    if b.len() == 0 {
        assert(a + b =~= a);
    } else {
        assert((a + b).drop_last() =~= a + b.drop_last());
        lemma_brought_add(a, b.drop_last(), k);
    }
}

/// How many of the first `t` messages go to keys outside `keys`.
pub open spec fn fresh<C>(keys: Seq<Seq<bool>>, msgs: Seq<Message<C>>, t: int) -> nat {
    bits::ones(Seq::new(t as nat, |j: int| !keys.contains(msgs[j].0)))
}

/// The partition that owns a key with hash `hash`, among `s`.
pub open spec fn owner_of_hash(hash: u64, s: nat) -> int {
    if s <= 1 {
        0
    } else {
        (hash >> 32) as int % s as int
    }
}

/// The partition that owns key `k`, among `s`.
pub open spec fn owner(k: Seq<bool>, s: nat) -> int {
    owner_of_hash(strings::hash_of(k), s)
}

/// The branches the first `n` rows send to partition `p` of `s`, in row order.
pub open spec fn sent<A: Basis<W>, C: CoeffRepr, K: TruncationKernel<C::Real>, const W: usize>(
    gate: Gate<A, C, K, W>,
    keys: Seq<Seq<bool>>,
    coeffs: Seq<C>,
    n: int,
    p: int,
    s: nat,
) -> Seq<Message<C>>
    decreases n,
{
    if n <= 0 {
        Seq::empty()
    } else {
        let rest = sent(gate, keys, coeffs, n - 1, p, s);
        match gate.fate(keys[n - 1], coeffs[n - 1]) {
            Fate::Sends(b) => if owner(gate.partner(keys[n - 1]), s) == p {
                rest.push((gate.partner(keys[n - 1]), b))
            } else {
                rest
            },
            _ => rest,
        }
    }
}

/// What is sent, and from where.
pub proof fn lemma_sent<A: Basis<W>, C: CoeffRepr, K: TruncationKernel<C::Real>, const W: usize>(
    gate: Gate<A, C, K, W>,
    keys: Seq<Seq<bool>>,
    coeffs: Seq<C>,
    n: int,
    p: int,
    s: nat,
)
    requires
        distinct(keys, 64 * W as int),
        gate.gen.len() == 64 * W,
        0 <= n <= keys.len(),
    ensures
        separate(sent(gate, keys, coeffs, n, p, s), 64 * W as int),
        forall|j: int|
            0 <= j < sent(gate, keys, coeffs, n, p, s).len() ==> {
                let m = #[trigger] sent(gate, keys, coeffs, n, p, s)[j];
                owner(m.0, s) == p && exists|i: int|
                    0 <= i < n && m.0 == gate.partner(#[trigger] keys[i]) && gate.fate(
                        keys[i],
                        coeffs[i],
                    ) == Fate::Sends(m.1)
            },
        forall|i: int|
            0 <= i < n && gate.fate(#[trigger] keys[i], coeffs[i]) is Sends && owner(
                gate.partner(keys[i]),
                s,
            ) == p ==> brought(sent(gate, keys, coeffs, n, p, s), gate.partner(keys[i])) == Some(
                gate.fate(keys[i], coeffs[i])->Sends_0,
            ),
    decreases n,
{
    let all = sent(gate, keys, coeffs, n, p, s);
    if n > 0 {
        lemma_sent(gate, keys, coeffs, n - 1, p, s);
        let rest = sent(gate, keys, coeffs, n - 1, p, s);
        let k = keys[n - 1];
        let g = gate.gen;
        emit::lemma_xor_back(g, k);
        assert forall|j: int| 0 <= j < rest.len() implies rest[j].0 != gate.partner(k) by {
            let m = rest[j];
            let i = choose|i: int|
                0 <= i < n - 1 && m.0 == gate.partner(#[trigger] keys[i]) && gate.fate(
                    keys[i],
                    coeffs[i],
                ) == Fate::Sends(m.1);
            emit::lemma_xor_back(g, keys[i]);
            assert(keys[i] != keys[n - 1]);
        }
        assert forall|j: int| 0 <= j < all.len() implies {
            let m = #[trigger] all[j];
            owner(m.0, s) == p && exists|i: int|
                0 <= i < n && m.0 == gate.partner(#[trigger] keys[i]) && gate.fate(
                    keys[i],
                    coeffs[i],
                ) == Fate::Sends(m.1)
        } by {
            if j < rest.len() {
                let m = rest[j];
                let i = choose|i: int|
                    0 <= i < n - 1 && m.0 == gate.partner(#[trigger] keys[i]) && gate.fate(
                        keys[i],
                        coeffs[i],
                    ) == Fate::Sends(m.1);
                assert(all[j].0 == gate.partner(keys[i]));
            } else {
                assert(all[j].0 == gate.partner(keys[n - 1]));
            }
        }
        assert forall|i: int|
            0 <= i < n && gate.fate(#[trigger] keys[i], coeffs[i]) is Sends && owner(
                gate.partner(keys[i]),
                s,
            ) == p implies brought(all, gate.partner(keys[i])) == Some(
            gate.fate(keys[i], coeffs[i])->Sends_0,
        ) by {
            if i == n - 1 {
                lemma_brought(rest, gate.partner(k));
                assert(all.drop_last() =~= rest);
            } else {
                if all.len() > rest.len() {
                    assert(all.drop_last() =~= rest);
                }
            }
        }
    }
}

/// Rows that commute with the generator send nothing.
pub proof fn lemma_sent_skip<
    A: Basis<W>,
    C: CoeffRepr,
    K: TruncationKernel<C::Real>,
    const W: usize,
>(
    gate: Gate<A, C, K, W>,
    keys: Seq<Seq<bool>>,
    coeffs: Seq<C>,
    a: int,
    b: int,
    p: int,
    s: nat,
)
    requires
        0 <= a <= b,
        forall|i: int| a <= i < b ==> !gate.branches(#[trigger] keys[i]),
    ensures
        sent(gate, keys, coeffs, b, p, s) == sent(gate, keys, coeffs, a, p, s),
    decreases b - a,
{
    if a < b {
        lemma_sent_skip(gate, keys, coeffs, a, b - 1, p, s);
        assert(!gate.branches(keys[b - 1]));
    }
}

/// The branch a key receives, if any: its partner's own, or its partner's held-back one when
/// the key's branch has been sent the other way.
pub open spec fn incoming<A: Basis<W>, C: CoeffRepr, K: TruncationKernel<C::Real>, const W: usize>(
    gate: Gate<A, C, K, W>,
    m: Map<Seq<bool>, C>,
    k: Seq<bool>,
) -> Option<C> {
    let p = gate.partner(k);
    if k.len() == gate.gen.len() && m.contains_key(p) {
        match gate.fate(p, m[p]) {
            Fate::Sends(b) => Some(b),
            Fate::Holds(b) => if m.contains_key(k) && gate.fate(k, m[k]) is Sends {
                Some(gate.rescued(p, b))
            } else {
                None
            },
            _ => None,
        }
    } else {
        None
    }
}

/// The coefficient a key has after the rotation.
pub open spec fn rotated<A: Basis<W>, C: CoeffRepr, K: TruncationKernel<C::Real>, const W: usize>(
    gate: Gate<A, C, K, W>,
    m: Map<Seq<bool>, C>,
    k: Seq<bool>,
) -> Option<C> {
    merged(
        if m.contains_key(k) {
            Some(gate.remains(k, m[k]))
        } else {
            None
        },
        incoming(gate, m, k),
    )
}

/// The sum after the rotation.
pub open spec fn rotate<A: Basis<W>, C: CoeffRepr, K: TruncationKernel<C::Real>, const W: usize>(
    gate: Gate<A, C, K, W>,
    m: Map<Seq<bool>, C>,
) -> Map<Seq<bool>, C> {
    Map::new(
        |k: Seq<bool>| rotated(gate, m, k) is Some,
        |k: Seq<bool>| rotated(gate, m, k)->0,
    )
}

/// What a key is sent by its partner, if a list of rows holds it and sends its branch.
pub open spec fn sent_by<A: Basis<W>, C: CoeffRepr, K: TruncationKernel<C::Real>, const W: usize>(
    gate: Gate<A, C, K, W>,
    m: Map<Seq<bool>, C>,
    k: Seq<bool>,
) -> Option<C> {
    let p = gate.partner(k);
    if k.len() == gate.gen.len() && m.contains_key(p) {
        match gate.fate(p, m[p]) {
            Fate::Sends(b) => Some(b),
            _ => None,
        }
    } else {
        None
    }
}

/// What a key is repaid by its partner, if a list of rows holds the partner's branch back and
/// the partner has been `paid`.
pub open spec fn repaid_by<A: Basis<W>, C: CoeffRepr, K: TruncationKernel<C::Real>, const W: usize>(
    gate: Gate<A, C, K, W>,
    m: Map<Seq<bool>, C>,
    k: Seq<bool>,
    paid: bool,
) -> Option<C> {
    let p = gate.partner(k);
    if k.len() == gate.gen.len() && m.contains_key(p) && paid {
        match gate.fate(p, m[p]) {
            Fate::Holds(b) => Some(gate.rescued(p, b)),
            _ => None,
        }
    } else {
        None
    }
}

/// The messages to a key's partition bring it what its partner sends.
pub proof fn lemma_sent_by<A: Basis<W>, C: CoeffRepr, K: TruncationKernel<C::Real>, const W: usize>(
    gate: Gate<A, C, K, W>,
    keys: Seq<Seq<bool>>,
    coeffs: Seq<C>,
    s: nat,
    k: Seq<bool>,
    p: int,
)
    requires
        distinct(keys, 64 * W as int),
        keys.len() == coeffs.len(),
        gate.gen.len() == 64 * W,
    ensures
        brought(sent(gate, keys, coeffs, keys.len() as int, p, s), k) == (if owner(k, s) == p {
            sent_by(gate, terms_of(keys, coeffs), k)
        } else {
            None
        }),
{
    let n = keys.len() as int;
    let all = sent(gate, keys, coeffs, n, p, s);
    let m = terms_of(keys, coeffs);
    lemma_sent(gate, keys, coeffs, n, p, s);
    lemma_brought(all, k);
    let q = gate.partner(k);
    if brought(all, k) is Some {
        let j = choose|j: int| 0 <= j < all.len() && (#[trigger] all[j]).0 == k;
        let i = choose|i: int|
            0 <= i < n && all[j].0 == gate.partner(#[trigger] keys[i]) && gate.fate(
                keys[i],
                coeffs[i],
            ) == Fate::Sends(all[j].1);
        emit::lemma_xor_back(gate.gen, keys[i]);
        assert(q == keys[i]);
        lemma_terms_at(keys, coeffs, 64 * W as int, i);
        assert(owner(k, s) == p);
    }
    if owner(k, s) == p && sent_by(gate, m, k) is Some {
        emit::lemma_xor_back(gate.gen, k);
        let i = choose|i: int| 0 <= i < keys.len() && keys[i] == q;
        lemma_terms_at(keys, coeffs, 64 * W as int, i);
        assert(gate.fate(keys[i], coeffs[i]) is Sends);
        assert(gate.partner(keys[i]) == k);
    }
}

/// A partner's branch and a partner's repayment together are what a key receives.
pub proof fn lemma_rotated<A: Basis<W>, C: CoeffRepr, K: TruncationKernel<C::Real>, const W: usize>(
    gate: Gate<A, C, K, W>,
    m: Map<Seq<bool>, C>,
    k: Seq<bool>,
    paid: bool,
)
    requires
        gate.gen.len() == 64 * W,
        k.len() == 64 * W ==> paid == (sent_by(gate, m, gate.partner(k)) is Some),
    ensures
        merged(
            merged(
                if m.contains_key(k) {
                    Some(gate.remains(k, m[k]))
                } else {
                    None
                },
                sent_by(gate, m, k),
            ),
            repaid_by(gate, m, k, paid),
        ) == rotated(gate, m, k),
{
    if k.len() == 64 * W {
        emit::lemma_xor_back(gate.gen, k);
    }
}

/// The sum with every anticommuting term scaled: what a half turn does.
pub open spec fn half_turned<A: Basis<W>, C: CoeffRepr, const W: usize>(
    gen: Seq<bool>,
    factor: C::Real,
    m: Map<Seq<bool>, C>,
) -> Map<Seq<bool>, C> {
    m.map_entries(
        |k: Seq<bool>, c: C|
            if A::anti(gen, k) {
                c.scaled(factor)
            } else {
                c
            },
    )
}

/// The sum after a rotation about `gen`, a half turn or another.
pub open spec fn turned<A: Basis<W>, C: CoeffRepr, K: TruncationKernel<C::Real>, const W: usize>(
    gate: Gate<A, C, K, W>,
    m: Map<Seq<bool>, C>,
) -> Map<Seq<bool>, C> {
    match C::half_turn(gate.param, C::tolerance_of()) {
        Some(f) => half_turned::<A, C, W>(gate.gen, f, m),
        None => rotate(gate, m),
    }
}

/// A rotation removes no term.
pub proof fn law_rotation_removes_nothing<
    A: Basis<W>,
    C: CoeffRepr,
    K: TruncationKernel<C::Real>,
    const W: usize,
>(gate: Gate<A, C, K, W>, m: Map<Seq<bool>, C>, k: Seq<bool>)
    requires
        m.contains_key(k),
    ensures
        turned(gate, m).contains_key(k),
{
}

/// A rotation creates only partners of terms that branch, and a half turn creates nothing.
pub proof fn law_rotation_creates_partners<
    A: Basis<W>,
    C: CoeffRepr,
    K: TruncationKernel<C::Real>,
    const W: usize,
>(gate: Gate<A, C, K, W>, m: Map<Seq<bool>, C>, k: Seq<bool>)
    requires
        gate.gen.len() == 64 * W,
        turned(gate, m).contains_key(k),
        !m.contains_key(k),
    ensures
        C::half_turn(gate.param, C::tolerance_of()) is None,
        m.contains_key(gate.partner(k)),
        gate.branches(gate.partner(k)),
        gate.partner(gate.partner(k)) == k,
{
    emit::lemma_xor_back(gate.gen, k);
}

/// Repeated rotations about one generator stay within any set of keys closed under partners:
/// two keys per term, however many rotations there are.
pub proof fn law_orbits_are_closed<
    A: Basis<W>,
    C: CoeffRepr,
    K: TruncationKernel<C::Real>,
    const W: usize,
>(gate: Gate<A, C, K, W>, m: Map<Seq<bool>, C>, keys: Set<Seq<bool>>)
    requires
        gate.gen.len() == 64 * W,
        m.dom().subset_of(keys),
        forall|k: Seq<bool>| #[trigger] keys.contains(k) ==> keys.contains(gate.partner(k)),
    ensures
        turned(gate, m).dom().subset_of(keys),
{
    assert forall|k: Seq<bool>| #[trigger] turned(gate, m).dom().contains(k) implies keys.contains(
        k,
    ) by {
        if !m.contains_key(k) {
            law_rotation_creates_partners(gate, m, k);
            assert(keys.contains(gate.partner(k)));
        }
    }
}

/// A term that commutes with the generator is left as it is.
pub proof fn law_commuting_terms_stay<
    A: Basis<W>,
    C: CoeffRepr,
    K: TruncationKernel<C::Real>,
    const W: usize,
>(gate: Gate<A, C, K, W>, m: Map<Seq<bool>, C>, k: Seq<bool>)
    requires
        group::multiplies::<A, W>(),
        gate.gen.len() == 64 * W,
        k.len() == 64 * W,
        !A::anti(gate.gen, k),
    ensures
        get(turned(gate, m), k) == get(m, k),
{
    group::lemma_anti_additive::<A, W>(gate.gen, gate.gen, k);
    group::lemma_anti_never::<A, W>(gate.gen);
}

/// Without truncation every branch arrives: an anticommuting term keeps its cosine branch, and
/// receives its partner's sine branch where the partner is there.
pub proof fn law_lossless_rotation<
    A: Basis<W>,
    C: CoeffRepr,
    K: TruncationKernel<C::Real>,
    const W: usize,
>(gate: Gate<A, C, K, W>, m: Map<Seq<bool>, C>, k: Seq<bool>)
    requires
        group::multiplies::<A, W>(),
        gate.cutoff.is_lossless(),
        C::half_turn(gate.param, C::tolerance_of()) is None,
        gate.gen.len() == 64 * W,
        k.len() == 64 * W,
        A::anti(gate.gen, k),
    ensures
        get(turned(gate, m), k) == ({
            let p = gate.partner(k);
            merged(
                if m.contains_key(k) {
                    Some(m[k].cos_branch(gate.param, gate.phase(k)))
                } else {
                    None
                },
                if m.contains_key(p) {
                    Some(m[p].sin_branch(gate.param, gate.phase(p)))
                } else {
                    None
                },
            )
        }),
{
    group::lemma_anti_additive::<A, W>(gate.gen, gate.gen, k);
    group::lemma_anti_never::<A, W>(gate.gen);
    emit::lemma_xor_back(gate.gen, k);
}

/// A rotation creates no term that the bounds refuse.
pub proof fn law_bounds_hold<
    A: Basis<W>,
    C: CoeffRepr,
    K: TruncationKernel<C::Real>,
    const W: usize,
>(gate: Gate<A, C, K, W>, m: Map<Seq<bool>, C>, k: Seq<bool>)
    requires
        gate.gen.len() == 64 * W,
        gate.cutoff.native is None,
        gate.cutoff.term is None,
        turned(gate, m).contains_key(k),
        !m.contains_key(k),
    ensures
        gate.cutoff.max_weight matches Some(w) ==> A::weight_of(k, gate.n_units) <= w,
        gate.cutoff.min_coeff matches Some(c) ==> C::real_reaches(
            turned(gate, m)[k].magnitude_of(),
            c,
        ),
{
    emit::lemma_xor_back(gate.gen, k);
}

/// A branch too small to be carried is carried after all where its target's own branch comes
/// back: a pair rotates as a pair, and no row is created for it.
pub proof fn law_pairs_rotate_together<
    A: Basis<W>,
    C: CoeffRepr,
    K: TruncationKernel<C::Real>,
    const W: usize,
>(gate: Gate<A, C, K, W>, m: Map<Seq<bool>, C>, k: Seq<bool>)
    requires
        gate.gen.len() == 64 * W,
        k.len() == 64 * W,
        C::half_turn(gate.param, C::tolerance_of()) is None,
        m.contains_key(k),
        m.contains_key(gate.partner(k)),
        gate.fate(k, m[k]) is Sends,
        gate.fate(gate.partner(k), m[gate.partner(k)]) is Holds,
    ensures
        turned(gate, m)[k] == gate.remains(k, m[k]).sum(
            gate.rescued(
                gate.partner(k),
                gate.fate(gate.partner(k), m[gate.partner(k)])->Holds_0,
            ),
        ),
        turned(gate, m)[gate.partner(k)] == gate.remains(
            gate.partner(k),
            m[gate.partner(k)],
        ).sum(gate.fate(k, m[k])->Sends_0),
{
    emit::lemma_xor_back(gate.gen, k);
}

/// A key's partition is chosen by the upper half of its hash, counted off by the number of
/// partitions; a single partition owns every key.
pub proof fn law_owner_counts_off(hash: u64, s: nat)
    requires
        s > 0,
    ensures
        0 <= owner_of_hash(hash, s) < s,
        owner_of_hash(hash, s) == (hash as int / 0x1_0000_0000) % (s as int),
{
    assert(hash >> 32 == hash / 0x1_0000_0000) by (bit_vector);
}

} // verus!
