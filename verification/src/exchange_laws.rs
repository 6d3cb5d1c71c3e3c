//! The exchange of branches between partitions loses nothing: every branch that is routed lands
//! on a row that is there or makes a new one, and comes from a row that sent or released it.

use crate::basis::Basis;
use crate::bits;
use crate::coeff::CoeffRepr;
use crate::emit::{Fate, Gate};
use crate::exchange;
use crate::gate;
use crate::gate::Message;
use crate::operator_index::Pos;
use crate::sums;
use crate::term_kernel::TruncationKernel;
use crate::termsum;
use crate::termsum::TermSum;
use vstd::prelude::*;

verus! {

/// A sum with one summand that counts.
proof fn lemma_sum_one(f: spec_fn(int) -> nat, n: int, at: int, v: nat)
    requires
        0 <= at,
        forall|i: int|
            0 <= i < n ==> #[trigger] f(i) == (if i == at {
                v
            } else {
                0
            }),
    ensures
        sums::sum_to(f, n) == (if at < n {
            v
        } else {
            0
        }),
    decreases n,
{
    if n > 0 {
        lemma_sum_one(f, n - 1, at, v);
        assert(f(n - 1) == (if n - 1 == at {
            v
        } else {
            0
        }));
    }
}

/// Of the first messages, those that meet a row are the ones to keys that are there, and the
/// others make new rows.
pub proof fn law_messages_meet_or_make_rows<C>(
    keys: Seq<Seq<bool>>,
    msgs: Seq<Message<C>>,
    t: int,
)
    requires
        0 <= t <= msgs.len(),
    ensures
        termsum::met(keys, msgs, t) == bits::ones(
            Seq::new(t as nat, |j: int| keys.contains(msgs[j].0)),
        ),
        termsum::met(keys, msgs, t) + gate::fresh(keys, msgs, t) == t,
    decreases t,
{
    let there = Seq::new(t as nat, |j: int| keys.contains(msgs[j].0));
    let new = Seq::new(t as nat, |j: int| !keys.contains(msgs[j].0));
    if t > 0 {
        law_messages_meet_or_make_rows(keys, msgs, t - 1);
        assert(there.drop_last() =~= Seq::new((t - 1) as nat, |j: int| keys.contains(msgs[j].0)));
        assert(new.drop_last() =~= Seq::new((t - 1) as nat, |j: int| !keys.contains(msgs[j].0)));
        bits::lemma_ones_bound(new.drop_last());
    }
}

/// How many of the first `n` rows send a branch.
pub open spec fn sending<A: Basis<W>, C: CoeffRepr, K: TruncationKernel<C::Real>, const W: usize>(
    g: Gate<A, C, K, W>,
    keys: Seq<Seq<bool>>,
    coeffs: Seq<C>,
    n: int,
) -> nat {
    bits::ones(Seq::new(n as nat, |i: int| g.fate(keys[i], coeffs[i]) is Sends))
}

/// Every branch a row sends goes to one partition: the partitions together get as many as are
/// sent.
pub proof fn law_branches_go_to_one_partition<
    A: Basis<W>,
    C: CoeffRepr,
    K: TruncationKernel<C::Real>,
    const W: usize,
>(g: Gate<A, C, K, W>, keys: Seq<Seq<bool>>, coeffs: Seq<C>, n: int, s: nat)
    requires
        0 <= n <= keys.len(),
        keys.len() == coeffs.len(),
        s > 0,
    ensures
        sums::sum_to(|dst: int| gate::sent(g, keys, coeffs, n, dst, s).len(), s as int) == sending(
            g,
            keys,
            coeffs,
            n,
        ),
        n == keys.len() ==> sending(g, keys, coeffs, n) == termsum::emitting(g, keys, coeffs),
    decreases n,
{
    let f = |dst: int| gate::sent(g, keys, coeffs, n, dst, s).len();
    let flags = Seq::new(n as nat, |i: int| g.fate(keys[i], coeffs[i]) is Sends);
    if n > 0 {
        law_branches_go_to_one_partition(g, keys, coeffs, n - 1, s);
        let was = |dst: int| gate::sent(g, keys, coeffs, n - 1, dst, s).len();
        assert(flags.drop_last() =~= Seq::new(
            (n - 1) as nat,
            |i: int| g.fate(keys[i], coeffs[i]) is Sends,
        ));
        let o = gate::owner(g.partner(keys[n - 1]), s);
        exchange::lemma_owner(g.partner(keys[n - 1]), s);
        let one: nat = if flags[n - 1] {
            1
        } else {
            0
        };
        let more = |dst: int|
            if dst == o {
                one
            } else {
                0nat
            };
        assert forall|dst: int| 0 <= dst < s implies #[trigger] f(dst) == was(dst) + more(dst) by {}
        sums::lemma_sum_add(was, more, f, s as int);
        lemma_sum_one(more, s as int, o, one);
    } else {
        sums::lemma_sum_zero(f, s as int);
        assert(flags =~= Seq::<bool>::empty());
    }
}

/// Every branch that the partitions send arrives at a partition.
pub proof fn law_every_branch_arrives<
    A: Basis<W>,
    C: CoeffRepr,
    P: Pos,
    K: TruncationKernel<C::Real>,
    const W: usize,
>(g: Gate<A, C, K, W>, parts: Seq<TermSum<C, P, W>>, n: int)
    requires
        0 <= n <= parts.len(),
        parts.len() > 0,
        forall|p: int|
            0 <= p < parts.len() ==> (#[trigger] parts[p]).keys().len() == parts[p].coeffs().len(),
    ensures
        sums::sum_to(
            |dst: int| exchange::arriving(g, parts, dst, n).len(),
            parts.len() as int,
        ) == sums::sum_to(
            |src: int| termsum::emitting(g, parts[src].keys(), parts[src].coeffs()),
            n,
        ),
    decreases n,
{
    let s = parts.len();
    let f = |dst: int| exchange::arriving(g, parts, dst, n).len();
    if n > 0 {
        law_every_branch_arrives(g, parts, n - 1);
        let part = parts[n - 1];
        let m = part.keys().len() as int;
        let was = |dst: int| exchange::arriving(g, parts, dst, n - 1).len();
        let more = |dst: int| gate::sent(g, part.keys(), part.coeffs(), m, dst, s).len();
        law_branches_go_to_one_partition(g, part.keys(), part.coeffs(), m, s);
        assert forall|dst: int| 0 <= dst < s implies #[trigger] f(dst) == was(dst) + more(dst) by {}
        sums::lemma_sum_add(was, more, f, s as int);
    } else {
        sums::lemma_sum_zero(f, s as int);
    }
}

/// Every branch that a claimed row releases goes to one partition.
pub proof fn law_released_branches_go_to_one_partition<A: Basis<W>, C: CoeffRepr, const W: usize>(
    gen: Seq<bool>,
    negated: bool,
    needs_phase: bool,
    keys: Seq<Seq<bool>>,
    held: Seq<Option<C>>,
    claims: Seq<int>,
    t: int,
    s: nat,
)
    requires
        0 <= t <= claims.len(),
        s > 0,
    ensures
        sums::sum_to(
            |dst: int|
                termsum::released::<A, C, W>(
                    gen,
                    negated,
                    needs_phase,
                    keys,
                    held,
                    claims,
                    t,
                    dst,
                    s,
                ).len(),
            s as int,
        ) == t,
    decreases t,
{
    let f = |dst: int|
        termsum::released::<A, C, W>(gen, negated, needs_phase, keys, held, claims, t, dst, s).len();
    if t > 0 {
        law_released_branches_go_to_one_partition::<A, C, W>(
            gen,
            negated,
            needs_phase,
            keys,
            held,
            claims,
            t - 1,
            s,
        );
        let was = |dst: int|
            termsum::released::<A, C, W>(
                gen,
                negated,
                needs_phase,
                keys,
                held,
                claims,
                t - 1,
                dst,
                s,
            ).len();
        let child = bits::xor(gen, keys[claims[t - 1]]);
        let o = gate::owner(child, s);
        exchange::lemma_owner(child, s);
        let more = |dst: int|
            if dst == o {
                1nat
            } else {
                0nat
            };
        assert forall|dst: int| 0 <= dst < s implies #[trigger] f(dst) == was(dst) + more(dst) by {}
        sums::lemma_sum_add(was, more, f, s as int);
        lemma_sum_one(more, s as int, o, 1);
    } else {
        sums::lemma_sum_zero(f, s as int);
    }
}

/// Every branch that is paid for returns to a partition.
pub proof fn law_every_paid_branch_returns<
    A: Basis<W>,
    C: CoeffRepr,
    P: Pos,
    K: TruncationKernel<C::Real>,
    const W: usize,
>(g: Gate<A, C, K, W>, parts: Seq<TermSum<C, P, W>>, n: int)
    requires
        0 <= n <= parts.len(),
        parts.len() > 0,
    ensures
        sums::sum_to(
            |dst: int| exchange::returning(g, parts, dst, n).len(),
            parts.len() as int,
        ) == sums::sum_to(
            |p: int|
                termsum::paid_for(
                    g,
                    parts[p].keys(),
                    parts[p].coeffs(),
                    exchange::arriving(g, parts, p, parts.len() as int),
                ),
            n,
        ),
    decreases n,
{
    let s = parts.len();
    let f = |dst: int| exchange::returning(g, parts, dst, n).len();
    if n > 0 {
        law_every_paid_branch_returns(g, parts, n - 1);
        let part = parts[n - 1];
        let held = termsum::held_back(g, part.keys(), part.coeffs());
        let msgs = exchange::arriving(g, parts, n - 1, s as int);
        let claims = termsum::paid_rows(part.keys(), held, msgs, msgs.len() as int);
        let was = |dst: int| exchange::returning(g, parts, dst, n - 1).len();
        let more = |dst: int|
            termsum::released::<A, C, W>(
                g.gen,
                g.negated,
                g.precheck() is Some,
                part.keys(),
                held,
                claims,
                claims.len() as int,
                dst,
                s,
            ).len();
        law_released_branches_go_to_one_partition::<A, C, W>(
            g.gen,
            g.negated,
            g.precheck() is Some,
            part.keys(),
            held,
            claims,
            claims.len() as int,
            s,
        );
        assert forall|dst: int| 0 <= dst < s implies #[trigger] f(dst) == was(dst) + more(dst) by {}
        sums::lemma_sum_add(was, more, f, s as int);
    } else {
        sums::lemma_sum_zero(f, s as int);
    }
}

/// The counters of a rotation balance over all partitions: as many branches are routed, sent or
/// paid for, as land on rows that are there, return, or make new rows.
pub proof fn law_counters_balance<
    A: Basis<W>,
    C: CoeffRepr,
    P: Pos,
    K: TruncationKernel<C::Real>,
    const W: usize,
>(g: Gate<A, C, K, W>, parts: Seq<TermSum<C, P, W>>)
    requires
        parts.len() > 0,
        forall|p: int|
            0 <= p < parts.len() ==> (#[trigger] parts[p]).keys().len() == parts[p].coeffs().len(),
    ensures
        ({
            let s = parts.len() as int;
            let routed = |p: int|
                {
                    let part = parts[p];
                    let msgs = exchange::arriving(g, parts, p, s);
                    termsum::emitting(g, part.keys(), part.coeffs()) + termsum::paid_for(
                        g,
                        part.keys(),
                        part.coeffs(),
                        msgs,
                    )
                };
            let landed = |p: int|
                {
                    let msgs = exchange::arriving(g, parts, p, s);
                    termsum::met(parts[p].keys(), msgs, msgs.len() as int) + exchange::returning(
                        g,
                        parts,
                        p,
                        s,
                    ).len()
                };
            let made = |p: int|
                {
                    let msgs = exchange::arriving(g, parts, p, s);
                    gate::fresh(parts[p].keys(), msgs, msgs.len() as int)
                };
            sums::sum_to(routed, s) == sums::sum_to(landed, s) + sums::sum_to(made, s)
        }),
{
    let s = parts.len() as int;
    let routed = |p: int|
        {
            let part = parts[p];
            let msgs = exchange::arriving(g, parts, p, s);
            termsum::emitting(g, part.keys(), part.coeffs()) + termsum::paid_for(
                g,
                part.keys(),
                part.coeffs(),
                msgs,
            )
        };
    let landed = |p: int|
        {
            let msgs = exchange::arriving(g, parts, p, s);
            termsum::met(parts[p].keys(), msgs, msgs.len() as int) + exchange::returning(
                g,
                parts,
                p,
                s,
            ).len()
        };
    let made = |p: int|
        {
            let msgs = exchange::arriving(g, parts, p, s);
            gate::fresh(parts[p].keys(), msgs, msgs.len() as int)
        };
    let emits = |src: int| termsum::emitting(g, parts[src].keys(), parts[src].coeffs());
    let pays = |p: int|
        termsum::paid_for(
            g,
            parts[p].keys(),
            parts[p].coeffs(),
            exchange::arriving(g, parts, p, parts.len() as int),
        );
    let arrives = |dst: int| exchange::arriving(g, parts, dst, s).len();
    let come_back = |dst: int| exchange::returning(g, parts, dst, s).len();
    law_every_branch_arrives(g, parts, s);
    law_every_paid_branch_returns(g, parts, s);
    assert forall|p: int| 0 <= p < s implies #[trigger] routed(p) == emits(p) + pays(p) by {}
    sums::lemma_sum_add(emits, pays, routed, s);
    let ends = |p: int| landed(p) + made(p);
    assert forall|p: int| 0 <= p < s implies #[trigger] ends(p) == landed(p) + made(p) by {}
    sums::lemma_sum_add(landed, made, ends, s);
    assert forall|p: int| 0 <= p < s implies #[trigger] ends(p) == arrives(p) + come_back(p) by {
        let msgs = exchange::arriving(g, parts, p, s);
        law_messages_meet_or_make_rows(parts[p].keys(), msgs, msgs.len() as int);
    }
    sums::lemma_sum_add(arrives, come_back, ends, s);
}

/// A row's held-back branch is paid for exactly where a message reaches the row.
pub proof fn law_messages_pay_for_held_branches<C>(
    keys: Seq<Seq<bool>>,
    held: Seq<Option<C>>,
    msgs: Seq<Message<C>>,
    t: int,
    r: int,
)
    requires
        0 <= t <= msgs.len(),
        0 <= r < keys.len(),
        forall|i: int, j: int|
            0 <= i < j < keys.len() ==> #[trigger] keys[i] != #[trigger] keys[j],
    ensures
        termsum::paid_rows(keys, held, msgs, t).contains(r) <==> held[r] is Some && exists|j: int|
            0 <= j < t && (#[trigger] msgs[j]).0 == keys[r],
    decreases t,
{
    let now = termsum::paid_rows(keys, held, msgs, t);
    if t > 0 {
        law_messages_pay_for_held_branches(keys, held, msgs, t - 1, r);
        let rest = termsum::paid_rows(keys, held, msgs, t - 1);
        let k = msgs[t - 1].0;
        if keys.contains(k) {
            let i = keys.index_of(k);
            assert(keys[i] == k && 0 <= i < keys.len());
            if k == keys[r] && i != r {
                if i < r {
                    assert(keys[i] != keys[r]);
                } else {
                    assert(keys[r] != keys[i]);
                }
            }
        }
        if k == keys[r] {
            assert(keys.contains(keys[r]));
        }
        if rest.contains(r) {
            let x = choose|x: int| 0 <= x < rest.len() && rest[x] == r;
            assert(now[x] == r);
        }
        if now.len() > rest.len() && now.last() == r {
            assert(now[rest.len() as int] == r);
        }
        if now.contains(r) && !rest.contains(r) {
            let x = choose|x: int| 0 <= x < now.len() && now[x] == r;
            if x < rest.len() {
                assert(rest[x] == r);
            }
            assert(msgs[t - 1].0 == keys[r]);
        }
    } else {
        assert(!now.contains(r));
    }
}

} // verus!
