//! A term sum spread over hash partitions.
//!
//! Each partition holds the terms whose keys it owns. A rotation scans the partitions, routes
//! the branches that belong elsewhere to their owners, and leaves the same sum whatever the
//! number of partitions. Clifford gates are deferred: they go into a tableau that is applied
//! when terms are read out.

use crate::basis::Basis;
use crate::bits;
use crate::coeff::CoeffRepr;
use crate::conjugation;
use crate::conjugation::Signed;
use crate::emit;
use crate::emit::EmitCutoff;
use crate::exchange;
use crate::gate;
use crate::group;
use crate::operator_index;
use crate::operator_index::{OperatorIndex, Pos, TermIndexCeilingReached};
use crate::strings;
use crate::strings::BasisString;
use crate::sums;
use crate::tableau::CliffordTableau;
use crate::term_kernel::{NoiseKernel, TruncationKernel};
use crate::termsum;
use crate::termsum::TermSum;
use crate::weights;
use crate::timing::PhaseTimes;
use vstd::prelude::*;

verus! {

/// A term sum spread across hash partitions.
pub struct PartitionedTermSum<C: CoeffRepr, P: Pos, const W: usize> {
    partitions: Vec<TermSum<C, P, W>>,
    /// The deferred Clifford gates.
    frame: CliffordTableau<W>,
    /// Whether Clifford gates are deferred. A kernel that reads a term's key needs them
    /// applied, so deferral is off beside one.
    defer_cliffords: bool,
    /// What the rotations so far have taken.
    times: PhaseTimes,
    n_units: usize,
}

/// A run's phase timings and kernel counters, for the verbose log.
#[derive(Clone, Copy)]
pub struct PhaseStats {
    /// Partitions the run used.
    pub partitions: usize,
    /// Nanoseconds in the scan phase, the absorb phase and the pair rule's return round.
    pub times: PhaseTimes,
    /// Live terms at the end of the run.
    pub terms: usize,
    /// Inline position capacity the store settled on.
    pub inline_positions: usize,
    /// Rows whose keys spilled past the inline capacity.
    pub overflow_rows: usize,
    /// Rows the scans read.
    pub visited: u64,
    /// Branches the scans emitted.
    pub emitted: u64,
    /// Branches the emit gate refused.
    pub declined: u64,
    /// Emitted branches that landed on a key the destination already held.
    pub exchange_hits: u64,
}

/// `n`, or the largest `u64` if it is larger.
pub open spec fn capped(n: nat) -> u64 {
    if n <= u64::MAX {
        n as u64
    } else {
        u64::MAX
    }
}

/// The magnitude of `c` is below `threshold`.
pub open spec fn faint<C: CoeffRepr>(c: C, threshold: C::Real) -> bool {
    C::real_below(c.magnitude_of(), threshold)
}

/// `total` is what `measure` makes of a partition's coefficients, added up.
pub open spec fn measured<C: CoeffRepr, P: Pos, F: Fn(&C) -> u128, const W: usize>(
    part: TermSum<C, P, W>,
    measure: F,
    total: u128,
) -> bool {
    exists|each: Seq<u128>|
        each.len() == part.coeffs().len() && (forall|i: int|
            0 <= i < each.len() ==> call_ensures(
                measure,
                (&part.coeffs()[i],),
                #[trigger] each[i],
            )) && total == #[trigger] termsum::saturating_sum(each)
}

/// A total with each row's real value times the signed trace of its image added, in row order.
pub open spec fn framed_total<A: Basis<W>, C: CoeffRepr, const W: usize>(
    rows: Seq<Signed>,
    keys: Seq<Seq<bool>>,
    coeffs: Seq<C>,
    n_units: nat,
    fock: Seq<u64>,
    n: int,
) -> C::Real
    decreases n,
{
    if n <= 0 {
        C::unit(0)
    } else {
        let image = conjugation::carried::<A, W>(rows, keys[n - 1]);
        C::totalled(
            framed_total::<A, C, W>(rows, keys, coeffs, n_units, fock, n - 1),
            coeffs[n - 1],
            image.1 * A::trace_of(image.0, n_units, fock),
        )
    }
}

/// What a partition contributes to an expectation value.
pub open spec fn share<A: Basis<W>, C: CoeffRepr, P: Pos, const W: usize>(
    frame: CliffordTableau<W>,
    part: TermSum<C, P, W>,
    fock: Seq<u64>,
) -> C::Real {
    if frame.is_trivial() {
        termsum::traced_total::<A, C, W>(
            part.keys(),
            part.coeffs(),
            part.units(),
            fock,
            part.keys().len() as int,
        )
    } else {
        framed_total::<A, C, W>(
            frame.readout_rows(),
            part.keys(),
            part.coeffs(),
            part.units(),
            fock,
            part.keys().len() as int,
        )
    }
}

/// The first `n` partitions' shares, added up in order.
pub open spec fn shares<A: Basis<W>, C: CoeffRepr, P: Pos, const W: usize>(
    frame: CliffordTableau<W>,
    parts: Seq<TermSum<C, P, W>>,
    fock: Seq<u64>,
    n: int,
) -> C::Real
    decreases n,
{
    if n <= 0 {
        C::unit(0)
    } else {
        C::real_sum(
            shares::<A, C, P, W>(frame, parts, fock, n - 1),
            share::<A, C, P, W>(frame, parts[n - 1], fock),
        )
    }
}

/// The cutoff in force on a sum of `n_live` terms.
pub open spec fn effective<R, K>(cutoff: EmitCutoff<R, K>, n_live: nat) -> EmitCutoff<R, K> {
    if cutoff.inhibited(n_live) {
        EmitCutoff {
            max_weight: None,
            min_coeff: None,
            native: None,
            term: None,
            min_terms: cutoff.min_terms,
        }
    } else {
        cutoff
    }
}

/// The rotation is a Clifford gate whose tableau can be told.
pub open spec fn clifford<A: Basis<W>, C: CoeffRepr, const W: usize>(
    gen: Seq<bool>,
    param: C::GateParam,
    n_units: nat,
) -> bool {
    C::quarter_turn(param, C::tolerance_of()) && (C::turn_sign(param) is Some || !CliffordTableau::<W>::some_branch::<
        A,
    >(gen, 2 * n_units as int))
}

/// Where the Clifford rotation sends the single-bit strings.
pub open spec fn step_rows<A: Basis<W>, C: CoeffRepr, const W: usize>(
    gen: Seq<bool>,
    param: C::GateParam,
    n_units: nat,
) -> Seq<Signed> {
    conjugation::turn_rows::<A, W>(gen, CliffordTableau::<W>::turn_of::<C>(param), 2 * n_units)
}

/// The sum of the numbers of bytes.
pub open spec fn bytes_in_all(each: Seq<usize>) -> nat {
    sums::sum_to(|p: int| each[p] as nat, each.len() as int)
}

/// The sum of the numbers of bytes, counted up to the largest `usize`.
pub fn total_of(each: &Vec<usize>) -> (b: usize)
    ensures
        b == operator_index::counted(bytes_in_all(each@) as int),
{
    let ghost f = |p: int| each@[p] as nat;
    let mut b: usize = 0;
    let mut p: usize = 0;
    while p < each.len()
        invariant
            p <= each@.len(),
            f == |p: int| each@[p] as nat,
            b == operator_index::counted(sums::sum_to(f, p as int) as int),
        decreases each@.len() - p,
    {
        proof {
            assert(f(p as int) == each@[p as int]);
        }
        b = b.saturating_add(each[p]);
        p += 1;
    }
    b
}

/// Where the Clifford rotation's inverse sends the single-bit strings.
pub open spec fn step_back<A: Basis<W>, C: CoeffRepr, const W: usize>(
    gen: Seq<bool>,
    param: C::GateParam,
    n_units: nat,
) -> Seq<Signed> {
    conjugation::turn_rows::<A, W>(gen, -CliffordTableau::<W>::turn_of::<C>(param), 2 * n_units)
}

/// The rotation is deferred: it is Clifford, and it moves no weight that a bound reads.
pub open spec fn deferrable<A: Basis<W>, C: CoeffRepr, K, const W: usize>(
    gen: Seq<bool>,
    param: C::GateParam,
    cutoff: EmitCutoff<C::Real, K>,
    n_units: nat,
) -> bool {
    clifford::<A, C, W>(gen, param, n_units) && (cutoff.max_weight is None || !weights::moves_weight::<W>(
        step_rows::<A, C, W>(gen, param, n_units),
    ))
}

/// What a tableau's rows carry a string to; the identity carries it to itself.
pub open spec fn through<A: Basis<W>, const W: usize>(
    trivial: bool,
    rows: Seq<Signed>,
    m: Seq<bool>,
) -> Signed {
    if trivial {
        (m, 1int)
    } else {
        conjugation::carried::<A, W>(rows, m)
    }
}

/// What a rotation makes of a partitioned sum. An empty sum is left alone; a rotation that can
/// be deferred joins the frame; a half turn scales the anticommuting terms; and any other
/// rotation is carried out about the generator pushed through the frame, unless a partition
/// runs out of row indices. Then the sources have been rotated and some of the branches have
/// arrived.
pub open spec fn turned_into<
    A: Basis<W>,
    C: CoeffRepr,
    P: Pos,
    K: TruncationKernel<C::Real>,
    const W: usize,
>(
    before: PartitionedTermSum<C, P, W>,
    after: PartitionedTermSum<C, P, W>,
    gen: Seq<bool>,
    param: C::GateParam,
    cutoff: EmitCutoff<C::Real, K>,
    r: Result<usize, TermIndexCeilingReached>,
) -> bool {
    let limits = effective(cutoff, before.rows());
    if before.rows() == 0 {
        r == Ok::<usize, TermIndexCeilingReached>(0) && after == before
    } else if before.defers() && deferrable::<A, C, K, W>(gen, param, limits, before.units()) {
        let step = step_rows::<A, C, W>(gen, param, before.units());
        let back = step_back::<A, C, W>(gen, param, before.units());
        let idle = step == conjugation::unit_rows::<W>(2 * before.units());
        &&& r == Ok::<usize, TermIndexCeilingReached>(0)
        &&& after.parts() == before.parts()
        &&& after.frame().readout_rows() == (if idle {
            before.frame().readout_rows()
        } else {
            conjugation::composed::<A, W>(before.frame().readout_rows(), step)
        })
        &&& after.frame().generator_rows() == (if idle {
            before.frame().generator_rows()
        } else {
            conjugation::composed::<A, W>(back, before.frame().generator_rows())
        })
    } else {
        let pushed = through::<A, W>(
            before.frame().is_trivial(),
            before.frame().generator_rows(),
            gen,
        );
        let g = emit::gate_for::<A, C, K, W>(
            pushed.0,
            pushed.1 == -1,
            param,
            limits,
            before.units(),
        );
        &&& after.frame() == before.frame()
        &&& match C::half_turn(param, C::tolerance_of()) {
            Some(f) => {
                &&& r == Ok::<usize, TermIndexCeilingReached>(0)
                &&& after.rows() == before.rows()
                &&& after.terms() == gate::half_turned::<A, C, W>(pushed.0, f, before.terms())
                &&& same_counters(before.parts(), after.parts())
            },
            None => {
                &&& r is Err <==> exists|dst: int|
                    0 <= dst < before.parts().len() && #[trigger] exchange::exhausted(
                        g,
                        before.parts(),
                        dst,
                    )
                &&& r matches Ok(added) ==> after.terms() == gate::rotate(g, before.terms())
                    && after.rows() == before.rows() + added && forall|p: int|
                    0 <= p < before.parts().len() ==> exchange::tallied(
                        g,
                        before.parts(),
                        p,
                        #[trigger] after.parts()[p],
                    )
                &&& r is Err ==> forall|p: int|
                    0 <= p < before.parts().len() ==> exchange::stopped(
                        g,
                        before.parts(),
                        p,
                        #[trigger] after.parts()[p],
                    )
            },
        }
    }
}

/// No counter of any partition has changed.
pub open spec fn same_counters<C: CoeffRepr, P: Pos, const W: usize>(
    before: Seq<TermSum<C, P, W>>,
    after: Seq<TermSum<C, P, W>>,
) -> bool {
    forall|p: int|
        0 <= p < before.len() ==> (#[trigger] after[p]).exchanges() == before[p].exchanges()
            && after[p].scans() == before[p].scans()
}

/// `after` is `before` scaled by a factor that `factor` gives weight `w`.
pub open spec fn weight_scaled<C: CoeffRepr, F: Fn(u32) -> C::Real>(
    factor: F,
    w: u32,
    before: C,
    after: C,
) -> bool {
    exists|f: C::Real| #[trigger] call_ensures(factor, (w,), f) && after == before.scaled(f)
}

/// `after` is `before` scaled by a factor that `factor` grants weight `w`.
pub open spec fn weight_granted<C: CoeffRepr, E, F: Fn(u32) -> Result<C::Real, E>>(
    factor: F,
    w: u32,
    before: C,
    after: C,
) -> bool {
    exists|f: C::Real|
        call_ensures(factor, (w,), Ok::<C::Real, E>(f)) && after == #[trigger] before.scaled(f)
}

/// `after` is `before` scaled by a factor that `factor` grants key `k` of weight `w`.
pub open spec fn key_granted<
    C: CoeffRepr,
    E,
    F: Fn(&BasisString<W>, u32) -> Result<C::Real, E>,
    const W: usize,
>(factor: F, k: Seq<bool>, w: u32, before: C, after: C) -> bool {
    exists|f: C::Real|
        call_ensures(factor, (&BasisString::with_bits(k), w), Ok::<C::Real, E>(f)) && after
            == #[trigger] before.scaled(f)
}

/// `keep` may answer `flag` of the term.
pub open spec fn answered<C, F: Fn(&BasisString<W>, &C) -> bool, const W: usize>(
    keep: F,
    k: Seq<bool>,
    c: C,
    flag: bool,
) -> bool {
    call_ensures(keep, (&BasisString::with_bits(k), &c), flag)
}

/// `keep` has judged the term, and `after` is what that leaves of it.
pub open spec fn judged<C, F: Fn(&BasisString<W>, &C) -> bool, const W: usize>(
    keep: F,
    k: Seq<bool>,
    c: C,
    after: Option<C>,
) -> bool {
    (answered::<C, F, W>(keep, k, c, true) && after == Some(c)) || (answered::<C, F, W>(
        keep,
        k,
        c,
        false,
    ) && after is None)
}

/// The cutoff admits the term.
pub open spec fn admitted<
    A: Basis<W>,
    C: CoeffRepr,
    K: TruncationKernel<C::Real>,
    const W: usize,
>(cutoff: EmitCutoff<C::Real, K>, k: Seq<bool>, c: C, n_units: nat) -> bool {
    emit::key_admitted::<A, C::Real, K, W>(cutoff, k, n_units) && emit::child_admitted::<A, C, K, W>(
        cutoff,
        k,
        c,
        n_units,
    )
}

/// Partitions that have only lost terms own what is left.
proof fn lemma_rows_fall<C: CoeffRepr, P: Pos, const W: usize>(
    before: Seq<TermSum<C, P, W>>,
    after: Seq<TermSum<C, P, W>>,
)
    requires
        before.len() == after.len(),
        before.len() > 0,
        exchange::owned(before),
        forall|q: int, k: Seq<bool>|
            0 <= q < before.len() && #[trigger] after[q].terms().contains_key(k)
                ==> before[q].terms().contains_key(k),
    ensures
        exchange::owned(after),
        forall|k: Seq<bool>| #[trigger]
            gate::get(exchange::joined(after), k) == gate::get(
                after[gate::owner(k, before.len())].terms(),
                k,
            ) && gate::get(exchange::joined(before), k) == gate::get(
                before[gate::owner(k, before.len())].terms(),
                k,
            ) && 0 <= gate::owner(k, before.len()) < before.len(),
{
    let n = before.len();
    assert forall|q: int, k: Seq<bool>|
        0 <= q < n && #[trigger] after[q].terms().contains_key(k) implies gate::owner(k, n) == q by {
        assert(before[q].terms().contains_key(k));
    }
    assert(exchange::owned(after));
    assert forall|k: Seq<bool>| #[trigger] gate::get(exchange::joined(after), k) == gate::get(
        after[gate::owner(k, n)].terms(),
        k,
    ) && gate::get(exchange::joined(before), k) == gate::get(
        before[gate::owner(k, n)].terms(),
        k,
    ) && 0 <= gate::owner(k, n) < n by {
        exchange::lemma_owner(k, n);
        exchange::lemma_joined(after, k, gate::owner(k, n));
        exchange::lemma_joined(before, k, gate::owner(k, n));
    }
}

/// Partitions whose keys have stayed speak for the same keys, row by row.
proof fn lemma_rows_stay<C: CoeffRepr, P: Pos, const W: usize>(
    before: Seq<TermSum<C, P, W>>,
    after: Seq<TermSum<C, P, W>>,
    units: nat,
)
    requires
        before.len() == after.len(),
        before.len() > 0,
        exchange::tended(before, units),
        exchange::tended(after, units),
        exchange::owned(before),
        forall|p: int| 0 <= p < before.len() ==> (#[trigger] after[p]).keys() == before[p].keys(),
    ensures
        exchange::owned(after),
        exchange::rows_held(after) == exchange::rows_held(before),
        exchange::joined(after).dom() == exchange::joined(before).dom(),
        forall|k: Seq<bool>| #[trigger]
            exchange::joined(before).contains_key(k) ==> ({
                let o = gate::owner(k, before.len());
                let i = before[o].keys().index_of(k);
                &&& 0 <= o < before.len()
                &&& 0 <= i < before[o].keys().len()
                &&& before[o].keys()[i] == k
                &&& exchange::joined(before)[k] == before[o].coeffs()[i]
                &&& exchange::joined(after)[k] == after[o].coeffs()[i]
            }),
{
    let n = before.len() as int;
    assert forall|q: int, k: Seq<bool>|
        0 <= q < n && #[trigger] after[q].terms().contains_key(k) implies gate::owner(k, n as nat)
        == q by {
        assert(after[q].keys() == before[q].keys());
        assert(before[q].terms().contains_key(k));
    }
    sums::lemma_sum_same(|q: int| after[q].keys().len(), |q: int| before[q].keys().len(), n);
    assert forall|k: Seq<bool>| #[trigger] exchange::joined(after).contains_key(k)
        == exchange::joined(before).contains_key(k) by {
        exchange::lemma_owner(k, n as nat);
        let o = gate::owner(k, n as nat);
        assert(after[o].keys() == before[o].keys());
    }
    assert(exchange::joined(after).dom() =~= exchange::joined(before).dom());
    assert forall|k: Seq<bool>| #[trigger] exchange::joined(before).contains_key(k) implies ({
        let o = gate::owner(k, before.len());
        let i = before[o].keys().index_of(k);
        &&& 0 <= o < before.len()
        &&& 0 <= i < before[o].keys().len()
        &&& before[o].keys()[i] == k
        &&& exchange::joined(before)[k] == before[o].coeffs()[i]
        &&& exchange::joined(after)[k] == after[o].coeffs()[i]
    }) by {
        exchange::lemma_owner(k, n as nat);
        let o = gate::owner(k, n as nat);
        assert(after[o].keys() == before[o].keys());
        assert(before[o].keys().contains(k));
        assert(exchange::joined(after).contains_key(k));
    }
}

impl<C: CoeffRepr, P: Pos, const W: usize> PartitionedTermSum<C, P, W> {
    /// The partitions, in order.
    pub closed spec fn parts(&self) -> Seq<TermSum<C, P, W>> {
        self.partitions@
    }

    /// The deferred Clifford gates.
    pub closed spec fn frame(&self) -> CliffordTableau<W> {
        self.frame
    }

    /// Whether Clifford gates are deferred.
    pub closed spec fn defers(&self) -> bool {
        self.defer_cliffords
    }

    /// Number of qubits or modes the sum is sized for.
    pub closed spec fn units(&self) -> nat {
        self.n_units as nat
    }

    /// What the rotations so far have taken.
    pub closed spec fn times(&self) -> PhaseTimes {
        self.times
    }

    /// The stored terms, before the deferred gates.
    pub open spec fn terms(&self) -> Map<Seq<bool>, C> {
        exchange::joined(self.parts())
    }

    /// Live terms over all partitions.
    pub open spec fn rows(&self) -> nat {
        exchange::rows_held(self.parts())
    }

    /// Every partition is well formed and holds only keys it owns.
    pub closed spec fn wf(&self) -> bool {
        &&& self.partitions@.len() > 0
        &&& exchange::tended(self.partitions@, self.n_units as nat)
        &&& exchange::owned(self.partitions@)
        &&& self.frame.wf()
        &&& self.frame.readout_rows().len() == 2 * self.n_units
        &&& self.frame.generator_rows().len() == 2 * self.n_units
        &&& 2 * self.n_units <= usize::MAX
    }

    /// What a well-formed sum promises.
    pub proof fn lemma_wf(&self)
        requires
            self.wf(),
        ensures
            self.parts().len() > 0,
            exchange::tended(self.parts(), self.units()),
            exchange::owned(self.parts()),
            self.frame().wf(),
            self.frame().readout_rows().len() == 2 * self.units(),
            self.frame().generator_rows().len() == 2 * self.units(),
            64 * W <= u32::MAX,
    {
        self.partitions@[0].lemma_wf();
    }

    /// Everything but the partitions is as it was.
    pub open spec fn same_setting(&self, other: Self) -> bool {
        &&& self.parts().len() == other.parts().len()
        &&& self.units() == other.units()
        &&& self.defers() == other.defers()
        &&& self.frame() == other.frame()
        &&& self.times() == other.times()
    }

    /// Creates an empty sum over `n_partitions` partitions, at least one.
    pub fn new(n_units: usize, n_partitions: usize) -> (s: Self)
        requires
            64 * W <= P::limit(),
            2 * n_units <= usize::MAX,
        ensures
            s.wf(),
            s.terms() == Map::<Seq<bool>, C>::empty(),
            s.rows() == 0,
            s.parts().len() == (if n_partitions == 0 {
                1
            } else {
                n_partitions as int
            }),
            s.units() == n_units,
            s.defers(),
            s.frame().readout_rows() == conjugation::unit_rows::<W>(2 * n_units as nat),
            s.frame().generator_rows() == conjugation::unit_rows::<W>(2 * n_units as nat),
            s.times() == (PhaseTimes { scan: 0, absorb: 0, claims: 0 }),
    {
        Self::with_inline_positions(
            n_units,
            n_partitions,
            operator_index::DEFAULT_INLINE_POSITIONS,
        )
    }

    /// Creates an empty sum whose rows are sized for a structural cutoff.
    pub fn with_weight_cutoff(n_units: usize, n_partitions: usize, max_weight: usize) -> (s: Self)
        requires
            64 * W <= P::limit(),
            2 * n_units <= usize::MAX,
            2 * max_weight <= usize::MAX,
        ensures
            s.wf(),
            s.terms() == Map::<Seq<bool>, C>::empty(),
            s.rows() == 0,
            s.parts().len() == (if n_partitions == 0 {
                1
            } else {
                n_partitions as int
            }),
            s.units() == n_units,
            s.defers(),
            s.frame().readout_rows() == conjugation::unit_rows::<W>(2 * n_units as nat),
            s.frame().generator_rows() == conjugation::unit_rows::<W>(2 * n_units as nat),
            s.times() == (PhaseTimes { scan: 0, absorb: 0, claims: 0 }),
            forall|p: int|
                0 <= p < s.parts().len() ==> (#[trigger] s.parts()[p]).row_width() == (
                if max_weight == 0 {
                    1
                } else if 2 * max_weight > operator_index::MAX_INLINE_POSITIONS {
                    operator_index::MAX_INLINE_POSITIONS as int
                } else {
                    2 * max_weight
                }),
    {
        let width: usize = OperatorIndex::<P, W>::inline_width_for_support_cutoff(max_weight);
        Self::with_inline_positions(n_units, n_partitions, width)
    }

    /// Creates an empty sum holding `width` positions inline per row.
    pub fn with_inline_positions(n_units: usize, n_partitions: usize, width: usize) -> (s: Self)
        requires
            64 * W <= P::limit(),
            2 * n_units <= usize::MAX,
        ensures
            s.wf(),
            s.terms() == Map::<Seq<bool>, C>::empty(),
            s.rows() == 0,
            s.parts().len() == (if n_partitions == 0 {
                1
            } else {
                n_partitions as int
            }),
            s.units() == n_units,
            s.defers(),
            s.frame().readout_rows() == conjugation::unit_rows::<W>(2 * n_units as nat),
            s.frame().generator_rows() == conjugation::unit_rows::<W>(2 * n_units as nat),
            s.times() == (PhaseTimes { scan: 0, absorb: 0, claims: 0 }),
            forall|p: int|
                0 <= p < s.parts().len() ==> (#[trigger] s.parts()[p]).row_width() == (if width
                    < 1 {
                    1
                } else if width > operator_index::MAX_INLINE_POSITIONS {
                    operator_index::MAX_INLINE_POSITIONS as int
                } else {
                    width as int
                }),
    {
        let s: usize = if n_partitions == 0 {
            1
        } else {
            n_partitions
        };
        let mut partitions: Vec<TermSum<C, P, W>> = Vec::new();
        while partitions.len() < s
            invariant
                64 * W <= P::limit(),
                partitions@.len() <= s,
                forall|p: int|
                    0 <= p < partitions@.len() ==> (#[trigger] partitions@[p]).wf()
                        && partitions@[p].units() == n_units && partitions@[p].keys()
                        == Seq::<Seq<bool>>::empty() && partitions@[p].terms() == Map::<
                        Seq<bool>,
                        C,
                    >::empty() && partitions@[p].row_width() == (if width < 1 {
                        1
                    } else if width > operator_index::MAX_INLINE_POSITIONS {
                        operator_index::MAX_INLINE_POSITIONS as int
                    } else {
                        width as int
                    }),
            decreases s - partitions@.len(),
        {
            partitions.push(TermSum::with_inline_positions(n_units, width));
        }
        let sum = PartitionedTermSum {
            partitions,
            frame: CliffordTableau::new(n_units),
            defer_cliffords: true,
            times: PhaseTimes::none(),
            n_units,
        };
        proof {
            sums::lemma_sum_zero(
                |p: int| sum.partitions@[p].keys().len(),
                sum.partitions@.len() as int,
            );
            assert forall|k: Seq<bool>| !#[trigger] sum.terms().contains_key(k) by {
                exchange::lemma_owner(k, sum.partitions@.len());
                assert(sum.partitions@[gate::owner(k, sum.partitions@.len())].terms() == Map::<
                    Seq<bool>,
                    C,
                >::empty());
            }
            assert(sum.terms() =~= Map::<Seq<bool>, C>::empty());
        }
        sum
    }

    /// Number of partitions.
    pub fn n_partitions(&self) -> (n: usize)
        ensures
            n == self.parts().len(),
    {
        self.partitions.len()
    }

    /// Number of qubits or modes this sum is sized for.
    pub fn n_units(&self) -> (n: usize)
        ensures
            n == self.units(),
    {
        self.n_units
    }

    /// Partition `p`.
    pub fn partition(&self, p: usize) -> (t: &TermSum<C, P, W>)
        requires
            p < self.parts().len(),
        ensures
            *t == self.parts()[p as int],
    {
        &self.partitions[p]
    }

    /// Live terms over all partitions.
    pub fn len(&self) -> (n: usize)
        requires
            self.wf(),
            self.rows() <= usize::MAX,
        ensures
            n == self.rows(),
    {
        let mut n: usize = 0;
        let mut p: usize = 0;
        let ghost held = |p: int| self.partitions@[p].keys().len();
        while p < self.partitions.len()
            invariant
                self.wf(),
                p <= self.partitions@.len(),
                held == |p: int| self.partitions@[p].keys().len(),
                sums::sum_to(held, self.partitions@.len() as int) <= usize::MAX,
                n == sums::sum_to(held, p as int),
            decreases self.partitions@.len() - p,
        {
            proof {
                sums::lemma_sum_grows(held, p + 1, self.partitions@.len() as int);
                assert(self.partitions@[p as int].wf());
            }
            n += self.partitions[p].len();
            p += 1;
        }
        n
    }

    /// True if no partition holds a term.
    pub fn is_empty(&self) -> (r: bool)
        requires
            self.wf(),
        ensures
            r == (self.rows() == 0),
    {
        let mut p: usize = 0;
        let ghost held = |p: int| self.partitions@[p].keys().len();
        proof {
            sums::lemma_sum_zero(held, self.partitions@.len() as int);
        }
        while p < self.partitions.len()
            invariant
                self.wf(),
                p <= self.partitions@.len(),
                held == |p: int| self.partitions@[p].keys().len(),
                self.rows() == sums::sum_to(held, self.partitions@.len() as int),
                self.rows() == 0 <==> forall|i: int|
                    0 <= i < self.partitions@.len() ==> #[trigger] held(i) == 0,
                forall|i: int| 0 <= i < p ==> #[trigger] held(i) == 0,
            decreases self.partitions@.len() - p,
        {
            proof {
                assert(self.partitions@[p as int].wf());
            }
            if !self.partitions[p].is_empty() {
                proof {
                    assert(held(p as int) != 0);
                }
                return false;
            }
            p += 1;
        }
        true
    }

    /// Turns Clifford deferral on or off.
    pub fn set_defer_cliffords(&mut self, on: bool)
        requires
            old(self).wf(),
        ensures
            final(self).wf(),
            final(self).defers() == on,
            final(self).parts() == old(self).parts(),
            final(self).frame() == old(self).frame(),
            final(self).units() == old(self).units(),
            final(self).times() == old(self).times(),
    {
        self.defer_cliffords = on;
    }

    /// True while no Clifford gate has been deferred.
    pub fn frame_is_identity(&self) -> (r: bool)
        requires
            self.wf(),
        ensures
            r == self.frame().is_trivial(),
    {
        self.frame.is_identity()
    }

    /// Adds `coeff` to `key`'s term, in the partition that owns the key.
    pub fn add(&mut self, key: &BasisString<W>, coeff: C) -> (r: Result<
        (),
        TermIndexCeilingReached,
    >)
        requires
            old(self).wf(),
            operator_index::addressable(
                old(self).parts()[gate::owner(key@, old(self).parts().len())].keys().len() as int
                    + 1,
            ),
        ensures
            final(self).wf(),
            final(self).same_setting(*old(self)),
            r is Err <==> !old(self).terms().contains_key(key@) && old(self).parts()[gate::owner(
                key@,
                old(self).parts().len(),
            )].keys().len() + 1 >= u32::MAX,
            same_counters(old(self).parts(), final(self).parts()),
            r is Err ==> final(self).terms() == old(self).terms(),
            r is Ok ==> final(self).terms() == old(self).terms().insert(
                key@,
                gate::merged(gate::get(old(self).terms(), key@), Some(coeff))->0,
            ),
            final(self).rows() == old(self).rows() + (if r is Ok
                && !old(self).terms().contains_key(key@) {
                1int
            } else {
                0
            }),
    {
        let ghost before = self.partitions@;
        let ghost s = before.len();
        let owner: usize = termsum::partition_of(key, self.partitions.len());
        proof {
            assert(self.partitions@[owner as int].wf());
        }
        let r = self.partitions[owner].add(key, coeff);
        proof {
            let after = self.partitions@;
            let o = owner as int;
            let value = gate::merged(gate::get(old(self).terms(), key@), Some(coeff));
            exchange::lemma_joined(before, key@, o);
            assert(gate::get(old(self).terms(), key@) == gate::get(before[o].terms(), key@));
            assert(old(self).terms().contains_key(key@) == before[o].terms().contains_key(key@));
            assert forall|p: int| 0 <= p < s && p != o implies #[trigger] after[p] == before[p] by {}
            assert forall|p: int, k: Seq<bool>|
                0 <= p < s && #[trigger] after[p].terms().contains_key(k) implies gate::owner(k, s)
                == p by {
                if p == o {
                    if k != key@ {
                        assert(before[p].terms().contains_key(k));
                    }
                } else {
                    assert(before[p].terms().contains_key(k));
                }
            }
            assert(exchange::owned(after));
            assert forall|k: Seq<bool>| #[trigger] gate::get(self.terms(), k) == (if r is Ok && k
                == key@ {
                value
            } else {
                gate::get(old(self).terms(), k)
            }) by {
                exchange::lemma_owner(k, s);
                exchange::lemma_joined(after, k, o);
                exchange::lemma_joined(before, k, o);
            }
            if r is Ok {
                termsum::lemma_same_map(self.terms(), old(self).terms().insert(key@, value->0));
            } else {
                termsum::lemma_same_map(self.terms(), old(self).terms());
            }
            lemma_rows_update(before, after, o);
        }
        r
    }

    /// Rows whose positions do not fit inline, over all partitions.
    pub open spec fn spilled_rows(&self) -> nat {
        sums::sum_to(|p: int| self.parts()[p].spilled().len(), self.parts().len() as int)
    }

    /// Rows whose positions spilled past the inline width.
    pub fn overflow_rows(&self) -> (n: usize)
        requires
            self.wf(),
            self.rows() <= usize::MAX,
        ensures
            n == self.spilled_rows(),
            n <= self.rows(),
    {
        let mut n: usize = 0;
        let mut p: usize = 0;
        let ghost len = self.partitions@.len() as int;
        let ghost held = |p: int| self.partitions@[p].keys().len();
        let ghost out = |p: int| self.partitions@[p].spilled().len();
        proof {
            assert forall|p: int| 0 <= p < len implies #[trigger] out(p) <= held(p) by {
                assert(self.partitions@[p].wf());
                self.partitions@[p].lemma_spilled_len();
            }
            sums::lemma_sum_le(out, held, len);
        }
        while p < self.partitions.len()
            invariant
                self.wf(),
                p <= self.partitions@.len(),
                len == self.partitions@.len(),
                out == |p: int| self.partitions@[p].spilled().len(),
                sums::sum_to(out, len) <= usize::MAX,
                n == sums::sum_to(out, p as int),
            decreases len - p,
        {
            proof {
                sums::lemma_sum_grows(out, p + 1, len);
                assert(self.partitions@[p as int].wf());
            }
            n += self.partitions[p].overflow_len();
            p += 1;
        }
        proof {
            assert(self.spilled_rows() == sums::sum_to(out, len));
        }
        n
    }

    /// Applies the rotation generated by `gen`, returning how many terms are new.
    ///
    /// Below the cutoff's live-term floor nothing is truncated. A Clifford gate goes into the
    /// tableau, unless it can move a weight the cutoff bounds. Any other generator is pushed
    /// through the tableau first. A half turn only rescales. When a store cannot number a new
    /// row, the sources have been rotated and some of the branches are missing.
    pub fn apply_rotation<A: Basis<W>, K: TruncationKernel<C::Real>>(
        &mut self,
        gen: &BasisString<W>,
        param: &C::GateParam,
        cutoff: &EmitCutoff<C::Real, K>,
    ) -> (r: Result<usize, TermIndexCeilingReached>)
        requires
            old(self).wf(),
            operator_index::addressable(3 * old(self).rows() as int),
        ensures
            final(self).wf(),
            final(self).parts().len() == old(self).parts().len(),
            final(self).units() == old(self).units(),
            final(self).defers() == old(self).defers(),
            final(self).times().grown_from(old(self).times()),
            turned_into::<A, C, P, K, W>(*old(self), *final(self), gen@, *param, *cutoff, r),
            group::multiplies::<A, W>() && old(self).frame().sound::<A>() && conjugation::within(
                gen@,
                2 * old(self).units() as int,
            ) && 2 * old(self).units() <= 64 * W && (CliffordTableau::<W>::turn_of::<C>(*param) == 1
                || CliffordTableau::<W>::turn_of::<C>(*param) == -1) ==> final(self).frame().sound::<
                A,
            >(),
    {
        proof {
            self.lemma_wf();
        }
        if self.is_empty() {
            return Ok(0);
        }
        let live: usize = self.len();
        let lifted: EmitCutoff<C::Real, K> = cutoff.lossless();
        let limits: &EmitCutoff<C::Real, K> = if cutoff.inhibits(live) {
            &lifted
        } else {
            cutoff
        };
        proof {
            assert(*limits == effective(*cutoff, self.rows()));
        }
        if self.defer_cliffords {
            match CliffordTableau::<W>::for_rotation::<A, C>(self.n_units, gen, param, C::tolerance()) {
                Some(step) => {
                    let bounded: bool = limits.max_weight.is_some();
                    if !bounded || !step.changes_weight() {
                        proof {
                            let rows = step_rows::<A, C, W>(gen@, *param, self.units());
                            assert(rows.len() == 2 * self.units());
                        }
                        self.frame.compose::<A>(&step);
                        return Ok(0);
                    }
                },
                None => {},
            }
        }
        let (pushed, sign) = self.frame.conjugate_generator::<A>(gen);
        let ctx = A::make_signed_gen_context(&pushed, sign);
        proof {
            BasisString::lemma_len(pushed);
        }
        if let Some(factor) = C::phase_only_scale(param, C::tolerance()) {
            self.scale_anticommuting::<A>(&ctx, factor);
            return Ok(0);
        }
        exchange::rotate_all::<A, C, P, K, W>(
            &mut self.partitions,
            &ctx,
            param,
            limits,
            self.n_units,
            &mut self.times,
        )
    }

    /// Scales every anticommuting term by `factor`.
    fn scale_anticommuting<A: Basis<W>>(&mut self, ctx: &A::GenContext, factor: C::Real)
        requires
            old(self).wf(),
        ensures
            final(self).wf(),
            final(self).same_setting(*old(self)),
            same_counters(old(self).parts(), final(self).parts()),
            final(self).rows() == old(self).rows(),
            final(self).terms() == gate::half_turned::<A, C, W>(
                A::generator_of(*ctx),
                factor,
                old(self).terms(),
            ),
    {
        let ghost before = self.partitions@;
        let ghost n = before.len() as int;
        let ghost gen = A::generator_of(*ctx);
        let mut p: usize = 0;
        while p < self.partitions.len()
            invariant
                p <= n,
                n == before.len(),
                n > 0,
                before == old(self).partitions@,
                gen == A::generator_of(*ctx),
                self.partitions@.len() == n,
                exchange::tended(before, self.n_units as nat),
                exchange::tended(self.partitions@, self.n_units as nat),
                exchange::owned(before),
                self.frame == old(self).frame,
                self.times == old(self).times,
                self.frame.wf(),
                self.defer_cliffords == old(self).defer_cliffords,
                self.n_units == old(self).n_units,
                2 * self.n_units <= usize::MAX,
                forall|q: int| p <= q < n ==> #[trigger] self.partitions@[q] == before[q],
                forall|q: int|
                    0 <= q < p ==> (#[trigger] self.partitions@[q]).keys() == before[q].keys()
                        && self.partitions@[q].terms() == gate::half_turned::<A, C, W>(
                        gen,
                        factor,
                        before[q].terms(),
                    ) && self.partitions@[q].exchanges() == before[q].exchanges()
                        && self.partitions@[q].scans() == before[q].scans(),
            decreases n - p,
        {
            let ghost now = self.partitions@;
            proof {
                assert(now[p as int] == before[p as int]);
                assert(now[p as int].wf());
            }
            self.partitions[p].scale_anticommuting::<A>(ctx, factor);
            proof {
                assert forall|q: int| 0 <= q < n && q != p implies #[trigger] self.partitions@[q]
                    == now[q] by {}
            }
            p += 1;
        }
        proof {
            let after = self.partitions@;
            assert forall|q: int, k: Seq<bool>|
                0 <= q < n && #[trigger] after[q].terms().contains_key(k) implies gate::owner(
                k,
                n as nat,
            ) == q by {
                assert(after[q].keys() == before[q].keys());
                assert(before[q].terms().contains_key(k));
            }
            assert(exchange::owned(after));
            let want = gate::half_turned::<A, C, W>(gen, factor, old(self).terms());
            assert forall|k: Seq<bool>| #[trigger] gate::get(self.terms(), k) == gate::get(
                want,
                k,
            ) by {
                exchange::lemma_owner(k, n as nat);
                let o = gate::owner(k, n as nat);
                exchange::lemma_joined(after, k, o);
                exchange::lemma_joined(before, k, o);
                assert(after[o].terms() == gate::half_turned::<A, C, W>(
                    gen,
                    factor,
                    before[o].terms(),
                ));
            }
            termsum::lemma_same_map(self.terms(), want);
            sums::lemma_sum_same(
                |q: int| after[q].keys().len(),
                |q: int| before[q].keys().len(),
                n,
            );
        }
    }

    /// Scales every coefficient by `factor(weight)`.
    pub fn scale_by_weight<A: Basis<W>, F: Fn(u32) -> C::Real>(&mut self, factor: F)
        requires
            old(self).wf(),
            forall|w: u32| call_requires(factor, (w,)),
        ensures
            final(self).wf(),
            final(self).same_setting(*old(self)),
            final(self).rows() == old(self).rows(),
            final(self).terms().dom() == old(self).terms().dom(),
            forall|k: Seq<bool>| #[trigger]
                old(self).terms().contains_key(k) ==> weight_scaled(
                    factor,
                    A::weight_of(k, old(self).units()),
                    old(self).terms()[k],
                    final(self).terms()[k],
                ),
    {
        let ghost before = self.partitions@;
        let ghost n = before.len() as int;
        let ghost units = self.n_units as nat;
        let mut p: usize = 0;
        while p < self.partitions.len()
            invariant
                p <= n,
                n == before.len(),
                n > 0,
                before == old(self).partitions@,
                units == self.n_units,
                self.partitions@.len() == n,
                exchange::tended(before, units),
                exchange::tended(self.partitions@, units),
                exchange::owned(before),
                self.frame == old(self).frame,
                self.times == old(self).times,
                self.frame.wf(),
                self.defer_cliffords == old(self).defer_cliffords,
                self.n_units == old(self).n_units,
                2 * self.n_units <= usize::MAX,
                forall|q: int| p <= q < n ==> #[trigger] self.partitions@[q] == before[q],
                forall|q: int|
                    0 <= q < n ==> (#[trigger] self.partitions@[q]).keys() == before[q].keys(),
                forall|w: u32| call_requires(factor, (w,)),
                forall|q: int, i: int|
                    0 <= q < p && 0 <= i < before[q].keys().len() ==> weight_scaled(
                        factor,
                        A::weight_of(before[q].keys()[i], units),
                        before[q].coeffs()[i],
                        #[trigger] self.partitions@[q].coeffs()[i],
                    ),
            decreases n - p,
        {
            let ghost now = self.partitions@;
            proof {
                assert(now[p as int] == before[p as int]);
                assert(now[p as int].wf());
            }
            self.partitions[p].scale_by_weight::<A, &F>(&factor);
            proof {
                assert forall|q: int| 0 <= q < n && q != p implies #[trigger] self.partitions@[q]
                    == now[q] by {}
                let b = before[p as int];
                let a = self.partitions@[p as int];
                b.lemma_wf();
                let factors = choose|factors: Seq<C::Real>|
                    factors.len() == b.keys().len() && a.coeffs() == #[trigger] termsum::scaled_rows(
                        b.coeffs(),
                        factors,
                    ) && forall|i: int|
                        0 <= i < factors.len() ==> call_ensures(
                            factor,
                            (A::weight_of(b.keys()[i], units),),
                            #[trigger] factors[i],
                        );
                assert forall|i: int| 0 <= i < b.keys().len() implies weight_scaled(
                    factor,
                    A::weight_of(b.keys()[i], units),
                    b.coeffs()[i],
                    #[trigger] a.coeffs()[i],
                ) by {
                    assert(call_ensures(factor, (A::weight_of(b.keys()[i], units),), factors[i]));
                }
            }
            p += 1;
        }
        proof {
            lemma_rows_stay(before, self.partitions@, units);
        }
    }

    /// [`PartitionedTermSum::scale_by_weight`] for a factor that can fail.
    ///
    /// When a factor fails, the terms before it have been scaled.
    pub fn try_scale_by_weight<A: Basis<W>, E, F: Fn(u32) -> Result<C::Real, E>>(
        &mut self,
        factor: F,
    ) -> (r: Result<(), E>)
        requires
            old(self).wf(),
            forall|w: u32| call_requires(factor, (w,)),
        ensures
            final(self).wf(),
            final(self).same_setting(*old(self)),
            final(self).rows() == old(self).rows(),
            final(self).terms().dom() == old(self).terms().dom(),
            forall|k: Seq<bool>| #[trigger]
                old(self).terms().contains_key(k) ==> weight_granted::<C, E, F>(factor, A::weight_of(k, old(self).units()), old(self).terms()[k], final(self).terms()[k]) || (r is Err && final(self).terms()[k] == old(self).terms()[k]),
            r matches Err(e) ==> exists|k: Seq<bool>| #[trigger]
                old(self).terms().contains_key(k) && call_ensures(
                    factor,
                    (A::weight_of(k, old(self).units()),),
                    Err::<C::Real, E>(e),
                ),
    {
        let ghost before = self.partitions@;
        let ghost n = before.len() as int;
        let ghost units = self.n_units as nat;
        let mut p: usize = 0;
        while p < self.partitions.len()
            invariant
                p <= n,
                n == before.len(),
                n > 0,
                before == old(self).partitions@,
                units == self.n_units,
                self.partitions@.len() == n,
                exchange::tended(before, units),
                exchange::tended(self.partitions@, units),
                exchange::owned(before),
                self.frame == old(self).frame,
                self.times == old(self).times,
                self.frame.wf(),
                self.frame.readout_rows().len() == 2 * self.n_units,
                self.frame.generator_rows().len() == 2 * self.n_units,
                self.defer_cliffords == old(self).defer_cliffords,
                self.n_units == old(self).n_units,
                2 * self.n_units <= usize::MAX,
                forall|q: int| p <= q < n ==> #[trigger] self.partitions@[q] == before[q],
                forall|q: int|
                    0 <= q < n ==> (#[trigger] self.partitions@[q]).keys() == before[q].keys(),
                forall|w: u32| call_requires(factor, (w,)),
                forall|q: int, i: int|
                    0 <= q < p && 0 <= i < before[q].keys().len() ==> weight_granted::<C, E, F>(factor, A::weight_of(before[q].keys()[i], units), before[q].coeffs()[i], #[trigger] self.partitions@[q].coeffs()[i]),
            decreases n - p,
        {
            let ghost now = self.partitions@;
            proof {
                assert(now[p as int] == before[p as int]);
                assert(now[p as int].wf());
            }
            let r: Result<(), E> = self.partitions[p].try_scale_by_weight::<A, E, &F>(&factor);
            proof {
                assert forall|q: int| 0 <= q < n && q != p implies #[trigger] self.partitions@[q]
                    == now[q] by {}
                let b = before[p as int];
                let a = self.partitions@[p as int];
                b.lemma_wf();
                let factors = choose|factors: Seq<C::Real>|
                    factors.len() <= b.keys().len() && a.coeffs()
                        == #[trigger] termsum::scaled_rows(b.coeffs(), factors) && (forall|i: int|
                        0 <= i < factors.len() ==> call_ensures(
                            factor,
                            (A::weight_of(b.keys()[i], units),),
                            Ok::<C::Real, E>(#[trigger] factors[i]),
                        )) && match r {
                        Ok(_) => factors.len() == b.keys().len(),
                        Err(e) => factors.len() < b.keys().len() && call_ensures(
                            factor,
                            (A::weight_of(b.keys()[factors.len() as int], units),),
                            Err::<C::Real, E>(e),
                        ),
                    };
                assert forall|i: int| 0 <= i < b.keys().len() implies weight_granted::<C, E, F>(factor, A::weight_of(b.keys()[i], units), b.coeffs()[i], #[trigger] a.coeffs()[i]) || (r is Err && a.coeffs()[i] == b.coeffs()[i]) by {
                    if i < factors.len() {
                        assert(call_ensures(
                            factor,
                            (A::weight_of(b.keys()[i], units),),
                            Ok::<C::Real, E>(factors[i]),
                        ));
                        assert(a.coeffs()[i] == b.coeffs()[i].scaled(factors[i]));
                    }
                }
                if r is Err {
                    lemma_rows_stay(before, self.partitions@, units);
                    let k = b.keys()[factors.len() as int];
                    assert(b.keys().contains(k));
                    assert(b.terms().contains_key(k));
                    exchange::lemma_joined(before, k, p as int);
                    assert(gate::get(exchange::joined(before), k) is Some);
                    assert(old(self).terms().contains_key(k));
                    assert forall|k: Seq<bool>| #[trigger] old(self).terms().contains_key(k) implies weight_granted::<C, E, F>(factor, A::weight_of(k, units), old(self).terms()[k], self.terms()[k]) || self.terms()[k] == old(self).terms()[k] by {
                        let o = gate::owner(k, n as nat);
                        let i = before[o].keys().index_of(k);
                        assert(exchange::joined(before).contains_key(k));
                        if o < p {
                            assert(weight_granted::<C, E, F>(factor, A::weight_of(before[o].keys()[i], units), before[o].coeffs()[i], now[o].coeffs()[i]));
                        } else if o == p {
                            assert(a.coeffs()[i] == self.terms()[k]);
                        } else {
                            assert(self.partitions@[o] == before[o]);
                        }
                    }
                }
            }
            match r {
                Ok(()) => {},
                Err(e) => {
                    return Err(e);
                },
            }
            p += 1;
        }
        proof {
            lemma_rows_stay(before, self.partitions@, units);
        }
        Ok(())
    }

    /// [`PartitionedTermSum::scale_by_key`] for a factor that can fail.
    ///
    /// When a factor fails, the terms before it have been scaled.
    pub fn try_scale_by_key<A: Basis<W>, E, F: Fn(&BasisString<W>, u32) -> Result<C::Real, E>>(
        &mut self,
        factor: F,
    ) -> (r: Result<(), E>)
        requires
            old(self).wf(),
            forall|k: &BasisString<W>, w: u32| call_requires(factor, (k, w)),
        ensures
            final(self).wf(),
            final(self).same_setting(*old(self)),
            final(self).rows() == old(self).rows(),
            final(self).terms().dom() == old(self).terms().dom(),
            forall|k: Seq<bool>| #[trigger]
                old(self).terms().contains_key(k) ==> key_granted::<C, E, F, W>(factor, k, A::weight_of(k, old(self).units()), old(self).terms()[k], final(self).terms()[k]) || (r is Err && final(self).terms()[k] == old(self).terms()[k]),
            r matches Err(e) ==> exists|k: Seq<bool>| #[trigger]
                old(self).terms().contains_key(k) && call_ensures(
                    factor,
                    (&BasisString::with_bits(k), A::weight_of(k, old(self).units())),
                    Err::<C::Real, E>(e),
                ),
    {
        let ghost before = self.partitions@;
        let ghost n = before.len() as int;
        let ghost units = self.n_units as nat;
        let mut p: usize = 0;
        while p < self.partitions.len()
            invariant
                p <= n,
                n == before.len(),
                n > 0,
                before == old(self).partitions@,
                units == self.n_units,
                self.partitions@.len() == n,
                exchange::tended(before, units),
                exchange::tended(self.partitions@, units),
                exchange::owned(before),
                self.frame == old(self).frame,
                self.times == old(self).times,
                self.frame.wf(),
                self.frame.readout_rows().len() == 2 * self.n_units,
                self.frame.generator_rows().len() == 2 * self.n_units,
                self.defer_cliffords == old(self).defer_cliffords,
                self.n_units == old(self).n_units,
                2 * self.n_units <= usize::MAX,
                forall|q: int| p <= q < n ==> #[trigger] self.partitions@[q] == before[q],
                forall|q: int|
                    0 <= q < n ==> (#[trigger] self.partitions@[q]).keys() == before[q].keys(),
                forall|k: &BasisString<W>, w: u32| call_requires(factor, (k, w)),
                forall|q: int, i: int|
                    0 <= q < p && 0 <= i < before[q].keys().len() ==> key_granted::<C, E, F, W>(factor, before[q].keys()[i], A::weight_of(before[q].keys()[i], units), before[q].coeffs()[i], #[trigger] self.partitions@[q].coeffs()[i]),
            decreases n - p,
        {
            let ghost now = self.partitions@;
            proof {
                assert(now[p as int] == before[p as int]);
                assert(now[p as int].wf());
            }
            let r: Result<(), E> = self.partitions[p].try_scale_by_key::<A, E, &F>(&factor);
            proof {
                assert forall|q: int| 0 <= q < n && q != p implies #[trigger] self.partitions@[q]
                    == now[q] by {}
                let b = before[p as int];
                let a = self.partitions@[p as int];
                b.lemma_wf();
                let factors = choose|factors: Seq<C::Real>|
                    factors.len() <= b.keys().len() && a.coeffs()
                        == #[trigger] termsum::scaled_rows(b.coeffs(), factors) && (forall|i: int|
                        0 <= i < factors.len() ==> call_ensures(
                            factor,
                            (&BasisString::with_bits(b.keys()[i]), A::weight_of(b.keys()[i], units)),
                            Ok::<C::Real, E>(#[trigger] factors[i]),
                        )) && match r {
                        Ok(_) => factors.len() == b.keys().len(),
                        Err(e) => factors.len() < b.keys().len() && call_ensures(
                            factor,
                            (&BasisString::with_bits(b.keys()[factors.len() as int]), A::weight_of(b.keys()[factors.len() as int], units)),
                            Err::<C::Real, E>(e),
                        ),
                    };
                assert forall|i: int| 0 <= i < b.keys().len() implies key_granted::<C, E, F, W>(factor, b.keys()[i], A::weight_of(b.keys()[i], units), b.coeffs()[i], #[trigger] a.coeffs()[i]) || (r is Err && a.coeffs()[i] == b.coeffs()[i]) by {
                    if i < factors.len() {
                        assert(call_ensures(
                            factor,
                            (&BasisString::with_bits(b.keys()[i]), A::weight_of(b.keys()[i], units)),
                            Ok::<C::Real, E>(factors[i]),
                        ));
                        assert(a.coeffs()[i] == b.coeffs()[i].scaled(factors[i]));
                    }
                }
                if r is Err {
                    lemma_rows_stay(before, self.partitions@, units);
                    let k = b.keys()[factors.len() as int];
                    assert(b.keys().contains(k));
                    assert(b.terms().contains_key(k));
                    exchange::lemma_joined(before, k, p as int);
                    assert(gate::get(exchange::joined(before), k) is Some);
                    assert(old(self).terms().contains_key(k));
                    assert forall|k: Seq<bool>| #[trigger] old(self).terms().contains_key(k) implies key_granted::<C, E, F, W>(factor, k, A::weight_of(k, units), old(self).terms()[k], self.terms()[k]) || self.terms()[k] == old(self).terms()[k] by {
                        let o = gate::owner(k, n as nat);
                        let i = before[o].keys().index_of(k);
                        assert(exchange::joined(before).contains_key(k));
                        if o < p {
                            assert(key_granted::<C, E, F, W>(factor, before[o].keys()[i], A::weight_of(before[o].keys()[i], units), before[o].coeffs()[i], now[o].coeffs()[i]));
                        } else if o == p {
                            assert(a.coeffs()[i] == self.terms()[k]);
                        } else {
                            assert(self.partitions@[o] == before[o]);
                        }
                    }
                }
            }
            match r {
                Ok(()) => {},
                Err(e) => {
                    return Err(e);
                },
            }
            p += 1;
        }
        proof {
            lemma_rows_stay(before, self.partitions@, units);
        }
        Ok(())
    }

    /// Scales every coefficient by a term-aware kernel's factor.
    pub fn scale_by_key<A: Basis<W>, N: NoiseKernel<C::Real>>(&mut self, kernel: &N)
        requires
            old(self).wf(),
        ensures
            final(self).wf(),
            final(self).same_setting(*old(self)),
            final(self).rows() == old(self).rows(),
            final(self).terms() == old(self).terms().map_entries(
                |k: Seq<bool>, c: C|
                    c.scaled(
                        kernel.factor_of(
                            A::kind_of(),
                            strings::words_spelling(k),
                            old(self).units(),
                            A::weight_of(k, old(self).units()),
                        ),
                    ),
            ),
    {
        let ghost before = self.partitions@;
        let ghost n = before.len() as int;
        let ghost units = self.n_units as nat;
        let mut p: usize = 0;
        while p < self.partitions.len()
            invariant
                p <= n,
                n == before.len(),
                n > 0,
                before == old(self).partitions@,
                units == self.n_units,
                self.partitions@.len() == n,
                exchange::tended(before, units),
                exchange::tended(self.partitions@, units),
                exchange::owned(before),
                self.frame == old(self).frame,
                self.times == old(self).times,
                self.frame.wf(),
                self.defer_cliffords == old(self).defer_cliffords,
                self.n_units == old(self).n_units,
                2 * self.n_units <= usize::MAX,
                forall|q: int| p <= q < n ==> #[trigger] self.partitions@[q] == before[q],
                forall|q: int|
                    0 <= q < n ==> (#[trigger] self.partitions@[q]).keys() == before[q].keys(),
                forall|q: int, i: int|
                    0 <= q < p && 0 <= i < before[q].keys().len()
                        ==> #[trigger] self.partitions@[q].coeffs()[i] == before[q].coeffs()[i].scaled(
                        kernel.factor_of(
                            A::kind_of(),
                            strings::words_spelling(before[q].keys()[i]),
                            units,
                            A::weight_of(before[q].keys()[i], units),
                        ),
                    ),
            decreases n - p,
        {
            let ghost now = self.partitions@;
            proof {
                assert(now[p as int] == before[p as int]);
                assert(now[p as int].wf());
            }
            self.partitions[p].scale_by_key::<A, N>(kernel);
            proof {
                assert forall|q: int| 0 <= q < n && q != p implies #[trigger] self.partitions@[q]
                    == now[q] by {}
            }
            p += 1;
        }
        proof {
            lemma_rows_stay(before, self.partitions@, units);
            let want = old(self).terms().map_entries(
                |k: Seq<bool>, c: C|
                    c.scaled(
                        kernel.factor_of(
                            A::kind_of(),
                            strings::words_spelling(k),
                            units,
                            A::weight_of(k, units),
                        ),
                    ),
            );
            assert forall|k: Seq<bool>| self.terms().contains_key(k) implies #[trigger] self.terms()[k]
                == want[k] by {
                assert(exchange::joined(before).contains_key(k));
            }
            assert(self.terms().dom() == old(self).terms().dom());
            assert(self.terms() =~= want);
        }
    }

    /// Drops every term `keep` rejects, returning how many went.
    pub fn retain<F: Fn(&BasisString<W>, &C) -> bool>(&mut self, keep: F) -> (r: Result<
        usize,
        TermIndexCeilingReached,
    >)
        requires
            old(self).wf(),
            operator_index::addressable(old(self).rows() as int),
            forall|k: &BasisString<W>, c: &C| call_requires(keep, (k, c)),
        ensures
            final(self).wf(),
            final(self).same_setting(*old(self)),
            r matches Ok(dropped) && final(self).rows() + dropped == old(self).rows(),
            forall|k: Seq<bool>| #[trigger]
                old(self).terms().contains_key(k) ==> judged::<C, F, W>(
                    keep,
                    k,
                    old(self).terms()[k],
                    gate::get(final(self).terms(), k),
                ),
            forall|k: Seq<bool>| #[trigger]
                final(self).terms().contains_key(k) ==> old(self).terms().contains_key(k),
    {
        let ghost before = self.partitions@;
        let ghost n = before.len() as int;
        let ghost units = self.n_units as nat;
        let ghost was = |q: int| before[q].keys().len();
        let ghost total = self.rows();
        let mut dropped: usize = 0;
        let mut p: usize = 0;
        while p < self.partitions.len()
            invariant
                p <= n,
                n == before.len(),
                n > 0,
                before == old(self).partitions@,
                units == self.n_units,
                self.partitions@.len() == n,
                exchange::tended(before, units),
                exchange::tended(self.partitions@, units),
                exchange::owned(before),
                self.frame == old(self).frame,
                self.times == old(self).times,
                self.frame.wf(),
                self.defer_cliffords == old(self).defer_cliffords,
                self.n_units == old(self).n_units,
                2 * self.n_units <= usize::MAX,
                forall|q: int| p <= q < n ==> #[trigger] self.partitions@[q] == before[q],
                forall|k: &BasisString<W>, c: &C| call_requires(keep, (k, c)),
                forall|q: int, k: Seq<bool>|
                    0 <= q < n && #[trigger] self.partitions@[q].terms().contains_key(k)
                        ==> before[q].terms().contains_key(k),
                forall|q: int, k: Seq<bool>|
                    0 <= q < p && #[trigger] before[q].terms().contains_key(k) ==> judged::<C, F, W>(
                        keep,
                        k,
                        before[q].terms()[k],
                        gate::get(self.partitions@[q].terms(), k),
                    ),
                dropped + sums::sum_to(|q: int| self.partitions@[q].keys().len(), p as int)
                    == sums::sum_to(was, p as int),
                was == |q: int| before[q].keys().len(),
                total == sums::sum_to(was, n),
                operator_index::addressable(total as int),
            decreases n - p,
        {
            let ghost now = self.partitions@;
            proof {
                assert(now[p as int] == before[p as int]);
                assert(now[p as int].wf());
                sums::lemma_sum_grows(was, p + 1, n);
                sums::lemma_sum_part(was, n, p as int);
            }
            let gone: usize = match self.partitions[p].reclaim::<&F>(&keep) {
                Ok(gone) => gone,
                Err(e) => {
                    return Err(e);
                },
            };
            proof {
                assert forall|q: int| 0 <= q < n && q != p implies #[trigger] self.partitions@[q]
                    == now[q] by {}
                let b = before[p as int];
                let a = self.partitions@[p as int];
                b.lemma_wf();
                let flags = choose|flags: Seq<bool>|
                    flags.len() == b.keys().len() && (forall|i: int|
                        0 <= i < flags.len() ==> call_ensures(
                            keep,
                            (&BasisString::with_bits(b.keys()[i]), &b.coeffs()[i]),
                            #[trigger] flags[i],
                        )) && a.keys() == #[trigger] termsum::picked(
                        b.keys(),
                        flags,
                        flags.len() as int,
                    ) && a.coeffs() == termsum::picked(b.coeffs(), flags, flags.len() as int)
                        && gone == (b.keys().len() - bits::ones(flags)) as usize;
                termsum::lemma_picked_terms(
                    b.keys(),
                    b.coeffs(),
                    flags,
                    64 * W as int,
                    flags.len() as int,
                );
                termsum::lemma_picked(b.keys(), flags, flags.len() as int);
                assert(flags.take(flags.len() as int) =~= flags);
                assert forall|k: Seq<bool>| #[trigger] a.terms().contains_key(k) implies b.terms().contains_key(
                    k,
                ) by {
                    let i = choose|i: int| 0 <= i < b.keys().len() && #[trigger] b.keys()[i] == k;
                    assert(b.keys().contains(k));
                }
                assert forall|k: Seq<bool>| #[trigger] b.terms().contains_key(k) implies judged::<
                    C,
                    F,
                    W,
                >(keep, k, b.terms()[k], gate::get(a.terms(), k)) by {
                    let i = b.keys().index_of(k);
                    assert(b.keys()[i] == k && 0 <= i < b.keys().len());
                    assert(call_ensures(
                        keep,
                        (&BasisString::with_bits(b.keys()[i]), &b.coeffs()[i]),
                        flags[i],
                    ));
                }
                sums::lemma_sum_same(
                    |q: int| self.partitions@[q].keys().len(),
                    |q: int| now[q].keys().len(),
                    p as int,
                );
                let m = sums::sum_to(|q: int| self.partitions@[q].keys().len(), p as int);
            }
            dropped += gone;
            p += 1;
        }
        proof {
            lemma_rows_fall(before, self.partitions@);
            assert forall|k: Seq<bool>| #[trigger] old(self).terms().contains_key(k) implies judged::<
                C,
                F,
                W,
            >(keep, k, old(self).terms()[k], gate::get(self.terms(), k)) by {
                assert(gate::get(exchange::joined(self.partitions@), k) == gate::get(
                    self.terms(),
                    k,
                ));
                assert(before[gate::owner(k, n as nat)].terms().contains_key(k));
            }
            assert forall|k: Seq<bool>| #[trigger] self.terms().contains_key(k) implies old(self).terms().contains_key(
                k,
            ) by {
                assert(gate::get(exchange::joined(self.partitions@), k) is Some);
            }
        }
        Ok(dropped)
    }

    /// Drops every term the cutoff no longer admits, returning how many went.
    pub fn reclaim<A: Basis<W>, K: TruncationKernel<C::Real>>(
        &mut self,
        cutoff: &EmitCutoff<C::Real, K>,
    ) -> (r: Result<usize, TermIndexCeilingReached>)
        requires
            old(self).wf(),
            operator_index::addressable(old(self).rows() as int),
        ensures
            final(self).wf(),
            final(self).same_setting(*old(self)),
            r matches Ok(dropped) && final(self).rows() + dropped == old(self).rows(),
            forall|k: Seq<bool>| #[trigger]
                gate::get(final(self).terms(), k) == reclaimed::<A, C, P, K, W>(
                    *old(self),
                    *cutoff,
                    k,
                ),
    {
        let ghost before = self.partitions@;
        let ghost n = before.len() as int;
        let ghost units = self.n_units as nat;
        if cutoff.max_weight.is_none() && cutoff.min_coeff.is_none() && cutoff.native.is_none()
            && cutoff.term.is_none() {
            return Ok(0);
        }
        proof {
            self.lemma_wf();
        }
        let ghost was = |q: int| before[q].keys().len();
        let ghost total = self.rows();
        let mut dropped: usize = 0;
        let mut p: usize = 0;
        while p < self.partitions.len()
            invariant
                p <= n,
                n == before.len(),
                n > 0,
                before == old(self).partitions@,
                units == self.n_units,
                self.partitions@.len() == n,
                exchange::tended(before, units),
                exchange::tended(self.partitions@, units),
                exchange::owned(before),
                self.frame == old(self).frame,
                self.times == old(self).times,
                self.frame.wf(),
                self.defer_cliffords == old(self).defer_cliffords,
                self.n_units == old(self).n_units,
                2 * self.n_units <= usize::MAX,
                forall|q: int| p <= q < n ==> #[trigger] self.partitions@[q] == before[q],
                64 * W <= u32::MAX,
                forall|q: int, k: Seq<bool>|
                    0 <= q < n && #[trigger] self.partitions@[q].terms().contains_key(k)
                        ==> before[q].terms().contains_key(k),
                forall|q: int, k: Seq<bool>|
                    0 <= q < p ==> (#[trigger] gate::get(self.partitions@[q].terms(), k)) == (
                    if before[q].terms().contains_key(k) && admitted::<A, C, K, W>(
                        *cutoff,
                        k,
                        before[q].terms()[k],
                        units,
                    ) {
                        Some(before[q].terms()[k])
                    } else {
                        None
                    }),
                dropped + sums::sum_to(|q: int| self.partitions@[q].keys().len(), p as int)
                    == sums::sum_to(was, p as int),
                was == |q: int| before[q].keys().len(),
                total == sums::sum_to(was, n),
                operator_index::addressable(total as int),
            decreases n - p,
        {
            let ghost now = self.partitions@;
            proof {
                assert(now[p as int] == before[p as int]);
                assert(now[p as int].wf());
                sums::lemma_sum_grows(was, p + 1, n);
                sums::lemma_sum_part(was, n, p as int);
            }
            let ghost flags = Seq::new(
                now[p as int].keys().len(),
                |i: int|
                    admitted::<A, C, K, W>(
                        *cutoff,
                        now[p as int].keys()[i],
                        now[p as int].coeffs()[i],
                        units,
                    ),
            );
            let outcome: Result<usize, TermIndexCeilingReached> = match &cutoff.term {
                Some(kernel) => {
                    let outcome = self.partitions[p].reclaim_by_kernel::<A, K>(kernel);
                    proof {
                        let b = now[p as int];
                        assert(Seq::new(
                            b.keys().len(),
                            |i: int|
                                kernel.keeps(
                                    A::kind_of(),
                                    strings::words_spelling(b.keys()[i]),
                                    b.units(),
                                    A::weight_of(b.keys()[i], b.units()),
                                    b.coeffs()[i].magnitude_of(),
                                ),
                        ) =~= flags);
                    }
                    outcome
                },
                None => {
                    let keep: Vec<bool> = admission::<A, C, P, K, W>(&self.partitions[p], cutoff);
                    proof {
                        assert(keep@ =~= flags);
                    }
                    self.partitions[p].retain_flagged(&keep)
                },
            };
            let gone: usize = match outcome {
                Ok(gone) => gone,
                Err(e) => {
                    return Err(e);
                },
            };
            proof {
                assert forall|q: int| 0 <= q < n && q != p implies #[trigger] self.partitions@[q]
                    == now[q] by {}
                let b = before[p as int];
                let a = self.partitions@[p as int];
                b.lemma_wf();
                termsum::lemma_picked_terms(
                    b.keys(),
                    b.coeffs(),
                    flags,
                    64 * W as int,
                    flags.len() as int,
                );
                termsum::lemma_picked(b.keys(), flags, flags.len() as int);
                assert(flags.take(flags.len() as int) =~= flags);
                assert forall|k: Seq<bool>| #[trigger] a.terms().contains_key(k) implies b.terms().contains_key(
                    k,
                ) by {
                    let i = choose|i: int| 0 <= i < b.keys().len() && #[trigger] b.keys()[i] == k;
                    assert(b.keys().contains(k));
                }
                assert forall|k: Seq<bool>| (#[trigger] gate::get(a.terms(), k)) == (
                if b.terms().contains_key(k) && admitted::<A, C, K, W>(
                    *cutoff,
                    k,
                    b.terms()[k],
                    units,
                ) {
                    Some(b.terms()[k])
                } else {
                    None
                }) by {
                    if b.terms().contains_key(k) {
                        let i = b.keys().index_of(k);
                        assert(b.keys()[i] == k && 0 <= i < b.keys().len());
                        assert(flags[i] == admitted::<A, C, K, W>(*cutoff, k, b.terms()[k], units));
                    } else {
                        assert(!a.terms().contains_key(k));
                    }
                }
                sums::lemma_sum_same(
                    |q: int| self.partitions@[q].keys().len(),
                    |q: int| now[q].keys().len(),
                    p as int,
                );
                let m = sums::sum_to(|q: int| self.partitions@[q].keys().len(), p as int);
            }
            dropped += gone;
            p += 1;
        }
        proof {
            lemma_rows_fall(before, self.partitions@);
            assert forall|k: Seq<bool>| #[trigger] gate::get(self.terms(), k) == (if old(
                self,
            ).terms().contains_key(k) && admitted::<A, C, K, W>(
                *cutoff,
                k,
                old(self).terms()[k],
                units,
            ) {
                Some(old(self).terms()[k])
            } else {
                None
            }) by {
                assert(gate::get(exchange::joined(self.partitions@), k) == gate::get(
                    self.partitions@[gate::owner(k, n as nat)].terms(),
                    k,
                ));
            }
        }
        Ok(dropped)
    }

    /// Branches routed, and branches that landed on an existing row, over all partitions. Each
    /// count stops at the largest `u64`.
    pub fn exchange_counts(&self) -> (r: (u64, u64))
        ensures
            r.0 == capped(
                sums::sum_to(
                    |p: int| self.parts()[p].exchanges().0 as nat,
                    self.parts().len() as int,
                ),
            ),
            r.1 == capped(
                sums::sum_to(
                    |p: int| self.parts()[p].exchanges().1 as nat,
                    self.parts().len() as int,
                ),
            ),
    {
        let mut a: u64 = 0;
        let mut b: u64 = 0;
        let mut p: usize = 0;
        let ghost fa = |p: int| self.parts()[p].exchanges().0 as nat;
        let ghost fb = |p: int| self.parts()[p].exchanges().1 as nat;
        while p < self.partitions.len()
            invariant
                p <= self.partitions@.len(),
                fa == |p: int| self.parts()[p].exchanges().0 as nat,
                fb == |p: int| self.parts()[p].exchanges().1 as nat,
                a == capped(sums::sum_to(fa, p as int)),
                b == capped(sums::sum_to(fb, p as int)),
            decreases self.partitions@.len() - p,
        {
            let (x, y) = self.partitions[p].exchange_counts();
            a = a.saturating_add(x);
            b = b.saturating_add(y);
            p += 1;
        }
        (a, b)
    }

    /// Anticommuting rows the scans reached, and branches they declined, over all partitions.
    /// Each count stops at the largest `u64`.
    pub fn scan_counts(&self) -> (r: (u64, u64))
        ensures
            r.0 == capped(
                sums::sum_to(
                    |p: int| self.parts()[p].scans().0 as nat,
                    self.parts().len() as int,
                ),
            ),
            r.1 == capped(
                sums::sum_to(
                    |p: int| self.parts()[p].scans().1 as nat,
                    self.parts().len() as int,
                ),
            ),
    {
        let mut a: u64 = 0;
        let mut b: u64 = 0;
        let mut p: usize = 0;
        let ghost fa = |p: int| self.parts()[p].scans().0 as nat;
        let ghost fb = |p: int| self.parts()[p].scans().1 as nat;
        while p < self.partitions.len()
            invariant
                p <= self.partitions@.len(),
                fa == |p: int| self.parts()[p].scans().0 as nat,
                fb == |p: int| self.parts()[p].scans().1 as nat,
                a == capped(sums::sum_to(fa, p as int)),
                b == capped(sums::sum_to(fb, p as int)),
            decreases self.partitions@.len() - p,
        {
            let (x, y) = self.partitions[p].scan_counts();
            a = a.saturating_add(x);
            b = b.saturating_add(y);
            p += 1;
        }
        (a, b)
    }

    /// Partition `p`'s keys and index take `each[p]` bytes.
    pub open spec fn each_takes(&self, each: Seq<usize>, p: int) -> bool {
        exists|room: nat, entries: nat| #[trigger]
            self.parts()[p].keys_take(room, entries, each[p])
    }

    /// Bytes of resident key storage over all partitions, counted up to the largest `usize`. How
    /// much room they have beyond the rows is the allocator's choice.
    pub fn key_bytes(&self) -> (b: usize)
        requires
            self.wf(),
        ensures
            exists|each: Seq<usize>|
                each.len() == self.parts().len() && (forall|p: int|
                    0 <= p < each.len() ==> #[trigger] self.each_takes(each, p)) && b
                    == operator_index::counted(#[trigger] bytes_in_all(each) as int),
    {
        let mut each: Vec<usize> = Vec::new();
        while each.len() < self.partitions.len()
            invariant
                self.wf(),
                each@.len() <= self.partitions@.len(),
                forall|p: int| 0 <= p < each@.len() ==> #[trigger] self.each_takes(each@, p),
            decreases self.partitions@.len() - each@.len(),
        {
            let p: usize = each.len();
            let ghost before = each@;
            proof {
                assert(self.partitions@[p as int].wf());
            }
            let n: usize = self.partitions[p].key_bytes();
            each.push(n);
            proof {
                assert forall|q: int| 0 <= q < each@.len() implies #[trigger] self.each_takes(
                    each@,
                    q,
                ) by {
                    if q < p {
                        assert(self.each_takes(before, q));
                    }
                    let part = self.parts()[q];
                    let (room, entries) = choose|room: nat, entries: nat| #[trigger]
                        part.keys_take(room, entries, each@[q]);
                    assert(self.parts()[q].keys_take(room, entries, each@[q]));
                }
            }
        }
        total_of(&each)
    }

    /// Nanoseconds spent in the scan phase and in the absorb phase.
    pub fn phase_nanos(&self) -> (t: (u64, u64))
        ensures
            t == (self.times().scan, self.times().absorb),
    {
        (self.times.scan, self.times.absorb)
    }

    /// Nanoseconds spent in the pair rule's return round.
    pub fn claims_nanos(&self) -> (t: u64)
        ensures
            t == self.times().claims,
    {
        self.times.claims
    }

    /// Nanoseconds that workers were busy in the scan phase, and in the absorb phase with its
    /// return round. One worker does it all.
    pub fn phase_busy_nanos(&self) -> (t: (u64, u64))
        ensures
            t.0 == self.times().scan,
            t.1 == capped((self.times().absorb + self.times().claims) as nat),
    {
        (self.times.scan, self.times.absorb.saturating_add(self.times.claims))
    }

    /// Everything the kernel counted, gathered for the run's log.
    pub fn phase_stats(&self, inline_positions: usize) -> (s: PhaseStats)
        requires
            self.wf(),
            self.rows() <= usize::MAX,
        ensures
            s.partitions == self.parts().len(),
            s.times == self.times(),
            s.terms == self.rows(),
            s.inline_positions == inline_positions,
            s.overflow_rows == self.spilled_rows(),
            s.emitted == capped(
                sums::sum_to(
                    |p: int| self.parts()[p].exchanges().0 as nat,
                    self.parts().len() as int,
                ),
            ),
            s.exchange_hits == capped(
                sums::sum_to(
                    |p: int| self.parts()[p].exchanges().1 as nat,
                    self.parts().len() as int,
                ),
            ),
            s.visited == capped(
                sums::sum_to(
                    |p: int| self.parts()[p].scans().0 as nat,
                    self.parts().len() as int,
                ),
            ),
            s.declined == capped(
                sums::sum_to(
                    |p: int| self.parts()[p].scans().1 as nat,
                    self.parts().len() as int,
                ),
            ),
    {
        let (emitted, exchange_hits) = self.exchange_counts();
        let (visited, declined) = self.scan_counts();
        PhaseStats {
            partitions: self.partitions.len(),
            times: self.times,
            terms: self.len(),
            inline_positions,
            overflow_rows: self.overflow_rows(),
            visited,
            emitted,
            declined,
            exchange_hits,
        }
    }

    /// Maps every partition, beside the deferred gates, returning one value each in order.
    pub fn map_partitions<R, F: Fn(&TermSum<C, P, W>, &CliffordTableau<W>) -> R>(&self, f: F) -> (v: Vec<R>)
        requires
            forall|t: &TermSum<C, P, W>, c: &CliffordTableau<W>| call_requires(f, (t, c)),
        ensures
            v@.len() == self.parts().len(),
            forall|p: int|
                0 <= p < v@.len() ==> call_ensures(
                    f,
                    (&self.parts()[p], &self.frame()),
                    #[trigger] v@[p],
                ),
    {
        let mut v: Vec<R> = Vec::new();
        while v.len() < self.partitions.len()
            invariant
                forall|t: &TermSum<C, P, W>, c: &CliffordTableau<W>| call_requires(f, (t, c)),
                v@.len() <= self.partitions@.len(),
                forall|p: int|
                    0 <= p < v@.len() ==> call_ensures(
                        f,
                        (&self.partitions@[p], &self.frame),
                        #[trigger] v@[p],
                    ),
            decreases self.partitions@.len() - v@.len(),
        {
            let r: R = f(&self.partitions[v.len()], &self.frame);
            v.push(r);
        }
        v
    }

    /// The sum of `measure` over the coefficients. It stops at the largest `u128`.
    pub fn sum_coeffs<F: Fn(&C) -> u128>(&self, measure: F) -> (total: u128)
        requires
            self.wf(),
            forall|c: &C| call_requires(measure, (c,)),
        ensures
            exists|each: Seq<u128>|
                each.len() == self.parts().len() && (forall|p: int|
                    0 <= p < each.len() ==> measured(
                        self.parts()[p],
                        measure,
                        #[trigger] each[p],
                    )) && total == #[trigger] termsum::saturating_sum(each),
    {
        let mut total: u128 = 0;
        let mut p: usize = 0;
        let ghost mut each: Seq<u128> = Seq::empty();
        while p < self.partitions.len()
            invariant
                self.wf(),
                forall|c: &C| call_requires(measure, (c,)),
                p <= self.partitions@.len(),
                each.len() == p,
                forall|q: int|
                    0 <= q < p ==> measured(self.partitions@[q], measure, #[trigger] each[q]),
                total == termsum::saturating_sum(each),
            decreases self.partitions@.len() - p,
        {
            proof {
                assert(self.partitions@[p as int].wf());
            }
            let one: u128 = self.partitions[p].sum_coeffs::<&F>(&measure);
            total = total.saturating_add(one);
            proof {
                assert(measured(self.partitions@[p as int], measure, one));
                assert(each.push(one).drop_last() =~= each);
                each = each.push(one);
            }
            p += 1;
        }
        total
    }

    /// Live terms of partition `p` whose magnitude is below `threshold`.
    pub open spec fn faint_rows(&self, p: int, threshold: C::Real) -> nat {
        bits::ones(
            Seq::new(
                self.parts()[p].coeffs().len(),
                |i: int| faint(self.parts()[p].coeffs()[i], threshold),
            ),
        )
    }

    /// Live terms whose magnitude has fallen below `threshold`.
    pub fn terms_below(&self, threshold: C::Real) -> (n: usize)
        requires
            self.wf(),
            self.rows() <= usize::MAX,
        ensures
            n == sums::sum_to(
                |p: int| self.faint_rows(p, threshold),
                self.parts().len() as int,
            ),
    {
        let ghost len = self.partitions@.len() as int;
        let ghost held = |p: int| self.partitions@[p].keys().len();
        let ghost out = |p: int| self.faint_rows(p, threshold);
        proof {
            assert forall|p: int| 0 <= p < len implies #[trigger] out(p) <= held(p) by {
                assert(self.partitions@[p].wf());
                self.partitions@[p].lemma_wf();
                bits::lemma_ones_bound(
                    Seq::new(
                        self.parts()[p].coeffs().len(),
                        |i: int| faint(self.parts()[p].coeffs()[i], threshold),
                    ),
                );
            }
            sums::lemma_sum_le(out, held, len);
        }
        let mut n: usize = 0;
        let mut p: usize = 0;
        while p < self.partitions.len()
            invariant
                self.wf(),
                p <= self.partitions@.len(),
                len == self.partitions@.len(),
                out == |p: int| self.faint_rows(p, threshold),
                sums::sum_to(out, len) <= usize::MAX,
                n == sums::sum_to(out, p as int),
            decreases len - p,
        {
            proof {
                sums::lemma_sum_grows(out, p + 1, len);
                assert(self.partitions@[p as int].wf());
            }
            n += count_faint(&self.partitions[p], threshold);
            p += 1;
        }
        n
    }

    /// Where partition `p`'s terms start in [`PartitionedTermSum::iter`].
    pub open spec fn offset(&self, p: int) -> nat {
        sums::sum_to(|q: int| self.parts()[q].keys().len(), p)
    }

    /// `v` holds row `i` of partition `p` in its place: the image of its key, the image's sign,
    /// and its coefficient.
    pub open spec fn placed<A: Basis<W>>(
        &self,
        v: Seq<(BasisString<W>, i8, &C)>,
        p: int,
        i: int,
    ) -> bool {
        let out = v[self.offset(p) + i];
        (out.0@, out.1 as int) == through::<A, W>(
            self.frame().is_trivial(),
            self.frame().readout_rows(),
            self.parts()[p].keys()[i],
        ) && *out.2 == self.parts()[p].coeffs()[i]
    }

    /// Every live term with the deferred gates applied: the image of its key, the image's
    /// sign, and its coefficient, partition by partition.
    pub fn iter<A: Basis<W>>(&self) -> (v: Vec<(BasisString<W>, i8, &C)>)
        requires
            self.wf(),
        ensures
            v@.len() == self.rows(),
            forall|p: int, i: int|
                0 <= p < self.parts().len() && 0 <= i < self.parts()[p].keys().len() ==> #[trigger] self.placed::<A>(v@, p, i),
    {
        let ghost len = self.partitions@.len() as int;
        let ghost held = |q: int| self.parts()[q].keys().len();
        let mut v: Vec<(BasisString<W>, i8, &C)> = Vec::new();
        let mut p: usize = 0;
        proof {
            self.lemma_wf();
        }
        while p < self.partitions.len()
            invariant
                self.wf(),
                64 * W <= u32::MAX,
                len == self.partitions@.len(),
                held == |q: int| self.parts()[q].keys().len(),
                p <= len,
                v@.len() == sums::sum_to(held, p as int),
                forall|q: int, i: int|
                    0 <= q < p && 0 <= i < self.parts()[q].keys().len() ==> #[trigger] self.placed::<A>(v@, q, i),
            decreases len - p,
        {
            let part: &TermSum<C, P, W> = &self.partitions[p];
            let ghost start = v@.len();
            let ghost done = v@;
            proof {
                assert(self.partitions@[p as int].wf());
            }
            let n: usize = part.len();
            let mut i: usize = 0;
            while i < n
                invariant
                    self.wf(),
                    part.wf(),
                    64 * W <= u32::MAX,
                    n == part.keys().len(),
                    i <= n,
                    *part == self.parts()[p as int],
                    v@.len() == start + i,
                    start == done.len(),
                    forall|x: int| 0 <= x < start ==> #[trigger] v@[x] == done[x],
                    forall|x: int|
                        0 <= x < i ==> ({
                            let out = v@[start + x];
                            (out.0@, out.1 as int) == through::<A, W>(
                                self.frame().is_trivial(),
                                self.frame().readout_rows(),
                                #[trigger] part.keys()[x],
                            ) && *out.2 == part.coeffs()[x]
                        }),
                decreases n - i,
            {
                let key: BasisString<W> = part.key(i);
                let (image, sign) = self.frame.conjugate::<A>(&key);
                v.push((image, sign, part.coeff(i)));
                i += 1;
            }
            proof {
                assert forall|q: int, i: int|
                    0 <= q < p + 1 && 0 <= i < self.parts()[q].keys().len() implies #[trigger] self.placed::<
                    A,
                >(v@, q, i) by {
                    assert(self.offset(p as int) == start);
                    if q < p {
                        assert(self.placed::<A>(done, q, i));
                        sums::lemma_sum_grows(held, q + 1, p as int);
                        assert(self.offset(q) + i < start);
                        assert(v@[self.offset(q) + i] == done[self.offset(q) + i]);
                    } else {
                        assert(part.keys()[i] == self.parts()[q].keys()[i]);
                    }
                }
            }
            p += 1;
        }
        v
    }

    /// Expectation value against a computational basis state.
    pub fn expectation<A: Basis<W>>(&self, fock: &[u64]) -> (total: C::Real)
        requires
            self.wf(),
        ensures
            total == shares::<A, C, P, W>(
                self.frame(),
                self.parts(),
                fock@,
                self.parts().len() as int,
            ),
    {
        let mut total: C::Real = C::real_unit(0);
        let mut p: usize = 0;
        proof {
            self.lemma_wf();
        }
        while p < self.partitions.len()
            invariant
                self.wf(),
                64 * W <= u32::MAX,
                p <= self.partitions@.len(),
                total == shares::<A, C, P, W>(self.frame(), self.parts(), fock@, p as int),
            decreases self.partitions@.len() - p,
        {
            let part: &TermSum<C, P, W> = &self.partitions[p];
            proof {
                assert(self.partitions@[p as int].wf());
            }
            let one: C::Real = if self.frame.is_identity() {
                part.expectation::<A>(fock)
            } else {
                framed_expectation::<A, C, P, W>(&self.frame, part, fock)
            };
            total = C::real_add(total, one);
            p += 1;
        }
        total
    }

    /// Hands out partition `p`'s coefficient column.
    pub fn with_coeffs_mut(&mut self, p: usize) -> (column: &mut [C])
        requires
            old(self).wf(),
            p < old(self).parts().len(),
        ensures
            column@ == old(self).parts()[p as int].coeffs(),
            final(column)@.len() == column@.len() ==> final(self).wf(),
            final(self).same_setting(*old(self)),
            forall|q: int|
                0 <= q < old(self).parts().len() ==> (#[trigger] final(self).parts()[q]).keys() == old(
                    self,
                ).parts()[q].keys() && final(self).parts()[q].coeffs() == (if q == p {
                    final(column)@
                } else {
                    old(self).parts()[q].coeffs()
                }),
    {
        proof {
            let before = self.partitions@;
            assert(before[p as int].wf());
            assert forall|q: int, k: Seq<bool>|
                0 <= q < before.len() && #[trigger] before[q].keys().contains(k) implies gate::owner(
                k,
                before.len(),
            ) == q by {
                assert(before[q].terms().contains_key(k));
            }
        }
        self.partitions[p].with_coeffs_mut()
    }

    /// The width rows are repacked to, if they are: twice the present one, up to the largest.
    pub open spec fn widened(&self, num: u32, den: u32) -> Option<nat> {
        let was = self.parts()[0].row_width();
        let twice = if 2 * was > operator_index::MAX_INLINE_POSITIONS {
            operator_index::MAX_INLINE_POSITIONS as nat
        } else {
            2 * was
        };
        if self.rows() == 0 || self.spilled_rows() * den < num * self.rows() || twice <= was {
            None
        } else {
            Some(twice)
        }
    }

    /// Widens the inline rows when at least `num / den` of them have spilled, returning the new
    /// width if it changed.
    pub fn repack_if_overflowing(&mut self, num: u32, den: u32) -> (r: Option<usize>)
        requires
            old(self).wf(),
            den > 0,
            operator_index::addressable(old(self).rows() as int),
        ensures
            final(self).wf(),
            final(self).same_setting(*old(self)),
            final(self).terms() == old(self).terms(),
            final(self).rows() == old(self).rows(),
            match old(self).widened(num, den) {
                None => r is None && *final(self) == *old(self),
                Some(w) => r matches Some(width) && width == w && forall|p: int|
                    0 <= p < final(self).parts().len() ==> (#[trigger] final(self).parts()[p]).row_width()
                        == w,
            },
    {
        let live: usize = self.len();
        if live == 0 {
            return None;
        }
        let spilled: usize = self.overflow_rows();
        proof {
            assert(spilled as u128 * den as u128 <= u128::MAX) by (nonlinear_arith)
                requires
                    spilled <= u64::MAX,
                    den <= u32::MAX,
            ;
            assert(num as u128 * live as u128 <= u128::MAX) by (nonlinear_arith)
                requires
                    live <= u64::MAX,
                    num <= u32::MAX,
            ;
        }
        if (spilled as u128) * (den as u128) < (num as u128) * (live as u128) {
            return None;
        }
        let was: usize = self.partitions[0].inline_width();
        proof {
            assert(self.partitions@[0].wf());
            self.partitions@[0].lemma_width();
        }
        let width: usize = if 2 * was > operator_index::MAX_INLINE_POSITIONS {
            operator_index::MAX_INLINE_POSITIONS
        } else {
            2 * was
        };
        if width <= was {
            return None;
        }
        let ghost before = self.partitions@;
        let ghost n = before.len() as int;
        let ghost units = self.n_units as nat;
        let ghost total = self.rows();
        let mut p: usize = 0;
        while p < self.partitions.len()
            invariant
                p <= n,
                n == before.len(),
                n > 0,
                before == old(self).partitions@,
                units == self.n_units,
                self.partitions@.len() == n,
                exchange::tended(before, units),
                exchange::tended(self.partitions@, units),
                exchange::owned(before),
                self.frame == old(self).frame,
                self.times == old(self).times,
                self.frame.wf(),
                self.defer_cliffords == old(self).defer_cliffords,
                self.n_units == old(self).n_units,
                2 * self.n_units <= usize::MAX,
                forall|q: int| p <= q < n ==> #[trigger] self.partitions@[q] == before[q],
                forall|q: int|
                    0 <= q < n ==> (#[trigger] self.partitions@[q]).keys() == before[q].keys(),
                1 <= width <= operator_index::MAX_INLINE_POSITIONS,
                total == sums::sum_to(|q: int| before[q].keys().len(), n),
                operator_index::addressable(total as int),
                forall|q: int|
                    0 <= q < p ==> (#[trigger] self.partitions@[q]).row_width() == width,
                forall|q: int|
                    0 <= q < n ==> (#[trigger] self.partitions@[q]).coeffs() == before[q].coeffs(),
            decreases n - p,
        {
            let ghost now = self.partitions@;
            proof {
                assert(now[p as int] == before[p as int]);
                assert(now[p as int].wf());
                sums::lemma_sum_part(|q: int| before[q].keys().len(), n, p as int);
            }
            match self.partitions[p].repack(width) {
                Ok(()) => {},
                Err(_) => {
                    return None;
                },
            }
            proof {
                assert forall|q: int| 0 <= q < n && q != p implies #[trigger] self.partitions@[q]
                    == now[q] by {}
            }
            p += 1;
        }
        proof {
            lemma_rows_stay(before, self.partitions@, units);
            assert forall|k: Seq<bool>| self.terms().contains_key(k) implies #[trigger] self.terms()[k]
                == old(self).terms()[k] by {
                assert(exchange::joined(before).contains_key(k));
                let o = gate::owner(k, n as nat);
                assert(self.partitions@[o].coeffs() == before[o].coeffs());
            }
            assert(self.terms().dom() == old(self).terms().dom());
            assert(self.terms() =~= old(self).terms());
        }
        Some(width)
    }
}

/// Which rows of a partition the cutoff admits.
fn admission<A: Basis<W>, C: CoeffRepr, P: Pos, K: TruncationKernel<C::Real>, const W: usize>(
    part: &TermSum<C, P, W>,
    cutoff: &EmitCutoff<C::Real, K>,
) -> (flags: Vec<bool>)
    requires
        part.wf(),
        64 * W <= u32::MAX,
    ensures
        flags@.len() == part.keys().len(),
        forall|i: int|
            0 <= i < flags@.len() ==> #[trigger] flags@[i] == admitted::<A, C, K, W>(
                *cutoff,
                part.keys()[i],
                part.coeffs()[i],
                part.units(),
            ),
{
    let n: usize = part.len();
    let n_units: usize = part.n_units();
    let mut flags: Vec<bool> = Vec::new();
    while flags.len() < n
        invariant
            part.wf(),
            64 * W <= u32::MAX,
            n == part.keys().len(),
            n_units == part.units(),
            flags@.len() <= n,
            forall|i: int|
                0 <= i < flags@.len() ==> #[trigger] flags@[i] == admitted::<A, C, K, W>(
                    *cutoff,
                    part.keys()[i],
                    part.coeffs()[i],
                    part.units(),
                ),
        decreases n - flags@.len(),
    {
        let i: usize = flags.len();
        let key: BasisString<W> = part.key(i);
        flags.push(emit::admits_initial::<A, C, K, W>(cutoff, &key, part.coeff(i), n_units));
    }
    flags
}

/// Rows of a partition whose magnitude is below `threshold`.
fn count_faint<C: CoeffRepr, P: Pos, const W: usize>(
    part: &TermSum<C, P, W>,
    threshold: C::Real,
) -> (n: usize)
    requires
        part.wf(),
    ensures
        n == bits::ones(
            Seq::new(part.coeffs().len(), |i: int| faint(part.coeffs()[i], threshold)),
        ),
{
    let len: usize = part.len();
    let mut n: usize = 0;
    let mut i: usize = 0;
    proof {
        part.lemma_wf();
        assert(Seq::new(0, |i: int| faint(part.coeffs()[i], threshold)) =~= Seq::<bool>::empty());
    }
    while i < len
        invariant
            part.wf(),
            len == part.keys().len(),
            len == part.coeffs().len(),
            i <= len,
            n <= i,
            n == bits::ones(Seq::new(i as nat, |x: int| faint(part.coeffs()[x], threshold))),
        decreases len - i,
    {
        proof {
            assert(Seq::new((i + 1) as nat, |x: int| faint(part.coeffs()[x], threshold)).drop_last()
                =~= Seq::new(i as nat, |x: int| faint(part.coeffs()[x], threshold)));
        }
        if C::real_less(part.coeff(i).magnitude(), threshold) {
            n += 1;
        }
        i += 1;
    }
    n
}

/// A partition's expectation value with the deferred gates applied.
fn framed_expectation<A: Basis<W>, C: CoeffRepr, P: Pos, const W: usize>(
    frame: &CliffordTableau<W>,
    part: &TermSum<C, P, W>,
    fock: &[u64],
) -> (total: C::Real)
    requires
        part.wf(),
        frame.wf(),
        !frame.is_trivial(),
        64 * W <= u32::MAX,
    ensures
        total == framed_total::<A, C, W>(
            frame.readout_rows(),
            part.keys(),
            part.coeffs(),
            part.units(),
            fock@,
            part.keys().len() as int,
        ),
{
    let n: usize = part.len();
    let n_units: usize = part.n_units();
    let mut total: C::Real = C::real_unit(0);
    let mut i: usize = 0;
    while i < n
        invariant
            part.wf(),
            frame.wf(),
            !frame.is_trivial(),
            64 * W <= u32::MAX,
            n == part.keys().len(),
            n_units == part.units(),
            i <= n,
            total == framed_total::<A, C, W>(
                frame.readout_rows(),
                part.keys(),
                part.coeffs(),
                part.units(),
                fock@,
                i as int,
            ),
        decreases n - i,
    {
        let key: BasisString<W> = part.key(i);
        let (image, sign) = frame.conjugate::<A>(&key);
        let trace: i8 = A::trace(&image, n_units, fock);
        let signed: i8 = if sign == 1 {
            trace
        } else {
            -trace
        };
        proof {
            assert(signed == sign * trace) by (nonlinear_arith)
                requires
                    sign == 1 || sign == -1,
                    signed == (if sign == 1 {
                        trace as int
                    } else {
                        -trace
                    }),
            ;
        }
        total = part.coeff(i).add_to_total(total, signed);
        i += 1;
    }
    total
}

/// Replacing one partition changes the row count by that partition's.
proof fn lemma_rows_update<C: CoeffRepr, P: Pos, const W: usize>(
    before: Seq<TermSum<C, P, W>>,
    after: Seq<TermSum<C, P, W>>,
    o: int,
)
    requires
        before.len() == after.len(),
        0 <= o < before.len(),
        forall|p: int| 0 <= p < before.len() && p != o ==> #[trigger] after[p] == before[p],
    ensures
        exchange::rows_held(after) == exchange::rows_held(before) - before[o].keys().len()
            + after[o].keys().len(),
        before[o].keys().len() <= exchange::rows_held(before),
{
    let a = |p: int| after[p].keys().len();
    let b = |p: int| before[p].keys().len();
    lemma_sum_update(b, a, before.len() as int, o);
    sums::lemma_sum_part(b, before.len() as int, o);
}

proof fn lemma_sum_update(f: spec_fn(int) -> nat, g: spec_fn(int) -> nat, n: int, o: int)
    requires
        forall|i: int| 0 <= i < n && i != o ==> #[trigger] g(i) == f(i),
    ensures
        0 <= o < n ==> sums::sum_to(g, n) == sums::sum_to(f, n) - f(o) + g(o),
        !(0 <= o < n) ==> sums::sum_to(g, n) == sums::sum_to(f, n),
    decreases n,
{
    if n > 0 {
        lemma_sum_update(f, g, n - 1, o);
        if n - 1 != o {
            assert(g(n - 1) == f(n - 1));
        }
    }
}

impl<C: CoeffRepr, P: Pos, const W: usize> PartitionedTermSum<C, P, W> {
    /// A term lives in the partition that owns its key, and in no other.
    pub proof fn law_terms_live_with_their_owner(&self, p: int, i: int)
        requires
            self.wf(),
            0 <= p < self.parts().len(),
            0 <= i < self.parts()[p].keys().len(),
        ensures
            gate::owner(self.parts()[p].keys()[i], self.parts().len()) == p,
            self.terms().contains_key(self.parts()[p].keys()[i]),
            self.terms()[self.parts()[p].keys()[i]] == self.parts()[p].coeffs()[i],
    {
        self.lemma_wf();
        let part = self.parts()[p];
        part.lemma_wf();
        gate::lemma_terms_at(part.keys(), part.coeffs(), 64 * W as int, i);
        assert(self.parts()[p].terms().contains_key(part.keys()[i]));
    }

    /// No key is stored twice: there are as many rows as terms.
    pub proof fn law_rows_are_terms(&self)
        requires
            self.wf(),
        ensures
            self.terms().dom().finite(),
            self.terms().len() == self.rows(),
    {
        self.lemma_wf();
        let n = self.parts().len() as int;
        lemma_stored(self.parts(), self.units(), n);
        assert forall|k: Seq<bool>| #[trigger] stored(self.parts(), n).contains(k)
            == self.terms().dom().contains(k) by {
            exchange::lemma_owner(k, n as nat);
            let o = gate::owner(k, n as nat);
            if self.terms().contains_key(k) {
                assert(holds(self.parts(), o, k));
            }
            if stored(self.parts(), n).contains(k) {
                let p = choose|p: int| 0 <= p < n && #[trigger] holds(self.parts(), p, k);
                assert(self.parts()[p].terms().contains_key(k));
            }
        }
        assert(stored(self.parts(), n) =~= self.terms().dom());
    }

    /// How many partitions there are leaves no trace: rotations of equal sums end in equal
    /// sums.
    pub proof fn law_partitions_leave_no_trace<A: Basis<W>, K: TruncationKernel<C::Real>>(
        a: Self,
        a_after: Self,
        a_added: usize,
        b: Self,
        b_after: Self,
        b_added: usize,
        gen: Seq<bool>,
        param: C::GateParam,
        cutoff: EmitCutoff<C::Real, K>,
    )
        requires
            a.wf(),
            b.wf(),
            a_after.wf(),
            b_after.wf(),
            a.terms() == b.terms(),
            a.units() == b.units(),
            a.defers() == b.defers(),
            a.frame().readout_rows() == b.frame().readout_rows(),
            a.frame().generator_rows() == b.frame().generator_rows(),
            turned_into::<A, C, P, K, W>(a, a_after, gen, param, cutoff, Ok(a_added)),
            turned_into::<A, C, P, K, W>(b, b_after, gen, param, cutoff, Ok(b_added)),
        ensures
            a_after.terms() == b_after.terms(),
            a_after.rows() == b_after.rows(),
            a_after.frame().readout_rows() == b_after.frame().readout_rows(),
            a_after.frame().generator_rows() == b_after.frame().generator_rows(),
            a_added == b_added,
    {
        a.law_rows_are_terms();
        b.law_rows_are_terms();
        a_after.law_rows_are_terms();
        b_after.law_rows_are_terms();
    }
}

/// What a reclaim leaves of the key `k`: its coefficient, if the cutoff admits the term.
pub open spec fn reclaimed<
    A: Basis<W>,
    C: CoeffRepr,
    P: Pos,
    K: TruncationKernel<C::Real>,
    const W: usize,
>(before: PartitionedTermSum<C, P, W>, cutoff: EmitCutoff<C::Real, K>, k: Seq<bool>) -> Option<C> {
    if before.terms().contains_key(k) && admitted::<A, C, K, W>(
        cutoff,
        k,
        before.terms()[k],
        before.units(),
    ) {
        Some(before.terms()[k])
    } else {
        None
    }
}

/// Something done to a partitioned sum.
pub ghost enum Deed<C: CoeffRepr, K, const W: usize> {
    /// A coefficient is added to a key's term.
    Adds(Seq<bool>, C),
    /// A rotation is applied: its generator, its parameter and the cutoff in force.
    Turns(Seq<bool>, C::GateParam, EmitCutoff<C::Real, K>),
}

/// `after` is what a deed makes of `before`, and `added` how many terms a rotation reports as
/// new.
pub open spec fn done<
    A: Basis<W>,
    C: CoeffRepr,
    P: Pos,
    K: TruncationKernel<C::Real>,
    const W: usize,
>(
    before: PartitionedTermSum<C, P, W>,
    deed: Deed<C, K, W>,
    after: PartitionedTermSum<C, P, W>,
    added: usize,
) -> bool {
    &&& after.wf()
    &&& after.units() == before.units()
    &&& after.defers() == before.defers()
    &&& match deed {
        Deed::Adds(key, coeff) => {
            &&& after.frame() == before.frame()
            &&& after.terms() == before.terms().insert(
                key,
                gate::merged(gate::get(before.terms(), key), Some(coeff))->0,
            )
            &&& added == 0
        },
        Deed::Turns(gen, param, cutoff) => turned_into::<A, C, P, K, W>(
            before,
            after,
            gen,
            param,
            cutoff,
            Ok(added),
        ),
    }
}

/// Two sums hold the same terms behind the same frame.
pub open spec fn agree<C: CoeffRepr, P: Pos, const W: usize>(
    a: PartitionedTermSum<C, P, W>,
    b: PartitionedTermSum<C, P, W>,
) -> bool {
    &&& a.wf()
    &&& b.wf()
    &&& a.terms() == b.terms()
    &&& a.rows() == b.rows()
    &&& a.units() == b.units()
    &&& a.defers() == b.defers()
    &&& a.frame().readout_rows() == b.frame().readout_rows()
    &&& a.frame().generator_rows() == b.frame().generator_rows()
}

/// The number of partitions never changes a result: two sums that agree at first, as fresh ones
/// do, and to which the same is done, step by step and without running out of row indices, agree
/// after every step, and report the same numbers of new terms.
pub proof fn law_histories_agree<
    A: Basis<W>,
    C: CoeffRepr,
    P: Pos,
    K: TruncationKernel<C::Real>,
    const W: usize,
>(
    deeds: Seq<Deed<C, K, W>>,
    a: Seq<PartitionedTermSum<C, P, W>>,
    a_added: Seq<usize>,
    b: Seq<PartitionedTermSum<C, P, W>>,
    b_added: Seq<usize>,
    n: int,
)
    requires
        0 <= n <= deeds.len(),
        a.len() == deeds.len() + 1,
        b.len() == deeds.len() + 1,
        agree(a[0], b[0]),
        forall|i: int|
            0 <= i < deeds.len() ==> done::<A, C, P, K, W>(
                a[i],
                #[trigger] deeds[i],
                a[i + 1],
                a_added[i],
            ),
        forall|i: int|
            0 <= i < deeds.len() ==> done::<A, C, P, K, W>(
                b[i],
                #[trigger] deeds[i],
                b[i + 1],
                b_added[i],
            ),
    ensures
        agree(a[n], b[n]),
        n > 0 ==> a_added[n - 1] == b_added[n - 1],
    decreases n,
{
    if n > 0 {
        law_histories_agree::<A, C, P, K, W>(deeds, a, a_added, b, b_added, n - 1);
        let before_a = a[n - 1];
        let before_b = b[n - 1];
        let deed = deeds[n - 1];
        assert(done::<A, C, P, K, W>(before_a, deed, a[n], a_added[n - 1]));
        assert(done::<A, C, P, K, W>(before_b, deed, b[n], b_added[n - 1]));
        a[n].law_rows_are_terms();
        b[n].law_rows_are_terms();
        match deed {
            Deed::Adds(..) => {},
            Deed::Turns(gen, param, cutoff) => {
                PartitionedTermSum::law_partitions_leave_no_trace::<A, K>(
                    before_a,
                    a[n],
                    a_added[n - 1],
                    before_b,
                    b[n],
                    b_added[n - 1],
                    gen,
                    param,
                    cutoff,
                );
            },
        }
    }
}

/// Reclaiming is settled at once: no term that a reclaim leaves is dropped by a second one with
/// the same cutoff.
pub proof fn law_reclaim_settles<
    A: Basis<W>,
    C: CoeffRepr,
    P: Pos,
    K: TruncationKernel<C::Real>,
    const W: usize,
>(
    first: PartitionedTermSum<C, P, W>,
    second: PartitionedTermSum<C, P, W>,
    third: PartitionedTermSum<C, P, W>,
    cutoff: EmitCutoff<C::Real, K>,
    dropped: usize,
)
    requires
        second.wf(),
        third.wf(),
        first.units() == second.units(),
        forall|k: Seq<bool>| #[trigger]
            gate::get(second.terms(), k) == reclaimed::<A, C, P, K, W>(first, cutoff, k),
        forall|k: Seq<bool>| #[trigger]
            gate::get(third.terms(), k) == reclaimed::<A, C, P, K, W>(second, cutoff, k),
        third.rows() + dropped == second.rows(),
    ensures
        third.terms() == second.terms(),
        dropped == 0,
{
    assert forall|k: Seq<bool>| #[trigger] gate::get(third.terms(), k) == gate::get(
        second.terms(),
        k,
    ) by {
        assert(gate::get(second.terms(), k) == reclaimed::<A, C, P, K, W>(first, cutoff, k));
    }
    termsum::lemma_same_map(third.terms(), second.terms());
    second.law_rows_are_terms();
    third.law_rows_are_terms();
}

/// A sum in partitions rotates as a sum in one piece does.
pub proof fn law_partitions_match_one_sum<
    A: Basis<W>,
    C: CoeffRepr,
    P: Pos,
    K: TruncationKernel<C::Real>,
    const W: usize,
>(
    before: PartitionedTermSum<C, P, W>,
    after: PartitionedTermSum<C, P, W>,
    added: usize,
    one: TermSum<C, P, W>,
    gen: Seq<bool>,
    param: C::GateParam,
    cutoff: EmitCutoff<C::Real, K>,
)
    requires
        before.wf(),
        before.frame().is_trivial(),
        !before.defers() || !C::quarter_turn(param, C::tolerance_of()),
        turned_into::<A, C, P, K, W>(before, after, gen, param, cutoff, Ok(added)),
        one.terms() == before.terms(),
        one.units() == before.units(),
    ensures
        after.terms() == gate::turned(
            emit::gate_for::<A, C, K, W>(
                gen,
                false,
                param,
                effective(cutoff, before.rows()),
                one.units(),
            ),
            one.terms(),
        ),
{
    before.law_rows_are_terms();
    if before.rows() == 0 {
        let g = emit::gate_for::<A, C, K, W>(
            gen,
            false,
            param,
            effective(cutoff, before.rows()),
            one.units(),
        );
        let none = Map::<Seq<bool>, C>::empty();
        assert(one.terms().dom() =~= Set::<Seq<bool>>::empty());
        assert(one.terms() =~= none);
        assert(gate::rotate(g, none) =~= none);
        if let Some(f) = C::half_turn(param, C::tolerance_of()) {
            assert(gate::half_turned::<A, C, W>(gen, f, none) =~= none);
        }
    }
}

/// Partition `p` stores the key `k`.
spec fn holds<C: CoeffRepr, P: Pos, const W: usize>(
    parts: Seq<TermSum<C, P, W>>,
    p: int,
    k: Seq<bool>,
) -> bool {
    parts[p].keys().contains(k)
}

/// The keys stored in the first `n` partitions.
spec fn stored<C: CoeffRepr, P: Pos, const W: usize>(
    parts: Seq<TermSum<C, P, W>>,
    n: int,
) -> Set<Seq<bool>> {
    Set::new(|k: Seq<bool>| exists|p: int| 0 <= p < n && #[trigger] holds(parts, p, k))
}

/// The first `n` partitions store as many keys as they have rows.
proof fn lemma_stored<C: CoeffRepr, P: Pos, const W: usize>(
    parts: Seq<TermSum<C, P, W>>,
    units: nat,
    n: int,
)
    requires
        exchange::tended(parts, units),
        exchange::owned(parts),
        0 <= n <= parts.len(),
    ensures
        stored(parts, n).finite(),
        stored(parts, n).len() == sums::sum_to(|p: int| parts[p].keys().len(), n),
    decreases n,
{
    if n == 0 {
        assert(stored(parts, n) =~= Set::<Seq<bool>>::empty());
    } else {
        lemma_stored(parts, units, n - 1);
        let part = parts[n - 1];
        part.lemma_wf();
        let rest = stored(parts, n - 1);
        let here = part.keys().to_set();
        assert(part.keys().no_duplicates()) by {
            assert forall|i: int, j: int|
                0 <= i < part.keys().len() && 0 <= j < part.keys().len() && i
                    != j implies part.keys()[i] != part.keys()[j] by {
                if i < j {
                    assert(part.keys()[i] != part.keys()[j]);
                } else {
                    assert(part.keys()[j] != part.keys()[i]);
                }
            }
        }
        part.keys().unique_seq_to_set();
        assert(rest.disjoint(here)) by {
            assert forall|k: Seq<bool>| rest.contains(k) implies !here.contains(k) by {
                let p = choose|p: int| 0 <= p < n - 1 && #[trigger] holds(parts, p, k);
                assert(parts[p].terms().contains_key(k));
                if here.contains(k) {
                    assert(part.terms().contains_key(k));
                }
            }
        }
        assert forall|k: Seq<bool>| #[trigger] stored(parts, n).contains(k) == (rest + here).contains(
            k,
        ) by {
            if here.contains(k) {
                assert(holds(parts, n - 1, k));
            }
            if stored(parts, n).contains(k) {
                let p = choose|p: int| 0 <= p < n && #[trigger] holds(parts, p, k);
                assert(holds(parts, p, k));
            }
            if rest.contains(k) {
                let p = choose|p: int| 0 <= p < n - 1 && #[trigger] holds(parts, p, k);
                assert(holds(parts, p, k));
            }
        }
        assert(stored(parts, n) =~= rest + here);
        vstd::set_lib::lemma_set_disjoint_lens(rest, here);
    }
}

/// Rows are widened exactly where there are terms, enough of them have spilled, and there is
/// room for wider ones; then to twice their width, up to the widest.
pub proof fn law_rows_are_widened<C: CoeffRepr, P: Pos, const W: usize>(
    sum: PartitionedTermSum<C, P, W>,
    num: u32,
    den: u32,
)
    ensures
        ({
            let was = sum.parts()[0].row_width();
            let most = operator_index::MAX_INLINE_POSITIONS;
            match sum.widened(num, den) {
                Some(width) => {
                    &&& sum.rows() > 0
                    &&& sum.spilled_rows() * den >= num * sum.rows()
                    &&& width > was
                    &&& width == 2 * was || width == most && 2 * was > most
                    &&& width <= most
                },
                None => sum.rows() == 0 || sum.spilled_rows() * den < num * sum.rows() || was >= most
                    || was == 0,
            }
        }),
{
}

/// The terms handed out, partition by partition, are the stored ones read through the deferred
/// gates: while nothing is deferred each key as it is, and otherwise its image and the image's
/// sign.
pub proof fn law_terms_are_read_out<A: Basis<W>, C: CoeffRepr, P: Pos, const W: usize>(
    sum: PartitionedTermSum<C, P, W>,
    v: Seq<(BasisString<W>, i8, &C)>,
    p: int,
    i: int,
)
    requires
        sum.placed::<A>(v, p, i),
        0 <= p < sum.parts().len(),
        0 <= i < sum.parts()[p].keys().len(),
    ensures
        ({
            let at = sums::sum_to(|q: int| sum.parts()[q].keys().len(), p) + i;
            let (key, c) = (sum.parts()[p].keys()[i], sum.parts()[p].coeffs()[i]);
            &&& *v[at].2 == c
            &&& sum.frame().is_trivial() ==> v[at].0@ == key && v[at].1 == 1
            &&& !sum.frame().is_trivial() ==> (v[at].0@, v[at].1 as int) == conjugation::carried::<
                A,
                W,
            >(sum.frame().readout_rows(), key)
        }),
{
}

} // verus!
