//! Deferred Clifford gates as a stabilizer tableau.
//!
//! Rather than conjugating every stored term by a Clifford gate, its action is kept as
//! a table of where it sends the single-bit strings, and later generators are pushed through
//! the inverse table. The table then acts as a lookup for conjugation.

use crate::basis;
use crate::basis::{Basis, Phase};
use crate::bits;
use crate::clifford_frame;
use crate::coeff::CoeffRepr;
use crate::conjugation;
use crate::conjugation::Signed;
use crate::group;
use crate::strings::BasisString;
use crate::weights;
use vstd::prelude::*;

verus! {

/// Where one generator maps, and with what sign, `1` or `-1`.
#[derive(Clone, Copy)]
pub struct Row<const W: usize> {
    pub image: BasisString<W>,
    pub sign: i8,
}

/// The signed strings a list of rows holds.
pub open spec fn rows_of<const W: usize>(rows: Seq<Row<W>>) -> Seq<Signed> {
    Seq::new(rows.len(), |p: int| (rows[p].image@, rows[p].sign as int))
}

/// Every row has a sign.
pub open spec fn signed_rows<const W: usize>(rows: Seq<Row<W>>) -> bool {
    forall|p: int| 0 <= p < rows.len() ==> (#[trigger] rows[p]).sign == 1 || rows[p].sign == -1
}

/// A deferred Clifford of arbitrary support.
#[derive(Clone)]
pub struct CliffordTableau<const W: usize> {
    /// Where the deferred gates send a stored string when it is read out.
    readout: Vec<Row<W>>,
    /// Where they send a later gate's generator: the inverse of `readout`.
    generator: Vec<Row<W>>,
    identity: bool,
}

/// The row of generator `p` under the identity.
fn unit_row<const W: usize>(p: usize) -> (r: Row<W>)
    ensures
        r.image@ == bits::single(64 * W as nat, p as int),
        r.sign == 1,
{
    let mut image = BasisString::<W>::zero();
    if p / 64 < W {
        image.set(p);
    }
    proof {
        assert(image@ =~= bits::single(64 * W as nat, p as int));
    }
    Row { image, sign: 1 }
}

impl<const W: usize> CliffordTableau<W> {
    /// Where each generator goes at readout.
    pub closed spec fn readout_rows(&self) -> Seq<Signed> {
        rows_of(self.readout@)
    }

    /// Where each generator goes when pushed the other way.
    pub closed spec fn generator_rows(&self) -> Seq<Signed> {
        rows_of(self.generator@)
    }

    /// The tableau is still the identity.
    pub open spec fn is_trivial(&self) -> bool {
        self.readout_rows() == conjugation::unit_rows::<W>(self.readout_rows().len())
    }

    /// Every row is signed, and the identity flag is up to date.
    pub closed spec fn wf(&self) -> bool {
        &&& signed_rows(self.readout@)
        &&& signed_rows(self.generator@)
        &&& self.identity == self.is_trivial()
        &&& self.readout@.len() % 2 == 0
    }

    /// The rows describe a conjugation, and the two directions are inverse.
    pub open spec fn sound<A: Basis<W>>(&self) -> bool {
        &&& conjugation::valid::<A, W>(self.readout_rows())
        &&& conjugation::valid::<A, W>(self.generator_rows())
        &&& self.readout_rows().len() == self.generator_rows().len()
        &&& conjugation::undoes::<A, W>(self.generator_rows(), self.readout_rows())
        &&& conjugation::undoes::<A, W>(self.readout_rows(), self.generator_rows())
    }

    /// The tableau that conjugates nothing.
    pub fn new(n_units: usize) -> (t: Self)
        requires
            2 * n_units <= usize::MAX,
        ensures
            t.wf(),
            t.readout_rows() == conjugation::unit_rows::<W>(2 * n_units as nat),
            t.generator_rows() == conjugation::unit_rows::<W>(2 * n_units as nat),
            t.is_trivial(),
    {
        let mut readout: Vec<Row<W>> = Vec::new();
        let mut generator: Vec<Row<W>> = Vec::new();
        let n: usize = 2 * n_units;
        let mut p: usize = 0;
        while p < n
            invariant
                p <= n,
                readout@.len() == p,
                generator@.len() == p,
                forall|q: int|
                    0 <= q < p ==> (#[trigger] readout@[q]).image@ == bits::single(
                        64 * W as nat,
                        q,
                    ) && readout@[q].sign == 1,
                forall|q: int|
                    0 <= q < p ==> (#[trigger] generator@[q]).image@ == bits::single(
                        64 * W as nat,
                        q,
                    ) && generator@[q].sign == 1,
            decreases n - p,
        {
            readout.push(unit_row(p));
            generator.push(unit_row(p));
            p += 1;
        }
        let t = CliffordTableau { readout, generator, identity: true };
        proof {
            assert(t.readout_rows() =~= conjugation::unit_rows::<W>(n as nat));
            assert(t.generator_rows() =~= conjugation::unit_rows::<W>(n as nat));
        }
        t
    }

    /// True if this tableau is still the identity.
    pub fn is_identity(&self) -> (r: bool)
        requires
            self.wf(),
        ensures
            r == self.is_trivial(),
    {
        self.identity
    }

    /// Number of generator rows, which is twice the qubit count.
    pub fn len(&self) -> (n: usize)
        ensures
            n == self.readout_rows().len(),
    {
        self.readout.len()
    }

    /// True if the tableau covers no qubits.
    pub fn is_empty(&self) -> (r: bool)
        ensures
            r == (self.readout_rows().len() == 0),
    {
        self.readout.len() == 0
    }

    /// The readout image of the generator at bit position `p`.
    pub fn row(&self, p: usize) -> (r: Row<W>)
        requires
            p < self.readout_rows().len(),
        ensures
            (r.image@, r.sign as int) == self.readout_rows()[p as int],
    {
        self.readout[p]
    }

    /// Recomputes the identity flag after the rows change.
    fn refresh_identity(&mut self)
        requires
            signed_rows(old(self).readout@),
            signed_rows(old(self).generator@),
            old(self).readout@.len() % 2 == 0,
        ensures
            final(self).wf(),
            final(self).readout == old(self).readout,
            final(self).generator == old(self).generator,
    {
        let mut p: usize = 0;
        let mut same: bool = true;
        while p < self.readout.len()
            invariant
                self.readout == old(self).readout,
                self.generator == old(self).generator,
                p <= self.readout@.len(),
                same == forall|q: int|
                    0 <= q < p ==> (#[trigger] self.readout@[q]).image@ == bits::single(
                        64 * W as nat,
                        q,
                    ) && self.readout@[q].sign == 1,
            decreases self.readout@.len() - p,
        {
            let want: Row<W> = unit_row(p);
            let r: Row<W> = self.readout[p];
            proof {
                if r.image@ == want.image@ {
                    BasisString::lemma_ext(r.image, want.image);
                }
            }
            if !(r.image == want.image && r.sign == 1) {
                same = false;
            }
            p += 1;
        }
        self.identity = same;
        proof {
            let n = self.readout@.len();
            let units = conjugation::unit_rows::<W>(n);
            let rows = self.readout_rows();
            if same {
                assert(rows =~= units);
            }
            if rows == units {
                assert forall|q: int| 0 <= q < n implies (#[trigger] self.readout@[q]).image@
                    == bits::single(64 * W as nat, q) && self.readout@[q].sign == 1 by {
                    assert(rows[q] == units[q]);
                }
            }
        }
    }

    /// Applies this tableau to a basis string, returning the image and its sign.
    pub fn conjugate<A: Basis<W>>(&self, mono: &BasisString<W>) -> (r: (BasisString<W>, i8))
        requires
            self.wf(),
            64 * W <= u32::MAX,
        ensures
            (r.0@, r.1 as int) == (if self.is_trivial() {
                (mono@, 1int)
            } else {
                conjugation::carried::<A, W>(self.readout_rows(), mono@)
            }),
            r.1 == 1 || r.1 == -1,
    {
        if self.identity {
            return (*mono, 1);
        }
        Self::apply_rows::<A>(&self.readout, mono)
    }

    /// Pushes a later gate's generator through the tableau.
    pub fn conjugate_generator<A: Basis<W>>(&self, mono: &BasisString<W>) -> (r: (
        BasisString<W>,
        i8,
    ))
        requires
            self.wf(),
            64 * W <= u32::MAX,
        ensures
            (r.0@, r.1 as int) == (if self.is_trivial() {
                (mono@, 1int)
            } else {
                conjugation::carried::<A, W>(self.generator_rows(), mono@)
            }),
            r.1 == 1 || r.1 == -1,
    {
        if self.identity {
            return (*mono, 1);
        }
        Self::apply_rows::<A>(&self.generator, mono)
    }

    /// Multiplies the rows selected by `mono` together.
    fn apply_rows<A: Basis<W>>(rows: &Vec<Row<W>>, mono: &BasisString<W>) -> (r: (
        BasisString<W>,
        i8,
    ))
        requires
            signed_rows(rows@),
            64 * W <= u32::MAX,
        ensures
            (r.0@, r.1 as int) == conjugation::carried::<A, W>(rows_of(rows@), mono@),
            r.1 == 1 || r.1 == -1,
    {
        let ghost table = rows_of(rows@);
        let ghost units = conjugation::unit_rows::<W>(rows@.len());
        let ghost m = mono@;
        let ghost all = bits::set_positions(m);
        let mut source: BasisString<W> = BasisString::zero();
        let mut source_phase: Phase = Phase::One;
        let mut image: BasisString<W> = BasisString::zero();
        let mut image_phase: Phase = Phase::One;
        let positions: Vec<usize> = mono.positions().collect();
        let ghost mut n: int = 0;
        let mut t: usize = 0;
        proof {
            BasisString::lemma_len(*mono);
            bits::lemma_set_positions(m);
        }
        while t < positions.len() && positions[t] < rows.len()
            invariant
                64 * W <= u32::MAX,
                signed_rows(rows@),
                table == rows_of(rows@),
                units == conjugation::unit_rows::<W>(rows@.len()),
                m == mono@,
                m.len() == 64 * W,
                all == bits::set_positions(m),
                positions@.len() == all.len(),
                forall|k: int| 0 <= k < positions@.len() ==> #[trigger] positions@[k] == all[k],
                t <= positions@.len(),
                0 <= n <= conjugation::reach::<W>(table),
                forall|k: int| 0 <= k < t ==> #[trigger] all[k] < n,
                forall|k: int| t <= k < all.len() ==> #[trigger] all[k] >= n,
                source@ == conjugation::walk::<A, W>(units, m, n).0,
                source_phase == basis::phase_from(conjugation::walk::<A, W>(units, m, n).1),
                image@ == conjugation::walk::<A, W>(table, m, n).0,
                image_phase == basis::phase_from(conjugation::walk::<A, W>(table, m, n).1),
            decreases positions@.len() - t,
        {
            let p: usize = positions[t];
            proof {
                bits::lemma_set_positions(m);
                assert(all[t as int] == p);
                assert(m[p as int]);
                assert forall|x: int| n <= x < p implies !#[trigger] m[x] by {
                    if m[x] {
                        assert(all.contains(x));
                        let k = choose|k: int| 0 <= k < all.len() && all[k] == x;
                        if k < t {
                            assert(all[k] < n);
                        } else if k > t {
                            assert(all[t as int] < all[k]);
                        }
                    }
                }
                conjugation::lemma_walk_skip::<A, W>(units, m, n, p as int);
                conjugation::lemma_walk_skip::<A, W>(table, m, n, p as int);
            }
            let ghost su = conjugation::walk::<A, W>(units, m, p as int);
            let ghost st = conjugation::walk::<A, W>(table, m, p as int);
            let row: Row<W> = rows[p];
            let generator: Row<W> = unit_row(p);
            let (next_source, phase) = A::product(&A::make_gen_context(&generator.image), &source);
            source = next_source;
            source_phase = source_phase.times(phase);
            let ghost qi = A::product_quarters(row.image@, image@);
            let ghost qs = phase;
            let (next_image, phase) = A::product(&A::make_gen_context(&row.image), &image);
            image = next_image;
            image_phase = image_phase.times(phase).signed(row.sign);
            proof {
                let qu = A::product_quarters(bits::single(64 * W as nat, p as int), su.0);
                let sign = if row.sign == 1 {
                    0int
                } else {
                    2int
                };
                basis::lemma_phase_sum(su.1, qu);
                basis::lemma_phase_sum(st.1, qi);
                basis::lemma_phase_sum(st.1 + qi, sign);
                assert(units[p as int] == (bits::single(64 * W as nat, p as int), 1int));
                assert(table[p as int] == (row.image@, row.sign as int));
                assert(conjugation::walk::<A, W>(units, m, p + 1) == group::times::<A, W>(
                    conjugation::element(units[p as int]),
                    su,
                ));
                assert(conjugation::walk::<A, W>(table, m, p + 1) == group::times::<A, W>(
                    conjugation::element(table[p as int]),
                    st,
                ));
                assert forall|k: int| t + 1 <= k < all.len() implies #[trigger] all[k] >= p + 1 by {
                    assert(all[t as int] < all[k]);
                }
                n = p + 1;
            }
            t += 1;
        }
        let ratio: Phase = image_phase.over(source_phase);
        let sign: i8 = match ratio {
            Phase::MinusOne => -1,
            _ => 1,
        };
        proof {
            let end = conjugation::reach::<W>(table);
            bits::lemma_set_positions(m);
            assert forall|x: int| n <= x < end implies !#[trigger] m[x] by {
                if m[x] {
                    assert(all.contains(x));
                    let k = choose|k: int| 0 <= k < all.len() && all[k] == x;
                    if k >= t {
                        assert(positions@[k] == x);
                        if k > t {
                            assert(all[t as int] < all[k]);
                            assert(positions@[t as int] == all[t as int]);
                        }
                    }
                }
            }
            conjugation::lemma_walk_skip::<A, W>(units, m, n, end);
            conjugation::lemma_walk_skip::<A, W>(table, m, n, end);
            let w = conjugation::walk::<A, W>(table, m, end);
            let s = conjugation::walk::<A, W>(units, m, end);
            basis::lemma_phase_sum(w.1, s.1);
            basis::lemma_phase_sum(w.1 - s.1, 0);
        }
        (image, sign)
    }

    /// The rows of `rows` carried through `next`.
    fn carry_rows<A: Basis<W>>(rows: &Vec<Row<W>>, next: &Vec<Row<W>>) -> (out: Vec<Row<W>>)
        requires
            signed_rows(rows@),
            signed_rows(next@),
            64 * W <= u32::MAX,
        ensures
            signed_rows(out@),
            out@.len() == rows@.len(),
            rows_of(out@) == conjugation::composed::<A, W>(rows_of(rows@), rows_of(next@)),
    {
        let mut out: Vec<Row<W>> = Vec::new();
        let ghost from = rows_of(rows@);
        let ghost through = rows_of(next@);
        let mut p: usize = 0;
        while p < rows.len()
            invariant
                p <= rows@.len(),
                signed_rows(rows@),
                signed_rows(next@),
                64 * W <= u32::MAX,
                from == rows_of(rows@),
                through == rows_of(next@),
                out@.len() == p,
                signed_rows(out@),
                forall|q: int|
                    0 <= q < p ==> ((#[trigger] out@[q]).image@, out@[q].sign as int)
                        == conjugation::carried_row::<A, W>(through, from[q]),
            decreases rows@.len() - p,
        {
            let r: Row<W> = rows[p];
            let (image, sign) = Self::apply_rows::<A>(next, &r.image);
            let sign: i8 = if r.sign == 1 {
                sign
            } else if sign == 1 {
                -1
            } else {
                1
            };
            proof {
                let c = conjugation::carried::<A, W>(through, r.image@).1;
                let f = r.sign as int;
                assert(f == 1 ==> c * f == c) by (nonlinear_arith);
                assert(f == -1 ==> c * f == -c) by (nonlinear_arith);
                assert(from[p as int] == (r.image@, f));
            }
            out.push(Row { image, sign });
            p += 1;
        }
        proof {
            assert(rows_of(out@) =~= conjugation::composed::<A, W>(from, through));
        }
        out
    }

    /// Composes `next` after this tableau, both expressed as conjugations.
    pub fn compose<A: Basis<W>>(&mut self, next: &CliffordTableau<W>)
        requires
            old(self).wf(),
            next.wf(),
            64 * W <= u32::MAX,
        ensures
            final(self).wf(),
            final(self).readout_rows() == (if next.is_trivial() {
                old(self).readout_rows()
            } else {
                conjugation::composed::<A, W>(old(self).readout_rows(), next.readout_rows())
            }),
            final(self).generator_rows() == (if next.is_trivial() {
                old(self).generator_rows()
            } else {
                conjugation::composed::<A, W>(next.generator_rows(), old(self).generator_rows())
            }),
            group::multiplies::<A, W>() && old(self).sound::<A>() && next.sound::<A>() && old(
                self,
            ).readout_rows().len() == next.readout_rows().len() ==> final(self).sound::<A>(),
    {
        if next.identity {
            return;
        }
        // Readout composes as this tableau and then the next.
        let readout: Vec<Row<W>> = Self::carry_rows::<A>(&self.readout, &next.readout);
        // The generator direction is the inverse, so it composes the other way round.
        let generator: Vec<Row<W>> = Self::carry_rows::<A>(&next.generator, &self.generator);
        self.readout = readout;
        self.generator = generator;
        self.refresh_identity();
        proof {
            if group::multiplies::<A, W>() && old(self).sound::<A>() && next.sound::<A>() && old(
                self,
            ).readout_rows().len() == next.readout_rows().len() {
                conjugation::lemma_composed_valid::<A, W>(
                    old(self).readout_rows(),
                    next.readout_rows(),
                );
                conjugation::lemma_composed_valid::<A, W>(
                    next.generator_rows(),
                    old(self).generator_rows(),
                );
                conjugation::lemma_undoes_composed::<A, W>(
                    old(self).readout_rows(),
                    old(self).generator_rows(),
                    next.readout_rows(),
                    next.generator_rows(),
                );
                conjugation::lemma_undoes_composed::<A, W>(
                    next.generator_rows(),
                    next.readout_rows(),
                    old(self).generator_rows(),
                    old(self).readout_rows(),
                );
            }
        }
    }

    /// Some generator among the first `n` anticommutes with `gen`.
    pub open spec fn some_branch<A: Basis<W>>(gen: Seq<bool>, n: int) -> bool {
        exists|p: int|
            0 <= p < n && p < 64 * W && A::anti(gen, #[trigger] bits::single(64 * W as nat, p))
    }

    /// The sine of a quarter turn, one where it makes no difference.
    pub open spec fn turn_of<C: CoeffRepr>(param: C::GateParam) -> int {
        match C::turn_sign(param) {
            Some(t) => t,
            None => 1,
        }
    }

    /// Builds the tableau for conjugation by one Clifford rotation, or nothing if the rotation
    /// is no quarter turn or its sign cannot be told.
    pub fn for_rotation<A: Basis<W>, C: CoeffRepr>(
        n_units: usize,
        gen: &BasisString<W>,
        param: &C::GateParam,
        eps: C::Real,
    ) -> (r: Option<Self>)
        requires
            2 * n_units <= usize::MAX,
            64 * W <= u32::MAX,
        ensures
            r is None <==> !C::quarter_turn(*param, eps) || (C::turn_sign(*param) is None
                && Self::some_branch::<A>(gen@, 2 * n_units as int)),
            r matches Some(t) ==> {
                &&& t.wf()
                &&& t.readout_rows() == conjugation::turn_rows::<A, W>(
                    gen@,
                    Self::turn_of::<C>(*param),
                    2 * n_units as nat,
                )
                &&& t.generator_rows() == conjugation::turn_rows::<A, W>(
                    gen@,
                    -Self::turn_of::<C>(*param),
                    2 * n_units as nat,
                )
                &&& group::multiplies::<A, W>() && 2 * n_units <= 64 * W && conjugation::within(
                    gen@,
                    2 * n_units as int,
                ) && (Self::turn_of::<C>(*param) == 1 || Self::turn_of::<C>(*param) == -1)
                    ==> t.sound::<A>()
            },
    {
        if !C::is_clifford_param(param, eps) {
            return None;
        }
        let ctx = A::make_gen_context(gen);
        let mut tableau: CliffordTableau<W> = CliffordTableau::new(n_units);
        let n: usize = 2 * n_units;
        let ghost g = gen@;
        let ghost turn = Self::turn_of::<C>(*param);
        let ghost there = conjugation::turn_rows::<A, W>(g, turn, n as nat);
        let ghost back = conjugation::turn_rows::<A, W>(g, -turn, n as nat);
        let mut p: usize = 0;
        proof {
            BasisString::lemma_len(*gen);
            assert forall|q: int| 0 <= q < n implies tableau.readout@[q].image@ == bits::single(
                64 * W as nat,
                q,
            ) && (#[trigger] tableau.readout@[q]).sign == 1 by {
                assert(tableau.readout_rows()[q] == conjugation::unit_rows::<W>(n as nat)[q]);
            }
            assert forall|q: int| 0 <= q < n implies tableau.generator@[q].image@ == bits::single(
                64 * W as nat,
                q,
            ) && (#[trigger] tableau.generator@[q]).sign == 1 by {
                assert(tableau.generator_rows()[q] == conjugation::unit_rows::<W>(n as nat)[q]);
            }
            assert(tableau.readout@.len() == tableau.readout_rows().len());
            assert(tableau.generator@.len() == tableau.generator_rows().len());
        }
        while p < n && p / 64 < W
            invariant
                n == 2 * n_units,
                64 * W <= u32::MAX,
                p <= n,
                g == gen@,
                g.len() == 64 * W,
                A::generator_of(ctx) == g,
                !A::negated(ctx),
                turn == Self::turn_of::<C>(*param),
                C::quarter_turn(*param, eps),
                C::turn_sign(*param) is None ==> !Self::some_branch::<A>(g, p as int),
                there == conjugation::turn_rows::<A, W>(g, turn, n as nat),
                back == conjugation::turn_rows::<A, W>(g, -turn, n as nat),
                tableau.readout@.len() == n,
                tableau.generator@.len() == n,
                signed_rows(tableau.readout@),
                signed_rows(tableau.generator@),
                forall|q: int|
                    0 <= q < p ==> ((#[trigger] tableau.readout@[q]).image@, tableau.readout@[q].sign as int)
                        == there[q],
                forall|q: int|
                    0 <= q < p ==> ((#[trigger] tableau.generator@[q]).image@, tableau.generator@[q].sign as int)
                        == back[q],
                forall|q: int|
                    p <= q < n ==> (#[trigger] tableau.readout@[q]).image@ == bits::single(
                        64 * W as nat,
                        q,
                    ) && tableau.readout@[q].sign == 1,
                forall|q: int|
                    p <= q < n ==> (#[trigger] tableau.generator@[q]).image@ == bits::single(
                        64 * W as nat,
                        q,
                    ) && tableau.generator@[q].sign == 1,
            decreases n - p,
        {
            let generator: Row<W> = unit_row(p);
            let ghost e = bits::single(64 * W as nat, p as int);
            // A commuting generator is untouched by a rotation about `gen`.
            if A::anticommutes(&ctx, &generator.image) {
                proof {
                    A::imaginary_law(g, e);
                    assert(Self::some_branch::<A>(g, p + 1));
                }
                let (image, phase) = A::product(&ctx, &generator.image);
                match C::clifford_branch_sign(param, phase) {
                    Some(sign) => {
                        proof {
                            let q = A::product_quarters(g, e);
                            basis::lemma_phase_sum(q, 0);
                            assert(phase == basis::phase_from(q));
                            let im = phase.imaginary();
                            assert(im == 1 || im == -1);
                            assert(sign == turn * -im);
                            assert(-(turn * -im) == -turn * -im) by (nonlinear_arith);
                            assert(sign == 1 || sign == -1) by (nonlinear_arith)
                                requires
                                    sign == turn * -im,
                                    turn == 1 || turn == -1,
                                    im == 1 || im == -1,
                            ;
                        }
                        tableau.readout.set(p, Row { image, sign });
                        tableau.generator.set(p, Row { image, sign: -sign });
                    },
                    None => {
                        proof {
                            assert(Self::some_branch::<A>(g, 2 * n_units as int));
                        }
                        return None;
                    },
                }
            }
            p += 1;
        }
        proof {
            assert(tableau.readout_rows() =~= there);
            assert(tableau.generator_rows() =~= back);
        }
        tableau.refresh_identity();
        proof {
            assert(!(C::turn_sign(*param) is None && Self::some_branch::<A>(
                gen@,
                2 * n_units as int,
            ))) by {
                if Self::some_branch::<A>(gen@, 2 * n_units as int) {
                    let q = choose|q: int|
                        0 <= q < 2 * n_units && q < 64 * W && A::anti(
                            gen@,
                            #[trigger] bits::single(64 * W as nat, q),
                        );
                    assert(q < p);
                    assert(Self::some_branch::<A>(g, p as int));
                }
            }
            if group::multiplies::<A, W>() && 2 * n_units <= 64 * W && conjugation::within(
                gen@,
                2 * n_units as int,
            ) && (turn == 1 || turn == -1) {
                conjugation::lemma_turn_valid::<A, W>(g, turn, n as nat);
                conjugation::lemma_turn_valid::<A, W>(g, -turn, n as nat);
                conjugation::lemma_turn_undoes::<A, W>(g, turn, n as nat);
                conjugation::lemma_turn_undoes::<A, W>(g, -turn, n as nat);
            }
        }
        Some(tableau)
    }

    /// True if applying this tableau can change a term's weight, the number of units it touches,
    /// as weight truncation needs to know. It cannot if every unit goes to a unit of its own.
    pub fn changes_weight(&self) -> (r: bool)
        requires
            self.wf(),
            64 * W <= u32::MAX,
        ensures
            r == weights::moves_weight::<W>(self.readout_rows()),
    {
        let ghost rows = self.readout_rows();
        let covered: usize = self.readout.len();
        let n: usize = if covered / 2 < 32 * W {
            covered / 2
        } else {
            32 * W
        };
        let ghost mut homes: Seq<int> = Seq::empty();
        let mut taken: Vec<bool> = vec![false; 32 * W];
        let mut u: usize = 0;
        proof {
            assert forall|p: int| 0 <= p < rows.len() implies (#[trigger] rows[p]).0.len() == 64
                * W by {
                BasisString::lemma_len(self.readout@[p].image);
            }
        }
        while u < n
            invariant
                u <= n,
                64 * W <= u32::MAX,
                rows == self.readout_rows(),
                rows.len() == self.readout@.len(),
                rows.len() % 2 == 0,
                weights::wide::<W>(rows),
                n == conjugation::reach::<W>(rows) / 2,
                taken@.len() == 32 * W,
                weights::housed(rows, homes, u as int),
                forall|t: int| 0 <= t < taken@.len() ==> #[trigger] taken@[t] == homes.contains(t),
            decreases n - u,
        {
            let (x, z): (usize, usize) = (2 * u, 2 * u + 1);
            let s: usize = match clifford_frame::single_qubit_support(&self.readout[x].image) {
                Some(s) => s,
                None => {
                    proof {
                        weights::lemma_row_moves::<W>(rows, x as int);
                    }
                    return true;
                },
            };
            let t: usize = match clifford_frame::single_qubit_support(&self.readout[z].image) {
                Some(t) => t,
                None => {
                    proof {
                        weights::lemma_row_moves::<W>(rows, z as int);
                    }
                    return true;
                },
            };
            proof {
                assert(weights::confined(rows[x as int].0, s as int));
                assert(weights::confined(rows[z as int].0, t as int));
            }
            if s != t || self.readout[x].image == self.readout[z].image {
                proof {
                    weights::lemma_rows_move::<W>(rows, x as int, z as int, s as int, t as int);
                }
                return true;
            }
            proof {
                if rows[x as int].0 == rows[z as int].0 {
                    BasisString::lemma_ext(
                        self.readout@[x as int].image,
                        self.readout@[z as int].image,
                    );
                }
                assert(weights::lands(rows, u as int, s as int));
            }
            if taken[s] {
                proof {
                    let v = choose|v: int| 0 <= v < homes.len() && homes[v] == s;
                    assert(weights::lands(rows, v, homes[v]));
                    weights::lemma_rows_move::<W>(rows, 2 * v, x as int, s as int, s as int);
                }
                return true;
            }
            taken.set(s, true);
            proof {
                let before = homes;
                homes = homes.push(s as int);
                assert forall|v: int| 0 <= v < u + 1 implies weights::lands(
                    rows,
                    v,
                    #[trigger] homes[v],
                ) by {
                    if v < u {
                        assert(homes[v] == before[v]);
                    }
                }
                assert forall|v: int, w: int| 0 <= v < w < u + 1 implies #[trigger] homes[v]
                    != #[trigger] homes[w] by {
                    if w == u {
                        assert(before.contains(before[v]));
                    }
                }
                assert forall|k: int| 0 <= k < taken@.len() implies #[trigger] taken@[k]
                    == homes.contains(k) by {
                    if k == s {
                        assert(homes[u as int] == k);
                    }
                    if before.contains(k) {
                        let v = choose|v: int| 0 <= v < before.len() && before[v] == k;
                        assert(homes[v] == k);
                    }
                }
            }
            u += 1;
        }
        proof {
            weights::lemma_housed_keeps::<W>(rows, homes);
        }
        false
    }

    /// What reading out carries the string `m` to.
    pub open spec fn read<A: Basis<W>>(&self, m: Seq<bool>) -> Signed {
        conjugation::carried::<A, W>(self.readout_rows(), m)
    }

    /// What pushing the other way carries the string `m` to.
    pub open spec fn pushed<A: Basis<W>>(&self, m: Seq<bool>) -> Signed {
        conjugation::carried::<A, W>(self.generator_rows(), m)
    }

    /// A tableau that changes no weight reads every term out at its own weight, in a basis that
    /// weighs terms by the units they touch; one that does change weight has a term that shows it.
    pub proof fn law_weight_is_kept<A: Basis<W>>(&self, n_units: nat)
        requires
            forall|m: Seq<bool>|
                m.len() == 64 * W ==> #[trigger] A::weight_of(m, n_units) == weights::touched(m),
            forall|p: int|
                0 <= p < self.readout_rows().len() ==> (#[trigger] self.readout_rows()[p]).0.len()
                    == 64 * W,
        ensures
            weights::moves_weight::<W>(self.readout_rows()) <==> exists|m: Seq<bool>|
                m.len() == 64 * W && conjugation::within(m, self.readout_rows().len() as int)
                    && A::weight_of(#[trigger] self.read::<A>(m).0, n_units) != A::weight_of(
                    m,
                    n_units,
                ),
    {
        let rows = self.readout_rows();
        assert forall|m: Seq<bool>| m.len() == 64 * W implies weights::shifts::<W>(rows, m) == (
        A::weight_of(#[trigger] self.read::<A>(m).0, n_units) != A::weight_of(m, n_units)) by {
            weights::lemma_key_image::<A, W>(rows, m);
            conjugation::lemma_walk_len::<A, W>(rows, m, conjugation::reach::<W>(rows));
        }
        if weights::moves_weight::<W>(rows) {
            let m = choose|m: Seq<bool>|
                m.len() == 64 * W && conjugation::within(m, rows.len() as int)
                    && #[trigger] weights::shifts::<W>(rows, m);
            assert(A::weight_of(self.read::<A>(m).0, n_units) != A::weight_of(m, n_units));
        }
    }

    /// A fresh tableau is sound and carries every string to itself.
    pub proof fn law_fresh<A: Basis<W>>(&self, n: nat, m: Seq<bool>)
        requires
            group::multiplies::<A, W>(),
            self.readout_rows() == conjugation::unit_rows::<W>(n),
            self.generator_rows() == conjugation::unit_rows::<W>(n),
            n <= 64 * W,
            m.len() == 64 * W,
            conjugation::within(m, n as int),
        ensures
            self.sound::<A>(),
            self.read::<A>(m) == (m, 1int),
            self.pushed::<A>(m) == (m, 1int),
    {
        let units = conjugation::unit_rows::<W>(n);
        conjugation::lemma_units_valid::<A, W>(n);
        conjugation::lemma_units_carry::<A, W>(n, m);
        let whole = conjugation::composed::<A, W>(units, units);
        assert forall|p: int| 0 <= p < n implies #[trigger] whole[p] == units[p] by {
            conjugation::lemma_units_carry::<A, W>(n, units[p].0);
        }
        assert(whole =~= units);
    }

    /// The two directions are inverse: a string read out and pushed back, or pushed and read
    /// out, is itself, and the signs cancel.
    pub proof fn law_directions_are_inverse<A: Basis<W>>(&self, m: Seq<bool>)
        requires
            group::multiplies::<A, W>(),
            self.sound::<A>(),
            m.len() == 64 * W,
            conjugation::within(m, self.readout_rows().len() as int),
        ensures
            self.pushed::<A>(self.read::<A>(m).0).0 == m,
            self.pushed::<A>(self.read::<A>(m).0).1 * self.read::<A>(m).1 == 1,
            self.read::<A>(self.pushed::<A>(m).0).0 == m,
            self.read::<A>(self.pushed::<A>(m).0).1 * self.pushed::<A>(m).1 == 1,
    {
        conjugation::lemma_undone::<A, W>(self.generator_rows(), self.readout_rows(), m);
        conjugation::lemma_undone::<A, W>(self.readout_rows(), self.generator_rows(), m);
    }

    /// Conjugation sends no two strings to one.
    pub proof fn law_injective<A: Basis<W>>(&self, a: Seq<bool>, b: Seq<bool>)
        requires
            group::multiplies::<A, W>(),
            self.sound::<A>(),
            a.len() == 64 * W,
            b.len() == 64 * W,
            conjugation::within(a, self.readout_rows().len() as int),
            conjugation::within(b, self.readout_rows().len() as int),
            self.read::<A>(a).0 == self.read::<A>(b).0,
        ensures
            a == b,
    {
        conjugation::lemma_injective::<A, W>(self.generator_rows(), self.readout_rows(), a, b);
    }

    /// Conjugation keeps commutation relations, in either direction. Deferral rests on this: a
    /// stored string branches under a pushed generator exactly when its image branches under
    /// the generator itself.
    pub proof fn law_commutation_is_kept<A: Basis<W>>(&self, a: Seq<bool>, b: Seq<bool>)
        requires
            group::multiplies::<A, W>(),
            self.sound::<A>(),
            a.len() == 64 * W,
            b.len() == 64 * W,
            conjugation::within(a, self.readout_rows().len() as int),
            conjugation::within(b, self.readout_rows().len() as int),
        ensures
            A::anti(self.read::<A>(a).0, self.read::<A>(b).0) == A::anti(a, b),
            A::anti(self.pushed::<A>(a).0, self.pushed::<A>(b).0) == A::anti(a, b),
            A::anti(self.pushed::<A>(a).0, b) == A::anti(a, self.read::<A>(b).0),
    {
        let rows = self.readout_rows();
        let back = self.generator_rows();
        conjugation::lemma_image_anti::<A, W>(rows, a, b);
        conjugation::lemma_image_anti::<A, W>(back, a, b);
        conjugation::lemma_image_signed::<A, W>(rows, b);
        conjugation::lemma_image_anti::<A, W>(back, a, self.read::<A>(b).0);
        conjugation::lemma_undone::<A, W>(back, rows, b);
    }

    /// Composing is conjugating in sequence: the images agree, and the signs multiply.
    pub proof fn law_compose<A: Basis<W>>(&self, next: Self, both: Self, m: Seq<bool>)
        requires
            group::multiplies::<A, W>(),
            self.sound::<A>(),
            next.sound::<A>(),
            self.readout_rows().len() == next.readout_rows().len(),
            both.readout_rows() == (if next.is_trivial() {
                self.readout_rows()
            } else {
                conjugation::composed::<A, W>(self.readout_rows(), next.readout_rows())
            }),
            m.len() == 64 * W,
            conjugation::within(m, self.readout_rows().len() as int),
        ensures
            both.read::<A>(m).0 == next.read::<A>(self.read::<A>(m).0).0,
            both.read::<A>(m).1 == next.read::<A>(self.read::<A>(m).0).1 * self.read::<A>(m).1,
    {
        conjugation::lemma_image_signed::<A, W>(self.readout_rows(), m);
        if next.is_trivial() {
            conjugation::lemma_units_carry::<A, W>(
                next.readout_rows().len(),
                self.read::<A>(m).0,
            );
        } else {
            conjugation::lemma_composed::<A, W>(self.readout_rows(), next.readout_rows(), m);
        }
    }

    /// The tableau was made so, over `n` rows: its rows, in both directions, are what `making`
    /// says.
    pub open spec fn made_by<A: Basis<W>>(&self, making: Making, n: nat) -> bool {
        &&& self.readout_rows() == made_rows::<A, W>(making, n).0
        &&& self.generator_rows() == made_rows::<A, W>(making, n).1
    }

    /// However a tableau is made, of fresh tableaux and quarter turns composed in any order, it
    /// is sound, and its two directions are inverse in key and sign.
    pub proof fn law_made_tableaux<A: Basis<W>>(&self, making: Making, n: nat, m: Seq<bool>)
        requires
            group::multiplies::<A, W>(),
            n <= 64 * W,
            proper_making::<W>(making, n),
            self.made_by::<A>(making, n),
            m.len() == 64 * W,
            conjugation::within(m, n as int),
        ensures
            self.sound::<A>(),
            self.readout_rows().len() == n,
            self.pushed::<A>(self.read::<A>(m).0).0 == m,
            self.pushed::<A>(self.read::<A>(m).0).1 * self.read::<A>(m).1 == 1,
            self.read::<A>(self.pushed::<A>(m).0).0 == m,
            self.read::<A>(self.pushed::<A>(m).0).1 * self.pushed::<A>(m).1 == 1,
    {
        lemma_made::<A, W>(making, n);
        self.law_directions_are_inverse::<A>(m);
    }

    /// Of tableaux that were made over the same rows, composing is conjugating in sequence: this
    /// one first, then the next. The outcome was made by composing, and composing with one that
    /// does nothing changes nothing.
    pub proof fn law_made_tableaux_compose<A: Basis<W>>(
        &self,
        next: Self,
        both: Self,
        first: Making,
        second: Making,
        n: nat,
        m: Seq<bool>,
    )
        requires
            group::multiplies::<A, W>(),
            n <= 64 * W,
            proper_making::<W>(first, n),
            proper_making::<W>(second, n),
            self.made_by::<A>(first, n),
            next.made_by::<A>(second, n),
            both.readout_rows() == (if next.is_trivial() {
                self.readout_rows()
            } else {
                conjugation::composed::<A, W>(self.readout_rows(), next.readout_rows())
            }),
            both.generator_rows() == (if next.is_trivial() {
                self.generator_rows()
            } else {
                conjugation::composed::<A, W>(next.generator_rows(), self.generator_rows())
            }),
            m.len() == 64 * W,
            conjugation::within(m, n as int),
        ensures
            both.made_by::<A>(Making::After(Box::new(first), Box::new(second)), n),
            both.readout_rows().len() == n,
            both.read::<A>(m).0 == next.read::<A>(self.read::<A>(m).0).0,
            both.read::<A>(m).1 == next.read::<A>(self.read::<A>(m).0).1 * self.read::<A>(m).1,
            next.is_trivial() ==> both.read::<A>(m) == self.read::<A>(m),
    {
        lemma_made::<A, W>(first, n);
        lemma_made::<A, W>(second, n);
        lemma_made::<A, W>(Making::After(Box::new(first), Box::new(second)), n);
        self.law_compose::<A>(next, both, m);
    }

    /// The tableau of a Clifford rotation conjugates every string as the rotation does: it
    /// leaves a commuting string alone, and sends an anticommuting one to its product with the
    /// generator.
    pub proof fn law_rotation_tableau<A: Basis<W>>(&self, gen: Seq<bool>, turn: int, m: Seq<bool>)
        requires
            group::multiplies::<A, W>(),
            turn == 1 || turn == -1,
            self.readout_rows() == conjugation::turn_rows::<A, W>(
                gen,
                turn,
                self.readout_rows().len(),
            ),
            self.readout_rows().len() <= 64 * W,
            gen.len() == 64 * W,
            m.len() == 64 * W,
            conjugation::within(gen, self.readout_rows().len() as int),
            conjugation::within(m, self.readout_rows().len() as int),
        ensures
            self.read::<A>(m) == (if A::anti(gen, m) {
                (
                    bits::xor(gen, m),
                    turn * -basis::product_phase::<A, W>(gen, false, m).imaginary(),
                )
            } else {
                (m, 1int)
            }),
    {
        conjugation::lemma_turn_carries::<A, W>(gen, turn, self.readout_rows().len(), m);
    }

    /// Deferring conjugations is invisible. A stored string branches under the pushed generator
    /// exactly when its image branches under the generator itself; the branch, read out, is the
    /// branch of the image; and the phases, with the signs of reading out, agree.
    pub proof fn law_branches_agree<A: Basis<W>>(&self, gen: Seq<bool>, k: Seq<bool>)
        requires
            group::multiplies::<A, W>(),
            self.sound::<A>(),
            gen.len() == 64 * W,
            k.len() == 64 * W,
            conjugation::within(gen, self.readout_rows().len() as int),
            conjugation::within(k, self.readout_rows().len() as int),
        ensures
            ({
                let pushed = self.pushed::<A>(gen);
                let image = self.read::<A>(k);
                let branch = self.read::<A>(bits::xor(pushed.0, k));
                &&& A::anti(pushed.0, k) == A::anti(gen, image.0)
                &&& branch.0 == bits::xor(gen, image.0)
                &&& A::anti(pushed.0, k) ==> basis::product_phase::<A, W>(
                    pushed.0,
                    pushed.1 == -1,
                    k,
                ).imaginary() * branch.1 == basis::product_phase::<A, W>(
                    gen,
                    false,
                    image.0,
                ).imaginary() * image.1
            }),
    {
        let rows = self.readout_rows();
        let back = self.generator_rows();
        let pushed = self.pushed::<A>(gen);
        let image = self.read::<A>(k);
        let child = bits::xor(pushed.0, k);
        let branch = self.read::<A>(child);
        self.law_commutation_is_kept::<A>(gen, k);
        conjugation::lemma_image_signed::<A, W>(back, gen);
        let again = self.read::<A>(pushed.0);
        assert(again == (gen, pushed.1)) by {
            conjugation::lemma_undone::<A, W>(rows, back, gen);
            assert(again.1 * pushed.1 == 1);
        }
        let x = conjugation::image::<A, W>(rows, pushed.0);
        let y = conjugation::image::<A, W>(rows, k);
        let z = conjugation::image::<A, W>(rows, child);
        let a = A::product_quarters(pushed.0, k);
        let b = A::product_quarters(gen, image.0);
        assert(z.0 == bits::xor(gen, image.0) && (x.1 + y.1 + b - (z.1 + a)) % 4 == 0
            && conjugation::within(child, rows.len() as int)) by {
            conjugation::lemma_image_product::<A, W>(rows, pushed.0, k);
        }
        if A::anti(pushed.0, k) {
            assert(a % 2 == 1) by {
                group::lemma_anti_imaginary::<A, W>(pushed.0, k);
            }
            assert(image.0.len() == 64 * W && (y.1 - conjugation::element(image).1) % 4 == 0) by {
                conjugation::lemma_image_signed::<A, W>(rows, k);
            }
            assert(b % 2 == 1) by {
                group::lemma_anti_imaginary::<A, W>(gen, image.0);
            }
            assert((x.1 - conjugation::element(again).1) % 4 == 0) by {
                conjugation::lemma_image_signed::<A, W>(rows, pushed.0);
            }
            assert((z.1 - conjugation::element(branch).1) % 4 == 0) by {
                conjugation::lemma_image_signed::<A, W>(rows, child);
            }
            lemma_phases_agree(a, b, x.1, y.1, z.1, pushed.1, image.1, branch.1);
        }
    }
}

/// Odd exponents that differ by signs have imaginary parts that differ by them.
proof fn lemma_phases_agree(
    a: int,
    b: int,
    x: int,
    y: int,
    z: int,
    pushed: int,
    image: int,
    branch: int,
)
    requires
        a % 2 == 1,
        b % 2 == 1,
        pushed == 1 || pushed == -1,
        image == 1 || image == -1,
        branch == 1 || branch == -1,
        (x + y + b - (z + a)) % 4 == 0,
        (x - conjugation::element((Seq::empty(), pushed)).1) % 4 == 0,
        (y - conjugation::element((Seq::empty(), image)).1) % 4 == 0,
        (z - conjugation::element((Seq::empty(), branch)).1) % 4 == 0,
    ensures
        basis::phase_from(
            a + (if pushed == -1 {
                2int
            } else {
                0int
            }),
        ).imaginary() * branch == basis::phase_from(b).imaginary() * image,
{
}

/// How a tableau was made.
pub ghost enum Making {
    /// It is fresh.
    Fresh,
    /// It is that of a quarter turn: its generator and its sign.
    Turn(Seq<bool>, int),
    /// The second was composed after the first.
    After(Box<Making>, Box<Making>),
}

/// The generators lie within `n` bits, and the signs are signs.
pub open spec fn proper_making<const W: usize>(making: Making, n: nat) -> bool
    decreases making,
{
    match making {
        Making::Fresh => true,
        Making::Turn(gen, turn) => gen.len() == 64 * W && conjugation::within(gen, n as int) && (
        turn == 1 || turn == -1),
        Making::After(first, second) => proper_making::<W>(*first, n) && proper_making::<W>(
            *second,
            n,
        ),
    }
}

/// The rows of a tableau that was made so, for reading and for pushing.
pub open spec fn made_rows<A: Basis<W>, const W: usize>(making: Making, n: nat) -> (
    Seq<Signed>,
    Seq<Signed>,
)
    decreases making,
{
    let units = conjugation::unit_rows::<W>(n);
    match making {
        Making::Fresh => (units, units),
        Making::Turn(gen, turn) => (
            conjugation::turn_rows::<A, W>(gen, turn, n),
            conjugation::turn_rows::<A, W>(gen, -turn, n),
        ),
        Making::After(first, second) => {
            let before = made_rows::<A, W>(*first, n);
            let next = made_rows::<A, W>(*second, n);
            if next.0 == units {
                before
            } else {
                (
                    conjugation::composed::<A, W>(before.0, next.0),
                    conjugation::composed::<A, W>(next.1, before.1),
                )
            }
        },
    }
}

/// What is made is sound.
proof fn lemma_made<A: Basis<W>, const W: usize>(making: Making, n: nat)
    requires
        group::multiplies::<A, W>(),
        n <= 64 * W,
        proper_making::<W>(making, n),
    ensures
        ({
            let (there, back) = made_rows::<A, W>(making, n);
            &&& there.len() == n
            &&& back.len() == n
            &&& conjugation::valid::<A, W>(there)
            &&& conjugation::valid::<A, W>(back)
            &&& conjugation::undoes::<A, W>(back, there)
            &&& conjugation::undoes::<A, W>(there, back)
        }),
    decreases making,
{
    let units = conjugation::unit_rows::<W>(n);
    match making {
        Making::Fresh => {
            conjugation::lemma_units_valid::<A, W>(n);
            let whole = conjugation::composed::<A, W>(units, units);
            assert forall|p: int| 0 <= p < n implies #[trigger] whole[p] == units[p] by {
                assert(conjugation::within(units[p].0, n as int));
                conjugation::lemma_units_carry::<A, W>(n, units[p].0);
            }
            assert(whole =~= units);
        },
        Making::Turn(gen, turn) => {
            conjugation::lemma_turn_valid::<A, W>(gen, turn, n);
            conjugation::lemma_turn_valid::<A, W>(gen, -turn, n);
            conjugation::lemma_turn_undoes::<A, W>(gen, turn, n);
            conjugation::lemma_turn_undoes::<A, W>(gen, -turn, n);
        },
        Making::After(first, second) => {
            lemma_made::<A, W>(*first, n);
            lemma_made::<A, W>(*second, n);
            let before = made_rows::<A, W>(*first, n);
            let next = made_rows::<A, W>(*second, n);
            if next.0 != units {
                conjugation::lemma_composed_valid::<A, W>(before.0, next.0);
                conjugation::lemma_composed_valid::<A, W>(next.1, before.1);
                conjugation::lemma_undoes_composed::<A, W>(before.0, before.1, next.0, next.1);
                conjugation::lemma_undoes_composed::<A, W>(next.1, next.0, before.1, before.0);
            }
        },
    }
}

} // verus!
