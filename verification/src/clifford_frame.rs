//! Deferred single-qubit Clifford gates: one table per qubit of where the four Pauli labels go.
//!
//! Instead of rewriting every stored key, a gate is composed into the frame, later generators
//! are pushed through it the other way, and the frame is applied to the keys when they are read
//! out.

use crate::basis;
use crate::basis::Basis;
use crate::bits;
use crate::coeff::CoeffRepr;
use crate::group;
use crate::strings::BasisString;
use vstd::prelude::*;

verus! {

/// Where one qubit's four Pauli labels go, with the sign picked up. Labels are
/// `x + 2 * z`: `0` is the identity, `1` is X, `2` is Z and `3` is Y.
pub type LabelTable = [(u8, i8); 4];

/// The label and sign that table `t` gives label `l`.
pub open spec fn entry(t: LabelTable, l: int) -> (int, int) {
    (t@[l].0 as int, t@[l].1 as int)
}

/// The table permutes the labels, up to signs, and leaves the identity alone.
pub open spec fn proper(t: LabelTable) -> bool {
    &&& entry(t, 0) == (0int, 1int)
    &&& forall|l: int|
        0 <= l < 4 ==> 0 <= (#[trigger] entry(t, l)).0 < 4 && (entry(t, l).1 == 1 || entry(t, l).1
            == -1)
    &&& forall|l: int, k: int|
        0 <= l < 4 && 0 <= k < 4 && (#[trigger] entry(t, l)).0 == (#[trigger] entry(t, k)).0 ==> l
            == k
}

/// The table leaves every label alone.
pub open spec fn idle(t: LabelTable) -> bool {
    forall|l: int| 0 <= l < 4 ==> #[trigger] entry(t, l) == (l, 1int)
}

/// The table that leaves every label alone.
pub fn identity_table() -> (t: LabelTable)
    ensures
        idle(t),
        proper(t),
{
    let t: LabelTable = [(0, 1), (1, 1), (2, 1), (3, 1)];
    proof {
        assert forall|l: int| 0 <= l < 4 implies #[trigger] entry(t, l) == (l, 1int) by {
            assert(l == 0 || l == 1 || l == 2 || l == 3);
        }
    }
    t
}

/// Whether the table leaves every label alone.
fn is_idle(t: &LabelTable) -> (r: bool)
    ensures
        r == idle(*t),
{
    let mut l: usize = 0;
    while l < 4
        invariant
            l <= 4,
            forall|k: int| 0 <= k < l ==> #[trigger] entry(*t, k) == (k, 1int),
        decreases 4 - l,
    {
        if t[l].0 as usize != l || t[l].1 != 1 {
            proof {
                assert(entry(*t, l as int) != (l as int, 1int));
            }
            return false;
        }
        l += 1;
    }
    true
}

/// The label of qubit `q` in a string.
pub open spec fn label(m: Seq<bool>, q: int) -> int {
    (if m[2 * q] {
        1int
    } else {
        0int
    }) + (if m[2 * q + 1] {
        2int
    } else {
        0int
    })
}

/// Whether a label has an X component, for `b` zero, or a Z component, for `b` one.
pub open spec fn label_bit(l: int, b: int) -> bool {
    if b == 0 {
        l == 1 || l == 3
    } else {
        l == 2 || l == 3
    }
}

/// The string whose label at each of the first `n` qubits is `f` of the qubit and the label
/// there, and the identity elsewhere.
pub open spec fn relabelled(
    n: int,
    f: spec_fn(int, int) -> (int, int),
    m: Seq<bool>,
) -> Seq<bool> {
    Seq::new(m.len(), |p: int| p / 2 < n && label_bit(f(p / 2, label(m, p / 2)).0, p % 2))
}

/// The signs that `f` gives the labels of the first `k` qubits, multiplied.
pub open spec fn relabelled_sign(
    k: int,
    f: spec_fn(int, int) -> (int, int),
    m: Seq<bool>,
) -> int
    decreases k,
{
    if k <= 0 {
        1
    } else {
        relabelled_sign(k - 1, f, m) * f(k - 1, label(m, k - 1)).1
    }
}

/// Looks labels up in their qubits' tables.
pub open spec fn forward(tables: Seq<LabelTable>) -> spec_fn(int, int) -> (int, int) {
    |q: int, l: int| entry(tables[q], l)
}

/// The label that a table sends to `l`.
pub open spec fn source(t: LabelTable, l: int) -> int {
    choose|c: int| 0 <= c < 4 && (#[trigger] entry(t, c)).0 == l
}

/// Looks labels up in their qubits' tables the other way.
pub open spec fn backward(tables: Seq<LabelTable>) -> spec_fn(int, int) -> (int, int) {
    |q: int, l: int| (source(tables[q], l), entry(tables[q], source(tables[q], l)).1)
}

/// A permutation of four labels reaches each of them.
proof fn lemma_source(t: LabelTable, l: int)
    requires
        proper(t),
        0 <= l < 4,
    ensures
        0 <= source(t, l) < 4,
        entry(t, source(t, l)).0 == l,
        l == 0 ==> source(t, l) == 0,
        forall|c: int| 0 <= c < 4 && (#[trigger] entry(t, c)).0 == l ==> c == source(t, l),
{
    let a = entry(t, 0).0;
    let b = entry(t, 1).0;
    let c = entry(t, 2).0;
    let d = entry(t, 3).0;
    assert(a != b && a != c && a != d && b != c && b != d && c != d);
    assert(exists|c: int| 0 <= c < 4 && (#[trigger] entry(t, c)).0 == l);
}

/// Deferred single-qubit Clifford gates, one table for each qubit.
pub struct CliffordFrame {
    tables: Vec<LabelTable>,
    /// Every table leaves every label alone.
    identity: bool,
}

impl CliffordFrame {
    /// The tables, one for each qubit.
    pub closed spec fn view_tables(&self) -> Seq<LabelTable> {
        self.tables@
    }

    /// The frame does nothing.
    pub open spec fn trivial(&self) -> bool {
        forall|q: int|
            0 <= q < self.view_tables().len() ==> idle(#[trigger] self.view_tables()[q])
    }

    /// Every table permutes the labels, and the identity flag is up to date.
    pub closed spec fn wf(&self) -> bool {
        &&& forall|q: int| 0 <= q < self.tables@.len() ==> proper(#[trigger] self.tables@[q])
        &&& self.identity == self.trivial()
    }

    /// What a well-formed frame promises.
    pub proof fn lemma_wf(&self)
        requires
            self.wf(),
        ensures
            forall|q: int|
                0 <= q < self.view_tables().len() ==> proper(#[trigger] self.view_tables()[q]),
    {
    }

    /// A frame that does nothing.
    pub fn new(n_units: usize) -> (f: Self)
        ensures
            f.wf(),
            f.trivial(),
            f.view_tables().len() == n_units,
    {
        let mut tables: Vec<LabelTable> = Vec::new();
        while tables.len() < n_units
            invariant
                tables@.len() <= n_units,
                forall|q: int|
                    0 <= q < tables@.len() ==> idle(#[trigger] tables@[q]) && proper(tables@[q]),
            decreases n_units - tables@.len(),
        {
            tables.push(identity_table());
        }
        CliffordFrame { tables, identity: true }
    }

    /// True if the frame does nothing.
    pub fn is_identity(&self) -> (r: bool)
        requires
            self.wf(),
        ensures
            r == self.trivial(),
    {
        self.identity
    }

    /// Number of qubits this frame covers.
    pub fn n_units(&self) -> (n: usize)
        ensures
            n == self.view_tables().len(),
    {
        self.tables.len()
    }

    /// A qubit's table.
    pub fn table(&self, qubit: usize) -> (t: &LabelTable)
        requires
            qubit < self.view_tables().len(),
        ensures
            *t == self.view_tables()[qubit as int],
    {
        &self.tables[qubit]
    }

    /// Composes `next` onto a qubit: the frame becomes what it was, followed by `next`.
    pub fn compose(&mut self, qubit: usize, next: &LabelTable)
        requires
            old(self).wf(),
            qubit < old(self).view_tables().len(),
            proper(*next),
        ensures
            final(self).wf(),
            final(self).view_tables().len() == old(self).view_tables().len(),
            forall|q: int|
                0 <= q < old(self).view_tables().len() && q != qubit
                    ==> #[trigger] final(self).view_tables()[q] == old(self).view_tables()[q],
            forall|l: int|
                0 <= l < 4 ==> #[trigger] entry(final(self).view_tables()[qubit as int], l)
                    == followed(old(self).view_tables()[qubit as int], *next, l),
    {
        let current: LabelTable = self.tables[qubit];
        let mut out: LabelTable = identity_table();
        proof {
            assert(proper(self.tables@[qubit as int]));
        }
        let mut l: usize = 0;
        while l < 4
            invariant
                l <= 4,
                proper(current),
                proper(*next),
                forall|k: int|
                    0 <= k < l ==> #[trigger] entry(out, k) == followed(current, *next, k),
            decreases 4 - l,
        {
            let (mid, sign_a) = current[l];
            proof {
                assert(entry(current, l as int) == (mid as int, sign_a as int));
            }
            let (last, sign_b) = next[mid as usize];
            proof {
                assert(entry(*next, mid as int) == (last as int, sign_b as int));
            }
            let ghost was = out;
            out[l] = (
                last,
                if sign_b == 1 {
                    sign_a
                } else {
                    -sign_a
                },
            );
            proof {
                assert forall|k: int| 0 <= k < l + 1 implies #[trigger] entry(out, k) == followed(
                    current,
                    *next,
                    k,
                ) by {
                    if k < l {
                        assert(entry(was, k) == followed(current, *next, k));
                    } else {
                        lemma_sign(sign_a as int, sign_b as int);
                    }
                }
            }
            l += 1;
        }
        self.tables.set(qubit, out);
        proof {
            lemma_followed_proper(current, *next, out);
        }
        self.refresh();
    }

    /// Recomputes the identity flag.
    fn refresh(&mut self)
        requires
            forall|q: int|
                0 <= q < old(self).tables@.len() ==> proper(#[trigger] old(self).tables@[q]),
        ensures
            final(self).wf(),
            final(self).tables == old(self).tables,
    {
        let mut all: bool = true;
        let mut q: usize = 0;
        while q < self.tables.len()
            invariant
                q <= self.tables@.len(),
                self.tables == old(self).tables,
                all == forall|k: int| 0 <= k < q ==> idle(#[trigger] self.tables@[k]),
            decreases self.tables@.len() - q,
        {
            let one: bool = is_idle(&self.tables[q]);
            proof {
                if !one {
                    assert(!idle(self.tables@[q as int]));
                }
            }
            all = all && one;
            q += 1;
        }
        self.identity = all;
        proof {
            if all {
                assert forall|k: int| 0 <= k < self.view_tables().len() implies idle(
                    #[trigger] self.view_tables()[k],
                ) by {
                    assert(idle(self.tables@[k]));
                }
            } else {
                let k = choose|k: int| 0 <= k < self.tables@.len() && !idle(#[trigger] self.tables@[k]);
                assert(!idle(self.view_tables()[k]));
            }
        }
    }

    /// Qubits that both the frame and a string of `bits` bits have.
    pub open spec fn covered(&self, n_bits: int) -> int {
        if self.view_tables().len() <= n_bits / 2 {
            self.view_tables().len() as int
        } else {
            n_bits / 2
        }
    }

    /// What a lookup makes of a string: the string itself while the frame does nothing.
    pub open spec fn sent(
        &self,
        f: spec_fn(int, int) -> (int, int),
        m: Seq<bool>,
    ) -> (Seq<bool>, int) {
        if self.trivial() {
            (m, 1)
        } else {
            (
                relabelled(self.view_tables().len() as int, f, m),
                relabelled_sign(self.covered(m.len() as int), f, m),
            )
        }
    }

    /// Applies the frame to a stored key, and returns its image and sign.
    pub fn conjugate<const W: usize>(&self, mono: &BasisString<W>) -> (r: (BasisString<W>, i8))
        requires
            self.wf(),
            64 * W <= usize::MAX,
        ensures
            (r.0@, r.1 as int) == self.sent(forward(self.view_tables()), mono@),
            r.1 == 1 || r.1 == -1,
    {
        self.map_labels(mono, false)
    }

    /// Pushes a later gate's generator through the frame: the other way.
    pub fn conjugate_generator<const W: usize>(&self, mono: &BasisString<W>) -> (r: (
        BasisString<W>,
        i8,
    ))
        requires
            self.wf(),
            64 * W <= usize::MAX,
        ensures
            (r.0@, r.1 as int) == self.sent(backward(self.view_tables()), mono@),
            r.1 == 1 || r.1 == -1,
    {
        self.map_labels(mono, true)
    }

    /// One label's image, in either direction.
    fn lookup(&self, q: usize, l: u8, back: bool) -> (r: (u8, i8))
        requires
            self.wf(),
            q < self.view_tables().len(),
            l < 4,
        ensures
            (r.0 as int, r.1 as int) == (if back {
                backward(self.view_tables())
            } else {
                forward(self.view_tables())
            })(q as int, l as int),
            r.0 < 4,
            r.1 == 1 || r.1 == -1,
    {
        let t: &LabelTable = &self.tables[q];
        proof {
            assert(proper(self.tables@[q as int]));
            assert(entry(*t, l as int).0 < 4);
        }
        if !back {
            return t[l as usize];
        }
        proof {
            lemma_source(*t, l as int);
        }
        let mut c: usize = 0;
        while c < 3 && t[c].0 != l
            invariant
                c <= 3,
                forall|k: int| 0 <= k < c ==> (#[trigger] entry(*t, k)).0 != l,
            decreases 3 - c,
        {
            proof {
                assert(entry(*t, c as int).0 == t@[c as int].0);
            }
            c += 1;
        }
        proof {
            let s = source(*t, l as int);
            assert(entry(*t, s).0 == l);
            assert(s >= c);
            assert(entry(*t, c as int).0 == t@[c as int].0);
            assert(c == s);
        }
        (c as u8, t[c].1)
    }

    /// Looks every label up, in either direction.
    fn map_labels<const W: usize>(&self, mono: &BasisString<W>, back: bool) -> (r: (
        BasisString<W>,
        i8,
    ))
        requires
            self.wf(),
            64 * W <= usize::MAX,
        ensures
            (r.0@, r.1 as int) == self.sent(
                if back {
                    backward(self.view_tables())
                } else {
                    forward(self.view_tables())
                },
                mono@,
            ),
            r.1 == 1 || r.1 == -1,
    {
        if self.identity {
            return (*mono, 1);
        }
        let ghost f = if back {
            backward(self.view_tables())
        } else {
            forward(self.view_tables())
        };
        let ghost m = mono@;
        let n_bits: usize = BasisString::<W>::num_bits();
        let n: usize = if self.tables.len() <= n_bits / 2 {
            self.tables.len()
        } else {
            n_bits / 2
        };
        let mut out: BasisString<W> = BasisString::<W>::zero();
        let mut sign: i8 = 1;
        let mut q: usize = 0;
        proof {
            BasisString::lemma_len(*mono);
        }
        while q < n
            invariant
                self.wf(),
                q <= n,
                m == mono@,
                m.len() == 64 * W,
                n == self.covered(64 * W as int),
                64 * W <= usize::MAX,
                f == (if back {
                    backward(self.view_tables())
                } else {
                    forward(self.view_tables())
                }),
                out@.len() == 64 * W,
                sign == 1 || sign == -1,
                sign == relabelled_sign(q as int, f, m),
                forall|p: int|
                    0 <= p < 2 * q ==> #[trigger] out@[p] == label_bit(
                        f(p / 2, label(m, p / 2)).0,
                        p % 2,
                    ),
                forall|p: int| 2 * q <= p < 64 * W ==> !(#[trigger] out@[p]),
            decreases n - q,
        {
            let (x, z): (usize, usize) = (2 * q, 2 * q + 1);
            let ghost was = out@;
            let has_x: bool = mono.test(x);
            let has_z: bool = mono.test(z);
            let l: u8 = (if has_x {
                1
            } else {
                0
            }) + (if has_z {
                2
            } else {
                0
            });
            let (image, s) = self.lookup(q, l, back);
            proof {
                assert(l == label(m, q as int));
                lemma_sign(sign as int, s as int);
            }
            sign = if s == 1 {
                sign
            } else {
                -sign
            };
            if image == 1 || image == 3 {
                out.set(x);
            }
            if image == 2 || image == 3 {
                out.set(z);
            }
            q += 1;
            proof {
                assert forall|p: int| 0 <= p < 2 * q implies #[trigger] out@[p] == label_bit(
                    f(p / 2, label(m, p / 2)).0,
                    p % 2,
                ) by {
                    if p < 2 * q - 2 {
                        assert(out@[p] == was[p]);
                    } else {
                        assert(p / 2 == q - 1);
                        assert(!was[x as int] && !was[z as int]);
                    }
                }
                assert forall|p: int| 2 * q <= p < 64 * W implies !(#[trigger] out@[p]) by {
                    assert(out@[p] == was[p]);
                }
            }
        }
        proof {
            assert(out@ =~= relabelled(self.view_tables().len() as int, f, m));
        }
        (out, sign)
    }

    /// Whether applying this frame can change any term's weight. It never does: a qubit that a
    /// key acts on stays one.
    pub fn apply_changes_weight(&self) -> (r: bool)
        requires
            self.wf(),
        ensures
            !r,
    {
        false
    }
}

/// The label and sign that one table followed by another gives a label.
pub open spec fn followed(a: LabelTable, b: LabelTable, l: int) -> (int, int) {
    let (mid, s) = entry(a, l);
    let (last, t) = entry(b, mid);
    (last, s * t)
}

/// A product of signs is a sign.
proof fn lemma_sign(a: int, b: int)
    requires
        a == 1 || a == -1,
        b == 1 || b == -1,
    ensures
        a * b == (if b == 1 {
            a
        } else {
            -a
        }),
        a * b == 1 || a * b == -1,
{
    assert(a * 1 == a && a * -1 == -a) by (nonlinear_arith);
}

/// One proper table followed by another is proper.
proof fn lemma_followed_proper(a: LabelTable, b: LabelTable, c: LabelTable)
    requires
        proper(a),
        proper(b),
        forall|l: int| 0 <= l < 4 ==> #[trigger] entry(c, l) == followed(a, b, l),
    ensures
        proper(c),
{
    assert forall|l: int| 0 <= l < 4 implies 0 <= (#[trigger] entry(c, l)).0 < 4 && (entry(c, l).1
        == 1 || entry(c, l).1 == -1) by {
        let mid = entry(a, l).0;
        assert(entry(b, mid).0 < 4);
        lemma_sign(entry(a, l).1, entry(b, mid).1);
    }
    assert forall|l: int, k: int|
        0 <= l < 4 && 0 <= k < 4 && (#[trigger] entry(c, l)).0 == (#[trigger] entry(
            c,
            k,
        )).0 implies l == k by {
        let x = entry(a, l).0;
        let y = entry(a, k).0;
        assert(entry(b, x).0 == entry(b, y).0);
    }
    assert(entry(c, 0) == followed(a, b, 0));
    assert(entry(b, 0) == (0int, 1int));
}

/// No qubit from `n` on is acted on.
pub open spec fn within(m: Seq<bool>, n: int) -> bool {
    forall|p: int| 2 * n <= p < m.len() ==> !(#[trigger] m[p])
}

/// A relabelled string's label is the one looked up.
proof fn lemma_relabelled(n: int, f: spec_fn(int, int) -> (int, int), m: Seq<bool>, q: int)
    requires
        0 <= q < n,
        2 * q + 1 < m.len(),
        0 <= f(q, label(m, q)).0 < 4,
    ensures
        label(relabelled(n, f, m), q) == f(q, label(m, q)).0,
{
    let r = relabelled(n, f, m);
    assert((2 * q) / 2 == q && (2 * q) % 2 == 0);
    assert((2 * q + 1) / 2 == q && (2 * q + 1) % 2 == 1);
    assert(r[2 * q] == label_bit(f(q, label(m, q)).0, 0));
    assert(r[2 * q + 1] == label_bit(f(q, label(m, q)).0, 1));
}

/// Strings with the same labels are the same.
proof fn lemma_labels_decide(a: Seq<bool>, b: Seq<bool>, n: int)
    requires
        a.len() == b.len(),
        a.len() % 2 == 0,
        within(a, n),
        within(b, n),
        forall|q: int|
            0 <= q < n && 2 * q + 1 < a.len() ==> #[trigger] label(a, q) == label(b, q),
    ensures
        a == b,
{
    assert forall|p: int| 0 <= p < a.len() implies a[p] == b[p] by {
        if p < 2 * n {
            let q = p / 2;
            assert(label(a, q) == label(b, q));
        }
    }
    assert(a =~= b);
}

/// Reading a key out and pushing it back gives the key, and the signs cancel.
pub proof fn law_directions_undo_each_other(frame: CliffordFrame, m: Seq<bool>)
    requires
        frame.wf(),
        m.len() % 2 == 0,
        within(m, frame.view_tables().len() as int),
    ensures
        ({
            let (image, s) = frame.sent(forward(frame.view_tables()), m);
            let (back, t) = frame.sent(backward(frame.view_tables()), image);
            back == m && s * t == 1
        }),
{
    frame.lemma_wf();
    if frame.trivial() {
        return;
    }
    let tables = frame.view_tables();
    let n = tables.len() as int;
    let f = forward(tables);
    let g = backward(tables);
    let image = relabelled(n, f, m);
    let back = relabelled(n, g, image);
    assert forall|q: int| 0 <= q < n && 2 * q + 1 < m.len() implies #[trigger] label(back, q)
        == label(m, q) by {
        lemma_undone(tables, m, q);
    }
    assert(within(back, n));
    lemma_labels_decide(back, m, n);
    lemma_signs_cancel(tables, m, frame.covered(m.len() as int));
}

/// One qubit's label comes back, with the sign it went out with.
proof fn lemma_undone(tables: Seq<LabelTable>, m: Seq<bool>, q: int)
    requires
        0 <= q < tables.len(),
        2 * q + 1 < m.len(),
        proper(tables[q]),
    ensures
        ({
            let n = tables.len() as int;
            let image = relabelled(n, forward(tables), m);
            let l = label(m, q);
            &&& label(relabelled(n, backward(tables), image), q) == l
            &&& backward(tables)(q, label(image, q)).1 == entry(tables[q], l).1
        }),
{
    let n = tables.len() as int;
    let l = label(m, q);
    let t = tables[q];
    let image = relabelled(n, forward(tables), m);
    assert(0 <= entry(t, l).0 < 4);
    lemma_relabelled(n, forward(tables), m, q);
    lemma_source(t, entry(t, l).0);
    assert(source(t, entry(t, l).0) == l);
    lemma_relabelled(n, backward(tables), image, q);
}

/// The signs picked up on the way back are those picked up on the way out.
proof fn lemma_signs_cancel(tables: Seq<LabelTable>, m: Seq<bool>, k: int)
    requires
        0 <= k <= tables.len(),
        2 * k <= m.len(),
        forall|q: int| 0 <= q < tables.len() ==> proper(#[trigger] tables[q]),
    ensures
        ({
            let image = relabelled(tables.len() as int, forward(tables), m);
            let s = relabelled_sign(k, forward(tables), m);
            let t = relabelled_sign(k, backward(tables), image);
            s * t == 1 && (s == 1 || s == -1) && s == t
        }),
    decreases k,
{
    if k > 0 {
        lemma_signs_cancel(tables, m, k - 1);
        lemma_undone(tables, m, k - 1);
        let image = relabelled(tables.len() as int, forward(tables), m);
        let s = relabelled_sign(k - 1, forward(tables), m);
        let e = entry(tables[k - 1], label(m, k - 1)).1;
        assert(proper(tables[k - 1]));
        assert(e == 1 || e == -1);
        lemma_sign(s, e);
        lemma_sign(s * e, s * e);
    } else {
        assert(1int * 1int == 1) by (nonlinear_arith);
    }
}

/// Different keys have different images.
pub proof fn law_frame_is_injective(frame: CliffordFrame, a: Seq<bool>, b: Seq<bool>)
    requires
        frame.wf(),
        a.len() == b.len(),
        a.len() % 2 == 0,
        within(a, frame.view_tables().len() as int),
        within(b, frame.view_tables().len() as int),
        frame.sent(forward(frame.view_tables()), a).0 == frame.sent(
            forward(frame.view_tables()),
            b,
        ).0,
    ensures
        a == b,
{
    law_directions_undo_each_other(frame, a);
    law_directions_undo_each_other(frame, b);
}

/// A frame moves no key off the qubits it acts on, nor onto others: the support stays.
pub proof fn law_frame_keeps_support(frame: CliffordFrame, m: Seq<bool>)
    requires
        frame.wf(),
        m.len() % 2 == 0,
        within(m, frame.view_tables().len() as int),
    ensures
        bits::pair_any(frame.sent(forward(frame.view_tables()), m).0) == bits::pair_any(m),
{
    frame.lemma_wf();
    if frame.trivial() {
        return;
    }
    let tables = frame.view_tables();
    let n = tables.len() as int;
    let image = relabelled(n, forward(tables), m);
    let was = bits::pair_any(m);
    let now = bits::pair_any(image);
    assert forall|q: int| 0 <= q < m.len() / 2 implies #[trigger] now[q] == was[q] by {
        if q < n {
            let t = tables[q];
            let l = label(m, q);
            assert(proper(t));
            assert(0 <= entry(t, l).0 < 4);
            lemma_relabelled(n, forward(tables), m, q);
            assert(label(image, q) == entry(t, l).0);
            assert(entry(t, 0).0 == 0);
            assert(entry(t, l).0 == 0 <==> l == 0);
        } else {
            assert(!m[2 * q] && !m[2 * q + 1]);
            assert(!image[2 * q] && !image[2 * q + 1]);
        }
    }
    assert(now =~= was);
}

/// Composing tables is conjugating by one and then by the other.
pub proof fn law_compose_is_sequence(
    a: Seq<LabelTable>,
    b: Seq<LabelTable>,
    c: Seq<LabelTable>,
    m: Seq<bool>,
    k: int,
)
    requires
        a.len() == b.len() == c.len(),
        m.len() % 2 == 0,
        0 <= k <= a.len(),
        2 * k <= m.len(),
        forall|q: int| 0 <= q < a.len() ==> proper(#[trigger] a[q]),
        forall|q: int| 0 <= q < b.len() ==> proper(#[trigger] b[q]),
        forall|q: int, l: int|
            0 <= q < a.len() && 0 <= l < 4 ==> #[trigger] entry(c[q], l) == followed(a[q], b[q], l),
    ensures
        ({
            let n = a.len() as int;
            let mid = relabelled(n, forward(a), m);
            &&& relabelled(n, forward(c), m) == relabelled(n, forward(b), mid)
            &&& relabelled_sign(k, forward(c), m) == relabelled_sign(k, forward(a), m)
                * relabelled_sign(k, forward(b), mid)
        }),
    decreases k,
{
    let n = a.len() as int;
    let mid = relabelled(n, forward(a), m);
    assert forall|q: int| 0 <= q < n && 2 * q + 1 < m.len() implies #[trigger] label(mid, q)
        == entry(a[q], label(m, q)).0 by {
        assert(proper(a[q]));
        assert(0 <= entry(a[q], label(m, q)).0 < 4);
        lemma_relabelled(n, forward(a), m, q);
    }
    let once = relabelled(n, forward(c), m);
    let twice = relabelled(n, forward(b), mid);
    assert forall|p: int| 0 <= p < m.len() implies once[p] == twice[p] by {
        if p / 2 < n {
            assert(label(mid, p / 2) == entry(a[p / 2], label(m, p / 2)).0);
            assert(entry(c[p / 2], label(m, p / 2)) == followed(
                a[p / 2],
                b[p / 2],
                label(m, p / 2),
            ));
        }
    }
    assert(once =~= twice);
    if k > 0 {
        law_compose_is_sequence(a, b, c, m, k - 1);
        let q = k - 1;
        let l = label(m, q);
        assert(label(mid, q) == entry(a[q], l).0);
        assert(entry(c[q], l) == followed(a[q], b[q], l));
        let x = relabelled_sign(q, forward(a), m);
        let y = relabelled_sign(q, forward(b), mid);
        let s = entry(a[q], l).1;
        let t = entry(b[q], label(mid, q)).1;
        assert((x * y) * (s * t) == (x * s) * (y * t)) by (nonlinear_arith);
    } else {
        assert(1int * 1int == 1) by (nonlinear_arith);
    }
}

/// The single qubit a generator acts on, if there is exactly one.
pub fn single_qubit_support<const W: usize>(gen: &BasisString<W>) -> (r: Option<usize>)
    requires
        64 * W <= usize::MAX,
    ensures
        match r {
            Some(q) => bits::pair_any(gen@)[q as int] && q < 32 * W && forall|k: int|
                0 <= k < 32 * W && k != q ==> !(#[trigger] bits::pair_any(gen@)[k]),
            None => bits::ones(bits::pair_any(gen@)) != 1,
        },
{
    let ghost any = bits::pair_any(gen@);
    let n: usize = BasisString::<W>::num_bits() / 2;
    let mut found: Option<usize> = None;
    let mut q: usize = 0;
    proof {
        BasisString::lemma_len(*gen);
        assert(any.take(0) =~= Seq::<bool>::empty());
    }
    while q < n
        invariant
            q <= n,
            n == 32 * W,
            64 * W <= usize::MAX,
            gen@.len() == 64 * W,
            any == bits::pair_any(gen@),
            any.len() == n,
            match found {
                Some(f) => f < q && any[f as int] && bits::ones(any.take(q as int)) == 1
                    && forall|k: int| 0 <= k < q && k != f ==> !(#[trigger] any[k]),
                None => bits::ones(any.take(q as int)) == 0,
            },
        decreases n - q,
    {
        proof {
            assert(any.take(q + 1).drop_last() =~= any.take(q as int));
        }
        if gen.test(2 * q) || gen.test(2 * q + 1) {
            if found.is_some() {
                proof {
                    bits::lemma_ones_take(any, q + 1);
                }
                return None;
            }
            proof {
                bits::lemma_ones_none(any.take(q as int));
                assert forall|k: int| 0 <= k < q implies !(#[trigger] any[k]) by {
                    assert(any.take(q as int)[k] == any[k]);
                }
            }
            found = Some(q);
        }
        q += 1;
    }
    proof {
        assert(any.take(n as int) =~= any);
    }
    found
}

/// The string with label `l` on one qubit.
pub open spec fn lone_label(len: nat, qubit: int, l: int) -> Seq<bool> {
    Seq::new(len, |p: int| p / 2 == qubit && label_bit(l, p % 2))
}

/// Where a quarter turn about `g` sends label `l` of a qubit, and its sign.
pub open spec fn turned_label<A: Basis<W>, C: CoeffRepr, const W: usize>(
    g: Seq<bool>,
    qubit: int,
    param: C::GateParam,
    l: int,
) -> Option<(int, int)> {
    let m = lone_label(64 * W as nat, qubit, l);
    if !A::anti(g, m) {
        Some((l, 1int))
    } else {
        match C::turn_sign(param) {
            Some(t) => Some(
                (
                    label(bits::xor(g, m), qubit),
                    t * -basis::product_phase::<A, W>(g, false, m).imaginary(),
                ),
            ),
            None => None,
        }
    }
}

/// The turn about `g` has a sign wherever it moves a label of the qubit.
pub open spec fn turn_is_signed<A: Basis<W>, C: CoeffRepr, const W: usize>(
    g: Seq<bool>,
    qubit: int,
    param: C::GateParam,
    l: int,
) -> bool {
    A::anti(g, lone_label(64 * W as nat, qubit, l)) ==> (C::turn_sign(param) matches Some(t)
        && (t == 1 || t == -1))
}

/// Two strings on one qubit multiply to the string of the label their product has there.
proof fn lemma_lone_product(len: nat, qubit: int, a: int, b: int)
    requires
        0 <= qubit,
        2 * qubit + 1 < len,
        0 <= a < 4,
        0 <= b < 4,
    ensures
        ({
            let m = bits::xor(lone_label(len, qubit, a), lone_label(len, qubit, b));
            &&& 0 <= label(m, qubit) < 4
            &&& m == lone_label(len, qubit, label(m, qubit))
            &&& label(lone_label(len, qubit, a), qubit) == a
        }),
{
    let x = lone_label(len, qubit, a);
    let y = lone_label(len, qubit, b);
    let m = bits::xor(x, y);
    assert((2 * qubit) / 2 == qubit && (2 * qubit) % 2 == 0);
    assert((2 * qubit + 1) / 2 == qubit && (2 * qubit + 1) % 2 == 1);
    let l = label(m, qubit);
    let z = lone_label(len, qubit, l);
    assert forall|p: int| 0 <= p < len implies #[trigger] m[p] == z[p] by {
        assert(m[p] == (x[p] != y[p]));
        if p / 2 == qubit {
            assert(p == 2 * qubit || p == 2 * qubit + 1);
        }
    }
    assert(m =~= z);
}

/// A quarter turn about a generator on one qubit permutes the labels of that qubit up to signs,
/// so its table can be composed into a frame.
pub proof fn law_turn_tables_are_proper<A: Basis<W>, C: CoeffRepr, const W: usize>(
    g: Seq<bool>,
    qubit: int,
    param: C::GateParam,
    t: LabelTable,
)
    requires
        group::multiplies::<A, W>(),
        0 <= qubit,
        2 * qubit + 1 < 64 * W,
        g == lone_label(64 * W as nat, qubit, label(g, qubit)),
        forall|l: int| 0 <= l < 4 ==> #[trigger] turn_is_signed::<A, C, W>(g, qubit, param, l),
        forall|l: int|
            0 <= l < 4 ==> turned_label::<A, C, W>(g, qubit, param, l) == Some(
                #[trigger] entry(t, l),
            ),
    ensures
        proper(t),
{
    let n = 64 * W as nat;
    let lg = label(g, qubit);
    assert(lone_label(n, qubit, 0) =~= bits::none(n));
    group::lemma_anti_never::<A, W>(g);
    assert(turned_label::<A, C, W>(g, qubit, param, 0) == Some(entry(t, 0)));
    assert forall|l: int| 0 <= l < 4 implies 0 <= (#[trigger] entry(t, l)).0 < 4 && (entry(
        t,
        l,
    ).1 == 1 || entry(t, l).1 == -1) by {
        let m = lone_label(n, qubit, l);
        lemma_lone_product(n, qubit, lg, l);
        assert(turned_label::<A, C, W>(g, qubit, param, l) == Some(entry(t, l)));
        if A::anti(g, m) {
            assert(turn_is_signed::<A, C, W>(g, qubit, param, l));
            group::lemma_anti_imaginary::<A, W>(g, m);
            let i = basis::product_phase::<A, W>(g, false, m).imaginary();
            assert(i == 1 || i == -1);
            lemma_sign(C::turn_sign(param)->0, -i);
        }
    }
    assert forall|l: int, k: int|
        0 <= l < 4 && 0 <= k < 4 && (#[trigger] entry(t, l)).0 == (#[trigger] entry(t, k)).0 implies l
        == k by {
        let a = lone_label(n, qubit, l);
        let b = lone_label(n, qubit, k);
        lemma_lone_product(n, qubit, lg, l);
        lemma_lone_product(n, qubit, lg, k);
        lemma_lone_product(n, qubit, l, k);
        lemma_lone_product(n, qubit, k, l);
        assert(turned_label::<A, C, W>(g, qubit, param, l) == Some(entry(t, l)));
        assert(turned_label::<A, C, W>(g, qubit, param, k) == Some(entry(t, k)));
        group::lemma_xor(g, a, b, n);
        group::lemma_xor(g, b, a, n);
        group::lemma_anti_additive::<A, W>(g, g, a);
        group::lemma_anti_additive::<A, W>(g, g, b);
    }
}

/// Builds the table of a quarter turn about a generator on one qubit. `None` if a label does not
/// commute with it and the sign of the turn is unknown.
pub fn clifford_table_for<A: Basis<W>, C: CoeffRepr, const W: usize>(
    gen: &BasisString<W>,
    qubit: usize,
    param: &C::GateParam,
) -> (r: Option<LabelTable>)
    requires
        64 * W <= u32::MAX,
        2 * qubit + 1 < 64 * W,
    ensures
        match r {
            Some(t) => (forall|l: int|
                0 <= l < 4 ==> turned_label::<A, C, W>(gen@, qubit as int, *param, l) == Some(
                    #[trigger] entry(t, l),
                )) && (group::multiplies::<A, W>() && gen@ == lone_label(
                64 * W as nat,
                qubit as int,
                label(gen@, qubit as int),
            ) ==> proper(t)),
            None => exists|l: int|
                0 <= l < 4 && (#[trigger] turned_label::<A, C, W>(
                    gen@,
                    qubit as int,
                    *param,
                    l,
                )) is None,
        },
{
    let ctx = A::make_gen_context(gen);
    let (x, z): (usize, usize) = (2 * qubit, 2 * qubit + 1);
    let mut table: LabelTable = identity_table();
    let mut l: u8 = 0;
    while l < 4
        invariant
            l <= 4,
            64 * W <= u32::MAX,
            x == 2 * qubit,
            z == 2 * qubit + 1,
            z < 64 * W,
            A::generator_of(ctx) == gen@,
            !A::negated(ctx),
            idle_from(table, l as int),
            forall|k: int|
                0 <= k < l ==> turned_label::<A, C, W>(gen@, qubit as int, *param, k) == Some(
                    #[trigger] entry(table, k),
                ),
            forall|k: int|
                0 <= k < l ==> #[trigger] turn_is_signed::<A, C, W>(
                    gen@,
                    qubit as int,
                    *param,
                    k,
                ),
        decreases 4 - l,
    {
        let mut m: BasisString<W> = BasisString::<W>::zero();
        if l == 1 || l == 3 {
            m.set(x);
        }
        if l == 2 || l == 3 {
            m.set(z);
        }
        let ghost was = table;
        proof {
            assert(m@ =~= lone_label(64 * W as nat, qubit as int, l as int));
            BasisString::lemma_len(*gen);
            assert(entry(table, l as int) == (l as int, 1int));
        }
        if A::anticommutes(&ctx, &m) {
            let (out, phase) = A::product(&ctx, &m);
            match C::clifford_branch_sign(param, phase) {
                Some(sign) => {
                    let has_x: bool = out.test(x);
                    let has_z: bool = out.test(z);
                    let image: u8 = (if has_x {
                        1
                    } else {
                        0
                    }) + (if has_z {
                        2
                    } else {
                        0
                    });
                    table[l as usize] = (image, sign);
                    proof {
                        assert(entry(table, l as int) == (image as int, sign as int));
                    }
                },
                None => {
                    proof {
                        assert(turned_label::<A, C, W>(
                            gen@,
                            qubit as int,
                            *param,
                            l as int,
                        ) is None);
                    }
                    return None;
                },
            }
        }
        l += 1;
        proof {
            assert forall|k: int| 0 <= k < l implies turned_label::<A, C, W>(
                gen@,
                qubit as int,
                *param,
                k,
            ) == Some(#[trigger] entry(table, k)) by {
                if k < l - 1 {
                    assert(entry(was, k) == entry(table, k));
                }
            }
            assert forall|k: int| l <= k < 4 implies #[trigger] entry(table, k) == (k, 1int) by {
                assert(entry(was, k) == entry(table, k));
            }
        }
    }
    proof {
        if group::multiplies::<A, W>() && gen@ == lone_label(
            64 * W as nat,
            qubit as int,
            label(gen@, qubit as int),
        ) {
            law_turn_tables_are_proper::<A, C, W>(gen@, qubit as int, *param, table);
        }
    }
    Some(table)
}

/// The table leaves every label from `n` on alone.
spec fn idle_from(t: LabelTable, n: int) -> bool {
    forall|l: int| n <= l < 4 ==> #[trigger] entry(t, l) == (l, 1int)
}

} // verus!
