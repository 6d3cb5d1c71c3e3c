//! Conjugation by a Clifford, described by where it sends the single-bit strings.
//!
//! A list of rows, one signed string per generator, extends to every string by multiplying
//! the rows its bits select. When the rows commute with each other as the generators do, the
//! extension respects products, and everything a conjugation should keep follows.

use crate::basis::Basis;
use crate::bits;
use crate::group;
use crate::group::Element;
use vstd::prelude::*;

verus! {

/// A signed string: its bits, and `1` or `-1`.
pub type Signed = (Seq<bool>, int);

/// A signed string as an element.
pub open spec fn element(r: Signed) -> Element {
    (
        r.0,
        if r.1 == -1 {
            2int
        } else {
            0int
        },
    )
}

/// The sign a power of the imaginary unit reads as: minus one for minus one, else one.
pub open spec fn sign_of(q: int) -> int {
    if q % 4 == 2 {
        -1
    } else {
        1
    }
}

/// The first `len` generators, unsigned.
pub open spec fn unit_rows<const W: usize>(len: nat) -> Seq<Signed> {
    Seq::new(len, |p: int| (bits::single(64 * W as nat, p), 1int))
}

/// The product of the rows selected by the first `n` bits of `m`, highest bit leftmost.
pub open spec fn walk<A: Basis<W>, const W: usize>(rows: Seq<Signed>, m: Seq<bool>, n: int) -> Element
    decreases n,
{
    if n <= 0 {
        (bits::none(64 * W as nat), 0)
    } else {
        let rest = walk::<A, W>(rows, m, n - 1);
        if m[n - 1] {
            group::times::<A, W>(element(rows[n - 1]), rest)
        } else {
            rest
        }
    }
}

/// How many bits of a string select a row.
pub open spec fn reach<const W: usize>(rows: Seq<Signed>) -> int {
    if rows.len() <= 64 * W {
        rows.len() as int
    } else {
        64 * W as int
    }
}

/// Where the rows send the string `m`, as an element.
pub open spec fn image<A: Basis<W>, const W: usize>(rows: Seq<Signed>, m: Seq<bool>) -> Element {
    let n = reach::<W>(rows);
    let r = walk::<A, W>(rows, m, n);
    let s = walk::<A, W>(unit_rows::<W>(rows.len()), m, n);
    (r.0, r.1 - s.1)
}

/// Where the rows send the string `m`, and with what sign.
pub open spec fn carried<A: Basis<W>, const W: usize>(rows: Seq<Signed>, m: Seq<bool>) -> Signed {
    (image::<A, W>(rows, m).0, sign_of(image::<A, W>(rows, m).1))
}

/// The string has no bit at `n` or beyond.
pub open spec fn within(m: Seq<bool>, n: int) -> bool {
    forall|i: int| n <= i < m.len() ==> !#[trigger] m[i]
}

/// The rows are signed strings on the bits they cover that commute with each other as the
/// generators do.
pub open spec fn valid<A: Basis<W>, const W: usize>(rows: Seq<Signed>) -> bool {
    &&& rows.len() <= 64 * W
    &&& forall|p: int|
        0 <= p < rows.len() ==> (#[trigger] rows[p]).0.len() == 64 * W && (rows[p].1 == 1
            || rows[p].1 == -1) && within(rows[p].0, rows.len() as int)
    &&& forall|p: int, q: int|
        0 <= p < rows.len() && 0 <= q < rows.len() ==> A::anti(
            (#[trigger] rows[p]).0,
            (#[trigger] rows[q]).0,
        ) == A::anti(bits::single(64 * W as nat, p), bits::single(64 * W as nat, q))
}

pub proof fn lemma_units_valid<A: Basis<W>, const W: usize>(len: nat)
    requires
        len <= 64 * W,
    ensures
        valid::<A, W>(unit_rows::<W>(len)),
{
    let rows = unit_rows::<W>(len);
    assert forall|p: int| 0 <= p < rows.len() implies (#[trigger] rows[p]).0.len() == 64 * W && (
    rows[p].1 == 1 || rows[p].1 == -1) && within(rows[p].0, rows.len() as int) by {}
}

pub proof fn lemma_walk_len<A: Basis<W>, const W: usize>(rows: Seq<Signed>, m: Seq<bool>, n: int)
    requires
        n <= rows.len(),
        forall|p: int| 0 <= p < rows.len() ==> (#[trigger] rows[p]).0.len() == 64 * W,
    ensures
        walk::<A, W>(rows, m, n).0.len() == 64 * W,
    decreases n,
{
    if n > 0 {
        lemma_walk_len::<A, W>(rows, m, n - 1);
    }
}

/// The walk stays on the bits the rows cover.
pub proof fn lemma_walk_within<A: Basis<W>, const W: usize>(
    rows: Seq<Signed>,
    m: Seq<bool>,
    n: int,
)
    requires
        valid::<A, W>(rows),
        n <= rows.len(),
    ensures
        walk::<A, W>(rows, m, n).0.len() == 64 * W,
        within(walk::<A, W>(rows, m, n).0, rows.len() as int),
    decreases n,
{
    if n > 0 {
        lemma_walk_within::<A, W>(rows, m, n - 1);
        let r = rows[n - 1].0;
        assert(within(r, rows.len() as int));
    }
}

/// The walk reads the first bits only.
pub proof fn lemma_walk_local<A: Basis<W>, const W: usize>(
    rows: Seq<Signed>,
    a: Seq<bool>,
    b: Seq<bool>,
    n: int,
)
    requires
        forall|i: int| 0 <= i < n ==> #[trigger] a[i] == b[i],
    ensures
        walk::<A, W>(rows, a, n) == walk::<A, W>(rows, b, n),
    decreases n,
{
    if n > 0 {
        assert(a[n - 1] == b[n - 1]);
        lemma_walk_local::<A, W>(rows, a, b, n - 1);
    }
}

/// Bits that are not set add nothing to the walk.
pub proof fn lemma_walk_skip<A: Basis<W>, const W: usize>(
    rows: Seq<Signed>,
    m: Seq<bool>,
    a: int,
    b: int,
)
    requires
        0 <= a <= b,
        forall|i: int| a <= i < b ==> !#[trigger] m[i],
    ensures
        walk::<A, W>(rows, m, b) == walk::<A, W>(rows, m, a),
    decreases b - a,
{
    if a < b {
        assert(!m[b - 1]);
        lemma_walk_skip::<A, W>(rows, m, a, b - 1);
    }
}

/// Rows that are the same operators walk to the same operator.
pub proof fn lemma_walk_same<A: Basis<W>, const W: usize>(
    a: Seq<Signed>,
    b: Seq<Signed>,
    m: Seq<bool>,
    n: int,
)
    requires
        n <= a.len(),
        n <= b.len(),
        forall|p: int|
            0 <= p < n ==> group::same(element(#[trigger] a[p]), element(b[p])),
    ensures
        group::same(walk::<A, W>(a, m, n), walk::<A, W>(b, m, n)),
    decreases n,
{
    if n > 0 {
        lemma_walk_same::<A, W>(a, b, m, n - 1);
        assert(group::same(element(a[n - 1]), element(b[n - 1])));
        group::lemma_times_same::<A, W>(
            element(a[n - 1]),
            walk::<A, W>(a, m, n - 1),
            element(b[n - 1]),
            walk::<A, W>(b, m, n - 1),
        );
    }
}

/// The generators multiply to the string whose bits selected them.
pub proof fn lemma_walk_units<A: Basis<W>, const W: usize>(len: nat, m: Seq<bool>, n: int)
    requires
        0 <= n <= len <= 64 * W,
        m.len() == 64 * W,
    ensures
        walk::<A, W>(unit_rows::<W>(len), m, n).0 == Seq::new(
            64 * W as nat,
            |i: int| i < n && m[i],
        ),
    decreases n,
{
    let got = walk::<A, W>(unit_rows::<W>(len), m, n).0;
    let want = Seq::new(64 * W as nat, |i: int| i < n && m[i]);
    if n > 0 {
        lemma_walk_units::<A, W>(len, m, n - 1);
    }
    assert(got =~= want);
}

/// What moving row `p` past the rows above it costs.
pub open spec fn flip_cost<A: Basis<W>, const W: usize>(p: int, m: Seq<bool>, n: int) -> int
    decreases n,
{
    if n <= 0 || n <= p + 1 {
        0
    } else {
        flip_cost::<A, W>(p, m, n - 1) + (if m[n - 1] && A::anti(
            bits::single(64 * W as nat, p),
            bits::single(64 * W as nat, n - 1),
        ) {
            2int
        } else {
            0int
        })
    }
}

/// Multiplying by row `p` flips bit `p`, at a cost that depends on the generators alone.
pub proof fn lemma_flip<A: Basis<W>, const W: usize>(
    rows: Seq<Signed>,
    p: int,
    m: Seq<bool>,
    n: int,
)
    requires
        group::multiplies::<A, W>(),
        valid::<A, W>(rows),
        0 <= p < n <= rows.len(),
        m.len() == 64 * W,
    ensures
        group::same(
            group::times::<A, W>(element(rows[p]), walk::<A, W>(rows, m, n)),
            (
                walk::<A, W>(rows, m.update(p, !m[p]), n).0,
                walk::<A, W>(rows, m.update(p, !m[p]), n).1 + flip_cost::<A, W>(p, m, n),
            ),
        ),
    decreases n,
{
    let flipped = m.update(p, !m[p]);
    let r = element(rows[p]);
    let rest = walk::<A, W>(rows, m, n - 1);
    lemma_walk_len::<A, W>(rows, m, n - 1);
    if n == p + 1 {
        lemma_walk_local::<A, W>(rows, m, flipped, n - 1);
        if m[p] {
            // The row meets itself and cancels.
            group::lemma_assoc::<A, W>(r, r, rest);
            group::lemma_quarters_unit::<A, W>(r.0);
            group::lemma_quarters_unit::<A, W>(rest.0);
            group::lemma_xor(r.0, rest.0, r.0, 64 * W as nat);
            let rr = group::times::<A, W>(r, r);
            assert(group::same(rr, (bits::none(64 * W as nat), 0)));
            group::lemma_times_same::<A, W>(rr, rest, (bits::none(64 * W as nat), 0), rest);
        }
    } else {
        lemma_flip::<A, W>(rows, p, m, n - 1);
        let after = walk::<A, W>(rows, flipped, n - 1);
        lemma_walk_len::<A, W>(rows, flipped, n - 1);
        if m[n - 1] {
            let t = element(rows[n - 1]);
            let tr = group::times::<A, W>(t, r);
            let rt = group::times::<A, W>(r, t);
            let cost = if A::anti(rows[p].0, rows[n - 1].0) {
                2int
            } else {
                0int
            };
            // r (t rest) == (r t) rest == +-(t r) rest == +-t (r rest)
            group::lemma_assoc::<A, W>(r, t, rest);
            group::lemma_commute::<A, W>(r, t);
            group::lemma_times_same::<A, W>(rt, rest, (tr.0, tr.1 + cost), rest);
            group::lemma_assoc::<A, W>(t, r, rest);
            let moved = (after.0, after.1 + flip_cost::<A, W>(p, m, n - 1));
            group::lemma_times_same::<A, W>(t, group::times::<A, W>(r, rest), t, moved);
        }
    }
}

/// The first `n` bits of `a` flipped into `b`.
pub open spec fn flipped_into(a: Seq<bool>, b: Seq<bool>, n: int) -> Seq<bool> {
    Seq::new(
        b.len(),
        |i: int|
            if i < n {
                a[i] != b[i]
            } else {
                b[i]
            },
    )
}

/// What multiplying two walks costs.
pub open spec fn product_cost<A: Basis<W>, const W: usize>(
    a: Seq<bool>,
    b: Seq<bool>,
    n: int,
    len: int,
) -> int
    decreases n,
{
    if n <= 0 {
        0
    } else {
        product_cost::<A, W>(a, b, n - 1, len) + (if a[n - 1] {
            flip_cost::<A, W>(n - 1, flipped_into(a, b, n - 1), len)
        } else {
            0
        })
    }
}

/// Walks multiply at a cost that depends on the generators alone.
pub proof fn lemma_walk_product<A: Basis<W>, const W: usize>(
    rows: Seq<Signed>,
    a: Seq<bool>,
    b: Seq<bool>,
    n: int,
)
    requires
        group::multiplies::<A, W>(),
        valid::<A, W>(rows),
        0 <= n <= rows.len(),
        a.len() == 64 * W,
        b.len() == 64 * W,
    ensures
        group::same(
            group::times::<A, W>(
                walk::<A, W>(rows, a, n),
                walk::<A, W>(rows, b, rows.len() as int),
            ),
            (
                walk::<A, W>(rows, flipped_into(a, b, n), rows.len() as int).0,
                walk::<A, W>(rows, flipped_into(a, b, n), rows.len() as int).1 + product_cost::<
                    A,
                    W,
                >(a, b, n, rows.len() as int),
            ),
        ),
    decreases n,
{
    let len = rows.len() as int;
    let wb = walk::<A, W>(rows, b, len);
    lemma_walk_len::<A, W>(rows, b, len);
    if n == 0 {
        assert(flipped_into(a, b, 0) =~= b);
        group::lemma_xor(wb.0, wb.0, wb.0, 64 * W as nat);
        group::lemma_quarters_unit::<A, W>(wb.0);
    } else {
        let wa = walk::<A, W>(rows, a, n - 1);
        lemma_walk_len::<A, W>(rows, a, n - 1);
        lemma_walk_product::<A, W>(rows, a, b, n - 1);
        let so_far = flipped_into(a, b, n - 1);
        let w = walk::<A, W>(rows, so_far, len);
        lemma_walk_len::<A, W>(rows, so_far, len);
        if a[n - 1] {
            let r = element(rows[n - 1]);
            group::lemma_assoc::<A, W>(r, wa, wb);
            let c = product_cost::<A, W>(a, b, n - 1, len);
            group::lemma_times_same::<A, W>(
                r,
                group::times::<A, W>(wa, wb),
                r,
                (w.0, w.1 + c),
            );
            lemma_flip::<A, W>(rows, n - 1, so_far, len);
            assert(so_far.update(n - 1, !so_far[n - 1]) =~= flipped_into(a, b, n));
        } else {
            assert(flipped_into(a, b, n) =~= so_far);
        }
    }
}

/// The image respects products.
pub proof fn lemma_image_product<A: Basis<W>, const W: usize>(
    rows: Seq<Signed>,
    a: Seq<bool>,
    b: Seq<bool>,
)
    requires
        group::multiplies::<A, W>(),
        valid::<A, W>(rows),
        a.len() == 64 * W,
        b.len() == 64 * W,
        within(a, rows.len() as int),
        within(b, rows.len() as int),
    ensures
        group::same(
            group::times::<A, W>(image::<A, W>(rows, a), image::<A, W>(rows, b)),
            (
                image::<A, W>(rows, bits::xor(a, b)).0,
                image::<A, W>(rows, bits::xor(a, b)).1 + A::product_quarters(a, b),
            ),
        ),
        within(bits::xor(a, b), rows.len() as int),
{
    let len = rows.len();
    let units = unit_rows::<W>(len);
    let c = bits::xor(a, b);
    lemma_units_valid::<A, W>(len);
    lemma_walk_product::<A, W>(rows, a, b, len as int);
    lemma_walk_product::<A, W>(units, a, b, len as int);
    assert(flipped_into(a, b, len as int) =~= c);
    lemma_walk_units::<A, W>(len, a, len as int);
    lemma_walk_units::<A, W>(len, b, len as int);
    assert(Seq::new(64 * W as nat, |i: int| i < len && a[i]) =~= a);
    assert(Seq::new(64 * W as nat, |i: int| i < len && b[i]) =~= b);
}

/// The empty string is carried to itself.
proof fn lemma_image_none<A: Basis<W>, const W: usize>(rows: Seq<Signed>)
    requires
        rows.len() <= 64 * W,
    ensures
        image::<A, W>(rows, bits::none(64 * W as nat)) == (bits::none(64 * W as nat), 0int),
{
    let none = bits::none(64 * W as nat);
    lemma_walk_skip::<A, W>(rows, none, 0, rows.len() as int);
    lemma_walk_skip::<A, W>(unit_rows::<W>(rows.len()), none, 0, rows.len() as int);
}

/// An even exponent is a sign.
proof fn lemma_even_is_sign(q: int, x: int, y: int)
    requires
        (2 * q + x - y) % 4 == 0,
        x % 4 == 0,
        y % 4 == 0,
    ensures
        q % 2 == 0,
        (q - (if sign_of(q) == -1 {
            2int
        } else {
            0int
        })) % 4 == 0,
{
}

/// The image of a string on the covered bits lies on them, and is a signed string.
pub proof fn lemma_image_signed<A: Basis<W>, const W: usize>(rows: Seq<Signed>, a: Seq<bool>)
    requires
        group::multiplies::<A, W>(),
        valid::<A, W>(rows),
        a.len() == 64 * W,
        within(a, rows.len() as int),
    ensures
        image::<A, W>(rows, a).0.len() == 64 * W,
        within(image::<A, W>(rows, a).0, rows.len() as int),
        image::<A, W>(rows, a).1 % 2 == 0,
        group::same(image::<A, W>(rows, a), element(carried::<A, W>(rows, a))),
{
    let n = 64 * W as nat;
    lemma_walk_within::<A, W>(rows, a, rows.len() as int);
    let i = image::<A, W>(rows, a);
    assert(bits::xor(a, a) == bits::none(n)) by {
        group::lemma_xor(a, a, a, n);
    }
    lemma_image_product::<A, W>(rows, a, a);
    lemma_image_none::<A, W>(rows);
    let x = A::product_quarters(i.0, i.0);
    let y = A::product_quarters(a, a);
    assert(x % 4 == 0) by {
        group::lemma_quarters_unit::<A, W>(i.0);
    }
    assert(y % 4 == 0) by {
        group::lemma_quarters_unit::<A, W>(a);
    }
    assert((i.1 + i.1 + x - (0 + y)) % 4 == 0);
    assert((2 * i.1 + x - y) % 4 == 0);
    lemma_even_is_sign(i.1, x, y);
}

/// Conjugation keeps commutation relations.
pub proof fn lemma_image_anti<A: Basis<W>, const W: usize>(
    rows: Seq<Signed>,
    a: Seq<bool>,
    b: Seq<bool>,
)
    requires
        group::multiplies::<A, W>(),
        valid::<A, W>(rows),
        a.len() == 64 * W,
        b.len() == 64 * W,
        within(a, rows.len() as int),
        within(b, rows.len() as int),
    ensures
        A::anti(image::<A, W>(rows, a).0, image::<A, W>(rows, b).0) == A::anti(a, b),
{
    lemma_image_product::<A, W>(rows, a, b);
    lemma_image_product::<A, W>(rows, b, a);
    lemma_image_signed::<A, W>(rows, a);
    lemma_image_signed::<A, W>(rows, b);
    group::lemma_xor(a, b, a, 64 * W as nat);
    group::lemma_quarters_commute::<A, W>(a, b);
    group::lemma_quarters_commute::<A, W>(
        image::<A, W>(rows, a).0,
        image::<A, W>(rows, b).0,
    );
}

/// A signed string carried through a list of rows.
pub open spec fn carried_row<A: Basis<W>, const W: usize>(rows: Seq<Signed>, r: Signed) -> Signed {
    (carried::<A, W>(rows, r.0).0, carried::<A, W>(rows, r.0).1 * r.1)
}

/// One list of rows carried through another: first `rows`, then `next`.
pub open spec fn composed<A: Basis<W>, const W: usize>(
    rows: Seq<Signed>,
    next: Seq<Signed>,
) -> Seq<Signed> {
    Seq::new(rows.len(), |p: int| carried_row::<A, W>(next, rows[p]))
}

/// The walk of a composition is the walk, carried.
proof fn lemma_walk_composed<A: Basis<W>, const W: usize>(
    rows: Seq<Signed>,
    next: Seq<Signed>,
    m: Seq<bool>,
    n: int,
)
    requires
        group::multiplies::<A, W>(),
        valid::<A, W>(rows),
        valid::<A, W>(next),
        rows.len() == next.len(),
        0 <= n <= rows.len(),
    ensures
        group::same(
            walk::<A, W>(composed::<A, W>(rows, next), m, n),
            (
                image::<A, W>(next, walk::<A, W>(rows, m, n).0).0,
                image::<A, W>(next, walk::<A, W>(rows, m, n).0).1 + walk::<A, W>(rows, m, n).1,
            ),
        ),
    decreases n,
{
    let both = composed::<A, W>(rows, next);
    let len = rows.len() as int;
    if n == 0 {
        lemma_image_none::<A, W>(next);
    } else {
        lemma_walk_composed::<A, W>(rows, next, m, n - 1);
        let rest = walk::<A, W>(rows, m, n - 1);
        lemma_walk_within::<A, W>(rows, m, n - 1);
        if m[n - 1] {
            let r = rows[n - 1];
            let ir = image::<A, W>(next, r.0);
            lemma_image_signed::<A, W>(next, r.0);
            lemma_image_product::<A, W>(next, r.0, rest.0);
            let ie = (ir.0, ir.1 + element(r).1);
            assert(group::same(element(both[n - 1]), ie)) by {
                assert(both[n - 1] == carried_row::<A, W>(next, r));
                assert(group::same(ir, element(carried::<A, W>(next, r.0))));
            }
            let irest = image::<A, W>(next, rest.0);
            group::lemma_times_same::<A, W>(
                element(both[n - 1]),
                walk::<A, W>(both, m, n - 1),
                ie,
                (irest.0, irest.1 + rest.1),
            );
        }
    }
}

/// Composing two conjugations is conjugating in sequence.
pub proof fn lemma_composed<A: Basis<W>, const W: usize>(
    rows: Seq<Signed>,
    next: Seq<Signed>,
    m: Seq<bool>,
)
    requires
        group::multiplies::<A, W>(),
        valid::<A, W>(rows),
        valid::<A, W>(next),
        rows.len() == next.len(),
        m.len() == 64 * W,
        within(m, rows.len() as int),
    ensures
        carried::<A, W>(composed::<A, W>(rows, next), m) == carried_row::<A, W>(
            next,
            carried::<A, W>(rows, m),
        ),
{
    let len = rows.len() as int;
    let both = composed::<A, W>(rows, next);
    lemma_walk_composed::<A, W>(rows, next, m, len);
    lemma_walk_within::<A, W>(rows, m, len);
    lemma_image_signed::<A, W>(rows, m);
    let i = image::<A, W>(rows, m);
    lemma_image_signed::<A, W>(next, i.0);
}

/// A composition of valid lists is valid.
pub proof fn lemma_composed_valid<A: Basis<W>, const W: usize>(
    rows: Seq<Signed>,
    next: Seq<Signed>,
)
    requires
        group::multiplies::<A, W>(),
        valid::<A, W>(rows),
        valid::<A, W>(next),
        rows.len() == next.len(),
    ensures
        valid::<A, W>(composed::<A, W>(rows, next)),
{
    let both = composed::<A, W>(rows, next);
    assert forall|p: int| 0 <= p < both.len() implies (#[trigger] both[p]).0.len() == 64 * W && (
    both[p].1 == 1 || both[p].1 == -1) && within(both[p].0, both.len() as int) by {
        assert(rows[p].0.len() == 64 * W);
        lemma_image_signed::<A, W>(next, rows[p].0);
    }
    assert forall|p: int, q: int| 0 <= p < both.len() && 0 <= q < both.len() implies A::anti(
        (#[trigger] both[p]).0,
        (#[trigger] both[q]).0,
    ) == A::anti(bits::single(64 * W as nat, p), bits::single(64 * W as nat, q)) by {
        assert(rows[p].0.len() == 64 * W && rows[q].0.len() == 64 * W);
        lemma_image_anti::<A, W>(next, rows[p].0, rows[q].0);
    }
}

/// The generators carry every string on the bits they cover to itself.
pub proof fn lemma_units_carry<A: Basis<W>, const W: usize>(len: nat, m: Seq<bool>)
    requires
        len <= 64 * W,
        m.len() == 64 * W,
        within(m, len as int),
    ensures
        carried::<A, W>(unit_rows::<W>(len), m) == (m, 1int),
{
    lemma_walk_units::<A, W>(len, m, len as int);
    assert(Seq::new(64 * W as nat, |i: int| i < len && m[i]) =~= m);
}

/// `back` undoes `rows` on the generators.
pub open spec fn undoes<A: Basis<W>, const W: usize>(back: Seq<Signed>, rows: Seq<Signed>) -> bool {
    composed::<A, W>(rows, back) == unit_rows::<W>(rows.len())
}

/// What undoes the rows on the generators undoes them on every string.
pub proof fn lemma_undone<A: Basis<W>, const W: usize>(
    back: Seq<Signed>,
    rows: Seq<Signed>,
    m: Seq<bool>,
)
    requires
        group::multiplies::<A, W>(),
        valid::<A, W>(rows),
        valid::<A, W>(back),
        rows.len() == back.len(),
        undoes::<A, W>(back, rows),
        m.len() == 64 * W,
        within(m, rows.len() as int),
    ensures
        carried_row::<A, W>(back, carried::<A, W>(rows, m)) == (m, 1int),
{
    lemma_composed::<A, W>(rows, back, m);
    lemma_units_carry::<A, W>(rows.len(), m);
}

/// Undoing a composition undoes its parts in turn.
pub proof fn lemma_undoes_composed<A: Basis<W>, const W: usize>(
    rows: Seq<Signed>,
    back: Seq<Signed>,
    next: Seq<Signed>,
    next_back: Seq<Signed>,
)
    requires
        group::multiplies::<A, W>(),
        valid::<A, W>(rows),
        valid::<A, W>(back),
        valid::<A, W>(next),
        valid::<A, W>(next_back),
        rows.len() == back.len(),
        rows.len() == next.len(),
        rows.len() == next_back.len(),
        undoes::<A, W>(back, rows),
        undoes::<A, W>(next_back, next),
    ensures
        undoes::<A, W>(
            composed::<A, W>(next_back, back),
            composed::<A, W>(rows, next),
        ),
{
    let there = composed::<A, W>(rows, next);
    let again = composed::<A, W>(next_back, back);
    let units = unit_rows::<W>(rows.len());
    let whole = composed::<A, W>(there, again);
    assert forall|p: int| 0 <= p < rows.len() implies #[trigger] whole[p] == units[p] by {
        let r = rows[p];
        let forward = carried::<A, W>(next, r.0);
        lemma_image_signed::<A, W>(next, r.0);
        // back (next_back (next r)) == back r == the generator
        lemma_composed::<A, W>(next_back, back, forward.0);
        lemma_undone::<A, W>(next_back, next, r.0);
        assert(composed::<A, W>(rows, back)[p] == units[p]);
        assert(carried_row::<A, W>(back, r) == units[p]);
        let returned = carried::<A, W>(next_back, forward.0);
        assert(returned.0 == r.0);
        assert(returned.1 * forward.1 == 1);
        assert(there[p] == (forward.0, forward.1 * r.1));
        let c = carried::<A, W>(again, forward.0);
        assert(c == carried_row::<A, W>(back, returned));
        let b = carried::<A, W>(back, r.0);
        assert(c.1 == b.1 * returned.1);
        assert(b.1 * r.1 == 1);
        assert(whole[p].1 == c.1 * (forward.1 * r.1));
        assert(forward.1 == 1 || forward.1 == -1);
        assert(r.1 == 1 || r.1 == -1);
        assert(b.1 == 1 || b.1 == -1);
    }
    assert(whole =~= units);
}

/// Conjugation sends no two strings to one.
pub proof fn lemma_injective<A: Basis<W>, const W: usize>(
    back: Seq<Signed>,
    rows: Seq<Signed>,
    a: Seq<bool>,
    b: Seq<bool>,
)
    requires
        group::multiplies::<A, W>(),
        valid::<A, W>(rows),
        valid::<A, W>(back),
        rows.len() == back.len(),
        undoes::<A, W>(back, rows),
        a.len() == 64 * W,
        b.len() == 64 * W,
        within(a, rows.len() as int),
        within(b, rows.len() as int),
        carried::<A, W>(rows, a).0 == carried::<A, W>(rows, b).0,
    ensures
        a == b,
{
    lemma_undone::<A, W>(back, rows, a);
    lemma_undone::<A, W>(back, rows, b);
}

/// What a quarter turn about `g`, with sine `turn`, makes of a string: itself where the two
/// commute, and `turn` times the imaginary unit times their product where they do not.
pub open spec fn turned<A: Basis<W>, const W: usize>(
    g: Seq<bool>,
    turn: int,
    k: Seq<bool>,
) -> Element {
    if A::anti(g, k) {
        (
            bits::xor(g, k),
            A::product_quarters(g, k) + 1 + (if turn == -1 {
                2int
            } else {
                0int
            }),
        )
    } else {
        (k, 0)
    }
}

/// A quarter turn respects products.
proof fn lemma_turned_product<A: Basis<W>, const W: usize>(
    g: Seq<bool>,
    turn: int,
    a: Seq<bool>,
    b: Seq<bool>,
)
    requires
        group::multiplies::<A, W>(),
        g.len() == 64 * W,
        a.len() == 64 * W,
        b.len() == 64 * W,
    ensures
        group::same(
            group::times::<A, W>(turned::<A, W>(g, turn, a), turned::<A, W>(g, turn, b)),
            (
                turned::<A, W>(g, turn, bits::xor(a, b)).0,
                turned::<A, W>(g, turn, bits::xor(a, b)).1 + A::product_quarters(a, b),
            ),
        ),
{
    let n = 64 * W as nat;
    let s = if turn == -1 {
        2int
    } else {
        0int
    };
    let none = bits::none(n);
    let c = bits::xor(a, b);
    group::lemma_anti_additive::<A, W>(g, a, b);
    group::lemma_xor(g, a, b, n);
    group::lemma_xor(a, g, b, n);
    group::lemma_xor(b, g, a, n);
    if A::anti(g, a) && A::anti(g, b) {
        let eg: Element = (g, 0);
        let ea: Element = (a, 0);
        let eb: Element = (b, 0);
        let ga = group::times::<A, W>(eg, ea);
        let gb = group::times::<A, W>(eg, eb);
        let ag = group::times::<A, W>(ea, eg);
        let ab = group::times::<A, W>(ea, eb);
        // (g a)(g b) == g (a (g b)) == g ((a g) b) == -g ((g a) b) == -g (g (a b)) == -(a b)
        group::lemma_assoc::<A, W>(eg, ea, gb);
        group::lemma_assoc::<A, W>(ea, eg, eb);
        group::lemma_commute::<A, W>(ea, eg);
        group::lemma_anti_symmetric::<A, W>(g, a);
        let step1 = group::times::<A, W>(ea, gb);
        let step2 = group::times::<A, W>(ag, eb);
        let step3 = group::times::<A, W>((ga.0, ga.1 + 2), eb);
        group::lemma_times_same::<A, W>(ag, eb, (ga.0, ga.1 + 2), eb);
        group::lemma_assoc::<A, W>(eg, ea, eb);
        let step4 = group::times::<A, W>(eg, ab);
        assert(group::same(step1, (step4.0, step4.1 + 2)));
        group::lemma_times_same::<A, W>(eg, step1, eg, (step4.0, step4.1 + 2));
        group::lemma_assoc::<A, W>(eg, eg, ab);
        group::lemma_quarters_unit::<A, W>(g);
        group::lemma_quarters_unit::<A, W>(c);
        let gg = group::times::<A, W>(eg, eg);
        assert(group::same(gg, (none, 0)));
        group::lemma_times_same::<A, W>(gg, ab, (none, 0), ab);
        group::lemma_xor(c, c, c, n);
        assert(group::same(group::times::<A, W>(ga, gb), (ab.0, ab.1 + 2)));
    } else if A::anti(g, a) {
        group::lemma_quarters_assoc::<A, W>(g, a, b);
    } else if A::anti(g, b) {
        group::lemma_quarters_assoc::<A, W>(a, g, b);
        group::lemma_quarters_assoc::<A, W>(g, a, b);
        group::lemma_quarters_commute::<A, W>(g, a);
    }
}

/// The rows of a quarter turn about `g` with sine `turn`.
pub open spec fn turn_rows<A: Basis<W>, const W: usize>(
    g: Seq<bool>,
    turn: int,
    len: nat,
) -> Seq<Signed> {
    Seq::new(
        len,
        |p: int|
            {
                let e = bits::single(64 * W as nat, p);
                if p < 64 * W && A::anti(g, e) {
                    (
                        bits::xor(g, e),
                        turn * -crate::basis::phase_from(A::product_quarters(g, e)).imaginary(),
                    )
                } else {
                    (e, 1int)
                }
            },
    )
}

/// A row of a quarter turn is the turned generator.
proof fn lemma_turn_row<A: Basis<W>, const W: usize>(g: Seq<bool>, turn: int, len: nat, p: int)
    requires
        group::multiplies::<A, W>(),
        turn == 1 || turn == -1,
        g.len() == 64 * W,
        0 <= p < len <= 64 * W,
    ensures
        group::same(
            element(turn_rows::<A, W>(g, turn, len)[p]),
            turned::<A, W>(g, turn, bits::single(64 * W as nat, p)),
        ),
        turn_rows::<A, W>(g, turn, len)[p].1 == 1 || turn_rows::<A, W>(g, turn, len)[p].1 == -1,
{
    let e = bits::single(64 * W as nat, p);
    if A::anti(g, e) {
        group::lemma_anti_imaginary::<A, W>(g, e);
        let q = A::product_quarters(g, e);
        let im = crate::basis::phase_from(q).imaginary();
        assert(q % 4 == 1 || q % 4 == 3);
        if q % 4 == 1 {
            assert(im == 1);
            assert(turn * -im == -turn) by (nonlinear_arith)
                requires
                    im == 1,
            ;
        } else {
            assert(im == -1);
            assert(turn * -im == turn) by (nonlinear_arith)
                requires
                    im == -1,
            ;
        }
    }
}

/// The rows of a quarter turn are valid.
pub proof fn lemma_turn_valid<A: Basis<W>, const W: usize>(g: Seq<bool>, turn: int, len: nat)
    requires
        group::multiplies::<A, W>(),
        turn == 1 || turn == -1,
        g.len() == 64 * W,
        len <= 64 * W,
        within(g, len as int),
    ensures
        valid::<A, W>(turn_rows::<A, W>(g, turn, len)),
{
    let rows = turn_rows::<A, W>(g, turn, len);
    let n = 64 * W as nat;
    assert forall|p: int| 0 <= p < rows.len() implies (#[trigger] rows[p]).0.len() == 64 * W && (
    rows[p].1 == 1 || rows[p].1 == -1) && within(rows[p].0, rows.len() as int) by {
        lemma_turn_row::<A, W>(g, turn, len, p);
    }
    assert forall|p: int, q: int| 0 <= p < rows.len() && 0 <= q < rows.len() implies A::anti(
        (#[trigger] rows[p]).0,
        (#[trigger] rows[q]).0,
    ) == A::anti(bits::single(n, p), bits::single(n, q)) by {
        let a = bits::single(n, p);
        let b = bits::single(n, q);
        lemma_turn_row::<A, W>(g, turn, len, p);
        lemma_turn_row::<A, W>(g, turn, len, q);
        lemma_turned_product::<A, W>(g, turn, a, b);
        lemma_turned_product::<A, W>(g, turn, b, a);
        group::lemma_xor(a, b, a, n);
        group::lemma_quarters_commute::<A, W>(a, b);
        group::lemma_quarters_commute::<A, W>(rows[p].0, rows[q].0);
    }
}

/// The rows of a quarter turn carry every string as the turn does.
proof fn lemma_turn_walk<A: Basis<W>, const W: usize>(
    g: Seq<bool>,
    turn: int,
    len: nat,
    m: Seq<bool>,
    n: int,
)
    requires
        group::multiplies::<A, W>(),
        turn == 1 || turn == -1,
        g.len() == 64 * W,
        m.len() == 64 * W,
        0 <= n <= len <= 64 * W,
    ensures
        ({
            let w = walk::<A, W>(turn_rows::<A, W>(g, turn, len), m, n);
            let s = walk::<A, W>(unit_rows::<W>(len), m, n);
            let t = turned::<A, W>(g, turn, s.0);
            group::same(w, (t.0, t.1 + s.1))
        }),
    decreases n,
{
    let rows = turn_rows::<A, W>(g, turn, len);
    let units = unit_rows::<W>(len);
    let none = bits::none(64 * W as nat);
    if n == 0 {
        group::lemma_anti_never::<A, W>(g);
    } else {
        lemma_turn_walk::<A, W>(g, turn, len, m, n - 1);
        let s = walk::<A, W>(units, m, n - 1);
        lemma_walk_units::<A, W>(len, m, n - 1);
        let t = turned::<A, W>(g, turn, s.0);
        if m[n - 1] {
            let e = bits::single(64 * W as nat, n - 1);
            lemma_turn_row::<A, W>(g, turn, len, n - 1);
            let te = turned::<A, W>(g, turn, e);
            group::lemma_times_same::<A, W>(
                element(rows[n - 1]),
                walk::<A, W>(rows, m, n - 1),
                te,
                (t.0, t.1 + s.1),
            );
            lemma_turned_product::<A, W>(g, turn, e, s.0);
        }
    }
}

/// The rows of a quarter turn carry every string as the turn does, with its sign.
pub proof fn lemma_turn_carries<A: Basis<W>, const W: usize>(
    g: Seq<bool>,
    turn: int,
    len: nat,
    m: Seq<bool>,
)
    requires
        group::multiplies::<A, W>(),
        turn == 1 || turn == -1,
        g.len() == 64 * W,
        m.len() == 64 * W,
        len <= 64 * W,
        within(g, len as int),
        within(m, len as int),
    ensures
        carried::<A, W>(turn_rows::<A, W>(g, turn, len), m) == (if A::anti(g, m) {
            (
                bits::xor(g, m),
                turn * -crate::basis::phase_from(A::product_quarters(g, m)).imaginary(),
            )
        } else {
            (m, 1int)
        }),
{
    let rows = turn_rows::<A, W>(g, turn, len);
    lemma_turn_valid::<A, W>(g, turn, len);
    lemma_turn_walk::<A, W>(g, turn, len, m, len as int);
    lemma_walk_units::<A, W>(len, m, len as int);
    assert(Seq::new(64 * W as nat, |i: int| i < len && m[i]) =~= m);
    lemma_image_signed::<A, W>(rows, m);
    let i = image::<A, W>(rows, m);
    let t = turned::<A, W>(g, turn, m);
    assert(group::same(i, t));
    if A::anti(g, m) {
        group::lemma_anti_imaginary::<A, W>(g, m);
        let q = A::product_quarters(g, m);
        let im = crate::basis::phase_from(q).imaginary();
        assert(q % 4 == 1 || q % 4 == 3);
        if q % 4 == 1 {
            assert(turn * -im == -turn) by (nonlinear_arith)
                requires
                    im == 1,
            ;
        } else {
            assert(turn * -im == turn) by (nonlinear_arith)
                requires
                    im == -1,
            ;
        }
    }
}

/// A quarter turn and its opposite undo each other.
pub proof fn lemma_turn_undoes<A: Basis<W>, const W: usize>(g: Seq<bool>, turn: int, len: nat)
    requires
        group::multiplies::<A, W>(),
        turn == 1 || turn == -1,
        g.len() == 64 * W,
        len <= 64 * W,
        within(g, len as int),
    ensures
        undoes::<A, W>(turn_rows::<A, W>(g, -turn, len), turn_rows::<A, W>(g, turn, len)),
{
    let n = 64 * W as nat;
    let there = turn_rows::<A, W>(g, turn, len);
    let back = turn_rows::<A, W>(g, -turn, len);
    let whole = composed::<A, W>(there, back);
    let units = unit_rows::<W>(len);
    lemma_turn_valid::<A, W>(g, turn, len);
    lemma_turn_valid::<A, W>(g, -turn, len);
    assert forall|p: int| 0 <= p < len implies #[trigger] whole[p] == units[p] by {
        let e = bits::single(n, p);
        lemma_turn_row::<A, W>(g, turn, len, p);
        let k = there[p].0;
        assert(k.len() == 64 * W && within(k, len as int));
        lemma_turn_walk::<A, W>(g, -turn, len, k, len as int);
        lemma_walk_units::<A, W>(len, k, len as int);
        assert(Seq::new(n, |i: int| i < len && k[i]) =~= k);
        lemma_image_signed::<A, W>(back, k);
        let i = image::<A, W>(back, k);
        let t = turned::<A, W>(g, -turn, k);
        assert(group::same(i, t));
        if A::anti(g, e) {
            group::lemma_anti_additive::<A, W>(g, g, e);
            group::lemma_anti_never::<A, W>(g);
            group::lemma_xor(g, e, g, n);
            group::lemma_quarters_assoc::<A, W>(g, g, e);
            group::lemma_quarters_unit::<A, W>(g);
            group::lemma_quarters_unit::<A, W>(e);
            assert((i.1 + element(there[p]).1) % 4 == 0);
            assert(i.0 == e);
            if there[p].1 == -1 {
                assert(i.1 % 4 == 2);
            } else {
                assert(i.1 % 4 == 0);
            }
        } else {
            assert(k == e);
            assert(i.0 == e && i.1 % 4 == 0);
        }
        let c = carried::<A, W>(back, k);
        assert(c.0 == e);
        assert(c.1 * there[p].1 == 1) by {
            assert(c.1 == there[p].1);
        }
        assert(whole[p] == (c.0, c.1 * there[p].1));
    }
    assert(whole =~= units);
}

} // verus!
