//! The Pauli basis: bits `2k` and `2k + 1` of a string are the X and the Z component of
//! qubit `k`.

use crate::basis::{Basis, BasisKind, Phase};
use crate::bits;
use crate::group;
use crate::strings::BasisString;
use vstd::prelude::*;

verus! {

/// Mask selecting the even bit of every pair.
const EVEN_MASK: u64 = 0x5555_5555_5555_5555;

/// The X components of a string, qubit by qubit.
pub open spec fn x_plane(m: Seq<bool>) -> Seq<bool> {
    Seq::new(m.len() / 2, |k: int| m[2 * k])
}

/// The Z components of a string, qubit by qubit.
pub open spec fn z_plane(m: Seq<bool>) -> Seq<bool> {
    Seq::new(m.len() / 2, |k: int| m[2 * k + 1])
}

/// How many qubits a string acts on with Y.
pub open spec fn y_count(m: Seq<bool>) -> nat {
    bits::ones(bits::both(x_plane(m), z_plane(m)))
}

/// How many qubits the first string acts on with a Z component and the second with an X
/// component.
pub open spec fn zx_count(a: Seq<bool>, b: Seq<bool>) -> nat {
    bits::ones(bits::both(z_plane(a), x_plane(b)))
}

/// The exponent of the imaginary unit in the product of two Pauli strings.
pub open spec fn pauli_quarters(a: Seq<bool>, b: Seq<bool>) -> int {
    y_count(a) + y_count(b) - y_count(bits::xor(a, b)) + 2 * zx_count(a, b)
}

/// Two Pauli strings anticommute.
pub open spec fn pauli_anti(a: Seq<bool>, b: Seq<bool>) -> bool {
    bits::odd(bits::both(bits::pair_exchange(a), b))
}

/// The diagonal expectation of a Pauli string: nothing if it flips a qubit, else the parity of
/// its Z components on the occupied qubits.
pub open spec fn pauli_trace(m: Seq<bool>, fock: Seq<u64>) -> i8 {
    if bits::ones(x_plane(m)) > 0 {
        0
    } else if bits::odd(
        Seq::new(m.len() / 2, |k: int| m[2 * k + 1] && bits::bit_at(fock, k)),
    ) {
        -1i8
    } else {
        1
    }
}

/// A string's bits are its two planes'.
proof fn lemma_ones_planes(s: Seq<bool>)
    requires
        s.len() % 2 == 0,
    ensures
        bits::ones(s) == bits::ones(x_plane(s)) + bits::ones(z_plane(s)),
    decreases s.len(),
{
    if s.len() > 0 {
        let n = s.len();
        let d = s.take(n - 2);
        lemma_ones_planes(d);
        bits::lemma_ones_last_pair(s);
        assert(x_plane(s).drop_last() =~= x_plane(d));
        assert(z_plane(s).drop_last() =~= z_plane(d));
        assert(2 * (n / 2 - 1) == n - 2);
        assert(x_plane(s).last() == s[n - 2]);
        assert(z_plane(s).last() == s[n - 1]);
    }
}

/// The planes of a product.
pub proof fn lemma_planes_xor(a: Seq<bool>, b: Seq<bool>)
    requires
        a.len() == b.len(),
    ensures
        x_plane(bits::xor(a, b)) == bits::xor(x_plane(a), x_plane(b)),
        z_plane(bits::xor(a, b)) == bits::xor(z_plane(a), z_plane(b)),
{
    assert(x_plane(bits::xor(a, b)) =~= bits::xor(x_plane(a), x_plane(b)));
    assert(z_plane(bits::xor(a, b)) =~= bits::xor(z_plane(a), z_plane(b)));
}

proof fn lemma_both_swap(a: Seq<bool>, b: Seq<bool>)
    requires
        a.len() == b.len(),
    ensures
        bits::both(a, b) == bits::both(b, a),
{
    assert(bits::both(a, b) =~= bits::both(b, a));
}

/// Anticommutation counts the Z against X overlaps both ways.
pub proof fn lemma_anti_counts(a: Seq<bool>, b: Seq<bool>)
    requires
        a.len() == b.len(),
        a.len() % 2 == 0,
    ensures
        pauli_anti(a, b) == ((zx_count(a, b) + zx_count(b, a)) % 2 == 1),
{
    let s = bits::both(bits::pair_exchange(a), b);
    lemma_ones_planes(s);
    assert forall|k: int| 0 <= k < s.len() / 2 implies #[trigger] x_plane(s)[k] == bits::both(
        z_plane(a),
        x_plane(b),
    )[k] && z_plane(s)[k] == bits::both(z_plane(b), x_plane(a))[k] by {
        assert((2 * k) % 2 == 0 && (2 * k + 1) % 2 == 1);
    }
    assert(x_plane(s) =~= bits::both(z_plane(a), x_plane(b)));
    assert forall|k: int| 0 <= k < s.len() / 2 implies #[trigger] z_plane(s)[k] == bits::both(
        z_plane(b),
        x_plane(a),
    )[k] by {
        assert(x_plane(s)[k] == bits::both(z_plane(a), x_plane(b))[k]);
    }
    assert(z_plane(s) =~= bits::both(z_plane(b), x_plane(a)));
}

/// The overlap count is additive modulo two.
proof fn lemma_zx_additive(a: Seq<bool>, b: Seq<bool>, c: Seq<bool>)
    requires
        a.len() == b.len(),
        a.len() == c.len(),
    ensures
        (zx_count(bits::xor(a, b), c) + zx_count(a, c) + zx_count(b, c)) % 2 == 0,
        (zx_count(c, bits::xor(a, b)) + zx_count(c, a) + zx_count(c, b)) % 2 == 0,
{
    lemma_planes_xor(a, b);
    bits::lemma_overlap_xor(z_plane(a), z_plane(b), x_plane(c));
    bits::lemma_overlap_xor(x_plane(a), x_plane(b), z_plane(c));
}

/// The exponent is odd exactly when the strings anticommute.
proof fn lemma_quarters_parity(a: Seq<bool>, b: Seq<bool>)
    requires
        a.len() == b.len(),
        a.len() % 2 == 0,
    ensures
        pauli_anti(a, b) == (pauli_quarters(a, b) % 2 == 1),
{
    let xa = x_plane(a);
    let xb = x_plane(b);
    let za = z_plane(a);
    let zb = z_plane(b);
    lemma_anti_counts(a, b);
    lemma_planes_xor(a, b);
    let z = bits::xor(za, zb);
    bits::lemma_overlap_xor(xa, xb, z);
    bits::lemma_overlap_xor(za, zb, xa);
    bits::lemma_overlap_xor(za, zb, xb);
    lemma_both_swap(xa, zb);
    lemma_both_swap(xb, za);
}

proof fn lemma_pauli_regroups<const W: usize>(a: Seq<bool>, b: Seq<bool>, c: Seq<bool>)
    ensures
        group::regroups::<PauliBasis, W>(a, b, c),
{
    if a.len() == 64 * W && b.len() == 64 * W && c.len() == 64 * W {
        let ab = bits::xor(a, b);
        let bc = bits::xor(b, c);
        group::lemma_xor(a, b, c, 64 * W as nat);
        lemma_zx_additive(a, b, c);
        lemma_zx_additive(b, c, a);
        let d = zx_count(a, b) + zx_count(ab, c) - zx_count(b, c) - zx_count(a, bc);
        assert(d % 2 == 0);
        assert(pauli_quarters(a, b) + pauli_quarters(ab, c) - pauli_quarters(b, c)
            - pauli_quarters(a, bc) == 2 * d);
    }
}

proof fn lemma_pauli_squares<const W: usize>(a: Seq<bool>)
    ensures
        group::squares_to_one::<PauliBasis, W>(a),
{
    if a.len() == 64 * W {
        let n = 64 * W as nat;
        let none = bits::none(n);
        group::lemma_xor(a, a, a, n);
        bits::lemma_ones_none(bits::both(x_plane(none), z_plane(none)));
        bits::lemma_ones_none(bits::both(z_plane(none), x_plane(a)));
        bits::lemma_ones_none(bits::both(z_plane(a), x_plane(none)));
        lemma_both_swap(x_plane(a), z_plane(a));
        assert(pauli_quarters(none, a) == 0);
        assert(pauli_quarters(a, none) == 0);
        assert(pauli_quarters(a, a) == 4 * y_count(a));
    }
}

proof fn lemma_pauli_commutes<const W: usize>(a: Seq<bool>, b: Seq<bool>)
    ensures
        group::commutes_or_anti::<PauliBasis, W>(a, b),
{
    if a.len() == 64 * W && b.len() == 64 * W {
        group::lemma_xor(a, b, a, 64 * W as nat);
        lemma_anti_counts(a, b);
        assert(pauli_quarters(a, b) - pauli_quarters(b, a) == 2 * (zx_count(a, b) - zx_count(
            b,
            a,
        )));
    }
}

/// Pauli strings multiply as the laws of an operator basis ask.
pub proof fn law_pauli_multiplies<const W: usize>()
    ensures
        group::multiplies::<PauliBasis, W>(),
{
    assert forall|a: Seq<bool>, b: Seq<bool>, c: Seq<bool>| #[trigger] group::regroups::<
        PauliBasis,
        W,
    >(a, b, c) by {
        lemma_pauli_regroups::<W>(a, b, c);
    }
    assert forall|a: Seq<bool>| #[trigger] group::squares_to_one::<PauliBasis, W>(a) by {
        lemma_pauli_squares::<W>(a);
    }
    assert forall|a: Seq<bool>, b: Seq<bool>| #[trigger] group::commutes_or_anti::<PauliBasis, W>(
        a,
        b,
    ) by {
        lemma_pauli_commutes::<W>(a, b);
    }
}

/// The odd bits of a word are clear, and its even bits are the flags.
spec fn even_flags(x: u64, flags: Seq<bool>, k: int) -> bool {
    !bits::bit(x, 2 * k + 1) && bits::bit(x, 2 * k) == flags[k]
}

/// Counting a word whose odd bits are clear.
proof fn lemma_even_word(x: u64, flags: Seq<bool>)
    requires
        flags.len() == 32,
        forall|k: int| 0 <= k < 32 ==> #[trigger] even_flags(x, flags, k),
    ensures
        bits::ones(bits::word_bits(x)) == bits::ones(flags),
{
    let t = bits::word_bits(x);
    assert forall|k: int| 0 <= k < t.len() / 2 implies !#[trigger] t[2 * k + 1] by {
        assert(even_flags(x, flags, k));
    }
    bits::lemma_ones_even_only(t);
    assert forall|k: int| 0 <= k < 32 implies t[2 * k] == #[trigger] flags[k] by {
        assert(even_flags(x, flags, k));
    }
    assert(Seq::new(t.len() / 2, |k: int| t[2 * k]) =~= flags);
}

/// Bits of the words the counts are taken over.
proof fn lemma_zx_word(a: u64, b: u64)
    ensures
        bits::ones(bits::word_bits((a >> 1) & b & EVEN_MASK)) == bits::ones(
            bits::both(z_plane(bits::word_bits(a)), x_plane(bits::word_bits(b))),
        ),
{
    let x = (a >> 1) & b & EVEN_MASK;
    let flags = bits::both(z_plane(bits::word_bits(a)), x_plane(bits::word_bits(b)));
    assert forall|k: int| 0 <= k < 32 implies #[trigger] even_flags(x, flags, k) by {
        let j = (2 * k) as u64;
        let j1 = (2 * k + 1) as u64;
        assert(!(x >> j1 & 1 == 1) && (x >> j & 1 == 1) == ((a >> j1 & 1 == 1) && (b >> j & 1
            == 1))) by (bit_vector)
            requires
                j < 63,
                j % 2 == 0,
                j1 == j + 1,
                x == (a >> 1) & b & 0x5555_5555_5555_5555,
        ;
    }
    lemma_even_word(x, flags);
}

/// Number of qubits where `a` has a Z component and `b` an X component.
fn count_zx<const W: usize>(a: &BasisString<W>, b: &BasisString<W>) -> (r: u32)
    requires
        64 * W <= u32::MAX,
    ensures
        r == zx_count(a@, b@),
        r <= 64 * W,
{
    let aw: &[u64; W] = a.words();
    let bw: &[u64; W] = b.words();
    let mut n: u32 = 0;
    let mut i: usize = 0;
    proof {
        let e = bits::both(
            z_plane(bits::bits_of(aw@.take(0))),
            x_plane(bits::bits_of(bw@.take(0))),
        );
        assert(e =~= Seq::<bool>::empty());
    }
    while i < W
        invariant
            i <= W,
            64 * W <= u32::MAX,
            n <= 64 * i,
            n == zx_count(bits::bits_of(aw@.take(i as int)), bits::bits_of(bw@.take(i as int))),
        decreases W - i,
    {
        proof {
            let ta = aw@.take(i + 1);
            let tb = bw@.take(i + 1);
            bits::lemma_bits_of_push(ta);
            bits::lemma_bits_of_push(tb);
            assert(ta.drop_last() =~= aw@.take(i as int));
            assert(tb.drop_last() =~= bw@.take(i as int));
            let ha = bits::bits_of(ta.drop_last());
            let hb = bits::bits_of(tb.drop_last());
            let wa = bits::word_bits(ta.last());
            let wb = bits::word_bits(tb.last());
            assert(bits::both(z_plane(ha + wa), x_plane(hb + wb)) =~= bits::both(
                z_plane(ha),
                x_plane(hb),
            ) + bits::both(z_plane(wa), x_plane(wb)));
            bits::lemma_ones_add(
                bits::both(z_plane(ha), x_plane(hb)),
                bits::both(z_plane(wa), x_plane(wb)),
            );
            lemma_zx_word(aw@[i as int], bw@[i as int]);
        }
        n += bits::count_ones((aw[i] >> 1) & bw[i] & EVEN_MASK);
        i += 1;
    }
    proof {
        assert(aw@.take(W as int) =~= aw@);
        assert(bw@.take(W as int) =~= bw@);
        BasisString::lemma_len(*a);
        BasisString::lemma_len(*b);
    }
    n
}

/// Number of qubits a string acts on with Y.
fn count_y<const W: usize>(m: &BasisString<W>) -> (r: u32)
    requires
        64 * W <= u32::MAX,
    ensures
        r == y_count(m@),
        r <= 64 * W,
{
    proof {
        lemma_both_swap(x_plane(m@), z_plane(m@));
    }
    count_zx(m, m)
}

/// The exponent may be reduced term by term.
proof fn lemma_exponent(a: int, b: int, c: int, d: int, s: int)
    ensures
        (a % 4 + b % 4 + 2 * (d % 4) + 4 - c % 4 + s) % 4 == (a + b - c + 2 * d + s) % 4,
{
}

/// The algebra of Pauli strings.
pub struct PauliBasis;

/// A Pauli generator, with its anticommutation columns and its sign.
pub struct PauliGenerator<const W: usize> {
    generator: BasisString<W>,
    fold: BasisString<W>,
    negated: bool,
}

impl<const W: usize> PauliGenerator<W> {
    /// The generator's bits, as [`Basis::generator_of`] reports them.
    pub closed spec fn bits(self) -> Seq<bool> {
        self.generator@
    }

    /// The anticommutation columns.
    pub closed spec fn columns(self) -> Seq<bool> {
        bits::pair_exchange(self.generator@)
    }

    /// Whether the generator is negated.
    pub closed spec fn minus(self) -> bool {
        self.negated
    }

    #[verifier::type_invariant]
    spec fn consistent(self) -> bool {
        self.fold@ == bits::pair_exchange(self.generator@)
    }

    proof fn lemma_len(self)
        ensures
            self.bits().len() == 64 * W,
            self.columns() == bits::pair_exchange(self.bits()),
    {
        BasisString::lemma_len(self.generator);
    }
}

impl<const W: usize> Basis<W> for PauliBasis {
    type GenContext = PauliGenerator<W>;

    open spec fn generator_of(ctx: PauliGenerator<W>) -> Seq<bool> {
        ctx.bits()
    }

    open spec fn negated(ctx: PauliGenerator<W>) -> bool {
        ctx.minus()
    }

    open spec fn fold_of(ctx: PauliGenerator<W>) -> Seq<bool> {
        ctx.columns()
    }

    open spec fn fold_odd(ctx: PauliGenerator<W>) -> bool {
        false
    }

    open spec fn anti(g: Seq<bool>, m: Seq<bool>) -> bool {
        pauli_anti(g, m)
    }

    open spec fn product_quarters(g: Seq<bool>, m: Seq<bool>) -> int {
        pauli_quarters(g, m)
    }

    open spec fn weight_of(m: Seq<bool>, n_units: nat) -> u32 {
        bits::ones(bits::pair_any(m)) as u32
    }

    open spec fn trace_of(m: Seq<bool>, n_units: nat, fock: Seq<u64>) -> i8 {
        pauli_trace(m, fock)
    }

    open spec fn kind_of() -> BasisKind {
        BasisKind::Pauli
    }

    proof fn fold_law(ctx: PauliGenerator<W>, m: Seq<bool>) {
        ctx.lemma_len();
    }

    proof fn imaginary_law(g: Seq<bool>, m: Seq<bool>) {
        lemma_quarters_parity(g, m);
    }

    fn kind() -> (k: BasisKind) {
        BasisKind::Pauli
    }

    fn make_signed_gen_context(gen: &BasisString<W>, sign: i8) -> (ctx: PauliGenerator<W>) {
        PauliGenerator { generator: *gen, fold: gen.pair_swap(), negated: sign == -1 }
    }

    fn generator(ctx: &PauliGenerator<W>) -> (g: &BasisString<W>) {
        &ctx.generator
    }

    fn anticommutes(ctx: &PauliGenerator<W>, mono: &BasisString<W>) -> (r: bool) {
        proof {
            use_type_invariant(ctx);
            BasisString::lemma_len(*mono);
            BasisString::lemma_len(ctx.fold);
            lemma_both_swap(mono@, ctx.fold@);
        }
        mono.parity_and(&ctx.fold)
    }

    fn fold_generator(ctx: &PauliGenerator<W>) -> (g: &BasisString<W>) {
        proof {
            use_type_invariant(ctx);
        }
        &ctx.fold
    }

    fn fold_needs_odd_correction(ctx: &PauliGenerator<W>) -> (r: bool) {
        false
    }

    fn product(ctx: &PauliGenerator<W>, mono: &BasisString<W>) -> (r: (BasisString<W>, Phase)) {
        let out: BasisString<W> = ctx.generator ^ *mono;
        // The exponent modulo four, kept away from zero.
        let plus: u32 = count_y(&ctx.generator) % 4 + count_y(mono) % 4;
        let minus: u32 = count_y(&out) % 4;
        let zx: u32 = count_zx(&ctx.generator, mono) % 4;
        let sign: u32 = if ctx.negated {
            2
        } else {
            0
        };
        let q: u32 = plus + 2 * zx + 4 - minus + sign;
        proof {
            let exact = pauli_quarters(ctx.bits(), mono@) + (if ctx.minus() {
                2int
            } else {
                0int
            });
            lemma_exponent(
                y_count(ctx.bits()) as int,
                y_count(mono@) as int,
                y_count(out@) as int,
                zx_count(ctx.bits(), mono@) as int,
                sign as int,
            );
            assert(q % 4 == exact % 4);
        }
        (out, Phase::from_quarters((q % 4) as u8))
    }

    fn weight(mono: &BasisString<W>, n_units: usize) -> (w: u32) {
        proof {
            BasisString::lemma_len(*mono);
            bits::lemma_ones_bound(bits::pair_any(mono@));
        }
        mono.support() as u32
    }

    fn trace(mono: &BasisString<W>, n_units: usize, fock: &[u64]) -> (t: i8) {
        let ghost m = mono@;
        let ghost zs = Seq::new(m.len() / 2, |k: int| m[2 * k + 1] && bits::bit_at(fock@, k));
        let mut negative: bool = false;
        let mut k: usize = 0;
        let n: usize = 32 * W;
        proof {
            BasisString::lemma_len(*mono);
            assert(zs.take(0) =~= Seq::<bool>::empty());
        }
        while k < n
            invariant
                n == 32 * W,
                64 * W <= u32::MAX,
                k <= n,
                m == mono@,
                m.len() == 64 * W,
                zs == Seq::new(m.len() / 2, |k: int| m[2 * k + 1] && bits::bit_at(fock@, k)),
                negative == bits::odd(zs.take(k as int)),
                forall|j: int| 0 <= j < k ==> !#[trigger] x_plane(m)[j],
            decreases n - k,
        {
            if mono.test(2 * k) {
                proof {
                    bits::lemma_ones_none(x_plane(m));
                    assert(x_plane(m)[k as int]);
                }
                return 0;
            }
            proof {
                assert(zs.take(k + 1).drop_last() =~= zs.take(k as int));
            }
            let word: usize = k / 64;
            if mono.test(2 * k + 1) && word < fock.len() {
                let s: u64 = (k % 64) as u64;
                let w: u64 = fock[word];
                proof {
                    let x = w >> s;
                    assert(x & 1 == 0 || x & 1 == 1) by (bit_vector);
                }
                if (w >> s) & 1 != 0 {
                    negative = !negative;
                }
            }
            k += 1;
        }
        proof {
            bits::lemma_ones_none(x_plane(m));
            assert(zs.take(n as int) =~= zs);
        }
        if negative {
            -1
        } else {
            1
        }
    }
}

} // verus!
