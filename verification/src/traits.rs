//! What a term of a sum must provide.

use crate::basis::Phase;
use crate::bitset::Bitset;
use vstd::prelude::*;

verus! {

/// A basis element of a weighted sum.
///
/// The spec functions name what the operations return; each depends on its arguments alone.
/// They have a default, which says nothing, so that an implementation the verifier does not
/// read may leave them out.
pub trait AbstractTerm: Sized {
    /// The number of non-identity factors.
    open spec fn weight_of(self) -> u32 {
        arbitrary()
    }

    /// Two terms commute.
    open spec fn commuting(self, other: Self) -> bool {
        arbitrary()
    }

    /// The phase and the term of a product.
    open spec fn product_of(self, other: Self) -> (Phase, Self) {
        arbitrary()
    }

    /// The diagonal expectation against the state whose occupied units have the given words.
    open spec fn trace_of(self, fock: Seq<u64>) -> i8 {
        arbitrary()
    }

    /// The bytes a term is written as.
    open spec fn bytes_of(self) -> Seq<u8> {
        arbitrary()
    }

    /// The word a term's partition is chosen by.
    open spec fn key_of(self) -> u64 {
        arbitrary()
    }

    /// The term preserves particle number.
    open spec fn preserves_number(self) -> bool {
        arbitrary()
    }

    /// The number of qubits or modes.
    open spec fn size_of(self) -> u64 {
        arbitrary()
    }

    /// The term that bytes and a system size spell.
    open spec fn read_from(bytes: Seq<u8>, size: u64) -> Self {
        arbitrary()
    }

    /// Reading what was written gives the term back.
    proof fn read_law(self)
        ensures
            Self::read_from(self.bytes_of(), self.size_of()) == self,
    ;

    /// The number of non-identity factors.
    fn weight(&self) -> (w: u32)
        ensures
            w == self.weight_of(),
    ;

    /// True if the terms commute.
    fn commutes_with(&self, other: &Self) -> (r: bool)
        ensures
            r == self.commuting(*other),
    ;

    /// The phase and the term of a product.
    fn matmul_internal(&self, other: &Self) -> (r: (Phase, Self))
        ensures
            r == self.product_of(*other),
    ;

    /// The diagonal expectation against a computational basis state: `-1`, `0` or `1`.
    fn trace_with_fock_state(&self, fock_state: &Bitset) -> (t: i8)
        ensures
            t == self.trace_of(fock_state.words()),
            -1 <= t <= 1,
    ;

    /// The bytes of the term.
    fn to_bytes_vec(&self) -> (b: Vec<u8>)
        ensures
            b@ == self.bytes_of(),
    ;

    /// The word the term's partition is chosen by.
    fn partition_key(&self) -> (k: u64)
        ensures
            k == self.key_of(),
    ;

    /// Whether the term preserves particle number.
    fn is_number_preserving(&self) -> (r: bool)
        ensures
            r == self.preserves_number(),
    ;

    /// The number of qubits or modes.
    fn system_size(&self) -> (n: u64)
        ensures
            n == self.size_of(),
    ;

    /// Rebuilds a term from its bytes and the system size.
    fn from_bytes_vec(bytes: &[u8], system_size: u64) -> (t: Self)
        ensures
            t == Self::read_from(bytes@, system_size),
    ;
}

/// The products of `gen` with those of `terms` that do not commute with it, in order, each with
/// its place.
pub fn matmul_batch<M: AbstractTerm>(
    gen: &M,
    terms: &Vec<&M>,
    out: &mut Vec<(usize, Phase, M)>,
)
    ensures
        final(out)@ == branches(*gen, terms@, terms@.len() as int),
{
    out.clear();
    let mut i: usize = 0;
    while i < terms.len()
        invariant
            i <= terms@.len(),
            out@ == branches(*gen, terms@, i as int),
        decreases terms@.len() - i,
    {
        if !gen.commutes_with(terms[i]) {
            let (phase, product) = gen.matmul_internal(terms[i]);
            out.push((i, phase, product));
        }
        i += 1;
    }
}

/// The products of `gen` with those of the first `n` terms that do not commute with it.
pub open spec fn branches<M: AbstractTerm>(gen: M, terms: Seq<&M>, n: int) -> Seq<
    (usize, Phase, M),
>
    decreases n,
{
    if n <= 0 {
        Seq::empty()
    } else {
        let rest = branches(gen, terms, n - 1);
        if gen.commuting(*terms[n - 1]) {
            rest
        } else {
            let (phase, product) = gen.product_of(*terms[n - 1]);
            rest.push(((n - 1) as usize, phase, product))
        }
    }
}

/// The branches of a generator are those of the terms that do not commute with it, in order:
/// each carries its term's place, and the phase and the term of the generator's product with it.
pub proof fn law_branches_by_term<M: AbstractTerm>(gen: M, terms: Seq<&M>, n: int, j: int)
    requires
        0 <= n <= terms.len(),
        n <= usize::MAX,
        0 <= j < branches(gen, terms, n).len(),
    ensures
        ({
            let (at, phase, product) = branches(gen, terms, n)[j];
            &&& at < n
            &&& !gen.commuting(*terms[at as int])
            &&& (phase, product) == gen.product_of(*terms[at as int])
            &&& forall|i: int| 0 <= i < j ==> (#[trigger] branches(gen, terms, n)[i]).0 < at
        }),
    decreases n,
{
    if n > 0 {
        let rest = branches(gen, terms, n - 1);
        if j < rest.len() {
            law_branches_by_term(gen, terms, n - 1, j);
        } else {
            assert forall|i: int| 0 <= i < j implies (#[trigger] branches(gen, terms, n)[i]).0 < (n
                - 1) by {
                law_branches_by_term(gen, terms, n - 1, i);
            }
        }
    }
}

/// Every term that does not commute with the generator has its branch.
pub proof fn law_every_branch_is_there<M: AbstractTerm>(gen: M, terms: Seq<&M>, n: int, i: int)
    requires
        0 <= i < n <= terms.len(),
        n <= usize::MAX,
        !gen.commuting(*terms[i]),
    ensures
        exists|j: int|
            0 <= j < branches(gen, terms, n).len() && (#[trigger] branches(gen, terms, n)[j]).0 == i,
    decreases n,
{
    let rest = branches(gen, terms, n - 1);
    if i == n - 1 {
        assert(branches(gen, terms, n)[rest.len() as int].0 == i);
    } else {
        law_every_branch_is_there(gen, terms, n - 1, i);
        let j = choose|j: int| 0 <= j < rest.len() && (#[trigger] rest[j]).0 == i;
        assert(branches(gen, terms, n)[j] == rest[j]);
    }
}

} // verus!
