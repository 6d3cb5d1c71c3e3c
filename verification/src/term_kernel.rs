//! Custom noise and truncation models that read an individual term's key.

use crate::basis::BasisKind;
use vstd::prelude::*;
use vstd::slice::slice_subrange;

verus! {

/// A term as a custom model sees it.
pub struct TermView<'a> {
    /// Which algebra the words belong to.
    pub basis_kind: BasisKind,
    /// The term's key, as raw storage words.
    pub words: &'a [u64],
    /// Qubits or modes the operator is sized for.
    pub n_units: usize,
    /// The term's weight, as the basis defines it.
    pub weight: u32,
}

/// Number of terms a batched call covers at once.
pub const KERNEL_BATCH: usize = 1024;

/// Entry `i` of a batch of keys laid end to end, `stride` words each.
pub open spec fn batch_words(words: Seq<u64>, stride: int, i: int) -> Seq<u64> {
    words.subrange(i * stride, i * stride + stride)
}

/// A custom noise model with factors of type `R`.
pub trait NoiseKernel<R> {
    /// The factor of a term. The default, which says nothing, is for models the verifier does
    /// not read.
    open spec fn factor_of(&self, kind: BasisKind, words: Seq<u64>, n_units: nat, weight: u32) -> R {
        arbitrary()
    }

    /// The multiplicative factor for this term's coefficient.
    fn factor(&self, term: TermView<'_>) -> (f: R)
        ensures
            f == self.factor_of(term.basis_kind, term.words@, term.n_units as nat, term.weight),
    ;

    /// The factors of a batch of terms, whose keys lie end to end, `stride` words each.
    fn factor_batch(
        &self,
        basis_kind: BasisKind,
        words: &[u64],
        stride: usize,
        weights: &[u32],
        n_units: usize,
    ) -> (out: Vec<R>)
        requires
            words@.len() == weights@.len() * stride,
        ensures
            out@.len() == weights@.len(),
            forall|i: int|
                0 <= i < weights@.len() ==> #[trigger] out@[i] == self.factor_of(
                    basis_kind,
                    batch_words(words@, stride as int, i),
                    n_units as nat,
                    weights@[i],
                ),
    {
        self.factor_each(basis_kind, words, stride, weights, n_units)
    }

    /// The factors of a batch of terms, asked for one by one.
    fn factor_each(
        &self,
        basis_kind: BasisKind,
        words: &[u64],
        stride: usize,
        weights: &[u32],
        n_units: usize,
    ) -> (out: Vec<R>)
        requires
            words@.len() == weights@.len() * stride,
        ensures
            out@.len() == weights@.len(),
            forall|i: int|
                0 <= i < weights@.len() ==> #[trigger] out@[i] == self.factor_of(
                    basis_kind,
                    batch_words(words@, stride as int, i),
                    n_units as nat,
                    weights@[i],
                ),
    {
        let mut out: Vec<R> = Vec::new();
        let mut i: usize = 0;
        while i < weights.len()
            invariant
                i <= weights@.len(),
                words@.len() == weights@.len() * stride,
                out@.len() == i,
                forall|k: int|
                    0 <= k < i ==> #[trigger] out@[k] == self.factor_of(
                        basis_kind,
                        batch_words(words@, stride as int, k),
                        n_units as nat,
                        weights@[k],
                    ),
            decreases weights@.len() - i,
        {
            proof {
                lemma_batch_bounds(i as int, weights@.len() as int, stride as int);
                assert(words.len() == words@.len());
            }
            let key = slice_subrange(words, i * stride, i * stride + stride);
            let f = self.factor(
                TermView { basis_kind, words: key, n_units, weight: weights[i] },
            );
            out.push(f);
            i += 1;
        }
        out
    }
}

/// Entry `i` of a batch lies inside it.
pub proof fn lemma_batch_bounds(i: int, n: int, stride: int)
    requires
        0 <= i < n,
        0 <= stride,
    ensures
        0 <= i * stride,
        i * stride + stride <= n * stride,
        (i + 1) * stride == i * stride + stride,
{
    assert(0 <= i * stride && i * stride + stride <= n * stride && (i + 1) * stride == i * stride
        + stride) by (nonlinear_arith)
        requires
            0 <= i < n,
            0 <= stride,
    ;
}

/// A custom truncation predicate over magnitudes of type `R`.
pub trait TruncationKernel<R> {
    /// A term belongs in the store. The default, which says nothing, is for predicates the
    /// verifier does not read.
    open spec fn keeps(
        &self,
        kind: BasisKind,
        words: Seq<u64>,
        n_units: nat,
        weight: u32,
        magnitude: R,
    ) -> bool {
        arbitrary()
    }

    /// True if this term belongs in the store.
    fn keep(&self, term: TermView<'_>, coeff_magnitude: R) -> (r: bool)
        ensures
            r == self.keeps(
                term.basis_kind,
                term.words@,
                term.n_units as nat,
                term.weight,
                coeff_magnitude,
            ),
    ;

    /// Decides a batch of terms at once, or declines to: none is decided, and the caller asks
    /// term by term.
    fn keep_batch(
        &self,
        basis_kind: BasisKind,
        words: &[u64],
        stride: usize,
        weights: &[u32],
        n_units: usize,
        coeff_magnitudes: &[R],
    ) -> (out: Option<Vec<bool>>)
        requires
            words@.len() == weights@.len() * stride,
            coeff_magnitudes@.len() == weights@.len(),
        ensures
            out matches Some(v) ==> v@.len() == weights@.len() && forall|i: int|
                0 <= i < weights@.len() ==> #[trigger] v@[i] == self.keeps(
                    basis_kind,
                    batch_words(words@, stride as int, i),
                    n_units as nat,
                    weights@[i],
                    coeff_magnitudes@[i],
                ),
    {
        None
    }
}

/// A truncation model that keeps every term.
#[derive(Clone, Copy)]
pub struct KeepAll;

impl<R> TruncationKernel<R> for KeepAll {
    open spec fn keeps(
        &self,
        kind: BasisKind,
        words: Seq<u64>,
        n_units: nat,
        weight: u32,
        magnitude: R,
    ) -> bool {
        true
    }

    fn keep(&self, term: TermView<'_>, coeff_magnitude: R) -> (r: bool) {
        true
    }
}

/// A batch holds its terms' words one term after another, as many for each.
pub proof fn law_batches_are_laid_out(words: Seq<u64>, stride: nat, i: int, j: int)
    requires
        0 <= i,
        0 <= j < stride,
        (i + 1) * stride <= words.len(),
    ensures
        batch_words(words, stride as int, i).len() == stride,
        batch_words(words, stride as int, i)[j] == words[i * stride + j],
{
    assert(0 <= i * stride && i * stride + stride == (i + 1) * stride) by (nonlinear_arith)
        requires
            0 <= i,
            0 <= stride,
    ;
}

} // verus!
