//! How a noise model is put into the form a run applies.

use crate::basis::BasisKind;
use crate::plugins::{Depends, LayerContext};
use crate::term_kernel::TermView;
use vstd::prelude::*;

verus! {

/// A noise model whose factors depend on where in the circuit they are asked for.
pub trait LayeredNoise<R> {
    /// The factor of a term at a place in the circuit. The default, which says nothing, is for
    /// models the verifier does not read.
    open spec fn layer_factor_of(
        &self,
        kind: BasisKind,
        words: Seq<u64>,
        n_units: nat,
        weight: u32,
        layer: LayerContext,
    ) -> R {
        arbitrary()
    }

    /// The factor for this term's coefficient at a place in the circuit.
    fn layer_factor(&self, term: TermView<'_>, layer: LayerContext) -> (f: R)
        ensures
            f == self.layer_factor_of(
                term.basis_kind,
                term.words@,
                term.n_units as nat,
                term.weight,
                layer,
            ),
    ;
}

/// Fills `out` with the model's factor for every weight up to `max_weight`, at one place in the
/// circuit. The model is handed no key.
pub fn retabulate<R, K: LayeredNoise<R>>(
    kernel: &K,
    basis_kind: BasisKind,
    max_weight: usize,
    layer: LayerContext,
    out: &mut Vec<R>,
)
    requires
        max_weight < usize::MAX,
    ensures
        final(out)@.len() == max_weight + 1,
        forall|w: int|
            0 <= w <= max_weight ==> #[trigger] final(out)@[w] == kernel.layer_factor_of(
                basis_kind,
                Seq::<u64>::empty(),
                max_weight as nat,
                w as u32,
                layer,
            ),
{
    out.clear();
    let no_words: [u64; 0] = [];
    proof {
        assert(no_words@ =~= Seq::<u64>::empty());
    }
    while out.len() <= max_weight
        invariant
            max_weight < usize::MAX,
            no_words@ == Seq::<u64>::empty(),
            out@.len() <= max_weight + 1,
            forall|w: int|
                0 <= w < out@.len() ==> #[trigger] out@[w] == kernel.layer_factor_of(
                    basis_kind,
                    Seq::<u64>::empty(),
                    max_weight as nat,
                    w as u32,
                    layer,
                ),
        decreases max_weight + 1 - out@.len(),
    {
        let w: usize = out.len();
        let f: R = kernel.layer_factor(
            TermView {
                basis_kind,
                words: no_words.as_slice(),
                n_units: max_weight,
                weight: #[verifier::truncate] (w as u32),
            },
            layer,
        );
        out.push(f);
    }
}

/// A noise model in the form a run applies: `K` is a loaded plugin, `P` a model in the host
/// language.
pub enum ResolvedNoise<R, K, P> {
    /// A factor for each weight.
    WeightTable(Vec<R>),
    /// A factor for each weight, worked out anew for each layer.
    LayeredWeightTable(K),
    /// A factor for each key.
    TermKernel(K),
    /// A factor for each key, asked of the host language.
    PythonTerm(P),
}

impl<R, K, P> ResolvedNoise<R, K, P> {
    /// The model reads a term's key.
    pub open spec fn reads_keys(&self) -> bool {
        self is TermKernel || self is PythonTerm
    }

    /// Whether the model reads a term's key. If so the stored keys must be the physical ones,
    /// and no Clifford gate can be deferred.
    pub fn depends_on_key(&self) -> (r: bool)
        ensures
            r == self.reads_keys(),
    {
        match self {
            ResolvedNoise::TermKernel(_) => true,
            ResolvedNoise::PythonTerm(_) => true,
            _ => false,
        }
    }
}

/// Resolves a native plugin by what it reads: a model of keys is asked for each term, one of the
/// circuit position is tabulated for each layer, and one of the weight alone is tabulated once.
pub fn resolve_native<R, K: LayeredNoise<R>, P>(
    kernel: K,
    depends: Depends,
    basis_kind: BasisKind,
    max_weight: usize,
) -> (r: ResolvedNoise<R, K, P>)
    requires
        max_weight < usize::MAX,
    ensures
        match r {
            ResolvedNoise::TermKernel(k) => depends.on_key && k == kernel,
            ResolvedNoise::LayeredWeightTable(k) => !depends.on_key && depends.on_layer && k
                == kernel,
            ResolvedNoise::WeightTable(t) => !depends.on_key && !depends.on_layer && t@.len()
                == max_weight + 1 && forall|w: int|
                0 <= w <= max_weight ==> #[trigger] t@[w] == kernel.layer_factor_of(
                    basis_kind,
                    Seq::<u64>::empty(),
                    max_weight as nat,
                    w as u32,
                    LayerContext { index: 0, total: 0 },
                ),
            ResolvedNoise::PythonTerm(_) => false,
        },
{
    if depends.key() {
        return ResolvedNoise::TermKernel(kernel);
    }
    if depends.layer() {
        return ResolvedNoise::LayeredWeightTable(kernel);
    }
    let mut table: Vec<R> = Vec::new();
    retabulate(&kernel, basis_kind, max_weight, LayerContext::new(0, 0), &mut table);
    ResolvedNoise::WeightTable(table)
}

/// How a noise model is resolved.
#[derive(Clone, Copy, PartialEq, Eq, Debug, Structural)]
pub enum NoisePlan {
    /// Tabulate the exponential of the weight.
    Exponential,
    /// Resolve the plugin by what it declares.
    Plugin,
    /// Ask the host language for each term.
    PerTerm,
    /// Ask the host language once for each weight.
    PerWeight,
}

/// Picks how a noise model is resolved: the built-in model first, then plugins, then models in
/// the host language.
pub fn plan_noise(uniform: bool, native: bool, per_key: bool) -> (p: NoisePlan)
    ensures
        p == (if uniform {
            NoisePlan::Exponential
        } else if native {
            NoisePlan::Plugin
        } else if per_key {
            NoisePlan::PerTerm
        } else {
            NoisePlan::PerWeight
        }),
{
    if uniform {
        NoisePlan::Exponential
    } else if native {
        NoisePlan::Plugin
    } else if per_key {
        NoisePlan::PerTerm
    } else {
        NoisePlan::PerWeight
    }
}

} // verus!
