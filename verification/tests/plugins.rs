use propaq::basis::BasisKind;
use propaq::noise::{
    plan_noise, resolve_native, retabulate, LayeredNoise, NoisePlan, ResolvedNoise,
};
use propaq::plugins::{
    accept_plugin, check_config, check_depends, check_exports, check_version, Depends, LayerContext,
    PluginError, PLUGIN_ABI_VERSION,
};
use propaq::run_config::{
    cpu_for_worker, merge_batches, partitions, Logger, ProgressBank, MIN_DRAW_INTERVAL_MS,
};
use propaq::term_kernel::TermView;

#[test]
fn a_declaration_reads_back_as_it_was_made() {
    for bits in 0..4u32 {
        let d = Depends::from_bits(bits).unwrap();
        assert_eq!(d.bits(), bits);
        assert_eq!(d.key(), bits & 1 == 1);
        assert_eq!(d.layer(), bits & 2 == 2);
    }
    assert_eq!(Depends::from_bits(4), None);
    assert_eq!(Depends::none().bits(), 0);
}

#[test]
fn only_the_current_interface_version_is_accepted() {
    assert_eq!(check_version(Some(PLUGIN_ABI_VERSION)), Ok(()));
    assert_eq!(check_version(Some(7)), Err(PluginError::WrongVersion(7)));
    assert_eq!(check_version(None), Err(PluginError::NoVersion));
}

#[test]
fn a_missing_declaration_reads_the_weight_alone() {
    assert_eq!(check_depends(None), Ok(Depends::none()));
    assert_eq!(check_depends(Some(9)), Err(PluginError::UnknownDepends(9)));
}

#[test]
fn a_context_is_made_and_destroyed_or_neither() {
    assert_eq!(check_exports(true, true, true), Ok(()));
    assert_eq!(check_exports(true, false, false), Ok(()));
    assert_eq!(check_exports(true, true, false), Err(PluginError::HalfLifecycle));
    assert_eq!(check_exports(true, false, true), Err(PluginError::HalfLifecycle));
    assert_eq!(check_exports(false, true, true), Err(PluginError::NoEntryPoint));
}

#[test]
fn the_first_fault_of_a_plugin_counts() {
    let v = Some(PLUGIN_ABI_VERSION);
    assert_eq!(accept_plugin(None, Some(9), false, true, false), Err(PluginError::NoVersion));
    assert_eq!(
        accept_plugin(Some(2), Some(9), false, true, false),
        Err(PluginError::WrongVersion(2))
    );
    assert_eq!(
        accept_plugin(v, Some(9), false, true, false),
        Err(PluginError::UnknownDepends(9))
    );
    assert_eq!(accept_plugin(v, Some(1), false, true, false), Err(PluginError::NoEntryPoint));
    assert_eq!(accept_plugin(v, Some(1), true, true, false), Err(PluginError::HalfLifecycle));
    assert_eq!(
        accept_plugin(v, Some(3), true, true, true),
        Ok(Depends { on_key: true, on_layer: true })
    );
}

/// A factor that counts the weight and the layer.
#[derive(Clone, Copy)]
struct Counting;

impl LayeredNoise<u64> for Counting {
    fn layer_factor(&self, term: TermView<'_>, layer: LayerContext) -> u64 {
        assert!(term.words.is_empty(), "a tabulated model is handed no key");
        u64::from(term.weight) * 100 + u64::from(layer.index)
    }
}

#[test]
fn a_table_holds_the_factor_of_every_weight() {
    let mut table = vec![99u64];
    retabulate(&Counting, BasisKind::Pauli, 3, LayerContext::new(5, 9), &mut table);
    assert_eq!(table, vec![5, 105, 205, 305]);
}

#[test]
fn a_plugin_is_resolved_by_what_it_reads() {
    let of = |on_key: bool, on_layer: bool| -> ResolvedNoise<u64, Counting, ()> {
        resolve_native(Counting, Depends { on_key, on_layer }, BasisKind::Majorana, 2)
    };
    match of(false, false) {
        ResolvedNoise::WeightTable(t) => assert_eq!(t, vec![0, 100, 200]),
        _ => panic!("a model of the weight is tabulated"),
    }
    assert!(matches!(of(false, true), ResolvedNoise::LayeredWeightTable(_)));
    assert!(matches!(of(true, false), ResolvedNoise::TermKernel(_)));
    assert!(matches!(of(true, true), ResolvedNoise::TermKernel(_)));
    assert!(of(true, true).depends_on_key());
    assert!(!of(false, true).depends_on_key());
    let host: ResolvedNoise<u64, Counting, u8> = ResolvedNoise::PythonTerm(1);
    assert!(host.depends_on_key());
}

#[test]
fn the_built_in_model_comes_before_plugins_and_host_models() {
    assert_eq!(plan_noise(true, true, true), NoisePlan::Exponential);
    assert_eq!(plan_noise(false, true, true), NoisePlan::Plugin);
    assert_eq!(plan_noise(false, false, true), NoisePlan::PerTerm);
    assert_eq!(plan_noise(false, false, false), NoisePlan::PerWeight);
}

#[test]
fn basis_kinds_read_back_from_their_codes() {
    for kind in [BasisKind::Pauli, BasisKind::Majorana] {
        assert_eq!(BasisKind::from_u32(kind.as_u32()), Some(kind));
    }
    assert_eq!(BasisKind::from_u32(2), None);
}

#[test]
fn a_logger_records_every_so_many_gates() {
    let log = Logger::new("run.log".to_string(), 3);
    let due: Vec<usize> = (0..8).filter(|&i| log.due(i)).collect();
    assert_eq!(due, vec![0, 3, 6]);
    assert_eq!(log.filename, "run.log");
    assert!((0..5).all(|i| Logger::new(String::new(), 0).due(i)));
}

#[test]
fn pools_are_never_empty() {
    assert_eq!(partitions(0), 1);
    assert_eq!(partitions(12), 12);
    assert_eq!(merge_batches(0), 1);
    assert_eq!(merge_batches(1), 1);
    assert_eq!(merge_batches(8), 8);
    assert_eq!(merge_batches(9), 16);
}

#[test]
fn workers_are_dealt_processors_in_turn() {
    let cpus = [4usize, 5, 9];
    let got: Vec<Option<usize>> = (0..5).map(|i| cpu_for_worker(i, &cpus)).collect();
    assert_eq!(got, vec![Some(4), Some(5), Some(9), Some(4), Some(5)]);
    assert_eq!(cpu_for_worker(2, &[]), None);
}

#[test]
fn a_progress_bar_shows_every_gate_once() {
    let mut bank = ProgressBank::new(0);
    assert_eq!(bank.every(), 1);
    assert_eq!(bank.bank(3, 10), Some(3), "the first draw is always due");
    assert_eq!(bank.bank(4, 20), None);
    assert_eq!(bank.bank(5, 10 + MIN_DRAW_INTERVAL_MS), Some(9));
    assert_eq!(bank.bank(0, 10 + 2 * MIN_DRAW_INTERVAL_MS), None, "nothing to draw");
    assert_eq!(bank.bank(2, 11 + 2 * MIN_DRAW_INTERVAL_MS), None);
    assert_eq!(bank.drain(), 2);
    assert_eq!(bank.drain(), 0);
}

#[test]
fn a_zero_byte_in_a_configuration_is_refused_where_a_context_is_made() {
    assert_eq!(check_config(true, Some(&b"{\"rate\": 0.1}"[..])), Ok(()));
    assert_eq!(check_config(true, Some(&b"ab\0c\0"[..])), Err(2));
    assert_eq!(check_config(false, Some(&b"ab\0c\0"[..])), Ok(()));
    assert_eq!(check_config(true, None), Ok(()));
}
