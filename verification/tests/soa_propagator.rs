use propaq::basis::{Basis, Phase};
use propaq::clifford_ops::{apply_clifford_op, build_clifford_table, build_fused_clifford};
use propaq::coeff::CoeffRepr;
use propaq::pauli::PauliBasis;
use propaq::plane_pauli::PlanePauli;
use propaq::soa_propagator::{
    agenda, flush, next_is_intermediate, plan_clifford_fusion, traversal, FlushSchedule,
    GateAction, Rotation, SoaRun, Task, Trigger,
};
use propaq::store::SoaTermSum;
use propaq::strings::Monomial;
use propaq::term_kernel::KeepAll;
use propaq::truncators::ResolvedConfig;

/// A double-precision coefficient.
#[derive(Clone, Copy, Debug, PartialEq)]
struct F(f64);

const EPS: f64 = 1e-9;

impl CoeffRepr for F {
    type GateParam = f64;
    type Real = f64;

    fn zero() -> Self {
        F(0.0)
    }
    fn from_real(c: f64) -> Self {
        F(c)
    }
    fn duplicate(&self) -> Self {
        *self
    }
    fn add_assign(&mut self, other: Self) {
        self.0 += other.0;
    }
    fn post_merge(&mut self) {}
    fn apply_rotation(&mut self, angle: &f64, phase: Phase) -> Self {
        let (sin_t, cos_t) = angle.sin_cos();
        let sin = F(self.0 * sin_t * f64::from(phase.minus_imaginary()));
        self.0 *= cos_t;
        sin
    }
    fn rotation_factors(angle: &f64) -> Option<(f64, f64)> {
        Some(angle.sin_cos())
    }
    fn sin_branch_magnitude(&self, sin: f64) -> f64 {
        (self.0 * sin).abs()
    }
    fn scale_real(&mut self, factor: f64) {
        self.0 *= factor;
    }
    fn real_unit(n: i8) -> f64 {
        f64::from(n)
    }
    fn size_hint(&self) -> u128 {
        1
    }
    fn passes_coeff_cutoff(&self, cutoff: f64) -> bool {
        self.0.abs() >= cutoff
    }
    fn magnitude(&self) -> f64 {
        self.0.abs()
    }
    fn real_at_least(a: f64, b: f64) -> bool {
        a >= b
    }
    fn real_less(a: f64, b: f64) -> bool {
        a < b
    }
    fn add_to_total(&self, total: f64, trace: i8) -> f64 {
        total + self.0 * f64::from(trace)
    }
    fn real_add(a: f64, b: f64) -> f64 {
        a + b
    }
    fn real_mul(a: f64, b: f64) -> f64 {
        a * b
    }
    fn real_is_one(a: f64) -> bool {
        (a - 1.0).abs() < EPS
    }
    fn real_is_zero(a: f64) -> bool {
        a == 0.0
    }
    fn tolerance() -> f64 {
        EPS
    }
    fn is_clifford_param(angle: &f64, eps: f64) -> bool {
        angle.cos().abs() < eps
    }
    fn phase_only_scale(angle: &f64, eps: f64) -> Option<f64> {
        let (sin_t, cos_t) = angle.sin_cos();
        if sin_t.abs() < eps {
            Some(cos_t)
        } else {
            None
        }
    }
    fn clifford_branch_sign(angle: &f64, phase: Phase) -> Option<i8> {
        let turn = if angle.sin() < 0.0 { -1 } else { 1 };
        Some(turn * phase.minus_imaginary())
    }
}

type Config = ResolvedConfig<f64, KeepAll>;
const QUARTER: f64 = std::f64::consts::FRAC_PI_2;

fn rotation(x: u64, z: u64, param: f64) -> Rotation<f64> {
    Rotation { x: vec![x, 0], z: vec![z, 0], param, is_intermediate: false, gate_idx: None }
}

fn sum_of(keys: &[(u64, u64, f64)]) -> SoaTermSum<F> {
    let mut terms = SoaTermSum::new(128, 2);
    for &(x, z, c) in keys {
        terms.push([&[x, 0], &[z, 0]], F(c));
    }
    terms
}

fn values(terms: &SoaTermSum<F>) -> std::collections::HashMap<(u64, u64), f64> {
    (0..terms.len())
        .map(|i| {
            let (x, z) = terms.decode_row(i);
            ((x[0], z[0]), terms.coeff(i).0)
        })
        .filter(|(_, c)| c.abs() > 1e-12)
        .collect()
}

fn same(a: &SoaTermSum<F>, b: &SoaTermSum<F>) {
    let (a, b) = (values(a), values(b));
    assert_eq!(a.len(), b.len());
    for (k, v) in &a {
        assert!((v - b[k]).abs() < 1e-12, "key {k:?}: {v} against {}", b[k]);
    }
}

fn run(
    terms: &mut SoaTermSum<F>,
    rotations: &Vec<Rotation<f64>>,
    actions: &[GateAction<f64>],
    schedule: FlushSchedule,
) -> Vec<Option<Trigger>> {
    let mut state = SoaRun::new(terms.len());
    let mut triggers = Vec::new();
    for (r, a) in rotations.iter().zip(actions) {
        let report =
            state.step::<PlanePauli, F, KeepAll>(terms, r, a, false, &Config::none(), schedule);
        assert_eq!(report.after, terms.len());
        triggers.push(report.trigger);
    }
    assert_eq!(state.gate_idx, rotations.len());
    let end = flush::<PlanePauli, F, KeepAll>(terms, None, Trigger::Final);
    assert_eq!(end.after, terms.len());
    triggers
}

const NEVER: FlushSchedule = FlushSchedule { max_terms: None, merge_max_terms: None };

fn plain(n: usize) -> Vec<GateAction<f64>> {
    (0..n).map(|_| GateAction::Normal).collect()
}

#[test]
fn a_fused_run_acts_as_its_rotations_do() {
    // X, then Z, then X Z across two qubits of one word, all quarter turns.
    let rotations = vec![
        rotation(0b01, 0, QUARTER),
        rotation(0, 0b01, -QUARTER),
        rotation(0b01, 0b10, QUARTER),
        rotation(0b10, 0b10, QUARTER),
    ];
    let start = [(0b01, 0, 1.0), (0, 0b01, 2.0), (0b11, 0b10, 3.0), (0, 0b11, 4.0), (4, 4, 5.0)];
    let actions = plan_clifford_fusion::<PlanePauli, F>(&rotations);
    assert_eq!(actions.len(), rotations.len());
    let fused = actions.iter().filter(|a| matches!(a, GateAction::Fused(_))).count();
    let skipped = actions.iter().filter(|a| matches!(a, GateAction::Skip)).count();
    assert_eq!((fused, skipped), (1, 3), "one table stands for the whole run");

    let mut tabled = sum_of(&start);
    run(&mut tabled, &rotations, &actions, NEVER);
    let mut one_by_one = sum_of(&start);
    run(&mut one_by_one, &rotations, &plain(4), NEVER);
    same(&tabled, &one_by_one);
}

#[test]
fn a_generic_rotation_is_not_fused() {
    let rotations = vec![rotation(1, 0, 0.3), rotation(0, 1, QUARTER), rotation(1, 1, 0.3)];
    let actions = plan_clifford_fusion::<PlanePauli, F>(&rotations);
    assert!(matches!(actions[0], GateAction::Normal));
    assert!(matches!(actions[2], GateAction::Normal));
}

#[test]
fn a_table_maps_every_label_as_its_rotation_does() {
    let op = build_clifford_table::<PlanePauli, F>(0, 3, [0, 1 << 3], &QUARTER).unwrap();
    assert_eq!(op.n_qubits(), 1);
    let start = [(1 << 3, 0, 1.0), (0, 1 << 3, 2.0), (1 << 3, 1 << 3, 3.0), (1, 1, 4.0)];
    let mut tabled = sum_of(&start);
    apply_clifford_op(&mut tabled, &op);
    let mut rotated = sum_of(&start);
    run(&mut rotated, &vec![rotation(0, 1 << 3, QUARTER)], &plain(1), NEVER);
    same(&tabled, &rotated);
}

#[test]
fn two_rotations_fuse_into_one_table() {
    let (a, b) = (QUARTER, -QUARTER);
    let op = build_fused_clifford::<PlanePauli, F>(
        0,
        [1, 4],
        2,
        &vec![((1 << 1, 1 << 4), &a), ((0, 1 << 1), &b)],
        EPS,
    )
    .unwrap();
    assert_eq!(op.n_qubits(), 2);
    let start = [(1 << 1, 0, 1.0), (1 << 4, 1 << 1, 2.0), (0, 1 << 4, 3.0), (1, 0, 4.0)];
    let mut tabled = sum_of(&start);
    apply_clifford_op(&mut tabled, &op);
    let mut rotated = sum_of(&start);
    let rotations = vec![rotation(1 << 1, 1 << 4, a), rotation(0, 1 << 1, b)];
    run(&mut rotated, &rotations, &plain(2), NEVER);
    same(&tabled, &rotated);
}

#[test]
fn a_sum_is_merged_when_the_schedule_says_so() {
    let rotations: Vec<Rotation<f64>> = (0..4).map(|_| rotation(1, 0, 0.4)).collect();
    let mut terms = sum_of(&[(0, 1, 1.0)]);
    let schedule = FlushSchedule { max_terms: None, merge_max_terms: Some(2) };
    let triggers = run(&mut terms, &rotations, &plain(4), schedule);
    assert!(triggers.contains(&Some(Trigger::Merge)));
    assert_eq!(terms.len(), 2, "the orbit has two keys");
    assert_eq!(Trigger::Merge.name(), "merge");

    let mut terms = sum_of(&[(0, 1, 1.0)]);
    let schedule = FlushSchedule { max_terms: Some(3), merge_max_terms: None };
    let triggers = run(&mut terms, &rotations, &plain(4), schedule);
    assert!(triggers.contains(&Some(Trigger::Threshold)));
}

#[test]
fn pauli_strings_multiply_as_matrices_do() {
    let x = Monomial::<1>::from_positions(&[0]);
    let z = Monomial::<1>::from_positions(&[1]);
    let y = Monomial::<1>::from_positions(&[0, 1]);
    let ctx = PauliBasis::make_gen_context(&x);
    // X Z = -i Y and Z X = i Y.
    assert_eq!(PauliBasis::product(&ctx, &z), (y, Phase::MinusI));
    let ctx = PauliBasis::make_gen_context(&z);
    assert_eq!(PauliBasis::product(&ctx, &x), (y, Phase::I));
    assert!(PauliBasis::anticommutes(&ctx, &x));
    assert!(!PauliBasis::anticommutes(&ctx, &z));
    let ctx = PauliBasis::make_signed_gen_context(&z, -1);
    assert_eq!(PauliBasis::product(&ctx, &x), (y, Phase::MinusI));
    assert_eq!(PauliBasis::weight(&y, 4), 1);
    assert_eq!(PauliBasis::trace(&x, 4, &[0]), 0);
    assert_eq!(PauliBasis::trace(&z, 4, &[0]), 1);
    assert_eq!(PauliBasis::trace(&z, 4, &[1]), -1);
}

#[test]
fn a_circuit_is_met_from_its_end() {
    let circuit = vec![
        vec![rotation(1, 0, 0.1), rotation(2, 0, 0.2)],
        vec![],
        vec![rotation(4, 0, 0.3), rotation(8, 0, 0.4), rotation(16, 0, 0.5)],
    ];
    let met = traversal(circuit);
    let xs: Vec<Vec<u64>> = met.iter().map(|l| l.iter().map(|r| r.x[0]).collect()).collect();
    assert_eq!(xs, vec![vec![16, 8, 4], vec![], vec![2, 1]]);
}

#[test]
fn the_look_ahead_sees_inner_steps_only() {
    let mut layer = vec![rotation(1, 0, 0.1), rotation(2, 0, 0.2), rotation(4, 0, 0.3)];
    layer[0].is_intermediate = true;
    layer[1].is_intermediate = true;
    assert!(next_is_intermediate(&layer, 0));
    assert!(!next_is_intermediate(&layer, 1));
    assert!(!next_is_intermediate(&layer, 2), "nothing comes after the last");
}

#[test]
fn no_merge_is_due_inside_a_larger_step() {
    let mut state = SoaRun::new(1);
    state.pending = 5;
    let schedule = FlushSchedule { max_terms: Some(10), merge_max_terms: Some(5) };
    assert!(state.due(20, true, schedule).is_none());
    assert!(state.due(20, false, schedule) == Some(Trigger::Threshold));
    assert!(state.due(9, false, schedule) == Some(Trigger::Merge));
    state.pending = 4;
    assert!(state.due(9, false, schedule).is_none());
}

#[test]
fn a_step_acts_and_then_merges_what_is_due() {
    let start = [(0b01, 0, 1.0), (0, 0b01, 2.0)];
    let turn = rotation(1, 0, 0.4);
    let schedule = FlushSchedule { max_terms: None, merge_max_terms: Some(1) };
    let mut at_once = sum_of(&start);
    let mut one = SoaRun::new(2);
    let report = one.step::<PlanePauli, F, KeepAll>(
        &mut at_once,
        &turn,
        &GateAction::Normal,
        false,
        &Config::none(),
        schedule,
    );
    let mut apart = sum_of(&start);
    let mut two = SoaRun::new(2);
    let added = two.act::<PlanePauli, F>(&mut apart, &turn, &GateAction::Normal);
    assert_eq!((added, two.pending, two.outbox(apart.len())), (1, 1, 1));
    let trigger = two.due(apart.len(), false, schedule).unwrap();
    let merged = two.merge::<PlanePauli, F, KeepAll>(&mut apart, &Config::none(), trigger);
    assert!(report.trigger == merged.trigger);
    assert_eq!((report.before, report.after), (merged.before, merged.after));
    assert_eq!((one.pending, one.merged_len), (two.pending, two.merged_len));
    same(&at_once, &apart);
}

#[test]
fn a_sum_that_shrank_has_nothing_outstanding() {
    let state = SoaRun::new(7);
    assert_eq!(state.outbox(9), 2);
    assert_eq!(state.outbox(7), 0);
    assert_eq!(state.outbox(3), 0);
}

#[test]
fn an_agenda_applies_noise_before_each_layer_and_merges_at_the_end() {
    let mut inner = rotation(4, 0, 0.3);
    inner.is_intermediate = true;
    let met = traversal(vec![vec![rotation(1, 0, 0.1)], vec![], vec![inner, rotation(8, 0, 0.4)]]);
    assert_eq!(
        agenda(&met),
        vec![
            Task::Noise { layer: 0 },
            Task::Turn { layer: 0, idx: 0, inner_next: true },
            Task::Turn { layer: 0, idx: 1, inner_next: false },
            Task::Noise { layer: 1 },
            Task::Noise { layer: 2 },
            Task::Turn { layer: 2, idx: 0, inner_next: false },
            Task::Finish,
        ]
    );
}
