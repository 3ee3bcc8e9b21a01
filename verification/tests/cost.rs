use roofline::account::{account, Account};
use roofline::analysis::{analyze_attention, attention_shapes};
use roofline::cost::{
    a100, h100, Constraint, CostModel, Demand, Device, FlopsConstraint, HbmConstraint, Label,
    Plugged, Ratio, SramConstraint,
};
use roofline::ir::naive_attention_program;
use roofline::natural::Natural;
use roofline::seconds::{Seconds, Time};

fn natural(n: &Natural) -> f64 {
    n.limbs().iter().rev().fold(0.0, |v, limb| v * 4294967296.0 + *limb as f64)
}

fn seconds(t: &Seconds) -> f64 {
    match t {
        Seconds::Finite { num, den } => natural(num) / natural(den),
        Seconds::Infinite => f64::INFINITY,
    }
}

fn ratio(r: Ratio) -> f64 {
    r.num as f64 / r.den as f64
}

fn flops_and_hbm() -> CostModel {
    CostModel::new()
        .add(FlopsConstraint::new(a100()).plug())
        .add(HbmConstraint::new(a100()).plug())
}

#[test]
fn a100_ridge_point() {
    let rp = ratio(a100().ridge_point());
    assert!((rp - 156.0).abs() < 1.0, "A100 ridge point should be ~156 flop/byte, got {}", rp);
}

#[test]
fn flops_constraint_basic() {
    let c = FlopsConstraint::new(a100());
    let t = seconds(&c.lower_bound_s(&Demand::new(312e12 as u64, 0)));
    assert!((t - 1.0).abs() < 1e-9, "312 TFLOPS on A100 should give ~1s, got {}", t);
}

#[test]
fn hbm_constraint_basic() {
    let c = HbmConstraint::new(a100());
    let t = seconds(&c.lower_bound_s(&Demand::new(0, (2.0e12) as u64)));
    assert!((t - 1.0).abs() < 1e-9, "2 TB on A100 should give ~1s, got {}", t);
}

#[test]
fn sram_constraint_gates_fused_plans() {
    let c = SramConstraint::new(a100()); // 20 MB of on-chip SRAM
    // a fused working set that fits contributes no time floor
    let fits = Demand::new(1, 1).with_sram(3_800_000);
    assert_eq!(seconds(&c.lower_bound_s(&fits)), 0.0);
    // one that does not fit cannot run as scheduled: infinite floor
    let too_big = Demand::new(1, 1).with_sram(53_000_000);
    assert!(seconds(&c.lower_bound_s(&too_big)).is_infinite());

    // and through the full model the binding resource names the reason
    let model = flops_and_hbm().add(SramConstraint::new(a100()).plug());
    let (t, binding, _) = model.cost(&too_big);
    assert!(t.is_infinite());
    assert_eq!(binding, "SramBytes", "the model must say WHY the plan is infeasible");
}

#[test]
fn binding_resource_is_hbm_for_attention() {
    let cost = flops_and_hbm();

    // For naive attention s=1024, d=64: intensity ~19.7 flop/byte < 156 ridge, so HBM-bound.
    let shapes = attention_shapes(1024, 64);
    let (expr, root) = naive_attention_program();
    let acc = account(&expr, root, &shapes);
    let (_, binding, details) = cost.cost(&Demand::from(&acc));

    assert_eq!(binding, "HbmBytes", "naive attention should be HBM-bound on A100");
    // HBM time should be strictly greater than FLOPs time
    let flops_t = details.iter().find(|(n, _)| n == "Flops").map(|(_, t)| seconds(t)).unwrap();
    let hbm_t = details.iter().find(|(n, _)| n == "HbmBytes").map(|(_, t)| seconds(t)).unwrap();
    assert!(hbm_t > flops_t, "HBM time {} should exceed FLOPs time {}", hbm_t, flops_t);
}

#[test]
fn compute_bound_when_flops_dominated() {
    // Extreme case: 1 byte of data, 312 TFLOPS of compute, so it must be compute-bound.
    let (_, binding, _) = flops_and_hbm().cost(&Demand::new(312e12 as u64, 1));
    assert_eq!(binding, "Flops", "extreme compute should be Flops-bound");
}

#[test]
fn demand_reads_the_account() {
    let d = Demand::new(3, 4);
    assert_eq!((d.flops, d.hbm_bytes, d.sram_bytes), (3, 4, 0));
    assert_eq!(Demand::default(), Demand::new(0, 0));
    let a = Account { flops: 1, hbm_bytes: 2, sram_bytes: 3 };
    assert_eq!(Demand::from(&a), Demand::new(1, 2).with_sram(3));
    assert_eq!(a.intensity(), Ratio { num: 1, den: 2 });
    assert_eq!(Account::default().intensity(), Ratio { num: 0, den: 1 });
}

#[test]
fn model_without_constraints_costs_nothing() {
    let (t, binding, details) = CostModel::default().cost(&Demand::new(5, 5));
    assert_eq!(seconds(&t), 0.0);
    assert_eq!(binding, "none");
    assert!(details.is_empty());
}

#[test]
fn analysis_lists_the_slowest_first_and_keeps_ties_in_order() {
    let device = Device::new("even", 10, 10, 0);
    let model = CostModel::new()
        .add(FlopsConstraint::new(device).plug())
        .add(HbmConstraint::new(device).plug());
    let names = |d: &Demand| -> Vec<String> {
        model.cost(d).2.into_iter().map(|(n, _)| n).collect()
    };
    assert_eq!(names(&Demand::new(1, 2)), vec!["HbmBytes", "Flops"]);
    assert_eq!(names(&Demand::new(2, 1)), vec!["Flops", "HbmBytes"]);
    assert_eq!(names(&Demand::new(2, 2)), vec!["Flops", "HbmBytes"]);
}

/// A constraint of the user's own.
struct Fixed(u64);

impl Constraint for Fixed {
    fn label(&self) -> Label {
        unreachable!()
    }

    fn bound(&self, _demand: Demand) -> Time {
        unreachable!()
    }

    fn name(&self) -> &str {
        "Fixed"
    }

    fn lower_bound_s(&self, _demand: &Demand) -> Seconds {
        Seconds::ratio(self.0, 1)
    }
}

#[test]
fn a_further_constraint_never_makes_a_plan_cheaper() {
    let d = Demand::new(312e12 as u64, 1);
    let (before, _, _) = flops_and_hbm().cost(&d);
    for s in [0, 1, 2] {
        let more = flops_and_hbm().add(Plugged { constraint: Box::new(Fixed(s)) });
        let (after, binding, _) = more.cost(&d);
        assert!(!after.less(&before));
        assert_eq!(binding == "Fixed", s == 2);
    }
}

#[test]
fn attention_analysis_on_a100() {
    let a = analyze_attention(&flops_and_hbm(), 1024, 64).unwrap();
    assert_eq!(a.label, "attn_s1024_64");
    assert_eq!(a.flops, 4 * 1024 * 1024 * 64 + 5 * 1024 * 1024);
    assert_eq!(a.hbm_bytes, 4 * (5 * 1024 * 64 + 3 * 1024 * 1024 + 1));
    assert_eq!(a.binding, "HbmBytes");
    assert!((ratio(a.intensity) - 19.7).abs() < 0.1);
    // A single position has a single score; with none the softmax has nothing to run along.
    assert!(analyze_attention(&flops_and_hbm(), 1, 64).is_some());
    assert!(analyze_attention(&flops_and_hbm(), 0, 64).is_none());
}

#[test]
fn devices() {
    assert_eq!(a100().name, "A100-80GB");
    assert_eq!(h100().name, "H100-SXM");
    assert_eq!(ratio(h100().ridge_point()).round(), 295.0);
}

#[test]
fn exact_times_do_not_round() {
    // 1/3 + 1/3 + 1/3 is exactly one, and u64::MAX stands apart from its neighbour.
    let third = Seconds::ratio(1, 3);
    let one = third.plus(&third).plus(&third);
    assert!(!one.less(&Seconds::ratio(1, 1)) && !Seconds::ratio(1, 1).less(&one));
    let big = Seconds::ratio(u64::MAX, 7).plus(&Seconds::ratio(1, 11));
    assert!(Seconds::ratio(u64::MAX, 7).less(&big));
    assert!(Seconds::ratio(u64::MAX - 1, 7).less(&Seconds::ratio(u64::MAX, 7)));
    assert!(big.less(&Seconds::Infinite));
    assert!(!Seconds::Infinite.less(&Seconds::Infinite));
    assert!(Seconds::ratio(998, 1000).well_below(&Seconds::ratio(1, 1), 1000));
    assert!(!Seconds::ratio(999, 1000).well_below(&Seconds::ratio(1, 1), 1000));
    assert!(Seconds::ratio(1001, 1000).near(&Seconds::ratio(1, 1), 1000));
    assert!(!Seconds::ratio(1002, 1000).near(&Seconds::ratio(1, 1), 1000));
}
