use roofline::account::{account, account_expr, try_account, Account};
use roofline::analysis::{attention_shapes, mlp_shapes};
use roofline::bench::hbm_model;
use roofline::codegen::lower_and_run;
use roofline::cost::{a100, CostModel, FlopsConstraint, HbmConstraint, SramConstraint};
use roofline::extract::{decide_fusion, extract_cost_driven, select_plan};
use roofline::ir::{
    fused_attention_program, fused_mlp_program, naive_attention_program, naive_mlp_program, Program,
    Shapes, TensorLang,
};
use roofline::names::NameMap;
use roofline::saturate::saturate_shaped;
use roofline::tensor::{eval, TensorData, Term};

fn var(name: &str) -> TensorLang {
    TensorLang::Var(name.to_string())
}

fn shapes(all: &[(&str, &[usize])]) -> Shapes {
    let mut shapes: Shapes = NameMap::new();
    for (name, shape) in all {
        shapes.insert(name, shape.to_vec());
    }
    shapes
}

#[test]
fn attention_accounts() {
    let shapes = attention_shapes(2048, 64);
    let (naive, root) = naive_attention_program();
    assert_eq!(
        account(&naive, root, &shapes),
        Account { flops: 1_094_713_344, hbm_bytes: 52_953_092, sram_bytes: 0 }
    );
    let (fused, root) = fused_attention_program();
    assert_eq!(
        account(&fused, root, &shapes),
        Account { flops: 1_094_713_344, hbm_bytes: 2_097_156, sram_bytes: 52_953_092 }
    );
}

#[test]
fn mlp_accounts() {
    let shapes = mlp_shapes(8, 4, 16);
    let (naive, _) = naive_mlp_program();
    assert_eq!(
        account_expr(&naive, &shapes),
        Account { flops: 2176, hbm_bytes: 1792, sram_bytes: 0 }
    );
    let (fused, _) = fused_mlp_program();
    assert_eq!(
        account_expr(&fused, &shapes),
        Account { flops: 2176, hbm_bytes: 768, sram_bytes: 1792 }
    );
}

#[test]
fn fused_regions_read_each_input_once() {
    let mut p = Program::new();
    let a = p.add(var("A"));
    let b = p.add(TensorLang::MatMul(a, a));
    let c = p.add(TensorLang::MatMul(b, a));
    p.add(TensorLang::Fuse(c));
    let shapes = shapes(&[("A", &[3, 3])]);
    // one read of A, and one write of the result
    assert_eq!(
        account_expr(&p, &shapes),
        Account { flops: 108, hbm_bytes: 72, sram_bytes: 108 }
    );
    // the naive form reads A three times and writes two products
    assert_eq!(
        account(&p, c, &shapes),
        Account { flops: 108, hbm_bytes: 180, sram_bytes: 0 }
    );
}

#[test]
fn a_fused_input_alone_saves_nothing() {
    let mut p = Program::new();
    let a = p.add(var("A"));
    p.add(TensorLang::Fuse(a));
    let shapes = shapes(&[("A", &[3, 3])]);
    assert_eq!(account_expr(&p, &shapes).hbm_bytes, 72);
    assert_eq!(account(&p, a, &shapes).hbm_bytes, 36);
}

#[test]
fn accounts_that_do_not_exist() {
    let (p, root) = naive_attention_program();
    // one position: the scores are one number, and keep their shape
    assert_eq!(
        try_account(&p, root, &attention_shapes(1, 4)),
        Some(Account { flops: 21, hbm_bytes: 96, sram_bytes: 0 })
    );
    // no position: the softmax runs along an empty axis
    assert_eq!(try_account(&p, root, &attention_shapes(0, 4)), None);
    // an input without a shape
    assert_eq!(try_account(&p, root, &NameMap::new()), None);
    // numbers that 64 bits do not hold
    assert_eq!(try_account(&p, root, &attention_shapes(1 << 32, 4)), None);
}

fn with_sram() -> CostModel {
    CostModel::new()
        .add(FlopsConstraint::new(a100()).plug())
        .add(HbmConstraint::new(a100()).plug())
        .add(SramConstraint::new(a100()).plug())
}

#[test]
fn regions_that_cannot_run_are_not_fused() {
    let (naive, _) = naive_attention_program();
    let kept = decide_fusion(naive.clone(), &attention_shapes(2048, 64), &with_sram()).unwrap();
    assert_eq!(kept.len(), naive.len());
    let fused = decide_fusion(naive.clone(), &attention_shapes(256, 32), &with_sram()).unwrap();
    assert_eq!(fused.len(), naive.len() + 1);
}

#[test]
fn extracted_plans_fit_in_sram() {
    let (naive, _) = naive_attention_program();
    for (s, d, fused) in [(256, 32, true), (2048, 64, false)] {
        let shapes = attention_shapes(s, d);
        let shaped = saturate_shaped(&naive, attention_shapes(s, d));
        let root = shaped.run.lookup_expr(&naive).unwrap();
        let plan = extract_cost_driven(&shaped.egraph.unwrap(), root, &with_sram()).unwrap();
        let nodes = plan.as_ref();
        let last = nodes.len() - 1;
        assert_eq!(matches!(nodes[last], TensorLang::Fuse(_)), fused);
        assert!(nodes[..last].iter().all(|n| !matches!(n, TensorLang::Fuse(_))));
        assert!(account_expr(&plan, &shapes).sram_bytes <= a100().sram_bytes);
    }
}

#[test]
fn runnable_plans_are_selected() {
    let shapes = attention_shapes(2048, 64);
    let (naive, fused) = (naive_attention_program().0, fused_attention_program().0);
    // the fused form does not fit, so the naive one is taken wherever it stands
    let candidates = vec![fused.clone(), naive.clone()];
    assert_eq!(select_plan(&candidates, &shapes, &with_sram()), 1);
    let candidates = vec![naive, fused.clone()];
    assert_eq!(select_plan(&candidates, &shapes, &with_sram()), 0);
    // where nothing can run, the first is named
    assert_eq!(select_plan(&vec![fused.clone(), fused], &shapes, &with_sram()), 0);
}

#[test]
fn equal_plans_tie_toward_fewer_nodes() {
    let shapes = attention_shapes(64, 32);
    let (naive, fused) = (naive_attention_program().0, fused_attention_program().0);
    let flops = CostModel::new().add(FlopsConstraint::new(a100()).plug());
    assert_eq!(select_plan(&vec![fused.clone(), naive.clone()], &shapes, &flops), 1);
    assert_eq!(select_plan(&vec![naive.clone(), fused.clone()], &shapes, &flops), 0);
    assert_eq!(select_plan(&vec![naive, fused], &shapes, &hbm_model()), 1);
}

#[test]
fn selection_is_measured_against_the_cheapest() {
    // Each plan is within the margin of the one before it, but the last is not within that of the
    // cheapest.
    let shapes_of = |a: usize, b: usize, c: usize| {
        let mut shapes: Shapes = NameMap::new();
        shapes.insert("A", vec![a]);
        shapes.insert("B", vec![b]);
        shapes.insert("C", vec![c]);
        shapes
    };
    let plan = |name: &str, nodes: usize| {
        let mut p = Program::new();
        for _ in 1..nodes {
            p.add(var("A"));
        }
        p.add(var(name));
        p
    };
    let bytes = CostModel::new().add(HbmConstraint::new(a100()).plug());
    let three = vec![plan("A", 3), plan("B", 2), plan("C", 1)];
    assert_eq!(select_plan(&three, &shapes_of(300_000, 300_260, 300_520), &bytes), 1);
    // where all are within the margin, the one with the fewest nodes is taken
    assert_eq!(select_plan(&three, &shapes_of(300_000, 300_001, 300_002), &bytes), 2);
    // and where none is, the cheapest
    assert_eq!(select_plan(&three, &shapes_of(300_000, 400_000, 500_000), &bytes), 0);
}

#[test]
fn compute_bound_attention_is_not_fused() {
    let (naive, _) = naive_attention_program();
    // wide, but over few positions: traffic binds it
    let fused = decide_fusion(naive.clone(), &attention_shapes(64, 100_000), &hbm_model());
    assert_eq!(fused.unwrap().len(), naive.len() + 1);
    // long and wide: the flops bind it, and fusion saves no time
    let kept = decide_fusion(naive.clone(), &attention_shapes(65_536, 4_096), &hbm_model());
    assert_eq!(kept.unwrap().len(), naive.len());
}

#[test]
fn extracted_plans_compute_the_program() {
    // The fused kernel does the operations of the reference in the same order.
    let (naive, root) = naive_mlp_program();
    let shaped = saturate_shaped(&naive, mlp_shapes(2, 2, 3));
    let class = shaped.run.lookup_expr(&naive).unwrap();
    let plan = extract_cost_driven(&shaped.egraph.unwrap(), class, &hbm_model()).unwrap();
    let tensor = |rows: usize, cols: usize, from: u64| {
        let n = (rows * cols) as u64;
        TensorData::new(vec![rows, cols], (from..from + n).map(Term::Input).collect())
    };
    let mut env = NameMap::new();
    env.insert("X_sd", tensor(2, 2, 0));
    env.insert("W_up_df", tensor(2, 3, 10));
    env.insert("W_dn_fd", tensor(3, 2, 20));
    let reference = eval(&naive, root, &env);
    let run = lower_and_run(&plan, plan.len() - 1, &env);
    assert_eq!(run.shape, reference.shape);
    assert_eq!(run.data, reference.data);
}
