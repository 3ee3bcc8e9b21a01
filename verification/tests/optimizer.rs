use roofline::account::account_expr;
use roofline::cost::{
    a100, h100, CostModel, FlopsConstraint, HbmConstraint, SramConstraint,
};
use roofline::extract::{extract_cost_driven, select_plan};
use roofline::ir::{
    fused_attention_program, fused_mlp_program, naive_attention_program, naive_mlp_program,
    Program, Shapes, TensorLang,
};
use roofline::names::NameMap;
use roofline::saturate::{fused_form_reachable, saturate, saturate_shaped};

fn attn_shapes(s: usize, d: usize) -> Shapes {
    let mut shapes: Shapes = NameMap::new();
    shapes.insert("Q_sd", vec![s, d]);
    shapes.insert("K_sd", vec![s, d]);
    shapes.insert("V_sd", vec![s, d]);
    shapes.insert("scale", vec![1]);
    shapes
}

fn mlp_shapes(s: usize, d: usize, f: usize) -> Shapes {
    let mut shapes: Shapes = NameMap::new();
    shapes.insert("X_sd", vec![s, d]);
    shapes.insert("W_up_df", vec![d, f]);
    shapes.insert("W_dn_fd", vec![f, d]);
    shapes
}

fn contains_fuse(expr: &Program) -> bool {
    expr.as_ref().iter().any(|n| matches!(n, TensorLang::Fuse(_)))
}

fn flops_only() -> CostModel {
    CostModel::new().add(FlopsConstraint::new(h100()).plug())
}

fn with_hbm() -> CostModel {
    flops_only().add(HbmConstraint::new(h100()).plug())
}

#[test]
fn saturation_makes_progress() {
    let (expr, _root) = naive_attention_program();
    let runner = saturate(&expr);
    let n_iters = runner.iterations();
    assert!(n_iters >= 1, "saturation should make progress");
    assert!(
        runner.number_of_classes() > 5,
        "e-graph should have multiple e-classes, got {}",
        runner.number_of_classes()
    );
}

#[test]
fn mlp_saturation_works() {
    let (expr, _root) = naive_mlp_program();
    let runner = saturate(&expr);
    assert!(
        runner.number_of_classes() > 3,
        "MLP e-graph should have multiple classes, got {}",
        runner.number_of_classes()
    );
}

#[test]
fn extractor_flips_with_hbm_constraint() {
    // The A/B at the extractor level: run the cost-driven extractor over the whole saturated
    // e-graph. FLOPs-only keeps an unfused plan; adding HbmBytes makes it fuse.
    let (expr, _) = naive_attention_program();
    let shapes = attn_shapes(2048, 64);
    let shaped = saturate_shaped(&expr, attn_shapes(2048, 64));
    let root = shaped.run.lookup_expr(&expr).expect("root in egraph");
    let egraph = shaped.egraph.expect("shapes fit");

    let plan_flops = extract_cost_driven(&egraph, root, &flops_only()).expect("a plan");
    let plan_hbm = extract_cost_driven(&egraph, root, &with_hbm()).expect("a plan");

    assert!(!contains_fuse(&plan_flops), "FLOPs-only plan should not fuse");
    assert!(contains_fuse(&plan_hbm), "HBM-aware plan should fuse");

    // And the fused plan really moves fewer bytes.
    let h_flops = account_expr(&plan_flops, &shapes).hbm_bytes;
    let h_hbm = account_expr(&plan_hbm, &shapes).hbm_bytes;
    assert!(h_hbm < h_flops, "fused plan {h_hbm} should move fewer bytes than {h_flops}");
}

#[test]
fn sram_constraint_blocks_fusion_that_cannot_fit() {
    // At s=2048 d=64 the fused working set is about 53 MB, over the A100's 20 MB of SRAM, so the
    // extractor must refuse to fuse. At s=256 d=32 it is under 1 MB and fusion stays the winner.
    let (expr, _) = naive_attention_program();
    let with_sram = CostModel::new()
        .add(FlopsConstraint::new(a100()).plug())
        .add(HbmConstraint::new(a100()).plug())
        .add(SramConstraint::new(a100()).plug());

    let shaped = saturate_shaped(&expr, attn_shapes(2048, 64));
    let root = shaped.run.lookup_expr(&expr).expect("root in egraph");
    let plan = extract_cost_driven(&shaped.egraph.unwrap(), root, &with_sram).unwrap();
    assert!(
        !contains_fuse(&plan),
        "fusion must be refused when its working set cannot fit in SRAM"
    );

    let shaped = saturate_shaped(&expr, attn_shapes(256, 32));
    let root = shaped.run.lookup_expr(&expr).expect("root in egraph");
    let plan = extract_cost_driven(&shaped.egraph.unwrap(), root, &with_sram).unwrap();
    assert!(contains_fuse(&plan), "fusion should still win when the working set fits");
}

#[test]
fn fused_form_is_reachable_by_rewrite() {
    let (naive, _) = naive_attention_program();
    let (fused, _) = fused_attention_program();
    assert!(
        fused_form_reachable(&naive, &fused, attn_shapes(64, 32)),
        "fusion rewrite should make the fused form reachable in the e-graph"
    );
}

#[test]
fn the_ab_flip() {
    // Same two candidate plans, both reachable in the same e-graph. With only FLOPs modelled the
    // simpler naive plan stays. Add the HBM constraint and the fused plan wins.
    let (naive, _) = naive_attention_program();
    let (fused, _) = fused_attention_program();
    let candidates = vec![naive, fused]; // index 0 = naive, 1 = fused
    let shapes = attn_shapes(2048, 64); // long sequence: HBM dominates

    let pick_flops = select_plan(&candidates, &shapes, &flops_only());
    let pick_hbm = select_plan(&candidates, &shapes, &with_hbm());

    assert_eq!(pick_flops, 0, "with [Flops] only, the optimizer should keep naive");
    assert_eq!(pick_hbm, 1, "with [Flops, HbmBytes], the optimizer should choose fused");
}

#[test]
fn mlp_fused_form_is_reachable_by_rewrite() {
    let (naive, _) = naive_mlp_program();
    let (fused, _) = fused_mlp_program();
    assert!(
        fused_form_reachable(&naive, &fused, mlp_shapes(64, 16, 64)),
        "relu fusion rewrite should make the fused MLP form reachable"
    );
}

#[test]
fn mlp_extractor_flips_with_hbm_constraint() {
    let (expr, _) = naive_mlp_program();
    let shapes = mlp_shapes(2048, 128, 1024); // f > d: HBM dominated by H_sf
    let shaped = saturate_shaped(&expr, mlp_shapes(2048, 128, 1024));
    let root = shaped.run.lookup_expr(&expr).expect("root in egraph");
    let egraph = shaped.egraph.unwrap();

    let plan_flops = extract_cost_driven(&egraph, root, &flops_only()).unwrap();
    let plan_hbm = extract_cost_driven(&egraph, root, &with_hbm()).unwrap();

    assert!(!contains_fuse(&plan_flops), "FLOPs-only MLP plan should not fuse");
    assert!(contains_fuse(&plan_hbm), "HBM-aware MLP plan should fuse");

    let h_flops = account_expr(&plan_flops, &shapes).hbm_bytes;
    let h_hbm = account_expr(&plan_hbm, &shapes).hbm_bytes;
    assert!(h_hbm < h_flops, "fused MLP plan {h_hbm} should move fewer bytes than {h_flops}");
}

#[test]
fn shape_analysis_infers_attention_output() {
    let (expr, _root) = naive_attention_program();
    let shaped = saturate_shaped(&expr, attn_shapes(64, 32));
    let root = shaped.run.lookup_expr(&expr).expect("root in egraph");
    let egraph = shaped.egraph.unwrap();
    assert_eq!(
        egraph.shape(root),
        Some(&vec![64, 32]),
        "attention output e-class shape should be [s, d] = [64, 32]"
    );
}

#[test]
fn shape_survives_saturation_equivalences() {
    let (expr, _root) = naive_attention_program();
    let shaped = saturate_shaped(&expr, attn_shapes(128, 64));
    let root = shaped.run.lookup_expr(&expr).expect("root in egraph");
    let egraph = shaped.egraph.as_ref().unwrap();
    assert_eq!(egraph.shape(root), Some(&vec![128, 64]));
    assert!(
        shaped.run.number_of_classes() > 5,
        "saturation should still produce equivalent terms"
    );
}

#[test]
fn extracted_plan_never_worse_than_naive_on_hbm() {
    let (expr, _) = naive_attention_program();
    let shapes = attn_shapes(64, 32);
    let naive_hbm = account_expr(&expr, &shapes).hbm_bytes;

    let shaped = saturate_shaped(&expr, attn_shapes(64, 32));
    let root = shaped.run.lookup_expr(&expr).expect("root in egraph");
    let plan = extract_cost_driven(&shaped.egraph.unwrap(), root, &with_hbm()).unwrap();

    assert!(
        account_expr(&plan, &shapes).hbm_bytes <= naive_hbm,
        "extracted plan should not move more bytes than naive"
    );
}
