use roofline::bench::{
    attention_env, attention_plan, gen, hbm_model, median, mlp_env, mlp_plan, sample, tensor_seed,
    BenchError, BenchOutcome,
};
use roofline::codegen::{lower, Kernel};
use roofline::cost::{Demand, FlopsConstraint};
use roofline::cost::{h100, CostModel};
use roofline::egraph::{decode, import_classes, DidMerge, EGraph, ShapeAnalysis, ShapeConflict};
use roofline::extract::{decide_fusion, extract_cost_driven, select_plan};
use roofline::ir::{naive_attention_program, Program, Shapes, TensorLang};
use roofline::names::NameMap;
use roofline::number::Number;
use roofline::rules::all_rewrites;
use roofline::saturate::{found_equal, saturate, saturate_shaped};
use roofline::tensor::{eval, Term};

fn var(name: &str) -> TensorLang {
    TensorLang::Var(name.to_string())
}

fn shown(node: &TensorLang) -> String {
    format!("{node:?}")
}

#[test]
fn rules_as_text() {
    let rules = all_rewrites();
    let text: Vec<(String, String, String)> =
        rules.iter().map(|r| (r.name.to_string(), r.lhs.render(), r.rhs.render())).collect();
    let expected = [
        ("matmul-assoc-l", "(matmul (matmul ?a ?b) ?c)", "(matmul ?a (matmul ?b ?c))"),
        ("matmul-assoc-r", "(matmul ?a (matmul ?b ?c))", "(matmul (matmul ?a ?b) ?c)"),
        ("transpose-matmul", "(transpose (matmul ?a ?b))", "(matmul (transpose ?b) (transpose ?a))"),
        (
            "matmul-transpose-rev",
            "(matmul (transpose ?a) (transpose ?b))",
            "(transpose (matmul ?b ?a))",
        ),
        ("scale-distrib-l", "(matmul (emul ?a ?s) ?b)", "(emul (matmul ?a ?b) ?s)"),
        ("scale-distrib-r", "(matmul ?a (emul ?b ?s))", "(emul (matmul ?a ?b) ?s)"),
        ("scale-distrib-rev-l", "(emul (matmul ?a ?b) ?s)", "(matmul (emul ?a ?s) ?b)"),
        ("scale-distrib-rev-r", "(emul (matmul ?a ?b) ?s)", "(matmul ?a (emul ?b ?s))"),
        ("fuse-softmax-matmul", "(matmul (softmax ?x) ?v)", "(fuse (matmul (softmax ?x) ?v))"),
        ("fuse-relu-matmul", "(matmul (relu ?x) ?v)", "(fuse (matmul (relu ?x) ?v))"),
    ];
    assert_eq!(text.len(), expected.len());
    for (got, want) in text.iter().zip(expected) {
        assert_eq!((got.0.as_str(), got.1.as_str(), got.2.as_str()), want);
    }
}

fn product_of_three(left: bool) -> Program {
    let mut p = Program::new();
    let a = p.add(var("A"));
    let b = p.add(var("B"));
    let c = p.add(var("C"));
    if left {
        let ab = p.add(TensorLang::MatMul(a, b));
        p.add(TensorLang::MatMul(ab, c));
    } else {
        let bc = p.add(TensorLang::MatMul(b, c));
        p.add(TensorLang::MatMul(a, bc));
    }
    p
}

#[test]
fn associativity_is_found() {
    let run = saturate(&product_of_three(true));
    assert!(found_equal(&run, &product_of_three(true), &product_of_three(false)));
    let mut other = Program::new();
    let a = other.add(var("A"));
    let b = other.add(var("B"));
    other.add(TensorLang::MatMul(b, a));
    assert!(run.lookup_expr(&other).is_none());
    assert!(!found_equal(&run, &product_of_three(true), &other));
    assert!(run.iterations() >= 1 && run.iterations() <= 10);
}

/// `(A * s) B`, or `(A B) * s`.
fn scaled_product(inside: bool) -> Program {
    let mut p = Program::new();
    let a = p.add(var("A"));
    let b = p.add(var("B"));
    let s = p.add(var("s"));
    if inside {
        let scaled = p.add(TensorLang::EMul(a, s));
        p.add(TensorLang::MatMul(scaled, b));
    } else {
        let product = p.add(TensorLang::MatMul(a, b));
        p.add(TensorLang::EMul(product, s));
    }
    p
}

#[test]
fn only_numbers_move_through_products() {
    let found = |scale: Vec<usize>| {
        let mut shapes: Shapes = NameMap::new();
        shapes.insert("A", vec![2, 2]);
        shapes.insert("B", vec![2, 2]);
        shapes.insert("s", scale);
        let run = saturate_shaped(&scaled_product(true), shapes).run;
        run.lookup_expr(&scaled_product(false)).is_some()
    };
    assert!(found(vec![1]));
    assert!(!found(vec![2, 2]));
    assert!(!found(vec![1, 1]));
    // nothing is known of the operand
    assert!(saturate(&scaled_product(true)).lookup_expr(&scaled_product(false)).is_none());
}

/// `((A * s) B) * M`, or `((A B) * s) * M`: one product by a number, and one by a matrix.
fn mixed_products(inside: bool, m: &str) -> Program {
    let mut p = scaled_product(inside);
    let product = p.len() - 1;
    let m = p.add(var(m));
    p.add(TensorLang::EMul(product, m));
    p
}

#[test]
fn numbers_move_beside_other_products() {
    let mut shapes: Shapes = NameMap::new();
    for name in ["A", "B", "M"] {
        shapes.insert(name, vec![2, 2]);
    }
    shapes.insert("s", vec![1]);
    let run = saturate_shaped(&mixed_products(true, "M"), shapes).run;
    assert!(found_equal(&run, &mixed_products(true, "M"), &mixed_products(false, "M")));
    // (A B) * M stays as it is: M is no number
    let inside = {
        let mut p = Program::new();
        let a = p.add(var("A"));
        let b = p.add(var("B"));
        let m = p.add(var("M"));
        let scaled = p.add(TensorLang::EMul(a, m));
        p.add(TensorLang::MatMul(scaled, b));
        p
    };
    assert!(run.lookup_expr(&inside).is_none());
}

#[test]
fn numbers_that_are_computed_move_too() {
    // A * (s * t) with two numbers s and t; s is written twice
    let program = |inside: bool| {
        let mut p = Program::new();
        let a = p.add(var("A"));
        let b = p.add(var("B"));
        let s = p.add(var("s"));
        p.add(var("s"));
        let t = p.add(var("t"));
        let st = p.add(TensorLang::EMul(s, t));
        if inside {
            let scaled = p.add(TensorLang::EMul(a, st));
            p.add(TensorLang::MatMul(scaled, b));
        } else {
            let product = p.add(TensorLang::MatMul(a, b));
            p.add(TensorLang::EMul(product, st));
        }
        p
    };
    let mut shapes: Shapes = NameMap::new();
    shapes.insert("A", vec![2, 3]);
    shapes.insert("B", vec![3, 2]);
    shapes.insert("s", vec![1]);
    shapes.insert("t", vec![1]);
    let run = saturate_shaped(&program(true), shapes).run;
    assert!(run.saturated());
    assert!(found_equal(&run, &program(true), &program(false)));
}

#[test]
fn a_search_uses_its_effort() {
    // a long chain of products does not saturate in a few iterations
    let mut p = Program::new();
    let mut last = p.add(var("A"));
    for i in 0..12 {
        let next = p.add(TensorLang::Var(format!("B{i}")));
        last = p.add(TensorLang::MatMul(last, next));
    }
    let run = saturate(&p);
    assert!(run.saturated() || run.iterations() == 10 || run.number_of_classes() > 100);
    let (naive, _) = naive_attention_program();
    let run = saturate_shaped(&naive, roofline::analysis::attention_shapes(8, 4)).run;
    assert!(run.saturated());
    assert!(run.iterations() > 1);
}

#[test]
fn fitting_programs_get_shapes() {
    let (naive, root) = naive_attention_program();
    let shapes = roofline::analysis::attention_shapes(8, 4);
    let shaped = saturate_shaped(&naive, shapes);
    let egraph = shaped.egraph.unwrap();
    let class = shaped.run.lookup_expr(&naive).unwrap();
    assert_eq!(root, naive.len() - 1);
    assert_eq!(egraph.shape(class), Some(&vec![8, 4]));
    for id in 0..egraph.nodes.len() {
        assert_eq!(egraph.shape(id).is_some(), !egraph.nodes[id].is_empty());
    }
}

#[test]
fn a_search_that_ends_has_found_everything() {
    let mut p = Program::new();
    let a = p.add(var("A"));
    let r = p.add(TensorLang::Relu(a));
    let b = p.add(var("B"));
    let m = p.add(TensorLang::MatMul(r, b));
    let run = saturate(&p);
    assert!(run.saturated());
    let class = run.lookup_expr(&p);
    p.add(TensorLang::Fuse(m));
    assert!(class.is_some());
    assert_eq!(run.lookup_expr(&p), class);
}

#[test]
fn e_classes_of_a_leaf() {
    let mut p = Program::new();
    p.add(var("A"));
    let run = saturate(&p);
    assert_eq!(run.number_of_classes(), 1);
    assert!(run.lookup_expr(&p).is_some());
}

#[test]
fn extraction_takes_the_cheaper_association() {
    // (A B) C is far cheaper than A (B C) when A is a row.
    let mut shapes: Shapes = NameMap::new();
    shapes.insert("A", vec![1, 100]);
    shapes.insert("B", vec![100, 100]);
    shapes.insert("C", vec![100, 100]);
    let expr = product_of_three(false);
    let shaped = saturate_shaped(&expr, shapes);
    let root = shaped.run.lookup_expr(&expr).unwrap();
    let egraph = shaped.egraph.unwrap();
    let model = CostModel::new().add(FlopsConstraint::new(h100()).plug());
    let plan = extract_cost_driven(&egraph, root, &model).unwrap();
    let nodes: Vec<String> = plan.as_ref().iter().map(shown).collect();
    assert_eq!(
        nodes,
        vec!["Var(\"A\")", "Var(\"B\")", "MatMul(0, 1)", "Var(\"C\")", "MatMul(2, 3)"]
    );
}

#[test]
fn shapes_with_too_few_axes_are_refused() {
    let mut shapes: Shapes = NameMap::new();
    shapes.insert("A", vec![4]);
    let mut p = Program::new();
    let a = p.add(var("A"));
    p.add(TensorLang::Transpose(a));
    assert!(saturate_shaped(&p, shapes).egraph.is_none());
}

#[test]
fn unknown_inputs_leave_shapes_open() {
    let mut shapes: Shapes = NameMap::new();
    shapes.insert("A", vec![4, 4]);
    let mut p = Program::new();
    let a = p.add(var("A"));
    let b = p.add(var("B"));
    let e = p.add(TensorLang::EMul(a, b));
    p.add(TensorLang::MatMul(e, b));
    let shaped = saturate_shaped(&p, shapes);
    let root = shaped.run.lookup_expr(&p).unwrap();
    let egraph = shaped.egraph.unwrap();
    // the product has the shape of the operand that is known; the matrix product has none
    assert_eq!(egraph.shape(root), None);
    let mut q = Program::new();
    let a = q.add(var("A"));
    let b = q.add(var("B"));
    q.add(TensorLang::EMul(a, b));
    assert_eq!(egraph.shape(shaped.run.lookup_expr(&q).unwrap()), Some(&vec![4, 4]));
}

#[test]
fn nodes_are_read_by_name() {
    let text = |op: &str, operands: Vec<usize>| {
        decode(&op.to_string(), &operands).map(|n| shown(&n))
    };
    assert_eq!(text("matmul", vec![1, 2]).as_deref(), Some("MatMul(1, 2)"));
    assert_eq!(text("emul", vec![1, 2]).as_deref(), Some("EMul(1, 2)"));
    assert_eq!(text("transpose", vec![1]).as_deref(), Some("Transpose(1)"));
    assert_eq!(text("softmax", vec![1]).as_deref(), Some("Softmax(1)"));
    assert_eq!(text("relu", vec![1]).as_deref(), Some("Relu(1)"));
    assert_eq!(text("fuse", vec![1]).as_deref(), Some("Fuse(1)"));
    assert_eq!(text("matmul", vec![]).as_deref(), Some("Var(\"matmul\")"));
    assert_eq!(text("matmul", vec![1]), None);
    assert_eq!(text("conv", vec![1, 2]), None);
}

#[test]
fn classes_are_filed_in_rank_order() {
    let node = |op: &str, operands: Vec<usize>| (op.to_string(), operands);
    let graph = import_classes(&vec![
        (3, vec![node("fuse", vec![0]), node("matmul", vec![2, 0]), node("matmul", vec![0, 2])]),
        (0, vec![node("A", vec![])]),
    ])
    .unwrap();
    assert_eq!(graph.len(), 4);
    assert!(graph[1].is_empty() && graph[2].is_empty());
    let nodes: Vec<String> = graph[3].iter().map(shown).collect();
    assert_eq!(nodes, vec!["MatMul(0, 2)", "MatMul(2, 0)", "Fuse(0)"]);
    assert!(import_classes(&vec![(0, vec![node("conv", vec![0])])]).is_none());
}

#[test]
fn merging_keeps_the_known_shape() {
    let analysis = ShapeAnalysis { inputs: NameMap::new() };
    let mut a = None;
    assert_eq!(analysis.merge(&mut a, Some(vec![2, 3])), Ok(DidMerge(true, false)));
    assert_eq!(a, Some(vec![2, 3]));
    assert_eq!(analysis.merge(&mut a, None), Ok(DidMerge(false, true)));
    assert_eq!(analysis.merge(&mut a, Some(vec![2, 3])), Ok(DidMerge(false, false)));
    assert_eq!(a, Some(vec![2, 3]));
    let mut b = None;
    assert_eq!(analysis.merge(&mut b, None), Ok(DidMerge(false, false)));
}

#[test]
fn shapes_that_disagree_are_reported() {
    let analysis = ShapeAnalysis { inputs: NameMap::new() };
    let mut a = Some(vec![2, 3]);
    assert_eq!(analysis.merge(&mut a, Some(vec![9, 9])), Err(ShapeConflict));
    assert_eq!(a, Some(vec![2, 3]));
}

#[test]
fn shapes_of_nodes() {
    let mut inputs: Shapes = NameMap::new();
    inputs.insert("A", vec![2, 3]);
    let analysis = ShapeAnalysis { inputs };
    let data = vec![Some(vec![2, 3]), Some(vec![3, 5]), Some(vec![1]), None];
    let make = |node: TensorLang| analysis.make(&data, &node);
    assert_eq!(make(var("A")), Some(Some(vec![2, 3])));
    assert_eq!(make(var("B")), Some(None));
    assert_eq!(make(TensorLang::MatMul(0, 1)), Some(Some(vec![2, 5])));
    assert_eq!(make(TensorLang::MatMul(0, 3)), Some(None));
    assert_eq!(make(TensorLang::MatMul(0, 2)), None);
    assert_eq!(make(TensorLang::Transpose(0)), Some(Some(vec![3, 2])));
    assert_eq!(make(TensorLang::Transpose(2)), None);
    assert_eq!(make(TensorLang::EMul(2, 0)), Some(Some(vec![2, 3])));
    assert_eq!(make(TensorLang::EMul(0, 2)), Some(Some(vec![2, 3])));
    assert_eq!(make(TensorLang::EMul(3, 0)), Some(Some(vec![2, 3])));
    assert_eq!(make(TensorLang::EMul(3, 3)), Some(None));
    assert_eq!(make(TensorLang::Softmax(1)), Some(Some(vec![3, 5])));
}

#[test]
fn a_class_that_only_leads_back_to_itself_has_no_plan() {
    let egraph = EGraph { nodes: vec![vec![TensorLang::Relu(0)]], data: vec![Some(vec![2, 2])] };
    assert!(extract_cost_driven(&egraph, 0, &hbm_model()).is_none());
}

#[test]
fn cycles_are_avoided_where_another_node_is_there() {
    let egraph = EGraph {
        nodes: vec![vec![var("A"), TensorLang::Relu(0), TensorLang::Fuse(0)]],
        data: vec![Some(vec![2, 2])],
    };
    let model = CostModel::new().add(FlopsConstraint::new(h100()).plug());
    let plan = extract_cost_driven(&egraph, 0, &model).unwrap();
    assert_eq!(plan.len(), 1);
    assert_eq!(shown(&plan.as_ref()[0]), "Var(\"A\")");
}

#[test]
fn numbers_that_do_not_fit_give_no_plan() {
    let huge = vec![usize::MAX, usize::MAX];
    let egraph = EGraph { nodes: vec![vec![var("A")]], data: vec![Some(huge)] };
    assert!(extract_cost_driven(&egraph, 0, &hbm_model()).is_none());
}

#[test]
fn fusion_is_decided_by_the_model() {
    let (plan, _) = naive_attention_program();
    let shapes = roofline::analysis::attention_shapes(64, 32);
    let kept = decide_fusion(plan.clone(), &shapes, &CostModel::new()).unwrap();
    assert_eq!(kept.len(), 9);
    let fused = decide_fusion(plan, &shapes, &hbm_model()).unwrap();
    assert_eq!(fused.len(), 10);
}

#[test]
fn nothing_is_selected_over_the_first_of_no_plans() {
    assert_eq!(select_plan(&vec![], &NameMap::new(), &hbm_model()), 0);
}

#[test]
fn bench_plans_are_fused() {
    let b = attention_plan(256, 32).unwrap();
    assert_eq!(lower(&b.plan), Kernel::FusedAttention);
    assert_eq!(b.naive.flops, 4 * 256 * 256 * 32 + 5 * 256 * 256);
    assert_eq!(b.naive.hbm_bytes, 4 * (5 * 256 * 32 + 3 * 256 * 256 + 1));
    assert_eq!(b.fused.hbm_bytes, 4 * (4 * 256 * 32 + 1));
    let b = mlp_plan(128, 16, 64).unwrap();
    assert_eq!(lower(&b.plan), Kernel::FusedMlp);
    assert_eq!(b.naive.flops, 4 * 128 * 16 * 64 + 128 * 64);
    assert_eq!(b.naive.hbm_bytes, 4 * (2 * 128 * 16 + 2 * 16 * 64 + 2 * 128 * 64));
    assert_eq!(b.fused.hbm_bytes, 4 * (2 * 128 * 16 + 2 * 16 * 64));
}

#[test]
fn bench_without_account_is_refused() {
    assert_eq!(attention_plan(0, 4).unwrap_err(), BenchError::NoPlan);
}

#[test]
fn samples_follow_the_generator() {
    assert_eq!(sample(1, 0), 1);
    assert_eq!(sample(1, 1), (1103515245 + 1) % 1000);
    let wrapped = u64::MAX.wrapping_mul(1103515245).wrapping_add(u64::MAX) % 1000;
    assert_eq!(sample(u64::MAX, u64::MAX), wrapped);
    assert_eq!(gen(7, 3), vec![sample(7, 0), sample(7, 1), sample(7, 2)]);
    assert_eq!(tensor_seed(42, 1), Some(421));
    assert_eq!(tensor_seed(u64::MAX, 1), None);
}

fn number(x: f64) -> Number {
    Number { bits: x.to_bits() }
}

#[test]
fn median_is_the_middle_of_the_sorted_times() {
    let of = |xs: &[f64]| median(&xs.iter().map(|x| number(*x)).collect());
    assert_eq!(of(&[3.0, 1.0, 2.0]), number(2.0));
    assert_eq!(of(&[4.0, 1.0, 3.0, 2.0]), number(3.0));
    assert_eq!(of(&[5.5]), number(5.5));
}

#[test]
fn outcomes_are_recorded_by_name() {
    let o = BenchOutcome {
        naive_ms: number(2.0),
        fused_ms: number(1.0),
        speedup: number(2.0),
        max_abs_err: number(0.0),
        naive_hbm_bytes: number(8.0),
        fused_hbm_bytes: number(4.0),
        flops: number(16.0),
    };
    let n = o.numbers();
    assert_eq!(n.len(), 7);
    assert_eq!(n.get("naive_ms"), Some(&number(2.0)));
    assert_eq!(n.get("fused_hbm_bytes"), Some(&number(4.0)));
    assert_eq!(n.get("flops"), Some(&number(16.0)));
}

#[test]
fn bench_model_sees_flops_and_traffic() {
    let (_, binding, details) = hbm_model().cost(&Demand::new(1, 1000));
    assert_eq!(binding, "HbmBytes");
    assert_eq!(details.len(), 2);
}

#[test]
fn inputs_that_do_not_fit_are_refused() {
    let terms = |n: u64| (0..n).map(Term::Input).collect::<Vec<Term>>();
    let env = attention_env(2, 3, terms(6), terms(6), terms(6), Term::One).unwrap();
    assert_eq!(env.len(), 4);
    assert_eq!(env.get("K_sd").unwrap().shape, vec![2, 3]);
    let (p, root) = naive_attention_program();
    assert_eq!(eval(&p, root, &env).shape, vec![2, 3]);
    assert!(attention_env(2, 3, terms(6), terms(5), terms(6), Term::One).is_none());
    let env = attention_env(1, 3, terms(3), terms(3), terms(3), Term::One).unwrap();
    assert_eq!(eval(&p, root, &env).shape, vec![1, 3]);
    assert!(attention_env(0, 3, terms(0), terms(0), terms(0), Term::One).is_none());
    let env = mlp_env(1, 2, 3, terms(2), terms(6), terms(6)).unwrap();
    assert_eq!(env.get("W_up_df").unwrap().shape, vec![2, 3]);
    assert!(mlp_env(1, 2, 3, terms(2), terms(6), terms(7)).is_none());
    assert!(mlp_env(usize::MAX, 2, 3, terms(2), terms(6), terms(6)).is_none());
}
