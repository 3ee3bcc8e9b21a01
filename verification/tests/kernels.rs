use roofline::account::account;
use roofline::analysis::attention_shapes;
use roofline::codegen::{fused_attention, fused_mlp, lower, lower_and_run, Kernel};
use roofline::ir::{
    fused_attention_program, fused_mlp_program, infer_shape, naive_attention_program,
    naive_mlp_program, Program, TensorLang,
};
use roofline::names::NameMap;
use roofline::tensor::{eval, Scalar, TensorData, Term};

/// Single-precision scalars.
#[derive(Clone, Copy, Debug, PartialEq)]
struct F32(f32);

impl Scalar for F32 {
    fn the_zero() -> Self {
        F32(0.0)
    }

    fn the_one() -> Self {
        F32(1.0)
    }

    fn the_lowest() -> Self {
        F32(f32::NEG_INFINITY)
    }

    fn sum(self, other: Self) -> Self {
        F32(self.0 + other.0)
    }

    fn difference(self, other: Self) -> Self {
        F32(self.0 - other.0)
    }

    fn product(self, other: Self) -> Self {
        F32(self.0 * other.0)
    }

    fn quotient(self, other: Self) -> Self {
        F32(self.0 / other.0)
    }

    fn larger(self, other: Self) -> Self {
        F32(self.0.max(other.0))
    }

    fn exponential(self) -> Self {
        F32(self.0.exp())
    }

    fn zero() -> Self {
        F32(0.0)
    }

    fn one() -> Self {
        F32(1.0)
    }

    fn lowest() -> Self {
        F32(f32::NEG_INFINITY)
    }

    fn copy(&self) -> Self {
        *self
    }

    fn plus(&self, other: &Self) -> Self {
        F32(self.0 + other.0)
    }

    fn minus(&self, other: &Self) -> Self {
        F32(self.0 - other.0)
    }

    fn times(&self, other: &Self) -> Self {
        F32(self.0 * other.0)
    }

    fn over(&self, other: &Self) -> Self {
        F32(self.0 / other.0)
    }

    fn max(&self, other: &Self) -> Self {
        F32(self.0.max(other.0))
    }

    fn exp(&self) -> Self {
        F32(self.0.exp())
    }
}

type Env = NameMap<TensorData<F32>>;

fn tensor(shape: Vec<usize>, data: &[f32]) -> TensorData<F32> {
    TensorData::new(shape, data.iter().map(|x| F32(*x)).collect())
}

fn floats(t: &TensorData<F32>) -> Vec<f32> {
    t.data.iter().map(|x| x.0).collect()
}

fn max_abs_err(a: &TensorData<F32>, b: &TensorData<F32>) -> f32 {
    floats(a).iter().zip(&floats(b)).map(|(x, y)| (x - y).abs()).fold(0.0, f32::max)
}

fn gen(factor: usize, seed: usize, n: usize) -> Vec<f32> {
    (0..n).map(|i| (((i * factor + seed) % 1000) as f32) / 500.0 - 1.0).collect()
}

fn attn_env(factor: usize, s: usize, d: usize) -> Env {
    let mut env: Env = NameMap::new();
    env.insert("Q_sd", tensor(vec![s, d], &gen(factor, 1, s * d)));
    env.insert("K_sd", tensor(vec![s, d], &gen(factor, 2, s * d)));
    env.insert("V_sd", tensor(vec![s, d], &gen(factor, 3, s * d)));
    env.insert("scale", TensorData::scalar(F32(1.0 / (d as f32).sqrt())));
    env
}

fn mlp_env(s: usize, d: usize, f: usize) -> Env {
    let mut env: Env = NameMap::new();
    env.insert("X_sd", tensor(vec![s, d], &gen(1103515245, 1, s * d)));
    env.insert("W_up_df", tensor(vec![d, f], &gen(1103515245, 2, d * f)));
    env.insert("W_dn_fd", tensor(vec![f, d], &gen(1103515245, 3, f * d)));
    env
}

fn attend(env: &Env) -> TensorData<F32> {
    fused_attention(
        env.get("Q_sd").unwrap(),
        env.get("K_sd").unwrap(),
        env.get("V_sd").unwrap(),
        &env.get("scale").unwrap().data[0],
    )
}

const S: usize = 4;
const D: usize = 8;

const Q: [f32; 32] = [
    0.49671414, -0.13826430, 0.64768857, 1.52302980, -0.23415338, -0.23413695, 1.57921278,
    0.76743472, -0.46947438, 0.54256004, -0.46341768, -0.46572974, 0.24196227, -1.91328025,
    -1.72491789, -0.56228751, -1.01283109, 0.31424734, -0.90802407, -1.41230369, 1.46564877,
    -0.22577630, 0.06752820, -1.42474818, -0.54438275, 0.11092259, -1.15099359, 0.37569803,
    -0.60063869, -0.29169375, -0.60170662, 1.85227823,
];

const K: [f32; 32] = [
    -0.01349723, -1.05771089, 0.82254493, -1.22084367, 0.20886360, -1.95967007, -1.32818604,
    0.19686124, 0.73846656, 0.17136829, -0.11564828, -0.30110368, -1.47852194, -0.71984422,
    -0.46063876, 1.05712223, 0.34361830, -1.76304018, 0.32408398, -0.38508227, -0.67692202,
    0.61167628, 1.03099954, 0.93128014, -0.83921754, -0.30921239, 0.33126342, 0.97554511,
    -0.47917423, -0.18565898, -1.10633492, -1.19620657,
];

const V: [f32; 32] = [
    0.81252581, 1.35624003, -0.07201012, 1.00353289, 0.36163601, -0.64511973, 0.36139560,
    1.53803658, -0.03582604, 1.56464362, -2.61974502, 0.82190251, 0.08704707, -0.29900736,
    0.09176078, -1.98756886, -0.21967189, 0.35711256, 1.47789407, -0.51827019, -0.80849361,
    -0.50175703, 0.91540211, 0.32875112, -0.52976018, 0.51326746, 0.09707755, 0.96864498,
    -0.70205307, -0.32766214, -0.39210814, -1.46351492,
];

// softmax(Q K^T / sqrt(8)) @ V
const EXPECTED: [f32; 32] = [
    -0.13081041, 0.77212578, 0.10108928, 0.16807331, -0.46588686, -0.43681264, 0.46851459,
    -0.42075405, 0.40109277, 1.19080400, -0.35037300, 0.94668907, 0.08274233, -0.53010100,
    0.17683369, 0.41923392, 0.17910026, 0.98456150, -0.06763012, 0.80678093, -0.14453167,
    -0.49373081, 0.15002953, 0.10067090, 0.01421369, 1.14907670, -0.99239492, 0.60451710,
    -0.14600018, -0.40496817, 0.24215066, -0.82777077,
];

fn make_env() -> Env {
    let mut env: Env = NameMap::new();
    env.insert("Q_sd", tensor(vec![S, D], &Q));
    env.insert("K_sd", tensor(vec![S, D], &K));
    env.insert("V_sd", tensor(vec![S, D], &V));
    env.insert("scale", TensorData::scalar(F32(1.0_f32 / (D as f32).sqrt())));
    env
}

#[test]
fn numerics_gate() {
    let env = make_env();
    let (expr, root) = naive_attention_program();
    let result = eval(&expr, root, &env);

    assert_eq!(result.shape, vec![S, D], "output shape mismatch");
    for (i, (got, exp)) in floats(&result).iter().zip(EXPECTED.iter()).enumerate() {
        let diff = (got - exp).abs();
        assert!(
            diff < 1e-5,
            "element {}: got {:.8}, expected {:.8}, diff {:.2e}",
            i,
            got,
            exp,
            diff
        );
    }
}

#[test]
fn fused_kernel_meets_the_numerics_gate() {
    let result = attend(&make_env());
    assert_eq!(result.shape, vec![S, D]);
    for (got, exp) in floats(&result).iter().zip(EXPECTED.iter()) {
        assert!((got - exp).abs() < 1e-5);
    }
}

#[test]
fn hbm_contains_s_squared_term() {
    let d = 64usize;
    for &s in &[32usize, 64, 128, 256] {
        let (expr, root) = naive_attention_program();
        let acc = account(&expr, root, &attention_shapes(s, d));
        let scores_bytes = (s * s * 4) as u64;
        assert!(
            acc.hbm_bytes >= scores_bytes,
            "s={s}: hbm_bytes {} must be at least scores_ss {} bytes",
            acc.hbm_bytes,
            scores_bytes
        );
    }
}

#[test]
fn shape_inference() {
    let (expr, root) = naive_attention_program();
    let out_shape = infer_shape(&expr, root, &attention_shapes(S, D));
    assert_eq!(out_shape, vec![S, D]);
}

#[test]
fn fused_attention_matches_naive_numerically() {
    let (s, d) = (48, 16);
    let env = attn_env(2654435761, s, d);

    let (naive, naive_root) = naive_attention_program();
    let (fused, fused_root) = fused_attention_program();

    let a = eval(&naive, naive_root, &env);
    let b = eval(&fused, fused_root, &env);

    assert_eq!(a.shape, b.shape, "fused output shape must match naive");
    let max_err = max_abs_err(&a, &b);
    assert!(max_err < 1e-5, "fused vs naive max abs err {max_err} exceeds 1e-5");
}

#[test]
fn fused_attention_cuts_hbm() {
    let (s, d) = (256, 32);
    let shapes = attention_shapes(s, d);

    let (naive, naive_root) = naive_attention_program();
    let (fused, fused_root) = fused_attention_program();

    let na = account(&naive, naive_root, &shapes);
    let fa = account(&fused, fused_root, &shapes);

    assert!(
        fa.hbm_bytes < na.hbm_bytes,
        "fused HBM {} should be < naive HBM {}",
        fa.hbm_bytes,
        na.hbm_bytes
    );
    let one_ss = (s * s * 4) as u64;
    assert!(
        na.hbm_bytes - fa.hbm_bytes >= one_ss,
        "fusion should save at least one s*s tile ({} bytes); saved {}",
        one_ss,
        na.hbm_bytes - fa.hbm_bytes
    );
    assert_eq!(na.flops, fa.flops, "fusion must not change flops");
}

#[test]
fn fused_kernel_matches_reference_across_shapes() {
    let (prog, root) = naive_attention_program();
    for &(s, d) in &[(64, 16), (128, 32), (256, 64), (384, 48)] {
        let e = attn_env(1103515245, s, d);
        let reference = eval(&prog, root, &e);
        let fused = attend(&e);
        let err = max_abs_err(&reference, &fused);
        assert!(err < 1e-5, "fused kernel err {err} at s={s} d={d} exceeds 1e-5");
    }
}

#[test]
fn lower_picks_fused_when_plan_has_fuse() {
    let (naive, _) = naive_attention_program();
    assert_eq!(lower(&naive), Kernel::Reference);

    // wrap the naive plan in a fuse node (what the optimizer's fused plan is)
    let mut fused = naive.clone();
    let r = fused.as_ref().len() - 1;
    fused.add(TensorLang::Fuse(r));
    assert_eq!(lower(&fused), Kernel::FusedAttention);
}

#[test]
fn fused_mlp_matches_reference_across_shapes() {
    let (prog, root) = naive_mlp_program();
    for &(s, d, f) in
        &[(64, 32, 16), (64, 32, 32), (128, 32, 128), (256, 64, 512), (200, 48, 384)]
    {
        let e = mlp_env(s, d, f);
        let reference = eval(&prog, root, &e);
        let fused = fused_mlp(
            e.get("X_sd").unwrap(),
            e.get("W_up_df").unwrap(),
            e.get("W_dn_fd").unwrap(),
        );
        let err = max_abs_err(&reference, &fused);
        assert!(err < 1e-5, "fused MLP err {err} at s={s} d={d} f={f} exceeds 1e-5");
    }
}

#[test]
fn lower_picks_fused_mlp_when_plan_has_fuse_and_relu() {
    let (naive, _) = naive_mlp_program();
    assert_eq!(lower(&naive), Kernel::Reference);

    let (fused, _) = fused_mlp_program();
    assert_eq!(lower(&fused), Kernel::FusedMlp);
}

#[test]
fn fused_plan_without_producer_is_interpreted() {
    let mut p = Program::new();
    let a = p.add(TensorLang::Var("A".to_string()));
    p.add(TensorLang::Fuse(a));
    assert_eq!(lower(&p), Kernel::Reference);
}

#[test]
fn fused_mlp_does_the_reference_arithmetic_bit_for_bit() {
    let (prog, root) = naive_mlp_program();
    let e = mlp_env(9, 5, 7);
    let reference = eval(&prog, root, &e);
    let (plan, plan_root) = fused_mlp_program();
    let fused = lower_and_run(&plan, plan_root, &e);
    assert_eq!(fused.shape, vec![9, 5]);
    assert_eq!(reference.data, fused.data);
}

fn terms(shape: Vec<usize>, from: u64) -> TensorData<Term> {
    let n: usize = shape.iter().product();
    TensorData::new(shape, (0..n as u64).map(|i| Term::Input(from + i)).collect())
}

#[test]
fn fused_mlp_gives_the_terms_of_the_reference() {
    let mut env: NameMap<TensorData<Term>> = NameMap::new();
    env.insert("X_sd", terms(vec![2, 3], 0));
    env.insert("W_up_df", terms(vec![3, 4], 100));
    env.insert("W_dn_fd", terms(vec![4, 2], 200));
    let (prog, root) = naive_mlp_program();
    let reference = eval(&prog, root, &env);
    let fused = fused_mlp(
        env.get("X_sd").unwrap(),
        env.get("W_up_df").unwrap(),
        env.get("W_dn_fd").unwrap(),
    );
    assert_eq!(reference.shape, fused.shape);
    assert_eq!(reference.data, fused.data);
}

fn sum(a: Term, b: Term) -> Term {
    Term::Sum(Box::new(a), Box::new(b))
}

fn product(a: u64, b: u64) -> Term {
    Term::Product(Box::new(Term::Input(a)), Box::new(Term::Input(b)))
}

#[test]
fn matrix_product_adds_in_order_from_zero() {
    let mut env: NameMap<TensorData<Term>> = NameMap::new();
    env.insert("A", terms(vec![1, 2], 0));
    env.insert("B", terms(vec![2, 1], 10));
    let mut p = Program::new();
    let a = p.add(TensorLang::Var("A".to_string()));
    let b = p.add(TensorLang::Var("B".to_string()));
    let root = p.add(TensorLang::MatMul(a, b));
    let c = eval(&p, root, &env);
    assert_eq!(c.shape, vec![1, 1]);
    assert_eq!(c.data, vec![sum(sum(Term::Zero, product(0, 10)), product(1, 11))]);
}

#[test]
fn transpose_moves_rows_to_columns() {
    let mut env: Env = NameMap::new();
    env.insert("A", tensor(vec![2, 3], &[1.0, 2.0, 3.0, 4.0, 5.0, 6.0]));
    let mut p = Program::new();
    let a = p.add(TensorLang::Var("A".to_string()));
    let root = p.add(TensorLang::Transpose(a));
    let t = eval(&p, root, &env);
    assert_eq!(t.shape, vec![3, 2]);
    assert_eq!(floats(&t), vec![1.0, 4.0, 2.0, 5.0, 3.0, 6.0]);
}

#[test]
fn products_broadcast_either_operand_of_one_element() {
    let mut env: Env = NameMap::new();
    env.insert("A", tensor(vec![2, 2], &[1.0, 2.0, 3.0, 4.0]));
    env.insert("s", TensorData::scalar(F32(10.0)));
    let mut p = Program::new();
    let a = p.add(TensorLang::Var("A".to_string()));
    let s = p.add(TensorLang::Var("s".to_string()));
    let left = p.add(TensorLang::EMul(s, a));
    let right = p.add(TensorLang::EMul(a, s));
    let square = p.add(TensorLang::EMul(a, a));
    assert_eq!(floats(&eval(&p, left, &env)), vec![10.0, 20.0, 30.0, 40.0]);
    assert_eq!(floats(&eval(&p, right, &env)), vec![10.0, 20.0, 30.0, 40.0]);
    assert_eq!(floats(&eval(&p, square, &env)), vec![1.0, 4.0, 9.0, 16.0]);
}

#[test]
fn a_number_on_the_right_keeps_the_shape() {
    let mut env: Env = NameMap::new();
    env.insert("A", tensor(vec![1, 1], &[3.0]));
    env.insert("s", TensorData::scalar(F32(10.0)));
    let mut p = Program::new();
    let a = p.add(TensorLang::Var("A".to_string()));
    let s = p.add(TensorLang::Var("s".to_string()));
    let right = p.add(TensorLang::EMul(a, s));
    let left = p.add(TensorLang::EMul(s, a));
    assert_eq!(eval(&p, right, &env).shape, vec![1, 1]);
    assert_eq!(eval(&p, left, &env).shape, vec![1, 1]);
    assert_eq!(floats(&eval(&p, right, &env)), vec![30.0]);
}

#[test]
fn attention_over_one_position_gives_its_value() {
    let mut env: Env = NameMap::new();
    env.insert("Q_sd", tensor(vec![1, 1], &[2.0]));
    env.insert("K_sd", tensor(vec![1, 1], &[3.0]));
    env.insert("V_sd", tensor(vec![1, 1], &[5.0]));
    env.insert("scale", TensorData::scalar(F32(1.0)));
    let (naive, root) = naive_attention_program();
    assert_eq!(eval(&naive, root, &env).shape, vec![1, 1]);
    assert_eq!(floats(&eval(&naive, root, &env)), vec![5.0]);
    let (fused, root) = fused_attention_program();
    assert_eq!(floats(&lower_and_run(&fused, root, &env)), vec![5.0]);
    assert_eq!(infer_shape(&fused, root, &attention_shapes(1, 1)), vec![1, 1]);
}

#[test]
fn keys_may_change_places() {
    let q = tensor(vec![2, 2], &[1.0, -1.0, 0.5, 2.0]);
    let k = tensor(vec![3, 2], &[1.0, 0.0, 0.0, 1.0, -1.0, 2.0]);
    let v = tensor(vec![3, 1], &[3.0, 5.0, 11.0]);
    let other_k = tensor(vec![3, 2], &[-1.0, 2.0, 1.0, 0.0, 0.0, 1.0]);
    let other_v = tensor(vec![3, 1], &[11.0, 3.0, 5.0]);
    let a = floats(&fused_attention(&q, &k, &v, &F32(0.5)));
    let b = floats(&fused_attention(&q, &other_k, &other_v, &F32(0.5)));
    for (x, y) in a.iter().zip(&b) {
        assert!((x - y).abs() < 1e-5);
    }
    // what is given is an average of the values
    assert!(a.iter().all(|x| (3.0..=11.0).contains(x)));
    assert_ne!(a[0], a[1]);
}

#[test]
fn a_kernel_is_named_by_what_is_fused() {
    // a softmax behind a fused MLP is not part of the kernel
    let (mut p, root) = fused_mlp_program();
    p.add(TensorLang::Softmax(root));
    assert_eq!(lower(&p), Kernel::FusedMlp);
    // and one that nothing fuses is none
    let (p, _) = naive_attention_program();
    assert_eq!(lower(&p), Kernel::Reference);
}

/// Fused attention with the scale at the queries, or at the keys.
fn scaled_operand(queries: bool) -> (Program, usize) {
    let mut p = Program::new();
    let q = p.add(TensorLang::Var("Q_sd".to_string()));
    let k = p.add(TensorLang::Var("K_sd".to_string()));
    let v = p.add(TensorLang::Var("V_sd".to_string()));
    let c = p.add(TensorLang::Var("scale".to_string()));
    let kt = p.add(TensorLang::Transpose(k));
    let scores = if queries {
        let scaled = p.add(TensorLang::EMul(q, c));
        p.add(TensorLang::MatMul(scaled, kt))
    } else {
        let scaled = p.add(TensorLang::EMul(kt, c));
        p.add(TensorLang::MatMul(q, scaled))
    };
    let attn = p.add(TensorLang::Softmax(scores));
    let out = p.add(TensorLang::MatMul(attn, v));
    let root = p.add(TensorLang::Fuse(out));
    (p, root)
}

#[test]
fn every_form_of_attention_runs_as_the_kernel() {
    let mut env: Env = NameMap::new();
    env.insert("Q_sd", tensor(vec![2, 2], &[1.0, -1.0, 0.5, 2.0]));
    env.insert("K_sd", tensor(vec![3, 2], &[1.0, 0.25, 0.0, 1.0, -1.0, 2.0]));
    env.insert("V_sd", tensor(vec![3, 1], &[3.0, 5.0, 11.0]));
    env.insert("scale", TensorData::scalar(F32(0.3)));
    let get = |name: &str| env.get(name).unwrap();
    let kernel = fused_attention(get("Q_sd"), get("K_sd"), get("V_sd"), &F32(0.3));
    for queries in [true, false] {
        let (p, root) = scaled_operand(queries);
        assert_eq!(lower(&p), Kernel::FusedAttention);
        let run = lower_and_run(&p, root, &env);
        assert_eq!(floats(&run), floats(&kernel));
        for (x, y) in floats(&run).iter().zip(floats(&eval(&p, root, &env))) {
            assert!((x - y).abs() < 1e-5);
        }
    }
}

#[test]
fn inner_regions_keep_the_value() {
    let mut env: Env = NameMap::new();
    env.insert("A", tensor(vec![2, 2], &[-1.0, 2.0, 0.0, 4.0]));
    let mut p = Program::new();
    let a = p.add(TensorLang::Var("A".to_string()));
    let r = p.add(TensorLang::Relu(a));
    let f = p.add(TensorLang::Fuse(r));
    let with = p.add(TensorLang::MatMul(f, a));
    let without = p.add(TensorLang::MatMul(r, a));
    assert_eq!(floats(&eval(&p, with, &env)), floats(&eval(&p, without, &env)));
}

#[test]
fn what_follows_a_fused_region_is_computed() {
    let mut env: Env = NameMap::new();
    env.insert("Q_sd", tensor(vec![2, 1], &[1.0, 2.0]));
    env.insert("K_sd", tensor(vec![2, 1], &[1.0, -1.0]));
    env.insert("V_sd", tensor(vec![2, 1], &[-3.0, -5.0]));
    env.insert("scale", TensorData::scalar(F32(1.0)));
    let (mut p, root) = fused_attention_program();
    let relu = p.add(TensorLang::Relu(root));
    assert_eq!(floats(&lower_and_run(&p, relu, &env)), vec![0.0, 0.0]);
}

#[test]
fn relu_and_softmax_rows() {
    let mut env: Env = NameMap::new();
    env.insert("A", tensor(vec![2, 2], &[-1.0, 2.0, 0.0, 0.0]));
    let mut p = Program::new();
    let a = p.add(TensorLang::Var("A".to_string()));
    let r = p.add(TensorLang::Relu(a));
    let s = p.add(TensorLang::Softmax(r));
    assert_eq!(floats(&eval(&p, r, &env)), vec![0.0, 2.0, 0.0, 0.0]);
    let soft = floats(&eval(&p, s, &env));
    assert!((soft[0] + soft[1] - 1.0).abs() < 1e-6);
    assert!((soft[1] / soft[0] - 2.0f32.exp()).abs() < 1e-4);
    assert_eq!(soft[2], 0.5);
    assert_eq!(soft[3], 0.5);
}

#[test]
fn rules_keep_values_in_exact_arithmetic() {
    // Small whole numbers, on which single precision does not round.
    let whole = |rows: usize, cols: usize, step: usize| {
        let data: Vec<f32> = (0..rows * cols).map(|i| ((i * step) % 7) as f32 - 3.0).collect();
        tensor(vec![rows, cols], &data)
    };
    let mut env: Env = NameMap::new();
    env.insert("A", whole(2, 3, 2));
    env.insert("B", whole(3, 4, 3));
    env.insert("C", whole(4, 2, 5));
    env.insert("S", TensorData::scalar(F32(-2.0)));
    let value = |ops: &[TensorLang]| {
        let mut p = Program::new();
        for name in ["A", "B", "C", "S"] {
            p.add(TensorLang::Var(name.to_string()));
        }
        for op in ops {
            p.add(op.clone());
        }
        let t = eval(&p, p.len() - 1, &env);
        (t.shape.clone(), floats(&t))
    };
    use_rule(
        value(&[TensorLang::MatMul(0, 1), TensorLang::MatMul(4, 2)]),
        value(&[TensorLang::MatMul(1, 2), TensorLang::MatMul(0, 4)]),
    );
    use_rule(
        value(&[TensorLang::MatMul(0, 1), TensorLang::Transpose(4)]),
        value(&[TensorLang::Transpose(1), TensorLang::Transpose(0), TensorLang::MatMul(4, 5)]),
    );
    let scaled_product = value(&[TensorLang::MatMul(0, 1), TensorLang::EMul(4, 3)]);
    use_rule(
        value(&[TensorLang::EMul(0, 3), TensorLang::MatMul(4, 1)]),
        scaled_product.clone(),
    );
    use_rule(value(&[TensorLang::EMul(1, 3), TensorLang::MatMul(0, 4)]), scaled_product);
    use_rule(
        value(&[TensorLang::Relu(0), TensorLang::MatMul(4, 1)]),
        value(&[TensorLang::Relu(0), TensorLang::MatMul(4, 1), TensorLang::Fuse(5)]),
    );
}

fn use_rule(lhs: (Vec<usize>, Vec<f32>), rhs: (Vec<usize>, Vec<f32>)) {
    assert_eq!(lhs, rhs);
    assert!(lhs.1.iter().any(|x| *x != 0.0));
}
