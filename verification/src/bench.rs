//! The benchmarks: which data they run on, which plan they measure, and how times are summed up.
use crate::account::{
    account_of, attention_inputs, fused_attention_account, fused_mlp_account, mlp_inputs,
    naive_attention_account, naive_mlp_account, tally, try_account, Account,
};
use crate::analysis::{attention_dims, attention_shapes, mlp_dims, mlp_shapes};
use crate::codegen::{fused_attention_value, fused_mlp_value, kernel_of, lower, Kernel};
use crate::cost::{
    h100, infeasible_plans_never_finish, CostModel, Demand, FlopsConstraint, HbmConstraint,
};
use crate::egraph::{graph_closed, represents, EGraph};
use crate::extract::{extract_cost_driven, extraction, fused_plan, problem, Problem};
use crate::ir::{
    attention_nodes, dims, inferred_shape, lemma_numel_matrix, lemma_numel_one, mlp_nodes,
    naive_attention_program, naive_mlp_program, scalar_shape, well_ordered, Id, Node,
    Program, Shapes,
};
use crate::kernel_laws::plain_plans_are_interpreted;
use crate::laws::{
    computes_the_same, extracted_plans_are_ordered, extraction_computes_the_same, fuse_free,
    sees_flops_and_traffic,
};
use crate::meaning::fused_plans_move_the_same_bytes;
use crate::names::NameMap;
use crate::number::Number;
use crate::plan_laws::{extraction_fuses_what_pays, finishes};
use crate::rules::rules_for;
use crate::saturate::{
    class_of_program, lemma_class_of_program, saturate_shaped, shaped_from, symbolics, Shaped,
};
use crate::seconds::Time;
use crate::shape_laws::fits;
use crate::tensor::{env_well_formed, evaluated, Scalar, Tensor, TensorData};
use vstd::prelude::*;

verus! {

// ---- Data ----

/// Element `i` of the pseudo-random data of a seed, from 0 to 999.
pub open spec fn sample_of(seed: u64, i: u64) -> u64 {
    (((i * 1103515245) % 0x1_0000_0000_0000_0000 + seed) % 0x1_0000_0000_0000_0000 % 1000) as u64
}

/// Element `i` of the pseudo-random data of a seed.
pub fn sample(seed: u64, i: u64) -> (x: u64)
    ensures
        x == sample_of(seed, i),
        x < 1000,
{
    i.wrapping_mul(1103515245).wrapping_add(seed) % 1000
}

/// The first `n` elements of the pseudo-random data of a seed, so that a committed seed pins the
/// inputs exactly.
pub fn gen(seed: u64, n: u64) -> (data: Vec<u64>)
    ensures
        data@ == Seq::new(n as nat, |i: int| sample_of(seed, i as u64)),
{
    let mut data: Vec<u64> = Vec::new();
    let mut i: u64 = 0;
    while i < n
        invariant
            i <= n,
            data@ == Seq::new(i as nat, |k: int| sample_of(seed, k as u64)),
        decreases n - i,
    {
        data.push(sample(seed, i));
        assert(data@ =~= Seq::new(i as nat + 1, |k: int| sample_of(seed, k as u64)));
        i = i + 1;
    }
    data
}

/// The seed of input tensor `index` of a run: `seed * 10 + index`, where 64 bits hold it.
pub fn tensor_seed(seed: u64, index: u64) -> (s: Option<u64>)
    ensures
        match s {
            Some(v) => v == seed * 10 + index,
            None => seed * 10 + index > u64::MAX,
        },
{
    match seed.checked_mul(10) {
        Some(tens) => tens.checked_add(index),
        None => None,
    }
}

// ---- Inputs ----

fn matrix<T: Scalar>(rows: usize, cols: usize, data: Vec<T>) -> (tensor: Option<TensorData<T>>)
    ensures
        match tensor {
            Some(t) => {
                &&& rows * cols == data@.len()
                &&& t@ == (Tensor { shape: seq![rows, cols], data: data@ })
                &&& t@.well_formed()
            },
            None => rows * cols != data@.len(),
        },
{
    let len: usize = data.len();
    let fits = match rows.checked_mul(cols) {
        Some(count) => count == len,
        None => false,
    };
    if !fits {
        return None;
    }
    let shape: Vec<usize> = vec![rows, cols];
    assert(shape@ =~= seq![rows, cols]);
    proof {
        lemma_numel_matrix(rows, cols);
    }
    Some(TensorData::new(shape, data))
}

/// Whether `env` holds the tensor of this shape and these elements under `name`.
pub open spec fn holds<T>(
    env: Map<Seq<char>, TensorData<T>>,
    name: Seq<char>,
    shape: Seq<usize>,
    data: Seq<T>,
) -> bool {
    env.dom().contains(name) && env[name]@ == (Tensor { shape, data })
}

proof fn lemma_attention_fits<T: Scalar>(env: Map<Seq<char>, TensorData<T>>, s: usize, d: usize)
    requires
        s >= 1,
        env.dom().contains("Q_sd"@) && env["Q_sd"@]@.shape == seq![s, d],
        env.dom().contains("K_sd"@) && env["K_sd"@]@.shape == seq![s, d],
        env.dom().contains("V_sd"@) && env["V_sd"@]@.shape == seq![s, d],
        env.dom().contains("scale"@) && env["scale"@]@.shape == seq![1usize],
    ensures
        evaluated(attention_nodes(), env, 8) is Some,
{
    let nodes = attention_nodes();
    lemma_numel_matrix(s, s);
    lemma_numel_one(seq![1usize]);
    assert(evaluated(nodes, env, 0) == Some(env["Q_sd"@]@));
    assert(evaluated(nodes, env, 1) == Some(env["K_sd"@]@));
    assert(evaluated(nodes, env, 2) == Some(env["V_sd"@]@));
    assert(evaluated(nodes, env, 3) == Some(env["scale"@]@));
    assert(evaluated(nodes, env, 4).unwrap().shape == seq![d, s]);
    assert(evaluated(nodes, env, 5).unwrap().shape == seq![s, s]);
    assert(evaluated(nodes, env, 6).unwrap().shape == seq![s, s]);
    assert(evaluated(nodes, env, 7).unwrap().shape == seq![s, s]);
}

proof fn lemma_mlp_fits<T: Scalar>(
    env: Map<Seq<char>, TensorData<T>>,
    s: usize,
    d: usize,
    f: usize,
)
    requires
        env.dom().contains("X_sd"@) && env["X_sd"@]@.shape == seq![s, d],
        env.dom().contains("W_up_df"@) && env["W_up_df"@]@.shape == seq![d, f],
        env.dom().contains("W_dn_fd"@) && env["W_dn_fd"@]@.shape == seq![f, d],
    ensures
        evaluated(mlp_nodes(), env, 5) is Some,
{
    let nodes = mlp_nodes();
    assert(evaluated(nodes, env, 0) == Some(env["X_sd"@]@));
    assert(evaluated(nodes, env, 1) == Some(env["W_up_df"@]@));
    assert(evaluated(nodes, env, 2) == Some(env["W_dn_fd"@]@));
    assert(evaluated(nodes, env, 3).unwrap().shape == seq![s, f]);
    assert(evaluated(nodes, env, 4).unwrap().shape == seq![s, f]);
}

/// The inputs of attention over `s` positions of width `d`, by name. Nothing where the naive
/// program has no value on them: where a matrix does not have `s * d` elements, or where there is
/// no position.
pub fn attention_env<T: Scalar>(
    s: usize,
    d: usize,
    q: Vec<T>,
    k: Vec<T>,
    v: Vec<T>,
    scale: T,
) -> (env: Option<NameMap<TensorData<T>>>)
    ensures
        env is Some <==> s >= 1 && s * d == q@.len() == k@.len() == v@.len(),
        env matches Some(e) ==> {
            &&& e@.dom() == set!["Q_sd"@, "K_sd"@, "V_sd"@, "scale"@]
            &&& holds(e@, "Q_sd"@, seq![s, d], q@)
            &&& holds(e@, "K_sd"@, seq![s, d], k@)
            &&& holds(e@, "V_sd"@, seq![s, d], v@)
            &&& holds(e@, "scale"@, seq![1usize], seq![scale])
            &&& env_well_formed(e@)
            &&& evaluated(attention_nodes(), e@, 8) is Some
            &&& fused_attention_value(e@["Q_sd"@]@, e@["K_sd"@]@, e@["V_sd"@]@, scale) is Some
        },
{
    if s == 0 {
        return None;
    }
    let ghost (qs, ks, vs) = (q@, k@, v@);
    match (matrix(s, d, q), matrix(s, d, k), matrix(s, d, v)) {
        (Some(q), Some(k), Some(v)) => {
            let mut env: NameMap<TensorData<T>> = NameMap::new();
            env.insert("Q_sd", q);
            env.insert("K_sd", k);
            env.insert("V_sd", v);
            env.insert("scale", TensorData::scalar(scale));
            proof {
                reveal_strlit("Q_sd");
                reveal_strlit("K_sd");
                reveal_strlit("V_sd");
                reveal_strlit("scale");
                assert("Q_sd"@[0] != "K_sd"@[0] && "Q_sd"@[0] != "V_sd"@[0]);
                assert("K_sd"@[0] != "V_sd"@[0]);
                assert("scale"@.len() == 5 && "Q_sd"@.len() == 4);
                assert(env@.dom() =~= set!["Q_sd"@, "K_sd"@, "V_sd"@, "scale"@]);
                assert(holds(env@, "Q_sd"@, seq![s, d], qs));
                assert(holds(env@, "K_sd"@, seq![s, d], ks));
                assert(holds(env@, "V_sd"@, seq![s, d], vs));
                assert(holds(env@, "scale"@, seq![1usize], seq![scale]));
                lemma_attention_fits(env@, s, d);
            }
            Some(env)
        },
        _ => None,
    }
}

/// The inputs of the MLP over `s` positions of width `d` with hidden width `f`, by name. Nothing
/// where a matrix does not have as many elements as its extents say.
pub fn mlp_env<T: Scalar>(s: usize, d: usize, f: usize, x: Vec<T>, up: Vec<T>, dn: Vec<T>) -> (env:
    Option<NameMap<TensorData<T>>>)
    ensures
        env is Some <==> s * d == x@.len() && d * f == up@.len() && f * d == dn@.len(),
        env matches Some(e) ==> {
            &&& e@.dom() == set!["X_sd"@, "W_up_df"@, "W_dn_fd"@]
            &&& holds(e@, "X_sd"@, seq![s, d], x@)
            &&& holds(e@, "W_up_df"@, seq![d, f], up@)
            &&& holds(e@, "W_dn_fd"@, seq![f, d], dn@)
            &&& env_well_formed(e@)
            &&& evaluated(mlp_nodes(), e@, 5) is Some
            &&& fused_mlp_value(e@["X_sd"@]@, e@["W_up_df"@]@, e@["W_dn_fd"@]@) is Some
        },
{
    let ghost (xs, ups, dns) = (x@, up@, dn@);
    match (matrix(s, d, x), matrix(d, f, up), matrix(f, d, dn)) {
        (Some(x), Some(up), Some(dn)) => {
            let mut env: NameMap<TensorData<T>> = NameMap::new();
            env.insert("X_sd", x);
            env.insert("W_up_df", up);
            env.insert("W_dn_fd", dn);
            proof {
                reveal_strlit("X_sd");
                reveal_strlit("W_up_df");
                reveal_strlit("W_dn_fd");
                assert("X_sd"@.len() == 4 && "W_up_df"@[2] != "W_dn_fd"@[2]);
                assert(env@.dom() =~= set!["X_sd"@, "W_up_df"@, "W_dn_fd"@]);
                assert(holds(env@, "X_sd"@, seq![s, d], xs));
                assert(holds(env@, "W_up_df"@, seq![d, f], ups));
                assert(holds(env@, "W_dn_fd"@, seq![f, d], dns));
                lemma_mlp_fits(env@, s, d, f);
            }
            Some(env)
        },
        _ => None,
    }
}

// ---- Times ----

/// `times` with `t` behind every time that is not longer.
pub open spec fn inserted(times: Seq<Number>, t: Number) -> Seq<Number>
    decreases times.len(),
{
    if times.len() > 0 && t.below(times.last()) {
        inserted(times.drop_last(), t).push(times.last())
    } else {
        times.push(t)
    }
}

/// The times in ascending order.
pub open spec fn sorted(times: Seq<Number>) -> Seq<Number>
    decreases times.len(),
{
    if times.len() == 0 {
        times
    } else {
        inserted(sorted(times.drop_last()), times.last())
    }
}

fn insert_time(times: &mut Vec<Number>, t: Number)
    ensures
        final(times)@ == inserted(old(times)@, t),
{
    let ghost before = times@;
    let n: usize = times.len();
    let mut i: usize = n;
    assert(before.take(n as int) =~= before);
    assert(before.skip(n as int) =~= Seq::<Number>::empty());
    assert(inserted(before, t) =~= inserted(before.take(n as int), t) + before.skip(n as int));
    while i > 0 && t.less(&times[i - 1])
        invariant
            i <= n,
            n == times@.len(),
            times@ == old(times)@,
            before == times@,
            inserted(before, t) == inserted(before.take(i as int), t) + before.skip(i as int),
        decreases i,
    {
        proof {
            let front = before.take(i as int);
            assert(front.last() == before[i - 1]);
            assert(front.drop_last() =~= before.take(i - 1));
            assert(inserted(before.take(i - 1), t).push(before[i - 1]) + before.skip(i as int)
                =~= inserted(before.take(i - 1), t) + before.skip(i - 1));
        }
        i = i - 1;
    }
    proof {
        let front = before.take(i as int);
        if i > 0 {
            assert(front.last() == before[i - 1]);
        }
        assert(inserted(front, t) == front.push(t));
    }
    times.insert(i, t);
    assert(times@ =~= before.take(i as int).push(t) + before.skip(i as int));
}

proof fn lemma_sorted_len(times: Seq<Number>)
    ensures
        sorted(times).len() == times.len(),
    decreases times.len(),
{
    if times.len() > 0 {
        lemma_sorted_len(times.drop_last());
        lemma_inserted_len(sorted(times.drop_last()), times.last());
    }
}

proof fn lemma_inserted_len(times: Seq<Number>, t: Number)
    ensures
        inserted(times, t).len() == times.len() + 1,
    decreases times.len(),
{
    if times.len() > 0 {
        lemma_inserted_len(times.drop_last(), t);
    }
}

/// Whether all of these are numbers.
pub open spec fn all_numbers(times: Seq<Number>) -> bool {
    forall|i: int| 0 <= i < times.len() ==> !(#[trigger] times[i]).is_nan()
}

/// The median of the times: the one in the middle of the ascending order.
pub fn median(times: &Vec<Number>) -> (m: Number)
    requires
        times@.len() > 0,
        all_numbers(times@),
    ensures
        m == sorted(times@)[times@.len() as int / 2],
{
    let mut ordered: Vec<Number> = Vec::new();
    let mut i: usize = 0;
    assert(times@.take(0) =~= seq![]);
    while i < times.len()
        invariant
            i <= times@.len(),
            ordered@ == sorted(times@.take(i as int)),
        decreases times@.len() - i,
    {
        assert(times@.take(i as int + 1).drop_last() =~= times@.take(i as int));
        assert(times@.take(i as int + 1).last() == times@[i as int]);
        insert_time(&mut ordered, times[i]);
        i = i + 1;
    }
    assert(times@.take(times@.len() as int) =~= times@);
    proof {
        lemma_sorted_len(times@);
    }
    ordered[times.len() / 2]
}

/// Whether no time is less than an earlier one.
pub open spec fn ascending(times: Seq<Number>) -> bool {
    forall|i: int, j: int|
        0 <= i < j < times.len() ==> !(#[trigger] times[j]).below(#[trigger] times[i])
}

proof fn lemma_inserted(times: Seq<Number>, t: Number)
    requires
        all_numbers(times),
        !t.is_nan(),
        ascending(times),
    ensures
        all_numbers(inserted(times, t)),
        ascending(inserted(times, t)),
        inserted(times, t).to_multiset() == times.to_multiset().insert(t),
        forall|i: int|
            0 <= i < inserted(times, t).len() ==> #[trigger] inserted(times, t)[i] == t
                || times.contains(inserted(times, t)[i]),
    decreases times.len(),
{
    broadcast use vstd::seq_lib::group_to_multiset_ensures;

    let after = inserted(times, t);
    if times.len() > 0 && t.below(times.last()) {
        let front = times.drop_last();
        lemma_inserted(front, t);
        lemma_inserted_len(front, t);
        let inner = inserted(front, t);
        assert(times =~= front.push(times.last()));
        assert(after.to_multiset() =~= times.to_multiset().insert(t));
        assert forall|i: int| 0 <= i < after.len() implies #[trigger] after[i] == t
            || times.contains(after[i]) by {
            if i < inner.len() {
                assert(after[i] == inner[i]);
                if inner[i] != t {
                    let k = choose|k: int| 0 <= k < front.len() && front[k] == inner[i];
                    assert(times[k] == inner[i]);
                }
            } else {
                assert(after[i] == times[times.len() - 1]);
            }
        }
        assert forall|i: int, j: int| 0 <= i < j < after.len() implies !(
        #[trigger] after[j]).below(#[trigger] after[i]) by {
            if j < inner.len() {
                assert(!inner[j].below(inner[i]));
            } else {
                assert(after[i] == inner[i]);
                if inner[i] != t {
                    let k = choose|k: int| 0 <= k < front.len() && front[k] == inner[i];
                    assert(!times[times.len() - 1].below(times[k]));
                }
            }
        }
    } else {
        assert forall|i: int, j: int| 0 <= i < j < after.len() implies !(
        #[trigger] after[j]).below(#[trigger] after[i]) by {
            if j == times.len() && i < times.len() - 1 {
                assert(!times[times.len() - 1].below(times[i]));
            }
        }
        assert forall|i: int| 0 <= i < after.len() implies #[trigger] after[i] == t
            || times.contains(after[i]) by {
            if i < times.len() {
                assert(after[i] == times[i]);
            }
        }
    }
}

/// Sorting puts the times in ascending order and loses none, so the median has half of the times
/// on either side.
pub proof fn sorting_orders_the_times(times: Seq<Number>)
    requires
        all_numbers(times),
    ensures
        ascending(sorted(times)),
        all_numbers(sorted(times)),
        sorted(times).to_multiset() == times.to_multiset(),
    decreases times.len(),
{
    broadcast use vstd::seq_lib::group_to_multiset_ensures;

    if times.len() > 0 {
        let front = times.drop_last();
        assert forall|i: int| 0 <= i < front.len() implies !(#[trigger] front[i]).is_nan() by {
            assert(!times[i].is_nan());
        }
        sorting_orders_the_times(front);
        lemma_inserted(sorted(front), times.last());
        assert(times =~= front.push(times.last()));
    }
}

// ---- Plans ----

/// The model that the benchmarks are planned with: flops and HBM traffic on an H100.
pub fn hbm_model() -> (model: CostModel)
    ensures
        forall|demand: Demand| #[trigger]
            model.bounds(demand) == seq![
                ("Flops"@, Time::Finite { num: demand.flops as nat, den: 989_000_000_000_000 }),
                ("HbmBytes"@, Time::Finite { num: demand.hbm_bytes as nat, den: 3_350_000_000_000 }),
            ],
{
    let flops = FlopsConstraint::new(h100()).plug();
    let hbm = HbmConstraint::new(h100()).plug();
    let model = CostModel::new().add(flops).add(hbm);
    assert forall|demand: Demand| #[trigger] model.bounds(demand) == seq![
        ("Flops"@, Time::Finite { num: demand.flops as nat, den: 989_000_000_000_000 }),
        ("HbmBytes"@, Time::Finite { num: demand.hbm_bytes as nat, den: 3_350_000_000_000 }),
    ] by {
        assert(model.constraints@ =~= seq![flops, hbm]);
        let lines = model.bounds(demand);
        assert(lines[0] == (flops.constraint.label(), flops.constraint.bound(demand)));
        assert(lines[1] == (hbm.constraint.label(), hbm.constraint.bound(demand)));
        assert(lines.len() == 2);
    }
    model
}

/// What a benchmark is to measure: the plan, and the accounts of the naive program and of the
/// plan.
#[derive(Debug)]
pub struct BenchPlan {
    pub plan: Program,
    pub naive: Account,
    pub fused: Account,
}

/// Why a benchmark has nothing to measure.
#[derive(Clone, Copy, Debug, PartialEq, Eq, Structural)]
pub enum BenchError {
    /// The shapes do not fit the program.
    NoShapes,
    /// No plan was extracted.
    NoPlan,
    /// The optimizer did not choose a plan that lowers to the kernel to be measured.
    NotFused,
    /// The program or the plan has no account.
    NoAccount,
}

/// The plan of a benchmark, given the e-graph that saturation left.
pub open spec fn planned(
    program: Seq<Node>,
    extracted: Option<Seq<Node>>,
    shapes: Map<Seq<char>, Seq<usize>>,
    kernel: Kernel,
) -> Result<(Seq<Node>, Account, Account), BenchError> {
    match extracted {
        None => Err(BenchError::NoPlan),
        Some(plan) => if kernel_of(plan) != kernel {
            Err(BenchError::NotFused)
        } else {
            match (
                account_of(program, shapes, program.len() - 1),
                account_of(plan, shapes, plan.len() - 1),
            ) {
                (Some(naive), Some(fused)) => Ok((plan, naive, fused)),
                _ => Err(BenchError::NoAccount),
            }
        },
    }
}

/// Extracts the plan of a benchmark and checks that it is the one to be measured. If it does not
/// lower to `kernel`, the number would not measure what it claims to measure.
pub fn plan_bench(
    program: &Program,
    egraph: &EGraph,
    root: Id,
    model: &CostModel,
    shapes: &Shapes,
    kernel: Kernel,
) -> (b: Result<BenchPlan, BenchError>)
    requires
        program@.len() > 0,
        egraph.well_formed(),
        root < egraph.nodes@.len(),
    ensures
        match b {
            Ok(bench) => planned(
                program@,
                extraction(problem(*egraph, *model), root as int),
                dims(*shapes),
                kernel,
            ) == Ok::<(Seq<Node>, Account, Account), BenchError>(
                (bench.plan@, bench.naive, bench.fused),
            ),
            Err(e) => planned(
                program@,
                extraction(problem(*egraph, *model), root as int),
                dims(*shapes),
                kernel,
            ) == Err::<(Seq<Node>, Account, Account), BenchError>(e),
        },
{
    let plan = match extract_cost_driven(egraph, root, model) {
        Some(plan) => plan,
        None => {
            return Err(BenchError::NoPlan);
        },
    };
    proof {
        extracted_plans_are_ordered(problem(*egraph, *model), root as int);
    }
    if lower(&plan) != kernel {
        return Err(BenchError::NotFused);
    }
    match (
        try_account(program, program.len() - 1, shapes),
        try_account(&plan, plan.len() - 1, shapes),
    ) {
        (Some(naive), Some(fused)) => Ok(BenchPlan { plan, naive, fused }),
        _ => Err(BenchError::NoAccount),
    }
}

/// The outcome of planning a benchmark for `program` once it is saturated: no shapes, or what is
/// planned from the e-graph at the e-class of the program.
pub open spec fn bench_of(
    shaped: Shaped,
    program: Seq<Node>,
    model: CostModel,
    shapes: Map<Seq<char>, Seq<usize>>,
    kernel: Kernel,
) -> Result<(Seq<Node>, Account, Account), BenchError> {
    match shaped.egraph {
        None => Err(BenchError::NoShapes),
        Some(egraph) => {
            let root = class_of_program(shaped.run.classes(), symbolics(program)).unwrap();
            planned(program, extraction(problem(egraph, model), root), shapes, kernel)
        },
    }
}

pub open spec fn bench_view(b: Result<BenchPlan, BenchError>) -> Result<
    (Seq<Node>, Account, Account),
    BenchError,
> {
    match b {
        Ok(bench) => Ok((bench.plan@, bench.naive, bench.fused)),
        Err(e) => Err(e),
    }
}

/// Whether `model` sees flops and HBM traffic at the rates of an H100, and nothing else.
pub open spec fn sees_an_h100(model: CostModel) -> bool {
    sees_flops_and_traffic(model, 989_000_000_000_000, 3_350_000_000_000)
}

/// Whether `b` is what a search over `program` leads to: for some saturation of the program, `b` is
/// the plan extracted from it under the model of the benchmarks, or the error for want of one.
pub open spec fn is_bench_of(
    b: Result<BenchPlan, BenchError>,
    program: Seq<Node>,
    shapes: Map<Seq<char>, Seq<usize>>,
    kernel: Kernel,
) -> bool {
    exists|shaped: Shaped, model: CostModel| #[trigger]
        shaped_from(shaped, program, shapes) && #[trigger] sees_an_h100(model) && bench_view(b)
            == bench_of(shaped, program, model, shapes, kernel)
}

/// Under the model of the benchmarks every plan finishes.
proof fn lemma_h100_finishes(model: CostModel)
    requires
        sees_an_h100(model),
    ensures
        finishes(model),
{
    assert forall|demand: Demand| demand.sram_bytes == 0 implies (#[trigger] model.time(demand))
        is Finite by {
        infeasible_plans_never_finish(model.bounds(demand));
    }
}

/// A plan that extraction picks for a program without fused nodes ends in a fused region if it
/// lowers to a fused kernel.
proof fn lemma_kernels_are_whole_plans(
    shaped: Shaped,
    program: Seq<Node>,
    inputs: Map<Seq<char>, Seq<usize>>,
    p: Problem,
    root: int,
)
    requires
        shaped_from(shaped, program, inputs),
        represents(p.graph, shaped.run.classes()),
        graph_closed(p.graph),
        well_ordered(program),
        fuse_free(program),
        class_of_program(shaped.run.classes(), symbolics(program)) == Some(root),
        sees_an_h100(p.model),
        extraction(p, root) is Some,
        kernel_of(extraction(p, root).unwrap()) != Kernel::Reference,
    ensures
        extraction(p, root).unwrap().last() is Fuse,
{
    let plan = extraction(p, root).unwrap();
    lemma_h100_finishes(p.model);
    extraction_fuses_what_pays(shaped.run, program, inputs, p, root);
    if !(plan.last() is Fuse) {
        assert forall|i: int| 0 <= i < plan.len() implies !((#[trigger] plan[i]) is Fuse) by {
            if i < plan.len() - 1 {
                assert(!(plan.drop_last()[i] is Fuse));
            }
        }
        plain_plans_are_interpreted(plan);
    }
}

/// Optimizes a program for a benchmark: saturates it, lets the cost model pick the plan, and
/// checks that the plan lowers to `kernel`. How far the search gets is left open; for each e-graph
/// that it can leave, the plan or the error is determined. Whatever the search finds, a plan that
/// is returned computes the value of the program.
pub fn optimize_bench(program: &Program, shapes: &Shapes, inputs: Shapes, kernel: Kernel) -> (b:
    Result<BenchPlan, BenchError>)
    requires
        well_ordered(program@),
        0 < program@.len() <= 0xffff_ffff,
        dims(*shapes) == dims(inputs),
    ensures
        is_bench_of(b, program@, dims(*shapes), kernel),
        fits(program@, dims(*shapes)) ==> !(b matches Err(BenchError::NoShapes)),
        b matches Ok(bench) ==> {
            &&& kernel_of(bench.plan@) == kernel
            &&& well_ordered(bench.plan@)
            &&& bench.plan@.len() > 0
            &&& fuse_free(program@) && kernel != Kernel::Reference ==> bench.plan@.last() is Fuse
            &&& computes_the_same(
                rules_for(program@, dims(*shapes)),
                bench.plan@,
                program@,
            )
            &&& account_of(program@, dims(*shapes), program@.len() - 1) == Some(bench.naive)
            &&& account_of(bench.plan@, dims(*shapes), bench.plan@.len() - 1) == Some(bench.fused)
        },
{
    let shaped = saturate_shaped(program, inputs);
    let ghost all = shaped;
    let model = hbm_model();
    assert(sees_an_h100(model));
    proof {
        lemma_class_of_program(shaped.run.classes(), symbolics(program@));
    }
    let root: Id = match shaped.run.lookup_expr(program) {
        Some(root) => root,
        None => {
            assert(false);
            return Err(BenchError::NoPlan);
        },
    };
    let egraph = match shaped.egraph {
        Some(egraph) => egraph,
        None => {
            let b: Result<BenchPlan, BenchError> = Err(BenchError::NoShapes);
            assert(bench_view(b) == bench_of(all, program@, model, dims(*shapes), kernel));
            return b;
        },
    };
    assert(root < egraph.graph().len());
    let b = plan_bench(program, &egraph, root, &model, shapes, kernel);
    assert(bench_view(b) == bench_of(all, program@, model, dims(*shapes), kernel));
    proof {
        if b is Ok {
            let p = problem(egraph, model);
            if fuse_free(program@) && kernel != Kernel::Reference {
                lemma_kernels_are_whole_plans(all, program@, dims(*shapes), p, root as int);
            }
            let rules = rules_for(program@, dims(*shapes));
            extraction_computes_the_same(all.run, rules, program@, p, root as int);
        }
    }
    b
}

proof fn lemma_attention_dims(s: usize, d: usize)
    ensures
        attention_inputs(attention_dims(s, d), s, d),
        well_ordered(attention_nodes()),
        fits(attention_nodes(), attention_dims(s, d)),
        fuse_free(attention_nodes()),
        inferred_shape(attention_nodes(), attention_dims(s, d), 8) is Some,
{
    let (nodes, shapes) = (attention_nodes(), attention_dims(s, d));
    reveal_strlit("Q_sd");
    reveal_strlit("K_sd");
    reveal_strlit("V_sd");
    reveal_strlit("scale");
    let (nq, nk, nv, ns) = ("Q_sd"@, "K_sd"@, "V_sd"@, "scale"@);
    assert(nq[0] != nk[0] && nq[0] != nv[0] && nk[0] != nv[0]);
    assert(ns.len() != nq.len() && ns.len() != nk.len() && ns.len() != nv.len());
    lemma_numel_one(scalar_shape());
    assert(inferred_shape(nodes, shapes, 0) == Some(seq![s, d]));
    assert(inferred_shape(nodes, shapes, 1) == Some(seq![s, d]));
    assert(inferred_shape(nodes, shapes, 2) == Some(seq![s, d]));
    assert(inferred_shape(nodes, shapes, 3) == Some(scalar_shape()));
    assert(inferred_shape(nodes, shapes, 4) == Some(seq![d, s]));
    assert(inferred_shape(nodes, shapes, 5) == Some(seq![s, s]));
    assert(inferred_shape(nodes, shapes, 6) == Some(seq![s, s]));
    assert(inferred_shape(nodes, shapes, 7) == Some(seq![s, s]));
    assert(inferred_shape(nodes, shapes, 8) == Some(seq![s, d]));
    assert forall|i: int| 0 <= i < nodes.len() implies (#[trigger] nodes[i]).operands_below(i) by {}
}

/// Attention over no position has no account.
proof fn lemma_attention_positions(s: usize, d: usize)
    requires
        tally(attention_nodes(), attention_dims(s, d), 8) is Some,
    ensures
        s >= 1,
{
    let (nodes, shapes) = (attention_nodes(), attention_dims(s, d));
    lemma_attention_dims(s, d);
    lemma_numel_one(scalar_shape());
    assert(tally(nodes, shapes, 0).unwrap().shape == seq![s, d]);
    assert(tally(nodes, shapes, 1).unwrap().shape == seq![s, d]);
    assert(tally(nodes, shapes, 3).unwrap().shape == scalar_shape());
    assert(tally(nodes, shapes, 4).unwrap().shape == seq![d, s]);
    assert(tally(nodes, shapes, 5).unwrap().shape == seq![s, s]);
    assert(tally(nodes, shapes, 6).unwrap().shape == seq![s, s]);
    assert(tally(nodes, shapes, 7) is Some);
}

proof fn lemma_mlp_dims(s: usize, d: usize, f: usize)
    ensures
        mlp_inputs(mlp_dims(s, d, f), s, d, f),
        well_ordered(mlp_nodes()),
        fits(mlp_nodes(), mlp_dims(s, d, f)),
        fuse_free(mlp_nodes()),
        inferred_shape(mlp_nodes(), mlp_dims(s, d, f), 5) is Some,
{
    let (nodes, shapes) = (mlp_nodes(), mlp_dims(s, d, f));
    reveal_strlit("X_sd");
    reveal_strlit("W_up_df");
    reveal_strlit("W_dn_fd");
    assert("X_sd"@.len() != "W_up_df"@.len() && "X_sd"@.len() != "W_dn_fd"@.len());
    assert("W_up_df"@[2] != "W_dn_fd"@[2]);
    assert(inferred_shape(nodes, shapes, 0) == Some(seq![s, d]));
    assert(inferred_shape(nodes, shapes, 1) == Some(seq![d, f]));
    assert(inferred_shape(nodes, shapes, 2) == Some(seq![f, d]));
    assert(inferred_shape(nodes, shapes, 3) == Some(seq![s, f]));
    assert(inferred_shape(nodes, shapes, 4) == Some(seq![s, f]));
    assert(inferred_shape(nodes, shapes, 5) == Some(seq![s, d]));
    assert forall|i: int| 0 <= i < nodes.len() implies (#[trigger] nodes[i]).operands_below(i) by {}
}

/// What the accounts of the attention benchmark hold, whatever plan is found.
proof fn lemma_attention_bench(s: usize, d: usize, plan: Seq<Node>, naive: Account, fused: Account)
    requires
        well_ordered(plan),
        plan.len() > 0,
        plan.last() is Fuse,
        computes_the_same(
            rules_for(attention_nodes(), attention_dims(s, d)),
            plan,
            attention_nodes(),
        ),
        account_of(attention_nodes(), attention_dims(s, d), 8) == Some(naive),
        account_of(plan, attention_dims(s, d), plan.len() - 1) == Some(fused),
    ensures
        naive.flops == 4 * (s * s * d) + 5 * (s * s),
        naive.hbm_bytes == 4 * (5 * (s * d) + 3 * (s * s) + 1),
        fused.hbm_bytes == 4 * (4 * (s * d) + 1),
{
    let shapes = attention_dims(s, d);
    lemma_attention_dims(s, d);
    lemma_attention_positions(s, d);
    naive_attention_account(shapes, s, d);
    fused_attention_account(shapes, s, d);
    fused_plans_move_the_same_bytes(attention_nodes(), plan, shapes);
    assert(fused_plan(attention_nodes()) =~= attention_nodes().push(Node::Fuse(8)));
}

/// What the accounts of the MLP benchmark hold, whatever plan is found.
proof fn lemma_mlp_bench(
    s: usize,
    d: usize,
    f: usize,
    plan: Seq<Node>,
    naive: Account,
    fused: Account,
)
    requires
        well_ordered(plan),
        plan.len() > 0,
        plan.last() is Fuse,
        computes_the_same(rules_for(mlp_nodes(), mlp_dims(s, d, f)), plan, mlp_nodes()),
        account_of(mlp_nodes(), mlp_dims(s, d, f), 5) == Some(naive),
        account_of(plan, mlp_dims(s, d, f), plan.len() - 1) == Some(fused),
    ensures
        naive.flops == 4 * (s * d * f) + s * f,
        naive.hbm_bytes == 4 * (2 * (s * d) + 2 * (d * f) + 2 * (s * f)),
        fused.hbm_bytes == 4 * (2 * (s * d) + 2 * (d * f)),
{
    let shapes = mlp_dims(s, d, f);
    lemma_mlp_dims(s, d, f);
    naive_mlp_account(shapes, s, d, f);
    fused_mlp_account(shapes, s, d, f);
    fused_plans_move_the_same_bytes(mlp_nodes(), plan, shapes);
    assert(fused_plan(mlp_nodes()) =~= mlp_nodes().push(Node::Fuse(5)));
}

/// The plan of the attention benchmark at one shape.
pub fn attention_plan(s: usize, d: usize) -> (b: Result<BenchPlan, BenchError>)
    ensures
        is_bench_of(b, attention_nodes(), attention_dims(s, d), Kernel::FusedAttention),
        !(b matches Err(BenchError::NoShapes)),
        b matches Ok(bench) ==> {
            &&& kernel_of(bench.plan@) == Kernel::FusedAttention
            &&& well_ordered(bench.plan@)
            &&& computes_the_same(
                rules_for(attention_nodes(), attention_dims(s, d)),
                bench.plan@,
                attention_nodes(),
            )
            &&& account_of(attention_nodes(), attention_dims(s, d), 8) == Some(bench.naive)
            &&& account_of(bench.plan@, attention_dims(s, d), bench.plan@.len() - 1) == Some(
                bench.fused,
            )
            &&& bench.naive.flops == 4 * (s * s * d) + 5 * (s * s)
            &&& bench.naive.hbm_bytes == 4 * (5 * (s * d) + 3 * (s * s) + 1)
            &&& bench.fused.hbm_bytes == 4 * (4 * (s * d) + 1)
        },
{
    let (program, _) = naive_attention_program();
    let b = optimize_bench(
        &program,
        &attention_shapes(s, d),
        attention_shapes(s, d),
        Kernel::FusedAttention,
    );
    proof {
        lemma_attention_dims(s, d);
        if b is Ok {
            let bench = b->Ok_0;
            lemma_attention_bench(s, d, bench.plan@, bench.naive, bench.fused);
        }
    }
    b
}

/// The plan of the MLP benchmark at one shape.
pub fn mlp_plan(s: usize, d: usize, f: usize) -> (b: Result<BenchPlan, BenchError>)
    ensures
        is_bench_of(b, mlp_nodes(), mlp_dims(s, d, f), Kernel::FusedMlp),
        !(b matches Err(BenchError::NoShapes)),
        b matches Ok(bench) ==> {
            &&& kernel_of(bench.plan@) == Kernel::FusedMlp
            &&& well_ordered(bench.plan@)
            &&& computes_the_same(
                rules_for(mlp_nodes(), mlp_dims(s, d, f)),
                bench.plan@,
                mlp_nodes(),
            )
            &&& account_of(mlp_nodes(), mlp_dims(s, d, f), 5) == Some(bench.naive)
            &&& account_of(bench.plan@, mlp_dims(s, d, f), bench.plan@.len() - 1) == Some(
                bench.fused,
            )
            &&& bench.naive.flops == 4 * (s * d * f) + s * f
            &&& bench.naive.hbm_bytes == 4 * (2 * (s * d) + 2 * (d * f) + 2 * (s * f))
            &&& bench.fused.hbm_bytes == 4 * (2 * (s * d) + 2 * (d * f))
        },
{
    let (program, _) = naive_mlp_program();
    let b = optimize_bench(&program, &mlp_shapes(s, d, f), mlp_shapes(s, d, f), Kernel::FusedMlp);
    proof {
        lemma_mlp_dims(s, d, f);
        if b is Ok {
            let bench = b->Ok_0;
            lemma_mlp_bench(s, d, f, bench.plan@, bench.naive, bench.fused);
        }
    }
    b
}

// ---- Outcomes ----

/// Everything that one benchmark run produces. The counts are given as numbers too, as the log
/// holds them.
#[derive(Clone, Copy, Debug, PartialEq, Eq, Structural)]
pub struct BenchOutcome {
    pub naive_ms: Number,
    pub fused_ms: Number,
    /// The naive time over the fused time.
    pub speedup: Number,
    pub max_abs_err: Number,
    /// The accountant's HBM bytes for the naive and for the extracted plan.
    pub naive_hbm_bytes: Number,
    pub fused_hbm_bytes: Number,
    pub flops: Number,
}

/// The numbers of an outcome by name, as they are recorded.
pub open spec fn outcome_numbers(o: BenchOutcome) -> Map<Seq<char>, Number> {
    Map::<Seq<char>, Number>::empty().insert("naive_ms"@, o.naive_ms).insert(
        "fused_ms"@,
        o.fused_ms,
    ).insert("speedup"@, o.speedup).insert("max_abs_err"@, o.max_abs_err).insert(
        "naive_hbm_bytes"@,
        o.naive_hbm_bytes,
    ).insert("fused_hbm_bytes"@, o.fused_hbm_bytes).insert("flops"@, o.flops)
}

impl BenchOutcome {
    /// The numbers of the outcome by name.
    pub fn numbers(&self) -> (numbers: NameMap<Number>)
        ensures
            numbers@ == outcome_numbers(*self),
    {
        let mut numbers: NameMap<Number> = NameMap::new();
        numbers.insert("naive_ms", self.naive_ms);
        numbers.insert("fused_ms", self.fused_ms);
        numbers.insert("speedup", self.speedup);
        numbers.insert("max_abs_err", self.max_abs_err);
        numbers.insert("naive_hbm_bytes", self.naive_hbm_bytes);
        numbers.insert("fused_hbm_bytes", self.fused_hbm_bytes);
        numbers.insert("flops", self.flops);
        numbers
    }
}

} // verus!
