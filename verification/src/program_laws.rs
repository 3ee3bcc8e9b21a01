//! What programs stand for, and what the two canonical programs compute, element by element.
use crate::account::account_of;
use crate::analysis::{attention_dims, mlp_dims};
use crate::bench::{holds, outcome_numbers, planned, sample_of, BenchError, BenchOutcome};
use crate::codegen::{kernel_of, Kernel};
use crate::ir::{
    attention_nodes, lemma_numel_matrix, lemma_numel_one, mlp_nodes, numel, Node, Program,
    TensorLang,
};
use crate::saturate::symbolic;
use crate::seconds::{Seconds, Time};
use crate::tensor::{env_well_formed, evaluated, Scalar, TensorData};
use crate::tensor_laws::{
    numbers_scale_either_side, products_add_rows_by_columns, relus_cut_at_zero, row_by_column,
    softmaxes_give_shares, total, transposes_swap_rows_and_columns, values_are_well_formed, weights,
};
use vstd::prelude::*;

verus! {

// ---- Views ----

/// A node stands for its operator on its operands, in their order, and a program for its nodes, in
/// their order.
pub proof fn programs_show_their_nodes(p: Program, a: usize, b: usize, name: String, i: int)
    ensures
        TensorLang::Var(name)@ == Node::Var(name@),
        TensorLang::MatMul(a, b)@ == Node::MatMul(a as int, b as int),
        TensorLang::EMul(a, b)@ == Node::EMul(a as int, b as int),
        TensorLang::Transpose(a)@ == Node::Transpose(a as int),
        TensorLang::Softmax(a)@ == Node::Softmax(a as int),
        TensorLang::Relu(a)@ == Node::Relu(a as int),
        TensorLang::Fuse(a)@ == Node::Fuse(a as int),
        p@.len() == p.nodes@.len(),
        0 <= i < p.nodes@.len() ==> p@[i] == p.nodes@[i]@,
{
}

/// The operands of a node are those that it is written with, in their order, and they can be put
/// back.
pub proof fn operands_are_kept_in_order(node: Node, a: int, b: int, name: Seq<char>)
    ensures
        Node::Var(name).children() == Seq::<int>::empty(),
        Node::MatMul(a, b).children() == seq![a, b],
        Node::EMul(a, b).children() == seq![a, b],
        Node::Transpose(a).children() == seq![a],
        Node::Softmax(a).children() == seq![a],
        Node::Relu(a).children() == seq![a],
        Node::Fuse(a).children() == seq![a],
        node.with_children(node.children()) == node,
{
    assert(Node::Var(name).children() =~= Seq::<int>::empty());
    assert(Node::MatMul(a, b).children() =~= seq![a, b]);
    assert(Node::EMul(a, b).children() =~= seq![a, b]);
    assert(Node::Transpose(a).children() =~= seq![a]);
    assert(Node::Softmax(a).children() =~= seq![a]);
    assert(Node::Relu(a).children() =~= seq![a]);
    assert(Node::Fuse(a).children() =~= seq![a]);
}

/// Nodes that are spelled alike are alike.
pub proof fn nodes_are_told_apart_by_their_spelling(a: Node, b: Node)
    requires
        symbolic(a) == symbolic(b),
    ensures
        a == b,
{
    reveal_strlit("matmul");
    reveal_strlit("transpose");
    reveal_strlit("emul");
    reveal_strlit("softmax");
    reveal_strlit("relu");
    reveal_strlit("fuse");
    assert("matmul"@.len() == 6 && "emul"@.len() == 4);
    assert("transpose"@.len() == 9 && "softmax"@.len() == 7);
    assert("relu"@.len() == 4 && "fuse"@.len() == 4);
    assert("relu"@[0] != "fuse"@[0]);
    let (x, y) = (symbolic(a).1, symbolic(b).1);
    assert(x.len() == y.len());
    assert(x.len() > 0 ==> x[0] == y[0]);
    assert(x.len() > 1 ==> x[1] == y[1]);
}

/// A tensor stands for its shape and its elements, and a time for its fraction.
pub proof fn tensors_and_times_show_what_they_hold<T>(t: TensorData<T>, s: Seconds)
    ensures
        t@.shape == t.shape@,
        t@.data == t.data@,
        s is Infinite <==> s@ is Infinite,
        s matches Seconds::Finite { num, den } ==> s@ == (Time::Finite { num: num@, den: den@ }),
{
}

/// The numbers of an outcome are recorded under their names, and no others.
pub proof fn outcomes_are_recorded_under_their_names(o: BenchOutcome, name: Seq<char>)
    ensures
        ({
            let n = outcome_numbers(o);
            &&& n.contains_pair("naive_ms"@, o.naive_ms)
            &&& n.contains_pair("fused_ms"@, o.fused_ms)
            &&& n.contains_pair("speedup"@, o.speedup)
            &&& n.contains_pair("max_abs_err"@, o.max_abs_err)
            &&& n.contains_pair("naive_hbm_bytes"@, o.naive_hbm_bytes)
            &&& n.contains_pair("fused_hbm_bytes"@, o.fused_hbm_bytes)
            &&& n.contains_pair("flops"@, o.flops)
            &&& n.dom().contains(name) ==> name == "naive_ms"@ || name == "fused_ms"@ || name
                == "speedup"@ || name == "max_abs_err"@ || name == "naive_hbm_bytes"@ || name
                == "fused_hbm_bytes"@ || name == "flops"@
        }),
{
    reveal_strlit("naive_ms");
    reveal_strlit("fused_ms");
    reveal_strlit("speedup");
    reveal_strlit("max_abs_err");
    reveal_strlit("naive_hbm_bytes");
    reveal_strlit("fused_hbm_bytes");
    reveal_strlit("flops");
    assert("naive_ms"@.len() == 8 && "fused_ms"@.len() == 8 && "speedup"@.len() == 7);
    assert("max_abs_err"@.len() == 11 && "naive_hbm_bytes"@.len() == 15);
    assert("fused_hbm_bytes"@.len() == 15 && "flops"@.len() == 5);
    assert("naive_ms"@[0] != "fused_ms"@[0]);
    assert("naive_hbm_bytes"@[0] != "fused_hbm_bytes"@[0]);
}

/// The data of a seed is that of a linear generator in 64 bits, in thousandths: element `i` stands
/// `i` steps behind the seed, and only what is left over of a thousand counts.
pub proof fn samples_step_from_the_seed(seed: u64, i: u64)
    ensures
        sample_of(seed, i) < 1000,
        sample_of(seed, 0) == seed % 1000,
        (i * 1103515245 + seed) % 0x1_0000_0000_0000_0000 % 1000 == sample_of(seed, i),
{
    let m = 0x1_0000_0000_0000_0000int;
    let (x, y) = (i * 1103515245, seed as int);
    vstd::arithmetic::div_mod::lemma_add_mod_noop(x, y, m);
    vstd::arithmetic::div_mod::lemma_small_mod(seed as nat, m as nat);
}

/// An environment that holds a tensor has its elements and its shape under its name.
pub proof fn environments_hold_what_they_are_given<T>(
    env: Map<Seq<char>, TensorData<T>>,
    name: Seq<char>,
    shape: Seq<usize>,
    data: Seq<T>,
)
    ensures
        holds(env, name, shape, data) <==> env.dom().contains(name) && env[name].shape@ == shape
            && env[name].data@ == data,
{
}

/// The inputs of the benchmarks have the shapes of queries, keys and values, of a number, and of
/// the weights up and down.
pub proof fn benchmark_inputs_have_their_shapes(s: usize, d: usize, f: usize, name: Seq<char>)
    ensures
        attention_dims(s, d).contains_pair("Q_sd"@, seq![s, d]),
        attention_dims(s, d).contains_pair("K_sd"@, seq![s, d]),
        attention_dims(s, d).contains_pair("V_sd"@, seq![s, d]),
        attention_dims(s, d).contains_pair("scale"@, seq![1usize]),
        mlp_dims(s, d, f).contains_pair("X_sd"@, seq![s, d]),
        mlp_dims(s, d, f).contains_pair("W_up_df"@, seq![d, f]),
        mlp_dims(s, d, f).contains_pair("W_dn_fd"@, seq![f, d]),
        attention_dims(s, d).dom().contains(name) ==> name == "Q_sd"@ || name == "K_sd"@ || name
            == "V_sd"@ || name == "scale"@,
        mlp_dims(s, d, f).dom().contains(name) ==> name == "X_sd"@ || name == "W_up_df"@ || name
            == "W_dn_fd"@,
{
    reveal_strlit("Q_sd");
    reveal_strlit("K_sd");
    reveal_strlit("V_sd");
    reveal_strlit("scale");
    reveal_strlit("X_sd");
    reveal_strlit("W_up_df");
    reveal_strlit("W_dn_fd");
    assert("Q_sd"@.len() == 4 && "K_sd"@.len() == 4 && "V_sd"@.len() == 4 && "scale"@.len() == 5);
    assert("X_sd"@.len() == 4 && "W_up_df"@.len() == 7 && "W_dn_fd"@.len() == 7);
    assert("Q_sd"@[0] != "K_sd"@[0] && "Q_sd"@[0] != "V_sd"@[0] && "K_sd"@[0] != "V_sd"@[0]);
    assert("W_up_df"@[2] != "W_dn_fd"@[2]);
}

/// A benchmark measures the plan that was extracted, if that lowers to the kernel that is to be
/// measured, beside the program itself, each with its own account.
pub proof fn benchmarks_measure_what_was_asked_for(
    program: Seq<Node>,
    extracted: Option<Seq<Node>>,
    shapes: Map<Seq<char>, Seq<usize>>,
    kernel: Kernel,
)
    ensures
        match planned(program, extracted, shapes, kernel) {
            Ok((plan, naive, fused)) => {
                &&& extracted == Some(plan)
                &&& kernel_of(plan) == kernel
                &&& account_of(program, shapes, program.len() - 1) == Some(naive)
                &&& account_of(plan, shapes, plan.len() - 1) == Some(fused)
            },
            Err(BenchError::NoPlan) => extracted is None,
            Err(BenchError::NotFused) => extracted matches Some(plan) && kernel_of(plan) != kernel,
            Err(BenchError::NoAccount) => extracted matches Some(plan) && (account_of(
                program,
                shapes,
                program.len() - 1,
            ) is None || account_of(plan, shapes, plan.len() - 1) is None),
            Err(BenchError::NoShapes) => false,
        },
{
}

// ---- What the canonical programs compute ----

/// The logits of query `i` for all keys: each is the product of the query and a key, times the
/// scale.
pub open spec fn logits_of<T: Scalar>(
    q: Seq<T>,
    k: Seq<T>,
    scale: T,
    keys: nat,
    d: int,
    i: int,
) -> Seq<T> {
    Seq::new(
        keys,
        |j: int|
            total(Seq::new(d as nat, |l: int| q[i * d + l].product(k[j * d + l]))).product(scale),
    )
}

/// The naive attention program computes attention: element `(i, t)` of its value adds up column `t`
/// of the values, each times the share that its key has of the attention of query `i`.
pub proof fn attention_adds_up_shares_of_the_values<T: Scalar>(
    env: Map<Seq<char>, TensorData<T>>,
    s: usize,
    n: usize,
    d: usize,
    dv: usize,
    i: int,
    t: int,
)
    requires
        env_well_formed(env),
        env.dom().contains("Q_sd"@) && env["Q_sd"@].shape@ == seq![s, d],
        env.dom().contains("K_sd"@) && env["K_sd"@].shape@ == seq![n, d],
        env.dom().contains("V_sd"@) && env["V_sd"@].shape@ == seq![n, dv],
        env.dom().contains("scale"@) && env["scale"@].shape@ == seq![1usize],
        n > 0,
        0 <= i < s,
        0 <= t < dv,
    ensures
        ({
            let row = logits_of(
                env["Q_sd"@].data@,
                env["K_sd"@].data@,
                env["scale"@].data@[0],
                n as nat,
                d as int,
                i,
            );
            let v = env["V_sd"@].data@;
            evaluated(attention_nodes(), env, 8) matches Some(out) && out.shape == seq![s, dv]
                && out.data[i * dv + t] == total(
                Seq::new(
                    n as nat,
                    |j: int|
                        weights(row)[j].quotient(total(weights(row))).product(v[j * dv + t]),
                ),
            )
        }),
{
    let nodes = attention_nodes();
    let (q, k, v, c) = (
        env["Q_sd"@].data@,
        env["K_sd"@].data@,
        env["V_sd"@].data@,
        env["scale"@].data@,
    );
    let (si, ni, di) = (s as int, n as int, d as int);
    lemma_numel_matrix(s, d);
    lemma_numel_matrix(n, d);
    lemma_numel_matrix(n, dv);
    lemma_numel_matrix(s, n);
    lemma_numel_matrix(d, n);
    lemma_numel_one(seq![1usize]);
    assert(evaluated(nodes, env, 0) == Some(env["Q_sd"@]@));
    assert(evaluated(nodes, env, 1) == Some(env["K_sd"@]@));
    assert(evaluated(nodes, env, 2) == Some(env["V_sd"@]@));
    assert(evaluated(nodes, env, 3) == Some(env["scale"@]@));
    transposes_swap_rows_and_columns(nodes, env, 4, 1, 0, 0);
    let kt = evaluated(nodes, env, 4).unwrap();
    products_add_rows_by_columns(nodes, env, 5, 0, 4, i, 0);
    values_are_well_formed(nodes, env, 5);
    let scores = evaluated(nodes, env, 5).unwrap();
    assert(numel(scores.shape) == si * ni);
    numbers_scale_either_side(nodes, env, 6, 5, 3, 0);
    let scaled = evaluated(nodes, env, 6).unwrap();
    assert(scaled.shape == seq![s, n]);
    assert(scaled.shape.last() == n);
    let row = logits_of(q, k, c[0], n as nat, di, i);
    assert(i * ni + ni <= si * ni && 0 <= i * ni) by (nonlinear_arith)
        requires
            0 <= i < si,
            0 < ni,
    ;
    assert forall|j: int| 0 <= j < ni implies #[trigger] scaled.data[i * ni + j] == row[j] by {
        products_add_rows_by_columns(nodes, env, 5, 0, 4, i, j);
        numbers_scale_either_side(nodes, env, 6, 5, 3, i * ni + j);
        let terms = row_by_column(q, kt.data, di, ni, i, j);
        let own = Seq::new(d as nat, |l: int| q[i * di + l].product(k[j * di + l]));
        assert forall|l: int| 0 <= l < di implies terms[l] == own[l] by {
            transposes_swap_rows_and_columns(nodes, env, 4, 1, j, l);
        }
        assert(terms =~= own);
    }
    let part = scaled.data.subrange(i * ni, i * ni + ni);
    assert(scaled.data.len() == si * ni);
    assert(part.len() == row.len());
    assert forall|j: int| 0 <= j < ni implies part[j] == row[j] by {
        assert(scaled.data[i * ni + j] == row[j]);
    }
    assert(part =~= row);
    softmaxes_give_shares(nodes, env, 7, 6, i, 0);
    let attn = evaluated(nodes, env, 7).unwrap();
    products_add_rows_by_columns(nodes, env, 8, 7, 2, i, t);
    let terms = row_by_column(attn.data, v, ni, dv as int, i, t);
    let own = Seq::new(
        n as nat,
        |j: int| weights(row)[j].quotient(total(weights(row))).product(v[j * dv + t]),
    );
    assert forall|j: int| 0 <= j < ni implies terms[j] == own[j] by {
        softmaxes_give_shares(nodes, env, 7, 6, i, j);
    }
    assert(terms =~= own);
}

/// The naive MLP program computes the MLP: element `(i, t)` of its value adds up column `t` of the
/// second weights, each times the hidden activation of row `i`, which is cut at zero.
pub proof fn the_mlp_adds_up_what_is_above_zero<T: Scalar>(
    env: Map<Seq<char>, TensorData<T>>,
    s: usize,
    d: usize,
    f: usize,
    e: usize,
    i: int,
    t: int,
)
    requires
        env_well_formed(env),
        env.dom().contains("X_sd"@) && env["X_sd"@].shape@ == seq![s, d],
        env.dom().contains("W_up_df"@) && env["W_up_df"@].shape@ == seq![d, f],
        env.dom().contains("W_dn_fd"@) && env["W_dn_fd"@].shape@ == seq![f, e],
        0 <= i < s,
        0 <= t < e,
    ensures
        ({
            let (x, up, dn) = (
                env["X_sd"@].data@,
                env["W_up_df"@].data@,
                env["W_dn_fd"@].data@,
            );
            evaluated(mlp_nodes(), env, 5) matches Some(out) && out.shape == seq![s, e]
                && out.data[i * e + t] == total(
                Seq::new(
                    f as nat,
                    |j: int|
                        total(
                            Seq::new(d as nat, |l: int| x[i * d + l].product(up[l * f + j])),
                        ).larger(T::the_zero()).product(dn[j * e + t]),
                ),
            )
        }),
{
    let nodes = mlp_nodes();
    let (x, up, dn) = (env["X_sd"@].data@, env["W_up_df"@].data@, env["W_dn_fd"@].data@);
    let (si, di, fi) = (s as int, d as int, f as int);
    lemma_numel_matrix(s, f);
    assert(evaluated(nodes, env, 0) == Some(env["X_sd"@]@));
    assert(evaluated(nodes, env, 1) == Some(env["W_up_df"@]@));
    assert(evaluated(nodes, env, 2) == Some(env["W_dn_fd"@]@));
    products_add_rows_by_columns(nodes, env, 3, 0, 1, i, 0);
    values_are_well_formed(nodes, env, 3);
    let hidden = evaluated(nodes, env, 3).unwrap();
    relus_cut_at_zero(nodes, env, 4, 3, 0);
    let act = evaluated(nodes, env, 4).unwrap();
    products_add_rows_by_columns(nodes, env, 5, 4, 2, i, t);
    assert(hidden.data.len() == si * fi);
    assert(i * fi + fi <= si * fi && 0 <= i * fi) by (nonlinear_arith)
        requires
            0 <= i < si,
            0 <= fi,
    ;
    let terms = row_by_column(act.data, dn, fi, e as int, i, t);
    let own = Seq::new(
        f as nat,
        |j: int|
            total(
                Seq::new(d as nat, |l: int| x[i * d + l].product(up[l * f + j])),
            ).larger(T::the_zero()).product(dn[j * e + t]),
    );
    assert forall|j: int| 0 <= j < fi implies terms[j] == own[j] by {
        products_add_rows_by_columns(nodes, env, 3, 0, 1, i, j);
        relus_cut_at_zero(nodes, env, 4, 3, i * fi + j);
        assert(row_by_column(x, up, di, fi, i, j) =~= Seq::new(
            d as nat,
            |l: int| x[i * d + l].product(up[l * f + j]),
        ));
    }
    assert(terms =~= own);
}

} // verus!
