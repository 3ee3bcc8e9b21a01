//! What holds of the kernels: fusion keeps values and shapes, the fused MLP does the arithmetic of
//! the reference interpreter, and in exact arithmetic so does fused attention.
use crate::algebra::{factors_at, factors_move};
use crate::codegen::{
    attention_row, fused_attention_value, fused_mlp_value, fuses, has_fused, kernel_of, mlp_row,
    region_has, row_dot, stream_step, streamed, Kernel, Producer,
};
use crate::ir::{
    attention_nodes, inferred_shape, lemma_numel_matrix, lemma_numel_one, mlp_nodes, numel,
    scalar_shape, Node,
};
use crate::tensor::{
    dot_steps, emul_value, env_well_formed, evaluated, exp_sum_steps, lemma_row_fits, lemma_stacked,
    lemma_stacked_same, matmul_value, max_steps, rectified, row_of, row_product, softmax_row,
    softmax_value, stacked, transpose_value, Scalar, Tensor, TensorData,
};
use crate::tensor_laws::{largest, total};
use vstd::prelude::*;

verus! {

// ---- Fusion and shapes ----

proof fn lemma_evaluated_prefix<T: Scalar>(
    nodes: Seq<Node>,
    node: Node,
    env: Map<Seq<char>, TensorData<T>>,
    root: int,
)
    requires
        root < nodes.len(),
    ensures
        evaluated(nodes.push(node), env, root) == evaluated(nodes, env, root),
    decreases root,
{
    if root >= 0 {
        assert(nodes.push(node)[root] == nodes[root]);
        match nodes[root] {
            Node::Var(_) => {},
            Node::MatMul(a, b) | Node::EMul(a, b) => if 0 <= a < root && 0 <= b < root {
                lemma_evaluated_prefix(nodes, node, env, a);
                lemma_evaluated_prefix(nodes, node, env, b);
            },
            Node::Transpose(a) | Node::Softmax(a) | Node::Relu(a) | Node::Fuse(a) => if 0 <= a
                < root {
                lemma_evaluated_prefix(nodes, node, env, a);
            },
        }
    }
}

/// Fusion does not change a value: a program and its fused form evaluate alike.
pub proof fn fusion_keeps_the_value<T: Scalar>(
    nodes: Seq<Node>,
    env: Map<Seq<char>, TensorData<T>>,
    root: int,
)
    requires
        0 <= root < nodes.len(),
    ensures
        evaluated(nodes.push(Node::Fuse(root)), env, nodes.len() as int) == evaluated(
            nodes,
            env,
            root,
        ),
{
    lemma_evaluated_prefix(nodes, Node::Fuse(root), env, root);
    assert(nodes.push(Node::Fuse(root))[nodes.len() as int] == Node::Fuse(root));
}

/// Whether node `i` of one program and node `j` of another are the same term, but for where they
/// are fused.
pub open spec fn same_but_for_fusion(a: Seq<Node>, i: int, b: Seq<Node>, j: int) -> bool
    decreases i, j,
{
    if !(0 <= i < a.len() && 0 <= j < b.len()) {
        false
    } else {
        match (a[i], b[j]) {
            (Node::Fuse(x), _) => 0 <= x < i && same_but_for_fusion(a, x, b, j),
            (_, Node::Fuse(y)) => 0 <= y < j && same_but_for_fusion(a, i, b, y),
            (Node::Var(name), Node::Var(other)) => name == other,
            (Node::MatMul(x, y), Node::MatMul(u, v)) => 0 <= x < i && 0 <= y < i && 0 <= u < j && 0 <= v
                < j && same_but_for_fusion(a, x, b, u) && same_but_for_fusion(a, y, b, v),
            (Node::EMul(x, y), Node::EMul(u, v)) => 0 <= x < i && 0 <= y < i && 0 <= u < j && 0 <= v
                < j && same_but_for_fusion(a, x, b, u) && same_but_for_fusion(a, y, b, v),
            (Node::Transpose(x), Node::Transpose(u)) => 0 <= x < i && 0 <= u < j
                && same_but_for_fusion(a, x, b, u),
            (Node::Softmax(x), Node::Softmax(u)) => 0 <= x < i && 0 <= u < j
                && same_but_for_fusion(a, x, b, u),
            (Node::Relu(x), Node::Relu(u)) => 0 <= x < i && 0 <= u < j && same_but_for_fusion(
                a,
                x,
                b,
                u,
            ),
            _ => false,
        }
    }
}

/// A fused region keeps the value wherever it stands: two programs that are the same but for what
/// is fused in them evaluate alike, in every arithmetic.
pub proof fn fusing_any_part_keeps_the_value<T: Scalar>(
    a: Seq<Node>,
    i: int,
    b: Seq<Node>,
    j: int,
    env: Map<Seq<char>, TensorData<T>>,
)
    requires
        same_but_for_fusion(a, i, b, j),
    ensures
        evaluated(a, env, i) == evaluated(b, env, j),
    decreases i, j,
{
    match (a[i], b[j]) {
        (Node::Fuse(x), _) => {
            fusing_any_part_keeps_the_value(a, x, b, j, env);
        },
        (_, Node::Fuse(y)) => {
            fusing_any_part_keeps_the_value(a, i, b, y, env);
        },
        (Node::MatMul(x, y), Node::MatMul(u, v)) => {
            fusing_any_part_keeps_the_value(a, x, b, u, env);
            fusing_any_part_keeps_the_value(a, y, b, v, env);
        },
        (Node::EMul(x, y), Node::EMul(u, v)) => {
            fusing_any_part_keeps_the_value(a, x, b, u, env);
            fusing_any_part_keeps_the_value(a, y, b, v, env);
        },
        (Node::Transpose(x), Node::Transpose(u)) => {
            fusing_any_part_keeps_the_value(a, x, b, u, env);
        },
        (Node::Softmax(x), Node::Softmax(u)) => {
            fusing_any_part_keeps_the_value(a, x, b, u, env);
        },
        (Node::Relu(x), Node::Relu(u)) => {
            fusing_any_part_keeps_the_value(a, x, b, u, env);
        },
        _ => {},
    }
}

/// The shapes of the inputs.
pub open spec fn env_shapes<T>(env: Map<Seq<char>, TensorData<T>>) -> Map<Seq<char>, Seq<usize>> {
    env.map_values(|t: TensorData<T>| t@.shape)
}

/// Shape inference tells the shape of the value: wherever a program has a value, the inferred
/// shape is that of the value.
pub proof fn inferred_shapes_are_those_of_values<T: Scalar>(
    nodes: Seq<Node>,
    env: Map<Seq<char>, TensorData<T>>,
    root: int,
)
    requires
        evaluated(nodes, env, root) is Some,
    ensures
        inferred_shape(nodes, env_shapes(env), root) == Some(
            evaluated(nodes, env, root).unwrap().shape,
        ),
    decreases root,
{
    match nodes[root] {
        Node::Var(_) => {},
        Node::MatMul(a, b) | Node::EMul(a, b) => {
            inferred_shapes_are_those_of_values(nodes, env, a);
            inferred_shapes_are_those_of_values(nodes, env, b);
        },
        Node::Transpose(a) | Node::Softmax(a) | Node::Relu(a) | Node::Fuse(a) => {
            inferred_shapes_are_those_of_values(nodes, env, a);
        },
    }
}

/// Whether every softmax has a last axis that is not empty.
pub open spec fn softmax_axes_filled(
    nodes: Seq<Node>,
    shapes: Map<Seq<char>, Seq<usize>>,
) -> bool {
    forall|i: int|
        0 <= i < nodes.len() ==> (#[trigger] nodes[i] matches Node::Softmax(a) ==> (inferred_shape(
            nodes,
            shapes,
            a,
        ) matches Some(s) ==> s.len() > 0 && s.last() > 0))
}

/// Every program whose shapes fit has a value, as long as no softmax runs along an empty axis.
pub proof fn fitting_programs_have_values<T: Scalar>(
    nodes: Seq<Node>,
    env: Map<Seq<char>, TensorData<T>>,
    root: int,
)
    requires
        softmax_axes_filled(nodes, env_shapes(env)),
        inferred_shape(nodes, env_shapes(env), root) is Some,
    ensures
        evaluated(nodes, env, root) is Some,
    decreases root,
{
    lemma_numel_one(scalar_shape());
    match nodes[root] {
        Node::Var(_) => {},
        Node::MatMul(a, b) | Node::EMul(a, b) => {
            fitting_programs_have_values(nodes, env, a);
            fitting_programs_have_values(nodes, env, b);
            inferred_shapes_are_those_of_values(nodes, env, a);
            inferred_shapes_are_those_of_values(nodes, env, b);
        },
        Node::Transpose(a) | Node::Softmax(a) | Node::Relu(a) | Node::Fuse(a) => {
            fitting_programs_have_values(nodes, env, a);
            inferred_shapes_are_those_of_values(nodes, env, a);
        },
    }
}

/// A plan without fused regions is left to the reference interpreter.
pub proof fn plain_plans_are_interpreted(nodes: Seq<Node>)
    requires
        forall|i: int| 0 <= i < nodes.len() ==> !((#[trigger] nodes[i]) is Fuse),
    ensures
        kernel_of(nodes) == Kernel::Reference,
{
}

// ---- The fused MLP ----

proof fn lemma_row_of_map<T: Scalar>(data: Seq<T>, width: int, count: int, i: int)
    requires
        0 <= i < count,
        0 <= width,
        data.len() == count * width,
    ensures
        row_of(rectified(data), width, i) == rectified(row_of(data, width, i)),
{
    lemma_row_fits(i, count, width);
    assert(row_of(rectified(data), width, i) =~= rectified(row_of(data, width, i)));
}

/// The MLP by the operators of the reference interpreter: `relu(x up) dn`.
pub open spec fn mlp_value<T: Scalar>(x: Tensor<T>, up: Tensor<T>, dn: Tensor<T>) -> Option<
    Tensor<T>,
> {
    match matmul_value(x, up) {
        Some(h) => matmul_value(Tensor { shape: h.shape, data: rectified(h.data) }, dn),
        None => None,
    }
}

/// The fused MLP does the same operations in the same order as the reference interpreter on the
/// naive program, whatever the scalars are.
pub proof fn fused_mlp_is_the_reference<T: Scalar>(env: Map<Seq<char>, TensorData<T>>)
    requires
        env_well_formed(env),
        evaluated(mlp_nodes(), env, 5) is Some,
    ensures
        evaluated(mlp_nodes(), env, 5) == fused_mlp_value(
            env["X_sd"@]@,
            env["W_up_df"@]@,
            env["W_dn_fd"@]@,
        ),
{
    let nodes = mlp_nodes();
    let x = evaluated(nodes, env, 0).unwrap();
    let up = evaluated(nodes, env, 1).unwrap();
    let dn = evaluated(nodes, env, 2).unwrap();
    let h = evaluated(nodes, env, 3).unwrap();
    let a = evaluated(nodes, env, 4).unwrap();
    assert(matmul_value(x, up) == Some(h));
    assert(a == (Tensor { shape: h.shape, data: rectified(h.data) }));
    fused_mlp_computes_the_mlp(x, up, dn);
}

/// The fused MLP is the MLP by the operators of the reference interpreter, whatever the scalars
/// are.
pub proof fn fused_mlp_computes_the_mlp<T: Scalar>(x: Tensor<T>, up: Tensor<T>, dn: Tensor<T>)
    requires
        x.well_formed(),
        up.well_formed(),
        dn.well_formed(),
        mlp_value(x, up, dn) is Some,
    ensures
        mlp_value(x, up, dn) == fused_mlp_value(x, up, dn),
{
    let h = matmul_value(x, up).unwrap();
    let a = Tensor { shape: h.shape, data: rectified(h.data) };
    let out = matmul_value(a, dn).unwrap();
    let (s, d, f, d_out) = (
        x.shape[0] as int,
        x.shape[1] as int,
        up.shape[1] as int,
        dn.shape[1] as int,
    );
    assert(x.shape =~= seq![x.shape[0], x.shape[1]]);
    assert(up.shape =~= seq![up.shape[0], up.shape[1]]);
    assert(dn.shape =~= seq![dn.shape[0], dn.shape[1]]);
    lemma_numel_matrix(x.shape[0], x.shape[1]);
    lemma_numel_matrix(up.shape[0], up.shape[1]);
    lemma_numel_matrix(dn.shape[0], dn.shape[1]);
    let hidden = |i: int| row_product(row_of(x.data, d, i), up.data, f);
    lemma_stacked(hidden, f, s as nat);
    let naive = |i: int| row_product(row_of(a.data, f, i), dn.data, d_out);
    let fused = |i: int| mlp_row(row_of(x.data, d, i), up.data, f, dn.data, d_out);
    assert forall|i: int| 0 <= i < s implies #[trigger] naive(i) == fused(i) by {
        lemma_row_of_map(h.data, f, s, i);
        assert(row_of(stacked(hidden, s as nat), f, i) == hidden(i));
    }
    lemma_stacked_same(naive, fused, s as nat);
}

// ---- Fused attention ----

/// The laws of exact arithmetic that the streaming softmax rests on, at three numbers.
pub open spec fn exact_at<T: Scalar>(a: T, b: T, c: T) -> bool {
    &&& T::the_zero().product(a) == T::the_zero()
    &&& a.product(b) == b.product(a)
    &&& a.sum(b).product(c) == a.product(c).sum(b.product(c))
    &&& a.product(b).product(c) == a.product(c).product(b)
    &&& a.difference(b).exponential().product(b.difference(c).exponential()) == a.difference(
        c,
    ).exponential()
    &&& a.quotient(b) == a.product(T::the_one().quotient(b))
}

/// Whether the scalars obey the laws of exact arithmetic, as the real numbers do.
pub open spec fn exact<T: Scalar>() -> bool {
    forall|a: T, b: T, c: T| #[trigger] exact_at(a, b, c)
}

/// Factors move in exact arithmetic.
pub proof fn lemma_exact_factors<T: Scalar>()
    requires
        exact::<T>(),
    ensures
        factors_move::<T>(),
{
    assert forall|a: T, b: T, c: T| #[trigger] factors_at(a, b, c) by {
        assert(exact_at(a, b, c));
    }
}

/// The first `count` values of column `t`, weighted by the exponentials of the logits over `m`.
spec fn weighted<T: Scalar>(x: Seq<T>, m: T, v: Seq<T>, dv: int, t: int, count: nat) -> T
    decreases count,
{
    if count == 0 {
        T::the_zero()
    } else {
        weighted(x, m, v, dv, t, (count - 1) as nat).sum(
            x[count - 1].difference(m).exponential().product(v[(count - 1) * dv + t]),
        )
    }
}

/// Rescaling to another maximum.
proof fn lemma_rescaled<T: Scalar>(
    x: Seq<T>,
    m: T,
    n: T,
    v: Seq<T>,
    dv: int,
    t: int,
    count: nat,
)
    requires
        exact::<T>(),
    ensures
        exp_sum_steps(x, m, count).product(m.difference(n).exponential()) == exp_sum_steps(
            x,
            n,
            count,
        ),
        weighted(x, m, v, dv, t, count).product(m.difference(n).exponential()) == weighted(
            x,
            n,
            v,
            dv,
            t,
            count,
        ),
    decreases count,
{
    let corr = m.difference(n).exponential();
    if count == 0 {
        assert(exact_at(corr, corr, corr));
    } else {
        lemma_rescaled(x, m, n, v, dv, t, (count - 1) as nat);
        let e = x[count - 1].difference(m).exponential();
        let w = v[(count - 1) * dv + t];
        assert(exact_at(exp_sum_steps(x, m, (count - 1) as nat), e, corr));
        assert(exact_at(x[count - 1], m, n));
        assert(exact_at(weighted(x, m, v, dv, t, (count - 1) as nat), e.product(w), corr));
        assert(exact_at(e, w, corr));
    }
}

/// The logits of the query row `q`.
spec fn logits<T: Scalar>(q: Seq<T>, k: Seq<T>, scale: T, keys: nat) -> Seq<T> {
    Seq::new(
        keys,
        |j: int| row_dot(q, row_of(k, q.len() as int, j), q.len()).product(scale),
    )
}

/// The state of the stream is the softmax of the keys seen so far.
proof fn lemma_streamed<T: Scalar>(
    q: Seq<T>,
    k: Seq<T>,
    v: Seq<T>,
    dv: int,
    scale: T,
    keys: nat,
    count: nat,
)
    requires
        exact::<T>(),
        count <= keys,
        0 <= dv,
        keys * dv <= v.len(),
    ensures
        ({
            let s = streamed(q, k, v, dv, scale, count);
            let x = logits(q, k, scale, keys);
            &&& s.max == max_steps(x, count)
            &&& s.total == exp_sum_steps(x, s.max, count)
            &&& s.acc.len() == dv
            &&& forall|t: int|
                0 <= t < dv ==> #[trigger] s.acc[t] == weighted(x, s.max, v, dv, t, count)
        }),
    decreases count,
{
    let x = logits(q, k, scale, keys);
    if count > 0 {
        lemma_streamed(q, k, v, dv, scale, keys, (count - 1) as nat);
        let before = streamed(q, k, v, dv, scale, (count - 1) as nat);
        let s = streamed(q, k, v, dv, scale, count);
        let logit = x[count - 1];
        let row = row_of(v, dv, count - 1);
        lemma_row_fits(count - 1, keys as int, dv);
        assert(s == stream_step(before, logit, row));
        lemma_rescaled(x, before.max, s.max, v, dv, 0, (count - 1) as nat);
        assert forall|t: int| 0 <= t < dv implies #[trigger] s.acc[t] == weighted(
            x,
            s.max,
            v,
            dv,
            t,
            count,
        ) by {
            lemma_rescaled(x, before.max, s.max, v, dv, t, (count - 1) as nat);
            assert(before.acc[t] == weighted(x, before.max, v, dv, t, (count - 1) as nat));
            assert(row[t] == v[(count - 1) * dv + t]);
        }
    }
}

/// Dividing each weight by the total is dividing the weighted sum by it.
proof fn lemma_normalised<T: Scalar>(
    x: Seq<T>,
    m: T,
    total: T,
    v: Seq<T>,
    dv: int,
    t: int,
    count: nat,
)
    requires
        exact::<T>(),
        count <= x.len(),
    ensures
        dot_steps(
            x.map_values(|e: T| e.difference(m).exponential().quotient(total)),
            v,
            dv,
            t,
            count,
        ) == weighted(x, m, v, dv, t, count).product(T::the_one().quotient(total)),
    decreases count,
{
    let inv = T::the_one().quotient(total);
    let y = x.map_values(|e: T| e.difference(m).exponential().quotient(total));
    if count == 0 {
        assert(exact_at(inv, inv, inv));
    } else {
        lemma_normalised(x, m, total, v, dv, t, (count - 1) as nat);
        let e = x[count - 1].difference(m).exponential();
        let w = v[(count - 1) * dv + t];
        assert(y[count - 1] == e.quotient(total));
        assert(exact_at(e, total, inv));
        assert(exact_at(e, inv, w));
        assert(exact_at(weighted(x, m, v, dv, t, (count - 1) as nat), e.product(w), inv));
    }
}

/// The streaming-softmax identity: one row of fused attention is the softmax of the logits times
/// the values.
pub proof fn streaming_softmax_identity<T: Scalar>(
    q: Seq<T>,
    k: Seq<T>,
    v: Seq<T>,
    dv: int,
    scale: T,
    keys: nat,
)
    requires
        exact::<T>(),
        0 <= dv,
        keys * dv <= v.len(),
    ensures
        attention_row(q, k, v, dv, scale, keys) == row_product(
            softmax_row(
                Seq::new(
                    keys,
                    |j: int| row_dot(q, row_of(k, q.len() as int, j), q.len()).product(scale),
                ),
            ),
            v,
            dv,
        ),
{
    let x = logits(q, k, scale, keys);
    let s = streamed(q, k, v, dv, scale, keys);
    lemma_streamed(q, k, v, dv, scale, keys, keys);
    let inv = T::the_one().quotient(s.total);
    let fused = attention_row(q, k, v, dv, scale, keys);
    let naive = row_product(softmax_row(x), v, dv);
    assert forall|t: int| 0 <= t < dv implies fused[t] == naive[t] by {
        lemma_normalised(x, s.max, s.total, v, dv, t, keys);
        assert(fused[t] == s.acc[t].product(inv));
        assert(softmax_row(x) == x.map_values(
            |e: T| e.difference(s.max).exponential().quotient(s.total),
        ));
    }
    assert(fused =~= naive);
}

/// The dot product with a column of the transpose is the dot product with the row.
proof fn lemma_transposed_dot<T: Scalar>(
    q: Seq<T>,
    k: Seq<T>,
    kt: Seq<T>,
    keys: int,
    j: int,
    count: nat,
)
    requires
        0 <= j < keys,
        count <= q.len(),
        k.len() == keys * q.len(),
        forall|l: int, j: int|
            0 <= l < q.len() && 0 <= j < keys ==> #[trigger] kt[l * keys + j] == row_of(
                k,
                q.len() as int,
                j,
            )[l],
    ensures
        dot_steps(q, kt, keys, j, count) == row_dot(q, row_of(k, q.len() as int, j), count),
    decreases count,
{
    if count > 0 {
        lemma_transposed_dot(q, k, kt, keys, j, (count - 1) as nat);
        let l = count - 1;
        assert(kt[l * keys + j] == row_of(k, q.len() as int, j)[l]);
    }
}

/// A scale of one element scales every score.
proof fn lemma_scaled<T: Scalar>(
    scores: Tensor<T>,
    sc: Tensor<T>,
    scaled: Tensor<T>,
    attn: Tensor<T>,
    v: Tensor<T>,
    out: Tensor<T>,
)
    requires
        exact::<T>(),
        scores.well_formed(),
        sc.well_formed(),
        scores.shape.len() == 2,
        numel(sc.shape) == 1,
        emul_value(scores, sc) == Some(scaled),
        softmax_value(scaled) == Some(attn),
        matmul_value(attn, v) == Some(out),
    ensures
        scaled == (Tensor {
            shape: scores.shape,
            data: scores.data.map_values(|x: T| x.product(sc.data[0])),
        }),
{
    if numel(scores.shape) == 1 {
        lemma_numel_one(scores.shape);
        lemma_numel_one(sc.shape);
        assert(scaled.shape =~= scores.shape);
        assert(exact_at(sc.data[0], scores.data[0], scores.data[0]));
        assert(scaled.data =~= scores.data.map_values(|x: T| x.product(sc.data[0])));
    }
}

/// In exact arithmetic, fused attention computes what the reference interpreter computes on the
/// naive program.
pub proof fn fused_attention_is_the_reference<T: Scalar>(env: Map<Seq<char>, TensorData<T>>)
    requires
        exact::<T>(),
        env_well_formed(env),
        evaluated(attention_nodes(), env, 8) is Some,
        numel(env["scale"@]@.shape) == 1,
    ensures
        evaluated(attention_nodes(), env, 8) == fused_attention_value(
            env["Q_sd"@]@,
            env["K_sd"@]@,
            env["V_sd"@]@,
            env["scale"@]@.data[0],
        ),
{
    let nodes = attention_nodes();
    let q = evaluated(nodes, env, 0).unwrap();
    let k = evaluated(nodes, env, 1).unwrap();
    let v = evaluated(nodes, env, 2).unwrap();
    let sc = evaluated(nodes, env, 3).unwrap();
    let kt = evaluated(nodes, env, 4).unwrap();
    let scores = evaluated(nodes, env, 5).unwrap();
    let scaled = evaluated(nodes, env, 6).unwrap();
    let attn = evaluated(nodes, env, 7).unwrap();
    assert(transpose_value(k) == Some(kt));
    assert(matmul_value(q, kt) == Some(scores));
    assert(emul_value(scores, sc) == Some(scaled));
    assert(softmax_value(scaled) == Some(attn));
    fused_attention_computes_attention(q, k, v, sc);
}

/// Attention by the operators of the reference interpreter: `softmax(q k^T sc) v`.
pub open spec fn attention_value<T: Scalar>(
    q: Tensor<T>,
    k: Tensor<T>,
    v: Tensor<T>,
    sc: Tensor<T>,
) -> Option<Tensor<T>> {
    match transpose_value(k) {
        Some(kt) => match matmul_value(q, kt) {
            Some(scores) => match emul_value(scores, sc) {
                Some(scaled) => match softmax_value(scaled) {
                    Some(attn) => matmul_value(attn, v),
                    None => None,
                },
                None => None,
            },
            None => None,
        },
        None => None,
    }
}

/// In exact arithmetic, fused attention is attention by the operators of the reference interpreter.
pub proof fn fused_attention_computes_attention<T: Scalar>(
    q: Tensor<T>,
    k: Tensor<T>,
    v: Tensor<T>,
    sc: Tensor<T>,
)
    requires
        exact::<T>(),
        q.well_formed(),
        k.well_formed(),
        v.well_formed(),
        sc.well_formed(),
        attention_value(q, k, v, sc) is Some,
        numel(sc.shape) == 1,
    ensures
        attention_value(q, k, v, sc) == fused_attention_value(q, k, v, sc.data[0]),
{
    let kt = transpose_value(k).unwrap();
    let scores = matmul_value(q, kt).unwrap();
    let scaled = emul_value(scores, sc).unwrap();
    let attn = softmax_value(scaled).unwrap();
    let out = matmul_value(attn, v).unwrap();
    let scale = sc.data[0];
    let (s, d, keys, dv) = (
        q.shape[0] as int,
        q.shape[1] as int,
        k.shape[0] as int,
        v.shape[1] as int,
    );
    assert(q.shape =~= seq![q.shape[0], q.shape[1]]);
    assert(k.shape =~= seq![k.shape[0], k.shape[1]]);
    assert(v.shape =~= seq![v.shape[0], v.shape[1]]);
    lemma_numel_matrix(q.shape[0], q.shape[1]);
    lemma_numel_matrix(k.shape[0], k.shape[1]);
    lemma_numel_matrix(v.shape[0], v.shape[1]);
    // The transpose holds the columns of the keys as rows.
    let columns = |l: int| Seq::new(keys as nat, |j: int| k.data[j * d + l]);
    lemma_stacked(columns, keys, d as nat);
    assert forall|l: int, j: int| 0 <= l < d && 0 <= j < keys implies #[trigger] kt.data[l * keys
        + j] == row_of(k.data, d, j)[l] by {
        assert(row_of(stacked(columns, d as nat), keys, l) == columns(l));
        lemma_row_fits(l, d, keys);
        lemma_row_fits(j, keys, d);
        assert(row_of(kt.data, keys, l)[j] == kt.data[l * keys + j]);
        assert(columns(l)[j] == k.data[j * d + l]);
    }
    // The rows of the scaled scores are the logits.
    let score_row = |i: int| row_product(row_of(q.data, d, i), kt.data, keys);
    lemma_stacked(score_row, keys, s as nat);
    lemma_numel_matrix(q.shape[0], k.shape[0]);
    lemma_scaled(scores, sc, scaled, attn, v, out);
    let soft = |i: int| softmax_row(row_of(scaled.data, keys, i));
    assert(scaled.shape.drop_last() =~= seq![q.shape[0]]);
    assert(numel(scaled.shape.drop_last()) == s) by {
        assert(seq![q.shape[0]].drop_last() =~= seq![]);
        assert(numel(seq![]) == 1);
        assert(numel(seq![q.shape[0]]) == 1 * q.shape[0]);
    }
    assert(attn.data == stacked(soft, s as nat));
    assert forall|i: int| 0 <= i < s implies (#[trigger] soft(i)).len() == keys by {
        lemma_row_fits(i, s, keys);
    }
    lemma_stacked(soft, keys, s as nat);
    let naive = |i: int| row_product(row_of(attn.data, keys, i), v.data, dv);
    let fused = |i: int|
        attention_row(row_of(q.data, d, i), k.data, v.data, dv, scale, keys as nat);
    assert forall|i: int| 0 <= i < s implies #[trigger] naive(i) == fused(i) by {
        let row = row_of(q.data, d, i);
        lemma_row_fits(i, s, d);
        lemma_row_fits(i, s, keys);
        assert(row.len() == d);
        let x = Seq::new(
            keys as nat,
            |j: int| row_dot(row, row_of(k.data, row.len() as int, j), row.len()).product(scale),
        );
        assert(row_of(stacked(score_row, s as nat), keys, i) == score_row(i));
        assert forall|j: int| 0 <= j < keys implies row_of(scaled.data, keys, i)[j] == x[j] by {
            lemma_transposed_dot(row, k.data, kt.data, keys, j, row.len());
            assert(score_row(i)[j] == dot_steps(row, kt.data, keys, j, row.len()));
            assert(row_of(scores.data, keys, i)[j] == scores.data[i * keys + j]);
        }
        assert(row_of(scaled.data, keys, i) =~= x);
        assert(row_of(stacked(soft, s as nat), keys, i) == soft(i));
        streaming_softmax_identity(row, k.data, v.data, dv, scale, keys as nat);
    }
    lemma_stacked_same(naive, fused, s as nat);
}

// ---- The streaming kernel ----

/// The streaming kernel keeps the largest logit that it has met, in every arithmetic, so that it
/// takes the exponential of no number above zero. A logit is the scaled product of the query and a
/// key, added up in order.
pub proof fn streaming_keeps_the_largest_logit<T: Scalar>(
    q: Seq<T>,
    k: Seq<T>,
    v: Seq<T>,
    dv: int,
    scale: T,
    count: nat,
)
    requires
        count * q.len() <= k.len(),
    ensures
        streamed(q, k, v, dv, scale, count).max == largest(
            Seq::new(
                count,
                |j: int|
                    total(
                        Seq::new(q.len(), |l: int| q[l].product(k[j * q.len() + l])),
                    ).product(scale),
            ),
        ),
    decreases count,
{
    let d = q.len() as int;
    let logit = |j: int|
        total(Seq::new(q.len(), |l: int| q[l].product(k[j * q.len() + l]))).product(scale);
    if count > 0 {
        let n = count - 1;
        lemma_row_fits(n, count as int, d);
        streaming_keeps_the_largest_logit(q, k, v, dv, scale, n as nat);
        let all = Seq::new(count, logit);
        assert(all.drop_last() =~= Seq::new(n as nat, logit));
        assert(all.last() == logit(n));
        let row = row_of(k, d, n);
        let terms = Seq::new(q.len(), |l: int| q[l].product(k[n * q.len() + l]));
        assert(terms =~= Seq::new(q.len(), |l: int| q[l].product(row[l])));
        lemma_row_dot(q, row, q.len());
        assert(terms.take(q.len() as int) =~= terms);
        assert(all =~= Seq::new(
            count,
            |j: int|
                total(Seq::new(q.len(), |l: int| q[l].product(k[j * q.len() + l]))).product(scale),
        ));
    } else {
        assert(Seq::new(0nat, logit) =~= Seq::<T>::empty());
    }
}

proof fn lemma_row_dot<T: Scalar>(a: Seq<T>, b: Seq<T>, count: nat)
    requires
        count <= a.len(),
    ensures
        row_dot(a, b, count) == total(
            Seq::new(a.len(), |l: int| a[l].product(b[l])).take(count as int),
        ),
    decreases count,
{
    let terms = Seq::new(a.len(), |l: int| a[l].product(b[l]));
    if count > 0 {
        lemma_row_dot(a, b, (count - 1) as nat);
        assert(terms.take(count as int).drop_last() =~= terms.take(count - 1));
        assert(terms.take(count as int).last() == terms[count - 1]);
    }
}

// ---- Which kernel ----

/// Whether node `j` is among those that node `i` is computed with.
pub open spec fn computed_with(nodes: Seq<Node>, i: int, j: int) -> bool
    decreases i,
{
    0 <= i < nodes.len() && (i == j || exists|k: int|
        0 <= k < nodes[i].children().len() && 0 <= #[trigger] nodes[i].children()[k] < i
            && computed_with(nodes, nodes[i].children()[k], j))
}

proof fn lemma_region_has(nodes: Seq<Node>, i: int, producer: Producer)
    ensures
        region_has(nodes, i, producer) <==> exists|j: int|
            0 <= j < nodes.len() && #[trigger] computed_with(nodes, i, j) && is_producer(
                nodes[j],
                producer,
            ),
    decreases i,
{
    if 0 <= i < nodes.len() {
        let kids = nodes[i].children();
        assert forall|k: int| 0 <= k < kids.len() && 0 <= #[trigger] kids[k] < i implies (
        region_has(nodes, kids[k], producer) <==> exists|j: int|
            0 <= j < nodes.len() && #[trigger] computed_with(nodes, kids[k], j) && is_producer(
                nodes[j],
                producer,
            )) by {
            lemma_region_has(nodes, kids[k], producer);
        }
        match nodes[i] {
            Node::MatMul(a, b) | Node::EMul(a, b) => {
                assert(kids[0] == a && kids[1] == b);
            },
            Node::Transpose(a) | Node::Softmax(a) | Node::Relu(a) | Node::Fuse(a) => {
                assert(kids[0] == a);
            },
            Node::Var(_) => {},
        }
        if region_has(nodes, i, producer) {
            if is_producer(nodes[i], producer) {
                assert(computed_with(nodes, i, i));
            } else {
                let k = choose|k: int|
                    0 <= k < kids.len() && 0 <= #[trigger] kids[k] < i && region_has(
                        nodes,
                        kids[k],
                        producer,
                    );
                let j = choose|j: int|
                    0 <= j < nodes.len() && #[trigger] computed_with(nodes, kids[k], j)
                        && is_producer(nodes[j], producer);
                assert(0 <= nodes[i].children()[k] < i);
                assert(computed_with(nodes, i, j));
            }
        }
        if exists|j: int|
            0 <= j < nodes.len() && #[trigger] computed_with(nodes, i, j) && is_producer(
                nodes[j],
                producer,
            ) {
            let j = choose|j: int|
                0 <= j < nodes.len() && #[trigger] computed_with(nodes, i, j) && is_producer(
                    nodes[j],
                    producer,
                );
            if i != j {
                let k = choose|k: int|
                    0 <= k < nodes[i].children().len() && 0 <= #[trigger] nodes[i].children()[k] < i
                        && computed_with(nodes, nodes[i].children()[k], j);
                assert(region_has(nodes, kids[k], producer));
            }
        }
    }
}

/// Whether node `f` is a fused region that is computed with node `j`.
pub open spec fn fused_over(nodes: Seq<Node>, f: int, j: int) -> bool {
    &&& 0 <= f < nodes.len() && 0 <= j < nodes.len()
    &&& nodes[f] matches Node::Fuse(a) && 0 <= a < f && computed_with(nodes, a, j)
}

/// The kernel of a plan is picked by what is fused: attention where a softmax is, the MLP where a
/// relu is and no softmax, and the interpreter where neither is. What is not fused picks nothing.
pub proof fn what_is_fused_picks_the_kernel(nodes: Seq<Node>)
    ensures
        ({
            let soft = exists|f: int, j: int| #[trigger]
                fused_over(nodes, f, j) && nodes[j] is Softmax;
            let relu = exists|f: int, j: int| #[trigger]
                fused_over(nodes, f, j) && nodes[j] is Relu;
            &&& kernel_of(nodes) == Kernel::FusedAttention <==> soft
            &&& kernel_of(nodes) == Kernel::FusedMlp <==> relu && !soft
            &&& kernel_of(nodes) == Kernel::Reference <==> !relu && !soft
        }),
{
    lemma_has_fused(nodes, Producer::Softmax);
    lemma_has_fused(nodes, Producer::Relu);
}

spec fn is_producer(node: Node, producer: Producer) -> bool {
    match producer {
        Producer::Softmax => node is Softmax,
        Producer::Relu => node is Relu,
    }
}

proof fn lemma_has_fused(nodes: Seq<Node>, producer: Producer)
    ensures
        has_fused(nodes, producer) <==> exists|f: int, j: int| #[trigger]
            fused_over(nodes, f, j) && is_producer(nodes[j], producer),
{
    if has_fused(nodes, producer) {
        let f = choose|f: int| 0 <= f < nodes.len() && #[trigger] fuses(nodes, f, producer);
        let a = nodes[f]->Fuse_0;
        lemma_region_has(nodes, a, producer);
        let j = choose|j: int|
            0 <= j < nodes.len() && #[trigger] computed_with(nodes, a, j) && is_producer(
                nodes[j],
                producer,
            );
        assert(fused_over(nodes, f, j));
    }
    if exists|f: int, j: int| #[trigger]
        fused_over(nodes, f, j) && is_producer(nodes[j], producer) {
        let (f, j) = choose|f: int, j: int| #[trigger]
            fused_over(nodes, f, j) && is_producer(nodes[j], producer);
        let a = nodes[f]->Fuse_0;
        lemma_region_has(nodes, a, producer);
        assert(computed_with(nodes, a, j));
        assert(fuses(nodes, f, producer));
    }
}

} // verus!
