//! Lowering a chosen plan to a kernel, and the fused kernels.
//!
//! The fused kernels compute one row of the output at a time, so that the large intermediates of
//! the plan never exist at once.
use crate::algebra::{factors_move, lemma_scale_distrib, lemma_transpose_rows, scaled};
use crate::ir::{
    is_scalar, lemma_numel_matrix, lemma_numel_one, scalar_shape, Id, Node, Program, TensorLang,
};
use crate::kernel_laws::{
    attention_value, exact, fused_attention_computes_attention, fused_mlp_computes_the_mlp,
    lemma_exact_factors, mlp_value,
};
use crate::names::NameMap;
use crate::tensor::{
    emul_value, env_well_formed, eval, evaluated, lemma_row_fits, lemma_stacked, matmul_value,
    rectified, rectify, row_of, row_product, softmax_value, stacked, times_matrix, transpose_value,
    zeros, Scalar, Tensor, TensorData,
};
use crate::text::same_text;
use vstd::prelude::*;

verus! {

// ---- Lowering ----

/// Which kernel a plan lowers to. A plan with a fused region lowers to the matching fused kernel;
/// anything else is left to the reference interpreter.
#[derive(Clone, Copy, Debug, PartialEq, Eq, Structural)]
pub enum Kernel {
    FusedAttention,
    FusedMlp,
    Reference,
}

/// What can stand inside a fused region and pick its kernel.
#[derive(Clone, Copy, Debug, PartialEq, Eq, Structural)]
pub enum Producer {
    Softmax,
    Relu,
}

/// Whether node `i` is computed with such a producer: it is one, or an operand is.
pub open spec fn region_has(nodes: Seq<Node>, i: int, producer: Producer) -> bool
    decreases i,
{
    if i < 0 || i >= nodes.len() {
        false
    } else {
        match nodes[i] {
            Node::Var(_) => false,
            Node::MatMul(a, b) | Node::EMul(a, b) => {
                ||| 0 <= a < i && region_has(nodes, a, producer)
                ||| 0 <= b < i && region_has(nodes, b, producer)
            },
            Node::Transpose(a) | Node::Fuse(a) => 0 <= a < i && region_has(nodes, a, producer),
            Node::Softmax(a) => producer is Softmax || 0 <= a < i && region_has(nodes, a, producer),
            Node::Relu(a) => producer is Relu || 0 <= a < i && region_has(nodes, a, producer),
        }
    }
}

/// Whether node `i` is a fused region with such a producer inside.
pub open spec fn fuses(nodes: Seq<Node>, i: int, producer: Producer) -> bool {
    nodes[i] matches Node::Fuse(a) && 0 <= a < i && region_has(nodes, a, producer)
}

/// Whether some fused region has such a producer inside.
pub open spec fn has_fused(nodes: Seq<Node>, producer: Producer) -> bool {
    exists|i: int| 0 <= i < nodes.len() && #[trigger] fuses(nodes, i, producer)
}

/// The kernel of a plan: the producer inside a fused region picks it. A softmax chain is attention,
/// a relu chain is the MLP.
pub open spec fn kernel_of(nodes: Seq<Node>) -> Kernel {
    if has_fused(nodes, Producer::Softmax) {
        Kernel::FusedAttention
    } else if has_fused(nodes, Producer::Relu) {
        Kernel::FusedMlp
    } else {
        Kernel::Reference
    }
}

/// Whether some fused region of a plan has such a producer inside.
fn finds_fused(expr: &Program, producer: Producer) -> (found: bool)
    ensures
        found == has_fused(expr@, producer),
{
    let mut has: Vec<bool> = Vec::new();
    let mut i: usize = 0;
    while i < expr.nodes.len()
        invariant
            i <= expr@.len(),
            has@.len() == i,
            forall|k: int| 0 <= k < i ==> #[trigger] has@[k] == region_has(expr@, k, producer),
            forall|k: int| 0 <= k < i ==> !#[trigger] fuses(expr@, k, producer),
        decreases expr@.len() - i,
    {
        let node = &expr.nodes[i];
        assert(expr@[i as int] == node@);
        let below = match node {
            TensorLang::Var(_) => false,
            TensorLang::MatMul(a, b) | TensorLang::EMul(a, b) => (*a < i && has[*a]) || (*b < i
                && has[*b]),
            TensorLang::Transpose(a) | TensorLang::Softmax(a) | TensorLang::Relu(a)
            | TensorLang::Fuse(a) => *a < i && has[*a],
        };
        let here = match node {
            TensorLang::Softmax(_) => matches!(producer, Producer::Softmax),
            TensorLang::Relu(_) => matches!(producer, Producer::Relu),
            _ => false,
        };
        if let TensorLang::Fuse(_) = node {
            if below {
                assert(fuses(expr@, i as int, producer));
                return true;
            }
        }
        has.push(below || here);
        i = i + 1;
    }
    false
}

/// Inspects a plan and decides which kernel to emit. The optimizer's decision to fuse selects the
/// fast path; the producer inside the fused region picks the kernel.
pub fn lower(expr: &Program) -> (kernel: Kernel)
    ensures
        kernel == kernel_of(expr@),
{
    if finds_fused(expr, Producer::Softmax) {
        Kernel::FusedAttention
    } else if finds_fused(expr, Producer::Relu) {
        Kernel::FusedMlp
    } else {
        Kernel::Reference
    }
}

// ---- Fused MLP ----

/// Whether the first two axes of `t` span a matrix that its elements fill.
pub open spec fn holds_matrix<T>(t: Tensor<T>) -> bool {
    t.shape.len() >= 2 && t.shape[0] * t.shape[1] <= t.data.len()
}

/// One row of the fused MLP: up, relu, down.
pub open spec fn mlp_row<T: Scalar>(x: Seq<T>, up: Seq<T>, f: int, dn: Seq<T>, d_out: int) -> Seq<T> {
    row_product(rectified(row_product(x, up, f)), dn, d_out)
}

/// The MLP, row by row. `None` where the extents do not fit.
pub open spec fn fused_mlp_value<T: Scalar>(
    x: Tensor<T>,
    w_up: Tensor<T>,
    w_dn: Tensor<T>,
) -> Option<Tensor<T>> {
    if x.shape.len() == 2 && holds_matrix(x) && holds_matrix(w_up) && holds_matrix(w_dn)
        && w_up.shape[0] == x.shape[1] && w_dn.shape[0] == w_up.shape[1] {
        let (s, d) = (x.shape[0] as int, x.shape[1] as int);
        let (f, d_out) = (w_up.shape[1] as int, w_dn.shape[1] as int);
        Some(
            Tensor {
                shape: seq![x.shape[0], w_dn.shape[1]],
                data: stacked(
                    |i: int| mlp_row(row_of(x.data, d, i), w_up.data, f, w_dn.data, d_out),
                    s as nat,
                ),
            },
        )
    } else {
        None
    }
}

/// Fused MLP: `Y_sd = relu(X_sd W_up_df) W_dn_fd`, one row at a time. The hidden activations of
/// the current row are consumed at once, so the whole hidden matrix never exists.
pub fn fused_mlp<T: Scalar>(x: &TensorData<T>, w_up: &TensorData<T>, w_dn: &TensorData<T>) -> (y:
    TensorData<T>)
    requires
        fused_mlp_value(x@, w_up@, w_dn@) is Some,
    ensures
        fused_mlp_value(x@, w_up@, w_dn@) == Some(y@),
        y@.well_formed(),
{
    let (s, d): (usize, usize) = (x.shape[0], x.shape[1]);
    let (f, d_out): (usize, usize) = (w_up.shape[1], w_dn.shape[1]);
    let ghost row = |i: int|
        mlp_row(row_of(x@.data, d as int, i), w_up@.data, f as int, w_dn@.data, d_out as int);
    let x_len: usize = x.data.len();
    let mut data: Vec<T> = Vec::new();
    let mut start: usize = 0;
    let mut i: usize = 0;
    while i < s
        invariant
            i <= s,
            x_len == x.data@.len(),
            s * d <= x.data@.len(),
            d * f <= w_up.data@.len(),
            f * d_out <= w_dn.data@.len(),
            start == i * d,
            row == (|i: int|
                mlp_row(
                    row_of(x@.data, d as int, i),
                    w_up@.data,
                    f as int,
                    w_dn@.data,
                    d_out as int,
                )),
            data@ == stacked(row, i as nat),
        decreases s - i,
    {
        proof {
            lemma_row_fits(i as int, s as int, d as int);
        }
        let h = rectify(&times_matrix(&x.data, start, d, &w_up.data, f));
        assert(h@.subrange(0, f as int) =~= h@);
        let mut y = times_matrix(&h, 0, f, &w_dn.data, d_out);
        assert(y@ == row(i as int));
        data.append(&mut y);
        start = start + d;
        i = i + 1;
    }
    proof {
        lemma_stacked(row, d_out as int, s as nat);
        lemma_numel_matrix(s, d_out);
    }
    let shape: Vec<usize> = vec![s, d_out];
    assert(shape@ =~= seq![s, d_out]);
    TensorData { shape, data }
}

// ---- Fused attention ----

/// The first `count` steps of the dot product of two rows.
pub open spec fn row_dot<T: Scalar>(a: Seq<T>, b: Seq<T>, count: nat) -> T
    decreases count,
{
    if count == 0 {
        T::the_zero()
    } else {
        row_dot(a, b, (count - 1) as nat).sum(a[count - 1].product(b[count - 1]))
    }
}

/// The running state of the streaming softmax: the largest logit, the sum of the exponentials over
/// it, and the values weighted by them.
#[verifier::ext_equal]
pub struct Stream<T> {
    pub max: T,
    pub total: T,
    pub acc: Seq<T>,
}

/// One more key: the totals are rescaled to the new maximum, and the key's value is added.
pub open spec fn stream_step<T: Scalar>(s: Stream<T>, logit: T, v: Seq<T>) -> Stream<T> {
    let max = s.max.larger(logit);
    let corr = s.max.difference(max).exponential();
    let p = logit.difference(max).exponential();
    Stream {
        max,
        total: s.total.product(corr).sum(p),
        acc: Seq::new(s.acc.len(), |t: int| s.acc[t].product(corr).sum(p.product(v[t]))),
    }
}

/// The state after the first `count` keys, for the query row `q`.
pub open spec fn streamed<T: Scalar>(
    q: Seq<T>,
    k: Seq<T>,
    v: Seq<T>,
    dv: int,
    scale: T,
    count: nat,
) -> Stream<T>
    decreases count,
{
    if count == 0 {
        Stream {
            max: T::the_lowest(),
            total: T::the_zero(),
            acc: Seq::new(dv as nat, |t: int| T::the_zero()),
        }
    } else {
        let d = q.len() as int;
        let logit = row_dot(q, row_of(k, d, count - 1), q.len()).product(scale);
        stream_step(
            streamed(q, k, v, dv, scale, (count - 1) as nat),
            logit,
            row_of(v, dv, count - 1),
        )
    }
}

/// One row of fused attention.
pub open spec fn attention_row<T: Scalar>(
    q: Seq<T>,
    k: Seq<T>,
    v: Seq<T>,
    dv: int,
    scale: T,
    keys: nat,
) -> Seq<T> {
    let s = streamed(q, k, v, dv, scale, keys);
    let inv = T::the_one().quotient(s.total);
    s.acc.map_values(|a: T| a.product(inv))
}

/// Attention, row by row. `None` where the extents do not fit.
pub open spec fn fused_attention_value<T: Scalar>(
    q: Tensor<T>,
    k: Tensor<T>,
    v: Tensor<T>,
    scale: T,
) -> Option<Tensor<T>> {
    if q.shape.len() == 2 && holds_matrix(q) && holds_matrix(k) && holds_matrix(v) && k.shape[1]
        == q.shape[1] && v.shape[0] == k.shape[0] {
        let (s, d) = (q.shape[0] as int, q.shape[1] as int);
        let (keys, dv) = (k.shape[0] as nat, v.shape[1] as int);
        Some(
            Tensor {
                shape: seq![q.shape[0], v.shape[1]],
                data: stacked(
                    |i: int| attention_row(row_of(q.data, d, i), k.data, v.data, dv, scale, keys),
                    s as nat,
                ),
            },
        )
    } else {
        None
    }
}

fn dot_rows<T: Scalar>(a: &Vec<T>, at: usize, b: &Vec<T>, from: usize, d: usize) -> (dot: T)
    requires
        at + d <= a@.len(),
        from + d <= b@.len(),
    ensures
        dot == row_dot(
            a@.subrange(at as int, at + d),
            b@.subrange(from as int, from + d),
            d as nat,
        ),
{
    let ghost (x, y) = (a@.subrange(at as int, at + d), b@.subrange(from as int, from + d));
    let (a_len, b_len): (usize, usize) = (a.len(), b.len());
    let mut dot: T = T::zero();
    let mut t: usize = 0;
    while t < d
        invariant
            t <= d,
            a_len == a@.len(),
            b_len == b@.len(),
            at + d <= a@.len(),
            from + d <= b@.len(),
            x == a@.subrange(at as int, at + d),
            y == b@.subrange(from as int, from + d),
            dot == row_dot(x, y, t as nat),
        decreases d - t,
    {
        dot = dot.plus(&a[at + t].times(&b[from + t]));
        t = t + 1;
    }
    dot
}

/// Takes the weighted value of one key into the accumulator.
fn accumulate<T: Scalar>(acc: &Vec<T>, corr: &T, p: &T, v: &Vec<T>, from: usize) -> (next: Vec<T>)
    requires
        from + acc@.len() <= v@.len(),
    ensures
        next@ == Seq::new(
            acc@.len(),
            |t: int|
                acc@[t].product(*corr).sum(
                    p.product(v@.subrange(from as int, from + acc@.len())[t]),
                ),
        ),
{
    let v_len: usize = v.len();
    let mut next: Vec<T> = Vec::new();
    let mut t: usize = 0;
    while t < acc.len()
        invariant
            t <= acc@.len(),
            v_len == v@.len(),
            from + acc@.len() <= v@.len(),
            next@.len() == t,
            forall|k: int|
                0 <= k < t ==> #[trigger] next@[k] == acc@[k].product(*corr).sum(
                    p.product(v@[from + k]),
                ),
        decreases acc@.len() - t,
    {
        next.push(acc[t].times(corr).plus(&p.times(&v[from + t])));
        t = t + 1;
    }
    assert(next@ =~= Seq::new(
        acc@.len(),
        |t: int|
            acc@[t].product(*corr).sum(p.product(v@.subrange(from as int, from + acc@.len())[t])),
    ));
    next
}

/// The output row of one query.
fn attend<T: Scalar>(
    q: &Vec<T>,
    at: usize,
    d: usize,
    k: &Vec<T>,
    v: &Vec<T>,
    dv: usize,
    scale: &T,
    keys: usize,
) -> (row: Vec<T>)
    requires
        at + d <= q@.len(),
        keys * d <= k@.len(),
        keys * dv <= v@.len(),
    ensures
        row@ == attention_row(
            q@.subrange(at as int, at + d),
            k@,
            v@,
            dv as int,
            *scale,
            keys as nat,
        ),
        row@.len() == dv,
{
    let ghost x = q@.subrange(at as int, at + d);
    let (k_len, v_len): (usize, usize) = (k.len(), v.len());
    let mut m: T = T::lowest();
    let mut l: T = T::zero();
    let mut acc: Vec<T> = zeros(dv);
    assert(acc@ =~= Seq::new(dv as nat, |t: int| T::the_zero()));
    let (mut k_at, mut v_at): (usize, usize) = (0, 0);
    let mut j: usize = 0;
    while j < keys
        invariant
            j <= keys,
            k_len == k@.len(),
            v_len == v@.len(),
            at + d <= q@.len(),
            keys * d <= k@.len(),
            keys * dv <= v@.len(),
            x == q@.subrange(at as int, at + d),
            k_at == j * d,
            v_at == j * dv,
            acc@.len() == dv,
            streamed(x, k@, v@, dv as int, *scale, j as nat) == (Stream {
                max: m,
                total: l,
                acc: acc@,
            }),
        decreases keys - j,
    {
        proof {
            lemma_row_fits(j as int, keys as int, d as int);
            lemma_row_fits(j as int, keys as int, dv as int);
        }
        let s_ij = dot_rows(q, at, k, k_at, d).times(scale);
        let m_new = m.max(&s_ij);
        // Rescales the running totals to the new maximum.
        let corr = m.minus(&m_new).exp();
        let p = s_ij.minus(&m_new).exp();
        l = l.times(&corr).plus(&p);
        acc = accumulate(&acc, &corr, &p, v, v_at);
        m = m_new;
        k_at = k_at + d;
        v_at = v_at + dv;
        j = j + 1;
    }
    let inv = T::one().over(&l);
    let mut row: Vec<T> = Vec::new();
    let mut t: usize = 0;
    while t < acc.len()
        invariant
            t <= acc@.len(),
            row@.len() == t,
            forall|c: int| 0 <= c < t ==> #[trigger] row@[c] == acc@[c].product(inv),
        decreases acc@.len() - t,
    {
        row.push(acc[t].times(&inv));
        t = t + 1;
    }
    assert(row@ =~= acc@.map_values(|a: T| a.product(inv)));
    row
}

/// Fused attention by streaming softmax: `O_sd = softmax(Q_sd K_sd^T scale) V_sd`, one query row
/// at a time, with a running maximum, sum and accumulator, so that the scores and probabilities
/// never exist at once.
pub fn fused_attention<T: Scalar>(
    q: &TensorData<T>,
    k: &TensorData<T>,
    v: &TensorData<T>,
    scale: &T,
) -> (o: TensorData<T>)
    requires
        fused_attention_value(q@, k@, v@, *scale) is Some,
    ensures
        fused_attention_value(q@, k@, v@, *scale) == Some(o@),
        o@.well_formed(),
{
    let (s, d): (usize, usize) = (q.shape[0], q.shape[1]);
    let (keys, dv): (usize, usize) = (k.shape[0], v.shape[1]);
    let ghost row = |i: int|
        attention_row(
            row_of(q@.data, d as int, i),
            k@.data,
            v@.data,
            dv as int,
            *scale,
            keys as nat,
        );
    let q_len: usize = q.data.len();
    let mut data: Vec<T> = Vec::new();
    let mut start: usize = 0;
    let mut i: usize = 0;
    while i < s
        invariant
            i <= s,
            q_len == q.data@.len(),
            s * d <= q.data@.len(),
            keys * d <= k.data@.len(),
            keys * dv <= v.data@.len(),
            start == i * d,
            row == (|i: int|
                attention_row(
                    row_of(q@.data, d as int, i),
                    k@.data,
                    v@.data,
                    dv as int,
                    *scale,
                    keys as nat,
                )),
            data@ == stacked(row, i as nat),
            forall|r: int| 0 <= r < i ==> (#[trigger] row(r)).len() == dv,
        decreases s - i,
    {
        proof {
            lemma_row_fits(i as int, s as int, d as int);
        }
        let mut y = attend(&q.data, start, d, &k.data, &v.data, dv, scale, keys);
        assert(y@ == row(i as int));
        data.append(&mut y);
        start = start + d;
        i = i + 1;
    }
    proof {
        lemma_stacked(row, dv as int, s as nat);
        lemma_numel_matrix(s, dv);
    }
    let shape: Vec<usize> = vec![s, dv];
    assert(shape@ =~= seq![s, dv]);
    TensorData { shape, data }
}

// ---- Running a plan ----

/// Whether node `i` is the input of this name.
pub open spec fn names_input(nodes: Seq<Node>, i: int, name: Seq<char>) -> bool {
    0 <= i < nodes.len() && nodes[i] == Node::Var(name)
}

/// What node `i` scales, where it is an elementwise product by the input of the name `scale`.
pub open spec fn scaled_at(nodes: Seq<Node>, i: int) -> Option<int> {
    if 0 <= i < nodes.len() {
        match nodes[i] {
            Node::EMul(m, c) => if 0 <= m < i && c < i && names_input(nodes, c, "scale"@) {
                Some(m)
            } else {
                None
            },
            _ => None,
        }
    } else {
        None
    }
}

/// Whether node `i` is the transpose of the keys.
pub open spec fn keys_at(nodes: Seq<Node>, i: int) -> bool {
    0 <= i < nodes.len() && match nodes[i] {
        Node::Transpose(k) => k < i && names_input(nodes, k, "K_sd"@),
        _ => false,
    }
}

/// Where the scale of the scores stands.
pub enum ScaleSite {
    Scores,
    Queries,
    Keys,
}

/// Whether node `i` is the scores `Q K^T scale`, with the scale at `site`: a number may stand at
/// the product or at either of its operands.
pub open spec fn scores_at(nodes: Seq<Node>, i: int, site: ScaleSite) -> bool {
    match site {
        ScaleSite::Scores => match scaled_at(nodes, i) {
            Some(m) => match nodes[m] {
                Node::MatMul(q, t) => q < m && 0 <= t < m && names_input(nodes, q, "Q_sd"@)
                    && keys_at(nodes, t),
                _ => false,
            },
            None => false,
        },
        ScaleSite::Queries => 0 <= i < nodes.len() && match nodes[i] {
            Node::MatMul(x, t) => 0 <= x < i && 0 <= t < i && keys_at(nodes, t) && match scaled_at(
                nodes,
                x,
            ) {
                Some(q) => names_input(nodes, q, "Q_sd"@),
                None => false,
            },
            _ => false,
        },
        ScaleSite::Keys => 0 <= i < nodes.len() && match nodes[i] {
            Node::MatMul(q, x) => q < i && 0 <= x < i && names_input(nodes, q, "Q_sd"@)
                && match scaled_at(nodes, x) {
                Some(t) => keys_at(nodes, t),
                None => false,
            },
            _ => false,
        },
    }
}

/// Whether node `i` is attention, `softmax(Q K^T scale) V`, over the inputs of these names, with
/// the scale at `site`.
pub open spec fn attention_with(nodes: Seq<Node>, i: int, site: ScaleSite) -> bool {
    0 <= i < nodes.len() && match nodes[i] {
        Node::MatMul(p, v) => 0 <= p < i && v < i && names_input(nodes, v, "V_sd"@)
            && match nodes[p] {
            Node::Softmax(e) => 0 <= e < p && scores_at(nodes, e, site),
            _ => false,
        },
        _ => false,
    }
}

/// Whether node `i` is attention over the inputs of these names.
pub open spec fn attention_at(nodes: Seq<Node>, i: int) -> bool {
    ||| attention_with(nodes, i, ScaleSite::Scores)
    ||| attention_with(nodes, i, ScaleSite::Queries)
    ||| attention_with(nodes, i, ScaleSite::Keys)
}

/// Whether node `i` is the MLP, `relu(X W_up) W_dn`, over the inputs of these names.
pub open spec fn mlp_at(nodes: Seq<Node>, i: int) -> bool {
    0 <= i < nodes.len() && match nodes[i] {
        Node::MatMul(r, dn) => 0 <= r < i && dn < i && names_input(nodes, dn, "W_dn_fd"@)
            && match nodes[r] {
            Node::Relu(m) => 0 <= m < r && match nodes[m] {
                Node::MatMul(x, up) => x < m && up < m && names_input(nodes, x, "X_sd"@)
                    && names_input(nodes, up, "W_up_df"@),
                _ => false,
            },
            _ => false,
        },
        _ => false,
    }
}

/// Whether a plan is attention as one fused region.
pub open spec fn is_fused_attention(nodes: Seq<Node>, root: int) -> bool {
    0 <= root < nodes.len() && (nodes[root] matches Node::Fuse(i) && i < root && attention_at(
        nodes,
        i,
    ))
}

/// Whether a plan is the MLP as one fused region.
pub open spec fn is_fused_mlp(nodes: Seq<Node>, root: int) -> bool {
    0 <= root < nodes.len() && (nodes[root] matches Node::Fuse(i) && i < root && mlp_at(nodes, i))
}

fn reads(expr: &Program, i: Id, name: &str) -> (named: bool)
    ensures
        named == names_input(expr@, i as int, name@),
{
    if i >= expr.nodes.len() {
        return false;
    }
    assert(expr@[i as int] == expr.nodes@[i as int]@);
    match &expr.nodes[i] {
        TensorLang::Var(text) => same_text(text.as_str(), name),
        _ => false,
    }
}

fn scales(expr: &Program, i: Id) -> (scaled: Option<Id>)
    ensures
        match scaled {
            Some(m) => scaled_at(expr@, i as int) == Some(m as int),
            None => scaled_at(expr@, i as int) is None,
        },
{
    if i >= expr.nodes.len() {
        return None;
    }
    assert(expr@[i as int] == expr.nodes@[i as int]@);
    match &expr.nodes[i] {
        TensorLang::EMul(m, c) => if *m < i && *c < i && reads(expr, *c, "scale") {
            Some(*m)
        } else {
            None
        },
        _ => None,
    }
}

fn finds_keys(expr: &Program, i: Id) -> (found: bool)
    ensures
        found == keys_at(expr@, i as int),
{
    if i >= expr.nodes.len() {
        return false;
    }
    assert(expr@[i as int] == expr.nodes@[i as int]@);
    match &expr.nodes[i] {
        TensorLang::Transpose(k) => *k < i && reads(expr, *k, "K_sd"),
        _ => false,
    }
}

fn finds_scores(expr: &Program, i: Id) -> (found: bool)
    ensures
        found == (scores_at(expr@, i as int, ScaleSite::Scores) || scores_at(
            expr@,
            i as int,
            ScaleSite::Queries,
        ) || scores_at(expr@, i as int, ScaleSite::Keys)),
{
    assert(forall|k: int| 0 <= k < expr@.len() ==> #[trigger] expr@[k] == expr.nodes@[k]@);
    if i >= expr.nodes.len() {
        return false;
    }
    if let Some(m) = scales(expr, i) {
        return match &expr.nodes[m] {
            TensorLang::MatMul(q, t) => *q < m && *t < m && reads(expr, *q, "Q_sd") && finds_keys(
                expr,
                *t,
            ),
            _ => false,
        };
    }
    let (x, t) = match &expr.nodes[i] {
        TensorLang::MatMul(x, t) => (*x, *t),
        _ => {
            return false;
        },
    };
    if x >= i || t >= i {
        return false;
    }
    let queries = match scales(expr, x) {
        Some(q) => reads(expr, q, "Q_sd") && finds_keys(expr, t),
        None => false,
    };
    let keys = match scales(expr, t) {
        Some(k) => reads(expr, x, "Q_sd") && finds_keys(expr, k),
        None => false,
    };
    queries || keys
}

fn finds_attention(expr: &Program, i: Id) -> (found: bool)
    ensures
        found == attention_at(expr@, i as int),
{
    assert(forall|k: int| 0 <= k < expr@.len() ==> #[trigger] expr@[k] == expr.nodes@[k]@);
    if i >= expr.nodes.len() {
        return false;
    }
    let (p, v) = match &expr.nodes[i] {
        TensorLang::MatMul(p, v) => (*p, *v),
        _ => {
            return false;
        },
    };
    if p >= i || v >= i || !reads(expr, v, "V_sd") {
        return false;
    }
    match &expr.nodes[p] {
        TensorLang::Softmax(e) => *e < p && finds_scores(expr, *e),
        _ => false,
    }
}

fn finds_mlp(expr: &Program, i: Id) -> (found: bool)
    ensures
        found == mlp_at(expr@, i as int),
{
    assert(forall|k: int| 0 <= k < expr@.len() ==> #[trigger] expr@[k] == expr.nodes@[k]@);
    if i >= expr.nodes.len() {
        return false;
    }
    let (r, dn) = match &expr.nodes[i] {
        TensorLang::MatMul(r, dn) => (*r, *dn),
        _ => {
            return false;
        },
    };
    if r >= i || dn >= i || !reads(expr, dn, "W_dn_fd") {
        return false;
    }
    let m: Id = match &expr.nodes[r] {
        TensorLang::Relu(m) => *m,
        _ => {
            return false;
        },
    };
    if m >= r {
        return false;
    }
    match &expr.nodes[m] {
        TensorLang::MatMul(x, up) => *x < m && *up < m && reads(expr, *x, "X_sd") && reads(
            expr,
            *up,
            "W_up_df",
        ),
        _ => false,
    }
}

/// Whether a plan runs as the attention kernel: it is attention as one fused region, and the scale
/// is a number.
pub open spec fn runs_attention<T: Scalar>(
    nodes: Seq<Node>,
    root: int,
    env: Map<Seq<char>, TensorData<T>>,
) -> bool {
    is_fused_attention(nodes, root) && env["scale"@]@.shape == scalar_shape()
}

/// The value of a lowered plan. The attention kernel has an arithmetic of its own; every other plan
/// has the value that the reference interpreter gives it, whichever kernel computes it.
pub open spec fn run_value<T: Scalar>(
    nodes: Seq<Node>,
    root: int,
    env: Map<Seq<char>, TensorData<T>>,
) -> Option<Tensor<T>> {
    if runs_attention(nodes, root, env) {
        fused_attention_value(
            env["Q_sd"@]@,
            env["K_sd"@]@,
            env["V_sd"@]@,
            env["scale"@]@.data[0],
        )
    } else {
        evaluated(nodes, env, root)
    }
}

/// Lowers a plan and runs it. A plan that is the program of a fused kernel as one fused region, in
/// any of the forms that rewriting gives it, runs as that kernel, which reads its inputs by their
/// names; any other plan is evaluated node by node.
/// In exact arithmetic the value is that of the reference interpreter.
pub fn lower_and_run<T: Scalar>(expr: &Program, root: Id, env: &NameMap<TensorData<T>>) -> (value:
    TensorData<T>)
    requires
        env_well_formed(env@),
        evaluated(expr@, env@, root as int) is Some,
    ensures
        run_value(expr@, root as int, env@) == Some(value@),
        !runs_attention(expr@, root as int, env@) || exact::<T>() ==> evaluated(
            expr@,
            env@,
            root as int,
        ) == Some(value@),
        value@.well_formed(),
{
    assert(expr@[root as int] == expr.nodes@[root as int]@);
    if let TensorLang::Fuse(i) = &expr.nodes[root] {
        if *i < root && finds_attention(expr, *i) {
            let ghost site = lemma_fused_attention_inputs(expr@, root as int, env@);
            if let (Some(q), Some(k), Some(v), Some(scale)) = (
                env.get("Q_sd"),
                env.get("K_sd"),
                env.get("V_sd"),
                env.get("scale"),
            ) {
                if is_scalar(&scale.shape) {
                    proof {
                        lemma_numel_one(scale.shape@);
                        lemma_scale_site(q@, k@, v@, scale@, site);
                        lemma_attention_fits(q@, k@, v@, scale@);
                        if exact::<T>() {
                            lemma_exact_factors::<T>();
                            fused_attention_computes_attention(q@, k@, v@, scale@);
                        }
                    }
                    return fused_attention(q, k, v, &scale.data[0]);
                }
            }
        } else if *i < root && finds_mlp(expr, *i) {
            proof {
                lemma_fused_mlp_inputs(expr@, root as int, env@);
            }
            if let (Some(x), Some(up), Some(dn)) = (
                env.get("X_sd"),
                env.get("W_up_df"),
                env.get("W_dn_fd"),
            ) {
                proof {
                    fused_mlp_computes_the_mlp(x@, up@, dn@);
                }
                return fused_mlp(x, up, dn);
            }
        }
    }
    eval(expr, root, env)
}

/// Attention by the operators of the reference interpreter, with the scale at `site`.
spec fn attention_value_with<T: Scalar>(
    q: Tensor<T>,
    k: Tensor<T>,
    v: Tensor<T>,
    sc: Tensor<T>,
    site: ScaleSite,
) -> Option<Tensor<T>> {
    match scores_value(q, k, sc, site) {
        Some(scores) => match softmax_value(scores) {
            Some(attn) => matmul_value(attn, v),
            None => None,
        },
        None => None,
    }
}

/// The scores, with the scale at `site`.
spec fn scores_value<T: Scalar>(
    q: Tensor<T>,
    k: Tensor<T>,
    sc: Tensor<T>,
    site: ScaleSite,
) -> Option<Tensor<T>> {
    match transpose_value(k) {
        Some(kt) => match site {
            ScaleSite::Scores => match matmul_value(q, kt) {
                Some(scores) => emul_value(scores, sc),
                None => None,
            },
            ScaleSite::Queries => match emul_value(q, sc) {
                Some(scaled) => matmul_value(scaled, kt),
                None => None,
            },
            ScaleSite::Keys => match emul_value(kt, sc) {
                Some(scaled) => matmul_value(q, scaled),
                None => None,
            },
        },
        None => None,
    }
}

proof fn lemma_fused_attention_inputs<T: Scalar>(
    nodes: Seq<Node>,
    root: int,
    env: Map<Seq<char>, TensorData<T>>,
) -> (site: ScaleSite)
    requires
        is_fused_attention(nodes, root),
        evaluated(nodes, env, root) is Some,
    ensures
        env.dom().contains("Q_sd"@) && env.dom().contains("K_sd"@) && env.dom().contains("V_sd"@)
            && env.dom().contains("scale"@),
        evaluated(nodes, env, root) == attention_value_with(
            env["Q_sd"@]@,
            env["K_sd"@]@,
            env["V_sd"@]@,
            env["scale"@]@,
            site,
        ),
{
    let i = nodes[root]->Fuse_0;
    let site = if attention_with(nodes, i, ScaleSite::Scores) {
        ScaleSite::Scores
    } else if attention_with(nodes, i, ScaleSite::Queries) {
        ScaleSite::Queries
    } else {
        ScaleSite::Keys
    };
    let p = nodes[i]->MatMul_0;
    let e = nodes[p]->Softmax_0;
    lemma_scores(nodes, e, env, site);
    reveal_with_fuel(evaluated, 4);
    site
}

proof fn lemma_scores<T: Scalar>(
    nodes: Seq<Node>,
    e: int,
    env: Map<Seq<char>, TensorData<T>>,
    site: ScaleSite,
)
    requires
        scores_at(nodes, e, site),
        evaluated(nodes, env, e) is Some,
    ensures
        env.dom().contains("Q_sd"@) && env.dom().contains("K_sd"@) && env.dom().contains("scale"@),
        evaluated(nodes, env, e) == scores_value(
            env["Q_sd"@]@,
            env["K_sd"@]@,
            env["scale"@]@,
            site,
        ),
{
    reveal_with_fuel(evaluated, 4);
}

/// Wherever the scale stands, attention is over operands that fit; and where factors move, it has
/// the same value.
proof fn lemma_scale_site<T: Scalar>(
    q: Tensor<T>,
    k: Tensor<T>,
    v: Tensor<T>,
    sc: Tensor<T>,
    site: ScaleSite,
)
    requires
        q.well_formed(),
        k.well_formed(),
        v.well_formed(),
        sc.shape == scalar_shape(),
        attention_value_with(q, k, v, sc, site) is Some,
    ensures
        attention_value(q, k, v, sc) is Some,
        factors_move::<T>() ==> attention_value_with(q, k, v, sc, site) == attention_value(
            q,
            k,
            v,
            sc,
        ),
{
    lemma_numel_one(scalar_shape());
    let kt = transpose_value(k).unwrap();
    let s = sc.data[0];
    lemma_transpose_rows(k);
    assert(emul_value(q, sc) == Some(scaled(q, s)));
    assert(emul_value(kt, sc) == Some(scaled(kt, s)));
    let plain = matmul_value(q, kt).unwrap();
    assert(emul_value(plain, sc) == Some(scaled(plain, s)));
    if factors_move::<T>() {
        lemma_scale_distrib(q, kt, s);
    }
}

proof fn lemma_fused_mlp_inputs<T: Scalar>(
    nodes: Seq<Node>,
    root: int,
    env: Map<Seq<char>, TensorData<T>>,
)
    requires
        is_fused_mlp(nodes, root),
        evaluated(nodes, env, root) is Some,
    ensures
        env.dom().contains("X_sd"@) && env.dom().contains("W_up_df"@) && env.dom().contains(
            "W_dn_fd"@,
        ),
        evaluated(nodes, env, root) == mlp_value(
            env["X_sd"@]@,
            env["W_up_df"@]@,
            env["W_dn_fd"@]@,
        ),
{
    reveal_with_fuel(evaluated, 5);
}

proof fn lemma_attention_fits<T: Scalar>(
    q: Tensor<T>,
    k: Tensor<T>,
    v: Tensor<T>,
    scale: Tensor<T>,
)
    requires
        q.well_formed(),
        k.well_formed(),
        v.well_formed(),
        scale.shape == scalar_shape(),
        attention_value(q, k, v, scale) is Some,
    ensures
        fused_attention_value(q, k, v, scale.data[0]) is Some,
{
    assert(q.shape =~= seq![q.shape[0], q.shape[1]]);
    assert(k.shape =~= seq![k.shape[0], k.shape[1]]);
    assert(v.shape =~= seq![v.shape[0], v.shape[1]]);
    lemma_numel_matrix(q.shape[0], q.shape[1]);
    lemma_numel_matrix(k.shape[0], k.shape[1]);
    lemma_numel_matrix(v.shape[0], v.shape[1]);
}

} // verus!
