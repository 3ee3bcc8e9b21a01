//! What the reference interpreter computes, element by element: each law speaks of the value that
//! a program has at a node, and of the values of its operands.
use crate::algebra::{lemma_matmul_rows, lemma_transpose_rows};
use crate::ir::{lemma_numel_one, numel, scalar_shape, Node};
use crate::tensor::{
    dot_steps, env_well_formed, evaluated, exp_sum_steps, lemma_row_fits, lemma_stacked,
    matmul_value, max_steps, row_of, row_product, softmax_row, Scalar, Tensor, TensorData,
};
use vstd::prelude::*;

verus! {

// ---- The shape of things ----

/// The number of elements multiplies: a shape that is made of two has as many elements as the two
/// have together, and a vector has as many as its extent.
pub proof fn elements_multiply(a: Seq<usize>, b: Seq<usize>, n: usize)
    ensures
        numel(a + b) == numel(a) * numel(b),
        numel(seq![n]) == n,
        numel(Seq::<usize>::empty()) == 1,
    decreases b.len(),
{
    let (none, one) = (Seq::<usize>::empty(), seq![n]);
    assert(none.len() == 0 && numel(none) == 1);
    assert(one.len() == 1 && one.last() == n);
    assert(one.drop_last() =~= none);
    assert(numel(one) == numel(none) * n as nat);
    assert(1 * n == n) by (nonlinear_arith);
    if b.len() == 0 {
        assert(a + b =~= a);
        assert(numel(b) == 1);
        let x = numel(a);
        assert(x * 1 == x) by (nonlinear_arith);
    } else {
        elements_multiply(a, b.drop_last(), n);
        assert((a + b).drop_last() =~= a + b.drop_last());
        assert((a + b).last() == b.last());
        let (x, y, z) = (numel(a), numel(b.drop_last()), b.last() as nat);
        assert(numel(a + b) == numel((a + b).drop_last()) * z);
        assert(numel(b) == y * z);
        assert((x * y) * z == x * (y * z)) by (nonlinear_arith);
    }
}

/// Every value has as many elements as its shape says.
pub proof fn values_are_well_formed<T: Scalar>(
    nodes: Seq<Node>,
    env: Map<Seq<char>, TensorData<T>>,
    root: int,
)
    requires
        env_well_formed(env),
    ensures
        evaluated(nodes, env, root) matches Some(t) ==> numel(t.shape) == t.data.len(),
    decreases root,
{
    if evaluated(nodes, env, root) is Some {
        match nodes[root] {
            Node::Var(_) => {},
            Node::MatMul(a, b) => {
                values_are_well_formed(nodes, env, a);
                values_are_well_formed(nodes, env, b);
                lemma_matmul_rows(
                    evaluated(nodes, env, a).unwrap(),
                    evaluated(nodes, env, b).unwrap(),
                );
            },
            Node::EMul(a, b) => {
                values_are_well_formed(nodes, env, a);
                values_are_well_formed(nodes, env, b);
            },
            Node::Transpose(a) => {
                values_are_well_formed(nodes, env, a);
                lemma_transpose_rows(evaluated(nodes, env, a).unwrap());
            },
            Node::Softmax(a) => {
                values_are_well_formed(nodes, env, a);
                let x = evaluated(nodes, env, a).unwrap();
                let width = x.shape.last() as int;
                let rows = numel(x.shape.drop_last());
                let row = |i: int| softmax_row(row_of(x.data, width, i));
                assert forall|i: int| 0 <= i < rows implies (#[trigger] row(i)).len() == width by {
                    lemma_row_fits(i, rows as int, width);
                }
                lemma_stacked(row, width, rows);
            },
            Node::Relu(a) | Node::Fuse(a) => {
                values_are_well_formed(nodes, env, a);
            },
        }
    }
}

// ---- The operators ----

/// An input has the value that it is given, and none where it is given none.
pub proof fn inputs_have_their_values<T: Scalar>(
    nodes: Seq<Node>,
    env: Map<Seq<char>, TensorData<T>>,
    root: int,
    name: Seq<char>,
)
    requires
        0 <= root < nodes.len(),
        nodes[root] == Node::Var(name),
    ensures
        evaluated(nodes, env, root) is Some <==> env.dom().contains(name),
        evaluated(nodes, env, root) matches Some(t) ==> t.shape == env[name].shape@ && t.data
            == env[name].data@,
{
}

/// The terms that element `(i, j)` of a product adds up: those of row `i` of a matrix with `k`
/// columns by column `j` of one with `n` columns.
pub open spec fn row_by_column<T: Scalar>(
    x: Seq<T>,
    y: Seq<T>,
    k: int,
    n: int,
    i: int,
    j: int,
) -> Seq<T> {
    Seq::new(k as nat, |l: int| x[i * k + l].product(y[l * n + j]))
}

/// Terms added up in order, from zero.
pub open spec fn total<T: Scalar>(terms: Seq<T>) -> T {
    terms.fold_left(T::the_zero(), |s: T, t: T| s.sum(t))
}

/// The largest of some numbers.
pub open spec fn largest<T: Scalar>(terms: Seq<T>) -> T {
    terms.fold_left(T::the_lowest(), |s: T, t: T| s.larger(t))
}

proof fn lemma_dot_total<T: Scalar>(
    x: Seq<T>,
    y: Seq<T>,
    k: int,
    n: int,
    i: int,
    j: int,
    count: nat,
)
    requires
        count <= k,
        0 <= i * k,
        i * k + k <= x.len(),
    ensures
        dot_steps(row_of(x, k, i), y, n, j, count) == total(
            row_by_column(x, y, k, n, i, j).take(count as int),
        ),
    decreases count,
{
    let terms = row_by_column(x, y, k, n, i, j);
    if count > 0 {
        lemma_dot_total(x, y, k, n, i, j, (count - 1) as nat);
        assert(terms.take(count as int).drop_last() =~= terms.take(count - 1));
        assert(terms.take(count as int).last() == terms[count - 1]);
        assert(row_of(x, k, i)[count - 1] == x[i * k + (count - 1)]);
    }
}

proof fn lemma_product_element<T: Scalar>(x: Tensor<T>, y: Tensor<T>, i: int, j: int)
    requires
        x.well_formed(),
        y.well_formed(),
        matmul_value(x, y) is Some,
        0 <= i < x.shape[0],
        0 <= j < y.shape[1],
    ensures
        matmul_value(x, y).unwrap().data[i * y.shape[1] + j] == total(
            row_by_column(x.data, y.data, x.shape[1] as int, y.shape[1] as int, i, j),
        ),
{
    let z = matmul_value(x, y).unwrap();
    let (m, k, n) = (x.shape[0] as int, x.shape[1] as int, y.shape[1] as int);
    lemma_matmul_rows(x, y);
    lemma_row_fits(i, m, k);
    lemma_row_fits(i, m, n);
    let row = row_of(x.data, k, i);
    assert(row.len() == k);
    let terms = row_by_column(x.data, y.data, k, n, i, j);
    lemma_dot_total(x.data, y.data, k, n, i, j, k as nat);
    assert(terms.take(k) =~= terms);
    assert(row_of(z.data, n, i)[j] == z.data[i * n + j]);
    assert(row_of(z.data, n, i)[j] == row_product(row, y.data, n)[j]);
}

/// A matrix product is over matrices whose inner extents agree, and has a value exactly then. Its
/// element `(i, j)` adds up, in order, row `i` of the one by column `j` of the other.
pub proof fn products_add_rows_by_columns<T: Scalar>(
    nodes: Seq<Node>,
    env: Map<Seq<char>, TensorData<T>>,
    root: int,
    a: int,
    b: int,
    i: int,
    j: int,
)
    requires
        env_well_formed(env),
        0 <= root < nodes.len(),
        nodes[root] == Node::MatMul(a, b),
        0 <= a < root,
        0 <= b < root,
    ensures
        match (evaluated(nodes, env, a), evaluated(nodes, env, b)) {
            (Some(x), Some(y)) => match evaluated(nodes, env, root) {
                Some(z) => {
                    let (m, k, n) = (x.shape[0] as int, x.shape[1] as int, y.shape[1] as int);
                    &&& x.shape.len() == 2 && y.shape.len() == 2 && x.shape[1] == y.shape[0]
                    &&& z.shape == seq![x.shape[0], y.shape[1]]
                    &&& 0 <= i < m && 0 <= j < n ==> z.data[i * n + j] == total(
                        row_by_column(x.data, y.data, k, n, i, j),
                    )
                },
                None => !(x.shape.len() == 2 && y.shape.len() == 2 && x.shape[1] == y.shape[0]),
            },
            _ => evaluated(nodes, env, root) is None,
        },
{
    values_are_well_formed(nodes, env, a);
    values_are_well_formed(nodes, env, b);
    if evaluated(nodes, env, root) is Some {
        let (x, y) = (evaluated(nodes, env, a).unwrap(), evaluated(nodes, env, b).unwrap());
        if 0 <= i < x.shape[0] && 0 <= j < y.shape[1] {
            lemma_product_element(x, y, i, j);
        }
    }
}

/// A transpose is of a matrix, and has a value exactly then: element `(i, j)` becomes element
/// `(j, i)`.
pub proof fn transposes_swap_rows_and_columns<T: Scalar>(
    nodes: Seq<Node>,
    env: Map<Seq<char>, TensorData<T>>,
    root: int,
    a: int,
    i: int,
    j: int,
)
    requires
        env_well_formed(env),
        0 <= root < nodes.len(),
        nodes[root] == Node::Transpose(a),
        0 <= a < root,
    ensures
        match evaluated(nodes, env, a) {
            Some(x) => match evaluated(nodes, env, root) {
                Some(z) => {
                    let (m, n) = (x.shape[0] as int, x.shape[1] as int);
                    &&& x.shape.len() == 2
                    &&& z.shape == seq![x.shape[1], x.shape[0]]
                    &&& 0 <= i < m && 0 <= j < n ==> z.data[j * m + i] == x.data[i * n + j]
                },
                None => x.shape.len() != 2,
            },
            None => evaluated(nodes, env, root) is None,
        },
{
    values_are_well_formed(nodes, env, a);
    if evaluated(nodes, env, root) is Some {
        let (x, z) = (evaluated(nodes, env, a).unwrap(), evaluated(nodes, env, root).unwrap());
        let (m, n) = (x.shape[0] as int, x.shape[1] as int);
        lemma_transpose_rows(x);
        if 0 <= i < m && 0 <= j < n {
            lemma_row_fits(j, n, m);
            assert(row_of(z.data, m, j)[i] == z.data[j * m + i]);
        }
    }
}

/// An elementwise product of two tensors of one shape multiplies element by element.
pub proof fn elementwise_products_pair_the_elements<T: Scalar>(
    nodes: Seq<Node>,
    env: Map<Seq<char>, TensorData<T>>,
    root: int,
    a: int,
    b: int,
    i: int,
)
    requires
        env_well_formed(env),
        0 <= root < nodes.len(),
        nodes[root] == Node::EMul(a, b),
        0 <= a < root,
        0 <= b < root,
        evaluated(nodes, env, a) matches Some(x) && evaluated(nodes, env, b) matches Some(y)
            && x.shape == y.shape && numel(x.shape) != 1,
    ensures
        ({
            let x = evaluated(nodes, env, a).unwrap();
            let y = evaluated(nodes, env, b).unwrap();
            evaluated(nodes, env, root) matches Some(z) && z.shape == x.shape && z.data.len()
                == x.data.len() && (0 <= i < z.data.len() ==> z.data[i] == x.data[i].product(
                y.data[i],
            ))
        }),
{
    values_are_well_formed(nodes, env, a);
    values_are_well_formed(nodes, env, b);
    lemma_numel_one(scalar_shape());
}

/// An operand of one element scales every element of the other, whose shape stays as it is. Of two
/// operands of one element, a number `[1]` scales the other.
pub proof fn numbers_scale_either_side<T: Scalar>(
    nodes: Seq<Node>,
    env: Map<Seq<char>, TensorData<T>>,
    root: int,
    a: int,
    b: int,
    i: int,
)
    requires
        env_well_formed(env),
        0 <= root < nodes.len(),
        nodes[root] == Node::EMul(a, b),
        0 <= a < root,
        0 <= b < root,
        evaluated(nodes, env, a) is Some,
        evaluated(nodes, env, b) is Some,
    ensures
        ({
            let x = evaluated(nodes, env, a).unwrap();
            let y = evaluated(nodes, env, b).unwrap();
            let z = evaluated(nodes, env, root);
            &&& numel(y.shape) == 1 && (numel(x.shape) != 1 || y.shape == seq![1usize]) ==> z
                is Some && z.unwrap().shape == x.shape && z.unwrap().data.len() == x.data.len()
                && (0 <= i < x.data.len() ==> z.unwrap().data[i] == x.data[i].product(y.data[0]))
            &&& numel(x.shape) == 1 && y.shape != seq![1usize] ==> z is Some
                && z.unwrap().shape == y.shape && z.unwrap().data.len() == y.data.len() && (0 <= i
                < y.data.len() ==> z.unwrap().data[i] == y.data[i].product(x.data[0]))
        }),
{
    values_are_well_formed(nodes, env, a);
    values_are_well_formed(nodes, env, b);
    lemma_numel_one(seq![1usize]);
}

/// An elementwise product has a value exactly if its operands have, and one of them has one
/// element or the two have one shape. Its shape is then that of an operand that is not outsized by
/// the other.
pub proof fn elementwise_products_need_shapes_that_fit<T: Scalar>(
    nodes: Seq<Node>,
    env: Map<Seq<char>, TensorData<T>>,
    root: int,
    a: int,
    b: int,
)
    requires
        env_well_formed(env),
        0 <= root < nodes.len(),
        nodes[root] == Node::EMul(a, b),
        0 <= a < root,
        0 <= b < root,
    ensures
        match (evaluated(nodes, env, a), evaluated(nodes, env, b)) {
            (Some(x), Some(y)) => {
                &&& evaluated(nodes, env, root) is Some <==> numel(x.shape) == 1 || numel(y.shape)
                    == 1 || x.shape == y.shape
                &&& evaluated(nodes, env, root) matches Some(z) ==> {
                    &&& numel(z.shape) == numel(x.shape) * numel(y.shape) || x.shape == y.shape
                    &&& z.shape == x.shape || z.shape == y.shape
                }
            },
            _ => evaluated(nodes, env, root) is None,
        },
{
    if let (Some(x), Some(y)) = (evaluated(nodes, env, a), evaluated(nodes, env, b)) {
        let (p, q) = (numel(x.shape), numel(y.shape));
        lemma_numel_one(seq![1usize]);
        assert(p == 1 ==> p * q == q) by (nonlinear_arith);
        assert(q == 1 ==> p * q == p) by (nonlinear_arith);
    }
}

/// A relu keeps the shape, and each element becomes the larger of itself and zero.
pub proof fn relus_cut_at_zero<T: Scalar>(
    nodes: Seq<Node>,
    env: Map<Seq<char>, TensorData<T>>,
    root: int,
    a: int,
    i: int,
)
    requires
        0 <= root < nodes.len(),
        nodes[root] == Node::Relu(a),
        0 <= a < root,
    ensures
        match evaluated(nodes, env, a) {
            Some(x) => evaluated(nodes, env, root) matches Some(z) && z.shape == x.shape
                && z.data.len() == x.data.len() && (0 <= i < x.data.len() ==> z.data[i]
                == x.data[i].larger(T::the_zero())),
            None => evaluated(nodes, env, root) is None,
        },
{
}

proof fn lemma_largest<T: Scalar>(x: Seq<T>, count: nat)
    requires
        count <= x.len(),
    ensures
        max_steps(x, count) == largest(x.take(count as int)),
    decreases count,
{
    if count > 0 {
        lemma_largest(x, (count - 1) as nat);
        assert(x.take(count as int).drop_last() =~= x.take(count - 1));
        assert(x.take(count as int).last() == x[count - 1]);
    }
}

/// The exponentials of some numbers, taken over their largest.
pub open spec fn weights<T: Scalar>(x: Seq<T>) -> Seq<T> {
    x.map_values(|e: T| e.difference(largest(x)).exponential())
}

proof fn lemma_weights<T: Scalar>(x: Seq<T>, count: nat)
    requires
        count <= x.len(),
    ensures
        exp_sum_steps(x, largest(x), count) == total(weights(x).take(count as int)),
    decreases count,
{
    if count > 0 {
        lemma_weights(x, (count - 1) as nat);
        let w = weights(x);
        assert(w.take(count as int).drop_last() =~= w.take(count - 1));
        assert(w.take(count as int).last() == w[count - 1]);
    }
}

/// A softmax runs along the last axis, which must not be empty, and has a value exactly then. It
/// keeps the shape, and in each row an element becomes its share of the weights: its exponential
/// over the largest element of the row, as a part of the sum of those of the row.
pub proof fn softmaxes_give_shares<T: Scalar>(
    nodes: Seq<Node>,
    env: Map<Seq<char>, TensorData<T>>,
    root: int,
    a: int,
    i: int,
    j: int,
)
    requires
        env_well_formed(env),
        0 <= root < nodes.len(),
        nodes[root] == Node::Softmax(a),
        0 <= a < root,
    ensures
        match evaluated(nodes, env, a) {
            Some(x) => match evaluated(nodes, env, root) {
                Some(z) => {
                    let n = x.shape.last() as int;
                    let row = x.data.subrange(i * n, i * n + n);
                    &&& x.shape.len() > 0 && n > 0
                    &&& z.shape == x.shape
                    &&& 0 <= i && i * n < x.data.len() && 0 <= j < n ==> z.data[i * n + j]
                        == weights(row)[j].quotient(total(weights(row)))
                },
                None => x.shape.len() == 0 || x.shape.last() == 0,
            },
            None => evaluated(nodes, env, root) is None,
        },
{
    values_are_well_formed(nodes, env, a);
    if evaluated(nodes, env, root) is Some {
        let (x, z) = (evaluated(nodes, env, a).unwrap(), evaluated(nodes, env, root).unwrap());
        let width = x.shape.last() as int;
        let rows = numel(x.shape.drop_last());
        let each = |i: int| softmax_row(row_of(x.data, width, i));
        assert forall|i: int| 0 <= i < rows implies (#[trigger] each(i)).len() == width by {
            lemma_row_fits(i, rows as int, width);
        }
        lemma_stacked(each, width, rows);
        if 0 <= i && i * width < x.data.len() && 0 <= j < width {
            assert(i < rows) by (nonlinear_arith)
                requires
                    i * width < rows * width,
                    width > 0,
            ;
            lemma_row_fits(i, rows as int, width);
            let row = row_of(x.data, width, i);
            lemma_largest(row, row.len());
            assert(row.take(row.len() as int) =~= row);
            lemma_weights(row, row.len());
            assert(weights(row).take(row.len() as int) =~= weights(row));
            assert(row_of(z.data, width, i) == each(i));
            assert(row_of(z.data, width, i)[j] == z.data[i * width + j]);
        }
    }
}

/// A fused region has the value of what is fused.
pub proof fn fused_regions_pass_the_value_on<T: Scalar>(
    nodes: Seq<Node>,
    env: Map<Seq<char>, TensorData<T>>,
    root: int,
    a: int,
)
    requires
        0 <= root < nodes.len(),
        nodes[root] == Node::Fuse(a),
        0 <= a < root,
    ensures
        evaluated(nodes, env, root) == evaluated(nodes, env, a),
{
}

} // verus!
