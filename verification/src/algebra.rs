//! The algebra of matrices that the rewrite rules rest on, in exact arithmetic.
use crate::ir::lemma_numel_matrix;
use crate::tensor::{
    dot_steps, lemma_row_fits, lemma_stacked, lemma_stacked_same, matmul_value, row_of, row_product,
    stacked, transpose_value, Scalar, Tensor,
};
use vstd::prelude::*;

verus! {

// ---- Exact arithmetic ----

/// The laws of a commutative ring at three numbers.
pub open spec fn ring_at<T: Scalar>(a: T, b: T, c: T) -> bool {
    &&& a.sum(T::the_zero()) == a
    &&& a.product(T::the_zero()) == T::the_zero()
    &&& a.sum(b) == b.sum(a)
    &&& a.sum(b).sum(c) == a.sum(b.sum(c))
    &&& a.product(b) == b.product(a)
    &&& a.product(b).product(c) == a.product(b.product(c))
    &&& a.sum(b).product(c) == a.product(c).sum(b.product(c))
}

/// Whether sums and products of the scalars are exact, as those of the real numbers are.
pub open spec fn ring<T: Scalar>() -> bool {
    forall|a: T, b: T, c: T| #[trigger] ring_at(a, b, c)
}

/// `(a + b) + (c + d)` with `b` and `c` exchanged.
proof fn lemma_exchange<T: Scalar>(a: T, b: T, c: T, d: T)
    requires
        ring::<T>(),
    ensures
        a.sum(b).sum(c.sum(d)) == a.sum(c).sum(b.sum(d)),
{
    assert(ring_at(a, b, c.sum(d)));
    assert(ring_at(b, c, d));
    assert(ring_at(c, b, d));
    assert(ring_at(a, c, b.sum(d)));
}

// ---- Associativity ----

/// The first `count` steps of a row times a matrix with `n` columns.
spec fn partial_row<T: Scalar>(x: Seq<T>, b: Seq<T>, n: int, count: nat) -> Seq<T> {
    Seq::new(n as nat, |l: int| dot_steps(x, b, n, l, count))
}

proof fn lemma_zero_row<T: Scalar>(
    x: Seq<T>,
    b: Seq<T>,
    n: int,
    c: Seq<T>,
    p: int,
    j: int,
    count: nat,
)
    requires
        ring::<T>(),
        count <= n,
    ensures
        dot_steps(partial_row(x, b, n, 0), c, p, j, count) == T::the_zero(),
    decreases count,
{
    if count > 0 {
        lemma_zero_row(x, b, n, c, p, j, (count - 1) as nat);
        let e = c[(count - 1) * p + j];
        let z = T::the_zero();
        assert(ring_at(e, z, z));
        assert(ring_at(z, z, z));
        assert(partial_row(x, b, n, 0)[count - 1] == z);
    }
}

/// One more step of the row adds one more multiple of a row of the second factor.
proof fn lemma_longer_row<T: Scalar>(
    x: Seq<T>,
    b: Seq<T>,
    n: int,
    c: Seq<T>,
    p: int,
    j: int,
    t: nat,
    count: nat,
)
    requires
        ring::<T>(),
        t < x.len(),
        count <= n,
        b.len() == x.len() * n,
    ensures
        dot_steps(partial_row(x, b, n, t + 1), c, p, j, count) == dot_steps(
            partial_row(x, b, n, t),
            c,
            p,
            j,
            count,
        ).sum(x[t as int].product(dot_steps(row_of(b, n, t as int), c, p, j, count))),
    decreases count,
{
    let (now, next) = (partial_row(x, b, n, t), partial_row(x, b, n, t + 1));
    let row = row_of(b, n, t as int);
    let (z, f) = (T::the_zero(), x[t as int]);
    if count == 0 {
        assert(ring_at(f, z, z));
        assert(ring_at(z, z, z));
    } else {
        let k = (count - 1) as nat;
        lemma_longer_row(x, b, n, c, p, j, t, k);
        lemma_row_fits(t as int, x.len() as int, n);
        let e = c[k * p + j];
        let (d, g) = (now[k as int], row[k as int]);
        assert(next[k as int] == d.sum(f.product(b[t * n + k])));
        assert(g == b[t * n + k]);
        let (s, i) = (dot_steps(now, c, p, j, k), dot_steps(row, c, p, j, k));
        // (d + f g) e = d e + f (g e)
        assert(ring_at(d, f.product(g), e));
        assert(ring_at(f, g, e));
        lemma_exchange(s, f.product(i), d.product(e), f.product(g.product(e)));
        // f i + f (g e) = f (i + g e)
        assert(ring_at(i, g.product(e), f));
        assert(ring_at(f, i, z));
        assert(ring_at(f, g.product(e), z));
        assert(ring_at(i.sum(g.product(e)), f, z));
        assert(ring_at(f, i.sum(g.product(e)), z));
    }
}

/// A row times a matrix times a matrix is the row times the product of the matrices.
proof fn lemma_row_assoc<T: Scalar>(
    x: Seq<T>,
    b: Seq<T>,
    n: int,
    c: Seq<T>,
    p: int,
    bc: Seq<T>,
    j: int,
    count: nat,
)
    requires
        ring::<T>(),
        count <= x.len(),
        0 <= n,
        0 <= j < p,
        b.len() == x.len() * n,
        forall|t: int|
            0 <= t < x.len() ==> #[trigger] bc[t * p + j] == dot_steps(
                row_of(b, n, t),
                c,
                p,
                j,
                n as nat,
            ),
    ensures
        dot_steps(partial_row(x, b, n, count), c, p, j, n as nat) == dot_steps(x, bc, p, j, count),
    decreases count,
{
    if count == 0 {
        lemma_zero_row(x, b, n, c, p, j, n as nat);
    } else {
        let k = (count - 1) as nat;
        lemma_row_assoc(x, b, n, c, p, bc, j, k);
        lemma_longer_row(x, b, n, c, p, j, k, n as nat);
        assert(bc[k * p + j] == dot_steps(row_of(b, n, k as int), c, p, j, n as nat));
    }
}

/// A product of matrices is well formed, and its rows are the rows of the first factor times the
/// second.
pub proof fn lemma_matmul_rows<T: Scalar>(a: Tensor<T>, b: Tensor<T>)
    requires
        a.well_formed(),
        b.well_formed(),
        matmul_value(a, b) is Some,
    ensures
        ({
            let c = matmul_value(a, b).unwrap();
            let (m, k, n) = (a.shape[0] as int, a.shape[1] as int, b.shape[1] as int);
            &&& c.well_formed()
            &&& a.data.len() == m * k
            &&& b.data.len() == k * n
            &&& c.data.len() == m * n
            &&& forall|i: int|
                0 <= i < m ==> (#[trigger] row_of(a.data, k, i)).len() == k && row_of(c.data, n, i)
                    == row_product(row_of(a.data, k, i), b.data, n)
        }),
{
    let (m, k, n) = (a.shape[0] as int, a.shape[1] as int, b.shape[1] as int);
    let row = |i: int| row_product(row_of(a.data, k, i), b.data, n);
    assert(a.shape =~= seq![a.shape[0], a.shape[1]]);
    assert(b.shape =~= seq![b.shape[0], b.shape[1]]);
    lemma_numel_matrix(a.shape[0], a.shape[1]);
    lemma_numel_matrix(b.shape[0], b.shape[1]);
    lemma_numel_matrix(a.shape[0], b.shape[1]);
    lemma_stacked(row, n, m as nat);
    let c = matmul_value(a, b).unwrap();
    assert(c.data == stacked(row, m as nat));
    assert forall|i: int| 0 <= i < m implies (#[trigger] row_of(a.data, k, i)).len() == k
        && row_of(c.data, n, i) == row_product(row_of(a.data, k, i), b.data, n) by {
        lemma_row_fits(i, m, k);
        assert(row_of(stacked(row, m as nat), n, i) == row(i));
    }
}

/// `(a b) c = a (b c)`.
pub proof fn lemma_matmul_assoc<T: Scalar>(a: Tensor<T>, b: Tensor<T>, c: Tensor<T>)
    requires
        ring::<T>(),
        a.well_formed(),
        b.well_formed(),
        c.well_formed(),
        matmul_value(a, b) is Some,
        matmul_value(b, c) is Some,
    ensures
        matmul_value(matmul_value(a, b).unwrap(), c) == matmul_value(
            a,
            matmul_value(b, c).unwrap(),
        ),
{
    let (ab, bc) = (matmul_value(a, b).unwrap(), matmul_value(b, c).unwrap());
    let (m, k, n, p) = (
        a.shape[0] as int,
        a.shape[1] as int,
        b.shape[1] as int,
        c.shape[1] as int,
    );
    lemma_matmul_rows(a, b);
    lemma_matmul_rows(b, c);
    let left = |i: int| row_product(row_of(ab.data, n, i), c.data, p);
    let right = |i: int| row_product(row_of(a.data, k, i), bc.data, p);
    assert forall|i: int| 0 <= i < m implies #[trigger] left(i) == right(i) by {
        let x = row_of(a.data, k, i);
        let y = row_of(ab.data, n, i);
        assert(x.len() == k);
        assert(y =~= partial_row(x, b.data, n, x.len()));
        let (u, v) = (left(i), right(i));
        assert forall|j: int| 0 <= j < p implies #[trigger] u[j] == v[j] by {
            assert forall|t: int| 0 <= t < x.len() implies #[trigger] bc.data[t * p + j]
                == dot_steps(row_of(b.data, n, t), c.data, p, j, n as nat) by {
                lemma_row_fits(t, k, p);
                assert(row_of(b.data, n, t).len() == n);
                assert(row_of(bc.data, p, t)[j] == bc.data[t * p + j]);
            }
            lemma_row_assoc(x, b.data, n, c.data, p, bc.data, j, x.len());
        }
        assert(u =~= v);
    }
    lemma_stacked_same(left, right, m as nat);
}

// ---- Transposition ----

/// A transpose is well formed, and holds the element of row `i` and column `j` in row `j` and
/// column `i`.
pub proof fn lemma_transpose_rows<T: Scalar>(a: Tensor<T>)
    requires
        a.well_formed(),
        transpose_value(a) is Some,
    ensures
        ({
            let t = transpose_value(a).unwrap();
            let (m, n) = (a.shape[0] as int, a.shape[1] as int);
            &&& t.well_formed()
            &&& a.data.len() == m * n
            &&& t.data.len() == n * m
            &&& forall|j: int|
                0 <= j < n ==> #[trigger] row_of(t.data, m, j) == Seq::new(
                    m as nat,
                    |i: int| a.data[i * n + j],
                )
        }),
{
    let (m, n) = (a.shape[0] as int, a.shape[1] as int);
    let column = |j: int| Seq::new(m as nat, |i: int| a.data[i * n + j]);
    assert(a.shape =~= seq![a.shape[0], a.shape[1]]);
    lemma_numel_matrix(a.shape[0], a.shape[1]);
    lemma_numel_matrix(a.shape[1], a.shape[0]);
    lemma_stacked(column, m, n as nat);
    let t = transpose_value(a).unwrap();
    assert(t.data == stacked(column, n as nat));
    assert forall|j: int| 0 <= j < n implies #[trigger] row_of(t.data, m, j) == Seq::new(
        m as nat,
        |i: int| a.data[i * n + j],
    ) by {
        assert(row_of(stacked(column, n as nat), m, j) == column(j));
    }
}

/// The dot product of a row and a column, taken the other way round.
proof fn lemma_swapped_dot<T: Scalar>(
    x: Seq<T>,
    b: Seq<T>,
    n: int,
    j: int,
    y: Seq<T>,
    at: Seq<T>,
    m: int,
    i: int,
    count: nat,
)
    requires
        ring::<T>(),
        forall|t: int| 0 <= t < count ==> y[t] == #[trigger] b[t * n + j],
        forall|t: int| 0 <= t < count ==> x[t] == #[trigger] at[t * m + i],
    ensures
        dot_steps(x, b, n, j, count) == dot_steps(y, at, m, i, count),
    decreases count,
{
    if count > 0 {
        let k = count - 1;
        lemma_swapped_dot(x, b, n, j, y, at, m, i, k as nat);
        assert(y[k] == b[k * n + j] && x[k] == at[k * m + i]);
        assert(ring_at(x[k], y[k], y[k]));
    }
}

/// `(a b)^T = b^T a^T`.
pub proof fn lemma_transpose_matmul<T: Scalar>(a: Tensor<T>, b: Tensor<T>)
    requires
        ring::<T>(),
        a.well_formed(),
        b.well_formed(),
        matmul_value(a, b) is Some,
    ensures
        transpose_value(matmul_value(a, b).unwrap()) == matmul_value(
            transpose_value(b).unwrap(),
            transpose_value(a).unwrap(),
        ),
{
    let ab = matmul_value(a, b).unwrap();
    let (ta, tb) = (transpose_value(a).unwrap(), transpose_value(b).unwrap());
    let (m, k, n) = (a.shape[0] as int, a.shape[1] as int, b.shape[1] as int);
    lemma_matmul_rows(a, b);
    lemma_transpose_rows(a);
    lemma_transpose_rows(b);
    let left = |j: int| Seq::new(m as nat, |i: int| ab.data[i * n + j]);
    let right = |j: int| row_product(row_of(tb.data, k, j), ta.data, m);
    assert forall|j: int| 0 <= j < n implies #[trigger] left(j) == right(j) by {
        let y = row_of(tb.data, k, j);
        assert(y.len() == k);
        let (u, v) = (left(j), right(j));
        assert forall|i: int| 0 <= i < m implies #[trigger] u[i] == v[i] by {
            let x = row_of(a.data, k, i);
            lemma_row_fits(i, m, n);
            lemma_row_fits(i, m, k);
            assert(x.len() == k);
            assert(row_of(ab.data, n, i)[j] == ab.data[i * n + j]);
            assert forall|t: int| 0 <= t < k implies x[t] == #[trigger] ta.data[t * m + i] by {
                lemma_row_fits(t, k, m);
                assert(row_of(ta.data, m, t)[i] == ta.data[t * m + i]);
            }
            lemma_swapped_dot(x, b.data, n, j, y, ta.data, m, i, k as nat);
        }
        assert(u =~= v);
    }
    lemma_stacked_same(left, right, n as nat);
}

// ---- Scaling ----

/// Every element times `s`.
pub open spec fn scaled_data<T: Scalar>(data: Seq<T>, s: T) -> Seq<T> {
    data.map_values(|x: T| x.product(s))
}

/// A tensor times a number.
pub open spec fn scaled<T: Scalar>(a: Tensor<T>, s: T) -> Tensor<T> {
    Tensor { shape: a.shape, data: scaled_data(a.data, s) }
}

proof fn lemma_scaled_rows<T: Scalar>(row: spec_fn(int) -> Seq<T>, s: T, count: nat)
    ensures
        scaled_data(stacked(row, count), s) == stacked(|i: int| scaled_data(row(i), s), count),
    decreases count,
{
    let each = |i: int| scaled_data(row(i), s);
    if count > 0 {
        lemma_scaled_rows(row, s, (count - 1) as nat);
        assert(scaled_data(stacked(row, count), s) =~= stacked(each, count));
    } else {
        assert(scaled_data(stacked(row, count), s) =~= stacked(each, count));
    }
}

/// What a factor that moves through sums of products takes of the scalars, for three of them.
pub open spec fn factors_at<T: Scalar>(a: T, b: T, c: T) -> bool {
    &&& T::the_zero().product(a) == T::the_zero()
    &&& a.product(b) == b.product(a)
    &&& a.sum(b).product(c) == a.product(c).sum(b.product(c))
    &&& a.product(b).product(c) == a.product(c).product(b)
}

/// Whether factors move through sums of products, as with the real numbers.
pub open spec fn factors_move<T: Scalar>() -> bool {
    forall|a: T, b: T, c: T| #[trigger] factors_at(a, b, c)
}

/// Factors move in a ring.
pub proof fn lemma_ring_factors<T: Scalar>()
    requires
        ring::<T>(),
    ensures
        factors_move::<T>(),
{
    let z = T::the_zero();
    assert forall|a: T, b: T, c: T| #[trigger] factors_at(a, b, c) by {
        assert(ring_at(a, z, z) && ring_at(z, a, z));
        assert(ring_at(a, b, c));
        // (a b) c = a (b c) = a (c b) = (a c) b
        assert(ring_at(b, c, z));
        assert(ring_at(a, c, b));
    }
}

proof fn lemma_scaled_left<T: Scalar>(x: Seq<T>, b: Seq<T>, n: int, j: int, s: T, count: nat)
    requires
        factors_move::<T>(),
        count <= x.len(),
    ensures
        dot_steps(scaled_data(x, s), b, n, j, count) == dot_steps(x, b, n, j, count).product(s),
    decreases count,
{
    let z = T::the_zero();
    if count == 0 {
        assert(factors_at(s, z, z));
    } else {
        let k = count - 1;
        lemma_scaled_left(x, b, n, j, s, k as nat);
        let (u, v) = (x[k], b[k * n + j]);
        assert(factors_at(u, s, v));
        assert(factors_at(dot_steps(x, b, n, j, k as nat), u.product(v), s));
    }
}

proof fn lemma_scaled_right<T: Scalar>(x: Seq<T>, b: Seq<T>, n: int, j: int, s: T, count: nat)
    requires
        factors_move::<T>(),
        0 <= j < n,
        count * n <= b.len(),
    ensures
        dot_steps(x, scaled_data(b, s), n, j, count) == dot_steps(x, b, n, j, count).product(s),
    decreases count,
{
    let z = T::the_zero();
    if count == 0 {
        assert(factors_at(s, z, z));
    } else {
        let k = count - 1;
        lemma_row_fits(k, count as int, n);
        lemma_scaled_right(x, b, n, j, s, k as nat);
        let (u, v) = (x[k], b[k * n + j]);
        assert(scaled_data(b, s)[k * n + j] == v.product(s));
        // u (v s) = (v s) u = (v u) s = (u v) s
        assert(factors_at(u, v.product(s), z));
        assert(factors_at(v, s, u));
        assert(factors_at(v, u, s));
        assert(factors_at(dot_steps(x, b, n, j, k as nat), u.product(v), s));
    }
}

/// `(a s) b = (a b) s` and `a (b s) = (a b) s`.
pub proof fn lemma_scale_distrib<T: Scalar>(a: Tensor<T>, b: Tensor<T>, s: T)
    requires
        factors_move::<T>(),
        a.well_formed(),
        b.well_formed(),
        matmul_value(a, b) is Some,
    ensures
        matmul_value(scaled(a, s), b) == Some(scaled(matmul_value(a, b).unwrap(), s)),
        matmul_value(a, scaled(b, s)) == Some(scaled(matmul_value(a, b).unwrap(), s)),
{
    let (m, k, n) = (a.shape[0] as int, a.shape[1] as int, b.shape[1] as int);
    lemma_matmul_rows(a, b);
    let row = |i: int| row_product(row_of(a.data, k, i), b.data, n);
    let each = |i: int| scaled_data(row(i), s);
    let first = |i: int| row_product(row_of(scaled(a, s).data, k, i), b.data, n);
    let second = |i: int| row_product(row_of(a.data, k, i), scaled(b, s).data, n);
    lemma_scaled_rows(row, s, m as nat);
    assert forall|i: int| 0 <= i < m implies #[trigger] first(i) == each(i) by {
        let x = row_of(a.data, k, i);
        lemma_row_fits(i, m, k);
        assert(row_of(scaled(a, s).data, k, i) =~= scaled_data(x, s));
        let (u, v) = (first(i), each(i));
        assert forall|j: int| 0 <= j < n implies #[trigger] u[j] == v[j] by {
            lemma_scaled_left(x, b.data, n, j, s, x.len());
        }
        assert(u =~= v);
    }
    assert forall|i: int| 0 <= i < m implies #[trigger] second(i) == each(i) by {
        let x = row_of(a.data, k, i);
        assert(x.len() == k);
        let (u, v) = (second(i), each(i));
        assert forall|j: int| 0 <= j < n implies #[trigger] u[j] == v[j] by {
            lemma_scaled_right(x, b.data, n, j, s, x.len());
        }
        assert(u =~= v);
    }
    lemma_stacked_same(first, each, m as nat);
    lemma_stacked_same(second, each, m as nat);
}

} // verus!
