//! Tensors, and the reference interpreter, over any kind of scalar.
//!
//! The contracts fix the arithmetic completely: which operations are done on which elements, and
//! in which order.
use crate::ir::{
    has_one_element, lemma_numel_matrix, numel, right_counts, takes_right, Id, Node, Program,
    TensorLang,
};
use crate::names::NameMap;
use vstd::prelude::*;

verus! {

// ---- Scalars ----

/// The arithmetic that the kernels are written in.
pub trait Scalar: Sized {
    spec fn the_zero() -> Self;

    spec fn the_one() -> Self;

    /// What is less than every number.
    spec fn the_lowest() -> Self;

    spec fn sum(self, other: Self) -> Self;

    spec fn difference(self, other: Self) -> Self;

    spec fn product(self, other: Self) -> Self;

    spec fn quotient(self, other: Self) -> Self;

    spec fn larger(self, other: Self) -> Self;

    spec fn exponential(self) -> Self;

    fn zero() -> (r: Self)
        ensures
            r == Self::the_zero(),
    ;

    fn one() -> (r: Self)
        ensures
            r == Self::the_one(),
    ;

    fn lowest() -> (r: Self)
        ensures
            r == Self::the_lowest(),
    ;

    fn copy(&self) -> (r: Self)
        ensures
            r == *self,
    ;

    fn plus(&self, other: &Self) -> (r: Self)
        ensures
            r == self.sum(*other),
    ;

    fn minus(&self, other: &Self) -> (r: Self)
        ensures
            r == self.difference(*other),
    ;

    fn times(&self, other: &Self) -> (r: Self)
        ensures
            r == self.product(*other),
    ;

    fn over(&self, other: &Self) -> (r: Self)
        ensures
            r == self.quotient(*other),
    ;

    fn max(&self, other: &Self) -> (r: Self)
        ensures
            r == self.larger(*other),
    ;

    fn exp(&self) -> (r: Self)
        ensures
            r == self.exponential(),
    ;
}

/// A scalar that is the arithmetic itself: the term that computes it. Two kernels that give the
/// same terms do the same operations in the same order.
#[derive(Debug, PartialEq, Eq)]
pub enum Term {
    Zero,
    One,
    Lowest,
    Input(u64),
    Sum(Box<Term>, Box<Term>),
    Difference(Box<Term>, Box<Term>),
    Product(Box<Term>, Box<Term>),
    Quotient(Box<Term>, Box<Term>),
    Larger(Box<Term>, Box<Term>),
    Exponential(Box<Term>),
}

impl Scalar for Term {
    open spec fn the_zero() -> Self {
        Term::Zero
    }

    open spec fn the_one() -> Self {
        Term::One
    }

    open spec fn the_lowest() -> Self {
        Term::Lowest
    }

    open spec fn sum(self, other: Self) -> Self {
        Term::Sum(Box::new(self), Box::new(other))
    }

    open spec fn difference(self, other: Self) -> Self {
        Term::Difference(Box::new(self), Box::new(other))
    }

    open spec fn product(self, other: Self) -> Self {
        Term::Product(Box::new(self), Box::new(other))
    }

    open spec fn quotient(self, other: Self) -> Self {
        Term::Quotient(Box::new(self), Box::new(other))
    }

    open spec fn larger(self, other: Self) -> Self {
        Term::Larger(Box::new(self), Box::new(other))
    }

    open spec fn exponential(self) -> Self {
        Term::Exponential(Box::new(self))
    }

    fn zero() -> (r: Self) {
        Term::Zero
    }

    fn one() -> (r: Self) {
        Term::One
    }

    fn lowest() -> (r: Self) {
        Term::Lowest
    }

    fn copy(&self) -> (r: Self)
        decreases self,
    {
        match self {
            Term::Zero => Term::Zero,
            Term::One => Term::One,
            Term::Lowest => Term::Lowest,
            Term::Input(i) => Term::Input(*i),
            Term::Sum(a, b) => Term::Sum(Box::new(a.copy()), Box::new(b.copy())),
            Term::Difference(a, b) => Term::Difference(Box::new(a.copy()), Box::new(b.copy())),
            Term::Product(a, b) => Term::Product(Box::new(a.copy()), Box::new(b.copy())),
            Term::Quotient(a, b) => Term::Quotient(Box::new(a.copy()), Box::new(b.copy())),
            Term::Larger(a, b) => Term::Larger(Box::new(a.copy()), Box::new(b.copy())),
            Term::Exponential(a) => Term::Exponential(Box::new(a.copy())),
        }
    }

    fn plus(&self, other: &Self) -> (r: Self) {
        Term::Sum(Box::new(self.copy()), Box::new(other.copy()))
    }

    fn minus(&self, other: &Self) -> (r: Self) {
        Term::Difference(Box::new(self.copy()), Box::new(other.copy()))
    }

    fn times(&self, other: &Self) -> (r: Self) {
        Term::Product(Box::new(self.copy()), Box::new(other.copy()))
    }

    fn over(&self, other: &Self) -> (r: Self) {
        Term::Quotient(Box::new(self.copy()), Box::new(other.copy()))
    }

    fn max(&self, other: &Self) -> (r: Self) {
        Term::Larger(Box::new(self.copy()), Box::new(other.copy()))
    }

    fn exp(&self) -> (r: Self) {
        Term::Exponential(Box::new(self.copy()))
    }
}

// ---- Tensors ----

/// A dense tensor in row-major order.
#[derive(Debug)]
pub struct TensorData<T> {
    pub shape: Vec<usize>,
    pub data: Vec<T>,
}

/// What a `TensorData` stands for.
#[verifier::ext_equal]
pub struct Tensor<T> {
    pub shape: Seq<usize>,
    pub data: Seq<T>,
}

impl<T> View for TensorData<T> {
    type V = Tensor<T>;

    open spec fn view(&self) -> Tensor<T> {
        Tensor { shape: self.shape@, data: self.data@ }
    }
}

impl<T> Tensor<T> {
    /// Whether there are as many elements as the shape says.
    pub open spec fn well_formed(self) -> bool {
        numel(self.shape) == self.data.len()
    }
}

fn copy_data<T: Scalar>(data: &Vec<T>) -> (copy: Vec<T>)
    ensures
        copy@ == data@,
{
    let mut copy: Vec<T> = Vec::new();
    let mut i: usize = 0;
    while i < data.len()
        invariant
            i <= data@.len(),
            copy@ == data@.take(i as int),
        decreases data@.len() - i,
    {
        assert(data@.take(i as int + 1) =~= data@.take(i as int).push(data@[i as int]));
        copy.push(data[i].copy());
        i = i + 1;
    }
    assert(data@.take(data@.len() as int) =~= data@);
    copy
}

impl<T: Scalar> TensorData<T> {
    /// The tensor with this shape and these elements.
    pub fn new(shape: Vec<usize>, data: Vec<T>) -> (tensor: Self)
        requires
            numel(shape@) == data@.len(),
        ensures
            tensor@ == (Tensor { shape: shape@, data: data@ }),
            tensor@.well_formed(),
    {
        TensorData { shape, data }
    }

    /// The tensor of one element.
    pub fn scalar(v: T) -> (tensor: Self)
        ensures
            tensor@ == (Tensor { shape: seq![1usize], data: seq![v] }),
            tensor@.well_formed(),
    {
        let shape: Vec<usize> = vec![1];
        let mut data: Vec<T> = Vec::new();
        data.push(v);
        assert(shape@ =~= seq![1usize]);
        assert(data@ =~= seq![v]);
        proof {
            crate::ir::lemma_numel_one(shape@);
        }
        TensorData { shape, data }
    }

    fn copy(&self) -> (tensor: Self)
        ensures
            tensor@ == self@,
    {
        TensorData { shape: self.shape.clone(), data: copy_data(&self.data) }
    }
}

// ---- Rows ----

/// Rows laid out one after the other.
pub open spec fn stacked<T>(row: spec_fn(int) -> Seq<T>, count: nat) -> Seq<T>
    decreases count,
{
    if count == 0 {
        seq![]
    } else {
        stacked(row, (count - 1) as nat) + row(count - 1)
    }
}

/// Row `i` of a matrix with `width` columns.
pub open spec fn row_of<T>(data: Seq<T>, width: int, i: int) -> Seq<T> {
    data.subrange(i * width, i * width + width)
}

pub proof fn lemma_stacked<T>(row: spec_fn(int) -> Seq<T>, width: int, count: nat)
    requires
        0 <= width,
        forall|i: int| 0 <= i < count ==> (#[trigger] row(i)).len() == width,
    ensures
        stacked(row, count).len() == count * width,
        forall|i: int| 0 <= i < count ==> #[trigger] row_of(stacked(row, count), width, i) == row(i),
    decreases count,
{
    if count > 0 {
        let k = (count - 1) as nat;
        lemma_stacked(row, width, k);
        let before = stacked(row, k);
        let all = stacked(row, count);
        assert(row(count - 1).len() == width);
        assert(k * width + width == count * width) by (nonlinear_arith)
            requires
                k == count - 1,
        ;
        assert forall|i: int| 0 <= i < count implies #[trigger] row_of(all, width, i) == row(i) by {
            if i < k {
                assert(row_of(before, width, i) == row(i));
                assert(i * width + width <= k * width && 0 <= i * width) by (nonlinear_arith)
                    requires
                        0 <= i < k,
                        0 <= width,
                ;
                assert(row_of(all, width, i) =~= row_of(before, width, i));
            } else {
                assert(i == k);
                assert(row_of(all, width, i) =~= row(i));
            }
        }
    } else {
        assert(0 * width == 0) by (nonlinear_arith);
    }
}

pub proof fn lemma_stacked_same<T>(f: spec_fn(int) -> Seq<T>, g: spec_fn(int) -> Seq<T>, count: nat)
    requires
        forall|i: int| 0 <= i < count ==> #[trigger] f(i) == g(i),
    ensures
        stacked(f, count) == stacked(g, count),
    decreases count,
{
    if count > 0 {
        lemma_stacked_same(f, g, (count - 1) as nat);
        assert(f(count - 1) == g(count - 1));
    }
}

/// `i * width + width` stays within `count * width`.
pub proof fn lemma_row_fits(i: int, count: int, width: int)
    requires
        0 <= i < count,
        0 <= width,
    ensures
        0 <= i * width,
        i * width + width <= count * width,
        (i + 1) * width == i * width + width,
{
    assert(0 <= i * width && i * width + width <= count * width && (i + 1) * width == i * width
        + width) by (nonlinear_arith)
        requires
            0 <= i < count,
            0 <= width,
    ;
}

// ---- Matrix products ----

/// The first `count` steps of element `j` of a row times a matrix with `n` columns: from zero, in
/// order, one product is added after the other.
pub open spec fn dot_steps<T: Scalar>(x: Seq<T>, b: Seq<T>, n: int, j: int, count: nat) -> T
    decreases count,
{
    if count == 0 {
        T::the_zero()
    } else {
        dot_steps(x, b, n, j, (count - 1) as nat).sum(x[count - 1].product(b[(count - 1) * n + j]))
    }
}

/// A row times a matrix with `n` columns.
pub open spec fn row_product<T: Scalar>(x: Seq<T>, b: Seq<T>, n: int) -> Seq<T> {
    Seq::new(n as nat, |j: int| dot_steps(x, b, n, j, x.len()))
}

pub fn zeros<T: Scalar>(n: usize) -> (v: Vec<T>)
    ensures
        v@.len() == n,
        forall|i: int| 0 <= i < n ==> #[trigger] v@[i] == T::the_zero(),
{
    let mut v: Vec<T> = Vec::new();
    let mut i: usize = 0;
    while i < n
        invariant
            i <= n,
            v@.len() == i,
            forall|k: int| 0 <= k < i ==> #[trigger] v@[k] == T::the_zero(),
        decreases n - i,
    {
        v.push(T::zero());
        i = i + 1;
    }
    v
}

/// The row of `k` elements of `a` from `start` on, times the matrix `b` with `n` columns.
pub fn times_matrix<T: Scalar>(a: &Vec<T>, start: usize, k: usize, b: &Vec<T>, n: usize) -> (y: Vec<T>)
    requires
        start + k <= a@.len(),
        k * n <= b@.len(),
    ensures
        y@ == row_product(a@.subrange(start as int, start + k), b@, n as int),
{
    let ghost x = a@.subrange(start as int, start + k);
    let (a_len, b_len): (usize, usize) = (a.len(), b.len());
    let mut y: Vec<T> = zeros(n);
    let mut l: usize = 0;
    let mut at: usize = 0;
    while l < k
        invariant
            l <= k,
            a_len == a@.len(),
            b_len == b@.len(),
            start + k <= a@.len(),
            k * n <= b@.len(),
            x == a@.subrange(start as int, start + k),
            at == l * n,
            y@.len() == n,
            forall|j: int|
                0 <= j < n ==> #[trigger] y@[j] == dot_steps(x, b@, n as int, j, l as nat),
        decreases k - l,
    {
        proof {
            lemma_row_fits(l as int, k as int, n as int);
        }
        let x_l = &a[start + l];
        assert(*x_l == x[l as int]);
        let mut j: usize = 0;
        while j < n
            invariant
                j <= n,
                l < k,
                b_len == b@.len(),
                k * n <= b@.len(),
                at == l * n,
                at + n <= k * n,
                *x_l == x[l as int],
                x.len() == k,
                y@.len() == n,
                forall|c: int|
                    0 <= c < j ==> #[trigger] y@[c] == dot_steps(x, b@, n as int, c, l as nat + 1),
                forall|c: int|
                    j <= c < n ==> #[trigger] y@[c] == dot_steps(x, b@, n as int, c, l as nat),
            decreases n - j,
        {
            let next = y[j].plus(&x_l.times(&b[at + j]));
            assert(next == dot_steps(x, b@, n as int, j as int, l as nat + 1));
            y.set(j, next);
            j = j + 1;
        }
        at = at + n;
        l = l + 1;
    }
    assert(y@ =~= row_product(x, b@, n as int));
    y
}

/// The product of two matrices.
pub open spec fn matmul_value<T: Scalar>(a: Tensor<T>, b: Tensor<T>) -> Option<Tensor<T>> {
    if a.shape.len() == 2 && b.shape.len() == 2 && a.shape[1] == b.shape[0] {
        let (m, k, n) = (a.shape[0] as int, a.shape[1] as int, b.shape[1] as int);
        Some(
            Tensor {
                shape: seq![a.shape[0], b.shape[1]],
                data: stacked(
                    |i: int| row_product(row_of(a.data, k, i), b.data, n),
                    m as nat,
                ),
            },
        )
    } else {
        None
    }
}

fn matmul_2d<T: Scalar>(a: &TensorData<T>, b: &TensorData<T>) -> (c: TensorData<T>)
    requires
        a@.well_formed(),
        b@.well_formed(),
        matmul_value(a@, b@) is Some,
    ensures
        matmul_value(a@, b@) == Some(c@),
        c@.well_formed(),
{
    let (m, k, n): (usize, usize, usize) = (a.shape[0], a.shape[1], b.shape[1]);
    let ghost row = |i: int| row_product(row_of(a@.data, k as int, i), b@.data, n as int);
    proof {
        assert(a@.shape =~= seq![m, k]);
        assert(b@.shape =~= seq![k, n]);
        lemma_numel_matrix(m, k);
        lemma_numel_matrix(k, n);
        lemma_numel_matrix(m, n);
    }
    let a_len: usize = a.data.len();
    let mut data: Vec<T> = Vec::new();
    let mut start: usize = 0;
    let mut i: usize = 0;
    while i < m
        invariant
            i <= m,
            a_len == a.data@.len(),
            a.data@.len() == m * k,
            b.data@.len() == k * n,
            start == i * k,
            row == (|i: int| row_product(row_of(a@.data, k as int, i), b@.data, n as int)),
            data@ == stacked(row, i as nat),
        decreases m - i,
    {
        proof {
            lemma_row_fits(i as int, m as int, k as int);
        }
        let mut y = times_matrix(&a.data, start, k, &b.data, n);
        assert(y@ == row(i as int));
        data.append(&mut y);
        start = start + k;
        i = i + 1;
    }
    proof {
        lemma_stacked(row, n as int, m as nat);
    }
    let shape: Vec<usize> = vec![m, n];
    assert(shape@ =~= seq![m, n]);
    TensorData { shape, data }
}

/// The transpose of a matrix.
pub open spec fn transpose_value<T>(a: Tensor<T>) -> Option<Tensor<T>> {
    if a.shape.len() == 2 {
        let (m, n) = (a.shape[0] as int, a.shape[1] as int);
        Some(
            Tensor {
                shape: seq![a.shape[1], a.shape[0]],
                data: stacked(
                    |j: int| Seq::new(m as nat, |i: int| a.data[i * n + j]),
                    n as nat,
                ),
            },
        )
    } else {
        None
    }
}

fn column<T: Scalar>(data: &Vec<T>, m: usize, n: usize, j: usize) -> (column: Vec<T>)
    requires
        data@.len() == m * n,
        j < n,
    ensures
        column@ == Seq::new(m as nat, |i: int| data@[i * n + j]),
{
    let len: usize = data.len();
    let mut column: Vec<T> = Vec::new();
    let mut at: usize = 0;
    let mut i: usize = 0;
    while i < m
        invariant
            i <= m,
            j < n,
            len == data@.len(),
            data@.len() == m * n,
            at == i * n,
            column@ == Seq::new(i as nat, |r: int| data@[r * n + j]),
        decreases m - i,
    {
        proof {
            lemma_row_fits(i as int, m as int, n as int);
        }
        column.push(data[at + j].copy());
        assert(column@ =~= Seq::new(i as nat + 1, |r: int| data@[r * n + j]));
        at = at + n;
        i = i + 1;
    }
    column
}

fn transpose_2d<T: Scalar>(a: &TensorData<T>) -> (t: TensorData<T>)
    requires
        a@.well_formed(),
        transpose_value(a@) is Some,
    ensures
        transpose_value(a@) == Some(t@),
        t@.well_formed(),
{
    let (m, n): (usize, usize) = (a.shape[0], a.shape[1]);
    let ghost row = |j: int| Seq::new(m as nat, |i: int| a@.data[i * n + j]);
    proof {
        assert(a@.shape =~= seq![m, n]);
        lemma_numel_matrix(m, n);
        lemma_numel_matrix(n, m);
    }
    let mut data: Vec<T> = Vec::new();
    let mut j: usize = 0;
    while j < n
        invariant
            j <= n,
            a.data@.len() == m * n,
            row == (|j: int| Seq::new(m as nat, |i: int| a@.data[i * n + j])),
            data@ == stacked(row, j as nat),
        decreases n - j,
    {
        let mut c = column(&a.data, m, n, j);
        assert(c@ == row(j as int));
        data.append(&mut c);
        j = j + 1;
    }
    proof {
        lemma_stacked(row, m as int, n as nat);
    }
    let shape: Vec<usize> = vec![n, m];
    assert(shape@ =~= seq![n, m]);
    TensorData { shape, data }
}

// ---- Elementwise operators ----

/// The elementwise product: a tensor of one element scales the other one, and otherwise the shapes
/// must agree.
pub open spec fn emul_value<T: Scalar>(a: Tensor<T>, b: Tensor<T>) -> Option<Tensor<T>> {
    if right_counts(a.shape, b.shape) {
        Some(Tensor { shape: b.shape, data: b.data.map_values(|x: T| x.product(a.data[0])) })
    } else if numel(b.shape) == 1 {
        Some(Tensor { shape: a.shape, data: a.data.map_values(|x: T| x.product(b.data[0])) })
    } else if a.shape == b.shape {
        Some(
            Tensor {
                shape: a.shape,
                data: Seq::new(a.data.len(), |i: int| a.data[i].product(b.data[i])),
            },
        )
    } else {
        None
    }
}

fn scaled<T: Scalar>(data: &Vec<T>, s: &T) -> (out: Vec<T>)
    ensures
        out@ == data@.map_values(|x: T| x.product(*s)),
{
    let mut out: Vec<T> = Vec::new();
    let mut i: usize = 0;
    while i < data.len()
        invariant
            i <= data@.len(),
            out@.len() == i,
            forall|k: int| 0 <= k < i ==> #[trigger] out@[k] == data@[k].product(*s),
        decreases data@.len() - i,
    {
        out.push(data[i].times(s));
        i = i + 1;
    }
    assert(out@ =~= data@.map_values(|x: T| x.product(*s)));
    out
}

fn emul_broadcast<T: Scalar>(a: &TensorData<T>, b: &TensorData<T>) -> (c: TensorData<T>)
    requires
        a@.well_formed(),
        b@.well_formed(),
        emul_value(a@, b@) is Some,
    ensures
        emul_value(a@, b@) == Some(c@),
        c@.well_formed(),
{
    if takes_right(&a.shape, &b.shape) {
        TensorData { shape: b.shape.clone(), data: scaled(&b.data, &a.data[0]) }
    } else if has_one_element(&b.shape) {
        TensorData { shape: a.shape.clone(), data: scaled(&a.data, &b.data[0]) }
    } else {
        let mut data: Vec<T> = Vec::new();
        let mut i: usize = 0;
        while i < a.data.len()
            invariant
                i <= a.data@.len(),
                a.data@.len() == b.data@.len(),
                data@.len() == i,
                forall|k: int|
                    0 <= k < i ==> #[trigger] data@[k] == a.data@[k].product(b.data@[k]),
            decreases a.data@.len() - i,
        {
            data.push(a.data[i].times(&b.data[i]));
            i = i + 1;
        }
        assert(data@ =~= Seq::new(a@.data.len(), |i: int| a@.data[i].product(b@.data[i])));
        TensorData { shape: a.shape.clone(), data }
    }
}

/// The larger of each element and zero.
pub open spec fn rectified<T: Scalar>(data: Seq<T>) -> Seq<T> {
    data.map_values(|x: T| x.larger(T::the_zero()))
}

pub fn rectify<T: Scalar>(data: &Vec<T>) -> (out: Vec<T>)
    ensures
        out@ == rectified(data@),
{
    let mut out: Vec<T> = Vec::new();
    let mut i: usize = 0;
    while i < data.len()
        invariant
            i <= data@.len(),
            out@.len() == i,
            forall|k: int| 0 <= k < i ==> #[trigger] out@[k] == data@[k].larger(T::the_zero()),
        decreases data@.len() - i,
    {
        out.push(data[i].max(&T::zero()));
        i = i + 1;
    }
    assert(out@ =~= rectified(data@));
    out
}

fn relu_elementwise<T: Scalar>(a: &TensorData<T>) -> (r: TensorData<T>)
    requires
        a@.well_formed(),
    ensures
        r@ == (Tensor { shape: a@.shape, data: rectified(a@.data) }),
        r@.well_formed(),
{
    TensorData { shape: a.shape.clone(), data: rectify(&a.data) }
}

// ---- Softmax ----

/// The largest of the first `count` elements.
pub open spec fn max_steps<T: Scalar>(x: Seq<T>, count: nat) -> T
    decreases count,
{
    if count == 0 {
        T::the_lowest()
    } else {
        max_steps(x, (count - 1) as nat).larger(x[count - 1])
    }
}

/// The sum of the first `count` exponentials over the maximum `m`.
pub open spec fn exp_sum_steps<T: Scalar>(x: Seq<T>, m: T, count: nat) -> T
    decreases count,
{
    if count == 0 {
        T::the_zero()
    } else {
        exp_sum_steps(x, m, (count - 1) as nat).sum(x[count - 1].difference(m).exponential())
    }
}

/// The numerically stable softmax of a row.
pub open spec fn softmax_row<T: Scalar>(x: Seq<T>) -> Seq<T> {
    let m = max_steps(x, x.len());
    let total = exp_sum_steps(x, m, x.len());
    x.map_values(|v: T| v.difference(m).exponential().quotient(total))
}

/// The softmax along the last axis.
pub open spec fn softmax_value<T: Scalar>(a: Tensor<T>) -> Option<Tensor<T>> {
    if a.shape.len() > 0 && a.shape.last() > 0 {
        let width = a.shape.last() as int;
        Some(
            Tensor {
                shape: a.shape,
                data: stacked(
                    |i: int| softmax_row(row_of(a.data, width, i)),
                    numel(a.shape.drop_last()),
                ),
            },
        )
    } else {
        None
    }
}

fn softmax_of<T: Scalar>(data: &Vec<T>, start: usize, width: usize) -> (out: Vec<T>)
    requires
        start + width <= data@.len(),
    ensures
        out@ == softmax_row(data@.subrange(start as int, start + width)),
{
    let ghost x = data@.subrange(start as int, start + width);
    let len: usize = data.len();
    let mut m: T = T::lowest();
    let mut i: usize = 0;
    while i < width
        invariant
            i <= width,
            len == data@.len(),
            start + width <= data@.len(),
            x == data@.subrange(start as int, start + width),
            m == max_steps(x, i as nat),
        decreases width - i,
    {
        m = m.max(&data[start + i]);
        i = i + 1;
    }
    let mut total: T = T::zero();
    let mut i: usize = 0;
    while i < width
        invariant
            i <= width,
            len == data@.len(),
            start + width <= data@.len(),
            x == data@.subrange(start as int, start + width),
            total == exp_sum_steps(x, m, i as nat),
        decreases width - i,
    {
        total = total.plus(&data[start + i].minus(&m).exp());
        i = i + 1;
    }
    let mut out: Vec<T> = Vec::new();
    let mut i: usize = 0;
    while i < width
        invariant
            i <= width,
            len == data@.len(),
            start + width <= data@.len(),
            x == data@.subrange(start as int, start + width),
            out@.len() == i,
            forall|k: int|
                0 <= k < i ==> #[trigger] out@[k] == x[k].difference(m).exponential().quotient(
                    total,
                ),
        decreases width - i,
    {
        out.push(data[start + i].minus(&m).exp().over(&total));
        i = i + 1;
    }
    assert(out@ =~= softmax_row(x));
    out
}

fn softmax_last<T: Scalar>(a: &TensorData<T>) -> (s: TensorData<T>)
    requires
        a@.well_formed(),
        softmax_value(a@) is Some,
    ensures
        softmax_value(a@) == Some(s@),
        s@.well_formed(),
{
    let width: usize = a.shape[a.shape.len() - 1];
    let ghost rows = numel(a@.shape.drop_last());
    let ghost row = |i: int| softmax_row(row_of(a@.data, width as int, i));
    let len: usize = a.data.len();
    proof {
        assert(numel(a@.shape) == rows * width);
    }
    let mut data: Vec<T> = Vec::new();
    let mut start: usize = 0;
    let ghost mut done: nat = 0;
    while start < len
        invariant
            len == a.data@.len(),
            len == rows * width,
            width > 0,
            start == done * width,
            done <= rows,
            row == (|i: int| softmax_row(row_of(a@.data, width as int, i))),
            data@ == stacked(row, done),
        decreases len - start,
    {
        proof {
            assert(done < rows) by (nonlinear_arith)
                requires
                    done * width < rows * width,
                    width > 0,
            ;
            lemma_row_fits(done as int, rows as int, width as int);
        }
        let mut y = softmax_of(&a.data, start, width);
        assert(y@ == row(done as int));
        data.append(&mut y);
        start = start + width;
        proof {
            done = done + 1;
        }
    }
    proof {
        assert(done == rows) by (nonlinear_arith)
            requires
                done * width >= rows * width,
                done <= rows,
                width > 0,
        ;
        assert forall|i: int| 0 <= i < rows implies (#[trigger] row(i)).len() == width by {
            lemma_row_fits(i, rows as int, width as int);
        }
        lemma_stacked(row, width as int, rows);
    }
    TensorData { shape: a.shape.clone(), data }
}

// ---- The reference interpreter ----

/// The value of node `root`. `None` where an input is not given, or where the operands of some
/// operator do not fit.
pub open spec fn evaluated<T: Scalar>(
    nodes: Seq<Node>,
    env: Map<Seq<char>, TensorData<T>>,
    root: int,
) -> Option<Tensor<T>>
    decreases root,
{
    if root < 0 || root >= nodes.len() {
        None
    } else {
        match nodes[root] {
            Node::Var(name) => if env.dom().contains(name) {
                Some(env[name]@)
            } else {
                None
            },
            Node::MatMul(a, b) => if 0 <= a < root && 0 <= b < root {
                match (evaluated(nodes, env, a), evaluated(nodes, env, b)) {
                    (Some(ta), Some(tb)) => matmul_value(ta, tb),
                    _ => None,
                }
            } else {
                None
            },
            Node::Transpose(a) => if 0 <= a < root {
                match evaluated(nodes, env, a) {
                    Some(ta) => transpose_value(ta),
                    None => None,
                }
            } else {
                None
            },
            Node::EMul(a, b) => if 0 <= a < root && 0 <= b < root {
                match (evaluated(nodes, env, a), evaluated(nodes, env, b)) {
                    (Some(ta), Some(tb)) => emul_value(ta, tb),
                    _ => None,
                }
            } else {
                None
            },
            Node::Softmax(a) => if 0 <= a < root {
                match evaluated(nodes, env, a) {
                    Some(ta) => softmax_value(ta),
                    None => None,
                }
            } else {
                None
            },
            Node::Relu(a) => if 0 <= a < root {
                match evaluated(nodes, env, a) {
                    Some(ta) => Some(Tensor { shape: ta.shape, data: rectified(ta.data) }),
                    None => None,
                }
            } else {
                None
            },
            // Fusion is a scheduling annotation; it does not change the value.
            Node::Fuse(a) => if 0 <= a < root {
                evaluated(nodes, env, a)
            } else {
                None
            },
        }
    }
}

/// Whether every input has as many elements as its shape says.
pub open spec fn env_well_formed<T>(env: Map<Seq<char>, TensorData<T>>) -> bool {
    forall|name: Seq<char>| #[trigger] env.dom().contains(name) ==> env[name]@.well_formed()
}

/// The value of node `root`, node by node.
pub fn eval<T: Scalar>(expr: &Program, root: Id, env: &NameMap<TensorData<T>>) -> (value: TensorData<
    T,
>)
    requires
        env_well_formed(env@),
        evaluated(expr@, env@, root as int) is Some,
    ensures
        evaluated(expr@, env@, root as int) == Some(value@),
        value@.well_formed(),
    decreases root,
{
    assert(expr@[root as int] == expr.nodes@[root as int]@);
    match &expr.nodes[root] {
        TensorLang::Var(name) => match env.get(name.as_str()) {
            Some(t) => t.copy(),
            None => TensorData { shape: Vec::new(), data: Vec::new() },
        },
        TensorLang::MatMul(a, b) => {
            let ta = eval(expr, *a, env);
            let tb = eval(expr, *b, env);
            matmul_2d(&ta, &tb)
        },
        TensorLang::Transpose(a) => {
            let ta = eval(expr, *a, env);
            transpose_2d(&ta)
        },
        TensorLang::EMul(a, b) => {
            let ta = eval(expr, *a, env);
            let tb = eval(expr, *b, env);
            emul_broadcast(&ta, &tb)
        },
        TensorLang::Softmax(a) => {
            let ta = eval(expr, *a, env);
            softmax_last(&ta)
        },
        TensorLang::Relu(a) => {
            let ta = eval(expr, *a, env);
            relu_elementwise(&ta)
        },
        TensorLang::Fuse(a) => eval(expr, *a, env),
    }
}

} // verus!
