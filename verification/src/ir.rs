//! The tensor IR: operators over named input tensors, programs made of them, and shape inference.
//!
//! Shape suffix convention: an input's name reflects its shape, so `Q_sd` is `[seq, dim]`.
use crate::names::NameMap;
use vstd::prelude::*;

verus! {

/// The position of a node: in a program, the index of the node; in an e-graph, the class.
pub type Id = usize;

/// One operator of the IR, with the nodes that it is applied to.
#[derive(Debug)]
pub enum TensorLang {
    /// Named input tensor, looked up in the environment.
    Var(String),
    /// 2-D matrix multiply: `[m,k] x [k,n] -> [m,n]`.
    MatMul(Id, Id),
    /// Transpose of the last two dims: `[m,n] -> [n,m]`.
    Transpose(Id),
    /// Elementwise multiply; an operand of one element broadcasts.
    EMul(Id, Id),
    /// Numerically stable softmax along the last axis.
    Softmax(Id),
    /// Elementwise `max(x, 0)`, the nonlinearity of the MLP. It keeps associativity from
    /// collapsing the two matmuls into one.
    Relu(Id),
    /// Fusion boundary: the wrapped subgraph runs as one kernel, and its internal intermediates
    /// are not spilled to HBM. It does not change the value.
    Fuse(Id),
}

/// What a `TensorLang` stands for: the operator, with its operands as mathematical integers.
pub enum Node {
    Var(Seq<char>),
    MatMul(int, int),
    Transpose(int),
    EMul(int, int),
    Softmax(int),
    Relu(int),
    Fuse(int),
}

impl View for TensorLang {
    type V = Node;

    open spec fn view(&self) -> Node {
        match self {
            TensorLang::Var(name) => Node::Var(name@),
            TensorLang::MatMul(a, b) => Node::MatMul(*a as int, *b as int),
            TensorLang::Transpose(a) => Node::Transpose(*a as int),
            TensorLang::EMul(a, b) => Node::EMul(*a as int, *b as int),
            TensorLang::Softmax(a) => Node::Softmax(*a as int),
            TensorLang::Relu(a) => Node::Relu(*a as int),
            TensorLang::Fuse(a) => Node::Fuse(*a as int),
        }
    }
}

impl Node {
    /// The operands, in order.
    pub open spec fn children(self) -> Seq<int> {
        match self {
            Node::Var(_) => seq![],
            Node::MatMul(a, b) => seq![a, b],
            Node::Transpose(a) => seq![a],
            Node::EMul(a, b) => seq![a, b],
            Node::Softmax(a) => seq![a],
            Node::Relu(a) => seq![a],
            Node::Fuse(a) => seq![a],
        }
    }

    /// The same operator over other operands.
    pub open spec fn with_children(self, children: Seq<int>) -> Node {
        match self {
            Node::Var(name) => Node::Var(name),
            Node::MatMul(_, _) => Node::MatMul(children[0], children[1]),
            Node::Transpose(_) => Node::Transpose(children[0]),
            Node::EMul(_, _) => Node::EMul(children[0], children[1]),
            Node::Softmax(_) => Node::Softmax(children[0]),
            Node::Relu(_) => Node::Relu(children[0]),
            Node::Fuse(_) => Node::Fuse(children[0]),
        }
    }

    /// Whether every operand stands before position `n`.
    pub open spec fn operands_below(self, n: int) -> bool {
        forall|k: int|
            0 <= k < self.children().len() ==> 0 <= #[trigger] self.children()[k] < n
    }
}

impl Clone for TensorLang {
    fn clone(&self) -> (copy: Self)
        ensures
            copy@ == self@,
    {
        match self {
            TensorLang::Var(name) => TensorLang::Var(name.clone()),
            TensorLang::MatMul(a, b) => TensorLang::MatMul(*a, *b),
            TensorLang::Transpose(a) => TensorLang::Transpose(*a),
            TensorLang::EMul(a, b) => TensorLang::EMul(*a, *b),
            TensorLang::Softmax(a) => TensorLang::Softmax(*a),
            TensorLang::Relu(a) => TensorLang::Relu(*a),
            TensorLang::Fuse(a) => TensorLang::Fuse(*a),
        }
    }
}

impl TensorLang {
    /// The operands, in order.
    pub fn children(&self) -> (ids: Vec<Id>)
        ensures
            ids@.len() == self@.children().len(),
            forall|k: int| 0 <= k < ids@.len() ==> #[trigger] ids@[k] == self@.children()[k],
    {
        match self {
            TensorLang::Var(_) => Vec::new(),
            TensorLang::MatMul(a, b) | TensorLang::EMul(a, b) => {
                let mut ids: Vec<Id> = Vec::new();
                ids.push(*a);
                ids.push(*b);
                ids
            },
            TensorLang::Transpose(a)
            | TensorLang::Softmax(a)
            | TensorLang::Relu(a)
            | TensorLang::Fuse(a) => {
                let mut ids: Vec<Id> = Vec::new();
                ids.push(*a);
                ids
            },
        }
    }

    /// The same operator over other operands.
    pub fn with_children(&self, ids: &Vec<Id>) -> (node: TensorLang)
        requires
            ids@.len() == self@.children().len(),
        ensures
            node@ == self@.with_children(ids@.map_values(|id: Id| id as int)),
    {
        match self {
            TensorLang::Var(name) => TensorLang::Var(name.clone()),
            TensorLang::MatMul(_, _) => TensorLang::MatMul(ids[0], ids[1]),
            TensorLang::Transpose(_) => TensorLang::Transpose(ids[0]),
            TensorLang::EMul(_, _) => TensorLang::EMul(ids[0], ids[1]),
            TensorLang::Softmax(_) => TensorLang::Softmax(ids[0]),
            TensorLang::Relu(_) => TensorLang::Relu(ids[0]),
            TensorLang::Fuse(_) => TensorLang::Fuse(ids[0]),
        }
    }
}

/// A program: a list of nodes, each over nodes that stand before it. The last node is the root.
#[derive(Debug)]
pub struct Program {
    pub nodes: Vec<TensorLang>,
}

impl View for Program {
    type V = Seq<Node>;

    open spec fn view(&self) -> Seq<Node> {
        self.nodes@.map_values(|n: TensorLang| n@)
    }
}

/// Whether every node is over nodes that stand before it.
pub open spec fn well_ordered(nodes: Seq<Node>) -> bool {
    forall|i: int| 0 <= i < nodes.len() ==> (#[trigger] nodes[i]).operands_below(i)
}

impl Clone for Program {
    fn clone(&self) -> (copy: Self)
        ensures
            copy@ == self@,
    {
        let mut nodes: Vec<TensorLang> = Vec::new();
        let mut i: usize = 0;
        while i < self.nodes.len()
            invariant
                i <= self.nodes@.len(),
                nodes@.len() == i,
                forall|k: int| 0 <= k < i ==> (#[trigger] nodes@[k])@ == self.nodes@[k]@,
            decreases self.nodes@.len() - i,
        {
            nodes.push(self.nodes[i].clone());
            i = i + 1;
        }
        let copy = Program { nodes };
        assert(copy@ =~= self@);
        copy
    }
}

impl Program {
    /// The program without nodes.
    pub fn new() -> (expr: Self)
        ensures
            expr@ == Seq::<Node>::empty(),
    {
        let expr = Program { nodes: Vec::new() };
        assert(expr@ =~= Seq::<Node>::empty());
        expr
    }

    /// Adds a node over nodes that are already there, and returns its position.
    pub fn add(&mut self, node: TensorLang) -> (id: Id)
        requires
            node@.operands_below(old(self)@.len() as int),
        ensures
            final(self)@ == old(self)@.push(node@),
            id == old(self)@.len(),
            well_ordered(old(self)@) ==> well_ordered(final(self)@),
    {
        let id: Id = self.nodes.len();
        self.nodes.push(node);
        assert(self@ =~= old(self)@.push(node@));
        id
    }

    /// The number of nodes.
    pub fn len(&self) -> (count: usize)
        ensures
            count == self@.len(),
    {
        self.nodes.len()
    }

    /// The nodes in order.
    pub fn as_ref(&self) -> (nodes: &Vec<TensorLang>)
        ensures
            nodes@.map_values(|n: TensorLang| n@) == self@,
    {
        &self.nodes
    }
}

impl Default for Program {
    fn default() -> (expr: Self)
        ensures
            expr@ == Seq::<Node>::empty(),
    {
        Program::new()
    }
}

// ---- Shapes ----

/// The number of elements of a tensor of shape `s`.
pub open spec fn numel(s: Seq<usize>) -> nat
    decreases s.len(),
{
    if s.len() == 0 {
        1
    } else {
        numel(s.drop_last()) * s.last() as nat
    }
}

/// The shapes of the inputs by name.
pub type Shapes = NameMap<Vec<usize>>;

/// The shapes of the inputs by name, as sequences of extents.
pub open spec fn dims(shapes: Shapes) -> Map<Seq<char>, Seq<usize>> {
    shapes@.map_values(|s: Vec<usize>| s@)
}

/// The shape of a matrix product, where the operands fit.
pub open spec fn matmul_shape(a: Seq<usize>, b: Seq<usize>) -> Option<Seq<usize>> {
    if a.len() == 2 && b.len() == 2 && a[1] == b[0] {
        Some(seq![a[0], b[1]])
    } else {
        None
    }
}

/// The shape of a transpose.
pub open spec fn transpose_shape(a: Seq<usize>) -> Option<Seq<usize>> {
    if a.len() == 2 {
        Some(seq![a[1], a[0]])
    } else {
        None
    }
}

/// The shape of a number.
pub open spec fn scalar_shape() -> Seq<usize> {
    seq![1usize]
}

/// Whether an elementwise product takes on the shape of its right operand: the left one has one
/// element, and the right one is not a number.
pub open spec fn right_counts(a: Seq<usize>, b: Seq<usize>) -> bool {
    numel(a) == 1 && b != scalar_shape()
}

/// The shape of an elementwise product of operands that fit: an operand of one element broadcasts,
/// and a number `[1]` takes on the shape of the other operand.
pub open spec fn broadcast_shape(a: Seq<usize>, b: Seq<usize>) -> Seq<usize> {
    if right_counts(a, b) {
        b
    } else {
        a
    }
}

/// The shape of an elementwise product: an operand of one element broadcasts, and otherwise the
/// shapes must agree.
pub open spec fn emul_shape(a: Seq<usize>, b: Seq<usize>) -> Option<Seq<usize>> {
    if numel(a) == 1 || numel(b) == 1 || a == b {
        Some(broadcast_shape(a, b))
    } else {
        None
    }
}

/// `f` of the two shapes, where both are known.
pub open spec fn both(
    a: Option<Seq<usize>>,
    b: Option<Seq<usize>>,
    f: spec_fn(Seq<usize>, Seq<usize>) -> Option<Seq<usize>>,
) -> Option<Seq<usize>> {
    match (a, b) {
        (Some(sa), Some(sb)) => f(sa, sb),
        _ => None,
    }
}

/// The shape of the value at node `root`; `None` where an input has no shape or the operands of
/// some operator do not fit.
pub open spec fn inferred_shape(
    nodes: Seq<Node>,
    shapes: Map<Seq<char>, Seq<usize>>,
    root: int,
) -> Option<Seq<usize>>
    decreases root,
{
    if root < 0 || root >= nodes.len() {
        None
    } else {
        match nodes[root] {
            Node::Var(name) => if shapes.dom().contains(name) {
                Some(shapes[name])
            } else {
                None
            },
            Node::MatMul(a, b) => if 0 <= a < root && 0 <= b < root {
                both(
                    inferred_shape(nodes, shapes, a),
                    inferred_shape(nodes, shapes, b),
                    |sa: Seq<usize>, sb: Seq<usize>| matmul_shape(sa, sb),
                )
            } else {
                None
            },
            Node::Transpose(a) => if 0 <= a < root {
                match inferred_shape(nodes, shapes, a) {
                    Some(sa) => transpose_shape(sa),
                    None => None,
                }
            } else {
                None
            },
            Node::EMul(a, b) => if 0 <= a < root && 0 <= b < root {
                both(
                    inferred_shape(nodes, shapes, a),
                    inferred_shape(nodes, shapes, b),
                    |sa: Seq<usize>, sb: Seq<usize>| emul_shape(sa, sb),
                )
            } else {
                None
            },
            Node::Softmax(a) | Node::Relu(a) | Node::Fuse(a) => if 0 <= a < root {
                inferred_shape(nodes, shapes, a)
            } else {
                None
            },
        }
    }
}

pub proof fn lemma_numel_one(s: Seq<usize>)
    ensures
        numel(s) == 1 <==> (forall|k: int| 0 <= k < s.len() ==> #[trigger] s[k] == 1),
    decreases s.len(),
{
    if s.len() > 0 {
        let front = s.drop_last();
        lemma_numel_one(front);
        let p = numel(front) as int;
        let q = s.last() as int;
        assert(p * q == 1 <==> (p == 1 && q == 1)) by (nonlinear_arith)
            requires
                p >= 0,
                q >= 0,
        ;
        if forall|k: int| 0 <= k < front.len() ==> #[trigger] front[k] == 1 {
            assert forall|k: int| 0 <= k < s.len() && s.last() == 1 implies #[trigger] s[k] == 1 by {
                if k < s.len() - 1 {
                    assert(front[k] == 1);
                }
            }
        } else {
            let k = choose|k: int| 0 <= k < front.len() && #[trigger] front[k] != 1;
            assert(s[k] != 1);
        }
    }
}

/// A matrix has as many elements as the product of its extents.
pub proof fn lemma_numel_matrix(m: usize, n: usize)
    ensures
        numel(seq![m, n]) == m * n,
{
    let (whole, front) = (seq![m, n], seq![m]);
    assert(whole.drop_last() =~= front);
    assert(front.drop_last() =~= seq![]);
    assert(numel(seq![]) == 1);
    assert(numel(front) == 1 * m);
    assert(numel(whole) == numel(front) * n);
}

/// Whether a tensor of this shape has exactly one element.
pub fn has_one_element(s: &Vec<usize>) -> (one: bool)
    ensures
        one == (numel(s@) == 1),
{
    proof {
        lemma_numel_one(s@);
    }
    let mut i: usize = 0;
    while i < s.len()
        invariant
            i <= s@.len(),
            forall|k: int| 0 <= k < i ==> #[trigger] s@[k] == 1,
            numel(s@) == 1 <==> (forall|k: int| 0 <= k < s@.len() ==> #[trigger] s@[k] == 1),
        decreases s@.len() - i,
    {
        if s[i] != 1 {
            return false;
        }
        i = i + 1;
    }
    true
}

/// Whether two shapes are the same.
pub fn same_shape(a: &Vec<usize>, b: &Vec<usize>) -> (same: bool)
    ensures
        same == (a@ == b@),
{
    if a.len() != b.len() {
        return false;
    }
    let mut i: usize = 0;
    while i < a.len()
        invariant
            i <= a@.len(),
            a@.len() == b@.len(),
            forall|k: int| 0 <= k < i ==> #[trigger] a@[k] == b@[k],
        decreases a@.len() - i,
    {
        if a[i] != b[i] {
            return false;
        }
        i = i + 1;
    }
    assert(a@ =~= b@);
    true
}

/// Whether this is the shape of a number.
pub fn is_scalar(s: &Vec<usize>) -> (scalar: bool)
    ensures
        scalar == (s@ == scalar_shape()),
{
    if s.len() == 1 && s[0] == 1 {
        assert(s@ =~= scalar_shape());
        true
    } else {
        false
    }
}

/// Whether an elementwise product takes on the shape of its right operand.
pub fn takes_right(a: &Vec<usize>, b: &Vec<usize>) -> (right: bool)
    ensures
        right == right_counts(a@, b@),
{
    !is_scalar(b) && has_one_element(a)
}

/// The shape of the value at node `root`, where it has one.
pub fn try_infer_shape(expr: &Program, root: Id, shapes: &Shapes) -> (shape: Option<Vec<usize>>)
    ensures
        match shape {
            Some(s) => inferred_shape(expr@, dims(*shapes), root as int) == Some(s@),
            None => inferred_shape(expr@, dims(*shapes), root as int) is None,
        },
    decreases root,
{
    if root >= expr.nodes.len() {
        return None;
    }
    assert(expr@[root as int] == expr.nodes@[root as int]@);
    match &expr.nodes[root] {
        TensorLang::Var(name) => match shapes.get(name.as_str()) {
            Some(s) => Some(s.clone()),
            None => None,
        },
        TensorLang::MatMul(a, b) => {
            if *a >= root || *b >= root {
                return None;
            }
            match (try_infer_shape(expr, *a, shapes), try_infer_shape(expr, *b, shapes)) {
                (Some(sa), Some(sb)) => if sa.len() == 2 && sb.len() == 2 && sa[1] == sb[0] {
                    let shape: Vec<usize> = vec![sa[0], sb[1]];
                    assert(shape@ =~= seq![sa@[0], sb@[1]]);
                    Some(shape)
                } else {
                    None
                },
                _ => None,
            }
        },
        TensorLang::Transpose(a) => {
            if *a >= root {
                return None;
            }
            match try_infer_shape(expr, *a, shapes) {
                Some(sa) => if sa.len() == 2 {
                    let shape: Vec<usize> = vec![sa[1], sa[0]];
                    assert(shape@ =~= seq![sa@[1], sa@[0]]);
                    Some(shape)
                } else {
                    None
                },
                None => None,
            }
        },
        TensorLang::EMul(a, b) => {
            if *a >= root || *b >= root {
                return None;
            }
            match (try_infer_shape(expr, *a, shapes), try_infer_shape(expr, *b, shapes)) {
                (Some(sa), Some(sb)) => if has_one_element(&sa) || has_one_element(&sb)
                    || same_shape(&sa, &sb) {
                    if takes_right(&sa, &sb) {
                        Some(sb)
                    } else {
                        Some(sa)
                    }
                } else {
                    None
                },
                _ => None,
            }
        },
        TensorLang::Softmax(a) | TensorLang::Relu(a) | TensorLang::Fuse(a) => {
            if *a >= root {
                return None;
            }
            try_infer_shape(expr, *a, shapes)
        },
    }
}

/// The shape of the value at node `root`.
pub fn infer_shape(expr: &Program, root: Id, shapes: &Shapes) -> (shape: Vec<usize>)
    requires
        inferred_shape(expr@, dims(*shapes), root as int) is Some,
    ensures
        shape@ == inferred_shape(expr@, dims(*shapes), root as int).unwrap(),
{
    match try_infer_shape(expr, root, shapes) {
        Some(shape) => shape,
        None => Vec::new(),
    }
}

/// Whether node `b` is known to be a number, and some elementwise product scales by it.
pub open spec fn scales_by(
    nodes: Seq<Node>,
    shapes: Map<Seq<char>, Seq<usize>>,
    b: int,
) -> bool {
    &&& inferred_shape(nodes, shapes, b) == Some(scalar_shape())
    &&& exists|i: int|
        0 <= i < nodes.len() && (#[trigger] nodes[i] matches Node::EMul(_, right) && right == b)
}

/// Whether node `b` is known to be a number, and some elementwise product scales by it.
pub fn is_factor(expr: &Program, shapes: &Shapes, b: Id) -> (factor: bool)
    ensures
        factor == scales_by(expr@, dims(*shapes), b as int),
{
    let number = match try_infer_shape(expr, b, shapes) {
        Some(s) => is_scalar(&s),
        None => false,
    };
    if !number {
        return false;
    }
    let mut i: usize = 0;
    while i < expr.nodes.len()
        invariant
            i <= expr@.len(),
            inferred_shape(expr@, dims(*shapes), b as int) == Some(scalar_shape()),
            forall|k: int|
                0 <= k < i ==> !(#[trigger] expr@[k] matches Node::EMul(_, right) && right == b),
        decreases expr@.len() - i,
    {
        assert(expr@[i as int] == expr.nodes@[i as int]@);
        if let TensorLang::EMul(_, right) = &expr.nodes[i] {
            if *right == b {
                return true;
            }
        }
        i = i + 1;
    }
    false
}

// ---- Canonical programs ----

/// The nodes of naive single-head attention, `softmax(Q K^T scale) V`.
pub open spec fn attention_nodes() -> Seq<Node> {
    seq![
        Node::Var("Q_sd"@),
        Node::Var("K_sd"@),
        Node::Var("V_sd"@),
        Node::Var("scale"@),
        Node::Transpose(1),
        Node::MatMul(0, 4),
        Node::EMul(5, 3),
        Node::Softmax(6),
        Node::MatMul(7, 2),
    ]
}

/// The nodes of the two-layer MLP, `relu(X W_up) W_dn`.
pub open spec fn mlp_nodes() -> Seq<Node> {
    seq![
        Node::Var("X_sd"@),
        Node::Var("W_up_df"@),
        Node::Var("W_dn_fd"@),
        Node::MatMul(0, 1),
        Node::Relu(3),
        Node::MatMul(4, 2),
    ]
}

fn input(e: &mut Program, name: &str) -> (id: Id)
    ensures
        final(e)@ == old(e)@.push(Node::Var(name@)),
        id == old(e)@.len(),
{
    e.add(TensorLang::Var(name.to_owned()))
}

/// Naive single-head attention: `softmax(Q K^T / sqrt(d)) V`.
/// Inputs: `Q_sd`, `K_sd`, `V_sd` and `scale` (the scalar `1/sqrt(d)`).
pub fn naive_attention_program() -> (program: (Program, Id))
    ensures
        program.0@ == attention_nodes(),
        program.1 == 8,
        well_ordered(program.0@),
{
    let mut e = Program::new();
    let q: Id = input(&mut e, "Q_sd");
    let k: Id = input(&mut e, "K_sd");
    let v: Id = input(&mut e, "V_sd");
    let sc: Id = input(&mut e, "scale");
    let kt: Id = e.add(TensorLang::Transpose(k));
    let scores: Id = e.add(TensorLang::MatMul(q, kt));
    let scaled: Id = e.add(TensorLang::EMul(scores, sc));
    let attn: Id = e.add(TensorLang::Softmax(scaled));
    let out: Id = e.add(TensorLang::MatMul(attn, v));
    assert(e@ =~= attention_nodes());
    (e, out)
}

/// Attention with the whole score/softmax/output chain fused: the scores and probabilities never
/// spill to HBM. Same value as `naive_attention_program`.
pub fn fused_attention_program() -> (program: (Program, Id))
    ensures
        program.0@ == attention_nodes().push(Node::Fuse(8)),
        program.1 == 9,
        well_ordered(program.0@),
{
    let (mut e, out) = naive_attention_program();
    let fused: Id = e.add(TensorLang::Fuse(out));
    (e, fused)
}

/// Two-layer MLP with relu: `Y_sd = relu(X_sd W_up_df) W_dn_fd`, where `d` is the model width and
/// `f` the hidden width.
pub fn naive_mlp_program() -> (program: (Program, Id))
    ensures
        program.0@ == mlp_nodes(),
        program.1 == 5,
        well_ordered(program.0@),
{
    let mut e = Program::new();
    let x: Id = input(&mut e, "X_sd");
    let w_up: Id = input(&mut e, "W_up_df");
    let w_dn: Id = input(&mut e, "W_dn_fd");
    let h_sf: Id = e.add(TensorLang::MatMul(x, w_up));
    let a_sf: Id = e.add(TensorLang::Relu(h_sf));
    let out: Id = e.add(TensorLang::MatMul(a_sf, w_dn));
    assert(e@ =~= mlp_nodes());
    (e, out)
}

/// The MLP with the whole up/relu/down chain fused: the hidden activations never spill to HBM.
/// Same value as `naive_mlp_program`.
pub fn fused_mlp_program() -> (program: (Program, Id))
    ensures
        program.0@ == mlp_nodes().push(Node::Fuse(5)),
        program.1 == 6,
        well_ordered(program.0@),
{
    let (mut e, out) = naive_mlp_program();
    let fused: Id = e.add(TensorLang::Fuse(out));
    (e, fused)
}

} // verus!
