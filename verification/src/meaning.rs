//! What rewriting keeps: tensors, shapes and inputs. The operators are given a meaning on numbers
//! that stand for values, so that what holds of every meaning of the operators holds of those.
use crate::account::{fused_traffic_depends_on_the_ends, inputs_used, tally};
use crate::algebra::{
    lemma_matmul_assoc, lemma_matmul_rows, lemma_ring_factors, lemma_scale_distrib,
    lemma_transpose_matmul, lemma_transpose_rows, ring, scaled,
};
use crate::egraph::{named, represents};
use crate::extract::{extraction, fused_plan, Problem};
use crate::ir::{
    emul_shape, inferred_shape, lemma_numel_one, matmul_shape, numel, scalar_shape,
    transpose_shape, well_ordered, Node,
};
use crate::kernel_laws::{env_shapes, inferred_shapes_are_those_of_values};
use crate::laws::{computes_the_same, extraction_computes_the_same, fuse_is_identity};
use crate::rules::{
    rules_for, rules_move_only_numbers, scale_distrib_rules, scales_at, unconditional_rules,
    Equation, Hole, Pattern,
};
use crate::saturate::{
    class_of_program, classes_of, lemma_in_order, lemma_values_of_classes, one_class_one_value,
    pattern_value, program_value, rules_hold, same_class, shaped_from, symbolic, symbolics, values,
    values_classes, values_given, Saturated, Shaped,
};
use crate::tensor::{
    emul_value, env_well_formed, evaluated, lemma_row_fits, lemma_stacked, matmul_value, rectified,
    row_of, softmax_row, softmax_value, transpose_value, Scalar, Tensor, TensorData,
};
use vstd::prelude::*;

verus! {

// ---- Values as numbers ----

/// The operators that compute.
pub enum Op {
    MatMul,
    Transpose,
    EMul,
    Softmax,
    Relu,
}

/// One way to give the operators a meaning: what they make of two values (of one value twice, where
/// there is one operand), the values of the inputs, and the values that numbers are given to first.
#[verifier::reject_recursive_types(V)]
pub struct Algebra<V> {
    pub apply: spec_fn(Op, V, V) -> V,
    pub input: spec_fn(Seq<char>) -> V,
    pub none: V,
    pub leaves: Seq<V>,
}

/// A number for two numbers.
spec fn pair(x: int, y: int) -> int {
    (x + y) * (x + y) + x
}

proof fn lemma_pair(x: int, y: int, u: int, v: int)
    requires
        0 <= x,
        0 <= y,
        0 <= u,
        0 <= v,
    ensures
        x <= pair(x, y),
        y <= pair(x, y),
        pair(x, y) == pair(u, v) ==> x == u && y == v,
{
    let (s, t) = (x + y, u + v);
    assert(s <= s * s) by (nonlinear_arith)
        requires
            s >= 0,
    ;
    assert(s < t ==> s * s + s < t * t) by (nonlinear_arith)
        requires
            s >= 0,
            t >= 0,
    ;
    assert(t < s ==> t * t + t < s * s) by (nonlinear_arith)
        requires
            s >= 0,
            t >= 0,
    ;
}

/// The two numbers that `n` stands for.
spec fn unpaired(n: int) -> (int, int) {
    choose|xy: (int, int)| 0 <= xy.0 && 0 <= xy.1 && #[trigger] pair(xy.0, xy.1) == n
}

spec fn op_number(op: Op) -> int {
    match op {
        Op::MatMul => 1,
        Op::Transpose => 2,
        Op::EMul => 3,
        Op::Softmax => 4,
        Op::Relu => 5,
    }
}

spec fn numbered_op(n: int) -> Op {
    if n == 1 {
        Op::MatMul
    } else if n == 2 {
        Op::Transpose
    } else if n == 3 {
        Op::EMul
    } else if n == 4 {
        Op::Softmax
    } else {
        Op::Relu
    }
}

/// The operator of this name with this many operands.
spec fn named_op(name: Seq<char>, operands: nat) -> Option<Op> {
    if operands == 2 && name == "matmul"@ {
        Some(Op::MatMul)
    } else if operands == 1 && name == "transpose"@ {
        Some(Op::Transpose)
    } else if operands == 2 && name == "emul"@ {
        Some(Op::EMul)
    } else if operands == 1 && name == "softmax"@ {
        Some(Op::Softmax)
    } else if operands == 1 && name == "relu"@ {
        Some(Op::Relu)
    } else {
        None
    }
}

impl<V> Algebra<V> {
    /// The value that a number stands for: a leaf, or an operator on the values of two smaller
    /// numbers.
    spec fn value_of(self, n: int) -> V
        decreases n,
    {
        if n < 0 {
            self.none
        } else if n % 6 == 0 {
            if n / 6 < self.leaves.len() {
                self.leaves[n / 6]
            } else {
                self.none
            }
        } else {
            let (x, y) = unpaired(n / 6);
            if 0 <= x < n && 0 <= y < n {
                (self.apply)(numbered_op(n % 6), self.value_of(x), self.value_of(y))
            } else {
                self.none
            }
        }
    }

    /// The number that stands for a value, if there is one.
    spec fn number_of(self, v: V) -> int {
        choose|n: int| #[trigger] self.value_of(n) == v
    }

    /// The operators on numbers.
    spec fn meaning(self) -> spec_fn(Seq<char>, Seq<int>) -> int {
        |name: Seq<char>, ks: Seq<int>|
            if ks.len() == 0 {
                self.number_of((self.input)(name))
            } else {
                match named_op(name, ks.len()) {
                    Some(op) => self.number_of(
                        (self.apply)(op, self.value_of(ks[0]), self.value_of(ks.last())),
                    ),
                    None => ks[0],
                }
            }
    }

    /// The value of a pattern, for one value of each hole.
    spec fn term(self, p: Pattern, hole: spec_fn(Hole) -> V) -> V
        decreases p,
    {
        match p {
            Pattern::Any(h) => hole(h),
            Pattern::MatMul(a, b) => (self.apply)(
                Op::MatMul,
                self.term(*a, hole),
                self.term(*b, hole),
            ),
            Pattern::EMul(a, b) => (self.apply)(Op::EMul, self.term(*a, hole), self.term(*b, hole)),
            Pattern::Transpose(a) => (self.apply)(
                Op::Transpose,
                self.term(*a, hole),
                self.term(*a, hole),
            ),
            Pattern::Softmax(a) => (self.apply)(
                Op::Softmax,
                self.term(*a, hole),
                self.term(*a, hole),
            ),
            Pattern::Relu(a) => (self.apply)(Op::Relu, self.term(*a, hole), self.term(*a, hole)),
            Pattern::Fuse(a) => self.term(*a, hole),
        }
    }

    /// The value of a pattern whose holes are numbers.
    spec fn side(self, p: Pattern, hole: spec_fn(Hole) -> int) -> V {
        self.term(p, |h: Hole| self.value_of(hole(h)))
    }

    /// Whether the hole `?s` stands for the value of the term that a rule is given.
    spec fn given(self, e: Equation, hole: spec_fn(Hole) -> int) -> bool {
        e.given matches Some(term) ==> self.value_of(hole(Hole::S)) == self.node(
            term,
            term.len() - 1,
        )
    }

    /// The value of node `i` of a program.
    spec fn node(self, nodes: Seq<Node>, i: int) -> V
        decreases i,
    {
        if i < 0 || i >= nodes.len() {
            self.none
        } else {
            match nodes[i] {
                Node::Var(name) => (self.input)(name),
                Node::MatMul(a, b) => if 0 <= a < i && 0 <= b < i {
                    (self.apply)(Op::MatMul, self.node(nodes, a), self.node(nodes, b))
                } else {
                    self.none
                },
                Node::EMul(a, b) => if 0 <= a < i && 0 <= b < i {
                    (self.apply)(Op::EMul, self.node(nodes, a), self.node(nodes, b))
                } else {
                    self.none
                },
                Node::Transpose(a) => if 0 <= a < i {
                    (self.apply)(Op::Transpose, self.node(nodes, a), self.node(nodes, a))
                } else {
                    self.none
                },
                Node::Softmax(a) => if 0 <= a < i {
                    (self.apply)(Op::Softmax, self.node(nodes, a), self.node(nodes, a))
                } else {
                    self.none
                },
                Node::Relu(a) => if 0 <= a < i {
                    (self.apply)(Op::Relu, self.node(nodes, a), self.node(nodes, a))
                } else {
                    self.none
                },
                Node::Fuse(a) => if 0 <= a < i {
                    self.node(nodes, a)
                } else {
                    self.none
                },
            }
        }
    }

    /// The values of the inputs that a program names.
    spec fn inputs(self, nodes: Seq<Node>) -> Seq<V> {
        nodes.map_values(
            |n: Node|
                match n {
                    Node::Var(name) => (self.input)(name),
                    _ => self.none,
                },
        )
    }

    /// Whether the inputs of a program have numbers.
    spec fn covers(self, nodes: Seq<Node>) -> bool {
        forall|i: int|
            0 <= i < nodes.len() ==> self.leaves.contains(#[trigger] self.inputs(nodes)[i])
    }
}

proof fn lemma_names()
    ensures
        named_op("matmul"@, 2) == Some(Op::MatMul),
        named_op("transpose"@, 1) == Some(Op::Transpose),
        named_op("emul"@, 2) == Some(Op::EMul),
        named_op("softmax"@, 1) == Some(Op::Softmax),
        named_op("relu"@, 1) == Some(Op::Relu),
        named_op("fuse"@, 1) is None,
{
    reveal_strlit("matmul");
    reveal_strlit("transpose");
    reveal_strlit("emul");
    reveal_strlit("softmax");
    reveal_strlit("relu");
    reveal_strlit("fuse");
    assert("matmul"@.len() == 6 && "emul"@.len() == 4);
    assert("transpose"@.len() == 9 && "softmax"@.len() == 7);
    assert("relu"@.len() == 4 && "fuse"@.len() == 4);
    assert("relu"@[0] != "fuse"@[0]);
}

/// What an operator computes from values that have numbers has a number.
proof fn lemma_numbered<V>(g: Algebra<V>, op: Op, x: int, y: int)
    ensures
        ({
            let v = (g.apply)(op, g.value_of(x), g.value_of(y));
            g.value_of(g.number_of(v)) == v
        }),
{
    let none = 6 * g.leaves.len() as int;
    assert(g.value_of(none) == g.none);
    let u = if x < 0 {
        none
    } else {
        x
    };
    let w = if y < 0 {
        none
    } else {
        y
    };
    assert(g.value_of(u) == g.value_of(x));
    assert(g.value_of(w) == g.value_of(y));
    let n = 6 * pair(u, w) + op_number(op);
    let witness = (u, w);
    assert(0 <= witness.0 && 0 <= witness.1 && pair(witness.0, witness.1) == pair(u, w));
    let (a, b) = unpaired(pair(u, w));
    lemma_pair(u, w, a, b);
    assert(a == u && b == w);
    assert(n / 6 == pair(u, w) && n % 6 == op_number(op));
    assert(g.value_of(n) == (g.apply)(op, g.value_of(x), g.value_of(y)));
}

/// The number of a pattern stands for its value, and is determined by it.
proof fn lemma_pattern<V>(g: Algebra<V>, p: Pattern, hole: spec_fn(Hole) -> int)
    ensures
        ({
            let n = pattern_value(p, g.meaning(), hole);
            &&& g.value_of(n) == g.side(p, hole)
            &&& !(p is Any) && !(p is Fuse) ==> n == g.number_of(g.side(p, hole))
        }),
    decreases p,
{
    lemma_names();
    let meaning = g.meaning();
    let value = |h: Hole| g.value_of(hole(h));
    match p {
        Pattern::Any(h) => {},
        Pattern::MatMul(a, b) => {
            lemma_pattern(g, *a, hole);
            lemma_pattern(g, *b, hole);
            let (x, y) = (pattern_value(*a, meaning, hole), pattern_value(*b, meaning, hole));
            lemma_numbered(g, Op::MatMul, x, y);
        },
        Pattern::EMul(a, b) => {
            lemma_pattern(g, *a, hole);
            lemma_pattern(g, *b, hole);
            let (x, y) = (pattern_value(*a, meaning, hole), pattern_value(*b, meaning, hole));
            lemma_numbered(g, Op::EMul, x, y);
        },
        Pattern::Transpose(a) => {
            lemma_pattern(g, *a, hole);
            let x = pattern_value(*a, meaning, hole);
            lemma_numbered(g, Op::Transpose, x, x);
        },
        Pattern::Softmax(a) => {
            lemma_pattern(g, *a, hole);
            let x = pattern_value(*a, meaning, hole);
            lemma_numbered(g, Op::Softmax, x, x);
        },
        Pattern::Relu(a) => {
            lemma_pattern(g, *a, hole);
            let x = pattern_value(*a, meaning, hole);
            lemma_numbered(g, Op::Relu, x, x);
        },
        Pattern::Fuse(a) => {
            lemma_pattern(g, *a, hole);
        },
    }
}

/// The numbers of a program stand for the values of its nodes.
proof fn lemma_program<V>(g: Algebra<V>, nodes: Seq<Node>, count: nat)
    requires
        well_ordered(nodes),
        g.covers(nodes),
        count <= nodes.len(),
    ensures
        ({
            let all = values(symbolics(nodes), g.meaning(), count);
            &&& all.len() == count
            &&& forall|i: int| 0 <= i < count ==> g.value_of(#[trigger] all[i]) == g.node(nodes, i)
        }),
    decreases count,
{
    if count > 0 {
        let k = count - 1;
        lemma_program(g, nodes, k as nat);
        lemma_names();
        let meaning = g.meaning();
        let before = values(symbolics(nodes), meaning, k as nat);
        let node = nodes[k];
        let (name, operands) = symbolic(node);
        assert(symbolics(nodes)[k] == symbolic(node));
        let args = operands.map_values(|j: int| before[j]);
        assert(node.operands_below(k));
        let n = meaning(name, args);
        assert(values(symbolics(nodes), meaning, count) == before.push(n));
        assert(g.value_of(n) == g.node(nodes, k)) by {
            match node {
                Node::Var(_) => {
                    let v = g.inputs(nodes)[k];
                    let at = choose|at: int| 0 <= at < g.leaves.len() && g.leaves[at] == v;
                    assert((6 * at) % 6 == 0 && (6 * at) / 6 == at);
                    assert(g.value_of(6 * at) == v);
                },
                Node::MatMul(a, b) => {
                    assert(operands[0] == a && operands[1] == b);
                    assert(node.children()[0] == a && node.children()[1] == b);
                    lemma_numbered(g, Op::MatMul, before[a], before[b]);
                },
                Node::EMul(a, b) => {
                    assert(operands[0] == a && operands[1] == b);
                    assert(node.children()[0] == a && node.children()[1] == b);
                    lemma_numbered(g, Op::EMul, before[a], before[b]);
                },
                Node::Transpose(a) => {
                    assert(operands[0] == a && node.children()[0] == a);
                    lemma_numbered(g, Op::Transpose, before[a], before[a]);
                },
                Node::Softmax(a) => {
                    assert(operands[0] == a && node.children()[0] == a);
                    lemma_numbered(g, Op::Softmax, before[a], before[a]);
                },
                Node::Relu(a) => {
                    assert(operands[0] == a && node.children()[0] == a);
                    lemma_numbered(g, Op::Relu, before[a], before[a]);
                },
                Node::Fuse(a) => {
                    assert(operands[0] == a && node.children()[0] == a);
                },
            }
        }
    }
}

/// What the rules for a program look like.
proof fn lemma_rule_forms(program: Seq<Node>, inputs: Map<Seq<char>, Seq<usize>>, i: int)
    requires
        0 <= i < rules_for(program, inputs).len(),
    ensures
        ({
            let e = rules_for(program, inputs)[i];
            &&& !(e.lhs is Any) && !(e.lhs is Fuse) && !(e.rhs is Any)
            &&& e.rhs is Fuse ==> e.rhs == Pattern::Fuse(Box::new(e.lhs))
        }),
{
    rules_move_only_numbers(program, inputs, i);
    let e = rules_for(program, inputs)[i];
    if exists|b: int| #[trigger] scales_at(e, program, inputs, b) {
        let b = choose|b: int| #[trigger] scales_at(e, program, inputs, b);
        let k = choose|k: int|
            0 <= k < 4 && e.lhs == (#[trigger] scale_distrib_rules()[k]).lhs && e.rhs
                == scale_distrib_rules()[k].rhs;
    } else {
        assert(unconditional_rules().len() == 6);
    }
}

/// The rules hold of the numbers if both sides of each have the same value.
proof fn lemma_rules_hold<V>(
    g: Algebra<V>,
    program: Seq<Node>,
    inputs: Map<Seq<char>, Seq<usize>>,
)
    requires
        well_ordered(program),
        g.covers(program),
        forall|i: int, hole: spec_fn(Hole) -> int|
            0 <= i < rules_for(program, inputs).len() && g.given(
                rules_for(program, inputs)[i],
                hole,
            ) ==> #[trigger] g.side(rules_for(program, inputs)[i].lhs, hole) == g.side(
                rules_for(program, inputs)[i].rhs,
                hole,
            ),
    ensures
        rules_hold(rules_for(program, inputs), g.meaning()),
        fuse_is_identity(g.meaning()),
{
    let meaning = g.meaning();
    let rules = rules_for(program, inputs);
    lemma_names();
    assert forall|v: int| #[trigger] meaning("fuse"@, seq![v]) == v by {}
    assert forall|i: int, hole: spec_fn(Hole) -> int|
        0 <= i < rules.len() && values_given(rules[i], meaning, hole) implies
        #[trigger] pattern_value(rules[i].lhs, meaning, hole) == pattern_value(
        rules[i].rhs,
        meaning,
        hole,
    ) by {
        let (lhs, rhs) = (rules[i].lhs, rules[i].rhs);
        lemma_pattern(g, lhs, hole);
        lemma_pattern(g, rhs, hole);
        lemma_rule_forms(program, inputs, i);
        assert(g.given(rules[i], hole)) by {
            rules_move_only_numbers(program, inputs, i);
            if rules[i].given is Some {
                let b = choose|b: int| #[trigger] scales_at(rules[i], program, inputs, b);
                let term = program.take(b + 1);
                assert forall|j: int| 0 <= j < term.len() implies (
                #[trigger] term[j]).operands_below(j) by {
                    assert(program[j].operands_below(j));
                }
                assert forall|j: int| 0 <= j < term.len() implies g.leaves.contains(
                    #[trigger] g.inputs(term)[j],
                ) by {
                    assert(g.inputs(term)[j] == g.inputs(program)[j]);
                }
                lemma_program(g, term, term.len());
            }
        }
        assert(g.side(lhs, hole) == g.side(rhs, hole));
        if rhs is Fuse {
            let x = pattern_value(lhs, meaning, hole);
            assert(pattern_value(rhs, meaning, hole) == meaning("fuse"@, seq![x]));
        }
    }
}

/// Programs that compute the same by the rules have the same value.
proof fn lemma_same_value<V>(
    g: Algebra<V>,
    program: Seq<Node>,
    rewritten: Seq<Node>,
    inputs: Map<Seq<char>, Seq<usize>>,
)
    requires
        program.len() > 0,
        rewritten.len() > 0,
        well_ordered(program),
        well_ordered(rewritten),
        g.leaves == g.inputs(rewritten) + g.inputs(program),
        computes_the_same(rules_for(program, inputs), rewritten, program),
        forall|i: int, hole: spec_fn(Hole) -> int|
            0 <= i < rules_for(program, inputs).len() && g.given(
                rules_for(program, inputs)[i],
                hole,
            ) ==> #[trigger] g.side(rules_for(program, inputs)[i].lhs, hole) == g.side(
                rules_for(program, inputs)[i].rhs,
                hole,
            ),
    ensures
        g.node(rewritten, rewritten.len() - 1) == g.node(program, program.len() - 1),
{
    let (a, b) = (rewritten, program);
    assert forall|i: int| 0 <= i < a.len() implies g.leaves.contains(#[trigger] g.inputs(a)[i]) by {
        assert(g.leaves[i] == g.inputs(a)[i]);
    }
    assert forall|i: int| 0 <= i < b.len() implies g.leaves.contains(#[trigger] g.inputs(b)[i]) by {
        assert(g.leaves[a.len() + i] == g.inputs(b)[i]);
    }
    lemma_rules_hold(g, program, inputs);
    lemma_program(g, a, a.len());
    lemma_program(g, b, b.len());
}

// ---- Tensors ----

/// Whether a value, if there is one, has as many elements as its shape says.
spec fn sound_value<T>(v: Option<Tensor<T>>) -> bool {
    v matches Some(t) ==> t.well_formed()
}

/// The operators on tensors. Without operands that fit there is no value.
spec fn combined<T: Scalar>(
    op: Op,
    a: Option<Tensor<T>>,
    b: Option<Tensor<T>>,
) -> Option<Tensor<T>> {
    match (a, b) {
        (Some(x), Some(y)) => match op {
            Op::MatMul => matmul_value(x, y),
            Op::Transpose => transpose_value(x),
            Op::EMul => emul_value(x, y),
            Op::Softmax => softmax_value(x),
            Op::Relu => Some(Tensor { shape: x.shape, data: rectified(x.data) }),
        },
        _ => None,
    }
}

/// The tensors, with the inputs that `env` gives.
spec fn tensors<T: Scalar>(
    env: Map<Seq<char>, TensorData<T>>,
    leaves: Seq<Option<Tensor<T>>>,
) -> Algebra<Option<Tensor<T>>> {
    Algebra {
        apply: |op: Op, a: Option<Tensor<T>>, b: Option<Tensor<T>>| combined(op, a, b),
        input: |name: Seq<char>|
            if env.dom().contains(name) {
                Some(env[name]@)
            } else {
                None
            },
        none: None,
        leaves,
    }
}

proof fn lemma_combined_sound<T: Scalar>(
    op: Op,
    a: Option<Tensor<T>>,
    b: Option<Tensor<T>>,
)
    requires
        sound_value(a),
        sound_value(b),
    ensures
        sound_value(combined(op, a, b)),
{
    if let (Some(x), Some(y), Some(t)) = (a, b, combined(op, a, b)) {
        match op {
            Op::MatMul => {
                lemma_matmul_rows(x, y);
            },
            Op::Transpose => {
                lemma_transpose_rows(x);
            },
            Op::EMul => {},
            Op::Softmax => {
                let width = x.shape.last() as int;
                let rows = numel(x.shape.drop_last());
                let row = |i: int| softmax_row(row_of(x.data, width, i));
                assert forall|i: int| 0 <= i < rows implies (#[trigger] row(i)).len() == width by {
                    lemma_row_fits(i, rows as int, width);
                }
                lemma_stacked(row, width, rows);
            },
            Op::Relu => {},
        }
    }
}

proof fn lemma_value_sound<T: Scalar>(
    env: Map<Seq<char>, TensorData<T>>,
    leaves: Seq<Option<Tensor<T>>>,
    n: int,
)
    requires
        forall|i: int| 0 <= i < leaves.len() ==> sound_value(#[trigger] leaves[i]),
    ensures
        sound_value(tensors(env, leaves).value_of(n)),
    decreases n,
{
    let g = tensors(env, leaves);
    if n >= 0 && n % 6 != 0 {
        let (x, y) = unpaired(n / 6);
        if 0 <= x < n && 0 <= y < n {
            lemma_value_sound(env, leaves, x);
            lemma_value_sound(env, leaves, y);
            lemma_combined_sound(numbered_op(n % 6), g.value_of(x), g.value_of(y));
        }
    }
}

proof fn lemma_assoc_values<T: Scalar>(
    a: Option<Tensor<T>>,
    b: Option<Tensor<T>>,
    c: Option<Tensor<T>>,
)
    requires
        ring::<T>(),
        sound_value(a),
        sound_value(b),
        sound_value(c),
    ensures
        combined(Op::MatMul, combined(Op::MatMul, a, b), c) == combined(
            Op::MatMul,
            a,
            combined(Op::MatMul, b, c),
        ),
{
    if let (Some(x), Some(y), Some(z)) = (a, b, c) {
        if matmul_value(x, y) is Some && matmul_value(y, z) is Some {
            lemma_matmul_assoc(x, y, z);
        }
    }
}

proof fn lemma_transpose_values<T: Scalar>(
    a: Option<Tensor<T>>,
    b: Option<Tensor<T>>,
)
    requires
        ring::<T>(),
        sound_value(a),
        sound_value(b),
    ensures
        ({
            let product = combined(Op::MatMul, a, b);
            combined(Op::Transpose, product, product) == combined(
                Op::MatMul,
                combined(Op::Transpose, b, b),
                combined(Op::Transpose, a, a),
            )
        }),
{
    if let (Some(x), Some(y)) = (a, b) {
        if matmul_value(x, y) is Some {
            lemma_transpose_matmul(x, y);
        }
    }
}

proof fn lemma_scale_values<T: Scalar>(
    a: Option<Tensor<T>>,
    b: Option<Tensor<T>>,
    s: Option<Tensor<T>>,
)
    requires
        ring::<T>(),
        sound_value(a),
        sound_value(b),
        s matches Some(z) ==> z.shape == scalar_shape(),
    ensures
        combined(Op::MatMul, combined(Op::EMul, a, s), b) == combined(
            Op::EMul,
            combined(Op::MatMul, a, b),
            s,
        ),
        combined(Op::MatMul, a, combined(Op::EMul, b, s)) == combined(
            Op::EMul,
            combined(Op::MatMul, a, b),
            s,
        ),
{
    lemma_numel_one(scalar_shape());
    if let (Some(x), Some(y), Some(z)) = (a, b, s) {
        assert(emul_value(x, z) == Some(scaled(x, z.data[0])));
        assert(emul_value(y, z) == Some(scaled(y, z.data[0])));
        if matmul_value(x, y) is Some {
            lemma_ring_factors::<T>();
            lemma_scale_distrib(x, y, z.data[0]);
        }
    }
}

/// A value is what the interpreter gives.
proof fn lemma_interpreted<T: Scalar>(
    env: Map<Seq<char>, TensorData<T>>,
    leaves: Seq<Option<Tensor<T>>>,
    nodes: Seq<Node>,
    i: int,
)
    ensures
        tensors(env, leaves).node(nodes, i) == evaluated(nodes, env, i),
    decreases i,
{
    if 0 <= i < nodes.len() {
        match nodes[i] {
            Node::Var(_) => {},
            Node::MatMul(a, b) | Node::EMul(a, b) => {
                if 0 <= a < i && 0 <= b < i {
                    lemma_interpreted(env, leaves, nodes, a);
                    lemma_interpreted(env, leaves, nodes, b);
                }
            },
            Node::Transpose(a) | Node::Softmax(a) | Node::Relu(a) | Node::Fuse(a) => {
                if 0 <= a < i {
                    lemma_interpreted(env, leaves, nodes, a);
                }
            },
        }
    }
}

/// Both sides of every rule are the same tensor.
proof fn lemma_tensor_rule<T: Scalar>(
    env: Map<Seq<char>, TensorData<T>>,
    leaves: Seq<Option<Tensor<T>>>,
    program: Seq<Node>,
    i: int,
    hole: spec_fn(Hole) -> int,
)
    requires
        ring::<T>(),
        0 <= i < rules_for(program, env_shapes(env)).len(),
        forall|k: int| 0 <= k < leaves.len() ==> sound_value(#[trigger] leaves[k]),
        tensors(env, leaves).given(rules_for(program, env_shapes(env))[i], hole),
    ensures
        ({
            let (g, e) = (tensors(env, leaves), rules_for(program, env_shapes(env))[i]);
            g.side(e.lhs, hole) == g.side(e.rhs, hole)
        }),
{
    let g = tensors(env, leaves);
    let e = rules_for(program, env_shapes(env))[i];
    reveal_with_fuel(Algebra::term, 5);
    let (na, nb, nc, ns) = (hole(Hole::A), hole(Hole::B), hole(Hole::C), hole(Hole::S));
    let (a, b, c, s) = (g.value_of(na), g.value_of(nb), g.value_of(nc), g.value_of(ns));
    lemma_value_sound(env, leaves, na);
    lemma_value_sound(env, leaves, nb);
    lemma_value_sound(env, leaves, nc);
    rules_move_only_numbers(program, env_shapes(env), i);
    if exists|at: int| #[trigger] scales_at(e, program, env_shapes(env), at) {
        let at = choose|at: int| #[trigger] scales_at(e, program, env_shapes(env), at);
        let term = program.take(at + 1);
        lemma_prefix_shape(term, program, env_shapes(env), at);
        lemma_interpreted(env, leaves, term, at);
        if s is Some {
            inferred_shapes_are_those_of_values(term, env, at);
        }
        lemma_scale_values(a, b, s);
        let k = choose|k: int|
            0 <= k < 4 && e.lhs == (#[trigger] scale_distrib_rules()[k]).lhs && e.rhs
                == scale_distrib_rules()[k].rhs;
        assert(k == 0 || k == 1 || k == 2 || k == 3);
    } else {
        assert(unconditional_rules().len() == 6);
        if i < 2 {
            lemma_assoc_values(a, b, c);
        } else if i == 2 {
            lemma_transpose_values(a, b);
        } else if i == 3 {
            lemma_transpose_values(b, a);
        }
    }
}

/// Programs that compute the same by the rules evaluate alike: in exact arithmetic the reference
/// interpreter gives what was rewritten the value of the program that it was rewritten from, and
/// no value where that has none. The rules are those for the shapes of the inputs.
pub proof fn equal_programs_evaluate_alike<T: Scalar>(
    program: Seq<Node>,
    rewritten: Seq<Node>,
    env: Map<Seq<char>, TensorData<T>>,
)
    requires
        ring::<T>(),
        env_well_formed(env),
        program.len() > 0,
        rewritten.len() > 0,
        well_ordered(program),
        well_ordered(rewritten),
        computes_the_same(rules_for(program, env_shapes(env)), rewritten, program),
    ensures
        evaluated(rewritten, env, rewritten.len() - 1) == evaluated(
            program,
            env,
            program.len() - 1,
        ),
{
    let rules = rules_for(program, env_shapes(env));
    let bare = tensors(env, seq![]);
    let leaves = bare.inputs(rewritten) + bare.inputs(program);
    let g = tensors(env, leaves);
    assert(g.inputs(rewritten) =~= bare.inputs(rewritten));
    assert(g.inputs(program) =~= bare.inputs(program));
    assert forall|k: int| 0 <= k < leaves.len() implies sound_value(#[trigger] leaves[k]) by {}
    assert forall|i: int, hole: spec_fn(Hole) -> int|
        0 <= i < rules.len() && g.given(rules[i], hole) implies #[trigger] g.side(
        rules[i].lhs,
        hole,
    ) == g.side(rules[i].rhs, hole) by {
        lemma_tensor_rule(env, leaves, program, i, hole);
    }
    lemma_same_value(g, program, rewritten, env_shapes(env));
    lemma_interpreted(env, leaves, rewritten, rewritten.len() - 1);
    lemma_interpreted(env, leaves, program, program.len() - 1);
}

/// Rewriting does not change a tensor: what the search for a program puts into its e-class
/// evaluates like the program, in exact arithmetic.
pub proof fn rewriting_keeps_tensors<T: Scalar>(
    run: Saturated,
    program: Seq<Node>,
    rewritten: Seq<Node>,
    env: Map<Seq<char>, TensorData<T>>,
)
    requires
        ring::<T>(),
        env_well_formed(env),
        run.searched(program, rules_for(program, env_shapes(env))),
        well_ordered(program),
        well_ordered(rewritten),
        same_class(run.classes(), rewritten, program),
    ensures
        evaluated(rewritten, env, rewritten.len() - 1) == evaluated(
            program,
            env,
            program.len() - 1,
        ),
{
    let rules = rules_for(program, env_shapes(env));
    assert forall|meaning: spec_fn(Seq<char>, Seq<int>) -> int|
        #![trigger rules_hold(rules, meaning)]
        rules_hold(rules, meaning) && fuse_is_identity(meaning) implies program_value(
        rewritten,
        meaning,
    ) == program_value(program, meaning) by {
        one_class_one_value(run, rules, rewritten, program, meaning);
    }
    equal_programs_evaluate_alike(program, rewritten, env);
}

/// Extraction does not change a tensor: whatever plan is extracted for a program, it evaluates like
/// the program, in exact arithmetic.
pub proof fn extraction_keeps_tensors<T: Scalar>(
    shaped: Shaped,
    program: Seq<Node>,
    p: Problem,
    root: int,
    env: Map<Seq<char>, TensorData<T>>,
)
    requires
        ring::<T>(),
        env_well_formed(env),
        shaped_from(shaped, program, env_shapes(env)),
        represents(p.graph, shaped.run.classes()),
        well_ordered(program),
        class_of_program(shaped.run.classes(), symbolics(program)) == Some(root),
        extraction(p, root) is Some,
    ensures
        ({
            let plan = extraction(p, root).unwrap();
            evaluated(plan, env, plan.len() - 1) == evaluated(program, env, program.len() - 1)
        }),
{
    let plan = extraction(p, root).unwrap();
    let rules = rules_for(program, env_shapes(env));
    extraction_computes_the_same(shaped.run, rules, program, p, root);
    equal_programs_evaluate_alike(program, plan, env);
}

// ---- Shapes and inputs ----

/// The operators on shapes.
spec fn combined_shape(
    op: Op,
    a: Option<Seq<usize>>,
    b: Option<Seq<usize>>,
) -> Option<Seq<usize>> {
    match (a, b) {
        (Some(x), Some(y)) => match op {
            Op::MatMul => matmul_shape(x, y),
            Op::Transpose => transpose_shape(x),
            Op::EMul => emul_shape(x, y),
            Op::Softmax | Op::Relu => Some(x),
        },
        _ => None,
    }
}

/// The shapes, with the inputs that `shapes` gives.
spec fn shape_algebra(
    shapes: Map<Seq<char>, Seq<usize>>,
    leaves: Seq<Option<Seq<usize>>>,
) -> Algebra<Option<Seq<usize>>> {
    Algebra {
        apply: |op: Op, a: Option<Seq<usize>>, b: Option<Seq<usize>>|
            combined_shape(op, a, b),
        input: |name: Seq<char>|
            if shapes.dom().contains(name) {
                Some(shapes[name])
            } else {
                None
            },
        none: None,
        leaves,
    }
}

/// The names of the inputs that a value is computed from.
spec fn name_algebra(leaves: Seq<Set<Seq<char>>>) -> Algebra<Set<Seq<char>>> {
    Algebra {
        apply: |op: Op, a: Set<Seq<char>>, b: Set<Seq<char>>| a.union(b),
        input: |name: Seq<char>| Set::empty().insert(name),
        none: Set::empty(),
        leaves,
    }
}

proof fn lemma_assoc_shapes(
    a: Option<Seq<usize>>,
    b: Option<Seq<usize>>,
    c: Option<Seq<usize>>,
)
    ensures
        combined_shape(Op::MatMul, combined_shape(Op::MatMul, a, b), c)
            == combined_shape(Op::MatMul, a, combined_shape(Op::MatMul, b, c)),
{
}

proof fn lemma_transpose_shapes(a: Option<Seq<usize>>, b: Option<Seq<usize>>)
    ensures
        ({
            let product = combined_shape(Op::MatMul, a, b);
            combined_shape(Op::Transpose, product, product) == combined_shape(
                Op::MatMul,
                combined_shape(Op::Transpose, b, b),
                combined_shape(Op::Transpose, a, a),
            )
        }),
{
}

proof fn lemma_scale_shapes(a: Option<Seq<usize>>, b: Option<Seq<usize>>, s: Option<Seq<usize>>)
    requires
        s == Some(scalar_shape()),
    ensures
        combined_shape(Op::MatMul, combined_shape(Op::EMul, a, s), b)
            == combined_shape(Op::EMul, combined_shape(Op::MatMul, a, b), s),
        combined_shape(Op::MatMul, a, combined_shape(Op::EMul, b, s))
            == combined_shape(Op::EMul, combined_shape(Op::MatMul, a, b), s),
{
    lemma_numel_one(scalar_shape());
}

/// Both sides of every rule have the same shape.
proof fn lemma_shape_rule(
    shapes: Map<Seq<char>, Seq<usize>>,
    leaves: Seq<Option<Seq<usize>>>,
    program: Seq<Node>,
    i: int,
    hole: spec_fn(Hole) -> Option<Seq<usize>>,
)
    requires
        0 <= i < rules_for(program, shapes).len(),
        rules_for(program, shapes)[i].given is Some ==> hole(Hole::S) == Some(scalar_shape()),
    ensures
        ({
            let (g, e) = (shape_algebra(shapes, leaves), rules_for(program, shapes)[i]);
            g.term(e.lhs, hole) == g.term(e.rhs, hole)
        }),
{
    reveal_with_fuel(Algebra::term, 5);
    let e = rules_for(program, shapes)[i];
    let (a, b, c, s) = (hole(Hole::A), hole(Hole::B), hole(Hole::C), hole(Hole::S));
    rules_move_only_numbers(program, shapes, i);
    if exists|at: int| #[trigger] scales_at(e, program, shapes, at) {
        lemma_scale_shapes(a, b, s);
        let k = choose|k: int|
            0 <= k < 4 && e.lhs == (#[trigger] scale_distrib_rules()[k]).lhs && e.rhs
                == scale_distrib_rules()[k].rhs;
        assert(k == 0 || k == 1 || k == 2 || k == 3);
    } else {
        assert(unconditional_rules().len() == 6);
        if i < 2 {
            lemma_assoc_shapes(a, b, c);
        } else if i == 2 {
            lemma_transpose_shapes(a, b);
        } else if i == 3 {
            lemma_transpose_shapes(b, a);
        }
    }
}

/// The term that a rule is given is known to be a number.
proof fn lemma_given_shape(
    shapes: Map<Seq<char>, Seq<usize>>,
    leaves: Seq<Option<Seq<usize>>>,
    program: Seq<Node>,
    i: int,
)
    requires
        0 <= i < rules_for(program, shapes).len(),
    ensures
        rules_for(program, shapes)[i].given matches Some(term) ==> shape_algebra(
            shapes,
            leaves,
        ).node(term, term.len() - 1) == Some(scalar_shape()),
{
    let e = rules_for(program, shapes)[i];
    rules_move_only_numbers(program, shapes, i);
    if e.given is Some {
        let at = choose|at: int| #[trigger] scales_at(e, program, shapes, at);
        let term = program.take(at + 1);
        lemma_prefix_shape(term, program, shapes, at);
        lemma_inferred(shapes, leaves, term, at);
    }
}

/// Both sides of every rule are computed from the same inputs.
proof fn lemma_name_rule(
    leaves: Seq<Set<Seq<char>>>,
    program: Seq<Node>,
    inputs: Map<Seq<char>, Seq<usize>>,
    i: int,
    hole: spec_fn(Hole) -> int,
)
    requires
        0 <= i < rules_for(program, inputs).len(),
    ensures
        ({
            let (g, e) = (name_algebra(leaves), rules_for(program, inputs)[i]);
            g.side(e.lhs, hole) == g.side(e.rhs, hole)
        }),
{
    reveal_with_fuel(Algebra::term, 5);
    let e = rules_for(program, inputs)[i];
    let g = name_algebra(leaves);
    rules_move_only_numbers(program, inputs, i);
    if exists|at: int| #[trigger] scales_at(e, program, inputs, at) {
        let k = choose|k: int|
            0 <= k < 4 && e.lhs == (#[trigger] scale_distrib_rules()[k]).lhs && e.rhs
                == scale_distrib_rules()[k].rhs;
        assert(k == 0 || k == 1 || k == 2 || k == 3);
        assert(g.side(e.lhs, hole) =~= g.side(e.rhs, hole));
    } else {
        assert(unconditional_rules().len() == 6);
        assert(g.side(e.lhs, hole) =~= g.side(e.rhs, hole));
    }
}

proof fn lemma_inferred(
    shapes: Map<Seq<char>, Seq<usize>>,
    leaves: Seq<Option<Seq<usize>>>,
    nodes: Seq<Node>,
    i: int,
)
    ensures
        shape_algebra(shapes, leaves).node(nodes, i) == inferred_shape(nodes, shapes, i),
    decreases i,
{
    if 0 <= i < nodes.len() {
        match nodes[i] {
            Node::Var(_) => {},
            Node::MatMul(a, b) | Node::EMul(a, b) => {
                if 0 <= a < i && 0 <= b < i {
                    lemma_inferred(shapes, leaves, nodes, a);
                    lemma_inferred(shapes, leaves, nodes, b);
                }
            },
            Node::Transpose(a) | Node::Softmax(a) | Node::Relu(a) | Node::Fuse(a) => {
                if 0 <= a < i {
                    lemma_inferred(shapes, leaves, nodes, a);
                }
            },
        }
    }
}

proof fn lemma_used(leaves: Seq<Set<Seq<char>>>, nodes: Seq<Node>, i: int)
    ensures
        name_algebra(leaves).node(nodes, i) == inputs_used(nodes, i),
    decreases i,
{
    if 0 <= i < nodes.len() {
        match nodes[i] {
            Node::Var(_) => {},
            Node::MatMul(a, b) | Node::EMul(a, b) => {
                if 0 <= a < i && 0 <= b < i {
                    lemma_used(leaves, nodes, a);
                    lemma_used(leaves, nodes, b);
                }
            },
            Node::Transpose(a) | Node::Softmax(a) | Node::Relu(a) | Node::Fuse(a) => {
                if 0 <= a < i {
                    lemma_used(leaves, nodes, a);
                }
            },
        }
    }
    assert(name_algebra(leaves).node(nodes, i) =~= inputs_used(nodes, i));
}

/// Rewriting changes neither the shape of a program nor the inputs that it is computed from.
pub proof fn equal_programs_have_equal_ends(
    program: Seq<Node>,
    rewritten: Seq<Node>,
    shapes: Map<Seq<char>, Seq<usize>>,
)
    requires
        program.len() > 0,
        rewritten.len() > 0,
        well_ordered(program),
        well_ordered(rewritten),
        computes_the_same(rules_for(program, shapes), rewritten, program),
    ensures
        inferred_shape(rewritten, shapes, rewritten.len() - 1) == inferred_shape(
            program,
            shapes,
            program.len() - 1,
        ),
        inputs_used(rewritten, rewritten.len() - 1) == inputs_used(program, program.len() - 1),
{
    let rules = rules_for(program, shapes);

    let bare = shape_algebra(shapes, seq![]);
    let leaves = bare.inputs(rewritten) + bare.inputs(program);
    let g = shape_algebra(shapes, leaves);
    assert(g.inputs(rewritten) =~= bare.inputs(rewritten));
    assert(g.inputs(program) =~= bare.inputs(program));
    assert forall|i: int, hole: spec_fn(Hole) -> int|
        0 <= i < rules.len() && g.given(rules[i], hole) implies #[trigger] g.side(
        rules[i].lhs,
        hole,
    ) == g.side(rules[i].rhs, hole) by {
        lemma_given_shape(shapes, leaves, program, i);
        lemma_shape_rule(shapes, leaves, program, i, |h: Hole| g.value_of(hole(h)));
    }
    lemma_same_value(g, program, rewritten, shapes);
    lemma_inferred(shapes, leaves, rewritten, rewritten.len() - 1);
    lemma_inferred(shapes, leaves, program, program.len() - 1);

    let none: Seq<Set<Seq<char>>> = seq![];
    let bare = name_algebra(none);
    let names = bare.inputs(rewritten) + bare.inputs(program);
    let h = name_algebra(names);
    assert(h.inputs(rewritten) =~= bare.inputs(rewritten));
    assert(h.inputs(program) =~= bare.inputs(program));
    assert forall|i: int, hole: spec_fn(Hole) -> int|
        0 <= i < rules.len() && h.given(rules[i], hole) implies #[trigger] h.side(
        rules[i].lhs,
        hole,
    ) == h.side(rules[i].rhs, hole) by {
        lemma_name_rule(names, program, shapes, i, hole);
    }
    lemma_same_value(h, program, rewritten, shapes);
    lemma_used(names, rewritten, rewritten.len() - 1);
    lemma_used(names, program, program.len() - 1);
}

/// Whatever the search finds, a plan that is one fused region moves the bytes that the program
/// moves when it is fused as a whole.
pub proof fn fused_plans_move_the_same_bytes(
    program: Seq<Node>,
    plan: Seq<Node>,
    shapes: Map<Seq<char>, Seq<usize>>,
)
    requires
        program.len() > 0,
        plan.len() > 0,
        well_ordered(program),
        well_ordered(plan),
        plan.last() is Fuse,
        computes_the_same(rules_for(program, shapes), plan, program),
        inferred_shape(program, shapes, program.len() - 1) is Some,
    ensures
        ({
            let fused = tally(fused_plan(program), shapes, program.len() as int);
            let found = tally(plan, shapes, plan.len() - 1);
            fused is Some && found is Some && found.unwrap().hbm == fused.unwrap().hbm
        }),
{
    equal_programs_have_equal_ends(program, plan, shapes);
    let a = plan.last()->Fuse_0;
    let last = plan.len() - 1;
    assert(plan[last].operands_below(last));
    assert(plan[last].children() =~= seq![a]);
    assert(plan[last].children()[0] == a);
    assert(inferred_shape(plan, shapes, last) == inferred_shape(plan, shapes, a));
    assert(inputs_used(plan, last) == inputs_used(plan, a));
    let (longer, end) = (fused_plan(program), program.len() - 1);
    assert(program =~= longer.take(program.len() as int));
    lemma_prefix_shape(program, longer, shapes, end);
    lemma_prefix_used(program, longer, end);
    fused_traffic_depends_on_the_ends(longer, end, plan, a, shapes);
    assert(longer[program.len() as int] == Node::Fuse(end));
}

/// What a node is inferred to be does not depend on what follows it.
proof fn lemma_prefix_shape(
    a: Seq<Node>,
    b: Seq<Node>,
    shapes: Map<Seq<char>, Seq<usize>>,
    i: int,
)
    requires
        a.len() <= b.len(),
        a == b.take(a.len() as int),
        i < a.len(),
    ensures
        inferred_shape(b, shapes, i) == inferred_shape(a, shapes, i),
    decreases i,
{
    if 0 <= i {
        assert(b[i] == a[i]);
        match a[i] {
            Node::Var(_) => {},
            Node::MatMul(x, y) | Node::EMul(x, y) => {
                if 0 <= x < i && 0 <= y < i {
                    lemma_prefix_shape(a, b, shapes, x);
                    lemma_prefix_shape(a, b, shapes, y);
                }
            },
            Node::Transpose(x) | Node::Softmax(x) | Node::Relu(x) | Node::Fuse(x) => {
                if 0 <= x < i {
                    lemma_prefix_shape(a, b, shapes, x);
                }
            },
        }
    }
}

proof fn lemma_prefix_used(a: Seq<Node>, b: Seq<Node>, i: int)
    requires
        a.len() <= b.len(),
        a == b.take(a.len() as int),
        i < a.len(),
    ensures
        inputs_used(b, i) == inputs_used(a, i),
    decreases i,
{
    if 0 <= i {
        assert(b[i] == a[i]);
        match a[i] {
            Node::Var(_) => {},
            Node::MatMul(x, y) | Node::EMul(x, y) => {
                if 0 <= x < i && 0 <= y < i {
                    lemma_prefix_used(a, b, x);
                    lemma_prefix_used(a, b, y);
                }
            },
            Node::Transpose(x) | Node::Softmax(x) | Node::Relu(x) | Node::Fuse(x) => {
                if 0 <= x < i {
                    lemma_prefix_used(a, b, x);
                }
            },
        }
    }
}

/// The shape of a node, where the shapes of its operands are given by `shape`.
pub open spec fn shape_at(
    inputs: Map<Seq<char>, Seq<usize>>,
    shape: spec_fn(int) -> Option<Seq<usize>>,
    node: Node,
) -> Option<Seq<usize>> {
    match node {
        Node::Var(name) => if inputs.dom().contains(name) {
            Some(inputs[name])
        } else {
            None
        },
        Node::MatMul(a, b) => match (shape(a), shape(b)) {
            (Some(x), Some(y)) => matmul_shape(x, y),
            _ => None,
        },
        Node::EMul(a, b) => match (shape(a), shape(b)) {
            (Some(x), Some(y)) => emul_shape(x, y),
            _ => None,
        },
        Node::Transpose(a) => match shape(a) {
            Some(x) => transpose_shape(x),
            None => None,
        },
        Node::Softmax(a) | Node::Relu(a) | Node::Fuse(a) => shape(a),
    }
}

/// Whether `shape` gives each e-class one shape, or none, and every node of the class has it.
pub open spec fn shapes_classes(
    classes: Map<int, Set<(Seq<char>, Seq<int>)>>,
    inputs: Map<Seq<char>, Seq<usize>>,
    shape: spec_fn(int) -> Option<Seq<usize>>,
) -> bool {
    forall|id: int, node: Node|
        classes.dom().contains(id) && #[trigger] classes[id].contains(symbolic(node)) ==> shape(id)
            == shape_at(inputs, shape, node)
}

/// Whether `shape` gives the e-classes of a program the shapes that are inferred.
pub open spec fn shapes_program(
    classes: Map<int, Set<(Seq<char>, Seq<int>)>>,
    program: Seq<Node>,
    inputs: Map<Seq<char>, Seq<usize>>,
    shape: spec_fn(int) -> Option<Seq<usize>>,
) -> bool {
    forall|i: int|
        0 <= i < program.len() ==> shape(
            #[trigger] classes_of(classes, symbolics(program), program.len()).unwrap()[i],
        ) == inferred_shape(program, inputs, i)
}

/// A node of the same name as an input is an input.
proof fn lemma_input_names(program: Seq<Node>, name: Seq<char>)
    requires
        symbolics(program).contains((name, Seq::<int>::empty())),
    ensures
        program.contains(Node::Var(name)),
{
    let n = (name, Seq::<int>::empty());
    let i = choose|i: int| 0 <= i < symbolics(program).len() && symbolics(program)[i] == n;
    assert(symbolics(program)[i] == symbolic(program[i]));
    assert(symbolic(program[i]).1.len() == 0);
    assert(program[i] == Node::Var(name));
}

/// The shape of a node of an e-class, by the numbers.
proof fn lemma_node_shape(
    shapes: Map<Seq<char>, Seq<usize>>,
    program: Seq<Node>,
    node: Node,
    of: spec_fn(int) -> int,
    id: int,
)
    requires
        ({
            let g = shape_algebra(shapes, shape_algebra(shapes, seq![]).inputs(program));
            g.meaning()(symbolic(node).0, symbolic(node).1.map_values(of)) == of(id)
        }),
        node matches Node::Var(name) ==> program.contains(node),
    ensures
        ({
            let g = shape_algebra(shapes, shape_algebra(shapes, seq![]).inputs(program));
            g.value_of(of(id)) == shape_at(shapes, |k: int| g.value_of(of(k)), node)
        }),
{
    let bare = shape_algebra(shapes, seq![]);
    let g = shape_algebra(shapes, bare.inputs(program));
    let n = symbolic(node);
    let args = n.1.map_values(of);
    lemma_names();
    match node {
        Node::Var(name) => {
            let at = choose|at: int| 0 <= at < program.len() && program[at] == node;
            assert(g.leaves[at] == (g.input)(name));
            assert((6 * at) % 6 == 0 && (6 * at) / 6 == at);
            assert(g.value_of(6 * at) == (g.input)(name));
            assert(args.len() == 0);
        },
        Node::MatMul(a, b) => {
            assert(args[0] == of(a) && args.last() == of(b));
            lemma_numbered(g, Op::MatMul, of(a), of(b));
        },
        Node::EMul(a, b) => {
            assert(args[0] == of(a) && args.last() == of(b));
            lemma_numbered(g, Op::EMul, of(a), of(b));
        },
        Node::Transpose(a) => {
            assert(args[0] == of(a) && args.last() == of(a));
            lemma_numbered(g, Op::Transpose, of(a), of(a));
        },
        Node::Softmax(a) => {
            assert(args[0] == of(a) && args.last() == of(a));
            lemma_numbered(g, Op::Softmax, of(a), of(a));
        },
        Node::Relu(a) => {
            assert(args[0] == of(a) && args.last() == of(a));
            lemma_numbered(g, Op::Relu, of(a), of(a));
        },
        Node::Fuse(a) => {
            assert(args[0] == of(a));
        },
    }
}

/// Equivalent terms share a shape: whatever a search finds, its e-classes can be given shapes such
/// that every node has the shape of its e-class, and the nodes of the program those that are
/// inferred.
pub proof fn classes_have_shapes(
    run: Saturated,
    program: Seq<Node>,
    inputs: Map<Seq<char>, Seq<usize>>,
)
    requires
        run.searched(program, rules_for(program, inputs)),
        well_ordered(program),
    ensures
        exists|shape: spec_fn(int) -> Option<Seq<usize>>| #[trigger]
            shapes_classes(run.classes(), inputs, shape) && #[trigger] shapes_program(
                run.classes(),
                program,
                inputs,
                shape,
            ),
{
    let classes = run.classes();
    let rules = rules_for(program, inputs);
    let bare = shape_algebra(inputs, seq![]);
    let leaves = bare.inputs(program);
    let g = shape_algebra(inputs, leaves);
    let meaning = g.meaning();
    assert(g.inputs(program) =~= bare.inputs(program));
    assert forall|i: int| 0 <= i < program.len() implies g.leaves.contains(
        #[trigger] g.inputs(program)[i],
    ) by {
        assert(g.leaves[i] == g.inputs(program)[i]);
    }
    assert forall|i: int, hole: spec_fn(Hole) -> int|
        0 <= i < rules.len() && g.given(rules[i], hole) implies #[trigger] g.side(
        rules[i].lhs,
        hole,
    ) == g.side(rules[i].rhs, hole) by {
        lemma_given_shape(inputs, leaves, program, i);
        lemma_shape_rule(inputs, leaves, program, i, |h: Hole| g.value_of(hole(h)));
    }
    lemma_rules_hold(g, program, inputs);
    let of = choose|of: spec_fn(int) -> int| #[trigger] values_classes(classes, meaning, of);
    let shape = |id: int| g.value_of(of(id));
    assert(shapes_classes(classes, inputs, shape)) by {
        assert forall|id: int, node: Node|
            classes.dom().contains(id) && #[trigger] classes[id].contains(
                symbolic(node),
            ) implies shape(id) == shape_at(inputs, shape, node) by {
            if let Node::Var(name) = node {
                assert(symbolic(node).1 =~= Seq::<int>::empty());
                lemma_input_names(program, name);
            }
            lemma_node_shape(inputs, program, node, of, id);
        }
    }
    assert(shapes_program(classes, program, inputs, shape)) by {
        lemma_in_order(program);
        lemma_values_of_classes(classes, symbolics(program), meaning, of, program.len());
        lemma_program(g, program, program.len());
        let ids = classes_of(classes, symbolics(program), program.len()).unwrap();
        let all = values(symbolics(program), meaning, program.len());
        assert forall|i: int| 0 <= i < program.len() implies shape(#[trigger] ids[i])
            == inferred_shape(program, inputs, i) by {
            assert(all[i] == of(ids[i]));
            lemma_inferred(inputs, leaves, program, i);
        }
    }
}

// ---- Sizes ----

/// How large a term is, in a measure that rewriting keeps: its leaves, and those counted once more
/// for each transpose above them, with one for each softmax and relu.
spec fn combined_size(op: Op, a: (int, int), b: (int, int)) -> (int, int) {
    match op {
        Op::MatMul | Op::EMul => (a.0 + b.0, a.1 + b.1),
        Op::Transpose => (a.0, a.1 + a.0),
        Op::Softmax | Op::Relu => (a.0, a.1 + 1),
    }
}

spec fn size_algebra() -> Algebra<(int, int)> {
    Algebra {
        apply: |op: Op, a: (int, int), b: (int, int)| combined_size(op, a, b),
        input: |name: Seq<char>| (1, 1),
        none: (1, 1),
        leaves: seq![(1, 1)],
    }
}

proof fn lemma_sizes_are_positive(n: int)
    ensures
        size_algebra().value_of(n).0 >= 1,
        size_algebra().value_of(n).1 >= 1,
    decreases n,
{
    if n >= 0 && n % 6 != 0 {
        let (x, y) = unpaired(n / 6);
        if 0 <= x < n && 0 <= y < n {
            lemma_sizes_are_positive(x);
            lemma_sizes_are_positive(y);
        }
    }
}

/// Whether `rank` falls from every node that computes to its operands.
pub open spec fn ranks(graph: Seq<Seq<Node>>, rank: spec_fn(int) -> int) -> bool {
    forall|id: int, i: int, k: int|
        #![trigger graph[id][i].children()[k]]
        0 <= id < graph.len() && 0 <= i < graph[id].len() && !(graph[id][i] is Fuse) && 0 <= k
            < graph[id][i].children().len() ==> rank(graph[id][i].children()[k]) < rank(id)
}

/// Both sides of every rule have the same size.
proof fn lemma_size_rule(
    program: Seq<Node>,
    inputs: Map<Seq<char>, Seq<usize>>,
    i: int,
    hole: spec_fn(Hole) -> (int, int),
)
    requires
        0 <= i < rules_for(program, inputs).len(),
    ensures
        ({
            let (g, e) = (size_algebra(), rules_for(program, inputs)[i]);
            g.term(e.lhs, hole) == g.term(e.rhs, hole)
        }),
{
    reveal_with_fuel(Algebra::term, 5);
    let e = rules_for(program, inputs)[i];
    rules_move_only_numbers(program, inputs, i);
    if exists|at: int| #[trigger] scales_at(e, program, inputs, at) {
        let k = choose|k: int|
            0 <= k < 4 && e.lhs == (#[trigger] scale_distrib_rules()[k]).lhs && e.rhs
                == scale_distrib_rules()[k].rhs;
        assert(k == 0 || k == 1 || k == 2 || k == 3);
    } else {
        assert(unconditional_rules().len() == 6);
    }
}

/// A node that computes is larger than its operands.
proof fn lemma_operands_are_smaller(
    node: Node,
    of: spec_fn(int) -> int,
    id: int,
    k: int,
)
    requires
        size_algebra().meaning()(symbolic(node).0, symbolic(node).1.map_values(of)) == of(id),
        !(node is Fuse),
        0 <= k < node.children().len(),
    ensures
        size_algebra().value_of(of(node.children()[k])).1 < size_algebra().value_of(of(id)).1,
{
    let g = size_algebra();
    let n = symbolic(node);
    let args = n.1.map_values(of);
    lemma_names();
    assert(n.1 == node.children());
    let (first, last) = (of(n.1[0]), of(n.1.last()));
    assert(args[0] == first && args.last() == last);
    lemma_sizes_are_positive(first);
    lemma_sizes_are_positive(last);
    let op = named_op(n.0, n.1.len()).unwrap();
    lemma_numbered(g, op, first, last);
    assert(g.value_of(of(id)) == combined_size(op, g.value_of(first), g.value_of(last)));
}

/// No e-class that rewriting leaves is computed from itself, but for the nodes that fuse it: the
/// e-classes can be ranked so that every other node has a higher rank than its operands.
pub proof fn searches_leave_no_cycles(
    run: Saturated,
    program: Seq<Node>,
    inputs: Map<Seq<char>, Seq<usize>>,
    graph: Seq<Seq<Node>>,
)
    requires
        well_ordered(program),
        run.sound(rules_for(program, inputs)),
        represents(graph, run.classes()),
    ensures
        exists|rank: spec_fn(int) -> int| #[trigger] ranks(graph, rank),
{
    let g = size_algebra();
    let rules = rules_for(program, inputs);
    let meaning = g.meaning();
    let classes = run.classes();
    assert forall|i: int, hole: spec_fn(Hole) -> int|
        0 <= i < rules.len() && g.given(rules[i], hole) implies #[trigger] g.side(
        rules[i].lhs,
        hole,
    ) == g.side(rules[i].rhs, hole) by {
        lemma_size_rule(program, inputs, i, |h: Hole| g.value_of(hole(h)));
    }
    assert forall|j: int| 0 <= j < program.len() implies g.leaves.contains(
        #[trigger] g.inputs(program)[j],
    ) by {
        assert(g.leaves[0] == g.inputs(program)[j]);
    }
    lemma_rules_hold(g, program, inputs);
    let of = choose|of: spec_fn(int) -> int| #[trigger] values_classes(classes, meaning, of);
    let rank = |id: int| g.value_of(of(id)).1;
    assert forall|id: int, i: int, k: int|
        #![trigger graph[id][i].children()[k]]
        0 <= id < graph.len() && 0 <= i < graph[id].len() && !(graph[id][i] is Fuse) && 0 <= k
            < graph[id][i].children().len() implies rank(graph[id][i].children()[k]) < rank(
        id,
    ) by {
        let n = symbolic(graph[id][i]);
        let all = graph[id].map_values(|n: Node| symbolic(n));
        assert(all[i] == n);
        assert(named(graph[id]).contains(n));
        assert(classes.dom().contains(id) && classes[id].contains(n));
        lemma_operands_are_smaller(graph[id][i], of, id, k);
    }
    assert(ranks(graph, rank));
}

} // verus!
