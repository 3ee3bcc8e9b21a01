//! What is known of the shapes that a search leaves: a program whose shapes fit gets an e-graph in
//! which every e-class has its shape.
use crate::egraph::{
    certain_shapes, certain_shapes_agree, certain_shapes_spread, certain_shapes_suffice, consistent,
    consistent_shapes_propagate, graph_closed, half_known, merged, named, node_shape, operands_known,
    represents, shapes_of, takes_matrices,
};
use crate::ir::{inferred_shape, scalar_shape, well_ordered, Node};
use crate::meaning::{classes_have_shapes, shape_at, shapes_classes, shapes_program};
use crate::rules::{
    fusion_rules, matmul_assoc_rules, pattern_shape, rules_for, rules_move_only_numbers,
    scale_distrib_rules, scale_rules_keep_the_shape, scales_at, structural_rules_keep_the_shape,
    transpose_matmul_rules, unconditional_rules, Equation, Hole, Pattern,
};
use crate::saturate::{
    all_good, class_of, class_of_program, classes_given, classes_of, lemma_classes_each,
    lemma_classes_of_len, lemma_classes_prefix, lemma_holes_bound, lemma_in_order, pattern_class,
    spreads, symbolic, symbolics, Saturated,
};
use vstd::prelude::*;

verus! {

/// Whether the shapes of a whole program fit.
pub open spec fn fits(program: Seq<Node>, inputs: Map<Seq<char>, Seq<usize>>) -> bool {
    forall|i: int|
        0 <= i < program.len() ==> (#[trigger] inferred_shape(program, inputs, i)) is Some
}

/// The shapes of the holes, where they are known.
spec fn hole_shapes(
    shape: spec_fn(int) -> Option<Seq<usize>>,
    hole: spec_fn(Hole) -> int,
) -> spec_fn(Hole) -> Seq<usize> {
    |h: Hole| shape(hole(h)).unwrap()
}

/// The node that an operator makes of two e-classes is in the e-class that is found for it.
proof fn lemma_found(
    classes: Map<int, Set<(Seq<char>, Seq<int>)>>,
    n: (Seq<char>, Seq<int>),
)
    ensures
        class_of(classes, n) matches Some(id) ==> classes.dom().contains(id)
            && classes[id].contains(n),
{
}

/// The e-class of a pattern has the shape of the pattern.
proof fn lemma_pattern_shape(
    classes: Map<int, Set<(Seq<char>, Seq<int>)>>,
    inputs: Map<Seq<char>, Seq<usize>>,
    shape: spec_fn(int) -> Option<Seq<usize>>,
    p: Pattern,
    hole: spec_fn(Hole) -> int,
)
    requires
        shapes_classes(classes, inputs, shape),
        pattern_class(classes, p, hole) is Some,
        forall|h: Hole| #[trigger] p.mentions(h) ==> shape(hole(h)) is Some,
    ensures
        shape(pattern_class(classes, p, hole).unwrap()) == pattern_shape(
            p,
            hole_shapes(shape, hole),
        ),
    decreases p,
{
    let id = pattern_class(classes, p, hole).unwrap();
    match p {
        Pattern::Any(h) => {
            assert(p.mentions(h));
        },
        Pattern::MatMul(a, b) => {
            lemma_mentions(p, *a);
            lemma_mentions(p, *b);
            lemma_pattern_shape(classes, inputs, shape, *a, hole);
            lemma_pattern_shape(classes, inputs, shape, *b, hole);
            let (x, y) = (
                pattern_class(classes, *a, hole).unwrap(),
                pattern_class(classes, *b, hole).unwrap(),
            );
            lemma_found(classes, symbolic(Node::MatMul(x, y)));
        },
        Pattern::EMul(a, b) => {
            lemma_mentions(p, *a);
            lemma_mentions(p, *b);
            lemma_pattern_shape(classes, inputs, shape, *a, hole);
            lemma_pattern_shape(classes, inputs, shape, *b, hole);
            let (x, y) = (
                pattern_class(classes, *a, hole).unwrap(),
                pattern_class(classes, *b, hole).unwrap(),
            );
            lemma_found(classes, symbolic(Node::EMul(x, y)));
        },
        Pattern::Transpose(a) => {
            lemma_mentions(p, *a);
            lemma_pattern_shape(classes, inputs, shape, *a, hole);
            let x = pattern_class(classes, *a, hole).unwrap();
            lemma_found(classes, symbolic(Node::Transpose(x)));
        },
        Pattern::Softmax(a) => {
            lemma_mentions(p, *a);
            lemma_pattern_shape(classes, inputs, shape, *a, hole);
            let x = pattern_class(classes, *a, hole).unwrap();
            lemma_found(classes, symbolic(Node::Softmax(x)));
        },
        Pattern::Relu(a) => {
            lemma_mentions(p, *a);
            lemma_pattern_shape(classes, inputs, shape, *a, hole);
            let x = pattern_class(classes, *a, hole).unwrap();
            lemma_found(classes, symbolic(Node::Relu(x)));
        },
        Pattern::Fuse(a) => {
            lemma_mentions(p, *a);
            lemma_pattern_shape(classes, inputs, shape, *a, hole);
            let x = pattern_class(classes, *a, hole).unwrap();
            lemma_found(classes, symbolic(Node::Fuse(x)));
        },
    }
}

/// Whether a pattern is one of the operands of another.
spec fn is_part(p: Pattern, part: Pattern) -> bool {
    match p {
        Pattern::Any(_) => false,
        Pattern::MatMul(a, b) => *a == part || *b == part,
        Pattern::EMul(a, b) => *a == part || *b == part,
        Pattern::Transpose(a) => *a == part,
        Pattern::Softmax(a) => *a == part,
        Pattern::Relu(a) => *a == part,
        Pattern::Fuse(a) => *a == part,
    }
}

/// A pattern mentions the holes of its parts.
proof fn lemma_mentions(p: Pattern, part: Pattern)
    requires
        is_part(p, part),
    ensures
        forall|h: Hole| #[trigger] part.mentions(h) ==> p.mentions(h),
{
}

/// The holes of a pattern that is all good stand for good e-classes.
proof fn lemma_good_holes(
    classes: Map<int, Set<(Seq<char>, Seq<int>)>>,
    p: Pattern,
    hole: spec_fn(Hole) -> int,
    good: spec_fn(int) -> bool,
    h: Hole,
)
    requires
        all_good(classes, p, hole, good),
        p.mentions(h),
    ensures
        good(hole(h)),
    decreases p,
{
    match p {
        Pattern::Any(_) => {},
        Pattern::MatMul(a, b) | Pattern::EMul(a, b) => {
            if a.mentions(h) {
                lemma_good_holes(classes, *a, hole, good, h);
            } else {
                lemma_good_holes(classes, *b, hole, good, h);
            }
        },
        Pattern::Transpose(a) | Pattern::Softmax(a) | Pattern::Relu(a) | Pattern::Fuse(a) => {
            lemma_good_holes(classes, *a, hole, good, h);
        },
    }
}

/// Where a pattern has a shape, so have all its parts.
proof fn lemma_shaped_pattern(
    classes: Map<int, Set<(Seq<char>, Seq<int>)>>,
    inputs: Map<Seq<char>, Seq<usize>>,
    shape: spec_fn(int) -> Option<Seq<usize>>,
    p: Pattern,
    hole: spec_fn(Hole) -> int,
)
    requires
        shapes_classes(classes, inputs, shape),
        pattern_class(classes, p, hole) is Some,
        forall|h: Hole| #[trigger] p.mentions(h) ==> shape(hole(h)) is Some,
        pattern_shape(p, hole_shapes(shape, hole)) is Some,
    ensures
        all_good(classes, p, hole, |id: int| shape(id) is Some),
    decreases p,
{
    lemma_pattern_shape(classes, inputs, shape, p, hole);
    match p {
        Pattern::Any(_) => {},
        Pattern::MatMul(a, b) | Pattern::EMul(a, b) => {
            lemma_mentions(p, *a);
            lemma_shaped_pattern(classes, inputs, shape, *a, hole);
            lemma_mentions(p, *b);
            lemma_shaped_pattern(classes, inputs, shape, *b, hole);
        },
        Pattern::Transpose(a) | Pattern::Softmax(a) | Pattern::Relu(a) | Pattern::Fuse(a) => {
            lemma_mentions(p, *a);
            lemma_shaped_pattern(classes, inputs, shape, *a, hole);
        },
    }
}

/// The e-classes of the first nodes of a program.
pub proof fn lemma_first_classes(
    classes: Map<int, Set<(Seq<char>, Seq<int>)>>,
    nodes: Seq<(Seq<char>, Seq<int>)>,
    count: nat,
    n: nat,
)
    requires
        count <= n,
        classes_of(classes, nodes, n) is Some,
    ensures
        classes_of(classes, nodes, count) == Some(
            classes_of(classes, nodes, n).unwrap().take(count as int),
        ),
    decreases n,
{
    lemma_classes_of_len(classes, nodes, n);
    let ids = classes_of(classes, nodes, n).unwrap();
    if count == n {
        assert(ids.take(n as int) =~= ids);
    } else {
        lemma_first_classes(classes, nodes, count, (n - 1) as nat);
        lemma_classes_of_len(classes, nodes, (n - 1) as nat);
        let before = classes_of(classes, nodes, (n - 1) as nat).unwrap();
        assert(before.take(count as int) =~= ids.take(count as int));
    }
}

/// What a rule is given has the shape of a number.
proof fn lemma_given_number(
    run: Saturated,
    program: Seq<Node>,
    inputs: Map<Seq<char>, Seq<usize>>,
    shape: spec_fn(int) -> Option<Seq<usize>>,
    e: Equation,
    b: int,
    hole: spec_fn(Hole) -> int,
)
    requires
        class_of_program(run.classes(), symbolics(program)) is Some,
        shapes_program(run.classes(), program, inputs, shape),
        scales_at(e, program, inputs, b),
        classes_given(run.classes(), e, hole),
    ensures
        shape(hole(Hole::S)) == Some(scalar_shape()),
{
    let classes = run.classes();
    let nodes = symbolics(program);
    let term = symbolics(program.take(b + 1));
    assert(term =~= nodes.take(b + 1));
    lemma_classes_prefix(classes, term, nodes, term.len());
    lemma_first_classes(classes, nodes, term.len(), nodes.len());
    lemma_classes_of_len(classes, nodes, nodes.len());
    let ids = classes_of(classes, nodes, nodes.len()).unwrap();
    assert(ids.take(b + 1).last() == ids[b]);
}

/// The right side of a rule has the shape of its left side.
proof fn lemma_rule_keeps_shape(
    program: Seq<Node>,
    inputs: Map<Seq<char>, Seq<usize>>,
    i: int,
    shape: spec_fn(Hole) -> Seq<usize>,
)
    requires
        0 <= i < rules_for(program, inputs).len(),
        rules_for(program, inputs)[i].given is Some ==> shape(Hole::S) == scalar_shape(),
    ensures
        pattern_shape(rules_for(program, inputs)[i].lhs, shape) == pattern_shape(
            rules_for(program, inputs)[i].rhs,
            shape,
        ),
        forall|h: Hole| #[trigger]
            rules_for(program, inputs)[i].rhs.mentions(h) ==> rules_for(
                program,
                inputs,
            )[i].lhs.mentions(h),
{
    let e = rules_for(program, inputs)[i];
    lemma_holes_bound();
    rules_move_only_numbers(program, inputs, i);
    if exists|at: int| #[trigger] scales_at(e, program, inputs, at) {
        let k = choose|k: int|
            0 <= k < 4 && e.lhs == (#[trigger] scale_distrib_rules()[k]).lhs && e.rhs
                == scale_distrib_rules()[k].rhs;
        assert(scale_distrib_rules().contains(scale_distrib_rules()[k]));
        scale_rules_keep_the_shape(scale_distrib_rules()[k], shape);
    } else {
        assert(unconditional_rules()[i] == e);
        if i < 2 {
            assert(matmul_assoc_rules()[i] == e);
        } else if i < 4 {
            assert(transpose_matmul_rules()[i - 2] == e);
        } else {
            assert(fusion_rules()[i - 4] == e);
        }
        structural_rules_keep_the_shape(e, shape);
    }
}

/// Every e-class of a program whose shapes fit has a shape.
proof fn lemma_all_shaped(
    run: Saturated,
    program: Seq<Node>,
    inputs: Map<Seq<char>, Seq<usize>>,
    shape: spec_fn(int) -> Option<Seq<usize>>,
)
    requires
        run.searched(program, rules_for(program, inputs)),
        fits(program, inputs),
        shapes_classes(run.classes(), inputs, shape),
        shapes_program(run.classes(), program, inputs, shape),
    ensures
        forall|id: int| #[trigger] run.classes().dom().contains(id) ==> shape(id) is Some,
{
    let classes = run.classes();
    let rules = rules_for(program, inputs);
    let nodes = symbolics(program);
    let good = |id: int| shape(id) is Some;
    assert(spreads(classes, nodes, rules, good)) by {
        assert forall|i: int| 0 <= i < nodes.len() implies good(
            #[trigger] classes_of(classes, nodes, nodes.len()).unwrap()[i],
        ) by {
            assert(inferred_shape(program, inputs, i) is Some);
        }
        assert forall|i: int, hole: spec_fn(Hole) -> int|
            #![trigger all_good(classes, rules[i].lhs, hole, good)]
            0 <= i < rules.len() && classes_given(classes, rules[i], hole) && all_good(
                classes,
                rules[i].lhs,
                hole,
                good,
            ) && pattern_class(classes, rules[i].rhs, hole) is Some implies all_good(
            classes,
            rules[i].rhs,
            hole,
            good,
        ) by {
            let e = rules[i];
            assert forall|h: Hole| #[trigger] e.lhs.mentions(h) implies shape(
                hole(h),
            ) is Some by {
                lemma_good_holes(classes, e.lhs, hole, good, h);
            }
            rules_move_only_numbers(program, inputs, i);
            if e.given is Some {
                let b = choose|b: int| #[trigger] scales_at(e, program, inputs, b);
                lemma_given_number(run, program, inputs, shape, e, b, hole);
            }
            lemma_rule_keeps_shape(program, inputs, i, hole_shapes(shape, hole));
            lemma_pattern_shape(classes, inputs, shape, e.lhs, hole);
            lemma_shaped_pattern(classes, inputs, shape, e.rhs, hole);
        }
    }
    assert forall|id: int| #[trigger] classes.dom().contains(id) implies shape(id) is Some by {
        assert(good(id));
    }
}

/// The node of a pattern's e-class stands in the e-graph.
proof fn lemma_in_graph(
    graph: Seq<Seq<Node>>,
    classes: Map<int, Set<(Seq<char>, Seq<int>)>>,
    n: (Seq<char>, Seq<int>),
    id: int,
) -> (i: int)
    requires
        represents(graph, classes),
        class_of(classes, n) == Some(id),
    ensures
        0 <= id < graph.len(),
        0 <= i < graph[id].len(),
        symbolic(graph[id][i]) == n,
{
    lemma_found(classes, n);
    let all = graph[id].map_values(|n: Node| symbolic(n));
    assert(named(graph[id]).contains(n));
    let i = choose|i: int| 0 <= i < all.len() && all[i] == n;
    i
}

/// Propagation goes through a node whose operands are known, whatever stands for it in the e-graph.
proof fn lemma_known_node(
    graph: Seq<Seq<Node>>,
    classes: Map<int, Set<(Seq<char>, Seq<int>)>>,
    inputs: Map<Seq<char>, Seq<usize>>,
    n: (Seq<char>, Seq<int>),
    id: int,
)
    requires
        represents(graph, classes),
        class_of(classes, n) == Some(id),
        certain_shapes(inputs, graph) is Some,
        n.1.len() == 0 ==> inputs.dom().contains(n.0),
        forall|k: int|
            0 <= k < n.1.len() ==> certain_shapes(inputs, graph).unwrap()[#[trigger] n.1[k]]
                is Some,
    ensures
        certain_shapes(inputs, graph).unwrap()[id] is Some,
{
    let i = lemma_in_graph(graph, classes, n, id);
    let d = certain_shapes(inputs, graph).unwrap();
    let node = graph[id][i];
    assert(symbolic(node).1 == n.1);
    match node {
        Node::Var(name) => {
            assert(n.1.len() == 0);
        },
        Node::MatMul(a, b) | Node::EMul(a, b) => {
            assert(n.1[0] == a && n.1[1] == b);
        },
        Node::Transpose(a) | Node::Softmax(a) | Node::Relu(a) | Node::Fuse(a) => {
            assert(n.1[0] == a);
        },
    }
    assert(operands_known(inputs, d, node));
    certain_shapes_spread(inputs, graph, id, i);
}

/// Where the shapes of the holes are known, so are those of all parts of a pattern.
proof fn lemma_known_pattern(
    graph: Seq<Seq<Node>>,
    classes: Map<int, Set<(Seq<char>, Seq<int>)>>,
    inputs: Map<Seq<char>, Seq<usize>>,
    p: Pattern,
    hole: spec_fn(Hole) -> int,
)
    requires
        represents(graph, classes),
        certain_shapes(inputs, graph) is Some,
        pattern_class(classes, p, hole) is Some,
        forall|h: Hole| #[trigger]
            p.mentions(h) ==> certain_shapes(inputs, graph).unwrap()[hole(h)] is Some,
    ensures
        all_good(
            classes,
            p,
            hole,
            |id: int| certain_shapes(inputs, graph).unwrap()[id] is Some,
        ),
    decreases p,
{
    let id = pattern_class(classes, p, hole).unwrap();
    match p {
        Pattern::Any(h) => {
            assert(p.mentions(h));
        },
        Pattern::MatMul(a, b) | Pattern::EMul(a, b) => {
            lemma_mentions(p, *a);
            lemma_known_pattern(graph, classes, inputs, *a, hole);
            lemma_mentions(p, *b);
            lemma_known_pattern(graph, classes, inputs, *b, hole);
            let (x, y) = (
                pattern_class(classes, *a, hole).unwrap(),
                pattern_class(classes, *b, hole).unwrap(),
            );
            let n = symbolic(
                if p is MatMul {
                    Node::MatMul(x, y)
                } else {
                    Node::EMul(x, y)
                },
            );
            lemma_known_node(graph, classes, inputs, n, id);
        },
        Pattern::Transpose(a) | Pattern::Softmax(a) | Pattern::Relu(a) | Pattern::Fuse(a) => {
            lemma_mentions(p, *a);
            lemma_known_pattern(graph, classes, inputs, *a, hole);
            let x = pattern_class(classes, *a, hole).unwrap();
            let n = symbolic(
                match p {
                    Pattern::Transpose(_) => Node::Transpose(x),
                    Pattern::Softmax(_) => Node::Softmax(x),
                    Pattern::Relu(_) => Node::Relu(x),
                    _ => Node::Fuse(x),
                },
            );
            lemma_known_node(graph, classes, inputs, n, id);
        },
    }
}

/// Propagation reaches the e-classes of the first nodes of a program.
proof fn lemma_known_program(
    graph: Seq<Seq<Node>>,
    classes: Map<int, Set<(Seq<char>, Seq<int>)>>,
    inputs: Map<Seq<char>, Seq<usize>>,
    program: Seq<Node>,
    i: int,
)
    requires
        represents(graph, classes),
        certain_shapes(inputs, graph) is Some,
        well_ordered(program),
        fits(program, inputs),
        classes_of(classes, symbolics(program), program.len()) is Some,
        0 <= i < program.len(),
    ensures
        certain_shapes(inputs, graph).unwrap()[classes_of(
            classes,
            symbolics(program),
            program.len(),
        ).unwrap()[i]] is Some,
    decreases i,
{
    let nodes = symbolics(program);
    let ids = classes_of(classes, nodes, program.len()).unwrap();
    let d = certain_shapes(inputs, graph).unwrap();
    lemma_in_order(program);
    lemma_classes_each(classes, nodes, program.len(), i);
    let n = (nodes[i].0, nodes[i].1.map_values(|k: int| ids[k]));
    assert forall|k: int| 0 <= k < n.1.len() implies d[#[trigger] n.1[k]] is Some by {
        let at = nodes[i].1[k];
        assert(0 <= at < i);
        lemma_known_program(graph, classes, inputs, program, at);
    }
    if n.1.len() == 0 {
        assert(inferred_shape(program, inputs, i) is Some);
        assert(symbolic(program[i]).1.len() == 0);
    }
    lemma_known_node(graph, classes, inputs, n, ids[i]);
}

/// Every e-class of a program whose shapes fit gets a certain shape.
proof fn lemma_all_known(
    run: Saturated,
    program: Seq<Node>,
    inputs: Map<Seq<char>, Seq<usize>>,
    graph: Seq<Seq<Node>>,
)
    requires
        run.searched(program, rules_for(program, inputs)),
        represents(graph, run.classes()),
        well_ordered(program),
        fits(program, inputs),
        certain_shapes(inputs, graph) is Some,
    ensures
        forall|id: int| #[trigger]
            run.classes().dom().contains(id) ==> certain_shapes(inputs, graph).unwrap()[id] is Some,
{
    let classes = run.classes();
    let rules = rules_for(program, inputs);
    let nodes = symbolics(program);
    let d = certain_shapes(inputs, graph).unwrap();
    let good = |id: int| certain_shapes(inputs, graph).unwrap()[id] is Some;
    assert(spreads(classes, nodes, rules, good)) by {
        assert forall|i: int| 0 <= i < nodes.len() implies good(
            #[trigger] classes_of(classes, nodes, nodes.len()).unwrap()[i],
        ) by {
            lemma_known_program(graph, classes, inputs, program, i);
        }
        assert forall|i: int, hole: spec_fn(Hole) -> int|
            #![trigger all_good(classes, rules[i].lhs, hole, good)]
            0 <= i < rules.len() && classes_given(classes, rules[i], hole) && all_good(
                classes,
                rules[i].lhs,
                hole,
                good,
            ) && pattern_class(classes, rules[i].rhs, hole) is Some implies all_good(
            classes,
            rules[i].rhs,
            hole,
            good,
        ) by {
            let e = rules[i];
            lemma_rule_keeps_shape(program, inputs, i, |h: Hole| scalar_shape());
            assert forall|h: Hole| #[trigger] e.rhs.mentions(h) implies d[hole(h)] is Some by {
                assert(e.lhs.mentions(h));
                lemma_good_holes(classes, e.lhs, hole, good, h);
            }
            lemma_known_pattern(graph, classes, inputs, e.rhs, hole);
        }
    }
    assert forall|id: int| #[trigger] classes.dom().contains(id) implies d[id] is Some by {
        assert(good(id));
    }
}

/// The nodes of an e-graph agree with the shapes of its e-classes.
proof fn lemma_consistent(
    graph: Seq<Seq<Node>>,
    classes: Map<int, Set<(Seq<char>, Seq<int>)>>,
    inputs: Map<Seq<char>, Seq<usize>>,
    shape: spec_fn(int) -> Option<Seq<usize>>,
)
    requires
        represents(graph, classes),
        shapes_classes(classes, inputs, shape),
        forall|id: int| #[trigger] classes.dom().contains(id) ==> shape(id) is Some,
    ensures
        consistent(inputs, graph, |id: int| shape(id).unwrap()),
        takes_matrices(graph, |id: int| shape(id).unwrap()),
        forall|id: int, i: int|
            0 <= id < graph.len() && 0 <= i < graph[id].len() ==> (#[trigger] graph[id][i] matches
                Node::Var(name) ==> inputs.dom().contains(name)),
{
    let total = |id: int| shape(id).unwrap();
    assert forall|id: int, i: int| 0 <= id < graph.len() && 0 <= i < graph[id].len() implies ({
        let node = #[trigger] graph[id][i];
        &&& classes.dom().contains(id)
        &&& shape(id) == shape_at(inputs, shape, node)
    }) by {
        let node = graph[id][i];
        let all = graph[id].map_values(|n: Node| symbolic(n));
        assert(all[i] == symbolic(node));
        assert(named(graph[id]).contains(symbolic(node)));
        assert(classes[id].contains(symbolic(node)));
    }
    assert forall|id: int, i: int|
        0 <= id < graph.len() && 0 <= i < graph[id].len() implies match (#[trigger] graph[id][i]) {
        Node::Var(name) => inputs.dom().contains(name) ==> inputs[name] == total(id),
        node => node_shape(total, node) == total(id),
    } by {
        assert(shape(id) == shape_at(inputs, shape, graph[id][i]));
    }
}

/// A program whose shapes fit gets an e-graph with shapes: whatever the search finds, propagation
/// does not fail, every e-class gets a shape, and those of the program the ones that are inferred.
pub proof fn fitting_programs_are_shaped(
    run: Saturated,
    program: Seq<Node>,
    inputs: Map<Seq<char>, Seq<usize>>,
    graph: Seq<Seq<Node>>,
)
    requires
        run.searched(program, rules_for(program, inputs)),
        represents(graph, run.classes()),
        graph_closed(graph),
        well_ordered(program),
        fits(program, inputs),
    ensures
        shapes_of(inputs, graph) is Some,
        forall|id: int| #[trigger]
            run.classes().dom().contains(id) ==> shapes_of(inputs, graph).unwrap()[id] is Some,
        forall|i: int|
            0 <= i < program.len() ==> shapes_of(inputs, graph).unwrap()[#[trigger] classes_of(
                run.classes(),
                symbolics(program),
                program.len(),
            ).unwrap()[i]] == inferred_shape(program, inputs, i),
{
    let classes = run.classes();
    classes_have_shapes(run, program, inputs);
    let shape = choose|shape: spec_fn(int) -> Option<Seq<usize>>| #[trigger]
        shapes_classes(classes, inputs, shape) && #[trigger] shapes_program(
            classes,
            program,
            inputs,
            shape,
        );
    lemma_all_shaped(run, program, inputs, shape);
    lemma_consistent(graph, classes, inputs, shape);
    consistent_shapes_propagate(inputs, graph, |id: int| shape(id).unwrap());
    lemma_all_known(run, program, inputs, graph);
    let d = certain_shapes(inputs, graph).unwrap();
    assert forall|id: int, i: int| 0 <= id < graph.len() && 0 <= i < graph[id].len() implies
        !half_known(d, #[trigger] graph[id][i]) by {
        if let Node::EMul(a, b) = graph[id][i] {
            let all = graph[id].map_values(|n: Node| symbolic(n));
            let n = symbolic(graph[id][i]);
            assert(all[i] == n);
            assert(named(graph[id]).contains(n));
            assert(classes[id].contains(n));
            assert(n.1[0] == a && n.1[1] == b);
            assert(classes.dom().contains(a) && classes.dom().contains(b));
        }
    }
    certain_shapes_suffice(inputs, graph);
    certain_shapes_agree(inputs, graph, |id: int| shape(id).unwrap());
    lemma_in_order(program);
    assert forall|i: int| 0 <= i < program.len() implies d[#[trigger] classes_of(
        classes,
        symbolics(program),
        program.len(),
    ).unwrap()[i]] == inferred_shape(program, inputs, i) by {
        lemma_classes_each(classes, symbolics(program), program.len(), i);
    }
}

/// Two equivalent nodes know together what either of them knows, and disagree exactly if both know
/// a shape and the shapes differ.
pub proof fn merging_keeps_what_either_knows(a: Option<Seq<usize>>, b: Option<Seq<usize>>)
    ensures
        match merged(a, b) {
            Some(m) => {
                &&& a is Some ==> m == a
                &&& b is Some ==> m == b
                &&& m is Some ==> a is Some || b is Some
            },
            None => a is Some && b is Some && a != b,
        },
{
}

} // verus!
