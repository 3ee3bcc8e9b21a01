//! What a search that found everything has found: each identity of the algebra, wherever it applies
//! in the program, and how long a search goes on.
use crate::ir::{inferred_shape, scales_by, well_ordered, Node};
use crate::rules::{
    rules_for, scale_distrib_rules, scale_rules_in, scale_rules_of, unconditional_rules, Equation,
    Hole, Pattern,
};
use crate::saturate::{
    class_of, class_of_program, classes_given, classes_of, closed_under, lemma_classes_each,
    lemma_classes_of_len, lemma_classes_prefix, lemma_in_order, pattern_class, run_iterations,
    run_saturated, run_size, run_timed_out, same_class, symbolic, symbolics, Saturated,
};
use crate::shape_laws::lemma_first_classes;
use vstd::prelude::*;

verus! {

/// A search goes on until it has found everything, has taken ten iterations, has more than fifty
/// thousand nodes, or has run out of time.
pub proof fn searches_go_on(
    run: Saturated,
    program: Seq<Node>,
    inputs: Map<Seq<char>, Seq<usize>>,
)
    requires
        run.searched(program, rules_for(program, inputs)),
    ensures
        run_saturated(run) || run_iterations(run) == 10 || run_size(run) > 50_000 || run_timed_out(
            run,
        ),
{
}

// ---- Where a node stands ----

/// The e-classes that the holes stand for.
spec fn holes(a: int, b: int, c: int, s: int, x: int, v: int) -> spec_fn(Hole) -> int {
    |h: Hole|
        match h {
            Hole::A => a,
            Hole::B => b,
            Hole::C => c,
            Hole::S => s,
            Hole::X => x,
            Hole::V => v,
        }
}

/// Whether these are the e-classes of the nodes of a program.
spec fn classed(
    classes: Map<int, Set<(Seq<char>, Seq<int>)>>,
    nodes: Seq<Node>,
    ids: Seq<int>,
) -> bool {
    classes_of(classes, symbolics(nodes), nodes.len()) == Some(ids) && ids.len() == nodes.len()
}

/// A program with one more node that has an e-class.
proof fn lemma_one_more(
    classes: Map<int, Set<(Seq<char>, Seq<int>)>>,
    nodes: Seq<Node>,
    ids: Seq<int>,
    node: Node,
    id: int,
)
    requires
        classed(classes, nodes, ids),
        class_of(
            classes,
            (symbolic(node).0, symbolic(node).1.map_values(|k: int| ids[k])),
        ) == Some(id),
    ensures
        classed(classes, nodes.push(node), ids.push(id)),
{
    let (all, longer) = (symbolics(nodes), symbolics(nodes.push(node)));
    assert(all =~= longer.take(all.len() as int));
    lemma_classes_prefix(classes, all, longer, all.len());
    assert(longer[all.len() as int] == symbolic(node));
}

/// The e-classes of the nodes of a program that was searched, and that of node `i`.
proof fn lemma_searched(run: Saturated, program: Seq<Node>, rules: Seq<Equation>, i: int) -> (ids:
    Seq<int>)
    requires
        run.searched(program, rules),
        well_ordered(program),
        0 <= i < program.len(),
    ensures
        classed(run.classes(), program, ids),
        class_of_program(run.classes(), symbolics(program.take(i + 1))) == Some(ids[i]),
        forall|k: int| 0 <= k < ids.len() ==> run.classes().dom().contains(#[trigger] ids[k]),
        class_of(
            run.classes(),
            (
                symbolic(program[i]).0,
                symbolic(program[i]).1.map_values(|k: int| ids[k]),
            ),
        ) == Some(ids[i]),
{
    let classes = run.classes();
    let nodes = symbolics(program);
    let ids = classes_of(classes, nodes, nodes.len()).unwrap();
    lemma_classes_of_len(classes, nodes, nodes.len());
    lemma_in_order(program);
    assert forall|k: int| 0 <= k < ids.len() implies classes.dom().contains(#[trigger] ids[k]) by {
        lemma_classes_each(classes, nodes, nodes.len(), k);
    }
    lemma_classes_each(classes, nodes, nodes.len(), i);
    let first = symbolics(program.take(i + 1));
    assert(first =~= nodes.take(i + 1));
    lemma_classes_prefix(classes, first, nodes, first.len());
    lemma_first_classes(classes, nodes, first.len(), nodes.len());
    assert(ids.take(i + 1).last() == ids[i]);
    ids
}

/// The e-class of a node of a searched program, over those of its operands.
proof fn lemma_node_class(
    run: Saturated,
    program: Seq<Node>,
    rules: Seq<Equation>,
    ids: Seq<int>,
    i: int,
)
    requires
        run.searched(program, rules),
        well_ordered(program),
        classed(run.classes(), program, ids),
        0 <= i < program.len(),
    ensures
        class_of(
            run.classes(),
            (
                symbolic(program[i]).0,
                symbolic(program[i]).1.map_values(|k: int| ids[k]),
            ),
        ) == Some(ids[i]),
        forall|k: int|
            0 <= k < program[i].children().len() ==> 0 <= #[trigger] program[i].children()[k] < i,
{
    lemma_in_order(program);
    lemma_classes_each(run.classes(), symbolics(program), program.len(), i);
    assert(program[i].operands_below(i));
}

/// What a rule makes of its left side is in the e-class of the left side.
proof fn lemma_closed(
    classes: Map<int, Set<(Seq<char>, Seq<int>)>>,
    rules: Seq<Equation>,
    at: int,
    hole: spec_fn(Hole) -> int,
    id: int,
)
    requires
        closed_under(classes, rules),
        0 <= at < rules.len(),
        classes_given(classes, rules[at], hole),
        pattern_class(classes, rules[at].lhs, hole) == Some(id),
    ensures
        pattern_class(classes, rules[at].rhs, hole) == Some(id),
{
}

/// The rules that hold whatever the shapes are, among those for a program.
proof fn lemma_plain_rules(program: Seq<Node>, inputs: Map<Seq<char>, Seq<usize>>)
    ensures
        unconditional_rules().len() == 6,
        rules_for(program, inputs).len() >= 6,
        forall|i: int|
            0 <= i < 6 ==> (#[trigger] rules_for(program, inputs)[i]) == unconditional_rules()[i]
                && rules_for(program, inputs)[i].given is None,
{
    let (all, plain) = (rules_for(program, inputs), unconditional_rules());
    assert(plain.len() == 6);
    assert forall|i: int| 0 <= i < 6 implies (#[trigger] all[i]) == plain[i]
        && all[i].given is None by {
        assert(all[i] == plain[i]);
        assert(i == 0 || i == 1 || i == 2 || i == 3 || i == 4 || i == 5);
    }
}

spec fn p_any(h: Hole) -> Pattern {
    Pattern::Any(h)
}

spec fn p_matmul(a: Pattern, b: Pattern) -> Pattern {
    Pattern::MatMul(Box::new(a), Box::new(b))
}

spec fn p_emul(a: Pattern, b: Pattern) -> Pattern {
    Pattern::EMul(Box::new(a), Box::new(b))
}

spec fn p_transpose(a: Pattern) -> Pattern {
    Pattern::Transpose(Box::new(a))
}

// ---- Matrix products ----

/// In a saturated search, `(a b) c` at any node of the program is in one e-class with `a (b c)`.
pub proof fn products_associate_to_the_right(
    run: Saturated,
    program: Seq<Node>,
    inputs: Map<Seq<char>, Seq<usize>>,
    i: int,
    ab: int,
    a: int,
    b: int,
    c: int,
)
    requires
        run.searched(program, rules_for(program, inputs)),
        run_saturated(run),
        well_ordered(program),
        0 <= i < program.len(),
        program[i] == Node::MatMul(ab, c),
        program[ab] == Node::MatMul(a, b),
    ensures
        same_class(
            run.classes(),
            program.push(Node::MatMul(b, c)).push(Node::MatMul(a, program.len() as int)),
            program.take(i + 1),
        ),
{
    let (classes, rules) = (run.classes(), rules_for(program, inputs));
    let ids = lemma_searched(run, program, rules, i);
    lemma_node_class(run, program, rules, ids, i);
    assert(program[i].children()[0] == ab && program[i].children()[1] == c);
    lemma_node_class(run, program, rules, ids, ab);
    assert(program[ab].children()[0] == a && program[ab].children()[1] == b);
    let hole = holes(ids[a], ids[b], ids[c], 0, 0, 0);
    assert(symbolic(program[i]).1.map_values(|k: int| ids[k]) =~= seq![ids[ab], ids[c]]);
    assert(symbolic(program[ab]).1.map_values(|k: int| ids[k]) =~= seq![ids[a], ids[b]]);
    let (pa, pb, pc) = (p_any(Hole::A), p_any(Hole::B), p_any(Hole::C));
    lemma_plain_rules(program, inputs);
    let (lhs, rhs) = (rules[0].lhs, rules[0].rhs);
    assert(lhs == p_matmul(p_matmul(pa, pb), pc));
    assert(rhs == p_matmul(pa, p_matmul(pb, pc)));
    assert(pattern_class(classes, pa, hole) == Some(ids[a]));
    assert(pattern_class(classes, pb, hole) == Some(ids[b]));
    assert(pattern_class(classes, pc, hole) == Some(ids[c]));
    assert(pattern_class(classes, p_matmul(pa, pb), hole) == Some(ids[ab]));
    assert(pattern_class(classes, lhs, hole) == Some(ids[i]));
    lemma_closed(classes, rules, 0, hole, ids[i]);
    let inner = pattern_class(classes, p_matmul(pb, pc), hole);
    assert(inner is Some);
    let bc = inner.unwrap();
    let first = Node::MatMul(b, c);
    assert(symbolic(first).1.map_values(|k: int| ids[k]) =~= seq![ids[b], ids[c]]);
    lemma_one_more(classes, program, ids, first, bc);
    let second = Node::MatMul(a, program.len() as int);
    let more = ids.push(bc);
    assert(symbolic(second).1.map_values(|k: int| more[k]) =~= seq![ids[a], bc]);
    lemma_one_more(classes, program.push(first), more, second, ids[i]);
}

/// In a saturated search, `a (b c)` at any node of the program is in one e-class with `(a b) c`.
pub proof fn products_associate_to_the_left(
    run: Saturated,
    program: Seq<Node>,
    inputs: Map<Seq<char>, Seq<usize>>,
    i: int,
    a: int,
    bc: int,
    b: int,
    c: int,
)
    requires
        run.searched(program, rules_for(program, inputs)),
        run_saturated(run),
        well_ordered(program),
        0 <= i < program.len(),
        program[i] == Node::MatMul(a, bc),
        program[bc] == Node::MatMul(b, c),
    ensures
        same_class(
            run.classes(),
            program.push(Node::MatMul(a, b)).push(Node::MatMul(program.len() as int, c)),
            program.take(i + 1),
        ),
{
    let (classes, rules) = (run.classes(), rules_for(program, inputs));
    let ids = lemma_searched(run, program, rules, i);
    lemma_node_class(run, program, rules, ids, i);
    assert(program[i].children()[0] == a && program[i].children()[1] == bc);
    lemma_node_class(run, program, rules, ids, bc);
    assert(program[bc].children()[0] == b && program[bc].children()[1] == c);
    let hole = holes(ids[a], ids[b], ids[c], 0, 0, 0);
    assert(symbolic(program[i]).1.map_values(|k: int| ids[k]) =~= seq![ids[a], ids[bc]]);
    assert(symbolic(program[bc]).1.map_values(|k: int| ids[k]) =~= seq![ids[b], ids[c]]);
    let (pa, pb, pc) = (p_any(Hole::A), p_any(Hole::B), p_any(Hole::C));
    lemma_plain_rules(program, inputs);
    let (lhs, rhs) = (rules[1].lhs, rules[1].rhs);
    assert(lhs == p_matmul(pa, p_matmul(pb, pc)));
    assert(rhs == p_matmul(p_matmul(pa, pb), pc));
    assert(pattern_class(classes, pa, hole) == Some(ids[a]));
    assert(pattern_class(classes, pb, hole) == Some(ids[b]));
    assert(pattern_class(classes, pc, hole) == Some(ids[c]));
    assert(pattern_class(classes, p_matmul(pb, pc), hole) == Some(ids[bc]));
    assert(pattern_class(classes, lhs, hole) == Some(ids[i]));
    lemma_closed(classes, rules, 1, hole, ids[i]);
    let inner = pattern_class(classes, p_matmul(pa, pb), hole);
    assert(inner is Some);
    let ab = inner.unwrap();
    let first = Node::MatMul(a, b);
    assert(symbolic(first).1.map_values(|k: int| ids[k]) =~= seq![ids[a], ids[b]]);
    lemma_one_more(classes, program, ids, first, ab);
    let second = Node::MatMul(program.len() as int, c);
    let more = ids.push(ab);
    assert(symbolic(second).1.map_values(|k: int| more[k]) =~= seq![ab, ids[c]]);
    lemma_one_more(classes, program.push(first), more, second, ids[i]);
}

/// In a saturated search, the transpose of a product at any node of the program is in one e-class
/// with the product of the transposes in reverse.
pub proof fn transposed_products_turn_round(
    run: Saturated,
    program: Seq<Node>,
    inputs: Map<Seq<char>, Seq<usize>>,
    i: int,
    ab: int,
    a: int,
    b: int,
)
    requires
        run.searched(program, rules_for(program, inputs)),
        run_saturated(run),
        well_ordered(program),
        0 <= i < program.len(),
        program[i] == Node::Transpose(ab),
        program[ab] == Node::MatMul(a, b),
    ensures
        same_class(
            run.classes(),
            program.push(Node::Transpose(b)).push(Node::Transpose(a)).push(
                Node::MatMul(program.len() as int, program.len() as int + 1),
            ),
            program.take(i + 1),
        ),
{
    let (classes, rules) = (run.classes(), rules_for(program, inputs));
    let ids = lemma_searched(run, program, rules, i);
    lemma_node_class(run, program, rules, ids, i);
    assert(program[i].children()[0] == ab);
    lemma_node_class(run, program, rules, ids, ab);
    assert(program[ab].children()[0] == a && program[ab].children()[1] == b);
    let hole = holes(ids[a], ids[b], 0, 0, 0, 0);
    assert(symbolic(program[i]).1.map_values(|k: int| ids[k]) =~= seq![ids[ab]]);
    assert(symbolic(program[ab]).1.map_values(|k: int| ids[k]) =~= seq![ids[a], ids[b]]);
    let (pa, pb) = (p_any(Hole::A), p_any(Hole::B));
    lemma_plain_rules(program, inputs);
    let (lhs, rhs) = (rules[2].lhs, rules[2].rhs);
    assert(lhs == p_transpose(p_matmul(pa, pb)));
    assert(rhs == p_matmul(p_transpose(pb), p_transpose(pa)));
    assert(pattern_class(classes, pa, hole) == Some(ids[a]));
    assert(pattern_class(classes, pb, hole) == Some(ids[b]));
    assert(pattern_class(classes, p_matmul(pa, pb), hole) == Some(ids[ab]));
    assert(pattern_class(classes, lhs, hole) == Some(ids[i]));
    lemma_closed(classes, rules, 2, hole, ids[i]);
    let tb = pattern_class(classes, p_transpose(pb), hole);
    let ta = pattern_class(classes, p_transpose(pa), hole);
    assert(tb is Some && ta is Some);
    let first = Node::Transpose(b);
    assert(symbolic(first).1.map_values(|k: int| ids[k]) =~= seq![ids[b]]);
    lemma_one_more(classes, program, ids, first, tb.unwrap());
    let (one, second) = (ids.push(tb.unwrap()), Node::Transpose(a));
    assert(symbolic(second).1.map_values(|k: int| one[k]) =~= seq![ids[a]]);
    lemma_one_more(classes, program.push(first), one, second, ta.unwrap());
    let two = one.push(ta.unwrap());
    let third = Node::MatMul(program.len() as int, program.len() as int + 1);
    assert(symbolic(third).1.map_values(|k: int| two[k]) =~= seq![tb.unwrap(), ta.unwrap()]);
    lemma_one_more(classes, program.push(first).push(second), two, third, ids[i]);
}

/// In a saturated search, a product of transposes at any node of the program is in one e-class with
/// the transpose of the product in reverse.
pub proof fn products_of_transposes_turn_round(
    run: Saturated,
    program: Seq<Node>,
    inputs: Map<Seq<char>, Seq<usize>>,
    i: int,
    ta: int,
    tb: int,
    a: int,
    b: int,
)
    requires
        run.searched(program, rules_for(program, inputs)),
        run_saturated(run),
        well_ordered(program),
        0 <= i < program.len(),
        program[i] == Node::MatMul(ta, tb),
        program[ta] == Node::Transpose(a),
        program[tb] == Node::Transpose(b),
    ensures
        same_class(
            run.classes(),
            program.push(Node::MatMul(b, a)).push(Node::Transpose(program.len() as int)),
            program.take(i + 1),
        ),
{
    let (classes, rules) = (run.classes(), rules_for(program, inputs));
    let ids = lemma_searched(run, program, rules, i);
    lemma_node_class(run, program, rules, ids, i);
    assert(program[i].children()[0] == ta && program[i].children()[1] == tb);
    lemma_node_class(run, program, rules, ids, ta);
    lemma_node_class(run, program, rules, ids, tb);
    assert(program[ta].children()[0] == a && program[tb].children()[0] == b);
    let hole = holes(ids[a], ids[b], 0, 0, 0, 0);
    assert(symbolic(program[i]).1.map_values(|k: int| ids[k]) =~= seq![ids[ta], ids[tb]]);
    assert(symbolic(program[ta]).1.map_values(|k: int| ids[k]) =~= seq![ids[a]]);
    assert(symbolic(program[tb]).1.map_values(|k: int| ids[k]) =~= seq![ids[b]]);
    let (pa, pb) = (p_any(Hole::A), p_any(Hole::B));
    lemma_plain_rules(program, inputs);
    let (lhs, rhs) = (rules[3].lhs, rules[3].rhs);
    assert(lhs == p_matmul(p_transpose(pa), p_transpose(pb)));
    assert(rhs == p_transpose(p_matmul(pb, pa)));
    assert(pattern_class(classes, pa, hole) == Some(ids[a]));
    assert(pattern_class(classes, pb, hole) == Some(ids[b]));
    assert(pattern_class(classes, p_transpose(pa), hole) == Some(ids[ta]));
    assert(pattern_class(classes, p_transpose(pb), hole) == Some(ids[tb]));
    assert(pattern_class(classes, lhs, hole) == Some(ids[i]));
    lemma_closed(classes, rules, 3, hole, ids[i]);
    let ba = pattern_class(classes, p_matmul(pb, pa), hole);
    assert(ba is Some);
    let first = Node::MatMul(b, a);
    assert(symbolic(first).1.map_values(|k: int| ids[k]) =~= seq![ids[b], ids[a]]);
    lemma_one_more(classes, program, ids, first, ba.unwrap());
    let (more, second) = (ids.push(ba.unwrap()), Node::Transpose(program.len() as int));
    assert(symbolic(second).1.map_values(|k: int| more[k]) =~= seq![ba.unwrap()]);
    lemma_one_more(classes, program.push(first), more, second, ids[i]);
}

/// In a saturated search, a product whose left operand is a softmax or a relu, at any node of the
/// program, is in one e-class with itself as one fused region.
pub proof fn producers_fuse_with_their_products(
    run: Saturated,
    program: Seq<Node>,
    inputs: Map<Seq<char>, Seq<usize>>,
    i: int,
    left: int,
    v: int,
)
    requires
        run.searched(program, rules_for(program, inputs)),
        run_saturated(run),
        well_ordered(program),
        0 <= i < program.len(),
        program[i] == Node::MatMul(left, v),
        program[left] is Softmax || program[left] is Relu,
    ensures
        same_class(run.classes(), program.push(Node::Fuse(i)), program.take(i + 1)),
{
    let (classes, rules) = (run.classes(), rules_for(program, inputs));
    let ids = lemma_searched(run, program, rules, i);
    lemma_node_class(run, program, rules, ids, i);
    assert(program[i].children()[0] == left && program[i].children()[1] == v);
    lemma_node_class(run, program, rules, ids, left);
    let x = program[left].children()[0];
    let hole = holes(0, 0, 0, 0, ids[x], ids[v]);
    assert(symbolic(program[i]).1.map_values(|k: int| ids[k]) =~= seq![ids[left], ids[v]]);
    assert(symbolic(program[left]).1.map_values(|k: int| ids[k]) =~= seq![ids[x]]);
    let (px, pv) = (p_any(Hole::X), p_any(Hole::V));
    lemma_plain_rules(program, inputs);
    let (at, producer) = if program[left] is Softmax {
        (4int, Pattern::Softmax(Box::new(px)))
    } else {
        (5int, Pattern::Relu(Box::new(px)))
    };
    let (lhs, rhs) = (rules[at].lhs, rules[at].rhs);
    assert(lhs == p_matmul(producer, pv));
    assert(rhs == Pattern::Fuse(Box::new(lhs)));
    assert(pattern_class(classes, px, hole) == Some(ids[x]));
    assert(pattern_class(classes, pv, hole) == Some(ids[v]));
    assert(pattern_class(classes, producer, hole) == Some(ids[left]));
    assert(pattern_class(classes, lhs, hole) == Some(ids[i]));
    lemma_closed(classes, rules, at, hole, ids[i]);
    let fused = Node::Fuse(i);
    assert(symbolic(fused).1.map_values(|k: int| ids[k]) =~= seq![ids[i]]);
    lemma_one_more(classes, program, ids, fused, ids[i]);
}

// ---- Numbers ----

/// The rules for a number are among those for the program.
proof fn lemma_scale_rule_there(
    program: Seq<Node>,
    inputs: Map<Seq<char>, Seq<usize>>,
    count: nat,
    s: int,
    k: int,
) -> (at: int)
    requires
        scales_by(program, inputs, s),
        0 <= s < count,
        0 <= k < 4,
    ensures
        0 <= at < scale_rules_in(program, inputs, count).len(),
        scale_rules_in(program, inputs, count)[at].lhs == scale_distrib_rules()[k].lhs,
        scale_rules_in(program, inputs, count)[at].rhs == scale_distrib_rules()[k].rhs,
        scale_rules_in(program, inputs, count)[at].given == Some(program.take(s + 1)),
    decreases count,
{
    let before = scale_rules_in(program, inputs, (count - 1) as nat);
    if s < count - 1 {
        let at = lemma_scale_rule_there(program, inputs, (count - 1) as nat, s, k);
        assert(scale_rules_in(program, inputs, count)[at] == before[at]);
        at
    } else {
        let own = scale_rules_of(program, s);
        assert(scale_distrib_rules().len() == 4);
        assert(own.len() == 4);
        let at = before.len() + k;
        assert(scale_rules_in(program, inputs, count)[at] == own[k]);
        at
    }
}

/// Where the program scales by a number, the four ways in which the number moves are open: what the
/// left side of one of them matches has the right side in its e-class.
proof fn lemma_number_moves(
    run: Saturated,
    program: Seq<Node>,
    inputs: Map<Seq<char>, Seq<usize>>,
    ids: Seq<int>,
    s: int,
    k: int,
    hole: spec_fn(Hole) -> int,
    id: int,
)
    requires
        run.searched(program, rules_for(program, inputs)),
        run_saturated(run),
        well_ordered(program),
        classed(run.classes(), program, ids),
        scales_by(program, inputs, s),
        0 <= s < program.len(),
        0 <= k < 4,
        hole(Hole::S) == ids[s],
        pattern_class(run.classes(), scale_distrib_rules()[k].lhs, hole) == Some(id),
    ensures
        pattern_class(run.classes(), scale_distrib_rules()[k].rhs, hole) == Some(id),
{
    let rules = rules_for(program, inputs);
    let at = lemma_scale_rule_there(program, inputs, program.len(), s, k);
    assert(unconditional_rules().len() == 6);
    assert(rules[6 + at] == scale_rules_in(program, inputs, program.len())[at]);
    let there = lemma_searched(run, program, rules, s);
    assert(there == ids);
    lemma_closed(run.classes(), rules, 6 + at, hole, id);
}

/// In a saturated search, a number that scales the left operand of a product, at any node of the
/// program, moves out: `(a s) b` is in one e-class with `(a b) s`.
pub proof fn numbers_move_out_of_the_left_operand(
    run: Saturated,
    program: Seq<Node>,
    inputs: Map<Seq<char>, Seq<usize>>,
    i: int,
    scaled: int,
    a: int,
    s: int,
    b: int,
)
    requires
        run.searched(program, rules_for(program, inputs)),
        run_saturated(run),
        well_ordered(program),
        0 <= i < program.len(),
        program[i] == Node::MatMul(scaled, b),
        program[scaled] == Node::EMul(a, s),
        inferred_shape(program, inputs, s) == Some(seq![1usize]),
    ensures
        same_class(
            run.classes(),
            program.push(Node::MatMul(a, b)).push(Node::EMul(program.len() as int, s)),
            program.take(i + 1),
        ),
{
    let (classes, rules) = (run.classes(), rules_for(program, inputs));
    let ids = lemma_searched(run, program, rules, i);
    lemma_node_class(run, program, rules, ids, i);
    assert(program[i].children()[0] == scaled && program[i].children()[1] == b);
    lemma_node_class(run, program, rules, ids, scaled);
    assert(program[scaled].children()[0] == a && program[scaled].children()[1] == s);
    let hole = holes(ids[a], ids[b], 0, ids[s], 0, 0);
    assert(symbolic(program[i]).1.map_values(|k: int| ids[k]) =~= seq![ids[scaled], ids[b]]);
    assert(symbolic(program[scaled]).1.map_values(|k: int| ids[k]) =~= seq![ids[a], ids[s]]);
    let (pa, pb, ps) = (p_any(Hole::A), p_any(Hole::B), p_any(Hole::S));
    let (lhs, rhs) = (scale_distrib_rules()[0].lhs, scale_distrib_rules()[0].rhs);
    assert(lhs == p_matmul(p_emul(pa, ps), pb));
    assert(rhs == p_emul(p_matmul(pa, pb), ps));
    assert(pattern_class(classes, pa, hole) == Some(ids[a]));
    assert(pattern_class(classes, pb, hole) == Some(ids[b]));
    assert(pattern_class(classes, ps, hole) == Some(ids[s]));
    assert(pattern_class(classes, p_emul(pa, ps), hole) == Some(ids[scaled]));
    assert(pattern_class(classes, lhs, hole) == Some(ids[i]));
    lemma_number_moves(run, program, inputs, ids, s, 0, hole, ids[i]);
    let ab = pattern_class(classes, p_matmul(pa, pb), hole);
    assert(ab is Some);
    let first = Node::MatMul(a, b);
    assert(symbolic(first).1.map_values(|k: int| ids[k]) =~= seq![ids[a], ids[b]]);
    lemma_one_more(classes, program, ids, first, ab.unwrap());
    let (more, second) = (ids.push(ab.unwrap()), Node::EMul(program.len() as int, s));
    assert(symbolic(second).1.map_values(|k: int| more[k]) =~= seq![ab.unwrap(), ids[s]]);
    lemma_one_more(classes, program.push(first), more, second, ids[i]);
}

/// In a saturated search, a number that scales the right operand of a product, at any node of the
/// program, moves out: `a (b s)` is in one e-class with `(a b) s`.
pub proof fn numbers_move_out_of_the_right_operand(
    run: Saturated,
    program: Seq<Node>,
    inputs: Map<Seq<char>, Seq<usize>>,
    i: int,
    a: int,
    scaled: int,
    b: int,
    s: int,
)
    requires
        run.searched(program, rules_for(program, inputs)),
        run_saturated(run),
        well_ordered(program),
        0 <= i < program.len(),
        program[i] == Node::MatMul(a, scaled),
        program[scaled] == Node::EMul(b, s),
        inferred_shape(program, inputs, s) == Some(seq![1usize]),
    ensures
        same_class(
            run.classes(),
            program.push(Node::MatMul(a, b)).push(Node::EMul(program.len() as int, s)),
            program.take(i + 1),
        ),
{
    let (classes, rules) = (run.classes(), rules_for(program, inputs));
    let ids = lemma_searched(run, program, rules, i);
    lemma_node_class(run, program, rules, ids, i);
    assert(program[i].children()[0] == a && program[i].children()[1] == scaled);
    lemma_node_class(run, program, rules, ids, scaled);
    assert(program[scaled].children()[0] == b && program[scaled].children()[1] == s);
    let hole = holes(ids[a], ids[b], 0, ids[s], 0, 0);
    assert(symbolic(program[i]).1.map_values(|k: int| ids[k]) =~= seq![ids[a], ids[scaled]]);
    assert(symbolic(program[scaled]).1.map_values(|k: int| ids[k]) =~= seq![ids[b], ids[s]]);
    let (pa, pb, ps) = (p_any(Hole::A), p_any(Hole::B), p_any(Hole::S));
    let (lhs, rhs) = (scale_distrib_rules()[1].lhs, scale_distrib_rules()[1].rhs);
    assert(lhs == p_matmul(pa, p_emul(pb, ps)));
    assert(rhs == p_emul(p_matmul(pa, pb), ps));
    assert(pattern_class(classes, pa, hole) == Some(ids[a]));
    assert(pattern_class(classes, pb, hole) == Some(ids[b]));
    assert(pattern_class(classes, ps, hole) == Some(ids[s]));
    assert(pattern_class(classes, p_emul(pb, ps), hole) == Some(ids[scaled]));
    assert(pattern_class(classes, lhs, hole) == Some(ids[i]));
    lemma_number_moves(run, program, inputs, ids, s, 1, hole, ids[i]);
    let ab = pattern_class(classes, p_matmul(pa, pb), hole);
    assert(ab is Some);
    let first = Node::MatMul(a, b);
    assert(symbolic(first).1.map_values(|k: int| ids[k]) =~= seq![ids[a], ids[b]]);
    lemma_one_more(classes, program, ids, first, ab.unwrap());
    let (more, second) = (ids.push(ab.unwrap()), Node::EMul(program.len() as int, s));
    assert(symbolic(second).1.map_values(|k: int| more[k]) =~= seq![ab.unwrap(), ids[s]]);
    lemma_one_more(classes, program.push(first), more, second, ids[i]);
}

/// In a saturated search, a number that scales a product, at any node of the program, moves in to
/// either operand: `(a b) s` is in one e-class with `(a s) b` and with `a (b s)`.
pub proof fn numbers_move_into_either_operand(
    run: Saturated,
    program: Seq<Node>,
    inputs: Map<Seq<char>, Seq<usize>>,
    i: int,
    ab: int,
    a: int,
    b: int,
    s: int,
)
    requires
        run.searched(program, rules_for(program, inputs)),
        run_saturated(run),
        well_ordered(program),
        0 <= i < program.len(),
        program[i] == Node::EMul(ab, s),
        program[ab] == Node::MatMul(a, b),
        inferred_shape(program, inputs, s) == Some(seq![1usize]),
    ensures
        same_class(
            run.classes(),
            program.push(Node::EMul(a, s)).push(Node::MatMul(program.len() as int, b)),
            program.take(i + 1),
        ),
        same_class(
            run.classes(),
            program.push(Node::EMul(b, s)).push(Node::MatMul(a, program.len() as int)),
            program.take(i + 1),
        ),
{
    let (classes, rules) = (run.classes(), rules_for(program, inputs));
    let ids = lemma_searched(run, program, rules, i);
    lemma_node_class(run, program, rules, ids, i);
    assert(program[i].children()[0] == ab && program[i].children()[1] == s);
    lemma_node_class(run, program, rules, ids, ab);
    assert(program[ab].children()[0] == a && program[ab].children()[1] == b);
    let hole = holes(ids[a], ids[b], 0, ids[s], 0, 0);
    assert(symbolic(program[i]).1.map_values(|k: int| ids[k]) =~= seq![ids[ab], ids[s]]);
    assert(symbolic(program[ab]).1.map_values(|k: int| ids[k]) =~= seq![ids[a], ids[b]]);
    let (pa, pb, ps) = (p_any(Hole::A), p_any(Hole::B), p_any(Hole::S));
    let lhs = p_emul(p_matmul(pa, pb), ps);
    assert(scale_distrib_rules()[2].lhs == lhs && scale_distrib_rules()[3].lhs == lhs);
    assert(scale_distrib_rules()[2].rhs == p_matmul(p_emul(pa, ps), pb));
    assert(scale_distrib_rules()[3].rhs == p_matmul(pa, p_emul(pb, ps)));
    assert(pattern_class(classes, pa, hole) == Some(ids[a]));
    assert(pattern_class(classes, pb, hole) == Some(ids[b]));
    assert(pattern_class(classes, ps, hole) == Some(ids[s]));
    assert(pattern_class(classes, p_matmul(pa, pb), hole) == Some(ids[ab]));
    assert(pattern_class(classes, lhs, hole) == Some(ids[i]));
    lemma_number_moves(run, program, inputs, ids, s, 2, hole, ids[i]);
    lemma_number_moves(run, program, inputs, ids, s, 3, hole, ids[i]);
    let left = pattern_class(classes, p_emul(pa, ps), hole);
    let right = pattern_class(classes, p_emul(pb, ps), hole);
    assert(left is Some && right is Some);
    let (l, r) = (Node::EMul(a, s), Node::EMul(b, s));
    assert(symbolic(l).1.map_values(|k: int| ids[k]) =~= seq![ids[a], ids[s]]);
    assert(symbolic(r).1.map_values(|k: int| ids[k]) =~= seq![ids[b], ids[s]]);
    lemma_one_more(classes, program, ids, l, left.unwrap());
    lemma_one_more(classes, program, ids, r, right.unwrap());
    let (lmore, rmore) = (ids.push(left.unwrap()), ids.push(right.unwrap()));
    let (ln, rn) = (
        Node::MatMul(program.len() as int, b),
        Node::MatMul(a, program.len() as int),
    );
    assert(symbolic(ln).1.map_values(|k: int| lmore[k]) =~= seq![left.unwrap(), ids[b]]);
    assert(symbolic(rn).1.map_values(|k: int| rmore[k]) =~= seq![ids[a], right.unwrap()]);
    lemma_one_more(classes, program.push(l), lmore, ln, ids[i]);
    lemma_one_more(classes, program.push(r), rmore, rn, ids[i]);
}

} // verus!
