//! Equality saturation: the search for equivalent programs, done by the `egg` e-graph library.
//!
//! A program enters as a list of operator names over earlier positions, and the rules enter as
//! s-expressions. What comes back is a set of e-classes. Each e-class is a set of nodes over
//! e-classes, and all of its nodes compute the same value.
use crate::egraph::{
    graph_closed, graph_views, import_classes, named, represents, shapes_of, EGraph, ShapeAnalysis,
};
use crate::extract::fused_plan;
use crate::ir::{
    dims, is_factor, well_ordered, Id, Node, Program, Shapes, TensorLang,
};
use crate::names::NameMap;
use crate::rules::{
    equations, fusion_rules, rules_for, rules_move_only_numbers, scale_distrib, scale_distrib_rules,
    scale_rules_in, scale_rules_of, scales_at, unconditional_rewrites, unconditional_rules,
    Equation, Hole, Pattern, Rule,
};
use crate::shape_laws::{fits, fitting_programs_are_shaped};
use crate::text::to_decimal;
use vstd::prelude::*;

verus! {

// ---- Operators by name ----

/// A node by name: the operator, or the input's name, and the operands.
pub open spec fn symbolic(node: Node) -> (Seq<char>, Seq<int>) {
    match node {
        Node::Var(name) => (name, seq![]),
        Node::MatMul(a, b) => ("matmul"@, seq![a, b]),
        Node::Transpose(a) => ("transpose"@, seq![a]),
        Node::EMul(a, b) => ("emul"@, seq![a, b]),
        Node::Softmax(a) => ("softmax"@, seq![a]),
        Node::Relu(a) => ("relu"@, seq![a]),
        Node::Fuse(a) => ("fuse"@, seq![a]),
    }
}

/// The nodes of a program by name.
pub open spec fn symbolics(nodes: Seq<Node>) -> Seq<(Seq<char>, Seq<int>)> {
    nodes.map_values(|n: Node| symbolic(n))
}

/// Whether every operand stands before its node.
pub open spec fn in_order(nodes: Seq<(Seq<char>, Seq<int>)>) -> bool {
    forall|i: int, k: int|
        0 <= i < nodes.len() && 0 <= k < nodes[i].1.len() ==> 0 <= #[trigger] nodes[i].1[k] < i
}

/// Whether this is an input, or an operator of the IR with the right number of operands.
pub open spec fn spelled(n: (Seq<char>, Seq<int>)) -> bool {
    ||| n.1.len() == 0
    ||| n.1.len() == 2 && (n.0 == "matmul"@ || n.0 == "emul"@)
    ||| n.1.len() == 1 && (n.0 == "transpose"@ || n.0 == "softmax"@ || n.0 == "relu"@ || n.0
        == "fuse"@)
}

pub open spec fn all_spelled(nodes: Seq<(Seq<char>, Seq<int>)>) -> bool {
    forall|i: int| 0 <= i < nodes.len() ==> spelled(#[trigger] nodes[i])
}

// ---- Values ----

/// The values of the first `count` nodes of a program, for one meaning of the operators.
pub open spec fn values(
    nodes: Seq<(Seq<char>, Seq<int>)>,
    meaning: spec_fn(Seq<char>, Seq<int>) -> int,
    count: nat,
) -> Seq<int>
    decreases count,
{
    if count == 0 {
        seq![]
    } else {
        let before = values(nodes, meaning, (count - 1) as nat);
        let (op, operands) = nodes[count - 1];
        before.push(meaning(op, operands.map_values(|k: int| before[k])))
    }
}

/// The value of a program: that of its last node.
pub open spec fn program_value(
    nodes: Seq<Node>,
    meaning: spec_fn(Seq<char>, Seq<int>) -> int,
) -> int {
    values(symbolics(nodes), meaning, nodes.len()).last()
}

/// The value of a pattern, for one meaning of the operators and one value of each hole.
pub open spec fn pattern_value(
    p: Pattern,
    meaning: spec_fn(Seq<char>, Seq<int>) -> int,
    hole: spec_fn(Hole) -> int,
) -> int
    decreases p,
{
    match p {
        Pattern::Any(h) => hole(h),
        Pattern::MatMul(a, b) => meaning(
            "matmul"@,
            seq![pattern_value(*a, meaning, hole), pattern_value(*b, meaning, hole)],
        ),
        Pattern::Transpose(a) => meaning("transpose"@, seq![pattern_value(*a, meaning, hole)]),
        Pattern::EMul(a, b) => meaning(
            "emul"@,
            seq![pattern_value(*a, meaning, hole), pattern_value(*b, meaning, hole)],
        ),
        Pattern::Softmax(a) => meaning("softmax"@, seq![pattern_value(*a, meaning, hole)]),
        Pattern::Relu(a) => meaning("relu"@, seq![pattern_value(*a, meaning, hole)]),
        Pattern::Fuse(a) => meaning("fuse"@, seq![pattern_value(*a, meaning, hole)]),
    }
}

/// Whether the hole `?s` has the value of the term that a rule is given.
pub open spec fn values_given(
    e: Equation,
    meaning: spec_fn(Seq<char>, Seq<int>) -> int,
    hole: spec_fn(Hole) -> int,
) -> bool {
    e.given matches Some(term) ==> hole(Hole::S) == program_value(term, meaning)
}

/// Whether both sides of every rule have the same value, whatever the holes stand for. A hole that
/// is given a term stands for that term.
pub open spec fn rules_hold(
    rules: Seq<Equation>,
    meaning: spec_fn(Seq<char>, Seq<int>) -> int,
) -> bool {
    forall|i: int, hole: spec_fn(Hole) -> int|
        0 <= i < rules.len() && values_given(rules[i], meaning, hole) ==> #[trigger] pattern_value(
            rules[i].lhs,
            meaning,
            hole,
        ) == pattern_value(rules[i].rhs, meaning, hole)
}

/// Whether `of` gives each e-class one value, and every node of the class computes it.
pub open spec fn values_classes(
    classes: Map<int, Set<(Seq<char>, Seq<int>)>>,
    meaning: spec_fn(Seq<char>, Seq<int>) -> int,
    of: spec_fn(int) -> int,
) -> bool {
    forall|id: int, n: (Seq<char>, Seq<int>)|
        classes.dom().contains(id) && #[trigger] classes[id].contains(n) ==> meaning(
            n.0,
            n.1.map_values(of),
        ) == of(id)
}

// ---- E-classes ----

/// Whether the operands of every node are e-classes themselves.
pub open spec fn classes_closed(classes: Map<int, Set<(Seq<char>, Seq<int>)>>) -> bool {
    forall|id: int, n: (Seq<char>, Seq<int>), k: int|
        #![trigger classes[id].contains(n), n.1[k]]
        classes.dom().contains(id) && classes[id].contains(n) && 0 <= k < n.1.len()
            ==> classes.dom().contains(n.1[k])
}

/// Whether no node is in two e-classes.
pub open spec fn classes_congruent(classes: Map<int, Set<(Seq<char>, Seq<int>)>>) -> bool {
    forall|i: int, j: int, n: (Seq<char>, Seq<int>)|
        classes.dom().contains(i) && classes.dom().contains(j) && #[trigger] classes[i].contains(n)
            && #[trigger] classes[j].contains(n) ==> i == j
}

/// The e-class that holds the node `n`.
pub open spec fn class_of(
    classes: Map<int, Set<(Seq<char>, Seq<int>)>>,
    n: (Seq<char>, Seq<int>),
) -> Option<int> {
    if exists|id: int| classes.dom().contains(id) && #[trigger] classes[id].contains(n) {
        Some(choose|id: int| classes.dom().contains(id) && #[trigger] classes[id].contains(n))
    } else {
        None
    }
}

/// The e-classes of the first `count` nodes of a program, if all of them are there.
pub open spec fn classes_of(
    classes: Map<int, Set<(Seq<char>, Seq<int>)>>,
    nodes: Seq<(Seq<char>, Seq<int>)>,
    count: nat,
) -> Option<Seq<int>>
    decreases count,
{
    if count == 0 {
        Some(seq![])
    } else {
        match classes_of(classes, nodes, (count - 1) as nat) {
            Some(ids) => {
                let n = nodes[count - 1];
                match class_of(classes, (n.0, n.1.map_values(|k: int| ids[k]))) {
                    Some(id) => Some(ids.push(id)),
                    None => None,
                }
            },
            None => None,
        }
    }
}

/// The e-class of a whole program: that of its last node.
pub open spec fn class_of_program(
    classes: Map<int, Set<(Seq<char>, Seq<int>)>>,
    nodes: Seq<(Seq<char>, Seq<int>)>,
) -> Option<int> {
    match classes_of(classes, nodes, nodes.len()) {
        Some(ids) => if ids.len() > 0 {
            Some(ids.last())
        } else {
            None
        },
        None => None,
    }
}

/// The e-class of a pattern, for one e-class of each hole; nothing where some node of it is not
/// there.
pub open spec fn pattern_class(
    classes: Map<int, Set<(Seq<char>, Seq<int>)>>,
    p: Pattern,
    hole: spec_fn(Hole) -> int,
) -> Option<int>
    decreases p,
{
    match p {
        Pattern::Any(h) => if classes.dom().contains(hole(h)) {
            Some(hole(h))
        } else {
            None
        },
        Pattern::MatMul(a, b) => match (
            pattern_class(classes, *a, hole),
            pattern_class(classes, *b, hole),
        ) {
            (Some(x), Some(y)) => class_of(classes, ("matmul"@, seq![x, y])),
            _ => None,
        },
        Pattern::EMul(a, b) => match (
            pattern_class(classes, *a, hole),
            pattern_class(classes, *b, hole),
        ) {
            (Some(x), Some(y)) => class_of(classes, ("emul"@, seq![x, y])),
            _ => None,
        },
        Pattern::Transpose(a) => match pattern_class(classes, *a, hole) {
            Some(x) => class_of(classes, ("transpose"@, seq![x])),
            None => None,
        },
        Pattern::Softmax(a) => match pattern_class(classes, *a, hole) {
            Some(x) => class_of(classes, ("softmax"@, seq![x])),
            None => None,
        },
        Pattern::Relu(a) => match pattern_class(classes, *a, hole) {
            Some(x) => class_of(classes, ("relu"@, seq![x])),
            None => None,
        },
        Pattern::Fuse(a) => match pattern_class(classes, *a, hole) {
            Some(x) => class_of(classes, ("fuse"@, seq![x])),
            None => None,
        },
    }
}

/// Whether the hole `?s` stands for the e-class of the term that a rule is given.
pub open spec fn classes_given(
    classes: Map<int, Set<(Seq<char>, Seq<int>)>>,
    e: Equation,
    hole: spec_fn(Hole) -> int,
) -> bool {
    e.given matches Some(term) ==> class_of_program(classes, symbolics(term)) == Some(
        hole(Hole::S),
    )
}

/// Whether every match of the left side of a rule has its right side in the same e-class.
pub open spec fn closed_under(
    classes: Map<int, Set<(Seq<char>, Seq<int>)>>,
    rules: Seq<Equation>,
) -> bool {
    forall|i: int, hole: spec_fn(Hole) -> int|
        0 <= i < rules.len() && classes_given(classes, rules[i], hole) && (
        #[trigger] pattern_class(classes, rules[i].lhs, hole)) is Some ==> pattern_class(
            classes,
            rules[i].rhs,
            hole,
        ) == pattern_class(classes, rules[i].lhs, hole)
}

/// Whether all nodes of a pattern are there, in e-classes that are `good`.
pub open spec fn all_good(
    classes: Map<int, Set<(Seq<char>, Seq<int>)>>,
    p: Pattern,
    hole: spec_fn(Hole) -> int,
    good: spec_fn(int) -> bool,
) -> bool
    decreases p,
{
    &&& pattern_class(classes, p, hole) matches Some(id) && good(id)
    &&& match p {
        Pattern::Any(_) => true,
        Pattern::MatMul(a, b) | Pattern::EMul(a, b) => all_good(classes, *a, hole, good)
            && all_good(classes, *b, hole, good),
        Pattern::Transpose(a) | Pattern::Softmax(a) | Pattern::Relu(a) | Pattern::Fuse(
            a,
        ) => all_good(classes, *a, hole, good),
    }
}

/// Whether the e-classes of a program are `good`, and with those of the left side of a rule those
/// of its right side are, where that is there.
pub open spec fn spreads(
    classes: Map<int, Set<(Seq<char>, Seq<int>)>>,
    nodes: Seq<(Seq<char>, Seq<int>)>,
    rules: Seq<Equation>,
    good: spec_fn(int) -> bool,
) -> bool {
    &&& forall|i: int|
        0 <= i < nodes.len() ==> good(
            #[trigger] classes_of(classes, nodes, nodes.len()).unwrap()[i],
        )
    &&& forall|i: int, hole: spec_fn(Hole) -> int|
        #![trigger all_good(classes, rules[i].lhs, hole, good)]
        0 <= i < rules.len() && classes_given(classes, rules[i], hole) && all_good(
            classes,
            rules[i].lhs,
            hole,
            good,
        ) && pattern_class(classes, rules[i].rhs, hole) is Some ==> all_good(
            classes,
            rules[i].rhs,
            hole,
            good,
        )
}

/// Whether every e-class comes from the program by the rules: what spreads from the program along
/// the rules is true of all e-classes.
pub open spec fn all_reached(
    classes: Map<int, Set<(Seq<char>, Seq<int>)>>,
    nodes: Seq<(Seq<char>, Seq<int>)>,
    rules: Seq<Equation>,
) -> bool {
    forall|good: spec_fn(int) -> bool, id: int|
        #![trigger spreads(classes, nodes, rules, good), classes.dom().contains(id)]
        spreads(classes, nodes, rules, good) && classes.dom().contains(id) ==> good(id)
}

// ---- Rules as text ----

/// A rule as text: its name, what it matches, what it makes of it, and the hole that is given with
/// the term that it is given.
pub open spec fn rule_text(e: Equation) -> RuleText {
    RuleText {
        name: e.name,
        lhs: e.lhs.text(),
        rhs: e.rhs.text(),
        given: match e.given {
            Some(term) => Some((Hole::S.text(), symbolics(term))),
            None => None,
        },
    }
}

/// The texts of a rule, and the term that a hole of it is given.
pub struct RuleText {
    pub name: Seq<char>,
    pub lhs: Seq<char>,
    pub rhs: Seq<char>,
    pub given: Option<(Seq<char>, Seq<(Seq<char>, Seq<int>)>)>,
}

pub open spec fn rule_texts(rules: Seq<Equation>) -> Seq<RuleText> {
    rules.map_values(|e: Equation| rule_text(e))
}

/// Whether every hole on the right of a rule occurs on its left.
pub open spec fn holes_bound(rules: Seq<Equation>) -> bool {
    forall|i: int, hole: Hole|
        0 <= i < rules.len() && #[trigger] rules[i].rhs.mentions(hole) ==> rules[i].lhs.mentions(
            hole,
        )
}

// ---- The e-graph library ----

/// `egg::SymbolLang`, a node by the name of its operator. Opaque here.
#[verifier::external_type_specification]
#[verifier::external_body]
pub struct ExSymbolLang(egg::SymbolLang);

/// `egg::RecExpr`, a list of nodes over earlier ones. What it holds is named by `expr_nodes`.
#[verifier::external_type_specification]
#[verifier::external_body]
#[verifier::reject_recursive_types(L)]
pub struct ExRecExpr<L>(egg::RecExpr<L>);

/// The nodes of an `egg::RecExpr` in order: each by its operator and the positions of its operands.
pub uninterp spec fn expr_nodes(e: egg::RecExpr<egg::SymbolLang>) -> Seq<(Seq<char>, Seq<int>)>;

/// `egg::RecExpr::default`: the expression without nodes.
#[verifier::external_body]
fn expr_new() -> (e: egg::RecExpr<egg::SymbolLang>)
    ensures
        expr_nodes(e) == Seq::<(Seq<char>, Seq<int>)>::empty(),
{
    egg::RecExpr::default()
}

/// `egg::RecExpr::add` of an `egg::SymbolLang`: the node goes behind those that are there. The
/// operands must be there already, and positions must fit in 32 bits.
#[verifier::external_body]
fn expr_add(e: &mut egg::RecExpr<egg::SymbolLang>, op: &str, operands: &Vec<usize>)
    requires
        expr_nodes(*old(e)).len() < 0x1_0000_0000,
        forall|k: int|
            0 <= k < operands@.len() ==> (#[trigger] operands@[k]) < expr_nodes(*old(e)).len(),
    ensures
        expr_nodes(*final(e)) == expr_nodes(*old(e)).push(
            (op@, operands@.map_values(|k: usize| k as int)),
        ),
{
    let operands = operands.iter().map(|k| egg::Id::from(*k)).collect();
    e.add(egg::SymbolLang::new(op, operands));
}

/// `egg::Rewrite`, a rule. What it holds is named by `rewrite_text`.
#[verifier::external_type_specification]
#[verifier::external_body]
#[verifier::reject_recursive_types(L)]
#[verifier::reject_recursive_types(N)]
pub struct ExRewrite<L, N>(egg::Rewrite<L, N>);

/// What an `egg::Rewrite` holds: the texts of its name, of what it matches and of what it makes of
/// it, and under a condition the hole and the term that must be equal to it.
pub uninterp spec fn rewrite_text(r: egg::Rewrite<egg::SymbolLang, ()>) -> RuleText;

pub open spec fn rewrite_texts(rewrites: Seq<egg::Rewrite<egg::SymbolLang, ()>>) -> Seq<RuleText> {
    rewrites.map_values(|r: egg::Rewrite<egg::SymbolLang, ()>| rewrite_text(r))
}

/// `egg::Rewrite::new` on two `egg::Pattern`s that are parsed from their text. The text of a
/// pattern is read, and a rule is accepted if every hole on its right is bound on its left; then
/// the rewrite is of these texts. Which other texts are read is not said.
#[verifier::external_body]
fn rewrite(name: &str, lhs: &str, rhs: &str) -> (made: Result<
    egg::Rewrite<egg::SymbolLang, ()>,
    String,
>)
    ensures
        forall|e: Equation| #[trigger]
            rule_text(e) == (RuleText { name: name@, lhs: lhs@, rhs: rhs@, given: None })
                && holes_bound(seq![e]) ==> made is Ok,
        made matches Ok(r) ==> rewrite_text(r) == (RuleText {
            name: name@,
            lhs: lhs@,
            rhs: rhs@,
            given: None,
        }),
{
    let searcher: egg::Pattern<egg::SymbolLang> = lhs.parse().map_err(|_| lhs.to_string())?;
    let applier: egg::Pattern<egg::SymbolLang> = rhs.parse().map_err(|_| rhs.to_string())?;
    egg::Rewrite::new(name, searcher, applier)
}

/// `egg::Rewrite::new` with an `egg::ConditionalApplier` under an `egg::ConditionEqual`: the rule
/// applies only where what `hole` stands for is equal to the term at position `at` of `expr`, which
/// `egg::Language::build_recexpr` takes out of it. The hole must be bound on the left too.
#[verifier::external_body]
fn rewrite_given(
    name: &str,
    lhs: &str,
    rhs: &str,
    hole: &str,
    expr: &egg::RecExpr<egg::SymbolLang>,
    at: usize,
) -> (made: Result<egg::Rewrite<egg::SymbolLang, ()>, String>)
    requires
        at < expr_nodes(*expr).len() <= 0xffff_ffff,
        in_order(expr_nodes(*expr)),
    ensures
        forall|e: Equation| #[trigger]
            rule_text(e) == (RuleText {
                name: name@,
                lhs: lhs@,
                rhs: rhs@,
                given: Some((hole@, expr_nodes(*expr).take(at + 1))),
            }) && holes_bound(seq![e]) && e.lhs.mentions(Hole::S) ==> made is Ok,
        made matches Ok(r) ==> rewrite_text(r) == (RuleText {
            name: name@,
            lhs: lhs@,
            rhs: rhs@,
            given: Some((hole@, expr_nodes(*expr).take(at + 1))),
        }),
{
    let root = &expr[egg::Id::from(at)];
    let term = egg::Language::build_recexpr(root, |id| expr[id].clone());
    let searcher: egg::Pattern<egg::SymbolLang> = lhs.parse().map_err(|_| lhs.to_string())?;
    let applier: egg::Pattern<egg::SymbolLang> = rhs.parse().map_err(|_| rhs.to_string())?;
    let any: egg::Pattern<egg::SymbolLang> = hole.parse().map_err(|_| hole.to_string())?;
    let condition = egg::ConditionEqual::new(any, egg::Pattern::from(&term));
    egg::Rewrite::new(name, searcher, egg::ConditionalApplier { condition, applier })
}

/// A finished run of the e-graph search, an `egg::Runner`. What it holds is named by
/// `run_classes`, `run_iterations`, `run_saturated`, `run_timed_out` and `run_size`.
#[verifier::external_body]
pub struct Saturated {
    runner: egg::Runner<egg::SymbolLang, ()>,
}

/// The e-classes of a run: the canonical id of each, and its nodes, whose operands are ids.
pub uninterp spec fn run_classes(s: Saturated) -> Map<int, Set<(Seq<char>, Seq<int>)>>;

/// The number of iterations of a run.
pub uninterp spec fn run_iterations(s: Saturated) -> nat;

/// Whether a run stopped because it was saturated: nothing more was to be learned from the rules.
pub uninterp spec fn run_saturated(s: Saturated) -> bool;

/// Whether a run stopped at its time limit.
pub uninterp spec fn run_timed_out(s: Saturated) -> bool;

/// The number of nodes at which a run stopped, where it stopped for their number, and else zero.
pub uninterp spec fn run_size(s: Saturated) -> nat;

/// Whether the terms that rules are given stand in a program.
pub open spec fn given_in(texts: Seq<RuleText>, nodes: Seq<(Seq<char>, Seq<int>)>) -> bool {
    forall|k: int|
        0 <= k < texts.len() ==> ((#[trigger] texts[k]).given matches Some((_, term)) ==> 0
            < term.len() <= nodes.len() && term == nodes.take(term.len() as int))
}

/// `egg::Runner::run`, with `with_expr`, `with_iter_limit` and `with_node_limit`.
///
/// After a run the operands of every node are e-classes. Their ids are numbers of 32 bits that
/// count up from zero, one for each node ever made, and no rule is applied once there are more
/// nodes than the limit; so the largest number of 32 bits is not reached. No node is in two
/// e-classes. Every node of the program is found in an e-class. Every operator comes from the
/// program or the rules, which bring in no inputs, and every e-class from the program, or from the
/// right side of a rule whose left side was there before. Whatever the operators mean, each e-class
/// has one value as long as the rules hold: classes are merged only where a rule matched and its
/// condition was met, or where operators and operands agree. A run takes at least one iteration,
/// and no more than the limit where that is not zero. It stops for no other reason than that it is
/// saturated or at one of its three limits.
///
/// How far the search gets also depends on the node limit, on a time limit of five seconds and on
/// the machine, so when a run is saturated is not said. Where it is, the last iteration searched
/// for every rule without a ban, applied every match and changed nothing: so each match has the
/// right side of the rule in its e-class.
#[verifier::external_body]
fn run(
    expr: &egg::RecExpr<egg::SymbolLang>,
    rules: &Vec<egg::Rewrite<egg::SymbolLang, ()>>,
    iter_limit: usize,
    node_limit: usize,
) -> (s: Saturated)
    requires
        0 < expr_nodes(*expr).len() <= 0xffff_ffff,
        in_order(expr_nodes(*expr)),
        node_limit <= 0x7fff_ffff,
        given_in(rewrite_texts(rules@), expr_nodes(*expr)),
    ensures
        run_classes(s).dom().finite(),
        forall|id: int| #[trigger]
            run_classes(s).dom().contains(id) ==> 0 <= id < 0xffff_ffff,
        classes_closed(run_classes(s)),
        classes_congruent(run_classes(s)),
        classes_of(run_classes(s), expr_nodes(*expr), expr_nodes(*expr).len()) is Some,
        forall|eqs: Seq<Equation>, id: int, n: (Seq<char>, Seq<int>)|
            #![trigger rule_texts(eqs), run_classes(s)[id].contains(n)]
            rule_texts(eqs) == rewrite_texts(rules@) && all_spelled(expr_nodes(*expr))
                && run_classes(s).dom().contains(id) && run_classes(s)[id].contains(n) ==> spelled(
                n,
            ),
        forall|eqs: Seq<Equation>, id: int, n: (Seq<char>, Seq<int>)|
            #![trigger rule_texts(eqs), run_classes(s)[id].contains(n)]
            rule_texts(eqs) == rewrite_texts(rules@) && run_classes(s).dom().contains(id)
                && run_classes(s)[id].contains(n) && n.1.len() == 0 ==> expr_nodes(*expr).contains(
                n,
            ),
        forall|eqs: Seq<Equation>, meaning: spec_fn(Seq<char>, Seq<int>) -> int|
            #![trigger rule_texts(eqs), rules_hold(eqs, meaning)]
            rule_texts(eqs) == rewrite_texts(rules@) && rules_hold(eqs, meaning) ==> exists|
                of: spec_fn(int) -> int,
            | #[trigger]
                values_classes(run_classes(s), meaning, of),
        forall|eqs: Seq<Equation>|
            run_saturated(s) && #[trigger] rule_texts(eqs) == rewrite_texts(rules@)
                ==> closed_under(run_classes(s), eqs),
        forall|eqs: Seq<Equation>| #[trigger]
            rule_texts(eqs) == rewrite_texts(rules@) ==> all_reached(
                run_classes(s),
                expr_nodes(*expr),
                eqs,
            ),
        1 <= run_iterations(s),
        run_iterations(s) <= iter_limit || iter_limit == 0,
        run_saturated(s) || run_timed_out(s) || run_iterations(s) >= iter_limit || run_size(s)
            > node_limit,
{
    let runner = egg::Runner::default().with_expr(expr);
    let runner = runner.with_iter_limit(iter_limit).with_node_limit(node_limit);
    Saturated { runner: runner.run(rules) }
}

/// `egg::EGraph::lookup_expr`: the e-class of the program's last node, if every node is there.
#[verifier::external_body]
fn run_lookup(s: &Saturated, e: &egg::RecExpr<egg::SymbolLang>) -> (id: Option<usize>)
    requires
        in_order(expr_nodes(*e)),
    ensures
        match id {
            Some(i) => class_of_program(run_classes(*s), expr_nodes(*e)) == Some(i as int),
            None => class_of_program(run_classes(*s), expr_nodes(*e)) is None,
        },
{
    s.runner.egraph.lookup_expr(e).map(usize::from)
}

/// The iterations of the run, `egg::Runner::iterations`.
#[verifier::external_body]
fn run_iteration_count(s: &Saturated) -> (count: usize)
    ensures
        count == run_iterations(*s),
{
    s.runner.iterations.len()
}

/// `egg::Runner::stop_reason`: whether it is `egg::StopReason::Saturated`.
#[verifier::external_body]
fn run_is_saturated(s: &Saturated) -> (saturated: bool)
    ensures
        saturated == run_saturated(*s),
{
    match &s.runner.stop_reason {
        Some(egg::StopReason::Saturated) => true,
        _ => false,
    }
}

/// `egg::EGraph::number_of_classes`.
#[verifier::external_body]
fn run_class_count(s: &Saturated) -> (count: usize)
    ensures
        count == run_classes(*s).dom().len(),
{
    s.runner.egraph.number_of_classes()
}

/// The nodes of one exported e-class.
pub open spec fn exported_nodes(nodes: Seq<(String, Vec<usize>)>) -> Set<(Seq<char>, Seq<int>)> {
    nodes.map_values(
        |n: (String, Vec<usize>)| (n.0@, n.1@.map_values(|k: usize| k as int)),
    ).to_set()
}

/// Whether `exported` lists exactly the e-classes of `classes`, each once.
pub open spec fn exports(
    exported: Seq<(usize, Vec<(String, Vec<usize>)>)>,
    classes: Map<int, Set<(Seq<char>, Seq<int>)>>,
) -> bool {
    &&& forall|i: int|
        0 <= i < exported.len() ==> classes.dom().contains((#[trigger] exported[i]).0 as int)
            && classes[exported[i].0 as int] == exported_nodes(exported[i].1@)
    &&& forall|id: int| #[trigger]
        classes.dom().contains(id) ==> exists|i: int|
            0 <= i < exported.len() && (#[trigger] exported[i]).0 == id
    &&& forall|i: int, j: int|
        0 <= i < j < exported.len() ==> (#[trigger] exported[i]).0 != (#[trigger] exported[j]).0
}

/// `egg::EGraph::classes`: every e-class with its id and its nodes. The order is left open.
#[verifier::external_body]
fn run_export(s: &Saturated) -> (exported: Vec<(usize, Vec<(String, Vec<usize>)>)>)
    ensures
        exports(exported@, run_classes(*s)),
{
    let node = |n: &egg::SymbolLang| {
        (n.op.to_string(), n.children.iter().map(|c| usize::from(*c)).collect())
    };
    let classes = s.runner.egraph.classes();
    classes.map(|c| (usize::from(c.id), c.nodes.iter().map(node).collect())).collect()
}

// ---- Saturation ----

/// The program as `egg` takes it.
fn to_egg(expr: &Program) -> (e: egg::RecExpr<egg::SymbolLang>)
    requires
        well_ordered(expr@),
        expr@.len() <= 0xffff_ffff,
    ensures
        expr_nodes(e) == symbolics(expr@),
        in_order(expr_nodes(e)),
        all_spelled(expr_nodes(e)),
{
    let mut e = expr_new();
    let mut i: usize = 0;
    assert(expr_nodes(e) =~= symbolics(expr@.take(0)));
    while i < expr.nodes.len()
        invariant
            i <= expr@.len(),
            well_ordered(expr@),
            expr@.len() <= 0xffff_ffff,
            expr_nodes(e) == symbolics(expr@.take(i as int)),
        decreases expr@.len() - i,
    {
        let node = &expr.nodes[i];
        let operands = node.children();
        assert(expr@[i as int] == node@);
        assert(node@.operands_below(i as int));
        assert(operands@.map_values(|k: usize| k as int) =~= node@.children());
        let op: &str = match node {
            TensorLang::Var(name) => name.as_str(),
            TensorLang::MatMul(_, _) => "matmul",
            TensorLang::Transpose(_) => "transpose",
            TensorLang::EMul(_, _) => "emul",
            TensorLang::Softmax(_) => "softmax",
            TensorLang::Relu(_) => "relu",
            TensorLang::Fuse(_) => "fuse",
        };
        assert(symbolic(node@) == (op@, node@.children()));
        expr_add(&mut e, op, &operands);
        assert(symbolics(expr@.take(i as int + 1)) =~= symbolics(expr@.take(i as int)).push(
            symbolic(node@),
        ));
        i = i + 1;
    }
    assert(expr@.take(expr@.len() as int) =~= expr@);
    assert forall|i: int, k: int|
        0 <= i < expr_nodes(e).len() && 0 <= k < expr_nodes(e)[i].1.len() implies 0
        <= #[trigger] expr_nodes(e)[i].1[k] < i by {
        assert(expr@[i].operands_below(i));
        assert(expr_nodes(e)[i].1 == expr@[i].children());
    }
    e
}

/// The rules as `egg` takes them.
fn to_rewrites(rules: &Vec<Rule>) -> (rewrites: Vec<egg::Rewrite<egg::SymbolLang, ()>>)
    requires
        holes_bound(equations(rules@)),
    ensures
        rewrite_texts(rewrites@) == rule_texts(equations(rules@)),
{
    let mut rewrites: Vec<egg::Rewrite<egg::SymbolLang, ()>> = Vec::new();
    let ghost eqs = equations(rules@);
    let mut i: usize = 0;
    while i < rules.len()
        invariant
            i <= rules@.len(),
            eqs == equations(rules@),
            holes_bound(eqs),
            rewrites@.len() == i,
            forall|k: int|
                0 <= k < i ==> rewrite_text(#[trigger] rewrites@[k]) == rule_text(eqs[k]),
        decreases rules@.len() - i,
    {
        let rule = &rules[i];
        let lhs = rule.lhs.render();
        let rhs = rule.rhs.render();
        assert(eqs[i as int] == rule@);
        assert(rule_text(rule@) == (RuleText {
            name: rule.name@,
            lhs: lhs@,
            rhs: rhs@,
            given: None,
        }));
        assert(holes_bound(seq![rule@]));
        match rewrite(rule.name, lhs.as_str(), rhs.as_str()) {
            Ok(r) => {
                rewrites.push(r);
            },
            Err(_) => {
                assert(false);
            },
        }
        i = i + 1;
    }
    assert(rewrite_texts(rewrites@) =~= rule_texts(eqs));
    rewrites
}

/// Every hole on the right of a rule occurs on its left.
pub proof fn lemma_holes_bound()
    ensures
        holes_bound(unconditional_rules()),
        holes_bound(scale_distrib_rules()),
        forall|k: int| 0 <= k < 4 ==> (#[trigger] scale_distrib_rules()[k]).lhs.mentions(Hole::S),
{
    reveal_with_fuel(Pattern::mentions, 4);
    assert(unconditional_rules().len() == 6);
    assert(scale_distrib_rules().len() == 4);
}

/// Adds the rules that move the number at position `b` of a program.
fn add_scale_rewrites(
    rewrites: &mut Vec<egg::Rewrite<egg::SymbolLang, ()>>,
    e: &egg::RecExpr<egg::SymbolLang>,
    b: Id,
    Ghost(program): Ghost<Seq<Node>>,
)
    requires
        expr_nodes(*e) == symbolics(program),
        in_order(expr_nodes(*e)),
        b < program.len() <= 0xffff_ffff,
    ensures
        rewrite_texts(final(rewrites)@) == rewrite_texts(old(rewrites)@) + rule_texts(
            scale_rules_of(program, b as int),
        ),
{
    let rules = scale_distrib();
    let hole: &str = Hole::S.as_str();
    let ghost before = rewrites@;
    let ghost eqs = scale_rules_of(program, b as int);
    let mut i: usize = 0;
    assert(rewrite_texts(before) + rule_texts(eqs.take(0)) =~= rewrite_texts(before));
    while i < rules.len()
        invariant
            i <= rules@.len(),
            equations(rules@) == scale_distrib_rules(),
            hole@ == Hole::S.text(),
            eqs == scale_rules_of(program, b as int),
            expr_nodes(*e) == symbolics(program),
            in_order(expr_nodes(*e)),
            b < program.len() <= 0xffff_ffff,
            rewrite_texts(rewrites@) == rewrite_texts(before) + rule_texts(eqs.take(i as int)),
        decreases rules@.len() - i,
    {
        let rule = &rules[i];
        let lhs = rule.lhs.render();
        let rhs = rule.rhs.render();
        let mut name = rule.name.to_owned();
        name.append("-");
        name.append(to_decimal(b as u64).as_str());
        let ghost e0 = eqs[i as int];
        proof {
            lemma_holes_bound();
            assert(equations(rules@)[i as int] == rule@);
            assert(e0.lhs == rule.lhs && e0.rhs == rule.rhs);
            assert(scale_distrib_rules().len() == 4);
            assert(scale_distrib_rules()[i as int].lhs.mentions(Hole::S));
            assert(name@ =~= e0.name);
            assert(symbolics(program.take(b + 1)) =~= symbolics(program).take(b + 1));
            assert(rule_text(e0) == (RuleText {
                name: name@,
                lhs: lhs@,
                rhs: rhs@,
                given: Some((hole@, expr_nodes(*e).take(b + 1))),
            }));
            assert(holes_bound(seq![e0])) by {
                assert forall|k: int, h: Hole|
                    0 <= k < 1 && #[trigger] seq![e0][k].rhs.mentions(
                        h,
                    ) implies seq![e0][k].lhs.mentions(h) by {
                    assert(scale_distrib_rules()[i as int].rhs.mentions(h));
                }
            }
        }
        match rewrite_given(
            name.as_str(),
            lhs.as_str(),
            rhs.as_str(),
            hole,
            e,
            b,
        ) {
            Ok(r) => {
                let ghost so_far = rewrites@;
                rewrites.push(r);
                assert(rewrite_texts(rewrites@) =~= rewrite_texts(so_far).push(rule_text(e0)));
                assert(rule_texts(eqs.take(i + 1)) =~= rule_texts(eqs.take(i as int)).push(
                    rule_text(e0),
                ));
            },
            Err(_) => {
                assert(false);
            },
        }
        i = i + 1;
    }
    assert(eqs.take(4) =~= eqs);
}

/// The iteration limit of the search.
pub const ITER_LIMIT: usize = 10;

/// The node limit of the search.
pub const NODE_LIMIT: usize = 50_000;

impl Saturated {
    /// The e-classes: the id of each, and its nodes over ids.
    pub open spec fn classes(self) -> Map<int, Set<(Seq<char>, Seq<int>)>> {
        run_classes(self)
    }

    /// Whether the e-classes are well formed and hold only operators of the IR.
    pub open spec fn well_formed(self) -> bool {
        &&& self.classes().dom().finite()
        &&& forall|id: int| #[trigger]
            self.classes().dom().contains(id) ==> 0 <= id < 0xffff_ffff
        &&& classes_closed(self.classes())
        &&& classes_congruent(self.classes())
        &&& forall|id: int, n: (Seq<char>, Seq<int>)|
            self.classes().dom().contains(id) && #[trigger] self.classes()[id].contains(n)
                ==> spelled(n)
    }

    /// Whether all nodes of an e-class compute one value, for every meaning of the operators in
    /// which `rules` hold.
    pub open spec fn sound(self, rules: Seq<Equation>) -> bool {
        forall|meaning: spec_fn(Seq<char>, Seq<int>) -> int| #[trigger]
            rules_hold(rules, meaning) ==> exists|of: spec_fn(int) -> int| #[trigger]
                values_classes(self.classes(), meaning, of)
    }

    /// Whether the run is one of a search over `program` with `rules`: it is well formed and sound,
    /// holds the program and what comes from it by the rules, goes on until it is saturated or at
    /// one of its limits, and has found all that the rules give where it is saturated.
    pub open spec fn searched(self, program: Seq<Node>, rules: Seq<Equation>) -> bool {
        &&& self.well_formed()
        &&& self.sound(rules)
        &&& class_of_program(self.classes(), symbolics(program)) is Some
        &&& forall|id: int, n: (Seq<char>, Seq<int>)|
            self.classes().dom().contains(id) && #[trigger] self.classes()[id].contains(n)
                && n.1.len() == 0 ==> symbolics(program).contains(n)
        &&& all_reached(self.classes(), symbolics(program), rules)
        &&& 1 <= run_iterations(self) <= ITER_LIMIT
        &&& run_saturated(self) || run_timed_out(self) || run_iterations(self) == ITER_LIMIT
            || run_size(self) > NODE_LIMIT
        &&& run_saturated(self) ==> closed_under(self.classes(), rules)
    }

    /// Whether the search found everything that follows by the rules.
    pub fn saturated(&self) -> (saturated: bool)
        ensures
            saturated == run_saturated(*self),
    {
        run_is_saturated(self)
    }

    /// The number of iterations that the search took.
    pub fn iterations(&self) -> (count: usize)
        ensures
            count == run_iterations(*self),
    {
        run_iteration_count(self)
    }

    /// The number of e-classes.
    pub fn number_of_classes(&self) -> (count: usize)
        ensures
            count == self.classes().dom().len(),
    {
        run_class_count(self)
    }

    /// The e-class of a program, if every node of it has one.
    pub fn lookup_expr(&self, expr: &Program) -> (id: Option<usize>)
        requires
            well_ordered(expr@),
            expr@.len() <= 0xffff_ffff,
        ensures
            match id {
                Some(i) => class_of_program(self.classes(), symbolics(expr@)) == Some(i as int),
                None => class_of_program(self.classes(), symbolics(expr@)) is None,
            },
    {
        run_lookup(self, &to_egg(expr))
    }
}

/// Searches over a program with the rules for these input shapes.
fn search(expr: &Program, inputs: &Shapes) -> (s: Saturated)
    requires
        well_ordered(expr@),
        0 < expr@.len() <= 0xffff_ffff,
    ensures
        s.searched(expr@, rules_for(expr@, dims(*inputs))),
{
    let rules = unconditional_rewrites();
    proof {
        lemma_holes_bound();
    }
    let mut rewrites = to_rewrites(&rules);
    let e = to_egg(expr);
    let ghost eqs = rules_for(expr@, dims(*inputs));
    let mut b: usize = 0;
    assert(unconditional_rules() + scale_rules_in(expr@, dims(*inputs), 0)
        =~= unconditional_rules());
    while b < expr.nodes.len()
        invariant
            b <= expr@.len(),
            0 < expr@.len() <= 0xffff_ffff,
            expr_nodes(e) == symbolics(expr@),
            in_order(expr_nodes(e)),
            rewrite_texts(rewrites@) == rule_texts(
                unconditional_rules() + scale_rules_in(expr@, dims(*inputs), b as nat),
            ),
        decreases expr@.len() - b,
    {
        let ghost before = unconditional_rules() + scale_rules_in(expr@, dims(*inputs), b as nat);
        let ghost after = unconditional_rules() + scale_rules_in(
            expr@,
            dims(*inputs),
            (b + 1) as nat,
        );
        if is_factor(expr, inputs, b) {
            add_scale_rewrites(&mut rewrites, &e, b, Ghost(expr@));
            assert(after =~= before + scale_rules_of(expr@, b as int));
            assert(rule_texts(after) =~= rule_texts(before) + rule_texts(
                scale_rules_of(expr@, b as int),
            ));
        } else {
            assert(after == before);
        }
        b = b + 1;
    }
    proof {
        lemma_given_in(expr@, dims(*inputs));
    }
    let s = run(&e, &rewrites, ITER_LIMIT, NODE_LIMIT);
    proof {
        assert(rule_texts(eqs) == rewrite_texts(rewrites@));
        lemma_classes_of_len(s.classes(), symbolics(expr@), expr@.len());
    }
    s
}

/// The rules for a program are given terms of the program.
proof fn lemma_given_in(program: Seq<Node>, inputs: Map<Seq<char>, Seq<usize>>)
    ensures
        given_in(rule_texts(rules_for(program, inputs)), symbolics(program)),
{
    let eqs = rules_for(program, inputs);
    let nodes = symbolics(program);
    assert forall|k: int| 0 <= k < rule_texts(eqs).len() implies (
    (#[trigger] rule_texts(eqs)[k]).given matches Some((_, term)) ==> 0 < term.len() <= nodes.len()
        && term == nodes.take(term.len() as int)) by {
        assert(rule_texts(eqs)[k] == rule_text(eqs[k]));
        rules_move_only_numbers(program, inputs, k);
        if eqs[k].given is Some {
            let b = choose|b: int| #[trigger] scales_at(eqs[k], program, inputs, b);
            assert(symbolics(program.take(b + 1)) =~= nodes.take(b + 1));
        }
    }
}

/// Saturates a program whose inputs may have any shapes. No term is then known to be a number, so
/// none is moved through a product; `saturate_shaped` moves those that are.
pub fn saturate(expr: &Program) -> (s: Saturated)
    requires
        well_ordered(expr@),
        0 < expr@.len() <= 0xffff_ffff,
    ensures
        s.searched(expr@, rules_for(expr@, Map::empty())),
{
    let shapes: Shapes = NameMap::new();
    assert(dims(shapes) =~= Map::empty());
    search(expr, &shapes)
}

/// There is one e-class for each node.
pub proof fn lemma_classes_of_len(
    classes: Map<int, Set<(Seq<char>, Seq<int>)>>,
    nodes: Seq<(Seq<char>, Seq<int>)>,
    count: nat,
)
    ensures
        classes_of(classes, nodes, count) matches Some(ids) ==> ids.len() == count,
    decreases count,
{
    if count > 0 {
        lemma_classes_of_len(classes, nodes, (count - 1) as nat);
    }
}

// ---- Saturation with shapes ----

/// A saturated program: the run, and the e-graph with the shape of every e-class. There is no
/// shaped e-graph where some operand has too few dimensions, or where equivalent terms disagree on
/// their shape.
pub struct Shaped {
    pub run: Saturated,
    pub egraph: Option<EGraph>,
}

proof fn lemma_closed(graph: Seq<Seq<Node>>, classes: Map<int, Set<(Seq<char>, Seq<int>)>>)
    requires
        represents(graph, classes),
        classes_closed(classes),
    ensures
        graph_closed(graph),
{
    assert forall|id: int, i: int| 0 <= id < graph.len() && 0 <= i < graph[id].len() implies (
    #[trigger] graph[id][i]).operands_below(graph.len() as int) by {
        let node = graph[id][i];
        let all = graph[id].map_values(|n: Node| symbolic(n));
        assert(all[i] == symbolic(node));
        assert(named(graph[id]).contains(symbolic(node)));
        assert(classes.dom().contains(id));
        assert forall|k: int| 0 <= k < node.children().len() implies 0
            <= #[trigger] node.children()[k] < graph.len() by {
            assert(symbolic(node).1[k] == node.children()[k]);
            assert(classes[id].contains(symbolic(node)));
        }
    }
}

/// Whether an e-graph holds these e-classes, with the shapes that follow from those of the inputs.
/// It is missing where some operand has too few dimensions, or where equivalent terms disagree on
/// their shape.
pub open spec fn is_shaped(
    egraph: Option<EGraph>,
    classes: Map<int, Set<(Seq<char>, Seq<int>)>>,
    inputs: Map<Seq<char>, Seq<usize>>,
) -> bool {
    match egraph {
        Some(e) => {
            &&& e.well_formed()
            &&& represents(e.graph(), classes)
            &&& shapes_of(inputs, e.graph()) == Some(e.shapes())
        },
        None => exists|graph: Seq<Seq<Node>>| #[trigger]
            represents(graph, classes) && shapes_of(inputs, graph) is None,
    }
}

/// The e-graph of a run, with the shapes that follow from those of the inputs.
pub fn shape_classes(run: &Saturated, inputs: Shapes) -> (egraph: Option<EGraph>)
    requires
        run.well_formed(),
    ensures
        is_shaped(egraph, run.classes(), dims(inputs)),
{
    let exported = run_export(run);
    assert forall|i: int| 0 <= i < exported@.len() implies (#[trigger] exported@[i]).0
        < usize::MAX by {
        assert(run.classes().dom().contains(exported@[i].0 as int));
    }
    match import_classes(&exported) {
        Some(nodes) => {
            proof {
                lemma_closed(graph_views(nodes@), run.classes());
            }
            let analysis = ShapeAnalysis { inputs };
            match analysis.shapes(&nodes) {
                Some(data) => {
                    Some(EGraph { nodes, data })
                },
                None => None,
            }
        },
        None => {
            proof {
                let (i, n) = choose|i: int, n: (Seq<char>, Seq<int>)|
                    0 <= i < exported@.len() && #[trigger] exported_nodes(
                        exported@[i].1@,
                    ).contains(n) && !spelled(n);
                assert(run.classes().dom().contains(exported@[i].0 as int));
                assert(run.classes()[exported@[i].0 as int].contains(n));
                assert(false);
            }
            None
        },
    }
}

/// Whether `shaped` can come of saturating `program` and shaping the e-classes from the shapes
/// `inputs`: the run is a search with the rules for these shapes, and the e-graph is that of the
/// run with the shapes that follow.
pub open spec fn shaped_from(
    shaped: Shaped,
    program: Seq<Node>,
    inputs: Map<Seq<char>, Seq<usize>>,
) -> bool {
    &&& shaped.run.searched(program, rules_for(program, inputs))
    &&& is_shaped(shaped.egraph, shaped.run.classes(), inputs)
}

/// The e-class of a program is one of the e-classes.
pub proof fn lemma_class_of_program(
    classes: Map<int, Set<(Seq<char>, Seq<int>)>>,
    nodes: Seq<(Seq<char>, Seq<int>)>,
)
    ensures
        class_of_program(classes, nodes) matches Some(id) ==> classes.dom().contains(id),
{
    if class_of_program(classes, nodes) is Some {
        lemma_classes_of_len(classes, nodes, nodes.len());
        let k = (nodes.len() - 1) as nat;
        let n = nodes[k as int];
        let ids = classes_of(classes, nodes, k).unwrap();
        let named = (n.0, n.1.map_values(|j: int| ids[j]));
        let id = class_of(classes, named).unwrap();
        assert(classes.dom().contains(id) && classes[id].contains(named));
    }
}

/// Where the shapes of a program fit, there is an e-graph with shapes.
proof fn lemma_fitting_is_shaped(
    shaped: Shaped,
    program: Seq<Node>,
    inputs: Map<Seq<char>, Seq<usize>>,
)
    requires
        shaped_from(shaped, program, inputs),
        well_ordered(program),
        fits(program, inputs),
    ensures
        shaped.egraph is Some,
{
    if shaped.egraph is None {
        let classes = shaped.run.classes();
        let graph = choose|graph: Seq<Seq<Node>>| #[trigger]
            represents(graph, classes) && shapes_of(inputs, graph) is None;
        lemma_closed(graph, classes);
        fitting_programs_are_shaped(shaped.run, program, inputs, graph);
    }
}

/// Saturates a program whose inputs have the shapes `inputs`, and finds the shape of every e-class.
/// Where the shapes of the program fit, there is an e-graph with shapes, however far the search
/// got.
pub fn saturate_shaped(expr: &Program, inputs: Shapes) -> (shaped: Shaped)
    requires
        well_ordered(expr@),
        0 < expr@.len() <= 0xffff_ffff,
    ensures
        shaped_from(shaped, expr@, dims(inputs)),
        fits(expr@, dims(inputs)) ==> shaped.egraph is Some,
{
    let run = search(expr, &inputs);
    let ghost shapes = dims(inputs);
    let egraph = shape_classes(&run, inputs);
    let shaped = Shaped { run, egraph };
    proof {
        assert(shaped_from(shaped, expr@, shapes));
        if fits(expr@, shapes) {
            lemma_fitting_is_shaped(shaped, expr@, shapes);
        }
    }
    shaped
}

/// Whether two programs are in one e-class.
pub open spec fn same_class(
    classes: Map<int, Set<(Seq<char>, Seq<int>)>>,
    a: Seq<Node>,
    b: Seq<Node>,
) -> bool {
    &&& class_of_program(classes, symbolics(a)) is Some
    &&& class_of_program(classes, symbolics(a)) == class_of_program(classes, symbolics(b))
}

/// Whether a run put two programs into one e-class.
pub fn found_equal(run: &Saturated, a: &Program, b: &Program) -> (equal: bool)
    requires
        well_ordered(a@),
        well_ordered(b@),
        a@.len() <= 0xffff_ffff,
        b@.len() <= 0xffff_ffff,
    ensures
        equal == same_class(run.classes(), a@, b@),
{
    match (run.lookup_expr(a), run.lookup_expr(b)) {
        (Some(i), Some(j)) => i == j,
        _ => false,
    }
}

/// True if the fused form is reachable from `naive` after saturation: the fusion rules put it
/// into the e-class of the naive program.
pub fn fused_form_reachable(naive: &Program, fused: &Program, inputs: Shapes) -> (reachable: bool)
    requires
        well_ordered(naive@),
        well_ordered(fused@),
        0 < naive@.len() <= 0xffff_ffff,
        fused@.len() <= 0xffff_ffff,
    ensures
        exists|run: Saturated| #[trigger]
            run.searched(naive@, rules_for(naive@, dims(inputs))) && reachable == same_class(
                run.classes(),
                naive@,
                fused@,
            ),
{
    let shaped = saturate_shaped(naive, inputs);
    found_equal(&shaped.run, naive, fused)
}

// ---- Laws ----

/// A program has the values of its e-classes.
pub proof fn lemma_values_of_classes(
    classes: Map<int, Set<(Seq<char>, Seq<int>)>>,
    nodes: Seq<(Seq<char>, Seq<int>)>,
    meaning: spec_fn(Seq<char>, Seq<int>) -> int,
    of: spec_fn(int) -> int,
    count: nat,
)
    requires
        count <= nodes.len(),
        in_order(nodes),
        values_classes(classes, meaning, of),
        classes_of(classes, nodes, count) is Some,
    ensures
        classes_of(classes, nodes, count).unwrap().len() == count,
        values(nodes, meaning, count) == classes_of(classes, nodes, count).unwrap().map_values(of),
    decreases count,
{
    if count > 0 {
        let k = (count - 1) as nat;
        lemma_values_of_classes(classes, nodes, meaning, of, k);
        let before = classes_of(classes, nodes, k).unwrap();
        let ids = classes_of(classes, nodes, count).unwrap();
        let n = nodes[k as int];
        let mapped = n.1.map_values(|j: int| before[j]);
        let id = class_of(classes, (n.0, mapped)).unwrap();
        assert(classes[id].contains((n.0, mapped)));
        assert(ids == before.push(id));
        let known = values(nodes, meaning, k);
        let operands = n.1.map_values(|i: int| known[i]);
        assert forall|j: int| 0 <= j < n.1.len() implies #[trigger] operands[j]
            == mapped.map_values(of)[j] by {
            assert(0 <= nodes[k as int].1[j] < k);
        }
        assert(operands =~= mapped.map_values(of));
        assert(values(nodes, meaning, count) =~= ids.map_values(of));
    } else {
        assert(values(nodes, meaning, 0) =~= Seq::<int>::empty().map_values(of));
    }
}

/// The names of an ordered program are in order.
pub proof fn lemma_in_order(nodes: Seq<Node>)
    requires
        well_ordered(nodes),
    ensures
        in_order(symbolics(nodes)),
{
    let all = symbolics(nodes);
    assert forall|i: int, k: int| 0 <= i < all.len() && 0 <= k < all[i].1.len() implies 0
        <= #[trigger] all[i].1[k] < i by {
        assert(nodes[i].operands_below(i));
        assert(all[i].1 == nodes[i].children());
    }
}

/// Rewriting does not change what a program computes: two programs in one e-class have the same
/// value, whatever the operators mean, as long as the rules hold.
pub proof fn one_class_one_value(
    run: Saturated,
    rules: Seq<Equation>,
    a: Seq<Node>,
    b: Seq<Node>,
    meaning: spec_fn(Seq<char>, Seq<int>) -> int,
)
    requires
        run.sound(rules),
        well_ordered(a),
        well_ordered(b),
        rules_hold(rules, meaning),
        same_class(run.classes(), a, b),
    ensures
        program_value(a, meaning) == program_value(b, meaning),
{
    let of = choose|of: spec_fn(int) -> int| #[trigger]
        values_classes(run.classes(), meaning, of);
    lemma_in_order(a);
    lemma_in_order(b);
    lemma_values_of_classes(run.classes(), symbolics(a), meaning, of, a.len());
    lemma_values_of_classes(run.classes(), symbolics(b), meaning, of, b.len());
}

/// Every node of a program whose nodes are all there is in its e-class, over those of its operands.
pub proof fn lemma_classes_each(
    classes: Map<int, Set<(Seq<char>, Seq<int>)>>,
    nodes: Seq<(Seq<char>, Seq<int>)>,
    count: nat,
    i: int,
)
    requires
        classes_of(classes, nodes, count) is Some,
        0 <= i < count,
        in_order(nodes),
        count <= nodes.len(),
    ensures
        ({
            let ids = classes_of(classes, nodes, count).unwrap();
            &&& ids.len() == count
            &&& class_of(classes, (nodes[i].0, nodes[i].1.map_values(|k: int| ids[k]))) == Some(
                ids[i],
            )
            &&& classes.dom().contains(ids[i])
        }),
    decreases count,
{
    let ids = classes_of(classes, nodes, count).unwrap();
    let before = classes_of(classes, nodes, (count - 1) as nat).unwrap();
    lemma_classes_of_len(classes, nodes, (count - 1) as nat);
    if i < count - 1 {
        lemma_classes_each(classes, nodes, (count - 1) as nat, i);
    }
    assert(nodes[i].1.map_values(|k: int| ids[k]) =~= nodes[i].1.map_values(|k: int| before[k]));
}

/// The e-classes of nodes do not depend on what follows.
pub proof fn lemma_classes_prefix(
    classes: Map<int, Set<(Seq<char>, Seq<int>)>>,
    a: Seq<(Seq<char>, Seq<int>)>,
    b: Seq<(Seq<char>, Seq<int>)>,
    count: nat,
)
    requires
        count <= a.len() <= b.len(),
        a == b.take(a.len() as int),
    ensures
        classes_of(classes, b, count) == classes_of(classes, a, count),
    decreases count,
{
    if count > 0 {
        lemma_classes_prefix(classes, a, b, (count - 1) as nat);
        assert(b[count - 1] == a[count - 1]);
    }
}

/// The fusion rules among the rules for a program.
proof fn lemma_fusion_rules(program: Seq<Node>, inputs: Map<Seq<char>, Seq<usize>>)
    ensures
        ({
            let rules = rules_for(program, inputs);
            let (x, v) = (Box::new(Pattern::Any(Hole::X)), Box::new(Pattern::Any(Hole::V)));
            let soft = Pattern::MatMul(Box::new(Pattern::Softmax(x)), v);
            let relu = Pattern::MatMul(Box::new(Pattern::Relu(x)), v);
            &&& rules.len() >= 6
            &&& rules[4].given is None && rules[5].given is None
            &&& rules[4].lhs == soft
            &&& rules[4].rhs == Pattern::Fuse(Box::new(soft))
            &&& rules[5].lhs == relu
            &&& rules[5].rhs == Pattern::Fuse(Box::new(relu))
        }),
{
    let (rules, plain) = (rules_for(program, inputs), unconditional_rules());
    assert(plain.len() == 6);
    assert(rules[4] == plain[4] && rules[5] == plain[5]);
    assert(plain[4] == fusion_rules()[0] && plain[5] == fusion_rules()[1]);
}

/// Where a rule fuses what it matches, the fused node is in the e-class of the match.
proof fn lemma_fused_match(
    classes: Map<int, Set<(Seq<char>, Seq<int>)>>,
    rules: Seq<Equation>,
    at: int,
    hole: spec_fn(Hole) -> int,
    id: int,
)
    requires
        closed_under(classes, rules),
        0 <= at < rules.len(),
        rules[at].given is None,
        rules[at].rhs == Pattern::Fuse(Box::new(rules[at].lhs)),
        pattern_class(classes, rules[at].lhs, hole) == Some(id),
    ensures
        class_of(classes, ("fuse"@, seq![id])) == Some(id),
{
    assert(pattern_class(classes, rules[at].rhs, hole) == class_of(classes, ("fuse"@, seq![id])));
}

/// A search that found everything found the fused form: where a program ends in a product whose
/// left operand is a softmax or a relu, the program as one fused region is in its e-class.
pub proof fn saturated_runs_hold_the_fused_form(
    run: Saturated,
    program: Seq<Node>,
    inputs: Map<Seq<char>, Seq<usize>>,
    left: int,
    right: int,
)
    requires
        run.searched(program, rules_for(program, inputs)),
        run_saturated(run),
        well_ordered(program),
        program.len() > 0,
        program.last() == Node::MatMul(left, right),
        program[left] is Softmax || program[left] is Relu,
    ensures
        same_class(run.classes(), fused_plan(program), program),
{
    let classes = run.classes();
    let nodes = symbolics(program);
    let rules = rules_for(program, inputs);
    let last = program.len() - 1;
    lemma_in_order(program);
    assert(program[last].operands_below(last));
    assert(program[last].children()[0] == left && program[last].children()[1] == right);
    assert(program[left].operands_below(left));
    let x = program[left].children()[0];
    lemma_class_of_program(classes, nodes);
    let ids = classes_of(classes, nodes, nodes.len()).unwrap();
    lemma_classes_each(classes, nodes, nodes.len(), x);
    lemma_classes_each(classes, nodes, nodes.len(), left);
    lemma_classes_each(classes, nodes, nodes.len(), right);
    lemma_classes_each(classes, nodes, nodes.len(), last);
    assert(nodes[left] == symbolic(program[left]) && nodes[last] == symbolic(program[last]));
    assert(nodes[left].1.map_values(|k: int| ids[k]) =~= seq![ids[x]]);
    assert(nodes[last].1.map_values(|k: int| ids[k]) =~= seq![ids[left], ids[right]]);
    let hole = |h: Hole|
        if h is X {
            ids[x]
        } else {
            ids[right]
        };
    let at = if program[left] is Softmax {
        4int
    } else {
        5int
    };
    lemma_fusion_rules(program, inputs);
    let (any_x, any_v) = (Pattern::Any(Hole::X), Pattern::Any(Hole::V));
    assert(pattern_class(classes, any_x, hole) == Some(ids[x]));
    assert(pattern_class(classes, any_v, hole) == Some(ids[right]));
    let producer = if program[left] is Softmax {
        Pattern::Softmax(Box::new(any_x))
    } else {
        Pattern::Relu(Box::new(any_x))
    };
    assert(pattern_class(classes, producer, hole) == Some(ids[left]));
    let chain = Pattern::MatMul(Box::new(producer), Box::new(any_v));
    assert(rules[at].lhs == chain);
    assert(pattern_class(classes, chain, hole) == Some(ids[last]));
    lemma_fused_match(classes, rules, at, hole, ids[last]);

    let longer = symbolics(fused_plan(program));
    assert(nodes =~= longer.take(nodes.len() as int));
    lemma_classes_prefix(classes, nodes, longer, nodes.len());
    assert(longer[nodes.len() as int] == symbolic(Node::Fuse(last)));
    assert(longer[nodes.len() as int].1.map_values(|k: int| ids[k]) =~= seq![ids[last]]);
}

} // verus!
