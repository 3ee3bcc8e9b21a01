//! What holds of extraction as a whole: which plans it finds, what they compute, what they cost.
use crate::account::{
    account_of, attention_inputs, fused_attention_account, fused_mlp_account, fusion_keeps_flops,
    materialized_plans_need_no_sram, mlp_inputs, naive_attention_account, naive_mlp_account,
};
use crate::cost::{
    all_valid, demand_of, infeasible_plans_never_finish, placed, ranked, CostModel, Demand,
};
use crate::egraph::{graph_closed, named, represents};
use crate::extract::{
    blank, built, built_operands, candidate_time, cheaper_form, extraction, fused_plan,
    graph_inputs, is_selected, materialized, nearly_cheapest, node_time, plan_time, scanned,
    selection, summed, visited, Choice, Memo, Problem, NOISE, TIE,
};
use crate::ir::{attention_nodes, mlp_nodes, well_ordered, Node};
use crate::rules::Equation;
use crate::saturate::{
    class_of_program, lemma_in_order, lemma_values_of_classes, program_value, rules_hold, symbolic,
    symbolics, values, values_classes, Saturated,
};
use crate::seconds::{lemma_within_longer, time_order, Time};
use vstd::prelude::*;

verus! {

// ---- What selection notes ----

/// Whether a plan was chosen for the e-class.
pub open spec fn has_plan(chosen: Seq<Option<Choice>>, id: int) -> bool {
    chosen[id] matches Some(c) && c.cost is Finite
}

/// Whether the choice for `id` is a node of the class other than a fused one, over e-classes with
/// smaller plans.
pub open spec fn well_chosen(
    graph: Seq<Seq<Node>>,
    chosen: Seq<Option<Choice>>,
    id: int,
    choice: Choice,
) -> bool {
    &&& choice.pick < graph[id].len()
    &&& !(graph[id][choice.pick as int] is Fuse)
    &&& forall|k: int|
        0 <= k < graph[id][choice.pick as int].children().len() ==> {
            let c = #[trigger] graph[id][choice.pick as int].children()[k];
            has_plan(chosen, c) && chosen[c].unwrap().count < choice.count
        }
}

/// Whether every chosen plan is well chosen.
pub open spec fn memo_sound(graph: Seq<Seq<Node>>, memo: Memo) -> bool {
    &&& memo.chosen.len() == graph.len()
    &&& forall|id: int|
        0 <= id < graph.len() && #[trigger] has_plan(memo.chosen, id) ==> well_chosen(
            graph,
            memo.chosen,
            id,
            memo.chosen[id].unwrap(),
        )
}

/// Whether `after` keeps what `before` noted, and notes nothing new for the e-classes on the path.
pub open spec fn memo_extends(before: Memo, after: Memo, path: Seq<int>) -> bool {
    &&& before.chosen.len() == after.chosen.len()
    &&& before.failed ==> after.failed
    &&& forall|id: int|
        #![trigger after.chosen[id]]
        0 <= id < before.chosen.len() && (before.chosen[id] is Some || path.contains(id))
            ==> after.chosen[id] == before.chosen[id]
}

/// Selection keeps what it noted, and notes only what is well chosen.
pub proof fn lemma_visited(p: Problem, id: int, memo: Memo, path: Seq<int>)
    requires
        graph_closed(p.graph),
        memo_sound(p.graph, memo),
    ensures
        memo_sound(p.graph, visited(p, id, memo, path)),
        memo_extends(memo, visited(p, id, memo, path), path),
    decreases p.graph.len() - path.len(), 0nat, 0nat,
{
    if !(id < 0 || id >= p.graph.len() || memo.chosen[id] is Some || path.contains(id) || path.len()
        >= p.graph.len()) {
        let inner = path.push(id);
        let count = p.graph[id].len();
        lemma_scanned(p, id, count, memo, inner);
        let (after, best) = scanned(p, id, count, memo, inner);
        let noted = visited(p, id, memo, path);
        assert(inner[path.len() as int] == id);
        assert(inner.contains(id));
        assert(after.chosen[id] is None);
        assert forall|q: int| path.contains(q) implies inner.contains(q) by {
            let i = choose|i: int| 0 <= i < path.len() && path[i] == q;
            assert(inner[i] == q);
        }
        assert forall|q: int|
            #![trigger noted.chosen[q]]
            0 <= q < memo.chosen.len() && (memo.chosen[q] is Some || path.contains(
                q,
            )) implies noted.chosen[q] == memo.chosen[q] by {
            assert(q != id);
            assert(after.chosen[q] == memo.chosen[q]);
        }
        assert forall|q: int|
            0 <= q < p.graph.len() && #[trigger] has_plan(noted.chosen, q) implies well_chosen(
            p.graph,
            noted.chosen,
            q,
            noted.chosen[q].unwrap(),
        ) by {
            let choice = noted.chosen[q].unwrap();
            if q != id {
                assert(has_plan(after.chosen, q));
            }
            let node = p.graph[q][choice.pick as int];
            assert(node.operands_below(p.graph.len() as int));
            assert forall|k: int| 0 <= k < node.children().len() implies ({
                let c = #[trigger] node.children()[k];
                has_plan(noted.chosen, c) && noted.chosen[c].unwrap().count < choice.count
            }) by {
                let c = node.children()[k];
                assert(has_plan(after.chosen, c));
                assert(noted.chosen[c] == after.chosen[c]);
            }
        }
    }
}

/// The same of the nodes of one e-class.
pub proof fn lemma_scanned(p: Problem, id: int, count: nat, memo: Memo, path: Seq<int>)
    requires
        graph_closed(p.graph),
        memo_sound(p.graph, memo),
        0 <= id < p.graph.len(),
        count <= p.graph[id].len(),
    ensures
        memo_sound(p.graph, scanned(p, id, count, memo, path).0),
        memo_extends(memo, scanned(p, id, count, memo, path).0, path),
        ({
            let (after, best) = scanned(p, id, count, memo, path);
            best.cost is Finite ==> well_chosen(p.graph, after.chosen, id, best)
        }),
    decreases p.graph.len() - path.len(), 2nat, count,
{
    if count > 0 {
        lemma_scanned(p, id, (count - 1) as nat, memo, path);
        let (m, best) = scanned(p, id, (count - 1) as nat, memo, path);
        let node = p.graph[id][count - 1];
        if !(node is Fuse) {
            match node_time(p, id, node) {
                None => {
                    let failed = Memo { chosen: m.chosen, failed: true };
                    assert(memo_sound(p.graph, failed)) by {
                        assert forall|q: int|
                            0 <= q < p.graph.len() && #[trigger] has_plan(
                                failed.chosen,
                                q,
                            ) implies well_chosen(
                            p.graph,
                            failed.chosen,
                            q,
                            failed.chosen[q].unwrap(),
                        ) by {
                            assert(has_plan(m.chosen, q));
                        }
                    }
                },
                Some(t) => {
                    let kids = node.children();
                    assert(node.operands_below(p.graph.len() as int));
                    lemma_summed(p, kids, kids.len(), m, t, path);
                    let (after, total) = summed(p, kids, kids.len(), m, t, path);
                    if best.cost is Finite {
                        lemma_well_chosen_extends(p, id, best, m, after, path);
                    }
                },
            }
        }
    }
}

proof fn lemma_well_chosen_extends(
    p: Problem,
    id: int,
    choice: Choice,
    m: Memo,
    after: Memo,
    path: Seq<int>,
)
    requires
        graph_closed(p.graph),
        m.chosen.len() == p.graph.len(),
        0 <= id < p.graph.len(),
        well_chosen(p.graph, m.chosen, id, choice),
        memo_extends(m, after, path),
    ensures
        well_chosen(p.graph, after.chosen, id, choice),
{
    let node = p.graph[id][choice.pick as int];
    assert(node.operands_below(p.graph.len() as int));
    assert forall|k: int| 0 <= k < node.children().len() implies ({
        let c = #[trigger] node.children()[k];
        has_plan(after.chosen, c) && after.chosen[c].unwrap().count < choice.count
    }) by {
        let c = node.children()[k];
        assert(has_plan(m.chosen, c));
        assert(after.chosen[c] == m.chosen[c]);
    }
}

/// The same of the operands of one node.
pub proof fn lemma_summed(
    p: Problem,
    operands: Seq<int>,
    count: nat,
    memo: Memo,
    t: Time,
    path: Seq<int>,
)
    requires
        graph_closed(p.graph),
        memo_sound(p.graph, memo),
        count <= operands.len(),
        forall|k: int| 0 <= k < operands.len() ==> 0 <= #[trigger] operands[k] < p.graph.len(),
    ensures
        memo_sound(p.graph, summed(p, operands, count, memo, t, path).0),
        memo_extends(memo, summed(p, operands, count, memo, t, path).0, path),
        ({
            let (after, total) = summed(p, operands, count, memo, t, path);
            total matches Some((cost, n)) ==> n >= 1 && forall|k: int|
                0 <= k < count ==> {
                    let c = #[trigger] operands[k];
                    has_plan(after.chosen, c) && after.chosen[c].unwrap().count < n
                }
        }),
    decreases p.graph.len() - path.len(), 1nat, count,
{
    if count > 0 {
        lemma_summed(p, operands, (count - 1) as nat, memo, t, path);
        let (m, total) = summed(p, operands, (count - 1) as nat, memo, t, path);
        if let Some((sum, n)) = total {
            let c = operands[count - 1];
            lemma_visited(p, c, m, path);
            let after = visited(p, c, m, path);
            if has_plan(after.chosen, c) {
                let more = n + after.chosen[c].unwrap().count;
                assert forall|k: int| 0 <= k < count implies ({
                    let c = #[trigger] operands[k];
                    has_plan(after.chosen, c) && after.chosen[c].unwrap().count < more
                }) by {
                    if k < count - 1 {
                        let q = operands[k];
                        assert(has_plan(m.chosen, q));
                        assert(after.chosen[q] == m.chosen[q]);
                    }
                }
            }
        }
    }
}

// ---- Which plans are built ----

/// Whether no node of a plan is fused.
pub open spec fn fuse_free(plan: Seq<Node>) -> bool {
    forall|i: int| 0 <= i < plan.len() ==> !((#[trigger] plan[i]) is Fuse)
}

/// Whether the e-classes on the path all have plans larger than `count`.
spec fn larger_on_path(chosen: Seq<Option<Choice>>, path: Seq<int>, count: nat) -> bool {
    forall|i: int|
        0 <= i < path.len() ==> (chosen[#[trigger] path[i]] matches Some(c) && c.count > count)
}

proof fn lemma_built(
    graph: Seq<Seq<Node>>,
    memo: Memo,
    id: int,
    fuel: nat,
    path: Seq<int>,
    out: Seq<Node>,
)
    requires
        graph_closed(graph),
        memo_sound(graph, memo),
        0 <= id < graph.len(),
        has_plan(memo.chosen, id),
        fuse_free(out),
        path.no_duplicates(),
        forall|i: int| 0 <= i < path.len() ==> 0 <= #[trigger] path[i] < graph.len(),
        larger_on_path(memo.chosen, path, memo.chosen[id].unwrap().count),
        fuel + path.len() >= graph.len(),
    ensures
        built(graph, memo.chosen, id, fuel, out) matches Some(plan) && fuse_free(plan),
    decreases fuel, 0nat, 0nat,
{
    let chosen = memo.chosen;
    let choice = chosen[id].unwrap();
    let inner = path.push(id);
    assert(inner.no_duplicates()) by {
        assert forall|i: int, j: int|
            0 <= i < inner.len() && 0 <= j < inner.len() && i != j implies inner[i]
            != inner[j] by {
            if i == path.len() {
                assert(chosen[path[j]].unwrap().count > choice.count);
            } else if j == path.len() {
                assert(chosen[path[i]].unwrap().count > choice.count);
            } else {
                assert(path[i] != path[j]);
            }
        }
    }
    assert forall|i: int| 0 <= i < inner.len() implies 0 <= #[trigger] inner[i] < graph.len() by {
        if i < path.len() {
            assert(0 <= path[i] < graph.len());
        }
    }
    crate::extract::lemma_path_fits(inner, graph.len() as int);
    assert(well_chosen(graph, chosen, id, choice));
    let node = graph[id][choice.pick as int];
    assert(node.operands_below(graph.len() as int));
    let kids = node.children();
    assert forall|k: int| 0 <= k < kids.len() implies has_plan(chosen, #[trigger] kids[k])
        && larger_on_path(chosen, inner, chosen[kids[k]].unwrap().count) by {
        let c = kids[k];
        let n = chosen[c].unwrap().count;
        assert(has_plan(chosen, c) && n < choice.count);
        assert forall|i: int| 0 <= i < inner.len() implies (
        chosen[#[trigger] inner[i]] matches Some(q) && q.count > n) by {
            if i < path.len() {
                assert(chosen[path[i]].unwrap().count > choice.count);
            }
        }
    }
    lemma_built_operands(graph, memo, kids, kids.len(), (fuel - 1) as nat, inner, out);
    let (after, ids) = built_operands(
        graph,
        chosen,
        kids,
        kids.len(),
        (fuel - 1) as nat,
        out,
    ).unwrap();
    let plan = after.push(node.with_children(ids));
    assert forall|i: int| 0 <= i < plan.len() implies !((#[trigger] plan[i]) is Fuse) by {
        if i < after.len() {
            assert(!(after[i] is Fuse));
        }
    }
}

proof fn lemma_built_operands(
    graph: Seq<Seq<Node>>,
    memo: Memo,
    operands: Seq<int>,
    count: nat,
    fuel: nat,
    path: Seq<int>,
    out: Seq<Node>,
)
    requires
        graph_closed(graph),
        memo_sound(graph, memo),
        count <= operands.len(),
        forall|k: int|
            0 <= k < operands.len() ==> 0 <= #[trigger] operands[k] < graph.len() && has_plan(
                memo.chosen,
                operands[k],
            ) && larger_on_path(memo.chosen, path, memo.chosen[operands[k]].unwrap().count),
        fuse_free(out),
        path.no_duplicates(),
        forall|i: int| 0 <= i < path.len() ==> 0 <= #[trigger] path[i] < graph.len(),
        fuel + path.len() >= graph.len(),
    ensures
        built_operands(graph, memo.chosen, operands, count, fuel, out) matches Some((plan, _))
            && fuse_free(plan),
    decreases fuel, 1nat, count,
{
    if count > 0 {
        lemma_built_operands(graph, memo, operands, (count - 1) as nat, fuel, path, out);
        let (before, ids) = built_operands(
            graph,
            memo.chosen,
            operands,
            (count - 1) as nat,
            fuel,
            out,
        ).unwrap();
        assert(0 <= operands[count - 1] < graph.len());
        lemma_built(graph, memo, operands[count - 1], fuel, path, before);
    }
}

/// A plan is found whenever selection ends with a finite cost for the root, and the first stage
/// never fuses.
pub proof fn selected_classes_have_plans(p: Problem, root: int)
    requires
        graph_closed(p.graph),
        0 <= root < p.graph.len(),
        has_plan(selection(p, root).chosen, root),
        !selection(p, root).failed,
    ensures
        materialized(p, root) matches Some(plan) && fuse_free(plan),
{
    lemma_visited(p, root, blank(p.graph.len()), seq![]);
    lemma_built(p.graph, selection(p, root), root, p.graph.len(), seq![], seq![]);
}

// ---- What plans compute ----

/// The values of a list of nodes do not depend on what follows.
proof fn lemma_values_prefix(
    a: Seq<Node>,
    b: Seq<Node>,
    meaning: spec_fn(Seq<char>, Seq<int>) -> int,
    n: nat,
)
    requires
        n <= a.len(),
        n <= b.len(),
        a.take(n as int) == b.take(n as int),
    ensures
        values(symbolics(a), meaning, n) == values(symbolics(b), meaning, n),
        values(symbolics(a), meaning, n).len() == n,
    decreases n,
{
    if n > 0 {
        assert(a.take(n - 1) =~= a.take(n as int).take(n - 1));
        assert(b.take(n - 1) =~= b.take(n as int).take(n - 1));
        lemma_values_prefix(a, b, meaning, (n - 1) as nat);
        assert(a[n - 1] == a.take(n as int)[n - 1]);
        assert(b[n - 1] == b.take(n as int)[n - 1]);
    }
}

/// All values of a plan.
spec fn plan_values(plan: Seq<Node>, meaning: spec_fn(Seq<char>, Seq<int>) -> int) -> Seq<int> {
    values(symbolics(plan), meaning, plan.len())
}

proof fn lemma_plan_values_push(
    plan: Seq<Node>,
    node: Node,
    meaning: spec_fn(Seq<char>, Seq<int>) -> int,
)
    ensures
        plan_values(plan, meaning).len() == plan.len(),
        plan_values(plan.push(node), meaning) == plan_values(plan, meaning).push(
            meaning(
                symbolic(node).0,
                symbolic(node).1.map_values(|k: int| plan_values(plan, meaning)[k]),
            ),
        ),
{
    let more = plan.push(node);
    assert(more.take(plan.len() as int) =~= plan.take(plan.len() as int));
    lemma_values_prefix(more, plan, meaning, plan.len());
    assert(symbolics(more)[plan.len() as int] == symbolic(node));
}

/// Whether `later` is `earlier` with more nodes behind it.
spec fn continues(earlier: Seq<Node>, later: Seq<Node>) -> bool {
    earlier.len() <= later.len() && later.take(earlier.len() as int) == earlier
}

proof fn lemma_continues(
    a: Seq<Node>,
    b: Seq<Node>,
    meaning: spec_fn(Seq<char>, Seq<int>) -> int,
    i: int,
)
    requires
        continues(a, b),
        0 <= i < a.len(),
    ensures
        plan_values(a, meaning).len() == a.len(),
        plan_values(b, meaning).len() == b.len(),
        plan_values(b, meaning)[i] == plan_values(a, meaning)[i],
{
    assert(a.take(a.len() as int) =~= a);
    lemma_values_prefix(a, b, meaning, a.len());
    lemma_values_prefix(b, b, meaning, b.len());
    lemma_values_take(symbolics(b), meaning, a.len(), b.len());
}

proof fn lemma_values_take(
    nodes: Seq<(Seq<char>, Seq<int>)>,
    meaning: spec_fn(Seq<char>, Seq<int>) -> int,
    m: nat,
    n: nat,
)
    requires
        m <= n,
    ensures
        values(nodes, meaning, m).len() == m,
        values(nodes, meaning, n).take(m as int) == values(nodes, meaning, m),
        values(nodes, meaning, n).len() == n,
    decreases n,
{
    if m < n {
        lemma_values_take(nodes, meaning, m, (n - 1) as nat);
        let before = values(nodes, meaning, (n - 1) as nat);
        assert(values(nodes, meaning, n).take(m as int) =~= before.take(m as int));
    } else {
        if n > 0 {
            lemma_values_take(nodes, meaning, (n - 1) as nat, (n - 1) as nat);
        }
        assert(values(nodes, meaning, n).take(m as int) =~= values(nodes, meaning, m));
    }
}

/// Whether `of` gives each e-class the value that its nodes compute.
pub open spec fn values_graph(
    graph: Seq<Seq<Node>>,
    meaning: spec_fn(Seq<char>, Seq<int>) -> int,
    of: spec_fn(int) -> int,
) -> bool {
    forall|id: int, i: int|
        0 <= id < graph.len() && 0 <= i < graph[id].len() ==> {
            let n = symbolic(#[trigger] graph[id][i]);
            meaning(n.0, n.1.map_values(of)) == of(id)
        }
}

proof fn lemma_built_value(
    graph: Seq<Seq<Node>>,
    chosen: Seq<Option<Choice>>,
    id: int,
    fuel: nat,
    out: Seq<Node>,
    meaning: spec_fn(Seq<char>, Seq<int>) -> int,
    of: spec_fn(int) -> int,
)
    requires
        values_graph(graph, meaning, of),
        well_ordered(out),
    ensures
        built(graph, chosen, id, fuel, out) matches Some(plan) ==> {
            &&& continues(out, plan)
            &&& plan.len() > out.len()
            &&& well_ordered(plan)
            &&& plan_values(plan, meaning).last() == of(id)
        },
    decreases fuel, 0nat, 0nat,
{
    if let Some(plan) = built(graph, chosen, id, fuel, out) {
        let choice = chosen[id].unwrap();
        let node = graph[id][choice.pick as int];
        let kids = node.children();
        lemma_operands_value(graph, chosen, kids, kids.len(), (fuel - 1) as nat, out, meaning, of);
        let (after, ids) = built_operands(
            graph,
            chosen,
            kids,
            kids.len(),
            (fuel - 1) as nat,
            out,
        ).unwrap();
        let mapped = node.with_children(ids);
        assert(mapped.children() =~= ids);
        assert(symbolic(mapped).1 =~= ids);
        assert(symbolic(node).1 =~= kids);
        assert(plan.take(out.len() as int) =~= after.take(out.len() as int));
        lemma_plan_values_push(after, mapped, meaning);
        let vals = plan_values(after, meaning);
        assert(ids.map_values(|k: int| vals[k]) =~= kids.map_values(of));
        assert(meaning(symbolic(node).0, kids.map_values(of)) == of(id));
        assert(mapped.operands_below(after.len() as int));
        assert forall|i: int| 0 <= i < plan.len() implies (#[trigger] plan[i]).operands_below(
            i,
        ) by {
            if i < after.len() {
                assert(after[i].operands_below(i));
            }
        }
    }
}

proof fn lemma_operands_value(
    graph: Seq<Seq<Node>>,
    chosen: Seq<Option<Choice>>,
    operands: Seq<int>,
    count: nat,
    fuel: nat,
    out: Seq<Node>,
    meaning: spec_fn(Seq<char>, Seq<int>) -> int,
    of: spec_fn(int) -> int,
)
    requires
        count <= operands.len(),
        values_graph(graph, meaning, of),
        well_ordered(out),
    ensures
        built_operands(graph, chosen, operands, count, fuel, out) matches Some((plan, ids)) ==> {
            &&& continues(out, plan)
            &&& well_ordered(plan)
            &&& ids.len() == count
            &&& plan_values(plan, meaning).len() == plan.len()
            &&& forall|k: int|
                0 <= k < count ==> 0 <= #[trigger] ids[k] < plan.len() && plan_values(
                    plan,
                    meaning,
                )[ids[k]] == of(operands[k])
        },
    decreases fuel, 1nat, count,
{
    if count == 0 {
        assert(out.take(out.len() as int) =~= out);
        lemma_values_prefix(out, out, meaning, out.len());
    } else if let Some((plan, ids)) = built_operands(graph, chosen, operands, count, fuel, out) {
        lemma_operands_value(
            graph,
            chosen,
            operands,
            (count - 1) as nat,
            fuel,
            out,
            meaning,
            of,
        );
        let (before, earlier) = built_operands(
            graph,
            chosen,
            operands,
            (count - 1) as nat,
            fuel,
            out,
        ).unwrap();
        lemma_built_value(graph, chosen, operands[count - 1], fuel, before, meaning, of);
        assert(plan.take(out.len() as int) =~= plan.take(before.len() as int).take(
            out.len() as int,
        ));
        lemma_values_prefix(plan, plan, meaning, plan.len());
        assert forall|k: int| 0 <= k < count implies 0 <= #[trigger] ids[k] < plan.len()
            && plan_values(plan, meaning)[ids[k]] == of(operands[k]) by {
            if k < count - 1 {
                assert(ids[k] == earlier[k]);
                lemma_continues(before, plan, meaning, earlier[k]);
            }
        }
    }
}

/// Whether fusion is the identity on values.
pub open spec fn fuse_is_identity(meaning: spec_fn(Seq<char>, Seq<int>) -> int) -> bool {
    forall|v: int| #[trigger] meaning("fuse"@, seq![v]) == v
}

/// Whether two programs compute the same value, whatever the operators mean, as long as `rules`
/// hold and fusion does not change a value.
pub open spec fn computes_the_same(rules: Seq<Equation>, a: Seq<Node>, b: Seq<Node>) -> bool {
    forall|meaning: spec_fn(Seq<char>, Seq<int>) -> int|
        #![trigger rules_hold(rules, meaning)]
        rules_hold(rules, meaning) && fuse_is_identity(meaning) ==> program_value(a, meaning)
            == program_value(b, meaning)
}

/// Extraction does not change what a program computes: whatever the operators mean, as long as
/// the rules hold and fusion does not change a value, the extracted plan has the value of the
/// program that was saturated. A plan is also in order, so that it can be run.
pub proof fn extraction_keeps_the_value(
    run: Saturated,
    rules: Seq<Equation>,
    program: Seq<Node>,
    p: Problem,
    root: int,
    meaning: spec_fn(Seq<char>, Seq<int>) -> int,
)
    requires
        run.sound(rules),
        represents(p.graph, run.classes()),
        well_ordered(program),
        class_of_program(run.classes(), symbolics(program)) == Some(root),
        rules_hold(rules, meaning),
        fuse_is_identity(meaning),
        extraction(p, root) is Some,
    ensures
        well_ordered(extraction(p, root).unwrap()),
        program_value(extraction(p, root).unwrap(), meaning) == program_value(program, meaning),
{
    let classes = run.classes();
    let of = choose|of: spec_fn(int) -> int| #[trigger] values_classes(classes, meaning, of);
    lemma_in_order(program);
    lemma_values_of_classes(classes, symbolics(program), meaning, of, program.len());
    assert(program_value(program, meaning) == of(root));
    assert(values_graph(p.graph, meaning, of)) by {
        assert forall|id: int, i: int|
            0 <= id < p.graph.len() && 0 <= i < p.graph[id].len() implies ({
            let n = symbolic(#[trigger] p.graph[id][i]);
            meaning(n.0, n.1.map_values(of)) == of(id)
        }) by {
            let n = symbolic(p.graph[id][i]);
            let all = p.graph[id].map_values(|n: Node| symbolic(n));
            assert(all[i] == n);
            assert(named(p.graph[id]).contains(n));
            assert(classes.dom().contains(id));
            assert(classes[id].contains(n));
        }
    }
    let memo = selection(p, root);
    lemma_built_value(p.graph, memo.chosen, root, p.graph.len(), seq![], meaning, of);
    let plan = materialized(p, root).unwrap();
    let fused = Node::Fuse(plan.len() - 1);
    lemma_plan_values_push(plan, fused, meaning);
    let vals = plan_values(plan, meaning);
    assert(symbolic(fused).1.map_values(|k: int| vals[k]) =~= seq![vals.last()]);
    assert(fused.operands_below(plan.len() as int));
    let wrapped = fused_plan(plan);
    assert forall|i: int| 0 <= i < wrapped.len() implies (#[trigger] wrapped[i]).operands_below(
        i,
    ) by {
        if i < plan.len() {
            assert(plan[i].operands_below(i));
        }
    }
}

/// Extraction does not change what a program computes, for all meanings of the operators at once.
pub proof fn extraction_computes_the_same(
    run: Saturated,
    rules: Seq<Equation>,
    program: Seq<Node>,
    p: Problem,
    root: int,
)
    requires
        run.sound(rules),
        represents(p.graph, run.classes()),
        well_ordered(program),
        class_of_program(run.classes(), symbolics(program)) == Some(root),
        extraction(p, root) is Some,
    ensures
        extraction(p, root).unwrap().len() > 0,
        well_ordered(extraction(p, root).unwrap()),
        computes_the_same(rules, extraction(p, root).unwrap(), program),
{
    let plan = extraction(p, root).unwrap();
    extracted_plans_are_ordered(p, root);
    assert forall|meaning: spec_fn(Seq<char>, Seq<int>) -> int|
        #![trigger rules_hold(rules, meaning)]
        rules_hold(rules, meaning) && fuse_is_identity(meaning) implies program_value(plan, meaning)
        == program_value(program, meaning) by {
        extraction_keeps_the_value(run, rules, program, p, root, meaning);
    }
}

/// An extracted plan is not empty, and every node of it is over nodes that stand before it.
pub proof fn extracted_plans_are_ordered(p: Problem, root: int)
    requires
        extraction(p, root) is Some,
    ensures
        extraction(p, root).unwrap().len() > 0,
        well_ordered(extraction(p, root).unwrap()),
{
    let memo = selection(p, root);
    lemma_built_ordered(p.graph, memo.chosen, root, p.graph.len(), seq![]);
    let plan = materialized(p, root).unwrap();
    let fused = Node::Fuse(plan.len() - 1);
    assert(fused.operands_below(plan.len() as int)) by {
        assert(fused.children() =~= seq![plan.len() - 1]);
    }
    let wrapped = fused_plan(plan);
    assert forall|i: int| 0 <= i < wrapped.len() implies (#[trigger] wrapped[i]).operands_below(
        i,
    ) by {
        if i < plan.len() {
            assert(plan[i].operands_below(i));
        }
    }
}

proof fn lemma_built_ordered(
    graph: Seq<Seq<Node>>,
    chosen: Seq<Option<Choice>>,
    id: int,
    fuel: nat,
    out: Seq<Node>,
)
    requires
        well_ordered(out),
    ensures
        built(graph, chosen, id, fuel, out) matches Some(plan) ==> plan.len() > out.len()
            && well_ordered(plan),
    decreases fuel, 0nat, 0nat,
{
    if let Some(plan) = built(graph, chosen, id, fuel, out) {
        let node = graph[id][chosen[id].unwrap().pick as int];
        let kids = node.children();
        lemma_operands_ordered(graph, chosen, kids, kids.len(), (fuel - 1) as nat, out);
        let (after, ids) = built_operands(
            graph,
            chosen,
            kids,
            kids.len(),
            (fuel - 1) as nat,
            out,
        ).unwrap();
        let mapped = node.with_children(ids);
        assert(mapped.children() =~= ids);
        assert(mapped.operands_below(after.len() as int));
        assert forall|i: int| 0 <= i < plan.len() implies (#[trigger] plan[i]).operands_below(
            i,
        ) by {
            if i < after.len() {
                assert(after[i].operands_below(i));
            }
        }
    }
}

proof fn lemma_operands_ordered(
    graph: Seq<Seq<Node>>,
    chosen: Seq<Option<Choice>>,
    operands: Seq<int>,
    count: nat,
    fuel: nat,
    out: Seq<Node>,
)
    requires
        count <= operands.len(),
        well_ordered(out),
    ensures
        built_operands(graph, chosen, operands, count, fuel, out) matches Some((plan, ids)) ==> {
            &&& plan.len() >= out.len()
            &&& well_ordered(plan)
            &&& ids.len() == count
            &&& forall|k: int| 0 <= k < count ==> 0 <= #[trigger] ids[k] < plan.len()
        },
    decreases fuel, 1nat, count,
{
    if count > 0 {
        lemma_operands_ordered(graph, chosen, operands, (count - 1) as nat, fuel, out);
        if let Some((before, _)) = built_operands(
            graph,
            chosen,
            operands,
            (count - 1) as nat,
            fuel,
            out,
        ) {
            lemma_built_ordered(graph, chosen, operands[count - 1], fuel, before);
        }
    }
}

// ---- What plans cost ----

/// The extracted plan never costs more than the plan without fusion.
pub proof fn extraction_never_costs_more(p: Problem, root: int)
    requires
        extraction(p, root) is Some,
    ensures
        ({
            let shapes = graph_inputs(p.graph, p.shapes, p.graph.len());
            let plain = plan_time(materialized(p, root).unwrap(), shapes, p.model);
            let chosen = plan_time(extraction(p, root).unwrap(), shapes, p.model);
            plain is Some && chosen is Some && !plain.unwrap().less(chosen.unwrap())
        }),
{
    let shapes = graph_inputs(p.graph, p.shapes, p.graph.len());
    let plan = materialized(p, root).unwrap();
    let t = plan_time(plan, shapes, p.model).unwrap();
    let fused = plan_time(fused_plan(plan), shapes, p.model).unwrap();
    if let (Time::Finite { num: a, den: b }, Time::Finite { num: c, den: d }) = (fused, t) {
        let (x, y, k) = ((a * d) as int, (c * b) as int, NOISE as int);
        assert(x * k < y * (k - 1) ==> x <= y) by (nonlinear_arith)
            requires
                x >= 0,
                y >= 0,
                k > 1,
        ;
    }
}

/// Extraction fuses a plan as a whole or not at all: the plan that it picks has a fused node as its
/// last one or nowhere, and is otherwise the plan that the first stage found. It is fused if and
/// only if that is cheaper, beyond noise.
pub proof fn extracted_plans_are_fused_whole_or_not(p: Problem, root: int)
    requires
        graph_closed(p.graph),
        extraction(p, root) is Some,
        has_plan(selection(p, root).chosen, root),
    ensures
        ({
            let shapes = graph_inputs(p.graph, p.shapes, p.graph.len());
            let plain = materialized(p, root).unwrap();
            let plan = extraction(p, root).unwrap();
            let (t, fused) = (
                plan_time(plain, shapes, p.model),
                plan_time(fused_plan(plain), shapes, p.model),
            );
            &&& fuse_free(plain)
            &&& fuse_free(plan.drop_last())
            &&& t is Some && fused is Some
            &&& plan == (if plan.last() is Fuse {
                fused_plan(plain)
            } else {
                plain
            })
            &&& plan.last() is Fuse <==> fused.unwrap().well_below(t.unwrap(), NOISE as nat)
        }),
{
    selected_classes_have_plans(p, root);
    extracted_plans_are_ordered(p, root);
    lemma_built_ordered(p.graph, selection(p, root).chosen, root, p.graph.len(), seq![]);
    let plain = materialized(p, root).unwrap();
    assert(plain.len() > 0);
    assert(!(plain[plain.len() - 1] is Fuse));
    assert(fused_plan(plain).drop_last() =~= plain);
}

/// Whether a constraint finds a plan feasible only if its working set fits in `capacity` bytes.
pub open spec fn limits_sram(model: CostModel, i: int, capacity: u64) -> bool {
    forall|demand: Demand|
        demand.sram_bytes > capacity ==> #[trigger] model.constraints@[i].constraint.bound(demand)
            is Infinite
}

/// Whether all times that the constraints give are times.
pub open spec fn gives_times(model: CostModel) -> bool {
    forall|demand: Demand| all_valid(#[trigger] model.bounds(demand))
}

/// Under a constraint on SRAM, every plan that is extracted fits: a region that would not fit is
/// not fused, and a plan without fusion needs no SRAM.
pub proof fn extracted_plans_fit_in_sram(p: Problem, root: int, i: int, capacity: u64)
    requires
        graph_closed(p.graph),
        extraction(p, root) is Some,
        has_plan(selection(p, root).chosen, root),
        0 <= i < p.model.constraints@.len(),
        limits_sram(p.model, i, capacity),
        gives_times(p.model),
    ensures
        ({
            let shapes = graph_inputs(p.graph, p.shapes, p.graph.len());
            let plan = extraction(p, root).unwrap();
            account_of(plan, shapes, plan.len() - 1) matches Some(account) && account.sram_bytes
                <= capacity
        }),
{
    extracted_plans_are_fused_whole_or_not(p, root);
    let shapes = graph_inputs(p.graph, p.shapes, p.graph.len());
    let plain = materialized(p, root).unwrap();
    let plan = extraction(p, root).unwrap();
    if plan.last() is Fuse {
        let account = account_of(plan, shapes, plan.len() - 1).unwrap();
        let demand = demand_of(account);
        let lines = p.model.bounds(demand);
        infeasible_plans_never_finish(lines);
        assert(lines[i].1 == p.model.constraints@[i].constraint.bound(demand));
    } else {
        materialized_plans_need_no_sram(plain, shapes, plain.len() - 1);
    }
}

/// Whether no constraint of the model looks at memory.
pub open spec fn sees_only_flops(model: CostModel) -> bool {
    forall|i: int, x: Demand, y: Demand|
        #![trigger model.constraints@[i].constraint.bound(x), model.constraints@[i].constraint.bound(y)]
        0 <= i < model.constraints@.len() && x.flops == y.flops ==> model.constraints@[i].constraint.bound(x)
            == model.constraints@[i].constraint.bound(y)
}

proof fn lemma_same_flops_same_time(model: CostModel, x: Demand, y: Demand)
    requires
        sees_only_flops(model),
        x.flops == y.flops,
    ensures
        model.time(x) == model.time(y),
{
    assert forall|i: int| 0 <= i < model.constraints@.len() implies #[trigger] model.bounds(x)[i]
        == model.bounds(y)[i] by {
        assert(model.constraints@[i].constraint.bound(x) == model.constraints@[i].constraint.bound(y));
    }
    assert(model.bounds(x) =~= model.bounds(y));
}

proof fn lemma_fused_time(
    plan: Seq<Node>,
    shapes: Map<Seq<char>, Seq<usize>>,
    model: CostModel,
)
    requires
        sees_only_flops(model),
        plan_time(plan, shapes, model) is Some,
        plan_time(fused_plan(plan), shapes, model) is Some,
    ensures
        plan_time(fused_plan(plan), shapes, model) == plan_time(plan, shapes, model),
{
    fusion_keeps_flops(plan, shapes, plan.len() - 1);
    let a = account_of(plan, shapes, plan.len() - 1).unwrap();
    let b = account_of(fused_plan(plan), shapes, plan.len() as int).unwrap();
    lemma_same_flops_same_time(model, demand_of(a), demand_of(b));
}

/// A model that cannot see memory has no reason to fuse: it keeps the plan without fusion.
pub proof fn flops_alone_never_fuse(
    plan: Seq<Node>,
    shapes: Map<Seq<char>, Seq<usize>>,
    model: CostModel,
)
    requires
        sees_only_flops(model),
        plan_time(plan, shapes, model) is Some,
        plan_time(fused_plan(plan), shapes, model) is Some,
    ensures
        cheaper_form(plan, shapes, model) == Some(plan),
{
    lemma_fused_time(plan, shapes, model);
    if let Time::Finite { num, den } = plan_time(plan, shapes, model).unwrap() {
        let (x, k) = ((num * den) as int, NOISE as int);
        assert(!(x * k < x * (k - 1))) by (nonlinear_arith)
            requires
                x >= 0,
        ;
    }
}

/// Between a plan and its fused form, a model that cannot see memory selects the plan itself.
pub proof fn flops_alone_select_the_simpler_plan(
    plan: Seq<Node>,
    shapes: Map<Seq<char>, Seq<usize>>,
    model: CostModel,
)
    requires
        sees_only_flops(model),
        plan_time(plan, shapes, model) is Some,
        plan_time(fused_plan(plan), shapes, model) is Some,
    ensures
        forall|i: int|
            is_selected(seq![plan, fused_plan(plan)], shapes, model, i) ==> i == 0,
{
    lemma_fused_time(plan, shapes, model);
    let both = seq![plan, fused_plan(plan)];
    let t = plan_time(plan, shapes, model).unwrap();
    assert(candidate_time(both, shapes, model, 0) == t);
    assert(candidate_time(both, shapes, model, 1) == t);
    if let Time::Finite { num, den } = t {
        let (x, k) = ((num * den) as int, TIE as int);
        assert(x * k <= x * (k + 1)) by (nonlinear_arith)
            requires
                x >= 0,
        ;
        assert(nearly_cheapest(both, shapes, model, 0));
    } else {
        assert forall|j: int| !#[trigger] nearly_cheapest(both, shapes, model, j) by {
            assert(j == 0 || j == 1 || !nearly_cheapest(both, shapes, model, j));
        }
    }
}

/// Whether the model sees the work and the traffic of a plan, at these rates, and nothing else.
pub open spec fn sees_flops_and_traffic(model: CostModel, peak: nat, bandwidth: nat) -> bool {
    forall|x: Demand| #[trigger]
        model.bounds(x) == seq![
            ("Flops"@, Time::Finite { num: x.flops as nat, den: peak }),
            ("HbmBytes"@, Time::Finite { num: x.hbm_bytes as nat, den: bandwidth }),
        ]
}

/// Whether a plan of `flops` and `hbm` is bound by its traffic, and traffic `less` saves time, both
/// beyond the `k`-th part.
pub open spec fn bound_by_traffic(
    flops: int,
    hbm: int,
    less: int,
    peak: nat,
    bandwidth: nat,
    k: int,
) -> bool {
    &&& (flops * bandwidth) * k < (hbm * peak) * (k - 1)
    &&& less * k < hbm * (k - 1)
}

proof fn lemma_traffic_time(model: CostModel, peak: nat, bandwidth: nat, x: Demand)
    requires
        sees_flops_and_traffic(model, peak, bandwidth),
        peak > 0,
        bandwidth > 0,
    ensures
        ({
            let work = Time::Finite { num: x.flops as nat, den: peak };
            let traffic = Time::Finite { num: x.hbm_bytes as nat, den: bandwidth };
            model.time(x) == (if work.less(traffic) {
                traffic
            } else {
                work
            })
        }),
{
    let lines = model.bounds(x);
    reveal_with_fuel(ranked, 3);
    reveal_with_fuel(placed, 3);
    assert(lines.drop_last() =~= seq![lines[0]]);
    assert(seq![lines[0]].drop_last() =~= seq![]);
    assert(ranked(seq![]) =~= seq![]);
    assert(ranked(seq![lines[0]]) =~= seq![lines[0]]);
    assert(placed(seq![], lines[1]) =~= seq![lines[1]]);
}

proof fn lemma_fused_is_well_below(
    plan: Seq<Node>,
    shapes: Map<Seq<char>, Seq<usize>>,
    model: CostModel,
    peak: nat,
    bandwidth: nat,
    k: int,
)
    requires
        sees_flops_and_traffic(model, peak, bandwidth),
        peak > 0,
        bandwidth > 0,
        k > 1,
        account_of(plan, shapes, plan.len() - 1) is Some,
        account_of(fused_plan(plan), shapes, plan.len() as int) is Some,
        ({
            let a = account_of(plan, shapes, plan.len() - 1).unwrap();
            let b = account_of(fused_plan(plan), shapes, plan.len() as int).unwrap();
            bound_by_traffic(
                a.flops as int,
                a.hbm_bytes as int,
                b.hbm_bytes as int,
                peak,
                bandwidth,
                k,
            )
        }),
    ensures
        plan_time(fused_plan(plan), shapes, model).unwrap().well_below(
            plan_time(plan, shapes, model).unwrap(),
            k as nat,
        ),
{
    fusion_keeps_flops(plan, shapes, plan.len() - 1);
    let a = account_of(plan, shapes, plan.len() - 1).unwrap();
    let b = account_of(fused_plan(plan), shapes, plan.len() as int).unwrap();
    lemma_traffic_time(model, peak, bandwidth, demand_of(a));
    lemma_traffic_time(model, peak, bandwidth, demand_of(b));
    let (f, h, l) = (a.flops as int, a.hbm_bytes as int, b.hbm_bytes as int);
    let (p, w) = (peak as int, bandwidth as int);
    assert(f * w < h * p) by (nonlinear_arith)
        requires
            (f * w) * k < (h * p) * (k - 1),
            k > 1,
            h >= 0,
            p > 0,
    ;
    assert((l * w) * k < (h * w) * (k - 1)) by (nonlinear_arith)
        requires
            l * k < h * (k - 1),
            w > 0,
    ;
}

/// A model that sees memory fuses what memory binds: where a plan is bound by its traffic, and
/// fusion saves traffic, the fused form is taken.
pub proof fn memory_bound_plans_are_fused(
    plan: Seq<Node>,
    shapes: Map<Seq<char>, Seq<usize>>,
    model: CostModel,
    peak: nat,
    bandwidth: nat,
)
    requires
        sees_flops_and_traffic(model, peak, bandwidth),
        peak > 0,
        bandwidth > 0,
        account_of(plan, shapes, plan.len() - 1) is Some,
        account_of(fused_plan(plan), shapes, plan.len() as int) is Some,
        ({
            let a = account_of(plan, shapes, plan.len() - 1).unwrap();
            let b = account_of(fused_plan(plan), shapes, plan.len() as int).unwrap();
            bound_by_traffic(
                a.flops as int,
                a.hbm_bytes as int,
                b.hbm_bytes as int,
                peak,
                bandwidth,
                NOISE as int,
            )
        }),
    ensures
        cheaper_form(plan, shapes, model) == Some(fused_plan(plan)),
{
    lemma_fused_is_well_below(plan, shapes, model, peak, bandwidth, NOISE as int);
}

/// Between a plan that memory binds and its fused form, a model that sees memory selects the fused
/// form.
pub proof fn memory_bound_plans_are_selected_fused(
    plan: Seq<Node>,
    shapes: Map<Seq<char>, Seq<usize>>,
    model: CostModel,
    peak: nat,
    bandwidth: nat,
)
    requires
        sees_flops_and_traffic(model, peak, bandwidth),
        peak > 0,
        bandwidth > 0,
        account_of(plan, shapes, plan.len() - 1) is Some,
        account_of(fused_plan(plan), shapes, plan.len() as int) is Some,
        ({
            let a = account_of(plan, shapes, plan.len() - 1).unwrap();
            let b = account_of(fused_plan(plan), shapes, plan.len() as int).unwrap();
            bound_by_traffic(
                a.flops as int,
                a.hbm_bytes as int,
                b.hbm_bytes as int,
                peak,
                bandwidth,
                TIE as int,
            )
        }),
    ensures
        forall|i: int|
            is_selected(seq![plan, fused_plan(plan)], shapes, model, i) ==> i == 1,
{
    lemma_fused_is_well_below(plan, shapes, model, peak, bandwidth, TIE as int);
    let both = seq![plan, fused_plan(plan)];
    assert(both[0] == plan && both[1] == fused_plan(plan));
    clear_winner_is_selected(both, shapes, model, 1);
}

/// Naive attention over at least one position is fused wherever its traffic binds it.
pub proof fn memory_bound_attention_is_fused(
    shapes: Map<Seq<char>, Seq<usize>>,
    model: CostModel,
    peak: nat,
    bandwidth: nat,
    s: usize,
    d: usize,
)
    requires
        sees_flops_and_traffic(model, peak, bandwidth),
        peak > 0,
        bandwidth > 0,
        attention_inputs(shapes, s, d),
        s >= 1,
        4 * (s * s * d) + 5 * (s * s) <= u64::MAX,
        4 * (5 * (s * d) + 3 * (s * s) + 1) <= u64::MAX,
        ((4 * (s * s * d) + 5 * (s * s)) * bandwidth) * NOISE < ((4 * (5 * (s * d) + 3 * (s * s)
            + 1)) * peak) * (NOISE - 1),
    ensures
        cheaper_form(attention_nodes(), shapes, model) == Some(
            attention_nodes().push(Node::Fuse(8)),
        ),
{
    naive_attention_account(shapes, s, d);
    fused_attention_account(shapes, s, d);
    let (sd, ss) = ((s * d) as int, (s * s) as int);
    assert(sd >= 0 && ss >= 1) by (nonlinear_arith)
        requires
            sd == s * d,
            ss == s * s,
            s >= 1,
    ;
    let plan = attention_nodes();
    let a = account_of(plan, shapes, plan.len() - 1).unwrap();
    let b = account_of(fused_plan(plan), shapes, plan.len() as int).unwrap();
    assert(a.flops == 4 * (s * s * d) + 5 * (s * s) && a.hbm_bytes == 4 * (5 * sd + 3 * ss + 1));
    assert(b.hbm_bytes == 4 * (4 * sd + 1));
    assert(b.hbm_bytes * 1_000_000_000 < a.hbm_bytes * (1_000_000_000 - 1));
    memory_bound_plans_are_fused(plan, shapes, model, peak, bandwidth);
}

/// The naive MLP is fused wherever its traffic binds it and the hidden activations are not
/// negligible beside the inputs.
pub proof fn memory_bound_mlp_is_fused(
    shapes: Map<Seq<char>, Seq<usize>>,
    model: CostModel,
    peak: nat,
    bandwidth: nat,
    s: usize,
    d: usize,
    f: usize,
)
    requires
        sees_flops_and_traffic(model, peak, bandwidth),
        peak > 0,
        bandwidth > 0,
        mlp_inputs(shapes, s, d, f),
        4 * (s * d * f) + s * f <= u64::MAX,
        4 * (2 * (s * d) + 2 * (d * f) + 2 * (s * f)) <= u64::MAX,
        ((4 * (s * d * f) + s * f) * bandwidth) * NOISE < ((4 * (2 * (s * d) + 2 * (d * f) + 2 * (s
            * f))) * peak) * (NOISE - 1),
        s * d + d * f < (NOISE - 1) * (s * f),
    ensures
        cheaper_form(mlp_nodes(), shapes, model) == Some(mlp_nodes().push(Node::Fuse(5))),
{
    naive_mlp_account(shapes, s, d, f);
    fused_mlp_account(shapes, s, d, f);
    let plan = mlp_nodes();
    let a = account_of(plan, shapes, plan.len() - 1).unwrap();
    let b = account_of(fused_plan(plan), shapes, plan.len() as int).unwrap();
    let (sd, df, sf) = ((s * d) as int, (d * f) as int, (s * f) as int);
    assert(sf >= 0) by (nonlinear_arith)
        requires
            sf == s * f,
    ;
    assert(a.flops == 4 * (s * d * f) + sf && a.hbm_bytes == 4 * (2 * sd + 2 * df + 2 * sf));
    assert(b.hbm_bytes == 4 * (2 * sd + 2 * df));
    let (all, less) = (a.hbm_bytes as int, b.hbm_bytes as int);
    assert(less * 1_000_000_000 < all * (1_000_000_000 - 1)) by (nonlinear_arith)
        requires
            all == 8 * (sd + df + sf),
            less == 8 * (sd + df),
            sd + df < (1_000_000_000 - 1) * sf,
    ;
    memory_bound_plans_are_fused(plan, shapes, model, peak, bandwidth);
}

/// A plan is not fused where some constraint finds that the fused form cannot run at all.
pub proof fn oversized_regions_are_not_fused(
    plan: Seq<Node>,
    shapes: Map<Seq<char>, Seq<usize>>,
    model: CostModel,
    i: int,
)
    requires
        account_of(plan, shapes, plan.len() - 1) is Some,
        account_of(fused_plan(plan), shapes, plan.len() as int) matches Some(b)
            && 0 <= i < model.constraints@.len() && model.bounds(demand_of(b))[i].1 is Infinite
            && all_valid(model.bounds(demand_of(b))),
    ensures
        cheaper_form(plan, shapes, model) == Some(plan),
{
    let b = account_of(fused_plan(plan), shapes, plan.len() as int).unwrap();
    infeasible_plans_never_finish(model.bounds(demand_of(b)));
}

// ---- Choosing among given plans ----

/// Whether all candidates have times.
pub open spec fn all_timed(
    candidates: Seq<Seq<Node>>,
    shapes: Map<Seq<char>, Seq<usize>>,
    model: CostModel,
) -> bool {
    forall|i: int|
        0 <= i < candidates.len() ==> (#[trigger] candidate_time(candidates, shapes, model, i))
            .valid()
}

proof fn lemma_least_candidate(
    candidates: Seq<Seq<Node>>,
    shapes: Map<Seq<char>, Seq<usize>>,
    model: CostModel,
    count: nat,
) -> (least: int)
    requires
        all_timed(candidates, shapes, model),
        0 < count <= candidates.len(),
    ensures
        0 <= least < count,
        forall|j: int|
            0 <= j < count ==> !(#[trigger] candidate_time(candidates, shapes, model, j)).less(
                candidate_time(candidates, shapes, model, least),
            ),
    decreases count,
{
    let last = count - 1;
    let t = candidate_time(candidates, shapes, model, last);
    time_order(t, t, t);
    if count == 1 {
        0
    } else {
        let before = lemma_least_candidate(candidates, shapes, model, last as nat);
        let b = candidate_time(candidates, shapes, model, before);
        if t.less(b) {
            assert forall|j: int| 0 <= j < count implies !(#[trigger] candidate_time(
                candidates,
                shapes,
                model,
                j,
            )).less(t) by {
                time_order(candidate_time(candidates, shapes, model, j), t, b);
            }
            last
        } else {
            before
        }
    }
}

/// If some candidate can run, the selected one can, and no candidate is cheaper by more than the
/// tie margin.
pub proof fn runnable_plans_are_selected(
    candidates: Seq<Seq<Node>>,
    shapes: Map<Seq<char>, Seq<usize>>,
    model: CostModel,
    runnable: int,
    selected: int,
)
    requires
        all_timed(candidates, shapes, model),
        0 <= runnable < candidates.len(),
        candidate_time(candidates, shapes, model, runnable) is Finite,
        is_selected(candidates, shapes, model, selected),
    ensures
        0 <= selected < candidates.len(),
        candidate_time(candidates, shapes, model, selected) is Finite,
        forall|j: int|
            0 <= j < candidates.len() ==> !(#[trigger] candidate_time(
                candidates,
                shapes,
                model,
                j,
            )).well_below(candidate_time(candidates, shapes, model, selected), TIE as nat),
{
    let least = lemma_least_candidate(candidates, shapes, model, candidates.len());
    let low = candidate_time(candidates, shapes, model, least);
    assert(low is Finite) by {
        assert(!candidate_time(candidates, shapes, model, runnable).less(low));
    }
    if let Time::Finite { num, den } = low {
        let x = (num * den) as int;
        assert(x * 1000 <= x * 1001) by (nonlinear_arith)
            requires
                x >= 0,
        ;
        assert(low.within(low, TIE as nat));
    }
    assert forall|j: int| 0 <= j < candidates.len() implies low.within(
        #[trigger] candidate_time(candidates, shapes, model, j),
        TIE as nat,
    ) by {
        lemma_within_longer(low, low, candidate_time(candidates, shapes, model, j), TIE as nat);
    }
    assert(nearly_cheapest(candidates, shapes, model, least));
    let t = candidate_time(candidates, shapes, model, selected);
    assert forall|j: int| 0 <= j < candidates.len() implies !(#[trigger] candidate_time(
        candidates,
        shapes,
        model,
        j,
    )).well_below(t, TIE as nat) by {
        let o = candidate_time(candidates, shapes, model, j);
        assert(t.within(o, TIE as nat));
        if let (Time::Finite { num: a, den: b }, Time::Finite { num: c, den: d }) = (t, o) {
            let (x, y) = ((a * d) as int, (c * b) as int);
            assert(x * 1000 <= y * 1001);
            assert(y >= 0) by (nonlinear_arith)
                requires
                    y == c * b,
            ;
            assert(!(y * 1000 < x * 999));
        }
    }
}

/// A clear winner is selected: a candidate that is cheaper than every other one by more than the
/// tie margin.
pub proof fn clear_winner_is_selected(
    candidates: Seq<Seq<Node>>,
    shapes: Map<Seq<char>, Seq<usize>>,
    model: CostModel,
    winner: int,
)
    requires
        0 <= winner < candidates.len(),
        candidate_time(candidates, shapes, model, winner) is Finite,
        forall|i: int|
            0 <= i < candidates.len() && i != winner ==> ((#[trigger] candidate_time(
                candidates,
                shapes,
                model,
                i,
            )) is Infinite || candidate_time(candidates, shapes, model, winner).well_below(
                candidate_time(candidates, shapes, model, i),
                TIE as nat,
            )),
    ensures
        forall|i: int| is_selected(candidates, shapes, model, i) ==> i == winner,
{
    let w = candidate_time(candidates, shapes, model, winner);
    assert forall|j: int| 0 <= j < candidates.len() implies w.within(
        #[trigger] candidate_time(candidates, shapes, model, j),
        TIE as nat,
    ) by {
        let t = candidate_time(candidates, shapes, model, j);
        if let (Time::Finite { num: a, den: b }, Time::Finite { num: c, den: d }) = (w, t) {
            let (x, y) = ((a * d) as int, (c * b) as int);
            assert(x >= 0 && y >= 0) by (nonlinear_arith)
                requires
                    x == a * d,
                    y == c * b,
            ;
            if j != winner {
                assert(x * 1000 < y * 999);
            }
            assert(x * 1000 <= y * 1001);
        }
    }
    assert(nearly_cheapest(candidates, shapes, model, winner));
    assert forall|i: int| is_selected(candidates, shapes, model, i) implies i == winner by {
        if i != winner {
            assert(nearly_cheapest(candidates, shapes, model, i));
            let t = candidate_time(candidates, shapes, model, i);
            assert(t.within(w, TIE as nat));
            if let (Time::Finite { num: a, den: b }, Time::Finite { num: c, den: d }) = (w, t) {
                let (x, y) = ((a * d) as int, (c * b) as int);
                assert(x >= 0) by (nonlinear_arith)
                    requires
                        x == a * d,
                ;
                assert(x * 1000 < y * 999);
                assert(y * 1000 <= x * 1001);
                assert(false);
            }
        }
    }
}

} // verus!
