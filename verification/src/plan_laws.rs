//! What extraction finds in an e-graph that a search has left: a program without fused nodes has a
//! plan there, which is fused as a whole or not at all.
use crate::account::account_of;
use crate::cost::{CostModel, Demand};
use crate::egraph::{graph_closed, named, represents};
use crate::extract::{
    blank, extraction, fused_plan, graph_inputs, lemma_path_fits, materialized, node_time,
    plan_time, scanned, selection, summed, visited, Memo, Problem, NOISE,
};
use crate::ir::{well_ordered, Node};
use crate::laws::{
    extracted_plans_are_fused_whole_or_not, extracted_plans_fit_in_sram, fuse_free, gives_times,
    has_plan, limits_sram, selected_classes_have_plans,
};
use crate::meaning::{ranks, searches_leave_no_cycles};
use crate::rules::rules_for;
use crate::saturate::{
    class_of_program, classes_of, lemma_class_of_program, lemma_classes_each, lemma_in_order,
    symbolic, symbolics, Saturated,
};
use crate::seconds::Time;
use vstd::prelude::*;

verus! {

/// Whether every plan without fusion finishes under the model.
pub open spec fn finishes(model: CostModel) -> bool {
    forall|demand: Demand|
        demand.sram_bytes == 0 ==> (#[trigger] model.time(demand)) is Finite
}

/// Whether node `i` of e-class `id` computes, from e-classes that are `good`.
spec fn grounds(graph: Seq<Seq<Node>>, good: spec_fn(int) -> bool, id: int, i: int) -> bool {
    &&& 0 <= i < graph[id].len()
    &&& !(graph[id][i] is Fuse)
    &&& forall|k: int|
        0 <= k < graph[id][i].children().len() ==> good(#[trigger] graph[id][i].children()[k])
}

/// Whether every e-class that is `good` has a node that computes it from others that are.
spec fn grounded(graph: Seq<Seq<Node>>, good: spec_fn(int) -> bool) -> bool {
    forall|id: int|
        0 <= id < graph.len() && #[trigger] good(id) ==> exists|i: int| #[trigger]
            grounds(graph, good, id, i)
}

/// Whether every good e-class that is done has a plan, unless some number did not fit.
spec fn complete(memo: Memo, good: spec_fn(int) -> bool) -> bool {
    memo.failed || forall|id: int|
        0 <= id < memo.chosen.len() && #[trigger] good(id) && memo.chosen[id] is Some ==> has_plan(
            memo.chosen,
            id,
        )
}

/// Whether the ranks fall along the path.
spec fn falling(rank: spec_fn(int) -> int, path: Seq<int>) -> bool {
    forall|i: int, j: int| 0 <= i < j < path.len() ==> rank(#[trigger] path[i]) > rank(
        #[trigger] path[j],
    )
}

/// Whether e-class `id` ranks below all e-classes on the path.
spec fn below(rank: spec_fn(int) -> int, path: Seq<int>, id: int) -> bool {
    forall|i: int| 0 <= i < path.len() ==> rank(#[trigger] path[i]) > rank(id)
}

/// What the search for a plan goes by: a closed e-graph, ranks that fall, and good e-classes.
spec fn searchable(p: Problem, rank: spec_fn(int) -> int, good: spec_fn(int) -> bool) -> bool {
    &&& graph_closed(p.graph)
    &&& ranks(p.graph, rank)
    &&& grounded(p.graph, good)
    &&& finishes(p.model)
}

spec fn on_graph(p: Problem, path: Seq<int>) -> bool {
    forall|i: int| 0 <= i < path.len() ==> 0 <= #[trigger] path[i] < p.graph.len()
}

proof fn lemma_visited_complete(
    p: Problem,
    id: int,
    memo: Memo,
    path: Seq<int>,
    rank: spec_fn(int) -> int,
    good: spec_fn(int) -> bool,
)
    requires
        searchable(p, rank, good),
        memo.chosen.len() == p.graph.len(),
        complete(memo, good),
        on_graph(p, path),
        falling(rank, path),
        below(rank, path, id),
        0 <= id < p.graph.len(),
    ensures
        ({
            let after = visited(p, id, memo, path);
            &&& after.chosen.len() == p.graph.len()
            &&& memo.failed ==> after.failed
            &&& complete(after, good)
            &&& good(id) && !after.failed ==> has_plan(after.chosen, id)
        }),
    decreases p.graph.len() - path.len(), 0nat, 0nat,
{
    let inner = path.push(id);
    assert(!path.contains(id)) by {
        if path.contains(id) {
            let i = choose|i: int| 0 <= i < path.len() && path[i] == id;
            assert(rank(path[i]) > rank(id));
        }
    }
    assert(falling(rank, inner)) by {
        assert forall|i: int, j: int| 0 <= i < j < inner.len() implies rank(#[trigger] inner[i])
            > rank(#[trigger] inner[j]) by {
            assert(inner[i] == path[i]);
            if j < path.len() {
                assert(inner[j] == path[j]);
            }
        }
    }
    assert(on_graph(p, inner)) by {
        assert forall|i: int| 0 <= i < inner.len() implies 0 <= #[trigger] inner[i]
            < p.graph.len() by {
            if i < path.len() {
                assert(inner[i] == path[i]);
            }
        }
    }
    assert(inner.no_duplicates()) by {
        assert forall|i: int, j: int|
            0 <= i < inner.len() && 0 <= j < inner.len() && i != j implies inner[i]
            != inner[j] by {
            if i < j {
                assert(rank(inner[i]) > rank(inner[j]));
            } else {
                assert(rank(inner[j]) > rank(inner[i]));
            }
        }
    }
    lemma_path_fits(inner, p.graph.len() as int);
    if memo.chosen[id] is None {
        let count = p.graph[id].len();
        lemma_scanned_complete(p, id, count, memo, inner, rank, good);
        let (after, best) = scanned(p, id, count, memo, inner);
        let noted = visited(p, id, memo, path);
        if good(id) && !after.failed {
            let i = choose|i: int| #[trigger] grounds(p.graph, good, id, i);
            assert(best.cost is Finite);
        }
        if !noted.failed {
            assert forall|q: int|
                0 <= q < noted.chosen.len() && #[trigger] good(q) && noted.chosen[q]
                    is Some implies has_plan(noted.chosen, q) by {
                if q != id {
                    assert(noted.chosen[q] == after.chosen[q]);
                    assert(has_plan(after.chosen, q));
                }
            }
        }
    }
}

proof fn lemma_scanned_complete(
    p: Problem,
    id: int,
    count: nat,
    memo: Memo,
    path: Seq<int>,
    rank: spec_fn(int) -> int,
    good: spec_fn(int) -> bool,
)
    requires
        searchable(p, rank, good),
        memo.chosen.len() == p.graph.len(),
        complete(memo, good),
        on_graph(p, path),
        falling(rank, path),
        path.len() > 0,
        path.last() == id,
        count <= p.graph[id].len(),
    ensures
        ({
            let (after, best) = scanned(p, id, count, memo, path);
            &&& after.chosen.len() == p.graph.len()
            &&& memo.failed ==> after.failed
            &&& complete(after, good)
            &&& !after.failed ==> forall|i: int|
                i < count && #[trigger] grounds(p.graph, good, id, i) ==> best.cost is Finite
        }),
    decreases p.graph.len() - path.len(), 2nat, count,
{
    assert(0 <= path[path.len() - 1] < p.graph.len());
    if count > 0 {
        lemma_scanned_complete(p, id, (count - 1) as nat, memo, path, rank, good);
        let (m, best) = scanned(p, id, (count - 1) as nat, memo, path);
        let node = p.graph[id][count - 1];
        if !(node is Fuse) {
            if let Some(t) = node_time(p, id, node) {
                let kids = node.children();
                assert(node.operands_below(p.graph.len() as int));
                assert forall|k: int| 0 <= k < kids.len() implies 0 <= #[trigger] kids[k]
                    < p.graph.len() && below(rank, path, kids[k]) by {
                    let c = p.graph[id][count - 1].children()[k];
                    assert(rank(c) < rank(id));
                    assert forall|i: int| 0 <= i < path.len() implies rank(#[trigger] path[i])
                        > rank(c) by {
                        let end = path[path.len() - 1];
                        if i < path.len() - 1 {
                            assert(rank(path[i]) > rank(end));
                        }
                    }
                }
                lemma_summed_complete(p, kids, kids.len(), m, t, path, rank, good);
            }
        }
        let (after, new_best) = scanned(p, id, count, memo, path);
        if !after.failed {
            assert forall|i: int|
                i < count && #[trigger] grounds(p.graph, good, id, i) implies new_best.cost
                is Finite by {
                if i == count - 1 {
                    let kids = node.children();
                    assert forall|k: int| 0 <= k < kids.len() implies good(
                        #[trigger] kids[k],
                    ) by {
                        assert(good(p.graph[id][i].children()[k]));
                    }
                }
            }
        }
    }
}

proof fn lemma_summed_complete(
    p: Problem,
    operands: Seq<int>,
    count: nat,
    memo: Memo,
    t: Time,
    path: Seq<int>,
    rank: spec_fn(int) -> int,
    good: spec_fn(int) -> bool,
)
    requires
        searchable(p, rank, good),
        memo.chosen.len() == p.graph.len(),
        complete(memo, good),
        on_graph(p, path),
        falling(rank, path),
        count <= operands.len(),
        forall|k: int|
            0 <= k < operands.len() ==> 0 <= #[trigger] operands[k] < p.graph.len() && below(
                rank,
                path,
                operands[k],
            ),
        t is Finite,
    ensures
        ({
            let (after, total) = summed(p, operands, count, memo, t, path);
            &&& after.chosen.len() == p.graph.len()
            &&& memo.failed ==> after.failed
            &&& complete(after, good)
            &&& total matches Some((sum, _)) ==> sum is Finite
            &&& !after.failed && (forall|k: int| 0 <= k < count ==> good(#[trigger] operands[k]))
                ==> total is Some
        }),
    decreases p.graph.len() - path.len(), 1nat, count,
{
    if count > 0 {
        lemma_summed_complete(p, operands, (count - 1) as nat, memo, t, path, rank, good);
        let (m, total) = summed(p, operands, (count - 1) as nat, memo, t, path);
        if let Some((sum, n)) = total {
            let c = operands[count - 1];
            lemma_visited_complete(p, c, m, path, rank, good);
        }
    }
}

/// Whether an e-class is that of one of the nodes of a program.
spec fn holds_node(
    classes: Map<int, Set<(Seq<char>, Seq<int>)>>,
    program: Seq<Node>,
) -> spec_fn(int) -> bool {
    let ids = classes_of(classes, symbolics(program), program.len()).unwrap();
    |id: int| exists|i: int| 0 <= i < program.len() && #[trigger] ids[i] == id
}

/// The e-classes of a program without fused nodes are computed from each other.
proof fn lemma_program_is_grounded(
    classes: Map<int, Set<(Seq<char>, Seq<int>)>>,
    graph: Seq<Seq<Node>>,
    program: Seq<Node>,
)
    requires
        represents(graph, classes),
        well_ordered(program),
        fuse_free(program),
        classes_of(classes, symbolics(program), program.len()) is Some,
    ensures
        grounded(graph, holds_node(classes, program)),
{
    let good = holds_node(classes, program);
    let nodes = symbolics(program);
    let ids = classes_of(classes, nodes, program.len()).unwrap();
    lemma_in_order(program);
    assert forall|id: int| 0 <= id < graph.len() && #[trigger] good(id) implies exists|i: int|
        #[trigger] grounds(graph, good, id, i) by {
        let j = choose|j: int| 0 <= j < program.len() && #[trigger] ids[j] == id;
        lemma_classes_each(classes, nodes, program.len(), j);
        let n = (nodes[j].0, nodes[j].1.map_values(|k: int| ids[k]));
        assert(classes[id].contains(n));
        assert(named(graph[id]).contains(n));
        let all = graph[id].map_values(|n: Node| symbolic(n));
        let i = choose|i: int| 0 <= i < all.len() && all[i] == n;
        let node = graph[id][i];
        assert(symbolic(node) == n);
        assert(nodes[j] == symbolic(program[j]));
        assert(!(program[j] is Fuse));
        lemma_not_fused(program[j], node);
        assert(node.children() == n.1);
        assert forall|k: int| 0 <= k < node.children().len() implies good(
            #[trigger] node.children()[k],
        ) by {
            let at = nodes[j].1[k];
            assert(0 <= at < j);
            assert(node.children()[k] == ids[at]);
        }
        assert(grounds(graph, good, id, i));
    }
}

/// A node of the same name as one that computes computes too.
proof fn lemma_not_fused(a: Node, b: Node)
    requires
        symbolic(a).0 == symbolic(b).0,
        symbolic(a).1.len() == symbolic(b).1.len(),
        !(a is Fuse),
    ensures
        !(b is Fuse),
{
    reveal_strlit("transpose");
    reveal_strlit("softmax");
    reveal_strlit("relu");
    reveal_strlit("fuse");
    assert("transpose"@.len() == 9 && "softmax"@.len() == 7);
    assert("relu"@[0] != "fuse"@[0]);
}

/// A plan is found for every program without fused nodes, whatever the search for equal programs
/// came to: the e-class of the program has a plan, unless 64 bits do not hold some number.
pub proof fn programs_have_plans(
    run: Saturated,
    program: Seq<Node>,
    inputs: Map<Seq<char>, Seq<usize>>,
    p: Problem,
    root: int,
)
    requires
        run.searched(program, rules_for(program, inputs)),
        represents(p.graph, run.classes()),
        graph_closed(p.graph),
        well_ordered(program),
        fuse_free(program),
        class_of_program(run.classes(), symbolics(program)) == Some(root),
        finishes(p.model),
    ensures
        selection(p, root).failed || has_plan(selection(p, root).chosen, root),
        selection(p, root).failed <==> materialized(p, root) is None,
{
    let classes = run.classes();
    let good = holds_node(classes, program);
    lemma_class_of_program(classes, symbolics(program));
    let ids = classes_of(classes, symbolics(program), program.len()).unwrap();
    searches_leave_no_cycles(run, program, inputs, p.graph);
    let rank = choose|rank: spec_fn(int) -> int| #[trigger] ranks(p.graph, rank);
    lemma_program_is_grounded(classes, p.graph, program);
    assert(0 <= root < p.graph.len());
    assert(ids.len() == program.len()) by {
        lemma_in_order(program);
        lemma_classes_each(classes, symbolics(program), program.len(), program.len() - 1);
    }
    assert(ids[program.len() - 1] == root);
    assert(good(root));
    lemma_visited_complete(p, root, blank(p.graph.len()), seq![], rank, good);
    if !selection(p, root).failed {
        selected_classes_have_plans(p, root);
    }
}

/// The plan that extraction picks for a program without fused nodes has at most one fused node, as
/// its last one. If it is fused, it takes less time than without; if it is not, fusing it would
/// save no time beyond noise. Under a constraint on SRAM it fits.
pub proof fn extraction_fuses_what_pays(
    run: Saturated,
    program: Seq<Node>,
    inputs: Map<Seq<char>, Seq<usize>>,
    p: Problem,
    root: int,
)
    requires
        run.searched(program, rules_for(program, inputs)),
        represents(p.graph, run.classes()),
        graph_closed(p.graph),
        well_ordered(program),
        fuse_free(program),
        class_of_program(run.classes(), symbolics(program)) == Some(root),
        finishes(p.model),
        extraction(p, root) is Some,
    ensures
        ({
            let shapes = graph_inputs(p.graph, p.shapes, p.graph.len());
            let plan = extraction(p, root).unwrap();
            let time = plan_time(plan, shapes, p.model);
            &&& plan.len() > 0
            &&& fuse_free(plan.drop_last())
            &&& plan.last() is Fuse ==> {
                &&& plan == fused_plan(plan.drop_last())
                &&& time.unwrap().less(plan_time(plan.drop_last(), shapes, p.model).unwrap())
            }
            &&& !(plan.last() is Fuse) ==> !plan_time(
                fused_plan(plan),
                shapes,
                p.model,
            ).unwrap().well_below(time.unwrap(), NOISE as nat)
            &&& forall|i: int, capacity: u64|
                0 <= i < p.model.constraints@.len() && #[trigger] limits_sram(p.model, i, capacity)
                    && gives_times(p.model) ==> account_of(
                    plan,
                    shapes,
                    plan.len() - 1,
                ).unwrap().sram_bytes <= capacity
        }),
{
    programs_have_plans(run, program, inputs, p, root);
    extracted_plans_are_fused_whole_or_not(p, root);
    let shapes = graph_inputs(p.graph, p.shapes, p.graph.len());
    let plain = materialized(p, root).unwrap();
    let plan = extraction(p, root).unwrap();
    assert(fused_plan(plain).drop_last() =~= plain);
    let (t, fused) = (
        plan_time(plain, shapes, p.model).unwrap(),
        plan_time(fused_plan(plain), shapes, p.model).unwrap(),
    );
    if let (Time::Finite { num: a, den: b }, Time::Finite { num: c, den: d }) = (fused, t) {
        let (x, y, k) = ((a * d) as int, (c * b) as int, NOISE as int);
        assert(x * k < y * (k - 1) ==> x < y) by (nonlinear_arith)
            requires
                x >= 0,
                y >= 0,
                k > 1,
        ;
    }
    assert forall|i: int, capacity: u64|
        0 <= i < p.model.constraints@.len() && #[trigger] limits_sram(p.model, i, capacity)
            && gives_times(p.model) implies account_of(
        plan,
        shapes,
        plan.len() - 1,
    ).unwrap().sram_bytes <= capacity by {
        extracted_plans_fit_in_sram(p, root, i, capacity);
    }
}

} // verus!
