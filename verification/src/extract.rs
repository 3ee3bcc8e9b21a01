//! Cost-driven extraction: the plan that the cost model prefers among the equivalent ones.
//!
//! Selection is greedy, bottom up over the e-graph. A plan is first extracted without fusion;
//! then the cost model decides whether to wrap the whole plan in one fused region.
use crate::account::{
    account_expr, account_of, capped_matmul_flops, matmul_flops, tensor_bytes, try_account,
};
use crate::capped::{cap, cap_mul, capped_numel, lemma_cap_mul, CAP};
use crate::cost::{demand_of, CostModel, Demand};
use crate::egraph::{node_views, EGraph};
use crate::ir::{dims, numel, Id, Node, Program, Shapes, TensorLang};
use crate::names::NameMap;
use crate::natural::Natural;
use crate::seconds::{lemma_within_longer, time_order, Seconds, Time};
use vstd::prelude::*;

verus! {

// ---- What one node costs ----

/// What extraction works on.
pub struct Problem {
    pub graph: Seq<Seq<Node>>,
    pub shapes: Seq<Option<Seq<usize>>>,
    pub model: CostModel,
}

/// The shape of an e-class; that of a scalar where it is not known.
pub open spec fn class_shape(shapes: Seq<Option<Seq<usize>>>, id: int) -> Seq<usize> {
    match shapes[id] {
        Some(s) => s,
        None => seq![],
    }
}

/// The flops of one node, from the shapes of its operands.
pub open spec fn flops_of(shapes: Seq<Option<Seq<usize>>>, node: Node) -> nat {
    match node {
        Node::MatMul(a, b) => {
            let (sa, sb) = (class_shape(shapes, a), class_shape(shapes, b));
            if sa.len() == 2 && sb.len() == 2 {
                matmul_flops(sa, sb)
            } else {
                0
            }
        },
        Node::EMul(a, b) => {
            let (sa, sb) = (class_shape(shapes, a), class_shape(shapes, b));
            if numel(sa) <= 1 {
                numel(sb)
            } else {
                numel(sa)
            }
        },
        Node::Softmax(a) => 4 * numel(class_shape(shapes, a)),
        Node::Relu(a) => numel(class_shape(shapes, a)),
        _ => 0,
    }
}

/// The time of one node of e-class `id` on its own: its flops, and the tensor that it writes.
/// `None` where 64 bits do not hold them.
pub open spec fn node_time(p: Problem, id: int, node: Node) -> Option<Time> {
    let flops = flops_of(p.shapes, node);
    let bytes = tensor_bytes(class_shape(p.shapes, id));
    if flops <= u64::MAX && bytes <= u64::MAX {
        Some(
            p.model.time(Demand { flops: flops as u64, hbm_bytes: bytes as u64, sram_bytes: 0 }),
        )
    } else {
        None
    }
}

// ---- Selection ----

/// The chosen node of an e-class: what it costs with everything below it, how many nodes that
/// is, and which node of the class it is.
pub struct Choice {
    pub cost: Time,
    pub count: nat,
    pub pick: nat,
}

/// What selection has found out so far: the choice for each e-class that is done, and whether
/// some number did not fit.
pub struct Memo {
    pub chosen: Seq<Option<Choice>>,
    pub failed: bool,
}

/// One part in this many is taken for noise in a comparison of costs.
pub const NOISE: u64 = 1_000_000_000;

/// No choice yet.
pub open spec fn no_choice() -> Choice {
    Choice { cost: Time::Infinite, count: 0, pick: 0 }
}

/// Whether a plan of this cost and size is preferred to the best one so far: it is cheaper, or as
/// cheap and smaller. A plan that cannot run is never preferred.
pub open spec fn preferred(cost: Time, count: nat, best: Choice, noise: nat) -> bool {
    cost is Finite && {
        ||| best.cost is Infinite
        ||| cost.well_below(best.cost, noise)
        ||| cost.near(best.cost, noise) && count < best.count
    }
}

/// Selects for e-class `id`, unless that is done or `id` is on the path from the root: a plan
/// through it would be a cycle.
pub open spec fn visited(p: Problem, id: int, memo: Memo, path: Seq<int>) -> Memo
    decreases p.graph.len() - path.len(), 0nat, 0nat,
{
    if id < 0 || id >= p.graph.len() || memo.chosen[id] is Some || path.contains(id) || path.len()
        >= p.graph.len() {
        memo
    } else {
        let (after, best) = scanned(p, id, p.graph[id].len(), memo, path.push(id));
        Memo { chosen: after.chosen.update(id, Some(best)), failed: after.failed }
    }
}

/// The best of the first `count` nodes of e-class `id`. Fused nodes are passed over: a fused node
/// is in the e-class of its operand.
pub open spec fn scanned(p: Problem, id: int, count: nat, memo: Memo, path: Seq<int>) -> (
    Memo,
    Choice,
)
    decreases p.graph.len() - path.len(), 2nat, count,
{
    if count == 0 {
        (memo, no_choice())
    } else {
        let (m, best) = scanned(p, id, (count - 1) as nat, memo, path);
        let node = p.graph[id][count - 1];
        if node is Fuse {
            (m, best)
        } else {
            match node_time(p, id, node) {
                None => (Memo { chosen: m.chosen, failed: true }, best),
                Some(t) => {
                    let (after, total) = summed(
                        p,
                        node.children(),
                        node.children().len(),
                        m,
                        t,
                        path,
                    );
                    match total {
                        Some((cost, n)) => if preferred(cost, n, best, NOISE as nat) {
                            (after, Choice { cost, count: n, pick: (count - 1) as nat })
                        } else {
                            (after, best)
                        },
                        None => (after, best),
                    }
                },
            }
        }
    }
}

/// The cost and the size of a node that takes `t` itself, with its first `count` operands. `None`
/// where an operand has no finite plan.
pub open spec fn summed(
    p: Problem,
    operands: Seq<int>,
    count: nat,
    memo: Memo,
    t: Time,
    path: Seq<int>,
) -> (Memo, Option<(Time, nat)>)
    decreases p.graph.len() - path.len(), 1nat, count,
{
    if count == 0 {
        (memo, Some((t, 1)))
    } else {
        let (m, total) = summed(p, operands, (count - 1) as nat, memo, t, path);
        match total {
            None => (m, None),
            Some((sum, n)) => {
                let c = operands[count - 1];
                let after = visited(p, c, m, path);
                match after.chosen[c] {
                    Some(choice) => if choice.cost is Finite {
                        (after, Some((sum.plus(choice.cost), n + choice.count)))
                    } else {
                        (after, None)
                    },
                    None => (after, None),
                }
            },
        }
    }
}

/// Distinct ids of an e-graph are no more than it has.
pub proof fn lemma_path_fits(path: Seq<int>, n: int)
    requires
        0 <= n,
        path.no_duplicates(),
        forall|i: int| 0 <= i < path.len() ==> 0 <= #[trigger] path[i] < n,
    ensures
        path.len() <= n,
{
    path.unique_seq_to_set();
    let all = vstd::set_lib::set_int_range(0, n);
    if path.len() > 0 {
        assert(0 <= path[0] < n);
        vstd::set_lib::lemma_int_range(0, n);
        assert(path.to_set().subset_of(all)) by {
            assert forall|x: int| path.to_set().contains(x) implies all.contains(x) by {
                let i = choose|i: int| 0 <= i < path.len() && path[i] == x;
                assert(0 <= path[i] < n);
            }
        }
        vstd::set_lib::lemma_len_subset(path.to_set(), all);
    }
}

// ---- The search ----

/// A choice, see `Choice`.
struct Pick {
    cost: Seconds,
    count: Natural,
    pick: usize,
}

impl Pick {
    spec fn choice(self) -> Choice {
        Choice { cost: self.cost@, count: self.count@, pick: self.pick as nat }
    }
}

/// The state of the search, see `Memo`.
struct Notes {
    chosen: Vec<Option<Pick>>,
    failed: bool,
}

spec fn choice_view(pick: Option<Pick>) -> Option<Choice> {
    match pick {
        Some(p) => Some(p.choice()),
        None => None,
    }
}

impl Notes {
    spec fn memo(self) -> Memo {
        Memo {
            chosen: self.chosen@.map_values(|p: Option<Pick>| choice_view(p)),
            failed: self.failed,
        }
    }
}

/// The problem of extracting from an e-graph under a model.
pub open spec fn problem(egraph: EGraph, model: CostModel) -> Problem {
    Problem { graph: egraph.graph(), shapes: egraph.shapes(), model }
}

/// The shape of an e-class; that of a scalar where it is not known.
fn eclass_shape(egraph: &EGraph, id: Id) -> (shape: Vec<usize>)
    requires
        id < egraph.data@.len(),
    ensures
        shape@ == class_shape(egraph.shapes(), id as int),
{
    match egraph.shape(id) {
        Some(s) => s.clone(),
        None => {
            let shape: Vec<usize> = Vec::new();
            assert(shape@ =~= seq![]);
            shape
        },
    }
}

/// The bytes of the tensor that an e-class computes, capped.
fn out_bytes(egraph: &EGraph, id: Id) -> (bytes: u128)
    requires
        id < egraph.data@.len(),
    ensures
        bytes == cap(tensor_bytes(class_shape(egraph.shapes(), id as int))),
{
    let shape = eclass_shape(egraph, id);
    proof {
        lemma_cap_mul(numel(shape@), 4);
    }
    cap_mul(capped_numel(&shape), 4)
}

/// The flops of one node, from the shapes of its operands, capped.
fn node_flops(egraph: &EGraph, node: &TensorLang) -> (flops: u128)
    requires
        node@.operands_below(egraph.data@.len() as int),
    ensures
        flops == cap(flops_of(egraph.shapes(), node@)),
{
    match node {
        TensorLang::MatMul(a, b) => {
            assert(node@.children()[0] == a && node@.children()[1] == b);
            let (sa, sb) = (eclass_shape(egraph, *a), eclass_shape(egraph, *b));
            if sa.len() == 2 && sb.len() == 2 {
                capped_matmul_flops(&sa, &sb)
            } else {
                0
            }
        },
        TensorLang::EMul(a, b) => {
            assert(node@.children()[0] == a && node@.children()[1] == b);
            let (sa, sb) = (eclass_shape(egraph, *a), eclass_shape(egraph, *b));
            let elems: u128 = capped_numel(&sa);
            if elems <= 1 {
                capped_numel(&sb)
            } else {
                elems
            }
        },
        TensorLang::Softmax(a) => {
            assert(node@.children()[0] == a);
            let sa = eclass_shape(egraph, *a);
            proof {
                lemma_cap_mul(4, numel(sa@));
            }
            cap_mul(4, capped_numel(&sa))
        },
        TensorLang::Relu(a) => {
            assert(node@.children()[0] == a);
            capped_numel(&eclass_shape(egraph, *a))
        },
        _ => 0,
    }
}

/// The time of one node of e-class `id` on its own. There is no fused region here, so no demand
/// for SRAM.
fn time_of(egraph: &EGraph, model: &CostModel, id: Id, node: &TensorLang) -> (time: Option<Seconds>)
    requires
        id < egraph.data@.len(),
        node@.operands_below(egraph.data@.len() as int),
    ensures
        match time {
            Some(t) => node_time(problem(*egraph, *model), id as int, node@) == Some(t@),
            None => node_time(problem(*egraph, *model), id as int, node@) is None,
        },
{
    let flops: u128 = node_flops(egraph, node);
    let bytes: u128 = out_bytes(egraph, id);
    if flops < CAP && bytes < CAP {
        let demand = Demand::new(flops as u64, bytes as u64);
        let (time, _, _) = model.cost(&demand);
        Some(time)
    } else {
        None
    }
}

fn on_path(path: &Vec<Id>, id: Id) -> (found: bool)
    ensures
        found == path@.map_values(|k: Id| k as int).contains(id as int),
{
    let ghost ids = path@.map_values(|k: Id| k as int);
    let mut i: usize = 0;
    while i < path.len()
        invariant
            i <= path@.len(),
            ids == path@.map_values(|k: Id| k as int),
            forall|k: int| 0 <= k < i ==> ids[k] != id,
        decreases path@.len() - i,
    {
        if path[i] == id {
            assert(ids[i as int] == id);
            return true;
        }
        i = i + 1;
    }
    false
}

/// Whether this plan is preferred to the best one so far.
fn prefers(cost: &Seconds, count: &Natural, best: &Pick, noise: u64) -> (better: bool)
    requires
        0 < noise < u64::MAX,
    ensures
        better == preferred(cost@, count@, best.choice(), noise as nat),
{
    if cost.is_infinite() {
        false
    } else if best.cost.is_infinite() {
        true
    } else {
        cost.well_below(&best.cost, noise) || cost.near(&best.cost, noise) && count.less(
            &best.count,
        )
    }
}

/// Selects the best acyclic plan of e-class `id` and notes it. Ties on cost break toward fewer
/// nodes.
#[verifier::loop_isolation(false)]
fn select_class(egraph: &EGraph, id: Id, model: &CostModel, notes: &mut Notes, path: &mut Vec<Id>)
    requires
        egraph.well_formed(),
        id < egraph.nodes@.len(),
        old(notes).chosen@.len() == egraph.nodes@.len(),
        old(path)@.map_values(|k: Id| k as int).no_duplicates(),
        forall|i: int| 0 <= i < old(path)@.len() ==> (#[trigger] old(path)@[i]) < egraph.nodes@.len(),
    ensures
        final(notes).chosen@.len() == egraph.nodes@.len(),
        final(path)@ == old(path)@,
        final(notes).memo() == visited(
            problem(*egraph, *model),
            id as int,
            old(notes).memo(),
            old(path)@.map_values(|k: Id| k as int),
        ),
    decreases egraph.nodes@.len() - old(path)@.len(),
{
    let ghost p = problem(*egraph, *model);
    let ghost route = path@.map_values(|k: Id| k as int);
    let ghost start = notes.memo();
    assert(start.chosen[id as int] == choice_view(notes.chosen@[id as int]));
    if notes.chosen[id].is_some() {
        return ;
    }
    if on_path(path, id) {
        return ;
    }
    path.push(id);
    let ghost inner = route.push(id as int);
    assert(path@.map_values(|k: Id| k as int) =~= inner);
    proof {
        assert(inner.no_duplicates()) by {
            assert forall|i: int, j: int| 0 <= i < inner.len() && 0 <= j < inner.len() && i
                != j implies inner[i] != inner[j] by {
                if i == route.len() {
                    assert(route.contains(route[j]));
                } else if j == route.len() {
                    assert(route.contains(route[i]));
                } else {
                    assert(route[i] != route[j]);
                }
            }
        }
        assert forall|i: int| 0 <= i < inner.len() implies 0 <= #[trigger] inner[i]
            < p.graph.len() by {
            if i < route.len() {
                assert(old(path)@[i] < egraph.nodes@.len());
            }
        }
        lemma_path_fits(inner, p.graph.len() as int);
    }
    let ghost grown = path@;
    let mut best = Pick { cost: Seconds::Infinite, count: Natural::from_u64(0), pick: 0 };
    let nodes = &egraph.nodes[id];
    assert(p.graph[id as int] == node_views(nodes@));
    let mut ni: usize = 0;
    while ni < nodes.len()
        invariant
            ni <= nodes@.len(),
            path@ == grown,
            notes.chosen@.len() == egraph.nodes@.len(),
            scanned(p, id as int, ni as nat, start, inner) == (notes.memo(), best.choice()),
        decreases nodes@.len() - ni,
    {
        let node = &nodes[ni];
        assert(p.graph[id as int][ni as int] == node@);
        assert(node@.operands_below(p.graph.len() as int));
        let fused = match node {
            TensorLang::Fuse(_) => true,
            _ => false,
        };
        if !fused {
            match time_of(egraph, model, id, node) {
                None => {
                    notes.failed = true;
                },
                Some(t) => {
                    let operands = node.children();
                    let ghost kids = node@.children();
                    let ghost before = notes.memo();
                    let mut total: Option<(Seconds, Natural)> = Some((t, Natural::from_u64(1)));
                    let mut k: usize = 0;
                    while k < operands.len() && total.is_some()
                        invariant
                            k <= operands@.len(),
                            path@ == grown,
                            notes.chosen@.len() == egraph.nodes@.len(),
                            ({
                                let (m, s) = summed(p, kids, k as nat, before, t@, inner);
                                m == notes.memo() && match total {
                                    Some((sum, n)) => s == Some((sum@, n@)),
                                    None => s is None,
                                }
                            }),
                        decreases operands@.len() - k,
                    {
                        let c: Id = operands[k];
                        assert(kids[k as int] == c);
                        select_class(egraph, c, model, notes, path);
                        assert(notes.memo().chosen[c as int] == choice_view(
                            notes.chosen@[c as int],
                        ));
                        total = match (&total, &notes.chosen[c]) {
                            (Some((sum, n)), Some(choice)) => if choice.cost.is_infinite() {
                                None
                            } else {
                                Some((sum.plus(&choice.cost), n.plus(&choice.count)))
                            },
                            _ => None,
                        };
                        k = k + 1;
                    }
                    proof {
                        lemma_summed_none(p, kids, k as nat, kids.len(), before, t@, inner);
                    }
                    if let Some((cost, n)) = total {
                        if prefers(&cost, &n, &best, NOISE) {
                            best = Pick { cost, count: n, pick: ni };
                        }
                    }
                },
            }
        }
        ni = ni + 1;
    }
    path.pop();
    assert(path@ =~= old(path)@);
    let ghost last = best.choice();
    let ghost before = notes.memo();
    notes.chosen.set(id, Some(best));
    assert(notes.memo().chosen =~= before.chosen.update(id as int, Some(last)));
}

proof fn lemma_summed_none(
    p: Problem,
    operands: Seq<int>,
    m: nat,
    n: nat,
    memo: Memo,
    t: Time,
    path: Seq<int>,
)
    requires
        m <= n,
        m < n ==> summed(p, operands, m, memo, t, path).1 is None,
    ensures
        summed(p, operands, n, memo, t, path) == summed(p, operands, m, memo, t, path),
    decreases n,
{
    if m < n {
        lemma_summed_none(p, operands, m, (n - 1) as nat, memo, t, path);
    }
}

// ---- Building the plan ----

/// `out` followed by the plan of e-class `id`: its chosen node over the plans of the operands.
/// `None` where no choice was made, or where following the choices for more than `fuel` steps
/// does not come to an end.
pub open spec fn built(
    graph: Seq<Seq<Node>>,
    chosen: Seq<Option<Choice>>,
    id: int,
    fuel: nat,
    out: Seq<Node>,
) -> Option<Seq<Node>>
    decreases fuel, 0nat, 0nat,
{
    if fuel == 0 || id < 0 || id >= graph.len() {
        None
    } else {
        match chosen[id] {
            Some(choice) => if choice.pick < graph[id].len() {
                let node = graph[id][choice.pick as int];
                match built_operands(
                    graph,
                    chosen,
                    node.children(),
                    node.children().len(),
                    (fuel - 1) as nat,
                    out,
                ) {
                    Some((after, ids)) => Some(after.push(node.with_children(ids))),
                    None => None,
                }
            } else {
                None
            },
            None => None,
        }
    }
}

/// `out` followed by the plans of the first `count` operands, and where each of them ends.
pub open spec fn built_operands(
    graph: Seq<Seq<Node>>,
    chosen: Seq<Option<Choice>>,
    operands: Seq<int>,
    count: nat,
    fuel: nat,
    out: Seq<Node>,
) -> Option<(Seq<Node>, Seq<int>)>
    decreases fuel, 1nat, count,
{
    if count == 0 {
        Some((out, seq![]))
    } else {
        match built_operands(graph, chosen, operands, (count - 1) as nat, fuel, out) {
            Some((before, ids)) => match built(graph, chosen, operands[count - 1], fuel, before) {
                Some(after) => Some((after, ids.push(after.len() - 1))),
                None => None,
            },
            None => None,
        }
    }
}

/// Builds the plan of e-class `id` behind `out`, and returns the position of its root.
#[verifier::loop_isolation(false)]
fn build_chosen(
    egraph: &EGraph,
    id: Id,
    notes: &Notes,
    fuel: usize,
    out: &mut Program,
) -> (root: Option<Id>)
    requires
        egraph.well_formed(),
        id < egraph.nodes@.len(),
        notes.chosen@.len() == egraph.nodes@.len(),
    ensures
        match root {
            Some(r) => {
                &&& built(egraph.graph(), notes.memo().chosen, id as int, fuel as nat, old(out)@)
                    == Some(final(out)@)
                &&& final(out)@.len() > old(out)@.len()
                &&& r == final(out)@.len() - 1
            },
            None => built(egraph.graph(), notes.memo().chosen, id as int, fuel as nat, old(out)@)
                is None,
        },
    decreases fuel,
{
    let ghost graph = egraph.graph();
    let ghost chosen = notes.memo().chosen;
    let ghost start = out@;
    if fuel == 0 {
        return None;
    }
    assert(chosen[id as int] == choice_view(notes.chosen@[id as int]));
    assert(graph[id as int] == node_views(egraph.nodes@[id as int]@));
    let pick: usize = match &notes.chosen[id] {
        Some(choice) => choice.pick,
        None => return None,
    };
    if pick >= egraph.nodes[id].len() {
        return None;
    }
    let node = &egraph.nodes[id][pick];
    assert(graph[id as int][pick as int] == node@);
    assert(node@.operands_below(graph.len() as int));
    let operands = node.children();
    let ghost kids = node@.children();
    let mut ids: Vec<Id> = Vec::new();
    let mut k: usize = 0;
    assert(ids@.map_values(|i: Id| i as int) =~= seq![]);
    while k < operands.len()
        invariant
            k <= operands@.len(),
            ids@.len() == k,
            out@.len() >= start.len(),
            forall|j: int| 0 <= j < k ==> (#[trigger] ids@[j]) < out@.len(),
            built_operands(graph, chosen, kids, k as nat, (fuel - 1) as nat, start) == Some(
                (out@, ids@.map_values(|i: Id| i as int)),
            ),
        decreases operands@.len() - k,
    {
        assert(kids[k as int] == operands@[k as int]);
        let ghost ids_before = ids@;
        match build_chosen(egraph, operands[k], notes, fuel - 1, out) {
            Some(r) => {
                ids.push(r);
                assert(ids@.map_values(|i: Id| i as int) =~= ids_before.map_values(
                    |i: Id| i as int,
                ).push(r as int));
            },
            None => {
                proof {
                    lemma_operands_fail(
                        graph,
                        chosen,
                        kids,
                        k as nat + 1,
                        kids.len(),
                        (fuel - 1) as nat,
                        start,
                    );
                }
                return None;
            },
        }
        k = k + 1;
    }
    let mapped = node.with_children(&ids);
    proof {
        let views = ids@.map_values(|i: Id| i as int);
        assert forall|j: int| 0 <= j < mapped@.children().len() implies 0
            <= #[trigger] mapped@.children()[j] < out@.len() by {
            assert(mapped@.children()[j] == views[j]);
        }
    }
    Some(out.add(mapped))
}

proof fn lemma_operands_fail(
    graph: Seq<Seq<Node>>,
    chosen: Seq<Option<Choice>>,
    operands: Seq<int>,
    m: nat,
    n: nat,
    fuel: nat,
    out: Seq<Node>,
)
    requires
        m <= n,
        built_operands(graph, chosen, operands, m, fuel, out) is None,
    ensures
        built_operands(graph, chosen, operands, n, fuel, out) is None,
    decreases n,
{
    if m < n {
        lemma_operands_fail(graph, chosen, operands, m, (n - 1) as nat, fuel, out);
    }
}

// ---- Input shapes ----

/// The shapes of the inputs among the first `count` nodes of e-class `id`, over those in `known`.
pub open spec fn class_inputs(
    nodes: Seq<Node>,
    shape: Option<Seq<usize>>,
    count: nat,
    known: Map<Seq<char>, Seq<usize>>,
) -> Map<Seq<char>, Seq<usize>>
    decreases count,
{
    if count == 0 {
        known
    } else {
        let before = class_inputs(nodes, shape, (count - 1) as nat, known);
        match (nodes[count - 1], shape) {
            (Node::Var(name), Some(s)) => before.insert(name, s),
            _ => before,
        }
    }
}

/// The shapes of the inputs in the first `count` e-classes.
pub open spec fn graph_inputs(
    graph: Seq<Seq<Node>>,
    shapes: Seq<Option<Seq<usize>>>,
    count: nat,
) -> Map<Seq<char>, Seq<usize>>
    decreases count,
{
    if count == 0 {
        Map::empty()
    } else {
        class_inputs(
            graph[count - 1],
            shapes[count - 1],
            graph[count - 1].len(),
            graph_inputs(graph, shapes, (count - 1) as nat),
        )
    }
}

/// Recovers the shapes of the inputs from the e-graph, so that the accountant can be run on an
/// extracted program.
#[verifier::loop_isolation(false)]
fn shapes_from_egraph(egraph: &EGraph) -> (shapes: Shapes)
    requires
        egraph.well_formed(),
    ensures
        dims(shapes) == graph_inputs(egraph.graph(), egraph.shapes(), egraph.nodes@.len()),
{
    let ghost graph = egraph.graph();
    let ghost known = egraph.shapes();
    let mut shapes: Shapes = NameMap::new();
    assert(dims(shapes) =~= Map::empty());
    let mut id: usize = 0;
    while id < egraph.nodes.len()
        invariant
            id <= egraph.nodes@.len(),
            dims(shapes) == graph_inputs(graph, known, id as nat),
        decreases egraph.nodes@.len() - id,
    {
        let nodes = &egraph.nodes[id];
        assert(graph[id as int] == node_views(nodes@));
        let ghost start = dims(shapes);
        let mut i: usize = 0;
        while i < nodes.len()
            invariant
                i <= nodes@.len(),
                dims(shapes) == class_inputs(graph[id as int], known[id as int], i as nat, start),
            decreases nodes@.len() - i,
        {
            assert(graph[id as int][i as int] == nodes@[i as int]@);
            if let TensorLang::Var(name) = &nodes[i] {
                if let Some(shape) = egraph.shape(id) {
                    let ghost before = dims(shapes);
                    shapes.insert(name.as_str(), shape.clone());
                    assert(dims(shapes) =~= before.insert(name@, shape@));
                }
            }
            i = i + 1;
        }
        id = id + 1;
    }
    shapes
}

// ---- Extraction ----

/// Nothing noted yet.
pub open spec fn blank(count: nat) -> Memo {
    Memo { chosen: Seq::new(count, |i: int| None), failed: false }
}

/// What selection finds for the plan of e-class `root`.
pub open spec fn selection(p: Problem, root: int) -> Memo {
    visited(p, root, blank(p.graph.len()), seq![])
}

/// The best plan without fusion, where there is one and all numbers fit.
pub open spec fn materialized(p: Problem, root: int) -> Option<Seq<Node>> {
    let memo = selection(p, root);
    if memo.failed {
        None
    } else {
        built(p.graph, memo.chosen, root, p.graph.len(), seq![])
    }
}

/// A plan as one fused region.
pub open spec fn fused_plan(plan: Seq<Node>) -> Seq<Node> {
    plan.push(Node::Fuse(plan.len() - 1))
}

/// The time of a plan under a model, where it has an account.
pub open spec fn plan_time(
    plan: Seq<Node>,
    shapes: Map<Seq<char>, Seq<usize>>,
    model: CostModel,
) -> Option<Time> {
    match account_of(plan, shapes, plan.len() - 1) {
        Some(account) => Some(model.time(demand_of(account))),
        None => None,
    }
}

/// The plan or its fused form: fused only if that is cheaper, beyond noise. `None` where one of
/// them has no account.
pub open spec fn cheaper_form(
    plan: Seq<Node>,
    shapes: Map<Seq<char>, Seq<usize>>,
    model: CostModel,
) -> Option<Seq<Node>> {
    match (plan_time(plan, shapes, model), plan_time(fused_plan(plan), shapes, model)) {
        (Some(t), Some(fused)) => if fused.well_below(t, NOISE as nat) {
            Some(fused_plan(plan))
        } else {
            Some(plan)
        },
        _ => None,
    }
}

/// The plan that the model prefers for e-class `root`.
pub open spec fn extraction(p: Problem, root: int) -> Option<Seq<Node>> {
    match materialized(p, root) {
        Some(plan) => cheaper_form(
            plan,
            graph_inputs(p.graph, p.shapes, p.graph.len()),
            p.model,
        ),
        None => None,
    }
}

/// Picks the fused form of a plan if the model finds it cheaper, beyond noise, and else the plan
/// itself. Nothing where the plan or its fused form has no account that 64 bits hold.
pub fn decide_fusion(plan: Program, shapes: &Shapes, model: &CostModel) -> (form: Option<Program>)
    requires
        plan@.len() > 0,
    ensures
        match form {
            Some(f) => cheaper_form(plan@, dims(*shapes), *model) == Some(f@),
            None => cheaper_form(plan@, dims(*shapes), *model) is None,
        },
{
    let root: Id = plan.len() - 1;
    let mut fused = plan.clone();
    assert(Node::Fuse(root as int).operands_below(plan@.len() as int)) by {
        assert(Node::Fuse(root as int).children() =~= seq![root as int]);
    }
    let fused_root: Id = fused.add(TensorLang::Fuse(root));
    match (try_account(&plan, root, shapes), try_account(&fused, fused_root, shapes)) {
        (Some(account), Some(fused_account)) => {
            let (time, _, _) = model.cost(&Demand::from(&account));
            let (fused_time, _, _) = model.cost(&Demand::from(&fused_account));
            if fused_time.well_below(&time, NOISE) {
                Some(fused)
            } else {
                Some(plan)
            }
        },
        _ => None,
    }
}

/// Cost-model-driven extraction over a shaped e-graph, in two stages, because a fused node is in
/// the e-class of its operand:
///   1. the best materialized plan, which passes over fused nodes and never runs in a cycle;
///   2. the model decides whether to wrap that plan in one fused region.
///
/// A model that sees only flops finds no benefit in fusion and keeps the materialized plan; one
/// that also sees HBM traffic takes the fused plan where it is cheaper. An e-class without a finite
/// plan falls back on its first node. Nothing is extracted where that leads back to the e-class, or
/// where 64 bits do not hold the numbers.
pub fn extract_cost_driven(egraph: &EGraph, root: Id, model: &CostModel) -> (plan: Option<Program>)
    requires
        egraph.well_formed(),
        root < egraph.nodes@.len(),
    ensures
        match plan {
            Some(e) => extraction(problem(*egraph, *model), root as int) == Some(e@),
            None => extraction(problem(*egraph, *model), root as int) is None,
        },
{
    let mut notes = Notes { chosen: Vec::new(), failed: false };
    let mut id: usize = 0;
    while id < egraph.nodes.len()
        invariant
            id <= egraph.nodes@.len(),
            notes.chosen@.len() == id,
            !notes.failed,
            forall|k: int| 0 <= k < id ==> (#[trigger] notes.chosen@[k]) is None,
        decreases egraph.nodes@.len() - id,
    {
        notes.chosen.push(None);
        id = id + 1;
    }
    let ghost p = problem(*egraph, *model);
    assert(notes.memo().chosen =~= blank(p.graph.len()).chosen);
    let mut path: Vec<Id> = Vec::new();
    assert(path@.map_values(|k: Id| k as int) =~= seq![]);
    select_class(egraph, root, model, &mut notes, &mut path);
    if notes.failed {
        return None;
    }
    let mut plan = Program::new();
    match build_chosen(egraph, root, &notes, egraph.nodes.len(), &mut plan) {
        Some(_) => {
            let shapes = shapes_from_egraph(egraph);
            decide_fusion(plan, &shapes, model)
        },
        None => None,
    }
}

// ---- Choosing among given plans ----

/// One part in this many is taken for a tie between plans.
pub const TIE: u64 = 1000;

/// The time of candidate `i`.
pub open spec fn candidate_time(
    candidates: Seq<Seq<Node>>,
    shapes: Map<Seq<char>, Seq<usize>>,
    model: CostModel,
    i: int,
) -> Time {
    plan_time(candidates[i], shapes, model).unwrap()
}

/// Whether candidate `i` can run, and is within the tie margin of the least time: of that of every
/// candidate.
pub open spec fn nearly_cheapest(
    candidates: Seq<Seq<Node>>,
    shapes: Map<Seq<char>, Seq<usize>>,
    model: CostModel,
    i: int,
) -> bool {
    &&& 0 <= i < candidates.len()
    &&& candidate_time(candidates, shapes, model, i) is Finite
    &&& forall|j: int|
        0 <= j < candidates.len() ==> candidate_time(candidates, shapes, model, i).within(
            #[trigger] candidate_time(candidates, shapes, model, j),
            TIE as nat,
        )
}

/// Whether candidate `i` is the one to take: among those within the tie margin of the least time,
/// the first of those with the fewest nodes. Where none can run, it is the first of all.
pub open spec fn is_selected(
    candidates: Seq<Seq<Node>>,
    shapes: Map<Seq<char>, Seq<usize>>,
    model: CostModel,
    i: int,
) -> bool {
    if exists|j: int| #[trigger] nearly_cheapest(candidates, shapes, model, j) {
        &&& nearly_cheapest(candidates, shapes, model, i)
        &&& forall|j: int| #[trigger]
            nearly_cheapest(candidates, shapes, model, j) ==> candidates[i].len()
                < candidates[j].len() || candidates[i].len() == candidates[j].len() && i <= j
    } else {
        i == 0
    }
}

pub open spec fn program_views(candidates: Seq<Program>) -> Seq<Seq<Node>> {
    candidates.map_values(|c: Program| c@)
}

/// The times of all candidates.
fn candidate_times(candidates: &Vec<Program>, shapes: &Shapes, model: &CostModel) -> (times: Vec<
    Seconds,
>)
    requires
        forall|i: int|
            0 <= i < candidates@.len() ==> account_of(
                (#[trigger] candidates@[i])@,
                dims(*shapes),
                candidates@[i]@.len() - 1,
            ) is Some,
    ensures
        times@.len() == candidates@.len(),
        forall|i: int|
            0 <= i < times@.len() ==> (#[trigger] times@[i])@ == candidate_time(
                program_views(candidates@),
                dims(*shapes),
                *model,
                i,
            ) && times@[i]@.valid(),
{
    let ghost views = program_views(candidates@);
    let mut times: Vec<Seconds> = Vec::new();
    let mut i: usize = 0;
    while i < candidates.len()
        invariant
            i <= candidates@.len(),
            views == program_views(candidates@),
            forall|k: int|
                0 <= k < candidates@.len() ==> account_of(
                    (#[trigger] candidates@[k])@,
                    dims(*shapes),
                    candidates@[k]@.len() - 1,
                ) is Some,
            times@.len() == i,
            forall|k: int|
                0 <= k < i ==> (#[trigger] times@[k])@ == candidate_time(
                    views,
                    dims(*shapes),
                    *model,
                    k,
                ) && times@[k]@.valid(),
        decreases candidates@.len() - i,
    {
        let plan = &candidates[i];
        assert(views[i as int] == plan@);
        let account = account_expr(plan, shapes);
        let (time, _, _) = model.cost(&Demand::from(&account));
        times.push(time);
        i = i + 1;
    }
    times
}

/// The position of a least time.
fn least(times: &Vec<Seconds>) -> (at: usize)
    requires
        times@.len() > 0,
        forall|i: int| 0 <= i < times@.len() ==> (#[trigger] times@[i])@.valid(),
    ensures
        at < times@.len(),
        forall|i: int| 0 <= i < times@.len() ==> !(#[trigger] times@[i])@.less(times@[at as int]@),
{
    let mut at: usize = 0;
    let mut i: usize = 1;
    proof {
        let t = times@[0]@;
        time_order(t, t, t);
    }
    while i < times.len()
        invariant
            at < i <= times@.len(),
            forall|k: int| 0 <= k < times@.len() ==> (#[trigger] times@[k])@.valid(),
            forall|k: int| 0 <= k < i ==> !(#[trigger] times@[k])@.less(times@[at as int]@),
        decreases times@.len() - i,
    {
        if times[i].less(&times[at]) {
            proof {
                let (new, old) = (times@[i as int]@, times@[at as int]@);
                assert forall|k: int| 0 <= k < i + 1 implies !(#[trigger] times@[k])@.less(new) by {
                    time_order(times@[k]@, new, old);
                }
            }
            at = i;
        }
        i = i + 1;
    }
    at
}

/// The position of the cheapest candidate under `model`. On a near tie, within one part in a
/// thousand, the one with fewer nodes is taken.
pub fn select_plan(candidates: &Vec<Program>, shapes: &Shapes, model: &CostModel) -> (best: usize)
    requires
        forall|i: int|
            0 <= i < candidates@.len() ==> account_of(
                (#[trigger] candidates@[i])@,
                dims(*shapes),
                candidates@[i]@.len() - 1,
            ) is Some,
    ensures
        is_selected(program_views(candidates@), dims(*shapes), *model, best as int),
{
    let ghost views = program_views(candidates@);
    let ghost (d, m) = (dims(*shapes), *model);
    let times = candidate_times(candidates, shapes, model);
    if times.len() == 0 {
        return 0;
    }
    let low: usize = least(&times);
    let mut best: Option<usize> = None;
    let mut i: usize = 0;
    while i < candidates.len()
        invariant
            i <= candidates@.len(),
            times@.len() == candidates@.len(),
            views == program_views(candidates@),
            low < times@.len(),
            forall|k: int|
                0 <= k < times@.len() ==> (#[trigger] times@[k])@ == candidate_time(views, d, m, k)
                    && times@[k]@.valid(),
            forall|k: int|
                0 <= k < times@.len() ==> !(#[trigger] times@[k])@.less(times@[low as int]@),
            match best {
                Some(b) => {
                    &&& b < i
                    &&& nearly_cheapest(views, d, m, b as int)
                    &&& forall|j: int|
                        0 <= j < i && #[trigger] nearly_cheapest(views, d, m, j)
                            ==> views[b as int].len() < views[j].len() || views[b as int].len()
                            == views[j].len() && b <= j
                },
                None => forall|j: int| 0 <= j < i ==> !#[trigger] nearly_cheapest(views, d, m, j),
            },
        decreases candidates@.len() - i,
    {
        assert(views[i as int] == candidates@[i as int]@);
        assert(times@[low as int]@ == candidate_time(views, d, m, low as int));
        let near = times[i].within(&times[low], TIE);
        proof {
            let t = times@[i as int]@;
            if near {
                assert forall|j: int| 0 <= j < views.len() implies t.within(
                    #[trigger] candidate_time(views, d, m, j),
                    TIE as nat,
                ) by {
                    assert(times@[j]@ == candidate_time(views, d, m, j));
                    lemma_within_longer(t, times@[low as int]@, times@[j]@, TIE as nat);
                }
            }
            assert(t == candidate_time(views, d, m, i as int));
            assert(near == nearly_cheapest(views, d, m, i as int));
        }
        if near {
            let smaller = match best {
                Some(b) => {
                    assert(views[b as int] == candidates@[b as int]@);
                    candidates[i].len() < candidates[b].len()
                },
                None => true,
            };
            if smaller {
                best = Some(i);
            }
        }
        i = i + 1;
    }
    match best {
        Some(b) => b,
        None => 0,
    }
}

} // verus!
