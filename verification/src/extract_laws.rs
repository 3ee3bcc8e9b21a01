//! What extraction picks: every node is timed by what the accountant books for it, no node of an
//! e-class is left for a dearer one, and the plan is made of the nodes that were picked.
use crate::account::{account_of, tally};
use crate::account_laws::operators_book_their_work;
use crate::cost::{all_valid, cost_is_the_slowest_resource, slowest, CostModel, Demand};
use crate::egraph::{graph_closed, propagation_is_complete, shapes_of};
use crate::extract::{
    blank, built, built_operands, class_inputs, extraction, graph_inputs, lemma_path_fits,
    materialized, node_time, preferred, scanned, selection, summed, visited, Choice, Memo, Problem,
};
use crate::ir::{inferred_shape, lemma_numel_matrix, lemma_numel_one, numel, Node};
use crate::kernel_laws::softmax_axes_filled;
use crate::laws::{gives_times, lemma_scanned, lemma_summed, lemma_visited, memo_sound};
use crate::meaning::ranks;
use crate::saturate::symbolic;
use crate::seconds::Time;
use vstd::arithmetic::power::{lemma_pow_positive, pow};
use vstd::prelude::*;

verus! {

// ---- The time of a node ----

/// Whether node `at` of a program is the operator of `node` on operands of the same shapes, and of
/// the shape of e-class `id`.
pub open spec fn stands_for(
    p: Problem,
    id: int,
    node: Node,
    nodes: Seq<Node>,
    inputs: Map<Seq<char>, Seq<usize>>,
    at: int,
) -> bool {
    &&& 0 <= at < nodes.len()
    &&& symbolic(node).0 == symbolic(nodes[at]).0
    &&& node.children().len() == nodes[at].children().len()
    &&& inferred_shape(nodes, inputs, at) is Some
    &&& p.shapes[id] == inferred_shape(nodes, inputs, at)
    &&& forall|k: int|
        0 <= k < node.children().len() ==> p.shapes[#[trigger] node.children()[k]]
            == inferred_shape(nodes, inputs, nodes[at].children()[k])
}

/// The flops and the bytes that the accountant books for node `at` of a program beyond those of its
/// operands.
pub open spec fn booked(
    nodes: Seq<Node>,
    inputs: Map<Seq<char>, Seq<usize>>,
    at: int,
) -> (int, int) {
    let t = tally(nodes, inputs, at).unwrap();
    nodes[at].children().fold_left(
        (t.flops as int, t.hbm as int),
        |left: (int, int), c: int|
            (
                left.0 - tally(nodes, inputs, c).unwrap().flops,
                left.1 - tally(nodes, inputs, c).unwrap().hbm,
            ),
    )
}

proof fn lemma_fold_one<A, B>(a: A, start: B, f: spec_fn(B, A) -> B)
    ensures
        seq![a].fold_left(start, f) == f(start, a),
{
    assert(seq![a].drop_last() =~= Seq::<A>::empty());
    assert(seq![a].last() == a);
    reveal_with_fuel(Seq::fold_left, 2);
}

proof fn lemma_fold_two<A, B>(a: A, b: A, start: B, f: spec_fn(B, A) -> B)
    ensures
        seq![a, b].fold_left(start, f) == f(f(start, a), b),
{
    lemma_fold_one(a, start, f);
    assert(seq![a, b].drop_last() =~= seq![a]);
    assert(seq![a, b].last() == b);
}

/// A node of an e-class is timed by what the accountant books for its operator, on whatever program
/// has operands of these shapes: the flops and the bytes beyond those of the operands, with no
/// SRAM. Left out is an elementwise product whose left operand is empty.
pub proof fn nodes_are_timed_as_they_are_booked(
    p: Problem,
    id: int,
    node: Node,
    nodes: Seq<Node>,
    inputs: Map<Seq<char>, Seq<usize>>,
    at: int,
)
    requires
        stands_for(p, id, node, nodes, inputs, at),
        softmax_axes_filled(nodes, inputs),
        !(node is Fuse),
        node is Var <==> nodes[at] is Var,
        node matches Node::EMul(a, _) ==> (p.shapes[a] matches Some(s) && numel(s) != 0),
    ensures
        ({
            let (flops, bytes) = booked(nodes, inputs, at);
            &&& 0 <= flops && 0 <= bytes
            &&& flops < 0x1_0000_0000_0000_0000 && bytes < 0x1_0000_0000_0000_0000 ==> node_time(
                p,
                id,
                node,
            ) == Some(
                p.model.time(
                    Demand { flops: flops as u64, hbm_bytes: bytes as u64, sram_bytes: 0 },
                ),
            )
            &&& !(flops < 0x1_0000_0000_0000_0000 && bytes < 0x1_0000_0000_0000_0000) ==> node_time(
                p,
                id,
                node,
            ) is None
        }),
{
    operators_book_their_work(nodes, inputs, at);
    lemma_operator(node, nodes[at]);
    let own = nodes[at];
    let t = tally(nodes, inputs, at).unwrap();
    let start = (t.flops as int, t.hbm as int);
    let less = |left: (int, int), c: int|
        (
            left.0 - tally(nodes, inputs, c).unwrap().flops,
            left.1 - tally(nodes, inputs, c).unwrap().hbm,
        );
    match own {
        Node::Var(_) => {
            assert(own.children() =~= Seq::<int>::empty());
            assert(own.children().fold_left(start, less) == start);
        },
        Node::MatMul(a, b) => {
            assert(own.children() =~= seq![a, b]);
            lemma_fold_two(a, b, start, less);
            assert(node.children()[0] == node->MatMul_0 && node.children()[1] == node->MatMul_1);
            let (sa, sb) = (
                inferred_shape(nodes, inputs, a).unwrap(),
                inferred_shape(nodes, inputs, b).unwrap(),
            );
            lemma_numel_matrix(sa[0], sb[1]);
        },
        Node::EMul(a, b) => {
            assert(own.children() =~= seq![a, b]);
            lemma_fold_two(a, b, start, less);
            assert(node.children()[0] == node->EMul_0 && node.children()[1] == node->EMul_1);
            lemma_numel_one(seq![1usize]);
        },
        Node::Transpose(a) => {
            assert(own.children() =~= seq![a]);
            lemma_fold_one(a, start, less);
            assert(node.children()[0] == node->Transpose_0);
            let sa = inferred_shape(nodes, inputs, a).unwrap();
            lemma_numel_matrix(sa[1], sa[0]);
        },
        Node::Softmax(a) => {
            assert(own.children() =~= seq![a]);
            lemma_fold_one(a, start, less);
            assert(node.children()[0] == node->Softmax_0);
        },
        Node::Relu(a) => {
            assert(own.children() =~= seq![a]);
            lemma_fold_one(a, start, less);
            assert(node.children()[0] == node->Relu_0);
        },
        Node::Fuse(_) => {},
    }
}

/// Two operators of one name are the same operator.
proof fn lemma_operator(a: Node, b: Node)
    requires
        symbolic(a).0 == symbolic(b).0,
        a.children().len() == b.children().len(),
        a is Var <==> b is Var,
    ensures
        a is MatMul <==> b is MatMul,
        a is EMul <==> b is EMul,
        a is Transpose <==> b is Transpose,
        a is Softmax <==> b is Softmax,
        a is Relu <==> b is Relu,
        a is Fuse <==> b is Fuse,
{
    reveal_strlit("matmul");
    reveal_strlit("transpose");
    reveal_strlit("emul");
    reveal_strlit("softmax");
    reveal_strlit("relu");
    reveal_strlit("fuse");
    assert("matmul"@.len() == 6 && "emul"@.len() == 4);
    assert("transpose"@.len() == 9 && "softmax"@.len() == 7);
    assert("relu"@.len() == 4 && "fuse"@.len() == 4);
    assert("relu"@[0] != "fuse"@[0]);
    assert("emul"@[0] != "relu"@[0] && "emul"@[0] != "fuse"@[0]);
}

// ---- Sums of times ----

/// One time after another is their sum, as a fraction.
pub proof fn times_add_up(s: Time, t: Time)
    requires
        s.valid(),
        t.valid(),
    ensures
        s.plus(t).valid(),
        s is Infinite || t is Infinite ==> s.plus(t) is Infinite,
        match (s, t, s.plus(t)) {
            (
                Time::Finite { num: a, den: b },
                Time::Finite { num: c, den: d },
                Time::Finite { num: x, den: y },
            ) => x * (b * d) == (a * d + c * b) * y,
            (Time::Finite { .. }, Time::Finite { .. }, Time::Infinite) => false,
            _ => true,
        },
{
    if let (Time::Finite { num: a, den: b }, Time::Finite { num: c, den: d }) = (s, t) {
        assert(b > 0 && d > 0 ==> b * d > 0) by (nonlinear_arith);
        assert(b == d ==> (a + c) * (b * d) == (a * d + c * b) * b) by (nonlinear_arith);
    }
}

// ---- Choices ----

/// The time of node `i` of e-class `id` with everything below it, by the choices that were made;
/// nothing where an operand has no finite plan.
pub open spec fn whole_time(
    p: Problem,
    chosen: Seq<Option<Choice>>,
    id: int,
    i: int,
) -> Option<Time> {
    p.graph[id][i].children().fold_left(
        node_time(p, id, p.graph[id][i]),
        |sum: Option<Time>, c: int|
            match (sum, chosen[c]) {
                (Some(s), Some(choice)) => if choice.cost is Finite {
                    Some(s.plus(choice.cost))
                } else {
                    None
                },
                _ => None,
            },
    )
}

/// The number of nodes of node `i` of e-class `id` with everything below it.
pub open spec fn whole_count(p: Problem, chosen: Seq<Option<Choice>>, id: int, i: int) -> nat {
    p.graph[id][i].children().fold_left(1nat, |sum: nat, c: int| sum + chosen[c].unwrap().count)
}

/// Whether `a` is longer than `b` by no more than a billionth part, `n` times over.
pub open spec fn nearly(a: Time, b: Time, n: nat) -> bool {
    match (a, b) {
        (Time::Finite { num: x, den: y }, Time::Finite { num: u, den: v }) => (x * v) * pow(
            999_999_999,
            n,
        ) <= (u * y) * pow(1_000_000_000, n),
        _ => false,
    }
}

proof fn lemma_pows(n: nat)
    ensures
        pow(999_999_999, n) > 0,
        pow(1_000_000_000, n) > 0,
        pow(999_999_999, n) <= pow(1_000_000_000, n),
        pow(999_999_999, n + 1) == 999_999_999 * pow(999_999_999, n),
        pow(1_000_000_000, n + 1) == 1_000_000_000 * pow(1_000_000_000, n),
        pow(999_999_999, 0) == 1,
        pow(1_000_000_000, 0) == 1,
    decreases n,
{
    reveal(pow);
    lemma_pow_positive(999_999_999, n);
    lemma_pow_positive(1_000_000_000, n);
    if n > 0 {
        lemma_pows((n - 1) as nat);
    }
}

proof fn lemma_nearly_self(a: Time, n: nat)
    requires
        a is Finite,
    ensures
        nearly(a, a, n),
{
    lemma_pows(n);
    if let Time::Finite { num: x, den: y } = a {
        let (z, p, q) = ((x * y) as int, pow(999_999_999, n), pow(1_000_000_000, n));
        assert(z * p <= z * q) by (nonlinear_arith)
            requires
                z >= 0,
                p <= q,
        ;
    }
}

proof fn lemma_nearly_more(a: Time, b: Time, n: nat)
    requires
        nearly(a, b, n),
    ensures
        nearly(a, b, n + 1),
{
    lemma_pows(n);
    if let (Time::Finite { num: x, den: y }, Time::Finite { num: u, den: v }) = (a, b) {
        let (s, t, p, q) = (
            (x * v) as int,
            (u * y) as int,
            pow(999_999_999, n),
            pow(1_000_000_000, n),
        );
        assert(s * (999_999_999 * p) <= t * (1_000_000_000 * q)) by (nonlinear_arith)
            requires
                s * p <= t * q,
                s >= 0,
                t >= 0,
                p > 0,
                q > 0,
        ;
    }
}

/// `c <= b r` and `b <= t s` give `c <= t r s`.
proof fn lemma_chain(
    cn: int,
    cd: int,
    bn: int,
    bd: int,
    tn: int,
    td: int,
    p: int,
    q: int,
    r: int,
    s: int,
)
    requires
        0 <= cn && 0 < cd && 0 <= bn && 0 < bd && 0 <= tn && 0 < td,
        0 < p && 0 < q && 0 < r && 0 < s,
        (cn * bd) * p <= (bn * cd) * q,
        (bn * td) * r <= (tn * bd) * s,
    ensures
        (cn * td) * (p * r) <= (tn * cd) * (q * s),
{
    assert(((cn * bd) * p) * (td * r) <= ((bn * cd) * q) * (td * r)) by (nonlinear_arith)
        requires
            (cn * bd) * p <= (bn * cd) * q,
            0 < td,
            0 < r,
    ;
    assert(((bn * td) * r) * (cd * q) <= ((tn * bd) * s) * (cd * q)) by (nonlinear_arith)
        requires
            (bn * td) * r <= (tn * bd) * s,
            0 < cd,
            0 < q,
    ;
    assert(((bn * cd) * q) * (td * r) == ((bn * td) * r) * (cd * q)) by (nonlinear_arith);
    let (x, y) = ((cn * td) * (p * r), (tn * cd) * (q * s));
    assert(((cn * bd) * p) * (td * r) == x * bd) by (nonlinear_arith)
        requires
            x == (cn * td) * (p * r),
    ;
    assert(((tn * bd) * s) * (cd * q) == y * bd) by (nonlinear_arith)
        requires
            y == (tn * cd) * (q * s),
    ;
    assert(x <= y) by (nonlinear_arith)
        requires
            x * bd <= y * bd,
            0 < bd,
    ;
}

/// What is preferred to the best so far is nearly as short as what the best was nearly as short as.
proof fn lemma_preferred(c: Time, count: nat, best: Choice, t: Time, n: nat)
    requires
        preferred(c, count, best, 1_000_000_000),
        best.cost is Finite,
        nearly(best.cost, t, n),
        c.valid(),
        best.cost.valid(),
        t.valid(),
    ensures
        nearly(c, t, n + 1),
{
    lemma_pows(n);
    if let (
        Time::Finite { num: cn, den: cd },
        Time::Finite { num: bn, den: bd },
        Time::Finite { num: tn, den: td },
    ) = (c, best.cost, t) {
        let (mine, theirs) = ((cn * bd) as int, (bn * cd) as int);
        assert(mine * 999_999_999 <= theirs * 1_000_000_000) by (nonlinear_arith)
            requires
                mine >= 0,
                theirs >= 0,
                mine * 1_000_000_000 < theirs * 999_999_999 || mine * 1_000_000_000 <= theirs
                    * 1_000_000_001,
        ;
        lemma_chain(
            cn as int,
            cd as int,
            bn as int,
            bd as int,
            tn as int,
            td as int,
            999_999_999,
            1_000_000_000,
            pow(999_999_999, n),
            pow(1_000_000_000, n),
        );
    }
}

/// What is not preferred to the best so far is at most nearly as short.
proof fn lemma_not_preferred(c: Time, count: nat, best: Choice, n: nat)
    requires
        !preferred(c, count, best, 1_000_000_000),
        c is Finite,
    ensures
        nearly(best.cost, c, n + 1),
    decreases n,
{
    lemma_pows(0);
    if n > 0 {
        lemma_not_preferred(c, count, best, (n - 1) as nat);
        lemma_nearly_more(best.cost, c, n);
    }
}

/// Whether the choices settle what node `i` of e-class `id` costs: its operands are chosen, up to
/// one that has no finite plan, if there is one.
spec fn decided(p: Problem, chosen: Seq<Option<Choice>>, id: int, i: int) -> bool {
    let kids = p.graph[id][i].children();
    ||| forall|k: int| 0 <= k < kids.len() ==> chosen[#[trigger] kids[k]] is Some
    ||| exists|k: int|
        0 <= k < kids.len() && (chosen[#[trigger] kids[k]] matches Some(c) && !(c.cost is Finite))
}

/// The running sum of the first `count` operands.
spec fn partial(
    chosen: Seq<Option<Choice>>,
    kids: Seq<int>,
    count: nat,
    t: Option<Time>,
) -> Option<Time> {
    kids.take(count as int).fold_left(
        t,
        |sum: Option<Time>, c: int|
            match (sum, chosen[c]) {
                (Some(s), Some(choice)) => if choice.cost is Finite {
                    Some(s.plus(choice.cost))
                } else {
                    None
                },
                _ => None,
            },
    )
}

spec fn partial_count(chosen: Seq<Option<Choice>>, kids: Seq<int>, count: nat) -> nat {
    kids.take(count as int).fold_left(1nat, |sum: nat, c: int| sum + chosen[c].unwrap().count)
}

proof fn lemma_partial_step(
    chosen: Seq<Option<Choice>>,
    kids: Seq<int>,
    count: nat,
    t: Option<Time>,
)
    requires
        0 < count <= kids.len(),
    ensures
        partial(chosen, kids, count, t) == (match (
            partial(chosen, kids, (count - 1) as nat, t),
            chosen[kids[count - 1]],
        ) {
            (Some(s), Some(choice)) => if choice.cost is Finite {
                Some(s.plus(choice.cost))
            } else {
                None
            },
            _ => None,
        }),
        partial_count(chosen, kids, count) == partial_count(chosen, kids, (count - 1) as nat)
            + chosen[kids[count - 1]].unwrap().count,
{
    assert(kids.take(count as int).drop_last() =~= kids.take(count - 1));
    assert(kids.take(count as int).last() == kids[count - 1]);
}

/// A sum is nothing from an operand without a finite plan on.
proof fn lemma_partial_none(
    chosen: Seq<Option<Choice>>,
    kids: Seq<int>,
    k: int,
    count: nat,
    t: Option<Time>,
)
    requires
        0 <= k < count <= kids.len(),
        !(chosen[kids[k]] matches Some(c) && c.cost is Finite),
    ensures
        partial(chosen, kids, count, t) is None,
    decreases count,
{
    lemma_partial_step(chosen, kids, count, t);
    if k < count - 1 {
        lemma_partial_none(chosen, kids, k, (count - 1) as nat, t);
    }
}

/// Sums over operands that are chosen do not change when more is chosen.
proof fn lemma_partial_same(
    chosen: Seq<Option<Choice>>,
    later: Seq<Option<Choice>>,
    kids: Seq<int>,
    count: nat,
    t: Option<Time>,
)
    requires
        count <= kids.len(),
        forall|k: int| 0 <= k < count ==> chosen[#[trigger] kids[k]] == later[kids[k]],
    ensures
        partial(chosen, kids, count, t) == partial(later, kids, count, t),
        partial_count(chosen, kids, count) == partial_count(later, kids, count),
    decreases count,
{
    if count > 0 {
        lemma_partial_same(chosen, later, kids, (count - 1) as nat, t);
        lemma_partial_step(chosen, kids, count, t);
        lemma_partial_step(later, kids, count, t);
        assert(chosen[kids[count - 1]] == later[kids[count - 1]]);
    } else {
        assert(kids.take(0) =~= Seq::<int>::empty());
    }
}

/// Whether `later` keeps what `chosen` has.
spec fn keeps_choices(chosen: Seq<Option<Choice>>, later: Seq<Option<Choice>>) -> bool {
    &&& chosen.len() == later.len()
    &&& forall|q: int|
        0 <= q < chosen.len() && chosen[q] is Some ==> #[trigger] later[q] == chosen[q]
}

/// What is decided stays as it is.
proof fn lemma_decided_stays(
    p: Problem,
    chosen: Seq<Option<Choice>>,
    later: Seq<Option<Choice>>,
    id: int,
    i: int,
)
    requires
        graph_closed(p.graph),
        chosen.len() == p.graph.len(),
        keeps_choices(chosen, later),
        0 <= id < p.graph.len(),
        0 <= i < p.graph[id].len(),
        decided(p, chosen, id, i),
    ensures
        decided(p, later, id, i),
        whole_time(p, later, id, i) == whole_time(p, chosen, id, i),
        whole_time(p, chosen, id, i) is Some ==> whole_count(p, later, id, i) == whole_count(
            p,
            chosen,
            id,
            i,
        ),
{
    let node = p.graph[id][i];
    assert(node.operands_below(p.graph.len() as int));
    let kids = node.children();
    let t = node_time(p, id, node);
    assert(kids.take(kids.len() as int) =~= kids);
    if forall|k: int| 0 <= k < kids.len() ==> chosen[#[trigger] kids[k]] is Some {
        assert forall|k: int| 0 <= k < kids.len() implies chosen[#[trigger] kids[k]]
            == later[kids[k]] by {
            let q = kids[k];
            assert(chosen[q] is Some);
            assert(later[q] == chosen[q]);
        }
        lemma_partial_same(chosen, later, kids, kids.len(), t);
    } else {
        let k = choose|k: int|
            0 <= k < kids.len() && (chosen[#[trigger] kids[k]] matches Some(c) && !(
            c.cost is Finite));
        let q = kids[k];
        assert(later[q] == chosen[q]);
        lemma_partial_none(chosen, kids, k, kids.len(), t);
        lemma_partial_none(later, kids, k, kids.len(), t);
    }
}

/// Whether all nodes among the first `count` of an e-class that can be chosen take equally long.
pub open spec fn all_tie(p: Problem, chosen: Seq<Option<Choice>>, id: int, count: int) -> bool {
    forall|i: int, j: int|
        0 <= i < count && 0 <= j < count && !(p.graph[id][i] is Fuse) && !(p.graph[id][j] is Fuse)
            ==> match (
            #[trigger] whole_time(p, chosen, id, i),
            #[trigger] whole_time(p, chosen, id, j),
        ) {
            (Some(s), Some(t)) => s is Finite && t is Finite ==> !s.less(t) && !t.less(s),
            _ => true,
        }
}

/// Whether `best` is what is to be chosen among the first `count` nodes of an e-class.
spec fn best_among(
    p: Problem,
    chosen: Seq<Option<Choice>>,
    id: int,
    best: Choice,
    count: nat,
) -> bool {
    &&& best.cost.valid()
    &&& forall|i: int|
        0 <= i < count && !(p.graph[id][i] is Fuse) ==> decided(p, chosen, id, i) && (
        #[trigger] whole_time(p, chosen, id, i) matches Some(t) ==> t.valid() && (t is Finite
            ==> best.cost is Finite && nearly(best.cost, t, count)))
    &&& best.cost is Finite ==> best.pick < count && !(p.graph[id][best.pick as int] is Fuse)
        && whole_time(p, chosen, id, best.pick as int) == Some(best.cost) && best.count
        == whole_count(p, chosen, id, best.pick as int)
    &&& all_tie(p, chosen, id, count as int) ==> forall|i: int|
        0 <= i < count && !(p.graph[id][i] is Fuse) && (#[trigger] whole_time(p, chosen, id, i)
            matches Some(t) && t is Finite) ==> best.count <= whole_count(p, chosen, id, i)
}

proof fn lemma_best_stays(
    p: Problem,
    chosen: Seq<Option<Choice>>,
    later: Seq<Option<Choice>>,
    id: int,
    best: Choice,
    count: nat,
)
    requires
        graph_closed(p.graph),
        chosen.len() == p.graph.len(),
        keeps_choices(chosen, later),
        0 <= id < p.graph.len(),
        count <= p.graph[id].len(),
        best_among(p, chosen, id, best, count),
    ensures
        best_among(p, later, id, best, count),
{
    assert forall|i: int| 0 <= i < count && !(p.graph[id][i] is Fuse) implies decided(
        p,
        later,
        id,
        i,
    ) && #[trigger] whole_time(p, later, id, i) == whole_time(p, chosen, id, i) && (whole_time(
        p,
        chosen,
        id,
        i,
    ) is Some ==> whole_count(p, later, id, i) == whole_count(p, chosen, id, i)) by {
        assert(decided(p, chosen, id, i)) by {
            let w = whole_time(p, chosen, id, i);
        }
        lemma_decided_stays(p, chosen, later, id, i);
    }
    if all_tie(p, later, id, count as int) {
        assert(all_tie(p, chosen, id, count as int)) by {
            assert forall|i: int, j: int|
                0 <= i < count && 0 <= j < count && !(p.graph[id][i] is Fuse) && !(
                p.graph[id][j] is Fuse) implies match (
                #[trigger] whole_time(p, chosen, id, i),
                #[trigger] whole_time(p, chosen, id, j),
            ) {
                (Some(s), Some(t)) => s is Finite && t is Finite ==> !s.less(t) && !t.less(s),
                _ => true,
            } by {
                assert(whole_time(p, later, id, i) == whole_time(p, chosen, id, i));
                assert(whole_time(p, later, id, j) == whole_time(p, chosen, id, j));
            }
        }
    }
}

/// Whether every choice that was made is the right one, unless some number did not fit.
spec fn rightly_chosen(p: Problem, memo: Memo) -> bool {
    &&& memo.chosen.len() == p.graph.len()
    &&& memo.failed || forall|id: int|
        0 <= id < p.graph.len() && #[trigger] memo.chosen[id] is Some ==> best_among(
            p,
            memo.chosen,
            id,
            memo.chosen[id].unwrap(),
            p.graph[id].len(),
        )
}

proof fn lemma_rightly_later(p: Problem, memo: Memo, later: Memo, id: int)
    requires
        graph_closed(p.graph),
        rightly_chosen(p, memo),
        !memo.failed,
        !later.failed,
        keeps_choices(memo.chosen, later.chosen),
        0 <= id < p.graph.len(),
        forall|q: int|
            0 <= q < p.graph.len() && q != id ==> #[trigger] later.chosen[q] == memo.chosen[q],
        later.chosen[id] matches Some(best) ==> best_among(
            p,
            later.chosen,
            id,
            best,
            p.graph[id].len(),
        ),
    ensures
        rightly_chosen(p, later),
{
    assert forall|q: int| 0 <= q < p.graph.len() && #[trigger] later.chosen[q] is Some implies
        best_among(p, later.chosen, q, later.chosen[q].unwrap(), p.graph[q].len()) by {
        if q != id {
            assert(memo.chosen[q] is Some);
            lemma_best_stays(
                p,
                memo.chosen,
                later.chosen,
                q,
                memo.chosen[q].unwrap(),
                p.graph[q].len(),
            );
        }
    }
}

/// Whether the ranks fall along the path, which stays on the e-graph.
spec fn descends(p: Problem, rank: spec_fn(int) -> int, path: Seq<int>) -> bool {
    &&& forall|i: int| 0 <= i < path.len() ==> 0 <= #[trigger] path[i] < p.graph.len()
    &&& forall|i: int, j: int|
        0 <= i < j < path.len() ==> rank(#[trigger] path[i]) > rank(#[trigger] path[j])
}

/// Whether e-class `id` ranks below all e-classes on the path.
spec fn ranks_below(rank: spec_fn(int) -> int, path: Seq<int>, id: int) -> bool {
    forall|i: int| 0 <= i < path.len() ==> rank(#[trigger] path[i]) > rank(id)
}

spec fn choosable(p: Problem, rank: spec_fn(int) -> int) -> bool {
    &&& graph_closed(p.graph)
    &&& ranks(p.graph, rank)
    &&& gives_times(p.model)
}

proof fn lemma_path_below(p: Problem, rank: spec_fn(int) -> int, path: Seq<int>, id: int)
    requires
        descends(p, rank, path),
        ranks_below(rank, path, id),
        0 <= id < p.graph.len(),
    ensures
        !path.contains(id),
        descends(p, rank, path.push(id)),
        path.len() < p.graph.len(),
{
    let inner = path.push(id);
    if path.contains(id) {
        let i = choose|i: int| 0 <= i < path.len() && path[i] == id;
        assert(rank(path[i]) > rank(id));
    }
    assert forall|i: int, j: int| 0 <= i < j < inner.len() implies rank(#[trigger] inner[i]) > rank(
        #[trigger] inner[j],
    ) by {
        assert(inner[i] == path[i]);
        if j < path.len() {
            assert(inner[j] == path[j]);
        }
    }
    assert forall|i: int| 0 <= i < inner.len() implies 0 <= #[trigger] inner[i] < p.graph.len() by {
        if i < path.len() {
            assert(inner[i] == path[i]);
        }
    }
    assert(inner.no_duplicates()) by {
        assert forall|i: int, j: int|
            0 <= i < inner.len() && 0 <= j < inner.len() && i != j implies inner[i]
            != inner[j] by {
            if i < j {
                assert(rank(inner[i]) > rank(inner[j]));
            } else {
                assert(rank(inner[j]) > rank(inner[i]));
            }
        }
    }
    lemma_path_fits(inner, p.graph.len() as int);
}

proof fn lemma_visited_rightly(
    p: Problem,
    id: int,
    memo: Memo,
    path: Seq<int>,
    rank: spec_fn(int) -> int,
)
    requires
        choosable(p, rank),
        memo_sound(p.graph, memo),
        rightly_chosen(p, memo),
        descends(p, rank, path),
        ranks_below(rank, path, id),
        0 <= id < p.graph.len(),
    ensures
        rightly_chosen(p, visited(p, id, memo, path)),
        visited(p, id, memo, path).chosen[id] is Some,
    decreases p.graph.len() - path.len(), 0nat, 0nat,
{
    lemma_path_below(p, rank, path, id);
    lemma_visited(p, id, memo, path);
    if memo.chosen[id] is None {
        let inner = path.push(id);
        let count = p.graph[id].len();
        lemma_scanned(p, id, count, memo, inner);
        lemma_scanned_rightly(p, id, count, memo, inner, rank);
        let (after, best) = scanned(p, id, count, memo, inner);
        let noted = visited(p, id, memo, path);
        assert(inner[path.len() as int] == id);
        assert(after.chosen[id] is None);
        if !noted.failed {
            assert(keeps_choices(after.chosen, noted.chosen));
            lemma_best_stays(p, after.chosen, noted.chosen, id, best, count);
            lemma_rightly_later(p, after, noted, id);
        }
    }
}

proof fn lemma_scanned_rightly(
    p: Problem,
    id: int,
    count: nat,
    memo: Memo,
    path: Seq<int>,
    rank: spec_fn(int) -> int,
)
    requires
        choosable(p, rank),
        memo_sound(p.graph, memo),
        rightly_chosen(p, memo),
        descends(p, rank, path),
        path.len() > 0,
        path.last() == id,
        0 <= id < p.graph.len(),
        count <= p.graph[id].len(),
    ensures
        ({
            let (after, best) = scanned(p, id, count, memo, path);
            &&& rightly_chosen(p, after)
            &&& !after.failed ==> best_among(p, after.chosen, id, best, count)
        }),
    decreases p.graph.len() - path.len(), 2nat, count,
{
    if count > 0 {
        let k = (count - 1) as nat;
        lemma_scanned(p, id, k, memo, path);
        lemma_scanned_rightly(p, id, k, memo, path, rank);
        let (m, best) = scanned(p, id, k, memo, path);
        let node = p.graph[id][k as int];
        if node is Fuse {
            if !m.failed {
                lemma_one_more_node(p, m.chosen, id, best, k);
            }
        } else {
            if let Some(t) = node_time(p, id, node) {
                let kids = node.children();
                assert(node.operands_below(p.graph.len() as int));
                assert forall|c: int| 0 <= c < kids.len() implies 0 <= #[trigger] kids[c]
                    < p.graph.len() && ranks_below(rank, path, kids[c]) by {
                    let q = p.graph[id][k as int].children()[c];
                    assert(rank(q) < rank(id));
                    assert forall|i: int| 0 <= i < path.len() implies rank(#[trigger] path[i])
                        > rank(q) by {
                        let end = path[path.len() - 1];
                        if i < path.len() - 1 {
                            assert(rank(path[i]) > rank(end));
                        }
                    }
                }
                lemma_node_times_valid(p, id, node);
                lemma_summed(p, kids, kids.len(), m, t, path);
                lemma_summed_rightly(p, kids, kids.len(), m, t, path, rank);
                let (after, total) = summed(p, kids, kids.len(), m, t, path);
                if !after.failed {
                    assert(keeps_choices(m.chosen, after.chosen));
                    lemma_best_stays(p, m.chosen, after.chosen, id, best, k);
                    assert(kids.take(kids.len() as int) =~= kids);
                    assert(decided(p, after.chosen, id, k as int));
                    match total {
                        Some((cost, n)) => {
                            assert(whole_time(p, after.chosen, id, k as int) == Some(cost));
                            assert(whole_count(p, after.chosen, id, k as int) == n);
                            if cost is Finite {
                                lemma_candidate(p, after.chosen, id, best, k, cost, n);
                            } else {
                                lemma_one_more_node(p, after.chosen, id, best, k);
                            }
                        },
                        None => {
                            assert(whole_time(p, after.chosen, id, k as int) is None);
                            lemma_one_more_node(p, after.chosen, id, best, k);
                        },
                    }
                }
            }
        }
    }
}

/// A node that cannot be chosen changes nothing.
proof fn lemma_one_more_node(
    p: Problem,
    chosen: Seq<Option<Choice>>,
    id: int,
    best: Choice,
    k: nat,
)
    requires
        best_among(p, chosen, id, best, k),
        k < p.graph[id].len(),
        p.graph[id][k as int] is Fuse || (decided(p, chosen, id, k as int) && !(whole_time(
            p,
            chosen,
            id,
            k as int,
        ) matches Some(t) && t is Finite)),
    ensures
        best_among(p, chosen, id, best, k + 1),
{
    assert forall|i: int| 0 <= i < k + 1 && !(p.graph[id][i] is Fuse) implies decided(
        p,
        chosen,
        id,
        i,
    ) && (#[trigger] whole_time(p, chosen, id, i) matches Some(t) ==> t.valid() && (t is Finite
        ==> best.cost is Finite && nearly(best.cost, t, k + 1))) by {
        if i < k {
            if let Some(t) = whole_time(p, chosen, id, i) {
                if t is Finite {
                    lemma_nearly_more(best.cost, t, k);
                }
            }
        }
    }
    if all_tie(p, chosen, id, k as int + 1) {
        assert(all_tie(p, chosen, id, k as int));
    }
}

/// A node that can be chosen is, if it is preferred.
proof fn lemma_candidate(
    p: Problem,
    chosen: Seq<Option<Choice>>,
    id: int,
    best: Choice,
    k: nat,
    cost: Time,
    n: nat,
)
    requires
        best_among(p, chosen, id, best, k),
        k < p.graph[id].len(),
        !(p.graph[id][k as int] is Fuse),
        decided(p, chosen, id, k as int),
        whole_time(p, chosen, id, k as int) == Some(cost),
        whole_count(p, chosen, id, k as int) == n,
        cost.valid(),
        cost is Finite,
    ensures
        best_among(
            p,
            chosen,
            id,
            if preferred(cost, n, best, 1_000_000_000) {
                Choice { cost, count: n, pick: k }
            } else {
                best
            },
            k + 1,
        ),
{
    let after = if preferred(cost, n, best, 1_000_000_000) {
        Choice { cost, count: n, pick: k }
    } else {
        best
    };
    assert forall|i: int| 0 <= i < k + 1 && !(p.graph[id][i] is Fuse) implies decided(
        p,
        chosen,
        id,
        i,
    ) && (#[trigger] whole_time(p, chosen, id, i) matches Some(t) ==> t.valid() && (t is Finite
        ==> after.cost is Finite && nearly(after.cost, t, k + 1))) by {
        let whole = whole_time(p, chosen, id, i);
        if whole is Some && whole.unwrap() is Finite {
            let t = whole.unwrap();
            if preferred(cost, n, best, 1_000_000_000) {
                if i == k {
                    lemma_nearly_self(cost, k + 1);
                } else {
                    lemma_preferred(cost, n, best, t, k);
                }
            } else {
                if i == k {
                    lemma_not_preferred(cost, n, best, k);
                } else {
                    lemma_nearly_more(best.cost, t, k);
                }
            }
        }
    }
    if all_tie(p, chosen, id, k as int + 1) {
        assert(all_tie(p, chosen, id, k as int));
        assert forall|i: int|
            0 <= i < k + 1 && !(p.graph[id][i] is Fuse) && (#[trigger] whole_time(p, chosen, id, i)
                matches Some(t) && t is Finite) implies after.count <= whole_count(
            p,
            chosen,
            id,
            i,
        ) by {
            if best.cost is Finite {
                let pick = best.pick as int;
                assert(whole_time(p, chosen, id, pick) == Some(best.cost));
                assert(whole_time(p, chosen, id, k as int) == Some(cost));
                lemma_equal_times(cost, best.cost);
            } else {
                if i < k {
                    assert(whole_time(p, chosen, id, i) is Some);
                }
            }
        }
    }
}

/// Times that take equally long are near each other, and neither is well below the other.
proof fn lemma_equal_times(a: Time, b: Time)
    requires
        a is Finite,
        b is Finite,
        !a.less(b),
        !b.less(a),
    ensures
        a.near(b, 1_000_000_000),
        !a.well_below(b, 1_000_000_000),
{
    if let (Time::Finite { num: x, den: y }, Time::Finite { num: u, den: v }) = (a, b) {
        let (s, t) = ((x * v) as int, (u * y) as int);
        assert(s == t);
        assert(t * 999_999_999 <= s * 1_000_000_000 <= t * 1_000_000_001 && !(s * 1_000_000_000 < t
            * 999_999_999)) by (nonlinear_arith)
            requires
                s == t,
                s >= 0,
        ;
    }
}

/// The time of a node is a time.
proof fn lemma_node_times_valid(p: Problem, id: int, node: Node)
    requires
        gives_times(p.model),
    ensures
        node_time(p, id, node) matches Some(t) ==> t.valid(),
{
    if let Some(t) = node_time(p, id, node) {
        lemma_model_times_valid(p.model);
    }
}

proof fn lemma_model_times_valid(model: CostModel)
    requires
        gives_times(model),
    ensures
        forall|demand: Demand| (#[trigger] model.time(demand)).valid(),
{
    assert forall|demand: Demand| (#[trigger] model.time(demand)).valid() by {
        let lines = model.bounds(demand);
        assert(all_valid(lines));
        if lines.len() > 0 {
            cost_is_the_slowest_resource(lines);
            let k = choose|k: int| 0 <= k < lines.len() && lines[k] == slowest(lines);
            assert(lines[k].1.valid());
        }
    }
}

proof fn lemma_summed_rightly(
    p: Problem,
    operands: Seq<int>,
    count: nat,
    memo: Memo,
    t: Time,
    path: Seq<int>,
    rank: spec_fn(int) -> int,
)
    requires
        choosable(p, rank),
        memo_sound(p.graph, memo),
        rightly_chosen(p, memo),
        descends(p, rank, path),
        count <= operands.len(),
        forall|k: int|
            0 <= k < operands.len() ==> 0 <= #[trigger] operands[k] < p.graph.len() && ranks_below(
                rank,
                path,
                operands[k],
            ),
        t.valid(),
    ensures
        ({
            let (after, total) = summed(p, operands, count, memo, t, path);
            &&& rightly_chosen(p, after)
            &&& !after.failed ==> match total {
                Some((cost, n)) => {
                    &&& cost.valid()
                    &&& t is Finite ==> cost is Finite
                    &&& partial(after.chosen, operands, count, Some(t)) == Some(cost)
                    &&& partial_count(after.chosen, operands, count) == n
                    &&& forall|k: int|
                        0 <= k < count ==> after.chosen[#[trigger] operands[k]] is Some
                },
                None => {
                    &&& partial(after.chosen, operands, count, Some(t)) is None
                    &&& exists|k: int|
                        0 <= k < count && (after.chosen[#[trigger] operands[k]] matches Some(c)
                            && !(c.cost is Finite))
                },
            }
        }),
    decreases p.graph.len() - path.len(), 1nat, count,
{
    if count == 0 {
        assert(operands.take(0) =~= Seq::<int>::empty());
    } else {
        let k = (count - 1) as nat;
        lemma_summed(p, operands, k, memo, t, path);
        lemma_summed_rightly(p, operands, k, memo, t, path, rank);
        let (m, total) = summed(p, operands, k, memo, t, path);
        if let Some((sum, n)) = total {
            let c = operands[k as int];
            lemma_visited(p, c, m, path);
            lemma_visited_rightly(p, c, m, path, rank);
            let after = visited(p, c, m, path);
            if !after.failed {
                lemma_choice_valid(p, after, c);
                times_add_up(sum, after.chosen[c].unwrap().cost);
                lemma_next_operand(m.chosen, after.chosen, operands, k, t, sum, n);
            }
        } else if !m.failed {
            lemma_partial_step(m.chosen, operands, count, Some(t));
            let j = choose|j: int|
                0 <= j < k && (m.chosen[#[trigger] operands[j]] matches Some(c) && !(
                c.cost is Finite));
            assert(m.chosen[operands[j]] is Some);
        }
    }
}

proof fn lemma_choice_valid(p: Problem, memo: Memo, id: int)
    requires
        rightly_chosen(p, memo),
        !memo.failed,
        0 <= id < p.graph.len(),
        memo.chosen[id] is Some,
    ensures
        memo.chosen[id].unwrap().cost.valid(),
{
    assert(best_among(p, memo.chosen, id, memo.chosen[id].unwrap(), p.graph[id].len()));
}

/// A sum with one operand more, once that is chosen.
proof fn lemma_next_operand(
    chosen: Seq<Option<Choice>>,
    later: Seq<Option<Choice>>,
    operands: Seq<int>,
    k: nat,
    t: Time,
    sum: Time,
    n: nat,
)
    requires
        k < operands.len(),
        forall|j: int| 0 <= j < operands.len() ==> 0 <= #[trigger] operands[j] < chosen.len(),
        forall|q: int|
            0 <= q < chosen.len() && chosen[q] is Some ==> #[trigger] later[q] == chosen[q],
        forall|j: int| 0 <= j < k ==> chosen[#[trigger] operands[j]] is Some,
        partial(chosen, operands, k, Some(t)) == Some(sum),
        partial_count(chosen, operands, k) == n,
        later[operands[k as int]] is Some,
    ensures
        ({
            let choice = later[operands[k as int]].unwrap();
            &&& choice.cost is Finite ==> partial(later, operands, k + 1, Some(t)) == Some(
                sum.plus(choice.cost),
            ) && partial_count(later, operands, k + 1) == n + choice.count
            &&& !(choice.cost is Finite) ==> partial(later, operands, k + 1, Some(t)) is None
            &&& forall|j: int| 0 <= j < k + 1 ==> later[#[trigger] operands[j]] is Some
        }),
{
    assert forall|j: int| 0 <= j < k implies chosen[#[trigger] operands[j]]
        == later[operands[j]] by {
        let q = operands[j];
        assert(chosen[q] is Some);
        assert(later[q] == chosen[q]);
    }
    lemma_partial_same(chosen, later, operands, k, Some(t));
    lemma_partial_step(later, operands, k + 1, Some(t));
}

/// What is chosen for an e-class is the cheapest that there is, but for noise: no node of it that
/// could have been chosen is shorter, with everything below it, by more than a billionth part for
/// each node of the e-class. The time that is noted is that of the node that is picked, and among
/// nodes that take equally long the smallest is picked.
pub proof fn choices_are_the_cheapest(
    p: Problem,
    root: int,
    rank: spec_fn(int) -> int,
    id: int,
    i: int,
)
    requires
        graph_closed(p.graph),
        ranks(p.graph, rank),
        gives_times(p.model),
        0 <= root < p.graph.len(),
        0 <= id < p.graph.len(),
        !selection(p, root).failed,
        selection(p, root).chosen[id] is Some,
        0 <= i < p.graph[id].len(),
        !(p.graph[id][i] is Fuse),
        whole_time(p, selection(p, root).chosen, id, i) matches Some(t) && t is Finite,
    ensures
        ({
            let chosen = selection(p, root).chosen;
            let choice = chosen[id].unwrap();
            let pick = choice.pick as int;
            &&& choice.cost is Finite
            &&& 0 <= pick < p.graph[id].len() && !(p.graph[id][pick] is Fuse)
            &&& whole_time(p, chosen, id, pick) == Some(choice.cost)
            &&& choice.count == whole_count(p, chosen, id, pick)
            &&& nearly(choice.cost, whole_time(p, chosen, id, i).unwrap(), p.graph[id].len())
            &&& all_tie(p, chosen, id, p.graph[id].len() as int) ==> choice.count <= whole_count(
                p,
                chosen,
                id,
                i,
            )
        }),
{
    let start = blank(p.graph.len());
    lemma_visited(p, root, start, seq![]);
    lemma_visited_rightly(p, root, start, seq![], rank);
    let memo = selection(p, root);
    assert(memo.chosen[id] is Some);
    assert(best_among(p, memo.chosen, id, memo.chosen[id].unwrap(), p.graph[id].len()));
}

// ---- Failure ----

/// Whether 64 bits hold what every node that could be chosen is timed by.
pub open spec fn all_timed_nodes(p: Problem) -> bool {
    forall|id: int, i: int|
        0 <= id < p.graph.len() && 0 <= i < p.graph[id].len() && !(p.graph[id][i] is Fuse)
            ==> node_time(p, id, #[trigger] p.graph[id][i]) is Some
}

proof fn lemma_visited_succeeds(p: Problem, id: int, memo: Memo, path: Seq<int>)
    requires
        all_timed_nodes(p),
        !memo.failed,
    ensures
        !visited(p, id, memo, path).failed,
    decreases p.graph.len() - path.len(), 0nat, 0nat,
{
    if !(id < 0 || id >= p.graph.len() || memo.chosen[id] is Some || path.contains(id) || path.len()
        >= p.graph.len()) {
        lemma_scanned_succeeds(p, id, p.graph[id].len(), memo, path.push(id));
    }
}

proof fn lemma_scanned_succeeds(p: Problem, id: int, count: nat, memo: Memo, path: Seq<int>)
    requires
        all_timed_nodes(p),
        !memo.failed,
        0 <= id < p.graph.len(),
        count <= p.graph[id].len(),
    ensures
        !scanned(p, id, count, memo, path).0.failed,
    decreases p.graph.len() - path.len(), 2nat, count,
{
    if count > 0 {
        lemma_scanned_succeeds(p, id, (count - 1) as nat, memo, path);
        let m = scanned(p, id, (count - 1) as nat, memo, path).0;
        let node = p.graph[id][count - 1];
        if !(node is Fuse) {
            let t = node_time(p, id, node).unwrap();
            lemma_summed_succeeds(p, node.children(), node.children().len(), m, t, path);
        }
    }
}

proof fn lemma_summed_succeeds(
    p: Problem,
    operands: Seq<int>,
    count: nat,
    memo: Memo,
    t: Time,
    path: Seq<int>,
)
    requires
        all_timed_nodes(p),
        !memo.failed,
        count <= operands.len(),
    ensures
        !summed(p, operands, count, memo, t, path).0.failed,
    decreases p.graph.len() - path.len(), 1nat, count,
{
    if count > 0 {
        lemma_summed_succeeds(p, operands, (count - 1) as nat, memo, t, path);
        let (m, total) = summed(p, operands, (count - 1) as nat, memo, t, path);
        if total is Some {
            lemma_visited_succeeds(p, operands[count - 1], m, path);
        }
    }
}

/// Extraction fails for no other reason than that 64 bits do not hold a number, or that there is no
/// plan: where they hold what every node is timed by, selection goes through; and where the plan
/// and its fused form have accounts on the inputs of the e-graph, one of them is extracted.
pub proof fn extraction_fails_only_for_want_of_room(p: Problem, root: int)
    ensures
        all_timed_nodes(p) ==> !selection(p, root).failed,
        ({
            let shapes = graph_inputs(p.graph, p.shapes, p.graph.len());
            match materialized(p, root) {
                Some(plan) => {
                    let fused = plan.push(Node::Fuse(plan.len() - 1));
                    &&& extraction(p, root) is Some <==> account_of(plan, shapes, plan.len() - 1)
                        is Some && account_of(fused, shapes, plan.len() as int) is Some
                    &&& extraction(p, root) matches Some(form) ==> form == plan || form == fused
                },
                None => extraction(p, root) is None,
            }
        }),
{
    if all_timed_nodes(p) {
        lemma_visited_succeeds(p, root, blank(p.graph.len()), seq![]);
    }
}

// ---- The plan ----

/// Whether node `at` of a plan is the node that was picked for e-class `id`, over operands that
/// were picked for its operands.
pub open spec fn follows(
    graph: Seq<Seq<Node>>,
    chosen: Seq<Option<Choice>>,
    plan: Seq<Node>,
    at: int,
    id: int,
) -> bool
    decreases at,
{
    &&& 0 <= at < plan.len()
    &&& 0 <= id < graph.len()
    &&& chosen[id] matches Some(choice) && choice.pick < graph[id].len() && {
        let node = graph[id][choice.pick as int];
        &&& symbolic(plan[at]).0 == symbolic(node).0
        &&& plan[at] is Var <==> node is Var
        &&& plan[at].children().len() == node.children().len()
        &&& forall|k: int|
            0 <= k < node.children().len() ==> 0 <= #[trigger] plan[at].children()[k] < at
                && follows(graph, chosen, plan, plan[at].children()[k], node.children()[k])
    }
}

proof fn lemma_follows_longer(
    graph: Seq<Seq<Node>>,
    chosen: Seq<Option<Choice>>,
    plan: Seq<Node>,
    longer: Seq<Node>,
    at: int,
    id: int,
)
    requires
        plan.len() <= longer.len(),
        plan == longer.take(plan.len() as int),
        follows(graph, chosen, plan, at, id),
    ensures
        follows(graph, chosen, longer, at, id),
    decreases at,
{
    assert(longer[at] == plan[at]);
    let node = graph[id][chosen[id].unwrap().pick as int];
    assert forall|k: int| 0 <= k < node.children().len() implies 0
        <= #[trigger] longer[at].children()[k] < at && follows(
        graph,
        chosen,
        longer,
        longer[at].children()[k],
        node.children()[k],
    ) by {
        let c = plan[at].children()[k];
        assert(0 <= c < at);
        lemma_follows_longer(graph, chosen, plan, longer, c, node.children()[k]);
    }
}

proof fn lemma_built_follows(
    graph: Seq<Seq<Node>>,
    chosen: Seq<Option<Choice>>,
    id: int,
    fuel: nat,
    out: Seq<Node>,
)
    ensures
        built(graph, chosen, id, fuel, out) matches Some(plan) ==> plan.len() > out.len() && out
            == plan.take(out.len() as int) && follows(graph, chosen, plan, plan.len() - 1, id),
    decreases fuel, 0nat, 0nat,
{
    if let Some(plan) = built(graph, chosen, id, fuel, out) {
        let node = graph[id][chosen[id].unwrap().pick as int];
        let kids = node.children();
        lemma_operands_follow(graph, chosen, kids, kids.len(), (fuel - 1) as nat, out);
        let (after, ids) = built_operands(
            graph,
            chosen,
            kids,
            kids.len(),
            (fuel - 1) as nat,
            out,
        ).unwrap();
        let own = node.with_children(ids);
        assert(own.children() =~= ids);
        assert(plan == after.push(own));
        assert(after =~= plan.take(after.len() as int));
        assert(out =~= plan.take(out.len() as int));
        let at = plan.len() - 1;
        assert(plan[at] == own);
        assert forall|k: int| 0 <= k < kids.len() implies 0 <= #[trigger] plan[at].children()[k]
            < at && follows(graph, chosen, plan, plan[at].children()[k], kids[k]) by {
            assert(follows(graph, chosen, after, ids[k], kids[k]));
            lemma_follows_longer(graph, chosen, after, plan, ids[k], kids[k]);
        }
    }
}

proof fn lemma_operands_follow(
    graph: Seq<Seq<Node>>,
    chosen: Seq<Option<Choice>>,
    operands: Seq<int>,
    count: nat,
    fuel: nat,
    out: Seq<Node>,
)
    requires
        count <= operands.len(),
    ensures
        built_operands(graph, chosen, operands, count, fuel, out) matches Some((plan, ids)) ==> {
            &&& plan.len() >= out.len()
            &&& out == plan.take(out.len() as int)
            &&& ids.len() == count
            &&& forall|k: int|
                0 <= k < count ==> follows(graph, chosen, plan, #[trigger] ids[k], operands[k])
        },
    decreases fuel, 1nat, count,
{
    if count == 0 {
        assert(out =~= out.take(out.len() as int));
    } else {
        let c = (count - 1) as nat;
        lemma_operands_follow(graph, chosen, operands, c, fuel, out);
        if let Some((before, some)) = built_operands(graph, chosen, operands, c, fuel, out) {
            lemma_built_follows(graph, chosen, operands[c as int], fuel, before);
            if let Some((plan, ids)) = built_operands(graph, chosen, operands, count, fuel, out) {
                assert(out =~= plan.take(out.len() as int)) by {
                    assert forall|j: int| 0 <= j < out.len() implies out[j] == plan[j] by {
                        assert(before.take(out.len() as int)[j] == before[j]);
                        assert(plan.take(before.len() as int)[j] == plan[j]);
                    }
                }
                assert forall|k: int| 0 <= k < count implies follows(
                    graph,
                    chosen,
                    plan,
                    #[trigger] ids[k],
                    operands[k],
                ) by {
                    if k < c {
                        assert(ids[k] == some[k]);
                        lemma_follows_longer(graph, chosen, before, plan, some[k], operands[k]);
                    }
                }
            }
        }
    }
}

/// The plan of the first stage is made of the nodes that were picked, and of no others.
pub proof fn plans_are_made_of_the_choices(p: Problem, root: int)
    requires
        materialized(p, root) is Some,
    ensures
        ({
            let plan = materialized(p, root).unwrap();
            follows(p.graph, selection(p, root).chosen, plan, plan.len() - 1, root)
        }),
{
    lemma_built_follows(p.graph, selection(p, root).chosen, root, p.graph.len(), seq![]);
}

// ---- The inputs ----

proof fn lemma_class_inputs(
    nodes: Seq<Node>,
    shape: Option<Seq<usize>>,
    count: nat,
    known: Map<Seq<char>, Seq<usize>>,
    name: Seq<char>,
)
    requires
        count <= nodes.len(),
    ensures
        ({
            let after = class_inputs(nodes, shape, count, known);
            let there = shape is Some && exists|i: int|
                0 <= i < count && #[trigger] nodes[i] == Node::Var(name);
            &&& there ==> after.dom().contains(name) && Some(after[name]) == shape
            &&& !there ==> (after.dom().contains(name) <==> known.dom().contains(name)) && (
            known.dom().contains(name) ==> after[name] == known[name])
        }),
    decreases count,
{
    if count > 0 {
        lemma_class_inputs(nodes, shape, (count - 1) as nat, known, name);
        if exists|i: int| 0 <= i < count - 1 && #[trigger] nodes[i] == Node::Var(name) {
            let i = choose|i: int| 0 <= i < count - 1 && #[trigger] nodes[i] == Node::Var(name);
            assert(nodes[i] == Node::Var(name));
        }
        if exists|i: int| 0 <= i < count && #[trigger] nodes[i] == Node::Var(name) {
            let i = choose|i: int| 0 <= i < count && #[trigger] nodes[i] == Node::Var(name);
            if i == count - 1 {
                assert(nodes[count - 1] == Node::Var(name));
            }
        }
    }
}

/// The shapes of the inputs that are recovered from an e-graph are those that it was shaped from.
pub proof fn recovered_inputs_are_the_inputs(
    graph: Seq<Seq<Node>>,
    inputs: Map<Seq<char>, Seq<usize>>,
    count: nat,
    name: Seq<char>,
)
    requires
        shapes_of(inputs, graph) is Some,
        count <= graph.len(),
        inputs.dom().contains(name),
    ensures
        ({
            let found = graph_inputs(graph, shapes_of(inputs, graph).unwrap(), count);
            &&& found.dom().contains(name) ==> found[name] == inputs[name]
            &&& (exists|id: int, i: int|
                0 <= id < count && 0 <= i < graph[id].len() && #[trigger] graph[id][i]
                    == Node::Var(name)) ==> found.dom().contains(name)
        }),
    decreases count,
{
    if count > 0 {
        let k = count - 1;
        recovered_inputs_are_the_inputs(graph, inputs, k as nat, name);
        let d = shapes_of(inputs, graph).unwrap();
        let known = graph_inputs(graph, d, k as nat);
        lemma_class_inputs(graph[k], d[k], graph[k].len(), known, name);
        if exists|i: int| 0 <= i < graph[k].len() && #[trigger] graph[k][i] == Node::Var(name) {
            let i = choose|i: int|
                0 <= i < graph[k].len() && #[trigger] graph[k][i] == Node::Var(name);
            propagation_is_complete(inputs, graph, k, i);
        }
        if exists|id: int, i: int|
            0 <= id < count && 0 <= i < graph[id].len() && #[trigger] graph[id][i] == Node::Var(
                name,
            ) {
            let (id, i) = choose|id: int, i: int|
                0 <= id < count && 0 <= i < graph[id].len() && #[trigger] graph[id][i] == Node::Var(
                    name,
                );
            if id < k {
                assert(graph[id][i] == Node::Var(name));
            } else {
                assert(graph[k][i] == Node::Var(name));
            }
        }
    }
}

} // verus!
