//! The e-graph as plain values: e-classes by id, with their nodes in a fixed order and their
//! shapes.
use crate::ir::{broadcast_shape, dims, same_shape, takes_right, Node, Shapes, TensorLang};
use crate::saturate::{exported_nodes, exports, spelled, symbolic};
use crate::text::same_text;
use vstd::prelude::*;

verus! {

// ---- Nodes ----

/// The node of the IR that a name and operands spell.
pub open spec fn decoded(n: (Seq<char>, Seq<int>)) -> Option<Node> {
    let (op, k) = n;
    if k.len() == 0 {
        Some(Node::Var(op))
    } else if k.len() == 2 && op == "matmul"@ {
        Some(Node::MatMul(k[0], k[1]))
    } else if k.len() == 1 && op == "transpose"@ {
        Some(Node::Transpose(k[0]))
    } else if k.len() == 2 && op == "emul"@ {
        Some(Node::EMul(k[0], k[1]))
    } else if k.len() == 1 && op == "softmax"@ {
        Some(Node::Softmax(k[0]))
    } else if k.len() == 1 && op == "relu"@ {
        Some(Node::Relu(k[0]))
    } else if k.len() == 1 && op == "fuse"@ {
        Some(Node::Fuse(k[0]))
    } else {
        None
    }
}

/// A node is spelled by its name and its operands.
pub proof fn decoding_inverts_spelling(node: Node, n: (Seq<char>, Seq<int>))
    ensures
        decoded(symbolic(node)) == Some(node),
        decoded(n) is Some <==> spelled(n),
        decoded(n) is Some ==> symbolic(decoded(n).unwrap()) == n,
{
    reveal_strlit("matmul");
    reveal_strlit("transpose");
    reveal_strlit("emul");
    reveal_strlit("softmax");
    reveal_strlit("relu");
    reveal_strlit("fuse");
    assert("matmul"@ != "emul"@) by {
        assert("matmul"@.len() != "emul"@.len());
    }
    assert("transpose"@ != "softmax"@ && "transpose"@ != "relu"@ && "transpose"@ != "fuse"@) by {
        assert("transpose"@.len() == 9);
        assert("softmax"@.len() == 7);
        assert("relu"@.len() == 4);
    }
    assert("softmax"@ != "relu"@ && "softmax"@ != "fuse"@) by {
        assert("softmax"@.len() == 7);
        assert("relu"@.len() == 4);
        assert("fuse"@.len() == 4);
    }
    assert("relu"@ != "fuse"@) by {
        assert("relu"@[0] != "fuse"@[0]);
    }
    if let Some(d) = decoded(n) {
        assert(symbolic(d).1 =~= n.1);
    }
}

/// Reads a name and operands as a node of the IR.
pub fn decode(op: &String, operands: &Vec<usize>) -> (node: Option<TensorLang>)
    ensures
        match node {
            Some(n) => decoded((op@, operands@.map_values(|k: usize| k as int))) == Some(n@),
            None => decoded((op@, operands@.map_values(|k: usize| k as int))) is None,
        },
{
    let op_text = op.as_str();
    if operands.len() == 0 {
        Some(TensorLang::Var(op.clone()))
    } else if operands.len() == 2 && same_text(op_text, "matmul") {
        Some(TensorLang::MatMul(operands[0], operands[1]))
    } else if operands.len() == 1 && same_text(op_text, "transpose") {
        Some(TensorLang::Transpose(operands[0]))
    } else if operands.len() == 2 && same_text(op_text, "emul") {
        Some(TensorLang::EMul(operands[0], operands[1]))
    } else if operands.len() == 1 && same_text(op_text, "softmax") {
        Some(TensorLang::Softmax(operands[0]))
    } else if operands.len() == 1 && same_text(op_text, "relu") {
        Some(TensorLang::Relu(operands[0]))
    } else if operands.len() == 1 && same_text(op_text, "fuse") {
        Some(TensorLang::Fuse(operands[0]))
    } else {
        None
    }
}

/// The place of the operator in the language.
pub open spec fn rank(node: Node) -> int {
    match node {
        Node::Var(_) => 0,
        Node::MatMul(_, _) => 1,
        Node::Transpose(_) => 2,
        Node::EMul(_, _) => 3,
        Node::Softmax(_) => 4,
        Node::Relu(_) => 5,
        Node::Fuse(_) => 6,
    }
}

/// Whether `a` comes before `b`: by the operator first, then by the operands.
pub open spec fn precedes(a: Node, b: Node) -> bool {
    if rank(a) != rank(b) {
        rank(a) < rank(b)
    } else {
        match (a, b) {
            (Node::MatMul(a0, a1), Node::MatMul(b0, b1)) => a0 < b0 || a0 == b0 && a1 < b1,
            (Node::EMul(a0, a1), Node::EMul(b0, b1)) => a0 < b0 || a0 == b0 && a1 < b1,
            (Node::Transpose(a0), Node::Transpose(b0)) => a0 < b0,
            (Node::Softmax(a0), Node::Softmax(b0)) => a0 < b0,
            (Node::Relu(a0), Node::Relu(b0)) => a0 < b0,
            (Node::Fuse(a0), Node::Fuse(b0)) => a0 < b0,
            _ => false,
        }
    }
}

fn rank_of(node: &TensorLang) -> (place: u8)
    ensures
        place == rank(node@),
{
    match node {
        TensorLang::Var(_) => 0,
        TensorLang::MatMul(_, _) => 1,
        TensorLang::Transpose(_) => 2,
        TensorLang::EMul(_, _) => 3,
        TensorLang::Softmax(_) => 4,
        TensorLang::Relu(_) => 5,
        TensorLang::Fuse(_) => 6,
    }
}

fn comes_before(a: &TensorLang, b: &TensorLang) -> (before: bool)
    ensures
        before == precedes(a@, b@),
{
    let (ra, rb) = (rank_of(a), rank_of(b));
    if ra != rb {
        return ra < rb;
    }
    match (a, b) {
        (TensorLang::MatMul(a0, a1), TensorLang::MatMul(b0, b1)) => *a0 < *b0 || *a0 == *b0 && *a1
            < *b1,
        (TensorLang::EMul(a0, a1), TensorLang::EMul(b0, b1)) => *a0 < *b0 || *a0 == *b0 && *a1
            < *b1,
        (TensorLang::Transpose(a0), TensorLang::Transpose(b0)) => *a0 < *b0,
        (TensorLang::Softmax(a0), TensorLang::Softmax(b0)) => *a0 < *b0,
        (TensorLang::Relu(a0), TensorLang::Relu(b0)) => *a0 < *b0,
        (TensorLang::Fuse(a0), TensorLang::Fuse(b0)) => *a0 < *b0,
        _ => false,
    }
}

/// Whether no node comes before one that stands in front of it.
pub open spec fn in_rank_order(nodes: Seq<Node>) -> bool {
    forall|i: int, j: int|
        0 <= i < j < nodes.len() ==> !precedes(#[trigger] nodes[j], #[trigger] nodes[i])
}

pub open spec fn node_views(nodes: Seq<TensorLang>) -> Seq<Node> {
    nodes.map_values(|n: TensorLang| n@)
}

/// Puts a node where it belongs.
fn place_node(nodes: &mut Vec<TensorLang>, node: TensorLang)
    requires
        in_rank_order(node_views(old(nodes)@)),
    ensures
        in_rank_order(node_views(final(nodes)@)),
        node_views(final(nodes)@).to_set() == node_views(old(nodes)@).to_set().insert(node@),
        final(nodes)@.len() == old(nodes)@.len() + 1,
{
    let n: usize = nodes.len();
    let mut i: usize = n;
    let ghost before = node_views(nodes@);
    while i > 0 && comes_before(&node, &nodes[i - 1])
        invariant
            i <= n,
            n == nodes@.len(),
            nodes@ == old(nodes)@,
            before == node_views(nodes@),
            forall|k: int| i <= k < n ==> precedes(node@, #[trigger] before[k]),
        decreases i,
    {
        assert(before[i - 1] == nodes@[i - 1]@);
        i = i - 1;
    }
    nodes.insert(i, node);
    let ghost after = node_views(nodes@);
    assert(after =~= before.insert(i as int, node@));
    proof {
        if i > 0 {
            assert(before[i - 1] == old(nodes)@[i - 1]@);
            assert(!precedes(node@, before[i - 1]));
        }
        assert forall|a: int, b: int| 0 <= a < b < after.len() implies !precedes(
            #[trigger] after[b],
            #[trigger] after[a],
        ) by {
            let x = if a < i {
                before[a]
            } else if a == i {
                node@
            } else {
                before[a - 1]
            };
            let y = if b < i {
                before[b]
            } else if b == i {
                node@
            } else {
                before[b - 1]
            };
            assert(after[a] == x && after[b] == y);
            if b == i && a < i - 1 {
                assert(!precedes(before[i - 1], before[a]));
            }
        }
        assert forall|m: Node| after.to_set().contains(m) <==> before.to_set().insert(
            node@,
        ).contains(m) by {
            if after.contains(m) {
                let k = choose|k: int| 0 <= k < after.len() && after[k] == m;
                if k < i {
                    assert(before[k] == m);
                } else if k > i {
                    assert(before[k - 1] == m);
                }
            }
            if before.contains(m) {
                let k = choose|k: int| 0 <= k < before.len() && before[k] == m;
                if k < i {
                    assert(after[k] == m);
                } else {
                    assert(after[k + 1] == m);
                }
            }
            assert(after[i as int] == node@);
        }
        assert(after.to_set() =~= before.to_set().insert(node@));
    }
}

// ---- E-classes ----

/// Whether every operand of every node is an id of the e-graph.
pub open spec fn graph_closed(graph: Seq<Seq<Node>>) -> bool {
    forall|id: int, i: int|
        0 <= id < graph.len() && 0 <= i < graph[id].len() ==> (
        #[trigger] graph[id][i]).operands_below(graph.len() as int)
}

/// The e-classes `graph[id]`, written as sets of named nodes.
pub open spec fn named(nodes: Seq<Node>) -> Set<(Seq<char>, Seq<int>)> {
    nodes.map_values(|n: Node| symbolic(n)).to_set()
}

/// Whether `graph` holds exactly the e-classes of `classes`: under each id the nodes of that
/// class in rank order, and nothing under the other ids.
pub open spec fn represents(
    graph: Seq<Seq<Node>>,
    classes: Map<int, Set<(Seq<char>, Seq<int>)>>,
) -> bool {
    &&& forall|id: int| #[trigger] classes.dom().contains(id) ==> 0 <= id < graph.len()
    &&& forall|id: int|
        0 <= id < graph.len() ==> in_rank_order(#[trigger] graph[id]) && named(graph[id]) == (
        if classes.dom().contains(id) {
            classes[id]
        } else {
            Set::empty()
        })
}

pub open spec fn graph_views(graph: Seq<Vec<TensorLang>>) -> Seq<Seq<Node>> {
    graph.map_values(|nodes: Vec<TensorLang>| node_views(nodes@))
}

/// Reads the nodes of one e-class. `None` if one is not of the IR.
fn import_class(nodes: &Vec<(String, Vec<usize>)>) -> (class: Option<Vec<TensorLang>>)
    ensures
        match class {
            Some(c) => in_rank_order(node_views(c@)) && named(node_views(c@)) == exported_nodes(
                nodes@,
            ),
            None => exists|n: (Seq<char>, Seq<int>)| #[trigger]
                exported_nodes(nodes@).contains(n) && !spelled(n),
        },
{
    let ghost all = nodes@.map_values(
        |n: (String, Vec<usize>)| (n.0@, n.1@.map_values(|k: usize| k as int)),
    );
    let mut class: Vec<TensorLang> = Vec::new();
    let mut i: usize = 0;
    assert(named(node_views(class@)) =~= all.take(0).to_set());
    while i < nodes.len()
        invariant
            i <= nodes@.len(),
            all == nodes@.map_values(
                |n: (String, Vec<usize>)| (n.0@, n.1@.map_values(|k: usize| k as int)),
            ),
            in_rank_order(node_views(class@)),
            named(node_views(class@)) == all.take(i as int).to_set(),
        decreases nodes@.len() - i,
    {
        let ghost n = all[i as int];
        proof {
            decoding_inverts_spelling(Node::Var(seq![]), n);
        }
        match decode(&nodes[i].0, &nodes[i].1) {
            Some(node) => {
                let ghost before = node_views(class@);
                place_node(&mut class, node);
                proof {
                    let after = node_views(class@);
                    assert(symbolic(node@) == n);
                    assert(all.take(i as int + 1) =~= all.take(i as int).push(n));
                    lemma_named(after, before, node@);
                    assert(all.take(i as int).push(n).to_set() =~= all.take(i as int).to_set().insert(
                        n,
                    )) by {
                        lemma_push_set(all.take(i as int), n);
                    }
                }
            },
            None => {
                assert(all.contains(n));
                assert(exported_nodes(nodes@).contains(n));
                return None;
            },
        }
        i = i + 1;
    }
    assert(all.take(nodes@.len() as int) =~= all);
    Some(class)
}

proof fn lemma_push_set<A>(s: Seq<A>, a: A)
    ensures
        s.push(a).to_set() == s.to_set().insert(a),
{
    let after = s.push(a);
    assert forall|x: A| after.to_set().contains(x) <==> s.to_set().insert(a).contains(x) by {
        if s.contains(x) {
            let k = choose|k: int| 0 <= k < s.len() && s[k] == x;
            assert(after[k] == x);
        }
        assert(after[s.len() as int] == a);
    }
    assert(after.to_set() =~= s.to_set().insert(a));
}

proof fn lemma_named(after: Seq<Node>, before: Seq<Node>, node: Node)
    requires
        after.to_set() == before.to_set().insert(node),
    ensures
        named(after) == named(before).insert(symbolic(node)),
{
    let f = |n: Node| symbolic(n);
    assert forall|x: (Seq<char>, Seq<int>)|
        named(after).contains(x) <==> named(before).insert(symbolic(node)).contains(x) by {
        if named(after).contains(x) {
            let k = choose|k: int| 0 <= k < after.len() && after.map_values(f)[k] == x;
            assert(after.contains(after[k]));
            assert(after.to_set().contains(after[k]));
            if after[k] != node {
                assert(before.contains(after[k]));
                let j = choose|j: int| 0 <= j < before.len() && before[j] == after[k];
                assert(before.map_values(f)[j] == x);
            }
        }
        if named(before).contains(x) {
            let k = choose|k: int| 0 <= k < before.len() && before.map_values(f)[k] == x;
            assert(before.contains(before[k]));
            assert(after.to_set().contains(before[k]));
            let j = choose|j: int| 0 <= j < after.len() && after[j] == before[k];
            assert(after.map_values(f)[j] == x);
        }
        if x == symbolic(node) {
            assert(after.to_set().contains(node));
            let j = choose|j: int| 0 <= j < after.len() && after[j] == node;
            assert(after.map_values(f)[j] == x);
        }
    }
    assert(named(after) =~= named(before).insert(symbolic(node)));
}

/// One more than the largest id.
fn id_bound(exported: &Vec<(usize, Vec<(String, Vec<usize>)>)>) -> (bound: usize)
    requires
        forall|i: int| 0 <= i < exported@.len() ==> (#[trigger] exported@[i]).0 < usize::MAX,
    ensures
        forall|i: int| 0 <= i < exported@.len() ==> (#[trigger] exported@[i]).0 < bound,
{
    let mut bound: usize = 0;
    let mut i: usize = 0;
    while i < exported.len()
        invariant
            i <= exported@.len(),
            forall|k: int| 0 <= k < exported@.len() ==> (#[trigger] exported@[k]).0 < usize::MAX,
            forall|k: int| 0 <= k < i ==> (#[trigger] exported@[k]).0 < bound,
        decreases exported@.len() - i,
    {
        if exported[i].0 >= bound {
            bound = exported[i].0 + 1;
        }
        i = i + 1;
    }
    bound
}

/// Files exported e-classes under their ids. `None` if some node is not of the IR.
pub fn import_classes(exported: &Vec<(usize, Vec<(String, Vec<usize>)>)>) -> (graph: Option<
    Vec<Vec<TensorLang>>,
>)
    requires
        forall|i: int| 0 <= i < exported@.len() ==> (#[trigger] exported@[i]).0 < usize::MAX,
        forall|i: int, j: int|
            0 <= i < j < exported@.len() ==> (#[trigger] exported@[i]).0 != (
            #[trigger] exported@[j]).0,
    ensures
        match graph {
            Some(g) => forall|classes: Map<int, Set<(Seq<char>, Seq<int>)>>| #[trigger]
                exports(exported@, classes) ==> represents(graph_views(g@), classes),
            None => exists|i: int, n: (Seq<char>, Seq<int>)|
                0 <= i < exported@.len() && #[trigger] exported_nodes(exported@[i].1@).contains(n)
                    && !spelled(n),
        },
{
    let bound: usize = id_bound(exported);
    let mut graph: Vec<Vec<TensorLang>> = Vec::new();
    let mut id: usize = 0;
    while id < bound
        invariant
            id <= bound,
            graph@.len() == id,
            forall|k: int| 0 <= k < id ==> (#[trigger] graph@[k])@.len() == 0,
        decreases bound - id,
    {
        graph.push(Vec::new());
        id = id + 1;
    }
    let mut i: usize = 0;
    while i < exported.len()
        invariant
            i <= exported@.len(),
            graph@.len() == bound,
            forall|k: int| 0 <= k < exported@.len() ==> (#[trigger] exported@[k]).0 < bound,
            forall|k: int, j: int|
                0 <= k < j < exported@.len() ==> (#[trigger] exported@[k]).0 != (
                #[trigger] exported@[j]).0,
            forall|k: int|
                0 <= k < i ==> {
                    let class = node_views(graph@[(#[trigger] exported@[k]).0 as int]@);
                    in_rank_order(class) && named(class) == exported_nodes(exported@[k].1@)
                },
            forall|id: int|
                0 <= id < bound && (forall|k: int|
                    0 <= k < i ==> (#[trigger] exported@[k]).0 != id) ==> (
                #[trigger] graph@[id])@.len() == 0,
        decreases exported@.len() - i,
    {
        match import_class(&exported[i].1) {
            Some(class) => {
                let ghost before = graph@;
                let at: usize = exported[i].0;
                graph.set(at, class);
                assert forall|id: int|
                    0 <= id < bound && (forall|k: int|
                        0 <= k < i + 1 ==> (#[trigger] exported@[k]).0 != id) implies (
                #[trigger] graph@[id])@.len() == 0 by {
                    assert(exported@[i as int].0 != id);
                    assert(before[id]@.len() == 0);
                }
            },
            None => {
                return None;
            },
        }
        i = i + 1;
    }
    proof {
        let g = graph_views(graph@);
        assert forall|classes: Map<int, Set<(Seq<char>, Seq<int>)>>| #[trigger]
            exports(exported@, classes) implies represents(g, classes) by {
            assert forall|id: int| 0 <= id < g.len() implies in_rank_order(#[trigger] g[id]) && named(
                g[id],
            ) == (if classes.dom().contains(id) {
                classes[id]
            } else {
                Set::empty()
            }) by {
                if classes.dom().contains(id) {
                    let k = choose|k: int|
                        0 <= k < exported@.len() && (#[trigger] exported@[k]).0 == id;
                    assert(g[id] == node_views(graph@[exported@[k].0 as int]@));
                } else {
                    assert forall|k: int| 0 <= k < exported@.len() implies (
                    #[trigger] exported@[k]).0 != id by {}
                    assert(graph@[id]@.len() == 0);
                    assert(named(g[id]) =~= Set::empty());
                }
            }
        }
    }
    Some(graph)
}

// ---- Shape analysis ----

/// The shape of a node from those of its operands: `Some(None)` where it is not yet known, and
/// `None` where an operand has too few dimensions.
pub open spec fn made(
    inputs: Map<Seq<char>, Seq<usize>>,
    data: Seq<Option<Seq<usize>>>,
    node: Node,
) -> Option<Option<Seq<usize>>> {
    match node {
        Node::Var(name) => if inputs.dom().contains(name) {
            Some(Some(inputs[name]))
        } else {
            Some(None)
        },
        Node::MatMul(a, b) => match (data[a], data[b]) {
            (Some(sa), Some(sb)) => if sa.len() >= 1 && sb.len() >= 2 {
                Some(Some(seq![sa[0], sb[1]]))
            } else {
                None
            },
            _ => Some(None),
        },
        Node::Transpose(a) => match data[a] {
            Some(sa) => if sa.len() >= 2 {
                Some(Some(seq![sa[1], sa[0]]))
            } else {
                None
            },
            None => Some(None),
        },
        Node::EMul(a, b) => match (data[a], data[b]) {
            (Some(sa), Some(sb)) => Some(Some(broadcast_shape(sa, sb))),
            (Some(sa), None) => Some(Some(sa)),
            (None, sb) => Some(sb),
        },
        Node::Softmax(a) | Node::Relu(a) | Node::Fuse(a) => Some(data[a]),
    }
}

/// What two equivalent nodes know of their shape together: what either knows. `None` where they
/// disagree: equivalent terms share a shape.
pub open spec fn merged(a: Option<Seq<usize>>, b: Option<Seq<usize>>) -> Option<
    Option<Seq<usize>>,
> {
    match (a, b) {
        (Some(s), Some(t)) => if s == t {
            Some(a)
        } else {
            None
        },
        (Some(_), None) => Some(a),
        (None, _) => Some(b),
    }
}

pub open spec fn shape_view(data: Option<Vec<usize>>) -> Option<Seq<usize>> {
    match data {
        Some(s) => Some(s@),
        None => None,
    }
}

pub open spec fn shape_views(data: Seq<Option<Vec<usize>>>) -> Seq<Option<Seq<usize>>> {
    data.map_values(|d: Option<Vec<usize>>| shape_view(d))
}

/// Which of the two sides of a merge differ from the outcome.
#[derive(Clone, Copy, Debug, PartialEq, Eq, Structural)]
pub struct DidMerge(pub bool, pub bool);

/// Two equivalent terms have different shapes.
#[derive(Clone, Copy, Debug, PartialEq, Eq, Structural)]
pub struct ShapeConflict;

/// Propagates shapes from the inputs through the e-graph.
#[derive(Debug)]
pub struct ShapeAnalysis {
    pub inputs: Shapes,
}

fn copy_shape(data: &Option<Vec<usize>>) -> (copy: Option<Vec<usize>>)
    ensures
        shape_view(copy) == shape_view(*data),
{
    match data {
        Some(s) => Some(s.clone()),
        None => None,
    }
}

impl ShapeAnalysis {
    /// The shape of a node from the shapes of its operands.
    pub fn make(&self, data: &Vec<Option<Vec<usize>>>, node: &TensorLang) -> (shape: Option<
        Option<Vec<usize>>,
    >)
        requires
            node@.operands_below(data@.len() as int),
        ensures
            match shape {
                Some(s) => made(dims(self.inputs), shape_views(data@), node@) == Some(shape_view(s)),
                None => made(dims(self.inputs), shape_views(data@), node@) is None,
            },
    {
        match node {
            TensorLang::Var(name) => match self.inputs.get(name.as_str()) {
                Some(s) => Some(Some(s.clone())),
                None => Some(None),
            },
            TensorLang::MatMul(a, b) => {
                assert(node@.children()[0] == a && node@.children()[1] == b);
                match (&data[*a], &data[*b]) {
                    (Some(sa), Some(sb)) => if sa.len() >= 1 && sb.len() >= 2 {
                        let shape: Vec<usize> = vec![sa[0], sb[1]];
                        assert(shape@ =~= seq![sa@[0], sb@[1]]);
                        Some(Some(shape))
                    } else {
                        None
                    },
                    _ => Some(None),
                }
            },
            TensorLang::Transpose(a) => {
                assert(node@.children()[0] == a);
                match &data[*a] {
                    Some(sa) => if sa.len() >= 2 {
                        let shape: Vec<usize> = vec![sa[1], sa[0]];
                        assert(shape@ =~= seq![sa@[1], sa@[0]]);
                        Some(Some(shape))
                    } else {
                        None
                    },
                    None => Some(None),
                }
            },
            TensorLang::EMul(a, b) => {
                assert(node@.children()[0] == a && node@.children()[1] == b);
                match (&data[*a], &data[*b]) {
                    (Some(sa), Some(sb)) => if takes_right(sa, sb) {
                        Some(Some(sb.clone()))
                    } else {
                        Some(Some(sa.clone()))
                    },
                    (Some(sa), None) => Some(Some(sa.clone())),
                    (None, sb) => Some(copy_shape(sb)),
                }
            },
            TensorLang::Softmax(a) | TensorLang::Relu(a) | TensorLang::Fuse(a) => {
                assert(node@.children()[0] == a);
                Some(copy_shape(&data[*a]))
            },
        }
    }

    /// Takes into `a` what `b` knows, and says which side differs from the outcome. Two known
    /// shapes that differ are a conflict: it is reported, and `a` stays.
    pub fn merge(&self, a: &mut Option<Vec<usize>>, b: Option<Vec<usize>>) -> (did: Result<
        DidMerge,
        ShapeConflict,
    >)
        ensures
            match merged(shape_view(*old(a)), shape_view(b)) {
                Some(m) => shape_view(*final(a)) == m && did == Ok::<DidMerge, ShapeConflict>(
                    DidMerge(*old(a) is None && b is Some, *old(a) is Some && b is None),
                ),
                None => did is Err && *final(a) == *old(a),
            },
    {
        if a.is_none() {
            let learned = b.is_some();
            *a = b;
            return Ok(DidMerge(learned, false));
        }
        let agree = match (&*a, &b) {
            (Some(s), Some(t)) => same_shape(s, t),
            _ => true,
        };
        if agree {
            Ok(DidMerge(false, b.is_none()))
        } else {
            Err(ShapeConflict)
        }
    }
}

// ---- Propagation ----

/// Whether the node is an elementwise product with one operand of known shape and one of unknown
/// shape.
pub open spec fn half_known(data: Seq<Option<Seq<usize>>>, node: Node) -> bool {
    match node {
        Node::EMul(a, b) => data[a] is Some != data[b] is Some,
        _ => false,
    }
}

/// What is known after a look at one node of e-class `id`. Products of which only half is known
/// are passed over until `guess` is set.
pub open spec fn after_node(
    inputs: Map<Seq<char>, Seq<usize>>,
    guess: bool,
    data: Seq<Option<Seq<usize>>>,
    id: int,
    node: Node,
) -> Option<Seq<Option<Seq<usize>>>> {
    if half_known(data, node) && !guess {
        Some(data)
    } else {
        match made(inputs, data, node) {
            Some(m) => match merged(data[id], m) {
                Some(s) => Some(data.update(id, s)),
                None => None,
            },
            None => None,
        }
    }
}

/// What is known after a look at the first `count` nodes of e-class `id`.
pub open spec fn after_nodes(
    inputs: Map<Seq<char>, Seq<usize>>,
    guess: bool,
    data: Seq<Option<Seq<usize>>>,
    id: int,
    nodes: Seq<Node>,
    count: nat,
) -> Option<Seq<Option<Seq<usize>>>>
    decreases count,
{
    if count == 0 {
        Some(data)
    } else {
        match after_nodes(inputs, guess, data, id, nodes, (count - 1) as nat) {
            Some(d) => after_node(inputs, guess, d, id, nodes[count - 1]),
            None => None,
        }
    }
}

/// What is known after a look at the first `count` e-classes.
pub open spec fn after_classes(
    inputs: Map<Seq<char>, Seq<usize>>,
    guess: bool,
    data: Seq<Option<Seq<usize>>>,
    graph: Seq<Seq<Node>>,
    count: nat,
) -> Option<Seq<Option<Seq<usize>>>>
    decreases count,
{
    if count == 0 {
        Some(data)
    } else {
        match after_classes(inputs, guess, data, graph, (count - 1) as nat) {
            Some(d) => after_nodes(
                inputs,
                guess,
                d,
                count - 1,
                graph[count - 1],
                graph[count - 1].len(),
            ),
            None => None,
        }
    }
}

/// What is known after `count` rounds over the whole e-graph.
pub open spec fn after_rounds(
    inputs: Map<Seq<char>, Seq<usize>>,
    guess: bool,
    data: Seq<Option<Seq<usize>>>,
    graph: Seq<Seq<Node>>,
    count: nat,
) -> Option<Seq<Option<Seq<usize>>>>
    decreases count,
{
    if count == 0 {
        Some(data)
    } else {
        match after_rounds(inputs, guess, data, graph, (count - 1) as nat) {
            Some(d) => after_classes(inputs, guess, d, graph, graph.len()),
            None => None,
        }
    }
}

/// Nothing known.
pub open spec fn unknown(count: nat) -> Seq<Option<Seq<usize>>> {
    Seq::new(count, |i: int| None)
}

/// The shapes that follow from the inputs through operators whose operands are all known.
pub open spec fn certain_shapes(
    inputs: Map<Seq<char>, Seq<usize>>,
    graph: Seq<Seq<Node>>,
) -> Option<Seq<Option<Seq<usize>>>> {
    after_rounds(inputs, false, unknown(graph.len()), graph, graph.len() + 1)
}

/// The shape of every e-class, where it is known: the certain shapes first, then those of
/// products of which only half is known. `None` where an operand has too few dimensions, or where
/// equivalent terms disagree on their shape.
pub open spec fn shapes_of(
    inputs: Map<Seq<char>, Seq<usize>>,
    graph: Seq<Seq<Node>>,
) -> Option<Seq<Option<Seq<usize>>>> {
    match certain_shapes(inputs, graph) {
        Some(d) => after_rounds(inputs, true, d, graph, graph.len() + 1),
        None => None,
    }
}

impl ShapeAnalysis {
    /// Looks at every node of e-class `id`, and says whether anything was learned.
    fn visit_class(
        &self,
        guess: bool,
        data: &mut Vec<Option<Vec<usize>>>,
        id: usize,
        nodes: &Vec<TensorLang>,
    ) -> (learned: Option<bool>)
        requires
            id < old(data)@.len(),
            forall|i: int|
                0 <= i < nodes@.len() ==> (#[trigger] nodes@[i])@.operands_below(
                    old(data)@.len() as int,
                ),
        ensures
            final(data)@.len() == old(data)@.len(),
            match learned {
                Some(l) => after_nodes(
                    dims(self.inputs),
                    guess,
                    shape_views(old(data)@),
                    id as int,
                    node_views(nodes@),
                    nodes@.len(),
                ) == Some(shape_views(final(data)@)) && (!l ==> shape_views(final(data)@)
                    == shape_views(old(data)@)),
                None => after_nodes(
                    dims(self.inputs),
                    guess,
                    shape_views(old(data)@),
                    id as int,
                    node_views(nodes@),
                    nodes@.len(),
                ) is None,
            },
    {
        let ghost start = shape_views(data@);
        let ghost views = node_views(nodes@);
        let mut learned = false;
        let mut i: usize = 0;
        while i < nodes.len()
            invariant
                i <= nodes@.len(),
                id < data@.len(),
                start == shape_views(old(data)@),
                data@.len() == start.len(),
                views == node_views(nodes@),
                forall|k: int|
                    0 <= k < nodes@.len() ==> (#[trigger] nodes@[k])@.operands_below(
                        data@.len() as int,
                    ),
                after_nodes(dims(self.inputs), guess, start, id as int, views, i as nat) == Some(
                    shape_views(data@),
                ),
                !learned ==> shape_views(data@) == start,
            decreases nodes@.len() - i,
        {
            let node = &nodes[i];
            let ghost before = shape_views(data@);
            assert(views[i as int] == node@);
            if guess || !is_half_known(data, node) {
                match self.make(data, node) {
                    Some(shape) => {
                        let mut mine = copy_shape(&data[id]);
                        let ghost m = shape_view(shape);
                        match self.merge(&mut mine, shape) {
                            Ok(did) => {
                                let ghost new = shape_view(mine);
                                data.set(id, mine);
                                learned = learned || did.0;
                                assert(shape_views(data@) =~= before.update(id as int, new));
                                if !did.0 {
                                    assert(before.update(id as int, before[id as int]) =~= before);
                                }
                            },
                            Err(_) => {
                                assert(after_node(
                                    dims(self.inputs),
                                    guess,
                                    before,
                                    id as int,
                                    node@,
                                ) is None);
                                proof {
                                    lemma_nodes_fail(
                                        dims(self.inputs),
                                        guess,
                                        start,
                                        id as int,
                                        views,
                                        i as nat + 1,
                                        nodes@.len(),
                                    );
                                }
                                return None;
                            },
                        }
                    },
                    None => {
                        proof {
                            lemma_nodes_fail(
                                dims(self.inputs),
                                guess,
                                start,
                                id as int,
                                views,
                                i as nat + 1,
                                nodes@.len(),
                            );
                        }
                        return None;
                    },
                }
            }
            i = i + 1;
        }
        Some(learned)
    }

    /// One round over the e-graph; says whether anything was learned.
    fn visit_all(
        &self,
        guess: bool,
        data: &mut Vec<Option<Vec<usize>>>,
        graph: &Vec<Vec<TensorLang>>,
    ) -> (learned: Option<bool>)
        requires
            old(data)@.len() == graph@.len(),
            graph_closed(graph_views(graph@)),
        ensures
            final(data)@.len() == old(data)@.len(),
            match learned {
                Some(l) => after_classes(
                    dims(self.inputs),
                    guess,
                    shape_views(old(data)@),
                    graph_views(graph@),
                    graph@.len(),
                ) == Some(shape_views(final(data)@)) && (!l ==> shape_views(final(data)@)
                    == shape_views(old(data)@)),
                None => after_classes(
                    dims(self.inputs),
                    guess,
                    shape_views(old(data)@),
                    graph_views(graph@),
                    graph@.len(),
                ) is None,
            },
    {
        let ghost start = shape_views(data@);
        let ghost views = graph_views(graph@);
        let mut learned = false;
        let mut id: usize = 0;
        while id < graph.len()
            invariant
                id <= graph@.len(),
                start == shape_views(old(data)@),
                data@.len() == start.len(),
                data@.len() == graph@.len(),
                views == graph_views(graph@),
                graph_closed(views),
                after_classes(dims(self.inputs), guess, start, views, id as nat) == Some(
                    shape_views(data@),
                ),
                !learned ==> shape_views(data@) == start,
            decreases graph@.len() - id,
        {
            assert(views[id as int] == node_views(graph@[id as int]@));
            assert forall|i: int| 0 <= i < graph@[id as int]@.len() implies (
            #[trigger] graph@[id as int]@[i])@.operands_below(data@.len() as int) by {
                assert(views[id as int][i].operands_below(views.len() as int));
            }
            match self.visit_class(guess, data, id, &graph[id]) {
                Some(l) => {
                    learned = learned || l;
                },
                None => {
                    proof {
                        lemma_classes_fail(
                            dims(self.inputs),
                            guess,
                            start,
                            views,
                            id as nat + 1,
                            graph@.len(),
                        );
                    }
                    return None;
                },
            }
            id = id + 1;
        }
        Some(learned)
    }

    /// Rounds until nothing more is learned.
    fn settle(
        &self,
        guess: bool,
        data: &mut Vec<Option<Vec<usize>>>,
        graph: &Vec<Vec<TensorLang>>,
    ) -> (settled: bool)
        requires
            old(data)@.len() == graph@.len(),
            graph_closed(graph_views(graph@)),
        ensures
            final(data)@.len() == old(data)@.len(),
            match after_rounds(
                dims(self.inputs),
                guess,
                shape_views(old(data)@),
                graph_views(graph@),
                graph@.len() + 1,
            ) {
                Some(d) => settled && d == shape_views(final(data)@),
                None => !settled,
            },
    {
        let ghost start = shape_views(data@);
        let ghost views = graph_views(graph@);
        let ghost inputs = dims(self.inputs);
        let rounds: u128 = graph.len() as u128 + 1;
        let mut i: u128 = 0;
        while i < rounds
            invariant
                i <= rounds,
                rounds == graph@.len() + 1,
                start == shape_views(old(data)@),
                data@.len() == start.len(),
                data@.len() == graph@.len(),
                views == graph_views(graph@),
                inputs == dims(self.inputs),
                graph_closed(views),
                after_rounds(inputs, guess, start, views, i as nat) == Some(shape_views(data@)),
            decreases rounds - i,
        {
            match self.visit_all(guess, data, graph) {
                Some(learned) => {
                    if !learned {
                        proof {
                            lemma_rounds_stay(
                                inputs,
                                guess,
                                start,
                                views,
                                i as nat,
                                rounds as nat,
                            );
                        }
                        return true;
                    }
                },
                None => {
                    proof {
                        lemma_rounds_fail(
                            inputs,
                            guess,
                            start,
                            views,
                            i as nat + 1,
                            rounds as nat,
                        );
                    }
                    return false;
                },
            }
            i = i + 1;
        }
        true
    }

    /// The shape of every e-class, as far as it follows from the inputs.
    pub fn shapes(&self, graph: &Vec<Vec<TensorLang>>) -> (data: Option<Vec<Option<Vec<usize>>>>)
        requires
            graph_closed(graph_views(graph@)),
        ensures
            match data {
                Some(d) => d@.len() == graph@.len() && shapes_of(
                    dims(self.inputs),
                    graph_views(graph@),
                ) == Some(shape_views(d@)),
                None => shapes_of(dims(self.inputs), graph_views(graph@)) is None,
            },
    {
        let mut data: Vec<Option<Vec<usize>>> = Vec::new();
        let mut id: usize = 0;
        while id < graph.len()
            invariant
                id <= graph@.len(),
                data@.len() == id,
                forall|k: int| 0 <= k < id ==> (#[trigger] data@[k]) is None,
            decreases graph@.len() - id,
        {
            data.push(None);
            id = id + 1;
        }
        assert(shape_views(data@) =~= unknown(graph@.len()));
        if !self.settle(false, &mut data, graph) {
            return None;
        }
        if !self.settle(true, &mut data, graph) {
            return None;
        }
        Some(data)
    }
}

fn is_half_known(data: &Vec<Option<Vec<usize>>>, node: &TensorLang) -> (half: bool)
    requires
        node@.operands_below(data@.len() as int),
    ensures
        half == half_known(shape_views(data@), node@),
{
    match node {
        TensorLang::EMul(a, b) => {
            assert(node@.children()[0] == a && node@.children()[1] == b);
            data[*a].is_some() != data[*b].is_some()
        },
        _ => false,
    }
}

proof fn lemma_nodes_fail(
    inputs: Map<Seq<char>, Seq<usize>>,
    guess: bool,
    data: Seq<Option<Seq<usize>>>,
    id: int,
    nodes: Seq<Node>,
    m: nat,
    n: nat,
)
    requires
        m <= n,
        after_nodes(inputs, guess, data, id, nodes, m) is None,
    ensures
        after_nodes(inputs, guess, data, id, nodes, n) is None,
    decreases n,
{
    if m < n {
        lemma_nodes_fail(inputs, guess, data, id, nodes, m, (n - 1) as nat);
    }
}

proof fn lemma_classes_fail(
    inputs: Map<Seq<char>, Seq<usize>>,
    guess: bool,
    data: Seq<Option<Seq<usize>>>,
    graph: Seq<Seq<Node>>,
    m: nat,
    n: nat,
)
    requires
        m <= n,
        after_classes(inputs, guess, data, graph, m) is None,
    ensures
        after_classes(inputs, guess, data, graph, n) is None,
    decreases n,
{
    if m < n {
        lemma_classes_fail(inputs, guess, data, graph, m, (n - 1) as nat);
    }
}

proof fn lemma_rounds_fail(
    inputs: Map<Seq<char>, Seq<usize>>,
    guess: bool,
    data: Seq<Option<Seq<usize>>>,
    graph: Seq<Seq<Node>>,
    m: nat,
    n: nat,
)
    requires
        m <= n,
        after_rounds(inputs, guess, data, graph, m) is None,
    ensures
        after_rounds(inputs, guess, data, graph, n) is None,
    decreases n,
{
    if m < n {
        lemma_rounds_fail(inputs, guess, data, graph, m, (n - 1) as nat);
    }
}

proof fn lemma_rounds_stay(
    inputs: Map<Seq<char>, Seq<usize>>,
    guess: bool,
    data: Seq<Option<Seq<usize>>>,
    graph: Seq<Seq<Node>>,
    m: nat,
    n: nat,
)
    requires
        m <= n,
        after_rounds(inputs, guess, data, graph, m) is Some,
        after_rounds(inputs, guess, data, graph, m + 1) == after_rounds(
            inputs,
            guess,
            data,
            graph,
            m,
        ),
    ensures
        after_rounds(inputs, guess, data, graph, n) == after_rounds(inputs, guess, data, graph, m),
    decreases n,
{
    if m < n {
        lemma_rounds_stay(inputs, guess, data, graph, m, (n - 1) as nat);
    }
}

// ---- The shaped e-graph ----

/// An e-graph whose e-classes have shapes.
#[derive(Debug)]
pub struct EGraph {
    /// The nodes of each e-class, by id.
    pub nodes: Vec<Vec<TensorLang>>,
    /// The shape of each e-class, where it is known.
    pub data: Vec<Option<Vec<usize>>>,
}

impl EGraph {
    pub open spec fn graph(self) -> Seq<Seq<Node>> {
        graph_views(self.nodes@)
    }

    pub open spec fn shapes(self) -> Seq<Option<Seq<usize>>> {
        shape_views(self.data@)
    }

    pub open spec fn well_formed(self) -> bool {
        &&& self.nodes@.len() == self.data@.len()
        &&& graph_closed(self.graph())
    }

    /// The shape of e-class `id`, where it is known.
    pub fn shape(&self, id: usize) -> (shape: Option<&Vec<usize>>)
        requires
            id < self.data@.len(),
        ensures
            match shape {
                Some(s) => self.shapes()[id as int] == Some(s@),
                None => self.shapes()[id as int] is None,
            },
    {
        match &self.data[id] {
            Some(s) => Some(s),
            None => None,
        }
    }
}

// ---- Laws of propagation ----

/// Whether `later` still knows everything that `earlier` knew.
pub open spec fn keeps(earlier: Seq<Option<Seq<usize>>>, later: Seq<Option<Seq<usize>>>) -> bool {
    &&& earlier.len() == later.len()
    &&& forall|i: int|
        0 <= i < earlier.len() && (#[trigger] earlier[i]) is Some ==> later[i] == earlier[i]
}

proof fn lemma_keeps_antisymmetric(a: Seq<Option<Seq<usize>>>, b: Seq<Option<Seq<usize>>>)
    requires
        keeps(a, b),
        keeps(b, a),
    ensures
        a == b,
{
    assert forall|i: int| 0 <= i < a.len() implies #[trigger] a[i] == b[i] by {
        if b[i] is Some {
            assert(a[i] == b[i]);
        }
    }
    assert(a =~= b);
}

proof fn lemma_nodes_keep(
    inputs: Map<Seq<char>, Seq<usize>>,
    guess: bool,
    data: Seq<Option<Seq<usize>>>,
    id: int,
    nodes: Seq<Node>,
    m: nat,
    n: nat,
)
    requires
        m <= n,
        0 <= id < data.len(),
    ensures
        after_nodes(inputs, guess, data, id, nodes, n) matches Some(d) ==> {
            &&& d.len() == data.len()
            &&& after_nodes(inputs, guess, data, id, nodes, m) matches Some(e)
            &&& keeps(e, d)
        },
    decreases n,
{
    if m < n {
        lemma_nodes_keep(inputs, guess, data, id, nodes, m, (n - 1) as nat);
    } else if n > 0 {
        lemma_nodes_keep(inputs, guess, data, id, nodes, (n - 1) as nat, (n - 1) as nat);
    }
}

proof fn lemma_classes_keep(
    inputs: Map<Seq<char>, Seq<usize>>,
    guess: bool,
    data: Seq<Option<Seq<usize>>>,
    graph: Seq<Seq<Node>>,
    m: nat,
    n: nat,
)
    requires
        m <= n <= graph.len(),
        data.len() == graph.len(),
    ensures
        after_classes(inputs, guess, data, graph, n) matches Some(d) ==> {
            &&& d.len() == data.len()
            &&& after_classes(inputs, guess, data, graph, m) matches Some(e)
            &&& keeps(e, d)
        },
    decreases n,
{
    if n > 0 {
        let k = (n - 1) as nat;
        lemma_classes_keep(
            inputs,
            guess,
            data,
            graph,
            if m < n {
                m
            } else {
                k
            },
            k,
        );
        if let Some(e) = after_classes(inputs, guess, data, graph, k) {
            lemma_nodes_keep(inputs, guess, e, k as int, graph[k as int], 0, graph[k as int].len());
        }
    }
}

/// The number of known shapes.
spec fn known_count(data: Seq<Option<Seq<usize>>>) -> nat
    decreases data.len(),
{
    if data.len() == 0 {
        0
    } else {
        known_count(data.drop_last()) + (if data.last() is Some {
            1nat
        } else {
            0
        })
    }
}

proof fn lemma_known_count(a: Seq<Option<Seq<usize>>>, b: Seq<Option<Seq<usize>>>)
    requires
        keeps(a, b),
    ensures
        known_count(a) <= known_count(b) <= b.len(),
        a != b ==> known_count(a) < known_count(b),
    decreases a.len(),
{
    if a.len() > 0 {
        assert forall|i: int| 0 <= i < a.len() - 1 && (#[trigger] a.drop_last()[i]) is Some implies b.drop_last()[i]
            == a.drop_last()[i] by {
            assert(a[i] is Some);
        }
        lemma_known_count(a.drop_last(), b.drop_last());
        assert(a.last() is Some ==> b[a.len() - 1] == a[a.len() - 1]);
        if a != b {
            if a.drop_last() == b.drop_last() {
                assert(a =~= a.drop_last().push(a.last()));
                assert(b =~= b.drop_last().push(b.last()));
                assert(a.last() != b.last());
            }
        }
    } else {
        assert(a =~= b);
    }
}

proof fn lemma_rounds_learn(
    inputs: Map<Seq<char>, Seq<usize>>,
    guess: bool,
    data: Seq<Option<Seq<usize>>>,
    graph: Seq<Seq<Node>>,
    n: nat,
)
    requires
        data.len() == graph.len(),
    ensures
        after_rounds(inputs, guess, data, graph, n + 1) matches Some(e) ==> {
            &&& e.len() == data.len()
            &&& after_rounds(inputs, guess, data, graph, n) == Some(e) || known_count(e) >= n + 1
        },
        after_rounds(inputs, guess, data, graph, n) matches Some(d) ==> d.len() == data.len()
            && keeps(data, d),
    decreases n,
{
    if n > 0 {
        lemma_rounds_learn(inputs, guess, data, graph, (n - 1) as nat);
    }
    if let Some(d) = after_rounds(inputs, guess, data, graph, n) {
        if n > 0 {
            if let Some(c) = after_rounds(inputs, guess, data, graph, (n - 1) as nat) {
                lemma_classes_keep(inputs, guess, c, graph, 0, graph.len());
            }
        }
        if let Some(e) = after_classes(inputs, guess, d, graph, graph.len()) {
            lemma_classes_keep(inputs, guess, d, graph, 0, graph.len());
            lemma_known_count(d, e);
        }
    }
}

/// After as many rounds as there are e-classes, and one more, nothing more can be learned.
proof fn lemma_rounds_settle(
    inputs: Map<Seq<char>, Seq<usize>>,
    guess: bool,
    data: Seq<Option<Seq<usize>>>,
    graph: Seq<Seq<Node>>,
)
    requires
        data.len() == graph.len(),
    ensures
        after_rounds(inputs, guess, data, graph, graph.len() + 1) matches Some(d) ==> d.len()
            == graph.len() && after_classes(inputs, guess, d, graph, graph.len()) == Some(d),
{
    lemma_rounds_learn(inputs, guess, data, graph, graph.len());
    if let Some(d) = after_rounds(inputs, guess, data, graph, graph.len() + 1) {
        lemma_known_count(d, d);
    }
}

/// Where a round over the e-graph changes nothing, no look at a node does.
proof fn lemma_settled_node(
    inputs: Map<Seq<char>, Seq<usize>>,
    guess: bool,
    d: Seq<Option<Seq<usize>>>,
    graph: Seq<Seq<Node>>,
    id: int,
    i: int,
)
    requires
        d.len() == graph.len(),
        after_classes(inputs, guess, d, graph, graph.len()) == Some(d),
        0 <= id < graph.len(),
        0 <= i < graph[id].len(),
    ensures
        after_node(inputs, guess, d, id, graph[id][i]) == Some(d),
{
    lemma_classes_keep(inputs, guess, d, graph, id as nat, graph.len());
    lemma_classes_keep(inputs, guess, d, graph, 0, id as nat);
    let a = after_classes(inputs, guess, d, graph, id as nat).unwrap();
    lemma_keeps_antisymmetric(a, d);
    lemma_classes_keep(inputs, guess, d, graph, (id + 1) as nat, graph.len());
    lemma_classes_keep(inputs, guess, d, graph, 0, (id + 1) as nat);
    let b = after_classes(inputs, guess, d, graph, (id + 1) as nat).unwrap();
    lemma_keeps_antisymmetric(b, d);
    let nodes = graph[id];
    assert(after_nodes(inputs, guess, d, id, nodes, nodes.len()) == Some(d));
    lemma_nodes_keep(inputs, guess, d, id, nodes, i as nat, nodes.len());
    lemma_nodes_keep(inputs, guess, d, id, nodes, 0, i as nat);
    lemma_keeps_antisymmetric(after_nodes(inputs, guess, d, id, nodes, i as nat).unwrap(), d);
    lemma_nodes_keep(inputs, guess, d, id, nodes, (i + 1) as nat, nodes.len());
    lemma_nodes_keep(inputs, guess, d, id, nodes, 0, (i + 1) as nat);
    lemma_keeps_antisymmetric(
        after_nodes(inputs, guess, d, id, nodes, (i + 1) as nat).unwrap(),
        d,
    );
}

/// Propagation is complete and consistent: every e-class has the shape that its nodes have, all
/// nodes of a class agree on it, and no node has an operand with too few dimensions.
pub proof fn propagation_is_complete(
    inputs: Map<Seq<char>, Seq<usize>>,
    graph: Seq<Seq<Node>>,
    id: int,
    i: int,
)
    requires
        shapes_of(inputs, graph) is Some,
        0 <= id < graph.len(),
        0 <= i < graph[id].len(),
    ensures
        shapes_of(inputs, graph).unwrap().len() == graph.len(),
        made(inputs, shapes_of(inputs, graph).unwrap(), graph[id][i]) matches Some(m)
            && (m is Some ==> shapes_of(inputs, graph).unwrap()[id] == m),
{
    let certain = certain_shapes(inputs, graph).unwrap();
    lemma_rounds_settle(inputs, false, unknown(graph.len()), graph);
    lemma_rounds_settle(inputs, true, certain, graph);
    let d = shapes_of(inputs, graph).unwrap();
    lemma_settled_node(inputs, true, d, graph, id, i);
    let m = made(inputs, d, graph[id][i]).unwrap();
    assert(d.update(id, merged(d[id], m).unwrap())[id] == d[id]);
}

/// The shape of a node where the shapes of its operands are given by `shape`.
pub open spec fn node_shape(shape: spec_fn(int) -> Seq<usize>, node: Node) -> Seq<usize> {
    match node {
        Node::Var(_) => seq![],
        Node::MatMul(a, b) => seq![shape(a)[0], shape(b)[1]],
        Node::Transpose(a) => seq![shape(a)[1], shape(a)[0]],
        Node::EMul(a, b) => broadcast_shape(shape(a), shape(b)),
        Node::Softmax(a) | Node::Relu(a) | Node::Fuse(a) => shape(a),
    }
}

/// Whether `shape` gives each e-class one shape, and every node of the class has it.
pub open spec fn consistent(
    inputs: Map<Seq<char>, Seq<usize>>,
    graph: Seq<Seq<Node>>,
    shape: spec_fn(int) -> Seq<usize>,
) -> bool {
    forall|id: int, i: int|
        0 <= id < graph.len() && 0 <= i < graph[id].len() ==> match (#[trigger] graph[id][i]) {
            Node::Var(name) => inputs.dom().contains(name) ==> inputs[name] == shape(id),
            node => node_shape(shape, node) == shape(id),
        }
}

/// Whether the operands of matrix products and transposes are matrices.
pub open spec fn takes_matrices(
    graph: Seq<Seq<Node>>,
    shape: spec_fn(int) -> Seq<usize>,
) -> bool {
    forall|id: int, i: int|
        0 <= id < graph.len() && 0 <= i < graph[id].len() ==> match (#[trigger] graph[id][i]) {
            Node::MatMul(a, b) => shape(a).len() == 2 && shape(b).len() == 2,
            Node::Transpose(a) => shape(a).len() == 2,
            _ => true,
        }
}

/// Whether every known shape is the one that `shape` gives.
pub open spec fn agrees(
    data: Seq<Option<Seq<usize>>>,
    shape: spec_fn(int) -> Seq<usize>,
) -> bool {
    forall|id: int| 0 <= id < data.len() ==> (#[trigger] data[id] matches Some(s) ==> s == shape(id))
}

proof fn lemma_node_agrees(
    inputs: Map<Seq<char>, Seq<usize>>,
    guess: bool,
    data: Seq<Option<Seq<usize>>>,
    graph: Seq<Seq<Node>>,
    shape: spec_fn(int) -> Seq<usize>,
    id: int,
    i: int,
)
    requires
        data.len() == graph.len(),
        graph_closed(graph),
        consistent(inputs, graph, shape),
        agrees(data, shape),
        0 <= id < graph.len(),
        0 <= i < graph[id].len(),
        guess ==> !half_known(data, graph[id][i]),
    ensures
        after_node(inputs, guess, data, id, graph[id][i]) matches Some(d) ==> agrees(d, shape)
            && d.len() == data.len(),
        takes_matrices(graph, shape) ==> after_node(inputs, guess, data, id, graph[id][i]) is Some,
{
    let node = graph[id][i];
    assert(node.operands_below(graph.len() as int));
    let kids = node.children();
    if !half_known(data, node) {
        match node {
            Node::Var(_) => {},
            Node::MatMul(a, b) | Node::EMul(a, b) => {
                assert(kids[0] == a && kids[1] == b);
            },
            Node::Transpose(a) | Node::Softmax(a) | Node::Relu(a) | Node::Fuse(a) => {
                assert(kids[0] == a);
            },
        }
        if let Some(m) = made(inputs, data, node) {
            let d = data.update(id, merged(data[id], m).unwrap());
            if m is Some {
                match node {
                    Node::Var(name) => {},
                    _ => {
                        assert(node_shape(shape, node) == shape(id));
                        assert(m.unwrap() =~= node_shape(shape, node));
                    },
                }
            }
            assert forall|k: int| 0 <= k < d.len() implies (#[trigger] d[k] matches Some(s) ==> s
                == shape(k)) by {
                if k != id {
                    assert(d[k] == data[k]);
                }
            }
        }
    }
}

proof fn lemma_nodes_agree(
    inputs: Map<Seq<char>, Seq<usize>>,
    data: Seq<Option<Seq<usize>>>,
    graph: Seq<Seq<Node>>,
    shape: spec_fn(int) -> Seq<usize>,
    id: int,
    n: nat,
)
    requires
        data.len() == graph.len(),
        graph_closed(graph),
        consistent(inputs, graph, shape),
        agrees(data, shape),
        0 <= id < graph.len(),
        n <= graph[id].len(),
    ensures
        after_nodes(inputs, false, data, id, graph[id], n) matches Some(d) ==> agrees(d, shape)
            && d.len() == data.len(),
        takes_matrices(graph, shape) ==> after_nodes(inputs, false, data, id, graph[id], n) is Some,
    decreases n,
{
    if n > 0 {
        lemma_nodes_agree(inputs, data, graph, shape, id, (n - 1) as nat);
        if let Some(d) = after_nodes(inputs, false, data, id, graph[id], (n - 1) as nat) {
            lemma_node_agrees(inputs, false, d, graph, shape, id, n - 1);
        }
    }
}

proof fn lemma_classes_agree(
    inputs: Map<Seq<char>, Seq<usize>>,
    data: Seq<Option<Seq<usize>>>,
    graph: Seq<Seq<Node>>,
    shape: spec_fn(int) -> Seq<usize>,
    n: nat,
)
    requires
        data.len() == graph.len(),
        graph_closed(graph),
        consistent(inputs, graph, shape),
        agrees(data, shape),
        n <= graph.len(),
    ensures
        after_classes(inputs, false, data, graph, n) matches Some(d) ==> agrees(d, shape)
            && d.len() == data.len(),
        takes_matrices(graph, shape) ==> after_classes(inputs, false, data, graph, n) is Some,
    decreases n,
{
    if n > 0 {
        lemma_classes_agree(inputs, data, graph, shape, (n - 1) as nat);
        if let Some(d) = after_classes(inputs, false, data, graph, (n - 1) as nat) {
            lemma_nodes_agree(inputs, d, graph, shape, n - 1, graph[n - 1].len());
        }
    }
}

proof fn lemma_rounds_agree(
    inputs: Map<Seq<char>, Seq<usize>>,
    data: Seq<Option<Seq<usize>>>,
    graph: Seq<Seq<Node>>,
    shape: spec_fn(int) -> Seq<usize>,
    n: nat,
)
    requires
        data.len() == graph.len(),
        graph_closed(graph),
        consistent(inputs, graph, shape),
        agrees(data, shape),
    ensures
        after_rounds(inputs, false, data, graph, n) matches Some(d) ==> agrees(d, shape)
            && d.len() == data.len(),
        takes_matrices(graph, shape) ==> after_rounds(inputs, false, data, graph, n) is Some,
    decreases n,
{
    if n > 0 {
        lemma_rounds_agree(inputs, data, graph, shape, (n - 1) as nat);
        if let Some(d) = after_rounds(inputs, false, data, graph, (n - 1) as nat) {
            lemma_classes_agree(inputs, d, graph, shape, graph.len());
        }
    }
}

/// Where all nodes of every e-class agree on its shape, and matrix products and transposes are of
/// matrices, propagation does not fail.
pub proof fn consistent_shapes_propagate(
    inputs: Map<Seq<char>, Seq<usize>>,
    graph: Seq<Seq<Node>>,
    shape: spec_fn(int) -> Seq<usize>,
)
    requires
        graph_closed(graph),
        consistent(inputs, graph, shape),
        takes_matrices(graph, shape),
    ensures
        certain_shapes(inputs, graph) matches Some(d) && d.len() == graph.len(),
{
    lemma_rounds_agree(inputs, unknown(graph.len()), graph, shape, graph.len() + 1);
}

/// Whether the shapes of all operands of a node are known, or of an input that of the input.
pub open spec fn operands_known(
    inputs: Map<Seq<char>, Seq<usize>>,
    data: Seq<Option<Seq<usize>>>,
    node: Node,
) -> bool {
    match node {
        Node::Var(name) => inputs.dom().contains(name),
        Node::MatMul(a, b) | Node::EMul(a, b) => data[a] is Some && data[b] is Some,
        Node::Transpose(a) | Node::Softmax(a) | Node::Relu(a) | Node::Fuse(a) => data[a] is Some,
    }
}

/// Propagation goes through every node whose operands have certain shapes.
pub proof fn certain_shapes_spread(
    inputs: Map<Seq<char>, Seq<usize>>,
    graph: Seq<Seq<Node>>,
    id: int,
    i: int,
)
    requires
        0 <= id < graph.len(),
        0 <= i < graph[id].len(),
        certain_shapes(inputs, graph) matches Some(d) && operands_known(inputs, d, graph[id][i]),
    ensures
        certain_shapes(inputs, graph).unwrap()[id] is Some,
{
    let d = certain_shapes(inputs, graph).unwrap();
    lemma_rounds_settle(inputs, false, unknown(graph.len()), graph);
    lemma_settled_node(inputs, false, d, graph, id, i);
    let m = made(inputs, d, graph[id][i]).unwrap();
    assert(d.update(id, merged(d[id], m).unwrap())[id] == d[id]);
}

/// Equivalent terms share a shape: where all nodes of every e-class agree on its shape, the
/// certain shapes are those.
pub proof fn certain_shapes_agree(
    inputs: Map<Seq<char>, Seq<usize>>,
    graph: Seq<Seq<Node>>,
    shape: spec_fn(int) -> Seq<usize>,
)
    requires
        graph_closed(graph),
        consistent(inputs, graph, shape),
        certain_shapes(inputs, graph) is Some,
    ensures
        agrees(certain_shapes(inputs, graph).unwrap(), shape),
{
    lemma_rounds_agree(inputs, unknown(graph.len()), graph, shape, graph.len() + 1);
}

/// Where both operands of every product have a certain shape, propagation ends with the certain
/// shapes.
pub proof fn certain_shapes_suffice(inputs: Map<Seq<char>, Seq<usize>>, graph: Seq<Seq<Node>>)
    requires
        certain_shapes(inputs, graph) is Some,
        forall|id: int, i: int|
            0 <= id < graph.len() && 0 <= i < graph[id].len() ==> !half_known(
                certain_shapes(inputs, graph).unwrap(),
                #[trigger] graph[id][i],
            ),
    ensures
        shapes_of(inputs, graph) == certain_shapes(inputs, graph),
{
    let d = certain_shapes(inputs, graph).unwrap();
    lemma_rounds_settle(inputs, false, unknown(graph.len()), graph);
    lemma_guess_idle(inputs, d, graph, graph.len());
    reveal_with_fuel(after_rounds, 2);
    lemma_rounds_stay(inputs, true, d, graph, 0, graph.len() + 1);
}

proof fn lemma_guess_idle(
    inputs: Map<Seq<char>, Seq<usize>>,
    d: Seq<Option<Seq<usize>>>,
    graph: Seq<Seq<Node>>,
    n: nat,
)
    requires
        d.len() == graph.len(),
        n <= graph.len(),
        after_classes(inputs, false, d, graph, graph.len()) == Some(d),
        forall|id: int, i: int|
            0 <= id < graph.len() && 0 <= i < graph[id].len() ==> !half_known(
                d,
                #[trigger] graph[id][i],
            ),
    ensures
        after_classes(inputs, true, d, graph, n) == Some(d),
    decreases n,
{
    if n > 0 {
        lemma_guess_idle(inputs, d, graph, (n - 1) as nat);
        lemma_guess_idle_nodes(inputs, d, graph, n - 1, graph[n - 1].len());
    }
}

proof fn lemma_guess_idle_nodes(
    inputs: Map<Seq<char>, Seq<usize>>,
    d: Seq<Option<Seq<usize>>>,
    graph: Seq<Seq<Node>>,
    id: int,
    n: nat,
)
    requires
        d.len() == graph.len(),
        0 <= id < graph.len(),
        n <= graph[id].len(),
        after_classes(inputs, false, d, graph, graph.len()) == Some(d),
        forall|id: int, i: int|
            0 <= id < graph.len() && 0 <= i < graph[id].len() ==> !half_known(
                d,
                #[trigger] graph[id][i],
            ),
    ensures
        after_nodes(inputs, true, d, id, graph[id], n) == Some(d),
    decreases n,
{
    if n > 0 {
        lemma_guess_idle_nodes(inputs, d, graph, id, (n - 1) as nat);
        lemma_settled_node(inputs, false, d, graph, id, n - 1);
        assert(!half_known(d, graph[id][n - 1]));
    }
}

} // verus!