//! What the accountant books for each operator, and what fusion makes of it.
use crate::account::{
    account_of, accounts_know_the_shape, empty_region, fused_inputs_are_read_once, inputs_used,
    leaf_bytes, lemma_leaf_bytes_of_set, lemma_leaves_used, lemma_region_shape, region, tally,
    Region,
};
use crate::ir::{inferred_shape, lemma_numel_matrix, lemma_numel_one, numel, Node};
use crate::kernel_laws::softmax_axes_filled;
use vstd::prelude::*;

verus! {

/// The larger of two numbers.
pub open spec fn more(a: nat, b: nat) -> nat {
    if a < b {
        b
    } else {
        a
    }
}

/// What an operator asks for beyond its operands. A matrix product takes a multiplication and an
/// addition for each row, column and inner position; an elementwise product and a relu take one
/// flop for each element of the result, and a softmax four; a transpose takes none. Each writes its
/// result out, at four bytes an element. Nothing takes SRAM but what is fused.
pub proof fn operators_book_their_work(
    nodes: Seq<Node>,
    shapes: Map<Seq<char>, Seq<usize>>,
    root: int,
)
    requires
        softmax_axes_filled(nodes, shapes),
        inferred_shape(nodes, shapes, root) is Some,
    ensures
        tally(nodes, shapes, root) matches Some(t) && {
            let out = inferred_shape(nodes, shapes, root).unwrap();
            &&& t.shape == out
            &&& match nodes[root] {
                Node::Var(name) => {
                    &&& t.flops == 0
                    &&& t.hbm == 4 * numel(shapes[name])
                    &&& t.sram == 0
                },
                Node::MatMul(a, b) => {
                    let (ta, tb) = (tally(nodes, shapes, a), tally(nodes, shapes, b));
                    let (sa, sb) = (
                        inferred_shape(nodes, shapes, a).unwrap(),
                        inferred_shape(nodes, shapes, b).unwrap(),
                    );
                    &&& ta is Some && tb is Some
                    &&& t.flops - ta.unwrap().flops - tb.unwrap().flops == 2 * (sa[0] * sa[1]
                        * sb[1])
                    &&& t.hbm - ta.unwrap().hbm - tb.unwrap().hbm == 4 * (sa[0] * sb[1])
                    &&& t.sram == more(ta.unwrap().sram, tb.unwrap().sram)
                },
                Node::EMul(a, b) => {
                    let (ta, tb) = (tally(nodes, shapes, a), tally(nodes, shapes, b));
                    &&& ta is Some && tb is Some
                    &&& t.flops - ta.unwrap().flops - tb.unwrap().flops == numel(out)
                    &&& t.hbm - ta.unwrap().hbm - tb.unwrap().hbm == 4 * numel(out)
                    &&& t.sram == more(ta.unwrap().sram, tb.unwrap().sram)
                },
                Node::Transpose(a) => {
                    let ta = tally(nodes, shapes, a);
                    &&& ta is Some
                    &&& t.flops == ta.unwrap().flops
                    &&& t.hbm - ta.unwrap().hbm == 4 * (out[0] * out[1])
                    &&& t.sram == ta.unwrap().sram
                },
                Node::Softmax(a) => {
                    let ta = tally(nodes, shapes, a);
                    &&& ta is Some
                    &&& t.flops - ta.unwrap().flops == 4 * numel(out)
                    &&& t.hbm - ta.unwrap().hbm == 4 * numel(out)
                    &&& t.sram == ta.unwrap().sram
                },
                Node::Relu(a) => {
                    let ta = tally(nodes, shapes, a);
                    &&& ta is Some
                    &&& t.flops - ta.unwrap().flops == numel(out)
                    &&& t.hbm - ta.unwrap().hbm == 4 * numel(out)
                    &&& t.sram == ta.unwrap().sram
                },
                Node::Fuse(_) => true,
            }
        },
{
    accounts_know_the_shape(nodes, shapes, root);
    match nodes[root] {
        Node::Var(_) => {},
        Node::MatMul(a, b) => {
            accounts_know_the_shape(nodes, shapes, a);
            accounts_know_the_shape(nodes, shapes, b);
            let (sa, sb) = (
                inferred_shape(nodes, shapes, a).unwrap(),
                inferred_shape(nodes, shapes, b).unwrap(),
            );
            lemma_numel_matrix(sa[0], sb[1]);
        },
        Node::EMul(a, b) => {
            accounts_know_the_shape(nodes, shapes, a);
            accounts_know_the_shape(nodes, shapes, b);
        },
        Node::Transpose(a) => {
            accounts_know_the_shape(nodes, shapes, a);
            let sa = inferred_shape(nodes, shapes, a).unwrap();
            lemma_numel_matrix(sa[1], sa[0]);
        },
        Node::Softmax(a) | Node::Relu(a) | Node::Fuse(a) => {
            if !(nodes[root] is Fuse) {
                accounts_know_the_shape(nodes, shapes, a);
            }
        },
    }
}

/// It does not matter which operand of an elementwise product broadcasts: where one of them has one
/// element, the product takes as many flops and bytes either way round.
pub proof fn broadcasts_cost_the_same_either_way(
    nodes: Seq<Node>,
    other: Seq<Node>,
    shapes: Map<Seq<char>, Seq<usize>>,
    root: int,
    a: int,
    b: int,
)
    requires
        softmax_axes_filled(nodes, shapes),
        softmax_axes_filled(other, shapes),
        nodes[root] == Node::EMul(a, b),
        other[root] == Node::EMul(b, a),
        inferred_shape(nodes, shapes, root) is Some,
        inferred_shape(other, shapes, root) is Some,
        inferred_shape(nodes, shapes, a) == inferred_shape(other, shapes, a),
        inferred_shape(nodes, shapes, b) == inferred_shape(other, shapes, b),
        tally(nodes, shapes, a) == tally(other, shapes, a),
        tally(nodes, shapes, b) == tally(other, shapes, b),
    ensures
        ({
            let (s, t) = (tally(nodes, shapes, root), tally(other, shapes, root));
            &&& s is Some && t is Some
            &&& s.unwrap().flops == t.unwrap().flops
            &&& s.unwrap().hbm == t.unwrap().hbm
        }),
{
    operators_book_their_work(nodes, shapes, root);
    operators_book_their_work(other, shapes, root);
    lemma_numel_one(seq![1usize]);
}

/// An account is what the operators booked, where 64 bits hold all of it, and there is none where
/// they do not.
pub proof fn accounts_are_what_was_booked(
    nodes: Seq<Node>,
    shapes: Map<Seq<char>, Seq<usize>>,
    root: int,
)
    requires
        tally(nodes, shapes, root) is Some,
    ensures
        ({
            let t = tally(nodes, shapes, root).unwrap();
            &&& account_of(nodes, shapes, root) is Some <==> t.flops < 0x1_0000_0000_0000_0000
                && t.hbm < 0x1_0000_0000_0000_0000 && t.sram < 0x1_0000_0000_0000_0000
            &&& account_of(nodes, shapes, root) matches Some(a) ==> a.flops == t.flops
                && a.hbm_bytes == t.hbm && a.sram_bytes == t.sram
        }),
{
}

// ---- Fused regions ----

/// The bytes of the inputs of these names, at four for each element.
pub open spec fn bytes_of(names: Seq<Seq<char>>, shapes: Map<Seq<char>, Seq<usize>>) -> nat {
    names.fold_left(0nat, |sum: nat, name: Seq<char>| sum + 4 * numel(shapes[name]))
}

/// The names of the inputs that node `root` reads, one for each time that it reads one.
pub open spec fn reads(nodes: Seq<Node>, root: int) -> Seq<Seq<char>>
    decreases root,
{
    if root < 0 || root >= nodes.len() {
        seq![]
    } else {
        match nodes[root] {
            Node::Var(name) => seq![name],
            Node::MatMul(a, b) | Node::EMul(a, b) => if 0 <= a < root && 0 <= b < root {
                reads(nodes, a) + reads(nodes, b)
            } else {
                seq![]
            },
            Node::Transpose(a) | Node::Softmax(a) | Node::Relu(a) | Node::Fuse(a) => if 0 <= a
                < root {
                reads(nodes, a)
            } else {
                seq![]
            },
        }
    }
}

/// The bytes of all results of operators that node `root` is computed with, its own among them.
pub open spec fn bytes_made(
    nodes: Seq<Node>,
    shapes: Map<Seq<char>, Seq<usize>>,
    root: int,
) -> nat
    decreases root,
{
    let own = 4 * numel(inferred_shape(nodes, shapes, root).unwrap());
    if root < 0 || root >= nodes.len() {
        0
    } else {
        match nodes[root] {
            Node::Var(_) => 0,
            Node::MatMul(a, b) | Node::EMul(a, b) => if 0 <= a < root && 0 <= b < root {
                bytes_made(nodes, shapes, a) + bytes_made(nodes, shapes, b) + own
            } else {
                0
            },
            Node::Transpose(a) | Node::Softmax(a) | Node::Relu(a) => if 0 <= a < root {
                bytes_made(nodes, shapes, a) + own
            } else {
                0
            },
            Node::Fuse(a) => if 0 <= a < root {
                bytes_made(nodes, shapes, a)
            } else {
                0
            },
        }
    }
}

proof fn lemma_bytes_of(names: Seq<Seq<char>>, shapes: Map<Seq<char>, Seq<usize>>)
    ensures
        leaf_bytes(names, shapes) == bytes_of(names, shapes),
    decreases names.len(),
{
    if names.len() > 0 {
        lemma_bytes_of(names.drop_last(), shapes);
    }
}

proof fn lemma_bytes_of_both(
    a: Seq<Seq<char>>,
    b: Seq<Seq<char>>,
    shapes: Map<Seq<char>, Seq<usize>>,
)
    ensures
        bytes_of(a + b, shapes) == bytes_of(a, shapes) + bytes_of(b, shapes),
    decreases b.len(),
{
    if b.len() == 0 {
        assert(a + b =~= a);
    } else {
        lemma_bytes_of_both(a, b.drop_last(), shapes);
        assert((a + b).drop_last() =~= a + b.drop_last());
        assert((a + b).last() == b.last());
    }
}

proof fn lemma_region_makes(
    nodes: Seq<Node>,
    shapes: Map<Seq<char>, Seq<usize>>,
    root: int,
    start: Region,
)
    requires
        inferred_shape(nodes, shapes, root) is Some,
    ensures
        region(nodes, shapes, root, start) matches Some(r) && r.inter == start.inter + bytes_made(
            nodes,
            shapes,
            root,
        ),
    decreases root,
{
    lemma_region_shape(nodes, shapes, root, start);
    match nodes[root] {
        Node::Var(_) => {},
        Node::MatMul(a, b) | Node::EMul(a, b) => {
            lemma_region_makes(nodes, shapes, a, start);
            lemma_region_makes(nodes, shapes, b, region(nodes, shapes, a, start).unwrap());
        },
        Node::Transpose(a) | Node::Softmax(a) | Node::Relu(a) | Node::Fuse(a) => {
            lemma_region_makes(nodes, shapes, a, start);
        },
    }
}

/// Whether node `root` is computed by an operator, behind whatever is fused.
pub open spec fn computes(nodes: Seq<Node>, root: int) -> bool
    decreases root,
{
    0 <= root < nodes.len() && match nodes[root] {
        Node::Var(_) => false,
        Node::Fuse(a) => 0 <= a < root && computes(nodes, a),
        _ => true,
    }
}

proof fn lemma_makes_output(nodes: Seq<Node>, shapes: Map<Seq<char>, Seq<usize>>, root: int)
    requires
        inferred_shape(nodes, shapes, root) is Some,
    ensures
        computes(nodes, root) ==> bytes_made(nodes, shapes, root) >= 4 * numel(
            inferred_shape(nodes, shapes, root).unwrap(),
        ),
        !computes(nodes, root) ==> bytes_made(nodes, shapes, root) == 0,
    decreases root,
{
    if let Node::Fuse(a) = nodes[root] {
        lemma_makes_output(nodes, shapes, a);
    }
}

/// A fused region moves each input that it is computed from once, whatever the order in which they
/// are named, and its result. All that it computes with is held in SRAM at once: those inputs, and
/// every result of an operator, the last of which is the result of the region. A region that only
/// hands on an input holds it and its copy.
pub proof fn fused_regions_move_their_ends_and_hold_the_rest(
    nodes: Seq<Node>,
    shapes: Map<Seq<char>, Seq<usize>>,
    root: int,
    a: int,
    names: Seq<Seq<char>>,
)
    requires
        0 <= root < nodes.len(),
        nodes[root] == Node::Fuse(a),
        0 <= a < root,
        inferred_shape(nodes, shapes, a) is Some,
        names.no_duplicates(),
        names.to_set() == inputs_used(nodes, a),
    ensures
        tally(nodes, shapes, root) matches Some(t) && {
            let out = inferred_shape(nodes, shapes, a).unwrap();
            &&& t.shape == out
            &&& t.hbm == bytes_of(names, shapes) + 4 * numel(out)
            &&& computes(nodes, a) ==> t.sram == bytes_of(names, shapes) + bytes_made(
                nodes,
                shapes,
                a,
            )
            &&& !computes(nodes, a) ==> t.sram == t.hbm
        },
{
    lemma_region_shape(nodes, shapes, a, empty_region());
    lemma_region_makes(nodes, shapes, a, empty_region());
    lemma_makes_output(nodes, shapes, a);
    fused_inputs_are_read_once(nodes, shapes, a);
    lemma_leaves_used(nodes, shapes, a, empty_region());
    let leaves = region(nodes, shapes, a, empty_region()).unwrap().leaves;
    assert(leaves.to_set() =~= names.to_set());
    lemma_leaf_bytes_of_set(leaves, names, shapes);
    lemma_bytes_of(names, shapes);
}

/// A program without fused regions moves every input each time that it reads it, and every result
/// of an operator once.
pub proof fn plain_programs_move_what_they_read_and_make(
    nodes: Seq<Node>,
    shapes: Map<Seq<char>, Seq<usize>>,
    root: int,
)
    requires
        softmax_axes_filled(nodes, shapes),
        inferred_shape(nodes, shapes, root) is Some,
        forall|i: int| 0 <= i < nodes.len() ==> !((#[trigger] nodes[i]) is Fuse),
    ensures
        tally(nodes, shapes, root) matches Some(t) && t.hbm == bytes_of(
            reads(nodes, root),
            shapes,
        ) + bytes_made(nodes, shapes, root),
    decreases root,
{
    operators_book_their_work(nodes, shapes, root);
    match nodes[root] {
        Node::Var(name) => {
            lemma_bytes_of(seq![name], shapes);
            assert(seq![name].drop_last() =~= Seq::<Seq<char>>::empty());
            assert(leaf_bytes(seq![name].drop_last(), shapes) == 0);
        },
        Node::MatMul(a, b) => {
            plain_programs_move_what_they_read_and_make(nodes, shapes, a);
            plain_programs_move_what_they_read_and_make(nodes, shapes, b);
            let (x, y) = (reads(nodes, a), reads(nodes, b));
            assert(reads(nodes, root) == x + y);
            lemma_bytes_of_both(x, y, shapes);
            let (sa, sb) = (
                inferred_shape(nodes, shapes, a).unwrap(),
                inferred_shape(nodes, shapes, b).unwrap(),
            );
            lemma_numel_matrix(sa[0], sb[1]);
        },
        Node::EMul(a, b) => {
            plain_programs_move_what_they_read_and_make(nodes, shapes, a);
            plain_programs_move_what_they_read_and_make(nodes, shapes, b);
            let (x, y) = (reads(nodes, a), reads(nodes, b));
            assert(reads(nodes, root) == x + y);
            lemma_bytes_of_both(x, y, shapes);
        },
        Node::Transpose(a) => {
            plain_programs_move_what_they_read_and_make(nodes, shapes, a);
            assert(reads(nodes, root) == reads(nodes, a));
            let sa = inferred_shape(nodes, shapes, a).unwrap();
            lemma_numel_matrix(sa[1], sa[0]);
        },
        Node::Softmax(a) => {
            plain_programs_move_what_they_read_and_make(nodes, shapes, a);
            assert(reads(nodes, root) == reads(nodes, a));
        },
        Node::Relu(a) => {
            plain_programs_move_what_they_read_and_make(nodes, shapes, a);
            assert(reads(nodes, root) == reads(nodes, a));
        },
        Node::Fuse(_) => {},
    }
}

/// What is read at all is what is read at least once.
pub proof fn inputs_used_are_those_read(nodes: Seq<Node>, root: int)
    ensures
        reads(nodes, root).to_set() == inputs_used(nodes, root),
    decreases root,
{
    if 0 <= root < nodes.len() {
        match nodes[root] {
            Node::Var(name) => {
                assert(seq![name][0] == name);
            },
            Node::MatMul(a, b) | Node::EMul(a, b) => {
                if 0 <= a < root && 0 <= b < root {
                    inputs_used_are_those_read(nodes, a);
                    inputs_used_are_those_read(nodes, b);
                    let (x, y) = (reads(nodes, a), reads(nodes, b));
                    assert forall|n: Seq<char>| (x + y).contains(n) <==> x.contains(n)
                        || y.contains(n) by {
                        if x.contains(n) {
                            let i = choose|i: int| 0 <= i < x.len() && x[i] == n;
                            assert((x + y)[i] == n);
                        }
                        if y.contains(n) {
                            let i = choose|i: int| 0 <= i < y.len() && y[i] == n;
                            assert((x + y)[x.len() + i] == n);
                        }
                    }
                }
            },
            Node::Transpose(a) | Node::Softmax(a) | Node::Relu(a) | Node::Fuse(a) => {
                if 0 <= a < root {
                    inputs_used_are_those_read(nodes, a);
                }
            },
        }
    }
    assert(reads(nodes, root).to_set() =~= inputs_used(nodes, root));
}

} // verus!
