//! The cost accountant: the flops, the HBM traffic and the SRAM working set of a program.
//!
//! Every intermediate is materialised to HBM, and inputs count as read from HBM, except inside a
//! fused region: there only the distinct inputs and the final output touch HBM.
use crate::capped::{cap, cap_add, cap_mul, capped_numel, lemma_cap_mul, CAP};
use crate::ir::{
    attention_nodes, broadcast_shape, dims, inferred_shape, lemma_numel_matrix, mlp_nodes, numel,
    takes_right, Id, Node, Program, Shapes, TensorLang,
};
use crate::kernel_laws::softmax_axes_filled;
use crate::text::same_text;
use vstd::prelude::*;

verus! {

/// What a program asks of the machine.
#[derive(Clone, Copy, Debug, PartialEq, Eq, Structural)]
pub struct Account {
    pub flops: u64,
    pub hbm_bytes: u64,
    /// Peak SRAM working set demanded by any fused region: its boundary inputs, its final output,
    /// and every internal intermediate, all resident at once. Zero for plans with no fuse node.
    pub sram_bytes: u64,
}

impl Default for Account {
    fn default() -> (account: Self)
        ensures
            account == (Account { flops: 0, hbm_bytes: 0, sram_bytes: 0 }),
    {
        Account { flops: 0, hbm_bytes: 0, sram_bytes: 0 }
    }
}

/// The bytes of a tensor of 32-bit elements.
pub open spec fn tensor_bytes(shape: Seq<usize>) -> nat {
    numel(shape) * 4
}

/// What the walk over a fused region gathers.
pub struct Region {
    pub shape: Seq<usize>,
    pub flops: nat,
    /// The bytes of every tensor that an operator of the region computes.
    pub inter: nat,
    /// The names of the inputs, each once.
    pub leaves: Seq<Seq<char>>,
}

/// The names of `leaves`, and `name` if it is not among them.
pub open spec fn with_leaf(leaves: Seq<Seq<char>>, name: Seq<char>) -> Seq<Seq<char>> {
    if leaves.contains(name) {
        leaves
    } else {
        leaves.push(name)
    }
}

/// `r`, then an operator that takes `flops` and yields a tensor of shape `shape`.
pub open spec fn region_step(r: Region, shape: Seq<usize>, flops: nat) -> Region {
    Region {
        shape,
        flops: r.flops + flops,
        inter: r.inter + tensor_bytes(shape),
        leaves: r.leaves,
    }
}

/// The flops of a matrix product.
pub open spec fn matmul_flops(a: Seq<usize>, b: Seq<usize>) -> nat {
    2 * (a[0] as nat * a[1] as nat * b[1] as nat)
}

/// The walk over the region that computes node `root`, when `start` has been gathered already.
/// `None` where an input has no shape or an operand has too few dimensions.
pub open spec fn region(
    nodes: Seq<Node>,
    shapes: Map<Seq<char>, Seq<usize>>,
    root: int,
    start: Region,
) -> Option<Region>
    decreases root,
{
    if root < 0 || root >= nodes.len() {
        None
    } else {
        match nodes[root] {
            Node::Var(name) => if shapes.dom().contains(name) {
                Some(
                    Region {
                        shape: shapes[name],
                        leaves: with_leaf(start.leaves, name),
                        ..start
                    },
                )
            } else {
                None
            },
            Node::MatMul(a, b) => if 0 <= a < root && 0 <= b < root {
                match region(nodes, shapes, a, start) {
                    Some(ra) => match region(nodes, shapes, b, ra) {
                        Some(rb) => if ra.shape.len() >= 2 && rb.shape.len() >= 2 {
                            Some(
                                region_step(
                                    rb,
                                    seq![ra.shape[0], rb.shape[1]],
                                    matmul_flops(ra.shape, rb.shape),
                                ),
                            )
                        } else {
                            None
                        },
                        None => None,
                    },
                    None => None,
                }
            } else {
                None
            },
            Node::Transpose(a) => if 0 <= a < root {
                match region(nodes, shapes, a, start) {
                    Some(ra) => if ra.shape.len() >= 2 {
                        Some(region_step(ra, seq![ra.shape[1], ra.shape[0]], 0))
                    } else {
                        None
                    },
                    None => None,
                }
            } else {
                None
            },
            Node::EMul(a, b) => if 0 <= a < root && 0 <= b < root {
                match region(nodes, shapes, a, start) {
                    Some(ra) => match region(nodes, shapes, b, ra) {
                        Some(rb) => {
                            let out = broadcast_shape(ra.shape, rb.shape);
                            Some(region_step(rb, out, numel(out)))
                        },
                        None => None,
                    },
                    None => None,
                }
            } else {
                None
            },
            Node::Softmax(a) => if 0 <= a < root {
                match region(nodes, shapes, a, start) {
                    Some(ra) => Some(region_step(ra, ra.shape, 4 * numel(ra.shape))),
                    None => None,
                }
            } else {
                None
            },
            Node::Relu(a) => if 0 <= a < root {
                match region(nodes, shapes, a, start) {
                    Some(ra) => Some(region_step(ra, ra.shape, numel(ra.shape))),
                    None => None,
                }
            } else {
                None
            },
            Node::Fuse(a) => if 0 <= a < root {
                region(nodes, shapes, a, start)
            } else {
                None
            },
        }
    }
}

/// The region before anything has been gathered.
pub open spec fn empty_region() -> Region {
    Region { shape: seq![], flops: 0, inter: 0, leaves: seq![] }
}

/// The bytes of the inputs named in `leaves`.
pub open spec fn leaf_bytes(
    leaves: Seq<Seq<char>>,
    shapes: Map<Seq<char>, Seq<usize>>,
) -> nat
    decreases leaves.len(),
{
    if leaves.len() == 0 {
        0
    } else {
        leaf_bytes(leaves.drop_last(), shapes) + tensor_bytes(shapes[leaves.last()])
    }
}

/// The account of a value: its shape, and what computing it asks of the machine.
pub struct Tally {
    pub shape: Seq<usize>,
    pub flops: nat,
    pub hbm: nat,
    pub sram: nat,
}

pub open spec fn larger(a: nat, b: nat) -> nat {
    if a >= b {
        a
    } else {
        b
    }
}

/// An operator with one materialised operand, which takes `flops` and writes out `shape`.
pub open spec fn after_one(t: Tally, shape: Seq<usize>, flops: nat) -> Tally {
    Tally { shape, flops: t.flops + flops, hbm: t.hbm + tensor_bytes(shape), sram: t.sram }
}

/// An operator with two materialised operands.
pub open spec fn after_two(ta: Tally, tb: Tally, shape: Seq<usize>, flops: nat) -> Tally {
    Tally {
        shape,
        flops: ta.flops + tb.flops + flops,
        hbm: ta.hbm + tb.hbm + tensor_bytes(shape),
        sram: larger(ta.sram, tb.sram),
    }
}

/// A fused region as a whole: the same flops, but HBM only for the distinct inputs and the output;
/// inputs, output and intermediates all live in SRAM at once.
pub open spec fn fused_tally(r: Region, shapes: Map<Seq<char>, Seq<usize>>) -> Tally {
    let leaf = leaf_bytes(r.leaves, shapes);
    let out = tensor_bytes(r.shape);
    let rest = if r.inter >= out {
        (r.inter - out) as nat
    } else {
        0
    };
    Tally { shape: r.shape, flops: r.flops, hbm: leaf + out, sram: leaf + out + rest }
}

/// The account of node `root`. `None` where an input has no shape, an operand has too few
/// dimensions, or a softmax has no last axis or one of extent zero.
pub open spec fn tally(
    nodes: Seq<Node>,
    shapes: Map<Seq<char>, Seq<usize>>,
    root: int,
) -> Option<Tally>
    decreases root,
{
    if root < 0 || root >= nodes.len() {
        None
    } else {
        match nodes[root] {
            Node::Var(name) => if shapes.dom().contains(name) {
                Some(
                    Tally {
                        shape: shapes[name],
                        flops: 0,
                        hbm: tensor_bytes(shapes[name]),
                        sram: 0,
                    },
                )
            } else {
                None
            },
            Node::MatMul(a, b) => if 0 <= a < root && 0 <= b < root {
                match (tally(nodes, shapes, a), tally(nodes, shapes, b)) {
                    (Some(ta), Some(tb)) => if ta.shape.len() >= 2 && tb.shape.len() >= 2 {
                        Some(
                            after_two(
                                ta,
                                tb,
                                seq![ta.shape[0], tb.shape[1]],
                                matmul_flops(ta.shape, tb.shape),
                            ),
                        )
                    } else {
                        None
                    },
                    _ => None,
                }
            } else {
                None
            },
            Node::Transpose(a) => if 0 <= a < root {
                match tally(nodes, shapes, a) {
                    Some(ta) => if ta.shape.len() >= 2 {
                        Some(after_one(ta, seq![ta.shape[1], ta.shape[0]], 0))
                    } else {
                        None
                    },
                    None => None,
                }
            } else {
                None
            },
            Node::EMul(a, b) => if 0 <= a < root && 0 <= b < root {
                match (tally(nodes, shapes, a), tally(nodes, shapes, b)) {
                    (Some(ta), Some(tb)) => {
                        let out = broadcast_shape(ta.shape, tb.shape);
                        Some(after_two(ta, tb, out, numel(out)))
                    },
                    _ => None,
                }
            } else {
                None
            },
            Node::Softmax(a) => if 0 <= a < root {
                match tally(nodes, shapes, a) {
                    Some(ta) => if ta.shape.len() >= 1 && ta.shape.last() != 0 {
                        Some(after_one(ta, ta.shape, 4 * numel(ta.shape)))
                    } else {
                        None
                    },
                    None => None,
                }
            } else {
                None
            },
            Node::Relu(a) => if 0 <= a < root {
                match tally(nodes, shapes, a) {
                    Some(ta) => Some(after_one(ta, ta.shape, numel(ta.shape))),
                    None => None,
                }
            } else {
                None
            },
            Node::Fuse(a) => if 0 <= a < root {
                match region(nodes, shapes, a, empty_region()) {
                    Some(r) => Some(fused_tally(r, shapes)),
                    None => None,
                }
            } else {
                None
            },
        }
    }
}

/// The account of node `root`, where it is defined and 64 bits hold its numbers.
pub open spec fn account_of(
    nodes: Seq<Node>,
    shapes: Map<Seq<char>, Seq<usize>>,
    root: int,
) -> Option<Account> {
    match tally(nodes, shapes, root) {
        Some(t) => if t.flops <= u64::MAX && t.hbm <= u64::MAX && t.sram <= u64::MAX {
            Some(
                Account {
                    flops: t.flops as u64,
                    hbm_bytes: t.hbm as u64,
                    sram_bytes: t.sram as u64,
                },
            )
        } else {
            None
        },
        None => None,
    }
}

// ---- The walks ----

/// Capped running totals of the walk over a fused region.
struct RegionTotals {
    flops: u128,
    inter: u128,
    leaves: Vec<String>,
}

spec fn leaf_names(leaves: Seq<String>) -> Seq<Seq<char>> {
    leaves.map_values(|l: String| l@)
}

impl RegionTotals {
    /// Whether the totals are those of `r`.
    spec fn stand_for(self, r: Region) -> bool {
        &&& self.flops == cap(r.flops)
        &&& self.inter == cap(r.inter)
        &&& leaf_names(self.leaves@) == r.leaves
    }
}

/// Four times the number of elements, capped.
fn capped_bytes(shape: &Vec<usize>) -> (bytes: u128)
    ensures
        bytes == cap(tensor_bytes(shape@)),
        bytes <= CAP,
{
    proof {
        lemma_cap_mul(numel(shape@), 4);
    }
    cap_mul(capped_numel(shape), 4)
}

/// `2 m k n`, capped.
pub fn capped_matmul_flops(sa: &Vec<usize>, sb: &Vec<usize>) -> (flops: u128)
    requires
        sa@.len() >= 2,
        sb@.len() >= 2,
    ensures
        flops == cap(matmul_flops(sa@, sb@)),
        flops <= CAP,
{
    let (m, k, n) = (sa[0] as u128, sa[1] as u128, sb[1] as u128);
    proof {
        lemma_cap_mul(m as nat * k as nat, n as nat);
        lemma_cap_mul(2, m as nat * k as nat * n as nat);
    }
    cap_mul(2, cap_mul(cap_mul(m, k), n))
}

fn add_leaf(leaves: &mut Vec<String>, name: &String)
    ensures
        leaf_names(final(leaves)@) == with_leaf(leaf_names(old(leaves)@), name@),
{
    let mut i: usize = 0;
    while i < leaves.len()
        invariant
            i <= leaves@.len(),
            leaves@ == old(leaves)@,
            forall|k: int| 0 <= k < i ==> (#[trigger] leaves@[k])@ != name@,
        decreases leaves@.len() - i,
    {
        if same_text(leaves[i].as_str(), name.as_str()) {
            assert(leaf_names(leaves@)[i as int] == name@);
            return;
        }
        i = i + 1;
    }
    assert(!leaf_names(leaves@).contains(name@));
    leaves.push(name.clone());
    assert(leaf_names(leaves@) =~= leaf_names(old(leaves)@).push(name@));
}

/// One operator of a fused region.
fn count_step(
    totals: &mut RegionTotals,
    shape: &Vec<usize>,
    flops: u128,
    Ghost(r): Ghost<Region>,
    Ghost(f): Ghost<nat>,
)
    requires
        old(totals).stand_for(r),
        flops == cap(f),
    ensures
        final(totals).stand_for(region_step(r, shape@, f)),
{
    totals.flops = cap_add(totals.flops, flops);
    totals.inter = cap_add(totals.inter, capped_bytes(shape));
}

/// Walks a fused subtree: accumulates the flops, the distinct inputs, and the bytes of every
/// internal intermediate tensor, and returns the subtree's output shape.
fn fused_walk(
    expr: &Program,
    root: Id,
    shapes: &Shapes,
    totals: &mut RegionTotals,
    Ghost(start): Ghost<Region>,
) -> (shape: Option<Vec<usize>>)
    requires
        old(totals).stand_for(start),
    ensures
        match shape {
            Some(s) => {
                &&& region(expr@, dims(*shapes), root as int, start) matches Some(r)
                &&& r.shape == s@
                &&& final(totals).stand_for(r)
            },
            None => region(expr@, dims(*shapes), root as int, start) is None,
        },
    decreases root,
{
    if root >= expr.nodes.len() {
        return None;
    }
    assert(expr@[root as int] == expr.nodes@[root as int]@);
    match &expr.nodes[root] {
        TensorLang::Var(name) => {
            match shapes.get(name.as_str()) {
                Some(s) => {
                    add_leaf(&mut totals.leaves, name);
                    Some(s.clone())
                },
                None => None,
            }
        },
        TensorLang::MatMul(a, b) => {
            if *a >= root || *b >= root {
                return None;
            }
            let ghost ra = region(expr@, dims(*shapes), *a as int, start);
            let sa = match fused_walk(expr, *a, shapes, totals, Ghost(start)) {
                Some(s) => s,
                None => return None,
            };
            let ghost rb = region(expr@, dims(*shapes), *b as int, ra.unwrap());
            let sb = match fused_walk(expr, *b, shapes, totals, Ghost(ra.unwrap())) {
                Some(s) => s,
                None => return None,
            };
            if sa.len() < 2 || sb.len() < 2 {
                return None;
            }
            let out: Vec<usize> = vec![sa[0], sb[1]];
            assert(out@ =~= seq![sa@[0], sb@[1]]);
            count_step(
                totals,
                &out,
                capped_matmul_flops(&sa, &sb),
                Ghost(rb.unwrap()),
                Ghost(matmul_flops(sa@, sb@)),
            );
            Some(out)
        },
        TensorLang::Transpose(a) => {
            if *a >= root {
                return None;
            }
            let ghost ra = region(expr@, dims(*shapes), *a as int, start);
            let sa = match fused_walk(expr, *a, shapes, totals, Ghost(start)) {
                Some(s) => s,
                None => return None,
            };
            if sa.len() < 2 {
                return None;
            }
            let out: Vec<usize> = vec![sa[1], sa[0]];
            assert(out@ =~= seq![sa@[1], sa@[0]]);
            count_step(totals, &out, 0, Ghost(ra.unwrap()), Ghost(0nat));
            Some(out)
        },
        TensorLang::EMul(a, b) => {
            if *a >= root || *b >= root {
                return None;
            }
            let ghost ra = region(expr@, dims(*shapes), *a as int, start);
            let sa = match fused_walk(expr, *a, shapes, totals, Ghost(start)) {
                Some(s) => s,
                None => return None,
            };
            let ghost rb = region(expr@, dims(*shapes), *b as int, ra.unwrap());
            let sb = match fused_walk(expr, *b, shapes, totals, Ghost(ra.unwrap())) {
                Some(s) => s,
                None => return None,
            };
            let out = if takes_right(&sa, &sb) {
                sb
            } else {
                sa
            };
            count_step(
                totals,
                &out,
                capped_numel(&out),
                Ghost(rb.unwrap()),
                Ghost(numel(out@)),
            );
            Some(out)
        },
        TensorLang::Softmax(a) => {
            if *a >= root {
                return None;
            }
            let ghost ra = region(expr@, dims(*shapes), *a as int, start);
            let sa = match fused_walk(expr, *a, shapes, totals, Ghost(start)) {
                Some(s) => s,
                None => return None,
            };
            count_step(
                totals,
                &sa,
                capped_bytes(&sa),
                Ghost(ra.unwrap()),
                Ghost(4 * numel(sa@)),
            );
            Some(sa)
        },
        TensorLang::Relu(a) => {
            if *a >= root {
                return None;
            }
            let ghost ra = region(expr@, dims(*shapes), *a as int, start);
            let sa = match fused_walk(expr, *a, shapes, totals, Ghost(start)) {
                Some(s) => s,
                None => return None,
            };
            count_step(totals, &sa, capped_numel(&sa), Ghost(ra.unwrap()), Ghost(numel(sa@)));
            Some(sa)
        },
        TensorLang::Fuse(a) => {
            if *a >= root {
                return None;
            }
            fused_walk(expr, *a, shapes, totals, Ghost(start))
        },
    }
}

/// Whether every name has a shape.
pub open spec fn all_known(leaves: Seq<Seq<char>>, shapes: Map<Seq<char>, Seq<usize>>) -> bool {
    forall|k: int| 0 <= k < leaves.len() ==> shapes.dom().contains(#[trigger] leaves[k])
}

/// The walk gathers only inputs that have a shape.
proof fn lemma_leaves_known(
    nodes: Seq<Node>,
    shapes: Map<Seq<char>, Seq<usize>>,
    root: int,
    start: Region,
)
    requires
        region(nodes, shapes, root, start) is Some,
        all_known(start.leaves, shapes),
    ensures
        all_known(region(nodes, shapes, root, start).unwrap().leaves, shapes),
    decreases root,
{
    match nodes[root] {
        Node::Var(_) => {},
        Node::MatMul(a, b) | Node::EMul(a, b) => {
            lemma_leaves_known(nodes, shapes, a, start);
            lemma_leaves_known(nodes, shapes, b, region(nodes, shapes, a, start).unwrap());
        },
        Node::Transpose(a) | Node::Softmax(a) | Node::Relu(a) | Node::Fuse(a) => {
            lemma_leaves_known(nodes, shapes, a, start);
        },
    }
}

fn capped_leaf_bytes(leaves: &Vec<String>, shapes: &Shapes) -> (bytes: u128)
    requires
        all_known(leaf_names(leaves@), dims(*shapes)),
    ensures
        bytes == cap(leaf_bytes(leaf_names(leaves@), dims(*shapes))),
        bytes <= CAP,
{
    let ghost names = leaf_names(leaves@);
    let mut bytes: u128 = 0;
    let mut i: usize = 0;
    while i < leaves.len()
        invariant
            i <= leaves@.len(),
            names == leaf_names(leaves@),
            all_known(names, dims(*shapes)),
            bytes == cap(leaf_bytes(names.take(i as int), dims(*shapes))),
            bytes <= CAP,
        decreases leaves@.len() - i,
    {
        assert(names.take(i as int + 1).drop_last() =~= names.take(i as int));
        assert(names[i as int] == leaves@[i as int]@);
        assert(names.take(i as int + 1).last() == names[i as int]);
        if let Some(s) = shapes.get(leaves[i].as_str()) {
            bytes = cap_add(bytes, capped_bytes(s));
        }
        i = i + 1;
    }
    assert(names.take(leaves@.len() as int) =~= names);
    bytes
}

/// Capped running totals of the account.
pub struct Totals {
    pub flops: u128,
    pub hbm: u128,
    pub sram: u128,
}

impl Totals {
    /// Whether no total is above the cap.
    pub open spec fn capped(self) -> bool {
        self.flops <= CAP && self.hbm <= CAP && self.sram <= CAP
    }

    /// Whether `after` is `self` with the account `t` on top.
    pub open spec fn plus(self, t: Tally, after: Totals) -> bool {
        &&& after.flops == cap(self.flops as nat + t.flops)
        &&& after.hbm == cap(self.hbm as nat + t.hbm)
        &&& after.sram == cap(larger(self.sram as nat, t.sram))
    }

    /// Books one operator: its flops and the tensor that it writes.
    fn book(&mut self, flops: u128, bytes: u128)
        requires
            old(self).capped(),
            flops <= CAP,
            bytes <= CAP,
        ensures
            final(self).capped(),
            final(self).flops == cap(old(self).flops as nat + flops as nat),
            final(self).hbm == cap(old(self).hbm as nat + bytes as nat),
            final(self).sram == old(self).sram,
    {
        self.flops = cap_add(self.flops, flops);
        self.hbm = cap_add(self.hbm, bytes);
    }
}

/// Books node `root` and everything below it, and returns its shape, which is the inferred one where
/// the shapes fit.
pub fn account_node(expr: &Program, root: Id, shapes: &Shapes, acc: &mut Totals) -> (shape: Option<
    Vec<usize>,
>)
    requires
        old(acc).capped(),
    ensures
        final(acc).capped(),
        match shape {
            Some(s) => {
                &&& tally(expr@, dims(*shapes), root as int) matches Some(t)
                &&& t.shape == s@
                &&& old(acc).plus(t, *final(acc))
            },
            None => tally(expr@, dims(*shapes), root as int) is None,
        },
        softmax_axes_filled(expr@, dims(*shapes)) && inferred_shape(
            expr@,
            dims(*shapes),
            root as int,
        ) is Some ==> (shape matches Some(s) && Some(s@) == inferred_shape(
            expr@,
            dims(*shapes),
            root as int,
        )),
    decreases root,
{
    proof {
        if softmax_axes_filled(expr@, dims(*shapes)) && inferred_shape(
            expr@,
            dims(*shapes),
            root as int,
        ) is Some {
            accounts_know_the_shape(expr@, dims(*shapes), root as int);
        }
    }
    if root >= expr.nodes.len() {
        return None;
    }
    assert(expr@[root as int] == expr.nodes@[root as int]@);
    match &expr.nodes[root] {
        TensorLang::Var(name) => {
            match shapes.get(name.as_str()) {
                Some(s) => {
                    acc.book(0, capped_bytes(s));
                    Some(s.clone())
                },
                None => None,
            }
        },
        TensorLang::MatMul(a, b) => {
            if *a >= root || *b >= root {
                return None;
            }
            let sa = match account_node(expr, *a, shapes, acc) {
                Some(s) => s,
                None => return None,
            };
            let sb = match account_node(expr, *b, shapes, acc) {
                Some(s) => s,
                None => return None,
            };
            if sa.len() < 2 || sb.len() < 2 {
                return None;
            }
            let out: Vec<usize> = vec![sa[0], sb[1]];
            assert(out@ =~= seq![sa@[0], sb@[1]]);
            acc.book(capped_matmul_flops(&sa, &sb), capped_bytes(&out));
            Some(out)
        },
        TensorLang::Transpose(a) => {
            if *a >= root {
                return None;
            }
            let sa = match account_node(expr, *a, shapes, acc) {
                Some(s) => s,
                None => return None,
            };
            if sa.len() < 2 {
                return None;
            }
            // The read was counted in the operand; the write of the transposed copy is charged.
            let out: Vec<usize> = vec![sa[1], sa[0]];
            assert(out@ =~= seq![sa@[1], sa@[0]]);
            acc.book(0, capped_bytes(&out));
            Some(out)
        },
        TensorLang::EMul(a, b) => {
            if *a >= root || *b >= root {
                return None;
            }
            let sa = match account_node(expr, *a, shapes, acc) {
                Some(s) => s,
                None => return None,
            };
            let sb = match account_node(expr, *b, shapes, acc) {
                Some(s) => s,
                None => return None,
            };
            let out = if takes_right(&sa, &sb) {
                sb
            } else {
                sa
            };
            acc.book(capped_numel(&out), capped_bytes(&out));
            Some(out)
        },
        TensorLang::Softmax(a) => {
            if *a >= root {
                return None;
            }
            let sa = match account_node(expr, *a, shapes, acc) {
                Some(s) => s,
                None => return None,
            };
            if sa.len() == 0 || sa[sa.len() - 1] == 0 {
                return None;
            }
            // Per element: one step each for the maximum, the exponential, the sum, the division.
            acc.book(capped_bytes(&sa), capped_bytes(&sa));
            Some(sa)
        },
        TensorLang::Relu(a) => {
            if *a >= root {
                return None;
            }
            let sa = match account_node(expr, *a, shapes, acc) {
                Some(s) => s,
                None => return None,
            };
            acc.book(capped_numel(&sa), capped_bytes(&sa));
            Some(sa)
        },
        TensorLang::Fuse(a) => {
            if *a >= root {
                return None;
            }
            let mut totals = RegionTotals { flops: 0, inter: 0, leaves: Vec::new() };
            assert(leaf_names(totals.leaves@) =~= seq![]);
            let out = match fused_walk(expr, *a, shapes, &mut totals, Ghost(empty_region())) {
                Some(s) => s,
                None => return None,
            };
            proof {
                lemma_leaves_known(expr@, dims(*shapes), *a as int, empty_region());
            }
            let leaf: u128 = capped_leaf_bytes(&totals.leaves, shapes);
            let out_bytes: u128 = capped_bytes(&out);
            let boundary: u128 = cap_add(leaf, out_bytes);
            // Everything lives in SRAM at once. The walk counted the region's own output among
            // the intermediates, so the larger of the two stands for both.
            let inside: u128 = if totals.inter > out_bytes {
                totals.inter
            } else {
                out_bytes
            };
            let working_set: u128 = cap_add(leaf, inside);
            acc.flops = cap_add(acc.flops, totals.flops);
            acc.hbm = cap_add(acc.hbm, boundary);
            if working_set > acc.sram {
                acc.sram = working_set;
            }
            Some(out)
        },
    }
}

/// The account of the program at node `root`, if it has one that 64 bits hold.
pub fn try_account(expr: &Program, root: Id, shapes: &Shapes) -> (account: Option<Account>)
    ensures
        account == account_of(expr@, dims(*shapes), root as int),
{
    let mut acc = Totals { flops: 0, hbm: 0, sram: 0 };
    match account_node(expr, root, shapes, &mut acc) {
        Some(_) => if acc.flops < CAP && acc.hbm < CAP && acc.sram < CAP {
            Some(
                Account {
                    flops: acc.flops as u64,
                    hbm_bytes: acc.hbm as u64,
                    sram_bytes: acc.sram as u64,
                },
            )
        } else {
            None
        },
        None => None,
    }
}

/// The account of the program at node `root`.
pub fn account(expr: &Program, root: Id, shapes: &Shapes) -> (account: Account)
    requires
        account_of(expr@, dims(*shapes), root as int) is Some,
    ensures
        account == account_of(expr@, dims(*shapes), root as int).unwrap(),
{
    match try_account(expr, root, shapes) {
        Some(account) => account,
        None => Account::default(),
    }
}

/// The account of a whole program: that of its last node.
pub fn account_expr(expr: &Program, shapes: &Shapes) -> (account: Account)
    requires
        account_of(expr@, dims(*shapes), expr@.len() - 1) is Some,
    ensures
        account == account_of(expr@, dims(*shapes), expr@.len() - 1).unwrap(),
{
    self::account(expr, expr.len() - 1, shapes)
}

// ---- Laws ----

/// Whatever has an account can run as one fused region, with the same flops and the same shape.
proof fn lemma_region_of_tally(
    nodes: Seq<Node>,
    shapes: Map<Seq<char>, Seq<usize>>,
    root: int,
    start: Region,
)
    requires
        tally(nodes, shapes, root) is Some,
    ensures
        region(nodes, shapes, root, start) matches Some(r) && r.shape == tally(
            nodes,
            shapes,
            root,
        ).unwrap().shape && r.flops == start.flops + tally(nodes, shapes, root).unwrap().flops,
    decreases root,
{
    match nodes[root] {
        Node::Var(_) => {},
        Node::MatMul(a, b) | Node::EMul(a, b) => {
            lemma_region_of_tally(nodes, shapes, a, start);
            lemma_region_of_tally(nodes, shapes, b, region(nodes, shapes, a, start).unwrap());
        },
        Node::Transpose(a) | Node::Softmax(a) | Node::Relu(a) => {
            lemma_region_of_tally(nodes, shapes, a, start);
        },
        Node::Fuse(a) => {
            lemma_region_start(nodes, shapes, a, empty_region(), start);
        },
    }
}

/// What a region adds does not depend on what was gathered before.
proof fn lemma_region_start(
    nodes: Seq<Node>,
    shapes: Map<Seq<char>, Seq<usize>>,
    root: int,
    x: Region,
    y: Region,
)
    requires
        region(nodes, shapes, root, x) is Some,
    ensures
        region(nodes, shapes, root, y) matches Some(ry) && region(
            nodes,
            shapes,
            root,
            x,
        ) matches Some(rx) && rx.shape == ry.shape && rx.flops - x.flops == ry.flops - y.flops
            && rx.inter - x.inter == ry.inter - y.inter,
    decreases root,
{
    match nodes[root] {
        Node::Var(_) => {},
        Node::MatMul(a, b) | Node::EMul(a, b) => {
            lemma_region_start(nodes, shapes, a, x, y);
            lemma_region_start(
                nodes,
                shapes,
                b,
                region(nodes, shapes, a, x).unwrap(),
                region(nodes, shapes, a, y).unwrap(),
            );
        },
        Node::Transpose(a) | Node::Softmax(a) | Node::Relu(a) | Node::Fuse(a) => {
            lemma_region_start(nodes, shapes, a, x, y);
        },
    }
}

/// Fusion keeps the flops: a plan and its fused form compute the same, and the fused form has an
/// account wherever the plan has one.
pub proof fn fusion_keeps_flops(
    nodes: Seq<Node>,
    shapes: Map<Seq<char>, Seq<usize>>,
    root: int,
)
    requires
        0 <= root < nodes.len(),
        tally(nodes, shapes, root) is Some,
    ensures
        tally(nodes.push(Node::Fuse(root)), shapes, nodes.len() as int) matches Some(fused)
            && fused.shape == tally(nodes, shapes, root).unwrap().shape && fused.flops == tally(
            nodes,
            shapes,
            root,
        ).unwrap().flops,
{
    let more = nodes.push(Node::Fuse(root));
    lemma_region_of_tally(nodes, shapes, root, empty_region());
    lemma_region_prefix(nodes, Node::Fuse(root), shapes, root, empty_region());
    assert(more[nodes.len() as int] == Node::Fuse(root));
}

/// A further node changes nothing for the earlier ones.
proof fn lemma_region_prefix(
    nodes: Seq<Node>,
    node: Node,
    shapes: Map<Seq<char>, Seq<usize>>,
    root: int,
    start: Region,
)
    requires
        root < nodes.len(),
    ensures
        region(nodes.push(node), shapes, root, start) == region(nodes, shapes, root, start),
    decreases root,
{
    if root >= 0 {
        let more = nodes.push(node);
        assert(more[root] == nodes[root]);
        match nodes[root] {
            Node::Var(_) => {},
            Node::MatMul(a, b) | Node::EMul(a, b) => if 0 <= a < root && 0 <= b < root {
                lemma_region_prefix(nodes, node, shapes, a, start);
                if let Some(ra) = region(nodes, shapes, a, start) {
                    lemma_region_prefix(nodes, node, shapes, b, ra);
                }
            },
            Node::Transpose(a) | Node::Softmax(a) | Node::Relu(a) | Node::Fuse(a) => if 0 <= a
                < root {
                lemma_region_prefix(nodes, node, shapes, a, start);
            },
        }
    }
}

/// Each input of a region is gathered once.
proof fn lemma_leaves_distinct(
    nodes: Seq<Node>,
    shapes: Map<Seq<char>, Seq<usize>>,
    root: int,
    start: Region,
)
    requires
        region(nodes, shapes, root, start) is Some,
        start.leaves.no_duplicates(),
    ensures
        region(nodes, shapes, root, start).unwrap().leaves.no_duplicates(),
    decreases root,
{
    match nodes[root] {
        Node::Var(name) => {
            let after = with_leaf(start.leaves, name);
            if !start.leaves.contains(name) {
                assert forall|i: int, j: int|
                    0 <= i < after.len() && 0 <= j < after.len() && i != j implies after[i]
                    != after[j] by {
                    if i == start.leaves.len() {
                        assert(start.leaves.contains(after[j]));
                    } else if j == start.leaves.len() {
                        assert(start.leaves.contains(after[i]));
                    }
                }
            }
        },
        Node::MatMul(a, b) | Node::EMul(a, b) => {
            lemma_leaves_distinct(nodes, shapes, a, start);
            lemma_leaves_distinct(nodes, shapes, b, region(nodes, shapes, a, start).unwrap());
        },
        Node::Transpose(a) | Node::Softmax(a) | Node::Relu(a) | Node::Fuse(a) => {
            lemma_leaves_distinct(nodes, shapes, a, start);
        },
    }
}

/// A fused region reads each of its inputs once.
pub proof fn fused_inputs_are_read_once(
    nodes: Seq<Node>,
    shapes: Map<Seq<char>, Seq<usize>>,
    root: int,
)
    requires
        region(nodes, shapes, root, empty_region()) is Some,
    ensures
        region(nodes, shapes, root, empty_region()).unwrap().leaves.no_duplicates(),
        all_known(region(nodes, shapes, root, empty_region()).unwrap().leaves, shapes),
{
    lemma_leaves_distinct(nodes, shapes, root, empty_region());
    lemma_leaves_known(nodes, shapes, root, empty_region());
}

/// Whether every name of `a` is one of `b`.
spec fn among(a: Seq<Seq<char>>, b: Seq<Seq<char>>) -> bool {
    forall|i: int| 0 <= i < a.len() ==> b.contains(#[trigger] a[i])
}

/// Taking in leaves behind more of them adds no more bytes.
proof fn lemma_leaf_bytes_added(
    nodes: Seq<Node>,
    shapes: Map<Seq<char>, Seq<usize>>,
    root: int,
    x: Region,
    y: Region,
)
    requires
        region(nodes, shapes, root, x) is Some,
        region(nodes, shapes, root, y) is Some,
        among(x.leaves, y.leaves),
    ensures
        among(
            region(nodes, shapes, root, x).unwrap().leaves,
            region(nodes, shapes, root, y).unwrap().leaves,
        ),
        leaf_bytes(region(nodes, shapes, root, y).unwrap().leaves, shapes) - leaf_bytes(
            y.leaves,
            shapes,
        ) <= leaf_bytes(region(nodes, shapes, root, x).unwrap().leaves, shapes) - leaf_bytes(
            x.leaves,
            shapes,
        ),
        leaf_bytes(x.leaves, shapes) <= leaf_bytes(
            region(nodes, shapes, root, x).unwrap().leaves,
            shapes,
        ),
        leaf_bytes(y.leaves, shapes) <= leaf_bytes(
            region(nodes, shapes, root, y).unwrap().leaves,
            shapes,
        ),
    decreases root,
{
    match nodes[root] {
        Node::Var(name) => {
            lemma_with_leaf(x.leaves, name, shapes);
            lemma_with_leaf(y.leaves, name, shapes);
            let (lx, ly) = (with_leaf(x.leaves, name), with_leaf(y.leaves, name));
            assert forall|i: int| 0 <= i < lx.len() implies ly.contains(#[trigger] lx[i]) by {
                if i < x.leaves.len() {
                    assert(lx[i] == x.leaves[i]);
                    assert(y.leaves.contains(x.leaves[i]));
                    let k = choose|k: int| 0 <= k < y.leaves.len() && y.leaves[k] == lx[i];
                    assert(ly[k] == lx[i]);
                } else {
                    assert(lx[i] == name);
                    if !y.leaves.contains(name) {
                        assert(ly[y.leaves.len() as int] == name);
                    }
                }
            }
        },
        Node::MatMul(a, b) | Node::EMul(a, b) => {
            let (xa, ya) = (
                region(nodes, shapes, a, x).unwrap(),
                region(nodes, shapes, a, y).unwrap(),
            );
            lemma_leaf_bytes_added(nodes, shapes, a, x, y);
            lemma_leaf_bytes_added(nodes, shapes, b, xa, ya);
        },
        Node::Transpose(a) | Node::Softmax(a) | Node::Relu(a) | Node::Fuse(a) => {
            lemma_leaf_bytes_added(nodes, shapes, a, x, y);
        },
    }
}

proof fn lemma_with_leaf(
    leaves: Seq<Seq<char>>,
    name: Seq<char>,
    shapes: Map<Seq<char>, Seq<usize>>,
)
    ensures
        leaf_bytes(with_leaf(leaves, name), shapes) == leaf_bytes(leaves, shapes) + (
        if leaves.contains(name) {
            0
        } else {
            tensor_bytes(shapes[name])
        }),
{
    if !leaves.contains(name) {
        let more = leaves.push(name);
        assert(more.drop_last() =~= leaves);
        assert(more.last() == name);
    }
}

proof fn lemma_traffic(
    nodes: Seq<Node>,
    shapes: Map<Seq<char>, Seq<usize>>,
    root: int,
    start: Region,
)
    requires
        tally(nodes, shapes, root) is Some,
    ensures
        region(nodes, shapes, root, start) matches Some(r) && leaf_bytes(r.leaves, shapes) + (
        if nodes[root] is Var {
            0
        } else {
            tensor_bytes(r.shape)
        }) <= leaf_bytes(start.leaves, shapes) + tally(nodes, shapes, root).unwrap().hbm,
    decreases root,
{
    lemma_region_of_tally(nodes, shapes, root, start);
    match nodes[root] {
        Node::Var(name) => {
            lemma_with_leaf(start.leaves, name, shapes);
        },
        Node::MatMul(a, b) | Node::EMul(a, b) => {
            lemma_traffic(nodes, shapes, a, start);
            lemma_traffic(nodes, shapes, b, region(nodes, shapes, a, start).unwrap());
        },
        Node::Transpose(a) | Node::Softmax(a) | Node::Relu(a) => {
            lemma_traffic(nodes, shapes, a, start);
        },
        Node::Fuse(a) => {
            let e = empty_region();
            assert(among(e.leaves, start.leaves));
            lemma_leaf_bytes_added(nodes, shapes, a, e, start);
            lemma_region_start(nodes, shapes, a, e, start);
        },
    }
}

/// Fusion never moves more bytes: as one fused region, a plan that ends in an operator causes no
/// more HBM traffic than when every intermediate is materialised.
pub proof fn fusion_saves_traffic(
    nodes: Seq<Node>,
    shapes: Map<Seq<char>, Seq<usize>>,
    root: int,
)
    requires
        0 <= root < nodes.len(),
        !(nodes[root] is Var),
        tally(nodes, shapes, root) is Some,
    ensures
        tally(nodes.push(Node::Fuse(root)), shapes, nodes.len() as int) matches Some(fused)
            && fused.hbm <= tally(nodes, shapes, root).unwrap().hbm,
{
    fusion_keeps_flops(nodes, shapes, root);
    lemma_traffic(nodes, shapes, root, empty_region());
    lemma_region_prefix(nodes, Node::Fuse(root), shapes, root, empty_region());
    assert(nodes.push(Node::Fuse(root))[nodes.len() as int] == Node::Fuse(root));
}

/// A plan without fused regions asks for no SRAM.
pub proof fn materialized_plans_need_no_sram(
    nodes: Seq<Node>,
    shapes: Map<Seq<char>, Seq<usize>>,
    root: int,
)
    requires
        tally(nodes, shapes, root) is Some,
        forall|i: int| 0 <= i < nodes.len() ==> !((#[trigger] nodes[i]) is Fuse),
    ensures
        tally(nodes, shapes, root).unwrap().sram == 0,
    decreases root,
{
    match nodes[root] {
        Node::Var(_) => {},
        Node::MatMul(a, b) | Node::EMul(a, b) => {
            materialized_plans_need_no_sram(nodes, shapes, a);
            materialized_plans_need_no_sram(nodes, shapes, b);
        },
        Node::Transpose(a) | Node::Softmax(a) | Node::Relu(a) => {
            materialized_plans_need_no_sram(nodes, shapes, a);
        },
        Node::Fuse(_) => {},
    }
}

/// The working set of a fused region holds everything that the region moves.
pub proof fn working_set_covers_traffic(r: Region, shapes: Map<Seq<char>, Seq<usize>>)
    ensures
        fused_tally(r, shapes).sram >= fused_tally(r, shapes).hbm,
        fused_tally(r, shapes).sram >= leaf_bytes(r.leaves, shapes) + r.inter,
{
}

// ---- What accounts know ----

/// The names of the inputs that node `root` is computed from.
pub open spec fn inputs_used(nodes: Seq<Node>, root: int) -> Set<Seq<char>>
    decreases root,
{
    if root < 0 || root >= nodes.len() {
        Set::empty()
    } else {
        match nodes[root] {
            Node::Var(name) => Set::empty().insert(name),
            Node::MatMul(a, b) | Node::EMul(a, b) => if 0 <= a < root && 0 <= b < root {
                inputs_used(nodes, a).union(inputs_used(nodes, b))
            } else {
                Set::empty()
            },
            Node::Transpose(a) | Node::Softmax(a) | Node::Relu(a) | Node::Fuse(a) => if 0 <= a
                < root {
                inputs_used(nodes, a)
            } else {
                Set::empty()
            },
        }
    }
}

/// A walk over a region ends with the inferred shape, whatever it began with.
pub proof fn lemma_region_shape(
    nodes: Seq<Node>,
    shapes: Map<Seq<char>, Seq<usize>>,
    root: int,
    start: Region,
)
    requires
        inferred_shape(nodes, shapes, root) is Some,
    ensures
        region(nodes, shapes, root, start) matches Some(r) && Some(r.shape) == inferred_shape(
            nodes,
            shapes,
            root,
        ),
    decreases root,
{
    match nodes[root] {
        Node::Var(_) => {},
        Node::MatMul(a, b) | Node::EMul(a, b) => {
            lemma_region_shape(nodes, shapes, a, start);
            lemma_region_shape(nodes, shapes, b, region(nodes, shapes, a, start).unwrap());
        },
        Node::Transpose(a) | Node::Softmax(a) | Node::Relu(a) | Node::Fuse(a) => {
            lemma_region_shape(nodes, shapes, a, start);
        },
    }
}

/// Accounting agrees with shape inference: a program whose shapes fit has an account, as long as no
/// softmax runs along an empty axis, and its shape is the inferred one.
pub proof fn accounts_know_the_shape(
    nodes: Seq<Node>,
    shapes: Map<Seq<char>, Seq<usize>>,
    root: int,
)
    requires
        softmax_axes_filled(nodes, shapes),
        inferred_shape(nodes, shapes, root) is Some,
    ensures
        tally(nodes, shapes, root) matches Some(t) && Some(t.shape) == inferred_shape(
            nodes,
            shapes,
            root,
        ),
    decreases root,
{
    match nodes[root] {
        Node::Var(_) => {},
        Node::MatMul(a, b) | Node::EMul(a, b) => {
            accounts_know_the_shape(nodes, shapes, a);
            accounts_know_the_shape(nodes, shapes, b);
        },
        Node::Transpose(a) | Node::Softmax(a) | Node::Relu(a) => {
            accounts_know_the_shape(nodes, shapes, a);
        },
        Node::Fuse(a) => {
            lemma_region_shape(nodes, shapes, a, empty_region());
        },
    }
}

/// The walk gathers the inputs that the region is computed from.
pub proof fn lemma_leaves_used(
    nodes: Seq<Node>,
    shapes: Map<Seq<char>, Seq<usize>>,
    root: int,
    start: Region,
)
    requires
        region(nodes, shapes, root, start) is Some,
    ensures
        region(nodes, shapes, root, start).unwrap().leaves.to_set() == start.leaves.to_set().union(
            inputs_used(nodes, root),
        ),
    decreases root,
{
    let after = region(nodes, shapes, root, start).unwrap().leaves;
    match nodes[root] {
        Node::Var(name) => {
            assert forall|n: Seq<char>| after.contains(n) <==> start.leaves.contains(n) || n
                == name by {
                if !start.leaves.contains(name) {
                    assert(after == start.leaves.push(name));
                    assert(after[after.len() - 1] == name);
                    if start.leaves.contains(n) {
                        let i = choose|i: int|
                            0 <= i < start.leaves.len() && start.leaves[i] == n;
                        assert(after[i] == n);
                    }
                }
            }
        },
        Node::MatMul(a, b) | Node::EMul(a, b) => {
            lemma_leaves_used(nodes, shapes, a, start);
            lemma_leaves_used(nodes, shapes, b, region(nodes, shapes, a, start).unwrap());
        },
        Node::Transpose(a) | Node::Softmax(a) | Node::Relu(a) | Node::Fuse(a) => {
            lemma_leaves_used(nodes, shapes, a, start);
        },
    }
    assert(after.to_set() =~= start.leaves.to_set().union(inputs_used(nodes, root)));
}

proof fn lemma_leaf_bytes_without(
    leaves: Seq<Seq<char>>,
    shapes: Map<Seq<char>, Seq<usize>>,
    k: int,
)
    requires
        0 <= k < leaves.len(),
    ensures
        leaf_bytes(leaves, shapes) == leaf_bytes(leaves.remove(k), shapes) + tensor_bytes(
            shapes[leaves[k]],
        ),
    decreases leaves.len(),
{
    if k == leaves.len() - 1 {
        assert(leaves.remove(k) =~= leaves.drop_last());
    } else {
        lemma_leaf_bytes_without(leaves.drop_last(), shapes, k);
        assert(leaves.remove(k).drop_last() =~= leaves.drop_last().remove(k));
        assert(leaves.remove(k).last() == leaves.last());
    }
}

/// The bytes of distinct inputs do not depend on the order in which they are named.
pub proof fn lemma_leaf_bytes_of_set(
    a: Seq<Seq<char>>,
    b: Seq<Seq<char>>,
    shapes: Map<Seq<char>, Seq<usize>>,
)
    requires
        a.no_duplicates(),
        b.no_duplicates(),
        a.to_set() == b.to_set(),
    ensures
        leaf_bytes(a, shapes) == leaf_bytes(b, shapes),
    decreases a.len(),
{
    if a.len() == 0 {
        if b.len() > 0 {
            assert(b.to_set().contains(b[0]));
            assert(a.contains(b[0]));
        }
    } else {
        let name = a.last();
        assert(a.contains(name));
        assert(b.to_set().contains(name));
        let k = choose|k: int| 0 <= k < b.len() && b[k] == name;
        let rest = b.remove(k);
        lemma_leaf_bytes_without(b, shapes, k);
        assert(rest.no_duplicates()) by {
            assert forall|i: int, j: int|
                0 <= i < rest.len() && 0 <= j < rest.len() && i != j implies rest[i]
                != rest[j] by {
                let (p, q) = (
                    if i < k {
                        i
                    } else {
                        i + 1
                    },
                    if j < k {
                        j
                    } else {
                        j + 1
                    },
                );
                assert(rest[i] == b[p] && rest[j] == b[q]);
            }
        }
        assert(a.drop_last().to_set() =~= rest.to_set()) by {
            assert forall|n: Seq<char>| a.drop_last().contains(n) <==> rest.contains(n) by {
                if a.drop_last().contains(n) {
                    let i = choose|i: int| 0 <= i < a.len() - 1 && a.drop_last()[i] == n;
                    assert(a[i] == n && n != name);
                    assert(b.to_set().contains(n));
                    let j = choose|j: int| 0 <= j < b.len() && b[j] == n;
                    if j < k {
                        assert(rest[j] == n);
                    } else {
                        assert(rest[j - 1] == n);
                    }
                }
                if rest.contains(n) {
                    let j = choose|j: int| 0 <= j < rest.len() && rest[j] == n;
                    let at = if j < k {
                        j
                    } else {
                        j + 1
                    };
                    assert(b[at] == n && at != k);
                    assert(n != name);
                    assert(a.to_set().contains(n));
                    let i = choose|i: int| 0 <= i < a.len() && a[i] == n;
                    assert(a.drop_last()[i] == n);
                }
            }
        }
        lemma_leaf_bytes_of_set(a.drop_last(), rest, shapes);
    }
}

/// What a fused region moves depends only on the inputs that it reads and on the shape of what it
/// writes, not on how it computes that.
pub proof fn fused_traffic_depends_on_the_ends(
    a: Seq<Node>,
    at_a: int,
    b: Seq<Node>,
    at_b: int,
    shapes: Map<Seq<char>, Seq<usize>>,
)
    requires
        inferred_shape(a, shapes, at_a) is Some,
        inferred_shape(a, shapes, at_a) == inferred_shape(b, shapes, at_b),
        inputs_used(a, at_a) == inputs_used(b, at_b),
    ensures
        ({
            let (ra, rb) = (
                region(a, shapes, at_a, empty_region()),
                region(b, shapes, at_b, empty_region()),
            );
            &&& ra is Some && rb is Some
            &&& fused_tally(ra.unwrap(), shapes).hbm == fused_tally(rb.unwrap(), shapes).hbm
        }),
{
    lemma_region_shape(a, shapes, at_a, empty_region());
    lemma_region_shape(b, shapes, at_b, empty_region());
    fused_inputs_are_read_once(a, shapes, at_a);
    fused_inputs_are_read_once(b, shapes, at_b);
    lemma_leaves_used(a, shapes, at_a, empty_region());
    lemma_leaves_used(b, shapes, at_b, empty_region());
    let (la, lb) = (
        region(a, shapes, at_a, empty_region()).unwrap().leaves,
        region(b, shapes, at_b, empty_region()).unwrap().leaves,
    );
    lemma_leaf_bytes_of_set(la, lb, shapes);
}

proof fn lemma_numel_scalar()
    ensures
        numel(seq![1usize]) == 1,
{
    reveal_with_fuel(numel, 2);
    assert(seq![1usize].drop_last() =~= seq![]);
}

/// The inputs of attention over `s` positions of width `d`.
pub open spec fn attention_inputs(
    shapes: Map<Seq<char>, Seq<usize>>,
    s: usize,
    d: usize,
) -> bool {
    &&& shapes.dom().contains("Q_sd"@) && shapes["Q_sd"@] == seq![s, d]
    &&& shapes.dom().contains("K_sd"@) && shapes["K_sd"@] == seq![s, d]
    &&& shapes.dom().contains("V_sd"@) && shapes["V_sd"@] == seq![s, d]
    &&& shapes.dom().contains("scale"@) && shapes["scale"@] == seq![1usize]
}

/// The inputs of the MLP over `s` positions of width `d` with hidden width `f`.
pub open spec fn mlp_inputs(
    shapes: Map<Seq<char>, Seq<usize>>,
    s: usize,
    d: usize,
    f: usize,
) -> bool {
    &&& shapes.dom().contains("X_sd"@) && shapes["X_sd"@] == seq![s, d]
    &&& shapes.dom().contains("W_up_df"@) && shapes["W_up_df"@] == seq![d, f]
    &&& shapes.dom().contains("W_dn_fd"@) && shapes["W_dn_fd"@] == seq![f, d]
}

/// The account of naive attention. The scores make up the quadratic part of the traffic.
pub proof fn naive_attention_account(shapes: Map<Seq<char>, Seq<usize>>, s: usize, d: usize)
    requires
        attention_inputs(shapes, s, d),
        s >= 1,
    ensures
        tally(attention_nodes(), shapes, 8) == Some(
            Tally {
                shape: seq![s, d],
                flops: (4 * (s * s * d) + 5 * (s * s)) as nat,
                hbm: (4 * (5 * (s * d) + 3 * (s * s) + 1)) as nat,
                sram: 0,
            },
        ),
{
    let nodes = attention_nodes();
    lemma_numel_matrix(s, d);
    lemma_numel_matrix(d, s);
    lemma_numel_matrix(s, s);
    lemma_numel_scalar();
    let (si, di) = (s as int, d as int);
    assert(di * si == si * di) by (nonlinear_arith);
    assert(si * di * si == si * si * di) by (nonlinear_arith);
    let q = tally(nodes, shapes, 0).unwrap();
    let k = tally(nodes, shapes, 1).unwrap();
    let v = tally(nodes, shapes, 2).unwrap();
    let sc = tally(nodes, shapes, 3).unwrap();
    let kt = tally(nodes, shapes, 4).unwrap();
    assert(kt == after_one(k, seq![d, s], 0));
    let scores = tally(nodes, shapes, 5).unwrap();
    assert(scores == after_two(q, kt, seq![s, s], matmul_flops(q.shape, kt.shape)));
    let scaled = tally(nodes, shapes, 6).unwrap();
    assert(scaled == after_two(scores, sc, seq![s, s], numel(seq![s, s])));
    let attn = tally(nodes, shapes, 7).unwrap();
    assert(attn == after_one(scaled, seq![s, s], 4 * numel(seq![s, s])));
    let out = tally(nodes, shapes, 8).unwrap();
    assert(out == after_two(attn, v, seq![s, d], matmul_flops(attn.shape, v.shape)));
}

/// The account of fused attention: the flops of the naive form, but traffic that grows only
/// linearly with the sequence, and a working set that holds the scores.
pub proof fn fused_attention_account(shapes: Map<Seq<char>, Seq<usize>>, s: usize, d: usize)
    requires
        attention_inputs(shapes, s, d),
        s >= 1,
    ensures
        tally(attention_nodes().push(Node::Fuse(8)), shapes, 9) == Some(
            Tally {
                shape: seq![s, d],
                flops: (4 * (s * s * d) + 5 * (s * s)) as nat,
                hbm: (4 * (4 * (s * d) + 1)) as nat,
                sram: (4 * (5 * (s * d) + 3 * (s * s) + 1)) as nat,
            },
        ),
{
    let nodes = attention_nodes().push(Node::Fuse(8));
    lemma_numel_matrix(s, d);
    lemma_numel_matrix(d, s);
    lemma_numel_matrix(s, s);
    lemma_numel_scalar();
    let (si, di) = (s as int, d as int);
    assert(di * si == si * di) by (nonlinear_arith);
    assert(si * di * si == si * si * di) by (nonlinear_arith);
    reveal_strlit("Q_sd");
    reveal_strlit("K_sd");
    reveal_strlit("V_sd");
    reveal_strlit("scale");
    let (nq, nk, nv, ns) = ("Q_sd"@, "K_sd"@, "V_sd"@, "scale"@);
    assert(nq[0] != nk[0] && nq[0] != nv[0] && nk[0] != nv[0]);
    assert(ns.len() != nq.len() && ns.len() != nk.len() && ns.len() != nv.len());
    let none: Seq<Seq<char>> = seq![];
    let l1 = with_leaf(none, nq);
    assert(l1 =~= seq![nq]);
    let l2 = with_leaf(l1, nk);
    assert(l2 =~= seq![nq, nk]);
    let l3 = with_leaf(l2, ns);
    assert(l3 =~= seq![nq, nk, ns]);
    let l4 = with_leaf(l3, nv);
    assert(l4 =~= seq![nq, nk, ns, nv]);
    lemma_with_leaf(none, nq, shapes);
    lemma_with_leaf(l1, nk, shapes);
    lemma_with_leaf(l2, ns, shapes);
    lemma_with_leaf(l3, nv, shapes);
    let e = empty_region();
    let q = region(nodes, shapes, 0, e).unwrap();
    assert(q == (Region { shape: seq![s, d], leaves: l1, ..e }));
    let k = region(nodes, shapes, 1, q).unwrap();
    assert(k == (Region { shape: seq![s, d], leaves: l2, ..q }));
    let kt = region(nodes, shapes, 4, q).unwrap();
    assert(kt == region_step(k, seq![d, s], 0));
    let scores = region(nodes, shapes, 5, e).unwrap();
    assert(scores == region_step(kt, seq![s, s], matmul_flops(q.shape, kt.shape)));
    let sc = region(nodes, shapes, 3, scores).unwrap();
    assert(sc == (Region { shape: seq![1usize], leaves: l3, ..scores }));
    let scaled = region(nodes, shapes, 6, e).unwrap();
    assert(scaled == region_step(sc, seq![s, s], numel(seq![s, s])));
    let attn = region(nodes, shapes, 7, e).unwrap();
    assert(attn == region_step(scaled, seq![s, s], 4 * numel(seq![s, s])));
    let v = region(nodes, shapes, 2, attn).unwrap();
    assert(v == (Region { shape: seq![s, d], leaves: l4, ..attn }));
    let out = region(nodes, shapes, 8, e).unwrap();
    assert(out == region_step(v, seq![s, d], matmul_flops(attn.shape, v.shape)));
    assert(leaf_bytes(none, shapes) == 0);
}

/// The account of the naive MLP. The hidden activations are written and read back.
pub proof fn naive_mlp_account(shapes: Map<Seq<char>, Seq<usize>>, s: usize, d: usize, f: usize)
    requires
        mlp_inputs(shapes, s, d, f),
    ensures
        tally(mlp_nodes(), shapes, 5) == Some(
            Tally {
                shape: seq![s, d],
                flops: (4 * (s * d * f) + s * f) as nat,
                hbm: (4 * (2 * (s * d) + 2 * (d * f) + 2 * (s * f))) as nat,
                sram: 0,
            },
        ),
{
    let nodes = mlp_nodes();
    lemma_numel_matrix(s, d);
    lemma_numel_matrix(d, f);
    lemma_numel_matrix(f, d);
    lemma_numel_matrix(s, f);
    let (si, di, fi) = (s as int, d as int, f as int);
    assert(fi * di == di * fi) by (nonlinear_arith);
    assert(si * fi * di == si * di * fi) by (nonlinear_arith);
    let x = tally(nodes, shapes, 0).unwrap();
    let up = tally(nodes, shapes, 1).unwrap();
    let dn = tally(nodes, shapes, 2).unwrap();
    let h = tally(nodes, shapes, 3).unwrap();
    assert(h == after_two(x, up, seq![s, f], matmul_flops(x.shape, up.shape)));
    let a = tally(nodes, shapes, 4).unwrap();
    assert(a == after_one(h, seq![s, f], numel(seq![s, f])));
    let out = tally(nodes, shapes, 5).unwrap();
    assert(out == after_two(a, dn, seq![s, d], matmul_flops(a.shape, dn.shape)));
}

/// The account of the fused MLP: the hidden activations cause no traffic.
pub proof fn fused_mlp_account(shapes: Map<Seq<char>, Seq<usize>>, s: usize, d: usize, f: usize)
    requires
        mlp_inputs(shapes, s, d, f),
    ensures
        tally(mlp_nodes().push(Node::Fuse(5)), shapes, 6) == Some(
            Tally {
                shape: seq![s, d],
                flops: (4 * (s * d * f) + s * f) as nat,
                hbm: (4 * (2 * (s * d) + 2 * (d * f))) as nat,
                sram: (4 * (2 * (s * d) + 2 * (d * f) + 2 * (s * f))) as nat,
            },
        ),
{
    let nodes = mlp_nodes().push(Node::Fuse(5));
    lemma_numel_matrix(s, d);
    lemma_numel_matrix(d, f);
    lemma_numel_matrix(f, d);
    lemma_numel_matrix(s, f);
    let (si, di, fi) = (s as int, d as int, f as int);
    assert(fi * di == di * fi) by (nonlinear_arith);
    assert(si * fi * di == si * di * fi) by (nonlinear_arith);
    reveal_strlit("X_sd");
    reveal_strlit("W_up_df");
    reveal_strlit("W_dn_fd");
    let (nx, nu, nd) = ("X_sd"@, "W_up_df"@, "W_dn_fd"@);
    assert(nx.len() != nu.len() && nx.len() != nd.len());
    assert(nu[2] != nd[2]);
    let none: Seq<Seq<char>> = seq![];
    let l1 = with_leaf(none, nx);
    assert(l1 =~= seq![nx]);
    let l2 = with_leaf(l1, nu);
    assert(l2 =~= seq![nx, nu]);
    let l3 = with_leaf(l2, nd);
    assert(l3 =~= seq![nx, nu, nd]);
    lemma_with_leaf(none, nx, shapes);
    lemma_with_leaf(l1, nu, shapes);
    lemma_with_leaf(l2, nd, shapes);
    let e = empty_region();
    let x = region(nodes, shapes, 0, e).unwrap();
    assert(x == (Region { shape: seq![s, d], leaves: l1, ..e }));
    let up = region(nodes, shapes, 1, x).unwrap();
    assert(up == (Region { shape: seq![d, f], leaves: l2, ..x }));
    let h = region(nodes, shapes, 3, e).unwrap();
    assert(h == region_step(up, seq![s, f], matmul_flops(x.shape, up.shape)));
    let a = region(nodes, shapes, 4, e).unwrap();
    assert(a == region_step(h, seq![s, f], numel(seq![s, f])));
    let dn = region(nodes, shapes, 2, a).unwrap();
    assert(dn == (Region { shape: seq![f, d], leaves: l3, ..a }));
    let out = region(nodes, shapes, 5, e).unwrap();
    assert(out == region_step(dn, seq![s, d], matmul_flops(a.shape, dn.shape)));
    assert(leaf_bytes(none, shapes) == 0);
}

} // verus!
