//! The computation-graph engine: node model, operators, topological sort and
//! the backward (gradient-accumulation) pass.
//!
//! Nodes live in an arena ([`Graph`]) and are addressed by stable indices
//! ([`Tensor`] handles), so identity is the arena index and a node may be
//! shared by any number of downstream consumers. Every predecessor of a node
//! has a strictly smaller index, so the graph is acyclic by construction.

use vstd::prelude::*;

use crate::scalar::{
    add_bits, add_val, div_bits, div_val, exp_bits, exp_val, mul_bits, mul_val, neg_bits, neg_val,
    pow_bits, pow_val, sub_bits, sub_val, NEG_ONE_BITS, ONE_BITS, TWO_BITS, ZERO_BITS,
};

verus! {

/// The operation that produced a node; `Leaf` marks a node built directly
/// from a scalar, with no predecessors and no gradient rule.
#[derive(Clone, Copy, PartialEq, Eq, Structural)]
pub enum Operation {
    Leaf,
    Neg,
    Add,
    Mul,
    Pow,
    Tanh,
    Exp,
}

/// The ghost image of one node: forward value and gradient as binary64 bit
/// patterns, a debug label, the predecessor indices in their fixed order, and
/// the operation tag.
#[verifier::ext_equal]
pub struct NodeModel {
    pub data: u64,
    pub grad: u64,
    pub label: Seq<char>,
    pub prev: Seq<int>,
    pub op: Operation,
}

/// How many predecessors a node with the given operation carries.
pub open spec fn arity(op: Operation) -> nat {
    match op {
        Operation::Leaf => 0,
        Operation::Neg => 1,
        Operation::Tanh => 1,
        Operation::Exp => 1,
        Operation::Add => 2,
        Operation::Mul => 2,
        Operation::Pow => 2,
    }
}

/// A node is well formed when its predecessor count matches its operation
/// and every predecessor index lies strictly below its own index, which makes
/// the whole graph a DAG by construction.
pub open spec fn node_wf(m: Seq<NodeModel>, i: int) -> bool {
    &&& m[i].prev.len() == arity(m[i].op)
    &&& forall|k: int| 0 <= k < m[i].prev.len() ==> 0 <= #[trigger] m[i].prev[k] < i
}

/// Every node of the graph is well formed.
pub open spec fn graph_wf(m: Seq<NodeModel>) -> bool {
    forall|i: int| 0 <= i < m.len() ==> #[trigger] node_wf(m, i)
}

/// The arena holding every node of a computation graph, as parallel columns
/// indexed by node id.
pub struct Graph {
    data: Vec<u64>,
    grad: Vec<u64>,
    label: Vec<String>,
    prev: Vec<Vec<usize>>,
    op: Vec<Operation>,
}

impl View for Graph {
    type V = Seq<NodeModel>;

    closed spec fn view(&self) -> Seq<NodeModel> {
        Seq::new(
            self.data@.len(),
            |i: int|
                NodeModel {
                    data: self.data@[i],
                    grad: self.grad@[i],
                    label: self.label@[i]@,
                    prev: self.prev@[i]@.map_values(|u: usize| u as int),
                    op: self.op@[i],
                },
        )
    }
}

impl Graph {
    /// The five columns describe the same number of nodes.
    closed spec fn columns_agree(self) -> bool {
        &&& self.grad@.len() == self.data@.len()
        &&& self.label@.len() == self.data@.len()
        &&& self.prev@.len() == self.data@.len()
        &&& self.op@.len() == self.data@.len()
    }

    /// A graph is well formed when its storage is consistent and every node
    /// is well formed.
    pub closed spec fn wf(self) -> bool {
        &&& self.columns_agree()
        &&& graph_wf(self@)
    }

    /// The well-formedness of a graph is exactly the well-formedness of its
    /// ghost image.
    pub proof fn lemma_wf_is_graph_wf(self)
        ensures
            self.wf() ==> graph_wf(self@),
    {
    }

    /// An empty graph, holding no nodes yet.
    pub fn new() -> (g: Graph)
        ensures
            g@ == Seq::<NodeModel>::empty(),
            g.wf(),
    {
        let g = Graph {
            data: Vec::new(),
            grad: Vec::new(),
            label: Vec::new(),
            prev: Vec::new(),
            op: Vec::new(),
        };
        proof {
            assert(g@ =~= Seq::<NodeModel>::empty());
        }
        g
    }

    /// The number of nodes held so far.
    pub fn node_count(&self) -> (n: usize)
        ensures
            n == self@.len(),
    {
        self.data.len()
    }
}

/// A handle to one node of a [`Graph`]: the node's arena index. Copying the
/// handle shares the node, it never copies it.
#[derive(Clone, Copy, Debug, PartialEq, Eq, Structural)]
pub struct Tensor {
    id: usize,
}

impl Tensor {
    /// The arena index this handle stands for.
    pub closed spec fn id(self) -> int {
        self.id as int
    }
}

/// The node a leaf constructor appends: the given value, gradient zero, the
/// given label, no predecessors, no rule.
pub open spec fn leaf_model(data: u64, label: Seq<char>) -> NodeModel {
    NodeModel { data, grad: ZERO_BITS, label, prev: Seq::empty(), op: Operation::Leaf }
}

/// One anonymous leaf per scalar of a sequence, in order.
pub open spec fn leaves_of(datas: Seq<u64>) -> Seq<NodeModel> {
    datas.map_values(|d: u64| leaf_model(d, Seq::<char>::empty()))
}

/// The graph with node `i`'s gradient replaced by `x`.
pub open spec fn with_grad(m: Seq<NodeModel>, i: int, x: u64) -> Seq<NodeModel> {
    m.update(i, NodeModel { grad: x, ..m[i] })
}

/// The graph with node `i`'s value replaced by `x`.
pub open spec fn with_data(m: Seq<NodeModel>, i: int, x: u64) -> Seq<NodeModel> {
    m.update(i, NodeModel { data: x, ..m[i] })
}

/// The graph with node `i`'s label replaced by `s`.
pub open spec fn with_label(m: Seq<NodeModel>, i: int, s: Seq<char>) -> Seq<NodeModel> {
    m.update(i, NodeModel { label: s, ..m[i] })
}

/// The node an operator appends: the computed value, gradient zero, an empty
/// label, the operand indices in order, and the operation tag.
pub open spec fn op_model(data: u64, prev: Seq<int>, op: Operation) -> NodeModel {
    NodeModel { data, grad: ZERO_BITS, label: Seq::empty(), prev, op }
}

/// The forward value of the hyperbolic tangent as the engine computes it:
/// (e^{2x} - 1) / (e^{2x} + 1), over binary64 bit patterns.
pub open spec fn tanh_fwd(x: u64) -> u64 {
    let e2x = exp_bits(mul_bits(x, TWO_BITS));
    div_bits(sub_bits(e2x, ONE_BITS), add_bits(e2x, ONE_BITS))
}

/// The value node `i`'s operation assigns to it, given its predecessors'
/// stored values; a leaf's value is its own stored scalar.
pub open spec fn op_value(m: Seq<NodeModel>, i: int) -> u64 {
    let n = m[i];
    match n.op {
        Operation::Leaf => n.data,
        Operation::Neg => neg_bits(m[n.prev[0]].data),
        Operation::Add => add_bits(m[n.prev[0]].data, m[n.prev[1]].data),
        Operation::Mul => mul_bits(m[n.prev[0]].data, m[n.prev[1]].data),
        Operation::Pow => pow_bits(m[n.prev[0]].data, m[n.prev[1]].data),
        Operation::Tanh => tanh_fwd(m[n.prev[0]].data),
        Operation::Exp => exp_bits(m[n.prev[0]].data),
    }
}

/// The arena indices a sequence of handles stands for.
pub open spec fn ids_of(ts: Seq<Tensor>) -> Seq<int> {
    ts.map_values(|t: Tensor| t.id())
}

/// The stored values of the nodes at the given indices.
pub open spec fn vals_of(m: Seq<NodeModel>, ids: Seq<int>) -> Seq<u64> {
    ids.map_values(|i: int| m[i].data)
}

/// The left fold of binary64 addition over a sequence of scalars, started
/// from zero: `(((0 + v0) + v1) + ...)`.
pub open spec fn fold_sum(vals: Seq<u64>) -> u64
    decreases vals.len(),
{
    if vals.len() == 0 {
        ZERO_BITS
    } else {
        add_bits(fold_sum(vals.drop_last()), vals.last())
    }
}

/// Node `j` is reachable from node `i` by following predecessor edges
/// backward, the node itself included.
pub open spec fn reaches(m: Seq<NodeModel>, i: int, j: int) -> bool
    decreases i,
{
    if 0 <= i < m.len() && node_wf(m, i) {
        i == j || exists|k: int|
            0 <= k < m[i].prev.len() && reaches(m, #[trigger] m[i].prev[k], j)
    } else {
        i == j
    }
}

/// The state of a depth-first traversal: the identity-keyed visited set,
/// shared across the whole traversal, and the post-order emitted so far.
#[verifier::ext_equal]
pub struct Walk {
    pub vis: Set<int>,
    pub order: Seq<int>,
}

/// Depth-first post-order visit of node `i`: a node already visited is
/// skipped entirely; otherwise it is marked visited, its predecessors are
/// walked in their fixed left-to-right order, and the node itself is emitted
/// after all of them.
pub open spec fn dfs_node(m: Seq<NodeModel>, i: int, w: Walk) -> Walk
    decreases i + 1, 0int,
{
    if !(0 <= i < m.len()) || w.vis.contains(i) {
        w
    } else {
        let w1 = dfs_node_list(m, i, m[i].prev, Walk { vis: w.vis.insert(i), order: w.order });
        Walk { vis: w1.vis, order: w1.order.push(i) }
    }
}

/// Walk a list of predecessors of a node with index `b`, left to right,
/// threading one shared visited set through the whole list.
pub open spec fn dfs_node_list(m: Seq<NodeModel>, b: int, l: Seq<int>, w: Walk) -> Walk
    decreases b, l.len() + 1,
{
    if l.len() == 0 || b < 0 {
        w
    } else {
        let w1 = if 0 <= l[0] < b {
            dfs_node(m, l[0], w)
        } else {
            w
        };
        dfs_node_list(m, b, l.drop_first(), w1)
    }
}

/// The dependency-respecting linear order of every node reachable from
/// `root`: a depth-first post-order starting from an empty visited set.
pub open spec fn post_order(m: Seq<NodeModel>, root: int) -> Seq<int> {
    dfs_node(m, root, Walk { vis: Set::empty(), order: Seq::empty() }).order
}

/// Node `x` is emitted somewhere strictly before position `a` of the order.
pub open spec fn emitted_before(order: Seq<int>, a: int, x: int) -> bool {
    exists|c: int| 0 <= c < a && order[c] == x
}

/// A traversal output is in good shape when every emitted node is in bounds,
/// none is emitted twice, and each one's predecessors are all emitted at
/// strictly earlier positions.
pub open spec fn ordered_ok(m: Seq<NodeModel>, order: Seq<int>) -> bool {
    &&& forall|a: int| 0 <= a < order.len() ==> 0 <= #[trigger] order[a] < m.len()
    &&& forall|a: int, b: int| 0 <= a < b < order.len() ==> order[a] != order[b]
    &&& forall|a: int, k: int|
        0 <= a < order.len() && 0 <= k < m[order[a]].prev.len() ==> emitted_before(
            order,
            a,
            #[trigger] m[order[a]].prev[k],
        )
}

/// The invariant a depth-first walk maintains: the emitted order is in good
/// shape, the visited set is exactly the in-progress (`gray`) nodes together
/// with the emitted ones, and no in-progress node has been emitted.
spec fn walk_inv(m: Seq<NodeModel>, gray: Set<int>, w: Walk) -> bool {
    &&& ordered_ok(m, w.order)
    &&& forall|j: int|
        #![trigger w.vis.contains(j)]
        #![trigger w.order.contains(j)]
        w.vis.contains(j) <==> (gray.contains(j) || w.order.contains(j))
    &&& forall|j: int|
        #![trigger gray.contains(j)]
        #![trigger w.order.contains(j)]
        gray.contains(j) ==> !w.order.contains(j)
}

/// An element of a prefix is an element of the whole.
proof fn lemma_prefix_contains(s1: Seq<int>, s2: Seq<int>, x: int)
    requires
        s1.is_prefix_of(s2),
        s1.contains(x),
    ensures
        s2.contains(x),
{
    let a = choose|a: int| 0 <= a < s1.len() && s1[a] == x;
    assert(s2[a] == x);
}

/// In an output in good shape, the nodes emitted are closed under reaching:
/// whatever an emitted node reaches is emitted too.
proof fn lemma_ordered_closed(m: Seq<NodeModel>, order: Seq<int>, i: int, j: int)
    requires
        graph_wf(m),
        ordered_ok(m, order),
        0 <= i < m.len(),
        order.contains(i),
        reaches(m, i, j),
    ensures
        order.contains(j),
    decreases i,
{
    assert(node_wf(m, i));
    if i != j {
        let k = choose|k: int| 0 <= k < m[i].prev.len() && reaches(m, #[trigger] m[i].prev[k], j);
        let a = choose|a: int| 0 <= a < order.len() && order[a] == i;
        assert(emitted_before(order, a, m[i].prev[k]));
        let c = choose|c: int| 0 <= c < a && order[c] == m[i].prev[k];
        assert(order.contains(m[i].prev[k]));
        lemma_ordered_closed(m, order, m[i].prev[k], j);
    }
}

/// What one depth-first visit guarantees: the walk invariant is kept, the
/// old output is a prefix of the new one, the visited node is emitted, every
/// newly emitted node has index at most `i` and is reachable from `i`, the
/// visited set only grows, and everything reachable from `i` ends up emitted.
proof fn lemma_dfs_node(m: Seq<NodeModel>, i: int, gray: Set<int>, w: Walk)
    requires
        graph_wf(m),
        0 <= i < m.len(),
        walk_inv(m, gray, w),
        forall|x: int| gray.contains(x) ==> x > i,
    ensures
        ({
            let w2 = dfs_node(m, i, w);
            &&& walk_inv(m, gray, w2)
            &&& w.order.is_prefix_of(w2.order)
            &&& w2.order.contains(i)
            &&& forall|j: int|
                #[trigger] w2.order.contains(j) && !w.order.contains(j) ==> j <= i && reaches(
                    m,
                    i,
                    j,
                )
            &&& forall|j: int| w.vis.contains(j) ==> w2.vis.contains(j)
            &&& forall|j: int| reaches(m, i, j) ==> #[trigger] w2.order.contains(j)
        }),
    decreases i + 1, 0int,
{
    let w2 = dfs_node(m, i, w);
    assert(node_wf(m, i));
    if w.vis.contains(i) {
        assert(w.order.contains(i));
        assert forall|j: int| reaches(m, i, j) implies #[trigger] w2.order.contains(j) by {
            lemma_ordered_closed(m, w.order, i, j);
        }
        assert(w.order.is_prefix_of(w.order));
    } else {
        let gray1 = gray.insert(i);
        let win = Walk { vis: w.vis.insert(i), order: w.order };
        assert(walk_inv(m, gray1, win));
        lemma_dfs_list(m, i, m[i].prev, gray1, win);
        let w1 = dfs_node_list(m, i, m[i].prev, win);
        assert(w2.order == w1.order.push(i));
        assert(!w1.order.contains(i));
        // the pushed entry keeps the output in good shape
        assert forall|a: int| 0 <= a < w2.order.len() implies 0 <= #[trigger] w2.order[a]
            < m.len() by {
            if a < w1.order.len() {
                assert(w1.order[a] == w2.order[a]);
            }
        }
        assert forall|a: int, b: int| 0 <= a < b < w2.order.len() implies w2.order[a]
            != w2.order[b] by {
            if b < w1.order.len() {
            } else {
                assert(w2.order[b] == i);
                assert(w1.order.contains(w1.order[a]) == true);
            }
        }
        assert forall|a: int, k: int|
            0 <= a < w2.order.len() && 0 <= k < m[w2.order[a]].prev.len() implies emitted_before(
            w2.order,
            a,
            #[trigger] m[w2.order[a]].prev[k],
        ) by {
            if a < w1.order.len() {
                assert(w2.order[a] == w1.order[a]);
                assert(emitted_before(w1.order, a, m[w1.order[a]].prev[k]));
                let c = choose|c: int| 0 <= c < a && w1.order[c] == m[w1.order[a]].prev[k];
                assert(w2.order[c] == m[w2.order[a]].prev[k]);
            } else {
                assert(w2.order[a] == i);
                assert(w1.order.contains(m[i].prev[k]));
                let c = choose|c: int| 0 <= c < w1.order.len() && w1.order[c] == m[i].prev[k];
                assert(w2.order[c] == m[w2.order[a]].prev[k]);
            }
        }
        assert(ordered_ok(m, w2.order));
        // the visited set is the gray set plus the emitted set
        assert forall|j: int|
            #![trigger w2.vis.contains(j)]
            #![trigger w2.order.contains(j)]
            w2.vis.contains(j) <==> (gray.contains(j) || w2.order.contains(j)) by {
            assert(w2.order.contains(j) <==> (w1.order.contains(j) || j == i)) by {
                if w1.order.contains(j) {
                    lemma_prefix_contains(w1.order, w2.order, j);
                }
                if w2.order.contains(j) && j != i {
                    let a = choose|a: int| 0 <= a < w2.order.len() && w2.order[a] == j;
                    assert(w1.order[a] == j);
                }
                if j == i {
                    assert(w2.order.last() == i);
                }
            }
        }
        assert(walk_inv(m, gray, w2));
        assert(w2.order.contains(i)) by {
            assert(w2.order.last() == i);
        }
        // new emissions are bounded by i and reachable from i
        assert forall|j: int|
            #[trigger] w2.order.contains(j) && !w.order.contains(j) implies j <= i && reaches(
            m,
            i,
            j,
        ) by {
            if j != i {
                let a = choose|a: int| 0 <= a < w2.order.len() && w2.order[a] == j;
                assert(w1.order[a] == j);
                assert(w1.order.contains(j));
                assert(j < i);
                let k = choose|k: int|
                    0 <= k < m[i].prev.len() && reaches(m, #[trigger] m[i].prev[k], j);
                assert(reaches(m, i, j));
            }
        }
        // completeness: everything reachable from i is emitted
        assert forall|j: int| reaches(m, i, j) implies #[trigger] w2.order.contains(j) by {
            if j == i {
                assert(w2.order.last() == i);
            } else {
                let k = choose|k: int|
                    0 <= k < m[i].prev.len() && reaches(m, #[trigger] m[i].prev[k], j);
                assert(w1.order.contains(j));
                lemma_prefix_contains(w1.order, w2.order, j);
            }
        }
        assert forall|j: int| w.order.contains(j) implies w1.order.contains(j) by {
            lemma_prefix_contains(w.order, w1.order, j);
        }
        assert(w.order.is_prefix_of(w2.order)) by {
            assert(w2.order.take(w1.order.len() as int) =~= w1.order);
            assert(w1.order.take(w.order.len() as int) =~= w.order);
            assert(w2.order.take(w.order.len() as int) =~= w.order);
        }
    }
}

/// What one left-to-right walk of a predecessor list guarantees, threading
/// one shared visited set: the walk invariant is kept, every listed node is
/// emitted, every newly emitted node has index below `b` and is reachable
/// from some listed node, and everything reachable from a listed node ends
/// up emitted.
proof fn lemma_dfs_list(m: Seq<NodeModel>, b: int, l: Seq<int>, gray: Set<int>, w: Walk)
    requires
        graph_wf(m),
        0 <= b < m.len(),
        forall|k: int| 0 <= k < l.len() ==> 0 <= #[trigger] l[k] < b,
        walk_inv(m, gray, w),
        forall|x: int| gray.contains(x) ==> x >= b,
    ensures
        ({
            let w2 = dfs_node_list(m, b, l, w);
            &&& walk_inv(m, gray, w2)
            &&& w.order.is_prefix_of(w2.order)
            &&& forall|k: int| 0 <= k < l.len() ==> w2.order.contains(#[trigger] l[k])
            &&& forall|j: int|
                #[trigger] w2.order.contains(j) && !w.order.contains(j) ==> j < b && exists|k: int|
                    0 <= k < l.len() && reaches(m, #[trigger] l[k], j)
            &&& forall|j: int| w.vis.contains(j) ==> w2.vis.contains(j)
            &&& forall|k: int, j: int|
                0 <= k < l.len() && #[trigger] reaches(m, l[k], j) ==> w2.order.contains(j)
        }),
    decreases b, l.len() + 1,
{
    let w2 = dfs_node_list(m, b, l, w);
    if l.len() == 0 {
        assert(w.order.is_prefix_of(w.order));
    } else {
        let p = l[0];
        lemma_dfs_node(m, p, gray, w);
        let wh = dfs_node(m, p, w);
        let lt = l.drop_first();
        lemma_dfs_list(m, b, lt, gray, wh);
        let w3 = dfs_node_list(m, b, lt, wh);
        assert(w2 == w3);
        assert(w.order.is_prefix_of(w2.order)) by {
            assert(wh.order.take(w.order.len() as int) =~= w.order);
            assert(w3.order.take(wh.order.len() as int) =~= wh.order);
            assert(w3.order.take(w.order.len() as int) =~= w.order);
        }
        assert forall|k: int| 0 <= k < l.len() implies w2.order.contains(#[trigger] l[k]) by {
            if k == 0 {
                lemma_prefix_contains(wh.order, w3.order, p);
            } else {
                assert(lt[k - 1] == l[k]);
            }
        }
        assert forall|j: int|
            #[trigger] w2.order.contains(j) && !w.order.contains(j) implies j < b && exists|k: int|
            0 <= k < l.len() && reaches(m, #[trigger] l[k], j) by {
            if wh.order.contains(j) {
                // emitted while visiting the head
                assert(j <= p && reaches(m, p, j));
                assert(0 <= 0 < l.len() && reaches(m, l[0], j));
            } else {
                // emitted while walking the tail
                let k = choose|k: int| 0 <= k < lt.len() && reaches(m, #[trigger] lt[k], j);
                assert(l[k + 1] == lt[k]);
                assert(0 <= k + 1 < l.len() && reaches(m, l[k + 1], j));
            }
        }
        assert forall|k: int, j: int|
            0 <= k < l.len() && #[trigger] reaches(m, l[k], j) implies w2.order.contains(j) by {
            if k == 0 {
                assert(wh.order.contains(j));
                lemma_prefix_contains(wh.order, w3.order, j);
            } else {
                assert(lt[k - 1] == l[k]);
            }
        }
    }
}

/// Topological validity of the post-order: every reachable node appears
/// exactly once, in bounds, each strictly after all of its predecessors; the
/// root comes last, and the nodes emitted are exactly those reachable from
/// the root.
pub proof fn lemma_topological_validity(m: Seq<NodeModel>, root: int)
    requires
        graph_wf(m),
        0 <= root < m.len(),
    ensures
        ({
            let ord = post_order(m, root);
            &&& ordered_ok(m, ord)
            &&& ord.len() > 0
            &&& ord.last() == root
            &&& forall|j: int| #[trigger] ord.contains(j) <==> reaches(m, root, j)
        }),
{
    let w0 = Walk { vis: Set::empty(), order: Seq::empty() };
    assert(walk_inv(m, Set::empty(), w0));
    lemma_dfs_node(m, root, Set::empty(), w0);
    let w2 = dfs_node(m, root, w0);
    let ord = post_order(m, root);
    assert(ord == w2.order);
    assert(!w0.vis.contains(root));
    let w1 = dfs_node_list(m, root, m[root].prev, Walk { vis: w0.vis.insert(root), order: w0.order });
    assert(w2.order == w1.order.push(root));
    assert(ord.last() == root);
    assert forall|j: int| #[trigger] ord.contains(j) <==> reaches(m, root, j) by {
        if ord.contains(j) {
            assert(!w0.order.contains(j));
        }
    }
}

/// The gradient accumulator of node `p`, increased by the contribution `c`:
/// an additive update, never an overwrite.
pub open spec fn bump(m: Seq<NodeModel>, p: int, c: u64) -> Seq<NodeModel> {
    if 0 <= p < m.len() {
        m.update(p, NodeModel { grad: add_bits(m[p].grad, c), ..m[p] })
    } else {
        m
    }
}

/// One replay step of the backward pass: node `i`'s bound gradient rule,
/// accumulating a contribution into each of its predecessor slots using the
/// node's current value and gradient. A node occupying two slots (such as in
/// `a + a`) receives one contribution per slot. Leaves have no rule.
pub open spec fn rule_applied(m: Seq<NodeModel>, i: int) -> Seq<NodeModel> {
    if !(0 <= i < m.len()) {
        m
    } else {
        let n = m[i];
        match n.op {
            Operation::Leaf => m,
            Operation::Neg => bump(m, n.prev[0], mul_bits(NEG_ONE_BITS, n.grad)),
            Operation::Add => bump(
                bump(m, n.prev[0], mul_bits(ONE_BITS, n.grad)),
                n.prev[1],
                mul_bits(ONE_BITS, n.grad),
            ),
            Operation::Mul => bump(
                bump(m, n.prev[0], mul_bits(m[n.prev[1]].data, n.grad)),
                n.prev[1],
                mul_bits(m[n.prev[0]].data, n.grad),
            ),
            Operation::Pow => bump(
                m,
                n.prev[0],
                mul_bits(
                    mul_bits(
                        m[n.prev[1]].data,
                        pow_bits(m[n.prev[0]].data, sub_bits(m[n.prev[1]].data, ONE_BITS)),
                    ),
                    n.grad,
                ),
            ),
            Operation::Tanh => bump(
                m,
                n.prev[0],
                mul_bits(sub_bits(ONE_BITS, mul_bits(n.data, n.data)), n.grad),
            ),
            Operation::Exp => bump(m, n.prev[0], mul_bits(n.data, n.grad)),
        }
    }
}

/// Replay the gradient rules over an order, last entry first: exactly what
/// the backward driver does with a topological order, terminal first, leaves
/// last, each rule applied exactly once.
pub open spec fn replay(m: Seq<NodeModel>, order: Seq<int>) -> Seq<NodeModel>
    decreases order.len(),
{
    if order.len() == 0 {
        m
    } else {
        replay(rule_applied(m, order.last()), order.drop_last())
    }
}

/// Node `j` of `m2` differs from node `j` of `m1` at most in its gradient.
pub open spec fn same_structure_at(m1: Seq<NodeModel>, m2: Seq<NodeModel>, j: int) -> bool {
    &&& m2[j].data == m1[j].data
    &&& m2[j].op == m1[j].op
    &&& m2[j].prev == m1[j].prev
    &&& m2[j].label == m1[j].label
}

/// `m2` differs from `m1` at most in gradients: values, labels, operations,
/// predecessors and the node count all stay.
pub open spec fn same_structure(m1: Seq<NodeModel>, m2: Seq<NodeModel>) -> bool {
    &&& m2.len() == m1.len()
    &&& forall|j: int| 0 <= j < m1.len() ==> #[trigger] same_structure_at(m1, m2, j)
}

/// Keeping structure is transitive.
proof fn lemma_same_structure_trans(ma: Seq<NodeModel>, mb: Seq<NodeModel>, mc: Seq<NodeModel>)
    requires
        same_structure(ma, mb),
        same_structure(mb, mc),
    ensures
        same_structure(ma, mc),
{
    assert forall|j: int| 0 <= j < ma.len() implies #[trigger] same_structure_at(ma, mc, j) by {
        assert(same_structure_at(ma, mb, j));
        assert(same_structure_at(mb, mc, j));
    }
}

/// A rule application only touches gradient accumulators.
proof fn lemma_rule_applied_frame(m: Seq<NodeModel>, i: int)
    ensures
        same_structure(m, rule_applied(m, i)),
{
    let m2 = rule_applied(m, i);
    assert forall|j: int| 0 <= j < m.len() implies #[trigger] same_structure_at(m, m2, j) by {}
}

/// A whole replay only touches gradient accumulators.
proof fn lemma_replay_frame(m: Seq<NodeModel>, order: Seq<int>)
    ensures
        same_structure(m, replay(m, order)),
    decreases order.len(),
{
    if order.len() == 0 {
        assert forall|j: int| 0 <= j < m.len() implies #[trigger] same_structure_at(
            m,
            replay(m, order),
            j,
        ) by {}
    } else {
        let m1 = rule_applied(m, order.last());
        lemma_rule_applied_frame(m, order.last());
        lemma_replay_frame(m1, order.drop_last());
        assert(replay(m, order) == replay(m1, order.drop_last()));
        lemma_same_structure_trans(m, m1, replay(m1, order.drop_last()));
    }
}

/// What a whole backward pass leaves behind: the node count, values, labels,
/// operations and predecessors of the seeded graph are untouched, so the
/// result is still well formed, and value consistency survives.
proof fn lemma_backward_post(m0: Seq<NodeModel>, root: int)
    requires
        graph_wf(m0),
        0 <= root < m0.len(),
    ensures
        replay(with_grad(m0, root, ONE_BITS), post_order(m0, root)).len() == m0.len(),
        forall|j: int|
            #![auto]
            0 <= j < m0.len() ==> replay(
                with_grad(m0, root, ONE_BITS),
                post_order(m0, root),
            )[j].data == m0[j].data && replay(
                with_grad(m0, root, ONE_BITS),
                post_order(m0, root),
            )[j].op == m0[j].op && replay(
                with_grad(m0, root, ONE_BITS),
                post_order(m0, root),
            )[j].prev == m0[j].prev && replay(
                with_grad(m0, root, ONE_BITS),
                post_order(m0, root),
            )[j].label == m0[j].label,
        graph_wf(replay(with_grad(m0, root, ONE_BITS), post_order(m0, root))),
        values_consistent(m0) ==> values_consistent(
            replay(with_grad(m0, root, ONE_BITS), post_order(m0, root)),
        ),
{
    let seeded = with_grad(m0, root, ONE_BITS);
    let m2 = replay(seeded, post_order(m0, root));
    lemma_replay_frame(seeded, post_order(m0, root));
    assert forall|j: int| 0 <= j < m0.len() implies #[trigger] same_structure_at(
        m0,
        seeded,
        j,
    ) by {}
    assert(same_structure(m0, seeded));
    lemma_same_structure_trans(m0, seeded, m2);
    assert forall|j: int|
        0 <= j < m0.len() implies #[trigger] m2[j].data == m0[j].data && m2[j].op == m0[j].op
        && m2[j].prev == m0[j].prev && m2[j].label == m0[j].label by {
        assert(same_structure_at(m0, m2, j));
    }
    assert forall|j: int|
        0 <= j < m0.len() implies #[trigger] m2[j].prev == m0[j].prev && m2[j].op == m0[j].op by {
        assert(same_structure_at(m0, m2, j));
    }
    assert(forall|j: int|
        #![auto]
        0 <= j < m0.len() ==> replay(with_grad(m0, root, ONE_BITS), post_order(m0, root))[j].data
            == m0[j].data);
    assert(forall|j: int|
        #![auto]
        0 <= j < m0.len() ==> replay(with_grad(m0, root, ONE_BITS), post_order(m0, root))[j].label
            == m0[j].label);
    lemma_wf_same_structure(m0, m2);
    if values_consistent(m0) {
        assert forall|j: int|
            0 <= j < m0.len() implies #[trigger] m2[j].data == m0[j].data && m2[j].prev
            == m0[j].prev && m2[j].op == m0[j].op by {
            assert(same_structure_at(m0, m2, j));
        }
        lemma_consistent_same_values(m0, m2);
    }
}

/// The indices whose entry in a visited vector is set.
spec fn visited_set(v: Seq<bool>) -> Set<int> {
    Set::new(|j: int| 0 <= j < v.len() && v[j])
}

/// The traversal state a visited vector and an output vector stand for.
spec fn walk_of(v: Seq<bool>, ts: Seq<Tensor>) -> Walk {
    Walk { vis: visited_set(v), order: ids_of(ts) }
}

/// Node `i` holds exactly the value its operation computes from its
/// predecessors' stored values.
pub open spec fn consistent_at(m: Seq<NodeModel>, i: int) -> bool {
    m[i].data == op_value(m, i)
}

/// Every node holds the value its operation computes: true of any graph
/// built purely from leaves and operators, and broken only by an external
/// value overwrite on a non-leaf node.
pub open spec fn values_consistent(m: Seq<NodeModel>) -> bool {
    forall|i: int| 0 <= i < m.len() ==> #[trigger] consistent_at(m, i)
}

/// The forward value of the arithmetic expression rooted at node `i`,
/// evaluated directly over the leaves' stored scalars.
pub open spec fn eval(m: Seq<NodeModel>, i: int) -> u64
    decreases i,
{
    if 0 <= i < m.len() && node_wf(m, i) {
        let n = m[i];
        match n.op {
            Operation::Leaf => n.data,
            Operation::Neg => neg_bits(eval(m, n.prev[0])),
            Operation::Add => add_bits(eval(m, n.prev[0]), eval(m, n.prev[1])),
            Operation::Mul => mul_bits(eval(m, n.prev[0]), eval(m, n.prev[1])),
            Operation::Pow => pow_bits(eval(m, n.prev[0]), eval(m, n.prev[1])),
            Operation::Tanh => tanh_fwd(eval(m, n.prev[0])),
            Operation::Exp => exp_bits(eval(m, n.prev[0])),
        }
    } else {
        ZERO_BITS
    }
}

/// Forward correctness: in a well-formed graph whose values are consistent,
/// every node's stored value equals the direct evaluation of the arithmetic
/// expression it is the root of.
pub proof fn lemma_forward_correct(m: Seq<NodeModel>, i: int)
    requires
        graph_wf(m),
        values_consistent(m),
        0 <= i < m.len(),
    ensures
        m[i].data == eval(m, i),
    decreases i,
{
    assert(node_wf(m, i));
    assert(consistent_at(m, i));
    match m[i].op {
        Operation::Leaf => {},
        Operation::Neg => {
            lemma_forward_correct(m, m[i].prev[0]);
        },
        Operation::Add => {
            lemma_forward_correct(m, m[i].prev[0]);
            lemma_forward_correct(m, m[i].prev[1]);
        },
        Operation::Mul => {
            lemma_forward_correct(m, m[i].prev[0]);
            lemma_forward_correct(m, m[i].prev[1]);
        },
        Operation::Pow => {
            lemma_forward_correct(m, m[i].prev[0]);
            lemma_forward_correct(m, m[i].prev[1]);
        },
        Operation::Tanh => {
            lemma_forward_correct(m, m[i].prev[0]);
        },
        Operation::Exp => {
            lemma_forward_correct(m, m[i].prev[0]);
        },
    }
}

/// Appending a node whose value is what its operation computes preserves
/// value consistency: old nodes read the same predecessors as before.
proof fn lemma_push_consistent(m: Seq<NodeModel>, n: NodeModel)
    requires
        graph_wf(m),
        values_consistent(m),
        forall|k: int| 0 <= k < n.prev.len() ==> 0 <= #[trigger] n.prev[k] < m.len(),
        n.data == op_value(m.push(n), m.len() as int),
    ensures
        values_consistent(m.push(n)),
{
    let m2 = m.push(n);
    assert forall|i: int| 0 <= i < m2.len() implies #[trigger] consistent_at(m2, i) by {
        if i < m.len() {
            assert(consistent_at(m, i));
            assert(node_wf(m, i));
            assert(m2[i] == m[i]);
        } else {
            assert(m2[i] == n);
        }
    }
}

/// Value consistency only reads values, predecessors and operation tags, so
/// a change that keeps all three (such as a gradient or label update) keeps
/// the graph consistent.
proof fn lemma_consistent_same_values(m1: Seq<NodeModel>, m2: Seq<NodeModel>)
    requires
        graph_wf(m1),
        values_consistent(m1),
        m2.len() == m1.len(),
        forall|i: int|
            0 <= i < m1.len() ==> #[trigger] m2[i].data == m1[i].data && m2[i].prev == m1[i].prev
                && m2[i].op == m1[i].op,
    ensures
        values_consistent(m2),
{
    assert forall|i: int| 0 <= i < m2.len() implies #[trigger] consistent_at(m2, i) by {
        assert(consistent_at(m1, i));
        assert(node_wf(m1, i));
    }
}

/// Appending a node whose predecessors lie inside the old graph keeps the
/// graph well formed.
proof fn lemma_push_wf(m: Seq<NodeModel>, n: NodeModel)
    requires
        graph_wf(m),
        n.prev.len() == arity(n.op),
        forall|k: int| 0 <= k < n.prev.len() ==> 0 <= #[trigger] n.prev[k] < m.len(),
    ensures
        graph_wf(m.push(n)),
{
    let m2 = m.push(n);
    assert forall|i: int| 0 <= i < m2.len() implies #[trigger] node_wf(m2, i) by {
        if i < m.len() {
            assert(node_wf(m, i));
            assert(m2[i] == m[i]);
        } else {
            assert(m2[i] == n);
        }
    }
}

/// Well-formedness only reads predecessors and operation tags, so a change
/// that keeps both keeps the graph well formed.
proof fn lemma_wf_same_structure(m1: Seq<NodeModel>, m2: Seq<NodeModel>)
    requires
        graph_wf(m1),
        m2.len() == m1.len(),
        forall|i: int|
            0 <= i < m1.len() ==> #[trigger] m2[i].prev == m1[i].prev && m2[i].op == m1[i].op,
    ensures
        graph_wf(m2),
{
    assert forall|i: int| 0 <= i < m2.len() implies #[trigger] node_wf(m2, i) by {
        assert(node_wf(m1, i));
    }
}

impl Tensor {
    /// Construct a leaf node holding the given scalar, with gradient zero,
    /// an empty label, no predecessors and no gradient rule.
    pub fn new(g: &mut Graph, data: u64) -> (t: Tensor)
        requires
            old(g).wf(),
        ensures
            t.id() == old(g)@.len(),
            final(g)@ == old(g)@.push(leaf_model(data, Seq::<char>::empty())),
            final(g).wf(),
            values_consistent(old(g)@) ==> values_consistent(final(g)@),
    {
        let id = g.data.len();
        g.data.push(data);
        g.grad.push(ZERO_BITS);
        g.label.push(String::new());
        g.prev.push(Vec::new());
        g.op.push(Operation::Leaf);
        proof {
            assert(g@ =~~= old(g)@.push(leaf_model(data, Seq::<char>::empty())));
            lemma_push_wf(old(g)@, leaf_model(data, Seq::<char>::empty()));
            if values_consistent(old(g)@) {
                lemma_push_consistent(old(g)@, leaf_model(data, Seq::<char>::empty()));
            }
        }
        Tensor { id }
    }

    /// Construct a leaf node carrying a debug label.
    pub fn new_with_label(g: &mut Graph, data: u64, label: &str) -> (t: Tensor)
        requires
            old(g).wf(),
        ensures
            t.id() == old(g)@.len(),
            final(g)@ == old(g)@.push(leaf_model(data, label@)),
            final(g).wf(),
            values_consistent(old(g)@) ==> values_consistent(final(g)@),
    {
        let ghost m1 = g@.push(leaf_model(data, label@));
        let t = Tensor::new(g, data);
        let ghost m2 = g@;
        t.set_label(g, label);
        proof {
            assert(g@ =~~= m1);
            if values_consistent(old(g)@) {
                lemma_consistent_same_values(m2, g@);
            }
        }
        t
    }

    /// Construct one leaf node per scalar of the given vector, in order.
    pub fn from_vec(g: &mut Graph, datas: Vec<u64>) -> (ts: Vec<Tensor>)
        requires
            old(g).wf(),
        ensures
            ts@.len() == datas@.len(),
            final(g)@ == old(g)@ + leaves_of(datas@),
            forall|k: int| 0 <= k < datas@.len() ==> #[trigger] ts@[k].id() == old(g)@.len() + k,
            final(g).wf(),
            values_consistent(old(g)@) ==> values_consistent(final(g)@),
    {
        let ghost m0 = g@;
        let mut ts: Vec<Tensor> = Vec::new();
        let mut k: usize = 0;
        proof {
            assert(g@ =~= m0 + leaves_of(datas@.take(0)));
        }
        while k < datas.len()
            invariant
                g.wf(),
                k <= datas@.len(),
                ts@.len() == k,
                g@ == m0 + leaves_of(datas@.take(k as int)),
                forall|j: int| 0 <= j < k ==> #[trigger] ts@[j].id() == m0.len() + j,
                values_consistent(m0) ==> values_consistent(g@),
            decreases datas@.len() - k,
        {
            let ghost mprev = g@;
            let t = Tensor::new(g, datas[k]);
            ts.push(t);
            k = k + 1;
            proof {
                assert(datas@.take(k as int).drop_last() =~= datas@.take(k - 1));
                assert(leaves_of(datas@.take(k as int)) =~~= leaves_of(datas@.take(k - 1)).push(
                    leaf_model(datas@[k - 1], Seq::<char>::empty()),
                ));
                assert(g@ =~~= m0 + leaves_of(datas@.take(k as int)));
            }
        }
        proof {
            assert(datas@.take(datas@.len() as int) =~= datas@);
        }
        ts
    }

    /// Read the node's forward value.
    pub fn data(&self, g: &Graph) -> (r: u64)
        requires
            g.wf(),
            self.id() < g@.len(),
        ensures
            r == g@[self.id()].data,
    {
        g.data[self.id]
    }

    /// Read the node's accumulated gradient.
    pub fn grad(&self, g: &Graph) -> (r: u64)
        requires
            g.wf(),
            self.id() < g@.len(),
        ensures
            r == g@[self.id()].grad,
    {
        g.grad[self.id]
    }

    /// Read the node's debug label.
    pub fn label(&self, g: &Graph) -> (r: String)
        requires
            g.wf(),
            self.id() < g@.len(),
        ensures
            r@ == g@[self.id()].label,
    {
        g.label[self.id].clone()
    }

    /// A read-only snapshot of the node's predecessors, as handles, in their
    /// fixed order.
    pub fn prev(&self, g: &Graph) -> (r: Vec<Tensor>)
        requires
            g.wf(),
            self.id() < g@.len(),
        ensures
            r@.len() == g@[self.id()].prev.len(),
            forall|k: int| 0 <= k < r@.len() ==> #[trigger] r@[k].id() == g@[self.id()].prev[k],
    {
        let ps = &g.prev[self.id];
        let mut r: Vec<Tensor> = Vec::new();
        let mut k: usize = 0;
        while k < ps.len()
            invariant
                ps@ == g.prev@[self.id()]@,
                g@[self.id()].prev == ps@.map_values(|u: usize| u as int),
                self.id() < g@.len(),
                k <= ps@.len(),
                r@.len() == k,
                forall|j: int| 0 <= j < k ==> #[trigger] r@[j].id() == g@[self.id()].prev[j],
            decreases ps@.len() - k,
        {
            r.push(Tensor { id: ps[k] });
            k = k + 1;
        }
        r
    }

    /// Overwrite the node's gradient; a plain mutator, not a graph operation.
    pub fn set_grad(&self, g: &mut Graph, grad: u64)
        requires
            old(g).wf(),
            self.id() < old(g)@.len(),
        ensures
            final(g)@ == with_grad(old(g)@, self.id(), grad),
            final(g).wf(),
    {
        g.grad.set(self.id, grad);
        proof {
            assert(g@ =~~= with_grad(old(g)@, self.id(), grad));
            lemma_wf_same_structure(old(g)@, g@);
        }
    }

    /// Overwrite the node's forward value, as an external optimizer step
    /// does with a parameter after reading its gradient.
    pub fn set_data(&self, g: &mut Graph, data: u64)
        requires
            old(g).wf(),
            self.id() < old(g)@.len(),
        ensures
            final(g)@ == with_data(old(g)@, self.id(), data),
            final(g).wf(),
    {
        g.data.set(self.id, data);
        proof {
            assert(g@ =~~= with_data(old(g)@, self.id(), data));
            lemma_wf_same_structure(old(g)@, g@);
        }
    }

    /// Append an operator node: the computed value, gradient zero, an empty
    /// label, and the given operands.
    fn push_op(g: &mut Graph, data: u64, op: Operation, prev: Vec<usize>) -> (t: Tensor)
        requires
            old(g).wf(),
            prev@.len() == arity(op),
            forall|k: int| 0 <= k < prev@.len() ==> #[trigger] prev@[k] < old(g)@.len(),
        ensures
            t.id() == old(g)@.len(),
            final(g)@ == old(g)@.push(
                op_model(data, prev@.map_values(|u: usize| u as int), op),
            ),
            final(g).wf(),
    {
        let ghost pseq = prev@.map_values(|u: usize| u as int);
        let id = g.data.len();
        g.data.push(data);
        g.grad.push(ZERO_BITS);
        g.label.push(String::new());
        g.prev.push(prev);
        g.op.push(op);
        proof {
            assert(g@ =~~= old(g)@.push(op_model(data, pseq, op)));
            lemma_push_wf(old(g)@, op_model(data, pseq, op));
        }
        Tensor { id }
    }

    /// Negation: a fresh node holding `-a`, whose rule will send
    /// `-1 * out.gradient` to its one operand.
    pub fn neg(&self, g: &mut Graph) -> (t: Tensor)
        requires
            old(g).wf(),
            self.id() < old(g)@.len(),
        ensures
            t.id() == old(g)@.len(),
            final(g)@ == old(g)@.push(
                op_model(neg_bits(old(g)@[self.id()].data), seq![self.id()], Operation::Neg),
            ),
            final(g).wf(),
            values_consistent(old(g)@) ==> values_consistent(final(g)@),
    {
        let v = neg_val(g.data[self.id]);
        let mut ps: Vec<usize> = Vec::new();
        ps.push(self.id);
        let t = Self::push_op(g, v, Operation::Neg, ps);
        proof {
            assert(g@ =~~= old(g)@.push(
                op_model(neg_bits(old(g)@[self.id()].data), seq![self.id()], Operation::Neg),
            ));
            if values_consistent(old(g)@) {
                lemma_push_consistent(old(g)@, g@.last());
            }
        }
        t
    }

    /// Addition: a fresh node holding `a + b`, whose rule will send
    /// `1 * out.gradient` to each of its two operand slots.
    pub fn add(&self, g: &mut Graph, rhs: &Tensor) -> (t: Tensor)
        requires
            old(g).wf(),
            self.id() < old(g)@.len(),
            rhs.id() < old(g)@.len(),
        ensures
            t.id() == old(g)@.len(),
            final(g)@ == old(g)@.push(
                op_model(
                    add_bits(old(g)@[self.id()].data, old(g)@[rhs.id()].data),
                    seq![self.id(), rhs.id()],
                    Operation::Add,
                ),
            ),
            final(g).wf(),
            values_consistent(old(g)@) ==> values_consistent(final(g)@),
    {
        let v = add_val(g.data[self.id], g.data[rhs.id]);
        let mut ps: Vec<usize> = Vec::new();
        ps.push(self.id);
        ps.push(rhs.id);
        let t = Self::push_op(g, v, Operation::Add, ps);
        proof {
            assert(g@ =~~= old(g)@.push(
                op_model(
                    add_bits(old(g)@[self.id()].data, old(g)@[rhs.id()].data),
                    seq![self.id(), rhs.id()],
                    Operation::Add,
                ),
            ));
            if values_consistent(old(g)@) {
                lemma_push_consistent(old(g)@, g@.last());
            }
        }
        t
    }

    /// Multiplication: a fresh node holding `a * b`, whose rule will send
    /// `b.value * out.gradient` to the left operand and `a.value *
    /// out.gradient` to the right one.
    pub fn mul(&self, g: &mut Graph, rhs: &Tensor) -> (t: Tensor)
        requires
            old(g).wf(),
            self.id() < old(g)@.len(),
            rhs.id() < old(g)@.len(),
        ensures
            t.id() == old(g)@.len(),
            final(g)@ == old(g)@.push(
                op_model(
                    mul_bits(old(g)@[self.id()].data, old(g)@[rhs.id()].data),
                    seq![self.id(), rhs.id()],
                    Operation::Mul,
                ),
            ),
            final(g).wf(),
            values_consistent(old(g)@) ==> values_consistent(final(g)@),
    {
        let v = mul_val(g.data[self.id], g.data[rhs.id]);
        let mut ps: Vec<usize> = Vec::new();
        ps.push(self.id);
        ps.push(rhs.id);
        let t = Self::push_op(g, v, Operation::Mul, ps);
        proof {
            assert(g@ =~~= old(g)@.push(
                op_model(
                    mul_bits(old(g)@[self.id()].data, old(g)@[rhs.id()].data),
                    seq![self.id(), rhs.id()],
                    Operation::Mul,
                ),
            ));
            if values_consistent(old(g)@) {
                lemma_push_consistent(old(g)@, g@.last());
            }
        }
        t
    }

    /// Raise the node to a constant exponent. The exponent is wrapped as an
    /// anonymous leaf occupying the second operand slot, but it is not
    /// differentiated: the rule sends `k * a^(k-1) * out.gradient` to the
    /// base alone.
    pub fn pow(&self, g: &mut Graph, exponent: u64) -> (t: Tensor)
        requires
            old(g).wf(),
            self.id() < old(g)@.len(),
        ensures
            t.id() == old(g)@.len() + 1,
            final(g)@ == old(g)@.push(leaf_model(exponent, Seq::<char>::empty())).push(
                op_model(
                    pow_bits(old(g)@[self.id()].data, exponent),
                    seq![self.id(), old(g)@.len() as int],
                    Operation::Pow,
                ),
            ),
            final(g).wf(),
            values_consistent(old(g)@) ==> values_consistent(final(g)@),
    {
        let ghost m0 = g@;
        let x = g.data[self.id];
        let e = Tensor::new(g, exponent);
        let v = pow_val(x, exponent);
        let mut ps: Vec<usize> = Vec::new();
        ps.push(self.id);
        ps.push(e.id);
        let t = Self::push_op(g, v, Operation::Pow, ps);
        proof {
            assert(g@ =~~= m0.push(leaf_model(exponent, Seq::<char>::empty())).push(
                op_model(
                    pow_bits(m0[self.id()].data, exponent),
                    seq![self.id(), m0.len() as int],
                    Operation::Pow,
                ),
            ));
            if values_consistent(m0) {
                lemma_push_consistent(m0, leaf_model(exponent, Seq::<char>::empty()));
                lemma_push_wf(m0, leaf_model(exponent, Seq::<char>::empty()));
                lemma_push_consistent(m0.push(leaf_model(exponent, Seq::<char>::empty())), g@.last());
            }
        }
        t
    }

    /// The hyperbolic tangent, computed as `(e^{2a} - 1) / (e^{2a} + 1)`:
    /// a fresh node whose rule will send `(1 - out.value^2) * out.gradient`
    /// to its one operand.
    pub fn tanh(&self, g: &mut Graph) -> (t: Tensor)
        requires
            old(g).wf(),
            self.id() < old(g)@.len(),
        ensures
            t.id() == old(g)@.len(),
            final(g)@ == old(g)@.push(
                op_model(tanh_fwd(old(g)@[self.id()].data), seq![self.id()], Operation::Tanh),
            ),
            final(g).wf(),
            values_consistent(old(g)@) ==> values_consistent(final(g)@),
    {
        let x = g.data[self.id];
        let e2x = exp_val(mul_val(x, TWO_BITS));
        let v = div_val(sub_val(e2x, ONE_BITS), add_val(e2x, ONE_BITS));
        let mut ps: Vec<usize> = Vec::new();
        ps.push(self.id);
        let t = Self::push_op(g, v, Operation::Tanh, ps);
        proof {
            assert(g@ =~~= old(g)@.push(
                op_model(tanh_fwd(old(g)@[self.id()].data), seq![self.id()], Operation::Tanh),
            ));
            if values_consistent(old(g)@) {
                lemma_push_consistent(old(g)@, g@.last());
            }
        }
        t
    }

    /// The exponential: a fresh node holding `e^a`, whose rule will send
    /// `out.value * out.gradient` to its one operand.
    pub fn exp(&self, g: &mut Graph) -> (t: Tensor)
        requires
            old(g).wf(),
            self.id() < old(g)@.len(),
        ensures
            t.id() == old(g)@.len(),
            final(g)@ == old(g)@.push(
                op_model(exp_bits(old(g)@[self.id()].data), seq![self.id()], Operation::Exp),
            ),
            final(g).wf(),
            values_consistent(old(g)@) ==> values_consistent(final(g)@),
    {
        let v = exp_val(g.data[self.id]);
        let mut ps: Vec<usize> = Vec::new();
        ps.push(self.id);
        let t = Self::push_op(g, v, Operation::Exp, ps);
        proof {
            assert(g@ =~~= old(g)@.push(
                op_model(exp_bits(old(g)@[self.id()].data), seq![self.id()], Operation::Exp),
            ));
            if values_consistent(old(g)@) {
                lemma_push_consistent(old(g)@, g@.last());
            }
        }
        t
    }

    /// Subtraction, composed as `a + (-b)`: it appends the negation node and
    /// then the addition node, and carries no gradient rule of its own.
    pub fn sub(&self, g: &mut Graph, rhs: &Tensor) -> (t: Tensor)
        requires
            old(g).wf(),
            self.id() < old(g)@.len(),
            rhs.id() < old(g)@.len(),
        ensures
            t.id() == old(g)@.len() + 1,
            final(g)@ == old(g)@.push(
                op_model(neg_bits(old(g)@[rhs.id()].data), seq![rhs.id()], Operation::Neg),
            ).push(
                op_model(
                    add_bits(old(g)@[self.id()].data, neg_bits(old(g)@[rhs.id()].data)),
                    seq![self.id(), old(g)@.len() as int],
                    Operation::Add,
                ),
            ),
            final(g).wf(),
            values_consistent(old(g)@) ==> values_consistent(final(g)@),
    {
        let n = rhs.neg(g);
        self.add(g, &n)
    }

    /// Division, composed as `a * b^{-1}`: it appends the exponent leaf, the
    /// power node and the product node, and carries no gradient rule of its
    /// own.
    pub fn div(&self, g: &mut Graph, rhs: &Tensor) -> (t: Tensor)
        requires
            old(g).wf(),
            self.id() < old(g)@.len(),
            rhs.id() < old(g)@.len(),
        ensures
            t.id() == old(g)@.len() + 2,
            final(g)@ == old(g)@.push(leaf_model(NEG_ONE_BITS, Seq::<char>::empty())).push(
                op_model(
                    pow_bits(old(g)@[rhs.id()].data, NEG_ONE_BITS),
                    seq![rhs.id(), old(g)@.len() as int],
                    Operation::Pow,
                ),
            ).push(
                op_model(
                    mul_bits(
                        old(g)@[self.id()].data,
                        pow_bits(old(g)@[rhs.id()].data, NEG_ONE_BITS),
                    ),
                    seq![self.id(), old(g)@.len() + 1int],
                    Operation::Mul,
                ),
            ),
            final(g).wf(),
            values_consistent(old(g)@) ==> values_consistent(final(g)@),
    {
        let p = rhs.pow(g, NEG_ONE_BITS);
        self.mul(g, &p)
    }

    /// `node + scalar`: the scalar is promoted to an anonymous leaf, and the
    /// pair routes through the same addition rule as `node + node`.
    pub fn add_scalar(&self, g: &mut Graph, rhs: u64) -> (t: Tensor)
        requires
            old(g).wf(),
            self.id() < old(g)@.len(),
        ensures
            t.id() == old(g)@.len() + 1,
            final(g)@ == old(g)@.push(leaf_model(rhs, Seq::<char>::empty())).push(
                op_model(
                    add_bits(old(g)@[self.id()].data, rhs),
                    seq![self.id(), old(g)@.len() as int],
                    Operation::Add,
                ),
            ),
            final(g).wf(),
            values_consistent(old(g)@) ==> values_consistent(final(g)@),
    {
        let r = Tensor::new(g, rhs);
        self.add(g, &r)
    }

    /// `scalar + node`: the scalar is promoted to an anonymous leaf taking
    /// the left operand slot.
    pub fn scalar_add(g: &mut Graph, lhs: u64, rhs: &Tensor) -> (t: Tensor)
        requires
            old(g).wf(),
            rhs.id() < old(g)@.len(),
        ensures
            t.id() == old(g)@.len() + 1,
            final(g)@ == old(g)@.push(leaf_model(lhs, Seq::<char>::empty())).push(
                op_model(
                    add_bits(lhs, old(g)@[rhs.id()].data),
                    seq![old(g)@.len() as int, rhs.id()],
                    Operation::Add,
                ),
            ),
            final(g).wf(),
            values_consistent(old(g)@) ==> values_consistent(final(g)@),
    {
        let l = Tensor::new(g, lhs);
        l.add(g, rhs)
    }

    /// `node * scalar`: the scalar is promoted to an anonymous leaf, and the
    /// pair routes through the same multiplication rule as `node * node`.
    pub fn mul_scalar(&self, g: &mut Graph, rhs: u64) -> (t: Tensor)
        requires
            old(g).wf(),
            self.id() < old(g)@.len(),
        ensures
            t.id() == old(g)@.len() + 1,
            final(g)@ == old(g)@.push(leaf_model(rhs, Seq::<char>::empty())).push(
                op_model(
                    mul_bits(old(g)@[self.id()].data, rhs),
                    seq![self.id(), old(g)@.len() as int],
                    Operation::Mul,
                ),
            ),
            final(g).wf(),
            values_consistent(old(g)@) ==> values_consistent(final(g)@),
    {
        let r = Tensor::new(g, rhs);
        self.mul(g, &r)
    }

    /// `scalar * node`: the scalar is promoted to an anonymous leaf taking
    /// the left operand slot.
    pub fn scalar_mul(g: &mut Graph, lhs: u64, rhs: &Tensor) -> (t: Tensor)
        requires
            old(g).wf(),
            rhs.id() < old(g)@.len(),
        ensures
            t.id() == old(g)@.len() + 1,
            final(g)@ == old(g)@.push(leaf_model(lhs, Seq::<char>::empty())).push(
                op_model(
                    mul_bits(lhs, old(g)@[rhs.id()].data),
                    seq![old(g)@.len() as int, rhs.id()],
                    Operation::Mul,
                ),
            ),
            final(g).wf(),
            values_consistent(old(g)@) ==> values_consistent(final(g)@),
    {
        let l = Tensor::new(g, lhs);
        l.mul(g, rhs)
    }

    /// `node - scalar`: the scalar itself is negated and promoted to a leaf,
    /// so the pair routes through the addition rule alone.
    pub fn sub_scalar(&self, g: &mut Graph, rhs: u64) -> (t: Tensor)
        requires
            old(g).wf(),
            self.id() < old(g)@.len(),
        ensures
            t.id() == old(g)@.len() + 1,
            final(g)@ == old(g)@.push(leaf_model(neg_bits(rhs), Seq::<char>::empty())).push(
                op_model(
                    add_bits(old(g)@[self.id()].data, neg_bits(rhs)),
                    seq![self.id(), old(g)@.len() as int],
                    Operation::Add,
                ),
            ),
            final(g).wf(),
            values_consistent(old(g)@) ==> values_consistent(final(g)@),
    {
        let nr = neg_val(rhs);
        self.add_scalar(g, nr)
    }

    /// `scalar - node`: the node is negated through a negation node, the
    /// scalar is promoted to a leaf taking the left operand slot, and the
    /// pair routes through the addition rule.
    pub fn scalar_sub(g: &mut Graph, lhs: u64, rhs: &Tensor) -> (t: Tensor)
        requires
            old(g).wf(),
            rhs.id() < old(g)@.len(),
        ensures
            t.id() == old(g)@.len() + 2,
            final(g)@ == old(g)@.push(
                op_model(neg_bits(old(g)@[rhs.id()].data), seq![rhs.id()], Operation::Neg),
            ).push(leaf_model(lhs, Seq::<char>::empty())).push(
                op_model(
                    add_bits(lhs, neg_bits(old(g)@[rhs.id()].data)),
                    seq![old(g)@.len() + 1int, old(g)@.len() as int],
                    Operation::Add,
                ),
            ),
            final(g).wf(),
            values_consistent(old(g)@) ==> values_consistent(final(g)@),
    {
        let nr = rhs.neg(g);
        Tensor::scalar_add(g, lhs, &nr)
    }

    /// Sum a sequence of nodes by folding addition over a fresh zero leaf,
    /// exactly as `fold(leaf(0), |acc, x| acc + x)` would.
    pub fn sum(g: &mut Graph, xs: &Vec<Tensor>) -> (t: Tensor)
        requires
            old(g).wf(),
            forall|k: int| 0 <= k < xs@.len() ==> 0 <= #[trigger] xs@[k].id() < old(g)@.len(),
        ensures
            t.id() == final(g)@.len() - 1,
            final(g)@.len() == old(g)@.len() + 1 + xs@.len(),
            final(g)@.take(old(g)@.len() as int) == old(g)@,
            final(g)@[t.id()].data == fold_sum(vals_of(old(g)@, ids_of(xs@))),
            final(g)@[t.id()].grad == ZERO_BITS,
            final(g).wf(),
            values_consistent(old(g)@) ==> values_consistent(final(g)@),
    {
        let ghost m0 = g@;
        let ghost vals = vals_of(m0, ids_of(xs@));
        let mut acc = Tensor::new(g, ZERO_BITS);
        let mut k: usize = 0;
        proof {
            assert(vals.take(0) =~= Seq::<u64>::empty());
            assert(g@.take(m0.len() as int) =~~= m0);
        }
        while k < xs.len()
            invariant
                g.wf(),
                k <= xs@.len(),
                vals == vals_of(m0, ids_of(xs@)),
                vals.len() == xs@.len(),
                forall|j: int| 0 <= j < xs@.len() ==> 0 <= #[trigger] xs@[j].id() < m0.len(),
                forall|j: int| 0 <= j < xs@.len() ==> #[trigger] vals[j] == m0[xs@[j].id()].data,
                g@.len() == m0.len() + 1 + k,
                g@.take(m0.len() as int) == m0,
                acc.id() == g@.len() - 1,
                g@[acc.id()].data == fold_sum(vals.take(k as int)),
                g@[acc.id()].grad == ZERO_BITS,
                values_consistent(m0) ==> values_consistent(g@),
            decreases xs@.len() - k,
        {
            let ghost mprev = g@;
            acc = acc.add(g, &xs[k]);
            k = k + 1;
            proof {
                assert(g@.take(m0.len() as int) =~~= m0);
                assert(mprev[xs@[k - 1].id()] == m0[xs@[k - 1].id()]);
                assert(vals.take(k as int).drop_last() =~= vals.take(k - 1));
                assert(g@[acc.id()].data == add_bits(
                    fold_sum(vals.take(k - 1)),
                    vals[k - 1],
                ));
            }
        }
        proof {
            assert(vals.take(xs@.len() as int) =~= vals);
        }
        acc
    }

    /// Recursive depth-first visit: the executable image of [`dfs_node`],
    /// sharing one visited vector and one output vector across the whole
    /// traversal.
    fn build_todo(g: &Graph, i: usize, visited: &mut Vec<bool>, todo: &mut Vec<Tensor>)
        requires
            g.wf(),
            i < g@.len(),
            old(visited)@.len() == g@.len(),
        ensures
            final(visited)@.len() == g@.len(),
            walk_of(final(visited)@, final(todo)@) == dfs_node(
                g@,
                i as int,
                walk_of(old(visited)@, old(todo)@),
            ),
        decreases i,
    {
        if !visited[i] {
            visited.set(i, true);
            proof {
                assert(visited_set(visited@) =~= visited_set(old(visited)@).insert(i as int));
            }
            let ghost w1 = walk_of(visited@, todo@);
            let ghost l = g@[i as int].prev;
            let n = g.prev[i].len();
            proof {
                assert(node_wf(g@, i as int));
                assert(l.skip(0) =~= l);
            }
            let mut k: usize = 0;
            while k < n
                invariant
                    g.wf(),
                    i < g@.len(),
                    node_wf(g@, i as int),
                    l == g@[i as int].prev,
                    n == l.len(),
                    k <= n,
                    visited@.len() == g@.len(),
                    dfs_node_list(g@, i as int, l.skip(k as int), walk_of(visited@, todo@))
                        == dfs_node_list(g@, i as int, l, w1),
                decreases n - k,
            {
                let p = g.prev[i][k];
                proof {
                    assert(l[k as int] == p as int);
                    assert(0 <= l[k as int] < i as int);
                }
                let ghost wcur = walk_of(visited@, todo@);
                Self::build_todo(g, p, visited, todo);
                proof {
                    assert(l.skip(k as int).drop_first() =~= l.skip(k as int + 1));
                    assert(dfs_node_list(g@, i as int, l.skip(k as int), wcur)
                        == dfs_node_list(
                        g@,
                        i as int,
                        l.skip(k as int + 1),
                        dfs_node(g@, p as int, wcur),
                    ));
                }
                k = k + 1;
            }
            proof {
                assert(l.skip(n as int) =~= Seq::<int>::empty());
            }
            todo.push(Tensor { id: i });
            proof {
                assert(ids_of(todo@) =~= ids_of(todo@.drop_last()).push(i as int));
                assert(walk_of(visited@, todo@) =~~= dfs_node(
                    g@,
                    i as int,
                    walk_of(old(visited)@, old(todo)@),
                ));
            }
        } else {
            proof {
                assert(visited_set(visited@).contains(i as int));
                assert(walk_of(visited@, todo@) =~~= dfs_node(
                    g@,
                    i as int,
                    walk_of(old(visited)@, old(todo)@),
                ));
            }
        }
    }

    /// Produce a dependency-respecting linear order of every node reachable
    /// from this node by predecessor edges: a depth-first post-order with one
    /// identity-keyed visited set shared across the entire traversal, so each
    /// reachable node appears exactly once however many consumers share it.
    pub fn topological_sort(&self, g: &Graph) -> (r: Vec<Tensor>)
        requires
            g.wf(),
            self.id() < g@.len(),
        ensures
            ids_of(r@) == post_order(g@, self.id()),
    {
        let n = g.data.len();
        let mut visited: Vec<bool> = Vec::new();
        while visited.len() < n
            invariant
                visited@.len() <= n,
                forall|j: int| 0 <= j < visited@.len() ==> !visited@[j],
            decreases n - visited@.len(),
        {
            visited.push(false);
        }
        let mut todo: Vec<Tensor> = Vec::new();
        proof {
            assert(visited_set(visited@) =~= Set::<int>::empty());
            assert(ids_of(todo@) =~= Seq::<int>::empty());
            assert(walk_of(visited@, todo@) =~~= Walk {
                vis: Set::empty(),
                order: Seq::empty(),
            });
        }
        Self::build_todo(g, self.id, &mut visited, &mut todo);
        todo
    }

    /// Run node `i`'s bound gradient rule once, accumulating into each of
    /// its predecessor slots; a no-op on a leaf.
    fn apply_rule(g: &mut Graph, i: usize)
        requires
            old(g).wf(),
            i < old(g)@.len(),
        ensures
            final(g)@ == rule_applied(old(g)@, i as int),
            final(g).wf(),
    {
        proof {
            assert(node_wf(g@, i as int));
        }
        let op = g.op[i];
        let go = g.grad[i];
        match op {
            Operation::Leaf => {
                proof {
                    assert(g@ =~~= rule_applied(old(g)@, i as int));
                }
            },
            Operation::Neg => {
                let p = g.prev[i][0];
                let c = mul_val(NEG_ONE_BITS, go);
                let ng = add_val(g.grad[p], c);
                g.grad.set(p, ng);
                proof {
                    assert(g@ =~~= rule_applied(old(g)@, i as int));
                }
            },
            Operation::Add => {
                let p0 = g.prev[i][0];
                let c0 = mul_val(ONE_BITS, go);
                let ng0 = add_val(g.grad[p0], c0);
                g.grad.set(p0, ng0);
                let p1 = g.prev[i][1];
                let c1 = mul_val(ONE_BITS, go);
                let ng1 = add_val(g.grad[p1], c1);
                g.grad.set(p1, ng1);
                proof {
                    assert(g@ =~~= rule_applied(old(g)@, i as int));
                }
            },
            Operation::Mul => {
                let l = g.prev[i][0];
                let r = g.prev[i][1];
                let cl = mul_val(g.data[r], go);
                let nl = add_val(g.grad[l], cl);
                g.grad.set(l, nl);
                let cr = mul_val(g.data[l], go);
                let nr = add_val(g.grad[r], cr);
                g.grad.set(r, nr);
                proof {
                    assert(g@ =~~= rule_applied(old(g)@, i as int));
                }
            },
            Operation::Pow => {
                let l = g.prev[i][0];
                let r = g.prev[i][1];
                let e = sub_val(g.data[r], ONE_BITS);
                let c = mul_val(mul_val(g.data[r], pow_val(g.data[l], e)), go);
                let nl = add_val(g.grad[l], c);
                g.grad.set(l, nl);
                proof {
                    assert(g@ =~~= rule_applied(old(g)@, i as int));
                }
            },
            Operation::Tanh => {
                let p = g.prev[i][0];
                let d = g.data[i];
                let c = mul_val(sub_val(ONE_BITS, mul_val(d, d)), go);
                let ng = add_val(g.grad[p], c);
                g.grad.set(p, ng);
                proof {
                    assert(g@ =~~= rule_applied(old(g)@, i as int));
                }
            },
            Operation::Exp => {
                let p = g.prev[i][0];
                let d = g.data[i];
                let c = mul_val(d, go);
                let ng = add_val(g.grad[p], c);
                g.grad.set(p, ng);
                proof {
                    assert(g@ =~~= rule_applied(old(g)@, i as int));
                }
            },
        }
        proof {
            lemma_rule_applied_frame(old(g)@, i as int);
            lemma_wf_same_structure(old(g)@, g@);
        }
    }

    /// The backward pass: seed this node's gradient with 1.0, obtain the
    /// topological order of everything it reaches, and replay the bound
    /// gradient rules in reverse order, terminal first, leaves last. Every
    /// contribution accumulates additively; values and labels are untouched,
    /// and no gradient is reset: callers zero gradients themselves between
    /// independent passes.
    pub fn backward(&self, g: &mut Graph)
        requires
            old(g).wf(),
            self.id() < old(g)@.len(),
        ensures
            final(g)@ == replay(
                with_grad(old(g)@, self.id(), ONE_BITS),
                post_order(old(g)@, self.id()),
            ),
            final(g)@.len() == old(g)@.len(),
            forall|j: int|
                0 <= j < old(g)@.len() ==> #[trigger] final(g)@[j].data == old(g)@[j].data
                    && final(g)@[j].op == old(g)@[j].op && final(g)@[j].prev == old(g)@[j].prev
                    && final(g)@[j].label == old(g)@[j].label,
            final(g).wf(),
            values_consistent(old(g)@) ==> values_consistent(final(g)@),
    {
        let order = self.topological_sort(g);
        let ghost ord = post_order(old(g)@, self.id());
        proof {
            lemma_topological_validity(old(g)@, self.id());
        }
        self.set_grad(g, ONE_BITS);
        let ghost seeded = g@;
        let mut k: usize = order.len();
        proof {
            assert(ord.take(ord.len() as int) =~= ord);
        }
        while k > 0
            invariant
                g.wf(),
                k <= ord.len(),
                ids_of(order@) == ord,
                order@.len() == ord.len(),
                forall|a: int| 0 <= a < ord.len() ==> 0 <= #[trigger] ord[a] < seeded.len(),
                g@.len() == seeded.len(),
                replay(seeded, ord) == replay(g@, ord.take(k as int)),
            decreases k,
        {
            k = k - 1;
            let t = order[k];
            let ghost mprev = g@;
            proof {
                assert(ord[k as int] == t.id());
                assert(ord.take(k + 1).last() == ord[k as int]);
                assert(ord.take(k + 1).drop_last() =~= ord.take(k as int));
            }
            Self::apply_rule(g, t.id);
            proof {
                lemma_rule_applied_frame(mprev, ord[k as int]);
                assert(replay(mprev, ord.take(k + 1)) == replay(g@, ord.take(k as int)));
            }
        }
        proof {
            assert(ord.take(0) =~= Seq::<int>::empty());
            assert(g@ == replay(seeded, ord));
            lemma_backward_post(old(g)@, self.id());
        }
    }

    /// Overwrite the node's debug label.
    pub fn set_label(&self, g: &mut Graph, label: &str)
        requires
            old(g).wf(),
            self.id() < old(g)@.len(),
        ensures
            final(g)@ == with_label(old(g)@, self.id(), label@),
            final(g).wf(),
    {
        g.label.set(self.id, label.to_owned());
        proof {
            assert(g@ =~~= with_label(old(g)@, self.id(), label@));
            lemma_wf_same_structure(old(g)@, g@);
        }
    }
}

/// An activation function over graph nodes; the engine's [`Tensor::tanh`]
/// has this shape, and user types may offer their own.
pub trait Activation {
    fn tanh(&self, g: &mut Graph) -> Tensor;
}

} // verus!
