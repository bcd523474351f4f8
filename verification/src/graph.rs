//! The dataflow graph: a DAG of scalar-operation nodes held in an arena
//! and addressed by index.  Leaves are input placeholders; interior nodes
//! carry an op character, a schedule and an inferred shape descriptor.
//! Every edge carries the producer's index string as seen by the consumer,
//! which permits axis renaming across edges.
//!
//! The arena is ordered: every child index is strictly below its parent's,
//! so the graph is acyclic by construction and recursion over node indices
//! terminates.

use vstd::prelude::*;
use vstd::pervasive::VecAdditionalExecFns;

use crate::ast::{Combinator, Expr, ExprBank, IndexExpr, NoOp, ScalarOp, Schedule, ScheduleV, BinaryOp, UnaryOp, bank_wf, bank_schedules_wf};

verus! {

/// A leaf is an input placeholder; an interior node applies a scalar op.
#[derive(Debug)]
pub enum NodeBody {
    Leaf,
    Interior {
        /// The canonical character of the scalar op.
        op: char,
        schedule: Schedule,
        /// For each output axis, the `(child, dimension)` position that
        /// supplies its runtime extent.
        shape: Vec<(usize, usize)>,
    },
}

/// One graph node: its output index string, its body, and its children
/// with their edge tags.
#[derive(Debug)]
pub struct Node {
    pub index: Vec<char>,
    pub body: NodeBody,
    pub children: Vec<(usize, Vec<char>)>,
}

/// A dataflow graph; `roots.last()` is the designated root.
#[derive(Debug)]
pub struct Graph {
    pub nodes: Vec<Node>,
    pub roots: Vec<usize>,
}

/// Errors of graph construction and surgery.
#[derive(Clone, Copy, Debug, PartialEq, Eq, Structural)]
pub enum GraphError {
    /// The receiving graph of a splice has a leaf root, so there is no
    /// input slot to substitute into.
    ChainTargetIsLeaf,
    /// A graph was requested from a bank with no expressions.
    EmptyExpressionBank,
    /// An output axis of an interior node appears in no child edge tag;
    /// the character is the offending axis.
    ShapeViolation(char),
}

/// The mathematical value of a node body.
pub enum NodeBodyV {
    Leaf,
    Interior { op: char, schedule: ScheduleV, shape: Seq<(usize, usize)> },
}

/// The mathematical value of a node.
pub struct NodeV {
    pub index: Seq<char>,
    pub body: NodeBodyV,
    pub children: Seq<(int, Seq<char>)>,
}

/// The mathematical value of a graph.
pub struct GraphV {
    pub nodes: Seq<NodeV>,
    pub roots: Seq<int>,
}

impl View for NodeBody {
    type V = NodeBodyV;

    open spec fn view(&self) -> NodeBodyV {
        match self {
            NodeBody::Leaf => NodeBodyV::Leaf,
            NodeBody::Interior { op, schedule, shape } => NodeBodyV::Interior {
                op: *op,
                schedule: schedule@,
                shape: shape@,
            },
        }
    }
}

impl View for Node {
    type V = NodeV;

    open spec fn view(&self) -> NodeV {
        NodeV {
            index: self.index@,
            body: self.body@,
            children: Seq::new(
                self.children@.len(),
                |k: int| (self.children@[k].0 as int, self.children@[k].1@),
            ),
        }
    }
}

impl View for Graph {
    type V = GraphV;

    open spec fn view(&self) -> GraphV {
        GraphV {
            nodes: Seq::new(self.nodes@.len(), |i: int| self.nodes@[i]@),
            roots: Seq::new(self.roots@.len(), |i: int| self.roots@[i] as int),
        }
    }
}

impl NodeV {
    /// A node is a leaf exactly when it has no children.
    pub open spec fn is_leaf(&self) -> bool {
        self.children.len() == 0
    }
}

/// Soundness of a shape descriptor: entry `p` names a child position
/// whose edge tag carries the node's `p`-th output axis.
pub open spec fn shape_entry_sound(n: NodeV, shape: Seq<(usize, usize)>, p: int) -> bool {
    let (ci, di) = shape[p];
    &&& (ci as int) < n.children.len()
    &&& (di as int) < n.children[ci as int].1.len()
    &&& n.children[ci as int].1[di as int] == n.index[p]
}

/// Well-formedness of one node of the arena.
pub open spec fn node_wf(nodes: Seq<NodeV>, i: int) -> bool {
    let n = nodes[i];
    &&& forall|k: int| 0 <= k < n.children.len() ==> 0 <= #[trigger] n.children[k].0 < i
    &&& match n.body {
        NodeBodyV::Leaf => n.children.len() == 0,
        NodeBodyV::Interior { op, schedule, shape } => {
            &&& 1 <= n.children.len() <= 2
            &&& splits_v_wf(schedule.splits)
            &&& shape.len() == n.index.len()
            &&& forall|p: int| 0 <= p < shape.len() ==> #[trigger] shape_entry_sound(n, shape, p)
        },
    }
}

/// Unique split keys, stated over the schedule's value.
pub open spec fn splits_v_wf(s: Seq<(char, Seq<usize>)>) -> bool {
    forall|i: int, j: int| 0 <= i < j < s.len() ==> (#[trigger] s[i]).0 != (#[trigger] s[j]).0
}

impl GraphV {
    /// Every node is well formed and every root is in range.
    pub open spec fn wf(&self) -> bool {
        &&& forall|i: int| 0 <= i < self.nodes.len() ==> #[trigger] node_wf(self.nodes, i)
        &&& forall|r: int| 0 <= r < self.roots.len() ==> 0 <= #[trigger] self.roots[r] < self.nodes.len()
    }

    /// The designated root: the last root.
    pub open spec fn root_id(&self) -> int {
        self.roots.last()
    }
}

/// The node `i` shifted `off` places up the arena: children move with it.
pub open spec fn shift_node(n: NodeV, off: int) -> NodeV {
    NodeV {
        index: n.index,
        body: n.body,
        children: Seq::new(n.children.len(), |k: int| (n.children[k].0 + off, n.children[k].1)),
    }
}

/// The parent of the leftmost leaf below `i`: the walk that always takes
/// the first child.  Returns -1 when `i` is itself a leaf or the arena
/// order is broken.
pub open spec fn lm_parent(nodes: Seq<NodeV>, i: int) -> int
    decreases i when i >= 0
{
    if i < 0 || i >= nodes.len() || nodes[i].children.len() == 0 {
        -1
    } else {
        let c = nodes[i].children[0].0;
        if !(0 <= c < i) {
            -1
        } else if nodes[c].children.len() == 0 {
            i
        } else {
            lm_parent(nodes, c)
        }
    }
}

/// Whether graph `b` can receive a splice: its root is an interior node.
pub open spec fn chain_ok(b: GraphV) -> bool {
    &&& b.roots.len() > 0
    &&& 0 <= b.root_id() < b.nodes.len()
    &&& !b.nodes[b.root_id()].is_leaf()
}

/// The value of `a.chain(&b)`: both arenas side by side, `b`'s indices
/// shifted up by `a`'s size, and the leftmost leaf of `b` replaced by the
/// root of `a`.  The edge keeps its tag; the displaced leaf keeps its
/// slot in the arena but is no longer referenced.
pub open spec fn spec_chain(a: GraphV, b: GraphV) -> GraphV {
    let off = a.nodes.len() as int;
    let p = lm_parent(b.nodes, b.root_id());
    let combined = a.nodes + Seq::new(b.nodes.len(), |j: int| shift_node(b.nodes[j], off));
    let parent = combined[off + p];
    let spliced = NodeV {
        index: parent.index,
        body: parent.body,
        children: parent.children.update(0, (a.root_id(), parent.children[0].1)),
    };
    GraphV {
        nodes: combined.update(off + p, spliced),
        roots: Seq::new(b.roots.len(), |r: int| b.roots[r] + off),
    }
}

/// `compose` is `chain` with its arguments swapped.
pub open spec fn spec_compose(a: GraphV, b: GraphV) -> GraphV {
    spec_chain(b, a)
}

impl Graph {
    /// An empty graph.
    pub fn new() -> (r: Graph)
        ensures
            r@.nodes.len() == 0,
            r@.roots.len() == 0,
            r@.wf(),
    {
        Graph { nodes: Vec::new(), roots: Vec::new() }
    }

    /// The designated root of a non-empty graph.
    pub fn root(&self) -> (r: usize)
        requires
            self.roots@.len() > 0,
        ensures
            r as int == self@.root_id(),
    {
        self.roots[self.roots.len() - 1]
    }

    /// A copy of the graph.  The arena is copied index for index, so a
    /// node reachable by several paths stays one node in the copy.
    pub fn deepcopy(&self) -> (r: Graph)
        ensures
            r@ == self@,
    {
        let mut nodes: Vec<Node> = Vec::new();
        let mut i: usize = 0;
        while i < self.nodes.len()
            invariant
                i <= self.nodes@.len(),
                nodes@.len() == i,
                forall|j: int| 0 <= j < i ==> #[trigger] nodes@[j]@ == self.nodes@[j]@,
            decreases self.nodes@.len() - i,
        {
            let n = clone_node(&self.nodes[i]);
            nodes.push(n);
            i = i + 1;
        }
        let mut roots: Vec<usize> = Vec::new();
        let mut k: usize = 0;
        while k < self.roots.len()
            invariant
                k <= self.roots@.len(),
                roots@.len() == k,
                forall|j: int| 0 <= j < k ==> #[trigger] roots@[j] == self.roots@[j],
            decreases self.roots@.len() - k,
        {
            roots.push(self.roots[k]);
            k = k + 1;
        }
        let r = Graph { nodes, roots };
        proof {
            assert(r@.nodes =~= self@.nodes);
            assert(r@.roots =~= self@.roots);
            assert(r@ =~= self@);
        }
        r
    }

    /// Feed this graph into `other`: place both in one arena and replace
    /// the leftmost leaf of `other` by this graph's root.  Neither input
    /// is changed.  Fails when `other`'s root is a leaf, since a leaf has
    /// no input slot.
    pub fn chain(&self, other: &Graph) -> (r: Result<Graph, GraphError>)
        requires
            self@.wf(),
            other@.wf(),
            self.roots@.len() > 0,
            other.roots@.len() > 0,
            self.nodes@.len() + other.nodes@.len() <= usize::MAX,
        ensures
            match r {
                Ok(g) => chain_ok(other@) && g@ == spec_chain(self@, other@) && g@.wf()
                    && g@.roots.len() > 0,
                Err(e) => e == GraphError::ChainTargetIsLeaf && !chain_ok(other@),
            },
    {
        let other_root = other.root();
        if other.nodes[other_root].children.len() == 0 {
            return Err(GraphError::ChainTargetIsLeaf);
        }
        let p = find_lm_parent(other, other_root);
        let off = self.nodes.len();
        let self_root = self.root();

        let mut nodes: Vec<Node> = Vec::new();
        let mut i: usize = 0;
        while i < self.nodes.len()
            invariant
                i <= self.nodes@.len(),
                nodes@.len() == i,
                forall|j: int| 0 <= j < i ==> #[trigger] nodes@[j]@ == self@.nodes[j],
            decreases self.nodes@.len() - i,
        {
            nodes.push(clone_node(&self.nodes[i]));
            i = i + 1;
        }
        let mut j: usize = 0;
        while j < other.nodes.len()
            invariant
                other@.wf(),
                off + other.nodes@.len() <= usize::MAX,
                j <= other.nodes@.len(),
                nodes@.len() == off + j,
                off == self.nodes@.len(),
                forall|k: int| 0 <= k < off ==> #[trigger] nodes@[k]@ == self@.nodes[k],
                forall|k: int| 0 <= k < j ==>
                    #[trigger] nodes@[off + k]@ == shift_node(other@.nodes[k], off as int),
            decreases other.nodes@.len() - j,
        {
            proof {
                assert(node_wf(other@.nodes, j as int));
                assert(other@.nodes[j as int] == other.nodes@[j as int]@);
                assert forall|k: int| 0 <= k < other.nodes@[j as int].children@.len() implies
                    (#[trigger] other.nodes@[j as int].children@[k]).0 + off <= usize::MAX by {
                    assert(other@.nodes[j as int].children[k].0 ==
                        other.nodes@[j as int].children@[k].0 as int);
                }
            }
            let n = clone_node_shifted(&other.nodes[j], off);
            nodes.push(n);
            j = j + 1;
        }
        // splice: the parent of the leftmost leaf now points at our root
        let sp = off + p;
        proof {
            assert(nodes@[sp as int]@ == shift_node(other@.nodes[p as int], off as int));
            assert(nodes@[sp as int]@.children.len() == nodes@[sp as int].children@.len());
        }
        let ghost pre = nodes@[sp as int]@;
        let ghost before = nodes@;
        splice_first_child(&mut nodes, sp, self_root);
        proof {
            assert(nodes@[sp as int]@.children =~=
                pre.children.update(0, (self@.root_id(), pre.children[0].1)));
        }

        let mut roots: Vec<usize> = Vec::new();
        let mut k: usize = 0;
        while k < other.roots.len()
            invariant
                other@.wf(),
                off + other.nodes@.len() <= usize::MAX,
                k <= other.roots@.len(),
                roots@.len() == k,
                off == self.nodes@.len(),
                forall|r2: int| 0 <= r2 < k ==>
                    #[trigger] roots@[r2] as int == other@.roots[r2] + off,
            decreases other.roots@.len() - k,
        {
            let rr = other.roots[k];
            proof {
                assert(other@.roots[k as int] == other.roots@[k as int] as int);
                assert(0 <= other@.roots[k as int] < other@.nodes.len());
            }
            roots.push(rr + off);
            k = k + 1;
        }
        let g = Graph { nodes, roots };
        proof {
            let gv = g@;
            let sv = spec_chain(self@, other@);
            let off_i = off as int;
            let pp = lm_parent(other@.nodes, other@.root_id());
            let combined = self@.nodes
                + Seq::new(other@.nodes.len(), |q: int| shift_node(other@.nodes[q], off_i));
            assert(p as int == pp);
            assert(sp as int == off_i + pp);
            assert forall|q: int| 0 <= q < gv.nodes.len() implies gv.nodes[q] == sv.nodes[q] by {
                assert(gv.nodes[q] == nodes@[q]@);
                if q == sp as int {
                    assert(before[q]@ == pre);
                    assert(pre == shift_node(other@.nodes[pp], off_i));
                    assert(combined[q] == pre);
                    assert(nodes@[q]@ == (NodeV {
                        index: pre.index,
                        body: pre.body,
                        children: pre.children.update(0, (self@.root_id(), pre.children[0].1)),
                    }));
                    assert(sv.nodes[q] == (NodeV {
                        index: pre.index,
                        body: pre.body,
                        children: pre.children.update(0, (self@.root_id(), pre.children[0].1)),
                    }));
                } else {
                    assert(nodes@[q]@ == before[q]@);
                    if q < off_i {
                        assert(before[q]@ == self@.nodes[q]);
                        assert(sv.nodes[q] == combined[q]);
                        assert(combined[q] == self@.nodes[q]);
                    } else {
                        let k = q - off_i;
                        assert(before[off_i + k]@ == shift_node(other@.nodes[k], off_i));
                        assert(sv.nodes[q] == combined[q]);
                        assert(combined[q] == shift_node(other@.nodes[q - off_i], off_i));
                    }
                }
            }
            assert(gv.nodes =~= sv.nodes);
            assert(gv.roots =~= sv.roots);
            assert(gv =~= sv);
            lemma_spec_chain_wf(self@, other@);
        }
        Ok(g)
    }

    /// `a.compose(&b)` is `b.chain(&a)`: apply `a` after `b`.
    pub fn compose(&self, other: &Graph) -> (r: Result<Graph, GraphError>)
        requires
            self@.wf(),
            other@.wf(),
            self.roots@.len() > 0,
            other.roots@.len() > 0,
            self.nodes@.len() + other.nodes@.len() <= usize::MAX,
        ensures
            match r {
                Ok(g) => chain_ok(self@) && g@ == spec_compose(self@, other@) && g@.wf()
                    && g@.roots.len() > 0,
                Err(e) => e == GraphError::ChainTargetIsLeaf && !chain_ok(self@),
            },
    {
        other.chain(self)
    }
}

/// A field-for-field copy of a node.
fn clone_node(n: &Node) -> (r: Node)
    ensures
        r@ == n@,
{
    let index = clone_chars(&n.index);
    let body = clone_body(&n.body);
    let mut children: Vec<(usize, Vec<char>)> = Vec::new();
    let mut k: usize = 0;
    while k < n.children.len()
        invariant
            k <= n.children@.len(),
            children@.len() == k,
            forall|j: int| 0 <= j < k ==>
                (#[trigger] children@[j]).0 == n.children@[j].0
                && children@[j].1@ == n.children@[j].1@,
        decreases n.children@.len() - k,
    {
        let id = n.children[k].0;
        let tag = clone_chars(&n.children[k].1);
        children.push((id, tag));
        k = k + 1;
    }
    let r = Node { index, body, children };
    proof {
        assert(r@.children =~= n@.children);
        assert(r@ =~= n@);
    }
    r
}

/// A copy of a node with its child indices shifted up by `off`.
fn clone_node_shifted(n: &Node, off: usize) -> (r: Node)
    requires
        forall|k: int| 0 <= k < n.children@.len() ==>
            (#[trigger] n.children@[k]).0 + off <= usize::MAX,
    ensures
        r@ == shift_node(n@, off as int),
{
    let index = clone_chars(&n.index);
    let body = clone_body(&n.body);
    let mut children: Vec<(usize, Vec<char>)> = Vec::new();
    let mut k: usize = 0;
    while k < n.children.len()
        invariant
            k <= n.children@.len(),
            children@.len() == k,
            forall|j: int| 0 <= j < n.children@.len() ==>
                (#[trigger] n.children@[j]).0 + off <= usize::MAX,
            forall|j: int| 0 <= j < k ==>
                (#[trigger] children@[j]).0 == n.children@[j].0 + off
                && children@[j].1@ == n.children@[j].1@,
        decreases n.children@.len() - k,
    {
        let id = n.children[k].0;
        let tag = clone_chars(&n.children[k].1);
        children.push((id + off, tag));
        k = k + 1;
    }
    let r = Node { index, body, children };
    proof {
        assert(r@.children =~= shift_node(n@, off as int).children);
        assert(r@ =~= shift_node(n@, off as int));
    }
    r
}

/// A copy of a character vector.
pub fn clone_chars(v: &Vec<char>) -> (r: Vec<char>)
    ensures
        r@ == v@,
{
    let mut r: Vec<char> = Vec::new();
    let mut i: usize = 0;
    while i < v.len()
        invariant
            i <= v@.len(),
            r@ == v@.subrange(0, i as int),
        decreases v@.len() - i,
    {
        r.push(v[i]);
        i = i + 1;
        proof {
            assert(r@ =~= v@.subrange(0, i as int));
        }
    }
    proof {
        assert(r@ =~= v@);
    }
    r
}

/// A copy of a node body, schedule included.
fn clone_body(b: &NodeBody) -> (r: NodeBody)
    ensures
        r@ == b@,
{
    match b {
        NodeBody::Leaf => NodeBody::Leaf,
        NodeBody::Interior { op, schedule, shape } => {
            let s = clone_schedule(schedule);
            let mut sh: Vec<(usize, usize)> = Vec::new();
            let mut i: usize = 0;
            while i < shape.len()
                invariant
                    i <= shape@.len(),
                    sh@ == shape@.subrange(0, i as int),
                decreases shape@.len() - i,
            {
                sh.push(shape[i]);
                i = i + 1;
                proof {
                    assert(sh@ =~= shape@.subrange(0, i as int));
                }
            }
            proof {
                assert(sh@ =~= shape@);
            }
            NodeBody::Interior { op: *op, schedule: s, shape: sh }
        }
    }
}

/// A copy of a schedule.
pub fn clone_schedule(s: &Schedule) -> (r: Schedule)
    ensures
        r@ == s@,
{
    let mut splits: Vec<(char, Vec<usize>)> = Vec::new();
    let mut i: usize = 0;
    while i < s.splits.0.len()
        invariant
            i <= s.splits.0@.len(),
            splits@.len() == i,
            forall|j: int| 0 <= j < i ==>
                (#[trigger] splits@[j]).0 == s.splits.0@[j].0
                && splits@[j].1@ == s.splits.0@[j].1@,
        decreases s.splits.0@.len() - i,
    {
        let c = s.splits.0[i].0;
        let mut fs: Vec<usize> = Vec::new();
        let mut k: usize = 0;
        while k < s.splits.0[i].1.len()
            invariant
                0 <= i < s.splits.0@.len(),
                k <= s.splits.0@[i as int].1@.len(),
                fs@ == s.splits.0@[i as int].1@.subrange(0, k as int),
            decreases s.splits.0@[i as int].1@.len() - k,
        {
            fs.push(s.splits.0[i].1[k]);
            k = k + 1;
            proof {
                assert(fs@ =~= s.splits.0@[i as int].1@.subrange(0, k as int));
            }
        }
        proof {
            assert(fs@ =~= s.splits.0@[i as int].1@);
        }
        splits.push((c, fs));
        i = i + 1;
    }
    let mut loop_order: Vec<(char, usize)> = Vec::new();
    let mut k: usize = 0;
    while k < s.loop_order.len()
        invariant
            k <= s.loop_order@.len(),
            loop_order@ == s.loop_order@.subrange(0, k as int),
        decreases s.loop_order@.len() - k,
    {
        loop_order.push(s.loop_order[k]);
        k = k + 1;
        proof {
            assert(loop_order@ =~= s.loop_order@.subrange(0, k as int));
        }
    }
    let r = Schedule { splits: crate::ast::Splits(splits), loop_order };
    proof {
        assert(loop_order@ =~= s.loop_order@);
        assert(r@.splits =~= s@.splits);
        assert(r@ =~= s@);
    }
    r
}

/// Walks first children from `start` down to the leftmost leaf and
/// returns the leaf's parent.
fn find_lm_parent(g: &Graph, start: usize) -> (p: usize)
    requires
        g@.wf(),
        start < g.nodes@.len(),
        g@.nodes[start as int].children.len() > 0,
    ensures
        p as int == lm_parent(g@.nodes, start as int),
        p < g.nodes@.len(),
        g@.nodes[p as int].children.len() > 0,
        g@.nodes[lm_parent(g@.nodes, start as int)].children[0].0 <
            g@.nodes.len(),
{
    let mut cur: usize = start;
    loop
        invariant
            g@.wf(),
            cur < g.nodes@.len(),
            g@.nodes[cur as int].children.len() > 0,
            lm_parent(g@.nodes, cur as int) == lm_parent(g@.nodes, start as int),
        decreases cur,
    {
        proof {
            assert(node_wf(g@.nodes, cur as int));
        }
        let c = g.nodes[cur].children[0].0;
        if g.nodes[c].children.len() == 0 {
            proof {
                lemma_lm_parent_in_range(g@.nodes, start as int);
            }
            return cur;
        }
        cur = c;
    }
}

/// Chaining preserves well-formedness: the combined arena is ordered and
/// the spliced edge points below its node.
pub proof fn lemma_spec_chain_wf(a: GraphV, b: GraphV)
    requires
        a.wf(),
        b.wf(),
        a.roots.len() > 0,
        b.roots.len() > 0,
        chain_ok(b),
    ensures
        spec_chain(a, b).wf(),
{
    let g = spec_chain(a, b);
    let off = a.nodes.len() as int;
    let p = lm_parent(b.nodes, b.root_id());
    lemma_lm_parent_in_range(b.nodes, b.root_id());
    assert forall|i: int| 0 <= i < g.nodes.len() implies #[trigger] node_wf(g.nodes, i) by {
        if i < off {
            assert(node_wf(a.nodes, i));
            assert(g.nodes[i] == a.nodes[i]);
        } else {
            let j = i - off;
            assert(node_wf(b.nodes, j));
            if i == off + p {
                assert(0 <= a.root_id() < off);
                let n = g.nodes[i];
                let bn = b.nodes[p];
                assert(n.children.len() == bn.children.len());
                assert(forall|k: int| 0 < k < n.children.len() ==>
                    #[trigger] n.children[k] == (bn.children[k].0 + off, bn.children[k].1));
                assert(forall|k: int| 0 <= k < n.children.len() ==>
                    0 <= #[trigger] n.children[k].0 < i);
                match bn.body {
                    NodeBodyV::Leaf => {}
                    NodeBodyV::Interior { op, schedule, shape } => {
                        assert forall|q: int| 0 <= q < shape.len() implies
                            #[trigger] shape_entry_sound(n, shape, q) by {
                            assert(shape_entry_sound(bn, shape, q));
                            let (ci, di) = shape[q];
                            assert(n.children[ci as int].1 == bn.children[ci as int].1);
                        }
                    }
                }
            } else {
                let n = g.nodes[i];
                let bn = b.nodes[j];
                assert(n == shift_node(bn, off));
                assert(forall|k: int| 0 <= k < n.children.len() ==>
                    (#[trigger] n.children[k]).0 == bn.children[k].0 + off
                    && n.children[k].1 == bn.children[k].1);
                match bn.body {
                    NodeBodyV::Leaf => {}
                    NodeBodyV::Interior { op, schedule, shape } => {
                        assert forall|q: int| 0 <= q < shape.len() implies
                            #[trigger] shape_entry_sound(n, shape, q) by {
                            assert(shape_entry_sound(bn, shape, q));
                        }
                    }
                }
            }
        }
    }
    assert forall|r: int| 0 <= r < g.roots.len() implies
        0 <= #[trigger] g.roots[r] < g.nodes.len() by {
        assert(0 <= b.roots[r] < b.nodes.len());
    }
}

/// The leftmost-leaf parent of a well-formed interior node exists and is
/// in range, and its first child is too.
pub proof fn lemma_lm_parent_in_range(nodes: Seq<NodeV>, i: int)
    requires
        forall|k: int| 0 <= k < nodes.len() ==> #[trigger] node_wf(nodes, k),
        0 <= i < nodes.len(),
        nodes[i].children.len() > 0,
    ensures
        0 <= lm_parent(nodes, i) < nodes.len(),
        nodes[lm_parent(nodes, i)].children.len() > 0,
        0 <= nodes[lm_parent(nodes, i)].children[0].0 < lm_parent(nodes, i),
        nodes[nodes[lm_parent(nodes, i)].children[0].0].children.len() == 0,
    decreases i,
{
    assert(node_wf(nodes, i));
    let c = nodes[i].children[0].0;
    assert(0 <= c < i);
    if nodes[c].children.len() == 0 {
    } else {
        lemma_lm_parent_in_range(nodes, c);
    }
}

/// The rightmost position of `c` in `tag`, or -1 when absent.
pub open spec fn tag_rpos(tag: Seq<char>, c: char) -> int
    decreases tag.len(),
{
    if tag.len() == 0 {
        -1
    } else if tag.last() == c {
        tag.len() - 1
    } else {
        tag_rpos(tag.drop_last(), c)
    }
}

/// The last child whose edge tag carries `c`, or -1 when none does.
pub open spec fn child_rpos(tags: Seq<Seq<char>>, c: char) -> int
    decreases tags.len(),
{
    if tags.len() == 0 {
        -1
    } else if tag_rpos(tags.last(), c) >= 0 {
        tags.len() - 1
    } else {
        child_rpos(tags.drop_last(), c)
    }
}

/// The rightmost position is `-1` or a valid position.
pub proof fn lemma_tag_rpos_range(tag: Seq<char>, c: char)
    ensures
        -1 <= tag_rpos(tag, c) < tag.len(),
    decreases tag.len(),
{
    if tag.len() > 0 {
        lemma_tag_rpos_range(tag.drop_last(), c);
    }
}

/// A found rightmost position is in range and carries the character.
pub proof fn lemma_tag_rpos_sound(tag: Seq<char>, c: char)
    ensures
        tag_rpos(tag, c) >= 0 ==> {
            let p = tag_rpos(tag, c);
            0 <= p < tag.len() && tag[p] == c
        },
        tag_rpos(tag, c) == -1 ==> forall|p: int| 0 <= p < tag.len() ==> tag[p] != c,
    decreases tag.len(),
{
    if tag.len() > 0 {
        lemma_tag_rpos_sound(tag.drop_last(), c);
        if tag.last() != c {
            assert forall|p: int| tag_rpos(tag, c) == -1 && 0 <= p < tag.len()
                implies tag[p] != c by {
                if p < tag.len() - 1 {
                    assert(tag.drop_last()[p] == tag[p]);
                }
            }
        }
    }
}

/// A found child position is in range and its tag carries the character.
pub proof fn lemma_child_rpos_sound(tags: Seq<Seq<char>>, c: char)
    ensures
        child_rpos(tags, c) >= 0 ==> {
            let ci = child_rpos(tags, c);
            0 <= ci < tags.len() && tag_rpos(tags[ci], c) >= 0
        },
        child_rpos(tags, c) == -1 ==> forall|ci: int| 0 <= ci < tags.len()
            ==> tag_rpos(#[trigger] tags[ci], c) == -1,
    decreases tags.len(),
{
    if tags.len() > 0 {
        lemma_child_rpos_sound(tags.drop_last(), c);
        if tag_rpos(tags.last(), c) < 0 {
            lemma_tag_rpos_range(tags.last(), c);
            assert forall|ci: int| child_rpos(tags, c) == -1 && 0 <= ci < tags.len()
                implies tag_rpos(#[trigger] tags[ci], c) == -1 by {
                if ci < tags.len() - 1 {
                    assert(tags.drop_last()[ci] == tags[ci]);
                } else {
                    assert(tags[ci] == tags.last());
                }
            }
        }
    }
}

/// The shape entry the reverse scan infers for axis `c`.
pub open spec fn spec_shape_entry(tags: Seq<Seq<char>>, c: char) -> (int, int) {
    let ci = child_rpos(tags, c);
    (ci, tag_rpos(tags[ci], c))
}

/// Whether shape inference succeeds: every output axis occurs in some
/// child edge tag.
pub open spec fn shape_inference_ok(index: Seq<char>, tags: Seq<Seq<char>>) -> bool {
    forall|p: int| 0 <= p < index.len() ==> child_rpos(tags, #[trigger] index[p]) >= 0
}

/// Scans `tag` from its end for `c`.
fn rfind_char(tag: &Vec<char>, c: char) -> (r: Option<usize>)
    ensures
        match r {
            Some(p) => tag_rpos(tag@, c) == p as int,
            None => tag_rpos(tag@, c) == -1,
        },
{
    let mut d: usize = tag.len();
    proof {
        assert(tag@.take(d as int) =~= tag@);
    }
    while d > 0
        invariant
            d <= tag@.len(),
            tag_rpos(tag@, c) == tag_rpos(tag@.take(d as int), c),
        decreases d,
    {
        proof {
            let t = tag@.take(d as int);
            assert(t.drop_last() =~= tag@.take(d as int - 1));
        }
        if tag[d - 1] == c {
            proof {
                assert(tag@.take(d as int).last() == tag@[d as int - 1]);
            }
            return Some(d - 1);
        }
        d = d - 1;
    }
    proof {
        assert(tag@.take(0) =~= Seq::<char>::empty());
    }
    None
}

/// Infers the shape descriptor of an interior node: for each axis of the
/// output index, the child edge tags are scanned in reverse order of
/// child and of character position, and the first match names the
/// `(child, dimension)` pair that supplies the axis extent at run time.
/// Fails with the first output axis that no child edge tag carries.
pub fn infer_shape(index: &Vec<char>, tags: &Vec<Vec<char>>) -> (r: Result<
    Vec<(usize, usize)>,
    char,
>)
    ensures
        match r {
            Ok(shape) => {
                &&& shape_inference_ok(index@, tags_view(tags))
                &&& shape@.len() == index@.len()
                &&& forall|p: int| 0 <= p < shape@.len() ==> {
                    let (ci, di) = spec_shape_entry(tags_view(tags), index@[p]);
                    (#[trigger] shape@[p]).0 == ci && shape@[p].1 == di
                }
            },
            Err(c) => !shape_inference_ok(index@, tags_view(tags))
                && exists|p: int| 0 <= p < index@.len() && index@[p] == c
                    && child_rpos(tags_view(tags), c) == -1,
        },
{
    let ghost tv = tags_view(tags);
    let mut shape: Vec<(usize, usize)> = Vec::new();
    let mut p: usize = 0;
    while p < index.len()
        invariant
            p <= index@.len(),
            shape@.len() == p,
            tv == tags_view(tags),
            forall|q: int| 0 <= q < p ==> child_rpos(tv, #[trigger] index@[q]) >= 0,
            forall|q: int| 0 <= q < p ==> {
                let (ci, di) = spec_shape_entry(tv, index@[q]);
                (#[trigger] shape@[q]).0 == ci && shape@[q].1 == di
            },
        decreases index@.len() - p,
    {
        let c = index[p];
        let entry = rfind_entry(tags, c);
        match entry {
            Some(e) => {
                shape.push(e);
            }
            None => {
                return Err(c);
            }
        }
        p = p + 1;
    }
    Ok(shape)
}

/// The sequence of edge-tag values.
pub open spec fn tags_view(tags: &Vec<Vec<char>>) -> Seq<Seq<char>> {
    Seq::new(tags@.len(), |i: int| tags@[i]@)
}

/// Scans the children from the last for one whose tag carries `c`.
fn rfind_entry(tags: &Vec<Vec<char>>, c: char) -> (r: Option<(usize, usize)>)
    ensures
        match r {
            Some((ci, di)) => child_rpos(tags_view(tags), c) == ci as int
                && spec_shape_entry(tags_view(tags), c) == (ci as int, di as int),
            None => child_rpos(tags_view(tags), c) == -1,
        },
{
    let ghost tv = tags_view(tags);
    let mut e: usize = tags.len();
    proof {
        assert(tv.take(e as int) =~= tv);
    }
    while e > 0
        invariant
            e <= tags@.len(),
            tv == tags_view(tags),
            child_rpos(tv, c) == child_rpos(tv.take(e as int), c),
        decreases e,
    {
        proof {
            let t = tv.take(e as int);
            assert(t.drop_last() =~= tv.take(e as int - 1));
            assert(t.last() == tv[e as int - 1]);
            assert(tv[e as int - 1] == tags@[e as int - 1]@);
        }
        let d = rfind_char(&tags[e - 1], c);
        match d {
            Some(di) => {
                return Some((e - 1, di));
            }
            None => {}
        }
        e = e - 1;
    }
    proof {
        assert(tv.take(0) =~= Seq::<Seq<char>>::empty());
    }
    None
}

/// The canonical character of a scalar op.
pub open spec fn spec_op_char(op: ScalarOp) -> char {
    match op {
        ScalarOp::BinaryOp(BinaryOp::Add(_, _)) => '+',
        ScalarOp::UnaryOp(UnaryOp::Accum(_)) => '+',
        ScalarOp::BinaryOp(BinaryOp::Mul(_, _)) => '*',
        ScalarOp::UnaryOp(UnaryOp::Prod(_)) => '*',
        ScalarOp::BinaryOp(BinaryOp::Max(_, _)) => '>',
        ScalarOp::UnaryOp(UnaryOp::Relu(_)) => '>',
        ScalarOp::UnaryOp(UnaryOp::Neg(_)) => '-',
        ScalarOp::UnaryOp(UnaryOp::Recip(_)) => '/',
        ScalarOp::UnaryOp(UnaryOp::Exp(_)) => '^',
        ScalarOp::UnaryOp(UnaryOp::Log(_)) => '$',
        ScalarOp::NoOp(NoOp(_)) => '+',
    }
}

/// The input index strings of a scalar op, in argument order.
pub open spec fn spec_op_inputs(op: ScalarOp) -> Seq<Seq<char>> {
    match op {
        ScalarOp::BinaryOp(BinaryOp::Add(a, b)) => seq![a.0@, b.0@],
        ScalarOp::BinaryOp(BinaryOp::Mul(a, b)) => seq![a.0@, b.0@],
        ScalarOp::BinaryOp(BinaryOp::Max(a, b)) => seq![a.0@, b.0@],
        ScalarOp::UnaryOp(UnaryOp::Accum(a)) => seq![a.0@],
        ScalarOp::UnaryOp(UnaryOp::Prod(a)) => seq![a.0@],
        ScalarOp::UnaryOp(UnaryOp::Relu(a)) => seq![a.0@],
        ScalarOp::UnaryOp(UnaryOp::Neg(a)) => seq![a.0@],
        ScalarOp::UnaryOp(UnaryOp::Recip(a)) => seq![a.0@],
        ScalarOp::UnaryOp(UnaryOp::Exp(a)) => seq![a.0@],
        ScalarOp::UnaryOp(UnaryOp::Log(a)) => seq![a.0@],
        ScalarOp::NoOp(NoOp(a)) => seq![a.0@],
    }
}

impl ScalarOp {
    /// The canonical character of this op.
    pub fn op_char(&self) -> (c: char)
        ensures
            c == spec_op_char(*self),
    {
        match self {
            ScalarOp::BinaryOp(BinaryOp::Add(_, _)) => '+',
            ScalarOp::UnaryOp(UnaryOp::Accum(_)) => '+',
            ScalarOp::BinaryOp(BinaryOp::Mul(_, _)) => '*',
            ScalarOp::UnaryOp(UnaryOp::Prod(_)) => '*',
            ScalarOp::BinaryOp(BinaryOp::Max(_, _)) => '>',
            ScalarOp::UnaryOp(UnaryOp::Relu(_)) => '>',
            ScalarOp::UnaryOp(UnaryOp::Neg(_)) => '-',
            ScalarOp::UnaryOp(UnaryOp::Recip(_)) => '/',
            ScalarOp::UnaryOp(UnaryOp::Exp(_)) => '^',
            ScalarOp::UnaryOp(UnaryOp::Log(_)) => '$',
            ScalarOp::NoOp(NoOp(_)) => '+',
        }
    }

    /// The input index strings of this op, in argument order.
    pub fn inputs(&self) -> (r: Vec<Vec<char>>)
        ensures
            tags_view(&r) == spec_op_inputs(*self),
            1 <= r@.len() <= 2,
    {
        let mut r: Vec<Vec<char>> = Vec::new();
        match self {
            ScalarOp::BinaryOp(BinaryOp::Add(a, b))
            | ScalarOp::BinaryOp(BinaryOp::Mul(a, b))
            | ScalarOp::BinaryOp(BinaryOp::Max(a, b)) => {
                r.push(a.chars_vec());
                r.push(b.chars_vec());
            }
            ScalarOp::UnaryOp(UnaryOp::Accum(a))
            | ScalarOp::UnaryOp(UnaryOp::Prod(a))
            | ScalarOp::UnaryOp(UnaryOp::Relu(a))
            | ScalarOp::UnaryOp(UnaryOp::Neg(a))
            | ScalarOp::UnaryOp(UnaryOp::Recip(a))
            | ScalarOp::UnaryOp(UnaryOp::Exp(a))
            | ScalarOp::UnaryOp(UnaryOp::Log(a))
            | ScalarOp::NoOp(NoOp(a)) => {
                r.push(a.chars_vec());
            }
        }
        proof {
            assert(tags_view(&r) =~= spec_op_inputs(*self));
        }
        r
    }
}

/// Whether the graph builder succeeds on expression `i` of the bank:
/// shape inference must succeed at every index expression of the subtree.
pub open spec fn expr_buildable(bank: &ExprBank, i: int) -> bool
    decreases i when i >= 0
{
    if !(0 <= i < bank.0@.len()) {
        false
    } else {
        match bank.0@[i] {
            Expr::Index(ie) => shape_inference_ok(ie.out.0@, spec_op_inputs(ie.op)),
            Expr::Combinator(Combinator::Chain(l, r)) => (l.0 as int) < i && (r.0 as int) < i
                && expr_buildable(bank, l.0 as int) && expr_buildable(bank, r.0 as int),
        }
    }
}

/// Replaces the first child of node `sp` by `new_child`, keeping the
/// edge tag.
fn splice_first_child(nodes: &mut Vec<Node>, sp: usize, new_child: usize)
    requires
        sp < old(nodes)@.len(),
        old(nodes)@[sp as int].children@.len() > 0,
    ensures
        final(nodes)@.len() == old(nodes)@.len(),
        forall|j: int| 0 <= j < final(nodes)@.len() && j != sp ==>
            #[trigger] final(nodes)@[j]@ == old(nodes)@[j]@,
        final(nodes)@[sp as int]@ == (NodeV {
            index: old(nodes)@[sp as int]@.index,
            body: old(nodes)@[sp as int]@.body,
            children: old(nodes)@[sp as int]@.children.update(
                0,
                (new_child as int, old(nodes)@[sp as int]@.children[0].1),
            ),
        }),
{
    let ghost pre = nodes@[sp as int]@;
    let parent = &nodes[sp];
    let index = clone_chars(&parent.index);
    let body = clone_body(&parent.body);
    let mut children: Vec<(usize, Vec<char>)> = Vec::new();
    let tag = clone_chars(&parent.children[0].1);
    children.push((new_child, tag));
    let mut ck: usize = 1;
    while ck < parent.children.len()
        invariant
            1 <= ck <= parent.children@.len(),
            parent == &nodes@[sp as int],
            sp < nodes@.len(),
            children@.len() == ck,
            children@[0].0 == new_child,
            children@[0].1@ == parent.children@[0].1@,
            forall|q: int| 1 <= q < ck ==>
                (#[trigger] children@[q]).0 == parent.children@[q].0
                && children@[q].1@ == parent.children@[q].1@,
        decreases parent.children@.len() - ck,
    {
        let id = parent.children[ck].0;
        let t2 = clone_chars(&parent.children[ck].1);
        children.push((id, t2));
        ck = ck + 1;
    }
    let spliced = Node { index, body, children };
    proof {
        assert(spliced@.children =~= pre.children.update(0, (new_child as int, pre.children[0].1)));
        assert(spliced@ == (NodeV {
            index: pre.index,
            body: pre.body,
            children: pre.children.update(0, (new_child as int, pre.children[0].1)),
        }));
    }
    nodes.set(sp, spliced);
}

/// Within a self-contained region `[s, len)` the leftmost-leaf walk
/// never leaves the region.
proof fn lemma_lm_parent_region(nodes: Seq<NodeV>, i: int, s: int)
    requires
        forall|k: int| 0 <= k < nodes.len() ==> #[trigger] node_wf(nodes, k),
        forall|j: int, k: int| s <= j < nodes.len()
            && 0 <= k < nodes[j].children.len() ==>
            s <= (#[trigger] nodes[j].children[k]).0,
        0 <= s <= i < nodes.len(),
        nodes[i].children.len() > 0,
    ensures
        s <= lm_parent(nodes, i) < nodes.len(),
    decreases i,
{
    assert(node_wf(nodes, i));
    let c = nodes[i].children[0].0;
    assert(nodes[i].children[0].0 >= s);
    if nodes[c].children.len() == 0 {
    } else {
        lemma_lm_parent_region(nodes, c, s);
    }
}

/// Builds the subtree of expression `i` into the arena and returns its
/// root.  Index expressions become an interior node over fresh leaves;
/// a `Chain` builds both sides and replaces the leftmost leaf of the
/// right side by the left side's root.
#[verifier::rlimit(100)]
#[verifier::spinoff_prover]
fn build_expr(g: &mut Graph, bank: &ExprBank, i: usize) -> (r: Result<usize, GraphError>)
    requires
        bank_wf(bank),
        bank_schedules_wf(bank),
        i < bank.0@.len(),
        old(g)@.wf(),
    ensures
        final(g)@.wf(),
        final(g)@.roots == old(g)@.roots,
        old(g)@.nodes.len() <= final(g)@.nodes.len(),
        final(g)@.nodes.subrange(0, old(g)@.nodes.len() as int) == old(g)@.nodes,
        forall|j: int, k: int| old(g)@.nodes.len() <= j < final(g)@.nodes.len()
            && 0 <= k < final(g)@.nodes[j].children.len() ==>
            old(g)@.nodes.len() <= (#[trigger] final(g)@.nodes[j].children[k]).0,
        tree_like(old(g)@.nodes) ==> tree_like(final(g)@.nodes),
        match r {
            Ok(root) => expr_buildable(bank, i as int)
                && old(g)@.nodes.len() <= (root as int) < final(g)@.nodes.len()
                && final(g)@.nodes[root as int].children.len() > 0
                && (forall|j: int, k: int| 0 <= j < final(g)@.nodes.len()
                    && 0 <= k < final(g)@.nodes[j].children.len() ==>
                    (#[trigger] final(g)@.nodes[j].children[k]).0 != root)
                && final(g)@.nodes == old(g)@.nodes + Seq::new(
                    spec_build_graph(bank, i as int).nodes.len(),
                    |j: int| shift_node(
                        spec_build_graph(bank, i as int).nodes[j],
                        old(g)@.nodes.len() as int,
                    ),
                )
                && root as int == old(g)@.nodes.len()
                    + spec_build_graph(bank, i as int).root_id(),
            Err(e) => !expr_buildable(bank, i as int)
                && (e matches GraphError::ShapeViolation(_)),
        },
    decreases i,
{
    let ghost old_len = g@.nodes.len() as int;
    match &bank.0[i] {
        Expr::Index(ie) => {
            let inputs = ie.op.inputs();
            let out_chars = ie.out.chars_vec();
            let shape = match infer_shape(&out_chars, &inputs) {
                Ok(shape) => shape,
                Err(c) => {
                    proof {
                        assert(g@.nodes.subrange(0, old_len) =~= old(g)@.nodes);
                    }
                    return Err(GraphError::ShapeViolation(c));
                }
            };
            let mut children: Vec<(usize, Vec<char>)> = Vec::new();
            let mut k: usize = 0;
            while k < inputs.len()
                invariant
                    k <= inputs@.len(),
                    old(g)@.wf(),
                    g@.wf(),
                    g@.roots == old(g)@.roots,
                    old_len == old(g)@.nodes.len(),
                    g@.nodes.len() == old_len + k,
                    g@.nodes.subrange(0, old_len) == old(g)@.nodes,
                    children@.len() == k,
                    forall|q: int| 0 <= q < k ==>
                        (#[trigger] children@[q]).0 == old_len + q
                        && children@[q].1@ == tags_view(&inputs)[q],
                    forall|q: int| old_len <= q < g@.nodes.len() ==>
                        (#[trigger] g@.nodes[q]).children.len() == 0
                        && g@.nodes[q].index == tags_view(&inputs)[q - old_len]
                        && g@.nodes[q].body is Leaf,
                decreases inputs@.len() - k,
            {
                let leaf_index = clone_chars(&inputs[k]);
                let tag = clone_chars(&inputs[k]);
                let id = g.nodes.len();
                let leaf = Node { index: leaf_index, body: NodeBody::Leaf, children: Vec::new() };
                let ghost pre = g@;
                let ghost lv = leaf@;
                g.nodes.push(leaf);
                children.push((id, tag));
                k = k + 1;
                proof {
                    assert(g@.nodes =~= pre.nodes.push(lv));
                    assert(g@.nodes.subrange(0, old_len) =~= old(g)@.nodes);
                    assert(lv.children.len() == 0);
                    assert forall|q: int| 0 <= q < g@.nodes.len() implies
                        #[trigger] node_wf(g@.nodes, q) by {
                        if q < pre.nodes.len() {
                            assert(node_wf(pre.nodes, q));
                            assert(g@.nodes[q] == pre.nodes[q]);
                        } else {
                            assert(g@.nodes[q] == lv);
                        }
                    }
                    assert forall|q: int| old_len <= q < g@.nodes.len() implies
                        (#[trigger] g@.nodes[q]).children.len() == 0
                        && g@.nodes[q].index == tags_view(&inputs)[q - old_len]
                        && g@.nodes[q].body is Leaf by {
                        if q < pre.nodes.len() {
                            assert(g@.nodes[q] == pre.nodes[q]);
                        } else {
                            assert(g@.nodes[q] == lv);
                            assert(lv.index == inputs@[(k - 1) as int]@);
                        }
                    }
                }
            }
            let op_c = ie.op.op_char();
            let schedule = clone_schedule(&ie.schedule);
            let root = g.nodes.len();
            let interior = Node {
                index: out_chars,
                body: NodeBody::Interior { op: op_c, schedule, shape },
                children,
            };
            let ghost iv = interior@;
            proof {
                assert(bank.0@[i as int] matches Expr::Index(sie) && sie == *ie);
                assert(ie.schedule.wf());
                let tv = tags_view(&inputs);
                assert forall|p: int| 0 <= p < iv.index.len() implies
                    #[trigger] shape_entry_sound(iv, shape@, p) by {
                    let c = iv.index[p];
                    lemma_child_rpos_sound(tv, c);
                    let ci = child_rpos(tv, c);
                    lemma_tag_rpos_sound(tv[ci], c);
                    assert(iv.children[ci].1 == tv[ci]);
                }
            }
            let ghost pre2 = g@;
            g.nodes.push(interior);
            proof {
                assert(g@.nodes =~= pre2.nodes.push(iv));
                assert(g@.nodes.subrange(0, old_len) =~= old(g)@.nodes);
                assert(g@.nodes[root as int] == iv);
                assert forall|q: int| 0 <= q < g@.nodes.len() implies
                    #[trigger] node_wf(g@.nodes, q) by {
                    if q < root as int {
                        assert(node_wf(pre2.nodes, q));
                        assert(g@.nodes[q] == pre2.nodes[q]);
                    } else {
                        assert(g@.nodes[q] == iv);
                        assert(forall|w: int| 0 <= w < iv.children.len() ==>
                            (#[trigger] iv.children[w]).0 == old_len + w);
                    }
                }
                // the arena extension is exactly the spec-level build of
                // this index expression, shifted into place
                assert(bank.0@[i as int] matches Expr::Index(sie2) && sie2 == *ie);
                let gvi = spec_build_graph(bank, i as int);
                let tags = spec_op_inputs(ie.op);
                assert(tags == tags_view(&inputs));
                assert(gvi.nodes.len() == tags.len() + 1);
                assert forall|q: int| 0 <= q < gvi.nodes.len() implies
                    #[trigger] g@.nodes[old_len + q] == shift_node(gvi.nodes[q], old_len) by {
                    if q < tags.len() {
                        assert(g@.nodes[old_len + q].children.len() == 0);
                        assert(g@.nodes[old_len + q].index == tags[q]);
                        assert(g@.nodes[old_len + q].body is Leaf);
                        assert(g@.nodes[old_len + q].children =~=
                            shift_node(gvi.nodes[q], old_len).children);
                    } else {
                        assert(g@.nodes[old_len + q] == iv);
                        assert(iv.index == ie.out.0@);
                        let sn = shift_node(gvi.nodes[q], old_len);
                        assert(iv.children =~= sn.children);
                        assert(match (iv.body, sn.body) {
                            (
                                NodeBodyV::Interior { op: o1, schedule: s1, shape: sh1 },
                                NodeBodyV::Interior { op: o2, schedule: s2, shape: sh2 },
                            ) => o1 == o2 && s1 == s2 && sh1 =~= sh2,
                            _ => false,
                        }) by {
                            let tv = tags_view(&inputs);
                            assert forall|w: int| 0 <= w < shape@.len() implies
                                #[trigger] shape@[w] == spec_shape_of(ie.out.0@, tags)[w] by {
                                let c = ie.out.0@[w];
                                lemma_child_rpos_sound(tv, c);
                                let ci = child_rpos(tv, c);
                                lemma_tag_rpos_sound(tv[ci], c);
                            }
                            assert(shape@ =~= spec_shape_of(ie.out.0@, tags));
                        }
                    }
                }
                assert forall|w: int| 0 <= w < g@.nodes.len() implies
                    #[trigger] g@.nodes[w] == (old(g)@.nodes + Seq::new(
                        gvi.nodes.len(),
                        |j: int| shift_node(gvi.nodes[j], old_len),
                    ))[w] by {
                    if w >= old_len {
                        let q = w - old_len;
                        assert(g@.nodes[old_len + q] == shift_node(gvi.nodes[q], old_len));
                    } else {
                        assert(g@.nodes[w] == old(g)@.nodes[w]);
                    }
                }
                assert(g@.nodes =~= old(g)@.nodes + Seq::new(
                    gvi.nodes.len(),
                    |j: int| shift_node(gvi.nodes[j], old_len),
                ));
                assert(root as int == old_len + gvi.root_id());
                // the new node's slots target the fresh leaves, which no
                // earlier slot can reach, so the arena stays a tree and
                // the new root is the target of no slot
                assert forall|j: int, k: int| 0 <= j < g@.nodes.len()
                    && 0 <= k < g@.nodes[j].children.len() implies
                    (#[trigger] g@.nodes[j].children[k]).0 != root by {
                    assert(node_wf(g@.nodes, j));
                    if j < old_len {
                        assert(g@.nodes[j].children[k].0 < j);
                    } else if j < root as int {
                        assert(g@.nodes[j].children.len() == 0);
                    } else {
                        assert(g@.nodes[j].children[k].0 == old_len + k);
                        assert(old_len + k < root);
                    }
                }
                if tree_like(old(g)@.nodes) {
                    assert forall|i1: int, k1: int, i2: int, k2: int|
                        0 <= i1 < g@.nodes.len() && 0 <= k1 < g@.nodes[i1].children.len()
                        && 0 <= i2 < g@.nodes.len() && 0 <= k2 < g@.nodes[i2].children.len()
                        && !(i1 == i2 && k1 == k2) implies
                        (#[trigger] g@.nodes[i1].children[k1]).0
                            != (#[trigger] g@.nodes[i2].children[k2]).0 by {
                        assert(node_wf(g@.nodes, i1));
                        assert(node_wf(g@.nodes, i2));
                        if i1 < old_len && i2 < old_len {
                            assert(g@.nodes[i1] == old(g)@.nodes[i1]);
                            assert(g@.nodes[i2] == old(g)@.nodes[i2]);
                        } else if i1 == root as int && i2 == root as int {
                            assert(g@.nodes[i1].children[k1].0 == old_len + k1);
                            assert(g@.nodes[i2].children[k2].0 == old_len + k2);
                        } else if i1 == root as int && i2 < old_len {
                            assert(g@.nodes[i1].children[k1].0 == old_len + k1);
                            assert(g@.nodes[i2].children[k2].0 < i2);
                        } else if i2 == root as int && i1 < old_len {
                            assert(g@.nodes[i2].children[k2].0 == old_len + k2);
                            assert(g@.nodes[i1].children[k1].0 < i1);
                        } else {
                            // a fresh leaf has no slots
                            assert(i1 == root as int || g@.nodes[i1].children.len() == 0
                                || i1 < old_len);
                            assert(i2 == root as int || g@.nodes[i2].children.len() == 0
                                || i2 < old_len);
                        }
                    }
                }
            }
            Ok(root)
        }
        Expr::Combinator(Combinator::Chain(lref, rref)) => {
            proof {
                assert(bank.0@[i as int] matches Expr::Combinator(Combinator::Chain(sl, sr))
                    && sl == *lref && sr == *rref);
            }
            let left_root = match build_expr(g, bank, lref.0) {
                Ok(root) => root,
                Err(e) => {
                    return Err(e);
                }
            };
            let ghost mid = g@;
            let ghost right_start = g@.nodes.len() as int;
            let right_root = match build_expr(g, bank, rref.0) {
                Ok(root) => root,
                Err(e) => {
                    proof {
                        assert(g@.nodes.subrange(0, old_len) =~=
                            mid.nodes.subrange(0, old_len));
                        if tree_like(old(g)@.nodes) {
                            assert(tree_like(mid.nodes));
                        }
                    }
                    return Err(e);
                }
            };
            proof {
                lemma_lm_parent_region(g@.nodes, right_root as int, right_start);
                lemma_lm_parent_in_range(g@.nodes, right_root as int);
            }
            let p = find_lm_parent(g, right_root);
            let ghost pre = g@;
            splice_first_child(&mut g.nodes, p, left_root);
            proof {
                let now = g@;
                assert(now.nodes =~= Seq::new(g.nodes@.len() as nat, |q: int| g.nodes@[q]@));
                assert(now.nodes.len() == pre.nodes.len());
                assert(forall|j: int| 0 <= j < now.nodes.len() && j != p ==>
                    #[trigger] now.nodes[j] == pre.nodes[j]);
                assert(now.nodes.subrange(0, old_len) =~= mid.nodes.subrange(0, old_len));
                assert(now.nodes.subrange(0, old_len) =~= old(g)@.nodes);
                let pn = pre.nodes[p as int];
                let nn = now.nodes[p as int];
                assert(nn.children =~= pn.children.update(0, ((left_root as int), pn.children[0].1)));
                // the spliced node is still well formed: its first child is
                // the left root, which sits below the right region
                assert forall|q: int| 0 <= q < now.nodes.len() implies
                    #[trigger] node_wf(now.nodes, q) by {
                    assert(node_wf(pre.nodes, q));
                    if q == p {
                        assert(nn.children.len() == pn.children.len());
                        assert(nn.index == pn.index);
                        assert(nn.body == pn.body);
                        assert(forall|w: int| 0 < w < nn.children.len() ==>
                            #[trigger] nn.children[w] == pn.children[w]);
                        assert(left_root < p);
                        match nn.body {
                            NodeBodyV::Leaf => {}
                            NodeBodyV::Interior { op, schedule, shape } => {
                                assert forall|w: int| 0 <= w < shape.len() implies
                                    #[trigger] shape_entry_sound(nn, shape, w) by {
                                    assert(shape_entry_sound(pn, shape, w));
                                    let (ci, di) = shape[w];
                                    assert(nn.children[ci as int].1 == pn.children[ci as int].1);
                                }
                            }
                        }
                    }
                }
                assert(now.roots == old(g)@.roots);
                // the arena now equals the spec-level chain of the two
                // built subgraphs, shifted into place
                let lg = spec_build_graph(bank, lref.0 as int);
                let rg = spec_build_graph(bank, rref.0 as int);
                let gvi = spec_build_graph(bank, i as int);
                assert(gvi == spec_chain(lg, rg));
                lemma_spec_build_single_root(bank, rref.0 as int);
                let off = right_start;
                assert(off == old_len + lg.nodes.len());
                assert(right_root as int == off + rg.root_id());
                // the right region is the shifted right build, and its
                // local arena is well formed
                assert(pre.nodes == mid.nodes + Seq::new(
                    rg.nodes.len(),
                    |j: int| shift_node(rg.nodes[j], off),
                ));
                assert forall|k2: int| 0 <= k2 < rg.nodes.len() implies
                    #[trigger] node_wf(rg.nodes, k2) by {
                    assert(node_wf(pre.nodes, off + k2));
                    assert(pre.nodes[off + k2] == shift_node(rg.nodes[k2], off));
                    let sn = shift_node(rg.nodes[k2], off);
                    assert forall|w: int| 0 <= w < rg.nodes[k2].children.len() implies
                        0 <= (#[trigger] rg.nodes[k2].children[w]).0 < k2 by {
                        assert(sn.children[w].0 == rg.nodes[k2].children[w].0 + off);
                        assert(0 <= sn.children[w].0 < off + k2);
                        assert(off <= pre.nodes[off + k2].children[w].0);
                    }
                    match rg.nodes[k2].body {
                        NodeBodyV::Leaf => {
                            assert(sn.body is Leaf);
                            assert(sn.children.len() == rg.nodes[k2].children.len());
                        }
                        NodeBodyV::Interior { op, schedule, shape } => {
                            assert(sn.body == (NodeBodyV::Interior { op, schedule, shape }));
                            assert forall|w: int| 0 <= w < shape.len() implies
                                #[trigger] shape_entry_sound(rg.nodes[k2], shape, w) by {
                                assert(shape_entry_sound(sn, shape, w));
                                let (ci, di) = shape[w];
                                assert(rg.nodes[k2].children[ci as int].1
                                    == sn.children[ci as int].1);
                            }
                        }
                    }
                }
                assert(rg.nodes[rg.root_id()].children.len() > 0) by {
                    assert(pre.nodes[right_root as int] ==
                        shift_node(rg.nodes[rg.root_id()], off));
                }
                // the exec walk lands where the spec splice goes
                assert(pre.nodes =~= mid.nodes + Seq::new(
                    rg.nodes.len(),
                    |j: int| shift_node(rg.nodes[j], mid.nodes.len() as int),
                ));
                lemma_lm_parent_shifted(mid.nodes, rg.nodes, rg.root_id());
                let p_loc = lm_parent(rg.nodes, rg.root_id());
                assert(p as int == off + p_loc);
                // node-for-node equality with the shifted spec chain
                let spec_nodes = old(g)@.nodes + Seq::new(
                    gvi.nodes.len(),
                    |j: int| shift_node(gvi.nodes[j], old_len),
                );
                let combined_loc = lg.nodes + Seq::new(
                    rg.nodes.len(),
                    |j: int| shift_node(rg.nodes[j], lg.nodes.len() as int),
                );
                assert(gvi.nodes.len() == lg.nodes.len() + rg.nodes.len());
                assert(now.nodes.len() == spec_nodes.len());
                assert forall|w: int| 0 <= w < now.nodes.len() implies
                    #[trigger] now.nodes[w] == spec_nodes[w] by {
                    if w < old_len {
                        assert(now.nodes[w] == pre.nodes[w]);
                        assert(pre.nodes[w] == mid.nodes[w]);
                        assert(mid.nodes[w] == old(g)@.nodes[w]);
                    } else if w < off {
                        let q = w - old_len;
                        assert(now.nodes[w] == pre.nodes[w]);
                        assert(pre.nodes[w] == mid.nodes[w]);
                        assert(mid.nodes[w] == shift_node(lg.nodes[q], old_len));
                        assert(gvi.nodes[q] == combined_loc[q]);
                        assert(combined_loc[q] == lg.nodes[q]);
                        assert(spec_nodes[w] == shift_node(gvi.nodes[q], old_len));
                    } else if w != p as int {
                        let q = w - old_len;
                        let j = w - off;
                        assert(now.nodes[w] == pre.nodes[w]);
                        assert(pre.nodes[w] == shift_node(rg.nodes[j], off));
                        assert(gvi.nodes[q] == combined_loc[q]);
                        assert(combined_loc[q] == shift_node(rg.nodes[j], lg.nodes.len() as int));
                        lemma_shift_compose(rg.nodes[j], lg.nodes.len() as int, old_len);
                        assert(spec_nodes[w] == shift_node(gvi.nodes[q], old_len));
                    } else {
                        // the spliced node
                        let q = w - old_len;
                        let j = w - off;
                        assert(j == p_loc);
                        assert(pre.nodes[w] == shift_node(rg.nodes[p_loc], off));
                        assert(now.nodes[w] == (NodeV {
                            index: pre.nodes[w].index,
                            body: pre.nodes[w].body,
                            children: pre.nodes[w].children.update(
                                0,
                                (left_root as int, pre.nodes[w].children[0].1),
                            ),
                        }));
                        assert(gvi.nodes[q] == (NodeV {
                            index: combined_loc[q].index,
                            body: combined_loc[q].body,
                            children: combined_loc[q].children.update(
                                0,
                                (lg.root_id(), combined_loc[q].children[0].1),
                            ),
                        }));
                        assert(combined_loc[q] == shift_node(rg.nodes[p_loc], lg.nodes.len() as int));
                        assert(left_root as int == old_len + lg.root_id());
                        assert(rg.nodes[p_loc].children.len() > 0) by {
                            lemma_lm_parent_in_range(rg.nodes, rg.root_id());
                        }
                        assert(now.nodes[w].children =~=
                            shift_node(gvi.nodes[q], old_len).children);
                        assert(spec_nodes[w] == shift_node(gvi.nodes[q], old_len));
                    }
                }
                assert(now.nodes =~= spec_nodes);
                assert(right_root as int == old_len + gvi.root_id()) by {
                    assert(rg.roots == seq![rg.root_id()]);
                    assert(gvi.roots == Seq::new(
                        rg.roots.len(),
                        |q: int| rg.roots[q] + lg.nodes.len(),
                    ));
                    assert(gvi.roots.last() == rg.root_id() + lg.nodes.len());
                }
                // the splice redirects one slot to the left root, which
                // no slot targeted, so the arena stays a tree; the right
                // root stays the target of no slot
                assert forall|j: int, k: int| 0 <= j < now.nodes.len()
                    && 0 <= k < now.nodes[j].children.len() implies
                    (#[trigger] now.nodes[j].children[k]).0 != right_root by {
                    if j == p as int && k == 0 {
                        assert(now.nodes[j].children[k].0 == left_root);
                    } else {
                        assert(now.nodes[j].children[k] == pre.nodes[j].children[k]);
                    }
                }
                if tree_like(old(g)@.nodes) {
                    assert(tree_like(pre.nodes));
                    // before the splice no slot targets the left root
                    assert forall|j: int, k: int| 0 <= j < pre.nodes.len()
                        && 0 <= k < pre.nodes[j].children.len() implies
                        (#[trigger] pre.nodes[j].children[k]).0 != left_root by {
                        if j < mid.nodes.len() {
                            assert(pre.nodes[j] == mid.nodes[j]);
                        } else {
                            assert(mid.nodes.len() <= pre.nodes[j].children[k].0);
                        }
                    }
                    assert forall|i1: int, k1: int, i2: int, k2: int|
                        0 <= i1 < now.nodes.len() && 0 <= k1 < now.nodes[i1].children.len()
                        && 0 <= i2 < now.nodes.len() && 0 <= k2 < now.nodes[i2].children.len()
                        && !(i1 == i2 && k1 == k2) implies
                        (#[trigger] now.nodes[i1].children[k1]).0
                            != (#[trigger] now.nodes[i2].children[k2]).0 by {
                        if i1 == p as int && k1 == 0 {
                            assert(now.nodes[i1].children[k1].0 == left_root);
                            assert(now.nodes[i2].children[k2] == pre.nodes[i2].children[k2]);
                        } else if i2 == p as int && k2 == 0 {
                            assert(now.nodes[i2].children[k2].0 == left_root);
                            assert(now.nodes[i1].children[k1] == pre.nodes[i1].children[k1]);
                        } else {
                            assert(now.nodes[i1].children[k1] == pre.nodes[i1].children[k1]);
                            assert(now.nodes[i2].children[k2] == pre.nodes[i2].children[k2]);
                        }
                    }
                }
            }
            Ok(right_root)
        }
    }
}

impl Graph {
    /// Builds the graph of a parsed program: the subtree of the last
    /// expression of the bank, which becomes the single root.
    pub fn from_expr_bank(bank: &ExprBank) -> (r: Result<Graph, GraphError>)
        requires
            bank_wf(bank),
            bank_schedules_wf(bank),
        ensures
            match r {
                Ok(g) => bank.0@.len() > 0
                    && expr_buildable(bank, bank.0@.len() - 1)
                    && g@ == spec_build_graph(bank, bank.0@.len() - 1)
                    && g@.wf()
                    && g@.roots.len() == 1
                    && 0 <= g@.root_id() < g@.nodes.len()
                    && !g@.nodes[g@.root_id()].is_leaf()
                    && tree_like(g@.nodes),
                Err(GraphError::EmptyExpressionBank) => bank.0@.len() == 0,
                Err(GraphError::ShapeViolation(_)) => bank.0@.len() > 0
                    && !expr_buildable(bank, bank.0@.len() - 1),
                Err(GraphError::ChainTargetIsLeaf) => false,
            },
    {
        if bank.0.len() == 0 {
            return Err(GraphError::EmptyExpressionBank);
        }
        let mut g = Graph::new();
        proof {
            assert(tree_like(g@.nodes));
        }
        let root = match build_expr(&mut g, bank, bank.0.len() - 1) {
            Ok(root) => root,
            Err(e) => {
                match e {
                    GraphError::ShapeViolation(c) => {
                        return Err(GraphError::ShapeViolation(c));
                    }
                    _ => {
                        proof {
                            assert(false);
                        }
                        return Err(e);
                    }
                }
            }
        };
        g.roots.push(root);
        proof {
            assert(g@.roots =~= seq![root as int]);
            // the arena is the spec-level build: the shift by zero is
            // the identity, and the single root is the build's root
            let last = bank.0@.len() - 1;
            let gvi = spec_build_graph(bank, last);
            lemma_spec_build_single_root(bank, last);
            assert forall|w: int| 0 <= w < g@.nodes.len() implies
                #[trigger] g@.nodes[w] == gvi.nodes[w] by {
                assert(g@.nodes[w] == shift_node(gvi.nodes[w], 0));
                assert(shift_node(gvi.nodes[w], 0).children =~= gvi.nodes[w].children);
            }
            assert(g@.nodes =~= gvi.nodes);
            assert(g@.roots =~= gvi.roots);
        }
        Ok(g)
    }
}

/// The leaves below node `i`, left to right, one occurrence per path.
pub open spec fn leaves_of(nodes: Seq<NodeV>, i: int) -> Seq<int>
    decreases i + 1, 0int when i >= 0
{
    if !(0 <= i < nodes.len()) {
        Seq::empty()
    } else if nodes[i].children.len() == 0 {
        seq![i]
    } else {
        leaves_of_children(nodes, nodes[i].children, i)
    }
}

/// The leaves below each child in `cs`, concatenated; `b` bounds the
/// child indices from above.
pub open spec fn leaves_of_children(nodes: Seq<NodeV>, cs: Seq<(int, Seq<char>)>, b: int) -> Seq<int>
    decreases b, cs.len() when b >= 0
{
    if cs.len() == 0 {
        Seq::empty()
    } else {
        let c = cs[0].0;
        (if 0 <= c < b {
            leaves_of(nodes, c)
        } else {
            Seq::empty()
        }) + leaves_of_children(nodes, cs.skip(1), b)
    }
}

/// Appending a child appends its leaves.
pub proof fn lemma_leaves_children_push(
    nodes: Seq<NodeV>,
    cs: Seq<(int, Seq<char>)>,
    e: (int, Seq<char>),
    b: int,
)
    requires
        b >= 0,
    ensures
        leaves_of_children(nodes, cs.push(e), b) == leaves_of_children(nodes, cs, b)
            + (if 0 <= e.0 < b { leaves_of(nodes, e.0) } else { Seq::empty() }),
    decreases cs.len(),
{
    if cs.len() == 0 {
        assert(cs.push(e).skip(1) =~= Seq::<(int, Seq<char>)>::empty());
        assert(cs.push(e)[0] == e);
        assert(leaves_of_children(nodes, Seq::<(int, Seq<char>)>::empty(), b)
            =~= Seq::<int>::empty());
        assert(leaves_of_children(nodes, cs, b) =~= Seq::<int>::empty());
        assert(leaves_of_children(nodes, cs.push(e), b) =~=
            (if 0 <= e.0 < b { leaves_of(nodes, e.0) } else { Seq::empty() }));
    } else {
        assert(cs.push(e).skip(1) =~= cs.skip(1).push(e));
        assert(cs.push(e)[0] == cs[0]);
        lemma_leaves_children_push(nodes, cs.skip(1), e, b);
        assert(leaves_of_children(nodes, cs.push(e), b) =~=
            leaves_of_children(nodes, cs, b)
            + (if 0 <= e.0 < b { leaves_of(nodes, e.0) } else { Seq::empty() }));
    }
}

/// The integer values of a vector of node indices.
pub open spec fn ids_view(v: Seq<usize>) -> Seq<int> {
    Seq::new(v.len(), |i: int| v[i] as int)
}

fn leaves_rec(g: &Graph, i: usize, out: &mut Vec<usize>)
    requires
        g@.wf(),
        (i as int) < g@.nodes.len(),
    ensures
        ids_view(final(out)@) == ids_view(old(out)@) + leaves_of(g@.nodes, i as int),
    decreases i,
{
    proof {
        assert(node_wf(g@.nodes, i as int));
    }
    let n_children = g.nodes[i].children.len();
    if n_children == 0 {
        out.push(i);
        proof {
            assert(ids_view(out@) =~= ids_view(old(out)@) + leaves_of(g@.nodes, i as int));
        }
        return;
    }
    let ghost cs = g@.nodes[i as int].children;
    let mut k: usize = 0;
    while k < n_children
        invariant
            g@.wf(),
            (i as int) < g@.nodes.len(),
            n_children == g.nodes@[i as int].children@.len(),
            n_children > 0,
            cs == g@.nodes[i as int].children,
            k <= n_children,
            ids_view(out@) == ids_view(old(out)@)
                + leaves_of_children(g@.nodes, cs.take(k as int), i as int),
        decreases n_children - k,
    {
        proof {
            assert(node_wf(g@.nodes, i as int));
            assert(0 <= cs[k as int].0 < i);
        }
        let c = g.nodes[i].children[k].0;
        leaves_rec(g, c, out);
        proof {
            lemma_leaves_children_push(g@.nodes, cs.take(k as int), cs[k as int], i as int);
            assert(cs.take(k as int).push(cs[k as int]) =~= cs.take(k as int + 1));
        }
        k = k + 1;
    }
    proof {
        assert(cs.take(n_children as int) =~= cs);
    }
}

impl Graph {
    /// The input slots of the graph in left-to-right order below the
    /// designated root: the order in which the lowerer assigns input
    /// arrays.  A leaf shared by several paths occurs once per path,
    /// because the lowerer registers one input per path.
    pub fn leaf_slots(&self) -> (r: Vec<usize>)
        requires
            self@.wf(),
            self.roots@.len() > 0,
        ensures
            ids_view(r@) == leaves_of(self@.nodes, self@.root_id()),
    {
        let mut out: Vec<usize> = Vec::new();
        let root = self.root();
        leaves_rec(self, root, &mut out);
        proof {
            assert(ids_view(Seq::<usize>::empty()) =~= Seq::<int>::empty());
            assert(ids_view(out@) =~= leaves_of(self@.nodes, self@.root_id()));
        }
        out
    }

    /// The distinct input leaves of the graph: exactly the childless
    /// nodes reachable from some root, each once (deduplicated by node
    /// identity), in ascending arena order, and no interior node.
    pub fn leaves(&self) -> (r: Vec<usize>)
        requires
            self@.wf(),
        ensures
            forall|p: int, q: int| 0 <= p < q < r@.len() ==>
                (#[trigger] r@[p]) < (#[trigger] r@[q]),
            forall|n: int| #[trigger] ids_view(r@).contains(n) <==>
                (0 <= n < self@.nodes.len() && root_reaches(self@, n)
                    && self@.nodes[n].children.len() == 0),
    {
        let n = self.nodes.len();
        let mut marked: Vec<bool> = Vec::new();
        let mut i: usize = 0;
        while i < n
            invariant
                i <= n,
                marked@.len() == i,
                forall|m: int| 0 <= m < i ==> !(#[trigger] marked@[m]),
            decreases n - i,
        {
            marked.push(false);
            i = i + 1;
        }
        let mut k: usize = 0;
        while k < self.roots.len()
            invariant
                self@.wf(),
                n == self.nodes@.len(),
                marked@.len() == n,
                k <= self.roots@.len(),
                forall|j: int| 0 <= j < k ==> marked@[#[trigger] self@.roots[j]],
                forall|m: int| 0 <= m < n && #[trigger] marked@[m] ==> root_reaches(self@, m),
            decreases self.roots@.len() - k,
        {
            let root = self.roots[k];
            proof {
                assert(0 <= self@.roots[k as int] < self@.nodes.len());
                assert(root as int == self@.roots[k as int]);
            }
            let ghost pre_marked = marked@;
            marked.set(root, true);
            proof {
                assert(reaches(self@.nodes, self@.roots[k as int], self@.roots[k as int]));
                assert forall|m: int| 0 <= m < n && #[trigger] marked@[m] implies
                    root_reaches(self@, m) by {
                    if m != root as int {
                        assert(pre_marked[m]);
                    }
                }
            }
            k = k + 1;
        }
        // sweep the arena downward: edges point strictly down, so once a
        // node is processed its mark is final and its children's marks
        // include everything it reaches
        let mut i: usize = n;
        while i > 0
            invariant
                self@.wf(),
                n == self.nodes@.len(),
                marked@.len() == n,
                i <= n,
                forall|j: int| 0 <= j < self@.roots.len() ==>
                    marked@[#[trigger] self@.roots[j]],
                forall|m: int| 0 <= m < n && #[trigger] marked@[m] ==> root_reaches(self@, m),
                forall|m: int, c: int| i <= m < n && marked@[m]
                    && 0 <= c < self@.nodes[m].children.len() ==>
                    marked@[(#[trigger] self@.nodes[m].children[c]).0],
            decreases i,
        {
            let idx = i - 1;
            if marked[idx] {
                let n_children = self.nodes[idx].children.len();
                let mut c: usize = 0;
                while c < n_children
                    invariant
                        self@.wf(),
                        n == self.nodes@.len(),
                        marked@.len() == n,
                        idx < n,
                        marked@[idx as int],
                        n_children == self.nodes@[idx as int].children@.len(),
                        c <= n_children,
                        forall|j: int| 0 <= j < self@.roots.len() ==>
                            marked@[#[trigger] self@.roots[j]],
                        forall|m: int| 0 <= m < n && #[trigger] marked@[m] ==>
                            root_reaches(self@, m),
                        forall|m: int, c2: int| idx < m < n && marked@[m]
                            && 0 <= c2 < self@.nodes[m].children.len() ==>
                            marked@[(#[trigger] self@.nodes[m].children[c2]).0],
                        forall|c2: int| 0 <= c2 < c ==>
                            marked@[(#[trigger] self@.nodes[idx as int].children[c2]).0],
                    decreases n_children - c,
                {
                    proof {
                        assert(node_wf(self@.nodes, idx as int));
                        assert(0 <= self@.nodes[idx as int].children[c as int].0 < idx);
                        let rr = choose|j: int| 0 <= j < self@.roots.len()
                            && reaches(self@.nodes, self@.roots[j], idx as int);
                        lemma_reaches_extend(self@.nodes, self@.roots[rr], idx as int, c as int);
                    }
                    let child = self.nodes[idx].children[c].0;
                    let ghost pre_marked = marked@;
                    marked.set(child, true);
                    proof {
                        assert((child as int) < idx);
                        assert forall|m: int| 0 <= m < n && #[trigger] marked@[m] implies
                            root_reaches(self@, m) by {
                            if m != child as int {
                                assert(pre_marked[m]);
                            }
                        }
                        assert forall|m: int, c2: int| idx < m < n && marked@[m]
                            && 0 <= c2 < self@.nodes[m].children.len() implies
                            marked@[(#[trigger] self@.nodes[m].children[c2]).0] by {
                            let tgt = self@.nodes[m].children[c2].0;
                            assert(node_wf(self@.nodes, m));
                            assert(0 <= tgt < n);
                            assert(marked@ == pre_marked.update(child as int, true));
                            assert(m != child as int);
                            assert(pre_marked[m]);
                            if tgt == child as int {
                                assert(marked@[tgt]);
                            } else {
                                assert(pre_marked[tgt]);
                                assert(marked@[tgt]);
                            }
                        }
                    }
                    c = c + 1;
                }
            }
            i = i - 1;
        }
        // collect the marked childless nodes in ascending order
        let mut out: Vec<usize> = Vec::new();
        let mut i: usize = 0;
        while i < n
            invariant
                self@.wf(),
                n == self.nodes@.len(),
                marked@.len() == n,
                i <= n,
                forall|m: int| 0 <= m < n && #[trigger] marked@[m] ==> root_reaches(self@, m),
                forall|m: int, c: int| 0 <= m < n && marked@[m]
                    && 0 <= c < self@.nodes[m].children.len() ==>
                    marked@[(#[trigger] self@.nodes[m].children[c]).0],
                forall|j: int| 0 <= j < self@.roots.len() ==>
                    marked@[#[trigger] self@.roots[j]],
                forall|p: int, q: int| 0 <= p < q < out@.len() ==>
                    (#[trigger] out@[p]) < (#[trigger] out@[q]),
                forall|p: int| 0 <= p < out@.len() ==> (#[trigger] out@[p]) < i,
                forall|m: int| 0 <= m < i ==> (#[trigger] ids_view(out@).contains(m) <==>
                    (marked@[m] && self@.nodes[m].children.len() == 0)),
            decreases n - i,
        {
            let ghost pre = out@;
            if marked[i] && self.nodes[i].children.len() == 0 {
                out.push(i);
            }
            i = i + 1;
            proof {
                assert forall|m: int| 0 <= m < i implies
                    (#[trigger] ids_view(out@).contains(m) <==>
                        (marked@[m] && self@.nodes[m].children.len() == 0)) by {
                    if ids_view(out@).contains(m) {
                        let w = choose|w: int| 0 <= w < out@.len()
                            && ids_view(out@)[w] == m;
                        if w < pre.len() {
                            assert(ids_view(pre)[w] == m);
                            assert(ids_view(pre).contains(m));
                        }
                    }
                    if m < i - 1 && ids_view(pre).contains(m) {
                        let w = choose|w: int| 0 <= w < pre.len() && ids_view(pre)[w] == m;
                        assert(ids_view(out@)[w] == m);
                    }
                    if m == i - 1 && marked@[m] && self@.nodes[m].children.len() == 0 {
                        assert(out@[out@.len() - 1] as int == m);
                        assert(ids_view(out@)[out@.len() - 1] == m);
                    }
                }
            }
        }
        proof {
            assert forall|m: int| #[trigger] ids_view(out@).contains(m) implies
                (0 <= m < n && root_reaches(self@, m)
                    && self@.nodes[m].children.len() == 0) by {
            }
            assert forall|m: int| 0 <= m < n && root_reaches(self@, m)
                && self@.nodes[m].children.len() == 0 implies
                #[trigger] ids_view(out@).contains(m) by {
                let j = choose|j: int| 0 <= j < self@.roots.len()
                    && reaches(self@.nodes, self@.roots[j], m);
                lemma_marked_closed(self@.nodes, marked@, self@.roots[j], m);
            }
        }
        out
    }
}

/// Whether some root of the graph reaches node `n`.
pub open spec fn root_reaches(g: GraphV, n: int) -> bool {
    exists|j: int| 0 <= j < g.roots.len() && reaches(g.nodes, #[trigger] g.roots[j], n)
}

/// A reachable node's child is reachable.
proof fn lemma_reaches_extend(nodes: Seq<NodeV>, s: int, t: int, k: int)
    requires
        s >= 0,
        reaches(nodes, s, t),
        0 <= t < nodes.len(),
        0 <= k < nodes[t].children.len(),
        0 <= nodes[t].children[k].0 < t,
    ensures
        reaches(nodes, s, nodes[t].children[k].0),
    decreases s,
{
    if s == t {
        assert(reaches(nodes, nodes[t].children[k].0, nodes[t].children[k].0));
    } else {
        let w = choose|w: int| 0 <= w < nodes[s].children.len()
            && 0 <= (#[trigger] nodes[s].children[w]).0 < s
            && reaches(nodes, nodes[s].children[w].0, t);
        lemma_reaches_extend(nodes, nodes[s].children[w].0, t, k);
    }
}

/// A mark set that contains a node and is closed under child edges
/// contains everything the node reaches.
proof fn lemma_marked_closed(nodes: Seq<NodeV>, marked: Seq<bool>, s: int, t: int)
    requires
        marked.len() == nodes.len(),
        forall|m: int, c: int| 0 <= m < nodes.len() && marked[m]
            && 0 <= c < nodes[m].children.len() ==>
            marked[(#[trigger] nodes[m].children[c]).0],
        0 <= s < nodes.len(),
        marked[s],
        reaches(nodes, s, t),
        0 <= t < nodes.len(),
    ensures
        marked[t],
    decreases s,
{
    if s != t {
        let w = choose|w: int| 0 <= w < nodes[s].children.len()
            && 0 <= (#[trigger] nodes[s].children[w]).0 < s
            && reaches(nodes, nodes[s].children[w].0, t);
        lemma_marked_closed(nodes, marked, nodes[s].children[w].0, t);
    }
}


/// `compose` is exactly `chain` with its arguments swapped.
pub proof fn lemma_compose_is_chain(a: GraphV, b: GraphV)
    ensures
        spec_compose(a, b) == spec_chain(b, a),
{
}

/// Shifting twice shifts by the sum.
proof fn lemma_shift_compose(n: NodeV, x: int, y: int)
    ensures
        shift_node(shift_node(n, x), y) == shift_node(n, x + y),
{
    assert(shift_node(shift_node(n, x), y).children =~= shift_node(n, x + y).children);
}

/// The leftmost-leaf walk looks only at nodes below its start, so two
/// arenas that agree on a prefix walk alike within it.
proof fn lemma_lm_parent_prefix(n1: Seq<NodeV>, n2: Seq<NodeV>, i: int, m: int)
    requires
        forall|j: int| 0 <= j < m ==> n1[j] == #[trigger] n2[j],
        0 <= i < m,
        m <= n1.len(),
        m <= n2.len(),
    ensures
        lm_parent(n1, i) == lm_parent(n2, i),
    decreases i,
{
    assert(n1[i] == n2[i]);
    if n1[i].children.len() > 0 {
        let c = n1[i].children[0].0;
        if 0 <= c < i {
            assert(n1[c] == n2[c]);
            if n1[c].children.len() > 0 {
                lemma_lm_parent_prefix(n1, n2, c, m);
            }
        }
    }
}

/// Appending a shifted arena shifts its walks.
proof fn lemma_lm_parent_shifted(a: Seq<NodeV>, b: Seq<NodeV>, i: int)
    requires
        forall|k: int| 0 <= k < b.len() ==> #[trigger] node_wf(b, k),
        0 <= i < b.len(),
        b[i].children.len() > 0,
    ensures
        lm_parent(
            a + Seq::new(b.len(), |j: int| shift_node(b[j], a.len() as int)),
            a.len() + i,
        ) == a.len() + lm_parent(b, i),
    decreases i,
{
    let al = a.len() as int;
    let cn = a + Seq::new(b.len(), |j: int| shift_node(b[j], al));
    assert(node_wf(b, i));
    let c = b[i].children[0].0;
    assert(0 <= c < i);
    assert(cn[al + i] == shift_node(b[i], al));
    assert(cn[al + i].children[0].0 == c + al);
    assert(cn[al + c] == shift_node(b[c], al));
    assert(cn[al + c].children.len() == b[c].children.len());
    if b[c].children.len() == 0 {
    } else {
        lemma_lm_parent_shifted(a, b, c);
    }
}

/// In a chained graph, the walk from any node of the receiving side's
/// spine crosses the spliced edge and ends at the donor's own
/// leftmost-leaf parent.
proof fn lemma_lm_parent_through_splice(b: GraphV, c: GraphV, i: int)
    requires
        b.wf(),
        c.wf(),
        b.roots.len() > 0,
        c.roots.len() > 0,
        chain_ok(b),
        chain_ok(c),
        0 <= i < c.nodes.len(),
        c.nodes[i].children.len() > 0,
        lm_parent(c.nodes, i) == lm_parent(c.nodes, c.root_id()),
    ensures
        lm_parent(spec_chain(b, c).nodes, b.nodes.len() + i)
            == lm_parent(b.nodes, b.root_id()),
    decreases i,
{
    let bl = b.nodes.len() as int;
    let pc = lm_parent(c.nodes, c.root_id());
    let pb = lm_parent(b.nodes, b.root_id());
    let cn = spec_chain(b, c).nodes;
    lemma_lm_parent_in_range(c.nodes, c.root_id());
    lemma_lm_parent_in_range(b.nodes, b.root_id());
    assert(node_wf(c.nodes, i));
    let combined = b.nodes + Seq::new(c.nodes.len(), |j: int| shift_node(c.nodes[j], bl));
    if i == pc {
        // the walk crosses the spliced edge into the donor graph
        assert(cn[bl + i].children[0].0 == b.root_id());
        assert(0 <= b.root_id() < bl);
        assert(cn[b.root_id()] == b.nodes[b.root_id()]);
        assert(cn[b.root_id()].children.len() > 0);
        assert(lm_parent(cn, b.root_id()) == pb) by {
            lemma_lm_parent_prefix(cn, b.nodes, b.root_id(), bl);
        }
    } else {
        let c0 = c.nodes[i].children[0].0;
        assert(0 <= c0 < i);
        // the walk has not yet reached the leftmost leaf, so the first
        // child is interior and stays on the spine
        if c.nodes[c0].children.len() == 0 {
            assert(lm_parent(c.nodes, i) == i);
            assert(false);
        }
        assert(lm_parent(c.nodes, c0) == lm_parent(c.nodes, i));
        assert(cn[bl + i] == combined[bl + i]);
        assert(cn[bl + i] == shift_node(c.nodes[i], bl));
        assert(cn[bl + i].children[0].0 == c0 + bl);
        // whether or not the next spine node is the spliced one, its
        // child count is unchanged
        if c0 == pc {
            assert(cn[bl + c0].children.len() == combined[bl + pc].children.len());
        } else {
            assert(cn[bl + c0] == shift_node(c.nodes[c0], bl));
        }
        assert(cn[bl + c0].children.len() > 0);
        lemma_lm_parent_through_splice(b, c, c0);
    }
}

/// The graph algebra is associative: splicing `a` into `b` and the
/// result into `c` builds the same graph as splicing `a` into the
/// splice of `b` into `c`.  The splice targets are distinct leaves —
/// the leftmost leaf of `c` and the leftmost leaf of `b` — so the two
/// orders perform the same two substitutions.
pub proof fn lemma_chain_associative(a: GraphV, b: GraphV, c: GraphV)
    requires
        a.wf(),
        b.wf(),
        c.wf(),
        a.roots.len() > 0,
        b.roots.len() > 0,
        c.roots.len() > 0,
        chain_ok(b),
        chain_ok(c),
    ensures
        spec_chain(spec_chain(a, b), c) == spec_chain(a, spec_chain(b, c)),
{
    let al = a.nodes.len() as int;
    let bl = b.nodes.len() as int;
    let cl = c.nodes.len() as int;
    let pb = lm_parent(b.nodes, b.root_id());
    let pc = lm_parent(c.nodes, c.root_id());
    lemma_lm_parent_in_range(b.nodes, b.root_id());
    lemma_lm_parent_in_range(c.nodes, c.root_id());

    let ab = spec_chain(a, b);
    let bc = spec_chain(b, c);
    let lhs = spec_chain(ab, c);
    let rhs = spec_chain(a, bc);

    lemma_spec_chain_wf(a, b);
    lemma_spec_chain_wf(b, c);

    // the walk of the right-hand side crosses the inner splice and ends
    // at b's leftmost-leaf parent
    assert(bc.root_id() == bl + c.root_id()) by {
        assert(bc.roots == Seq::new(c.roots.len(), |r: int| c.roots[r] + bl));
    }
    assert(c.nodes[c.root_id()].children.len() > 0);
    lemma_lm_parent_through_splice(b, c, c.root_id());
    assert(lm_parent(bc.nodes, bc.root_id()) == pb);

    // the two node arenas agree position for position
    assert(ab.nodes.len() == al + bl);
    assert(bc.nodes.len() == bl + cl);
    assert(lhs.nodes.len() == al + bl + cl);
    assert(rhs.nodes.len() == al + bl + cl);
    assert(ab.root_id() == al + b.root_id()) by {
        assert(ab.roots == Seq::new(b.roots.len(), |r: int| b.roots[r] + al));
    }
    assert forall|q: int| 0 <= q < al + bl + cl implies lhs.nodes[q] == rhs.nodes[q] by {
        let comb_ab = a.nodes + Seq::new(b.nodes.len(), |j: int| shift_node(b.nodes[j], al));
        let comb_bc = b.nodes + Seq::new(c.nodes.len(), |j: int| shift_node(c.nodes[j], bl));
        let comb_l = ab.nodes + Seq::new(c.nodes.len(), |j: int| shift_node(c.nodes[j], al + bl));
        let comb_r = a.nodes + Seq::new(bc.nodes.len(), |j: int| shift_node(bc.nodes[j], al));
        if q < al {
            // a's region is untouched on both sides
            assert(lhs.nodes[q] == comb_l[q]);
            assert(comb_l[q] == ab.nodes[q]);
            assert(ab.nodes[q] == a.nodes[q]);
            assert(rhs.nodes[q] == comb_r[q]);
            assert(comb_r[q] == a.nodes[q]);
        } else if q < al + bl {
            let j = q - al;
            if j == pb {
                // the splice of a into b, performed outer-first on the
                // left and inner-first on the right
                assert(lhs.nodes[q] == ab.nodes[q]);
                assert(ab.nodes[q] == (NodeV {
                    index: comb_ab[q].index,
                    body: comb_ab[q].body,
                    children: comb_ab[q].children.update(
                        0,
                        (a.root_id(), comb_ab[q].children[0].1),
                    ),
                }));
                assert(comb_ab[q] == shift_node(b.nodes[pb], al));
                assert(rhs.nodes[q] == (NodeV {
                    index: comb_r[q].index,
                    body: comb_r[q].body,
                    children: comb_r[q].children.update(
                        0,
                        (a.root_id(), comb_r[q].children[0].1),
                    ),
                }));
                assert(comb_r[q] == shift_node(bc.nodes[j], al));
                assert(bc.nodes[j] == comb_bc[j]);
                assert(comb_bc[j] == b.nodes[pb]);
                assert(lhs.nodes[q].children =~= rhs.nodes[q].children);
                assert(lhs.nodes[q] == rhs.nodes[q]);
            } else {
                assert(lhs.nodes[q] == ab.nodes[q]);
                assert(ab.nodes[q] == comb_ab[q]);
                assert(comb_ab[q] == shift_node(b.nodes[j], al));
                assert(rhs.nodes[q] == comb_r[q]);
                assert(comb_r[q] == shift_node(bc.nodes[j], al));
                assert(bc.nodes[j] == comb_bc[j]);
                assert(comb_bc[j] == b.nodes[j]);
            }
        } else {
            let j = q - al - bl;
            if j == pc {
                // the splice of b into c, shifted into the final arena
                assert(lhs.nodes[q] == (NodeV {
                    index: comb_l[q].index,
                    body: comb_l[q].body,
                    children: comb_l[q].children.update(
                        0,
                        (ab.root_id(), comb_l[q].children[0].1),
                    ),
                }));
                assert(comb_l[q] == shift_node(c.nodes[pc], al + bl));
                assert(rhs.nodes[q] == comb_r[q]);
                assert(comb_r[q] == shift_node(bc.nodes[bl + pc], al));
                assert(bc.nodes[bl + pc] == (NodeV {
                    index: comb_bc[bl + pc].index,
                    body: comb_bc[bl + pc].body,
                    children: comb_bc[bl + pc].children.update(
                        0,
                        (b.root_id(), comb_bc[bl + pc].children[0].1),
                    ),
                }));
                assert(comb_bc[bl + pc] == shift_node(c.nodes[pc], bl));
                lemma_shift_compose(c.nodes[pc], bl, al);
                assert(lhs.nodes[q].children =~= rhs.nodes[q].children);
                assert(lhs.nodes[q] == rhs.nodes[q]);
            } else {
                assert(lhs.nodes[q] == comb_l[q]);
                assert(comb_l[q] == shift_node(c.nodes[j], al + bl));
                assert(rhs.nodes[q] == comb_r[q]);
                assert(comb_r[q] == shift_node(bc.nodes[bl + j], al));
                assert(bc.nodes[bl + j] == comb_bc[bl + j]);
                assert(comb_bc[bl + j] == shift_node(c.nodes[j], bl));
                lemma_shift_compose(c.nodes[j], bl, al);
            }
        }
    }
    assert(lhs.nodes =~= rhs.nodes);
    assert forall|r: int| 0 <= r < lhs.roots.len() implies lhs.roots[r] == rhs.roots[r] by {
        assert(lhs.roots[r] == c.roots[r] + (al + bl));
        assert(rhs.roots[r] == bc.roots[r] + al);
        assert(bc.roots[r] == c.roots[r] + bl);
    }
    assert(lhs.roots =~= rhs.roots);
}


/// The node reached from `from` by taking the given child slots in
/// order, or -1 when the path leaves the graph.
pub open spec fn path_target(nodes: Seq<NodeV>, from: int, path: Seq<int>) -> int
    decreases path.len(),
{
    if !(0 <= from < nodes.len()) {
        -1
    } else if path.len() == 0 {
        from
    } else if 0 <= path[0] < nodes[from].children.len() {
        path_target(nodes, nodes[from].children[path[0]].0, path.skip(1))
    } else {
        -1
    }
}

/// Deep-copy preserves sharing: the copy's arena is the original's, so
/// any two paths that reach one node in the original reach that same
/// one node in the copy — a shared node stays a single node.
pub proof fn lemma_deepcopy_preserves_sharing(
    g: GraphV,
    copy: GraphV,
    from: int,
    p1: Seq<int>,
    p2: Seq<int>,
)
    requires
        copy == g,
    ensures
        path_target(copy.nodes, from, p1) == path_target(g.nodes, from, p1),
        path_target(g.nodes, from, p1) == path_target(g.nodes, from, p2)
            ==> path_target(copy.nodes, from, p1) == path_target(copy.nodes, from, p2),
{
}

/// Chaining touches one edge: every node of `a` is kept as it is, and
/// every edge of `b` except the spliced parent's first child keeps its
/// target and its tag; the spliced edge keeps its tag and now carries
/// `a`'s root.  The displaced leaf itself is dropped from the spliced
/// parent.
pub proof fn lemma_chain_preserves_edges(a: GraphV, b: GraphV)
    requires
        a.wf(),
        b.wf(),
        a.roots.len() > 0,
        b.roots.len() > 0,
        chain_ok(b),
    ensures
        ({
            let g = spec_chain(a, b);
            let al = a.nodes.len() as int;
            let p = lm_parent(b.nodes, b.root_id());
            &&& forall|j: int| 0 <= j < al ==> #[trigger] g.nodes[j] == a.nodes[j]
            &&& forall|j: int, k: int|
                0 <= j < b.nodes.len() && 0 <= k < b.nodes[j].children.len()
                && !(j == p && k == 0) ==>
                (#[trigger] g.nodes[al + j].children[k])
                    == (b.nodes[j].children[k].0 + al, b.nodes[j].children[k].1)
            &&& g.nodes[al + p].children[0]
                == (a.root_id(), b.nodes[p].children[0].1)
        }),
{
    let g = spec_chain(a, b);
    let al = a.nodes.len() as int;
    let p = lm_parent(b.nodes, b.root_id());
    lemma_lm_parent_in_range(b.nodes, b.root_id());
    let combined = a.nodes + Seq::new(b.nodes.len(), |j: int| shift_node(b.nodes[j], al));
    assert forall|j: int, k: int|
        0 <= j < b.nodes.len() && 0 <= k < b.nodes[j].children.len()
        && !(j == p && k == 0) implies
        (#[trigger] g.nodes[al + j].children[k])
            == (b.nodes[j].children[k].0 + al, b.nodes[j].children[k].1) by {
        if j == p {
            assert(g.nodes[al + j].children[k] == combined[al + p].children[k]);
            assert(combined[al + p] == shift_node(b.nodes[p], al));
        } else {
            assert(g.nodes[al + j] == combined[al + j]);
            assert(combined[al + j] == shift_node(b.nodes[j], al));
        }
    }
    assert(g.nodes[al + p].children[0] == (a.root_id(), combined[al + p].children[0].1));
    assert(combined[al + p] == shift_node(b.nodes[p], al));
}


/// Whether `t` is reachable from `s` along child edges (including
/// `s == t`).  Well-formed edges point strictly down the arena, so the
/// recursion terminates.
pub open spec fn reaches(nodes: Seq<NodeV>, s: int, t: int) -> bool
    decreases s when s >= 0
{
    s == t || (0 <= s < nodes.len() && exists|k: int|
        0 <= k < nodes[s].children.len()
        && 0 <= (#[trigger] nodes[s].children[k]).0 < s
        && reaches(nodes, nodes[s].children[k].0, t))
}

/// Whether `j` lies on the always-first-child walk from `top`.
pub open spec fn on_spine(nodes: Seq<NodeV>, top: int, j: int) -> bool
    decreases top when top >= 0
{
    j == top || (0 <= top < nodes.len() && nodes[top].children.len() > 0
        && 0 <= nodes[top].children[0].0 < top
        && on_spine(nodes, nodes[top].children[0].0, j))
}

/// Every node is the target of at most one child slot: the graph is a
/// tree.  Graphs built from an expression bank have this shape; only
/// repeated splicing of one subgraph introduces sharing.
pub open spec fn tree_like(nodes: Seq<NodeV>) -> bool {
    forall|i1: int, k1: int, i2: int, k2: int|
        0 <= i1 < nodes.len() && 0 <= k1 < nodes[i1].children.len()
        && 0 <= i2 < nodes.len() && 0 <= k2 < nodes[i2].children.len()
        && !(i1 == i2 && k1 == k2)
        ==> (#[trigger] nodes[i1].children[k1]).0 != (#[trigger] nodes[i2].children[k2]).0
}

/// Reachability only descends the arena.
proof fn lemma_reaches_le(nodes: Seq<NodeV>, s: int, t: int)
    requires
        s >= 0,
        reaches(nodes, s, t),
    ensures
        t <= s,
    decreases s,
{
    if s != t {
        let k = choose|k: int| 0 <= k < nodes[s].children.len()
            && 0 <= (#[trigger] nodes[s].children[k]).0 < s
            && reaches(nodes, nodes[s].children[k].0, t);
        lemma_reaches_le(nodes, nodes[s].children[k].0, t);
    }
}

/// A spine node other than the top is the first child of another spine
/// node.
proof fn lemma_on_spine_parent(nodes: Seq<NodeV>, top: int, j: int)
    requires
        top >= 0,
        on_spine(nodes, top, j),
        j != top,
    ensures
        exists|p: int| #[trigger] on_spine(nodes, top, p)
            && 0 <= p < nodes.len() && nodes[p].children.len() > 0
            && nodes[p].children[0].0 == j,
    decreases top,
{
    let c = nodes[top].children[0].0;
    if c == j {
        assert(on_spine(nodes, top, top));
    } else {
        lemma_on_spine_parent(nodes, c, j);
        let p = choose|p: int| #[trigger] on_spine(nodes, c, p)
            && 0 <= p < nodes.len() && nodes[p].children.len() > 0
            && nodes[p].children[0].0 == j;
        assert(on_spine(nodes, top, p));
    }
}

/// The spine is downward closed under `on_spine`.
proof fn lemma_on_spine_trans(nodes: Seq<NodeV>, top: int, mid: int, j: int)
    requires
        top >= 0,
        on_spine(nodes, top, mid),
        on_spine(nodes, mid, j),
    ensures
        on_spine(nodes, top, j),
    decreases top,
{
    if mid != top {
        let c = nodes[top].children[0].0;
        lemma_on_spine_trans(nodes, c, mid, j);
    }
}

/// In a tree, a node below the top that reaches a spine node is itself
/// on the spine.
proof fn lemma_reach_spine(nodes: Seq<NodeV>, top: int, s: int, j: int)
    requires
        tree_like(nodes),
        0 <= s < top < nodes.len(),
        on_spine(nodes, top, j),
        reaches(nodes, s, j),
    ensures
        on_spine(nodes, top, s),
    decreases s,
{
    if s == j {
    } else {
        let k = choose|k: int| 0 <= k < nodes[s].children.len()
            && 0 <= (#[trigger] nodes[s].children[k]).0 < s
            && reaches(nodes, nodes[s].children[k].0, j);
        let c = nodes[s].children[k].0;
        lemma_reach_spine(nodes, top, c, j);
        // c is on the spine and below s < top, so c is not the top and
        // has a spine parent; the tree condition makes s that parent
        assert(c != top);
        lemma_on_spine_parent(nodes, top, c);
        let p = choose|p: int| #[trigger] on_spine(nodes, top, p)
            && 0 <= p < nodes.len() && nodes[p].children.len() > 0
            && nodes[p].children[0].0 == c;
        if !(p == s && 0 == k) {
            assert(nodes[p].children[0].0 != nodes[s].children[k].0);
            assert(false);
        }
        assert(on_spine(nodes, top, s));
    }
}

/// The walk of every interior spine node ends at the same parent.
proof fn lemma_spine_lm(nodes: Seq<NodeV>, top: int, j: int)
    requires
        0 <= top < nodes.len(),
        on_spine(nodes, top, j),
        0 <= j,
        nodes[j].children.len() > 0,
        nodes[top].children.len() > 0,
    ensures
        lm_parent(nodes, j) == lm_parent(nodes, top),
    decreases top,
{
    if j != top {
        let c = nodes[top].children[0].0;
        if nodes[c].children.len() == 0 {
            // the walk from the top already stops here, so the only
            // interior spine node is the top itself
            assert(on_spine(nodes, c, j));
            if j != c {
                assert(c >= 0 && nodes[c].children.len() > 0);
                assert(false);
            }
            assert(false);
        } else {
            lemma_spine_lm(nodes, c, j);
        }
    }
}


/// Node indices shifted by a fixed offset.
pub open spec fn shift_ids(s: Seq<int>, d: int) -> Seq<int> {
    Seq::new(s.len(), |q: int| s[q] + d)
}

/// The leaf traversal looks only at nodes below its start, so two
/// arenas that agree on a prefix collect the same leaves within it.
proof fn lemma_leaves_prefix(n1: Seq<NodeV>, n2: Seq<NodeV>, i: int, m: int)
    requires
        forall|j: int| 0 <= j < m ==> n1[j] == #[trigger] n2[j],
        0 <= i < m,
        m <= n1.len(),
        m <= n2.len(),
    ensures
        leaves_of(n1, i) == leaves_of(n2, i),
    decreases i + 1, 0int,
{
    assert(n1[i] == n2[i]);
    if n1[i].children.len() > 0 {
        lemma_leaves_prefix_children(n1, n2, n1[i].children, i, m);
    }
}

proof fn lemma_leaves_prefix_children(
    n1: Seq<NodeV>,
    n2: Seq<NodeV>,
    cs: Seq<(int, Seq<char>)>,
    b: int,
    m: int,
)
    requires
        forall|j: int| 0 <= j < m ==> n1[j] == #[trigger] n2[j],
        0 <= b < m,
        m <= n1.len(),
        m <= n2.len(),
    ensures
        leaves_of_children(n1, cs, b) == leaves_of_children(n2, cs, b),
    decreases b, cs.len(),
{
    if cs.len() > 0 {
        let c = cs[0].0;
        if 0 <= c < b {
            lemma_leaves_prefix(n1, n2, c, m);
        }
        lemma_leaves_prefix_children(n1, n2, cs.skip(1), b, m);
    }
}

/// A well-formed node has at least one leaf below it.
proof fn lemma_leaves_nonempty(nodes: Seq<NodeV>, i: int)
    requires
        forall|k: int| 0 <= k < nodes.len() ==> #[trigger] node_wf(nodes, k),
        0 <= i < nodes.len(),
    ensures
        leaves_of(nodes, i).len() >= 1,
    decreases i,
{
    if nodes[i].children.len() > 0 {
        assert(node_wf(nodes, i));
        let cs = nodes[i].children;
        let c = cs[0].0;
        assert(0 <= c < i);
        lemma_leaves_nonempty(nodes, c);
        assert(leaves_of_children(nodes, cs, i) ==
            leaves_of(nodes, c) + leaves_of_children(nodes, cs.skip(1), i));
    }
}

/// The walk's end lies on the spine.
proof fn lemma_lm_on_spine(nodes: Seq<NodeV>, i: int)
    requires
        0 <= i < nodes.len(),
        nodes[i].children.len() > 0,
        forall|k: int| 0 <= k < nodes.len() ==> #[trigger] node_wf(nodes, k),
    ensures
        on_spine(nodes, i, lm_parent(nodes, i)),
    decreases i,
{
    assert(node_wf(nodes, i));
    let c = nodes[i].children[0].0;
    if nodes[c].children.len() == 0 {
    } else {
        lemma_lm_on_spine(nodes, c);
    }
}

/// A subtree of the receiving graph that avoids the spliced parent is
/// traversed unchanged, leaf for leaf, at shifted indices.
proof fn lemma_chain_avoid(a: GraphV, b: GraphV, j: int)
    requires
        a.wf(),
        b.wf(),
        a.roots.len() > 0,
        b.roots.len() > 0,
        chain_ok(b),
        0 <= j < b.nodes.len(),
        !reaches(b.nodes, j, lm_parent(b.nodes, b.root_id())),
    ensures
        leaves_of(spec_chain(a, b).nodes, a.nodes.len() + j)
            == shift_ids(leaves_of(b.nodes, j), a.nodes.len() as int),
    decreases j + 1, 0int,
{
    let al = a.nodes.len() as int;
    let pb = lm_parent(b.nodes, b.root_id());
    let cn = spec_chain(a, b).nodes;
    lemma_lm_parent_in_range(b.nodes, b.root_id());
    assert(j != pb);
    assert(cn[al + j] == shift_node(b.nodes[j], al));
    assert(node_wf(b.nodes, j));
    if b.nodes[j].children.len() == 0 {
        assert(leaves_of(cn, al + j) =~= seq![al + j]);
        assert(shift_ids(leaves_of(b.nodes, j), al) =~= seq![al + j]);
    } else {
        let cs = b.nodes[j].children;
        assert forall|k: int| 0 <= k < cs.len() implies
            0 <= (#[trigger] cs[k]).0 < j && !reaches(b.nodes, cs[k].0, pb) by {
            assert(cs[k].0 < j);
            if reaches(b.nodes, cs[k].0, pb) {
                assert(reaches(b.nodes, j, pb));
            }
        }
        lemma_chain_avoid_children(a, b, cs, j);
        assert(cn[al + j].children =~= Seq::new(
            cs.len(),
            |k: int| (cs[k].0 + al, cs[k].1),
        ));
        assert(leaves_of(cn, al + j) == leaves_of_children(cn, cn[al + j].children, al + j));
    }
}

/// The children version of the avoidance argument.
proof fn lemma_chain_avoid_children(a: GraphV, b: GraphV, cs: Seq<(int, Seq<char>)>, j: int)
    requires
        a.wf(),
        b.wf(),
        a.roots.len() > 0,
        b.roots.len() > 0,
        chain_ok(b),
        0 <= j < b.nodes.len(),
        forall|k: int| 0 <= k < cs.len() ==>
            0 <= (#[trigger] cs[k]).0 < j
            && !reaches(b.nodes, cs[k].0, lm_parent(b.nodes, b.root_id())),
    ensures
        leaves_of_children(
            spec_chain(a, b).nodes,
            Seq::new(cs.len(), |k: int| (cs[k].0 + a.nodes.len() as int, cs[k].1)),
            a.nodes.len() + j,
        ) == shift_ids(leaves_of_children(b.nodes, cs, j), a.nodes.len() as int),
    decreases j, cs.len(),
{
    let al = a.nodes.len() as int;
    let cn = spec_chain(a, b).nodes;
    let shifted = Seq::new(cs.len(), |k: int| (cs[k].0 + al, cs[k].1));
    if cs.len() == 0 {
        assert(leaves_of_children(cn, shifted, al + j) =~= Seq::<int>::empty());
        assert(shift_ids(leaves_of_children(b.nodes, cs, j), al) =~= Seq::<int>::empty());
    } else {
        let c = cs[0].0;
        lemma_chain_avoid(a, b, c);
        lemma_chain_avoid_children(a, b, cs.skip(1), j);
        assert(shifted.skip(1) =~= Seq::new(
            cs.skip(1).len(),
            |k: int| (cs.skip(1)[k].0 + al, cs.skip(1)[k].1),
        ));
        assert(leaves_of_children(cn, shifted, al + j)
            == leaves_of(cn, al + c) + leaves_of_children(cn, shifted.skip(1), al + j));
        assert(leaves_of_children(b.nodes, cs, j)
            == leaves_of(b.nodes, c) + leaves_of_children(b.nodes, cs.skip(1), j));
        assert(shift_ids(
            leaves_of(b.nodes, c) + leaves_of_children(b.nodes, cs.skip(1), j),
            al,
        ) =~= shift_ids(leaves_of(b.nodes, c), al)
            + shift_ids(leaves_of_children(b.nodes, cs.skip(1), j), al));
    }
}


/// The spine induction behind leaf preservation: below any interior
/// spine node of the receiving tree, the chained graph's leaves are the
/// donor's leaves followed by the node's own leaves less its leftmost.
proof fn lemma_chain_leaves_spine(a: GraphV, b: GraphV, i: int)
    requires
        a.wf(),
        b.wf(),
        a.roots.len() > 0,
        b.roots.len() > 0,
        chain_ok(b),
        tree_like(b.nodes),
        on_spine(b.nodes, b.root_id(), i),
        0 <= i < b.nodes.len(),
        b.nodes[i].children.len() > 0,
    ensures
        leaves_of(spec_chain(a, b).nodes, a.nodes.len() + i)
            == leaves_of(a.nodes, a.root_id())
                + shift_ids(leaves_of(b.nodes, i).skip(1), a.nodes.len() as int),
    decreases i,
{
    let al = a.nodes.len() as int;
    let pb = lm_parent(b.nodes, b.root_id());
    let cn = spec_chain(a, b).nodes;
    lemma_lm_parent_in_range(b.nodes, b.root_id());
    assert(node_wf(b.nodes, i));
    lemma_spine_lm(b.nodes, b.root_id(), i);
    assert(lm_parent(b.nodes, i) == pb);
    let cs = b.nodes[i].children;
    let c0 = cs[0].0;
    assert(0 <= c0 < i);
    // every non-first child avoids the spliced parent
    assert forall|k: int| 1 <= k < cs.len() implies
        !reaches(b.nodes, (#[trigger] cs[k]).0, pb) by {
        let ck = cs[k].0;
        assert(0 <= ck < i);
        if reaches(b.nodes, ck, pb) {
            if ck < pb {
                lemma_reaches_le(b.nodes, ck, pb);
                assert(false);
            } else if ck == pb {
                // pb would be the target of two distinct slots
                lemma_lm_on_spine(b.nodes, i);
                if pb == i {
                    assert(false);
                } else {
                    lemma_on_spine_parent(b.nodes, i, pb);
                    let p = choose|p: int| #[trigger] on_spine(b.nodes, i, p)
                        && 0 <= p < b.nodes.len() && b.nodes[p].children.len() > 0
                        && b.nodes[p].children[0].0 == pb;
                    assert(b.nodes[p].children[0].0 == b.nodes[i].children[k].0);
                    if !(p == i && 0 == k) {
                        assert(false);
                    }
                    assert(false);
                }
            } else {
                lemma_lm_on_spine(b.nodes, i);
                lemma_reach_spine(b.nodes, i, ck, pb);
                // ck would be on the spine and the target of two slots
                assert(on_spine(b.nodes, i, ck));
                lemma_on_spine_parent(b.nodes, i, ck);
                let p = choose|p: int| #[trigger] on_spine(b.nodes, i, p)
                    && 0 <= p < b.nodes.len() && b.nodes[p].children.len() > 0
                    && b.nodes[p].children[0].0 == ck;
                assert(b.nodes[p].children[0].0 == b.nodes[i].children[k].0);
                if !(p == i && 0 == k) {
                    assert(false);
                }
                assert(false);
            }
        }
    }
    if b.nodes[c0].children.len() == 0 {
        // this node is the spliced parent: its first child is now the
        // donor's root, and the donor contributes its leaves in place
        // of the displaced leaf
        assert(i == pb);
        let spliced_children = cn[al + i].children;
        assert(spliced_children =~= Seq::new(
            cs.len(),
            |k: int| (cs[k].0 + al, cs[k].1),
        ).update(0, (a.root_id(), cs[0].1)));
        assert(spliced_children[0].0 == a.root_id());
        assert(0 <= a.root_id() < al);
        assert(leaves_of(cn, a.root_id()) == leaves_of(a.nodes, a.root_id())) by {
            lemma_leaves_prefix(cn, a.nodes, a.root_id(), al);
        }
        assert(leaves_of(cn, al + i)
            == leaves_of(cn, a.root_id())
                + leaves_of_children(cn, spliced_children.skip(1), al + i));
        assert(spliced_children.skip(1) =~= Seq::new(
            cs.skip(1).len(),
            |k: int| (cs.skip(1)[k].0 + al, cs.skip(1)[k].1),
        ));
        assert forall|k: int| 0 <= k < cs.skip(1).len() implies
            0 <= (#[trigger] cs.skip(1)[k]).0 < i
            && !reaches(b.nodes, cs.skip(1)[k].0, pb) by {
            assert(cs.skip(1)[k] == cs[k + 1]);
        }
        lemma_chain_avoid_children(a, b, cs.skip(1), i);
        // on the receiving side the displaced leaf is the first leaf
        assert(leaves_of(b.nodes, c0) =~= seq![c0]);
        assert(leaves_of(b.nodes, i)
            == seq![c0] + leaves_of_children(b.nodes, cs.skip(1), i));
        assert(leaves_of(b.nodes, i).skip(1) =~=
            leaves_of_children(b.nodes, cs.skip(1), i));
        assert(leaves_of(cn, al + i) =~= leaves_of(a.nodes, a.root_id())
            + shift_ids(leaves_of(b.nodes, i).skip(1), al));
    } else {
        // an inner spine node: recurse on the first child and keep the
        // other children unchanged
        assert(i != pb) by {
            if i == pb {
                assert(lm_parent(b.nodes, i) == i);
            }
        }
        assert(cn[al + i] == shift_node(b.nodes[i], al));
        let shifted = cn[al + i].children;
        assert(shifted =~= Seq::new(cs.len(), |k: int| (cs[k].0 + al, cs[k].1)));
        assert(on_spine(b.nodes, b.root_id(), c0)) by {
            assert(on_spine(b.nodes, c0, c0));
            assert(on_spine(b.nodes, i, c0));
            lemma_on_spine_trans(b.nodes, b.root_id(), i, c0);
        }
        lemma_chain_leaves_spine(a, b, c0);
        assert(shifted[0].0 == c0 + al);
        assert(0 <= c0 + al < al + i);
        assert(leaves_of(cn, al + i)
            == leaves_of(cn, al + c0) + leaves_of_children(cn, shifted.skip(1), al + i));
        assert(shifted.skip(1) =~= Seq::new(
            cs.skip(1).len(),
            |k: int| (cs.skip(1)[k].0 + al, cs.skip(1)[k].1),
        ));
        assert forall|k: int| 0 <= k < cs.skip(1).len() implies
            0 <= (#[trigger] cs.skip(1)[k]).0 < i
            && !reaches(b.nodes, cs.skip(1)[k].0, pb) by {
            assert(cs.skip(1)[k] == cs[k + 1]);
        }
        lemma_chain_avoid_children(a, b, cs.skip(1), i);
        // the first child's leaves are non-empty, so dropping the first
        // leaf of the whole node drops it from the first child
        assert(forall|k: int| 0 <= k < b.nodes.len() ==> #[trigger] node_wf(b.nodes, k));
        lemma_leaves_nonempty(b.nodes, c0);
        let lc0 = leaves_of(b.nodes, c0);
        let rest = leaves_of_children(b.nodes, cs.skip(1), i);
        assert(leaves_of(b.nodes, i) == lc0 + rest);
        assert((lc0 + rest).skip(1) =~= lc0.skip(1) + rest);
        assert(leaves_of(cn, al + i) =~= leaves_of(a.nodes, a.root_id())
            + shift_ids(lc0.skip(1), al) + shift_ids(rest, al));
        assert(shift_ids(lc0.skip(1), al) + shift_ids(rest, al)
            =~= shift_ids(lc0.skip(1) + rest, al));
        assert(leaves_of(cn, al + i) =~= leaves_of(a.nodes, a.root_id())
            + shift_ids(leaves_of(b.nodes, i).skip(1), al));
    }
}

/// Graph splice preserves leaves: chaining `a` into a tree-shaped `b`
/// yields a graph whose leaf list, in traversal order, is `a`'s leaf
/// list followed by `b`'s with its leftmost leaf removed — the leaf set
/// of the result is the leaf set of `b` less the displaced leaf, plus
/// the leaves of `a`.
pub proof fn lemma_chain_preserves_leaves(a: GraphV, b: GraphV)
    requires
        a.wf(),
        b.wf(),
        a.roots.len() > 0,
        b.roots.len() > 0,
        chain_ok(b),
        tree_like(b.nodes),
    ensures
        leaves_of(spec_chain(a, b).nodes, spec_chain(a, b).root_id())
            == leaves_of(a.nodes, a.root_id())
                + shift_ids(
                leaves_of(b.nodes, b.root_id()).skip(1),
                a.nodes.len() as int,
            ),
{
    assert(on_spine(b.nodes, b.root_id(), b.root_id()));
    lemma_chain_leaves_spine(a, b, b.root_id());
    assert(spec_chain(a, b).root_id() == a.nodes.len() + b.root_id()) by {
        assert(spec_chain(a, b).roots == Seq::new(
            b.roots.len(),
            |r: int| b.roots[r] + a.nodes.len(),
        ));
    }
}


/// The shape descriptor the reverse scan infers: for each output axis,
/// the last child carrying it and the rightmost position there.
pub open spec fn spec_shape_of(index: Seq<char>, tags: Seq<Seq<char>>) -> Seq<(usize, usize)> {
    Seq::new(
        index.len(),
        |p: int| (
            child_rpos(tags, index[p]) as usize,
            tag_rpos(tags[child_rpos(tags, index[p])], index[p]) as usize,
        ),
    )
}

/// The graph the builder makes of one bank expression.  An index
/// expression is an interior node over one fresh leaf per input, each
/// edge tagged with its input's index string; a `Chain` is the splice
/// of the left build into the right build, exactly `spec_chain`.
pub open spec fn spec_build_graph(bank: &ExprBank, i: int) -> GraphV
    decreases i when i >= 0
{
    if !(0 <= i < bank.0@.len()) {
        GraphV { nodes: Seq::empty(), roots: Seq::empty() }
    } else {
        match bank.0@[i] {
            Expr::Index(ie) => {
                let tags = spec_op_inputs(ie.op);
                GraphV {
                    nodes: Seq::new(
                        tags.len(),
                        |k: int| NodeV {
                            index: tags[k],
                            body: NodeBodyV::Leaf,
                            children: Seq::empty(),
                        },
                    ).push(NodeV {
                        index: ie.out.0@,
                        body: NodeBodyV::Interior {
                            op: spec_op_char(ie.op),
                            schedule: ie.schedule@,
                            shape: spec_shape_of(ie.out.0@, tags),
                        },
                        children: Seq::new(tags.len(), |k: int| (k, tags[k])),
                    }),
                    roots: seq![tags.len() as int],
                }
            },
            Expr::Combinator(Combinator::Chain(l, r)) => {
                if (l.0 as int) < i && (r.0 as int) < i {
                    spec_chain(spec_build_graph(bank, l.0 as int), spec_build_graph(bank, r.0 as int))
                } else {
                    GraphV { nodes: Seq::empty(), roots: Seq::empty() }
                }
            },
        }
    }
}

/// A built graph has exactly one root.
pub proof fn lemma_spec_build_single_root(bank: &ExprBank, i: int)
    requires
        bank_wf(bank),
        0 <= i < bank.0@.len(),
        expr_buildable(bank, i),
    ensures
        spec_build_graph(bank, i).roots == seq![spec_build_graph(bank, i).root_id()],
    decreases i,
{
    match bank.0@[i] {
        Expr::Index(ie) => {
            assert(spec_build_graph(bank, i).roots =~=
                seq![spec_build_graph(bank, i).root_id()]);
        },
        Expr::Combinator(Combinator::Chain(l, r)) => {
            lemma_spec_build_single_root(bank, r.0 as int);
            let lg = spec_build_graph(bank, l.0 as int);
            let rg = spec_build_graph(bank, r.0 as int);
            assert(spec_chain(lg, rg).roots =~= seq![spec_chain(lg, rg).root_id()]);
        },
    }
}

} // verus!
