//! The arena-indexed computation graph and its reverse-mode
//! differentiation.
//!
//! A [`ValueGraph`] owns every [`Value`] node in a growable arena; a node
//! names its operands only by arena index, and an operand index is always
//! smaller than the index of the node that uses it, so the graph is acyclic
//! by construction. The backward pass walks the indices from the root
//! downward, which is a reverse topological order, so every edge propagates
//! its gradient contribution exactly once.

use vstd::prelude::*;
use vstd::string::StringExecFns;

use crate::dot::{pg_add_edge, pg_add_node, pg_edges, pg_new, pg_nodes, pg_pos};
use crate::fixed::{MyF64, SCALE, fadd, fmul, fsub, tanh_fx, lemma_fmul_one};
use crate::render::{annotation, spec_annotation};

verus! {

broadcast use vstd::seq_lib::lemma_seq_contains_after_push;

/// How a node's value was derived: the closed set of elementary
/// operations, or `Leaf` for an independent input.
#[derive(Clone, Copy, Debug, PartialEq, Eq, Hash, Structural)]
pub enum Op {
    Add,
    Mul,
    Tanh,
    Leaf,
}

impl Op {
    /// The rendering of the operation tag used in graph exports.
    pub fn symbol(&self) -> (r: &'static str)
        ensures
            self is Add ==> r@ == "+"@,
            self is Mul ==> r@ == "*"@,
            self is Tanh ==> r@ == "tanh"@,
            self is Leaf ==> r@ == ""@,
    {
        match self {
            Op::Add => "+",
            Op::Mul => "*",
            Op::Tanh => "tanh",
            Op::Leaf => "",
        }
    }
}

/// The mathematical shadow of a node: its label, its fixed-point value and
/// gradient, its operation tag, and the arena indices of its operands.
pub ghost struct NodeSpec {
    pub label: Seq<char>,
    pub data: int,
    pub grad: int,
    pub op: Op,
    pub prev: Seq<int>,
}

/// One scalar computation step: a value, its gradient accumulator, and how
/// the value was derived from earlier nodes.
#[derive(Clone, PartialEq, Eq, Hash)]
pub struct Value {
    pub label: String,
    pub data: MyF64,
    pub grad: MyF64,
    pub op: Op,
    pub prev: Vec<usize>,
}

impl View for Value {
    type V = NodeSpec;

    open spec fn view(&self) -> NodeSpec {
        NodeSpec {
            label: self.label@,
            data: self.data@,
            grad: self.grad@,
            op: self.op,
            prev: self.prev@.map_values(|p: usize| p as int),
        }
    }
}

impl Value {
    /// A node assembled from all of its parts.
    pub fn new(label: String, data: MyF64, grad: MyF64, op: Op, prev: Vec<usize>) -> (r: Value)
        ensures
            r@ == (NodeSpec {
                label: label@,
                data: data@,
                grad: grad@,
                op: op,
                prev: prev@.map_values(|p: usize| p as int),
            }),
    {
        Value { label, data, grad, op, prev }
    }
}

impl Default for Value {
    /// An unlabelled leaf holding zero.
    fn default() -> (r: Value)
        ensures
            r@.label == Seq::<char>::empty(),
            r@.data == 0,
            r@.grad == 0,
            r@.op == Op::Leaf,
            r@.prev == Seq::<int>::empty(),
    {
        let r = Value {
            label: String::new(),
            data: MyF64(0),
            grad: MyF64(0),
            op: Op::Leaf,
            prev: Vec::new(),
        };
        proof {
            assert(r@.prev =~= Seq::<int>::empty());
        }
        r
    }
}

/// The recoverable failures of the engine: an arena index that was never
/// assigned.
#[derive(Clone, Copy, Debug, PartialEq, Eq, Structural)]
pub enum GraphError {
    UnknownNode(usize),
}

/// A node is well formed below a bound when its operand count matches its
/// operation and every operand index lies below the bound.
pub open spec fn node_wf(n: NodeSpec, bound: int) -> bool {
    &&& match n.op {
        Op::Leaf => n.prev.len() == 0,
        Op::Add => n.prev.len() == 2,
        Op::Mul => n.prev.len() == 2,
        Op::Tanh => n.prev.len() == 1,
    }
    &&& forall|k: int| 0 <= k < n.prev.len() ==> 0 <= #[trigger] n.prev[k] < bound
}

/// A graph is well formed when every node only names operands created
/// before it, in the counts its operation demands.
pub open spec fn graph_wf(g: Seq<NodeSpec>) -> bool {
    forall|i: int| 0 <= i < g.len() ==> node_wf(#[trigger] g[i], i)
}

/// Whether node `j` is reachable from the root `root` by following
/// operand edges downward; the root reaches itself.
pub open spec fn reach(g: Seq<NodeSpec>, root: int, j: int) -> bool
    recommends
        graph_wf(g),
        0 <= root < g.len(),
    decreases root - j, root + 1 - j,
{
    if j == root {
        true
    } else if 0 <= j < root {
        reach_above(g, root, j, j + 1)
    } else {
        false
    }
}

/// Whether some node in `[m, root]` that is itself reachable from the root
/// has `j` among its operands.
pub open spec fn reach_above(g: Seq<NodeSpec>, root: int, j: int, m: int) -> bool
    recommends
        graph_wf(g),
        0 <= root < g.len(),
    decreases root - j, root + 1 - m,
{
    if !(0 <= j < root && j < m) {
        false
    } else if m > root {
        false
    } else {
        (reach(g, root, m) && g[m].prev.contains(j)) || reach_above(g, root, j, m + 1)
    }
}

/// A positive reachability witness: node `j` is reached through any single
/// reachable parent `p` in `[m, root]` that lists `j` as an operand.
pub(crate) proof fn lemma_reach_above_intro(g: Seq<NodeSpec>, root: int, j: int, m: int, p: int)
    requires
        0 <= j < root < g.len(),
        j < m <= p <= root,
        reach(g, root, p),
        g[p].prev.contains(j),
    ensures
        reach_above(g, root, j, m),
    decreases p - m,
{
    if m < p {
        lemma_reach_above_intro(g, root, j, m + 1, p);
    }
}

/// A reachable node below the root is listed as an operand of some
/// reachable node above it.
pub(crate) proof fn lemma_reach_above_elim(g: Seq<NodeSpec>, root: int, j: int, m: int)
    requires
        reach_above(g, root, j, m),
    ensures
        exists|p: int|
            m <= p <= root && #[trigger] reach(g, root, p) && g[p].prev.contains(j),
    decreases root + 1 - m,
{
    if reach(g, root, m) && g[m].prev.contains(j) {
        assert(m <= m <= root && reach(g, root, m) && g[m].prev.contains(j));
    } else {
        lemma_reach_above_elim(g, root, j, m + 1);
    }
}

/// Reachability stays inside any operand-closed set that holds the root.
pub(crate) proof fn lemma_reach_subset_at(g: Seq<NodeSpec>, root: int, s: Set<int>, j: int)
    requires
        0 <= root < g.len(),
        s.contains(root),
        forall|p: int, k: int|
            s.contains(p) && 0 <= p < g.len() && 0 <= k < g[p].prev.len()
                ==> s.contains(#[trigger] g[p].prev[k]),
        reach(g, root, j),
        0 <= j <= root,
    ensures
        s.contains(j),
    decreases root - j,
{
    if j != root {
        lemma_reach_above_elim(g, root, j, j + 1);
        let p = choose|p: int|
            j + 1 <= p <= root && #[trigger] reach(g, root, p) && g[p].prev.contains(j);
        lemma_reach_subset_at(g, root, s, p);
        let k = choose|k: int| 0 <= k < g[p].prev.len() && g[p].prev[k] == j;
    }
}

/// The derivative factor that node `p` applies to its operand in position
/// `k`: one for a sum, the other operand's value for a product, one minus
/// the square of the result for a hyperbolic tangent.
pub open spec fn deriv(g: Seq<NodeSpec>, p: int, k: int) -> int
    recommends
        graph_wf(g),
        0 <= p < g.len(),
        0 <= k < g[p].prev.len(),
{
    match g[p].op {
        Op::Leaf => 0,
        Op::Add => SCALE as int,
        Op::Mul => if k == 0 {
            g[g[p].prev[1]].data
        } else {
            g[g[p].prev[0]].data
        },
        Op::Tanh => fsub(SCALE as int, fmul(g[p].data, g[p].data)),
    }
}

/// The adjoint of node `j` for the backward pass rooted at `root`: the
/// gradient of the root's value with respect to `j`'s value, accumulated
/// one operand edge at a time in the order the pass applies them.
pub open spec fn adj(g: Seq<NodeSpec>, root: int, j: int) -> int
    recommends
        graph_wf(g),
        0 <= root < g.len(),
    decreases root - j, root + 2 - j,
{
    if j == root {
        SCALE as int
    } else if 0 <= j < root {
        adj_above(g, root, j, j + 1)
    } else {
        0
    }
}

/// The adjoint contributions that node `j` receives from the nodes in
/// `[m, root]`, folded in the order the backward pass applies them: the
/// pass walks parents from the root downward, so the contribution of a
/// smaller parent lands on top of those of all larger ones.
pub open spec fn adj_above(g: Seq<NodeSpec>, root: int, j: int, m: int) -> int
    recommends
        graph_wf(g),
        0 <= root < g.len(),
    decreases root - j, root + 1 - m,
{
    if !(0 <= j < root && j < m) {
        0
    } else if m > root {
        0
    } else {
        let rest = adj_above(g, root, j, m + 1);
        if !reach(g, root, m) {
            rest
        } else {
            let a = adj(g, root, m);
            match g[m].op {
                Op::Leaf => rest,
                Op::Tanh => if g[m].prev[0] == j {
                    fadd(rest, fmul(a, deriv(g, m, 0)))
                } else {
                    rest
                },
                Op::Add | Op::Mul => {
                    let first = if g[m].prev[0] == j {
                        fadd(rest, fmul(a, deriv(g, m, 0)))
                    } else {
                        rest
                    };
                    if g[m].prev[1] == j {
                        fadd(first, fmul(a, deriv(g, m, 1)))
                    } else {
                        first
                    }
                },
            }
        }
    }
}

/// The gradient accumulator of node `j` after a backward pass rooted at
/// `root`: the root is seeded to one, every other reachable node receives
/// its adjoint on top of what it held, and unreachable nodes keep theirs.
pub open spec fn grad_after(g: Seq<NodeSpec>, root: int, j: int) -> int
    recommends
        graph_wf(g),
        0 <= root < g.len(),
        0 <= j < g.len(),
{
    if j == root {
        SCALE as int
    } else if reach(g, root, j) {
        fadd(g[j].grad, adj(g, root, j))
    } else {
        g[j].grad
    }
}

/// Every value a node holds fits the scalar range. This is true of every
/// arena (see `ValueGraph::lemma_in_range`); as a spelled-out bound it
/// serves statements over bare node sequences.
pub open spec fn graph_in_range(g: Seq<NodeSpec>) -> bool {
    forall|i: int|
        0 <= i < g.len() ==> i64::MIN <= (#[trigger] g[i]).data <= i64::MAX && i64::MIN
            <= g[i].grad <= i64::MAX
}

/// Two nodes agree on everything but their gradient accumulator.
pub open spec fn same_shape(a: NodeSpec, b: NodeSpec) -> bool {
    &&& a.label == b.label
    &&& a.data == b.data
    &&& a.op == b.op
    &&& a.prev == b.prev
}

/// The arena that owns every node of one computation graph, indexed by
/// order of creation.
pub struct ValueGraph {
    values: Vec<Value>,
}

impl View for ValueGraph {
    type V = Seq<NodeSpec>;

    closed spec fn view(&self) -> Seq<NodeSpec> {
        self.values@.map_values(|v: Value| v@)
    }
}

impl ValueGraph {
    /// Whether every node of the arena is well formed.
    pub open spec fn wf(self) -> bool {
        graph_wf(self@)
    }

    /// The values and gradients of an arena always fit the scalar range.
    pub proof fn lemma_in_range(&self)
        ensures
            graph_in_range(self@),
    {
        assert forall|i: int| 0 <= i < self@.len()
            implies i64::MIN <= (#[trigger] self@[i]).data <= i64::MAX && i64::MIN
                <= self@[i].grad <= i64::MAX by {
            assert(self@[i] == self.values@[i]@);
        }
    }

    /// An empty arena.
    pub fn new() -> (g: ValueGraph)
        ensures
            g@.len() == 0,
            g.wf(),
    {
        let g = ValueGraph { values: Vec::new() };
        proof {
            assert(g@ =~= Seq::<NodeSpec>::empty());
        }
        g
    }

    /// Inserts a node and hands back its freshly assigned index. The caller
    /// must hand a node whose operands already stand in the arena, in the
    /// count its operation demands.
    pub fn add_value(&mut self, value: Value) -> (index: usize)
        requires
            node_wf(value@, old(self)@.len() as int),
        ensures
            index == old(self)@.len(),
            final(self)@ == old(self)@.push(value@),
            old(self).wf() ==> final(self).wf(),
    {
        let index = self.values.len();
        self.values.push(value);
        proof {
            assert(final(self)@ =~= old(self)@.push(value@));
        }
        index
    }

    /// Inserts a leaf: an independent input with the given label and
    /// value, no operands, and a zero gradient. Always succeeds.
    pub fn create_leaf(&mut self, label: String, data: MyF64) -> (index: usize)
        ensures
            index == old(self)@.len(),
            final(self)@ == old(self)@.push(NodeSpec {
                label: label@,
                data: data@,
                grad: 0,
                op: Op::Leaf,
                prev: Seq::<int>::empty(),
            }),
            old(self).wf() ==> final(self).wf(),
    {
        let value = Value {
            label,
            data,
            grad: MyF64(0),
            op: Op::Leaf,
            prev: Vec::new(),
        };
        proof {
            assert(value@.prev =~= Seq::<int>::empty());
        }
        self.add_value(value)
    }

    /// Looks a node up by index; an index the arena never assigned yields
    /// `None`.
    pub fn get_value(&self, index: usize) -> (r: Option<&Value>)
        ensures
            index < self@.len() ==> (match r {
                Option::Some(v) => v@ == self@[index as int],
                Option::None => false,
            }),
            index >= self@.len() ==> r is None,
    {
        if index < self.values.len() {
            Some(&self.values[index])
        } else {
            None
        }
    }

    /// Looks a node up by index for mutation; an index the arena never
    /// assigned yields `None`. What the caller writes through the
    /// reference lands in the arena: well-formedness is owed by the
    /// caller, and `wf` says when it still holds.
    pub fn get_value_mut(&mut self, index: usize) -> (r: Option<&mut Value>)
        ensures
            index < old(self)@.len() ==> (match r {
                Option::Some(v) => (*v)@ == old(self)@[index as int] && final(self)@ == old(
                    self,
                )@.update(index as int, (*final(v))@),
                Option::None => false,
            }),
            index >= old(self)@.len() ==> r is None && final(self)@ == old(self)@,
    {
        if index < self.values.len() {
            let r = &mut self.values[index];
            Some(r)
        } else {
            None
        }
    }

    /// The number of nodes the arena has created.
    pub fn len(&self) -> (n: usize)
        ensures
            n == self@.len(),
    {
        self.values.len()
    }

    /// Overwrites a node's label; reports an unknown index.
    pub fn set_label(&mut self, index: usize, label: String) -> (r: Result<(), GraphError>)
        ensures
            index < old(self)@.len() ==> r == Ok::<(), GraphError>(())
                && final(self)@ == old(self)@.update(index as int, NodeSpec {
                    label: label@,
                    ..old(self)@[index as int]
                }),
            index >= old(self)@.len() ==> r == Err::<(), GraphError>(GraphError::UnknownNode(index))
                && final(self)@ == old(self)@,
            old(self).wf() ==> final(self).wf(),
    {
        if index < self.values.len() {
            self.values[index].label = label;
            proof {
                assert(final(self)@ =~= old(self)@.update(index as int, NodeSpec {
                    label: label@,
                    ..old(self)@[index as int]
                }));
                assert(old(self).wf() ==> final(self).wf()) by {
                    if old(self).wf() {
                        assert(forall|i: int| 0 <= i < final(self)@.len()
                            ==> node_wf(#[trigger] final(self)@[i], i));
                    }
                }
            }
            Ok(())
        } else {
            Err(GraphError::UnknownNode(index))
        }
    }

    /// Overwrites a node's value, as an external update step does between
    /// backward passes; reports an unknown index.
    pub fn set_data(&mut self, index: usize, data: MyF64) -> (r: Result<(), GraphError>)
        ensures
            index < old(self)@.len() ==> r == Ok::<(), GraphError>(())
                && final(self)@ == old(self)@.update(index as int, NodeSpec {
                    data: data@,
                    ..old(self)@[index as int]
                }),
            index >= old(self)@.len() ==> r == Err::<(), GraphError>(GraphError::UnknownNode(index))
                && final(self)@ == old(self)@,
            old(self).wf() ==> final(self).wf(),
    {
        if index < self.values.len() {
            self.values[index].data = data;
            proof {
                assert(final(self)@ =~= old(self)@.update(index as int, NodeSpec {
                    data: data@,
                    ..old(self)@[index as int]
                }));
                assert(old(self).wf() ==> final(self).wf()) by {
                    if old(self).wf() {
                        assert(forall|i: int| 0 <= i < final(self)@.len()
                            ==> node_wf(#[trigger] final(self)@[i], i));
                    }
                }
            }
            Ok(())
        } else {
            Err(GraphError::UnknownNode(index))
        }
    }

    /// Resets every gradient accumulator to zero, the explicit step owed
    /// before a fresh backward pass.
    pub fn zero_grad(&mut self)
        ensures
            final(self)@.len() == old(self)@.len(),
            forall|j: int| 0 <= j < old(self)@.len()
                ==> #[trigger] final(self)@[j] == (NodeSpec { grad: 0, ..old(self)@[j] }),
            old(self).wf() ==> final(self).wf(),
    {
        let ghost v0: Seq<Value> = self.values@;
        let n = self.values.len();
        let mut j: usize = 0;
        while j < n
            invariant
                n == self.values@.len(),
                j <= n,
                self.values@.len() == v0.len(),
                forall|i: int| 0 <= i < j
                    ==> #[trigger] self.values@[i]@ == (NodeSpec { grad: 0, ..v0[i]@ }),
                forall|i: int| j <= i < n ==> #[trigger] self.values@[i] == v0[i],
            decreases n - j,
        {
            self.values[j].grad = MyF64(0);
            j = j + 1;
        }
        proof {
            assert(forall|i: int| 0 <= i < n ==> #[trigger] final(self)@[i] == self.values@[i]@);
            assert(forall|i: int| 0 <= i < n ==> #[trigger] old(self)@[i] == v0[i]@);
            if old(self).wf() {
                assert forall|i: int| 0 <= i < final(self)@.len()
                    implies node_wf(#[trigger] final(self)@[i], i) by {
                    assert(node_wf(old(self)@[i], i));
                }
            }
        }
    }

    /// Builds the sum of two nodes: an `Add` node whose value is the
    /// fixed-point sum of its operands' values, labelled `(a + b)` from its
    /// operands' labels. Fails exactly on an operand index the arena never
    /// assigned, and mutates nothing in that case.
    pub fn add(&mut self, a: usize, b: usize) -> (r: Result<usize, GraphError>)
        ensures
            a < old(self)@.len() && b < old(self)@.len() ==> {
                &&& r == Ok::<usize, GraphError>(old(self)@.len() as usize)
                &&& final(self)@ == old(self)@.push(NodeSpec {
                    label: "("@ + old(self)@[a as int].label + " + "@
                        + old(self)@[b as int].label + ")"@,
                    data: fadd(old(self)@[a as int].data, old(self)@[b as int].data),
                    grad: 0,
                    op: Op::Add,
                    prev: seq![a as int, b as int],
                })
            },
            a >= old(self)@.len()
                ==> r == Err::<usize, GraphError>(GraphError::UnknownNode(a))
                    && final(self)@ == old(self)@,
            a < old(self)@.len() && b >= old(self)@.len()
                ==> r == Err::<usize, GraphError>(GraphError::UnknownNode(b))
                    && final(self)@ == old(self)@,
            old(self).wf() ==> final(self).wf(),
    {
        if a >= self.values.len() {
            return Err(GraphError::UnknownNode(a));
        }
        if b >= self.values.len() {
            return Err(GraphError::UnknownNode(b));
        }
        let la = self.values[a].label.clone();
        let lb = self.values[b].label.clone();
        let label = "(".to_owned().concat(la.as_str()).concat(" + ").concat(lb.as_str()).concat(
            ")",
        );
        let data = self.values[a].data.add(self.values[b].data);
        let mut prev: Vec<usize> = Vec::new();
        prev.push(a);
        prev.push(b);
        let value = Value { label, data, grad: MyF64(0), op: Op::Add, prev };
        proof {
            assert(value@.prev =~= seq![a as int, b as int]);
        }
        Ok(self.add_value(value))
    }

    /// Builds the product of two nodes: a `Mul` node whose value is the
    /// fixed-point product of its operands' values, labelled `(a * b)` from
    /// its operands' labels. Fails exactly on an operand index the arena
    /// never assigned, and mutates nothing in that case.
    pub fn mul(&mut self, a: usize, b: usize) -> (r: Result<usize, GraphError>)
        ensures
            a < old(self)@.len() && b < old(self)@.len() ==> {
                &&& r == Ok::<usize, GraphError>(old(self)@.len() as usize)
                &&& final(self)@ == old(self)@.push(NodeSpec {
                    label: "("@ + old(self)@[a as int].label + " * "@
                        + old(self)@[b as int].label + ")"@,
                    data: fmul(old(self)@[a as int].data, old(self)@[b as int].data),
                    grad: 0,
                    op: Op::Mul,
                    prev: seq![a as int, b as int],
                })
            },
            a >= old(self)@.len()
                ==> r == Err::<usize, GraphError>(GraphError::UnknownNode(a))
                    && final(self)@ == old(self)@,
            a < old(self)@.len() && b >= old(self)@.len()
                ==> r == Err::<usize, GraphError>(GraphError::UnknownNode(b))
                    && final(self)@ == old(self)@,
            old(self).wf() ==> final(self).wf(),
    {
        if a >= self.values.len() {
            return Err(GraphError::UnknownNode(a));
        }
        if b >= self.values.len() {
            return Err(GraphError::UnknownNode(b));
        }
        let la = self.values[a].label.clone();
        let lb = self.values[b].label.clone();
        let label = "(".to_owned().concat(la.as_str()).concat(" * ").concat(lb.as_str()).concat(
            ")",
        );
        let data = self.values[a].data.mul(self.values[b].data);
        let mut prev: Vec<usize> = Vec::new();
        prev.push(a);
        prev.push(b);
        let value = Value { label, data, grad: MyF64(0), op: Op::Mul, prev };
        proof {
            assert(value@.prev =~= seq![a as int, b as int]);
        }
        Ok(self.add_value(value))
    }

    /// The backward pass: reverse-mode differentiation from the root
    /// `index`. The root's gradient is seeded to one; every other node
    /// reachable from the root receives, on top of what its accumulator
    /// already held, the gradient of the root's value with respect to its
    /// own, each operand edge contributing exactly once; every other node
    /// is untouched. Fails exactly on a root index the arena never
    /// assigned, and mutates nothing in that case.
    pub fn backward(&mut self, index: usize) -> (r: Result<(), GraphError>)
        requires
            old(self).wf(),
        ensures
            final(self)@.len() == old(self)@.len(),
            final(self).wf(),
            index < old(self)@.len() ==> {
                &&& r == Ok::<(), GraphError>(())
                &&& forall|j: int| 0 <= j < old(self)@.len()
                    ==> same_shape(#[trigger] final(self)@[j], old(self)@[j])
                &&& forall|j: int| 0 <= j < old(self)@.len()
                    ==> #[trigger] final(self)@[j].grad
                        == grad_after(old(self)@, index as int, j)
            },
            index >= old(self)@.len()
                ==> r == Err::<(), GraphError>(GraphError::UnknownNode(index))
                    && final(self)@ == old(self)@,
    {
        let n = self.values.len();
        if index >= n {
            return Err(GraphError::UnknownNode(index));
        }
        let ghost g: Seq<NodeSpec> = self@;
        let ghost v0: Seq<Value> = self.values@;
        let root: usize = index;

        // The adjoint of each node, accumulated edge by edge, and whether
        // the node has been found reachable from the root.
        let mut adjv: Vec<MyF64> = Vec::new();
        let mut reachv: Vec<bool> = Vec::new();
        let mut k: usize = 0;
        while k < n
            invariant
                k <= n,
                adjv@.len() == k,
                reachv@.len() == k,
                forall|q: int| 0 <= q < k ==> (#[trigger] adjv@[q])@ == 0,
                forall|q: int| 0 <= q < k ==> (#[trigger] reachv@[q]) == false,
            decreases n - k,
        {
            adjv.push(MyF64(0));
            reachv.push(false);
            k = k + 1;
        }
        adjv[root] = MyF64(SCALE);
        reachv[root] = true;

        // Walk the indices from the root downward: a reverse topological
        // order, since operands always lie below their node. When a node
        // is processed every contribution it will ever receive is already
        // in, so each edge is pushed exactly once.
        let mut m: usize = root + 1;
        while m > 0
            invariant
                graph_wf(g),
                g.len() == n,
                root < n,
                root == index,
                m <= root + 1,
                self.values@ == v0,
                self@ == g,
                adjv@.len() == n,
                reachv@.len() == n,
                forall|q: int| 0 <= q < n && (m <= q || q == root)
                    ==> (#[trigger] adjv@[q])@ == adj(g, root as int, q),
                forall|q: int| 0 <= q < n && (m <= q || q == root)
                    ==> (#[trigger] reachv@[q]) == reach(g, root as int, q),
                forall|q: int| 0 <= q < m && q != root
                    ==> (#[trigger] adjv@[q])@ == adj_above(g, root as int, q, m as int),
                forall|q: int| 0 <= q < m && q != root
                    ==> (#[trigger] reachv@[q]) == reach_above(g, root as int, q, m as int),
            decreases m,
        {
            let p = m - 1;
            let ghost adjv0: Seq<MyF64> = adjv@;
            let ghost reachv0: Seq<bool> = reachv@;
            proof {
                assert(v0[p as int]@ == g[p as int]);
                assert(node_wf(g[p as int], p as int));
                if p != root {
                    assert(reachv@[p as int] == reach_above(g, root as int, p as int, m as int));
                    assert(reach(g, root as int, p as int)
                        == reach_above(g, root as int, p as int, p as int + 1));
                    assert(adjv@[p as int]@ == adj_above(g, root as int, p as int, p as int + 1));
                    assert(adj(g, root as int, p as int)
                        == adj_above(g, root as int, p as int, p as int + 1));
                }
            }
            if reachv[p] {
                let adjp = adjv[p];
                proof {
                    assert(adjp@ == adj(g, root as int, p as int));
                    assert(reach(g, root as int, p as int));
                }
                let op = self.values[p].op;
                match op {
                    Op::Leaf => {
                    }
                    Op::Add => {
                        let a0 = self.values[p].prev[0];
                        let a1 = self.values[p].prev[1];
                        proof {
                            assert(a0 as int == g[p as int].prev[0]);
                            assert(a1 as int == g[p as int].prev[1]);
                            lemma_fmul_one(adjp@);
                        }
                        let u0 = adjv[a0].add(adjp);
                        adjv[a0] = u0;
                        reachv[a0] = true;
                        let u1 = adjv[a1].add(adjp);
                        adjv[a1] = u1;
                        reachv[a1] = true;
                    }
                    Op::Mul => {
                        let a0 = self.values[p].prev[0];
                        let a1 = self.values[p].prev[1];
                        proof {
                            assert(a0 as int == g[p as int].prev[0]);
                            assert(a1 as int == g[p as int].prev[1]);
                            assert(v0[a0 as int]@ == g[a0 as int]);
                            assert(v0[a1 as int]@ == g[a1 as int]);
                        }
                        let d0 = self.values[a0].data;
                        let d1 = self.values[a1].data;
                        let c0 = adjp.mul(d1);
                        let u0 = adjv[a0].add(c0);
                        adjv[a0] = u0;
                        reachv[a0] = true;
                        let c1 = adjp.mul(d0);
                        let u1 = adjv[a1].add(c1);
                        adjv[a1] = u1;
                        reachv[a1] = true;
                    }
                    Op::Tanh => {
                        let a0 = self.values[p].prev[0];
                        proof {
                            assert(a0 as int == g[p as int].prev[0]);
                        }
                        let d = self.values[p].data;
                        let t = MyF64(SCALE).sub(d.mul(d));
                        let c = adjp.mul(t);
                        let u0 = adjv[a0].add(c);
                        adjv[a0] = u0;
                        reachv[a0] = true;
                    }
                }
            }
            proof {
                assert forall|q: int| 0 <= q < p && q != root
                    implies (#[trigger] adjv@[q])@ == adj_above(g, root as int, q, p as int)
                        && (#[trigger] reachv@[q]) == reach_above(g, root as int, q, p as int) by {
                    assert(adjv0[q]@ == adj_above(g, root as int, q, m as int));
                    assert(reachv0[q] == reach_above(g, root as int, q, m as int));
                }
                assert forall|q: int| 0 <= q < n && (p <= q || q == root)
                    implies (#[trigger] adjv@[q])@ == adj(g, root as int, q)
                        && (#[trigger] reachv@[q]) == reach(g, root as int, q) by {
                }
            }
            m = p;
        }

        // Fold the adjoints into the gradient accumulators: the root is
        // seeded to one, every other reachable node accumulates.
        self.values[root].grad = MyF64(SCALE);
        let mut j: usize = 0;
        while j < n
            invariant
                graph_wf(g),
                g.len() == n,
                root < n,
                root == index,
                j <= n,
                self.values@.len() == n,
                v0.len() == n,
                forall|i: int| 0 <= i < n ==> #[trigger] v0[i]@ == g[i],
                adjv@.len() == n,
                reachv@.len() == n,
                forall|q: int| 0 <= q < n ==> (#[trigger] adjv@[q])@ == adj(g, root as int, q),
                forall|q: int| 0 <= q < n ==> (#[trigger] reachv@[q]) == reach(g, root as int, q),
                forall|i: int| 0 <= i < j && i != root
                    ==> #[trigger] self.values@[i]@
                        == (NodeSpec { grad: grad_after(g, root as int, i), ..g[i] }),
                forall|i: int| j <= i < n && i != root ==> #[trigger] self.values@[i] == v0[i],
                self.values@[root as int]@ == (NodeSpec { grad: SCALE as int, ..g[root as int] }),
            decreases n - j,
        {
            if j != root {
                if reachv[j] {
                    let u = self.values[j].grad.add(adjv[j]);
                    self.values[j].grad = u;
                } else {
                    proof {
                        assert(self.values@[j as int]@ == g[j as int]);
                        assert(grad_after(g, root as int, j as int) == g[j as int].grad);
                        assert(self.values@[j as int]@
                            == (NodeSpec { grad: grad_after(g, root as int, j as int), ..g[j as int] }));
                    }
                }
            }
            j = j + 1;
        }
        proof {
            assert(grad_after(g, root as int, root as int) == SCALE as int);
            assert(forall|i: int| 0 <= i < n ==> #[trigger] final(self)@[i] == self.values@[i]@);
            assert forall|i: int| 0 <= i < n
                implies same_shape(#[trigger] final(self)@[i], g[i])
                    && final(self)@[i].grad == grad_after(g, root as int, i) by {
            }
            assert forall|i: int| 0 <= i < final(self)@.len()
                implies node_wf(#[trigger] final(self)@[i], i) by {
                assert(node_wf(g[i], i));
            }
        }
        Ok(())
    }

    /// Marks, for every arena index, whether the node is reachable from
    /// `root` by following operand edges, by one walk from the root
    /// downward.
    fn reach_vec(&self, root: usize) -> (rv: Vec<bool>)
        requires
            self.wf(),
            root < self@.len(),
        ensures
            rv@.len() == self@.len(),
            forall|q: int| 0 <= q < self@.len()
                ==> (#[trigger] rv@[q]) == reach(self@, root as int, q),
    {
        let ghost g: Seq<NodeSpec> = self@;
        let n = self.values.len();
        let mut rv: Vec<bool> = Vec::new();
        let mut k: usize = 0;
        while k < n
            invariant
                k <= n,
                rv@.len() == k,
                forall|q: int| 0 <= q < k ==> (#[trigger] rv@[q]) == false,
            decreases n - k,
        {
            rv.push(false);
            k = k + 1;
        }
        rv[root] = true;
        let mut m: usize = root + 1;
        while m > 0
            invariant
                graph_wf(g),
                g.len() == n,
                root < n,
                m <= root + 1,
                self@ == g,
                self.values@.len() == n,
                forall|i: int| 0 <= i < n ==> #[trigger] self.values@[i]@ == g[i],
                rv@.len() == n,
                forall|q: int| 0 <= q < n && (m <= q || q == root)
                    ==> (#[trigger] rv@[q]) == reach(g, root as int, q),
                forall|q: int| 0 <= q < m && q != root
                    ==> (#[trigger] rv@[q]) == reach_above(g, root as int, q, m as int),
            decreases m,
        {
            let p = m - 1;
            let ghost rv0: Seq<bool> = rv@;
            proof {
                assert(node_wf(g[p as int], p as int));
                if p != root {
                    assert(rv@[p as int] == reach_above(g, root as int, p as int, m as int));
                    assert(reach(g, root as int, p as int)
                        == reach_above(g, root as int, p as int, p as int + 1));
                }
            }
            if rv[p] {
                proof {
                    assert(reach(g, root as int, p as int));
                }
                let op = self.values[p].op;
                match op {
                    Op::Leaf => {
                    }
                    Op::Add | Op::Mul => {
                        let a0 = self.values[p].prev[0];
                        let a1 = self.values[p].prev[1];
                        proof {
                            assert(a0 as int == g[p as int].prev[0]);
                            assert(a1 as int == g[p as int].prev[1]);
                        }
                        rv[a0] = true;
                        rv[a1] = true;
                    }
                    Op::Tanh => {
                        let a0 = self.values[p].prev[0];
                        proof {
                            assert(a0 as int == g[p as int].prev[0]);
                        }
                        rv[a0] = true;
                    }
                }
            }
            proof {
                assert forall|q: int| 0 <= q < p && q != root
                    implies (#[trigger] rv@[q]) == reach_above(g, root as int, q, p as int) by {
                    assert(rv0[q] == reach_above(g, root as int, q, m as int));
                }
            }
            m = p;
        }
        rv
    }

    /// Builds the hyperbolic tangent of a node: a `Tanh` node whose value
    /// is the fixed-point tangent of its operand's value, labelled
    /// `tanh(a)` from its operand's label. Fails exactly on an operand
    /// index the arena never assigned, and mutates nothing in that case.
    pub fn tanh(&mut self, a: usize) -> (r: Result<usize, GraphError>)
        ensures
            a < old(self)@.len() ==> {
                &&& r == Ok::<usize, GraphError>(old(self)@.len() as usize)
                &&& final(self)@ == old(self)@.push(NodeSpec {
                    label: "tanh("@ + old(self)@[a as int].label + ")"@,
                    data: tanh_fx(old(self)@[a as int].data),
                    grad: 0,
                    op: Op::Tanh,
                    prev: seq![a as int],
                })
            },
            a >= old(self)@.len()
                ==> r == Err::<usize, GraphError>(GraphError::UnknownNode(a))
                    && final(self)@ == old(self)@,
            old(self).wf() ==> final(self).wf(),
    {
        if a >= self.values.len() {
            return Err(GraphError::UnknownNode(a));
        }
        let la = self.values[a].label.clone();
        let label = "tanh(".to_owned().concat(la.as_str()).concat(")");
        let data = self.values[a].data.tanh();
        let mut prev: Vec<usize> = Vec::new();
        prev.push(a);
        let value = Value { label, data, grad: MyF64(0), op: Op::Tanh, prev };
        proof {
            assert(value@.prev =~= seq![a as int]);
        }
        Ok(self.add_value(value))
    }
}

/// Whether a reachable node higher in the arena carries the same label:
/// the export then lets that higher node stand for the label.
pub open spec fn label_taken_above(g: Seq<NodeSpec>, root: int, i: int) -> bool {
    exists|j: int| i < j <= root && #[trigger] reach(g, root, j) && g[j].label == g[i].label
}

/// Whether the export keeps node `i`: reachable from the root, and the
/// highest node of its label.
pub open spec fn picked(g: Seq<NodeSpec>, root: int, i: int) -> bool {
    reach(g, root, i) && !label_taken_above(g, root, i)
}

/// The arena indices the export keeps among `[i, root]`, highest first:
/// the order in which it emits nodes.
pub open spec fn picks_high(g: Seq<NodeSpec>, root: int, i: int) -> Seq<int>
    decreases root + 1 - i,
{
    if i > root {
        Seq::empty()
    } else {
        picks_high(g, root, i + 1) + (if picked(g, root, i) {
            seq![i]
        } else {
            Seq::empty()
        })
    }
}

/// The export's deduplicated node labels, in emission order.
pub open spec fn export_labels(g: Seq<NodeSpec>, root: int) -> Seq<Seq<char>> {
    picks_high(g, root, 0).map_values(|i: int| g[i].label)
}

/// The export's node annotations, in emission order.
pub open spec fn export_annotations(g: Seq<NodeSpec>, root: int) -> Seq<Seq<char>> {
    picks_high(g, root, 0).map_values(|i: int| spec_annotation(g[i]))
}

/// The `(source label, target label)` pairs of one node's operand edges,
/// in operand order.
pub open spec fn node_pairs(g: Seq<NodeSpec>, i: int) -> Seq<(Seq<char>, Seq<char>)> {
    match g[i].op {
        Op::Leaf => Seq::empty(),
        Op::Tanh => seq![(g[g[i].prev[0]].label, g[i].label)],
        Op::Add | Op::Mul => seq![
            (g[g[i].prev[0]].label, g[i].label),
            (g[g[i].prev[1]].label, g[i].label),
        ],
    }
}

/// Appends, in order, those elements not already present.
pub open spec fn dedup_append<A>(acc: Seq<A>, ps: Seq<A>) -> Seq<A>
    decreases ps.len(),
{
    if ps.len() == 0 {
        acc
    } else {
        dedup_append(
            if acc.contains(ps[0]) {
                acc
            } else {
                acc.push(ps[0])
            },
            ps.drop_first(),
        )
    }
}

/// The export's deduplicated edge label pairs after walking the parents
/// from the root down to `k`, in emission order.
pub open spec fn export_pairs(g: Seq<NodeSpec>, root: int, k: int) -> Seq<(Seq<char>, Seq<char>)>
    decreases root + 1 - k,
{
    if k > root {
        Seq::empty()
    } else {
        let before = export_pairs(g, root, k + 1);
        if reach(g, root, k) {
            dedup_append(before, node_pairs(g, k))
        } else {
            before
        }
    }
}

/// The position of the first occurrence of a label.
pub open spec fn pos_of(labels: Seq<Seq<char>>, l: Seq<char>) -> int
    decreases labels.len(),
{
    if labels.len() == 0 {
        0
    } else if labels[0] == l {
        0
    } else {
        1 + pos_of(labels.drop_first(), l)
    }
}

/// The edge label pairs collected down to parent `k`, each resolved to
/// the positions of the nodes standing for its labels, with an empty
/// weight.
pub open spec fn edge_triples_upto(g: Seq<NodeSpec>, root: int, k: int) -> Seq<
    (int, int, Seq<char>),
> {
    export_pairs(g, root, k).map_values(
        |p: (Seq<char>, Seq<char>)|
            (pos_of(export_labels(g, root), p.0), pos_of(export_labels(g, root), p.1), ""@),
    )
}

/// The export's edges: each deduplicated label pair resolved to the
/// positions of the nodes standing for its labels, with an empty weight.
pub open spec fn export_edge_triples(g: Seq<NodeSpec>, root: int) -> Seq<(int, int, Seq<char>)> {
    edge_triples_upto(g, root, 0)
}

/// The label pairs a list of owned string pairs stands for.
pub open spec fn pairs_view(s: Seq<(String, String)>) -> Seq<(Seq<char>, Seq<char>)> {
    s.map_values(|q: (String, String)| (q.0@, q.1@))
}

/// Every reachable node's label is represented by some kept node at or
/// above it.
pub(crate) proof fn lemma_pick_representative(g: Seq<NodeSpec>, root: int, j: int)
    requires
        0 <= j <= root < g.len(),
        reach(g, root, j),
    ensures
        exists|j2: int|
            j <= j2 <= root && #[trigger] picked(g, root, j2) && g[j2].label == g[j].label,
    decreases root - j,
{
    if picked(g, root, j) {
        assert(j <= j <= root && picked(g, root, j) && g[j].label == g[j].label);
    } else {
        let j3 = choose|j3: int|
            j < j3 <= root && #[trigger] reach(g, root, j3) && g[j3].label == g[j].label;
        lemma_pick_representative(g, root, j3);
        let j2 = choose|j2: int|
            j3 <= j2 <= root && #[trigger] picked(g, root, j2) && g[j2].label == g[j3].label;
        assert(j <= j2 <= root && picked(g, root, j2) && g[j2].label == g[j].label);
    }
}

/// Shape of the kept-index list: its entries lie in `[i, root]`, are
/// kept, appear in strictly descending order, and every kept index of the
/// range appears.
pub(crate) proof fn lemma_picks_high_shape(g: Seq<NodeSpec>, root: int, i: int)
    ensures
        picks_high(g, root, i).len() <= if i > root {
            0
        } else {
            root + 1 - i
        },
        forall|k: int|
            0 <= k < picks_high(g, root, i).len()
                ==> i <= #[trigger] picks_high(g, root, i)[k] <= root
                    && picked(g, root, picks_high(g, root, i)[k]),
        forall|k1: int, k2: int|
            0 <= k1 < k2 < picks_high(g, root, i).len()
                ==> #[trigger] picks_high(g, root, i)[k1] > #[trigger] picks_high(
                g,
                root,
                i,
            )[k2],
    decreases root + 1 - i,
{
    if i <= root {
        lemma_picks_high_shape(g, root, i + 1);
        assert(picks_high(g, root, i) == picks_high(g, root, i + 1) + (if picked(g, root, i) {
            seq![i]
        } else {
            Seq::<int>::empty()
        }));
    }
}

/// Every kept index of the range appears in the kept-index list.
pub(crate) proof fn lemma_picks_high_contains(g: Seq<NodeSpec>, root: int, i: int, j: int)
    requires
        i <= j <= root,
        picked(g, root, j),
    ensures
        picks_high(g, root, i).contains(j),
    decreases j - i,
{
    if i == j {
        let s = picks_high(g, root, i);
        assert(s[s.len() - 1] == j);
    } else {
        lemma_picks_high_contains(g, root, i + 1, j);
        let k = choose|k: int|
            0 <= k < picks_high(g, root, i + 1).len() && #[trigger] picks_high(
                g,
                root,
                i + 1,
            )[k] == j;
        assert(picks_high(g, root, i)[k] == j);
    }
}

/// The kept labels are pairwise distinct.
pub(crate) proof fn lemma_picks_labels_unique(g: Seq<NodeSpec>, root: int, k1: int, k2: int)
    requires
        0 <= root < g.len(),
        0 <= k1 < k2 < picks_high(g, root, 0).len(),
    ensures
        g[picks_high(g, root, 0)[k1]].label != g[picks_high(g, root, 0)[k2]].label,
{
    lemma_picks_high_shape(g, root, 0);
    let p1 = picks_high(g, root, 0)[k1];
    let p2 = picks_high(g, root, 0)[k2];
    assert(p1 > p2);
    if g[p1].label == g[p2].label {
        assert(label_taken_above(g, root, p2));
    }
}

/// `pos_of` finds the position of the first occurrence.
pub(crate) proof fn lemma_pos_of_first(labels: Seq<Seq<char>>, l: Seq<char>, k: int)
    requires
        0 <= k < labels.len(),
        labels[k] == l,
        forall|j: int| 0 <= j < k ==> labels[j] != l,
    ensures
        pos_of(labels, l) == k,
    decreases k,
{
    if k == 0 {
    } else {
        assert(labels[0] != l);
        assert(labels.drop_first()[k - 1] == labels[k]);
        assert(forall|j: int| 0 <= j < k - 1 ==> #[trigger] labels.drop_first()[j] != l);
        lemma_pos_of_first(labels.drop_first(), l, k - 1);
    }
}

/// Collects the set of arena indices reachable from `index` and the set
/// of operand edges among them, each edge as a `(child, parent)` pair of
/// indices: a read-only projection of the graph for rendering. The walk
/// starts with fresh sets and fails exactly on a root index the arena
/// never assigned, filling nothing in that case.
pub fn trace(
    graph: &ValueGraph,
    index: usize,
    nodes: &mut Vec<usize>,
    edges: &mut Vec<(usize, usize)>,
) -> (r: Result<(), GraphError>)
    requires
        graph.wf(),
        old(nodes)@.len() == 0,
        old(edges)@.len() == 0,
    ensures
        index < graph@.len() ==> {
            &&& r == Ok::<(), GraphError>(())
            &&& forall|j: usize|
                final(nodes)@.contains(j)
                    <==> (j < graph@.len() && reach(graph@, index as int, j as int))
            &&& forall|e: (usize, usize)|
                final(edges)@.contains(e)
                    <==> (e.1 < graph@.len() && reach(graph@, index as int, e.1 as int)
                        && graph@[e.1 as int].prev.contains(e.0 as int))
            &&& final(nodes)@.no_duplicates()
            &&& final(edges)@.no_duplicates()
        },
        index >= graph@.len()
            ==> r == Err::<(), GraphError>(GraphError::UnknownNode(index))
                && final(nodes)@ == old(nodes)@ && final(edges)@ == old(edges)@,
{
    let ghost g: Seq<NodeSpec> = graph@;
    let n = graph.len();
    if index >= n {
        return Err(GraphError::UnknownNode(index));
    }
    let rv = graph.reach_vec(index);
    let mut m: usize = index + 1;
    while m > 0
        invariant
            graph_wf(g),
            g.len() == n,
            index < n,
            m <= index + 1,
            graph@ == g,
            rv@.len() == n,
            forall|q: int| 0 <= q < n ==> (#[trigger] rv@[q]) == reach(g, index as int, q),
            forall|j: usize|
                nodes@.contains(j)
                    <==> (m <= j < n && reach(g, index as int, j as int)),
            forall|e: (usize, usize)|
                edges@.contains(e)
                    <==> (m <= e.1 < n && reach(g, index as int, e.1 as int)
                        && g[e.1 as int].prev.contains(e.0 as int)),
            forall|k: int| 0 <= k < nodes@.len() ==> m <= #[trigger] nodes@[k] < n,
            forall|k: int| 0 <= k < edges@.len() ==> m <= (#[trigger] edges@[k]).1 < n,
            nodes@.no_duplicates(),
            edges@.no_duplicates(),
        decreases m,
    {
        let p = m - 1;
        let ghost nodes0: Seq<usize> = nodes@;
        let ghost edges0: Seq<(usize, usize)> = edges@;
        proof {
            assert(node_wf(g[p as int], p as int));
        }
        if rv[p] {
            nodes.push(p);
            let v = graph.get_value(p);
            match v {
                Option::Some(value) => {
                    match value.op {
                        Op::Leaf => {
                        }
                        Op::Add | Op::Mul => {
                            let a0 = value.prev[0];
                            let a1 = value.prev[1];
                            proof {
                                assert(a0 as int == g[p as int].prev[0]);
                                assert(a1 as int == g[p as int].prev[1]);
                            }
                            edges.push((a0, p));
                            if a1 != a0 {
                                edges.push((a1, p));
                            }
                        }
                        Op::Tanh => {
                            let a0 = value.prev[0];
                            proof {
                                assert(a0 as int == g[p as int].prev[0]);
                            }
                            edges.push((a0, p));
                        }
                    }
                }
                Option::None => {
                }
            }
        }
        proof {
            assert forall|j: usize|
                nodes@.contains(j) <==> (p as int <= j < n && reach(g, index as int, j as int))
                by {
                if rv@[p as int] {
                    assert(nodes@ == nodes0.push(p));
                    assert(nodes0.push(p).contains(j) <==> p == j || nodes0.contains(j));
                } else {
                    assert(nodes@ == nodes0);
                }
            }
            assert forall|e: (usize, usize)|
                edges@.contains(e)
                    <==> (p as int <= e.1 < n && reach(g, index as int, e.1 as int)
                        && g[e.1 as int].prev.contains(e.0 as int)) by {
                if rv@[p as int] {
                    match g[p as int].op {
                        Op::Leaf => {
                            assert(edges@ == edges0);
                            assert(g[p as int].prev.len() == 0);
                        }
                        Op::Tanh => {
                            let a0 = g[p as int].prev[0];
                            assert(edges0.push((a0 as usize, p)).contains(e)
                                <==> (a0 as usize, p) == e || edges0.contains(e));
                            if g[p as int].prev.contains(e.0 as int) && e.1 == p {
                                let k = choose|k: int|
                                    0 <= k < g[p as int].prev.len()
                                        && g[p as int].prev[k] == e.0 as int;
                                assert(k == 0);
                            }
                        }
                        Op::Add | Op::Mul => {
                            let a0 = g[p as int].prev[0];
                            let a1 = g[p as int].prev[1];
                            assert(edges0.push((a0 as usize, p)).contains(e)
                                <==> (a0 as usize, p) == e || edges0.contains(e));
                            if a1 != a0 {
                                assert(edges0.push((a0 as usize, p)).push((a1 as usize, p))
                                    .contains(e)
                                    <==> (a1 as usize, p) == e
                                        || edges0.push((a0 as usize, p)).contains(e));
                            }
                            if g[p as int].prev.contains(e.0 as int) && e.1 == p {
                                let k = choose|k: int|
                                    0 <= k < g[p as int].prev.len()
                                        && g[p as int].prev[k] == e.0 as int;
                                assert(k == 0 || k == 1);
                            }
                            assert(g[p as int].prev.contains(a0));
                            assert(g[p as int].prev.contains(a1));
                        }
                    }
                } else {
                    assert(edges@ == edges0);
                    if p as int <= e.1 < n && e.1 == p {
                        assert(!reach(g, index as int, e.1 as int));
                    }
                }
            }
        }
        m = p;
    }
    Ok(())
}

/// Finds the first map entry carrying the given label.
fn find_label(map: &Vec<(String, petgraph::graph::NodeIndex)>, l: &String) -> (r: Option<usize>)
    ensures
        match r {
            Option::Some(k) => k < map@.len() && map@[k as int].0@ == l@ && forall|j: int|
                0 <= j < k ==> (#[trigger] map@[j]).0@ != l@,
            Option::None => forall|j: int| 0 <= j < map@.len() ==> (#[trigger] map@[j]).0@ != l@,
        },
{
    let n = map.len();
    let mut k: usize = 0;
    while k < n
        invariant
            k <= n,
            n == map@.len(),
            forall|j: int| 0 <= j < k ==> (#[trigger] map@[j]).0@ != l@,
        decreases n - k,
    {
        if map[k].0 == *l {
            return Some(k);
        }
        k = k + 1;
    }
    None
}

/// Whether the seen list already holds the given label pair.
fn seen_contains(seen: &Vec<(String, String)>, a: &String, b: &String) -> (r: bool)
    ensures
        r == pairs_view(seen@).contains((a@, b@)),
{
    let n = seen.len();
    let mut k: usize = 0;
    while k < n
        invariant
            k <= n,
            n == seen@.len(),
            forall|j: int|
                0 <= j < k ==> !((#[trigger] seen@[j]).0@ == a@ && seen@[j].1@ == b@),
        decreases n - k,
    {
        if seen[k].0 == *a && seen[k].1 == *b {
            proof {
                assert(pairs_view(seen@)[k as int] == (a@, b@));
            }
            return true;
        }
        k = k + 1;
    }
    proof {
        if pairs_view(seen@).contains((a@, b@)) {
            let j = choose|j: int|
                0 <= j < pairs_view(seen@).len() && #[trigger] pairs_view(seen@)[j] == (a@, b@);
            assert(seen@[j].0@ == a@ && seen@[j].1@ == b@);
        }
    }
    false
}

/// Emits one edge between the nodes standing for the two labels, unless
/// an edge with that label pair was already emitted.
fn add_edge_unique(
    d: &mut petgraph::graph::Graph<String, String>,
    map: &Vec<(String, petgraph::graph::NodeIndex)>,
    seen: &mut Vec<(String, String)>,
    src: &String,
    dst: &String,
    Ghost(g): Ghost<Seq<NodeSpec>>,
    Ghost(root): Ghost<int>,
)
    requires
        graph_wf(g),
        0 <= root < g.len(),
        g.len() < 0x4000_0000,
        map@.len() == picks_high(g, root, 0).len(),
        forall|k: int|
            0 <= k < map@.len() ==> (#[trigger] map@[k]).0@ == g[picks_high(g, root, 0)[k]].label
                && pg_pos(map@[k].1) == k,
        pg_nodes(*old(d)).len() == map@.len(),
        exists|jj: int| 0 <= jj <= root && #[trigger] reach(g, root, jj) && g[jj].label == src@,
        exists|jj: int| 0 <= jj <= root && #[trigger] reach(g, root, jj) && g[jj].label == dst@,
        pg_edges(*old(d)).len() == old(seen)@.len(),
        old(seen)@.len() < 0xFFFF_FFFE,
    ensures
        pg_nodes(*final(d)) == pg_nodes(*old(d)),
        pg_edges(*final(d)).len() == final(seen)@.len(),
        pairs_view(old(seen)@).contains((src@, dst@)) ==> final(seen)@ == old(seen)@
            && pg_edges(*final(d)) == pg_edges(*old(d)),
        !pairs_view(old(seen)@).contains((src@, dst@)) ==> pairs_view(final(seen)@)
            == pairs_view(old(seen)@).push((src@, dst@)) && pg_edges(*final(d)) == pg_edges(
            *old(d),
        ).push(
            (pos_of(export_labels(g, root), src@), pos_of(export_labels(g, root), dst@), ""@),
        ) && final(seen)@.len() == old(seen)@.len() + 1,
{
    let pres = seen_contains(seen, src, dst);
    if !pres {
        let fa = find_label(map, src);
        let fb = find_label(map, dst);
        proof {
            let labels = export_labels(g, root);
            assert(labels.len() == map@.len());
            assert forall|j: int| 0 <= j < labels.len()
                implies #[trigger] labels[j] == map@[j].0@ by {
                assert(labels[j] == g[picks_high(g, root, 0)[j]].label);
            }
            if fa is None {
                let jj = choose|jj: int|
                    0 <= jj <= root && #[trigger] reach(g, root, jj) && g[jj].label == src@;
                lemma_pick_representative(g, root, jj);
                let j2 = choose|j2: int|
                    jj <= j2 <= root && #[trigger] picked(g, root, j2) && g[j2].label
                        == g[jj].label;
                lemma_picks_high_contains(g, root, 0, j2);
                let kk = choose|kk: int|
                    0 <= kk < picks_high(g, root, 0).len() && #[trigger] picks_high(
                        g,
                        root,
                        0,
                    )[kk] == j2;
                assert(map@[kk].0@ == src@);
            }
            if fb is None {
                let jj = choose|jj: int|
                    0 <= jj <= root && #[trigger] reach(g, root, jj) && g[jj].label == dst@;
                lemma_pick_representative(g, root, jj);
                let j2 = choose|j2: int|
                    jj <= j2 <= root && #[trigger] picked(g, root, j2) && g[j2].label
                        == g[jj].label;
                lemma_picks_high_contains(g, root, 0, j2);
                let kk = choose|kk: int|
                    0 <= kk < picks_high(g, root, 0).len() && #[trigger] picks_high(
                        g,
                        root,
                        0,
                    )[kk] == j2;
                assert(map@[kk].0@ == dst@);
            }
        }
        match (fa, fb) {
            (Option::Some(ka), Option::Some(kb)) => {
                proof {
                    let labels = export_labels(g, root);
                    assert(labels[ka as int] == map@[ka as int].0@);
                    assert forall|j: int| 0 <= j < ka implies #[trigger] labels[j] != src@ by {
                        assert(labels[j] == map@[j].0@);
                    }
                    lemma_pos_of_first(labels, src@, ka as int);
                    assert forall|j: int| 0 <= j < kb implies #[trigger] labels[j] != dst@ by {
                        assert(labels[j] == map@[j].0@);
                    }
                    lemma_pos_of_first(labels, dst@, kb as int);
                }
                let ghost seen0: Seq<(String, String)> = seen@;
                pg_add_edge(d, map[ka].1, map[kb].1, "".to_owned());
                seen.push((src.clone(), dst.clone()));
                proof {
                    assert(pairs_view(seen@) =~= pairs_view(seen0).push((src@, dst@)));
                }
            }
            _ => {
            }
        }
    }
}

/// Builds the render view of the graph reachable from `root_index`: one
/// petgraph node per distinct reachable label, annotated with operation,
/// label, value and gradient, and one edge per distinct pair of operand
/// and node label, each counted once however many paths share it. Fails
/// exactly on a root index the arena never assigned.
pub fn draw_dot(graph: &ValueGraph, root_index: usize) -> (r: Result<
    petgraph::graph::Graph<String, String>,
    GraphError,
>)
    requires
        graph.wf(),
        graph@.len() < 0x4000_0000,
    ensures
        root_index < graph@.len() ==> (match r {
            Result::Ok(d) => pg_nodes(d) == export_annotations(graph@, root_index as int)
                && pg_edges(d) == export_edge_triples(graph@, root_index as int),
            Result::Err(_) => false,
        }),
        root_index >= graph@.len() ==> r == Err::<
            petgraph::graph::Graph<String, String>,
            GraphError,
        >(GraphError::UnknownNode(root_index)),
{
    let ghost g: Seq<NodeSpec> = graph@;
    let n = graph.len();
    if root_index >= n {
        return Err(GraphError::UnknownNode(root_index));
    }
    let ghost root: int = root_index as int;
    let rv = graph.reach_vec(root_index);
    let mut d = pg_new();
    let mut map: Vec<(String, petgraph::graph::NodeIndex)> = Vec::new();

    // Emit one node per distinct reachable label, walking from the root
    // downward so the highest node of each label stands for it.
    let mut m: usize = root_index + 1;
    while m > 0
        invariant
            graph_wf(g),
            g.len() == n,
            root == root_index as int,
            root_index < n,
            n < 0x4000_0000,
            graph@ == g,
            graph.values@.len() == n,
            forall|i: int| 0 <= i < n ==> #[trigger] graph.values@[i]@ == g[i],
            m <= root_index + 1,
            rv@.len() == n,
            forall|q: int| 0 <= q < n ==> (#[trigger] rv@[q]) == reach(g, root, q),
            pg_nodes(d) == picks_high(g, root, m as int).map_values(
                |i: int| spec_annotation(g[i]),
            ),
            pg_edges(d) == Seq::<(int, int, Seq<char>)>::empty(),
            map@.len() == picks_high(g, root, m as int).len(),
            forall|k: int| 0 <= k < map@.len()
                ==> (#[trigger] map@[k]).0@ == g[picks_high(g, root, m as int)[k]].label
                    && pg_pos(map@[k].1) == k,
        decreases m,
    {
        let p = m - 1;
        let ghost picks0: Seq<int> = picks_high(g, root, m as int);
        let ghost map0: Seq<(String, petgraph::graph::NodeIndex)> = map@;
        proof {
            lemma_picks_high_shape(g, root, m as int);
            lemma_picks_high_shape(g, root, p as int);
            assert(picks_high(g, root, p as int) == picks0 + (if picked(g, root, p as int) {
                seq![p as int]
            } else {
                Seq::<int>::empty()
            }));
        }
        if rv[p] {
            let found = find_label(&map, &graph.values[p].label);
            match found {
                Option::None => {
                    proof {
                        if label_taken_above(g, root, p as int) {
                            let j3 = choose|j3: int|
                                (p as int) < j3 <= root && #[trigger] reach(g, root, j3)
                                    && g[j3].label == g[p as int].label;
                            lemma_pick_representative(g, root, j3);
                            let j2 = choose|j2: int|
                                j3 <= j2 <= root && #[trigger] picked(g, root, j2)
                                    && g[j2].label == g[j3].label;
                            lemma_picks_high_contains(g, root, m as int, j2);
                            let kk = choose|kk: int|
                                0 <= kk < picks0.len() && #[trigger] picks0[kk] == j2;
                            assert(map0[kk].0@ == g[j2].label);
                            assert(false);
                        }
                        assert(picked(g, root, p as int));
                    }
                    let ann = annotation(&graph.values[p]);
                    let ix = pg_add_node(&mut d, ann);
                    map.push((graph.values[p].label.clone(), ix));
                    proof {
                        let picks1 = picks_high(g, root, p as int);
                        assert(picks1 =~= picks0.push(p as int));
                        assert(picks1.map_values(|i: int| spec_annotation(g[i])) =~= picks0
                            .map_values(|i: int| spec_annotation(g[i])).push(
                            spec_annotation(g[p as int]),
                        ));
                        assert(picks1[picks0.len() as int] == p as int);
                        assert forall|k: int| 0 <= k < map@.len()
                            implies (#[trigger] map@[k]).0@ == g[picks1[k]].label
                                && pg_pos(map@[k].1) == k by {
                            if k < map0.len() {
                                assert(map@[k] == map0[k]);
                                assert(picks1[k] == picks0[k]);
                            }
                        }
                    }
                }
                Option::Some(kf) => {
                    proof {
                        assert(map0[kf as int].0@ == g[p as int].label);
                        assert(picked(g, root, picks0[kf as int]));
                        assert(picks0[kf as int] >= m);
                        assert(reach(g, root, picks0[kf as int]));
                        assert(label_taken_above(g, root, p as int));
                        assert(!picked(g, root, p as int));
                        assert(picks_high(g, root, p as int) =~= picks0);
                    }
                }
            }
        } else {
            proof {
                assert(!picked(g, root, p as int));
                assert(picks_high(g, root, p as int) =~= picks0);
            }
        }
        m = p;
    }

    // Emit one edge per distinct pair of operand label and node label,
    // walking the parents from the root downward.
    let mut seen: Vec<(String, String)> = Vec::new();
    let mut m2: usize = root_index + 1;
    while m2 > 0
        invariant
            graph_wf(g),
            g.len() == n,
            root == root_index as int,
            root_index < n,
            n < 0x4000_0000,
            graph@ == g,
            graph.values@.len() == n,
            forall|i: int| 0 <= i < n ==> #[trigger] graph.values@[i]@ == g[i],
            m2 <= root_index + 1,
            rv@.len() == n,
            forall|q: int| 0 <= q < n ==> (#[trigger] rv@[q]) == reach(g, root, q),
            pg_nodes(d) == export_annotations(g, root),
            map@.len() == picks_high(g, root, 0).len(),
            forall|k: int| 0 <= k < map@.len()
                ==> (#[trigger] map@[k]).0@ == g[picks_high(g, root, 0)[k]].label
                    && pg_pos(map@[k].1) == k,
            pairs_view(seen@) == export_pairs(g, root, m2 as int),
            pg_edges(d) == edge_triples_upto(g, root, m2 as int),
            seen@.len() <= 2 * (root + 1 - m2 as int),
            pg_edges(d).len() == seen@.len(),
        decreases m2,
    {
        let p = m2 - 1;
        let ghost before: Seq<(Seq<char>, Seq<char>)> = export_pairs(g, root, m2 as int);
        proof {
            assert(node_wf(g[p as int], p as int));
            lemma_picks_high_shape(g, root, 0);
            assert(pg_nodes(d).len() == map@.len());
        }
        if rv[p] {
            let op = graph.values[p].op;
            match op {
                Op::Leaf => {
                    proof {
                        assert(node_pairs(g, p as int)
                            =~= Seq::<(Seq<char>, Seq<char>)>::empty());
                        assert(dedup_append(before, node_pairs(g, p as int)) == before);
                        assert(export_pairs(g, root, p as int) == before);
                    }
                }
                Op::Tanh => {
                    let a0 = graph.values[p].prev[0];
                    proof {
                        assert(a0 as int == g[p as int].prev[0]);
                        assert(g[p as int].prev.contains(a0 as int));
                        lemma_reach_above_intro(g, root, a0 as int, a0 as int + 1, p as int);
                        assert(reach(g, root, a0 as int));
                        assert(node_pairs(g, p as int) =~= seq![
                            (g[a0 as int].label, g[p as int].label),
                        ]);
                    }
                    let ghost seen0: Seq<(String, String)> = seen@;
                    add_edge_unique(
                        &mut d,
                        &map,
                        &mut seen,
                        &graph.values[a0].label,
                        &graph.values[p].label,
                        Ghost(g),
                        Ghost(root),
                    );
                    proof {
                        let pv = (g[a0 as int].label, g[p as int].label);
                        let acc1 = if before.contains(pv) {
                            before
                        } else {
                            before.push(pv)
                        };
                        assert(seq![pv].drop_first() =~= Seq::<(Seq<char>, Seq<char>)>::empty());
                        assert(dedup_append(before, seq![pv]) == dedup_append(
                            acc1,
                            seq![pv].drop_first(),
                        ));
                        assert(dedup_append(acc1, Seq::<(Seq<char>, Seq<char>)>::empty())
                            == acc1);
                        assert(export_pairs(g, root, p as int) == acc1);
                        if !before.contains(pv) {
                            assert(edge_triples_upto(g, root, p as int) =~= edge_triples_upto(
                                g,
                                root,
                                m2 as int,
                            ).push(
                                (
                                    pos_of(export_labels(g, root), pv.0),
                                    pos_of(export_labels(g, root), pv.1),
                                    ""@,
                                ),
                            ));
                        } else {
                            assert(edge_triples_upto(g, root, p as int) == edge_triples_upto(
                                g,
                                root,
                                m2 as int,
                            ));
                        }
                    }
                }
                Op::Add | Op::Mul => {
                    let a0 = graph.values[p].prev[0];
                    let a1 = graph.values[p].prev[1];
                    proof {
                        assert(a0 as int == g[p as int].prev[0]);
                        assert(a1 as int == g[p as int].prev[1]);
                        assert(g[p as int].prev.contains(a0 as int));
                        assert(g[p as int].prev.contains(a1 as int));
                        lemma_reach_above_intro(g, root, a0 as int, a0 as int + 1, p as int);
                        lemma_reach_above_intro(g, root, a1 as int, a1 as int + 1, p as int);
                        assert(reach(g, root, a0 as int));
                        assert(reach(g, root, a1 as int));
                    }
                    let ghost pv0 = (g[a0 as int].label, g[p as int].label);
                    let ghost pv1 = (g[a1 as int].label, g[p as int].label);
                    proof {
                        assert(node_pairs(g, p as int) =~= seq![pv0, pv1]);
                    }
                    add_edge_unique(
                        &mut d,
                        &map,
                        &mut seen,
                        &graph.values[a0].label,
                        &graph.values[p].label,
                        Ghost(g),
                        Ghost(root),
                    );
                    let ghost acc1 = if before.contains(pv0) {
                        before
                    } else {
                        before.push(pv0)
                    };
                    proof {
                        assert(pairs_view(seen@) == acc1);
                        if !before.contains(pv0) {
                            assert(edge_triples_upto(g, root, m2 as int).push(
                                (
                                    pos_of(export_labels(g, root), pv0.0),
                                    pos_of(export_labels(g, root), pv0.1),
                                    ""@,
                                ),
                            ) =~= acc1.map_values(
                                |q: (Seq<char>, Seq<char>)|
                                    (
                                        pos_of(export_labels(g, root), q.0),
                                        pos_of(export_labels(g, root), q.1),
                                        ""@,
                                    ),
                            ));
                        }
                        assert(pg_edges(d) == acc1.map_values(
                            |q: (Seq<char>, Seq<char>)|
                                (
                                    pos_of(export_labels(g, root), q.0),
                                    pos_of(export_labels(g, root), q.1),
                                    ""@,
                                ),
                        ));
                    }
                    add_edge_unique(
                        &mut d,
                        &map,
                        &mut seen,
                        &graph.values[a1].label,
                        &graph.values[p].label,
                        Ghost(g),
                        Ghost(root),
                    );
                    let ghost acc2 = if acc1.contains(pv1) {
                        acc1
                    } else {
                        acc1.push(pv1)
                    };
                    proof {
                        assert(pairs_view(seen@) == acc2);
                        assert(seq![pv0, pv1].drop_first() =~= seq![pv1]);
                        assert(seq![pv1].drop_first() =~= Seq::<(Seq<char>, Seq<char>)>::empty());
                        assert(dedup_append(before, seq![pv0, pv1]) == dedup_append(
                            acc1,
                            seq![pv1],
                        ));
                        assert(dedup_append(acc1, seq![pv1]) == dedup_append(
                            acc2,
                            Seq::<(Seq<char>, Seq<char>)>::empty(),
                        ));
                        assert(export_pairs(g, root, p as int) == acc2);
                        if !acc1.contains(pv1) {
                            assert(acc2.map_values(
                                |q: (Seq<char>, Seq<char>)|
                                    (
                                        pos_of(export_labels(g, root), q.0),
                                        pos_of(export_labels(g, root), q.1),
                                        ""@,
                                    ),
                            ) =~= acc1.map_values(
                                |q: (Seq<char>, Seq<char>)|
                                    (
                                        pos_of(export_labels(g, root), q.0),
                                        pos_of(export_labels(g, root), q.1),
                                        ""@,
                                    ),
                            ).push(
                                (
                                    pos_of(export_labels(g, root), pv1.0),
                                    pos_of(export_labels(g, root), pv1.1),
                                    ""@,
                                ),
                            ));
                        }
                        assert(pg_edges(d) == edge_triples_upto(g, root, p as int));
                    }
                }
            }
        } else {
            proof {
                assert(export_pairs(g, root, p as int) == before);
            }
        }
        m2 = p;
    }
    Ok(d)
}

} // verus!
