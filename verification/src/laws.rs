//! Proved laws of the backward pass.
//!
//! Each public proof function here states, over the graph model, a
//! guarantee of the engine: what one backward pass leaves in the gradient
//! accumulators for the elementary shapes, how shared sub-expressions
//! accumulate, and how repeated passes compose.

use vstd::prelude::*;

use crate::fixed::{SCALE, fadd, fmul, fsub, lemma_fmul_one};
use crate::graph::{NodeSpec, Op, adj, adj_above, dedup_append, deriv, export_labels,
    export_pairs, grad_after, graph_in_range, graph_wf, lemma_pick_representative,
    lemma_picks_high_contains, lemma_picks_high_shape, lemma_picks_labels_unique,
    lemma_reach_above_intro, lemma_reach_subset_at, node_pairs, node_wf, picked, picks_high,
    reach, reach_above, same_shape};

verus! {

/// Contributions skip over any stretch of indices that holds no reachable
/// parent of `j`.
proof fn lemma_adj_above_skip(g: Seq<NodeSpec>, root: int, j: int, m1: int, m2: int)
    requires
        graph_wf(g),
        0 <= j < root < g.len(),
        j < m1 <= m2 <= root + 1,
        forall|p: int|
            m1 <= p < m2 ==> !(#[trigger] reach(g, root, p) && g[p].prev.contains(j)),
    ensures
        adj_above(g, root, j, m1) == adj_above(g, root, j, m2),
    decreases m2 - m1,
{
    if m1 < m2 {
        if reach(g, root, m1) {
            assert(node_wf(g[m1], m1));
            assert(!g[m1].prev.contains(j));
            assert(forall|k: int|
                0 <= k < g[m1].prev.len() ==> #[trigger] g[m1].prev[k] != j);
        }
        lemma_adj_above_skip(g, root, j, m1 + 1, m2);
    }
}

/// Beyond the root there are no contributions.
proof fn lemma_adj_above_top(g: Seq<NodeSpec>, root: int, j: int)
    requires
        0 <= j < root < g.len(),
    ensures
        adj_above(g, root, j, root + 1) == 0,
{
}

/// After a backward pass rooted at a leaf, the leaf's own gradient is one
/// and every other accumulator is exactly what it was: nothing propagates
/// from a node with no operands.
pub proof fn lemma_backward_leaf_root(g: Seq<NodeSpec>, root: int)
    requires
        graph_wf(g),
        0 <= root < g.len(),
        g[root].op == Op::Leaf,
    ensures
        grad_after(g, root, root) == SCALE as int,
        forall|j: int|
            0 <= j < g.len() && j != root
                ==> #[trigger] grad_after(g, root, j) == g[j].grad,
{
    assert(node_wf(g[root], root));
    assert forall|j: int| 0 <= j < g.len() && j != root
        implies #[trigger] grad_after(g, root, j) == g[j].grad by {
        if reach(g, root, j) {
            let s = Set::<int>::empty().insert(root);
            assert forall|p: int, k: int|
                s.contains(p) && 0 <= p < g.len() && 0 <= k < g[p].prev.len()
                    implies s.contains(#[trigger] g[p].prev[k]) by {
                assert(p == root);
                assert(g[root].prev.len() == 0);
            }
            lemma_reach_subset_at(g, root, s, j);
        }
    }
}

/// After a backward pass rooted at a sum of two distinct leaves, each leaf
/// whose accumulator started at zero holds exactly one: the derivative of
/// `a + b` with respect to either operand.
pub proof fn lemma_backward_add(g: Seq<NodeSpec>, c: int, a: int, b: int)
    requires
        graph_wf(g),
        0 <= c < g.len(),
        g[c].op == Op::Add,
        g[c].prev == seq![a, b],
        a != b,
        g[a].op == Op::Leaf,
        g[b].op == Op::Leaf,
        g[a].grad == 0,
        g[b].grad == 0,
    ensures
        grad_after(g, c, c) == SCALE as int,
        grad_after(g, c, a) == SCALE as int,
        grad_after(g, c, b) == SCALE as int,
{
    assert(node_wf(g[c], c));
    assert(g[c].prev[0] == a && g[c].prev[1] == b);
    assert(0 <= a < c && 0 <= b < c);
    assert(node_wf(g[a], a) && node_wf(g[b], b));
    assert(g[c].prev.contains(a) && g[c].prev.contains(b));
    lemma_reach_above_intro(g, c, a, a + 1, c);
    lemma_reach_above_intro(g, c, b, b + 1, c);
    let s = set![a, b, c];
    assert(s.contains(a) && s.contains(b) && s.contains(c));
    assert forall|p: int, k: int|
        s.contains(p) && 0 <= p < g.len() && 0 <= k < g[p].prev.len()
            implies s.contains(#[trigger] g[p].prev[k]) by {
        if p == c {
            assert(k == 0 || k == 1);
        }
    }
    lemma_fmul_one(SCALE as int);
    assert forall|p: int| a < p < c
        implies !(#[trigger] reach(g, c, p) && g[p].prev.contains(a)) by {
        if reach(g, c, p) && g[p].prev.contains(a) {
            lemma_reach_subset_at(g, c, s, p);
            assert(p == b);
            assert(g[b].prev.len() == 0);
        }
    }
    lemma_adj_above_skip(g, c, a, a + 1, c);
    lemma_adj_above_top(g, c, a);
    assert(adj_above(g, c, a, c + 1) == 0);
    assert(reach(g, c, c));
    assert(adj(g, c, c) == SCALE as int);
    assert(deriv(g, c, 0) == SCALE as int);
    assert(fmul(SCALE as int, SCALE as int) == SCALE as int);
    assert(adj_above(g, c, a, c) == fadd(0, fmul(SCALE as int, SCALE as int)));
    assert(adj_above(g, c, a, c) == SCALE as int);
    assert(adj(g, c, a) == adj_above(g, c, a, a + 1));
    assert(adj(g, c, a) == SCALE as int);
    assert forall|p: int| b < p < c
        implies !(#[trigger] reach(g, c, p) && g[p].prev.contains(b)) by {
        if reach(g, c, p) && g[p].prev.contains(b) {
            lemma_reach_subset_at(g, c, s, p);
            assert(p == a);
            assert(g[a].prev.len() == 0);
        }
    }
    lemma_adj_above_skip(g, c, b, b + 1, c);
    lemma_adj_above_top(g, c, b);
    assert(adj(g, c, b) == SCALE as int);
}

/// After a backward pass rooted at a product of two distinct leaves, each
/// leaf whose accumulator started at zero holds exactly the other
/// operand's value: the derivative of `a * b` with respect to either.
pub proof fn lemma_backward_mul(g: Seq<NodeSpec>, c: int, a: int, b: int)
    requires
        graph_wf(g),
        graph_in_range(g),
        0 <= c < g.len(),
        g[c].op == Op::Mul,
        g[c].prev == seq![a, b],
        a != b,
        g[a].op == Op::Leaf,
        g[b].op == Op::Leaf,
        g[a].grad == 0,
        g[b].grad == 0,
    ensures
        grad_after(g, c, c) == SCALE as int,
        grad_after(g, c, a) == g[b].data,
        grad_after(g, c, b) == g[a].data,
{
    assert(node_wf(g[c], c));
    assert(g[c].prev[0] == a && g[c].prev[1] == b);
    assert(0 <= a < c && 0 <= b < c);
    assert(node_wf(g[a], a) && node_wf(g[b], b));
    assert(g[c].prev.contains(a) && g[c].prev.contains(b));
    lemma_reach_above_intro(g, c, a, a + 1, c);
    lemma_reach_above_intro(g, c, b, b + 1, c);
    let s = set![a, b, c];
    assert(s.contains(a) && s.contains(b) && s.contains(c));
    assert forall|p: int, k: int|
        s.contains(p) && 0 <= p < g.len() && 0 <= k < g[p].prev.len()
            implies s.contains(#[trigger] g[p].prev[k]) by {
        if p == c {
            assert(k == 0 || k == 1);
        }
    }
    lemma_fmul_one(g[b].data);
    lemma_fmul_one(g[a].data);
    assert forall|p: int| a < p < c
        implies !(#[trigger] reach(g, c, p) && g[p].prev.contains(a)) by {
        if reach(g, c, p) && g[p].prev.contains(a) {
            lemma_reach_subset_at(g, c, s, p);
            assert(p == b);
            assert(g[b].prev.len() == 0);
        }
    }
    lemma_adj_above_skip(g, c, a, a + 1, c);
    lemma_adj_above_top(g, c, a);
    assert(adj_above(g, c, a, c + 1) == 0);
    assert(reach(g, c, c));
    assert(adj(g, c, c) == SCALE as int);
    assert(deriv(g, c, 0) == g[b].data);
    assert(fmul(SCALE as int, g[b].data) == g[b].data);
    assert(adj_above(g, c, a, c) == fadd(0, fmul(SCALE as int, g[b].data)));
    assert(adj_above(g, c, a, c) == g[b].data);
    assert(adj(g, c, a) == adj_above(g, c, a, a + 1));
    assert(adj(g, c, a) == g[b].data);
    assert forall|p: int| b < p < c
        implies !(#[trigger] reach(g, c, p) && g[p].prev.contains(b)) by {
        if reach(g, c, p) && g[p].prev.contains(b) {
            lemma_reach_subset_at(g, c, s, p);
            assert(p == a);
            assert(g[a].prev.len() == 0);
        }
    }
    lemma_adj_above_skip(g, c, b, b + 1, c);
    lemma_adj_above_top(g, c, b);
    assert(adj_above(g, c, b, c + 1) == 0);
    assert(deriv(g, c, 1) == g[a].data);
    assert(fmul(SCALE as int, g[a].data) == g[a].data);
    assert(adj_above(g, c, b, c) == fadd(0, fmul(SCALE as int, g[a].data)));
    assert(adj_above(g, c, b, c) == g[a].data);
    assert(adj(g, c, b) == adj_above(g, c, b, b + 1));
    assert(adj(g, c, b) == g[a].data);
}

/// After a backward pass rooted at the hyperbolic tangent of a leaf, a
/// leaf accumulator that started at zero holds one minus the square of the
/// root's value: the derivative of `tanh` at its operand.
pub proof fn lemma_backward_tanh(g: Seq<NodeSpec>, c: int, a: int)
    requires
        graph_wf(g),
        graph_in_range(g),
        0 <= c < g.len(),
        g[c].op == Op::Tanh,
        g[c].prev == seq![a],
        g[a].op == Op::Leaf,
        g[a].grad == 0,
    ensures
        grad_after(g, c, c) == SCALE as int,
        grad_after(g, c, a) == fsub(SCALE as int, fmul(g[c].data, g[c].data)),
    {
    assert(node_wf(g[c], c));
    assert(g[c].prev[0] == a);
    assert(0 <= a < c);
    assert(node_wf(g[a], a));
    assert(g[c].prev.contains(a));
    lemma_reach_above_intro(g, c, a, a + 1, c);
    let s = set![a, c];
    assert(s.contains(a) && s.contains(c));
    assert forall|p: int, k: int|
        s.contains(p) && 0 <= p < g.len() && 0 <= k < g[p].prev.len()
            implies s.contains(#[trigger] g[p].prev[k]) by {
        if p == c {
            assert(k == 0);
        }
    }
    assert forall|p: int| a < p < c
        implies !(#[trigger] reach(g, c, p) && g[p].prev.contains(a)) by {
        if reach(g, c, p) && g[p].prev.contains(a) {
            lemma_reach_subset_at(g, c, s, p);
        }
    }
    lemma_adj_above_skip(g, c, a, a + 1, c);
    lemma_adj_above_top(g, c, a);
    let t = fsub(SCALE as int, fmul(g[c].data, g[c].data));
    lemma_fmul_one(t);
    assert(adj_above(g, c, a, c + 1) == 0);
    assert(reach(g, c, c));
    assert(adj(g, c, c) == SCALE as int);
    assert(deriv(g, c, 0) == t);
    assert(fmul(SCALE as int, t) == t);
    assert(adj_above(g, c, a, c) == fadd(0, fmul(SCALE as int, t)));
    assert(adj_above(g, c, a, c) == t);
    assert(adj(g, c, a) == adj_above(g, c, a, a + 1));
    assert(adj(g, c, a) == t);
}

/// Diamond sharing: with `b = a * a` and the root `c = b + a`, a backward
/// pass from `c` hands the shared leaf `a` one contribution along each of
/// its three incoming edges — one from the sum and two from the square —
/// so an accumulator that started at zero holds `2 * a + 1` in saturating
/// fixed point: `fadd(fadd(1, a), a)`.
pub proof fn lemma_backward_diamond(g: Seq<NodeSpec>, c: int, b: int, a: int)
    requires
        graph_wf(g),
        graph_in_range(g),
        0 <= c < g.len(),
        g[c].op == Op::Add,
        g[c].prev == seq![b, a],
        g[b].op == Op::Mul,
        g[b].prev == seq![a, a],
        g[a].op == Op::Leaf,
        a != b,
        g[a].grad == 0,
        g[b].grad == 0,
    ensures
        grad_after(g, c, c) == SCALE as int,
        grad_after(g, c, b) == SCALE as int,
        grad_after(g, c, a) == fadd(fadd(SCALE as int, g[a].data), g[a].data),
{
    assert(node_wf(g[c], c));
    assert(node_wf(g[b], b));
    assert(node_wf(g[a], a));
    assert(g[c].prev[0] == b && g[c].prev[1] == a);
    assert(g[b].prev[0] == a && g[b].prev[1] == a);
    assert(0 <= b < c && 0 <= a < b);
    assert(g[c].prev.contains(a) && g[c].prev.contains(b));
    assert(g[b].prev.contains(a));
    lemma_reach_above_intro(g, c, b, b + 1, c);
    assert(reach(g, c, b));
    lemma_reach_above_intro(g, c, a, a + 1, c);
    assert(reach(g, c, a));
    let s = set![a, b, c];
    assert(s.contains(a) && s.contains(b) && s.contains(c));
    assert forall|p: int, k: int|
        s.contains(p) && 0 <= p < g.len() && 0 <= k < g[p].prev.len()
            implies s.contains(#[trigger] g[p].prev[k]) by {
        if p == c || p == b {
            assert(k == 0 || k == 1);
        }
    }
    lemma_fmul_one(SCALE as int);
    lemma_fmul_one(g[a].data);
    // The square receives exactly one contribution, from the sum.
    assert forall|p: int| b < p < c
        implies !(#[trigger] reach(g, c, p) && g[p].prev.contains(b)) by {
        if reach(g, c, p) && g[p].prev.contains(b) {
            lemma_reach_subset_at(g, c, s, p);
            assert(p == a);
            assert(g[a].prev.len() == 0);
        }
    }
    lemma_adj_above_skip(g, c, b, b + 1, c);
    lemma_adj_above_top(g, c, b);
    assert(adj_above(g, c, b, c + 1) == 0);
    assert(reach(g, c, c));
    assert(adj(g, c, c) == SCALE as int);
    assert(adj_above(g, c, b, c) == fadd(0, fmul(SCALE as int, SCALE as int)));
    assert(adj_above(g, c, b, c) == SCALE as int);
    assert(adj(g, c, b) == adj_above(g, c, b, b + 1));
    assert(adj(g, c, b) == SCALE as int);
    // The leaf receives one contribution from the sum, then two from the
    // square, folded from the root downward.
    assert forall|p: int| a < p < c && p != b
        implies !(#[trigger] reach(g, c, p) && g[p].prev.contains(a)) by {
        if reach(g, c, p) && g[p].prev.contains(a) {
            lemma_reach_subset_at(g, c, s, p);
        }
    }
    lemma_adj_above_top(g, c, a);
    assert(adj_above(g, c, a, c) == fadd(0, fmul(SCALE as int, SCALE as int)));
    assert(adj_above(g, c, a, c) == SCALE as int);
    lemma_adj_above_skip(g, c, a, b + 1, c);
    assert(adj_above(g, c, a, b + 1) == SCALE as int);
    assert(adj_above(g, c, a, b) == fadd(
        fadd(SCALE as int, fmul(SCALE as int, g[a].data)),
        fmul(SCALE as int, g[a].data),
    ));
    lemma_adj_above_skip(g, c, a, a + 1, b);
    assert(adj(g, c, a) == fadd(fadd(SCALE as int, g[a].data), g[a].data));
}

/// The export names every label that any reachable node carries, and
/// names each exactly once.
pub proof fn lemma_export_nodes_unique(g: Seq<NodeSpec>, root: int)
    requires
        graph_wf(g),
        0 <= root < g.len(),
    ensures
        export_labels(g, root).no_duplicates(),
        forall|l: Seq<char>|
            #[trigger] export_labels(g, root).contains(l) <==> exists|j: int|
                0 <= j <= root && #[trigger] reach(g, root, j) && g[j].label == l,
{
    let labels = export_labels(g, root);
    let picks = picks_high(g, root, 0);
    lemma_picks_high_shape(g, root, 0);
    assert forall|k1: int, k2: int| 0 <= k1 < labels.len() && 0 <= k2 < labels.len() && k1 != k2
        implies labels[k1] != labels[k2] by {
        if k1 < k2 {
            lemma_picks_labels_unique(g, root, k1, k2);
        } else {
            lemma_picks_labels_unique(g, root, k2, k1);
        }
    }
    assert forall|l: Seq<char>|
        #[trigger] labels.contains(l) <==> (exists|j: int|
            0 <= j <= root && #[trigger] reach(g, root, j) && g[j].label == l) by {
        if labels.contains(l) {
            let k = choose|k: int| 0 <= k < labels.len() && labels[k] == l;
            assert(labels[k] == g[picks[k]].label);
            assert(picked(g, root, picks[k]));
            assert(0 <= picks[k] <= root && reach(g, root, picks[k]) && g[picks[k]].label == l);
        }
        if exists|j: int| 0 <= j <= root && #[trigger] reach(g, root, j) && g[j].label == l {
            let j = choose|j: int|
                0 <= j <= root && #[trigger] reach(g, root, j) && g[j].label == l;
            lemma_pick_representative(g, root, j);
            let j2 = choose|j2: int|
                j <= j2 <= root && #[trigger] picked(g, root, j2) && g[j2].label == g[j].label;
            lemma_picks_high_contains(g, root, 0, j2);
            let kk = choose|kk: int| 0 <= kk < picks.len() && #[trigger] picks[kk] == j2;
            assert(labels[kk] == l);
        }
    }
}

/// Appending with deduplication keeps the list free of duplicates and
/// makes it hold exactly the old and the appended elements.
proof fn lemma_dedup_append_props<A>(acc: Seq<A>, ps: Seq<A>)
    requires
        acc.no_duplicates(),
    ensures
        dedup_append(acc, ps).no_duplicates(),
        forall|x: A|
            #[trigger] dedup_append(acc, ps).contains(x) <==> acc.contains(x) || ps.contains(x),
    decreases ps.len(),
{
    if ps.len() == 0 {
        assert(forall|x: A| !ps.contains(x));
    } else {
        let acc1 = if acc.contains(ps[0]) {
            acc
        } else {
            acc.push(ps[0])
        };
        assert forall|i: int, j: int|
            0 <= i < acc1.len() && 0 <= j < acc1.len() && i != j implies acc1[i] != acc1[j] by {
            if !acc.contains(ps[0]) {
                if i < acc.len() && acc1[i] == ps[0] {
                    assert(acc.contains(acc1[i]));
                }
                if j < acc.len() && acc1[j] == ps[0] {
                    assert(acc.contains(acc1[j]));
                }
            }
        }
        lemma_dedup_append_props(acc1, ps.drop_first());
        assert forall|x: A|
            #[trigger] dedup_append(acc, ps).contains(x) <==> acc.contains(x) || ps.contains(x)
            by {
            assert(dedup_append(acc, ps) == dedup_append(acc1, ps.drop_first()));
            if ps.contains(x) {
                let k = choose|k: int| 0 <= k < ps.len() && ps[k] == x;
                if k == 0 {
                    assert(acc1.contains(x) || acc.contains(x)) by {
                        if !acc.contains(ps[0]) {
                            assert(acc1[acc.len() as int] == ps[0]);
                        }
                    }
                } else {
                    assert(ps.drop_first()[k - 1] == x);
                    assert(ps.drop_first().contains(x));
                }
            }
            if acc1.contains(x) && !acc.contains(x) {
                let k = choose|k: int| 0 <= k < acc1.len() && acc1[k] == x;
                assert(x == ps[0]);
                assert(ps.contains(x));
            }
            if ps.drop_first().contains(x) {
                let k = choose|k: int| 0 <= k < ps.drop_first().len() && ps.drop_first()[k] == x;
                assert(ps[k + 1] == x);
                assert(ps.contains(x));
            }
        }
    }
}

/// The export draws every operand edge whose labels any reachable node
/// yields, and draws each pair of source and target label exactly once.
pub proof fn lemma_export_edges_unique(g: Seq<NodeSpec>, root: int)
    requires
        graph_wf(g),
        0 <= root < g.len(),
    ensures
        export_pairs(g, root, 0).no_duplicates(),
        forall|pv: (Seq<char>, Seq<char>)|
            #[trigger] export_pairs(g, root, 0).contains(pv) <==> exists|p: int, k: int|
                #![trigger reach(g, root, p), g[p].prev[k]]
                0 <= p <= root && reach(g, root, p) && 0 <= k < g[p].prev.len() && pv == (
                    g[g[p].prev[k]].label,
                    g[p].label,
                ),
{
    lemma_export_pairs_props(g, root, 0);
}

/// The edge pairs collected down to parent `m` hold no duplicates and are
/// exactly those the reachable parents in `[m, root]` yield.
proof fn lemma_export_pairs_props(g: Seq<NodeSpec>, root: int, m: int)
    requires
        graph_wf(g),
        0 <= root < g.len(),
        0 <= m,
    ensures
        export_pairs(g, root, m).no_duplicates(),
        forall|pv: (Seq<char>, Seq<char>)|
            #[trigger] export_pairs(g, root, m).contains(pv) <==> exists|p: int, k: int|
                #![trigger reach(g, root, p), g[p].prev[k]]
                m <= p <= root && reach(g, root, p) && 0 <= k < g[p].prev.len() && pv == (
                    g[g[p].prev[k]].label,
                    g[p].label,
                ),
    decreases root + 1 - m,
{
    if m > root {
        assert forall|pv: (Seq<char>, Seq<char>)|
            !(#[trigger] export_pairs(g, root, m).contains(pv)) by {
        }
    } else {
        lemma_export_pairs_props(g, root, m + 1);
        let before = export_pairs(g, root, m + 1);
        assert(node_wf(g[m], m));
        if reach(g, root, m) {
            lemma_dedup_append_props(before, node_pairs(g, m));
        }
        assert forall|pv: (Seq<char>, Seq<char>)|
            #[trigger] export_pairs(g, root, m).contains(pv) <==> (exists|p: int, k: int|
                #![trigger reach(g, root, p), g[p].prev[k]]
                m <= p <= root && reach(g, root, p) && 0 <= k < g[p].prev.len() && pv == (
                    g[g[p].prev[k]].label,
                    g[p].label,
                )) by {
            if export_pairs(g, root, m).contains(pv) {
                if reach(g, root, m) && node_pairs(g, m).contains(pv) {
                    let k = choose|k: int|
                        0 <= k < node_pairs(g, m).len() && node_pairs(g, m)[k] == pv;
                    match g[m].op {
                        Op::Leaf => {
                        }
                        Op::Tanh => {
                            assert(k == 0);
                            assert(g[m].prev[0] == g[m].prev[0]);
                            assert(pv == (g[g[m].prev[0]].label, g[m].label));
                        }
                        Op::Add | Op::Mul => {
                            assert(k == 0 || k == 1);
                            assert(pv == (g[g[m].prev[k]].label, g[m].label));
                        }
                    }
                }
            }
            if exists|p: int, k: int|
                #![trigger reach(g, root, p), g[p].prev[k]]
                m <= p <= root && reach(g, root, p) && 0 <= k < g[p].prev.len() && pv == (
                    g[g[p].prev[k]].label,
                    g[p].label,
                ) {
                let (p, k) = choose|p: int, k: int|
                    #![trigger reach(g, root, p), g[p].prev[k]]
                    m <= p <= root && reach(g, root, p) && 0 <= k < g[p].prev.len() && pv == (
                        g[g[p].prev[k]].label,
                        g[p].label,
                    );
                if p == m {
                    assert(node_wf(g[m], m));
                    match g[m].op {
                        Op::Leaf => {
                        }
                        Op::Tanh => {
                            assert(node_pairs(g, m)[0] == pv);
                            assert(node_pairs(g, m).contains(pv));
                        }
                        Op::Add | Op::Mul => {
                            assert(node_pairs(g, m)[k] == pv);
                            assert(node_pairs(g, m).contains(pv));
                        }
                    }
                }
            }
        }
    }
}

/// Reachability depends only on the graph's shape, never on the gradient
/// accumulators.
proof fn lemma_reach_cong(g: Seq<NodeSpec>, h: Seq<NodeSpec>, root: int, j: int)
    requires
        g.len() == h.len(),
        forall|i: int| 0 <= i < g.len() ==> same_shape(#[trigger] g[i], h[i]),
        0 <= root < g.len(),
    ensures
        reach(g, root, j) == reach(h, root, j),
    decreases root - j, root + 1 - j,
{
    if j != root && 0 <= j < root {
        lemma_reach_above_cong(g, h, root, j, j + 1);
    }
}

/// The companion of `lemma_reach_cong` for the parent scan.
proof fn lemma_reach_above_cong(g: Seq<NodeSpec>, h: Seq<NodeSpec>, root: int, j: int, m: int)
    requires
        g.len() == h.len(),
        forall|i: int| 0 <= i < g.len() ==> same_shape(#[trigger] g[i], h[i]),
        0 <= root < g.len(),
    ensures
        reach_above(g, root, j, m) == reach_above(h, root, j, m),
    decreases root - j, root + 1 - m,
{
    if 0 <= j < root && j < m && m <= root {
        lemma_reach_cong(g, h, root, m);
        assert(g[m].prev == h[m].prev);
        lemma_reach_above_cong(g, h, root, j, m + 1);
    }
}

/// The adjoints depend only on the graph's shape, never on the gradient
/// accumulators.
proof fn lemma_adj_cong(g: Seq<NodeSpec>, h: Seq<NodeSpec>, root: int, j: int)
    requires
        g.len() == h.len(),
        forall|i: int| 0 <= i < g.len() ==> same_shape(#[trigger] g[i], h[i]),
        graph_wf(g),
        0 <= root < g.len(),
    ensures
        adj(g, root, j) == adj(h, root, j),
    decreases root - j, root + 2 - j,
{
    if j != root && 0 <= j < root {
        lemma_adj_above_cong(g, h, root, j, j + 1);
    }
}

/// The companion of `lemma_adj_cong` for the contribution fold.
proof fn lemma_adj_above_cong(g: Seq<NodeSpec>, h: Seq<NodeSpec>, root: int, j: int, m: int)
    requires
        g.len() == h.len(),
        forall|i: int| 0 <= i < g.len() ==> same_shape(#[trigger] g[i], h[i]),
        graph_wf(g),
        0 <= root < g.len(),
    ensures
        adj_above(g, root, j, m) == adj_above(h, root, j, m),
    decreases root - j, root + 1 - m,
{
    if 0 <= j < root && j < m && m <= root {
        lemma_adj_above_cong(g, h, root, j, m + 1);
        lemma_reach_cong(g, h, root, m);
        if reach(g, root, m) {
            lemma_adj_cong(g, h, root, m);
            assert(node_wf(g[m], m));
            assert(g[m].prev == h[m].prev);
            assert(g[m].op == h[m].op);
            match g[m].op {
                Op::Leaf => {
                }
                Op::Tanh => {
                    assert(deriv(g, m, 0) == deriv(h, m, 0));
                }
                Op::Add | Op::Mul => {
                    assert(same_shape(g[g[m].prev[0]], h[h[m].prev[0]]));
                    assert(same_shape(g[g[m].prev[1]], h[h[m].prev[1]]));
                    assert(deriv(g, m, 0) == deriv(h, m, 0));
                    assert(deriv(g, m, 1) == deriv(h, m, 1));
                }
            }
        }
    }
}

/// Every adjoint lies in the scalar range.
proof fn lemma_adj_in_range(g: Seq<NodeSpec>, root: int, j: int)
    ensures
        i64::MIN <= adj(g, root, j) <= i64::MAX,
    decreases root - j, root + 2 - j,
{
    if j != root && 0 <= j < root {
        lemma_adj_above_in_range(g, root, j, j + 1);
    }
}

/// The companion of `lemma_adj_in_range` for the contribution fold.
proof fn lemma_adj_above_in_range(g: Seq<NodeSpec>, root: int, j: int, m: int)
    ensures
        i64::MIN <= adj_above(g, root, j, m) <= i64::MAX,
    decreases root - j, root + 1 - m,
{
    if 0 <= j < root && j < m && m <= root {
        lemma_adj_above_in_range(g, root, j, m + 1);
    }
}

/// Backward is not idempotent: run twice from accumulators that started
/// at zero, without a reset in between, it doubles every non-root
/// gradient — in saturating fixed point, the second pass leaves
/// `fadd(grad, grad)` where the first left `grad` — while the root stays
/// pinned at one.
pub proof fn lemma_backward_twice_doubles(g: Seq<NodeSpec>, g1: Seq<NodeSpec>, root: int)
    requires
        graph_wf(g),
        0 <= root < g.len(),
        g1.len() == g.len(),
        forall|i: int| 0 <= i < g.len() ==> same_shape(#[trigger] g1[i], g[i]),
        forall|i: int| 0 <= i < g.len() ==> (#[trigger] g[i]).grad == 0,
        forall|i: int| 0 <= i < g.len() ==> (#[trigger] g1[i]).grad == grad_after(g, root, i),
    ensures
        grad_after(g1, root, root) == SCALE as int,
        forall|j: int|
            0 <= j < g.len() && j != root
                ==> #[trigger] grad_after(g1, root, j) == fadd(g1[j].grad, g1[j].grad),
{
    assert forall|j: int| 0 <= j < g.len() && j != root
        implies #[trigger] grad_after(g1, root, j) == fadd(g1[j].grad, g1[j].grad) by {
        assert(same_shape(g1[j], g[j]));
        lemma_reach_cong(g1, g, root, j);
        lemma_adj_cong(g, g1, root, j);
        lemma_adj_in_range(g, root, j);
        if reach(g, root, j) {
            assert(g1[j].grad == fadd(0, adj(g, root, j)));
            assert(g1[j].grad == adj(g, root, j));
        } else {
            assert(g1[j].grad == g[j].grad);
            assert(grad_after(g1, root, j) == g1[j].grad);
            assert(fadd(0int, 0int) == 0int);
        }
    }
}

/// After an explicit zero-gradient reset, a repeated backward pass
/// reproduces exactly what the first pass computed from zeroed
/// accumulators: the gradients depend only on the graph's shape.
pub proof fn lemma_backward_after_reset(g: Seq<NodeSpec>, g2: Seq<NodeSpec>, root: int)
    requires
        graph_wf(g),
        0 <= root < g.len(),
        g2.len() == g.len(),
        forall|i: int| 0 <= i < g.len() ==> same_shape(#[trigger] g2[i], g[i]),
        forall|i: int| 0 <= i < g.len() ==> (#[trigger] g[i]).grad == 0,
        forall|i: int| 0 <= i < g.len() ==> (#[trigger] g2[i]).grad == 0,
    ensures
        forall|j: int|
            0 <= j < g.len()
                ==> #[trigger] grad_after(g2, root, j) == grad_after(g, root, j),
{
    assert forall|j: int| 0 <= j < g.len()
        implies #[trigger] grad_after(g2, root, j) == grad_after(g, root, j) by {
        assert(same_shape(g2[j], g[j]));
        lemma_reach_cong(g2, g, root, j);
        lemma_adj_cong(g, g2, root, j);
    }
}

} // verus!
