//! Reachability on directed graphs.
//!
//! Two views of a graph are used. The public one is an adjacency list keyed
//! by stage id (`(StageId, Vec<StageId>)` entries, a key may repeat); the
//! working one numbers the nodes and keeps successor indices per node.

use vstd::prelude::*;
use crate::ids::StageId;

verus! {

// ---------------------------------------------------------------------------
// Stage-id level graphs
// ---------------------------------------------------------------------------

/// `a -> b` is an edge of the adjacency list.
pub open spec fn adj_has(adj: Seq<(StageId, Vec<StageId>)>, a: StageId, b: StageId) -> bool {
    exists|k: int| 0 <= k < adj.len() && (#[trigger] adj[k]).0 == a && adj[k].1@.contains(b)
}

/// `p` is a non-empty walk following the edges of `adj`.
pub open spec fn is_walk(adj: Seq<(StageId, Vec<StageId>)>, p: Seq<StageId>) -> bool {
    &&& p.len() >= 1
    &&& forall|k: int| 0 <= k < p.len() - 1 ==> adj_has(adj, #[trigger] p[k], p[k + 1])
}

/// `b` can be reached from `a` by following zero or more edges.
#[verifier::opaque]
pub open spec fn reaches(adj: Seq<(StageId, Vec<StageId>)>, a: StageId, b: StageId) -> bool {
    exists|p: Seq<StageId>| #[trigger] is_walk(adj, p) && p[0] == a && p.last() == b
}

/// Every node reaches itself.
pub proof fn lemma_reaches_refl(adj: Seq<(StageId, Vec<StageId>)>, a: StageId)
    ensures
        reaches(adj, a, a),
{
    reveal(reaches);
    let p = seq![a];
    assert(is_walk(adj, p));
}

/// A node that reaches a different node has an outgoing edge, and the target
/// has an incoming edge.
pub proof fn lemma_reaches_ends(adj: Seq<(StageId, Vec<StageId>)>, a: StageId, b: StageId)
    requires
        reaches(adj, a, b),
        a != b,
    ensures
        exists|w: StageId| #[trigger] adj_has(adj, a, w),
        exists|w: StageId| #[trigger] adj_has(adj, w, b),
{
    reveal(reaches);
    let p = choose|p: Seq<StageId>| #[trigger] is_walk(adj, p) && p[0] == a && p.last() == b;
    assert(p.len() >= 2);
    assert(adj_has(adj, p[0], p[1]));
    assert(adj_has(adj, p[p.len() - 2], p[p.len() - 2 + 1]));
}

/// Reachability depends only on which pairs the lists link.
pub proof fn lemma_same_links_reaches(adj1: Seq<(StageId, Vec<StageId>)>, adj2: Seq<(StageId, Vec<StageId>)>, a: StageId, b: StageId)
    requires
        forall|x: StageId, y: StageId| #[trigger] adj_has(adj1, x, y) <==> #[trigger] adj_has(adj2, x, y),
    ensures
        reaches(adj1, a, b) == reaches(adj2, a, b),
{
    reveal(reaches);
    if reaches(adj1, a, b) {
        let p = choose|p: Seq<StageId>| #[trigger] is_walk(adj1, p) && p[0] == a && p.last() == b;
        assert forall|k: int| 0 <= k < p.len() - 1 implies adj_has(adj2, #[trigger] p[k], p[k + 1]) by {
            assert(adj_has(adj1, p[k], p[k + 1]));
        }
        assert(is_walk(adj2, p));
    }
    if reaches(adj2, a, b) {
        let p = choose|p: Seq<StageId>| #[trigger] is_walk(adj2, p) && p[0] == a && p.last() == b;
        assert forall|k: int| 0 <= k < p.len() - 1 implies adj_has(adj1, #[trigger] p[k], p[k + 1]) by {
            assert(adj_has(adj2, p[k], p[k + 1]));
        }
        assert(is_walk(adj1, p));
    }
}

// ---------------------------------------------------------------------------
// Index level graphs
// ---------------------------------------------------------------------------

/// Every successor index names a node.
pub open spec fn graph_wf(g: Seq<Seq<usize>>) -> bool {
    forall|i: int, k: int| 0 <= i < g.len() && 0 <= k < g[i].len() ==> #[trigger] g[i][k] < g.len()
}

pub open spec fn idx_edge(g: Seq<Seq<usize>>, i: int, j: int) -> bool {
    0 <= i < g.len() && 0 <= j < g.len() && g[i].contains(j as usize)
}

pub open spec fn idx_walk(g: Seq<Seq<usize>>, p: Seq<int>) -> bool {
    &&& p.len() >= 1
    &&& forall|k: int| 0 <= k < p.len() ==> 0 <= #[trigger] p[k] < g.len()
    &&& forall|k: int| 0 <= k < p.len() - 1 ==> idx_edge(g, #[trigger] p[k], p[k + 1])
}

pub open spec fn idx_reach(g: Seq<Seq<usize>>, i: int, j: int) -> bool {
    exists|p: Seq<int>| #[trigger] idx_walk(g, p) && p[0] == i && p.last() == j
}

/// Some source in `srcs` reaches `j`.
pub open spec fn reached_from(g: Seq<Seq<usize>>, srcs: Seq<usize>, j: int) -> bool {
    exists|s: int| 0 <= s < srcs.len() && idx_reach(g, #[trigger] srcs[s] as int, j)
}

pub proof fn lemma_idx_reach_refl(g: Seq<Seq<usize>>, i: int)
    requires
        0 <= i < g.len(),
    ensures
        idx_reach(g, i, i),
{
    let p = seq![i];
    assert(idx_walk(g, p));
}

pub proof fn lemma_idx_reach_step(g: Seq<Seq<usize>>, i: int, v: int, w: int)
    requires
        idx_reach(g, i, v),
        idx_edge(g, v, w),
    ensures
        idx_reach(g, i, w),
{
    let p = choose|p: Seq<int>| #[trigger] idx_walk(g, p) && p[0] == i && p.last() == v;
    let q = p.push(w);
    assert forall|k: int| 0 <= k < q.len() - 1 implies idx_edge(g, #[trigger] q[k], q[k + 1]) by {
        if k < p.len() - 1 {
            assert(q[k] == p[k] && q[k + 1] == p[k + 1]);
        } else {
            assert(q[k] == v);
        }
    }
    assert forall|k: int| 0 <= k < q.len() implies 0 <= #[trigger] q[k] < g.len() by {
        if k < p.len() {
            assert(q[k] == p[k]);
        }
    }
    assert(idx_walk(g, q));
}

pub proof fn lemma_idx_reach_trans(g: Seq<Seq<usize>>, i: int, j: int, k: int)
    requires
        idx_reach(g, i, j),
        idx_reach(g, j, k),
    ensures
        idx_reach(g, i, k),
{
    let p1 = choose|p: Seq<int>| #[trigger] idx_walk(g, p) && p[0] == i && p.last() == j;
    let p2 = choose|p: Seq<int>| #[trigger] idx_walk(g, p) && p[0] == j && p.last() == k;
    let q = p1 + p2.drop_first();
    assert forall|m: int| 0 <= m < q.len() implies 0 <= #[trigger] q[m] < g.len() by {
        if m < p1.len() {
            assert(q[m] == p1[m]);
        } else {
            assert(q[m] == p2[m - p1.len() + 1]);
        }
    }
    assert forall|m: int| 0 <= m < q.len() - 1 implies idx_edge(g, #[trigger] q[m], q[m + 1]) by {
        if m < p1.len() - 1 {
            assert(q[m] == p1[m] && q[m + 1] == p1[m + 1]);
        } else if m == p1.len() - 1 {
            assert(q[m] == p2[0]);
            assert(q[m + 1] == p2[1]);
        } else {
            assert(q[m] == p2[m - p1.len() + 1]);
            assert(q[m + 1] == p2[m - p1.len() + 2]);
        }
    }
    assert(idx_walk(g, q));
    if p2.len() == 1 {
        assert(q.last() == p1.last());
    } else {
        assert(q.last() == p2.last());
    }
}

/// The first step of a walk of length at least one edge.
pub proof fn lemma_idx_reach_first_step(g: Seq<Seq<usize>>, i: int, j: int)
    requires
        idx_reach(g, i, j),
        i != j,
    ensures
        exists|w: int| idx_edge(g, i, w) && #[trigger] idx_reach(g, w, j),
{
    let p = choose|p: Seq<int>| #[trigger] idx_walk(g, p) && p[0] == i && p.last() == j;
    assert(p.len() >= 2);
    let q = p.drop_first();
    assert forall|m: int| 0 <= m < q.len() implies 0 <= #[trigger] q[m] < g.len() by {
        assert(q[m] == p[m + 1]);
    }
    assert forall|m: int| 0 <= m < q.len() - 1 implies idx_edge(g, #[trigger] q[m], q[m + 1]) by {
        assert(q[m] == p[m + 1] && q[m + 1] == p[m + 2]);
    }
    assert(idx_walk(g, q));
    assert(idx_edge(g, p[0], p[1]));
    assert(idx_reach(g, p[1], j));
}

/// A set of nodes that contains `i` and is closed under edges contains every
/// node reachable from `i`.
pub proof fn lemma_closed_contains_reach(g: Seq<Seq<usize>>, s: Seq<bool>, i: int, j: int)
    requires
        s.len() == g.len(),
        0 <= i < g.len(),
        s[i],
        forall|v: int, w: int| 0 <= v < g.len() && s[v] && #[trigger] idx_edge(g, v, w) ==> s[w],
        idx_reach(g, i, j),
    ensures
        0 <= j < g.len() && s[j],
{
    let p = choose|p: Seq<int>| #[trigger] idx_walk(g, p) && p[0] == i && p.last() == j;
    lemma_walk_in_closed(g, s, p, p.len() - 1);
}

proof fn lemma_walk_in_closed(g: Seq<Seq<usize>>, s: Seq<bool>, p: Seq<int>, k: int)
    requires
        s.len() == g.len(),
        idx_walk(g, p),
        s[p[0]],
        forall|v: int, w: int| 0 <= v < g.len() && s[v] && #[trigger] idx_edge(g, v, w) ==> s[w],
        0 <= k < p.len(),
    ensures
        s[p[k]],
    decreases k,
{
    if k > 0 {
        lemma_walk_in_closed(g, s, p, k - 1);
        assert(idx_edge(g, p[k - 1], p[k]));
    }
}

// ---------------------------------------------------------------------------
// Depth-first marking
// ---------------------------------------------------------------------------

pub open spec fn num_false(s: Seq<bool>) -> nat
    decreases s.len(),
{
    if s.len() == 0 {
        0
    } else {
        num_false(s.drop_last()) + if s.last() {
            0nat
        } else {
            1nat
        }
    }
}

pub proof fn lemma_num_false_update(s: Seq<bool>, i: int)
    requires
        0 <= i < s.len(),
        !s[i],
    ensures
        num_false(s.update(i, true)) + 1 == num_false(s),
    decreases s.len(),
{
    let t = s.update(i, true);
    if i == s.len() - 1 {
        assert(t.drop_last() =~= s.drop_last());
    } else {
        assert(t.drop_last() =~= s.drop_last().update(i, true));
        lemma_num_false_update(s.drop_last(), i);
    }
}

/// Marks every node reachable from one of `srcs`.
pub fn mark_reachable(g: &Vec<Vec<usize>>, srcs: &Vec<usize>) -> (r: Vec<bool>)
    requires
        graph_wf(g.deep_view()),
        forall|k: int| 0 <= k < srcs.len() ==> #[trigger] srcs[k] < g.len(),
    ensures
        r.len() == g.len(),
        forall|j: int| 0 <= j < g.len() ==> (r[j] <==> reached_from(g.deep_view(), srcs@, j)),
{
    let ghost gv = g.deep_view();
    let n = g.len();
    let mut visited: Vec<bool> = Vec::new();
    let mut i: usize = 0;
    while i < n
        invariant
            i <= n,
            n == g.len(),
            visited.len() == i,
            forall|j: int| 0 <= j < i ==> !visited[j],
        decreases n - i,
    {
        visited.push(false);
        i = i + 1;
    }
    // `order` lists the marked nodes in discovery order; the successors of
    // `order[0..head]` are all marked.
    let mut order: Vec<usize> = Vec::new();
    let mut k: usize = 0;
    while k < srcs.len()
        invariant
            n == g.len(),
            gv == g.deep_view(),
            graph_wf(gv),
            forall|m: int| 0 <= m < srcs.len() ==> #[trigger] srcs[m] < n,
            k <= srcs.len(),
            visited.len() == n,
            forall|m: int| 0 <= m < order.len() ==> #[trigger] order[m] < n && visited@[order[m] as int],
            forall|m: int| 0 <= m < k ==> visited@[#[trigger] srcs[m] as int],
            forall|j: int| 0 <= j < n && visited@[j] ==> reached_from(gv, srcs@, j),
            forall|j: int| 0 <= j < n && visited@[j] ==> order@.contains(j as usize),
        decreases srcs.len() - k,
    {
        let s = srcs[k];
        if !visited[s] {
            proof {
                lemma_idx_reach_refl(gv, s as int);
                assert(srcs@[k as int] == s);
                assert(reached_from(gv, srcs@, s as int));
            }
            let ghost vis0 = visited@;
            let ghost ord0 = order@;
            visited.set(s, true);
            order.push(s);
            proof {
                lemma_mark_push(vis0, ord0, s, n as int);
            }
        }
        k = k + 1;
    }
    let mut head: usize = 0;
    while head < order.len()
        invariant
            n == g.len(),
            gv == g.deep_view(),
            graph_wf(gv),
            forall|m: int| 0 <= m < srcs.len() ==> #[trigger] srcs[m] < n,
            visited.len() == n,
            head <= order.len(),
            forall|m: int| 0 <= m < order.len() ==> #[trigger] order[m] < n && visited@[order[m] as int],
            forall|m: int| 0 <= m < srcs.len() ==> visited@[#[trigger] srcs[m] as int],
            forall|j: int| 0 <= j < n && visited@[j] ==> reached_from(gv, srcs@, j),
            forall|j: int| 0 <= j < n && visited@[j] ==> order@.contains(j as usize),
            forall|m: int, w: int| 0 <= m < head && #[trigger] idx_edge(gv, order@[m] as int, w) ==> visited@[w],
        decreases num_false(visited@), order.len() - head,
    {
        let ghost old_false = num_false(visited@);
        let ghost old_len = order.len();
        let v = order[head];
        let succ = &g[v];
        proof {
            assert(succ@ == gv[v as int]);
            assert forall|m: int| 0 <= m < succ.len() implies #[trigger] succ[m] < n by {
                assert(gv[v as int][m] == succ[m]);
            }
        }
        let mut t: usize = 0;
        while t < succ.len()
            invariant
                n == g.len(),
                gv == g.deep_view(),
                graph_wf(gv),
                v < n,
                head < order.len(),
                order@[head as int] == v,
                succ@ == gv[v as int],
                forall|m: int| 0 <= m < srcs.len() ==> #[trigger] srcs[m] < n,
                forall|m: int| 0 <= m < succ.len() ==> #[trigger] succ[m] < n,
                t <= succ.len(),
                visited.len() == n,
                forall|m: int| 0 <= m < order.len() ==> #[trigger] order[m] < n && visited@[order[m] as int],
                forall|m: int| 0 <= m < srcs.len() ==> visited@[#[trigger] srcs[m] as int],
                forall|j: int| 0 <= j < n && visited@[j] ==> reached_from(gv, srcs@, j),
                forall|j: int| 0 <= j < n && visited@[j] ==> order@.contains(j as usize),
                forall|m: int, w: int| 0 <= m < head && #[trigger] idx_edge(gv, order@[m] as int, w) ==> visited@[w],
                forall|m: int| 0 <= m < t ==> visited@[#[trigger] succ[m] as int],
                order.len() >= old_len,
                num_false(visited@) + (order.len() - old_len) <= old_false,
            decreases succ.len() - t,
        {
            let w = succ[t];
            if !visited[w] {
                proof {
                    let s = choose|s: int| 0 <= s < srcs.len() && idx_reach(gv, #[trigger] srcs[s] as int, v as int);
                    assert(gv[v as int][t as int] == w);
                    assert(idx_edge(gv, v as int, w as int));
                    lemma_idx_reach_step(gv, srcs[s] as int, v as int, w as int);
                    lemma_num_false_update(visited@, w as int);
                }
                let ghost vis0 = visited@;
                let ghost ord0 = order@;
                visited.set(w, true);
                order.push(w);
                proof {
                    lemma_mark_push(vis0, ord0, w, n as int);
                }
            }
            t = t + 1;
        }
        proof {
            assert forall|m: int, w: int| 0 <= m < head + 1 && #[trigger] idx_edge(gv, order@[m] as int, w)
                implies visited@[w] by {
                if m == head as int {
                    let e = choose|e: int| 0 <= e < gv[v as int].len() && gv[v as int][e] == w as usize;
                    assert(succ[e] as int == w);
                }
            }
        }
        head = head + 1;
    }
    proof {
        assert forall|v: int, w: int| 0 <= v < n && visited@[v] && #[trigger] idx_edge(gv, v, w)
            implies visited@[w] by {
            let m = choose|m: int| 0 <= m < order.len() && order@[m] == v as usize;
            assert(idx_edge(gv, order@[m] as int, w));
        }
        assert forall|j: int| 0 <= j < g.len() implies (visited@[j] <==> reached_from(gv, srcs@, j)) by {
            if reached_from(gv, srcs@, j) {
                let s = choose|s: int| 0 <= s < srcs.len() && idx_reach(gv, #[trigger] srcs[s] as int, j);
                lemma_closed_contains_reach(gv, visited@, srcs[s] as int, j);
            }
        }
    }
    visited
}

proof fn lemma_mark_push(vis0: Seq<bool>, ord0: Seq<usize>, s: usize, n: int)
    requires
        vis0.len() == n,
        s < n,
        forall|m: int| 0 <= m < ord0.len() ==> #[trigger] ord0[m] < n && vis0[ord0[m] as int],
        forall|j: int| 0 <= j < n && vis0[j] ==> ord0.contains(j as usize),
    ensures
        forall|m: int| 0 <= m < ord0.push(s).len() ==> #[trigger] ord0.push(s)[m] < n
            && vis0.update(s as int, true)[ord0.push(s)[m] as int],
        forall|j: int| 0 <= j < n && vis0.update(s as int, true)[j] ==> ord0.push(s).contains(j as usize),
{
    let vis = vis0.update(s as int, true);
    let ord = ord0.push(s);
    assert forall|m: int| 0 <= m < ord.len() implies #[trigger] ord[m] < n && vis[ord[m] as int] by {
        if m < ord0.len() {
            assert(ord[m] == ord0[m]);
        }
    }
    assert forall|j: int| 0 <= j < n && vis[j] implies ord.contains(j as usize) by {
        if j == s as int {
            assert(ord[ord0.len() as int] == s);
        } else {
            assert(vis0[j]);
            let m = choose|m: int| 0 <= m < ord0.len() && ord0[m] == j as usize;
            assert(ord[m] == j as usize);
        }
    }
}

// ---------------------------------------------------------------------------
// Numbering the nodes of an adjacency list
// ---------------------------------------------------------------------------

/// `ids` numbers the nodes of `adj` and `g` is the same graph over those
/// numbers: the ids are distinct, closed under successors, and `i -> j` in `g`
/// exactly when `ids[i] -> ids[j]` in `adj`.
pub open spec fn numbering(ids: Seq<StageId>, g: Seq<Seq<usize>>, adj: Seq<(StageId, Vec<StageId>)>) -> bool {
    &&& g.len() == ids.len()
    &&& graph_wf(g)
    &&& ids.no_duplicates()
    &&& forall|i: int, b: StageId| 0 <= i < ids.len() && #[trigger] adj_has(adj, ids[i], b) ==> ids.contains(b)
    &&& forall|i: int, j: int|
        #![trigger idx_edge(g, i, j)]
        #![trigger adj_has(adj, ids[i], ids[j])]
        0 <= i < ids.len() && 0 <= j < ids.len() ==> (idx_edge(g, i, j) <==> adj_has(adj, ids[i], ids[j]))
}

proof fn lemma_walk_stays_in_ids(ids: Seq<StageId>, g: Seq<Seq<usize>>, adj: Seq<(StageId, Vec<StageId>)>, p: Seq<StageId>, k: int)
    requires
        numbering(ids, g, adj),
        is_walk(adj, p),
        ids.contains(p[0]),
        0 <= k < p.len(),
    ensures
        ids.contains(p[k]),
    decreases k,
{
    if k > 0 {
        lemma_walk_stays_in_ids(ids, g, adj, p, k - 1);
        let i = choose|i: int| 0 <= i < ids.len() && ids[i] == p[k - 1];
        assert(adj_has(adj, p[k - 1], p[k]));
        assert(adj_has(adj, ids[i], p[k]));
    }
}

/// Reachability in the adjacency list is reachability between the numbers.
pub proof fn lemma_reaches_to_idx(ids: Seq<StageId>, g: Seq<Seq<usize>>, adj: Seq<(StageId, Vec<StageId>)>, i: int, b: StageId)
    requires
        numbering(ids, g, adj),
        0 <= i < ids.len(),
        reaches(adj, ids[i], b),
    ensures
        exists|j: int| 0 <= j < ids.len() && ids[j] == b && #[trigger] idx_reach(g, i, j),
{
    reveal(reaches);
    let p = choose|p: Seq<StageId>| #[trigger] is_walk(adj, p) && p[0] == ids[i] && p.last() == b;
    assert(ids.contains(p[0])) by {
        assert(ids[i] == p[0]);
    }
    assert forall|k: int| 0 <= k < p.len() implies ids.contains(#[trigger] p[k]) by {
        lemma_walk_stays_in_ids(ids, g, adj, p, k);
    }
    let q = Seq::new(p.len(), |k: int| choose|j: int| 0 <= j < ids.len() && ids[j] == p[k]);
    assert forall|k: int| 0 <= k < q.len() implies 0 <= #[trigger] q[k] < g.len() && ids[q[k]] == p[k] by {
        assert(ids.contains(p[k]));
    }
    assert forall|k: int| 0 <= k < q.len() - 1 implies idx_edge(g, #[trigger] q[k], q[k + 1]) by {
        assert(ids[q[k]] == p[k]);
        assert(ids[q[k + 1]] == p[k + 1]);
        assert(adj_has(adj, p[k], p[k + 1]));
        assert(adj_has(adj, ids[q[k]], ids[q[k + 1]]));
    }
    assert(idx_walk(g, q));
    assert(q[0] == i) by {
        assert(ids[q[0]] == ids[i]);
        assert(ids.no_duplicates());
    }
    let j = q.last();
    assert(ids[q[q.len() - 1]] == p[p.len() - 1]);
    assert(idx_reach(g, i, j));
}

pub proof fn lemma_idx_to_reaches(ids: Seq<StageId>, g: Seq<Seq<usize>>, adj: Seq<(StageId, Vec<StageId>)>, i: int, j: int)
    requires
        numbering(ids, g, adj),
        idx_reach(g, i, j),
    ensures
        reaches(adj, ids[i], ids[j]),
{
    reveal(reaches);
    let q = choose|q: Seq<int>| #[trigger] idx_walk(g, q) && q[0] == i && q.last() == j;
    let p = Seq::new(q.len(), |k: int| ids[q[k]]);
    assert forall|k: int| 0 <= k < p.len() - 1 implies adj_has(adj, #[trigger] p[k], p[k + 1]) by {
        assert(idx_edge(g, q[k], q[k + 1]));
        assert(0 <= q[k] < ids.len() && 0 <= q[k + 1] < ids.len());
    }
    assert(is_walk(adj, p));
    assert(p[0] == ids[i]);
    assert(p.last() == ids[j]);
}

/// Position of `x` in `ids`.
pub fn index_of(ids: &Vec<StageId>, x: StageId) -> (r: Option<usize>)
    ensures
        match r {
            Some(i) => i < ids.len() && ids@[i as int] == x,
            None => !ids@.contains(x),
        },
{
    let mut i: usize = 0;
    while i < ids.len()
        invariant
            i <= ids.len(),
            forall|k: int| 0 <= k < i ==> ids@[k] != x,
        decreases ids.len() - i,
    {
        if ids[i] == x {
            return Some(i);
        }
        i = i + 1;
    }
    None
}

/// Some entry among the first `kk` links `a` to `b`.
pub open spec fn adj_has_upto(adj: Seq<(StageId, Vec<StageId>)>, kk: int, a: StageId, b: StageId) -> bool {
    exists|k: int| 0 <= k < kk && (#[trigger] adj[k]).0 == a && adj[k].1@.contains(b)
}

/// Appends `x` to `ids` unless it is already there.
fn add_node(ids: &mut Vec<StageId>, x: StageId)
    requires
        old(ids)@.no_duplicates(),
    ensures
        final(ids)@.no_duplicates(),
        final(ids)@.len() >= old(ids)@.len(),
        forall|k: int| 0 <= k < old(ids)@.len() ==> final(ids)@[k] == old(ids)@[k],
        forall|y: StageId| final(ids)@.contains(y) <==> (old(ids)@.contains(y) || y == x),
{
    match index_of(ids, x) {
        Some(_) => {},
        None => {
            let ghost before = ids@;
            ids.push(x);
            proof {
                assert forall|y: StageId| ids@.contains(y) implies (before.contains(y) || y == x) by {
                    let k = choose|k: int| 0 <= k < ids@.len() && ids@[k] == y;
                    if k < before.len() {
                        assert(before[k] == y);
                    }
                }
                assert forall|y: StageId| before.contains(y) || y == x implies ids@.contains(y) by {
                    if y == x {
                        assert(ids@[before.len() as int] == x);
                    } else {
                        let k = choose|k: int| 0 <= k < before.len() && before[k] == y;
                        assert(ids@[k] == y);
                    }
                }
            }
        },
    }
}

/// Numbers the given stages first, then every other node named by `adj`,
/// and builds the numbered graph.
pub fn build_numbering(stages: &Vec<StageId>, adj: &[(StageId, Vec<StageId>)]) -> (res: (Vec<StageId>, Vec<Vec<usize>>))
    requires
        stages@.no_duplicates(),
    ensures
        numbering(res.0@, res.1.deep_view(), adj@),
        res.0@.len() >= stages@.len(),
        forall|k: int| 0 <= k < stages@.len() ==> res.0@[k] == stages@[k],
        forall|y: StageId| res.0@.contains(y) ==> stages@.contains(y)
            || exists|m: int| 0 <= m < adj@.len() && ((#[trigger] adj@[m]).0 == y || adj@[m].1@.contains(y)),
{
    let mut ids: Vec<StageId> = Vec::new();
    let mut i: usize = 0;
    while i < stages.len()
        invariant
            i <= stages.len(),
            stages@.no_duplicates(),
            ids@ == stages@.subrange(0, i as int),
        decreases stages.len() - i,
    {
        ids.push(stages[i]);
        proof {
            assert(stages@.subrange(0, i + 1) =~= stages@.subrange(0, i as int).push(stages@[i as int]));
        }
        i = i + 1;
    }
    proof {
        assert(ids@ =~= stages@);
    }
    // Add every key and target of the adjacency list.
    let mut k: usize = 0;
    while k < adj.len()
        invariant
            k <= adj.len(),
            ids@.no_duplicates(),
            ids@.len() >= stages@.len(),
            forall|m: int| 0 <= m < stages@.len() ==> ids@[m] == stages@[m],
            forall|m: int, y: StageId| #![trigger adj@[m].1@.contains(y)] 0 <= m < k && adj@[m].1@.contains(y) ==> ids@.contains(y),
            forall|m: int| 0 <= m < k ==> ids@.contains(#[trigger] adj@[m].0),
            forall|y: StageId| ids@.contains(y) ==> stages@.contains(y)
                || exists|m: int| 0 <= m < adj@.len() && ((#[trigger] adj@[m]).0 == y || adj@[m].1@.contains(y)),
        decreases adj.len() - k,
    {
        let key = adj[k].0;
        proof {
            assert(adj@[k as int].0 == key);
        }
        let ghost before_key = ids@;
        add_node(&mut ids, key);
        let targets = &adj[k].1;
        let mut t: usize = 0;
        while t < targets.len()
            invariant
                k < adj.len(),
                *targets == adj@[k as int].1,
                adj@[k as int].0 == key,
                t <= targets.len(),
                ids@.no_duplicates(),
                ids@.len() >= stages@.len(),
                forall|m: int| 0 <= m < stages@.len() ==> ids@[m] == stages@[m],
                forall|m: int, y: StageId| #![trigger adj@[m].1@.contains(y)] 0 <= m < k && adj@[m].1@.contains(y) ==> ids@.contains(y),
                forall|m: int| 0 <= m <= k ==> ids@.contains(#[trigger] adj@[m].0),
                forall|m: int| 0 <= m < t ==> ids@.contains(#[trigger] targets@[m]),
                forall|y: StageId| ids@.contains(y) ==> stages@.contains(y)
                    || exists|m: int| 0 <= m < adj@.len() && ((#[trigger] adj@[m]).0 == y || adj@[m].1@.contains(y)),
            decreases targets.len() - t,
        {
            let y = targets[t];
            proof {
                assert(adj@[k as int].1@.contains(y)) by {
                    assert(adj@[k as int].1@[t as int] == y);
                }
                assert(adj@[k as int].0 == key);
                assert(adj_has(adj@, key, y));
            }
            add_node(&mut ids, y);
            t = t + 1;
        }
        proof {
            assert forall|m: int, y: StageId| #![trigger adj@[m].1@.contains(y)] 0 <= m < k + 1 && adj@[m].1@.contains(y)
                implies ids@.contains(y) by {
                if m == k as int {
                    let e = choose|e: int| 0 <= e < targets@.len() && targets@[e] == y;
                }
            }
        }
        k = k + 1;
    }
    // Successor lists.
    let mut g: Vec<Vec<usize>> = Vec::new();
    let n = ids.len();
    let mut i: usize = 0;
    while i < n
        invariant
            n == ids@.len(),
            i <= n,
            g@.len() == i,
            ids@.no_duplicates(),
            forall|m: int, y: StageId| #![trigger adj@[m].1@.contains(y)] 0 <= m < adj@.len() && adj@[m].1@.contains(y) ==> ids@.contains(y),
            forall|a: int, e: int| 0 <= a < i && 0 <= e < g@[a]@.len() ==> #[trigger] g@[a]@[e] < n,
            forall|a: int, j: int| 0 <= a < i && 0 <= j < n ==>
                (#[trigger] g@[a]@.contains(j as usize) <==> adj_has(adj@, ids@[a], ids@[j])),
        decreases n - i,
    {
        let me = ids[i];
        let mut succ: Vec<usize> = Vec::new();
        let mut k: usize = 0;
        while k < adj.len()
            invariant
                n == ids@.len(),
                i < n,
                me == ids@[i as int],
                ids@.no_duplicates(),
                k <= adj.len(),
                forall|m: int, y: StageId| #![trigger adj@[m].1@.contains(y)] 0 <= m < adj@.len() && adj@[m].1@.contains(y) ==> ids@.contains(y),
                forall|e: int| 0 <= e < succ@.len() ==> #[trigger] succ@[e] < n,
                forall|j: int| 0 <= j < n ==> (#[trigger] succ@.contains(j as usize) <==> adj_has_upto(adj@, k as int, me, ids@[j])),
            decreases adj.len() - k,
        {
            if adj[k].0 == me {
                let targets = &adj[k].1;
                let ghost succ0 = succ@;
                let mut t: usize = 0;
                while t < targets.len()
                    invariant
                        n == ids@.len(),
                        k < adj.len(),
                        adj@[k as int].0 == me,
                        *targets == adj@[k as int].1,
                        ids@.no_duplicates(),
                        t <= targets.len(),
                        forall|m: int, y: StageId| #![trigger adj@[m].1@.contains(y)] 0 <= m < adj@.len() && adj@[m].1@.contains(y) ==> ids@.contains(y),
                        forall|e: int| 0 <= e < succ@.len() ==> #[trigger] succ@[e] < n,
                        forall|j: int| 0 <= j < n ==> (#[trigger] succ@.contains(j as usize) <==>
                            (succ0.contains(j as usize) || targets@.subrange(0, t as int).contains(ids@[j]))),
                    decreases targets.len() - t,
                {
                    let y = targets[t];
                    proof {
                        assert(adj@[k as int].1@.contains(y)) by {
                            assert(adj@[k as int].1@[t as int] == y);
                        }
                        assert(ids@.contains(y));
                    }
                    let j = match index_of(&ids, y) {
                        Some(j) => j,
                        None => { proof { assert(false); } 0 },
                    };
                    let ghost succ1 = succ@;
                    succ.push(j);
                    proof {
                        assert(targets@.subrange(0, t + 1) =~= targets@.subrange(0, t as int).push(y));
                        assert forall|jj: int| 0 <= jj < n implies (#[trigger] succ@.contains(jj as usize) <==>
                            (succ0.contains(jj as usize) || targets@.subrange(0, t + 1).contains(ids@[jj]))) by {
                            if succ@.contains(jj as usize) {
                                let e = choose|e: int| 0 <= e < succ@.len() && succ@[e] == jj as usize;
                                if e < succ1.len() {
                                    assert(succ1[e] == jj as usize);
                                    assert(succ1.contains(jj as usize));
                                } else {
                                    assert(jj == j as int);
                                    assert(targets@.subrange(0, t + 1)[t as int] == ids@[jj]);
                                }
                            }
                            if succ0.contains(jj as usize) || targets@.subrange(0, t + 1).contains(ids@[jj]) {
                                if succ1.contains(jj as usize) {
                                    let e = choose|e: int| 0 <= e < succ1.len() && succ1[e] == jj as usize;
                                    assert(succ@[e] == jj as usize);
                                } else if targets@.subrange(0, t as int).contains(ids@[jj]) {
                                    assert(false);
                                } else {
                                    assert(ids@[jj] == y);
                                    assert(ids@[jj] == ids@[j as int]);
                                    assert(jj == j as int);
                                    assert(succ@[succ1.len() as int] == j);
                                }
                            }
                        }
                    }
                    t = t + 1;
                }
                proof {
                    assert(targets@.subrange(0, targets@.len() as int) =~= targets@);
                    assert forall|j: int| 0 <= j < n implies (#[trigger] succ@.contains(j as usize) <==>
                        adj_has_upto(adj@, k + 1, me, ids@[j])) by {
                        if adj_has_upto(adj@, k + 1, me, ids@[j]) {
                            let m = choose|m: int| 0 <= m < k + 1 && (#[trigger] adj@[m]).0 == me && adj@[m].1@.contains(ids@[j]);
                            if m < k {
                                assert(adj_has_upto(adj@, k as int, me, ids@[j]));
                            }
                        }
                        if succ@.contains(j as usize) {
                            if targets@.contains(ids@[j]) {
                                assert(adj@[k as int].1@.contains(ids@[j]));
                            }
                        }
                    }
                }
            } else {
                proof {
                    assert forall|j: int| 0 <= j < n implies (#[trigger] succ@.contains(j as usize) <==>
                        adj_has_upto(adj@, k + 1, me, ids@[j])) by {
                        if adj_has_upto(adj@, k + 1, me, ids@[j]) {
                            let m = choose|m: int| 0 <= m < k + 1 && (#[trigger] adj@[m]).0 == me && adj@[m].1@.contains(ids@[j]);
                            assert(m != k as int);
                        }
                    }
                }
            }
            k = k + 1;
        }
        let ghost g0 = g@;
        g.push(succ);
        proof {
            assert forall|a: int, j: int| 0 <= a < i + 1 && 0 <= j < n implies
                (#[trigger] g@[a]@.contains(j as usize) <==> adj_has(adj@, ids@[a], ids@[j])) by {
                if a == i as int {
                    assert(g@[a] == succ);
                    if adj_has(adj@, ids@[a], ids@[j]) {
                        let m = choose|m: int| 0 <= m < adj@.len() && (#[trigger] adj@[m]).0 == ids@[a] && adj@[m].1@.contains(ids@[j]);
                        assert(adj_has_upto(adj@, adj@.len() as int, me, ids@[j]));
                    }
                } else {
                    assert(g@[a] == g0[a]);
                }
            }
            assert forall|a: int, e: int| 0 <= a < i + 1 && 0 <= e < g@[a]@.len() implies #[trigger] g@[a]@[e] < n by {
                if a < i {
                    assert(g@[a] == g0[a]);
                }
            }
        }
        i = i + 1;
    }
    proof {
        let gv = g.deep_view();
        assert forall|a: int| 0 <= a < n implies gv[a] == g@[a]@ by {}
        assert(graph_wf(gv)) by {
            assert forall|a: int, e: int| 0 <= a < gv.len() && 0 <= e < gv[a].len() implies #[trigger] gv[a][e] < gv.len() by {
                assert(gv[a] == g@[a]@);
                assert(g@[a]@[e] < n);
            }
        }
        assert forall|a: int, y: StageId| 0 <= a < ids@.len() && #[trigger] adj_has(adj@, ids@[a], y) implies ids@.contains(y) by {
            let m = choose|m: int| 0 <= m < adj@.len() && (#[trigger] adj@[m]).0 == ids@[a] && adj@[m].1@.contains(y);
        }
        assert forall|a: int, j: int| 0 <= a < ids@.len() && 0 <= j < ids@.len() implies
            (idx_edge(gv, a, j) <==> adj_has(adj@, ids@[a], ids@[j])) by {
            assert(gv[a] == g@[a]@);
            assert(g@[a]@.contains(j as usize) <==> adj_has(adj@, ids@[a], ids@[j]));
        }
    }
    (ids, g)
}

// ---------------------------------------------------------------------------
// Reachability matrix and mutual-reachability classes
// ---------------------------------------------------------------------------

/// `m` is the reachability matrix of `g`.
pub open spec fn is_reach_matrix(g: Seq<Seq<usize>>, m: Seq<Seq<bool>>) -> bool {
    &&& m.len() == g.len()
    &&& forall|i: int| 0 <= i < m.len() ==> (#[trigger] m[i]).len() == g.len()
    &&& forall|i: int, j: int| 0 <= i < g.len() && 0 <= j < g.len() ==> (#[trigger] m[i][j] <==> idx_reach(g, i, j))
}

pub open spec fn idx_mutual(g: Seq<Seq<usize>>, i: int, j: int) -> bool {
    idx_reach(g, i, j) && idx_reach(g, j, i)
}

pub fn reach_matrix(g: &Vec<Vec<usize>>) -> (m: Vec<Vec<bool>>)
    requires
        graph_wf(g.deep_view()),
    ensures
        is_reach_matrix(g.deep_view(), m.deep_view()),
{
    let ghost gv = g.deep_view();
    let n = g.len();
    let mut m: Vec<Vec<bool>> = Vec::new();
    let mut i: usize = 0;
    while i < n
        invariant
            n == g.len(),
            gv == g.deep_view(),
            graph_wf(gv),
            i <= n,
            m@.len() == i,
            forall|a: int| 0 <= a < i ==> (#[trigger] m@[a])@.len() == n,
            forall|a: int, j: int| 0 <= a < i && 0 <= j < n ==> (#[trigger] m@[a]@[j] <==> idx_reach(gv, a, j)),
        decreases n - i,
    {
        let srcs = vec![i];
        let row = mark_reachable(g, &srcs);
        proof {
            assert forall|j: int| 0 <= j < n implies (row@[j] <==> idx_reach(gv, i as int, j)) by {
                if row@[j] {
                    let s = choose|s: int| 0 <= s < srcs@.len() && idx_reach(gv, #[trigger] srcs@[s] as int, j);
                    assert(srcs@[s] == i);
                } else {
                    if idx_reach(gv, i as int, j) {
                        assert(srcs@[0] == i);
                        assert(reached_from(gv, srcs@, j));
                    }
                }
            }
        }
        m.push(row);
        i = i + 1;
    }
    proof {
        let mv = m.deep_view();
        assert forall|a: int| 0 <= a < mv.len() implies mv[a] == m@[a]@ by {}
    }
    m
}

pub proof fn lemma_mutual_equiv(g: Seq<Seq<usize>>, i: int, j: int, k: int)
    requires
        0 <= i < g.len(),
    ensures
        idx_mutual(g, i, i),
        idx_mutual(g, i, j) ==> idx_mutual(g, j, i),
        idx_mutual(g, i, j) && idx_mutual(g, j, k) ==> idx_mutual(g, i, k),
{
    lemma_idx_reach_refl(g, i);
    if idx_mutual(g, i, j) && idx_mutual(g, j, k) {
        lemma_idx_reach_trans(g, i, j, k);
        lemma_idx_reach_trans(g, k, j, i);
    }
}

/// Indices `j` that `i` reaches and that reach `i` back, in increasing order.
pub fn class_of(m: &Vec<Vec<bool>>, i: usize) -> (r: Vec<usize>)
    requires
        i < m@.len(),
        forall|a: int| 0 <= a < m@.len() ==> (#[trigger] m@[a])@.len() == m@.len(),
    ensures
        r@.no_duplicates(),
        forall|e: int| 0 <= e < r@.len() ==> #[trigger] r@[e] < m@.len(),
        forall|j: int| 0 <= j < m@.len() ==> (#[trigger] r@.contains(j as usize) <==> (m@[i as int]@[j] && m@[j]@[i as int])),
{
    let n = m.len();
    let mut r: Vec<usize> = Vec::new();
    let mut j: usize = 0;
    while j < n
        invariant
            n == m@.len(),
            i < n,
            forall|a: int| 0 <= a < n ==> (#[trigger] m@[a])@.len() == n,
            j <= n,
            r@.no_duplicates(),
            forall|e: int| 0 <= e < r@.len() ==> #[trigger] r@[e] < j,
            forall|x: int| 0 <= x < n ==> (#[trigger] r@.contains(x as usize) <==> (x < j && m@[i as int]@[x] && m@[x]@[i as int])),
        decreases n - j,
    {
        if m[i][j] && m[j][i] {
            let ghost r0 = r@;
            r.push(j);
            proof {
                assert forall|e: int| 0 <= e < r@.len() implies #[trigger] r@[e] < j + 1 by {
                    if e < r0.len() {
                        assert(r@[e] == r0[e]);
                    }
                }
                assert forall|x: int| 0 <= x < n implies (#[trigger] r@.contains(x as usize) <==> (x < j + 1 && m@[i as int]@[x] && m@[x]@[i as int])) by {
                    if r@.contains(x as usize) {
                        let e = choose|e: int| 0 <= e < r@.len() && r@[e] == x as usize;
                        if e < r0.len() {
                            assert(r0[e] == x as usize);
                            assert(r0.contains(x as usize));
                        }
                    }
                    if x < j + 1 && m@[i as int]@[x] && m@[x]@[i as int] {
                        if x == j as int {
                            assert(r@[r0.len() as int] == j);
                        } else {
                            assert(r0.contains(x as usize));
                            let e = choose|e: int| 0 <= e < r0.len() && r0[e] == x as usize;
                            assert(r@[e] == x as usize);
                        }
                    }
                }
                assert(r@.no_duplicates()) by {
                    assert forall|a: int, b: int| 0 <= a < r@.len() && 0 <= b < r@.len() && a != b implies r@[a] != r@[b] by {
                        if a < r0.len() && b < r0.len() {
                            assert(r@[a] == r0[a] && r@[b] == r0[b]);
                        } else if a < r0.len() {
                            assert(r@[a] == r0[a]);
                            assert(r0[a] < j);
                        } else if b < r0.len() {
                            assert(r@[b] == r0[b]);
                            assert(r0[b] < j);
                        }
                    }
                }
            }
        }
        j = j + 1;
    }
    r
}

/// The cycle classes of a numbered graph, ordered by their least member.
///
/// `cand` selects nodes (closed under mutual reachability). The classes of the
/// selected nodes are listed once each; `reps[k]` is the member of class `k`
/// whose id is least, and the reps increase strictly by id.
pub open spec fn classes_ok(
    g: Seq<Seq<usize>>,
    ids: Seq<StageId>,
    cand: Seq<bool>,
    reps: Seq<usize>,
    classes: Seq<Seq<usize>>,
) -> bool {
    &&& reps.len() == classes.len()
    &&& forall|k: int| 0 <= k < reps.len() ==> #[trigger] reps[k] < g.len() && cand[reps[k] as int]
    &&& forall|k: int, j: int|
        #![trigger classes[k].contains(j as usize)]
        #![trigger idx_mutual(g, reps[k] as int, j)]
        0 <= k < classes.len() && 0 <= j < g.len() ==>
        (classes[k].contains(j as usize) <==> idx_mutual(g, reps[k] as int, j))
    &&& forall|k: int| 0 <= k < classes.len() ==> (#[trigger] classes[k]).no_duplicates()
    &&& forall|k: int, e: int| 0 <= k < classes.len() && 0 <= e < classes[k].len() ==> #[trigger] classes[k][e] < g.len()
    &&& forall|k: int, j: int| 0 <= k < classes.len() && 0 <= j < g.len() && #[trigger] idx_mutual(g, reps[k] as int, j)
        ==> ids[reps[k] as int].value <= ids[j].value
    &&& forall|k: int, l: int| 0 <= k < l < reps.len() ==> ids[#[trigger] reps[k] as int].value < ids[#[trigger] reps[l] as int].value
    &&& forall|j: int| 0 <= j < g.len() && #[trigger] cand[j] ==> exists|k: int| 0 <= k < classes.len() && #[trigger] classes[k].contains(j as usize)
}

/// Progress of the class selection: the classes found so far satisfy
/// `classes_ok` for the assigned nodes, and every unassigned candidate has a
/// larger id than every representative chosen so far.
#[verifier::opaque]
spec fn selection_inv(
    g: Seq<Seq<usize>>,
    ids: Seq<StageId>,
    cand: Seq<bool>,
    assigned: Seq<bool>,
    reps: Seq<usize>,
    classes: Seq<Seq<usize>>,
) -> bool {
    &&& assigned.len() == g.len()
    &&& reps.len() == classes.len()
    &&& forall|k: int| 0 <= k < reps.len() ==> #[trigger] reps[k] < g.len() && cand[reps[k] as int]
    &&& forall|k: int, j: int|
        #![trigger classes[k].contains(j as usize)]
        #![trigger idx_mutual(g, reps[k] as int, j)]
        0 <= k < classes.len() && 0 <= j < g.len() ==>
        (classes[k].contains(j as usize) <==> idx_mutual(g, reps[k] as int, j))
    &&& forall|k: int| 0 <= k < classes.len() ==> (#[trigger] classes[k]).no_duplicates()
    &&& forall|k: int, e: int| 0 <= k < classes.len() && 0 <= e < classes[k].len() ==> #[trigger] classes[k][e] < g.len()
    &&& forall|k: int, j: int| 0 <= k < classes.len() && 0 <= j < g.len() && #[trigger] idx_mutual(g, reps[k] as int, j)
        ==> ids[reps[k] as int].value <= ids[j].value
    &&& forall|k: int, l: int| 0 <= k < l < reps.len() ==> ids[#[trigger] reps[k] as int].value < ids[#[trigger] reps[l] as int].value
    &&& forall|j: int| 0 <= j < g.len() ==> (#[trigger] assigned[j] <==> exists|k: int| 0 <= k < classes.len() && #[trigger] idx_mutual(g, reps[k] as int, j))
    &&& forall|k: int, j: int| #![trigger reps[k], cand[j]] 0 <= k < reps.len() && 0 <= j < g.len() && cand[j] && !assigned[j] ==> ids[reps[k] as int].value < ids[j].value
}

proof fn lemma_selection_init(g: Seq<Seq<usize>>, ids: Seq<StageId>, cand: Seq<bool>, assigned: Seq<bool>)
    requires
        assigned.len() == g.len(),
        forall|j: int| 0 <= j < g.len() ==> !assigned[j],
    ensures
        selection_inv(g, ids, cand, assigned, Seq::empty(), Seq::empty()),
{
    reveal(selection_inv);
}

proof fn lemma_selection_done(g: Seq<Seq<usize>>, ids: Seq<StageId>, cand: Seq<bool>, assigned: Seq<bool>, reps: Seq<usize>, classes: Seq<Seq<usize>>)
    requires
        selection_inv(g, ids, cand, assigned, reps, classes),
        cand.len() == g.len(),
        forall|x: int| 0 <= x < g.len() ==> !(cand[x] && !assigned[x]),
    ensures
        classes_ok(g, ids, cand, reps, classes),
{
    reveal(selection_inv);
    assert forall|x: int| 0 <= x < g.len() && #[trigger] cand[x] implies exists|k: int| 0 <= k < classes.len() && #[trigger] classes[k].contains(x as usize) by {
        assert(assigned[x]);
        let k = choose|k: int| 0 <= k < classes.len() && #[trigger] idx_mutual(g, reps[k] as int, x);
        assert(classes[k].contains(x as usize));
    }
}

/// The class of the least unassigned candidate `b` consists of unassigned
/// candidates, none with a smaller id.
proof fn lemma_selection_fresh_class(g: Seq<Seq<usize>>, ids: Seq<StageId>, cand: Seq<bool>, assigned: Seq<bool>, reps: Seq<usize>, classes: Seq<Seq<usize>>, b: int)
    requires
        selection_inv(g, ids, cand, assigned, reps, classes),
        cand.len() == g.len(),
        0 <= b < g.len(),
        cand[b],
        !assigned[b],
        forall|x: int| 0 <= x < g.len() && cand[x] && !assigned[x] ==> ids[b].value <= ids[x].value,
        forall|i: int, j: int| 0 <= i < g.len() && 0 <= j < g.len() && cand[i] && #[trigger] idx_mutual(g, i, j) ==> cand[j],
    ensures
        forall|x: int| 0 <= x < g.len() && #[trigger] idx_mutual(g, b, x) ==> cand[x] && !assigned[x]
            && ids[b].value <= ids[x].value,
{
    reveal(selection_inv);
    assert forall|x: int| 0 <= x < g.len() && #[trigger] idx_mutual(g, b, x) implies cand[x] && !assigned[x]
        && ids[b].value <= ids[x].value by {
        if assigned[x] {
            let k = choose|k: int| 0 <= k < classes.len() && #[trigger] idx_mutual(g, reps[k] as int, x);
            lemma_mutual_equiv(g, reps[k] as int, x, b);
            lemma_mutual_equiv(g, b, x, b);
            assert(idx_mutual(g, reps[k] as int, b));
            assert(assigned[b]);
        }
    }
}

proof fn lemma_selection_step(
    g: Seq<Seq<usize>>,
    ids: Seq<StageId>,
    cand: Seq<bool>,
    a0: Seq<bool>,
    a1: Seq<bool>,
    reps: Seq<usize>,
    classes: Seq<Seq<usize>>,
    b: usize,
    members: Seq<usize>,
)
    requires
        selection_inv(g, ids, cand, a0, reps, classes),
        ids.no_duplicates(),
        ids.len() == g.len(),
        cand.len() == g.len(),
        b < g.len(),
        cand[b as int],
        !a0[b as int],
        forall|x: int| 0 <= x < g.len() && #[trigger] idx_mutual(g, b as int, x) ==> cand[x] && !a0[x]
            && ids[b as int].value <= ids[x].value,
        forall|x: int| 0 <= x < g.len() && cand[x] && !a0[x] ==> ids[b as int].value <= ids[x].value,
        members.no_duplicates(),
        forall|e: int| 0 <= e < members.len() ==> #[trigger] members[e] < g.len(),
        forall|x: int| 0 <= x < g.len() ==> (#[trigger] members.contains(x as usize) <==> idx_mutual(g, b as int, x)),
        a1.len() == g.len(),
        forall|x: int| 0 <= x < g.len() ==> (#[trigger] a1[x] <==> (a0[x] || members.contains(x as usize))),
    ensures
        selection_inv(g, ids, cand, a1, reps.push(b as usize), classes.push(members)),
        num_false(a1) < num_false(a0),
{
    reveal(selection_inv);
    lemma_mutual_equiv(g, b as int, b as int, b as int);
    assert(idx_mutual(g, b as int, b as int));
    assert(members.contains((b as int) as usize));
    assert forall|x: int| 0 <= x < a0.len() && a0[x] implies a1[x] by {}
    lemma_num_false_decreases(a0, a1, b as int);
    let r2 = reps.push(b);
    let c2 = classes.push(members);
    let kn = reps.len() as int;
    assert(r2[kn] == b);
    assert(c2[kn] == members);
    assert forall|k: int| 0 <= k < r2.len() implies #[trigger] r2[k] < g.len() && cand[r2[k] as int] by {
        if k < kn { assert(r2[k] == reps[k]); }
    }
    assert forall|k: int, j: int|
        #![trigger c2[k].contains(j as usize)]
        #![trigger idx_mutual(g, r2[k] as int, j)]
        0 <= k < c2.len() && 0 <= j < g.len() implies (c2[k].contains(j as usize) <==> idx_mutual(g, r2[k] as int, j)) by {
        if k < kn { assert(r2[k] == reps[k] && c2[k] == classes[k]); }
    }
    assert forall|k: int| 0 <= k < c2.len() implies (#[trigger] c2[k]).no_duplicates() by {
        if k < kn { assert(c2[k] == classes[k]); }
    }
    assert forall|k: int, e: int| 0 <= k < c2.len() && 0 <= e < c2[k].len() implies #[trigger] c2[k][e] < g.len() by {
        if k < kn { assert(c2[k] == classes[k]); }
    }
    assert forall|k: int, j: int| 0 <= k < c2.len() && 0 <= j < g.len() && #[trigger] idx_mutual(g, r2[k] as int, j)
        implies ids[r2[k] as int].value <= ids[j].value by {
        if k < kn { assert(r2[k] == reps[k]); }
    }
    assert forall|k: int, l: int| 0 <= k < l < r2.len() implies ids[#[trigger] r2[k] as int].value < ids[#[trigger] r2[l] as int].value by {
        if l < kn {
            assert(r2[k] == reps[k] && r2[l] == reps[l]);
        } else {
            assert(r2[k] == reps[k]);
            assert(cand[b as int] && !a0[b as int]);
        }
    }
    assert forall|j: int| 0 <= j < g.len() implies (#[trigger] a1[j] <==> exists|k: int| 0 <= k < c2.len() && #[trigger] idx_mutual(g, r2[k] as int, j)) by {
        if a1[j] {
            if a0[j] {
                let k = choose|k: int| 0 <= k < classes.len() && #[trigger] idx_mutual(g, reps[k] as int, j);
                assert(r2[k] == reps[k]);
                assert(idx_mutual(g, r2[k] as int, j));
            } else {
                assert(members.contains(j as usize));
                assert(idx_mutual(g, r2[kn] as int, j));
            }
        }
        if exists|k: int| 0 <= k < c2.len() && #[trigger] idx_mutual(g, r2[k] as int, j) {
            let k = choose|k: int| 0 <= k < c2.len() && #[trigger] idx_mutual(g, r2[k] as int, j);
            if k < kn {
                assert(r2[k] == reps[k]);
                assert(a0[j]);
            } else {
                assert(members.contains(j as usize));
            }
        }
    }
    assert forall|k: int, j: int| #![trigger r2[k], cand[j]] 0 <= k < r2.len() && 0 <= j < g.len() && cand[j] && !a1[j]
        implies ids[r2[k] as int].value < ids[j].value by {
        assert(!a0[j]);
        if k < kn {
            assert(r2[k] == reps[k]);
        } else {
            if ids[b as int].value >= ids[j].value {
                assert(ids[b as int] == ids[j]);
                assert(j == b as int);
                assert(false);
            }
        }
    }
}

pub fn cycle_classes(g: &Vec<Vec<usize>>, ids: &Vec<StageId>, m: &Vec<Vec<bool>>, cand: &Vec<bool>) -> (res: (Vec<usize>, Vec<Vec<usize>>))
    requires
        graph_wf(g.deep_view()),
        ids@.len() == g.len(),
        ids@.no_duplicates(),
        is_reach_matrix(g.deep_view(), m.deep_view()),
        cand@.len() == g.len(),
        forall|i: int, j: int| 0 <= i < g.len() && 0 <= j < g.len() && cand@[i] && #[trigger] idx_mutual(g.deep_view(), i, j) ==> cand@[j],
    ensures
        classes_ok(g.deep_view(), ids@, cand@, res.0@, res.1.deep_view()),
{
    let ghost gv = g.deep_view();
    let ghost mv = m.deep_view();
    let n = g.len();
    proof {
        assert forall|a: int| 0 <= a < m@.len() implies (#[trigger] m@[a])@.len() == m@.len() by {
            assert(mv[a] == m@[a]@);
        }
    }
    let mut assigned: Vec<bool> = Vec::new();
    let mut i: usize = 0;
    while i < n
        invariant
            i <= n,
            assigned@.len() == i,
            forall|j: int| 0 <= j < i ==> !assigned@[j],
        decreases n - i,
    {
        assigned.push(false);
        i = i + 1;
    }
    let mut reps: Vec<usize> = Vec::new();
    let mut classes: Vec<Vec<usize>> = Vec::new();
    proof {
        lemma_selection_init(gv, ids@, cand@, assigned@);
        assert(classes.deep_view() =~= Seq::<Seq<usize>>::empty());
    }
    loop
        invariant
            n == g.len(),
            gv == g.deep_view(),
            mv == m.deep_view(),
            graph_wf(gv),
            ids@.len() == n,
            ids@.no_duplicates(),
            m@.len() == n,
            is_reach_matrix(gv, mv),
            forall|a: int| 0 <= a < m@.len() ==> (#[trigger] m@[a])@.len() == m@.len(),
            cand@.len() == n,
            forall|a: int, b: int| 0 <= a < n && 0 <= b < n && cand@[a] && #[trigger] idx_mutual(gv, a, b) ==> cand@[b],
            assigned@.len() == n,
            selection_inv(gv, ids@, cand@, assigned@, reps@, classes.deep_view()),
        decreases num_false(assigned@),
    {
        // Least unassigned candidate.
        let mut best: Option<usize> = None;
        let mut j: usize = 0;
        while j < n
            invariant
                n == g.len(),
                ids@.len() == n,
                cand@.len() == n,
                assigned@.len() == n,
                j <= n,
                match best {
                    Some(b) => b < j && cand@[b as int] && !assigned@[b as int]
                        && forall|x: int| 0 <= x < j && cand@[x] && !assigned@[x] ==> ids@[b as int].value <= ids@[x].value,
                    None => forall|x: int| 0 <= x < j ==> !(cand@[x] && !assigned@[x]),
                },
            decreases n - j,
        {
            if cand[j] && !assigned[j] {
                match best {
                    Some(b) => {
                        if ids[j].value < ids[b].value {
                            best = Some(j);
                        }
                    },
                    None => {
                        best = Some(j);
                    },
                }
            }
            j = j + 1;
        }
        match best {
            None => {
                proof {
                    lemma_selection_done(gv, ids@, cand@, assigned@, reps@, classes.deep_view());
                }
                return (reps, classes);
            },
            Some(b) => {
                let members = class_of(m, b);
                proof {
                    lemma_selection_fresh_class(gv, ids@, cand@, assigned@, reps@, classes.deep_view(), b as int);
                    assert forall|x: int| 0 <= x < n implies (#[trigger] members@.contains(x as usize) <==> idx_mutual(gv, b as int, x)) by {
                        assert(mv[b as int] == m@[b as int]@);
                        assert(mv[x] == m@[x]@);
                    }
                }
                let ghost a0 = assigned@;
                let mut e: usize = 0;
                while e < members.len()
                    invariant
                        n == g.len(),
                        assigned@.len() == n,
                        e <= members.len(),
                        forall|x: int| 0 <= x < members@.len() ==> #[trigger] members@[x] < n,
                        forall|x: int| 0 <= x < n ==> (#[trigger] assigned@[x] <==> (a0[x] || members@.subrange(0, e as int).contains(x as usize))),
                    decreases members.len() - e,
                {
                    let x = members[e];
                    let ghost a1 = assigned@;
                    assigned.set(x, true);
                    proof {
                        let sub1 = members@.subrange(0, e + 1);
                        let sub0 = members@.subrange(0, e as int);
                        assert(sub1 =~= sub0.push(x));
                        assert forall|y: int| 0 <= y < n implies (#[trigger] assigned@[y] <==> (a0[y] || sub1.contains(y as usize))) by {
                            if y == x as int {
                                assert(sub1[e as int] == x);
                            } else {
                                assert(assigned@[y] == a1[y]);
                                if sub1.contains(y as usize) {
                                    let q = choose|q: int| 0 <= q < sub1.len() && #[trigger] sub1[q] == y as usize;
                                    assert(sub0[q] == y as usize);
                                }
                            }
                        }
                    }
                    e = e + 1;
                }
                proof {
                    assert(members@.subrange(0, members@.len() as int) =~= members@);
                    lemma_selection_step(gv, ids@, cand@, a0, assigned@, reps@, classes.deep_view(), b, members@);
                }
                let ghost c0 = classes.deep_view();
                let ghost cv0 = classes@;
                let ghost mem = members@;
                reps.push(b);
                classes.push(members);
                proof {
                    assert(classes@ == cv0.push(members));
                    assert forall|k: int| 0 <= k < classes@.len() implies classes.deep_view()[k] == c0.push(mem)[k] by {
                        if k < cv0.len() {
                            assert(classes@[k] == cv0[k]);
                        }
                    }
                    assert(classes.deep_view() =~= c0.push(mem));
                }
            },
        }
    }
}

proof fn lemma_num_false_decreases(a: Seq<bool>, b: Seq<bool>, w: int)
    requires
        a.len() == b.len(),
        forall|x: int| 0 <= x < a.len() && a[x] ==> b[x],
        0 <= w < a.len(),
        !a[w],
        b[w],
    ensures
        num_false(b) < num_false(a),
    decreases a.len(),
{
    lemma_num_false_mono(a.drop_last(), b.drop_last());
    if w == a.len() - 1 {
    } else {
        lemma_num_false_decreases(a.drop_last(), b.drop_last(), w);
    }
}

proof fn lemma_num_false_mono(a: Seq<bool>, b: Seq<bool>)
    requires
        a.len() == b.len(),
        forall|x: int| 0 <= x < a.len() && a[x] ==> b[x],
    ensures
        num_false(b) <= num_false(a),
    decreases a.len(),
{
    if a.len() > 0 {
        lemma_num_false_mono(a.drop_last(), b.drop_last());
    }
}

/// Between numbered nodes, index reachability is adjacency reachability.
pub proof fn lemma_idx_reach_iff(ids: Seq<StageId>, g: Seq<Seq<usize>>, adj: Seq<(StageId, Vec<StageId>)>, i: int, j: int)
    requires
        numbering(ids, g, adj),
        0 <= i < ids.len(),
        0 <= j < ids.len(),
    ensures
        idx_reach(g, i, j) <==> reaches(adj, ids[i], ids[j]),
{
    if idx_reach(g, i, j) {
        lemma_idx_to_reaches(ids, g, adj, i, j);
    }
    if reaches(adj, ids[i], ids[j]) {
        lemma_reaches_to_idx(ids, g, adj, i, ids[j]);
        let j2 = choose|j2: int| 0 <= j2 < ids.len() && ids[j2] == ids[j] && #[trigger] idx_reach(g, i, j2);
        assert(ids.no_duplicates());
        assert(j2 == j);
    }
}

/// Nodes reachable from a numbered node are numbered.
pub proof fn lemma_reach_stays_numbered(ids: Seq<StageId>, g: Seq<Seq<usize>>, adj: Seq<(StageId, Vec<StageId>)>, i: int, b: StageId)
    requires
        numbering(ids, g, adj),
        0 <= i < ids.len(),
        reaches(adj, ids[i], b),
    ensures
        ids.contains(b),
{
    lemma_reaches_to_idx(ids, g, adj, i, b);
    let j = choose|j: int| 0 <= j < ids.len() && ids[j] == b && #[trigger] idx_reach(g, i, j);
}

// ---------------------------------------------------------------------------
// Cycles
// ---------------------------------------------------------------------------

/// `a` and `b` reach each other.
pub open spec fn mutually_reach(adj: Seq<(StageId, Vec<StageId>)>, a: StageId, b: StageId) -> bool {
    reaches(adj, a, b) && reaches(adj, b, a)
}

/// `v` shares a strongly connected component with another node.
pub open spec fn on_cycle(adj: Seq<(StageId, Vec<StageId>)>, v: StageId) -> bool {
    exists|u: StageId| u != v && #[trigger] mutually_reach(adj, v, u)
}

/// Mutual reachability between numbered nodes.
pub proof fn lemma_mutual_iff(ids: Seq<StageId>, g: Seq<Seq<usize>>, adj: Seq<(StageId, Vec<StageId>)>, i: int, j: int)
    requires
        numbering(ids, g, adj),
        0 <= i < ids.len(),
        0 <= j < ids.len(),
    ensures
        idx_mutual(g, i, j) <==> mutually_reach(adj, ids[i], ids[j]),
{
    lemma_idx_reach_iff(ids, g, adj, i, j);
    lemma_idx_reach_iff(ids, g, adj, j, i);
}

/// A numbered node is on a cycle exactly when its index class has another
/// member.
pub proof fn lemma_on_cycle_iff(ids: Seq<StageId>, g: Seq<Seq<usize>>, adj: Seq<(StageId, Vec<StageId>)>, i: int)
    requires
        numbering(ids, g, adj),
        0 <= i < ids.len(),
    ensures
        on_cycle(adj, ids[i]) <==> exists|j: int| 0 <= j < ids.len() && j != i && #[trigger] idx_mutual(g, i, j),
{
    if on_cycle(adj, ids[i]) {
        let u = choose|u: StageId| u != ids[i] && #[trigger] mutually_reach(adj, ids[i], u);
        lemma_reach_stays_numbered(ids, g, adj, i, u);
        let j = choose|j: int| 0 <= j < ids.len() && ids[j] == u;
        lemma_mutual_iff(ids, g, adj, i, j);
        assert(j != i);
    }
    if exists|j: int| 0 <= j < ids.len() && j != i && #[trigger] idx_mutual(g, i, j) {
        let j = choose|j: int| 0 <= j < ids.len() && j != i && #[trigger] idx_mutual(g, i, j);
        lemma_mutual_iff(ids, g, adj, i, j);
        assert(ids[j] != ids[i]) by {
            assert(ids.no_duplicates());
        }
        assert(mutually_reach(adj, ids[i], ids[j]));
    }
}

/// For each node, whether another node shares its class.
pub fn nontrivial_flags(m: &Vec<Vec<bool>>) -> (r: Vec<bool>)
    requires
        forall|a: int| 0 <= a < m@.len() ==> (#[trigger] m@[a])@.len() == m@.len(),
    ensures
        r@.len() == m@.len(),
        forall|i: int| 0 <= i < m@.len() ==> (r@[i] <==> exists|j: int| 0 <= j < m@.len() && j != i && #[trigger] m@[i]@[j] && m@[j]@[i]),
{
    let n = m.len();
    let mut r: Vec<bool> = Vec::new();
    let mut i: usize = 0;
    while i < n
        invariant
            n == m@.len(),
            forall|a: int| 0 <= a < m@.len() ==> (#[trigger] m@[a])@.len() == m@.len(),
            i <= n,
            r@.len() == i,
            forall|a: int| 0 <= a < i ==> (r@[a] <==> exists|j: int| 0 <= j < n && j != a && #[trigger] m@[a]@[j] && m@[j]@[a]),
        decreases n - i,
    {
        let mut found = false;
        let mut j: usize = 0;
        while j < n
            invariant
                n == m@.len(),
                forall|a: int| 0 <= a < m@.len() ==> (#[trigger] m@[a])@.len() == m@.len(),
                i < n,
                j <= n,
                found == exists|x: int| 0 <= x < j && x != i && #[trigger] m@[i as int]@[x] && m@[x]@[i as int],
            decreases n - j,
        {
            if j != i && m[i][j] && m[j][i] {
                found = true;
            }
            j = j + 1;
        }
        r.push(found);
        i = i + 1;
    }
    r
}

/// Whether `i` is one of its own successors.
pub fn has_self_edge(g: &Vec<Vec<usize>>, i: usize) -> (r: bool)
    requires
        i < g.len(),
    ensures
        r == idx_edge(g.deep_view(), i as int, i as int),
{
    let succ = &g[i];
    let ghost gv = g.deep_view();
    proof {
        assert(gv[i as int] == succ@);
    }
    let mut k: usize = 0;
    while k < succ.len()
        invariant
            k <= succ@.len(),
            gv[i as int] == succ@,
            gv == g.deep_view(),
            gv.len() == g.len(),
            i < g.len(),
            forall|e: int| 0 <= e < k ==> succ@[e] != i,
        decreases succ.len() - k,
    {
        if succ[k] == i {
            proof {
                assert(gv[i as int][k as int] == i);
                assert(gv[i as int].contains(i));
                assert(0 <= i < gv.len());
                assert(idx_edge(gv, i as int, i as int));
            }
            return true;
        }
        k = k + 1;
    }
    false
}

/// The ids of the numbered nodes in `class`, in the same order.
pub fn ids_at(ids: &Vec<StageId>, class: &Vec<usize>) -> (r: Vec<StageId>)
    requires
        forall|e: int| 0 <= e < class@.len() ==> #[trigger] class@[e] < ids@.len(),
    ensures
        r@.len() == class@.len(),
        forall|e: int| 0 <= e < class@.len() ==> r@[e] == ids@[#[trigger] class@[e] as int],
{
    let mut r: Vec<StageId> = Vec::new();
    let mut e: usize = 0;
    while e < class.len()
        invariant
            e <= class@.len(),
            forall|x: int| 0 <= x < class@.len() ==> #[trigger] class@[x] < ids@.len(),
            r@.len() == e,
            forall|x: int| 0 <= x < e ==> r@[x] == ids@[#[trigger] class@[x] as int],
        decreases class.len() - e,
    {
        r.push(ids[class[e]]);
        e = e + 1;
    }
    r
}

// ---------------------------------------------------------------------------
// Extracting a cycle
// ---------------------------------------------------------------------------

/// `c` is a cycle over the numbered graph: a closed walk of at least one edge
/// whose nodes repeat only at its two ends.
pub open spec fn idx_cycle(g: Seq<Seq<usize>>, c: Seq<usize>) -> bool {
    &&& c.len() >= 2
    &&& c[0] == c.last()
    &&& c.drop_last().no_duplicates()
    &&& forall|k: int| 0 <= k < c.len() - 1 ==> idx_edge(g, #[trigger] c[k] as int, c[k + 1] as int)
}

/// A successor of `u` from which `t` can be reached, if there is one.
pub fn successor_reaching(g: &Vec<Vec<usize>>, m: &Vec<Vec<bool>>, u: usize, t: usize) -> (r: Option<usize>)
    requires
        graph_wf(g.deep_view()),
        is_reach_matrix(g.deep_view(), m.deep_view()),
        u < g.len(),
        t < g.len(),
    ensures
        match r {
            Some(w) => idx_edge(g.deep_view(), u as int, w as int) && idx_reach(g.deep_view(), w as int, t as int),
            None => forall|w: int| #[trigger] idx_edge(g.deep_view(), u as int, w) ==> !idx_reach(g.deep_view(), w, t as int),
        },
{
    let ghost gv = g.deep_view();
    let ghost mv = m.deep_view();
    let succ = &g[u];
    proof {
        assert(gv[u as int] == succ@);
    }
    let mut k: usize = 0;
    while k < succ.len()
        invariant
            k <= succ@.len(),
            gv == g.deep_view(),
            mv == m.deep_view(),
            gv[u as int] == succ@,
            graph_wf(gv),
            is_reach_matrix(gv, mv),
            u < g.len(),
            t < g.len(),
            gv.len() == g.len(),
            m@.len() == g.len(),
            forall|e: int| 0 <= e < k ==> !idx_reach(gv, #[trigger] succ@[e] as int, t as int),
        decreases succ.len() - k,
    {
        let w = succ[k];
        proof {
            assert(gv[u as int][k as int] == w);
            assert(w < gv.len());
            assert(mv[w as int] == m@[w as int]@);
        }
        if m[w][t] {
            proof {
                assert(gv[u as int].contains(w));
            }
            return Some(w);
        }
        k = k + 1;
    }
    proof {
        assert forall|w: int| #[trigger] idx_edge(gv, u as int, w) implies !idx_reach(gv, w, t as int) by {
            let e = choose|e: int| 0 <= e < gv[u as int].len() && gv[u as int][e] == w as usize;
            assert(succ@[e] as int == w);
        }
    }
    None
}

/// Starting with the edge `i -> w0`, where `w0` leads back to `i`, follows
/// successors that lead back to `i` until a node repeats, and returns the
/// repeated stretch as a cycle.
pub fn cycle_from(g: &Vec<Vec<usize>>, m: &Vec<Vec<bool>>, i: usize, w0: usize) -> (c: Vec<usize>)
    requires
        graph_wf(g.deep_view()),
        is_reach_matrix(g.deep_view(), m.deep_view()),
        i < g.len(),
        idx_edge(g.deep_view(), i as int, w0 as int),
        idx_reach(g.deep_view(), w0 as int, i as int),
    ensures
        idx_cycle(g.deep_view(), c@),
{
    let ghost gv = g.deep_view();
    let n = g.len();
    let mut visited: Vec<bool> = Vec::new();
    let mut x: usize = 0;
    while x < n
        invariant
            x <= n,
            visited@.len() == x,
            forall|y: int| 0 <= y < x ==> !visited@[y],
        decreases n - x,
    {
        visited.push(false);
        x = x + 1;
    }
    visited.set(i, true);
    let mut path: Vec<usize> = Vec::new();
    path.push(i);
    proof {
        assert forall|y: int| 0 <= y < n implies (visited@[y] <==> path@.contains(y as usize)) by {
            if y == i as int {
                assert(path@[0] == i);
            }
            if path@.contains(y as usize) {
                let k = choose|k: int| 0 <= k < path@.len() && path@[k] == y as usize;
                assert(k == 0);
            }
        }
    }
    let mut cur: usize = w0;
    loop
        invariant
            n == g.len(),
            gv == g.deep_view(),
            gv.len() == n,
            graph_wf(gv),
            is_reach_matrix(gv, m.deep_view()),
            i < n,
            path@.len() >= 1,
            path@[0] == i,
            path@.no_duplicates(),
            forall|k: int| 0 <= k < path@.len() ==> #[trigger] path@[k] < n,
            forall|k: int| 0 <= k < path@.len() - 1 ==> idx_edge(gv, #[trigger] path@[k] as int, path@[k + 1] as int),
            idx_edge(gv, path@.last() as int, cur as int),
            idx_reach(gv, cur as int, i as int),
            visited@.len() == n,
            forall|y: int| 0 <= y < n ==> (visited@[y] <==> path@.contains(y as usize)),
        decreases num_false(visited@),
    {
        if visited[cur] {
            let plen = path.len();
            let mut q: usize = 0;
            while path[q] != cur
                invariant
                    plen == path@.len(),
                    q < plen,
                    path@.contains(cur),
                    forall|k: int| 0 <= k < q ==> path@[k] != cur,
                decreases plen - q,
            {
                proof {
                    let k = choose|k: int| 0 <= k < path@.len() && path@[k] == cur;
                    assert(k > q);
                }
                q = q + 1;
            }
            let mut c: Vec<usize> = Vec::new();
            let mut e: usize = q;
            while e < path.len()
                invariant
                    q <= e <= path@.len(),
                    c@ == path@.subrange(q as int, e as int),
                decreases path@.len() - e,
            {
                c.push(path[e]);
                proof {
                    assert(path@.subrange(q as int, e + 1) =~= path@.subrange(q as int, e as int).push(path@[e as int]));
                }
                e = e + 1;
            }
            let ghost body = c@;
            c.push(cur);
            proof {
                assert(body =~= path@.subrange(q as int, path@.len() as int));
                assert(c@.drop_last() =~= body);
                assert forall|a: int, b: int| 0 <= a < body.len() && 0 <= b < body.len() && a != b implies body[a] != body[b] by {
                    assert(body[a] == path@[q + a]);
                    assert(body[b] == path@[q + b]);
                }
                assert(c@[0] == path@[q as int]);
                assert forall|k: int| 0 <= k < c@.len() - 1 implies idx_edge(gv, #[trigger] c@[k] as int, c@[k + 1] as int) by {
                    if k < body.len() - 1 {
                        assert(c@[k] == path@[q + k]);
                        assert(c@[k + 1] == path@[q + k + 1]);
                    } else {
                        assert(c@[k] == path@.last());
                        assert(c@[k + 1] == cur);
                    }
                }
            }
            return c;
        }
        let ghost before = visited@;
        proof {
            assert(cur < n);
            assert(!path@.contains(cur));
            assert(cur != i);
            lemma_num_false_update(before, cur as int);
        }
        let ghost old_path = path@;
        path.push(cur);
        visited.set(cur, true);
        proof {
            assert(path@ == old_path.push(cur));
            assert forall|y: int| 0 <= y < n implies (visited@[y] <==> path@.contains(y as usize)) by {
                if path@.contains(y as usize) {
                    let k = choose|k: int| 0 <= k < path@.len() && path@[k] == y as usize;
                    if k < old_path.len() {
                        assert(old_path[k] == y as usize);
                        assert(old_path.contains(y as usize));
                    }
                }
                if y != cur as int && before[y] {
                    assert(old_path.contains(y as usize));
                    let k = choose|k: int| 0 <= k < old_path.len() && old_path[k] == y as usize;
                    assert(path@[k] == y as usize);
                }
                if y == cur as int {
                    assert(path@[old_path.len() as int] == cur);
                }
            }
            assert forall|k: int| 0 <= k < path@.len() - 1 implies idx_edge(gv, #[trigger] path@[k] as int, path@[k + 1] as int) by {
                if k < path@.len() - 2 {
                    assert(old_path[k] == path@[k]);
                    assert(old_path[k + 1] == path@[k + 1]);
                }
            }
            lemma_idx_reach_first_step(gv, cur as int, i as int);
        }
        match successor_reaching(g, m, cur, i) {
            Some(w) => {
                cur = w;
            },
            None => {
                proof {
                    let w = choose|w: int| idx_edge(gv, cur as int, w) && #[trigger] idx_reach(gv, w, i as int);
                    assert(false);
                }
                return path;
            },
        }
    }
}

// ---------------------------------------------------------------------------
// Longest simple paths
// ---------------------------------------------------------------------------

/// `p` is a walk from `u` with distinct nodes, none of which after the first
/// is marked in `on`.
#[verifier::opaque]
pub open spec fn idx_simple_ext(g: Seq<Seq<usize>>, on: Seq<bool>, u: int, p: Seq<int>) -> bool {
    &&& idx_walk(g, p)
    &&& p[0] == u
    &&& p.no_duplicates()
    &&& forall|k: int| 1 <= k < p.len() ==> !on[#[trigger] p[k]]
}

pub proof fn lemma_num_false_le(s: Seq<bool>)
    ensures
        num_false(s) <= s.len(),
    decreases s.len(),
{
    if s.len() > 0 {
        lemma_num_false_le(s.drop_last());
    }
}

/// Extending the path `[u] + p` by prepending: a simple extension from `w`
/// that avoids `on` and `w` gives one from `u` through `w`.
proof fn lemma_prepend_ext(g: Seq<Seq<usize>>, on: Seq<bool>, u: int, w: int, p: Seq<int>)
    requires
        on.len() == g.len(),
        0 <= u < g.len(),
        on[u],
        !on[w],
        idx_edge(g, u, w),
        idx_simple_ext(g, on.update(w, true), w, p),
    ensures
        idx_simple_ext(g, on, u, seq![u] + p),
        (seq![u] + p).len() == p.len() + 1,
{
    reveal(idx_simple_ext);
    let on1 = on.update(w, true);
    let q = seq![u] + p;
    assert forall|k: int| 0 <= k < q.len() implies 0 <= #[trigger] q[k] < g.len() by {
        if k > 0 {
            assert(q[k] == p[k - 1]);
        }
    }
    assert forall|k: int| 0 <= k < q.len() - 1 implies idx_edge(g, #[trigger] q[k], q[k + 1]) by {
        if k == 0 {
            assert(q[1] == p[0]);
        } else {
            assert(q[k] == p[k - 1]);
            assert(q[k + 1] == p[k]);
        }
    }
    assert forall|k: int| 1 <= k < q.len() implies !on[#[trigger] q[k]] by {
        assert(q[k] == p[k - 1]);
        if k > 1 {
            assert(!on1[p[k - 1]]);
        }
    }
    assert forall|a: int, b: int| 0 <= a < q.len() && 0 <= b < q.len() && a != b implies q[a] != q[b] by {
        if a == 0 && b > 0 {
            assert(q[b] == p[b - 1]);
            if b > 1 {
                assert(!on1[p[b - 1]]);
            }
        } else if b == 0 && a > 0 {
            assert(q[a] == p[a - 1]);
            if a > 1 {
                assert(!on1[p[a - 1]]);
            }
        } else if a > 0 && b > 0 {
            assert(q[a] == p[a - 1]);
            assert(q[b] == p[b - 1]);
        }
    }
}

/// The tail of a simple extension from `u` whose second node is `w` is a
/// simple extension from `w` that avoids `w` too.
proof fn lemma_tail_ext(g: Seq<Seq<usize>>, on: Seq<bool>, u: int, w: int, p: Seq<int>)
    requires
        on.len() == g.len(),
        idx_simple_ext(g, on, u, p),
        p.len() >= 2,
        p[1] == w,
    ensures
        idx_simple_ext(g, on.update(w, true), w, p.drop_first()),
{
    reveal(idx_simple_ext);
    let t = p.drop_first();
    let on1 = on.update(w, true);
    assert forall|k: int| 0 <= k < t.len() implies 0 <= #[trigger] t[k] < g.len() by {
        assert(t[k] == p[k + 1]);
    }
    assert forall|k: int| 0 <= k < t.len() - 1 implies idx_edge(g, #[trigger] t[k], t[k + 1]) by {
        assert(t[k] == p[k + 1]);
        assert(t[k + 1] == p[k + 2]);
    }
    assert forall|k: int| 1 <= k < t.len() implies !on1[#[trigger] t[k]] by {
        assert(t[k] == p[k + 1]);
        assert(!on[p[k + 1]]);
        assert(p[k + 1] != p[1]);
    }
    assert forall|a: int, b: int| 0 <= a < t.len() && 0 <= b < t.len() && a != b implies t[a] != t[b] by {
        assert(t[a] == p[a + 1]);
        assert(t[b] == p[b + 1]);
    }
}

/// What the recursive call on successor `w` yields for `u`.
proof fn lemma_child_result(g: Seq<Seq<usize>>, on: Seq<bool>, u: int, w: int, d: int)
    requires
        on.len() == g.len(),
        0 <= u < g.len(),
        on[u],
        !on[w],
        idx_edge(g, u, w),
        exists|p: Seq<int>| #[trigger] idx_simple_ext(g, on.update(w, true), w, p) && p.len() == d + 1,
        forall|p: Seq<int>| #[trigger] idx_simple_ext(g, on.update(w, true), w, p) ==> p.len() <= d + 1,
    ensures
        exists|p: Seq<int>| #[trigger] idx_simple_ext(g, on, u, p) && p.len() == d + 2,
        forall|p: Seq<int>| #[trigger] idx_simple_ext(g, on, u, p) && p.len() >= 2 && p[1] == w ==> p.len() <= d + 2,
{
    let on1 = on.update(w, true);
    let pw = choose|p: Seq<int>| #[trigger] idx_simple_ext(g, on1, w, p) && p.len() == d + 1;
    lemma_prepend_ext(g, on, u, w, pw);
    assert(idx_simple_ext(g, on, u, seq![u] + pw));
    assert forall|p: Seq<int>| #[trigger] idx_simple_ext(g, on, u, p) && p.len() >= 2 && p[1] == w implies p.len() <= d + 2 by {
        lemma_tail_ext(g, on, u, w, p);
        assert(idx_simple_ext(g, on1, w, p.drop_first()));
    }
}

/// The bound on extensions through the first `e + 1` successors, after
/// handling successor `e`.
proof fn lemma_bound_advance(g: Seq<Seq<usize>>, on: Seq<bool>, u: int, succ: Seq<usize>, e: int, best0: int, best: int)
    requires
        g.len() <= usize::MAX,
        0 <= e < succ.len(),
        best0 <= best,
        forall|p: Seq<int>| #[trigger] idx_simple_ext(g, on, u, p) && p.len() >= 2 && succ.subrange(0, e).contains(p[1] as usize)
            ==> p.len() <= best0 + 1,
        !on[succ[e] as int] ==> forall|p: Seq<int>| #[trigger] idx_simple_ext(g, on, u, p) && p.len() >= 2 && p[1] == succ[e] as int
            ==> p.len() <= best + 1,
    ensures
        forall|p: Seq<int>| #[trigger] idx_simple_ext(g, on, u, p) && p.len() >= 2 && succ.subrange(0, e + 1).contains(p[1] as usize)
            ==> p.len() <= best + 1,
{
    assert forall|p: Seq<int>| #[trigger] idx_simple_ext(g, on, u, p) && p.len() >= 2 && succ.subrange(0, e + 1).contains(p[1] as usize)
        implies p.len() <= best + 1 by {
        reveal(idx_simple_ext);
        let sub = succ.subrange(0, e + 1);
        let j = choose|j: int| 0 <= j < e + 1 && #[trigger] sub[j] == p[1] as usize;
        if j < e {
            assert(succ.subrange(0, e)[j] == p[1] as usize);
            assert(succ.subrange(0, e).contains(p[1] as usize));
        } else {
            assert(p[1] as usize == succ[e]);
            assert(0 <= p[1]);
            assert(p[1] == succ[e] as int);
            assert(!on[p[1]]);
        }
    }
}

/// The length, in edges, of the longest simple extension from `u` that
/// avoids the marked nodes. `on` is restored before returning.
pub fn longest_from(g: &Vec<Vec<usize>>, on: &mut Vec<bool>, u: usize) -> (r: usize)
    requires
        graph_wf(g.deep_view()),
        old(on)@.len() == g.len(),
        u < g.len(),
        old(on)@[u as int],
    ensures
        final(on)@ == old(on)@,
        r <= num_false(old(on)@),
        exists|p: Seq<int>| #[trigger] idx_simple_ext(g.deep_view(), old(on)@, u as int, p) && p.len() == r + 1,
        forall|p: Seq<int>| #[trigger] idx_simple_ext(g.deep_view(), old(on)@, u as int, p) ==> p.len() <= r + 1,
    decreases num_false(old(on)@),
{
    let ghost gv = g.deep_view();
    let ghost on0 = on@;
    let succ = &g[u];
    proof {
        assert(gv[u as int] == succ@);
        let p0 = seq![u as int];
        assert(idx_walk(gv, p0));
        assert(idx_simple_ext(gv, on0, u as int, p0)) by {
            reveal(idx_simple_ext);
        }
    }
    let mut best: usize = 0;
    let mut e: usize = 0;
    while e < succ.len()
        invariant
            gv == g.deep_view(),
            graph_wf(gv),
            gv.len() == g.len(),
            gv[u as int] == succ@,
            u < g.len(),
            on0.len() == g.len(),
            on0[u as int],
            on@ == on0,
            e <= succ@.len(),
            best <= num_false(on0),
            exists|p: Seq<int>| #[trigger] idx_simple_ext(gv, on0, u as int, p) && p.len() == best + 1,
            forall|p: Seq<int>| #[trigger] idx_simple_ext(gv, on0, u as int, p) && p.len() >= 2 && succ@.subrange(0, e as int).contains(p[1] as usize)
                ==> p.len() <= best + 1,
            on0 == old(on)@,
        decreases succ@.len() - e,
    {
        let w = succ[e];
        proof {
            assert(gv[u as int][e as int] == w);
            assert(w < gv.len());
            assert(gv[u as int].contains(w));
        }
        let ghost best0 = best;
        if !on[w] {
            proof {
                lemma_num_false_update(on0, w as int);
            }
            on.set(w, true);
            let ghost on1 = on@;
            proof {
                assert(on1 =~= on0.update(w as int, true));
            }
            let d = longest_from(g, on, w);
            on.set(w, false);
            proof {
                assert(on@ =~= on0);
                lemma_child_result(gv, on0, u as int, w as int, d as int);
                lemma_num_false_le(on0);
            }
            if d + 1 > best {
                best = d + 1;
            }
        }
        proof {
            lemma_bound_advance(gv, on0, u as int, succ@, e as int, best0 as int, best as int);
        }
        e = e + 1;
    }
    proof {
        assert forall|p: Seq<int>| #[trigger] idx_simple_ext(gv, on0, u as int, p) implies p.len() <= best + 1 by {
            reveal(idx_simple_ext);
            if p.len() >= 2 {
                assert(idx_edge(gv, p[0], p[1]));
                assert(gv[u as int].contains(p[1] as usize));
                assert(succ@.subrange(0, succ@.len() as int) =~= succ@);
            }
        }
    }
    best
}

/// No node reachable from `src` lies on a cycle.
pub open spec fn acyclic_from(g: Seq<Seq<usize>>, src: int) -> bool {
    forall|v: int, w: int| idx_reach(g, src, v) && #[trigger] idx_edge(g, v, w) ==> !idx_reach(g, w, v)
}

/// Whether no node reachable from `src` lies on a cycle.
pub fn is_acyclic_from(g: &Vec<Vec<usize>>, m: &Vec<Vec<bool>>, src: usize) -> (r: bool)
    requires
        graph_wf(g.deep_view()),
        is_reach_matrix(g.deep_view(), m.deep_view()),
        src < g.len(),
    ensures
        r == acyclic_from(g.deep_view(), src as int),
{
    let ghost gv = g.deep_view();
    let ghost mv = m.deep_view();
    let n = g.len();
    let mut v: usize = 0;
    while v < n
        invariant
            gv == g.deep_view(),
            mv == m.deep_view(),
            graph_wf(gv),
            is_reach_matrix(gv, mv),
            n == g.len(),
            src < n,
            v <= n,
            forall|a: int, w: int| 0 <= a < v && idx_reach(gv, src as int, a) && #[trigger] idx_edge(gv, a, w)
                ==> !idx_reach(gv, w, a),
        decreases n - v,
    {
        proof {
            assert(mv[src as int] == m@[src as int]@);
        }
        if m[src][v] {
            let succ = &g[v];
            proof {
                assert(gv[v as int] == succ@);
                assert(mv[src as int][v as int]);
            }
            let mut e: usize = 0;
            while e < succ.len()
                invariant
                    gv == g.deep_view(),
                    mv == m.deep_view(),
                    graph_wf(gv),
                    is_reach_matrix(gv, mv),
                    n == g.len(),
                    v < n,
                    src < n,
                    idx_reach(gv, src as int, v as int),
                    gv[v as int] == succ@,
                    e <= succ@.len(),
                    forall|k: int| 0 <= k < e ==> !idx_reach(gv, #[trigger] succ@[k] as int, v as int),
                decreases succ@.len() - e,
            {
                let w = succ[e];
                proof {
                    assert(gv[v as int][e as int] == w);
                    assert(mv[w as int] == m@[w as int]@);
                }
                if m[w][v] {
                    proof {
                        assert(gv[v as int].contains(w));
                        assert(idx_edge(gv, v as int, w as int));
                    }
                    return false;
                }
                e = e + 1;
            }
            proof {
                assert forall|w: int| idx_reach(gv, src as int, v as int) && #[trigger] idx_edge(gv, v as int, w)
                    implies !idx_reach(gv, w, v as int) by {
                    let k = choose|k: int| 0 <= k < succ@.len() && succ@[k] == w as usize;
                    assert(succ@[k] as int == w);
                }
            }
        } else {
            proof {
                assert(!idx_reach(gv, src as int, v as int));
            }
        }
        v = v + 1;
    }
    proof {
        assert forall|a: int, w: int| idx_reach(gv, src as int, a) && #[trigger] idx_edge(gv, a, w)
            implies !idx_reach(gv, w, a) by {
            assert(0 <= a < n);
        }
    }
    true
}

/// The marking of `n` nodes in which only `src` is marked.
pub open spec fn only_marked(n: nat, src: int) -> Seq<bool> {
    Seq::new(n, |y: int| y == src)
}

/// `p` is a walk from `src` that repeats no node.
pub open spec fn src_path(g: Seq<Seq<usize>>, src: int, p: Seq<int>) -> bool {
    &&& idx_walk(g, p)
    &&& p[0] == src
    &&& p.no_duplicates()
}

/// A path of distinct nodes of a graph has at most as many nodes as the
/// graph.
proof fn lemma_path_len_bound(g: Seq<Seq<usize>>, src: int, p: Seq<int>)
    requires
        src_path(g, src, p),
    ensures
        p.len() <= g.len(),
{
    let r = vstd::set_lib::set_int_range(0, g.len() as int);
    vstd::set_lib::lemma_int_range(0, g.len() as int);
    p.unique_seq_to_set();
    assert(p.to_set().subset_of(r)) by {
        assert forall|x: int| p.to_set().contains(x) implies r.contains(x) by {
            let k = choose|k: int| 0 <= k < p.len() && p[k] == x;
        }
    }
    vstd::set_lib::lemma_len_subset(p.to_set(), r);
}

/// A node of a walk reaches the walk's last node.
proof fn lemma_walk_suffix_reach(g: Seq<Seq<usize>>, p: Seq<int>, j: int)
    requires
        idx_walk(g, p),
        0 <= j < p.len(),
    ensures
        idx_reach(g, p[j], p.last()),
{
    let q = p.subrange(j, p.len() as int);
    assert forall|k: int| 0 <= k < q.len() implies 0 <= #[trigger] q[k] < g.len() by {
        assert(q[k] == p[j + k]);
    }
    assert forall|k: int| 0 <= k < q.len() - 1 implies idx_edge(g, #[trigger] q[k], q[k + 1]) by {
        assert(q[k] == p[j + k]);
        assert(q[k + 1] == p[j + k + 1]);
    }
    assert(idx_walk(g, q));
    assert(q.last() == p.last());
}

/// Extending a path from `src` by an edge out of its last node keeps it a
/// path when no node reachable from `src` lies on a cycle.
proof fn lemma_extend_src_path(g: Seq<Seq<usize>>, src: int, p: Seq<int>, w: int)
    requires
        acyclic_from(g, src),
        src_path(g, src, p),
        idx_edge(g, p.last(), w),
    ensures
        src_path(g, src, p.push(w)),
{
    let q = p.push(w);
    lemma_walk_suffix_reach(g, p, 0);
    assert(idx_reach(g, src, p.last()));
    assert forall|j: int| 0 <= j < p.len() implies p[j] != w by {
        if p[j] == w {
            lemma_walk_suffix_reach(g, p, j);
            assert(idx_reach(g, w, p.last()));
        }
    }
    assert forall|k: int| 0 <= k < q.len() implies 0 <= #[trigger] q[k] < g.len() by {
        if k < p.len() {
            assert(q[k] == p[k]);
        }
    }
    assert forall|k: int| 0 <= k < q.len() - 1 implies idx_edge(g, #[trigger] q[k], q[k + 1]) by {
        if k < p.len() - 1 {
            assert(q[k] == p[k] && q[k + 1] == p[k + 1]);
        } else {
            assert(q[k] == p.last());
        }
    }
    assert forall|a: int, b: int| 0 <= a < q.len() && 0 <= b < q.len() && a != b implies q[a] != q[b] by {
        if a < p.len() && b < p.len() {
            assert(q[a] == p[a] && q[b] == p[b]);
        } else if a < p.len() {
            assert(q[a] == p[a]);
        } else if b < p.len() {
            assert(q[b] == p[b]);
        }
    }
}

/// The prefix of a path without its last node is a path.
proof fn lemma_src_path_prefix(g: Seq<Seq<usize>>, src: int, p: Seq<int>)
    requires
        src_path(g, src, p),
        p.len() >= 2,
    ensures
        src_path(g, src, p.drop_last()),
        idx_edge(g, p.drop_last().last(), p.last()),
{
    let q = p.drop_last();
    assert forall|k: int| 0 <= k < q.len() implies 0 <= #[trigger] q[k] < g.len() by {
        assert(q[k] == p[k]);
    }
    assert forall|k: int| 0 <= k < q.len() - 1 implies idx_edge(g, #[trigger] q[k], q[k + 1]) by {
        assert(q[k] == p[k] && q[k + 1] == p[k + 1]);
    }
    assert(idx_edge(g, p[p.len() - 2], p[p.len() - 1]));
}

/// The paths from `src` are its simple extensions with only `src` marked.
proof fn lemma_src_path_is_ext(g: Seq<Seq<usize>>, src: int, p: Seq<int>)
    requires
        0 <= src < g.len(),
    ensures
        src_path(g, src, p) <==> idx_simple_ext(g, only_marked(g.len(), src), src, p),
{
    reveal(idx_simple_ext);
    let on = only_marked(g.len(), src);
    if src_path(g, src, p) {
        assert forall|k: int| 1 <= k < p.len() implies !on[#[trigger] p[k]] by {
            assert(p[k] != p[0]);
        }
    }
}

/// Facts the relaxation keeps about `reached` and `dist`: every reached node
/// is the end of a path from `src` with `dist` edges.
spec fn dist_sound(g: Seq<Seq<usize>>, src: int, reached: Seq<bool>, dist: Seq<usize>) -> bool {
    &&& reached.len() == g.len()
    &&& dist.len() == g.len()
    &&& forall|v: int| 0 <= v < g.len() && #[trigger] reached[v] ==>
        exists|p: Seq<int>| #[trigger] src_path(g, src, p) && p.last() == v && p.len() == dist[v] + 1
}

/// Every path from `src` with at most `r + 1` nodes ends at a reached node
/// whose `dist` is at least its number of edges.
spec fn dist_covers(g: Seq<Seq<usize>>, src: int, reached: Seq<bool>, dist: Seq<usize>, r: int) -> bool {
    forall|p: Seq<int>| #[trigger] src_path(g, src, p) && p.len() <= r + 1 ==>
        reached[p.last()] && dist[p.last()] >= p.len() - 1
}

/// The length, in edges, of the longest path from `src`, when no node
/// reachable from `src` lies on a cycle (every walk from `src` is then a
/// path). Runs in polynomial time: `g.len()` rounds of relaxation.
pub fn longest_from_acyclic(g: &Vec<Vec<usize>>, src: usize) -> (r: usize)
    requires
        graph_wf(g.deep_view()),
        src < g.len(),
        acyclic_from(g.deep_view(), src as int),
    ensures
        exists|p: Seq<int>| #[trigger] idx_simple_ext(g.deep_view(), only_marked(g.len() as nat, src as int), src as int, p)
            && p.len() == r + 1,
        forall|p: Seq<int>| #[trigger] idx_simple_ext(g.deep_view(), only_marked(g.len() as nat, src as int), src as int, p)
            ==> p.len() <= r + 1,
{
    let ghost gv = g.deep_view();
    let ghost s = src as int;
    let n = g.len();
    let mut reached: Vec<bool> = Vec::new();
    let mut dist: Vec<usize> = Vec::new();
    let mut x: usize = 0;
    while x < n
        invariant
            s == src as int,
            x <= n,
            reached@.len() == x,
            dist@.len() == x,
            forall|y: int| 0 <= y < x ==> reached@[y] == (y == s),
            forall|y: int| 0 <= y < x ==> dist@[y] == 0,
        decreases n - x,
    {
        reached.push(x == src);
        dist.push(0);
        x = x + 1;
    }
    proof {
        let p0 = seq![s];
        assert(idx_walk(gv, p0));
        assert(src_path(gv, s, p0));
        assert(dist_sound(gv, s, reached@, dist@));
        assert forall|p: Seq<int>| #[trigger] src_path(gv, s, p) && p.len() <= 1 implies
            reached@[p.last()] && dist@[p.last()] >= p.len() - 1 by {
            assert(p.last() == s);
        }
    }
    let mut round: usize = 0;
    while round < n
        invariant
            gv == g.deep_view(),
            graph_wf(gv),
            n == g.len(),
            s == src as int,
            src < n,
            acyclic_from(gv, s),
            round <= n,
            dist_sound(gv, s, reached@, dist@),
            dist_covers(gv, s, reached@, dist@, round as int),
        decreases n - round,
    {
        let ghost r0 = reached@;
        let ghost d0 = dist@;
        let mut u: usize = 0;
        while u < n
            invariant
                gv == g.deep_view(),
                graph_wf(gv),
                n == g.len(),
                s == src as int,
                acyclic_from(gv, s),
                u <= n,
                r0.len() == n,
                d0.len() == n,
                dist_sound(gv, s, reached@, dist@),
                forall|v: int| 0 <= v < n && #[trigger] r0[v] ==> reached@[v] && dist@[v] >= d0[v],
                forall|a: int, w: int| 0 <= a < u && r0[a] && #[trigger] idx_edge(gv, a, w) ==>
                    reached@[w] && dist@[w] >= d0[a] + 1,
            decreases n - u,
        {
            if reached[u] {
                let du = dist[u];
                let succ = &g[u];
                proof {
                    assert(gv[u as int] == succ@);
                    let pu = choose|p: Seq<int>| #[trigger] src_path(gv, s, p) && p.last() == u as int && p.len() == du + 1;
                    lemma_path_len_bound(gv, s, pu);
                }
                let mut e: usize = 0;
                while e < succ.len()
                    invariant
                        gv == g.deep_view(),
                        graph_wf(gv),
                        n == g.len(),
                        s == src as int,
                        acyclic_from(gv, s),
                        u < n,
                        gv[u as int] == succ@,
                        reached@[u as int],
                        du == dist@[u as int],
                        du < n,
                        r0.len() == n,
                        d0.len() == n,
                        r0[u as int] ==> du >= d0[u as int],
                        e <= succ@.len(),
                        dist_sound(gv, s, reached@, dist@),
                        forall|v: int| 0 <= v < n && #[trigger] r0[v] ==> reached@[v] && dist@[v] >= d0[v],
                        forall|a: int, w: int| 0 <= a < u && r0[a] && #[trigger] idx_edge(gv, a, w) ==>
                            reached@[w] && dist@[w] >= d0[a] + 1,
                        forall|k: int| 0 <= k < e ==> reached@[#[trigger] succ@[k] as int] && dist@[succ@[k] as int] >= du + 1,
                    decreases succ@.len() - e,
                {
                    let w = succ[e];
                    proof {
                        assert(gv[u as int][e as int] == w);
                        assert(w < n);
                        assert(gv[u as int].contains(w));
                        assert(idx_edge(gv, u as int, w as int));
                    }
                    if !reached[w] || dist[w] < du + 1 {
                        proof {
                            let pu = choose|p: Seq<int>| #[trigger] src_path(gv, s, p) && p.last() == u as int && p.len() == du + 1;
                            lemma_extend_src_path(gv, s, pu, w as int);
                            let pw = pu.push(w as int);
                            assert(pw.last() == w as int);
                            if w == u {
                                assert(false) by {
                                    lemma_walk_suffix_reach(gv, pu, 0);
                                    lemma_idx_reach_refl(gv, u as int);
                                }
                            }
                        }
                        let ghost pre_r = reached@;
                        let ghost pre_d = dist@;
                        reached.set(w, true);
                        dist.set(w, du + 1);
                        proof {
                            let pu = choose|p: Seq<int>| #[trigger] src_path(gv, s, p) && p.last() == u as int && p.len() == du + 1;
                            let pw = pu.push(w as int);
                            assert(src_path(gv, s, pw));
                            assert forall|v: int| 0 <= v < gv.len() && #[trigger] reached@[v] implies
                                exists|p: Seq<int>| #[trigger] src_path(gv, s, p) && p.last() == v && p.len() == dist@[v] + 1 by {
                                if v == w as int {
                                    assert(src_path(gv, s, pw) && pw.last() == v && pw.len() == dist@[v] + 1);
                                } else {
                                    assert(pre_r[v]);
                                }
                            }
                        }
                    }
                    e = e + 1;
                }
                proof {
                    assert forall|a: int, w: int| 0 <= a < u + 1 && r0[a] && #[trigger] idx_edge(gv, a, w) implies
                        reached@[w] && dist@[w] >= d0[a] + 1 by {
                        if a == u as int {
                            let k = choose|k: int| 0 <= k < succ@.len() && succ@[k] == w as usize;
                            assert(succ@[k] as int == w);
                        }
                    }
                }
            } else {
                proof {
                    assert(!r0[u as int]);
                }
            }
            u = u + 1;
        }
        proof {
            assert forall|p: Seq<int>| #[trigger] src_path(gv, s, p) && p.len() <= round + 2 implies
                reached@[p.last()] && dist@[p.last()] >= p.len() - 1 by {
                if p.len() <= round + 1 {
                    assert(r0[p.last()] && d0[p.last()] >= p.len() - 1);
                } else {
                    lemma_src_path_prefix(gv, s, p);
                    let q = p.drop_last();
                    assert(src_path(gv, s, q) && q.len() <= round + 1);
                    assert(r0[q.last()] && d0[q.last()] >= q.len() - 1);
                    assert(idx_edge(gv, q.last(), p.last()));
                }
            }
        }
        round = round + 1;
    }
    // the answer is the largest distance found
    let mut best: usize = 0;
    let mut v: usize = 0;
    proof {
        let p0 = seq![s];
        assert(idx_walk(gv, p0));
        assert(src_path(gv, s, p0));
    }
    while v < n
        invariant
            gv == g.deep_view(),
            n == g.len(),
            s == src as int,
            src < n,
            v <= n,
            dist_sound(gv, s, reached@, dist@),
            forall|y: int| 0 <= y < v && #[trigger] reached@[y] ==> dist@[y] <= best,
            exists|p: Seq<int>| #[trigger] src_path(gv, s, p) && p.len() == best + 1,
        decreases n - v,
    {
        if reached[v] && dist[v] > best {
            proof {
                let pv = choose|p: Seq<int>| #[trigger] src_path(gv, s, p) && p.last() == v as int && p.len() == dist@[v as int] + 1;
                assert(src_path(gv, s, pv) && pv.len() == dist@[v as int] + 1);
            }
            best = dist[v];
        }
        v = v + 1;
    }
    proof {
        let on = only_marked(n as nat, s);
        let pb = choose|p: Seq<int>| #[trigger] src_path(gv, s, p) && p.len() == best + 1;
        lemma_src_path_is_ext(gv, s, pb);
        assert(idx_simple_ext(gv, on, s, pb));
        assert forall|p: Seq<int>| #[trigger] idx_simple_ext(gv, on, s, p) implies p.len() <= best + 1 by {
            lemma_src_path_is_ext(gv, s, p);
            lemma_path_len_bound(gv, s, p);
            assert(dist_covers(gv, s, reached@, dist@, n as int));
            assert(reached@[p.last()] && dist@[p.last()] >= p.len() - 1);
            assert(0 <= p.last() < n);
        }
    }
    best
}

} // verus!
