//! Properties of the level order that hold for every task graph.

use vstd::prelude::*;

use crate::swarm::graph_model::{
    candidates, edge, in_level, is_level_order, is_ready, is_walk, lemma_ready_mono_to,
    lemma_universe_finite, model_wf, reaches_cycle, step_ok, universe, GraphModel,
};

verus! {

/// In a level order, a task and everything it depends on are scheduled in
/// that order: the source of an edge sits in a strictly earlier level than
/// its target.
pub proof fn lemma_levels_respect_edges(
    g: GraphModel,
    levels: Seq<Seq<u128>>,
    i: int,
    j: int,
    u: u128,
    v: u128,
)
    requires
        is_level_order(g, levels),
        0 <= i < levels.len(),
        0 <= j < levels.len(),
        levels[i].contains(u),
        levels[j].contains(v),
        edge(g, u, v),
    ensures
        i < j,
{
    assert(in_level(g, i as nat, u));
    assert(in_level(g, j as nat, v));
    assert(j > 0 && is_ready(g, (j - 1) as nat, u));
    if i >= j {
        lemma_ready_mono_to(g, (j - 1) as nat, (i - 1) as nat, u);
    }
}

/// No vertex is scheduled in two levels.
pub proof fn lemma_levels_disjoint(g: GraphModel, levels: Seq<Seq<u128>>, i: int, j: int, v: u128)
    requires
        is_level_order(g, levels),
        0 <= i < j < levels.len(),
        levels[i].contains(v),
    ensures
        !levels[j].contains(v),
{
    assert(in_level(g, i as nat, v));
    lemma_ready_mono_to(g, i as nat, (j - 1) as nat, v);
}

/// A vertex of level `k + 1` has a predecessor in level `k`; a vertex of
/// level 0 has none. With `lemma_levels_respect_edges` this makes the level
/// of a vertex one more than the latest level among its predecessors.
pub proof fn lemma_level_predecessor(g: GraphModel, k: nat, v: u128)
    ensures
        in_level(g, k + 1, v) ==> exists|u: u128| #[trigger] edge(g, u, v) && in_level(g, k, u),
        in_level(g, 0, v) == (candidates(g).contains(v) && forall|u: u128| !#[trigger] edge(g, u, v)),
{
    if in_level(g, k + 1, v) {
        assert(!is_ready(g, k, v));
        assert(candidates(g).contains(v));
        let u = choose|u: u128| #[trigger] edge(g, u, v) && !(k > 0 && is_ready(g, (k - 1) as nat, u));
        assert(is_ready(g, k, u));
        assert(in_level(g, k, u));
    }
    if candidates(g).contains(v) && forall|u: u128| !#[trigger] edge(g, u, v) {
        assert(is_ready(g, 0, v));
    }
}

/// The same stated over a level order: each vertex of a later level has a
/// predecessor in the level just before it.
pub proof fn lemma_levels_predecessor(g: GraphModel, levels: Seq<Seq<u128>>, j: int, v: u128)
    requires
        is_level_order(g, levels),
        0 < j < levels.len(),
        levels[j].contains(v),
    ensures
        exists|u: u128| #[trigger] edge(g, u, v) && levels[j - 1].contains(u),
{
    lemma_level_predecessor(g, (j - 1) as nat, v);
    assert(in_level(g, j as nat, v));
    let u = choose|u: u128| #[trigger] edge(g, u, v) && in_level(g, (j - 1) as nat, u);
    assert(levels[j - 1].contains(u));
}

/// Behind a vertex of level `j` lies a walk through one vertex of each
/// level `0..=j`.
pub proof fn lemma_level_chain(g: GraphModel, levels: Seq<Seq<u128>>, j: int, v: u128) -> (p: Seq<u128>)
    requires
        is_level_order(g, levels),
        0 <= j < levels.len(),
        levels[j].contains(v),
    ensures
        is_walk(g, p),
        p.len() == j + 1,
        p.last() == v,
        forall|t: int| 0 <= t <= j ==> levels[t].contains(#[trigger] p[t]),
    decreases j,
{
    if j == 0 {
        seq![v]
    } else {
        lemma_levels_predecessor(g, levels, j, v);
        let u = choose|u: u128| #[trigger] edge(g, u, v) && levels[j - 1].contains(u);
        let q = lemma_level_chain(g, levels, j - 1, u);
        let p = q.push(v);
        assert forall|k: int| 0 <= k < p.len() - 1 implies #[trigger] step_ok(g, p, k) by {
            if k < q.len() - 1 {
                assert(step_ok(g, q, k));
            }
        }
        assert forall|t: int| 0 <= t <= j implies levels[t].contains(#[trigger] p[t]) by {
            if t < j {
                assert(p[t] == q[t]);
            }
        }
        p
    }
}

/// A walk through scheduled vertices has at most as many vertices as there
/// are levels; with `lemma_level_chain`, the number of levels is the number
/// of vertices on a longest such walk.
pub proof fn lemma_scheduled_walk_bound(g: GraphModel, levels: Seq<Seq<u128>>, p: Seq<u128>, lv: Seq<int>)
    requires
        is_level_order(g, levels),
        is_walk(g, p),
        lv.len() == p.len(),
        forall|t: int| 0 <= t < p.len() ==> 0 <= #[trigger] lv[t] < levels.len() && levels[lv[t]].contains(p[t]),
    ensures
        p.len() <= levels.len(),
{
    assert forall|t: int| 0 <= t < p.len() implies #[trigger] lv[t] >= t by {
        lemma_levels_increase(g, levels, p, lv, t);
    }
    assert(lv[p.len() - 1] >= p.len() - 1);
}

proof fn lemma_levels_increase(g: GraphModel, levels: Seq<Seq<u128>>, p: Seq<u128>, lv: Seq<int>, t: int)
    requires
        is_level_order(g, levels),
        is_walk(g, p),
        lv.len() == p.len(),
        forall|s: int| 0 <= s < p.len() ==> 0 <= #[trigger] lv[s] < levels.len() && levels[lv[s]].contains(p[s]),
        0 <= t < p.len(),
    ensures
        lv[t] >= t,
    decreases t,
{
    if t > 0 {
        lemma_levels_increase(g, levels, p, lv, t - 1);
        assert(step_ok(g, p, t - 1));
        lemma_levels_respect_edges(g, levels, lv[t - 1], lv[t], p[t - 1], p[t]);
    }
}

/// Every edge leaves a node of the graph (as in graphs built from tasks).
pub open spec fn sources_are_nodes(g: GraphModel) -> bool {
    forall|u: u128, v: u128| #[trigger] edge(g, u, v) ==> g.nodes.contains(u)
}

/// Every walk that ends at `v` has at most `b` vertices.
pub open spec fn walks_into_bounded(g: GraphModel, v: u128, b: nat) -> bool {
    forall|p: Seq<u128>| #[trigger] is_walk(g, p) && p.last() == v ==> p.len() <= b
}

/// A vertex into which every walk has at most `k + 1` vertices is ready at `k`.
proof fn lemma_ready_if_bounded(g: GraphModel, k: nat, v: u128)
    requires
        candidates(g).contains(v),
        sources_are_nodes(g),
        walks_into_bounded(g, v, k + 1),
    ensures
        is_ready(g, k, v),
    decreases k,
{
    assert forall|u: u128| #[trigger] edge(g, u, v) implies (k > 0 && is_ready(g, (k - 1) as nat, u)) by {
        let two = seq![u, v];
        assert(step_ok(g, two, 0));
        assert(is_walk(g, two));
        assert(two.last() == v);
        assert(k > 0);
        assert(g.nodes.contains(u));
        assert(candidates(g).contains(u)) by {
            assert(g.nodes.to_set().contains(u));
        }
        assert forall|q: Seq<u128>| #[trigger] is_walk(g, q) && q.last() == u implies q.len() <= k by {
            let r = q.push(v);
            assert forall|t: int| 0 <= t < r.len() - 1 implies #[trigger] step_ok(g, r, t) by {
                if t < q.len() - 1 {
                    assert(step_ok(g, q, t));
                } else {
                    assert(r[t] == u);
                }
            }
            assert(is_walk(g, r));
            assert(r.last() == v);
        }
        lemma_ready_if_bounded(g, (k - 1) as nat, u);
    }
}

/// Once a level is empty, nothing becomes ready later on.
proof fn lemma_stable_after_empty_level(g: GraphModel, n: nat, m: nat, w: u128)
    requires
        forall|x: u128| !in_level(g, n, x),
        n <= m,
        is_ready(g, m, w),
    ensures
        n > 0 && is_ready(g, (n - 1) as nat, w),
    decreases m,
{
    if m == n {
        assert(!in_level(g, n, w));
    } else {
        assert forall|u: u128| #[trigger] edge(g, u, w) implies (n > 0 && is_ready(g, (n - 1) as nat, u)) by {
            assert((m - 1) as nat >= n);
            lemma_stable_after_empty_level(g, n, (m - 1) as nat, u);
        }
        if n == 0 {
            assert(is_ready(g, 0, w));
            assert(in_level(g, 0, w));
        } else {
            assert(is_ready(g, n, w));
            assert(!in_level(g, n, w));
        }
    }
}

/// A ready vertex has a first level.
proof fn lemma_first_level(g: GraphModel, m: nat, v: u128) -> (j: nat)
    requires
        is_ready(g, m, v),
    ensures
        j <= m,
        in_level(g, j, v),
    decreases m,
{
    if m > 0 && is_ready(g, (m - 1) as nat, v) {
        lemma_first_level(g, (m - 1) as nat, v)
    } else {
        m
    }
}

/// Every walk that ends at `v` visits each vertex at most once: no vertex
/// on a cycle leads to `v`.
pub open spec fn no_cycle_behind(g: GraphModel, v: u128) -> bool {
    forall|p: Seq<u128>| #[trigger] is_walk(g, p) && p.last() == v ==> p.no_duplicates()
}

/// A vertex with no cycle behind it is scheduled.
proof fn lemma_cover_without_cycle_behind(g: GraphModel, levels: Seq<Seq<u128>>, v: u128)
    requires
        model_wf(g),
        sources_are_nodes(g),
        is_level_order(g, levels),
        candidates(g).contains(v),
        no_cycle_behind(g, v),
    ensures
        exists|j: int| 0 <= j < levels.len() && #[trigger] levels[j].contains(v),
{
    let u = universe(g);
    lemma_universe_finite(g);
    assert(u.contains(v));
    assert(u.len() >= 1) by {
        vstd::set_lib::lemma_len_subset(set![v], u);
    }
    let bound = u.len();
    assert(walks_into_bounded(g, v, bound)) by {
        assert forall|p: Seq<u128>| #[trigger] is_walk(g, p) && p.last() == v implies p.len() <= bound by {
            if p.len() >= 2 {
                assert(p.no_duplicates());
                assert forall|t: int| 0 <= t < p.len() implies #[trigger] u.contains(p[t]) by {
                    if t < p.len() - 1 {
                        assert(step_ok(g, p, t));
                        assert(g.adj.dom().contains(p[t]));
                    } else {
                        assert(step_ok(g, p, t - 1));
                        assert(g.adj.contains_key(p[t - 1]) && g.adj[p[t - 1]].contains(p[t]));
                    }
                }
                assert(p.to_set().subset_of(u));
                p.unique_seq_to_set();
                vstd::set_lib::lemma_len_subset(p.to_set(), u);
            }
        }
    }
    lemma_ready_if_bounded(g, (bound - 1) as nat, v);
    let j = lemma_first_level(g, (bound - 1) as nat, v);
    if j >= levels.len() {
        lemma_stable_after_empty_level(g, levels.len(), j, v);
        lemma_ready_mono_to(g, (levels.len() - 1) as nat, (j - 1) as nat, v);
    }
    assert(levels[j as int].contains(v));
}

/// When no cycle can be reached from the tasks and every edge leaves a
/// task, the level order schedules every task and every edge target.
pub proof fn lemma_acyclic_levels_cover(g: GraphModel, levels: Seq<Seq<u128>>, v: u128)
    requires
        model_wf(g),
        sources_are_nodes(g),
        !reaches_cycle(g),
        is_level_order(g, levels),
        candidates(g).contains(v),
    ensures
        exists|j: int| 0 <= j < levels.len() && #[trigger] levels[j].contains(v),
{
    assert forall|p: Seq<u128>| #[trigger] is_walk(g, p) && p.last() == v implies p.no_duplicates() by {
        if p.len() >= 2 {
            assert(step_ok(g, p, 0));
            assert(g.nodes.contains(p[0]));
        }
    }
    lemma_cover_without_cycle_behind(g, levels, v);
}

/// A walk into a vertex that is ready at `k` has at most `k + 1` vertices.
proof fn lemma_ready_bounds_walks(g: GraphModel, k: nat, p: Seq<u128>)
    requires
        is_walk(g, p),
        is_ready(g, k, p.last()),
    ensures
        p.len() <= k + 1,
    decreases p.len(),
{
    if p.len() >= 2 {
        let q = p.drop_last();
        assert(step_ok(g, p, p.len() - 2));
        assert(edge(g, q.last(), p.last()));
        assert(k > 0 && is_ready(g, (k - 1) as nat, q.last()));
        assert forall|t: int| 0 <= t < q.len() - 1 implies #[trigger] step_ok(g, q, t) by {
            assert(step_ok(g, p, t));
        }
        lemma_ready_bounds_walks(g, (k - 1) as nat, q);
    }
}

/// A walk that repeats a vertex can be made as long as wanted, keeping its
/// last vertex.
proof fn lemma_pump(g: GraphModel, p: Seq<u128>, m: nat) -> (q: Seq<u128>)
    requires
        is_walk(g, p),
        !p.no_duplicates(),
    ensures
        is_walk(g, q),
        !q.no_duplicates(),
        q.last() == p.last(),
        q.len() >= m,
    decreases m - p.len(),
{
    if p.len() >= m {
        p
    } else {
        let (a0, b0) = choose|a: int, b: int| 0 <= a < p.len() && 0 <= b < p.len() && a != b && p[a] == p[b];
        let (a, b) = if a0 < b0 { (a0, b0) } else { (b0, a0) };
        let r = p.take(b) + p.skip(a);
        assert(r[b] == p[a]);
        assert(r[a] == p[a]);
        assert forall|k: int| 0 <= k < r.len() - 1 implies #[trigger] step_ok(g, r, k) by {
            if k < b - 1 {
                assert(step_ok(g, p, k));
            } else if k == b - 1 {
                assert(step_ok(g, p, b - 1));
                assert(r[k + 1] == p[a]);
            } else {
                assert(step_ok(g, p, k - b + a));
                assert(r[k] == p[k - b + a]);
                assert(r[k + 1] == p[k + 1 - b + a]);
            }
        }
        assert(r.last() == p.last());
        assert(r.len() == p.len() + b - a);
        assert(!r.no_duplicates());
        if r.len() >= m {
            r
        } else {
            lemma_pump(g, r, m)
        }
    }
}

/// In any graph whose edges leave nodes, a candidate is scheduled exactly
/// when no vertex on a cycle leads to it: vertices on or behind a cycle are
/// left out, all others are placed.
pub proof fn lemma_scheduled_iff_no_cycle_behind(g: GraphModel, levels: Seq<Seq<u128>>, v: u128)
    requires
        model_wf(g),
        sources_are_nodes(g),
        is_level_order(g, levels),
        candidates(g).contains(v),
    ensures
        (exists|j: int| 0 <= j < levels.len() && #[trigger] levels[j].contains(v)) == no_cycle_behind(g, v),
{
    if no_cycle_behind(g, v) {
        lemma_cover_without_cycle_behind(g, levels, v);
    }
    if exists|j: int| 0 <= j < levels.len() && #[trigger] levels[j].contains(v) {
        let j = choose|j: int| 0 <= j < levels.len() && #[trigger] levels[j].contains(v);
        assert(in_level(g, j as nat, v));
        assert forall|p: Seq<u128>| #[trigger] is_walk(g, p) && p.last() == v implies p.no_duplicates() by {
            if !p.no_duplicates() {
                let q = lemma_pump(g, p, (j + 2) as nat);
                lemma_ready_bounds_walks(g, j as nat, q);
            }
        }
    }
}

/// When a cycle can be reached from the nodes, some node (one on that
/// cycle) is left out of every level.
pub proof fn lemma_cycle_leaves_node_out(g: GraphModel, levels: Seq<Seq<u128>>)
    requires
        model_wf(g),
        sources_are_nodes(g),
        is_level_order(g, levels),
        reaches_cycle(g),
    ensures
        exists|n: u128| g.nodes.contains(n) && forall|j: int| 0 <= j < levels.len() ==> !#[trigger] levels[j].contains(n),
{
    let p = choose|p: Seq<u128>| #[trigger] is_walk(g, p) && g.nodes.contains(p[0]) && !p.no_duplicates();
    let (a0, b0) = choose|a: int, b: int| 0 <= a < p.len() && 0 <= b < p.len() && a != b && p[a] == p[b];
    let (a, b) = if a0 < b0 { (a0, b0) } else { (b0, a0) };
    let q = p.take(b + 1);
    assert forall|k: int| 0 <= k < q.len() - 1 implies #[trigger] step_ok(g, q, k) by {
        assert(step_ok(g, p, k));
    }
    assert(q[a] == q[b]);
    assert(!q.no_duplicates());
    let n = p[a];
    assert(step_ok(g, p, a));
    assert(g.nodes.contains(n));
    assert(g.nodes.to_set().contains(n));
    assert(!no_cycle_behind(g, n)) by {
        assert(is_walk(g, q) && q.last() == n);
    }
    lemma_scheduled_iff_no_cycle_behind(g, levels, n);
}

} // verus!
