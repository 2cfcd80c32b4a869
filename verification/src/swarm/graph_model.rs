//! The mathematical model of a task dependency graph: its nodes in the
//! order they were added, and for each source vertex the list of the
//! targets of its edges (with repetitions, in insertion order).

use vstd::prelude::*;

verus! {

/// Abstract value of a task graph.
pub struct GraphModel {
    pub nodes: Seq<u128>,
    pub adj: Map<u128, Seq<u128>>,
}

/// The shape every task graph keeps: distinct nodes, each with an edge
/// list, and finitely many edge lists.
pub open spec fn model_wf(g: GraphModel) -> bool {
    &&& g.nodes.no_duplicates()
    &&& forall|n: u128| g.nodes.contains(n) ==> #[trigger] g.adj.contains_key(n)
    &&& g.adj.dom().finite()
}

/// The targets recorded for `u`, or nothing when `u` has no entry.
pub open spec fn targets_of(g: GraphModel, u: u128) -> Seq<u128> {
    if g.adj.contains_key(u) {
        g.adj[u]
    } else {
        Seq::empty()
    }
}

/// The graph after `add_node(id)`: a new id is appended and given an empty
/// edge list (replacing any list it had); a known id changes nothing.
pub open spec fn add_node_model(g: GraphModel, id: u128) -> GraphModel {
    if g.nodes.contains(id) {
        g
    } else {
        GraphModel { nodes: g.nodes.push(id), adj: g.adj.insert(id, Seq::empty()) }
    }
}

/// The graph after `add_edge(from, to)`: `to` is appended to the edge list of `from`.
pub open spec fn add_edge_model(g: GraphModel, from: u128, to: u128) -> GraphModel {
    GraphModel { nodes: g.nodes, adj: g.adj.insert(from, targets_of(g, from).push(to)) }
}

/// There is an edge from `u` to `v`.
pub open spec fn edge(g: GraphModel, u: u128, v: u128) -> bool {
    g.adj.contains_key(u) && g.adj[u].contains(v)
}

/// Step `i` of `p` follows an edge.
pub open spec fn step_ok(g: GraphModel, p: Seq<u128>, i: int) -> bool {
    edge(g, p[i], p[i + 1])
}

/// `p` is a non-empty walk along edges of `g`.
pub open spec fn is_walk(g: GraphModel, p: Seq<u128>) -> bool {
    &&& p.len() >= 1
    &&& forall|i: int| 0 <= i < p.len() - 1 ==> #[trigger] step_ok(g, p, i)
}

/// Every walk that starts at `v` visits each vertex at most once, i.e. no
/// cycle can be reached from `v`.
pub open spec fn safe(g: GraphModel, v: u128) -> bool {
    forall|p: Seq<u128>| #[trigger] is_walk(g, p) && p[0] == v ==> p.no_duplicates()
}

/// Some walk that starts at a node of `g` comes back to a vertex it has
/// already visited: a dependency cycle is reachable from the nodes.
pub open spec fn reaches_cycle(g: GraphModel) -> bool {
    exists|p: Seq<u128>| #[trigger] is_walk(g, p) && g.nodes.contains(p[0]) && !p.no_duplicates()
}

/// There is a walk from `x` to `w` (every vertex reaches itself).
pub open spec fn reachable(g: GraphModel, x: u128, w: u128) -> bool {
    exists|p: Seq<u128>| #[trigger] is_walk(g, p) && p[0] == x && p.last() == w
}

/// The vertices reachable from `x`.
pub open spec fn reach_set(g: GraphModel, x: u128) -> Set<u128> {
    Set::new(|w: u128| reachable(g, x, w))
}

/// Some walk from `x` visits a vertex twice or meets a vertex of `t`.
pub open spec fn hits(g: GraphModel, x: u128, t: Set<u128>) -> bool {
    exists|p: Seq<u128>|
        #[trigger] is_walk(g, p) && p[0] == x && (!p.no_duplicates() || exists|i: int|
            0 <= i < p.len() && t.contains(p[i]))
}

/// A depth-first search state: the finished vertices `perm` are closed
/// under edges, share nothing with the current path `temp`, and reach no
/// cycle.
pub open spec fn finished_state(g: GraphModel, perm: Set<u128>, t: Set<u128>) -> bool {
    &&& forall|u: u128, w: u128| perm.contains(u) && #[trigger] edge(g, u, w) ==> perm.contains(w)
    &&& forall|v: u128| perm.contains(v) ==> !t.contains(v)
    &&& forall|v: u128| #[trigger] perm.contains(v) ==> safe(g, v)
}

/// A walk that starts in a set closed under edges stays in it.
pub proof fn lemma_closed_walk(g: GraphModel, s: Set<u128>, p: Seq<u128>, n: int)
    requires
        forall|u: u128, w: u128| s.contains(u) && #[trigger] edge(g, u, w) ==> s.contains(w),
        is_walk(g, p),
        s.contains(p[0]),
        0 <= n < p.len(),
    ensures
        s.contains(p[n]),
    decreases n,
{
    if n > 0 {
        lemma_closed_walk(g, s, p, n - 1);
        assert(step_ok(g, p, n - 1));
    }
}

/// A finished vertex leads to no repeated vertex and to no vertex of the path.
pub proof fn lemma_finished_no_hits(g: GraphModel, perm: Set<u128>, t: Set<u128>, x: u128)
    requires
        finished_state(g, perm, t),
        perm.contains(x),
    ensures
        !hits(g, x, t),
        reach_set(g, x).subset_of(perm),
{
    assert forall|p: Seq<u128>| #[trigger] is_walk(g, p) && p[0] == x implies p.no_duplicates() && !(exists|i: int|
        0 <= i < p.len() && t.contains(p[i])) by {
        assert(safe(g, x));
        if exists|i: int| 0 <= i < p.len() && t.contains(p[i]) {
            let i = choose|i: int| 0 <= i < p.len() && t.contains(p[i]);
            lemma_closed_walk(g, perm, p, i);
        }
    }
    assert forall|w: u128| reach_set(g, x).contains(w) implies perm.contains(w) by {
        let p = choose|p: Seq<u128>| #[trigger] is_walk(g, p) && p[0] == x && p.last() == w;
        lemma_closed_walk(g, perm, p, p.len() - 1);
    }
}

/// Prepending an edge into a walk that hits `t` or `node` gives a walk from
/// `node` that hits `t` or repeats a vertex.
pub proof fn lemma_hits_extend(g: GraphModel, node: u128, next: u128, t: Set<u128>)
    requires
        edge(g, node, next),
        hits(g, next, t.insert(node)),
    ensures
        hits(g, node, t),
{
    let p = choose|p: Seq<u128>|
        #[trigger] is_walk(g, p) && p[0] == next && (!p.no_duplicates() || exists|i: int|
            0 <= i < p.len() && t.insert(node).contains(p[i]));
    let q = seq![node] + p;
    assert forall|k: int| 0 <= k < q.len() - 1 implies #[trigger] step_ok(g, q, k) by {
        if k > 0 {
            assert(step_ok(g, p, k - 1));
        }
    }
    assert(is_walk(g, q));
    if !p.no_duplicates() {
        let (a, b) = choose|a: int, b: int| 0 <= a < p.len() && 0 <= b < p.len() && a != b && p[a] == p[b];
        assert(q[a + 1] == q[b + 1]);
    } else {
        let i = choose|i: int| 0 <= i < p.len() && t.insert(node).contains(p[i]);
        if p[i] == node {
            assert(q[0] == q[i + 1]);
        } else {
            assert(t.contains(q[i + 1]));
        }
    }
}

/// When no successor of `node` leads to a repeat, to `t` or to `node`, and
/// `node` is not in `t`, no walk from `node` repeats or meets `t`.
pub proof fn lemma_no_hits_from_successors(g: GraphModel, node: u128, t: Set<u128>)
    requires
        !t.contains(node),
        forall|next: u128| #[trigger] edge(g, node, next) ==> !hits(g, next, t.insert(node)),
    ensures
        !hits(g, node, t),
{
    assert forall|p: Seq<u128>| #[trigger] is_walk(g, p) && p[0] == node implies p.no_duplicates() && !(exists|i: int|
        0 <= i < p.len() && t.contains(p[i])) by {
        if p.len() > 1 {
            let q = p.drop_first();
            assert(step_ok(g, p, 0));
            assert forall|k: int| 0 <= k < q.len() - 1 implies #[trigger] step_ok(g, q, k) by {
                assert(step_ok(g, p, k + 1));
            }
            assert(is_walk(g, q));
            assert(!hits(g, q[0], t.insert(node)));
            assert(q.no_duplicates());
            assert forall|i: int| 0 <= i < q.len() implies !t.insert(node).contains(#[trigger] q[i]) by {}
            assert forall|a: int, b: int| 0 <= a < p.len() && 0 <= b < p.len() && a != b implies p[a] != p[b] by {
                if a > 0 && b > 0 {
                    assert(q[a - 1] != q[b - 1]);
                } else if a == 0 {
                    assert(!t.insert(node).contains(q[b - 1]));
                } else {
                    assert(!t.insert(node).contains(q[a - 1]));
                }
            }
            assert forall|i: int| 0 <= i < p.len() implies !t.contains(#[trigger] p[i]) by {
                if i > 0 {
                    assert(!t.insert(node).contains(q[i - 1]));
                }
            }
        }
    }
}

/// What a vertex reaches is itself and what its successors reach.
pub proof fn lemma_reach_step(g: GraphModel, x: u128, w: u128)
    ensures
        reachable(g, x, w) == (w == x || exists|next: u128| #[trigger] edge(g, x, next) && reachable(g, next, w)),
{
    if reachable(g, x, w) && w != x {
        let p = choose|p: Seq<u128>| #[trigger] is_walk(g, p) && p[0] == x && p.last() == w;
        let q = p.drop_first();
        assert(p.len() > 1);
        assert(step_ok(g, p, 0));
        assert forall|k: int| 0 <= k < q.len() - 1 implies #[trigger] step_ok(g, q, k) by {
            assert(step_ok(g, p, k + 1));
        }
        assert(is_walk(g, q) && q[0] == p[1] && q.last() == w);
        assert(edge(g, x, p[1]) && reachable(g, p[1], w));
    }
    if w == x {
        let p = seq![x];
        assert(is_walk(g, p));
    }
    if exists|next: u128| #[trigger] edge(g, x, next) && reachable(g, next, w) {
        let next = choose|next: u128| #[trigger] edge(g, x, next) && reachable(g, next, w);
        let q = choose|q: Seq<u128>| #[trigger] is_walk(g, q) && q[0] == next && q.last() == w;
        let p = seq![x] + q;
        assert forall|k: int| 0 <= k < p.len() - 1 implies #[trigger] step_ok(g, p, k) by {
            if k > 0 {
                assert(step_ok(g, q, k - 1));
            }
        }
        assert(is_walk(g, p) && p[0] == x && p.last() == w);
    }
}

/// Finishing everything reachable from a vertex that meets neither a
/// repeat nor the path keeps the search state.
pub proof fn lemma_finish_reach(g: GraphModel, perm: Set<u128>, t: Set<u128>, x: u128)
    requires
        finished_state(g, perm, t),
        !hits(g, x, t),
    ensures
        finished_state(g, perm + reach_set(g, x), t),
        reach_set(g, x).contains(x),
{
    let r = reach_set(g, x);
    assert(is_walk(g, seq![x]));
    assert(r.contains(x));
    assert forall|u: u128, w: u128| (perm + r).contains(u) && #[trigger] edge(g, u, w) implies (perm + r).contains(w) by {
        if r.contains(u) && !perm.contains(u) {
            let p = choose|p: Seq<u128>| #[trigger] is_walk(g, p) && p[0] == x && p.last() == u;
            let q = p.push(w);
            assert forall|k: int| 0 <= k < q.len() - 1 implies #[trigger] step_ok(g, q, k) by {
                if k < p.len() - 1 {
                    assert(step_ok(g, p, k));
                }
            }
            assert(is_walk(g, q) && q[0] == x && q.last() == w);
        }
    }
    assert forall|v: u128| (perm + r).contains(v) implies !t.contains(v) by {
        if r.contains(v) && !perm.contains(v) {
            let p = choose|p: Seq<u128>| #[trigger] is_walk(g, p) && p[0] == x && p.last() == v;
            assert(p[p.len() - 1] == v);
            if t.contains(v) {
                assert(hits(g, x, t));
            }
        }
    }
    assert forall|v: u128| #[trigger] (perm + r).contains(v) implies safe(g, v) by {
        if r.contains(v) && !perm.contains(v) {
            let p = choose|p: Seq<u128>| #[trigger] is_walk(g, p) && p[0] == x && p.last() == v;
            assert forall|s: Seq<u128>| #[trigger] is_walk(g, s) && s[0] == v implies s.no_duplicates() by {
                let q = p + s.drop_first();
                let off = p.len() - 1;
                assert forall|c: int| 0 <= c < s.len() implies q[off + c] == #[trigger] s[c] by {
                    if c == 0 {
                        assert(q[off] == p[off]);
                    }
                }
                assert forall|k: int| 0 <= k < q.len() - 1 implies #[trigger] step_ok(g, q, k) by {
                    if k < off {
                        assert(step_ok(g, p, k));
                    } else {
                        assert(step_ok(g, s, k - off));
                        assert(q[k] == s[k - off]);
                        assert(q[k + 1] == s[k - off + 1]);
                    }
                }
                assert(is_walk(g, q) && q[0] == x);
                if !s.no_duplicates() {
                    let (a, b) = choose|a: int, b: int| 0 <= a < s.len() && 0 <= b < s.len() && a != b && s[a] == s[b];
                    assert(q[off + a] == q[off + b]);
                    assert(hits(g, x, t));
                }
            }
        }
    }
}

/// All vertices that are a target of some edge.
pub open spec fn edge_targets(adj: Map<u128, Seq<u128>>) -> Set<u128> {
    Set::new(|v: u128| exists|u: u128| adj.contains_key(u) && #[trigger] adj[u].contains(v))
}

/// Every vertex the graph mentions.
pub open spec fn universe(g: GraphModel) -> Set<u128> {
    g.nodes.to_set() + g.adj.dom() + edge_targets(g.adj)
}

pub proof fn lemma_edge_targets_finite(adj: Map<u128, Seq<u128>>)
    requires
        adj.dom().finite(),
    ensures
        edge_targets(adj).finite(),
    decreases adj.dom().len(),
{
    if adj.dom().len() == 0 {
        assert(edge_targets(adj) =~= Set::empty()) by {
            assert forall|v: u128| !edge_targets(adj).contains(v) by {
                if edge_targets(adj).contains(v) {
                    let u = choose|u: u128| adj.contains_key(u) && #[trigger] adj[u].contains(v);
                    assert(adj.dom().contains(u));
                }
            }
        }
    } else {
        let k = adj.dom().choose();
        let rest = adj.remove(k);
        lemma_edge_targets_finite(rest);
        assert(edge_targets(adj) =~= edge_targets(rest) + adj[k].to_set()) by {
            assert forall|v: u128| edge_targets(adj).contains(v) implies (edge_targets(rest)
                + adj[k].to_set()).contains(v) by {
                let u = choose|u: u128| adj.contains_key(u) && #[trigger] adj[u].contains(v);
                if u == k {
                    assert(adj[k].to_set().contains(v));
                } else {
                    assert(rest.contains_key(u) && rest[u].contains(v));
                }
            }
            assert forall|v: u128| (edge_targets(rest) + adj[k].to_set()).contains(v) implies
                edge_targets(adj).contains(v) by {
                if edge_targets(rest).contains(v) {
                    let u = choose|u: u128| rest.contains_key(u) && #[trigger] rest[u].contains(v);
                    assert(adj.contains_key(u) && adj[u].contains(v));
                } else {
                    assert(adj.contains_key(k) && adj[k].contains(v));
                }
            }
        }
        vstd::seq_lib::seq_to_set_is_finite(adj[k]);
    }
}

pub proof fn lemma_universe_finite(g: GraphModel)
    requires
        g.adj.dom().finite(),
    ensures
        universe(g).finite(),
{
    lemma_edge_targets_finite(g.adj);
    vstd::seq_lib::seq_to_set_is_finite(g.nodes);
}

/// The vertices that take part in the level order: the nodes and every
/// vertex that is the target of an edge.
pub open spec fn candidates(g: GraphModel) -> Set<u128> {
    g.nodes.to_set() + edge_targets(g.adj)
}

/// `v` can be scheduled within the first `k + 1` levels: it is a candidate
/// and every vertex with an edge into it can be scheduled within the first
/// `k` levels (for `k == 0`: nothing has an edge into it).
pub open spec fn is_ready(g: GraphModel, k: nat, v: u128) -> bool
    decreases k,
{
    &&& candidates(g).contains(v)
    &&& forall|u: u128| #[trigger] edge(g, u, v) ==> (k > 0 && is_ready(g, (k - 1) as nat, u))
}

/// `v` belongs to level `k`: it is ready at `k` but not before.
pub open spec fn in_level(g: GraphModel, k: nat, v: u128) -> bool {
    is_ready(g, k, v) && !(k > 0 && is_ready(g, (k - 1) as nat, v))
}

/// The vertices scheduled before level `k`.
pub open spec fn done_before(g: GraphModel, k: nat) -> Set<u128> {
    Set::new(|u: u128| k > 0 && is_ready(g, (k - 1) as nat, u))
}

/// `levels` is the level order of `g`: level `k` holds, once each, exactly
/// the vertices whose predecessors all sit in earlier levels and that do
/// not fit in an earlier level; the order stops at the first empty level.
/// Vertices on a cycle, or after one, or after a vertex that is neither a
/// node nor a target, appear in no level.
pub open spec fn is_level_order(g: GraphModel, levels: Seq<Seq<u128>>) -> bool {
    &&& forall|k: int|
        0 <= k < levels.len() ==> #[trigger] levels[k].len() > 0 && levels[k].no_duplicates()
    &&& forall|k: int, v: u128|
        0 <= k < levels.len() ==> (#[trigger] levels[k].contains(v) <==> in_level(g, k as nat, v))
    &&& forall|v: u128| !in_level(g, levels.len(), v)
}

/// Number of occurrences of `v` in `s`.
pub open spec fn occ(s: Seq<u128>, v: u128) -> nat
    decreases s.len(),
{
    if s.len() == 0 {
        0
    } else {
        occ(s.drop_last(), v) + if s.last() == v {
            1nat
        } else {
            0nat
        }
    }
}

/// Number of edges into `v` whose source is listed in `ks` and not in `done`.
pub open spec fn pending_in(g: GraphModel, ks: Seq<u128>, v: u128, done: Set<u128>) -> nat
    decreases ks.len(),
{
    if ks.len() == 0 {
        0
    } else {
        pending_in(g, ks.drop_last(), v, done) + if done.contains(ks.last()) {
            0nat
        } else {
            occ(targets_of(g, ks.last()), v)
        }
    }
}

pub proof fn lemma_occ_zero(s: Seq<u128>, v: u128)
    ensures
        (occ(s, v) == 0) == !s.contains(v),
        occ(s, v) <= s.len(),
    decreases s.len(),
{
    if s.len() > 0 {
        lemma_occ_zero(s.drop_last(), v);
        if s.last() != v {
            assert(s.contains(v) ==> s.drop_last().contains(v)) by {
                if s.contains(v) {
                    let i = choose|i: int| 0 <= i < s.len() && s[i] == v;
                    assert(s.drop_last()[i] == v);
                }
            }
        }
        if s.drop_last().contains(v) {
            let i = choose|i: int| 0 <= i < s.drop_last().len() && s.drop_last()[i] == v;
            assert(s[i] == v);
        }
        if s.last() == v {
            assert(s[s.len() - 1] == v);
        }
    }
}

pub proof fn lemma_occ_take_step(s: Seq<u128>, j: int, v: u128)
    requires
        0 <= j < s.len(),
    ensures
        occ(s.take(j + 1), v) == occ(s.take(j), v) + if s[j] == v {
            1nat
        } else {
            0nat
        },
{
    assert(s.take(j + 1).drop_last() =~= s.take(j));
}

pub proof fn lemma_occ_take_le(s: Seq<u128>, j: int, v: u128)
    requires
        0 <= j <= s.len(),
    ensures
        occ(s.take(j), v) <= occ(s, v),
    decreases s.len() - j,
{
    if j == s.len() {
        assert(s.take(j) =~= s);
    } else {
        lemma_occ_take_step(s, j, v);
        lemma_occ_take_le(s, j + 1, v);
    }
}

/// Marking a source that `ks` does not list changes no count.
pub proof fn lemma_pending_unlisted(g: GraphModel, ks: Seq<u128>, v: u128, done: Set<u128>, u: u128)
    requires
        !ks.contains(u),
    ensures
        pending_in(g, ks, v, done.insert(u)) == pending_in(g, ks, v, done),
    decreases ks.len(),
{
    if ks.len() > 0 {
        assert(!ks.drop_last().contains(u)) by {
            if ks.drop_last().contains(u) {
                let i = choose|i: int| 0 <= i < ks.drop_last().len() && ks.drop_last()[i] == u;
                assert(ks[i] == u);
            }
        }
        assert(ks.last() != u) by {
            assert(ks[ks.len() - 1] == ks.last());
        }
        lemma_pending_unlisted(g, ks.drop_last(), v, done, u);
    }
}

/// Marking a listed source subtracts exactly its edges into `v`.
pub proof fn lemma_pending_mark(g: GraphModel, ks: Seq<u128>, v: u128, done: Set<u128>, u: u128)
    requires
        ks.no_duplicates(),
        ks.contains(u),
        !done.contains(u),
    ensures
        pending_in(g, ks, v, done.insert(u)) + occ(targets_of(g, u), v) == pending_in(
            g,
            ks,
            v,
            done,
        ),
    decreases ks.len(),
{
    let init = ks.drop_last();
    assert(init.no_duplicates());
    if ks.last() == u {
        assert(!init.contains(u)) by {
            if init.contains(u) {
                let i = choose|i: int| 0 <= i < init.len() && init[i] == u;
                assert(ks[i] == ks[ks.len() - 1]);
            }
        }
        lemma_pending_unlisted(g, init, v, done, u);
    } else {
        assert(init.contains(u)) by {
            let i = choose|i: int| 0 <= i < ks.len() && ks[i] == u;
            assert(i != ks.len() - 1);
            assert(init[i] == u);
        }
        lemma_pending_mark(g, init, v, done, u);
    }
}

/// No pending edge into `v` remains exactly when every listed source of an
/// edge into `v` is done.
pub proof fn lemma_pending_zero(g: GraphModel, ks: Seq<u128>, v: u128, done: Set<u128>)
    ensures
        (pending_in(g, ks, v, done) == 0) == (forall|i: int|
            0 <= i < ks.len() ==> done.contains(#[trigger] ks[i]) || !targets_of(g, ks[i]).contains(v)),
    decreases ks.len(),
{
    if ks.len() > 0 {
        let init = ks.drop_last();
        lemma_pending_zero(g, init, v, done);
        lemma_occ_zero(targets_of(g, ks.last()), v);
        if pending_in(g, ks, v, done) == 0 {
            assert forall|i: int| 0 <= i < ks.len() implies done.contains(#[trigger] ks[i])
                || !targets_of(g, ks[i]).contains(v) by {
                if i < ks.len() - 1 {
                    assert(init[i] == ks[i]);
                }
            }
        } else {
            if pending_in(g, init, v, done) > 0 {
                let i = choose|i: int|
                    0 <= i < init.len() && !(done.contains(#[trigger] init[i]) || !targets_of(
                        g,
                        init[i],
                    ).contains(v));
                assert(ks[i] == init[i]);
            } else {
                assert(ks[ks.len() - 1] == ks.last());
            }
        }
    }
}

/// The same, stated over all edges when `ks` lists exactly the sources.
pub proof fn lemma_pending_zero_edges(g: GraphModel, ks: Seq<u128>, v: u128, done: Set<u128>)
    requires
        ks.to_set() == g.adj.dom(),
    ensures
        (pending_in(g, ks, v, done) == 0) == (forall|u: u128| #[trigger] edge(g, u, v) ==> done.contains(u)),
{
    lemma_pending_zero(g, ks, v, done);
    if pending_in(g, ks, v, done) == 0 {
        assert forall|u: u128| #[trigger] edge(g, u, v) implies done.contains(u) by {
            assert(ks.to_set().contains(u));
            let i = choose|i: int| 0 <= i < ks.len() && ks[i] == u;
            assert(done.contains(ks[i]) || !targets_of(g, ks[i]).contains(v));
        }
    } else {
        let i = choose|i: int|
            0 <= i < ks.len() && !(done.contains(#[trigger] ks[i]) || !targets_of(g, ks[i]).contains(v));
        assert(g.adj.contains_key(ks[i]));
        assert(edge(g, ks[i], v));
    }
}

/// Pending counts are bounded by the list lengths.
pub proof fn lemma_pending_bound(g: GraphModel, ks: Seq<u128>, v: u128, done: Set<u128>, m: nat)
    requires
        forall|i: int| 0 <= i < ks.len() ==> (#[trigger] targets_of(g, ks[i])).len() <= m,
    ensures
        pending_in(g, ks, v, done) <= ks.len() * m,
    decreases ks.len(),
{
    if ks.len() > 0 {
        let init = ks.drop_last();
        assert forall|i: int| 0 <= i < init.len() implies (#[trigger] targets_of(g, init[i])).len()
            <= m by {
            assert(init[i] == ks[i]);
        }
        lemma_pending_bound(g, init, v, done, m);
        lemma_occ_zero(targets_of(g, ks.last()), v);
        assert(targets_of(g, ks[ks.len() - 1]).len() <= m);
        assert(init.len() * m + m == ks.len() * m) by (nonlinear_arith)
            requires
                init.len() + 1 == ks.len(),
        ;
    }
}

/// Readiness only grows with the level.
pub proof fn lemma_ready_mono(g: GraphModel, k: nat)
    ensures
        forall|v: u128| #[trigger] is_ready(g, k, v) ==> is_ready(g, k + 1, v),
    decreases k,
{
    if k > 0 {
        lemma_ready_mono(g, (k - 1) as nat);
    }
    assert forall|v: u128| #[trigger] is_ready(g, k, v) implies is_ready(g, k + 1, v) by {
        assert forall|u: u128| #[trigger] edge(g, u, v) implies (k + 1 > 0 && is_ready(
            g,
            k,
            u,
        )) by {
            assert(k > 0 && is_ready(g, (k - 1) as nat, u));
        }
    }
}

pub proof fn lemma_ready_mono_to(g: GraphModel, j: nat, k: nat, v: u128)
    requires
        j <= k,
        is_ready(g, j, v),
    ensures
        is_ready(g, k, v),
    decreases k - j,
{
    if j < k {
        lemma_ready_mono(g, j);
        lemma_ready_mono_to(g, j + 1, k, v);
    }
}

pub proof fn lemma_candidates_finite(g: GraphModel)
    requires
        g.adj.dom().finite(),
    ensures
        candidates(g).finite(),
{
    lemma_edge_targets_finite(g.adj);
    vstd::seq_lib::seq_to_set_is_finite(g.nodes);
}

} // verus!
