//! What the dependency graph of a task list contains, and what the
//! execution plan therefore guarantees.

use vstd::prelude::*;

use crate::swarm::decomposer::{
    dependency_graph, dependency_graph_prefix, link_inputs, link_producers, produces, AtomicTask,
};
use crate::swarm::graph_laws::{lemma_acyclic_levels_cover, lemma_levels_respect_edges, sources_are_nodes};
use crate::swarm::graph_model::{
    add_edge_model, add_node_model, candidates, edge, is_level_order, is_walk, model_wf, reaches_cycle,
    targets_of, GraphModel,
};

verus! {

/// `x` is the id of one of the tasks.
pub open spec fn is_task_id(tasks: Seq<AtomicTask>, x: u128) -> bool {
    exists|i: int| 0 <= i < tasks.len() && #[trigger] tasks[i].id == x
}

/// The shape kept while the graph is built: well formed, nodes are the ids
/// of the tasks seen so far, and every edge leaves the id of some task.
spec fn building_inv(tasks: Seq<AtomicTask>, g: GraphModel, n: int) -> bool {
    &&& model_wf(g)
    &&& forall|x: u128| g.nodes.contains(x) <==> exists|i: int| 0 <= i < n && #[trigger] tasks[i].id == x
    &&& forall|u: u128, v: u128| #[trigger] edge(g, u, v) ==> is_task_id(tasks, u)
}

proof fn lemma_add_node_keeps(tasks: Seq<AtomicTask>, g: GraphModel, n: int)
    requires
        0 <= n < tasks.len(),
        building_inv(tasks, g, n),
    ensures
        building_inv(tasks, add_node_model(g, tasks[n].id), n + 1),
{
    let id = tasks[n].id;
    let g2 = add_node_model(g, id);
    if !g.nodes.contains(id) {
        assert(g2.nodes.no_duplicates()) by {
            assert forall|a: int, b: int|
                0 <= a < g2.nodes.len() && 0 <= b < g2.nodes.len() && a != b implies g2.nodes[a] != g2.nodes[b] by {
                if a == g.nodes.len() {
                    assert(g.nodes.contains(g2.nodes[b]));
                } else if b == g.nodes.len() {
                    assert(g.nodes.contains(g2.nodes[a]));
                }
            }
        }
        assert forall|x: u128| g2.nodes.contains(x) implies #[trigger] g2.adj.contains_key(x) by {
            if x != id {
                let a = choose|a: int| 0 <= a < g2.nodes.len() && g2.nodes[a] == x;
                assert(g.nodes[a] == x);
            }
        }
        assert forall|u: u128, v: u128| #[trigger] edge(g2, u, v) implies is_task_id(tasks, u) by {
            if u == id {
                assert(tasks[n].id == u);
            } else {
                assert(edge(g, u, v));
            }
        }
    }
    assert forall|x: u128| g2.nodes.contains(x) <==> exists|i: int| 0 <= i < n + 1 && #[trigger] tasks[i].id == x by {
        if g2.nodes.contains(x) && x != id {
            if !g.nodes.contains(x) {
                let a = choose|a: int| 0 <= a < g2.nodes.len() && g2.nodes[a] == x;
                assert(g.nodes[a] == x);
            }
            let i = choose|i: int| 0 <= i < n && #[trigger] tasks[i].id == x;
            assert(0 <= i < n + 1);
        }
        if x == id {
            if g.nodes.contains(x) {
            } else {
                assert(g2.nodes[g.nodes.len() as int] == x);
            }
        }
        if exists|i: int| 0 <= i < n + 1 && #[trigger] tasks[i].id == x {
            let i = choose|i: int| 0 <= i < n + 1 && #[trigger] tasks[i].id == x;
            if i < n {
                assert(g.nodes.contains(x));
                if !g.nodes.contains(id) {
                    let a = choose|a: int| 0 <= a < g.nodes.len() && g.nodes[a] == x;
                    assert(g2.nodes[a] == x);
                }
            } else {
                if !g.nodes.contains(id) {
                    assert(g2.nodes[g.nodes.len() as int] == x);
                }
            }
        }
    }
}

/// Adding an edge out of a task keeps the building shape.
proof fn lemma_add_edge_keeps(tasks: Seq<AtomicTask>, g: GraphModel, n: int, k: int, to: u128)
    requires
        building_inv(tasks, g, n),
        0 <= k < tasks.len(),
    ensures
        building_inv(tasks, add_edge_model(g, tasks[k].id, to), n),
{
    let from = tasks[k].id;
    let g2 = add_edge_model(g, from, to);
    assert forall|u: u128, v: u128| #[trigger] edge(g2, u, v) implies is_task_id(tasks, u) by {
        if u == from {
            assert(tasks[k].id == u);
        } else {
            assert(edge(g, u, v));
        }
    }
    assert forall|x: u128| g2.nodes.contains(x) implies #[trigger] g2.adj.contains_key(x) by {
        assert(g.adj.contains_key(x));
    }
}

proof fn lemma_link_inputs_keeps(tasks: Seq<AtomicTask>, g: GraphModel, n: int, k: int, task: AtomicTask, m: nat)
    requires
        building_inv(tasks, g, n),
        0 <= k < tasks.len(),
    ensures
        building_inv(tasks, link_inputs(g, tasks[k], task, m), n),
    decreases m,
{
    if m > 0 {
        lemma_link_inputs_keeps(tasks, g, n, k, task, (m - 1) as nat);
        let g1 = link_inputs(g, tasks[k], task, (m - 1) as nat);
        lemma_add_edge_keeps(tasks, g1, n, k, task.id);
    }
}

proof fn lemma_link_producers_keeps(tasks: Seq<AtomicTask>, g: GraphModel, n: int, task: AtomicTask, j: nat)
    requires
        building_inv(tasks, g, n),
        j <= tasks.len(),
    ensures
        building_inv(tasks, link_producers(g, tasks, task, j), n),
    decreases j,
{
    if j > 0 {
        lemma_link_producers_keeps(tasks, g, n, task, (j - 1) as nat);
        let g1 = link_producers(g, tasks, task, (j - 1) as nat);
        lemma_link_inputs_keeps(tasks, g1, n, j - 1, task, task.input_files@.len());
    }
}

proof fn lemma_prefix_inv(tasks: Seq<AtomicTask>, n: nat)
    requires
        n <= tasks.len(),
    ensures
        building_inv(tasks, dependency_graph_prefix(tasks, n), n as int),
    decreases n,
{
    if n == 0 {
        let g = dependency_graph_prefix(tasks, 0);
        assert(g.adj.dom() =~= Set::<u128>::empty());
    } else {
        lemma_prefix_inv(tasks, (n - 1) as nat);
        let g0 = dependency_graph_prefix(tasks, (n - 1) as nat);
        lemma_add_node_keeps(tasks, g0, n - 1);
        lemma_link_producers_keeps(tasks, add_node_model(g0, tasks[n - 1].id), n as int, tasks[n - 1], tasks.len());
    }
}

/// The dependency graph of a task list has the task ids as its nodes, is
/// well formed, and every edge leaves one of the tasks.
pub proof fn lemma_dependency_graph_shape(tasks: Seq<AtomicTask>)
    ensures
        model_wf(dependency_graph(tasks)),
        forall|x: u128| dependency_graph(tasks).nodes.contains(x) <==> is_task_id(tasks, x),
        sources_are_nodes(dependency_graph(tasks)),
{
    lemma_prefix_inv(tasks, tasks.len());
    let g = dependency_graph(tasks);
    assert forall|x: u128| g.nodes.contains(x) <==> is_task_id(tasks, x) by {
        if g.nodes.contains(x) {
            let i = choose|i: int| 0 <= i < tasks.len() && #[trigger] tasks[i].id == x;
            assert(is_task_id(tasks, x));
        }
        if is_task_id(tasks, x) {
            let i = choose|i: int| 0 <= i < tasks.len() && #[trigger] tasks[i].id == x;
            assert(0 <= i < tasks.len() && tasks[i].id == x);
        }
    }
    assert forall|u: u128, v: u128| #[trigger] edge(g, u, v) implies g.nodes.contains(u) by {
        assert(is_task_id(tasks, u));
    }
}

/// When the tasks' dependency graph has no cycle, a level order of it
/// (the execution plan) schedules every task.
pub proof fn lemma_plan_schedules_every_task(tasks: Seq<AtomicTask>, levels: Seq<Seq<u128>>, i: int)
    requires
        !reaches_cycle(dependency_graph(tasks)),
        is_level_order(dependency_graph(tasks), levels),
        0 <= i < tasks.len(),
    ensures
        exists|j: int| 0 <= j < levels.len() && #[trigger] levels[j].contains(tasks[i].id),
{
    let g = dependency_graph(tasks);
    lemma_dependency_graph_shape(tasks);
    assert(is_task_id(tasks, tasks[i].id));
    assert(g.nodes.to_set().contains(tasks[i].id));
    assert(candidates(g).contains(tasks[i].id));
    lemma_acyclic_levels_cover(g, levels, tasks[i].id);
}

/// Task `i` writes a file that task `j` reads.
pub open spec fn feeds(tasks: Seq<AtomicTask>, i: int, j: int) -> bool {
    exists|m: int|
        0 <= m < tasks[j].input_files@.len() && #[trigger] produces(
            tasks[i].output_files@,
            tasks[j].input_files@[m],
        )
}

/// Linking inputs only adds edges and keeps the nodes; it adds
/// `other -> task` when `other` produces one of the scanned inputs.
proof fn lemma_link_inputs_grows(g: GraphModel, other: AtomicTask, task: AtomicTask, m: nat)
    ensures
        link_inputs(g, other, task, m).nodes == g.nodes,
        forall|u: u128, v: u128| #[trigger] edge(g, u, v) ==> edge(link_inputs(g, other, task, m), u, v),
        (exists|k: int| 0 <= k < m && #[trigger] produces(other.output_files@, task.input_files@[k]))
            ==> edge(link_inputs(g, other, task, m), other.id, task.id),
    decreases m,
{
    if m > 0 {
        lemma_link_inputs_grows(g, other, task, (m - 1) as nat);
        let g1 = link_inputs(g, other, task, (m - 1) as nat);
        let g2 = link_inputs(g, other, task, m);
        if produces(other.output_files@, task.input_files@[m - 1]) {
            assert forall|u: u128, v: u128| #[trigger] edge(g1, u, v) implies edge(g2, u, v) by {
                if u == other.id {
                    assert(targets_of(g1, u).push(task.id).contains(v)) by {
                        let t = choose|t: int| 0 <= t < g1.adj[u].len() && g1.adj[u][t] == v;
                        assert(targets_of(g1, u).push(task.id)[t] == v);
                    }
                }
            }
            assert(g2.adj[other.id][g2.adj[other.id].len() - 1] == task.id);
        } else {
            if exists|k: int| 0 <= k < m && #[trigger] produces(other.output_files@, task.input_files@[k]) {
                let k = choose|k: int| 0 <= k < m && #[trigger] produces(other.output_files@, task.input_files@[k]);
                assert(k < m - 1);
            }
        }
        assert forall|u: u128, v: u128| #[trigger] edge(g, u, v) implies edge(g2, u, v) by {
            assert(edge(g1, u, v));
        }
    }
}

proof fn lemma_link_producers_grows(g: GraphModel, tasks: Seq<AtomicTask>, task: AtomicTask, j: nat, i: int)
    requires
        j <= tasks.len(),
    ensures
        link_producers(g, tasks, task, j).nodes == g.nodes,
        forall|u: u128, v: u128| #[trigger] edge(g, u, v) ==> edge(link_producers(g, tasks, task, j), u, v),
        (0 <= i < j && tasks[i].id != task.id && exists|m: int|
            0 <= m < task.input_files@.len() && #[trigger] produces(tasks[i].output_files@, task.input_files@[m]))
            ==> edge(link_producers(g, tasks, task, j), tasks[i].id, task.id),
    decreases j,
{
    if j > 0 {
        lemma_link_producers_grows(g, tasks, task, (j - 1) as nat, i);
        let g1 = link_producers(g, tasks, task, (j - 1) as nat);
        let other = tasks[j - 1];
        if other.id != task.id {
            lemma_link_inputs_grows(g1, other, task, task.input_files@.len());
        }
    }
}

/// An edge out of a node survives adding more tasks.
proof fn lemma_edge_persists(tasks: Seq<AtomicTask>, n: nat, m: nat, u: u128, v: u128)
    requires
        n <= m <= tasks.len(),
        edge(dependency_graph_prefix(tasks, n), u, v),
        dependency_graph_prefix(tasks, n).nodes.contains(u),
    ensures
        edge(dependency_graph_prefix(tasks, m), u, v),
        dependency_graph_prefix(tasks, m).nodes.contains(u),
    decreases m - n,
{
    if n < m {
        let g = dependency_graph_prefix(tasks, n);
        let id = tasks[n as int].id;
        let g1 = add_node_model(g, id);
        assert(edge(g1, u, v));
        assert(g1.nodes.contains(u)) by {
            if !g.nodes.contains(id) {
                let a = choose|a: int| 0 <= a < g.nodes.len() && g.nodes[a] == u;
                assert(g1.nodes[a] == u);
            }
        }
        lemma_link_producers_grows(g1, tasks, tasks[n as int], tasks.len(), 0);
        assert(dependency_graph_prefix(tasks, n + 1) == link_producers(g1, tasks, tasks[n as int], tasks.len()));
        lemma_edge_persists(tasks, n + 1, m, u, v);
    }
}

/// When a task writes a file that a later task with another id reads, the
/// dependency graph has an edge from the writer to the reader.
proof fn lemma_feeds_edge(tasks: Seq<AtomicTask>, i: int, j: int)
    requires
        0 <= i < j < tasks.len(),
        tasks[i].id != tasks[j].id,
        feeds(tasks, i, j),
    ensures
        edge(dependency_graph(tasks), tasks[i].id, tasks[j].id),
{
    let n = j as nat;
    let g = dependency_graph_prefix(tasks, n);
    lemma_prefix_inv(tasks, n);
    let g1 = add_node_model(g, tasks[j].id);
    assert(g.nodes.contains(tasks[i].id)) by {
        assert(0 <= i < n && tasks[i].id == tasks[i].id);
    }
    assert(g1.nodes.contains(tasks[i].id)) by {
        if !g.nodes.contains(tasks[j].id) {
            let k = choose|k: int| 0 <= k < g.nodes.len() && g.nodes[k] == tasks[i].id;
            assert(g1.nodes[k] == tasks[i].id);
        }
    }
    lemma_link_producers_grows(g1, tasks, tasks[j], tasks.len(), i);
    let g2 = dependency_graph_prefix(tasks, n + 1);
    assert(g2 == link_producers(g1, tasks, tasks[j], tasks.len()));
    assert(edge(g2, tasks[i].id, tasks[j].id));
    lemma_edge_persists(tasks, n + 1, tasks.len(), tasks[i].id, tasks[j].id);
}

/// When a task writes a file that a later task with another id reads, the
/// execution plan puts the writer in a strictly earlier level than the
/// reader.
pub proof fn lemma_producer_scheduled_first(
    tasks: Seq<AtomicTask>,
    levels: Seq<Seq<u128>>,
    i: int,
    j: int,
    a: int,
    b: int,
)
    requires
        is_level_order(dependency_graph(tasks), levels),
        0 <= i < j < tasks.len(),
        tasks[i].id != tasks[j].id,
        feeds(tasks, i, j),
        0 <= a < levels.len(),
        0 <= b < levels.len(),
        levels[a].contains(tasks[i].id),
        levels[b].contains(tasks[j].id),
    ensures
        a < b,
{
    lemma_feeds_edge(tasks, i, j);
    lemma_levels_respect_edges(dependency_graph(tasks), levels, a, b, tasks[i].id, tasks[j].id);
}

/// No two tasks share an id.
pub open spec fn distinct_ids(tasks: Seq<AtomicTask>) -> bool {
    forall|a: int, b: int| 0 <= a < tasks.len() && 0 <= b < tasks.len() && a != b ==> (#[trigger] tasks[a]).id != (#[trigger] tasks[b]).id
}

/// Each edge `u -> v` runs from some task `k` to one of the first `n`
/// tasks, `j`; when `u` is already a node, `k` comes before `j`.
spec fn forward_inv(tasks: Seq<AtomicTask>, g: GraphModel, n: int) -> bool {
    forall|u: u128, v: u128| #[trigger] edge(g, u, v) ==> exists|k: int, j: int| #![trigger tasks[k], tasks[j]]
        0 <= k < tasks.len() && 0 <= j < n && tasks[k].id == u && tasks[j].id == v
            && (g.nodes.contains(u) ==> k < j)
}

proof fn lemma_forward_link_inputs(tasks: Seq<AtomicTask>, g: GraphModel, n: int, k: int, m: nat)
    requires
        0 <= k < tasks.len(),
        0 <= n < tasks.len(),
        building_inv(tasks, g, n + 1),
        forward_inv(tasks, g, n + 1),
        tasks[k].id != tasks[n].id,
        g.nodes.contains(tasks[k].id) ==> k < n,
    ensures
        forward_inv(tasks, link_inputs(g, tasks[k], tasks[n], m), n + 1),
        link_inputs(g, tasks[k], tasks[n], m).nodes == g.nodes,
    decreases m,
{
    lemma_link_inputs_grows(g, tasks[k], tasks[n], m);
    if m > 0 {
        lemma_forward_link_inputs(tasks, g, n, k, (m - 1) as nat);
        let g1 = link_inputs(g, tasks[k], tasks[n], (m - 1) as nat);
        let g2 = link_inputs(g, tasks[k], tasks[n], m);
        if produces(tasks[k].output_files@, tasks[n].input_files@[m - 1]) {
            assert forall|u: u128, v: u128| #[trigger] edge(g2, u, v) implies exists|kk: int, j: int| #![trigger tasks[kk], tasks[j]]
                0 <= kk < tasks.len() && 0 <= j < n + 1 && tasks[kk].id == u && tasks[j].id == v
                    && (g2.nodes.contains(u) ==> kk < j) by {
                if u == tasks[k].id && v == tasks[n].id {
                    assert(0 <= k < tasks.len() && 0 <= n < n + 1 && tasks[k].id == u && tasks[n].id == v);
                } else if u == tasks[k].id {
                    let s1 = targets_of(g1, u);
                    assert(g2.adj[u] == s1.push(tasks[n].id));
                    let t = choose|t: int| 0 <= t < g2.adj[u].len() && g2.adj[u][t] == v;
                    assert(t < s1.len());
                    assert(s1[t] == v);
                    assert(edge(g1, u, v));
                } else {
                    assert(edge(g1, u, v));
                }
            }
        }
    }
}

proof fn lemma_forward_link_producers(tasks: Seq<AtomicTask>, g: GraphModel, n: int, j: nat)
    requires
        distinct_ids(tasks),
        0 <= n < tasks.len(),
        j <= tasks.len(),
        building_inv(tasks, g, n + 1),
        forward_inv(tasks, g, n + 1),
    ensures
        forward_inv(tasks, link_producers(g, tasks, tasks[n], j), n + 1),
        building_inv(tasks, link_producers(g, tasks, tasks[n], j), n + 1),
    decreases j,
{
    lemma_link_producers_keeps(tasks, g, n + 1, tasks[n], j);
    if j > 0 {
        lemma_forward_link_producers(tasks, g, n, (j - 1) as nat);
        let g1 = link_producers(g, tasks, tasks[n], (j - 1) as nat);
        let k = j - 1;
        if tasks[k].id != tasks[n].id {
            assert(g1.nodes.contains(tasks[k].id) ==> k < n) by {
                if g1.nodes.contains(tasks[k].id) {
                    let i = choose|i: int| 0 <= i < n + 1 && #[trigger] tasks[i].id == tasks[k].id;
                    assert(i == k);
                }
            }
            lemma_forward_link_inputs(tasks, g1, n, k, tasks[n].input_files@.len());
        }
    }
}

proof fn lemma_forward_prefix(tasks: Seq<AtomicTask>, n: nat)
    requires
        distinct_ids(tasks),
        n <= tasks.len(),
    ensures
        forward_inv(tasks, dependency_graph_prefix(tasks, n), n as int),
        building_inv(tasks, dependency_graph_prefix(tasks, n), n as int),
    decreases n,
{
    lemma_prefix_inv(tasks, n);
    if n > 0 {
        let m = (n - 1) as int;
        lemma_forward_prefix(tasks, m as nat);
        let g0 = dependency_graph_prefix(tasks, m as nat);
        let id = tasks[m].id;
        let g1 = add_node_model(g0, id);
        lemma_add_node_keeps(tasks, g0, m);
        assert(!g0.nodes.contains(id)) by {
            if g0.nodes.contains(id) {
                let i = choose|i: int| 0 <= i < m && #[trigger] tasks[i].id == id;
            }
        }
        assert forall|u: u128, v: u128| #[trigger] edge(g1, u, v) implies exists|k: int, j: int| #![trigger tasks[k], tasks[j]]
            0 <= k < tasks.len() && 0 <= j < m + 1 && tasks[k].id == u && tasks[j].id == v
                && (g1.nodes.contains(u) ==> k < j) by {
            assert(u != id);
            assert(edge(g0, u, v));
            let (k, j) = choose|k: int, j: int| #![trigger tasks[k], tasks[j]]
                0 <= k < tasks.len() && 0 <= j < m && tasks[k].id == u && tasks[j].id == v
                    && (g0.nodes.contains(u) ==> k < j);
            assert(g1.nodes.contains(u) ==> g0.nodes.contains(u)) by {
                if g1.nodes.contains(u) {
                    let a = choose|a: int| 0 <= a < g1.nodes.len() && g1.nodes[a] == u;
                    assert(a < g0.nodes.len());
                    assert(g0.nodes[a] == u);
                }
            }
        }
        lemma_forward_link_producers(tasks, g1, m, tasks.len());
    }
}

/// When no two tasks share an id, every edge of the dependency graph runs
/// from a task to one listed after it, so the graph never holds a cycle and
/// `build_dependency_graph` never reports one.
pub proof fn lemma_distinct_ids_no_cycle(tasks: Seq<AtomicTask>)
    requires
        distinct_ids(tasks),
    ensures
        forall|u: u128, v: u128| #[trigger] edge(dependency_graph(tasks), u, v) ==> exists|k: int, j: int| #![trigger tasks[k], tasks[j]]
            0 <= k < j < tasks.len() && tasks[k].id == u && tasks[j].id == v,
        !reaches_cycle(dependency_graph(tasks)),
{
    let g = dependency_graph(tasks);
    lemma_forward_prefix(tasks, tasks.len());
    lemma_dependency_graph_shape(tasks);
    assert forall|u: u128, v: u128| #[trigger] edge(g, u, v) implies exists|k: int, j: int| #![trigger tasks[k], tasks[j]]
        0 <= k < j < tasks.len() && tasks[k].id == u && tasks[j].id == v by {
        assert(g.nodes.contains(u));
    }
    assert forall|p: Seq<u128>| #[trigger] is_walk(g, p) && g.nodes.contains(p[0]) implies p.no_duplicates() by {
        let pos = lemma_walk_positions(tasks, p, p.len() as int);
        assert forall|a: int, b: int| 0 <= a < p.len() && 0 <= b < p.len() && a != b implies p[a] != p[b] by {
            if a < b {
                assert(pos[a] < pos[b]);
                assert(tasks[pos[a]].id != tasks[pos[b]].id);
            } else {
                assert(pos[b] < pos[a]);
                assert(tasks[pos[a]].id != tasks[pos[b]].id);
            }
        }
    }
}

/// Along a walk of the dependency graph that starts at a task, the list
/// positions of the visited tasks increase.
proof fn lemma_walk_positions(tasks: Seq<AtomicTask>, p: Seq<u128>, n: int) -> (pos: Seq<int>)
    requires
        distinct_ids(tasks),
        is_walk(dependency_graph(tasks), p),
        is_task_id(tasks, p[0]),
        forall|u: u128, v: u128| #[trigger] edge(dependency_graph(tasks), u, v) ==> exists|k: int, j: int|
            #![trigger tasks[k], tasks[j]]
            0 <= k < j < tasks.len() && tasks[k].id == u && tasks[j].id == v,
        1 <= n <= p.len(),
    ensures
        pos.len() == n,
        forall|t: int| 0 <= t < n ==> 0 <= #[trigger] pos[t] < tasks.len() && tasks[pos[t]].id == p[t],
        forall|a: int, b: int| 0 <= a < b < n ==> #[trigger] pos[a] < #[trigger] pos[b],
    decreases n,
{
    if n == 1 {
        let i = choose|i: int| 0 <= i < tasks.len() && #[trigger] tasks[i].id == p[0];
        seq![i]
    } else {
        let pos0 = lemma_walk_positions(tasks, p, n - 1);
        let t = n - 2;
        let g = dependency_graph(tasks);
        assert(crate::swarm::graph_model::step_ok(g, p, t));
        let (k, j) = choose|k: int, j: int| #![trigger tasks[k], tasks[j]]
            0 <= k < j < tasks.len() && tasks[k].id == p[t] && tasks[j].id == p[t + 1];
        assert(tasks[pos0[t]].id == p[t]);
        assert(pos0[t] == k) by {
            if pos0[t] != k {
                assert(tasks[pos0[t]].id != tasks[k].id);
            }
        }
        let pos = pos0.push(j);
        assert forall|a: int, b: int| 0 <= a < b < n implies #[trigger] pos[a] < #[trigger] pos[b] by {
            if b == n - 1 {
                if a < t {
                    assert(pos0[a] < pos0[t]);
                }
            } else {
                assert(pos0[a] < pos0[b]);
            }
        }
        pos
    }
}

/// The ids of the tasks, in list order.
pub open spec fn task_ids(tasks: Seq<AtomicTask>) -> Seq<u128> {
    tasks.map_values(|t: AtomicTask| t.id)
}

/// `s` with every repeated value removed, keeping first occurrences in order.
pub open spec fn first_occurrences(s: Seq<u128>) -> Seq<u128>
    decreases s.len(),
{
    if s.len() == 0 {
        Seq::empty()
    } else {
        let r = first_occurrences(s.drop_last());
        if r.contains(s.last()) {
            r
        } else {
            r.push(s.last())
        }
    }
}

proof fn lemma_prefix_nodes(tasks: Seq<AtomicTask>, n: nat)
    requires
        n <= tasks.len(),
    ensures
        dependency_graph_prefix(tasks, n).nodes == first_occurrences(task_ids(tasks).take(n as int)),
    decreases n,
{
    if n > 0 {
        lemma_prefix_nodes(tasks, (n - 1) as nat);
        let g0 = dependency_graph_prefix(tasks, (n - 1) as nat);
        let g1 = add_node_model(g0, tasks[n - 1].id);
        lemma_link_producers_grows(g1, tasks, tasks[n - 1], tasks.len(), 0);
        let ids = task_ids(tasks);
        assert(ids.take(n as int).drop_last() =~= ids.take(n - 1));
        assert(ids.take(n as int).last() == tasks[n - 1].id);
    }
}

/// The nodes of the dependency graph are the task ids, each once, in the
/// order in which they first occur in the list.
pub proof fn lemma_dependency_graph_nodes(tasks: Seq<AtomicTask>)
    ensures
        dependency_graph(tasks).nodes == first_occurrences(task_ids(tasks)),
{
    lemma_prefix_nodes(tasks, tasks.len());
    assert(task_ids(tasks).take(tasks.len() as int) =~= task_ids(tasks));
}

/// Every edge `u -> v` joins two tasks with different ids, the first of
/// which writes a file that the second reads.
pub open spec fn edges_justified(tasks: Seq<AtomicTask>, g: GraphModel) -> bool {
    forall|u: u128, v: u128| #[trigger] edge(g, u, v) ==> u != v && exists|k: int, j: int|
        #![trigger tasks[k], tasks[j]]
        0 <= k < tasks.len() && 0 <= j < tasks.len() && tasks[k].id == u && tasks[j].id == v && feeds(tasks, k, j)
}

proof fn lemma_justified_link_inputs(tasks: Seq<AtomicTask>, g: GraphModel, k: int, n: int, m: nat)
    requires
        0 <= k < tasks.len(),
        0 <= n < tasks.len(),
        tasks[k].id != tasks[n].id,
        m <= tasks[n].input_files@.len(),
        edges_justified(tasks, g),
    ensures
        edges_justified(tasks, link_inputs(g, tasks[k], tasks[n], m)),
    decreases m,
{
    if m > 0 {
        lemma_justified_link_inputs(tasks, g, k, n, (m - 1) as nat);
        let g1 = link_inputs(g, tasks[k], tasks[n], (m - 1) as nat);
        let g2 = link_inputs(g, tasks[k], tasks[n], m);
        if produces(tasks[k].output_files@, tasks[n].input_files@[m - 1]) {
            assert(feeds(tasks, k, n));
            assert forall|u: u128, v: u128| #[trigger] edge(g2, u, v) implies u != v && exists|kk: int, j: int|
                #![trigger tasks[kk], tasks[j]]
                0 <= kk < tasks.len() && 0 <= j < tasks.len() && tasks[kk].id == u && tasks[j].id == v && feeds(
                    tasks,
                    kk,
                    j,
                ) by {
                if u == tasks[k].id && v == tasks[n].id {
                    assert(tasks[k].id == u && tasks[n].id == v);
                } else if u == tasks[k].id {
                    let s1 = targets_of(g1, u);
                    assert(g2.adj[u] == s1.push(tasks[n].id));
                    let t = choose|t: int| 0 <= t < g2.adj[u].len() && g2.adj[u][t] == v;
                    assert(t < s1.len());
                    assert(s1[t] == v);
                    assert(edge(g1, u, v));
                } else {
                    assert(edge(g1, u, v));
                }
            }
        }
    }
}

proof fn lemma_justified_link_producers(tasks: Seq<AtomicTask>, g: GraphModel, n: int, j: nat)
    requires
        0 <= n < tasks.len(),
        j <= tasks.len(),
        edges_justified(tasks, g),
    ensures
        edges_justified(tasks, link_producers(g, tasks, tasks[n], j)),
    decreases j,
{
    if j > 0 {
        lemma_justified_link_producers(tasks, g, n, (j - 1) as nat);
        let g1 = link_producers(g, tasks, tasks[n], (j - 1) as nat);
        if tasks[j - 1].id != tasks[n].id {
            lemma_justified_link_inputs(tasks, g1, j - 1, n, tasks[n].input_files@.len());
        }
    }
}

proof fn lemma_justified_prefix(tasks: Seq<AtomicTask>, n: nat)
    requires
        n <= tasks.len(),
    ensures
        edges_justified(tasks, dependency_graph_prefix(tasks, n)),
    decreases n,
{
    if n > 0 {
        lemma_justified_prefix(tasks, (n - 1) as nat);
        let g0 = dependency_graph_prefix(tasks, (n - 1) as nat);
        let id = tasks[n - 1].id;
        let g1 = add_node_model(g0, id);
        assert forall|u: u128, v: u128| #[trigger] edge(g1, u, v) implies edge(g0, u, v) by {}
        lemma_justified_link_producers(tasks, g1, n - 1, tasks.len());
    }
}

/// No edge of the dependency graph is invented: each joins two tasks with
/// different ids, where the first writes a file that the second reads.
pub proof fn lemma_dependency_edges_justified(tasks: Seq<AtomicTask>)
    ensures
        edges_justified(tasks, dependency_graph(tasks)),
{
    lemma_justified_prefix(tasks, tasks.len());
}

/// While the graph of a list with distinct ids is built, an edge between
/// two tasks leaves either an earlier task or one not yet added.
spec fn sources_before(tasks: Seq<AtomicTask>, g: GraphModel, n: int) -> bool {
    forall|a: int, b: int|
        0 <= a < tasks.len() && 0 <= b < tasks.len() && #[trigger] edge(g, tasks[a].id, tasks[b].id) ==> a < b
            || a >= n
}

proof fn lemma_sources_link_inputs(tasks: Seq<AtomicTask>, g: GraphModel, c: int, k: int, m: nat)
    requires
        distinct_ids(tasks),
        0 <= c < tasks.len(),
        0 <= k < tasks.len(),
        k != c,
        sources_before(tasks, g, c + 1),
    ensures
        sources_before(tasks, link_inputs(g, tasks[k], tasks[c], m), c + 1),
    decreases m,
{
    if m > 0 {
        lemma_sources_link_inputs(tasks, g, c, k, (m - 1) as nat);
        let g1 = link_inputs(g, tasks[k], tasks[c], (m - 1) as nat);
        let g2 = link_inputs(g, tasks[k], tasks[c], m);
        if produces(tasks[k].output_files@, tasks[c].input_files@[m - 1]) {
            assert forall|a: int, b: int|
                0 <= a < tasks.len() && 0 <= b < tasks.len() && #[trigger] edge(
                    g2,
                    tasks[a].id,
                    tasks[b].id,
                ) implies a < b || a >= c + 1 by {
                let u = tasks[a].id;
                let v = tasks[b].id;
                if u == tasks[k].id && v == tasks[c].id {
                    assert(a == k && b == c);
                } else if u == tasks[k].id {
                    let s1 = targets_of(g1, u);
                    assert(g2.adj[u] == s1.push(tasks[c].id));
                    let t = choose|t: int| 0 <= t < g2.adj[u].len() && g2.adj[u][t] == v;
                    assert(t < s1.len());
                    assert(s1[t] == v);
                    assert(edge(g1, u, v));
                } else {
                    assert(edge(g1, u, v));
                }
            }
        }
    }
}

proof fn lemma_sources_link_producers(tasks: Seq<AtomicTask>, g: GraphModel, c: int, j: nat)
    requires
        distinct_ids(tasks),
        0 <= c < tasks.len(),
        j <= tasks.len(),
        sources_before(tasks, g, c + 1),
    ensures
        sources_before(tasks, link_producers(g, tasks, tasks[c], j), c + 1),
    decreases j,
{
    if j > 0 {
        lemma_sources_link_producers(tasks, g, c, (j - 1) as nat);
        let g1 = link_producers(g, tasks, tasks[c], (j - 1) as nat);
        if tasks[j - 1].id != tasks[c].id {
            lemma_sources_link_inputs(tasks, g1, c, j - 1, tasks[c].input_files@.len());
        }
    }
}

proof fn lemma_sources_prefix(tasks: Seq<AtomicTask>, n: nat)
    requires
        distinct_ids(tasks),
        n <= tasks.len(),
    ensures
        sources_before(tasks, dependency_graph_prefix(tasks, n), n as int),
    decreases n,
{
    if n == 0 {
        let g = dependency_graph_prefix(tasks, 0);
        assert(g.adj.dom() =~= Set::<u128>::empty());
    } else {
        let c = n - 1;
        lemma_sources_prefix(tasks, c as nat);
        lemma_prefix_inv(tasks, c as nat);
        let g0 = dependency_graph_prefix(tasks, c as nat);
        let id = tasks[c].id;
        let g1 = add_node_model(g0, id);
        assert(!g0.nodes.contains(id)) by {
            if g0.nodes.contains(id) {
                let i = choose|i: int| 0 <= i < c && #[trigger] tasks[i].id == id;
                assert(tasks[i].id != tasks[c].id);
            }
        }
        assert forall|a: int, b: int|
            0 <= a < tasks.len() && 0 <= b < tasks.len() && #[trigger] edge(g1, tasks[a].id, tasks[b].id) implies a
                < b || a >= c + 1 by {
            if a == c {
                assert(g1.adj[id] =~= Seq::<u128>::empty());
            } else {
                assert(tasks[a].id != id);
                assert(edge(g0, tasks[a].id, tasks[b].id));
            }
        }
        lemma_sources_link_producers(tasks, g1, c, tasks.len());
    }
}

/// With distinct task ids, the dependency graph has an edge from task `i`
/// to task `j` exactly when `i` comes first in the list and writes a file
/// that `j` reads. (A writer listed after its reader gets no edge: when
/// the writer is added as a node, its edge list starts afresh.)
pub proof fn lemma_dependency_edge_iff(tasks: Seq<AtomicTask>, i: int, j: int)
    requires
        distinct_ids(tasks),
        0 <= i < tasks.len(),
        0 <= j < tasks.len(),
    ensures
        edge(dependency_graph(tasks), tasks[i].id, tasks[j].id) <==> (i < j && feeds(tasks, i, j)),
{
    let g = dependency_graph(tasks);
    if edge(g, tasks[i].id, tasks[j].id) {
        lemma_sources_prefix(tasks, tasks.len());
        lemma_dependency_edges_justified(tasks);
        let (k, l) = choose|k: int, l: int|
            #![trigger tasks[k], tasks[l]]
            0 <= k < tasks.len() && 0 <= l < tasks.len() && tasks[k].id == tasks[i].id && tasks[l].id
                == tasks[j].id && feeds(tasks, k, l);
        assert(k == i);
        assert(l == j);
    }
    if i < j && feeds(tasks, i, j) {
        lemma_feeds_edge(tasks, i, j);
    }
}

/// Some task among the first `n` has id `u`.
pub open spec fn seen_by(tasks: Seq<AtomicTask>, u: u128, n: int) -> bool {
    exists|a: int| 0 <= a < n && #[trigger] tasks[a].id == u
}

/// What the graph of the first `n` tasks holds as an edge `u -> v`: a task
/// with id `u` writes a file that a task `c` among the first `n`, with id
/// `v`, reads; and either a task with id `u` comes before `c`, or none
/// with id `u` has been added yet (so its edge list was never reset).
spec fn linked_upto(tasks: Seq<AtomicTask>, n: int, u: u128, v: u128) -> bool {
    exists|k: int, c: int|
        #![trigger feeds(tasks, k, c)]
        0 <= k < tasks.len() && 0 <= c < n && tasks[k].id == u && tasks[c].id == v && u != v && feeds(tasks, k, c)
            && (seen_by(tasks, u, c) || !seen_by(tasks, u, n))
}

/// The edges of the dependency graph of `tasks`: `u -> v` when a task with
/// id `u` writes a file that a task `c` with id `v != u` reads, and a task
/// with id `u` comes before `c` in the list.
pub open spec fn linked(tasks: Seq<AtomicTask>, u: u128, v: u128) -> bool {
    exists|k: int, c: int|
        #![trigger feeds(tasks, k, c)]
        0 <= k < tasks.len() && 0 <= c < tasks.len() && tasks[k].id == u && tasks[c].id == v && u != v
            && feeds(tasks, k, c) && seen_by(tasks, u, c)
}

proof fn lemma_add_edge_edges(g: GraphModel, from: u128, to: u128)
    ensures
        forall|u: u128, v: u128|
            #[trigger] edge(add_edge_model(g, from, to), u, v) <==> edge(g, u, v) || (u == from && v == to),
{
    let g2 = add_edge_model(g, from, to);
    assert forall|u: u128, v: u128| #[trigger] edge(g2, u, v) <==> edge(g, u, v) || (u == from && v == to) by {
        if u == from {
            let s1 = targets_of(g, u);
            assert(g2.adj[u] == s1.push(to));
            if edge(g2, u, v) {
                let t = choose|t: int| 0 <= t < g2.adj[u].len() && g2.adj[u][t] == v;
                if t < s1.len() {
                    assert(s1[t] == v);
                    assert(g.adj.contains_key(u));
                }
            }
            if edge(g, u, v) {
                let t = choose|t: int| 0 <= t < g.adj[u].len() && g.adj[u][t] == v;
                assert(g2.adj[u][t] == v);
            }
            if v == to {
                assert(g2.adj[u][s1.len() as int] == v);
            }
        }
    }
}

proof fn lemma_link_inputs_edges(g: GraphModel, tasks: Seq<AtomicTask>, k: int, c: int, m: nat)
    requires
        0 <= k < tasks.len(),
        0 <= c < tasks.len(),
        m <= tasks[c].input_files@.len(),
    ensures
        forall|u: u128, v: u128|
            #[trigger] edge(link_inputs(g, tasks[k], tasks[c], m), u, v) <==> edge(g, u, v) || (u == tasks[k].id
                && v == tasks[c].id && exists|i: int|
                0 <= i < m && #[trigger] produces(tasks[k].output_files@, tasks[c].input_files@[i])),
    decreases m,
{
    if m > 0 {
        lemma_link_inputs_edges(g, tasks, k, c, (m - 1) as nat);
        let g1 = link_inputs(g, tasks[k], tasks[c], (m - 1) as nat);
        let g2 = link_inputs(g, tasks[k], tasks[c], m);
        let hit = produces(tasks[k].output_files@, tasks[c].input_files@[m - 1]);
        if hit {
            lemma_add_edge_edges(g1, tasks[k].id, tasks[c].id);
        }
        assert forall|u: u128, v: u128| #[trigger] edge(g2, u, v) <==> edge(g, u, v) || (u == tasks[k].id && v
            == tasks[c].id && exists|i: int|
            0 <= i < m && #[trigger] produces(tasks[k].output_files@, tasks[c].input_files@[i])) by {
            if exists|i: int| 0 <= i < m && #[trigger] produces(tasks[k].output_files@, tasks[c].input_files@[i]) {
                let i = choose|i: int| 0 <= i < m && #[trigger] produces(tasks[k].output_files@, tasks[c].input_files@[i]);
                if i < m - 1 {
                    assert(0 <= i < m - 1);
                }
            }
            assert(edge(g1, u, v) <==> edge(g, u, v) || (u == tasks[k].id && v == tasks[c].id && exists|i: int|
                0 <= i < m - 1 && #[trigger] produces(tasks[k].output_files@, tasks[c].input_files@[i])));
        }
    }
}

proof fn lemma_link_producers_edges(g: GraphModel, tasks: Seq<AtomicTask>, c: int, j: nat)
    requires
        0 <= c < tasks.len(),
        j <= tasks.len(),
    ensures
        forall|u: u128, v: u128|
            #[trigger] edge(link_producers(g, tasks, tasks[c], j), u, v) <==> edge(g, u, v) || (v == tasks[c].id
                && u != tasks[c].id && exists|k: int| 0 <= k < j && tasks[k].id == u && #[trigger] feeds(tasks, k, c)),
    decreases j,
{
    if j > 0 {
        lemma_link_producers_edges(g, tasks, c, (j - 1) as nat);
        let g1 = link_producers(g, tasks, tasks[c], (j - 1) as nat);
        let g2 = link_producers(g, tasks, tasks[c], j);
        let k0 = j - 1;
        if tasks[k0].id != tasks[c].id {
            lemma_link_inputs_edges(g1, tasks, k0, c, tasks[c].input_files@.len());
        }
        assert forall|u: u128, v: u128| #[trigger] edge(g2, u, v) <==> edge(g, u, v) || (v == tasks[c].id && u
            != tasks[c].id && exists|k: int| 0 <= k < j && tasks[k].id == u && #[trigger] feeds(tasks, k, c)) by {
            assert(edge(g1, u, v) <==> edge(g, u, v) || (v == tasks[c].id && u != tasks[c].id && exists|k: int|
                0 <= k < j - 1 && tasks[k].id == u && #[trigger] feeds(tasks, k, c)));
            if exists|k: int| 0 <= k < j && tasks[k].id == u && #[trigger] feeds(tasks, k, c) {
                let k = choose|k: int| 0 <= k < j && tasks[k].id == u && #[trigger] feeds(tasks, k, c);
                if k < j - 1 {
                    assert(0 <= k < j - 1);
                } else if v == tasks[c].id && u != tasks[c].id {
                    let i = choose|i: int|
                        0 <= i < tasks[c].input_files@.len() && #[trigger] produces(
                            tasks[k].output_files@,
                            tasks[c].input_files@[i],
                        );
                    assert(edge(g2, u, v));
                }
            }
            if tasks[k0].id != tasks[c].id && u == tasks[k0].id && v == tasks[c].id && exists|i: int|
                0 <= i < tasks[c].input_files@.len() && #[trigger] produces(
                    tasks[k0].output_files@,
                    tasks[c].input_files@[i],
                ) {
                assert(feeds(tasks, k0, c));
            }
        }
    }
}

proof fn lemma_add_node_edges(g: GraphModel, id: u128)
    ensures
        forall|u: u128, v: u128|
            #[trigger] edge(add_node_model(g, id), u, v) <==> edge(g, u, v) && (g.nodes.contains(id) || u != id),
{
}

proof fn lemma_linked_prefix(tasks: Seq<AtomicTask>, n: nat)
    requires
        n <= tasks.len(),
    ensures
        forall|u: u128, v: u128|
            #[trigger] edge(dependency_graph_prefix(tasks, n), u, v) <==> linked_upto(tasks, n as int, u, v),
    decreases n,
{
    if n == 0 {
        let g = dependency_graph_prefix(tasks, 0);
        assert forall|u: u128, v: u128| #[trigger] edge(g, u, v) <==> linked_upto(tasks, 0, u, v) by {}
    } else {
        let c0 = n - 1;
        lemma_linked_prefix(tasks, c0 as nat);
        lemma_prefix_inv(tasks, c0 as nat);
        let g0 = dependency_graph_prefix(tasks, c0 as nat);
        let id = tasks[c0].id;
        let g1 = add_node_model(g0, id);
        lemma_add_node_edges(g0, id);
        lemma_link_producers_edges(g1, tasks, c0, tasks.len());
        let g2 = dependency_graph_prefix(tasks, n);
        assert(g2 == link_producers(g1, tasks, tasks[c0], tasks.len()));
        assert(g0.nodes.contains(id) == seen_by(tasks, id, c0));
        assert forall|u: u128, v: u128| #[trigger] edge(g2, u, v) <==> linked_upto(tasks, n as int, u, v) by {
            assert(seen_by(tasks, u, n as int) == (seen_by(tasks, u, c0) || u == id)) by {
                if seen_by(tasks, u, n as int) {
                    let a = choose|a: int| 0 <= a < n && #[trigger] tasks[a].id == u;
                    if a < c0 {
                        assert(seen_by(tasks, u, c0));
                    }
                }
                if seen_by(tasks, u, c0) {
                    let a = choose|a: int| 0 <= a < c0 && #[trigger] tasks[a].id == u;
                    assert(0 <= a < n);
                }
                if u == id {
                    assert(tasks[c0].id == u);
                }
            }
            assert(edge(g0, u, v) <==> linked_upto(tasks, c0, u, v));
            if edge(g2, u, v) {
                if edge(g1, u, v) {
                    assert(edge(g0, u, v));
                    let (k, c) = choose|k: int, c: int|
                        #![trigger feeds(tasks, k, c)]
                        0 <= k < tasks.len() && 0 <= c < c0 && tasks[k].id == u && tasks[c].id == v && u != v
                            && feeds(tasks, k, c) && (seen_by(tasks, u, c) || !seen_by(tasks, u, c0));
                    assert(seen_by(tasks, u, c) || !seen_by(tasks, u, n as int));
                    assert(0 <= c < n);
                } else {
                    let k = choose|k: int| 0 <= k < tasks.len() && tasks[k].id == u && #[trigger] feeds(tasks, k, c0);
                    assert(seen_by(tasks, u, c0) || !seen_by(tasks, u, n as int));
                    assert(tasks[k].id == u && tasks[c0].id == v && feeds(tasks, k, c0));
                }
            }
            if linked_upto(tasks, n as int, u, v) {
                let (k, c) = choose|k: int, c: int|
                    #![trigger feeds(tasks, k, c)]
                    0 <= k < tasks.len() && 0 <= c < n && tasks[k].id == u && tasks[c].id == v && u != v && feeds(
                        tasks,
                        k,
                        c,
                    ) && (seen_by(tasks, u, c) || !seen_by(tasks, u, n as int));
                if c == c0 {
                    assert(exists|kk: int| 0 <= kk < tasks.len() && tasks[kk].id == u && #[trigger] feeds(tasks, kk, c0));
                } else {
                    if u == id {
                        assert(seen_by(tasks, u, c));
                        let a = choose|a: int| 0 <= a < c && #[trigger] tasks[a].id == u;
                        assert(seen_by(tasks, u, c0)) by {
                            assert(0 <= a < c0);
                        }
                    }
                    assert(seen_by(tasks, u, c) || !seen_by(tasks, u, c0));
                    assert(linked_upto(tasks, c0, u, v));
                    assert(edge(g0, u, v));
                }
            }
        }
    }
}

/// The edges of the dependency graph, for any task list (ids may repeat):
/// `u -> v` exactly when a task with id `u` writes a file that a task with
/// another id `v` reads, and a task with id `u` comes before that reader.
/// (The first time an id is added as a node its edge list starts afresh,
/// so links recorded for it before then are lost.)
pub proof fn lemma_dependency_edges(tasks: Seq<AtomicTask>)
    ensures
        forall|u: u128, v: u128| #[trigger] edge(dependency_graph(tasks), u, v) <==> linked(tasks, u, v),
{
    lemma_linked_prefix(tasks, tasks.len());
    assert forall|u: u128, v: u128| #[trigger] edge(dependency_graph(tasks), u, v) <==> linked(tasks, u, v) by {
        if linked_upto(tasks, tasks.len() as int, u, v) {
            let (k, c) = choose|k: int, c: int|
                #![trigger feeds(tasks, k, c)]
                0 <= k < tasks.len() && 0 <= c < tasks.len() && tasks[k].id == u && tasks[c].id == v && u != v
                    && feeds(tasks, k, c) && (seen_by(tasks, u, c) || !seen_by(tasks, u, tasks.len() as int));
            assert(tasks[k].id == u);
            assert(seen_by(tasks, u, tasks.len() as int));
        }
        if linked(tasks, u, v) {
            let (k, c) = choose|k: int, c: int|
                #![trigger feeds(tasks, k, c)]
                0 <= k < tasks.len() && 0 <= c < tasks.len() && tasks[k].id == u && tasks[c].id == v && u != v
                    && feeds(tasks, k, c) && seen_by(tasks, u, c);
            assert(linked_upto(tasks, tasks.len() as int, u, v));
        }
    }
}

} // verus!
