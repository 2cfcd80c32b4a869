//! A dependency graph over task ids, with cycle detection and a
//! level-by-level topological order.

use std::collections::HashMap;
use std::collections::HashSet;
use std::collections::VecDeque;
use vstd::prelude::*;
use vstd::std_specs::iter::IteratorSpec;

use crate::swarm::graph_model::{
    add_edge_model, add_node_model, candidates, done_before, edge, edge_targets, finished_state, hits,
    in_level, is_level_order, is_ready, is_walk, lemma_candidates_finite, lemma_finish_reach,
    lemma_finished_no_hits, lemma_hits_extend, lemma_no_hits_from_successors, lemma_occ_take_le,
    lemma_occ_take_step, lemma_occ_zero, lemma_pending_bound, lemma_pending_mark, lemma_pending_unlisted,
    lemma_pending_zero_edges, lemma_reach_step, lemma_ready_mono, lemma_universe_finite, model_wf, occ,
    pending_in, reach_set, reachable, reaches_cycle, safe, targets_of, universe, GraphModel,
};

verus! {

/// Tasks (by id) and the edges `from -> to` meaning "`to` depends on `from`".
pub struct TaskGraph {
    nodes: Vec<u128>,
    edges: HashMap<u128, Vec<u128>>,
}

impl View for TaskGraph {
    type V = GraphModel;

    closed spec fn view(&self) -> GraphModel {
        GraphModel { nodes: self.nodes@, adj: self.edges@.map_values(|v: Vec<u128>| v@) }
    }
}

/// Linear membership test on a vector of ids.
fn contains_id(v: &Vec<u128>, x: u128) -> (found: bool)
    ensures
        found == v@.contains(x),
{
    let mut i: usize = 0;
    while i < v.len()
        invariant
            i <= v.len(),
            forall|k: int| 0 <= k < i ==> v@[k] != x,
        decreases v.len() - i,
    {
        if v[i] == x {
            return true;
        }
        i = i + 1;
    }
    false
}

impl TaskGraph {
    #[verifier::type_invariant]
    spec fn inv(self) -> bool {
        &&& self.nodes@.no_duplicates()
        &&& forall|i: int| 0 <= i < self.nodes@.len() ==> self.edges@.contains_key(#[trigger] self.nodes@[i])
    }

    proof fn lemma_inv_model(g: &TaskGraph)
        requires
            g.inv(),
        ensures
            model_wf(g@),
    {
        assert forall|n: u128| g@.nodes.contains(n) implies #[trigger] g@.adj.contains_key(n) by {
            let i = choose|i: int| 0 <= i < g.nodes@.len() && g.nodes@[i] == n;
            assert(g.edges@.contains_key(g.nodes@[i]));
        }
        assert(g@.adj.dom() =~= g.edges@.dom());
    }

    /// An empty graph.
    pub fn new() -> (g: TaskGraph)
        ensures
            g@ == (GraphModel { nodes: Seq::empty(), adj: Map::empty() }),
            model_wf(g@),
    {
        let g = TaskGraph { nodes: Vec::new(), edges: HashMap::new() };
        assert(g@.adj =~= Map::empty());
        proof {
            use_type_invariant(&g);
            Self::lemma_inv_model(&g);
        }
        g
    }

    /// Moves the contents out, leaving an empty graph behind.
    fn take_parts(&mut self) -> (parts: (Vec<u128>, HashMap<u128, Vec<u128>>))
        ensures
            parts.0@ == old(self).nodes@,
            parts.1@ == old(self).edges@,
            old(self).inv(),
    {
        proof {
            use_type_invariant(&*self);
        }
        let mut nodes: Vec<u128> = Vec::new();
        let mut edges: HashMap<u128, Vec<u128>> = HashMap::new();
        std::mem::swap(&mut nodes, &mut self.nodes);
        std::mem::swap(&mut edges, &mut self.edges);
        (nodes, edges)
    }

    /// Adds a task; a task that is already present is left as it is.
    pub fn add_node(&mut self, id: u128)
        ensures
            final(self)@ == add_node_model(old(self)@, id),
            model_wf(final(self)@),
    {
        let (mut nodes, mut edges) = self.take_parts();
        if !contains_id(&nodes, id) {
            nodes.push(id);
            edges.insert(id, Vec::new());
            proof {
                assert forall|a: int, b: int|
                    0 <= a < nodes@.len() && 0 <= b < nodes@.len() && a != b implies nodes@[a]
                    != nodes@[b] by {
                    if a == nodes@.len() - 1 {
                        assert(old(self).nodes@.contains(nodes@[b]));
                    } else if b == nodes@.len() - 1 {
                        assert(old(self).nodes@.contains(nodes@[a]));
                    }
                }
                assert forall|i: int| 0 <= i < nodes@.len() implies edges@.contains_key(
                    #[trigger] nodes@[i],
                ) by {
                    if i < nodes@.len() - 1 {
                        assert(old(self).edges@.contains_key(old(self).nodes@[i]));
                    }
                }
            }
        }
        *self = TaskGraph { nodes, edges };
        proof {
            if !old(self)@.nodes.contains(id) {
                assert(self@.adj =~= old(self)@.adj.insert(id, Seq::empty()));
            } else {
                assert(self@.adj =~= old(self)@.adj);
            }
            use_type_invariant(&*self);
            Self::lemma_inv_model(&*self);
        }
    }

    /// Records that `to` depends on `from`.
    pub fn add_edge(&mut self, from: u128, to: u128)
        ensures
            final(self)@ == add_edge_model(old(self)@, from, to),
            model_wf(final(self)@),
    {
        let (nodes, mut edges) = self.take_parts();
        let removed = edges.remove(&from);
        let list = match removed {
            Some(mut v) => {
                v.push(to);
                v
            },
            None => {
                let mut v = Vec::new();
                v.push(to);
                v
            },
        };
        let ghost new_list = list@;
        edges.insert(from, list);
        proof {
            assert forall|i: int| 0 <= i < nodes@.len() implies edges@.contains_key(
                #[trigger] nodes@[i],
            ) by {
                assert(old(self).edges@.contains_key(old(self).nodes@[i]));
            }
        }
        *self = TaskGraph { nodes, edges };
        proof {
            assert(new_list == targets_of(old(self)@, from).push(to));
            assert(self@.adj =~= old(self)@.adj.insert(from, targets_of(old(self)@, from).push(to)));
            use_type_invariant(&*self);
            Self::lemma_inv_model(&*self);
        }
    }

    /// Whether a dependency cycle can be reached from one of the tasks.
    pub fn has_cycle(&self) -> (found: bool)
        ensures
            found == reaches_cycle(self@),
            model_wf(self@),
    {
        proof {
            use_type_invariant(self);
            Self::lemma_inv_model(self);
        }
        let mut temp: HashSet<u128> = HashSet::new();
        let mut perm: HashSet<u128> = HashSet::new();
        let mut i: usize = 0;
        while i < self.nodes.len()
            invariant
                i <= self.nodes.len(),
                self@.nodes == self.nodes@,
                model_wf(self@),
                temp@ == Set::<u128>::empty(),
                finished_state(self@, perm@, temp@),
                forall|k: int| 0 <= k < i ==> perm@.contains(#[trigger] self.nodes@[k]),
            decreases self.nodes.len() - i,
        {
            let node = self.nodes[i];
            let ghost before = perm@;
            if self.visit(node, &mut temp, &mut perm) {
                proof {
                    let p = choose|p: Seq<u128>|
                        #[trigger] is_walk(self@, p) && p[0] == node && (!p.no_duplicates() || exists|j: int|
                            0 <= j < p.len() && Set::<u128>::empty().contains(p[j]));
                    assert(self@.nodes.contains(p[0]));
                }
                return true;
            }
            proof {
                lemma_finish_reach(self@, before, Set::empty(), node);
            }
            i = i + 1;
        }
        proof {
            assert forall|p: Seq<u128>| #[trigger] is_walk(self@, p) && self@.nodes.contains(
                p[0],
            ) implies p.no_duplicates() by {
                let k = choose|k: int| 0 <= k < self.nodes@.len() && self.nodes@[k] == p[0];
                assert(perm@.contains(self.nodes@[k]));
                assert(safe(self@, p[0]));
            }
        }
        false
    }

    /// Depth-first search from `node`, with `temp` the vertices on the
    /// current search path and `perm` the finished ones. Answers whether a
    /// walk from `node` meets the path or repeats a vertex (a cycle); when
    /// it does not, everything reachable from `node` ends up finished.
    fn visit(&self, node: u128, temp: &mut HashSet<u128>, perm: &mut HashSet<u128>) -> (found: bool)
        requires
            finished_state(self@, old(perm)@, old(temp)@),
        ensures
            found == hits(self@, node, old(temp)@),
            !found ==> final(temp)@ == old(temp)@ && final(perm)@ == old(perm)@ + reach_set(self@, node),
        decreases (universe(self@) - old(temp)@).len(),
    {
        let ghost g = self@;
        proof {
            use_type_invariant(self);
            Self::lemma_inv_model(self);
            lemma_universe_finite(g);
        }
        if perm.contains(&node) {
            proof {
                lemma_finished_no_hits(g, perm@, temp@, node);
                assert(perm@ + reach_set(g, node) =~= perm@);
            }
            return false;
        }
        if !temp.insert(node) {
            proof {
                let p = seq![node];
                assert(is_walk(g, p));
                assert(old(temp)@.contains(p[0]));
            }
            return true;
        }
        proof {
            assert(!old(temp)@.contains(node));
        }
        match self.edges.get(&node) {
            Some(neighbors) => {
                let ghost succ = neighbors@;
                assert(g.adj.contains_key(node) && g.adj[node] == succ);
                proof {
                    assert(universe(g).contains(node));
                    let before = universe(g) - old(temp)@;
                    vstd::set_lib::lemma_len_subset(before, universe(g));
                    assert(universe(g) - temp@ =~= before.remove(node));
                }
                let mut i: usize = 0;
                while i < neighbors.len()
                    invariant
                        i <= neighbors.len(),
                        neighbors@ == succ,
                        g == self@,
                        g.adj.contains_key(node),
                        g.adj[node] == succ,
                        universe(g).finite(),
                        temp@ == old(temp)@.insert(node),
                        (universe(g) - temp@).len() < (universe(g) - old(temp)@).len(),
                        finished_state(g, perm@, temp@),
                        forall|w: u128|
                            perm@.contains(w) <==> (old(perm)@.contains(w) || exists|k: int|
                                0 <= k < i && #[trigger] reachable(g, succ[k], w)),
                        forall|k: int| 0 <= k < i ==> !hits(g, #[trigger] succ[k], temp@),
                    decreases neighbors.len() - i,
                {
                    let next = neighbors[i];
                    proof {
                        assert(succ.contains(next));
                        assert(edge(g, node, next));
                        assert(universe(g).contains(next));
                    }
                    let ghost before = perm@;
                    if self.visit(next, temp, perm) {
                        proof {
                            lemma_hits_extend(g, node, next, old(temp)@);
                        }
                        return true;
                    }
                    proof {
                        lemma_finish_reach(g, before, temp@, next);
                        assert forall|w: u128|
                            perm@.contains(w) <==> (old(perm)@.contains(w) || exists|k: int|
                                0 <= k < i + 1 && #[trigger] reachable(g, succ[k], w)) by {
                            if reachable(g, succ[i as int], w) {
                                assert(reach_set(g, next).contains(w));
                            }
                            if exists|k: int| 0 <= k < i + 1 && #[trigger] reachable(g, succ[k], w) {
                                let k = choose|k: int| 0 <= k < i + 1 && #[trigger] reachable(g, succ[k], w);
                                if k < i {
                                    assert(before.contains(w));
                                }
                            }
                            if before.contains(w) && !old(perm)@.contains(w) {
                                let k = choose|k: int| 0 <= k < i && #[trigger] reachable(g, succ[k], w);
                                assert(0 <= k < i + 1);
                            }
                            if reach_set(g, next).contains(w) {
                                assert(reachable(g, succ[i as int], w));
                            }
                        }
                    }
                    i = i + 1;
                }
                proof {
                    assert forall|next: u128| #[trigger] edge(g, node, next) implies !hits(g, next, old(temp)@.insert(node)) by {
                        let k = choose|k: int| 0 <= k < succ.len() && succ[k] == next;
                        assert(!hits(g, succ[k], temp@));
                    }
                    lemma_no_hits_from_successors(g, node, old(temp)@);
                    assert forall|w: u128|
                        perm@.insert(node).contains(w) <==> (old(perm)@ + reach_set(g, node)).contains(w) by {
                        lemma_reach_step(g, node, w);
                        if exists|next: u128| #[trigger] edge(g, node, next) && reachable(g, next, w) {
                            let next = choose|next: u128| #[trigger] edge(g, node, next) && reachable(g, next, w);
                            let k = choose|k: int| 0 <= k < succ.len() && succ[k] == next;
                            assert(reachable(g, succ[k], w));
                        }
                        if exists|k: int| 0 <= k < succ.len() && #[trigger] reachable(g, succ[k], w) {
                            let k = choose|k: int| 0 <= k < succ.len() && #[trigger] reachable(g, succ[k], w);
                            assert(succ.contains(succ[k]));
                            assert(edge(g, node, succ[k]));
                        }
                    }
                }
            },
            None => {
                proof {
                    assert(!g.adj.contains_key(node));
                    lemma_no_hits_from_successors(g, node, old(temp)@);
                    assert forall|w: u128|
                        perm@.insert(node).contains(w) <==> (old(perm)@ + reach_set(g, node)).contains(w) by {
                        lemma_reach_step(g, node, w);
                    }
                }
            },
        }
        let ghost last = perm@;
        temp.remove(&node);
        perm.insert(node);
        proof {
            assert(temp@ =~= old(temp)@);
            assert(perm@ =~= old(perm)@ + reach_set(g, node)) by {
                assert(perm@ == last.insert(node));
            }
        }
        false
    }

    /// The vertices that have an edge list, each listed once.
    fn edge_sources(&self) -> (keys: Vec<u128>)
        ensures
            keys@.no_duplicates(),
            keys@.to_set() == self@.adj.dom(),
    {
        let mut keys: Vec<u128> = Vec::new();
        for u in iter: self.edges.keys()
            invariant
                keys@.len() == iter.index(),
                forall|j: int| 0 <= j < iter.index() ==> keys@[j] == *iter.seq()[j],
        {
            keys.push(*u);
        }
        proof {
            let r = IteratorSpec::remaining(&vstd::std_specs::hash::spec_keys_iter(&self.edges));
            assert(keys@ =~= r.unref());
        }
        keys
    }

    /// For every candidate vertex, the number of edges into it; and the
    /// candidates listed once each (nodes first, then targets in the order
    /// they are met).
    fn initial_in_degrees(&self, keys: &Vec<u128>) -> (res: (HashMap<u128, u128>, Vec<u128>))
        requires
            keys@.no_duplicates(),
            keys@.to_set() == self@.adj.dom(),
        ensures
            res.1@.no_duplicates(),
            res.1@.to_set() == candidates(self@),
            res.0@.dom() == candidates(self@),
            forall|v: u128| #[trigger] res.0@.contains_key(v) ==> res.0@[v] == pending_in(
                self@,
                keys@,
                v,
                Set::empty(),
            ),
    {
        proof {
            use_type_invariant(self);
            Self::lemma_inv_model(self);
        }
        let ghost g = self@;
        let ghost ks = keys@;
        let mut in_degree: HashMap<u128, u128> = HashMap::new();
        let mut verts: Vec<u128> = Vec::new();
        let mut n: usize = 0;
        while n < self.nodes.len()
            invariant
                n <= self.nodes.len(),
                g == self@,
                g.nodes == self.nodes@,
                g.nodes.no_duplicates(),
                verts@ == g.nodes.take(n as int),
                in_degree@.dom() == verts@.to_set(),
                forall|v: u128| #[trigger] in_degree@.contains_key(v) ==> in_degree@[v] == 0,
            decreases self.nodes.len() - n,
        {
            let id = self.nodes[n];
            let ghost before = verts@;
            in_degree.insert(id, 0);
            verts.push(id);
            proof {
                assert(verts@ =~= g.nodes.take(n + 1));
                before.lemma_push_to_set_commute(id);
                assert(in_degree@.dom() =~= verts@.to_set());
            }
            n = n + 1;
        }
        proof {
            assert(verts@ =~= g.nodes);
        }
        let mut i: usize = 0;
        while i < keys.len()
            invariant
                i <= keys.len(),
                g == self@,
                ks == keys@,
                ks.to_set() == g.adj.dom(),
                verts@.no_duplicates(),
                in_degree@.dom() == verts@.to_set(),
                forall|v: u128|
                    #[trigger] in_degree@.contains_key(v) <==> (g.nodes.contains(v) || pending_in(
                        g,
                        ks.take(i as int),
                        v,
                        Set::empty(),
                    ) > 0),
                forall|v: u128| #[trigger]
                    in_degree@.contains_key(v) ==> in_degree@[v] == pending_in(
                        g,
                        ks.take(i as int),
                        v,
                        Set::empty(),
                    ),
                forall|k: int| 0 <= k < i ==> (#[trigger] targets_of(g, ks[k])).len() <= usize::MAX,
            decreases keys.len() - i,
        {
            let u = keys[i];
            proof {
                assert(ks.to_set().contains(u));
                assert(ks.take(i + 1).drop_last() =~= ks.take(i as int));
            }
            if let Some(list) = self.edges.get(&u) {
                let ghost succ = list@;
                assert(targets_of(g, u) == succ);
                let mut j: usize = 0;
                while j < list.len()
                    invariant
                        j <= list.len(),
                        i < keys.len(),
                        u == ks[i as int],
                        list@ == succ,
                        targets_of(g, u) == succ,
                        g == self@,
                        ks == keys@,
                        verts@.no_duplicates(),
                        in_degree@.dom() == verts@.to_set(),
                        forall|v: u128|
                            #[trigger] in_degree@.contains_key(v) <==> (g.nodes.contains(v)
                                || pending_in(g, ks.take(i as int), v, Set::empty()) + occ(
                                succ.take(j as int),
                                v,
                            ) > 0),
                        forall|v: u128| #[trigger]
                            in_degree@.contains_key(v) ==> in_degree@[v] == pending_in(
                                g,
                                ks.take(i as int),
                                v,
                                Set::empty(),
                            ) + occ(succ.take(j as int), v),
                        forall|k: int| 0 <= k < i ==> (#[trigger] targets_of(g, ks[k])).len() <= usize::MAX,
                    decreases list.len() - j,
                {
                    let to = list[j];
                    proof {
                        lemma_occ_take_step(succ, j as int, to);
                        assert forall|v: u128| v != to implies occ(succ.take(j + 1), v) == occ(
                            succ.take(j as int),
                            v,
                        ) by {
                            lemma_occ_take_step(succ, j as int, v);
                        }
                    }
                    let cur: Option<u128> = match in_degree.get(&to) {
                        Some(c) => Some(*c),
                        None => None,
                    };
                    match cur {
                        Some(c) => {
                            proof {
                                let pre = ks.take(i as int);
                                assert forall|k: int| 0 <= k < pre.len() implies (#[trigger] targets_of(
                                    g,
                                    pre[k],
                                )).len() <= usize::MAX by {
                                    assert(pre[k] == ks[k]);
                                }
                                lemma_pending_bound(g, pre, to, Set::empty(), usize::MAX as nat);
                                lemma_occ_zero(succ.take(j as int), to);
                                let m = usize::MAX as nat;
                                assert(pre.len() * m <= m * m) by (nonlinear_arith)
                                    requires
                                        pre.len() <= m,
                                ;
                                assert(m * m + m < 0x1_0000_0000_0000_0000_0000_0000_0000_0000) by (nonlinear_arith)
                                    requires
                                        m <= 0xffff_ffff_ffff_ffff,
                                ;
                            }
                            in_degree.insert(to, c + 1);
                        },
                        None => {
                            let ghost before = verts@;
                            in_degree.insert(to, 1);
                            verts.push(to);
                            proof {
                                before.lemma_push_to_set_commute(to);
                                assert(!before.contains(to));
                                assert(verts@.no_duplicates()) by {
                                    assert forall|a: int, b: int|
                                        0 <= a < verts@.len() && 0 <= b < verts@.len() && a != b implies verts@[a]
                                        != verts@[b] by {
                                        if a == verts@.len() - 1 {
                                            assert(before[b] == verts@[b]);
                                        } else if b == verts@.len() - 1 {
                                            assert(before[a] == verts@[a]);
                                        } else {
                                            assert(before[a] == verts@[a]);
                                            assert(before[b] == verts@[b]);
                                        }
                                    }
                                }
                                assert(in_degree@.dom() =~= verts@.to_set());
                            }
                        },
                    }
                    j = j + 1;
                }
                proof {
                    assert(succ.take(list.len() as int) =~= succ);
                }
            }
            i = i + 1;
        }
        proof {
            assert(ks.take(keys.len() as int) =~= ks);
            assert forall|v: u128| in_degree@.dom().contains(v) <==> candidates(g).contains(v) by {
                lemma_pending_zero_edges(g, ks, v, Set::empty());
                if edge_targets(g.adj).contains(v) {
                    let u = choose|u: u128| g.adj.contains_key(u) && #[trigger] g.adj[u].contains(v);
                    assert(edge(g, u, v));
                }
                if pending_in(g, ks, v, Set::empty()) > 0 {
                    let u = choose|u: u128| !(#[trigger] edge(g, u, v) ==> Set::<u128>::empty().contains(u));
                    assert(g.adj.contains_key(u) && g.adj[u].contains(v));
                }
                if g.nodes.contains(v) {
                    let a = choose|a: int| 0 <= a < g.nodes.len() && g.nodes[a] == v;
                    assert(g.nodes.to_set().contains(v));
                }
            }
            assert(in_degree@.dom() =~= candidates(g));
        }
        (in_degree, verts)
    }

    /// Takes away the edges of the just-scheduled `node` from the counters
    /// of its targets, and queues each target whose counter reaches zero.
    fn release_successors(
        &self,
        node: u128,
        nexts: &Vec<u128>,
        in_degree: &mut HashMap<u128, u128>,
        queue: &mut VecDeque<u128>,
        Ghost(ks): Ghost<Seq<u128>>,
        Ghost(done): Ghost<Set<u128>>,
        Ghost(k): Ghost<nat>,
        Ghost(rest): Ghost<Seq<u128>>,
        Ghost(pushed): Ghost<Seq<u128>>,
    ) -> (out: Ghost<Seq<u128>>)
        requires
            self@.adj.contains_key(node),
            self@.adj[node] == nexts@,
            ks.to_set() == self@.adj.dom(),
            old(in_degree)@.dom() == candidates(self@),
            forall|v: u128| #[trigger]
                old(in_degree)@.contains_key(v) ==> old(in_degree)@[v] == pending_in(self@, ks, v, done)
                    + occ(nexts@, v),
            !(k > 0 && is_ready(self@, (k - 1) as nat, node)),
            old(queue)@ == rest + pushed,
            (rest + pushed).no_duplicates(),
            forall|i: int| 0 <= i < rest.len() ==> is_ready(self@, k, #[trigger] rest[i]),
            forall|v: u128| #[trigger]
                pushed.contains(v) <==> (candidates(self@).contains(v) && old(in_degree)@[v] == 0
                    && !is_ready(self@, k, v)),
        ensures
            final(in_degree)@.dom() == candidates(self@),
            forall|v: u128| #[trigger]
                final(in_degree)@.contains_key(v) ==> final(in_degree)@[v] == pending_in(self@, ks, v, done),
            final(queue)@ == rest + out@,
            (rest + out@).no_duplicates(),
            forall|v: u128| #[trigger]
                out@.contains(v) <==> (candidates(self@).contains(v) && final(in_degree)@[v] == 0
                    && !is_ready(self@, k, v)),
    {
        let ghost g = self@;
        let ghost mut cur_pushed = pushed;
        let mut j: usize = 0;
        while j < nexts.len()
            invariant
                j <= nexts.len(),
                g == self@,
                g.adj.contains_key(node),
                g.adj[node] == nexts@,
                in_degree@.dom() == candidates(g),
                forall|v: u128| #[trigger]
                    in_degree@.contains_key(v) ==> in_degree@[v] + occ(nexts@.take(j as int), v)
                        == pending_in(g, ks, v, done) + occ(nexts@, v),
                !(k > 0 && is_ready(g, (k - 1) as nat, node)),
                queue@ == rest + cur_pushed,
                (rest + cur_pushed).no_duplicates(),
                forall|i: int| 0 <= i < rest.len() ==> is_ready(g, k, #[trigger] rest[i]),
                forall|v: u128| #[trigger]
                    cur_pushed.contains(v) <==> (candidates(g).contains(v) && in_degree@[v] == 0
                        && !is_ready(g, k, v)),
            decreases nexts.len() - j,
        {
            let next = nexts[j];
            proof {
                lemma_occ_take_step(nexts@, j as int, next);
                lemma_occ_take_le(nexts@, j + 1, next);
                assert forall|v: u128| v != next implies occ(nexts@.take(j + 1), v) == occ(
                    nexts@.take(j as int),
                    v,
                ) by {
                    lemma_occ_take_step(nexts@, j as int, v);
                }
                assert(nexts@.contains(next));
                assert(edge(g, node, next));
                assert(edge_targets(g.adj).contains(next));
                assert(candidates(g).contains(next));
                assert(!is_ready(g, k, next)) by {
                    if is_ready(g, k, next) {
                        assert(k > 0 && is_ready(g, (k - 1) as nat, node));
                    }
                }
            }
            let cur: Option<u128> = match in_degree.get(&next) {
                Some(c) => Some(*c),
                None => None,
            };
            if let Some(c) = cur {
                let c1 = c - 1;
                in_degree.insert(next, c1);
                if c1 == 0 {
                    let ghost before = cur_pushed;
                    queue.push_back(next);
                    proof {
                        cur_pushed = before.push(next);
                        assert(!before.contains(next));
                        assert(!rest.contains(next)) by {
                            if rest.contains(next) {
                                let i = choose|i: int| 0 <= i < rest.len() && rest[i] == next;
                                assert(is_ready(g, k, rest[i]));
                            }
                        }
                        assert(rest + cur_pushed =~= (rest + before).push(next));
                        assert((rest + cur_pushed).no_duplicates()) by {
                            let s0 = rest + before;
                            assert(!s0.contains(next)) by {
                                if s0.contains(next) {
                                    let i = choose|i: int| 0 <= i < s0.len() && s0[i] == next;
                                    if i < rest.len() {
                                        assert(rest[i] == next);
                                    } else {
                                        assert(before[i - rest.len()] == next);
                                    }
                                }
                            }
                            assert forall|a: int, b: int|
                                0 <= a < s0.len() + 1 && 0 <= b < s0.len() + 1 && a != b implies s0.push(
                                    next,
                                )[a] != s0.push(next)[b] by {
                                if a == s0.len() {
                                    assert(s0[b] == s0.push(next)[b]);
                                } else if b == s0.len() {
                                    assert(s0[a] == s0.push(next)[a]);
                                }
                            }
                        }
                        assert(queue@ == rest + cur_pushed);
                        assert forall|v: u128| #[trigger]
                            cur_pushed.contains(v) <==> (candidates(g).contains(v) && in_degree@[v] == 0
                                && !is_ready(g, k, v)) by {
                            if v != next && cur_pushed.contains(v) {
                                let i = choose|i: int| 0 <= i < cur_pushed.len() && cur_pushed[i] == v;
                                assert(before[i] == v);
                            }
                            if v != next && before.contains(v) {
                                let i = choose|i: int| 0 <= i < before.len() && before[i] == v;
                                assert(cur_pushed[i] == v);
                            }
                            if v == next {
                                assert(cur_pushed[cur_pushed.len() - 1] == next);
                            }
                        }
                    }
                }
            }
            j = j + 1;
        }
        proof {
            assert(nexts@.take(nexts.len() as int) =~= nexts@);
        }
        Ghost(cur_pushed)
    }

    /// Groups the tasks into levels that can run in parallel: level 0 holds
    /// the tasks nothing points to, and each later level the tasks whose
    /// last prerequisite sits in the level before it. Tasks on or behind a
    /// cycle are left out. Within a level the order is not specified.
    pub fn topological_sort_parallel(&self) -> (levels: Vec<Vec<u128>>)
        ensures
            is_level_order(self@, levels@.map_values(|l: Vec<u128>| l@)),
            model_wf(self@),
    {
        proof {
            use_type_invariant(self);
            Self::lemma_inv_model(self);
            lemma_candidates_finite(self@);
        }
        let ghost g = self@;
        let keys = self.edge_sources();
        let ghost ks = keys@;
        let (mut in_degree, verts) = self.initial_in_degrees(&keys);
        let mut queue: VecDeque<u128> = VecDeque::new();
        let mut idx: usize = 0;
        while idx < verts.len()
            invariant
                idx <= verts.len(),
                g == self@,
                verts@.no_duplicates(),
                verts@.to_set() == candidates(g),
                in_degree@.dom() == candidates(g),
                queue@.no_duplicates(),
                forall|v: u128| #[trigger]
                    queue@.contains(v) <==> (verts@.take(idx as int).contains(v) && in_degree@[v]
                        == 0),
            decreases verts.len() - idx,
        {
            let v = verts[idx];
            let ghost pre0 = verts@.take(idx as int);
            let ghost pre1 = verts@.take(idx + 1);
            proof {
                assert(verts@.to_set().contains(v));
                assert(pre1 =~= pre0.push(v));
                assert(!pre0.contains(v)) by {
                    if pre0.contains(v) {
                        let a = choose|a: int| 0 <= a < idx && pre0[a] == v;
                        assert(verts@[a] == verts@[idx as int]);
                    }
                }
            }
            let zero = match in_degree.get(&v) {
                Some(c) => *c == 0,
                None => false,
            };
            assert(in_degree@.contains_key(v));
            assert(zero == (in_degree@[v] == 0));
            if zero {
                let ghost before = queue@;
                queue.push_back(v);
                proof {
                    assert(!before.contains(v));
                    assert forall|a: int, b: int|
                        0 <= a < queue@.len() && 0 <= b < queue@.len() && a != b implies queue@[a]
                        != queue@[b] by {
                        if a == before.len() {
                            assert(before[b] == queue@[b]);
                        } else if b == before.len() {
                            assert(before[a] == queue@[a]);
                        } else {
                            assert(before[a] == queue@[a] && before[b] == queue@[b]);
                        }
                    }
                    assert forall|w: u128| #[trigger]
                        queue@.contains(w) <==> (pre1.contains(w) && in_degree@[w]
                            == 0) by {
                        if queue@.contains(w) && w != v {
                            let a = choose|a: int| 0 <= a < queue@.len() && queue@[a] == w;
                            assert(a != before.len());
                            assert(before[a] == w);
                            assert(before.contains(w));
                        }
                        if before.contains(w) {
                            let a = choose|a: int| 0 <= a < before.len() && before[a] == w;
                            assert(queue@[a] == w);
                        }
                        if w == v {
                            assert(queue@[before.len() as int] == v);
                            assert(pre1[idx as int] == v);
                        }
                        if pre1.contains(w) && w != v {
                            let a = choose|a: int| 0 <= a < idx + 1 && pre1[a] == w;
                            assert(pre0[a] == w);
                        }
                        if pre0.contains(w) {
                            let a = choose|a: int| 0 <= a < idx && pre0[a] == w;
                            assert(pre1[a] == w);
                        }
                    }
                }
            } else {
                proof {
                    assert forall|w: u128| #[trigger]
                        queue@.contains(w) <==> (pre1.contains(w) && in_degree@[w]
                            == 0) by {
                        if pre1.contains(w) && w != v {
                            let a = choose|a: int| 0 <= a < idx + 1 && pre1[a] == w;
                            assert(pre0[a] == w);
                        }
                        if pre0.contains(w) {
                            let a = choose|a: int| 0 <= a < idx && pre0[a] == w;
                            assert(pre1[a] == w);
                        }
                    }
                }
            }
            idx = idx + 1;
        }
        proof {
            assert(verts@.take(verts.len() as int) =~= verts@);
            assert forall|v: u128| #[trigger] queue@.contains(v) <==> in_level(g, 0, v) by {
                lemma_pending_zero_edges(g, ks, v, Set::empty());
                if candidates(g).contains(v) {
                    assert(verts@.to_set().contains(v));
                }
                if in_level(g, 0, v) {
                    assert(verts@.to_set().contains(v));
                    assert forall|u: u128| #[trigger] edge(g, u, v) implies Set::<u128>::empty().contains(u) by {
                        assert(0nat > 0 && is_ready(g, (0 - 1) as nat, u));
                    }
                }
            }
            assert(done_before(g, 0) =~= Set::<u128>::empty());
        }
        let mut levels: Vec<Vec<u128>> = Vec::new();
        let ghost mut processed: Set<u128> = Set::empty();
        while queue.len() > 0
            invariant
                g == self@,
                model_wf(g),
                candidates(g).finite(),
                ks.to_set() == g.adj.dom(),
                ks.no_duplicates(),
                processed == done_before(g, levels@.len() as nat),
                processed.subset_of(candidates(g)),
                in_degree@.dom() == candidates(g),
                forall|v: u128| #[trigger]
                    in_degree@.contains_key(v) ==> in_degree@[v] == pending_in(g, ks, v, processed),
                queue@.no_duplicates(),
                forall|v: u128| #[trigger] queue@.contains(v) <==> in_level(g, levels@.len() as nat, v),
                forall|j: int|
                    0 <= j < levels@.len() ==> #[trigger] levels@[j]@.len() > 0 && levels@[j]@.no_duplicates(),
                forall|j: int, v: u128|
                    0 <= j < levels@.len() ==> (#[trigger] levels@[j]@.contains(v) <==> in_level(
                        g,
                        j as nat,
                        v,
                    )),
            decreases candidates(g).len() - processed.len(),
        {
            let ghost k: nat = levels@.len() as nat;
            let ghost q0 = queue@;
            let n = queue.len();
            let mut batch: Vec<u128> = Vec::new();
            let ghost mut pushed: Seq<u128> = Seq::empty();
            let ghost mut cur: Set<u128> = processed;
            proof {
                assert forall|v: u128| #[trigger]
                    pushed.contains(v) <==> (candidates(g).contains(v) && in_degree@[v] == 0
                        && !is_ready(g, k, v)) by {
                    if candidates(g).contains(v) && in_degree@[v] == 0 {
                        lemma_pending_zero_edges(g, ks, v, processed);
                        assert forall|u: u128| #[trigger] edge(g, u, v) implies (k > 0 && is_ready(
                            g,
                            (k - 1) as nat,
                            u,
                        )) by {
                            assert(processed.contains(u));
                        }
                        assert(is_ready(g, k, v));
                    }
                }
                assert(q0.skip(0) + pushed =~= q0);
                assert(q0.take(0).to_set() =~= Set::<u128>::empty());
                assert(cur =~= processed + q0.take(0).to_set());
            }
            let mut t: usize = 0;
            while t < n
                invariant
                    t <= n,
                    n == q0.len(),
                    g == self@,
                    model_wf(g),
                    ks.to_set() == g.adj.dom(),
                    ks.no_duplicates(),
                    k == levels@.len(),
                    processed == done_before(g, k),
                    q0.no_duplicates(),
                    forall|v: u128| #[trigger] q0.contains(v) <==> in_level(g, k, v),
                    batch@ == q0.take(t as int),
                    cur == processed + q0.take(t as int).to_set(),
                    queue@ == q0.skip(t as int) + pushed,
                    (q0.skip(t as int) + pushed).no_duplicates(),
                    in_degree@.dom() == candidates(g),
                    forall|v: u128| #[trigger]
                        in_degree@.contains_key(v) ==> in_degree@[v] == pending_in(g, ks, v, cur),
                    forall|v: u128| #[trigger]
                        pushed.contains(v) <==> (candidates(g).contains(v) && in_degree@[v] == 0
                            && !is_ready(g, k, v)),
                decreases n - t,
            {
                let popped = queue.pop_front();
                if let Some(node) = popped {
                    let ghost rest = q0.skip(t + 1);
                    proof {
                        assert(node == q0[t as int]);
                        assert(queue@ =~= rest + pushed);
                        assert(q0.contains(node));
                        assert(in_level(g, k, node));
                        assert(!cur.contains(node)) by {
                            if q0.take(t as int).to_set().contains(node) {
                                let a = choose|a: int| 0 <= a < t && q0.take(t as int)[a] == node;
                                assert(q0[a] == q0[t as int]);
                            }
                        }
                        assert((rest + pushed).no_duplicates()) by {
                            let s0 = q0.skip(t as int) + pushed;
                            assert forall|a: int, b: int|
                                0 <= a < (rest + pushed).len() && 0 <= b < (rest + pushed).len() && a
                                    != b implies (rest + pushed)[a] != (rest + pushed)[b] by {
                                assert((rest + pushed)[a] == s0[a + 1]);
                                assert((rest + pushed)[b] == s0[b + 1]);
                            }
                        }
                        assert forall|i: int| 0 <= i < rest.len() implies is_ready(
                            g,
                            k,
                            #[trigger] rest[i],
                        ) by {
                            assert(rest[i] == q0[t + 1 + i]);
                            assert(q0.contains(q0[t + 1 + i]));
                        }
                        assert forall|v: u128| #[trigger]
                            in_degree@.contains_key(v) implies in_degree@[v] == pending_in(
                            g,
                            ks,
                            v,
                            cur.insert(node),
                        ) + occ(targets_of(g, node), v) by {
                            if ks.contains(node) {
                                lemma_pending_mark(g, ks, v, cur, node);
                            } else {
                                lemma_pending_unlisted(g, ks, v, cur, node);
                                assert(!g.adj.contains_key(node)) by {
                                    if g.adj.contains_key(node) {
                                        assert(ks.to_set().contains(node));
                                    }
                                }
                                assert(targets_of(g, node) =~= Seq::<u128>::empty());
                            }
                        }
                    }
                    batch.push(node);
                    proof {
                        cur = cur.insert(node);
                        assert(batch@ =~= q0.take(t + 1));
                        assert(q0.take(t + 1) =~= q0.take(t as int).push(node));
                        q0.take(t as int).lemma_push_to_set_commute(node);
                        assert(cur =~= processed + q0.take(t + 1).to_set());
                    }
                    match self.edges.get(&node) {
                        Some(nexts) => {
                            proof {
                                assert(g.adj.contains_key(node));
                                assert(targets_of(g, node) == nexts@);
                            }
                            let Ghost(out) = self.release_successors(
                                node,
                                nexts,
                                &mut in_degree,
                                &mut queue,
                                Ghost(ks),
                                Ghost(cur),
                                Ghost(k),
                                Ghost(rest),
                                Ghost(pushed),
                            );
                            proof {
                                pushed = out;
                            }
                        },
                        None => {
                            proof {
                                assert(targets_of(g, node) =~= Seq::<u128>::empty());
                            }
                        },
                    }
                } else {
                    proof {
                        assert(false);
                    }
                }
                t = t + 1;
            }
            proof {
                assert(q0.take(n as int) =~= q0);
                assert(q0.skip(n as int) + pushed =~= pushed);
                lemma_ready_mono(g, k);
                assert(cur =~= done_before(g, k + 1)) by {
                    assert forall|u: u128| cur.contains(u) <==> done_before(g, k + 1).contains(u) by {
                        if processed.contains(u) {
                            lemma_ready_mono(g, (k - 1) as nat);
                        }
                        if q0.to_set().contains(u) {
                            assert(q0.contains(u));
                        }
                        if is_ready(g, k, u) && !processed.contains(u) {
                            assert(in_level(g, k, u));
                            assert(q0.contains(u));
                            assert(q0.to_set().contains(u));
                        }
                    }
                }
                assert forall|v: u128| #[trigger] pushed.contains(v) <==> in_level(g, k + 1, v) by {
                    if candidates(g).contains(v) {
                        lemma_pending_zero_edges(g, ks, v, cur);
                    }
                    if in_level(g, k + 1, v) {
                        assert forall|u: u128| #[trigger] edge(g, u, v) implies cur.contains(u) by {
                            assert(is_ready(g, k, u));
                        }
                    }
                    if pushed.contains(v) {
                        assert forall|u: u128| #[trigger] edge(g, u, v) implies (k + 1 > 0 && is_ready(
                            g,
                            k,
                            u,
                        )) by {
                            assert(cur.contains(u));
                        }
                        assert(is_ready(g, k + 1, v));
                    }
                }
                assert(q0.len() > 0);
                assert(q0.contains(q0[0]));
                assert(!processed.contains(q0[0]));
                assert(cur.contains(q0[0]));
                assert(cur.subset_of(candidates(g)));
                vstd::set_lib::lemma_len_subset(processed, candidates(g));
                vstd::set_lib::lemma_len_subset(cur, candidates(g));
                assert(processed.subset_of(cur));
                assert(processed.len() < cur.len()) by {
                    vstd::set_lib::lemma_len_subset(processed.insert(q0[0]), cur);
                }
            }
            let ghost lv0 = levels@;
            let ghost bv = batch@;
            levels.push(batch);
            proof {
                processed = cur;
                assert forall|j: int|
                    0 <= j < levels@.len() implies #[trigger] levels@[j]@.len() > 0
                        && levels@[j]@.no_duplicates() by {
                    if j < k {
                        assert(levels@[j] == lv0[j]);
                    } else {
                        assert(levels@[j]@ == bv);
                    }
                }
                assert forall|j: int, v: u128|
                    0 <= j < levels@.len() implies (#[trigger] levels@[j]@.contains(v) <==> in_level(
                        g,
                        j as nat,
                        v,
                    )) by {
                    if j < k {
                        assert(levels@[j] == lv0[j]);
                    } else {
                        assert(levels@[j]@ == bv);
                        assert(bv == q0);
                    }
                }
            }
        }
        proof {
            let lv = levels@.map_values(|l: Vec<u128>| l@);
            assert forall|k: int| 0 <= k < lv.len() implies #[trigger] lv[k].len() > 0 && lv[k].no_duplicates() by {
                assert(lv[k] == levels@[k]@);
            }
            assert forall|k: int, v: u128| 0 <= k < lv.len() implies (#[trigger] lv[k].contains(v)
                <==> in_level(g, k as nat, v)) by {
                assert(lv[k] == levels@[k]@);
            }
            assert forall|v: u128| !in_level(g, lv.len(), v) by {
                if in_level(g, lv.len(), v) {
                    assert(queue@.contains(v));
                }
            }
        }
        levels
    }
}

} // verus!
