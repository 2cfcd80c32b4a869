use cc_agent::swarm::task_graph::TaskGraph;

fn sorted(mut v: Vec<u128>) -> Vec<u128> {
    v.sort();
    v
}

#[test]
fn empty_graph_has_no_cycle_and_no_levels() {
    let g = TaskGraph::new();
    assert!(!g.has_cycle());
    assert!(g.topological_sort_parallel().is_empty());
}

#[test]
fn chain_gives_one_level_per_task() {
    let mut g = TaskGraph::new();
    g.add_node(1);
    g.add_node(2);
    g.add_node(3);
    g.add_edge(1, 2);
    g.add_edge(2, 3);
    assert!(!g.has_cycle());
    assert_eq!(g.topological_sort_parallel(), vec![vec![1], vec![2], vec![3]]);
}

#[test]
fn diamond_runs_middle_tasks_together() {
    let mut g = TaskGraph::new();
    for id in [10u128, 20, 30, 40] {
        g.add_node(id);
    }
    g.add_edge(10, 20);
    g.add_edge(10, 30);
    g.add_edge(20, 40);
    g.add_edge(30, 40);
    let levels = g.topological_sort_parallel();
    assert_eq!(levels.len(), 3);
    assert_eq!(levels[0], vec![10]);
    assert_eq!(sorted(levels[1].clone()), vec![20, 30]);
    assert_eq!(levels[2], vec![40]);
}

#[test]
fn cycle_is_detected_and_left_out_of_the_levels() {
    let mut g = TaskGraph::new();
    g.add_node(1);
    g.add_node(2);
    g.add_node(3);
    g.add_edge(1, 2);
    g.add_edge(2, 1);
    assert!(g.has_cycle());
    assert_eq!(g.topological_sort_parallel(), vec![vec![3]]);
}

#[test]
fn self_loop_is_a_cycle() {
    let mut g = TaskGraph::new();
    g.add_node(7);
    g.add_edge(7, 7);
    assert!(g.has_cycle());
    assert!(g.topological_sort_parallel().is_empty());
}

#[test]
fn cycle_reached_from_a_node_counts() {
    let mut g = TaskGraph::new();
    g.add_node(1);
    g.add_edge(1, 2);
    g.add_edge(2, 3);
    g.add_edge(3, 2);
    assert!(g.has_cycle());
}

#[test]
fn cycle_unreachable_from_nodes_is_ignored() {
    let mut g = TaskGraph::new();
    g.add_node(1);
    g.add_edge(8, 9);
    g.add_edge(9, 8);
    assert!(!g.has_cycle());
}

#[test]
fn edge_target_that_is_not_a_node_is_scheduled() {
    let mut g = TaskGraph::new();
    g.add_node(1);
    g.add_edge(1, 5);
    assert_eq!(g.topological_sort_parallel(), vec![vec![1], vec![5]]);
}

#[test]
fn edge_from_unknown_source_blocks_its_target() {
    let mut g = TaskGraph::new();
    g.add_node(2);
    g.add_edge(9, 2);
    assert!(!g.has_cycle());
    assert!(g.topological_sort_parallel().is_empty());
}

#[test]
fn adding_a_node_resets_its_earlier_edges() {
    let mut g = TaskGraph::new();
    g.add_edge(1, 2);
    g.add_node(1);
    g.add_node(2);
    let levels = g.topological_sort_parallel();
    assert_eq!(levels.len(), 1);
    assert_eq!(sorted(levels[0].clone()), vec![1, 2]);
}

#[test]
fn repeated_node_and_edge_are_harmless() {
    let mut g = TaskGraph::new();
    g.add_node(1);
    g.add_node(1);
    g.add_node(2);
    g.add_edge(1, 2);
    g.add_edge(1, 2);
    assert_eq!(g.topological_sort_parallel(), vec![vec![1], vec![2]]);
}

#[test]
fn levels_follow_the_longest_chain() {
    let mut g = TaskGraph::new();
    for id in 1u128..=4 {
        g.add_node(id);
    }
    g.add_edge(1, 2);
    g.add_edge(2, 3);
    g.add_edge(1, 3);
    let levels = g.topological_sort_parallel();
    assert_eq!(levels.len(), 3);
    assert_eq!(sorted(levels[0].clone()), vec![1, 4]);
    assert_eq!(levels[1], vec![2]);
    assert_eq!(levels[2], vec![3]);
}
