use htn_planner::graph::Graph;

fn sorted(mut v: Vec<u32>) -> Vec<u32> {
    v.sort();
    v
}

#[test]
fn graph_instantiation() {
    let nodes: Vec<u32> = vec![1, 2, 3, 4];
    let orderings: Vec<(u32, u32)> = vec![(1, 3), (2, 3), (3, 4)];
    let g = Graph::new(nodes, orderings);
    assert_eq!(g.count_nodes(), 4);
    assert!(g.get_neighbors(1).unwrap().contains(&3));
    assert!(g.get_neighbors(2).unwrap().contains(&3));
    assert!(g.get_neighbors(3).unwrap().contains(&4));
}

#[test]
fn unconstrained_nodes_test() {
    let nodes: Vec<u32> = vec![1, 2, 3, 4];
    let orderings: Vec<(u32, u32)> = vec![(1, 3), (2, 3), (3, 4)];
    let g = Graph::new(nodes, orderings);
    let unconstrained = g.get_unconstrained_nodes();
    assert_eq!(sorted(unconstrained), vec![1, 2]);
}

#[test]
fn incoming_edges_test() {
    let nodes: Vec<u32> = vec![1, 2, 3, 4];
    let orderings: Vec<(u32, u32)> = vec![(1, 3), (2, 3), (3, 4)];
    let g = Graph::new(nodes, orderings);
    let result = g.get_incoming_edges(3);
    assert_eq!(sorted(result), vec![1, 2]);
}

#[test]
fn delete_node_test() {
    let nodes: Vec<u32> = vec![1, 2, 3, 4];
    let orderings: Vec<(u32, u32)> = vec![(1, 3), (2, 3), (3, 4)];
    let g = Graph::new(nodes, orderings);
    let new_g = g.remove_node(3);
    let unconstrained = new_g.get_unconstrained_nodes();
    assert_eq!(new_g.count_nodes(), 3);
    assert_eq!(sorted(unconstrained), vec![1, 2, 4]);
}

#[test]
fn add_subgraph_test() {
    let nodes: Vec<u32> = vec![1, 2, 4];
    let orderings: Vec<(u32, u32)> = vec![];
    let g = Graph::new(nodes, orderings);

    let subgraph_nodes: Vec<u32> = vec![5, 6, 7, 8, 9];
    let subgraph_orderings: Vec<(u32, u32)> = vec![(5, 6), (6, 7), (6, 8), (7, 9), (8, 9)];
    let subgraph = Graph::new(subgraph_nodes, subgraph_orderings);

    let result = g.add_subgraph(subgraph, vec![1, 2], vec![4]);

    // inherited orderings
    assert_eq!(sorted(result.get_neighbors(1).unwrap()), vec![5]);
    assert_eq!(sorted(result.get_neighbors(2).unwrap()), vec![5]);
    assert_eq!(sorted(result.get_neighbors(9).unwrap()), vec![4]);

    // subgraph orderings
    assert_eq!(sorted(result.get_neighbors(5).unwrap()), vec![6]);
    assert_eq!(sorted(result.get_neighbors(6).unwrap()), vec![7, 8]);
    assert_eq!(sorted(result.get_neighbors(7).unwrap()), vec![9]);
    assert_eq!(sorted(result.get_neighbors(8).unwrap()), vec![9]);
}

#[test]
fn graph_to_layers_test() {
    let nodes: Vec<u32> = vec![1, 2, 3, 4];
    let orderings: Vec<(u32, u32)> = vec![(1, 3), (2, 3), (3, 4)];
    let g = Graph::new(nodes, orderings);
    let result = g.to_layers();
    assert_eq!(result.len(), 3);
    assert_eq!(sorted(result[0].clone()), vec![1, 2]);
    assert_eq!(sorted(result[1].clone()), vec![3]);
    assert_eq!(sorted(result[2].clone()), vec![4]);
}

#[test]
fn delete_absent_node_leaves_graph_unchanged() {
    let g = Graph::new(vec![1, 2, 3], vec![(1, 2), (2, 3)]);
    let same = g.remove_node(9);
    assert_eq!(same.count_nodes(), 3);
    assert_eq!(sorted(same.get_neighbors(1).unwrap()), vec![2]);
    assert_eq!(sorted(same.get_neighbors(2).unwrap()), vec![3]);
    assert_eq!(sorted(same.get_unconstrained_nodes()), vec![1]);
}

#[test]
fn duplicate_orderings_are_idempotent() {
    let g = Graph::new(vec![1, 1, 2], vec![(1, 2), (1, 2), (1, 2)]);
    assert_eq!(g.count_nodes(), 2);
    assert_eq!(g.get_edges().len(), 1);
    assert_eq!(sorted(g.get_unconstrained_nodes()), vec![1]);
}

#[test]
fn unconstrained_nodes_of_empty_graph() {
    let g = Graph::new(vec![], vec![]);
    assert_eq!(g.count_nodes(), 0);
    assert!(g.get_unconstrained_nodes().is_empty());
    assert_eq!(g.to_layers().len(), 1);
    assert!(g.to_layers()[0].is_empty());
}

#[test]
fn convert_edges_drops_duplicates() {
    let edges: Vec<(u32, u32)> = vec![(1, 2), (1, 2), (2, 3)];
    let collapsed = Graph::convert_edges_to_vec(&edges);
    assert_eq!(collapsed.len(), 2);
    assert!(collapsed.contains(&(1, 2)));
    assert!(collapsed.contains(&(2, 3)));
}
