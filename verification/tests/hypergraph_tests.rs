use recipe_graph::error::FlowError;
use recipe_graph::hypergraph::{Hypergraph, Hypernode};

fn build_basic_graph() -> Hypergraph<u32> {
    let mut graph = Hypergraph::<u32>::new();
    graph.insert_node(1);
    graph.insert_node(2);
    graph.insert_node(3);
    graph.insert_node(4);
    graph.insert_edge(&vec![1, 2], &vec![3, 4], 15).unwrap();
    graph.insert_edge(&vec![3], &vec![1], 30).unwrap();
    graph.insert_edge(&vec![4], &vec![2], 45).unwrap();
    graph
}

#[test]
fn order_test() {
    let graph = build_basic_graph();
    assert_eq!(graph.order(), 4);
}

#[test]
fn size_test() {
    let graph = build_basic_graph();
    assert_eq!(graph.size(), 3);
}

#[test]
fn neighbor_test() {
    let graph = build_basic_graph();
    let neighbors = graph.neighbors(1);
    let neighbor_of = graph.neighbor_of(1);
    assert_eq!(neighbors, Ok(&vec![0usize]));
    assert_eq!(neighbor_of, Ok(&vec![1usize]));
    assert_eq!(graph.get_weight(neighbors.unwrap()[0]), Ok(&15));
    assert_eq!(graph.get_weight(neighbor_of.unwrap()[0]), Ok(&30));
}

#[test]
fn indices_follow_insertion_order() {
    let mut graph = Hypergraph::<u32>::new();
    assert_eq!(graph.insert_node(1), 0);
    assert_eq!(graph.insert_node(2), 1);
    assert_eq!(graph.insert_node(3), 2);
    assert_eq!(graph.insert_node(4), 3);
    assert_eq!(graph.insert_edge(&[1, 2], &[3, 4], 15), Ok(0));
    assert_eq!(graph.insert_edge(&[3], &[1], 30), Ok(1));
    assert_eq!(graph.insert_edge(&[4], &[2], 45), Ok(2));
    assert_eq!(graph.neighbors(1), Ok(&vec![0usize]));
    assert_eq!(graph.neighbor_of(1), Ok(&vec![1usize]));
    assert_eq!(graph.get_weight(0), Ok(&15));
    assert_eq!(graph.get_weight(1), Ok(&30));
    assert_eq!(graph.get_weight(2), Ok(&45));
}

#[test]
fn get_node_returns_the_inserted_key() {
    let mut graph = Hypergraph::<u32>::new();
    let keys = [17u64, 3, 99, 42];
    for key in keys {
        let index = graph.insert_node(key);
        assert_eq!(graph.get_node(index), Ok(key));
    }
    assert_eq!(graph.order(), 4);
    assert_eq!(graph.get_node(4), Err(FlowError::NodeNotFound(4)));
}

#[test]
fn reinserting_a_node_keeps_its_index_and_its_edges() {
    let mut graph = build_basic_graph();
    assert_eq!(graph.insert_node(1), 0);
    assert_eq!(graph.order(), 4);
    assert_eq!(graph.neighbors(1), Ok(&vec![0usize]));
    assert_eq!(graph.neighbor_of(1), Ok(&vec![1usize]));
}

#[test]
fn second_edge_of_a_shape_is_dropped() {
    let mut graph = Hypergraph::<&str>::new();
    graph.insert_node(1);
    graph.insert_node(2);
    graph.insert_node(3);
    let before = graph.size();
    assert_eq!(graph.insert_edge(&[1, 2], &[3], "first"), Ok(0));
    assert_eq!(graph.insert_edge(&[2, 1, 2], &[3, 3], "second"), Ok(0));
    assert_eq!(graph.size(), before + 1);
    assert_eq!(graph.get_weight(0), Ok(&"first"));
    assert_eq!(graph.neighbors(1), Ok(&vec![0usize]));
    assert_eq!(graph.neighbors(2), Ok(&vec![0usize]));
    assert_eq!(graph.neighbor_of(3), Ok(&vec![0usize]));
}

#[test]
fn repeated_keys_count_once() {
    let mut graph = Hypergraph::<u8>::new();
    graph.insert_node(5);
    graph.insert_node(6);
    assert_eq!(graph.insert_edge(&[5, 5, 5], &[6, 6], 1), Ok(0));
    assert_eq!(graph.neighbors(5), Ok(&vec![0usize]));
    assert_eq!(graph.neighbor_of(6), Ok(&vec![0usize]));
    assert_eq!(graph.neighbors(6), Ok(&vec![]));
    assert_eq!(graph.neighbor_of(5), Ok(&vec![]));
}

#[test]
fn adjacency_lists_are_ascending() {
    let mut graph = Hypergraph::<u8>::new();
    for key in 0..4u64 {
        graph.insert_node(key);
    }
    assert_eq!(graph.insert_edge(&[0], &[1], 0), Ok(0));
    assert_eq!(graph.insert_edge(&[2], &[3], 0), Ok(1));
    assert_eq!(graph.insert_edge(&[0, 2], &[1, 3], 0), Ok(2));
    assert_eq!(graph.insert_edge(&[0], &[3], 0), Ok(3));
    assert_eq!(graph.neighbors(0), Ok(&vec![0usize, 2, 3]));
    assert_eq!(graph.neighbors(2), Ok(&vec![1usize, 2]));
    assert_eq!(graph.neighbor_of(1), Ok(&vec![0usize, 2]));
    assert_eq!(graph.neighbor_of(3), Ok(&vec![1usize, 2, 3]));
}

#[test]
fn unknown_keys_are_reported() {
    let mut graph = build_basic_graph();
    assert_eq!(graph.neighbors(9), Err(FlowError::NodeNotFound(9)));
    assert_eq!(graph.neighbor_of(9), Err(FlowError::NodeNotFound(9)));
    assert_eq!(graph.insert_edge(&[1, 8, 9], &[7], 1), Err(FlowError::NodeNotFound(8)));
    assert_eq!(graph.insert_edge(&[1], &[2, 7], 1), Err(FlowError::NodeNotFound(7)));
    assert_eq!(graph.size(), 3);
    assert_eq!(graph.get_weight(3), Err(FlowError::EdgeNotFound(3)));
}

#[test]
fn empty_graph() {
    let graph = Hypergraph::<u32>::new();
    assert_eq!(graph.order(), 0);
    assert_eq!(graph.size(), 0);
    assert_eq!(graph.get_node(0), Err(FlowError::NodeNotFound(0)));
    assert_eq!(graph.get_weight(0), Err(FlowError::EdgeNotFound(0)));
}

#[test]
fn edge_without_sources() {
    let mut graph = Hypergraph::<u8>::new();
    graph.insert_node(1);
    assert_eq!(graph.insert_edge(&[], &[1], 7), Ok(0));
    assert_eq!(graph.insert_edge(&[], &[1], 8), Ok(0));
    assert_eq!(graph.get_weight(0), Ok(&7));
    assert_eq!(graph.neighbor_of(1), Ok(&vec![0usize]));
}

#[test]
fn a_new_node_record_is_empty() {
    let node = Hypernode::new();
    assert!(node.neighbors().is_empty());
    assert!(node.neighbor_of().is_empty());
}
