use recipe_graph::error::FlowError;
use recipe_graph::hypergraph::Hypergraph;
use recipe_graph::rate::Rate;
use recipe_graph::recipe::{Reagent, Recipe};
use recipe_graph::render::{decimal, label, tree_lines};
use recipe_graph::resolver::resolve;
use recipe_graph::tree::NTree;

fn step(name: &str, builder: &str, reagents: Vec<(u64, u64)>, product: (u64, u64)) -> Recipe {
    Recipe {
        name: name.to_string(),
        builder: builder.to_string(),
        duration: Rate::new(1, 1).unwrap(),
        products: vec![Reagent { widget: product.0, quantity: product.1 }],
        reagents: reagents.into_iter().map(|(widget, quantity)| Reagent { widget, quantity }).collect(),
    }
}

fn works() -> Hypergraph<Recipe> {
    let mut graph = Hypergraph::new();
    for key in 1..=4u64 {
        graph.insert_node(key);
    }
    graph.insert_edge(&[], &[1], step("iron ore", "Miner", vec![], (1, 1))).unwrap();
    graph.insert_edge(&[1], &[2], step("iron ingot", "Smelter", vec![(1, 1)], (2, 1))).unwrap();
    graph.insert_edge(&[1], &[3], step("iron plate", "Press", vec![(1, 2)], (3, 1))).unwrap();
    graph
        .insert_edge(&[2, 3], &[4], step("frame", "Assembler", vec![(2, 1), (3, 1)], (4, 1)))
        .unwrap();
    graph
}

#[test]
fn decimal_writes_digits() {
    assert_eq!(decimal(0), "0");
    assert_eq!(decimal(7), "7");
    assert_eq!(decimal(10), "10");
    assert_eq!(decimal(1234567890), "1234567890");
    assert_eq!(decimal(u64::MAX), "18446744073709551615");
}

#[test]
fn label_names_runs_builder_and_recipe() {
    let frame = step("frame", "Assembler", vec![], (4, 1));
    assert_eq!(label(&frame, 12), "12x Assembler -> frame");
}

#[test]
fn a_leaf_is_one_line() {
    let graph = works();
    let tree = resolve(&graph, 1, Rate::new(3, 2).unwrap()).unwrap();
    assert_eq!(tree_lines(&graph, &tree), Ok(vec!["2x Miner -> iron ore".to_string()]));
}

#[test]
fn children_hang_below_their_parent() {
    let graph = works();
    let tree = resolve(&graph, 4, Rate::new(1, 1).unwrap()).unwrap();
    let lines = tree_lines(&graph, &tree).unwrap();
    assert_eq!(
        lines,
        vec![
            "1x Assembler -> frame",
            "├── 1x Smelter -> iron ingot",
            "|   └── 1x Miner -> iron ore",
            "└── 1x Press -> iron plate",
            "    └── 2x Miner -> iron ore",
        ]
    );
}

#[test]
fn deep_trees_carry_their_prefix() {
    let graph = works();
    let mut root = NTree::new((3usize, 5u64));
    let mut first = NTree::new((1usize, 4u64));
    let mut inner = NTree::new((2usize, 3u64));
    inner.insert(NTree::new((0usize, 2u64)));
    inner.insert(NTree::new((0usize, 1u64)));
    first.insert(inner);
    first.insert(NTree::new((0usize, 9u64)));
    root.insert(first);
    root.insert(NTree::new((2usize, 11u64)));
    let lines = tree_lines(&graph, &root).unwrap();
    assert_eq!(
        lines,
        vec![
            "5x Assembler -> frame",
            "├── 4x Smelter -> iron ingot",
            "|   ├── 3x Press -> iron plate",
            "|   |   ├── 2x Miner -> iron ore",
            "|   |   └── 1x Miner -> iron ore",
            "|   └── 9x Miner -> iron ore",
            "└── 11x Press -> iron plate",
        ]
    );
}

#[test]
fn an_edge_that_the_graph_lacks_is_reported() {
    let graph = works();
    let mut root = NTree::new((0usize, 1u64));
    root.insert(NTree::new((1usize, 1u64)));
    root.insert(NTree::new((9usize, 1u64)));
    assert_eq!(tree_lines(&graph, &root), Err(FlowError::EdgeNotFound(9)));
    let lone = NTree::new((4usize, 1u64));
    assert_eq!(tree_lines(&graph, &lone), Err(FlowError::EdgeNotFound(4)));
}
