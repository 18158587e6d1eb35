use recipe_graph::error::FlowError;
use recipe_graph::hypergraph::Hypergraph;
use recipe_graph::rate::Rate;
use recipe_graph::recipe::{Reagent, Recipe};
use recipe_graph::resolver::{appraise_recipe, child_rate, dep_tree, least_waste_heuristic, resolve};
use recipe_graph::tree::NTree;

const ORE: u64 = 10;
const INGOT: u64 = 20;
const PLATE: u64 = 30;
const COAL: u64 = 40;
const STEEL: u64 = 50;

fn rate(numer: i64, denom: i64) -> Rate {
    Rate::new(numer, denom).unwrap()
}

fn parts(rate: Rate) -> (i64, i64) {
    (rate.numer(), rate.denom())
}

fn amount(widget: u64, quantity: u64) -> Reagent {
    Reagent { widget, quantity }
}

fn recipe(name: &str, duration: Rate, reagents: Vec<Reagent>, products: Vec<Reagent>) -> Recipe {
    Recipe {
        name: name.to_string(),
        builder: "machine".to_string(),
        duration,
        products,
        reagents,
    }
}

fn add(graph: &mut Hypergraph<Recipe>, recipe: Recipe) -> usize {
    let sources: Vec<u64> = recipe.reagents.iter().map(|r| r.widget).collect();
    let destinations: Vec<u64> = recipe.products.iter().map(|r| r.widget).collect();
    graph.insert_edge(&sources, &destinations, recipe).unwrap()
}

fn plate_chain() -> Hypergraph<Recipe> {
    let mut graph = Hypergraph::new();
    graph.insert_node(ORE);
    graph.insert_node(INGOT);
    graph.insert_node(PLATE);
    add(&mut graph, recipe("mine", rate(1, 1), vec![], vec![amount(ORE, 1)]));
    add(&mut graph, recipe("smelt", rate(2, 1), vec![amount(ORE, 1)], vec![amount(INGOT, 1)]));
    add(&mut graph, recipe("press", rate(6, 1), vec![amount(INGOT, 3)], vec![amount(PLATE, 2)]));
    graph
}

fn shape(tree: &NTree<(usize, u64)>) -> String {
    let kids: Vec<String> = tree.children().iter().map(shape).collect();
    format!("({},{})[{}]", tree.data().0, tree.data().1, kids.join(","))
}

#[test]
fn recipe_rate_is_quantity_by_duration() {
    let press = recipe("press", rate(6, 1), vec![amount(INGOT, 3)], vec![amount(PLATE, 2)]);
    assert_eq!(parts(press.rate(PLATE).unwrap()), (1, 3));
    let quick = recipe("quick", rate(1, 4), vec![], vec![amount(ORE, 3)]);
    assert_eq!(parts(quick.rate(ORE).unwrap()), (12, 1));
}

#[test]
fn recipe_rate_takes_the_first_entry_of_the_item() {
    let both = recipe("both", rate(2, 1), vec![], vec![amount(ORE, 4), amount(COAL, 6), amount(ORE, 9)]);
    assert_eq!(both.produced_quantity(ORE), 4);
    assert_eq!(both.produced_quantity(COAL), 6);
    assert_eq!(both.produced_quantity(STEEL), 0);
    assert_eq!(parts(both.rate(ORE).unwrap()), (2, 1));
    assert_eq!(parts(both.rate(COAL).unwrap()), (3, 1));
}

#[test]
fn recipe_rate_rejects_invalid_payloads() {
    let nothing = recipe("nothing", rate(2, 1), vec![], vec![amount(ORE, 0)]);
    assert_eq!(nothing.rate(ORE).err(), Some(FlowError::InvalidPayload));
    let other = recipe("other", rate(2, 1), vec![], vec![amount(ORE, 1)]);
    assert_eq!(other.rate(COAL).err(), Some(FlowError::InvalidPayload));
    let instant = recipe("instant", rate(0, 1), vec![], vec![amount(ORE, 1)]);
    assert_eq!(instant.rate(ORE).err(), Some(FlowError::InvalidPayload));
}

#[test]
fn recipe_rate_reports_overflow() {
    let huge = recipe("huge", rate(1, 1), vec![], vec![amount(ORE, u64::MAX)]);
    assert_eq!(huge.rate(ORE).err(), Some(FlowError::RateOverflow));
    let fast = recipe("fast", rate(1, i64::MAX), vec![], vec![amount(ORE, 2)]);
    assert_eq!(fast.rate(ORE).err(), Some(FlowError::RateOverflow));
}

#[test]
fn appraisal_gives_waste_and_runs() {
    let press = recipe("press", rate(6, 1), vec![amount(INGOT, 3)], vec![amount(PLATE, 2)]);
    let (waste, runs) = appraise_recipe(&press, PLATE, &rate(1, 2)).unwrap();
    assert_eq!(parts(waste), (1, 2));
    assert_eq!(runs, 2);
    let (waste, runs) = appraise_recipe(&press, PLATE, &rate(0, 1)).unwrap();
    assert_eq!(parts(waste), (0, 1));
    assert_eq!(runs, 0);
}

#[test]
fn scaled_request_takes_k_runs_and_wastes_nothing() {
    let press = recipe("press", rate(6, 1), vec![amount(INGOT, 3)], vec![amount(PLATE, 2)]);
    for k in 0..20i64 {
        let (waste, runs) = appraise_recipe(&press, PLATE, &rate(k, 3)).unwrap();
        assert_eq!(runs, k as u64);
        assert_eq!(parts(waste), (0, 1));
    }
    let graph = plate_chain();
    for k in 1..20i64 {
        assert_eq!(least_waste_heuristic(&graph, PLATE, &rate(k, 3)), Ok((2, k as u64)));
    }
}

#[test]
fn child_rate_is_quantity_times_runs_by_duration() {
    let press = recipe("press", rate(6, 1), vec![amount(INGOT, 3)], vec![amount(PLATE, 2)]);
    assert_eq!(parts(child_rate(&press, 3, 3).unwrap()), (3, 2));
    assert_eq!(parts(child_rate(&press, 3, 4).unwrap()), (2, 1));
    assert_eq!(parts(child_rate(&press, 5, 7).unwrap()), (35, 6));
    assert_eq!(parts(child_rate(&press, 0, 7).unwrap()), (0, 1));
    let slow = recipe("slow", rate(7, 3), vec![], vec![]);
    assert_eq!(parts(child_rate(&slow, 2, 5).unwrap()), (30, 7));
}

#[test]
fn child_rate_failures() {
    let instant = recipe("instant", rate(0, 1), vec![], vec![]);
    assert_eq!(child_rate(&instant, 1, 1).err(), Some(FlowError::InvalidPayload));
    let press = recipe("press", rate(6, 1), vec![], vec![]);
    assert_eq!(child_rate(&press, u64::MAX, 2).err(), Some(FlowError::RateOverflow));
    assert_eq!(child_rate(&press, 1 << 62, 2).err(), Some(FlowError::RateOverflow));
    let fast = recipe("fast", rate(1, i64::MAX), vec![], vec![]);
    assert_eq!(child_rate(&fast, 2, 1).err(), Some(FlowError::RateOverflow));
}

#[test]
fn resolve_builds_the_chain() {
    let graph = plate_chain();
    let tree = resolve(&graph, PLATE, rate(1, 1)).unwrap();
    assert_eq!(shape(&tree), "(2,3)[(1,3)[(0,2)[]]]");
    assert_eq!(graph.get_weight(tree.data().0).unwrap().name, "press");
}

#[test]
fn resolve_at_rate_zero_needs_no_runs() {
    let graph = plate_chain();
    let tree = resolve(&graph, PLATE, rate(0, 1)).unwrap();
    assert_eq!(shape(&tree), "(2,0)[(1,0)[(0,0)[]]]");
}

#[test]
fn resolve_keeps_the_order_of_the_reagents() {
    let mut graph = Hypergraph::new();
    for key in [ORE, COAL, STEEL] {
        graph.insert_node(key);
    }
    add(&mut graph, recipe("mine ore", rate(1, 1), vec![], vec![amount(ORE, 1)]));
    add(&mut graph, recipe("mine coal", rate(1, 2), vec![], vec![amount(COAL, 1)]));
    add(
        &mut graph,
        recipe("foundry", rate(4, 1), vec![amount(COAL, 3), amount(ORE, 3)], vec![amount(STEEL, 3)]),
    );
    let tree = resolve(&graph, STEEL, rate(3, 4)).unwrap();
    assert_eq!(shape(&tree), "(2,1)[(1,1)[],(0,1)[]]");
    let tree = resolve(&graph, STEEL, rate(1, 1)).unwrap();
    assert_eq!(shape(&tree), "(2,2)[(1,1)[],(0,2)[]]");
}

fn two_producers(first_is_fast: bool) -> Hypergraph<Recipe> {
    let mut graph = Hypergraph::new();
    for key in [ORE, COAL, STEEL] {
        graph.insert_node(key);
    }
    add(&mut graph, recipe("mine ore", rate(1, 1), vec![], vec![amount(ORE, 1000)]));
    add(&mut graph, recipe("mine coal", rate(1, 1), vec![], vec![amount(COAL, 1000)]));
    let fast = recipe("fast", rate(1, 1), vec![amount(ORE, 1)], vec![amount(STEEL, 3)]);
    let slow = recipe("slow", rate(1, 1), vec![amount(COAL, 1)], vec![amount(STEEL, 2)]);
    if first_is_fast {
        add(&mut graph, fast);
        add(&mut graph, slow);
    } else {
        add(&mut graph, slow);
        add(&mut graph, fast);
    }
    graph
}

#[test]
fn the_producer_of_less_waste_is_chosen() {
    let graph = two_producers(true);
    assert_eq!(least_waste_heuristic(&graph, STEEL, &rate(5, 2)), Ok((3, 2)));
    let tree = resolve(&graph, STEEL, rate(5, 2)).unwrap();
    assert_eq!(graph.get_weight(tree.data().0).unwrap().name, "slow");
    assert_eq!(tree.data().1, 2);
    let graph = two_producers(false);
    assert_eq!(least_waste_heuristic(&graph, STEEL, &rate(5, 2)), Ok((2, 2)));
    let tree = resolve(&graph, STEEL, rate(5, 2)).unwrap();
    assert_eq!(graph.get_weight(tree.data().0).unwrap().name, "slow");
    let graph = two_producers(true);
    assert_eq!(least_waste_heuristic(&graph, STEEL, &rate(3, 1)), Ok((2, 1)));
}

#[test]
fn of_equal_waste_the_first_edge_is_chosen() {
    let graph = two_producers(true);
    assert_eq!(least_waste_heuristic(&graph, STEEL, &rate(6, 1)), Ok((2, 2)));
    let graph = two_producers(false);
    assert_eq!(least_waste_heuristic(&graph, STEEL, &rate(6, 1)), Ok((2, 3)));
}

#[test]
fn resolve_reports_missing_nodes_and_producers() {
    let mut graph = plate_chain();
    assert_eq!(resolve(&graph, 99, rate(1, 1)).err(), Some(FlowError::NodeNotFound(99)));
    graph.insert_node(COAL);
    assert_eq!(resolve(&graph, COAL, rate(1, 1)).err(), Some(FlowError::NoProducer(COAL)));
    assert_eq!(least_waste_heuristic(&graph, COAL, &rate(1, 1)), Err(FlowError::NoProducer(COAL)));
    assert_eq!(least_waste_heuristic(&graph, 99, &rate(1, 1)), Err(FlowError::NodeNotFound(99)));
    graph.insert_node(STEEL);
    add(&mut graph, recipe("foundry", rate(1, 1), vec![amount(COAL, 1)], vec![amount(STEEL, 1)]));
    assert_eq!(resolve(&graph, STEEL, rate(1, 1)).err(), Some(FlowError::NoProducer(COAL)));
}

#[test]
fn resolve_reports_a_reagent_that_is_no_node() {
    let mut graph = Hypergraph::new();
    graph.insert_node(ORE);
    graph.insert_node(INGOT);
    let smelt = recipe("smelt", rate(1, 1), vec![amount(77, 1)], vec![amount(INGOT, 1)]);
    graph.insert_edge(&[ORE], &[INGOT], smelt).unwrap();
    assert_eq!(resolve(&graph, INGOT, rate(1, 1)).err(), Some(FlowError::NodeNotFound(77)));
}

#[test]
fn resolve_reports_cycles() {
    let mut graph = Hypergraph::new();
    graph.insert_node(ORE);
    graph.insert_node(INGOT);
    add(&mut graph, recipe("a", rate(1, 1), vec![amount(INGOT, 1)], vec![amount(ORE, 1)]));
    add(&mut graph, recipe("b", rate(1, 1), vec![amount(ORE, 1)], vec![amount(INGOT, 1)]));
    assert_eq!(
        resolve(&graph, ORE, rate(1, 1)).err(),
        Some(FlowError::CycleDetected(vec![ORE, INGOT, ORE]))
    );
    let mut own = Hypergraph::new();
    own.insert_node(ORE);
    add(&mut own, recipe("self", rate(1, 1), vec![amount(ORE, 1)], vec![amount(ORE, 2)]));
    assert_eq!(resolve(&own, ORE, rate(1, 1)).err(), Some(FlowError::CycleDetected(vec![ORE, ORE])));
}

#[test]
fn resolve_reports_invalid_payloads_and_overflow() {
    let mut graph = Hypergraph::new();
    graph.insert_node(ORE);
    add(&mut graph, recipe("instant", rate(0, 1), vec![], vec![amount(ORE, 1)]));
    assert_eq!(resolve(&graph, ORE, rate(1, 1)).err(), Some(FlowError::InvalidPayload));
    let mut graph = Hypergraph::new();
    graph.insert_node(ORE);
    graph.insert_node(INGOT);
    let odd = recipe("odd", rate(1, 1), vec![], vec![amount(INGOT, 1)]);
    graph.insert_edge(&[], &[ORE], odd).unwrap();
    assert_eq!(resolve(&graph, ORE, rate(1, 1)).err(), Some(FlowError::InvalidPayload));
    let mut graph = Hypergraph::new();
    graph.insert_node(ORE);
    add(&mut graph, recipe("slow", rate(i64::MAX, 1), vec![], vec![amount(ORE, 1)]));
    assert_eq!(resolve(&graph, ORE, rate(i64::MAX, 1)).err(), Some(FlowError::RateOverflow));
}

#[test]
fn a_candidate_that_cannot_be_appraised_fails_the_selection() {
    let mut graph = two_producers(true);
    graph.insert_node(PLATE);
    add(&mut graph, recipe("bad", rate(0, 1), vec![amount(PLATE, 1)], vec![amount(STEEL, 1)]));
    assert_eq!(least_waste_heuristic(&graph, STEEL, &rate(3, 1)), Err(FlowError::InvalidPayload));
}

#[test]
fn shared_reagents_are_resolved_once_per_use() {
    let mut graph = Hypergraph::new();
    for key in [ORE, INGOT, PLATE, STEEL] {
        graph.insert_node(key);
    }
    add(&mut graph, recipe("mine", rate(1, 1), vec![], vec![amount(ORE, 1)]));
    add(&mut graph, recipe("smelt", rate(1, 1), vec![amount(ORE, 1)], vec![amount(INGOT, 1)]));
    add(&mut graph, recipe("press", rate(1, 1), vec![amount(ORE, 2)], vec![amount(PLATE, 1)]));
    add(
        &mut graph,
        recipe("join", rate(1, 1), vec![amount(INGOT, 1), amount(PLATE, 1)], vec![amount(STEEL, 1)]),
    );
    let tree = resolve(&graph, STEEL, rate(1, 1)).unwrap();
    assert_eq!(shape(&tree), "(3,1)[(1,1)[(0,1)[]],(2,1)[(0,2)[]]]");
}

#[test]
fn dep_tree_continues_a_path() {
    let graph = plate_chain();
    let tree = dep_tree(&graph, INGOT, rate(3, 2), &vec![PLATE]).unwrap();
    assert_eq!(shape(&tree), "(1,3)[(0,2)[]]");
    assert_eq!(
        dep_tree(&graph, INGOT, rate(3, 2), &vec![PLATE, ORE]).err(),
        Some(FlowError::CycleDetected(vec![PLATE, ORE, INGOT, ORE]))
    );
}
