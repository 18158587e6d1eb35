use recipe_graph::tree::NTree;

#[test]
fn new_tree_is_a_leaf() {
    let tree = NTree::new(7u32);
    assert_eq!(*tree.data(), 7);
    assert!(tree.children().is_empty());
}

#[test]
fn children_keep_insertion_order() {
    let mut tree = NTree::new("root");
    tree.insert(NTree::new("a"));
    let mut b = NTree::new("b");
    b.insert(NTree::new("b1"));
    tree.insert(b);
    tree.insert(NTree::new("c"));
    let names: Vec<&str> = tree.children().iter().map(|child| *child.data()).collect();
    assert_eq!(names, vec!["a", "b", "c"]);
    assert_eq!(tree.children()[1].children().len(), 1);
    assert_eq!(*tree.children()[1].children()[0].data(), "b1");
    assert_eq!(*tree.data(), "root");
}

#[test]
fn a_tree_reads_as_its_datum() {
    let mut tree = NTree::new((4usize, 9u64));
    tree.insert(NTree::new((1usize, 2u64)));
    assert_eq!((*tree).0, 4);
    assert_eq!(tree.1, 9);
    assert_eq!(tree.children()[0].1, 2);
}
