use tree_assembly::parser::default_node_parser::DefaultNodeParser;
use tree_assembly::tree::Tree;
use tree_assembly::tree_builder::{BuildState, TreeBuilder, TreeError};
use tree_assembly::tree_node::TreeNode;
use tree_assembly::tree_node_config::TreeNodeConfig;

fn rec(id: &str, name: &str, parent: &str, weight: u32) -> TreeNode<String> {
    TreeNode::new(id.to_string(), name.to_string(), parent.to_string(), weight)
}

fn child_ids(t: &Tree<String>) -> Vec<String> {
    t.children.iter().map(|c| c.id.clone()).collect()
}

fn count(t: &Tree<String>) -> usize {
    1 + t.children.iter().map(count).sum::<usize>()
}

#[test]
fn concrete_scenario() {
    let mut b = TreeBuilder::<String>::of("1".to_string());
    let records = vec![
        rec("1", "root", "", 0),
        rec("2", "a", "1", 10),
        rec("3", "b", "1", 5),
        rec("4", "c", "2", 0),
    ];
    assert_eq!(b.add_node_list(records, &DefaultNodeParser), Ok(()));
    assert_eq!(b.build(), Ok(()));
    let root = b.get_root();
    assert_eq!(root.id, "1".to_string());
    assert_eq!(root.name, "root".to_string());
    assert_eq!(child_ids(root), vec!["3".to_string(), "2".to_string()]);
    assert_eq!(root.children[0].weight, 5);
    assert_eq!(root.children[1].weight, 10);
    assert_eq!(root.children[1].name, "a".to_string());
    assert_eq!(child_ids(&root.children[1]), vec!["4".to_string()]);
    assert_eq!(root.children[1].children[0].parent, Some("2".to_string()));
    assert!(b.get_orphans().is_empty());
}

#[test]
fn root_set_by_hand() {
    let mut b = TreeBuilder::<String>::of("1".to_string());
    b.set_name("root".to_string()).set_weight(0).set_parent_id(String::new()).set_id("1".to_string());
    let records = vec![rec("2", "a", "1", 10), rec("3", "b", "1", 5), rec("4", "c", "2", 0)];
    b.add_node_list(records, &DefaultNodeParser).unwrap();
    b.build().unwrap();
    assert_eq!(b.get_root().name, "root".to_string());
    assert_eq!(count(b.get_root()), 4);
}

#[test]
fn children_sorted_by_weight() {
    let mut b = TreeBuilder::<String>::of("p".to_string());
    let records = vec![rec("x", "", "p", 5), rec("y", "", "p", 1), rec("z", "", "p", 3)];
    b.add_node_list(records, &DefaultNodeParser).unwrap();
    b.build().unwrap();
    let w: Vec<u32> = b.get_root().children.iter().map(|c| c.weight).collect();
    assert_eq!(w, vec![1, 3, 5]);
}

#[test]
fn equal_weights_keep_order() {
    let mut b = TreeBuilder::<String>::of("p".to_string());
    let records = vec![rec("first", "", "p", 2), rec("second", "", "p", 2)];
    b.add_node_list(records, &DefaultNodeParser).unwrap();
    b.build().unwrap();
    assert_eq!(child_ids(b.get_root()), vec!["first".to_string(), "second".to_string()]);
}

#[test]
fn missing_parent_is_orphan() {
    let mut b = TreeBuilder::<String>::of("1".to_string());
    b.add_node_list(vec![rec("2", "", "missing", 0)], &DefaultNodeParser).unwrap();
    b.build().unwrap();
    assert!(b.get_root().children.is_empty());
    assert_eq!(b.get_orphans().len(), 1);
    assert_eq!(b.get_orphans()[0].id, "2".to_string());
}

#[test]
fn orphan_keeps_its_subtree() {
    let mut b = TreeBuilder::<String>::of("1".to_string());
    b.add_node_list(vec![rec("3", "", "2", 0), rec("2", "", "missing", 0)], &DefaultNodeParser).unwrap();
    b.build().unwrap();
    assert_eq!(b.get_orphans().len(), 1);
    assert_eq!(b.get_orphans()[0].id, "2".to_string());
    assert_eq!(child_ids(&b.get_orphans()[0]), vec!["3".to_string()]);
}

#[test]
fn cycles_terminate_and_place_each_node_once() {
    let mut b = TreeBuilder::<String>::of("r".to_string());
    let records = vec![
        rec("a", "", "b", 0),
        rec("b", "", "a", 0),
        rec("s", "", "s", 0),
        rec("c", "", "r", 0),
    ];
    b.add_node_list(records, &DefaultNodeParser).unwrap();
    b.build().unwrap();
    let placed = count(b.get_root()) - 1 + b.get_orphans().iter().map(count).sum::<usize>();
    assert_eq!(placed, 4);
    assert_eq!(child_ids(b.get_root()), vec!["c".to_string()]);
}

#[test]
fn reset_clears_state() {
    let mut b = TreeBuilder::<String>::of("1".to_string());
    b.add_node_list(vec![rec("a", "", "1", 0), rec("b", "", "1", 1)], &DefaultNodeParser).unwrap();
    b.build().unwrap();
    b.reset();
    assert_eq!(b.state, BuildState::Empty);
    b.add_node_list(vec![rec("c", "", "1", 0)], &DefaultNodeParser).unwrap();
    b.build().unwrap();
    assert_eq!(child_ids(b.get_root()), vec!["c".to_string()]);
    assert!(b.get_orphans().is_empty());
}

#[test]
fn adding_after_build_is_refused() {
    let mut b = TreeBuilder::<String>::of("1".to_string());
    b.add_node_list(vec![rec("a", "", "1", 0)], &DefaultNodeParser).unwrap();
    b.build().unwrap();
    assert_eq!(b.check_build(), Err(TreeError::AlreadyBuilt));
    assert_eq!(b.add_node_list(vec![rec("b", "", "1", 0)], &DefaultNodeParser), Err(TreeError::AlreadyBuilt));
    assert_eq!(b.build(), Err(TreeError::AlreadyBuilt));
    assert_eq!(count(b.get_root()), 2);
    assert_eq!(b.add_node_list(Vec::new(), &DefaultNodeParser), Ok(()));
}

#[test]
fn duplicate_id_last_wins() {
    let mut b = TreeBuilder::<String>::of("1".to_string());
    b.add_node_list(vec![rec("a", "old", "1", 0), rec("a", "new", "1", 0)], &DefaultNodeParser).unwrap();
    b.build().unwrap();
    assert_eq!(b.get_root().children.len(), 1);
    assert_eq!(b.get_root().children[0].name, "new".to_string());
}

#[test]
fn depth_bound_makes_orphans() {
    let mut config = TreeNodeConfig::default();
    config.set_deep(1);
    let mut b = TreeBuilder::<String>::new("1".to_string(), config);
    b.add_node_list(vec![rec("2", "", "1", 0), rec("3", "", "2", 0)], &DefaultNodeParser).unwrap();
    b.build().unwrap();
    assert_eq!(child_ids(b.get_root()), vec!["2".to_string()]);
    assert!(b.get_root().children[0].children.is_empty());
    assert_eq!(b.get_orphans().len(), 1);
    assert_eq!(b.get_orphans()[0].id, "3".to_string());
}

#[test]
fn add_map_then_build() {
    let mut b = TreeBuilder::<String>::of("1".to_string());
    let mut t: Tree<String> = Tree::new(None);
    t.id = "9".to_string();
    t.parent_id = "1".to_string();
    b.put_extra("k".to_string(), "v".to_string());
    assert_eq!(b.add_map(vec![t]), Ok(()));
    assert_eq!(b.state, BuildState::Populated);
    b.build().unwrap();
    assert_eq!(child_ids(b.get_root()), vec!["9".to_string()]);
    assert_eq!(b.get_root().extra.len(), 1);
}

#[test]
fn discarded_orphans_are_dropped() {
    let mut b = TreeBuilder::<String>::of("1".to_string());
    b.set_discard_orphans(true);
    b.add_node_list(vec![rec("2", "", "missing", 0), rec("3", "", "1", 0)], &DefaultNodeParser).unwrap();
    b.build().unwrap();
    assert!(b.get_orphans().is_empty());
    assert_eq!(child_ids(b.get_root()), vec!["3".to_string()]);
}

#[test]
fn cycle_with_tail_is_cut_on_the_cycle() {
    let mut b = TreeBuilder::<String>::of("r".to_string());
    let records = vec![rec("x", "", "p", 0), rec("p", "", "q", 0), rec("q", "", "p", 0)];
    b.add_node_list(records, &DefaultNodeParser).unwrap();
    b.build().unwrap();
    assert!(b.get_root().children.is_empty());
    assert_eq!(b.get_orphans().len(), 1);
    assert_eq!(b.get_orphans()[0].id, "p".to_string());
    assert_eq!(child_ids(&b.get_orphans()[0]), vec!["x".to_string(), "q".to_string()]);
}
