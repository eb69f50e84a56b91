use tree_assembly::add;
use tree_assembly::extra::live_entries;
use tree_assembly::parser::default_node_parser::DefaultNodeParser;
use tree_assembly::parser::node_parser_trait::NodeParserTrait;
use tree_assembly::tree::Tree;
use tree_assembly::tree_node::TreeNode;
use tree_assembly::tree_node_config::TreeNodeConfig;
use tree_assembly::tree_node_trait::TreeNodeTrait;

#[test]
fn it_works() {
    let result = add(2, 2);
    assert_eq!(result, 4);
}

#[test]
fn test_default() {
    let config = TreeNodeConfig::default();
    assert_eq!(config.get_id_key(), "id".to_string());
    assert_eq!(config.get_name_key(), "name".to_string());
    assert_eq!(config.get_parent_id_key(), "parent_id".to_string());
    assert_eq!(config.get_weight_key(), "weight".to_string());
    assert_eq!(config.get_children_key(), "children".to_string());
    assert_eq!(config.get_deep(), 0);
}

#[test]
fn test_setters() {
    let mut config = TreeNodeConfig::default();
    config
        .set_id_key("custom_id".to_string())
        .set_name_key("custom_name".to_string())
        .set_parent_id_key("custom_parent_id".to_string())
        .set_weight_key("custom_weight".to_string())
        .set_children_key("custom_children".to_string())
        .set_deep(1);
    assert_eq!(config.get_id_key(), "custom_id".to_string());
    assert_eq!(config.get_name_key(), "custom_name".to_string());
    assert_eq!(config.get_parent_id_key(), "custom_parent_id".to_string());
    assert_eq!(config.get_weight_key(), "custom_weight".to_string());
    assert_eq!(config.get_children_key(), "custom_children".to_string());
    assert_eq!(config.get_deep(), 1);
}

#[test]
fn default_config_extra_key() {
    let mut config = TreeNodeConfig::default();
    assert_eq!(config.get_extra_key(), "extra".to_string());
    config.set_extra_key("attrs".to_string());
    assert_eq!(config.get_extra_key(), "attrs".to_string());
    assert_eq!(config.get_id_key(), "id".to_string());
}

#[test]
fn test_build_from_list() {
    let list = vec![
        TreeNode::<String>::new("1".to_string(), "1".to_string(), "0".to_string(), 0),
        TreeNode::<String>::new("2".to_string(), "2".to_string(), "1".to_string(), 0),
        TreeNode::<String>::new("3".to_string(), "3".to_string(), "1".to_string(), 0),
        TreeNode::<String>::new("4".to_string(), "4".to_string(), "2".to_string(), 0),
        TreeNode::<String>::new("5".to_string(), "5".to_string(), "3".to_string(), 0),
    ];
    let root = TreeNode::build_from_list(list);
    for item in root.iter() {
        println!("{} -> {} children", item.get_id(), item.children.len());
    }
    assert_eq!(root.len(), 1);
    assert_eq!(root[0].id, "1".to_string());
    let kids: Vec<String> = root[0].children.iter().map(|c| c.id.clone()).collect();
    assert_eq!(kids, vec!["2".to_string(), "3".to_string()]);
    assert_eq!(root[0].children[0].children[0].id, "4".to_string());
    assert_eq!(root[0].children[1].children[0].id, "5".to_string());
}

#[test]
fn build_from_list_orders_and_dedups() {
    let list = vec![
        TreeNode::<u32>::new("p".to_string(), "p".to_string(), String::new(), 0),
        TreeNode::<u32>::new("a".to_string(), "old".to_string(), "p".to_string(), 5),
        TreeNode::<u32>::new("b".to_string(), "b".to_string(), "p".to_string(), 1),
        TreeNode::<u32>::new("c".to_string(), "c".to_string(), "p".to_string(), 3),
        TreeNode::<u32>::new("a".to_string(), "a".to_string(), "p".to_string(), 5),
    ];
    let forest = TreeNode::build_from_list(list);
    assert_eq!(forest.len(), 1);
    let kids: Vec<String> = forest[0].children.iter().map(|c| c.id.clone()).collect();
    assert_eq!(kids, vec!["b".to_string(), "c".to_string(), "a".to_string()]);
    assert_eq!(forest[0].children[2].name, "a".to_string());
}

#[test]
fn build_from_list_cuts_cycles() {
    let list = vec![
        TreeNode::<u32>::new("s".to_string(), "s".to_string(), "s".to_string(), 0),
        TreeNode::<u32>::new("x".to_string(), "x".to_string(), "y".to_string(), 0),
        TreeNode::<u32>::new("y".to_string(), "y".to_string(), "x".to_string(), 0),
    ];
    let forest = TreeNode::build_from_list(list);
    assert_eq!(forest.len(), 2);
    assert!(forest[0].children.is_empty());
    assert_eq!(forest[1].id, "y".to_string());
    assert_eq!(forest[1].children.len(), 1);
    assert_eq!(forest[1].children[0].id, "x".to_string());
    assert!(forest[1].children[0].children.is_empty());
}

#[test]
fn default_parser_round_trip() {
    let mut rec = TreeNode::<u32>::new("7".to_string(), "seven".to_string(), "3".to_string(), 42);
    rec.put_extra("k".to_string(), 1);
    rec.put_extra("k".to_string(), 2);
    let mut tree: Tree<u32> = Tree::new(None);
    DefaultNodeParser.parse(rec, &mut tree);
    assert_eq!(tree.get_id(), "7".to_string());
    assert_eq!(tree.get_name(), "seven".to_string());
    assert_eq!(tree.get_parent_id(), "3".to_string());
    assert_eq!(tree.get_weight(), 42);
    assert_eq!(tree.extra.last().map(|e| e.1), Some(2));
}

#[test]
fn tree_set_extra_keeps_later_value() {
    let mut tree: Tree<u32> = Tree::new(Some(TreeNodeConfig::default()));
    tree.set_extra(vec![("a".to_string(), 1), ("a".to_string(), 5)]);
    tree.put_extra("b".to_string(), 3);
    assert_eq!(tree.extra.len(), 3);
    assert_eq!(tree.extra[1].1, 5);
    assert_eq!(tree.get_config().get_id_key(), "id".to_string());
}

#[test]
fn weight_comparison() {
    let a = TreeNode::<u32>::new("a".to_string(), String::new(), String::new(), 1);
    let b = TreeNode::<u32>::new("b".to_string(), String::new(), String::new(), 3);
    assert_eq!(a.cmp(&b), std::cmp::Ordering::Less);
    assert_eq!(b.cmp(&a), std::cmp::Ordering::Greater);
    assert_eq!(a.cmp(&a), std::cmp::Ordering::Equal);
}

#[test]
fn live_entries_keep_last_value_per_key() {
    let extra = vec![("a".to_string(), 1u32), ("b".to_string(), 2), ("a".to_string(), 3)];
    assert_eq!(live_entries(&extra), vec![1, 2]);
    assert_eq!(extra[2].1, 3);
    let empty: Vec<(String, u32)> = Vec::new();
    assert!(live_entries(&empty).is_empty());
}

fn node(id: &str, parent: &str, weight: u32) -> TreeNode<String> {
    TreeNode::new(id.to_string(), id.to_string(), parent.to_string(), weight)
}

fn ids_of(ts: &[Tree<String>]) -> Vec<String> {
    ts.iter().map(|t| t.id.clone()).collect()
}

#[test]
fn build_from_list_cuts_cycle_on_the_cycle() {
    let forest = TreeNode::build_from_list(vec![node("x", "p", 0), node("p", "q", 0), node("q", "p", 0)]);
    assert_eq!(ids_of(&forest), vec!["p".to_string()]);
    assert_eq!(ids_of(&forest[0].children), vec!["x".to_string(), "q".to_string()]);
    assert!(forest[0].children[0].children.is_empty());
    assert!(forest[0].children[1].children.is_empty());
}

#[test]
fn build_from_list_scenario() {
    let forest = TreeNode::build_from_list(vec![
        TreeNode::new("1".to_string(), "root".to_string(), String::new(), 0),
        TreeNode::new("2".to_string(), "a".to_string(), "1".to_string(), 10),
        TreeNode::new("3".to_string(), "b".to_string(), "1".to_string(), 5),
        TreeNode::new("4".to_string(), "c".to_string(), "2".to_string(), 0),
    ]);
    assert_eq!(ids_of(&forest), vec!["1".to_string()]);
    assert_eq!(ids_of(&forest[0].children), vec!["3".to_string(), "2".to_string()]);
    assert!(forest[0].children[0].children.is_empty());
    assert_eq!(ids_of(&forest[0].children[1].children), vec!["4".to_string()]);
    assert_eq!(forest[0].children[1].name, "a".to_string());
}

#[test]
fn build_from_list_ties_keep_order() {
    let forest = TreeNode::build_from_list(vec![node("p", "", 0), node("x", "p", 2), node("y", "p", 2)]);
    assert_eq!(ids_of(&forest[0].children), vec!["x".to_string(), "y".to_string()]);
}
