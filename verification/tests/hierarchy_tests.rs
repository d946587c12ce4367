use nodespace_core_logic::hierarchy::{
    build_hierarchical_tree_from_flat_list, build_logical_hierarchy_for_root, build_parent_children_index,
    children_of, count_hierarchical_nodes, count_hierarchical_nodes_saturating, get_all_descendants,
    get_all_descendants_optimized, ordered_children_of, sort_by_created, sort_siblings_by_chain, unique_by_id,
};
use nodespace_core_logic::model::{JsonValue, Node, NodeId};
use nodespace_core_logic::service::check_move_target;

fn id(s: &str) -> NodeId {
    NodeId::from_string(s.to_string())
}

fn node(i: &str, parent: Option<&str>, before: Option<&str>, created: &str) -> Node {
    let mut n = Node::new("text".to_string(), JsonValue::Str(format!("content {}", i)));
    n.id = id(i);
    n.parent_id = parent.map(id);
    n.before_sibling = before.map(id);
    n.created_at = created.to_string();
    n.updated_at = created.to_string();
    n
}

fn ids(v: &[Node]) -> Vec<String> {
    v.iter().map(|n| n.id.as_str().to_string()).collect()
}

fn sample_tree() -> Vec<Node> {
    vec![
        node("r", None, None, "2024-01-01T00:00:00Z"),
        node("a", Some("r"), None, "2024-01-01T00:00:01Z"),
        node("b", Some("r"), Some("a"), "2024-01-01T00:00:02Z"),
        node("a1", Some("a"), None, "2024-01-01T00:00:03Z"),
        node("b1", Some("b"), None, "2024-01-01T00:00:04Z"),
        node("x", None, None, "2024-01-01T00:00:05Z"),
    ]
}

#[test]
fn children_of_keeps_list_order() {
    let t = sample_tree();
    assert_eq!(ids(&children_of(&t, &id("r"))), vec!["a", "b"]);
    assert!(children_of(&t, &id("x")).is_empty());
}

#[test]
fn descendants_walk_depth_first_last_child_first() {
    let t = sample_tree();
    assert_eq!(ids(&get_all_descendants(&t, &id("r"))), vec!["a", "b", "b1", "a1"]);
    assert!(get_all_descendants(&t, &id("a1")).is_empty());
}

#[test]
fn indexed_descendants_match_scan() {
    let t = sample_tree();
    let index = build_parent_children_index(&t);
    for root in ["r", "a", "b", "x", "missing"] {
        assert_eq!(
            ids(&get_all_descendants_optimized(&index, &id(root))),
            ids(&get_all_descendants(&t, &id(root)))
        );
    }
}

#[test]
fn parent_index_groups_children_in_order() {
    let t = sample_tree();
    let index = build_parent_children_index(&t);
    let keys: Vec<String> = index.iter().map(|(k, _)| k.as_str().to_string()).collect();
    assert_eq!(keys, vec!["r", "a", "b"]);
    assert_eq!(ids(&index[0].1), vec!["a", "b"]);
}

#[test]
fn descendants_of_a_cycle_terminate() {
    let t = vec![node("p", Some("q"), None, "1"), node("q", Some("p"), None, "2")];
    let d = get_all_descendants(&t, &id("p"));
    assert!(ids(&d).contains(&"q".to_string()));
    assert!(d.len() <= 3);
}

#[test]
fn sibling_chain_orders_by_predecessor() {
    let sibs = vec![
        node("c", Some("r"), Some("b"), "3"),
        node("a", Some("r"), None, "9"),
        node("b", Some("r"), Some("a"), "1"),
    ];
    assert_eq!(ids(&sort_siblings_by_chain(sibs)), vec!["a", "b", "c"]);
}

#[test]
fn sibling_chain_appends_orphans() {
    let sibs = vec![
        node("z", Some("r"), Some("missing"), "1"),
        node("a", Some("r"), None, "2"),
        node("b", Some("r"), Some("a"), "3"),
    ];
    assert_eq!(ids(&sort_siblings_by_chain(sibs)), vec!["a", "b", "z"]);
}

#[test]
fn sibling_chain_without_head_sorts_by_creation() {
    let sibs = vec![
        node("late", Some("r"), Some("x"), "2024-05-02"),
        node("early", Some("r"), Some("y"), "2024-05-01"),
        node("same", Some("r"), Some("z"), "2024-05-01"),
    ];
    assert_eq!(ids(&sort_siblings_by_chain(sibs)), vec!["early", "same", "late"]);
    assert!(sort_siblings_by_chain(vec![]).is_empty());
}

#[test]
fn creation_sort_is_stable() {
    let v = vec![node("b", None, None, "2"), node("a", None, None, "1"), node("c", None, None, "2")];
    assert_eq!(ids(&sort_by_created(&v)), vec!["a", "b", "c"]);
}

#[test]
fn tree_from_flat_list() {
    let t = sample_tree();
    let forest = build_hierarchical_tree_from_flat_list(t, &id("r"), 0);
    assert_eq!(forest.len(), 2);
    assert_eq!(forest[0].node.id.as_str(), "a");
    assert_eq!(forest[0].depth, 0);
    assert_eq!(forest[0].sibling_index, 0);
    assert_eq!(forest[1].sibling_index, 1);
    assert_eq!(forest[0].parent_id.as_ref().map(|p| p.as_str()), Some("r"));
    assert_eq!(forest[0].children[0].node.id.as_str(), "a1");
    assert_eq!(forest[0].children[0].depth, 1);
    assert_eq!(count_hierarchical_nodes(&forest), 4);
    assert_eq!(count_hierarchical_nodes_saturating(&forest), 4);
}

#[test]
fn tree_building_stops_at_cycles() {
    let t = vec![node("p", Some("q"), None, "1"), node("q", Some("p"), None, "2")];
    let forest = build_hierarchical_tree_from_flat_list(t, &id("p"), 0);
    assert_eq!(forest.len(), 1);
    assert_eq!(forest[0].node.id.as_str(), "q");
    assert_eq!(forest[0].children.len(), 1);
    assert_eq!(forest[0].children[0].node.id.as_str(), "p");
    assert!(forest[0].children[0].children.is_empty());
}

#[test]
fn later_duplicates_replace_earlier_ones() {
    let v = vec![node("a", None, None, "1"), node("b", None, None, "2"), node("a", Some("r"), None, "3")];
    let u = unique_by_id(&v);
    assert_eq!(ids(&u), vec!["b", "a"]);
    assert_eq!(u[1].created_at, "3");
}

#[test]
fn logical_hierarchy_for_root() {
    let t = sample_tree();
    assert_eq!(ids(&build_logical_hierarchy_for_root(t, &id("r"))), vec!["a", "b"]);
    let t2 = sample_tree();
    assert_eq!(ids(&ordered_children_of(&t2, &id("a"))), vec!["a1"]);
}

#[test]
fn move_target_inside_subtree_is_refused() {
    let t = sample_tree();
    assert!(check_move_target(&t, &id("a"), &id("a1")).is_err());
    assert!(check_move_target(&t, &id("r"), &id("b1")).is_err());
    assert!(check_move_target(&t, &id("a"), &id("b")).is_ok());
    assert!(check_move_target(&t, &id("a1"), &id("r")).is_ok());
    assert!(check_move_target(&t, &id("x"), &id("a")).is_ok());
}
