use tree_view::simple::{Node, NodeList, NodeState};

fn flat_list() -> Vec<Node> {
    vec![
        Node::new(1, None, "Node 1"),
        Node::new(2, Some(1), "Node 2"),
        Node::new(3, Some(2), "Node 3"),
        Node::new(6, None, "Node 6"),
        Node::new(7, None, "Node 7"),
        Node::new(9, Some(7), "Node 9"),
    ]
}

fn nested_tree() -> Node {
    let mut nine = Node::new(9, Some(7), "Node 9");
    nine.children.push(Node::new(10, Some(9), "Node 10"));
    nine.children.push(Node::new(11, Some(9), "Node 11"));
    let mut seven = Node::new(7, None, "Node 7");
    seven.children.push(nine);
    seven.children.push(Node::new(12, Some(7), "Node 12"));
    seven
}

#[test]
fn simple_new_builds_a_leaf() {
    let n = Node::new(3, Some(1), "x");
    assert_eq!(n.id, 3);
    assert_eq!(n.parent_id, Some(1));
    assert_eq!(n.name, "x");
    assert!(n.children.is_empty());
}

#[test]
fn simple_clone_keeps_the_subtree() {
    let t = nested_tree();
    let c = t.clone();
    assert_eq!(c, t);
}

#[test]
fn get_child_node_searches_depth_first() {
    let t = nested_tree();
    let found = t.get_child_node(11).expect("descendant is present");
    assert_eq!(found.id, 11);
    assert_eq!(found.name, "Node 11");
    let deep = t.get_child_node(10).expect("grandchild is present");
    assert_eq!(deep.parent_id, Some(9));
}

#[test]
fn get_child_node_ignores_the_node_itself() {
    let t = nested_tree();
    assert!(t.get_child_node(7).is_none());
    assert!(t.get_child_node(99).is_none());
}

#[test]
fn get_child_node_on_a_leaf_finds_nothing() {
    let leaf = Node::new(5, None, "leaf");
    assert!(leaf.get_child_node(5).is_none());
    assert!(leaf.get_child_node(1).is_none());
}

#[test]
fn simple_has_child_scans_the_flat_list() {
    let list = flat_list();
    assert!(list[0].has_child(&list));
    assert!(list[4].has_child(&list));
    assert!(!list[3].has_child(&list));
}

#[test]
fn simple_immediate_children_in_order() {
    let list = flat_list();
    let one = &list[0];
    let ch = one.get_immediate_children(&list);
    let ids: Vec<i32> = ch.iter().map(|n| n.id).collect();
    assert_eq!(ids, vec![2]);
}

#[test]
fn simple_root_nodes_in_order() {
    let l = NodeList { list: flat_list() };
    let roots = l.get_root_nodes();
    let ids: Vec<i32> = roots.iter().map(|n| n.id).collect();
    assert_eq!(ids, vec![1, 6, 7]);
}

#[test]
fn simple_state_defaults_empty() {
    let s = NodeState::default();
    assert!(s.nodes.list.is_empty());
    let l = NodeList { list: flat_list() };
    let st = NodeState { nodes: l };
    let c = st.clone();
    assert_eq!(c.nodes.list, st.nodes.list);
}
