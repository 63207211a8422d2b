use tree_view::drag::{drop_swap, find_node_index, parse_node_id};
use tree_view::model::Node;

fn sample_list() -> Vec<Node> {
    vec![
        Node::new(1, None, "Node 1"),
        Node::new(2, Some(1), "Node 2"),
        Node::new(3, Some(2), "Node 3"),
        Node::new(6, None, "Node 6"),
    ]
}

#[test]
fn find_node_index_first_match_or_none() {
    let list = sample_list();
    assert_eq!(find_node_index(&list, 1), Some(0));
    assert_eq!(find_node_index(&list, 6), Some(3));
    assert_eq!(find_node_index(&list, 99), None);
}

#[test]
fn drop_swap_exchanges_the_two_positions() {
    let mut list = sample_list();
    let before = list.clone();
    assert!(drop_swap(&mut list, 2, 6));
    assert_eq!(list[1], before[3]);
    assert_eq!(list[3], before[1]);
    assert_eq!(list[0], before[0]);
    assert_eq!(list[2], before[2]);
}

#[test]
fn drop_swap_twice_restores_the_list() {
    let mut list = sample_list();
    let before = list.clone();
    assert!(drop_swap(&mut list, 2, 6));
    assert_ne!(list, before);
    assert!(drop_swap(&mut list, 2, 6));
    assert_eq!(list, before);
}

#[test]
fn drop_on_itself_changes_nothing() {
    let mut list = sample_list();
    let before = list.clone();
    assert!(drop_swap(&mut list, 3, 3));
    assert_eq!(list, before);
}

#[test]
fn drop_with_unknown_id_changes_nothing() {
    let mut list = sample_list();
    let before = list.clone();
    assert!(!drop_swap(&mut list, 99, 6));
    assert_eq!(list, before);
    assert!(!drop_swap(&mut list, 2, 77));
    assert_eq!(list, before);
}

#[test]
fn example_drag_scenario_swaps_positions_only() {
    let mut list = vec![
        Node::new(1, None, "Node 1"),
        Node::new(2, Some(1), "Node 2"),
        Node::new(6, None, "Node 6"),
    ];
    assert!(drop_swap(&mut list, 2, 6));
    let ids: Vec<i32> = list.iter().map(|n| n.id).collect();
    assert_eq!(ids, vec![1, 6, 2]);
    assert_eq!(list[2].parent_id, Some(1));
    assert_eq!(list[1].parent_id, None);
}

#[test]
fn parse_accepts_plain_decimal_ids() {
    assert_eq!(parse_node_id("0"), Some(0));
    assert_eq!(parse_node_id("7"), Some(7));
    assert_eq!(parse_node_id("12"), Some(12));
    assert_eq!(parse_node_id("2147483647"), Some(i32::MAX));
    assert_eq!(parse_node_id("007"), Some(7));
}

#[test]
fn parse_accepts_negative_ids() {
    assert_eq!(parse_node_id("-1"), Some(-1));
    assert_eq!(parse_node_id("-0"), Some(0));
    assert_eq!(parse_node_id("-2147483648"), Some(i32::MIN));
}

#[test]
fn parse_rejects_malformed_payloads() {
    assert_eq!(parse_node_id(""), None);
    assert_eq!(parse_node_id("-"), None);
    assert_eq!(parse_node_id("12a"), None);
    assert_eq!(parse_node_id("a12"), None);
    assert_eq!(parse_node_id("1 2"), None);
    assert_eq!(parse_node_id("+5"), None);
    assert_eq!(parse_node_id("näin"), None);
}

#[test]
fn parse_rejects_out_of_range_values() {
    assert_eq!(parse_node_id("2147483648"), None);
    assert_eq!(parse_node_id("-2147483649"), None);
    assert_eq!(parse_node_id("99999999999999999999"), None);
}

#[test]
fn parsed_payload_drives_a_drop() {
    let mut list = sample_list();
    let before = list.clone();
    let payload = list[1].id.to_string();
    match parse_node_id(&payload) {
        Some(dragged) => {
            assert!(drop_swap(&mut list, dragged, 6));
            assert_eq!(list[1], before[3]);
            assert_eq!(list[3], before[1]);
        },
        None => panic!("payload did not decode"),
    }
}
