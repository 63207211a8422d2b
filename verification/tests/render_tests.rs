use tree_view::model::Node;
use tree_view::render::{icon_class_name, icon_glyph, render_item, toggle_expanded, IconGlyph, RenderItem};

fn sample_list() -> Vec<Node> {
    vec![
        Node::new(1, None, "Node 1"),
        Node::new(2, Some(1), "Node 2"),
        Node::new(5, Some(1), "Node 5"),
        Node::new(6, None, "Node 6"),
    ]
}

#[test]
fn icon_follows_state_and_children() {
    assert_eq!(icon_glyph(true, true), IconGlyph::Minus);
    assert_eq!(icon_glyph(true, false), IconGlyph::Minus);
    assert_eq!(icon_glyph(false, true), IconGlyph::Plus);
    assert_eq!(icon_glyph(false, false), IconGlyph::Neutral);
}

#[test]
fn icon_class_names_match_the_glyphs() {
    assert_eq!(icon_class_name(IconGlyph::Minus), "fa-square-minus");
    assert_eq!(icon_class_name(IconGlyph::Plus), "fa-square-plus");
    assert_eq!(icon_class_name(IconGlyph::Neutral), "mx-2");
}

#[test]
fn toggle_flips_between_the_two_states() {
    assert!(toggle_expanded(false));
    assert!(!toggle_expanded(true));
}

#[test]
fn collapsed_entry_nests_nothing() {
    let list = sample_list();
    let item = render_item(&list[0], &list, false);
    assert_eq!(item.glyph, IconGlyph::Plus);
    assert_eq!(item.name, "Node 1");
    assert!(item.nested.is_empty());
}

#[test]
fn expanded_entry_nests_its_immediate_children() {
    let list = sample_list();
    let item = render_item(&list[0], &list, true);
    assert_eq!(item.glyph, IconGlyph::Minus);
    let ids: Vec<i32> = item.nested.iter().map(|n| n.id).collect();
    assert_eq!(ids, vec![2, 5]);
}

#[test]
fn childless_entry_never_reveals_a_nested_list() {
    let list = sample_list();
    let six = &list[3];
    let collapsed = render_item(six, &list, false);
    assert!(collapsed.nested.is_empty());
    assert_eq!(collapsed.glyph, IconGlyph::Neutral);
    let toggled = render_item(six, &list, toggle_expanded(false));
    assert!(toggled.nested.is_empty());
    assert_ne!(toggled.glyph, IconGlyph::Plus);
}

#[test]
fn expand_then_collapse_restores_the_entry() {
    let list = sample_list();
    let start = render_item(&list[0], &list, false);
    let state = toggle_expanded(toggle_expanded(false));
    let back: RenderItem = render_item(&list[0], &list, state);
    assert_eq!(back.glyph, start.glyph);
    assert_eq!(back.name, start.name);
    assert_eq!(back.nested, start.nested);
    assert!(back.nested.is_empty());
}
