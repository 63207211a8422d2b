//! What one rendered tree entry shows. Each rendered instance carries a
//! two-state toggle, Collapsed (the initial state) and Expanded; the entry
//! shows an icon, the node's label, and, only while expanded, the node's
//! immediate children nested under it.

use vstd::prelude::*;
use crate::model::{children_of, has_child_in, lemma_no_child_no_children, Node};

verus! {

/// The icon beside a rendered node's label.
#[derive(Clone, Copy, Debug, PartialEq, Eq, Structural)]
pub enum IconGlyph {
    /// The collapse affordance, shown while the entry is expanded.
    Minus,
    /// The expand affordance, shown while a collapsed entry has children.
    Plus,
    /// No affordance: the entry is collapsed and childless.
    Neutral,
}

/// The icon rule: expanded shows the collapse glyph; collapsed with children
/// shows the expand glyph; collapsed and childless shows none.
pub open spec fn spec_icon_glyph(expanded: bool, has_child: bool) -> IconGlyph {
    if expanded {
        IconGlyph::Minus
    } else if has_child {
        IconGlyph::Plus
    } else {
        IconGlyph::Neutral
    }
}

/// Picks the icon for a rendered entry from its toggle state and whether the
/// node has children.
pub fn icon_glyph(expanded: bool, has_child: bool) -> (r: IconGlyph)
    ensures
        r == spec_icon_glyph(expanded, has_child),
{
    if expanded {
        IconGlyph::Minus
    } else if has_child {
        IconGlyph::Plus
    } else {
        IconGlyph::Neutral
    }
}

/// The icon's style-sheet class.
pub fn icon_class_name(glyph: IconGlyph) -> (r: &'static str)
    ensures
        glyph == IconGlyph::Minus ==> r@ == "fa-square-minus"@,
        glyph == IconGlyph::Plus ==> r@ == "fa-square-plus"@,
        glyph == IconGlyph::Neutral ==> r@ == "mx-2"@,
{
    match glyph {
        IconGlyph::Minus => "fa-square-minus",
        IconGlyph::Plus => "fa-square-plus",
        IconGlyph::Neutral => "mx-2",
    }
}

/// One toggle interaction: a collapsed entry becomes expanded and an expanded
/// one collapses. These are the only two states and the only transition.
pub fn toggle_expanded(expanded: bool) -> (r: bool)
    ensures
        r == !expanded,
{
    !expanded
}

/// The nested content a rendered entry shows: its immediate children while
/// expanded, nothing while collapsed.
pub open spec fn spec_nested_content(s: Seq<Node>, pid: i32, expanded: bool) -> Seq<Node> {
    if expanded {
        children_of(s, pid)
    } else {
        Seq::<Node>::empty()
    }
}

/// What one rendered tree entry shows.
#[derive(Debug)]
pub struct RenderItem {
    /// The icon beside the label.
    pub glyph: IconGlyph,
    /// The node's display label.
    pub name: String,
    /// The immediate children rendered under the entry; empty while the
    /// entry is collapsed.
    pub nested: Vec<Node>,
}

/// Renders one node against the shared list: the icon from the toggle state
/// and the node's children, the label, and the nested children only while
/// expanded.
pub fn render_item(n: &Node, nodes: &[Node], expanded: bool) -> (r: RenderItem)
    ensures
        r.glyph == spec_icon_glyph(expanded, has_child_in(nodes@, n.id)),
        r.name@ == n.name@,
        r.nested@ == spec_nested_content(nodes@, n.id, expanded),
{
    let glyph = icon_glyph(expanded, n.has_child(nodes));
    let nested: Vec<Node> = if expanded {
        n.get_immediate_children(nodes)
    } else {
        Vec::new()
    };
    proof {
        if !expanded {
            assert(nested@ =~= Seq::<Node>::empty());
        }
    }
    RenderItem { glyph, name: n.name.clone(), nested }
}

/// A childless node never reveals nested content: whatever its toggle state,
/// the nested children it renders are none, and its icon never shows the
/// expand affordance.
pub proof fn lemma_childless_renders_nothing(s: Seq<Node>, n: Node, expanded: bool)
    requires
        !has_child_in(s, n.id),
    ensures
        spec_nested_content(s, n.id, expanded) == Seq::<Node>::empty(),
        spec_icon_glyph(expanded, has_child_in(s, n.id)) != IconGlyph::Plus,
{
    if expanded {
        lemma_no_child_no_children(s, n.id);
    }
}

/// Toggling expand and then collapse restores a rendered entry exactly:
/// toggling twice returns the toggle state, the rendered content depends on
/// nothing but the state, and the restored collapsed entry nests nothing.
pub proof fn lemma_expand_collapse_restores(s: Seq<Node>, pid: i32, expanded: bool)
    ensures
        spec_nested_content(s, pid, !!expanded) == spec_nested_content(s, pid, expanded),
        spec_icon_glyph(!!expanded, has_child_in(s, pid)) == spec_icon_glyph(
            expanded,
            has_child_in(s, pid),
        ),
        !expanded ==> spec_nested_content(s, pid, expanded).len() == 0,
{
}

} // verus!
