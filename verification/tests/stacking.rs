use paws_engine::node::PaintInfo;
use paws_engine::runtime::RuntimeState;
use paws_engine::stacking::{
    creates_stacking_context, is_flex_or_grid_item, paint_layer, paint_order_children, DisplayInside, Position,
    StackingStyle,
};

/// The stacking facts of a style with the given position and z-index and
/// no visual effect.
fn style(position: Position, z_index: Option<i32>) -> StackingStyle {
    StackingStyle {
        position,
        z_index,
        opacity_below_one: false,
        has_transform: false,
        has_filter: false,
        has_backdrop_filter: false,
        has_perspective: false,
        has_clip_path: false,
        blends: false,
        isolates: false,
        contains_layout_or_paint: false,
        is_container: false,
        will_change_stacking: false,
    }
}

/// Records on node `id` what the style pass derives from `s`.
fn apply(state: &mut RuntimeState, id: u32, s: &StackingStyle, is_root: bool, is_item: bool) {
    let sc = creates_stacking_context(s, is_root, is_item);
    state.doc.set_paint_info(
        id as usize,
        PaintInfo { has_style: true, z_index: s.z_index, positioned: s.position != Position::Static },
        sc,
    );
}

/// A styled child of `parent`.
fn add_styled_child(state: &mut RuntimeState, parent: u32, s: StackingStyle, is_item: bool) -> u32 {
    let id = state.create_element("div".to_string());
    state.append_element(parent, id).unwrap();
    apply(state, id, &s, false, is_item);
    id
}

/// The document's root element, itself `position: relative; z-index: 0`.
fn context_root() -> (RuntimeState, u32) {
    let mut state = RuntimeState::new("https://test.com".to_string());
    let root = state.create_element("div".to_string());
    state.append_element(0, root).unwrap();
    apply(&mut state, root, &style(Position::Relative, Some(0)), true, false);
    (state, root)
}

fn plain_root() -> (RuntimeState, u32) {
    let mut state = RuntimeState::new("https://test.com".to_string());
    let root = state.create_element("div".to_string());
    state.append_element(0, root).unwrap();
    apply(&mut state, root, &style(Position::Static, None), true, false);
    (state, root)
}

fn first_child_sc(state: &RuntimeState, parent: u32) -> bool {
    let child = state.doc.get_node(parent as usize).unwrap().children[0];
    state.doc.get_node(child).unwrap().creates_stacking_context
}

// ── SC detection ───────────────────────────────────────────────────

#[test]
fn test_sc_positioned_z_index() {
    let (mut state, root) = plain_root();
    add_styled_child(&mut state, root, style(Position::Relative, Some(1)), false);
    assert!(
        first_child_sc(&state, root),
        "position: relative + z-index: 1 should create SC"
    );
}

#[test]
fn test_sc_positioned_auto_z_no_sc() {
    let (mut state, root) = plain_root();
    add_styled_child(&mut state, root, style(Position::Relative, None), false);
    assert!(
        !first_child_sc(&state, root),
        "position: relative + z-index: auto should NOT create SC"
    );
}

#[test]
fn test_sc_opacity() {
    let (mut state, root) = plain_root();
    let mut s = style(Position::Static, None);
    s.opacity_below_one = true;
    add_styled_child(&mut state, root, s, false);
    assert!(first_child_sc(&state, root), "opacity: 0.5 should create SC");
}

#[test]
fn test_sc_static_no_sc() {
    let (mut state, root) = plain_root();
    add_styled_child(&mut state, root, style(Position::Static, None), false);
    assert!(
        !first_child_sc(&state, root),
        "static element should NOT create SC"
    );
}

#[test]
fn test_sc_flex_item_z_index() {
    let (mut state, flex) = plain_root();
    add_styled_child(&mut state, flex, style(Position::Static, Some(1)), true);
    assert!(
        first_child_sc(&state, flex),
        "flex item with z-index should create SC"
    );
}

#[test]
fn test_root_creates_sc() {
    let (state, root) = plain_root();
    assert!(
        state.doc.get_node(root as usize).unwrap().creates_stacking_context,
        "root element should always create SC"
    );
}

// ── Paint order ────────────────────────────────────────────────────

#[test]
fn test_paint_order_negative_before_positive() {
    let (mut state, root) = context_root();
    let pos = add_styled_child(&mut state, root, style(Position::Relative, Some(5)), false);
    let neg = add_styled_child(&mut state, root, style(Position::Relative, Some(-1)), false);
    let ordered = paint_order_children(&state.doc, root as usize);
    assert_eq!(
        ordered,
        vec![neg as usize, pos as usize],
        "negative z-index should paint before positive"
    );
}

#[test]
fn test_paint_order_flow_before_positioned() {
    let (mut state, root) = context_root();
    let positioned = add_styled_child(&mut state, root, style(Position::Relative, Some(0)), false);
    let flow = add_styled_child(&mut state, root, style(Position::Static, None), false);
    let ordered = paint_order_children(&state.doc, root as usize);
    assert_eq!(
        ordered,
        vec![flow as usize, positioned as usize],
        "in-flow should paint before positioned"
    );
}

#[test]
fn test_paint_order_dom_order_tiebreak() {
    let (mut state, root) = context_root();
    let a = add_styled_child(&mut state, root, style(Position::Relative, Some(1)), false);
    let b = add_styled_child(&mut state, root, style(Position::Relative, Some(1)), false);
    let c = add_styled_child(&mut state, root, style(Position::Relative, Some(1)), false);
    let ordered = paint_order_children(&state.doc, root as usize);
    assert_eq!(
        ordered,
        vec![a as usize, b as usize, c as usize],
        "same z-index should preserve DOM order"
    );
}

#[test]
fn test_sc_isolation_correctness() {
    let (mut state, root) = context_root();
    let sc1 = add_styled_child(&mut state, root, style(Position::Relative, Some(1)), false);
    add_styled_child(&mut state, sc1, style(Position::Relative, Some(999)), false);
    let sc2 = add_styled_child(&mut state, root, style(Position::Relative, Some(2)), false);
    let ordered = paint_order_children(&state.doc, root as usize);
    assert_eq!(
        ordered,
        vec![sc1 as usize, sc2 as usize],
        "SC(z:1) before SC(z:2), grandchild z:999 must not escape"
    );
}

// ── Further cases ──────────────────────────────────────────────────

#[test]
fn fixed_and_sticky_always_create_context() {
    assert!(creates_stacking_context(&style(Position::Fixed, None), false, false));
    assert!(creates_stacking_context(&style(Position::Sticky, None), false, false));
    // A z-index on a static box that is no flex or grid item does nothing.
    assert!(!creates_stacking_context(&style(Position::Static, Some(3)), false, false));
}

#[test]
fn each_visual_effect_creates_context() {
    let effects: Vec<fn(&mut StackingStyle)> = vec![
        |s| s.has_transform = true,
        |s| s.has_filter = true,
        |s| s.has_backdrop_filter = true,
        |s| s.has_perspective = true,
        |s| s.has_clip_path = true,
        |s| s.blends = true,
        |s| s.isolates = true,
        |s| s.contains_layout_or_paint = true,
        |s| s.is_container = true,
        |s| s.will_change_stacking = true,
    ];
    for set in effects {
        let mut s = style(Position::Static, None);
        set(&mut s);
        assert!(creates_stacking_context(&s, false, false));
    }
}

#[test]
fn unstyled_children_are_left_out() {
    let (mut state, root) = context_root();
    let styled = add_styled_child(&mut state, root, style(Position::Static, None), false);
    let unstyled = state.create_element("span".to_string());
    state.append_element(root, unstyled).unwrap();
    let order = paint_order_children(&state.doc, root as usize);
    assert_eq!(order, vec![styled as usize]);
    assert!(paint_order_children(&state.doc, 999).is_empty());
}

#[test]
fn non_context_parent_sorts_by_z_index_only() {
    let mut state = RuntimeState::new("https://test.com".to_string());
    let parent = state.create_element("div".to_string());
    apply(&mut state, parent, &style(Position::Static, None), false, false);
    // A positioned box and an in-flow box at z 0 keep DOM order; a negative
    // context still goes first.
    let positioned = add_styled_child(&mut state, parent, style(Position::Relative, None), false);
    let flow = add_styled_child(&mut state, parent, style(Position::Static, None), false);
    let neg = add_styled_child(&mut state, parent, style(Position::Relative, Some(-2)), false);
    let order = paint_order_children(&state.doc, parent as usize);
    assert_eq!(order, vec![neg as usize, positioned as usize, flow as usize]);
}

#[test]
fn paint_layers() {
    let (mut state, root) = context_root();
    let neg = add_styled_child(&mut state, root, style(Position::Relative, Some(-1)), false);
    let flow = add_styled_child(&mut state, root, style(Position::Static, None), false);
    let zero = add_styled_child(&mut state, root, style(Position::Relative, Some(0)), false);
    let pos = add_styled_child(&mut state, root, style(Position::Relative, Some(4)), false);
    let layer = |id: u32| paint_layer(state.doc.get_node(id as usize).unwrap());
    assert_eq!(layer(neg), 0);
    assert_eq!(layer(flow), 1);
    assert_eq!(layer(zero), 2);
    assert_eq!(layer(pos), 3);
}

#[test]
fn stacking_root_is_the_child_of_the_document_or_a_detached_node() {
    let mut doc = paws_engine::document::Document::new();
    let root = doc.root();
    let html = doc.create_element("html".to_string());
    let body = doc.create_element("body".to_string());
    let loose = doc.create_element("div".to_string());
    doc.append_child(root, html).unwrap();
    doc.append_child(html, body).unwrap();
    assert!(paws_engine::stacking::is_stacking_root(&doc, html));
    assert!(!paws_engine::stacking::is_stacking_root(&doc, body));
    assert!(paws_engine::stacking::is_stacking_root(&doc, loose));
}

#[test]
fn only_flex_and_grid_parents_make_items() {
    assert!(is_flex_or_grid_item(Some(DisplayInside::Flex)));
    assert!(is_flex_or_grid_item(Some(DisplayInside::Grid)));
    assert!(!is_flex_or_grid_item(Some(DisplayInside::Flow)));
    assert!(!is_flex_or_grid_item(Some(DisplayInside::Table)));
    assert!(!is_flex_or_grid_item(None));
}
