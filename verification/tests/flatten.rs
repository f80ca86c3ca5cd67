use paws_engine::flatten::{run_flatten, FlattenNode, LayerKind, LayerRec, ParentKind};

fn node(id: u64, is_layer: bool, scrollable: bool, children: Vec<FlattenNode>) -> FlattenNode {
    FlattenNode { id, is_layer, scrollable, generation: id * 10, children }
}

fn rec(id: u64, kind: LayerKind, parent: Option<(u64, ParentKind)>, z: u32) -> LayerRec {
    LayerRec {
        id,
        kind,
        parent_id: parent.map(|p| p.0),
        parent_kind: parent.map(|p| p.1),
        z_index: z,
        generation: id * 10,
    }
}

#[test]
fn root_node_is_always_a_layer_and_adopts_in_paint_order() {
    let tree = node(
        1,
        false,
        false,
        vec![
            node(2, false, false, vec![node(3, true, false, vec![]), node(4, true, true, vec![])]),
            node(5, true, false, vec![]),
        ],
    );
    let out = run_flatten(&tree).unwrap();
    assert_eq!(
        out,
        vec![
            rec(1, LayerKind::View, None, 0),
            rec(3, LayerKind::View, Some((1, ParentKind::Layer)), 0),
            rec(4, LayerKind::ScrollView, Some((1, ParentKind::Layer)), 1),
            rec(5, LayerKind::View, Some((1, ParentKind::Layer)), 2),
        ]
    );
}

#[test]
fn scroll_container_layers_hold_their_children_in_scroll_content() {
    let tree = node(
        1,
        true,
        false,
        vec![node(2, true, true, vec![node(3, false, false, vec![node(4, true, false, vec![])]), node(5, true, false, vec![])])],
    );
    let out = run_flatten(&tree).unwrap();
    assert_eq!(
        out,
        vec![
            rec(1, LayerKind::View, None, 0),
            rec(2, LayerKind::ScrollView, Some((1, ParentKind::Layer)), 0),
            rec(4, LayerKind::View, Some((2, ParentKind::ScrollView)), 0),
            rec(5, LayerKind::View, Some((2, ParentKind::ScrollView)), 1),
        ]
    );
}

#[test]
fn without_a_root_layer_the_first_bubbling_layer_is_the_root() {
    let tree = node(7, false, false, vec![node(8, false, false, vec![]), node(9, true, false, vec![]), node(10, true, false, vec![])]);
    let out = run_flatten(&tree).unwrap();
    assert_eq!(out, vec![rec(9, LayerKind::View, None, 0)]);
}

#[test]
fn no_layer_anywhere_gives_no_tree() {
    let tree = node(7, false, false, vec![node(8, false, false, vec![])]);
    assert_eq!(run_flatten(&tree), None);
}

#[test]
fn single_layer_root() {
    let tree = node(1, true, false, vec![]);
    let out = run_flatten(&tree).unwrap();
    assert_eq!(out.len(), 1);
    assert_eq!(out[0].id, 1);
    assert_eq!(out[0].kind, LayerKind::View);
}

#[test]
fn non_layer_children_merge_into_parent() {
    let tree = node(1, true, false, vec![node(2, false, false, vec![])]);
    let out = run_flatten(&tree).unwrap();
    assert_eq!(out[0].id, 1);
    // The non-layer child makes no layer of its own.
    assert_eq!(out.len(), 1);
}

#[test]
fn scroll_node_produces_scroll_view_kind() {
    let tree = node(1, true, true, vec![]);
    let out = run_flatten(&tree).unwrap();
    assert_eq!(out[0].kind, LayerKind::ScrollView);
}
