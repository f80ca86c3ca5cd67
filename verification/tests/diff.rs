use paws_engine::diff::{diff_layers, DiffCmd, DiffLayer};
use paws_engine::flatten::{LayerKind, ParentKind};

fn layer(id: u64, parent: Option<u64>, z: u32, generation: u64, props: u64, children: Vec<DiffLayer>) -> DiffLayer {
    DiffLayer {
        id,
        kind: LayerKind::View,
        parent_id: parent,
        parent_kind: parent.map(|_| ParentKind::Layer),
        z_index: z,
        generation,
        props,
        scroll_size: None,
        children,
    }
}

fn two_layers(root_gen: u64, child_gen: u64) -> DiffLayer {
    layer(1, None, 0, root_gen, 0, vec![layer(2, Some(1), 1, child_gen, 1, vec![])])
}

#[test]
fn test_diff_unchanged_skipped() {
    let prev = two_layers(1, 1);
    let next = two_layers(1, 1);
    let diff = diff_layers(Some(&prev), Some(&next));
    assert!(diff.created.is_empty());
    assert!(diff.updated.is_empty());
    assert!(diff.removed.is_empty());
    assert!(diff.reordered.is_empty());
}

#[test]
fn test_diff_node_opacity_changed() {
    let prev = layer(1, None, 0, 1, 0, vec![]);
    // New properties (another key) and a bumped generation.
    let next = layer(1, None, 0, 2, 1, vec![]);
    let diff = diff_layers(Some(&prev), Some(&next));
    assert!(diff.created.is_empty());
    assert!(diff.removed.is_empty());
    assert_eq!(diff.updated, vec![DiffCmd::UpdateLayer { id: 1 }]);
}

#[test]
fn first_frame_creates_every_layer_in_walk_order() {
    let next = two_layers(1, 1);
    let diff = diff_layers(None, Some(&next));
    assert_eq!(
        diff.created,
        vec![
            DiffCmd::CreateLayer { id: 1, kind: LayerKind::View },
            DiffCmd::CreateLayer { id: 2, kind: LayerKind::View },
            DiffCmd::ReparentLayer { id: 2, new_parent: 1, parent_type: ParentKind::Layer },
        ]
    );
    assert_eq!(diff.updated, vec![DiffCmd::UpdateLayer { id: 1 }, DiffCmd::UpdateLayer { id: 2 }]);
    assert_eq!(
        diff.reordered,
        vec![DiffCmd::SetZOrder { id: 1, index: 0 }, DiffCmd::SetZOrder { id: 2, index: 1 }]
    );
    assert!(diff.removed.is_empty());
}

#[test]
fn dropped_child_is_removed() {
    let prev = two_layers(1, 1);
    let next = layer(1, None, 0, 2, 0, vec![]);
    let diff = diff_layers(Some(&prev), Some(&next));
    assert_eq!(diff.removed, vec![2]);
    assert!(diff.created.is_empty());
    assert!(diff.updated.is_empty());
}

#[test]
fn moved_child_is_reparented_and_reordered() {
    let prev = layer(1, None, 0, 1, 0, vec![layer(2, Some(1), 0, 1, 1, vec![]), layer(3, Some(1), 1, 1, 2, vec![])]);
    let next = layer(
        1,
        None,
        0,
        2,
        0,
        vec![layer(3, Some(1), 0, 2, 2, vec![layer(2, Some(3), 0, 2, 1, vec![])])],
    );
    let diff = diff_layers(Some(&prev), Some(&next));
    assert_eq!(diff.created, vec![DiffCmd::ReparentLayer { id: 2, new_parent: 3, parent_type: ParentKind::Layer }]);
    assert_eq!(diff.reordered, vec![DiffCmd::SetZOrder { id: 3, index: 0 }]);
    assert!(diff.updated.is_empty());
    assert!(diff.removed.is_empty());
}

#[test]
fn nothing_to_nothing_is_empty() {
    let diff = diff_layers(None, None);
    assert!(diff.created.is_empty() && diff.updated.is_empty() && diff.removed.is_empty() && diff.reordered.is_empty());
}
