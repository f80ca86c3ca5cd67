use paws_engine::document::{Document, DomError};
use paws_engine::node::ShadowRootMode;

fn doc_with_host() -> (Document, usize, usize) {
    let mut doc = Document::new();
    let root = doc.root();
    let host = doc.create_element("div".to_string());
    doc.append_child(root, host).unwrap();
    let shadow = doc.create_shadow_root(host, ShadowRootMode::Open).unwrap();
    (doc, host, shadow)
}

#[test]
fn shadow_root_is_attached_once() {
    let (mut doc, host, shadow) = doc_with_host();
    assert_eq!(doc.get_node(host).unwrap().shadow_root_id, Some(shadow));
    assert_eq!(doc.get_node(shadow).unwrap().parent, Some(host));
    assert!(doc.get_node(shadow).unwrap().in_document);
    assert_eq!(
        doc.create_shadow_root(host, ShadowRootMode::Closed),
        Err(DomError::ShadowRootAlreadyExists)
    );
    let text = doc.create_text_node("t".to_string());
    assert_eq!(
        doc.create_shadow_root(text, ShadowRootMode::Open),
        Err(DomError::InvalidParent)
    );
}

#[test]
fn named_and_default_slots_receive_matching_children() {
    let (mut doc, host, shadow) = doc_with_host();
    let default_slot = doc.create_element("slot".to_string());
    let named_slot = doc.create_element("slot".to_string());
    doc.set_node_attribute(named_slot, "name", "title");
    doc.append_child(shadow, default_slot).unwrap();
    doc.append_child(shadow, named_slot).unwrap();

    let titled = doc.create_element("h1".to_string());
    doc.set_node_attribute(titled, "slot", "title");
    let plain = doc.create_element("p".to_string());
    let stray = doc.create_element("span".to_string());
    doc.set_node_attribute(stray, "slot", "nowhere");
    doc.append_child(host, titled).unwrap();
    doc.append_child(host, plain).unwrap();
    doc.append_child(host, stray).unwrap();

    doc.assign_slots(host);
    assert_eq!(doc.get_node(default_slot).unwrap().assigned_nodes, vec![plain]);
    assert_eq!(doc.get_node(named_slot).unwrap().assigned_nodes, vec![titled]);
    assert_eq!(doc.get_node(titled).unwrap().assigned_slot_id, Some(named_slot));
    assert_eq!(doc.get_node(stray).unwrap().assigned_slot_id, None);

    // The flat tree replaces each slot by what it was assigned.
    assert_eq!(doc.flat_tree_child_ids(host), vec![plain, titled]);
}

#[test]
fn empty_slot_falls_back_to_its_own_children() {
    let (mut doc, host, shadow) = doc_with_host();
    let slot = doc.create_element("slot".to_string());
    let fallback = doc.create_text_node("fallback".to_string());
    let before = doc.create_element("b".to_string());
    doc.append_child(shadow, before).unwrap();
    doc.append_child(shadow, slot).unwrap();
    doc.append_child(slot, fallback).unwrap();
    doc.assign_slots(host);
    assert_eq!(doc.flatten_shadow_children(shadow), vec![before, fallback]);
}

#[test]
fn insert_before_places_child_ahead_of_reference() {
    let mut doc = Document::new();
    let parent = doc.create_element("ul".to_string());
    let a = doc.create_element("li".to_string());
    let b = doc.create_element("li".to_string());
    let c = doc.create_element("li".to_string());
    doc.append_child(parent, a).unwrap();
    doc.append_child(parent, c).unwrap();
    doc.insert_before(parent, b, c).unwrap();
    assert_eq!(doc.get_node(parent).unwrap().children, vec![a, b, c]);
    assert_eq!(doc.get_next_sibling(a), Some(b));
    assert_eq!(doc.get_previous_sibling(c), Some(b));
    assert_eq!(doc.get_previous_sibling(a), None);
    let stranger = doc.create_element("li".to_string());
    let d = doc.create_element("li".to_string());
    assert_eq!(doc.insert_before(parent, d, stranger), Err(DomError::InvalidChild));
}

#[test]
fn remove_child_requires_the_parent_link() {
    let mut doc = Document::new();
    let parent = doc.create_element("div".to_string());
    let other = doc.create_element("div".to_string());
    let child = doc.create_element("span".to_string());
    doc.append_child(parent, child).unwrap();
    assert_eq!(doc.remove_child(other, child), Err(DomError::InvalidChild));
    doc.remove_child(parent, child).unwrap();
    assert!(doc.get_node(parent).unwrap().children.is_empty());
    assert_eq!(doc.get_node(child).unwrap().parent, None);
}

#[test]
fn remove_node_frees_the_subtree_and_records_it() {
    let mut doc = Document::new();
    let root = doc.root();
    let a = doc.create_element("div".to_string());
    let b = doc.create_element("div".to_string());
    doc.append_child(root, a).unwrap();
    doc.append_child(a, b).unwrap();
    doc.clear_removed_nodes();
    doc.remove_node(a).unwrap();
    assert!(doc.get_node(a).is_none());
    assert!(doc.get_node(b).is_none());
    assert!(doc.get_node(root).unwrap().children.is_empty());
    let mut removed = doc.removed_nodes().to_vec();
    removed.sort();
    let mut expected = vec![a, b];
    expected.sort();
    assert_eq!(removed, expected);
    assert_eq!(doc.remove_node(a), Err(DomError::InvalidChild));
}

#[test]
fn root_element_is_the_first_element_child_of_the_document() {
    let mut doc = Document::new();
    let root = doc.root();
    assert_eq!(doc.root_element_id(), None);
    let text = doc.create_text_node("x".to_string());
    let html = doc.create_element("html".to_string());
    doc.append_child(root, text).unwrap();
    doc.append_child(root, html).unwrap();
    assert_eq!(doc.root_element_id(), Some(html));
}

#[test]
fn ancestry_queries() {
    let mut doc = Document::new();
    let root = doc.root();
    let a = doc.create_element("div".to_string());
    let b = doc.create_element("div".to_string());
    doc.append_child(root, a).unwrap();
    doc.append_child(a, b).unwrap();
    assert!(doc.is_ancestor_or_self(root, b));
    assert!(doc.is_ancestor_or_self(b, b));
    assert!(!doc.is_ancestor_or_self(b, a));
    assert_eq!(doc.append_child(b, a), Err(DomError::CycleDetected));
}

#[test]
fn deep_clone_copies_the_subtree_in_order() {
    let mut doc = Document::new();
    let root = doc.root();
    let list = doc.create_element("ul".to_string());
    doc.set_node_attribute(list, "class", "menu");
    let a = doc.create_element("li".to_string());
    let b = doc.create_element("li".to_string());
    let text = doc.create_text_node("item".to_string());
    doc.append_child(root, list).unwrap();
    doc.append_child(list, a).unwrap();
    doc.append_child(list, b).unwrap();
    doc.append_child(b, text).unwrap();

    let copy = doc.clone_node(list, true).unwrap();
    let c = doc.get_node(copy).unwrap();
    assert_eq!(c.name.as_deref(), Some("ul"));
    assert_eq!(c.attrs, vec![("class".to_string(), "menu".to_string())]);
    assert_eq!(c.parent, None);
    assert!(!c.in_document);
    assert_eq!(c.children.len(), 2);
    let (ca, cb) = (c.children[0], c.children[1]);
    assert!(ca != a && cb != b);
    assert_eq!(doc.get_node(ca).unwrap().parent, Some(copy));
    let cb_node = doc.get_node(cb).unwrap();
    assert_eq!(cb_node.children.len(), 1);
    let ct = doc.get_node(cb_node.children[0]).unwrap();
    assert_eq!(ct.text_content.as_deref(), Some("item"));
    // The source is untouched.
    assert_eq!(doc.get_node(list).unwrap().children, vec![a, b]);
    assert_eq!(doc.get_node(list).unwrap().parent, Some(root));
}

#[test]
fn shallow_clone_has_no_children() {
    let mut doc = Document::new();
    let parent = doc.create_element("div".to_string());
    let child = doc.create_element("span".to_string());
    doc.append_child(parent, child).unwrap();
    let copy = doc.clone_node(parent, false).unwrap();
    let c = doc.get_node(copy).unwrap();
    assert_eq!(c.name.as_deref(), Some("div"));
    assert!(c.children.is_empty());
    assert_eq!(doc.clone_node(999, true), Err(DomError::InvalidChild));
}

#[test]
fn dom_error_messages() {
    assert_eq!(DomError::CycleDetected.message(), "append would create a cycle");
    assert_eq!(DomError::ShadowRootAlreadyExists.message(), "element already has a shadow root");
}

#[test]
fn remove_node_records_ids_in_walk_order() {
    let mut doc = Document::new();
    let a = doc.create_element("div".to_string());
    let b = doc.create_element("p".to_string());
    let c = doc.create_element("p".to_string());
    let d = doc.create_element("em".to_string());
    doc.append_child(a, b).unwrap();
    doc.append_child(a, c).unwrap();
    doc.append_child(b, d).unwrap();
    doc.remove_node(a).unwrap();
    // The node itself, then its children from last to first, depth first.
    assert_eq!(doc.removed_nodes(), &[a, c, b, d]);
}

#[test]
fn style_traversal_parent_crosses_shadow_roots() {
    let (mut doc, host, shadow) = doc_with_host();
    let inner = doc.create_element("span".to_string());
    doc.append_child(shadow, inner).unwrap();
    let light = doc.create_element("p".to_string());
    doc.append_child(host, light).unwrap();
    assert_eq!(paws_engine::document::traversal_parent_id(&doc, inner), Some(host));
    assert_eq!(paws_engine::document::traversal_parent_id(&doc, light), Some(host));
    // The document node is no element.
    assert_eq!(paws_engine::document::traversal_parent_id(&doc, host), None);
    assert_eq!(paws_engine::document::traversal_parent_id(&doc, 999), None);
}

#[test]
fn ids_count_up_from_the_document_node() {
    let mut doc = Document::new();
    assert_eq!(doc.root(), 0);
    assert_eq!(doc.create_element("a".to_string()), 1);
    assert_eq!(doc.create_text_node("t".to_string()), 2);
    assert_eq!(doc.create_element("b".to_string()), 3);
}

#[test]
fn replace_child_moves_an_earlier_sibling_into_the_old_place() {
    let mut doc = Document::new();
    let p = doc.create_element("div".to_string());
    let a = doc.create_element("a".to_string());
    let b = doc.create_element("b".to_string());
    let c = doc.create_element("c".to_string());
    for k in [a, b, c] {
        doc.append_child(p, k).unwrap();
    }
    assert_eq!(doc.replace_child(p, a, b), Ok(()));
    assert_eq!(doc.get_node(p).unwrap().children, vec![a, c]);
    assert_eq!(doc.get_node(a).unwrap().parent, Some(p));
    assert_eq!(doc.get_node(b).unwrap().parent, None);
    assert_eq!(doc.get_node(c).unwrap().parent, Some(p));
}

#[test]
fn replace_child_moves_a_later_sibling_into_the_old_place() {
    let mut doc = Document::new();
    let p = doc.create_element("div".to_string());
    let a = doc.create_element("a".to_string());
    let b = doc.create_element("b".to_string());
    let c = doc.create_element("c".to_string());
    for k in [a, b, c] {
        doc.append_child(p, k).unwrap();
    }
    assert_eq!(doc.replace_child(p, c, a), Ok(()));
    assert_eq!(doc.get_node(p).unwrap().children, vec![c, b]);
    assert_eq!(doc.get_node(a).unwrap().parent, None);
}

#[test]
fn replace_child_by_itself_changes_nothing() {
    let mut doc = Document::new();
    let p = doc.create_element("div".to_string());
    let a = doc.create_element("a".to_string());
    let b = doc.create_element("b".to_string());
    doc.append_child(p, a).unwrap();
    doc.append_child(p, b).unwrap();
    assert_eq!(doc.replace_child(p, b, b), Ok(()));
    assert_eq!(doc.get_node(p).unwrap().children, vec![a, b]);
    assert_eq!(doc.get_node(b).unwrap().parent, Some(p));
}

#[test]
fn appending_the_hosts_shadow_root_makes_it_a_plain_child() {
    let (mut doc, host, shadow) = doc_with_host();
    let kid = doc.create_element("span".to_string());
    doc.append_child(host, kid).unwrap();
    assert_eq!(doc.append_child(host, shadow), Ok(()));
    assert_eq!(doc.get_node(host).unwrap().children, vec![kid, shadow]);
    assert_eq!(doc.get_node(shadow).unwrap().parent, Some(host));
    assert_eq!(doc.get_node(host).unwrap().shadow_root_id, None);
    assert!(doc.get_node(shadow).unwrap().in_document);
}

#[test]
fn inserting_the_hosts_shadow_root_before_a_child() {
    let (mut doc, host, shadow) = doc_with_host();
    let kid = doc.create_element("span".to_string());
    doc.append_child(host, kid).unwrap();
    assert_eq!(doc.insert_before(host, shadow, kid), Ok(()));
    assert_eq!(doc.get_node(host).unwrap().children, vec![shadow, kid]);
    assert_eq!(doc.get_node(host).unwrap().shadow_root_id, None);
}

#[test]
fn replacing_a_child_by_the_hosts_shadow_root() {
    let (mut doc, host, shadow) = doc_with_host();
    let kid = doc.create_element("span".to_string());
    doc.append_child(host, kid).unwrap();
    assert_eq!(doc.replace_child(host, shadow, kid), Ok(()));
    assert_eq!(doc.get_node(host).unwrap().children, vec![shadow]);
    assert_eq!(doc.get_node(kid).unwrap().parent, None);
    assert_eq!(doc.get_node(host).unwrap().shadow_root_id, None);
}

#[test]
fn removing_the_hosts_shadow_root_cuts_it_loose() {
    let (mut doc, host, shadow) = doc_with_host();
    assert_eq!(doc.remove_child(host, shadow), Ok(()));
    assert_eq!(doc.get_node(shadow).unwrap().parent, None);
    assert_eq!(doc.get_node(host).unwrap().shadow_root_id, None);
    assert!(!doc.get_node(shadow).unwrap().in_document);
}

#[test]
fn a_shadow_root_cannot_stand_as_reference_or_old_child() {
    let (mut doc, host, shadow) = doc_with_host();
    let kid = doc.create_element("span".to_string());
    doc.append_child(host, kid).unwrap();
    let other = doc.create_element("b".to_string());
    assert_eq!(doc.insert_before(host, other, shadow), Err(DomError::InvalidChild));
    assert_eq!(doc.replace_child(host, other, shadow), Err(DomError::InvalidChild));
    assert_eq!(doc.get_node(host).unwrap().children, vec![kid]);
    assert_eq!(doc.get_node(host).unwrap().shadow_root_id, Some(shadow));
}

#[test]
fn removing_a_shadow_root_node_cuts_it_from_the_host_first() {
    let (mut doc, host, shadow) = doc_with_host();
    let inner = doc.create_element("p".to_string());
    doc.append_child(shadow, inner).unwrap();
    assert_eq!(doc.remove_node(shadow), Ok(()));
    assert!(doc.get_node(shadow).is_none());
    assert!(doc.get_node(inner).is_none());
    assert_eq!(doc.get_node(host).unwrap().shadow_root_id, None);
}

#[test]
fn detaching_a_shadow_root_cuts_it_from_the_host() {
    let (mut doc, host, shadow) = doc_with_host();
    doc.detach_node(shadow);
    assert_eq!(doc.get_node(shadow).unwrap().parent, None);
    assert_eq!(doc.get_node(host).unwrap().shadow_root_id, None);
}
