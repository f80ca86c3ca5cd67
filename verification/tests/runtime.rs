use paws_engine::runtime::{HostErrorCode, RuntimeState};

#[test]
fn test_create_element() {
    let mut state = RuntimeState::new("https://example.com".to_string());
    let id = state.create_element("div".to_string());
    let node = state.doc.get_node(id as usize).unwrap();
    assert!(node.is_element());
    assert_eq!(node.name.as_deref(), Some("div"));

    // Attach to document root.
    state.append_element(0, id).unwrap();
    assert!(state.doc.get_node(id as usize).unwrap().in_document);
}

#[test]
fn test_create_text_node() {
    let mut state = RuntimeState::new("https://example.com".to_string());
    let id = state.create_text_node("hello".to_string());
    let node = state.doc.get_node(id as usize).unwrap();
    assert!(node.is_text_node());
    assert_eq!(node.text_content.as_deref().unwrap(), "hello");
}

#[test]
fn test_destroy_element() {
    let mut state = RuntimeState::new("https://example.com".to_string());
    let id = state.create_element("div".to_string());
    assert!(state.destroy_element(id).is_ok());
    assert!(state.doc.get_node(id as usize).is_none());
    assert_eq!(state.destroy_element(id), Err(HostErrorCode::InvalidChild));
    assert_eq!(state.destroy_element(999), Err(HostErrorCode::InvalidChild));
}

#[test]
fn test_append_element_success() {
    let mut state = RuntimeState::new("https://example.com".to_string());
    let parent = state.create_element("div".to_string());
    let child = state.create_element("span".to_string());

    assert!(state.append_element(parent, child).is_ok());

    let p_node = state.doc.get_node(parent as usize).unwrap();
    assert_eq!(p_node.children, vec![child as usize]);

    let c_node = state.doc.get_node(child as usize).unwrap();
    assert_eq!(c_node.parent, Some(parent as usize));
}

#[test]
fn test_append_element_errors_and_recovery() {
    let mut state = RuntimeState::new("https://example.com".to_string());
    let parent = state.create_element("div".to_string());
    let child = state.create_element("span".to_string());
    let _text = state.create_text_node("text".to_string());
    let destroyed = state.create_element("p".to_string());
    state.destroy_element(destroyed).unwrap();

    // 1. Cycle Detection (Self)
    assert_eq!(
        state.append_element(parent, parent),
        Err(HostErrorCode::CycleDetected)
    );
    let p_node = state.doc.get_node(parent as usize).unwrap();
    assert!(p_node.children.is_empty());

    // 2. Cycle Detection (Indirect)
    state.append_element(parent, child).unwrap();
    assert_eq!(
        state.append_element(child, parent),
        Err(HostErrorCode::CycleDetected)
    );
    let c_node = state.doc.get_node(child as usize).unwrap();
    assert!(c_node.children.is_empty());

    // 3. Child Already Has Parent
    let parent2 = state.create_element("section".to_string());
    assert_eq!(
        state.append_element(parent2, child),
        Err(HostErrorCode::ChildAlreadyHasParent)
    );
    let c_node = state.doc.get_node(child as usize).unwrap();
    assert_eq!(c_node.parent, Some(parent as usize));
}

#[test]
fn test_recursive_in_document_flag() {
    let mut state = RuntimeState::new("https://example.com".to_string());
    let parent = state.create_element("div".to_string());
    let child = state.create_element("span".to_string());
    let grandchild = state.create_element("em".to_string());

    // Build subtree: parent -> child -> grandchild
    state.append_element(parent, child).unwrap();
    state.append_element(child, grandchild).unwrap();

    // Attach parent to document root (id 0)
    state.append_element(0, parent).unwrap();

    // All three should be in the document
    assert!(
        state.doc.get_node(parent as usize).unwrap().in_document,
        "parent should be in document"
    );
    assert!(
        state.doc.get_node(child as usize).unwrap().in_document,
        "child should be in document"
    );
    assert!(
        state.doc.get_node(grandchild as usize).unwrap().in_document,
        "grandchild should be in document"
    );

    // Detach parent from root
    state.doc.detach_node(parent as usize);

    // All three should no longer be in the document
    assert!(
        !state.doc.get_node(parent as usize).unwrap().in_document,
        "parent should not be in document after detach"
    );
    assert!(
        !state.doc.get_node(child as usize).unwrap().in_document,
        "child should not be in document after detach"
    );
    assert!(
        !state.doc.get_node(grandchild as usize).unwrap().in_document,
        "grandchild should not be in document after detach"
    );
}

#[test]
fn test_remove_node_recursive_cleanup() {
    let mut state = RuntimeState::new("https://example.com".to_string());
    let parent = state.create_element("div".to_string());
    let child = state.create_element("span".to_string());
    let grandchild = state.create_element("em".to_string());

    state.append_element(parent, child).unwrap();
    state.append_element(child, grandchild).unwrap();

    // Remove parent — child and grandchild should also be freed
    state.destroy_element(parent).unwrap();

    assert!(state.doc.get_node(parent as usize).is_none());
    assert!(state.doc.get_node(child as usize).is_none());
    assert!(state.doc.get_node(grandchild as usize).is_none());
}

#[test]
fn test_append_elements_rejects_duplicates() {
    let mut state = RuntimeState::new("https://example.com".to_string());
    let parent = state.create_element("div".to_string());
    let child = state.create_element("span".to_string());

    assert_eq!(
        state.append_elements(parent, &[child, child]),
        Err(HostErrorCode::InvalidChild)
    );
    // Parent should have no children since the operation was rejected
    let p = state.doc.get_node(parent as usize).unwrap();
    assert!(p.children.is_empty());
}

// ── Further cases ──────────────────────────────────────────────────

#[test]
fn try_new_rejects_relative_url() {
    assert!(RuntimeState::try_new("not a url".to_string()).is_none());
    assert!(RuntimeState::try_new("https://example.com".to_string()).is_some());
}

#[test]
fn append_to_missing_parent_or_child_is_rejected() {
    let mut state = RuntimeState::new("https://example.com".to_string());
    let el = state.create_element("div".to_string());
    assert_eq!(state.append_element(999, el), Err(HostErrorCode::InvalidParent));
    assert_eq!(state.append_element(el, 999), Err(HostErrorCode::InvalidChild));
}

#[test]
fn append_elements_appends_in_order() {
    let mut state = RuntimeState::new("https://example.com".to_string());
    let parent = state.create_element("ul".to_string());
    let a = state.create_element("li".to_string());
    let b = state.create_element("li".to_string());
    let c = state.create_element("li".to_string());
    state.append_elements(parent, &[a, b, c]).unwrap();
    assert_eq!(
        state.doc.get_node(parent as usize).unwrap().children,
        vec![a as usize, b as usize, c as usize]
    );
    assert_eq!(state.get_first_child(parent), Ok(Some(a)));
    assert_eq!(state.get_last_child(parent), Ok(Some(c)));
    assert_eq!(state.get_next_sibling(a), Ok(Some(b)));
    assert_eq!(state.get_previous_sibling(a), Ok(None));
    assert_eq!(state.get_parent_node(b), Ok(Some(parent)));
}

#[test]
fn sibling_and_parent_queries() {
    let mut state = RuntimeState::new("https://example.com".to_string());
    let div = state.create_element("div".to_string());
    let text = state.create_text_node("t".to_string());
    state.append_element(0, div).unwrap();
    state.append_element(div, text).unwrap();
    assert_eq!(state.get_parent_element(text), Ok(Some(div)));
    // The document node is not an element.
    assert_eq!(state.get_parent_element(div), Ok(None));
    assert_eq!(state.get_parent_node(div), Ok(Some(0)));
    assert_eq!(state.is_connected(text), Ok(true));
    assert_eq!(state.get_first_child(999), Err(HostErrorCode::InvalidChild));
}

#[test]
fn remove_and_replace_child() {
    let mut state = RuntimeState::new("https://example.com".to_string());
    let parent = state.create_element("div".to_string());
    let a = state.create_element("p".to_string());
    let b = state.create_element("p".to_string());
    state.append_element(parent, a).unwrap();
    state.replace_child(parent, b, a).unwrap();
    assert_eq!(state.doc.get_node(parent as usize).unwrap().children, vec![b as usize]);
    assert_eq!(state.doc.get_node(a as usize).unwrap().parent, None);
    state.remove_child(parent, b).unwrap();
    assert!(state.doc.get_node(parent as usize).unwrap().children.is_empty());
    assert!(state.remove_child(parent, b).is_err());
}

#[test]
fn attributes_round_trip() {
    let mut state = RuntimeState::new("https://example.com".to_string());
    let el = state.create_element("div".to_string());
    state.set_attribute(el, "id".to_string(), "main".to_string()).unwrap();
    assert_eq!(state.has_attribute(el, "id"), Ok(true));
    assert_eq!(state.get_attribute(el, "id"), Ok(Some("main".to_string())));
    state.remove_attribute(el, "id").unwrap();
    assert_eq!(state.has_attribute(el, "id"), Ok(false));
    assert_eq!(state.get_attribute(el, "id"), Ok(None));
    let text = state.create_text_node("x".to_string());
    assert_eq!(
        state.set_attribute(text, "id".to_string(), "t".to_string()),
        Err(HostErrorCode::InvalidChild)
    );
}

#[test]
fn host_error_codes_and_messages() {
    assert_eq!(HostErrorCode::InvalidParent.as_i32(), -1);
    assert_eq!(HostErrorCode::MemoryError.message(), "invalid memory access");
    let mut state = RuntimeState::new("https://example.com".to_string());
    let code = state.set_error(HostErrorCode::CycleDetected, "loop".to_string());
    assert_eq!(code, HostErrorCode::CycleDetected.as_i32());
    assert!(state.last_error.is_some());
    state.clear_error();
    assert!(state.last_error.is_none());
}

#[test]
fn append_elements_refuses_an_ancestor_before_changing_anything() {
    let mut state = RuntimeState::new("https://example.com".to_string());
    let outer = state.create_element("div".to_string());
    let inner = state.create_element("div".to_string());
    let loose = state.create_element("span".to_string());
    state.append_element(outer, inner).unwrap();
    assert_eq!(
        state.append_elements(inner, &[loose, outer]),
        Err(HostErrorCode::CycleDetected)
    );
    assert!(state.doc.get_node(inner as usize).unwrap().children.is_empty());
    assert_eq!(state.doc.get_node(loose as usize).unwrap().parent, None);
}
