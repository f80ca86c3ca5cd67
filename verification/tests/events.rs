use paws_engine::events::{
    build_event_path, collect_matching_listeners, dispatch_event_with_callback, Event, EventPhase,
    ListenerOptions,
};
use paws_engine::runtime::RuntimeState;

#[test]
fn listener_options_from_bits() {
    let opts = ListenerOptions::from_bits(0b000);
    assert!(!opts.capture);
    assert!(!opts.passive);
    assert!(!opts.once);

    let opts = ListenerOptions::from_bits(0b111);
    assert!(opts.capture);
    assert!(opts.passive);
    assert!(opts.once);

    let opts = ListenerOptions::from_bits(0b010);
    assert!(!opts.capture);
    assert!(opts.passive);
    assert!(!opts.once);
}

fn setup_tree() -> (RuntimeState, u32, u32, u32) {
    let mut state = RuntimeState::new("https://example.com".to_string());
    let grandparent = state.create_element("div".to_string());
    let parent = state.create_element("section".to_string());
    let child = state.create_element("span".to_string());

    // Attach to document root: root -> grandparent -> parent -> child
    state.append_element(0, grandparent).unwrap();
    state.append_element(grandparent, parent).unwrap();
    state.append_element(parent, child).unwrap();

    (state, grandparent, parent, child)
}

fn opts(capture: bool, passive: bool, once: bool) -> ListenerOptions {
    ListenerOptions {
        capture,
        passive,
        once,
    }
}

#[test]
fn test_build_event_path() {
    let (state, grandparent, parent, child) = setup_tree();
    let child_nid = child as usize;

    let path = build_event_path(&state.doc, child_nid).unwrap();

    // root (0) -> grandparent -> parent -> child
    assert_eq!(path.len(), 4);
    assert_eq!(path[0], 0usize);
    assert_eq!(path[1], grandparent as usize);
    assert_eq!(path[2], parent as usize);
    assert_eq!(path[3], child_nid);
}

#[test]
fn test_capture_at_target_bubble_order() {
    let (mut state, grandparent, _parent, child) = setup_tree();
    let child_nid = child as usize;
    let grandparent_nid = grandparent as usize;

    // Capture listener on grandparent
    state
        .add_event_listener(grandparent, "click".to_string(), 1, opts(true, false, false))
        .unwrap();
    // Bubble listener on grandparent
    state
        .add_event_listener(grandparent, "click".to_string(), 2, opts(false, false, false))
        .unwrap();
    // At-target listener on child
    state
        .add_event_listener(child, "click".to_string(), 3, opts(false, false, false))
        .unwrap();

    let mut event = Event::new("click".to_string(), true, true, false);
    let mut invocations: Vec<(u32, usize, EventPhase)> = Vec::new();

    dispatch_event_with_callback(&mut state.doc, child_nid, &mut event, |cb_id, ev| {
        invocations.push((cb_id, ev.current_target.unwrap(), ev.event_phase));
    });

    assert_eq!(invocations.len(), 3);
    assert_eq!(invocations[0], (1, grandparent_nid, EventPhase::Capturing));
    assert_eq!(invocations[1], (3, child_nid, EventPhase::AtTarget));
    assert_eq!(invocations[2], (2, grandparent_nid, EventPhase::Bubbling));
}

#[test]
fn test_stop_propagation_halts_bubbling() {
    let (mut state, grandparent, parent, child) = setup_tree();
    let child_nid = child as usize;

    // Listener on parent (bubble)
    state
        .add_event_listener(parent, "click".to_string(), 1, opts(false, false, false))
        .unwrap();
    // Listener on grandparent (bubble) — should NOT fire
    state
        .add_event_listener(grandparent, "click".to_string(), 2, opts(false, false, false))
        .unwrap();

    let mut event = Event::new("click".to_string(), true, true, false);
    let mut invocations: Vec<u32> = Vec::new();

    dispatch_event_with_callback(&mut state.doc, child_nid, &mut event, |cb_id, ev| {
        invocations.push(cb_id);
        if cb_id == 1 {
            ev.stop_propagation_flag = true;
        }
    });

    // Only parent listener fires; grandparent is skipped
    assert_eq!(invocations, vec![1]);
}

#[test]
fn test_stop_immediate_propagation() {
    let (mut state, _grandparent, _parent, child) = setup_tree();
    let child_nid = child as usize;

    // Two listeners on child
    state
        .add_event_listener(child, "click".to_string(), 1, opts(false, false, false))
        .unwrap();
    state
        .add_event_listener(child, "click".to_string(), 2, opts(false, false, false))
        .unwrap();

    // Without stopImmediatePropagation: both fire
    let mut event = Event::new("click".to_string(), true, true, false);
    let mut invocations: Vec<u32> = Vec::new();
    dispatch_event_with_callback(&mut state.doc, child_nid, &mut event, |cb_id, _ev| {
        invocations.push(cb_id);
    });
    assert_eq!(invocations, vec![1, 2]);

    // With stopImmediatePropagation after first: only first fires
    let mut event = Event::new("click".to_string(), true, true, false);
    let mut invocations: Vec<u32> = Vec::new();
    dispatch_event_with_callback(&mut state.doc, child_nid, &mut event, |cb_id, ev| {
        invocations.push(cb_id);
        if cb_id == 1 {
            ev.stop_immediate_propagation_flag = true;
            ev.stop_propagation_flag = true;
        }
    });
    assert_eq!(invocations, vec![1]);
}

#[test]
fn test_prevent_default_cancelable() {
    let (mut state, _grandparent, _parent, child) = setup_tree();
    let child_nid = child as usize;

    state
        .add_event_listener(child, "click".to_string(), 1, opts(false, false, false))
        .unwrap();

    // Cancelable event with preventDefault
    let mut event = Event::new("click".to_string(), true, true, false);
    let result = dispatch_event_with_callback(&mut state.doc, child_nid, &mut event, |_cb_id, ev| {
        if ev.cancelable && !ev.in_passive_listener {
            ev.canceled_flag = true;
        }
    });
    assert!(!result); // canceled → returns false
}

#[test]
fn test_prevent_default_non_cancelable() {
    let (mut state, _grandparent, _parent, child) = setup_tree();
    let child_nid = child as usize;

    state
        .add_event_listener(child, "click".to_string(), 1, opts(false, false, false))
        .unwrap();

    // Non-cancelable event: preventDefault should be a no-op
    let mut event = Event::new("click".to_string(), true, false, false);
    let result = dispatch_event_with_callback(&mut state.doc, child_nid, &mut event, |_cb_id, ev| {
        if ev.cancelable && !ev.in_passive_listener {
            ev.canceled_flag = true;
        }
    });
    assert!(result); // not canceled → returns true
}

#[test]
fn test_once_auto_removal() {
    let (mut state, _grandparent, _parent, child) = setup_tree();
    let child_nid = child as usize;

    state
        .add_event_listener(child, "click".to_string(), 1, opts(false, false, true))
        .unwrap();

    // Verify listener exists
    assert_eq!(state.doc.get_node(child_nid).unwrap().event_listeners.len(), 1);

    let mut event = Event::new("click".to_string(), true, true, false);
    let mut invocations: Vec<u32> = Vec::new();
    dispatch_event_with_callback(&mut state.doc, child_nid, &mut event, |cb_id, _ev| {
        invocations.push(cb_id);
    });
    assert_eq!(invocations, vec![1]);

    // After dispatch, the once listener should be removed
    assert_eq!(state.doc.get_node(child_nid).unwrap().event_listeners.len(), 0);

    // Dispatch again — nothing fires
    let mut event = Event::new("click".to_string(), true, true, false);
    let mut invocations: Vec<u32> = Vec::new();
    dispatch_event_with_callback(&mut state.doc, child_nid, &mut event, |cb_id, _ev| {
        invocations.push(cb_id);
    });
    assert!(invocations.is_empty());
}

#[test]
fn test_non_bubbling_event() {
    let (mut state, grandparent, _parent, child) = setup_tree();
    let child_nid = child as usize;

    // Bubble listener on grandparent — should NOT fire for non-bubbling event
    state
        .add_event_listener(grandparent, "focus".to_string(), 1, opts(false, false, false))
        .unwrap();
    // At-target listener on child
    state
        .add_event_listener(child, "focus".to_string(), 2, opts(false, false, false))
        .unwrap();

    let mut event = Event::new("focus".to_string(), false, false, false);
    let mut invocations: Vec<u32> = Vec::new();
    dispatch_event_with_callback(&mut state.doc, child_nid, &mut event, |cb_id, _ev| {
        invocations.push(cb_id);
    });

    assert_eq!(invocations, vec![2]);
}

#[test]
fn test_capture_listener_fires_for_non_bubbling() {
    let (mut state, grandparent, _parent, child) = setup_tree();
    let child_nid = child as usize;

    // Capture listener on grandparent — SHOULD fire even for non-bubbling
    state
        .add_event_listener(grandparent, "focus".to_string(), 1, opts(true, false, false))
        .unwrap();
    // At-target on child
    state
        .add_event_listener(child, "focus".to_string(), 2, opts(false, false, false))
        .unwrap();

    let mut event = Event::new("focus".to_string(), false, false, false);
    let mut invocations: Vec<u32> = Vec::new();
    dispatch_event_with_callback(&mut state.doc, child_nid, &mut event, |cb_id, _ev| {
        invocations.push(cb_id);
    });

    assert_eq!(invocations, vec![1, 2]);
}

#[test]
fn test_passive_listener_flag() {
    let (mut state, _grandparent, _parent, child) = setup_tree();
    let child_nid = child as usize;

    state
        .add_event_listener(child, "touchmove".to_string(), 1, opts(false, true, false))
        .unwrap();

    let mut event = Event::new("touchmove".to_string(), true, true, false);
    let mut was_passive = false;

    dispatch_event_with_callback(&mut state.doc, child_nid, &mut event, |_cb_id, ev| {
        was_passive = ev.in_passive_listener;
        // Passive listener: preventDefault should be ignored
        if ev.cancelable && !ev.in_passive_listener {
            ev.canceled_flag = true;
        }
    });

    assert!(was_passive);
    assert!(!event.default_prevented()); // not canceled because passive
}

#[test]
fn test_collect_listeners_phase_filtering() {
    let (mut state, _grandparent, _parent, child) = setup_tree();
    let child_nid = child as usize;

    state
        .add_event_listener(child, "click".to_string(), 1, opts(true, false, false))
        .unwrap();
    state
        .add_event_listener(child, "click".to_string(), 2, opts(false, false, false))
        .unwrap();

    let cap = collect_matching_listeners(&state.doc, child_nid, "click", EventPhase::Capturing);
    assert_eq!(cap.len(), 1);
    assert_eq!(cap[0].callback_id, 1);

    let bub = collect_matching_listeners(&state.doc, child_nid, "click", EventPhase::Bubbling);
    assert_eq!(bub.len(), 1);
    assert_eq!(bub[0].callback_id, 2);

    let at = collect_matching_listeners(&state.doc, child_nid, "click", EventPhase::AtTarget);
    assert_eq!(at.len(), 2);
}

#[test]
fn test_listener_dedup() {
    let (mut state, _grandparent, _parent, child) = setup_tree();
    let child_nid = child as usize;

    // Add same listener twice — should be deduplicated
    state
        .add_event_listener(child, "click".to_string(), 1, opts(false, false, false))
        .unwrap();
    state
        .add_event_listener(child, "click".to_string(), 1, opts(false, false, false))
        .unwrap();

    assert_eq!(state.doc.get_node(child_nid).unwrap().event_listeners.len(), 1);

    // Different capture flag = different listener
    state
        .add_event_listener(child, "click".to_string(), 1, opts(true, false, false))
        .unwrap();

    assert_eq!(state.doc.get_node(child_nid).unwrap().event_listeners.len(), 2);
}

#[test]
fn test_remove_listener() {
    let (mut state, _grandparent, _parent, child) = setup_tree();
    let child_nid = child as usize;

    state
        .add_event_listener(child, "click".to_string(), 1, opts(false, false, false))
        .unwrap();
    assert_eq!(state.doc.get_node(child_nid).unwrap().event_listeners.len(), 1);

    state
        .remove_event_listener(child, "click".to_string(), 1, false)
        .unwrap();
    assert_eq!(state.doc.get_node(child_nid).unwrap().event_listeners.len(), 0);
}

#[test]
fn test_dispatch_returns_true_when_not_canceled() {
    let (mut state, _grandparent, _parent, child) = setup_tree();
    let child_nid = child as usize;

    state
        .add_event_listener(child, "click".to_string(), 1, opts(false, false, false))
        .unwrap();

    let mut event = Event::new("click".to_string(), true, true, false);
    let result = dispatch_event_with_callback(&mut state.doc, child_nid, &mut event, |_cb_id, _ev| {});
    assert!(result);
}

// ── Further cases ──────────────────────────────────────────────────

#[test]
fn dispatch_to_missing_target_changes_nothing() {
    let (mut state, _grandparent, _parent, _child) = setup_tree();
    let mut event = Event::new("click".to_string(), true, true, false);
    let mut calls = 0;
    let result = dispatch_event_with_callback(&mut state.doc, 999, &mut event, |_cb, _ev| {
        calls += 1;
    });
    assert!(result);
    assert_eq!(calls, 0);
    assert_eq!(event.target, None);
    assert!(!event.dispatch_flag);
}

#[test]
fn dispatch_sets_target_and_resets_phase() {
    let (mut state, _grandparent, _parent, child) = setup_tree();
    state
        .add_event_listener(child, "click".to_string(), 7, opts(false, false, false))
        .unwrap();
    let mut event = Event::new("click".to_string(), true, true, false);
    let mut seen_dispatch_flag = false;
    dispatch_event_with_callback(&mut state.doc, child as usize, &mut event, |_cb, ev| {
        seen_dispatch_flag = ev.dispatch_flag;
    });
    assert!(seen_dispatch_flag);
    assert_eq!(event.target, Some(child as usize));
    assert_eq!(event.current_target, None);
    assert_eq!(event.event_phase, EventPhase::Inactive);
    assert!(!event.dispatch_flag);
}

#[test]
fn listeners_for_other_types_do_not_fire() {
    let (mut state, _grandparent, parent, child) = setup_tree();
    state
        .add_event_listener(parent, "keydown".to_string(), 1, opts(true, false, false))
        .unwrap();
    state
        .add_event_listener(child, "click".to_string(), 2, opts(false, false, false))
        .unwrap();
    let mut event = Event::new("click".to_string(), true, true, false);
    let mut invocations: Vec<u32> = Vec::new();
    dispatch_event_with_callback(&mut state.doc, child as usize, &mut event, |cb, _ev| {
        invocations.push(cb);
    });
    assert_eq!(invocations, vec![2]);
}

#[test]
fn once_listener_in_capture_is_dropped_but_bubble_listener_stays() {
    let (mut state, grandparent, _parent, child) = setup_tree();
    state
        .add_event_listener(grandparent, "click".to_string(), 1, opts(true, false, true))
        .unwrap();
    state
        .add_event_listener(grandparent, "click".to_string(), 2, opts(false, false, false))
        .unwrap();
    let mut event = Event::new("click".to_string(), true, true, false);
    let mut invocations: Vec<u32> = Vec::new();
    dispatch_event_with_callback(&mut state.doc, child as usize, &mut event, |cb, _ev| {
        invocations.push(cb);
    });
    assert_eq!(invocations, vec![1, 2]);
    let ls = &state.doc.get_node(grandparent as usize).unwrap().event_listeners;
    assert_eq!(ls.len(), 1);
    assert_eq!(ls[0].callback_id, 2);
}

#[test]
fn remove_then_add_listener_restores_registration() {
    let (mut state, _grandparent, _parent, child) = setup_tree();
    state
        .add_event_listener(child, "click".to_string(), 4, opts(false, true, false))
        .unwrap();
    state
        .remove_event_listener(child, "click".to_string(), 4, false)
        .unwrap();
    assert!(state.doc.get_node(child as usize).unwrap().event_listeners.is_empty());
    // Removing with a different capture flag removes nothing.
    state
        .add_event_listener(child, "click".to_string(), 4, opts(false, true, false))
        .unwrap();
    state
        .remove_event_listener(child, "click".to_string(), 4, true)
        .unwrap();
    assert_eq!(state.doc.get_node(child as usize).unwrap().event_listeners.len(), 1);
}

#[test]
fn listener_calls_on_missing_node_are_rejected() {
    let (mut state, _grandparent, _parent, _child) = setup_tree();
    assert!(state
        .add_event_listener(999, "click".to_string(), 1, opts(false, false, false))
        .is_err());
    assert!(state
        .remove_event_listener(999, "click".to_string(), 1, false)
        .is_err());
}

#[test]
fn event_phase_codes_match_w3c_constants() {
    assert_eq!(EventPhase::Inactive.as_u8(), 0);
    assert_eq!(EventPhase::Capturing.as_u8(), 1);
    assert_eq!(EventPhase::AtTarget.as_u8(), 2);
    assert_eq!(EventPhase::Bubbling.as_u8(), 3);
}

#[test]
fn new_event_has_clear_flags() {
    let event = Event::new("x".to_string(), true, false, true);
    assert!(event.bubbles);
    assert!(!event.cancelable);
    assert!(event.composed);
    assert!(event.initialized_flag);
    assert!(!event.default_prevented());
    assert_eq!(event.event_phase, EventPhase::Inactive);
}
