//! DOM events: listener registration records, the event object, and the
//! three-phase dispatch algorithm (capture, target, bubble) with
//! `stopPropagation`, `stopImmediatePropagation`, passive and `once`
//! listeners.

use vstd::prelude::*;
use crate::document::Document;
pub use crate::document::build_event_path;
use crate::node::DomNode;
use crate::text::str_eq;

verus! {

/// Decoded options for `addEventListener`.
///
/// Encoded as a bitfield for FFI: bit 0 = capture, bit 1 = passive, bit 2 = once.
#[derive(Debug, Clone, Copy, PartialEq, Eq)]
pub struct ListenerOptions {
    pub capture: bool,
    pub passive: bool,
    pub once: bool,
}

impl ListenerOptions {
    /// Decodes options from an FFI bitfield.
    pub fn from_bits(bits: u32) -> (r: Self)
        ensures
            r.capture == (bits & 1u32 != 0),
            r.passive == (bits & 2u32 != 0),
            r.once == (bits & 4u32 != 0),
    {
        ListenerOptions { capture: bits & 1 != 0, passive: bits & 2 != 0, once: bits & 4 != 0 }
    }
}

} // verus!

verus! {

/// W3C DOM event phase constants: `NONE = 0`, `CAPTURING_PHASE = 1`,
/// `AT_TARGET = 2`, `BUBBLING_PHASE = 3`.
#[derive(Debug, Clone, Copy, PartialEq, Eq)]
pub enum EventPhase {
    Inactive,
    Capturing,
    AtTarget,
    Bubbling,
}

/// A registered event listener on a DOM node. Listeners are identified by
/// `(event_type, callback_id, capture)` and fire in registration order.
#[derive(Debug, Clone)]
pub struct EventListenerEntry {
    /// The event type this listener is registered for.
    pub event_type: String,
    /// Opaque identifier for the callback.
    pub callback_id: u32,
    /// Registered for the capture phase.
    pub capture: bool,
    /// Passive listener (cannot call `preventDefault`).
    pub passive: bool,
    /// Removed after its first invocation.
    pub once: bool,
    /// Set when removed during an active dispatch.
    pub removed: bool,
}

} // verus!

verus! {

impl EventPhase {
    /// The DOM `eventPhase` number.
    pub open spec fn code(self) -> u8 {
        match self {
            EventPhase::Inactive => 0u8,
            EventPhase::Capturing => 1u8,
            EventPhase::AtTarget => 2u8,
            EventPhase::Bubbling => 3u8,
        }
    }

    /// The DOM `eventPhase` number.
    pub fn as_u8(self) -> (r: u8)
        ensures
            r == self.code(),
    {
        match self {
            EventPhase::Inactive => 0,
            EventPhase::Capturing => 1,
            EventPhase::AtTarget => 2,
            EventPhase::Bubbling => 3,
        }
    }
}

/// Core event object (WHATWG DOM). Created for each dispatch; listeners may
/// change its flags.
#[derive(Debug)]
pub struct Event {
    /// The event type name (e.g. "click").
    pub event_type: String,
    /// The node the event is dispatched at.
    pub target: Option<usize>,
    /// The node currently being processed during dispatch.
    pub current_target: Option<usize>,
    /// The current dispatch phase.
    pub event_phase: EventPhase,
    /// Whether this event bubbles up through the tree.
    pub bubbles: bool,
    /// Whether this event can be canceled via `preventDefault()`.
    pub cancelable: bool,
    /// Whether this event crosses shadow boundaries.
    pub composed: bool,
    /// Dispatched by the user agent rather than by script.
    pub is_trusted: bool,
    /// Set by `stopPropagation()`: no further nodes are visited.
    pub stop_propagation_flag: bool,
    /// Set by `stopImmediatePropagation()`: no further listeners fire.
    pub stop_immediate_propagation_flag: bool,
    /// Set by `preventDefault()`.
    pub canceled_flag: bool,
    /// Set while the event is being dispatched.
    pub dispatch_flag: bool,
    /// Set once the event has been initialized.
    pub initialized_flag: bool,
    /// Set while the listener being invoked is passive.
    pub in_passive_listener: bool,
}

impl Event {
    /// A new, initialized event; every other flag is clear.
    pub fn new(event_type: String, bubbles: bool, cancelable: bool, composed: bool) -> (r: Self)
        ensures
            r == (Event {
                event_type,
                target: None,
                current_target: None,
                event_phase: EventPhase::Inactive,
                bubbles,
                cancelable,
                composed,
                is_trusted: false,
                stop_propagation_flag: false,
                stop_immediate_propagation_flag: false,
                canceled_flag: false,
                dispatch_flag: false,
                initialized_flag: true,
                in_passive_listener: false,
            }),
    {
        Event {
            event_type,
            target: None,
            current_target: None,
            event_phase: EventPhase::Inactive,
            bubbles,
            cancelable,
            composed,
            is_trusted: false,
            stop_propagation_flag: false,
            stop_immediate_propagation_flag: false,
            canceled_flag: false,
            dispatch_flag: false,
            initialized_flag: true,
            in_passive_listener: false,
        }
    }

    /// Whether `preventDefault()` took effect.
    pub fn default_prevented(&self) -> (r: bool)
        ensures
            r == self.canceled_flag,
    {
        self.canceled_flag
    }
}

/// Listener data taken before invocation, so that listeners run without a
/// borrow of the tree.
#[derive(Debug, Clone, Copy)]
pub struct ListenerSnapshot {
    pub callback_id: u32,
    pub passive: bool,
    pub once: bool,
    /// Position in the node's listener list.
    pub index: usize,
}

/// A listener registered with `capture` is collected in `phase`.
pub open spec fn phase_accepts(capture: bool, phase: EventPhase) -> bool {
    match phase {
        EventPhase::Capturing => capture,
        EventPhase::Bubbling => !capture,
        EventPhase::AtTarget => true,
        EventPhase::Inactive => false,
    }
}

/// `l` is live, registered for `ty`, and fires in `phase`.
pub open spec fn listener_matches(l: EventListenerEntry, ty: Seq<char>, phase: EventPhase) -> bool {
    !l.removed && l.event_type@ == ty && phase_accepts(l.capture, phase)
}

/// The snapshot of `l`, found at position `i`.
pub open spec fn snapshot_of(l: EventListenerEntry, i: int) -> ListenerSnapshot {
    ListenerSnapshot { callback_id: l.callback_id, passive: l.passive, once: l.once, index: i as usize }
}

/// Snapshots of the matching listeners among the first `n` of `ls`, in
/// order.
pub open spec fn matching_upto(ls: Seq<EventListenerEntry>, ty: Seq<char>, phase: EventPhase, n: nat) -> Seq<ListenerSnapshot>
    decreases n,
{
    if n == 0 {
        Seq::empty()
    } else {
        matching_upto(ls, ty, phase, (n - 1) as nat) + if listener_matches(ls[n - 1], ty, phase) {
            seq![snapshot_of(ls[n - 1], n - 1)]
        } else {
            Seq::empty()
        }
    }
}

/// Snapshots of the listeners of `ls` that fire for `ty` in `phase`, in
/// registration order.
pub open spec fn matching(ls: Seq<EventListenerEntry>, ty: Seq<char>, phase: EventPhase) -> Seq<ListenerSnapshot> {
    matching_upto(ls, ty, phase, ls.len())
}

/// Collects the listeners on `node_id` that fire for `event_type` in
/// `phase`: capture listeners while capturing, the others while bubbling,
/// all of them at the target, none outside a dispatch. Removed entries are
/// skipped.
pub fn collect_matching_listeners(doc: &Document, node_id: usize, event_type: &str, phase: EventPhase) -> (r: Vec<ListenerSnapshot>)
    ensures
        doc.nodes().contains_key(node_id) ==> doc.listeners_of(node_id).len() <= usize::MAX,
        r@ == if doc.nodes().contains_key(node_id) {
            matching(doc.listeners_of(node_id), event_type@, phase)
        } else {
            Seq::empty()
        },
{
    let node = match doc.get_node(node_id) {
        Some(n) => n,
        None => return Vec::new(),
    };
    let ls = &node.event_listeners;
    let mut out: Vec<ListenerSnapshot> = Vec::new();
    let mut i: usize = 0;
    while i < ls.len()
        invariant
            i <= ls@.len(),
            out@ == matching_upto(ls@, event_type@, phase, i as nat),
        decreases ls@.len() - i,
    {
        let l = &ls[i];
        let accepts = match phase {
            EventPhase::Capturing => l.capture,
            EventPhase::Bubbling => !l.capture,
            EventPhase::AtTarget => true,
            EventPhase::Inactive => false,
        };
        if !l.removed && str_eq(l.event_type.as_str(), event_type) && accepts {
            out.push(ListenerSnapshot { callback_id: l.callback_id, passive: l.passive, once: l.once, index: i });
        }
        i = i + 1;
    }
    out
}

/// A copy of `l`.
pub fn copy_entry(l: &EventListenerEntry) -> (r: EventListenerEntry)
    ensures
        r == *l,
{
    EventListenerEntry {
        event_type: l.event_type.clone(),
        callback_id: l.callback_id,
        capture: l.capture,
        passive: l.passive,
        once: l.once,
        removed: l.removed,
    }
}

/// `l` is a live listener with key `(ty, cb, capture)`.
pub open spec fn has_key(l: EventListenerEntry, ty: Seq<char>, cb: u32, capture: bool) -> bool {
    !l.removed && l.event_type@ == ty && l.callback_id == cb && l.capture == capture
}

/// The list `ls` holds a live listener with key `(ty, cb, capture)`.
pub open spec fn has_listener(ls: Seq<EventListenerEntry>, ty: Seq<char>, cb: u32, capture: bool) -> bool {
    exists|i: int| 0 <= i < ls.len() && has_key(#[trigger] ls[i], ty, cb, capture)
}

/// Whether `ls` holds a live listener with key `(ty, cb, capture)`.
pub fn find_listener(ls: &Vec<EventListenerEntry>, ty: &str, cb: u32, capture: bool) -> (r: bool)
    ensures
        r == has_listener(ls@, ty@, cb, capture),
{
    let mut i: usize = 0;
    while i < ls.len()
        invariant
            i <= ls@.len(),
            forall|k: int| 0 <= k < i ==> !has_key(#[trigger] ls@[k], ty@, cb, capture),
        decreases ls@.len() - i,
    {
        let l = &ls[i];
        if !l.removed && l.callback_id == cb && l.capture == capture && str_eq(l.event_type.as_str(), ty) {
            return true;
        }
        i = i + 1;
    }
    false
}

/// A copy of `ls`.
pub fn copy_listeners(ls: &Vec<EventListenerEntry>) -> (r: Vec<EventListenerEntry>)
    ensures
        r@ == ls@,
{
    let mut out: Vec<EventListenerEntry> = Vec::new();
    let mut i: usize = 0;
    while i < ls.len()
        invariant
            i <= ls@.len(),
            out@ == ls@.take(i as int),
        decreases ls@.len() - i,
    {
        out.push(copy_entry(&ls[i]));
        i = i + 1;
        proof {
            assert(out@ =~= ls@.take(i as int));
        }
    }
    proof {
        assert(ls@.take(ls@.len() as int) =~= ls@);
    }
    out
}

/// The listeners of `ls` not marked removed, in order.
pub open spec fn live_listeners(ls: Seq<EventListenerEntry>) -> Seq<EventListenerEntry> {
    ls.filter(|l: EventListenerEntry| !l.removed)
}

/// Copies the listeners of `ls` not marked removed.
pub fn retain_live(ls: &Vec<EventListenerEntry>) -> (r: Vec<EventListenerEntry>)
    ensures
        r@ == live_listeners(ls@),
{
    let mut out: Vec<EventListenerEntry> = Vec::new();
    let mut i: usize = 0;
    while i < ls.len()
        invariant
            i <= ls@.len(),
            out@ == live_listeners(ls@.take(i as int)),
        decreases ls@.len() - i,
    {
        proof {
            reveal(Seq::filter);
            assert(ls@.take(i + 1).drop_last() =~= ls@.take(i as int));
            assert(ls@.take(i + 1).last() == ls@[i as int]);
        }
        if !ls[i].removed {
            out.push(copy_entry(&ls[i]));
        }
        i = i + 1;
    }
    proof {
        assert(ls@.take(ls@.len() as int) =~= ls@);
    }
    out
}

/// The listeners of `ls` that do not have key `(ty, cb, capture)`, in order.
pub open spec fn listeners_without(ls: Seq<EventListenerEntry>, ty: Seq<char>, cb: u32, capture: bool) -> Seq<EventListenerEntry> {
    ls.filter(|l: EventListenerEntry| !has_key(l, ty, cb, capture))
}

/// `e` is a fresh, live listener for `ty` and callback `cb` with `opts`.
pub open spec fn entry_for(e: EventListenerEntry, ty: Seq<char>, cb: u32, opts: ListenerOptions) -> bool {
    &&& e.event_type@ == ty
    &&& e.callback_id == cb
    &&& e.capture == opts.capture
    &&& e.passive == opts.passive
    &&& e.once == opts.once
    &&& !e.removed
}

/// `ls1` is `ls0` after `addEventListener(ty, cb, opts)`: unchanged when a
/// live listener with the same type, callback and capture flag is already
/// there, else `ls0` with a fresh entry appended.
pub open spec fn listener_added(ls0: Seq<EventListenerEntry>, ls1: Seq<EventListenerEntry>, ty: Seq<char>, cb: u32, opts: ListenerOptions) -> bool {
    if has_listener(ls0, ty, cb, opts.capture) {
        ls1 == ls0
    } else {
        &&& ls1.len() == ls0.len() + 1
        &&& ls1.drop_last() == ls0
        &&& entry_for(ls1.last(), ty, cb, opts)
    }
}

/// Adding the same listener twice has the effect of adding it once.
pub proof fn lemma_add_listener_idempotent(
    ls0: Seq<EventListenerEntry>,
    ls1: Seq<EventListenerEntry>,
    ls2: Seq<EventListenerEntry>,
    ty: Seq<char>,
    cb: u32,
    opts: ListenerOptions,
)
    requires
        listener_added(ls0, ls1, ty, cb, opts),
        listener_added(ls1, ls2, ty, cb, opts),
    ensures
        ls2 == ls1,
        has_listener(ls1, ty, cb, opts.capture),
{
    if !has_listener(ls0, ty, cb, opts.capture) {
        assert(has_key(ls1[ls1.len() - 1], ty, cb, opts.capture));
    }
}

/// Removing a listener right after adding it, when no such listener was
/// registered before, gives back the listener list it started from (once
/// the entries marked removed are dropped, as a dispatch does).
pub proof fn lemma_remove_undoes_add(
    ls0: Seq<EventListenerEntry>,
    ls1: Seq<EventListenerEntry>,
    ty: Seq<char>,
    cb: u32,
    opts: ListenerOptions,
)
    requires
        !has_listener(ls0, ty, cb, opts.capture),
        listener_added(ls0, ls1, ty, cb, opts),
    ensures
        listeners_without(ls1, ty, cb, opts.capture) == ls0,
{
    let pred = |l: EventListenerEntry| !has_key(l, ty, cb, opts.capture);
    assert(ls1 == ls0.push(ls1.last()));
    ls0.lemma_filter_push(ls1.last(), pred);
    lemma_filter_all(ls0, pred);
}

/// Filtering with a predicate that every element meets changes nothing.
proof fn lemma_filter_all(s: Seq<EventListenerEntry>, pred: spec_fn(EventListenerEntry) -> bool)
    requires
        forall|i: int| 0 <= i < s.len() ==> pred(#[trigger] s[i]),
    ensures
        s.filter(pred) == s,
    decreases s.len(),
{
    if s.len() > 0 {
        let s0 = s.drop_last();
        lemma_filter_all(s0, pred);
        assert(s0.push(s.last()) == s);
        s0.lemma_filter_push(s.last(), pred);
    } else {
        assert(s.filter(pred) =~= s) by {
            reveal(Seq::filter);
        }
    }
}

/// Copies the listeners of `ls` that do not have key `(ty, cb, capture)`.
pub fn drop_listener(ls: &Vec<EventListenerEntry>, ty: &str, cb: u32, capture: bool) -> (r: Vec<EventListenerEntry>)
    ensures
        r@ == listeners_without(ls@, ty@, cb, capture),
{
    let mut out: Vec<EventListenerEntry> = Vec::new();
    let mut i: usize = 0;
    while i < ls.len()
        invariant
            i <= ls@.len(),
            out@ == listeners_without(ls@.take(i as int), ty@, cb, capture),
        decreases ls@.len() - i,
    {
        proof {
            reveal(Seq::filter);
            assert(ls@.take(i + 1).drop_last() =~= ls@.take(i as int));
            assert(ls@.take(i + 1).last() == ls@[i as int]);
        }
        let l = &ls[i];
        let keyed = !l.removed && l.callback_id == cb && l.capture == capture && str_eq(l.event_type.as_str(), ty);
        if !keyed {
            out.push(copy_entry(l));
        }
        i = i + 1;
    }
    proof {
        assert(ls@.take(ls@.len() as int) =~= ls@);
    }
    out
}

} // verus!

verus! {

// ── Dispatch ───────────────────────────────────────────────────────────

/// One listener invocation during a dispatch: the slot it belongs to, the
/// listener, and the event as handed to the callback and as it came back.
pub struct ListenerCall {
    pub slot: u128,
    pub snapshot: ListenerSnapshot,
    pub before: Event,
    pub after: Event,
}

/// The node visited in slot `j` of a dispatch along `p` (root first, target
/// last): capture slots run down the path, then the target, then the
/// bubble slots back up.
pub open spec fn slot_node(p: Seq<usize>, j: int) -> usize {
    let t = p.len() - 1;
    if j <= t {
        p[j]
    } else {
        p[2 * t - j]
    }
}

/// The phase of slot `j` of a dispatch along `p`.
pub open spec fn slot_phase(p: Seq<usize>, j: int) -> EventPhase {
    let t = p.len() - 1;
    if j < t {
        EventPhase::Capturing
    } else if j == t {
        EventPhase::AtTarget
    } else {
        EventPhase::Bubbling
    }
}

/// Slot `j` is not entered: past the last slot, the bubble slots of an event
/// that does not bubble, or propagation stopped.
pub open spec fn slot_closed(p: Seq<usize>, j: int, ev: Event) -> bool {
    ||| j >= 2 * p.len() - 1
    ||| (j == p.len() && !ev.bubbles)
    ||| ev.stop_propagation_flag
}

/// The event while slot `j` runs.
pub open spec fn at_slot(ev: Event, p: Seq<usize>, j: int) -> Event {
    Event { event_phase: slot_phase(p, j), current_target: Some(slot_node(p, j)), ..ev }
}

/// The event after the dispatch.
pub open spec fn finished(ev: Event) -> Event {
    Event { dispatch_flag: false, event_phase: EventPhase::Inactive, current_target: None, ..ev }
}

/// The listeners that fire in slot `j`, given the event type at its start.
pub open spec fn slot_listeners(d: Document, p: Seq<usize>, j: int, ty: Seq<char>) -> Seq<ListenerSnapshot> {
    matching(d.listeners_of(slot_node(p, j)), ty, slot_phase(p, j))
}

/// From the start of slot `j`, with `calls[k..]` still to come and the event
/// `ev`, the dispatch makes exactly those calls and ends with `fin`.
pub open spec fn walk_start(d: Document, p: Seq<usize>, calls: Seq<ListenerCall>, j: int, k: int, ev: Event, fin: Event) -> bool
    decreases 2 * p.len() - j, 1int, 0int,
    when 0 <= j <= 2 * p.len() && p.len() > 0
{
    if slot_closed(p, j, ev) {
        k == calls.len() && fin == finished(ev)
    } else {
        walk_in(d, p, calls, j, slot_listeners(d, p, j, ev.event_type@), 0, k, at_slot(ev, p, j), fin)
    }
}

/// Inside slot `j`, with listeners `ls` of which `l` have been handled.
pub open spec fn walk_in(
    d: Document,
    p: Seq<usize>,
    calls: Seq<ListenerCall>,
    j: int,
    ls: Seq<ListenerSnapshot>,
    l: int,
    k: int,
    ev: Event,
    fin: Event,
) -> bool
    decreases 2 * p.len() - j, 0int, ls.len() - l,
    when 0 <= j < 2 * p.len() - 1 && 0 <= l <= ls.len() && p.len() > 0
{
    if l >= ls.len() {
        walk_start(d, p, calls, j + 1, k, ev, fin)
    } else {
        &&& 0 <= k < calls.len()
        &&& calls[k].slot == j
        &&& calls[k].snapshot == ls[l]
        &&& calls[k].before == (Event { in_passive_listener: ls[l].passive, ..ev })
        &&& {
            let ev2 = Event { in_passive_listener: false, ..calls[k].after };
            if ev2.stop_immediate_propagation_flag {
                walk_start(d, p, calls, j + 1, k + 1, ev2, fin)
            } else {
                walk_in(d, p, calls, j, ls, l + 1, k + 1, ev2, fin)
            }
        }
    }
}

/// Listener `i` of node `n` was invoked by one of `calls`.
pub open spec fn invoked(p: Seq<usize>, calls: Seq<ListenerCall>, n: usize, i: int) -> bool {
    exists|k: int| 0 <= k < calls.len() && slot_node(p, calls[k].slot as int) == n && #[trigger] calls[k].snapshot.index == i
}

/// The listeners of node `n` after `calls`: every invoked `once` listener is
/// marked removed.
pub open spec fn marked(ls: Seq<EventListenerEntry>, p: Seq<usize>, calls: Seq<ListenerCall>, n: usize) -> Seq<EventListenerEntry> {
    Seq::new(
        ls.len(),
        |i: int|
            if ls[i].once && invoked(p, calls, n, i) {
                EventListenerEntry { removed: true, ..ls[i] }
            } else {
                ls[i]
            },
    )
}

/// Dispatching `ev0` at `target` took `d0` to `d` and `ev0` to `ev`, making
/// exactly `calls`: the three-phase walk along the target's ancestor path,
/// then `once` listeners that fired and listeners marked removed dropped from
/// the nodes on the path.
pub open spec fn dispatched(d0: Document, d: Document, target: usize, ev0: Event, ev: Event, calls: Seq<ListenerCall>) -> bool {
    let p = d0.path_to(target);
    let start = Event { target: Some(target), dispatch_flag: true, event_phase: EventPhase::Inactive, ..ev0 };
    &&& walk_start(d0, p, calls, 0, 0, start, ev)
    &&& d.nodes().dom() == d0.nodes().dom()
    &&& forall|y: usize| #[trigger] d0.nodes().contains_key(y) && !p.contains(y) ==> d.nodes()[y] == d0.nodes()[y]
    &&& forall|y: usize|
        #[trigger] d0.nodes().contains_key(y) && p.contains(y) ==> d.nodes()[y] == (DomNode {
            event_listeners: d.nodes()[y].event_listeners,
            ..d0.nodes()[y]
        }) && d.listeners_of(y) == live_listeners(marked(d0.listeners_of(y), p, calls, y))
    &&& d.root_id() == d0.root_id()
    &&& d.removed_ids() == d0.removed_ids()
    &&& forall|a: usize, x: usize| #[trigger] d.is_inclusive_ancestor(a, x) == d0.is_inclusive_ancestor(a, x)
}

} // verus!

verus! {

/// Every snapshot that `matching` reports points at a matching listener.
pub proof fn lemma_matching_props(ls: Seq<EventListenerEntry>, ty: Seq<char>, ph: EventPhase, n: nat)
    requires
        n <= ls.len(),
        ls.len() <= usize::MAX,
    ensures
        forall|q: int|
            0 <= q < matching_upto(ls, ty, ph, n).len() ==> {
                let s = #[trigger] matching_upto(ls, ty, ph, n)[q];
                &&& s.index < n
                &&& s == snapshot_of(ls[s.index as int], s.index as int)
                &&& listener_matches(ls[s.index as int], ty, ph)
            },
    decreases n,
{
    if n > 0 {
        lemma_matching_props(ls, ty, ph, (n - 1) as nat);
        let prev = matching_upto(ls, ty, ph, (n - 1) as nat);
        let cur = matching_upto(ls, ty, ph, n);
        assert forall|q: int| 0 <= q < cur.len() implies {
            let s = #[trigger] cur[q];
            &&& s.index < n
            &&& s == snapshot_of(ls[s.index as int], s.index as int)
            &&& listener_matches(ls[s.index as int], ty, ph)
        } by {
            if q < prev.len() {
                assert(cur[q] == prev[q]);
            } else {
                assert(cur[q] == snapshot_of(ls[n - 1], n - 1));
                assert(((n - 1) as usize) as int == n - 1);
            }
        }
    }
}

/// Marking listeners removed that would not fire anyway changes nothing
/// that `matching` reports.
pub proof fn lemma_matching_equal(ls0: Seq<EventListenerEntry>, ls1: Seq<EventListenerEntry>, ty: Seq<char>, ph: EventPhase, n: nat)
    requires
        ls0.len() == ls1.len(),
        n <= ls0.len(),
        forall|i: int|
            0 <= i < ls0.len() ==> #[trigger] ls1[i] == ls0[i] || (ls1[i] == (EventListenerEntry { removed: true, ..ls0[i] })
                && !phase_accepts(ls0[i].capture, ph)),
    ensures
        matching_upto(ls1, ty, ph, n) == matching_upto(ls0, ty, ph, n),
    decreases n,
{
    if n > 0 {
        lemma_matching_equal(ls0, ls1, ty, ph, (n - 1) as nat);
        let i = n - 1;
        assert(ls1[i] == ls0[i] || (ls1[i] == (EventListenerEntry { removed: true, ..ls0[i] }) && !phase_accepts(ls0[i].capture, ph)));
    }
}

/// Two slots of one dispatch visit the same node only as its capture slot
/// and its bubble slot.
pub proof fn lemma_slot_same_node(p: Seq<usize>, a: int, b: int)
    requires
        p.len() > 0,
        p.no_duplicates(),
        0 <= a < b < 2 * p.len() - 1,
        slot_node(p, a) == slot_node(p, b),
    ensures
        a < p.len() - 1,
        b == 2 * (p.len() - 1) - a,
        slot_phase(p, a) == EventPhase::Capturing,
        slot_phase(p, b) == EventPhase::Bubbling,
{
}

/// The listener lists `marked` reports keep their length and entries, but
/// for the removed flag of invoked `once` listeners.
pub proof fn lemma_marked_push(
    ls: Seq<EventListenerEntry>,
    p: Seq<usize>,
    calls: Seq<ListenerCall>,
    c: ListenerCall,
    n: usize,
)
    requires
        slot_node(p, c.slot as int) == n ==> (c.snapshot.index as int) < ls.len(),
    ensures
        marked(ls, p, calls.push(c), n) == if slot_node(p, c.slot as int) == n && ls[c.snapshot.index as int].once {
            marked(ls, p, calls, n).update(
                c.snapshot.index as int,
                EventListenerEntry { removed: true, ..marked(ls, p, calls, n)[c.snapshot.index as int] },
            )
        } else {
            marked(ls, p, calls, n)
        },
{
    let calls2 = calls.push(c);
    let i0 = c.snapshot.index as int;
    assert forall|i: int| 0 <= i < ls.len() implies #[trigger] invoked(p, calls2, n, i) == (invoked(p, calls, n, i) || (
    slot_node(p, c.slot as int) == n && i == i0)) by {
        if invoked(p, calls, n, i) {
            let k = choose|k: int| 0 <= k < calls.len() && slot_node(p, calls[k].slot as int) == n && #[trigger] calls[k].snapshot.index == i;
            assert(calls2[k] == calls[k]);
        }
        if slot_node(p, c.slot as int) == n && i == i0 {
            assert(calls2[calls.len() as int] == c);
        }
        if invoked(p, calls2, n, i) {
            let k = choose|k: int| 0 <= k < calls2.len() && slot_node(p, calls2[k].slot as int) == n && #[trigger] calls2[k].snapshot.index == i;
            if k < calls.len() {
                assert(calls2[k] == calls[k]);
            }
        }
    }
    let lhs = marked(ls, p, calls2, n);
    let rhs = if slot_node(p, c.slot as int) == n && ls[i0].once {
        marked(ls, p, calls, n).update(i0, EventListenerEntry { removed: true, ..marked(ls, p, calls, n)[i0] })
    } else {
        marked(ls, p, calls, n)
    };
    assert(lhs =~= rhs);
}

} // verus!

verus! {

/// The document during a dispatch along `p`: off the path nothing changed;
/// on it only the listener lists did, which are `d0`'s with the invoked
/// `once` listeners marked.
pub open spec fn dispatch_doc(d0: Document, d: Document, p: Seq<usize>, calls: Seq<ListenerCall>) -> bool {
    &&& d.wf()
    &&& d.nodes().dom() == d0.nodes().dom()
    &&& forall|y: usize| #[trigger] d0.nodes().contains_key(y) && !p.contains(y) ==> d.nodes()[y] == d0.nodes()[y]
    &&& forall|y: usize|
        #[trigger] d0.nodes().contains_key(y) && p.contains(y) ==> d.nodes()[y] == (DomNode {
            event_listeners: d.nodes()[y].event_listeners,
            ..d0.nodes()[y]
        }) && d.listeners_of(y) == marked(d0.listeners_of(y), p, calls, y)
    &&& d.root_id() == d0.root_id()
    &&& d.removed_ids() == d0.removed_ids()
    &&& forall|a: usize, x: usize| #[trigger] d.is_inclusive_ancestor(a, x) == d0.is_inclusive_ancestor(a, x)
}

/// Every call so far came from a slot before `j` (or `j` itself when
/// `upto`), for a listener that slot's phase admits.
pub open spec fn calls_ok(d0: Document, p: Seq<usize>, calls: Seq<ListenerCall>, j: int, upto: bool) -> bool {
    forall|k: int|
        0 <= k < calls.len() ==> {
            let c = #[trigger] calls[k];
            let n = slot_node(p, c.slot as int);
            &&& (if upto { c.slot <= j } else { c.slot < j })
            &&& (c.snapshot.index as int) < d0.listeners_of(n).len()
            &&& phase_accepts(d0.listeners_of(n)[c.snapshot.index as int].capture, slot_phase(p, c.slot as int))
        }
}

/// At the start of slot `j`, the listeners collected from the current
/// document are the ones `d0` would give.
pub proof fn lemma_slot_collect(d0: Document, d: Document, p: Seq<usize>, calls: Seq<ListenerCall>, j: int, ty: Seq<char>)
    requires
        p.len() > 0,
        p.no_duplicates(),
        0 <= j < 2 * p.len() - 1,
        forall|i: int| 0 <= i < p.len() ==> d0.nodes().contains_key(#[trigger] p[i]),
        dispatch_doc(d0, d, p, calls),
        calls_ok(d0, p, calls, j, false),
    ensures
        matching(d.listeners_of(slot_node(p, j)), ty, slot_phase(p, j)) == slot_listeners(d0, p, j, ty),
{
    let n = slot_node(p, j);
    let t = p.len() - 1;
    assert(p.contains(n)) by {
        if j <= t {
            assert(p[j] == n);
        } else {
            assert(p[2 * t - j] == n);
        }
    }
    assert(d0.nodes().contains_key(n)) by {
        let q = choose|q: int| 0 <= q < p.len() && p[q] == n;
        assert(d0.nodes().contains_key(p[q]));
    }
    let ls0 = d0.listeners_of(n);
    let ls1 = d.listeners_of(n);
    assert(ls1 == marked(ls0, p, calls, n));
    let ph = slot_phase(p, j);
    assert forall|i: int| 0 <= i < ls0.len() implies #[trigger] ls1[i] == ls0[i] || (ls1[i] == (EventListenerEntry {
        removed: true,
        ..ls0[i]
    }) && !phase_accepts(ls0[i].capture, ph)) by {
        if ls0[i].once && invoked(p, calls, n, i) {
            let k = choose|k: int| 0 <= k < calls.len() && slot_node(p, calls[k].slot as int) == n && #[trigger] calls[k].snapshot.index == i;
            let c = calls[k];
            lemma_slot_same_node(p, c.slot as int, j);
        }
    }
    lemma_matching_equal(ls0, ls1, ty, ph, ls0.len());
}

/// One listener invocation keeps the dispatch invariants: its `once`
/// marking is what `marked` says, and the call is recorded for its slot.
pub proof fn lemma_dispatch_step(
    d0: Document,
    doc0: Document,
    doc1: Document,
    p: Seq<usize>,
    calls0: Seq<ListenerCall>,
    c: ListenerCall,
    node: usize,
    j: int,
)
    requires
        p.len() > 0,
        0 <= j < 2 * p.len() - 1,
        node == slot_node(p, j),
        p.contains(node),
        d0.nodes().contains_key(node),
        dispatch_doc(d0, doc0, p, calls0),
        calls_ok(d0, p, calls0, j, true),
        c.slot == j,
        (c.snapshot.index as int) < d0.listeners_of(node).len(),
        c.snapshot == snapshot_of(d0.listeners_of(node)[c.snapshot.index as int], c.snapshot.index as int),
        phase_accepts(d0.listeners_of(node)[c.snapshot.index as int].capture, slot_phase(p, j)),
        !c.snapshot.once ==> doc1 == doc0,
        c.snapshot.once ==> {
            &&& doc1.wf()
            &&& doc1.root_id() == doc0.root_id()
            &&& doc1.removed_ids() == doc0.removed_ids()
            &&& doc1.nodes().dom() == doc0.nodes().dom()
            &&& forall|y: usize| y != node ==> #[trigger] doc1.nodes()[y] == doc0.nodes()[y]
            &&& doc1.nodes()[node] == (DomNode { event_listeners: doc1.nodes()[node].event_listeners, ..doc0.nodes()[node] })
            &&& doc1.listeners_of(node) == doc0.listeners_of(node).update(
                c.snapshot.index as int,
                EventListenerEntry { removed: true, ..doc0.listeners_of(node)[c.snapshot.index as int] },
            )
            &&& forall|a: usize, x: usize| #[trigger] doc1.is_inclusive_ancestor(a, x) == doc0.is_inclusive_ancestor(a, x)
        },
    ensures
        dispatch_doc(d0, doc1, p, calls0.push(c)),
        calls_ok(d0, p, calls0.push(c), j, true),
{
    let calls1 = calls0.push(c);
    let idx = c.snapshot.index as int;
    assert forall|y: usize| #[trigger] d0.nodes().contains_key(y) && p.contains(y) implies doc1.nodes()[y] == (DomNode {
        event_listeners: doc1.nodes()[y].event_listeners,
        ..d0.nodes()[y]
    }) && doc1.listeners_of(y) == marked(d0.listeners_of(y), p, calls1, y) by {
        lemma_marked_push(d0.listeners_of(y), p, calls0, c, y);
        if y == node {
            assert(d0.listeners_of(node)[idx].once == c.snapshot.once);
        }
    }
    assert forall|k: int| 0 <= k < calls1.len() implies {
        let cc = #[trigger] calls1[k];
        let n = slot_node(p, cc.slot as int);
        &&& cc.slot <= j
        &&& (cc.snapshot.index as int) < d0.listeners_of(n).len()
        &&& phase_accepts(d0.listeners_of(n)[cc.snapshot.index as int].capture, slot_phase(p, cc.slot as int))
    } by {
        if k < calls0.len() {
            assert(calls1[k] == calls0[k]);
        }
    }
}

/// `f` was called with the callback id of the listener that `c` records,
/// on the event as `c` records it before the call.
pub open spec fn invoked_with<F: FnMut(u32, &mut Event)>(f: F, c: ListenerCall) -> bool {
    exists|e: &mut Event| #[trigger] call_ensures(f, (c.snapshot.callback_id, e), ()) && *e == c.before
}

/// Runs the listeners `ls` of slot `j` (node `node`), stopping early at
/// `stopImmediatePropagation`. Returns the callback and the calls made.
#[verifier::rlimit(80)]
#[verifier::spinoff_prover]
fn run_slot<F: FnMut(u32, &mut Event)>(
    doc: &mut Document,
    event: &mut Event,
    ls: &Vec<ListenerSnapshot>,
    node: usize,
    invoke: F,
    Ghost(d0): Ghost<Document>,
    Ghost(p): Ghost<Seq<usize>>,
    Ghost(j): Ghost<int>,
    Ghost(ev_start): Ghost<Event>,
    Ghost(calls0): Ghost<Seq<ListenerCall>>,
) -> (r: (F, Ghost<Seq<ListenerCall>>))
    requires
        p.len() > 0,
        0 <= j < 2 * p.len() - 1,
        j < u128::MAX,
        node == slot_node(p, j),
        p.contains(node),
        d0.nodes().contains_key(node),
        forall|q: int|
            0 <= q < ls@.len() ==> {
                let s = #[trigger] ls@[q];
                &&& (s.index as int) < d0.listeners_of(node).len()
                &&& s == snapshot_of(d0.listeners_of(node)[s.index as int], s.index as int)
                &&& phase_accepts(d0.listeners_of(node)[s.index as int].capture, slot_phase(p, j))
            },
        forall|a: u32, e: &mut Event| call_requires(invoke, (a, e)),
        forall|k: int| 0 <= k < calls0.len() ==> #[trigger] invoked_with(invoke, calls0[k]),
        dispatch_doc(d0, *old(doc), p, calls0),
        calls_ok(d0, p, calls0, j, true),
        forall|cs: Seq<ListenerCall>, fin: Event|
            cs.len() >= calls0.len() && cs.take(calls0.len() as int) == calls0 ==> (#[trigger] walk_start(d0, p, cs, 0, 0, ev_start, fin)
                == walk_in(d0, p, cs, j, ls@, 0, calls0.len() as int, *old(event), fin)),
    ensures
        forall|a: u32, e: &mut Event| call_requires(r.0, (a, e)),
        r.0 == invoke,
        forall|k: int| 0 <= k < r.1@.len() ==> #[trigger] invoked_with(invoke, r.1@[k]),
        dispatch_doc(d0, *final(doc), p, r.1@),
        calls_ok(d0, p, r.1@, j, true),
        forall|cs: Seq<ListenerCall>, fin: Event|
            cs.len() >= r.1@.len() && cs.take(r.1@.len() as int) == r.1@ ==> (#[trigger] walk_start(d0, p, cs, 0, 0, ev_start, fin)
                == walk_start(d0, p, cs, j + 1, r.1@.len() as int, *final(event), fin)),
{
    let ghost f0 = invoke;
    let mut invoke = invoke;
    let ghost mut calls = calls0;
    let mut l: usize = 0;
    loop
        invariant_except_break
            forall|cs: Seq<ListenerCall>, fin: Event|
                cs.len() >= calls.len() && cs.take(calls.len() as int) == calls ==> (#[trigger] walk_start(d0, p, cs, 0, 0, ev_start, fin)
                    == walk_in(d0, p, cs, j, ls@, l as int, calls.len() as int, *event, fin)),
        invariant
            p.len() > 0,
            0 <= j < 2 * p.len() - 1,
            j < u128::MAX,
            node == slot_node(p, j),
            p.contains(node),
            d0.nodes().contains_key(node),
            l <= ls@.len(),
            forall|q: int|
                0 <= q < ls@.len() ==> {
                    let s = #[trigger] ls@[q];
                    &&& (s.index as int) < d0.listeners_of(node).len()
                    &&& s == snapshot_of(d0.listeners_of(node)[s.index as int], s.index as int)
                    &&& phase_accepts(d0.listeners_of(node)[s.index as int].capture, slot_phase(p, j))
                },
            forall|a: u32, e: &mut Event| call_requires(invoke, (a, e)),
            invoke == f0,
            forall|k: int| 0 <= k < calls.len() ==> #[trigger] invoked_with(f0, calls[k]),
            dispatch_doc(d0, *doc, p, calls),
            calls_ok(d0, p, calls, j, true),
        ensures
            forall|a: u32, e: &mut Event| call_requires(invoke, (a, e)),
            invoke == f0,
            forall|k: int| 0 <= k < calls.len() ==> #[trigger] invoked_with(f0, calls[k]),
            dispatch_doc(d0, *doc, p, calls),
            calls_ok(d0, p, calls, j, true),
            forall|cs: Seq<ListenerCall>, fin: Event|
                cs.len() >= calls.len() && cs.take(calls.len() as int) == calls ==> (#[trigger] walk_start(d0, p, cs, 0, 0, ev_start, fin)
                    == walk_start(d0, p, cs, j + 1, calls.len() as int, *event, fin)),
        decreases ls@.len() - l,
    {
        if l >= ls.len() {
            break;
        }
        let snap = ls[l];
        let ghost calls_before = calls;
        let ghost doc_before = *doc;
        if snap.once {
            doc.mark_listener_removed(node, snap.index);
        }
        event.in_passive_listener = snap.passive;
        let ghost before = *event;
        invoke(snap.callback_id, event);
        let ghost after = *event;
        event.in_passive_listener = false;
        let ghost c = ListenerCall { slot: j as u128, snapshot: snap, before, after };
        proof {
            broadcast use vstd::function::group_function_axioms;
            assert(invoke == f0);
            assert(invoked_with(f0, c));
            let calls_prev = calls;
            calls = calls.push(c);
            assert forall|k: int| 0 <= k < calls.len() implies #[trigger] invoked_with(f0, calls[k]) by {
                if k < calls_prev.len() {
                    assert(calls[k] == calls_prev[k]);
                }
            }
            lemma_dispatch_step(d0, doc_before, *doc, p, calls_before, c, node, j);
            assert forall|cs: Seq<ListenerCall>, fin: Event|
                cs.len() >= calls.len() && cs.take(calls.len() as int) == calls implies (#[trigger] walk_start(d0, p, cs, 0, 0, ev_start, fin)
                    == if event.stop_immediate_propagation_flag {
                    walk_start(d0, p, cs, j + 1, calls.len() as int, *event, fin)
                } else {
                    walk_in(d0, p, cs, j, ls@, l + 1, calls.len() as int, *event, fin)
                }) by {
                assert(cs.take(calls_before.len() as int) =~= cs.take(calls.len() as int).take(calls_before.len() as int));
                assert(calls.take(calls_before.len() as int) =~= calls_before);
                assert(cs[calls_before.len() as int] == calls[calls_before.len() as int]);
            }
        }
        if event.stop_immediate_propagation_flag {
            break;
        }
        l = l + 1;
    }
    (invoke, Ghost(calls))
}

/// Drops, on every node of `path`, the listeners marked removed.
fn cleanup_path(doc: &mut Document, path: &Vec<usize>, Ghost(d0): Ghost<Document>, Ghost(calls): Ghost<Seq<ListenerCall>>)
    requires
        path@.no_duplicates(),
        forall|q: int| 0 <= q < path@.len() ==> d0.nodes().contains_key(#[trigger] path@[q]),
        dispatch_doc(d0, *old(doc), path@, calls),
    ensures
        final(doc).wf(),
        final(doc).nodes().dom() == d0.nodes().dom(),
        forall|y: usize| #[trigger] d0.nodes().contains_key(y) && !path@.contains(y) ==> final(doc).nodes()[y] == d0.nodes()[y],
        forall|y: usize|
            #[trigger] d0.nodes().contains_key(y) && path@.contains(y) ==> final(doc).nodes()[y] == (DomNode {
                event_listeners: final(doc).nodes()[y].event_listeners,
                ..d0.nodes()[y]
            }) && final(doc).listeners_of(y) == live_listeners(marked(d0.listeners_of(y), path@, calls, y)),
        final(doc).root_id() == d0.root_id(),
        final(doc).removed_ids() == d0.removed_ids(),
        forall|a: usize, x: usize| #[trigger] final(doc).is_inclusive_ancestor(a, x) == d0.is_inclusive_ancestor(a, x),
{
    let ghost p = path@;
    let mut i: usize = 0;
    while i < path.len()
        invariant
            p == path@,
            p.no_duplicates(),
            forall|q: int| 0 <= q < p.len() ==> d0.nodes().contains_key(#[trigger] p[q]),
            i <= p.len(),
            doc.wf(),
            doc.nodes().dom() == d0.nodes().dom(),
            forall|y: usize| #[trigger] d0.nodes().contains_key(y) && !p.contains(y) ==> doc.nodes()[y] == d0.nodes()[y],
            forall|y: usize|
                #[trigger] d0.nodes().contains_key(y) && p.contains(y) ==> doc.nodes()[y] == (DomNode {
                    event_listeners: doc.nodes()[y].event_listeners,
                    ..d0.nodes()[y]
                }) && doc.listeners_of(y) == if p.take(i as int).contains(y) {
                    live_listeners(marked(d0.listeners_of(y), p, calls, y))
                } else {
                    marked(d0.listeners_of(y), p, calls, y)
                },
            doc.root_id() == d0.root_id(),
            doc.removed_ids() == d0.removed_ids(),
            forall|a: usize, x: usize| #[trigger] doc.is_inclusive_ancestor(a, x) == d0.is_inclusive_ancestor(a, x),
        decreases p.len() - i,
    {
        let node = path[i];
        let live = retain_live(&doc.get_node(node).unwrap().event_listeners);
        doc.set_listeners(node, live);
        proof {
            assert forall|y: usize| #[trigger] p.take(i + 1).contains(y) <==> (p.take(i as int).contains(y) || y == node) by {
                assert(p.take(i + 1) =~= p.take(i as int).push(node));
                crate::document::lemma_seq_push_contains(p.take(i as int), node, y);
            }
            assert(!p.take(i as int).contains(node)) by {
                if p.take(i as int).contains(node) {
                    let q = choose|q: int| 0 <= q < i && p.take(i as int)[q] == node;
                    assert(p[q] == p[i as int]);
                }
            }
            assert(p.contains(node)) by {
                assert(p[i as int] == node);
            }
        }
        i = i + 1;
    }
    proof {
        assert(p.take(p.len() as int) =~= p);
    }
}

/// Closing the walk and cleaning up the listeners completes a dispatch.
proof fn lemma_dispatch_final(
    d0: Document,
    dF: Document,
    target: usize,
    ev0: Event,
    ev_start: Event,
    ev_closed: Event,
    ev_end: Event,
    calls: Seq<ListenerCall>,
    p: Seq<usize>,
    j: int,
)
    requires
        p == d0.path_to(target),
        p.len() > 0,
        0 <= j <= 2 * p.len() - 1,
        ev_start == (Event { target: Some(target), dispatch_flag: true, event_phase: EventPhase::Inactive, ..ev0 }),
        slot_closed(p, j, ev_closed),
        ev_end == finished(ev_closed),
        forall|cs: Seq<ListenerCall>, fin: Event|
            cs.len() >= calls.len() && cs.take(calls.len() as int) == calls ==> (#[trigger] walk_start(d0, p, cs, 0, 0, ev_start, fin)
                == walk_start(d0, p, cs, j, calls.len() as int, ev_closed, fin)),
        dF.nodes().dom() == d0.nodes().dom(),
        forall|y: usize| #[trigger] d0.nodes().contains_key(y) && !p.contains(y) ==> dF.nodes()[y] == d0.nodes()[y],
        forall|y: usize|
            #[trigger] d0.nodes().contains_key(y) && p.contains(y) ==> dF.nodes()[y] == (DomNode {
                event_listeners: dF.nodes()[y].event_listeners,
                ..d0.nodes()[y]
            }) && dF.listeners_of(y) == live_listeners(marked(d0.listeners_of(y), p, calls, y)),
        dF.root_id() == d0.root_id(),
        dF.removed_ids() == d0.removed_ids(),
        forall|a: usize, x: usize| #[trigger] dF.is_inclusive_ancestor(a, x) == d0.is_inclusive_ancestor(a, x),
    ensures
        dispatched(d0, dF, target, ev0, ev_end, calls),
{
    assert(calls.take(calls.len() as int) =~= calls);
    assert(walk_start(d0, p, calls, j, calls.len() as int, ev_closed, ev_end));
    assert(walk_start(d0, p, calls, 0, 0, ev_start, ev_end));
}

/// Walks the slots of a dispatch along `path` (capture from the root down,
/// the target, then bubbling back up while the event bubbles), running the
/// matching listeners of each; stops after a slot whose listeners set the
/// stop-propagation flag. Returns the callback, the slot it stopped at and
/// the calls made.
#[verifier::rlimit(60)]
#[verifier::spinoff_prover]
fn run_path<F: FnMut(u32, &mut Event)>(
    doc: &mut Document,
    event: &mut Event,
    path: &Vec<usize>,
    invoke: F,
    Ghost(d0): Ghost<Document>,
    Ghost(ev_start): Ghost<Event>,
) -> (r: (F, Ghost<int>, Ghost<Seq<ListenerCall>>))
    requires
        path@.len() > 0,
        path@.no_duplicates(),
        forall|i: int| 0 <= i < path@.len() ==> d0.nodes().contains_key(#[trigger] path@[i]),
        d0.wf(),
        *old(doc) == d0,
        *old(event) == ev_start,
        forall|a: u32, e: &mut Event| call_requires(invoke, (a, e)),
    ensures
        forall|k: int| 0 <= k < r.2@.len() ==> #[trigger] invoked_with(invoke, r.2@[k]),
        0 <= r.1@ <= 2 * path@.len() - 1,
        slot_closed(path@, r.1@, *final(event)),
        dispatch_doc(d0, *final(doc), path@, r.2@),
        forall|cs: Seq<ListenerCall>, fin: Event|
            cs.len() >= r.2@.len() && cs.take(r.2@.len() as int) == r.2@ ==> (#[trigger] walk_start(d0, path@, cs, 0, 0, ev_start, fin)
                == walk_start(d0, path@, cs, r.1@, r.2@.len() as int, *final(event), fin)),
{
    let ghost f0 = invoke;
    let mut invoke = invoke;
    let ghost p = path@;
    let t = path.len() - 1;
    let ghost mut calls: Seq<ListenerCall> = Seq::empty();
    proof {
        assert forall|y: usize| #[trigger] d0.nodes().contains_key(y) && p.contains(y) implies doc.nodes()[y] == (DomNode {
            event_listeners: doc.nodes()[y].event_listeners,
            ..d0.nodes()[y]
        }) && doc.listeners_of(y) == marked(d0.listeners_of(y), p, calls, y) by {
            assert(marked(d0.listeners_of(y), p, calls, y) =~= d0.listeners_of(y));
        }
    }
    let tt = t as u128;
    let mut j: u128 = 0;
    loop
        invariant
            p == path@,
            p.len() == t + 1,
            tt == t,
            p.no_duplicates(),
            forall|i: int| 0 <= i < p.len() ==> d0.nodes().contains_key(#[trigger] p[i]),
            d0.wf(),
            j <= 2 * t + 1,
            forall|a: u32, e: &mut Event| call_requires(invoke, (a, e)),
            invoke == f0,
            forall|k: int| 0 <= k < calls.len() ==> #[trigger] invoked_with(f0, calls[k]),
            dispatch_doc(d0, *doc, p, calls),
            calls_ok(d0, p, calls, j as int, false),
            forall|cs: Seq<ListenerCall>, fin: Event|
                cs.len() >= calls.len() && cs.take(calls.len() as int) == calls ==> (#[trigger] walk_start(d0, p, cs, 0, 0, ev_start, fin)
                    == walk_start(d0, p, cs, j as int, calls.len() as int, *event, fin)),
            p.len() <= usize::MAX,
        ensures
            slot_closed(p, j as int, *event),
            forall|k: int| 0 <= k < calls.len() ==> #[trigger] invoked_with(f0, calls[k]),
            j <= 2 * t + 1,
            dispatch_doc(d0, *doc, p, calls),
            forall|cs: Seq<ListenerCall>, fin: Event|
                cs.len() >= calls.len() && cs.take(calls.len() as int) == calls ==> (#[trigger] walk_start(d0, p, cs, 0, 0, ev_start, fin)
                    == walk_start(d0, p, cs, j as int, calls.len() as int, *event, fin)),
        decreases 2 * t + 1 - j,
    {
        if j > 2 * tt || (j == tt + 1 && !event.bubbles) || event.stop_propagation_flag {
            break;
        }
        let node = if j <= tt {
            path[j as usize]
        } else {
            path[(2 * tt - j) as usize]
        };
        let phase = if j < tt {
            EventPhase::Capturing
        } else if j == tt {
            EventPhase::AtTarget
        } else {
            EventPhase::Bubbling
        };
        proof {
            assert(node == slot_node(p, j as int));
            assert(phase == slot_phase(p, j as int));
            assert(p.contains(node));
        }
        let ghost ev_open = *event;
        event.event_phase = phase;
        event.current_target = Some(node);
        let ls = collect_matching_listeners(doc, node, event.event_type.as_str(), phase);
        proof {
            assert(*event == at_slot(ev_open, p, j as int));
            lemma_slot_collect(d0, *doc, p, calls, j as int, event.event_type@);
            assert(ls@ == slot_listeners(d0, p, j as int, ev_open.event_type@));
            assert(d0.listeners_of(node).len() == doc.listeners_of(node).len());
            lemma_matching_props(d0.listeners_of(node), ev_open.event_type@, phase, d0.listeners_of(node).len());
            assert forall|cs: Seq<ListenerCall>, fin: Event|
                cs.len() >= calls.len() && cs.take(calls.len() as int) == calls implies (#[trigger] walk_start(d0, p, cs, 0, 0, ev_start, fin)
                == walk_in(d0, p, cs, j as int, ls@, 0, calls.len() as int, *event, fin)) by {
                assert(walk_start(d0, p, cs, j as int, calls.len() as int, ev_open, fin) == walk_in(d0, p, cs, j as int, ls@, 0, calls.len() as int, *event, fin));
            }
            assert(calls_ok(d0, p, calls, j as int, true));
        }
        let res = run_slot(doc, event, &ls, node, invoke, Ghost(d0), Ghost(p), Ghost(j as int), Ghost(ev_start), Ghost(calls));
        invoke = res.0;
        proof {
            calls = res.1@;
        }
        j = j + 1;
    }
    (invoke, Ghost(j as int), Ghost(calls))
}

/// Dispatches `event` at `target_id` through the three phases (capture from
/// the root down, at the target, then bubbling back up when the event
/// bubbles), calling `invoke` with the callback id of each listener that
/// fires. Stops at `stopPropagation` (after the current node) and
/// `stopImmediatePropagation` (at once); `once` listeners that fired, and
/// listeners marked removed, are dropped afterwards. Returns whether the
/// event was not canceled.
pub fn dispatch_event_with_callback<F: FnMut(u32, &mut Event)>(
    doc: &mut Document,
    target_id: usize,
    event: &mut Event,
    invoke: F,
) -> (r: bool)
    requires
        old(doc).wf(),
        forall|a: u32, e: &mut Event| call_requires(invoke, (a, e)),
    ensures
        final(doc).wf(),
        !old(doc).nodes().contains_key(target_id) ==> r && *final(doc) == *old(doc) && *final(event) == *old(event),
        old(doc).nodes().contains_key(target_id) ==> r == !final(event).canceled_flag && exists|calls: Seq<ListenerCall>|
            #[trigger] dispatched(*old(doc), *final(doc), target_id, *old(event), *final(event), calls)
                && forall|k: int| 0 <= k < calls.len() ==> #[trigger] invoked_with(invoke, calls[k]),
{
    let path = match build_event_path(doc, target_id) {
        Some(p) => p,
        None => return true,
    };
    proof {
        doc.lemma_path_to(target_id);
    }
    event.target = Some(target_id);
    event.dispatch_flag = true;
    event.event_phase = EventPhase::Inactive;
    let ghost d0 = *doc;
    let ghost ev_start = *event;
    let res = run_path(doc, event, &path, invoke, Ghost(d0), Ghost(ev_start));
    let ghost j = res.1@;
    let ghost calls = res.2@;
    let ghost ev_closed = *event;
    event.dispatch_flag = false;
    event.event_phase = EventPhase::Inactive;
    event.current_target = None;
    cleanup_path(doc, &path, Ghost(d0), Ghost(calls));
    proof {
        lemma_dispatch_final(d0, *doc, target_id, *old(event), ev_start, ev_closed, *event, calls, path@, j);
    }
    !event.canceled_flag
}

} // verus!
