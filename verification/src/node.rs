//! DOM node records stored in the document arena.

use vstd::prelude::*;
use crate::events::EventListenerEntry;
use crate::text::{distinct_tokens, is_token_of, str_eq, string_views};

verus! {

/// The type of a DOM node.
#[derive(Debug, Clone, Copy, PartialEq, Eq)]
pub enum NodeType {
    Document,
    Element,
    Text,
    Comment,
    ShadowRoot,
}

/// Encapsulation mode of a shadow root.
#[derive(Debug, Clone, Copy, PartialEq, Eq)]
pub enum ShadowRootMode {
    Open,
    Closed,
}

/// Paint-relevant facts about a node's computed style, filled in by the
/// style pass: whether it has computed style at all, its `z-index` (if not
/// `auto`), and whether its `position` is anything other than `static`.
#[derive(Debug, Clone, Copy, PartialEq, Eq)]
pub struct PaintInfo {
    pub has_style: bool,
    pub z_index: Option<i32>,
    pub positioned: bool,
}

/// A node in the document tree, stored in a slab arena under its `id`.
#[derive(Debug, Clone)]
pub struct DomNode {
    /// The key of this node in the arena.
    pub id: usize,
    /// The key of the parent node. For a shadow root, its host.
    pub parent: Option<usize>,
    /// The keys of the child nodes, in document order.
    pub children: Vec<usize>,
    /// The node is connected to the document (the `IS_IN_DOCUMENT` flag).
    pub in_document: bool,
    pub node_type: NodeType,
    /// Local name of an element (HTML namespace).
    pub name: Option<String>,
    /// Value of the `id` attribute.
    pub id_attr: Option<String>,
    /// Attributes, one entry per distinct name.
    pub attrs: Vec<(String, String)>,
    /// Classes from the `class` attribute, each once.
    pub classes: Vec<String>,
    /// The shadow root attached to this element, if any.
    pub shadow_root_id: Option<usize>,
    pub shadow_mode: Option<ShadowRootMode>,
    /// Character data of a text node.
    pub text_content: Option<String>,
    /// Dirty-descendants flag used to skip clean style passes.
    pub dirty_descendants: bool,
    /// For a `<slot>`: the light-DOM nodes assigned to it.
    pub assigned_nodes: Vec<usize>,
    /// For a light-DOM child of a shadow host: the slot it is assigned to.
    pub assigned_slot_id: Option<usize>,
    /// Registered event listeners, in registration order.
    pub event_listeners: Vec<EventListenerEntry>,
    /// The node establishes a CSS stacking context.
    pub creates_stacking_context: bool,
    pub paint: PaintInfo,
}

impl DomNode {
    /// `self` is a freshly created, detached node.
    pub open spec fn is_fresh(&self, id: usize, node_type: NodeType) -> bool {
        &&& self.id == id
        &&& self.parent is None
        &&& self.children@.len() == 0
        &&& !self.in_document
        &&& self.node_type == node_type
        &&& self.name is None
        &&& self.id_attr is None
        &&& self.attrs@.len() == 0
        &&& self.classes@.len() == 0
        &&& self.shadow_root_id is None
        &&& self.shadow_mode is None
        &&& self.text_content is None
        &&& self.dirty_descendants
        &&& self.assigned_nodes@.len() == 0
        &&& self.assigned_slot_id is None
        &&& self.event_listeners@.len() == 0
        &&& !self.creates_stacking_context
        &&& self.paint == PaintInfo { has_style: false, z_index: None, positioned: false }
    }

    /// A fresh, detached node of the given type.
    pub fn new(id: usize, node_type: NodeType) -> (r: Self)
        ensures
            r.is_fresh(id, node_type),
    {
        DomNode {
            id,
            parent: None,
            children: Vec::new(),
            in_document: false,
            node_type,
            name: None,
            id_attr: None,
            attrs: Vec::new(),
            classes: Vec::new(),
            shadow_root_id: None,
            shadow_mode: None,
            text_content: None,
            dirty_descendants: true,
            assigned_nodes: Vec::new(),
            assigned_slot_id: None,
            event_listeners: Vec::new(),
            creates_stacking_context: false,
            paint: PaintInfo { has_style: false, z_index: None, positioned: false },
        }
    }

    pub fn is_element(&self) -> (r: bool)
        ensures
            r == (self.node_type == NodeType::Element),
    {
        matches!(self.node_type, NodeType::Element)
    }

    pub fn is_text_node(&self) -> (r: bool)
        ensures
            r == (self.node_type == NodeType::Text),
    {
        matches!(self.node_type, NodeType::Text)
    }
}

/// Character data of a text node.
#[derive(Debug, Clone)]
pub struct TextNodeData {
    pub content: String,
}

impl TextNodeData {
    pub fn new(content: String) -> (r: Self)
        ensures
            r.content == content,
    {
        TextNodeData { content }
    }
}

/// Element payload: local name and attributes.
#[derive(Debug, Clone)]
pub struct ElementData {
    pub name: String,
    pub attrs: Vec<(String, String)>,
}

/// Typed payload of a node.
#[derive(Debug, Clone)]
pub enum NodeData {
    Document,
    Element(ElementData),
    Text(TextNodeData),
    Comment,
}

impl NodeData {
    pub fn is_element(&self) -> (r: bool)
        ensures
            r == (*self is Element),
    {
        matches!(self, NodeData::Element(_))
    }

    pub fn as_element(&self) -> (r: Option<&ElementData>)
        ensures
            match *self {
                NodeData::Element(e) => r == Some(&e),
                _ => r is None,
            },
    {
        match self {
            NodeData::Element(e) => Some(e),
            _ => None,
        }
    }

    pub fn as_element_mut(&mut self) -> (r: Option<&mut ElementData>)
        ensures
            match *old(self) {
                NodeData::Element(e) => r matches Some(x) && *x == e && *final(self) == NodeData::Element(*final(x)),
                _ => r is None && *final(self) == *old(self),
            },
    {
        match self {
            NodeData::Element(e) => Some(e),
            _ => None,
        }
    }
}

/// No attribute name occurs twice.
pub open spec fn attr_names_unique(attrs: Seq<(String, String)>) -> bool {
    forall|i: int, j: int| 0 <= i < j < attrs.len() ==> attrs[i].0@ != attrs[j].0@
}

/// The attributes as a map from name to value.
pub open spec fn attr_map(attrs: Seq<(String, String)>) -> Map<Seq<char>, Seq<char>> {
    Map::new(
        |k: Seq<char>| exists|i: int| 0 <= i < attrs.len() && attrs[i].0@ == k,
        |k: Seq<char>| attrs[choose|i: int| 0 <= i < attrs.len() && attrs[i].0@ == k].1@,
    )
}

/// The position of the attribute called `name`, if there is one.
pub fn find_attr(attrs: &Vec<(String, String)>, name: &str) -> (r: Option<usize>)
    ensures
        match r {
            Some(i) => i < attrs@.len() && attrs@[i as int].0@ == name@,
            None => !attr_map(attrs@).contains_key(name@),
        },
{
    let mut i: usize = 0;
    while i < attrs.len()
        invariant
            i <= attrs@.len(),
            forall|k: int| 0 <= k < i ==> attrs@[k].0@ != name@,
        decreases attrs@.len() - i,
    {
        if str_eq(attrs[i].0.as_str(), name) {
            return Some(i);
        }
        i = i + 1;
    }
    None
}

/// With unique names, the entry at `i` is the one the map reports.
pub proof fn lemma_attr_at(attrs: Seq<(String, String)>, i: int)
    requires
        attr_names_unique(attrs),
        0 <= i < attrs.len(),
    ensures
        attr_map(attrs).contains_key(attrs[i].0@),
        attr_map(attrs)[attrs[i].0@] == attrs[i].1@,
{
    let k = attrs[i].0@;
    assert(exists|j: int| 0 <= j < attrs.len() && attrs[j].0@ == k);
    let j = choose|j: int| 0 <= j < attrs.len() && attrs[j].0@ == k;
    if j < i {
    } else if i < j {
    }
}

impl DomNode {
    /// The node is a `<slot>` element.
    pub open spec fn spec_is_slot(&self) -> bool {
        &&& self.node_type == NodeType::Element
        &&& self.name is Some
        &&& self.name->0@ == "slot"@
    }

    /// Whether the node is a `<slot>` element.
    pub fn is_slot_element(&self) -> (r: bool)
        ensures
            r == self.spec_is_slot(),
    {
        match &self.name {
            Some(n) => self.is_element() && str_eq(n.as_str(), "slot"),
            None => false,
        }
    }

    /// Whether the element has the named attribute.
    pub fn has_attribute(&self, name: &str) -> (r: bool)
        ensures
            r == attr_map(self.attrs@).contains_key(name@),
    {
        match find_attr(&self.attrs, name) {
            Some(i) => {
                proof {
                    assert(exists|j: int| 0 <= j < self.attrs@.len() && self.attrs@[j].0@ == name@);
                }
                true
            },
            None => false,
        }
    }

    /// The value of the named attribute, if present.
    pub fn get_attribute(&self, name: &str) -> (r: Option<&str>)
        requires
            attr_names_unique(self.attrs@),
        ensures
            match r {
                Some(v) => attr_map(self.attrs@).contains_key(name@) && v@ == attr_map(self.attrs@)[name@],
                None => !attr_map(self.attrs@).contains_key(name@),
            },
    {
        match find_attr(&self.attrs, name) {
            Some(i) => {
                proof {
                    lemma_attr_at(self.attrs@, i as int);
                }
                Some(self.attrs[i].1.as_str())
            },
            None => None,
        }
    }

    /// `self` is `old` after setting attribute `name` to `value`: the
    /// attribute map gains the entry, `id` also sets the element's id, and
    /// `class` replaces its classes with the distinct white-space separated
    /// pieces of `value`; nothing else changes.
    pub open spec fn attr_set_from(&self, old: DomNode, name: Seq<char>, value: Seq<char>) -> bool {
        &&& attr_names_unique(self.attrs@)
        &&& attr_map(self.attrs@) == attr_map(old.attrs@).insert(name, value)
        &&& name == "id"@ ==> self.id_attr is Some && self.id_attr->0@ == value
        &&& name != "id"@ ==> self.id_attr == old.id_attr
        &&& name == "class"@ ==> string_views(self.classes@).no_duplicates() && forall|t: Seq<char>|
            #[trigger] string_views(self.classes@).contains(t) <==> is_token_of(value, t)
        &&& name != "class"@ ==> self.classes == old.classes
        &&& *self == (DomNode { attrs: self.attrs, id_attr: self.id_attr, classes: self.classes, ..old })
    }

    /// `self` is `old` after removing attribute `name`: `id` also clears the
    /// element's id and `class` its classes; nothing else changes.
    pub open spec fn attr_removed_from(&self, old: DomNode, name: Seq<char>) -> bool {
        &&& attr_names_unique(self.attrs@)
        &&& attr_map(self.attrs@) == attr_map(old.attrs@).remove(name)
        &&& self.id_attr == if name == "id"@ { None } else { old.id_attr }
        &&& name == "class"@ ==> self.classes@.len() == 0
        &&& name != "class"@ ==> self.classes == old.classes
        &&& *self == (DomNode { attrs: self.attrs, id_attr: self.id_attr, classes: self.classes, ..old })
    }

    /// Sets the named attribute. `id` also sets the element's id, and `class`
    /// replaces its classes with the white-space separated pieces of `value`.
    pub fn set_attribute(&mut self, name: &str, value: &str)
        requires
            attr_names_unique(old(self).attrs@),
        ensures
            final(self).attr_set_from(*old(self), name@, value@),
    {
        let ghost a0 = self.attrs@;
        match find_attr(&self.attrs, name) {
            Some(i) => {
                let entry = (self.attrs[i].0.clone(), value.to_owned());
                self.attrs.set(i, entry);
                proof {
                    let a1 = self.attrs@;
                    assert forall|p: int, q: int| 0 <= p < q < a1.len() implies a1[p].0@ != a1[q].0@ by {
                        assert(a0[p].0@ != a0[q].0@);
                    }
                    lemma_attr_at(a0, i as int);
                    assert forall|k: Seq<char>| #[trigger] attr_map(a1).contains_key(k) == attr_map(a0).insert(name@, value@).contains_key(k) by {
                        if attr_map(a1).contains_key(k) {
                            let j = choose|j: int| 0 <= j < a1.len() && a1[j].0@ == k;
                            assert(a0[j].0@ == k);
                        }
                        if attr_map(a0).contains_key(k) {
                            let j = choose|j: int| 0 <= j < a0.len() && a0[j].0@ == k;
                            assert(a1[j].0@ == k);
                        }
                    }
                    assert forall|k: Seq<char>| attr_map(a1).contains_key(k) implies #[trigger] attr_map(a1)[k] == attr_map(a0).insert(name@, value@)[k] by {
                        let j = choose|j: int| 0 <= j < a1.len() && a1[j].0@ == k;
                        lemma_attr_at(a1, j);
                        if j != i {
                            lemma_attr_at(a0, j);
                        }
                    }
                    assert(attr_map(a1) =~= attr_map(a0).insert(name@, value@));
                }
            },
            None => {
                self.attrs.push((name.to_owned(), value.to_owned()));
                proof {
                    let a1 = self.attrs@;
                    let n = a0.len() as int;
                    assert forall|p: int, q: int| 0 <= p < q < a1.len() implies a1[p].0@ != a1[q].0@ by {
                        if q == n {
                            assert(a0[p].0@ == a1[p].0@);
                            if a0[p].0@ == name@ {
                                assert(attr_map(a0).contains_key(name@));
                            }
                        }
                    }
                    assert forall|k: Seq<char>| #[trigger] attr_map(a1).contains_key(k) == attr_map(a0).insert(name@, value@).contains_key(k) by {
                        if attr_map(a1).contains_key(k) && k != name@ {
                            let j = choose|j: int| 0 <= j < a1.len() && a1[j].0@ == k;
                            assert(a0[j].0@ == k);
                        }
                        if attr_map(a0).contains_key(k) {
                            let j = choose|j: int| 0 <= j < a0.len() && a0[j].0@ == k;
                            assert(a1[j].0@ == k);
                        }
                        if k == name@ {
                            assert(a1[n].0@ == k);
                        }
                    }
                    assert forall|k: Seq<char>| attr_map(a1).contains_key(k) implies #[trigger] attr_map(a1)[k] == attr_map(a0).insert(name@, value@)[k] by {
                        let j = choose|j: int| 0 <= j < a1.len() && a1[j].0@ == k;
                        lemma_attr_at(a1, j);
                        if j != n {
                            lemma_attr_at(a0, j);
                        }
                    }
                    assert(attr_map(a1) =~= attr_map(a0).insert(name@, value@));
                }
            },
        }
        if str_eq(name, "id") {
            self.id_attr = Some(value.to_owned());
        }
        if str_eq(name, "class") {
            self.classes = distinct_tokens(value);
        }
    }

    /// Removes the named attribute. `id` also clears the element's id, and
    /// `class` its classes.
    pub fn remove_attribute(&mut self, name: &str)
        requires
            attr_names_unique(old(self).attrs@),
        ensures
            final(self).attr_removed_from(*old(self), name@),
    {
        let ghost a0 = self.attrs@;
        match find_attr(&self.attrs, name) {
            Some(i) => {
                self.attrs.remove(i);
                proof {
                    let a1 = self.attrs@;
                    assert(a1 == a0.remove(i as int));
                    assert forall|p: int, q: int| 0 <= p < q < a1.len() implies a1[p].0@ != a1[q].0@ by {
                        let p0 = if p < i { p } else { p + 1 };
                        let q0 = if q < i { q } else { q + 1 };
                        assert(a1[p] == a0[p0]);
                        assert(a1[q] == a0[q0]);
                    }
                    assert forall|k: Seq<char>| #[trigger] attr_map(a1).contains_key(k) == attr_map(a0).remove(name@).contains_key(k) by {
                        if attr_map(a1).contains_key(k) {
                            let j = choose|j: int| 0 <= j < a1.len() && a1[j].0@ == k;
                            let j0 = if j < i { j } else { j + 1 };
                            assert(a0[j0].0@ == k);
                            assert(j0 != i);
                        }
                        if attr_map(a0).contains_key(k) && k != name@ {
                            let j = choose|j: int| 0 <= j < a0.len() && a0[j].0@ == k;
                            assert(j != i);
                            let j1 = if j < i { j } else { j - 1 };
                            assert(a1[j1].0@ == k);
                        }
                    }
                    assert forall|k: Seq<char>| attr_map(a1).contains_key(k) implies #[trigger] attr_map(a1)[k] == attr_map(a0).remove(name@)[k] by {
                        let j = choose|j: int| 0 <= j < a1.len() && a1[j].0@ == k;
                        let j0 = if j < i { j } else { j + 1 };
                        lemma_attr_at(a1, j);
                        lemma_attr_at(a0, j0);
                    }
                    assert(attr_map(a1) =~= attr_map(a0).remove(name@));
                }
            },
            None => {
                proof {
                    assert(attr_map(a0) =~= attr_map(a0).remove(name@));
                }
            },
        }
        if str_eq(name, "id") {
            self.id_attr = None;
        }
        if str_eq(name, "class") {
            self.classes.clear();
        }
    }
}

} // verus!
