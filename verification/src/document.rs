//! The document tree: a slab arena of nodes with parent/child links, cycle
//! detection and `IS_IN_DOCUMENT` propagation.

use slab::Slab;
use vstd::prelude::*;
use crate::arena::{
    arena_contains, arena_get, arena_get_mut, arena_insert, arena_new, arena_nodes, arena_remove,
};
use crate::events::{
    copy_listeners, drop_listener, find_listener, listener_added, listeners_without, EventListenerEntry, ListenerOptions,
};
use crate::node::{attr_map, attr_names_unique, DomNode, NodeType, PaintInfo, ShadowRootMode};

verus! {

/// Errors that can occur during DOM tree operations.
#[derive(Debug, Clone, Copy, PartialEq, Eq)]
pub enum DomError {
    /// The specified parent node ID does not exist in the tree.
    InvalidParent,
    /// The specified child node ID does not exist in the tree.
    InvalidChild,
    /// Appending would create a cycle in the tree.
    CycleDetected,
    /// The child node already has a different parent.
    ChildAlreadyHasParent,
    /// The element already has a shadow root attached.
    ShadowRootAlreadyExists,
}

impl DomError {
    /// Human-readable description of the error.
    pub fn message(&self) -> (r: &'static str)
        ensures
            r@ == match self {
                DomError::InvalidParent => "invalid parent id"@,
                DomError::InvalidChild => "invalid child id"@,
                DomError::CycleDetected => "append would create a cycle"@,
                DomError::ChildAlreadyHasParent => "child already has a parent"@,
                DomError::ShadowRootAlreadyExists => "element already has a shadow root"@,
            },
    {
        match self {
            DomError::InvalidParent => "invalid parent id",
            DomError::InvalidChild => "invalid child id",
            DomError::CycleDetected => "append would create a cycle",
            DomError::ChildAlreadyHasParent => "child already has a parent",
            DomError::ShadowRootAlreadyExists => "element already has a shadow root",
        }
    }
}

// ── Tree predicates ───────────────────────────────────────────────────

/// The parent link of every node.
pub open spec fn parent_map(m: Map<usize, DomNode>) -> Map<usize, Option<usize>> {
    m.map_values(|n: DomNode| n.parent)
}

/// Every child of a node is stored and points back to it.
#[verifier::opaque]
pub open spec fn children_link_ok(m: Map<usize, DomNode>) -> bool {
    forall|p: usize, i: int|
        #![trigger m[p].children@[i]]
        m.contains_key(p) && 0 <= i < m[p].children@.len() ==> m.contains_key(m[p].children@[i])
            && m[m[p].children@[i]].parent == Some(p)
}

/// Child lists hold no duplicates and every node is stored under its id.
#[verifier::opaque]
pub open spec fn ids_ok(m: Map<usize, DomNode>) -> bool {
    forall|p: usize| #[trigger] m.contains_key(p) ==> m[p].children@.no_duplicates() && m[p].id == p
}

/// A node's parent is stored and lists it as a child or as its shadow root.
#[verifier::opaque]
pub open spec fn parent_link_ok(m: Map<usize, DomNode>) -> bool {
    forall|n: usize|
        #[trigger] m.contains_key(n) && m[n].parent is Some ==> m.contains_key(m[n].parent->0) && (
        m[m[n].parent->0].children@.contains(n) || m[m[n].parent->0].shadow_root_id == Some(n))
}

/// A shadow root is stored, points back to its host, and is not one of the
/// host's children.
#[verifier::opaque]
pub open spec fn shadow_link_ok(m: Map<usize, DomNode>) -> bool {
    forall|h: usize|
        #[trigger] m.contains_key(h) && m[h].shadow_root_id is Some ==> m.contains_key(
            m[h].shadow_root_id->0,
        ) && m[m[h].shadow_root_id->0].parent == Some(h) && !m[h].children@.contains(
            m[h].shadow_root_id->0,
        )
}

/// Parent and child links agree; a shadow root hangs off its host without
/// being one of its children; every node is stored under its own id.
pub open spec fn links_ok(m: Map<usize, DomNode>) -> bool {
    &&& children_link_ok(m)
    &&& ids_ok(m)
    &&& parent_link_ok(m)
    &&& shadow_link_ok(m)
}

/// `rank` strictly increases from parent to child and stays below `bound`:
/// the parent links have no cycle.
pub open spec fn rank_ok(pm: Map<usize, Option<usize>>, rank: Map<usize, nat>, bound: nat) -> bool {
    forall|n: usize|
        #[trigger] pm.contains_key(n) ==> rank.contains_key(n) && rank[n] < bound && (pm[n] is Some
            ==> pm.contains_key(pm[n]->0) && rank[pm[n]->0] < rank[n])
}

/// `a` is an inclusive ancestor of `x` along parent links.
pub open spec fn reaches(pm: Map<usize, Option<usize>>, rank: Map<usize, nat>, x: usize, a: usize) -> bool
    decreases rank[x],
    when (forall|n: usize|
        #[trigger] pm.contains_key(n) ==> rank.contains_key(n) && (pm[n] is Some ==> pm.contains_key(pm[n]->0) && rank[pm[n]->0] < rank[n]))
{
    x == a || (pm.contains_key(x) && pm[x] is Some && reaches(pm, rank, pm[x]->0, a))
}

/// Apart from the root, a node is connected exactly when its parent is.
pub open spec fn flags_ok(m: Map<usize, DomNode>, root: usize) -> bool {
    forall|n: usize|
        #[trigger] m.contains_key(n) && n != root ==> (m[n].in_document == (m[n].parent is Some
            && m[m[n].parent->0].in_document))
}

/// Everything but the tree links and the connected/dirty flags is the same.
pub open spec fn same_payload(a: DomNode, b: DomNode) -> bool {
    &&& a.id == b.id
    &&& a.node_type == b.node_type
    &&& a.name == b.name
    &&& a.id_attr == b.id_attr
    &&& a.attrs == b.attrs
    &&& a.classes == b.classes
    &&& a.shadow_root_id == b.shadow_root_id
    &&& a.shadow_mode == b.shadow_mode
    &&& a.text_content == b.text_content
    &&& a.assigned_nodes == b.assigned_nodes
    &&& a.assigned_slot_id == b.assigned_slot_id
    &&& a.event_listeners == b.event_listeners
    &&& a.creates_stacking_context == b.creates_stacking_context
    &&& a.paint == b.paint
}

/// Only the connected flag may differ.
pub open spec fn same_but_flag(a: DomNode, b: DomNode) -> bool {
    &&& same_payload(a, b)
    &&& a.parent == b.parent
    &&& a.children == b.children
    &&& a.dirty_descendants == b.dirty_descendants
}

// ── Document ──────────────────────────────────────────────────────────

/// The document tree, backed by a [`Slab`] arena.
pub struct Document {
    nodes: Slab<DomNode>,
    root: usize,
    /// Ids of nodes removed from the arena since the last commit.
    removed: Vec<usize>,
    rank: Ghost<Map<usize, nat>>,
    bound: Ghost<nat>,
}

impl Document {
    /// The nodes of the document, by id.
    pub closed spec fn nodes(&self) -> Map<usize, DomNode> {
        arena_nodes(self.nodes)
    }

    /// The id of the document node.
    pub closed spec fn root_id(&self) -> usize {
        self.root
    }

    /// The id the next created node will get.
    pub closed spec fn next_id(&self) -> usize {
        crate::arena::arena_next_key(self.nodes)
    }

    /// The depth ranks that witness that parent links have no cycle.
    pub closed spec fn ranks(&self) -> Map<usize, nat> {
        self.rank@
    }

    /// A bound above every rank.
    pub closed spec fn rank_bound(&self) -> nat {
        self.bound@
    }

    /// How many entries the arena holds, occupied or vacant.
    pub closed spec fn slot_count(&self) -> nat {
        crate::arena::arena_slot_count(self.nodes)
    }

    /// No node was ever deleted from the arena: the ids in use are exactly
    /// `0 .. next_id()`, so the next node created gets `next_id()` and the
    /// one after it `next_id() + 1`.
    pub open spec fn is_dense(&self) -> bool {
        &&& self.slot_count() == self.next_id()
        &&& forall|k: usize| #[trigger] self.nodes().contains_key(k) <==> k < self.next_id()
    }

    /// `self` has the same node ids, and will hand out the same fresh ids,
    /// as `other`.
    pub open spec fn same_ids(&self, other: &Document) -> bool {
        &&& self.nodes().dom() == other.nodes().dom()
        &&& self.next_id() == other.next_id()
        &&& self.slot_count() == other.slot_count()
    }

    /// Ids removed since the last commit, in removal order.
    pub closed spec fn removed_ids(&self) -> Seq<usize> {
        self.removed@
    }

    /// `a` is `x` or one of its ancestors.
    pub closed spec fn is_inclusive_ancestor(&self, a: usize, x: usize) -> bool {
        reaches(parent_map(self.nodes()), self.rank@, x, a)
    }

    /// The document's structural invariant.
    pub closed spec fn wf(&self) -> bool {
        &&& self.nodes().dom().finite()
        &&& links_ok(self.nodes())
        &&& rank_ok(parent_map(self.nodes()), self.rank@, self.bound@)
        &&& flags_ok(self.nodes(), self.root)
    }

    /// Creates a document holding only its connected document node.
    pub fn new() -> (r: Self)
        ensures
            r.wf(),
            r.nodes().dom() == set![r.root_id()],
            r.nodes()[r.root_id()].node_type == NodeType::Document,
            r.nodes()[r.root_id()].in_document,
            r.nodes()[r.root_id()].parent is None,
            r.nodes()[r.root_id()].children@.len() == 0,
            r.nodes()[r.root_id()].attrs@.len() == 0,
            r.nodes()[r.root_id()].shadow_root_id is None,
            r.removed_ids().len() == 0,
            r.root_id() == 0,
            r.next_id() == 1,
            r.is_dense(),
    {
        let mut nodes = arena_new();
        let root = crate::arena::arena_vacant_key(&nodes);
        let mut node = DomNode::new(root, NodeType::Document);
        node.in_document = true;
        let k = arena_insert(&mut nodes, node);
        let ghost rank = Map::<usize, nat>::empty().insert(root, 0nat);
        let doc = Document { nodes, root, removed: Vec::new(), rank: Ghost(rank), bound: Ghost(1) };
        proof {
            reveal(children_link_ok);
            reveal(ids_ok);
            reveal(parent_link_ok);
            reveal(shadow_link_ok);
            assert(doc.nodes().dom() =~= set![root]);
            assert(doc.nodes()[root].children@ =~= Seq::<usize>::empty());
        }
        doc
    }

    /// Returns the node with the given id, if it exists.
    pub fn get_node(&self, id: usize) -> (r: Option<&DomNode>)
        ensures
            match r {
                Some(n) => self.nodes().contains_key(id) && *n == self.nodes()[id],
                None => !self.nodes().contains_key(id),
            },
    {
        arena_get(&self.nodes, id)
    }

    /// The id of the document node.
    pub fn root(&self) -> (r: usize)
        ensures
            r == self.root_id(),
    {
        self.root
    }

    /// Ids of the nodes removed since the last commit.
    pub fn removed_nodes(&self) -> (r: &[usize])
        ensures
            r@ == self.removed_ids(),
    {
        self.removed.as_slice()
    }

    /// Forgets the removed-node record (done at each commit).
    pub fn clear_removed_nodes(&mut self)
        ensures
            final(self).nodes() == old(self).nodes(),
            final(self).root_id() == old(self).root_id(),
            final(self).same_ids(old(self)),
            final(self).removed_ids().len() == 0,
            old(self).wf() ==> final(self).wf(),
            forall|a: usize, x: usize| final(self).is_inclusive_ancestor(a, x) == old(self).is_inclusive_ancestor(a, x),
    {
        self.removed.clear();
    }

    /// Creates a detached node of the given type and returns its id.
    pub fn create_node(&mut self, node_type: NodeType) -> (id: usize)
        requires
            old(self).wf(),
        ensures
            final(self).wf(),
            id == old(self).next_id(),
            !old(self).nodes().contains_key(id),
            final(self).nodes().dom() == old(self).nodes().dom().insert(id),
            forall|x: usize| x != id && old(self).nodes().contains_key(x) ==> #[trigger] final(self).nodes()[x] == old(self).nodes()[x],
            final(self).nodes()[id].is_fresh(id, node_type),
            old(self).is_dense() ==> final(self).is_dense() && final(self).next_id() == id + 1,
            final(self).root_id() == old(self).root_id(),
            final(self).removed_ids() == old(self).removed_ids(),
            forall|a: usize, x: usize| old(self).nodes().contains_key(x) ==>
                (final(self).is_inclusive_ancestor(a, x) == old(self).is_inclusive_ancestor(a, x)),
    {
        let key = crate::arena::arena_vacant_key(&self.nodes);
        let node = DomNode::new(key, node_type);
        let id = arena_insert(&mut self.nodes, node);
        let ghost old_rank = self.rank@;
        proof {
            self.rank@ = self.rank@.insert(id, 0);
            self.bound@ = self.bound@ + 1;
            let pm0 = parent_map(old(self).nodes());
            let pm1 = parent_map(self.nodes());
            assert(pm1 =~= pm0.insert(id, None));
            assert(node.children@ =~= Seq::<usize>::empty());
            assert forall|a: usize, x: usize| old(self).nodes().contains_key(x) implies
                reaches(pm1, self.rank@, x, a) == reaches(pm0, old_rank, x, a) by {
                lemma_reaches_extend(pm0, old_rank, old(self).bound@, id, x, a);
            }
            let m0 = old(self).nodes();
            let m1 = self.nodes();
            assert(m1 == m0.insert(id, node));
            lemma_reaches_extend_rank(pm0, old_rank, old(self).bound@, id);
            assert(links_ok(m1)) by {
                reveal(children_link_ok);
                reveal(ids_ok);
                reveal(parent_link_ok);
                reveal(shadow_link_ok);
                assert(node.children@.no_duplicates());
                assert forall|p: usize, i: int|
                    #![trigger m1[p].children@[i]]
                    m1.contains_key(p) && 0 <= i < m1[p].children@.len() implies m1.contains_key(m1[p].children@[i])
                        && m1[m1[p].children@[i]].parent == Some(p) by {
                    assert(p != id);
                    assert(m0.contains_key(m0[p].children@[i]));
                }
                assert forall|n: usize|
                    #[trigger] m1.contains_key(n) && m1[n].parent is Some implies m1.contains_key(m1[n].parent->0) && (
                    m1[m1[n].parent->0].children@.contains(n) || m1[m1[n].parent->0].shadow_root_id == Some(n)) by {
                    assert(n != id);
                    assert(m0.contains_key(m0[n].parent->0));
                }
                assert forall|p: usize| #[trigger] m1.contains_key(p) implies m1[p].children@.no_duplicates() && m1[p].id == p by {
                    if p != id {
                        assert(m0.contains_key(p));
                    }
                }
                assert forall|h: usize|
                    #[trigger] m1.contains_key(h) && m1[h].shadow_root_id is Some implies m1.contains_key(
                        m1[h].shadow_root_id->0,
                    ) && m1[m1[h].shadow_root_id->0].parent == Some(h) && !m1[h].children@.contains(
                        m1[h].shadow_root_id->0,
                    ) by {
                    assert(h != id);
                    assert(m0.contains_key(h));
                }
            }
            assert(rank_ok(parent_map(m1), self.rank@, self.bound@));
            assert(flags_ok(m1, self.root)) by {
                assert forall|n: usize| #[trigger] m1.contains_key(n) && n != self.root implies (m1[n].in_document == (m1[n].parent is Some
                    && m1[m1[n].parent->0].in_document)) by {
                    if n != id {
                        assert(m0.contains_key(n));
                        reveal(parent_link_ok);
                        assert(m0.contains_key(m0[n].parent->0) || m0[n].parent is None);
                    }
                }
            }
        }
        id
    }
}

proof fn lemma_reaches_extend_rank(pm: Map<usize, Option<usize>>, rank: Map<usize, nat>, bound: nat, k: usize)
    requires
        rank_ok(pm, rank, bound),
        !pm.contains_key(k),
    ensures
        rank_ok(pm.insert(k, None), rank.insert(k, 0), bound + 1),
{
}

/// Adding a parentless node does not change who reaches whom among the
/// existing nodes.
proof fn lemma_reaches_extend(pm: Map<usize, Option<usize>>, rank: Map<usize, nat>, bound: nat, k: usize, x: usize, a: usize)
    requires
        rank_ok(pm, rank, bound),
        !pm.contains_key(k),
        pm.contains_key(x),
    ensures
        reaches(pm.insert(k, None), rank.insert(k, 0), x, a) == reaches(pm, rank, x, a),
        rank_ok(pm.insert(k, None), rank.insert(k, 0), bound + 1),
    decreases rank[x],
{
    let pm2 = pm.insert(k, None);
    let rank2 = rank.insert(k, 0);
    assert(rank_ok(pm2, rank2, bound + 1));
    if x != a && pm[x] is Some {
        lemma_reaches_extend(pm, rank, bound, k, pm[x]->0, a);
    }
}

} // verus!


verus! {

// ── Ancestry lemmas ───────────────────────────────────────────────────

/// Ancestry is transitive.
pub proof fn lemma_reaches_trans(pm: Map<usize, Option<usize>>, rank: Map<usize, nat>, bound: nat, x: usize, b: usize, a: usize)
    requires
        rank_ok(pm, rank, bound),
        reaches(pm, rank, x, b),
        reaches(pm, rank, b, a),
    ensures
        reaches(pm, rank, x, a),
    decreases rank[x],
{
    if x != b {
        lemma_reaches_trans(pm, rank, bound, pm[x]->0, b, a);
    }
}

/// A proper ancestor has a smaller rank.
pub proof fn lemma_reaches_rank(pm: Map<usize, Option<usize>>, rank: Map<usize, nat>, bound: nat, x: usize, a: usize)
    requires
        rank_ok(pm, rank, bound),
        pm.contains_key(x),
        reaches(pm, rank, x, a),
    ensures
        pm.contains_key(a),
        rank[a] <= rank[x],
        x != a ==> rank[a] < rank[x],
    decreases rank[x],
{
    if x != a {
        lemma_reaches_rank(pm, rank, bound, pm[x]->0, a);
    }
}

/// A proper descendant of `x` descends from one of its children or from its
/// shadow root.
pub proof fn lemma_reaches_child(m: Map<usize, DomNode>, rank: Map<usize, nat>, bound: nat, x: usize, y: usize)
    requires
        parent_link_ok(m),
        rank_ok(parent_map(m), rank, bound),
        m.contains_key(x),
        m.contains_key(y),
        y != x,
        reaches(parent_map(m), rank, y, x),
    ensures
        (m[x].shadow_root_id is Some && reaches(parent_map(m), rank, y, m[x].shadow_root_id->0))
            || exists|j: int|
            0 <= j < m[x].children@.len() && reaches(parent_map(m), rank, y, #[trigger] m[x].children@[j]),
    decreases rank[y],
{
    let pm = parent_map(m);
    let q = pm[y]->0;
    assert(m[y].parent == Some(q));
    reveal(parent_link_ok);
    assert(m.contains_key(q));
    if q == x {
        if m[x].children@.contains(y) {
            let j = choose|j: int| 0 <= j < m[x].children@.len() && m[x].children@[j] == y;
            assert(reaches(pm, rank, y, m[x].children@[j]));
        } else {
            assert(m[x].shadow_root_id == Some(y));
        }
    } else {
        lemma_reaches_child(m, rank, bound, x, q);
        if m[x].shadow_root_id is Some && reaches(pm, rank, q, m[x].shadow_root_id->0) {
            assert(reaches(pm, rank, y, m[x].shadow_root_id->0));
        } else {
            let j = choose|j: int|
                0 <= j < m[x].children@.len() && reaches(pm, rank, q, #[trigger] m[x].children@[j]);
            assert(reaches(pm, rank, y, m[x].children@[j]));
        }
    }
}

/// A descendant of a child (or of the shadow root) of `x` descends from `x`.
pub proof fn lemma_reaches_from_child(m: Map<usize, DomNode>, rank: Map<usize, nat>, bound: nat, x: usize, c: usize, y: usize)
    requires
        rank_ok(parent_map(m), rank, bound),
        m.contains_key(c),
        m[c].parent == Some(x),
        reaches(parent_map(m), rank, y, c),
    ensures
        reaches(parent_map(m), rank, y, x),
{
    let pm = parent_map(m);
    assert(pm[c] == Some(x));
    assert(reaches(pm, rank, x, x));
    assert(reaches(pm, rank, c, x));
    lemma_reaches_trans(pm, rank, bound, y, c, x);
}

} // verus!

verus! {

/// The tree links of `a` and `b` agree.
pub open spec fn same_links(a: DomNode, b: DomNode) -> bool {
    &&& a.id == b.id
    &&& a.parent == b.parent
    &&& a.children == b.children
    &&& a.shadow_root_id == b.shadow_root_id
}

/// Changing anything but the links keeps the links well formed.
pub proof fn lemma_links_frame(m1: Map<usize, DomNode>, m2: Map<usize, DomNode>)
    requires
        links_ok(m1),
        m1.dom() == m2.dom(),
        forall|y: usize| #[trigger] m1.contains_key(y) ==> same_links(m1[y], m2[y]),
    ensures
        links_ok(m2),
        parent_map(m1) == parent_map(m2),
{
    reveal(children_link_ok);
    reveal(ids_ok);
    reveal(parent_link_ok);
    reveal(shadow_link_ok);
    assert forall|p: usize, i: int|
        #![trigger m2[p].children@[i]]
        m2.contains_key(p) && 0 <= i < m2[p].children@.len() implies m2.contains_key(m2[p].children@[i])
            && m2[m2[p].children@[i]].parent == Some(p) by {
        assert(m1.contains_key(p));
        assert(m1.contains_key(m1[p].children@[i]));
    }
    assert forall|p: usize| #[trigger] m2.contains_key(p) implies m2[p].children@.no_duplicates() && m2[p].id == p by {
        assert(m1.contains_key(p));
    }
    assert forall|n: usize|
        #[trigger] m2.contains_key(n) && m2[n].parent is Some implies m2.contains_key(m2[n].parent->0) && (
        m2[m2[n].parent->0].children@.contains(n) || m2[m2[n].parent->0].shadow_root_id == Some(n)) by {
        assert(m1.contains_key(n));
        assert(m1.contains_key(m1[n].parent->0));
    }
    assert forall|h: usize|
        #[trigger] m2.contains_key(h) && m2[h].shadow_root_id is Some implies m2.contains_key(
            m2[h].shadow_root_id->0,
        ) && m2[m2[h].shadow_root_id->0].parent == Some(h) && !m2[h].children@.contains(
            m2[h].shadow_root_id->0,
        ) by {
        assert(m1.contains_key(h));
        assert(m1.contains_key(m1[h].shadow_root_id->0));
    }
    assert(parent_map(m1) =~= parent_map(m2));
}

impl Document {
    /// Finite arena, consistent links, acyclic parent links.
    pub closed spec fn wf_structure(&self) -> bool {
        &&& self.nodes().dom().finite()
        &&& links_ok(self.nodes())
        &&& rank_ok(parent_map(self.nodes()), self.rank@, self.bound@)
    }

    /// Same arena shape and bookkeeping as `other`.
    pub closed spec fn same_frame(&self, other: &Document) -> bool {
        &&& self.same_ids(other)
        &&& self.rank@ == other.rank@
        &&& self.bound@ == other.bound@
        &&& self.root == other.root
        &&& self.removed@ == other.removed@
        &&& self.nodes().dom() == other.nodes().dom()
    }

    /// Sets the connected flag of `x` and of every descendant of `x`,
    /// shadow trees included.
    fn set_in_document_subtree(&mut self, x: usize, flag: bool)
        requires
            old(self).wf_structure(),
            old(self).nodes().contains_key(x),
        ensures
            final(self).wf_structure(),
            final(self).same_frame(old(self)),
            parent_map(final(self).nodes()) == parent_map(old(self).nodes()),
            forall|y: usize|
                #[trigger] old(self).nodes().contains_key(y) ==> same_but_flag(
                    final(self).nodes()[y],
                    old(self).nodes()[y],
                ) && final(self).nodes()[y].in_document == if reaches(
                    parent_map(old(self).nodes()),
                    old(self).rank@,
                    y,
                    x,
                ) {
                    flag
                } else {
                    old(self).nodes()[y].in_document
                },
        decreases old(self).bound@ - old(self).rank@[x],
    {
        let ghost m0 = self.nodes();
        let ghost pm = parent_map(m0);
        let ghost rank = self.rank@;
        let ghost bound = self.bound@;
        let node = arena_get_mut(&mut self.nodes, x);
        node.in_document = flag;
        let shadow = node.shadow_root_id;
        let children = node.children.clone();
        proof {
            assert(children@ == m0[x].children@);
            let m1 = self.nodes();
            assert(m1.dom() =~= m0.dom());
            assert forall|y: usize| #[trigger] m0.contains_key(y) implies same_links(m0[y], m1[y]) by {}
            lemma_links_frame(m0, m1);
            assert(pm.contains_key(x));
        }
        if let Some(s) = shadow {
            proof {
                reveal(shadow_link_ok);
                assert(m0.contains_key(s) && m0[s].parent == Some(x));
                assert(pm[s] == Some(x));
                assert(pm.contains_key(s));
                assert(rank[x] < rank[s] && rank[s] < bound);
            }
            self.set_in_document_subtree(s, flag);
        }
        let mut i: usize = 0;
        while i < children.len()
            invariant
                self.wf_structure(),
                self.rank@ == rank,
                self.bound@ == bound,
                self.root == old(self).root,
                self.same_ids(old(self)),
                self.removed@ == old(self).removed@,
                self.nodes().dom() == m0.dom(),
                parent_map(self.nodes()) == pm,
                pm == parent_map(m0),
                m0 == old(self).nodes(),
                rank == old(self).rank@,
                bound == old(self).bound@,
                rank_ok(pm, rank, bound),
                links_ok(m0),
                m0.contains_key(x),
                children@ == m0[x].children@,
                shadow == m0[x].shadow_root_id,
                i <= children@.len(),
                forall|y: usize|
                    #[trigger] m0.contains_key(y) ==> same_but_flag(self.nodes()[y], m0[y])
                        && self.nodes()[y].in_document == if y == x || (shadow is Some && reaches(
                        pm,
                        rank,
                        y,
                        shadow->0,
                    )) || exists|j: int| 0 <= j < i && reaches(pm, rank, y, #[trigger] children@[j]) {
                        flag
                    } else {
                        m0[y].in_document
                    },
            decreases children@.len() - i,
        {
            let c = children[i];
            proof {
                reveal(children_link_ok);
                assert(m0[x].children@[i as int] == c);
                assert(m0.contains_key(c) && m0[c].parent == Some(x));
                assert(pm[c] == Some(x));
                assert(pm.contains_key(c));
                assert(pm.contains_key(x));
                assert(rank[x] < rank[c] && rank[c] < bound);
            }
            let ghost before = self.nodes();
            self.set_in_document_subtree(c, flag);
            proof {
                assert forall|y: usize|
                    #[trigger] m0.contains_key(y) implies same_but_flag(self.nodes()[y], m0[y])
                        && self.nodes()[y].in_document == if y == x || (shadow is Some && reaches(
                        pm,
                        rank,
                        y,
                        shadow->0,
                    )) || exists|j: int| 0 <= j < i + 1 && reaches(pm, rank, y, #[trigger] children@[j]) {
                        flag
                    } else {
                        m0[y].in_document
                    } by {
                    if reaches(pm, rank, y, c) {
                        assert(reaches(pm, rank, y, children@[i as int]));
                    } else {
                        if exists|j: int| 0 <= j < i + 1 && reaches(pm, rank, y, #[trigger] children@[j]) {
                            let j = choose|j: int| 0 <= j < i + 1 && reaches(pm, rank, y, #[trigger] children@[j]);
                            assert(j < i);
                        }
                    }
                }
            }
            i = i + 1;
        }
        proof {
            assert forall|y: usize|
                #[trigger] m0.contains_key(y) implies (y == x || (shadow is Some && reaches(
                pm,
                rank,
                y,
                shadow->0,
            )) || exists|j: int| 0 <= j < children@.len() && reaches(pm, rank, y, #[trigger] children@[j]))
                == reaches(pm, rank, y, x) by {
                if y != x && reaches(pm, rank, y, x) {
                    lemma_reaches_child(m0, rank, bound, x, y);
                }
                assert(reaches(pm, rank, x, x));
                if shadow is Some && reaches(pm, rank, y, shadow->0) {
                    reveal(shadow_link_ok);
                    lemma_reaches_from_child(m0, rank, bound, x, shadow->0, y);
                }
                if exists|j: int| 0 <= j < children@.len() && reaches(pm, rank, y, #[trigger] children@[j]) {
                    let j = choose|j: int| 0 <= j < children@.len() && reaches(pm, rank, y, #[trigger] children@[j]);
                    reveal(children_link_ok);
                    assert(m0[x].children@[j] == children@[j]);
                    lemma_reaches_from_child(m0, rank, bound, x, children@[j], y);
                }
            }
        }
    }
}

} // verus!

verus! {

/// The dirty-descendants flag of every node.
pub open spec fn dirty_map(m: Map<usize, DomNode>) -> Map<usize, bool> {
    m.map_values(|n: DomNode| n.dirty_descendants)
}

/// Walking up the parent links from `p`, setting dirty flags and stopping
/// after the first node that was already dirty, reaches `y`.
pub open spec fn marks_up(pm: Map<usize, Option<usize>>, dm: Map<usize, bool>, rank: Map<usize, nat>, p: usize, y: usize) -> bool
    decreases rank[p],
    when (forall|n: usize|
        #[trigger] pm.contains_key(n) ==> rank.contains_key(n) && (pm[n] is Some ==> pm.contains_key(pm[n]->0) && rank[pm[n]->0] < rank[n]))
{
    p == y || (pm.contains_key(p) && !dm[p] && pm[p] is Some && marks_up(pm, dm, rank, pm[p]->0, y))
}

pub proof fn lemma_marks_up_reaches(pm: Map<usize, Option<usize>>, dm: Map<usize, bool>, rank: Map<usize, nat>, bound: nat, p: usize, y: usize)
    requires
        rank_ok(pm, rank, bound),
        marks_up(pm, dm, rank, p, y),
    ensures
        reaches(pm, rank, p, y),
    decreases rank[p],
{
    if p != y {
        lemma_marks_up_reaches(pm, dm, rank, bound, pm[p]->0, y);
    }
}

/// The nodes `mark_dirty_and_ancestors(x)` sets dirty: `x`, then its
/// ancestors up to and including the first one that was already dirty.
pub open spec fn dirty_marked(m: Map<usize, DomNode>, rank: Map<usize, nat>, x: usize, y: usize) -> bool {
    y == x || (m[x].parent is Some && marks_up(parent_map(m), dirty_map(m), rank, m[x].parent->0, y))
}

impl Document {
    /// Sets the dirty flag of `x`, then of its ancestors, stopping after the
    /// first ancestor that was already dirty.
    fn mark_dirty_and_ancestors(&mut self, x: usize)
        requires
            old(self).wf_structure(),
            old(self).nodes().contains_key(x),
        ensures
            final(self).wf_structure(),
            final(self).same_frame(old(self)),
            parent_map(final(self).nodes()) == parent_map(old(self).nodes()),
            forall|y: usize|
                #[trigger] old(self).nodes().contains_key(y) ==> {
                    &&& same_payload(final(self).nodes()[y], old(self).nodes()[y])
                    &&& final(self).nodes()[y].parent == old(self).nodes()[y].parent
                    &&& final(self).nodes()[y].children == old(self).nodes()[y].children
                    &&& final(self).nodes()[y].in_document == old(self).nodes()[y].in_document
                    &&& final(self).nodes()[y].dirty_descendants == (old(self).nodes()[y].dirty_descendants
                        || dirty_marked(old(self).nodes(), old(self).rank@, x, y))
                },
    {
        let ghost m0 = self.nodes();
        let ghost pm = parent_map(m0);
        let ghost dm = dirty_map(m0);
        let ghost rank = self.rank@;
        let ghost bound = self.bound@;
        let node = arena_get_mut(&mut self.nodes, x);
        node.dirty_descendants = true;
        let start = node.parent;
        proof {
            let m1 = self.nodes();
            assert(m1.dom() =~= m0.dom());
            assert forall|y: usize| #[trigger] m0.contains_key(y) implies same_links(m0[y], m1[y]) by {}
            lemma_links_frame(m0, m1);
            assert(pm.contains_key(x));
            assert(start == pm[x]);
            if start is Some {
                assert forall|y: usize|
                    #[trigger] marks_up(pm, dm, rank, start->0, y) == (marks_up(pm, dm, rank, start->0, y)
                        && reaches(pm, rank, start->0, y)) by {
                    if marks_up(pm, dm, rank, start->0, y) {
                        lemma_marks_up_reaches(pm, dm, rank, bound, start->0, y);
                    }
                }
                assert(marks_up(pm, dm, rank, start->0, start->0));
            }
        }
        let mut cur = start;
        loop
            invariant_except_break
                cur is Some ==> pm.contains_key(cur->0),
                cur is Some ==> start is Some && marks_up(pm, dm, rank, start->0, cur->0),
                cur is Some ==> forall|y: usize|
                    #[trigger] marks_up(pm, dm, rank, cur->0, y) == (marks_up(pm, dm, rank, start->0, y)
                        && reaches(pm, rank, cur->0, y)),
                forall|y: usize|
                    #[trigger] m0.contains_key(y) ==> {
                        &&& same_payload(self.nodes()[y], m0[y])
                        &&& self.nodes()[y].parent == m0[y].parent
                        &&& self.nodes()[y].children == m0[y].children
                        &&& self.nodes()[y].in_document == m0[y].in_document
                        &&& self.nodes()[y].dirty_descendants == (m0[y].dirty_descendants || y == x || (
                        start is Some && marks_up(pm, dm, rank, start->0, y) && !(cur is Some
                            && reaches(pm, rank, cur->0, y))))
                    },
            invariant
                self.wf_structure(),
                self.rank@ == rank,
                self.bound@ == bound,
                self.root == old(self).root,
                self.same_ids(old(self)),
                self.removed@ == old(self).removed@,
                self.nodes().dom() == m0.dom(),
                parent_map(self.nodes()) == pm,
                pm == parent_map(m0),
                dm == dirty_map(m0),
                m0 == old(self).nodes(),
                rank == old(self).rank@,
                rank_ok(pm, rank, bound),
                m0.contains_key(x),
                start == m0[x].parent,
            ensures
                forall|y: usize|
                    #[trigger] m0.contains_key(y) ==> {
                        &&& same_payload(self.nodes()[y], m0[y])
                        &&& self.nodes()[y].parent == m0[y].parent
                        &&& self.nodes()[y].children == m0[y].children
                        &&& self.nodes()[y].in_document == m0[y].in_document
                        &&& self.nodes()[y].dirty_descendants == (m0[y].dirty_descendants || y == x || (
                        start is Some && marks_up(pm, dm, rank, start->0, y)))
                    },
            decreases (if cur is Some { rank[cur->0] + 1 } else { 0 }),
        {
            match cur {
                None => {
                    break ;
                },
                Some(p) => {
                    let ghost before = self.nodes();
                    let pnode = arena_get_mut(&mut self.nodes, p);
                    let was_dirty = pnode.dirty_descendants;
                    pnode.dirty_descendants = true;
                    let next = pnode.parent;
                    proof {
                        let m1 = self.nodes();
                        assert(m1.dom() =~= before.dom());
                        assert forall|y: usize| #[trigger] before.contains_key(y) implies same_links(before[y], m1[y]) by {}
                        lemma_links_frame(before, m1);
                        assert(m0.contains_key(p));
                        assert(dm[p] == m0[p].dirty_descendants);
                        assert(next == pm[p]);
                        assert(reaches(pm, rank, p, p));
                        assert(p != x) by {
                            lemma_marks_up_reaches(pm, dm, rank, bound, start->0, p);
                            lemma_reaches_rank(pm, rank, bound, start->0, p);
                            assert(pm[x] == start);
                        }
                        assert(was_dirty == m0[p].dirty_descendants);
                        if was_dirty {
                            assert forall|y: usize| #[trigger] marks_up(pm, dm, rank, p, y) implies y == p by {}
                        }
                    }
                    if was_dirty {
                        proof {
                            assert forall|y: usize| #[trigger] m0.contains_key(y) implies
                                self.nodes()[y].dirty_descendants == (m0[y].dirty_descendants || y == x
                                    || (start is Some && marks_up(pm, dm, rank, start->0, y))) by {
                                if start is Some && marks_up(pm, dm, rank, start->0, y) && reaches(pm, rank, p, y) {
                                    assert(marks_up(pm, dm, rank, p, y));
                                }
                            }
                        }
                        break ;
                    }
                    proof {
                        if next is Some {
                            let q = next->0;
                            assert(pm.contains_key(q));
                            assert forall|y: usize|
                                #[trigger] marks_up(pm, dm, rank, q, y) == (marks_up(pm, dm, rank, start->0, y)
                                    && reaches(pm, rank, q, y)) by {
                                if marks_up(pm, dm, rank, q, y) {
                                    lemma_marks_up_reaches(pm, dm, rank, bound, q, y);
                                    assert(marks_up(pm, dm, rank, p, y));
                                }
                                if marks_up(pm, dm, rank, start->0, y) && reaches(pm, rank, q, y) {
                                    assert(reaches(pm, rank, p, y));
                                    assert(marks_up(pm, dm, rank, p, y));
                                    lemma_reaches_rank(pm, rank, bound, q, y);
                                }
                            }
                            assert(marks_up(pm, dm, rank, q, q));
                        }
                        assert forall|y: usize| #[trigger] m0.contains_key(y) implies {
                            self.nodes()[y].dirty_descendants == (m0[y].dirty_descendants || y == x || (
                            start is Some && marks_up(pm, dm, rank, start->0, y) && !(next is Some
                                && reaches(pm, rank, next->0, y))))
                        } by {
                            if y == p {
                                assert(marks_up(pm, dm, rank, p, p));
                                if next is Some && reaches(pm, rank, next->0, p) {
                                    lemma_reaches_rank(pm, rank, bound, next->0, p);
                                }
                            } else {
                                if start is Some && marks_up(pm, dm, rank, start->0, y) && reaches(pm, rank, p, y) {
                                    assert(marks_up(pm, dm, rank, p, y));
                                }
                            }
                        }
                    }
                    cur = next;
                },
            }
        }
    }
}

} // verus!

verus! {

/// Ranks after hanging the parentless `c` below `p`: the subtree of `c`
/// moves down by `rank[p] + 1`.
pub open spec fn attach_rank(pm: Map<usize, Option<usize>>, rank: Map<usize, nat>, c: usize, p: usize) -> Map<usize, nat> {
    Map::new(
        |x: usize| rank.contains_key(x),
        |x: usize|
            if reaches(pm, rank, x, c) {
                rank[x] + rank[p] + 1
            } else {
                rank[x]
            },
    )
}

/// Hanging the parentless `c` below `p` (not a descendant of `c`) keeps the
/// links acyclic; the new ancestors of `c`'s subtree are `p`'s.
pub proof fn lemma_attach(pm: Map<usize, Option<usize>>, rank: Map<usize, nat>, bound: nat, c: usize, p: usize)
    requires
        rank_ok(pm, rank, bound),
        pm.contains_key(c),
        pm[c] is None,
        pm.contains_key(p),
        !reaches(pm, rank, p, c),
    ensures
        rank_ok(pm.insert(c, Some(p)), attach_rank(pm, rank, c, p), bound + rank[p] + 1),
        forall|x: usize, a: usize|
            #[trigger] reaches(pm.insert(c, Some(p)), attach_rank(pm, rank, c, p), x, a) == (reaches(pm, rank, x, a)
                || (reaches(pm, rank, x, c) && reaches(pm, rank, p, a))),
{
    let pm2 = pm.insert(c, Some(p));
    let rank2 = attach_rank(pm, rank, c, p);
    assert(reaches(pm, rank, c, c));
    assert forall|n: usize| #[trigger] pm2.contains_key(n) implies rank2.contains_key(n) && rank2[n] < bound
        + rank[p] + 1 && (pm2[n] is Some ==> pm2.contains_key(pm2[n]->0) && rank2[pm2[n]->0] < rank2[n]) by {
        assert(pm.contains_key(n));
        if n != c && pm[n] is Some {
            let q = pm[n]->0;
            assert(pm.contains_key(q));
            if reaches(pm, rank, q, c) {
                assert(reaches(pm, rank, n, c));
            }
        }
    }
    assert forall|x: usize, a: usize|
        #[trigger] reaches(pm2, rank2, x, a) == (reaches(pm, rank, x, a) || (reaches(pm, rank, x, c) && reaches(pm, rank, p, a))) by {
        lemma_attach_reaches(pm, rank, bound, c, p, x, a);
    }
}

proof fn lemma_attach_reaches(pm: Map<usize, Option<usize>>, rank: Map<usize, nat>, bound: nat, c: usize, p: usize, x: usize, a: usize)
    requires
        rank_ok(pm, rank, bound),
        rank_ok(pm.insert(c, Some(p)), attach_rank(pm, rank, c, p), bound + rank[p] + 1),
        pm.contains_key(c),
        pm[c] is None,
        pm.contains_key(p),
        !reaches(pm, rank, p, c),
    ensures
        reaches(pm.insert(c, Some(p)), attach_rank(pm, rank, c, p), x, a) == (reaches(pm, rank, x, a)
            || (reaches(pm, rank, x, c) && reaches(pm, rank, p, a))),
    decreases attach_rank(pm, rank, c, p)[x],
{
    let pm2 = pm.insert(c, Some(p));
    let rank2 = attach_rank(pm, rank, c, p);
    if x == c {
        assert(pm2[c] == Some(p));
        assert(pm2.contains_key(c));
        lemma_attach_reaches(pm, rank, bound, c, p, p, a);
        assert(reaches(pm, rank, c, c));
        if reaches(pm, rank, p, c) {
        }
    } else if pm.contains_key(x) && pm[x] is Some {
        let q = pm[x]->0;
        assert(pm2[x] == Some(q));
        assert(pm2.contains_key(x));
        lemma_attach_reaches(pm, rank, bound, c, p, q, a);
    } else {
        if pm.contains_key(x) {
            assert(pm2[x] is None);
        }
    }
}

} // verus!

verus! {

/// Position of the first `x` in `v`.
pub fn position_of(v: &Vec<usize>, x: usize) -> (r: Option<usize>)
    ensures
        match r {
            Some(i) => i < v@.len() && v@[i as int] == x && forall|j: int| 0 <= j < i ==> v@[j] != x,
            None => !v@.contains(x),
        },
{
    let mut i: usize = 0;
    while i < v.len()
        invariant
            i <= v@.len(),
            forall|j: int| 0 <= j < i ==> v@[j] != x,
        decreases v@.len() - i,
    {
        if v[i] == x {
            return Some(i);
        }
        i = i + 1;
    }
    None
}

/// `n` is the shadow root of its parent.
pub open spec fn is_shadow_child(m: Map<usize, DomNode>, n: usize) -> bool {
    &&& m.contains_key(n)
    &&& m[n].parent is Some
    &&& m.contains_key(m[n].parent->0)
    &&& m[m[n].parent->0].shadow_root_id == Some(n)
}

/// `s` without its (single) occurrence of `v`.
pub open spec fn without(s: Seq<usize>, v: usize) -> Seq<usize> {
    if s.contains(v) {
        s.remove(s.index_of(v))
    } else {
        s
    }
}

/// Cutting the parent link of `n` leaves ancestry unchanged except that the
/// subtree of `n` loses the ancestors above `n`.
pub proof fn lemma_detach_reaches(pm: Map<usize, Option<usize>>, rank: Map<usize, nat>, bound: nat, n: usize, x: usize, a: usize)
    requires
        rank_ok(pm, rank, bound),
        pm.contains_key(n),
    ensures
        rank_ok(pm.insert(n, None), rank, bound),
        reaches(pm.insert(n, None), rank, x, a) == (reaches(pm, rank, x, a) && (reaches(pm, rank, x, n)
            ==> reaches(pm, rank, a, n))),
    decreases rank[x],
{
    let pm2 = pm.insert(n, None);
    assert(rank_ok(pm2, rank, bound));
    if x == a {
        if reaches(pm, rank, x, n) {
        }
    } else if x == n {
        assert(pm2[n] is None);
        if reaches(pm, rank, a, n) {
            lemma_reaches_rank(pm, rank, bound, a, n);
            if reaches(pm, rank, x, a) {
                lemma_reaches_rank(pm, rank, bound, x, a);
            }
        }
    } else if pm.contains_key(x) && pm[x] is Some {
        lemma_detach_reaches(pm, rank, bound, n, pm[x]->0, a);
    }
}

/// Walking up from `x` never meets `n` when `n` is not an ancestor of `x`, so
/// cutting the parent link of `n` does not change the walk.
pub proof fn lemma_marks_up_detach(pm: Map<usize, Option<usize>>, dm: Map<usize, bool>, rank: Map<usize, nat>, bound: nat, n: usize, x: usize, y: usize)
    requires
        rank_ok(pm, rank, bound),
        pm.contains_key(n),
        !reaches(pm, rank, x, n),
    ensures
        marks_up(pm.insert(n, None), dm, rank, x, y) == marks_up(pm, dm, rank, x, y),
    decreases rank[x],
{
    let pm2 = pm.insert(n, None);
    assert(rank_ok(pm2, rank, bound));
    if x != y && pm.contains_key(x) && pm[x] is Some {
        lemma_marks_up_detach(pm, dm, rank, bound, n, pm[x]->0, y);
    }
}

/// Facts about node `y` after cutting `n` from its parent `p`, where `n` sat
/// at position `pos` among `p`'s children.
pub open spec fn detach_shape_at(m0: Map<usize, DomNode>, m2: Map<usize, DomNode>, n: usize, p: usize, pos: int, y: usize) -> bool {
    &&& m2.contains_key(y)
    &&& m2[y].id == m0[y].id
    &&& m2[y].shadow_root_id == m0[y].shadow_root_id
    &&& m2[y].parent == if y == n { None } else { m0[y].parent }
    &&& m2[y].children@ == if y == p { m0[p].children@.remove(pos) } else { m0[y].children@ }
}

proof fn lemma_without_at(s: Seq<usize>, v: usize, pos: int)
    requires
        0 <= pos < s.len(),
        s[pos] == v,
        s.no_duplicates(),
    ensures
        without(s, v) == s.remove(pos),
{
    assert(s.contains(v));
    let idx = s.index_of(v);
    assert(s[idx] == v);
}

proof fn lemma_detach_links(m0: Map<usize, DomNode>, m2: Map<usize, DomNode>, n: usize, p: usize, pos: int)
    requires
        links_ok(m0),
        m0.contains_key(n),
        m0[n].parent == Some(p),
        !is_shadow_child(m0, n),
        0 <= pos < m0[p].children@.len(),
        m0[p].children@[pos] == n,
        m2.dom() == m0.dom(),
        forall|y: usize| #[trigger] m0.contains_key(y) ==> detach_shape_at(m0, m2, n, p, pos, y),
    ensures
        links_ok(m2),
{
    reveal(children_link_ok);
    reveal(ids_ok);
    reveal(parent_link_ok);
    reveal(shadow_link_ok);
    assert(m0.contains_key(p));
    assert(detach_shape_at(m0, m2, n, p, pos, p));
    assert(m0[p].children@.no_duplicates());
    assert forall|q: usize, i: int|
        #![trigger m2[q].children@[i]]
        m2.contains_key(q) && 0 <= i < m2[q].children@.len() implies m2.contains_key(m2[q].children@[i])
            && m2[m2[q].children@[i]].parent == Some(q) by {
        assert(detach_shape_at(m0, m2, n, p, pos, q));
        if q == p {
            let j = if i < pos { i } else { i + 1 };
            assert(m2[q].children@[i] == m0[p].children@[j]);
            assert(m0[p].children@[j] != n);
            assert(detach_shape_at(m0, m2, n, p, pos, m0[p].children@[j]));
        } else {
            assert(m2[q].children@[i] == m0[q].children@[i]);
            let c = m0[q].children@[i];
            assert(m0.contains_key(c));
            assert(detach_shape_at(m0, m2, n, p, pos, c));
            if c == n {
                assert(m0[c].parent == Some(q));
            }
        }
    }
    assert forall|q: usize| #[trigger] m2.contains_key(q) implies m2[q].children@.no_duplicates() && m2[q].id == q by {
        assert(detach_shape_at(m0, m2, n, p, pos, q));
        if q == p {
            assert forall|i: int, j: int| 0 <= i < m2[q].children@.len() && 0 <= j < m2[q].children@.len() && i != j
                implies m2[q].children@[i] != m2[q].children@[j] by {
                let i2 = if i < pos { i } else { i + 1 };
                let j2 = if j < pos { j } else { j + 1 };
                assert(m2[q].children@[i] == m0[p].children@[i2]);
                assert(m2[q].children@[j] == m0[p].children@[j2]);
            }
        }
    }
    assert forall|y: usize|
        #[trigger] m2.contains_key(y) && m2[y].parent is Some implies m2.contains_key(m2[y].parent->0) && (
        m2[m2[y].parent->0].children@.contains(y) || m2[m2[y].parent->0].shadow_root_id == Some(y)) by {
        assert(detach_shape_at(m0, m2, n, p, pos, y));
        assert(y != n);
        let q = m0[y].parent->0;
        assert(m0.contains_key(q));
        assert(detach_shape_at(m0, m2, n, p, pos, q));
        if q == p && m0[p].children@.contains(y) {
            let k = choose|k: int| 0 <= k < m0[p].children@.len() && m0[p].children@[k] == y;
            assert(k != pos);
            let k2 = if k < pos { k } else { k - 1 };
            assert(m2[p].children@[k2] == y);
        }
    }
    assert forall|h: usize|
        #[trigger] m2.contains_key(h) && m2[h].shadow_root_id is Some implies m2.contains_key(
            m2[h].shadow_root_id->0,
        ) && m2[m2[h].shadow_root_id->0].parent == Some(h) && !m2[h].children@.contains(
            m2[h].shadow_root_id->0,
        ) by {
        assert(detach_shape_at(m0, m2, n, p, pos, h));
        let sr = m0[h].shadow_root_id->0;
        assert(m0.contains_key(sr));
        assert(detach_shape_at(m0, m2, n, p, pos, sr));
        if sr == n {
            assert(is_shadow_child(m0, n));
        }
        if m2[h].children@.contains(sr) {
            let k = choose|k: int| 0 <= k < m2[h].children@.len() && m2[h].children@[k] == sr;
            if h == p {
                let k2 = if k < pos { k } else { k + 1 };
                assert(m0[p].children@[k2] == sr);
            } else {
                assert(m0[h].children@[k] == sr);
            }
        }
    }
}

/// The dirty walk from `p` is the same before and after cutting its child `n`.
proof fn lemma_detach_dirty(m0: Map<usize, DomNode>, m2: Map<usize, DomNode>, rank: Map<usize, nat>, bound: nat, n: usize, p: usize)
    requires
        rank_ok(parent_map(m0), rank, bound),
        m0.contains_key(n),
        m0[n].parent == Some(p),
        m2.dom() == m0.dom(),
        parent_map(m2) == parent_map(m0).insert(n, None),
        dirty_map(m2) == dirty_map(m0),
        m2[p].parent == m0[p].parent,
    ensures
        forall|y: usize| #[trigger] dirty_marked(m2, rank, p, y) == dirty_marked(m0, rank, p, y),
{
    let pm0 = parent_map(m0);
    let dm0 = dirty_map(m0);
    assert(pm0.contains_key(n));
    assert(pm0[n] == Some(p));
    assert(pm0.contains_key(p));
    assert forall|y: usize| #[trigger] dirty_marked(m2, rank, p, y) == dirty_marked(m0, rank, p, y) by {
        if m0[p].parent is Some {
            let pp = m0[p].parent->0;
            assert(pm0.contains_key(p));
            assert(pm0[p] == Some(pp));
            if reaches(pm0, rank, pp, n) {
                assert(pm0[n] == Some(p));
                assert(reaches(pm0, rank, p, p));
                assert(reaches(pm0, rank, n, p));
                lemma_reaches_trans(pm0, rank, bound, pp, n, p);
                lemma_reaches_rank(pm0, rank, bound, pp, p);
            }
            lemma_marks_up_detach(pm0, dm0, rank, bound, n, pp, y);
        }
    }
}

/// Clearing the flag of `n`'s subtree and cutting `n` keeps the flags law.
proof fn lemma_detach_flags(m0: Map<usize, DomNode>, m1: Map<usize, DomNode>, m3: Map<usize, DomNode>, rank: Map<usize, nat>, bound: nat, n: usize, root: usize)
    requires
        rank_ok(parent_map(m0), rank, bound),
        parent_link_ok(m0),
        flags_ok(m0, root),
        m0.contains_key(n),
        m3.dom() == m0.dom(),
        parent_map(m3) == parent_map(m0).insert(n, None),
        forall|y: usize|
            #[trigger] m0.contains_key(y) ==> m3[y].in_document == (m0[y].in_document && !reaches(parent_map(m0), rank, y, n)),
    ensures
        flags_ok(m3, root),
{
    let pm0 = parent_map(m0);
    reveal(parent_link_ok);
    assert forall|y: usize| #[trigger] m3.contains_key(y) && y != root implies (m3[y].in_document
        == (m3[y].parent is Some && m3[m3[y].parent->0].in_document)) by {
        assert(m0.contains_key(y));
        assert(parent_map(m3)[y] == m3[y].parent);
        if y != n && m0[y].parent is Some {
            let q = m0[y].parent->0;
            assert(pm0[y] == Some(q));
            assert(m0.contains_key(q));
            assert(m3[y].parent == Some(q));
            if reaches(pm0, rank, q, n) {
                assert(reaches(pm0, rank, y, n));
            }
            if reaches(pm0, rank, y, n) {
                assert(reaches(pm0, rank, q, n));
            }
        }
        if y == n {
            assert(reaches(pm0, rank, n, n));
        }
    }
}

/// After cutting `n` (at position `pos`) from its parent `p`, the links are
/// well formed and still acyclic under the same ranks.
proof fn lemma_detach_links_and_rank(m0: Map<usize, DomNode>, m2: Map<usize, DomNode>, rank: Map<usize, nat>, bound: nat, n: usize, p: usize, pos: int)
    requires
        links_ok(m0),
        rank_ok(parent_map(m0), rank, bound),
        m0.contains_key(n),
        m0[n].parent == Some(p),
        !is_shadow_child(m0, n),
        0 <= pos < m0[p].children@.len(),
        m0[p].children@[pos] == n,
        m2.dom() == m0.dom(),
        forall|y: usize| #[trigger] m0.contains_key(y) ==> detach_shape_at(m0, m2, n, p, pos, y),
    ensures
        links_ok(m2),
        parent_map(m2) == parent_map(m0).insert(n, None),
        rank_ok(parent_map(m2), rank, bound),
{
    lemma_detach_links(m0, m2, n, p, pos);
    assert forall|y: usize| #[trigger] m0.contains_key(y) implies m2[y].parent == if y == n { None } else { m0[y].parent } by {
        assert(detach_shape_at(m0, m2, n, p, pos, y));
    }
    assert(parent_map(m2) =~= parent_map(m0).insert(n, None));
    lemma_detach_reaches(parent_map(m0), rank, bound, n, p, p);
}

impl Document {
    /// The facts `detach_node` establishes, from the states it passes through.
    proof fn lemma_detach_post(d0: Document, m1: Map<usize, DomNode>, m2: Map<usize, DomNode>, d3: Document, n: usize, p: usize, pos: int)
        requires
            d0.wf(),
            !is_shadow_child(d0.nodes(), n),
            d0.nodes().contains_key(n),
            d0.nodes()[n].parent == Some(p),
            0 <= pos < d0.nodes()[p].children@.len(),
            d0.nodes()[p].children@[pos] == n,
            m1.dom() == d0.nodes().dom(),
            forall|y: usize|
                #[trigger] d0.nodes().contains_key(y) ==> m1[y].in_document == if reaches(
                    parent_map(d0.nodes()),
                    d0.rank@,
                    y,
                    n,
                ) {
                    false
                } else {
                    d0.nodes()[y].in_document
                },
            m2.dom() == d0.nodes().dom(),
            forall|y: usize| #[trigger] d0.nodes().contains_key(y) ==> {
                &&& detach_shape_at(d0.nodes(), m2, n, p, pos, y)
                &&& same_payload(m2[y], d0.nodes()[y])
                &&& m2[y].in_document == m1[y].in_document
                &&& m2[y].dirty_descendants == d0.nodes()[y].dirty_descendants
            },
            links_ok(m2),
            parent_map(m2) == parent_map(d0.nodes()).insert(n, None),
            rank_ok(parent_map(m2), d0.rank@, d0.bound@),
            d3.wf_structure(),
            d3.rank@ == d0.rank@,
            d3.bound@ == d0.bound@,
            d3.root == d0.root,
            d3.nodes().dom() == d0.nodes().dom(),
            parent_map(d3.nodes()) == parent_map(m2),
            forall|y: usize|
                #[trigger] m2.contains_key(y) ==> {
                    &&& same_payload(d3.nodes()[y], m2[y])
                    &&& d3.nodes()[y].parent == m2[y].parent
                    &&& d3.nodes()[y].children == m2[y].children
                    &&& d3.nodes()[y].in_document == m2[y].in_document
                    &&& d3.nodes()[y].dirty_descendants == (m2[y].dirty_descendants
                        || dirty_marked(m2, d0.rank@, p, y))
                },
        ensures
            d3.wf(),
            d3.detached_from(&d0, n),
    {
        let m0 = d0.nodes();
        let m3 = d3.nodes();
        let pm0 = parent_map(m0);
        let rank = d0.rank@;
        let bound = d0.bound@;
        assert(pm0.contains_key(n) && pm0[n] == Some(p));
        assert(p != n);
        assert(m0.contains_key(p));
        assert(detach_shape_at(m0, m2, n, p, pos, p));
        assert(m2[p].parent == m0[p].parent);
        assert forall|y: usize| #[trigger] m0.contains_key(y) implies m2[y].dirty_descendants == m0[y].dirty_descendants by {}
        assert(dirty_map(m2) =~= dirty_map(m0));
        lemma_detach_dirty(m0, m2, rank, bound, n, p);
        reveal(parent_link_ok);
        assert forall|y: usize| #[trigger] m0.contains_key(y) implies m3[y].in_document == (m0[y].in_document
            && !reaches(pm0, rank, y, n)) by {}
        lemma_detach_flags(m0, m1, m3, rank, bound, n, d0.root);
        assert forall|a: usize, x: usize|
            #[trigger] d3.is_inclusive_ancestor(a, x) == (d0.is_inclusive_ancestor(a, x) && (
                d0.is_inclusive_ancestor(n, x) ==> d0.is_inclusive_ancestor(n, a))) by {
            lemma_detach_reaches(pm0, rank, bound, n, x, a);
        }
        reveal(ids_ok);
        lemma_without_at(m0[p].children@, n, pos);
        assert forall|y: usize| #[trigger] m0.contains_key(y) implies {
            &&& same_payload(m3[y], m0[y])
            &&& m3[y].parent == if y == n { None } else { m0[y].parent }
            &&& m3[y].children@ == if y == p { without(m0[p].children@, n) } else { m0[y].children@ }
            &&& m3[y].in_document == (m0[y].in_document && !d0.is_inclusive_ancestor(n, y))
            &&& m3[y].dirty_descendants == (m0[y].dirty_descendants || dirty_marked(m0, rank, p, y))
        } by {
            assert(detach_shape_at(m0, m2, n, p, pos, y));
        }
    }

    /// Detaches `node_id` from its parent (if any) and clears the connected
    /// flag of its subtree. The node stays in the arena.
    #[verifier::rlimit(50)]
    #[verifier::spinoff_prover]
    fn detach_child(&mut self, node_id: usize)
        requires
            old(self).wf(),
            !is_shadow_child(old(self).nodes(), node_id),
        ensures
            final(self).wf(),
            final(self).root_id() == old(self).root_id(),
            final(self).same_ids(old(self)),
            final(self).removed_ids() == old(self).removed_ids(),
            final(self).nodes().dom() == old(self).nodes().dom(),
            !old(self).nodes().contains_key(node_id) || old(self).nodes()[node_id].parent is None
                ==> *final(self) == *old(self),
            old(self).nodes().contains_key(node_id) && old(self).nodes()[node_id].parent is Some
                ==> final(self).detached_from(old(self), node_id),
    {
        let parent_id = match arena_get(&self.nodes, node_id) {
            Some(n) => n.parent,
            None => None,
        };
        if let Some(p) = parent_id {
            let ghost m0 = self.nodes();
            let ghost pm0 = parent_map(m0);
            let ghost rank = self.rank@;
            let ghost bound = self.bound@;
            proof {
                reveal(parent_link_ok);
                assert(m0.contains_key(p));
                assert(m0[p].children@.contains(node_id));
            }
            self.set_in_document_subtree(node_id, false);
            let ghost m1 = self.nodes();
            let child = arena_get_mut(&mut self.nodes, node_id);
            child.parent = None;
            let pn = arena_get_mut(&mut self.nodes, p);
            let pos = position_of(&pn.children, node_id);
            if let Some(pos) = pos {
                pn.children.remove(pos);
                let ghost m2 = self.nodes();
                proof {
                    assert(m2.dom() =~= m0.dom());
                    assert forall|y: usize| #[trigger] m0.contains_key(y) implies {
                        &&& detach_shape_at(m0, m2, node_id, p, pos as int, y)
                        &&& same_payload(m2[y], m0[y])
                        &&& m2[y].in_document == m1[y].in_document
                        &&& m2[y].dirty_descendants == m0[y].dirty_descendants
                    } by {
                        assert(same_but_flag(m1[y], m0[y]));
                    }
                    lemma_detach_links_and_rank(m0, m2, rank, bound, node_id, p, pos as int);
                }
                self.mark_dirty_and_ancestors(p);
                proof {
                    Document::lemma_detach_post(*old(self), m1, m2, *self, node_id, p, pos as int);
                }
            } else {
                proof {
                    assert(m1[p].children@ == m0[p].children@);
                }
            }
        }
    }

    /// `self` is `old` with `n` cut from its parent: the link is gone, the
    /// subtree of `n` is no longer connected, and the old parent and its
    /// ancestors are marked dirty.
    pub open spec fn detached_from(&self, old: &Document, n: usize) -> bool {
        let m0 = old.nodes();
        let m = self.nodes();
        let p = m0[n].parent->0;
        &&& forall|y: usize|
            #[trigger] m0.contains_key(y) ==> {
                &&& same_payload(m[y], m0[y])
                &&& m[y].parent == if y == n { None } else { m0[y].parent }
                &&& m[y].children@ == if y == p { without(m0[p].children@, n) } else { m0[y].children@ }
                &&& m[y].in_document == (m0[y].in_document && !old.is_inclusive_ancestor(n, y))
                &&& m[y].dirty_descendants == (m0[y].dirty_descendants || dirty_marked(m0, old.ranks(), p, y))
            }
        &&& forall|a: usize, x: usize|
            #[trigger] self.is_inclusive_ancestor(a, x) == (old.is_inclusive_ancestor(a, x) && (
                old.is_inclusive_ancestor(n, x) ==> old.is_inclusive_ancestor(n, a)))
    }

}

} // verus!

verus! {

/// Facts about node `y` after hanging the parentless `c` below `p` at
/// position `pos` among its children.
pub open spec fn attach_shape_at(m0: Map<usize, DomNode>, m2: Map<usize, DomNode>, c: usize, p: usize, pos: int, y: usize) -> bool {
    &&& m2.contains_key(y)
    &&& m2[y].id == m0[y].id
    &&& m2[y].shadow_root_id == m0[y].shadow_root_id
    &&& m2[y].parent == if y == c { Some(p) } else { m0[y].parent }
    &&& m2[y].children@ == if y == p { m0[p].children@.insert(pos, c) } else { m0[y].children@ }
}

/// Hanging the parentless `c` below `p` at position `pos` keeps the links
/// well formed.
proof fn lemma_attach_links(m0: Map<usize, DomNode>, m2: Map<usize, DomNode>, c: usize, p: usize, pos: int)
    requires
        links_ok(m0),
        m0.contains_key(c),
        m0.contains_key(p),
        m0[c].parent is None,
        c != p,
        0 <= pos <= m0[p].children@.len(),
        m2.dom() == m0.dom(),
        forall|y: usize| #[trigger] m0.contains_key(y) ==> attach_shape_at(m0, m2, c, p, pos, y),
    ensures
        links_ok(m2),
        parent_map(m2) == parent_map(m0).insert(c, Some(p)),
{
    reveal(children_link_ok);
    reveal(ids_ok);
    reveal(parent_link_ok);
    reveal(shadow_link_ok);
    let k0 = m0[p].children@;
    assert(attach_shape_at(m0, m2, c, p, pos, p));
    assert(attach_shape_at(m0, m2, c, p, pos, c));
    assert(!k0.contains(c)) by {
        if k0.contains(c) {
            let k = choose|k: int| 0 <= k < k0.len() && k0[k] == c;
            assert(m0[k0[k]].parent == Some(p));
        }
    }
    let k2 = m2[p].children@;
    assert(k2 == k0.insert(pos, c));
    assert forall|i: int| 0 <= i < k2.len() implies #[trigger] k2[i] == if i < pos { k0[i] } else if i == pos { c } else { k0[i - 1] } by {}
    assert forall|q: usize, i: int|
        #![trigger m2[q].children@[i]]
        m2.contains_key(q) && 0 <= i < m2[q].children@.len() implies m2.contains_key(m2[q].children@[i])
            && m2[m2[q].children@[i]].parent == Some(q) by {
        assert(attach_shape_at(m0, m2, c, p, pos, q));
        if q == p && i == pos {
            assert(m2[q].children@[i] == c);
        } else {
            let j = if q == p && i > pos { i - 1 } else { i };
            assert(m2[q].children@[i] == m0[q].children@[j]);
            let d = m0[q].children@[j];
            assert(m0.contains_key(d));
            assert(attach_shape_at(m0, m2, c, p, pos, d));
            if d == c {
                assert(m0[d].parent == Some(q));
            }
        }
    }
    assert forall|q: usize| #[trigger] m2.contains_key(q) implies m2[q].children@.no_duplicates() && m2[q].id == q by {
        assert(attach_shape_at(m0, m2, c, p, pos, q));
        if q == p {
            assert forall|i: int, j: int| 0 <= i < k2.len() && 0 <= j < k2.len() && i != j
                implies k2[i] != k2[j] by {
                let i2 = if i < pos { i } else { i - 1 };
                let j2 = if j < pos { j } else { j - 1 };
                if i != pos {
                    assert(k2[i] == k0[i2]);
                }
                if j != pos {
                    assert(k2[j] == k0[j2]);
                }
            }
        }
    }
    assert forall|y: usize|
        #[trigger] m2.contains_key(y) && m2[y].parent is Some implies m2.contains_key(m2[y].parent->0) && (
        m2[m2[y].parent->0].children@.contains(y) || m2[m2[y].parent->0].shadow_root_id == Some(y)) by {
        assert(attach_shape_at(m0, m2, c, p, pos, y));
        if y == c {
            assert(k2[pos] == c);
        } else {
            let q = m0[y].parent->0;
            assert(m0.contains_key(q));
            assert(attach_shape_at(m0, m2, c, p, pos, q));
            if q == p && k0.contains(y) {
                let k = choose|k: int| 0 <= k < k0.len() && k0[k] == y;
                let k3 = if k < pos { k } else { k + 1 };
                assert(k2[k3] == y);
            }
        }
    }
    assert forall|h: usize|
        #[trigger] m2.contains_key(h) && m2[h].shadow_root_id is Some implies m2.contains_key(
            m2[h].shadow_root_id->0,
        ) && m2[m2[h].shadow_root_id->0].parent == Some(h) && !m2[h].children@.contains(
            m2[h].shadow_root_id->0,
        ) by {
        assert(attach_shape_at(m0, m2, c, p, pos, h));
        let sr = m0[h].shadow_root_id->0;
        assert(m0.contains_key(sr));
        assert(attach_shape_at(m0, m2, c, p, pos, sr));
        assert(sr != c);
        if m2[h].children@.contains(sr) {
            let k = choose|k: int| 0 <= k < m2[h].children@.len() && m2[h].children@[k] == sr;
            if h == p {
                if k != pos {
                    let k3 = if k < pos { k } else { k - 1 };
                    assert(k0[k3] == sr);
                }
            } else {
                assert(m0[h].children@[k] == sr);
            }
        }
    }
    assert forall|y: usize| #[trigger] m0.contains_key(y) implies m2[y].parent == if y == c { Some(p) } else { m0[y].parent } by {
        assert(attach_shape_at(m0, m2, c, p, pos, y));
    }
    assert(parent_map(m2) =~= parent_map(m0).insert(c, Some(p)));
}

} // verus!

verus! {

/// Two inclusive ancestors of a node are ordered by ancestry.
pub proof fn lemma_chain_linear(pm: Map<usize, Option<usize>>, rank: Map<usize, nat>, bound: nat, x: usize, a: usize, c: usize)
    requires
        rank_ok(pm, rank, bound),
        reaches(pm, rank, x, a),
        reaches(pm, rank, x, c),
    ensures
        reaches(pm, rank, a, c) || reaches(pm, rank, c, a),
    decreases rank[x],
{
    if x != a && x != c {
        lemma_chain_linear(pm, rank, bound, pm[x]->0, a, c);
    }
}

/// The dirty walk from a node that is not below `c` is unchanged by hanging
/// `c` somewhere.
pub proof fn lemma_marks_up_attach(pm: Map<usize, Option<usize>>, dm: Map<usize, bool>, rank: Map<usize, nat>, bound: nat, c: usize, p: usize, x: usize, y: usize)
    requires
        rank_ok(pm, rank, bound),
        rank_ok(pm.insert(c, Some(p)), attach_rank(pm, rank, c, p), bound + rank[p] + 1),
        pm.contains_key(c),
        !reaches(pm, rank, x, c),
    ensures
        marks_up(pm.insert(c, Some(p)), dm, attach_rank(pm, rank, c, p), x, y) == marks_up(pm, dm, rank, x, y),
    decreases rank[x],
{
    let pm2 = pm.insert(c, Some(p));
    if x != y && pm.contains_key(x) && pm[x] is Some {
        assert(x != c);
        assert(pm2[x] == pm[x]);
        lemma_marks_up_attach(pm, dm, rank, bound, c, p, pm[x]->0, y);
    }
}

impl Document {
    /// Whether `a` is `x` or one of its ancestors, walking up the parent links.
    pub fn is_ancestor_or_self(&self, a: usize, x: usize) -> (r: bool)
        requires
            self.wf(),
            self.nodes().contains_key(x),
        ensures
            r == self.is_inclusive_ancestor(a, x),
    {
        let ghost pm = parent_map(self.nodes());
        let ghost rank = self.rank@;
        let mut ancestor: Option<usize> = Some(x);
        loop
            invariant
                self.wf(),
                pm == parent_map(self.nodes()),
                rank == self.rank@,
                rank_ok(pm, rank, self.bound@),
                ancestor is Some ==> pm.contains_key(ancestor->0) && (reaches(pm, rank, x, a)
                    == reaches(pm, rank, ancestor->0, a)),
                ancestor is None ==> !reaches(pm, rank, x, a),
            decreases (if ancestor is Some { rank[ancestor->0] + 1 } else { 0 }),
        {
            match ancestor {
                None => {
                    return false;
                },
                Some(curr) => {
                    if curr == a {
                        return true;
                    }
                    ancestor = match arena_get(&self.nodes, curr) {
                        Some(n) => n.parent,
                        None => None,
                    };
                    proof {
                        assert(pm[curr] == self.nodes()[curr].parent);
                    }
                },
            }
        }
    }
}

} // verus!

verus! {

/// What `append_child` reports for the given ids, checking in order.
pub open spec fn append_check(d: Document, p: usize, c: usize) -> Result<(), DomError> {
    if !d.nodes().contains_key(p) {
        Err(DomError::InvalidParent)
    } else if !d.nodes().contains_key(c) {
        Err(DomError::InvalidChild)
    } else if d.is_inclusive_ancestor(c, p) {
        Err(DomError::CycleDetected)
    } else if d.nodes()[c].parent is Some && d.nodes()[c].parent != Some(p) {
        Err(DomError::ChildAlreadyHasParent)
    } else {
        Ok(())
    }
}

/// `c` is the shadow root of `p`: its parent link points at `p`, though it
/// is not one of `p`'s children.
pub open spec fn shadow_of(d: Document, p: usize, c: usize) -> bool {
    d.nodes().contains_key(p) && d.nodes()[p].shadow_root_id == Some(c)
}

proof fn lemma_without_absent(s: Seq<usize>, v: usize)
    requires
        !s.contains(v),
    ensures
        without(s, v) == s,
{
}

impl Document {
    /// `self` is `old` after moving `c` (with its subtree) below `p`, whose
    /// children become `kids`: the subtree's connected flag follows `p`, and
    /// `p` and its ancestors are marked dirty.
    pub open spec fn attached(&self, old: &Document, p: usize, c: usize, kids: Seq<usize>) -> bool {
        let m0 = old.nodes();
        let m = self.nodes();
        let was_child = m0[c].parent == Some(p);
        &&& m.dom() == m0.dom()
        &&& forall|y: usize|
            #[trigger] m0.contains_key(y) ==> {
                &&& same_payload(m[y], m0[y])
                &&& m[y].parent == if y == c { Some(p) } else { m0[y].parent }
                &&& m[y].children@ == if y == p { kids } else { m0[y].children@ }
                &&& m[y].in_document == if old.is_inclusive_ancestor(c, y) {
                    m0[p].in_document || (!was_child && m0[y].in_document)
                } else {
                    m0[y].in_document
                }
                &&& m[y].dirty_descendants == (m0[y].dirty_descendants || dirty_marked(m0, old.ranks(), p, y))
            }
        &&& forall|a: usize, x: usize|
            #[trigger] self.is_inclusive_ancestor(a, x) == ((old.is_inclusive_ancestor(a, x) && (
                old.is_inclusive_ancestor(c, x) ==> old.is_inclusive_ancestor(c, a))) || (
            old.is_inclusive_ancestor(c, x) && old.is_inclusive_ancestor(a, p)))
    }

    /// `self` is `old` after making `c` the last child of `p`.
    pub open spec fn appended(&self, old: &Document, p: usize, c: usize) -> bool {
        self.attached(old, p, c, without(old.nodes()[p].children@, c).push(c))
    }

    /// `self` is `old` after inserting `c` right before `r` among the children
    /// of `p`.
    pub open spec fn inserted_before(&self, old: &Document, p: usize, c: usize, r: usize) -> bool {
        let kids = without(old.nodes()[p].children@, c);
        self.attached(old, p, c, kids.insert(kids.index_of(r), c))
    }
}

} // verus!

verus! {

/// The states `append_child` and its kin pass through when hanging the
/// parentless `c` below `p` at position `pos`, starting from `dD`: the links
/// set (`m2`), the dirty marks made (`d3`), the connected flags spread (`d4`).
spec fn attach_steps(dD: Document, m2: Map<usize, DomNode>, d3: Document, d4: Document, p: usize, c: usize, pos: int) -> bool {
    &&& 0 <= pos <= dD.nodes()[p].children@.len()
    &&& m2.dom() == dD.nodes().dom()
    &&& forall|y: usize| #[trigger] dD.nodes().contains_key(y) ==> {
                    &&& attach_shape_at(dD.nodes(), m2, c, p, pos, y)
                    &&& same_payload(m2[y], dD.nodes()[y])
                    &&& m2[y].in_document == dD.nodes()[y].in_document
                    &&& m2[y].dirty_descendants == dD.nodes()[y].dirty_descendants
                }
    &&& d3.wf_structure()
    &&& d3.rank@ == attach_rank(parent_map(dD.nodes()), dD.rank@, c, p)
    &&& d3.bound@ == dD.bound@ + dD.rank@[p] + 1
    &&& d3.root == dD.root
    &&& d3.nodes().dom() == dD.nodes().dom()
    &&& parent_map(d3.nodes()) == parent_map(m2)
    &&& parent_map(m2) == parent_map(dD.nodes()).insert(c, Some(p))
    &&& forall|y: usize|
                    #[trigger] m2.contains_key(y) ==> {
                        &&& same_payload(d3.nodes()[y], m2[y])
                        &&& d3.nodes()[y].parent == m2[y].parent
                        &&& d3.nodes()[y].children == m2[y].children
                        &&& d3.nodes()[y].in_document == m2[y].in_document
                        &&& d3.nodes()[y].dirty_descendants == (m2[y].dirty_descendants
                            || dirty_marked(m2, d3.rank@, p, y))
                    }
    &&& d4.wf_structure()
    &&& d4.same_frame(&d3)
    &&& parent_map(d4.nodes()) == parent_map(d3.nodes())
    &&& forall|y: usize|
                    #[trigger] d3.nodes().contains_key(y) ==> same_but_flag(d4.nodes()[y], d3.nodes()[y])
                        && d4.nodes()[y].in_document == if dD.nodes()[p].in_document && reaches(
                        parent_map(d3.nodes()),
                        d3.rank@,
                        y,
                        c,
                    ) {
                        true
                    } else {
                        d3.nodes()[y].in_document
                    }
}

impl Document {
    /// The facts that hanging `c` below `p` at position `pos` (after cutting
    /// it from `p` if it was there) establishes, from the states it passes
    /// through.
    #[verifier::rlimit(40)]
    proof fn lemma_attach_post(d0: Document, dD: Document, m2: Map<usize, DomNode>, d3: Document, d4: Document, p: usize, c: usize, pos: int)
        requires
            d0.wf(),
            d0.nodes().contains_key(p),
            d0.nodes().contains_key(c),
            c != p,
            !d0.is_inclusive_ancestor(c, p),
            d0.nodes()[c].parent is None || d0.nodes()[c].parent == Some(p),
            dD.wf(),
            dD.root == d0.root,
            dD.nodes().dom() == d0.nodes().dom(),
            d0.nodes()[c].parent == Some(p) ==> dD.detached_from(&d0, c),
            d0.nodes()[c].parent is None ==> dD == d0,
            attach_steps(dD, m2, d3, d4, p, c, pos),
        ensures
            d4.wf(),
            dD.nodes()[p].children@ == without(d0.nodes()[p].children@, c),
            d4.attached(&d0, p, c, dD.nodes()[p].children@.insert(pos, c)),
    {
        let m0 = d0.nodes();
        let mD = dD.nodes();
        let m3 = d3.nodes();
        let m4 = d4.nodes();
        let pm0 = parent_map(m0);
        let pmD = parent_map(mD);
        let pm2 = parent_map(m2);
        let r0 = d0.rank@;
        let rD = dD.rank@;
        let r3 = d3.rank@;
        let b0 = d0.bound@;
        let was_child = m0[c].parent == Some(p);
        // Ancestry before the attach, in terms of the tree as it was.
        assert forall|x: usize, a: usize| #[trigger] reaches(pmD, rD, x, a) == (reaches(pm0, r0, x, a) && (
            reaches(pm0, r0, x, c) ==> reaches(pm0, r0, a, c))) by {
            if was_child {
                assert(dD.is_inclusive_ancestor(a, x) == (d0.is_inclusive_ancestor(a, x) && (
                    d0.is_inclusive_ancestor(c, x) ==> d0.is_inclusive_ancestor(c, a))));
            } else {
                if reaches(pm0, r0, x, a) && reaches(pm0, r0, x, c) {
                    lemma_chain_linear(pm0, r0, b0, x, a, c);
                    if reaches(pm0, r0, c, a) {
                        assert(pm0[c] is None);
                        assert(pm0.contains_key(c));
                    }
                }
            }
        }
        assert(pmD.contains_key(c));
        assert(mD[c].parent is None);
        assert(pmD[c] is None);
        assert(!reaches(pmD, rD, p, c));
        lemma_attach(pmD, rD, dD.bound@, c, p);
        assert(r3 == attach_rank(pmD, rD, c, p));
        // Descendants of c are the same in every state.
        assert forall|y: usize| #[trigger] reaches(pm2, r3, y, c) == reaches(pm0, r0, y, c) by {
            assert(reaches(pm0, r0, c, c));
        }
        // Flags law.
        assert(flags_ok(m4, d0.root)) by {
            assert forall|y: usize| #[trigger] m4.contains_key(y) && y != d0.root implies (m4[y].in_document
                == (m4[y].parent is Some && m4[m4[y].parent->0].in_document)) by {
                assert(mD.contains_key(y));
                assert(attach_shape_at(mD, m2, c, p, pos, y));
                assert(attach_shape_at(mD, m2, c, p, pos, p));
                assert(pm2[y] == m2[y].parent);
                if reaches(pm0, r0, p, c) {
                }
                if y == c {
                    assert(reaches(pm0, r0, c, c));
                    assert(m4[p].in_document == mD[p].in_document);
                } else if mD[y].parent is Some {
                    let q = mD[y].parent->0;
                    assert(pmD.contains_key(y));
                    assert(pmD[y] == Some(q));
                    assert(pm2[y] == Some(q));
                    assert(pmD.contains_key(q));
                    assert(mD.contains_key(q));
                    if reaches(pm2, r3, q, c) {
                        assert(reaches(pm2, r3, y, c));
                    }
                    if reaches(pm2, r3, y, c) {
                        assert(reaches(pm2, r3, q, c));
                    }
                }
            }
        }
        // Dirty marks: the second walk from p adds nothing beyond the first.
        assert forall|y: usize| #[trigger] m0.contains_key(y) implies m4[y].dirty_descendants == (m0[y].dirty_descendants
            || dirty_marked(m0, r0, p, y)) by {
            assert(attach_shape_at(mD, m2, c, p, pos, p));
            assert(m2[p].parent == mD[p].parent);
            assert(mD[p].parent == m0[p].parent);
            if m0[p].parent is Some {
                let pp = m0[p].parent->0;
                assert(pm0.contains_key(p) && pm0[p] == Some(pp));
                assert(pm2.contains_key(p) && pm2[p] == Some(pp));
                if was_child {
                    assert(marks_up(pm0, dirty_map(m0), r0, pp, pp));
                    assert(dirty_marked(m0, r0, p, pp));
                    assert(m0.contains_key(pp));
                    assert(mD[pp].dirty_descendants);
                    assert(dirty_map(m2)[pp]);
                    if marks_up(pm2, dirty_map(m2), r3, pp, y) {
                        assert(y == pp);
                    }
                } else {
                    assert(dirty_map(m2) =~= dirty_map(m0));
                    if reaches(pm0, r0, pp, c) {
                        assert(reaches(pm0, r0, p, pp));
                        lemma_reaches_trans(pm0, r0, b0, p, pp, c);
                    }
                    assert(pm2 == pm0.insert(c, Some(p)));
                    assert(rD == r0);
                    lemma_marks_up_attach(pm0, dirty_map(m0), r0, b0, c, p, pp, y);
                }
            }
        }
        assert(d4.wf());
        assert(mD[p].children@ == without(m0[p].children@, c)) by {
            if !was_child {
                reveal(children_link_ok);
                if m0[p].children@.contains(c) {
                    let k = choose|k: int| 0 <= k < m0[p].children@.len() && m0[p].children@[k] == c;
                    assert(m0[m0[p].children@[k]].parent == Some(p));
                }
                lemma_without_absent(m0[p].children@, c);
            }
        }
        // The attached shape, node by node.
        assert forall|y: usize| #[trigger] m0.contains_key(y) implies {
            &&& same_payload(m4[y], m0[y])
            &&& m4[y].parent == if y == c { Some(p) } else { m0[y].parent }
            &&& m4[y].children@ == if y == p { mD[p].children@.insert(pos, c) } else { m0[y].children@ }
            &&& m4[y].in_document == if d0.is_inclusive_ancestor(c, y) {
                m0[p].in_document || (!was_child && m0[y].in_document)
            } else {
                m0[y].in_document
            }
        } by {
            assert(attach_shape_at(mD, m2, c, p, pos, y));
            if reaches(pm0, r0, p, c) {
            }
            assert(reaches(pm0, r0, c, c));
        }
        assert forall|a: usize, x: usize|
            #[trigger] d4.is_inclusive_ancestor(a, x) == ((d0.is_inclusive_ancestor(a, x) && (
                d0.is_inclusive_ancestor(c, x) ==> d0.is_inclusive_ancestor(c, a))) || (
            d0.is_inclusive_ancestor(c, x) && d0.is_inclusive_ancestor(a, p))) by {
            assert(reaches(pmD, rD, x, c) == reaches(pm0, r0, x, c));
            assert(reaches(pmD, rD, p, a) == reaches(pm0, r0, p, a));
            assert(reaches(pm0, r0, c, c));
        }
    }
}

impl Document {
    /// Makes `child_id` the last child of `parent_id`. A child already under
    /// `parent_id` moves to the end (the host's own shadow root is cut from
    /// the host first and becomes an ordinary last child); a child under
    /// another parent, a missing node or a cycle is refused and the document
    /// is left as it was.
    #[verifier::rlimit(40)]
    #[verifier::spinoff_prover]
    pub fn append_child(&mut self, parent_id: usize, child_id: usize) -> (r: Result<(), DomError>)
        requires
            old(self).wf(),
        ensures
            final(self).wf(),
            final(self).root_id() == old(self).root_id(),
            final(self).same_ids(old(self)),
            final(self).removed_ids() == old(self).removed_ids(),
            r == append_check(*old(self), parent_id, child_id),
            r is Err ==> *final(self) == *old(self),
            r is Ok && !shadow_of(*old(self), parent_id, child_id) ==> final(self).appended(old(self), parent_id, child_id),
            r is Ok && shadow_of(*old(self), parent_id, child_id) ==> exists|dU: Document|
                #[trigger] dU.unshadowed(old(self), parent_id, child_id) && final(self).appended(&dU, parent_id, child_id),
    {
        if !arena_contains(&self.nodes, parent_id) {
            return Err(DomError::InvalidParent);
        }
        if !arena_contains(&self.nodes, child_id) {
            return Err(DomError::InvalidChild);
        }
        if parent_id == child_id {
            proof {
                assert(reaches(parent_map(self.nodes()), self.rank@, parent_id, child_id));
            }
            return Err(DomError::CycleDetected);
        }
        if self.is_ancestor_or_self(child_id, parent_id) {
            return Err(DomError::CycleDetected);
        }
        let old_parent = match arena_get(&self.nodes, child_id) {
            Some(n) => n.parent,
            None => None,
        };
        let needs_detach = match old_parent {
            Some(q) => q == parent_id,
            None => false,
        };
        if !needs_detach && old_parent.is_some() {
            return Err(DomError::ChildAlreadyHasParent);
        }
        if needs_detach && self.is_shadow_root_of(parent_id, child_id) {
            self.unshadow(parent_id, child_id);
            let ghost dU = *self;
            proof {
                assert(!dU.is_inclusive_ancestor(child_id, parent_id));
                reveal(shadow_link_ok);
                assert(!old(self).nodes()[parent_id].children@.contains(child_id));
                lemma_without_absent(dU.nodes()[parent_id].children@, child_id);
            }
            let pos = arena_get(&self.nodes, parent_id).unwrap().children.len();
            let steps = self.attach_at(parent_id, child_id, pos);
            let ghost m2 = steps@.0;
            let ghost d3 = steps@.1;
            proof {
                Document::lemma_attach_post(dU, dU, m2, d3, *self, parent_id, child_id, pos as int);
                assert(dU.nodes()[parent_id].children@.insert(pos as int, child_id) =~= dU.nodes()[parent_id].children@.push(child_id));
                assert(dU.unshadowed(old(self), parent_id, child_id) && self.appended(&dU, parent_id, child_id));
            }
            return Ok(());
        }
        proof {
            reveal(shadow_link_ok);
            assert(!shadow_of(*old(self), parent_id, child_id));
        }
        if needs_detach {
            self.detach_child(child_id);
        }
        let ghost dD = *self;
        proof {
            assert(!dD.is_inclusive_ancestor(child_id, parent_id)) by {
                if old(self).nodes()[child_id].parent is Some {
                    assert(dD.is_inclusive_ancestor(child_id, parent_id) == (old(self).is_inclusive_ancestor(child_id, parent_id)
                        && (old(self).is_inclusive_ancestor(child_id, parent_id) ==> old(self).is_inclusive_ancestor(child_id, child_id))));
                }
            }
        }
        let pos = arena_get(&self.nodes, parent_id).unwrap().children.len();
        let steps = self.attach_at(parent_id, child_id, pos);
        let ghost m2 = steps@.0;
        let ghost d3 = steps@.1;
        proof {
            Document::lemma_attach_post(*old(self), dD, m2, d3, *self, parent_id, child_id, pos as int);
            assert(dD.nodes()[parent_id].children@.insert(pos as int, child_id) =~= dD.nodes()[parent_id].children@.push(child_id));
        }
        Ok(())
    }
}

impl Document {
    /// Hangs the parentless `c` below `p` at position `pos` among its
    /// children, marks `p` and its ancestors dirty, and connects the subtree
    /// of `c` when `p` is connected. Returns the intermediate states.
    #[verifier::spinoff_prover]
    fn attach_at(&mut self, p: usize, c: usize, pos: usize) -> (r: Ghost<(Map<usize, DomNode>, Document)>)
        requires
            old(self).wf(),
            old(self).nodes().contains_key(p),
            old(self).nodes().contains_key(c),
            old(self).nodes()[c].parent is None,
            c != p,
            !old(self).is_inclusive_ancestor(c, p),
            pos <= old(self).nodes()[p].children@.len(),
        ensures
            attach_steps(*old(self), r@.0, r@.1, *final(self), p, c, pos as int),
            final(self).removed@ == old(self).removed@,
            final(self).root == old(self).root,
            final(self).same_ids(old(self)),
    {
        let ghost dD = *self;
        let ghost mD = self.nodes();
        let child = arena_get_mut(&mut self.nodes, c);
        child.parent = Some(p);
        let parent = arena_get_mut(&mut self.nodes, p);
        parent.children.insert(pos, c);
        let parent_in_doc = parent.in_document;
        let ghost m2 = self.nodes();
        proof {
            assert(m2.dom() =~= mD.dom());
            assert forall|y: usize| #[trigger] mD.contains_key(y) implies {
                &&& attach_shape_at(mD, m2, c, p, pos as int, y)
                &&& same_payload(m2[y], mD[y])
                &&& m2[y].in_document == mD[y].in_document
                &&& m2[y].dirty_descendants == mD[y].dirty_descendants
            } by {}
            lemma_attach_links(mD, m2, c, p, pos as int);
            let pmD = parent_map(mD);
            assert(pmD.contains_key(c) && pmD[c] is None);
            assert(pmD.contains_key(p));
            lemma_attach(pmD, dD.rank@, dD.bound@, c, p);
            self.rank@ = attach_rank(pmD, dD.rank@, c, p);
            self.bound@ = dD.bound@ + dD.rank@[p] + 1;
        }
        self.mark_dirty_and_ancestors(p);
        let ghost d3 = *self;
        if parent_in_doc {
            self.set_in_document_subtree(c, true);
        }
        Ghost((m2, d3))
    }
}

impl Document {
    /// Whether `s` is the shadow root attached to `host` (a shadow root is
    /// linked to its host but is not one of its children).
    pub fn is_shadow_root_of(&self, host: usize, s: usize) -> (r: bool)
        requires
            self.nodes().contains_key(host),
        ensures
            r == (self.nodes()[host].shadow_root_id == Some(s)),
    {
        match arena_get(&self.nodes, host) {
            Some(h) => match h.shadow_root_id {
                Some(x) => x == s,
                None => false,
            },
            None => false,
        }
    }
}

impl Document {
    /// `self` is `old` with the shadow root `sr` cut from its host `host`:
    /// the host no longer has a shadow root, `sr` has no parent, and the
    /// subtree of `sr` is no longer connected. Nothing is marked dirty.
    pub open spec fn unshadowed(&self, old: &Document, host: usize, sr: usize) -> bool {
        let m0 = old.nodes();
        let m = self.nodes();
        &&& m.dom() == m0.dom()
        &&& forall|y: usize|
            #[trigger] m0.contains_key(y) ==> {
                &&& same_payload(m[y], DomNode { shadow_root_id: if y == host { None } else { m0[y].shadow_root_id }, ..m0[y] })
                &&& m[y].parent == if y == sr { None } else { m0[y].parent }
                &&& m[y].children == m0[y].children
                &&& m[y].in_document == (m0[y].in_document && !old.is_inclusive_ancestor(sr, y))
                &&& m[y].dirty_descendants == m0[y].dirty_descendants
            }
        &&& forall|a: usize, x: usize|
            #[trigger] self.is_inclusive_ancestor(a, x) == (old.is_inclusive_ancestor(a, x) && (
                old.is_inclusive_ancestor(sr, x) ==> old.is_inclusive_ancestor(sr, a)))
        &&& self.root_id() == old.root_id()
        &&& self.removed_ids() == old.removed_ids()
        &&& self.same_ids(old)
    }

    /// Cuts the shadow root `sr` from its host `host` (see [`unshadowed`]),
    /// leaving it a parentless node of its own.
    #[verifier::rlimit(40)]
    #[verifier::spinoff_prover]
    fn unshadow(&mut self, host: usize, sr: usize)
        requires
            old(self).wf(),
            old(self).nodes().contains_key(host),
            old(self).nodes()[host].shadow_root_id == Some(sr),
        ensures
            final(self).wf(),
            final(self).unshadowed(old(self), host, sr),
    {
        let ghost m0 = self.nodes();
        let ghost pm0 = parent_map(m0);
        let ghost rank = self.rank@;
        let ghost bound = self.bound@;
        proof {
            reveal(shadow_link_ok);
            assert(m0.contains_key(sr) && m0[sr].parent == Some(host));
        }
        self.set_in_document_subtree(sr, false);
        let ghost m1 = self.nodes();
        let n = arena_get_mut(&mut self.nodes, sr);
        n.parent = None;
        let h = arena_get_mut(&mut self.nodes, host);
        h.shadow_root_id = None;
        proof {
            let m2 = self.nodes();
            assert(m2.dom() =~= m0.dom());
            assert(parent_map(m1) == pm0);
            assert(parent_map(m2) =~= pm0.insert(sr, None));
            assert(pm0.contains_key(sr));
            assert forall|x: usize, a: usize| #[trigger] reaches(pm0.insert(sr, None), rank, x, a) == (reaches(pm0, rank, x, a)
                && (reaches(pm0, rank, x, sr) ==> reaches(pm0, rank, a, sr))) by {
                lemma_detach_reaches(pm0, rank, bound, sr, x, a);
            }
            lemma_detach_reaches(pm0, rank, bound, sr, sr, sr);
            assert(rank_ok(parent_map(m2), rank, bound));
            assert(sr != host) by {
                assert(rank[host] < rank[sr]);
            }
            assert(links_ok(m2)) by {
                reveal(children_link_ok);
                reveal(ids_ok);
                reveal(parent_link_ok);
                reveal(shadow_link_ok);
                assert forall|q: usize, i: int|
                    #![trigger m2[q].children@[i]]
                    m2.contains_key(q) && 0 <= i < m2[q].children@.len() implies m2.contains_key(m2[q].children@[i])
                        && m2[m2[q].children@[i]].parent == Some(q) by {
                    assert(m2[q].children == m0[q].children);
                    let c = m0[q].children@[i];
                    assert(m0.contains_key(c) && m0[c].parent == Some(q));
                    if c == sr {
                        assert(q == host);
                        assert(m0[host].children@.contains(sr));
                    }
                }
                assert forall|y: usize|
                    #[trigger] m2.contains_key(y) && m2[y].parent is Some implies m2.contains_key(m2[y].parent->0) && (
                    m2[m2[y].parent->0].children@.contains(y) || m2[m2[y].parent->0].shadow_root_id == Some(y)) by {
                    assert(y != sr);
                    let q = m0[y].parent->0;
                    assert(m0.contains_key(q));
                    assert(m2[q].children == m0[q].children);
                    if q == host && !m0[q].children@.contains(y) {
                        assert(m0[q].shadow_root_id == Some(y));
                    }
                }
                assert forall|y: usize| #[trigger] m2.contains_key(y) implies m2[y].children@.no_duplicates() && m2[y].id == y by {
                    assert(m2[y].children == m0[y].children && m2[y].id == m0[y].id);
                }
                assert forall|y: usize|
                    #[trigger] m2.contains_key(y) && m2[y].shadow_root_id is Some implies m2.contains_key(
                        m2[y].shadow_root_id->0,
                    ) && m2[m2[y].shadow_root_id->0].parent == Some(y) && !m2[y].children@.contains(
                        m2[y].shadow_root_id->0,
                    ) by {
                    assert(y != host);
                    let t = m0[y].shadow_root_id->0;
                    assert(m0.contains_key(t) && m0[t].parent == Some(y));
                    assert(t != sr);
                    assert(m2[y].children == m0[y].children);
                }
            }
            assert(flags_ok(m2, self.root)) by {
                reveal(parent_link_ok);
                assert forall|y: usize| #[trigger] m2.contains_key(y) && y != self.root implies (m2[y].in_document == (m2[y].parent is Some
                    && m2[m2[y].parent->0].in_document)) by {
                    assert(m0.contains_key(y));
                    if y != sr && m0[y].parent is Some {
                        let q = m0[y].parent->0;
                        assert(m0.contains_key(q));
                        assert(pm0[y] == Some(q));
                        assert(reaches(pm0, rank, y, sr) == reaches(pm0, rank, q, sr));
                    }
                }
            }
            assert forall|y: usize| #[trigger] m0.contains_key(y) implies {
                &&& same_payload(m2[y], DomNode { shadow_root_id: if y == host { None } else { m0[y].shadow_root_id }, ..m0[y] })
                &&& m2[y].parent == if y == sr { None } else { m0[y].parent }
                &&& m2[y].children == m0[y].children
                &&& m2[y].in_document == (m0[y].in_document && !old(self).is_inclusive_ancestor(sr, y))
                &&& m2[y].dirty_descendants == m0[y].dirty_descendants
            } by {
                assert(same_but_flag(m1[y], m0[y]));
            }
        }
    }
}

impl Document {
    /// Detaches `node_id` from its parent (if any) and clears the connected
    /// flag of its subtree; a shadow root is cut from its host. The node
    /// stays in the arena.
    pub fn detach_node(&mut self, node_id: usize)
        requires
            old(self).wf(),
        ensures
            final(self).wf(),
            final(self).root_id() == old(self).root_id(),
            final(self).same_ids(old(self)),
            final(self).removed_ids() == old(self).removed_ids(),
            final(self).nodes().dom() == old(self).nodes().dom(),
            !old(self).nodes().contains_key(node_id) || old(self).nodes()[node_id].parent is None
                ==> *final(self) == *old(self),
            old(self).nodes().contains_key(node_id) && old(self).nodes()[node_id].parent is Some && !is_shadow_child(
                old(self).nodes(),
                node_id,
            ) ==> final(self).detached_from(old(self), node_id),
            is_shadow_child(old(self).nodes(), node_id) ==> final(self).unshadowed(
                old(self),
                old(self).nodes()[node_id].parent->0,
                node_id,
            ),
    {
        let parent = match arena_get(&self.nodes, node_id) {
            Some(n) => n.parent,
            None => None,
        };
        if let Some(h) = parent {
            proof {
                reveal(parent_link_ok);
            }
            if self.is_shadow_root_of(h, node_id) {
                self.unshadow(h, node_id);
                return;
            }
        }
        proof {
            reveal(shadow_link_ok);
        }
        self.detach_child(node_id);
    }
}

/// What `remove_child` reports for the given ids.
pub open spec fn remove_check(d: Document, p: usize, c: usize) -> Result<(), DomError> {
    if !d.nodes().contains_key(p) {
        Err(DomError::InvalidParent)
    } else if !d.nodes().contains_key(c) {
        Err(DomError::InvalidChild)
    } else if d.nodes()[c].parent != Some(p) {
        Err(DomError::InvalidChild)
    } else {
        Ok(())
    }
}

impl Document {
    /// Removes `child_id` from `parent_id` without deleting it. Fails unless
    /// both exist and the parent link of `child_id` points at `parent_id`;
    /// the host's own shadow root is cut from the host.
    pub fn remove_child(&mut self, parent_id: usize, child_id: usize) -> (r: Result<(), DomError>)
        requires
            old(self).wf(),
        ensures
            final(self).wf(),
            final(self).root_id() == old(self).root_id(),
            final(self).same_ids(old(self)),
            final(self).removed_ids() == old(self).removed_ids(),
            final(self).nodes().dom() == old(self).nodes().dom(),
            r == remove_check(*old(self), parent_id, child_id),
            r is Err ==> *final(self) == *old(self),
            r is Ok && !shadow_of(*old(self), parent_id, child_id) ==> final(self).detached_from(old(self), child_id),
            r is Ok && shadow_of(*old(self), parent_id, child_id) ==> final(self).unshadowed(old(self), parent_id, child_id),
    {
        if !arena_contains(&self.nodes, parent_id) {
            return Err(DomError::InvalidParent);
        }
        if !arena_contains(&self.nodes, child_id) {
            return Err(DomError::InvalidChild);
        }
        let actual_parent = match arena_get(&self.nodes, child_id) {
            Some(n) => n.parent,
            None => None,
        };
        let is_child = match actual_parent {
            Some(q) => q == parent_id,
            None => false,
        };
        if !is_child {
            return Err(DomError::InvalidChild);
        }
        if self.is_shadow_root_of(parent_id, child_id) {
            self.unshadow(parent_id, child_id);
            return Ok(());
        }
        proof {
            reveal(shadow_link_ok);
            assert(!shadow_of(*old(self), parent_id, child_id));
        }
        self.detach_child(child_id);
        Ok(())
    }
}

/// Changing anything but the links and the connected flags keeps every
/// part of the invariant that speaks of them.
pub proof fn lemma_frame_flags(m0: Map<usize, DomNode>, m1: Map<usize, DomNode>, root: usize)
    requires
        links_ok(m0),
        flags_ok(m0, root),
        m1.dom() == m0.dom(),
        forall|y: usize| #[trigger] m0.contains_key(y) ==> same_links(m0[y], m1[y]) && m1[y].in_document
            == m0[y].in_document,
    ensures
        links_ok(m1),
        parent_map(m1) == parent_map(m0),
        flags_ok(m1, root),
{
    lemma_links_frame(m0, m1);
    reveal(parent_link_ok);
    assert forall|n: usize| #[trigger] m1.contains_key(n) && n != root implies (m1[n].in_document == (m1[n].parent is Some
        && m1[m1[n].parent->0].in_document)) by {
        assert(m0.contains_key(n));
        if m0[n].parent is Some {
            assert(m0.contains_key(m0[n].parent->0));
        }
    }
}

/// In a list without duplicates, `index_of` finds the one position of a value.
pub proof fn lemma_index_of_unique(s: Seq<usize>, x: usize, i: int)
    requires
        s.no_duplicates(),
        0 <= i < s.len(),
        s[i] == x,
    ensures
        s.index_of(x) == i,
{
    assert(s.contains(x));
    let k = s.index_of(x);
    assert(s[k] == x);
}

/// The sibling right after `n` among its parent's children.
pub open spec fn next_sibling_in(m: Map<usize, DomNode>, n: usize) -> Option<usize> {
    if m.contains_key(n) && m[n].parent is Some && m.contains_key(m[n].parent->0)
        && m[m[n].parent->0].children@.contains(n) {
        let kids = m[m[n].parent->0].children@;
        let i = kids.index_of(n);
        if i + 1 < kids.len() {
            Some(kids[i + 1])
        } else {
            None
        }
    } else {
        None
    }
}

/// The sibling right before `n` among its parent's children.
pub open spec fn previous_sibling_in(m: Map<usize, DomNode>, n: usize) -> Option<usize> {
    if m.contains_key(n) && m[n].parent is Some && m.contains_key(m[n].parent->0)
        && m[m[n].parent->0].children@.contains(n) {
        let kids = m[m[n].parent->0].children@;
        let i = kids.index_of(n);
        if i > 0 {
            Some(kids[i - 1])
        } else {
            None
        }
    } else {
        None
    }
}

/// `k` is a stored element.
pub open spec fn is_element_in(m: Map<usize, DomNode>, k: usize) -> bool {
    m.contains_key(k) && m[k].node_type == NodeType::Element
}

/// `r` is the first element in `kids`, or `None` when there is none.
pub open spec fn is_first_element(m: Map<usize, DomNode>, kids: Seq<usize>, r: Option<usize>) -> bool {
    match r {
        Some(k) => exists|i: int|
            0 <= i < kids.len() && kids[i] == k && is_element_in(m, k) && forall|j: int|
                0 <= j < i ==> !is_element_in(m, #[trigger] kids[j]),
        None => forall|j: int| 0 <= j < kids.len() ==> !is_element_in(m, #[trigger] kids[j]),
    }
}

impl Document {
    /// The next sibling of `node_id`, if it has a parent and a later sibling.
    pub fn get_next_sibling(&self, node_id: usize) -> (r: Option<usize>)
        requires
            self.wf(),
        ensures
            r == next_sibling_in(self.nodes(), node_id),
    {
        let parent_id = match arena_get(&self.nodes, node_id) {
            Some(n) => n.parent,
            None => None,
        };
        let parent_id = match parent_id {
            Some(p) => p,
            None => return None,
        };
        let parent = match arena_get(&self.nodes, parent_id) {
            Some(p) => p,
            None => return None,
        };
        let pos = match position_of(&parent.children, node_id) {
            Some(i) => i,
            None => return None,
        };
        proof {
            reveal(ids_ok);
            lemma_index_of_unique(parent.children@, node_id, pos as int);
        }
        if pos < parent.children.len() - 1 {
            Some(parent.children[pos + 1])
        } else {
            None
        }
    }

    /// The previous sibling of `node_id`, if it has a parent and an earlier
    /// sibling.
    pub fn get_previous_sibling(&self, node_id: usize) -> (r: Option<usize>)
        requires
            self.wf(),
        ensures
            r == previous_sibling_in(self.nodes(), node_id),
    {
        let parent_id = match arena_get(&self.nodes, node_id) {
            Some(n) => n.parent,
            None => None,
        };
        let parent_id = match parent_id {
            Some(p) => p,
            None => return None,
        };
        let parent = match arena_get(&self.nodes, parent_id) {
            Some(p) => p,
            None => return None,
        };
        let pos = match position_of(&parent.children, node_id) {
            Some(i) => i,
            None => return None,
        };
        proof {
            reveal(ids_ok);
            lemma_index_of_unique(parent.children@, node_id, pos as int);
        }
        if pos == 0 {
            None
        } else {
            Some(parent.children[pos - 1])
        }
    }

    /// The first element child of the document node: the root of layout.
    pub fn root_element_id(&self) -> (r: Option<usize>)
        requires
            self.wf(),
        ensures
            self.nodes().contains_key(self.root_id()) ==> is_first_element(
                self.nodes(),
                self.nodes()[self.root_id()].children@,
                r,
            ),
            !self.nodes().contains_key(self.root_id()) ==> r is None,
    {
        let root = match arena_get(&self.nodes, self.root) {
            Some(n) => n,
            None => return None,
        };
        let mut i: usize = 0;
        while i < root.children.len()
            invariant
                self.nodes().contains_key(self.root),
                *root == self.nodes()[self.root],
                i <= root.children@.len(),
                forall|j: int| 0 <= j < i ==> !is_element_in(self.nodes(), #[trigger] root.children@[j]),
            decreases root.children@.len() - i,
        {
            let k = root.children[i];
            match arena_get(&self.nodes, k) {
                Some(n) => {
                    if n.is_element() {
                        return Some(k);
                    }
                },
                None => {},
            }
            i = i + 1;
        }
        None
    }

    /// Creates a detached element with the given local name.
    pub fn create_element(&mut self, name: String) -> (id: usize)
        requires
            old(self).wf(),
        ensures
            final(self).wf(),
            id == old(self).next_id(),
            !old(self).nodes().contains_key(id),
            final(self).nodes().dom() == old(self).nodes().dom().insert(id),
            forall|x: usize| x != id && old(self).nodes().contains_key(x) ==> #[trigger] final(self).nodes()[x] == old(self).nodes()[x],
            final(self).nodes()[id].name == Some(name),
            (DomNode { name: None, ..final(self).nodes()[id] }).is_fresh(id, NodeType::Element),
            old(self).is_dense() ==> final(self).is_dense() && final(self).next_id() == id + 1,
            final(self).root_id() == old(self).root_id(),
            final(self).removed_ids() == old(self).removed_ids(),
            forall|a: usize, x: usize| old(self).nodes().contains_key(x) ==>
                (final(self).is_inclusive_ancestor(a, x) == old(self).is_inclusive_ancestor(a, x)),
    {
        let id = self.create_node(NodeType::Element);
        let ghost m0 = self.nodes();
        let node = arena_get_mut(&mut self.nodes, id);
        node.name = Some(name);
        proof {
            let m1 = self.nodes();
            assert(m1.dom() =~= m0.dom());
            lemma_frame_flags(m0, m1, self.root);
        }
        id
    }

    /// Creates a detached text node holding `content`.
    pub fn create_text_node(&mut self, content: String) -> (id: usize)
        requires
            old(self).wf(),
        ensures
            final(self).wf(),
            id == old(self).next_id(),
            !old(self).nodes().contains_key(id),
            final(self).nodes().dom() == old(self).nodes().dom().insert(id),
            forall|x: usize| x != id && old(self).nodes().contains_key(x) ==> #[trigger] final(self).nodes()[x] == old(self).nodes()[x],
            final(self).nodes()[id].text_content == Some(content),
            (DomNode { text_content: None, ..final(self).nodes()[id] }).is_fresh(id, NodeType::Text),
            old(self).is_dense() ==> final(self).is_dense() && final(self).next_id() == id + 1,
            final(self).root_id() == old(self).root_id(),
            final(self).removed_ids() == old(self).removed_ids(),
            forall|a: usize, x: usize| old(self).nodes().contains_key(x) ==>
                (final(self).is_inclusive_ancestor(a, x) == old(self).is_inclusive_ancestor(a, x)),
    {
        let id = self.create_node(NodeType::Text);
        let ghost m0 = self.nodes();
        let node = arena_get_mut(&mut self.nodes, id);
        node.text_content = Some(content);
        proof {
            let m1 = self.nodes();
            assert(m1.dom() =~= m0.dom());
            lemma_frame_flags(m0, m1, self.root);
        }
        id
    }
}

/// What `insert_before` reports for the given ids, checking in order.
pub open spec fn insert_check(d: Document, p: usize, c: usize, r: usize) -> Result<(), DomError> {
    if !d.nodes().contains_key(p) {
        Err(DomError::InvalidParent)
    } else if !d.nodes().contains_key(c) {
        Err(DomError::InvalidChild)
    } else if !d.nodes().contains_key(r) {
        Err(DomError::InvalidChild)
    } else if d.nodes()[r].parent != Some(p) || d.nodes()[p].shadow_root_id == Some(r) {
        Err(DomError::InvalidChild)
    } else if c == r {
        Ok(())
    } else if d.is_inclusive_ancestor(c, p) {
        Err(DomError::CycleDetected)
    } else if d.nodes()[c].parent is Some && d.nodes()[c].parent != Some(p) {
        Err(DomError::ChildAlreadyHasParent)
    } else {
        Ok(())
    }
}

impl Document {
    /// Inserts `new_child_id` right before `ref_child_id` among the children
    /// of `parent_id`. Inserting a node before itself does nothing; a child
    /// already under `parent_id` moves to its new place.
    #[verifier::rlimit(40)]
    #[verifier::spinoff_prover]
    pub fn insert_before(&mut self, parent_id: usize, new_child_id: usize, ref_child_id: usize) -> (r: Result<(), DomError>)
        requires
            old(self).wf(),
        ensures
            final(self).wf(),
            final(self).root_id() == old(self).root_id(),
            final(self).same_ids(old(self)),
            final(self).removed_ids() == old(self).removed_ids(),
            r == insert_check(*old(self), parent_id, new_child_id, ref_child_id),
            r is Err || new_child_id == ref_child_id ==> *final(self) == *old(self),
            r is Ok && new_child_id != ref_child_id && !shadow_of(*old(self), parent_id, new_child_id) ==> final(self).inserted_before(
                old(self),
                parent_id,
                new_child_id,
                ref_child_id,
            ),
            r is Ok && new_child_id != ref_child_id && shadow_of(*old(self), parent_id, new_child_id) ==> exists|dU: Document|
                #[trigger] dU.unshadowed(old(self), parent_id, new_child_id) && final(self).inserted_before(
                    &dU,
                    parent_id,
                    new_child_id,
                    ref_child_id,
                ),
    {
        if !arena_contains(&self.nodes, parent_id) {
            return Err(DomError::InvalidParent);
        }
        if !arena_contains(&self.nodes, new_child_id) {
            return Err(DomError::InvalidChild);
        }
        if !arena_contains(&self.nodes, ref_child_id) {
            return Err(DomError::InvalidChild);
        }
        let ref_parent = match arena_get(&self.nodes, ref_child_id) {
            Some(n) => n.parent,
            None => None,
        };
        let ref_ok = match ref_parent {
            Some(q) => q == parent_id,
            None => false,
        };
        if !ref_ok {
            return Err(DomError::InvalidChild);
        }
        if self.is_shadow_root_of(parent_id, ref_child_id) {
            return Err(DomError::InvalidChild);
        }
        if new_child_id == ref_child_id {
            return Ok(());
        }
        if new_child_id == parent_id {
            proof {
                assert(reaches(parent_map(self.nodes()), self.rank@, parent_id, new_child_id));
            }
            return Err(DomError::CycleDetected);
        }
        if self.is_ancestor_or_self(new_child_id, parent_id) {
            return Err(DomError::CycleDetected);
        }
        let old_parent = match arena_get(&self.nodes, new_child_id) {
            Some(n) => n.parent,
            None => None,
        };
        let needs_detach = match old_parent {
            Some(q) => q == parent_id,
            None => false,
        };
        if !needs_detach && old_parent.is_some() {
            return Err(DomError::ChildAlreadyHasParent);
        }
        if needs_detach && self.is_shadow_root_of(parent_id, new_child_id) {
            self.unshadow(parent_id, new_child_id);
            let ghost dU = *self;
            let ghost mU = self.nodes();
            proof {
                assert(!dU.is_inclusive_ancestor(new_child_id, parent_id));
                reveal(shadow_link_ok);
                reveal(parent_link_ok);
                assert(!old(self).nodes()[parent_id].children@.contains(new_child_id));
                lemma_without_absent(mU[parent_id].children@, new_child_id);
                assert(mU[ref_child_id].parent == Some(parent_id));
                assert(old(self).nodes()[ref_child_id].parent == Some(parent_id));
                assert(old(self).nodes()[parent_id].children@.contains(ref_child_id));
                assert(mU[parent_id].children@.contains(ref_child_id));
            }
            let pos = match position_of(&arena_get(&self.nodes, parent_id).unwrap().children, ref_child_id) {
                Some(i) => i,
                None => 0,
            };
            proof {
                reveal(ids_ok);
                lemma_index_of_unique(mU[parent_id].children@, ref_child_id, pos as int);
            }
            let steps = self.attach_at(parent_id, new_child_id, pos);
            let ghost m2 = steps@.0;
            let ghost d3 = steps@.1;
            proof {
                Document::lemma_attach_post(dU, dU, m2, d3, *self, parent_id, new_child_id, pos as int);
                assert(dU.unshadowed(old(self), parent_id, new_child_id) && self.inserted_before(&dU, parent_id, new_child_id, ref_child_id));
            }
            return Ok(());
        }
        proof {
            reveal(shadow_link_ok);
            assert(!shadow_of(*old(self), parent_id, new_child_id));
        }
        if needs_detach {
            self.detach_child(new_child_id);
        }
        let ghost dD = *self;
        let ghost mD = self.nodes();
        proof {
            assert(mD.contains_key(new_child_id) && mD.contains_key(parent_id));
            assert(mD[ref_child_id].parent == Some(parent_id));
            reveal(parent_link_ok);
            assert(mD[parent_id].children@.contains(ref_child_id));
            assert(!dD.is_inclusive_ancestor(new_child_id, parent_id)) by {
                if old(self).nodes()[new_child_id].parent is Some {
                    assert(dD.is_inclusive_ancestor(new_child_id, parent_id) == (old(self).is_inclusive_ancestor(new_child_id, parent_id)
                        && (old(self).is_inclusive_ancestor(new_child_id, parent_id) ==> old(self).is_inclusive_ancestor(new_child_id, new_child_id))));
                }
            }
        }
        let pos = match position_of(&arena_get(&self.nodes, parent_id).unwrap().children, ref_child_id) {
            Some(i) => i,
            None => 0,
        };
        proof {
            reveal(ids_ok);
            lemma_index_of_unique(mD[parent_id].children@, ref_child_id, pos as int);
        }
        let steps = self.attach_at(parent_id, new_child_id, pos);
        let ghost m2 = steps@.0;
        let ghost d3 = steps@.1;
        proof {
            Document::lemma_attach_post(*old(self), dD, m2, d3, *self, parent_id, new_child_id, pos as int);
        }
        Ok(())
    }
}

/// What `replace_child` reports for the given ids, checking in order.
pub open spec fn replace_check(d: Document, p: usize, n: usize, o: usize) -> Result<(), DomError> {
    if !d.nodes().contains_key(p) {
        Err(DomError::InvalidParent)
    } else if !d.nodes().contains_key(n) {
        Err(DomError::InvalidChild)
    } else if !d.nodes().contains_key(o) {
        Err(DomError::InvalidChild)
    } else if d.nodes()[o].parent != Some(p) || d.nodes()[p].shadow_root_id == Some(o) {
        Err(DomError::InvalidChild)
    } else if d.is_inclusive_ancestor(n, p) {
        Err(DomError::CycleDetected)
    } else if d.nodes()[n].parent is Some && d.nodes()[n].parent != Some(p) {
        Err(DomError::ChildAlreadyHasParent)
    } else {
        Ok(())
    }
}

/// The children `c0` after `n` takes the place of `o`: `n` leaves its old
/// place (if it had one), then stands where `o` stood.
pub open spec fn replace_kids(c0: Seq<usize>, n: usize, o: usize) -> Seq<usize> {
    let k = without(c0, n);
    k.update(k.index_of(o), n)
}

/// Where `o`, at `pos` in `c0`, stands once `n` has left `c0`.
pub open spec fn shifted_pos(c0: Seq<usize>, n: usize, pos: int) -> int {
    if c0.contains(n) && c0.index_of(n) < pos {
        pos - 1
    } else {
        pos
    }
}

/// Cutting `o` and `n` out of `c0` and putting `n` back where `o` stood
/// gives `replace_kids`.
#[verifier::spinoff_prover]
proof fn lemma_replace_kids(c0: Seq<usize>, n: usize, o: usize, j: int)
    requires
        c0.no_duplicates(),
        0 <= j < c0.len(),
        c0[j] == o,
        n != o,
    ensures
        0 <= shifted_pos(c0, n, j) <= without(without(c0, o), n).len(),
        without(without(c0, o), n).insert(shifted_pos(c0, n, j), n) == replace_kids(c0, n, o),
{
    lemma_without_at(c0, o, j);
    let c1 = c0.remove(j);
    if c0.contains(n) {
        let i = c0.index_of(n);
        lemma_replace_kids_moved(c0, n, o, i, j);
    } else {
        lemma_index_of_unique(c0, o, j);
        assert(!c1.contains(n));
        assert(c1.insert(j, n) =~= c0.update(j, n));
    }
}

proof fn lemma_replace_kids_moved(c0: Seq<usize>, n: usize, o: usize, i: int, j: int)
    requires
        c0.no_duplicates(),
        0 <= j < c0.len(),
        0 <= i < c0.len(),
        c0[j] == o,
        c0[i] == n,
        n != o,
    ensures
        0 <= shifted_pos(c0, n, j) <= without(without(c0, o), n).len(),
        without(without(c0, o), n).insert(shifted_pos(c0, n, j), n) == replace_kids(c0, n, o),
{
    lemma_without_at(c0, o, j);
    lemma_without_at(c0, n, i);
    lemma_index_of_unique(c0, n, i);
    let c1 = c0.remove(j);
    let k = c0.remove(i);
    let j2: int = if i < j { j - 1 } else { j };
    assert(shifted_pos(c0, n, j) == j2);
    let i1: int = if i < j { i } else { i - 1 };
    assert(c1[i1] == n);
    assert(c1.no_duplicates()) by {
        assert forall|a: int, b: int| 0 <= a < b < c1.len() implies c1[a] != c1[b] by {
            let a0 = if a < j { a } else { a + 1 };
            let b0 = if b < j { b } else { b + 1 };
            assert(c1[a] == c0[a0] && c1[b] == c0[b0]);
        }
    }
    lemma_without_at(c1, n, i1);
    assert(k[j2] == o);
    assert(k.no_duplicates()) by {
        assert forall|a: int, b: int| 0 <= a < b < k.len() implies k[a] != k[b] by {
            let a0 = if a < i { a } else { a + 1 };
            let b0 = if b < i { b } else { b + 1 };
            assert(k[a] == c0[a0] && k[b] == c0[b0]);
        }
    }
    lemma_index_of_unique(k, o, j2);
    assert(c1.remove(i1).insert(j2, n) =~= k.update(j2, n));
}

impl Document {
    /// `self` is `old` after putting `n` in the place of `o` among the
    /// children of `p`: `o` is cut loose with its subtree, `n` (cut from its
    /// old place under `p`, if it was there) takes its position.
    pub open spec fn replaced(&self, old: &Document, p: usize, n: usize, o: usize) -> bool {
        let m0 = old.nodes();
        let m = self.nodes();
        let c0 = m0[p].children@;
        let was_child = m0[n].parent == Some(p);
        &&& m.dom() == m0.dom()
        &&& forall|y: usize|
            #[trigger] m0.contains_key(y) ==> {
                &&& same_payload(m[y], m0[y])
                &&& m[y].parent == if y == n { Some(p) } else if y == o { None } else { m0[y].parent }
                &&& m[y].children@ == if y == p { replace_kids(c0, n, o) } else { m0[y].children@ }
                &&& m[y].in_document == if old.is_inclusive_ancestor(n, y) {
                    m0[p].in_document || (!was_child && m0[y].in_document)
                } else if old.is_inclusive_ancestor(o, y) {
                    false
                } else {
                    m0[y].in_document
                }
                &&& m[y].dirty_descendants == (m0[y].dirty_descendants || dirty_marked(m0, old.ranks(), p, y))
            }
        &&& forall|a: usize, x: usize|
            #[trigger] self.is_inclusive_ancestor(a, x) == ((old.is_inclusive_ancestor(a, x) && (
                old.is_inclusive_ancestor(o, x) ==> old.is_inclusive_ancestor(o, a)) && (
                old.is_inclusive_ancestor(n, x) ==> old.is_inclusive_ancestor(n, a))) || (
            old.is_inclusive_ancestor(n, x) && old.is_inclusive_ancestor(a, p)))
    }

    /// What `replace_child` knows after cutting the old child `o`.
    proof fn lemma_replace_mid(d0: Document, dO: Document, p: usize, n: usize, o: usize, pos: int)
        requires
            d0.wf(),
            dO.wf(),
            replace_check(d0, p, n, o) is Ok,
            n != o,
            !is_shadow_child(d0.nodes(), n),
            0 <= pos < d0.nodes()[p].children@.len(),
            d0.nodes()[p].children@[pos] == o,
            dO.detached_from(&d0, o),
            dO.nodes().dom() == d0.nodes().dom(),
        ensures
            n != o,
            dO.nodes().contains_key(n),
            dO.nodes().contains_key(p),
            dO.nodes()[n].parent == d0.nodes()[n].parent,
            !is_shadow_child(dO.nodes(), n),
            !dO.is_inclusive_ancestor(n, p),
            dO.nodes()[p].children@ == without(d0.nodes()[p].children@, o),
            dO.nodes()[n].parent is None ==> !dO.nodes()[p].children@.contains(n),
            !is_shadow_child(d0.nodes(), o),
    {
        let m0 = d0.nodes();
        let mO = dO.nodes();
        let pm0 = parent_map(m0);
        let r0 = d0.rank@;
        let b0 = d0.bound@;
        let kids0 = m0[p].children@;
        reveal(ids_ok);
        assert(m0.contains_key(p));
        lemma_index_of_unique(kids0, o, pos);
        lemma_without_at(kids0, o, pos);
        assert(mO.contains_key(n) && mO.contains_key(p));
        assert(mO[n].parent == m0[n].parent);
        if m0[n].parent is Some {
            let q = m0[n].parent->0;
            reveal(parent_link_ok);
            assert(m0.contains_key(q));
            assert(mO[q].shadow_root_id == m0[q].shadow_root_id);
        }
        assert(pm0.contains_key(o) && pm0[o] == Some(p));
        assert(!reaches(pm0, r0, p, o)) by {
            if reaches(pm0, r0, p, o) {
                lemma_reaches_rank(pm0, r0, b0, p, o);
            }
        }
        assert(dO.is_inclusive_ancestor(n, p) == (d0.is_inclusive_ancestor(n, p)
            && (d0.is_inclusive_ancestor(o, p) ==> d0.is_inclusive_ancestor(o, n))));
        assert(mO[p].children@ == kids0.remove(pos));
        if mO[n].parent is None {
            reveal(children_link_ok);
            if mO[p].children@.contains(n) {
                let k = choose|k: int| 0 <= k < mO[p].children@.len() && mO[p].children@[k] == n;
                assert(mO[mO[p].children@[k]].parent == Some(p));
            }
            lemma_without_absent(mO[p].children@, n);
        }
    }

    /// Cutting `o` and then hanging `n` in its place is a replacement.
    proof fn lemma_replace_compose(d0: Document, dO: Document, dF: Document, p: usize, n: usize, o: usize, j: int, kids: Seq<usize>)
        requires
            d0.wf(),
            dO.wf(),
            replace_check(d0, p, n, o) is Ok,
            n != o,
            !is_shadow_child(d0.nodes(), o),
            0 <= j < d0.nodes()[p].children@.len(),
            d0.nodes()[p].children@[j] == o,
            dO.detached_from(&d0, o),
            dO.nodes().dom() == d0.nodes().dom(),
            kids == without(without(d0.nodes()[p].children@, o), n).insert(shifted_pos(d0.nodes()[p].children@, n, j), n),
            dF.attached(&dO, p, n, kids),
        ensures
            dF.replaced(&d0, p, n, o),
    {
        let m0 = d0.nodes();
        let mO = dO.nodes();
        let mF = dF.nodes();
        let pm0 = parent_map(m0);
        let r0 = d0.rank@;
        let b0 = d0.bound@;
        let c0 = m0[p].children@;
        reveal(ids_ok);
        assert(m0.contains_key(p));
        lemma_index_of_unique(c0, o, j);
        lemma_without_at(c0, o, j);
        lemma_replace_kids(c0, n, o, j);
        assert(pm0.contains_key(o) && pm0[o] == Some(p));
        assert(pm0.contains_key(p));
        // o is not an ancestor of p.
        assert(!reaches(pm0, r0, p, o)) by {
            if reaches(pm0, r0, p, o) {
                lemma_reaches_rank(pm0, r0, b0, p, o);
            }
        }
        // n is not below o.
        assert(!reaches(pm0, r0, n, o)) by {
            if reaches(pm0, r0, n, o) {
                assert(reaches(pm0, r0, o, o));
                if n != o {
                    assert(pm0.contains_key(n) && pm0[n] is Some);
                    assert(pm0[n] == Some(p));
                    assert(reaches(pm0, r0, p, o));
                } else {
                    assert(reaches(pm0, r0, p, p));
                    assert(reaches(pm0, r0, o, p));
                }
            }
        }
        assert(n != o) by {
            assert(reaches(pm0, r0, o, o));
        }
        // The subtrees of n and o are disjoint.
        assert forall|x: usize| !(#[trigger] reaches(pm0, r0, x, n) && reaches(pm0, r0, x, o)) by {
            if reaches(pm0, r0, x, n) && reaches(pm0, r0, x, o) {
                lemma_chain_linear(pm0, r0, b0, x, n, o);
                if reaches(pm0, r0, o, n) {
                    assert(reaches(pm0, r0, p, p));
                    assert(reaches(pm0, r0, o, p));
                    assert(pm0[o] == Some(p));
                    lemma_reaches_trans(pm0, r0, b0, p, p, p);
                    assert(reaches(pm0, r0, p, n));
                }
            }
        }
        assert(mO[n].parent == m0[n].parent);
        assert(mO[p].in_document == m0[p].in_document);
        assert forall|y: usize| #[trigger] m0.contains_key(y) implies {
            &&& same_payload(mF[y], m0[y])
            &&& mF[y].parent == if y == n { Some(p) } else if y == o { None } else { m0[y].parent }
            &&& mF[y].children@ == if y == p { replace_kids(c0, n, o) } else { m0[y].children@ }
            &&& mF[y].in_document == if d0.is_inclusive_ancestor(n, y) {
                m0[p].in_document || (!(m0[n].parent == Some(p)) && m0[y].in_document)
            } else if d0.is_inclusive_ancestor(o, y) {
                false
            } else {
                m0[y].in_document
            }
        } by {
            assert(mO.contains_key(y));
            assert(dO.is_inclusive_ancestor(n, y) == (d0.is_inclusive_ancestor(n, y) && (
                d0.is_inclusive_ancestor(o, y) ==> d0.is_inclusive_ancestor(o, n))));
        }
        // Dirty marks: the second walk from p adds nothing.
        assert forall|y: usize| #[trigger] m0.contains_key(y) implies mF[y].dirty_descendants == (m0[y].dirty_descendants
            || dirty_marked(m0, r0, p, y)) by {
            assert(mO.contains_key(y));
            assert(mO.contains_key(p));
            if m0[p].parent is Some {
                let pp = m0[p].parent->0;
                assert(mO[p].parent == Some(pp));
                reveal(parent_link_ok);
                assert(m0.contains_key(pp));
                assert(marks_up(pm0, dirty_map(m0), r0, pp, pp));
                assert(mO[pp].dirty_descendants);
                let pmO = parent_map(mO);
                assert(pmO.contains_key(pp));
                assert(dirty_map(mO)[pp]);
                if marks_up(pmO, dirty_map(mO), dO.rank@, pp, y) {
                    assert(y == pp);
                }
            }
        }
        assert forall|a: usize, x: usize|
            #[trigger] dF.is_inclusive_ancestor(a, x) == ((d0.is_inclusive_ancestor(a, x) && (
                d0.is_inclusive_ancestor(o, x) ==> d0.is_inclusive_ancestor(o, a)) && (
                d0.is_inclusive_ancestor(n, x) ==> d0.is_inclusive_ancestor(n, a))) || (
            d0.is_inclusive_ancestor(n, x) && d0.is_inclusive_ancestor(a, p))) by {
            assert(dO.is_inclusive_ancestor(a, x) == (d0.is_inclusive_ancestor(a, x) && (
                d0.is_inclusive_ancestor(o, x) ==> d0.is_inclusive_ancestor(o, a))));
            assert(dO.is_inclusive_ancestor(n, x) == (d0.is_inclusive_ancestor(n, x) && (
                d0.is_inclusive_ancestor(o, x) ==> d0.is_inclusive_ancestor(o, n))));
            assert(dO.is_inclusive_ancestor(n, a) == (d0.is_inclusive_ancestor(n, a) && (
                d0.is_inclusive_ancestor(o, a) ==> d0.is_inclusive_ancestor(o, n))));
            assert(dO.is_inclusive_ancestor(a, p) == (d0.is_inclusive_ancestor(a, p) && (
                d0.is_inclusive_ancestor(o, p) ==> d0.is_inclusive_ancestor(o, a))));
            assert(reaches(pm0, r0, x, n) ==> !reaches(pm0, r0, x, o));
            assert(reaches(pm0, r0, a, n) ==> !reaches(pm0, r0, a, o));
        }
    }
}

impl Document {
    /// Puts `new_child_id` in the place of `old_child_id` among the children
    /// of `parent_id`; the old child is cut loose (not deleted). A new child
    /// already under `parent_id` first leaves its own place, wherever it
    /// stood; replacing a child by itself changes nothing.
    #[verifier::rlimit(90)]
    #[verifier::spinoff_prover]
    pub fn replace_child(&mut self, parent_id: usize, new_child_id: usize, old_child_id: usize) -> (r: Result<(), DomError>)
        requires
            old(self).wf(),
        ensures
            final(self).wf(),
            final(self).root_id() == old(self).root_id(),
            final(self).same_ids(old(self)),
            final(self).removed_ids() == old(self).removed_ids(),
            r == replace_check(*old(self), parent_id, new_child_id, old_child_id),
            r is Err || new_child_id == old_child_id ==> *final(self) == *old(self),
            r is Ok && new_child_id != old_child_id && !shadow_of(*old(self), parent_id, new_child_id) ==> final(self).replaced(
                old(self),
                parent_id,
                new_child_id,
                old_child_id,
            ),
            r is Ok && new_child_id != old_child_id && shadow_of(*old(self), parent_id, new_child_id) ==> exists|dU: Document|
                #[trigger] dU.unshadowed(old(self), parent_id, new_child_id) && final(self).replaced(
                    &dU,
                    parent_id,
                    new_child_id,
                    old_child_id,
                ),
    {
        if !arena_contains(&self.nodes, parent_id) {
            return Err(DomError::InvalidParent);
        }
        if !arena_contains(&self.nodes, new_child_id) {
            return Err(DomError::InvalidChild);
        }
        if !arena_contains(&self.nodes, old_child_id) {
            return Err(DomError::InvalidChild);
        }
        let old_parent = match arena_get(&self.nodes, old_child_id) {
            Some(n) => n.parent,
            None => None,
        };
        let old_ok = match old_parent {
            Some(q) => q == parent_id,
            None => false,
        };
        if !old_ok {
            return Err(DomError::InvalidChild);
        }
        if self.is_shadow_root_of(parent_id, old_child_id) {
            return Err(DomError::InvalidChild);
        }
        if new_child_id == parent_id {
            proof {
                assert(reaches(parent_map(self.nodes()), self.rank@, parent_id, new_child_id));
            }
            return Err(DomError::CycleDetected);
        }
        if self.is_ancestor_or_self(new_child_id, parent_id) {
            return Err(DomError::CycleDetected);
        }
        let new_parent = match arena_get(&self.nodes, new_child_id) {
            Some(n) => n.parent,
            None => None,
        };
        let same_parent = match new_parent {
            Some(q) => q == parent_id,
            None => false,
        };
        if new_parent.is_some() && !same_parent {
            return Err(DomError::ChildAlreadyHasParent);
        }
        if new_child_id == old_child_id {
            return Ok(());
        }
        let ghost mut base = *self;
        let mut same_parent = same_parent;
        if same_parent && self.is_shadow_root_of(parent_id, new_child_id) {
            self.unshadow(parent_id, new_child_id);
            proof {
                base = *self;
                assert(!base.is_inclusive_ancestor(new_child_id, parent_id));
                assert(base.nodes()[old_child_id].parent == Some(parent_id));
                assert(replace_check(base, parent_id, new_child_id, old_child_id) is Ok);
            }
            same_parent = false;
        } else {
            proof {
                reveal(shadow_link_ok);
                assert(!shadow_of(*old(self), parent_id, new_child_id));
            }
        }
        let ghost m0 = self.nodes();
        proof {
            reveal(parent_link_ok);
            assert(!is_shadow_child(base.nodes(), new_child_id));
            assert(m0[parent_id].children@.contains(old_child_id));
            if same_parent {
                assert(m0[parent_id].children@.contains(new_child_id));
            }
        }
        let pos = match position_of(&arena_get(&self.nodes, parent_id).unwrap().children, old_child_id) {
            Some(i) => i,
            None => 0,
        };
        // Where the old child stands once the new one has left its place.
        let new_pos = if same_parent {
            match position_of(&arena_get(&self.nodes, parent_id).unwrap().children, new_child_id) {
                Some(i) => i,
                None => pos,
            }
        } else {
            pos
        };
        let target = if same_parent && new_pos < pos {
            pos - 1
        } else {
            pos
        };
        proof {
            reveal(ids_ok);
            let c0 = m0[parent_id].children@;
            lemma_index_of_unique(c0, old_child_id, pos as int);
            if same_parent {
                lemma_index_of_unique(c0, new_child_id, new_pos as int);
            } else {
                reveal(children_link_ok);
                if c0.contains(new_child_id) {
                    let k = c0.index_of(new_child_id);
                    assert(m0[c0[k]].parent == Some(parent_id));
                }
            }
            assert(target as int == shifted_pos(c0, new_child_id, pos as int));
            lemma_replace_kids(c0, new_child_id, old_child_id, pos as int);
        }
        self.detach_child(old_child_id);
        let ghost dO = *self;
        proof {
            Document::lemma_replace_mid(base, dO, parent_id, new_child_id, old_child_id, pos as int);
        }
        if same_parent {
            self.detach_child(new_child_id);
        }
        let ghost dD = *self;
        let ghost mD = self.nodes();
        proof {
            assert(mD.contains_key(new_child_id) && mD.contains_key(parent_id));
            assert(mD[new_child_id].parent is None);
            if same_parent {
                assert(mD[parent_id].children@ == without(dO.nodes()[parent_id].children@, new_child_id));
            } else {
                lemma_without_absent(dO.nodes()[parent_id].children@, new_child_id);
            }
        }
        proof {
            assert(!dD.is_inclusive_ancestor(new_child_id, parent_id)) by {
                if same_parent {
                    assert(dD.is_inclusive_ancestor(new_child_id, parent_id) == (dO.is_inclusive_ancestor(new_child_id, parent_id)
                        && (dO.is_inclusive_ancestor(new_child_id, parent_id) ==> dO.is_inclusive_ancestor(new_child_id, new_child_id))));
                }
            }
        }
        let steps = self.attach_at(parent_id, new_child_id, target);
        let ghost m2 = steps@.0;
        let ghost d3 = steps@.1;
        proof {
            Document::lemma_attach_post(dO, dD, m2, d3, *self, parent_id, new_child_id, target as int);
            Document::lemma_replace_compose(base, dO, *self, parent_id, new_child_id, old_child_id, pos as int,
                mD[parent_id].children@.insert(target as int, new_child_id));
            if shadow_of(*old(self), parent_id, new_child_id) {
                assert(base.unshadowed(old(self), parent_id, new_child_id) && self.replaced(&base, parent_id, new_child_id, old_child_id));
            }
        }
        Ok(())
    }
}

/// The links are well formed and ranked below `bound`.
pub open spec fn tree_ok(m: Map<usize, DomNode>, rank: Map<usize, nat>, bound: nat) -> bool {
    links_ok(m) && rank_ok(parent_map(m), rank, bound)
}

/// The subtree of `x` (shadow tree included) in the order a stack walk
/// visits it: `x`, then its shadow tree, then its children from last to
/// first.
pub open spec fn subtree_order(m: Map<usize, DomNode>, rank: Map<usize, nat>, bound: nat, x: usize) -> Seq<usize>
    decreases bound - rank[x], m[x].children@.len() + 1,
    when tree_ok(m, rank, bound) && m.contains_key(x)
{
    proof {
        reveal(shadow_link_ok);
        assert(parent_map(m).contains_key(x));
        if m[x].shadow_root_id is Some {
            assert(parent_map(m).contains_key(m[x].shadow_root_id->0));
        }
    }
    seq![x] + (if m[x].shadow_root_id is Some {
        subtree_order(m, rank, bound, m[x].shadow_root_id->0)
    } else {
        Seq::empty()
    }) + kids_order(m, rank, bound, x, m[x].children@.len())
}

/// The subtrees of the first `i` children of `x`, last child first.
pub open spec fn kids_order(m: Map<usize, DomNode>, rank: Map<usize, nat>, bound: nat, x: usize, i: nat) -> Seq<usize>
    decreases bound - rank[x], i,
    when tree_ok(m, rank, bound) && m.contains_key(x) && i <= m[x].children@.len()
{
    proof {
        reveal(children_link_ok);
        assert(parent_map(m).contains_key(x));
        if i > 0 {
            assert(parent_map(m).contains_key(m[x].children@[i - 1]));
        }
    }
    if i == 0 {
        Seq::empty()
    } else {
        subtree_order(m, rank, bound, m[x].children@[i - 1]) + kids_order(m, rank, bound, x, (i - 1) as nat)
    }
}

/// Two different nodes under the same parent have disjoint subtrees.
pub proof fn lemma_siblings_disjoint(m: Map<usize, DomNode>, rank: Map<usize, nat>, bound: nat, a: usize, b: usize, x: usize, y: usize)
    requires
        rank_ok(parent_map(m), rank, bound),
        m.contains_key(a),
        m.contains_key(b),
        m[a].parent == Some(x),
        m[b].parent == Some(x),
        a != b,
    ensures
        !(reaches(parent_map(m), rank, y, a) && reaches(parent_map(m), rank, y, b)),
{
    let pm = parent_map(m);
    if reaches(pm, rank, y, a) && reaches(pm, rank, y, b) {
        lemma_chain_linear(pm, rank, bound, y, a, b);
        assert(pm.contains_key(a) && pm[a] == Some(x));
        assert(pm.contains_key(b) && pm[b] == Some(x));
        if reaches(pm, rank, a, b) {
            assert(reaches(pm, rank, x, b));
            lemma_reaches_rank(pm, rank, bound, x, b);
        } else {
            assert(reaches(pm, rank, x, a));
            lemma_reaches_rank(pm, rank, bound, x, a);
        }
    }
}

/// A child of `x` is stored and has `x` as its parent.
pub proof fn lemma_child_link(m: Map<usize, DomNode>, x: usize, j: int)
    requires
        links_ok(m),
        m.contains_key(x),
        0 <= j < m[x].children@.len(),
    ensures
        m.contains_key(m[x].children@[j]),
        m[m[x].children@[j]].parent == Some(x),
        parent_map(m).contains_key(m[x].children@[j]),
        parent_map(m)[m[x].children@[j]] == Some(x),
{
    reveal(children_link_ok);
}

/// The shadow root of `x` is stored, has `x` as its parent and is none of
/// its children.
pub proof fn lemma_shadow_link(m: Map<usize, DomNode>, x: usize)
    requires
        links_ok(m),
        m.contains_key(x),
        m[x].shadow_root_id is Some,
    ensures
        m.contains_key(m[x].shadow_root_id->0),
        m[m[x].shadow_root_id->0].parent == Some(x),
        parent_map(m).contains_key(m[x].shadow_root_id->0),
        parent_map(m)[m[x].shadow_root_id->0] == Some(x),
        !m[x].children@.contains(m[x].shadow_root_id->0),
{
    reveal(shadow_link_ok);
}

/// The stack walk from `x` visits each node of the subtree of `x` once and
/// nothing else.
#[verifier::rlimit(30)]
pub proof fn lemma_subtree_order(m: Map<usize, DomNode>, rank: Map<usize, nat>, bound: nat, x: usize)
    requires
        tree_ok(m, rank, bound),
        m.contains_key(x),
    ensures
        subtree_order(m, rank, bound, x).no_duplicates(),
        forall|y: usize|
            #[trigger] subtree_order(m, rank, bound, x).contains(y) <==> (m.contains_key(y) && reaches(
                parent_map(m),
                rank,
                y,
                x,
            )),
    decreases bound - rank[x], m[x].children@.len() + 1,
{
    broadcast use vstd::seq_lib::lemma_seq_concat_contains_all_elements;
    let pm = parent_map(m);
    assert(pm.contains_key(x));
    let kids = m[x].children@;
    let has_shadow = m[x].shadow_root_id is Some;
    let s = m[x].shadow_root_id->0;
    let sh = if has_shadow {
        subtree_order(m, rank, bound, s)
    } else {
        Seq::<usize>::empty()
    };
    let k = kids_order(m, rank, bound, x, kids.len());
    let o = subtree_order(m, rank, bound, x);
    assert(o == seq![x] + sh + k) by {
        reveal(shadow_link_ok);
        reveal(children_link_ok);
    }
    if has_shadow {
        lemma_shadow_link(m, x);
        lemma_subtree_order(m, rank, bound, s);
    }
    lemma_kids_order(m, rank, bound, x, kids.len());
    // x is in neither part.
    assert forall|y: usize| sh.contains(y) implies y != x by {
        if y == x {
            lemma_reaches_rank(pm, rank, bound, x, s);
        }
    }
    assert forall|y: usize| k.contains(y) implies y != x by {
        if y == x {
            let j = choose|j: int| 0 <= j < kids.len() && m.contains_key(y) && reaches(pm, rank, y, #[trigger] kids[j]);
            lemma_child_link(m, x, j);
            lemma_reaches_rank(pm, rank, bound, x, kids[j]);
        }
    }
    // The shadow tree and the children's subtrees are disjoint.
    assert forall|y: usize| sh.contains(y) implies !k.contains(y) by {
        if k.contains(y) {
            let j = choose|j: int| 0 <= j < kids.len() && m.contains_key(y) && reaches(pm, rank, y, #[trigger] kids[j]);
            lemma_child_link(m, x, j);
            assert(kids.contains(kids[j]));
            lemma_siblings_disjoint(m, rank, bound, s, kids[j], x, y);
        }
    }
    let xs = seq![x];
    assert forall|y: usize| #[trigger] xs.contains(y) <==> y == x by {
        if y == x {
            assert(xs[0] == y);
        }
    }
    assert forall|i: int, j: int| 0 <= i < xs.len() && 0 <= j < sh.len() implies xs[i] != sh[j] by {
        assert(sh.contains(sh[j]));
    }
    vstd::seq_lib::lemma_no_dup_in_concat(xs, sh);
    assert forall|i: int, j: int| 0 <= i < (xs + sh).len() && 0 <= j < k.len() implies (xs + sh)[i] != k[j] by {
        assert(k.contains(k[j]));
        if i >= 1 {
            assert(sh.contains(sh[i - 1]));
        }
    }
    vstd::seq_lib::lemma_no_dup_in_concat(xs + sh, k);
    assert forall|y: usize| #[trigger] o.contains(y) <==> (m.contains_key(y) && reaches(pm, rank, y, x)) by {
        if sh.contains(y) {
            lemma_reaches_from_child(m, rank, bound, x, s, y);
        }
        if k.contains(y) {
            let j = choose|j: int| 0 <= j < kids.len() && m.contains_key(y) && reaches(pm, rank, y, #[trigger] kids[j]);
            lemma_child_link(m, x, j);
            lemma_reaches_from_child(m, rank, bound, x, kids[j], y);
        }
        if m.contains_key(y) && reaches(pm, rank, y, x) && y != x {
            reveal(parent_link_ok);
            lemma_reaches_child(m, rank, bound, x, y);
        }
    }
}

/// The walks over the first `i` children of `x` visit each node of their
/// subtrees once and nothing else.
pub proof fn lemma_kids_order(m: Map<usize, DomNode>, rank: Map<usize, nat>, bound: nat, x: usize, i: nat)
    requires
        tree_ok(m, rank, bound),
        m.contains_key(x),
        i <= m[x].children@.len(),
    ensures
        kids_order(m, rank, bound, x, i).no_duplicates(),
        forall|y: usize|
            #[trigger] kids_order(m, rank, bound, x, i).contains(y) <==> exists|j: int|
                0 <= j < i && m.contains_key(y) && reaches(parent_map(m), rank, y, #[trigger] m[x].children@[j]),
    decreases bound - rank[x], i,
{
    broadcast use vstd::seq_lib::lemma_seq_concat_contains_all_elements;
    let pm = parent_map(m);
    let kids = m[x].children@;
    reveal(children_link_ok);
    reveal(ids_ok);
    assert(pm.contains_key(x));
    if i > 0 {
        let c = kids[i - 1];
        assert(m.contains_key(c) && m[c].parent == Some(x));
        assert(pm.contains_key(c));
        lemma_subtree_order(m, rank, bound, c);
        lemma_kids_order(m, rank, bound, x, (i - 1) as nat);
        let a = subtree_order(m, rank, bound, c);
        let b = kids_order(m, rank, bound, x, (i - 1) as nat);
        assert(kids_order(m, rank, bound, x, i) == a + b);
        assert forall|p: int, q: int| 0 <= p < a.len() && 0 <= q < b.len() implies a[p] != b[q] by {
            assert(a.contains(a[p]));
            assert(b.contains(b[q]));
            if a[p] == b[q] {
                let y = a[p];
                let j = choose|j: int| 0 <= j < i - 1 && m.contains_key(y) && reaches(pm, rank, y, #[trigger] kids[j]);
                assert(m.contains_key(kids[j]) && m[kids[j]].parent == Some(x));
                assert(kids[j] != c);
                lemma_siblings_disjoint(m, rank, bound, c, kids[j], x, y);
            }
        }
        vstd::seq_lib::lemma_no_dup_in_concat(a, b);
        assert forall|y: usize| #[trigger] (a + b).contains(y) <==> exists|j: int|
            0 <= j < i && m.contains_key(y) && reaches(pm, rank, y, #[trigger] kids[j]) by {
            if exists|j: int| 0 <= j < i && m.contains_key(y) && reaches(pm, rank, y, #[trigger] kids[j]) {
                let j = choose|j: int| 0 <= j < i && m.contains_key(y) && reaches(pm, rank, y, #[trigger] kids[j]);
                if j < i - 1 {
                    assert(b.contains(y));
                }
            }
        }
    }
}

/// Dropping the subtree of the parentless `x` from the arena keeps the
/// links, ranks and flags well formed and leaves ancestry among the
/// remaining nodes unchanged.
pub proof fn lemma_prune(m: Map<usize, DomNode>, m2: Map<usize, DomNode>, rank: Map<usize, nat>, bound: nat, root: usize, x: usize)
    requires
        tree_ok(m, rank, bound),
        flags_ok(m, root),
        m.contains_key(x),
        m[x].parent is None,
        forall|y: usize| #[trigger] m2.contains_key(y) <==> (m.contains_key(y) && !reaches(parent_map(m), rank, y, x)),
        forall|y: usize| #[trigger] m2.contains_key(y) ==> m2[y] == m[y],
    ensures
        links_ok(m2),
        rank_ok(parent_map(m2), rank, bound),
        flags_ok(m2, root),
        forall|y: usize, a: usize|
            m2.contains_key(y) ==> #[trigger] reaches(parent_map(m2), rank, y, a) == reaches(parent_map(m), rank, y, a),
{
    let pm = parent_map(m);
    let pm2 = parent_map(m2);
    reveal(children_link_ok);
    reveal(ids_ok);
    reveal(parent_link_ok);
    reveal(shadow_link_ok);
    assert forall|q: usize, i: int|
        #![trigger m2[q].children@[i]]
        m2.contains_key(q) && 0 <= i < m2[q].children@.len() implies m2.contains_key(m2[q].children@[i])
            && m2[m2[q].children@[i]].parent == Some(q) by {
        let c = m[q].children@[i];
        assert(m.contains_key(c) && m[c].parent == Some(q));
        assert(pm.contains_key(c) && pm[c] == Some(q));
        if reaches(pm, rank, c, x) {
            assert(c != x);
            assert(reaches(pm, rank, q, x));
        }
    }
    assert forall|n: usize|
        #[trigger] m2.contains_key(n) && m2[n].parent is Some implies m2.contains_key(m2[n].parent->0) && (
        m2[m2[n].parent->0].children@.contains(n) || m2[m2[n].parent->0].shadow_root_id == Some(n)) by {
        let q = m[n].parent->0;
        assert(m.contains_key(q));
        assert(pm.contains_key(n) && pm[n] == Some(q));
        if reaches(pm, rank, q, x) {
            assert(reaches(pm, rank, n, x));
        }
    }
    assert forall|h: usize|
        #[trigger] m2.contains_key(h) && m2[h].shadow_root_id is Some implies m2.contains_key(
            m2[h].shadow_root_id->0,
        ) && m2[m2[h].shadow_root_id->0].parent == Some(h) && !m2[h].children@.contains(
            m2[h].shadow_root_id->0,
        ) by {
        let sr = m[h].shadow_root_id->0;
        assert(m.contains_key(sr) && m[sr].parent == Some(h));
        assert(pm.contains_key(sr) && pm[sr] == Some(h));
        if reaches(pm, rank, sr, x) {
            assert(sr != x);
            assert(reaches(pm, rank, h, x));
        }
    }
    assert forall|p: usize| #[trigger] m2.contains_key(p) implies m2[p].children@.no_duplicates() && m2[p].id == p by {
        assert(m.contains_key(p));
    }
    assert forall|n: usize| #[trigger] pm2.contains_key(n) implies rank.contains_key(n) && rank[n] < bound && (pm2[n] is Some
        ==> pm2.contains_key(pm2[n]->0) && rank[pm2[n]->0] < rank[n]) by {
        assert(pm.contains_key(n));
        if pm2[n] is Some {
            assert(m2[n].parent is Some);
        }
    }
    assert forall|n: usize| #[trigger] m2.contains_key(n) && n != root implies (m2[n].in_document == (m2[n].parent is Some
        && m2[m2[n].parent->0].in_document)) by {
        assert(m.contains_key(n));
        if m[n].parent is Some {
            assert(m2.contains_key(m2[n].parent->0));
        }
    }
    assert forall|y: usize, a: usize| m2.contains_key(y) implies #[trigger] reaches(pm2, rank, y, a) == reaches(pm, rank, y, a) by {
        lemma_prune_reaches(m, m2, rank, bound, x, y, a);
    }
}

proof fn lemma_prune_reaches(m: Map<usize, DomNode>, m2: Map<usize, DomNode>, rank: Map<usize, nat>, bound: nat, x: usize, y: usize, a: usize)
    requires
        rank_ok(parent_map(m), rank, bound),
        rank_ok(parent_map(m2), rank, bound),
        forall|y: usize| #[trigger] m2.contains_key(y) ==> m2[y] == m[y] && m.contains_key(y),
        forall|n: usize| #[trigger] m2.contains_key(n) && m2[n].parent is Some ==> m2.contains_key(m2[n].parent->0),
        m2.contains_key(y),
    ensures
        reaches(parent_map(m2), rank, y, a) == reaches(parent_map(m), rank, y, a),
    decreases rank[y],
{
    let pm = parent_map(m);
    let pm2 = parent_map(m2);
    assert(pm2.contains_key(y) && pm.contains_key(y));
    assert(pm2[y] == pm[y]);
    if y != a && pm[y] is Some {
        lemma_prune_reaches(m, m2, rank, bound, x, pm[y]->0, a);
    }
}

/// The stack-walk order below `x` depends only on the child lists and shadow
/// roots of the nodes there: two trees that agree on those nodes walk it
/// alike.
proof fn lemma_subtree_order_frame(
    m0: Map<usize, DomNode>,
    r0: Map<usize, nat>,
    b0: nat,
    m1: Map<usize, DomNode>,
    r1: Map<usize, nat>,
    b1: nat,
    top: usize,
    x: usize,
)
    requires
        tree_ok(m0, r0, b0),
        tree_ok(m1, r1, b1),
        m1.dom() == m0.dom(),
        m0.contains_key(x),
        reaches(parent_map(m0), r0, x, top),
        forall|y: usize|
            #[trigger] m0.contains_key(y) && reaches(parent_map(m0), r0, y, top) ==> m1[y].children@ == m0[y].children@
                && m1[y].shadow_root_id == m0[y].shadow_root_id,
    ensures
        subtree_order(m1, r1, b1, x) == subtree_order(m0, r0, b0, x),
    decreases b0 - r0[x], m0[x].children@.len() + 1,
{
    let pm0 = parent_map(m0);
    assert(pm0.contains_key(x));
    assert(parent_map(m1).contains_key(x));
    assert(subtree_order(m0, r0, b0, x) == seq![x] + (if m0[x].shadow_root_id is Some {
        subtree_order(m0, r0, b0, m0[x].shadow_root_id->0)
    } else {
        Seq::empty()
    }) + kids_order(m0, r0, b0, x, m0[x].children@.len())) by {
        reveal(shadow_link_ok);
        reveal(children_link_ok);
    }
    assert(subtree_order(m1, r1, b1, x) == seq![x] + (if m1[x].shadow_root_id is Some {
        subtree_order(m1, r1, b1, m1[x].shadow_root_id->0)
    } else {
        Seq::empty()
    }) + kids_order(m1, r1, b1, x, m1[x].children@.len())) by {
        reveal(shadow_link_ok);
        reveal(children_link_ok);
    }
    if m0[x].shadow_root_id is Some {
        let s = m0[x].shadow_root_id->0;
        lemma_shadow_link(m0, x);
        assert(pm0.contains_key(s) && pm0[s] == Some(x));
        assert(reaches(pm0, r0, s, top));
        lemma_subtree_order_frame(m0, r0, b0, m1, r1, b1, top, s);
    }
    lemma_kids_order_frame(m0, r0, b0, m1, r1, b1, top, x, m0[x].children@.len());
}

/// The children part of [`lemma_subtree_order_frame`].
proof fn lemma_kids_order_frame(
    m0: Map<usize, DomNode>,
    r0: Map<usize, nat>,
    b0: nat,
    m1: Map<usize, DomNode>,
    r1: Map<usize, nat>,
    b1: nat,
    top: usize,
    x: usize,
    i: nat,
)
    requires
        tree_ok(m0, r0, b0),
        tree_ok(m1, r1, b1),
        m1.dom() == m0.dom(),
        m0.contains_key(x),
        reaches(parent_map(m0), r0, x, top),
        i <= m0[x].children@.len(),
        forall|y: usize|
            #[trigger] m0.contains_key(y) && reaches(parent_map(m0), r0, y, top) ==> m1[y].children@ == m0[y].children@
                && m1[y].shadow_root_id == m0[y].shadow_root_id,
    ensures
        kids_order(m1, r1, b1, x, i) == kids_order(m0, r0, b0, x, i),
    decreases b0 - r0[x], i,
{
    let pm0 = parent_map(m0);
    assert(pm0.contains_key(x));
    assert(parent_map(m1).contains_key(x));
    if i > 0 {
        let c = m0[x].children@[i - 1];
        lemma_child_link(m0, x, i - 1);
        lemma_child_link(m1, x, i - 1);
        assert(reaches(pm0, r0, c, top));
        assert(kids_order(m0, r0, b0, x, i) == subtree_order(m0, r0, b0, c) + kids_order(m0, r0, b0, x, (i - 1) as nat)) by {
            reveal(children_link_ok);
        }
        assert(kids_order(m1, r1, b1, x, i) == subtree_order(m1, r1, b1, c) + kids_order(m1, r1, b1, x, (i - 1) as nat)) by {
            reveal(children_link_ok);
        }
        lemma_subtree_order_frame(m0, r0, b0, m1, r1, b1, top, c);
        lemma_kids_order_frame(m0, r0, b0, m1, r1, b1, top, x, (i - 1) as nat);
    }
}

impl Document {
    /// Appends the subtree of `x` to `out`, in stack-walk order.
    fn collect_subtree(&self, x: usize, out: &mut Vec<usize>)
        requires
            self.wf_structure(),
            self.nodes().contains_key(x),
        ensures
            final(out)@ == old(out)@ + subtree_order(self.nodes(), self.rank@, self.bound@, x),
        decreases self.bound@ - self.rank@[x], self.nodes()[x].children@.len() + 1,
    {
        let ghost m = self.nodes();
        let ghost rank = self.rank@;
        let ghost bound = self.bound@;
        let ghost out0 = out@;
        proof {
            assert(parent_map(m).contains_key(x));
            assert(subtree_order(m, rank, bound, x) == seq![x] + (if m[x].shadow_root_id is Some {
                subtree_order(m, rank, bound, m[x].shadow_root_id->0)
            } else {
                Seq::empty()
            }) + kids_order(m, rank, bound, x, m[x].children@.len())) by {
                reveal(shadow_link_ok);
                reveal(children_link_ok);
            }
        }
        out.push(x);
        let node = arena_get(&self.nodes, x).unwrap();
        if let Some(s) = node.shadow_root_id {
            proof {
                lemma_shadow_link(m, x);
            }
            self.collect_subtree(s, out);
        }
        let ghost mid = out@;
        let mut i = node.children.len();
        while i > 0
            invariant
                self.wf_structure(),
                m == self.nodes(),
                rank == self.rank@,
                bound == self.bound@,
                m.contains_key(x),
                *node == m[x],
                i <= m[x].children@.len(),
                out@ + kids_order(m, rank, bound, x, i as nat) == mid + kids_order(m, rank, bound, x, m[x].children@.len()),
            decreases i,
        {
            let c = node.children[i - 1];
            proof {
                lemma_child_link(m, x, i - 1);
                assert(parent_map(m).contains_key(x));
                assert(kids_order(m, rank, bound, x, i as nat) == subtree_order(m, rank, bound, c) + kids_order(m, rank, bound, x, (i - 1) as nat)) by {
                    reveal(children_link_ok);
                }
            }
            let ghost before = out@;
            self.collect_subtree(c, out);
            proof {
                assert(out@ + kids_order(m, rank, bound, x, (i - 1) as nat) =~= before + kids_order(m, rank, bound, x, i as nat));
            }
            i = i - 1;
        }
        proof {
            assert(kids_order(m, rank, bound, x, 0) =~= Seq::<usize>::empty());
            assert(out@ =~= out0 + subtree_order(m, rank, bound, x));
        }
    }
}

impl Document {
    /// `self` is `old` after deleting `x` and its subtree (shadow trees
    /// included): `x` is cut from its parent, which is marked dirty with its
    /// ancestors, the subtree leaves the arena, and its ids are recorded as
    /// removed, each once.
    pub open spec fn pruned(&self, old: &Document, x: usize) -> bool {
        let m0 = old.nodes();
        let m = self.nodes();
        let had_parent = m0[x].parent is Some;
        let p = m0[x].parent->0;
        let n0 = old.removed_ids().len();
        let added = self.removed_ids().subrange(n0 as int, self.removed_ids().len() as int);
        &&& forall|y: usize| #[trigger] m.contains_key(y) <==> (m0.contains_key(y) && !old.is_inclusive_ancestor(x, y))
        &&& forall|y: usize|
            #[trigger] m.contains_key(y) ==> {
                &&& same_payload(m[y], m0[y])
                &&& m[y].parent == m0[y].parent
                &&& m[y].children@ == if had_parent && y == p { without(m0[p].children@, x) } else { m0[y].children@ }
                &&& m[y].in_document == m0[y].in_document
                &&& m[y].dirty_descendants == (m0[y].dirty_descendants || (had_parent && dirty_marked(m0, old.ranks(), p, y)))
            }
        &&& forall|a: usize, y: usize| m.contains_key(y) ==> #[trigger] self.is_inclusive_ancestor(a, y) == old.is_inclusive_ancestor(a, y)
        &&& self.removed_ids().len() >= n0
        &&& self.removed_ids().subrange(0, n0 as int) == old.removed_ids()
        &&& added == subtree_order(m0, old.ranks(), old.rank_bound(), x)
        &&& added.no_duplicates()
        &&& forall|y: usize| #[trigger] added.contains(y) <==> (m0.contains_key(y) && old.is_inclusive_ancestor(x, y))
    }

    /// Deletes `id` and everything below it (shadow trees included) from the
    /// arena, recording the removed ids. Fails if `id` does not exist. A
    /// shadow root is first cut from its host.
    #[verifier::rlimit(40)]
    #[verifier::spinoff_prover]
    pub fn remove_node(&mut self, id: usize) -> (r: Result<(), DomError>)
        requires
            old(self).wf(),
        ensures
            final(self).wf(),
            final(self).root_id() == old(self).root_id(),
            r is Err <==> !old(self).nodes().contains_key(id),
            r is Err ==> r == Err::<(), DomError>(DomError::InvalidChild) && *final(self) == *old(self),
            r is Ok && !is_shadow_child(old(self).nodes(), id) ==> final(self).pruned(old(self), id),
            r is Ok && is_shadow_child(old(self).nodes(), id) ==> exists|dU: Document|
                #[trigger] dU.unshadowed(old(self), old(self).nodes()[id].parent->0, id) && final(self).pruned(&dU, id),
        decreases (if is_shadow_child(old(self).nodes(), id) { 1nat } else { 0nat }),
    {
        if !arena_contains(&self.nodes, id) {
            return Err(DomError::InvalidChild);
        }
        let parent = match arena_get(&self.nodes, id) {
            Some(n) => n.parent,
            None => None,
        };
        if let Some(h) = parent {
            proof {
                reveal(parent_link_ok);
            }
            if self.is_shadow_root_of(h, id) {
                self.unshadow(h, id);
                let ghost dU = *self;
                let r = self.remove_node(id);
                proof {
                    assert(dU.unshadowed(old(self), h, id) && self.pruned(&dU, id));
                }
                return r;
            }
        }
        proof {
            reveal(shadow_link_ok);
            assert(!is_shadow_child(old(self).nodes(), id));
        }
        self.detach_child(id);
        let ghost dD = *self;
        let ghost mD = self.nodes();
        let ghost pmD = parent_map(mD);
        let ghost rank = self.rank@;
        let ghost bound = self.bound@;
        let mut to_remove: Vec<usize> = Vec::new();
        self.collect_subtree(id, &mut to_remove);
        proof {
            assert(to_remove@ =~= subtree_order(mD, rank, bound, id));
            lemma_subtree_order(mD, rank, bound, id);
        }
        let mut i: usize = 0;
        while i < to_remove.len()
            invariant
                i <= to_remove@.len(),
                to_remove@.no_duplicates(),
                forall|y: usize| #[trigger] to_remove@.contains(y) ==> mD.contains_key(y),
                forall|y: usize|
                    #[trigger] self.nodes().contains_key(y) <==> (mD.contains_key(y) && !to_remove@.subrange(0, i as int).contains(y)),
                forall|y: usize| #[trigger] self.nodes().contains_key(y) ==> self.nodes()[y] == mD[y],
                self.removed@ == dD.removed@ + to_remove@.subrange(0, i as int),
                self.rank@ == rank,
                self.bound@ == bound,
                self.root == dD.root,
            decreases to_remove@.len() - i,
        {
            let nid = to_remove[i];
            proof {
                assert(to_remove@.contains(nid));
                assert(!to_remove@.subrange(0, i as int).contains(nid)) by {
                    if to_remove@.subrange(0, i as int).contains(nid) {
                        let k = choose|k: int| 0 <= k < i && to_remove@.subrange(0, i as int)[k] == nid;
                        assert(to_remove@[k] == to_remove@[i as int]);
                    }
                }
            }
            let ghost mb = self.nodes();
            if arena_contains(&self.nodes, nid) {
                arena_remove(&mut self.nodes, nid);
                self.removed.push(nid);
            }
            proof {
                assert(self.nodes() == mb.remove(nid));
                let pre = to_remove@.subrange(0, i as int);
                let pre1 = to_remove@.subrange(0, i + 1);
                assert(pre1 =~= pre.push(nid));
                assert forall|y: usize| #[trigger] pre1.contains(y) <==> (pre.contains(y) || y == nid) by {
                    if pre1.contains(y) && y != nid {
                        let k = choose|k: int| 0 <= k < pre1.len() && pre1[k] == y;
                        assert(pre[k] == y);
                    }
                    if y == nid {
                        assert(pre1[i as int] == y);
                    }
                }
                assert forall|y: usize| #[trigger] self.nodes().contains_key(y) <==> (mD.contains_key(y) && !pre1.contains(y)) by {
                    assert(mb.contains_key(y) <==> (mD.contains_key(y) && !pre.contains(y)));
                }
                assert forall|y: usize| #[trigger] self.nodes().contains_key(y) implies self.nodes()[y] == mD[y] by {
                    assert(mb.contains_key(y));
                }
            }
            i = i + 1;
        }
        proof {
            assert(to_remove@.subrange(0, i as int) =~= to_remove@);
            let m = self.nodes();
            assert(dD.wf());
            assert(mD[id].parent is None);
            lemma_prune(mD, m, rank, bound, dD.root, id);
            assert(m.dom().finite()) by {
                assert(m.dom().subset_of(mD.dom()));
                vstd::set_lib::lemma_set_subset_finite(mD.dom(), m.dom());
            }
            Document::lemma_remove_post(*old(self), dD, *self, id);
        }
        Ok(())
    }

    /// The facts `remove_node` establishes, from the states it passes through.
    proof fn lemma_remove_post(d0: Document, dD: Document, dF: Document, x: usize)
        requires
            d0.wf(),
            d0.nodes().contains_key(x),
            dD.wf(),
            dD.root == d0.root,
            dD.nodes().dom() == d0.nodes().dom(),
            d0.nodes()[x].parent is Some ==> dD.detached_from(&d0, x),
            d0.nodes()[x].parent is None ==> dD == d0,
            dF.rank@ == dD.rank@,
            forall|y: usize| #[trigger] dF.nodes().contains_key(y) <==> (dD.nodes().contains_key(y) && !dD.is_inclusive_ancestor(x, y)),
            forall|y: usize| #[trigger] dF.nodes().contains_key(y) ==> dF.nodes()[y] == dD.nodes()[y],
            forall|y: usize, a: usize|
                dF.nodes().contains_key(y) ==> #[trigger] reaches(parent_map(dF.nodes()), dF.rank@, y, a) == reaches(parent_map(dD.nodes()), dD.rank@, y, a),
            dF.removed@ == dD.removed@ + subtree_order(dD.nodes(), dD.rank@, dD.bound@, x),
            dD.removed@ == d0.removed@,
            subtree_order(dD.nodes(), dD.rank@, dD.bound@, x).no_duplicates(),
            forall|y: usize|
                #[trigger] subtree_order(dD.nodes(), dD.rank@, dD.bound@, x).contains(y) <==> (dD.nodes().contains_key(y)
                    && reaches(parent_map(dD.nodes()), dD.rank@, y, x)),
        ensures
            dF.pruned(&d0, x),
    {
        let m0 = d0.nodes();
        let mD = dD.nodes();
        let mF = dF.nodes();
        let was = m0[x].parent is Some;
        assert forall|y: usize| #[trigger] dD.is_inclusive_ancestor(x, y) == d0.is_inclusive_ancestor(x, y) by {
            if was {
                assert(dD.is_inclusive_ancestor(x, y) == (d0.is_inclusive_ancestor(x, y) && (
                    d0.is_inclusive_ancestor(x, y) ==> d0.is_inclusive_ancestor(x, x))));
                assert(reaches(parent_map(m0), d0.rank@, x, x));
            }
        }
        assert forall|y: usize| #[trigger] mF.contains_key(y) implies {
            &&& same_payload(mF[y], m0[y])
            &&& mF[y].parent == m0[y].parent
            &&& mF[y].children@ == if was && y == m0[x].parent->0 { without(m0[m0[x].parent->0].children@, x) } else { m0[y].children@ }
            &&& mF[y].in_document == m0[y].in_document
            &&& mF[y].dirty_descendants == (m0[y].dirty_descendants || (was && dirty_marked(m0, d0.rank@, m0[x].parent->0, y)))
        } by {
            assert(mD.contains_key(y));
            assert(y != x) by {
                assert(reaches(parent_map(mD), dD.rank@, x, x));
            }
        }
        assert forall|a: usize, y: usize| mF.contains_key(y) implies #[trigger] dF.is_inclusive_ancestor(a, y) == d0.is_inclusive_ancestor(a, y) by {
            assert(dF.is_inclusive_ancestor(a, y) == dD.is_inclusive_ancestor(a, y));
            if was {
                assert(dD.is_inclusive_ancestor(a, y) == (d0.is_inclusive_ancestor(a, y) && (
                    d0.is_inclusive_ancestor(x, y) ==> d0.is_inclusive_ancestor(x, a))));
            }
        }
        let added = dF.removed@.subrange(d0.removed@.len() as int, dF.removed@.len() as int);
        assert(added =~= subtree_order(mD, dD.rank@, dD.bound@, x));
        assert(subtree_order(mD, dD.rank@, dD.bound@, x) == subtree_order(m0, d0.rank@, d0.bound@, x)) by {
            let pm0 = parent_map(m0);
            assert(reaches(pm0, d0.rank@, x, x));
            assert forall|y: usize| #[trigger] m0.contains_key(y) && reaches(pm0, d0.rank@, y, x) implies mD[y].children@
                == m0[y].children@ && mD[y].shadow_root_id == m0[y].shadow_root_id by {
                if was {
                    let p = m0[x].parent->0;
                    if y == p {
                        assert(pm0.contains_key(x) && pm0[x] == Some(p));
                        assert(reaches(pm0, d0.rank@, p, p));
                        assert(reaches(pm0, d0.rank@, x, p));
                        lemma_reaches_rank(pm0, d0.rank@, d0.bound@, x, p);
                        lemma_reaches_rank(pm0, d0.rank@, d0.bound@, y, x);
                    }
                }
            }
            lemma_subtree_order_frame(m0, d0.rank@, d0.bound@, mD, dD.rank@, dD.bound@, x, x);
        }
        assert(dF.removed@.subrange(0, d0.removed@.len() as int) =~= d0.removed@);
        assert forall|y: usize| #[trigger] mF.contains_key(y) <==> (m0.contains_key(y) && !d0.is_inclusive_ancestor(x, y)) by {
            assert(dD.is_inclusive_ancestor(x, y) == d0.is_inclusive_ancestor(x, y));
        }
        assert forall|y: usize| #[trigger] added.contains(y) <==> (m0.contains_key(y) && d0.is_inclusive_ancestor(x, y)) by {
            assert(dD.is_inclusive_ancestor(x, y) == d0.is_inclusive_ancestor(x, y));
            assert(subtree_order(mD, dD.rank@, dD.bound@, x).contains(y) <==> (mD.contains_key(y)
                && reaches(parent_map(mD), dD.rank@, y, x)));
        }
        assert(added.no_duplicates());
    }
}

/// The dirty walk over old nodes does not see a node added below them.
pub proof fn lemma_marks_up_extend(
    pm: Map<usize, Option<usize>>,
    dm: Map<usize, bool>,
    rank: Map<usize, nat>,
    bound: nat,
    pm2: Map<usize, Option<usize>>,
    dm2: Map<usize, bool>,
    rank2: Map<usize, nat>,
    bound2: nat,
    k: usize,
    p: usize,
    y: usize,
)
    requires
        rank_ok(pm, rank, bound),
        rank_ok(pm2, rank2, bound2),
        !pm.contains_key(k),
        pm2 == pm.insert(k, pm2[k]),
        forall|n: usize| #[trigger] pm.contains_key(n) ==> dm2[n] == dm[n],
        pm.contains_key(p),
    ensures
        marks_up(pm2, dm2, rank2, p, y) == marks_up(pm, dm, rank, p, y),
    decreases rank[p],
{
    if p != y && pm[p] is Some && !dm[p] {
        assert(pm2[p] == pm[p]);
        lemma_marks_up_extend(pm, dm, rank, bound, pm2, dm2, rank2, bound2, k, pm[p]->0, y);
    }
}

impl Document {
    /// `self` is `old` with the fresh shadow root `sr` (in `mode`) attached
    /// to `host`, which is marked dirty with its ancestors.
    pub open spec fn shadow_attached(&self, old: &Document, host: usize, sr: usize, mode: ShadowRootMode) -> bool {
        let m0 = old.nodes();
        let m = self.nodes();
        &&& !m0.contains_key(sr)
        &&& m.dom() == m0.dom().insert(sr)
        &&& forall|y: usize|
            #[trigger] m0.contains_key(y) ==> {
                &&& m[y].shadow_root_id == if y == host { Some(sr) } else { m0[y].shadow_root_id }
                &&& same_payload(DomNode { shadow_root_id: m0[y].shadow_root_id, ..m[y] }, m0[y])
                &&& m[y].parent == m0[y].parent
                &&& m[y].children == m0[y].children
                &&& m[y].in_document == m0[y].in_document
                &&& m[y].dirty_descendants == (m0[y].dirty_descendants || dirty_marked(m0, old.ranks(), host, y))
            }
        &&& m[sr].parent == Some(host)
        &&& m[sr].shadow_mode == Some(mode)
        &&& m[sr].in_document == m0[host].in_document
        &&& (DomNode { parent: None, shadow_mode: None, in_document: false, ..m[sr] }).is_fresh(sr, NodeType::ShadowRoot)
        &&& forall|a: usize, x: usize| m0.contains_key(x) ==> #[trigger] self.is_inclusive_ancestor(a, x) == old.is_inclusive_ancestor(a, x)
        &&& forall|a: usize| #[trigger] self.is_inclusive_ancestor(a, sr) == (a == sr || old.is_inclusive_ancestor(a, host))
    }
}

/// What `create_shadow_root` reports for the given host.
pub open spec fn shadow_check(d: Document, host: usize) -> Result<(), DomError> {
    if !d.nodes().contains_key(host) || d.nodes()[host].node_type != NodeType::Element {
        Err(DomError::InvalidParent)
    } else if d.nodes()[host].shadow_root_id is Some {
        Err(DomError::ShadowRootAlreadyExists)
    } else {
        Ok(())
    }
}

impl Document {
    /// Attaches a new shadow root in `mode` to the element `host_id` and
    /// returns its id. The shadow root hangs off the host without being one of
    /// its children.
    #[verifier::rlimit(40)]
    #[verifier::spinoff_prover]
    pub fn create_shadow_root(&mut self, host_id: usize, mode: ShadowRootMode) -> (r: Result<usize, DomError>)
        requires
            old(self).wf(),
        ensures
            final(self).wf(),
            final(self).root_id() == old(self).root_id(),
            final(self).removed_ids() == old(self).removed_ids(),
            match r {
                Ok(sr) => shadow_check(*old(self), host_id) is Ok && final(self).shadow_attached(old(self), host_id, sr, mode)
                    && sr == old(self).next_id()
                    && (old(self).is_dense() ==> final(self).is_dense() && final(self).next_id() == sr + 1),
                Err(e) => shadow_check(*old(self), host_id) == Err::<(), DomError>(e) && *final(self) == *old(self),
            },
    {
        let host = match arena_get(&self.nodes, host_id) {
            Some(h) => h,
            None => return Err(DomError::InvalidParent),
        };
        if !host.is_element() {
            return Err(DomError::InvalidParent);
        }
        if host.shadow_root_id.is_some() {
            return Err(DomError::ShadowRootAlreadyExists);
        }
        let host_in_doc = host.in_document;
        let ghost d0 = *self;
        let sr = self.create_node(NodeType::ShadowRoot);
        let ghost d1 = *self;
        let ghost m1 = self.nodes();
        let ghost r1 = self.rank@;
        let ghost b1 = self.bound@;
        let node = arena_get_mut(&mut self.nodes, sr);
        node.parent = Some(host_id);
        node.shadow_mode = Some(mode);
        if host_in_doc {
            node.in_document = true;
        }
        let h = arena_get_mut(&mut self.nodes, host_id);
        h.shadow_root_id = Some(sr);
        let ghost m2 = self.nodes();
        proof {
            let m0 = d0.nodes();
            let pm0 = parent_map(m0);
            let pm1 = parent_map(m1);
            let r0 = d0.rank@;
            assert(m0.contains_key(host_id));
            assert(host_id != sr);
            assert(d1.wf());
            assert(pm1.contains_key(host_id));
            self.rank@ = r1.insert(sr, r1[host_id] + 1);
            self.bound@ = b1 + 1;
            assert(m2.dom() =~= m0.dom().insert(sr));
            let pm2 = parent_map(m2);
            assert(pm2 =~= pm1.insert(sr, Some(host_id)));
            assert(m1[sr].children@.len() == 0 && m1[sr].shadow_root_id is None);
            assert forall|n: usize| #[trigger] pm1.contains_key(n) implies pm1[n] != Some(sr) by {
                reveal(parent_link_ok);
                if pm1[n] == Some(sr) {
                    assert(m1[n].parent == Some(sr));
                }
            }
            assert(links_ok(m2)) by {
                reveal(children_link_ok);
                reveal(ids_ok);
                reveal(parent_link_ok);
                reveal(shadow_link_ok);
                assert(m2[sr].children@ =~= Seq::<usize>::empty());
                assert forall|q: usize, i: int|
                    #![trigger m2[q].children@[i]]
                    m2.contains_key(q) && 0 <= i < m2[q].children@.len() implies m2.contains_key(m2[q].children@[i])
                        && m2[m2[q].children@[i]].parent == Some(q) by {
                    assert(q != sr);
                    assert(m0.contains_key(m0[q].children@[i]));
                    assert(m0[q].children@[i] != sr);
                }
                assert forall|n: usize|
                    #[trigger] m2.contains_key(n) && m2[n].parent is Some implies m2.contains_key(m2[n].parent->0) && (
                    m2[m2[n].parent->0].children@.contains(n) || m2[m2[n].parent->0].shadow_root_id == Some(n)) by {
                    if n != sr {
                        assert(m0.contains_key(m0[n].parent->0));
                        if m0[m0[n].parent->0].shadow_root_id == Some(n) {
                            assert(m0[n].parent->0 != host_id);
                        }
                    }
                }
                assert forall|p: usize| #[trigger] m2.contains_key(p) implies m2[p].children@.no_duplicates() && m2[p].id == p by {
                    if p != sr {
                        assert(m0.contains_key(p));
                    }
                }
                assert forall|hh: usize|
                    #[trigger] m2.contains_key(hh) && m2[hh].shadow_root_id is Some implies m2.contains_key(
                        m2[hh].shadow_root_id->0,
                    ) && m2[m2[hh].shadow_root_id->0].parent == Some(hh) && !m2[hh].children@.contains(
                        m2[hh].shadow_root_id->0,
                    ) by {
                    assert(hh != sr);
                    if hh == host_id {
                        if m2[hh].children@.contains(sr) {
                            let k = choose|k: int| 0 <= k < m0[hh].children@.len() && m0[hh].children@[k] == sr;
                            assert(m0.contains_key(m0[hh].children@[k]));
                        }
                    } else {
                        assert(m0.contains_key(m0[hh].shadow_root_id->0));
                        assert(m0[hh].shadow_root_id->0 != sr);
                    }
                }
            }
            assert(rank_ok(pm1, r1, b1));
            assert forall|n: usize| #[trigger] pm2.contains_key(n) implies self.rank@.contains_key(n) && self.rank@[n] < self.bound@ && (pm2[n] is Some
                ==> pm2.contains_key(pm2[n]->0) && self.rank@[pm2[n]->0] < self.rank@[n]) by {
                if n != sr {
                    assert(pm1.contains_key(n));
                    assert(pm2[n] == pm1[n]);
                    if pm1[n] is Some {
                        assert(pm1[n]->0 != sr);
                    }
                }
            }
            assert(rank_ok(pm2, self.rank@, self.bound@));
            assert(pm1 =~= pm0.insert(sr, None));
            assert(pm2 =~= pm0.insert(sr, Some(host_id)));
            assert forall|a: usize, x: usize| #[trigger] reaches(pm2, self.rank@, x, a) == (if x == sr { a == sr || reaches(pm1, r1, host_id, a) } else { reaches(pm1, r1, x, a) }) by {
                Document::lemma_reaches_leaf(pm1, r1, b1, pm2, self.rank@, self.bound@, sr, host_id, x, a);
            }
            assert(flags_ok(m2, self.root)) by {
                reveal(parent_link_ok);
                assert forall|n: usize| #[trigger] m2.contains_key(n) && n != self.root implies (m2[n].in_document == (m2[n].parent is Some
                    && m2[m2[n].parent->0].in_document)) by {
                    if n != sr {
                        assert(m0.contains_key(n));
                        if m0[n].parent is Some {
                            assert(m0.contains_key(m0[n].parent->0));
                        }
                    }
                }
            }
            assert forall|y: usize| #[trigger] dirty_marked(m2, self.rank@, host_id, y) == dirty_marked(m0, r0, host_id, y) by {
                if m0[host_id].parent is Some {
                    assert(pm0.contains_key(host_id));
                    assert(pm0.contains_key(m0[host_id].parent->0));
                    lemma_marks_up_extend(pm0, dirty_map(m0), r0, d0.bound@, pm2, dirty_map(m2), self.rank@, self.bound@, sr, m0[host_id].parent->0, y);
                    assert(pm2[host_id] == pm0[host_id]);
                }
            }
        }
        self.mark_dirty_and_ancestors(host_id);
        proof {
            let m0 = d0.nodes();
            let m = self.nodes();
            assert forall|y: usize| #[trigger] m0.contains_key(y) implies {
                &&& m[y].shadow_root_id == if y == host_id { Some(sr) } else { m0[y].shadow_root_id }
                &&& same_payload(DomNode { shadow_root_id: m0[y].shadow_root_id, ..m[y] }, m0[y])
                &&& m[y].parent == m0[y].parent
                &&& m[y].children == m0[y].children
                &&& m[y].in_document == m0[y].in_document
                &&& m[y].dirty_descendants == (m0[y].dirty_descendants || dirty_marked(m0, d0.rank@, host_id, y))
            } by {
                assert(m2.contains_key(y));
                assert(y != sr);
                assert(m1[y] == m0[y]);
            }
            assert(m2.contains_key(sr));
            assert(flags_ok(m, self.root)) by {
                reveal(parent_link_ok);
                assert forall|n: usize| #[trigger] m.contains_key(n) && n != self.root implies (m[n].in_document == (m[n].parent is Some
                    && m[m[n].parent->0].in_document)) by {
                    assert(m2.contains_key(n));
                    if m2[n].parent is Some {
                        assert(m2.contains_key(m2[n].parent->0));
                    }
                }
            }
        }
        Ok(sr)
    }

    /// Ancestry after hanging the childless, fresh `k` below `h`.
    proof fn lemma_reaches_leaf(
        pm: Map<usize, Option<usize>>,
        rank: Map<usize, nat>,
        bound: nat,
        pm2: Map<usize, Option<usize>>,
        rank2: Map<usize, nat>,
        bound2: nat,
        k: usize,
        h: usize,
        x: usize,
        a: usize,
    )
        requires
            rank_ok(pm, rank, bound),
            rank_ok(pm2, rank2, bound2),
            pm.contains_key(h),
            h != k,
            forall|n: usize| #[trigger] pm.contains_key(n) ==> pm[n] != Some(k),
            pm2 == pm.insert(k, Some(h)),
        ensures
            reaches(pm2, rank2, x, a) == (if x == k { a == k || reaches(pm, rank, h, a) } else { reaches(pm, rank, x, a) }),
        decreases rank2[x],
    {
        if x == k {
            if a != k {
                assert(pm2.contains_key(k) && pm2[k] == Some(h));
                Document::lemma_reaches_leaf(pm, rank, bound, pm2, rank2, bound2, k, h, h, a);
            }
        } else if x != a && pm.contains_key(x) && pm[x] is Some {
            assert(pm2[x] == pm[x]);
            assert(pm2.contains_key(x));
            Document::lemma_reaches_leaf(pm, rank, bound, pm2, rank2, bound2, k, h, pm[x]->0, a);
        } else if x != a && pm2.contains_key(x) {
            assert(pm2[x] == pm[x]);
        }
    }
}

// ── Shadow trees: flattening and slot assignment ──────────────────────

/// Every node's attribute names are distinct.
pub open spec fn attrs_ok(m: Map<usize, DomNode>) -> bool {
    forall|y: usize| #[trigger] m.contains_key(y) ==> attr_names_unique(m[y].attrs@)
}

/// What a child of a shadow root contributes to the flat tree: a slot its
/// assigned nodes (or its own children when none are assigned), any other
/// node itself.
pub open spec fn flat_piece(m: Map<usize, DomNode>, c: usize) -> Seq<usize> {
    if m[c].spec_is_slot() {
        if m[c].assigned_nodes@.len() == 0 {
            m[c].children@
        } else {
            m[c].assigned_nodes@
        }
    } else {
        seq![c]
    }
}

/// The flat-tree children produced by the shadow-root children `kids`.
pub open spec fn flatten_kids(m: Map<usize, DomNode>, kids: Seq<usize>) -> Seq<usize>
    decreases kids.len(),
{
    if kids.len() == 0 {
        Seq::empty()
    } else {
        flatten_kids(m, kids.drop_last()) + flat_piece(m, kids.last())
    }
}

/// The slots of the tree below and including `x`, in tree order, not
/// entering shadow trees.
pub open spec fn tree_slots(m: Map<usize, DomNode>, rank: Map<usize, nat>, bound: nat, x: usize) -> Seq<usize>
    decreases bound - rank[x], m[x].children@.len() + 1,
    when tree_ok(m, rank, bound) && m.contains_key(x)
{
    proof {
        assert(parent_map(m).contains_key(x));
    }
    (if m[x].spec_is_slot() {
        seq![x]
    } else {
        Seq::empty()
    }) + kids_slots(m, rank, bound, x, m[x].children@.len())
}

/// The slots below the first `i` children of `x`, in tree order.
pub open spec fn kids_slots(m: Map<usize, DomNode>, rank: Map<usize, nat>, bound: nat, x: usize, i: nat) -> Seq<usize>
    decreases bound - rank[x], i,
    when tree_ok(m, rank, bound) && m.contains_key(x) && i <= m[x].children@.len()
{
    proof {
        reveal(children_link_ok);
        assert(parent_map(m).contains_key(x));
        if i > 0 {
            assert(parent_map(m).contains_key(m[x].children@[i - 1]));
        }
    }
    if i == 0 {
        Seq::empty()
    } else {
        kids_slots(m, rank, bound, x, (i - 1) as nat) + tree_slots(m, rank, bound, m[x].children@[i - 1])
    }
}

/// The value of the named attribute, or the empty string.
pub open spec fn attr_or_empty(n: DomNode, name: Seq<char>) -> Seq<char> {
    if attr_map(n.attrs@).contains_key(name) {
        attr_map(n.attrs@)[name]
    } else {
        Seq::empty()
    }
}

/// The first of `slots` whose `name` attribute is `want`.
pub open spec fn first_slot(m: Map<usize, DomNode>, slots: Seq<usize>, want: Seq<char>) -> Option<usize>
    decreases slots.len(),
{
    if slots.len() == 0 {
        None
    } else if attr_or_empty(m[slots[0]], "name"@) == want {
        Some(slots[0])
    } else {
        first_slot(m, slots.drop_first(), want)
    }
}

/// The slot that the light-DOM child `c` goes to: the first slot named by
/// its `slot` attribute (the default slot when it has none).
pub open spec fn slot_for(m: Map<usize, DomNode>, slots: Seq<usize>, c: usize) -> Option<usize> {
    first_slot(m, slots, attr_or_empty(m[c], "slot"@))
}

/// The children in `kids` that go to slot `s`, in order.
pub open spec fn assigned_to(m: Map<usize, DomNode>, slots: Seq<usize>, kids: Seq<usize>, s: usize) -> Seq<usize> {
    kids.filter(|c: usize| slot_for(m, slots, c) == Some(s))
}

/// Appends `piece` to `out`.
fn extend_ids(out: &mut Vec<usize>, piece: &Vec<usize>)
    ensures
        final(out)@ == old(out)@ + piece@,
{
    out.extend_from_slice(piece.as_slice());
    assert(final(out)@ =~= old(out)@ + piece@);
}

impl Document {
    /// The flat-tree children of the shadow root `shadow_root_id`: its
    /// children, with each `<slot>` replaced by its assigned nodes, or by its
    /// own children when nothing is assigned to it.
    #[verifier::rlimit(30)]
    pub fn flatten_shadow_children(&self, shadow_root_id: usize) -> (r: Vec<usize>)
        requires
            self.wf(),
            self.nodes().contains_key(shadow_root_id),
        ensures
            r@ == flatten_kids(self.nodes(), self.nodes()[shadow_root_id].children@),
    {
        let ghost m = self.nodes();
        let shadow_root = arena_get(&self.nodes, shadow_root_id).unwrap();
        let ghost kids = shadow_root.children@;
        let mut result: Vec<usize> = Vec::new();
        let mut i: usize = 0;
        while i < shadow_root.children.len()
            invariant
                self.wf(),
                m == self.nodes(),
                m.contains_key(shadow_root_id),
                *shadow_root == m[shadow_root_id],
                kids == shadow_root.children@,
                i <= kids.len(),
                result@ == flatten_kids(m, kids.take(i as int)),
            decreases kids.len() - i,
        {
            let child_id = shadow_root.children[i];
            proof {
                lemma_child_link(m, shadow_root_id, i as int);
                assert(kids.take(i + 1).drop_last() =~= kids.take(i as int));
                assert(kids.take(i + 1).last() == child_id);
            }
            let child = arena_get(&self.nodes, child_id).unwrap();
            if child.is_slot_element() {
                if child.assigned_nodes.len() == 0 {
                    extend_ids(&mut result, &child.children);
                } else {
                    extend_ids(&mut result, &child.assigned_nodes);
                }
            } else {
                result.push(child_id);
                proof {
                    assert(result@ =~= flatten_kids(m, kids.take(i as int)) + seq![child_id]);
                }
            }
            i = i + 1;
        }
        proof {
            assert(kids.take(kids.len() as int) =~= kids);
        }
        result
    }

    /// The children that layout and rendering see: for a shadow host the
    /// flat-tree children of its shadow root, otherwise its own children.
    pub fn flat_tree_child_ids(&self, parent_id: usize) -> (r: Vec<usize>)
        requires
            self.wf(),
            self.nodes().contains_key(parent_id),
        ensures
            r@ == match self.nodes()[parent_id].shadow_root_id {
                Some(sr) => flatten_kids(self.nodes(), self.nodes()[sr].children@),
                None => self.nodes()[parent_id].children@,
            },
    {
        let node = arena_get(&self.nodes, parent_id).unwrap();
        match node.shadow_root_id {
            Some(sr) => {
                proof {
                    lemma_shadow_link(self.nodes(), parent_id);
                }
                self.flatten_shadow_children(sr)
            },
            None => node.children.clone(),
        }
    }
}

/// `m` differs from `m0` at most in the slot-assignment fields.
pub open spec fn same_but_slots(m0: Map<usize, DomNode>, m: Map<usize, DomNode>) -> bool {
    &&& m.dom() == m0.dom()
    &&& forall|y: usize|
        #[trigger] m0.contains_key(y) ==> m[y] == (DomNode {
            assigned_nodes: m[y].assigned_nodes,
            assigned_slot_id: m[y].assigned_slot_id,
            ..m0[y]
        })
}

/// `y` is `x` or lies below it through child links alone, at any depth,
/// never passing from a host into its shadow tree.
pub open spec fn light_descendant(m: Map<usize, DomNode>, rank: Map<usize, nat>, bound: nat, y: usize, x: usize) -> bool
    decreases rank[y],
    when tree_ok(m, rank, bound)
{
    proof {
        if m.contains_key(y) {
            assert(parent_map(m).contains_key(y));
        }
    }
    y == x || (m.contains_key(y) && m[y].parent is Some && m[m[y].parent->0].children@.contains(y)
        && light_descendant(m, rank, bound, m[y].parent->0, x))
}

/// A node below `x` lies no higher than `x`.
proof fn lemma_light_rank(m: Map<usize, DomNode>, rank: Map<usize, nat>, bound: nat, y: usize, x: usize)
    requires
        tree_ok(m, rank, bound),
        m.contains_key(y),
        light_descendant(m, rank, bound, y, x),
    ensures
        rank[x] <= rank[y],
    decreases rank[y],
{
    if y != x {
        assert(parent_map(m).contains_key(y));
        lemma_light_rank(m, rank, bound, m[y].parent->0, x);
    }
}

/// A node strictly below `x` lies below one of the children of `x`.
proof fn lemma_light_child_step(m: Map<usize, DomNode>, rank: Map<usize, nat>, bound: nat, y: usize, x: usize) -> (j: int)
    requires
        tree_ok(m, rank, bound),
        m.contains_key(y),
        light_descendant(m, rank, bound, y, x),
        y != x,
    ensures
        0 <= j < m[x].children@.len(),
        light_descendant(m, rank, bound, y, m[x].children@[j]),
    decreases rank[y],
{
    assert(parent_map(m).contains_key(y));
    let p = m[y].parent->0;
    assert(parent_map(m).contains_key(p));
    if p == x {
        let j = choose|j: int| 0 <= j < m[x].children@.len() && m[x].children@[j] == y;
        j
    } else {
        let j = lemma_light_child_step(m, rank, bound, p, x);
        let c = m[x].children@[j];
        assert(light_descendant(m, rank, bound, y, c));
        j
    }
}

/// A node below a child of `x` lies below `x`.
proof fn lemma_light_up(m: Map<usize, DomNode>, rank: Map<usize, nat>, bound: nat, y: usize, x: usize, j: int)
    requires
        tree_ok(m, rank, bound),
        m.contains_key(x),
        0 <= j < m[x].children@.len(),
        light_descendant(m, rank, bound, y, m[x].children@[j]),
    ensures
        light_descendant(m, rank, bound, y, x),
    decreases rank[y],
{
    let c = m[x].children@[j];
    lemma_child_link(m, x, j);
    if y == c {
        assert(m[x].children@.contains(c));
        assert(light_descendant(m, rank, bound, x, x));
    } else {
        let p = m[y].parent->0;
        assert(parent_map(m).contains_key(y));
        lemma_light_up(m, rank, bound, p, x, j);
    }
}

/// What the slots of child `j` contribute lies in the slots below the first
/// `i` children.
proof fn lemma_kids_slots_has(m: Map<usize, DomNode>, rank: Map<usize, nat>, bound: nat, x: usize, i: nat, j: int, y: usize)
    requires
        tree_ok(m, rank, bound),
        m.contains_key(x),
        0 <= j < i <= m[x].children@.len(),
        tree_slots(m, rank, bound, m[x].children@[j]).contains(y),
    ensures
        kids_slots(m, rank, bound, x, i).contains(y),
    decreases i,
{
    assert(parent_map(m).contains_key(x));
    lemma_child_link(m, x, i - 1);
    let a = kids_slots(m, rank, bound, x, (i - 1) as nat);
    let b = tree_slots(m, rank, bound, m[x].children@[i - 1]);
    assert(kids_slots(m, rank, bound, x, i) == a + b) by {
        reveal(children_link_ok);
    }
    if j == i - 1 {
        let k = choose|k: int| 0 <= k < b.len() && b[k] == y;
        assert((a + b)[a.len() + k] == y);
    } else {
        lemma_kids_slots_has(m, rank, bound, x, (i - 1) as nat, j, y);
        let k = choose|k: int| 0 <= k < a.len() && a[k] == y;
        assert((a + b)[k] == y);
    }
}

/// Every `<slot>` element below `x` through child links is among the slots
/// collected from `x`.
proof fn lemma_slot_below_found(m: Map<usize, DomNode>, rank: Map<usize, nat>, bound: nat, x: usize, y: usize)
    requires
        tree_ok(m, rank, bound),
        m.contains_key(x),
        m.contains_key(y),
        m[y].spec_is_slot(),
        light_descendant(m, rank, bound, y, x),
    ensures
        tree_slots(m, rank, bound, x).contains(y),
    decreases bound - rank[x],
{
    assert(parent_map(m).contains_key(x));
    let head = if m[x].spec_is_slot() { seq![x] } else { Seq::<usize>::empty() };
    let len = m[x].children@.len();
    let ks = kids_slots(m, rank, bound, x, len);
    assert(tree_slots(m, rank, bound, x) == head + ks);
    if y == x {
        assert((head + ks)[0] == y);
    } else {
        let j = lemma_light_child_step(m, rank, bound, y, x);
        let c = m[x].children@[j];
        lemma_child_link(m, x, j);
        assert(parent_map(m).contains_key(c));
        lemma_slot_below_found(m, rank, bound, c, y);
        lemma_kids_slots_has(m, rank, bound, x, len, j, y);
        let k = choose|k: int| 0 <= k < ks.len() && ks[k] == y;
        assert((head + ks)[head.len() + k] == y);
    }
}

/// Every slot collected from `x` is a `<slot>` element below `x` through
/// child links.
proof fn lemma_found_slot_below(m: Map<usize, DomNode>, rank: Map<usize, nat>, bound: nat, x: usize, y: usize)
    requires
        tree_ok(m, rank, bound),
        m.contains_key(x),
        tree_slots(m, rank, bound, x).contains(y),
    ensures
        m.contains_key(y),
        m[y].spec_is_slot(),
        light_descendant(m, rank, bound, y, x),
    decreases bound - rank[x], m[x].children@.len() + 1,
{
    assert(parent_map(m).contains_key(x));
    let head = if m[x].spec_is_slot() { seq![x] } else { Seq::<usize>::empty() };
    let len = m[x].children@.len();
    let ks = kids_slots(m, rank, bound, x, len);
    assert(tree_slots(m, rank, bound, x) == head + ks);
    let k = choose|k: int| 0 <= k < (head + ks).len() && (head + ks)[k] == y;
    if k < head.len() {
        assert(y == x);
    } else {
        assert(ks[k - head.len()] == y);
        let j = lemma_found_kids_slot(m, rank, bound, x, len, y);
        lemma_light_up(m, rank, bound, y, x, j);
    }
}

/// Every slot collected from the first `i` children of `x` is a `<slot>`
/// element below one of them.
proof fn lemma_found_kids_slot(m: Map<usize, DomNode>, rank: Map<usize, nat>, bound: nat, x: usize, i: nat, y: usize) -> (j: int)
    requires
        tree_ok(m, rank, bound),
        m.contains_key(x),
        i <= m[x].children@.len(),
        kids_slots(m, rank, bound, x, i).contains(y),
    ensures
        m.contains_key(y),
        m[y].spec_is_slot(),
        0 <= j < i,
        light_descendant(m, rank, bound, y, m[x].children@[j]),
    decreases bound - rank[x], i,
{
    assert(parent_map(m).contains_key(x));
    if i == 0 {
        assert(kids_slots(m, rank, bound, x, i) =~= Seq::<usize>::empty());
        assert(false);
        0
    } else {
        lemma_child_link(m, x, i - 1);
        let c = m[x].children@[i - 1];
        assert(parent_map(m).contains_key(c));
        let a = kids_slots(m, rank, bound, x, (i - 1) as nat);
        let b = tree_slots(m, rank, bound, c);
        assert(kids_slots(m, rank, bound, x, i) == a + b) by {
            reveal(children_link_ok);
        }
        let k = choose|k: int| 0 <= k < (a + b).len() && (a + b)[k] == y;
        if k < a.len() {
            assert(a[k] == y);
            lemma_found_kids_slot(m, rank, bound, x, (i - 1) as nat, y)
        } else {
            assert(b[k - a.len()] == y);
            lemma_found_slot_below(m, rank, bound, c, y);
            (i - 1) as int
        }
    }
}

/// The slots collected from `x` are exactly the `<slot>` elements at or
/// below `x` through child links, at any depth; slots inside a nested
/// shadow tree are not among them.
pub proof fn lemma_tree_slots_exact(m: Map<usize, DomNode>, rank: Map<usize, nat>, bound: nat, x: usize, y: usize)
    requires
        tree_ok(m, rank, bound),
        m.contains_key(x),
    ensures
        tree_slots(m, rank, bound, x).contains(y) <==> (m.contains_key(y) && m[y].spec_is_slot() && light_descendant(
            m,
            rank,
            bound,
            y,
            x,
        )),
{
    if tree_slots(m, rank, bound, x).contains(y) {
        lemma_found_slot_below(m, rank, bound, x, y);
    }
    if m.contains_key(y) && m[y].spec_is_slot() && light_descendant(m, rank, bound, y, x) {
        lemma_slot_below_found(m, rank, bound, x, y);
    }
}

/// The candidate slots of a shadow root `sr` (the slots below its children)
/// are exactly the `<slot>` elements strictly below it through child links.
pub proof fn lemma_candidate_slots_exact(m: Map<usize, DomNode>, rank: Map<usize, nat>, bound: nat, sr: usize, y: usize)
    requires
        tree_ok(m, rank, bound),
        m.contains_key(sr),
    ensures
        kids_slots(m, rank, bound, sr, m[sr].children@.len()).contains(y) <==> (m.contains_key(y) && m[y].spec_is_slot()
            && y != sr && light_descendant(m, rank, bound, y, sr)),
{
    assert(parent_map(m).contains_key(sr));
    let len = m[sr].children@.len();
    let head = if m[sr].spec_is_slot() { seq![sr] } else { Seq::<usize>::empty() };
    let ks = kids_slots(m, rank, bound, sr, len);
    assert(tree_slots(m, rank, bound, sr) == head + ks);
    if ks.contains(y) {
        let j = lemma_found_kids_slot(m, rank, bound, sr, len, y);
        lemma_child_link(m, sr, j);
        let c = m[sr].children@[j];
        assert(parent_map(m).contains_key(c));
        lemma_light_rank(m, rank, bound, y, c);
        lemma_light_up(m, rank, bound, y, sr, j);
    }
    if m.contains_key(y) && m[y].spec_is_slot() && y != sr && light_descendant(m, rank, bound, y, sr) {
        lemma_slot_below_found(m, rank, bound, sr, y);
        let k = choose|k: int| 0 <= k < (head + ks).len() && (head + ks)[k] == y;
        assert(k >= head.len());
        assert(ks[k - head.len()] == y);
    }
}

/// When some slot in `slots` has the name `want`, the search finds one:
/// a slot of `slots` with that name.
proof fn lemma_first_slot_found(m: Map<usize, DomNode>, slots: Seq<usize>, want: Seq<char>, s: usize)
    requires
        slots.contains(s),
        attr_or_empty(m[s], "name"@) == want,
    ensures
        first_slot(m, slots, want) is Some,
        slots.contains(first_slot(m, slots, want)->0),
        attr_or_empty(m[first_slot(m, slots, want)->0], "name"@) == want,
    decreases slots.len(),
{
    if attr_or_empty(m[slots[0]], "name"@) != want {
        let k = choose|k: int| 0 <= k < slots.len() && slots[k] == s;
        assert(k != 0);
        assert(slots.drop_first()[k - 1] == s);
        lemma_first_slot_found(m, slots.drop_first(), want, s);
        let t = first_slot(m, slots.drop_first(), want)->0;
        let kt = choose|kt: int| 0 <= kt < slots.drop_first().len() && slots.drop_first()[kt] == t;
        assert(slots[kt + 1] == t);
    } else {
        assert(slots[0] == slots[0]);
    }
}

/// The name search finds nothing exactly when no slot carries the name, and
/// otherwise the first slot that does.
proof fn lemma_first_slot_first(m: Map<usize, DomNode>, slots: Seq<usize>, want: Seq<char>)
    ensures
        first_slot(m, slots, want) is None <==> forall|k: int| 0 <= k < slots.len() ==> attr_or_empty(m[#[trigger] slots[k]], "name"@) != want,
        first_slot(m, slots, want) is Some ==> exists|i: int|
            0 <= i < slots.len() && #[trigger] slots[i] == first_slot(m, slots, want)->0 && attr_or_empty(m[slots[i]], "name"@) == want
                && forall|k: int| 0 <= k < i ==> attr_or_empty(m[#[trigger] slots[k]], "name"@) != want,
    decreases slots.len(),
{
    if slots.len() > 0 {
        let d = slots.drop_first();
        if attr_or_empty(m[slots[0]], "name"@) != want {
            lemma_first_slot_first(m, d, want);
            assert forall|k: int| 1 <= k < slots.len() implies #[trigger] slots[k] == d[k - 1] by {}
            if first_slot(m, d, want) is Some {
                let i = choose|i: int|
                    0 <= i < d.len() && #[trigger] d[i] == first_slot(m, d, want)->0 && attr_or_empty(m[d[i]], "name"@) == want
                        && forall|k: int| 0 <= k < i ==> attr_or_empty(m[#[trigger] d[k]], "name"@) != want;
                assert(slots[i + 1] == d[i]);
                assert forall|k: int| 0 <= k < i + 1 implies attr_or_empty(m[#[trigger] slots[k]], "name"@) != want by {
                    if k > 0 {
                        assert(slots[k] == d[k - 1]);
                    }
                }
            } else {
                assert forall|k: int| 0 <= k < slots.len() implies attr_or_empty(m[#[trigger] slots[k]], "name"@) != want by {
                    if k > 0 {
                        assert(slots[k] == d[k - 1]);
                    }
                }
            }
        } else {
            assert(slots[0] == first_slot(m, slots, want)->0);
        }
    }
}

impl Document {
    /// After slot assignment on a shadow host, each light-DOM child goes to
    /// the first candidate slot, in tree order, whose `name` equals the
    /// child's `slot` attribute, and to no slot when no candidate carries
    /// that name.
    pub proof fn lemma_child_slot_first_or_none(d: &Document, old: &Document, host: usize, c: usize)
        requires
            old.wf(),
            d.slots_assigned(old, host),
            old.nodes().contains_key(host),
            old.nodes()[host].shadow_root_id is Some,
            old.nodes()[host].children@.contains(c),
        ensures
            ({
                let m0 = old.nodes();
                let sr = m0[host].shadow_root_id->0;
                let slots = kids_slots(m0, old.ranks(), old.rank_bound(), sr, m0[sr].children@.len());
                let want = attr_or_empty(m0[c], "slot"@);
                let t = d.nodes()[c].assigned_slot_id;
                &&& (forall|k: int| 0 <= k < slots.len() ==> attr_or_empty(m0[#[trigger] slots[k]], "name"@) != want) ==> t is None
                &&& t is Some ==> exists|i: int|
                    0 <= i < slots.len() && #[trigger] slots[i] == t->0 && attr_or_empty(m0[slots[i]], "name"@) == want
                        && forall|k: int| 0 <= k < i ==> attr_or_empty(m0[#[trigger] slots[k]], "name"@) != want
            }),
    {
        let m0 = old.nodes();
        let sr = m0[host].shadow_root_id->0;
        let slots = kids_slots(m0, old.ranks(), old.rank_bound(), sr, m0[sr].children@.len());
        let want = attr_or_empty(m0[c], "slot"@);
        let kids = m0[host].children@;
        let jc = choose|jc: int| 0 <= jc < kids.len() && kids[jc] == c;
        assert(tree_ok(m0, old.ranks(), old.rank_bound()));
        lemma_child_link(m0, host, jc);
        assert(d.nodes()[c].assigned_slot_id == slot_for(m0, slots, c));
        lemma_first_slot_first(m0, slots, want);
    }
}

impl Document {
    /// After slot assignment on a shadow host, a light-DOM child whose
    /// `slot` attribute (empty when absent) equals the `name` (empty when
    /// absent) of some `<slot>` element anywhere below the shadow root
    /// through child links is assigned to such a slot: one below the shadow
    /// root, with that name, and that slot lists the child among its
    /// assigned nodes.
    pub proof fn lemma_child_finds_named_slot(d: &Document, old: &Document, host: usize, c: usize, s: usize)
        requires
            old.wf(),
            d.slots_assigned(old, host),
            old.nodes().contains_key(host),
            old.nodes()[host].shadow_root_id is Some,
            old.nodes()[host].children@.contains(c),
            old.nodes().contains_key(s),
            old.nodes()[s].spec_is_slot(),
            s != old.nodes()[host].shadow_root_id->0,
            light_descendant(old.nodes(), old.ranks(), old.rank_bound(), s, old.nodes()[host].shadow_root_id->0),
            attr_or_empty(old.nodes()[s], "name"@) == attr_or_empty(old.nodes()[c], "slot"@),
        ensures
            ({
                let m0 = old.nodes();
                let sr = m0[host].shadow_root_id->0;
                let t = d.nodes()[c].assigned_slot_id;
                &&& t is Some
                &&& m0.contains_key(t->0)
                &&& m0[t->0].spec_is_slot()
                &&& t->0 != sr
                &&& light_descendant(m0, old.ranks(), old.rank_bound(), t->0, sr)
                &&& attr_or_empty(m0[t->0], "name"@) == attr_or_empty(m0[c], "slot"@)
                &&& d.nodes()[t->0].assigned_nodes@.contains(c)
            }),
    {
        let m0 = old.nodes();
        let rank = old.ranks();
        let bound = old.rank_bound();
        let sr = m0[host].shadow_root_id->0;
        assert(tree_ok(m0, rank, bound));
        lemma_shadow_link(m0, host);
        let slots = kids_slots(m0, rank, bound, sr, m0[sr].children@.len());
        let kids = m0[host].children@;
        let want = attr_or_empty(m0[c], "slot"@);
        lemma_candidate_slots_exact(m0, rank, bound, sr, s);
        lemma_first_slot_found(m0, slots, want, s);
        let t = first_slot(m0, slots, want)->0;
        lemma_candidate_slots_exact(m0, rank, bound, sr, t);
        let jc = choose|jc: int| 0 <= jc < kids.len() && kids[jc] == c;
        lemma_child_link(m0, host, jc);
        assert(slot_for(m0, slots, c) == Some(t));
        assert(d.nodes()[c].assigned_slot_id == Some(t));
        assert(d.nodes()[t].assigned_nodes@ == assigned_to(m0, slots, kids, t));
        let pred = |x: usize| slot_for(m0, slots, x) == Some(t);
        kids.filter_lemma(pred);
        assert(pred(kids[jc]));
        assert(kids.filter(pred).contains(kids[jc]));
    }
}

/// Where `first_slot` lands, by position.
proof fn lemma_first_slot_step(m: Map<usize, DomNode>, slots: Seq<usize>, want: Seq<char>, k: int)
    requires
        0 <= k < slots.len(),
    ensures
        first_slot(m, slots.skip(k), want) == if attr_or_empty(m[slots[k]], "name"@) == want {
            Some(slots[k])
        } else {
            first_slot(m, slots.skip(k + 1), want)
        },
{
    assert(slots.skip(k).drop_first() =~= slots.skip(k + 1));
    assert(slots.skip(k)[0] == slots[k]);
}

/// Adding one more child to the list only adds it to its own slot's list.
proof fn lemma_assigned_step(m: Map<usize, DomNode>, slots: Seq<usize>, kids: Seq<usize>, j: int, y: usize)
    requires
        0 <= j < kids.len(),
    ensures
        assigned_to(m, slots, kids.take(j + 1), y) == if slot_for(m, slots, kids[j]) == Some(y) {
            assigned_to(m, slots, kids.take(j), y).push(kids[j])
        } else {
            assigned_to(m, slots, kids.take(j), y)
        },
{
    reveal(Seq::filter);
    assert(kids.take(j + 1).drop_last() =~= kids.take(j));
    assert(kids.take(j + 1).last() == kids[j]);
}

impl Document {
    /// Appends the slots of the tree below and including `x` to `out`, in
    /// tree order.
    fn collect_slots(&self, x: usize, out: &mut Vec<usize>)
        requires
            self.wf_structure(),
            self.nodes().contains_key(x),
        ensures
            final(out)@ == old(out)@ + tree_slots(self.nodes(), self.rank@, self.bound@, x),
            forall|k: int| old(out)@.len() <= k < final(out)@.len() ==> self.nodes().contains_key(#[trigger] final(out)@[k]),
        decreases self.bound@ - self.rank@[x], self.nodes()[x].children@.len() + 1,
    {
        let ghost m = self.nodes();
        let ghost rank = self.rank@;
        let ghost bound = self.bound@;
        let ghost out0 = out@;
        proof {
            assert(parent_map(m).contains_key(x));
            assert(tree_slots(m, rank, bound, x) == (if m[x].spec_is_slot() {
                seq![x]
            } else {
                Seq::empty()
            }) + kids_slots(m, rank, bound, x, m[x].children@.len()));
        }
        let node = arena_get(&self.nodes, x).unwrap();
        if node.is_slot_element() {
            out.push(x);
        }
        let ghost mid = out@;
        let mut i: usize = 0;
        while i < node.children.len()
            invariant
                self.wf_structure(),
                m == self.nodes(),
                rank == self.rank@,
                bound == self.bound@,
                m.contains_key(x),
                *node == m[x],
                i <= m[x].children@.len(),
                out@ == mid + kids_slots(m, rank, bound, x, i as nat),
                out0.len() <= mid.len(),
                forall|k: int| out0.len() <= k < out@.len() ==> m.contains_key(#[trigger] out@[k]),
            decreases m[x].children@.len() - i,
        {
            let c = node.children[i];
            proof {
                lemma_child_link(m, x, i as int);
                assert(parent_map(m).contains_key(x));
                assert(kids_slots(m, rank, bound, x, (i + 1) as nat) == kids_slots(m, rank, bound, x, i as nat)
                    + tree_slots(m, rank, bound, c)) by {
                    reveal(children_link_ok);
                }
            }
            self.collect_slots(c, out);
            i = i + 1;
        }
        proof {
            assert(out@ =~= out0 + tree_slots(m, rank, bound, x));
        }
    }

    /// `self` is `old` after assigning the light-DOM children of `host` to
    /// the slots of its shadow tree: every slot lists, in order, the children
    /// that go to it, and every child records its slot (or none). A host
    /// without a shadow root is left as it is.
    pub open spec fn slots_assigned(&self, old: &Document, host: usize) -> bool {
        let m0 = old.nodes();
        let m = self.nodes();
        if !m0.contains_key(host) || m0[host].shadow_root_id is None {
            *self == *old
        } else {
            let sr = m0[host].shadow_root_id->0;
            let slots = kids_slots(m0, old.ranks(), old.rank_bound(), sr, m0[sr].children@.len());
            let kids = m0[host].children@;
            &&& same_but_slots(m0, m)
            &&& forall|y: usize|
                #[trigger] m0.contains_key(y) ==> m[y].assigned_nodes@ == if slots.contains(y) {
                    assigned_to(m0, slots, kids, y)
                } else {
                    m0[y].assigned_nodes@
                }
            &&& forall|y: usize|
                #[trigger] m0.contains_key(y) ==> m[y].assigned_slot_id == if kids.contains(y) {
                    slot_for(m0, slots, y)
                } else {
                    m0[y].assigned_slot_id
                }
            &&& self.ranks() == old.ranks()
            &&& self.rank_bound() == old.rank_bound()
        }
    }

    /// Assigns the light-DOM children of `host_id` to the `<slot>` elements of
    /// its shadow tree, by name: each child goes to the first slot whose
    /// `name` equals the child's `slot` attribute (both default to empty).
    #[verifier::rlimit(60)]
    #[verifier::spinoff_prover]
    pub fn assign_slots(&mut self, host_id: usize)
        requires
            old(self).wf(),
            attrs_ok(old(self).nodes()),
        ensures
            final(self).wf(),
            attrs_ok(final(self).nodes()),
            final(self).root_id() == old(self).root_id(),
            final(self).same_ids(old(self)),
            final(self).removed_ids() == old(self).removed_ids(),
            final(self).slots_assigned(old(self), host_id),
            forall|a: usize, x: usize| #[trigger] final(self).is_inclusive_ancestor(a, x) == old(self).is_inclusive_ancestor(a, x),
    {
        let ghost m0 = self.nodes();
        let ghost rank = self.rank@;
        let ghost bound = self.bound@;
        let shadow_root_id = match arena_get(&self.nodes, host_id) {
            Some(h) => match h.shadow_root_id {
                Some(s) => s,
                None => return,
            },
            None => return,
        };
        proof {
            lemma_shadow_link(m0, host_id);
        }
        // Collect the slots of the shadow tree, in tree order.
        let sr_kids = arena_get(&self.nodes, shadow_root_id).unwrap().children.clone();
        let mut slots: Vec<usize> = Vec::new();
        let mut i: usize = 0;
        while i < sr_kids.len()
            invariant
                self.wf(),
                *self == *old(self),
                m0 == self.nodes(),
                rank == self.rank@,
                bound == self.bound@,
                m0.contains_key(shadow_root_id),
                sr_kids@ == m0[shadow_root_id].children@,
                i <= sr_kids@.len(),
                slots@ == kids_slots(m0, rank, bound, shadow_root_id, i as nat),
                forall|k: int| 0 <= k < slots@.len() ==> m0.contains_key(#[trigger] slots@[k]),
            decreases sr_kids@.len() - i,
        {
            proof {
                lemma_child_link(m0, shadow_root_id, i as int);
                assert(parent_map(m0).contains_key(shadow_root_id));
                assert(kids_slots(m0, rank, bound, shadow_root_id, (i + 1) as nat) == kids_slots(m0, rank, bound, shadow_root_id, i as nat)
                    + tree_slots(m0, rank, bound, sr_kids@[i as int])) by {
                    reveal(children_link_ok);
                }
            }
            self.collect_slots(sr_kids[i], &mut slots);
            i = i + 1;
        }
        let ghost sl = slots@;
        let host_children = arena_get(&self.nodes, host_id).unwrap().children.clone();
        let ghost kids = host_children@;
        proof {
            reveal(ids_ok);
            assert(kids == m0[host_id].children@);
            assert(kids.no_duplicates());
            assert forall|q: int| 0 <= q < kids.len() implies m0.contains_key(#[trigger] kids[q]) by {
                lemma_child_link(m0, host_id, q);
            }
        }
        // Clear previous assignments.
        let mut k: usize = 0;
        while k < slots.len()
            invariant
                sl == slots@,
                k <= sl.len(),
                forall|q: int| 0 <= q < sl.len() ==> m0.contains_key(#[trigger] sl[q]),
                same_but_slots(m0, self.nodes()),
                forall|y: usize|
                    #[trigger] m0.contains_key(y) ==> self.nodes()[y].assigned_nodes@ == if sl.take(k as int).contains(y) {
                        Seq::empty()
                    } else {
                        m0[y].assigned_nodes@
                    },
                forall|y: usize| #[trigger] m0.contains_key(y) ==> self.nodes()[y].assigned_slot_id == m0[y].assigned_slot_id,
                self.rank@ == rank,
                self.bound@ == bound,
                self.root == old(self).root,
                self.same_ids(old(self)),
                self.removed@ == old(self).removed@,
            decreases sl.len() - k,
        {
            let sid = slots[k];
            let ghost mb = self.nodes();
            let slot = arena_get_mut(&mut self.nodes, sid);
            slot.assigned_nodes.clear();
            proof {
                let ma = self.nodes();
                assert(sl.take(k + 1) =~= sl.take(k as int).push(sid));
                assert forall|y: usize| #[trigger] sl.take(k + 1).contains(y) <==> (sl.take(k as int).contains(y) || y == sid) by {
                    lemma_seq_push_contains(sl.take(k as int), sid, y);
                }
                assert(ma.dom() =~= m0.dom());
            }
            k = k + 1;
        }
        proof {
            assert(sl.take(sl.len() as int) =~= sl);
        }
        let mut j: usize = 0;
        while j < host_children.len()
            invariant
                kids == host_children@,
                kids.no_duplicates(),
                j <= kids.len(),
                forall|q: int| 0 <= q < kids.len() ==> m0.contains_key(#[trigger] kids[q]),
                same_but_slots(m0, self.nodes()),
                forall|y: usize|
                    #[trigger] m0.contains_key(y) ==> self.nodes()[y].assigned_nodes@ == if sl.contains(y) {
                        Seq::empty()
                    } else {
                        m0[y].assigned_nodes@
                    },
                forall|y: usize|
                    #[trigger] m0.contains_key(y) ==> self.nodes()[y].assigned_slot_id == if kids.take(j as int).contains(y) {
                        None
                    } else {
                        m0[y].assigned_slot_id
                    },
                self.rank@ == rank,
                self.bound@ == bound,
                self.root == old(self).root,
                self.same_ids(old(self)),
                self.removed@ == old(self).removed@,
            decreases kids.len() - j,
        {
            let cid = host_children[j];
            let child = arena_get_mut(&mut self.nodes, cid);
            child.assigned_slot_id = None;
            proof {
                assert forall|y: usize| #[trigger] kids.take(j + 1).contains(y) <==> (kids.take(j as int).contains(y) || y == cid) by {
                    assert(kids.take(j + 1) =~= kids.take(j as int).push(cid));
                    lemma_seq_push_contains(kids.take(j as int), cid, y);
                }
                assert(self.nodes().dom() =~= m0.dom());
            }
            j = j + 1;
        }
        proof {
            assert(kids.take(kids.len() as int) =~= kids);
        }
        // Snapshot the slot names.
        let mut names: Vec<String> = Vec::new();
        let mut k: usize = 0;
        while k < slots.len()
            invariant
                sl == slots@,
                k <= sl.len(),
                names@.len() == k,
                forall|q: int| 0 <= q < sl.len() ==> m0.contains_key(#[trigger] sl[q]),
                forall|q: int| 0 <= q < k ==> #[trigger] names@[q]@ == attr_or_empty(m0[sl[q]], "name"@),
                same_but_slots(m0, self.nodes()),
                attrs_ok(m0),
            decreases sl.len() - k,
        {
            let node = arena_get(&self.nodes, slots[k]).unwrap();
            proof {
                assert(m0.contains_key(sl[k as int]));
                assert(node.attrs == m0[sl[k as int]].attrs);
            }
            let name = match node.get_attribute("name") {
                Some(v) => v.to_owned(),
                None => String::new(),
            };
            names.push(name);
            k = k + 1;
        }
        // Assign each host child to the first slot with a matching name.
        let mut j: usize = 0;
        while j < host_children.len()
            invariant
                kids == host_children@,
                kids.no_duplicates(),
                j <= kids.len(),
                sl == slots@,
                names@.len() == sl.len(),
                forall|q: int| 0 <= q < sl.len() ==> m0.contains_key(#[trigger] sl[q]),
                forall|q: int| 0 <= q < sl.len() ==> #[trigger] names@[q]@ == attr_or_empty(m0[sl[q]], "name"@),
                forall|q: int| 0 <= q < kids.len() ==> m0.contains_key(#[trigger] kids[q]),
                attrs_ok(m0),
                same_but_slots(m0, self.nodes()),
                forall|y: usize|
                    #[trigger] m0.contains_key(y) ==> self.nodes()[y].assigned_nodes@ == if sl.contains(y) {
                        assigned_to(m0, sl, kids.take(j as int), y)
                    } else {
                        m0[y].assigned_nodes@
                    },
                forall|y: usize|
                    #[trigger] m0.contains_key(y) ==> self.nodes()[y].assigned_slot_id == if kids.take(j as int).contains(y) {
                        slot_for(m0, sl, y)
                    } else if kids.contains(y) {
                        None
                    } else {
                        m0[y].assigned_slot_id
                    },
                self.rank@ == rank,
                self.bound@ == bound,
                self.root == old(self).root,
                self.same_ids(old(self)),
                self.removed@ == old(self).removed@,
            decreases kids.len() - j,
        {
            let cid = host_children[j];
            let child = arena_get(&self.nodes, cid).unwrap();
            proof {
                assert(m0.contains_key(cid));
                assert(child.attrs == m0[cid].attrs);
            }
            let want = match child.get_attribute("slot") {
                Some(v) => v.to_owned(),
                None => String::new(),
            };
            let found = find_slot(&names, &want);
            proof {
                Document::lemma_find_slot(m0, sl, names@, want@, found);
                assert(slot_for(m0, sl, cid) == match found { Some(q) => Some(sl[q as int]), None => None });
            }
            let ghost mb = self.nodes();
            if let Some(q) = found {
                let sid = slots[q];
                let slot = arena_get_mut(&mut self.nodes, sid);
                slot.assigned_nodes.push(cid);
                let child = arena_get_mut(&mut self.nodes, cid);
                child.assigned_slot_id = Some(sid);
            }
            proof {
                assert(self.nodes().dom() =~= m0.dom());
                assert forall|y: usize| #[trigger] kids.take(j + 1).contains(y) <==> (kids.take(j as int).contains(y) || y == cid) by {
                    assert(kids.take(j + 1) =~= kids.take(j as int).push(cid));
                    lemma_seq_push_contains(kids.take(j as int), cid, y);
                }
                assert(!kids.take(j as int).contains(cid)) by {
                    if kids.take(j as int).contains(cid) {
                        let q = choose|q: int| 0 <= q < j && kids.take(j as int)[q] == cid;
                        assert(kids[q] == kids[j as int]);
                    }
                }
                assert forall|y: usize| #[trigger] m0.contains_key(y) implies self.nodes()[y].assigned_nodes@ == if sl.contains(y) {
                    assigned_to(m0, sl, kids.take(j + 1), y)
                } else {
                    m0[y].assigned_nodes@
                } by {
                    lemma_assigned_step(m0, sl, kids, j as int, y);
                    if found is Some {
                        assert(sl.contains(sl[found->0 as int]));
                    }
                }
            }
            j = j + 1;
        }
        proof {
            assert(kids.take(kids.len() as int) =~= kids);
            let m = self.nodes();
            assert forall|y: usize| #[trigger] m0.contains_key(y) implies same_links(m0[y], m[y]) && m[y].in_document == m0[y].in_document by {}
            lemma_frame_flags(m0, m, self.root);
            assert(attrs_ok(m)) by {
                assert forall|y: usize| #[trigger] m.contains_key(y) implies attr_names_unique(m[y].attrs@) by {
                    assert(m0.contains_key(y));
                }
            }
        }
    }

    /// Where the name search lands, in terms of `first_slot`.
    proof fn lemma_find_slot(m0: Map<usize, DomNode>, sl: Seq<usize>, names: Seq<String>, want: Seq<char>, found: Option<usize>)
        requires
            names.len() == sl.len(),
            forall|q: int| 0 <= q < sl.len() ==> #[trigger] names[q]@ == attr_or_empty(m0[sl[q]], "name"@),
            match found {
                Some(q) => q < names.len() && names[q as int]@ == want && forall|p: int| 0 <= p < q ==> names[p]@ != want,
                None => forall|p: int| 0 <= p < names.len() ==> names[p]@ != want,
            },
        ensures
            first_slot(m0, sl, want) == match found {
                Some(q) => Some(sl[q as int]),
                None => None,
            },
    {
        Document::lemma_find_slot_from(m0, sl, names, want, found, 0);
        assert(sl.skip(0) =~= sl);
    }

    proof fn lemma_find_slot_from(m0: Map<usize, DomNode>, sl: Seq<usize>, names: Seq<String>, want: Seq<char>, found: Option<usize>, k: int)
        requires
            names.len() == sl.len(),
            forall|q: int| 0 <= q < sl.len() ==> #[trigger] names[q]@ == attr_or_empty(m0[sl[q]], "name"@),
            match found {
                Some(q) => q < names.len() && names[q as int]@ == want && forall|p: int| 0 <= p < q ==> names[p]@ != want,
                None => forall|p: int| 0 <= p < names.len() ==> names[p]@ != want,
            },
            0 <= k <= match found { Some(q) => q as int, None => sl.len() as int },
        ensures
            first_slot(m0, sl.skip(k), want) == match found {
                Some(q) => Some(sl[q as int]),
                None => None,
            },
        decreases sl.len() - k,
    {
        let stop: int = match found { Some(q) => q as int, None => sl.len() as int };
        if k < stop {
            lemma_first_slot_step(m0, sl, want, k);
            assert(names[k]@ != want);
            Document::lemma_find_slot_from(m0, sl, names, want, found, k + 1);
        } else if found is Some {
            lemma_first_slot_step(m0, sl, want, k);
        } else {
            assert(sl.skip(k) =~= Seq::<usize>::empty());
        }
    }
}

/// After pushing `v`, a sequence holds exactly the old items and `v`.
pub proof fn lemma_seq_push_contains(s: Seq<usize>, v: usize, y: usize)
    ensures
        s.push(v).contains(y) <==> (s.contains(y) || y == v),
{
    if s.push(v).contains(y) && y != v {
        let k = choose|k: int| 0 <= k < s.push(v).len() && s.push(v)[k] == y;
        assert(s[k] == y);
    }
    if s.contains(y) {
        let k = choose|k: int| 0 <= k < s.len() && s[k] == y;
        assert(s.push(v)[k] == y);
    }
    if y == v {
        assert(s.push(v)[s.len() as int] == y);
    }
}

/// After pushing `v`, a sequence of handles holds exactly the old items and
/// `v`.
pub proof fn lemma_seq_push_contains_u32(s: Seq<u32>, v: u32, y: u32)
    ensures
        s.push(v).contains(y) <==> (s.contains(y) || y == v),
{
    if s.push(v).contains(y) && y != v {
        let k = choose|k: int| 0 <= k < s.push(v).len() && s.push(v)[k] == y;
        assert(s[k] == y);
    }
    if s.contains(y) {
        let k = choose|k: int| 0 <= k < s.len() && s[k] == y;
        assert(s.push(v)[k] == y);
    }
    if y == v {
        assert(s.push(v)[s.len() as int] == y);
    }
}

/// The position of the first name equal to `want`.
fn find_slot(names: &Vec<String>, want: &String) -> (r: Option<usize>)
    ensures
        match r {
            Some(q) => q < names@.len() && names@[q as int]@ == want@ && forall|p: int| 0 <= p < q ==> names@[p]@ != want@,
            None => forall|p: int| 0 <= p < names@.len() ==> names@[p]@ != want@,
        },
{
    let mut k: usize = 0;
    while k < names.len()
        invariant
            k <= names@.len(),
            forall|p: int| 0 <= p < k ==> names@[p]@ != want@,
        decreases names@.len() - k,
    {
        if names[k] == *want {
            return Some(k);
        }
        k = k + 1;
    }
    None
}

impl Document {
    /// Sets attribute `name` of node `id` to `value` (see
    /// [`DomNode::set_attribute`]).
    pub fn set_node_attribute(&mut self, id: usize, name: &str, value: &str)
        requires
            old(self).wf(),
            old(self).nodes().contains_key(id),
            attr_names_unique(old(self).nodes()[id].attrs@),
        ensures
            final(self).wf(),
            final(self).root_id() == old(self).root_id(),
            final(self).same_ids(old(self)),
            final(self).removed_ids() == old(self).removed_ids(),
            final(self).nodes().dom() == old(self).nodes().dom(),
            forall|y: usize| y != id ==> #[trigger] final(self).nodes()[y] == old(self).nodes()[y],
            final(self).nodes()[id].attr_set_from(old(self).nodes()[id], name@, value@),
            forall|a: usize, x: usize| #[trigger] final(self).is_inclusive_ancestor(a, x) == old(self).is_inclusive_ancestor(a, x),
    {
        let ghost m0 = self.nodes();
        let node = arena_get_mut(&mut self.nodes, id);
        node.set_attribute(name, value);
        proof {
            let m1 = self.nodes();
            assert(m1.dom() =~= m0.dom());
            lemma_frame_flags(m0, m1, self.root);
        }
    }

    /// Removes attribute `name` from node `id` (see
    /// [`DomNode::remove_attribute`]).
    pub fn remove_node_attribute(&mut self, id: usize, name: &str)
        requires
            old(self).wf(),
            old(self).nodes().contains_key(id),
            attr_names_unique(old(self).nodes()[id].attrs@),
        ensures
            final(self).wf(),
            final(self).root_id() == old(self).root_id(),
            final(self).same_ids(old(self)),
            final(self).removed_ids() == old(self).removed_ids(),
            final(self).nodes().dom() == old(self).nodes().dom(),
            forall|y: usize| y != id ==> #[trigger] final(self).nodes()[y] == old(self).nodes()[y],
            final(self).nodes()[id].attr_removed_from(old(self).nodes()[id], name@),
            forall|a: usize, x: usize| #[trigger] final(self).is_inclusive_ancestor(a, x) == old(self).is_inclusive_ancestor(a, x),
    {
        let ghost m0 = self.nodes();
        let node = arena_get_mut(&mut self.nodes, id);
        node.remove_attribute(name);
        proof {
            let m1 = self.nodes();
            assert(m1.dom() =~= m0.dom());
            lemma_frame_flags(m0, m1, self.root);
        }
    }
}

impl Document {
    /// After a deletion, every remaining node was there before with the same
    /// payload.
    pub proof fn lemma_pruned_node(&self, old: &Document, x: usize, y: usize)
        requires
            self.pruned(old, x),
            self.nodes().contains_key(y),
        ensures
            old.nodes().contains_key(y),
            same_payload(self.nodes()[y], old.nodes()[y]),
    {
    }

    /// After a move below `p`, every node keeps its payload.
    pub proof fn lemma_attached_node(&self, old: &Document, p: usize, c: usize, kids: Seq<usize>, y: usize)
        requires
            self.attached(old, p, c, kids),
            old.nodes().contains_key(y) || self.nodes().contains_key(y),
        ensures
            self.nodes().dom() == old.nodes().dom(),
            same_payload(self.nodes()[y], old.nodes()[y]),
    {
    }

    /// After a replacement, every node keeps its payload.
    pub proof fn lemma_replaced_node(&self, old: &Document, p: usize, n: usize, o: usize, y: usize)
        requires
            self.replaced(old, p, n, o),
            old.nodes().contains_key(y) || self.nodes().contains_key(y),
        ensures
            self.nodes().dom() == old.nodes().dom(),
            same_payload(self.nodes()[y], old.nodes()[y]),
    {
    }

    /// After cutting `n` loose, every node keeps its payload.
    pub proof fn lemma_detached_node(&self, old: &Document, n: usize, y: usize)
        requires
            self.detached_from(old, n),
            self.nodes().dom() == old.nodes().dom(),
            old.nodes().contains_key(y) || self.nodes().contains_key(y),
        ensures
            same_payload(self.nodes()[y], old.nodes()[y]),
    {
    }
}

impl Document {
    /// The event listeners registered on node `id`, in registration order.
    pub open spec fn listeners_of(&self, id: usize) -> Seq<EventListenerEntry> {
        self.nodes()[id].event_listeners@
    }

    /// Replaces the event listeners of node `id`; nothing else changes.
    pub fn set_listeners(&mut self, id: usize, listeners: Vec<EventListenerEntry>)
        requires
            old(self).wf(),
            old(self).nodes().contains_key(id),
        ensures
            final(self).wf(),
            final(self).root_id() == old(self).root_id(),
            final(self).same_ids(old(self)),
            final(self).removed_ids() == old(self).removed_ids(),
            final(self).nodes().dom() == old(self).nodes().dom(),
            forall|y: usize| y != id ==> #[trigger] final(self).nodes()[y] == old(self).nodes()[y],
            final(self).nodes()[id] == (DomNode { event_listeners: listeners, ..old(self).nodes()[id] }),
            forall|a: usize, x: usize| #[trigger] final(self).is_inclusive_ancestor(a, x) == old(self).is_inclusive_ancestor(a, x),
    {
        let ghost m0 = self.nodes();
        let node = arena_get_mut(&mut self.nodes, id);
        node.event_listeners = listeners;
        proof {
            let m1 = self.nodes();
            assert(m1.dom() =~= m0.dom());
            lemma_frame_flags(m0, m1, self.root);
        }
    }

    /// Records what the style pass computed for node `id`: its paint facts
    /// and whether it establishes a stacking context; nothing else changes.
    pub fn set_paint_info(&mut self, id: usize, paint: PaintInfo, creates_stacking_context: bool)
        requires
            old(self).wf(),
            old(self).nodes().contains_key(id),
        ensures
            final(self).wf(),
            final(self).root_id() == old(self).root_id(),
            final(self).same_ids(old(self)),
            final(self).removed_ids() == old(self).removed_ids(),
            final(self).nodes().dom() == old(self).nodes().dom(),
            forall|y: usize| y != id ==> #[trigger] final(self).nodes()[y] == old(self).nodes()[y],
            final(self).nodes()[id] == (DomNode { paint, creates_stacking_context, ..old(self).nodes()[id] }),
            forall|a: usize, x: usize| #[trigger] final(self).is_inclusive_ancestor(a, x) == old(self).is_inclusive_ancestor(a, x),
    {
        let ghost m0 = self.nodes();
        let node = arena_get_mut(&mut self.nodes, id);
        node.paint = paint;
        node.creates_stacking_context = creates_stacking_context;
        proof {
            let m1 = self.nodes();
            assert(m1.dom() =~= m0.dom());
            lemma_frame_flags(m0, m1, self.root);
        }
    }

    /// `addEventListener`: registers a listener on node `id` for
    /// `event_type`, unless a live listener with the same type, callback and
    /// capture flag is already registered there.
    pub fn add_event_listener(&mut self, id: usize, event_type: String, callback_id: u32, options: ListenerOptions)
        requires
            old(self).wf(),
            old(self).nodes().contains_key(id),
        ensures
            final(self).wf(),
            final(self).root_id() == old(self).root_id(),
            final(self).same_ids(old(self)),
            final(self).removed_ids() == old(self).removed_ids(),
            final(self).nodes().dom() == old(self).nodes().dom(),
            forall|y: usize| y != id ==> #[trigger] final(self).nodes()[y] == old(self).nodes()[y],
            final(self).nodes()[id] == (DomNode {
                event_listeners: final(self).nodes()[id].event_listeners,
                ..old(self).nodes()[id]
            }),
            listener_added(old(self).listeners_of(id), final(self).listeners_of(id), event_type@, callback_id, options),
            forall|a: usize, x: usize| #[trigger] final(self).is_inclusive_ancestor(a, x) == old(self).is_inclusive_ancestor(a, x),
    {
        let node = self.get_node(id).unwrap();
        if find_listener(&node.event_listeners, event_type.as_str(), callback_id, options.capture) {
            return;
        }
        let mut ls = copy_listeners(&node.event_listeners);
        let ghost ty = event_type@;
        ls.push(EventListenerEntry {
            event_type,
            callback_id,
            capture: options.capture,
            passive: options.passive,
            once: options.once,
            removed: false,
        });
        proof {
            assert(ls@.drop_last() =~= old(self).listeners_of(id));
        }
        self.set_listeners(id, ls);
    }

    /// `removeEventListener`: drops from node `id` the live listener with
    /// type `event_type`, callback `callback_id` and capture flag `capture`,
    /// if there is one.
    pub fn remove_event_listener(&mut self, id: usize, event_type: &str, callback_id: u32, capture: bool)
        requires
            old(self).wf(),
            old(self).nodes().contains_key(id),
        ensures
            final(self).wf(),
            final(self).root_id() == old(self).root_id(),
            final(self).same_ids(old(self)),
            final(self).removed_ids() == old(self).removed_ids(),
            final(self).nodes().dom() == old(self).nodes().dom(),
            forall|y: usize| y != id ==> #[trigger] final(self).nodes()[y] == old(self).nodes()[y],
            final(self).nodes()[id] == (DomNode {
                event_listeners: final(self).nodes()[id].event_listeners,
                ..old(self).nodes()[id]
            }),
            final(self).listeners_of(id) == listeners_without(old(self).listeners_of(id), event_type@, callback_id, capture),
            forall|a: usize, x: usize| #[trigger] final(self).is_inclusive_ancestor(a, x) == old(self).is_inclusive_ancestor(a, x),
    {
        let node = self.get_node(id).unwrap();
        let ls = drop_listener(&node.event_listeners, event_type, callback_id, capture);
        self.set_listeners(id, ls);
    }
}

/// The chain of nodes from the top of `x`'s tree down to `x`, following
/// parent links.
pub open spec fn chain_to(pm: Map<usize, Option<usize>>, rank: Map<usize, nat>, x: usize) -> Seq<usize>
    decreases rank[x],
    when (forall|n: usize|
        #[trigger] pm.contains_key(n) ==> rank.contains_key(n) && (pm[n] is Some ==> pm.contains_key(pm[n]->0) && rank[pm[n]->0] < rank[n]))
{
    if pm.contains_key(x) && pm[x] is Some {
        chain_to(pm, rank, pm[x]->0).push(x)
    } else {
        seq![x]
    }
}

/// `v` in reverse order.
pub fn reversed(v: &Vec<usize>) -> (r: Vec<usize>)
    ensures
        r@ == v@.reverse(),
{
    let mut out: Vec<usize> = Vec::new();
    let mut i = v.len();
    while i > 0
        invariant
            i <= v@.len(),
            out@ == v@.subrange(i as int, v@.len() as int).reverse(),
        decreases i,
    {
        i = i - 1;
        out.push(v[i]);
        proof {
            assert(v@.subrange(i as int, v@.len() as int).reverse() =~= v@.subrange(i + 1, v@.len() as int).reverse().push(v@[i as int]));
        }
    }
    proof {
        assert(v@.subrange(0, v@.len() as int) =~= v@);
    }
    out
}

/// One step up the parent links, in terms of the chain.
proof fn lemma_chain_step(pm: Map<usize, Option<usize>>, rank: Map<usize, nat>, bound: nat, id: usize, up: Seq<usize>)
    requires
        rank_ok(pm, rank, bound),
        pm.contains_key(id),
    ensures
        pm[id] is Some ==> pm.contains_key(pm[id]->0) && chain_to(pm, rank, id) + up.reverse() == chain_to(pm, rank, pm[id]->0)
            + up.push(id).reverse(),
        pm[id] is None ==> chain_to(pm, rank, id) + up.reverse() == up.push(id).reverse(),
{
    assert(up.push(id).reverse() =~= seq![id] + up.reverse());
    if pm[id] is Some {
        let q = pm[id]->0;
        assert(chain_to(pm, rank, id) == chain_to(pm, rank, q).push(id));
        assert(chain_to(pm, rank, q).push(id) + up.reverse() =~= chain_to(pm, rank, q) + (seq![id] + up.reverse()));
    } else {
        assert(chain_to(pm, rank, id) == seq![id]);
    }
}

impl Document {
    /// The ancestors of `x` from the top of its tree down to `x` itself.
    pub open spec fn path_to(&self, x: usize) -> Seq<usize> {
        chain_to(parent_map(self.nodes()), self.ranks(), x)
    }

    /// The path to `x` runs down parent links from a parentless node to `x`,
    /// holds exactly the inclusive ancestors of `x`, each once.
    pub proof fn lemma_path_to(&self, x: usize)
        requires
            self.wf(),
            self.nodes().contains_key(x),
        ensures
            self.path_to(x).len() > 0,
            self.path_to(x).last() == x,
            self.nodes()[self.path_to(x)[0]].parent is None,
            forall|i: int| 0 <= i < self.path_to(x).len() ==> self.nodes().contains_key(#[trigger] self.path_to(x)[i]),
            forall|i: int|
                0 <= i < self.path_to(x).len() - 1 ==> self.nodes()[#[trigger] self.path_to(x)[i + 1]].parent == Some(self.path_to(x)[i]),
            forall|a: usize| #[trigger] self.path_to(x).contains(a) <==> self.is_inclusive_ancestor(a, x),
            self.path_to(x).no_duplicates(),
    {
        self.lemma_path_to_rec(x);
    }

    proof fn lemma_path_to_rec(&self, x: usize)
        requires
            self.wf(),
            self.nodes().contains_key(x),
        ensures
            self.path_to(x).len() > 0,
            self.path_to(x).last() == x,
            self.nodes()[self.path_to(x)[0]].parent is None,
            forall|i: int| 0 <= i < self.path_to(x).len() ==> self.nodes().contains_key(#[trigger] self.path_to(x)[i]),
            forall|i: int|
                0 <= i < self.path_to(x).len() - 1 ==> self.nodes()[#[trigger] self.path_to(x)[i + 1]].parent == Some(self.path_to(x)[i]),
            forall|a: usize| #[trigger] self.path_to(x).contains(a) <==> self.is_inclusive_ancestor(a, x),
            self.path_to(x).no_duplicates(),
        decreases self.rank@[x],
    {
        let pm = parent_map(self.nodes());
        let rank = self.rank@;
        let p = self.path_to(x);
        assert(pm.contains_key(x));
        if pm[x] is Some {
            let q = pm[x]->0;
            reveal(parent_link_ok);
            assert(self.nodes().contains_key(q));
            self.lemma_path_to_rec(q);
            let pq = self.path_to(q);
            assert(p == pq.push(x));
            assert forall|a: usize| #[trigger] p.contains(a) <==> self.is_inclusive_ancestor(a, x) by {
                vstd::seq_lib::lemma_seq_concat_contains_all_elements(pq, seq![x], a);
                assert(pq.push(x) =~= pq + seq![x]);
                assert(seq![x].contains(a) <==> a == x) by {
                    if a == x {
                        assert(seq![x][0] == a);
                    }
                }
            }
            assert(!pq.contains(x)) by {
                if pq.contains(x) {
                    assert(self.is_inclusive_ancestor(x, q));
                    lemma_reaches_rank(pm, rank, self.bound@, q, x);
                }
            }
            assert forall|i: int, j: int| 0 <= i < j < p.len() implies p[i] != p[j] by {
                if j == p.len() - 1 {
                    assert(pq.contains(p[i]));
                }
            }
        } else {
            assert(p == seq![x]);
            assert forall|a: usize| #[trigger] p.contains(a) <==> self.is_inclusive_ancestor(a, x) by {
                if a == x {
                    assert(p[0] == a);
                }
            }
        }
    }
}

/// The event propagation path to `target`: its inclusive ancestors, from
/// the top of its tree down to `target`; `None` when `target` does not
/// exist.
pub fn build_event_path(doc: &Document, target: usize) -> (r: Option<Vec<usize>>)
    requires
        doc.wf(),
    ensures
        match r {
            Some(p) => doc.nodes().contains_key(target) && p@ == doc.path_to(target),
            None => !doc.nodes().contains_key(target),
        },
{
    if !arena_contains(&doc.nodes, target) {
        return None;
    }
    let ghost pm = parent_map(doc.nodes());
    let ghost rank = doc.rank@;
    let mut up: Vec<usize> = Vec::new();
    let mut current: Option<usize> = Some(target);
    let ghost bound = doc.bound@;
    proof {
        assert(pm.contains_key(target));
        assert(up@.reverse() =~= Seq::<usize>::empty());
        assert(chain_to(pm, rank, target) + Seq::<usize>::empty() =~= chain_to(pm, rank, target));
        assert(rank_ok(pm, rank, bound));
    }
    loop
        invariant
            pm == parent_map(doc.nodes()),
            rank == doc.rank@,
            bound == doc.bound@,
            rank_ok(pm, rank, bound),
            current is Some ==> pm.contains_key(current->0) && chain_to(pm, rank, target) == chain_to(pm, rank, current->0)
                + up@.reverse(),
            current is None ==> chain_to(pm, rank, target) == up@.reverse(),
        ensures
            chain_to(pm, rank, target) == up@.reverse(),
        decreases (if current is Some { rank[current->0] + 1 } else { 0 }),
    {
        match current {
            None => {
                break;
            },
            Some(id) => {
                let next = arena_get(&doc.nodes, id).unwrap().parent;
                proof {
                    assert(pm[id] == next);
                    lemma_chain_step(pm, rank, bound, id, up@);
                }
                up.push(id);
                current = next;
            },
        }
    }
    let path = reversed(&up);
    Some(path)
}

impl Document {
    /// Marks listener `idx` of node `id` removed; nothing else changes.
    pub fn mark_listener_removed(&mut self, id: usize, idx: usize)
        requires
            old(self).wf(),
            old(self).nodes().contains_key(id),
            idx < old(self).listeners_of(id).len(),
        ensures
            final(self).wf(),
            final(self).root_id() == old(self).root_id(),
            final(self).same_ids(old(self)),
            final(self).removed_ids() == old(self).removed_ids(),
            final(self).nodes().dom() == old(self).nodes().dom(),
            forall|y: usize| y != id ==> #[trigger] final(self).nodes()[y] == old(self).nodes()[y],
            final(self).nodes()[id] == (DomNode {
                event_listeners: final(self).nodes()[id].event_listeners,
                ..old(self).nodes()[id]
            }),
            final(self).listeners_of(id) == old(self).listeners_of(id).update(
                idx as int,
                EventListenerEntry { removed: true, ..old(self).listeners_of(id)[idx as int] },
            ),
            forall|a: usize, x: usize| #[trigger] final(self).is_inclusive_ancestor(a, x) == old(self).is_inclusive_ancestor(a, x),
    {
        let ghost m0 = self.nodes();
        let node = arena_get_mut(&mut self.nodes, id);
        let mut e = crate::events::copy_entry(&node.event_listeners[idx]);
        e.removed = true;
        node.event_listeners.set(idx, e);
        proof {
            let m1 = self.nodes();
            assert(m1.dom() =~= m0.dom());
            lemma_frame_flags(m0, m1, self.root);
        }
    }
}

} // verus!

verus! {

// ── Cloning ───────────────────────────────────────────────────────────

/// A copy of an optional string.
fn copy_opt_string(o: &Option<String>) -> (r: Option<String>)
    ensures
        r == *o,
{
    match o {
        Some(s) => Some(s.clone()),
        None => None,
    }
}

/// A copy of a list of strings.
fn copy_strings(v: &Vec<String>) -> (r: Vec<String>)
    ensures
        r@ == v@,
{
    let mut out: Vec<String> = Vec::new();
    let mut i: usize = 0;
    while i < v.len()
        invariant
            i <= v@.len(),
            out@ == v@.take(i as int),
        decreases v@.len() - i,
    {
        out.push(v[i].clone());
        i = i + 1;
        proof {
            assert(out@ =~= v@.take(i as int));
        }
    }
    proof {
        assert(v@.take(v@.len() as int) =~= v@);
    }
    out
}

/// A copy of a list of name/value pairs.
fn copy_pairs(v: &Vec<(String, String)>) -> (r: Vec<(String, String)>)
    ensures
        r@ == v@,
{
    let mut out: Vec<(String, String)> = Vec::new();
    let mut i: usize = 0;
    while i < v.len()
        invariant
            i <= v@.len(),
            out@ == v@.take(i as int),
        decreases v@.len() - i,
    {
        let pair = &v[i];
        out.push((pair.0.clone(), pair.1.clone()));
        i = i + 1;
        proof {
            assert(out@ =~= v@.take(i as int));
        }
    }
    proof {
        assert(v@.take(v@.len() as int) =~= v@);
    }
    out
}

/// A copy of a list of ids.
fn copy_ids(v: &Vec<usize>) -> (r: Vec<usize>)
    ensures
        r@ == v@,
{
    let mut out: Vec<usize> = Vec::new();
    let mut i: usize = 0;
    while i < v.len()
        invariant
            i <= v@.len(),
            out@ == v@.take(i as int),
        decreases v@.len() - i,
    {
        out.push(v[i]);
        i = i + 1;
        proof {
            assert(out@ =~= v@.take(i as int));
        }
    }
    proof {
        assert(v@.take(v@.len() as int) =~= v@);
    }
    out
}

/// `n`, the node `id`, holds what cloning `src` copies: its type, name,
/// id attribute, attributes, classes and text. Everything else is as in a
/// fresh node: no shadow root, slot assignment, listeners or paint facts,
/// not connected, marked dirty.
pub open spec fn copied_from(n: DomNode, src: DomNode, id: usize) -> bool {
    &&& n.id == id
    &&& n.node_type == src.node_type
    &&& n.name == src.name
    &&& n.id_attr == src.id_attr
    &&& n.attrs@ == src.attrs@
    &&& n.classes@ == src.classes@
    &&& n.text_content == src.text_content
    &&& !n.in_document
    &&& n.dirty_descendants
    &&& n.shadow_root_id is None
    &&& n.shadow_mode is None
    &&& n.assigned_nodes@.len() == 0
    &&& n.assigned_slot_id is None
    &&& n.event_listeners@.len() == 0
    &&& !n.creates_stacking_context
    &&& n.paint == (PaintInfo { has_style: false, z_index: None, positioned: false })
}

/// The copies under `f` of the ids in `s`.
pub open spec fn mapped(s: Seq<usize>, f: Map<usize, usize>) -> Seq<usize> {
    s.map_values(|c: usize| f[c])
}

/// `f` maps the children-subtree of `s` in `d0` (shadow trees left out)
/// one to one onto new nodes of `d`, `s` onto `t`; each new node is a copy
/// of its source, linked like it: its children are the copies of the
/// source's children, in order, and its parent is the copy of the source's
/// parent (`t` has none).
pub open spec fn clone_tree(d0: Document, d: Document, s: usize, t: usize, f: Map<usize, usize>) -> bool {
    &&& f.contains_key(s)
    &&& f[s] == t
    &&& forall|x: usize|
        #[trigger] f.contains_key(x) ==> {
            &&& d0.nodes().contains_key(x)
            &&& d0.is_inclusive_ancestor(s, x)
            &&& x != s ==> (d0.nodes()[x].parent is Some && f.contains_key(d0.nodes()[x].parent->0)
                && d0.nodes()[d0.nodes()[x].parent->0].children@.contains(x))
            &&& forall|j: int| 0 <= j < d0.nodes()[x].children@.len() ==> f.contains_key(#[trigger] d0.nodes()[x].children@[j])
            &&& d.nodes().contains_key(f[x])
            &&& !d0.nodes().contains_key(f[x])
            &&& copied_from(d.nodes()[f[x]], d0.nodes()[x], f[x])
            &&& d.nodes()[f[x]].children@ == mapped(d0.nodes()[x].children@, f)
            &&& d.nodes()[f[x]].parent == if x == s {
                None
            } else {
                Some(f[d0.nodes()[x].parent->0])
            }
        }
    &&& forall|x: usize, y: usize| #[trigger] f.contains_key(x) && #[trigger] f.contains_key(y) && f[x] == f[y] ==> x == y
}

impl Document {
    /// Gives node `id` the copied fields of a clone; nothing else changes.
    fn fill_copy(
        &mut self,
        id: usize,
        name: Option<String>,
        id_attr: Option<String>,
        attrs: Vec<(String, String)>,
        classes: Vec<String>,
        text_content: Option<String>,
    )
        requires
            old(self).wf(),
            old(self).nodes().contains_key(id),
        ensures
            final(self).wf(),
            final(self).root_id() == old(self).root_id(),
            final(self).same_ids(old(self)),
            final(self).removed_ids() == old(self).removed_ids(),
            final(self).nodes().dom() == old(self).nodes().dom(),
            forall|y: usize| y != id ==> #[trigger] final(self).nodes()[y] == old(self).nodes()[y],
            final(self).nodes()[id] == (DomNode { name, id_attr, attrs, classes, text_content, ..old(self).nodes()[id] }),
            forall|a: usize, x: usize| #[trigger] final(self).is_inclusive_ancestor(a, x) == old(self).is_inclusive_ancestor(a, x),
    {
        let ghost m0 = self.nodes();
        let node = arena_get_mut(&mut self.nodes, id);
        node.name = name;
        node.id_attr = id_attr;
        node.attrs = attrs;
        node.classes = classes;
        node.text_content = text_content;
        proof {
            let m1 = self.nodes();
            assert(m1.dom() =~= m0.dom());
            lemma_frame_flags(m0, m1, self.root);
        }
    }

    /// Creates a detached copy of node `s` (see [`copied_from`]) with no
    /// children, and returns its id.
    fn clone_one(&mut self, s: usize) -> (t: usize)
        requires
            old(self).wf(),
            old(self).nodes().contains_key(s),
        ensures
            final(self).wf(),
            final(self).root_id() == old(self).root_id(),
            final(self).removed_ids() == old(self).removed_ids(),
            !old(self).nodes().contains_key(t),
            final(self).nodes().dom() == old(self).nodes().dom().insert(t),
            forall|y: usize| #[trigger] old(self).nodes().contains_key(y) ==> final(self).nodes()[y] == old(self).nodes()[y],
            copied_from(final(self).nodes()[t], old(self).nodes()[s], t),
            final(self).nodes()[t].children@.len() == 0,
            final(self).nodes()[t].parent is None,
            forall|a: usize, x: usize| old(self).nodes().contains_key(x) ==>
                (#[trigger] final(self).is_inclusive_ancestor(a, x) == old(self).is_inclusive_ancestor(a, x)),
            forall|a: usize| #[trigger] final(self).is_inclusive_ancestor(a, t) <==> a == t,
    {
        let src = self.get_node(s).unwrap();
        let node_type = src.node_type;
        let name = copy_opt_string(&src.name);
        let id_attr = copy_opt_string(&src.id_attr);
        let attrs = copy_pairs(&src.attrs);
        let classes = copy_strings(&src.classes);
        let text_content = copy_opt_string(&src.text_content);
        let t = self.create_node(node_type);
        self.fill_copy(t, name, id_attr, attrs, classes, text_content);
        proof {
            let pm = parent_map(self.nodes());
            assert(pm.contains_key(t) && pm[t] is None);
            assert forall|a: usize| #[trigger] self.is_inclusive_ancestor(a, t) <==> a == t by {
                assert(reaches(pm, self.rank@, t, a) == (t == a || (pm.contains_key(t) && pm[t] is Some && reaches(pm, self.rank@, pm[t]->0, a))));
            }
        }
        t
    }
}


/// `a` and `b` agree on everything: payload, links (children by content)
/// and flags.
pub open spec fn node_matches(a: DomNode, b: DomNode) -> bool {
    &&& same_payload(a, b)
    &&& a.parent == b.parent
    &&& a.children@ == b.children@
    &&& a.in_document == b.in_document
    &&& a.dirty_descendants == b.dirty_descendants
}

/// Hanging a parentless `c` as the last child of a parentless, dirty,
/// unconnected `p` changes only the two links.
proof fn lemma_append_fresh(dm: Document, dn: Document, p: usize, c: usize)
    requires
        dm.wf(),
        dn.appended(&dm, p, c),
        dm.nodes().contains_key(p),
        dm.nodes().contains_key(c),
        p != c,
        dm.nodes()[p].parent is None,
        dm.nodes()[p].dirty_descendants,
        !dm.nodes()[p].in_document,
        dm.nodes()[c].parent is None,
        !dm.nodes()[p].children@.contains(c),
    ensures
        dn.nodes().dom() == dm.nodes().dom(),
        forall|y: usize| #[trigger] dm.nodes().contains_key(y) && y != p && y != c ==> node_matches(dn.nodes()[y], dm.nodes()[y]),
        same_payload(dn.nodes()[p], dm.nodes()[p]),
        dn.nodes()[p].parent is None,
        !dn.nodes()[p].in_document,
        dn.nodes()[p].dirty_descendants,
        dn.nodes()[p].children@ == dm.nodes()[p].children@.push(c),
        same_payload(dn.nodes()[c], dm.nodes()[c]),
        dn.nodes()[c].parent == Some(p),
        dn.nodes()[c].children@ == dm.nodes()[c].children@,
        dn.nodes()[c].in_document == dm.nodes()[c].in_document,
        dn.nodes()[c].dirty_descendants == dm.nodes()[c].dirty_descendants,
        forall|a: usize, y: usize| !dm.is_inclusive_ancestor(c, y) ==> (#[trigger] dn.is_inclusive_ancestor(a, y) == dm.is_inclusive_ancestor(a, y)),
{
    let m0 = dm.nodes();
    let m = dn.nodes();
    lemma_without_absent(m0[p].children@, c);
    assert forall|y: usize| #[trigger] m0.contains_key(y) && y != p implies m[y].in_document == m0[y].in_document
        && m[y].dirty_descendants == m0[y].dirty_descendants by {
        assert(!dirty_marked(m0, dm.rank@, p, y));
    }
}

/// The state of a clone of `s` after the copies of its first `i` children
/// have been hung below `t`, relative to the document `dd` it started from.
spec fn clone_progress(d0: Document, dd: Document, d: Document, s: usize, t: usize, f: Map<usize, usize>, i: int) -> bool {
    let kids = d0.nodes()[s].children@;
    &&& 0 <= i <= kids.len()
    &&& d.wf()
    &&& d.root_id() == dd.root_id()
    &&& d.removed_ids() == dd.removed_ids()
    &&& forall|y: usize| #[trigger] dd.nodes().contains_key(y) ==> d.nodes().contains_key(y) && node_matches(d.nodes()[y], dd.nodes()[y])
    &&& forall|a: usize, y: usize| dd.nodes().contains_key(y) ==> (#[trigger] d.is_inclusive_ancestor(a, y) == dd.is_inclusive_ancestor(a, y))
    &&& d.nodes().dom() == dd.nodes().dom() + f.values()
    &&& f.contains_key(s)
    &&& f[s] == t
    &&& forall|x: usize|
        #[trigger] f.contains_key(x) ==> {
            &&& !dd.nodes().contains_key(f[x])
            &&& d0.nodes().contains_key(x)
            &&& d0.is_inclusive_ancestor(s, x)
            &&& (x == s || exists|j: int| 0 <= j < i && d0.is_inclusive_ancestor(#[trigger] kids[j], x))
            &&& x != s ==> (d0.nodes()[x].parent is Some && f.contains_key(d0.nodes()[x].parent->0)
                && d0.nodes()[d0.nodes()[x].parent->0].children@.contains(x))
            &&& x != s ==> forall|j: int| 0 <= j < d0.nodes()[x].children@.len() ==> f.contains_key(#[trigger] d0.nodes()[x].children@[j])
            &&& d.nodes().contains_key(f[x])
            &&& copied_from(d.nodes()[f[x]], d0.nodes()[x], f[x])
            &&& x != s ==> d.nodes()[f[x]].children@ == mapped(d0.nodes()[x].children@, f)
            &&& d.nodes()[f[x]].parent == if x == s {
                None
            } else {
                Some(f[d0.nodes()[x].parent->0])
            }
        }
    &&& forall|j: int| 0 <= j < i ==> f.contains_key(#[trigger] kids[j])
    &&& d.nodes()[t].children@ == mapped(kids.take(i), f)
    &&& forall|x: usize, y: usize| #[trigger] f.contains_key(x) && #[trigger] f.contains_key(y) && f[x] == f[y] ==> x == y
}


/// Before hanging the copy `ti` of the `i`-th child below `t`: the append
/// succeeds and changes only the two links.
proof fn lemma_clone_pre_append(
    d0: Document,
    dd: Document,
    di: Document,
    dm: Document,
    s: usize,
    t: usize,
    f: Map<usize, usize>,
    fi: Map<usize, usize>,
    ti: usize,
    i: int,
)
    requires
        d0.wf(),
        d0.nodes().contains_key(s),
        clone_progress(d0, dd, di, s, t, f, i),
        i < d0.nodes()[s].children@.len(),
        clone_progress(d0, di, dm, d0.nodes()[s].children@[i], ti, fi, d0.nodes()[d0.nodes()[s].children@[i]].children@.len() as int),
    ensures
        append_check(dm, t, ti) == Ok::<(), DomError>(()),
        !is_shadow_child(dm.nodes(), ti),
        dm.nodes().contains_key(t),
        dm.nodes().contains_key(ti),
        t != ti,
        dm.nodes()[t].parent is None,
        dm.nodes()[t].dirty_descendants,
        !dm.nodes()[t].in_document,
        dm.nodes()[ti].parent is None,
        !dm.nodes()[t].children@.contains(ti),
        !di.nodes().contains_key(ti),
{
    let k = d0.nodes()[s].children@[i];
    assert(f.contains_key(s));
    assert(fi.contains_key(k));
    assert(di.nodes().dom().contains(t)) by {
        assert(f.values().contains(t));
    }
    assert(dm.nodes().contains_key(t));
    assert(!di.nodes().contains_key(ti));
    assert(dm.nodes().dom().contains(ti)) by {
        assert(fi.values().contains(ti));
    }
    assert(!dm.is_inclusive_ancestor(ti, t)) by {
        assert(dm.is_inclusive_ancestor(ti, t) == di.is_inclusive_ancestor(ti, t));
        if di.is_inclusive_ancestor(ti, t) {
            assert(parent_map(di.nodes()).contains_key(t));
            lemma_reaches_rank(parent_map(di.nodes()), di.rank@, di.bound@, t, ti);
        }
    }
    assert(!dm.nodes()[t].children@.contains(ti)) by {
        if dm.nodes()[t].children@.contains(ti) {
            let q = choose|q: int| 0 <= q < dm.nodes()[t].children@.len() && dm.nodes()[t].children@[q] == ti;
            assert(di.nodes()[t].children@ == mapped(d0.nodes()[s].children@.take(i), f));
            let c = d0.nodes()[s].children@.take(i)[q];
            assert(d0.nodes()[s].children@[q] == c);
            assert(f.contains_key(c));
            assert(f[c] == ti);
            assert(di.nodes().dom().contains(ti)) by {
                assert(f.values().contains(ti));
            }
        }
    }
}


/// Hanging the copy of the `i`-th child below `t` extends the clone by
/// that child's subtree.
#[verifier::rlimit(60)]
#[verifier::spinoff_prover]
proof fn lemma_clone_step(
    d0: Document,
    dd: Document,
    di: Document,
    dm: Document,
    dn: Document,
    s: usize,
    t: usize,
    f: Map<usize, usize>,
    fi: Map<usize, usize>,
    ti: usize,
    i: int,
)
    requires
        d0.wf(),
        d0.nodes().contains_key(s),
        forall|y: usize| #[trigger] d0.nodes().contains_key(y) ==> dd.nodes().contains_key(y),
        clone_progress(d0, dd, di, s, t, f, i),
        i < d0.nodes()[s].children@.len(),
        clone_progress(d0, di, dm, d0.nodes()[s].children@[i], ti, fi, d0.nodes()[d0.nodes()[s].children@[i]].children@.len() as int),
        dn.wf(),
        dn.root_id() == dm.root_id(),
        dn.removed_ids() == dm.removed_ids(),
        dn.appended(&dm, t, ti),
    ensures
        clone_progress(d0, dd, dn, s, t, f.union_prefer_right(fi), i + 1),
{
    let kids = d0.nodes()[s].children@;
    let k = kids[i];
    let m0 = d0.nodes();
    let pm0 = parent_map(m0);
    let f2 = f.union_prefer_right(fi);
    lemma_clone_pre_append(d0, dd, di, dm, s, t, f, fi, ti, i);
    lemma_append_fresh(dm, dn, t, ti);
    lemma_child_link(m0, s, i);
    assert(m0[k].parent == Some(s));
    assert(pm0.contains_key(k) && pm0[k] == Some(s));
    assert(d0.is_inclusive_ancestor(s, k)) by {
        assert(reaches(pm0, d0.rank@, s, s));
    }
    // The subtree of `k` is disjoint from what `f` covers.
    assert forall|x: usize| #[trigger] fi.contains_key(x) implies !f.contains_key(x) by {
        assert(d0.is_inclusive_ancestor(k, x));
        if f.contains_key(x) {
            if x == s {
                assert(pm0.contains_key(s));
                lemma_reaches_rank(pm0, d0.rank@, d0.bound@, s, k);
            } else {
                let j = choose|j: int| 0 <= j < i && d0.is_inclusive_ancestor(#[trigger] kids[j], x);
                reveal(ids_ok);
                assert(kids.no_duplicates());
                lemma_child_link(m0, s, j);
                lemma_siblings_disjoint(m0, d0.rank@, d0.bound@, kids[j], k, s, x);
            }
        }
    }
    // The copies made for `k` are new next to those made before.
    assert forall|x: usize, y: usize| #[trigger] f.contains_key(x) && #[trigger] fi.contains_key(y) implies f[x] != fi[y] by {
        assert(di.nodes().dom().contains(f[x])) by {
            assert(f.values().contains(f[x]));
        }
    }
    assert(f2.dom() == f.dom() + fi.dom());
    assert forall|x: usize| #[trigger] f.contains_key(x) implies f2[x] == f[x] by {}
    assert forall|x: usize| #[trigger] fi.contains_key(x) implies f2[x] == fi[x] by {}
    assert(f2.values() =~= f.values() + fi.values()) by {
        assert forall|v: usize| f2.values().contains(v) implies (f.values() + fi.values()).contains(v) by {
            let x = choose|x: usize| f2.dom().contains(x) && f2[x] == v;
            if fi.contains_key(x) {
                assert(fi.values().contains(v));
            } else {
                assert(f.values().contains(v));
            }
        }
        assert forall|v: usize| (f.values() + fi.values()).contains(v) implies f2.values().contains(v) by {
            if f.values().contains(v) {
                let x = choose|x: usize| f.dom().contains(x) && f[x] == v;
                assert(f2.dom().contains(x) && f2[x] == v);
            } else {
                let x = choose|x: usize| fi.dom().contains(x) && fi[x] == v;
                assert(f2.dom().contains(x) && f2[x] == v);
            }
        }
    }
    assert(dn.nodes().dom() =~= dd.nodes().dom() + f2.values());
    // Nodes of `dd`.
    assert forall|y: usize| #[trigger] dd.nodes().contains_key(y) implies dn.nodes().contains_key(y) && node_matches(dn.nodes()[y], dd.nodes()[y]) by {
        assert(di.nodes().contains_key(y));
        assert(y != t) by {
            assert(!dd.nodes().contains_key(f[s]));
        }
    }
    assert forall|a: usize, y: usize| dd.nodes().contains_key(y) implies (#[trigger] dn.is_inclusive_ancestor(a, y) == dd.is_inclusive_ancestor(a, y)) by {
        assert(di.nodes().contains_key(y));
        assert(!dm.is_inclusive_ancestor(ti, y)) by {
            assert(dm.is_inclusive_ancestor(ti, y) == di.is_inclusive_ancestor(ti, y));
            if di.is_inclusive_ancestor(ti, y) {
                assert(parent_map(di.nodes()).contains_key(y));
                lemma_reaches_rank(parent_map(di.nodes()), di.rank@, di.bound@, y, ti);
            }
        }
        assert(dn.is_inclusive_ancestor(a, y) == dm.is_inclusive_ancestor(a, y));
    }
    // Each copy.
    assert forall|x: usize| #[trigger] f2.contains_key(x) implies {
        &&& !dd.nodes().contains_key(f2[x])
        &&& m0.contains_key(x)
        &&& d0.is_inclusive_ancestor(s, x)
        &&& (x == s || exists|j: int| 0 <= j < i + 1 && d0.is_inclusive_ancestor(#[trigger] kids[j], x))
        &&& x != s ==> (m0[x].parent is Some && f2.contains_key(m0[x].parent->0) && m0[m0[x].parent->0].children@.contains(x))
        &&& x != s ==> forall|j: int| 0 <= j < m0[x].children@.len() ==> f2.contains_key(#[trigger] m0[x].children@[j])
        &&& dn.nodes().contains_key(f2[x])
        &&& copied_from(dn.nodes()[f2[x]], m0[x], f2[x])
        &&& x != s ==> dn.nodes()[f2[x]].children@ == mapped(m0[x].children@, f2)
        &&& dn.nodes()[f2[x]].parent == if x == s {
            None
        } else {
            Some(f2[m0[x].parent->0])
        }
    } by {
        if fi.contains_key(x) {
            let n = fi[x];
            assert(f2[x] == n);
            assert(!di.nodes().contains_key(n));
            assert(x != s);
            assert(d0.is_inclusive_ancestor(k, x));
            lemma_reaches_trans(pm0, d0.rank@, d0.bound@, x, k, s);
            assert(d0.is_inclusive_ancestor(kids[i], x));
            assert(n != t);
            assert forall|j: int| 0 <= j < m0[x].children@.len() implies f2.contains_key(#[trigger] m0[x].children@[j]) by {
                assert(fi.contains_key(m0[x].children@[j])) by {
                    if x == k {
                        assert(m0[k].children@.take(m0[k].children@.len() as int) =~= m0[k].children@);
                    }
                }
            }
            assert(dm.nodes()[n].children@ == mapped(m0[x].children@, fi)) by {
                if x == k {
                    assert(m0[k].children@.take(m0[k].children@.len() as int) =~= m0[k].children@);
                }
            }
            assert(mapped(m0[x].children@, fi) =~= mapped(m0[x].children@, f2)) by {
                assert forall|j: int| 0 <= j < m0[x].children@.len() implies fi[#[trigger] m0[x].children@[j]] == f2[m0[x].children@[j]] by {
                    assert(fi.contains_key(m0[x].children@[j])) by {
                        if x == k {
                            assert(m0[k].children@.take(m0[k].children@.len() as int) =~= m0[k].children@);
                        }
                    }
                }
            }
            if x == k {
                assert(n == ti);
                assert(s == m0[x].parent->0);
                assert(f2[s] == t);
                assert(m0[s].children@.contains(k)) by {
                    assert(m0[s].children@[i] == k);
                }
            } else {
                let p = m0[x].parent->0;
                assert(fi.contains_key(p));
                assert(f2[p] == fi[p]);
            }
        } else {
            assert(f.contains_key(x));
            let n = f[x];
            assert(f2[x] == n);
            assert(di.nodes().contains_key(n)) by {
                assert(f.values().contains(n));
            }
            assert(n != ti);
            if x != s {
                assert(n != t) by {
                    if n == t {
                        assert(f[x] == f[s]);
                    }
                }
                assert forall|j: int| 0 <= j < m0[x].children@.len() implies f2.contains_key(#[trigger] m0[x].children@[j]) by {
                    assert(f.contains_key(m0[x].children@[j]));
                }
                assert(mapped(m0[x].children@, f) =~= mapped(m0[x].children@, f2)) by {
                    assert forall|j: int| 0 <= j < m0[x].children@.len() implies f[#[trigger] m0[x].children@[j]] == f2[m0[x].children@[j]] by {
                        assert(f.contains_key(m0[x].children@[j]));
                        assert(!fi.contains_key(m0[x].children@[j]));
                    }
                }
                let p = m0[x].parent->0;
                assert(f.contains_key(p));
                assert(!fi.contains_key(p));
            }
        }
    }
    assert forall|j: int| 0 <= j < i + 1 implies f2.contains_key(#[trigger] kids[j]) by {
        if j < i {
            assert(f.contains_key(kids[j]));
        }
    }
    assert(dn.nodes()[t].children@ == mapped(kids.take(i + 1), f2)) by {
        assert(kids.take(i + 1) =~= kids.take(i).push(k));
        assert forall|j: int| 0 <= j < i implies f[#[trigger] kids.take(i)[j]] == f2[kids.take(i)[j]] by {
            assert(kids.take(i)[j] == kids[j]);
            assert(f.contains_key(kids[j]));
            assert(!fi.contains_key(kids[j]));
        }
        assert(mapped(kids.take(i + 1), f2) =~= mapped(kids.take(i), f).push(ti));
    }
    assert forall|x: usize, y: usize| #[trigger] f2.contains_key(x) && #[trigger] f2.contains_key(y) && f2[x] == f2[y] implies x == y by {
        if fi.contains_key(x) && fi.contains_key(y) {
        } else if !fi.contains_key(x) && !fi.contains_key(y) {
            assert(f.contains_key(x) && f.contains_key(y));
        } else if fi.contains_key(x) {
            assert(f.contains_key(y));
            assert(f[y] != fi[x]);
        } else {
            assert(f.contains_key(x));
            assert(f[x] != fi[y]);
        }
    }
}


/// Right after copying `s` alone, the clone covers `s`.
proof fn lemma_clone_start(d0: Document, dd: Document, d1: Document, s: usize, t: usize)
    requires
        d0.wf(),
        d0.nodes().contains_key(s),
        forall|y: usize| #[trigger] d0.nodes().contains_key(y) ==> dd.nodes().contains_key(y) && node_matches(dd.nodes()[y], d0.nodes()[y]),
        d1.wf(),
        d1.root_id() == dd.root_id(),
        d1.removed_ids() == dd.removed_ids(),
        !dd.nodes().contains_key(t),
        d1.nodes().dom() == dd.nodes().dom().insert(t),
        forall|y: usize| #[trigger] dd.nodes().contains_key(y) ==> d1.nodes()[y] == dd.nodes()[y],
        copied_from(d1.nodes()[t], dd.nodes()[s], t),
        d1.nodes()[t].children@.len() == 0,
        d1.nodes()[t].parent is None,
        forall|a: usize, x: usize| dd.nodes().contains_key(x) ==> (#[trigger] d1.is_inclusive_ancestor(a, x) == dd.is_inclusive_ancestor(a, x)),
    ensures
        clone_progress(d0, dd, d1, s, t, map![s => t], 0),
{
    let f = map![s => t];
    assert(f.values() =~= set![t]) by {
        assert(f.dom().contains(s) && f[s] == t);
    }
    assert(d1.nodes().dom() =~= dd.nodes().dom() + f.values());
    assert(d0.is_inclusive_ancestor(s, s)) by {
        assert(reaches(parent_map(d0.nodes()), d0.rank@, s, s));
    }
    assert(d1.nodes()[t].children@ =~= mapped(d0.nodes()[s].children@.take(0), f));
    assert forall|x: usize| #[trigger] f.contains_key(x) implies x == s by {}
}

/// A clone whose every child has been hung is a complete clone tree.
proof fn lemma_clone_done(d0: Document, dd: Document, d: Document, s: usize, t: usize, f: Map<usize, usize>)
    requires
        d0.wf(),
        d0.nodes().contains_key(s),
        forall|y: usize| #[trigger] d0.nodes().contains_key(y) ==> dd.nodes().contains_key(y),
        clone_progress(d0, dd, d, s, t, f, d0.nodes()[s].children@.len() as int),
    ensures
        clone_tree(d0, d, s, t, f),
{
    let kids = d0.nodes()[s].children@;
    assert(kids.take(kids.len() as int) =~= kids);
    assert forall|x: usize| #[trigger] f.contains_key(x) implies !d0.nodes().contains_key(f[x]) by {
        assert(!dd.nodes().contains_key(f[x]));
    }
}

impl Document {
    /// Deep-clones the children-subtree of `s` (as it is in `d0`, which the
    /// current document extends), returning the copy of `s` and the map from
    /// sources to copies.
    fn clone_rec(&mut self, s: usize, Ghost(d0): Ghost<Document>) -> (r: (usize, Ghost<Map<usize, usize>>))
        requires
            d0.wf(),
            d0.nodes().contains_key(s),
            old(self).wf(),
            forall|y: usize| #[trigger] d0.nodes().contains_key(y) ==> old(self).nodes().contains_key(y) && node_matches(
                old(self).nodes()[y],
                d0.nodes()[y],
            ),
            forall|a: usize, y: usize| d0.nodes().contains_key(y) ==> (#[trigger] old(self).is_inclusive_ancestor(a, y)
                == d0.is_inclusive_ancestor(a, y)),
        ensures
            clone_progress(d0, *old(self), *final(self), s, r.0, r.1@, d0.nodes()[s].children@.len() as int),
        decreases d0.bound@ - d0.rank@[s],
    {
        let ghost dd = *self;
        let t = self.clone_one(s);
        proof {
            lemma_clone_start(d0, dd, *self, s, t);
        }
        let ghost mut f: Map<usize, usize> = map![s => t];
        let kids = copy_ids(&self.get_node(s).unwrap().children);
        let mut i: usize = 0;
        while i < kids.len()
            invariant
                d0.wf(),
                d0.nodes().contains_key(s),
                kids@ == d0.nodes()[s].children@,
                forall|y: usize| #[trigger] d0.nodes().contains_key(y) ==> dd.nodes().contains_key(y) && node_matches(
                    dd.nodes()[y],
                    d0.nodes()[y],
                ),
                forall|a: usize, y: usize| d0.nodes().contains_key(y) ==> (#[trigger] dd.is_inclusive_ancestor(a, y)
                    == d0.is_inclusive_ancestor(a, y)),
                clone_progress(d0, dd, *self, s, t, f, i as int),
            decreases kids@.len() - i,
        {
            let k = kids[i];
            let ghost di = *self;
            proof {
                lemma_child_link(d0.nodes(), s, i as int);
                assert(parent_map(d0.nodes()).contains_key(k));
                assert forall|y: usize| #[trigger] d0.nodes().contains_key(y) implies di.nodes().contains_key(y) && node_matches(
                    di.nodes()[y],
                    d0.nodes()[y],
                ) by {
                    assert(dd.nodes().contains_key(y));
                }
                assert forall|a: usize, y: usize| d0.nodes().contains_key(y) implies (#[trigger] di.is_inclusive_ancestor(a, y)
                    == d0.is_inclusive_ancestor(a, y)) by {
                    assert(dd.nodes().contains_key(y));
                    assert(di.is_inclusive_ancestor(a, y) == dd.is_inclusive_ancestor(a, y));
                }
            }
            let res = self.clone_rec(k, Ghost(d0));
            let ti = res.0;
            let ghost fi = res.1@;
            let ghost dm = *self;
            proof {
                lemma_clone_pre_append(d0, dd, di, dm, s, t, f, fi, ti, i as int);
            }
            let _ = self.append_child(t, ti);
            proof {
                lemma_clone_step(d0, dd, di, dm, *self, s, t, f, fi, ti, i as int);
                f = f.union_prefer_right(fi);
            }
            i = i + 1;
        }
        (t, Ghost(f))
    }

    /// Clones node `node_id` (`cloneNode`): a detached copy holding its
    /// type, name, id attribute, attributes, classes and text (see
    /// [`copied_from`]); when `deep`, the children-subtree is copied too and
    /// hung below the copy in the same order (shadow trees are not copied).
    /// Nothing already in the document changes.
    pub fn clone_node(&mut self, node_id: usize, deep: bool) -> (r: Result<usize, DomError>)
        requires
            old(self).wf(),
        ensures
            final(self).wf(),
            final(self).root_id() == old(self).root_id(),
            final(self).removed_ids() == old(self).removed_ids(),
            !old(self).nodes().contains_key(node_id) ==> r == Err::<usize, DomError>(DomError::InvalidChild) && *final(self)
                == *old(self),
            old(self).nodes().contains_key(node_id) ==> (r matches Ok(t) && {
                &&& forall|y: usize| #[trigger] old(self).nodes().contains_key(y) ==> final(self).nodes().contains_key(y)
                    && node_matches(final(self).nodes()[y], old(self).nodes()[y])
                &&& forall|a: usize, y: usize| old(self).nodes().contains_key(y) ==> (#[trigger] final(self).is_inclusive_ancestor(
                    a,
                    y,
                ) == old(self).is_inclusive_ancestor(a, y))
                &&& if deep {
                    exists|f: Map<usize, usize>| #[trigger] clone_tree(*old(self), *final(self), node_id, t, f)
                        && final(self).nodes().dom() == old(self).nodes().dom() + f.values()
                } else {
                    &&& !old(self).nodes().contains_key(t)
                    &&& final(self).nodes().dom() == old(self).nodes().dom().insert(t)
                    &&& copied_from(final(self).nodes()[t], old(self).nodes()[node_id], t)
                    &&& final(self).nodes()[t].children@.len() == 0
                    &&& final(self).nodes()[t].parent is None
                }
            }),
    {
        if !arena_contains(&self.nodes, node_id) {
            return Err(DomError::InvalidChild);
        }
        if !deep {
            let t = self.clone_one(node_id);
            return Ok(t);
        }
        let ghost d0 = *self;
        let res = self.clone_rec(node_id, Ghost(d0));
        proof {
            lemma_clone_done(d0, d0, *self, node_id, res.0, res.1@);
        }
        Ok(res.0)
    }
}


/// The parent of `x` for style traversal: its parent when that is an
/// element; for a child of a shadow root, the shadow host when that is an
/// element; otherwise none.
pub open spec fn traversal_parent(m: Map<usize, DomNode>, x: usize) -> Option<usize> {
    if !m.contains_key(x) || m[x].parent is None || !m.contains_key(m[x].parent->0) {
        None
    } else {
        let p = m[x].parent->0;
        if m[p].node_type == NodeType::ShadowRoot {
            if m[p].parent is Some && m.contains_key(m[p].parent->0) && m[m[p].parent->0].node_type == NodeType::Element {
                m[p].parent
            } else {
                None
            }
        } else if m[p].node_type == NodeType::Element {
            Some(p)
        } else {
            None
        }
    }
}

/// The parent of `node_id` for style traversal (see [`traversal_parent`]).
pub fn traversal_parent_id(doc: &Document, node_id: usize) -> (r: Option<usize>)
    ensures
        r == traversal_parent(doc.nodes(), node_id),
{
    let node = match doc.get_node(node_id) {
        Some(n) => n,
        None => return None,
    };
    let parent_id = match node.parent {
        Some(p) => p,
        None => return None,
    };
    let parent = match doc.get_node(parent_id) {
        Some(p) => p,
        None => return None,
    };
    if matches!(parent.node_type, NodeType::ShadowRoot) {
        let host_id = match parent.parent {
            Some(h) => h,
            None => return None,
        };
        match doc.get_node(host_id) {
            Some(h) => if h.is_element() {
                Some(host_id)
            } else {
                None
            },
            None => None,
        }
    } else if parent.is_element() {
        Some(parent_id)
    } else {
        None
    }
}

} // verus!
