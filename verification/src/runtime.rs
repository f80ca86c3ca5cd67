//! The host-facing runtime state: a document, the last error, and the
//! handle-based operations a guest program calls.

use vstd::prelude::*;
use crate::document::{
    append_check, attrs_ok, insert_check, next_sibling_in, previous_sibling_in, remove_check,
    replace_check, Document, DomError,
};
use crate::events::{listener_added, listeners_without, ListenerOptions};
use crate::hashing::{id_set_insert, id_set_members, id_set_new};
use crate::node::{attr_map, attr_names_unique, DomNode, NodeType};

verus! {

#[verifier::external_type_specification]
#[verifier::external_body]
pub struct ExUrl(url::Url);

/// Whether `url::Url::parse` accepts the input as an absolute URL.
pub uninterp spec fn url_parse_ok(input: Seq<char>) -> bool;

/// Calls `url::Url::parse`. Whether it succeeds is a function of the input.
#[verifier::external_body]
fn parse_url(input: &str) -> (r: Option<url::Url>)
    ensures
        r is Some == url_parse_ok(input@),
{
    url::Url::parse(input).ok()
}

/// Error codes returned from host functions to guests.
#[derive(Debug, Clone, Copy, PartialEq, Eq)]
pub enum HostErrorCode {
    InvalidParent,
    InvalidChild,
    ChildAlreadyHasParent,
    CycleDetected,
    MemoryError,
}

impl HostErrorCode {
    /// The numeric code handed across the boundary.
    pub open spec fn code(self) -> i32 {
        match self {
            HostErrorCode::InvalidParent => -1i32,
            HostErrorCode::InvalidChild => -2i32,
            HostErrorCode::ChildAlreadyHasParent => -3i32,
            HostErrorCode::CycleDetected => -4i32,
            HostErrorCode::MemoryError => -5i32,
        }
    }

    /// Returns the numeric error code.
    pub fn as_i32(self) -> (r: i32)
        ensures
            r == self.code(),
    {
        match self {
            HostErrorCode::InvalidParent => -1,
            HostErrorCode::InvalidChild => -2,
            HostErrorCode::ChildAlreadyHasParent => -3,
            HostErrorCode::CycleDetected => -4,
            HostErrorCode::MemoryError => -5,
        }
    }

    /// Returns a human-readable description of this error code.
    pub fn message(self) -> (r: &'static str)
        ensures
            r@ == match self {
                HostErrorCode::InvalidParent => "invalid parent id"@,
                HostErrorCode::InvalidChild => "invalid child id"@,
                HostErrorCode::ChildAlreadyHasParent => "child already has a parent"@,
                HostErrorCode::CycleDetected => "append would create a cycle"@,
                HostErrorCode::MemoryError => "invalid memory access"@,
            },
    {
        match self {
            HostErrorCode::InvalidParent => "invalid parent id",
            HostErrorCode::InvalidChild => "invalid child id",
            HostErrorCode::ChildAlreadyHasParent => "child already has a parent",
            HostErrorCode::CycleDetected => "append would create a cycle",
            HostErrorCode::MemoryError => "invalid memory access",
        }
    }
}

/// Detailed error information stored in [`RuntimeState::last_error`].
#[derive(Debug, Clone)]
pub struct HostError {
    pub code: i32,
    pub message: String,
}

/// The host code for a tree error. A refused shadow root reports the host as
/// the invalid parent.
pub open spec fn host_code(e: DomError) -> HostErrorCode {
    match e {
        DomError::InvalidParent => HostErrorCode::InvalidParent,
        DomError::InvalidChild => HostErrorCode::InvalidChild,
        DomError::CycleDetected => HostErrorCode::CycleDetected,
        DomError::ChildAlreadyHasParent => HostErrorCode::ChildAlreadyHasParent,
        DomError::ShadowRootAlreadyExists => HostErrorCode::InvalidParent,
    }
}

/// A tree result as the host sees it.
pub open spec fn host_result(r: Result<(), DomError>) -> Result<(), HostErrorCode> {
    match r {
        Ok(()) => Ok(()),
        Err(e) => Err(host_code(e)),
    }
}

/// Maps a [`DomError`] to a [`HostErrorCode`].
pub fn dom_error_to_host(e: DomError) -> (r: HostErrorCode)
    ensures
        r == host_code(e),
{
    match e {
        DomError::InvalidParent => HostErrorCode::InvalidParent,
        DomError::InvalidChild => HostErrorCode::InvalidChild,
        DomError::CycleDetected => HostErrorCode::CycleDetected,
        DomError::ChildAlreadyHasParent => HostErrorCode::ChildAlreadyHasParent,
        DomError::ShadowRootAlreadyExists => HostErrorCode::InvalidParent,
    }
}

fn to_host(r: Result<(), DomError>) -> (h: Result<(), HostErrorCode>)
    ensures
        h == host_result(r),
{
    match r {
        Ok(()) => Ok(()),
        Err(e) => Err(dom_error_to_host(e)),
    }
}

/// No node has a shadow root: the runtime's documents never attach one.
pub open spec fn no_shadow(m: Map<usize, DomNode>) -> bool {
    forall|y: usize| #[trigger] m.contains_key(y) ==> m[y].shadow_root_id is None
}

/// The handle of node `id` as the host sees it (the low 32 bits).
pub open spec fn handle(id: usize) -> u32 {
    id as u32
}

/// Top-level state of the host runtime: the document and the last error.
pub struct RuntimeState {
    pub doc: Document,
    pub last_error: Option<HostError>,
    /// The document URL.
    pub url: url::Url,
}

impl RuntimeState {
    /// The runtime's invariant.
    pub open spec fn wf(&self) -> bool {
        &&& self.doc.wf()
        &&& attrs_ok(self.doc.nodes())
        &&& no_shadow(self.doc.nodes())
    }

    /// `self` holds a fresh document (just the connected document node) and
    /// no error.
    pub open spec fn is_fresh(&self) -> bool {
        &&& self.wf()
        &&& self.doc.nodes().dom() == set![self.doc.root_id()]
        &&& self.doc.nodes()[self.doc.root_id()].node_type == NodeType::Document
        &&& self.doc.nodes()[self.doc.root_id()].in_document
        &&& self.doc.nodes()[self.doc.root_id()].children@.len() == 0
        &&& self.doc.root_id() == 0
        &&& self.doc.next_id() == 1
        &&& self.doc.is_dense()
        &&& self.last_error is None
    }

    fn from_url(url: url::Url) -> (r: Self)
        ensures
            r.is_fresh(),
    {
        let doc = Document::new();
        let r = RuntimeState { doc, last_error: None, url };
        proof {
            assert(r.doc.nodes().dom() =~= set![r.doc.root_id()]);
            assert forall|y: usize| #[trigger] r.doc.nodes().contains_key(y) implies attr_names_unique(r.doc.nodes()[y].attrs@)
                && r.doc.nodes()[y].shadow_root_id is None by {
                assert(y == r.doc.root_id());
            }
        }
        r
    }

    /// Creates a runtime for a document at `url_str`, which must parse as an
    /// absolute URL.
    pub fn new(url_str: String) -> (r: Self)
        requires
            url_parse_ok(url_str@),
        ensures
            r.is_fresh(),
    {
        let url = parse_url(url_str.as_str()).unwrap();
        Self::from_url(url)
    }

    /// Creates a runtime for a document at `url_str`, or `None` when it does
    /// not parse as an absolute URL.
    pub fn try_new(url_str: String) -> (r: Option<Self>)
        ensures
            r is Some == url_parse_ok(url_str@),
            r matches Some(s) ==> s.is_fresh(),
    {
        match parse_url(url_str.as_str()) {
            Some(url) => Some(Self::from_url(url)),
            None => None,
        }
    }

    /// Creates a detached element named `tag` and returns its handle.
    pub fn create_element(&mut self, tag: String) -> (r: u32)
        requires
            old(self).wf(),
        ensures
            final(self).wf(),
            final(self).last_error == old(self).last_error,
            old(self).doc.is_dense() ==> final(self).doc.is_dense() && final(self).doc.next_id() == old(self).doc.next_id() + 1,
            r == handle(old(self).doc.next_id()),
            ({
                let id = old(self).doc.next_id();
                let m0 = old(self).doc.nodes();
                let m = final(self).doc.nodes();
                &&& !m0.contains_key(id)
                &&& m.dom() == m0.dom().insert(id)
                &&& forall|x: usize| x != id && m0.contains_key(x) ==> #[trigger] m[x] == m0[x]
                &&& m[id].name == Some(tag)
                &&& (DomNode { name: None, ..m[id] }).is_fresh(id, NodeType::Element)
            }),
            final(self).doc.root_id() == old(self).doc.root_id(),
            forall|a: usize, x: usize| old(self).doc.nodes().contains_key(x) ==>
                (final(self).doc.is_inclusive_ancestor(a, x) == old(self).doc.is_inclusive_ancestor(a, x)),
    {
        let id = self.doc.create_element(tag);
        proof {
            self.lemma_fresh_keeps_wf(old(self).doc.nodes(), id);
        }
        id as u32
    }

    /// Creates a detached text node holding `data` and returns its handle.
    pub fn create_text_node(&mut self, data: String) -> (r: u32)
        requires
            old(self).wf(),
        ensures
            final(self).wf(),
            final(self).last_error == old(self).last_error,
            old(self).doc.is_dense() ==> final(self).doc.is_dense() && final(self).doc.next_id() == old(self).doc.next_id() + 1,
            r == handle(old(self).doc.next_id()),
            ({
                let id = old(self).doc.next_id();
                let m0 = old(self).doc.nodes();
                let m = final(self).doc.nodes();
                &&& !m0.contains_key(id)
                &&& m.dom() == m0.dom().insert(id)
                &&& forall|x: usize| x != id && m0.contains_key(x) ==> #[trigger] m[x] == m0[x]
                &&& m[id].text_content == Some(data)
                &&& (DomNode { text_content: None, ..m[id] }).is_fresh(id, NodeType::Text)
            }),
            final(self).doc.root_id() == old(self).doc.root_id(),
            forall|a: usize, x: usize| old(self).doc.nodes().contains_key(x) ==>
                (final(self).doc.is_inclusive_ancestor(a, x) == old(self).doc.is_inclusive_ancestor(a, x)),
    {
        let id = self.doc.create_text_node(data);
        proof {
            self.lemma_fresh_keeps_wf(old(self).doc.nodes(), id);
        }
        id as u32
    }

    /// Adding one fresh node keeps the attribute and shadow-root parts of the
    /// invariant.
    proof fn lemma_fresh_keeps_wf(&self, m0: Map<usize, DomNode>, id: usize)
        requires
            self.doc.wf(),
            attrs_ok(m0),
            no_shadow(m0),
            self.doc.nodes().dom() == m0.dom().insert(id),
            forall|x: usize| x != id && m0.contains_key(x) ==> #[trigger] self.doc.nodes()[x] == m0[x],
            self.doc.nodes()[id].attrs@.len() == 0,
            self.doc.nodes()[id].shadow_root_id is None,
        ensures
            self.wf(),
    {
        let m = self.doc.nodes();
        assert forall|y: usize| #[trigger] m.contains_key(y) implies attr_names_unique(m[y].attrs@) && m[y].shadow_root_id is None by {
            if y != id {
                assert(m0.contains_key(y));
            }
        }
    }

    /// Removes node `id` and everything below it from the document.
    pub fn destroy_element(&mut self, id: u32) -> (r: Result<(), HostErrorCode>)
        requires
            old(self).wf(),
        ensures
            final(self).wf(),
            final(self).last_error == old(self).last_error,
            r is Err <==> !old(self).doc.nodes().contains_key(id as usize),
            r is Err ==> r == Err::<(), HostErrorCode>(HostErrorCode::InvalidChild) && final(self).doc == old(self).doc,
            r is Ok ==> final(self).doc.pruned(&old(self).doc, id as usize),
    {
        let res = self.doc.remove_node(id as usize);
        proof {
            let m0 = old(self).doc.nodes();
            let m = self.doc.nodes();
            if res is Ok {
                assert forall|y: usize| #[trigger] m.contains_key(y) implies attr_names_unique(m[y].attrs@) && m[y].shadow_root_id is None by {
                    self.doc.lemma_pruned_node(&old(self).doc, id as usize, y);
                    assert(m0.contains_key(y));
                }
            }
        }
        match res {
            Ok(()) => Ok(()),
            Err(e) => Err(dom_error_to_host(e)),
        }
    }
}

/// What the per-child checks of `append_elements` report, first failure
/// first.
pub open spec fn child_checks(d: Document, parent: u32, cs: Seq<u32>) -> Result<(), HostErrorCode>
    decreases cs.len(),
{
    if cs.len() == 0 {
        Ok(())
    } else {
        let c = cs[0];
        if !d.nodes().contains_key(c as usize) {
            Err(HostErrorCode::InvalidChild)
        } else if d.nodes()[c as usize].parent is Some && d.nodes()[c as usize].parent != Some(parent as usize) {
            Err(HostErrorCode::ChildAlreadyHasParent)
        } else if child_cycles(d, parent, c) {
            Err(HostErrorCode::CycleDetected)
        } else {
            child_checks(d, parent, cs.drop_first())
        }
    }
}

/// Appending `c` below `parent` would close a cycle: `c` is `parent` or one
/// of its ancestors.
pub open spec fn child_cycles(d: Document, parent: u32, c: u32) -> bool {
    parent == c || (d.nodes().contains_key(parent as usize) && d.is_inclusive_ancestor(c as usize, parent as usize))
}

/// A child that passes its checks in `d`.
pub open spec fn child_ok(d: Document, parent: u32, c: u32) -> bool {
    &&& d.nodes().contains_key(c as usize)
    &&& (d.nodes()[c as usize].parent is None || d.nodes()[c as usize].parent == Some(parent as usize))
    &&& !child_cycles(d, parent, c)
}

proof fn lemma_child_checks_ok(d: Document, parent: u32, cs: Seq<u32>)
    requires
        child_checks(d, parent, cs) is Ok,
    ensures
        forall|j: int| 0 <= j < cs.len() ==> #[trigger] child_ok(d, parent, cs[j]),
    decreases cs.len(),
{
    if cs.len() > 0 {
        lemma_child_checks_ok(d, parent, cs.drop_first());
        assert forall|j: int| 0 <= j < cs.len() implies #[trigger] child_ok(d, parent, cs[j]) by {
            if j > 0 {
                assert(cs[j] == cs.drop_first()[j - 1]);
            }
        }
    }
}

/// What `append_elements` reports before it changes anything: a repeated
/// handle, then the first child that fails its checks.
pub open spec fn batch_precheck(d: Document, parent: u32, cs: Seq<u32>) -> Result<(), HostErrorCode> {
    if !cs.no_duplicates() {
        Err(HostErrorCode::InvalidChild)
    } else {
        child_checks(d, parent, cs)
    }
}

/// Appending `cs[j]` below `parent` took `ds[j]` to `ds[j + 1]`.
pub open spec fn batch_step(ds: Seq<Document>, parent: u32, cs: Seq<u32>, j: int) -> bool {
    &&& append_check(ds[j], parent as usize, cs[j] as usize) is Ok
    &&& ds[j + 1].appended(&ds[j], parent as usize, cs[j] as usize)
}

/// `ds` are the documents that appending `cs[0..k]` one by one below
/// `parent` passes through, from `d0` to `dk`, after which the batch ends
/// with `r`: all appended, or stopped by the refused `cs[k]`.
pub open spec fn batch_run(
    d0: Document,
    dk: Document,
    parent: u32,
    cs: Seq<u32>,
    ds: Seq<Document>,
    k: int,
    r: Result<(), HostErrorCode>,
) -> bool {
    &&& 0 <= k <= cs.len()
    &&& ds.len() == k + 1
    &&& ds[0] == d0
    &&& ds[k] == dk
    &&& forall|i: int| 0 <= i < k ==> #[trigger] batch_step(ds, parent, cs, i)
    &&& k < cs.len() ==> r == host_result(append_check(ds[k], parent as usize, cs[k] as usize)) && r is Err
    &&& k == cs.len() ==> r is Ok
}

impl RuntimeState {
    /// A document whose nodes all keep their payload keeps the attribute and
    /// shadow-root parts of the invariant.
    proof fn lemma_payload_keeps_wf(&self, m0: Map<usize, DomNode>)
        requires
            self.doc.wf(),
            attrs_ok(m0),
            no_shadow(m0),
            forall|y: usize| #[trigger] self.doc.nodes().contains_key(y) ==> m0.contains_key(y) && self.doc.nodes()[y].attrs
                == m0[y].attrs && self.doc.nodes()[y].shadow_root_id == m0[y].shadow_root_id,
        ensures
            self.wf(),
    {
        let m = self.doc.nodes();
        assert forall|y: usize| #[trigger] m.contains_key(y) implies attr_names_unique(m[y].attrs@) && m[y].shadow_root_id is None by {
            assert(m0.contains_key(y));
        }
    }

    /// Sets attribute `name` of element `id` to `value`.
    pub fn set_attribute(&mut self, id: u32, name: String, value: String) -> (r: Result<(), HostErrorCode>)
        requires
            old(self).wf(),
        ensures
            final(self).wf(),
            final(self).last_error == old(self).last_error,
            final(self).doc.same_ids(&old(self).doc),
            r is Ok <==> old(self).doc.nodes().contains_key(id as usize) && old(self).doc.nodes()[id as usize].node_type
                == NodeType::Element,
            r is Err ==> r == Err::<(), HostErrorCode>(HostErrorCode::InvalidChild) && final(self).doc == old(self).doc,
            r is Ok ==> {
                let m0 = old(self).doc.nodes();
                let m = final(self).doc.nodes();
                &&& m.dom() == m0.dom()
                &&& forall|y: usize| y != id as usize ==> #[trigger] m[y] == m0[y]
                &&& m[id as usize].attr_set_from(m0[id as usize], name@, value@)
                &&& final(self).doc.root_id() == old(self).doc.root_id()
            },
    {
        let is_el = match self.doc.get_node(id as usize) {
            Some(n) => n.is_element(),
            None => return Err(HostErrorCode::InvalidChild),
        };
        if !is_el {
            return Err(HostErrorCode::InvalidChild);
        }
        self.doc.set_node_attribute(id as usize, name.as_str(), value.as_str());
        proof {
            let m0 = old(self).doc.nodes();
            let m = self.doc.nodes();
            assert forall|y: usize| #[trigger] m.contains_key(y) implies m0.contains_key(y) && m[y].attrs == m0[y].attrs
                || y == id as usize by {}
            assert(attr_names_unique(m[id as usize].attrs@));
            assert forall|y: usize| #[trigger] m.contains_key(y) implies attr_names_unique(m[y].attrs@) && m[y].shadow_root_id is None by {
                if y != id as usize {
                    assert(m0.contains_key(y));
                } else {
                    assert(m0[y].shadow_root_id is None);
                }
            }
        }
        Ok(())
    }

    /// Clears the last stored error.
    pub fn clear_error(&mut self)
        ensures
            final(self).last_error is None,
            final(self).doc == old(self).doc,
    {
        self.last_error = None;
    }

    /// Stores an error and returns its numeric code.
    pub fn set_error(&mut self, code: HostErrorCode, message: String) -> (r: i32)
        ensures
            r == code.code(),
            final(self).last_error == Some(HostError { code: code.code(), message }),
            final(self).doc == old(self).doc,
    {
        self.last_error = Some(HostError { code: code.as_i32(), message });
        code.as_i32()
    }

    /// Appends node `child` as the last child of node `parent`.
    pub fn append_element(&mut self, parent: u32, child: u32) -> (r: Result<(), HostErrorCode>)
        requires
            old(self).wf(),
        ensures
            final(self).wf(),
            final(self).last_error == old(self).last_error,
            final(self).doc.same_ids(&old(self).doc),
            r == host_result(append_check(old(self).doc, parent as usize, child as usize)),
            r is Err ==> final(self).doc == old(self).doc,
            r is Ok ==> final(self).doc.appended(&old(self).doc, parent as usize, child as usize),
    {
        let res = self.doc.append_child(parent as usize, child as usize);
        proof {
            let m0 = old(self).doc.nodes();
            if res is Ok {
                assert forall|y: usize| #[trigger] self.doc.nodes().contains_key(y) implies m0.contains_key(y)
                    && self.doc.nodes()[y].attrs == m0[y].attrs && self.doc.nodes()[y].shadow_root_id == m0[y].shadow_root_id by {
                    let kids = crate::document::without(m0[parent as usize].children@, child as usize).push(child as usize);
                    self.doc.lemma_attached_node(&old(self).doc, parent as usize, child as usize, kids, y);
                }
            }
            self.lemma_payload_keeps_wf(m0);
        }
        to_host(res)
    }

    /// Appends several nodes, in order, below `parent`. Every child is
    /// checked before anything changes: repeated handles, and children that
    /// are missing, belong to another parent, or are `parent` itself or one
    /// of its ancestors, are refused with the document left as it was; then
    /// the children are appended one by one. A refusal (a missing parent
    /// included) always leaves the document unchanged.
    pub fn append_elements(&mut self, parent: u32, children: &[u32]) -> (r: Result<(), HostErrorCode>)
        requires
            old(self).wf(),
        ensures
            final(self).wf(),
            final(self).last_error == old(self).last_error,
            final(self).doc.same_ids(&old(self).doc),
            batch_precheck(old(self).doc, parent, children@) is Err ==> r == batch_precheck(old(self).doc, parent, children@)
                && final(self).doc == old(self).doc,
            batch_precheck(old(self).doc, parent, children@) is Ok ==> exists|ds: Seq<Document>, k: int|
                batch_run(old(self).doc, final(self).doc, parent, children@, ds, k, r),
            r is Err ==> final(self).doc == old(self).doc,
    {
        // Repeated handles.
        let mut seen = id_set_new();
        let mut i: usize = 0;
        while i < children.len()
            invariant
                i <= children@.len(),
                forall|x: u32| #[trigger] id_set_members(seen).contains(x) <==> children@.take(i as int).contains(x),
                children@.take(i as int).no_duplicates(),
                *self == *old(self),
                old(self).wf(),
            decreases children@.len() - i,
        {
            let fresh = id_set_insert(&mut seen, children[i]);
            proof {
                assert(children@.take(i + 1) =~= children@.take(i as int).push(children@[i as int]));
            }
            if !fresh {
                proof {
                    assert(children@.take(i as int).contains(children@[i as int]));
                    let k = choose|k: int| 0 <= k < i && children@.take(i as int)[k] == children@[i as int];
                    assert(children@[k] == children@[i as int]);
                    assert(!children@.no_duplicates());
                    assert(!children@.no_duplicates());
                    assert(batch_precheck(old(self).doc, parent, children@) == Err::<(), HostErrorCode>(HostErrorCode::InvalidChild));
                    assert(self.doc == old(self).doc);
                }
                return Err(HostErrorCode::InvalidChild);
            }
            proof {
                let pre = children@.take(i as int);
                let pre1 = children@.take(i + 1);
                assert(pre1 =~= pre.push(children@[i as int]));
                assert forall|x: u32| #[trigger] id_set_members(seen).contains(x) <==> pre1.contains(x) by {
                    crate::document::lemma_seq_push_contains_u32(pre, children@[i as int], x);
                }
                assert forall|p: int, q: int| 0 <= p < q < pre1.len() implies pre1[p] != pre1[q] by {
                    if q == i {
                        assert(pre.contains(pre[p]));
                    } else {
                        assert(pre[p] != pre[q]);
                    }
                }
            }
            i = i + 1;
        }
        proof {
            assert(children@.take(children@.len() as int) =~= children@);
        }
        // Per-child checks.
        let mut i: usize = 0;
        while i < children.len()
            invariant
                i <= children@.len(),
                child_checks(old(self).doc, parent, children@) == child_checks(old(self).doc, parent, children@.skip(i as int)),
                *self == *old(self),
                self.wf(),
                children@.no_duplicates(),
            decreases children@.len() - i,
        {
            let c = children[i];
            proof {
                assert(children@.skip(i as int).drop_first() =~= children@.skip(i + 1));
                assert(children@.skip(i as int)[0] == c);
            }
            let ghost rest = children@.skip(i as int);
            let node_opt = self.doc.get_node(c as usize);
            if node_opt.is_none() {
                proof {
                    assert(child_checks(old(self).doc, parent, rest) == Err::<(), HostErrorCode>(HostErrorCode::InvalidChild));
                }
                return Err(HostErrorCode::InvalidChild);
            }
            let node = node_opt.unwrap();
            let other_parent = match node.parent {
                Some(q) => q != parent as usize,
                None => false,
            };
            if other_parent {
                proof {
                    assert(child_checks(old(self).doc, parent, rest) == Err::<(), HostErrorCode>(HostErrorCode::ChildAlreadyHasParent));
                }
                return Err(HostErrorCode::ChildAlreadyHasParent);
            }
            let cycles = if parent == c {
                true
            } else if self.doc.get_node(parent as usize).is_some() {
                self.doc.is_ancestor_or_self(c as usize, parent as usize)
            } else {
                false
            };
            if cycles {
                proof {
                    assert(child_checks(old(self).doc, parent, rest) == Err::<(), HostErrorCode>(HostErrorCode::CycleDetected));
                }
                return Err(HostErrorCode::CycleDetected);
            }
            proof {
                assert(child_checks(old(self).doc, parent, rest) == child_checks(old(self).doc, parent, children@.skip(i + 1)));
            }
            i = i + 1;
        }
        proof {
            assert(children@.skip(children@.len() as int) =~= Seq::<u32>::empty());
            assert(batch_precheck(old(self).doc, parent, children@) is Ok);
            lemma_child_checks_ok(old(self).doc, parent, children@);
        }
        // Append one by one.
        let ghost mut ds: Seq<Document> = seq![old(self).doc];
        let mut i: usize = 0;
        while i < children.len()
            invariant
                i <= children@.len(),
                self.wf(),
                self.last_error == old(self).last_error,
                ds.len() == i + 1,
                ds[0] == old(self).doc,
                ds[i as int] == self.doc,
                self.doc.same_ids(&old(self).doc),
                batch_precheck(old(self).doc, parent, children@) is Ok,
                forall|j: int| 0 <= j < i ==> #[trigger] batch_step(ds, parent, children@, j),
                children@.no_duplicates(),
                i > 0 ==> self.doc.nodes().contains_key(parent as usize),
                forall|j: int| i <= j < children@.len() ==> #[trigger] child_ok(self.doc, parent, children@[j]),
            decreases children@.len() - i,
        {
            let ghost d_before = self.doc;
            let res = self.append_element(parent, children[i]);
            if res.is_err() {
                proof {
                    assert(child_ok(d_before, parent, children@[i as int]));
                    if i > 0 {
                        assert(append_check(d_before, parent as usize, children@[i as int] as usize) is Ok);
                    }
                    assert(0 <= i <= children@.len());
                    assert(ds[0] == old(self).doc);
                    assert(ds[i as int] == self.doc);
                    assert(res == host_result(append_check(ds[i as int], parent as usize, children@[i as int] as usize)));
                    assert(batch_run(old(self).doc, self.doc, parent, children@, ds, i as int, res));
                }
                return res;
            }
            proof {
                assert(child_ok(d_before, parent, children@[i as int]));
                let ci = children@[i as int] as usize;
                assert forall|j: int| i + 1 <= j < children@.len() implies #[trigger] child_ok(self.doc, parent, children@[j]) by {
                    assert(child_ok(d_before, parent, children@[j]));
                    let cj = children@[j] as usize;
                    assert(children@[j] != children@[i as int]);
                    assert(d_before.nodes().contains_key(cj));
                    assert(self.doc.is_inclusive_ancestor(cj, parent as usize) == ((d_before.is_inclusive_ancestor(cj, parent as usize)
                        && (d_before.is_inclusive_ancestor(ci, parent as usize) ==> d_before.is_inclusive_ancestor(ci, cj)))
                        || (d_before.is_inclusive_ancestor(ci, parent as usize) && d_before.is_inclusive_ancestor(cj, parent as usize))));
                }
                let ds0 = ds;
                ds = ds.push(self.doc);
                assert forall|j: int| 0 <= j < i + 1 implies #[trigger] batch_step(ds, parent, children@, j) by {
                    if j < i {
                        assert(batch_step(ds0, parent, children@, j));
                        assert(ds[j] == ds0[j] && ds[j + 1] == ds0[j + 1]);
                    }
                }
            }
            i = i + 1;
        }
        proof {
            assert(batch_run(old(self).doc, self.doc, parent, children@, ds, i as int, Ok(())));
        }
        Ok(())
    }

    /// Removes node `child` from node `parent` without deleting it.
    pub fn remove_child(&mut self, parent: u32, child: u32) -> (r: Result<(), HostErrorCode>)
        requires
            old(self).wf(),
        ensures
            final(self).wf(),
            final(self).last_error == old(self).last_error,
            final(self).doc.same_ids(&old(self).doc),
            r == host_result(remove_check(old(self).doc, parent as usize, child as usize)),
            r is Err ==> final(self).doc == old(self).doc,
            r is Ok ==> final(self).doc.detached_from(&old(self).doc, child as usize),
            final(self).doc.nodes().dom() == old(self).doc.nodes().dom(),
    {
        let res = self.doc.remove_child(parent as usize, child as usize);
        proof {
            let m0 = old(self).doc.nodes();
            if res is Ok {
                assert forall|y: usize| #[trigger] self.doc.nodes().contains_key(y) implies m0.contains_key(y)
                    && self.doc.nodes()[y].attrs == m0[y].attrs && self.doc.nodes()[y].shadow_root_id == m0[y].shadow_root_id by {
                    self.doc.lemma_detached_node(&old(self).doc, child as usize, y);
                }
            }
            self.lemma_payload_keeps_wf(m0);
        }
        to_host(res)
    }

    /// Puts node `new_child` in the place of node `old_child` among the
    /// children of node `parent`.
    pub fn replace_child(&mut self, parent: u32, new_child: u32, old_child: u32) -> (r: Result<(), HostErrorCode>)
        requires
            old(self).wf(),
        ensures
            final(self).wf(),
            final(self).last_error == old(self).last_error,
            final(self).doc.same_ids(&old(self).doc),
            r == host_result(replace_check(old(self).doc, parent as usize, new_child as usize, old_child as usize)),
            r is Err || new_child == old_child ==> final(self).doc == old(self).doc,
            r is Ok && new_child != old_child ==> final(self).doc.replaced(&old(self).doc, parent as usize, new_child as usize, old_child as usize),
    {
        let res = self.doc.replace_child(parent as usize, new_child as usize, old_child as usize);
        proof {
            let m0 = old(self).doc.nodes();
            if res is Ok && new_child != old_child {
                assert forall|y: usize| #[trigger] self.doc.nodes().contains_key(y) implies m0.contains_key(y)
                    && self.doc.nodes()[y].attrs == m0[y].attrs && self.doc.nodes()[y].shadow_root_id == m0[y].shadow_root_id by {
                    self.doc.lemma_replaced_node(&old(self).doc, parent as usize, new_child as usize, old_child as usize, y);
                }
            }
            self.lemma_payload_keeps_wf(m0);
        }
        to_host(res)
    }
}

/// A node id as a host handle, when there is one.
pub open spec fn handle_of(id: Option<usize>) -> Option<u32> {
    match id {
        Some(x) => Some(handle(x)),
        None => None,
    }
}

fn to_handle(id: Option<usize>) -> (r: Option<u32>)
    ensures
        r == handle_of(id),
{
    match id {
        Some(x) => Some(x as u32),
        None => None,
    }
}

impl RuntimeState {
    /// The first child of node `id`, if any.
    pub fn get_first_child(&self, id: u32) -> (r: Result<Option<u32>, HostErrorCode>)
        requires
            self.wf(),
        ensures
            r == if !self.doc.nodes().contains_key(id as usize) {
                Err(HostErrorCode::InvalidChild)
            } else {
                let kids = self.doc.nodes()[id as usize].children@;
                Ok(if kids.len() > 0 { Some(handle(kids[0])) } else { None })
            },
    {
        let node = match self.doc.get_node(id as usize) {
            Some(n) => n,
            None => return Err(HostErrorCode::InvalidChild),
        };
        if node.children.len() > 0 {
            Ok(Some(node.children[0] as u32))
        } else {
            Ok(None)
        }
    }

    /// The last child of node `id`, if any.
    pub fn get_last_child(&self, id: u32) -> (r: Result<Option<u32>, HostErrorCode>)
        requires
            self.wf(),
        ensures
            r == if !self.doc.nodes().contains_key(id as usize) {
                Err(HostErrorCode::InvalidChild)
            } else {
                let kids = self.doc.nodes()[id as usize].children@;
                Ok(if kids.len() > 0 { Some(handle(kids.last())) } else { None })
            },
    {
        let node = match self.doc.get_node(id as usize) {
            Some(n) => n,
            None => return Err(HostErrorCode::InvalidChild),
        };
        let n = node.children.len();
        if n > 0 {
            Ok(Some(node.children[n - 1] as u32))
        } else {
            Ok(None)
        }
    }

    /// The next sibling of node `id`, if any.
    pub fn get_next_sibling(&self, id: u32) -> (r: Result<Option<u32>, HostErrorCode>)
        requires
            self.wf(),
        ensures
            r == if !self.doc.nodes().contains_key(id as usize) {
                Err(HostErrorCode::InvalidChild)
            } else {
                Ok(handle_of(next_sibling_in(self.doc.nodes(), id as usize)))
            },
    {
        if self.doc.get_node(id as usize).is_none() {
            return Err(HostErrorCode::InvalidChild);
        }
        Ok(to_handle(self.doc.get_next_sibling(id as usize)))
    }

    /// The previous sibling of node `id`, if any.
    pub fn get_previous_sibling(&self, id: u32) -> (r: Result<Option<u32>, HostErrorCode>)
        requires
            self.wf(),
        ensures
            r == if !self.doc.nodes().contains_key(id as usize) {
                Err(HostErrorCode::InvalidChild)
            } else {
                Ok(handle_of(previous_sibling_in(self.doc.nodes(), id as usize)))
            },
    {
        if self.doc.get_node(id as usize).is_none() {
            return Err(HostErrorCode::InvalidChild);
        }
        Ok(to_handle(self.doc.get_previous_sibling(id as usize)))
    }

    /// The parent of node `id` when that parent is an element.
    pub fn get_parent_element(&self, id: u32) -> (r: Result<Option<u32>, HostErrorCode>)
        requires
            self.wf(),
        ensures
            r == if !self.doc.nodes().contains_key(id as usize) {
                Err(HostErrorCode::InvalidChild)
            } else {
                let m = self.doc.nodes();
                match m[id as usize].parent {
                    Some(p) => if m.contains_key(p) && m[p].node_type == NodeType::Element {
                        Ok(Some(handle(p)))
                    } else {
                        Ok(None)
                    },
                    None => Ok(None),
                }
            },
    {
        let node = match self.doc.get_node(id as usize) {
            Some(n) => n,
            None => return Err(HostErrorCode::InvalidChild),
        };
        let parent_id = match node.parent {
            Some(pid) => pid,
            None => return Ok(None),
        };
        match self.doc.get_node(parent_id) {
            Some(p) => if p.is_element() {
                Ok(Some(parent_id as u32))
            } else {
                Ok(None)
            },
            None => Ok(None),
        }
    }

    /// The parent of node `id`, of any type.
    pub fn get_parent_node(&self, id: u32) -> (r: Result<Option<u32>, HostErrorCode>)
        requires
            self.wf(),
        ensures
            r == if !self.doc.nodes().contains_key(id as usize) {
                Err(HostErrorCode::InvalidChild)
            } else {
                Ok(handle_of(self.doc.nodes()[id as usize].parent))
            },
    {
        let node = match self.doc.get_node(id as usize) {
            Some(n) => n,
            None => return Err(HostErrorCode::InvalidChild),
        };
        Ok(to_handle(node.parent))
    }

    /// Whether node `id` is connected to the document.
    pub fn is_connected(&self, id: u32) -> (r: Result<bool, HostErrorCode>)
        requires
            self.wf(),
        ensures
            r == if !self.doc.nodes().contains_key(id as usize) {
                Err(HostErrorCode::InvalidChild)
            } else {
                Ok(self.doc.nodes()[id as usize].in_document)
            },
    {
        match self.doc.get_node(id as usize) {
            Some(n) => Ok(n.in_document),
            None => Err(HostErrorCode::InvalidChild),
        }
    }

    /// Whether element `id` has the named attribute.
    pub fn has_attribute(&self, id: u32, name: &str) -> (r: Result<bool, HostErrorCode>)
        requires
            self.wf(),
        ensures
            r == if !self.doc.nodes().contains_key(id as usize) || self.doc.nodes()[id as usize].node_type
                != NodeType::Element {
                Err(HostErrorCode::InvalidChild)
            } else {
                Ok(attr_map(self.doc.nodes()[id as usize].attrs@).contains_key(name@))
            },
    {
        let node = match self.doc.get_node(id as usize) {
            Some(n) => n,
            None => return Err(HostErrorCode::InvalidChild),
        };
        if !node.is_element() {
            return Err(HostErrorCode::InvalidChild);
        }
        Ok(node.has_attribute(name))
    }

    /// The value of the named attribute of element `id`, if present.
    pub fn get_attribute(&self, id: u32, name: &str) -> (r: Result<Option<String>, HostErrorCode>)
        requires
            self.wf(),
        ensures
            !self.doc.nodes().contains_key(id as usize) || self.doc.nodes()[id as usize].node_type != NodeType::Element
                ==> r == Err::<Option<String>, HostErrorCode>(HostErrorCode::InvalidChild),
            self.doc.nodes().contains_key(id as usize) && self.doc.nodes()[id as usize].node_type == NodeType::Element
                ==> match r {
                Ok(Some(v)) => attr_map(self.doc.nodes()[id as usize].attrs@).contains_key(name@) && v@
                    == attr_map(self.doc.nodes()[id as usize].attrs@)[name@],
                Ok(None) => !attr_map(self.doc.nodes()[id as usize].attrs@).contains_key(name@),
                Err(_) => false,
            },
    {
        let node = match self.doc.get_node(id as usize) {
            Some(n) => n,
            None => return Err(HostErrorCode::InvalidChild),
        };
        if !node.is_element() {
            return Err(HostErrorCode::InvalidChild);
        }
        match node.get_attribute(name) {
            Some(v) => Ok(Some(v.to_owned())),
            None => Ok(None),
        }
    }

    /// Removes the named attribute from element `id`.
    pub fn remove_attribute(&mut self, id: u32, name: &str) -> (r: Result<(), HostErrorCode>)
        requires
            old(self).wf(),
        ensures
            final(self).wf(),
            final(self).last_error == old(self).last_error,
            final(self).doc.same_ids(&old(self).doc),
            r is Ok <==> old(self).doc.nodes().contains_key(id as usize) && old(self).doc.nodes()[id as usize].node_type
                == NodeType::Element,
            r is Err ==> r == Err::<(), HostErrorCode>(HostErrorCode::InvalidChild) && final(self).doc == old(self).doc,
            r is Ok ==> {
                let m0 = old(self).doc.nodes();
                let m = final(self).doc.nodes();
                &&& m.dom() == m0.dom()
                &&& forall|y: usize| y != id as usize ==> #[trigger] m[y] == m0[y]
                &&& m[id as usize].attr_removed_from(m0[id as usize], name@)
                &&& final(self).doc.root_id() == old(self).doc.root_id()
            },
    {
        let is_el = match self.doc.get_node(id as usize) {
            Some(n) => n.is_element(),
            None => return Err(HostErrorCode::InvalidChild),
        };
        if !is_el {
            return Err(HostErrorCode::InvalidChild);
        }
        self.doc.remove_node_attribute(id as usize, name);
        proof {
            let m0 = old(self).doc.nodes();
            let m = self.doc.nodes();
            assert forall|y: usize| #[trigger] m.contains_key(y) implies attr_names_unique(m[y].attrs@) && m[y].shadow_root_id is None by {
                if y != id as usize {
                    assert(m0.contains_key(y));
                } else {
                    assert(m0[y].shadow_root_id is None);
                }
            }
        }
        Ok(())
    }

    /// Registers an event listener on node `id` (see
    /// [`Document::add_event_listener`]); a missing node is `InvalidChild`.
    pub fn add_event_listener(&mut self, id: u32, event_type: String, callback_id: u32, options: ListenerOptions) -> (r: Result<(), HostErrorCode>)
        requires
            old(self).wf(),
        ensures
            final(self).wf(),
            final(self).last_error == old(self).last_error,
            final(self).doc.same_ids(&old(self).doc),
            r is Ok <==> old(self).doc.nodes().contains_key(id as usize),
            r is Err ==> r == Err::<(), HostErrorCode>(HostErrorCode::InvalidChild) && final(self).doc == old(self).doc,
            r is Ok ==> {
                let m0 = old(self).doc.nodes();
                let m = final(self).doc.nodes();
                &&& m.dom() == m0.dom()
                &&& forall|y: usize| y != id as usize ==> #[trigger] m[y] == m0[y]
                &&& m[id as usize] == (DomNode { event_listeners: m[id as usize].event_listeners, ..m0[id as usize] })
                &&& listener_added(old(self).doc.listeners_of(id as usize), final(self).doc.listeners_of(id as usize), event_type@, callback_id, options)
                &&& final(self).doc.root_id() == old(self).doc.root_id()
            },
    {
        if self.doc.get_node(id as usize).is_none() {
            return Err(HostErrorCode::InvalidChild);
        }
        self.doc.add_event_listener(id as usize, event_type, callback_id, options);
        proof {
            self.lemma_listeners_keep_wf(*old(self), id as usize);
        }
        Ok(())
    }

    /// Removes an event listener from node `id` (see
    /// [`Document::remove_event_listener`]); a missing node is `InvalidChild`.
    pub fn remove_event_listener(&mut self, id: u32, event_type: String, callback_id: u32, capture: bool) -> (r: Result<(), HostErrorCode>)
        requires
            old(self).wf(),
        ensures
            final(self).wf(),
            final(self).last_error == old(self).last_error,
            final(self).doc.same_ids(&old(self).doc),
            r is Ok <==> old(self).doc.nodes().contains_key(id as usize),
            r is Err ==> r == Err::<(), HostErrorCode>(HostErrorCode::InvalidChild) && final(self).doc == old(self).doc,
            r is Ok ==> {
                let m0 = old(self).doc.nodes();
                let m = final(self).doc.nodes();
                &&& m.dom() == m0.dom()
                &&& forall|y: usize| y != id as usize ==> #[trigger] m[y] == m0[y]
                &&& m[id as usize] == (DomNode { event_listeners: m[id as usize].event_listeners, ..m0[id as usize] })
                &&& final(self).doc.listeners_of(id as usize) == listeners_without(old(self).doc.listeners_of(id as usize), event_type@, callback_id, capture)
                &&& final(self).doc.root_id() == old(self).doc.root_id()
            },
    {
        if self.doc.get_node(id as usize).is_none() {
            return Err(HostErrorCode::InvalidChild);
        }
        self.doc.remove_event_listener(id as usize, event_type.as_str(), callback_id, capture);
        proof {
            self.lemma_listeners_keep_wf(*old(self), id as usize);
        }
        Ok(())
    }

    /// A change to the listeners of one node keeps the state well formed.
    proof fn lemma_listeners_keep_wf(&self, s0: RuntimeState, id: usize)
        requires
            s0.wf(),
            self.doc.wf(),
            self.doc.nodes().dom() == s0.doc.nodes().dom(),
            forall|y: usize| y != id ==> #[trigger] self.doc.nodes()[y] == s0.doc.nodes()[y],
            self.doc.nodes()[id] == (DomNode { event_listeners: self.doc.nodes()[id].event_listeners, ..s0.doc.nodes()[id] }),
        ensures
            self.wf(),
    {
        let m0 = s0.doc.nodes();
        let m = self.doc.nodes();
        assert forall|y: usize| #[trigger] m.contains_key(y) implies attr_names_unique(m[y].attrs@) && m[y].shadow_root_id is None by {
            assert(m0.contains_key(y));
        }
    }
}

} // verus!
