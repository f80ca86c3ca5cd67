//! Frame-to-frame diff of the layer tree: the commands that turn the
//! previous frame's platform layers into the current frame's.
//!
//! A layer's visual properties and scroll content size are floating-point
//! values; here each stands as a key (equal keys for equal values), and the
//! commands that carry them name the layer whose current values to send.

use fnv::{FnvHashMap, FnvHashSet};
use vstd::prelude::*;
use crate::flatten::{LayerKind, ParentKind};
use crate::hashing::{
    layer_ids, layer_ids_contains, layer_ids_insert, layer_ids_new, layer_index, layer_index_get, layer_index_insert,
    layer_index_keys, layer_index_new,
};

verus! {

/// A layer of one frame's tree.
pub struct DiffLayer {
    pub id: u64,
    pub kind: LayerKind,
    pub parent_id: Option<u64>,
    pub parent_kind: Option<ParentKind>,
    pub z_index: u32,
    pub generation: u64,
    /// Key of the layer's visual properties.
    pub props: u64,
    /// Key of the layer's scroll content size, for a scroll view.
    pub scroll_size: Option<u64>,
    pub children: Vec<DiffLayer>,
}

/// A command to the platform's layer tree.
#[derive(Debug, Clone, Copy, PartialEq, Eq)]
pub enum DiffCmd {
    CreateLayer { id: u64, kind: LayerKind },
    /// Send the layer's current visual properties.
    UpdateLayer { id: u64 },
    ReparentLayer { id: u64, new_parent: u64, parent_type: ParentKind },
    SetZOrder { id: u64, index: u32 },
    /// Attach the layer's current scroll content size.
    AttachScroll { id: u64, parent_id: u64 },
}

/// The commands of one diff, by group.
pub struct LayerDiff {
    pub created: Vec<DiffCmd>,
    pub updated: Vec<DiffCmd>,
    pub removed: Vec<u64>,
    pub reordered: Vec<DiffCmd>,
}

/// The first layer of `s` with id `id`.
pub open spec fn find_in(s: Seq<DiffLayer>, id: u64) -> Option<DiffLayer>
    decreases s.len(),
{
    if s.len() == 0 {
        None
    } else if s[0].id == id {
        Some(s[0])
    } else {
        find_in(s.drop_first(), id)
    }
}

/// `m` with `n` and every layer below it stored under its id, parents
/// before children.
pub open spec fn add_all(m: Map<u64, DiffLayer>, n: DiffLayer) -> Map<u64, DiffLayer>
    decreases n, 1nat, 0int,
{
    add_all_kids(m.insert(n.id, n), n, n.children@.len() as int)
}

pub open spec fn add_all_kids(m: Map<u64, DiffLayer>, n: DiffLayer, i: int) -> Map<u64, DiffLayer>
    decreases n, 0nat, i,
{
    if i <= 0 || i > n.children@.len() {
        m
    } else {
        proof {
            assert(decreases_to!(n => n.children));
        }
        add_all(add_all_kids(m, n, i - 1), n.children@[i - 1])
    }
}

/// The previous layers that may have changed: walking the previous tree
/// against the next one, a subtree whose root kept its id and generation
/// is skipped; a layer whose id still matches is stored and its children
/// are compared in turn; any other layer is stored with its whole subtree.
pub open spec fn changed_prev(m: Map<u64, DiffLayer>, p: DiffLayer, n: Option<DiffLayer>) -> Map<u64, DiffLayer>
    decreases p, 1nat, 0int,
{
    if n is Some && p.id == n->0.id && p.generation == n->0.generation {
        m
    } else if n is Some && p.id == n->0.id {
        changed_kids(m.insert(p.id, p), p, n->0, p.children@.len() as int)
    } else {
        add_all(m, p)
    }
}

pub open spec fn changed_kids(m: Map<u64, DiffLayer>, p: DiffLayer, n: DiffLayer, i: int) -> Map<u64, DiffLayer>
    decreases p, 0nat, i,
{
    if i <= 0 || i > p.children@.len() {
        m
    } else {
        proof {
            assert(decreases_to!(p => p.children));
        }
        let c = p.children@[i - 1];
        changed_prev(changed_kids(m, p, n, i - 1), c, find_in(n.children@, c.id))
    }
}

/// The state of a diff walk: the layers visited and the commands so far.
pub struct DiffState {
    pub visited: Set<u64>,
    pub created: Seq<DiffCmd>,
    pub updated: Seq<DiffCmd>,
    pub reordered: Seq<DiffCmd>,
}

/// The parent command for `n`, when it names both parent and kind.
pub open spec fn reparent_cmds(n: DiffLayer) -> Seq<DiffCmd> {
    if n.parent_id is Some && n.parent_kind is Some {
        seq![DiffCmd::ReparentLayer { id: n.id, new_parent: n.parent_id->0, parent_type: n.parent_kind->0 }]
    } else {
        Seq::empty()
    }
}

/// The scroll command for `n`, when it is a scroll view with a parent.
pub open spec fn scroll_cmds(n: DiffLayer) -> Seq<DiffCmd> {
    if n.scroll_size is Some && n.parent_id is Some {
        seq![DiffCmd::AttachScroll { id: n.id, parent_id: n.parent_id->0 }]
    } else {
        Seq::empty()
    }
}

/// Commands for a layer `n` that was `p` in the previous frame.
pub open spec fn update_cmds(st: DiffState, p: DiffLayer, n: DiffLayer) -> DiffState {
    let u1 = if p.props != n.props { seq![DiffCmd::UpdateLayer { id: n.id }] } else { Seq::empty() };
    let c1 = if p.parent_id != n.parent_id || p.parent_kind != n.parent_kind { reparent_cmds(n) } else { Seq::empty() };
    let r1 = if p.z_index != n.z_index { seq![DiffCmd::SetZOrder { id: n.id, index: n.z_index }] } else { Seq::empty() };
    let u2 = if p.scroll_size != n.scroll_size { scroll_cmds(n) } else { Seq::empty() };
    DiffState {
        visited: st.visited,
        created: st.created + c1,
        updated: st.updated + u1 + u2,
        reordered: st.reordered + r1,
    }
}

/// Commands for a layer `n` new in this frame.
pub open spec fn create_cmds(st: DiffState, n: DiffLayer) -> DiffState {
    DiffState {
        visited: st.visited,
        created: st.created.push(DiffCmd::CreateLayer { id: n.id, kind: n.kind }) + reparent_cmds(n),
        updated: st.updated + scroll_cmds(n) + seq![DiffCmd::UpdateLayer { id: n.id }],
        reordered: st.reordered.push(DiffCmd::SetZOrder { id: n.id, index: n.z_index }),
    }
}

/// The previous layer that `n` is compared with: `prev` when it has the
/// same id, else the changed previous layer stored under that id.
pub open spec fn match_of(prev: Option<DiffLayer>, n: DiffLayer, pm: Map<u64, DiffLayer>) -> Option<DiffLayer> {
    if prev is Some && prev->0.id == n.id {
        prev
    } else if pm.contains_key(n.id) {
        Some(pm[n.id])
    } else {
        None
    }
}

/// The diff walk over the next layer `n` (compared with `prev`), each
/// layer once: an unchanged generation ends the walk below it; otherwise
/// the layer's commands are emitted and its children walked in order,
/// each against the matched layer's child of the same id.
pub open spec fn diff_walk(prev: Option<DiffLayer>, n: DiffLayer, pm: Map<u64, DiffLayer>, st: DiffState) -> DiffState
    decreases n, 1nat, 0int,
{
    if st.visited.contains(n.id) {
        st
    } else {
        let st1 = DiffState { visited: st.visited.insert(n.id), ..st };
        let pn = match_of(prev, n, pm);
        if pn is Some && pn->0.generation == n.generation {
            st1
        } else {
            let st2 = if pn is Some { update_cmds(st1, pn->0, n) } else { create_cmds(st1, n) };
            diff_kids(pn, n, pm, st2, n.children@.len() as int)
        }
    }
}

pub open spec fn diff_kids(pn: Option<DiffLayer>, n: DiffLayer, pm: Map<u64, DiffLayer>, st: DiffState, i: int) -> DiffState
    decreases n, 0nat, i,
{
    if i <= 0 || i > n.children@.len() {
        st
    } else {
        proof {
            assert(decreases_to!(n => n.children));
        }
        let c = n.children@[i - 1];
        let pc = match pn {
            Some(p) => find_in(p.children@, c.id),
            None => None,
        };
        diff_walk(pc, c, pm, diff_kids(pn, n, pm, st, i - 1))
    }
}

/// The layers stored in an insertion list, by id: a later layer replaces
/// an earlier one with the same id.
pub open spec fn stored(s: Seq<&DiffLayer>) -> Map<u64, DiffLayer>
    decreases s.len(),
{
    if s.len() == 0 {
        Map::empty()
    } else {
        stored(s.drop_last()).insert(s.last().id, *s.last())
    }
}

pub open spec fn deref_opt(o: Option<&DiffLayer>) -> Option<DiffLayer> {
    match o {
        Some(x) => Some(*x),
        None => None,
    }
}

proof fn lemma_stored_push(s: Seq<&DiffLayer>, x: &DiffLayer)
    ensures
        stored(s.push(x)) == stored(s).insert(x.id, *x),
{
    assert(s.push(x).drop_last() =~= s);
}

/// `idx` locates every stored layer in `v`: each id stored maps to the
/// position of its latest layer.
pub open spec fn index_ok(v: Seq<&DiffLayer>, idx: Map<u64, usize>) -> bool {
    &&& forall|k: u64| #[trigger] idx.contains_key(k) <==> stored(v).contains_key(k)
    &&& forall|k: u64| #[trigger] idx.contains_key(k) ==> idx[k] < v.len() && *v[idx[k] as int] == stored(v)[k]
}

/// Stores `x` at the end of `v` and points its id at it.
fn store<'a>(v: &mut Vec<&'a DiffLayer>, idx: &mut FnvHashMap<u64, usize>, x: &'a DiffLayer)
    requires
        index_ok(old(v)@, layer_index(*old(idx))),
    ensures
        index_ok(final(v)@, layer_index(*final(idx))),
        stored(final(v)@) == stored(old(v)@).insert(x.id, *x),
{
    proof {
        lemma_stored_push(v@, x);
    }
    let pos = v.len();
    v.push(x);
    layer_index_insert(idx, x.id, pos);
    proof {
        let v1 = v@;
        let i1 = layer_index(*idx);
        assert forall|k: u64| #[trigger] i1.contains_key(k) ==> i1[k] < v1.len() && *v1[i1[k] as int] == stored(v1)[k] by {
            if i1.contains_key(k) && k != x.id {
                assert(v1[i1[k] as int] == old(v)@[i1[k] as int]);
            }
        }
    }
}

/// The layer stored under `id`, found through the index.
fn lookup<'a>(v: &Vec<&'a DiffLayer>, idx: &FnvHashMap<u64, usize>, id: u64) -> (r: Option<&'a DiffLayer>)
    requires
        index_ok(v@, layer_index(*idx)),
    ensures
        deref_opt(r) == if stored(v@).contains_key(id) { Some(stored(v@)[id]) } else { None },
{
    match layer_index_get(idx, id) {
        Some(i) => Some(v[i]),
        None => None,
    }
}

/// The first child of `children` with id `id`.
fn find_child<'a>(children: &'a Vec<DiffLayer>, id: u64) -> (r: Option<&'a DiffLayer>)
    ensures
        deref_opt(r) == find_in(children@, id),
{
    let mut i: usize = 0;
    proof {
        assert(children@.skip(0) =~= children@);
    }
    while i < children.len()
        invariant
            i <= children@.len(),
            find_in(children@, id) == find_in(children@.skip(i as int), id),
        decreases children@.len() - i,
    {
        proof {
            assert(children@.skip(i as int)[0] == children@[i as int]);
            assert(children@.skip(i as int).drop_first() =~= children@.skip(i + 1));
        }
        if children[i].id == id {
            return Some(&children[i]);
        }
        i = i + 1;
    }
    None
}

/// Stores `n` and every layer below it.
fn add_all_exec<'a>(v: &mut Vec<&'a DiffLayer>, idx: &mut FnvHashMap<u64, usize>, n: &'a DiffLayer)
    requires
        index_ok(old(v)@, layer_index(*old(idx))),
    ensures
        index_ok(final(v)@, layer_index(*final(idx))),
        stored(final(v)@) == add_all(stored(old(v)@), *n),
    decreases n,
{
    let ghost m0 = stored(v@);
    store(v, idx, n);
    let mut i: usize = 0;
    while i < n.children.len()
        invariant
            i <= n.children@.len(),
            index_ok(v@, layer_index(*idx)),
            stored(v@) == add_all_kids(m0.insert(n.id, *n), *n, i as int),
        decreases n.children@.len() - i,
    {
        proof {
            assert(decreases_to!(*n => n.children@[i as int]));
        }
        add_all_exec(v, idx, &n.children[i]);
        i = i + 1;
    }
}

/// Stores the previous layers that may have changed (see [`changed_prev`]).
fn changed_prev_exec<'a>(v: &mut Vec<&'a DiffLayer>, idx: &mut FnvHashMap<u64, usize>, p: &'a DiffLayer, n: Option<&DiffLayer>)
    requires
        index_ok(old(v)@, layer_index(*old(idx))),
    ensures
        index_ok(final(v)@, layer_index(*final(idx))),
        stored(final(v)@) == changed_prev(stored(old(v)@), *p, deref_opt(n)),
    decreases p,
{
    let same_id = match n {
        Some(x) => x.id == p.id,
        None => false,
    };
    if same_id {
        let x = n.unwrap();
        if x.generation == p.generation {
            return;
        }
        let ghost m0 = stored(v@);
        store(v, idx, p);
        let mut i: usize = 0;
        while i < p.children.len()
            invariant
                i <= p.children@.len(),
                index_ok(v@, layer_index(*idx)),
                n == Some(x),
                x.id == p.id,
                stored(v@) == changed_kids(m0.insert(p.id, *p), *p, *x, i as int),
            decreases p.children@.len() - i,
        {
            proof {
                assert(decreases_to!(*p => p.children@[i as int]));
            }
            let c = &p.children[i];
            let nc = find_child(&x.children, c.id);
            changed_prev_exec(v, idx, c, nc);
            i = i + 1;
        }
    } else {
        add_all_exec(v, idx, p);
    }
}

/// The walk's state as the diff spec sees it.
pub open spec fn state_of(visited: Set<u64>, created: Seq<DiffCmd>, updated: Seq<DiffCmd>, reordered: Seq<DiffCmd>) -> DiffState {
    DiffState { visited, created, updated, reordered }
}

fn same_opt_id(a: Option<u64>, b: Option<u64>) -> (r: bool)
    ensures
        r == (a == b),
{
    match (a, b) {
        (Some(x), Some(y)) => x == y,
        (None, None) => true,
        _ => false,
    }
}

fn same_opt_kind(a: Option<ParentKind>, b: Option<ParentKind>) -> (r: bool)
    ensures
        r == (a == b),
{
    match (a, b) {
        (Some(ParentKind::Layer), Some(ParentKind::Layer)) => true,
        (Some(ParentKind::ScrollView), Some(ParentKind::ScrollView)) => true,
        (None, None) => true,
        _ => false,
    }
}

fn push_reparent(out: &mut Vec<DiffCmd>, n: &DiffLayer)
    ensures
        final(out)@ == old(out)@ + reparent_cmds(*n),
{
    match (n.parent_id, n.parent_kind) {
        (Some(pid), Some(pk)) => {
            out.push(DiffCmd::ReparentLayer { id: n.id, new_parent: pid, parent_type: pk });
        },
        _ => {
            proof {
                assert(old(out)@ + reparent_cmds(*n) =~= old(out)@);
            }
        },
    }
}

fn push_scroll(out: &mut Vec<DiffCmd>, n: &DiffLayer)
    ensures
        final(out)@ == old(out)@ + scroll_cmds(*n),
{
    match (n.scroll_size, n.parent_id) {
        (Some(_), Some(pid)) => {
            out.push(DiffCmd::AttachScroll { id: n.id, parent_id: pid });
        },
        _ => {
            proof {
                assert(old(out)@ + scroll_cmds(*n) =~= old(out)@);
            }
        },
    }
}

/// The diff walk (see [`diff_walk`]) over the next layer `n`.
fn walk(
    prev: Option<&DiffLayer>,
    n: &DiffLayer,
    pm: &Vec<&DiffLayer>,
    idx: &FnvHashMap<u64, usize>,
    visited: &mut FnvHashSet<u64>,
    created: &mut Vec<DiffCmd>,
    updated: &mut Vec<DiffCmd>,
    reordered: &mut Vec<DiffCmd>,
)
    requires
        index_ok(pm@, layer_index(*idx)),
    ensures
        state_of(layer_ids(*final(visited)), final(created)@, final(updated)@, final(reordered)@) == diff_walk(
            deref_opt(prev),
            *n,
            stored(pm@),
            state_of(layer_ids(*old(visited)), old(created)@, old(updated)@, old(reordered)@),
        ),
    decreases n,
{
    if layer_ids_contains(visited, n.id) {
        return;
    }
    let ghost v0 = layer_ids(*visited);
    layer_ids_insert(visited, n.id);
    let pn: Option<&DiffLayer> = match prev {
        Some(p) => if p.id == n.id { Some(p) } else { lookup(pm, idx, n.id) },
        None => lookup(pm, idx, n.id),
    };
    proof {
        assert(deref_opt(pn) == match_of(deref_opt(prev), *n, stored(pm@)));
    }
    match pn {
        Some(p) => {
            if p.generation == n.generation {
                return;
            }
            if p.props != n.props {
                updated.push(DiffCmd::UpdateLayer { id: n.id });
            }
            if !same_opt_id(p.parent_id, n.parent_id) || !same_opt_kind(p.parent_kind, n.parent_kind) {
                push_reparent(created, n);
            }
            if p.z_index != n.z_index {
                reordered.push(DiffCmd::SetZOrder { id: n.id, index: n.z_index });
            }
            if !same_opt_id(p.scroll_size, n.scroll_size) {
                push_scroll(updated, n);
            }
        },
        None => {
            created.push(DiffCmd::CreateLayer { id: n.id, kind: n.kind });
            push_reparent(created, n);
            push_scroll(updated, n);
            reordered.push(DiffCmd::SetZOrder { id: n.id, index: n.z_index });
            updated.push(DiffCmd::UpdateLayer { id: n.id });
        },
    }
    let ghost st2 = state_of(layer_ids(*visited), created@, updated@, reordered@);
    proof {
        let st1 = DiffState { visited: v0.insert(n.id), ..state_of(v0, old(created)@, old(updated)@, old(reordered)@) };
        match pn {
            Some(p) => {
                let e = update_cmds(st1, *p, *n);
                assert(st2.created =~= e.created);
                assert(st2.updated =~= e.updated);
                assert(st2.reordered =~= e.reordered);
            },
            None => {
                let e = create_cmds(st1, *n);
                assert(st2.created =~= e.created);
                assert(st2.updated =~= e.updated);
                assert(st2.reordered =~= e.reordered);
            },
        }
    }
    let mut i: usize = 0;
    while i < n.children.len()
        invariant
            i <= n.children@.len(),
            index_ok(pm@, layer_index(*idx)),
            state_of(layer_ids(*visited), created@, updated@, reordered@) == diff_kids(deref_opt(pn), *n, stored(pm@), st2, i as int),
        decreases n.children@.len() - i,
    {
        proof {
            assert(decreases_to!(*n => n.children@[i as int]));
        }
        let c = &n.children[i];
        let pc = match pn {
            Some(p) => find_child(&p.children, c.id),
            None => None,
        };
        walk(pc, c, pm, idx, visited, created, updated, reordered);
        i = i + 1;
    }
}

/// The previous layers that may have changed between the two frames.
pub open spec fn diff_prev_map(prev: Option<DiffLayer>, next: Option<DiffLayer>) -> Map<u64, DiffLayer> {
    match prev {
        Some(p) => changed_prev(Map::empty(), p, next),
        None => Map::empty(),
    }
}

/// The diff walk over the next frame, from an empty state.
pub open spec fn diff_result(prev: Option<DiffLayer>, next: Option<DiffLayer>) -> DiffState {
    let init = DiffState { visited: Set::empty(), created: Seq::empty(), updated: Seq::empty(), reordered: Seq::empty() };
    match next {
        Some(n) => diff_walk(prev, n, diff_prev_map(prev, next), init),
        None => init,
    }
}

/// Diffs the previous frame's layer tree against the next one. Created,
/// updated and reordered commands come in the walk's order (see
/// [`diff_walk`]); every changed previous layer that the walk did not reach
/// is removed, each once.
pub fn diff_layers(prev: Option<&DiffLayer>, next: Option<&DiffLayer>) -> (d: LayerDiff)
    ensures
        d.created@ == diff_result(deref_opt(prev), deref_opt(next)).created,
        d.updated@ == diff_result(deref_opt(prev), deref_opt(next)).updated,
        d.reordered@ == diff_result(deref_opt(prev), deref_opt(next)).reordered,
        d.removed@.no_duplicates(),
        d.removed@.to_set() == diff_prev_map(deref_opt(prev), deref_opt(next)).dom().difference(
            diff_result(deref_opt(prev), deref_opt(next)).visited,
        ),
{
    let mut pm: Vec<&DiffLayer> = Vec::new();
    let mut idx = layer_index_new();
    proof {
        assert(stored(pm@) =~= Map::<u64, DiffLayer>::empty());
    }
    match prev {
        Some(p) => changed_prev_exec(&mut pm, &mut idx, p, next),
        None => {},
    }
    let ghost m = stored(pm@);
    let mut visited = layer_ids_new();
    let mut created: Vec<DiffCmd> = Vec::new();
    let mut updated: Vec<DiffCmd> = Vec::new();
    let mut reordered: Vec<DiffCmd> = Vec::new();
    proof {
        assert(m == diff_prev_map(deref_opt(prev), deref_opt(next)));
        assert(layer_ids(visited) =~= Set::<u64>::empty());
    }
    match next {
        Some(n) => walk(prev, n, &pm, &idx, &mut visited, &mut created, &mut updated, &mut reordered),
        None => {},
    }
    let ghost vs = layer_ids(visited);
    proof {
        assert(state_of(vs, created@, updated@, reordered@) == diff_result(deref_opt(prev), deref_opt(next)));
    }
    let keys = layer_index_keys(&idx);
    let mut removed: Vec<u64> = Vec::new();
    let mut k: usize = 0;
    while k < keys.len()
        invariant
            k <= keys@.len(),
            vs == layer_ids(visited),
            keys@.no_duplicates(),
            removed@.no_duplicates(),
            forall|id: u64| #[trigger] removed@.contains(id) <==> (!vs.contains(id) && exists|j: int| 0 <= j < k && #[trigger] keys@[j] == id),
        decreases keys@.len() - k,
    {
        let id = keys[k];
        let ghost r0 = removed@;
        proof {
            broadcast use vstd::seq_lib::group_seq_properties;
        }
        if !layer_ids_contains(&visited, id) {
            proof {
                if r0.contains(id) {
                    let j = choose|j: int| 0 <= j < k && #[trigger] keys@[j] == id;
                    assert(keys@[j] == keys@[k as int]);
                }
            }
            removed.push(id);
        }
        proof {
            broadcast use vstd::seq_lib::group_seq_properties;
            assert forall|x: u64| #[trigger] removed@.contains(x) <==> (!vs.contains(x) && exists|j: int| 0 <= j < k + 1 && #[trigger] keys@[j] == x) by {
                if x == id {
                    assert(keys@[k as int] == x);
                } else {
                    if exists|j: int| 0 <= j < k + 1 && #[trigger] keys@[j] == x {
                        let j = choose|j: int| 0 <= j < k + 1 && #[trigger] keys@[j] == x;
                        assert(j < k);
                    }
                    if removed@.contains(x) {
                        assert(r0.contains(x));
                    }
                }
            }
        }
        k = k + 1;
    }
    proof {
        broadcast use vstd::seq_lib::group_seq_properties;
        assert forall|x: u64| removed@.to_set().contains(x) <==> m.dom().difference(vs).contains(x) by {
            assert(keys@.contains(x) <==> layer_index(idx).contains_key(x));
            if keys@.contains(x) {
                let j = choose|j: int| 0 <= j < keys@.len() && keys@[j] == x;
                assert(keys@[j] == x);
            }
        }
        assert(removed@.to_set() =~= m.dom().difference(vs));
    }
    LayerDiff { created, updated, removed, reordered }
}

/// `r` starts with `s`.
pub open spec fn starts_with(r: Seq<DiffCmd>, s: Seq<DiffCmd>) -> bool {
    s.len() <= r.len() && forall|k: int| 0 <= k < s.len() ==> #[trigger] r[k] == s[k]
}

/// The walk only appends commands: what was emitted before stays, in place.
pub proof fn lemma_walk_appends(prev: Option<DiffLayer>, n: DiffLayer, pm: Map<u64, DiffLayer>, st: DiffState)
    ensures
        starts_with(diff_walk(prev, n, pm, st).created, st.created),
        starts_with(diff_walk(prev, n, pm, st).updated, st.updated),
        starts_with(diff_walk(prev, n, pm, st).reordered, st.reordered),
    decreases n, 1nat, 0int,
{
    if !st.visited.contains(n.id) {
        let st1 = DiffState { visited: st.visited.insert(n.id), ..st };
        let pn = match_of(prev, n, pm);
        if !(pn is Some && pn->0.generation == n.generation) {
            let st2 = if pn is Some { update_cmds(st1, pn->0, n) } else { create_cmds(st1, n) };
            lemma_kids_append(pn, n, pm, st2, n.children@.len() as int);
            let r = diff_walk(prev, n, pm, st);
            assert(r == diff_kids(pn, n, pm, st2, n.children@.len() as int));
            assert forall|k: int| 0 <= k < st.created.len() implies #[trigger] r.created[k] == st.created[k] by {
                assert(st2.created[k] == st.created[k]);
            }
            assert forall|k: int| 0 <= k < st.updated.len() implies #[trigger] r.updated[k] == st.updated[k] by {
                assert(st2.updated[k] == st.updated[k]);
            }
            assert forall|k: int| 0 <= k < st.reordered.len() implies #[trigger] r.reordered[k] == st.reordered[k] by {
                assert(st2.reordered[k] == st.reordered[k]);
            }
        }
    }
}

/// Walking the children only appends commands.
pub proof fn lemma_kids_append(pn: Option<DiffLayer>, n: DiffLayer, pm: Map<u64, DiffLayer>, st: DiffState, i: int)
    ensures
        starts_with(diff_kids(pn, n, pm, st, i).created, st.created),
        starts_with(diff_kids(pn, n, pm, st, i).updated, st.updated),
        starts_with(diff_kids(pn, n, pm, st, i).reordered, st.reordered),
    decreases n, 0nat, i,
{
    if 0 < i <= n.children@.len() {
        assert(decreases_to!(n => n.children@[i - 1]));
        let c = n.children@[i - 1];
        let pc = match pn {
            Some(p) => find_in(p.children@, c.id),
            None => None,
        };
        let mid = diff_kids(pn, n, pm, st, i - 1);
        lemma_kids_append(pn, n, pm, st, i - 1);
        lemma_walk_appends(pc, c, pm, mid);
        let r = diff_kids(pn, n, pm, st, i);
        assert(r == diff_walk(pc, c, pm, mid));
        assert forall|k: int| 0 <= k < st.created.len() implies #[trigger] r.created[k] == st.created[k] by {
            assert(mid.created[k] == st.created[k]);
        }
        assert forall|k: int| 0 <= k < st.updated.len() implies #[trigger] r.updated[k] == st.updated[k] by {
            assert(mid.updated[k] == st.updated[k]);
        }
        assert forall|k: int| 0 <= k < st.reordered.len() implies #[trigger] r.reordered[k] == st.reordered[k] by {
            assert(mid.reordered[k] == st.reordered[k]);
        }
    }
}

/// A layer that is new in the next frame (no previous layer matches its
/// id) and that the walk reaches for the first time is created with its
/// kind, attached to its parent when it names one, given its z-order, and
/// sent its properties; a new scroll view with a parent also gets its scroll
/// content attached, before its properties are sent.
pub proof fn lemma_new_layer_commands(prev: Option<DiffLayer>, n: DiffLayer, pm: Map<u64, DiffLayer>, st: DiffState)
    requires
        !st.visited.contains(n.id),
        match_of(prev, n, pm) is None,
    ensures
        ({
            let r = diff_walk(prev, n, pm, st);
            &&& r.created.contains(DiffCmd::CreateLayer { id: n.id, kind: n.kind })
            &&& r.reordered.contains(DiffCmd::SetZOrder { id: n.id, index: n.z_index })
            &&& r.updated.contains(DiffCmd::UpdateLayer { id: n.id })
            &&& n.parent_id is Some && n.parent_kind is Some ==> r.created.contains(
                DiffCmd::ReparentLayer { id: n.id, new_parent: n.parent_id->0, parent_type: n.parent_kind->0 },
            )
            &&& n.scroll_size is Some && n.parent_id is Some ==> exists|a: int, b: int|
                0 <= a < b < r.updated.len() && r.updated[a] == DiffCmd::AttachScroll { id: n.id, parent_id: n.parent_id->0 }
                    && r.updated[b] == DiffCmd::UpdateLayer { id: n.id }
        }),
{
    let st1 = DiffState { visited: st.visited.insert(n.id), ..st };
    let st2 = create_cmds(st1, n);
    let r = diff_walk(prev, n, pm, st);
    assert(r == diff_kids(None, n, pm, st2, n.children@.len() as int));
    lemma_kids_append(None, n, pm, st2, n.children@.len() as int);
    let c0 = st.created.len() as int;
    let u0 = st.updated.len() as int;
    assert(st2.created[c0] == DiffCmd::CreateLayer { id: n.id, kind: n.kind });
    assert(r.created[c0] == st2.created[c0]);
    assert(st2.reordered[st.reordered.len() as int] == DiffCmd::SetZOrder { id: n.id, index: n.z_index });
    assert(r.reordered[st.reordered.len() as int] == st2.reordered[st.reordered.len() as int]);
    let last = st2.updated.len() - 1;
    assert(st2.updated[last] == DiffCmd::UpdateLayer { id: n.id });
    assert(r.updated[last] == st2.updated[last]);
    if n.parent_id is Some && n.parent_kind is Some {
        assert(st2.created[c0 + 1] == DiffCmd::ReparentLayer { id: n.id, new_parent: n.parent_id->0, parent_type: n.parent_kind->0 });
        assert(r.created[c0 + 1] == st2.created[c0 + 1]);
    }
    if n.scroll_size is Some && n.parent_id is Some {
        assert(st2.updated[u0] == DiffCmd::AttachScroll { id: n.id, parent_id: n.parent_id->0 });
        assert(r.updated[u0] == st2.updated[u0]);
        assert(u0 < last);
    }
}

/// Diffing a first frame (nothing before it) issues, for the root layer,
/// its creation, z-order and properties, its parent link when it names one,
/// and, for a scroll view with a parent, its scroll content before its
/// properties.
pub proof fn lemma_first_frame_root(n: DiffLayer)
    ensures
        ({
            let r = diff_result(None, Some(n));
            &&& r.created.contains(DiffCmd::CreateLayer { id: n.id, kind: n.kind })
            &&& r.reordered.contains(DiffCmd::SetZOrder { id: n.id, index: n.z_index })
            &&& r.updated.contains(DiffCmd::UpdateLayer { id: n.id })
            &&& n.parent_id is Some && n.parent_kind is Some ==> r.created.contains(
                DiffCmd::ReparentLayer { id: n.id, new_parent: n.parent_id->0, parent_type: n.parent_kind->0 },
            )
            &&& n.scroll_size is Some && n.parent_id is Some ==> exists|a: int, b: int|
                0 <= a < b < r.updated.len() && r.updated[a] == DiffCmd::AttachScroll { id: n.id, parent_id: n.parent_id->0 }
                    && r.updated[b] == DiffCmd::UpdateLayer { id: n.id }
        }),
{
    let init = DiffState { visited: Set::empty(), created: Seq::empty(), updated: Seq::empty(), reordered: Seq::empty() };
    lemma_new_layer_commands(None, n, Map::empty(), init);
}

/// A layer that matches a previous layer of another generation, reached for
/// the first time, is sent its properties when they changed, re-attached
/// when its parent or parent kind changed (and it names both), given its
/// new z-order when that changed, and given its scroll content when its
/// scroll size changed (for a scroll view with a parent).
pub proof fn lemma_changed_layer_commands(prev: Option<DiffLayer>, n: DiffLayer, pm: Map<u64, DiffLayer>, st: DiffState)
    requires
        !st.visited.contains(n.id),
        match_of(prev, n, pm) is Some,
        match_of(prev, n, pm)->0.generation != n.generation,
    ensures
        ({
            let p = match_of(prev, n, pm)->0;
            let r = diff_walk(prev, n, pm, st);
            &&& p.props != n.props ==> r.updated.contains(DiffCmd::UpdateLayer { id: n.id })
            &&& (p.parent_id != n.parent_id || p.parent_kind != n.parent_kind) && n.parent_id is Some && n.parent_kind is Some
                ==> r.created.contains(DiffCmd::ReparentLayer { id: n.id, new_parent: n.parent_id->0, parent_type: n.parent_kind->0 })
            &&& p.z_index != n.z_index ==> r.reordered.contains(DiffCmd::SetZOrder { id: n.id, index: n.z_index })
            &&& p.scroll_size != n.scroll_size && n.scroll_size is Some && n.parent_id is Some ==> r.updated.contains(
                DiffCmd::AttachScroll { id: n.id, parent_id: n.parent_id->0 },
            )
        }),
{
    let p = match_of(prev, n, pm)->0;
    let st1 = DiffState { visited: st.visited.insert(n.id), ..st };
    let st2 = update_cmds(st1, p, n);
    let r = diff_walk(prev, n, pm, st);
    assert(r == diff_kids(Some(p), n, pm, st2, n.children@.len() as int));
    lemma_kids_append(Some(p), n, pm, st2, n.children@.len() as int);
    let u0 = st.updated.len() as int;
    if p.props != n.props {
        assert(st2.updated[u0] == DiffCmd::UpdateLayer { id: n.id });
        assert(r.updated[u0] == st2.updated[u0]);
    }
    if (p.parent_id != n.parent_id || p.parent_kind != n.parent_kind) && n.parent_id is Some && n.parent_kind is Some {
        let c0 = st.created.len() as int;
        assert(st2.created[c0] == DiffCmd::ReparentLayer { id: n.id, new_parent: n.parent_id->0, parent_type: n.parent_kind->0 });
        assert(r.created[c0] == st2.created[c0]);
    }
    if p.z_index != n.z_index {
        let r0 = st.reordered.len() as int;
        assert(st2.reordered[r0] == DiffCmd::SetZOrder { id: n.id, index: n.z_index });
        assert(r.reordered[r0] == st2.reordered[r0]);
    }
    if p.scroll_size != n.scroll_size && n.scroll_size is Some && n.parent_id is Some {
        let last = st2.updated.len() - 1;
        assert(st2.updated[last] == DiffCmd::AttachScroll { id: n.id, parent_id: n.parent_id->0 });
        assert(r.updated[last] == st2.updated[last]);
    }
}

/// A layer whose previous match has the same generation is skipped whole:
/// no command is issued for it or for anything below it.
pub proof fn lemma_unchanged_generation_skips(prev: Option<DiffLayer>, n: DiffLayer, pm: Map<u64, DiffLayer>, st: DiffState)
    requires
        match_of(prev, n, pm) is Some,
        match_of(prev, n, pm)->0.generation == n.generation,
    ensures
        diff_walk(prev, n, pm, st).created == st.created,
        diff_walk(prev, n, pm, st).updated == st.updated,
        diff_walk(prev, n, pm, st).reordered == st.reordered,
{
}

/// The layer a command creates, if it is a creation.
pub open spec fn created_id(c: DiffCmd) -> Option<u64> {
    match c {
        DiffCmd::CreateLayer { id, .. } => Some(id),
        _ => None,
    }
}

/// No layer is created twice in `cmds`.
pub open spec fn creates_once(cmds: Seq<DiffCmd>) -> bool {
    forall|a: int, b: int|
        0 <= a < b < cmds.len() && (#[trigger] created_id(cmds[a])) is Some ==> created_id(cmds[a]) != #[trigger] created_id(
            cmds[b],
        )
}

/// Every layer created so far was visited, and none twice.
pub open spec fn creations_ok(st: DiffState) -> bool {
    &&& creates_once(st.created)
    &&& forall|k: int|
        0 <= k < st.created.len() && (#[trigger] created_id(st.created[k])) is Some ==> st.visited.contains(
            created_id(st.created[k])->0,
        )
}

/// The walk keeps every layer visited, and creates each layer once.
proof fn lemma_walk_creations(prev: Option<DiffLayer>, n: DiffLayer, pm: Map<u64, DiffLayer>, st: DiffState)
    requires
        creations_ok(st),
    ensures
        creations_ok(diff_walk(prev, n, pm, st)),
        st.visited.subset_of(diff_walk(prev, n, pm, st).visited),
    decreases n, 1nat, 0int,
{
    if !st.visited.contains(n.id) {
        let st1 = DiffState { visited: st.visited.insert(n.id), ..st };
        let pn = match_of(prev, n, pm);
        if !(pn is Some && pn->0.generation == n.generation) {
            let st2 = if pn is Some { update_cmds(st1, pn->0, n) } else { create_cmds(st1, n) };
            let l0 = st.created.len() as int;
            assert(forall|k: int| 0 <= k < l0 ==> #[trigger] st2.created[k] == st.created[k]);
            assert forall|k: int| l0 <= k < st2.created.len() implies (#[trigger] created_id(st2.created[k])) is Some
                ==> created_id(st2.created[k]) == Some(n.id) && k == l0 by {
                if pn is Some {
                    assert(st2.created[k] == reparent_cmds(n)[k - l0]);
                } else if k > l0 {
                    assert(st2.created[k] == reparent_cmds(n)[k - l0 - 1]);
                }
            }
            assert forall|a: int, b: int|
                0 <= a < b < st2.created.len() && (#[trigger] created_id(st2.created[a])) is Some implies created_id(
                    st2.created[a],
                ) != #[trigger] created_id(st2.created[b]) by {
                if b >= l0 && created_id(st2.created[b]) is Some {
                    assert(created_id(st2.created[b]) == Some(n.id));
                    if a < l0 {
                        assert(st.visited.contains(created_id(st.created[a])->0));
                    }
                } else if b < l0 {
                    assert(created_id(st.created[a]) != created_id(st.created[b]));
                }
            }
            assert forall|k: int|
                0 <= k < st2.created.len() && (#[trigger] created_id(st2.created[k])) is Some implies st2.visited.contains(
                    created_id(st2.created[k])->0,
                ) by {
                if k < l0 {
                    assert(st.visited.contains(created_id(st.created[k])->0));
                }
            }
            lemma_kids_creations(pn, n, pm, st2, n.children@.len() as int);
        }
    }
}

/// Walking the children keeps every layer visited, and creates each once.
proof fn lemma_kids_creations(pn: Option<DiffLayer>, n: DiffLayer, pm: Map<u64, DiffLayer>, st: DiffState, i: int)
    requires
        creations_ok(st),
    ensures
        creations_ok(diff_kids(pn, n, pm, st, i)),
        st.visited.subset_of(diff_kids(pn, n, pm, st, i).visited),
    decreases n, 0nat, i,
{
    if 0 < i <= n.children@.len() {
        assert(decreases_to!(n => n.children@[i - 1]));
        let c = n.children@[i - 1];
        let pc = match pn {
            Some(p) => find_in(p.children@, c.id),
            None => None,
        };
        lemma_kids_creations(pn, n, pm, st, i - 1);
        lemma_walk_creations(pc, c, pm, diff_kids(pn, n, pm, st, i - 1));
    }
}

/// One diff creates each layer at most once, however often an id occurs in
/// the next frame's tree.
pub proof fn lemma_each_layer_created_once(prev: Option<DiffLayer>, next: Option<DiffLayer>)
    ensures
        creates_once(diff_result(prev, next).created),
{
    let init = DiffState { visited: Set::empty(), created: Seq::empty(), updated: Seq::empty(), reordered: Seq::empty() };
    if next is Some {
        lemma_walk_creations(prev, next->0, diff_prev_map(prev, next), init);
    }
}

/// The layer a command is about.
pub open spec fn cmd_id(c: DiffCmd) -> u64 {
    match c {
        DiffCmd::CreateLayer { id, .. } => id,
        DiffCmd::UpdateLayer { id } => id,
        DiffCmd::ReparentLayer { id, .. } => id,
        DiffCmd::SetZOrder { id, .. } => id,
        DiffCmd::AttachScroll { id, .. } => id,
    }
}

/// The commands of `cmds` from position `from` on name layers outside
/// `before` and inside `after`.
pub open spec fn names_fresh(cmds: Seq<DiffCmd>, from: int, before: Set<u64>, after: Set<u64>) -> bool {
    forall|k: int| from <= k < cmds.len() ==> !before.contains(#[trigger] cmd_id(cmds[k])) && after.contains(cmd_id(cmds[k]))
}

/// Each command the walk appends names a layer it visits for the first
/// time.
proof fn lemma_walk_fresh(prev: Option<DiffLayer>, n: DiffLayer, pm: Map<u64, DiffLayer>, st: DiffState)
    ensures
        ({
            let r = diff_walk(prev, n, pm, st);
            &&& st.visited.subset_of(r.visited)
            &&& names_fresh(r.created, st.created.len() as int, st.visited, r.visited)
            &&& names_fresh(r.updated, st.updated.len() as int, st.visited, r.visited)
            &&& names_fresh(r.reordered, st.reordered.len() as int, st.visited, r.visited)
        }),
    decreases n, 1nat, 0int,
{
    if !st.visited.contains(n.id) {
        let st1 = DiffState { visited: st.visited.insert(n.id), ..st };
        let pn = match_of(prev, n, pm);
        if !(pn is Some && pn->0.generation == n.generation) {
            let st2 = if pn is Some { update_cmds(st1, pn->0, n) } else { create_cmds(st1, n) };
            let len = n.children@.len() as int;
            let r = diff_walk(prev, n, pm, st);
            assert(r == diff_kids(pn, n, pm, st2, len));
            lemma_kids_fresh(pn, n, pm, st2, len);
            lemma_kids_append(pn, n, pm, st2, len);
            assert forall|k: int| st.created.len() <= k < st2.created.len() implies #[trigger] cmd_id(st2.created[k]) == n.id by {
                if pn is Some {
                    assert(st2.created[k] == reparent_cmds(n)[k - st.created.len()]);
                } else if k > st.created.len() {
                    assert(st2.created[k] == reparent_cmds(n)[k - st.created.len() - 1]);
                }
            }
            assert forall|k: int| st.updated.len() <= k < st2.updated.len() implies #[trigger] cmd_id(st2.updated[k]) == n.id by {
                let u1 = if pn is Some && pn->0.props != n.props { seq![DiffCmd::UpdateLayer { id: n.id }] } else { Seq::empty() };
                if pn is Some {
                    if k < st.updated.len() + u1.len() {
                        assert(st2.updated[k] == u1[k - st.updated.len()]);
                    } else {
                        assert(st2.updated[k] == scroll_cmds(n)[k - st.updated.len() - u1.len()]);
                    }
                } else if k < st.updated.len() + scroll_cmds(n).len() {
                    assert(st2.updated[k] == scroll_cmds(n)[k - st.updated.len()]);
                }
            }
            assert forall|k: int| st.reordered.len() <= k < st2.reordered.len() implies #[trigger] cmd_id(st2.reordered[k]) == n.id by {}
            assert forall|k: int| st.created.len() <= k < r.created.len() implies !st.visited.contains(#[trigger] cmd_id(r.created[k]))
                && r.visited.contains(cmd_id(r.created[k])) by {
                if k < st2.created.len() {
                    assert(r.created[k] == st2.created[k]);
                }
            }
            assert forall|k: int| st.updated.len() <= k < r.updated.len() implies !st.visited.contains(#[trigger] cmd_id(r.updated[k]))
                && r.visited.contains(cmd_id(r.updated[k])) by {
                if k < st2.updated.len() {
                    assert(r.updated[k] == st2.updated[k]);
                }
            }
            assert forall|k: int| st.reordered.len() <= k < r.reordered.len() implies !st.visited.contains(
                #[trigger] cmd_id(r.reordered[k]),
            ) && r.visited.contains(cmd_id(r.reordered[k])) by {
                if k < st2.reordered.len() {
                    assert(r.reordered[k] == st2.reordered[k]);
                }
            }
        }
    }
}

/// Each command the walk over the children appends names a layer it visits
/// for the first time.
proof fn lemma_kids_fresh(pn: Option<DiffLayer>, n: DiffLayer, pm: Map<u64, DiffLayer>, st: DiffState, i: int)
    ensures
        ({
            let r = diff_kids(pn, n, pm, st, i);
            &&& st.visited.subset_of(r.visited)
            &&& names_fresh(r.created, st.created.len() as int, st.visited, r.visited)
            &&& names_fresh(r.updated, st.updated.len() as int, st.visited, r.visited)
            &&& names_fresh(r.reordered, st.reordered.len() as int, st.visited, r.visited)
        }),
    decreases n, 0nat, i,
{
    if 0 < i <= n.children@.len() {
        assert(decreases_to!(n => n.children@[i - 1]));
        let c = n.children@[i - 1];
        let pc = match pn {
            Some(p) => find_in(p.children@, c.id),
            None => None,
        };
        let mid = diff_kids(pn, n, pm, st, i - 1);
        let r = diff_kids(pn, n, pm, st, i);
        lemma_kids_fresh(pn, n, pm, st, i - 1);
        lemma_walk_fresh(pc, c, pm, mid);
        lemma_walk_appends(pc, c, pm, mid);
        lemma_kids_append(pn, n, pm, st, i - 1);
        assert(r == diff_walk(pc, c, pm, mid));
        assert forall|k: int| st.created.len() <= k < r.created.len() implies !st.visited.contains(#[trigger] cmd_id(r.created[k]))
            && r.visited.contains(cmd_id(r.created[k])) by {
            if k < mid.created.len() {
                assert(r.created[k] == mid.created[k]);
            }
        }
        assert forall|k: int| st.updated.len() <= k < r.updated.len() implies !st.visited.contains(#[trigger] cmd_id(r.updated[k]))
            && r.visited.contains(cmd_id(r.updated[k])) by {
            if k < mid.updated.len() {
                assert(r.updated[k] == mid.updated[k]);
            }
        }
        assert forall|k: int| st.reordered.len() <= k < r.reordered.len() implies !st.visited.contains(
            #[trigger] cmd_id(r.reordered[k]),
        ) && r.visited.contains(cmd_id(r.reordered[k])) by {
            if k < mid.reordered.len() {
                assert(r.reordered[k] == mid.reordered[k]);
            }
        }
    }
}

/// A layer that matches a previous layer of another generation gets no
/// command it does not need: a property update only when its properties
/// changed, a scroll attachment only when its scroll size changed, a
/// re-attachment only when its parent or parent kind changed, a new z-order
/// only when its z-index changed, and never a creation; nothing walked below
/// it issues a command about it.
pub proof fn lemma_changed_layer_no_spurious(prev: Option<DiffLayer>, n: DiffLayer, pm: Map<u64, DiffLayer>, st: DiffState)
    requires
        !st.visited.contains(n.id),
        match_of(prev, n, pm) is Some,
        match_of(prev, n, pm)->0.generation != n.generation,
    ensures
        ({
            let p = match_of(prev, n, pm)->0;
            let r = diff_walk(prev, n, pm, st);
            &&& forall|k: int|
                st.updated.len() <= k < r.updated.len() && #[trigger] cmd_id(r.updated[k]) == n.id ==> (r.updated[k]
                    == DiffCmd::UpdateLayer { id: n.id } && p.props != n.props) || (r.updated[k] == DiffCmd::AttachScroll {
                    id: n.id,
                    parent_id: n.parent_id->0,
                } && p.scroll_size != n.scroll_size)
            &&& forall|k: int|
                st.created.len() <= k < r.created.len() && #[trigger] cmd_id(r.created[k]) == n.id ==> r.created[k]
                    == DiffCmd::ReparentLayer { id: n.id, new_parent: n.parent_id->0, parent_type: n.parent_kind->0 } && (
                    p.parent_id != n.parent_id || p.parent_kind != n.parent_kind)
            &&& forall|k: int|
                st.reordered.len() <= k < r.reordered.len() && #[trigger] cmd_id(r.reordered[k]) == n.id ==> r.reordered[k]
                    == DiffCmd::SetZOrder { id: n.id, index: n.z_index } && p.z_index != n.z_index
        }),
{
    let p = match_of(prev, n, pm)->0;
    let st1 = DiffState { visited: st.visited.insert(n.id), ..st };
    let st2 = update_cmds(st1, p, n);
    let len = n.children@.len() as int;
    let r = diff_walk(prev, n, pm, st);
    assert(r == diff_kids(Some(p), n, pm, st2, len));
    lemma_kids_fresh(Some(p), n, pm, st2, len);
    lemma_kids_append(Some(p), n, pm, st2, len);
    let u1 = if p.props != n.props { seq![DiffCmd::UpdateLayer { id: n.id }] } else { Seq::empty() };
    let u2 = if p.scroll_size != n.scroll_size { scroll_cmds(n) } else { Seq::empty() };
    let c1 = if p.parent_id != n.parent_id || p.parent_kind != n.parent_kind { reparent_cmds(n) } else { Seq::empty() };
    let r1 = if p.z_index != n.z_index { seq![DiffCmd::SetZOrder { id: n.id, index: n.z_index }] } else { Seq::empty() };
    assert forall|k: int| st.updated.len() <= k < r.updated.len() && #[trigger] cmd_id(r.updated[k]) == n.id implies (r.updated[k]
        == DiffCmd::UpdateLayer { id: n.id } && p.props != n.props) || (r.updated[k] == DiffCmd::AttachScroll {
        id: n.id,
        parent_id: n.parent_id->0,
    } && p.scroll_size != n.scroll_size) by {
        if k >= st2.updated.len() {
            assert(st2.visited.contains(n.id));
        } else {
            assert(r.updated[k] == st2.updated[k]);
            if k < st.updated.len() + u1.len() {
                assert(st2.updated[k] == u1[k - st.updated.len()]);
            } else {
                assert(st2.updated[k] == u2[k - st.updated.len() - u1.len()]);
            }
        }
    }
    assert forall|k: int| st.created.len() <= k < r.created.len() && #[trigger] cmd_id(r.created[k]) == n.id implies r.created[k]
        == DiffCmd::ReparentLayer { id: n.id, new_parent: n.parent_id->0, parent_type: n.parent_kind->0 } && (p.parent_id
        != n.parent_id || p.parent_kind != n.parent_kind) by {
        if k >= st2.created.len() {
            assert(st2.visited.contains(n.id));
        } else {
            assert(r.created[k] == st2.created[k]);
            assert(st2.created[k] == c1[k - st.created.len()]);
        }
    }
    assert forall|k: int| st.reordered.len() <= k < r.reordered.len() && #[trigger] cmd_id(r.reordered[k]) == n.id implies r.reordered[k]
        == DiffCmd::SetZOrder { id: n.id, index: n.z_index } && p.z_index != n.z_index by {
        if k >= st2.reordered.len() {
            assert(st2.visited.contains(n.id));
        } else {
            assert(r.reordered[k] == st2.reordered[k]);
            assert(st2.reordered[k] == r1[k - st.reordered.len()]);
        }
    }
}

/// A layer new in the next frame gets no command beyond its creation, its
/// parent link, its scroll content, its properties and its z-order; nothing
/// walked below it issues a command about it.
pub proof fn lemma_new_layer_no_spurious(prev: Option<DiffLayer>, n: DiffLayer, pm: Map<u64, DiffLayer>, st: DiffState)
    requires
        !st.visited.contains(n.id),
        match_of(prev, n, pm) is None,
    ensures
        ({
            let r = diff_walk(prev, n, pm, st);
            &&& forall|k: int|
                st.created.len() <= k < r.created.len() && #[trigger] cmd_id(r.created[k]) == n.id ==> r.created[k]
                    == DiffCmd::CreateLayer { id: n.id, kind: n.kind } || r.created[k] == DiffCmd::ReparentLayer {
                    id: n.id,
                    new_parent: n.parent_id->0,
                    parent_type: n.parent_kind->0,
                }
            &&& forall|k: int|
                st.updated.len() <= k < r.updated.len() && #[trigger] cmd_id(r.updated[k]) == n.id ==> r.updated[k]
                    == DiffCmd::UpdateLayer { id: n.id } || r.updated[k] == DiffCmd::AttachScroll {
                    id: n.id,
                    parent_id: n.parent_id->0,
                }
            &&& forall|k: int|
                st.reordered.len() <= k < r.reordered.len() && #[trigger] cmd_id(r.reordered[k]) == n.id ==> r.reordered[k]
                    == DiffCmd::SetZOrder { id: n.id, index: n.z_index }
        }),
{
    let st1 = DiffState { visited: st.visited.insert(n.id), ..st };
    let st2 = create_cmds(st1, n);
    let len = n.children@.len() as int;
    let r = diff_walk(prev, n, pm, st);
    assert(r == diff_kids(None, n, pm, st2, len));
    lemma_kids_fresh(None, n, pm, st2, len);
    lemma_kids_append(None, n, pm, st2, len);
    assert forall|k: int| st.created.len() <= k < r.created.len() && #[trigger] cmd_id(r.created[k]) == n.id implies r.created[k]
        == DiffCmd::CreateLayer { id: n.id, kind: n.kind } || r.created[k] == DiffCmd::ReparentLayer {
        id: n.id,
        new_parent: n.parent_id->0,
        parent_type: n.parent_kind->0,
    } by {
        if k >= st2.created.len() {
            assert(st2.visited.contains(n.id));
        } else {
            assert(r.created[k] == st2.created[k]);
            if k > st.created.len() {
                assert(st2.created[k] == reparent_cmds(n)[k - st.created.len() - 1]);
            }
        }
    }
    assert forall|k: int| st.updated.len() <= k < r.updated.len() && #[trigger] cmd_id(r.updated[k]) == n.id implies r.updated[k]
        == DiffCmd::UpdateLayer { id: n.id } || r.updated[k] == DiffCmd::AttachScroll { id: n.id, parent_id: n.parent_id->0 } by {
        if k >= st2.updated.len() {
            assert(st2.visited.contains(n.id));
        } else {
            assert(r.updated[k] == st2.updated[k]);
            if k < st.updated.len() + scroll_cmds(n).len() {
                assert(st2.updated[k] == scroll_cmds(n)[k - st.updated.len()]);
            }
        }
    }
    assert forall|k: int| st.reordered.len() <= k < r.reordered.len() && #[trigger] cmd_id(r.reordered[k]) == n.id implies r.reordered[k]
        == DiffCmd::SetZOrder { id: n.id, index: n.z_index } by {
        if k >= st2.reordered.len() {
            assert(st2.visited.contains(n.id));
        } else {
            assert(r.reordered[k] == st2.reordered[k]);
        }
    }
}

} // verus!
