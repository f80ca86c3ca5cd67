//! Bottom-up flattening of the layer decision tree: every node that gets a
//! platform layer absorbs the layers bubbling up from below it, numbering
//! them in painter's order; the other nodes pass their layers on upwards.
//!
//! A layer comes out as its records in pre-order: its own record first,
//! then each absorbed layer's records in turn. A record names its parent
//! layer, so the nesting can be rebuilt from the order and the parents.

use vstd::prelude::*;

verus! {

/// A node of the layer decision tree, as the flattening sees it.
pub struct FlattenNode {
    pub id: u64,
    /// The layer pass gave this node a platform layer of its own.
    pub is_layer: bool,
    /// The node is a scroll container.
    pub scrollable: bool,
    pub generation: u64,
    pub children: Vec<FlattenNode>,
}

/// The kind of platform layer a node gets.
#[derive(Debug, Clone, Copy, PartialEq, Eq)]
pub enum LayerKind {
    View,
    ScrollView,
    MetalLayer,
}

/// What a child layer is attached to: a plain layer or a scroll view's
/// content.
#[derive(Debug, Clone, Copy, PartialEq, Eq)]
pub enum ParentKind {
    Layer,
    ScrollView,
}

/// One layer of the flattened tree.
#[derive(Debug, Clone, Copy, PartialEq, Eq)]
pub struct LayerRec {
    pub id: u64,
    pub kind: LayerKind,
    pub parent_id: Option<u64>,
    pub parent_kind: Option<ParentKind>,
    pub z_index: u32,
    pub generation: u64,
}

/// The root node of the tree always gets a layer, whatever the layer pass
/// decided.
pub const ROOT_NODE_ID: u64 = 1;

/// A node's own record, before a parent layer adopts it.
pub open spec fn own_rec(n: FlattenNode) -> LayerRec {
    LayerRec {
        id: n.id,
        kind: if n.scrollable { LayerKind::ScrollView } else { LayerKind::View },
        parent_id: None,
        parent_kind: None,
        z_index: 0,
        generation: n.generation,
    }
}

/// Whether node `n` becomes a layer.
pub open spec fn gets_layer(n: FlattenNode) -> bool {
    n.is_layer || n.id == ROOT_NODE_ID
}

/// What a layer of kind scroll view or plain view offers its children.
pub open spec fn kind_for_children(n: FlattenNode) -> ParentKind {
    if n.scrollable { ParentKind::ScrollView } else { ParentKind::Layer }
}

/// The layers that leave a node: its own layer, if it is one, followed by
/// the layers bubbling through it.
pub open spec fn leaving(o: (Option<Seq<LayerRec>>, Seq<Seq<LayerRec>>)) -> Seq<Seq<LayerRec>> {
    match o.0 {
        Some(l) => seq![l].add(o.1),
        None => o.1,
    }
}

/// The layers that leave the first `i` children of `n`, in child order.
pub open spec fn kids_leaving(n: FlattenNode, i: int) -> Seq<Seq<LayerRec>>
    decreases n, 0nat, i,
{
    if i <= 0 || i > n.children@.len() {
        Seq::empty()
    } else {
        proof {
            assert(decreases_to!(n => n.children));
        }
        kids_leaving(n, i - 1).add(leaving(flat(n.children@[i - 1])))
    }
}

/// Layer `l` adopted by layer `pid` (of kind `pk`) as its `z`-th child.
pub open spec fn adopted(l: Seq<LayerRec>, pid: u64, pk: ParentKind, z: int) -> Seq<LayerRec> {
    l.update(0, LayerRec { z_index: z as u32, parent_id: Some(pid), parent_kind: Some(pk), ..l[0] })
}

/// The flattening of the subtree of `n`: its own layer (if it gets one,
/// with every layer from below adopted in order) and the layers it passes
/// on upwards (all of them when it is not a layer).
pub open spec fn flat(n: FlattenNode) -> (Option<Seq<LayerRec>>, Seq<Seq<LayerRec>>)
    decreases n, 1nat, 0int,
{
    let all = kids_leaving(n, n.children@.len() as int);
    if gets_layer(n) {
        let kids = Seq::new(all.len(), |z: int| adopted(all[z], n.id, kind_for_children(n), z));
        (Some(seq![own_rec(n)].add(kids.flatten_alt())), Seq::empty())
    } else {
        (None, all)
    }
}

/// Every layer's records start with the layer's own record.
pub open spec fn all_nonempty(s: Seq<Seq<LayerRec>>) -> bool {
    forall|k: int| 0 <= k < s.len() ==> #[trigger] s[k].len() > 0
}

pub open spec fn views(v: Vec<Vec<LayerRec>>) -> Seq<Seq<LayerRec>> {
    v@.map_values(|x: Vec<LayerRec>| x@)
}

pub open spec fn opt_view(o: Option<Vec<LayerRec>>) -> Option<Seq<LayerRec>> {
    match o {
        Some(v) => Some(v@),
        None => None,
    }
}

/// Flattens the subtree of `node` bottom-up. Returns its own layer (as
/// pre-order records) when it gets one, and the layers it passes upwards.
pub fn flatten_bottom_up(node: &FlattenNode) -> (r: (Option<Vec<LayerRec>>, Vec<Vec<LayerRec>>))
    ensures
        opt_view(r.0) == flat(*node).0,
        views(r.1) == flat(*node).1,
        all_nonempty(leaving(flat(*node))),
    decreases node,
{
    let mut all: Vec<Vec<LayerRec>> = Vec::new();
    let mut i: usize = 0;
    while i < node.children.len()
        invariant
            i <= node.children@.len(),
            views(all) == kids_leaving(*node, i as int),
            all_nonempty(views(all)),
        decreases node.children@.len() - i,
    {
        proof {
            assert(decreases_to!(*node => node.children@[i as int]));
        }
        let child = flatten_bottom_up(&node.children[i]);
        let ghost before = views(all);
        let ghost out = flat(node.children@[i as int]);
        match child.0 {
            Some(l) => {
                all.push(l);
            },
            None => {},
        }
        let ghost mid = views(all);
        proof {
            assert(mid =~= match out.0 {
                Some(l) => before.push(l),
                None => before,
            });
        }
        let mut rest = child.1;
        let ghost all0 = all@;
        all.append(&mut rest);
        proof {
            assert(views(all) =~= mid.add(out.1));
            assert forall|q: int| 0 <= q < views(all).len() implies #[trigger] views(all)[q].len() > 0 by {
                if q >= mid.len() {
                    let lv = leaving(out);
                    assert(views(all)[q] == out.1[q - mid.len()]);
                    assert(out.1[q - mid.len()] == lv[lv.len() - out.1.len() + (q - mid.len())]);
                } else {
                    assert(views(all)[q] == mid[q]);
                    if out.0 is Some && q == before.len() {
                        assert(leaving(out)[0] == mid[q]);
                    } else {
                        assert(mid[q] == before[q]);
                    }
                }
            }
        }
        proof {
            assert(kids_leaving(*node, i + 1) == before.add(leaving(out)));
            assert(views(all) =~= before.add(leaving(out)));
        }
        i = i + 1;
    }
    if node.is_layer || node.id == ROOT_NODE_ID {
        let pk = if node.scrollable { ParentKind::ScrollView } else { ParentKind::Layer };
        let own = LayerRec {
            id: node.id,
            kind: if node.scrollable { LayerKind::ScrollView } else { LayerKind::View },
            parent_id: None,
            parent_kind: None,
            z_index: 0,
            generation: node.generation,
        };
        let ghost all_v = views(all);
        let ghost kids = Seq::new(all_v.len(), |z: int| adopted(all_v[z], node.id, pk, z));
        let mut out: Vec<LayerRec> = Vec::new();
        out.push(own);
        let mut z: usize = 0;
        while z < all.len()
            invariant
                z <= all@.len(),
                all_v == views(all),
                all_nonempty(all_v),
                kids == Seq::new(all_v.len(), |z: int| adopted(all_v[z], node.id, pk, z)),
                out@ == seq![own].add(kids.take(z as int).flatten_alt()),
            decreases all@.len() - z,
        {
            let layer = &all[z];
            proof {
                assert(layer@ == all_v[z as int]);
                assert(layer@.len() > 0);
            }
            let head = LayerRec { z_index: #[verifier::truncate] (z as u32), parent_id: Some(node.id), parent_kind: Some(pk), ..layer[0] };
            let ghost out0 = out@;
            out.push(head);
            let mut j: usize = 1;
            while j < layer.len()
                invariant
                    1 <= j <= layer@.len(),
                    out@ == out0.add(adopted(layer@, node.id, pk, z as int).take(j as int)),
                    head == adopted(layer@, node.id, pk, z as int)[0],
                decreases layer@.len() - j,
            {
                out.push(layer[j]);
                proof {
                    let a = adopted(layer@, node.id, pk, z as int);
                    assert(a[j as int] == layer@[j as int]);
                    assert(a.take(j + 1) =~= a.take(j as int).push(a[j as int]));
                    assert(out@ =~= out0.add(a.take(j + 1)));
                }
                j = j + 1;
            }
            proof {
                let a = adopted(layer@, node.id, pk, z as int);
                assert(a.take(a.len() as int) =~= a);
                assert(kids[z as int] == a);
                assert(kids.take(z + 1) =~= kids.take(z as int).push(a));
                assert(kids.take(z + 1).flatten_alt() == kids.take(z as int).flatten_alt().add(a)) by {
                    assert(kids.take(z + 1).drop_last() =~= kids.take(z as int));
                }
                assert(out@ =~= seq![own].add(kids.take(z + 1).flatten_alt()));
            }
            z = z + 1;
        }
        proof {
            assert(kids.take(kids.len() as int) =~= kids);
            assert(own == own_rec(*node));
            assert(all_v == kids_leaving(*node, node.children@.len() as int));
            assert(leaving(flat(*node)) =~= seq![flat(*node).0->0]);
        }
        let none: Vec<Vec<LayerRec>> = Vec::new();
        proof {
            assert(views(none) =~= Seq::<Seq<LayerRec>>::empty());
        }
        (Some(out), none)
    } else {
        proof {
            assert(leaving(flat(*node)) == views(all));
        }
        (None, all)
    }
}

/// The flattened tree of `root`: the root's own layer when it gets one;
/// otherwise the first layer bubbling out of it, detached from any parent;
/// otherwise nothing.
pub open spec fn flat_tree(root: FlattenNode) -> Option<Seq<LayerRec>> {
    let o = flat(root);
    match o.0 {
        Some(l) => Some(l),
        None => if o.1.len() > 0 {
            let f = o.1[0];
            Some(f.update(0, LayerRec { parent_id: None, parent_kind: None, ..f[0] }))
        } else {
            None
        },
    }
}

/// Runs the flatten pass over the layer decision tree rooted at `root`,
/// returning the layer tree as pre-order records (see [`flat_tree`]).
pub fn run_flatten(root: &FlattenNode) -> (r: Option<Vec<LayerRec>>)
    ensures
        opt_view(r) == flat_tree(*root),
{
    let res = flatten_bottom_up(root);
    match res.0 {
        Some(l) => Some(l),
        None => {
            let mut rest = res.1;
            if rest.len() == 0 {
                return None;
            }
            proof {
                assert(rest@[0]@ == flat(*root).1[0]);
                assert(leaving(flat(*root)) == flat(*root).1);
                assert(rest@[0]@.len() > 0);
            }
            let mut first = rest.swap_remove(0);
            let head = LayerRec { parent_id: None, parent_kind: None, ..first[0] };
            first.set(0, head);
            Some(first)
        },
    }
}

/// Every layer leaving a subtree has at least its own record.
pub proof fn lemma_leaving_nonempty(n: FlattenNode)
    ensures
        all_nonempty(leaving(flat(n))),
    decreases n, 1nat, 0int,
{
    lemma_kids_nonempty(n, n.children@.len() as int);
    if gets_layer(n) {
        assert(flat(n).0->0[0] == own_rec(n));
        assert(leaving(flat(n))[0] == flat(n).0->0);
    }
}

/// Every layer leaving the first `i` children of `n` is nonempty.
pub proof fn lemma_kids_nonempty(n: FlattenNode, i: int)
    ensures
        all_nonempty(kids_leaving(n, i)),
    decreases n, 0nat, i,
{
    if 0 < i <= n.children@.len() {
        assert(decreases_to!(n => n.children@[i - 1]));
        lemma_kids_nonempty(n, i - 1);
        lemma_leaving_nonempty(n.children@[i - 1]);
        let a = kids_leaving(n, i - 1);
        let b = leaving(flat(n.children@[i - 1]));
        assert(kids_leaving(n, i) == a.add(b));
        assert forall|k: int| 0 <= k < a.len() + b.len() implies #[trigger] a.add(b)[k].len() > 0 by {
            if k < a.len() {
                assert(a.add(b)[k] == a[k]);
            } else {
                assert(a.add(b)[k] == b[k - a.len()]);
            }
        }
    }
}

/// Where the `z`-th sequence of `s` sits inside `s.flatten_alt()`.
proof fn lemma_block_offset(s: Seq<Seq<LayerRec>>, z: int) -> (off: int)
    requires
        0 <= z < s.len(),
    ensures
        0 <= off,
        off + s[z].len() <= s.flatten_alt().len(),
        forall|j: int| 0 <= j < s[z].len() ==> s.flatten_alt()[off + j] == #[trigger] s[z][j],
    decreases s.len(),
{
    let d = s.drop_last();
    assert(s.flatten_alt() == d.flatten_alt().add(s.last()));
    if z == s.len() - 1 {
        d.flatten_alt().len() as int
    } else {
        let off = lemma_block_offset(d, z);
        assert(d[z] == s[z]);
        assert forall|j: int| 0 <= j < s[z].len() implies s.flatten_alt()[off + j] == #[trigger] s[z][j] by {
            assert(s.flatten_alt()[off + j] == d.flatten_alt()[off + j]);
            assert(d[z][j] == s[z][j]);
        }
        off
    }
}

/// What leaves child `i` of `n` sits, in order, inside what leaves the
/// first `m` children.
proof fn lemma_kids_leaving_block(n: FlattenNode, i: int, m: int, q: int)
    requires
        0 <= i < m <= n.children@.len(),
        0 <= q < leaving(flat(n.children@[i])).len(),
    ensures
        kids_leaving(n, i).len() + q < kids_leaving(n, m).len(),
        kids_leaving(n, m)[kids_leaving(n, i).len() + q] == leaving(flat(n.children@[i]))[q],
    decreases m,
{
    let a = kids_leaving(n, m - 1);
    let b = leaving(flat(n.children@[m - 1]));
    assert(kids_leaving(n, m) == a.add(b));
    if m == i + 1 {
        assert(a.add(b)[a.len() + q] == b[q]);
    } else {
        lemma_kids_leaving_block(n, i, m - 1, q);
        assert(a.add(b)[kids_leaving(n, i).len() + q] == a[kids_leaving(n, i).len() + q]);
    }
}

/// A layer node absorbs every layer leaving each of its children (the
/// child's own layer, or the layers passing through a child without one):
/// the absorbed layer's first record comes re-parented to the node's layer,
/// with the node's kind for children and a painter's-order index, and its
/// other records (the layers nested in it, already parented below) follow
/// it unchanged and in order. The index is the number of layers absorbed
/// before it: those leaving the earlier children, then the earlier ones
/// leaving this child. The node's layer starts with its own record, which
/// names no parent.
pub proof fn lemma_layer_absorbs_child(n: FlattenNode, i: int, q: int)
    requires
        gets_layer(n),
        0 <= i < n.children@.len(),
        0 <= q < leaving(flat(n.children@[i])).len(),
    ensures
        ({
            let l = flat(n).0->0;
            let lc = leaving(flat(n.children@[i]))[q];
            &&& l.len() > 0
            &&& l[0].id == n.id
            &&& l[0].parent_id is None
            &&& l[0].parent_kind is None
            &&& lc.len() > 0
            &&& exists|k: int|
                0 < k && k + lc.len() <= l.len() && (#[trigger] l[k]).id == lc[0].id && l[k].kind == lc[0].kind
                    && l[k].generation == lc[0].generation && l[k].parent_id == Some(n.id) && l[k].parent_kind == Some(
                    kind_for_children(n),
                ) && l[k].z_index == (kids_leaving(n, i).len() + q) as u32 && forall|j: int|
                    1 <= j < lc.len() ==> l[k + j] == #[trigger] lc[j]
        }),
{
    let c = n.children@[i];
    let len = n.children@.len() as int;
    let all = kids_leaving(n, len);
    let pk = kind_for_children(n);
    let kids = Seq::new(all.len(), |z: int| adopted(all[z], n.id, pk, z));
    let l = flat(n).0->0;
    assert(l == seq![own_rec(n)].add(kids.flatten_alt()));
    lemma_leaving_nonempty(c);
    let lc = leaving(flat(c))[q];
    assert(lc.len() > 0);
    let z = kids_leaving(n, i).len() + q;
    lemma_kids_leaving_block(n, i, len, q);
    assert(all[z] == lc);
    let a = kids[z];
    assert(a == adopted(lc, n.id, pk, z));
    let off = lemma_block_offset(kids, z);
    let k = off + 1;
    assert(l[k] == kids.flatten_alt()[off]);
    assert(kids.flatten_alt()[off + 0] == a[0]);
    assert(l[k] == a[0]);
    assert forall|j: int| 1 <= j < lc.len() implies l[k + j] == #[trigger] lc[j] by {
        assert(l[k + j] == kids.flatten_alt()[off + j]);
        assert(kids.flatten_alt()[off + j] == a[j]);
        assert(a[j] == lc[j]);
    }
}

/// A node without a layer of its own passes every layer leaving each of its
/// children upwards unchanged, to be absorbed further up.
pub proof fn lemma_passes_layers_up(n: FlattenNode, i: int, q: int)
    requires
        !gets_layer(n),
        0 <= i < n.children@.len(),
        0 <= q < leaving(flat(n.children@[i])).len(),
    ensures
        flat(n).0 is None,
        flat(n).1.contains(leaving(flat(n.children@[i]))[q]),
{
    let len = n.children@.len() as int;
    lemma_kids_leaving_block(n, i, len, q);
    let z = kids_leaving(n, i).len() + q;
    assert(flat(n).1[z] == leaving(flat(n.children@[i]))[q]);
}

} // verus!
