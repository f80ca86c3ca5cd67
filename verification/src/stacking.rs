//! CSS stacking-context detection and CSS2.1 Appendix E paint order.
//!
//! [`creates_stacking_context`] decides from the stacking-relevant facts of
//! a computed style whether a node establishes a stacking context, and
//! [`paint_order_children`] returns a node's styled children in paint order.

use vstd::prelude::*;
use crate::document::Document;
use crate::node::DomNode;

verus! {

/// The computed `position` of a box.
#[derive(Debug, Clone, Copy, PartialEq, Eq)]
pub enum Position {
    Static,
    Relative,
    Absolute,
    Fixed,
    Sticky,
}

/// The facts of a computed style that decide whether it establishes a
/// stacking context. `z_index` is `None` for `auto`; each flag says that
/// the property has a value other than its initial one (`opacity` below 1,
/// a `transform`, `filter`, `backdrop-filter`, `perspective` or `clip-path`
/// other than `none`, a `mix-blend-mode` other than `normal`, `isolation:
/// isolate`, a `contain` that includes `layout` or `paint`, a
/// `container-type` other than `normal`, a `will-change` that always
/// creates a stacking context).
#[derive(Debug, Clone, Copy, PartialEq, Eq)]
pub struct StackingStyle {
    pub position: Position,
    pub z_index: Option<i32>,
    pub opacity_below_one: bool,
    pub has_transform: bool,
    pub has_filter: bool,
    pub has_backdrop_filter: bool,
    pub has_perspective: bool,
    pub has_clip_path: bool,
    pub blends: bool,
    pub isolates: bool,
    pub contains_layout_or_paint: bool,
    pub is_container: bool,
    pub will_change_stacking: bool,
}

/// Whether a box with style `s` establishes a stacking context: the root
/// always does; `fixed` and `sticky` boxes do; a positioned box or a flex or
/// grid item does when its `z-index` is not `auto`; and so does any box
/// with one of the visual effects of [`StackingStyle`].
pub open spec fn makes_stacking_context(s: StackingStyle, is_root: bool, is_flex_or_grid_item: bool) -> bool {
    ||| is_root
    ||| s.position == Position::Fixed || s.position == Position::Sticky
    ||| (s.position == Position::Absolute || s.position == Position::Relative) && s.z_index is Some
    ||| is_flex_or_grid_item && s.z_index is Some
    ||| s.opacity_below_one
    ||| s.has_transform
    ||| s.has_filter
    ||| s.has_backdrop_filter
    ||| s.has_perspective
    ||| s.has_clip_path
    ||| s.blends
    ||| s.isolates
    ||| s.contains_layout_or_paint
    ||| s.is_container
    ||| s.will_change_stacking
}

/// Which styles establish a stacking context, case by case: the root,
/// `fixed` and `sticky` boxes always do; an `absolute` or `relative` box does
/// as soon as its `z-index` is not `auto`, and so does a flex or grid item;
/// each visual effect does on its own. A box that is none of these (not
/// the root, `static`, or positioned with `z-index: auto`, not an item with a
/// `z-index`, without any visual effect) does not.
pub proof fn lemma_stacking_context_cases(s: StackingStyle, is_root: bool, is_flex_or_grid_item: bool)
    ensures
        is_root ==> makes_stacking_context(s, is_root, is_flex_or_grid_item),
        s.position == Position::Fixed ==> makes_stacking_context(s, is_root, is_flex_or_grid_item),
        s.position == Position::Sticky ==> makes_stacking_context(s, is_root, is_flex_or_grid_item),
        s.position == Position::Absolute && s.z_index is Some ==> makes_stacking_context(s, is_root, is_flex_or_grid_item),
        s.position == Position::Relative && s.z_index is Some ==> makes_stacking_context(s, is_root, is_flex_or_grid_item),
        is_flex_or_grid_item && s.z_index is Some ==> makes_stacking_context(s, is_root, is_flex_or_grid_item),
        s.opacity_below_one || s.has_transform || s.has_filter || s.has_backdrop_filter || s.has_perspective
            || s.has_clip_path || s.blends || s.isolates || s.contains_layout_or_paint || s.is_container
            || s.will_change_stacking ==> makes_stacking_context(s, is_root, is_flex_or_grid_item),
        !is_root && s.position != Position::Fixed && s.position != Position::Sticky
            && (s.position == Position::Static || s.z_index is None) && !(is_flex_or_grid_item && s.z_index is Some)
            && !s.opacity_below_one && !s.has_transform && !s.has_filter && !s.has_backdrop_filter
            && !s.has_perspective && !s.has_clip_path && !s.blends && !s.isolates && !s.contains_layout_or_paint
            && !s.is_container && !s.will_change_stacking ==> !makes_stacking_context(s, is_root, is_flex_or_grid_item),
{
}

/// Giving a box a `z-index` never takes a stacking context away: whatever
/// makes one with `z-index: auto` still makes one with any integer value.
pub proof fn lemma_z_index_only_adds(s: StackingStyle, z: i32, is_root: bool, is_flex_or_grid_item: bool)
    requires
        makes_stacking_context(StackingStyle { z_index: None, ..s }, is_root, is_flex_or_grid_item),
    ensures
        makes_stacking_context(StackingStyle { z_index: Some(z), ..s }, is_root, is_flex_or_grid_item),
{
}

/// The inner display type of a parent box, as far as stacking is
/// concerned: only flex and grid containers make their children items that
/// a `z-index` alone turns into stacking contexts.
#[derive(Debug, Clone, Copy, PartialEq, Eq)]
pub enum DisplayInside {
    Flow,
    FlowRoot,
    Flex,
    Grid,
    Table,
    Other,
}

/// Whether node `id` counts as the root for stacking: it has no parent, or
/// its parent is the document node.
pub open spec fn stacking_root_in(m: Map<usize, DomNode>, id: usize) -> bool {
    ||| m[id].parent is None
    ||| (m.contains_key(m[id].parent->0) && m[m[id].parent->0].node_type == crate::node::NodeType::Document)
}

/// Whether node `id` is the root for stacking purposes (see
/// [`stacking_root_in`]).
pub fn is_stacking_root(doc: &Document, id: usize) -> (r: bool)
    requires
        doc.nodes().contains_key(id),
    ensures
        r == stacking_root_in(doc.nodes(), id),
{
    let node = doc.get_node(id).unwrap();
    match node.parent {
        None => true,
        Some(pid) => match doc.get_node(pid) {
            Some(p) => match p.node_type {
                crate::node::NodeType::Document => true,
                _ => false,
            },
            None => false,
        },
    }
}

/// Whether a box is a flex or grid item, given its parent's inner display
/// (`None` when the parent has no computed style, read as `flow`).
pub fn is_flex_or_grid_item(parent_display: Option<DisplayInside>) -> (r: bool)
    ensures
        r == (parent_display == Some(DisplayInside::Flex) || parent_display == Some(DisplayInside::Grid)),
{
    match parent_display {
        Some(DisplayInside::Flex) => true,
        Some(DisplayInside::Grid) => true,
        _ => false,
    }
}

/// Determines whether a node creates a CSS stacking context. `is_root` and
/// `is_flex_or_grid_item` depend on the node's place in the tree, so the
/// caller passes them.
pub fn creates_stacking_context(style: &StackingStyle, is_root: bool, is_flex_or_grid_item: bool) -> (r: bool)
    ensures
        r == makes_stacking_context(*style, is_root, is_flex_or_grid_item),
{
    if is_root {
        return true;
    }
    let has_z_index = style.z_index.is_some();
    match style.position {
        Position::Fixed | Position::Sticky => {
            return true;
        },
        Position::Absolute | Position::Relative => {
            if has_z_index {
                return true;
            }
        },
        Position::Static => {},
    }
    if is_flex_or_grid_item && has_z_index {
        return true;
    }
    style.opacity_below_one || style.has_transform || style.has_filter || style.has_backdrop_filter
        || style.has_perspective || style.has_clip_path || style.blends || style.isolates
        || style.contains_layout_or_paint || style.is_container || style.will_change_stacking
}

/// The `z-index` a node paints with: its integer `z-index`, 0 for `auto`.
pub open spec fn z_of(n: DomNode) -> int {
    match n.paint.z_index {
        Some(z) => z as int,
        None => 0,
    }
}

/// The CSS2.1 Appendix E paint layer of a node; lower layers paint first:
/// 0 for a stacking context with negative `z-index`, 1 for a non-positioned
/// in-flow box, 2 for a positioned box or stacking context at `z-index` 0
/// (or `auto`), 3 for the rest (positive `z-index`).
pub open spec fn layer_of(n: DomNode) -> int {
    if n.creates_stacking_context && z_of(n) < 0 {
        0
    } else if !n.paint.positioned && !n.creates_stacking_context {
        1
    } else if z_of(n) == 0 {
        2
    } else {
        3
    }
}

/// Classifies a node into its paint layer (see [`layer_of`]).
pub fn paint_layer(node: &DomNode) -> (r: i8)
    ensures
        r == layer_of(*node),
{
    let z_index: i32 = match node.paint.z_index {
        Some(z) => z,
        None => 0,
    };
    if node.creates_stacking_context && z_index < 0 {
        return 0;
    }
    if !node.paint.positioned && !node.creates_stacking_context {
        return 1;
    }
    if z_index == 0 {
        return 2;
    }
    3
}

/// A node that creates a stacking context never paints in the in-flow
/// layer: with a negative `z-index` it paints first, with `z-index` `auto`
/// or 0 together with the positioned boxes of `z-index` 0 (CSS2.1
/// Appendix E), with a positive one last.
pub proof fn lemma_stacking_context_layer(n: DomNode)
    requires
        n.creates_stacking_context,
    ensures
        layer_of(n) != 1,
        z_of(n) < 0 ==> layer_of(n) == 0,
        z_of(n) == 0 ==> layer_of(n) == 2,
        z_of(n) > 0 ==> layer_of(n) == 3,
{
}

/// The in-flow layer holds exactly the boxes that are neither positioned
/// nor stacking contexts; a positioned box or stacking context with
/// `z-index` `auto` or 0 paints in the layer right above it, and a
/// positioned box that is no stacking context but has another `z-index`
/// paints in the last layer.
pub proof fn lemma_in_flow_layer(n: DomNode)
    ensures
        0 <= layer_of(n) <= 3,
        layer_of(n) == 1 <==> (!n.paint.positioned && !n.creates_stacking_context),
        (n.paint.positioned || n.creates_stacking_context) && z_of(n) == 0 ==> layer_of(n) == 2,
        layer_of(n) == 0 ==> n.creates_stacking_context && z_of(n) < 0,
        n.paint.positioned && !n.creates_stacking_context && z_of(n) != 0 ==> layer_of(n) == 3,
{
}

/// The key children are painted by inside a parent: `(layer, z-index)`
/// when the parent is a stacking context, the `z-index` alone otherwise.
pub open spec fn order_key(n: DomNode, in_context: bool) -> (int, int) {
    if in_context {
        (layer_of(n), z_of(n))
    } else {
        (0, z_of(n))
    }
}

/// The paint key of each child of a parent in `m` that is (or is not) a
/// stacking context.
pub open spec fn paint_key(m: Map<usize, DomNode>, in_context: bool) -> spec_fn(usize) -> (int, int) {
    |c: usize| order_key(m[c], in_context)
}

/// Lexicographic order of paint keys.
pub open spec fn key_lt(a: (int, int), b: (int, int)) -> bool {
    a.0 < b.0 || (a.0 == b.0 && a.1 < b.1)
}

/// The children in `kids` that exist in `m` and have computed style, in
/// document order.
pub open spec fn styled_children(m: Map<usize, DomNode>, kids: Seq<usize>) -> Seq<usize> {
    kids.filter(|c: usize| m.contains_key(c) && m[c].paint.has_style)
}

/// `out` is `src` stably sorted by `key`: `out[i] == src[p[i]]` for a
/// permutation `p`, and `out` is ordered by key, then by position in `src`.
pub open spec fn stable_sorted_by(src: Seq<usize>, out: Seq<usize>, p: Seq<int>, key: spec_fn(usize) -> (int, int)) -> bool {
    &&& out.len() == src.len()
    &&& p.len() == src.len()
    &&& p.no_duplicates()
    &&& forall|i: int| 0 <= i < p.len() ==> 0 <= #[trigger] p[i] < src.len() && out[i] == src[p[i]]
    &&& forall|a: int, b: int|
        0 <= a < b < out.len() ==> key_lt(key(#[trigger] out[a]), key(#[trigger] out[b])) || (key(out[a]) == key(out[b])
            && p[a] < p[b])
}

/// The paint key of child `c` of a parent that is (or is not) a stacking
/// context.
fn child_key(doc: &Document, c: usize, in_context: bool) -> (r: (i8, i32))
    requires
        doc.nodes().contains_key(c),
    ensures
        (r.0 as int, r.1 as int) == order_key(doc.nodes()[c], in_context),
{
    let n = doc.get_node(c).unwrap();
    let z: i32 = match n.paint.z_index {
        Some(z) => z,
        None => 0,
    };
    if in_context {
        (paint_layer(n), z)
    } else {
        (0, z)
    }
}

/// Whether key `a` sorts strictly before key `b`.
fn key_less(a: (i8, i32), b: (i8, i32)) -> (r: bool)
    ensures
        r == key_lt((a.0 as int, a.1 as int), (b.0 as int, b.1 as int)),
{
    a.0 < b.0 || (a.0 == b.0 && a.1 < b.1)
}

/// The styled children of `kids`, in order.
fn collect_styled(doc: &Document, kids: &Vec<usize>) -> (r: Vec<usize>)
    ensures
        r@ == styled_children(doc.nodes(), kids@),
{
    let ghost m = doc.nodes();
    let ghost pred = |c: usize| m.contains_key(c) && m[c].paint.has_style;
    let mut out: Vec<usize> = Vec::new();
    let mut i: usize = 0;
    while i < kids.len()
        invariant
            i <= kids@.len(),
            m == doc.nodes(),
            pred == (|c: usize| m.contains_key(c) && m[c].paint.has_style),
            out@ == kids@.take(i as int).filter(pred),
        decreases kids@.len() - i,
    {
        let c = kids[i];
        proof {
            assert(kids@.take(i + 1) == kids@.take(i as int).push(c));
            kids@.take(i as int).lemma_filter_push(c, pred);
        }
        let keep = match doc.get_node(c) {
            Some(n) => n.paint.has_style,
            None => false,
        };
        if keep {
            out.push(c);
        }
        i = i + 1;
    }
    proof {
        assert(kids@.take(kids@.len() as int) == kids@);
    }
    out
}

/// Returns the styled children of `node_id` in CSS2.1 Appendix E paint
/// order: when the node is a stacking context, stably sorted by
/// `(paint layer, z-index)`; otherwise stably sorted by `z-index`. Document
/// order breaks ties. A missing node has no children.
pub fn paint_order_children(doc: &Document, node_id: usize) -> (r: Vec<usize>)
    ensures
        !doc.nodes().contains_key(node_id) ==> r@.len() == 0,
        doc.nodes().contains_key(node_id) ==> {
            let node = doc.nodes()[node_id];
            let m = doc.nodes();
            exists|p: Seq<int>|
                #[trigger] stable_sorted_by(styled_children(m, node.children@), r@, p, paint_key(m, node.creates_stacking_context))
        },
{
    let node = match doc.get_node(node_id) {
        Some(n) => n,
        None => return Vec::new(),
    };
    let in_context = node.creates_stacking_context;
    let styled = collect_styled(doc, &node.children);
    let ghost m = doc.nodes();
    let ghost key = paint_key(m, in_context);
    let ghost src = styled@;
    proof {
        assert forall|k: int| 0 <= k < src.len() implies m.contains_key(#[trigger] src[k]) && m[src[k]].paint.has_style by {
            let pred = |c: usize| m.contains_key(c) && m[c].paint.has_style;
            node.children@.lemma_filter_pred(pred, k);
        }
    }
    let mut out: Vec<usize> = Vec::new();
    let mut keys: Vec<(i8, i32)> = Vec::new();
    let ghost mut p: Seq<int> = Seq::empty();
    let mut i: usize = 0;
    while i < styled.len()
        invariant
            src == styled@,
            m == doc.nodes(),
            key == paint_key(m, in_context),
            forall|c: usize| #[trigger] key(c) == order_key(m[c], in_context),
            forall|k: int| 0 <= k < src.len() ==> m.contains_key(#[trigger] src[k]),
            i <= src.len(),
            out@.len() == i,
            keys@.len() == i,
            p.len() == i,
            p.no_duplicates(),
            forall|k: int| 0 <= k < i ==> 0 <= #[trigger] p[k] < i && out@[k] == src[p[k]],
            forall|k: int| 0 <= k < i ==> (#[trigger] keys@[k].0 as int, keys@[k].1 as int) == key(out@[k]),
            forall|a: int, b: int|
                0 <= a < b < i ==> key_lt(key(#[trigger] out@[a]), key(#[trigger] out@[b])) || (key(out@[a]) == key(out@[b])
                    && p[a] < p[b]),
        decreases src.len() - i,
    {
        let c = styled[i];
        let kc = child_key(doc, c, in_context);
        let ghost kci = (kc.0 as int, kc.1 as int);
        let mut q: usize = 0;
        while q < out.len() && !key_less(kc, keys[q])
            invariant
                q <= out@.len(),
                keys@.len() == out@.len(),
                kci == (kc.0 as int, kc.1 as int),
                forall|k: int| 0 <= k < q ==> !key_lt(kci, (#[trigger] keys@[k].0 as int, keys@[k].1 as int)),
            decreases out@.len() - q,
        {
            q = q + 1;
        }
        let ghost out0 = out@;
        let ghost p0 = p;
        let ghost keys0 = keys@;
        proof {
            assert forall|k: int| q <= k < i implies key_lt(kci, #[trigger] key(out0[k])) by {
                assert(key_lt(kci, (keys0[q as int].0 as int, keys0[q as int].1 as int)));
                assert((keys0[q as int].0 as int, keys0[q as int].1 as int) == key(out0[q as int]));
                if k > q {
                    assert(key_lt(key(out0[q as int]), key(out0[k])) || key(out0[q as int]) == key(out0[k]));
                }
            }
            assert forall|k: int| 0 <= k < q implies !key_lt(kci, #[trigger] key(out0[k])) by {
                assert((keys0[k].0 as int, keys0[k].1 as int) == key(out0[k]));
            }
        }
        out.insert(q, c);
        keys.insert(q, kc);
        proof {
            p = p.insert(q as int, i as int);
            assert(key(c) == kci);
            assert forall|k: int| 0 <= k < i + 1 implies 0 <= #[trigger] p[k] < i + 1 && out@[k] == src[p[k]] by {
                if k < q {
                    assert(p[k] == p0[k] && out@[k] == out0[k]);
                } else if k > q {
                    assert(p[k] == p0[k - 1] && out@[k] == out0[k - 1]);
                }
            }
            assert forall|k: int| 0 <= k < i + 1 implies (#[trigger] keys@[k].0 as int, keys@[k].1 as int) == key(out@[k]) by {
                if k < q {
                    assert(keys@[k] == keys0[k] && out@[k] == out0[k]);
                } else if k > q {
                    assert(keys@[k] == keys0[k - 1] && out@[k] == out0[k - 1]);
                }
            }
            assert(p.no_duplicates()) by {
                assert forall|a: int, b: int| 0 <= a < b < p.len() implies p[a] != p[b] by {
                    if a != q && b != q {
                        let a0 = if a < q { a } else { a - 1 };
                        let b0 = if b < q { b } else { b - 1 };
                        assert(p[a] == p0[a0] && p[b] == p0[b0]);
                    } else if a == q {
                        assert(p[b] == p0[b - 1]);
                        assert(0 <= p0[b - 1] < i);
                    } else {
                        let a0 = if a < q { a } else { a - 1 };
                        assert(p[a] == p0[a0]);
                        assert(0 <= p0[a0] < i);
                    }
                }
            }
            assert forall|a: int, b: int|
                0 <= a < b < i + 1 implies key_lt(key(#[trigger] out@[a]), key(#[trigger] out@[b])) || (key(out@[a]) == key(out@[b])
                    && p[a] < p[b]) by {
                if a != q && b != q {
                    let a0 = if a < q { a } else { a - 1 };
                    let b0 = if b < q { b } else { b - 1 };
                    assert(out@[a] == out0[a0] && out@[b] == out0[b0]);
                    assert(p[a] == p0[a0] && p[b] == p0[b0]);
                } else if a == q {
                    assert(out@[b] == out0[b - 1]);
                    assert(key_lt(kci, key(out0[b - 1])));
                } else {
                    assert(out@[a] == out0[a]);
                    assert(p[a] == p0[a]);
                    assert(!key_lt(kci, key(out0[a])));
                    assert(0 <= p0[a] < i);
                }
            }
        }
        i = i + 1;
    }
    proof {
        assert(stable_sorted_by(src, out@, p, key));
    }
    out
}

/// Inside a stacking context, every in-flow child (neither positioned nor a
/// stacking context) paints before every child that creates a stacking
/// context with a `z-index` of 0 or more, whatever their document order.
pub proof fn lemma_in_flow_paints_before_contexts(
    m: Map<usize, DomNode>,
    src: Seq<usize>,
    out: Seq<usize>,
    p: Seq<int>,
    a: int,
    b: int,
)
    requires
        stable_sorted_by(src, out, p, paint_key(m, true)),
        0 <= a < out.len(),
        0 <= b < out.len(),
        !m[out[a]].paint.positioned && !m[out[a]].creates_stacking_context,
        m[out[b]].creates_stacking_context && z_of(m[out[b]]) >= 0,
    ensures
        a < b,
{
    let key = paint_key(m, true);
    assert(key(out[a]) == order_key(m[out[a]], true));
    assert(key(out[b]) == order_key(m[out[b]], true));
    if b < a {
        assert(key_lt(key(out[b]), key(out[a])) || key(out[b]) == key(out[a]));
    }
}

} // verus!
