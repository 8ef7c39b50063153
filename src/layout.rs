use vstd::prelude::*;

use crate::rank::{lemma_ranked_upto_bounds, rank_by_size, ranked};
use crate::tree::{file_total, forest_total, DirNode};

verus! {

/// A rectangle of the canvas, in whole canvas units.
#[derive(Clone, Copy, Debug, PartialEq, Eq, Structural)]
pub struct Area {
    pub x: u64,
    pub y: u64,
    pub width: u64,
    pub height: u64,
}

/// One rectangle of a treemap: the area given to a node that ends the
/// recursion, with that node's size and name and its depth below the root.
#[derive(Debug)]
pub struct TreemapRect {
    pub x: u64,
    pub y: u64,
    pub width: u64,
    pub height: u64,
    pub size: u64,
    pub name: String,
    pub depth: usize,
}

/// The length given to an entry of `size` out of `total` when `rem` units
/// remain: `rem * size / total`, rounded down, and never more than `rem`.
pub open spec fn share(rem: nat, size: nat, total: nat) -> nat {
    if total == 0 || rem * size / total > rem {
        rem
    } else {
        rem * size / total
    }
}

/// The cuts of a line that starts at `start` and is `rem` units long among
/// entries of the given sizes, as (start, length) pairs: each entry but the
/// last takes its share of what remains, the last takes all that remains.
pub open spec fn cuts(ws: Seq<u64>, total: nat, start: nat, rem: nat) -> Seq<(nat, nat)>
    decreases ws.len(),
{
    if ws.len() == 0 {
        Seq::empty()
    } else if ws.len() == 1 {
        seq![(start, rem)]
    } else {
        let l = share(rem, ws[0] as nat, total);
        seq![(start, l)] + cuts(ws.drop_first(), total, start + l, (rem - l) as nat)
    }
}

/// The sizes of the children of `node`, in scan order.
pub open spec fn child_sizes(node: DirNode) -> Seq<u64> {
    node.children@.map_values(|c: DirNode| c.size)
}

/// The indices of the nonzero children of `node`, largest first, ties in scan order.
pub open spec fn ranked_children(node: DirNode) -> Seq<usize> {
    ranked(child_sizes(node))
}

/// The sizes of the ranked children.
pub open spec fn ranked_sizes(node: DirNode) -> Seq<u64> {
    ranked_children(node).map_values(|i: usize| child_sizes(node)[i as int])
}

/// A container wider than it is high is split left to right, else top to bottom.
pub open spec fn splits_horizontally(a: Area) -> bool {
    a.width > a.height
}

/// The areas that the ranked children of `node` get inside `a`.
pub open spec fn child_areas(node: DirNode, a: Area) -> Seq<Area> {
    if splits_horizontally(a) {
        cuts(ranked_sizes(node), node.size as nat, a.x as nat, a.width as nat).map_values(
            |c: (nat, nat)| Area { x: c.0 as u64, y: a.y, width: c.1 as u64, height: a.height },
        )
    } else {
        cuts(ranked_sizes(node), node.size as nat, a.y as nat, a.height as nat).map_values(
            |c: (nat, nat)| Area { x: a.x, y: c.0 as u64, width: a.width, height: c.1 as u64 },
        )
    }
}

/// The single rectangle of a node that ends the recursion.
pub open spec fn leaf_rect(node: DirNode, a: Area, depth: usize) -> TreemapRect {
    TreemapRect {
        x: a.x,
        y: a.y,
        width: a.width,
        height: a.height,
        size: node.size,
        name: node.name,
        depth,
    }
}

/// The depth of a node's children: one more, held at `usize::MAX`.
pub open spec fn next_depth(depth: usize) -> usize {
    if depth < usize::MAX {
        (depth + 1) as usize
    } else {
        depth
    }
}

/// The rectangles of the treemap of `node` laid out in `a` at `depth`: one
/// rectangle for a node without children or of size zero, or for an area of
/// zero width or zero height, which has nothing to share out; else those of its
/// nonzero children, largest first, each laid out in its area one level deeper.
pub open spec fn layout(node: DirNode, a: Area, depth: usize) -> Seq<TreemapRect>
    decreases node, node.children@.len() + 1,
{
    if node.children@.len() == 0 || node.size == 0 || a.width == 0 || a.height == 0 {
        seq![leaf_rect(node, a, depth)]
    } else {
        layout_parts(node, a, depth, 0)
    }
}

/// The rectangles of the ranked children of `node` from the `j`-th on.
pub open spec fn layout_parts(node: DirNode, a: Area, depth: usize, j: int) -> Seq<TreemapRect>
    decreases node, node.children@.len() - j,
{
    let order = ranked_children(node);
    if j < 0 || j >= order.len() || order.len() > node.children@.len() {
        Seq::empty()
    } else {
        let c = order[j] as int;
        let part = if 0 <= c < node.children@.len() {
            layout(node.children@[c], child_areas(node, a)[j], next_depth(depth))
        } else {
            Seq::empty()
        };
        part + layout_parts(node, a, depth, j + 1)
    }
}

proof fn lemma_share(rem: nat, size: nat, total: nat)
    ensures
        share(rem, size, total) <= rem,
{
}

proof fn lemma_cuts(ws: Seq<u64>, total: nat, start: nat, rem: nat)
    ensures
        cuts(ws, total, start, rem).len() == ws.len(),
        ws.len() >= 1 ==> cuts(ws, total, start, rem)[0].0 == start,
        ws.len() >= 1 ==> ({
            let c = cuts(ws, total, start, rem);
            c[c.len() - 1].0 + c[c.len() - 1].1 == start + rem
        }),
        forall|k: int|
            0 <= k < ws.len() - 1 ==> cuts(ws, total, start, rem)[k + 1].0 == #[trigger] cuts(
                ws,
                total,
                start,
                rem,
            )[k].0 + cuts(ws, total, start, rem)[k].1,
        forall|k: int|
            0 <= k < ws.len() ==> start <= #[trigger] cuts(ws, total, start, rem)[k].0 && cuts(
                ws,
                total,
                start,
                rem,
            )[k].0 + cuts(ws, total, start, rem)[k].1 <= start + rem,
    decreases ws.len(),
{
    if ws.len() >= 2 {
        let l = share(rem, ws[0] as nat, total);
        lemma_share(rem, ws[0] as nat, total);
        let rest = cuts(ws.drop_first(), total, start + l, (rem - l) as nat);
        lemma_cuts(ws.drop_first(), total, start + l, (rem - l) as nat);
        let c = cuts(ws, total, start, rem);
        assert(c == seq![(start, l)] + rest);
        assert forall|k: int| 0 <= k < ws.len() - 1 implies c[k + 1].0 == #[trigger] c[k].0
            + c[k].1 by {
            if k > 0 {
                assert(c[k] == rest[k - 1]);
                assert(c[k + 1] == rest[k]);
            } else {
                assert(c[1] == rest[0]);
            }
        }
        assert forall|k: int| 0 <= k < ws.len() implies start <= #[trigger] c[k].0 && c[k].0
            + c[k].1 <= start + rem by {
            if k > 0 {
                assert(c[k] == rest[k - 1]);
            }
        }
    }
}

/// A node of nonzero size with at least one nonzero child hands its whole
/// area to its children: their areas lie side by side along the split axis,
/// each spans the container across it, the first starts where the container
/// starts, each next one where the one before ends, and the last ends where
/// the container ends. So they cover the container with no gap and no overlap.
pub proof fn lemma_children_tile(node: DirNode, a: Area)
    requires
        node.size > 0,
        exists|i: int| 0 <= i < node.children@.len() && #[trigger] node.children@[i].size > 0,
        a.x + a.width <= u64::MAX,
        a.y + a.height <= u64::MAX,
    ensures
        ({
            let cs = child_areas(node, a);
            let n = cs.len();
            &&& n >= 1
            &&& splits_horizontally(a) ==> {
                &&& cs[0].x == a.x
                &&& cs[n - 1].x + cs[n - 1].width == a.x + a.width
                &&& forall|k: int| 0 <= k < n - 1 ==> #[trigger] cs[k + 1].x == cs[k].x + cs[k].width
                &&& forall|k: int| 0 <= k < n ==> #[trigger] cs[k].y == a.y && cs[k].height == a.height
            }
            &&& !splits_horizontally(a) ==> {
                &&& cs[0].y == a.y
                &&& cs[n - 1].y + cs[n - 1].height == a.y + a.height
                &&& forall|k: int| 0 <= k < n - 1 ==> #[trigger] cs[k + 1].y == cs[k].y + cs[k].height
                &&& forall|k: int| 0 <= k < n ==> #[trigger] cs[k].x == a.x && cs[k].width == a.width
            }
        }),
{
    let sizes = child_sizes(node);
    let i = choose|i: int| 0 <= i < node.children@.len() && #[trigger] node.children@[i].size > 0;
    assert(sizes[i] != 0);
    lemma_ranked_upto_bounds(sizes, sizes.len() as int);
    let ws = ranked_sizes(node);
    lemma_areas_adjacent(node, a);
    if splits_horizontally(a) {
        lemma_cuts(ws, node.size as nat, a.x as nat, a.width as nat);
    } else {
        lemma_cuts(ws, node.size as nat, a.y as nat, a.height as nat);
    }
}

/// `rem * size / total` rounded down, at most `rem`.
fn share_of(rem: u64, size: u64, total: u64) -> (r: u64)
    requires
        total > 0,
    ensures
        r == share(rem as nat, size as nat, total as nat),
{
    proof {
        assert((rem as int) * (size as int) <= u128::MAX) by (nonlinear_arith)
            requires
                rem <= u64::MAX,
                size <= u64::MAX,
        ;
    }
    let p: u128 = (rem as u128) * (size as u128);
    let q: u128 = p / (total as u128);
    if q > rem as u128 {
        rem
    } else {
        q as u64
    }
}

/// The sizes of the children of `node`, in scan order.
pub(crate) fn sizes_of_children(node: &DirNode) -> (sizes: Vec<u64>)
    ensures
        sizes@ == child_sizes(*node),
{
    let mut sizes: Vec<u64> = Vec::new();
    let mut i: usize = 0;
    while i < node.children.len()
        invariant
            0 <= i <= node.children@.len(),
            sizes@ == child_sizes(*node).take(i as int),
        decreases node.children@.len() - i,
    {
        sizes.push(node.children[i].size);
        i = i + 1;
        assert(sizes@ =~= child_sizes(*node).take(i as int));
    }
    assert(sizes@ =~= child_sizes(*node));
    sizes
}

#[verifier::rlimit(100)]
#[verifier::spinoff_prover]
/// Lays out the treemap of `node` in the area at (`x`, `y`) of the given
/// width and height: the rectangles are `layout` of the node in that area.
pub fn create_treemap_layout(
    node: &DirNode,
    x: u64,
    y: u64,
    width: u64,
    height: u64,
    depth: usize,
) -> (rects: Vec<TreemapRect>)
    requires
        x + width <= u64::MAX,
        y + height <= u64::MAX,
    ensures
        rects@ == layout(*node, Area { x, y, width, height }, depth),
    decreases node,
{
    let ghost a = Area { x, y, width, height };
    if node.children.len() == 0 || node.size == 0 || width == 0 || height == 0 {
        let mut rects: Vec<TreemapRect> = Vec::new();
        rects.push(
            TreemapRect { x, y, width, height, size: node.size, name: node.name.clone(), depth },
        );
        proof {
            assert(rects@ =~= layout(*node, a, depth));
        }
        return rects;
    }
    let sizes = sizes_of_children(node);
    let order = rank_by_size(&sizes);
    let ghost ws = ranked_sizes(*node);
    proof {
        lemma_ranked_upto_bounds(sizes@, sizes@.len() as int);
    }
    let horizontal = width > height;
    let total = node.size;
    let mut start: u64 = if horizontal {
        x
    } else {
        y
    };
    let mut rem: u64 = if horizontal {
        width
    } else {
        height
    };
    let ghost start0 = start as nat;
    let ghost rem0 = rem as nat;
    let mut rects: Vec<TreemapRect> = Vec::new();
    let mut j: usize = 0;
    proof {
        assert(ws.skip(0) =~= ws);
        assert(layout(*node, a, depth) == layout_parts(*node, a, depth, 0));
        assert(rects@ + layout_parts(*node, a, depth, 0) =~= layout_parts(*node, a, depth, 0));
    }
    while j < order.len()
        invariant
            order@ == ranked_children(*node),
            sizes@ == child_sizes(*node),
            ws == ranked_sizes(*node),
            order@.len() <= node.children@.len(),
            forall|i: int| 0 <= i < order@.len() ==> (#[trigger] order@[i]) < node.children@.len(),
            0 <= j <= order@.len(),
            total == node.size,
            total > 0,
            horizontal == splits_horizontally(a),
            a == (Area { x, y, width, height }),
            x + width <= u64::MAX,
            y + height <= u64::MAX,
            start0 == (if horizontal { x } else { y }),
            rem0 == (if horizontal { width } else { height }),
            start + rem == start0 + rem0,
            cuts(ws, total as nat, start0, rem0).skip(j as int) == cuts(
                ws.skip(j as int),
                total as nat,
                start as nat,
                rem as nat,
            ),
            rects@ + layout_parts(*node, a, depth, j as int) == layout(*node, a, depth),
        decreases order@.len() - j,
    {
        let c = order[j];
        let child = &node.children[c];
        let ghost rest = ws.skip(j as int);
        proof {
            lemma_share(rem as nat, child.size as nat, total as nat);
            assert(rest[0] == child.size);
        }
        let len = if j + 1 == order.len() {
            rem
        } else {
            share_of(rem, child.size, total)
        };
        let ghost full = cuts(ws, total as nat, start0, rem0);
        proof {
            lemma_cuts(ws, total as nat, start0, rem0);
            assert(full[j as int] == full.skip(j as int)[0]);
            if j + 1 < order.len() {
                assert(rest.drop_first() =~= ws.skip(j + 1));
                assert(full.skip(j + 1) =~= full.skip(j as int).drop_first());
            }
            assert(full[j as int] == (start as nat, len as nat));
            assert(len <= rem);
            assert(decreases_to!(node => node.children));
            assert(decreases_to!(node.children => node.children@));
            assert(decreases_to!(node.children@ => node.children@[c as int]));
        }
        let ghost area = child_areas(*node, a)[j as int];
        let mut sub = if horizontal {
            create_treemap_layout(child, start, y, len, height, depth.saturating_add(1))
        } else {
            create_treemap_layout(child, x, start, width, len, depth.saturating_add(1))
        };
        proof {
            assert(area == (if horizontal { Area { x: start, y, width: len, height } } else {
                Area { x, y: start, width, height: len }
            }));
            assert(layout_parts(*node, a, depth, j as int) == sub@ + layout_parts(
                *node,
                a,
                depth,
                j + 1,
            ));
        }
        let ghost prev = rects@;
        rects.append(&mut sub);
        proof {
            assert(rects@ + layout_parts(*node, a, depth, j + 1) =~= prev + layout_parts(
                *node,
                a,
                depth,
                j as int,
            ));
        }
        start = start + len;
        rem = rem - len;
        j = j + 1;
    }
    proof {
        assert(rects@ =~= rects@ + layout_parts(*node, a, depth, j as int));
    }
    rects
}

/// `r` lies inside `a`.
pub open spec fn inside(r: TreemapRect, a: Area) -> bool {
    &&& a.x <= r.x
    &&& r.x + r.width <= a.x + a.width
    &&& a.y <= r.y
    &&& r.y + r.height <= a.y + a.height
}

proof fn lemma_child_area_inside(node: DirNode, a: Area, j: int)
    requires
        a.x + a.width <= u64::MAX,
        a.y + a.height <= u64::MAX,
        0 <= j < ranked_children(node).len(),
    ensures
        ({
            let c = child_areas(node, a)[j];
            &&& a.x <= c.x
            &&& c.x + c.width <= a.x + a.width
            &&& a.y <= c.y
            &&& c.y + c.height <= a.y + a.height
        }),
{
    let ws = ranked_sizes(node);
    if splits_horizontally(a) {
        lemma_cuts(ws, node.size as nat, a.x as nat, a.width as nat);
    } else {
        lemma_cuts(ws, node.size as nat, a.y as nat, a.height as nat);
    }
}

/// Every rectangle of the layout of `node` in `a` lies inside `a`.
pub proof fn lemma_layout_inside(node: DirNode, a: Area, depth: usize)
    requires
        a.x + a.width <= u64::MAX,
        a.y + a.height <= u64::MAX,
    ensures
        forall|i: int|
            0 <= i < layout(node, a, depth).len() ==> inside(#[trigger] layout(node, a, depth)[i], a),
    decreases node, node.children@.len() + 1,
{
    if !(node.children@.len() == 0 || node.size == 0 || a.width == 0 || a.height == 0) {
        lemma_parts_inside(node, a, depth, 0);
        assert(layout(node, a, depth) == layout_parts(node, a, depth, 0));
    } else {
        assert(layout(node, a, depth) == seq![leaf_rect(node, a, depth)]);
        assert(inside(leaf_rect(node, a, depth), a));
    }
}

proof fn lemma_parts_inside(node: DirNode, a: Area, depth: usize, j: int)
    requires
        a.x + a.width <= u64::MAX,
        a.y + a.height <= u64::MAX,
    ensures
        forall|i: int|
            0 <= i < layout_parts(node, a, depth, j).len() ==> inside(
                #[trigger] layout_parts(node, a, depth, j)[i],
                a,
            ),
    decreases node, node.children@.len() - j,
{
    let order = ranked_children(node);
    if !(j < 0 || j >= order.len() || order.len() > node.children@.len()) {
        let c = order[j] as int;
        lemma_parts_inside(node, a, depth, j + 1);
        let rest = layout_parts(node, a, depth, j + 1);
        if 0 <= c < node.children@.len() {
            let area = child_areas(node, a)[j];
            lemma_child_area_inside(node, a, j);
            assert(decreases_to!(node => node.children));
            assert(decreases_to!(node.children => node.children@));
            assert(decreases_to!(node.children@ => node.children@[c]));
            lemma_layout_inside(node.children@[c], area, next_depth(depth));
            let part = layout(node.children@[c], area, next_depth(depth));
            let all = layout_parts(node, a, depth, j);
            assert(all == part + rest);
            assert forall|i: int| 0 <= i < all.len() implies inside(#[trigger] all[i], a) by {
                if i < part.len() {
                    assert(all[i] == part[i]);
                    assert(inside(part[i], area));
                } else {
                    assert(all[i] == rest[i - part.len()]);
                }
            }
        } else {
            assert(layout_parts(node, a, depth, j) =~= rest);
        }
    }
}

/// Every tree of the sequence has its aggregated size in each node, and no
/// file in it has children.
pub open spec fn forest_sound(s: Seq<DirNode>) -> bool
    decreases s,
{
    if s.len() == 0 {
        true
    } else {
        let last = s[s.len() - 1];
        &&& forest_sound(s.drop_last())
        &&& last.size == file_total(last)
        &&& (last.is_file ==> last.children@.len() == 0)
        &&& forest_sound(last.children@)
    }
}

/// The tree has its aggregated size in each node, and no file in it has children.
pub open spec fn sound(n: DirNode) -> bool {
    &&& n.size == file_total(n)
    &&& (n.is_file ==> n.children@.len() == 0)
    &&& forest_sound(n.children@)
}

/// The total area of the rectangles.
pub open spec fn rect_area_sum(rs: Seq<TreemapRect>) -> nat
    decreases rs.len(),
{
    if rs.len() == 0 {
        0
    } else {
        (rs[0].width as nat) * (rs[0].height as nat) + rect_area_sum(rs.drop_first())
    }
}

/// The total area of the areas from the `j`-th on.
pub open spec fn areas_from(cs: Seq<Area>, j: int) -> nat
    decreases cs.len() - j,
{
    if j < 0 || j >= cs.len() {
        0
    } else {
        (cs[j].width as nat) * (cs[j].height as nat) + areas_from(cs, j + 1)
    }
}

proof fn lemma_forest_sound_elem(s: Seq<DirNode>, i: int)
    requires
        forest_sound(s),
        0 <= i < s.len(),
    ensures
        sound(s[i]),
    decreases s.len(),
{
    if i < s.len() - 1 {
        lemma_forest_sound_elem(s.drop_last(), i);
    }
}

proof fn lemma_positive_child(s: Seq<DirNode>)
    requires
        forest_sound(s),
        forest_total(s) > 0,
    ensures
        exists|i: int| 0 <= i < s.len() && #[trigger] s[i].size > 0,
    decreases s.len(),
{
    let k = s.len() - 1;
    if file_total(s[k]) > 0 {
        assert(s[k].size > 0);
    } else {
        lemma_positive_child(s.drop_last());
        let i = choose|i: int| 0 <= i < s.drop_last().len() && #[trigger] s.drop_last()[i].size > 0;
        assert(s[i].size > 0);
    }
}

proof fn lemma_area_sum_concat(p: Seq<TreemapRect>, q: Seq<TreemapRect>)
    ensures
        rect_area_sum(p + q) == rect_area_sum(p) + rect_area_sum(q),
    decreases p.len(),
{
    if p.len() == 0 {
        assert(p + q =~= q);
    } else {
        lemma_area_sum_concat(p.drop_first(), q);
        assert((p + q).drop_first() =~= p.drop_first() + q);
    }
}

proof fn lemma_areas_row(cs: Seq<Area>, a: Area, j: int)
    requires
        0 <= j < cs.len(),
        cs[cs.len() - 1].x + cs[cs.len() - 1].width == a.x + a.width,
        forall|k: int| 0 <= k < cs.len() - 1 ==> #[trigger] cs[k + 1].x == cs[k].x + cs[k].width,
        forall|k: int| 0 <= k < cs.len() ==> #[trigger] cs[k].height == a.height,
    ensures
        areas_from(cs, j) == (a.height as nat) * ((a.x + a.width - cs[j].x) as nat),
        cs[j].x <= a.x + a.width,
    decreases cs.len() - j,
{
    let h = a.height as int;
    let w = cs[j].width as int;
    let e = (a.x + a.width) as int;
    let x0 = cs[j].x as int;
    assert(cs[j].height == a.height);
    let here = (cs[j].width as nat) * (cs[j].height as nat);
    assert(areas_from(cs, j) == here + areas_from(cs, j + 1));
    if j < cs.len() - 1 {
        lemma_areas_row(cs, a, j + 1);
        assert(cs[j + 1].x == cs[j].x + cs[j].width);
        let x1 = cs[j + 1].x as int;
        let rest = areas_from(cs, j + 1) as int;
        assert(here as int + rest == h * (e - x0)) by (nonlinear_arith)
            requires
                x1 == x0 + w,
                here as int == w * h,
                rest == h * (e - x1),
        ;
    } else {
        assert(areas_from(cs, j + 1) == 0);
        assert(here as int == h * (e - x0)) by (nonlinear_arith)
            requires
                e == x0 + w,
                here as int == w * h,
        ;
    }
}

proof fn lemma_areas_column(cs: Seq<Area>, a: Area, j: int)
    requires
        0 <= j < cs.len(),
        cs[cs.len() - 1].y + cs[cs.len() - 1].height == a.y + a.height,
        forall|k: int| 0 <= k < cs.len() - 1 ==> #[trigger] cs[k + 1].y == cs[k].y + cs[k].height,
        forall|k: int| 0 <= k < cs.len() ==> #[trigger] cs[k].width == a.width,
    ensures
        areas_from(cs, j) == (a.width as nat) * ((a.y + a.height - cs[j].y) as nat),
        cs[j].y <= a.y + a.height,
    decreases cs.len() - j,
{
    let w = a.width as int;
    let h = cs[j].height as int;
    let e = (a.y + a.height) as int;
    let y0 = cs[j].y as int;
    assert(cs[j].width == a.width);
    let here = (cs[j].width as nat) * (cs[j].height as nat);
    assert(areas_from(cs, j) == here + areas_from(cs, j + 1));
    if j < cs.len() - 1 {
        lemma_areas_column(cs, a, j + 1);
        assert(cs[j + 1].y == cs[j].y + cs[j].height);
        let y1 = cs[j + 1].y as int;
        let rest = areas_from(cs, j + 1) as int;
        assert(here as int + rest == w * (e - y0)) by (nonlinear_arith)
            requires
                y1 == y0 + h,
                here as int == w * h,
                rest == w * (e - y1),
        ;
    } else {
        assert(areas_from(cs, j + 1) == 0);
        assert(here as int == w * (e - y0)) by (nonlinear_arith)
            requires
                e == y0 + h,
                here as int == w * h,
        ;
    }
}

/// For a tree whose nodes carry their aggregated sizes and whose files have
/// no children, the areas of the rectangles of the layout add up to the area
/// of the container they are laid out in.
pub proof fn lemma_layout_covers(node: DirNode, a: Area, depth: usize)
    requires
        sound(node),
        a.x + a.width <= u64::MAX,
        a.y + a.height <= u64::MAX,
    ensures
        rect_area_sum(layout(node, a, depth)) == (a.width as nat) * (a.height as nat),
    decreases node, node.children@.len() + 1,
{
    if !(node.children@.len() == 0 || node.size == 0 || a.width == 0 || a.height == 0) {
        assert(!node.is_file);
        lemma_positive_child(node.children@);
        lemma_children_tile(node, a);
        lemma_parts_covers(node, a, depth, 0);
        assert(layout(node, a, depth) == layout_parts(node, a, depth, 0));
        let cs = child_areas(node, a);
        if splits_horizontally(a) {
            lemma_areas_row(cs, a, 0);
            assert(cs[0].x == a.x);
            assert(areas_from(cs, 0) == (a.height as nat) * (a.width as nat));
        } else {
            lemma_areas_column(cs, a, 0);
            assert(cs[0].y == a.y);
            assert(areas_from(cs, 0) == (a.width as nat) * (a.height as nat));
        }
        assert((a.height as nat) * (a.width as nat) == (a.width as nat) * (a.height as nat))
            by (nonlinear_arith);
    } else {
        let l = layout(node, a, depth);
        assert(l == seq![leaf_rect(node, a, depth)]);
        assert(l.drop_first() =~= Seq::<TreemapRect>::empty());
        assert(rect_area_sum(l.drop_first()) == 0);
        assert(rect_area_sum(l) == (l[0].width as nat) * (l[0].height as nat) + rect_area_sum(
            l.drop_first(),
        ));
    }
}

proof fn lemma_parts_covers(node: DirNode, a: Area, depth: usize, j: int)
    requires
        sound(node),
        a.x + a.width <= u64::MAX,
        a.y + a.height <= u64::MAX,
        0 <= j,
    ensures
        rect_area_sum(layout_parts(node, a, depth, j)) == areas_from(child_areas(node, a), j),
    decreases node, node.children@.len() - j,
{
    let order = ranked_children(node);
    let cs = child_areas(node, a);
    lemma_ranked_upto_bounds(child_sizes(node), child_sizes(node).len() as int);
    lemma_cuts(ranked_sizes(node), node.size as nat, a.x as nat, a.width as nat);
    lemma_cuts(ranked_sizes(node), node.size as nat, a.y as nat, a.height as nat);
    assert(cs.len() == order.len());
    if j >= order.len() {
        assert(layout_parts(node, a, depth, j) =~= Seq::<TreemapRect>::empty());
    } else {
        let c = order[j] as int;
        lemma_parts_covers(node, a, depth, j + 1);
        let rest = layout_parts(node, a, depth, j + 1);
        let area = cs[j];
        lemma_child_area_inside(node, a, j);
        lemma_forest_sound_elem(node.children@, c);
        assert(decreases_to!(node => node.children));
        assert(decreases_to!(node.children => node.children@));
        assert(decreases_to!(node.children@ => node.children@[c]));
        lemma_layout_covers(node.children@[c], area, next_depth(depth));
        let part = layout(node.children@[c], area, next_depth(depth));
        assert(layout_parts(node, a, depth, j) == part + rest);
        lemma_area_sum_concat(part, rest);
    }
}

/// The interiors of `r` and `q` do not meet.
pub open spec fn disjoint(r: TreemapRect, q: TreemapRect) -> bool {
    ||| r.x + r.width <= q.x
    ||| q.x + q.width <= r.x
    ||| r.y + r.height <= q.y
    ||| q.y + q.height <= r.y
}

/// No two of the rectangles overlap.
pub open spec fn pairwise_disjoint(rs: Seq<TreemapRect>) -> bool {
    forall|i: int, j: int| 0 <= i < j < rs.len() ==> disjoint(#[trigger] rs[i], #[trigger] rs[j])
}

proof fn lemma_areas_adjacent(node: DirNode, a: Area)
    requires
        a.x + a.width <= u64::MAX,
        a.y + a.height <= u64::MAX,
    ensures
        ({
            let cs = child_areas(node, a);
            &&& cs.len() == ranked_children(node).len()
            &&& splits_horizontally(a) ==> forall|k: int|
                0 <= k < cs.len() - 1 ==> #[trigger] cs[k + 1].x == cs[k].x + cs[k].width
            &&& !splits_horizontally(a) ==> forall|k: int|
                0 <= k < cs.len() - 1 ==> #[trigger] cs[k + 1].y == cs[k].y + cs[k].height
        }),
{
    let ws = ranked_sizes(node);
    let cs = child_areas(node, a);
    if splits_horizontally(a) {
        let c = cuts(ws, node.size as nat, a.x as nat, a.width as nat);
        lemma_cuts(ws, node.size as nat, a.x as nat, a.width as nat);
        assert forall|k: int| 0 <= k < cs.len() - 1 implies #[trigger] cs[k + 1].x == cs[k].x
            + cs[k].width by {
            assert(c[k + 1].0 == c[k].0 + c[k].1);
            assert(c[k].0 + c[k].1 <= a.x + a.width);
            assert(c[k + 1].0 + c[k + 1].1 <= a.x + a.width);
        }
    } else {
        let c = cuts(ws, node.size as nat, a.y as nat, a.height as nat);
        lemma_cuts(ws, node.size as nat, a.y as nat, a.height as nat);
        assert forall|k: int| 0 <= k < cs.len() - 1 implies #[trigger] cs[k + 1].y == cs[k].y
            + cs[k].height by {
            assert(c[k + 1].0 == c[k].0 + c[k].1);
            assert(c[k].0 + c[k].1 <= a.y + a.height);
            assert(c[k + 1].0 + c[k + 1].1 <= a.y + a.height);
        }
    }
}

/// The rectangles of the children from the `j`-th on start no earlier, along
/// the split axis, than the `j`-th child's area.
proof fn lemma_parts_strip(node: DirNode, a: Area, depth: usize, j: int)
    requires
        a.x + a.width <= u64::MAX,
        a.y + a.height <= u64::MAX,
        0 <= j < ranked_children(node).len(),
    ensures
        forall|i: int|
            0 <= i < layout_parts(node, a, depth, j).len() ==> {
                let r = #[trigger] layout_parts(node, a, depth, j)[i];
                &&& splits_horizontally(a) ==> child_areas(node, a)[j].x <= r.x
                &&& !splits_horizontally(a) ==> child_areas(node, a)[j].y <= r.y
            },
    decreases node.children@.len() - j,
{
    let order = ranked_children(node);
    let cs = child_areas(node, a);
    lemma_ranked_upto_bounds(child_sizes(node), child_sizes(node).len() as int);
    lemma_areas_adjacent(node, a);
    let c = order[j] as int;
    let part = layout(node.children@[c], cs[j], next_depth(depth));
    let rest = layout_parts(node, a, depth, j + 1);
    let all = layout_parts(node, a, depth, j);
    assert(all == part + rest);
    lemma_child_area_inside(node, a, j);
    lemma_layout_inside(node.children@[c], cs[j], next_depth(depth));
    if j + 1 < order.len() {
        lemma_parts_strip(node, a, depth, j + 1);
    } else {
        assert(rest =~= Seq::<TreemapRect>::empty());
    }
    assert forall|i: int| 0 <= i < all.len() implies {
        let r = #[trigger] all[i];
        &&& splits_horizontally(a) ==> cs[j].x <= r.x
        &&& !splits_horizontally(a) ==> cs[j].y <= r.y
    } by {
        if i < part.len() {
            assert(all[i] == part[i]);
            assert(inside(part[i], cs[j]));
        } else {
            assert(all[i] == rest[i - part.len()]);
        }
    }
}

/// No two rectangles of the layout of `node` in `a` overlap.
pub proof fn lemma_layout_disjoint(node: DirNode, a: Area, depth: usize)
    requires
        a.x + a.width <= u64::MAX,
        a.y + a.height <= u64::MAX,
    ensures
        pairwise_disjoint(layout(node, a, depth)),
    decreases node, node.children@.len() + 1,
{
    if !(node.children@.len() == 0 || node.size == 0 || a.width == 0 || a.height == 0) {
        lemma_parts_disjoint(node, a, depth, 0);
        assert(layout(node, a, depth) == layout_parts(node, a, depth, 0));
    } else {
        assert(layout(node, a, depth) == seq![leaf_rect(node, a, depth)]);
    }
}

proof fn lemma_parts_disjoint(node: DirNode, a: Area, depth: usize, j: int)
    requires
        a.x + a.width <= u64::MAX,
        a.y + a.height <= u64::MAX,
        0 <= j,
    ensures
        pairwise_disjoint(layout_parts(node, a, depth, j)),
    decreases node, node.children@.len() - j,
{
    let order = ranked_children(node);
    let cs = child_areas(node, a);
    lemma_ranked_upto_bounds(child_sizes(node), child_sizes(node).len() as int);
    if j >= order.len() {
        assert(layout_parts(node, a, depth, j) =~= Seq::<TreemapRect>::empty());
    } else {
        let c = order[j] as int;
        lemma_areas_adjacent(node, a);
        lemma_child_area_inside(node, a, j);
        assert(decreases_to!(node => node.children));
        assert(decreases_to!(node.children => node.children@));
        assert(decreases_to!(node.children@ => node.children@[c]));
        lemma_layout_disjoint(node.children@[c], cs[j], next_depth(depth));
        lemma_layout_inside(node.children@[c], cs[j], next_depth(depth));
        lemma_parts_disjoint(node, a, depth, j + 1);
        let part = layout(node.children@[c], cs[j], next_depth(depth));
        let rest = layout_parts(node, a, depth, j + 1);
        let all = layout_parts(node, a, depth, j);
        assert(all == part + rest);
        if j + 1 < order.len() {
            lemma_parts_strip(node, a, depth, j + 1);
        } else {
            assert(rest =~= Seq::<TreemapRect>::empty());
        }
        assert forall|p: int, q: int| 0 <= p < q < all.len() implies disjoint(
            #[trigger] all[p],
            #[trigger] all[q],
        ) by {
            if q < part.len() {
                assert(all[p] == part[p] && all[q] == part[q]);
            } else if p >= part.len() {
                assert(all[p] == rest[p - part.len()] && all[q] == rest[q - part.len()]);
            } else {
                assert(all[p] == part[p]);
                assert(all[q] == rest[q - part.len()]);
                assert(inside(part[p], cs[j]));
            }
        }
    }
}

/// The layout is a function of the tree, the area and the depth: the same
/// input gives the same rectangles, in the same order, on every run.
pub proof fn lemma_layout_deterministic(
    n1: DirNode,
    n2: DirNode,
    a1: Area,
    a2: Area,
    d1: usize,
    d2: usize,
)
    requires
        n1 == n2,
        a1 == a2,
        d1 == d2,
    ensures
        layout(n1, a1, d1) == layout(n2, a2, d2),
{
}

} // verus!
