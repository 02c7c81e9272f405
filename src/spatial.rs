//! The spatial index over resolved boxes: hit testing, area queries, group
//! bounds, drag containment and snapping.
use vstd::prelude::*;
use vstd::multiset::Multiset;
use rstar::primitives::{GeomWithData, Rectangle};
use rstar::{RTree, AABB};
use crate::value::{owned, str_eq};

verus! {

/// The largest magnitude a coordinate in the index may have (2^28): the
/// r-tree computes areas, overlaps and squared distances of boxes in `i64`,
/// and sums them over the children of a node, which must not overflow.
pub const COORD_LIMIT: i64 = 268_435_456;

/// An r-tree of boxes, each carrying the index of its entry.
#[verifier::external_body]
pub struct BoxTree {
    tree: RTree<GeomWithData<Rectangle<[i64; 2]>, usize>>,
}

/// What a box tree holds: (min x, min y, max x, max y, entry index).
pub uninterp spec fn tree_items(t: BoxTree) -> Multiset<(i64, i64, i64, i64, usize)>;

/// Relies on `RTree::new`: a new tree is empty.
#[verifier::external_body]
fn tree_new() -> (r: BoxTree)
    ensures
        tree_items(r) == Multiset::<(i64, i64, i64, i64, usize)>::empty(),
{
    BoxTree { tree: RTree::new() }
}

/// Relies on `RTree::insert`: the box is held once more, whatever was there.
/// Insertion does arithmetic on the coordinates, so they are kept small.
#[verifier::external_body]
fn tree_insert(t: &mut BoxTree, min_x: i64, min_y: i64, max_x: i64, max_y: i64, data: usize)
    requires
        -COORD_LIMIT <= min_x <= max_x <= COORD_LIMIT,
        -COORD_LIMIT <= min_y <= max_y <= COORD_LIMIT,
    ensures
        tree_items(*final(t)) == tree_items(*old(t)).insert((min_x, min_y, max_x, max_y, data)),
{
    t.tree.insert(GeomWithData::new(Rectangle::from_corners([min_x, min_y], [max_x, max_y]), data));
}

/// Relies on `RTree::remove`: one box equal to the given one goes, if any is held.
#[verifier::external_body]
fn tree_remove(t: &mut BoxTree, min_x: i64, min_y: i64, max_x: i64, max_y: i64, data: usize) -> (r:
    bool)
    requires
        min_x <= max_x,
        min_y <= max_y,
    ensures
        r == tree_items(*old(t)).contains((min_x, min_y, max_x, max_y, data)),
        tree_items(*final(t)) == tree_items(*old(t)).remove((min_x, min_y, max_x, max_y, data)),
{
    let item = GeomWithData::new(Rectangle::from_corners([min_x, min_y], [max_x, max_y]), data);
    t.tree.remove(&item).is_some()
}

/// Two closed boxes share at least one point.
pub open spec fn boxes_meet(a: (i64, i64, i64, i64), b: (i64, i64, i64, i64)) -> bool {
    a.0 <= b.2 && a.2 >= b.0 && a.1 <= b.3 && a.3 >= b.1
}

/// The rectangle at (x, y) with the given size, as corners.
pub open spec fn area_rect(x: i64, y: i64, width: i64, height: i64) -> (i64, i64, i64, i64) {
    (x, y, (x + width) as i64, (y + height) as i64)
}

/// A tracked box meets the query rectangle.
pub open spec fn box_meets(b: BoxModel, q: (i64, i64, i64, i64)) -> bool {
    boxes_meet((b.1, b.2, b.3, b.4), q)
}

/// Some tracked box with this id meets the query rectangle.
pub open spec fn tracked_meeting(boxes: Seq<BoxModel>, id: Seq<char>, q: (i64, i64, i64, i64)) -> bool {
    exists|i: int| 0 <= i < boxes.len() && #[trigger] boxes[i].0 == id && box_meets(boxes[i], q)
}

/// Box `i` contains the point and no other box containing it is smaller; among
/// boxes of equal area the one inserted last wins.
pub open spec fn hit_winner(boxes: Seq<BoxModel>, x: int, y: int, i: int) -> bool {
    &&& 0 <= i < boxes.len()
    &&& box_contains(boxes[i], x, y)
    &&& forall|j: int|
        0 <= j < boxes.len() && box_contains(#[trigger] boxes[j], x, y) ==> box_area(boxes[i])
            < box_area(boxes[j]) || (box_area(boxes[i]) == box_area(boxes[j]) && j <= i)
}

/// What a hit test at (x, y) may answer: nothing when no box contains the
/// point, else the id of a winning box.
pub open spec fn hit_result(boxes: Seq<BoxModel>, x: int, y: int, r: Option<Seq<char>>) -> bool {
    &&& (r is None <==> forall|i: int| 0 <= i < boxes.len() ==> !box_contains(#[trigger] boxes[i], x, y))
    &&& (r matches Some(id) ==> exists|i: int| hit_winner(boxes, x, y, i) && #[trigger] boxes[i].0 == id)
}

/// `v` limited to `[lo, hi]`, the upper limit applied last.
pub open spec fn clamp(v: int, lo: int, hi: int) -> int {
    let a = if v > lo {
        v
    } else {
        lo
    };
    if a < hi {
        a
    } else {
        hi
    }
}

/// Where a drag of box `e` toward (tx, ty) ends inside box `p`.
pub open spec fn drag_target(e: BoxModel, p: BoxModel, tx: int, ty: int) -> (int, int) {
    (clamp(tx, p.1 as int, p.3 - (e.3 - e.1)), clamp(ty, p.2 as int, p.4 - (e.4 - e.2)))
}

/// Box `i` is tracked under one of `ids`.
pub open spec fn in_group(boxes: Seq<BoxModel>, ids: Seq<Seq<char>>, i: int) -> bool {
    0 <= i < boxes.len() && ids.contains(boxes[i].0)
}

/// `g` (min x, min y, max x, max y) is the tight bounding box of the group.
pub open spec fn group_ok(boxes: Seq<BoxModel>, ids: Seq<Seq<char>>, g: (i64, i64, i64, i64)) -> bool {
    &&& -COORD_LIMIT <= g.0 <= g.2 <= COORD_LIMIT
    &&& -COORD_LIMIT <= g.1 <= g.3 <= COORD_LIMIT
    &&& exists|i: int| #[trigger] in_group(boxes, ids, i) && boxes[i].1 == g.0
    &&& exists|i: int| #[trigger] in_group(boxes, ids, i) && boxes[i].2 == g.1
    &&& exists|i: int| #[trigger] in_group(boxes, ids, i) && boxes[i].3 == g.2
    &&& exists|i: int| #[trigger] in_group(boxes, ids, i) && boxes[i].4 == g.3
    &&& forall|i: int|
        #[trigger] in_group(boxes, ids, i) ==> g.0 <= boxes[i].1 && boxes[i].3 <= g.2 && g.1
            <= boxes[i].2 && boxes[i].4 <= g.3
}

proof fn lemma_group_same(boxes: Seq<BoxModel>, prev: Seq<Seq<char>>, next: Seq<Seq<char>>)
    requires
        forall|i: int| #[trigger] in_group(boxes, next, i) == in_group(boxes, prev, i),
    ensures
        forall|g: (i64, i64, i64, i64)| group_ok(boxes, prev, g) ==> #[trigger] group_ok(boxes, next, g),
        (forall|i: int| !#[trigger] in_group(boxes, prev, i)) ==> (forall|i: int| !#[trigger] in_group(boxes, next, i)),
        (forall|i: int| !#[trigger] in_group(boxes, next, i)) ==> (forall|i: int| !#[trigger] in_group(boxes, prev, i)),
{
    assert forall|g: (i64, i64, i64, i64)| group_ok(boxes, prev, g) implies #[trigger] group_ok(boxes, next, g) by {
        let a = choose|i: int| #[trigger] in_group(boxes, prev, i) && boxes[i].1 == g.0;
        let b = choose|i: int| #[trigger] in_group(boxes, prev, i) && boxes[i].2 == g.1;
        let c = choose|i: int| #[trigger] in_group(boxes, prev, i) && boxes[i].3 == g.2;
        let d = choose|i: int| #[trigger] in_group(boxes, prev, i) && boxes[i].4 == g.3;
        assert(in_group(boxes, next, a) && in_group(boxes, next, b) && in_group(boxes, next, c)
            && in_group(boxes, next, d));
        assert forall|i: int| #[trigger] in_group(boxes, next, i) implies g.0 <= boxes[i].1 && boxes[i].3 <= g.2 && g.1
            <= boxes[i].2 && boxes[i].4 <= g.3 by {
            assert(in_group(boxes, prev, i));
        }
    }
    if forall|i: int| !#[trigger] in_group(boxes, prev, i) {
        assert forall|i: int| !#[trigger] in_group(boxes, next, i) by {
            assert(!in_group(boxes, prev, i));
        }
    }
    if forall|i: int| !#[trigger] in_group(boxes, next, i) {
        assert forall|i: int| !#[trigger] in_group(boxes, prev, i) by {
            assert(!in_group(boxes, next, i));
        }
    }
}

proof fn lemma_group_extend(
    boxes: Seq<BoxModel>,
    prev: Seq<Seq<char>>,
    next: Seq<Seq<char>>,
    acc: Option<(i64, i64, i64, i64)>,
    i: int,
)
    requires
        0 <= i < boxes.len(),
        -COORD_LIMIT <= boxes[i].1 <= boxes[i].3 <= COORD_LIMIT,
        -COORD_LIMIT <= boxes[i].2 <= boxes[i].4 <= COORD_LIMIT,
        forall|w: Seq<char>| #[trigger] next.contains(w) == (prev.contains(w) || w == boxes[i].0),
        forall|j: int| 0 <= j < boxes.len() && #[trigger] boxes[j].0 == boxes[i].0 ==> j == i,
        acc is None <==> forall|j: int| !#[trigger] in_group(boxes, prev, j),
        acc matches Some(g) ==> group_ok(boxes, prev, g),
    ensures
        !(forall|j: int| !#[trigger] in_group(boxes, next, j)),
        group_ok(
            boxes,
            next,
            match acc {
                None => (boxes[i].1, boxes[i].2, boxes[i].3, boxes[i].4),
                Some(g) => (
                    if boxes[i].1 < g.0 { boxes[i].1 } else { g.0 },
                    if boxes[i].2 < g.1 { boxes[i].2 } else { g.1 },
                    if boxes[i].3 > g.2 { boxes[i].3 } else { g.2 },
                    if boxes[i].4 > g.3 { boxes[i].4 } else { g.3 },
                ),
            },
        ),
{
    assert(in_group(boxes, next, i));
    assert forall|j: int| #[trigger] in_group(boxes, next, j) implies in_group(boxes, prev, j) || boxes[j].0 == boxes[i].0 by {}
    assert forall|j: int| #[trigger] in_group(boxes, prev, j) implies in_group(boxes, next, j) by {}
    assert forall|j: int| #[trigger] in_group(boxes, next, j) && !in_group(boxes, prev, j) implies j == i by {
        assert(boxes[j].0 == boxes[i].0);
    }
    match acc {
        None => {},
        Some(g) => {
            let a = choose|j: int| #[trigger] in_group(boxes, prev, j) && boxes[j].1 == g.0;
            let b = choose|j: int| #[trigger] in_group(boxes, prev, j) && boxes[j].2 == g.1;
            let c = choose|j: int| #[trigger] in_group(boxes, prev, j) && boxes[j].3 == g.2;
            let d = choose|j: int| #[trigger] in_group(boxes, prev, j) && boxes[j].4 == g.3;
            assert(in_group(boxes, next, a) && in_group(boxes, next, b) && in_group(boxes, next, c)
                && in_group(boxes, next, d));
        },
    }
}

pub open spec fn abs(v: int) -> int {
    if v < 0 {
        -v
    } else {
        v
    }
}

/// The low edge of a box along an axis (x when `horizontal`, else y).
pub open spec fn lo_of(b: BoxModel, horizontal: bool) -> int {
    if horizontal {
        b.1 as int
    } else {
        b.2 as int
    }
}

/// The high edge of a box along an axis.
pub open spec fn hi_of(b: BoxModel, horizontal: bool) -> int {
    if horizontal {
        b.3 as int
    } else {
        b.4 as int
    }
}

/// Alignment candidate `kind` of a moving span [lo, lo + size] against another
/// span [olo, ohi]: twice the distance to close, the snapped start, and the
/// aligned coordinate. Kinds: low-low, low-high, high-high, high-low, centres.
pub open spec fn candidate(kind: int, lo: int, size: int, olo: int, ohi: int) -> (int, int, int) {
    if kind == 0 {
        (2 * abs(lo - olo), olo, olo)
    } else if kind == 1 {
        (2 * abs(lo - ohi), ohi, ohi)
    } else if kind == 2 {
        (2 * abs(lo + size - ohi), ohi - size, ohi)
    } else if kind == 3 {
        (2 * abs(lo + size - olo), olo - size, olo)
    } else {
        (abs(2 * lo + size - (olo + ohi)), (olo + ohi - size) / 2, (olo + ohi) / 2)
    }
}

/// Candidate `kind` against box `j` is one to consider: another element's box.
pub open spec fn eligible(boxes: Seq<BoxModel>, id: Seq<char>, j: int, kind: int) -> bool {
    0 <= j < boxes.len() && boxes[j].0 != id && 0 <= kind < 5
}

pub open spec fn cand_of(
    boxes: Seq<BoxModel>,
    horizontal: bool,
    lo: int,
    size: int,
    j: int,
    kind: int,
) -> (int, int, int) {
    candidate(kind, lo, size, lo_of(boxes[j], horizontal), hi_of(boxes[j], horizontal))
}

/// The snapping outcome on one axis: none when every candidate is farther than
/// `t2` (twice the threshold); else the start and aligned coordinate of a
/// nearest candidate.
pub open spec fn snap_ok(
    boxes: Seq<BoxModel>,
    id: Seq<char>,
    horizontal: bool,
    lo: int,
    size: int,
    t2: int,
    res: Option<(i64, i64)>,
) -> bool {
    &&& (res is None <==> forall|j: int, kind: int|
        eligible(boxes, id, j, kind) ==> #[trigger] cand_of(boxes, horizontal, lo, size, j, kind).0 > t2)
    &&& (res matches Some(p) ==> exists|j: int, kind: int|
        eligible(boxes, id, j, kind) && #[trigger] cand_of(boxes, horizontal, lo, size, j, kind).0 <= t2
            && cand_of(boxes, horizontal, lo, size, j, kind).1 == p.0 && cand_of(boxes, horizontal, lo, size, j, kind).2
            == p.1 && forall|j2: int, k2: int|
            eligible(boxes, id, j2, k2) ==> cand_of(boxes, horizontal, lo, size, j, kind).0
                <= #[trigger] cand_of(boxes, horizontal, lo, size, j2, k2).0)
}

fn floor_half(v: i64) -> (r: i64)
    requires
        -4 * COORD_LIMIT <= v <= 4 * COORD_LIMIT,
    ensures
        r == v as int / 2,
{
    if v >= 0 {
        v / 2
    } else {
        -((-v + 1) / 2)
    }
}

fn abs_i64(v: i64) -> (r: i64)
    requires
        -8 * COORD_LIMIT <= v <= 8 * COORD_LIMIT,
    ensures
        r == abs(v as int),
{
    if v < 0 {
        -v
    } else {
        v
    }
}

fn candidate_exec(kind: usize, lo: i64, size: i64, olo: i64, ohi: i64) -> (r: (i64, i64, i64))
    requires
        kind < 5,
        -COORD_LIMIT <= lo <= COORD_LIMIT,
        0 <= size <= COORD_LIMIT,
        -COORD_LIMIT <= olo <= ohi <= COORD_LIMIT,
    ensures
        (r.0 as int, r.1 as int, r.2 as int) == candidate(kind as int, lo as int, size as int, olo as int, ohi as int),
{
    if kind == 0 {
        (2 * abs_i64(lo - olo), olo, olo)
    } else if kind == 1 {
        (2 * abs_i64(lo - ohi), ohi, ohi)
    } else if kind == 2 {
        (2 * abs_i64(lo + size - ohi), ohi - size, ohi)
    } else if kind == 3 {
        (2 * abs_i64(lo + size - olo), olo - size, olo)
    } else {
        (abs_i64(2 * lo + size - (olo + ohi)), floor_half(olo + ohi - size), floor_half(olo + ohi))
    }
}

/// A snapping guide line.
#[derive(Debug)]
pub struct SnapGuide {
    /// "vertical" for a line at an x coordinate, "horizontal" for a y coordinate.
    pub orientation: String,
    pub value: i64,
    pub label: String,
}

/// The snapped position and the guides to draw.
#[derive(Debug)]
pub struct SnapResult {
    pub x: i64,
    pub y: i64,
    pub guides: Vec<SnapGuide>,
}

/// The guides of a snap outcome: a vertical one at the aligned x, then a
/// horizontal one at the aligned y, each when that axis snapped.
pub open spec fn guides_of(sx: Option<(i64, i64)>, sy: Option<(i64, i64)>) -> Seq<(Seq<char>, i64)> {
    let gx = match sx {
        Some(p) => seq![("vertical"@, p.1)],
        None => Seq::empty(),
    };
    let gy = match sy {
        Some(p) => seq![("horizontal"@, p.1)],
        None => Seq::empty(),
    };
    gx + gy
}

/// `r` is the outcome of snapping the box (x, y, w, h) of `id` against `boxes`.
pub open spec fn snap_result_ok(
    boxes: Seq<BoxModel>,
    id: Seq<char>,
    x: int,
    y: int,
    w: int,
    h: int,
    threshold: int,
    r: SnapResult,
) -> bool {
    exists|sx: Option<(i64, i64)>, sy: Option<(i64, i64)>|
        #[trigger] snap_ok(boxes, id, true, x, w, 2 * threshold, sx) && #[trigger] snap_ok(
            boxes,
            id,
            false,
            y,
            h,
            2 * threshold,
            sy,
        ) && r.x == (match sx {
            Some(p) => p.0 as int,
            None => x,
        }) && r.y == (match sy {
            Some(p) => p.0 as int,
            None => y,
        }) && r.guides@.map_values(|g: SnapGuide| (g.orientation@, g.value)) == guides_of(sx, sy)
}

/// The largest drift, in units, not flagged.
pub const DRIFT_TOLERANCE: i64 = 2;

/// One box of a reference layout.
#[derive(Debug)]
pub struct LayoutSnapshot {
    pub id: String,
    pub x: i64,
    pub y: i64,
    pub width: i64,
    pub height: i64,
}

/// The drift between two boxes, the Euclidean distance of their top-left
/// corners plus the differences of width and height, exceeds the tolerance.
/// With `s = |dw| + |dh|` that is `s > T`, or `dx^2 + dy^2 > (T - s)^2`.
pub open spec fn drift_exceeds(dx: int, dy: int, dw: int, dh: int) -> bool {
    let s = abs(dw) + abs(dh);
    s > DRIFT_TOLERANCE || dx * dx + dy * dy > (DRIFT_TOLERANCE - s) * (DRIFT_TOLERANCE - s)
}

/// The reference ids, in order, whose tracked box drifts beyond the tolerance.
pub open spec fn flagged(index: SpatialIndex, reference: Seq<LayoutSnapshot>) -> Seq<Seq<char>>
    decreases reference.len(),
{
    if reference.len() == 0 {
        Seq::empty()
    } else {
        let prev = flagged(index, reference.drop_last());
        let r = reference.last();
        match index.index_of(r.id@) {
            Some(i) => {
                let b = index.boxes()[i];
                if drift_exceeds(b.1 - r.x, b.2 - r.y, (b.3 - b.1) - r.width, (b.4 - b.2) - r.height) {
                    prev.push(r.id@)
                } else {
                    prev
                }
            },
            None => prev,
        }
    }
}

/// Box `t` is tracked under `id` and meets `q`.
pub open spec fn listed_hit(boxes: Seq<BoxModel>, t: usize, id: Seq<char>, q: (i64, i64, i64, i64)) -> bool {
    t < boxes.len() && boxes[t as int].0 == id && box_meets(boxes[t as int], q)
}

/// Whether `v` holds `x`.
fn holds_index(v: &Vec<usize>, x: usize) -> (r: bool)
    ensures
        r == v@.contains(x),
{
    let mut q: usize = 0;
    while q < v.len()
        invariant
            q <= v@.len(),
            forall|w: int| 0 <= w < q ==> v@[w] != x,
        decreases v@.len() - q,
    {
        if v[q] == x {
            return true;
        }
        q = q + 1;
    }
    false
}

/// Some held box with entry index `v` meets `q`.
pub open spec fn held_meeting(
    items: Multiset<(i64, i64, i64, i64, usize)>,
    v: usize,
    q: (i64, i64, i64, i64),
) -> bool {
    exists|it: (i64, i64, i64, i64, usize)|
        #[trigger] items.contains(it) && it.4 == v && boxes_meet((it.0, it.1, it.2, it.3), q)
}

/// Relies on `RTree::locate_in_envelope_intersecting`: the entry index of every
/// held box that meets the query box, and of no other, in no stated order.
#[verifier::external_body]
fn tree_locate(t: &BoxTree, min_x: i64, min_y: i64, max_x: i64, max_y: i64) -> (r: Vec<usize>)
    requires
        min_x <= max_x,
        min_y <= max_y,
    ensures
        forall|k: int|
            0 <= k < r@.len() ==> held_meeting(tree_items(*t), #[trigger] r@[k], (min_x, min_y, max_x, max_y)),
        forall|it: (i64, i64, i64, i64, usize)|
            #[trigger] tree_items(*t).contains(it) && boxes_meet(
                (it.0, it.1, it.2, it.3),
                (min_x, min_y, max_x, max_y),
            ) ==> r@.contains(it.4),
{
    let query = AABB::from_corners([min_x, min_y], [max_x, max_y]);
    t.tree.locate_in_envelope_intersecting(&query).map(|g| g.data).collect()
}

/// The bounding box of one element, in root-relative units.
#[derive(Debug)]
pub struct ElementBounds {
    pub id: String,
    pub min_x: i64,
    pub min_y: i64,
    pub max_x: i64,
    pub max_y: i64,
}

/// The model of a tracked box: (id, min x, min y, max x, max y).
pub type BoxModel = (Seq<char>, i64, i64, i64, i64);

pub open spec fn box_contains(b: BoxModel, x: int, y: int) -> bool {
    b.1 <= x <= b.3 && b.2 <= y <= b.4
}

pub open spec fn box_area(b: BoxModel) -> int {
    (b.3 - b.1) * (b.4 - b.2)
}

impl ElementBounds {
    pub open spec fn model(&self) -> BoxModel {
        (self.id@, self.min_x, self.min_y, self.max_x, self.max_y)
    }

    pub open spec fn rect(&self) -> (i64, i64, i64, i64) {
        (self.min_x, self.min_y, self.max_x, self.max_y)
    }

    pub open spec fn item(&self, i: usize) -> (i64, i64, i64, i64, usize) {
        (self.min_x, self.min_y, self.max_x, self.max_y, i)
    }

    pub open spec fn sane(&self) -> bool {
        &&& -COORD_LIMIT <= self.min_x <= self.max_x <= COORD_LIMIT
        &&& -COORD_LIMIT <= self.min_y <= self.max_y <= COORD_LIMIT
    }

    pub open spec fn area(&self) -> int {
        (self.max_x - self.min_x) * (self.max_y - self.min_y)
    }

    pub open spec fn contains_point(&self, x: int, y: int) -> bool {
        self.min_x <= x <= self.max_x && self.min_y <= y <= self.max_y
    }

    pub fn duplicate(&self) -> (r: ElementBounds)
        ensures
            r.id@ == self.id@,
            r.rect() == self.rect(),
    {
        ElementBounds {
            id: self.id.clone(),
            min_x: self.min_x,
            min_y: self.min_y,
            max_x: self.max_x,
            max_y: self.max_y,
        }
    }
}

/// One box per tracked element, kept in an r-tree for area queries.
pub struct SpatialIndex {
    entries: Vec<ElementBounds>,
    tree: BoxTree,
}

impl SpatialIndex {
    /// The tracked boxes as (id, min x, min y, max x, max y), in the order
    /// first inserted.
    pub closed spec fn boxes(&self) -> Seq<BoxModel> {
        self.entries@.map_values(|e: ElementBounds| e.model())
    }

    pub closed spec fn wf(&self) -> bool {
        &&& forall|i: int, j: int|
            0 <= i < j < self.entries@.len() ==> self.entries@[i].id@ != self.entries@[j].id@
        &&& forall|i: int| 0 <= i < self.entries@.len() ==> (#[trigger] self.entries@[i]).sane()
        &&& forall|it: (i64, i64, i64, i64, usize)| #[trigger]
            tree_items(self.tree).count(it) == if it.4 < self.entries@.len() && it
                == self.entries@[it.4 as int].item(it.4) {
                1nat
            } else {
                0nat
            }
    }

    pub fn new() -> (r: SpatialIndex)
        ensures
            r.wf(),
            r.boxes().len() == 0,
    {
        SpatialIndex { entries: Vec::new(), tree: tree_new() }
    }

    /// Forgets every box.
    pub fn clear(&mut self)
        ensures
            final(self).wf(),
            final(self).boxes().len() == 0,
    {
        self.entries = Vec::new();
        self.tree = tree_new();
    }

    /// The position of the entry for `id`.
    fn find(&self, id: &str) -> (r: Option<usize>)
        ensures
            r matches Some(i) ==> i < self.entries@.len() && self.entries@[i as int].id@ == id@,
            r is None ==> forall|j: int|
                0 <= j < self.entries@.len() ==> self.entries@[j].id@ != id@,
    {
        let mut i: usize = 0;
        while i < self.entries.len()
            invariant
                i <= self.entries@.len(),
                forall|j: int| 0 <= j < i ==> self.entries@[j].id@ != id@,
            decreases self.entries@.len() - i,
        {
            if str_eq(self.entries[i].id.as_str(), id) {
                return Some(i);
            }
            i = i + 1;
        }
        None
    }

    /// The index of the box of `id`, if tracked.
    pub closed spec fn index_of(&self, id: Seq<char>) -> Option<int> {
        if exists|i: int| 0 <= i < self.entries@.len() && self.entries@[i].id@ == id {
            Some(choose|i: int| 0 <= i < self.entries@.len() && self.entries@[i].id@ == id)
        } else {
            None
        }
    }

    proof fn lemma_index_of(&self, i: int)
        requires
            self.wf(),
            0 <= i < self.entries@.len(),
        ensures
            self.index_of(self.entries@[i].id@) == Some(i),
    {
        let id = self.entries@[i].id@;
        assert(self.entries@[i].id@ == id);
        let j = choose|j: int| 0 <= j < self.entries@.len() && self.entries@[j].id@ == id;
        assert(j == i);
    }

    /// Tracked ids are distinct, and `index_of` finds the box of an id exactly
    /// when one is tracked.
    pub proof fn lemma_lookup(&self, id: Seq<char>)
        requires
            self.wf(),
        ensures
            forall|i: int, j: int|
                0 <= i < j < self.boxes().len() ==> self.boxes()[i].0 != self.boxes()[j].0,
            self.index_of(id) matches Some(i) ==> 0 <= i < self.boxes().len() && self.boxes()[i].0 == id,
            self.index_of(id) is None <==> forall|i: int|
                0 <= i < self.boxes().len() ==> self.boxes()[i].0 != id,
    {
        self.lemma_boxes();
        if self.index_of(id) is Some {
            let i = self.index_of(id)->0;
            assert(self.entries@[i].id@ == id);
        } else {
            assert forall|i: int| 0 <= i < self.boxes().len() implies self.boxes()[i].0 != id by {
                assert(self.boxes()[i] == self.entries@[i].model());
            }
        }
        assert forall|i: int, j: int|
            0 <= i < j < self.boxes().len() implies self.boxes()[i].0 != self.boxes()[j].0 by {
            assert(self.boxes()[i] == self.entries@[i].model());
            assert(self.boxes()[j] == self.entries@[j].model());
        }
    }

    proof fn lemma_boxes(&self)
        ensures
            self.boxes().len() == self.entries@.len(),
            forall|i: int| 0 <= i < self.entries@.len() ==> #[trigger] self.boxes()[i] == self.entries@[i].model(),
    {
    }

    /// Tracks the box of `id` at (x, y) with the given size, replacing its
    /// earlier box.
    pub fn insert_or_update(&mut self, id: String, x: i64, y: i64, width: i64, height: i64)
        requires
            old(self).wf(),
            -COORD_LIMIT / 2 <= x <= COORD_LIMIT / 2,
            -COORD_LIMIT / 2 <= y <= COORD_LIMIT / 2,
            0 <= width <= COORD_LIMIT / 2,
            0 <= height <= COORD_LIMIT / 2,
        ensures
            final(self).wf(),
            final(self).boxes() == match old(self).index_of(id@) {
                Some(i) => old(self).boxes().update(i, (id@, x, y, (x + width) as i64, (y + height) as i64)),
                None => old(self).boxes().push((id@, x, y, (x + width) as i64, (y + height) as i64)),
            },
    {
        let nb = ElementBounds { id, min_x: x, min_y: y, max_x: x + width, max_y: y + height };
        proof {
            self.lemma_boxes();
        }
        match self.find(nb.id.as_str()) {
            Some(i) => {
                proof {
                    self.lemma_index_of(i as int);
                }
                let old_it = &self.entries[i];
                let (a, b, c, d) = (old_it.min_x, old_it.min_y, old_it.max_x, old_it.max_y);
                let ghost t0 = tree_items(self.tree);
                assert(t0.count((a, b, c, d, i)) == 1);
                tree_remove(&mut self.tree, a, b, c, d, i);
                tree_insert(&mut self.tree, nb.min_x, nb.min_y, nb.max_x, nb.max_y, i);
                self.entries.set(i, nb);
                proof {
                    assert forall|it: (i64, i64, i64, i64, usize)| #[trigger]
                        tree_items(self.tree).count(it) == if it.4 < self.entries@.len() && it
                            == self.entries@[it.4 as int].item(it.4) {
                            1nat
                        } else {
                            0nat
                        } by {
                        assert(t0.count(it) == if it.4 < old(self).entries@.len() && it
                            == old(self).entries@[it.4 as int].item(it.4) {
                            1nat
                        } else {
                            0nat
                        });
                    }
                    assert(self.boxes() =~= old(self).boxes().update(i as int, self.entries@[i as int].model()));
                }
            },
            None => {
                let n = self.entries.len();
                let ghost t0 = tree_items(self.tree);
                tree_insert(&mut self.tree, nb.min_x, nb.min_y, nb.max_x, nb.max_y, n);
                self.entries.push(nb);
                proof {
                    assert forall|it: (i64, i64, i64, i64, usize)| #[trigger]
                        tree_items(self.tree).count(it) == if it.4 < self.entries@.len() && it
                            == self.entries@[it.4 as int].item(it.4) {
                            1nat
                        } else {
                            0nat
                        } by {
                        assert(t0.count(it) == if it.4 < old(self).entries@.len() && it
                            == old(self).entries@[it.4 as int].item(it.4) {
                            1nat
                        } else {
                            0nat
                        });
                    }
                    assert(self.boxes() =~= old(self).boxes().push(self.entries@[n as int].model()));
                    if old(self).index_of(self.entries@[n as int].id@) is Some {
                        let j = choose|j: int|
                            0 <= j < old(self).entries@.len() && old(self).entries@[j].id@
                                == self.entries@[n as int].id@;
                    }
                }
            },
        }
    }

    /// Puts every entry back into a fresh tree.
    fn rebuild_tree(&mut self)
        requires
            forall|i: int, j: int|
                0 <= i < j < old(self).entries@.len() ==> old(self).entries@[i].id@ != old(
                    self,
                ).entries@[j].id@,
            forall|i: int| 0 <= i < old(self).entries@.len() ==> (#[trigger] old(self).entries@[i]).sane(),
        ensures
            final(self).wf(),
            final(self).entries == old(self).entries,
    {
        self.tree = tree_new();
        let n = self.entries.len();
        let mut j: usize = 0;
        while j < n
            invariant
                j <= n,
                n == self.entries@.len(),
                self.entries == old(self).entries,
                forall|i: int| 0 <= i < self.entries@.len() ==> (#[trigger] self.entries@[i]).sane(),
                forall|it: (i64, i64, i64, i64, usize)| #[trigger]
                    tree_items(self.tree).count(it) == if it.4 < j && it
                        == self.entries@[it.4 as int].item(it.4) {
                        1nat
                    } else {
                        0nat
                    },
            decreases n - j,
        {
            let e = &self.entries[j];
            assert(e.sane());
            tree_insert(&mut self.tree, e.min_x, e.min_y, e.max_x, e.max_y, j);
            j = j + 1;
        }
    }

    /// Stops tracking `id`.
    pub fn remove(&mut self, id: &str)
        requires
            old(self).wf(),
        ensures
            final(self).wf(),
            final(self).boxes() == match old(self).index_of(id@) {
                Some(i) => old(self).boxes().remove(i),
                None => old(self).boxes(),
            },
    {
        proof {
            self.lemma_boxes();
        }
        match self.find(id) {
            Some(i) => {
                proof {
                    self.lemma_index_of(i as int);
                }
                self.entries.remove(i);
                proof {
                    let o = old(self).entries@;
                    let n = self.entries@;
                    assert forall|j: int| 0 <= j < n.len() implies #[trigger] n[j] == (if j < i {
                        o[j]
                    } else {
                        o[j + 1]
                    }) by {}
                    assert forall|a: int, b: int| 0 <= a < b < n.len() implies n[a].id@ != n[b].id@ by {
                        let a0 = if a < i { a } else { a + 1 };
                        let b0 = if b < i { b } else { b + 1 };
                        assert(o[a0].id@ != o[b0].id@);
                    }
                    assert forall|j: int| 0 <= j < n.len() implies (#[trigger] n[j]).sane() by {
                        let j0 = if j < i { j } else { j + 1 };
                        assert(o[j0].sane());
                    }
                }
                self.rebuild_tree();
                proof {
                    assert(self.boxes() =~= old(self).boxes().remove(i as int));
                }
            },
            None => {
                proof {
                    if old(self).index_of(id@) is Some {
                        let j = choose|j: int|
                            0 <= j < old(self).entries@.len() && old(self).entries@[j].id@ == id@;
                    }
                }
            },
        }
    }

    /// The box of `id`.
    pub fn query_one(&self, id: &str) -> (r: Option<ElementBounds>)
        requires
            self.wf(),
        ensures
            r is Some <==> self.index_of(id@) is Some,
            r matches Some(b) ==> b.model() == self.boxes()[self.index_of(id@)->0],
    {
        proof {
            self.lemma_boxes();
        }
        match self.find(id) {
            Some(i) => {
                proof {
                    self.lemma_index_of(i as int);
                }
                Some(self.entries[i].duplicate())
            },
            None => {
                proof {
                    if self.index_of(id@) is Some {
                        let j = choose|j: int|
                            0 <= j < self.entries@.len() && self.entries@[j].id@ == id@;
                    }
                }
                None
            },
        }
    }

    /// The box of `id` as (x, y, width, height).
    pub fn get_bounds(&self, id: &str) -> (r: Option<(i64, i64, i64, i64)>)
        requires
            self.wf(),
        ensures
            r is Some <==> self.index_of(id@) is Some,
            r matches Some(v) ==> {
                let b = self.boxes()[self.index_of(id@)->0];
                v == (b.1, b.2, (b.3 - b.1) as i64, (b.4 - b.2) as i64)
            },
    {
        match self.query_one(id) {
            Some(b) => {
                proof {
                    self.lemma_boxes();
                    let i = self.index_of(id@)->0;
                    assert(self.entries@[i].sane());
                }
                Some((b.min_x, b.min_y, b.max_x - b.min_x, b.max_y - b.min_y))
            },
            None => None,
        }
    }

    /// The ids of all boxes that meet the rectangle at (x, y) with the given size.
    pub fn query_area(&self, x: i64, y: i64, width: i64, height: i64) -> (r: Vec<String>)
        requires
            self.wf(),
            -COORD_LIMIT <= x <= COORD_LIMIT,
            -COORD_LIMIT <= y <= COORD_LIMIT,
            0 <= width <= COORD_LIMIT,
            0 <= height <= COORD_LIMIT,
        ensures
            forall|k: int|
                0 <= k < r@.len() ==> tracked_meeting(self.boxes(), #[trigger] r@[k]@, area_rect(x, y, width, height)),
            forall|i: int|
                0 <= i < self.boxes().len() && box_meets(#[trigger] self.boxes()[i], area_rect(x, y, width, height))
                    ==> crate::document::strings_view(r@).contains(self.boxes()[i].0),
            crate::document::strings_view(r@).no_duplicates(),
    {
        proof {
            self.lemma_boxes();
        }
        let x2 = x + width;
        let y2 = y + height;
        assert(area_rect(x, y, width, height) == (x, y, x2, y2));
        let _len = self.entries.len();
        let hits = tree_locate(&self.tree, x, y, x2, y2);
        let mut out: Vec<String> = Vec::new();
        let mut taken: Vec<usize> = Vec::new();
        let mut k: usize = 0;
        while k < hits.len()
            invariant
                self.wf(),
                self.boxes().len() == self.entries@.len(),
                forall|i: int| 0 <= i < self.entries@.len() ==> #[trigger] self.boxes()[i] == self.entries@[i].model(),
                k <= hits@.len(),
                out@.len() == taken@.len(),
                taken@.no_duplicates(),
                forall|j: int| 0 <= j < k ==> taken@.contains(#[trigger] hits@[j]),
                forall|j: int|
                    0 <= j < taken@.len() ==> listed_hit(self.boxes(), #[trigger] taken@[j], out@[j]@, area_rect(x, y, width, height)),
                forall|j: int|
                    0 <= j < hits@.len() ==> held_meeting(tree_items(self.tree), #[trigger] hits@[j], area_rect(x, y, width, height)),
            decreases hits@.len() - k,
        {
            let h = hits[k];
            let seen = holds_index(&taken, h);
            proof {
                assert(held_meeting(tree_items(self.tree), hits@[k as int], area_rect(x, y, width, height)));
                let it = choose|it: (i64, i64, i64, i64, usize)|
                    #[trigger] tree_items(self.tree).contains(it) && it.4 == hits@[k as int]
                        && boxes_meet(
                        (it.0, it.1, it.2, it.3),
                        area_rect(x, y, width, height),
                    );
                assert(tree_items(self.tree).count(it) > 0);
                assert(self.boxes()[h as int] == self.entries@[h as int].model());
            }
            if !seen {
                let ghost t0 = taken@;
                let ghost o0 = out@;
                out.push(self.entries[h].id.clone());
                taken.push(h);
                proof {
                    let it = choose|it: (i64, i64, i64, i64, usize)|
                        #[trigger] tree_items(self.tree).contains(it) && it.4 == hits@[k as int]
                            && boxes_meet(
                            (it.0, it.1, it.2, it.3),
                            area_rect(x, y, width, height),
                        );
                    assert(tree_items(self.tree).count(it) > 0);
                    assert(it == self.entries@[h as int].item(h));
                    assert(box_meets(self.boxes()[h as int], area_rect(x, y, width, height)));
                    assert(taken@[t0.len() as int] == h);
                    assert(out@[t0.len() as int]@ == self.boxes()[h as int].0);
                    assert forall|j: int|
                        0 <= j < taken@.len() implies listed_hit(self.boxes(), #[trigger] taken@[j], out@[j]@, area_rect(x, y, width, height)) by {
                        if j < t0.len() {
                            assert(out@[j] == o0[j]);
                            assert(taken@[j] == t0[j]);
                            assert(listed_hit(self.boxes(), t0[j], o0[j]@, area_rect(x, y, width, height)));
                        }
                    }
                    assert forall|a: int, b: int| 0 <= a < b < taken@.len() implies taken@[a] != taken@[b] by {
                        if b == t0.len() {
                            if taken@[a] == h {
                                assert(t0[a] == h);
                            }
                        } else {
                            assert(t0.no_duplicates());
                        }
                    }
                    assert forall|j: int| 0 <= j < k + 1 implies taken@.contains(#[trigger] hits@[j]) by {
                        if j < k {
                            let w = choose|w: int| 0 <= w < t0.len() && t0[w] == hits@[j];
                            assert(taken@[w] == hits@[j]);
                        } else {
                            assert(taken@[t0.len() as int] == h);
                        }
                    }
                }
            } else {
                proof {
                    let w = choose|w: int| 0 <= w < taken@.len() && taken@[w] == h;
                    assert(taken@.contains(hits@[k as int]));
                }
            }
            k = k + 1;
        }
        proof {
            assert forall|i: int| 0 <= i < self.boxes().len() && box_meets(
                #[trigger] self.boxes()[i],
                area_rect(x, y, width, height),
            ) implies crate::document::strings_view(out@).contains(self.boxes()[i].0) by {
                let it = self.entries@[i].item(i as usize);
                assert(self.boxes()[i] == self.entries@[i].model());
                assert(it.4 as int == i);
                assert(tree_items(self.tree).count(it) == 1);
                assert(tree_items(self.tree).contains(it));
                assert(hits@.contains(i as usize));
                let k = choose|k: int| 0 <= k < hits@.len() && hits@[k] == i as usize;
                assert(taken@.contains(hits@[k]));
                let w = choose|w: int| 0 <= w < taken@.len() && taken@[w] == i as usize;
                assert(listed_hit(self.boxes(), taken@[w], out@[w]@, area_rect(x, y, width, height)));
                assert(out@[w]@ == self.boxes()[i].0);
                assert(crate::document::strings_view(out@)[w] == self.boxes()[i].0);
            }
            assert forall|k: int|
                0 <= k < out@.len() implies tracked_meeting(self.boxes(), #[trigger] out@[k]@, area_rect(x, y, width, height)) by {
                assert(listed_hit(self.boxes(), taken@[k], out@[k]@, area_rect(x, y, width, height)));
                let i = taken@[k] as int;
                assert(self.boxes()[i].0 == out@[k]@);
            }
            assert forall|a: int, b: int|
                0 <= a < b < out@.len() implies crate::document::strings_view(out@)[a]
                != crate::document::strings_view(out@)[b] by {
                assert(listed_hit(self.boxes(), taken@[a], out@[a]@, area_rect(x, y, width, height)));
                assert(listed_hit(self.boxes(), taken@[b], out@[b]@, area_rect(x, y, width, height)));
                assert(self.boxes()[taken@[a] as int] == self.entries@[taken@[a] as int].model());
                assert(self.boxes()[taken@[b] as int] == self.entries@[taken@[b] as int].model());
            }
        }
        out
    }

    /// The box of the smallest area that contains the point; among equal areas
    /// the one inserted last. Nesting is not tracked, so the smallest box stands
    /// for the innermost element.
    pub fn hit_test(&self, x: i64, y: i64) -> (r: Option<String>)
        requires
            self.wf(),
            -COORD_LIMIT <= x <= COORD_LIMIT,
            -COORD_LIMIT <= y <= COORD_LIMIT,
        ensures
            hit_result(self.boxes(), x as int, y as int, crate::document::opt_str(r)),
    {
        proof {
            self.lemma_boxes();
        }
        let _len = self.entries.len();
        let hits = tree_locate(&self.tree, x, y, x, y);
        let mut best: Option<usize> = None;
        let mut best_area: i128 = 0;
        let mut k: usize = 0;
        while k < hits.len()
            invariant
                self.wf(),
                self.boxes().len() == self.entries@.len(),
                forall|i: int| 0 <= i < self.entries@.len() ==> #[trigger] self.boxes()[i] == self.entries@[i].model(),
                k <= hits@.len(),
                forall|j: int|
                    0 <= j < hits@.len() ==> held_meeting(tree_items(self.tree), #[trigger] hits@[j], (x, y, x, y)),
                best is None <==> k == 0,
                best matches Some(b) ==> b < self.entries@.len() && box_contains(self.boxes()[b as int], x as int, y as int)
                    && best_area == box_area(self.boxes()[b as int])
                    && forall|j: int| 0 <= j < k ==> #[trigger] hits@[j] < self.entries@.len() && (box_area(self.boxes()[b as int])
                        < box_area(self.boxes()[hits@[j] as int]) || (box_area(self.boxes()[b as int])
                        == box_area(self.boxes()[hits@[j] as int]) && hits@[j] <= b)),
            decreases hits@.len() - k,
        {
            let h = hits[k];
            proof {
                assert(held_meeting(tree_items(self.tree), hits@[k as int], (x, y, x, y)));
                let it = choose|it: (i64, i64, i64, i64, usize)|
                    #[trigger] tree_items(self.tree).contains(it) && it.4 == hits@[k as int]
                        && boxes_meet((it.0, it.1, it.2, it.3), (x, y, x, y));
                assert(tree_items(self.tree).count(it) > 0);
                assert(self.boxes()[h as int] == self.entries@[h as int].model());
                assert(self.entries@[h as int].sane());
            }
            let e = &self.entries[h];
            assert(0 <= (e.max_x - e.min_x) * (e.max_y - e.min_y) <= 4_000_000_000_000_000_000_000_000_000_000)
                by (nonlinear_arith)
                requires
                    0 <= e.max_x - e.min_x <= 2_000_000_000_000_000,
                    0 <= e.max_y - e.min_y <= 2_000_000_000_000_000,
            ;
            let area: i128 = (e.max_x as i128 - e.min_x as i128) * (e.max_y as i128 - e.min_y as i128);
            assert(area == box_area(self.boxes()[h as int])) by (nonlinear_arith)
                requires
                    area == (e.max_x as i128 - e.min_x as i128) * (e.max_y as i128 - e.min_y as i128),
                    self.boxes()[h as int] == e.model(),
            ;
            let take = match best {
                None => true,
                Some(b) => area < best_area || (area == best_area && h > b),
            };
            if take {
                best = Some(h);
                best_area = area;
            }
            k = k + 1;
        }
        proof {
            assert forall|i: int|
                0 <= i < self.boxes().len() && box_contains(#[trigger] self.boxes()[i], x as int, y as int)
                implies exists|j: int| 0 <= j < hits@.len() && hits@[j] == i as usize by {
                let it = self.entries@[i].item(i as usize);
                assert(it.4 as int == i);
                assert(tree_items(self.tree).count(it) == 1);
                assert(tree_items(self.tree).contains(it));
                assert(hits@.contains(i as usize));
            }
        }
        match best {
            None => {
                proof {
                    assert forall|i: int|
                        0 <= i < self.boxes().len() implies !box_contains(#[trigger] self.boxes()[i], x as int, y as int) by {
                        if box_contains(self.boxes()[i], x as int, y as int) {
                            let w = choose|w: int| 0 <= w < hits@.len() && hits@[w] == i as usize;
                        }
                    }
                }
                None
            },
            Some(b) => {
                proof {
                    assert forall|j: int|
                        0 <= j < self.boxes().len() && box_contains(#[trigger] self.boxes()[j], x as int, y as int)
                        implies box_area(self.boxes()[b as int]) < box_area(self.boxes()[j]) || (
                        box_area(self.boxes()[b as int]) == box_area(self.boxes()[j]) && j <= b) by {
                        let w = choose|w: int| 0 <= w < hits@.len() && hits@[w] == j as usize;
                        assert(hits@[w] < self.entries@.len());
                    }
                    assert(hit_winner(self.boxes(), x as int, y as int, b as int));
                }
                let r = self.entries[b].id.clone();
                assert(self.boxes()[b as int].0 == r@);
                assert(!(forall|i: int|
                    0 <= i < self.boxes().len() ==> !box_contains(#[trigger] self.boxes()[i], x as int, y as int)));
                Some(r)
            },
        }
    }

    /// The bounding box (x, y, width, height) of the tracked boxes among `ids`;
    /// none when none of them is tracked.
    pub fn group_bounds(&self, ids: &Vec<String>) -> (r: Option<(i64, i64, i64, i64)>)
        requires
            self.wf(),
        ensures
            r is None <==> forall|i: int| !#[trigger] in_group(self.boxes(), crate::document::strings_view(ids@), i),
            r matches Some(g) ==> group_ok(
                self.boxes(),
                crate::document::strings_view(ids@),
                (g.0, g.1, (g.0 + g.2) as i64, (g.1 + g.3) as i64),
            ),
    {
        proof {
            self.lemma_boxes();
        }
        let ghost idv = crate::document::strings_view(ids@);
        let mut acc: Option<(i64, i64, i64, i64)> = None;
        let mut k: usize = 0;
        proof {
            assert forall|i: int| !#[trigger] in_group(self.boxes(), idv.subrange(0, 0), i) by {}
        }
        while k < ids.len()
            invariant
                self.wf(),
                idv == crate::document::strings_view(ids@),
                self.boxes().len() == self.entries@.len(),
                forall|i: int| 0 <= i < self.entries@.len() ==> #[trigger] self.boxes()[i] == self.entries@[i].model(),
                k <= ids@.len(),
                acc is None <==> forall|i: int| !#[trigger] in_group(self.boxes(), idv.subrange(0, k as int), i),
                acc matches Some(g) ==> group_ok(self.boxes(), idv.subrange(0, k as int), g),
            decreases ids@.len() - k,
        {
            let ghost prev = idv.subrange(0, k as int);
            let ghost next = idv.subrange(0, k + 1);
            let ghost v = idv[k as int];
            proof {
                assert forall|w: Seq<char>| #[trigger] next.contains(w) == (prev.contains(w) || w == v) by {
                    if next.contains(w) && w != v {
                        let q = choose|q: int| 0 <= q < next.len() && next[q] == w;
                        assert(prev[q] == w);
                    }
                    if prev.contains(w) {
                        let q = choose|q: int| 0 <= q < prev.len() && prev[q] == w;
                        assert(next[q] == w);
                    }
                    if w == v {
                        assert(next[k as int] == w);
                    }
                }
            }
            match self.find(ids[k].as_str()) {
                None => {
                    proof {
                        assert forall|i: int| #[trigger] in_group(self.boxes(), next, i) == in_group(self.boxes(), prev, i) by {
                            if 0 <= i < self.boxes().len() {
                                assert(self.boxes()[i].0 == self.entries@[i].id@);
                            }
                        }
                        lemma_group_same(self.boxes(), prev, next);
                    }
                },
                Some(i) => {
                    let e = &self.entries[i];
                    proof {
                        assert(e.sane());
                        assert(self.boxes()[i as int].0 == v);
                        assert forall|j: int| 0 <= j < self.boxes().len() && #[trigger] self.boxes()[j].0 == v implies j == i by {
                            if j != i {
                                assert(self.entries@[j].id@ != self.entries@[i as int].id@);
                            }
                        }
                        lemma_group_extend(self.boxes(), prev, next, acc, i as int);
                    }
                    acc = match acc {
                        None => Some((e.min_x, e.min_y, e.max_x, e.max_y)),
                        Some(g) => Some((
                            if e.min_x < g.0 { e.min_x } else { g.0 },
                            if e.min_y < g.1 { e.min_y } else { g.1 },
                            if e.max_x > g.2 { e.max_x } else { g.2 },
                            if e.max_y > g.3 { e.max_y } else { g.3 },
                        )),
                    };
                },
            }
            k = k + 1;
        }
        proof {
            assert(idv.subrange(0, ids@.len() as int) =~= idv);
        }
        match acc {
            None => None,
            Some(g) => Some((g.0, g.1, g.2 - g.0, g.3 - g.1)),
        }
    }

    /// Clamps a drag of `element_id` toward (tx, ty) so that its box stays
    /// inside the box of `parent_id`; unconstrained without a parent or when
    /// either box is not tracked.
    pub fn constrain_drag(&self, element_id: &str, parent_id: Option<&str>, tx: i64, ty: i64) -> (r: (
        i64,
        i64,
    ))
        requires
            self.wf(),
            -COORD_LIMIT <= tx <= COORD_LIMIT,
            -COORD_LIMIT <= ty <= COORD_LIMIT,
        ensures
            ({
                match parent_id {
                    Some(p) => if self.index_of(p@) is Some && self.index_of(element_id@) is Some {
                        (r.0 as int, r.1 as int) == drag_target(
                            self.boxes()[self.index_of(element_id@)->0],
                            self.boxes()[self.index_of(p@)->0],
                            tx as int,
                            ty as int,
                        )
                    } else {
                        r == (tx, ty)
                    },
                    None => r == (tx, ty),
                }
            }),
    {
        let p = match parent_id {
            None => return (tx, ty),
            Some(p) => p,
        };
        let pb = match self.query_one(p) {
            None => return (tx, ty),
            Some(b) => b,
        };
        let eb = match self.query_one(element_id) {
            None => return (tx, ty),
            Some(b) => b,
        };
        proof {
            self.lemma_boxes();
            let pi = self.index_of(p@)->0;
            let ei = self.index_of(element_id@)->0;
            assert(self.entries@[pi].sane());
            assert(self.entries@[ei].sane());
        }
        let min_x = pb.min_x;
        let max_x = pb.max_x - (eb.max_x - eb.min_x);
        let min_y = pb.min_y;
        let max_y = pb.max_y - (eb.max_y - eb.min_y);
        let ax = if tx > min_x { tx } else { min_x };
        let ay = if ty > min_y { ty } else { min_y };
        (if ax < max_x { ax } else { max_x }, if ay < max_y { ay } else { max_y })
    }



    /// The nearest alignment on one axis within the threshold, scanning
    /// every other box once.
    fn snap_axis(&self, id: &str, horizontal: bool, lo: i64, size: i64, threshold: i64) -> (r: Option<(i64, i64)>)
        requires
            self.wf(),
            -COORD_LIMIT <= lo <= COORD_LIMIT,
            0 <= size <= COORD_LIMIT,
            0 <= threshold <= COORD_LIMIT,
        ensures
            snap_ok(self.boxes(), id@, horizontal, lo as int, size as int, 2 * threshold, r),
    {
        proof {
            self.lemma_boxes();
        }
        let ghost boxes = self.boxes();
        let t2 = 2 * threshold;
        let mut best: Option<(i64, i64)> = None;
        let mut best_d: i64 = t2 + 1;
        let n = self.entries.len();
        let mut j: usize = 0;
        while j < n
            invariant
                self.wf(),
                boxes == self.boxes(),
                n == boxes.len(),
                boxes.len() == self.entries@.len(),
                forall|i: int| 0 <= i < self.entries@.len() ==> #[trigger] self.boxes()[i] == self.entries@[i].model(),
                j <= n,
                -COORD_LIMIT <= lo <= COORD_LIMIT,
                0 <= size <= COORD_LIMIT,
                0 <= threshold <= COORD_LIMIT,
                t2 == 2 * threshold,
                best_d <= t2 + 1,
                best is None ==> best_d == t2 + 1,
                forall|j2: int, k2: int|
                    eligible(boxes, id@, j2, k2) && j2 < j ==> best_d <= #[trigger] cand_of(boxes, horizontal, lo as int, size as int, j2, k2).0,
                best matches Some(p) ==> best_d <= t2 && exists|j1: int, k1: int|
                    eligible(boxes, id@, j1, k1) && j1 < j && #[trigger] cand_of(boxes, horizontal, lo as int, size as int, j1, k1)
                        == (best_d as int, p.0 as int, p.1 as int),
            decreases n - j,
        {
            let e = &self.entries[j];
            proof {
                assert(e.sane());
                assert(boxes[j as int] == e.model());
            }
            if !str_eq(e.id.as_str(), id) {
                let olo = if horizontal { e.min_x } else { e.min_y };
                let ohi = if horizontal { e.max_x } else { e.max_y };
                let mut kind: usize = 0;
                while kind < 5
                    invariant
                        boxes[j as int] == e.model(),
                        boxes[j as int].0 != id@,
                        olo == lo_of(boxes[j as int], horizontal),
                        ohi == hi_of(boxes[j as int], horizontal),
                        e.sane(),
                        -COORD_LIMIT <= olo <= ohi <= COORD_LIMIT,
                        j < n,
                        n == boxes.len(),
                        kind <= 5,
                        -COORD_LIMIT <= lo <= COORD_LIMIT,
                        0 <= size <= COORD_LIMIT,
                        0 <= threshold <= COORD_LIMIT,
                        t2 == 2 * threshold,
                        best_d <= t2 + 1,
                        best is None ==> best_d == t2 + 1,
                        forall|j2: int, k2: int|
                            eligible(boxes, id@, j2, k2) && (j2 < j || (j2 == j && k2 < kind)) ==> best_d
                                <= #[trigger] cand_of(boxes, horizontal, lo as int, size as int, j2, k2).0,
                        best matches Some(p) ==> best_d <= t2 && exists|j1: int, k1: int|
                            eligible(boxes, id@, j1, k1) && j1 <= j && #[trigger] cand_of(boxes, horizontal, lo as int, size as int, j1, k1)
                                == (best_d as int, p.0 as int, p.1 as int),
                    decreases 5 - kind,
                {
                    let c = candidate_exec(kind, lo, size, olo, ohi);
                    proof {
                        assert(cand_of(boxes, horizontal, lo as int, size as int, j as int, kind as int) == (c.0 as int, c.1 as int, c.2 as int));
                    }
                    if c.0 < best_d {
                        best_d = c.0;
                        best = Some((c.1, c.2));
                    }
                    kind = kind + 1;
                }
            }
            j = j + 1;
        }
        proof {
            if best is None {
                assert forall|j2: int, kind: int|
                    eligible(boxes, id@, j2, kind) implies #[trigger] cand_of(boxes, horizontal, lo as int, size as int, j2, kind).0 > t2 by {}
            } else {
                let p = best->0;
                let (j1, k1) = choose|j1: int, k1: int|
                    eligible(boxes, id@, j1, k1) && j1 < j && #[trigger] cand_of(boxes, horizontal, lo as int, size as int, j1, k1)
                        == (best_d as int, p.0 as int, p.1 as int);
                assert(cand_of(boxes, horizontal, lo as int, size as int, j1, k1).0 <= t2);
                assert(forall|j2: int, k2: int|
                    eligible(boxes, id@, j2, k2) ==> cand_of(boxes, horizontal, lo as int, size as int, j1, k1).0
                        <= #[trigger] cand_of(boxes, horizontal, lo as int, size as int, j2, k2).0);
            }
        }
        best
    }

    /// Snaps the box (x, y, width, height) of `element_id` to the nearest
    /// alignment with another box on each axis, when within `threshold`.
    pub fn find_snap_targets(
        &self,
        element_id: &str,
        x: i64,
        y: i64,
        width: i64,
        height: i64,
        threshold: i64,
    ) -> (r: SnapResult)
        requires
            self.wf(),
            -COORD_LIMIT <= x <= COORD_LIMIT,
            -COORD_LIMIT <= y <= COORD_LIMIT,
            0 <= width <= COORD_LIMIT,
            0 <= height <= COORD_LIMIT,
            0 <= threshold <= COORD_LIMIT,
        ensures
            snap_result_ok(self.boxes(), element_id@, x as int, y as int, width as int, height as int, threshold as int, r),
    {
        let sx = self.snap_axis(element_id, true, x, width, threshold);
        let sy = self.snap_axis(element_id, false, y, height, threshold);
        let mut guides: Vec<SnapGuide> = Vec::new();
        if let Some(p) = sx {
            guides.push(SnapGuide { orientation: owned("vertical"), value: p.1, label: String::new() });
        }
        if let Some(p) = sy {
            guides.push(SnapGuide { orientation: owned("horizontal"), value: p.1, label: String::new() });
        }
        let r = SnapResult {
            x: match sx {
                Some(p) => p.0,
                None => x,
            },
            y: match sy {
                Some(p) => p.0,
                None => y,
            },
            guides,
        };
        proof {
            assert(r.guides@.map_values(|g: SnapGuide| (g.orientation@, g.value)) =~= guides_of(sx, sy));
        }
        r
    }
    /// The ids of reference boxes whose tracked box drifts beyond the tolerance.
    pub fn flagged_elements(&self, reference: &Vec<LayoutSnapshot>) -> (r: Vec<String>)
        requires
            self.wf(),
            forall|k: int| 0 <= k < reference@.len() ==> {
                let s = #[trigger] reference@[k];
                -COORD_LIMIT <= s.x <= COORD_LIMIT && -COORD_LIMIT <= s.y <= COORD_LIMIT
                    && -COORD_LIMIT <= s.width <= COORD_LIMIT && -COORD_LIMIT <= s.height <= COORD_LIMIT
            },
        ensures
            crate::document::strings_view(r@) == flagged(*self, reference@),
    {
        proof {
            self.lemma_boxes();
        }
        let ghost rs = reference@;
        let mut out: Vec<String> = Vec::new();
        let mut k: usize = 0;
        proof {
            assert(crate::document::strings_view(out@) =~= flagged(*self, rs.subrange(0, 0)));
        }
        while k < reference.len()
            invariant
                self.wf(),
                rs == reference@,
                k <= rs.len(),
                forall|q: int| 0 <= q < rs.len() ==> {
                    let s = #[trigger] rs[q];
                    -COORD_LIMIT <= s.x <= COORD_LIMIT && -COORD_LIMIT <= s.y <= COORD_LIMIT
                        && -COORD_LIMIT <= s.width <= COORD_LIMIT && -COORD_LIMIT <= s.height <= COORD_LIMIT
                },
                crate::document::strings_view(out@) == flagged(*self, rs.subrange(0, k as int)),
            decreases rs.len() - k,
        {
            let snap = &reference[k];
            proof {
                assert(rs.subrange(0, k + 1).drop_last() =~= rs.subrange(0, k as int));
                assert(rs.subrange(0, k + 1).last() == rs[k as int]);
            }
            match self.query_one(snap.id.as_str()) {
                None => {
                },
                Some(b) => {
                    proof {
                        let i = self.index_of(snap.id@)->0;
                        assert(self.entries@[i].sane());
                    }
                    let dx = (b.min_x - snap.x) as i128;
                    let dy = (b.min_y - snap.y) as i128;
                    let dw = ((b.max_x - b.min_x) - snap.width) as i128;
                    let dh = ((b.max_y - b.min_y) - snap.height) as i128;
                    let s = (if dw < 0 { -dw } else { dw }) + (if dh < 0 { -dh } else { dh });
                    let t = DRIFT_TOLERANCE as i128;
                    let exceeds = if s > t {
                        true
                    } else {
                        assert(dx * dx <= 100_000_000_000_000_000_000_000_000_000_000) by (nonlinear_arith)
                            requires -10_000_000_000_000_000 <= dx <= 10_000_000_000_000_000;
                        assert(dy * dy <= 100_000_000_000_000_000_000_000_000_000_000) by (nonlinear_arith)
                            requires -10_000_000_000_000_000 <= dy <= 10_000_000_000_000_000;
                        assert(0 <= dx * dx && 0 <= dy * dy) by (nonlinear_arith);
                        assert(0 <= t - s <= 2);
                        assert((t - s) * (t - s) <= 4) by (nonlinear_arith)
                            requires 0 <= t - s <= 2;
                        dx * dx + dy * dy > (t - s) * (t - s)
                    };
                    proof {
                        let i = self.index_of(snap.id@)->0;
                        let bm = self.boxes()[i];
                        assert(bm == b.model());
                        assert(exceeds == drift_exceeds(bm.1 - snap.x, bm.2 - snap.y, (bm.3 - bm.1) - snap.width, (bm.4 - bm.2) - snap.height));
                    }
                    if exceeds {
                        let ghost before = out@;
                        let idc = snap.id.clone();
                        proof {
                            crate::document::lemma_sv_push(before, idc);
                        }
                        out.push(idc);
                    }
                },
            }
            k = k + 1;
        }
        proof {
            assert(rs.subrange(0, rs.len() as int) =~= rs);
        }
        out
    }
}

/// A hit test at a point that lies in exactly one box answers that box's id.
pub proof fn lemma_hit_single_box(boxes: Seq<BoxModel>, x: int, y: int, i: int, r: Option<Seq<char>>)
    requires
        0 <= i < boxes.len(),
        box_contains(boxes[i], x, y),
        forall|j: int| 0 <= j < boxes.len() && j != i ==> !box_contains(#[trigger] boxes[j], x, y),
        hit_result(boxes, x, y, r),
    ensures
        r == Some(boxes[i].0),
{
    assert(!(forall|j: int| 0 <= j < boxes.len() ==> !box_contains(#[trigger] boxes[j], x, y)));
    let j = choose|j: int| hit_winner(boxes, x, y, j) && #[trigger] boxes[j].0 == r->0;
    assert(j == i);
}

/// A constrained drag keeps the moved box inside its parent's box: its start
/// lies in [parent min, parent max - size] on each axis, whenever the box fits.
pub proof fn lemma_drag_within(e: BoxModel, p: BoxModel, tx: int, ty: int)
    requires
        e.1 <= e.3,
        e.2 <= e.4,
        e.3 - e.1 <= p.3 - p.1,
        e.4 - e.2 <= p.4 - p.2,
    ensures
        p.1 <= drag_target(e, p, tx, ty).0 <= p.3 - (e.3 - e.1),
        p.2 <= drag_target(e, p, tx, ty).1 <= p.4 - (e.4 - e.2),
{
}

/// When every alignment on an axis is farther than the threshold, snapping
/// leaves that coordinate as given.
pub proof fn lemma_far_keeps_input(
    boxes: Seq<BoxModel>,
    id: Seq<char>,
    x: int,
    y: int,
    w: int,
    h: int,
    threshold: int,
    r: SnapResult,
)
    requires
        snap_result_ok(boxes, id, x, y, w, h, threshold, r),
    ensures
        (forall|j: int, kind: int|
            eligible(boxes, id, j, kind) ==> #[trigger] cand_of(boxes, true, x, w, j, kind).0 > 2 * threshold)
            ==> r.x == x,
        (forall|j: int, kind: int|
            eligible(boxes, id, j, kind) ==> #[trigger] cand_of(boxes, false, y, h, j, kind).0 > 2 * threshold)
            ==> r.y == y,
{
    let (sx, sy) = choose|sx: Option<(i64, i64)>, sy: Option<(i64, i64)>|
        #[trigger] snap_ok(boxes, id, true, x, w, 2 * threshold, sx) && #[trigger] snap_ok(
            boxes,
            id,
            false,
            y,
            h,
            2 * threshold,
            sy,
        ) && r.x == (match sx {
            Some(p) => p.0 as int,
            None => x,
        }) && r.y == (match sy {
            Some(p) => p.0 as int,
            None => y,
        }) && r.guides@.map_values(|g: SnapGuide| (g.orientation@, g.value)) == guides_of(sx, sy);
    if forall|j: int, kind: int|
        eligible(boxes, id, j, kind) ==> #[trigger] cand_of(boxes, true, x, w, j, kind).0 > 2 * threshold {
        assert(sx is None);
    }
    if forall|j: int, kind: int|
        eligible(boxes, id, j, kind) ==> #[trigger] cand_of(boxes, false, y, h, j, kind).0 > 2 * threshold {
        assert(sy is None);
    }
}

} // verus!
