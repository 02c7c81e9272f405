//! Layout resolution: effective styles per breakpoint, their box-model reading,
//! the constraint tree handed to the flexbox solver, and root-relative positions.
use vstd::prelude::*;
use crate::value::{owned, str_eq, PropMap, ValueModel};
use crate::document::{opt_str, DesignerElement, ElementModel, ProjectState};
use crate::style::{
    dimension_of, length_auto_of, length_of, parse_dimension, parse_length_percentage,
    parse_length_percentage_auto, Dimension, LengthPercentage, LengthPercentageAuto, MAX_UNITS,
};

verus! {

#[derive(Clone, Copy, Debug, PartialEq, Eq, Structural)]
pub enum DisplayMode {
    Flex,
    Grid,
    Hidden,
}

#[derive(Clone, Copy, Debug, PartialEq, Eq, Structural)]
pub enum FlexDirection {
    Row,
    Column,
    RowReverse,
    ColumnReverse,
}

#[derive(Clone, Copy, Debug, PartialEq, Eq, Structural)]
pub enum JustifyContent {
    Start,
    End,
    Center,
    SpaceBetween,
    SpaceAround,
}

#[derive(Clone, Copy, Debug, PartialEq, Eq, Structural)]
pub enum AlignItems {
    Start,
    End,
    Center,
    Baseline,
    Stretch,
}

#[derive(Clone, Copy, Debug, PartialEq, Eq, Structural)]
pub enum PositionMode {
    Relative,
    Absolute,
}

/// The box-model primitives of one node.
#[derive(Clone, Copy, Debug, PartialEq, Eq, Structural)]
pub struct BoxStyle {
    pub display: DisplayMode,
    pub flex_direction: FlexDirection,
    pub justify_content: Option<JustifyContent>,
    pub align_items: Option<AlignItems>,
    pub gap: Option<LengthPercentage>,
    pub width: Dimension,
    pub height: Dimension,
    pub min_width: Dimension,
    pub min_height: Dimension,
    pub max_width: Dimension,
    pub max_height: Dimension,
    pub position: PositionMode,
    pub left: LengthPercentageAuto,
    pub top: LengthPercentageAuto,
    pub right: LengthPercentageAuto,
    pub bottom: LengthPercentageAuto,
    pub padding: Option<LengthPercentage>,
    pub margin: Option<LengthPercentageAuto>,
}

pub type StyleTable = Map<Seq<char>, ValueModel>;

/// The text declared under `k`, if it is text.
pub open spec fn text_at(m: StyleTable, k: Seq<char>) -> Option<Seq<char>> {
    if m.contains_key(k) && m[k] is Text {
        Some(m[k]->Text_0)
    } else {
        None
    }
}

pub open spec fn dim_at(m: StyleTable, k: Seq<char>) -> Dimension {
    if m.contains_key(k) {
        dimension_of(m[k])
    } else {
        Dimension::Auto
    }
}

pub open spec fn inset_at(m: StyleTable, k: Seq<char>, absolute: bool) -> LengthPercentageAuto {
    if absolute && m.contains_key(k) {
        length_auto_of(m[k])
    } else {
        LengthPercentageAuto::Auto
    }
}

pub open spec fn display_spec(m: StyleTable) -> DisplayMode {
    if text_at(m, "display"@) == Some("grid"@) {
        DisplayMode::Grid
    } else if text_at(m, "display"@) == Some("none"@) {
        DisplayMode::Hidden
    } else {
        DisplayMode::Flex
    }
}

pub open spec fn direction_spec(m: StyleTable) -> FlexDirection {
    if text_at(m, "flexDirection"@) == Some("column"@) {
        FlexDirection::Column
    } else if text_at(m, "flexDirection"@) == Some("row-reverse"@) {
        FlexDirection::RowReverse
    } else if text_at(m, "flexDirection"@) == Some("column-reverse"@) {
        FlexDirection::ColumnReverse
    } else {
        FlexDirection::Row
    }
}

pub open spec fn justify_spec(s: Seq<char>) -> Option<JustifyContent> {
    if s == "flex-start"@ || s == "start"@ {
        Some(JustifyContent::Start)
    } else if s == "flex-end"@ || s == "end"@ {
        Some(JustifyContent::End)
    } else if s == "center"@ {
        Some(JustifyContent::Center)
    } else if s == "space-between"@ {
        Some(JustifyContent::SpaceBetween)
    } else if s == "space-around"@ {
        Some(JustifyContent::SpaceAround)
    } else {
        None
    }
}

pub open spec fn align_spec(s: Seq<char>) -> Option<AlignItems> {
    if s == "flex-start"@ || s == "start"@ {
        Some(AlignItems::Start)
    } else if s == "flex-end"@ || s == "end"@ {
        Some(AlignItems::End)
    } else if s == "center"@ {
        Some(AlignItems::Center)
    } else if s == "baseline"@ {
        Some(AlignItems::Baseline)
    } else if s == "stretch"@ {
        Some(AlignItems::Stretch)
    } else {
        None
    }
}

/// A node is absolutely positioned when its style says so or its layout mode is
/// free-form ("freeform", or "freedom" as older documents spell it).
pub open spec fn absolute_spec(m: StyleTable, layout_mode: Option<Seq<char>>) -> bool {
    text_at(m, "position"@) == Some("absolute"@) || layout_mode == Some("freeform"@)
        || layout_mode == Some("freedom"@)
}

/// The box-model reading of an effective style map.
pub open spec fn box_style_of(m: StyleTable, layout_mode: Option<Seq<char>>) -> BoxStyle {
    let absolute = absolute_spec(m, layout_mode);
    BoxStyle {
        display: display_spec(m),
        flex_direction: direction_spec(m),
        justify_content: match text_at(m, "justifyContent"@) {
            Some(s) => justify_spec(s),
            None => None,
        },
        align_items: match text_at(m, "alignItems"@) {
            Some(s) => align_spec(s),
            None => None,
        },
        gap: if m.contains_key("gap"@) {
            Some(length_of(m["gap"@]))
        } else {
            None
        },
        width: dim_at(m, "width"@),
        height: dim_at(m, "height"@),
        min_width: dim_at(m, "minWidth"@),
        min_height: dim_at(m, "minHeight"@),
        max_width: dim_at(m, "maxWidth"@),
        max_height: dim_at(m, "maxHeight"@),
        position: if absolute {
            PositionMode::Absolute
        } else {
            PositionMode::Relative
        },
        left: inset_at(m, "left"@, absolute),
        top: inset_at(m, "top"@, absolute),
        right: inset_at(m, "right"@, absolute),
        bottom: inset_at(m, "bottom"@, absolute),
        padding: if m.contains_key("padding"@) {
            Some(length_of(m["padding"@]))
        } else {
            None
        },
        margin: if m.contains_key("margin"@) {
            Some(length_auto_of(m["margin"@]))
        } else {
            None
        },
    }
}

/// The effective style of an element: its base map, overlaid key by key by the
/// tablet or mobile map when that view is active.
pub open spec fn effective_style_spec(e: ElementModel, view_mode: Seq<char>) -> StyleTable {
    let base = match e.styles {
        Some(m) => m,
        None => Map::empty(),
    };
    if view_mode == "tablet"@ && e.tablet_styles is Some {
        base.union_prefer_right(e.tablet_styles->0)
    } else if view_mode == "mobile"@ && e.mobile_styles is Some {
        base.union_prefer_right(e.mobile_styles->0)
    } else {
        base
    }
}

/// The style map in force for `el` under `view_mode`.
pub fn effective_style(el: &DesignerElement, view_mode: &str) -> (r: PropMap)
    requires
        el.styles matches Some(m) ==> m.wf(),
        el.tablet_styles matches Some(m) ==> m.wf(),
        el.mobile_styles matches Some(m) ==> m.wf(),
    ensures
        r.wf(),
        r@ == effective_style_spec(el@, view_mode@),
{
    let mut out = match &el.styles {
        Some(m) => m.duplicate(),
        None => PropMap::new(),
    };
    let ghost base = match el@.styles {
        Some(m) => m,
        None => Map::empty(),
    };
    assert(out@ == base);
    proof {
        reveal_strlit("tablet");
        reveal_strlit("mobile");
        assert("tablet"@[0] != "mobile"@[0]);
    }
    if str_eq(view_mode, "tablet") {
        if let Some(t) = &el.tablet_styles {
            out.overlay(t);
            assert(out@ == base.union_prefer_right(el@.tablet_styles->0));
        }
    } else if str_eq(view_mode, "mobile") {
        if let Some(m) = &el.mobile_styles {
            out.overlay(m);
        }
    }
    out
}

fn text_of<'a>(m: &'a PropMap, k: &str) -> (r: Option<&'a String>)
    requires
        m.wf(),
    ensures
        r matches Some(s) ==> text_at(m@, k@) == Some(s@),
        r is None ==> text_at(m@, k@) is None,
{
    match m.get(k) {
        Some(v) => v.as_text(),
        None => None,
    }
}

fn text_is(o: Option<&String>, lit: &str) -> (r: bool)
    ensures
        r == (o matches Some(s) && s@ == lit@),
{
    match o {
        Some(s) => str_eq(s.as_str(), lit),
        None => false,
    }
}

fn dim_of(m: &PropMap, k: &str) -> (r: Dimension)
    requires
        m.wf(),
    ensures
        r == dim_at(m@, k@),
{
    match m.get(k) {
        Some(v) => parse_dimension(v),
        None => Dimension::Auto,
    }
}

fn inset_of(m: &PropMap, k: &str, absolute: bool) -> (r: LengthPercentageAuto)
    requires
        m.wf(),
    ensures
        r == inset_at(m@, k@, absolute),
{
    if absolute {
        match m.get(k) {
            Some(v) => parse_length_percentage_auto(v),
            None => LengthPercentageAuto::Auto,
        }
    } else {
        LengthPercentageAuto::Auto
    }
}

fn justify_of(s: &str) -> (r: Option<JustifyContent>)
    ensures
        r == justify_spec(s@),
{
    if str_eq(s, "flex-start") || str_eq(s, "start") {
        Some(JustifyContent::Start)
    } else if str_eq(s, "flex-end") || str_eq(s, "end") {
        Some(JustifyContent::End)
    } else if str_eq(s, "center") {
        Some(JustifyContent::Center)
    } else if str_eq(s, "space-between") {
        Some(JustifyContent::SpaceBetween)
    } else if str_eq(s, "space-around") {
        Some(JustifyContent::SpaceAround)
    } else {
        None
    }
}

fn align_of(s: &str) -> (r: Option<AlignItems>)
    ensures
        r == align_spec(s@),
{
    if str_eq(s, "flex-start") || str_eq(s, "start") {
        Some(AlignItems::Start)
    } else if str_eq(s, "flex-end") || str_eq(s, "end") {
        Some(AlignItems::End)
    } else if str_eq(s, "center") {
        Some(AlignItems::Center)
    } else if str_eq(s, "baseline") {
        Some(AlignItems::Baseline)
    } else if str_eq(s, "stretch") {
        Some(AlignItems::Stretch)
    } else {
        None
    }
}

/// Reads an effective style map, and the element's layout mode, as box-model
/// primitives; unreadable values fall back to automatic or zero.
pub fn map_style(m: &PropMap, layout_mode: &Option<String>) -> (r: BoxStyle)
    requires
        m.wf(),
    ensures
        r == box_style_of(m@, opt_str(*layout_mode)),
{
    let display = text_of(m, "display");
    let display = if text_is(display, "grid") {
        DisplayMode::Grid
    } else if text_is(display, "none") {
        DisplayMode::Hidden
    } else {
        DisplayMode::Flex
    };
    let dir = text_of(m, "flexDirection");
    let flex_direction = if text_is(dir, "column") {
        FlexDirection::Column
    } else if text_is(dir, "row-reverse") {
        FlexDirection::RowReverse
    } else if text_is(dir, "column-reverse") {
        FlexDirection::ColumnReverse
    } else {
        FlexDirection::Row
    };
    let justify_content = match text_of(m, "justifyContent") {
        Some(s) => justify_of(s.as_str()),
        None => None,
    };
    let align_items = match text_of(m, "alignItems") {
        Some(s) => align_of(s.as_str()),
        None => None,
    };
    let gap = match m.get("gap") {
        Some(v) => Some(parse_length_percentage(v)),
        None => None,
    };
    let mode_free = match layout_mode {
        Some(s) => str_eq(s.as_str(), "freeform") || str_eq(s.as_str(), "freedom"),
        None => false,
    };
    let absolute = text_is(text_of(m, "position"), "absolute") || mode_free;
    let padding = match m.get("padding") {
        Some(v) => Some(parse_length_percentage(v)),
        None => None,
    };
    let margin = match m.get("margin") {
        Some(v) => Some(parse_length_percentage_auto(v)),
        None => None,
    };
    BoxStyle {
        display,
        flex_direction,
        justify_content,
        align_items,
        gap,
        width: dim_of(m, "width"),
        height: dim_of(m, "height"),
        min_width: dim_of(m, "minWidth"),
        min_height: dim_of(m, "minHeight"),
        max_width: dim_of(m, "maxWidth"),
        max_height: dim_of(m, "maxHeight"),
        position: if absolute {
            PositionMode::Absolute
        } else {
            PositionMode::Relative
        },
        left: inset_of(m, "left", absolute),
        top: inset_of(m, "top", absolute),
        right: inset_of(m, "right", absolute),
        bottom: inset_of(m, "bottom", absolute),
        padding,
        margin,
    }
}

/// Integer division that rounds toward zero.
pub open spec fn div_toward_zero(a: int, b: int) -> int {
    if a >= 0 {
        a / b
    } else {
        -((-a) / b)
    }
}

/// The size a dimension resolves to inside a container of the given size;
/// none for `auto`, which the solver decides.
pub open spec fn resolved_size(d: Dimension, container: int) -> Option<int> {
    match d {
        Dimension::Points(n) => Some(n as int),
        Dimension::Percent(p) => Some(div_toward_zero(container * p, 100)),
        Dimension::Auto => None,
    }
}

/// Resolves a dimension against the size of its container.
pub fn resolve_dimension(d: Dimension, container: i64) -> (r: Option<i64>)
    requires
        -MAX_UNITS <= container <= MAX_UNITS,
        d matches Dimension::Percent(p) ==> -MAX_UNITS <= p <= MAX_UNITS,
    ensures
        r matches Some(v) ==> resolved_size(d, container as int) == Some(v as int),
        r is None <==> resolved_size(d, container as int) is None,
{
    match d {
        Dimension::Points(n) => Some(n),
        Dimension::Percent(p) => {
            assert(-1_000_000_000_000_000_000 <= (container as int) * (p as int)
                <= 1_000_000_000_000_000_000) by (nonlinear_arith)
                requires
                    -MAX_UNITS <= container <= MAX_UNITS,
                    -MAX_UNITS <= p <= MAX_UNITS,
            ;
            let prod: i128 = (container as i128) * (p as i128);
            let q: i128 = if prod >= 0 {
                prod / 100
            } else {
                -((-prod) / 100)
            };
            Some(q as i64)
        },
        Dimension::Auto => None,
    }
}

/// One node of the constraint tree: an element, its box style, and the plan
/// indices of its children, all of which come before it.
#[derive(Debug)]
pub struct LayoutNode {
    pub id: String,
    pub style: BoxStyle,
    pub children: Vec<usize>,
    /// The descent stopped here: the depth budget ran out (only on a cyclic
    /// document) or the plan reached its size limit.
    pub truncated: bool,
    /// The depth budget left at this node: the number of elements at the
    /// root, one less at each level below.
    pub level: usize,
}

/// The constraint tree in children-first order, the root last, with the plan
/// index of each node's parent.
#[derive(Debug)]
pub struct LayoutPlan {
    pub nodes: Vec<LayoutNode>,
    pub parents: Vec<Option<usize>>,
}

/// The children of `l` that exist in the document, in order.
pub open spec fn existing(t: crate::document::ElementTable, l: Seq<Seq<char>>) -> Seq<Seq<char>> {
    l.filter(|c: Seq<char>| t.contains_key(c))
}

/// Node `i` of a plan is faithful to the document.
pub open spec fn node_ok(
    t: crate::document::ElementTable,
    view: Seq<char>,
    nodes: Seq<LayoutNode>,
    parents: Seq<Option<usize>>,
    root_level: nat,
    i: int,
) -> bool {
    let n = nodes[i];
    &&& forall|k: int|
        0 <= k < n.children@.len() ==> nodes[#[trigger] n.children@[k] as int].level + 1 == n.level
    &&& (n.level == 0 ==> n.truncated)
    &&& (n.truncated ==> n.level == 0 || nodes.len() + root_level >= PLAN_LIMIT)
    &&& t.contains_key(n.id@)
    &&& n.style == box_style_of(effective_style_spec(t[n.id@], view), t[n.id@].layout_mode)
    &&& forall|k: int|
        0 <= k < n.children@.len() ==> #[trigger] n.children@[k] < i && parents[n.children@[k] as int]
            == Some(i as usize)
    &&& !n.truncated ==> n.children@.map_values(|c: usize| nodes[c as int].id@) == existing(
        t,
        crate::document::child_ids(t[n.id@]),
    )
}

pub open spec fn segment_ok(
    t: crate::document::ElementTable,
    view: Seq<char>,
    nodes: Seq<LayoutNode>,
    parents: Seq<Option<usize>>,
    root_level: nat,
    start: int,
) -> bool {
    &&& nodes.len() == parents.len()
    &&& forall|i: int| start <= i < nodes.len() ==> #[trigger] node_ok(t, view, nodes, parents, root_level, i)
    &&& forall|i: int|
        start <= i < nodes.len() ==> (#[trigger] parents[i] matches Some(q) ==> i < q < nodes.len())
}

proof fn lemma_node_ok_stable(
    t: crate::document::ElementTable,
    view: Seq<char>,
    nodes: Seq<LayoutNode>,
    parents: Seq<Option<usize>>,
    nodes2: Seq<LayoutNode>,
    parents2: Seq<Option<usize>>,
    root_level: nat,
    i: int,
)
    requires
        0 <= i < nodes.len(),
        node_ok(t, view, nodes, parents, root_level, i),
        nodes.len() <= nodes2.len(),
        forall|j: int| 0 <= j < nodes.len() ==> nodes2[j] == nodes[j],
        forall|k: int|
            0 <= k < nodes[i].children@.len() ==> parents2[nodes[i].children@[k] as int]
                == parents[nodes[i].children@[k] as int],
    ensures
        node_ok(t, view, nodes2, parents2, root_level, i),
{
    let n = nodes[i];
    assert forall|k: int|
        0 <= k < n.children@.len() implies nodes2[#[trigger] n.children@[k] as int].level + 1 == n.level by {}
    assert forall|k: int| 0 <= k < n.children@.len() implies #[trigger] n.children@[k] < i
        && parents2[n.children@[k] as int] == Some(i as usize) by {}
    assert(n.children@.map_values(|c: usize| nodes2[c as int].id@) =~= n.children@.map_values(
        |c: usize| nodes[c as int].id@,
    ));
}

/// The most nodes a plan may hold.
pub const PLAN_LIMIT: usize = 1_000_000;

fn build_into(
    state: &ProjectState,
    id: &str,
    depth: usize,
    limit: usize,
    root_level: Ghost<nat>,
    nodes: &mut Vec<LayoutNode>,
    parents: &mut Vec<Option<usize>>,
) -> (r: usize)
    requires
        depth <= root_level@,
        limit + (root_level@ - depth) == PLAN_LIMIT,
        state.wf(),
        state.elements@.contains_key(id@),
        old(nodes)@.len() == old(parents)@.len(),
        old(nodes)@.len() < limit <= PLAN_LIMIT,
    ensures
        final(nodes)@.len() == final(parents)@.len(),
        final(nodes)@.len() <= limit,
        old(nodes)@.len() <= r,
        r + 1 == final(nodes)@.len(),
        final(nodes)@[r as int].id@ == id@,
        final(nodes)@[r as int].level == depth,
        forall|j: int| 0 <= j < old(nodes)@.len() ==> final(nodes)@[j] == old(nodes)@[j],
        forall|j: int| 0 <= j < old(nodes)@.len() ==> final(parents)@[j] == old(parents)@[j],
        segment_ok(
            state.elements@,
            state.view_mode@,
            final(nodes)@,
            final(parents)@,
            root_level@,
            old(nodes)@.len() as int,
        ),
        forall|j: int|
            old(nodes)@.len() <= j < final(nodes)@.len() ==> (final(parents)@[j] is None <==> j
                == r),
    decreases depth,
{
    let ghost t = state.elements@;
    let ghost view = state.view_mode@;
    let ghost start = nodes@.len() as int;
    let ghost rl = root_level@;
    let el = state.elements.get(id).unwrap();
    let mut kids: Vec<usize> = Vec::new();
    let mut truncated = depth == 0;
    proof {
        assert(kids@.map_values(|c: usize| nodes@[c as int].id@) =~= Seq::<Seq<char>>::empty());
        reveal(Seq::filter);
    }
    if !truncated {
        if let Some(ch) = &el.children {
            let ghost sv = crate::document::strings_view(ch@);
            proof {
                assert(existing(t, sv.subrange(0, 0)) =~= Seq::<Seq<char>>::empty());
            }
            let mut i: usize = 0;
            while i < ch.len()
                invariant
                    state.wf(),
                    t == state.elements@,
                    view == state.view_mode@,
                    depth > 0,
                    sv == crate::document::strings_view(ch@),
                    i <= ch@.len(),
                    nodes@.len() == parents@.len(),
                    start == old(nodes)@.len(),
                    start <= nodes@.len() < limit,
                    limit <= PLAN_LIMIT,
                    forall|j: int| 0 <= j < start ==> nodes@[j] == old(nodes)@[j],
                    forall|j: int| 0 <= j < start ==> parents@[j] == old(parents)@[j],
                    segment_ok(t, view, nodes@, parents@, rl, start),
                    rl == root_level@,
                    depth <= rl,
                    limit + (rl - depth) == PLAN_LIMIT,
                    truncated ==> nodes@.len() + 1 >= limit,
                    forall|k: int| 0 <= k < kids@.len() ==> nodes@[#[trigger] kids@[k] as int].level + 1 == depth,
                    forall|k: int|
                        0 <= k < kids@.len() ==> start <= #[trigger] kids@[k] < nodes@.len(),
                    forall|a: int, b: int| 0 <= a < b < kids@.len() ==> kids@[a] < kids@[b],
                    forall|j: int|
                        start <= j < nodes@.len() ==> (parents@[j] is None <==> kids@.contains(
                            j as usize,
                        )),
                    !truncated ==> kids@.map_values(|c: usize| nodes@[c as int].id@) == existing(
                        t,
                        sv.subrange(0, i as int),
                    ),
                decreases ch@.len() - i,
            {
                proof {
                    assert(sv.subrange(0, i + 1) =~= sv.subrange(0, i as int).push(sv[i as int]));
                    sv.subrange(0, i as int).lemma_filter_push(
                        sv[i as int],
                        |c: Seq<char>| t.contains_key(c),
                    );
                }
                let c = ch[i].as_str();
                if state.elements.find(c).is_some() {
                    if nodes.len() + 1 >= limit {
                        truncated = true;
                        i = ch.len();
                    } else {
                        let ghost nodes0 = nodes@;
                        let ghost parents0 = parents@;
                        let ghost kids0 = kids@;
                        let k = build_into(state, c, depth - 1, limit - 1, Ghost(rl), nodes, parents);
                        proof {
                            assert forall|j: int| start <= j < nodes0.len() implies #[trigger] node_ok(
                                t,
                                view,
                                nodes@,
                                parents@,
                                rl,
                                j,
                            ) by {
                                assert(node_ok(t, view, nodes0, parents0, rl, j));
                                assert(0 <= j < nodes0.len());
                                assert(nodes0.len() <= nodes@.len());
                                assert(forall|x: int| 0 <= x < nodes0.len() ==> nodes@[x] == nodes0[x]);
                                assert forall|x: int|
                                    0 <= x < nodes0[j].children@.len() implies parents@[nodes0[j].children@[x] as int]
                                        == parents0[nodes0[j].children@[x] as int] by {
                                    assert(nodes0[j].children@[x] < j);
                                }
                                lemma_node_ok_stable(t, view, nodes0, parents0, nodes@, parents@, rl, j);
                            }
                        }
                        kids.push(k);
                        proof {
                            assert forall|j: int|
                                start <= j < nodes@.len() implies (parents@[j] is None
                                <==> kids@.contains(j as usize)) by {
                                if j < nodes0.len() {
                                    assert(parents@[j] == parents0[j]);
                                    if kids0.contains(j as usize) {
                                        let w = choose|w: int|
                                            0 <= w < kids0.len() && kids0[w] == j as usize;
                                        assert(kids@[w] == j as usize);
                                    }
                                    if kids@.contains(j as usize) {
                                        let w = choose|w: int|
                                            0 <= w < kids@.len() && kids@[w] == j as usize;
                                        if w < kids0.len() {
                                            assert(kids0[w] == j as usize);
                                        }
                                    }
                                } else if j == k {
                                    assert(kids@[kids0.len() as int] == k);
                                } else {
                                    assert(parents@[j] is Some);
                                    if kids@.contains(j as usize) {
                                        let w = choose|w: int|
                                            0 <= w < kids@.len() && kids@[w] == j as usize;
                                        assert(w != kids0.len());
                                        assert(kids0[w] == kids@[w]);
                                        assert(kids0[w] < nodes0.len());
                                    }
                                }
                            }
                            assert(kids@.map_values(|c: usize| nodes@[c as int].id@) =~= kids0.map_values(
                                |c: usize| nodes0[c as int].id@,
                            ).push(c@));
                        }
                        i = i + 1;
                    }
                } else {
                    i = i + 1;
                }
            }
            proof {
                assert(sv.subrange(0, ch@.len() as int) =~= sv);
            }
        }
    }
    let style = map_style(&effective_style(el, state.view_mode.as_str()), &el.layout_mode);
    let q = nodes.len();
    let ghost nodes0 = nodes@;
    let ghost parents0 = parents@;
    let ghost kids0 = kids@;
    nodes.push(LayoutNode { id: owned(id), style, children: kids, truncated, level: depth });
    parents.push(None);
    let n = nodes[q].children.len();
    let mut w: usize = 0;
    while w < n
        invariant
            n == kids0.len(),
            q == nodes0.len(),
            nodes@ == nodes0.push(nodes@[q as int]),
            nodes@[q as int].children@ == kids0,
            parents@.len() == nodes@.len(),
            w <= n,
            forall|j: int|
                0 <= j < parents@.len() ==> #[trigger] parents@[j] == if exists|x: int|
                    0 <= x < w && kids0[x] == j as usize {
                    Some(q)
                } else if j == q {
                    None
                } else {
                    parents0[j]
                },
            forall|k: int| 0 <= k < kids0.len() ==> start <= #[trigger] kids0[k] < q,
        decreases n - w,
    {
        let c = nodes[q].children[w];
        parents.set(c, Some(q));
        proof {
            assert forall|j: int| 0 <= j < parents@.len() implies #[trigger] parents@[j] == if exists|
                x: int,
            |
                0 <= x < w + 1 && kids0[x] == j as usize {
                Some(q)
            } else if j == q {
                None
            } else {
                parents0[j]
            } by {
                if j == c as int {
                    assert(kids0[w as int] == j as usize);
                } else if exists|x: int| 0 <= x < w + 1 && kids0[x] == j as usize {
                    let x = choose|x: int| 0 <= x < w + 1 && kids0[x] == j as usize;
                    assert(x < w);
                }
            }
        }
        w = w + 1;
    }
    proof {
        assert forall|j: int| 0 <= j < parents@.len() implies #[trigger] parents@[j] == if kids0.contains(
            j as usize,
        ) {
            Some(q)
        } else if j == q {
            None
        } else {
            parents0[j]
        } by {
            if kids0.contains(j as usize) {
                let x = choose|x: int| 0 <= x < kids0.len() && kids0[x] == j as usize;
                assert(exists|x: int| 0 <= x < n && kids0[x] == j as usize);
            }
        }
        assert forall|i: int| start <= i < nodes@.len() implies #[trigger] node_ok(
            t,
            view,
            nodes@,
            parents@,
            rl,
            i,
        ) by {
            if i < q {
                assert(node_ok(t, view, nodes0, parents0, rl, i));
                assert forall|k: int| 0 <= k < nodes0[i].children@.len() implies parents@[nodes0[i].children@[k] as int]
                    == parents0[nodes0[i].children@[k] as int] by {
                    let c = nodes0[i].children@[k] as int;
                    assert(parents0[c] == Some(i as usize));
                    assert(c < q);
                    if kids0.contains(c as usize) {
                        assert(parents0[c] is None);
                    }
                }
                lemma_node_ok_stable(t, view, nodes0, parents0, nodes@, parents@, rl, i);
            } else {
                let nd = nodes@[q as int];
                assert forall|k: int| 0 <= k < nd.children@.len() implies #[trigger] nd.children@[k] < i
                    && parents@[nd.children@[k] as int] == Some(i as usize) by {
                    assert(kids0.contains(nd.children@[k]));
                }
                if !truncated {
                    assert(nd.children@.map_values(|c: usize| nodes@[c as int].id@) =~= kids0.map_values(
                        |c: usize| nodes0[c as int].id@,
                    ));
                }
            }
        }
        assert forall|i: int|
            start <= i < nodes@.len() implies (#[trigger] parents@[i] matches Some(p) ==> i < p
            < nodes@.len()) by {
            if kids0.contains(i as usize) {
            } else if i != q {
                assert(parents0[i] == parents@[i]);
            }
        }
        assert forall|j: int| start <= j < nodes@.len() implies (parents@[j] is None <==> j == q) by {
            if j < q {
                if parents0[j] is None {
                    assert(kids0.contains(j as usize));
                }
            }
        }
    }
    q
}

/// A plan is faithful to the document: every node is, the root comes last, and
/// every other node has a parent after it.
pub open spec fn plan_ok(t: crate::document::ElementTable, view: Seq<char>, p: LayoutPlan, root_level: nat) -> bool {
    &&& segment_ok(t, view, p.nodes@, p.parents@, root_level, 0)
    &&& p.nodes@.len() >= 1 ==> p.nodes@.last().level == root_level
    &&& p.nodes@.len() >= 1
    &&& p.nodes@.last().id@ == "root"@
    &&& forall|j: int| 0 <= j < p.nodes@.len() ==> (p.parents@[j] is None <==> j == p.nodes@.len() - 1)
}

/// Builds the constraint tree of the document from the element "root"; none
/// when the document has no root.
pub fn build_plan(state: &ProjectState) -> (r: Option<LayoutPlan>)
    requires
        state.wf(),
    ensures
        r is Some <==> state.elements@.contains_key("root"@),
        r matches Some(p) ==> plan_ok(state.elements@, state.view_mode@, p, state.elements.entries@.len() as nat),
{
    if state.elements.find("root").is_none() {
        return None;
    }
    let mut nodes: Vec<LayoutNode> = Vec::new();
    let mut parents: Vec<Option<usize>> = Vec::new();
    let depth = state.elements.len();
    let _root = build_into(state, "root", depth, PLAN_LIMIT, Ghost(depth as nat), &mut nodes, &mut parents);
    Some(LayoutPlan { nodes, parents })
}

/// Parent links point forward and stay inside the plan.
pub open spec fn parents_ordered(parents: Seq<Option<usize>>) -> bool {
    forall|i: int|
        0 <= i < parents.len() ==> (#[trigger] parents[i] matches Some(p) ==> i < p < parents.len())
}

/// The root-relative coordinate of node `i`: its own offset plus those of all
/// its ancestors.
pub open spec fn absolute_at(parents: Seq<Option<usize>>, rel: Seq<i64>, i: int) -> int
    decreases parents.len() - i,
{
    if 0 <= i < parents.len() {
        match parents[i] {
            Some(p) => if i < p < parents.len() {
                rel[i] + absolute_at(parents, rel, p as int)
            } else {
                rel[i] as int
            },
            None => rel[i] as int,
        }
    } else {
        0
    }
}

proof fn lemma_absolute_bound(parents: Seq<Option<usize>>, rel: Seq<i64>, i: int)
    requires
        0 <= i < parents.len(),
        rel.len() == parents.len(),
        forall|j: int| 0 <= j < rel.len() ==> -MAX_UNITS <= #[trigger] rel[j] <= MAX_UNITS,
    ensures
        -(parents.len() - i) * MAX_UNITS <= absolute_at(parents, rel, i) <= (parents.len() - i)
            * MAX_UNITS,
    decreases parents.len() - i,
{
    match parents[i] {
        Some(p) => if i < p < parents.len() {
            lemma_absolute_bound(parents, rel, p as int);
            assert((parents.len() - p) * MAX_UNITS <= (parents.len() - i - 1) * MAX_UNITS)
                by (nonlinear_arith)
                requires
                    i < p,
            ;
            assert((parents.len() - i - 1) * MAX_UNITS + MAX_UNITS == (parents.len() - i)
                * MAX_UNITS) by (nonlinear_arith);
        } else {
            assert(MAX_UNITS <= (parents.len() - i) * MAX_UNITS) by (nonlinear_arith)
                requires
                    i < parents.len(),
            ;
        },
        None => {
            assert(MAX_UNITS <= (parents.len() - i) * MAX_UNITS) by (nonlinear_arith)
                requires
                    i < parents.len(),
            ;
        },
    }
}

/// Converts parent-relative offsets along one axis to root-relative ones, in a
/// single pass from the root down.
pub fn absolute_positions(parents: &Vec<Option<usize>>, rel: &Vec<i64>) -> (r: Vec<i64>)
    requires
        parents_ordered(parents@),
        rel@.len() == parents@.len(),
        parents@.len() <= PLAN_LIMIT,
        forall|j: int| 0 <= j < rel@.len() ==> -MAX_UNITS <= #[trigger] rel@[j] <= MAX_UNITS,
    ensures
        r@.len() == parents@.len(),
        forall|j: int| 0 <= j < r@.len() ==> #[trigger] r@[j] == absolute_at(parents@, rel@, j),
{
    let n = parents.len();
    let mut out: Vec<i64> = Vec::new();
    let mut k: usize = 0;
    while k < n
        invariant
            k <= n,
            n == parents@.len(),
            out@.len() == k,
        decreases n - k,
    {
        out.push(0);
        k = k + 1;
    }
    let mut i: usize = n;
    while i > 0
        invariant
            i <= n,
            n == parents@.len(),
            n <= PLAN_LIMIT,
            rel@.len() == n,
            out@.len() == n,
            parents_ordered(parents@),
            forall|j: int| 0 <= j < rel@.len() ==> -MAX_UNITS <= #[trigger] rel@[j] <= MAX_UNITS,
            forall|j: int| i <= j < n ==> #[trigger] out@[j] == absolute_at(parents@, rel@, j),
        decreases i,
    {
        i = i - 1;
        proof {
            lemma_absolute_bound(parents@, rel@, i as int);
            assert((n - i) * MAX_UNITS <= PLAN_LIMIT * MAX_UNITS) by (nonlinear_arith)
                requires
                    n <= PLAN_LIMIT,
                    i >= 0,
            ;
        }
        let v = match parents[i] {
            Some(p) => if i < p && p < n {
                rel[i] + out[p]
            } else {
                rel[i]
            },
            None => rel[i],
        };
        out.set(i, v);
    }
    out
}

/// Recomputing root-relative positions from the same plan and the same solver
/// output gives the same positions.
pub proof fn lemma_positions_deterministic(
    parents: Seq<Option<usize>>,
    rel: Seq<i64>,
    first: Seq<i64>,
    second: Seq<i64>,
)
    requires
        first.len() == parents.len(),
        second.len() == parents.len(),
        forall|j: int| 0 <= j < first.len() ==> #[trigger] first[j] == absolute_at(parents, rel, j),
        forall|j: int| 0 <= j < second.len() ==> #[trigger] second[j] == absolute_at(parents, rel, j),
    ensures
        first == second,
{
    assert(first =~= second);
}

} // verus!
