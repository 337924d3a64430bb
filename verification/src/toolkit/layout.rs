//! Pass 2 of layout: hands each node a rectangle and places its children in it,
//! along the main axis for flow containers, into tracks for grids.
//!
//! Placing the children of one node is a function of its rectangle and of the
//! sizes of pass 1 ([`slots_of`]). A whole layout is the list of what is
//! recorded on the way through the tree ([`arranged`]).

use vstd::prelude::*;
use crate::toolkit::arena::{
    lemma_same_tree_is_forest, same_tree, is_forest, rank_of, ranked, Node, NodeId, NodeKind, Ui,
};
use crate::toolkit::geometry::{inset_rect, origin, Point, Rect, Size};
use crate::toolkit::grid::{
    arrange_data_grid, arrange_grid, body_cells, extra_slots, grid_content, grid_slots,
    header_slots, lemma_row_in_range, row_slots, rows_slot, rows_slots, table_content, table_of,
    table_rows, table_slots, Table,
};
use crate::toolkit::measure::{
    axis_is_row, is_row, less_one, line_height, line_of, measure_all, one_less, sizes_agree,
    Metrics, TREE_INDENT,
};
use crate::toolkit::num::{whole, Num};
use crate::toolkit::style::{Align, Direction, Display, Position, Sizing, Style};

verus! {

/// A place for a node. A `deep` slot is arranged with everything in it; of
/// another only the rectangle is recorded, its content has its own slots.
#[derive(Debug, Clone, Copy)]
pub struct Slot<N> {
    pub id: NodeId,
    pub rect: Rect<N>,
    pub deep: bool,
}

/// What layout records of a node.
#[derive(Debug, Clone, Copy)]
pub enum Mark<N> {
    /// Its rectangle.
    Place(NodeId, Rect<N>),
    /// The extent of its content.
    Content(NodeId, Size<N>),
}

// ---- which children are in flow ----

/// Those of the first `n` children of `id` that are in flow (or, if `absolute`,
/// that are not).
pub open spec fn kids_of<N>(nodes: Seq<Node<N>>, id: NodeId, absolute: bool, n: nat) -> Seq<NodeId>
    decreases n,
{
    if n == 0 {
        Seq::empty()
    } else {
        let rest = kids_of(nodes, id, absolute, (n - 1) as nat);
        let c = nodes[id.0 as int].children@[n - 1];
        if (nodes[c.0 as int].style.position == Position::Absolute) == absolute {
            rest.push(c)
        } else {
            rest
        }
    }
}

/// The children of `id` that are in flow (or, if `absolute`, that are not).
pub open spec fn all_kids<N>(nodes: Seq<Node<N>>, id: NodeId, absolute: bool) -> Seq<NodeId> {
    kids_of(nodes, id, absolute, nodes[id.0 as int].children@.len())
}

/// Every node of `kids` is in range and ranks below `bound`.
pub open spec fn all_below<N>(
    nodes: Seq<Node<N>>,
    rank: spec_fn(int) -> nat,
    kids: Seq<NodeId>,
    bound: nat,
) -> bool {
    forall|k: int|
        0 <= k < kids.len() ==> (#[trigger] kids[k]).0 < nodes.len() && rank(kids[k].0 as int)
            < bound
}

pub proof fn lemma_kids_below<N>(
    nodes: Seq<Node<N>>,
    rank: spec_fn(int) -> nat,
    id: NodeId,
    absolute: bool,
    n: nat,
)
    requires
        ranked(nodes, rank),
        id.0 < nodes.len(),
        n <= nodes[id.0 as int].children@.len(),
    ensures
        all_below(nodes, rank, kids_of(nodes, id, absolute, n), rank(id.0 as int)),
        kids_of(nodes, id, absolute, n).len() <= n,
    decreases n,
{
    if n > 0 {
        lemma_kids_below(nodes, rank, id, absolute, (n - 1) as nat);
    }
}

pub fn split_kids<N: Num>(nodes: &Vec<Node<N>>, id: NodeId, absolute: bool) -> (r: Vec<NodeId>)
    requires
        is_forest(nodes@),
        id.0 < nodes@.len(),
    ensures
        r@ == all_kids(nodes@, id, absolute),
{
    let children: &Vec<NodeId> = &nodes[id.0 as usize].children;
    let mut out: Vec<NodeId> = Vec::new();
    let mut k: usize = 0;
    let ghost rank = rank_of(nodes@);
    while k < children.len()
        invariant
            0 <= k <= children@.len(),
            ranked(nodes@, rank),
            id.0 < nodes@.len(),
            children == nodes@[id.0 as int].children,
            out@ == kids_of(nodes@, id, absolute, k as nat),
        decreases children@.len() - k,
    {
        let c: NodeId = children[k];
        assert(nodes@[id.0 as int].children@[k as int] == c);
        if (nodes[c.0 as usize].style.position == Position::Absolute) == absolute {
            out.push(c);
        }
        k = k + 1;
    }
    out
}

// ---- flow ----

/// A flow container's inner box and how it places children.
#[derive(Debug, Clone, Copy)]
pub struct FlowBox<N> {
    pub direction: Direction,
    pub gap: N,
    pub align_main: Align,
    pub align_cross: Align,
    pub scroll_x: bool,
    pub scroll_y: bool,
    pub inner: Rect<N>,
    pub scroll: Point<N>,
}

impl<N: Num> FlowBox<N> {
    pub open spec fn row(&self) -> bool {
        is_row(self.direction)
    }

    pub open spec fn reversed(&self) -> bool {
        self.direction == Direction::RowReverse || self.direction == Direction::ColumnReverse
    }

    pub open spec fn avail_main(&self) -> N {
        if self.row() {
            self.inner.w
        } else {
            self.inner.h
        }
    }

    pub open spec fn avail_cross(&self) -> N {
        if self.row() {
            self.inner.h
        } else {
            self.inner.w
        }
    }
}

pub open spec fn main_sizing<N>(style: Style<N>, row: bool) -> Sizing<N> {
    if row {
        style.width
    } else {
        style.height
    }
}

pub open spec fn main_of<N>(s: Size<N>, row: bool) -> N {
    if row {
        s.w
    } else {
        s.h
    }
}

/// The main extent of a child that does not share leftover space.
pub open spec fn settled_extent<N: Num>(
    nodes: Seq<Node<N>>,
    sizes: Seq<Size<N>>,
    f: FlowBox<N>,
    c: NodeId,
) -> Option<N> {
    match main_sizing(nodes[c.0 as int].style, f.row()) {
        Sizing::Fill(_) => None,
        Sizing::Fixed(v) => Some(v),
        Sizing::Percent(p) => Some(N::mul_of(p, f.avail_main())),
        Sizing::Hug => Some(main_of(sizes[c.0 as int], f.row())),
    }
}

/// The sum of the settled extents of the first `n` of `kids`.
pub open spec fn settled_sum<N: Num>(
    nodes: Seq<Node<N>>,
    sizes: Seq<Size<N>>,
    f: FlowBox<N>,
    kids: Seq<NodeId>,
    n: nat,
) -> N
    decreases n,
{
    if n == 0 {
        whole(0)
    } else {
        let sum = settled_sum(nodes, sizes, f, kids, (n - 1) as nat);
        match settled_extent(nodes, sizes, f, kids[n - 1]) {
            Some(v) => N::add_of(sum, v),
            None => sum,
        }
    }
}

/// The sum of the weights of those of the first `n` of `kids` that share
/// leftover space.
pub open spec fn weight_sum<N: Num>(
    nodes: Seq<Node<N>>,
    f: FlowBox<N>,
    kids: Seq<NodeId>,
    n: nat,
) -> N
    decreases n,
{
    if n == 0 {
        whole(0)
    } else {
        let sum = weight_sum(nodes, f, kids, (n - 1) as nat);
        match main_sizing(nodes[kids[n - 1].0 as int].style, f.row()) {
            Sizing::Fill(w) => N::add_of(sum, w),
            _ => sum,
        }
    }
}

/// The gaps between `n` children.
pub open spec fn gaps_of<N: Num>(gap: N, n: nat) -> N {
    N::mul_of(gap, N::count_of(less_one(n)))
}

/// The space that is left along the main axis.
pub open spec fn leftover_of<N: Num>(
    nodes: Seq<Node<N>>,
    sizes: Seq<Size<N>>,
    f: FlowBox<N>,
    kids: Seq<NodeId>,
) -> N {
    N::max_of(
        N::sub_of(
            N::sub_of(f.avail_main(), settled_sum(nodes, sizes, f, kids, kids.len())),
            gaps_of(f.gap, kids.len()),
        ),
        whole(0),
    )
}

/// The main extent of a child: its own, or its share of the leftover space.
pub open spec fn main_extent<N: Num>(
    nodes: Seq<Node<N>>,
    sizes: Seq<Size<N>>,
    f: FlowBox<N>,
    leftover: N,
    weights: N,
    c: NodeId,
) -> N {
    match settled_extent(nodes, sizes, f, c) {
        Some(v) => v,
        None => match main_sizing(nodes[c.0 as int].style, f.row()) {
            Sizing::Fill(w) => N::mul_of(leftover, N::div_of(w, weights)),
            _ => whole(0),
        },
    }
}

/// The cross extent of a child.
pub open spec fn cross_extent<N: Num>(
    nodes: Seq<Node<N>>,
    sizes: Seq<Size<N>>,
    f: FlowBox<N>,
    c: NodeId,
) -> N {
    match main_sizing(nodes[c.0 as int].style, !f.row()) {
        Sizing::Fixed(v) => v,
        Sizing::Percent(p) => N::mul_of(p, f.avail_cross()),
        Sizing::Fill(_) => f.avail_cross(),
        Sizing::Hug => main_of(sizes[c.0 as int], !f.row()),
    }
}

pub open spec fn align_offset<N: Num>(align: Align, slack: N) -> N {
    match align {
        Align::Start => whole(0),
        Align::Center => N::div_of(slack, whole(2)),
        Align::End => slack,
    }
}

/// Where the first child starts on the main axis: leftover space that nobody
/// shares goes where the alignment says.
pub open spec fn flow_start<N: Num>(f: FlowBox<N>, leftover: N, weights: N) -> N {
    let at = if f.row() {
        f.inner.x
    } else {
        f.inner.y
    };
    if N::eq_of(weights, whole(0)) {
        N::add_of(at, align_offset(f.align_main, leftover))
    } else {
        at
    }
}

/// The children in the order in which they are placed.
pub open spec fn flow_order(reversed: bool, kids: Seq<NodeId>) -> Seq<NodeId> {
    if reversed {
        kids.reverse()
    } else {
        kids
    }
}

/// Where the `k`th child placed starts on the main axis.
pub open spec fn flow_cursor<N: Num>(
    nodes: Seq<Node<N>>,
    sizes: Seq<Size<N>>,
    f: FlowBox<N>,
    leftover: N,
    weights: N,
    order: Seq<NodeId>,
    k: nat,
) -> N
    decreases k,
{
    if k == 0 {
        flow_start(f, leftover, weights)
    } else {
        N::add_of(
            flow_cursor(nodes, sizes, f, leftover, weights, order, (k - 1) as nat),
            N::add_of(main_extent(nodes, sizes, f, leftover, weights, order[k - 1]), f.gap),
        )
    }
}

/// A `Relative` child is nudged by its own offsets, a scrolled one by the pan.
pub open spec fn nudged<N: Num>(style: Style<N>, f: FlowBox<N>, r: Rect<N>) -> Rect<N> {
    let relative = style.position == Position::Relative;
    let x1 = if !relative {
        r.x
    } else if style.left is Some {
        N::add_of(r.x, style.left->0)
    } else if style.right is Some {
        N::sub_of(r.x, style.right->0)
    } else {
        r.x
    };
    let y1 = if !relative {
        r.y
    } else if style.top is Some {
        N::add_of(r.y, style.top->0)
    } else if style.bottom is Some {
        N::sub_of(r.y, style.bottom->0)
    } else {
        r.y
    };
    panned(f.scroll_x, f.scroll_y, f.scroll, Rect { x: x1, y: y1, ..r })
}

/// A rectangle panned along the axes that scroll.
pub open spec fn panned<N: Num>(sx: bool, sy: bool, by: Point<N>, r: Rect<N>) -> Rect<N> {
    Rect {
        x: if sx {
            N::sub_of(r.x, by.x)
        } else {
            r.x
        },
        y: if sy {
            N::sub_of(r.y, by.y)
        } else {
            r.y
        },
        ..r
    }
}

/// The rectangle of a child that starts at `cursor`.
pub open spec fn flow_rect<N: Num>(
    nodes: Seq<Node<N>>,
    sizes: Seq<Size<N>>,
    f: FlowBox<N>,
    cursor: N,
    extent: N,
    c: NodeId,
) -> Rect<N> {
    let cross = cross_extent(nodes, sizes, f, c);
    let off = align_offset(f.align_cross, N::sub_of(f.avail_cross(), cross));
    let r = if f.row() {
        Rect { x: cursor, y: N::add_of(f.inner.y, off), w: extent, h: cross }
    } else {
        Rect { x: N::add_of(f.inner.x, off), y: cursor, w: cross, h: extent }
    };
    nudged(nodes[c.0 as int].style, f, r)
}

/// The places of a flow container's children.
pub open spec fn flow_slots<N: Num>(
    nodes: Seq<Node<N>>,
    sizes: Seq<Size<N>>,
    f: FlowBox<N>,
    kids: Seq<NodeId>,
) -> Seq<Slot<N>> {
    let leftover = leftover_of(nodes, sizes, f, kids);
    let weights = weight_sum(nodes, f, kids, kids.len());
    let order = flow_order(f.reversed(), kids);
    Seq::new(
        kids.len(),
        |k: int|
            Slot {
                id: order[k],
                rect: flow_rect(
                    nodes,
                    sizes,
                    f,
                    flow_cursor(nodes, sizes, f, leftover, weights, order, k as nat),
                    main_extent(nodes, sizes, f, leftover, weights, order[k]),
                    order[k],
                ),
                deep: true,
            },
    )
}

/// The largest cross extent of the first `n` children placed.
pub open spec fn cross_max<N: Num>(
    nodes: Seq<Node<N>>,
    sizes: Seq<Size<N>>,
    f: FlowBox<N>,
    order: Seq<NodeId>,
    n: nat,
) -> N
    decreases n,
{
    if n == 0 {
        whole(0)
    } else {
        N::max_of(
            cross_max(nodes, sizes, f, order, (n - 1) as nat),
            cross_extent(nodes, sizes, f, order[n - 1]),
        )
    }
}

/// The extent of a flow container's content.
pub open spec fn flow_content<N: Num>(
    nodes: Seq<Node<N>>,
    sizes: Seq<Size<N>>,
    f: FlowBox<N>,
    kids: Seq<NodeId>,
) -> Size<N> {
    let main = if N::lt_of(whole(0), weight_sum(nodes, f, kids, kids.len())) {
        f.avail_main()
    } else {
        N::add_of(settled_sum(nodes, sizes, f, kids, kids.len()), gaps_of(f.gap, kids.len()))
    };
    let cross = cross_max(nodes, sizes, f, flow_order(f.reversed(), kids), kids.len());
    if f.row() {
        Size { w: main, h: cross }
    } else {
        Size { w: cross, h: main }
    }
}

fn sizing_on<N: Num>(style: &Style<N>, row: bool) -> (r: Sizing<N>)
    ensures
        r == main_sizing(*style, row),
{
    if row {
        style.width
    } else {
        style.height
    }
}

fn extent_on<N: Num>(s: Size<N>, row: bool) -> (r: N)
    ensures
        r == main_of(s, row),
{
    if row {
        s.w
    } else {
        s.h
    }
}

fn offset_for<N: Num>(align: Align, slack: N) -> (r: N)
    ensures
        r == align_offset(align, slack),
{
    match align {
        Align::Start => N::ratio(0, 1),
        Align::Center => slack.over(N::ratio(2, 1)),
        Align::End => slack,
    }
}

pub fn pan<N: Num>(sx: bool, sy: bool, by: Point<N>, r: Rect<N>) -> (p: Rect<N>)
    ensures
        p == panned(sx, sy, by, r),
{
    let x: N = if sx {
        r.x.minus(by.x)
    } else {
        r.x
    };
    let y: N = if sy {
        r.y.minus(by.y)
    } else {
        r.y
    };
    Rect { x, y, w: r.w, h: r.h }
}

fn nudge<N: Num>(style: &Style<N>, f: &FlowBox<N>, r: Rect<N>) -> (p: Rect<N>)
    ensures
        p == nudged(*style, *f, r),
{
    let mut x: N = r.x;
    let mut y: N = r.y;
    if style.position == Position::Relative {
        if let Some(l) = style.left {
            x = x.plus(l);
        } else if let Some(rt) = style.right {
            x = x.minus(rt);
        }
        if let Some(t) = style.top {
            y = y.plus(t);
        } else if let Some(b) = style.bottom {
            y = y.minus(b);
        }
    }
    pan(f.scroll_x, f.scroll_y, f.scroll, Rect { x, y, w: r.w, h: r.h })
}

fn reverse_ids(kids: &Vec<NodeId>, reversed: bool) -> (r: Vec<NodeId>)
    ensures
        r@ == flow_order(reversed, kids@),
{
    let n: usize = kids.len();
    let mut out: Vec<NodeId> = Vec::new();
    let mut k: usize = 0;
    while k < n
        invariant
            0 <= k <= n,
            n == kids@.len(),
            out@ =~= flow_order(reversed, kids@).take(k as int),
        decreases n - k,
    {
        let c: NodeId = if reversed {
            kids[n - 1 - k]
        } else {
            kids[k]
        };
        out.push(c);
        k = k + 1;
    }
    assert(out@ =~= flow_order(reversed, kids@));
    out
}

/// All of `kids` are in range.
pub open spec fn in_range<N>(nodes: Seq<Node<N>>, kids: Seq<NodeId>) -> bool {
    forall|k: int| 0 <= k < kids.len() ==> (#[trigger] kids[k]).0 < nodes.len()
}

fn settled<N: Num>(
    nodes: &Vec<Node<N>>,
    sizes: &Vec<Size<N>>,
    f: &FlowBox<N>,
    row: bool,
    avail: N,
    c: NodeId,
) -> (r: Option<N>)
    requires
        c.0 < nodes@.len(),
        sizes@.len() == nodes@.len(),
        row == f.row(),
        avail == f.avail_main(),
    ensures
        r == settled_extent(nodes@, sizes@, *f, c),
{
    match sizing_on(&nodes[c.0 as usize].style, row) {
        Sizing::Fill(_) => None,
        Sizing::Fixed(v) => Some(v),
        Sizing::Percent(p) => Some(p.times(avail)),
        Sizing::Hug => Some(extent_on(sizes[c.0 as usize], row)),
    }
}

/// Places the children of a flow container.
pub fn arrange_flow<N: Num>(
    nodes: &Vec<Node<N>>,
    sizes: &Vec<Size<N>>,
    f: &FlowBox<N>,
    kids: &Vec<NodeId>,
) -> (r: (Vec<Slot<N>>, Size<N>))
    requires
        in_range(nodes@, kids@),
        sizes@.len() == nodes@.len(),
    ensures
        r.0@ == flow_slots(nodes@, sizes@, *f, kids@),
        r.1 == flow_content(nodes@, sizes@, *f, kids@),
{
    let n: usize = kids.len();
    let row: bool = axis_is_row(f.direction);
    let reversed: bool = match f.direction {
        Direction::RowReverse | Direction::ColumnReverse => true,
        _ => false,
    };
    let avail_main: N = if row {
        f.inner.w
    } else {
        f.inner.h
    };
    let avail_cross: N = if row {
        f.inner.h
    } else {
        f.inner.w
    };
    let mut fixed: N = N::ratio(0, 1);
    let mut weights: N = N::ratio(0, 1);
    let mut k: usize = 0;
    while k < n
        invariant
            0 <= k <= n,
            n == kids@.len(),
            in_range(nodes@, kids@),
            sizes@.len() == nodes@.len(),
            row == f.row(),
            avail_main == f.avail_main(),
            fixed == settled_sum(nodes@, sizes@, *f, kids@, k as nat),
            weights == weight_sum(nodes@, *f, kids@, k as nat),
        decreases n - k,
    {
        let c: NodeId = kids[k];
        match settled(nodes, sizes, f, row, avail_main, c) {
            Some(v) => {
                fixed = fixed.plus(v);
            },
            None => {
                if let Sizing::Fill(w) = sizing_on(&nodes[c.0 as usize].style, row) {
                    weights = weights.plus(w);
                }
            },
        }
        k = k + 1;
    }
    let zero: N = N::ratio(0, 1);
    let gaps: N = f.gap.times(N::count(one_less(n)));
    let leftover: N = avail_main.minus(fixed).minus(gaps).greater_of(zero);
    let mut cursor: N = if row {
        f.inner.x
    } else {
        f.inner.y
    };
    if weights.same(zero) {
        cursor = cursor.plus(offset_for(f.align_main, leftover));
    }
    let order: Vec<NodeId> = reverse_ids(kids, reversed);
    let ghost want = flow_slots(nodes@, sizes@, *f, kids@);
    assert forall|j: int| 0 <= j < order@.len() implies (#[trigger] order@[j]).0 < nodes@.len() by {
        if reversed {
            assert(order@[j] == kids@[n - 1 - j]);
        } else {
            assert(order@[j] == kids@[j]);
        }
    }
    let mut slots: Vec<Slot<N>> = Vec::new();
    let mut cross_most: N = zero;
    let mut i: usize = 0;
    while i < n
        invariant
            0 <= i <= n,
            n == kids@.len(),
            order@ == flow_order(reversed, kids@),
            order@.len() == n,
            reversed == f.reversed(),
            row == f.row(),
            avail_main == f.avail_main(),
            avail_cross == f.avail_cross(),
            sizes@.len() == nodes@.len(),
            forall|j: int| 0 <= j < order@.len() ==> (#[trigger] order@[j]).0 < nodes@.len(),
            leftover == leftover_of(nodes@, sizes@, *f, kids@),
            weights == weight_sum(nodes@, *f, kids@, kids@.len()),
            want == flow_slots(nodes@, sizes@, *f, kids@),
            cursor == flow_cursor(nodes@, sizes@, *f, leftover, weights, order@, i as nat),
            cross_most == cross_max(nodes@, sizes@, *f, order@, i as nat),
            slots@ == want.take(i as int),
        decreases n - i,
    {
        let c: NodeId = order[i];
        let style: &Style<N> = &nodes[c.0 as usize].style;
        let extent: N = match settled(nodes, sizes, f, row, avail_main, c) {
            Some(v) => v,
            None => match sizing_on(style, row) {
                Sizing::Fill(w) => leftover.times(w.over(weights)),
                _ => N::ratio(0, 1),
            },
        };
        let cross: N = match sizing_on(style, !row) {
            Sizing::Fixed(v) => v,
            Sizing::Percent(p) => p.times(avail_cross),
            Sizing::Fill(_) => avail_cross,
            Sizing::Hug => extent_on(sizes[c.0 as usize], !row),
        };
        let off: N = offset_for(f.align_cross, avail_cross.minus(cross));
        cross_most = cross_most.greater_of(cross);
        let rect: Rect<N> = if row {
            Rect { x: cursor, y: f.inner.y.plus(off), w: extent, h: cross }
        } else {
            Rect { x: f.inner.x.plus(off), y: cursor, w: cross, h: extent }
        };
        let slot = Slot { id: c, rect: nudge(style, f, rect), deep: true };
        assert(slot == want[i as int]);
        slots.push(slot);
        cursor = cursor.plus(extent.plus(f.gap));
        i = i + 1;
        assert(slots@ =~= want.take(i as int));
    }
    assert(want.take(n as int) =~= want);
    let main: N = if zero.less(weights) {
        avail_main
    } else {
        fixed.plus(gaps)
    };
    let size: Size<N> = if row {
        Size { w: main, h: cross_most }
    } else {
        Size { w: cross_most, h: main }
    };
    (slots, size)
}

// ---- placing the children of one node ----

/// The box that a node's content goes into.
pub open spec fn inner_box<N: Num>(style: Style<N>, rect: Rect<N>) -> Rect<N> {
    inset_rect(inset_rect(rect, style.padding), style.border_width)
}

/// A flow container's box.
pub open spec fn flow_box<N>(style: Style<N>, inner: Rect<N>, scroll: Point<N>) -> FlowBox<N> {
    FlowBox {
        direction: style.direction,
        gap: style.gap,
        align_main: style.align_main,
        align_cross: style.align_cross,
        scroll_x: style.scroll_x,
        scroll_y: style.scroll_y,
        inner,
        scroll,
    }
}

/// The box of the children of a tree row: below the row, and indented.
pub open spec fn tree_box<N: Num>(style: Style<N>, inner: Rect<N>) -> FlowBox<N> {
    let row_h = line_of(style.font_size);
    FlowBox {
        direction: Direction::Column,
        gap: whole(0),
        align_main: Align::Start,
        align_cross: Align::Start,
        scroll_x: false,
        scroll_y: false,
        inner: Rect {
            x: N::add_of(inner.x, whole(TREE_INDENT as int)),
            y: N::add_of(inner.y, row_h),
            w: N::max_of(N::sub_of(inner.w, whole(TREE_INDENT as int)), whole(0)),
            h: N::max_of(N::sub_of(inner.h, row_h), whole(0)),
        },
        scroll: origin(),
    }
}

/// Whether a tree row shows no children.
pub open spec fn is_collapsed<N>(kind: NodeKind<N>) -> bool {
    match kind {
        NodeKind::TreeViewItem { collapsed, .. } => collapsed,
        _ => false,
    }
}

/// The places in node `id`, which has the rectangle `rect`.
pub open spec fn slots_of<N: Num>(
    nodes: Seq<Node<N>>,
    sizes: Seq<Size<N>>,
    id: NodeId,
    rect: Rect<N>,
) -> Seq<Slot<N>> {
    let node = nodes[id.0 as int];
    let inner = inner_box(node.style, rect);
    let kids = all_kids(nodes, id, false);
    if node.kind is DataGrid {
        table_slots(nodes, sizes, kids, inner)
    } else if node.kind is TreeViewItem {
        if is_collapsed(node.kind) || kids.len() == 0 {
            Seq::empty()
        } else {
            flow_slots(nodes, sizes, tree_box(node.style, inner), kids)
        }
    } else if node.style.display == Display::Grid {
        grid_slots(nodes, sizes, node.style, kids, inner, node.scroll_offset)
    } else {
        flow_slots(nodes, sizes, flow_box(node.style, inner, node.scroll_offset), kids)
    }
}

/// The extent of the content of node `id`.
pub open spec fn content_of<N: Num>(
    nodes: Seq<Node<N>>,
    sizes: Seq<Size<N>>,
    id: NodeId,
    rect: Rect<N>,
) -> Size<N> {
    let node = nodes[id.0 as int];
    let inner = inner_box(node.style, rect);
    let kids = all_kids(nodes, id, false);
    if node.kind is DataGrid {
        table_content(nodes, sizes, kids, inner)
    } else if node.kind is TreeViewItem {
        let row_h = line_of(node.style.font_size);
        if is_collapsed(node.kind) || kids.len() == 0 {
            Size { w: inner.w, h: row_h }
        } else {
            let c = flow_content(nodes, sizes, tree_box(node.style, inner), kids);
            Size {
                w: N::max_of(inner.w, N::add_of(c.w, whole(TREE_INDENT as int))),
                h: N::add_of(row_h, c.h),
            }
        }
    } else if node.style.display == Display::Grid {
        grid_content(nodes, sizes, node.style, kids, inner)
    } else {
        flow_content(nodes, sizes, flow_box(node.style, inner, node.scroll_offset), kids)
    }
}

/// Every slot's node is in range and ranks below `bound`.
pub open spec fn slots_below<N>(
    nodes: Seq<Node<N>>,
    rank: spec_fn(int) -> nat,
    slots: Seq<Slot<N>>,
    bound: nat,
) -> bool {
    forall|k: int|
        0 <= k < slots.len() ==> (#[trigger] slots[k]).id.0 < nodes.len() && rank(
            slots[k].id.0 as int,
        ) < bound
}

pub proof fn lemma_flow_slots_below<N: Num>(
    nodes: Seq<Node<N>>,
    rank: spec_fn(int) -> nat,
    sizes: Seq<Size<N>>,
    f: FlowBox<N>,
    kids: Seq<NodeId>,
    bound: nat,
)
    requires
        all_below(nodes, rank, kids, bound),
    ensures
        slots_below(nodes, rank, flow_slots(nodes, sizes, f, kids), bound),
{
    let slots = flow_slots(nodes, sizes, f, kids);
    assert forall|k: int| 0 <= k < slots.len() implies (#[trigger] slots[k]).id.0 < nodes.len()
        && rank(slots[k].id.0 as int) < bound by {
        if f.reversed() {
            assert(slots[k].id == kids[kids.len() - 1 - k]);
        } else {
            assert(slots[k].id == kids[k]);
        }
    }
}

proof fn lemma_table_slots_below<N: Num>(
    nodes: Seq<Node<N>>,
    rank: spec_fn(int) -> nat,
    sizes: Seq<Size<N>>,
    kids: Seq<NodeId>,
    inner: Rect<N>,
    bound: nat,
)
    requires
        ranked(nodes, rank),
        all_below(nodes, rank, kids, bound),
    ensures
        slots_below(nodes, rank, table_slots(nodes, sizes, kids, inner), bound),
{
    if kids.len() > 0 {
        let t = table_of(nodes, sizes, kids, inner);
        let hs = header_slots(t, inner);
        assert forall|k: int| 0 <= k < hs.len() implies (#[trigger] hs[k]).id.0 < nodes.len()
            && rank(hs[k].id.0 as int) < bound by {
            assert(nodes[kids[0].0 as int].children@[k] == hs[k].id);
            assert(rank(kids[0].0 as int) < bound);
        }
        lemma_rows_slots_below(nodes, rank, sizes, kids, t, inner, t.nrows, bound);
        let es = extra_slots(sizes, t, kids, inner);
        assert forall|k: int| 0 <= k < es.len() implies (#[trigger] es[k]).id.0 < nodes.len()
            && rank(es[k].id.0 as int) < bound by {
            assert(es[k].id == kids[k + 2]);
        }
        let all = table_slots(nodes, sizes, kids, inner);
        let rs = rows_slots(sizes, t, inner, t.nrows);
        let b = if kids.len() < 2 {
            Seq::<Slot<N>>::empty()
        } else {
            seq![rows_slot(t, kids, inner)]
        };
        let n1 = hs.len() as int;
        let n2 = n1 + 1;
        let n3 = n2 + rs.len();
        let n4 = n3 + b.len();
        assert forall|k: int| 0 <= k < all.len() implies (#[trigger] all[k]).id.0 < nodes.len()
            && rank(all[k].id.0 as int) < bound by {
            if k < n1 {
                assert(all[k] == hs[k]);
            } else if k < n2 {
                assert(all[k].id == kids[0]);
            } else if k < n3 {
                assert(all[k] == rs[k - n2]);
            } else if k < n4 {
                assert(all[k].id == kids[1]);
            } else {
                assert(all[k] == es[k - n4]);
            }
        }
    }
}

proof fn lemma_rows_slots_below<N: Num>(
    nodes: Seq<Node<N>>,
    rank: spec_fn(int) -> nat,
    sizes: Seq<Size<N>>,
    kids: Seq<NodeId>,
    t: Table<N>,
    inner: Rect<N>,
    n: nat,
    bound: nat,
)
    requires
        ranked(nodes, rank),
        all_below(nodes, rank, kids, bound),
        t.body == body_cells(nodes, kids),
        t.nrows == table_rows(t.body.len(), t.head.len()),
        n <= t.nrows,
    ensures
        slots_below(nodes, rank, rows_slots(sizes, t, inner, n), bound),
    decreases n,
{
    if n > 0 {
        lemma_rows_slots_below(nodes, rank, sizes, kids, t, inner, (n - 1) as nat, bound);
        let before = rows_slots(sizes, t, inner, (n - 1) as nat);
        let row = row_slots(sizes, t, inner, n - 1);
        lemma_row_in_range(t.body.len(), t.head.len(), (n - 1) as nat);
        let all = rows_slots(sizes, t, inner, n);
        assert forall|k: int| 0 <= k < all.len() implies (#[trigger] all[k]).id.0 < nodes.len()
            && rank(all[k].id.0 as int) < bound by {
            if k < before.len() {
                assert(all[k] == before[k]);
            } else {
                let c = k - before.len();
                assert(all[k] == row[c]);
                let at = (n - 1) * t.head.len() + c;
                assert(t.body.len() > 0);
                assert(kids.len() >= 2);
                assert(nodes[kids[1].0 as int].children@[at] == row[c].id);
                assert(rank(kids[1].0 as int) < bound);
            }
        }
    }
}

/// What is placed in a node is below it in the tree.
pub proof fn lemma_slots_below<N: Num>(
    nodes: Seq<Node<N>>,
    rank: spec_fn(int) -> nat,
    sizes: Seq<Size<N>>,
    id: NodeId,
    rect: Rect<N>,
)
    requires
        ranked(nodes, rank),
        id.0 < nodes.len(),
    ensures
        slots_below(nodes, rank, slots_of(nodes, sizes, id, rect), rank(id.0 as int)),
{
    let node = nodes[id.0 as int];
    let inner = inner_box(node.style, rect);
    let bound = rank(id.0 as int);
    let kids = all_kids(nodes, id, false);
    lemma_kids_below(nodes, rank, id, false, node.children@.len());
    lemma_table_slots_below(nodes, rank, sizes, kids, inner, bound);
    lemma_flow_slots_below(nodes, rank, sizes, tree_box(node.style, inner), kids, bound);
    lemma_flow_slots_below(
        nodes,
        rank,
        sizes,
        flow_box(node.style, inner, node.scroll_offset),
        kids,
        bound,
    );
    let gs = grid_slots(nodes, sizes, node.style, kids, inner, node.scroll_offset);
    assert forall|k: int| 0 <= k < gs.len() implies (#[trigger] gs[k]).id.0 < nodes.len() && rank(
        gs[k].id.0 as int,
    ) < bound by {
        assert(gs[k].id == kids[k]);
    }
}

/// The places in node `id`, and the extent of its content.
fn place_children<N: Num>(
    nodes: &Vec<Node<N>>,
    sizes: &Vec<Size<N>>,
    id: NodeId,
    rect: Rect<N>,
) -> (r: (Vec<Slot<N>>, Size<N>))
    requires
        is_forest(nodes@),
        id.0 < nodes@.len(),
        sizes@.len() == nodes@.len(),
    ensures
        r.0@ == slots_of(nodes@, sizes@, id, rect),
        r.1 == content_of(nodes@, sizes@, id, rect),
{
    let node: &Node<N> = &nodes[id.0 as usize];
    let style: &Style<N> = &node.style;
    let inner: Rect<N> = rect.inset(style.padding).inset(style.border_width);
    let kids: Vec<NodeId> = split_kids(nodes, id, false);
    proof {
        lemma_kids_below(nodes@, rank_of(nodes@), id, false, node.children@.len());
        assert(in_range(nodes@, kids@)) by {
            assert forall|k: int| 0 <= k < kids@.len() implies (#[trigger] kids@[k]).0
                < nodes@.len() by {}
        }
    }
    match &node.kind {
        NodeKind::DataGrid => arrange_data_grid(nodes, sizes, &kids, inner),
        NodeKind::TreeViewItem { collapsed, .. } => {
            let row_h: N = line_height(style.font_size);
            if *collapsed || kids.len() == 0 {
                let none: Vec<Slot<N>> = Vec::new();
                assert(none@ =~= slots_of(nodes@, sizes@, id, rect));
                return (none, Size { w: inner.w, h: row_h });
            }
            let indent: N = N::ratio(TREE_INDENT, 1);
            let zero: N = N::ratio(0, 1);
            let f = FlowBox {
                direction: Direction::Column,
                gap: zero,
                align_main: Align::Start,
                align_cross: Align::Start,
                scroll_x: false,
                scroll_y: false,
                inner: Rect {
                    x: inner.x.plus(indent),
                    y: inner.y.plus(row_h),
                    w: inner.w.minus(indent).greater_of(zero),
                    h: inner.h.minus(row_h).greater_of(zero),
                },
                scroll: Point::default(),
            };
            let (slots, c) = arrange_flow(nodes, sizes, &f, &kids);
            (slots, Size { w: inner.w.greater_of(c.w.plus(indent)), h: row_h.plus(c.h) })
        },
        _ => {
            if style.display == Display::Grid {
                arrange_grid(nodes, sizes, style, &kids, inner, node.scroll_offset)
            } else {
                let f = box_of(style, inner, node.scroll_offset);
                arrange_flow(nodes, sizes, &f, &kids)
            }
        },
    }
}

fn box_of<N: Num>(style: &Style<N>, inner: Rect<N>, scroll: Point<N>) -> (r: FlowBox<N>)
    ensures
        r == flow_box(*style, inner, scroll),
{
    FlowBox {
        direction: style.direction,
        gap: style.gap,
        align_main: style.align_main,
        align_cross: style.align_cross,
        scroll_x: style.scroll_x,
        scroll_y: style.scroll_y,
        inner,
        scroll,
    }
}

// ---- absolute placement ----

pub open spec fn absolute_extent<N: Num>(sizing: Sizing<N>, natural: N, containing: N) -> N {
    match sizing {
        Sizing::Fixed(v) => v,
        Sizing::Percent(p) => N::mul_of(p, containing),
        Sizing::Fill(_) => containing,
        Sizing::Hug => natural,
    }
}

/// Start and extent on one axis, from the offsets at either end. Offsets at both
/// ends of a hugging node give its extent.
pub open spec fn absolute_span<N: Num>(
    near: Option<N>,
    far: Option<N>,
    sizing: Sizing<N>,
    natural: N,
    start: N,
    length: N,
) -> (N, N) {
    let extent = absolute_extent(sizing, natural, length);
    match (near, far) {
        (Some(a), Some(b)) => if sizing is Hug {
            (
                N::add_of(start, a),
                N::max_of(N::sub_of(N::sub_of(length, a), b), whole(0)),
            )
        } else {
            (N::add_of(start, a), extent)
        },
        (Some(a), None) => (N::add_of(start, a), extent),
        (None, Some(b)) => (N::sub_of(N::sub_of(N::add_of(start, length), b), extent), extent),
        (None, None) => (start, extent),
    }
}

/// The rectangle of an out-of-flow node in its containing block.
pub open spec fn absolute_rect<N: Num>(style: Style<N>, natural: Size<N>, block: Rect<N>) -> Rect<N> {
    let (x, w) = absolute_span(
        style.left,
        style.right,
        style.width,
        natural.w,
        block.x,
        block.w,
    );
    let (y, h) = absolute_span(
        style.top,
        style.bottom,
        style.height,
        natural.h,
        block.y,
        block.h,
    );
    Rect { x, y, w, h }
}

fn resolve_absolute_extent<N: Num>(sizing: Sizing<N>, natural: N, containing: N) -> (r: N)
    ensures
        r == absolute_extent(sizing, natural, containing),
{
    match sizing {
        Sizing::Fixed(v) => v,
        Sizing::Percent(p) => p.times(containing),
        Sizing::Fill(_) => containing,
        Sizing::Hug => natural,
    }
}

fn span_absolute<N: Num>(
    near: Option<N>,
    far: Option<N>,
    sizing: Sizing<N>,
    natural: N,
    start: N,
    length: N,
) -> (r: (N, N))
    ensures
        r == absolute_span(near, far, sizing, natural, start, length),
{
    let extent: N = resolve_absolute_extent(sizing, natural, length);
    match (near, far) {
        (Some(a), Some(b)) => match sizing {
            Sizing::Hug => (start.plus(a), length.minus(a).minus(b).greater_of(N::ratio(0, 1))),
            _ => (start.plus(a), extent),
        },
        (Some(a), None) => (start.plus(a), extent),
        (None, Some(b)) => (start.plus(length).minus(b).minus(extent), extent),
        (None, None) => (start, extent),
    }
}

fn rect_absolute<N: Num>(style: &Style<N>, natural: Size<N>, block: Rect<N>) -> (r: Rect<N>)
    ensures
        r == absolute_rect(*style, natural, block),
{
    let (x, w) = span_absolute(
        style.left,
        style.right,
        style.width,
        natural.w,
        block.x,
        block.w,
    );
    let (y, h) = span_absolute(
        style.top,
        style.bottom,
        style.height,
        natural.h,
        block.y,
        block.h,
    );
    Rect { x, y, w, h }
}

// ---- the whole tree ----

/// The containing block of a node's out-of-flow descendants: its own content box
/// if it is positioned, else the one it has from above.
pub open spec fn block_for<N: Num>(style: Style<N>, rect: Rect<N>, block: Rect<N>) -> Rect<N> {
    if style.position == Position::Relative || style.position == Position::Absolute {
        inner_box(style, rect)
    } else {
        block
    }
}

/// Whether layout goes on into a node: a menu's children are placed with its
/// popup.
pub open spec fn opens_up<N>(node: Node<N>) -> bool {
    node.children@.len() > 0 && !(node.kind is Menu)
}

/// What is recorded when node `id` gets the rectangle `rect`: the rectangle;
/// everything in its children that are in flow; the extent of its content; and
/// everything in those that are not.
pub open spec fn arranged<N: Num>(
    nodes: Seq<Node<N>>,
    rank: spec_fn(int) -> nat,
    sizes: Seq<Size<N>>,
    id: NodeId,
    rect: Rect<N>,
    block: Rect<N>,
) -> Seq<Mark<N>>
    decreases rank(id.0 as int), 1nat, 0nat,
{
    let node = nodes[id.0 as int];
    if !opens_up(node) {
        seq![Mark::Place(id, rect)]
    } else {
        let slots = slots_of(nodes, sizes, id, rect);
        let outside = all_kids(nodes, id, true);
        let inner_block = block_for(node.style, rect, block);
        let bound = rank(id.0 as int);
        seq![Mark::Place(id, rect)] + arranged_slots(
            nodes,
            rank,
            sizes,
            bound,
            slots,
            slots.len(),
            inner_block,
        ) + seq![Mark::Content(id, content_of(nodes, sizes, id, rect))] + arranged_absolute(
            nodes,
            rank,
            sizes,
            bound,
            outside,
            outside.len(),
            inner_block,
        )
    }
}

/// What is recorded for the first `n` of `slots`, whose nodes rank below `bound`.
pub open spec fn arranged_slots<N: Num>(
    nodes: Seq<Node<N>>,
    rank: spec_fn(int) -> nat,
    sizes: Seq<Size<N>>,
    bound: nat,
    slots: Seq<Slot<N>>,
    n: nat,
    block: Rect<N>,
) -> Seq<Mark<N>>
    decreases bound, 0nat, n,
{
    if n == 0 {
        Seq::empty()
    } else {
        let s = slots[n - 1];
        arranged_slots(nodes, rank, sizes, bound, slots, (n - 1) as nat, block) + (if !s.deep {
            seq![Mark::Place(s.id, s.rect)]
        } else if rank(s.id.0 as int) < bound {
            arranged(nodes, rank, sizes, s.id, s.rect, block)
        } else {
            Seq::empty()
        })
    }
}

/// What is recorded for the first `n` of the out-of-flow nodes `kids`.
pub open spec fn arranged_absolute<N: Num>(
    nodes: Seq<Node<N>>,
    rank: spec_fn(int) -> nat,
    sizes: Seq<Size<N>>,
    bound: nat,
    kids: Seq<NodeId>,
    n: nat,
    block: Rect<N>,
) -> Seq<Mark<N>>
    decreases bound, 0nat, n,
{
    if n == 0 {
        Seq::empty()
    } else {
        let c = kids[n - 1];
        arranged_absolute(nodes, rank, sizes, bound, kids, (n - 1) as nat, block) + (if rank(
            c.0 as int,
        ) < bound {
            arranged(
                nodes,
                rank,
                sizes,
                c,
                absolute_rect(nodes[c.0 as int].style, sizes[c.0 as int], block),
                block,
            )
        } else {
            Seq::empty()
        })
    }
}

/// Gives node `id` the rectangle `rect`, and records it with everything in it.
fn arrange<N: Num>(
    nodes: &Vec<Node<N>>,
    sizes: &Vec<Size<N>>,
    id: NodeId,
    rect: Rect<N>,
    block: Rect<N>,
    marks: &mut Vec<Mark<N>>,
)
    requires
        is_forest(nodes@),
        id.0 < nodes@.len(),
        sizes@.len() == nodes@.len(),
    ensures
        final(marks)@ == old(marks)@ + arranged(
            nodes@,
            rank_of(nodes@),
            sizes@,
            id,
            rect,
            block,
        ),
    decreases rank_of(nodes@)(id.0 as int), 1nat,
{
    let ghost rank = rank_of(nodes@);
    let ghost start = marks@;
    marks.push(Mark::Place(id, rect));
    let node: &Node<N> = &nodes[id.0 as usize];
    let is_menu: bool = match &node.kind {
        NodeKind::Menu { .. } => true,
        _ => false,
    };
    if node.children.len() == 0 || is_menu {
        assert(marks@ =~= start + arranged(nodes@, rank, sizes@, id, rect, block));
        return ;
    }
    let inner_block: Rect<N> = if node.style.position == Position::Relative || node.style.position
        == Position::Absolute {
        rect.inset(node.style.padding).inset(node.style.border_width)
    } else {
        block
    };
    let (slots, content) = place_children(nodes, sizes, id, rect);
    let outside: Vec<NodeId> = split_kids(nodes, id, true);
    let ghost bound = rank(id.0 as int);
    proof {
        assert(ranked(nodes@, rank));
        lemma_slots_below(nodes@, rank, sizes@, id, rect);
        lemma_kids_below(nodes@, rank, id, true, node.children@.len());
    }
    arrange_slots(nodes, sizes, id, &slots, inner_block, marks);
    marks.push(Mark::Content(id, content));
    let ghost upto = marks@;
    let mut k: usize = 0;
    assert(upto + arranged_absolute(nodes@, rank, sizes@, bound, outside@, 0, inner_block)
        =~= upto);
    while k < outside.len()
        invariant
            0 <= k <= outside@.len(),
            is_forest(nodes@),
            rank == rank_of(nodes@),
            sizes@.len() == nodes@.len(),
            bound == rank(id.0 as int),
            all_below(nodes@, rank, outside@, bound),
            marks@ == upto + arranged_absolute(
                nodes@,
                rank,
                sizes@,
                bound,
                outside@,
                k as nat,
                inner_block,
            ),
        decreases outside@.len() - k,
    {
        let c: NodeId = outside[k];
        let r: Rect<N> = rect_absolute(
            &nodes[c.0 as usize].style,
            sizes[c.0 as usize],
            inner_block,
        );
        arrange(nodes, sizes, c, r, inner_block, marks);
        k = k + 1;
        assert(marks@ =~= upto + arranged_absolute(
            nodes@,
            rank,
            sizes@,
            bound,
            outside@,
            k as nat,
            inner_block,
        ));
    }
    assert(marks@ =~= start + arranged(nodes@, rank, sizes@, id, rect, block));
}

/// Records what is in `slots`, which are below node `parent`.
fn arrange_slots<N: Num>(
    nodes: &Vec<Node<N>>,
    sizes: &Vec<Size<N>>,
    parent: NodeId,
    slots: &Vec<Slot<N>>,
    block: Rect<N>,
    marks: &mut Vec<Mark<N>>,
)
    requires
        is_forest(nodes@),
        parent.0 < nodes@.len(),
        sizes@.len() == nodes@.len(),
        slots_below(nodes@, rank_of(nodes@), slots@, rank_of(nodes@)(parent.0 as int)),
    ensures
        final(marks)@ == old(marks)@ + arranged_slots(
            nodes@,
            rank_of(nodes@),
            sizes@,
            rank_of(nodes@)(parent.0 as int),
            slots@,
            slots@.len(),
            block,
        ),
    decreases rank_of(nodes@)(parent.0 as int), 0nat,
{
    let ghost rank = rank_of(nodes@);
    let ghost bound = rank(parent.0 as int);
    let ghost start = marks@;
    let mut k: usize = 0;
    assert(start + arranged_slots(nodes@, rank, sizes@, bound, slots@, 0, block) =~= start);
    while k < slots.len()
        invariant
            0 <= k <= slots@.len(),
            is_forest(nodes@),
            rank == rank_of(nodes@),
            sizes@.len() == nodes@.len(),
            bound == rank(parent.0 as int),
            slots_below(nodes@, rank, slots@, bound),
            marks@ == start + arranged_slots(
                nodes@,
                rank,
                sizes@,
                bound,
                slots@,
                k as nat,
                block,
            ),
        decreases slots@.len() - k,
    {
        let s: Slot<N> = slots[k];
        if s.deep {
            arrange(nodes, sizes, s.id, s.rect, block, marks);
        } else {
            marks.push(Mark::Place(s.id, s.rect));
        }
        k = k + 1;
        assert(marks@ =~= start + arranged_slots(
            nodes@,
            rank,
            sizes@,
            bound,
            slots@,
            k as nat,
            block,
        ));
    }
}

// ---- floating menus ----

/// Whether a menu's popup shows: it is open and has something to show.
pub open spec fn pops_up<N>(node: Node<N>) -> bool {
    match node.kind {
        NodeKind::Menu { open, .. } => open && node.children@.len() > 0,
        _ => false,
    }
}

/// The last rectangle recorded for `id` among the first `n` of `marks`, if any.
pub open spec fn last_place<N>(marks: Seq<Mark<N>>, id: NodeId, n: nat) -> Option<Rect<N>>
    decreases n,
{
    if n == 0 {
        None
    } else {
        match marks[n - 1] {
            Mark::Place(i, r) => if i == id {
                Some(r)
            } else {
                last_place(marks, id, (n - 1) as nat)
            },
            Mark::Content(_, _) => last_place(marks, id, (n - 1) as nat),
        }
    }
}

/// The last content extent recorded for `id`, if any.
pub open spec fn last_content<N>(marks: Seq<Mark<N>>, id: NodeId, n: nat) -> Option<Size<N>>
    decreases n,
{
    if n == 0 {
        None
    } else {
        match marks[n - 1] {
            Mark::Content(i, s) => if i == id {
                Some(s)
            } else {
                last_content(marks, id, (n - 1) as nat)
            },
            Mark::Place(_, _) => last_content(marks, id, (n - 1) as nat),
        }
    }
}

/// The rectangle that `id` has once `marks` are recorded.
pub open spec fn rect_after<N>(nodes: Seq<Node<N>>, marks: Seq<Mark<N>>, id: NodeId) -> Rect<N> {
    match last_place(marks, id, marks.len()) {
        Some(r) => r,
        None => nodes[id.0 as int].computed,
    }
}

/// The sum of the heights of the first `n` of `kids`.
pub open spec fn heights_sum<N: Num>(sizes: Seq<Size<N>>, kids: Seq<NodeId>, n: nat) -> N
    decreases n,
{
    if n == 0 {
        whole(0)
    } else {
        N::add_of(heights_sum(sizes, kids, (n - 1) as nat), sizes[kids[n - 1].0 as int].h)
    }
}

/// A menu's popup: right below the menu, as wide as the menu, and as tall as its
/// children, gaps, padding and border.
pub open spec fn popup_rect<N: Num>(
    nodes: Seq<Node<N>>,
    sizes: Seq<Size<N>>,
    id: NodeId,
    rect: Rect<N>,
) -> Rect<N> {
    let node = nodes[id.0 as int];
    let style = node.style;
    let kids = node.children@;
    let h = N::add_of(heights_sum(sizes, kids, kids.len()), gaps_of(style.gap, kids.len()));
    Rect {
        x: rect.x,
        y: N::add_of(rect.y, rect.h),
        w: rect.w,
        h: N::add_of(
            N::add_of(
                N::add_of(N::add_of(h, style.padding.top), style.padding.bottom),
                style.border_width.top,
            ),
            style.border_width.bottom,
        ),
    }
}

/// `marks`, and what the popup of menu `id` adds.
pub open spec fn with_popup<N: Num>(
    nodes: Seq<Node<N>>,
    rank: spec_fn(int) -> nat,
    sizes: Seq<Size<N>>,
    id: NodeId,
    marks: Seq<Mark<N>>,
) -> Seq<Mark<N>> {
    let node = nodes[id.0 as int];
    let popup = popup_rect(nodes, sizes, id, rect_after(nodes, marks, id));
    let inner = inner_box(node.style, popup);
    let slots = flow_slots(
        nodes,
        sizes,
        flow_box(node.style, inner, origin()),
        node.children@,
    );
    marks + arranged_slots(
        nodes,
        rank,
        sizes,
        rank(id.0 as int),
        slots,
        slots.len(),
        inner,
    ) + seq![Mark::Content(id, Size { w: popup.w, h: popup.h })]
}

/// `marks`, and what the popups in the subtree of `id` add, outer menus first.
pub open spec fn with_popups<N: Num>(
    nodes: Seq<Node<N>>,
    rank: spec_fn(int) -> nat,
    sizes: Seq<Size<N>>,
    id: NodeId,
    marks: Seq<Mark<N>>,
) -> Seq<Mark<N>>
    decreases rank(id.0 as int), nodes[id.0 as int].children@.len() + 1,
{
    let node = nodes[id.0 as int];
    let own = if pops_up(node) {
        with_popup(nodes, rank, sizes, id, marks)
    } else {
        marks
    };
    with_popups_below(nodes, rank, sizes, id, node.children@.len(), own)
}

/// The same for the first `n` children of `parent`.
pub open spec fn with_popups_below<N: Num>(
    nodes: Seq<Node<N>>,
    rank: spec_fn(int) -> nat,
    sizes: Seq<Size<N>>,
    parent: NodeId,
    n: nat,
    marks: Seq<Mark<N>>,
) -> Seq<Mark<N>>
    decreases rank(parent.0 as int), n,
{
    if ranked(nodes, rank) && parent.0 < nodes.len() && 0 < n
        <= nodes[parent.0 as int].children@.len() {
        with_popups(
            nodes,
            rank,
            sizes,
            nodes[parent.0 as int].children@[n - 1],
            with_popups_below(nodes, rank, sizes, parent, (n - 1) as nat, marks),
        )
    } else {
        marks
    }
}

fn current_rect<N: Num>(nodes: &Vec<Node<N>>, marks: &Vec<Mark<N>>, id: NodeId) -> (r: Rect<N>)
    requires
        id.0 < nodes@.len(),
    ensures
        r == rect_after(nodes@, marks@, id),
{
    let mut n: usize = marks.len();
    while n > 0
        invariant
            0 <= n <= marks@.len(),
            last_place(marks@, id, n as nat) == last_place(marks@, id, marks@.len()),
        decreases n,
    {
        if let Mark::Place(i, r) = marks[n - 1] {
            if i == id {
                return r;
            }
        }
        n = n - 1;
    }
    nodes[id.0 as usize].computed
}

/// Gives the children of every open, non-empty menu in the subtree of `id` their
/// places in its popup.
fn arrange_menu_popups<N: Num>(
    nodes: &Vec<Node<N>>,
    sizes: &Vec<Size<N>>,
    id: NodeId,
    marks: &mut Vec<Mark<N>>,
)
    requires
        is_forest(nodes@),
        id.0 < nodes@.len(),
        sizes@.len() == nodes@.len(),
    ensures
        final(marks)@ == with_popups(nodes@, rank_of(nodes@), sizes@, id, old(marks)@),
    decreases rank_of(nodes@)(id.0 as int),
{
    let ghost rank = rank_of(nodes@);
    let ghost start = marks@;
    let node: &Node<N> = &nodes[id.0 as usize];
    let children: &Vec<NodeId> = &node.children;
    let shows: bool = match &node.kind {
        NodeKind::Menu { open, .. } => *open && children.len() > 0,
        _ => false,
    };
    proof {
        assert(ranked(nodes@, rank));
        assert forall|k: int| 0 <= k < children@.len() implies (#[trigger] children@[k]).0
            < nodes@.len() && rank(children@[k].0 as int) < rank(id.0 as int) by {
            assert(nodes@[id.0 as int].children@[k] == children@[k]);
        }
    }
    if shows {
        let style: &Style<N> = &node.style;
        let rect: Rect<N> = current_rect(nodes, marks, id);
        let mut h: N = N::ratio(0, 1);
        let mut k: usize = 0;
        while k < children.len()
            invariant
                0 <= k <= children@.len(),
                sizes@.len() == nodes@.len(),
                forall|k: int| 0 <= k < children@.len() ==> (#[trigger] children@[k]).0 < nodes@.len(),
                h == heights_sum(sizes@, children@, k as nat),
            decreases children@.len() - k,
        {
            h = h.plus(sizes[children[k].0 as usize].h);
            k = k + 1;
        }
        let popup_h: N = h.plus(style.gap.times(N::count(one_less(children.len())))).plus(
            style.padding.top,
        ).plus(style.padding.bottom).plus(style.border_width.top).plus(style.border_width.bottom);
        let popup: Rect<N> = Rect { x: rect.x, y: rect.y.plus(rect.h), w: rect.w, h: popup_h };
        let inner: Rect<N> = popup.inset(style.padding).inset(style.border_width);
        let f = box_of(style, inner, Point::default());
        let (slots, _) = arrange_flow(nodes, sizes, &f, children);
        proof {
            lemma_flow_slots_below(nodes@, rank, sizes@, f, children@, rank(id.0 as int));
        }
        arrange_slots(nodes, sizes, id, &slots, inner, marks);
        marks.push(Mark::Content(id, Size { w: popup.w, h: popup.h }));
        assert(marks@ =~= with_popup(nodes@, rank, sizes@, id, start));
    }
    let ghost own = marks@;
    let mut k: usize = 0;
    while k < children.len()
        invariant
            0 <= k <= children@.len(),
            is_forest(nodes@),
            rank == rank_of(nodes@),
            ranked(nodes@, rank),
            id.0 < nodes@.len(),
            children == nodes@[id.0 as int].children,
            sizes@.len() == nodes@.len(),
            marks@ == with_popups_below(nodes@, rank, sizes@, id, k as nat, own),
        decreases children@.len() - k,
    {
        let c: NodeId = children[k];
        assert(nodes@[id.0 as int].children@[k as int] == c);
        arrange_menu_popups(nodes, sizes, c, marks);
        k = k + 1;
    }
}

// ---- solving ----

/// What is recorded when the first `n` layers' roots get the rectangle `rect`.
pub open spec fn solved<N: Num>(ui: Ui<N>, sizes: Seq<Size<N>>, rect: Rect<N>, n: nat) -> Seq<
    Mark<N>,
>
    decreases n,
{
    if n == 0 {
        Seq::empty()
    } else {
        let rank = rank_of(ui.nodes@);
        let root = ui.layers@[n - 1].root;
        let before = solved(ui, sizes, rect, (n - 1) as nat);
        with_popups(
            ui.nodes@,
            rank,
            sizes,
            root,
            before + arranged(ui.nodes@, rank, sizes, root, rect, rect),
        )
    }
}

/// `after` are the nodes of `before` with the rectangles and extents that `marks`
/// record; nothing else differs.
pub open spec fn marked<N>(
    before: Seq<Node<N>>,
    marks: Seq<Mark<N>>,
    after: Seq<Node<N>>,
) -> bool {
    &&& after.len() == before.len()
    &&& forall|i: int|
        0 <= i < after.len() ==> #[trigger] after[i] == (Node {
            computed: match last_place(marks, NodeId(i as u32), marks.len()) {
                Some(r) => r,
                None => before[i].computed,
            },
            content_size: match last_content(marks, NodeId(i as u32), marks.len()) {
                Some(s) => s,
                None => before[i].content_size,
            },
            ..before[i]
        })
}

/// Writes what is recorded into the nodes.
fn apply_marks<N: Num>(ui: &mut Ui<N>, marks: &Vec<Mark<N>>)
    requires
        old(ui).nodes@.len() <= 0x1_0000_0000,
    ensures
        marked(old(ui).nodes@, marks@, final(ui).nodes@),
        *final(ui) == (Ui { nodes: final(ui).nodes, ..*old(ui) }),
{
    let ghost before = ui.nodes@;
    let ghost rest = *ui;
    let n: usize = ui.nodes.len();
    let mut k: usize = 0;
    while k < marks.len()
        invariant
            0 <= k <= marks@.len(),
            n == before.len(),
            n <= 0x1_0000_0000,
            ui.nodes@.len() == n,
            *ui == (Ui { nodes: ui.nodes, ..rest }),
            forall|i: int|
                0 <= i < n ==> #[trigger] ui.nodes@[i] == (Node {
                    computed: match last_place(marks@, NodeId(i as u32), k as nat) {
                        Some(r) => r,
                        None => before[i].computed,
                    },
                    content_size: match last_content(marks@, NodeId(i as u32), k as nat) {
                        Some(s) => s,
                        None => before[i].content_size,
                    },
                    ..before[i]
                }),
        decreases marks@.len() - k,
    {
        match marks[k] {
            Mark::Place(id, r) => {
                let at: usize = id.0 as usize;
                if at < n {
                    ui.nodes[at].computed = r;
                }
            },
            Mark::Content(id, s) => {
                let at: usize = id.0 as usize;
                if at < n {
                    ui.nodes[at].content_size = s;
                }
            },
        }
        k = k + 1;
    }
}

/// `after` is `before` laid out in `root_rect`: every node has the place and the
/// extent that the layout gives it, and nothing else differs.
pub open spec fn laid_out<N: Num, M: Metrics<N>>(
    before: Ui<N>,
    root_rect: Rect<N>,
    m: M,
    after: Ui<N>,
) -> bool {
    &&& exists|sizes: Seq<Size<N>>|
        #![trigger sizes_agree(before.nodes@, sizes, m)]
        sizes_agree(before.nodes@, sizes, m) && marked(
            before.nodes@,
            solved(before, sizes, root_rect, before.layers@.len()),
            after.nodes@,
        )
    &&& after == (Ui { nodes: after.nodes, ..before })
}

/// Laying out keeps the tree.
pub proof fn law_layout_keeps_tree<N: Num, M: Metrics<N>>(
    before: Ui<N>,
    root_rect: Rect<N>,
    m: M,
    after: Ui<N>,
)
    requires
        before.wf(),
        laid_out(before, root_rect, m, after),
    ensures
        after.wf(),
        same_tree(before.nodes@, after.nodes@),
        forall|i: int|
            0 <= i < before.nodes@.len() ==> (#[trigger] after.nodes@[i]).kind
                == before.nodes@[i].kind,
{
    assert(same_tree(before.nodes@, after.nodes@));
    lemma_same_tree_is_forest(before.nodes@, after.nodes@);
}

/// Lays every layer out in `root_rect`.
pub fn solve_into<N: Num, M: Metrics<N>>(ui: &mut Ui<N>, root_rect: Rect<N>, m: &M)
    requires
        old(ui).wf(),
        old(ui).nodes@.len() <= 0x1_0000_0000,
    ensures
        laid_out(*old(ui), root_rect, *m, *final(ui)),
        final(ui).wf(),
{
    let sizes: Vec<Size<N>> = measure_all(&ui.nodes, m);
    let mut marks: Vec<Mark<N>> = Vec::new();
    let mut l: usize = 0;
    let ghost before = *ui;
    while l < ui.layers.len()
        invariant
            0 <= l <= ui.layers@.len(),
            *ui == before,
            before.wf(),
            sizes@.len() == before.nodes@.len(),
            marks@ == solved(before, sizes@, root_rect, l as nat),
        decreases ui.layers@.len() - l,
    {
        let root: NodeId = ui.layers[l].root;
        arrange(&ui.nodes, &sizes, root, root_rect, root_rect, &mut marks);
        arrange_menu_popups(&ui.nodes, &sizes, root, &mut marks);
        l = l + 1;
    }
    apply_marks(ui, &marks);
    assert(sizes_agree(before.nodes@, sizes@, *m));
    proof {
        law_layout_keeps_tree(before, root_rect, *m, *ui);
    }
}

/// Where the layers of a window of size `viewport` go, which is panned as a whole.
pub open spec fn window_rect<N: Num>(ui: Ui<N>, viewport: Size<N>) -> Rect<N> {
    Rect {
        x: N::neg_of(ui.auto_scroll.x),
        y: N::neg_of(ui.auto_scroll.y),
        w: viewport.w,
        h: viewport.h,
    }
}

/// Lays every layer out in a window of size `viewport`, panned as a whole.
pub fn solve<N: Num, M: Metrics<N>>(ui: &mut Ui<N>, viewport: Size<N>, m: &M)
    requires
        old(ui).wf(),
        old(ui).nodes@.len() <= 0x1_0000_0000,
    ensures
        laid_out(
            (Ui { viewport, ..*old(ui) }),
            window_rect(*old(ui), viewport),
            *m,
            *final(ui),
        ),
        final(ui).wf(),
{
    ui.viewport = viewport;
    let rect: Rect<N> = Rect {
        x: ui.auto_scroll.x.negated(),
        y: ui.auto_scroll.y.negated(),
        w: viewport.w,
        h: viewport.h,
    };
    solve_into(ui, rect, m);
}

/// The rectangle of a layer's root.
pub fn root_bounds<N: Num>(ui: &Ui<N>, root: NodeId) -> (r: Rect<N>)
    requires
        root.0 < ui.nodes@.len(),
    ensures
        r == ui.nodes@[root.0 as int].computed,
{
    ui.get(root).computed
}

} // verus!
