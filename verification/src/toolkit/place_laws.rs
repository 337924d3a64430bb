//! What holds of where layout puts the nodes of a tree.

use vstd::prelude::*;
use crate::toolkit::arena::{ranked, Node, NodeId, NodeKind, Ui};
use crate::toolkit::control_laws::law_inset_takes_the_edges_off;
use crate::toolkit::flow_laws::{gap_total, total};
use crate::toolkit::geometry::{inset_rect, origin, Rect, Size};
use crate::toolkit::grid::{grid_slots, table_slots};
use crate::toolkit::layout::{
    absolute_rect, all_kids, arranged, arranged_absolute, arranged_slots, block_for, content_of,
    flow_box, flow_content, flow_slots, heights_sum, inner_box, kids_of, last_content, last_place,
    lemma_flow_slots_below, lemma_kids_below, lemma_slots_below, marked, popup_rect, pops_up, slots_of, tree_box,
    window_rect, with_popup, FlowBox, Mark, Slot,
};
use crate::toolkit::measure::{less_one, line_of};
use crate::toolkit::num::{exact, lemma_whole, Num};
use crate::toolkit::style::{Align, Direction, Display, Position, Sizing, Style};

verus! {

// ---- the box of a node's content ----

/// Children go inside a node's padding and its border, on every side.
pub proof fn law_children_lie_inside_padding_and_border<N: Num>(
    val: spec_fn(N) -> real,
    style: Style<N>,
    rect: Rect<N>,
)
    requires
        exact(val),
        val(style.padding.left) + val(style.padding.right) <= val(rect.w),
        val(style.padding.top) + val(style.padding.bottom) <= val(rect.h),
        val(style.border_width.left) + val(style.border_width.right) + val(style.padding.left)
            + val(style.padding.right) <= val(rect.w),
        val(style.border_width.top) + val(style.border_width.bottom) + val(style.padding.top)
            + val(style.padding.bottom) <= val(rect.h),
    ensures
        ({
            let i = inner_box(style, rect);
            let (b, p) = (style.border_width, style.padding);
            &&& val(i.x) == val(rect.x) + val(p.left) + val(b.left)
            &&& val(i.y) == val(rect.y) + val(p.top) + val(b.top)
            &&& val(i.x) + val(i.w) == val(rect.x) + val(rect.w) - val(p.right) - val(b.right)
            &&& val(i.y) + val(i.h) == val(rect.y) + val(rect.h) - val(p.bottom) - val(b.bottom)
        }),
{
    law_inset_takes_the_edges_off(val, rect, style.padding);
    law_inset_takes_the_edges_off(val, inset_rect(rect, style.padding), style.border_width);
}

/// The children in flow are those without an absolute position, and the others those with
/// one; both keep their order.
pub proof fn law_absolute_children_are_out_of_flow<N>(nodes: Seq<Node<N>>, id: NodeId)
    requires
        id.0 < nodes.len(),
    ensures
        all_kids(nodes, id, false) == nodes[id.0 as int].children@.filter(
            |c: NodeId| nodes[c.0 as int].style.position != Position::Absolute,
        ),
        all_kids(nodes, id, true) == nodes[id.0 as int].children@.filter(
            |c: NodeId| nodes[c.0 as int].style.position == Position::Absolute,
        ),
{
    let all = nodes[id.0 as int].children@;
    lemma_kids_are_filtered(nodes, id, all.len());
    assert(all.take(all.len() as int) =~= all);
}

proof fn lemma_kids_are_filtered<N>(nodes: Seq<Node<N>>, id: NodeId, n: nat)
    requires
        n <= nodes[id.0 as int].children@.len(),
    ensures
        kids_of(nodes, id, false, n) == nodes[id.0 as int].children@.take(n as int).filter(
            |c: NodeId| nodes[c.0 as int].style.position != Position::Absolute,
        ),
        kids_of(nodes, id, true, n) == nodes[id.0 as int].children@.take(n as int).filter(
            |c: NodeId| nodes[c.0 as int].style.position == Position::Absolute,
        ),
    decreases n,
{
    reveal(Seq::filter);
    let upto = nodes[id.0 as int].children@.take(n as int);
    if n > 0 {
        lemma_kids_are_filtered(nodes, id, (n - 1) as nat);
        assert(upto.drop_last() =~= nodes[id.0 as int].children@.take(n - 1));
    }
}

/// A box whose children stand one under the other from its top, without gaps, and do not
/// scroll.
pub open spec fn stacks_plainly<N>(val: spec_fn(N) -> real, f: FlowBox<N>) -> bool {
    &&& f.direction == Direction::Column
    &&& val(f.gap) == 0 as real
    &&& f.align_main == Align::Start
    &&& f.align_cross == Align::Start
    &&& !f.scroll_x
    &&& !f.scroll_y
}

/// An expanded row of a tree view has its children under it, 16 to the right; a collapsed
/// one shows none.
pub proof fn law_tree_row_indents_its_children<N: Num>(
    val: spec_fn(N) -> real,
    nodes: Seq<Node<N>>,
    sizes: Seq<Size<N>>,
    id: NodeId,
    rect: Rect<N>,
)
    requires
        exact(val),
        id.0 < nodes.len(),
        nodes[id.0 as int].kind is TreeViewItem,
    ensures
        ({
            let node = nodes[id.0 as int];
            let slots = slots_of(nodes, sizes, id, rect);
            let kids = all_kids(nodes, id, false);
            let inner = inner_box(node.style, rect);
            let row = val(node.style.font_size) * (13 as real / 10 as real);
            &&& node.kind->TreeViewItem_collapsed ==> slots.len() == 0 && val(
                content_of(nodes, sizes, id, rect).h,
            ) == row
            &&& !node.kind->TreeViewItem_collapsed && kids.len() > 0 ==> exists|f: FlowBox<N>|
                #![trigger flow_slots(nodes, sizes, f, kids)]
                {
                    &&& slots == flow_slots(nodes, sizes, f, kids)
                    &&& stacks_plainly(val, f)
                    &&& val(f.inner.x) == val(inner.x) + 16 as real
                    &&& val(f.inner.y) == val(inner.y) + row
                    &&& 16 as real <= val(inner.w) ==> val(f.inner.x) + val(f.inner.w) == val(
                        inner.x,
                    ) + val(inner.w)
                    &&& val(content_of(nodes, sizes, id, rect).h) == row + val(
                        flow_content(nodes, sizes, f, kids).h,
                    )
                }
        }),
{
    lemma_whole::<N>(val, 0);
    lemma_whole::<N>(val, 16);
    let node = nodes[id.0 as int];
    let f = tree_box(node.style, inner_box(node.style, rect));
    let kids = all_kids(nodes, id, false);
    assert(val(line_of(node.style.font_size)) == val(node.style.font_size) * (13 as real
        / 10 as real));
    if !node.kind->TreeViewItem_collapsed && kids.len() > 0 {
        assert(slots_of(nodes, sizes, id, rect) == flow_slots(nodes, sizes, f, kids));
    }
}

/// Which rule places the children of a node: a table's cells in its columns, a grid's
/// children in its tracks, and others one after the other in the node's own direction, with
/// its own gap, alignment and scroll offset.
pub proof fn law_node_places_its_children<N: Num>(
    nodes: Seq<Node<N>>,
    sizes: Seq<Size<N>>,
    id: NodeId,
    rect: Rect<N>,
    f: FlowBox<N>,
)
    requires
        id.0 < nodes.len(),
        ({
            let style = nodes[id.0 as int].style;
            &&& f.direction == style.direction && f.gap == style.gap
            &&& f.align_main == style.align_main && f.align_cross == style.align_cross
            &&& f.scroll_x == style.scroll_x && f.scroll_y == style.scroll_y
            &&& f.inner == inner_box(style, rect)
            &&& f.scroll == nodes[id.0 as int].scroll_offset
        }),
    ensures
        ({
            let node = nodes[id.0 as int];
            let slots = slots_of(nodes, sizes, id, rect);
            let kids = all_kids(nodes, id, false);
            let by_itself = !(node.kind is DataGrid) && !(node.kind is TreeViewItem);
            &&& node.kind is DataGrid ==> slots == table_slots(nodes, sizes, kids, f.inner)
            &&& by_itself && node.style.display == Display::Grid ==> slots == grid_slots(
                nodes,
                sizes,
                node.style,
                kids,
                f.inner,
                f.scroll,
            )
            &&& by_itself && node.style.display != Display::Grid ==> slots == flow_slots(
                nodes,
                sizes,
                f,
                kids,
            ) && content_of(nodes, sizes, id, rect) == flow_content(nodes, sizes, f, kids)
        }),
{
    assert(f == flow_box(
        nodes[id.0 as int].style,
        inner_box(nodes[id.0 as int].style, rect),
        nodes[id.0 as int].scroll_offset,
    ));
}

// ---- absolute placement ----

/// The extent that an absolutely placed node asks for on one axis of its block.
pub open spec fn absolute_len<N>(
    val: spec_fn(N) -> real,
    asked: Sizing<N>,
    natural: N,
    block: N,
) -> real {
    match asked {
        Sizing::Fixed(v) => val(v),
        Sizing::Percent(p) => val(p) * val(block),
        Sizing::Fill(_) => val(block),
        Sizing::Hug => val(natural),
    }
}

/// How an absolutely placed node lies on one axis: `near` from the start of its block if
/// that is given, else `far` from its end, else at its start. It is as long as it asks,
/// but for a hugging node held at both ends, which reaches from one to the other.
pub open spec fn held<N>(
    val: spec_fn(N) -> real,
    near: Option<N>,
    far: Option<N>,
    asked: Sizing<N>,
    natural: N,
    at: (N, N),
    block: (N, N),
) -> bool {
    let (start, end) = (val(block.0), val(block.0) + val(block.1));
    let (a, b) = (val(at.0), val(at.0) + val(at.1));
    &&& match (near, far) {
        (Some(n), _) => a == start + val(n),
        (None, Some(f)) => b == end - val(f),
        (None, None) => a == start,
    }
    &&& if near is Some && far is Some && asked is Hug {
        if val(near->0) + val(far->0) <= val(block.1) {
            b == end - val(far->0)
        } else {
            val(at.1) == 0 as real
        }
    } else {
        val(at.1) == absolute_len(val, asked, natural, block.1)
    }
}

/// An absolutely placed node is held by its offsets in its containing block.
pub proof fn law_absolute_node_is_held_by_its_offsets<N: Num>(
    val: spec_fn(N) -> real,
    style: Style<N>,
    natural: Size<N>,
    block: Rect<N>,
)
    requires
        exact(val),
    ensures
        ({
            let r = absolute_rect(style, natural, block);
            &&& held(
                val,
                style.left,
                style.right,
                style.width,
                natural.w,
                (r.x, r.w),
                (block.x, block.w),
            )
            &&& held(
                val,
                style.top,
                style.bottom,
                style.height,
                natural.h,
                (r.y, r.h),
                (block.y, block.h),
            )
        }),
{
    lemma_whole::<N>(val, 0);
}

// ---- the whole tree ----

/// Laying a node out gives it its rectangle first, each child in flow its slot with
/// everything below it, and each absolute child its place in the nearest block: the box of
/// the nearest ancestor that is positioned.
#[verifier::rlimit(30)]
pub proof fn law_layout_places_every_child<N: Num>(
    nodes: Seq<Node<N>>,
    rank: spec_fn(int) -> nat,
    sizes: Seq<Size<N>>,
    id: NodeId,
    rect: Rect<N>,
    block: Rect<N>,
)
    requires
        ranked(nodes, rank),
        id.0 < nodes.len(),
        nodes[id.0 as int].children@.len() > 0,
        !(nodes[id.0 as int].kind is Menu),
    ensures
        ({
            let marks = arranged(nodes, rank, sizes, id, rect, block);
            let slots = slots_of(nodes, sizes, id, rect);
            let style = nodes[id.0 as int].style;
            let outside = all_kids(nodes, id, true);
            let next = if style.position == Position::Static {
                block
            } else {
                inner_box(style, rect)
            };
            &&& marks[0] == Mark::Place(id, rect)
            &&& marks.contains(Mark::Content(id, content_of(nodes, sizes, id, rect)))
            &&& forall|k: int|
                0 <= k < slots.len() ==> marks.contains(
                    Mark::Place((#[trigger] slots[k]).id, slots[k].rect),
                )
            &&& forall|k: int, m: Mark<N>|
                0 <= k < slots.len() && slots[k].deep && #[trigger] arranged(
                    nodes,
                    rank,
                    sizes,
                    slots[k].id,
                    slots[k].rect,
                    next,
                ).contains(m) ==> marks.contains(m)
            &&& forall|k: int|
                0 <= k < outside.len() ==> marks.contains(
                    Mark::Place(
                        #[trigger] outside[k],
                        absolute_rect(
                            nodes[outside[k].0 as int].style,
                            sizes[outside[k].0 as int],
                            next,
                        ),
                    ),
                )
        }),
{
    let marks = arranged(nodes, rank, sizes, id, rect, block);
    let slots = slots_of(nodes, sizes, id, rect);
    let node = nodes[id.0 as int];
    let outside = all_kids(nodes, id, true);
    let next = block_for(node.style, rect, block);
    let bound = rank(id.0 as int);
    lemma_slots_below(nodes, rank, sizes, id, rect);
    lemma_kids_below(nodes, rank, id, true, node.children@.len());
    let one = seq![Mark::Place(id, rect)];
    let two = arranged_slots(nodes, rank, sizes, bound, slots, slots.len(), next);
    let three = seq![Mark::Content(id, content_of(nodes, sizes, id, rect))];
    let four = arranged_absolute(nodes, rank, sizes, bound, outside, outside.len(), next);
    assert(marks == one + two + three + four);
    assert(marks[(one.len() + two.len()) as int] == three[0]);
    assert forall|m: Mark<N>| two.contains(m) implies #[trigger] marks.contains(m) by {
        let j = two.index_of(m);
        assert(marks[1 + j] == m);
    }
    assert forall|m: Mark<N>| four.contains(m) implies #[trigger] marks.contains(m) by {
        let j = four.index_of(m);
        assert(marks[2 + two.len() + j] == m);
    }
    assert forall|k: int| 0 <= k < slots.len() implies marks.contains(
        Mark::Place((#[trigger] slots[k]).id, slots[k].rect),
    ) by {
        lemma_slot_is_recorded(nodes, rank, sizes, bound, slots, slots.len(), next, k);
        assert(two.contains(Mark::Place(slots[k].id, slots[k].rect)));
    }
    assert forall|k: int, m: Mark<N>|
        0 <= k < slots.len() && slots[k].deep && #[trigger] arranged(
            nodes,
            rank,
            sizes,
            slots[k].id,
            slots[k].rect,
            next,
        ).contains(m) implies marks.contains(m) by {
        lemma_slot_is_recorded(nodes, rank, sizes, bound, slots, slots.len(), next, k);
        assert(two.contains(m));
    }
    assert forall|k: int| 0 <= k < outside.len() implies marks.contains(
        Mark::Place(
            #[trigger] outside[k],
            absolute_rect(nodes[outside[k].0 as int].style, sizes[outside[k].0 as int], next),
        ),
    ) by {
        lemma_absolute_is_recorded(nodes, rank, sizes, bound, outside, outside.len(), next, k);
        let m = Mark::Place(
            outside[k],
            absolute_rect(nodes[outside[k].0 as int].style, sizes[outside[k].0 as int], next),
        );
        assert(four.contains(m));
    }
}

proof fn lemma_first_mark<N: Num>(
    nodes: Seq<Node<N>>,
    rank: spec_fn(int) -> nat,
    sizes: Seq<Size<N>>,
    id: NodeId,
    rect: Rect<N>,
    block: Rect<N>,
)
    ensures
        arranged(nodes, rank, sizes, id, rect, block).contains(Mark::Place(id, rect)),
{
    let marks = arranged(nodes, rank, sizes, id, rect, block);
    assert(marks[0] == Mark::Place(id, rect));
}

proof fn lemma_slot_is_recorded<N: Num>(
    nodes: Seq<Node<N>>,
    rank: spec_fn(int) -> nat,
    sizes: Seq<Size<N>>,
    bound: nat,
    slots: Seq<Slot<N>>,
    n: nat,
    block: Rect<N>,
    k: int,
)
    requires
        0 <= k < n <= slots.len(),
        slots[k].deep ==> rank(slots[k].id.0 as int) < bound,
    ensures
        ({
            let all = arranged_slots(nodes, rank, sizes, bound, slots, n, block);
            let s = slots[k];
            &&& all.contains(Mark::Place(s.id, s.rect))
            &&& s.deep ==> forall|m: Mark<N>|
                #[trigger] arranged(nodes, rank, sizes, s.id, s.rect, block).contains(m)
                    ==> all.contains(m)
        }),
    decreases n,
{
    let all = arranged_slots(nodes, rank, sizes, bound, slots, n, block);
    let before = arranged_slots(nodes, rank, sizes, bound, slots, (n - 1) as nat, block);
    let s = slots[k];
    let own = arranged(nodes, rank, sizes, s.id, s.rect, block);
    if k < n - 1 {
        lemma_slot_is_recorded(nodes, rank, sizes, bound, slots, (n - 1) as nat, block, k);
        assert forall|m: Mark<N>| before.contains(m) implies #[trigger] all.contains(m) by {
            assert(all[before.index_of(m)] == m);
        }
    } else if s.deep {
        lemma_first_mark(nodes, rank, sizes, s.id, s.rect, block);
        assert(all == before + own);
        assert forall|m: Mark<N>| own.contains(m) implies #[trigger] all.contains(m) by {
            assert(all[before.len() + own.index_of(m)] == m);
        }
    } else {
        assert(all[before.len() as int] == Mark::Place(s.id, s.rect));
    }
}

proof fn lemma_absolute_is_recorded<N: Num>(
    nodes: Seq<Node<N>>,
    rank: spec_fn(int) -> nat,
    sizes: Seq<Size<N>>,
    bound: nat,
    kids: Seq<NodeId>,
    n: nat,
    block: Rect<N>,
    k: int,
)
    requires
        0 <= k < n <= kids.len(),
        rank(kids[k].0 as int) < bound,
    ensures
        arranged_absolute(nodes, rank, sizes, bound, kids, n, block).contains(
            Mark::Place(
                kids[k],
                absolute_rect(nodes[kids[k].0 as int].style, sizes[kids[k].0 as int], block),
            ),
        ),
    decreases n,
{
    let all = arranged_absolute(nodes, rank, sizes, bound, kids, n, block);
    let before = arranged_absolute(nodes, rank, sizes, bound, kids, (n - 1) as nat, block);
    let r = absolute_rect(nodes[kids[k].0 as int].style, sizes[kids[k].0 as int], block);
    let m = Mark::Place(kids[k], r);
    if k < n - 1 {
        lemma_absolute_is_recorded(nodes, rank, sizes, bound, kids, (n - 1) as nat, block, k);
        assert(all[before.index_of(m)] == m);
    } else {
        let own = arranged(nodes, rank, sizes, kids[k], r, block);
        assert(all == before + own);
        assert(own[0] == m);
        assert(all[before.len() as int] == m);
    }
}

/// Whether a record gives node `i` a rectangle, or its content an extent.
pub open spec fn gives_rect<N>(m: Mark<N>, i: int) -> bool {
    m matches Mark::Place(n, _) && n.0 == i
}

pub open spec fn gives_extent<N>(m: Mark<N>, i: int) -> bool {
    m matches Mark::Content(n, _) && n.0 == i
}

/// A node keeps the last rectangle that was recorded for it, and the last extent of its
/// content; one for which none was recorded is left as it was.
pub proof fn law_last_record_counts<N>(
    before: Seq<Node<N>>,
    marks: Seq<Mark<N>>,
    after: Seq<Node<N>>,
    i: int,
)
    requires
        marked(before, marks, after),
        0 <= i < before.len() <= 0x1_0000_0000,
    ensures
        forall|k: int|
            0 <= k < marks.len() && gives_rect(#[trigger] marks[k], i) && (forall|j: int|
                k < j < marks.len() ==> !gives_rect(#[trigger] marks[j], i))
                ==> after[i].computed == marks[k]->Place_1,
        forall|k: int|
            0 <= k < marks.len() && gives_extent(#[trigger] marks[k], i) && (forall|j: int|
                k < j < marks.len() ==> !gives_extent(#[trigger] marks[j], i))
                ==> after[i].content_size == marks[k]->Content_1,
        (forall|j: int| 0 <= j < marks.len() ==> !gives_rect(#[trigger] marks[j], i))
            ==> after[i].computed == before[i].computed,
        after[i].kind == before[i].kind,
        after[i].style == before[i].style,
        after[i].children == before[i].children,
{
    let id = NodeId(i as u32);
    assert forall|k: int|
        0 <= k < marks.len() && gives_rect(#[trigger] marks[k], i) && (forall|j: int|
            k < j < marks.len() ==> !gives_rect(
                #[trigger] marks[j],
                i,
            )) implies after[i].computed == marks[k]->Place_1 by {
        lemma_last_place(marks, id, marks.len(), k, marks[k]->Place_1);
    }
    assert forall|k: int|
        0 <= k < marks.len() && gives_extent(#[trigger] marks[k], i) && (forall|j: int|
            k < j < marks.len() ==> !gives_extent(
                #[trigger] marks[j],
                i,
            )) implies after[i].content_size == marks[k]->Content_1 by {
        lemma_last_content(marks, id, marks.len(), k, marks[k]->Content_1);
    }
    if forall|j: int| 0 <= j < marks.len() ==> !gives_rect(#[trigger] marks[j], i) {
        lemma_no_place(marks, id, marks.len());
    }
}

proof fn lemma_last_place<N>(marks: Seq<Mark<N>>, id: NodeId, n: nat, k: int, r: Rect<N>)
    requires
        0 <= k < n <= marks.len(),
        marks[k] == Mark::Place(id, r),
        forall|j: int|
            k < j < n ==> !gives_rect(#[trigger] marks[j], id.0 as int),
    ensures
        last_place(marks, id, n) == Some(r),
    decreases n,
{
    if k < n - 1 {
        assert(!gives_rect(marks[n - 1], id.0 as int));
        lemma_last_place(marks, id, (n - 1) as nat, k, r);
    }
}

proof fn lemma_last_content<N>(marks: Seq<Mark<N>>, id: NodeId, n: nat, k: int, s: Size<N>)
    requires
        0 <= k < n <= marks.len(),
        marks[k] == Mark::Content(id, s),
        forall|j: int|
            k < j < n ==> !gives_extent(#[trigger] marks[j], id.0 as int),
    ensures
        last_content(marks, id, n) == Some(s),
    decreases n,
{
    if k < n - 1 {
        assert(!gives_extent(marks[n - 1], id.0 as int));
        lemma_last_content(marks, id, (n - 1) as nat, k, s);
    }
}

proof fn lemma_no_place<N>(marks: Seq<Mark<N>>, id: NodeId, n: nat)
    requires
        n <= marks.len(),
        forall|j: int|
            0 <= j < n ==> !gives_rect(#[trigger] marks[j], id.0 as int),
    ensures
        last_place(marks, id, n) is None,
    decreases n,
{
    if n > 0 {
        assert(!gives_rect(marks[n - 1], id.0 as int));
        lemma_no_place(marks, id, (n - 1) as nat);
    }
}

// ---- menus ----

proof fn lemma_heights<N: Num>(
    val: spec_fn(N) -> real,
    sizes: Seq<Size<N>>,
    kids: Seq<NodeId>,
    n: nat,
)
    requires
        exact(val),
    ensures
        val(heights_sum(sizes, kids, n)) == total(|k: int| val(sizes[kids[k].0 as int].h), n),
    decreases n,
{
    lemma_whole::<N>(val, 0);
    if n > 0 {
        lemma_heights(val, sizes, kids, (n - 1) as nat);
    }
}

/// The popup of a menu hangs right below it, as wide as the menu, and as tall as the items
/// in it with their gaps, the padding and the border. It shows if the menu is open and has
/// items.
pub proof fn law_menu_popup_hangs_below<N: Num>(
    val: spec_fn(N) -> real,
    nodes: Seq<Node<N>>,
    sizes: Seq<Size<N>>,
    id: NodeId,
    rect: Rect<N>,
)
    requires
        exact(val),
        id.0 < nodes.len(),
    ensures
        ({
            let node = nodes[id.0 as int];
            let items = node.children@;
            let (b, p) = (node.style.border_width, node.style.padding);
            let r = popup_rect(nodes, sizes, id, rect);
            &&& r.x == rect.x && r.w == rect.w
            &&& val(r.y) == val(rect.y) + val(rect.h)
            &&& val(r.h) == total(|k: int| val(sizes[items[k].0 as int].h), items.len())
                + gap_total(val, node.style.gap, items.len()) + val(p.top) + val(p.bottom) + val(
                b.top,
            ) + val(b.bottom)
            &&& pops_up(node) <==> (node.kind matches NodeKind::Menu { open, .. } && open)
                && items.len() > 0
        }),
{
    let node = nodes[id.0 as int];
    let items = node.children@;
    lemma_heights(val, sizes, items, items.len());
    let g = val(node.style.gap);
    if items.len() > 0 {
        assert(val(N::count_of(less_one(items.len()))) == (items.len() - 1) as real);
    } else {
        lemma_whole::<N>(val, 0);
        assert(val(N::count_of(less_one(items.len()))) == 0 as real);
        assert(g * (0 as real) == 0 as real) by (nonlinear_arith);
    }
}

/// A menu's items are placed in its popup, inside its padding and border.
pub proof fn law_menu_items_go_into_the_popup<N: Num>(
    nodes: Seq<Node<N>>,
    rank: spec_fn(int) -> nat,
    sizes: Seq<Size<N>>,
    id: NodeId,
    marks: Seq<Mark<N>>,
    at: int,
    rect: Rect<N>,
    f: FlowBox<N>,
    k: int,
)
    requires
        ranked(nodes, rank),
        id.0 < nodes.len(),
        // `rect` is the last rectangle recorded for the menu.
        0 <= at < marks.len(),
        marks[at] == Mark::Place(id, rect),
        forall|j: int|
            at < j < marks.len() ==> !gives_rect(#[trigger] marks[j], id.0 as int),
        ({
            let style = nodes[id.0 as int].style;
            &&& f.direction == style.direction && f.gap == style.gap
            &&& f.align_main == style.align_main && f.align_cross == style.align_cross
            &&& f.scroll_x == style.scroll_x && f.scroll_y == style.scroll_y
            &&& f.inner == inner_box(style, popup_rect(nodes, sizes, id, rect))
            &&& f.scroll == origin::<N>()
        }),
        0 <= k < nodes[id.0 as int].children@.len(),
    ensures
        ({
            let after = with_popup(nodes, rank, sizes, id, marks);
            let slots = flow_slots(nodes, sizes, f, nodes[id.0 as int].children@);
            &&& after.subrange(0, marks.len() as int) == marks
            &&& after.contains(Mark::Place(slots[k].id, slots[k].rect))
        }),
{
    let after = with_popup(nodes, rank, sizes, id, marks);
    let kids = nodes[id.0 as int].children@;
    let slots = flow_slots(nodes, sizes, f, kids);
    lemma_last_place(marks, id, marks.len(), at, rect);
    assert(f == flow_box(nodes[id.0 as int].style, f.inner, f.scroll));
    let bound = rank(id.0 as int);
    let added = arranged_slots(nodes, rank, sizes, bound, slots, slots.len(), f.inner);
    lemma_flow_slots_below(nodes, rank, sizes, f, kids, bound);
    lemma_slot_is_recorded(nodes, rank, sizes, bound, slots, slots.len(), f.inner, k);
    let m = Mark::Place(slots[k].id, slots[k].rect);
    assert(after[marks.len() + added.index_of(m)] == m);
    assert(after.subrange(0, marks.len() as int) =~= marks);
}

/// A window that is scrolled shows its layers moved the other way, at their full size.
pub proof fn law_window_scrolls_its_layers<N: Num>(
    val: spec_fn(N) -> real,
    ui: Ui<N>,
    viewport: Size<N>,
)
    requires
        exact(val),
    ensures
        ({
            let r = window_rect(ui, viewport);
            &&& val(r.x) + val(ui.auto_scroll.x) == 0 as real
            &&& val(r.y) + val(ui.auto_scroll.y) == 0 as real
            &&& r.w == viewport.w && r.h == viewport.h
        }),
{
}

} // verus!
