//! What holds of the places in a flow container.

use vstd::prelude::*;
use crate::toolkit::arena::{Node, NodeId};
use crate::toolkit::geometry::{Rect, Size};
use crate::toolkit::layout::{
    cross_extent, cross_max, flow_content, flow_cursor, flow_order, flow_slots, in_range,
    leftover_of, main_sizing, settled_extent, settled_sum, weight_sum, FlowBox, Slot,
};
use crate::toolkit::num::{exact, lemma_whole, Num};
use crate::toolkit::style::{Align, Direction, Position, Sizing, Style};

verus! {

// ---- vocabulary ----

/// The sum of `f(0)` up to `f(n - 1)`.
pub open spec fn total(f: spec_fn(int) -> real, n: nat) -> real
    decreases n,
{
    if n == 0 {
        0 as real
    } else {
        total(f, (n - 1) as nat) + f(n - 1)
    }
}

pub proof fn lemma_total_same(f: spec_fn(int) -> real, g: spec_fn(int) -> real, n: nat)
    requires
        forall|k: int| 0 <= k < n ==> #[trigger] f(k) == g(k),
    ensures
        total(f, n) == total(g, n),
    decreases n,
{
    if n > 0 {
        lemma_total_same(f, g, (n - 1) as nat);
        assert(f(n - 1) == g(n - 1));
    }
}

pub proof fn lemma_total_first(f: spec_fn(int) -> real, n: nat)
    requires
        n > 0,
    ensures
        total(f, n) == f(0) + total(|k: int| f(k + 1), (n - 1) as nat),
    decreases n,
{
    let g = |k: int| f(k + 1);
    if n > 1 {
        lemma_total_first(f, (n - 1) as nat);
        assert(g(n - 2) == f(n - 1));
    } else {
        assert(total(f, 0) == 0 as real && total(g, 0) == 0 as real);
    }
}

pub proof fn lemma_total_reversed(f: spec_fn(int) -> real, n: nat)
    ensures
        total(|k: int| f(n - 1 - k), n) == total(f, n),
    decreases n,
{
    if n > 0 {
        let m = (n - 1) as nat;
        let g = |k: int| f(n - 1 - k);
        let h = |k: int| f(m - 1 - k);
        lemma_total_first(g, n);
        lemma_total_reversed(f, m);
        lemma_total_same(|k: int| g(k + 1), h, m);
    }
}

/// Whether children go from left to right, or from right to left.
pub open spec fn goes_across(d: Direction) -> bool {
    d is Row || d is RowReverse
}

/// Where a rectangle starts along the direction in which children go, how far it
/// goes, and the same across it.
pub open spec fn main_start<N>(r: Rect<N>, across: bool) -> N {
    if across {
        r.x
    } else {
        r.y
    }
}

pub open spec fn main_len<N>(r: Rect<N>, across: bool) -> N {
    if across {
        r.w
    } else {
        r.h
    }
}

/// What a style asks for along an axis.
pub open spec fn asked<N>(style: Style<N>, across: bool) -> Sizing<N> {
    if across {
        style.width
    } else {
        style.height
    }
}

/// The weight with which a child shares what is left over; `None` for one with an
/// extent of its own.
pub open spec fn weight_of<N>(style: Style<N>, across: bool) -> Option<N> {
    match asked(style, across) {
        Sizing::Fill(w) => Some(w),
        _ => None,
    }
}

/// The main extent of the `k`th child placed.
pub open spec fn len_at<N>(val: spec_fn(N) -> real, slots: Seq<Slot<N>>, across: bool, k: int) -> real {
    val(main_len(slots[k].rect, across))
}

/// The main extents of all children placed.
pub open spec fn lens<N>(val: spec_fn(N) -> real, slots: Seq<Slot<N>>, across: bool) -> real {
    total(|k: int| len_at(val, slots, across, k), slots.len())
}

/// The main extents of those that have one of their own.
pub open spec fn own_lens<N>(
    val: spec_fn(N) -> real,
    nodes: Seq<Node<N>>,
    slots: Seq<Slot<N>>,
    across: bool,
) -> real {
    total(
        |k: int|
            if weight_of(nodes[slots[k].id.0 as int].style, across) is Some {
                0 as real
            } else {
                len_at(val, slots, across, k)
            },
        slots.len(),
    )
}

/// The gaps between `n` children.
pub open spec fn gap_total<N>(val: spec_fn(N) -> real, gap: N, n: nat) -> real {
    if n == 0 {
        0 as real
    } else {
        val(gap) * (n - 1) as real
    }
}

/// Some child shares what is left over, and no weight is below zero.
pub open spec fn some_fill<N>(
    val: spec_fn(N) -> real,
    nodes: Seq<Node<N>>,
    kids: Seq<NodeId>,
    across: bool,
) -> bool {
    &&& forall|k: int|
        0 <= k < kids.len() ==> (weight_of(
            nodes[(#[trigger] kids[k]).0 as int].style,
            across,
        ) matches Some(w) ==> val(w) >= 0 as real)
    &&& exists|k: int|
        0 <= k < kids.len() && (weight_of(
            nodes[(#[trigger] kids[k]).0 as int].style,
            across,
        ) matches Some(w) && val(w) > 0 as real)
}

// ---- sums ----

/// What the computed sums amount to.
proof fn lemma_sums<N: Num>(
    val: spec_fn(N) -> real,
    nodes: Seq<Node<N>>,
    sizes: Seq<Size<N>>,
    f: FlowBox<N>,
    kids: Seq<NodeId>,
    n: nat,
)
    requires
        exact(val),
        n <= kids.len(),
    ensures
        val(settled_sum(nodes, sizes, f, kids, n)) == total(
            |k: int| own_of(val, nodes, sizes, f, kids[k]),
            n,
        ),
        val(weight_sum(nodes, f, kids, n)) == total(|k: int| share_of(val, nodes, f, kids[k]), n),
    decreases n,
{
    lemma_whole::<N>(val, 0);
    if n > 0 {
        lemma_sums(val, nodes, sizes, f, kids, (n - 1) as nat);
        let own = |k: int| own_of(val, nodes, sizes, f, kids[k]);
        let share = |k: int| share_of(val, nodes, f, kids[k]);
        assert(total(own, n) == total(own, (n - 1) as nat) + own(n - 1));
        assert(total(share, n) == total(share, (n - 1) as nat) + share(n - 1));
    }
}

spec fn own_of<N: Num>(
    val: spec_fn(N) -> real,
    nodes: Seq<Node<N>>,
    sizes: Seq<Size<N>>,
    f: FlowBox<N>,
    c: NodeId,
) -> real {
    match settled_extent(nodes, sizes, f, c) {
        Some(v) => val(v),
        None => 0 as real,
    }
}

spec fn share_of<N: Num>(
    val: spec_fn(N) -> real,
    nodes: Seq<Node<N>>,
    f: FlowBox<N>,
    c: NodeId,
) -> real {
    match main_sizing(nodes[c.0 as int].style, f.row()) {
        Sizing::Fill(w) => val(w),
        _ => 0 as real,
    }
}

pub proof fn lemma_shares_positive(f: spec_fn(int) -> real, n: nat, k: int)
    requires
        forall|i: int| 0 <= i < n ==> #[trigger] f(i) >= 0 as real,
    ensures
        total(f, n) >= 0 as real,
        0 <= k < n ==> total(f, n) >= f(k),
    decreases n,
{
    if n > 0 {
        lemma_shares_positive(f, (n - 1) as nat, k);
        assert(f(n - 1) >= 0 as real);
    }
}

/// Scaling a sum scales every part of it.
pub proof fn lemma_total_scaled(f: spec_fn(int) -> real, by: real, n: nat)
    ensures
        total(|k: int| by * f(k), n) == by * total(f, n),
    decreases n,
{
    if n > 0 {
        lemma_total_scaled(f, by, (n - 1) as nat);
        let t = total(f, (n - 1) as nat);
        let x = f(n - 1);
        assert(by * t + by * x == by * (t + x)) by (nonlinear_arith);
    } else {
        assert(by * (0 as real) == 0 as real) by (nonlinear_arith);
    }
}

pub proof fn lemma_total_plus(f: spec_fn(int) -> real, g: spec_fn(int) -> real, n: nat)
    ensures
        total(|k: int| f(k) + g(k), n) == total(f, n) + total(g, n),
    decreases n,
{
    if n > 0 {
        lemma_total_plus(f, g, (n - 1) as nat);
    }
}

pub proof fn lemma_scale(l: real, w: real, all: real)
    requires
        all != 0 as real,
    ensures
        l * (w / all) == (l / all) * w,
        (l / all) * all == l,
{
    let a = w / all;
    let b = l / all;
    assert(a * all == w) by (nonlinear_arith)
        requires
            all != 0 as real,
            a == w / all,
    ;
    assert(b * all == l) by (nonlinear_arith)
        requires
            all != 0 as real,
            b == l / all,
    ;
    assert(l * a == b * w) by (nonlinear_arith)
        requires
            a * all == w,
            b * all == l,
    ;
}

/// The order in which children are placed is theirs, or theirs backwards.
proof fn lemma_order<N: Num>(
    nodes: Seq<Node<N>>,
    sizes: Seq<Size<N>>,
    f: FlowBox<N>,
    kids: Seq<NodeId>,
    k: int,
)
    requires
        0 <= k < kids.len(),
    ensures
        flow_slots(nodes, sizes, f, kids)[k].id == flow_order(f.reversed(), kids)[k],
        flow_order(f.reversed(), kids)[k] == if f.reversed() {
            kids[kids.len() - 1 - k]
        } else {
            kids[k]
        },
{
}

/// A sum over the children as they are placed is the sum over the children.
pub proof fn lemma_total_ordered(
    reversed: bool,
    kids: Seq<NodeId>,
    g: spec_fn(NodeId) -> real,
)
    ensures
        total(|k: int| g(flow_order(reversed, kids)[k]), kids.len()) == total(
            |k: int| g(kids[k]),
            kids.len(),
        ),
{
    let n = kids.len();
    let a = |k: int| g(flow_order(reversed, kids)[k]);
    let b = |k: int| g(kids[k]);
    if reversed {
        let c = |k: int| b(n - 1 - k);
        lemma_total_reversed(b, n);
        assert forall|k: int| 0 <= k < n implies #[trigger] a(k) == c(k) by {
            assert(kids.reverse()[k] == kids[n - 1 - k]);
        }
        lemma_total_same(a, c, n);
    } else {
        lemma_total_same(a, b, n);
    }
}

/// The main extent of the `k`th child placed: its own, or a share.
proof fn lemma_len<N: Num>(
    val: spec_fn(N) -> real,
    nodes: Seq<Node<N>>,
    sizes: Seq<Size<N>>,
    f: FlowBox<N>,
    kids: Seq<NodeId>,
    k: int,
)
    requires
        exact(val),
        0 <= k < kids.len(),
        val(weight_sum(nodes, f, kids, kids.len())) != 0 as real,
    ensures
        ({
            let across = goes_across(f.direction);
            let slots = flow_slots(nodes, sizes, f, kids);
            let c = flow_order(f.reversed(), kids)[k];
            let all = val(weight_sum(nodes, f, kids, kids.len()));
            let rest = val(leftover_of(nodes, sizes, f, kids));
            &&& len_at(val, slots, across, k) == own_of(val, nodes, sizes, f, c) + (rest / all)
                * share_of(val, nodes, f, c)
            &&& weight_of(nodes[c.0 as int].style, across) is None ==> len_at(
                val,
                slots,
                across,
                k,
            ) == own_of(val, nodes, sizes, f, c)
            &&& (weight_of(nodes[c.0 as int].style, across) matches Some(w) ==> own_of(
                val,
                nodes,
                sizes,
                f,
                c,
            ) == 0 as real && share_of(val, nodes, f, c) == val(w))
        }),
{
    let c = flow_order(f.reversed(), kids)[k];
    let all = val(weight_sum(nodes, f, kids, kids.len()));
    let rest = val(leftover_of(nodes, sizes, f, kids));
    assert(goes_across(f.direction) == f.row());
    match main_sizing(nodes[c.0 as int].style, f.row()) {
        Sizing::Fill(w) => {
            lemma_scale(rest, val(w), all);
        },
        _ => {
            assert((rest / all) * (0 as real) == 0 as real) by (nonlinear_arith);
        },
    }
}

/// Children that fill share what the others and the gaps leave over: if there is
/// anything left, all children and gaps together take exactly the container's extent;
/// if there is not, those that fill get nothing. What two of them get is in the ratio
/// of their weights.
pub proof fn law_fill_shares_the_rest<N: Num>(
    val: spec_fn(N) -> real,
    nodes: Seq<Node<N>>,
    sizes: Seq<Size<N>>,
    f: FlowBox<N>,
    kids: Seq<NodeId>,
)
    requires
        exact(val),
        some_fill(val, nodes, kids, goes_across(f.direction)),
    ensures
        ({
            let across = goes_across(f.direction);
            let slots = flow_slots(nodes, sizes, f, kids);
            let room = val(main_len(f.inner, across));
            let taken = own_lens(val, nodes, slots, across) + gap_total(val, f.gap, kids.len());
            &&& slots.len() == kids.len()
            &&& taken <= room ==> lens(val, slots, across) + gap_total(val, f.gap, kids.len()) == room
            &&& taken >= room ==> forall|k: int|
                0 <= k < slots.len() && weight_of(
                    nodes[(#[trigger] slots[k]).id.0 as int].style,
                    across,
                ) is Some ==> len_at(val, slots, across, k) == 0 as real
            &&& forall|i: int, j: int|
                0 <= i < slots.len() && 0 <= j < slots.len() && weight_of(
                    nodes[(#[trigger] slots[i]).id.0 as int].style,
                    across,
                ) is Some && weight_of(
                    nodes[(#[trigger] slots[j]).id.0 as int].style,
                    across,
                ) is Some ==> len_at(val, slots, across, i) * val(
                    weight_of(nodes[slots[j].id.0 as int].style, across)->0,
                ) == len_at(val, slots, across, j) * val(
                    weight_of(nodes[slots[i].id.0 as int].style, across)->0,
                )
        }),
{
    let across = goes_across(f.direction);
    let slots = flow_slots(nodes, sizes, f, kids);
    let n = kids.len();
    let order = flow_order(f.reversed(), kids);
    let all = val(weight_sum(nodes, f, kids, n));
    let rest = val(leftover_of(nodes, sizes, f, kids));
    let room = val(main_len(f.inner, across));
    let share = |k: int| share_of(val, nodes, f, kids[k]);
    let own = |k: int| own_of(val, nodes, sizes, f, kids[k]);
    assert(across == f.row());
    lemma_sums(val, nodes, sizes, f, kids, n);
    let at = choose|k: int|
        0 <= k < kids.len() && (weight_of(
            nodes[(#[trigger] kids[k]).0 as int].style,
            across,
        ) matches Some(w) && val(w) > 0 as real);
    assert forall|k: int| 0 <= k < n implies #[trigger] share(k) >= 0 as real by {
        assert(kids[k] == kids[k]);
    }
    lemma_shares_positive(share, n, at);
    assert(share(at) > 0 as real);
    assert(all > 0 as real);
    // What the children take.
    let by = rest / all;
    let g_own = |c: NodeId| own_of(val, nodes, sizes, f, c);
    let g_share = |c: NodeId| share_of(val, nodes, f, c);
    let o_own = |k: int| g_own(order[k]);
    let o_share = |k: int| g_share(order[k]);
    let scaled = |k: int| by * o_share(k);
    lemma_total_ordered(f.reversed(), kids, g_own);
    lemma_total_ordered(f.reversed(), kids, g_share);
    lemma_total_same(|k: int| g_own(kids[k]), own, n);
    lemma_total_same(|k: int| g_share(kids[k]), share, n);
    let len = |k: int| len_at(val, slots, across, k);
    let own_len = |k: int|
        if weight_of(nodes[slots[k].id.0 as int].style, across) is Some {
            0 as real
        } else {
            len_at(val, slots, across, k)
        };
    assert forall|k: int| 0 <= k < n implies #[trigger] len(k) == o_own(k) + scaled(k) by {
        lemma_len(val, nodes, sizes, f, kids, k);
    }
    assert forall|k: int| 0 <= k < n implies #[trigger] own_len(k) == o_own(k) by {
        lemma_len(val, nodes, sizes, f, kids, k);
        lemma_order(nodes, sizes, f, kids, k);
    }
    lemma_total_same(own_len, o_own, n);
    lemma_total_same(len, |k: int| o_own(k) + scaled(k), n);
    lemma_total_plus(o_own, scaled, n);
    lemma_total_scaled(o_share, by, n);
    lemma_scale(rest, 0 as real, all);
    assert(lens(val, slots, across) == own_lens(val, nodes, slots, across) + rest);
    // What is left.
    lemma_whole::<N>(val, 0);
    assert(own_lens(val, nodes, slots, across) == val(settled_sum(nodes, sizes, f, kids, n)));
    let taken = own_lens(val, nodes, slots, across) + gap_total(val, f.gap, n);
    assert(taken <= room ==> rest == room - taken);
    assert(taken >= room ==> rest == 0 as real);
    if taken >= room {
        assert forall|k: int|
            0 <= k < slots.len() && weight_of(
                nodes[(#[trigger] slots[k]).id.0 as int].style,
                across,
            ) is Some implies len_at(val, slots, across, k) == 0 as real by {
            lemma_len(val, nodes, sizes, f, kids, k);
            lemma_order(nodes, sizes, f, kids, k);
            lemma_scale(rest, 0 as real, all);
            let x = g_share(order[k]);
            assert(by * x == 0 as real) by (nonlinear_arith)
                requires
                    by * all == 0 as real,
                    all > 0 as real,
            ;
        }
    }
    assert forall|i: int, j: int|
        0 <= i < slots.len() && 0 <= j < slots.len() && weight_of(
            nodes[(#[trigger] slots[i]).id.0 as int].style,
            across,
        ) is Some && weight_of(
            nodes[(#[trigger] slots[j]).id.0 as int].style,
            across,
        ) is Some implies len_at(val, slots, across, i) * val(
        weight_of(nodes[slots[j].id.0 as int].style, across)->0,
    ) == len_at(val, slots, across, j) * val(
        weight_of(nodes[slots[i].id.0 as int].style, across)->0,
    ) by {
        lemma_len(val, nodes, sizes, f, kids, i);
        lemma_len(val, nodes, sizes, f, kids, j);
        lemma_order(nodes, sizes, f, kids, i);
        lemma_order(nodes, sizes, f, kids, j);
        let x = g_share(order[i]);
        let y = g_share(order[j]);
        assert((by * x) * y == (by * y) * x) by (nonlinear_arith);
    }
}

// ---- one child ----

/// Where a rectangle ends along an axis.
pub open spec fn end_of<N>(val: spec_fn(N) -> real, r: Rect<N>, across: bool) -> real {
    val(main_start(r, across)) + val(main_len(r, across))
}

/// How a rectangle stands in the room that it has along an axis: at its start, at its
/// end, or with as much room before it as after it.
pub open spec fn stands<N>(
    val: spec_fn(N) -> real,
    align: Align,
    from: real,
    to: real,
    room: Rect<N>,
    across: bool,
) -> bool {
    let a = val(main_start(room, across));
    let b = end_of(val, room, across);
    match align {
        Align::Start => from == a,
        Align::Center => from - a == b - to,
        Align::End => to == b,
    }
}

/// The extent of a child that is `len` long along an axis in a room of length `room`:
/// what is fixed, a part of the room, or its natural size `natural`; for one that
/// fills, `filled` says.
pub open spec fn has_asked_len<N>(
    val: spec_fn(N) -> real,
    sizing: Sizing<N>,
    len: real,
    room: real,
    natural: N,
    filled: bool,
) -> bool {
    match sizing {
        Sizing::Fixed(v) => len == val(v),
        Sizing::Percent(p) => len == val(p) * room,
        Sizing::Hug => len == val(natural),
        Sizing::Fill(_) => filled,
    }
}

pub open spec fn natural_len<N>(s: Size<N>, across: bool) -> N {
    if across {
        s.w
    } else {
        s.h
    }
}

/// Children are placed in source order, or backwards in a reversed container. Each
/// has the extent that it asks for along both axes, and across the flow one that fills
/// has all the room; there it stands where the container aligns it.
pub proof fn law_flow_child<N: Num>(
    val: spec_fn(N) -> real,
    nodes: Seq<Node<N>>,
    sizes: Seq<Size<N>>,
    f: FlowBox<N>,
    kids: Seq<NodeId>,
    k: int,
)
    requires
        exact(val),
        0 <= k < kids.len(),
    ensures
        ({
            let across = goes_across(f.direction);
            let s = flow_slots(nodes, sizes, f, kids)[k];
            let style = nodes[s.id.0 as int].style;
            let natural = sizes[s.id.0 as int];
            let cross_room = val(main_len(f.inner, !across));
            let cross_len = val(main_len(s.rect, !across));
            &&& s.id == if f.direction is RowReverse || f.direction is ColumnReverse {
                kids[kids.len() - 1 - k]
            } else {
                kids[k]
            }
            &&& s.deep
            &&& has_asked_len(
                val,
                asked(style, across),
                val(main_len(s.rect, across)),
                val(main_len(f.inner, across)),
                natural_len(natural, across),
                true,
            )
            &&& has_asked_len(
                val,
                asked(style, !across),
                cross_len,
                cross_room,
                natural_len(natural, !across),
                cross_len == cross_room,
            )
            &&& !(style.position is Relative) && !f.scroll_x && !f.scroll_y ==> stands(
                val,
                f.align_cross,
                val(main_start(s.rect, !across)),
                end_of(val, s.rect, !across),
                f.inner,
                !across,
            )
        }),
{
    lemma_order(nodes, sizes, f, kids, k);
    lemma_whole::<N>(val, 0);
    lemma_whole::<N>(val, 2);
}

/// A child stands right behind the one before it, a gap apart.
pub proof fn law_flow_children_follow<N: Num>(
    val: spec_fn(N) -> real,
    nodes: Seq<Node<N>>,
    sizes: Seq<Size<N>>,
    f: FlowBox<N>,
    kids: Seq<NodeId>,
    k: int,
)
    requires
        exact(val),
        0 <= k,
        k + 1 < kids.len(),
        ({
            let slots = flow_slots(nodes, sizes, f, kids);
            !(nodes[slots[k].id.0 as int].style.position is Relative) && !(nodes[slots[k
                + 1].id.0 as int].style.position is Relative)
        }),
    ensures
        ({
            let across = goes_across(f.direction);
            let slots = flow_slots(nodes, sizes, f, kids);
            val(main_start(slots[k + 1].rect, across)) == end_of(val, slots[k].rect, across) + val(
                f.gap,
            )
        }),
{
}

/// No child is nudged or panned.
pub open spec fn nothing_moves<N>(nodes: Seq<Node<N>>, f: FlowBox<N>, kids: Seq<NodeId>) -> bool {
    &&& !f.scroll_x && !f.scroll_y
    &&& forall|k: int|
        0 <= k < kids.len() ==> !(nodes[(#[trigger] kids[k]).0 as int].style.position is Relative)
}

proof fn lemma_cursor<N: Num>(
    val: spec_fn(N) -> real,
    nodes: Seq<Node<N>>,
    sizes: Seq<Size<N>>,
    f: FlowBox<N>,
    kids: Seq<NodeId>,
    k: nat,
)
    requires
        exact(val),
        nothing_moves(nodes, f, kids),
        k < kids.len(),
    ensures
        ({
            let across = goes_across(f.direction);
            let slots = flow_slots(nodes, sizes, f, kids);
            &&& val(main_start(slots[k as int].rect, across)) == val(
                main_start(slots[0].rect, across),
            ) + total(|i: int| len_at(val, slots, across, i), k) + val(f.gap) * (k as real)
        }),
    decreases k,
{
    let across = goes_across(f.direction);
    let slots = flow_slots(nodes, sizes, f, kids);
    if k > 0 {
        lemma_cursor(val, nodes, sizes, f, kids, (k - 1) as nat);
        lemma_order(nodes, sizes, f, kids, k - 1);
        lemma_order(nodes, sizes, f, kids, k as int);
        law_flow_children_follow(val, nodes, sizes, f, kids, k - 1);
        let g = val(f.gap);
        let m = (k - 1) as real;
        assert(g * (m + 1 as real) == g * m + g) by (nonlinear_arith);
        let len = |i: int| len_at(val, slots, across, i);
        assert(total(len, k) == total(len, (k - 1) as nat) + len(k - 1));
    } else {
        let g = val(f.gap);
        assert(g * (0 as real) == 0 as real) by (nonlinear_arith);
    }
}

/// Without a child that fills, the weights add up to nothing.
proof fn lemma_no_weights<N: Num>(
    val: spec_fn(N) -> real,
    nodes: Seq<Node<N>>,
    f: FlowBox<N>,
    kids: Seq<NodeId>,
    n: nat,
)
    requires
        exact(val),
        n <= kids.len(),
        forall|k: int|
            0 <= k < kids.len() ==> weight_of(
                nodes[(#[trigger] kids[k]).0 as int].style,
                goes_across(f.direction),
            ) is None,
    ensures
        val(weight_sum(nodes, f, kids, n)) == 0 as real,
    decreases n,
{
    lemma_whole::<N>(val, 0);
    if n > 0 {
        lemma_no_weights(val, nodes, f, kids, (n - 1) as nat);
        assert(weight_of(nodes[kids[n - 1].0 as int].style, goes_across(f.direction)) is None);
    }
}

proof fn lemma_some_weight<N: Num>(
    val: spec_fn(N) -> real,
    nodes: Seq<Node<N>>,
    sizes: Seq<Size<N>>,
    f: FlowBox<N>,
    kids: Seq<NodeId>,
)
    requires
        exact(val),
        some_fill(val, nodes, kids, goes_across(f.direction)),
    ensures
        val(weight_sum(nodes, f, kids, kids.len())) > 0 as real,
{
    let across = goes_across(f.direction);
    let n = kids.len();
    let share = |k: int| share_of(val, nodes, f, kids[k]);
    lemma_sums(val, nodes, sizes, f, kids, n);
    let at = choose|k: int|
        0 <= k < kids.len() && (weight_of(
            nodes[(#[trigger] kids[k]).0 as int].style,
            across,
        ) matches Some(w) && val(w) > 0 as real);
    assert forall|k: int| 0 <= k < n implies #[trigger] share(k) >= 0 as real by {
        assert(kids[k] == kids[k]);
    }
    lemma_shares_positive(share, n, at);
    assert(share(at) > 0 as real);
}

/// The first child starts where the container does if any child fills. If none does,
/// the children stand together where the container aligns them: at its start, at its
/// end, or in the middle; if they do not fit, at its start.
pub proof fn law_flow_children_are_aligned<N: Num>(
    val: spec_fn(N) -> real,
    nodes: Seq<Node<N>>,
    sizes: Seq<Size<N>>,
    f: FlowBox<N>,
    kids: Seq<NodeId>,
)
    requires
        exact(val),
        nothing_moves(nodes, f, kids),
        kids.len() > 0,
    ensures
        ({
            let across = goes_across(f.direction);
            let slots = flow_slots(nodes, sizes, f, kids);
            let from = val(main_start(slots[0].rect, across));
            let to = end_of(val, slots.last().rect, across);
            let room = val(main_len(f.inner, across));
            let taken = lens(val, slots, across) + gap_total(val, f.gap, kids.len());
            &&& to - from == taken
            &&& some_fill(val, nodes, kids, across) ==> from == val(main_start(f.inner, across))
            &&& (forall|k: int|
                0 <= k < kids.len() ==> weight_of(
                    nodes[(#[trigger] kids[k]).0 as int].style,
                    across,
                ) is None) ==> if taken <= room {
                stands(val, f.align_main, from, to, f.inner, across)
            } else {
                from == val(main_start(f.inner, across))
            }
        }),
{
    let across = goes_across(f.direction);
    let slots = flow_slots(nodes, sizes, f, kids);
    let n = kids.len();
    let len = |i: int| len_at(val, slots, across, i);
    lemma_cursor(val, nodes, sizes, f, kids, (n - 1) as nat);
    lemma_order(nodes, sizes, f, kids, 0);
    lemma_whole::<N>(val, 0);
    lemma_whole::<N>(val, 2);
    assert(total(len, n) == total(len, (n - 1) as nat) + len(n - 1));
    if some_fill(val, nodes, kids, across) {
        lemma_some_weight(val, nodes, sizes, f, kids);
    }
    if forall|k: int|
        0 <= k < kids.len() ==> weight_of(
            nodes[(#[trigger] kids[k]).0 as int].style,
            across,
        ) is None {
        lemma_no_weights(val, nodes, f, kids, n);
        lemma_own_total(val, nodes, sizes, f, kids);
    }
}

/// Without a child that fills, the extents add up to the settled ones.
proof fn lemma_own_total<N: Num>(
    val: spec_fn(N) -> real,
    nodes: Seq<Node<N>>,
    sizes: Seq<Size<N>>,
    f: FlowBox<N>,
    kids: Seq<NodeId>,
)
    requires
        exact(val),
        forall|k: int|
            0 <= k < kids.len() ==> weight_of(
                nodes[(#[trigger] kids[k]).0 as int].style,
                goes_across(f.direction),
            ) is None,
    ensures
        lens(val, flow_slots(nodes, sizes, f, kids), goes_across(f.direction)) == val(
            settled_sum(nodes, sizes, f, kids, kids.len()),
        ),
{
    let across = goes_across(f.direction);
    let slots = flow_slots(nodes, sizes, f, kids);
    let n = kids.len();
    let order = flow_order(f.reversed(), kids);
    let len = |i: int| len_at(val, slots, across, i);
    let g_own = |c: NodeId| own_of(val, nodes, sizes, f, c);
    let o_own = |k: int| g_own(order[k]);
    lemma_sums(val, nodes, sizes, f, kids, n);
    lemma_total_ordered(f.reversed(), kids, g_own);
    lemma_total_same(
        |k: int| g_own(kids[k]),
        |k: int| own_of(val, nodes, sizes, f, kids[k]),
        n,
    );
    assert forall|k: int| 0 <= k < n implies #[trigger] len(k) == o_own(k) by {
        lemma_order(nodes, sizes, f, kids, k);
        let j = if f.reversed() {
            n - 1 - k
        } else {
            k
        };
        assert(weight_of(nodes[kids[j].0 as int].style, across) is None);
    }
    lemma_total_same(len, o_own, n);
}

/// The content of a flow container: along the flow, all children and gaps, or the
/// whole container if a child fills; across it, the longest child.
pub proof fn law_flow_content<N: Num>(
    val: spec_fn(N) -> real,
    nodes: Seq<Node<N>>,
    sizes: Seq<Size<N>>,
    f: FlowBox<N>,
    kids: Seq<NodeId>,
)
    requires
        exact(val),
    ensures
        ({
            let across = goes_across(f.direction);
            let slots = flow_slots(nodes, sizes, f, kids);
            let content = flow_content(nodes, sizes, f, kids);
            let main = val(natural_len(content, across));
            let cross = val(natural_len(content, !across));
            &&& some_fill(val, nodes, kids, across) ==> main == val(main_len(f.inner, across))
            &&& (forall|k: int|
                0 <= k < kids.len() ==> weight_of(
                    nodes[(#[trigger] kids[k]).0 as int].style,
                    across,
                ) is None) ==> main == lens(val, slots, across) + gap_total(
                val,
                f.gap,
                kids.len(),
            )
            &&& cross >= 0 as real
            &&& forall|k: int|
                0 <= k < slots.len() ==> val(main_len((#[trigger] slots[k]).rect, !across)) <= cross
            &&& cross == 0 as real || exists|k: int|
                0 <= k < slots.len() && val(main_len((#[trigger] slots[k]).rect, !across)) == cross
        }),
{
    let across = goes_across(f.direction);
    let n = kids.len();
    lemma_whole::<N>(val, 0);
    if some_fill(val, nodes, kids, across) {
        lemma_some_weight(val, nodes, sizes, f, kids);
    }
    if forall|k: int|
        0 <= k < kids.len() ==> weight_of(
            nodes[(#[trigger] kids[k]).0 as int].style,
            across,
        ) is None {
        lemma_no_weights(val, nodes, f, kids, n);
        lemma_own_total(val, nodes, sizes, f, kids);
        let g = val(f.gap);
        assert(g * (0 as real) == 0 as real) by (nonlinear_arith);
    }
    lemma_cross_max(val, nodes, sizes, f, kids, n);
}

proof fn lemma_cross_max<N: Num>(
    val: spec_fn(N) -> real,
    nodes: Seq<Node<N>>,
    sizes: Seq<Size<N>>,
    f: FlowBox<N>,
    kids: Seq<NodeId>,
    n: nat,
)
    requires
        exact(val),
        n <= kids.len(),
    ensures
        ({
            let across = goes_across(f.direction);
            let slots = flow_slots(nodes, sizes, f, kids);
            let cross = val(cross_max(nodes, sizes, f, flow_order(f.reversed(), kids), n));
            &&& cross >= 0 as real
            &&& forall|k: int|
                0 <= k < n ==> val(main_len((#[trigger] slots[k]).rect, !across)) <= cross
            &&& cross == 0 as real || exists|k: int|
                0 <= k < n && val(main_len((#[trigger] slots[k]).rect, !across)) == cross
        }),
    decreases n,
{
    lemma_whole::<N>(val, 0);
    if n > 0 {
        let across = goes_across(f.direction);
        let slots = flow_slots(nodes, sizes, f, kids);
        lemma_cross_max(val, nodes, sizes, f, kids, (n - 1) as nat);
        lemma_order(nodes, sizes, f, kids, n - 1);
        assert(val(main_len(slots[n - 1].rect, !across)) == val(
            cross_extent(nodes, sizes, f, slots[n - 1].id),
        ));
    }
}

// ---- moved children ----

/// `still` is `nodes` with node `c` standing still.
pub open spec fn held_still<N>(nodes: Seq<Node<N>>, still: Seq<Node<N>>, c: NodeId) -> bool {
    &&& c.0 < nodes.len() == still.len()
    &&& forall|i: int|
        0 <= i < nodes.len() && i != c.0 ==> #[trigger] still[i] == nodes[i]
    &&& still[c.0 as int] == (Node {
        style: Style { position: Position::Static, ..nodes[c.0 as int].style },
        ..nodes[c.0 as int]
    })
}

proof fn lemma_still_sums<N: Num>(
    nodes: Seq<Node<N>>,
    still: Seq<Node<N>>,
    sizes: Seq<Size<N>>,
    f: FlowBox<N>,
    kids: Seq<NodeId>,
    c: NodeId,
    n: nat,
)
    requires
        held_still(nodes, still, c),
        in_range(nodes, kids),
        n <= kids.len(),
    ensures
        settled_sum(nodes, sizes, f, kids, n) == settled_sum(still, sizes, f, kids, n),
        weight_sum(nodes, f, kids, n) == weight_sum(still, f, kids, n),
    decreases n,
{
    if n > 0 {
        lemma_still_sums(nodes, still, sizes, f, kids, c, (n - 1) as nat);
        assert(kids[n - 1].0 < nodes.len());
        if kids[n - 1].0 != c.0 {
            assert(still[kids[n - 1].0 as int] == nodes[kids[n - 1].0 as int]);
        }
    }
}

proof fn lemma_still_cursor<N: Num>(
    nodes: Seq<Node<N>>,
    still: Seq<Node<N>>,
    sizes: Seq<Size<N>>,
    f: FlowBox<N>,
    leftover: N,
    weights: N,
    order: Seq<NodeId>,
    c: NodeId,
    k: nat,
)
    requires
        held_still(nodes, still, c),
        in_range(nodes, order),
        k <= order.len(),
    ensures
        flow_cursor(nodes, sizes, f, leftover, weights, order, k) == flow_cursor(
            still,
            sizes,
            f,
            leftover,
            weights,
            order,
            k,
        ),
    decreases k,
{
    if k > 0 {
        lemma_still_cursor(nodes, still, sizes, f, leftover, weights, order, c, (k - 1) as nat);
        assert(order[k - 1].0 < nodes.len());
        if order[k - 1].0 != c.0 {
            assert(still[order[k - 1].0 as int] == nodes[order[k - 1].0 as int]);
        }
    }
}

/// How far an offset moves: forwards by what is given at the near side, else backwards
/// by what is given at the far side.
pub open spec fn moved_by<N>(val: spec_fn(N) -> real, near: Option<N>, far: Option<N>) -> real {
    match (near, far) {
        (Some(a), _) => val(a),
        (None, Some(b)) => -val(b),
        (None, None) => 0 as real,
    }
}

/// A child that is positioned relative to its place is moved by its offsets from where
/// it would stand, and moves no other child; its size is the same.
pub proof fn law_relative_child_moves_alone<N: Num>(
    val: spec_fn(N) -> real,
    nodes: Seq<Node<N>>,
    still: Seq<Node<N>>,
    sizes: Seq<Size<N>>,
    f: FlowBox<N>,
    kids: Seq<NodeId>,
    c: NodeId,
    k: int,
)
    requires
        exact(val),
        held_still(nodes, still, c),
        nodes[c.0 as int].style.position is Relative,
        in_range(nodes, kids),
        0 <= k < kids.len(),
    ensures
        ({
            let here = flow_slots(nodes, sizes, f, kids)[k];
            let there = flow_slots(still, sizes, f, kids)[k];
            let style = nodes[c.0 as int].style;
            &&& here.id == there.id
            &&& here.id != c ==> here == there
            &&& here.id == c ==> {
                &&& val(here.rect.x) == val(there.rect.x) + moved_by(val, style.left, style.right)
                &&& val(here.rect.y) == val(there.rect.y) + moved_by(val, style.top, style.bottom)
                &&& here.rect.w == there.rect.w
                &&& here.rect.h == there.rect.h
            }
        }),
{
    let n = kids.len();
    let order = flow_order(f.reversed(), kids);
    lemma_still_sums(nodes, still, sizes, f, kids, c, n);
    assert forall|j: int| 0 <= j < order.len() implies (#[trigger] order[j]).0 < nodes.len() by {
        lemma_order(nodes, sizes, f, kids, j);
    }
    lemma_still_cursor(
        nodes,
        still,
        sizes,
        f,
        leftover_of(nodes, sizes, f, kids),
        weight_sum(nodes, f, kids, n),
        order,
        c,
        k as nat,
    );
    assert(order[k].0 < nodes.len());
    if order[k].0 != c.0 {
        assert(still[order[k].0 as int] == nodes[order[k].0 as int]);
    } else {
        assert(order[k] == c);
    }
}

/// Scrolling pans all children by the same offset, along the axes that scroll, and
/// changes no size.
pub proof fn law_scrolling_pans<N: Num>(
    val: spec_fn(N) -> real,
    nodes: Seq<Node<N>>,
    sizes: Seq<Size<N>>,
    f: FlowBox<N>,
    kids: Seq<NodeId>,
    k: int,
)
    requires
        exact(val),
        0 <= k < kids.len(),
    ensures
        ({
            let here = flow_slots(nodes, sizes, f, kids)[k];
            let there = flow_slots(
                nodes,
                sizes,
                FlowBox { scroll_x: false, scroll_y: false, ..f },
                kids,
            )[k];
            &&& here.id == there.id
            &&& here.rect.w == there.rect.w
            &&& here.rect.h == there.rect.h
            &&& val(here.rect.x) == val(there.rect.x) - (if f.scroll_x {
                val(f.scroll.x)
            } else {
                0 as real
            })
            &&& val(here.rect.y) == val(there.rect.y) - (if f.scroll_y {
                val(f.scroll.y)
            } else {
                0 as real
            })
        }),
{
    let g = FlowBox { scroll_x: false, scroll_y: false, ..f };
    let n = kids.len();
    let order = flow_order(f.reversed(), kids);
    lemma_unpanned_sums(nodes, sizes, f, g, kids, n);
    lemma_unpanned_cursor(
        nodes,
        sizes,
        f,
        g,
        leftover_of(nodes, sizes, f, kids),
        weight_sum(nodes, f, kids, n),
        order,
        k as nat,
    );
}

proof fn lemma_unpanned_sums<N: Num>(
    nodes: Seq<Node<N>>,
    sizes: Seq<Size<N>>,
    f: FlowBox<N>,
    g: FlowBox<N>,
    kids: Seq<NodeId>,
    n: nat,
)
    requires
        g == (FlowBox { scroll_x: false, scroll_y: false, ..f }),
        n <= kids.len(),
    ensures
        settled_sum(nodes, sizes, f, kids, n) == settled_sum(nodes, sizes, g, kids, n),
        weight_sum(nodes, f, kids, n) == weight_sum(nodes, g, kids, n),
    decreases n,
{
    if n > 0 {
        lemma_unpanned_sums(nodes, sizes, f, g, kids, (n - 1) as nat);
    }
}

proof fn lemma_unpanned_cursor<N: Num>(
    nodes: Seq<Node<N>>,
    sizes: Seq<Size<N>>,
    f: FlowBox<N>,
    g: FlowBox<N>,
    leftover: N,
    weights: N,
    order: Seq<NodeId>,
    k: nat,
)
    requires
        g == (FlowBox { scroll_x: false, scroll_y: false, ..f }),
        k <= order.len(),
    ensures
        flow_cursor(nodes, sizes, f, leftover, weights, order, k) == flow_cursor(
            nodes,
            sizes,
            g,
            leftover,
            weights,
            order,
            k,
        ),
    decreases k,
{
    if k > 0 {
        lemma_unpanned_cursor(nodes, sizes, f, g, leftover, weights, order, (k - 1) as nat);
    }
}

} // verus!
