//! What clicks and the wheel do to dropdowns, tree rows and panels that scroll.

use vstd::prelude::*;
use crate::designer::nodes::{
    all_shut, flipped, picked, popup_from, popup_rect, preorder, preorder_below,
    row_at, scrolled, scroller, toggled_dropdown, UiModel, Want,
};
use crate::toolkit::arena::{ranked, Node, NodeId, NodeKind};
use crate::toolkit::geometry::Point;
use crate::toolkit::num::{exact, lemma_whole, Num};

verus! {

/// Dropdown `i` is open.
pub open spec fn drops_down<N>(m: UiModel<N>, i: int) -> bool {
    m.nodes[i].rest.kind matches NodeKind::Dropdown { open, .. } && open
}

/// A click on a dropdown opens it if it was closed and closes it if it was open. At most
/// that one is open afterwards. No dropdown changes what it offers or what is chosen.
pub proof fn law_one_dropdown_is_open<N: Num>(m: UiModel<N>, id: NodeId, k: int)
    requires
        id.0 < m.nodes.len(),
        m.nodes[id.0 as int].rest.kind is Dropdown,
        0 <= k < m.nodes.len(),
    ensures
        ({
            let a = toggled_dropdown(m, id);
            &&& a.nodes.len() == m.nodes.len()
            &&& drops_down(a, id.0 as int) <==> !drops_down(m, id.0 as int)
            &&& k != id.0 ==> !drops_down(a, k)
            &&& !drops_down(all_shut(m), k)
            &&& m.nodes[k].rest.kind matches NodeKind::Dropdown {
                placeholder,
                options,
                selected,
                ..
            } ==> (a.nodes[k].rest.kind matches NodeKind::Dropdown {
                placeholder: p,
                options: o,
                selected: s,
                ..
            } && p == placeholder && o == options && s == selected)
            &&& !(m.nodes[k].rest.kind is Dropdown) ==> a.nodes[k] == m.nodes[k]
        }),
{
}

/// Picking a row of an option list chooses it and closes the list; a row that the list does
/// not have chooses nothing. Nothing else changes.
pub proof fn law_picked_row_is_chosen<N: Num>(m: UiModel<N>, id: NodeId, row: usize)
    requires
        id.0 < m.nodes.len(),
        m.nodes[id.0 as int].rest.kind is Dropdown,
    ensures
        ({
            let a = picked(m, id, row);
            let before = m.nodes[id.0 as int].rest.kind;
            let after = a.nodes[id.0 as int].rest.kind;
            &&& a.nodes.len() == m.nodes.len()
            &&& !drops_down(a, id.0 as int)
            &&& after is Dropdown && after->Dropdown_options == before->Dropdown_options
            &&& after->Dropdown_selected == if row < before->Dropdown_options@.len() {
                Some(row)
            } else {
                before->Dropdown_selected
            }
            &&& forall|k: int|
                0 <= k < m.nodes.len() && k != id.0 ==> #[trigger] a.nodes[k] == m.nodes[k]
        }),
{
}

/// A point in an open list is over the row that is drawn there: rows follow each other below
/// the box, each as tall as a line and 12 more, and move with the list as it scrolls.
pub proof fn law_row_is_the_one_drawn_there<N: Num>(
    val: spec_fn(N) -> real,
    n: Node<N>,
    p: Point<N>,
    row: nat,
)
    requires
        exact(val),
        row <= usize::MAX,
        val(n.style.font_size) >= 0 as real,
        ({
            let tall = val(n.style.font_size) * (13 as real / 10 as real) + 12 as real;
            let y = val(p.y) - val(n.computed.y) - val(n.computed.h) + val(n.scroll_offset.y);
            row as real * tall <= y && y < (row + 1) as real * tall
        }),
    ensures
        row_at(n, p) == row,
{
    lemma_whole::<N>(val, 0);
    lemma_whole::<N>(val, 12);
    let tall = val(n.style.font_size) * (13 as real / 10 as real) + 12 as real;
    let y = val(p.y) - val(n.computed.y) - val(n.computed.h) + val(n.scroll_offset.y);
    let fs = val(n.style.font_size);
    assert(fs * (13 as real / 10 as real) >= 0 as real) by (nonlinear_arith)
        requires
            fs >= 0 as real,
    ;
    let r = row as real;
    let q = y / tall;
    assert(q * tall == y && r <= q && q < r + 1 as real) by (nonlinear_arith)
        requires
            tall > 0 as real,
            q == y / tall,
            r * tall <= y,
            y < (r + 1 as real) * tall,
    ;
    assert((row + 1) as real == r + 1 as real);
}

/// The list that is hit is the first of those that are open and hold the point.
pub proof fn law_open_list_under_the_point_is_hit<N: Num>(
    nodes: Seq<Node<N>>,
    p: Point<N>,
    max_h: N,
    i: int,
)
    requires
        0 <= i <= nodes.len() <= 0x1_0000_0000,
    ensures
        match popup_from(nodes, p, max_h, i) {
            Some(id) => {
                &&& i <= id.0 < nodes.len()
                &&& over_list(nodes[id.0 as int], p, max_h)
                &&& forall|k: int| i <= k < id.0 ==> !over_list(#[trigger] nodes[k], p, max_h)
            },
            None => forall|k: int|
                i <= k < nodes.len() ==> !over_list(#[trigger] nodes[k], p, max_h),
        },
    decreases nodes.len() - i,
{
    if i < nodes.len() {
        law_open_list_under_the_point_is_hit(nodes, p, max_h, i + 1);
    }
}

/// `p` lies in the open option list of `n`.
pub open spec fn over_list<N: Num>(n: Node<N>, p: Point<N>, max_h: N) -> bool {
    popup_rect(n, max_h) matches Some(r) && N::le_of(r.x, p.x) && N::le_of(
        p.x,
        N::add_of(r.x, r.w),
    ) && N::le_of(r.y, p.y) && N::le_of(p.y, N::add_of(r.y, r.h))
}

/// A click on a row's triangle expands it if it was collapsed, and collapses it if it was
/// expanded; a second click undoes the first.
pub proof fn law_triangle_flips_its_row<N: Num>(m: UiModel<N>, id: NodeId)
    requires
        id.0 < m.nodes.len(),
        m.nodes[id.0 as int].rest.kind is TreeViewItem,
    ensures
        ({
            let a = flipped(m, id);
            let (k, l) = (m.nodes[id.0 as int].rest.kind, a.nodes[id.0 as int].rest.kind);
            &&& l is TreeViewItem && l->TreeViewItem_collapsed == !k->TreeViewItem_collapsed
            &&& forall|i: int|
                0 <= i < m.nodes.len() && i != id.0 ==> #[trigger] a.nodes[i] == m.nodes[i]
            &&& flipped(a, id) == m
        }),
{
    let a = flipped(m, id);
    assert(flipped(a, id).nodes =~= m.nodes);
}

/// Scrolling moves a node's content along the axes that it scrolls, the other way than the
/// wheel, from its start to where its end shows and no further; other nodes stay.
pub proof fn law_scrolling_stays_in_the_content<N: Num>(
    val: spec_fn(N) -> real,
    m: UiModel<N>,
    i: int,
    dx: N,
    dy: N,
)
    requires
        exact(val),
        0 <= i < m.nodes.len(),
    ensures
        ({
            let (n, o) = (m.nodes[i].rest, scrolled(m, Some(i), dx, dy).nodes[i].rest);
            &&& n.style.scroll_x ==> goes_by(
                val(n.scroll_offset.x),
                val(o.scroll_offset.x),
                val(dx),
                val(n.content_size.w) - val(n.computed.w),
            )
            &&& n.style.scroll_y ==> goes_by(
                val(n.scroll_offset.y),
                val(o.scroll_offset.y),
                val(dy),
                val(n.content_size.h) - val(n.computed.h),
            )
            &&& !n.style.scroll_x ==> o.scroll_offset.x == n.scroll_offset.x
            &&& !n.style.scroll_y ==> o.scroll_offset.y == n.scroll_offset.y
            &&& forall|k: int|
                0 <= k < m.nodes.len() && k != i ==> #[trigger] scrolled(
                    m,
                    Some(i),
                    dx,
                    dy,
                ).nodes[k] == m.nodes[k]
        }),
{
    lemma_whole::<N>(val, 0);
}

/// An offset goes from `was` to `is` when it is scrolled by `d` over content that reaches
/// `beyond` what shows of it.
pub open spec fn goes_by(was: real, is: real, d: real, beyond: real) -> bool {
    let end = if beyond > 0 as real {
        beyond
    } else {
        0 as real
    };
    if was - d < 0 as real {
        is == 0 as real
    } else if was - d > end {
        is == end
    } else {
        is == was - d
    }
}

/// What scrolls is the innermost node of the chain under the pointer that can.
pub proof fn law_innermost_scrolls<N>(nodes: Seq<Node<N>>, chain: Seq<int>, n: nat)
    requires
        n <= chain.len(),
    ensures
        match scroller(nodes, chain, n) {
            Some(i) => exists|k: int|
                0 <= k < n && #[trigger] chain[k] == i && pans(nodes[i]) && forall|j: int|
                    k < j < n ==> !pans(nodes[#[trigger] chain[j]]),
            None => forall|j: int| 0 <= j < n ==> !pans(nodes[#[trigger] chain[j]]),
        },
    decreases n,
{
    if n > 0 {
        law_innermost_scrolls(nodes, chain, (n - 1) as nat);
        assert(chain[n - 1] == chain[n - 1]);
    }
}

/// A node that scrolls along some axis.
pub open spec fn pans<N>(n: Node<N>) -> bool {
    n.style.scroll_x || n.style.scroll_y
}

/// A walk comes to a node before what is below it, and to children in their order; it
/// finds the wanted kind and no other.
pub proof fn law_walk_finds_the_wanted<N: Num>(
    nodes: Seq<Node<N>>,
    rank: spec_fn(int) -> nat,
    id: NodeId,
    want: Want,
)
    requires
        ranked(nodes, rank),
        id.0 < nodes.len(),
    ensures
        ({
            let all = preorder(nodes, rank, id, want);
            &&& forall|k: int|
                0 <= k < all.len() ==> is_of(nodes[(#[trigger] all[k]).0 as int].kind, want)
            &&& is_of(nodes[id.0 as int].kind, want) ==> all.len() > 0 && all[0] == id
            &&& forall|c: int, x: NodeId|
                0 <= c < nodes[id.0 as int].children@.len() && #[trigger] preorder(
                    nodes,
                    rank,
                    nodes[id.0 as int].children@[c],
                    want,
                ).contains(x) ==> all.contains(x)
        }),
    decreases rank(id.0 as int), nodes[id.0 as int].children@.len() + 1,
{
    let n = nodes[id.0 as int].children@.len();
    lemma_walk_below(nodes, rank, id, n, want);
    let more = preorder_below(nodes, rank, id, n, want);
    let all = preorder(nodes, rank, id, want);
    let own = if is_of(nodes[id.0 as int].kind, want) {
        seq![id]
    } else {
        Seq::empty()
    };
    assert(all == own + more);
    assert forall|k: int| 0 <= k < all.len() implies is_of(
        nodes[(#[trigger] all[k]).0 as int].kind,
        want,
    ) by {
        if k >= own.len() {
            assert(all[k] == more[k - own.len()]);
        }
    }
    assert forall|c: int, x: NodeId|
        0 <= c < nodes[id.0 as int].children@.len() && #[trigger] preorder(
            nodes,
            rank,
            nodes[id.0 as int].children@[c],
            want,
        ).contains(x) implies all.contains(x) by {
        assert(more.contains(x));
        assert(all[own.len() + more.index_of(x)] == x);
    }
}

/// A kind that a walk is after.
pub open spec fn is_of<N>(kind: NodeKind<N>, want: Want) -> bool {
    (want == Want::Buttons && kind is Button) || (want == Want::TreeRows && kind is TreeViewItem)
}

proof fn lemma_walk_below<N: Num>(
    nodes: Seq<Node<N>>,
    rank: spec_fn(int) -> nat,
    id: NodeId,
    n: nat,
    want: Want,
)
    requires
        ranked(nodes, rank),
        id.0 < nodes.len(),
        n <= nodes[id.0 as int].children@.len(),
    ensures
        ({
            let all = preorder_below(nodes, rank, id, n, want);
            &&& forall|k: int|
                0 <= k < all.len() ==> is_of(nodes[(#[trigger] all[k]).0 as int].kind, want)
            &&& forall|c: int, x: NodeId|
                0 <= c < n && #[trigger] preorder(
                    nodes,
                    rank,
                    nodes[id.0 as int].children@[c],
                    want,
                ).contains(x) ==> all.contains(x)
        }),
    decreases rank(id.0 as int), n,
{
    if n > 0 {
        let c = nodes[id.0 as int].children@[n - 1];
        lemma_walk_below(nodes, rank, id, (n - 1) as nat, want);
        law_walk_finds_the_wanted(nodes, rank, c, want);
        let rest = preorder_below(nodes, rank, id, (n - 1) as nat, want);
        let more = preorder(nodes, rank, c, want);
        let all = preorder_below(nodes, rank, id, n, want);
        assert(all == rest + more);
        assert forall|k: int| 0 <= k < all.len() implies is_of(
            nodes[(#[trigger] all[k]).0 as int].kind,
            want,
        ) by {
            if k < rest.len() {
                assert(all[k] == rest[k]);
            } else {
                assert(all[k] == more[k - rest.len()]);
            }
        }
        assert forall|i: int, x: NodeId|
            0 <= i < n && #[trigger] preorder(
                nodes,
                rank,
                nodes[id.0 as int].children@[i],
                want,
            ).contains(x) implies all.contains(x) by {
            if i < n - 1 {
                assert(rest.contains(x));
                assert(all[rest.index_of(x)] == x);
            } else {
                assert(all[rest.len() + more.index_of(x)] == x);
            }
        }
    }
}

} // verus!
