//! What layout promises as a whole.

use vstd::prelude::*;
use crate::toolkit::arena::{rank_of, ranked, Node, NodeId, NodeKind, Ui};
use crate::toolkit::geometry::{origin, Rect, Size};
use crate::toolkit::layout::{
    absolute_rect, all_below, all_kids, arranged, arranged_absolute, arranged_slots, block_for,
    content_of, flow_box, flow_slots, inner_box, laid_out, last_place, lemma_flow_slots_below,
    lemma_kids_below, lemma_slots_below, marked, opens_up, popup_rect, pops_up, rect_after,
    slots_below, slots_of, solved, with_popup, with_popups, with_popups_below, Mark, Slot,
};
use crate::toolkit::measure::{size_from, sizes_agree, Metrics};
use crate::toolkit::num::Num;

verus! {

/// Every rectangle that is recorded from `from` on is for a node that ranks below
/// `bound`.
pub open spec fn places_below<N>(
    rank: spec_fn(int) -> nat,
    marks: Seq<Mark<N>>,
    from: int,
    bound: nat,
) -> bool {
    forall|k: int|
        from <= k < marks.len() ==> match #[trigger] marks[k] {
            Mark::Place(i, _) => rank(i.0 as int) < bound,
            Mark::Content(_, _) => true,
        }
}

proof fn lemma_places_concat<N>(
    rank: spec_fn(int) -> nat,
    a: Seq<Mark<N>>,
    b: Seq<Mark<N>>,
    from: int,
    bound: nat,
)
    requires
        0 <= from,
        places_below(rank, a, from, bound),
        places_below(rank, b, 0, bound),
    ensures
        places_below(rank, a + b, from, bound),
{
    assert forall|k: int| from <= k < (a + b).len() implies match #[trigger] (a + b)[k] {
        Mark::Place(i, _) => rank(i.0 as int) < bound,
        Mark::Content(_, _) => true,
    } by {
        if k < a.len() {
            assert((a + b)[k] == a[k]);
        } else {
            assert((a + b)[k] == b[k - a.len()]);
        }
    }
}

/// Laying a node out records its own rectangle first, and then only those of nodes
/// below it.
pub proof fn law_layout_goes_down<N: Num>(
    nodes: Seq<Node<N>>,
    rank: spec_fn(int) -> nat,
    sizes: Seq<Size<N>>,
    id: NodeId,
    rect: Rect<N>,
    block: Rect<N>,
)
    requires
        ranked(nodes, rank),
        id.0 < nodes.len(),
    ensures
        ({
            let marks = arranged(nodes, rank, sizes, id, rect, block);
            &&& marks.len() > 0
            &&& marks[0] == Mark::Place(id, rect)
            &&& places_below(rank, marks, 1, rank(id.0 as int))
        }),
    decreases rank(id.0 as int), 1nat, 0nat,
{
    let node = nodes[id.0 as int];
    if opens_up(node) {
        let slots = slots_of(nodes, sizes, id, rect);
        let outside = all_kids(nodes, id, true);
        let inner = block_for(node.style, rect, block);
        let bound = rank(id.0 as int);
        lemma_slots_below(nodes, rank, sizes, id, rect);
        lemma_kids_below(nodes, rank, id, true, node.children@.len());
        lemma_slots_go_down(nodes, rank, sizes, bound, slots, slots.len(), inner);
        lemma_absolute_go_down(nodes, rank, sizes, bound, outside, outside.len(), inner);
        let own = seq![Mark::Place(id, rect)];
        let a = arranged_slots(nodes, rank, sizes, bound, slots, slots.len(), inner);
        let c = seq![Mark::Content(id, content_of(nodes, sizes, id, rect))];
        let b = arranged_absolute(nodes, rank, sizes, bound, outside, outside.len(), inner);
        lemma_places_concat(rank, own, a, 1, bound);
        lemma_places_concat(rank, own + a, c, 1, bound);
        lemma_places_concat(rank, own + a + c, b, 1, bound);
        assert(arranged(nodes, rank, sizes, id, rect, block) == own + a + c + b);
    }
}

proof fn lemma_slots_go_down<N: Num>(
    nodes: Seq<Node<N>>,
    rank: spec_fn(int) -> nat,
    sizes: Seq<Size<N>>,
    bound: nat,
    slots: Seq<Slot<N>>,
    n: nat,
    block: Rect<N>,
)
    requires
        ranked(nodes, rank),
        slots_below(nodes, rank, slots, bound),
        n <= slots.len(),
    ensures
        places_below(rank, arranged_slots(nodes, rank, sizes, bound, slots, n, block), 0, bound),
    decreases bound, 0nat, n,
{
    if n > 0 {
        let s = slots[n - 1];
        let rest = arranged_slots(nodes, rank, sizes, bound, slots, (n - 1) as nat, block);
        lemma_slots_go_down(nodes, rank, sizes, bound, slots, (n - 1) as nat, block);
        let more = if !s.deep {
            seq![Mark::Place(s.id, s.rect)]
        } else {
            arranged(nodes, rank, sizes, s.id, s.rect, block)
        };
        if s.deep {
            law_layout_goes_down(nodes, rank, sizes, s.id, s.rect, block);
        }
        assert(places_below(rank, more, 0, bound));
        lemma_places_concat(rank, rest, more, 0, bound);
    }
}

proof fn lemma_absolute_go_down<N: Num>(
    nodes: Seq<Node<N>>,
    rank: spec_fn(int) -> nat,
    sizes: Seq<Size<N>>,
    bound: nat,
    kids: Seq<NodeId>,
    n: nat,
    block: Rect<N>,
)
    requires
        ranked(nodes, rank),
        all_below(nodes, rank, kids, bound),
        n <= kids.len(),
    ensures
        places_below(rank, arranged_absolute(nodes, rank, sizes, bound, kids, n, block), 0, bound),
    decreases bound, 0nat, n,
{
    if n > 0 {
        let c = kids[n - 1];
        let rest = arranged_absolute(nodes, rank, sizes, bound, kids, (n - 1) as nat, block);
        lemma_absolute_go_down(nodes, rank, sizes, bound, kids, (n - 1) as nat, block);
        let r = absolute_rect(nodes[c.0 as int].style, sizes[c.0 as int], block);
        law_layout_goes_down(nodes, rank, sizes, c, r, block);
        let more = arranged(nodes, rank, sizes, c, r, block);
        assert(places_below(rank, more, 0, bound));
        lemma_places_concat(rank, rest, more, 0, bound);
    }
}

/// `b` is `a` with more behind it, which only places nodes that rank below `bound`.
pub open spec fn adds_below<N>(
    rank: spec_fn(int) -> nat,
    a: Seq<Mark<N>>,
    b: Seq<Mark<N>>,
    bound: nat,
) -> bool {
    &&& a.len() <= b.len()
    &&& b.take(a.len() as int) == a
    &&& places_below(rank, b, a.len() as int, bound)
}

proof fn lemma_adds_trans<N>(
    rank: spec_fn(int) -> nat,
    a: Seq<Mark<N>>,
    b: Seq<Mark<N>>,
    c: Seq<Mark<N>>,
    lower: nat,
    bound: nat,
)
    requires
        adds_below(rank, a, b, bound),
        adds_below(rank, b, c, lower),
        lower <= bound,
    ensures
        adds_below(rank, a, c, bound),
{
    assert(c.take(a.len() as int) =~= b.take(a.len() as int));
    assert forall|k: int| a.len() <= k < c.len() implies match #[trigger] c[k] {
        Mark::Place(i, _) => rank(i.0 as int) < bound,
        Mark::Content(_, _) => true,
    } by {
        if k < b.len() {
            assert(c.take(b.len() as int)[k] == b[k]);
        }
    }
}

proof fn lemma_popups_go_down<N: Num>(
    nodes: Seq<Node<N>>,
    rank: spec_fn(int) -> nat,
    sizes: Seq<Size<N>>,
    id: NodeId,
    marks: Seq<Mark<N>>,
)
    requires
        ranked(nodes, rank),
        id.0 < nodes.len(),
    ensures
        adds_below(
            rank,
            marks,
            with_popups(nodes, rank, sizes, id, marks),
            rank(id.0 as int),
        ),
    decreases rank(id.0 as int), nodes[id.0 as int].children@.len() + 1,
{
    let node = nodes[id.0 as int];
    let bound = rank(id.0 as int);
    let own = if pops_up(node) {
        with_popup(nodes, rank, sizes, id, marks)
    } else {
        marks
    };
    if pops_up(node) {
        let popup = popup_rect(nodes, sizes, id, rect_after(nodes, marks, id));
        let inner = inner_box(node.style, popup);
        let f = flow_box(node.style, inner, origin());
        let kids = node.children@;
        assert(all_below(nodes, rank, kids, bound)) by {
            assert forall|k: int| 0 <= k < kids.len() implies (#[trigger] kids[k]).0 < nodes.len()
                && rank(kids[k].0 as int) < bound by {
                assert(nodes[id.0 as int].children@[k] == kids[k]);
            }
        }
        lemma_flow_slots_below(nodes, rank, sizes, f, kids, bound);
        let slots = flow_slots(nodes, sizes, f, kids);
        lemma_slots_go_down(nodes, rank, sizes, bound, slots, slots.len(), inner);
        let more = arranged_slots(nodes, rank, sizes, bound, slots, slots.len(), inner);
        let last = seq![Mark::Content(id, Size { w: popup.w, h: popup.h })];
        assert(own == marks + more + last);
        assert(own.take(marks.len() as int) =~= marks);
        lemma_places_concat(rank, more, last, 0, bound);
        assert forall|k: int| marks.len() <= k < own.len() implies match #[trigger] own[k] {
            Mark::Place(i, _) => rank(i.0 as int) < bound,
            Mark::Content(_, _) => true,
        } by {
            assert(own[k] == (more + last)[k - marks.len()]);
        }
    } else {
        assert(own.take(marks.len() as int) =~= marks);
    }
    lemma_popups_below_go_down(nodes, rank, sizes, id, node.children@.len(), own);
    lemma_adds_trans(
        rank,
        marks,
        own,
        with_popups(nodes, rank, sizes, id, marks),
        bound,
        bound,
    );
}

proof fn lemma_popups_below_go_down<N: Num>(
    nodes: Seq<Node<N>>,
    rank: spec_fn(int) -> nat,
    sizes: Seq<Size<N>>,
    parent: NodeId,
    n: nat,
    marks: Seq<Mark<N>>,
)
    requires
        ranked(nodes, rank),
        parent.0 < nodes.len(),
        n <= nodes[parent.0 as int].children@.len(),
    ensures
        adds_below(
            rank,
            marks,
            with_popups_below(nodes, rank, sizes, parent, n, marks),
            rank(parent.0 as int),
        ),
    decreases rank(parent.0 as int), n,
{
    if n > 0 {
        let c = nodes[parent.0 as int].children@[n - 1];
        let before = with_popups_below(nodes, rank, sizes, parent, (n - 1) as nat, marks);
        lemma_popups_below_go_down(nodes, rank, sizes, parent, (n - 1) as nat, marks);
        lemma_popups_go_down(nodes, rank, sizes, c, before);
        lemma_adds_trans(
            rank,
            marks,
            before,
            with_popups(nodes, rank, sizes, c, before),
            rank(c.0 as int),
            rank(parent.0 as int),
        );
    } else {
        assert(marks.take(marks.len() as int) =~= marks);
    }
}

/// What is placed at `at` and only below afterwards keeps its place.
proof fn lemma_place_stays<N>(
    rank: spec_fn(int) -> nat,
    marks: Seq<Mark<N>>,
    at: int,
    id: NodeId,
    rect: Rect<N>,
    n: nat,
)
    requires
        0 <= at < n <= marks.len(),
        marks[at] == Mark::Place(id, rect),
        places_below(rank, marks, at + 1, rank(id.0 as int)),
    ensures
        last_place(marks, id, n) == Some(rect),
    decreases n,
{
    if n - 1 > at {
        lemma_place_stays(rank, marks, at, id, rect, (n - 1) as nat);
        assert(match marks[n - 1] {
            Mark::Place(i, _) => rank(i.0 as int) < rank(id.0 as int),
            Mark::Content(_, _) => true,
        });
    }
}

/// The topmost layer's root gets exactly the rectangle that the layout is given,
/// whatever its own style asks for.
pub proof fn law_root_gets_the_rect<N: Num, M: Metrics<N>>(
    before: Ui<N>,
    root_rect: Rect<N>,
    m: M,
    after: Ui<N>,
)
    requires
        before.wf(),
        before.nodes@.len() <= 0x1_0000_0000,
        before.layers@.len() > 0,
        laid_out(before, root_rect, m, after),
    ensures
        after.nodes@[before.layers@.last().root.0 as int].computed == root_rect,
{
    let nodes = before.nodes@;
    let rank = rank_of(nodes);
    assert(ranked(nodes, rank));
    let n = before.layers@.len();
    let root = before.layers@[n - 1].root;
    assert(root.0 < nodes.len());
    let sizes = choose|sizes: Seq<Size<N>>|
        #![trigger sizes_agree(nodes, sizes, m)]
        sizes_agree(nodes, sizes, m) && marked(
            nodes,
            solved(before, sizes, root_rect, n),
            after.nodes@,
        );
    let first = solved(before, sizes, root_rect, (n - 1) as nat);
    let own = arranged(nodes, rank, sizes, root, root_rect, root_rect);
    law_layout_goes_down(nodes, rank, sizes, root, root_rect, root_rect);
    let both = first + own;
    let all = with_popups(nodes, rank, sizes, root, both);
    assert(all == solved(before, sizes, root_rect, n));
    lemma_popups_go_down(nodes, rank, sizes, root, both);
    let at = first.len() as int;
    assert(all[at] == all.take(both.len() as int)[at]);
    assert(all[at] == own[0]);
    assert forall|k: int| at + 1 <= k < all.len() implies match #[trigger] all[k] {
        Mark::Place(i, _) => rank(i.0 as int) < rank(root.0 as int),
        Mark::Content(_, _) => true,
    } by {
        if k < both.len() {
            assert(all[k] == all.take(both.len() as int)[k]);
            assert(all[k] == own[k - at]);
        }
    }
    lemma_place_stays(rank, all, at, root, root_rect, all.len());
    assert(NodeId(root.0) == root);
    assert(after.nodes@[root.0 as int].computed == root_rect);
}

/// A menu is as large as its header, open or closed, whatever its items' sizes are:
/// they float.
pub proof fn law_menu_ignores_its_items<N: Num, M: Metrics<N>>(
    nodes: Seq<Node<N>>,
    a: Seq<Size<N>>,
    b: Seq<Size<N>>,
    id: int,
    m: M,
)
    requires
        0 <= id < nodes.len(),
        nodes[id].kind is Menu,
    ensures
        size_from(nodes, a, id, m) == size_from(nodes, b, id, m),
{
}

/// A collapsed tree row is as large as its own line, whatever is folded away in it.
pub proof fn law_collapsed_row_ignores_its_rows<N: Num, M: Metrics<N>>(
    nodes: Seq<Node<N>>,
    a: Seq<Size<N>>,
    b: Seq<Size<N>>,
    id: int,
    m: M,
)
    requires
        0 <= id < nodes.len(),
        nodes[id].kind matches NodeKind::TreeViewItem { collapsed, .. } && collapsed,
    ensures
        size_from(nodes, a, id, m) == size_from(nodes, b, id, m),
{
}

} // verus!
