//! What holds of the order in which a frame is drawn.

use vstd::prelude::*;
use crate::order::{law_order_of_is_stable, order_of};
use crate::toolkit::arena::{rank_of, ranked, Node, NodeId, NodeKind, Ui};
use crate::toolkit::canvas::Op;
use crate::toolkit::layout::{all_below, all_kids, kids_of, lemma_kids_below};
use crate::toolkit::measure::Metrics;
use crate::toolkit::num::{exact, lemma_whole, Num};
use crate::toolkit::paint::{
    backdrop_ops, child_popups, children_ops, frame_ops, layers_ops, layers_popups,
    lemma_list_popups_below, lemma_z_sorted_below, list_ops, list_popups, menu_panel_ops, node_ops, node_popups, own_ops,
    own_popup,    page_horizontal_ops, page_thumb, page_vertical_ops, popup_list_ops, popup_ops, popups_ops,
    tail_ops, z_ranks, z_sorted,
};
use crate::toolkit::style::Position;

verus! {

/// `part` stands in `ops` from `at` on.
pub open spec fn stands_at<N>(ops: Seq<Op<N>>, part: Seq<Op<N>>, at: int) -> bool {
    &&& 0 <= at
    &&& at + part.len() <= ops.len()
    &&& forall|i: int| 0 <= i < part.len() ==> #[trigger] part[i] == ops[at + i]
}

/// `parts` stand in `ops` one after the other, at the places `at`, between `from` and `to`.
pub open spec fn stand_in_order<N>(
    ops: Seq<Op<N>>,
    parts: Seq<Seq<Op<N>>>,
    at: Seq<int>,
    from: int,
    to: int,
) -> bool {
    &&& at.len() == parts.len()
    &&& forall|k: int|
        0 <= k < parts.len() ==> {
            &&& stands_at(ops, parts[k], #[trigger] at[k])
            &&& from <= at[k]
            &&& at[k] + parts[k].len() <= to
        }
    &&& forall|j: int, k: int|
        0 <= j < k < parts.len() ==> #[trigger] at[j] + parts[j].len() <= #[trigger] at[k]
}

/// What is drawn for each of `kids`.
pub open spec fn drawn<N: Num, M: Metrics<N>>(
    ui: Ui<N>,
    rank: spec_fn(int) -> nat,
    kids: Seq<NodeId>,
    m: M,
) -> Seq<Seq<Op<N>>> {
    Seq::new(kids.len(), |k: int| node_ops(ui, rank, kids[k], m))
}

/// What is drawn for the popup of each of `popups`.
pub open spec fn drawn_popups<N: Num, M: Metrics<N>>(
    ui: Ui<N>,
    rank: spec_fn(int) -> nat,
    popups: Seq<NodeId>,
    m: M,
) -> Seq<Seq<Op<N>>> {
    Seq::new(popups.len(), |k: int| popup_ops(ui, rank, popups[k], m))
}

proof fn lemma_shift<N>(
    ops: Seq<Op<N>>,
    a: Seq<Op<N>>,
    b: Seq<Op<N>>,
    c: Seq<Op<N>>,
    parts: Seq<Seq<Op<N>>>,
    at: Seq<int>,
) -> (moved: Seq<int>)
    requires
        ops == a + b + c,
        stand_in_order(b, parts, at, 0, b.len() as int),
    ensures
        stand_in_order(ops, parts, moved, a.len() as int, (a.len() + b.len()) as int),
{
    let moved = Seq::new(at.len(), |k: int| at[k] + a.len());
    assert forall|k: int| 0 <= k < parts.len() implies {
        &&& stands_at(ops, parts[k], #[trigger] moved[k])
        &&& a.len() <= moved[k]
        &&& moved[k] + parts[k].len() <= a.len() + b.len()
    } by {
        assert(stands_at(b, parts[k], at[k]));
        assert forall|i: int| 0 <= i < parts[k].len() implies #[trigger] parts[k][i] == ops[moved[k]
            + i] by {
            assert(b[at[k] + i] == ops[moved[k] + i]);
        }
    }
    assert forall|j: int, k: int| 0 <= j < k < parts.len() implies #[trigger] moved[j]
        + parts[j].len() <= #[trigger] moved[k] by {
        assert(at[j] + parts[j].len() <= at[k]);
    }
    moved
}

proof fn lemma_append<N>(
    before: Seq<Op<N>>,
    last: Seq<Op<N>>,
    parts: Seq<Seq<Op<N>>>,
    at: Seq<int>,
)
    requires
        parts.len() == at.len() + 1,
        parts.last() == last,
        stand_in_order(before, parts.drop_last(), at, 0, before.len() as int),
    ensures
        stand_in_order(
            before + last,
            parts,
            at.push(before.len() as int),
            0,
            (before.len() + last.len()) as int,
        ),
{
    let ops = before + last;
    let all = at.push(before.len() as int);
    assert forall|k: int| 0 <= k < parts.len() implies {
        &&& stands_at(ops, parts[k], #[trigger] all[k])
        &&& 0 <= all[k]
        &&& all[k] + parts[k].len() <= ops.len()
    } by {
        if k < at.len() {
            assert(parts.drop_last()[k] == parts[k]);
            assert(stands_at(before, parts.drop_last()[k], at[k]));
        }
    }
    assert forall|j: int, k: int| 0 <= j < k < parts.len() implies #[trigger] all[j]
        + parts[j].len() <= #[trigger] all[k] by {
        assert(parts.drop_last()[j] == parts[j]);
        assert(stands_at(before, parts.drop_last()[j], at[j]));
        if k < at.len() {
            assert(at[j] + parts.drop_last()[j].len() <= at[k]);
        }
    }
}

proof fn lemma_list<N: Num, M: Metrics<N>>(
    ui: Ui<N>,
    rank: spec_fn(int) -> nat,
    bound: nat,
    kids: Seq<NodeId>,
    n: nat,
    m: M,
) -> (at: Seq<int>)
    requires
        n <= kids.len(),
        all_below(ui.nodes@, rank, kids, bound),
    ensures
        stand_in_order(
            list_ops(ui, rank, bound, kids, n, m),
            drawn(ui, rank, kids.take(n as int), m),
            at,
            0,
            list_ops(ui, rank, bound, kids, n, m).len() as int,
        ),
    decreases n,
{
    if n == 0 {
        Seq::empty()
    } else {
        let before = lemma_list(ui, rank, bound, kids, (n - 1) as nat, m);
        let parts = drawn(ui, rank, kids.take(n as int), m);
        assert(parts.drop_last() =~= drawn(ui, rank, kids.take(n - 1), m));
        assert(rank(kids[n - 1].0 as int) < bound);
        lemma_append(
            list_ops(ui, rank, bound, kids, (n - 1) as nat, m),
            node_ops(ui, rank, kids[n - 1], m),
            parts,
            before,
        );
        before.push(list_ops(ui, rank, bound, kids, (n - 1) as nat, m).len() as int)
    }
}

proof fn lemma_popup_list<N: Num, M: Metrics<N>>(
    ui: Ui<N>,
    rank: spec_fn(int) -> nat,
    bound: nat,
    popups: Seq<NodeId>,
    n: nat,
    m: M,
) -> (at: Seq<int>)
    requires
        n <= popups.len(),
        all_below(ui.nodes@, rank, popups, bound),
    ensures
        stand_in_order(
            popup_list_ops(ui, rank, bound, popups, n, m),
            drawn_popups(ui, rank, popups.take(n as int), m),
            at,
            0,
            popup_list_ops(ui, rank, bound, popups, n, m).len() as int,
        ),
    decreases n,
{
    if n == 0 {
        Seq::empty()
    } else {
        let before = lemma_popup_list(ui, rank, bound, popups, (n - 1) as nat, m);
        let parts = drawn_popups(ui, rank, popups.take(n as int), m);
        assert(parts.drop_last() =~= drawn_popups(ui, rank, popups.take(n - 1), m));
        assert(rank(popups[n - 1].0 as int) < bound);
        lemma_append(
            popup_list_ops(ui, rank, bound, popups, (n - 1) as nat, m),
            popup_ops(ui, rank, popups[n - 1], m),
            parts,
            before,
        );
        before.push(popup_list_ops(ui, rank, bound, popups, (n - 1) as nat, m).len() as int)
    }
}

/// How the children of a node are drawn in `ops`: each after the node itself and before its
/// scrollbars, in the order of their z-index; those in flow between the start of a clip to
/// the node's rectangle and its end, the absolute ones after that.
pub open spec fn children_are_drawn<N: Num, M: Metrics<N>>(
    ui: Ui<N>,
    rank: spec_fn(int) -> nat,
    id: NodeId,
    m: M,
    ops: Seq<Op<N>>,
    inside: Seq<int>,
    outside: Seq<int>,
    clip: int,
    unclip: int,
) -> bool {
    let node = ui.nodes@[id.0 as int];
    let own = own_ops(ui, id, m).len() as int;
    let end = ops.len() - tail_ops(node).len();
    &&& own <= clip < unclip < end
    &&& ops[clip] == Op::PushClip(node.computed)
    &&& ops[unclip] == Op::<N>::PopClip
    &&& stand_in_order(
        ops,
        drawn(ui, rank, z_sorted(ui.nodes@, all_kids(ui.nodes@, id, false)), m),
        inside,
        clip + 1,
        unclip,
    )
    &&& stand_in_order(
        ops,
        drawn(ui, rank, z_sorted(ui.nodes@, all_kids(ui.nodes@, id, true)), m),
        outside,
        unclip + 1,
        end,
    )
}

/// A node is drawn first, then its children over it, then its scrollbars. Children in flow
/// are clipped to it, absolute ones are not. The children of a menu are not drawn with it.
pub proof fn law_children_are_drawn_over_their_parent<N: Num, M: Metrics<N>>(
    ui: Ui<N>,
    rank: spec_fn(int) -> nat,
    id: NodeId,
    m: M,
)
    requires
        ranked(ui.nodes@, rank),
        id.0 < ui.nodes@.len(),
    ensures
        ({
            let node = ui.nodes@[id.0 as int];
            let ops = node_ops(ui, rank, id, m);
            let own = own_ops(ui, id, m);
            let tail = tail_ops(node);
            &&& stands_at(ops, own, 0)
            &&& stands_at(ops, tail, ops.len() - tail.len())
            &&& node.children@.len() == 0 || node.kind is Menu ==> ops.len() == own.len()
                + tail.len()
            &&& node.children@.len() > 0 && !(node.kind is Menu) ==> exists|
                inside: Seq<int>,
                outside: Seq<int>,
                clip: int,
                unclip: int,
            | #[trigger]
                children_are_drawn(ui, rank, id, m, ops, inside, outside, clip, unclip)
        }),
{
    let node = ui.nodes@[id.0 as int];
    let ops = node_ops(ui, rank, id, m);
    let own = own_ops(ui, id, m);
    let tail = tail_ops(node);
    let middle = children_ops(ui, rank, id, m);
    assert(ops == own + middle + tail);
    if node.children@.len() > 0 && !(node.kind is Menu) {
        let bound = rank(id.0 as int);
        let near = all_kids(ui.nodes@, id, false);
        let far = all_kids(ui.nodes@, id, true);
        lemma_kids_below(ui.nodes@, rank, id, false, node.children@.len());
        lemma_kids_below(ui.nodes@, rank, id, true, node.children@.len());
        lemma_z_sorted_below(ui.nodes@, rank, near, bound);
        lemma_z_sorted_below(ui.nodes@, rank, far, bound);
        let ins = z_sorted(ui.nodes@, near);
        let outs = z_sorted(ui.nodes@, far);
        let first = list_ops(ui, rank, bound, ins, ins.len(), m);
        let second = list_ops(ui, rank, bound, outs, outs.len(), m);
        let push = seq![Op::PushClip(node.computed)];
        let pop = seq![Op::<N>::PopClip];
        assert(middle == push + first + pop + second);
        assert(ins.take(ins.len() as int) =~= ins);
        assert(outs.take(outs.len() as int) =~= outs);
        let a = lemma_list(ui, rank, bound, ins, ins.len(), m);
        let b = lemma_list(ui, rank, bound, outs, outs.len(), m);
        assert(ops =~= (own + push) + first + (pop + second + tail));
        let inside = lemma_shift(
            ops,
            own + push,
            first,
            pop + second + tail,
            drawn(ui, rank, ins, m),
            a,
        );
        assert(ops =~= (own + push + first + pop) + second + tail);
        let outside = lemma_shift(
            ops,
            own + push + first + pop,
            second,
            tail,
            drawn(ui, rank, outs, m),
            b,
        );
        let clip = own.len() as int;
        let unclip = (own.len() + 1 + first.len()) as int;
        assert(ops[clip] == push[0]);
        assert(ops[unclip] == pop[0]);
        assert(children_are_drawn(ui, rank, id, m, ops, inside, outside, clip, unclip));
    }
}

// ---- popups ----

/// A popup shows while its node is open; a menu's only if it has items.
pub open spec fn shows_popup<N>(node: Node<N>) -> bool {
    ||| node.kind matches NodeKind::Dropdown { open, .. } && open
    ||| node.kind matches NodeKind::Menu { open, .. } && open && node.children@.len() > 0
    ||| node.kind matches NodeKind::Date { open, .. } && open
    ||| node.kind matches NodeKind::Time { open, .. } && open
    ||| node.kind matches NodeKind::DateTime { open, .. } && open
}

/// The popups in a node's subtree are its own if it shows, and those in the subtrees of its
/// children, except for the children of a menu; no others.
pub proof fn law_open_popups_show<N: Num>(
    nodes: Seq<Node<N>>,
    rank: spec_fn(int) -> nat,
    id: NodeId,
)
    requires
        ranked(nodes, rank),
        id.0 < nodes.len(),
    ensures
        shows_popup(nodes[id.0 as int]) ==> node_popups(nodes, rank, id).contains(id),
        forall|p: NodeId|
            #![trigger node_popups(nodes, rank, id).contains(p)]
            node_popups(nodes, rank, id).contains(p) ==> shows_popup(nodes[p.0 as int]),
        !(nodes[id.0 as int].kind is Menu) ==> forall|k: int, p: NodeId|
            0 <= k < nodes[id.0 as int].children@.len() && #[trigger] node_popups(
                nodes,
                rank,
                nodes[id.0 as int].children@[k],
            ).contains(p) ==> node_popups(nodes, rank, id).contains(p),
        nodes[id.0 as int].kind is Menu ==> forall|p: NodeId|
            #![trigger node_popups(nodes, rank, id).contains(p)]
            node_popups(nodes, rank, id).contains(p) ==> p == id,
    decreases rank(id.0 as int), 1nat,
{
    let node = nodes[id.0 as int];
    let own = own_popup(nodes, id);
    let below = child_popups(nodes, rank, id);
    let all = node_popups(nodes, rank, id);
    assert(all == own + below);
    if shows_popup(node) {
        assert(own[0] == id);
        assert(all[0] == id);
    }
    let bound = rank(id.0 as int);
    let near = all_kids(nodes, id, false);
    let far = all_kids(nodes, id, true);
    lemma_kids_below(nodes, rank, id, false, node.children@.len());
    lemma_kids_below(nodes, rank, id, true, node.children@.len());
    lemma_z_sorted_below(nodes, rank, near, bound);
    lemma_z_sorted_below(nodes, rank, far, bound);
    let ins = z_sorted(nodes, near);
    let outs = z_sorted(nodes, far);
    let a = list_popups(nodes, rank, bound, ins, ins.len());
    let b = list_popups(nodes, rank, bound, outs, outs.len());
    lemma_list_popups(nodes, rank, bound, ins, ins.len());
    lemma_list_popups(nodes, rank, bound, outs, outs.len());
    assert forall|p: NodeId|
        #![trigger all.contains(p)]
        all.contains(p) implies shows_popup(nodes[p.0 as int]) by {
        let i = all.index_of(p);
        if i >= own.len() {
            let j = i - own.len();
            assert(below[j] == p);
            if j < a.len() {
                assert(a[j] == p);
                assert(a.contains(p));
            } else {
                assert(b[j - a.len()] == p);
                assert(b.contains(p));
            }
        }
    }
    if !(node.kind is Menu) {
        assert forall|k: int, p: NodeId|
            0 <= k < node.children@.len() && #[trigger] node_popups(
                nodes,
                rank,
                node.children@[k],
            ).contains(p) implies all.contains(p) by {
            let c = node.children@[k];
            lemma_sorted_has_all(nodes, near);
            lemma_sorted_has_all(nodes, far);
            lemma_filter_keeps(nodes, id, k);
            if nodes[c.0 as int].style.position == Position::Absolute {
                assert(far.contains(c));
                let at = outs.index_of(c);
                assert(outs.contains(c));
                assert(outs[at] == c);
                assert(b.contains(p));
                assert(all[own.len() + a.len() + b.index_of(p)] == p);
            } else {
                assert(near.contains(c));
                let at = ins.index_of(c);
                assert(ins.contains(c));
                assert(ins[at] == c);
                assert(a.contains(p));
                assert(all[own.len() + a.index_of(p)] == p);
            }
        }
    } else {
        assert(below.len() == 0);
        assert forall|p: NodeId|
            #![trigger all.contains(p)]
            all.contains(p) implies p == id by {
            assert(all[all.index_of(p)] == p);
        }
    }
}

proof fn lemma_filter_keeps<N>(nodes: Seq<Node<N>>, id: NodeId, k: int)
    requires
        id.0 < nodes.len(),
        0 <= k < nodes[id.0 as int].children@.len(),
    ensures
        ({
            let c = nodes[id.0 as int].children@[k];
            let out = nodes[c.0 as int].style.position
                == Position::Absolute;
            all_kids(nodes, id, out).contains(c)
        }),
{
    let c = nodes[id.0 as int].children@[k];
    let out = nodes[c.0 as int].style.position == Position::Absolute;
    lemma_kids_have(nodes, id, out, nodes[id.0 as int].children@.len(), k);
}

proof fn lemma_kids_have<N>(nodes: Seq<Node<N>>, id: NodeId, out: bool, n: nat, k: int)
    requires
        0 <= k < n <= nodes[id.0 as int].children@.len(),
        out == (nodes[nodes[id.0 as int].children@[k].0 as int].style.position
            == Position::Absolute),
    ensures
        kids_of(nodes, id, out, n).contains(
            nodes[id.0 as int].children@[k],
        ),
    decreases n,
{
    let c = nodes[id.0 as int].children@[k];
    let all = kids_of(nodes, id, out, n);
    let before = kids_of(nodes, id, out, (n - 1) as nat);
    if k < n - 1 {
        lemma_kids_have(nodes, id, out, (n - 1) as nat, k);
        let i = before.index_of(c);
        assert(all[i] == c);
    } else {
        assert(all[all.len() - 1] == c);
    }
}

proof fn lemma_sorted_has_all<N>(nodes: Seq<Node<N>>, kids: Seq<NodeId>)
    ensures
        forall|c: NodeId|
            #![trigger kids.contains(c)]
            kids.contains(c) ==> z_sorted(nodes, kids).contains(c),
{
    let ranks = z_ranks(nodes, kids);
    law_order_of_is_stable(ranks, kids.len());
    let ord = order_of(ranks, kids.len());
    assert forall|c: NodeId|
        #![trigger kids.contains(c)]
        kids.contains(c) implies z_sorted(nodes, kids).contains(c) by {
        let i = kids.index_of(c);
        assert(ord.contains(i));
        let j = ord.index_of(i);
        assert(z_sorted(nodes, kids)[j] == c);
    }
}

proof fn lemma_list_popups<N: Num>(
    nodes: Seq<Node<N>>,
    rank: spec_fn(int) -> nat,
    bound: nat,
    kids: Seq<NodeId>,
    n: nat,
)
    requires
        ranked(nodes, rank),
        n <= kids.len(),
        all_below(nodes, rank, kids, bound),
    ensures
        ({
            let all = list_popups(nodes, rank, bound, kids, n);
            &&& forall|p: NodeId|
                #![trigger all.contains(p)]
                all.contains(p) ==> shows_popup(nodes[p.0 as int])
            &&& forall|k: int, p: NodeId|
                0 <= k < n && #[trigger] node_popups(nodes, rank, kids[k]).contains(p)
                    ==> all.contains(p)
        }),
    decreases bound, 0nat, n,
{
    let all = list_popups(nodes, rank, bound, kids, n);
    if n > 0 {
        let before = list_popups(nodes, rank, bound, kids, (n - 1) as nat);
        let last = node_popups(nodes, rank, kids[n - 1]);
        assert(rank(kids[n - 1].0 as int) < bound);
        lemma_list_popups(nodes, rank, bound, kids, (n - 1) as nat);
        law_open_popups_show(nodes, rank, kids[n - 1]);
        assert(all == before + last);
        assert forall|p: NodeId|
            #![trigger all.contains(p)]
            all.contains(p) implies shows_popup(nodes[p.0 as int]) by {
            let i = all.index_of(p);
            if i < before.len() {
                assert(before[i] == p);
                assert(before.contains(p));
            } else {
                assert(last[i - before.len()] == p);
                assert(last.contains(p));
            }
        }
        assert forall|k: int, p: NodeId|
            0 <= k < n && #[trigger] node_popups(nodes, rank, kids[k]).contains(
                p,
            ) implies all.contains(p) by {
            if k < n - 1 {
                assert(before.contains(p));
                assert(all[before.index_of(p)] == p);
            } else {
                assert(all[before.len() + last.index_of(p)] == p);
            }
        }
    }
}

/// How a menu's popup is drawn in `ops`: its items in their order over its panel, then the
/// popups that show in them.
pub open spec fn menu_is_drawn<N: Num, M: Metrics<N>>(
    ui: Ui<N>,
    rank: spec_fn(int) -> nat,
    id: NodeId,
    m: M,
    ops: Seq<Op<N>>,
    items: Seq<int>,
    nested: Seq<int>,
    between: int,
) -> bool {
    let node = ui.nodes@[id.0 as int];
    let kids = node.children@;
    let popups = list_popups(ui.nodes@, rank, rank(id.0 as int), kids, kids.len());
    &&& stand_in_order(
        ops,
        drawn(ui, rank, kids, m),
        items,
        menu_panel_ops(node).len() as int,
        between,
    )
    &&& stand_in_order(
        ops,
        drawn_popups(ui, rank, popups, m),
        nested,
        between,
        ops.len() as int,
    )
}

/// A menu's popup is its panel, then its items over it in their order, then the popups of
/// the items over all of them.
pub proof fn law_menu_items_are_drawn_on_the_panel<N: Num, M: Metrics<N>>(
    ui: Ui<N>,
    rank: spec_fn(int) -> nat,
    id: NodeId,
    m: M,
)
    requires
        ranked(ui.nodes@, rank),
        id.0 < ui.nodes@.len(),
        ui.nodes@[id.0 as int].kind is Menu,
    ensures
        ({
            let ops = popup_ops(ui, rank, id, m);
            &&& stands_at(ops, menu_panel_ops(ui.nodes@[id.0 as int]), 0)
            &&& exists|items: Seq<int>, nested: Seq<int>, between: int| #[trigger]
                menu_is_drawn(ui, rank, id, m, ops, items, nested, between)
        }),
{
    let node = ui.nodes@[id.0 as int];
    let ops = popup_ops(ui, rank, id, m);
    let panel = menu_panel_ops(node);
    let kids = node.children@;
    let bound = rank(id.0 as int);
    let popups = list_popups(ui.nodes@, rank, bound, kids, kids.len());
    assert(all_below(ui.nodes@, rank, kids, bound)) by {
        assert forall|k: int| 0 <= k < kids.len() implies (#[trigger] kids[k]).0
            < ui.nodes@.len() && rank(kids[k].0 as int) < bound by {}
    }
    lemma_list_popups_below(ui.nodes@, rank, bound, kids, kids.len());
    let first = list_ops(ui, rank, bound, kids, kids.len(), m);
    let second = popup_list_ops(ui, rank, bound, popups, popups.len(), m);
    let none = Seq::<Op<N>>::empty();
    assert(ops == panel + first + second);
    assert(ops =~= (panel + first) + second + none);
    let a = lemma_list(ui, rank, bound, kids, kids.len(), m);
    let b = lemma_popup_list(ui, rank, bound, popups, popups.len(), m);
    assert(kids.take(kids.len() as int) =~= kids);
    assert(popups.take(popups.len() as int) =~= popups);
    let items = lemma_shift(ops, panel, first, second, drawn(ui, rank, kids, m), a);
    let nested = lemma_shift(
        ops,
        panel + first,
        second,
        none,
        drawn_popups(ui, rank, popups, m),
        b,
    );
    let between = (panel.len() + first.len()) as int;
    assert(menu_is_drawn(ui, rank, id, m, ops, items, nested, between));
}

// ---- the frame ----

/// The roots of the layers, back to front.
pub open spec fn roots<N>(ui: Ui<N>) -> Seq<NodeId> {
    Seq::new(ui.layers@.len(), |l: int| ui.layers@[l].root)
}

/// How a frame is drawn: layers back to front, then every open popup over all of them.
pub open spec fn frame_is_drawn<N: Num, M: Metrics<N>>(
    ui: Ui<N>,
    m: M,
    ops: Seq<Op<N>>,
    layers: Seq<int>,
    popups: Seq<int>,
    between: int,
) -> bool {
    let rank = rank_of(ui.nodes@);
    &&& stand_in_order(ops, drawn(ui, rank, roots(ui), m), layers, 0, between)
    &&& stand_in_order(
        ops,
        drawn_popups(ui, rank, layers_popups(ui, ui.layers@.len()), m),
        popups,
        between,
        ops.len() as int,
    )
}

proof fn lemma_layers<N: Num, M: Metrics<N>>(ui: Ui<N>, m: M, n: nat) -> (at: Seq<int>)
    requires
        n <= ui.layers@.len(),
    ensures
        stand_in_order(
            layers_ops(ui, m, n),
            drawn(ui, rank_of(ui.nodes@), roots(ui).take(n as int), m),
            at,
            0,
            layers_ops(ui, m, n).len() as int,
        ),
    decreases n,
{
    let rank = rank_of(ui.nodes@);
    if n == 0 {
        Seq::empty()
    } else {
        let before = lemma_layers(ui, m, (n - 1) as nat);
        let parts = drawn(ui, rank, roots(ui).take(n as int), m);
        assert(parts.drop_last() =~= drawn(ui, rank, roots(ui).take(n - 1), m));
        lemma_append(
            layers_ops(ui, m, (n - 1) as nat),
            node_ops(ui, rank, ui.layers@[n - 1].root, m),
            parts,
            before,
        );
        before.push(layers_ops(ui, m, (n - 1) as nat).len() as int)
    }
}

proof fn lemma_popups<N: Num, M: Metrics<N>>(ui: Ui<N>, m: M, popups: Seq<NodeId>, n: nat) -> (at: Seq<
    int,
>)
    requires
        n <= popups.len(),
    ensures
        stand_in_order(
            popups_ops(ui, m, popups, n),
            drawn_popups(ui, rank_of(ui.nodes@), popups.take(n as int), m),
            at,
            0,
            popups_ops(ui, m, popups, n).len() as int,
        ),
    decreases n,
{
    let rank = rank_of(ui.nodes@);
    if n == 0 {
        Seq::empty()
    } else {
        let before = lemma_popups(ui, m, popups, (n - 1) as nat);
        let parts = drawn_popups(ui, rank, popups.take(n as int), m);
        assert(parts.drop_last() =~= drawn_popups(ui, rank, popups.take(n - 1), m));
        lemma_append(
            popups_ops(ui, m, popups, (n - 1) as nat),
            popup_ops(ui, rank, popups[n - 1], m),
            parts,
            before,
        );
        before.push(popups_ops(ui, m, popups, (n - 1) as nat).len() as int)
    }
}

/// A frame shows the background of the backmost layer across the window, the layers over it
/// back to front, every open popup over all layers, and the page's scrollbars over all.
pub proof fn law_frame_is_drawn_back_to_front<N: Num, M: Metrics<N>>(ui: Ui<N>, m: M)
    ensures
        ({
            let ops = frame_ops(ui, m);
            let back = backdrop_ops(ui);
            let (v, h) = (page_vertical_ops(ui), page_horizontal_ops(ui));
            &&& stands_at(ops, back, 0)
            &&& stands_at(ops, v, ops.len() - h.len() - v.len())
            &&& stands_at(ops, h, ops.len() - h.len())
            &&& exists|layers: Seq<int>, popups: Seq<int>, between: int| #[trigger]
                frame_is_drawn(
                    ui,
                    m,
                    ops.subrange(back.len() as int, ops.len() - h.len() - v.len()),
                    layers,
                    popups,
                    between,
                )
        }),
{
    let ops = frame_ops(ui, m);
    let back = backdrop_ops(ui);
    let (v, h) = (page_vertical_ops(ui), page_horizontal_ops(ui));
    let n = ui.layers@.len();
    let a = layers_ops(ui, m, n);
    let shown = layers_popups(ui, n);
    let b = popups_ops(ui, m, shown, shown.len());
    let middle = ops.subrange(back.len() as int, ops.len() - h.len() - v.len());
    assert(ops == back + a + b + v + h);
    assert(middle =~= a + b);
    let at = lemma_layers(ui, m, n);
    let pat = lemma_popups(ui, m, shown, shown.len());
    assert(roots(ui).take(n as int) =~= roots(ui));
    assert(shown.take(shown.len() as int) =~= shown);
    let none = Seq::<Op<N>>::empty();
    let rank = rank_of(ui.nodes@);
    assert(middle =~= none + a + b);
    assert(middle =~= a + b + none);
    let layers = lemma_shift(middle, none, a, b, drawn(ui, rank, roots(ui), m), at);
    let popups = lemma_shift(middle, a, b, none, drawn_popups(ui, rank, shown, m), pat);
    assert(frame_is_drawn(ui, m, middle, layers, popups, a.len() as int));
}

/// The background of the backmost layer fills the whole window, whatever the layer covers.
pub proof fn law_backdrop_fills_the_window<N: Num>(val: spec_fn(N) -> real, ui: Ui<N>)
    requires
        exact(val),
        ui.layers@.len() > 0,
    ensures
        ({
            let bg = ui.nodes@[ui.layers@[0].root.0 as int].style.bg;
            let ops = backdrop_ops(ui);
            &&& bg is None ==> ops.len() == 0
            &&& bg is Some ==> ops.len() == 1 && (ops[0] matches Op::Fill(r, c, _) && c == bg->0
                && val(r.x) == 0 as real && val(r.y) == 0 as real && r.w == ui.viewport.w && r.h
                == ui.viewport.h)
        }),
{
    lemma_whole::<N>(val, 0);
}

/// The thumb of a page scrollbar lies inside the bar. It starts at the bar's start while the
/// page is scrolled back all the way, and goes forward as the page does. Where the bar is
/// long enough for it, its length is to the bar's as the window to the page, and so is
/// where it starts.
pub proof fn law_page_thumb<N: Num>(
    val: spec_fn(N) -> real,
    length: N,
    lo: N,
    hi: N,
    scroll: N,
    next: N,
)
    requires
        exact(val),
        val(length) > 0 as real,
        val(lo) < val(hi),
        val(lo) <= val(scroll) <= val(next) <= val(hi),
    ensures
        ({
            let (at, len) = page_thumb(length, lo, hi, scroll);
            let (on, other) = page_thumb(length, lo, hi, next);
            let page = val(length) + val(hi) - val(lo);
            &&& 0 as real <= val(at) && val(at) + val(len) <= val(length)
            &&& val(len) > 0 as real
            &&& other == len
            &&& val(at) <= val(on)
            &&& val(scroll) == val(lo) ==> val(at) == 0 as real
            &&& val(length) * val(length) >= 24 as real * page ==> val(len) * page == val(length)
                * val(length) && val(at) * page == val(length) * (val(scroll) - val(lo))
            &&& val(length) >= 24 as real ==> val(len) >= 24 as real
        }),
{
    lemma_whole::<N>(val, 0);
    lemma_whole::<N>(val, 24);
    let l = val(length);
    let page = l + val(hi) - val(lo);
    let d = val(scroll) - val(lo);
    let e = val(next) - val(lo);
    let full = val(hi) - val(lo);
    let share = (l * l) / page;
    assert(share * page == l * l && share > 0 as real && share < l) by (nonlinear_arith)
        requires
            l > 0 as real,
            page > l,
            share == (l * l) / page,
    ;
    assert(l * l >= 24 as real * page ==> share >= 24 as real) by (nonlinear_arith)
        requires
            l > 0 as real,
            page > l,
            share * page == l * l,
    ;
    let s = d / page;
    let t = e / page;
    assert(0 as real <= s && s <= t && s * page == d && t * page == e) by (nonlinear_arith)
        requires
            0 as real <= d <= e,
            page > 0 as real,
            s == d / page,
            t == e / page,
    ;
    assert(0 as real <= l * s && l * s <= l * t) by (nonlinear_arith)
        requires
            0 as real <= s <= t,
            l > 0 as real,
    ;
    assert((l * s) * page == l * d) by (nonlinear_arith)
        requires
            s * page == d,
    ;
    assert(l * s + share <= l) by (nonlinear_arith)
        requires
            l > 0 as real,
            page > 0 as real,
            (l * s) * page == l * d,
            share * page == l * l,
            d <= full,
            page == l + full,
    ;
    if d == 0 as real {
        assert(l * s == 0 as real) by (nonlinear_arith)
            requires
                (l * s) * page == l * d,
                d == 0 as real,
                page > 0 as real,
        ;
    }
}

/// The page's scrollbars stand at the right and the bottom edge of the window, each only
/// while the page can be scrolled along it.
pub proof fn law_page_scrollbars_stand_at_the_edges<N: Num>(val: spec_fn(N) -> real, ui: Ui<N>)
    requires
        exact(val),
    ensures
        ({
            let (v, h) = (page_vertical_ops(ui), page_horizontal_ops(ui));
            let (lo, hi) = (ui.page_scroll_min, ui.page_scroll_max);
            let (w, t) = (val(ui.viewport.w), val(ui.viewport.h));
            &&& v.len() == 0 <==> val(lo.y) == val(hi.y)
            &&& h.len() == 0 <==> val(lo.x) == val(hi.x)
            &&& v.len() > 0 ==> v.len() == 2 && is_bar(val, v[0], w - 10 as real, 0 as real, w, t)
                && (v[1] matches Op::Fill(r, _, _) && val(r.x) == w - 8 as real && val(r.w)
                == 6 as real && (r.y, r.h) == page_thumb(
                ui.viewport.h,
                lo.y,
                hi.y,
                ui.auto_scroll.y,
            ))
            &&& h.len() > 0 ==> h.len() == 2 && is_bar(val, h[0], 0 as real, t - 10 as real, w, t)
                && (h[1] matches Op::Fill(r, _, _) && val(r.y) == t - 8 as real && val(r.h)
                == 6 as real && (r.x, r.w) == page_thumb(
                ui.viewport.w,
                lo.x,
                hi.x,
                ui.auto_scroll.x,
            ))
        }),
{
    lemma_whole::<N>(val, 0);
    lemma_whole::<N>(val, 2);
    lemma_whole::<N>(val, 4);
    lemma_whole::<N>(val, 10);
}

/// A rectangle is filled from `(x0, y0)` to `(x1, y1)`.
pub open spec fn is_bar<N>(
    val: spec_fn(N) -> real,
    op: Op<N>,
    x0: real,
    y0: real,
    x1: real,
    y1: real,
) -> bool {
    op matches Op::Fill(r, _, _) && val(r.x) == x0 && val(r.y) == y0 && val(r.x) + val(r.w) == x1
        && val(r.y) + val(r.h) == y1
}

} // verus!
