//! Which nodes are in use.
use vstd::prelude::*;

use crate::toolkit::arena::{
    is_live, is_tombstone, rank_of, ranked, reaches, reaches_below, Node, Ui,
};
use crate::toolkit::num::Num;

verus! {

/// The roots of the layers and the focused node are in use, and so is every child of
/// a node in use.
pub proof fn law_children_of_nodes_in_use_are_in_use<N: Num>(ui: Ui<N>, i: int, k: int)
    requires
        ui.wf(),
    ensures
        0 <= k < ui.layers@.len() ==> is_live(ui, ui.layers@[k].root.0 as int),
        ui.focus matches Some(f) ==> is_live(ui, f.0 as int),
        is_live(ui, i) && 0 <= k < ui.nodes@[i].children@.len() ==> is_live(
            ui,
            ui.nodes@[i].children@[k].0 as int,
        ),
{
    let nodes = ui.nodes@;
    let rank = rank_of(nodes);
    assert(ranked(nodes, rank));
    if 0 <= k < ui.layers@.len() {
        assert(reaches(nodes, rank, ui.layers@[k].root.0 as int, ui.layers@[k].root.0 as int));
    }
    if is_live(ui, i) && 0 <= k < nodes[i].children@.len() {
        if exists|l: int|
            0 <= l < ui.layers@.len() && reaches(
                nodes,
                rank,
                (#[trigger] ui.layers@[l]).root.0 as int,
                i,
            ) {
            let l = choose|l: int|
                0 <= l < ui.layers@.len() && reaches(
                    nodes,
                    rank,
                    (#[trigger] ui.layers@[l]).root.0 as int,
                    i,
                );
            lemma_reaches_child(nodes, rank, ui.layers@[l].root.0 as int, i, k);
        } else {
            lemma_reaches_child(nodes, rank, (ui.focus->0).0 as int, i, k);
        }
    }
}

/// What is in use is kept by everything that keeps the roots, the focused node and
/// the children of what it keeps: nothing else is in use.
pub proof fn law_nothing_else_is_in_use<N: Num>(ui: Ui<N>, kept: spec_fn(int) -> bool, i: int)
    requires
        ui.wf(),
        forall|l: int| 0 <= l < ui.layers@.len() ==> kept((#[trigger] ui.layers@[l]).root.0 as int),
        ui.focus matches Some(f) ==> kept(f.0 as int),
        forall|p: int, k: int|
            kept(p) && 0 <= p < ui.nodes@.len() && 0 <= k < ui.nodes@[p].children@.len() ==> kept(
                (#[trigger] ui.nodes@[p].children@[k]).0 as int,
            ),
        is_live(ui, i),
    ensures
        kept(i),
{
    let nodes = ui.nodes@;
    let rank = rank_of(nodes);
    assert(ranked(nodes, rank));
    if exists|l: int|
        0 <= l < ui.layers@.len() && reaches(
            nodes,
            rank,
            (#[trigger] ui.layers@[l]).root.0 as int,
            i,
        ) {
        let l = choose|l: int|
            0 <= l < ui.layers@.len() && reaches(
                nodes,
                rank,
                (#[trigger] ui.layers@[l]).root.0 as int,
                i,
            );
        lemma_kept(nodes, rank, kept, ui.layers@[l].root.0 as int, i);
    } else {
        lemma_kept(nodes, rank, kept, (ui.focus->0).0 as int, i);
    }
}

/// Nothing is left of a reclaimed node: it has no children, no events and no room.
pub proof fn law_reclaimed_node_is_empty<N: Num>(node: Node<N>)
    requires
        is_tombstone(node),
    ensures
        node.kind is Container,
        node.children@.len() == 0,
        node.value_path@.len() == 0,
        node.templates@.len() == 0,
        forall|name: Seq<char>| !#[trigger] node.events.view().contains_key(name),
        node.computed.w == N::ratio_of(0, 1) && node.computed.h == N::ratio_of(0, 1),
{
}

proof fn lemma_reaches_child<N>(
    nodes: Seq<Node<N>>,
    rank: spec_fn(int) -> nat,
    from: int,
    to: int,
    k: int,
)
    requires
        ranked(nodes, rank),
        reaches(nodes, rank, from, to),
        0 <= k < nodes[to].children@.len(),
    ensures
        reaches(nodes, rank, from, nodes[to].children@[k].0 as int),
    decreases rank(from), nodes[from].children@.len() + 1,
{
    let c = nodes[to].children@[k].0 as int;
    if from == to {
        lemma_below_holds_child(nodes, rank, to, nodes[to].children@.len(), k);
    } else {
        lemma_below_reaches_child(nodes, rank, from, nodes[from].children@.len(), to, k);
    }
    assert(reaches_below(nodes, rank, from, nodes[from].children@.len(), c));
}

proof fn lemma_below_reaches_child<N>(
    nodes: Seq<Node<N>>,
    rank: spec_fn(int) -> nat,
    parent: int,
    n: nat,
    to: int,
    k: int,
)
    requires
        ranked(nodes, rank),
        reaches_below(nodes, rank, parent, n, to),
        0 <= k < nodes[to].children@.len(),
    ensures
        reaches_below(nodes, rank, parent, n, nodes[to].children@[k].0 as int),
    decreases rank(parent), n,
{
    let first = nodes[parent].children@[n - 1].0 as int;
    if reaches(nodes, rank, first, to) {
        lemma_reaches_child(nodes, rank, first, to, k);
    } else {
        lemma_below_reaches_child(nodes, rank, parent, (n - 1) as nat, to, k);
    }
}

proof fn lemma_below_holds_child<N>(
    nodes: Seq<Node<N>>,
    rank: spec_fn(int) -> nat,
    parent: int,
    n: nat,
    k: int,
)
    requires
        ranked(nodes, rank),
        0 <= parent < nodes.len(),
        0 <= k < n <= nodes[parent].children@.len(),
    ensures
        reaches_below(nodes, rank, parent, n, nodes[parent].children@[k].0 as int),
    decreases n,
{
    let c = nodes[parent].children@[n - 1].0 as int;
    if k == n - 1 {
        assert(reaches(nodes, rank, c, c));
    } else {
        lemma_below_holds_child(nodes, rank, parent, (n - 1) as nat, k);
    }
}

proof fn lemma_kept<N>(
    nodes: Seq<Node<N>>,
    rank: spec_fn(int) -> nat,
    kept: spec_fn(int) -> bool,
    from: int,
    to: int,
)
    requires
        kept(from),
        forall|p: int, k: int|
            kept(p) && 0 <= p < nodes.len() && 0 <= k < nodes[p].children@.len() ==> kept(
                (#[trigger] nodes[p].children@[k]).0 as int,
            ),
        reaches(nodes, rank, from, to),
    ensures
        kept(to),
    decreases rank(from), nodes[from].children@.len() + 1,
{
    if from != to {
        lemma_kept_below(nodes, rank, kept, from, nodes[from].children@.len(), to);
    }
}

proof fn lemma_kept_below<N>(
    nodes: Seq<Node<N>>,
    rank: spec_fn(int) -> nat,
    kept: spec_fn(int) -> bool,
    parent: int,
    n: nat,
    to: int,
)
    requires
        kept(parent),
        forall|p: int, k: int|
            kept(p) && 0 <= p < nodes.len() && 0 <= k < nodes[p].children@.len() ==> kept(
                (#[trigger] nodes[p].children@[k]).0 as int,
            ),
        reaches_below(nodes, rank, parent, n, to),
    ensures
        kept(to),
    decreases rank(parent), n,
{
    let first = nodes[parent].children@[n - 1].0 as int;
    if reaches(nodes, rank, first, to) {
        lemma_kept(nodes, rank, kept, first, to);
    } else {
        lemma_kept_below(nodes, rank, kept, parent, (n - 1) as nat, to);
    }
}

} // verus!
