//! What holds of the node that a point hits.

use vstd::prelude::*;
use crate::toolkit::arena::{
    hit_children, hit_layers, hit_node, hit_path, hit_path_children, hit_path_layers,
    law_hit_is_under_point, rank_of, ranked, Node, Ui,
};
use crate::toolkit::geometry::{holds_point, Point, Rect};
use crate::toolkit::num::{exact, Num};

verus! {

/// A point is in a rectangle if it is between its edges, or on one of them.
pub proof fn law_point_in_rect<N: Num>(val: spec_fn(N) -> real, r: Rect<N>, p: Point<N>)
    requires
        exact(val),
    ensures
        holds_point(r, p) <==> val(r.x) <= val(p.x) && val(p.x) <= val(r.x) + val(r.w) && val(r.y)
            <= val(p.y) && val(p.y) <= val(r.y) + val(r.h),
{
}

/// Child `k` of `parent` is under the point, and no later one is: those are painted
/// over it.
pub open spec fn is_top_child<N: Num>(nodes: Seq<Node<N>>, parent: int, k: int, p: Point<N>) -> bool {
    let kids = nodes[parent].children@;
    &&& 0 <= k < kids.len()
    &&& holds_point(nodes[kids[k].0 as int].computed, p)
    &&& forall|j: int|
        k < j < kids.len() ==> !holds_point(nodes[(#[trigger] kids[j]).0 as int].computed, p)
}

/// `b` is the topmost child of `a` under the point.
pub open spec fn leads_to<N: Num>(nodes: Seq<Node<N>>, a: int, b: int, p: Point<N>) -> bool {
    exists|k: int| #[trigger] is_top_child(nodes, a, k, p) && nodes[a].children@[k].0 == b
}

/// Each node of the chain is the topmost child of the one before it, and the last has
/// no child under the point.
pub open spec fn is_top_chain<N: Num>(nodes: Seq<Node<N>>, chain: Seq<int>, p: Point<N>) -> bool {
    &&& chain.len() > 0
    &&& forall|i: int|
        0 <= i < chain.len() - 1 ==> leads_to(nodes, #[trigger] chain[i], chain[i + 1], p)
    &&& no_child_under(nodes, chain.last(), p)
}

/// No child of node `id` is under the point.
pub open spec fn no_child_under<N: Num>(nodes: Seq<Node<N>>, id: int, p: Point<N>) -> bool {
    forall|j: int|
        0 <= j < nodes[id].children@.len() ==> !holds_point(
            nodes[(#[trigger] nodes[id].children@[j]).0 as int].computed,
            p,
        )
}

/// What the first `n` children give is what the topmost of them under the point gives.
proof fn lemma_top_child<N: Num>(
    nodes: Seq<Node<N>>,
    rank: spec_fn(int) -> nat,
    parent: int,
    n: nat,
    p: Point<N>,
) -> (k: int)
    requires
        ranked(nodes, rank),
        0 <= parent < nodes.len(),
        n <= nodes[parent].children@.len(),
    ensures
        -1 <= k < n,
        forall|j: int|
            k < j < n ==> !holds_point(
                nodes[(#[trigger] nodes[parent].children@[j]).0 as int].computed,
                p,
            ),
        k >= 0 ==> {
            let c = nodes[parent].children@[k].0 as int;
            &&& 0 <= c < nodes.len()
            &&& rank(c) < rank(parent)
            &&& holds_point(nodes[c].computed, p)
            &&& hit_children(nodes, rank, parent, n, p) == hit_node(nodes, rank, c, p)
            &&& hit_path_children(nodes, rank, parent, n, p) == hit_path(nodes, rank, c, p)
        },
        k < 0 ==> hit_children(nodes, rank, parent, n, p) is None && hit_path_children(
            nodes,
            rank,
            parent,
            n,
            p,
        ).len() == 0,
    decreases n,
{
    if n == 0 {
        -1
    } else {
        let c = nodes[parent].children@[n - 1].0 as int;
        law_hit_is_under_point(nodes, rank, c, p);
        if holds_point(nodes[c].computed, p) {
            n - 1
        } else {
            lemma_top_child(nodes, rank, parent, (n - 1) as nat, p)
        }
    }
}

/// A node under the point is hit through the topmost child under the point at every
/// level, down to one that has none: of overlapping siblings the later one, which is
/// painted on top, and of a node and its children the child. The node that is hit is
/// the last of the chain.
pub proof fn law_hit_goes_to_the_top<N: Num>(
    nodes: Seq<Node<N>>,
    rank: spec_fn(int) -> nat,
    id: int,
    p: Point<N>,
)
    requires
        ranked(nodes, rank),
        0 <= id < nodes.len(),
    ensures
        ({
            let chain = hit_path(nodes, rank, id, p);
            if holds_point(nodes[id].computed, p) {
                &&& is_top_chain(nodes, chain, p)
                &&& chain[0] == id
                &&& hit_node(nodes, rank, id, p) == Some(chain.last())
            } else {
                chain.len() == 0 && hit_node(nodes, rank, id, p) is None
            }
        }),
    decreases rank(id),
{
    law_hit_is_under_point(nodes, rank, id, p);
    if holds_point(nodes[id].computed, p) {
        let chain = hit_path(nodes, rank, id, p);
        let n = nodes[id].children@.len();
        let k = lemma_top_child(nodes, rank, id, n, p);
        if k >= 0 {
            let c = nodes[id].children@[k].0 as int;
            law_hit_goes_to_the_top(nodes, rank, c, p);
            let rest = hit_path(nodes, rank, c, p);
            assert(chain =~= seq![id] + rest);
            assert(is_top_child(nodes, id, k, p));
            assert forall|i: int| 0 <= i < chain.len() - 1 implies leads_to(
                nodes,
                #[trigger] chain[i],
                chain[i + 1],
                p,
            ) by {
                if i > 0 {
                    assert(chain[i] == rest[i - 1]);
                    assert(chain[i + 1] == rest[i]);
                    assert(leads_to(nodes, rest[i - 1], rest[i], p));
                } else {
                    assert(chain[1] == rest[0]);
                }
            }
            assert(chain.last() == rest.last());
        } else {
            assert(chain =~= seq![id]);
        }
    }
}

/// Testing just the children of a node hits the topmost of them under the point, and
/// in it what [`law_hit_goes_to_the_top`] says; nothing if none is under the point.
pub proof fn law_hit_within_goes_to_the_top<N: Num>(
    nodes: Seq<Node<N>>,
    rank: spec_fn(int) -> nat,
    id: int,
    p: Point<N>,
)
    requires
        ranked(nodes, rank),
        0 <= id < nodes.len(),
    ensures
        match hit_children(nodes, rank, id, nodes[id].children@.len(), p) {
            Some(h) => exists|chain: Seq<int>|
                #[trigger] is_top_chain(nodes, chain, p) && leads_to(nodes, id, chain[0], p)
                    && chain.last() == h,
            None => no_child_under(nodes, id, p),
        },
{
    let n = nodes[id].children@.len();
    let k = lemma_top_child(nodes, rank, id, n, p);
    if k >= 0 {
        let c = nodes[id].children@[k].0 as int;
        law_hit_goes_to_the_top(nodes, rank, c, p);
        assert(is_top_child(nodes, id, k, p));
        assert(is_top_chain(nodes, hit_path(nodes, rank, c, p), p));
    }
}

/// Of the layers the last one whose root is under the point is hit; nothing if there is
/// none. `hit_test_chain` gives the whole chain from that root, and `hit_test` its end.
pub proof fn law_topmost_layer_is_hit<N: Num>(ui: Ui<N>, n: nat, p: Point<N>)
    requires
        ui.wf(),
        n <= ui.layers@.len(),
    ensures
        ({
            let chain = hit_path_layers(ui, n, p);
            match hit_layers(ui, n, p) {
                Some(h) => {
                    &&& is_top_chain(ui.nodes@, chain, p)
                    &&& chain.last() == h
                    &&& exists|l: int|
                        0 <= l < n && (#[trigger] ui.layers@[l]).root.0 == chain[0] && holds_point(
                            ui.nodes@[chain[0]].computed,
                            p,
                        ) && forall|j: int|
                            l < j < n ==> !holds_point(
                                ui.nodes@[(#[trigger] ui.layers@[j]).root.0 as int].computed,
                                p,
                            )
                },
                None => chain.len() == 0 && forall|j: int|
                    0 <= j < n ==> !holds_point(
                        ui.nodes@[(#[trigger] ui.layers@[j]).root.0 as int].computed,
                        p,
                    ),
            }
        }),
    decreases n,
{
    if n > 0 {
        let nodes = ui.nodes@;
        let rank = rank_of(nodes);
        assert(ranked(nodes, rank));
        let root = ui.layers@[n - 1].root.0 as int;
        assert(0 <= root < nodes.len());
        law_hit_goes_to_the_top(nodes, rank, root, p);
        if !holds_point(nodes[root].computed, p) {
            law_topmost_layer_is_hit(ui, (n - 1) as nat, p);
        }
    }
}

} // verus!
