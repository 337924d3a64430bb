//! What is handed over to be painted.

use vstd::prelude::*;
use crate::designer::app::DesignerApp;
use crate::designer::chrome::{last_child, lemma_ready_kept, root_of, Chrome};
use crate::designer::events::{highlighted, only_rows_differ};
use crate::designer::nodes::{live_nodes, Want};
use crate::designer::preview::PreviewDoc;
use crate::designer::snapshot::{clone_for_render, is_hidden, same_layers, same_node};
use crate::toolkit::arena::{is_tombstone, rank_of, ranked, same_tree, Node, NodeId, Ui};
use crate::toolkit::canvas::{Canvas, Op};
use crate::toolkit::geometry::{edges_all, inset_rect, Color, Edges, Rect, Size};
use crate::toolkit::layout::{laid_out, law_layout_keeps_tree, solve, solve_into, window_rect};
use crate::toolkit::measure::Metrics;
use crate::toolkit::num::{whole, Num};
use crate::toolkit::paint::{drawable, frame_ops, paint};

verus! {

/// `r` is a copy of `ui` to be painted.
pub open spec fn is_copy<N: Num>(r: Ui<N>, ui: Ui<N>) -> bool {
    &&& r.wf()
    &&& r.nodes@.len() == ui.nodes@.len()
    &&& forall|i: int|
        0 <= i < ui.nodes@.len() ==> if is_hidden(ui, ui.layers@.len(), i) {
            is_tombstone(#[trigger] r.nodes@[i])
        } else {
            same_node(r.nodes@[i], ui.nodes@[i])
        }
    &&& same_layers(r.layers@, ui.layers@)
    &&& r == (Ui { nodes: r.nodes, layers: r.layers, ..ui })
}

/// The docked preview of a frame.
pub struct PreviewFrame<N> {
    pub ui: Ui<N>,
    pub slot: Rect<N>,
    pub selected: Option<NodeId>,
}

/// A frame to be painted.
pub struct FramePlan<N> {
    pub chrome: Ui<N>,
    pub preview: Option<PreviewFrame<N>>,
}

/// Where the preview shows.
pub open spec fn slot_of<N: Num>(ui: Ui<N>) -> Rect<N> {
    let column = last_child(ui.nodes@, root_of(ui));
    let slot = ui.nodes@[last_child(ui.nodes@, column).0 as int];
    inset_rect(slot.computed, slot.style.padding)
}

/// There is a place for the preview.
pub open spec fn has_slot<N: Num>(ui: Ui<N>) -> bool {
    ui.nodes@[last_child(ui.nodes@, root_of(ui)).0 as int].children@.len() > 0
}

/// `after` is `before` with the window laid out, and with the docked preview laid
/// out in its place.
pub open spec fn frame_laid_out<N: Num, M: Metrics<N>>(
    before: DesignerApp<N>,
    viewport: Size<N>,
    m: M,
    after: DesignerApp<N>,
) -> bool {
    &&& laid_out(
        (Ui { viewport, ..before.chrome.ui }),
        window_rect(before.chrome.ui, viewport),
        m,
        after.chrome.ui,
    )
    &&& if before.detached {
        after.doc.ui == before.doc.ui
    } else {
        laid_out(before.doc.ui, slot_of(after.chrome.ui), m, after.doc.ui)
    }
}

/// Nothing differs but what a frame lays out, and the record of the highlighted
/// row: of the window and of the preview the interfaces alone.
pub open spec fn only_frame_differs<N>(before: DesignerApp<N>, after: DesignerApp<N>) -> bool {
    &&& after == (DesignerApp {
        chrome: after.chrome,
        doc: after.doc,
        last_highlighted_path: after.last_highlighted_path,
        highlighted_tree_item: after.highlighted_tree_item,
        ..before
    })
    &&& after.chrome == (Chrome { ui: after.chrome.ui, ..before.chrome })
    &&& after.doc == (PreviewDoc { ui: after.doc.ui, ..before.doc })
}

/// A change that keeps the tree keeps the place for the preview.
proof fn lemma_slot_kept<N: Num>(before: Ui<N>, after: Ui<N>)
    requires
        before.wf(),
        before.layers@.len() > 0,
        before.nodes@[root_of(before).0 as int].children@.len() > 0,
        has_slot(before),
        same_tree(before.nodes@, after.nodes@),
        after.layers == before.layers,
    ensures
        has_slot(after),
        after.nodes@[root_of(after).0 as int].children@.len() > 0,
{
    let a = before.nodes@;
    let b = after.nodes@;
    assert(ranked(a, rank_of(a)));
    let root = root_of(before);
    assert(before.layers@[0].root.0 < a.len());
    assert(a[root.0 as int].children@ == b[root.0 as int].children@);
    let n = a[root.0 as int].children@.len();
    let column = a[root.0 as int].children@[n - 1];
    assert(column.0 < a.len());
    assert(a[column.0 as int].children@ == b[column.0 as int].children@);
}

/// Whether the window has a place for the preview.
pub fn has_preview_slot<N: Num>(ui: &Ui<N>) -> (r: bool)
    requires
        ui.wf(),
        ui.layers@.len() > 0,
        ui.nodes@[root_of(*ui).0 as int].children@.len() > 0,
    ensures
        r == has_slot(*ui),
{
    let root: &Node<N> = ui.get(ui.layers[0].root);
    let n: usize = root.children.len();
    let column: NodeId = root.children[n - 1];
    proof {
        assert(ranked(ui.nodes@, rank_of(ui.nodes@)));
        assert(ui.nodes@[root_of(*ui).0 as int].children@[n - 1] == column);
    }
    ui.get(column).children.len() > 0
}

impl<N: Num> DesignerApp<N> {
    /// Lays the window out, and the preview in it if it is docked, and hands over
    /// copies of both to be painted.
    pub fn redraw<M: Metrics<N>>(&mut self, viewport: Size<N>, m: &M) -> (r: FramePlan<N>)
        requires
            old(self).wf(),
            has_slot(old(self).chrome.ui),
            old(self).doc.ui.nodes@.len() <= 0x1_0000_0000,
        ensures
            final(self).wf(),
            exists|mid: DesignerApp<N>|
                #![trigger frame_laid_out(mid, viewport, *m, *final(self))]
                frame_laid_out(mid, viewport, *m, *final(self)) && mid.model() == highlighted(
                    old(self).model(),
                    live_nodes(
                        old(self).chrome.ui,
                        old(self).chrome.ui.layers@.len(),
                        Want::TreeRows,
                    ),
                ) && only_rows_differ(*old(self), mid) && final(self).last_highlighted_path
                    == mid.last_highlighted_path && final(self).highlighted_tree_item
                    == mid.highlighted_tree_item,
            only_frame_differs(*old(self), *final(self)),
            is_copy(r.chrome, final(self).chrome.ui),
            match r.preview {
                Some(p) => !old(self).detached && is_copy(p.ui, final(self).doc.ui) && p.slot
                    == slot_of(final(self).chrome.ui) && p.selected == old(self).selected_node,
                None => old(self).detached,
            },
    {
        let ghost start = *self;
        self.apply_active_row_highlight();
        let ghost mid = *self;
        solve(&mut self.chrome.ui, viewport, m);
        proof {
            law_layout_keeps_tree(
                (Ui { viewport, ..mid.chrome.ui }),
                window_rect(mid.chrome.ui, viewport),
                *m,
                self.chrome.ui,
            );
            lemma_ready_kept(mid.chrome, self.chrome);
            lemma_slot_kept(start.chrome.ui, mid.chrome.ui);
            lemma_slot_kept(mid.chrome.ui, self.chrome.ui);
        }
        let preview: Option<PreviewFrame<N>> = if self.detached {
            None
        } else {
            let slot: Rect<N> = self.chrome.preview_slot_rect();
            solve_into(&mut self.doc.ui, slot, m);
            Some(
                PreviewFrame {
                    ui: clone_for_render(&self.doc.ui),
                    slot,
                    selected: self.selected_node,
                },
            )
        };
        assert(frame_laid_out(mid, viewport, *m, *self));
        FramePlan { chrome: clone_for_render(&self.chrome.ui), preview }
    }
}

/// The outline of the selected node.
pub open spec fn outline_color() -> Color {
    Color { r: 0x60, g: 0xa5, b: 0xfa, a: 255 }
}

/// What is drawn of a docked preview: all of it inside its place, then the outline
/// of the selected node.
pub open spec fn preview_ops<N: Num, M: Metrics<N>>(p: PreviewFrame<N>, m: M) -> Seq<Op<N>> {
    let inside = seq![Op::PushClip(p.slot)] + frame_ops(p.ui, m) + seq![Op::PopClip];
    match p.selected {
        Some(id) => inside + seq![
            Op::Stroke(
                p.ui.nodes@[id.0 as int].computed,
                outline_color(),
                whole(2),
                edges_all(whole(0)),
            ),
        ],
        None => inside,
    }
}

/// What is drawn of a frame.
pub open spec fn plan_ops<N: Num, M: Metrics<N>>(plan: FramePlan<N>, m: M) -> Seq<Op<N>> {
    match plan.preview {
        Some(p) => frame_ops(plan.chrome, m) + preview_ops(p, m),
        None => frame_ops(plan.chrome, m),
    }
}

/// A preview can be painted.
pub open spec fn paintable<N: Num>(p: PreviewFrame<N>) -> bool {
    &&& p.ui.wf()
    &&& drawable(p.ui.nodes@)
    &&& p.selected matches Some(id) ==> id.0 < p.ui.nodes@.len()
}

/// Paints a frame: the window, and the docked preview in it.
pub fn paint_plan<N: Num, M: Metrics<N>>(plan: &FramePlan<N>, m: &M, out: &mut Canvas<N>)
    requires
        plan.chrome.wf(),
        drawable(plan.chrome.nodes@),
        plan.preview matches Some(p) ==> paintable(p),
    ensures
        final(out).view() == old(out).view() + plan_ops(*plan, *m),
{
    let ghost start = out.view();
    paint(&plan.chrome, m, out);
    match &plan.preview {
        Some(p) => {
            let ghost before = out.view();
            out.push_clip(p.slot);
            paint(&p.ui, m, out);
            out.pop_clip();
            if let Some(id) = p.selected {
                out.stroke_rect(
                    p.ui.get(id).computed,
                    Color { r: 0x60, g: 0xa5, b: 0xfa, a: 255 },
                    N::ratio(2, 1),
                    Edges::all(N::ratio(0, 1)),
                );
            }
            assert(out.view() =~= before + preview_ops(*p, *m));
        },
        None => {},
    }
    assert(out.view() =~= start + plan_ops(*plan, *m));
}

/// How often the window is drawn, in nanoseconds: sixty times a second.
pub const FRAME_INTERVAL: u64 = 16_666_666;

/// When the next frame is due, if one is due at `due` and it is `now`: a frame that
/// is late by more than an interval puts the others off as well.
pub open spec fn due_after(now: int, due: int) -> int {
    if now - due > FRAME_INTERVAL {
        now + FRAME_INTERVAL
    } else {
        due + FRAME_INTERVAL
    }
}

/// When the next frame is due; none yet if the last one is not due.
pub fn next_frame(now: u64, due: u64) -> (r: Option<u64>)
    requires
        now <= u64::MAX - FRAME_INTERVAL,
    ensures
        match r {
            Some(t) => now >= due && t as int == due_after(now as int, due as int),
            None => now < due,
        },
{
    if now < due {
        None
    } else if now - due > FRAME_INTERVAL {
        Some(now + FRAME_INTERVAL)
    } else {
        Some(due + FRAME_INTERVAL)
    }
}

/// Whatever was missed, at most the interval passes until the next frame, and it
/// comes after the one that was due.
pub proof fn law_frames_keep_coming(now: u64, due: u64)
    requires
        now >= due,
    ensures
        due < due_after(now as int, due as int) <= now + FRAME_INTERVAL,
{
}

} // verus!
