//! Drawing operations as data.
//!
//! Painting produces a list of operations, back to front; a backend carries
//! them out one after the other.

use vstd::prelude::*;
use vstd::string::*;
use crate::toolkit::arena::NodeId;
use crate::toolkit::geometry::{Color, Edges, Point, Rect};
use crate::toolkit::num::Num;
use crate::toolkit::style::{TextAlign, Transform2D};

verus! {

/// How a text is drawn.
#[derive(Debug, Clone, Copy)]
pub struct TextStyle<N> {
    pub color: Color,
    pub size: N,
    pub align: TextAlign,
    pub weight: u16,
    pub letter_spacing: N,
}

/// One drawing operation.
#[derive(Debug)]
pub enum PaintOp<N> {
    FillRect { rect: Rect<N>, color: Color, radius: Edges<N> },
    StrokeRect { rect: Rect<N>, color: Color, width: N, radius: Edges<N> },
    DrawText { text: String, bounds: Rect<N>, style: TextStyle<N> },
    /// A frame of the picture that a node holds.
    DrawImage { id: NodeId, frame: usize, bounds: Rect<N> },
    PushClip(Rect<N>),
    PopClip,
    PushTransform(Transform2D<N>, Point<N>),
    PopTransform,
    PushOpacity(N),
    PopOpacity,
}

/// The model of a drawing operation.
pub enum Op<N> {
    Fill(Rect<N>, Color, Edges<N>),
    Stroke(Rect<N>, Color, N, Edges<N>),
    Text(Seq<char>, Rect<N>, TextStyle<N>),
    Image(NodeId, usize, Rect<N>),
    PushClip(Rect<N>),
    PopClip,
    PushTransform(Transform2D<N>, Point<N>),
    PopTransform,
    PushOpacity(N),
    PopOpacity,
}

pub open spec fn op_of<N>(op: PaintOp<N>) -> Op<N> {
    match op {
        PaintOp::FillRect { rect, color, radius } => Op::Fill(rect, color, radius),
        PaintOp::StrokeRect { rect, color, width, radius } => Op::Stroke(rect, color, width, radius),
        PaintOp::DrawText { text, bounds, style } => Op::Text(text@, bounds, style),
        PaintOp::DrawImage { id, frame, bounds } => Op::Image(id, frame, bounds),
        PaintOp::PushClip(r) => Op::PushClip(r),
        PaintOp::PopClip => Op::PopClip,
        PaintOp::PushTransform(t, p) => Op::PushTransform(t, p),
        PaintOp::PopTransform => Op::PopTransform,
        PaintOp::PushOpacity(o) => Op::PushOpacity(o),
        PaintOp::PopOpacity => Op::PopOpacity,
    }
}

/// A growing list of drawing operations.
pub struct Canvas<N> {
    ops: Vec<PaintOp<N>>,
}

impl<N: Num> Canvas<N> {
    /// The operations so far.
    pub closed spec fn view(&self) -> Seq<Op<N>> {
        self.ops@.map_values(|op: PaintOp<N>| op_of(op))
    }

    pub fn new() -> (r: Self)
        ensures
            r.view() == Seq::<Op<N>>::empty(),
    {
        let r = Canvas { ops: Vec::new() };
        assert(r.view() =~= Seq::<Op<N>>::empty());
        r
    }

    /// The list of operations.
    pub fn into_ops(self) -> (r: Vec<PaintOp<N>>)
        ensures
            r@.map_values(|op: PaintOp<N>| op_of(op)) == self.view(),
    {
        self.ops
    }

    fn draw(&mut self, op: PaintOp<N>)
        ensures
            final(self).view() == old(self).view().push(op_of(op)),
    {
        let ghost before = self.view();
        self.ops.push(op);
        assert(self.view() =~= before.push(op_of(op)));
    }

    pub fn fill_rect(&mut self, rect: Rect<N>, color: Color, radius: Edges<N>)
        ensures
            final(self).view() == old(self).view().push(Op::Fill(rect, color, radius)),
    {
        self.draw(PaintOp::FillRect { rect, color, radius });
    }

    pub fn stroke_rect(&mut self, rect: Rect<N>, color: Color, width: N, radius: Edges<N>)
        ensures
            final(self).view() == old(self).view().push(Op::Stroke(rect, color, width, radius)),
    {
        self.draw(PaintOp::StrokeRect { rect, color, width, radius });
    }

    pub fn draw_text(&mut self, text: &str, bounds: Rect<N>, style: TextStyle<N>)
        ensures
            final(self).view() == old(self).view().push(Op::Text(text@, bounds, style)),
    {
        let text: String = text.to_owned();
        self.draw(PaintOp::DrawText { text, bounds, style });
    }

    pub fn draw_image(&mut self, id: NodeId, frame: usize, bounds: Rect<N>)
        ensures
            final(self).view() == old(self).view().push(Op::Image(id, frame, bounds)),
    {
        self.draw(PaintOp::DrawImage { id, frame, bounds });
    }

    pub fn push_clip(&mut self, rect: Rect<N>)
        ensures
            final(self).view() == old(self).view().push(Op::PushClip(rect)),
    {
        self.draw(PaintOp::PushClip(rect));
    }

    pub fn pop_clip(&mut self)
        ensures
            final(self).view() == old(self).view().push(Op::PopClip),
    {
        self.draw(PaintOp::PopClip);
    }

    pub fn push_transform(&mut self, transform: Transform2D<N>, origin: Point<N>)
        ensures
            final(self).view() == old(self).view().push(Op::PushTransform(transform, origin)),
    {
        self.draw(PaintOp::PushTransform(transform, origin));
    }

    pub fn pop_transform(&mut self)
        ensures
            final(self).view() == old(self).view().push(Op::PopTransform),
    {
        self.draw(PaintOp::PopTransform);
    }

    pub fn push_opacity(&mut self, opacity: N)
        ensures
            final(self).view() == old(self).view().push(Op::PushOpacity(opacity)),
    {
        self.draw(PaintOp::PushOpacity(opacity));
    }

    pub fn pop_opacity(&mut self)
        ensures
            final(self).view() == old(self).view().push(Op::PopOpacity),
    {
        self.draw(PaintOp::PopOpacity);
    }
}

// ---- nesting ----

/// How far an operation opens (1) or closes (-1) a clip.
pub open spec fn clip_step<N>(op: Op<N>) -> int {
    match op {
        Op::PushClip(_) => 1,
        Op::PopClip => -1,
        _ => 0,
    }
}

pub open spec fn transform_step<N>(op: Op<N>) -> int {
    match op {
        Op::PushTransform(_, _) => 1,
        Op::PopTransform => -1,
        _ => 0,
    }
}

pub open spec fn opacity_step<N>(op: Op<N>) -> int {
    match op {
        Op::PushOpacity(_) => 1,
        Op::PopOpacity => -1,
        _ => 0,
    }
}

/// How many clips, transforms and opacities are open after `ops`.
pub open spec fn depth<N>(ops: Seq<Op<N>>) -> (int, int, int)
    decreases ops.len(),
{
    if ops.len() == 0 {
        (0, 0, 0)
    } else {
        let d = depth(ops.drop_last());
        let op = ops.last();
        (d.0 + clip_step(op), d.1 + transform_step(op), d.2 + opacity_step(op))
    }
}

/// Whatever is opened in `ops` is closed in `ops`, and nothing is closed that
/// was not opened there.
pub open spec fn balanced<N>(ops: Seq<Op<N>>) -> bool {
    &&& depth(ops) == (0int, 0int, 0int)
    &&& forall|k: int|
        0 <= k <= ops.len() ==> {
            let d = depth(#[trigger] ops.take(k));
            d.0 >= 0 && d.1 >= 0 && d.2 >= 0
        }
}

pub proof fn lemma_depth_concat<N>(a: Seq<Op<N>>, b: Seq<Op<N>>)
    ensures
        depth(a + b) == (
            depth(a).0 + depth(b).0,
            depth(a).1 + depth(b).1,
            depth(a).2 + depth(b).2,
        ),
    decreases b.len(),
{
    if b.len() == 0 {
        assert(a + b =~= a);
    } else {
        lemma_depth_concat(a, b.drop_last());
        assert((a + b).drop_last() =~= a + b.drop_last());
        assert((a + b).last() == b.last());
    }
}

/// Balanced lists one after the other are balanced.
pub proof fn lemma_balanced_concat<N>(a: Seq<Op<N>>, b: Seq<Op<N>>)
    requires
        balanced(a),
        balanced(b),
    ensures
        balanced(a + b),
{
    lemma_depth_concat(a, b);
    assert forall|k: int| 0 <= k <= (a + b).len() implies ({
        let d = depth(#[trigger] (a + b).take(k));
        d.0 >= 0 && d.1 >= 0 && d.2 >= 0
    }) by {
        if k <= a.len() {
            assert((a + b).take(k) =~= a.take(k));
        } else {
            assert((a + b).take(k) =~= a + b.take(k - a.len()));
            lemma_depth_concat(a, b.take(k - a.len()));
        }
    }
}

/// A balanced list between an opening operation and the closing one of its kind
/// is balanced.
pub proof fn lemma_balanced_wrap<N>(open: Op<N>, inner: Seq<Op<N>>, close: Op<N>)
    requires
        balanced(inner),
        clip_step(open) + clip_step(close) == 0,
        transform_step(open) + transform_step(close) == 0,
        opacity_step(open) + opacity_step(close) == 0,
        clip_step(open) >= 0 && transform_step(open) >= 0 && opacity_step(open) >= 0,
    ensures
        balanced(seq![open] + inner + seq![close]),
{
    let one = seq![open];
    let last = seq![close];
    let all = one + inner + last;
    assert(one.drop_last() =~= Seq::<Op<N>>::empty());
    assert(last.drop_last() =~= Seq::<Op<N>>::empty());
    assert(depth(one.drop_last()) == (0int, 0int, 0int));
    assert(depth(last.drop_last()) == (0int, 0int, 0int));
    lemma_depth_concat(one, inner);
    lemma_depth_concat(one + inner, last);
    assert forall|k: int| 0 <= k <= all.len() implies ({
        let d = depth(#[trigger] all.take(k));
        d.0 >= 0 && d.1 >= 0 && d.2 >= 0
    }) by {
        if k == 0 {
            assert(all.take(k) =~= Seq::<Op<N>>::empty());
        } else if k <= 1 + inner.len() {
            assert(all.take(k) =~= one + inner.take(k - 1));
            lemma_depth_concat(one, inner.take(k - 1));
        } else {
            assert(all.take(k) =~= all);
        }
    }
}

/// A list of operations that open and close nothing is balanced.
pub proof fn lemma_flat_is_balanced<N>(ops: Seq<Op<N>>)
    requires
        forall|k: int|
            0 <= k < ops.len() ==> clip_step(#[trigger] ops[k]) == 0 && transform_step(ops[k]) == 0
                && opacity_step(ops[k]) == 0,
    ensures
        balanced(ops),
    decreases ops.len(),
{
    if ops.len() > 0 {
        lemma_flat_is_balanced(ops.drop_last());
        assert forall|k: int| 0 <= k <= ops.len() implies ({
            let d = depth(#[trigger] ops.take(k));
            d.0 >= 0 && d.1 >= 0 && d.2 >= 0
        }) by {
            if k < ops.len() {
                assert(ops.take(k) =~= ops.drop_last().take(k));
            } else {
                assert(ops.take(k) =~= ops);
                assert(ops.drop_last().take(ops.len() - 1) =~= ops.drop_last());
            }
        }
    } else {
        assert forall|k: int| 0 <= k <= ops.len() implies ({
            let d = depth(#[trigger] ops.take(k));
            d.0 >= 0 && d.1 >= 0 && d.2 >= 0
        }) by {
            assert(ops.take(k) =~= ops);
        }
    }
}

} // verus!
