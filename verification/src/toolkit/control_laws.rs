//! What holds of the operations that paint a node's own content.

use vstd::prelude::*;
use crate::toolkit::arena::{Node, NodeId, NodeKind};
use crate::toolkit::canvas::{Op, TextStyle};
use crate::toolkit::geometry::{inset_rect, Color, Edges, Point, Rect, Size};
use crate::toolkit::measure::Metrics;
use crate::toolkit::num::{exact, lemma_whole, Num};
use crate::toolkit::paint::{
    box_ops, closing_ops, content_ops, content_rect, dropdown_popup_ops, horizontal_bar_ops,
    menu_panel_ops, multi_line_ops, opening_ops, option_ops, option_top, prefix_width,
    single_line_ops, text_input_ops, thumb_span, track_ops, vertical_bar_ops, Field,
};
use crate::toolkit::style::{Style, TextAlign, Transform2D};
use crate::toolkit::text_input::{line_col, lines_of, shown_text};

verus! {

// ---- vocabulary ----

/// A rectangle lies at these values.
pub open spec fn lies_at<N>(
    val: spec_fn(N) -> real,
    r: Rect<N>,
    x: real,
    y: real,
    w: real,
    h: real,
) -> bool {
    val(r.x) == x && val(r.y) == y && val(r.w) == w && val(r.h) == h
}

/// `inner` lies in `outer`, `by` away from each of its edges.
pub open spec fn lies_inside<N>(
    val: spec_fn(N) -> real,
    outer: Rect<N>,
    inner: Rect<N>,
    by: real,
) -> bool {
    lies_at(
        val,
        inner,
        val(outer.x) + by,
        val(outer.y) + by,
        val(outer.w) - by - by,
        val(outer.h) - by - by,
    )
}

/// Text in a node's own style.
pub open spec fn in_style<N>(t: TextStyle<N>, style: Style<N>, align: TextAlign) -> bool {
    &&& t.color == style.text_color
    &&& t.size == style.font_size
    &&& t.align == align
    &&& t.weight == style.font_weight
    &&& t.letter_spacing == style.letter_spacing
}

/// The middle of a rectangle from top to bottom is that of another.
pub open spec fn same_middle<N>(val: spec_fn(N) -> real, a: Rect<N>, b: Rect<N>) -> bool {
    val(a.y) + val(a.y) + val(a.h) == val(b.y) + val(b.y) + val(b.h)
}

/// A value limited to the range from 0 to 1.
pub open spec fn unit(v: real) -> real {
    if v < 0 as real {
        0 as real
    } else if v > 1 as real {
        1 as real
    } else {
        v
    }
}

// ---- boxes ----

/// A rectangle inset by edges that fit in it.
pub proof fn law_inset_takes_the_edges_off<N: Num>(
    val: spec_fn(N) -> real,
    r: Rect<N>,
    e: Edges<N>,
)
    requires
        exact(val),
    ensures
        ({
            let i = inset_rect(r, e);
            &&& val(i.x) == val(r.x) + val(e.left)
            &&& val(i.y) == val(r.y) + val(e.top)
            &&& val(e.left) + val(e.right) <= val(r.w) ==> val(i.x) + val(i.w) == val(r.x) + val(
                r.w,
            ) - val(e.right)
            &&& val(e.top) + val(e.bottom) <= val(r.h) ==> val(i.y) + val(i.h) == val(r.y) + val(
                r.h,
            ) - val(e.bottom)
            &&& val(e.left) + val(e.right) >= val(r.w) ==> val(i.w) == 0 as real
            &&& val(e.top) + val(e.bottom) >= val(r.h) ==> val(i.h) == 0 as real
        }),
{
    lemma_whole::<N>(val, 0);
}

/// A node's content lies inside its border and its padding.
pub proof fn law_content_lies_inside_border_and_padding<N: Num>(
    val: spec_fn(N) -> real,
    style: Style<N>,
    rect: Rect<N>,
)
    requires
        exact(val),
        val(style.border_width.left) + val(style.border_width.right) + val(style.padding.left)
            + val(style.padding.right) <= val(rect.w),
        val(style.border_width.top) + val(style.border_width.bottom) + val(style.padding.top)
            + val(style.padding.bottom) <= val(rect.h),
        val(style.padding.left) + val(style.padding.right) >= 0 as real,
        val(style.padding.top) + val(style.padding.bottom) >= 0 as real,
    ensures
        ({
            let c = content_rect(style, rect);
            let (b, p) = (style.border_width, style.padding);
            &&& val(c.x) == val(rect.x) + val(b.left) + val(p.left)
            &&& val(c.y) == val(rect.y) + val(b.top) + val(p.top)
            &&& val(c.x) + val(c.w) == val(rect.x) + val(rect.w) - val(b.right) - val(p.right)
            &&& val(c.y) + val(c.h) == val(rect.y) + val(rect.h) - val(b.bottom) - val(p.bottom)
        }),
{
    law_inset_takes_the_edges_off(val, rect, style.border_width);
    law_inset_takes_the_edges_off(val, inset_rect(rect, style.border_width), style.padding);
}

/// A node with a background fills its rectangle with it, under everything else; a node
/// with a border color and a border of some width strokes its rectangle; both have its
/// corners. Nothing else is drawn of the box.
pub proof fn law_box_shows_background_and_border<N: Num>(
    val: spec_fn(N) -> real,
    style: Style<N>,
    rect: Rect<N>,
)
    requires
        exact(val),
    ensures
        ({
            let ops = box_ops(style, rect);
            let bw = style.border_width;
            let fills: int = if style.bg is Some {
                1
            } else {
                0
            };
            let bordered = style.border_color is Some && (val(bw.top) > 0 as real || val(bw.right)
                > 0 as real || val(bw.bottom) > 0 as real || val(bw.left) > 0 as real);
            &&& ops.len() == fills + if bordered {
                1int
            } else {
                0
            }
            &&& style.bg is Some ==> ops[0] == Op::Fill(rect, style.bg->0, style.radius)
            &&& bordered ==> (ops.last() matches Op::Stroke(r, c, w, e) && r == rect && c
                == style.border_color->0 && e == style.radius && (w == bw.top || w == bw.left)
                && val(w) >= val(bw.top) && val(w) >= val(bw.left))
        }),
{
    lemma_whole::<N>(val, 0);
}

/// A node that is transformed is drawn in its transform, around its center; one that is
/// not opaque in its opacity. What is opened is closed in the opposite order.
pub proof fn law_node_is_drawn_in_its_transform_and_opacity<N: Num>(
    val: spec_fn(N) -> real,
    style: Style<N>,
    rect: Rect<N>,
)
    requires
        exact(val),
    ensures
        ({
            let open = opening_ops(style, rect);
            let close = closing_ops(style);
            let plain = is_plain(val, style.transform);
            let solid = val(style.opacity) >= 1 as real;
            &&& open.len() == close.len()
            &&& plain && solid ==> open.len() == 0
            &&& !plain ==> open.len() > 0 && (open[0] matches Op::PushTransform(t, c) && t
                == style.transform && val(c.x) - val(rect.x) == val(rect.x) + val(rect.w) - val(c.x)
                && val(c.y) - val(rect.y) == val(rect.y) + val(rect.h) - val(c.y)) && close.last()
                == Op::<N>::PopTransform
            &&& !solid ==> open.len() > 0 && (open.last() matches Op::PushOpacity(o) && (if val(
                style.opacity,
            ) < 0 as real {
                val(o) == 0 as real
            } else {
                o == style.opacity
            })) && close[0] == Op::<N>::PopOpacity
            &&& !plain && !solid ==> open.len() == 2
            &&& plain != solid ==> open.len() == 1
        }),
{
    lemma_whole::<N>(val, 0);
    lemma_whole::<N>(val, 1);
    lemma_whole::<N>(val, 2);
}

/// A transform that changes nothing.
pub open spec fn is_plain<N>(val: spec_fn(N) -> real, t: Transform2D<N>) -> bool {
    &&& val(t.translate_x) == 0 as real
    &&& val(t.translate_y) == 0 as real
    &&& val(t.scale_x) == 1 as real
    &&& val(t.scale_y) == 1 as real
    &&& val(t.rotate_deg) == 0 as real
    &&& val(t.skew_x_deg) == 0 as real
    &&& val(t.skew_y_deg) == 0 as real
}

// ---- labels and pictures ----

/// The text that a plain label shows.
pub open spec fn plain_label<N>(kind: NodeKind<N>) -> Option<Seq<char>> {
    match kind {
        NodeKind::Text { content } => Some(content@),
        NodeKind::Button { label } => Some(label@),
        NodeKind::Menu { label, .. } => Some(label@),
        NodeKind::MenuItem { label } => Some(label@),
        _ => None,
    }
}

/// A text, a button, a menu's header or a menu item shows its text, once, in its
/// content's rectangle and its own style.
pub proof fn law_label_is_shown<N: Num, M: Metrics<N>>(
    node: Node<N>,
    id: NodeId,
    focused: bool,
    m: M,
)
    requires
        plain_label(node.kind) is Some,
    ensures
        ({
            let ops = content_ops(node, id, focused, m);
            &&& ops.len() == 1
            &&& ops[0] matches Op::Text(t, r, s) && t == plain_label(node.kind)->0 && r
                == content_rect(node.style, node.computed) && in_style(
                s,
                node.style,
                node.style.text_align,
            )
        }),
{
}

/// A picture is shown if, and only if, it is there: an image in its current frame.
pub proof fn law_picture_is_shown<N: Num, M: Metrics<N>>(
    node: Node<N>,
    id: NodeId,
    focused: bool,
    m: M,
)
    ensures
        ({
            let ops = content_ops(node, id, focused, m);
            let rect = content_rect(node.style, node.computed);
            &&& node.kind matches NodeKind::Image { decoded, current_frame, .. } ==> ops
                == if decoded is Some {
                seq![Op::Image(id, current_frame, rect)]
            } else {
                Seq::empty()
            }
            &&& node.kind matches NodeKind::Icon { decoded, .. } ==> ops == if decoded is Some {
                seq![Op::Image(id, 0, rect)]
            } else {
                Seq::empty()
            }
        }),
{
}

// ---- checkbox ----

/// A checked checkbox is painted as an unchecked one, and with one fill more: between
/// the box's outline and the label, in the text's color, 3 pixels inside the box on
/// every side. The box is as high as the font and stands at the start of the content;
/// the label begins 6 pixels behind it and ends where the content does.
pub proof fn law_checkbox_shows_whether_it_is_checked<N: Num, M: Metrics<N>>(
    val: spec_fn(N) -> real,
    node: Node<N>,
    label: String,
    id: NodeId,
    focused: bool,
    m: M,
)
    requires
        exact(val),
    ensures
        ({
            let on = content_ops(
                Node { kind: NodeKind::Checkbox { label, checked: true }, ..node },
                id,
                focused,
                m,
            );
            let off = content_ops(
                Node { kind: NodeKind::Checkbox { label, checked: false }, ..node },
                id,
                focused,
                m,
            );
            let style = node.style;
            let rect = content_rect(style, node.computed);
            let n = off.len() as int;
            &&& n == if style.bg is Some {
                3int
            } else {
                2
            }
            &&& on.len() == n + 1
            &&& on.remove(n - 1) == off
            &&& off[n - 2] matches Op::Stroke(b, c, w, _) && {
                &&& lies_at(
                    val,
                    b,
                    val(rect.x),
                    val(rect.y),
                    val(style.font_size),
                    val(style.font_size),
                )
                &&& val(w) == 1 as real
                &&& c == if style.border_color is Some {
                    style.border_color->0
                } else {
                    style.text_color
                }
                &&& style.bg is Some ==> off[0] == Op::Fill(b, style.bg->0, style.radius)
                &&& on[n - 1] matches Op::Fill(mark, color, _) && color == style.text_color
                    && lies_inside(val, b, mark, 3 as real)
                &&& off[n - 1] matches Op::Text(t, r, s) && t == label@ && in_style(
                    s,
                    style,
                    style.text_align,
                ) && val(r.x) == val(b.x) + val(b.w) + 6 as real && val(r.x) + val(r.w) == val(
                    rect.x,
                ) + val(rect.w) && r.y == rect.y && r.h == rect.h
            }
        }),
{
    lemma_whole::<N>(val, 1);
    lemma_whole::<N>(val, 3);
    lemma_whole::<N>(val, 6);
    let on = content_ops(
        Node { kind: NodeKind::Checkbox { label, checked: true }, ..node },
        id,
        focused,
        m,
    );
    let off = content_ops(
        Node { kind: NodeKind::Checkbox { label, checked: false }, ..node },
        id,
        focused,
        m,
    );
    assert(on.remove(off.len() - 1) =~= off);
}

// ---- slider and progress bar ----

/// A track's bar lies in the middle of the content; what is filled of it starts where
/// the bar does and is as much of its length as the value is of 1, in the text's color.
pub proof fn law_track_is_filled_by_its_value<N: Num>(
    val: spec_fn(N) -> real,
    style: Style<N>,
    content: Rect<N>,
    value: N,
    track_h: N,
    color: Color,
)
    requires
        exact(val),
    ensures
        ({
            let ops = track_ops(style, content, value, track_h, color);
            let part = val(content.w) * unit(val(value));
            &&& ops.len() == if part > 0 as real {
                2int
            } else {
                1
            }
            &&& ops[0] matches Op::Fill(bar, c, _) && c == color && {
                &&& val(bar.x) == val(content.x)
                &&& val(bar.w) == val(content.w)
                &&& val(bar.h) == val(track_h)
                &&& same_middle(val, bar, content)
                &&& part > 0 as real ==> (ops[1] matches Op::Fill(f, c, _) && c == style.text_color
                    && lies_at(val, f, val(bar.x), val(bar.y), part, val(bar.h)))
            }
        }),
{
    lemma_whole::<N>(val, 0);
    lemma_whole::<N>(val, 1);
    lemma_whole::<N>(val, 2);
}

/// A slider shows its value: its track is filled by it, and its thumb stands with its
/// middle where the filled part ends. A progress bar has the track alone.
pub proof fn law_slider_shows_its_value<N: Num, M: Metrics<N>>(
    val: spec_fn(N) -> real,
    node: Node<N>,
    value: N,
    id: NodeId,
    focused: bool,
    m: M,
)
    requires
        exact(val),
    ensures
        ({
            let style = node.style;
            let rect = content_rect(style, node.computed);
            let slider = content_ops(
                Node { kind: NodeKind::Slider { value }, ..node },
                id,
                focused,
                m,
            );
            let bar = content_ops(
                Node { kind: NodeKind::ProgressBar { value }, ..node },
                id,
                focused,
                m,
            );
            let (track_h, thumb_d) = m.slider(style.font_size);
            let n = bar.len() as int;
            &&& bar == track_ops(style, rect, value, track_h, match style.border_color {
                Some(c) => c,
                None => Color { r: 229, g: 231, b: 235, a: 255 },
            })
            &&& slider.len() == n + if style.border_color is Some {
                2int
            } else {
                1
            }
            &&& slider.take(n) == track_ops(style, rect, value, track_h, match style.border_color {
                Some(c) => c,
                None => Color { r: 209, g: 213, b: 219, a: 255 },
            })
            &&& slider[n] matches Op::Fill(thumb, c, _) && {
                &&& c == style.text_color
                &&& val(thumb.w) == val(thumb_d)
                &&& val(thumb.h) == val(thumb_d)
                &&& same_middle(val, thumb, rect)
                &&& val(thumb.x) + val(thumb.w) / 2 as real == val(rect.x) + val(rect.w) * unit(
                    val(value),
                )
                &&& style.border_color is Some ==> (slider[n + 1] matches Op::Stroke(r, c, w, _)
                    && r == thumb && c == style.border_color->0 && val(w) == 1 as real)
            }
        }),
{
    lemma_whole::<N>(val, 0);
    lemma_whole::<N>(val, 1);
    lemma_whole::<N>(val, 2);
    let style = node.style;
    let rect = content_rect(style, node.computed);
    let (track_h, thumb_d) = m.slider(style.font_size);
    let slider = content_ops(Node { kind: NodeKind::Slider { value }, ..node }, id, focused, m);
    let c1 = match style.border_color {
        Some(c) => c,
        None => Color { r: 209, g: 213, b: 219, a: 255 },
    };
    let c2 = match style.border_color {
        Some(c) => c,
        None => Color { r: 229, g: 231, b: 235, a: 255 },
    };
    law_track_is_filled_by_its_value(val, style, rect, value, track_h, c1);
    law_track_is_filled_by_its_value(val, style, rect, value, track_h, c2);
    let t = track_ops(style, rect, value, track_h, c1);
    assert(slider.take(t.len() as int) =~= t);
}

// ---- dropdowns and pickers ----

/// A closed dropdown shows the selected option, or its placeholder while none of its
/// options is selected, in an outlined box with an indicator inside at its far end.
pub proof fn law_dropdown_shows_its_choice<N: Num, M: Metrics<N>>(
    val: spec_fn(N) -> real,
    node: Node<N>,
    id: NodeId,
    focused: bool,
    m: M,
)
    requires
        exact(val),
        node.kind is Dropdown,
    ensures
        ({
            let ops = content_ops(node, id, focused, m);
            let rect = content_rect(node.style, node.computed);
            let style = node.style;
            &&& ops.len() == 3
            &&& ops[0] matches Op::Stroke(b, c, w, _) && {
                &&& b.x == rect.x && b.y == rect.y && b.w == rect.w
                &&& val(b.h) == val(style.font_size) * (13 as real / 10 as real) + 16 as real
                &&& val(w) == 1 as real
                &&& ops[1] matches Op::Text(t, r, s) && {
                    &&& node.kind matches NodeKind::Dropdown { placeholder, options, selected, .. }
                        && t == (if selected is Some && selected->0 < options@.len() {
                        options@[selected->0 as int]@
                    } else {
                        placeholder@
                    })
                    &&& in_style(s, style, TextAlign::Left)
                    &&& val(r.x) == val(b.x) + 8 as real
                    &&& val(r.y) == val(b.y) + 8 as real
                }
                &&& ops[2] matches Op::Fill(g, color, _) && {
                    &&& color == style.text_color
                    &&& val(g.x) + val(g.w) == val(b.x) + val(b.w) - 8 as real
                    &&& same_middle(val, g, b)
                    &&& val(g.w) == val(g.h)
                    &&& val(g.w) >= 4 as real
                }
            }
        }),
{
    lemma_whole::<N>(val, 1);
    lemma_whole::<N>(val, 0);
    lemma_whole::<N>(val, 2);
    lemma_whole::<N>(val, 4);
    lemma_whole::<N>(val, 8);
    lemma_whole::<N>(val, 14);
    lemma_whole::<N>(val, 16);
    assert(val(N::ratio_of(13, 10)) == 13 as real / 10 as real);
}

/// A closed date or time shows its value, or its placeholder while it has none, on a line
/// in the middle, with an indicator at its far end.
pub proof fn law_picker_shows_its_value<N: Num, M: Metrics<N>>(
    val: spec_fn(N) -> real,
    node: Node<N>,
    id: NodeId,
    focused: bool,
    m: M,
    value: String,
    placeholder: String,
)
    requires
        exact(val),
        match node.kind {
            NodeKind::Date { value: v, placeholder: p, .. } => v == value && p == placeholder,
            NodeKind::Time { value: v, placeholder: p, .. } => v == value && p == placeholder,
            NodeKind::DateTime { value: v, placeholder: p, .. } => v == value && p == placeholder,
            _ => false,
        },
    ensures
        ({
            let ops = content_ops(node, id, focused, m);
            let rect = content_rect(node.style, node.computed);
            &&& ops.len() == 2
            &&& ops[0] matches Op::Text(t, r, s) && {
                &&& t == if value@.len() > 0 {
                    value@
                } else {
                    placeholder@
                }
                &&& in_style(s, node.style, TextAlign::Left)
                &&& val(r.x) == val(rect.x)
                &&& same_middle(val, r, rect)
            }
            &&& ops[1] matches Op::Fill(g, c, _) && {
                &&& c == node.style.text_color
                &&& val(g.x) + val(g.w) == val(rect.x) + val(rect.w)
                &&& same_middle(val, g, rect)
                &&& val(g.w) == val(g.h)
            }
        }),
{
    lemma_whole::<N>(val, 0);
    lemma_whole::<N>(val, 2);
    lemma_whole::<N>(val, 4);
    lemma_whole::<N>(val, 20);
}

// ---- text fields ----

/// How wide the first `count` characters of a text are.
pub open spec fn width_of<N: Num, M: Metrics<N>>(
    val: spec_fn(N) -> real,
    m: M,
    text: Seq<char>,
    count: int,
    size: N,
) -> real {
    if count == 0 {
        0 as real
    } else if count < text.len() {
        val(m.extent(text.take(count), size).x)
    } else {
        val(m.extent(text, size).x)
    }
}

proof fn lemma_prefix_width<N: Num, M: Metrics<N>>(
    val: spec_fn(N) -> real,
    m: M,
    text: Seq<char>,
    count: int,
    size: N,
)
    requires
        exact(val),
    ensures
        val(prefix_width(m, text, count, size)) == width_of(val, m, text, count, size),
{
    lemma_whole::<N>(val, 0);
    assert(text.take(text.len() as int) =~= text);
}

/// The characters between the caret and the selection's other end; `None` if nothing is
/// selected, or nothing shows it: the field is not focused, or text is being composed.
pub open spec fn marked(f: Field) -> Option<(int, int)> {
    match f.anchor {
        Some(a) => if f.focused && f.preview == 0 && a as int != f.cursor {
            if (a as int) < f.cursor {
                Some((a as int, f.cursor))
            } else {
                Some((f.cursor, a as int))
            }
        } else {
            None
        },
        None => None,
    }
}

pub open spec fn as_count(b: bool) -> int {
    if b {
        1
    } else {
        0
    }
}

/// An empty field shows its placeholder alone; any other shows its text, clipped to the
/// field.
pub proof fn law_field_shows_text_or_placeholder<N: Num, M: Metrics<N>>(
    m: M,
    style: Style<N>,
    content: Rect<N>,
    placeholder: Seq<char>,
    f: Field,
    scroll: Point<N>,
)
    ensures
        ({
            let ops = text_input_ops(m, style, content, placeholder, f, scroll);
            if f.shown.len() == 0 {
                ops.len() == 1 && (ops[0] matches Op::Text(t, r, s) && t == placeholder && r
                    == content && in_style(s, style, style.text_align))
            } else {
                &&& ops.len() >= 3
                &&& ops[0] == Op::PushClip(content)
                &&& ops.last() == Op::<N>::PopClip
                &&& ops.subrange(1, ops.len() - 1) == if style.multiline {
                    multi_line_ops(m, style, content, f, scroll.y)
                } else {
                    single_line_ops(m, style, content, f, scroll.x)
                }
            }
        }),
{
    let ops = text_input_ops(m, style, content, placeholder, f, scroll);
    if f.shown.len() > 0 {
        let inner = if style.multiline {
            multi_line_ops(m, style, content, f, scroll.y)
        } else {
            single_line_ops(m, style, content, f, scroll.x)
        };
        assert(ops.subrange(1, ops.len() - 1) =~= inner);
    }
}

/// A single-line field: the text starts where the field does, panned by the scroll. What
/// is selected is marked below the text, from where its first character starts to where
/// its last one ends. The caret shows if, and only if, the field is focused: after all
/// else, behind the characters before it. Nothing else is drawn but, while text is being
/// composed, a line under that text.
pub proof fn law_single_line_field<N: Num, M: Metrics<N>>(
    val: spec_fn(N) -> real,
    m: M,
    style: Style<N>,
    content: Rect<N>,
    f: Field,
    scroll_x: N,
)
    requires
        exact(val),
        f.preview >= 0,
    ensures
        ({
            let ops = single_line_ops(m, style, content, f, scroll_x);
            let size = style.font_size;
            let left = val(content.x) - val(scroll_x);
            let composing = f.focused && f.preview > 0;
            let sel = marked(f);
            let at = as_count(sel is Some);
            &&& ops.len() == at + 1 + as_count(composing) + as_count(f.focused)
            &&& ops[at] matches Op::Text(t, r, s) && t == f.shown && val(r.x) == left && r.y
                == content.y && r.h == content.h && in_style(s, style, style.text_align)
            &&& sel matches Some((lo, hi)) ==> (ops[0] matches Op::Fill(r, c, _) && c == (Color {
                a: 60,
                ..style.text_color
            }) && val(r.x) == left + width_of(val, m, f.shown, lo, size) && val(r.x) + val(r.w)
                == left + width_of(val, m, f.shown, hi, size) && r.y == content.y && r.h
                == content.h)
            &&& f.focused ==> (ops.last() matches Op::Fill(r, c, _) && c == style.text_color && val(
                r.x,
            ) == left + width_of(val, m, f.shown, f.cursor + f.preview, size) && r.y == content.y
                && r.h == content.h && val(r.w) == 3 as real / 2 as real)
            &&& composing ==> (ops[1] matches Op::Fill(r, c, _) && c == style.text_color && val(r.x)
                == left + width_of(val, m, f.shown, f.cursor, size) && (val(r.w) >= 1 as real)
                && (width_of(val, m, f.shown, f.cursor + f.preview, size) - width_of(
                val,
                m,
                f.shown,
                f.cursor,
                size,
            ) >= 1 as real ==> val(r.x) + val(r.w) == left + width_of(
                val,
                m,
                f.shown,
                f.cursor + f.preview,
                size,
            )) && val(r.y) + 2 as real == val(content.y) + val(content.h))
        }),
{
    let size = style.font_size;
    lemma_whole::<N>(val, 0);
    lemma_whole::<N>(val, 1);
    lemma_whole::<N>(val, 2);
    lemma_prefix_width(val, m, f.shown, f.cursor + f.preview, size);
    lemma_prefix_width(val, m, f.shown, f.cursor, size);
    if let Some((lo, hi)) = marked(f) {
        lemma_prefix_width(val, m, f.shown, lo, size);
        lemma_prefix_width(val, m, f.shown, hi, size);
    }
}

/// A multi-line field: its text starts at the top, panned by the scroll. The caret shows
/// if, and only if, the field is focused, after all else: on its own line, one line's
/// height for every line above it, behind the characters before it on that line. With no
/// selection and nothing being composed, nothing else is drawn.
pub proof fn law_multi_line_field<N: Num, M: Metrics<N>>(
    val: spec_fn(N) -> real,
    m: M,
    style: Style<N>,
    content: Rect<N>,
    f: Field,
    scroll_y: N,
)
    requires
        exact(val),
        f.preview >= 0,
        line_col(f.shown, f.cursor + f.preview).0 >= 0,
    ensures
        ({
            let ops = multi_line_ops(m, style, content, f, scroll_y);
            let size = style.font_size;
            let line_h = val(size) * (13 as real / 10 as real);
            let (line, col) = line_col(f.shown, f.cursor + f.preview);
            let text = lines_of(f.shown)[line];
            let composing = f.focused && f.preview > 0;
            let marks = ops.len() - 1 - as_count(composing) - as_count(f.focused);
            &&& marks >= 0
            &&& marked(f) is None ==> marks == 0
            &&& ops[marks] matches Op::Text(t, r, s) && t == f.shown && r.x == content.x && val(r.y)
                == val(content.y) - val(scroll_y) && in_style(s, style, style.text_align)
            &&& f.focused ==> (ops.last() matches Op::Fill(r, c, _) && c == style.text_color && val(
                r.x,
            ) == val(content.x) + val(
                m.extent(
                    text.take(if col < text.len() {
                        col
                    } else {
                        text.len() as int
                    }),
                    size,
                ).x,
            ) && val(r.y) == val(content.y) + (line as real) * line_h - val(scroll_y) && val(r.h)
                == line_h && val(r.w) == 3 as real / 2 as real)
        }),
{
    lemma_whole::<N>(val, 0);
    lemma_whole::<N>(val, 1);
    lemma_whole::<N>(val, 2);
    let (line, col) = line_col(f.shown, f.cursor + f.preview);
    assert(val(N::count_of(line as nat)) == line as real);
}

/// The `n`th line's mark of a selection over several lines: it stands on that line, from
/// where the selection starts on its first line and from the field's start on the others,
/// to where it ends on its last line and to the field's end on the others. A mark without
/// a width is left out.
pub proof fn law_selection_is_marked_line_by_line<N: Num, M: Metrics<N>>(
    val: spec_fn(N) -> real,
    m: M,
    style: Style<N>,
    content: Rect<N>,
    text: Seq<char>,
    lo: (int, int),
    hi: (int, int),
    scroll_y: N,
    n: nat,
)
    requires
        exact(val),
        lo.0 >= 0,
    ensures
        ({
            let size = style.font_size;
            let line = lo.0 + n;
            let line_h = val(size) * (13 as real / 10 as real);
            let before = crate::toolkit::paint::highlight_ops(
                m,
                style,
                content,
                text,
                lo,
                hi,
                scroll_y,
                n,
            );
            let after = crate::toolkit::paint::highlight_ops(
                m,
                style,
                content,
                text,
                lo,
                hi,
                scroll_y,
                n + 1,
            );
            let from = val(content.x) + if n == 0 {
                line_part(val, m, text, line, lo.1, size)
            } else {
                0 as real
            };
            let to = val(content.x) + if line == hi.0 {
                line_part(val, m, text, line, hi.1, size)
            } else {
                val(content.w)
            };
            if from < to {
                &&& after.len() == before.len() + 1
                &&& after.drop_last() == before
                &&& after.last() matches Op::Fill(r, c, _) && c == (Color {
                    a: 60,
                    ..style.text_color
                }) && val(r.x) == from && val(r.x) + val(r.w) == to && val(r.y) == val(content.y) + (
                line as real) * line_h - val(scroll_y) && val(r.h) == line_h
            } else {
                after == before
            }
        }),
{
    lemma_whole::<N>(val, 0);
    let line = lo.0 + n;
    assert(val(N::count_of(line as nat)) == line as real);
    let before = crate::toolkit::paint::highlight_ops(m, style, content, text, lo, hi, scroll_y, n);
    let after = crate::toolkit::paint::highlight_ops(
        m,
        style,
        content,
        text,
        lo,
        hi,
        scroll_y,
        n + 1,
    );
    if after != before {
        assert(after.drop_last() =~= before);
    }
}

/// How wide the first `chars` characters of a line are.
pub open spec fn line_part<N: Num, M: Metrics<N>>(
    val: spec_fn(N) -> real,
    m: M,
    text: Seq<char>,
    line: int,
    chars: int,
    size: N,
) -> real {
    let l = lines_of(text)[line];
    val(
        m.extent(
            l.take(if chars < l.len() {
                chars
            } else {
                l.len() as int
            }),
            size,
        ).x,
    )
}

/// What a field shows: its value, with what is being composed put in at the caret and
/// nothing else changed; if it is masked, as many stars.
pub proof fn law_shown_text(label: Seq<char>, cursor: int, preview: Seq<char>, masked: bool, i: int)
    requires
        0 <= cursor,
        0 <= i < label.len() + preview.len(),
    ensures
        ({
            let shown = shown_text(label, cursor, preview, masked);
            let at = if cursor < label.len() {
                cursor
            } else {
                label.len() as int
            };
            &&& shown.len() == label.len() + preview.len()
            &&& shown[i] == if masked {
                '*'
            } else if i < at {
                label[i]
            } else if i < at + preview.len() {
                preview[i - at]
            } else {
                label[i - preview.len()]
            }
        }),
{
}

// ---- scrollbars ----

/// A scrollbar's thumb stays on its track, is never shorter than 20 pixels, and is as much
/// of the track as shows of the content. It stands at the start while nothing is scrolled
/// away, at the end when everything is, and in between in proportion.
pub proof fn law_thumb_shows_where_the_content_is<N: Num>(
    val: spec_fn(N) -> real,
    start: N,
    length: N,
    content: N,
    offset: N,
)
    requires
        exact(val),
        val(length) >= 20 as real,
        val(content) >= val(length) + 1 as real,
    ensures
        ({
            let (at, extent) = thumb_span(start, length, content, offset);
            let (a, e) = (val(at) - val(start), val(extent));
            let (l, c, o) = (val(length), val(content), val(offset));
            &&& 20 as real <= e && e <= l
            &&& 0 as real <= a && a + e <= l
            &&& o <= 0 as real ==> a == 0 as real
            &&& o >= c - l ==> a + e == l
            &&& 0 as real <= o && o <= c - l ==> a * (c - l) == o * (l - e)
            &&& l * l >= 20 as real * c ==> e * c == l * l
            &&& l * l <= 20 as real * c ==> e == 20 as real
        }),
{
    lemma_whole::<N>(val, 0);
    lemma_whole::<N>(val, 1);
    lemma_whole::<N>(val, 20);
    let (at, extent) = thumb_span(start, length, content, offset);
    let (l, c, o) = (val(length), val(content), val(offset));
    let q = l / c;
    assert(q * c == l) by (nonlinear_arith)
        requires
            q == l / c,
            c > 0 as real,
    ;
    assert(l * q <= l) by (nonlinear_arith)
        requires
            q * c == l,
            c >= l,
            l > 0 as real,
    ;
    assert((l * q) * c == l * l) by (nonlinear_arith)
        requires
            q * c == l,
    ;
    if l * q < 20 as real {
        let z = l * q;
        assert(z * c < 20 as real * c) by (nonlinear_arith)
            requires
                z < 20 as real,
                c > 0 as real,
        ;
    }
    if l * q > 20 as real {
        let z = l * q;
        assert(z * c > 20 as real * c) by (nonlinear_arith)
            requires
                z > 20 as real,
                c > 0 as real,
        ;
    }
    let e = val(extent);
    let most = c - l;
    let k = if o < 0 as real {
        0 as real
    } else if most < o {
        most
    } else {
        o
    };
    let t = k / most;
    assert(t * most == k) by (nonlinear_arith)
        requires
            t == k / most,
            most > 0 as real,
    ;
    assert(0 as real <= t && t <= 1 as real) by (nonlinear_arith)
        requires
            t * most == k,
            0 as real <= k,
            k <= most,
            most > 0 as real,
    ;
    let a = val(at) - val(start);
    assert(a == t * (l - e));
    assert(0 as real <= a && a <= l - e) by (nonlinear_arith)
        requires
            a == t * (l - e),
            0 as real <= t,
            t <= 1 as real,
            l - e >= 0 as real,
    ;
    assert(a * most == k * (l - e)) by (nonlinear_arith)
        requires
            a == t * (l - e),
            t * most == k,
    ;
    if k == 0 as real {
        assert(a == 0 as real) by (nonlinear_arith)
            requires
                a * most == k * (l - e),
                k == 0 as real,
                most > 0 as real,
        ;
    }
    if k == most {
        assert(a == l - e) by (nonlinear_arith)
            requires
                a * most == k * (l - e),
                k == most,
                most > 0 as real,
        ;
    }
}

/// A scrollbar shows if, and only if, the node scrolls along its axis and its content is
/// longer than it by more than half a pixel: the vertical one on the right edge, the
/// horizontal one on the bottom edge, 8 pixels thick, with its thumb on it.
pub proof fn law_scrollbars_show_overflow<N: Num>(
    val: spec_fn(N) -> real,
    rect: Rect<N>,
    style: Style<N>,
    content: Size<N>,
    offset: Point<N>,
)
    requires
        exact(val),
    ensures
        ({
            let v = vertical_bar_ops(rect, style, content, offset);
            let h = horizontal_bar_ops(rect, style, content, offset);
            let shows_v = style.scroll_y && val(content.h) > val(rect.h) + 1 as real / 2 as real;
            let shows_h = style.scroll_x && val(content.w) > val(rect.w) + 1 as real / 2 as real;
            &&& v.len() == 2 * as_count(shows_v)
            &&& h.len() == 2 * as_count(shows_h)
            &&& shows_v ==> (v[0] matches Op::Fill(t, _, _) && val(t.x) + val(t.w) == val(rect.x)
                + val(rect.w) && val(t.w) == 8 as real && t.y == rect.y && t.h == rect.h && (
            v[1] matches Op::Fill(b, _, _) && b.x == t.x && b.w == t.w && (b.y, b.h) == thumb_span(
                rect.y,
                rect.h,
                content.h,
                offset.y,
            )))
            &&& shows_h ==> (h[0] matches Op::Fill(t, _, _) && val(t.y) + val(t.h) == val(rect.y)
                + val(rect.h) && val(t.h) == 8 as real && t.x == rect.x && t.w == rect.w && (
            h[1] matches Op::Fill(b, _, _) && b.y == t.y && b.h == t.h && (b.x, b.w) == thumb_span(
                rect.x,
                rect.w,
                content.w,
                offset.x,
            )))
        }),
{
    lemma_whole::<N>(val, 8);
}

// ---- lists of options ----

proof fn lemma_option_top<N: Num>(val: spec_fn(N) -> real, top: N, option_h: N, k: nat)
    requires
        exact(val),
    ensures
        val(option_top(top, option_h, k)) == val(top) + (k as real) * val(option_h),
    decreases k,
{
    let h = val(option_h);
    if k > 0 {
        lemma_option_top(val, top, option_h, (k - 1) as nat);
        let m = (k - 1) as real;
        assert((m + 1 as real) * h == m * h + h) by (nonlinear_arith);
    } else {
        assert((0 as real) * h == 0 as real) by (nonlinear_arith);
    }
}

/// Row `k` of an open list of options comes after the rows before it: one row's height for
/// each of them below the list's top, with the option's text in it, and filled below the
/// text if, and only if, it is the selected one.
pub proof fn law_option_row<N: Num>(
    val: spec_fn(N) -> real,
    style: Style<N>,
    popup: Rect<N>,
    option_h: N,
    options: Seq<String>,
    selected: Option<usize>,
    k: nat,
)
    requires
        exact(val),
        val(popup.w) >= 16 as real,
        val(option_h) >= 16 as real,
    ensures
        ({
            let before = option_ops(style, popup, option_h, options, selected, k);
            let after = option_ops(style, popup, option_h, options, selected, k + 1);
            let n = before.len() as int;
            let chosen = selected is Some && selected->0 == k;
            &&& after.len() == n + 1 + as_count(chosen)
            &&& after.take(n) == before
            &&& after.last() matches Op::Text(t, r, s) && t == options[k as int]@ && in_style(
                s,
                style,
                TextAlign::Left,
            ) && lies_at(
                val,
                r,
                val(popup.x) + 8 as real,
                val(popup.y) + (k as real) * val(option_h) + 8 as real,
                val(popup.w) - 16 as real,
                val(option_h) - 16 as real,
            )
            &&& chosen ==> (after[n] matches Op::Fill(r, _, _) && lies_at(
                val,
                r,
                val(popup.x),
                val(popup.y) + (k as real) * val(option_h),
                val(popup.w),
                val(option_h),
            ))
        }),
{
    lemma_whole::<N>(val, 0);
    lemma_whole::<N>(val, 8);
    lemma_option_top(val, popup.y, option_h, k);
    let before = option_ops(style, popup, option_h, options, selected, k);
    let after = option_ops(style, popup, option_h, options, selected, k + 1);
    assert(after.take(before.len() as int) =~= before);
}

/// An open list of options hangs right below its box, as wide as it and as high as its
/// rows together, with its panel below the rows.
pub proof fn law_option_list_hangs_below<N: Num>(
    val: spec_fn(N) -> real,
    node: Node<N>,
    options: Seq<String>,
    selected: Option<usize>,
)
    requires
        exact(val),
    ensures
        ({
            let ops = dropdown_popup_ops(node, options, selected);
            let row = val(node.style.font_size) * (13 as real / 10 as real) + 12 as real;
            &&& ops.len() >= 2
            &&& ops[0] matches Op::Fill(p, c, _) && {
                &&& lies_at(
                    val,
                    p,
                    val(node.computed.x),
                    val(node.computed.y) + val(node.computed.h),
                    val(node.computed.w),
                    row * (options.len() as real),
                )
                &&& node.style.bg is Some ==> c == node.style.bg->0
                &&& ops[1] matches Op::Stroke(q, _, w, _) && q == p && val(w) == 1 as real
                &&& exists|h: N|
                    val(h) == row && ops.skip(2) == #[trigger] option_ops(
                        node.style,
                        p,
                        h,
                        options,
                        selected,
                        options.len(),
                    )
            }
        }),
{
    lemma_whole::<N>(val, 1);
    lemma_whole::<N>(val, 12);
    let ops = dropdown_popup_ops(node, options, selected);
    let h = crate::toolkit::style::dropdown_sizes(node.style.font_size).1;
    assert(val(N::ratio_of(13, 10)) == 13 as real / 10 as real);
    let p = ops[0]->Fill_0;
    assert(ops.skip(2) =~= option_ops(node.style, p, h, options, selected, options.len()));
}

/// An open menu's panel hangs right below its header, as large as its content.
pub proof fn law_menu_panel_hangs_below<N: Num>(val: spec_fn(N) -> real, node: Node<N>)
    requires
        exact(val),
    ensures
        ({
            let ops = menu_panel_ops(node);
            &&& ops.len() == as_count(node.style.bg is Some) + as_count(
                node.style.border_color is Some,
            )
            &&& forall|k: int|
                0 <= k < ops.len() ==> match #[trigger] ops[k] {
                    Op::Fill(p, c, _) => Some(c) == node.style.bg && is_below(val, node, p),
                    Op::Stroke(p, c, w, _) => Some(c) == node.style.border_color && is_below(
                        val,
                        node,
                        p,
                    ) && val(w) == 1 as real,
                    _ => false,
                }
        }),
{
    lemma_whole::<N>(val, 1);
}

/// Right below a node, as large as its content.
pub open spec fn is_below<N>(val: spec_fn(N) -> real, node: Node<N>, p: Rect<N>) -> bool {
    lies_at(
        val,
        p,
        val(node.computed.x),
        val(node.computed.y) + val(node.computed.h),
        val(node.content_size.w),
        val(node.content_size.h),
    )
}

} // verus!
