//! Walks the solved arena and produces drawing operations, layer by layer,
//! back-to-front.
//!
//! What is drawn for a node is a function of the node ([`node_ops`]). Popups are
//! drawn after everything else, so that they float on top of it.

use vstd::prelude::*;
use vstd::string::*;
use crate::order::{order_of, ranks, stable_order};
use crate::toolkit::arena::{rank_of, ranked, DateTimeTab, Node, NodeId, NodeKind, Ui};
use crate::toolkit::canvas::{Canvas, Op, TextStyle};
use crate::toolkit::geometry::{edges_all, inset_rect, Color, Edges, Point, Rect, Size};
use crate::toolkit::layout::{all_kids, all_below, lemma_kids_below, split_kids};
use crate::toolkit::measure::{
    dropdown_label, line_height, line_of, picker_label, shown_option, shown_value, Metrics,
};
use crate::toolkit::num::{clamp, clamp_of, whole, Num};
use crate::toolkit::pickers::{
    date_popup_ops, datetime_popup_ops, paint_date_popup, paint_datetime_popup, paint_time_popup,
    shown_by, staged_month, time_popup_ops, Anchor, CalendarParts, ClockParts, DateTimeParts,
    Pointer,
};
use crate::toolkit::style::{
    dropdown_metrics, dropdown_sizes, identity_transform, transform_eq, Style, TextAlign,
};
use crate::toolkit::text_input::{
    char_len, display_string, hard_lines, law_line_col_is_inside, line_and_col, line_col, lines_of,
    ordered_range, range_of, shown_text,
};

verus! {

pub open spec fn gray(r: u8, g: u8, b: u8) -> Color {
    Color { r, g, b, a: 255 }
}

/// `color`, or `other` if there is none.
pub open spec fn color_or(color: Option<Color>, other: Color) -> Color {
    match color {
        Some(c) => c,
        None => other,
    }
}

fn or_color(color: Option<Color>, other: Color) -> (r: Color)
    ensures
        r == color_or(color, other),
{
    match color {
        Some(c) => c,
        None => other,
    }
}

/// `a` halved.
pub open spec fn half<N: Num>(a: N) -> N {
    N::div_of(a, whole(2))
}

pub fn halved<N: Num>(a: N) -> (r: N)
    ensures
        r == half(a),
{
    a.over(N::ratio(2, 1))
}

/// How a node's text is drawn.
pub open spec fn text_style<N>(style: Style<N>, align: TextAlign) -> TextStyle<N> {
    TextStyle {
        color: style.text_color,
        size: style.font_size,
        align,
        weight: style.font_weight,
        letter_spacing: style.letter_spacing,
    }
}

fn style_text<N: Num>(style: &Style<N>, align: TextAlign) -> (r: TextStyle<N>)
    ensures
        r == text_style(*style, align),
{
    TextStyle {
        color: style.text_color,
        size: style.font_size,
        align,
        weight: style.font_weight,
        letter_spacing: style.letter_spacing,
    }
}

// ---- a node's own box ----

/// What opens around a node: its transform, around its center, and its opacity.
pub open spec fn opening_ops<N: Num>(style: Style<N>, rect: Rect<N>) -> Seq<Op<N>> {
    (if transform_eq(style.transform, identity_transform()) {
        Seq::empty()
    } else {
        seq![
            Op::PushTransform(
                style.transform,
                Point { x: N::add_of(rect.x, half(rect.w)), y: N::add_of(rect.y, half(rect.h)) },
            ),
        ]
    }) + (if N::lt_of(style.opacity, whole(1)) {
        seq![Op::PushOpacity(N::max_of(style.opacity, whole(0)))]
    } else {
        Seq::empty()
    })
}

/// What closes around a node.
pub open spec fn closing_ops<N: Num>(style: Style<N>) -> Seq<Op<N>> {
    (if N::lt_of(style.opacity, whole(1)) {
        seq![Op::PopOpacity]
    } else {
        Seq::empty()
    }) + (if transform_eq(style.transform, identity_transform()) {
        Seq::empty()
    } else {
        seq![Op::PopTransform]
    })
}

/// Whether a border has any width.
pub open spec fn has_border<N: Num>(bw: Edges<N>) -> bool {
    N::lt_of(whole(0), bw.top) || N::lt_of(whole(0), bw.right) || N::lt_of(whole(0), bw.bottom)
        || N::lt_of(whole(0), bw.left)
}

/// A node's background and border.
pub open spec fn box_ops<N: Num>(style: Style<N>, rect: Rect<N>) -> Seq<Op<N>> {
    (match style.bg {
        Some(bg) => seq![Op::Fill(rect, bg, style.radius)],
        None => Seq::empty(),
    }) + (match style.border_color {
        Some(color) => if has_border(style.border_width) {
            seq![
                Op::Stroke(
                    rect,
                    color,
                    N::max_of(style.border_width.top, style.border_width.left),
                    style.radius,
                ),
            ]
        } else {
            Seq::empty()
        },
        None => Seq::empty(),
    })
}

fn open_node<N: Num>(style: &Style<N>, rect: Rect<N>, out: &mut Canvas<N>)
    ensures
        final(out).view() == old(out).view() + opening_ops(*style, rect) + box_ops(*style, rect),
{
    let ghost start = out.view();
    if !style.transform.is_identity() {
        let center = Point { x: rect.x.plus(halved(rect.w)), y: rect.y.plus(halved(rect.h)) };
        out.push_transform(style.transform, center);
    }
    if style.opacity.less(N::ratio(1, 1)) {
        out.push_opacity(style.opacity.greater_of(N::ratio(0, 1)));
    }
    assert(out.view() =~= start + opening_ops(*style, rect));
    if let Some(bg) = style.bg {
        out.fill_rect(rect, bg, style.radius);
    }
    if let Some(color) = style.border_color {
        let bw: Edges<N> = style.border_width;
        let zero: N = N::ratio(0, 1);
        if zero.less(bw.top) || zero.less(bw.right) || zero.less(bw.bottom) || zero.less(bw.left) {
            out.stroke_rect(rect, color, bw.top.greater_of(bw.left), style.radius);
        }
    }
    assert(out.view() =~= start + opening_ops(*style, rect) + box_ops(*style, rect));
}

fn close_node<N: Num>(style: &Style<N>, out: &mut Canvas<N>)
    ensures
        final(out).view() == old(out).view() + closing_ops(*style),
{
    let ghost start = out.view();
    if style.opacity.less(N::ratio(1, 1)) {
        out.pop_opacity();
    }
    if !style.transform.is_identity() {
        out.pop_transform();
    }
    assert(out.view() =~= start + closing_ops(*style));
}

// ---- controls ----

/// The box inside a checkbox that shows that it is checked.
pub open spec fn check_mark<N: Num>(r: Rect<N>) -> Rect<N> {
    Rect {
        x: N::add_of(r.x, whole(3)),
        y: N::add_of(r.y, whole(3)),
        w: N::sub_of(r.w, whole(6)),
        h: N::sub_of(r.h, whole(6)),
    }
}

pub open spec fn checkbox_ops<N: Num>(
    style: Style<N>,
    content: Rect<N>,
    label: Seq<char>,
    checked: bool,
) -> Seq<Op<N>> {
    let box_rect = Rect { w: style.font_size, h: style.font_size, ..content };
    let shift = N::add_of(style.font_size, whole(6));
    (match style.bg {
        Some(bg) => seq![Op::Fill(box_rect, bg, style.radius)],
        None => Seq::empty(),
    }) + seq![
        Op::Stroke(box_rect, color_or(style.border_color, style.text_color), whole(1), style.radius),
    ] + (if checked {
        seq![Op::Fill(check_mark(box_rect), style.text_color, style.radius)]
    } else {
        Seq::empty()
    }) + seq![
        Op::Text(
            label,
            Rect { x: N::add_of(content.x, shift), w: N::sub_of(content.w, shift), ..content },
            text_style(style, style.text_align),
        ),
    ]
}

fn paint_checkbox<N: Num>(
    style: &Style<N>,
    content: Rect<N>,
    label: &str,
    checked: bool,
    out: &mut Canvas<N>,
)
    ensures
        final(out).view() == old(out).view() + checkbox_ops(*style, content, label@, checked),
{
    let ghost start = out.view();
    let size: N = style.font_size;
    let box_rect = Rect { x: content.x, y: content.y, w: size, h: size };
    if let Some(bg) = style.bg {
        out.fill_rect(box_rect, bg, style.radius);
    }
    out.stroke_rect(
        box_rect,
        or_color(style.border_color, style.text_color),
        N::ratio(1, 1),
        style.radius,
    );
    if checked {
        let three: N = N::ratio(3, 1);
        let six: N = N::ratio(6, 1);
        let mark = Rect {
            x: box_rect.x.plus(three),
            y: box_rect.y.plus(three),
            w: box_rect.w.minus(six),
            h: box_rect.h.minus(six),
        };
        out.fill_rect(mark, style.text_color, style.radius);
    }
    let shift: N = size.plus(N::ratio(6, 1));
    let label_rect = Rect {
        x: content.x.plus(shift),
        y: content.y,
        w: content.w.minus(shift),
        h: content.h,
    };
    out.draw_text(label, label_rect, style_text(style, style.text_align));
    assert(out.view() =~= start + checkbox_ops(*style, content, label@, checked));
}

/// A bar of height `h`, centered in `content`.
pub open spec fn bar_rect<N: Num>(content: Rect<N>, h: N) -> Rect<N> {
    Rect {
        x: content.x,
        y: N::add_of(content.y, half(N::sub_of(content.h, h))),
        w: content.w,
        h,
    }
}

/// A track, filled as far as `value` says.
pub open spec fn track_ops<N: Num>(
    style: Style<N>,
    content: Rect<N>,
    value: N,
    track_h: N,
    track_color: Color,
) -> Seq<Op<N>> {
    let track = bar_rect(content, track_h);
    let filled = N::mul_of(track.w, clamp_of(value, whole(0), whole(1)));
    seq![Op::Fill(track, track_color, edges_all(half(track_h)))] + (if N::lt_of(whole(0), filled) {
        seq![
            Op::Fill(
                Rect { x: track.x, y: track.y, w: filled, h: track_h },
                style.text_color,
                edges_all(half(track_h)),
            ),
        ]
    } else {
        Seq::empty()
    })
}

pub open spec fn slider_ops<N: Num>(
    style: Style<N>,
    content: Rect<N>,
    value: N,
    track_h: N,
    thumb_d: N,
) -> Seq<Op<N>> {
    let filled = N::mul_of(content.w, clamp_of(value, whole(0), whole(1)));
    let thumb = Rect {
        x: N::sub_of(N::add_of(content.x, filled), half(thumb_d)),
        y: N::add_of(content.y, half(N::sub_of(content.h, thumb_d))),
        w: thumb_d,
        h: thumb_d,
    };
    track_ops(style, content, value, track_h, color_or(style.border_color, gray(209, 213, 219)))
        + seq![Op::Fill(thumb, style.text_color, edges_all(half(thumb_d)))] + (
    match style.border_color {
        Some(border) => seq![Op::Stroke(thumb, border, whole(1), edges_all(half(thumb_d)))],
        None => Seq::empty(),
    })
}

fn paint_track<N: Num>(
    style: &Style<N>,
    content: Rect<N>,
    value: N,
    track_h: N,
    track_color: Color,
    out: &mut Canvas<N>,
) -> (filled: N)
    ensures
        final(out).view() == old(out).view() + track_ops(
            *style,
            content,
            value,
            track_h,
            track_color,
        ),
        filled == N::mul_of(content.w, clamp_of(value, whole(0), whole(1))),
{
    let ghost start = out.view();
    let zero: N = N::ratio(0, 1);
    let y: N = content.y.plus(halved(content.h.minus(track_h)));
    let radius: Edges<N> = Edges::all(halved(track_h));
    out.fill_rect(Rect { x: content.x, y, w: content.w, h: track_h }, track_color, radius);
    let filled: N = content.w.times(clamp(value, zero, N::ratio(1, 1)));
    if zero.less(filled) {
        out.fill_rect(Rect { x: content.x, y, w: filled, h: track_h }, style.text_color, radius);
    }
    assert(out.view() =~= start + track_ops(*style, content, value, track_h, track_color));
    filled
}

fn paint_slider<N: Num>(
    style: &Style<N>,
    content: Rect<N>,
    value: N,
    track_h: N,
    thumb_d: N,
    out: &mut Canvas<N>,
)
    ensures
        final(out).view() == old(out).view() + slider_ops(*style, content, value, track_h, thumb_d),
{
    let ghost start = out.view();
    let track_color: Color = or_color(style.border_color, Color::rgb(209, 213, 219));
    let filled: N = paint_track(style, content, value, track_h, track_color, out);
    let thumb = Rect {
        x: content.x.plus(filled).minus(halved(thumb_d)),
        y: content.y.plus(halved(content.h.minus(thumb_d))),
        w: thumb_d,
        h: thumb_d,
    };
    out.fill_rect(thumb, style.text_color, Edges::all(halved(thumb_d)));
    if let Some(border) = style.border_color {
        out.stroke_rect(thumb, border, N::ratio(1, 1), Edges::all(halved(thumb_d)));
    }
    assert(out.view() =~= start + slider_ops(*style, content, value, track_h, thumb_d));
}

/// The side of a small indicator square.
pub open spec fn glyph_size<N: Num>(font_size: N) -> N {
    N::max_of(N::mul_of(font_size, N::ratio_of(4, 10)), whole(4))
}

fn size_glyph<N: Num>(font_size: N) -> (r: N)
    ensures
        r == glyph_size(font_size),
{
    font_size.times(N::ratio(4, 10)).greater_of(N::ratio(4, 1))
}

pub open spec fn dropdown_ops<N: Num>(style: Style<N>, content: Rect<N>, label: Seq<char>) -> Seq<
    Op<N>,
> {
    let box_rect = Rect { h: dropdown_sizes(style.font_size).0, ..content };
    let inner = inset_rect(box_rect, edges_all(whole(8)));
    let side = glyph_size(style.font_size);
    seq![
        Op::Stroke(
            box_rect,
            color_or(style.border_color, gray(209, 213, 219)),
            whole(1),
            style.radius,
        ),
        Op::Text(
            label,
            Rect { w: N::sub_of(inner.w, whole(14)), ..inner },
            text_style(style, TextAlign::Left),
        ),
        Op::Fill(
            Rect {
                x: N::sub_of(N::sub_of(N::add_of(box_rect.x, box_rect.w), side), whole(8)),
                y: N::add_of(box_rect.y, half(N::sub_of(box_rect.h, side))),
                w: side,
                h: side,
            },
            style.text_color,
            edges_all(whole(0)),
        ),
    ]
}

fn paint_dropdown<N: Num>(style: &Style<N>, content: Rect<N>, label: &str, out: &mut Canvas<N>)
    ensures
        final(out).view() == old(out).view() + dropdown_ops(*style, content, label@),
{
    let ghost start = out.view();
    let (box_h, _) = dropdown_metrics(style.font_size);
    let box_rect = Rect { x: content.x, y: content.y, w: content.w, h: box_h };
    out.stroke_rect(
        box_rect,
        or_color(style.border_color, Color::rgb(209, 213, 219)),
        N::ratio(1, 1),
        style.radius,
    );
    let inner: Rect<N> = box_rect.inset(Edges::all(N::ratio(8, 1)));
    let label_rect = Rect { x: inner.x, y: inner.y, w: inner.w.minus(N::ratio(14, 1)), h: inner.h };
    out.draw_text(label, label_rect, style_text(style, TextAlign::Left));
    let side: N = size_glyph(style.font_size);
    let caret = Rect {
        x: box_rect.x.plus(box_rect.w).minus(side).minus(N::ratio(8, 1)),
        y: box_rect.y.plus(halved(box_rect.h.minus(side))),
        w: side,
        h: side,
    };
    out.fill_rect(caret, style.text_color, Edges::all(N::ratio(0, 1)));
    assert(out.view() =~= start + dropdown_ops(*style, content, label@));
}

/// One line of text, centered vertically in a rectangle.
pub open spec fn vcentered<N: Num>(r: Rect<N>, font_size: N) -> Rect<N> {
    let line_h = N::mul_of(font_size, N::ratio_of(13, 10));
    Rect { x: r.x, y: N::add_of(r.y, half(N::sub_of(r.h, line_h))), w: r.w, h: line_h }
}

/// One line of text, centered vertically in a rectangle.
pub fn vcenter_text<N: Num>(r: Rect<N>, font_size: N) -> (v: Rect<N>)
    ensures
        v == vcentered(r, font_size),
{
    let line_h: N = font_size.times(N::ratio(13, 10));
    Rect { x: r.x, y: r.y.plus(halved(r.h.minus(line_h))), w: r.w, h: line_h }
}

pub open spec fn picker_box_ops<N: Num>(style: Style<N>, content: Rect<N>, label: Seq<char>) -> Seq<
    Op<N>,
> {
    let side = glyph_size(style.font_size);
    seq![
        Op::Text(
            label,
            vcentered(Rect { w: N::sub_of(content.w, whole(20)), ..content }, style.font_size),
            text_style(style, TextAlign::Left),
        ),
        Op::Fill(
            Rect {
                x: N::sub_of(N::add_of(content.x, content.w), side),
                y: N::add_of(content.y, half(N::sub_of(content.h, side))),
                w: side,
                h: side,
            },
            style.text_color,
            edges_all(whole(0)),
        ),
    ]
}

fn paint_picker_box<N: Num>(style: &Style<N>, content: Rect<N>, label: &str, out: &mut Canvas<N>)
    ensures
        final(out).view() == old(out).view() + picker_box_ops(*style, content, label@),
{
    let ghost start = out.view();
    let label_rect = Rect {
        x: content.x,
        y: content.y,
        w: content.w.minus(N::ratio(20, 1)),
        h: content.h,
    };
    out.draw_text(
        label,
        vcenter_text(label_rect, style.font_size),
        style_text(style, TextAlign::Left),
    );
    let side: N = size_glyph(style.font_size);
    let icon = Rect {
        x: content.x.plus(content.w).minus(side),
        y: content.y.plus(halved(content.h.minus(side))),
        w: side,
        h: side,
    };
    out.fill_rect(icon, style.text_color, Edges::all(N::ratio(0, 1)));
    assert(out.view() =~= start + picker_box_ops(*style, content, label@));
}

// ---- text fields ----

/// A text field's state, as painting sees it.
pub struct Field {
    pub shown: Seq<char>,
    pub cursor: int,
    pub anchor: Option<usize>,
    pub preview: int,
    pub focused: bool,
}

impl Field {
    /// The caret sits after the text being composed.
    pub open spec fn caret(&self) -> int {
        self.cursor + self.preview
    }

    /// The selection that is shown: none while text is being composed.
    pub open spec fn selection(&self) -> Option<(int, int)> {
        if self.focused && self.preview == 0 && self.anchor is Some {
            let r = range_of(self.cursor, self.anchor->0 as int);
            if r.0 != r.1 {
                Some(r)
            } else {
                None
            }
        } else {
            None
        }
    }
}

pub open spec fn faint(c: Color) -> Color {
    Color { a: 60, ..c }
}

pub open spec fn limit(i: int, len: int) -> int {
    if i < len {
        i
    } else {
        len
    }
}

/// The width of the first `count` characters of `text`.
pub open spec fn prefix_width<N: Num, M: Metrics<N>>(
    m: M,
    text: Seq<char>,
    count: int,
    font_size: N,
) -> N {
    if count == 0 {
        whole(0)
    } else {
        m.extent(text.take(limit(count, text.len() as int)), font_size).x
    }
}

fn char_prefix_width<N: Num, M: Metrics<N>>(m: &M, text: &str, count: usize, font_size: N) -> (r: N)
    ensures
        r == prefix_width(*m, text@, count as int, font_size),
{
    if count == 0 {
        return N::ratio(0, 1);
    }
    let n: usize = char_len(text);
    let k: usize = if count < n {
        count
    } else {
        n
    };
    let prefix: &str = text.substring_char(0, k);
    assert(prefix@ =~= text@.take(limit(count as int, text@.len() as int)));
    m.measure_text(prefix, font_size).x
}

/// A thin vertical bar.
pub open spec fn caret_rect<N: Num>(x: N, y: N, h: N) -> Rect<N> {
    Rect { x, y, w: N::ratio_of(3, 2), h }
}

/// A single-line field: scrolled horizontally, never wrapped.
pub open spec fn single_line_ops<N: Num, M: Metrics<N>>(
    m: M,
    style: Style<N>,
    content: Rect<N>,
    f: Field,
    scroll_x: N,
) -> Seq<Op<N>> {
    let fs = style.font_size;
    let text_rect = Rect {
        x: N::sub_of(content.x, scroll_x),
        w: N::add_of(N::max_of(m.extent(f.shown, fs).x, content.w), whole(1)),
        ..content
    };
    let at = |i: int| N::add_of(text_rect.x, prefix_width(m, f.shown, i, fs));
    (match f.selection() {
        Some((lo, hi)) => seq![
            Op::Fill(
                Rect { x: at(lo), y: content.y, w: N::sub_of(at(hi), at(lo)), h: content.h },
                faint(style.text_color),
                edges_all(whole(0)),
            ),
        ],
        None => Seq::empty(),
    }) + seq![Op::Text(f.shown, text_rect, text_style(style, style.text_align))] + (
    if f.focused && f.preview > 0 {
        let w = N::sub_of(
            prefix_width(m, f.shown, f.caret(), fs),
            N::sub_of(at(f.cursor), text_rect.x),
        );
        seq![
            Op::Fill(
                Rect {
                    x: at(f.cursor),
                    y: N::sub_of(N::add_of(content.y, content.h), whole(2)),
                    w: N::max_of(w, whole(1)),
                    h: N::ratio_of(3, 2),
                },
                style.text_color,
                edges_all(whole(0)),
            ),
        ]
    } else {
        Seq::empty()
    }) + (if f.focused {
        seq![
            Op::Fill(
                caret_rect(at(f.caret()), content.y, content.h),
                style.text_color,
                edges_all(whole(0)),
            ),
        ]
    } else {
        Seq::empty()
    })
}

fn paint_single_line<N: Num, M: Metrics<N>>(
    m: &M,
    style: &Style<N>,
    content: Rect<N>,
    shown: &str,
    cursor: usize,
    anchor: Option<usize>,
    preview: usize,
    focused: bool,
    scroll_x: N,
    out: &mut Canvas<N>,
)
    requires
        cursor + preview <= usize::MAX,
    ensures
        final(out).view() == old(out).view() + single_line_ops(
            *m,
            *style,
            content,
            (Field { shown: shown@, cursor: cursor as int, anchor, preview: preview as int, focused }),
            scroll_x,
        ),
{
    let ghost start = out.view();
    let ghost f = Field {
        shown: shown@,
        cursor: cursor as int,
        anchor,
        preview: preview as int,
        focused,
    };
    let fs: N = style.font_size;
    let none: Edges<N> = Edges::all(N::ratio(0, 1));
    let full: N = m.measure_text(shown, fs).x;
    let text_rect = Rect {
        x: content.x.minus(scroll_x),
        y: content.y,
        w: full.greater_of(content.w).plus(N::ratio(1, 1)),
        h: content.h,
    };
    let caret_char: usize = cursor + preview;
    if focused && preview == 0 {
        if let Some(a) = anchor {
            let (lo, hi) = ordered_range(cursor, a);
            if lo != hi {
                let x0: N = text_rect.x.plus(char_prefix_width(m, shown, lo, fs));
                let x1: N = text_rect.x.plus(char_prefix_width(m, shown, hi, fs));
                let highlight = Color {
                    r: style.text_color.r,
                    g: style.text_color.g,
                    b: style.text_color.b,
                    a: 60,
                };
                out.fill_rect(
                    Rect { x: x0, y: content.y, w: x1.minus(x0), h: content.h },
                    highlight,
                    none,
                );
            }
        }
    }
    out.draw_text(shown, text_rect, style_text(style, style.text_align));
    if !focused {
        assert(out.view() =~= start + single_line_ops(*m, *style, content, f, scroll_x));
        return ;
    }
    if preview > 0 {
        let x0: N = text_rect.x.plus(char_prefix_width(m, shown, cursor, fs));
        let w: N = char_prefix_width(m, shown, caret_char, fs).minus(x0.minus(text_rect.x));
        let y: N = content.y.plus(content.h).minus(N::ratio(2, 1));
        out.fill_rect(
            Rect { x: x0, y, w: w.greater_of(N::ratio(1, 1)), h: N::ratio(3, 2) },
            style.text_color,
            none,
        );
    }
    let caret_x: N = text_rect.x.plus(char_prefix_width(m, shown, caret_char, fs));
    out.fill_rect(
        Rect { x: caret_x, y: content.y, w: N::ratio(3, 2), h: content.h },
        style.text_color,
        none,
    );
    assert(out.view() =~= start + single_line_ops(*m, *style, content, f, scroll_x));
}

/// Where a hard line starts vertically.
pub open spec fn line_top<N: Num>(content: Rect<N>, line_h: N, scroll_y: N, line: int) -> N {
    N::sub_of(N::add_of(content.y, N::mul_of(N::count_of(line as nat), line_h)), scroll_y)
}

/// The width of the first `chars` characters of a hard line.
pub open spec fn line_width<N: Num, M: Metrics<N>>(
    m: M,
    text: Seq<char>,
    font_size: N,
    line: int,
    chars: int,
) -> N {
    let l = lines_of(text)[line];
    m.extent(l.take(limit(chars, l.len() as int)), font_size).x
}

/// The selection's highlight on the hard lines from `lo.0` on, `n` of them: one
/// box per line, from the selection's start on the first and up to its end on
/// the last.
pub open spec fn highlight_ops<N: Num, M: Metrics<N>>(
    m: M,
    style: Style<N>,
    content: Rect<N>,
    text: Seq<char>,
    lo: (int, int),
    hi: (int, int),
    scroll_y: N,
    n: nat,
) -> Seq<Op<N>>
    decreases n,
{
    if n == 0 {
        Seq::empty()
    } else {
        let fs = style.font_size;
        let line = lo.0 + n - 1;
        let x0 = if line == lo.0 {
            N::add_of(content.x, line_width(m, text, fs, line, lo.1))
        } else {
            content.x
        };
        let x1 = if line == hi.0 {
            N::add_of(content.x, line_width(m, text, fs, line, hi.1))
        } else {
            N::add_of(content.x, content.w)
        };
        let before = highlight_ops(m, style, content, text, lo, hi, scroll_y, (n - 1) as nat);
        if N::lt_of(x0, x1) {
            before.push(
                Op::Fill(
                    Rect {
                        x: x0,
                        y: line_top(content, line_of(fs), scroll_y, line),
                        w: N::sub_of(x1, x0),
                        h: line_of(fs),
                    },
                    faint(style.text_color),
                    edges_all(whole(0)),
                ),
            )
        } else {
            before
        }
    }
}

/// A wrapped field: scrolled vertically. Carets and highlights are placed by
/// hard lines.
pub open spec fn multi_line_ops<N: Num, M: Metrics<N>>(
    m: M,
    style: Style<N>,
    content: Rect<N>,
    f: Field,
    scroll_y: N,
) -> Seq<Op<N>> {
    let fs = style.font_size;
    let line_h = line_of(fs);
    let caret = line_col(f.shown, f.caret());
    let caret_x = N::add_of(content.x, line_width(m, f.shown, fs, caret.0, caret.1));
    let start = line_col(f.shown, f.cursor);
    let x0 = N::add_of(content.x, line_width(m, f.shown, fs, start.0, start.1));
    let caret_y = line_top(content, line_h, scroll_y, caret.0);
    (match f.selection() {
        Some((lo, hi)) => {
            let a = line_col(f.shown, lo);
            let b = line_col(f.shown, hi);
            highlight_ops(
                m,
                style,
                content,
                f.shown,
                a,
                b,
                scroll_y,
                if b.0 < a.0 {
                    0
                } else {
                    (b.0 - a.0 + 1) as nat
                },
            )
        },
        None => Seq::empty(),
    }) + seq![
        Op::Text(
            f.shown,
            Rect { y: N::sub_of(content.y, scroll_y), ..content },
            text_style(style, style.text_align),
        ),
    ] + (if f.focused && f.preview > 0 {
        seq![
            Op::Fill(
                Rect {
                    x: x0,
                    y: N::sub_of(N::add_of(caret_y, line_h), whole(2)),
                    w: N::max_of(N::sub_of(caret_x, x0), whole(1)),
                    h: N::ratio_of(3, 2),
                },
                style.text_color,
                edges_all(whole(0)),
            ),
        ]
    } else {
        Seq::empty()
    }) + (if f.focused {
        seq![
            Op::Fill(
                caret_rect(caret_x, caret_y, line_h),
                style.text_color,
                edges_all(whole(0)),
            ),
        ]
    } else {
        Seq::empty()
    })
}

fn width_on_line<N: Num, M: Metrics<N>>(
    m: &M,
    lines: &Vec<&str>,
    Ghost(text): Ghost<Seq<char>>,
    font_size: N,
    line: usize,
    chars: usize,
) -> (r: N)
    requires
        lines@.map_values(|p: &str| p@) == lines_of(text),
        line < lines@.len(),
    ensures
        r == line_width(*m, text, font_size, line as int, chars as int),
{
    let l: &str = lines[line];
    assert(lines_of(text)[line as int] == l@);
    let n: usize = char_len(l);
    let k: usize = if chars < n {
        chars
    } else {
        n
    };
    let prefix: &str = l.substring_char(0, k);
    assert(prefix@ =~= l@.take(limit(chars as int, l@.len() as int)));
    m.measure_text(prefix, font_size).x
}

fn top_of_line<N: Num>(content: Rect<N>, line_h: N, scroll_y: N, line: usize) -> (r: N)
    ensures
        r == line_top(content, line_h, scroll_y, line as int),
{
    content.y.plus(N::count(line).times(line_h)).minus(scroll_y)
}

fn paint_highlight<N: Num, M: Metrics<N>>(
    m: &M,
    style: &Style<N>,
    content: Rect<N>,
    shown: &str,
    lines: &Vec<&str>,
    lo: usize,
    hi: usize,
    scroll_y: N,
    out: &mut Canvas<N>,
)
    requires
        lines@.map_values(|p: &str| p@) == lines_of(shown@),
    ensures
        ({
            let a = line_col(shown@, lo as int);
            let b = line_col(shown@, hi as int);
            final(out).view() == old(out).view() + highlight_ops(
                *m,
                *style,
                content,
                shown@,
                a,
                b,
                scroll_y,
                if b.0 < a.0 {
                    0
                } else {
                    (b.0 - a.0 + 1) as nat
                },
            )
        }),
{
    let ghost start = out.view();
    let ghost a = line_col(shown@, lo as int);
    let ghost b = line_col(shown@, hi as int);
    let fs: N = style.font_size;
    let line_h: N = line_height(fs);
    let (lo_line, lo_col) = line_and_col(shown, lo);
    let (hi_line, hi_col) = line_and_col(shown, hi);
    proof {
        law_line_col_is_inside(shown@, lo as int);
        law_line_col_is_inside(shown@, hi as int);
        assert(lines@.len() == lines_of(shown@).len());
    }
    let highlight = Color {
        r: style.text_color.r,
        g: style.text_color.g,
        b: style.text_color.b,
        a: 60,
    };
    let total: usize = lines.len();
    let mut line: usize = lo_line;
    assert(start + highlight_ops(*m, *style, content, shown@, a, b, scroll_y, 0) =~= start);
    while line <= hi_line
        invariant
            lo_line <= line,
            line <= hi_line + 1 || line == lo_line,
            hi_line < total,
            total == lines@.len(),
            lines@.map_values(|p: &str| p@) == lines_of(shown@),
            a == (lo_line as int, lo_col as int),
            b == (hi_line as int, hi_col as int),
            fs == style.font_size,
            line_h == line_of(fs),
            highlight == faint(style.text_color),
            out.view() == start + highlight_ops(
                *m,
                *style,
                content,
                shown@,
                a,
                b,
                scroll_y,
                (line - lo_line) as nat,
            ),
        decreases hi_line + 1 - line,
    {
        let x0: N = if line == lo_line {
            content.x.plus(width_on_line(m, lines, Ghost(shown@), fs, line, lo_col))
        } else {
            content.x
        };
        let x1: N = if line == hi_line {
            content.x.plus(width_on_line(m, lines, Ghost(shown@), fs, line, hi_col))
        } else {
            content.x.plus(content.w)
        };
        if x0.less(x1) {
            out.fill_rect(
                Rect {
                    x: x0,
                    y: top_of_line(content, line_h, scroll_y, line),
                    w: x1.minus(x0),
                    h: line_h,
                },
                highlight,
                Edges::all(N::ratio(0, 1)),
            );
        }
        line = line + 1;
        assert(out.view() =~= start + highlight_ops(
            *m,
            *style,
            content,
            shown@,
            a,
            b,
            scroll_y,
            (line - lo_line) as nat,
        ));
    }
}

fn paint_multiline_text_input<N: Num, M: Metrics<N>>(
    m: &M,
    style: &Style<N>,
    content: Rect<N>,
    shown: &str,
    cursor: usize,
    anchor: Option<usize>,
    preview: usize,
    focused: bool,
    scroll_y: N,
    out: &mut Canvas<N>,
)
    requires
        cursor + preview <= usize::MAX,
    ensures
        final(out).view() == old(out).view() + multi_line_ops(
            *m,
            *style,
            content,
            (Field { shown: shown@, cursor: cursor as int, anchor, preview: preview as int, focused }),
            scroll_y,
        ),
{
    let ghost start = out.view();
    let ghost f = Field {
        shown: shown@,
        cursor: cursor as int,
        anchor,
        preview: preview as int,
        focused,
    };
    let fs: N = style.font_size;
    let line_h: N = line_height(fs);
    let none: Edges<N> = Edges::all(N::ratio(0, 1));
    let lines: Vec<&str> = hard_lines(shown);
    let caret_char: usize = cursor + preview;
    if focused && preview == 0 {
        if let Some(a) = anchor {
            let (lo, hi) = ordered_range(cursor, a);
            if lo != hi {
                paint_highlight(m, style, content, shown, &lines, lo, hi, scroll_y, out);
            }
        }
    }
    let text_rect = Rect {
        x: content.x,
        y: content.y.minus(scroll_y),
        w: content.w,
        h: content.h,
    };
    out.draw_text(shown, text_rect, style_text(style, style.text_align));
    if !focused {
        assert(out.view() =~= start + multi_line_ops(*m, *style, content, f, scroll_y));
        return ;
    }
    let (caret_line, caret_col) = line_and_col(shown, caret_char);
    proof {
        law_line_col_is_inside(shown@, caret_char as int);
        law_line_col_is_inside(shown@, cursor as int);
        assert(lines@.len() == lines_of(shown@).len());
    }
    let caret_x: N = content.x.plus(
        width_on_line(m, &lines, Ghost(shown@), fs, caret_line, caret_col),
    );
    let caret_y: N = top_of_line(content, line_h, scroll_y, caret_line);
    if preview > 0 {
        let (start_line, start_col) = line_and_col(shown, cursor);
        let x0: N = content.x.plus(
            width_on_line(m, &lines, Ghost(shown@), fs, start_line, start_col),
        );
        out.fill_rect(
            Rect {
                x: x0,
                y: caret_y.plus(line_h).minus(N::ratio(2, 1)),
                w: caret_x.minus(x0).greater_of(N::ratio(1, 1)),
                h: N::ratio(3, 2),
            },
            style.text_color,
            none,
        );
    }
    out.fill_rect(
        Rect { x: caret_x, y: caret_y, w: N::ratio(3, 2), h: line_h },
        style.text_color,
        none,
    );
    assert(out.view() =~= start + multi_line_ops(*m, *style, content, f, scroll_y));
}

/// A text field: the placeholder while there is nothing to show, else the text
/// with selection, caret and composition, clipped to the field.
pub open spec fn text_input_ops<N: Num, M: Metrics<N>>(
    m: M,
    style: Style<N>,
    content: Rect<N>,
    placeholder: Seq<char>,
    f: Field,
    scroll: Point<N>,
) -> Seq<Op<N>> {
    if f.shown.len() == 0 {
        seq![Op::Text(placeholder, content, text_style(style, style.text_align))]
    } else {
        seq![Op::PushClip(content)] + (if style.multiline {
            multi_line_ops(m, style, content, f, scroll.y)
        } else {
            single_line_ops(m, style, content, f, scroll.x)
        }) + seq![Op::PopClip]
    }
}

fn paint_text_input<N: Num, M: Metrics<N>>(
    m: &M,
    style: &Style<N>,
    content: Rect<N>,
    label: &str,
    placeholder: &str,
    masked: bool,
    cursor: usize,
    anchor: Option<usize>,
    ime_preview: &str,
    focused: bool,
    scroll: Point<N>,
    out: &mut Canvas<N>,
)
    requires
        cursor + ime_preview@.len() <= usize::MAX,
    ensures
        final(out).view() == old(out).view() + text_input_ops(
            *m,
            *style,
            content,
            placeholder@,
            (Field {
                shown: shown_text(label@, cursor as int, ime_preview@, masked),
                cursor: cursor as int,
                anchor,
                preview: ime_preview@.len() as int,
                focused,
            }),
            scroll,
        ),
{
    let ghost start = out.view();
    let shown: String = display_string(label, cursor, ime_preview, masked);
    let total: usize = char_len(shown.as_str());
    let preview: usize = char_len(ime_preview);
    let ghost f = Field {
        shown: shown@,
        cursor: cursor as int,
        anchor,
        preview: preview as int,
        focused,
    };
    if total == 0 {
        out.draw_text(placeholder, content, style_text(style, style.text_align));
        assert(out.view() =~= start + text_input_ops(
            *m,
            *style,
            content,
            placeholder@,
            f,
            scroll,
        ));
        return ;
    }
    out.push_clip(content);
    if style.multiline {
        paint_multiline_text_input(
            m,
            style,
            content,
            shown.as_str(),
            cursor,
            anchor,
            preview,
            focused,
            scroll.y,
            out,
        );
    } else {
        paint_single_line(
            m,
            style,
            content,
            shown.as_str(),
            cursor,
            anchor,
            preview,
            focused,
            scroll.x,
            out,
        );
    }
    out.pop_clip();
    assert(out.view() =~= start + text_input_ops(*m, *style, content, placeholder@, f, scroll));
}

// ---- scrollbars ----

pub open spec fn bar_width<N: Num>() -> N {
    whole(8)
}

/// The thumb's extent and start along a scrollbar.
pub open spec fn thumb_span<N: Num>(start: N, length: N, content: N, offset: N) -> (N, N) {
    let extent = clamp_of(N::mul_of(length, N::div_of(length, content)), whole(20), length);
    let most = N::max_of(N::sub_of(content, length), whole(1));
    (
        N::add_of(
            start,
            N::mul_of(
                N::div_of(clamp_of(offset, whole(0), most), most),
                N::sub_of(length, extent),
            ),
        ),
        extent,
    )
}

pub open spec fn thumb_color<N>(style: Style<N>) -> Color {
    color_or(style.border_color, Color { r: 0, g: 0, b: 0, a: 110 })
}

pub open spec fn track_color<N>(style: Style<N>) -> Color {
    match style.border_color {
        Some(c) => Color { a: 40, ..c },
        None => Color { r: 0, g: 0, b: 0, a: 18 },
    }
}

/// A vertical scrollbar, where the content overflows.
pub open spec fn vertical_bar_ops<N: Num>(
    rect: Rect<N>,
    style: Style<N>,
    content: Size<N>,
    offset: Point<N>,
) -> Seq<Op<N>> {
    if style.scroll_y && N::lt_of(N::add_of(rect.h, N::ratio_of(1, 2)), content.h) {
        let track = Rect {
            x: N::sub_of(N::add_of(rect.x, rect.w), bar_width()),
            y: rect.y,
            w: bar_width(),
            h: rect.h,
        };
        let (y, h) = thumb_span(rect.y, rect.h, content.h, offset.y);
        seq![
            Op::Fill(track, track_color(style), edges_all(whole(0))),
            Op::Fill(
                Rect { x: track.x, y, w: bar_width(), h },
                thumb_color(style),
                edges_all(half(bar_width())),
            ),
        ]
    } else {
        Seq::empty()
    }
}

/// A horizontal scrollbar, where the content overflows.
pub open spec fn horizontal_bar_ops<N: Num>(
    rect: Rect<N>,
    style: Style<N>,
    content: Size<N>,
    offset: Point<N>,
) -> Seq<Op<N>> {
    if style.scroll_x && N::lt_of(N::add_of(rect.w, N::ratio_of(1, 2)), content.w) {
        let track = Rect {
            x: rect.x,
            y: N::sub_of(N::add_of(rect.y, rect.h), bar_width()),
            w: rect.w,
            h: bar_width(),
        };
        let (x, w) = thumb_span(rect.x, rect.w, content.w, offset.x);
        seq![
            Op::Fill(track, track_color(style), edges_all(whole(0))),
            Op::Fill(
                Rect { x, y: track.y, w, h: bar_width() },
                thumb_color(style),
                edges_all(half(bar_width())),
            ),
        ]
    } else {
        Seq::empty()
    }
}

pub open spec fn scrollbar_ops<N: Num>(
    rect: Rect<N>,
    style: Style<N>,
    content: Size<N>,
    offset: Point<N>,
) -> Seq<Op<N>> {
    vertical_bar_ops(rect, style, content, offset) + horizontal_bar_ops(rect, style, content, offset)
}

fn thumb_of<N: Num>(start: N, length: N, content: N, offset: N) -> (r: (N, N))
    ensures
        r == thumb_span(start, length, content, offset),
{
    let extent: N = clamp(length.times(length.over(content)), N::ratio(20, 1), length);
    let most: N = content.minus(length).greater_of(N::ratio(1, 1));
    let at: N = clamp(offset, N::ratio(0, 1), most).over(most);
    (start.plus(at.times(length.minus(extent))), extent)
}

/// Draws a thumb and a faint track for each scroll axis where the content
/// overflows.
fn paint_scrollbars<N: Num>(
    rect: Rect<N>,
    style: &Style<N>,
    content: Size<N>,
    offset: Point<N>,
    out: &mut Canvas<N>,
)
    ensures
        final(out).view() == old(out).view() + scrollbar_ops(rect, *style, content, offset),
{
    let ghost start = out.view();
    let thumb: Color = or_color(style.border_color, Color { r: 0, g: 0, b: 0, a: 110 });
    let track: Color = match style.border_color {
        Some(c) => Color { r: c.r, g: c.g, b: c.b, a: 40 },
        None => Color { r: 0, g: 0, b: 0, a: 18 },
    };
    let width: N = N::ratio(8, 1);
    let none: Edges<N> = Edges::all(N::ratio(0, 1));
    if style.scroll_y && rect.h.plus(N::ratio(1, 2)).less(content.h) {
        let x: N = rect.x.plus(rect.w).minus(width);
        out.fill_rect(Rect { x, y: rect.y, w: width, h: rect.h }, track, none);
        let (y, h) = thumb_of(rect.y, rect.h, content.h, offset.y);
        out.fill_rect(Rect { x, y, w: width, h }, thumb, Edges::all(halved(width)));
    }
    assert(out.view() =~= start + vertical_bar_ops(rect, *style, content, offset));
    if style.scroll_x && rect.w.plus(N::ratio(1, 2)).less(content.w) {
        let y: N = rect.y.plus(rect.h).minus(width);
        out.fill_rect(Rect { x: rect.x, y, w: rect.w, h: width }, track, none);
        let (x, w) = thumb_of(rect.x, rect.w, content.w, offset.x);
        out.fill_rect(Rect { x, y, w, h: width }, thumb, Edges::all(halved(width)));
    }
    assert(out.view() =~= start + scrollbar_ops(rect, *style, content, offset));
}

// ---- a node's content ----

pub open spec fn content_rect<N: Num>(style: Style<N>, rect: Rect<N>) -> Rect<N> {
    inset_rect(inset_rect(rect, style.border_width), style.padding)
}

/// What node `id` shows itself, children apart.
pub open spec fn content_ops<N: Num, M: Metrics<N>>(
    node: Node<N>,
    id: NodeId,
    focused: bool,
    m: M,
) -> Seq<Op<N>> {
    let style = node.style;
    let content = content_rect(style, node.computed);
    let plain = text_style(style, style.text_align);
    match node.kind {
        NodeKind::Text { content: text } => seq![Op::Text(text@, content, plain)],
        NodeKind::Button { label } => seq![Op::Text(label@, content, plain)],
        NodeKind::TextInput {
            label,
            placeholder,
            masked,
            cursor,
            selection_anchor,
            ime_preview,
        } => text_input_ops(
            m,
            style,
            content,
            placeholder@,
            Field {
                shown: shown_text(label@, cursor as int, ime_preview@, masked),
                cursor: cursor as int,
                anchor: selection_anchor,
                preview: ime_preview@.len() as int,
                focused,
            },
            node.scroll_offset,
        ),
        NodeKind::Checkbox { label, checked } => checkbox_ops(style, content, label@, checked),
        NodeKind::Slider { value } => slider_ops(
            style,
            content,
            value,
            m.slider(style.font_size).0,
            m.slider(style.font_size).1,
        ),
        NodeKind::ProgressBar { value } => track_ops(
            style,
            content,
            value,
            m.slider(style.font_size).0,
            color_or(style.border_color, gray(229, 231, 235)),
        ),
        NodeKind::Dropdown { placeholder, options, selected, .. } => dropdown_ops(
            style,
            content,
            dropdown_label(placeholder@, options@, selected),
        ),
        NodeKind::Menu { label, .. } => seq![Op::Text(label@, content, plain)],
        NodeKind::MenuItem { label } => seq![Op::Text(label@, content, plain)],
        NodeKind::Date { value, placeholder, .. } => picker_box_ops(
            style,
            content,
            picker_label(value@, placeholder@),
        ),
        NodeKind::Time { value, placeholder, .. } => picker_box_ops(
            style,
            content,
            picker_label(value@, placeholder@),
        ),
        NodeKind::DateTime { value, placeholder, .. } => picker_box_ops(
            style,
            content,
            picker_label(value@, placeholder@),
        ),
        NodeKind::Image { decoded, current_frame, .. } => if decoded is Some {
            seq![Op::Image(id, current_frame, content)]
        } else {
            Seq::empty()
        },
        NodeKind::Icon { decoded, .. } => if decoded is Some {
            seq![Op::Image(id, 0, content)]
        } else {
            Seq::empty()
        },
        NodeKind::Container
        | NodeKind::DataGrid
        | NodeKind::TreeView { .. }
        | NodeKind::TreeViewItem { .. } => Seq::empty(),
    }
}

/// The caret of a text field can be counted past the text that is being composed
/// at it.
pub open spec fn caret_countable<N>(node: Node<N>) -> bool {
    match node.kind {
        NodeKind::TextInput { cursor, ime_preview, .. } => cursor + ime_preview@.len()
            <= usize::MAX,
        _ => true,
    }
}

fn paint_content<N: Num, M: Metrics<N>>(
    node: &Node<N>,
    id: NodeId,
    focused: bool,
    m: &M,
    out: &mut Canvas<N>,
)
    requires
        caret_countable(*node),
    ensures
        final(out).view() == old(out).view() + content_ops(*node, id, focused, *m),
{
    let ghost start = out.view();
    let style: &Style<N> = &node.style;
    let content: Rect<N> = node.computed.inset(style.border_width).inset(style.padding);
    let plain: TextStyle<N> = style_text(style, style.text_align);
    match &node.kind {
        NodeKind::Text { content: text } => {
            out.draw_text(text.as_str(), content, plain);
        },
        NodeKind::Button { label } => {
            out.draw_text(label.as_str(), content, plain);
        },
        NodeKind::TextInput {
            label,
            placeholder,
            masked,
            cursor,
            selection_anchor,
            ime_preview,
        } => {
            paint_text_input(
                m,
                style,
                content,
                label.as_str(),
                placeholder.as_str(),
                *masked,
                *cursor,
                *selection_anchor,
                ime_preview.as_str(),
                focused,
                node.scroll_offset,
                out,
            );
        },
        NodeKind::Checkbox { label, checked } => {
            paint_checkbox(style, content, label.as_str(), *checked, out);
        },
        NodeKind::Slider { value } => {
            let (track_h, thumb_d) = m.slider_metrics(style.font_size);
            paint_slider(style, content, *value, track_h, thumb_d, out);
        },
        NodeKind::ProgressBar { value } => {
            let (track_h, _) = m.slider_metrics(style.font_size);
            let color: Color = or_color(style.border_color, Color::rgb(229, 231, 235));
            let _ = paint_track(style, content, *value, track_h, color, out);
        },
        NodeKind::Dropdown { placeholder, options, selected, .. } => {
            paint_dropdown(style, content, shown_option(placeholder, options, *selected), out);
        },
        NodeKind::Menu { label, .. } => {
            out.draw_text(label.as_str(), content, plain);
        },
        NodeKind::MenuItem { label } => {
            out.draw_text(label.as_str(), content, plain);
        },
        NodeKind::Date { value, placeholder, .. } => {
            paint_picker_box(style, content, shown_value(value, placeholder), out);
        },
        NodeKind::Time { value, placeholder, .. } => {
            paint_picker_box(style, content, shown_value(value, placeholder), out);
        },
        NodeKind::DateTime { value, placeholder, .. } => {
            paint_picker_box(style, content, shown_value(value, placeholder), out);
        },
        NodeKind::Image { decoded, current_frame, .. } => {
            if decoded.is_some() {
                out.draw_image(id, *current_frame, content);
            }
        },
        NodeKind::Icon { decoded, .. } => {
            if decoded.is_some() {
                out.draw_image(id, 0, content);
            }
        },
        NodeKind::Container
        | NodeKind::DataGrid
        | NodeKind::TreeView { .. }
        | NodeKind::TreeViewItem { .. } => {},
    }
    assert(out.view() =~= start + content_ops(*node, id, focused, *m));
}

// ---- paint order ----

/// What siblings are painted by: their z-index.
pub open spec fn z_ranks<N>(nodes: Seq<Node<N>>, kids: Seq<NodeId>) -> Seq<Seq<int>> {
    Seq::new(kids.len(), |k: int| seq![nodes[kids[k].0 as int].style.z_index as int])
}

/// Siblings in paint order: by z-index, ties in source order.
pub open spec fn z_sorted<N>(nodes: Seq<Node<N>>, kids: Seq<NodeId>) -> Seq<NodeId> {
    let ord = order_of(z_ranks(nodes, kids), kids.len());
    Seq::new(kids.len(), |k: int| kids[ord[k]])
}

/// Sorting keeps what ranks below a bound below it.
pub proof fn lemma_z_sorted_below<N>(
    nodes: Seq<Node<N>>,
    rank: spec_fn(int) -> nat,
    kids: Seq<NodeId>,
    bound: nat,
)
    requires
        all_below(nodes, rank, kids, bound),
    ensures
        all_below(nodes, rank, z_sorted(nodes, kids), bound),
{
    crate::order::law_order_of_is_stable(z_ranks(nodes, kids), kids.len());
    let ord = order_of(z_ranks(nodes, kids), kids.len());
    assert forall|k: int| 0 <= k < kids.len() implies (#[trigger] z_sorted(nodes, kids)[k]).0
        < nodes.len() && rank(z_sorted(nodes, kids)[k].0 as int) < bound by {
        assert(0 <= ord[k] < kids.len());
        assert(z_sorted(nodes, kids)[k] == kids[ord[k]]);
    }
}

fn sort_by_z<N: Num>(nodes: &Vec<Node<N>>, kids: &Vec<NodeId>) -> (r: Vec<NodeId>)
    requires
        forall|k: int| 0 <= k < kids@.len() ==> (#[trigger] kids@[k]).0 < nodes@.len(),
    ensures
        r@ == z_sorted(nodes@, kids@),
{
    let mut keys: Vec<i64> = Vec::new();
    let mut k: usize = 0;
    while k < kids.len()
        invariant
            0 <= k <= kids@.len(),
            keys@.len() == k,
            forall|k: int| 0 <= k < kids@.len() ==> (#[trigger] kids@[k]).0 < nodes@.len(),
            forall|j: int|
                0 <= j < k ==> #[trigger] keys@[j]
                    == nodes@[kids@[j].0 as int].style.z_index as i64,
        decreases kids@.len() - k,
    {
        keys.push(nodes[kids[k].0 as usize].style.z_index as i64);
        k = k + 1;
    }
    proof {
        assert forall|j: int| 0 <= j < keys@.len() implies #[trigger] ranks(keys@)[j] == z_ranks(
            nodes@,
            kids@,
        )[j] by {
            assert(keys@[j] == nodes@[kids@[j].0 as int].style.z_index as i64);
            assert(ranks(keys@)[j] =~= z_ranks(nodes@, kids@)[j]);
        }
        assert(ranks(keys@) =~= z_ranks(nodes@, kids@));
    }
    let ord: Vec<usize> = stable_order(&keys);
    let ghost want = z_sorted(nodes@, kids@);
    let mut out: Vec<NodeId> = Vec::new();
    let mut i: usize = 0;
    while i < ord.len()
        invariant
            0 <= i <= ord@.len(),
            ord@.len() == kids@.len(),
            want == z_sorted(nodes@, kids@),
            ord@.map_values(|x: usize| x as int) == order_of(z_ranks(nodes@, kids@), kids@.len()),
            forall|j: int| 0 <= j < ord@.len() ==> (#[trigger] ord@[j]) < kids@.len(),
            out@ == want.take(i as int),
        decreases ord@.len() - i,
    {
        let at: usize = ord[i];
        assert(ord@.map_values(|x: usize| x as int)[i as int] == at as int);
        assert(want[i as int] == kids@[at as int]);
        out.push(kids[at]);
        i = i + 1;
        assert(out@ =~= want.take(i as int));
    }
    assert(want.take(i as int) =~= want);
    out
}

// ---- the tree ----

/// Whether a node's children are painted with it: a menu's are painted with its
/// popup.
pub open spec fn paints_children<N>(node: Node<N>) -> bool {
    node.children@.len() > 0 && !(node.kind is Menu)
}

/// What is drawn for node `id` itself, below its children.
pub open spec fn own_ops<N: Num, M: Metrics<N>>(ui: Ui<N>, id: NodeId, m: M) -> Seq<Op<N>> {
    let node = ui.nodes@[id.0 as int];
    opening_ops(node.style, node.computed) + box_ops(node.style, node.computed) + content_ops(
        node,
        id,
        ui.focus == Some(id),
        m,
    )
}

/// What is drawn for a node itself, above its children.
pub open spec fn tail_ops<N: Num>(node: Node<N>) -> Seq<Op<N>> {
    (if node.style.scroll_x || node.style.scroll_y {
        scrollbar_ops(node.computed, node.style, node.content_size, node.scroll_offset)
    } else {
        Seq::empty()
    }) + closing_ops(node.style)
}

/// What is drawn for node `id` and everything in it: the node itself, then its
/// children, then its scrollbars.
pub open spec fn node_ops<N: Num, M: Metrics<N>>(
    ui: Ui<N>,
    rank: spec_fn(int) -> nat,
    id: NodeId,
    m: M,
) -> Seq<Op<N>>
    decreases rank(id.0 as int), 2nat, 0nat,
{
    own_ops(ui, id, m) + children_ops(ui, rank, id, m) + tail_ops(ui.nodes@[id.0 as int])
}

/// What is drawn for the children of node `id`: those that are in flow, clipped
/// to it, then those that are not, outside its clip.
pub open spec fn children_ops<N: Num, M: Metrics<N>>(
    ui: Ui<N>,
    rank: spec_fn(int) -> nat,
    id: NodeId,
    m: M,
) -> Seq<Op<N>>
    decreases rank(id.0 as int), 1nat, 0nat,
{
    let node = ui.nodes@[id.0 as int];
    let bound = rank(id.0 as int);
    let inside = z_sorted(ui.nodes@, all_kids(ui.nodes@, id, false));
    let outside = z_sorted(ui.nodes@, all_kids(ui.nodes@, id, true));
    if paints_children(node) {
        seq![Op::PushClip(node.computed)] + list_ops(ui, rank, bound, inside, inside.len(), m)
            + seq![Op::PopClip] + list_ops(ui, rank, bound, outside, outside.len(), m)
    } else {
        Seq::empty()
    }
}

/// What is drawn for the first `n` of `kids`, which rank below `bound`.
pub open spec fn list_ops<N: Num, M: Metrics<N>>(
    ui: Ui<N>,
    rank: spec_fn(int) -> nat,
    bound: nat,
    kids: Seq<NodeId>,
    n: nat,
    m: M,
) -> Seq<Op<N>>
    decreases bound, 0nat, n,
{
    if n == 0 {
        Seq::empty()
    } else {
        list_ops(ui, rank, bound, kids, (n - 1) as nat, m) + (if rank(kids[n - 1].0 as int) < bound {
            node_ops(ui, rank, kids[n - 1], m)
        } else {
            Seq::empty()
        })
    }
}

/// Whether a node's popup is showing.
pub open spec fn has_popup<N>(node: Node<N>) -> bool {
    match node.kind {
        NodeKind::Dropdown { open, .. } => open,
        NodeKind::Menu { open, .. } => open && node.children@.len() > 0,
        NodeKind::Date { open, .. } => open,
        NodeKind::Time { open, .. } => open,
        NodeKind::DateTime { open, .. } => open,
        _ => false,
    }
}

/// The nodes in the subtree of `id` whose popups show, in paint order.
pub open spec fn node_popups<N>(
    nodes: Seq<Node<N>>,
    rank: spec_fn(int) -> nat,
    id: NodeId,
) -> Seq<NodeId>
    decreases rank(id.0 as int), 2nat, 0nat,
{
    own_popup(nodes, id) + child_popups(nodes, rank, id)
}

/// Node `id`, if its popup shows.
pub open spec fn own_popup<N>(nodes: Seq<Node<N>>, id: NodeId) -> Seq<NodeId> {
    if has_popup(nodes[id.0 as int]) {
        seq![id]
    } else {
        Seq::empty()
    }
}

/// The same below node `id`.
pub open spec fn child_popups<N>(
    nodes: Seq<Node<N>>,
    rank: spec_fn(int) -> nat,
    id: NodeId,
) -> Seq<NodeId>
    decreases rank(id.0 as int), 1nat, 0nat,
{
    let bound = rank(id.0 as int);
    let inside = z_sorted(nodes, all_kids(nodes, id, false));
    let outside = z_sorted(nodes, all_kids(nodes, id, true));
    if paints_children(nodes[id.0 as int]) {
        list_popups(nodes, rank, bound, inside, inside.len()) + list_popups(
            nodes,
            rank,
            bound,
            outside,
            outside.len(),
        )
    } else {
        Seq::empty()
    }
}

pub open spec fn list_popups<N>(
    nodes: Seq<Node<N>>,
    rank: spec_fn(int) -> nat,
    bound: nat,
    kids: Seq<NodeId>,
    n: nat,
) -> Seq<NodeId>
    decreases bound, 0nat, n,
{
    if n == 0 {
        Seq::empty()
    } else {
        list_popups(nodes, rank, bound, kids, (n - 1) as nat) + (if rank(kids[n - 1].0 as int)
            < bound {
            node_popups(nodes, rank, kids[n - 1])
        } else {
            Seq::empty()
        })
    }
}

/// Every node whose popup shows is in the subtree it was met in.
proof fn lemma_popups_below<N>(nodes: Seq<Node<N>>, rank: spec_fn(int) -> nat, id: NodeId)
    requires
        ranked(nodes, rank),
        id.0 < nodes.len(),
    ensures
        forall|k: int|
            0 <= k < node_popups(nodes, rank, id).len() ==> (#[trigger] node_popups(
                nodes,
                rank,
                id,
            )[k]).0 < nodes.len() && rank(node_popups(nodes, rank, id)[k].0 as int) <= rank(
                id.0 as int,
            ),
    decreases rank(id.0 as int), 1nat, 0nat,
{
    let bound = rank(id.0 as int);
    let n = nodes[id.0 as int].children@.len();
    let inside = z_sorted(nodes, all_kids(nodes, id, false));
    let outside = z_sorted(nodes, all_kids(nodes, id, true));
    lemma_kids_below(nodes, rank, id, false, n);
    lemma_kids_below(nodes, rank, id, true, n);
    lemma_z_sorted_below(nodes, rank, all_kids(nodes, id, false), bound);
    lemma_z_sorted_below(nodes, rank, all_kids(nodes, id, true), bound);
    lemma_list_popups_below(nodes, rank, bound, inside, inside.len());
    lemma_list_popups_below(nodes, rank, bound, outside, outside.len());
}

pub proof fn lemma_list_popups_below<N>(
    nodes: Seq<Node<N>>,
    rank: spec_fn(int) -> nat,
    bound: nat,
    kids: Seq<NodeId>,
    n: nat,
)
    requires
        ranked(nodes, rank),
        all_below(nodes, rank, kids, bound),
        n <= kids.len(),
    ensures
        all_below(nodes, rank, list_popups(nodes, rank, bound, kids, n), bound),
    decreases bound, 0nat, n,
{
    if n > 0 {
        lemma_list_popups_below(nodes, rank, bound, kids, (n - 1) as nat);
        lemma_popups_below(nodes, rank, kids[n - 1]);
        let a = list_popups(nodes, rank, bound, kids, (n - 1) as nat);
        let b = node_popups(nodes, rank, kids[n - 1]);
        let all = list_popups(nodes, rank, bound, kids, n);
        assert forall|k: int| 0 <= k < all.len() implies (#[trigger] all[k]).0 < nodes.len()
            && rank(all[k].0 as int) < bound by {
            if k < a.len() {
                assert(all[k] == a[k]);
            } else {
                assert(all[k] == b[k - a.len()]);
            }
        }
    }
}

/// The calendar of an open picker has a month to name.
pub open spec fn month_named<N>(node: Node<N>) -> bool {
    match node.kind {
        NodeKind::Date { open, picker, .. } => open ==> 1 <= picker.staged_month <= 12,
        NodeKind::DateTime { open, date_picker, active_tab, .. } => open && active_tab
            == DateTimeTab::Calendar ==> 1 <= date_picker.staged_month <= 12,
        _ => true,
    }
}

/// The caret of every text field can be counted past its composed text, and every
/// calendar that shows has a month to name.
pub open spec fn drawable<N>(nodes: Seq<Node<N>>) -> bool {
    forall|i: int|
        0 <= i < nodes.len() ==> caret_countable(#[trigger] nodes[i]) && month_named(nodes[i])
}

/// Whether the caret of every text field can be counted past its composed text, and
/// every calendar that shows has a month to name.
pub fn is_drawable<N: Num>(ui: &Ui<N>) -> (r: bool)
    ensures
        r == drawable(ui.nodes@),
{
    let mut i: usize = 0;
    while i < ui.nodes.len()
        invariant
            0 <= i <= ui.nodes@.len(),
            forall|k: int|
                0 <= k < i ==> caret_countable(#[trigger] ui.nodes@[k]) && month_named(
                    ui.nodes@[k],
                ),
        decreases ui.nodes@.len() - i,
    {
        let ok: bool = match &ui.nodes[i].kind {
            NodeKind::TextInput { cursor, ime_preview, .. } => char_len(ime_preview.as_str())
                <= usize::MAX - *cursor,
            NodeKind::Date { open, picker, .. } => !*open || (1 <= picker.staged_month
                && picker.staged_month <= 12),
            NodeKind::DateTime { open, date_picker, active_tab, .. } => !*open || *active_tab
                == DateTimeTab::Clock || (1 <= date_picker.staged_month
                && date_picker.staged_month <= 12),
            _ => true,
        };
        if !ok {
            assert(!(caret_countable(ui.nodes@[i as int]) && month_named(ui.nodes@[i as int])));
            return false;
        }
        i = i + 1;
    }
    true
}

/// Draws node `id` with everything in it, and notes the popups met on the way.
fn paint_node<N: Num, M: Metrics<N>>(
    ui: &Ui<N>,
    id: NodeId,
    m: &M,
    out: &mut Canvas<N>,
    popups: &mut Vec<NodeId>,
)
    requires
        ui.wf(),
        drawable(ui.nodes@),
        id.0 < ui.nodes@.len(),
    ensures
        final(out).view() == old(out).view() + node_ops(*ui, rank_of(ui.nodes@), id, *m),
        final(popups)@ == old(popups)@ + node_popups(ui.nodes@, rank_of(ui.nodes@), id),
    decreases rank_of(ui.nodes@)(id.0 as int), 2nat,
{
    let ghost rank = rank_of(ui.nodes@);
    let ghost start = out.view();
    let ghost pstart = popups@;
    paint_own(ui, id, m, out, popups);
    paint_children(ui, id, m, out, popups);
    paint_tail(ui.get(id), out);
    proof {
        let a = own_ops(*ui, id, *m);
        let b = children_ops(*ui, rank, id, *m);
        let c = tail_ops(ui.nodes@[id.0 as int]);
        lemma_concat3(start, a, b, c);
        assert(pstart + own_popup(ui.nodes@, id) + child_popups(ui.nodes@, rank, id) =~= pstart + (
        own_popup(ui.nodes@, id) + child_popups(ui.nodes@, rank, id)));
    }
}

proof fn lemma_concat3<T>(s: Seq<T>, a: Seq<T>, b: Seq<T>, c: Seq<T>)
    ensures
        s + a + b + c == s + (a + b + c),
{
    assert(s + a + b + c =~= s + (a + b + c));
}

/// Draws node `id` itself, and notes its popup.
fn paint_own<N: Num, M: Metrics<N>>(
    ui: &Ui<N>,
    id: NodeId,
    m: &M,
    out: &mut Canvas<N>,
    popups: &mut Vec<NodeId>,
)
    requires
        drawable(ui.nodes@),
        id.0 < ui.nodes@.len(),
    ensures
        final(out).view() == old(out).view() + own_ops(*ui, id, *m),
        final(popups)@ == old(popups)@ + own_popup(ui.nodes@, id),
{
    let ghost start = out.view();
    let ghost pstart = popups@;
    let node: &Node<N> = ui.get(id);
    open_node(&node.style, node.computed, out);
    let focused: bool = match ui.focus {
        Some(f) => f == id,
        None => false,
    };
    assert(focused == (ui.focus == Some(id)));
    paint_content(node, id, focused, m, out);
    proof {
        lemma_concat3(
            start,
            opening_ops(node.style, node.computed),
            box_ops(node.style, node.computed),
            content_ops(*node, id, focused, *m),
        );
    }
    let shows: bool = match &node.kind {
        NodeKind::Dropdown { open, .. } => *open,
        NodeKind::Menu { open, .. } => *open && node.children.len() > 0,
        NodeKind::Date { open, .. } => *open,
        NodeKind::Time { open, .. } => *open,
        NodeKind::DateTime { open, .. } => *open,
        _ => false,
    };
    if shows {
        popups.push(id);
    }
    assert(popups@ =~= pstart + own_popup(ui.nodes@, id));
}

/// Draws what a node shows above its children.
fn paint_tail<N: Num>(node: &Node<N>, out: &mut Canvas<N>)
    ensures
        final(out).view() == old(out).view() + tail_ops(*node),
{
    let ghost start = out.view();
    let style: &Style<N> = &node.style;
    if style.scroll_x || style.scroll_y {
        paint_scrollbars(node.computed, style, node.content_size, node.scroll_offset, out);
    }
    close_node(style, out);
    assert(out.view() =~= start + tail_ops(*node));
}

/// Draws the children of node `id`, where they are painted with it.
fn paint_children<N: Num, M: Metrics<N>>(
    ui: &Ui<N>,
    id: NodeId,
    m: &M,
    out: &mut Canvas<N>,
    popups: &mut Vec<NodeId>,
)
    requires
        ui.wf(),
        drawable(ui.nodes@),
        id.0 < ui.nodes@.len(),
    ensures
        final(out).view() == old(out).view() + children_ops(*ui, rank_of(ui.nodes@), id, *m),
        final(popups)@ == old(popups)@ + child_popups(ui.nodes@, rank_of(ui.nodes@), id),
    decreases rank_of(ui.nodes@)(id.0 as int), 1nat,
{
    let ghost rank = rank_of(ui.nodes@);
    let ghost bound = rank(id.0 as int);
    let ghost start = out.view();
    let ghost pstart = popups@;
    let node: &Node<N> = ui.get(id);
    let is_menu: bool = match &node.kind {
        NodeKind::Menu { .. } => true,
        _ => false,
    };
    if node.children.len() == 0 || is_menu {
        assert(out.view() =~= start + children_ops(*ui, rank, id, *m));
        assert(popups@ =~= pstart + child_popups(ui.nodes@, rank, id));
        return ;
    }
    proof {
        assert(ranked(ui.nodes@, rank));
        lemma_kids_below(ui.nodes@, rank, id, false, node.children@.len());
        lemma_kids_below(ui.nodes@, rank, id, true, node.children@.len());
        lemma_z_sorted_below(ui.nodes@, rank, all_kids(ui.nodes@, id, false), bound);
        lemma_z_sorted_below(ui.nodes@, rank, all_kids(ui.nodes@, id, true), bound);
    }
    let in_flow: Vec<NodeId> = split_kids(&ui.nodes, id, false);
    let absolute: Vec<NodeId> = split_kids(&ui.nodes, id, true);
    let inside: Vec<NodeId> = sort_by_z(&ui.nodes, &in_flow);
    let outside: Vec<NodeId> = sort_by_z(&ui.nodes, &absolute);
    out.push_clip(node.computed);
    paint_list(ui, id, &inside, m, out, popups);
    out.pop_clip();
    paint_list(ui, id, &outside, m, out, popups);
    assert(popups@ =~= pstart + child_popups(ui.nodes@, rank, id));
    assert(out.view() =~= start + children_ops(*ui, rank, id, *m));
}

/// Draws `kids`, which are below node `parent`, in order.
fn paint_list<N: Num, M: Metrics<N>>(
    ui: &Ui<N>,
    parent: NodeId,
    kids: &Vec<NodeId>,
    m: &M,
    out: &mut Canvas<N>,
    popups: &mut Vec<NodeId>,
)
    requires
        ui.wf(),
        drawable(ui.nodes@),
        all_below(ui.nodes@, rank_of(ui.nodes@), kids@, rank_of(ui.nodes@)(parent.0 as int)),
    ensures
        final(out).view() == old(out).view() + list_ops(
            *ui,
            rank_of(ui.nodes@),
            rank_of(ui.nodes@)(parent.0 as int),
            kids@,
            kids@.len(),
            *m,
        ),
        final(popups)@ == old(popups)@ + list_popups(
            ui.nodes@,
            rank_of(ui.nodes@),
            rank_of(ui.nodes@)(parent.0 as int),
            kids@,
            kids@.len(),
        ),
    decreases rank_of(ui.nodes@)(parent.0 as int), 0nat,
{
    let ghost rank = rank_of(ui.nodes@);
    let ghost bound = rank(parent.0 as int);
    let ghost start = out.view();
    let ghost pstart = popups@;
    let mut k: usize = 0;
    assert(start + list_ops(*ui, rank, bound, kids@, 0, *m) =~= start);
    assert(pstart + list_popups(ui.nodes@, rank, bound, kids@, 0) =~= pstart);
    while k < kids.len()
        invariant
            0 <= k <= kids@.len(),
            ui.wf(),
            drawable(ui.nodes@),
            rank == rank_of(ui.nodes@),
            bound == rank(parent.0 as int),
            all_below(ui.nodes@, rank, kids@, bound),
            out.view() == start + list_ops(*ui, rank, bound, kids@, k as nat, *m),
            popups@ == pstart + list_popups(ui.nodes@, rank, bound, kids@, k as nat),
        decreases kids@.len() - k,
    {
        paint_node(ui, kids[k], m, out, popups);
        k = k + 1;
        assert(out.view() =~= start + list_ops(*ui, rank, bound, kids@, k as nat, *m));
        assert(popups@ =~= pstart + list_popups(ui.nodes@, rank, bound, kids@, k as nat));
    }
}

// ---- popups ----

/// The `n` first option rows of an open dropdown.
pub open spec fn option_ops<N: Num>(
    style: Style<N>,
    popup: Rect<N>,
    option_h: N,
    options: Seq<String>,
    selected: Option<usize>,
    n: nat,
) -> Seq<Op<N>>
    decreases n,
{
    if n == 0 {
        Seq::empty()
    } else {
        let rect = Rect {
            x: popup.x,
            y: option_top(popup.y, option_h, (n - 1) as nat),
            w: popup.w,
            h: option_h,
        };
        option_ops(style, popup, option_h, options, selected, (n - 1) as nat) + (
        if selected is Some && selected->0 == n - 1 {
            seq![Op::Fill(rect, gray(243, 244, 246), edges_all(whole(0)))]
        } else {
            Seq::empty()
        }) + seq![
            Op::Text(
                options[n - 1]@,
                inset_rect(rect, edges_all(whole(8))),
                text_style(style, TextAlign::Left),
            ),
        ]
    }
}

/// Where option row `k` starts.
pub open spec fn option_top<N: Num>(top: N, option_h: N, k: nat) -> N
    decreases k,
{
    if k == 0 {
        top
    } else {
        N::add_of(option_top(top, option_h, (k - 1) as nat), option_h)
    }
}

/// An open dropdown's options, right below its box.
pub open spec fn dropdown_popup_ops<N: Num>(
    node: Node<N>,
    options: Seq<String>,
    selected: Option<usize>,
) -> Seq<Op<N>> {
    let style = node.style;
    let option_h = dropdown_sizes(style.font_size).1;
    let popup = Rect {
        x: node.computed.x,
        y: N::add_of(node.computed.y, node.computed.h),
        w: node.computed.w,
        h: N::mul_of(option_h, N::count_of(options.len())),
    };
    seq![
        Op::Fill(popup, color_or(style.bg, gray(255, 255, 255)), style.radius),
        Op::Stroke(
            popup,
            color_or(style.border_color, gray(209, 213, 219)),
            whole(1),
            style.radius,
        ),
    ] + option_ops(style, popup, option_h, options, selected, options.len())
}

fn paint_dropdown_popup<N: Num>(
    node: &Node<N>,
    options: &Vec<String>,
    selected: Option<usize>,
    out: &mut Canvas<N>,
)
    ensures
        final(out).view() == old(out).view() + dropdown_popup_ops(*node, options@, selected),
{
    let ghost start = out.view();
    let style: &Style<N> = &node.style;
    let (_, option_h) = dropdown_metrics(style.font_size);
    let popup = Rect {
        x: node.computed.x,
        y: node.computed.y.plus(node.computed.h),
        w: node.computed.w,
        h: option_h.times(N::count(options.len())),
    };
    out.fill_rect(popup, or_color(style.bg, Color::rgb(255, 255, 255)), style.radius);
    out.stroke_rect(
        popup,
        or_color(style.border_color, Color::rgb(209, 213, 219)),
        N::ratio(1, 1),
        style.radius,
    );
    let plain: TextStyle<N> = style_text(style, TextAlign::Left);
    let ghost head = out.view();
    let mut y: N = popup.y;
    let mut k: usize = 0;
    assert(head + option_ops(*style, popup, option_h, options@, selected, 0) =~= head);
    while k < options.len()
        invariant
            0 <= k <= options@.len(),
            plain == text_style(*style, TextAlign::Left),
            y == option_top(popup.y, option_h, k as nat),
            out.view() == head + option_ops(*style, popup, option_h, options@, selected, k as nat),
        decreases options@.len() - k,
    {
        let rect = Rect { x: popup.x, y, w: popup.w, h: option_h };
        let is_selected: bool = match selected {
            Some(i) => i == k,
            None => false,
        };
        if is_selected {
            out.fill_rect(rect, Color::rgb(243, 244, 246), Edges::all(N::ratio(0, 1)));
        }
        out.draw_text(options[k].as_str(), rect.inset(Edges::all(N::ratio(8, 1))), plain);
        y = y.plus(option_h);
        k = k + 1;
        assert(out.view() =~= head + option_ops(
            *style,
            popup,
            option_h,
            options@,
            selected,
            k as nat,
        ));
    }
    assert(out.view() =~= start + dropdown_popup_ops(*node, options@, selected));
}

/// The panel of an open menu.
pub open spec fn menu_panel_ops<N: Num>(node: Node<N>) -> Seq<Op<N>> {
    let style = node.style;
    let popup = Rect {
        x: node.computed.x,
        y: N::add_of(node.computed.y, node.computed.h),
        w: node.content_size.w,
        h: node.content_size.h,
    };
    (match style.bg {
        Some(bg) => seq![Op::Fill(popup, bg, style.radius)],
        None => Seq::empty(),
    }) + (match style.border_color {
        Some(c) => seq![Op::Stroke(popup, c, whole(1), style.radius)],
        None => Seq::empty(),
    })
}

/// What a picker's popup hangs from.
pub open spec fn anchor_of<N>(ui: Ui<N>, node: Node<N>) -> Anchor<N> {
    Anchor {
        box_rect: node.computed,
        viewport: ui.viewport,
        font_size: node.style.font_size,
    }
}

/// What is drawn for the popup of a picker while it is open: the calendar, the
/// clock, or the tabs with one of them, where `m` has their parts.
pub open spec fn picker_ops<N: Num, M: Metrics<N>>(ui: Ui<N>, node: Node<N>, m: M) -> Seq<Op<N>> {
    let at = anchor_of(ui, node);
    let p = Pointer { at: ui.cursor, down: ui.mouse_down };
    let with_seconds = node.style.with_seconds;
    match node.kind {
        NodeKind::Date { open: true, picker, .. } => date_popup_ops(
            node,
            m.calendar_at(at, shown_by(picker)),
            p,
        ),
        NodeKind::Time { open: true, picker, .. } => time_popup_ops(
            node,
            m.clock_at(at, with_seconds, picker),
            p,
        ),
        NodeKind::DateTime { open: true, date_picker, time_picker, active_tab, .. } =>
        datetime_popup_ops(
            node,
            m.datetime_at(at, with_seconds, active_tab, shown_by(date_picker), time_picker),
            p,
        ),
        _ => Seq::empty(),
    }
}

/// Draws the popup of a picker while it is open.
fn paint_picker_popup<N: Num, M: Metrics<N>>(
    ui: &Ui<N>,
    node: &Node<N>,
    m: &M,
    out: &mut Canvas<N>,
)
    requires
        month_named(*node),
    ensures
        final(out).view() == old(out).view() + picker_ops(*ui, *node, *m),
{
    let ghost start = out.view();
    let at = Anchor {
        box_rect: node.computed,
        viewport: ui.viewport,
        font_size: node.style.font_size,
    };
    let p = Pointer { at: ui.cursor, down: ui.mouse_down };
    match &node.kind {
        NodeKind::Date { open: true, picker, .. } => {
            let l: CalendarParts<N> = m.layout_calendar(&at, &staged_month(picker));
            paint_date_popup(node, &l, p, out);
        },
        NodeKind::Time { open: true, picker, .. } => {
            let l: ClockParts<N> = m.layout_clock(&at, node.style.with_seconds, picker);
            paint_time_popup(node, &l, p, out);
        },
        NodeKind::DateTime { open: true, date_picker, time_picker, active_tab, .. } => {
            let l: DateTimeParts<N> = m.layout_datetime(
                &at,
                node.style.with_seconds,
                *active_tab,
                &staged_month(date_picker),
                time_picker,
            );
            paint_datetime_popup(node, &l, p, out);
        },
        _ => {},
    }
    assert(out.view() =~= start + picker_ops(*ui, *node, *m));
}

/// What is drawn for the popup of node `id`: a dropdown's options; a menu's
/// panel, its children in source order, and the popups in them; a picker's.
pub open spec fn popup_ops<N: Num, M: Metrics<N>>(
    ui: Ui<N>,
    rank: spec_fn(int) -> nat,
    id: NodeId,
    m: M,
) -> Seq<Op<N>>
    decreases rank(id.0 as int), 1nat, 0nat,
{
    let node = ui.nodes@[id.0 as int];
    let bound = rank(id.0 as int);
    match node.kind {
        NodeKind::Dropdown { options, selected, .. } => dropdown_popup_ops(
            node,
            options@,
            selected,
        ),
        NodeKind::Menu { .. } => {
            let kids = node.children@;
            let nested = list_popups(ui.nodes@, rank, bound, kids, kids.len());
            menu_panel_ops(node) + list_ops(ui, rank, bound, kids, kids.len(), m) + popup_list_ops(
                ui,
                rank,
                bound,
                nested,
                nested.len(),
                m,
            )
        },
        NodeKind::Date { .. } | NodeKind::Time { .. } | NodeKind::DateTime { .. } => picker_ops(
            ui,
            node,
            m,
        ),
        _ => Seq::empty(),
    }
}

/// What is drawn for the first `n` of `popups`, which rank below `bound`.
pub open spec fn popup_list_ops<N: Num, M: Metrics<N>>(
    ui: Ui<N>,
    rank: spec_fn(int) -> nat,
    bound: nat,
    popups: Seq<NodeId>,
    n: nat,
    m: M,
) -> Seq<Op<N>>
    decreases bound, 0nat, n,
{
    if n == 0 {
        Seq::empty()
    } else {
        popup_list_ops(ui, rank, bound, popups, (n - 1) as nat, m) + (if rank(
            popups[n - 1].0 as int,
        ) < bound {
            popup_ops(ui, rank, popups[n - 1], m)
        } else {
            Seq::empty()
        })
    }
}

fn paint_popup<N: Num, M: Metrics<N>>(ui: &Ui<N>, id: NodeId, m: &M, out: &mut Canvas<N>)
    requires
        ui.wf(),
        drawable(ui.nodes@),
        id.0 < ui.nodes@.len(),
    ensures
        final(out).view() == old(out).view() + popup_ops(*ui, rank_of(ui.nodes@), id, *m),
    decreases rank_of(ui.nodes@)(id.0 as int),
{
    let ghost rank = rank_of(ui.nodes@);
    let ghost bound = rank(id.0 as int);
    let ghost start = out.view();
    let node: &Node<N> = ui.get(id);
    match &node.kind {
        NodeKind::Dropdown { options, selected, .. } => {
            paint_dropdown_popup(node, options, *selected, out);
        },
        NodeKind::Menu { .. } => {
            let style: &Style<N> = &node.style;
            let popup = Rect {
                x: node.computed.x,
                y: node.computed.y.plus(node.computed.h),
                w: node.content_size.w,
                h: node.content_size.h,
            };
            if let Some(bg) = style.bg {
                out.fill_rect(popup, bg, style.radius);
            }
            if let Some(c) = style.border_color {
                out.stroke_rect(popup, c, N::ratio(1, 1), style.radius);
            }
            assert(out.view() =~= start + menu_panel_ops(*node));
            let mut nested: Vec<NodeId> = Vec::new();
            proof {
                assert(ranked(ui.nodes@, rank));
                assert forall|k: int| 0 <= k < node.children@.len() implies (
                #[trigger] node.children@[k]).0 < ui.nodes@.len() && rank(
                    node.children@[k].0 as int,
                ) < bound by {
                    assert(ui.nodes@[id.0 as int].children@[k] == node.children@[k]);
                }
                lemma_list_popups_below(
                    ui.nodes@,
                    rank,
                    bound,
                    node.children@,
                    node.children@.len(),
                );
            }
            paint_list(ui, id, &node.children, m, out, &mut nested);
            let ghost want = list_popups(
                ui.nodes@,
                rank,
                bound,
                node.children@,
                node.children@.len(),
            );
            assert(nested@ =~= want);
            let ghost body = out.view();
            let mut k: usize = 0;
            assert(body + popup_list_ops(*ui, rank, bound, nested@, 0, *m) =~= body);
            while k < nested.len()
                invariant
                    0 <= k <= nested@.len(),
                    ui.wf(),
                    drawable(ui.nodes@),
                    rank == rank_of(ui.nodes@),
                    bound == rank(id.0 as int),
                    all_below(ui.nodes@, rank, nested@, bound),
                    out.view() == body + popup_list_ops(*ui, rank, bound, nested@, k as nat, *m),
                decreases nested@.len() - k,
            {
                paint_popup(ui, nested[k], m, out);
                k = k + 1;
                assert(out.view() =~= body + popup_list_ops(
                    *ui,
                    rank,
                    bound,
                    nested@,
                    k as nat,
                    *m,
                ));
            }
            assert(out.view() =~= start + popup_ops(*ui, rank, id, *m));
        },
        NodeKind::Date { .. } | NodeKind::Time { .. } | NodeKind::DateTime { .. } => {
            paint_picker_popup(ui, node, m, out);
        },
        _ => {},
    }
    assert(out.view() =~= start + popup_ops(*ui, rank, id, *m));
}

// ---- the page ----

/// The thumb's start and extent along a page scrollbar.
pub open spec fn page_thumb<N: Num>(length: N, lo: N, hi: N, scroll: N) -> (N, N) {
    let extent = N::add_of(length, N::sub_of(hi, lo));
    let thumb = clamp_of(
        N::div_of(N::mul_of(length, length), extent),
        N::min_of(whole(24), length),
        length,
    );
    (
        clamp_of(
            N::mul_of(length, N::div_of(N::sub_of(scroll, lo), extent)),
            whole(0),
            N::sub_of(length, thumb),
        ),
        thumb,
    )
}

pub open spec fn page_track_color() -> Color {
    Color { r: 0, g: 0, b: 0, a: 24 }
}

pub open spec fn page_thumb_color() -> Color {
    Color { r: 0, g: 0, b: 0, a: 110 }
}

/// The page's vertical scrollbar, shown while the page can be panned that way.
pub open spec fn page_vertical_ops<N: Num>(ui: Ui<N>) -> Seq<Op<N>> {
    let vp = ui.viewport;
    if N::eq_of(ui.page_scroll_min.y, ui.page_scroll_max.y) {
        Seq::empty()
    } else {
        let (y, h) = page_thumb(vp.h, ui.page_scroll_min.y, ui.page_scroll_max.y, ui.auto_scroll.y);
        let x = N::sub_of(vp.w, whole(10));
        let w = N::sub_of(whole(10), whole(4));
        seq![
            Op::Fill(
                Rect { x, y: whole(0), w: whole(10), h: vp.h },
                page_track_color(),
                edges_all(whole(0)),
            ),
            Op::Fill(
                Rect { x: N::add_of(x, whole(2)), y, w, h },
                page_thumb_color(),
                edges_all(half(w)),
            ),
        ]
    }
}

/// The page's horizontal scrollbar.
pub open spec fn page_horizontal_ops<N: Num>(ui: Ui<N>) -> Seq<Op<N>> {
    let vp = ui.viewport;
    if N::eq_of(ui.page_scroll_min.x, ui.page_scroll_max.x) {
        Seq::empty()
    } else {
        let (x, w) = page_thumb(vp.w, ui.page_scroll_min.x, ui.page_scroll_max.x, ui.auto_scroll.x);
        let y = N::sub_of(vp.h, whole(10));
        let h = N::sub_of(whole(10), whole(4));
        seq![
            Op::Fill(
                Rect { x: whole(0), y, w: vp.w, h: whole(10) },
                page_track_color(),
                edges_all(whole(0)),
            ),
            Op::Fill(
                Rect { x, y: N::add_of(y, whole(2)), w, h },
                page_thumb_color(),
                edges_all(half(h)),
            ),
        ]
    }
}

fn thumb_of_page<N: Num>(length: N, lo: N, hi: N, scroll: N) -> (r: (N, N))
    ensures
        r == page_thumb(length, lo, hi, scroll),
{
    let extent: N = length.plus(hi.minus(lo));
    let thumb: N = clamp(
        length.times(length).over(extent),
        N::ratio(24, 1).lesser_of(length),
        length,
    );
    let at: N = clamp(
        length.times(scroll.minus(lo).over(extent)),
        N::ratio(0, 1),
        length.minus(thumb),
    );
    (at, thumb)
}

fn paint_page_scrollbars<N: Num>(ui: &Ui<N>, out: &mut Canvas<N>)
    ensures
        final(out).view() == old(out).view() + page_vertical_ops(*ui) + page_horizontal_ops(*ui),
{
    let ghost start = out.view();
    let track = Color { r: 0, g: 0, b: 0, a: 24 };
    let thumb = Color { r: 0, g: 0, b: 0, a: 110 };
    let zero: N = N::ratio(0, 1);
    let ten: N = N::ratio(10, 1);
    let thin: N = ten.minus(N::ratio(4, 1));
    let vp: Size<N> = ui.viewport;
    if !ui.page_scroll_min.y.same(ui.page_scroll_max.y) {
        let x: N = vp.w.minus(ten);
        out.fill_rect(Rect { x, y: zero, w: ten, h: vp.h }, track, Edges::all(zero));
        let (y, h) = thumb_of_page(
            vp.h,
            ui.page_scroll_min.y,
            ui.page_scroll_max.y,
            ui.auto_scroll.y,
        );
        out.fill_rect(
            Rect { x: x.plus(N::ratio(2, 1)), y, w: thin, h },
            thumb,
            Edges::all(halved(thin)),
        );
    }
    assert(out.view() =~= start + page_vertical_ops(*ui));
    if !ui.page_scroll_min.x.same(ui.page_scroll_max.x) {
        let y: N = vp.h.minus(ten);
        out.fill_rect(Rect { x: zero, y, w: vp.w, h: ten }, track, Edges::all(zero));
        let (x, w) = thumb_of_page(
            vp.w,
            ui.page_scroll_min.x,
            ui.page_scroll_max.x,
            ui.auto_scroll.x,
        );
        out.fill_rect(
            Rect { x, y: y.plus(N::ratio(2, 1)), w, h: thin },
            thumb,
            Edges::all(halved(thin)),
        );
    }
    assert(out.view() =~= start + page_vertical_ops(*ui) + page_horizontal_ops(*ui));
}

/// The first layer's background, across the whole window.
pub open spec fn backdrop_ops<N: Num>(ui: Ui<N>) -> Seq<Op<N>> {
    if ui.layers@.len() == 0 {
        Seq::empty()
    } else {
        match ui.nodes@[ui.layers@[0].root.0 as int].style.bg {
            Some(bg) => seq![
                Op::Fill(
                    Rect { x: whole(0), y: whole(0), w: ui.viewport.w, h: ui.viewport.h },
                    bg,
                    edges_all(whole(0)),
                ),
            ],
            None => Seq::empty(),
        }
    }
}

/// What is drawn for the first `n` layers.
pub open spec fn layers_ops<N: Num, M: Metrics<N>>(ui: Ui<N>, m: M, n: nat) -> Seq<Op<N>>
    decreases n,
{
    if n == 0 {
        Seq::empty()
    } else {
        layers_ops(ui, m, (n - 1) as nat) + node_ops(
            ui,
            rank_of(ui.nodes@),
            ui.layers@[n - 1].root,
            m,
        )
    }
}

/// The popups that show in the first `n` layers.
pub open spec fn layers_popups<N>(ui: Ui<N>, n: nat) -> Seq<NodeId>
    decreases n,
{
    if n == 0 {
        Seq::empty()
    } else {
        layers_popups(ui, (n - 1) as nat) + node_popups(
            ui.nodes@,
            rank_of(ui.nodes@),
            ui.layers@[n - 1].root,
        )
    }
}

/// What is drawn for the first `n` of `popups`.
pub open spec fn popups_ops<N: Num, M: Metrics<N>>(ui: Ui<N>, m: M, popups: Seq<NodeId>, n: nat) -> Seq<
    Op<N>,
>
    decreases n,
{
    if n == 0 {
        Seq::empty()
    } else {
        popups_ops(ui, m, popups, (n - 1) as nat) + popup_ops(
            ui,
            rank_of(ui.nodes@),
            popups[n - 1],
            m,
        )
    }
}

/// A whole frame: backdrop, layers back to front, popups on top of them, and the
/// page's scrollbars.
pub open spec fn frame_ops<N: Num, M: Metrics<N>>(ui: Ui<N>, m: M) -> Seq<Op<N>> {
    let popups = layers_popups(ui, ui.layers@.len());
    backdrop_ops(ui) + layers_ops(ui, m, ui.layers@.len()) + popups_ops(
        ui,
        m,
        popups,
        popups.len(),
    ) + page_vertical_ops(ui) + page_horizontal_ops(ui)
}

proof fn lemma_layers_popups_in_range<N: Num>(ui: Ui<N>, n: nat)
    requires
        ui.wf(),
        n <= ui.layers@.len(),
    ensures
        forall|k: int|
            0 <= k < layers_popups(ui, n).len() ==> (#[trigger] layers_popups(ui, n)[k]).0
                < ui.nodes@.len(),
    decreases n,
{
    if n > 0 {
        lemma_layers_popups_in_range(ui, (n - 1) as nat);
        assert(ui.layers@[n - 1].root.0 < ui.nodes@.len());
        lemma_popups_below(ui.nodes@, rank_of(ui.nodes@), ui.layers@[n - 1].root);
        let a = layers_popups(ui, (n - 1) as nat);
        let b = node_popups(ui.nodes@, rank_of(ui.nodes@), ui.layers@[n - 1].root);
        assert forall|k: int| 0 <= k < layers_popups(ui, n).len() implies (
        #[trigger] layers_popups(ui, n)[k]).0 < ui.nodes@.len() by {
            if k < a.len() {
                assert(layers_popups(ui, n)[k] == a[k]);
            } else {
                assert(layers_popups(ui, n)[k] == b[k - a.len()]);
            }
        }
    }
}

/// Paints a frame.
pub fn paint<N: Num, M: Metrics<N>>(ui: &Ui<N>, m: &M, out: &mut Canvas<N>)
    requires
        ui.wf(),
        drawable(ui.nodes@),
    ensures
        final(out).view() == old(out).view() + frame_ops(*ui, *m),
{
    let ghost start = out.view();
    if ui.layers.len() > 0 {
        assert(ui.layers@[0].root.0 < ui.nodes@.len());
        let first: NodeId = ui.layers[0].root;
        if let Some(bg) = ui.get(first).style.bg {
            let zero: N = N::ratio(0, 1);
            out.fill_rect(
                Rect { x: zero, y: zero, w: ui.viewport.w, h: ui.viewport.h },
                bg,
                Edges::all(zero),
            );
        }
    }
    assert(out.view() =~= start + backdrop_ops(*ui));
    let ghost backdrop = out.view();
    let mut popups: Vec<NodeId> = Vec::new();
    let mut l: usize = 0;
    assert(backdrop + layers_ops(*ui, *m, 0) =~= backdrop);
    assert(popups@ =~= layers_popups(*ui, 0));
    while l < ui.layers.len()
        invariant
            0 <= l <= ui.layers@.len(),
            ui.wf(),
            drawable(ui.nodes@),
            out.view() == backdrop + layers_ops(*ui, *m, l as nat),
            popups@ == layers_popups(*ui, l as nat),
        decreases ui.layers@.len() - l,
    {
        assert(ui.layers@[l as int].root.0 < ui.nodes@.len());
        let root: NodeId = ui.layers[l].root;
        paint_node(ui, root, m, out, &mut popups);
        l = l + 1;
        assert(out.view() =~= backdrop + layers_ops(*ui, *m, l as nat));
        assert(popups@ =~= layers_popups(*ui, l as nat));
    }
    let ghost body = out.view();
    proof {
        lemma_layers_popups_in_range(*ui, ui.layers@.len());
    }
    let mut k: usize = 0;
    assert(body + popups_ops(*ui, *m, popups@, 0) =~= body);
    while k < popups.len()
        invariant
            0 <= k <= popups@.len(),
            ui.wf(),
            drawable(ui.nodes@),
            forall|j: int| 0 <= j < popups@.len() ==> (#[trigger] popups@[j]).0 < ui.nodes@.len(),
            out.view() == body + popups_ops(*ui, *m, popups@, k as nat),
        decreases popups@.len() - k,
    {
        paint_popup(ui, popups[k], m, out);
        k = k + 1;
        assert(out.view() =~= body + popups_ops(*ui, *m, popups@, k as nat));
    }
    paint_page_scrollbars(ui, out);
    assert(out.view() =~= start + frame_ops(*ui, *m));
}

} // verus!
