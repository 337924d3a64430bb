//! What holds of every painted frame.

use vstd::prelude::*;
use crate::order::{law_order_of_is_stable, lemma_lex_small, order_of};
use crate::toolkit::arena::{
    rank_of, DatePicker, DateTimeTab, Node, NodeId, NodeKind, TimePicker, Ui,
};
use crate::toolkit::canvas::{
    balanced, clip_step, lemma_balanced_concat, lemma_balanced_wrap, lemma_flat_is_balanced,
    opacity_step, transform_step, Op,
};
use crate::toolkit::datetime::twelve_hour;
use crate::toolkit::geometry::{edges_all, Point, Rect};
use crate::toolkit::layout::all_kids;
use crate::toolkit::measure::Metrics;
use crate::toolkit::num::{whole, Num};
use crate::toolkit::paint::{
    anchor_of, backdrop_ops, box_ops, children_ops, closing_ops, content_ops, Field, frame_ops, half, has_popup,
    highlight_ops, layers_ops, layers_popups, list_ops, list_popups, menu_panel_ops, multi_line_ops,
    node_ops, opening_ops, option_ops, page_horizontal_ops, page_vertical_ops, paints_children,
    picker_ops, popup_list_ops, popup_ops, popups_ops, scrollbar_ops, single_line_ops, text_input_ops, z_ranks,
    z_sorted,
};
use crate::toolkit::pickers::{
    ampm_ops, calendar_ops, clock_ops, datetime_popup_ops, day_cells_ops, dial_face, dial_ops, footer_ops, hand_ops, header_ops,
    marks_ops, panel_ops, segments_ops, shown_by, tab_row_ops, weekday_ops, year_cells_ops,
    year_list_ops, CalendarView, ClockView, DateTimeView, Pointer,
};
use crate::toolkit::style::{identity_transform, transform_eq, Style};

verus! {

/// Operations that open and close nothing.
pub open spec fn flat<N>(ops: Seq<Op<N>>) -> bool {
    forall|k: int|
        0 <= k < ops.len() ==> clip_step(#[trigger] ops[k]) == 0 && transform_step(ops[k]) == 0
            && opacity_step(ops[k]) == 0
}

proof fn lemma_highlight_flat<N: Num, M: Metrics<N>>(
    m: M,
    style: Style<N>,
    content: Rect<N>,
    text: Seq<char>,
    lo: (int, int),
    hi: (int, int),
    scroll_y: N,
    n: nat,
)
    ensures
        flat(highlight_ops(m, style, content, text, lo, hi, scroll_y, n)),
    decreases n,
{
    if n > 0 {
        lemma_highlight_flat(m, style, content, text, lo, hi, scroll_y, (n - 1) as nat);
    }
}

proof fn lemma_text_input_balanced<N: Num, M: Metrics<N>>(
    m: M,
    style: Style<N>,
    content: Rect<N>,
    placeholder: Seq<char>,
    f: Field,
    scroll: Point<N>,
)
    ensures
        balanced(text_input_ops(m, style, content, placeholder, f, scroll)),
{
    let ops = text_input_ops(m, style, content, placeholder, f, scroll);
    if f.shown.len() == 0 {
        lemma_flat_is_balanced(ops);
    } else if style.multiline {
        let inner = multi_line_ops(m, style, content, f, scroll.y);
        match f.selection() {
            Some((lo, hi)) => {
                let a = crate::toolkit::text_input::line_col(f.shown, lo);
                let b = crate::toolkit::text_input::line_col(f.shown, hi);
                lemma_highlight_flat(
                    m,
                    style,
                    content,
                    f.shown,
                    a,
                    b,
                    scroll.y,
                    if b.0 < a.0 {
                        0
                    } else {
                        (b.0 - a.0 + 1) as nat
                    },
                );
            },
            None => {},
        }
        assert(flat(inner));
        lemma_flat_is_balanced(inner);
        lemma_balanced_wrap(Op::PushClip(content), inner, Op::PopClip);
    } else {
        let inner = single_line_ops(m, style, content, f, scroll.x);
        assert(flat(inner));
        lemma_flat_is_balanced(inner);
        lemma_balanced_wrap(Op::PushClip(content), inner, Op::PopClip);
    }
}

proof fn lemma_content_balanced<N: Num, M: Metrics<N>>(
    node: Node<N>,
    id: NodeId,
    focused: bool,
    m: M,
)
    ensures
        balanced(content_ops(node, id, focused, m)),
{
    let style = node.style;
    let content = content_rect_of(node);
    match node.kind {
        NodeKind::TextInput {
            label,
            placeholder,
            masked,
            cursor,
            selection_anchor,
            ime_preview,
        } => {
            lemma_text_input_balanced(
                m,
                style,
                content,
                placeholder@,
                Field {
                    shown: crate::toolkit::text_input::shown_text(
                        label@,
                        cursor as int,
                        ime_preview@,
                        masked,
                    ),
                    cursor: cursor as int,
                    anchor: selection_anchor,
                    preview: ime_preview@.len() as int,
                    focused,
                },
                node.scroll_offset,
            );
        },
        _ => {
            assert(flat(content_ops(node, id, focused, m)));
            lemma_flat_is_balanced(content_ops(node, id, focused, m));
        },
    }
}

pub open spec fn content_rect_of<N: Num>(node: Node<N>) -> Rect<N> {
    crate::toolkit::paint::content_rect(node.style, node.computed)
}

/// A balanced list between a node's opening and closing operations is balanced.
proof fn lemma_node_wrap<N: Num>(style: Style<N>, rect: Rect<N>, inner: Seq<Op<N>>)
    requires
        balanced(inner),
    ensures
        balanced(opening_ops(style, rect) + inner + closing_ops(style)),
{
    let dim = N::lt_of(style.opacity, whole(1));
    let turned = !transform_eq(style.transform, identity_transform());
    let push_o = Op::<N>::PushOpacity(N::max_of(style.opacity, whole(0)));
    let mid = if dim {
        seq![push_o] + inner + seq![Op::PopOpacity]
    } else {
        inner
    };
    if dim {
        lemma_balanced_wrap(push_o, inner, Op::PopOpacity);
    }
    let whole_ops = opening_ops(style, rect) + inner + closing_ops(style);
    if turned {
        let push_t = opening_ops(style, rect)[0];
        lemma_balanced_wrap(push_t, mid, Op::PopTransform);
        assert(whole_ops =~= seq![push_t] + mid + seq![Op::PopTransform]);
    } else {
        assert(whole_ops =~= mid);
    }
}

/// Whatever painting a node opens (clips, transforms, opacities) it closes, in
/// nested order.
pub proof fn law_node_is_balanced<N: Num, M: Metrics<N>>(
    ui: Ui<N>,
    rank: spec_fn(int) -> nat,
    id: NodeId,
    m: M,
)
    ensures
        balanced(node_ops(ui, rank, id, m)),
    decreases rank(id.0 as int), 2nat, 0nat,
{
    let node = ui.nodes@[id.0 as int];
    let style = node.style;
    let rect = node.computed;
    let a = box_ops(style, rect);
    let b = content_ops(node, id, ui.focus == Some(id), m);
    let c = children_ops(ui, rank, id, m);
    let d = bars_of(node);
    lemma_box_and_bars_balanced(node);
    lemma_content_balanced(node, id, ui.focus == Some(id), m);
    lemma_children_balanced(ui, rank, id, m);
    lemma_balanced_concat(a, b);
    lemma_balanced_concat(a + b, c);
    lemma_balanced_concat(a + b + c, d);
    lemma_node_wrap(style, rect, a + b + c + d);
    lemma_reassociate(opening_ops(style, rect), a, b, c, d, closing_ops(style));
}

proof fn lemma_reassociate<T>(o: Seq<T>, a: Seq<T>, b: Seq<T>, c: Seq<T>, d: Seq<T>, e: Seq<T>)
    ensures
        (o + a + b) + c + (d + e) == o + (a + b + c + d) + e,
{
    assert((o + a + b) + c + (d + e) =~= o + (a + b + c + d) + e);
}

/// A node's scrollbars, where it scrolls.
spec fn bars_of<N: Num>(node: Node<N>) -> Seq<Op<N>> {
    if node.style.scroll_x || node.style.scroll_y {
        scrollbar_ops(node.computed, node.style, node.content_size, node.scroll_offset)
    } else {
        Seq::empty()
    }
}

proof fn lemma_box_and_bars_balanced<N: Num>(node: Node<N>)
    ensures
        balanced(box_ops(node.style, node.computed)),
        balanced(bars_of(node)),
{
    assert(flat(box_ops(node.style, node.computed)));
    lemma_flat_is_balanced(box_ops(node.style, node.computed));
    assert(flat(bars_of(node)));
    lemma_flat_is_balanced(bars_of(node));
}

proof fn lemma_children_balanced<N: Num, M: Metrics<N>>(
    ui: Ui<N>,
    rank: spec_fn(int) -> nat,
    id: NodeId,
    m: M,
)
    ensures
        balanced(children_ops(ui, rank, id, m)),
    decreases rank(id.0 as int), 1nat, 0nat,
{
    let node = ui.nodes@[id.0 as int];
    let bound = rank(id.0 as int);
    let inside = z_sorted(ui.nodes@, all_kids(ui.nodes@, id, false));
    let outside = z_sorted(ui.nodes@, all_kids(ui.nodes@, id, true));
    if paints_children(node) {
        let i = list_ops(ui, rank, bound, inside, inside.len(), m);
        let o = list_ops(ui, rank, bound, outside, outside.len(), m);
        let clip = Op::PushClip(node.computed);
        lemma_list_balanced(ui, rank, bound, inside, inside.len(), m);
        lemma_list_balanced(ui, rank, bound, outside, outside.len(), m);
        lemma_balanced_wrap(clip, i, Op::PopClip);
        lemma_balanced_concat(seq![clip] + i + seq![Op::PopClip], o);
    } else {
        lemma_flat_is_balanced(Seq::<Op<N>>::empty());
    }
}

proof fn lemma_list_balanced<N: Num, M: Metrics<N>>(
    ui: Ui<N>,
    rank: spec_fn(int) -> nat,
    bound: nat,
    kids: Seq<NodeId>,
    n: nat,
    m: M,
)
    ensures
        balanced(list_ops(ui, rank, bound, kids, n, m)),
    decreases bound, 0nat, n,
{
    if n > 0 {
        lemma_list_balanced(ui, rank, bound, kids, (n - 1) as nat, m);
        if rank(kids[n - 1].0 as int) < bound {
            law_node_is_balanced(ui, rank, kids[n - 1], m);
        } else {
            lemma_flat_is_balanced(Seq::<Op<N>>::empty());
        }
        lemma_balanced_concat(
            list_ops(ui, rank, bound, kids, (n - 1) as nat, m),
            if rank(kids[n - 1].0 as int) < bound {
                node_ops(ui, rank, kids[n - 1], m)
            } else {
                Seq::empty()
            },
        );
    } else {
        lemma_flat_is_balanced(Seq::<Op<N>>::empty());
    }
}

proof fn lemma_options_flat<N: Num>(
    style: Style<N>,
    popup: Rect<N>,
    option_h: N,
    options: Seq<String>,
    selected: Option<usize>,
    n: nat,
)
    ensures
        flat(option_ops(style, popup, option_h, options, selected, n)),
    decreases n,
{
    if n > 0 {
        lemma_options_flat(style, popup, option_h, options, selected, (n - 1) as nat);
    }
}

proof fn lemma_weekdays_flat<N: Num>(row: Rect<N>, font_size: N, n: nat)
    ensures
        flat(weekday_ops(row, font_size, n)),
    decreases n,
{
    if n > 0 {
        lemma_weekdays_flat(row, font_size, (n - 1) as nat);
    }
}

proof fn lemma_years_flat<N: Num>(
    cells: Seq<(Rect<N>, i32)>,
    p: Pointer<N>,
    font_size: N,
    year: int,
    n: nat,
)
    ensures
        flat(year_cells_ops(cells, p, font_size, year, n)),
    decreases n,
{
    if n > 0 {
        lemma_years_flat(cells, p, font_size, year, (n - 1) as nat);
    }
}

proof fn lemma_days_flat<N: Num>(
    cells: Seq<(Rect<N>, Option<u32>)>,
    p: Pointer<N>,
    font_size: N,
    staged_day: int,
    n: nat,
)
    ensures
        flat(day_cells_ops(cells, p, font_size, staged_day, n)),
    decreases n,
{
    if n > 0 {
        lemma_days_flat(cells, p, font_size, staged_day, (n - 1) as nat);
    }
}

proof fn lemma_marks_flat<N: Num>(l: ClockView<N>, picker: TimePicker, font_size: N, n: nat)
    ensures
        flat(marks_ops(l, picker, font_size, n)),
    decreases n,
{
    if n > 0 {
        lemma_marks_flat(l, picker, font_size, (n - 1) as nat);
    }
}

proof fn lemma_calendar_flat<N: Num>(
    l: CalendarView<N>,
    p: Pointer<N>,
    font_size: N,
    year: int,
    month: int,
    staged_day: int,
)
    ensures
        flat(calendar_ops(l, p, font_size, year, month, staged_day)),
{
    lemma_weekdays_flat(l.weekday_row, font_size, 7);
    assert(flat(header_ops(l, p, font_size, year, month)));
    match l.year_list {
        Some(list) => {
            lemma_years_flat(list.year_cells, p, font_size, year, list.year_cells.len());
            assert(flat(year_list_ops(list, p, font_size, year)));
        },
        None => {
            lemma_days_flat(l.day_cells, p, font_size, staged_day, l.day_cells.len());
            assert(flat(footer_ops(l.cancel_rect, l.confirm_rect, font_size, p)));
        },
    }
}

proof fn lemma_balanced_three<N>(a: Seq<Op<N>>, b: Seq<Op<N>>, c: Seq<Op<N>>)
    requires
        balanced(a),
        balanced(b),
        balanced(c),
    ensures
        balanced(a + b + c),
{
    lemma_balanced_concat(a, b);
    lemma_balanced_concat(a + b, c);
}

proof fn lemma_segments_flat<N: Num>(
    l: ClockView<N>,
    picker: TimePicker,
    p: Pointer<N>,
    font_size: N,
)
    ensures
        flat(segments_ops(l, picker, p, font_size)),
{
}

proof fn lemma_ampm_flat<N: Num>(rect: Rect<N>, is_pm: bool, p: Pointer<N>, font_size: N)
    ensures
        flat(ampm_ops(rect, is_pm, p, font_size)),
{
}

proof fn lemma_footer_flat<N: Num>(cancel: Rect<N>, confirm: Rect<N>, font_size: N, p: Pointer<N>)
    ensures
        flat(footer_ops(cancel, confirm, font_size, p)),
{
}

proof fn lemma_tabs_flat<N: Num>(l: DateTimeView<N>, tab: DateTimeTab, p: Pointer<N>, font_size: N)
    ensures
        flat(tab_row_ops(l, tab, p, font_size)),
{
}

/// The hand is turned, and what comes after it is not.
proof fn lemma_hand_balanced<N: Num>(l: ClockView<N>)
    ensures
        balanced(hand_ops(l)),
{
    let hand = hand_ops(l);
    let turned = hand.subrange(1, 2);
    let dot = hand.subrange(3, 4);
    assert(flat(turned) && flat(dot));
    lemma_flat_is_balanced(turned);
    lemma_flat_is_balanced(dot);
    lemma_balanced_wrap(hand[0], turned, hand[2]);
    lemma_balanced_concat(seq![hand[0]] + turned + seq![hand[2]], dot);
    assert(hand =~= seq![hand[0]] + turned + seq![hand[2]] + dot);
}

proof fn lemma_dial_balanced<N: Num>(l: ClockView<N>, picker: TimePicker, font_size: N)
    ensures
        balanced(dial_ops(l, picker, font_size)),
{
    let face = seq![Op::Fill(l.dial_area, dial_face(), edges_all(half(l.dial_area.w)))];
    lemma_marks_flat(l, picker, font_size, 12);
    lemma_flat_is_balanced(face);
    lemma_flat_is_balanced(marks_ops(l, picker, font_size, 12));
    lemma_hand_balanced(l);
    lemma_balanced_three(face, marks_ops(l, picker, font_size, 12), hand_ops(l));
}

proof fn lemma_clock_balanced<N: Num>(
    l: ClockView<N>,
    picker: TimePicker,
    p: Pointer<N>,
    font_size: N,
)
    ensures
        balanced(clock_ops(l, picker, p, font_size)),
{
    let is_pm = twelve_hour(picker.staged_hour as int).1;
    let a = panel_ops(l.popup_rect);
    let b = segments_ops(l, picker, p, font_size);
    let c = dial_ops(l, picker, font_size);
    let d = ampm_ops(l.ampm_rect, is_pm, p, font_size);
    let e = footer_ops(l.cancel_rect, l.confirm_rect, font_size, p);
    assert(flat(a));
    lemma_segments_flat(l, picker, p, font_size);
    lemma_ampm_flat(l.ampm_rect, is_pm, p, font_size);
    lemma_footer_flat(l.cancel_rect, l.confirm_rect, font_size, p);
    lemma_flat_is_balanced(a);
    lemma_flat_is_balanced(b);
    lemma_flat_is_balanced(d);
    lemma_flat_is_balanced(e);
    lemma_dial_balanced(l, picker, font_size);
    lemma_balanced_three(a, b, c);
    lemma_balanced_three(a + b + c, d, e);
}

proof fn lemma_datetime_balanced<N: Num>(
    node: Node<N>,
    l: DateTimeView<N>,
    p: Pointer<N>,
    tab: DateTimeTab,
    date: DatePicker,
    time: TimePicker,
)
    requires
        node.kind matches NodeKind::DateTime { date_picker, time_picker, active_tab, .. }
            && date_picker == date && time_picker == time && active_tab == tab,
    ensures
        balanced(datetime_popup_ops(node, l, p)),
{
    let size = node.style.font_size;
    let none = Seq::<Op<N>>::empty();
    let tabs = tab_row_ops(l, tab, p, size);
    lemma_flat_is_balanced(none);
    lemma_tabs_flat(l, tab, p, size);
    lemma_flat_is_balanced(tabs);
    let days = match l.calendar {
        Some(c) => calendar_ops(
            c,
            p,
            size,
            date.staged_year as int,
            date.staged_month as int,
            date.staged_day as int,
        ),
        None => none,
    };
    let dial = match l.clock {
        Some(c) => clock_ops(c, time, p, size),
        None => none,
    };
    if let Some(c) = l.calendar {
        lemma_calendar_flat(
            c,
            p,
            size,
            date.staged_year as int,
            date.staged_month as int,
            date.staged_day as int,
        );
        lemma_flat_is_balanced(days);
    }
    if let Some(c) = l.clock {
        lemma_clock_balanced(c, time, p, size);
    }
    lemma_balanced_three(tabs, days, dial);
}

/// Whatever painting a picker's popup opens it closes.
pub proof fn law_picker_is_balanced<N: Num, M: Metrics<N>>(ui: Ui<N>, node: Node<N>, m: M)
    ensures
        balanced(picker_ops(ui, node, m)),
{
    let at = anchor_of(ui, node);
    let p = Pointer { at: ui.cursor, down: ui.mouse_down };
    let size = node.style.font_size;
    lemma_flat_is_balanced(Seq::<Op<N>>::empty());
    match node.kind {
        NodeKind::Date { open: true, picker, .. } => {
            let l = m.calendar_at(at, shown_by(picker));
            lemma_calendar_flat(
                l,
                p,
                size,
                picker.staged_year as int,
                picker.staged_month as int,
                picker.staged_day as int,
            );
            lemma_flat_is_balanced(picker_ops(ui, node, m));
        },
        NodeKind::Time { open: true, picker, .. } => {
            lemma_clock_balanced(m.clock_at(at, node.style.with_seconds, picker), picker, p, size);
        },
        NodeKind::DateTime { open: true, date_picker, time_picker, active_tab, .. } => {
            let l = m.datetime_at(
                at,
                node.style.with_seconds,
                active_tab,
                shown_by(date_picker),
                time_picker,
            );
            lemma_datetime_balanced(node, l, p, active_tab, date_picker, time_picker);
        },
        _ => {},
    }
}

/// Whatever painting a popup opens it closes.
pub proof fn law_popup_is_balanced<N: Num, M: Metrics<N>>(
    ui: Ui<N>,
    rank: spec_fn(int) -> nat,
    id: NodeId,
    m: M,
)
    ensures
        balanced(popup_ops(ui, rank, id, m)),
    decreases rank(id.0 as int), 1nat, 0nat,
{
    let node = ui.nodes@[id.0 as int];
    let bound = rank(id.0 as int);
    match node.kind {
        NodeKind::Dropdown { options, selected, .. } => {
            let style = node.style;
            let option_h = crate::toolkit::style::dropdown_sizes(style.font_size).1;
            let popup = Rect {
                x: node.computed.x,
                y: N::add_of(node.computed.y, node.computed.h),
                w: node.computed.w,
                h: N::mul_of(option_h, N::count_of(options@.len())),
            };
            lemma_options_flat(style, popup, option_h, options@, selected, options@.len());
            assert(flat(popup_ops(ui, rank, id, m)));
            lemma_flat_is_balanced(popup_ops(ui, rank, id, m));
        },
        NodeKind::Menu { .. } => {
            let kids = node.children@;
            let nested = list_popups(ui.nodes@, rank, bound, kids, kids.len());
            let a = menu_panel_ops(node);
            let b = list_ops(ui, rank, bound, kids, kids.len(), m);
            let c = popup_list_ops(ui, rank, bound, nested, nested.len(), m);
            assert(flat(a));
            lemma_flat_is_balanced(a);
            lemma_list_balanced(ui, rank, bound, kids, kids.len(), m);
            lemma_popup_list_balanced(ui, rank, bound, nested, nested.len(), m);
            lemma_balanced_concat(a, b);
            lemma_balanced_concat(a + b, c);
        },
        _ => {
            law_picker_is_balanced(ui, node, m);
            lemma_flat_is_balanced(Seq::<Op<N>>::empty());
        },
    }
}

proof fn lemma_popup_list_balanced<N: Num, M: Metrics<N>>(
    ui: Ui<N>,
    rank: spec_fn(int) -> nat,
    bound: nat,
    popups: Seq<NodeId>,
    n: nat,
    m: M,
)
    ensures
        balanced(popup_list_ops(ui, rank, bound, popups, n, m)),
    decreases bound, 0nat, n,
{
    if n > 0 {
        lemma_popup_list_balanced(ui, rank, bound, popups, (n - 1) as nat, m);
        if rank(popups[n - 1].0 as int) < bound {
            law_popup_is_balanced(ui, rank, popups[n - 1], m);
        } else {
            lemma_flat_is_balanced(Seq::<Op<N>>::empty());
        }
        lemma_balanced_concat(
            popup_list_ops(ui, rank, bound, popups, (n - 1) as nat, m),
            if rank(popups[n - 1].0 as int) < bound {
                popup_ops(ui, rank, popups[n - 1], m)
            } else {
                Seq::empty()
            },
        );
    } else {
        lemma_flat_is_balanced(Seq::<Op<N>>::empty());
    }
}

/// Whatever painting a frame opens (clips, transforms, opacities) it closes, in
/// nested order; so the next frame starts with nothing open.
pub proof fn law_frame_is_balanced<N: Num, M: Metrics<N>>(ui: Ui<N>, m: M)
    ensures
        balanced(frame_ops(ui, m)),
{
    let popups = layers_popups(ui, ui.layers@.len());
    let a = backdrop_ops(ui);
    let b = layers_ops(ui, m, ui.layers@.len());
    let c = popups_ops(ui, m, popups, popups.len());
    let d = page_vertical_ops(ui);
    let e = page_horizontal_ops(ui);
    assert(flat(a) && flat(d) && flat(e));
    lemma_flat_is_balanced(a);
    lemma_flat_is_balanced(d);
    lemma_flat_is_balanced(e);
    lemma_layers_balanced(ui, m, ui.layers@.len());
    lemma_popups_balanced(ui, m, popups, popups.len());
    lemma_balanced_concat(a, b);
    lemma_balanced_concat(a + b, c);
    lemma_balanced_concat(a + b + c, d);
    lemma_balanced_concat(a + b + c + d, e);
}

proof fn lemma_layers_balanced<N: Num, M: Metrics<N>>(ui: Ui<N>, m: M, n: nat)
    ensures
        balanced(layers_ops(ui, m, n)),
    decreases n,
{
    if n > 0 {
        lemma_layers_balanced(ui, m, (n - 1) as nat);
        law_node_is_balanced(ui, rank_of(ui.nodes@), ui.layers@[n - 1].root, m);
        lemma_balanced_concat(
            layers_ops(ui, m, (n - 1) as nat),
            node_ops(ui, rank_of(ui.nodes@), ui.layers@[n - 1].root, m),
        );
    } else {
        lemma_flat_is_balanced(Seq::<Op<N>>::empty());
    }
}

proof fn lemma_popups_balanced<N: Num, M: Metrics<N>>(ui: Ui<N>, m: M, popups: Seq<NodeId>, n: nat)
    ensures
        balanced(popups_ops(ui, m, popups, n)),
    decreases n,
{
    if n > 0 {
        lemma_popups_balanced(ui, m, popups, (n - 1) as nat);
        law_popup_is_balanced(ui, rank_of(ui.nodes@), popups[n - 1], m);
        lemma_balanced_concat(
            popups_ops(ui, m, popups, (n - 1) as nat),
            popup_ops(ui, rank_of(ui.nodes@), popups[n - 1], m),
        );
    } else {
        lemma_flat_is_balanced(Seq::<Op<N>>::empty());
    }
}

/// Siblings are painted by z-index: of two, the one painted later has no smaller
/// z-index, and if they tie it comes later in source order. Each is painted once.
pub proof fn law_z_index_orders_siblings<N>(nodes: Seq<Node<N>>, kids: Seq<NodeId>, a: int, b: int)
    requires
        0 <= a < b < kids.len(),
    ensures
        ({
            let ord = order_of(z_ranks(nodes, kids), kids.len());
            let x = nodes[z_sorted(nodes, kids)[a].0 as int].style.z_index;
            let y = nodes[z_sorted(nodes, kids)[b].0 as int].style.z_index;
            &&& z_sorted(nodes, kids).len() == kids.len()
            &&& z_sorted(nodes, kids)[a] == kids[ord[a]]
            &&& z_sorted(nodes, kids)[b] == kids[ord[b]]
            &&& ord[a] != ord[b]
            &&& x <= y
            &&& x == y ==> ord[a] < ord[b]
        }),
{
    law_order_of_is_stable(z_ranks(nodes, kids), kids.len());
    let ord = order_of(z_ranks(nodes, kids), kids.len());
    let x = nodes[kids[ord[a]].0 as int].style.z_index;
    let y = nodes[kids[ord[b]].0 as int].style.z_index;
    assert(0 <= ord[a] < kids.len() && 0 <= ord[b] < kids.len());
    assert(ord[a] != ord[b]);
    lemma_lex_small(x as int, y as int, 0, 0);
    lemma_lex_small(y as int, x as int, 0, 0);
    assert(z_ranks(nodes, kids)[ord[a]] =~= seq![x as int]);
    assert(z_ranks(nodes, kids)[ord[b]] =~= seq![y as int]);
}

/// A menu that is closed or has no children shows no popup.
pub proof fn law_empty_menu_has_no_popup<N>(node: Node<N>)
    requires
        node.kind is Menu,
        node.children@.len() == 0 || !node.kind->Menu_open,
    ensures
        !has_popup(node),
{
}

} // verus!
