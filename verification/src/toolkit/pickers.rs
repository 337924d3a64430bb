//! Painting the popups of date and time pickers: a month's calendar, and a
//! clock dial.
//!
//! The popups have a fixed theme, whatever the widget's own style is. Where
//! their parts lie is given ([`CalendarParts`], [`ClockParts`]): these popups have
//! more parts than the plain ones of [`crate::toolkit::popup_layout`], a year list
//! and a dial among them, and the painting backend says where they are
//! ([`crate::toolkit::measure::Metrics`]).

use vstd::prelude::*;
use vstd::string::*;
use crate::text::{decimal, decimal_string, int_string, int_text, pad_zeros, padded_decimal};
use crate::toolkit::arena::{ClockMode, DatePicker, DateTimeTab, Node, NodeKind, TimePicker};
use crate::toolkit::canvas::{Canvas, Op, TextStyle};
use crate::toolkit::datetime::{nearest_mark, nearest_tick, to_12_hour, twelve_hour};
use crate::toolkit::geometry::{edges_all, holds_point, inset_rect, Color, Edges, Point, Rect, Size};
use crate::toolkit::num::{whole, Num};
use crate::toolkit::paint::{half, halved, vcenter_text, vcentered};
use crate::toolkit::style::{identity_transform, TextAlign, Transform2D};

verus! {

// ---- theme ----

pub open spec fn popup_bg() -> Color {
    Color { r: 255, g: 255, b: 255, a: 255 }
}

pub open spec fn popup_text() -> Color {
    Color { r: 20, g: 20, b: 20, a: 255 }
}

pub open spec fn popup_muted() -> Color {
    Color { r: 130, g: 130, b: 130, a: 255 }
}

pub open spec fn popup_border() -> Color {
    Color { r: 224, g: 224, b: 228, a: 255 }
}

pub open spec fn indigo() -> Color {
    Color { r: 0x63, g: 0x66, b: 0xf1, a: 255 }
}

pub open spec fn indigo_dark() -> Color {
    Color { r: 0x4f, g: 0x46, b: 0xe5, a: 255 }
}

pub open spec fn indigo_light() -> Color {
    Color { r: 0xe0, g: 0xe7, b: 0xff, a: 255 }
}

pub open spec fn dial_face() -> Color {
    Color { r: 244, g: 244, b: 247, a: 255 }
}

/// Centered text of a popup.
pub open spec fn centered<N: Num>(color: Color, size: N, weight: u16) -> TextStyle<N> {
    TextStyle { color, size, align: TextAlign::Center, weight, letter_spacing: whole(0) }
}

fn center_style<N: Num>(color: Color, size: N, weight: u16) -> (r: TextStyle<N>)
    ensures
        r == centered(color, size, weight),
{
    TextStyle { color, size, align: TextAlign::Center, weight, letter_spacing: N::ratio(0, 1) }
}

fn text_color() -> (r: Color)
    ensures
        r == popup_text(),
{
    Color { r: 20, g: 20, b: 20, a: 255 }
}

fn accent() -> (r: Color)
    ensures
        r == indigo(),
{
    Color { r: 0x63, g: 0x66, b: 0xf1, a: 255 }
}

/// Where the mouse is, and whether it is pressed.
#[derive(Debug, Clone, Copy)]
pub struct Pointer<N> {
    pub at: Point<N>,
    pub down: bool,
}

/// How a control under the mouse is highlighted.
pub open spec fn highlight<N: Num>(rect: Rect<N>, p: Pointer<N>) -> Option<Color> {
    if !holds_point(rect, p.at) {
        None
    } else if p.down {
        Some(indigo_dark())
    } else {
        Some(indigo_light())
    }
}

fn button_highlight<N: Num>(rect: Rect<N>, p: Pointer<N>) -> (r: Option<Color>)
    ensures
        r == highlight(rect, p),
{
    if !rect.contains(p.at) {
        None
    } else if p.down {
        Some(Color { r: 0x4f, g: 0x46, b: 0xe5, a: 255 })
    } else {
        Some(Color { r: 0xe0, g: 0xe7, b: 0xff, a: 255 })
    }
}

/// A rectangle in the highlight's color, if there is one.
pub open spec fn highlight_ops<N: Num>(
    rect: Rect<N>,
    shape: Rect<N>,
    radius: N,
    p: Pointer<N>,
) -> Seq<Op<N>> {
    match highlight(rect, p) {
        Some(c) => seq![Op::Fill(shape, c, edges_all(radius))],
        None => Seq::empty(),
    }
}

fn paint_highlight<N: Num>(
    rect: Rect<N>,
    shape: Rect<N>,
    radius: N,
    p: Pointer<N>,
    out: &mut Canvas<N>,
)
    ensures
        final(out).view() == old(out).view() + highlight_ops(rect, shape, radius, p),
{
    let ghost start = out.view();
    if let Some(c) = button_highlight(rect, p) {
        out.fill_rect(shape, c, Edges::all(radius));
    }
    assert(out.view() =~= start + highlight_ops(rect, shape, radius, p));
}

/// A text button: highlighted under the mouse, accented if it is selected.
pub open spec fn button_ops<N: Num>(
    rect: Rect<N>,
    label: Seq<char>,
    font_size: N,
    p: Pointer<N>,
    selected: bool,
) -> Seq<Op<N>> {
    let radius = N::min_of(N::div_of(N::min_of(rect.h, rect.w), whole(6)), whole(8));
    highlight_ops(rect, rect, radius, p) + seq![
        Op::Text(
            label,
            vcentered(rect, font_size),
            if selected {
                centered(indigo(), font_size, 600)
            } else {
                centered(popup_text(), font_size, 400)
            },
        ),
    ]
}

fn draw_text_button<N: Num>(
    rect: Rect<N>,
    label: &str,
    font_size: N,
    p: Pointer<N>,
    selected: bool,
    out: &mut Canvas<N>,
)
    ensures
        final(out).view() == old(out).view() + button_ops(rect, label@, font_size, p, selected),
{
    let ghost start = out.view();
    let radius: N = rect.h.lesser_of(rect.w).over(N::ratio(6, 1)).lesser_of(N::ratio(8, 1));
    paint_highlight(rect, rect, radius, p, out);
    let style: TextStyle<N> = if selected {
        center_style(accent(), font_size, 600)
    } else {
        center_style(text_color(), font_size, 400)
    };
    out.draw_text(label, vcenter_text(rect, font_size), style);
    assert(out.view() =~= start + button_ops(rect, label@, font_size, p, selected));
}

/// The row with the two buttons that end a choice.
pub open spec fn footer_ops<N: Num>(
    cancel: Rect<N>,
    confirm: Rect<N>,
    font_size: N,
    p: Pointer<N>,
) -> Seq<Op<N>> {
    let divider = Rect {
        x: N::sub_of(N::add_of(cancel.x, cancel.w), N::ratio_of(1, 2)),
        y: N::add_of(cancel.y, whole(8)),
        w: whole(1),
        h: N::sub_of(cancel.h, whole(16)),
    };
    seq![Op::Fill(divider, popup_border(), edges_all(whole(0)))] + button_ops(
        cancel,
        "CANCEL"@,
        font_size,
        p,
        false,
    ) + button_ops(confirm, "CONFIRM"@, font_size, p, true)
}

fn paint_footer<N: Num>(
    cancel: Rect<N>,
    confirm: Rect<N>,
    font_size: N,
    p: Pointer<N>,
    out: &mut Canvas<N>,
)
    ensures
        final(out).view() == old(out).view() + footer_ops(cancel, confirm, font_size, p),
{
    let ghost start = out.view();
    let divider = Rect {
        x: cancel.x.plus(cancel.w).minus(N::ratio(1, 2)),
        y: cancel.y.plus(N::ratio(8, 1)),
        w: N::ratio(1, 1),
        h: cancel.h.minus(N::ratio(16, 1)),
    };
    out.fill_rect(
        divider,
        Color { r: 224, g: 224, b: 228, a: 255 },
        Edges::all(N::ratio(0, 1)),
    );
    draw_text_button(cancel, "CANCEL", font_size, p, false, out);
    draw_text_button(confirm, "CONFIRM", font_size, p, true, out);
    assert(out.view() =~= start + footer_ops(cancel, confirm, font_size, p));
}

/// A popup's panel.
pub open spec fn panel_ops<N: Num>(rect: Rect<N>) -> Seq<Op<N>> {
    seq![
        Op::Fill(rect, popup_bg(), edges_all(whole(8))),
        Op::Stroke(rect, popup_border(), whole(1), edges_all(whole(8))),
    ]
}

fn paint_panel<N: Num>(rect: Rect<N>, out: &mut Canvas<N>)
    ensures
        final(out).view() == old(out).view() + panel_ops(rect),
{
    let ghost start = out.view();
    let radius: Edges<N> = Edges::all(N::ratio(8, 1));
    out.fill_rect(rect, Color { r: 255, g: 255, b: 255, a: 255 }, radius);
    out.stroke_rect(rect, Color { r: 224, g: 224, b: 228, a: 255 }, N::ratio(1, 1), radius);
    assert(out.view() =~= start + panel_ops(rect));
}

/// A centered disc that takes `share` of a cell.
pub open spec fn bubble<N: Num>(rect: Rect<N>, share: N) -> Rect<N> {
    let d = N::mul_of(N::min_of(rect.h, rect.w), share);
    Rect {
        x: N::add_of(rect.x, half(N::sub_of(rect.w, d))),
        y: N::add_of(rect.y, half(N::sub_of(rect.h, d))),
        w: d,
        h: d,
    }
}

fn bubble_of<N: Num>(rect: Rect<N>, share: N) -> (r: Rect<N>)
    ensures
        r == bubble(rect, share),
{
    let d: N = rect.h.lesser_of(rect.w).times(share);
    Rect {
        x: rect.x.plus(halved(rect.w.minus(d))),
        y: rect.y.plus(halved(rect.h.minus(d))),
        w: d,
        h: d,
    }
}

// ---- calendar ----

/// What a popup hangs from: the widget's box, in a viewport, at a font size.
#[derive(Debug, Clone, Copy)]
pub struct Anchor<N> {
    pub box_rect: Rect<N>,
    pub viewport: Size<N>,
    pub font_size: N,
}

/// What a calendar shows: a month, and the list of years while it is open.
#[derive(Debug, Clone, Copy, PartialEq, Eq, Structural)]
pub struct Shown {
    pub year: i32,
    pub month: u32,
    pub year_list_open: bool,
    pub year_list_page_start: i32,
    pub min_year: i32,
    pub max_year: i32,
}

/// What the calendar of a date picker shows.
pub open spec fn shown_by(picker: DatePicker) -> Shown {
    Shown {
        year: picker.staged_year,
        month: picker.staged_month,
        year_list_open: picker.year_list_open,
        year_list_page_start: picker.year_list_page_start,
        min_year: picker.min_year,
        max_year: picker.max_year,
    }
}

/// What the calendar of a date picker shows.
pub fn staged_month(picker: &DatePicker) -> (r: Shown)
    ensures
        r == shown_by(*picker),
{
    Shown {
        year: picker.staged_year,
        month: picker.staged_month,
        year_list_open: picker.year_list_open,
        year_list_page_start: picker.year_list_page_start,
        min_year: picker.min_year,
        max_year: picker.max_year,
    }
}

/// The paged grid of years that stands in for the days while it is open.
pub struct YearList<N> {
    pub prev_page_rect: Rect<N>,
    pub next_page_rect: Rect<N>,
    pub range_label_rect: Rect<N>,
    pub year_cells: Vec<(Rect<N>, i32)>,
}

/// Where the parts of a calendar popup lie.
pub struct CalendarParts<N> {
    pub popup_rect: Rect<N>,
    pub month_prev_rect: Rect<N>,
    pub month_next_rect: Rect<N>,
    pub month_label_rect: Rect<N>,
    pub year_dropdown_rect: Rect<N>,
    pub year_prev_rect: Rect<N>,
    pub year_next_rect: Rect<N>,
    pub weekday_row: Rect<N>,
    pub year_list: Option<YearList<N>>,
    /// Cells of the month's grid, with the day each shows.
    pub day_cells: Vec<(Rect<N>, Option<u32>)>,
    pub cancel_rect: Rect<N>,
    pub confirm_rect: Rect<N>,
}

/// The model of a grid of years.
pub struct YearListView<N> {
    pub prev_page_rect: Rect<N>,
    pub next_page_rect: Rect<N>,
    pub range_label_rect: Rect<N>,
    pub year_cells: Seq<(Rect<N>, i32)>,
}

/// The model of a calendar popup's parts.
pub struct CalendarView<N> {
    pub popup_rect: Rect<N>,
    pub month_prev_rect: Rect<N>,
    pub month_next_rect: Rect<N>,
    pub month_label_rect: Rect<N>,
    pub year_dropdown_rect: Rect<N>,
    pub year_prev_rect: Rect<N>,
    pub year_next_rect: Rect<N>,
    pub weekday_row: Rect<N>,
    pub year_list: Option<YearListView<N>>,
    pub day_cells: Seq<(Rect<N>, Option<u32>)>,
    pub cancel_rect: Rect<N>,
    pub confirm_rect: Rect<N>,
}

impl<N> View for YearList<N> {
    type V = YearListView<N>;

    open spec fn view(&self) -> YearListView<N> {
        YearListView {
            prev_page_rect: self.prev_page_rect,
            next_page_rect: self.next_page_rect,
            range_label_rect: self.range_label_rect,
            year_cells: self.year_cells@,
        }
    }
}

impl<N> View for CalendarParts<N> {
    type V = CalendarView<N>;

    open spec fn view(&self) -> CalendarView<N> {
        CalendarView {
            popup_rect: self.popup_rect,
            month_prev_rect: self.month_prev_rect,
            month_next_rect: self.month_next_rect,
            month_label_rect: self.month_label_rect,
            year_dropdown_rect: self.year_dropdown_rect,
            year_prev_rect: self.year_prev_rect,
            year_next_rect: self.year_next_rect,
            weekday_row: self.weekday_row,
            year_list: match self.year_list {
                Some(list) => Some(list@),
                None => None,
            },
            day_cells: self.day_cells@,
            cancel_rect: self.cancel_rect,
            confirm_rect: self.confirm_rect,
        }
    }
}

pub open spec fn month_names() -> Seq<Seq<char>> {
    seq![
        "January"@,
        "February"@,
        "March"@,
        "April"@,
        "May"@,
        "June"@,
        "July"@,
        "August"@,
        "September"@,
        "October"@,
        "November"@,
        "December"@,
    ]
}

pub open spec fn weekday_labels() -> Seq<Seq<char>> {
    seq!["Su"@, "Mo"@, "Tu"@, "We"@, "Th"@, "Fr"@, "Sa"@]
}

/// The name of month `month`.
pub fn month_name(month: u32) -> (r: &'static str)
    requires
        1 <= month <= 12,
    ensures
        r@ == month_names()[month - 1],
{
    let names: [&'static str; 12] = [
        "January",
        "February",
        "March",
        "April",
        "May",
        "June",
        "July",
        "August",
        "September",
        "October",
        "November",
        "December",
    ];
    names[month as usize - 1]
}

fn weekday_label(i: usize) -> (r: &'static str)
    requires
        i < 7,
    ensures
        r@ == weekday_labels()[i as int],
{
    let labels: [&'static str; 7] = ["Su", "Mo", "Tu", "We", "Th", "Fr", "Sa"];
    labels[i]
}

/// The month and year steppers.
pub open spec fn header_ops<N: Num>(
    l: CalendarView<N>,
    p: Pointer<N>,
    font_size: N,
    year: int,
    month: int,
) -> Seq<Op<N>> {
    let title = centered(popup_text(), font_size, 600);
    button_ops(l.month_prev_rect, "<"@, font_size, p, false) + button_ops(
        l.month_next_rect,
        ">"@,
        font_size,
        p,
        false,
    ) + seq![Op::Text(month_names()[month - 1], vcentered(l.month_label_rect, font_size), title)]
        + highlight_ops(l.year_dropdown_rect, l.year_dropdown_rect, whole(6), p) + seq![
        Op::Text(
            int_text(year) + seq![' ', '\u{25be}'],
            vcentered(l.year_dropdown_rect, font_size),
            title,
        ),
    ] + button_ops(l.year_prev_rect, "<"@, font_size, p, false) + button_ops(
        l.year_next_rect,
        ">"@,
        font_size,
        p,
        false,
    )
}

fn paint_header<N: Num>(
    l: &CalendarParts<N>,
    p: Pointer<N>,
    font_size: N,
    year: i32,
    month: u32,
    out: &mut Canvas<N>,
)
    requires
        1 <= month <= 12,
    ensures
        final(out).view() == old(out).view() + header_ops(
            l@,
            p,
            font_size,
            year as int,
            month as int,
        ),
{
    let ghost start = out.view();
    let title: TextStyle<N> = center_style(text_color(), font_size, 600);
    draw_text_button(l.month_prev_rect, "<", font_size, p, false, out);
    draw_text_button(l.month_next_rect, ">", font_size, p, false, out);
    out.draw_text(month_name(month), vcenter_text(l.month_label_rect, font_size), title);
    paint_highlight(l.year_dropdown_rect, l.year_dropdown_rect, N::ratio(6, 1), p, out);
    let mut label: String = int_string(year);
    label.push(' ');
    label.push('\u{25be}');
    assert(label@ =~= int_text(year as int) + seq![' ', '\u{25be}']);
    out.draw_text(label.as_str(), vcenter_text(l.year_dropdown_rect, font_size), title);
    draw_text_button(l.year_prev_rect, "<", font_size, p, false, out);
    draw_text_button(l.year_next_rect, ">", font_size, p, false, out);
    assert(out.view() =~= start + header_ops(l@, p, font_size, year as int, month as int));
}

/// The first `n` labels of the weekday row.
pub open spec fn weekday_ops<N: Num>(row: Rect<N>, font_size: N, n: nat) -> Seq<Op<N>>
    decreases n,
{
    if n == 0 {
        Seq::empty()
    } else {
        let small = N::mul_of(font_size, N::ratio_of(85, 100));
        let w = N::div_of(row.w, whole(7));
        weekday_ops(row, font_size, (n - 1) as nat) + seq![
            Op::Text(
                weekday_labels()[n - 1],
                vcentered(
                    Rect {
                        x: N::add_of(row.x, N::mul_of(N::count_of((n - 1) as nat), w)),
                        y: row.y,
                        w,
                        h: row.h,
                    },
                    small,
                ),
                centered(popup_muted(), small, 500),
            ),
        ]
    }
}

fn paint_weekdays<N: Num>(row: Rect<N>, font_size: N, out: &mut Canvas<N>)
    ensures
        final(out).view() == old(out).view() + weekday_ops(row, font_size, 7),
{
    let ghost start = out.view();
    let small: N = font_size.times(N::ratio(85, 100));
    let w: N = row.w.over(N::ratio(7, 1));
    let style: TextStyle<N> = center_style(Color { r: 130, g: 130, b: 130, a: 255 }, small, 500);
    let mut i: usize = 0;
    assert(start + weekday_ops(row, font_size, 0) =~= start);
    while i < 7
        invariant
            0 <= i <= 7,
            small == N::mul_of(font_size, N::ratio_of(85, 100)),
            w == N::div_of(row.w, whole(7)),
            style == centered(popup_muted(), small, 500),
            out.view() == start + weekday_ops(row, font_size, i as nat),
        decreases 7 - i,
    {
        let rect = Rect { x: row.x.plus(N::count(i).times(w)), y: row.y, w, h: row.h };
        out.draw_text(weekday_label(i), vcenter_text(rect, small), style);
        i = i + 1;
        assert(out.view() =~= start + weekday_ops(row, font_size, i as nat));
    }
}

/// A cell of a grid: the chosen one in a disc, another highlighted under the
/// mouse.
pub open spec fn cell_ops<N: Num>(
    rect: Rect<N>,
    label: Seq<char>,
    font_size: N,
    chosen: bool,
    share: N,
    hover: Rect<N>,
    hover_radius: N,
    p: Pointer<N>,
) -> Seq<Op<N>> {
    if chosen {
        seq![
            Op::Fill(bubble(rect, share), indigo(), edges_all(half(bubble(rect, share).w))),
            Op::Text(label, vcentered(rect, font_size), centered(popup_bg(), font_size, 400)),
        ]
    } else {
        highlight_ops(rect, hover, hover_radius, p) + seq![
            Op::Text(label, vcentered(rect, font_size), centered(popup_text(), font_size, 400)),
        ]
    }
}

fn paint_cell<N: Num>(
    rect: Rect<N>,
    label: &str,
    font_size: N,
    chosen: bool,
    share: N,
    hover: Rect<N>,
    hover_radius: N,
    p: Pointer<N>,
    out: &mut Canvas<N>,
)
    ensures
        final(out).view() == old(out).view() + cell_ops(
            rect,
            label@,
            font_size,
            chosen,
            share,
            hover,
            hover_radius,
            p,
        ),
{
    let ghost start = out.view();
    if chosen {
        let b: Rect<N> = bubble_of(rect, share);
        out.fill_rect(b, accent(), Edges::all(halved(b.w)));
        let white = Color { r: 255, g: 255, b: 255, a: 255 };
        out.draw_text(label, vcenter_text(rect, font_size), center_style(white, font_size, 400));
    } else {
        paint_highlight(rect, hover, hover_radius, p, out);
        out.draw_text(
            label,
            vcenter_text(rect, font_size),
            center_style(text_color(), font_size, 400),
        );
    }
    assert(out.view() =~= start + cell_ops(
        rect,
        label@,
        font_size,
        chosen,
        share,
        hover,
        hover_radius,
        p,
    ));
}

/// The first `n` cells of the grid of years.
pub open spec fn year_cells_ops<N: Num>(
    cells: Seq<(Rect<N>, i32)>,
    p: Pointer<N>,
    font_size: N,
    year: int,
    n: nat,
) -> Seq<Op<N>>
    decreases n,
{
    if n == 0 {
        Seq::empty()
    } else {
        let (rect, y) = cells[n - 1];
        year_cells_ops(cells, p, font_size, year, (n - 1) as nat) + cell_ops(
            rect,
            int_text(y as int),
            font_size,
            y == year,
            N::ratio_of(7, 10),
            rect,
            whole(6),
            p,
        )
    }
}

/// The grid of years: page buttons, the range it shows, and the years.
pub open spec fn year_list_ops<N: Num>(
    list: YearListView<N>,
    p: Pointer<N>,
    font_size: N,
    year: int,
) -> Seq<Op<N>> {
    let cells = list.year_cells;
    button_ops(list.prev_page_rect, "<"@, font_size, p, false) + button_ops(
        list.next_page_rect,
        ">"@,
        font_size,
        p,
        false,
    ) + (if cells.len() > 0 {
        seq![
            Op::Text(
                int_text(cells[0].1 as int) + seq![' ', '\u{2013}', ' '] + int_text(
                    cells.last().1 as int,
                ),
                vcentered(list.range_label_rect, font_size),
                centered(popup_text(), font_size, 600),
            ),
        ]
    } else {
        Seq::empty()
    }) + year_cells_ops(cells, p, font_size, year, cells.len())
}

fn paint_year_list<N: Num>(
    list: &YearList<N>,
    p: Pointer<N>,
    font_size: N,
    year: i32,
    out: &mut Canvas<N>,
)
    ensures
        final(out).view() == old(out).view() + year_list_ops(list@, p, font_size, year as int),
{
    let ghost start = out.view();
    let cells: &Vec<(Rect<N>, i32)> = &list.year_cells;
    let n: usize = cells.len();
    draw_text_button(list.prev_page_rect, "<", font_size, p, false, out);
    draw_text_button(list.next_page_rect, ">", font_size, p, false, out);
    if n > 0 {
        let mut label: String = int_string(cells[0].1);
        label.push(' ');
        label.push('\u{2013}');
        label.push(' ');
        label.append(int_string(cells[n - 1].1).as_str());
        assert(label@ =~= int_text(cells@[0].1 as int) + seq![' ', '\u{2013}', ' '] + int_text(
            cells@.last().1 as int,
        ));
        out.draw_text(
            label.as_str(),
            vcenter_text(list.range_label_rect, font_size),
            center_style(text_color(), font_size, 600),
        );
    }
    let ghost head = out.view();
    let mut k: usize = 0;
    assert(head + year_cells_ops(cells@, p, font_size, year as int, 0) =~= head);
    while k < n
        invariant
            0 <= k <= n,
            n == cells@.len(),
            out.view() == head + year_cells_ops(cells@, p, font_size, year as int, k as nat),
        decreases n - k,
    {
        let rect: Rect<N> = cells[k].0;
        let y: i32 = cells[k].1;
        paint_cell(
            rect,
            int_string(y).as_str(),
            font_size,
            y == year,
            N::ratio(7, 10),
            rect,
            N::ratio(6, 1),
            p,
            out,
        );
        k = k + 1;
        assert(out.view() =~= head + year_cells_ops(cells@, p, font_size, year as int, k as nat));
    }
    assert(out.view() =~= start + year_list_ops(list@, p, font_size, year as int));
}

/// The first `n` cells of the month's grid; blank cells show nothing.
pub open spec fn day_cells_ops<N: Num>(
    cells: Seq<(Rect<N>, Option<u32>)>,
    p: Pointer<N>,
    font_size: N,
    staged_day: int,
    n: nat,
) -> Seq<Op<N>>
    decreases n,
{
    if n == 0 {
        Seq::empty()
    } else {
        let (rect, day) = cells[n - 1];
        let share = N::ratio_of(72, 100);
        day_cells_ops(cells, p, font_size, staged_day, (n - 1) as nat) + (match day {
            Some(d) => cell_ops(
                rect,
                decimal(d as nat),
                font_size,
                d == staged_day,
                share,
                bubble(rect, share),
                half(bubble(rect, share).w),
                p,
            ),
            None => Seq::empty(),
        })
    }
}

fn paint_days<N: Num>(
    cells: &Vec<(Rect<N>, Option<u32>)>,
    p: Pointer<N>,
    font_size: N,
    staged_day: u32,
    out: &mut Canvas<N>,
)
    ensures
        final(out).view() == old(out).view() + day_cells_ops(
            cells@,
            p,
            font_size,
            staged_day as int,
            cells@.len(),
        ),
{
    let ghost start = out.view();
    let share: N = N::ratio(72, 100);
    let mut k: usize = 0;
    assert(start + day_cells_ops(cells@, p, font_size, staged_day as int, 0) =~= start);
    while k < cells.len()
        invariant
            0 <= k <= cells@.len(),
            share == N::ratio_of(72, 100),
            out.view() == start + day_cells_ops(
                cells@,
                p,
                font_size,
                staged_day as int,
                k as nat,
            ),
        decreases cells@.len() - k,
    {
        let rect: Rect<N> = cells[k].0;
        if let Some(d) = cells[k].1 {
            let b: Rect<N> = bubble_of(rect, share);
            paint_cell(
                rect,
                decimal_string(d as u64).as_str(),
                font_size,
                d == staged_day,
                share,
                b,
                halved(b.w),
                p,
                out,
            );
        }
        k = k + 1;
        assert(out.view() =~= start + day_cells_ops(
            cells@,
            p,
            font_size,
            staged_day as int,
            k as nat,
        ));
    }
}

/// A calendar popup: panel, steppers and weekdays; then the grid of years while
/// it is open, else the days and the footer.
pub open spec fn calendar_ops<N: Num>(
    l: CalendarView<N>,
    p: Pointer<N>,
    font_size: N,
    year: int,
    month: int,
    staged_day: int,
) -> Seq<Op<N>> {
    panel_ops(l.popup_rect) + header_ops(l, p, font_size, year, month) + weekday_ops(
        l.weekday_row,
        font_size,
        7,
    ) + (match l.year_list {
        Some(list) => year_list_ops(list, p, font_size, year),
        None => day_cells_ops(l.day_cells, p, font_size, staged_day, l.day_cells.len())
            + footer_ops(l.cancel_rect, l.confirm_rect, font_size, p),
    })
}

/// Draws a calendar popup.
pub fn paint_calendar<N: Num>(
    l: &CalendarParts<N>,
    p: Pointer<N>,
    font_size: N,
    year: i32,
    month: u32,
    staged_day: u32,
    out: &mut Canvas<N>,
)
    requires
        1 <= month <= 12,
    ensures
        final(out).view() == old(out).view() + calendar_ops(
            l@,
            p,
            font_size,
            year as int,
            month as int,
            staged_day as int,
        ),
{
    let ghost start = out.view();
    paint_panel(l.popup_rect, out);
    paint_header(l, p, font_size, year, month, out);
    paint_weekdays(l.weekday_row, font_size, out);
    match &l.year_list {
        Some(list) => {
            paint_year_list(list, p, font_size, year, out);
        },
        None => {
            paint_days(&l.day_cells, p, font_size, staged_day, out);
            paint_footer(l.cancel_rect, l.confirm_rect, font_size, p, out);
        },
    }
    assert(out.view() =~= start + calendar_ops(
        l@,
        p,
        font_size,
        year as int,
        month as int,
        staged_day as int,
    ));
}

// ---- clock ----

/// Where the parts of a clock popup lie, and where its hand points.
pub struct ClockParts<N> {
    pub popup_rect: Rect<N>,
    pub hour_segment_rect: Rect<N>,
    pub minute_segment_rect: Rect<N>,
    /// `None` for a picker without seconds.
    pub second_segment_rect: Option<Rect<N>>,
    pub dial_area: Rect<N>,
    pub dial_center: Point<N>,
    pub dial_radius: N,
    /// Where the dial's twelve marks lie: hours 1 to 12, or every fifth unit
    /// from 0 on.
    pub marks: Vec<Point<N>>,
    /// How far the hand is turned from straight up, clockwise, in degrees.
    pub hand_deg: N,
    pub ampm_rect: Rect<N>,
    pub cancel_rect: Rect<N>,
    pub confirm_rect: Rect<N>,
}

/// The model of a clock popup's parts.
pub struct ClockView<N> {
    pub popup_rect: Rect<N>,
    pub hour_segment_rect: Rect<N>,
    pub minute_segment_rect: Rect<N>,
    pub second_segment_rect: Option<Rect<N>>,
    pub dial_area: Rect<N>,
    pub dial_center: Point<N>,
    pub dial_radius: N,
    pub marks: Seq<Point<N>>,
    pub hand_deg: N,
    pub ampm_rect: Rect<N>,
    pub cancel_rect: Rect<N>,
    pub confirm_rect: Rect<N>,
}

impl<N> View for ClockParts<N> {
    type V = ClockView<N>;

    open spec fn view(&self) -> ClockView<N> {
        ClockView {
            popup_rect: self.popup_rect,
            hour_segment_rect: self.hour_segment_rect,
            minute_segment_rect: self.minute_segment_rect,
            second_segment_rect: self.second_segment_rect,
            dial_area: self.dial_area,
            dial_center: self.dial_center,
            dial_radius: self.dial_radius,
            marks: self.marks@,
            hand_deg: self.hand_deg,
            ampm_rect: self.ampm_rect,
            cancel_rect: self.cancel_rect,
            confirm_rect: self.confirm_rect,
        }
    }
}

pub open spec fn two_digits(n: nat) -> Seq<char> {
    pad_zeros(decimal(n), 2)
}

/// One of the segments that show and choose the unit to set.
pub open spec fn segment_ops<N: Num>(
    rect: Rect<N>,
    label: Seq<char>,
    active: bool,
    p: Pointer<N>,
    font_size: N,
) -> Seq<Op<N>> {
    let inner = inset_rect(rect, edges_all(whole(4)));
    let big = N::mul_of(font_size, N::ratio_of(14, 10));
    (if active {
        seq![Op::Fill(inner, indigo_light(), edges_all(whole(8)))]
    } else {
        highlight_ops(inner, inner, whole(8), p)
    }) + seq![
        Op::Text(
            label,
            vcentered(rect, big),
            centered(
                if active {
                    indigo()
                } else {
                    popup_text()
                },
                big,
                600,
            ),
        ),
    ]
}

fn paint_segment<N: Num>(
    rect: Rect<N>,
    label: &str,
    active: bool,
    p: Pointer<N>,
    font_size: N,
    out: &mut Canvas<N>,
)
    ensures
        final(out).view() == old(out).view() + segment_ops(rect, label@, active, p, font_size),
{
    let ghost start = out.view();
    let inner: Rect<N> = rect.inset(Edges::all(N::ratio(4, 1)));
    let big: N = font_size.times(N::ratio(14, 10));
    if active {
        out.fill_rect(
            inner,
            Color { r: 0xe0, g: 0xe7, b: 0xff, a: 255 },
            Edges::all(N::ratio(8, 1)),
        );
    } else {
        paint_highlight(inner, inner, N::ratio(8, 1), p, out);
    }
    let color: Color = if active {
        accent()
    } else {
        text_color()
    };
    out.draw_text(label, vcenter_text(rect, big), center_style(color, big, 600));
    assert(out.view() =~= start + segment_ops(rect, label@, active, p, font_size));
}

/// The segments: the hour on a 12-hour dial, the minute, and the second if it is
/// shown.
pub open spec fn segments_ops<N: Num>(
    l: ClockView<N>,
    picker: TimePicker,
    p: Pointer<N>,
    font_size: N,
) -> Seq<Op<N>> {
    segment_ops(
        l.hour_segment_rect,
        two_digits(twelve_hour(picker.staged_hour as int).0 as nat),
        picker.mode == ClockMode::Hour,
        p,
        font_size,
    ) + segment_ops(
        l.minute_segment_rect,
        two_digits(picker.staged_minute as nat),
        picker.mode == ClockMode::Minute,
        p,
        font_size,
    ) + (match l.second_segment_rect {
        Some(r) => segment_ops(
            r,
            two_digits(picker.staged_second as nat),
            picker.mode == ClockMode::Second,
            p,
            font_size,
        ),
        None => Seq::empty(),
    })
}

/// What the `k`th mark of the dial stands for.
pub open spec fn mark_value(mode: ClockMode, k: int) -> int {
    if mode == ClockMode::Hour {
        k + 1
    } else {
        k * 5
    }
}

/// The mark that is chosen: the staged hour, or the mark nearest to the staged
/// minute or second.
pub open spec fn chosen_mark(picker: TimePicker) -> int {
    match picker.mode {
        ClockMode::Hour => twelve_hour(picker.staged_hour as int).0,
        ClockMode::Minute => nearest_mark(picker.staged_minute as int),
        ClockMode::Second => nearest_mark(picker.staged_second as int),
    }
}

pub open spec fn mark_label(mode: ClockMode, v: int) -> Seq<char> {
    if mode == ClockMode::Hour {
        decimal(v as nat)
    } else {
        two_digits(v as nat)
    }
}

/// The first `n` marks of the dial.
pub open spec fn marks_ops<N: Num>(
    l: ClockView<N>,
    picker: TimePicker,
    font_size: N,
    n: nat,
) -> Seq<Op<N>>
    decreases n,
{
    if n == 0 {
        Seq::empty()
    } else {
        let r = N::max_of(whole(18), font_size);
        let at = l.marks[n - 1];
        let rect = Rect {
            x: N::sub_of(at.x, r),
            y: N::sub_of(at.y, r),
            w: N::mul_of(r, whole(2)),
            h: N::mul_of(r, whole(2)),
        };
        let v = mark_value(picker.mode, n - 1);
        let chosen = v == chosen_mark(picker);
        let size = N::mul_of(font_size, N::ratio_of(9, 10));
        marks_ops(l, picker, font_size, (n - 1) as nat) + (if chosen {
            seq![Op::Fill(inset_rect(rect, edges_all(whole(2))), indigo(), edges_all(r))]
        } else {
            Seq::empty()
        }) + seq![
            Op::Text(
                mark_label(picker.mode, v),
                vcentered(rect, size),
                centered(
                    if chosen {
                        popup_bg()
                    } else {
                        popup_text()
                    },
                    size,
                    500,
                ),
            ),
        ]
    }
}

fn paint_marks<N: Num>(
    l: &ClockParts<N>,
    picker: &TimePicker,
    font_size: N,
    out: &mut Canvas<N>,
)
    requires
        l.marks@.len() >= 12,
    ensures
        final(out).view() == old(out).view() + marks_ops(l@, *picker, font_size, 12),
{
    let ghost start = out.view();
    let (h12, _) = to_12_hour(picker.staged_hour);
    let hours: bool = picker.mode == ClockMode::Hour;
    let chosen_value: u32 = match picker.mode {
        ClockMode::Hour => h12,
        ClockMode::Minute => nearest_tick(picker.staged_minute),
        ClockMode::Second => nearest_tick(picker.staged_second),
    };
    let r: N = N::ratio(18, 1).greater_of(font_size);
    let size: N = font_size.times(N::ratio(9, 10));
    let mut k: u32 = 0;
    assert(start + marks_ops(l@, *picker, font_size, 0) =~= start);
    while k < 12
        invariant
            0 <= k <= 12,
            l.marks@.len() >= 12,
            hours == (picker.mode == ClockMode::Hour),
            chosen_value as int == chosen_mark(*picker),
            r == N::max_of(whole(18), font_size),
            size == N::mul_of(font_size, N::ratio_of(9, 10)),
            out.view() == start + marks_ops(l@, *picker, font_size, k as nat),
        decreases 12 - k,
    {
        let at: Point<N> = l.marks[k as usize];
        let side: N = r.times(N::ratio(2, 1));
        let rect = Rect { x: at.x.minus(r), y: at.y.minus(r), w: side, h: side };
        let v: u32 = if hours {
            k + 1
        } else {
            k * 5
        };
        let chosen: bool = v == chosen_value;
        if chosen {
            out.fill_rect(rect.inset(Edges::all(N::ratio(2, 1))), accent(), Edges::all(r));
        }
        let label: String = if hours {
            decimal_string(v as u64)
        } else {
            padded_decimal(v as u64, 2)
        };
        let color: Color = if chosen {
            Color { r: 255, g: 255, b: 255, a: 255 }
        } else {
            text_color()
        };
        out.draw_text(label.as_str(), vcenter_text(rect, size), center_style(color, size, 500));
        k = k + 1;
        assert(out.view() =~= start + marks_ops(l@, *picker, font_size, k as nat));
    }
}

/// The hand: a thin bar from the center straight up, turned clockwise, and a dot.
pub open spec fn hand_ops<N: Num>(l: ClockView<N>) -> Seq<Op<N>> {
    let c = l.dial_center;
    seq![
        Op::PushTransform(Transform2D { rotate_deg: l.hand_deg, ..identity_transform() }, c),
        Op::Fill(
            Rect {
                x: N::sub_of(c.x, half(whole(3))),
                y: N::sub_of(c.y, l.dial_radius),
                w: whole(3),
                h: l.dial_radius,
            },
            indigo(),
            edges_all(half(whole(3))),
        ),
        Op::PopTransform,
        Op::Fill(
            Rect {
                x: N::sub_of(c.x, half(whole(8))),
                y: N::sub_of(c.y, half(whole(8))),
                w: whole(8),
                h: whole(8),
            },
            indigo(),
            edges_all(half(whole(8))),
        ),
    ]
}

fn paint_hand<N: Num>(l: &ClockParts<N>, out: &mut Canvas<N>)
    ensures
        final(out).view() == old(out).view() + hand_ops(l@),
{
    let ghost start = out.view();
    let c: Point<N> = l.dial_center;
    let three: N = N::ratio(3, 1);
    let eight: N = N::ratio(8, 1);
    let still: Transform2D<N> = Transform2D::identity();
    let turn = Transform2D {
        translate_x: still.translate_x,
        translate_y: still.translate_y,
        scale_x: still.scale_x,
        scale_y: still.scale_y,
        rotate_deg: l.hand_deg,
        skew_x_deg: still.skew_x_deg,
        skew_y_deg: still.skew_y_deg,
    };
    out.push_transform(turn, c);
    out.fill_rect(
        Rect {
            x: c.x.minus(halved(three)),
            y: c.y.minus(l.dial_radius),
            w: three,
            h: l.dial_radius,
        },
        accent(),
        Edges::all(halved(three)),
    );
    out.pop_transform();
    out.fill_rect(
        Rect { x: c.x.minus(halved(eight)), y: c.y.minus(halved(eight)), w: eight, h: eight },
        accent(),
        Edges::all(halved(eight)),
    );
    assert(out.view() =~= start + hand_ops(l@));
}

/// One half of the AM/PM toggle.
pub open spec fn toggle_ops<N: Num>(
    rect: Rect<N>,
    label: Seq<char>,
    active: bool,
    p: Pointer<N>,
    font_size: N,
) -> Seq<Op<N>> {
    let inner = inset_rect(rect, edges_all(whole(2)));
    let small = N::mul_of(font_size, N::ratio_of(85, 100));
    (if active {
        seq![Op::Fill(inner, indigo(), edges_all(half(rect.h)))]
    } else {
        highlight_ops(rect, inner, half(rect.h), p)
    }) + seq![
        Op::Text(
            label,
            vcentered(rect, small),
            centered(
                if active {
                    popup_bg()
                } else {
                    popup_text()
                },
                small,
                600,
            ),
        ),
    ]
}

fn paint_toggle<N: Num>(
    rect: Rect<N>,
    label: &str,
    active: bool,
    p: Pointer<N>,
    font_size: N,
    out: &mut Canvas<N>,
)
    ensures
        final(out).view() == old(out).view() + toggle_ops(rect, label@, active, p, font_size),
{
    let ghost start = out.view();
    let inner: Rect<N> = rect.inset(Edges::all(N::ratio(2, 1)));
    let small: N = font_size.times(N::ratio(85, 100));
    if active {
        out.fill_rect(inner, accent(), Edges::all(halved(rect.h)));
    } else {
        paint_highlight(rect, inner, halved(rect.h), p, out);
    }
    let color: Color = if active {
        Color { r: 255, g: 255, b: 255, a: 255 }
    } else {
        text_color()
    };
    out.draw_text(label, vcenter_text(rect, small), center_style(color, small, 600));
    assert(out.view() =~= start + toggle_ops(rect, label@, active, p, font_size));
}

/// The AM/PM toggle: two halves, the active one filled.
pub open spec fn ampm_ops<N: Num>(rect: Rect<N>, is_pm: bool, p: Pointer<N>, font_size: N) -> Seq<
    Op<N>,
> {
    let w = half(rect.w);
    toggle_ops(Rect { x: rect.x, y: rect.y, w, h: rect.h }, "AM"@, !is_pm, p, font_size)
        + toggle_ops(
        Rect { x: N::add_of(rect.x, w), y: rect.y, w, h: rect.h },
        "PM"@,
        is_pm,
        p,
        font_size,
    )
}

/// A clock popup: panel, segments, dial with its marks and hand, AM/PM toggle,
/// footer.
pub open spec fn clock_ops<N: Num>(
    l: ClockView<N>,
    picker: TimePicker,
    p: Pointer<N>,
    font_size: N,
) -> Seq<Op<N>> {
    panel_ops(l.popup_rect) + segments_ops(l, picker, p, font_size) + dial_ops(
        l,
        picker,
        font_size,
    ) + ampm_ops(l.ampm_rect, twelve_hour(picker.staged_hour as int).1, p, font_size) + footer_ops(
        l.cancel_rect,
        l.confirm_rect,
        font_size,
        p,
    )
}

/// The dial: its face, its marks and its hand.
pub open spec fn dial_ops<N: Num>(l: ClockView<N>, picker: TimePicker, font_size: N) -> Seq<
    Op<N>,
> {
    seq![Op::Fill(l.dial_area, dial_face(), edges_all(half(l.dial_area.w)))] + marks_ops(
        l,
        picker,
        font_size,
        12,
    ) + hand_ops(l)
}

fn paint_dial<N: Num>(l: &ClockParts<N>, picker: &TimePicker, font_size: N, out: &mut Canvas<N>)
    requires
        l.marks@.len() >= 12,
    ensures
        final(out).view() == old(out).view() + dial_ops(l@, *picker, font_size),
{
    let ghost start = out.view();
    let face = Color { r: 244, g: 244, b: 247, a: 255 };
    out.fill_rect(l.dial_area, face, Edges::all(halved(l.dial_area.w)));
    paint_marks(l, picker, font_size, out);
    paint_hand(l, out);
    assert(out.view() =~= start + dial_ops(l@, *picker, font_size));
}

fn paint_ampm<N: Num>(r: Rect<N>, is_pm: bool, p: Pointer<N>, font_size: N, out: &mut Canvas<N>)
    ensures
        final(out).view() == old(out).view() + ampm_ops(r, is_pm, p, font_size),
{
    let ghost start = out.view();
    let w: N = halved(r.w);
    paint_toggle(Rect { x: r.x, y: r.y, w, h: r.h }, "AM", !is_pm, p, font_size, out);
    paint_toggle(Rect { x: r.x.plus(w), y: r.y, w, h: r.h }, "PM", is_pm, p, font_size, out);
    assert(out.view() =~= start + ampm_ops(r, is_pm, p, font_size));
}

proof fn lemma_concat5<T>(s: Seq<T>, a: Seq<T>, b: Seq<T>, c: Seq<T>, d: Seq<T>, e: Seq<T>)
    ensures
        s + a + b + c + d + e == s + (a + b + c + d + e),
{
    assert(s + a + b + c + d + e =~= s + (a + b + c + d + e));
}

fn paint_segments<N: Num>(
    l: &ClockParts<N>,
    picker: &TimePicker,
    p: Pointer<N>,
    font_size: N,
    out: &mut Canvas<N>,
)
    ensures
        final(out).view() == old(out).view() + segments_ops(l@, *picker, p, font_size),
{
    let ghost start = out.view();
    let (h12, _) = to_12_hour(picker.staged_hour);
    paint_segment(
        l.hour_segment_rect,
        padded_decimal(h12 as u64, 2).as_str(),
        picker.mode == ClockMode::Hour,
        p,
        font_size,
        out,
    );
    paint_segment(
        l.minute_segment_rect,
        padded_decimal(picker.staged_minute as u64, 2).as_str(),
        picker.mode == ClockMode::Minute,
        p,
        font_size,
        out,
    );
    if let Some(r) = l.second_segment_rect {
        paint_segment(
            r,
            padded_decimal(picker.staged_second as u64, 2).as_str(),
            picker.mode == ClockMode::Second,
            p,
            font_size,
            out,
        );
    }
    assert(out.view() =~= start + segments_ops(l@, *picker, p, font_size));
}

/// Draws a clock popup.
pub fn paint_clock<N: Num>(
    l: &ClockParts<N>,
    picker: &TimePicker,
    p: Pointer<N>,
    font_size: N,
    out: &mut Canvas<N>,
)
    requires
        l.marks@.len() >= 12,
    ensures
        final(out).view() == old(out).view() + clock_ops(l@, *picker, p, font_size),
{
    let ghost start = out.view();
    paint_panel(l.popup_rect, out);
    paint_segments(l, picker, p, font_size, out);
    paint_dial(l, picker, font_size, out);
    let (_, is_pm) = to_12_hour(picker.staged_hour);
    paint_ampm(l.ampm_rect, is_pm, p, font_size, out);
    paint_footer(l.cancel_rect, l.confirm_rect, font_size, p, out);
    proof {
        lemma_concat5(
            start,
            panel_ops(l.popup_rect),
            segments_ops(l@, *picker, p, font_size),
            dial_ops(l@, *picker, font_size),
            ampm_ops(l.ampm_rect, is_pm, p, font_size),
            footer_ops(l.cancel_rect, l.confirm_rect, font_size, p),
        );
    }
}

// ---- the popups of nodes ----

/// Where the parts of a date-and-time popup lie; of the two halves, those that
/// show.
pub struct DateTimeParts<N> {
    pub popup_rect: Rect<N>,
    pub tab_calendar_rect: Rect<N>,
    pub tab_clock_rect: Rect<N>,
    pub calendar: Option<CalendarParts<N>>,
    pub clock: Option<ClockParts<N>>,
}

/// The model of a date-and-time popup's parts.
pub struct DateTimeView<N> {
    pub popup_rect: Rect<N>,
    pub tab_calendar_rect: Rect<N>,
    pub tab_clock_rect: Rect<N>,
    pub calendar: Option<CalendarView<N>>,
    pub clock: Option<ClockView<N>>,
}

impl<N> View for DateTimeParts<N> {
    type V = DateTimeView<N>;

    open spec fn view(&self) -> DateTimeView<N> {
        DateTimeView {
            popup_rect: self.popup_rect,
            tab_calendar_rect: self.tab_calendar_rect,
            tab_clock_rect: self.tab_clock_rect,
            calendar: match self.calendar {
                Some(c) => Some(c@),
                None => None,
            },
            clock: match self.clock {
                Some(c) => Some(c@),
                None => None,
            },
        }
    }
}

/// A date's popup; nothing for any other node.
pub open spec fn date_popup_ops<N: Num>(
    node: Node<N>,
    l: CalendarView<N>,
    p: Pointer<N>,
) -> Seq<Op<N>> {
    match node.kind {
        NodeKind::Date { picker, .. } => calendar_ops(
            l,
            p,
            node.style.font_size,
            picker.staged_year as int,
            picker.staged_month as int,
            picker.staged_day as int,
        ),
        _ => Seq::empty(),
    }
}

/// Draws the open popup of a date.
pub fn paint_date_popup<N: Num>(
    node: &Node<N>,
    l: &CalendarParts<N>,
    p: Pointer<N>,
    out: &mut Canvas<N>,
)
    requires
        node.kind matches NodeKind::Date { picker, .. } ==> 1 <= picker.staged_month <= 12,
    ensures
        final(out).view() == old(out).view() + date_popup_ops(*node, l@, p),
{
    let ghost start = out.view();
    match &node.kind {
        NodeKind::Date { picker, .. } => {
            paint_calendar(
                l,
                p,
                node.style.font_size,
                picker.staged_year,
                picker.staged_month,
                picker.staged_day,
                out,
            );
        },
        _ => {},
    }
    assert(out.view() =~= start + date_popup_ops(*node, l@, p));
}

/// A time's popup; nothing for any other node.
pub open spec fn time_popup_ops<N: Num>(node: Node<N>, l: ClockView<N>, p: Pointer<N>) -> Seq<
    Op<N>,
> {
    match node.kind {
        NodeKind::Time { picker, .. } => clock_ops(l, picker, p, node.style.font_size),
        _ => Seq::empty(),
    }
}

/// Draws the open popup of a time.
pub fn paint_time_popup<N: Num>(
    node: &Node<N>,
    l: &ClockParts<N>,
    p: Pointer<N>,
    out: &mut Canvas<N>,
)
    requires
        l.marks@.len() >= 12,
    ensures
        final(out).view() == old(out).view() + time_popup_ops(*node, l@, p),
{
    let ghost start = out.view();
    match &node.kind {
        NodeKind::Time { picker, .. } => {
            paint_clock(l, picker, p, node.style.font_size, out);
        },
        _ => {},
    }
    assert(out.view() =~= start + time_popup_ops(*node, l@, p));
}

/// The tab row of a date-and-time popup, on its panel.
pub open spec fn tab_row_ops<N: Num>(l: DateTimeView<N>, tab: DateTimeTab, p: Pointer<N>, font_size: N) -> Seq<
    Op<N>,
> {
    panel_ops(l.popup_rect) + button_ops(
        l.tab_calendar_rect,
        "CALENDAR"@,
        font_size,
        p,
        tab == DateTimeTab::Calendar,
    ) + button_ops(
        l.tab_clock_rect,
        "CLOCK"@,
        font_size,
        p,
        tab == DateTimeTab::Clock,
    )
}

/// A date-and-time popup: the tab row, and the halves that show; nothing for any
/// other node.
pub open spec fn datetime_popup_ops<N: Num>(
    node: Node<N>,
    l: DateTimeView<N>,
    p: Pointer<N>,
) -> Seq<Op<N>> {
    match node.kind {
        NodeKind::DateTime { date_picker, time_picker, active_tab, .. } => {
            let size = node.style.font_size;
            let days = match l.calendar {
                Some(c) => calendar_ops(
                    c,
                    p,
                    size,
                    date_picker.staged_year as int,
                    date_picker.staged_month as int,
                    date_picker.staged_day as int,
                ),
                None => Seq::empty(),
            };
            let dial = match l.clock {
                Some(c) => clock_ops(c, time_picker, p, size),
                None => Seq::empty(),
            };
            tab_row_ops(l, active_tab, p, size) + days + dial
        },
        _ => Seq::empty(),
    }
}

fn paint_tab_row<N: Num>(
    l: &DateTimeParts<N>,
    tab: DateTimeTab,
    p: Pointer<N>,
    font_size: N,
    out: &mut Canvas<N>,
)
    ensures
        final(out).view() == old(out).view() + tab_row_ops(l@, tab, p, font_size),
{
    let ghost start = out.view();
    paint_panel(l.popup_rect, out);
    draw_text_button(
        l.tab_calendar_rect,
        "CALENDAR",
        font_size,
        p,
        tab == DateTimeTab::Calendar,
        out,
    );
    draw_text_button(
        l.tab_clock_rect,
        "CLOCK",
        font_size,
        p,
        tab == DateTimeTab::Clock,
        out,
    );
    assert(out.view() =~= start + tab_row_ops(l@, tab, p, font_size));
}

/// Draws the open popup of a date and time.
pub fn paint_datetime_popup<N: Num>(
    node: &Node<N>,
    l: &DateTimeParts<N>,
    p: Pointer<N>,
    out: &mut Canvas<N>,
)
    requires
        node.kind matches NodeKind::DateTime { date_picker, .. } ==> (l.calendar is Some ==> 1
            <= date_picker.staged_month <= 12),
        l.clock matches Some(c) ==> c.marks@.len() >= 12,
    ensures
        final(out).view() == old(out).view() + datetime_popup_ops(*node, l@, p),
{
    let ghost start = out.view();
    match &node.kind {
        NodeKind::DateTime { date_picker, time_picker, active_tab, .. } => {
            let size: N = node.style.font_size;
            paint_tab_row(l, *active_tab, p, size, out);
            if let Some(c) = &l.calendar {
                paint_calendar(
                    c,
                    p,
                    size,
                    date_picker.staged_year,
                    date_picker.staged_month,
                    date_picker.staged_day,
                    out,
                );
            }
            if let Some(c) = &l.clock {
                paint_clock(c, time_picker, p, size, out);
            }
        },
        _ => {},
    }
    assert(out.view() =~= start + datetime_popup_ops(*node, l@, p));
}

/// Exactly one of the dial's twelve marks is chosen.
pub proof fn law_one_mark_is_chosen(picker: TimePicker)
    ensures
        exists|k: int| 0 <= k < 12 && #[trigger] mark_value(picker.mode, k) == chosen_mark(picker),
        forall|a: int, b: int|
            #[trigger] mark_value(picker.mode, a) == chosen_mark(picker) && #[trigger] mark_value(
                picker.mode,
                b,
            ) == chosen_mark(picker) ==> a == b,
{
    let v = chosen_mark(picker);
    let k = if picker.mode == ClockMode::Hour {
        v - 1
    } else {
        v / 5
    };
    assert(mark_value(picker.mode, k) == v);
}

} // verus!
