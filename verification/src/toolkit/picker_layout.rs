//! Where the parts of a date or time picker's popup lie if the painting backend has
//! no places of its own for them: in a panel right below the widget's box, or above
//! it where there is room above alone.

use vstd::prelude::*;
use crate::toolkit::arena::{ClockMode, DateTimeTab, TimePicker};
use crate::toolkit::datetime::grid_day;
use crate::toolkit::geometry::{Point, Rect};
use crate::toolkit::num::{whole, Num};
use crate::toolkit::paint::{half, halved};
use crate::toolkit::pickers::{
    Anchor, CalendarParts, CalendarView, ClockParts, ClockView, DateTimeParts, DateTimeView, Shown,
    YearList, YearListView,
};
use crate::toolkit::popup_layout::{
    calendar_metrics, calendar_sizes, cell_rect, clock_metrics, clock_row, layout_calendar,
    next_rect_of, prev_rect_of, unit_count, CalendarLayout,
};

verus! {

// ---- the panel ----

/// A panel of height `h`: as wide as the box and right below it; above it, if it
/// reaches out of the viewport below and not above.
pub open spec fn panel_at<N: Num>(at: Anchor<N>, h: N) -> Rect<N> {
    let below = N::add_of(at.box_rect.y, at.box_rect.h);
    let above = N::sub_of(at.box_rect.y, h);
    Rect {
        x: at.box_rect.x,
        y: if N::lt_of(at.viewport.h, N::add_of(below, h)) && N::le_of(whole(0), above) {
            above
        } else {
            below
        },
        w: at.box_rect.w,
        h,
    }
}

fn place_panel<N: Num>(at: &Anchor<N>, h: N) -> (r: Rect<N>)
    ensures
        r == panel_at(*at, h),
{
    let below: N = at.box_rect.y.plus(at.box_rect.h);
    let above: N = at.box_rect.y.minus(h);
    let y: N = if at.viewport.h.less(below.plus(h)) && N::ratio(0, 1).at_most(above) {
        above
    } else {
        below
    };
    Rect { x: at.box_rect.x, y, w: at.box_rect.w, h }
}

// ---- calendar ----

/// How high a calendar is: a header, the weekdays, six rows of days, a footer.
pub open spec fn calendar_height<N: Num>(font_size: N) -> N {
    let (header_h, cell_h) = calendar_sizes(font_size);
    N::add_of(N::add_of(header_h, N::mul_of(cell_h, N::count_of(7))), header_h)
}

/// Cell `i` of a grid of years, three in a row, below `row`.
pub open spec fn year_cell<N: Num>(row: Rect<N>, i: int) -> Rect<N> {
    let w = N::div_of(row.w, N::count_of(3));
    Rect {
        x: N::add_of(row.x, N::mul_of(N::count_of((i % 3) as nat), w)),
        y: N::add_of(row.y, N::mul_of(N::count_of((i / 3 + 1) as nat), row.h)),
        w,
        h: row.h,
    }
}

/// Those of the first `n` years of the page that can be chosen, in their cells.
pub open spec fn year_page<N: Num>(row: Rect<N>, shown: Shown, n: nat) -> Seq<(Rect<N>, i32)>
    decreases n,
{
    if n == 0 {
        Seq::empty()
    } else {
        let rest = year_page(row, shown, (n - 1) as nat);
        let year = shown.year_list_page_start + n - 1;
        if shown.min_year <= year <= shown.max_year {
            rest.push((year_cell(row, n - 1), year as i32))
        } else {
            rest
        }
    }
}

/// A page of twelve years: its buttons and its range in `row`, the years below.
pub open spec fn years_below<N: Num>(row: Rect<N>, shown: Shown) -> YearListView<N> {
    YearListView {
        prev_page_rect: Rect { x: row.x, y: row.y, w: row.h, h: row.h },
        next_page_rect: Rect {
            x: N::sub_of(N::add_of(row.x, row.w), row.h),
            y: row.y,
            w: row.h,
            h: row.h,
        },
        range_label_rect: Rect {
            x: N::add_of(row.x, row.h),
            y: row.y,
            w: N::sub_of(row.w, N::mul_of(row.h, whole(2))),
            h: row.h,
        },
        year_cells: year_page(row, shown, 12),
    }
}

fn place_years<N: Num>(row: Rect<N>, shown: &Shown) -> (r: YearList<N>)
    ensures
        r@ == years_below(row, *shown),
{
    let w: N = row.w.over(N::count(3));
    let mut year_cells: Vec<(Rect<N>, i32)> = Vec::new();
    let mut i: usize = 0;
    while i < 12
        invariant
            0 <= i <= 12,
            w == N::div_of(row.w, N::count_of(3)),
            year_cells@ == year_page(row, *shown, i as nat),
        decreases 12 - i,
    {
        let year: i64 = shown.year_list_page_start as i64 + i as i64;
        if shown.min_year as i64 <= year && year <= shown.max_year as i64 {
            let cell: Rect<N> = Rect {
                x: row.x.plus(N::count(i % 3).times(w)),
                y: row.y.plus(N::count(i / 3 + 1).times(row.h)),
                w,
                h: row.h,
            };
            year_cells.push((cell, year as i32));
        }
        i = i + 1;
    }
    YearList {
        prev_page_rect: Rect { x: row.x, y: row.y, w: row.h, h: row.h },
        next_page_rect: Rect { x: row.x.plus(row.w).minus(row.h), y: row.y, w: row.h, h: row.h },
        range_label_rect: Rect {
            x: row.x.plus(row.h),
            y: row.y,
            w: row.w.minus(row.h.times(N::ratio(2, 1))),
            h: row.h,
        },
        year_cells,
    }
}

/// The day in cell `i` of a month's grid.
pub open spec fn cell_day(shown: Shown, i: int) -> Option<u32> {
    match grid_day(shown.year as int, shown.month as int, i) {
        Some(d) => Some(d as u32),
        None => None,
    }
}

/// A calendar in panel `r`: the month's stepper in the left half of the header, the
/// year's in the right one; below them the weekdays and the days, or the years.
pub open spec fn calendar_in<N: Num>(r: Rect<N>, font_size: N, shown: Shown) -> CalendarView<N> {
    let (header_h, cell_h) = calendar_sizes(font_size);
    let top = Rect { x: r.x, y: r.y, w: r.w, h: whole(0) };
    let half_w = half(r.w);
    let middle = N::add_of(r.x, half_w);
    let label_w = N::sub_of(half_w, N::mul_of(header_h, whole(2)));
    let weekday_y = N::add_of(r.y, header_h);
    let body_y = N::add_of(weekday_y, cell_h);
    let footer_y = N::add_of(body_y, N::mul_of(cell_h, N::count_of(6)));
    CalendarView {
        popup_rect: r,
        month_prev_rect: prev_rect_of(top, font_size),
        month_next_rect: Rect {
            x: N::sub_of(middle, header_h),
            y: r.y,
            w: header_h,
            h: header_h,
        },
        month_label_rect: Rect { x: N::add_of(r.x, header_h), y: r.y, w: label_w, h: header_h },
        year_dropdown_rect: Rect { x: N::add_of(middle, header_h), y: r.y, w: label_w, h: header_h },
        year_prev_rect: Rect { x: middle, y: r.y, w: header_h, h: header_h },
        year_next_rect: next_rect_of(top, font_size),
        weekday_row: Rect { x: r.x, y: weekday_y, w: r.w, h: cell_h },
        year_list: if shown.year_list_open {
            Some(years_below(Rect { x: r.x, y: body_y, w: r.w, h: cell_h }, shown))
        } else {
            None
        },
        day_cells: Seq::new(42, |i: int| (cell_rect(top, font_size, i), cell_day(shown, i))),
        cancel_rect: Rect { x: r.x, y: footer_y, w: half_w, h: header_h },
        confirm_rect: Rect { x: middle, y: footer_y, w: half_w, h: header_h },
    }
}

fn fill_calendar<N: Num>(r: Rect<N>, font_size: N, shown: &Shown) -> (c: CalendarParts<N>)
    ensures
        c@ == calendar_in(r, font_size, *shown),
{
    let (header_h, cell_h): (N, N) = calendar_metrics(font_size);
    let top: Rect<N> = Rect { x: r.x, y: r.y, w: r.w, h: N::ratio(0, 1) };
    let month: CalendarLayout<N> = layout_calendar(top, font_size, shown.year, shown.month);
    let half_w: N = halved(r.w);
    let middle: N = r.x.plus(half_w);
    let label_w: N = half_w.minus(header_h.times(N::ratio(2, 1)));
    let weekday_y: N = r.y.plus(header_h);
    let body_y: N = weekday_y.plus(cell_h);
    let footer_y: N = body_y.plus(cell_h.times(N::count(6)));
    let year_list: Option<YearList<N>> = if shown.year_list_open {
        Some(place_years(Rect { x: r.x, y: body_y, w: r.w, h: cell_h }, shown))
    } else {
        None
    };
    let c = CalendarParts {
        popup_rect: r,
        month_prev_rect: month.prev_rect,
        month_next_rect: Rect { x: middle.minus(header_h), y: r.y, w: header_h, h: header_h },
        month_label_rect: Rect { x: r.x.plus(header_h), y: r.y, w: label_w, h: header_h },
        year_dropdown_rect: Rect { x: middle.plus(header_h), y: r.y, w: label_w, h: header_h },
        year_prev_rect: Rect { x: middle, y: r.y, w: header_h, h: header_h },
        year_next_rect: month.next_rect,
        weekday_row: Rect { x: r.x, y: weekday_y, w: r.w, h: cell_h },
        year_list,
        day_cells: month.day_cells,
        cancel_rect: Rect { x: r.x, y: footer_y, w: half_w, h: header_h },
        confirm_rect: Rect { x: middle, y: footer_y, w: half_w, h: header_h },
    };
    assert(c.day_cells@ =~= calendar_in(r, font_size, *shown).day_cells);
    c
}

/// The calendar of a date.
pub open spec fn plain_calendar<N: Num>(at: Anchor<N>, shown: Shown) -> CalendarView<N> {
    calendar_in(panel_at(at, calendar_height(at.font_size)), at.font_size, shown)
}

fn height_of_calendar<N: Num>(font_size: N) -> (r: N)
    ensures
        r == calendar_height(font_size),
{
    let (header_h, cell_h): (N, N) = calendar_metrics(font_size);
    header_h.plus(cell_h.times(N::count(7))).plus(header_h)
}

/// Places the calendar of a date.
pub fn place_calendar<N: Num>(at: &Anchor<N>, shown: &Shown) -> (r: CalendarParts<N>)
    ensures
        r@ == plain_calendar(*at, *shown),
{
    let panel: Rect<N> = place_panel(at, height_of_calendar(at.font_size));
    fill_calendar(panel, at.font_size, shown)
}

// ---- clock ----

/// How high a clock is: a row of segments, a dial of six rows, the AM/PM toggle, a
/// footer.
pub open spec fn clock_height<N: Num>(font_size: N) -> N {
    N::mul_of(clock_row(font_size), whole(9))
}

/// The sine of `k` twelfths of a turn, in thousandths.
pub open spec fn twelfth_sine(k: int) -> int {
    let q = k % 12;
    if q == 0 || q == 6 {
        0
    } else if q == 1 || q == 5 {
        500
    } else if q == 2 || q == 4 {
        866
    } else if q == 3 {
        1000
    } else if q == 7 || q == 11 {
        -500
    } else if q == 8 || q == 10 {
        -866
    } else {
        -1000
    }
}

/// The point `k` twelfths of a turn clockwise from straight up.
pub open spec fn dial_point<N: Num>(center: Point<N>, radius: N, k: int) -> Point<N> {
    Point {
        x: N::add_of(center.x, N::div_of(N::mul_of(radius, whole(twelfth_sine(k))), whole(1000))),
        y: N::sub_of(
            center.y,
            N::div_of(N::mul_of(radius, whole(twelfth_sine(k + 3))), whole(1000)),
        ),
    }
}

fn sine_of(k: u32) -> (r: i32)
    ensures
        r == twelfth_sine(k as int),
{
    match k % 12 {
        0 | 6 => 0,
        1 | 5 => 500,
        2 | 4 => 866,
        3 => 1000,
        7 | 11 => -500,
        8 | 10 => -866,
        _ => -1000,
    }
}

/// How many twelfths of a turn the `k`th mark is away from straight up.
pub open spec fn mark_twelfth(mode: ClockMode, k: int) -> int {
    if mode == ClockMode::Hour {
        k + 1
    } else {
        k
    }
}

/// How far the hand is turned, in degrees: to the staged value of the unit that is
/// set.
pub open spec fn hand_degrees(picker: TimePicker) -> nat {
    match picker.mode {
        ClockMode::Hour => (picker.staged_hour as nat % 12) * 30,
        ClockMode::Minute => (picker.staged_minute as nat % 60) * 6,
        ClockMode::Second => (picker.staged_second as nat % 60) * 6,
    }
}

/// A clock in panel `r`: the segments, the dial in the middle, the toggle, the
/// footer.
pub open spec fn clock_in<N: Num>(
    r: Rect<N>,
    font_size: N,
    with_seconds: bool,
    picker: TimePicker,
) -> ClockView<N> {
    let row = clock_row(font_size);
    let side = N::mul_of(row, whole(6));
    let w = N::div_of(r.w, N::count_of(unit_count(with_seconds)));
    let half_w = half(r.w);
    let middle = N::add_of(r.x, half_w);
    let dial_y = N::add_of(r.y, row);
    let center = Point { x: middle, y: N::add_of(dial_y, half(side)) };
    let radius = N::div_of(N::mul_of(side, whole(2)), whole(5));
    let ampm_y = N::add_of(dial_y, side);
    let footer_y = N::add_of(ampm_y, row);
    ClockView {
        popup_rect: r,
        hour_segment_rect: Rect { x: r.x, y: r.y, w, h: row },
        minute_segment_rect: Rect { x: N::add_of(r.x, w), y: r.y, w, h: row },
        second_segment_rect: if with_seconds {
            Some(Rect { x: N::add_of(N::add_of(r.x, w), w), y: r.y, w, h: row })
        } else {
            None
        },
        dial_area: Rect { x: N::sub_of(middle, half(side)), y: dial_y, w: side, h: side },
        dial_center: center,
        dial_radius: radius,
        marks: Seq::new(12, |k: int| dial_point(center, radius, mark_twelfth(picker.mode, k))),
        hand_deg: N::count_of(hand_degrees(picker)),
        ampm_rect: Rect { x: r.x, y: ampm_y, w: r.w, h: row },
        cancel_rect: Rect { x: r.x, y: footer_y, w: half_w, h: row },
        confirm_rect: Rect { x: middle, y: footer_y, w: half_w, h: row },
    }
}

fn fill_clock<N: Num>(r: Rect<N>, font_size: N, with_seconds: bool, picker: &TimePicker) -> (c:
    ClockParts<N>)
    ensures
        c@ == clock_in(r, font_size, with_seconds, *picker),
        c.marks@.len() == 12,
{
    let row: N = clock_metrics(font_size);
    let side: N = row.times(N::ratio(6, 1));
    let units: usize = if with_seconds {
        3
    } else {
        2
    };
    let w: N = r.w.over(N::count(units));
    let half_w: N = halved(r.w);
    let middle: N = r.x.plus(half_w);
    let dial_y: N = r.y.plus(row);
    let center: Point<N> = Point { x: middle, y: dial_y.plus(halved(side)) };
    let radius: N = side.times(N::ratio(2, 1)).over(N::ratio(5, 1));
    let ampm_y: N = dial_y.plus(side);
    let footer_y: N = ampm_y.plus(row);
    let first: u32 = match picker.mode {
        ClockMode::Hour => 1,
        _ => 0,
    };
    let mut marks: Vec<Point<N>> = Vec::new();
    let mut k: u32 = 0;
    while k < 12
        invariant
            0 <= k <= 12,
            first == mark_twelfth(picker.mode, 0),
            marks@ == Seq::new(
                k as nat,
                |k: int| dial_point(center, radius, mark_twelfth(picker.mode, k)),
            ),
        decreases 12 - k,
    {
        let at: u32 = k + first;
        let across: N = radius.times(N::ratio(sine_of(at), 1)).over(N::ratio(1000, 1));
        let up: N = radius.times(N::ratio(sine_of(at + 3), 1)).over(N::ratio(1000, 1));
        marks.push(Point { x: center.x.plus(across), y: center.y.minus(up) });
        k = k + 1;
        assert(marks@ =~= Seq::new(
            k as nat,
            |k: int| dial_point(center, radius, mark_twelfth(picker.mode, k)),
        ));
    }
    let degrees: u32 = match picker.mode {
        ClockMode::Hour => (picker.staged_hour % 12) * 30,
        ClockMode::Minute => (picker.staged_minute % 60) * 6,
        ClockMode::Second => (picker.staged_second % 60) * 6,
    };
    let second_segment_rect: Option<Rect<N>> = if with_seconds {
        Some(Rect { x: r.x.plus(w).plus(w), y: r.y, w, h: row })
    } else {
        None
    };
    let c = ClockParts {
        popup_rect: r,
        hour_segment_rect: Rect { x: r.x, y: r.y, w, h: row },
        minute_segment_rect: Rect { x: r.x.plus(w), y: r.y, w, h: row },
        second_segment_rect,
        dial_area: Rect { x: middle.minus(halved(side)), y: dial_y, w: side, h: side },
        dial_center: center,
        dial_radius: radius,
        marks,
        hand_deg: N::count(degrees as usize),
        ampm_rect: Rect { x: r.x, y: ampm_y, w: r.w, h: row },
        cancel_rect: Rect { x: r.x, y: footer_y, w: half_w, h: row },
        confirm_rect: Rect { x: middle, y: footer_y, w: half_w, h: row },
    };
    assert(c.marks@ =~= clock_in(r, font_size, with_seconds, *picker).marks);
    c
}

/// The clock of a time.
pub open spec fn plain_clock<N: Num>(at: Anchor<N>, with_seconds: bool, picker: TimePicker) -> ClockView<
    N,
> {
    clock_in(panel_at(at, clock_height(at.font_size)), at.font_size, with_seconds, picker)
}

fn height_of_clock<N: Num>(font_size: N) -> (r: N)
    ensures
        r == clock_height(font_size),
{
    clock_metrics(font_size).times(N::ratio(9, 1))
}

/// Places the clock of a time.
pub fn place_clock<N: Num>(at: &Anchor<N>, with_seconds: bool, picker: &TimePicker) -> (r:
    ClockParts<N>)
    ensures
        r@ == plain_clock(*at, with_seconds, *picker),
        r.marks@.len() == 12,
{
    let panel: Rect<N> = place_panel(at, height_of_clock(at.font_size));
    fill_clock(panel, at.font_size, with_seconds, picker)
}

// ---- both ----

/// A row of two tabs, and the half that shows below it.
pub open spec fn plain_datetime<N: Num>(
    at: Anchor<N>,
    with_seconds: bool,
    tab: DateTimeTab,
    shown: Shown,
    picker: TimePicker,
) -> DateTimeView<N> {
    let font_size = at.font_size;
    let tab_h = calendar_sizes(font_size).0;
    let inner_h = if tab == DateTimeTab::Calendar {
        calendar_height(font_size)
    } else {
        clock_height(font_size)
    };
    let r = panel_at(at, N::add_of(tab_h, inner_h));
    let inner = Rect { x: r.x, y: N::add_of(r.y, tab_h), w: r.w, h: inner_h };
    DateTimeView {
        popup_rect: r,
        tab_calendar_rect: Rect { x: r.x, y: r.y, w: half(r.w), h: tab_h },
        tab_clock_rect: Rect { x: N::add_of(r.x, half(r.w)), y: r.y, w: half(r.w), h: tab_h },
        calendar: if tab == DateTimeTab::Calendar {
            Some(calendar_in(inner, font_size, shown))
        } else {
            None
        },
        clock: if tab == DateTimeTab::Clock {
            Some(clock_in(inner, font_size, with_seconds, picker))
        } else {
            None
        },
    }
}

/// Places the popup of a date and time.
pub fn place_datetime<N: Num>(
    at: &Anchor<N>,
    with_seconds: bool,
    tab: DateTimeTab,
    shown: &Shown,
    picker: &TimePicker,
) -> (r: DateTimeParts<N>)
    ensures
        r@ == plain_datetime(*at, with_seconds, tab, *shown, *picker),
        r.calendar is Some <==> tab == DateTimeTab::Calendar,
        r.clock is Some <==> tab == DateTimeTab::Clock,
        r.clock matches Some(c) ==> c.marks@.len() == 12,
{
    let font_size: N = at.font_size;
    let (tab_h, _): (N, N) = calendar_metrics(font_size);
    let inner_h: N = match tab {
        DateTimeTab::Calendar => height_of_calendar(font_size),
        DateTimeTab::Clock => height_of_clock(font_size),
    };
    let panel: Rect<N> = place_panel(at, tab_h.plus(inner_h));
    let inner: Rect<N> = Rect { x: panel.x, y: panel.y.plus(tab_h), w: panel.w, h: inner_h };
    let half_w: N = halved(panel.w);
    let (calendar, clock): (Option<CalendarParts<N>>, Option<ClockParts<N>>) = match tab {
        DateTimeTab::Calendar => (Some(fill_calendar(inner, font_size, shown)), None),
        DateTimeTab::Clock => (None, Some(fill_clock(inner, font_size, with_seconds, picker))),
    };
    DateTimeParts {
        popup_rect: panel,
        tab_calendar_rect: Rect { x: panel.x, y: panel.y, w: half_w, h: tab_h },
        tab_clock_rect: Rect { x: panel.x.plus(half_w), y: panel.y, w: half_w, h: tab_h },
        calendar,
        clock,
    }
}

} // verus!
