//! Where the parts of a date or time popup lie, for drawing it and for finding
//! what was clicked.

use vstd::prelude::*;
use crate::toolkit::datetime::{calendar_days, grid_day};
use crate::toolkit::geometry::Rect;
use crate::toolkit::num::{whole, Num};

verus! {

/// The heights of a calendar's header row and of its cells.
pub open spec fn calendar_sizes<N: Num>(font_size: N) -> (N, N) {
    (
        N::add_of(N::mul_of(font_size, N::ratio_of(8, 5)), whole(12)),
        N::add_of(N::mul_of(font_size, N::ratio_of(9, 5)), whole(10)),
    )
}

/// The heights of a calendar's header row, and of its weekday and day cells, which
/// are all alike.
pub fn calendar_metrics<N: Num>(font_size: N) -> (r: (N, N))
    ensures
        r == calendar_sizes(font_size),
{
    (
        font_size.times(N::ratio(8, 5)).plus(N::ratio(12, 1)),
        font_size.times(N::ratio(9, 5)).plus(N::ratio(10, 1)),
    )
}

/// A month's calendar.
#[derive(Debug)]
pub struct CalendarLayout<N> {
    pub popup_rect: Rect<N>,
    pub prev_rect: Rect<N>,
    pub next_rect: Rect<N>,
    /// 6 rows of 7 cells: the day in each, `None` for a blank.
    pub day_cells: Vec<(Rect<N>, Option<u32>)>,
}

/// The popup: right below the box and as wide as it, high enough for the header, the
/// weekdays and 6 rows, whatever the month.
pub open spec fn calendar_rect<N: Num>(box_rect: Rect<N>, font_size: N) -> Rect<N> {
    let (header_h, cell_h) = calendar_sizes(font_size);
    Rect {
        x: box_rect.x,
        y: N::add_of(box_rect.y, box_rect.h),
        w: box_rect.w,
        h: N::add_of(header_h, N::mul_of(cell_h, N::count_of(7))),
    }
}

/// Cell `i` of the grid.
pub open spec fn cell_rect<N: Num>(box_rect: Rect<N>, font_size: N, i: int) -> Rect<N> {
    let (header_h, cell_h) = calendar_sizes(font_size);
    let cell_w = N::div_of(box_rect.w, N::count_of(7));
    let popup = calendar_rect(box_rect, font_size);
    let top = N::add_of(N::add_of(popup.y, header_h), cell_h);
    Rect {
        x: N::add_of(popup.x, N::mul_of(N::count_of((i % 7) as nat), cell_w)),
        y: N::add_of(top, N::mul_of(N::count_of((i / 7) as nat), cell_h)),
        w: cell_w,
        h: cell_h,
    }
}

/// Where the buttons for the months before and after are.
pub open spec fn prev_rect_of<N: Num>(box_rect: Rect<N>, font_size: N) -> Rect<N> {
    let popup = calendar_rect(box_rect, font_size);
    let h = calendar_sizes(font_size).0;
    Rect { x: popup.x, y: popup.y, w: h, h }
}

pub open spec fn next_rect_of<N: Num>(box_rect: Rect<N>, font_size: N) -> Rect<N> {
    let popup = calendar_rect(box_rect, font_size);
    let h = calendar_sizes(font_size).0;
    Rect { x: N::sub_of(N::add_of(popup.x, popup.w), h), y: popup.y, w: h, h }
}

/// `l` is the calendar of a month, below a box.
pub open spec fn is_calendar<N: Num>(
    l: CalendarLayout<N>,
    box_rect: Rect<N>,
    font_size: N,
    year: int,
    month: int,
) -> bool {
    &&& l.popup_rect == calendar_rect(box_rect, font_size)
    &&& l.prev_rect == prev_rect_of(box_rect, font_size)
    &&& l.next_rect == next_rect_of(box_rect, font_size)
    &&& l.day_cells@.len() == 42
    &&& forall|i: int|
        0 <= i < 42 ==> {
            let c = #[trigger] l.day_cells@[i];
            &&& c.0 == cell_rect(box_rect, font_size, i)
            &&& match c.1 {
                Some(d) => grid_day(year, month, i) == Some(d as int),
                None => grid_day(year, month, i) is None,
            }
        }
}

/// Lays out a month's calendar below a widget's box.
pub fn layout_calendar<N: Num>(box_rect: Rect<N>, font_size: N, year: i32, month: u32) -> (r:
    CalendarLayout<N>)
    ensures
        is_calendar(r, box_rect, font_size, year as int, month as int),
{
    let (header_h, cell_h): (N, N) = calendar_metrics(font_size);
    let cell_w: N = box_rect.w.over(N::count(7));
    let popup_h: N = header_h.plus(cell_h.times(N::count(7)));
    let popup_rect: Rect<N> = Rect {
        x: box_rect.x,
        y: box_rect.y.plus(box_rect.h),
        w: box_rect.w,
        h: popup_h,
    };
    let prev_rect: Rect<N> = Rect { x: popup_rect.x, y: popup_rect.y, w: header_h, h: header_h };
    let next_rect: Rect<N> = Rect {
        x: popup_rect.x.plus(popup_rect.w).minus(header_h),
        y: popup_rect.y,
        w: header_h,
        h: header_h,
    };
    let grid_top: N = popup_rect.y.plus(header_h).plus(cell_h);
    let days: Vec<Option<u32>> = calendar_days(year, month);
    let mut day_cells: Vec<(Rect<N>, Option<u32>)> = Vec::new();
    let mut i: usize = 0;
    while i < 42
        invariant
            0 <= i <= 42,
            day_cells@.len() == i,
            days@.len() == 42,
            (header_h, cell_h) == calendar_sizes(font_size),
            cell_w == N::div_of(box_rect.w, N::count_of(7)),
            popup_rect == calendar_rect(box_rect, font_size),
            grid_top == N::add_of(N::add_of(popup_rect.y, header_h), cell_h),
            forall|k: int|
                0 <= k < 42 ==> match #[trigger] days@[k] {
                    Some(d) => grid_day(year as int, month as int, k) == Some(d as int),
                    None => grid_day(year as int, month as int, k) is None,
                },
            forall|k: int|
                0 <= k < i ==> {
                    let c = #[trigger] day_cells@[k];
                    &&& c.0 == cell_rect(box_rect, font_size, k)
                    &&& c.1 == days@[k]
                },
        decreases 42 - i,
    {
        let rect: Rect<N> = Rect {
            x: popup_rect.x.plus(N::count(i % 7).times(cell_w)),
            y: grid_top.plus(N::count(i / 7).times(cell_h)),
            w: cell_w,
            h: cell_h,
        };
        day_cells.push((rect, days[i]));
        i = i + 1;
    }
    proof {
        assert forall|k: int| 0 <= k < 42 implies ({
            let c = #[trigger] day_cells@[k];
            &&& c.0 == cell_rect(box_rect, font_size, k)
            &&& match c.1 {
                Some(d) => grid_day(year as int, month as int, k) == Some(d as int),
                None => grid_day(year as int, month as int, k) is None,
            }
        }) by {
            assert(day_cells@[k].1 == days@[k]);
        }
    }
    CalendarLayout { popup_rect, prev_rect, next_rect, day_cells }
}

pub open spec fn clock_row<N: Num>(font_size: N) -> N {
    N::add_of(N::mul_of(font_size, N::ratio_of(8, 5)), whole(10))
}

/// The height of each row of a clock popup.
pub fn clock_metrics<N: Num>(font_size: N) -> (r: N)
    ensures
        r == clock_row(font_size),
{
    font_size.times(N::ratio(8, 5)).plus(N::ratio(10, 1))
}

/// A time picker: for each unit the parts that step it up, show it, and step it
/// down.
#[derive(Debug)]
pub struct ClockLayout<N> {
    pub popup_rect: Rect<N>,
    pub columns: Vec<(Rect<N>, Rect<N>, Rect<N>)>,
}

/// How many units a time picker shows.
pub open spec fn unit_count(with_seconds: bool) -> nat {
    if with_seconds {
        3
    } else {
        2
    }
}

pub open spec fn clock_rect<N: Num>(box_rect: Rect<N>, font_size: N) -> Rect<N> {
    Rect {
        x: box_rect.x,
        y: N::add_of(box_rect.y, box_rect.h),
        w: box_rect.w,
        h: N::mul_of(clock_row(font_size), whole(3)),
    }
}

/// The parts of unit `i`, one below the other.
pub open spec fn unit_rects<N: Num>(
    box_rect: Rect<N>,
    font_size: N,
    with_seconds: bool,
    i: int,
) -> (Rect<N>, Rect<N>, Rect<N>) {
    let h = clock_row(font_size);
    let popup = clock_rect(box_rect, font_size);
    let w = N::div_of(box_rect.w, N::count_of(unit_count(with_seconds)));
    let x = N::add_of(popup.x, N::mul_of(N::count_of(i as nat), w));
    (
        Rect { x, y: popup.y, w, h },
        Rect { x, y: N::add_of(popup.y, h), w, h },
        Rect { x, y: N::add_of(popup.y, N::mul_of(h, whole(2))), w, h },
    )
}

/// `l` is a time picker below a box.
pub open spec fn is_clock<N: Num>(
    l: ClockLayout<N>,
    box_rect: Rect<N>,
    font_size: N,
    with_seconds: bool,
) -> bool {
    &&& l.popup_rect == clock_rect(box_rect, font_size)
    &&& l.columns@ == Seq::new(
        unit_count(with_seconds),
        |i: int| unit_rects(box_rect, font_size, with_seconds, i),
    )
}

/// Lays out a time picker below a widget's box.
pub fn layout_clock<N: Num>(box_rect: Rect<N>, font_size: N, with_seconds: bool) -> (r: ClockLayout<
    N,
>)
    ensures
        is_clock(r, box_rect, font_size, with_seconds),
{
    let row_h: N = clock_metrics(font_size);
    let ncols: usize = if with_seconds {
        3
    } else {
        2
    };
    let col_w: N = box_rect.w.over(N::count(ncols));
    let popup_rect: Rect<N> = Rect {
        x: box_rect.x,
        y: box_rect.y.plus(box_rect.h),
        w: box_rect.w,
        h: row_h.times(N::ratio(3, 1)),
    };
    let mut columns: Vec<(Rect<N>, Rect<N>, Rect<N>)> = Vec::new();
    let mut i: usize = 0;
    while i < ncols
        invariant
            0 <= i <= ncols,
            ncols == unit_count(with_seconds),
            row_h == clock_row(font_size),
            col_w == N::div_of(box_rect.w, N::count_of(ncols as nat)),
            popup_rect == clock_rect(box_rect, font_size),
            columns@ == Seq::new(
                i as nat,
                |k: int| unit_rects(box_rect, font_size, with_seconds, k),
            ),
        decreases ncols - i,
    {
        let x: N = popup_rect.x.plus(N::count(i).times(col_w));
        let up: Rect<N> = Rect { x, y: popup_rect.y, w: col_w, h: row_h };
        let val: Rect<N> = Rect { x, y: popup_rect.y.plus(row_h), w: col_w, h: row_h };
        let down: Rect<N> = Rect {
            x,
            y: popup_rect.y.plus(row_h.times(N::ratio(2, 1))),
            w: col_w,
            h: row_h,
        };
        columns.push((up, val, down));
        i = i + 1;
        assert(columns@ =~= Seq::new(
            i as nat,
            |k: int| unit_rects(box_rect, font_size, with_seconds, k),
        ));
    }
    assert(columns@ =~= Seq::new(
        unit_count(with_seconds),
        |k: int| unit_rects(box_rect, font_size, with_seconds, k),
    ));
    ClockLayout { popup_rect, columns }
}

/// A calendar with a time picker right below it.
#[derive(Debug)]
pub struct DateTimeLayout<N> {
    pub popup_rect: Rect<N>,
    pub calendar: CalendarLayout<N>,
    pub clock: ClockLayout<N>,
}

/// What the time picker hangs from: the calendar's lower edge.
pub open spec fn clock_anchor<N: Num>(box_rect: Rect<N>, font_size: N) -> Rect<N> {
    let c = calendar_rect(box_rect, font_size);
    Rect { x: box_rect.x, y: N::add_of(c.y, c.h), w: box_rect.w, h: whole(0) }
}

/// Lays out a calendar and a time picker below a widget's box, in one popup.
pub fn layout_datetime<N: Num>(
    box_rect: Rect<N>,
    font_size: N,
    with_seconds: bool,
    year: i32,
    month: u32,
) -> (r: DateTimeLayout<N>)
    ensures
        is_calendar(r.calendar, box_rect, font_size, year as int, month as int),
        is_clock(r.clock, clock_anchor(box_rect, font_size), font_size, with_seconds),
        r.popup_rect == (Rect {
            h: N::add_of(
                calendar_rect(box_rect, font_size).h,
                N::mul_of(clock_row(font_size), whole(3)),
            ),
            ..calendar_rect(box_rect, font_size)
        }),
{
    let calendar: CalendarLayout<N> = layout_calendar(box_rect, font_size, year, month);
    let anchor: Rect<N> = Rect {
        x: box_rect.x,
        y: calendar.popup_rect.y.plus(calendar.popup_rect.h),
        w: box_rect.w,
        h: N::ratio(0, 1),
    };
    let clock: ClockLayout<N> = layout_clock(anchor, font_size, with_seconds);
    let popup_rect: Rect<N> = Rect {
        x: box_rect.x,
        y: box_rect.y.plus(box_rect.h),
        w: box_rect.w,
        h: calendar.popup_rect.h.plus(clock.popup_rect.h),
    };
    DateTimeLayout { popup_rect, calendar, clock }
}

/// Whatever the months, two calendars below one box differ in the days in their
/// cells alone.
pub proof fn law_calendar_keeps_its_shape<N: Num>(
    a: CalendarLayout<N>,
    b: CalendarLayout<N>,
    box_rect: Rect<N>,
    font_size: N,
    y1: int,
    m1: int,
    y2: int,
    m2: int,
    i: int,
)
    requires
        is_calendar(a, box_rect, font_size, y1, m1),
        is_calendar(b, box_rect, font_size, y2, m2),
        0 <= i < 42,
    ensures
        a.popup_rect == b.popup_rect,
        a.prev_rect == b.prev_rect,
        a.next_rect == b.next_rect,
        a.day_cells@[i].0 == b.day_cells@[i].0,
{
}

} // verus!
