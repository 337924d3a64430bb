//! What holds of the popups of date and time pickers: where their parts lie, and what they
//! show as chosen.

use vstd::prelude::*;
use crate::text::{decimal, int_text};
use crate::toolkit::arena::{ClockMode, DateTimeTab, TimePicker};
use crate::toolkit::canvas::Op;
use crate::toolkit::control_laws::same_middle;
use crate::toolkit::datetime::{day_of_week, month_days, twelve_hour};
use crate::toolkit::frame_laws::stands_at;
use crate::toolkit::geometry::{edges_all, inset_rect, Color, Point, Rect};
use crate::toolkit::num::{exact, lemma_whole, whole, Num};
use crate::toolkit::paint::{half, vcentered};
use crate::toolkit::picker_layout::{
    calendar_height, calendar_in, clock_height, clock_in, dial_point, hand_degrees, mark_twelfth,
    panel_at, plain_datetime, twelfth_sine, year_page, years_below,
};
use crate::toolkit::pickers::{
    ampm_ops, bubble, button_ops, calendar_ops, cell_ops, chosen_mark, day_cells_ops, footer_ops, header_ops,
    highlight_ops, mark_value, marks_ops, month_names, panel_ops, segment_ops, segments_ops,
    toggle_ops, two_digits, weekday_labels, weekday_ops, Anchor, CalendarView,
    ClockView, Pointer, Shown,
};
use crate::toolkit::popup_layout::{
    calendar_rect, calendar_sizes, cell_rect, clock_anchor, clock_row, is_calendar, is_clock, unit_count,
    CalendarLayout, ClockLayout,
};

verus! {

// ---- where parts lie ----

/// `b` lies right of `a`, and touches it.
pub open spec fn right_of<N>(val: spec_fn(N) -> real, a: Rect<N>, b: Rect<N>) -> bool {
    &&& val(b.x) == val(a.x) + val(a.w)
    &&& val(b.y) == val(a.y)
    &&& val(b.h) == val(a.h)
}

/// `b` lies below `a`, and touches it.
pub open spec fn below<N>(val: spec_fn(N) -> real, a: Rect<N>, b: Rect<N>) -> bool {
    &&& val(b.x) == val(a.x)
    &&& val(b.y) == val(a.y) + val(a.h)
    &&& val(b.w) == val(a.w)
}

/// Where `r` ends.
pub open spec fn right_end<N>(val: spec_fn(N) -> real, r: Rect<N>) -> real {
    val(r.x) + val(r.w)
}

pub open spec fn low_end<N>(val: spec_fn(N) -> real, r: Rect<N>) -> real {
    val(r.y) + val(r.h)
}

proof fn lemma_sevenths(w: real)
    ensures
        7 as real * (w / 7 as real) == w,
        3 as real * (w / 3 as real) == w,
        2 as real * (w / 2 as real) == w,
{
}

/// A calendar hangs right below its box and is as wide. Its cells tile what is under the
/// header and the weekdays, seven in a row, to the popup's right and lower edge; the buttons
/// stand in its upper corners.
pub proof fn law_calendar_cells_tile<N: Num>(
    val: spec_fn(N) -> real,
    l: CalendarLayout<N>,
    box_rect: Rect<N>,
    font_size: N,
    year: int,
    month: int,
    i: int,
)
    requires
        exact(val),
        is_calendar(l, box_rect, font_size, year, month),
        0 <= i < 42,
    ensures
        ({
            let c = l.day_cells@;
            let (popup, prev, next) = (l.popup_rect, l.prev_rect, l.next_rect);
            &&& below(val, box_rect, popup)
            &&& i % 7 == 0 ==> val(c[i].0.x) == val(popup.x)
            &&& i % 7 < 6 ==> right_of(val, c[i].0, c[i + 1].0)
            &&& i % 7 == 6 ==> right_end(val, c[i].0) == right_end(val, popup)
            // One row is left for the weekdays.
            &&& i < 7 ==> val(c[i].0.y) == low_end(val, prev) + val(c[i].0.h)
            &&& i < 35 ==> below(val, c[i].0, c[i + 7].0)
            &&& i >= 35 ==> low_end(val, c[i].0) == low_end(val, popup)
            &&& val(prev.x) == val(popup.x) && val(prev.y) == val(popup.y)
            &&& right_end(val, next) == right_end(val, popup) && val(next.y) == val(popup.y)
            &&& next.w == prev.w && next.h == prev.h
        }),
{
    let c = l.day_cells@;
    let w = val(box_rect.w);
    let n7 = N::count_of(7);
    assert(val(n7) == 7 as real);
    let cw = val(N::div_of(box_rect.w, n7));
    lemma_sevenths(w);
    let ch = val(calendar_sizes(font_size).1);
    assert(val(N::count_of((i % 7) as nat)) == (i % 7) as real);
    assert(val(N::count_of((i / 7) as nat)) == (i / 7) as real);
    assert(c[i].0 == cell_rect(box_rect, font_size, i));
    lemma_products(cw, ch, i);
    if i % 7 < 6 {
        assert((i + 1) % 7 == i % 7 + 1 && (i + 1) / 7 == i / 7);
        assert(c[i + 1].0 == cell_rect(box_rect, font_size, i + 1));
        assert(val(N::count_of(((i + 1) % 7) as nat)) == (i % 7) as real + 1 as real);
        assert(val(N::count_of(((i + 1) / 7) as nat)) == (i / 7) as real);
    }
    if i < 35 {
        assert((i + 7) % 7 == i % 7 && (i + 7) / 7 == i / 7 + 1);
        assert(c[i + 7].0 == cell_rect(box_rect, font_size, i + 7));
        assert(val(N::count_of(((i + 7) / 7) as nat)) == (i / 7) as real + 1 as real);
    }
    assert(ch * 7 as real == 7 as real * ch) by (nonlinear_arith);
}

proof fn lemma_products(w: real, h: real, i: int)
    requires
        0 <= i < 42,
    ensures
        ((i % 7) as real + 1 as real) * w == (i % 7) as real * w + w,
        ((i / 7) as real + 1 as real) * h == (i / 7) as real * h + h,
        i % 7 == 0 ==> (i % 7) as real * w == 0 as real,
        i % 7 == 6 ==> (i % 7) as real * w == 6 as real * w,
        i / 7 == 0 ==> (i / 7) as real * h == 0 as real,
        i / 7 == 5 ==> (i / 7) as real * h == 5 as real * h,
{
    let a = (i % 7) as real;
    let b = (i / 7) as real;
    assert((a + 1 as real) * w == a * w + w) by (nonlinear_arith);
    assert((b + 1 as real) * h == b * h + h) by (nonlinear_arith);
    assert(a == 0 as real ==> a * w == 0 as real) by (nonlinear_arith);
    assert(b == 0 as real ==> b * h == 0 as real) by (nonlinear_arith);
}

/// Each day of the month stands once in the calendar, under its day of the week, and later
/// days in later cells.
pub proof fn law_days_stand_under_their_weekday<N: Num>(
    l: CalendarLayout<N>,
    box_rect: Rect<N>,
    font_size: N,
    year: int,
    month: int,
    i: int,
)
    requires
        is_calendar(l, box_rect, font_size, year, month),
        0 <= i < 42,
        0 <= day_of_week(year, month, 1) < 7,
    ensures
        l.day_cells@[i].1 matches Some(d) ==> {
            &&& 1 <= d <= month_days(year, month)
            &&& (d - 1 + day_of_week(year, month, 1)) % 7 == i % 7
            &&& d < month_days(year, month) && i < 41 ==> l.day_cells@[i + 1].1 == Some(
                (d + 1) as u32,
            )
        },
        l.day_cells@[day_of_week(year, month, 1)].1 == Some(1u32),
{
    let f = day_of_week(year, month, 1);
    assert(month_days(year, month) >= 28);
    assert(l.day_cells@[f].1 is Some);
    if l.day_cells@[i].1 is Some && i < 41 {
        assert(l.day_cells@[i + 1].0 == l.day_cells@[i + 1].0);
    }
}

/// The units of a time picker stand side by side under the box and share its width; in each,
/// the part that steps it up is over the value, and the one that steps it down under it.
pub proof fn law_clock_columns_tile<N: Num>(
    val: spec_fn(N) -> real,
    l: ClockLayout<N>,
    box_rect: Rect<N>,
    font_size: N,
    with_seconds: bool,
    i: int,
)
    requires
        exact(val),
        is_clock(l, box_rect, font_size, with_seconds),
        0 <= i < l.columns@.len(),
    ensures
        ({
            let (up, shown, down) = l.columns@[i];
            let n = l.columns@.len() as int;
            &&& n == if with_seconds {
                3int
            } else {
                2int
            }
            &&& below(val, box_rect, l.popup_rect)
            &&& val(up.y) == val(l.popup_rect.y)
            &&& below(val, up, shown) && below(val, shown, down)
            &&& low_end(val, down) == low_end(val, l.popup_rect)
            &&& i == 0 ==> val(up.x) == val(l.popup_rect.x)
            &&& i > 0 ==> right_of(val, l.columns@[i - 1].0, up)
            &&& i == n - 1 ==> right_end(val, up) == right_end(val, l.popup_rect)
        }),
{
    lemma_whole::<N>(val, 2);
    lemma_whole::<N>(val, 3);
    let n = unit_count(with_seconds);
    assert(val(N::count_of(n)) == n as real);
    let w = val(N::div_of(box_rect.w, N::count_of(n)));
    let h = val(clock_row(font_size));
    lemma_sevenths(val(box_rect.w));
    assert(val(N::count_of(i as nat)) == i as real);
    let a = i as real;
    assert(h * 2 as real == h + h && h * 3 as real == h + h + h) by (nonlinear_arith);
    assert(a == 0 as real ==> a * w == 0 as real) by (nonlinear_arith);
    assert(a == 1 as real ==> a * w == w) by (nonlinear_arith);
    assert(a == 2 as real ==> a * w == w + w) by (nonlinear_arith);
    if i > 0 {
        assert(val(N::count_of((i - 1) as nat)) == (i - 1) as real);
        let b = (i - 1) as real;
        assert(b == 0 as real ==> b * w == 0 as real) by (nonlinear_arith);
        assert(b == 1 as real ==> b * w == w) by (nonlinear_arith);
    }
}

/// The time picker of a date and time hangs from the lower edge of the calendar.
pub proof fn law_clock_hangs_below_the_calendar<N: Num>(
    val: spec_fn(N) -> real,
    box_rect: Rect<N>,
    font_size: N,
)
    requires
        exact(val),
    ensures
        below(val, calendar_rect(box_rect, font_size), clock_anchor(box_rect, font_size)),
        val(clock_anchor(box_rect, font_size).h) == 0 as real,
{
    lemma_whole::<N>(val, 0);
}

/// A panel is as wide as its box and touches it: from below, or from above if there is no
/// room for it below and there is above.
pub proof fn law_panel_touches_its_box<N: Num>(val: spec_fn(N) -> real, at: Anchor<N>, h: N)
    requires
        exact(val),
    ensures
        ({
            let r = panel_at(at, h);
            let b = at.box_rect;
            let fits_below = low_end(val, b) + val(h) <= val(at.viewport.h);
            let fits_above = val(b.y) - val(h) >= 0 as real;
            &&& r.x == b.x && r.w == b.w && r.h == h
            &&& fits_below || !fits_above ==> val(r.y) == low_end(val, b)
            &&& !fits_below && fits_above ==> low_end(val, r) == val(b.y)
        }),
{
    lemma_whole::<N>(val, 0);
}

/// The parts of a calendar fill its panel: the month's stepper in the left half of the
/// header and the year's in the right one, each between its two buttons; the weekdays under
/// the header; the days under the weekdays, seven in a row; and the footer under the days.
#[verifier::rlimit(40)]
pub proof fn law_calendar_parts_fill_the_panel<N: Num>(
    val: spec_fn(N) -> real,
    r: Rect<N>,
    font_size: N,
    shown: Shown,
    i: int,
)
    requires
        exact(val),
        r.h == calendar_height(font_size),
        0 <= i < 42,
    ensures
        ({
            let l = calendar_in(r, font_size, shown);
            let days = l.day_cells;
            &&& l.popup_rect == r
            &&& val(l.month_prev_rect.x) == val(r.x) && val(l.month_prev_rect.y) == val(r.y)
            &&& right_of(val, l.month_prev_rect, l.month_label_rect)
            &&& right_of(val, l.month_label_rect, l.month_next_rect)
            &&& right_of(val, l.month_next_rect, l.year_prev_rect)
            &&& right_of(val, l.year_prev_rect, l.year_dropdown_rect)
            &&& right_of(val, l.year_dropdown_rect, l.year_next_rect)
            &&& right_end(val, l.year_next_rect) == right_end(val, r)
            &&& val(l.weekday_row.x) == val(r.x) && val(l.weekday_row.w) == val(r.w)
            &&& val(l.weekday_row.y) == low_end(val, l.month_prev_rect)
            &&& days.len() == 42
            &&& i < 7 ==> val(days[i].0.y) == low_end(val, l.weekday_row)
            &&& i % 7 == 0 ==> val(days[i].0.x) == val(r.x)
            &&& i % 7 < 6 ==> right_of(val, days[i].0, days[i + 1].0)
            &&& i < 35 ==> below(val, days[i].0, days[i + 7].0)
            &&& i >= 35 ==> val(l.cancel_rect.y) == low_end(val, days[i].0)
            &&& val(l.cancel_rect.x) == val(r.x)
            &&& right_of(val, l.cancel_rect, l.confirm_rect)
            &&& right_end(val, l.confirm_rect) == right_end(val, r)
            &&& low_end(val, l.confirm_rect) == low_end(val, r)
            &&& l.year_list is Some <==> shown.year_list_open
        }),
{
    lemma_whole::<N>(val, 0);
    lemma_whole::<N>(val, 2);
    let l = calendar_in(r, font_size, shown);
    let top = Rect { x: r.x, y: r.y, w: r.w, h: whole::<N>(0) };
    let (hh, chn) = calendar_sizes(font_size);
    let (hv, ch) = (val(hh), val(chn));
    let n7 = N::count_of(7);
    assert(val(n7) == 7 as real);
    assert(val(N::count_of(6)) == 6 as real);
    assert(val(half(r.w)) == val(r.w) / 2 as real);
    let cw = val(N::div_of(r.w, n7));
    lemma_sevenths(val(r.w));
    assert(hv * 2 as real == hv + hv && ch * 7 as real == 7 as real * ch && ch * 6 as real
        == 6 as real * ch) by (nonlinear_arith);
    assert(val(N::count_of((i % 7) as nat)) == (i % 7) as real);
    assert(val(N::count_of((i / 7) as nat)) == (i / 7) as real);
    lemma_products(cw, ch, i);
    if i % 7 < 6 {
        assert((i + 1) % 7 == i % 7 + 1 && (i + 1) / 7 == i / 7);
        assert(val(N::count_of(((i + 1) % 7) as nat)) == (i % 7) as real + 1 as real);
        assert(val(N::count_of(((i + 1) / 7) as nat)) == (i / 7) as real);
    }
    if i < 35 {
        assert((i + 7) % 7 == i % 7 && (i + 7) / 7 == i / 7 + 1);
        assert(val(N::count_of(((i + 7) / 7) as nat)) == (i / 7) as real + 1 as real);
    }
}

/// Some cell is for year `y`.
pub open spec fn offers<N>(cells: Seq<(Rect<N>, i32)>, y: i32) -> bool {
    exists|k: int| 0 <= k < cells.len() && (#[trigger] cells[k]).1 == y
}

/// A page of years holds those of twelve years from its start on that can be chosen, in
/// their order, and no others.
pub proof fn law_year_page_is_in_order<N: Num>(row: Rect<N>, shown: Shown, n: nat)
    requires
        n <= 12,
    ensures
        ({
            let cells = year_page(row, shown, n);
            let from = shown.year_list_page_start;
            &&& forall|k: int|
                0 <= k < cells.len() ==> {
                    let y = (#[trigger] cells[k]).1;
                    &&& from <= y < from + n
                    &&& shown.min_year <= y <= shown.max_year
                }
            &&& forall|j: int, k: int|
                0 <= j < k < cells.len() ==> (#[trigger] cells[j]).1 < (#[trigger] cells[k]).1
            &&& forall|y: i32|
                from <= y < from + n && shown.min_year <= y <= shown.max_year
                    ==> #[trigger] offers(cells, y)
        }),
    decreases n,
{
    if n > 0 {
        law_year_page_is_in_order(row, shown, (n - 1) as nat);
        let before = year_page(row, shown, (n - 1) as nat);
        let cells = year_page(row, shown, n);
        let from = shown.year_list_page_start;
        let last = from + n - 1;
        assert forall|y: i32|
            from <= y < from + n && shown.min_year <= y <= shown.max_year implies #[trigger]
            offers(cells, y) by {
            if y == last {
                assert(cells[cells.len() - 1].1 == y);
            } else {
                assert(offers(before, y));
                let k = choose|k: int| 0 <= k < before.len() && (#[trigger] before[k]).1 == y;
                assert(cells[k].1 == y);
            }
        }
    }
}

/// The pages' buttons stand at the ends of the row, and the range between them.
pub proof fn law_year_page_buttons<N: Num>(val: spec_fn(N) -> real, row: Rect<N>, shown: Shown)
    requires
        exact(val),
    ensures
        ({
            let l = years_below(row, shown);
            &&& val(l.prev_page_rect.x) == val(row.x) && val(l.prev_page_rect.y) == val(row.y)
            &&& right_of(val, l.prev_page_rect, l.range_label_rect)
            &&& right_of(val, l.range_label_rect, l.next_page_rect)
            &&& right_end(val, l.next_page_rect) == right_end(val, row)
        }),
{
    lemma_whole::<N>(val, 2);
    let h = val(row.h);
    assert(h * 2 as real == h + h) by (nonlinear_arith);
}

// ---- the dial ----

/// Marks stand on the dial like the hours on a clock: the first twelfth straight up, then
/// right, down and left after a quarter turn each; opposite marks lie on either side of the
/// center.
pub proof fn law_dial_goes_clockwise<N: Num>(
    val: spec_fn(N) -> real,
    center: Point<N>,
    radius: N,
    k: int,
)
    requires
        exact(val),
    ensures
        ({
            let p = dial_point(center, radius, k);
            let q = dial_point(center, radius, k + 6);
            let (x, y) = (val(p.x) - val(center.x), val(p.y) - val(center.y));
            let r = val(radius);
            &&& k % 12 == 0 ==> x == 0 as real && y == -r
            &&& k % 12 == 3 ==> x == r && y == 0 as real
            &&& k % 12 == 6 ==> x == 0 as real && y == r
            &&& k % 12 == 9 ==> x == -r && y == 0 as real
            &&& x + val(q.x) - val(center.x) == 0 as real
            &&& y + val(q.y) - val(center.y) == 0 as real
            &&& r > 0 as real ==> {
                &&& 0 < k % 12 < 6 ==> x > 0 as real
                &&& k % 12 > 6 ==> x < 0 as real
                &&& 3 < k % 12 < 9 ==> y > 0 as real
                &&& k % 12 < 3 || k % 12 > 9 ==> y < 0 as real
            }
        }),
{
    let r = val(radius);
    lemma_whole::<N>(val, 1000);
    lemma_whole::<N>(val, twelfth_sine(k));
    lemma_whole::<N>(val, twelfth_sine(k + 3));
    lemma_whole::<N>(val, twelfth_sine(k + 6));
    lemma_whole::<N>(val, twelfth_sine(k + 9));
    assert(k + 6 + 3 == k + 9);
    let s = twelfth_sine(k) as real;
    let c = twelfth_sine(k + 3) as real;
    assert(twelfth_sine(k + 6) as real == -s);
    assert(twelfth_sine(k + 9) as real == -c);
    assert(r * (-s) == -(r * s) && r * (-c) == -(r * c)) by (nonlinear_arith);
    assert(s == 0 as real ==> r * s == 0 as real) by (nonlinear_arith);
    assert(c == 0 as real ==> r * c == 0 as real) by (nonlinear_arith);
    assert(s == 1000 as real ==> r * s == r * 1000 as real) by (nonlinear_arith);
    assert(c == 1000 as real ==> r * c == r * 1000 as real) by (nonlinear_arith);
    assert(s == -(1000 as real) ==> r * s == -(r * 1000 as real)) by (nonlinear_arith);
    assert(c == -(1000 as real) ==> r * c == -(r * 1000 as real)) by (nonlinear_arith);
    assert(r > 0 as real && s > 0 as real ==> r * s > 0 as real) by (nonlinear_arith);
    assert(r > 0 as real && c > 0 as real ==> r * c > 0 as real) by (nonlinear_arith);
    assert(r > 0 as real && s < 0 as real ==> r * s < 0 as real) by (nonlinear_arith);
    assert(r > 0 as real && c < 0 as real ==> r * c < 0 as real) by (nonlinear_arith);
}

/// The hand is turned to what is staged: an hour is a twelfth of a turn, a minute or second a
/// sixtieth. It points at the mark of that value, where there is one.
pub proof fn law_hand_points_at_the_staged_value(picker: TimePicker, k: int)
    requires
        0 <= k < 12,
        picker.staged_minute < 60,
        picker.staged_second < 60,
    ensures
        hand_degrees(picker) < 360,
        ({
            let value = match picker.mode {
                ClockMode::Hour => twelve_hour(picker.staged_hour as int).0,
                ClockMode::Minute => picker.staged_minute as int,
                ClockMode::Second => picker.staged_second as int,
            };
            mark_value(picker.mode, k) == value ==> hand_degrees(picker) == 30 * (mark_twelfth(
                picker.mode,
                k,
            ) % 12)
        }),
        picker.mode == ClockMode::Minute ==> hand_degrees(picker) == 6 * picker.staged_minute,
        picker.mode == ClockMode::Second ==> hand_degrees(picker) == 6 * picker.staged_second,
        // Twelve hours are a full turn.
        picker.mode == ClockMode::Hour ==> hand_degrees(picker) * 12 == 360 * (
        picker.staged_hour as int % 12),
{
}

/// An hour of the day on a 12-hour dial: 1 to 12, the same again twelve hours later, and
/// after noon from the twelfth hour on.
pub proof fn law_twelve_hours_repeat(hour: int)
    requires
        0 <= hour < 12,
    ensures
        1 <= twelve_hour(hour).0 <= 12,
        twelve_hour(hour).0 % 12 == hour,
        twelve_hour(hour + 12).0 == twelve_hour(hour).0,
        !twelve_hour(hour).1,
        twelve_hour(hour + 12).1,
{
}

/// The parts of a clock fill its panel: segments of equal width on top, the dial in the
/// middle under them, then the toggle and the footer.
#[verifier::rlimit(40)]
pub proof fn law_clock_parts_fill_the_panel<N: Num>(
    val: spec_fn(N) -> real,
    r: Rect<N>,
    font_size: N,
    with_seconds: bool,
    picker: TimePicker,
)
    requires
        exact(val),
        r.h == clock_height(font_size),
    ensures
        ({
            let l = clock_in(r, font_size, with_seconds, picker);
            let last = if with_seconds {
                l.second_segment_rect->0
            } else {
                l.minute_segment_rect
            };
            let d = l.dial_area;
            &&& l.popup_rect == r
            &&& l.second_segment_rect is Some <==> with_seconds
            &&& val(l.hour_segment_rect.x) == val(r.x) && val(l.hour_segment_rect.y) == val(r.y)
            &&& right_of(val, l.hour_segment_rect, l.minute_segment_rect)
            &&& l.hour_segment_rect.w == l.minute_segment_rect.w
            &&& with_seconds ==> right_of(val, l.minute_segment_rect, last)
            &&& right_end(val, last) == right_end(val, r)
            &&& val(d.y) == low_end(val, last) && val(d.w) == val(d.h)
            &&& val(d.x) - val(r.x) == right_end(val, r) - right_end(val, d)
            &&& val(l.dial_center.x) * 2 as real == val(d.x) + right_end(val, d)
            &&& val(l.dial_center.y) * 2 as real == val(d.y) + low_end(val, d)
            &&& val(l.dial_radius) * 5 as real == val(d.w) * 2 as real
            &&& val(l.ampm_rect.x) == val(r.x) && val(l.ampm_rect.w) == val(r.w)
            &&& val(l.ampm_rect.y) == low_end(val, d)
            &&& val(l.cancel_rect.x) == val(r.x)
            &&& val(l.cancel_rect.y) == low_end(val, l.ampm_rect)
            &&& right_of(val, l.cancel_rect, l.confirm_rect)
            &&& right_end(val, l.confirm_rect) == right_end(val, r)
            &&& low_end(val, l.confirm_rect) == low_end(val, r)
            &&& l.marks.len() == 12
        }),
{
    lemma_whole::<N>(val, 2);
    lemma_whole::<N>(val, 5);
    lemma_whole::<N>(val, 6);
    lemma_whole::<N>(val, 9);
    let n = unit_count(with_seconds);
    assert(val(N::count_of(n)) == n as real);
    lemma_sevenths(val(r.w));
    let row = clock_row(font_size);
    let h = val(row);
    assert(h * 6 as real == 6 as real * h && h * 9 as real == 9 as real * h) by (nonlinear_arith);
    let side = N::mul_of(row, whole(6));
    assert(val(half(side)) == val(side) / 2 as real);
    assert(val(half(r.w)) == val(r.w) / 2 as real);
}

/// A date and time has two tabs side by side on top of its panel, and under them the half
/// of the tab that is active, and no other.
pub proof fn law_tabs_show_one_half<N: Num>(
    val: spec_fn(N) -> real,
    at: Anchor<N>,
    with_seconds: bool,
    tab: DateTimeTab,
    shown: Shown,
    picker: TimePicker,
)
    requires
        exact(val),
    ensures
        ({
            let l = plain_datetime(at, with_seconds, tab, shown, picker);
            let r = l.popup_rect;
            &&& l.calendar is Some <==> tab == DateTimeTab::Calendar
            &&& l.clock is Some <==> tab == DateTimeTab::Clock
            &&& val(l.tab_calendar_rect.x) == val(r.x) && val(l.tab_calendar_rect.y) == val(r.y)
            &&& right_of(val, l.tab_calendar_rect, l.tab_clock_rect)
            &&& right_end(val, l.tab_clock_rect) == right_end(val, r)
            &&& l.calendar matches Some(c) ==> {
                &&& val(c.popup_rect.y) == low_end(val, l.tab_clock_rect)
                &&& low_end(val, c.popup_rect) == low_end(val, r)
            }
            &&& l.clock matches Some(c) ==> {
                &&& val(c.popup_rect.y) == low_end(val, l.tab_clock_rect)
                &&& low_end(val, c.popup_rect) == low_end(val, r)
            }
        }),
{
    let l = plain_datetime(at, with_seconds, tab, shown, picker);
    let r = l.popup_rect;
    lemma_whole::<N>(val, 2);
    assert(val(half(r.w)) == val(r.w) / 2 as real);
}

// ---- what shows as chosen ----

/// The accent color, and the colors of plain text and of text on the accent color.
pub open spec fn accent_color() -> Color {
    Color { r: 99, g: 102, b: 241, a: 255 }
}

pub open spec fn plain_color() -> Color {
    Color { r: 20, g: 20, b: 20, a: 255 }
}

pub open spec fn on_accent_color() -> Color {
    Color { r: 255, g: 255, b: 255, a: 255 }
}

/// `text` is written across `rect`, in its middle, in `color`.
pub open spec fn writes<N>(
    val: spec_fn(N) -> real,
    op: Op<N>,
    text: Seq<char>,
    rect: Rect<N>,
    color: Color,
) -> bool {
    op matches Op::Text(t, at, style) && t == text && at.x == rect.x && at.w == rect.w
        && same_middle(val, at, rect) && style.color == color
}

/// A shape is filled with `color`.
pub open spec fn fills<N>(op: Op<N>, color: Color) -> bool {
    op matches Op::Fill(_, c, _) && c == color
}

/// Some shape is filled with the accent color.
pub open spec fn is_accented<N>(ops: Seq<Op<N>>) -> bool {
    exists|i: int| 0 <= i < ops.len() && fills(#[trigger] ops[i], accent_color())
}

proof fn lemma_centered<N: Num>(val: spec_fn(N) -> real, r: Rect<N>, size: N)
    requires
        exact(val),
    ensures
        same_middle(val, vcentered(r, size), r),
{
    lemma_whole::<N>(val, 2);
    let d = N::sub_of(r.h, N::mul_of(size, N::ratio_of(13, 10)));
    assert(val(half(d)) == val(d) / 2 as real);
}

proof fn lemma_highlight<N: Num>(rect: Rect<N>, shape: Rect<N>, radius: N, p: Pointer<N>)
    ensures
        !is_accented(highlight_ops(rect, shape, radius, p)),
        highlight_ops(rect, shape, radius, p).len() <= 1,
{
    let ops = highlight_ops(rect, shape, radius, p);
    if is_accented(ops) {
        let i = choose|i: int| 0 <= i < ops.len() && fills(#[trigger] ops[i], accent_color());
        assert(i == 0);
        assert(!fills(ops[0], accent_color()));
    }
}

/// A cell shows its label, and is accented if, and only if, it is the chosen one.
pub proof fn law_chosen_cell_is_accented<N: Num>(
    val: spec_fn(N) -> real,
    rect: Rect<N>,
    label: Seq<char>,
    font_size: N,
    chosen: bool,
    share: N,
    hover: Rect<N>,
    hover_radius: N,
    p: Pointer<N>,
)
    requires
        exact(val),
    ensures
        ({
            let ops = cell_ops(rect, label, font_size, chosen, share, hover, hover_radius, p);
            &&& is_accented(ops) <==> chosen
            &&& writes(
                val,
                ops.last(),
                label,
                rect,
                if chosen {
                    on_accent_color()
                } else {
                    plain_color()
                },
            )
        }),
{
    let ops = cell_ops(rect, label, font_size, chosen, share, hover, hover_radius, p);
    lemma_centered(val, rect, font_size);
    if chosen {
        assert(fills(ops[0], accent_color()));
    } else {
        lemma_highlight(rect, hover, hover_radius, p);
        let h = highlight_ops(rect, hover, hover_radius, p);
        if is_accented(ops) {
            let i = choose|i: int| 0 <= i < ops.len() && fills(#[trigger] ops[i], accent_color());
            if i < h.len() {
                assert(h[i] == ops[i]);
                assert(fills(h[i], accent_color()));
            }
        }
    }
}

/// What is drawn for a day: its number in its cell, accented if it is the staged day.
pub open spec fn shows_day<N>(
    val: spec_fn(N) -> real,
    part: Seq<Op<N>>,
    rect: Rect<N>,
    d: u32,
    staged: int,
) -> bool {
    &&& part.len() > 0
    &&& writes(
        val,
        part.last(),
        decimal(d as nat),
        rect,
        if d == staged {
            on_accent_color()
        } else {
            plain_color()
        },
    )
    &&& is_accented(part) <==> d == staged
}

proof fn lemma_stands_on<N>(ops: Seq<Op<N>>, part: Seq<Op<N>>, at: int, more: Seq<Op<N>>)
    requires
        stands_at(ops, part, at),
    ensures
        stands_at(ops + more, part, at),
{
}

proof fn lemma_stands_after<N>(before: Seq<Op<N>>, ops: Seq<Op<N>>, part: Seq<Op<N>>, at: int)
    requires
        stands_at(ops, part, at),
    ensures
        stands_at(before + ops, part, before.len() + at),
{
    assert forall|i: int| 0 <= i < part.len() implies #[trigger] part[i] == (before + ops)[before.len()
        + at + i] by {
        assert(ops[at + i] == (before + ops)[before.len() + at + i]);
    }
}

proof fn lemma_day_cell<N: Num>(
    val: spec_fn(N) -> real,
    cells: Seq<(Rect<N>, Option<u32>)>,
    p: Pointer<N>,
    font_size: N,
    staged: int,
    n: nat,
    i: int,
) -> (r: (Seq<Op<N>>, int))
    requires
        exact(val),
        0 <= i < n <= cells.len(),
        cells[i].1 is Some,
    ensures
        stands_at(day_cells_ops(cells, p, font_size, staged, n), r.0, r.1),
        shows_day(val, r.0, cells[i].0, cells[i].1->0, staged),
    decreases n,
{
    let all = day_cells_ops(cells, p, font_size, staged, n);
    let before = day_cells_ops(cells, p, font_size, staged, (n - 1) as nat);
    if i < n - 1 {
        let r = lemma_day_cell(val, cells, p, font_size, staged, (n - 1) as nat, i);
        let rest = all.skip(before.len() as int);
        assert(all =~= before + rest);
        lemma_stands_on(before, r.0, r.1, rest);
        r
    } else {
        let (rect, day) = cells[i];
        let d = day->0;
        let share = N::ratio_of(72, 100);
        let hover = bubble(rect, share);
        let part = cell_ops(
            rect,
            decimal(d as nat),
            font_size,
            d == staged,
            share,
            hover,
            half(hover.w),
            p,
        );
        law_chosen_cell_is_accented(
            val,
            rect,
            decimal(d as nat),
            font_size,
            d == staged,
            share,
            hover,
            half(hover.w),
            p,
        );
        assert(all == before + part);
        (part, before.len() as int)
    }
}

/// A calendar shows every day of its cells, and of them accents the staged one.
pub proof fn law_calendar_shows_its_days<N: Num>(
    val: spec_fn(N) -> real,
    l: CalendarView<N>,
    p: Pointer<N>,
    font_size: N,
    year: int,
    month: int,
    staged: int,
    i: int,
)
    requires
        exact(val),
        l.year_list is None,
        0 <= i < l.day_cells.len(),
        l.day_cells[i].1 is Some,
    ensures
        exists|part: Seq<Op<N>>, at: int| #[trigger]
            stands_at(calendar_ops(l, p, font_size, year, month, staged), part, at) && shows_day(
                val,
                part,
                l.day_cells[i].0,
                l.day_cells[i].1->0,
                staged,
            ),
{
    let ops = calendar_ops(l, p, font_size, year, month, staged);
    let days = day_cells_ops(l.day_cells, p, font_size, staged, l.day_cells.len());
    let head = panel_ops(l.popup_rect) + header_ops(
        l,
        p,
        font_size,
        year,
        month,
    ) + weekday_ops(l.weekday_row, font_size, 7);
    let foot = footer_ops(l.cancel_rect, l.confirm_rect, font_size, p);
    let (part, at) = lemma_day_cell(val, l.day_cells, p, font_size, staged, l.day_cells.len(), i);
    assert(ops =~= head + days + foot);
    lemma_stands_after(head, days, part, at);
    lemma_stands_on(head + days, part, head.len() + at, foot);
    assert(stands_at(ops, part, head.len() + at));
}

/// The name of the month and the number of the year stand in their parts of the header.
pub proof fn law_header_names_the_month<N: Num>(
    val: spec_fn(N) -> real,
    l: CalendarView<N>,
    p: Pointer<N>,
    font_size: N,
    year: int,
    month: int,
)
    requires
        exact(val),
        1 <= month <= 12,
    ensures
        ({
            let ops = header_ops(l, p, font_size, year, month);
            &&& exists|i: int|
                0 <= i < ops.len() && writes(
                    val,
                    #[trigger] ops[i],
                    month_names()[month - 1],
                    l.month_label_rect,
                    plain_color(),
                )
            &&& exists|i: int|
                0 <= i < ops.len() && writes(
                    val,
                    #[trigger] ops[i],
                    int_text(year) + seq![' ', '\u{25be}'],
                    l.year_dropdown_rect,
                    plain_color(),
                )
        }),
{
    let ops = header_ops(l, p, font_size, year, month);
    lemma_centered(val, l.month_label_rect, font_size);
    lemma_centered(val, l.year_dropdown_rect, font_size);
    let a = button_ops(l.month_prev_rect, "<"@, font_size, p, false);
    let b = button_ops(l.month_next_rect, ">"@, font_size, p, false);
    let h = highlight_ops(l.year_dropdown_rect, l.year_dropdown_rect, whole(6), p);
    let i = (a.len() + b.len()) as int;
    let j = i + 1 + h.len();
    assert(writes(val, ops[i], month_names()[month - 1], l.month_label_rect, plain_color()));
    assert(writes(
        val,
        ops[j],
        int_text(year) + seq![' ', '\u{25be}'],
        l.year_dropdown_rect,
        plain_color(),
    ));
}

/// A button shows its label, in the accent color if it is selected.
pub proof fn law_selected_button_is_accented<N: Num>(
    val: spec_fn(N) -> real,
    rect: Rect<N>,
    label: Seq<char>,
    font_size: N,
    p: Pointer<N>,
    selected: bool,
)
    requires
        exact(val),
    ensures
        writes(
            val,
            button_ops(rect, label, font_size, p, selected).last(),
            label,
            rect,
            if selected {
                accent_color()
            } else {
                plain_color()
            },
        ),
{
    lemma_centered(val, rect, font_size);
}

/// A segment of the clock shows its value, and is accented if its unit is the one that is
/// set: the hour on a 12-hour dial, the minute and the second, in two digits each.
pub proof fn law_active_segment_is_accented<N: Num>(
    val: spec_fn(N) -> real,
    l: ClockView<N>,
    picker: TimePicker,
    p: Pointer<N>,
    font_size: N,
)
    requires
        exact(val),
    ensures
        ({
            let ops = segments_ops(l, picker, p, font_size);
            &&& exists|i: int|
                0 <= i < ops.len() && writes(
                    val,
                    #[trigger] ops[i],
                    two_digits(twelve_hour(picker.staged_hour as int).0 as nat),
                    l.hour_segment_rect,
                    if picker.mode == ClockMode::Hour {
                        accent_color()
                    } else {
                        plain_color()
                    },
                )
            &&& exists|i: int|
                0 <= i < ops.len() && writes(
                    val,
                    #[trigger] ops[i],
                    two_digits(picker.staged_minute as nat),
                    l.minute_segment_rect,
                    if picker.mode == ClockMode::Minute {
                        accent_color()
                    } else {
                        plain_color()
                    },
                )
            &&& l.second_segment_rect is Some ==> writes(
                val,
                ops.last(),
                two_digits(picker.staged_second as nat),
                l.second_segment_rect->0,
                if picker.mode == ClockMode::Second {
                    accent_color()
                } else {
                    plain_color()
                },
            )
        }),
{
    let big = N::mul_of(font_size, N::ratio_of(14, 10));
    lemma_centered(val, l.hour_segment_rect, big);
    lemma_centered(val, l.minute_segment_rect, big);
    if l.second_segment_rect is Some {
        lemma_centered(val, l.second_segment_rect->0, big);
    }
    let ops = segments_ops(l, picker, p, font_size);
    let a = segment_ops(
        l.hour_segment_rect,
        two_digits(twelve_hour(picker.staged_hour as int).0 as nat),
        picker.mode == ClockMode::Hour,
        p,
        font_size,
    );
    let b = segment_ops(
        l.minute_segment_rect,
        two_digits(picker.staged_minute as nat),
        picker.mode == ClockMode::Minute,
        p,
        font_size,
    );
    assert(ops[a.len() - 1] == a.last());
    assert(ops[a.len() + b.len() - 1] == b.last());
}

/// The half of the toggle that holds of the staged hour is filled with the accent color, and
/// the other is not: the left one in the morning, the right one after noon.
pub proof fn law_toggle_shows_morning_or_afternoon<N: Num>(
    val: spec_fn(N) -> real,
    rect: Rect<N>,
    hour: int,
    p: Pointer<N>,
    font_size: N,
)
    requires
        exact(val),
    ensures
        ({
            let ops = ampm_ops(rect, twelve_hour(hour).1, p, font_size);
            exists|n: int| #![trigger ops.take(n)]
                {
                    let (am, pm) = (ops.take(n), ops.skip(n));
                    &&& 0 < n < ops.len()
                    &&& is_accented(am) <==> hour < 12
                    &&& is_accented(pm) <==> hour >= 12
                    &&& am.last() matches Op::Text(t, at, _) && t == "AM"@ && val(at.x) == val(
                        rect.x,
                    )
                    &&& pm.last() matches Op::Text(t, at, _) && t == "PM"@ && right_end(val, at)
                        == right_end(val, rect)
                }
        }),
{
    let is_pm = twelve_hour(hour).1;
    let w = half(rect.w);
    lemma_whole::<N>(val, 2);
    assert(val(w) == val(rect.w) / 2 as real);
    let left = Rect { x: rect.x, y: rect.y, w, h: rect.h };
    let right = Rect { x: N::add_of(rect.x, w), y: rect.y, w, h: rect.h };
    let a = toggle_ops(left, "AM"@, !is_pm, p, font_size);
    let b = toggle_ops(right, "PM"@, is_pm, p, font_size);
    let ops = ampm_ops(rect, is_pm, p, font_size);
    lemma_toggle(left, "AM"@, !is_pm, p, font_size);
    lemma_toggle(right, "PM"@, is_pm, p, font_size);
    let n = a.len() as int;
    assert(ops.take(n) =~= a);
    assert(ops.skip(n) =~= b);
}

proof fn lemma_toggle<N: Num>(
    rect: Rect<N>,
    label: Seq<char>,
    active: bool,
    p: Pointer<N>,
    font_size: N,
)
    ensures
        ({
            let ops = toggle_ops(rect, label, active, p, font_size);
            &&& ops.len() > 0
            &&& is_accented(ops) <==> active
            &&& ops.last() matches Op::Text(t, at, _) && t == label && at.x == rect.x && at.w
                == rect.w
        }),
{
    let ops = toggle_ops(rect, label, active, p, font_size);
    let inner = inset_rect(
        rect,
        edges_all(whole(2)),
    );
    if active {
        assert(fills(ops[0], accent_color()));
    } else {
        lemma_highlight(rect, inner, half(rect.h), p);
        let h = highlight_ops(rect, inner, half(rect.h), p);
        if is_accented(ops) {
            let i = choose|i: int| 0 <= i < ops.len() && fills(#[trigger] ops[i], accent_color());
            if i < h.len() {
                assert(h[i] == ops[i]);
                assert(fills(h[i], accent_color()));
            }
        }
    }
}

/// Weekday `i` is labelled over the column of the days that fall on it.
pub proof fn law_weekdays_head_their_columns<N: Num>(
    val: spec_fn(N) -> real,
    row: Rect<N>,
    font_size: N,
    n: nat,
    i: int,
)
    requires
        exact(val),
        0 <= i < n <= 7,
    ensures
        weekday_ops(row, font_size, n).len() == n,
        weekday_ops(row, font_size, n)[i] matches Op::Text(t, at, _) && t == weekday_labels()[i]
            && (val(at.x) - val(row.x)) * 7 as real == i as real * val(row.w) && val(at.w)
            * 7 as real == val(row.w),
    decreases n,
{
    lemma_whole::<N>(val, 7);
    if n > 1 && i < n - 1 {
        law_weekdays_head_their_columns(val, row, font_size, (n - 1) as nat, i);
    } else {
        if n > 1 {
            law_weekdays_head_their_columns(val, row, font_size, (n - 1) as nat, 0);
        } else {
            assert(weekday_ops(row, font_size, 0).len() == 0);
        }
        assert(val(N::count_of((n - 1) as nat)) == (n - 1) as real);
        let a = i as real;
        let w = val(row.w);
        assert((a * (w / 7 as real)) * 7 as real == a * w) by (nonlinear_arith);
    }
}

/// What is drawn for a mark of the dial: its label around its point, accented if it is
/// chosen.
pub open spec fn shows_mark<N>(
    val: spec_fn(N) -> real,
    part: Seq<Op<N>>,
    at: Point<N>,
    label: Seq<char>,
    chosen: bool,
) -> bool {
    &&& part.len() > 0
    &&& is_accented(part) <==> chosen
    &&& part.last() matches Op::Text(t, r, style) && t == label && val(r.x) + right_end(val, r)
        == val(at.x) * 2 as real && val(r.y) + low_end(val, r) == val(at.y) * 2 as real
        && style.color == if chosen {
        on_accent_color()
    } else {
        plain_color()
    }
}

/// The dial shows each of its marks: hours 1 to 12, or every fifth minute or second. It
/// accents the staged hour, or the mark that is nearest to the staged minute or second.
pub proof fn law_dial_shows_its_marks<N: Num>(
    val: spec_fn(N) -> real,
    l: ClockView<N>,
    picker: TimePicker,
    font_size: N,
    n: nat,
    k: int,
)
    requires
        exact(val),
        0 <= k < n <= 12,
        picker.staged_minute < 60,
        picker.staged_second < 60,
    ensures
        exists|part: Seq<Op<N>>, at: int| #[trigger]
            stands_at(marks_ops(l, picker, font_size, n), part, at) && shows_mark(
                val,
                part,
                l.marks[k],
                match picker.mode {
                    ClockMode::Hour => decimal((k + 1) as nat),
                    _ => two_digits((k * 5) as nat),
                },
                match picker.mode {
                    ClockMode::Hour => (picker.staged_hour as int - (k + 1)) % 12 == 0,
                    ClockMode::Minute => is_nearest(k * 5, picker.staged_minute as int),
                    ClockMode::Second => is_nearest(k * 5, picker.staged_second as int),
                },
            ),
    decreases n,
{
    let ops = marks_ops(l, picker, font_size, n);
    let before = marks_ops(l, picker, font_size, (n - 1) as nat);
    let rest = ops.skip(before.len() as int);
    assert(ops =~= before + rest);
    if k < n - 1 {
        law_dial_shows_its_marks(val, l, picker, font_size, (n - 1) as nat, k);
        let label = match picker.mode {
            ClockMode::Hour => decimal((k + 1) as nat),
            _ => two_digits((k * 5) as nat),
        };
        let chosen = match picker.mode {
            ClockMode::Hour => (picker.staged_hour as int - (k + 1)) % 12 == 0,
            ClockMode::Minute => is_nearest(k * 5, picker.staged_minute as int),
            ClockMode::Second => is_nearest(k * 5, picker.staged_second as int),
        };
        let (part, at) = choose|part: Seq<Op<N>>, at: int| #[trigger]
            stands_at(before, part, at) && shows_mark(val, part, l.marks[k], label, chosen);
        lemma_stands_on(before, part, at, rest);
        assert(stands_at(ops, part, at));
    } else {
        lemma_whole::<N>(val, 2);
        lemma_whole::<N>(val, 18);
        let r = N::max_of(whole(18), font_size);
        let d = val(r);
        assert(d * 2 as real == d + d) by (nonlinear_arith);
        let at = l.marks[k];
        let rect = Rect {
            x: N::sub_of(at.x, r),
            y: N::sub_of(at.y, r),
            w: N::mul_of(r, whole(2)),
            h: N::mul_of(r, whole(2)),
        };
        lemma_centered(val, rect, N::mul_of(font_size, N::ratio_of(9, 10)));
        let chosen = mark_value(picker.mode, k) == chosen_mark(picker);
        if chosen {
            assert(fills(rest[0], accent_color()));
        } else {
            assert(rest.len() == 1);
        }
        assert(is_accented(rest) <==> chosen);
        assert(stands_at(ops, rest, before.len() as int));
    }
}

/// `mark` is the mark of a dial of 60 that is nearest to `v`, on the way round.
pub open spec fn is_nearest(mark: int, v: int) -> bool {
    (mark - v + 2) % 60 < 5
}

} // verus!
