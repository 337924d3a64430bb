use nowui::toolkit::datetime::{
    calendar_days, civil_from_days, days_from_civil, days_in_month, format_date, format_datetime, format_time,
    is_leap_year, join_datetime, moment, nearest_tick, now, parse_date, parse_time, split_datetime, step_hms,
    to_12_hour, weekday,
};
use nowui::toolkit::geometry::Rect;
use nowui::toolkit::num::Px;
use nowui::toolkit::popup_layout::{layout_calendar, layout_clock, layout_datetime};

#[test]
fn days_in_month_accounts_for_leap_years() {
    assert_eq!(days_in_month(2024, 2), 29); // leap
    assert_eq!(days_in_month(2023, 2), 28); // not leap
    assert_eq!(days_in_month(1900, 2), 28); // divisible by 100, not 400
    assert_eq!(days_in_month(2000, 2), 29); // divisible by 400
}

#[test]
fn civil_days_roundtrip_through_a_known_date() {
    // 2024-03-15 is a Friday.
    assert_eq!(weekday(2024, 3, 15), 5);
    // 1970-01-01 (the epoch) is a Thursday.
    assert_eq!(weekday(1970, 1, 1), 4);
}

#[test]
fn date_format_and_parse_round_trip() {
    assert_eq!(format_date(2024, 3, 5), "05/03/2024");
    assert_eq!(parse_date("05/03/2024"), Some((2024, 3, 5)));
    assert_eq!(parse_date("31/02/2024"), None); // Feb never has 31 days
    assert_eq!(parse_date("not a date"), None);
}

#[test]
fn time_format_respects_with_seconds() {
    assert_eq!(format_time(9, 5, 30, true), "09:05:30");
    assert_eq!(format_time(9, 5, 30, false), "09:05");
    assert_eq!(parse_time("09:05"), Some((9, 5, 0)));
    assert_eq!(parse_time("09:05:30"), Some((9, 5, 30)));
    assert_eq!(parse_time("25:00"), None);
}

#[test]
fn split_and_join_datetime_round_trip() {
    assert_eq!(split_datetime("05/03/2024 09:05:30"), ("05/03/2024", "09:05:30"));
    assert_eq!(split_datetime("05/03/2024"), ("05/03/2024", ""));
    assert_eq!(split_datetime("09:05:30"), ("", "09:05:30"));
    assert_eq!(split_datetime(""), ("", ""));
    assert_eq!(join_datetime("05/03/2024", "09:05:30"), "05/03/2024 09:05:30");
    assert_eq!(join_datetime("05/03/2024", ""), "05/03/2024");
    assert_eq!(join_datetime("", "09:05:30"), "09:05:30");
}

#[test]
fn calendar_layout_places_day_one_after_its_leading_blanks() {
    // March 2024 starts on a Friday (weekday 5), so the first 5 cells
    // (Sun..Thu) are blank and day 1 lands in the 6th cell.
    let layout = layout_calendar(Rect::new(Px(0), Px(0), Px(280), Px(40)), Px(16), 2024, 3);
    assert_eq!(layout.day_cells[4].1, None);
    assert_eq!(layout.day_cells[5].1, Some(1));
    assert_eq!(layout.day_cells[6].1, Some(2));
    // March has 31 days: day 31 is the 5+31-1 = 35th cell (0-indexed).
    assert_eq!(layout.day_cells[35].1, Some(31));
    assert_eq!(layout.day_cells[36].1, None);
}

#[test]
fn step_hms_wraps_at_bounds() {
    assert_eq!(step_hms(23, 0, 0, 0, 1), (0, 0, 0));
    assert_eq!(step_hms(0, 0, 0, 0, -1), (23, 0, 0));
    assert_eq!(step_hms(0, 59, 0, 1, 1), (0, 0, 0));
    assert_eq!(step_hms(0, 0, 0, 1, -1), (0, 59, 0));
    assert_eq!(step_hms(0, 0, 59, 2, 1), (0, 0, 0));
}

#[test]
fn day_numbers_and_dates_are_inverse() {
    assert_eq!(days_from_civil(1970, 1, 1), 0);
    assert_eq!(days_from_civil(2000, 3, 1), 11017);
    for z in [-719468i64, -1, 0, 59, 11016, 19796, 2932896] {
        let (y, m, d) = civil_from_days(z);
        assert_eq!(days_from_civil(y, m, d), z);
    }
    assert!(is_leap_year(2024) && !is_leap_year(2100));
}

#[test]
fn a_moment_is_a_date_and_a_time() {
    assert_eq!(moment(None), (1970, 1, 1, 0, 0, 0));
    assert_eq!(moment(Some(951_782_400)), (2000, 2, 29, 0, 0, 0));
    assert_eq!(moment(Some(1_710_493_530)), (2024, 3, 15, 9, 5, 30));
    let (y, m, d, h, mi, s) = now();
    assert!(y >= 2024 && (1..=12).contains(&m) && (1..=31).contains(&d) && h < 24 && mi < 60 && s < 60);
}

#[test]
fn a_full_value_names_date_and_time() {
    assert_eq!(format_datetime(2024, 3, 5, 9, 5, 30, true), "05/03/2024 09:05:30");
    assert_eq!(format_datetime(2024, 3, 5, 9, 5, 30, false), "05/03/2024 09:05");
}

#[test]
fn hours_and_marks_of_the_dial() {
    assert_eq!(to_12_hour(0), (12, false));
    assert_eq!(to_12_hour(13), (1, true));
    assert_eq!(nearest_tick(2), 0);
    assert_eq!(nearest_tick(3), 5);
    assert_eq!(nearest_tick(58), 0);
}

#[test]
fn the_grid_shows_every_day_once() {
    let days: Vec<u32> = calendar_days(2023, 2).into_iter().flatten().collect();
    assert_eq!(days, (1..=28).collect::<Vec<u32>>());
}

#[test]
fn a_step_back_undoes_a_step() {
    let (h, m, s) = step_hms(12, 30, 59, 2, 1);
    assert_eq!(step_hms(h, m, s, 2, -1), (12, 30, 59));
}

#[test]
fn popups_hang_below_their_box() {
    let b = Rect::new(Px(10), Px(20), Px(210), Px(40));
    let cal = layout_calendar(b, Px(10), 2024, 3);
    assert_eq!((cal.popup_rect.x, cal.popup_rect.y, cal.popup_rect.w), (Px(10), Px(60), Px(210)));
    assert_eq!(cal.prev_rect.w, cal.next_rect.h);
    let clock = layout_clock(b, Px(10), false);
    assert_eq!(clock.columns.len(), 2);
    assert_eq!(clock.columns[1].0.x, Px(115));
    let both = layout_datetime(b, Px(10), true, 2024, 3);
    assert_eq!(both.clock.columns.len(), 3);
    assert_eq!(both.clock.popup_rect.y, Px(60 + both.calendar.popup_rect.h.0));
    assert_eq!(both.popup_rect.h.0, both.calendar.popup_rect.h.0 + both.clock.popup_rect.h.0);
}

#[test]
fn a_joined_value_splits_into_its_parts() {
    for (date, time) in [("01/02/2024", "10:00"), ("today", "10:00"), ("01/02/2024", ""), ("", "10:00"), ("x", "a b")] {
        assert_eq!(split_datetime(&join_datetime(date, time)), (date, time));
    }
}
