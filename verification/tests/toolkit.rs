use nowui::assoc::AssocMap;
use nowui::order::{in_order, stable_order};
use nowui::text::{padded_decimal, parse_signed, parse_unsigned, replace_all, split, split_words, text_lines, trim, trim_suffix};
use nowui::toolkit::arena::{ClockMode, DatePicker, DateTimeTab, Node, NodeId, NodeKind, TimePicker, Ui};
use nowui::toolkit::canvas::{Canvas, PaintOp};
use nowui::toolkit::geometry::{Color, Edges, Point, Rect, Size};
use nowui::toolkit::grid::place_grid_children;
use nowui::toolkit::layout::solve;
use nowui::toolkit::measure::{measure_all, Metrics, PlainMetrics};
use nowui::toolkit::num::{clamp, mix, Num, Px};
use nowui::toolkit::paint::{is_drawable, paint};
use nowui::toolkit::pickers::{
    month_name, paint_calendar, paint_clock, paint_date_popup, paint_datetime_popup, paint_time_popup, CalendarParts,
    Anchor, ClockParts, DateTimeParts, Pointer, Shown,
};
use nowui::toolkit::style::{
    compute_effective, dropdown_metrics, Align, AnimatableStyle, Direction, Display, GridTrack, Position, Sizing, Style, StyleVariants,
    Transform2D,
};
use nowui::toolkit::tailwind::{
    border_width, breakpoint, color, delay_ms, duration_ms, font_size, font_weight, fraction, leading, opacity, palette, radius,
    tracking, Easing,
};

const METRICS: PlainMetrics<Px> = PlainMetrics { track_h: Px(4), thumb_d: Px(16), control_w: Px(160) };

fn rect(x: i32, y: i32, w: i32, h: i32) -> Rect<Px> {
    Rect::new(Px(x), Px(y), Px(w), Px(h))
}

// ---- texts and lists ----

#[test]
fn texts_are_taken_apart() {
    assert_eq!(trim("  a b \t"), "a b");
    assert_eq!(trim_suffix("10pxpx", "px"), "10");
    assert_eq!(split("a,,b", ','), vec!["a", "", "b"]);
    assert_eq!(split_words(" a  bc "), vec!["a", "bc"]);
    assert_eq!(text_lines("a\r\nb\n"), vec!["a", "b"]);
    assert_eq!(replace_all("aXbX", "X", "yy"), "ayybyy");
    assert_eq!(padded_decimal(7, 3), "007");
    assert_eq!(parse_unsigned("+12"), Some(12));
    assert_eq!(parse_unsigned("4294967296"), None);
    assert_eq!(parse_signed("-2147483648"), Some(i32::MIN));
    assert_eq!(parse_signed("x"), None);
}

#[test]
fn order_is_stable() {
    let keys: Vec<String> = ["b", "a", "b", ""].iter().map(|s| s.to_string()).collect();
    let ord = stable_order(&keys);
    assert_eq!(ord, vec![3, 1, 0, 2]);
    assert_eq!(in_order(vec!['w', 'x', 'y', 'z'], &ord), vec!['z', 'x', 'w', 'y']);
    assert_eq!(stable_order(&vec![(1u32, 2u32), (1, 1), (0, 9)]), vec![2, 1, 0]);
}

#[test]
fn a_map_remembers_the_order_of_its_keys() {
    let mut m: AssocMap<u8> = AssocMap::new();
    m.insert("b", 1);
    m.insert("a", 2);
    m.insert("b", 3);
    assert_eq!((m.len(), m.key_at(0), m.get("b")), (2, "b", Some(&3)));
    m.remove("b");
    assert_eq!((m.len(), m.get("b"), m.key_at(0)), (1, None, "a"));
}

// ---- numbers and geometry ----

#[test]
fn whole_pixels_saturate() {
    assert_eq!(Px(i32::MAX).plus(Px(1)), Px(i32::MAX));
    assert_eq!(Px(i32::MIN).negated(), Px(i32::MAX));
    assert_eq!(Px(-7).over(Px(2)), Px(-3));
    assert_eq!(Px(7).over(Px(0)), Px(0));
    assert_eq!((Px(300).to_byte(), Px(-1).to_index(), Px(-12).to_text()), (255, 0, "-12".to_string()));
    assert_eq!(clamp(Px(9), Px(0), Px(5)), Px(5));
    assert_eq!(mix(Px(10), Px(20), Px(1)), Px(20));
}

#[test]
fn edges_follow_the_shorthand() {
    let e = |s: &str| {
        let e: Edges<Px> = Edges::parse(s);
        (e.top.0, e.right.0, e.bottom.0, e.left.0)
    };
    assert_eq!(e("4px"), (4, 4, 4, 4));
    assert_eq!(e("1px 2px"), (1, 2, 1, 2));
    assert_eq!(e("1px 2px 3px"), (1, 2, 3, 2));
    assert_eq!(e("1 2 3 4"), (1, 2, 3, 4));
    assert!(rect(0, 0, 10, 10).contains(Point::new(Px(10), Px(0))));
    assert!(!rect(0, 0, 10, 10).contains(Point::new(Px(11), Px(0))));
    assert_eq!(rect(0, 0, 10, 10).inset(Edges::all(Px(2))), rect(2, 2, 6, 6));
}

// ---- styles ----

#[test]
fn tokens_give_their_values() {
    assert_eq!(font_size::<Px>("lg"), Some((Px(18), Px(28))));
    assert_eq!(font_weight("bold"), Some(700));
    assert_eq!(fraction::<Px>("8/2"), Some(Px(4)));
    assert_eq!(fraction::<Px>("8/0"), None);
    assert_eq!(leading::<Px>("none", Px(16)), Some(Px(16)));
    assert_eq!(tracking::<Px>("normal"), Some(Px(0)));
    assert_eq!(radius::<Px>("full"), Some(Px(9999)));
    assert_eq!(border_width::<Px>("4"), Some(Px(4)));
    assert_eq!(opacity::<Px>("100"), Some(Px(1)));
    assert_eq!(duration_ms::<Px>("150"), Some(Px(150)));
    assert_eq!(delay_ms::<Px>("x"), None);
    assert_eq!(breakpoint("md"), Some(768));
    assert_eq!(Easing::from_token("in-out"), Some(Easing::InOut));
    assert_eq!(Easing::from_token("nope"), None);
    assert_eq!(palette("red", "500"), Some("#ef4444"));
    assert_eq!(palette("red", "501"), None);
    assert_eq!(color("transparent"), Some(Color::transparent()));
}

#[test]
fn variants_lie_over_the_base() {
    let base: Style<Px> = Style { gap: Px(1), ..Default::default() };
    let mut v = StyleVariants::default();
    v.hover = Some(Style { gap: Px(1), opacity: Px(0), ..Default::default() });
    v.responsive = vec![(640, Style { gap: Px(6), ..Default::default() }), (1024, Style { gap: Px(10), ..Default::default() })];
    assert_eq!(compute_effective(&base, &v, 600, false, false, false).gap, Px(1));
    assert_eq!(compute_effective(&base, &v, 800, false, false, false).gap, Px(6));
    let hovered = compute_effective(&base, &v, 1024, true, false, false);
    assert_eq!((hovered.gap, hovered.opacity), (Px(10), Px(0)), "what the variant does not touch stays");
    assert_eq!(dropdown_metrics(Px(10)), (Px(26), Px(22)));
}

#[test]
fn animated_values_go_from_one_style_to_another() {
    let a: Style<Px> = Style { bg: Some(Color::rgb(0, 0, 0)), ..Default::default() };
    let b: Style<Px> = Style { bg: Some(Color::rgb(200, 0, 0)), border_color: Some(Color::white()), ..Default::default() };
    let (from, to) = (AnimatableStyle::from_style(&a), AnimatableStyle::from_style(&b));
    assert_eq!(AnimatableStyle::lerp(from, to, Px(0)).bg, a.bg);
    let end = AnimatableStyle::lerp(from, to, Px(1));
    assert_eq!((end.bg, end.border_color), (b.bg, b.border_color));
    let mut s: Style<Px> = Style { gap: Px(3), ..Default::default() };
    end.write_into(&mut s);
    assert_eq!((s.bg, s.gap), (b.bg, Px(3)));
    let t: Transform2D<Px> = Transform2D::identity();
    assert!(t.is_identity());
}

// ---- layout, hits and painting ----

fn sized(ui: &mut Ui<Px>, w: i32, h: i32) -> NodeId {
    ui.push(Node::new(
        NodeKind::Container,
        Style { width: Sizing::Fixed(Px(w)), height: Sizing::Fixed(Px(h)), ..Default::default() },
    ))
}

#[test]
fn children_are_aligned_along_both_axes() {
    let mut ui: Ui<Px> = Ui::new();
    let (a, b) = (sized(&mut ui, 20, 10), sized(&mut ui, 20, 10));
    let root = ui.push(Node::new(
        NodeKind::Container,
        Style { direction: Direction::Row, align_main: Align::End, align_cross: Align::Center, gap: Px(5), ..Default::default() },
    ));
    ui.get_mut(root).children = vec![a, b];
    ui.add_layer(root, "main");
    solve(&mut ui, Size::new(Px(100), Px(50)), &METRICS);
    assert_eq!(ui.get(a).computed, rect(55, 20, 20, 10));
    assert_eq!(ui.get(b).computed, rect(80, 20, 20, 10));
}

#[test]
fn grid_cells_advance_and_span() {
    let mut ui: Ui<Px> = Ui::new();
    let cells: Vec<NodeId> = (0..3).map(|_| ui.push(Node::new(NodeKind::Container, Style::default()))).collect();
    ui.get_mut(cells[1]).style.grid_column_span = 2;
    let root = ui.push(Node::new(
        NodeKind::Container,
        Style {
            display: Display::Grid,
            grid_template_columns: vec![GridTrack::Fixed(Px(30)), GridTrack::Fixed(Px(40))],
            grid_template_rows: vec![GridTrack::Fixed(Px(10)), GridTrack::Fixed(Px(10)), GridTrack::Fixed(Px(10))],
            ..Default::default()
        },
    ));
    ui.get_mut(root).children = cells.clone();
    ui.add_layer(root, "main");
    solve(&mut ui, Size::new(Px(100), Px(50)), &METRICS);
    assert_eq!(ui.get(cells[0]).computed, rect(0, 0, 30, 10));
    assert_eq!(ui.get(cells[1]).computed, rect(0, 10, 70, 10), "a span that does not fit starts a new row");
    assert_eq!(ui.get(cells[2]).computed, rect(0, 20, 30, 10));
}

#[test]
fn the_topmost_node_under_a_point_is_hit() {
    let mut ui: Ui<Px> = Ui::new();
    let inner = sized(&mut ui, 0, 0);
    let outer = sized(&mut ui, 0, 0);
    ui.get_mut(outer).children = vec![inner];
    ui.get_mut(outer).computed = rect(0, 0, 10, 10);
    ui.get_mut(inner).computed = rect(5, 5, 20, 20);
    ui.add_layer(outer, "main");
    let at = |x: i32, y: i32| Point::new(Px(x), Px(y));
    assert_eq!(ui.hit_test(at(6, 6)), Some(inner));
    assert_eq!(ui.hit_test(at(1, 1)), Some(outer));
    assert_eq!(ui.hit_test(at(12, 12)), None, "a child is hit only inside its parent");
    assert_eq!(ui.hit_test_within(outer, at(12, 12)), Some(inner));
    assert_eq!(ui.hit_test_chain(at(6, 6)), vec![outer, inner]);
    assert!(ui.hit_test_chain(at(12, 12)).is_empty());
}

#[test]
fn a_cycle_is_no_tree() {
    let mut ui: Ui<Px> = Ui::new();
    let (a, b) = (sized(&mut ui, 1, 1), sized(&mut ui, 1, 1));
    ui.get_mut(a).children = vec![b];
    ui.add_layer(a, "main");
    assert!(ui.is_well_formed());
    ui.get_mut(b).children = vec![a];
    assert!(!ui.is_well_formed());
    ui.get_mut(b).children = vec![NodeId(7)];
    assert!(!ui.is_well_formed());
    ui.get_mut(b).children = vec![];
    ui.focus = Some(NodeId(2));
    assert!(!ui.is_well_formed());
}

#[test]
fn a_frame_closes_every_clip_that_it_opens() {
    let mut ui: Ui<Px> = Ui::new();
    let item = ui.push(Node::new(NodeKind::Checkbox { label: "on".to_string(), checked: true }, Style::default()));
    let root = ui.push(Node::new(NodeKind::Container, Style { scroll_y: true, opacity: Px(0), ..Default::default() }));
    ui.get_mut(root).children = vec![item];
    ui.add_layer(root, "main");
    let mut canvas: Canvas<Px> = Canvas::new();
    paint(&ui, &METRICS, &mut canvas);
    let mut depth = 0i32;
    for op in canvas.into_ops() {
        match op {
            PaintOp::PushClip(_) | PaintOp::PushOpacity(_) | PaintOp::PushTransform(..) => depth += 1,
            PaintOp::PopClip | PaintOp::PopOpacity | PaintOp::PopTransform => depth -= 1,
            _ => {}
        }
        assert!(depth >= 0);
    }
    assert_eq!(depth, 0);
    assert_eq!(METRICS.measure_text("abcd", Px(100)).x, Px(0), "a whole pixel has no fractions");
}

fn texts(canvas: Canvas<Px>) -> Vec<String> {
    canvas
        .into_ops()
        .into_iter()
        .filter_map(|op| match op {
            PaintOp::DrawText { text, .. } => Some(text),
            _ => None,
        })
        .collect()
}

fn date_picker(year: i32, month: u32, day: u32) -> DatePicker {
    DatePicker {
        staged_year: year,
        staged_month: month,
        staged_day: day,
        year_list_open: false,
        year_list_page_start: 2020,
        min_year: 1900,
        max_year: 2100,
    }
}

fn calendar_layout() -> CalendarParts<Px> {
    let r = rect(0, 0, 10, 10);
    CalendarParts {
        popup_rect: r,
        month_prev_rect: r,
        month_next_rect: r,
        month_label_rect: r,
        year_dropdown_rect: r,
        year_prev_rect: r,
        year_next_rect: r,
        weekday_row: r,
        year_list: None,
        day_cells: vec![(r, None), (r, Some(1)), (r, Some(2))],
        cancel_rect: r,
        confirm_rect: r,
    }
}

#[test]
fn a_calendar_shows_its_month() {
    let layout = calendar_layout();
    let mut canvas: Canvas<Px> = Canvas::new();
    let away = Pointer { at: Point::new(Px(99), Px(99)), down: false };
    paint_calendar(&layout, away, Px(10), 2024, 3, 2, &mut canvas);
    let shown = texts(canvas);
    for t in ["March", "Su", "Sa", "1", "2"] {
        assert!(shown.iter().any(|s| s.contains(t)), "{t} in {shown:?}");
    }
    assert_eq!(month_name(12), "December");
}

fn clock_layout() -> ClockParts<Px> {
    let r = rect(0, 0, 10, 10);
    ClockParts {
        popup_rect: r,
        hour_segment_rect: r,
        minute_segment_rect: r,
        second_segment_rect: Some(r),
        dial_area: r,
        dial_center: Point::new(Px(5), Px(5)),
        dial_radius: Px(5),
        marks: vec![Point::new(Px(1), Px(1)); 12],
        hand_deg: Px(0),
        ampm_rect: r,
        cancel_rect: r,
        confirm_rect: r,
    }
}

#[test]
fn a_clock_shows_its_units() {
    let layout = clock_layout();
    let picker = TimePicker { staged_hour: 15, staged_minute: 4, staged_second: 9, mode: ClockMode::Hour };
    let mut canvas: Canvas<Px> = Canvas::new();
    let away = Pointer { at: Point::new(Px(99), Px(99)), down: false };
    paint_clock(&layout, &picker, away, Px(10), &mut canvas);
    let shown = texts(canvas);
    for t in ["03", "04", "09", "PM"] {
        assert!(shown.iter().any(|s| s.contains(t)), "{t} in {shown:?}");
    }
}

#[test]
fn popups_are_drawn_for_their_own_kind_of_node() {
    let r = rect(0, 0, 10, 10);
    let away = Pointer { at: Point::new(Px(99), Px(99)), down: false };
    let date = date_picker(2024, 3, 2);
    let time = TimePicker { staged_hour: 15, staged_minute: 4, staged_second: 9, mode: ClockMode::Hour };
    let kind = NodeKind::DateTime { value: String::new(), placeholder: String::new(), open: true, date_picker: date, time_picker: time, active_tab: DateTimeTab::Clock };
    let node: Node<Px> = Node::new(kind, Style::default());
    let layout = DateTimeParts {
        popup_rect: r,
        tab_calendar_rect: r,
        tab_clock_rect: r,
        calendar: None,
        clock: Some(clock_layout()),
    };
    let mut canvas: Canvas<Px> = Canvas::new();
    paint_datetime_popup(&node, &layout, away, &mut canvas);
    let shown = texts(canvas);
    assert_eq!(shown[..2], ["CALENDAR".to_string(), "CLOCK".to_string()]);
    assert!(shown.iter().any(|s| s.contains("PM")));
    let mut canvas: Canvas<Px> = Canvas::new();
    paint_time_popup(&node, &clock_layout(), away, &mut canvas);
    paint_date_popup(&node, &calendar_layout(), away, &mut canvas);
    assert!(texts(canvas).is_empty(), "neither a time nor a date");
}

#[test]
fn a_fresh_interface_is_at_rest() {
    let ui: Ui<Px> = Ui::new();
    assert!(!ui.mouse_down && ui.dirty);
    assert_eq!(ui.cursor, Point::new(Px(0), Px(0)));
}

#[test]
fn grid_cells_keep_clear_of_row_spans() {
    let mut ui: Ui<Px> = Ui::new();
    let kids: Vec<NodeId> = (0..6).map(|_| ui.push(Node::new(NodeKind::Container, Style::default()))).collect();
    ui.get_mut(kids[0]).style.grid_row_span = 2;
    ui.get_mut(kids[3]).style.grid_column_span = 2;
    ui.get_mut(kids[4]).style.grid_row_span = 3;
    let (cells, rows) = place_grid_children(&ui.nodes, &kids, 2);
    let places: Vec<(usize, u128)> = cells.iter().map(|c| (c.col, c.row)).collect();
    assert_eq!(places, vec![(0, 0), (1, 0), (1, 1), (0, 2), (0, 3), (1, 3)]);
    assert_eq!(rows, 6);
    let (none, one) = place_grid_children(&ui.nodes, &vec![], 2);
    assert_eq!((none.len(), one), (0, 1));
}

#[test]
fn an_absolute_child_takes_no_space() {
    let mut ui: Ui<Px> = Ui::new();
    let (a, b) = (sized(&mut ui, 10, 5), sized(&mut ui, 30, 40));
    ui.get_mut(b).style.position = Position::Absolute;
    let grid = ui.push(Node::new(NodeKind::Container, Style { display: Display::Grid, ..Default::default() }));
    let row = ui.push(Node::new(NodeKind::Container, Style { gap: Px(3), ..Default::default() }));
    for id in [grid, row] {
        ui.get_mut(id).children = vec![b, a];
    }
    let sizes = measure_all(&ui.nodes, &METRICS);
    assert_eq!(sizes[grid.0 as usize], Size::new(Px(10), Px(5)));
    assert_eq!(sizes[row.0 as usize], Size::new(Px(10), Px(5)));
    ui.get_mut(grid).children = vec![b];
    assert_eq!(measure_all(&ui.nodes, &METRICS)[grid.0 as usize], Size::new(Px(0), Px(0)));
}

#[test]
fn a_caret_beyond_its_text_can_be_painted() {
    let mut ui: Ui<Px> = Ui::new();
    let kind = NodeKind::TextInput {
        label: "ab".to_string(),
        placeholder: String::new(),
        masked: false,
        cursor: 9,
        selection_anchor: None,
        ime_preview: "x".to_string(),
    };
    let id = ui.push(Node::new(kind, Style::default()));
    ui.add_layer(id, "main");
    assert!(is_drawable(&ui));
    let mut out: Canvas<Px> = Canvas::new();
    paint(&ui, &METRICS, &mut out);
    assert!(!out.into_ops().is_empty());
    if let NodeKind::TextInput { cursor, .. } = &mut ui.get_mut(id).kind {
        *cursor = usize::MAX;
    }
    assert!(!is_drawable(&ui));
}

fn picker_ui(kind: NodeKind<Px>, y: i32) -> Ui<Px> {
    let mut ui: Ui<Px> = Ui::new();
    let id = ui.push(Node::new(kind, Style { font_size: Px(10), ..Default::default() }));
    ui.add_layer(id, "main");
    ui.viewport = Size::new(Px(200), Px(400));
    ui.cursor = Point::new(Px(-9), Px(-9));
    ui.get_mut(id).computed = rect(0, y, 70, 20);
    ui
}

fn ops_of(ui: &Ui<Px>) -> Vec<PaintOp<Px>> {
    let mut canvas: Canvas<Px> = Canvas::new();
    paint(ui, &METRICS, &mut canvas);
    canvas.into_ops()
}

fn labels(ops: &[PaintOp<Px>]) -> Vec<String> {
    ops.iter()
        .filter_map(|op| match op {
            PaintOp::DrawText { text, .. } => Some(text.clone()),
            _ => None,
        })
        .collect()
}

fn date_node(open: bool, picker: DatePicker) -> NodeKind<Px> {
    NodeKind::Date { value: "01/03/2024".to_string(), placeholder: String::new(), open, picker }
}

#[test]
fn an_open_date_is_painted_with_its_calendar() {
    let shut = ops_of(&picker_ui(date_node(false, date_picker(2024, 3, 2)), 0));
    assert_eq!(labels(&shut), vec!["01/03/2024"]);
    let ops = ops_of(&picker_ui(date_node(true, date_picker(2024, 3, 2)), 0));
    let shown = labels(&ops);
    assert_eq!(shown[..6], ["01/03/2024", "<", ">", "March", "2024 \u{25be}", "<"]);
    assert_eq!(shown[7..14], ["Su", "Mo", "Tu", "We", "Th", "Fr", "Sa"]);
    assert_eq!(shown[14], "1");
    assert_eq!(shown[44], "31");
    assert_eq!(shown[45..], ["CANCEL", "CONFIRM"]);
    assert!(ops.iter().any(|op| matches!(op, PaintOp::FillRect { rect: r, .. } if *r == rect(0, 20, 70, 184))));
    // No room below, and room above.
    let ops = ops_of(&picker_ui(date_node(true, date_picker(2024, 3, 2)), 300));
    assert!(ops.iter().any(|op| matches!(op, PaintOp::FillRect { rect: r, .. } if *r == rect(0, 116, 70, 184))));
}

#[test]
fn an_open_list_of_years_stands_in_for_the_days() {
    let picker = DatePicker { year_list_open: true, min_year: 2022, max_year: 2024, ..date_picker(2024, 3, 2) };
    let shown = labels(&ops_of(&picker_ui(date_node(true, picker), 0)));
    assert_eq!(shown[14..], ["<", ">", "2022 \u{2013} 2024", "2022", "2023", "2024"]);
}

#[test]
fn an_open_time_is_painted_with_its_clock() {
    let picker = TimePicker { staged_hour: 15, staged_minute: 4, staged_second: 9, mode: ClockMode::Minute };
    let kind = NodeKind::Time { value: "15:04".to_string(), placeholder: String::new(), open: true, picker };
    let ops = ops_of(&picker_ui(kind, 0));
    assert_eq!(labels(&ops)[..4], ["15:04", "03", "04", "00"]);
    assert_eq!(labels(&ops)[15..], ["AM", "PM", "CANCEL", "CONFIRM"]);
    assert!(ops.iter().any(|op| matches!(op, PaintOp::PushTransform(t, _) if t.rotate_deg == Px(24))));
}

#[test]
fn an_open_date_and_time_shows_the_active_half() {
    let node = |tab: DateTimeTab, month: u32| NodeKind::DateTime {
        value: "x".to_string(),
        placeholder: String::new(),
        open: true,
        date_picker: date_picker(2024, month, 2),
        time_picker: TimePicker { staged_hour: 15, staged_minute: 4, staged_second: 9, mode: ClockMode::Hour },
        active_tab: tab,
    };
    let days = labels(&ops_of(&picker_ui(node(DateTimeTab::Calendar, 3), 0)));
    assert_eq!(days[1..3], ["CALENDAR", "CLOCK"]);
    assert!(days.contains(&"March".to_string()) && !days.contains(&"PM".to_string()));
    let dial = labels(&ops_of(&picker_ui(node(DateTimeTab::Clock, 3), 0)));
    assert!(dial.contains(&"PM".to_string()) && !dial.contains(&"March".to_string()));
    assert!(is_drawable(&picker_ui(node(DateTimeTab::Clock, 0), 0)));
    assert!(!is_drawable(&picker_ui(node(DateTimeTab::Calendar, 13), 0)));
    assert!(is_drawable(&picker_ui(date_node(false, date_picker(2024, 0, 2)), 0)));
    assert!(!is_drawable(&picker_ui(date_node(true, date_picker(2024, 0, 2)), 0)));
}

#[test]
fn the_parts_of_a_popup_have_their_places() {
    let at = Anchor { box_rect: rect(0, 0, 140, 20), viewport: Size::new(Px(400), Px(900)), font_size: Px(10) };
    let shown = Shown {
        year: 2024,
        month: 3,
        year_list_open: false,
        year_list_page_start: 2020,
        min_year: 1900,
        max_year: 2100,
    };
    let c = METRICS.layout_calendar(&at, &shown);
    assert_eq!((c.month_prev_rect, c.month_label_rect, c.month_next_rect), (rect(0, 20, 22, 22), rect(22, 20, 26, 22), rect(48, 20, 22, 22)));
    assert_eq!((c.year_prev_rect, c.year_dropdown_rect, c.year_next_rect), (rect(70, 20, 22, 22), rect(92, 20, 26, 22), rect(118, 20, 22, 22)));
    assert_eq!((c.day_cells.len(), c.day_cells[5]), (42, (rect(100, 62, 20, 20), Some(1))));
    assert_eq!((c.cancel_rect, c.confirm_rect), (rect(0, 182, 70, 22), rect(70, 182, 70, 22)));
    let picker = TimePicker { staged_hour: 15, staged_minute: 4, staged_second: 9, mode: ClockMode::Hour };
    let k = METRICS.layout_clock(&at, true, &picker);
    assert_eq!(k.popup_rect, rect(0, 20, 140, 180));
    assert_eq!((k.dial_area, k.dial_center, k.dial_radius), (rect(10, 40, 120, 120), Point::new(Px(70), Px(100)), Px(48)));
    assert_eq!((k.marks[2], k.marks[11]), (Point::new(Px(118), Px(100)), Point::new(Px(70), Px(52))));
    assert_eq!((k.hand_deg, k.second_segment_rect), (Px(90), Some(rect(92, 20, 46, 20))));
    let both = METRICS.layout_datetime(&at, false, DateTimeTab::Clock, &shown, &picker);
    assert!(both.calendar.is_none());
    assert_eq!(both.popup_rect, rect(0, 20, 140, 202));
    assert_eq!(both.clock.map(|c| c.popup_rect), Some(rect(0, 42, 140, 180)));
}
