use nowui::toolkit::arena::{Node, NodeKind, Ui};
use nowui::toolkit::canvas::{Canvas, PaintOp};
use nowui::toolkit::geometry::{Color, Rect, Size};
use nowui::toolkit::measure::{line_height, Metrics, PlainMetrics};
use nowui::toolkit::num::Num;
use nowui::toolkit::paint::paint;
use nowui::toolkit::style::{Position, Style};

/// Machine floats.
#[derive(Clone, Copy, Debug, PartialEq, PartialOrd)]
struct F(f32);

impl Num for F {
    fn plus(self, other: F) -> F {
        F(self.0 + other.0)
    }
    fn minus(self, other: F) -> F {
        F(self.0 - other.0)
    }
    fn times(self, other: F) -> F {
        F(self.0 * other.0)
    }
    fn over(self, other: F) -> F {
        F(self.0 / other.0)
    }
    fn negated(self) -> F {
        F(-self.0)
    }
    fn greater_of(self, other: F) -> F {
        F(self.0.max(other.0))
    }
    fn lesser_of(self, other: F) -> F {
        F(self.0.min(other.0))
    }
    fn less(self, other: F) -> bool {
        self.0 < other.0
    }
    fn at_most(self, other: F) -> bool {
        self.0 <= other.0
    }
    fn same(self, other: F) -> bool {
        self.0 == other.0
    }
    fn ratio(n: i32, d: i32) -> F {
        F((n as f64 / d as f64) as f32)
    }
    fn count(n: usize) -> F {
        F(n as f32)
    }
    fn parse(s: &str) -> Option<F> {
        s.parse().ok().map(F)
    }
    fn to_byte(self) -> u8 {
        self.0.round().clamp(0.0, 255.0) as u8
    }
    fn to_index(self) -> usize {
        self.0 as usize
    }
    fn to_text(self) -> String {
        format!("{}", self.0)
    }
}

impl std::ops::Sub for F {
    type Output = F;
    fn sub(self, other: F) -> F {
        F(self.0 - other.0)
    }
}

const METRICS: PlainMetrics<F> = PlainMetrics { track_h: F(4.0), thumb_d: F(16.0), control_w: F(160.0) };

/// A clip or a fill.
#[derive(Debug, PartialEq)]
enum Event {
    Push,
    Pop,
    Fill(Color),
}

/// What a frame draws, by kind and in order.
struct Recording {
    fills: Vec<(Rect<F>, Color)>,
    texts: Vec<String>,
    text_bounds: Vec<Rect<F>>,
    clips: Vec<Rect<F>>,
    trace: Vec<Event>,
}

fn record(ui: &Ui<F>) -> Recording {
    let mut canvas: Canvas<F> = Canvas::new();
    paint(ui, &METRICS, &mut canvas);
    let mut r = Recording { fills: vec![], texts: vec![], text_bounds: vec![], clips: vec![], trace: vec![] };
    for op in canvas.into_ops() {
        match op {
            PaintOp::FillRect { rect, color, .. } => {
                r.fills.push((rect, color));
                r.trace.push(Event::Fill(color));
            }
            PaintOp::DrawText { text, bounds, .. } => {
                r.texts.push(text);
                r.text_bounds.push(bounds);
            }
            PaintOp::PushClip(rect) => {
                r.clips.push(rect);
                r.trace.push(Event::Push);
            }
            PaintOp::PopClip => r.trace.push(Event::Pop),
            _ => {}
        }
    }
    r
}

/// Builds a `TextInput` with the given label/placeholder/masked and
/// cursor at the end, no selection, no IME composition in progress —
/// the common case tests start from before customizing further.
fn text_input_kind(label: &str, placeholder: &str, masked: bool) -> NodeKind<F> {
    NodeKind::TextInput {
        label: label.to_string(),
        placeholder: placeholder.to_string(),
        masked,
        cursor: label.chars().count(),
        selection_anchor: None,
        ime_preview: String::new(),
    }
}

#[test]
fn text_input_shows_placeholder_only_while_label_is_empty() {
    let mut ui: Ui<F> = Ui::new();
    let empty = ui.push(Node::new(text_input_kind("", "Enter Username", false), Style::default()));
    let filled = ui.push(Node::new(text_input_kind("dean", "Enter Username", false), Style::default()));
    let root = ui.push(Node::new(NodeKind::Container, Style::default()));
    ui.get_mut(root).children = vec![empty, filled];
    ui.add_layer(root, "main");

    let painter = record(&ui);

    assert_eq!(painter.texts, vec!["Enter Username".to_string(), "dean".to_string()]);
}

#[test]
fn masked_text_input_shows_bullets_not_the_real_value() {
    let mut ui: Ui<F> = Ui::new();
    let id = ui.push(Node::new(text_input_kind("hunter2", "", true), Style::default()));
    ui.add_layer(id, "main");

    let painter = record(&ui);

    assert_eq!(painter.texts, vec!["*******".to_string()]);
}


#[test]
fn unfocused_text_input_draws_no_caret_or_selection() {
    let mut ui: Ui<F> = Ui::new();
    let mut kind = text_input_kind("hello", "", false);
    if let NodeKind::TextInput { selection_anchor, .. } = &mut kind {
        *selection_anchor = Some(0);
    }
    let id = ui.push(Node::new(kind, Style::default()));
    ui.add_layer(id, "main");
    // Not focused: `ui.focus` stays `None`.

    let painter = record(&ui);

    assert_eq!(painter.texts, vec!["hello".to_string()]);
    assert!(painter.fills.is_empty(), "no caret/selection while unfocused, even with a selection set");
}

#[test]
fn focused_text_input_draws_a_caret() {
    let mut ui: Ui<F> = Ui::new();
    let id = ui.push(Node::new(text_input_kind("hello", "", false), Style::default()));
    ui.add_layer(id, "main");
    ui.focus = Some(id);

    let painter = record(&ui);

    assert_eq!(painter.fills.len(), 1, "exactly one fill: the caret (no selection, no IME)");
}

#[test]
fn focused_text_input_with_selection_draws_a_highlight_before_the_text_and_a_caret_after() {
    let mut ui: Ui<F> = Ui::new();
    let mut kind = text_input_kind("hello", "", false);
    if let NodeKind::TextInput { cursor, selection_anchor, .. } = &mut kind {
        *cursor = 5;
        *selection_anchor = Some(1);
    }
    let id = ui.push(Node::new(kind, Style::default()));
    ui.add_layer(id, "main");
    ui.focus = Some(id);

    let painter = record(&ui);

    assert_eq!(painter.fills.len(), 2, "selection highlight + caret");
    let (highlight_rect, _) = painter.fills[0];
    assert!(highlight_rect.w > F(1.5), "highlight spans the 4 selected chars, wider than a 1.5px caret");
}

#[test]
fn focused_text_input_composing_shows_preview_and_underline_not_selection() {
    let mut ui: Ui<F> = Ui::new();
    let mut kind = text_input_kind("ab", "", false);
    if let NodeKind::TextInput { cursor, selection_anchor, ime_preview, .. } = &mut kind {
        *cursor = 1;
        *selection_anchor = Some(0); // active selection...
        *ime_preview = "X".to_string(); // ...but composing takes priority
    }
    let id = ui.push(Node::new(kind, Style::default()));
    ui.add_layer(id, "main");
    ui.focus = Some(id);

    let painter = record(&ui);

    assert_eq!(painter.texts, vec!["aXb".to_string()], "preview spliced in at the cursor");
    assert_eq!(painter.fills.len(), 2, "underline + caret, no selection highlight while composing");
}

#[test]
fn text_input_clips_to_its_content_rect() {
    let mut ui: Ui<F> = Ui::new();
    let id = ui.push(Node::new(text_input_kind("hello", "", false), Style::default()));
    ui.get_mut(id).computed = Rect::new(F(5.0), F(5.0), F(100.0), F(30.0));
    ui.add_layer(id, "main");

    let painter = record(&ui);

    assert_eq!(painter.clips, vec![Rect::new(F(5.0), F(5.0), F(100.0), F(30.0))]);
}

#[test]
fn empty_text_input_showing_the_placeholder_does_not_clip() {
    // The early-return-to-placeholder path skips push_clip entirely —
    // nothing to scroll/clip when there's no value yet.
    let mut ui: Ui<F> = Ui::new();
    let id = ui.push(Node::new(text_input_kind("", "Enter Username", false), Style::default()));
    ui.add_layer(id, "main");

    let painter = record(&ui);

    assert!(painter.clips.is_empty());
}

#[test]
fn scroll_x_shifts_the_drawn_text_and_caret_by_the_same_amount() {
    fn paint_at(scroll_x: F) -> Recording {
        let mut ui: Ui<F> = Ui::new();
        let id = ui.push(Node::new(text_input_kind("hello world", "", false), Style::default()));
        ui.get_mut(id).computed = Rect::new(F(0.0), F(0.0), F(200.0), F(30.0));
        ui.get_mut(id).scroll_offset.x = scroll_x;
        ui.add_layer(id, "main");
        ui.focus = Some(id);
        record(&ui)
    }

    let unscrolled = paint_at(F(0.0));
    let scrolled = paint_at(F(15.0));

    assert_eq!(unscrolled.text_bounds[0].x - scrolled.text_bounds[0].x, F(15.0), "text shifts left by scroll_x");
    let unscrolled_caret = unscrolled.fills.last().unwrap().0.x;
    let scrolled_caret = scrolled.fills.last().unwrap().0.x;
    assert_eq!(unscrolled_caret - scrolled_caret, F(15.0), "caret shifts by the same amount as the text");
}

#[test]
fn draw_text_bounds_always_reach_the_full_natural_text_width() {
    let mut ui: Ui<F> = Ui::new();
    let mut kind = text_input_kind("hello world", "", false);
    if let NodeKind::TextInput { cursor, .. } = &mut kind {
        *cursor = 3; // nowhere near the true end — the scenario this test guards
    }
    let id = ui.push(Node::new(kind, Style::default()));
    // A box far narrower than "hello world"'s natural width, so this
    // only means something if the box width isn't what determines
    // `bounds.w` here.
    ui.get_mut(id).computed = Rect::new(F(0.0), F(0.0), F(50.0), F(30.0));
    ui.get_mut(id).scroll_offset.x = F(15.0);
    ui.add_layer(id, "main");
    ui.focus = Some(id);

    let natural_width = METRICS.measure_text("hello world", F(16.0)).x;
    let painter = record(&ui);

    assert!(
        painter.text_bounds[0].w > natural_width,
        "wrap boundary ({:?}) must clear the text's full natural width ({natural_width:?}), not just the box or box+scroll_x",
        painter.text_bounds[0].w
    );
}

#[test]
fn multiline_text_input_draws_the_whole_value_in_one_call_wrapped_at_the_box_width() {
    let mut ui: Ui<F> = Ui::new();
    let style = Style { multiline: true, ..Style::default() };
    let id = ui.push(Node::new(text_input_kind("line one\nline two", "", false), style));
    ui.get_mut(id).computed = Rect::new(F(0.0), F(0.0), F(200.0), F(60.0));
    ui.add_layer(id, "main");

    let painter = record(&ui);

    assert_eq!(painter.texts, vec!["line one\nline two".to_string()]);
    assert_eq!(painter.text_bounds[0].w, F(200.0), "wraps at the box width, not the full text width");
}

#[test]
fn multiline_text_input_places_the_caret_on_its_hard_line() {
    let mut ui: Ui<F> = Ui::new();
    let style = Style { multiline: true, ..Style::default() };
    let mut kind = text_input_kind("ab\ncd", "", false);
    if let NodeKind::TextInput { cursor, .. } = &mut kind {
        *cursor = 4; // char 4 is 'd' -> line 1 ("cd"), col 1
    }
    let id = ui.push(Node::new(kind, style));
    ui.get_mut(id).computed = Rect::new(F(0.0), F(0.0), F(200.0), F(60.0));
    ui.add_layer(id, "main");
    ui.focus = Some(id);

    let painter = record(&ui);

    let line_h = nowui_core_line_height();
    let caret = painter.fills.last().unwrap().0;
    assert_eq!(caret.y, line_h, "caret sits on the second hard line, one line_height down");
    assert!(caret.x > F(0.0), "col 1 into \"cd\" is past the box's left edge");
}

#[test]
fn multiline_text_input_selection_spanning_lines_draws_one_highlight_per_line() {
    let mut ui: Ui<F> = Ui::new();
    let style = Style { multiline: true, ..Style::default() };
    let mut kind = text_input_kind("aaa\nbbb\nccc", "", false);
    if let NodeKind::TextInput { cursor, selection_anchor, .. } = &mut kind {
        *cursor = 9; // into the third line
        *selection_anchor = Some(1); // from the first line
    }
    let id = ui.push(Node::new(kind, style));
    ui.get_mut(id).computed = Rect::new(F(0.0), F(0.0), F(200.0), F(90.0));
    ui.add_layer(id, "main");
    ui.focus = Some(id);

    let painter = record(&ui);

    // 3 highlight rects (one per spanned line) + 1 caret.
    assert_eq!(painter.fills.len(), 4);
}

fn nowui_core_line_height() -> F {
    line_height(Style::<F>::default().font_size)
}

#[test]
fn closed_menu_paints_its_header_but_not_its_items() {
    let mut ui: Ui<F> = Ui::new();
    let item = ui.push(Node::new(NodeKind::MenuItem { label: "Open Preferences".to_string() }, Style::default()));
    let menu = ui.push(Node::new(NodeKind::Menu { label: "Preferences".to_string(), open: false }, Style::default()));
    ui.get_mut(menu).children = vec![item];
    ui.add_layer(menu, "main");

    let painter = record(&ui);

    assert_eq!(painter.texts, vec!["Preferences".to_string()], "header paints, item does not");
}

#[test]
fn open_menu_paints_its_header_and_its_items() {
    let mut ui: Ui<F> = Ui::new();
    let item = ui.push(Node::new(NodeKind::MenuItem { label: "Open Preferences".to_string() }, Style::default()));
    let menu = ui.push(Node::new(NodeKind::Menu { label: "Preferences".to_string(), open: true }, Style::default()));
    ui.get_mut(menu).children = vec![item];
    ui.add_layer(menu, "main");

    let painter = record(&ui);

    assert_eq!(painter.texts, vec!["Preferences".to_string(), "Open Preferences".to_string()]);
}

#[test]
fn open_menu_with_no_children_paints_only_its_header() {
    let mut ui: Ui<F> = Ui::new();
    let menu = ui.push(Node::new(NodeKind::Menu { label: "Preferences".to_string(), open: true }, Style::default()));
    ui.add_layer(menu, "main");

    let painter = record(&ui);

    assert_eq!(painter.texts, vec!["Preferences".to_string()], "no children means no popup, even while open");
}

#[test]
fn open_menu_popup_draws_a_background_panel_from_the_menus_own_style() {
    let mut ui: Ui<F> = Ui::new();
    let panel_color = Color::rgb(30, 30, 30);
    let item = ui.push(Node::new(NodeKind::MenuItem { label: "Open Preferences".to_string() }, Style::default()));
    let menu = ui.push(Node::new(
        NodeKind::Menu { label: "Preferences".to_string(), open: true },
        Style { bg: Some(panel_color), ..Default::default() },
    ));
    ui.get_mut(menu).children = vec![item];
    ui.get_mut(menu).content_size = Size::new(F(100.0), F(40.0));
    ui.add_layer(menu, "main");

    let painter = record(&ui);

    assert!(painter.fills.iter().any(|&(_, color)| color == panel_color), "popup panel painted with Menu's own bg");
}

#[test]
fn z_index_reorders_paint_but_not_source_order_ties() {
    let mut ui: Ui<F> = Ui::new();
    let red = Color::rgb(255, 0, 0);
    let green = Color::rgb(0, 255, 0);
    let blue = Color::rgb(0, 0, 255);

    // Source order: red, green, blue. z-index: green=10 (paints last/on
    // top), red and blue tie at 0 (must keep source order between them).
    let r = ui.push(Node::new(NodeKind::Container, Style { bg: Some(red), ..Default::default() }));
    let g = ui.push(Node::new(NodeKind::Container, Style { bg: Some(green), z_index: 10, ..Default::default() }));
    let b = ui.push(Node::new(NodeKind::Container, Style { bg: Some(blue), ..Default::default() }));
    let root = ui.push(Node::new(NodeKind::Container, Style::default()));
    ui.get_mut(root).children = vec![r, g, b];
    ui.add_layer(root, "main");

    let painter = record(&ui);

    let colors: Vec<Color> = painter.fills.iter().map(|f| f.1).collect();
    assert_eq!(colors, vec![red, blue, green], "green (z=10) paints last despite being authored second");
}



#[test]
fn absolute_child_paints_outside_parents_own_clip() {
    let mut ui: Ui<F> = Ui::new();
    let red = Color::rgb(255, 0, 0);
    let green = Color::rgb(0, 255, 0);

    // A badge pinned outside its parent's box via a negative offset —
    // same shape as `login.nowui`'s "NEW" badge.
    let badge = ui.push(Node::new(
        NodeKind::Container,
        Style { position: Position::Absolute, bg: Some(red), ..Default::default() },
    ));
    ui.get_mut(badge).computed = Rect::new(F(-5.0), F(-5.0), F(20.0), F(20.0));

    let parent = ui.push(Node::new(NodeKind::Container, Style { bg: Some(green), ..Default::default() }));
    ui.get_mut(parent).children = vec![badge];
    ui.get_mut(parent).computed = Rect::new(F(0.0), F(0.0), F(100.0), F(100.0));

    let root = ui.push(Node::new(NodeKind::Container, Style::default()));
    ui.get_mut(root).children = vec![parent];
    ui.get_mut(root).computed = Rect::new(F(0.0), F(0.0), F(200.0), F(200.0));
    ui.add_layer(root, "main");

    let painter = record(&ui);

    // Find the parent's push/pop pair (the first one — root has no
    // children of its own besides `parent`, so root never pushes a clip
    // before `parent`'s fill happens).
    let push_idx = painter.trace.iter().position(|e| *e == Event::Push).expect("parent pushes a clip");
    let pop_idx = painter.trace.iter().position(|e| *e == Event::Pop).expect("parent pops its clip");
    let red_idx = painter.trace.iter().position(|e| *e == Event::Fill(red)).expect("badge is painted");

    assert!(
        !(push_idx < red_idx && red_idx < pop_idx),
        "absolute child's fill must fall outside its parent's own push_clip/pop_clip pair, got trace {:?}",
        painter.trace
    );
}

#[test]
fn root_background_prefills_the_whole_viewport_even_when_auto_scroll_shifts_its_origin() {
    let mut ui: Ui<F> = Ui::new();
    let bg = Color::rgb(240, 240, 240);
    let root = ui.push(Node::new(NodeKind::Container, Style { bg: Some(bg), ..Default::default() }));
    // Simulate `Ui::auto_scroll` having shifted the root's own computed
    // rect away from `(0, 0)` — its own fill no longer covers the whole
    // window, which is exactly the seam this pre-fill exists to hide.
    ui.get_mut(root).computed = Rect::new(F(0.0), F(-50.0), F(800.0), F(600.0));
    ui.add_layer(root, "main");
    ui.viewport = Size::new(F(800.0), F(600.0));

    let painter = record(&ui);

    let (first_rect, first_color) = painter.fills[0];
    assert_eq!(first_color, bg);
    assert_eq!(first_rect, Rect::new(F(0.0), F(0.0), F(800.0), F(600.0)), "prefilled across the entire physical window, not just the shifted root rect");
}
