//! Pass 1 of layout: what size each node wants when it hugs its content.
//!
//! The size of a node is a function of its own content and of its children's
//! sizes ([`size_from`]), and the table of all sizes is the one that agrees
//! with that function everywhere ([`sizes_agree`]).

use vstd::prelude::*;
use vstd::string::*;
use crate::toolkit::arena::{
    child, is_forest, rank_of, ranked, DateTimeTab, Node, NodeId, NodeKind, TimePicker,
};
use crate::toolkit::geometry::{no_size, Edges, Point, Size};
use crate::toolkit::num::{whole, Num};
use crate::toolkit::picker_layout::{
    place_calendar, place_clock, place_datetime, plain_calendar, plain_clock, plain_datetime,
};
use crate::toolkit::pickers::{
    Anchor, CalendarParts, CalendarView, ClockParts, ClockView, DateTimeParts, DateTimeView, Shown,
};
use crate::toolkit::style::{
    dropdown_metrics, dropdown_sizes, Direction, Display, GridTrack, Position, Sizing, Style,
};

verus! {

// ---- what measuring needs from outside ----

/// What a painting backend knows of sizes, and of where the parts of a picker's popup
/// lie: each is a function of what it is asked, and [`PlainMetrics`] says which.
pub trait Metrics<N: Num> {
    /// The extent of `text` at a font size.
    closed spec fn extent(&self, text: Seq<char>, size: N) -> Point<N> {
        arbitrary()
    }

    /// A slider's track height and thumb diameter at a font size.
    closed spec fn slider(&self, size: N) -> (N, N) {
        arbitrary()
    }

    /// The width of a control that has no content of its own.
    closed spec fn control(&self) -> N {
        arbitrary()
    }

    /// The parts of a date's open popup.
    closed spec fn calendar_at(&self, at: Anchor<N>, shown: Shown) -> CalendarView<N> {
        arbitrary()
    }

    /// The parts of a time's open popup.
    closed spec fn clock_at(
        &self,
        at: Anchor<N>,
        with_seconds: bool,
        picker: TimePicker,
    ) -> ClockView<N> {
        arbitrary()
    }

    /// The parts of a date and time's open popup.
    closed spec fn datetime_at(
        &self,
        at: Anchor<N>,
        with_seconds: bool,
        tab: DateTimeTab,
        shown: Shown,
        picker: TimePicker,
    ) -> DateTimeView<N> {
        arbitrary()
    }

    fn measure_text(&self, text: &str, size: N) -> (r: Point<N>)
        ensures
            r == self.extent(text@, size),
    ;

    fn slider_metrics(&self, size: N) -> (r: (N, N))
        ensures
            r == self.slider(size),
    ;

    fn control_width(&self) -> (r: N)
        ensures
            r == self.control(),
    ;

    fn layout_calendar(&self, at: &Anchor<N>, shown: &Shown) -> (r: CalendarParts<N>)
        ensures
            r@ == self.calendar_at(*at, *shown),
    ;

    /// A dial has twelve marks.
    fn layout_clock(&self, at: &Anchor<N>, with_seconds: bool, picker: &TimePicker) -> (r:
        ClockParts<N>)
        ensures
            r@ == self.clock_at(*at, with_seconds, *picker),
            r.marks@.len() == 12,
    ;

    /// Of the two halves the active one shows.
    fn layout_datetime(
        &self,
        at: &Anchor<N>,
        with_seconds: bool,
        tab: DateTimeTab,
        shown: &Shown,
        picker: &TimePicker,
    ) -> (r: DateTimeParts<N>)
        ensures
            r@ == self.datetime_at(*at, with_seconds, tab, *shown, *picker),
            r.calendar is Some <==> tab == DateTimeTab::Calendar,
            r.clock is Some <==> tab == DateTimeTab::Clock,
            r.clock matches Some(c) ==> c.marks@.len() == 12,
    ;
}

/// Metrics without a text stack: every character is 0.55 em wide, and a line
/// 1.3 em high. The controls' sizes are given, and a picker's popup lies where
/// [`crate::toolkit::picker_layout`] has it.
pub struct PlainMetrics<N> {
    pub track_h: N,
    pub thumb_d: N,
    pub control_w: N,
}

impl<N: Num> Metrics<N> for PlainMetrics<N> {
    open spec fn extent(&self, text: Seq<char>, size: N) -> Point<N> {
        Point {
            x: N::mul_of(N::mul_of(N::count_of(text.len()), size), N::ratio_of(55, 100)),
            y: N::mul_of(size, N::ratio_of(13, 10)),
        }
    }

    open spec fn slider(&self, size: N) -> (N, N) {
        (self.track_h, self.thumb_d)
    }

    open spec fn control(&self) -> N {
        self.control_w
    }

    open spec fn calendar_at(&self, at: Anchor<N>, shown: Shown) -> CalendarView<N> {
        plain_calendar(at, shown)
    }

    open spec fn clock_at(
        &self,
        at: Anchor<N>,
        with_seconds: bool,
        picker: TimePicker,
    ) -> ClockView<N> {
        plain_clock(at, with_seconds, picker)
    }

    open spec fn datetime_at(
        &self,
        at: Anchor<N>,
        with_seconds: bool,
        tab: DateTimeTab,
        shown: Shown,
        picker: TimePicker,
    ) -> DateTimeView<N> {
        plain_datetime(at, with_seconds, tab, shown, picker)
    }

    fn measure_text(&self, text: &str, size: N) -> (r: Point<N>) {
        Point {
            x: N::count(text.unicode_len()).times(size).times(N::ratio(55, 100)),
            y: size.times(N::ratio(13, 10)),
        }
    }

    fn slider_metrics(&self, size: N) -> (r: (N, N)) {
        (self.track_h, self.thumb_d)
    }

    fn control_width(&self) -> (r: N) {
        self.control_w
    }

    fn layout_calendar(&self, at: &Anchor<N>, shown: &Shown) -> (r: CalendarParts<N>) {
        place_calendar(at, shown)
    }

    fn layout_clock(&self, at: &Anchor<N>, with_seconds: bool, picker: &TimePicker) -> (r:
        ClockParts<N>) {
        place_clock(at, with_seconds, picker)
    }

    fn layout_datetime(
        &self,
        at: &Anchor<N>,
        with_seconds: bool,
        tab: DateTimeTab,
        shown: &Shown,
        picker: &TimePicker,
    ) -> (r: DateTimeParts<N>) {
        place_datetime(at, with_seconds, tab, shown, picker)
    }
}

// ---- constants ----

/// Height, in pixels, of one line of text at `font_size`.
pub open spec fn line_of<N: Num>(font_size: N) -> N {
    N::mul_of(font_size, N::ratio_of(13, 10))
}

/// Height, in pixels, of one line of text at `font_size`.
pub fn line_height<N: Num>(font_size: N) -> (r: N)
    ensures
        r == line_of(font_size),
{
    font_size.times(N::ratio(13, 10))
}

/// Width of a tree row's disclosure-triangle column, in pixels.
pub const TREE_TRIANGLE_W: i32 = 14;

/// How far each nesting level indents its children.
pub const TREE_INDENT: i32 = 16;

/// Width reserved for both action icons of a tree row, with the gaps before them.
pub const TREE_ACTIONS_W: i32 = 36;

/// Width of a tree row's icon.
pub const TREE_ICON_W: i32 = 14;

/// Gap between a tree row's icon and its label.
pub const TREE_ICON_GAP: i32 = 6;

// ---- a node's own content ----

pub open spec fn is_row(d: Direction) -> bool {
    d == Direction::Row || d == Direction::RowReverse
}

pub fn axis_is_row(d: Direction) -> (r: bool)
    ensures
        r == is_row(d),
{
    match d {
        Direction::Row | Direction::RowReverse => true,
        _ => false,
    }
}

/// The option that a dropdown shows: the selected one, else the placeholder.
pub open spec fn dropdown_label(
    placeholder: Seq<char>,
    options: Seq<String>,
    selected: Option<usize>,
) -> Seq<char> {
    match selected {
        Some(i) => if i < options.len() {
            options[i as int]@
        } else {
            placeholder
        },
        None => placeholder,
    }
}

/// The option that a dropdown shows.
pub fn shown_option<'a>(
    placeholder: &'a String,
    options: &'a Vec<String>,
    selected: Option<usize>,
) -> (r: &'a str)
    ensures
        r@ == dropdown_label(placeholder@, options@, selected),
{
    match selected {
        Some(i) => if i < options.len() {
            options[i].as_str()
        } else {
            placeholder.as_str()
        },
        None => placeholder.as_str(),
    }
}

/// What a picker's box shows: the value, or the placeholder while it is empty.
pub open spec fn picker_label(value: Seq<char>, placeholder: Seq<char>) -> Seq<char> {
    if value.len() == 0 {
        placeholder
    } else {
        value
    }
}

/// What a picker's box shows.
pub fn shown_value<'a>(value: &'a String, placeholder: &'a String) -> (r: &'a str)
    ensures
        r@ == picker_label(value@, placeholder@),
{
    if value.as_str().is_empty() {
        placeholder.as_str()
    } else {
        value.as_str()
    }
}

pub open spec fn as_size<N>(p: Point<N>) -> Size<N> {
    Size { w: p.x, h: p.y }
}

/// A picture's size: its natural one, or scaled by its aspect ratio if one axis
/// is fixed and the other hugs.
pub open spec fn picture_size<N: Num>(w: u32, h: u32, width: Sizing<N>, height: Sizing<N>) -> Size<
    N,
> {
    let nw = N::count_of(w as nat);
    let nh = N::count_of(h as nat);
    if N::lt_of(whole(0), nw) && N::lt_of(whole(0), nh) {
        match (width, height) {
            (Sizing::Hug, Sizing::Fixed(h)) => Size { w: N::mul_of(nw, N::div_of(h, nh)), h },
            (Sizing::Fixed(w), Sizing::Hug) => Size { w, h: N::mul_of(nh, N::div_of(w, nw)) },
            _ => Size { w: nw, h: nh },
        }
    } else {
        no_size()
    }
}

fn natural_size<N: Num>(w: u32, h: u32, width: Sizing<N>, height: Sizing<N>) -> (r: Size<N>)
    ensures
        r == picture_size(w, h, width, height),
{
    let nw: N = N::count(w as usize);
    let nh: N = N::count(h as usize);
    let zero: N = N::ratio(0, 1);
    if zero.less(nw) && zero.less(nh) {
        match (width, height) {
            (Sizing::Hug, Sizing::Fixed(h)) => Size { w: nw.times(h.over(nh)), h },
            (Sizing::Fixed(w), Sizing::Hug) => Size { w, h: nh.times(w.over(nw)) },
            _ => Size { w: nw, h: nh },
        }
    } else {
        Size::default()
    }
}

/// `a` if `on`, else nothing.
pub open spec fn width_if<N: Num>(on: bool, a: N) -> N {
    if on {
        a
    } else {
        whole(0)
    }
}

fn if_width<N: Num>(on: bool, a: N) -> (r: N)
    ensures
        r == width_if(on, a),
{
    if on {
        a
    } else {
        N::ratio(0, 1)
    }
}

/// The width of a tree row: triangle, checkbox, icon, label, action icons.
pub open spec fn tree_row_width<N: Num>(
    font_size: N,
    checkbox: bool,
    icon: bool,
    label_w: N,
    actions: bool,
) -> N {
    let checkbox_w = width_if(checkbox, N::add_of(font_size, whole(6)));
    let icon_w = width_if(icon, N::add_of(whole(TREE_ICON_W as int), whole(TREE_ICON_GAP as int)));
    let actions_w = width_if(actions, whole(TREE_ACTIONS_W as int));
    N::add_of(
        N::add_of(N::add_of(N::add_of(whole(TREE_TRIANGLE_W as int), checkbox_w), icon_w), label_w),
        actions_w,
    )
}

/// The size of a node's own content, children apart.
pub open spec fn own_size<N: Num, M: Metrics<N>>(kind: NodeKind<N>, style: Style<N>, m: M) -> Size<
    N,
> {
    let fs = style.font_size;
    match kind {
        NodeKind::Text { content } => as_size(m.extent(content@, fs)),
        NodeKind::Button { label } => as_size(m.extent(label@, fs)),
        NodeKind::TextInput { placeholder, .. } => as_size(m.extent(placeholder@, fs)),
        NodeKind::Checkbox { label, .. } => Size {
            w: N::add_of(N::add_of(m.extent(label@, fs).x, fs), whole(6)),
            h: m.extent(label@, fs).y,
        },
        NodeKind::Image { decoded, .. } => match decoded {
            Some(d) => picture_size(d.width, d.height, style.width, style.height),
            None => no_size(),
        },
        NodeKind::Icon { decoded, .. } => match decoded {
            Some(f) => picture_size(f.width, f.height, style.width, style.height),
            None => no_size(),
        },
        NodeKind::Dropdown { placeholder, options, selected, .. } => Size {
            w: N::add_of(
                m.extent(dropdown_label(placeholder@, options@, selected), fs).x,
                whole(24),
            ),
            h: dropdown_sizes(fs).0,
        },
        NodeKind::Slider { .. } => Size { w: m.control(), h: m.slider(fs).1 },
        NodeKind::ProgressBar { .. } => Size { w: m.control(), h: m.slider(fs).0 },
        NodeKind::Menu { label, .. } => as_size(m.extent(label@, fs)),
        NodeKind::MenuItem { label } => as_size(m.extent(label@, fs)),
        NodeKind::Date { value, placeholder, .. } => as_size(
            m.extent(picker_label(value@, placeholder@), fs),
        ),
        NodeKind::Time { value, placeholder, .. } => as_size(
            m.extent(picker_label(value@, placeholder@), fs),
        ),
        NodeKind::DateTime { value, placeholder, .. } => as_size(
            m.extent(picker_label(value@, placeholder@), fs),
        ),
        NodeKind::TreeViewItem { label, checkbox, show_folder_actions, .. } => Size {
            w: tree_row_width(
                fs,
                checkbox,
                style.tree_icon@.len() > 0,
                m.extent(label@, fs).x,
                show_folder_actions,
            ),
            h: line_of(fs),
        },
        NodeKind::Container | NodeKind::DataGrid | NodeKind::TreeView { .. } => no_size(),
    }
}

fn text_size<N: Num, M: Metrics<N>>(m: &M, text: &str, size: N) -> (r: Size<N>)
    ensures
        r == as_size(m.extent(text@, size)),
{
    let p: Point<N> = m.measure_text(text, size);
    Size { w: p.x, h: p.y }
}

fn own<N: Num, M: Metrics<N>>(kind: &NodeKind<N>, style: &Style<N>, m: &M) -> (r: Size<N>)
    ensures
        r == own_size(*kind, *style, *m),
{
    let fs: N = style.font_size;
    match kind {
        NodeKind::Text { content } => text_size(m, content.as_str(), fs),
        NodeKind::Button { label } => text_size(m, label.as_str(), fs),
        NodeKind::TextInput { placeholder, .. } => text_size(m, placeholder.as_str(), fs),
        NodeKind::Checkbox { label, .. } => {
            let t: Point<N> = m.measure_text(label.as_str(), fs);
            Size { w: t.x.plus(fs).plus(N::ratio(6, 1)), h: t.y }
        },
        NodeKind::Image { decoded, .. } => match decoded {
            Some(d) => natural_size(d.width, d.height, style.width, style.height),
            None => Size::default(),
        },
        NodeKind::Icon { decoded, .. } => match decoded {
            Some(f) => natural_size(f.width, f.height, style.width, style.height),
            None => Size::default(),
        },
        NodeKind::Dropdown { placeholder, options, selected, .. } => {
            let (box_h, _) = dropdown_metrics(fs);
            let t: Point<N> = m.measure_text(shown_option(placeholder, options, *selected), fs);
            Size { w: t.x.plus(N::ratio(24, 1)), h: box_h }
        },
        NodeKind::Slider { .. } => Size { w: m.control_width(), h: m.slider_metrics(fs).1 },
        NodeKind::ProgressBar { .. } => Size { w: m.control_width(), h: m.slider_metrics(fs).0 },
        NodeKind::Menu { label, .. } => text_size(m, label.as_str(), fs),
        NodeKind::MenuItem { label } => text_size(m, label.as_str(), fs),
        NodeKind::Date { value, placeholder, .. } => text_size(m, shown_value(value, placeholder), fs),
        NodeKind::Time { value, placeholder, .. } => text_size(m, shown_value(value, placeholder), fs),
        NodeKind::DateTime { value, placeholder, .. } => text_size(
            m,
            shown_value(value, placeholder),
            fs,
        ),
        NodeKind::TreeViewItem { label, checkbox, show_folder_actions, .. } => {
            let t: Point<N> = m.measure_text(label.as_str(), fs);
            let checkbox_w: N = if_width(*checkbox, fs.plus(N::ratio(6, 1)));
            let actions_w: N = if_width(*show_folder_actions, N::ratio(TREE_ACTIONS_W, 1));
            let icon_w: N = if_width(
                !style.tree_icon.as_str().is_empty(),
                N::ratio(TREE_ICON_W, 1).plus(N::ratio(TREE_ICON_GAP, 1)),
            );
            Size {
                w: N::ratio(TREE_TRIANGLE_W, 1).plus(checkbox_w).plus(icon_w).plus(t.x).plus(
                    actions_w,
                ),
                h: line_height(fs),
            }
        },
        NodeKind::Container | NodeKind::DataGrid | NodeKind::TreeView { .. } => Size::default(),
    }
}

// ---- folding children ----

/// Whether a node takes part in its parent's flow.
pub open spec fn in_flow<N>(nodes: Seq<Node<N>>, i: int) -> bool {
    nodes[i].style.position != Position::Absolute
}

/// The sizes of those of the first `n` children of `id` that are in flow.
pub open spec fn flow_sizes_upto<N>(
    nodes: Seq<Node<N>>,
    sizes: Seq<Size<N>>,
    id: int,
    n: nat,
) -> Seq<Size<N>>
    decreases n,
{
    if n == 0 {
        Seq::empty()
    } else {
        let rest = flow_sizes_upto(nodes, sizes, id, (n - 1) as nat);
        let c = child(nodes, id, n - 1);
        if in_flow(nodes, c) {
            rest.push(sizes[c])
        } else {
            rest
        }
    }
}

/// The sizes of the children of `id` that are in flow. The others consume no
/// space: they count nowhere in the size of `id`.
pub open spec fn flow_sizes<N>(nodes: Seq<Node<N>>, sizes: Seq<Size<N>>, id: int) -> Seq<Size<N>> {
    flow_sizes_upto(nodes, sizes, id, nodes[id].children@.len())
}

/// The sum of the main extents, and the largest cross extent, of the first `n`
/// children.
pub open spec fn flow_fold<N: Num>(kids: Seq<Size<N>>, row: bool, n: nat) -> (N, N)
    decreases n,
{
    if n == 0 {
        (whole(0), whole(0))
    } else {
        let (main, cross) = flow_fold(kids, row, (n - 1) as nat);
        let s = kids[n - 1];
        if row {
            (N::add_of(main, s.w), N::max_of(cross, s.h))
        } else {
            (N::add_of(main, s.h), N::max_of(cross, s.w))
        }
    }
}

/// The widest, and the sum of the heights, of the first `n` children.
pub open spec fn stack_fold<N: Num>(kids: Seq<Size<N>>, n: nat) -> (N, N)
    decreases n,
{
    if n == 0 {
        (whole(0), whole(0))
    } else {
        let (w, h) = stack_fold(kids, (n - 1) as nat);
        (N::max_of(w, kids[n - 1].w), N::add_of(h, kids[n - 1].h))
    }
}

/// The widest of those of the first `n` children that stand in column `col` when
/// they are dealt out over `ncols` columns.
pub open spec fn column_width<N: Num>(kids: Seq<Size<N>>, ncols: int, col: int, n: nat) -> N
    decreases n,
{
    if n == 0 {
        whole(0)
    } else {
        let w = column_width(kids, ncols, col, (n - 1) as nat);
        if (n - 1) % ncols == col {
            N::max_of(w, kids[n - 1].w)
        } else {
            w
        }
    }
}

/// The tallest of those that stand in row `row`.
pub open spec fn row_height<N: Num>(kids: Seq<Size<N>>, ncols: int, row: int, n: nat) -> N
    decreases n,
{
    if n == 0 {
        whole(0)
    } else {
        let h = row_height(kids, ncols, row, (n - 1) as nat);
        if (n - 1) / ncols == row {
            N::max_of(h, kids[n - 1].h)
        } else {
            h
        }
    }
}

/// A list of `n` automatic tracks.
pub open spec fn auto_tracks<N>(n: nat) -> Seq<GridTrack<N>> {
    Seq::new(n, |i: int| GridTrack::Auto)
}

/// The template's tracks, or `n` automatic ones if there is no template.
pub open spec fn tracks_or_auto<N>(tracks: Seq<GridTrack<N>>, n: nat) -> Seq<GridTrack<N>> {
    if tracks.len() == 0 {
        auto_tracks(n)
    } else {
        tracks
    }
}

/// `n` less one, or none.
pub open spec fn less_one(n: nat) -> nat {
    if n == 0 {
        0
    } else {
        (n - 1) as nat
    }
}

/// The sum of the first `n` columns: a fixed track has its own width, an
/// automatic one that of its widest child, a fraction none.
pub open spec fn columns_sum<N: Num>(
    kids: Seq<Size<N>>,
    cols: Seq<GridTrack<N>>,
    ncols: int,
    n: nat,
) -> N
    decreases n,
{
    if n == 0 {
        whole(0)
    } else {
        N::add_of(
            columns_sum(kids, cols, ncols, (n - 1) as nat),
            match cols[n - 1] {
                GridTrack::Fixed(v) => v,
                GridTrack::Auto => column_width(kids, ncols, n - 1, kids.len()),
                GridTrack::Fr(_) => whole(0),
            },
        )
    }
}

/// The sum of the first `n` rows.
pub open spec fn rows_sum<N: Num>(
    kids: Seq<Size<N>>,
    rows: Seq<GridTrack<N>>,
    ncols: int,
    n: nat,
) -> N
    decreases n,
{
    if n == 0 {
        whole(0)
    } else {
        N::add_of(
            rows_sum(kids, rows, ncols, (n - 1) as nat),
            match rows[n - 1] {
                GridTrack::Fixed(v) => v,
                GridTrack::Auto => row_height(kids, ncols, n - 1, kids.len()),
                GridTrack::Fr(_) => whole(0),
            },
        )
    }
}

pub open spec fn column_gap<N>(style: Style<N>) -> N {
    match style.gap_x {
        Some(g) => g,
        None => style.gap,
    }
}

pub open spec fn row_gap<N>(style: Style<N>) -> N {
    match style.gap_y {
        Some(g) => g,
        None => style.gap,
    }
}

/// How many rows `cells` cells take in `ncols` columns; one at the least.
pub open spec fn rows_needed(cells: nat, ncols: nat) -> nat {
    if cells == 0 {
        1
    } else {
        ((cells + ncols - 1) / ncols as int) as nat
    }
}

/// A grid's intrinsic size, with children of the sizes `kids`: fixed and
/// automatic tracks add up, fractions add nothing.
pub open spec fn grid_size<N: Num>(style: Style<N>, kids: Seq<Size<N>>) -> Size<N> {
    let given = style.grid_template_columns@;
    let ncols = if given.len() == 0 {
        1
    } else {
        given.len()
    };
    let nrows = rows_needed(kids.len(), ncols);
    let cols = tracks_or_auto(given, ncols);
    let rows = tracks_or_auto(style.grid_template_rows@, nrows);
    Size {
        w: N::add_of(
            columns_sum(kids, cols, ncols as int, cols.len()),
            N::mul_of(column_gap(style), N::count_of(less_one(cols.len()))),
        ),
        h: N::add_of(
            rows_sum(kids, rows, ncols as int, rows.len()),
            N::mul_of(row_gap(style), N::count_of(less_one(rows.len()))),
        ),
    }
}

/// A node's content: its own, and that of its children in flow, of the sizes
/// `kids`, where they count.
pub open spec fn content_of<N: Num, M: Metrics<N>>(
    kind: NodeKind<N>,
    style: Style<N>,
    kids: Seq<Size<N>>,
    m: M,
) -> Size<N> {
    let own = own_size(kind, style, m);
    match kind {
        NodeKind::TreeViewItem { collapsed, .. } => if !collapsed && kids.len() > 0 {
            let (w, h) = stack_fold(kids, kids.len());
            Size {
                w: N::max_of(own.w, N::add_of(w, whole(TREE_INDENT as int))),
                h: N::add_of(own.h, h),
            }
        } else {
            own
        },
        NodeKind::Menu { .. } => own,
        _ => if style.display == Display::Grid {
            grid_size(style, kids)
        } else {
            let row = is_row(style.direction);
            let (folded, cross) = flow_fold(kids, row, kids.len());
            let main = N::add_of(
                folded,
                N::mul_of(style.gap, N::count_of(less_one(kids.len()))),
            );
            if row {
                Size { w: N::max_of(main, own.w), h: N::max_of(cross, own.h) }
            } else {
                Size { w: N::max_of(cross, own.w), h: N::max_of(main, own.h) }
            }
        },
    }
}

pub open spec fn fixed_or<N>(s: Sizing<N>, other: N) -> N {
    match s {
        Sizing::Fixed(v) => v,
        _ => other,
    }
}

/// The size of node `id`, given its children's sizes: its content with padding
/// and border, or what is fixed.
pub open spec fn size_from<N: Num, M: Metrics<N>>(
    nodes: Seq<Node<N>>,
    sizes: Seq<Size<N>>,
    id: int,
    m: M,
) -> Size<N> {
    let style = nodes[id].style;
    let content = content_of(nodes[id].kind, style, flow_sizes(nodes, sizes, id), m);
    let pad = style.padding;
    let bw = style.border_width;
    Size {
        w: fixed_or(
            style.width,
            N::add_of(
                N::add_of(N::add_of(N::add_of(content.w, pad.left), pad.right), bw.left),
                bw.right,
            ),
        ),
        h: fixed_or(
            style.height,
            N::add_of(
                N::add_of(N::add_of(N::add_of(content.h, pad.top), pad.bottom), bw.top),
                bw.bottom,
            ),
        ),
    }
}

/// `sizes` gives every node the size that follows from its children's.
pub open spec fn sizes_agree<N: Num, M: Metrics<N>>(
    nodes: Seq<Node<N>>,
    sizes: Seq<Size<N>>,
    m: M,
) -> bool {
    &&& sizes.len() == nodes.len()
    &&& forall|i: int|
        0 <= i < nodes.len() ==> #[trigger] sizes[i] == size_from(nodes, sizes, i, m)
}

/// Two tables give the children of `id` the same sizes.
pub open spec fn same_below<N>(
    nodes: Seq<Node<N>>,
    a: Seq<Size<N>>,
    b: Seq<Size<N>>,
    id: int,
) -> bool {
    forall|k: int|
        0 <= k < nodes[id].children@.len() ==> a[(#[trigger] nodes[id].children@[k]).0 as int]
            == b[nodes[id].children@[k].0 as int]
}

/// A node's size looks at nothing but its children's sizes.
pub proof fn lemma_size_frame<N: Num, M: Metrics<N>>(
    nodes: Seq<Node<N>>,
    a: Seq<Size<N>>,
    b: Seq<Size<N>>,
    id: int,
    m: M,
)
    requires
        same_below(nodes, a, b, id),
    ensures
        size_from(nodes, a, id, m) == size_from(nodes, b, id, m),
{
    lemma_flow_sizes_frame(nodes, a, b, id, nodes[id].children@.len());
}

proof fn lemma_flow_sizes_frame<N>(
    nodes: Seq<Node<N>>,
    a: Seq<Size<N>>,
    b: Seq<Size<N>>,
    id: int,
    n: nat,
)
    requires
        same_below(nodes, a, b, id),
        n <= nodes[id].children@.len(),
    ensures
        flow_sizes_upto(nodes, a, id, n) == flow_sizes_upto(nodes, b, id, n),
    decreases n,
{
    if n > 0 {
        lemma_flow_sizes_frame(nodes, a, b, id, (n - 1) as nat);
        let c = nodes[id].children@[n - 1];
        assert(a[c.0 as int] == b[c.0 as int]);
    }
}

/// At most one table of sizes agrees with the nodes: the sizes are determined.
pub proof fn law_sizes_are_determined<N: Num, M: Metrics<N>>(
    nodes: Seq<Node<N>>,
    rank: spec_fn(int) -> nat,
    a: Seq<Size<N>>,
    b: Seq<Size<N>>,
    i: int,
    m: M,
)
    requires
        ranked(nodes, rank),
        sizes_agree(nodes, a, m),
        sizes_agree(nodes, b, m),
        0 <= i < nodes.len(),
    ensures
        a[i] == b[i],
    decreases rank(i),
{
    assert forall|k: int| 0 <= k < nodes[i].children@.len() implies a[(
    #[trigger] nodes[i].children@[k]).0 as int] == b[nodes[i].children@[k].0 as int] by {
        law_sizes_are_determined(nodes, rank, a, b, nodes[i].children@[k].0 as int, m);
    }
    lemma_size_frame(nodes, a, b, i, m);
}

/// `wide` is `nodes` with one more child of node `id`: node `c`, in place `p`
/// among its children, out of flow. Node `c` may be one that `nodes` lacks.
pub open spec fn with_absolute_child<N>(
    nodes: Seq<Node<N>>,
    wide: Seq<Node<N>>,
    id: int,
    p: int,
    c: NodeId,
) -> bool {
    &&& 0 <= id < nodes.len() <= wide.len()
    &&& 0 <= p <= nodes[id].children@.len()
    &&& c.0 < wide.len()
    &&& wide[c.0 as int].style.position == Position::Absolute
    &&& wide[id].children@ == nodes[id].children@.insert(p, c)
    &&& wide[id].kind == nodes[id].kind
    &&& wide[id].style == nodes[id].style
    &&& forall|i: int| 0 <= i < nodes.len() && i != id ==> #[trigger] wide[i] == nodes[i]
}

proof fn lemma_flow_sizes_without<N>(
    nodes: Seq<Node<N>>,
    wide: Seq<Node<N>>,
    id: int,
    p: int,
    c: NodeId,
    a: Seq<Size<N>>,
    b: Seq<Size<N>>,
    n: nat,
)
    requires
        with_absolute_child(nodes, wide, id, p, c),
        n <= nodes[id].children@.len(),
        forall|k: int|
            0 <= k < nodes[id].children@.len() ==> {
                let x = (#[trigger] nodes[id].children@[k]).0;
                x < nodes.len() && a[x as int] == b[x as int]
            },
    ensures
        n <= p ==> flow_sizes_upto(nodes, a, id, n) == flow_sizes_upto(wide, b, id, n),
        n >= p ==> flow_sizes_upto(nodes, a, id, n) == flow_sizes_upto(wide, b, id, n + 1),
    decreases n,
{
    let kids = nodes[id].children@;
    let more = wide[id].children@;
    if n > 0 {
        lemma_flow_sizes_without(nodes, wide, id, p, c, a, b, (n - 1) as nat);
        let x = kids[n - 1].0 as int;
        assert(a[x] == b[x]);
        assert(wide[x].style == nodes[x].style);
        assert(child(nodes, id, n - 1) == x);
        if n <= p {
            assert(more[n - 1] == kids[n - 1]);
        } else {
            assert(more[n as int] == kids[n - 1]);
            assert(child(wide, id, n as int) == x);
        }
    }
    if n == p {
        assert(more[p] == c);
        assert(child(wide, id, p) == c.0);
        assert(!in_flow(wide, child(wide, id, (n + 1) - 1)));
    }
    if n >= p {
        let rest = flow_sizes_upto(wide, b, id, n);
        assert(flow_sizes_upto(wide, b, id, n + 1) == if in_flow(wide, child(wide, id, n as int)) {
            rest.push(b[child(wide, id, n as int)])
        } else {
            rest
        });
    }
}

/// A child that is out of flow consumes no space: adding one, or taking one away,
/// changes the size of no node, its parent's above all.
pub proof fn law_absolute_child_takes_no_space<N: Num, M: Metrics<N>>(
    nodes: Seq<Node<N>>,
    wide: Seq<Node<N>>,
    id: int,
    p: int,
    c: NodeId,
    a: Seq<Size<N>>,
    b: Seq<Size<N>>,
    i: int,
    m: M,
)
    requires
        is_forest(nodes),
        with_absolute_child(nodes, wide, id, p, c),
        sizes_agree(nodes, a, m),
        sizes_agree(wide, b, m),
        0 <= i < nodes.len(),
    ensures
        a[i] == b[i],
    decreases rank_of(nodes)(i),
{
    let rank = rank_of(nodes);
    assert(ranked(nodes, rank));
    assert forall|k: int| 0 <= k < nodes[i].children@.len() implies {
        let x = (#[trigger] nodes[i].children@[k]).0;
        x < nodes.len() && a[x as int] == b[x as int]
    } by {
        law_absolute_child_takes_no_space(
            nodes,
            wide,
            id,
            p,
            c,
            a,
            b,
            nodes[i].children@[k].0 as int,
            m,
        );
    }
    let n = nodes[i].children@.len();
    assert(a[i] == size_from(nodes, a, i, m));
    assert(b[i] == size_from(wide, b, i, m));
    if i == id {
        lemma_flow_sizes_without(nodes, wide, id, p, c, a, b, n);
        assert(flow_sizes(nodes, a, i) == flow_sizes(wide, b, i));
    } else {
        lemma_flow_sizes_same_node(nodes, wide, a, b, i, n);
    }
}

proof fn lemma_flow_sizes_same_node<N>(
    nodes: Seq<Node<N>>,
    wide: Seq<Node<N>>,
    a: Seq<Size<N>>,
    b: Seq<Size<N>>,
    i: int,
    n: nat,
)
    requires
        0 <= i < nodes.len() <= wide.len(),
        wide[i] == nodes[i],
        n <= nodes[i].children@.len(),
        forall|j: int| 0 <= j < nodes.len() ==> (#[trigger] wide[j]).style == nodes[j].style,
        forall|k: int|
            0 <= k < nodes[i].children@.len() ==> {
                let x = (#[trigger] nodes[i].children@[k]).0;
                x < nodes.len() && a[x as int] == b[x as int]
            },
    ensures
        flow_sizes_upto(nodes, a, i, n) == flow_sizes_upto(wide, b, i, n),
    decreases n,
{
    if n > 0 {
        lemma_flow_sizes_same_node(nodes, wide, a, b, i, (n - 1) as nat);
        let x = nodes[i].children@[n - 1].0 as int;
        assert(a[x] == b[x]);
        assert(wide[x].style == nodes[x].style);
    }
}

// ---- executable measuring ----

/// The sizes of the children of `id` that are in flow.
fn sizes_in_flow<N: Num>(nodes: &Vec<Node<N>>, sizes: &Vec<Size<N>>, id: usize) -> (r: Vec<Size<N>>)
    requires
        is_forest(nodes@),
        id < nodes@.len(),
        sizes@.len() == nodes@.len(),
    ensures
        r@ == flow_sizes(nodes@, sizes@, id as int),
{
    let children: &Vec<NodeId> = &nodes[id].children;
    let mut out: Vec<Size<N>> = Vec::new();
    let mut k: usize = 0;
    let ghost rank = rank_of(nodes@);
    while k < children.len()
        invariant
            0 <= k <= children@.len(),
            id < nodes@.len(),
            ranked(nodes@, rank),
            children == nodes@[id as int].children,
            sizes@.len() == nodes@.len(),
            out@ == flow_sizes_upto(nodes@, sizes@, id as int, k as nat),
        decreases children@.len() - k,
    {
        let c: usize = children[k].0 as usize;
        assert(nodes@[id as int].children@[k as int].0 == c);
        if nodes[c].style.position != Position::Absolute {
            out.push(sizes[c]);
        }
        k = k + 1;
    }
    out
}

fn fold_flow<N: Num>(kids: &Vec<Size<N>>, row: bool) -> (r: (N, N))
    ensures
        r == flow_fold(kids@, row, kids@.len()),
{
    let mut main: N = N::ratio(0, 1);
    let mut cross: N = N::ratio(0, 1);
    let mut k: usize = 0;
    while k < kids.len()
        invariant
            0 <= k <= kids@.len(),
            (main, cross) == flow_fold(kids@, row, k as nat),
        decreases kids@.len() - k,
    {
        let s: Size<N> = kids[k];
        if row {
            main = main.plus(s.w);
            cross = cross.greater_of(s.h);
        } else {
            main = main.plus(s.h);
            cross = cross.greater_of(s.w);
        }
        k = k + 1;
    }
    (main, cross)
}

fn fold_stack<N: Num>(kids: &Vec<Size<N>>) -> (r: (N, N))
    ensures
        r == stack_fold(kids@, kids@.len()),
{
    let mut w: N = N::ratio(0, 1);
    let mut h: N = N::ratio(0, 1);
    let mut k: usize = 0;
    while k < kids.len()
        invariant
            0 <= k <= kids@.len(),
            (w, h) == stack_fold(kids@, k as nat),
        decreases kids@.len() - k,
    {
        w = w.greater_of(kids[k].w);
        h = h.plus(kids[k].h);
        k = k + 1;
    }
    (w, h)
}

/// The widest child of a column, or the tallest of a row.
fn fold_cells<N: Num>(kids: &Vec<Size<N>>, ncols: usize, at: usize, columns: bool) -> (r: N)
    requires
        ncols > 0,
    ensures
        columns ==> r == column_width(kids@, ncols as int, at as int, kids@.len()),
        !columns ==> r == row_height(kids@, ncols as int, at as int, kids@.len()),
{
    let mut v: N = N::ratio(0, 1);
    let mut k: usize = 0;
    while k < kids.len()
        invariant
            0 <= k <= kids@.len(),
            ncols > 0,
            columns ==> v == column_width(kids@, ncols as int, at as int, k as nat),
            !columns ==> v == row_height(kids@, ncols as int, at as int, k as nat),
        decreases kids@.len() - k,
    {
        if columns {
            if k % ncols == at {
                v = v.greater_of(kids[k].w);
            }
        } else if k / ncols == at {
            v = v.greater_of(kids[k].h);
        }
        k = k + 1;
    }
    v
}

/// The sum of a grid's tracks on one axis, and how many there are. Without a
/// template there are `n` automatic ones.
fn sum_tracks<N: Num>(
    kids: &Vec<Size<N>>,
    given: &Vec<GridTrack<N>>,
    n: usize,
    ncols: usize,
    columns: bool,
) -> (r: (N, usize))
    requires
        ncols > 0,
    ensures
        r.1 == tracks_or_auto(given@, n as nat).len(),
        columns ==> r.0 == columns_sum(
            kids@,
            tracks_or_auto(given@, n as nat),
            ncols as int,
            tracks_or_auto(given@, n as nat).len(),
        ),
        !columns ==> r.0 == rows_sum(
            kids@,
            tracks_or_auto(given@, n as nat),
            ncols as int,
            tracks_or_auto(given@, n as nat).len(),
        ),
{
    let ghost tracks = tracks_or_auto(given@, n as nat);
    let total: usize = if given.len() == 0 {
        n
    } else {
        given.len()
    };
    let mut sum: N = N::ratio(0, 1);
    let mut k: usize = 0;
    while k < total
        invariant
            0 <= k <= total,
            total == tracks.len(),
            tracks == tracks_or_auto(given@, n as nat),
            ncols > 0,
            columns ==> sum == columns_sum(kids@, tracks, ncols as int, k as nat),
            !columns ==> sum == rows_sum(kids@, tracks, ncols as int, k as nat),
        decreases total - k,
    {
        let track: GridTrack<N> = if given.len() == 0 {
            GridTrack::Auto
        } else {
            given[k]
        };
        assert(tracks[k as int] == track);
        let v: N = match track {
            GridTrack::Fixed(v) => v,
            GridTrack::Auto => fold_cells(kids, ncols, k, columns),
            GridTrack::Fr(_) => N::ratio(0, 1),
        };
        sum = sum.plus(v);
        k = k + 1;
    }
    (sum, total)
}

/// A grid's intrinsic size.
fn grid_intrinsic<N: Num>(style: &Style<N>, kids: &Vec<Size<N>>) -> (r: Size<N>)
    ensures
        r == grid_size(*style, kids@),
{
    let ncols: usize = if style.grid_template_columns.len() == 0 {
        1
    } else {
        style.grid_template_columns.len()
    };
    let cells: usize = kids.len();
    let nrows: usize = if cells == 0 {
        1
    } else {
        (cells - 1) / ncols + 1
    };
    proof {
        let c = cells as int;
        let k = ncols as int;
        if c > 0 {
            assert((c + k - 1) / k == (c - 1) / k + 1) by {
                vstd::arithmetic::div_mod::lemma_div_plus_one(c - 1, k);
            }
        }
    }
    let (w, cols) = sum_tracks(kids, &style.grid_template_columns, ncols, ncols, true);
    let (h, rows) = sum_tracks(kids, &style.grid_template_rows, nrows, ncols, false);
    let gap_x: N = match style.gap_x {
        Some(g) => g,
        None => style.gap,
    };
    let gap_y: N = match style.gap_y {
        Some(g) => g,
        None => style.gap,
    };
    Size {
        w: w.plus(gap_x.times(N::count(one_less(cols)))),
        h: h.plus(gap_y.times(N::count(one_less(rows)))),
    }
}

/// `n` less one, or none.
pub fn one_less(n: usize) -> (r: usize)
    ensures
        r == less_one(n as nat),
{
    if n == 0 {
        0
    } else {
        n - 1
    }
}

fn content<N: Num, M: Metrics<N>>(
    kind: &NodeKind<N>,
    style: &Style<N>,
    kids: &Vec<Size<N>>,
    m: &M,
) -> (r: Size<N>)
    ensures
        r == content_of(*kind, *style, kids@, *m),
{
    let own: Size<N> = own(kind, style, m);
    match kind {
        NodeKind::TreeViewItem { collapsed, .. } => {
            if !*collapsed && kids.len() > 0 {
                let (w, h) = fold_stack(kids);
                Size {
                    w: own.w.greater_of(w.plus(N::ratio(TREE_INDENT, 1))),
                    h: own.h.plus(h),
                }
            } else {
                own
            }
        },
        NodeKind::Menu { .. } => own,
        _ => {
            if style.display == Display::Grid {
                return grid_intrinsic(style, kids);
            }
            let row: bool = axis_is_row(style.direction);
            let (folded, cross) = fold_flow(kids, row);
            let main: N = folded.plus(style.gap.times(N::count(one_less(kids.len()))));
            if row {
                Size { w: main.greater_of(own.w), h: cross.greater_of(own.h) }
            } else {
                Size { w: cross.greater_of(own.w), h: main.greater_of(own.h) }
            }
        },
    }
}

fn node_size<N: Num, M: Metrics<N>>(
    nodes: &Vec<Node<N>>,
    sizes: &Vec<Size<N>>,
    id: usize,
    m: &M,
) -> (r: Size<N>)
    requires
        is_forest(nodes@),
        id < nodes@.len(),
        sizes@.len() == nodes@.len(),
    ensures
        r == size_from(nodes@, sizes@, id as int, *m),
{
    let style: &Style<N> = &nodes[id].style;
    let kids: Vec<Size<N>> = sizes_in_flow(nodes, sizes, id);
    let c: Size<N> = content(&nodes[id].kind, style, &kids, m);
    let pad: Edges<N> = style.padding;
    let bw: Edges<N> = style.border_width;
    let w: N = match style.width {
        Sizing::Fixed(v) => v,
        _ => c.w.plus(pad.left).plus(pad.right).plus(bw.left).plus(bw.right),
    };
    let h: N = match style.height {
        Sizing::Fixed(v) => v,
        _ => c.h.plus(pad.top).plus(pad.bottom).plus(bw.top).plus(bw.bottom),
    };
    Size { w, h }
}

/// The nodes that are `done` agree with `sizes`, and so are their children.
spec fn partly<N: Num, M: Metrics<N>>(
    nodes: Seq<Node<N>>,
    sizes: Seq<Size<N>>,
    done: Seq<bool>,
    m: M,
) -> bool {
    &&& sizes.len() == nodes.len()
    &&& done.len() == nodes.len()
    &&& forall|i: int|
        0 <= i < nodes.len() && #[trigger] done[i] ==> sizes[i] == size_from(nodes, sizes, i, m)
    &&& forall|i: int, k: int|
        0 <= i < nodes.len() && done[i] && 0 <= k < nodes[i].children@.len()
            ==> done[(#[trigger] nodes[i].children@[k]).0 as int]
}

fn measure<N: Num, M: Metrics<N>>(
    nodes: &Vec<Node<N>>,
    id: usize,
    m: &M,
    sizes: &mut Vec<Size<N>>,
    done: &mut Vec<bool>,
)
    requires
        is_forest(nodes@),
        id < nodes@.len(),
        partly(nodes@, old(sizes)@, old(done)@, *m),
    ensures
        partly(nodes@, final(sizes)@, final(done)@, *m),
        final(done)@[id as int],
        forall|i: int| 0 <= i < nodes@.len() && old(done)@[i] ==> #[trigger] final(done)@[i],
    decreases rank_of(nodes@)(id as int),
{
    if done[id] {
        return ;
    }
    let ghost rank = rank_of(nodes@);
    let children: &Vec<NodeId> = &nodes[id].children;
    let mut k: usize = 0;
    while k < children.len()
        invariant
            0 <= k <= children@.len(),
            id < nodes@.len(),
            is_forest(nodes@),
            rank == rank_of(nodes@),
            ranked(nodes@, rank),
            children == nodes@[id as int].children,
            partly(nodes@, sizes@, done@, *m),
            forall|i: int| 0 <= i < nodes@.len() && old(done)@[i] ==> #[trigger] done@[i],
            forall|j: int| 0 <= j < k ==> done@[(#[trigger] nodes@[id as int].children@[j]).0 as int],
        decreases children@.len() - k,
    {
        let c: usize = children[k].0 as usize;
        assert(nodes@[id as int].children@[k as int].0 == c);
        let ghost before = done@;
        measure(nodes, c, m, sizes, done);
        assert forall|j: int| 0 <= j < k + 1 implies done@[(
        #[trigger] nodes@[id as int].children@[j]).0 as int] by {
            if j < k {
                assert(before[nodes@[id as int].children@[j].0 as int]);
            }
        }
        k = k + 1;
    }
    if done[id] {
        return ;
    }
    let size: Size<N> = node_size(nodes, sizes, id, m);
    let ghost s1 = sizes@;
    let ghost d1 = done@;
    sizes[id] = size;
    done[id] = true;
    proof {
        let s2 = sizes@;
        let d2 = done@;
        assert forall|i: int| 0 <= i < nodes@.len() && #[trigger] d2[i] implies s2[i]
            == size_from(nodes@, s2, i, *m) by {
            assert forall|j: int| 0 <= j < nodes@[i].children@.len() implies s1[(
            #[trigger] nodes@[i].children@[j]).0 as int]
                == s2[nodes@[i].children@[j].0 as int] by {
                let c = nodes@[i].children@[j].0 as int;
                if i == id {
                    assert(rank(c) < rank(id as int));
                } else {
                    assert(d1[i]);
                    assert(d1[c]);
                }
            }
            lemma_size_frame(nodes@, s1, s2, i, *m);
        }
        assert forall|i: int, j: int|
            0 <= i < nodes@.len() && d2[i] && 0 <= j < nodes@[i].children@.len() implies d2[(
        #[trigger] nodes@[i].children@[j]).0 as int] by {
            if i != id {
                assert(d1[i]);
            }
        }
    }
}

/// The intrinsic size of every node.
pub fn measure_all<N: Num, M: Metrics<N>>(nodes: &Vec<Node<N>>, m: &M) -> (r: Vec<Size<N>>)
    requires
        is_forest(nodes@),
    ensures
        sizes_agree(nodes@, r@, *m),
{
    let n: usize = nodes.len();
    let mut sizes: Vec<Size<N>> = Vec::new();
    let mut done: Vec<bool> = Vec::new();
    let mut i: usize = 0;
    while i < n
        invariant
            0 <= i <= n,
            sizes@.len() == i,
            done@.len() == i,
            forall|k: int| 0 <= k < i ==> !#[trigger] done@[k],
        decreases n - i,
    {
        sizes.push(Size::default());
        done.push(false);
        i = i + 1;
    }
    let mut j: usize = 0;
    while j < n
        invariant
            0 <= j <= n,
            n == nodes@.len(),
            is_forest(nodes@),
            partly(nodes@, sizes@, done@, *m),
            forall|k: int| 0 <= k < j ==> #[trigger] done@[k],
        decreases n - j,
    {
        measure(nodes, j, m, &mut sizes, &mut done);
        j = j + 1;
    }
    proof {
        assert forall|i: int| 0 <= i < nodes@.len() implies #[trigger] sizes@[i] == size_from(
            nodes@,
            sizes@,
            i,
            *m,
        ) by {
            assert(done@[i]);
        }
    }
    sizes
}

} // verus!
