//! The resolved style of a node, its variants, and which of them is in effect.

use vstd::prelude::*;
use vstd::string::*;
use crate::toolkit::geometry::{edges_all, Color, Edges};
use crate::toolkit::num::{mix, mix_of, whole, Num};
use crate::toolkit::tailwind::Easing;
use crate::text::str_eq;

verus! {

/// How a node is sized along an axis.
#[derive(Debug, Clone, Copy)]
pub enum Sizing<N> {
    /// Fixed pixels.
    Fixed(N),
    /// A fraction of the parent's available extent.
    Percent(N),
    /// Grow to fill available space, weighted.
    Fill(N),
    /// Shrink to fit content.
    Hug,
}

/// Main-axis direction for a container's children.
#[derive(Debug, Clone, Copy, PartialEq, Eq, Structural)]
pub enum Direction {
    Column,
    Row,
    /// `flex-row-reverse`.
    RowReverse,
    /// `flex-col-reverse`.
    ColumnReverse,
}

#[derive(Debug, Clone, Copy, PartialEq, Eq, Structural)]
pub enum TextAlign {
    Left,
    Center,
    Right,
}

/// Cross or main alignment of a container's children.
#[derive(Debug, Clone, Copy, PartialEq, Eq, Structural)]
pub enum Align {
    Start,
    Center,
    End,
}

/// A container's layout mode.
#[derive(Debug, Clone, Copy, PartialEq, Eq, Structural)]
pub enum Display {
    Flow,
    Grid,
}

#[derive(Debug, Clone, Copy, PartialEq, Eq, Structural)]
pub enum Position {
    /// Normal in-flow placement.
    Static,
    /// In flow, but nudged from its place without affecting siblings; the
    /// containing block for `Absolute` descendants.
    Relative,
    /// Out of flow, placed against the nearest positioned ancestor's content box.
    Absolute,
}

/// One track of a grid template.
#[derive(Debug, Clone, Copy)]
pub enum GridTrack<N> {
    /// Shares leftover space by weight.
    Fr(N),
    Fixed(N),
    Auto,
}

/// A 2D affine transform.
#[derive(Debug, Clone, Copy)]
pub struct Transform2D<N> {
    pub translate_x: N,
    pub translate_y: N,
    pub scale_x: N,
    pub scale_y: N,
    pub rotate_deg: N,
    pub skew_x_deg: N,
    pub skew_y_deg: N,
}

pub open spec fn identity_transform<N: Num>() -> Transform2D<N> {
    Transform2D {
        translate_x: whole(0),
        translate_y: whole(0),
        scale_x: whole(1),
        scale_y: whole(1),
        rotate_deg: whole(0),
        skew_x_deg: whole(0),
        skew_y_deg: whole(0),
    }
}

/// Equality of transforms, number by number.
pub open spec fn transform_eq<N: Num>(a: Transform2D<N>, b: Transform2D<N>) -> bool {
    N::eq_of(a.translate_x, b.translate_x) && N::eq_of(a.translate_y, b.translate_y) && N::eq_of(
        a.scale_x,
        b.scale_x,
    ) && N::eq_of(a.scale_y, b.scale_y) && N::eq_of(a.rotate_deg, b.rotate_deg) && N::eq_of(
        a.skew_x_deg,
        b.skew_x_deg,
    ) && N::eq_of(a.skew_y_deg, b.skew_y_deg)
}

/// A transform on the way from `a` to `b`.
pub open spec fn transform_mix<N: Num>(a: Transform2D<N>, b: Transform2D<N>, t: N) -> Transform2D<
    N,
> {
    Transform2D {
        translate_x: mix_of(a.translate_x, b.translate_x, t),
        translate_y: mix_of(a.translate_y, b.translate_y, t),
        scale_x: mix_of(a.scale_x, b.scale_x, t),
        scale_y: mix_of(a.scale_y, b.scale_y, t),
        rotate_deg: mix_of(a.rotate_deg, b.rotate_deg, t),
        skew_x_deg: mix_of(a.skew_x_deg, b.skew_x_deg, t),
        skew_y_deg: mix_of(a.skew_y_deg, b.skew_y_deg, t),
    }
}

fn transform_same<N: Num>(a: &Transform2D<N>, b: &Transform2D<N>) -> (r: bool)
    ensures
        r == transform_eq(*a, *b),
{
    a.translate_x.same(b.translate_x) && a.translate_y.same(b.translate_y) && a.scale_x.same(
        b.scale_x,
    ) && a.scale_y.same(b.scale_y) && a.rotate_deg.same(b.rotate_deg) && a.skew_x_deg.same(
        b.skew_x_deg,
    ) && a.skew_y_deg.same(b.skew_y_deg)
}

impl<N: Num> Transform2D<N> {
    /// The transform that changes nothing.
    pub fn identity() -> (r: Self)
        ensures
            r == identity_transform::<N>(),
    {
        Transform2D {
            translate_x: N::ratio(0, 1),
            translate_y: N::ratio(0, 1),
            scale_x: N::ratio(1, 1),
            scale_y: N::ratio(1, 1),
            rotate_deg: N::ratio(0, 1),
            skew_x_deg: N::ratio(0, 1),
            skew_y_deg: N::ratio(0, 1),
        }
    }

    pub fn is_identity(&self) -> (r: bool)
        ensures
            r == transform_eq(*self, identity_transform::<N>()),
    {
        transform_same(self, &Transform2D::identity())
    }

    pub fn lerp(a: Transform2D<N>, b: Transform2D<N>, t: N) -> (r: Transform2D<N>)
        ensures
            r == transform_mix(a, b, t),
    {
        Transform2D {
            translate_x: mix(a.translate_x, b.translate_x, t),
            translate_y: mix(a.translate_y, b.translate_y, t),
            scale_x: mix(a.scale_x, b.scale_x, t),
            scale_y: mix(a.scale_y, b.scale_y, t),
            rotate_deg: mix(a.rotate_deg, b.rotate_deg, t),
            skew_x_deg: mix(a.skew_x_deg, b.skew_x_deg, t),
            skew_y_deg: mix(a.skew_y_deg, b.skew_y_deg, t),
        }
    }
}

/// `transition-*` / `duration-*` / `ease-*` / `delay-*`, resolved together.
#[derive(Debug, Clone, Copy)]
pub struct Transition<N> {
    pub duration_ms: N,
    pub delay_ms: N,
    pub easing: Easing,
}

/// A node's style.
#[derive(Debug)]
pub struct Style<N> {
    pub direction: Direction,
    pub display: Display,
    pub position: Position,
    /// `left-*`/`top-*`/`right-*`/`bottom-*`: a nudge within the normal-flow slot
    /// for a `Relative` node, the place for an `Absolute` one; else ignored.
    pub left: Option<N>,
    pub right: Option<N>,
    pub top: Option<N>,
    pub bottom: Option<N>,
    pub width: Sizing<N>,
    pub height: Sizing<N>,
    pub padding: Edges<N>,
    pub margin: Edges<N>,
    /// `scroll-h`/`scroll-v`: clip overflow along that axis and let it be panned.
    pub scroll_x: bool,
    pub scroll_y: bool,
    pub bg: Option<Color>,
    pub text_color: Color,
    pub text_align: TextAlign,
    pub align_main: Align,
    pub align_cross: Align,
    /// Corner radii: `top` is top-left, `right` top-right, `bottom` bottom-right,
    /// `left` bottom-left.
    pub radius: Edges<N>,
    pub font_size: N,
    pub font_weight: u16,
    /// `None`: derived from `font_size`.
    pub line_height: Option<N>,
    pub letter_spacing: N,
    /// Gap between children along the main axis (flow) or both grid axes unless
    /// `gap_x`/`gap_y` narrow it to one.
    pub gap: N,
    pub gap_x: Option<N>,
    pub gap_y: Option<N>,
    pub border_width: Edges<N>,
    pub border_color: Option<Color>,
    pub opacity: N,
    /// Paint order among *sibling* nodes only: higher paints later, ties keep
    /// source order.
    pub z_index: i32,
    pub transform: Transform2D<N>,
    pub transition: Option<Transition<N>>,
    pub grid_column_span: u32,
    pub grid_row_span: u32,
    /// Whether a text field wraps and scrolls vertically.
    pub multiline: bool,
    /// Whether a time picker shows seconds.
    pub with_seconds: bool,
    pub grid_template_columns: Vec<GridTrack<N>>,
    pub grid_template_rows: Vec<GridTrack<N>>,
    /// The icon in front of a tree row's label; empty for none.
    pub tree_icon: String,
}

/// Style overlays by interaction state and by window width. Each is a complete
/// style: the base with that variant's own classes applied on top.
pub struct StyleVariants<N> {
    pub hover: Option<Style<N>>,
    pub focus: Option<Style<N>>,
    pub active: Option<Style<N>>,
    /// `(min_width_px, cumulatively-resolved style)`, ascending by min-width.
    pub responsive: Vec<(u32, Style<N>)>,
}

/// There are no variants.
pub open spec fn no_variants<N>(v: StyleVariants<N>) -> bool {
    v.hover is None && v.focus is None && v.active is None && v.responsive@.len() == 0
}

impl<N: Num> Default for StyleVariants<N> {
    /// No variants.
    fn default() -> (r: Self)
        ensures
            no_variants(r),
    {
        StyleVariants { hover: None, focus: None, active: None, responsive: Vec::new() }
    }
}

// ---- equality of values ----

pub open spec fn opt_eq<N: Num>(a: Option<N>, b: Option<N>) -> bool {
    match (a, b) {
        (Some(x), Some(y)) => N::eq_of(x, y),
        (None, None) => true,
        _ => false,
    }
}

pub open spec fn num_eq<N: Num>(a: N, b: N) -> bool {
    N::eq_of(a, b)
}

pub open spec fn sizing_eq<N: Num>(a: Sizing<N>, b: Sizing<N>) -> bool {
    match (a, b) {
        (Sizing::Fixed(x), Sizing::Fixed(y)) => N::eq_of(x, y),
        (Sizing::Percent(x), Sizing::Percent(y)) => N::eq_of(x, y),
        (Sizing::Fill(x), Sizing::Fill(y)) => N::eq_of(x, y),
        (Sizing::Hug, Sizing::Hug) => true,
        _ => false,
    }
}

pub open spec fn edges_eq<N: Num>(a: Edges<N>, b: Edges<N>) -> bool {
    N::eq_of(a.top, b.top) && N::eq_of(a.right, b.right) && N::eq_of(a.bottom, b.bottom)
        && N::eq_of(a.left, b.left)
}

pub open spec fn transition_eq<N: Num>(a: Option<Transition<N>>, b: Option<Transition<N>>) -> bool {
    match (a, b) {
        (Some(x), Some(y)) => N::eq_of(x.duration_ms, y.duration_ms) && N::eq_of(
            x.delay_ms,
            y.delay_ms,
        ) && x.easing == y.easing,
        (None, None) => true,
        _ => false,
    }
}

pub open spec fn track_eq<N: Num>(a: GridTrack<N>, b: GridTrack<N>) -> bool {
    match (a, b) {
        (GridTrack::Fr(x), GridTrack::Fr(y)) => N::eq_of(x, y),
        (GridTrack::Fixed(x), GridTrack::Fixed(y)) => N::eq_of(x, y),
        (GridTrack::Auto, GridTrack::Auto) => true,
        _ => false,
    }
}

pub open spec fn tracks_eq<N: Num>(a: Seq<GridTrack<N>>, b: Seq<GridTrack<N>>) -> bool {
    a.len() == b.len() && forall|i: int| 0 <= i < a.len() ==> track_eq(#[trigger] a[i], b[i])
}

fn opt_same<N: Num>(a: Option<N>, b: Option<N>) -> (r: bool)
    ensures
        r == opt_eq(a, b),
{
    match (a, b) {
        (Some(x), Some(y)) => x.same(y),
        (None, None) => true,
        _ => false,
    }
}

fn sizing_same<N: Num>(a: Sizing<N>, b: Sizing<N>) -> (r: bool)
    ensures
        r == sizing_eq(a, b),
{
    match (a, b) {
        (Sizing::Fixed(x), Sizing::Fixed(y)) => x.same(y),
        (Sizing::Percent(x), Sizing::Percent(y)) => x.same(y),
        (Sizing::Fill(x), Sizing::Fill(y)) => x.same(y),
        (Sizing::Hug, Sizing::Hug) => true,
        _ => false,
    }
}

fn edges_same<N: Num>(a: Edges<N>, b: Edges<N>) -> (r: bool)
    ensures
        r == edges_eq(a, b),
{
    a.top.same(b.top) && a.right.same(b.right) && a.bottom.same(b.bottom) && a.left.same(b.left)
}

fn transition_same<N: Num>(a: Option<Transition<N>>, b: Option<Transition<N>>) -> (r: bool)
    ensures
        r == transition_eq(a, b),
{
    match (a, b) {
        (Some(x), Some(y)) => x.duration_ms.same(y.duration_ms) && x.delay_ms.same(y.delay_ms)
            && x.easing == y.easing,
        (None, None) => true,
        _ => false,
    }
}

fn tracks_same<N: Num>(a: &Vec<GridTrack<N>>, b: &Vec<GridTrack<N>>) -> (r: bool)
    ensures
        r == tracks_eq(a@, b@),
{
    if a.len() != b.len() {
        return false;
    }
    let mut i: usize = 0;
    while i < a.len()
        invariant
            0 <= i <= a@.len(),
            a@.len() == b@.len(),
            forall|k: int| 0 <= k < i ==> track_eq(#[trigger] a@[k], b@[k]),
        decreases a@.len() - i,
    {
        let same: bool = match (a[i], b[i]) {
            (GridTrack::Fr(x), GridTrack::Fr(y)) => x.same(y),
            (GridTrack::Fixed(x), GridTrack::Fixed(y)) => x.same(y),
            (GridTrack::Auto, GridTrack::Auto) => true,
            _ => false,
        };
        if !same {
            assert(!track_eq(a@[i as int], b@[i as int]));
            return false;
        }
        i = i + 1;
    }
    true
}

/// A copy of a list of tracks.
pub fn copy_tracks<N: Num>(a: &Vec<GridTrack<N>>) -> (r: Vec<GridTrack<N>>)
    ensures
        r@ == a@,
{
    let mut out: Vec<GridTrack<N>> = Vec::new();
    let mut i: usize = 0;
    while i < a.len()
        invariant
            0 <= i <= a@.len(),
            out@ =~= a@.take(i as int),
        decreases a@.len() - i,
    {
        out.push(a[i]);
        i = i + 1;
    }
    assert(out@ =~= a@);
    out
}

// ---- whole styles ----

/// `a` and `b` have the same values in every field.
pub open spec fn same_style<N: Num>(a: Style<N>, b: Style<N>) -> bool {
    &&& a.direction == b.direction
    &&& a.display == b.display
    &&& a.position == b.position
    &&& a.left == b.left
    &&& a.right == b.right
    &&& a.top == b.top
    &&& a.bottom == b.bottom
    &&& a.width == b.width
    &&& a.height == b.height
    &&& a.padding == b.padding
    &&& a.margin == b.margin
    &&& a.scroll_x == b.scroll_x
    &&& a.scroll_y == b.scroll_y
    &&& a.bg == b.bg
    &&& a.text_color == b.text_color
    &&& a.text_align == b.text_align
    &&& a.align_main == b.align_main
    &&& a.align_cross == b.align_cross
    &&& a.radius == b.radius
    &&& a.font_size == b.font_size
    &&& a.font_weight == b.font_weight
    &&& a.line_height == b.line_height
    &&& a.letter_spacing == b.letter_spacing
    &&& a.gap == b.gap
    &&& a.gap_x == b.gap_x
    &&& a.gap_y == b.gap_y
    &&& a.border_width == b.border_width
    &&& a.border_color == b.border_color
    &&& a.opacity == b.opacity
    &&& a.z_index == b.z_index
    &&& a.transform == b.transform
    &&& a.transition == b.transition
    &&& a.grid_column_span == b.grid_column_span
    &&& a.grid_row_span == b.grid_row_span
    &&& a.multiline == b.multiline
    &&& a.with_seconds == b.with_seconds
    &&& a.grid_template_columns@ == b.grid_template_columns@
    &&& a.grid_template_rows@ == b.grid_template_rows@
    &&& a.tree_icon@ == b.tree_icon@
}

/// The style of a node without classes.
pub open spec fn is_default_style<N: Num>(s: Style<N>) -> bool {
    &&& s.direction == Direction::Column
    &&& s.display == Display::Flow
    &&& s.position == Position::Static
    &&& s.left is None
    &&& s.right is None
    &&& s.top is None
    &&& s.bottom is None
    &&& s.width is Hug
    &&& s.height is Hug
    &&& s.padding == edges_all::<N>(whole(0))
    &&& s.margin == edges_all::<N>(whole(0))
    &&& s.scroll_x == false
    &&& s.scroll_y == false
    &&& s.bg is None
    &&& s.text_color == (Color { r: 0, g: 0, b: 0, a: 255 })
    &&& s.text_align == TextAlign::Left
    &&& s.align_main == Align::Start
    &&& s.align_cross == Align::Start
    &&& s.radius == edges_all::<N>(whole(0))
    &&& s.font_size == whole::<N>(16)
    &&& s.font_weight == 400
    &&& s.line_height is None
    &&& s.letter_spacing == whole::<N>(0)
    &&& s.gap == whole::<N>(0)
    &&& s.gap_x is None
    &&& s.gap_y is None
    &&& s.border_width == edges_all::<N>(whole(0))
    &&& s.border_color is None
    &&& s.opacity == whole::<N>(1)
    &&& s.z_index == 0
    &&& s.transform == identity_transform::<N>()
    &&& s.transition is None
    &&& s.grid_column_span == 1
    &&& s.grid_row_span == 1
    &&& s.multiline == false
    &&& s.with_seconds == false
    &&& s.grid_template_columns@.len() == 0
    &&& s.grid_template_rows@.len() == 0
    &&& s.tree_icon@.len() == 0
}

impl<N: Num> Default for Style<N> {
    /// The style of a node without classes.
    fn default() -> (r: Self)
        ensures
            is_default_style(r),
    {
        Style {
            direction: Direction::Column,
            display: Display::Flow,
            position: Position::Static,
            left: None,
            right: None,
            top: None,
            bottom: None,
            width: Sizing::Hug,
            height: Sizing::Hug,
            padding: Edges::all(N::ratio(0, 1)),
            margin: Edges::all(N::ratio(0, 1)),
            scroll_x: false,
            scroll_y: false,
            bg: None,
            text_color: Color::black(),
            text_align: TextAlign::Left,
            align_main: Align::Start,
            align_cross: Align::Start,
            radius: Edges::all(N::ratio(0, 1)),
            font_size: N::ratio(16, 1),
            font_weight: 400,
            line_height: None,
            letter_spacing: N::ratio(0, 1),
            gap: N::ratio(0, 1),
            gap_x: None,
            gap_y: None,
            border_width: Edges::all(N::ratio(0, 1)),
            border_color: None,
            opacity: N::ratio(1, 1),
            z_index: 0,
            transform: Transform2D::identity(),
            transition: None,
            grid_column_span: 1,
            grid_row_span: 1,
            multiline: false,
            with_seconds: false,
            grid_template_columns: Vec::new(),
            grid_template_rows: Vec::new(),
            tree_icon: String::new(),
        }
    }
}

impl<N: Num> Style<N> {
    /// A style with the same values.
    pub fn copy_style(&self) -> (r: Self)
        ensures
            same_style(r, *self),
    {
        Style {
            direction: self.direction,
            display: self.display,
            position: self.position,
            left: self.left,
            right: self.right,
            top: self.top,
            bottom: self.bottom,
            width: self.width,
            height: self.height,
            padding: self.padding,
            margin: self.margin,
            scroll_x: self.scroll_x,
            scroll_y: self.scroll_y,
            bg: self.bg,
            text_color: self.text_color,
            text_align: self.text_align,
            align_main: self.align_main,
            align_cross: self.align_cross,
            radius: self.radius,
            font_size: self.font_size,
            font_weight: self.font_weight,
            line_height: self.line_height,
            letter_spacing: self.letter_spacing,
            gap: self.gap,
            gap_x: self.gap_x,
            gap_y: self.gap_y,
            border_width: self.border_width,
            border_color: self.border_color,
            opacity: self.opacity,
            z_index: self.z_index,
            transform: self.transform,
            transition: self.transition,
            grid_column_span: self.grid_column_span,
            grid_row_span: self.grid_row_span,
            multiline: self.multiline,
            with_seconds: self.with_seconds,
            grid_template_columns: copy_tracks(&self.grid_template_columns),
            grid_template_rows: copy_tracks(&self.grid_template_rows),
            tree_icon: self.tree_icon.clone(),
        }
    }
}

// ---- variants ----

/// `after` is `working` with those fields of `variant` that differ from
/// `unvaried`, the base that the variant was itself resolved against.
pub open spec fn overlaid<N: Num>(
    working: Style<N>,
    unvaried: Style<N>,
    variant: Style<N>,
    after: Style<N>,
) -> bool {
    &&& after.direction == (if variant.direction == unvaried.direction {
        working.direction
    } else {
        variant.direction
    })
    &&& after.display == (if variant.display == unvaried.display {
        working.display
    } else {
        variant.display
    })
    &&& after.position == (if variant.position == unvaried.position {
        working.position
    } else {
        variant.position
    })
    &&& after.left == (if opt_eq(variant.left, unvaried.left) {
        working.left
    } else {
        variant.left
    })
    &&& after.right == (if opt_eq(variant.right, unvaried.right) {
        working.right
    } else {
        variant.right
    })
    &&& after.top == (if opt_eq(variant.top, unvaried.top) {
        working.top
    } else {
        variant.top
    })
    &&& after.bottom == (if opt_eq(variant.bottom, unvaried.bottom) {
        working.bottom
    } else {
        variant.bottom
    })
    &&& after.width == (if sizing_eq(variant.width, unvaried.width) {
        working.width
    } else {
        variant.width
    })
    &&& after.height == (if sizing_eq(variant.height, unvaried.height) {
        working.height
    } else {
        variant.height
    })
    &&& after.padding == (if edges_eq(variant.padding, unvaried.padding) {
        working.padding
    } else {
        variant.padding
    })
    &&& after.margin == (if edges_eq(variant.margin, unvaried.margin) {
        working.margin
    } else {
        variant.margin
    })
    &&& after.scroll_x == (if variant.scroll_x == unvaried.scroll_x {
        working.scroll_x
    } else {
        variant.scroll_x
    })
    &&& after.scroll_y == (if variant.scroll_y == unvaried.scroll_y {
        working.scroll_y
    } else {
        variant.scroll_y
    })
    &&& after.bg == (if variant.bg == unvaried.bg {
        working.bg
    } else {
        variant.bg
    })
    &&& after.text_color == (if variant.text_color == unvaried.text_color {
        working.text_color
    } else {
        variant.text_color
    })
    &&& after.text_align == (if variant.text_align == unvaried.text_align {
        working.text_align
    } else {
        variant.text_align
    })
    &&& after.align_main == (if variant.align_main == unvaried.align_main {
        working.align_main
    } else {
        variant.align_main
    })
    &&& after.align_cross == (if variant.align_cross == unvaried.align_cross {
        working.align_cross
    } else {
        variant.align_cross
    })
    &&& after.radius == (if edges_eq(variant.radius, unvaried.radius) {
        working.radius
    } else {
        variant.radius
    })
    &&& after.font_size == (if num_eq(variant.font_size, unvaried.font_size) {
        working.font_size
    } else {
        variant.font_size
    })
    &&& after.font_weight == (if variant.font_weight == unvaried.font_weight {
        working.font_weight
    } else {
        variant.font_weight
    })
    &&& after.line_height == (if opt_eq(variant.line_height, unvaried.line_height) {
        working.line_height
    } else {
        variant.line_height
    })
    &&& after.letter_spacing == (if num_eq(variant.letter_spacing, unvaried.letter_spacing) {
        working.letter_spacing
    } else {
        variant.letter_spacing
    })
    &&& after.gap == (if num_eq(variant.gap, unvaried.gap) {
        working.gap
    } else {
        variant.gap
    })
    &&& after.gap_x == (if opt_eq(variant.gap_x, unvaried.gap_x) {
        working.gap_x
    } else {
        variant.gap_x
    })
    &&& after.gap_y == (if opt_eq(variant.gap_y, unvaried.gap_y) {
        working.gap_y
    } else {
        variant.gap_y
    })
    &&& after.border_width == (if edges_eq(variant.border_width, unvaried.border_width) {
        working.border_width
    } else {
        variant.border_width
    })
    &&& after.border_color == (if variant.border_color == unvaried.border_color {
        working.border_color
    } else {
        variant.border_color
    })
    &&& after.opacity == (if num_eq(variant.opacity, unvaried.opacity) {
        working.opacity
    } else {
        variant.opacity
    })
    &&& after.z_index == (if variant.z_index == unvaried.z_index {
        working.z_index
    } else {
        variant.z_index
    })
    &&& after.transform == (if transform_eq(variant.transform, unvaried.transform) {
        working.transform
    } else {
        variant.transform
    })
    &&& after.transition == (if transition_eq(variant.transition, unvaried.transition) {
        working.transition
    } else {
        variant.transition
    })
    &&& after.grid_column_span == (if variant.grid_column_span == unvaried.grid_column_span {
        working.grid_column_span
    } else {
        variant.grid_column_span
    })
    &&& after.grid_row_span == (if variant.grid_row_span == unvaried.grid_row_span {
        working.grid_row_span
    } else {
        variant.grid_row_span
    })
    &&& after.multiline == (if variant.multiline == unvaried.multiline {
        working.multiline
    } else {
        variant.multiline
    })
    &&& after.with_seconds == (if variant.with_seconds == unvaried.with_seconds {
        working.with_seconds
    } else {
        variant.with_seconds
    })
    &&& after.grid_template_columns@ == (if tracks_eq(
        variant.grid_template_columns@,
        unvaried.grid_template_columns@,
    ) {
        working.grid_template_columns@
    } else {
        variant.grid_template_columns@
    })
    &&& after.grid_template_rows@ == (if tracks_eq(
        variant.grid_template_rows@,
        unvaried.grid_template_rows@,
    ) {
        working.grid_template_rows@
    } else {
        variant.grid_template_rows@
    })
    &&& after.tree_icon@ == (if variant.tree_icon@ == unvaried.tree_icon@ {
        working.tree_icon@
    } else {
        variant.tree_icon@
    })
}

fn color_same(a: Option<Color>, b: Option<Color>) -> (r: bool)
    ensures
        r == (a == b),
{
    match (a, b) {
        (Some(x), Some(y)) => x == y,
        (None, None) => true,
        _ => false,
    }
}

/// `working` if the variant is the `same` as its base, else `variant`.
fn pick<T: Copy>(same: bool, working: T, variant: T) -> (r: T)
    ensures
        r == (if same {
            working
        } else {
            variant
        }),
{
    if same {
        working
    } else {
        variant
    }
}

fn pick_tracks<N: Num>(
    working: &Vec<GridTrack<N>>,
    unvaried: &Vec<GridTrack<N>>,
    variant: &Vec<GridTrack<N>>,
) -> (r: Vec<GridTrack<N>>)
    ensures
        r@ == (if tracks_eq(variant@, unvaried@) {
            working@
        } else {
            variant@
        }),
{
    if tracks_same(variant, unvaried) {
        copy_tracks(working)
    } else {
        copy_tracks(variant)
    }
}

fn pick_text(working: &String, unvaried: &String, variant: &String) -> (r: String)
    ensures
        r@ == (if variant@ == unvaried@ {
            working@
        } else {
            variant@
        }),
{
    if str_eq(variant.as_str(), unvaried.as_str()) {
        working.clone()
    } else {
        variant.clone()
    }
}

/// Copies onto `working` every field where `variant` differs from `unvaried`:
/// only what the variant's own classes changed.
pub fn overlay_touched_fields<N: Num>(
    working: &mut Style<N>,
    unvaried: &Style<N>,
    variant: &Style<N>,
)
    ensures
        overlaid(*old(working), *unvaried, *variant, *final(working)),
{
    let after: Style<N> = Style {
        direction: pick(variant.direction == unvaried.direction, working.direction, variant.direction),
        display: pick(variant.display == unvaried.display, working.display, variant.display),
        position: pick(variant.position == unvaried.position, working.position, variant.position),
        left: pick(opt_same(variant.left, unvaried.left), working.left, variant.left),
        right: pick(opt_same(variant.right, unvaried.right), working.right, variant.right),
        top: pick(opt_same(variant.top, unvaried.top), working.top, variant.top),
        bottom: pick(opt_same(variant.bottom, unvaried.bottom), working.bottom, variant.bottom),
        width: pick(sizing_same(variant.width, unvaried.width), working.width, variant.width),
        height: pick(sizing_same(variant.height, unvaried.height), working.height, variant.height),
        padding: pick(edges_same(variant.padding, unvaried.padding), working.padding, variant.padding),
        margin: pick(edges_same(variant.margin, unvaried.margin), working.margin, variant.margin),
        scroll_x: pick(variant.scroll_x == unvaried.scroll_x, working.scroll_x, variant.scroll_x),
        scroll_y: pick(variant.scroll_y == unvaried.scroll_y, working.scroll_y, variant.scroll_y),
        bg: pick(color_same(variant.bg, unvaried.bg), working.bg, variant.bg),
        text_color: pick(variant.text_color == unvaried.text_color, working.text_color, variant.text_color),
        text_align: pick(variant.text_align == unvaried.text_align, working.text_align, variant.text_align),
        align_main: pick(variant.align_main == unvaried.align_main, working.align_main, variant.align_main),
        align_cross: pick(variant.align_cross == unvaried.align_cross, working.align_cross, variant.align_cross),
        radius: pick(edges_same(variant.radius, unvaried.radius), working.radius, variant.radius),
        font_size: pick(variant.font_size.same(unvaried.font_size), working.font_size, variant.font_size),
        font_weight: pick(variant.font_weight == unvaried.font_weight, working.font_weight, variant.font_weight),
        line_height: pick(opt_same(variant.line_height, unvaried.line_height), working.line_height, variant.line_height),
        letter_spacing: pick(variant.letter_spacing.same(unvaried.letter_spacing), working.letter_spacing, variant.letter_spacing),
        gap: pick(variant.gap.same(unvaried.gap), working.gap, variant.gap),
        gap_x: pick(opt_same(variant.gap_x, unvaried.gap_x), working.gap_x, variant.gap_x),
        gap_y: pick(opt_same(variant.gap_y, unvaried.gap_y), working.gap_y, variant.gap_y),
        border_width: pick(edges_same(variant.border_width, unvaried.border_width), working.border_width, variant.border_width),
        border_color: pick(color_same(variant.border_color, unvaried.border_color), working.border_color, variant.border_color),
        opacity: pick(variant.opacity.same(unvaried.opacity), working.opacity, variant.opacity),
        z_index: pick(variant.z_index == unvaried.z_index, working.z_index, variant.z_index),
        transform: pick(transform_same(&variant.transform, &unvaried.transform), working.transform, variant.transform),
        transition: pick(transition_same(variant.transition, unvaried.transition), working.transition, variant.transition),
        grid_column_span: pick(variant.grid_column_span == unvaried.grid_column_span, working.grid_column_span, variant.grid_column_span),
        grid_row_span: pick(variant.grid_row_span == unvaried.grid_row_span, working.grid_row_span, variant.grid_row_span),
        multiline: pick(variant.multiline == unvaried.multiline, working.multiline, variant.multiline),
        with_seconds: pick(variant.with_seconds == unvaried.with_seconds, working.with_seconds, variant.with_seconds),
        grid_template_columns: pick_tracks(
            &working.grid_template_columns,
            &unvaried.grid_template_columns,
            &variant.grid_template_columns,
        ),
        grid_template_rows: pick_tracks(
            &working.grid_template_rows,
            &unvaried.grid_template_rows,
            &variant.grid_template_rows,
        ),
        tree_icon: pick_text(&working.tree_icon, &unvaried.tree_icon, &variant.tree_icon),
    };
    *working = after;
}

/// The last of the first `n` responsive styles whose min-width the window has.
pub open spec fn responsive_pick<N>(
    responsive: Seq<(u32, Style<N>)>,
    viewport_w: int,
    n: nat,
) -> Option<int>
    decreases n,
{
    if n == 0 {
        None
    } else if viewport_w >= responsive[n - 1].0 {
        Some(n - 1)
    } else {
        responsive_pick(responsive, viewport_w, (n - 1) as nat)
    }
}

/// The style that the window's width calls for.
pub open spec fn width_style<N>(
    base: Style<N>,
    variants: StyleVariants<N>,
    viewport_w: int,
) -> Style<N> {
    match responsive_pick(variants.responsive@, viewport_w, variants.responsive@.len()) {
        Some(k) => variants.responsive@[k].1,
        None => base,
    }
}

/// The overlay that the interaction state calls for: a pressed node is not also
/// focused or hovered, a focused one not also hovered.
pub open spec fn state_style<N>(
    variants: StyleVariants<N>,
    hovered: bool,
    focused: bool,
    pressed: bool,
) -> Option<Style<N>> {
    if pressed {
        variants.active
    } else if focused {
        variants.focus
    } else if hovered {
        variants.hover
    } else {
        None
    }
}

/// `r` is the effective style of a node.
pub open spec fn effective<N: Num>(
    base: Style<N>,
    variants: StyleVariants<N>,
    viewport_w: int,
    hovered: bool,
    focused: bool,
    pressed: bool,
    r: Style<N>,
) -> bool {
    match state_style(variants, hovered, focused, pressed) {
        Some(v) => overlaid(width_style(base, variants, viewport_w), base, v, r),
        None => same_style(r, width_style(base, variants, viewport_w)),
    }
}

/// This frame's effective style, before transitions, from a node's base style,
/// its variants, the window's width in whole pixels, and its interaction state.
pub fn compute_effective<N: Num>(
    base: &Style<N>,
    variants: &StyleVariants<N>,
    viewport_w: i64,
    hovered: bool,
    focused: bool,
    pressed: bool,
) -> (r: Style<N>)
    ensures
        match state_style(*variants, hovered, focused, pressed) {
            Some(v) => overlaid(width_style(*base, *variants, viewport_w as int), *base, v, r),
            None => same_style(r, width_style(*base, *variants, viewport_w as int)),
        },
        effective(*base, *variants, viewport_w as int, hovered, focused, pressed, r),
{
    let n: usize = variants.responsive.len();
    let mut k: usize = n;
    while k > 0 && viewport_w < variants.responsive[k - 1].0 as i64
        invariant
            0 <= k <= n,
            n == variants.responsive@.len(),
            responsive_pick(variants.responsive@, viewport_w as int, k as nat) == responsive_pick(
                variants.responsive@,
                viewport_w as int,
                n as nat,
            ),
        decreases k,
    {
        k = k - 1;
    }
    let picked: &Style<N> = if k > 0 {
        &variants.responsive[k - 1].1
    } else {
        base
    };
    let overlay: &Option<Style<N>> = if pressed {
        &variants.active
    } else if focused {
        &variants.focus
    } else if hovered {
        &variants.hover
    } else {
        return picked.copy_style();
    };
    with_overlay(picked, base, overlay)
}

/// A copy of `picked`, with `overlay` laid over it.
fn with_overlay<N: Num>(picked: &Style<N>, base: &Style<N>, overlay: &Option<Style<N>>) -> (r: Style<
    N,
>)
    ensures
        match overlay {
            Some(v) => overlaid(*picked, *base, *v, r),
            None => same_style(r, *picked),
        },
{
    let mut working: Style<N> = picked.copy_style();
    if let Some(v) = overlay {
        let ghost copied = working;
        overlay_touched_fields(&mut working, base, v);
        proof {
            lemma_overlaid_on_copy(copied, *picked, *base, *v, working);
        }
    }
    working
}

/// What is laid over a copy is laid over the original.
proof fn lemma_overlaid_on_copy<N: Num>(
    copied: Style<N>,
    working: Style<N>,
    unvaried: Style<N>,
    variant: Style<N>,
    after: Style<N>,
)
    requires
        same_style(copied, working),
        overlaid(copied, unvaried, variant, after),
    ensures
        overlaid(working, unvaried, variant, after),
{
}

// ---- transitions ----

/// The part of a style that moves smoothly; everything else changes at once.
#[derive(Debug, Clone, Copy)]
pub struct AnimatableStyle<N> {
    pub bg: Option<Color>,
    pub text_color: Color,
    pub border_color: Option<Color>,
    pub radius: Edges<N>,
    pub opacity: N,
    pub transform: Transform2D<N>,
}

pub open spec fn byte_mix<N: Num>(a: u8, b: u8, t: N) -> u8 {
    N::byte_of(
        N::add_of(
            N::count_of(a as nat),
            N::mul_of(N::sub_of(N::count_of(b as nat), N::count_of(a as nat)), t),
        ),
    )
}

pub open spec fn color_mix<N: Num>(a: Color, b: Color, t: N) -> Color {
    Color {
        r: byte_mix(a.r, b.r, t),
        g: byte_mix(a.g, b.g, t),
        b: byte_mix(a.b, b.b, t),
        a: byte_mix(a.a, b.a, t),
    }
}

/// A color on the way to another; where one is missing, the change comes at the
/// end.
pub open spec fn opt_color_mix<N: Num>(a: Option<Color>, b: Option<Color>, t: N) -> Option<Color> {
    match (a, b) {
        (Some(a), Some(b)) => Some(color_mix(a, b, t)),
        _ => if N::le_of(whole(1), t) {
            b
        } else {
            a
        },
    }
}

pub open spec fn edges_mix<N: Num>(a: Edges<N>, b: Edges<N>, t: N) -> Edges<N> {
    Edges {
        top: mix_of(a.top, b.top, t),
        right: mix_of(a.right, b.right, t),
        bottom: mix_of(a.bottom, b.bottom, t),
        left: mix_of(a.left, b.left, t),
    }
}

fn mix_byte<N: Num>(a: u8, b: u8, t: N) -> (r: u8)
    ensures
        r == byte_mix(a, b, t),
{
    let x: N = N::count(a as usize);
    x.plus(N::count(b as usize).minus(x).times(t)).to_byte()
}

fn mix_color<N: Num>(a: Color, b: Color, t: N) -> (r: Color)
    ensures
        r == color_mix(a, b, t),
{
    Color {
        r: mix_byte(a.r, b.r, t),
        g: mix_byte(a.g, b.g, t),
        b: mix_byte(a.b, b.b, t),
        a: mix_byte(a.a, b.a, t),
    }
}

fn mix_opt_color<N: Num>(a: Option<Color>, b: Option<Color>, t: N) -> (r: Option<Color>)
    ensures
        r == opt_color_mix(a, b, t),
{
    match (a, b) {
        (Some(a), Some(b)) => Some(mix_color(a, b, t)),
        _ => if N::ratio(1, 1).at_most(t) {
            b
        } else {
            a
        },
    }
}

fn mix_edges<N: Num>(a: Edges<N>, b: Edges<N>, t: N) -> (r: Edges<N>)
    ensures
        r == edges_mix(a, b, t),
{
    Edges {
        top: mix(a.top, b.top, t),
        right: mix(a.right, b.right, t),
        bottom: mix(a.bottom, b.bottom, t),
        left: mix(a.left, b.left, t),
    }
}

/// The animatable part of a style.
pub open spec fn animatable<N>(s: Style<N>) -> AnimatableStyle<N> {
    AnimatableStyle {
        bg: s.bg,
        text_color: s.text_color,
        border_color: s.border_color,
        radius: s.radius,
        opacity: s.opacity,
        transform: s.transform,
    }
}

impl<N: Num> AnimatableStyle<N> {
    pub fn from_style(s: &Style<N>) -> (r: Self)
        ensures
            r == animatable(*s),
    {
        AnimatableStyle {
            bg: s.bg,
            text_color: s.text_color,
            border_color: s.border_color,
            radius: s.radius,
            opacity: s.opacity,
            transform: s.transform,
        }
    }

    /// Puts these values into `s`, whose other values stay.
    pub fn write_into(self, s: &mut Style<N>)
        ensures
            *final(s) == (Style {
                bg: self.bg,
                text_color: self.text_color,
                border_color: self.border_color,
                radius: self.radius,
                opacity: self.opacity,
                transform: self.transform,
                ..*old(s)
            }),
    {
        s.bg = self.bg;
        s.text_color = self.text_color;
        s.border_color = self.border_color;
        s.radius = self.radius;
        s.opacity = self.opacity;
        s.transform = self.transform;
    }

    /// The values `t` of the way from `a` to `b`.
    pub fn lerp(a: AnimatableStyle<N>, b: AnimatableStyle<N>, t: N) -> (r: AnimatableStyle<N>)
        ensures
            r == (AnimatableStyle {
                bg: opt_color_mix(a.bg, b.bg, t),
                text_color: color_mix(a.text_color, b.text_color, t),
                border_color: opt_color_mix(a.border_color, b.border_color, t),
                radius: edges_mix(a.radius, b.radius, t),
                opacity: mix_of(a.opacity, b.opacity, t),
                transform: transform_mix(a.transform, b.transform, t),
            }),
    {
        AnimatableStyle {
            bg: mix_opt_color(a.bg, b.bg, t),
            text_color: mix_color(a.text_color, b.text_color, t),
            border_color: mix_opt_color(a.border_color, b.border_color, t),
            radius: mix_edges(a.radius, b.radius, t),
            opacity: mix(a.opacity, b.opacity, t),
            transform: Transform2D::lerp(a.transform, b.transform, t),
        }
    }
}

/// Writing a style's own animatable part back leaves it as it is.
pub proof fn law_write_back_is_neutral<N: Num>(s: Style<N>)
    ensures
        s == (Style {
            bg: animatable(s).bg,
            text_color: animatable(s).text_color,
            border_color: animatable(s).border_color,
            radius: animatable(s).radius,
            opacity: animatable(s).opacity,
            transform: animatable(s).transform,
            ..s
        }),
{
}

/// A variant that changes nothing leaves the working style as it is, whatever
/// the window's width put there.
pub proof fn law_unchanged_variant_is_neutral<N: Num>(
    working: Style<N>,
    base: Style<N>,
    after: Style<N>,
)
    requires
        overlaid(working, base, base, after),
        forall|x: N| N::eq_of(x, x),
    ensures
        same_style(after, working),
{
    assert(tracks_eq(base.grid_template_columns@, base.grid_template_columns@));
    assert(tracks_eq(base.grid_template_rows@, base.grid_template_rows@));
}

// ---- metrics ----

/// Box height and option-row height of a dropdown.
pub open spec fn dropdown_sizes<N: Num>(font_size: N) -> (N, N) {
    (
        N::add_of(N::mul_of(font_size, N::ratio_of(13, 10)), whole(16)),
        N::add_of(N::mul_of(font_size, N::ratio_of(13, 10)), whole(12)),
    )
}

/// Shared box-height and option-row-height formula of a dropdown.
pub fn dropdown_metrics<N: Num>(font_size: N) -> (r: (N, N))
    ensures
        r == dropdown_sizes(font_size),
{
    (
        font_size.times(N::ratio(13, 10)).plus(N::ratio(16, 1)),
        font_size.times(N::ratio(13, 10)).plus(N::ratio(12, 1)),
    )
}

} // verus!
