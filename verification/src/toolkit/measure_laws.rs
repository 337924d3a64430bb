//! What holds of the sizes that nodes ask for.

use vstd::prelude::*;
use crate::toolkit::arena::{Node, NodeId, NodeKind};
use crate::toolkit::flow_laws::{gap_total, lemma_total_same, total};
use crate::toolkit::geometry::{no_size, Size};
use crate::toolkit::measure::{
    column_gap, column_width, columns_sum, content_of, flow_fold, flow_sizes, flow_sizes_upto, grid_size,
    less_one, line_of, own_size, picture_size, row_gap, row_height, rows_needed, rows_sum, sizes_agree,
    stack_fold, tracks_or_auto, Metrics,
};
use crate::toolkit::num::{exact, lemma_whole, whole, Num};
use crate::toolkit::style::{Direction, Display, GridTrack, Position, Sizing, Style};

verus! {

/// The larger of two numbers.
pub open spec fn larger(a: real, b: real) -> real {
    if a < b {
        b
    } else {
        a
    }
}

/// `m` is the largest of `f(0)` up to `f(n - 1)`, and nothing less than zero.
pub open spec fn is_largest(f: spec_fn(int) -> real, n: nat, m: real) -> bool {
    &&& m >= 0 as real
    &&& forall|k: int| 0 <= k < n ==> #[trigger] f(k) <= m
    &&& m == 0 as real || exists|k: int| 0 <= k < n && #[trigger] f(k) == m
}

/// The widths and the heights of children.
pub open spec fn widths<N>(val: spec_fn(N) -> real, kids: Seq<Size<N>>) -> spec_fn(int) -> real {
    |k: int| val(kids[k].w)
}

pub open spec fn heights<N>(val: spec_fn(N) -> real, kids: Seq<Size<N>>) -> spec_fn(int) -> real {
    |k: int| val(kids[k].h)
}

/// A node is as large as its content with its padding and its border; what its style fixes
/// overrides that, on each axis by itself.
pub proof fn law_box_wraps_its_content<N: Num, M: Metrics<N>>(
    val: spec_fn(N) -> real,
    nodes: Seq<Node<N>>,
    sizes: Seq<Size<N>>,
    m: M,
    i: int,
)
    requires
        exact(val),
        sizes_agree(nodes, sizes, m),
        0 <= i < nodes.len(),
    ensures
        ({
            let style = nodes[i].style;
            let content = content_of(nodes[i].kind, style, flow_sizes(nodes, sizes, i), m);
            let (b, p) = (style.border_width, style.padding);
            &&& match style.width {
                Sizing::Fixed(v) => sizes[i].w == v,
                _ => val(sizes[i].w) == val(content.w) + val(p.left) + val(p.right) + val(b.left)
                    + val(b.right),
            }
            &&& match style.height {
                Sizing::Fixed(v) => sizes[i].h == v,
                _ => val(sizes[i].h) == val(content.h) + val(p.top) + val(p.bottom) + val(b.top)
                    + val(b.bottom),
            }
        }),
{
}

/// The children that count in a node's size are those without an absolute position, in
/// their order.
pub proof fn law_children_in_flow_count<N>(nodes: Seq<Node<N>>, sizes: Seq<Size<N>>, i: int)
    ensures
        flow_sizes(nodes, sizes, i) == nodes[i].children@.filter(
            |c: NodeId| nodes[c.0 as int].style.position != Position::Absolute,
        ).map_values(|c: NodeId| sizes[c.0 as int]),
{
    let all = nodes[i].children@;
    lemma_sizes_are_filtered(nodes, sizes, i, all.len());
    assert(all.take(all.len() as int) =~= all);
}

proof fn lemma_sizes_are_filtered<N>(nodes: Seq<Node<N>>, sizes: Seq<Size<N>>, i: int, n: nat)
    requires
        n <= nodes[i].children@.len(),
    ensures
        flow_sizes_upto(nodes, sizes, i, n) =~= nodes[i].children@.take(n as int).filter(
            |c: NodeId| nodes[c.0 as int].style.position != Position::Absolute,
        ).map_values(|c: NodeId| sizes[c.0 as int]),
    decreases n,
{
    reveal(Seq::filter);
    if n > 0 {
        lemma_sizes_are_filtered(nodes, sizes, i, (n - 1) as nat);
        assert(nodes[i].children@.take(n as int).drop_last() =~= nodes[i].children@.take(n - 1));
    }
}

proof fn lemma_flow_fold<N: Num>(
    val: spec_fn(N) -> real,
    kids: Seq<Size<N>>,
    n: nat,
)
    requires
        exact(val),
        n <= kids.len(),
    ensures
        val(flow_fold(kids, true, n).0) == total(widths(val, kids), n),
        val(flow_fold(kids, false, n).0) == total(heights(val, kids), n),
        is_largest(heights(val, kids), n, val(flow_fold(kids, true, n).1)),
        is_largest(widths(val, kids), n, val(flow_fold(kids, false, n).1)),
        val(stack_fold(kids, n).1) == total(heights(val, kids), n),
        is_largest(widths(val, kids), n, val(stack_fold(kids, n).0)),
    decreases n,
{
    lemma_whole::<N>(val, 0);
    let w = widths(val, kids);
    let h = heights(val, kids);
    if n > 0 {
        lemma_flow_fold(val, kids, (n - 1) as nat);
        assert(total(w, n) == total(w, (n - 1) as nat) + w(n - 1));
        assert(total(h, n) == total(h, (n - 1) as nat) + h(n - 1));
        lemma_largest_grows(w, n, val(flow_fold(kids, false, (n - 1) as nat).1));
        lemma_largest_grows(h, n, val(flow_fold(kids, true, (n - 1) as nat).1));
        lemma_largest_grows(w, n, val(stack_fold(kids, (n - 1) as nat).0));
    }
}

proof fn lemma_largest_grows(f: spec_fn(int) -> real, n: nat, m: real)
    requires
        n > 0,
        is_largest(f, (n - 1) as nat, m),
    ensures
        is_largest(f, n, larger(m, f(n - 1))),
{
}

/// The content of a row or a column: along its direction, its children and the gaps
/// between them one after the other; across it, the largest child. Nothing is less than
/// the node's own content.
pub proof fn law_flow_holds_its_children<N: Num, M: Metrics<N>>(
    val: spec_fn(N) -> real,
    kind: NodeKind<N>,
    style: Style<N>,
    kids: Seq<Size<N>>,
    m: M,
)
    requires
        exact(val),
        !(kind is TreeViewItem) && !(kind is Menu),
        style.display != Display::Grid,
    ensures
        ({
            let content = content_of(kind, style, kids, m);
            let own = own_size(kind, style, m);
            let gaps = gap_total(val, style.gap, kids.len());
            match style.direction {
                Direction::Row | Direction::RowReverse => {
                    &&& val(content.w) == larger(
                        total(widths(val, kids), kids.len()) + gaps,
                        val(own.w),
                    )
                    &&& exists|tall: real| #[trigger]
                        is_largest(heights(val, kids), kids.len(), tall) && val(content.h)
                            == larger(tall, val(own.h))
                },
                Direction::Column | Direction::ColumnReverse => {
                    &&& val(content.h) == larger(
                        total(heights(val, kids), kids.len()) + gaps,
                        val(own.h),
                    )
                    &&& exists|wide: real| #[trigger]
                        is_largest(widths(val, kids), kids.len(), wide) && val(content.w)
                            == larger(wide, val(own.w))
                },
            }
        }),
{
    lemma_whole::<N>(val, 0);
    lemma_flow_fold(val, kids, kids.len());
    lemma_gaps(val, style.gap, kids.len());
}

proof fn lemma_gaps<N: Num>(val: spec_fn(N) -> real, gap: N, n: nat)
    requires
        exact(val),
    ensures
        val(N::mul_of(gap, N::count_of(less_one(n)))) == gap_total(val, gap, n),
{
    let g = val(gap);
    assert(val(N::count_of(less_one(n))) == less_one(n) as real);
    if n == 0 {
        assert(g * (0 as real) == 0 as real) by (nonlinear_arith);
    }
}

/// A row of a tree view is as tall as its own line with the rows under it, and wide enough
/// for its own line and for the rows under it, 16 to the right; collapsed, only for its own
/// line. A menu is as large as its own label.
pub proof fn law_tree_row_holds_its_rows<N: Num, M: Metrics<N>>(
    val: spec_fn(N) -> real,
    kind: NodeKind<N>,
    style: Style<N>,
    kids: Seq<Size<N>>,
    m: M,
)
    requires
        exact(val),
    ensures
        kind is Menu ==> content_of(kind, style, kids, m) == own_size(kind, style, m),
        kind matches NodeKind::TreeViewItem { collapsed, .. } ==> {
            let content = content_of(kind, style, kids, m);
            let own = own_size(kind, style, m);
            if collapsed || kids.len() == 0 {
                content == own
            } else {
                &&& val(content.h) == val(own.h) + total(heights(val, kids), kids.len())
                &&& exists|wide: real| #[trigger]
                    is_largest(widths(val, kids), kids.len(), wide) && val(content.w)
                        == larger(val(own.w), wide + 16 as real)
            }
        },
{
    lemma_whole::<N>(val, 16);
    lemma_flow_fold(val, kids, kids.len());
}

// ---- grids ----

proof fn lemma_column_width<N: Num>(
    val: spec_fn(N) -> real,
    kids: Seq<Size<N>>,
    ncols: int,
    at: int,
    n: nat,
)
    requires
        exact(val),
        n <= kids.len(),
    ensures
        is_largest(widths_in(val, kids, ncols)(at), n, val(column_width(kids, ncols, at, n))),
        is_largest(heights_in(val, kids, ncols)(at), n, val(row_height(kids, ncols, at, n))),
    decreases n,
{
    lemma_whole::<N>(val, 0);
    let w = widths_in(val, kids, ncols)(at);
    let h = heights_in(val, kids, ncols)(at);
    if n > 0 {
        lemma_column_width(val, kids, ncols, at, (n - 1) as nat);
        lemma_largest_grows(w, n, val(column_width(kids, ncols, at, (n - 1) as nat)));
        lemma_largest_grows(h, n, val(row_height(kids, ncols, at, (n - 1) as nat)));
    }
}

/// What a track adds to the size of a grid: its own extent if it is fixed, that of the
/// largest child in it if it is automatic, and nothing if it is a fraction.
pub open spec fn adds<N>(
    val: spec_fn(N) -> real,
    track: GridTrack<N>,
    in_it: spec_fn(int) -> real,
    n: nat,
    extent: real,
) -> bool {
    match track {
        GridTrack::Fixed(v) => extent == val(v),
        GridTrack::Auto => is_largest(in_it, n, extent),
        GridTrack::Fr(_) => extent == 0 as real,
    }
}

/// For each column, the width of child `k` if it is dealt to that column of `ncols`; for
/// each row, its height if it is dealt to that row.
pub open spec fn widths_in<N>(
    val: spec_fn(N) -> real,
    kids: Seq<Size<N>>,
    ncols: int,
) -> spec_fn(int) -> spec_fn(int) -> real {
    |at: int|
        |k: int|
            if k % ncols == at {
                val(kids[k].w)
            } else {
                0 as real
            }
}

pub open spec fn heights_in<N>(
    val: spec_fn(N) -> real,
    kids: Seq<Size<N>>,
    ncols: int,
) -> spec_fn(int) -> spec_fn(int) -> real {
    |at: int|
        |k: int|
            if k / ncols == at {
                val(kids[k].h)
            } else {
                0 as real
            }
}

/// Extents of tracks, which add up to the size of the grid but for the gaps.
pub open spec fn tracks_add_up<N>(
    val: spec_fn(N) -> real,
    tracks: Seq<GridTrack<N>>,
    in_track: spec_fn(int) -> spec_fn(int) -> real,
    n: nat,
    extents: Seq<real>,
) -> bool {
    &&& extents.len() == tracks.len()
    &&& forall|i: int|
        0 <= i < tracks.len() ==> adds(val, tracks[i], in_track(i), n, #[trigger] extents[i])
}

/// The columns that a grid is measured with: its template's, else one automatic column.
/// The rows: its template's, else as many automatic ones as its children fill when they
/// are dealt out over the columns.
pub open spec fn measured_columns<N>(style: Style<N>) -> Seq<GridTrack<N>> {
    if style.grid_template_columns@.len() > 0 {
        style.grid_template_columns@
    } else {
        seq![GridTrack::Auto]
    }
}

pub open spec fn measured_rows<N>(style: Style<N>, nrows: nat) -> Seq<GridTrack<N>> {
    if style.grid_template_rows@.len() > 0 {
        style.grid_template_rows@
    } else {
        Seq::new(nrows, |i: int| GridTrack::Auto)
    }
}

/// The content of a grid is as large as its tracks with the gaps between them, each track
/// as large as what is dealt to it.
pub proof fn law_grid_holds_its_tracks<N: Num>(
    val: spec_fn(N) -> real,
    style: Style<N>,
    kids: Seq<Size<N>>,
    nrows: nat,
)
    requires
        exact(val),
        // The rows that the children fill, the last perhaps in part.
        nrows >= 1,
        (nrows - 1) * measured_columns(style).len() < kids.len() || nrows == 1,
        nrows * measured_columns(style).len() >= kids.len(),
    ensures
        ({
            let size = grid_size(style, kids);
            let cols = measured_columns(style);
            let rows = measured_rows(style, nrows);
            let ncols = cols.len() as int;
            let gx = match style.gap_x {
                Some(g) => g,
                None => style.gap,
            };
            let gy = match style.gap_y {
                Some(g) => g,
                None => style.gap,
            };
            &&& exists|w: Seq<real>| #[trigger]
                tracks_add_up(val, cols, widths_in(val, kids, ncols), kids.len(), w)
                    && val(size.w) == total(|i: int| w[i], cols.len()) + gap_total(
                    val,
                    gx,
                    cols.len(),
                )
            &&& exists|h: Seq<real>| #[trigger]
                tracks_add_up(val, rows, heights_in(val, kids, ncols), kids.len(), h)
                    && val(size.h) == total(|i: int| h[i], rows.len()) + gap_total(
                    val,
                    gy,
                    rows.len(),
                )
        }),
{
    lemma_whole::<N>(val, 0);
    let cols = measured_columns(style);
    let n = cols.len();
    lemma_rows_needed(kids.len(), n, nrows);
    let rows = measured_rows(style, nrows);
    lemma_gaps(val, column_gap(style), cols.len());
    lemma_gaps(val, row_gap(style), rows.len());
    let given_cols = tracks_or_auto(style.grid_template_columns@, n);
    let given_rows = tracks_or_auto(style.grid_template_rows@, nrows);
    assert(given_cols =~= cols);
    assert(given_rows =~= rows);
    let w = lemma_columns_sum(val, kids, cols, n as int, cols.len());
    let h = lemma_rows_sum(val, kids, rows, n as int, rows.len());
    assert(tracks_add_up(val, cols, widths_in(val, kids, n as int), kids.len(), w));
    assert(tracks_add_up(val, rows, heights_in(val, kids, n as int), kids.len(), h));
}

proof fn lemma_rows_needed(cells: nat, ncols: nat, nrows: nat)
    requires
        ncols >= 1,
        nrows >= 1,
        (nrows - 1) * ncols < cells || nrows == 1,
        nrows * ncols >= cells,
    ensures
        rows_needed(cells, ncols) == nrows,
{
    if cells > 0 {
        let x = cells + ncols - 1;
        let n = ncols as int;
        let r = nrows as int;
        assert((r - 1) * n == r * n - n) by (nonlinear_arith);
        if nrows == 1 {
            assert((r - 1) * n == 0) by (nonlinear_arith)
                requires
                    r == 1,
            ;
        }
        assert(x / n == r) by (nonlinear_arith)
            requires
                n >= 1,
                r * n <= x < r * n + n,
        ;
    }
}

proof fn lemma_columns_sum<N: Num>(
    val: spec_fn(N) -> real,
    kids: Seq<Size<N>>,
    cols: Seq<GridTrack<N>>,
    ncols: int,
    n: nat,
) -> (w: Seq<real>)
    requires
        exact(val),
        n <= cols.len(),
    ensures
        tracks_add_up(
            val,
            cols.take(n as int),
            widths_in(val, kids, ncols),
            kids.len(),
            w,
        ),
        val(columns_sum(kids, cols, ncols, n)) == total(|i: int| w[i], n),
        n == cols.len() ==> tracks_add_up(
            val,
            cols,
            widths_in(val, kids, ncols),
            kids.len(),
            w,
        ),
    decreases n,
{
    lemma_whole::<N>(val, 0);
    let in_track = widths_in(val, kids, ncols);
    assert(n == cols.len() ==> cols.take(n as int) =~= cols);
    if n == 0 {
        Seq::empty()
    } else {
        let before = lemma_columns_sum(val, kids, cols, ncols, (n - 1) as nat);
        lemma_column_width(val, kids, ncols, n - 1, kids.len());
        let own = match cols[n - 1] {
            GridTrack::Fixed(v) => val(v),
            GridTrack::Auto => val(column_width(kids, ncols, n - 1, kids.len())),
            GridTrack::Fr(_) => 0 as real,
        };
        let w = before.push(own);
        assert forall|i: int| 0 <= i < n implies adds(
            val,
            cols.take(n as int)[i],
            in_track(i),
            kids.len(),
            #[trigger] w[i],
        ) by {
            if i < n - 1 {
                assert(w[i] == before[i]);
                assert(cols.take(n - 1)[i] == cols.take(n as int)[i]);
            }
        }
        lemma_total_same(
            |i: int| before[i],
            |i: int| w[i],
            (n - 1) as nat,
        );
        w
    }
}

proof fn lemma_rows_sum<N: Num>(
    val: spec_fn(N) -> real,
    kids: Seq<Size<N>>,
    rows: Seq<GridTrack<N>>,
    ncols: int,
    n: nat,
) -> (h: Seq<real>)
    requires
        exact(val),
        n <= rows.len(),
    ensures
        tracks_add_up(
            val,
            rows.take(n as int),
            heights_in(val, kids, ncols),
            kids.len(),
            h,
        ),
        val(rows_sum(kids, rows, ncols, n)) == total(|i: int| h[i], n),
        n == rows.len() ==> tracks_add_up(
            val,
            rows,
            heights_in(val, kids, ncols),
            kids.len(),
            h,
        ),
    decreases n,
{
    lemma_whole::<N>(val, 0);
    let in_track = heights_in(val, kids, ncols);
    assert(n == rows.len() ==> rows.take(n as int) =~= rows);
    if n == 0 {
        Seq::empty()
    } else {
        let before = lemma_rows_sum(val, kids, rows, ncols, (n - 1) as nat);
        lemma_column_width(val, kids, ncols, n - 1, kids.len());
        let own = match rows[n - 1] {
            GridTrack::Fixed(v) => val(v),
            GridTrack::Auto => val(row_height(kids, ncols, n - 1, kids.len())),
            GridTrack::Fr(_) => 0 as real,
        };
        let h = before.push(own);
        assert forall|i: int| 0 <= i < n implies adds(
            val,
            rows.take(n as int)[i],
            in_track(i),
            kids.len(),
            #[trigger] h[i],
        ) by {
            if i < n - 1 {
                assert(h[i] == before[i]);
                assert(rows.take(n - 1)[i] == rows.take(n as int)[i]);
            }
        }
        lemma_total_same(
            |i: int| before[i],
            |i: int| h[i],
            (n - 1) as nat,
        );
        h
    }
}

// ---- a node's own content ----

/// A picture keeps its aspect ratio if one axis is fixed and the other hugs; it has its own
/// size if neither or both are fixed.
pub proof fn law_picture_keeps_its_ratio<N: Num>(
    val: spec_fn(N) -> real,
    w: u32,
    h: u32,
    width: Sizing<N>,
    height: Sizing<N>,
)
    requires
        exact(val),
        w > 0,
        h > 0,
    ensures
        ({
            let s = picture_size(w, h, width, height);
            &&& width is Hug && height is Fixed ==> s.h == height->Fixed_0 && val(s.w) * (
            h as real) == val(s.h) * (w as real)
            &&& width is Fixed && height is Hug ==> s.w == width->Fixed_0 && val(s.w) * (
            h as real) == val(s.h) * (w as real)
            &&& !(width is Hug && height is Fixed) && !(width is Fixed && height is Hug) ==> val(
                s.w,
            ) == w as real && val(s.h) == h as real
        }),
{
    lemma_whole::<N>(val, 0);
    let (a, b) = (w as real, h as real);
    assert(val(N::count_of(w as nat)) == a);
    assert(val(N::count_of(h as nat)) == b);
    if width is Hug && height is Fixed {
        let x = val(height->Fixed_0);
        assert((a * (x / b)) * b == x * a) by (nonlinear_arith)
            requires
                b > 0 as real,
        ;
    }
    if width is Fixed && height is Hug {
        let x = val(width->Fixed_0);
        assert(x * b == (b * (x / a)) * a) by (nonlinear_arith)
            requires
                a > 0 as real,
        ;
    }
}

/// What a node's own content takes: text as it is measured, in the style's font size. A
/// checkbox has a square of the font's size and a gap of 6 before its label; a dropdown
/// leaves 24 for its arrow, and is 16 taller than a line.
pub proof fn law_own_content<N: Num, M: Metrics<N>>(
    val: spec_fn(N) -> real,
    kind: NodeKind<N>,
    style: Style<N>,
    m: M,
)
    requires
        exact(val),
    ensures
        ({
            let s = own_size(kind, style, m);
            let fs = style.font_size;
            let line = val(fs) * (13 as real / 10 as real);
            match kind {
                NodeKind::Text { content } => s.w == m.extent(content@, fs).x && s.h == m.extent(
                    content@,
                    fs,
                ).y,
                NodeKind::Button { label } => s.w == m.extent(label@, fs).x && s.h == m.extent(
                    label@,
                    fs,
                ).y,
                NodeKind::MenuItem { label } => s.w == m.extent(label@, fs).x && s.h == m.extent(
                    label@,
                    fs,
                ).y,
                NodeKind::Menu { label, .. } => s.w == m.extent(label@, fs).x && s.h == m.extent(
                    label@,
                    fs,
                ).y,
                NodeKind::TextInput { placeholder, .. } => s.w == m.extent(placeholder@, fs).x
                    && s.h == m.extent(placeholder@, fs).y,
                NodeKind::Checkbox { label, .. } => val(s.w) == val(fs) + 6 as real + val(
                    m.extent(label@, fs).x,
                ) && s.h == m.extent(label@, fs).y,
                NodeKind::Dropdown { placeholder, options, selected, .. } => {
                    let shown = if selected is Some && selected->0 < options@.len() {
                        options@[selected->0 as int]@
                    } else {
                        placeholder@
                    };
                    val(s.w) == val(m.extent(shown, fs).x) + 24 as real && val(s.h) == line
                        + 16 as real
                },
                NodeKind::Date { value, placeholder, .. } => s.w == m.extent(
                    if value@.len() > 0 {
                        value@
                    } else {
                        placeholder@
                    },
                    fs,
                ).x,
                NodeKind::Time { value, placeholder, .. } => s.w == m.extent(
                    if value@.len() > 0 {
                        value@
                    } else {
                        placeholder@
                    },
                    fs,
                ).x,
                NodeKind::DateTime { value, placeholder, .. } => s.w == m.extent(
                    if value@.len() > 0 {
                        value@
                    } else {
                        placeholder@
                    },
                    fs,
                ).x,
                NodeKind::Slider { .. } => s.w == m.control() && s.h == m.slider(fs).1,
                NodeKind::ProgressBar { .. } => s.w == m.control() && s.h == m.slider(fs).0,
                NodeKind::Image { decoded, .. } => decoded is None ==> val(s.w) == 0 as real && val(
                    s.h,
                ) == 0 as real,
                NodeKind::Icon { decoded, .. } => decoded is None ==> val(s.w) == 0 as real && val(
                    s.h,
                ) == 0 as real,
                NodeKind::TreeViewItem { label, checkbox, show_folder_actions, .. } => {
                    let check = if checkbox {
                        val(fs) + 6 as real
                    } else {
                        0 as real
                    };
                    let icon = if style.tree_icon@.len() > 0 {
                        20 as real
                    } else {
                        0 as real
                    };
                    let actions = if show_folder_actions {
                        36 as real
                    } else {
                        0 as real
                    };
                    val(s.w) == 14 as real + check + icon + val(m.extent(label@, fs).x) + actions
                        && val(s.h) == line
                },
                _ => val(s.w) == 0 as real && val(s.h) == 0 as real,
            }
        }),
{
    lemma_whole::<N>(val, 0);
    lemma_whole::<N>(val, 6);
    lemma_whole::<N>(val, 14);
    lemma_whole::<N>(val, 16);
    lemma_whole::<N>(val, 24);
    lemma_whole::<N>(val, 36);
    assert(val(line_of(style.font_size)) == val(style.font_size) * (13 as real / 10 as real));
    assert(no_size::<N>() == (Size::<N> { w: whole(0), h: whole(0) }));
}

} // verus!
