//! What holds of the places in grids and tables.

use vstd::prelude::*;
use crate::toolkit::arena::{Node, NodeId};
use crate::toolkit::flow_laws::{
    gap_total, lemma_scale, lemma_shares_positive, lemma_total_plus, lemma_total_same,
    lemma_total_scaled, total,
};
use crate::toolkit::geometry::{Point, Rect, Size};
use crate::toolkit::grid::{
    body_slot, column_sizes, extra_slots, fraction_sum, grid_cell, grid_columns, grid_content,
    grid_rows, grid_slots, header_slots, headers_slot, law_grid_cells_advance, law_grid_cells_are_disjoint,
    law_grid_cells_stay_inside, natural_columns, row_sizes, rows_reached, rows_slot, rows_slots,
    settled_tracks, span_extent, sum_range, table_content, table_of, table_slots, tallest, track_need, track_size,
    track_start, widest, Table,
};
use crate::toolkit::measure::{column_gap, less_one, row_gap};
use crate::toolkit::num::{exact, lemma_whole, whole, Num};
use crate::toolkit::style::{GridTrack, Style};

verus! {

// ---- tracks ----

/// The weight with which a track shares what is left over.
pub open spec fn fraction<N>(t: GridTrack<N>) -> Option<N> {
    match t {
        GridTrack::Fr(w) => Some(w),
        _ => None,
    }
}

/// Some track shares what is left over, and no weight is below zero.
pub open spec fn some_fraction<N>(val: spec_fn(N) -> real, tracks: Seq<GridTrack<N>>) -> bool {
    &&& forall|i: int|
        0 <= i < tracks.len() ==> (fraction(#[trigger] tracks[i]) matches Some(w) ==> val(w)
            >= 0 as real)
    &&& exists|i: int|
        0 <= i < tracks.len() && (fraction(#[trigger] tracks[i]) matches Some(w) && val(w)
            > 0 as real)
}

/// The extents of tracks, and of those of them that do not share what is left over.
pub open spec fn extents<N>(val: spec_fn(N) -> real, sizes: Seq<N>) -> real {
    total(|i: int| val(sizes[i]), sizes.len())
}

pub open spec fn own_extents<N>(
    val: spec_fn(N) -> real,
    tracks: Seq<GridTrack<N>>,
    sizes: Seq<N>,
) -> real {
    total(
        |i: int|
            if fraction(tracks[i]) is Some {
                0 as real
            } else {
                val(sizes[i])
            },
        sizes.len(),
    )
}

spec fn own_track<N: Num>(
    val: spec_fn(N) -> real,
    tracks: Seq<GridTrack<N>>,
    need: spec_fn(int) -> N,
    i: int,
) -> real {
    match tracks[i] {
        GridTrack::Fixed(v) => val(v),
        GridTrack::Auto => val(need(i)),
        GridTrack::Fr(_) => 0 as real,
    }
}

spec fn share_track<N: Num>(val: spec_fn(N) -> real, tracks: Seq<GridTrack<N>>, i: int) -> real {
    match tracks[i] {
        GridTrack::Fr(w) => val(w),
        _ => 0 as real,
    }
}

proof fn lemma_track_sums<N: Num>(
    val: spec_fn(N) -> real,
    tracks: Seq<GridTrack<N>>,
    need: spec_fn(int) -> N,
    n: nat,
)
    requires
        exact(val),
        n <= tracks.len(),
    ensures
        val(settled_tracks(tracks, need, n)) == total(
            |i: int| own_track(val, tracks, need, i),
            n,
        ),
        val(fraction_sum(tracks, n)) == total(|i: int| share_track(val, tracks, i), n),
    decreases n,
{
    lemma_whole::<N>(val, 0);
    let own = |i: int| own_track(val, tracks, need, i);
    let share = |i: int| share_track(val, tracks, i);
    if n > 0 {
        lemma_track_sums(val, tracks, need, (n - 1) as nat);
        assert(total(own, n) == total(own, (n - 1) as nat) + own(n - 1));
        assert(total(share, n) == total(share, (n - 1) as nat) + share(n - 1));
    }
}

/// A fixed track has its own extent and an automatic one what it needs. Fractions share
/// what these leave of the room: if anything is left, all tracks together take exactly the
/// room; if not, fractions get nothing. What two fractions get is in the ratio of their
/// weights.
pub proof fn law_fractions_share_the_rest<N: Num>(
    val: spec_fn(N) -> real,
    tracks: Seq<GridTrack<N>>,
    need: spec_fn(int) -> N,
    avail: N,
    sizes: Seq<N>,
)
    requires
        exact(val),
        sizes == Seq::new(tracks.len(), |i: int| track_size(tracks, need, avail, i)),
    ensures
        forall|i: int|
            0 <= i < tracks.len() ==> match #[trigger] tracks[i] {
                GridTrack::Fixed(v) => sizes[i] == v,
                GridTrack::Auto => sizes[i] == need(i),
                GridTrack::Fr(_) => true,
            },
        some_fraction(val, tracks) ==> {
            let own = own_extents(val, tracks, sizes);
            &&& own <= val(avail) ==> extents(val, sizes) == val(avail)
            &&& own >= val(avail) ==> forall|i: int|
                0 <= i < tracks.len() && fraction(#[trigger] tracks[i]) is Some ==> val(sizes[i])
                    == 0 as real
            &&& forall|i: int, j: int|
                0 <= i < tracks.len() && 0 <= j < tracks.len() && fraction(
                    #[trigger] tracks[i],
                ) is Some && fraction(#[trigger] tracks[j]) is Some ==> val(sizes[i]) * val(
                    fraction(tracks[j])->0,
                ) == val(sizes[j]) * val(fraction(tracks[i])->0)
        },
{
    lemma_whole::<N>(val, 0);
    if some_fraction(val, tracks) {
        let n = tracks.len();
        let own = |i: int| own_track(val, tracks, need, i);
        let share = |i: int| share_track(val, tracks, i);
        lemma_track_sums(val, tracks, need, n);
        let at = choose|i: int|
            0 <= i < tracks.len() && (fraction(#[trigger] tracks[i]) matches Some(w) && val(w)
                > 0 as real);
        assert forall|i: int| 0 <= i < n implies #[trigger] share(i) >= 0 as real by {
            assert(tracks[i] == tracks[i]);
        }
        lemma_shares_positive(share, n, at);
        assert(share(at) > 0 as real);
        let all = val(fraction_sum(tracks, n));
        assert(all > 0 as real);
        let left = N::max_of(N::sub_of(avail, settled_tracks(tracks, need, n)), whole(0));
        let rest = val(left);
        let by = rest / all;
        lemma_scale(rest, 0 as real, all);
        let scaled = |i: int| by * share(i);
        let len = |i: int| val(sizes[i]);
        let own_len = |i: int|
            if fraction(tracks[i]) is Some {
                0 as real
            } else {
                val(sizes[i])
            };
        assert forall|i: int| 0 <= i < n implies #[trigger] len(i) == own(i) + scaled(i)
            && own_len(i) == own(i) by {
            match tracks[i] {
                GridTrack::Fr(w) => {
                    lemma_scale(rest, val(w), all);
                },
                _ => {
                    assert(by * (0 as real) == 0 as real) by (nonlinear_arith);
                },
            }
        }
        lemma_total_same(own_len, own, n);
        lemma_total_same(len, |i: int| own(i) + scaled(i), n);
        lemma_total_plus(own, scaled, n);
        lemma_total_scaled(share, by, n);
        if own_extents(val, tracks, sizes) >= val(avail) {
            assert forall|i: int|
                0 <= i < tracks.len() && fraction(#[trigger] tracks[i]) is Some implies val(
                sizes[i],
            ) == 0 as real by {
                let x = share(i);
                assert(len(i) == own(i) + scaled(i));
                assert(by * x == 0 as real) by (nonlinear_arith)
                    requires
                        by * all == 0 as real,
                        all > 0 as real,
                ;
            }
        }
        assert forall|i: int, j: int|
            0 <= i < tracks.len() && 0 <= j < tracks.len() && fraction(
                #[trigger] tracks[i],
            ) is Some && fraction(#[trigger] tracks[j]) is Some implies val(sizes[i]) * val(
            fraction(tracks[j])->0,
        ) == val(sizes[j]) * val(fraction(tracks[i])->0) by {
            let (x, y) = (share(i), share(j));
            assert(len(i) == own(i) + scaled(i) && len(j) == own(j) + scaled(j));
            assert((by * x) * y == (by * y) * x) by (nonlinear_arith);
        }
    }
}

/// What an automatic column needs is the width of the widest child that stands in it alone,
/// and an automatic row the height of the tallest; nothing without such a child.
pub proof fn law_automatic_track_fits_its_children<N: Num>(
    val: spec_fn(N) -> real,
    nodes: Seq<Node<N>>,
    sizes: Seq<Size<N>>,
    kids: Seq<NodeId>,
    ncols: int,
    i: int,
    n: nat,
)
    requires
        exact(val),
        n <= kids.len(),
    ensures
        ({
            let w = val(track_need(nodes, sizes, kids, ncols, true, i, n));
            let h = val(track_need(nodes, sizes, kids, ncols, false, i, n));
            &&& w >= 0 as real && h >= 0 as real
            &&& forall|k: int|
                0 <= k < n ==> {
                    let cell = grid_cell(nodes, kids, ncols, k as nat);
                    let size = sizes[(#[trigger] kids[k]).0 as int];
                    &&& cell.col == i && cell.col_span == 1 ==> val(size.w) <= w
                    &&& cell.row == i && cell.row_span == 1 ==> val(size.h) <= h
                }
            &&& w == 0 as real || exists|k: int|
                0 <= k < n && grid_cell(nodes, kids, ncols, k as nat).col == i && grid_cell(
                    nodes,
                    kids,
                    ncols,
                    k as nat,
                ).col_span == 1 && val(sizes[(#[trigger] kids[k]).0 as int].w) == w
            &&& h == 0 as real || exists|k: int|
                0 <= k < n && grid_cell(nodes, kids, ncols, k as nat).row == i && grid_cell(
                    nodes,
                    kids,
                    ncols,
                    k as nat,
                ).row_span == 1 && val(sizes[(#[trigger] kids[k]).0 as int].h) == h
        }),
    decreases n,
{
    lemma_whole::<N>(val, 0);
    if n > 0 {
        law_automatic_track_fits_its_children(val, nodes, sizes, kids, ncols, i, (n - 1) as nat);
        assert(kids[n - 1] == kids[n - 1]);
    }
}

// ---- where tracks and children lie ----

/// Where track `k` starts: behind the tracks before it, a gap after each.
pub open spec fn edge<N>(val: spec_fn(N) -> real, sizes: Seq<N>, gap: N, start: N, k: int) -> real {
    val(start) + total(|i: int| val(sizes[i]) + val(gap), k as nat)
}

proof fn lemma_track_start<N: Num>(
    val: spec_fn(N) -> real,
    sizes: Seq<N>,
    gap: N,
    start: N,
    k: nat,
)
    requires
        exact(val),
    ensures
        val(track_start(sizes, gap, start, k)) == edge(val, sizes, gap, start, k as int),
    decreases k,
{
    let f = |i: int| val(sizes[i]) + val(gap);
    if k > 0 {
        lemma_track_start(val, sizes, gap, start, (k - 1) as nat);
        assert(total(f, k) == total(f, (k - 1) as nat) + f(k - 1));
    }
}

proof fn lemma_span_extent<N: Num>(
    val: spec_fn(N) -> real,
    sizes: Seq<N>,
    gap: N,
    start: N,
    a: int,
    b: int,
)
    requires
        exact(val),
        0 <= a < b,
    ensures
        edge(val, sizes, gap, start, a) + val(span_extent(sizes, gap, a, b)) == edge(
            val,
            sizes,
            gap,
            start,
            b - 1,
        ) + val(sizes[b - 1]),
    decreases b - a,
{
    lemma_whole::<N>(val, 0);
    let f = |i: int| val(sizes[i]) + val(gap);
    let g = val(gap);
    let n = (b - a) as nat;
    assert(val(N::count_of(less_one(n))) == (n - 1) as real);
    if b - a == 1 {
        assert(g * (0 as real) == 0 as real) by (nonlinear_arith);
        assert(sum_range(sizes, a, a) == whole::<N>(0));
    } else {
        lemma_span_extent(val, sizes, gap, start, a, b - 1);
        let m = (n - 1) as nat;
        assert(val(N::count_of(less_one(m))) == (m - 1) as real);
        let x = (m - 1) as real;
        assert(g * (x + 1 as real) == g * x + g) by (nonlinear_arith);
        assert(total(f, (b - 1) as nat) == total(f, (b - 2) as nat) + f(b - 2));
    }
}

/// A child of a grid lies from the start of its first column to the end of its last one,
/// and from the start of its first row to the end of its last one, panned along the axes
/// that scroll; children keep their order.
pub proof fn law_grid_child_covers_its_tracks<N: Num>(
    val: spec_fn(N) -> real,
    nodes: Seq<Node<N>>,
    sizes: Seq<Size<N>>,
    style: Style<N>,
    kids: Seq<NodeId>,
    inner: Rect<N>,
    scroll: Point<N>,
    k: int,
)
    requires
        exact(val),
        0 <= k < kids.len(),
    ensures
        ({
            let ncols = grid_columns(style).len() as int;
            let s = grid_slots(nodes, sizes, style, kids, inner, scroll)[k];
            let cell = grid_cell(nodes, kids, ncols, k as nat);
            let widths = column_sizes(nodes, sizes, style, kids, inner);
            let heights = row_sizes(nodes, sizes, style, kids, inner);
            let gx = match style.gap_x {
                Some(g) => g,
                None => style.gap,
            };
            let gy = match style.gap_y {
                Some(g) => g,
                None => style.gap,
            };
            let px = if style.scroll_x {
                val(scroll.x)
            } else {
                0 as real
            };
            let py = if style.scroll_y {
                val(scroll.y)
            } else {
                0 as real
            };
            &&& s.id == kids[k]
            &&& s.deep
            &&& val(s.rect.x) == edge(val, widths, gx, inner.x, cell.col) - px
            &&& val(s.rect.y) == edge(val, heights, gy, inner.y, cell.row) - py
            &&& val(s.rect.x) + val(s.rect.w) == edge(
                val,
                widths,
                gx,
                inner.x,
                cell.col + cell.col_span - 1,
            ) + val(widths[cell.col + cell.col_span - 1]) - px
            &&& val(s.rect.y) + val(s.rect.h) == edge(
                val,
                heights,
                gy,
                inner.y,
                cell.row + cell.row_span - 1,
            ) + val(heights[cell.row + cell.row_span - 1]) - py
        }),
{
    let ncols = grid_columns(style).len() as int;
    let cell = grid_cell(nodes, kids, ncols, k as nat);
    let widths = column_sizes(nodes, sizes, style, kids, inner);
    let heights = row_sizes(nodes, sizes, style, kids, inner);
    let gx = match style.gap_x {
        Some(g) => g,
        None => style.gap,
    };
    let gy = match style.gap_y {
        Some(g) => g,
        None => style.gap,
    };
    law_grid_cells_stay_inside(nodes, kids, ncols, k as nat);
    lemma_track_start(val, widths, gx, inner.x, cell.col as nat);
    lemma_track_start(val, heights, gy, inner.y, cell.row as nat);
    lemma_span_extent(val, widths, gx, inner.x, cell.col, cell.col + cell.col_span);
    lemma_span_extent(val, heights, gy, inner.y, cell.row, cell.row + cell.row_span);
}

/// Row `i` of a grid: what its template says, automatic beyond it.
pub open spec fn row_track<N>(style: Style<N>, i: int) -> GridTrack<N> {
    if i < style.grid_template_rows@.len() {
        style.grid_template_rows@[i]
    } else {
        GridTrack::Auto
    }
}

/// A grid without a template has one column that takes all the room; rows are added as
/// far as children reach, and are automatic. With the gaps between them, tracks of
/// which some are fractions fill the grid.
pub proof fn law_grid_tracks<N: Num>(
    val: spec_fn(N) -> real,
    nodes: Seq<Node<N>>,
    sizes: Seq<Size<N>>,
    style: Style<N>,
    kids: Seq<NodeId>,
    inner: Rect<N>,
)
    requires
        exact(val),
    ensures
        ({
            let cols = grid_columns(style);
            let widths = column_sizes(nodes, sizes, style, kids, inner);
            let heights = row_sizes(nodes, sizes, style, kids, inner);
            let given = style.grid_template_rows@;
            let gx = match style.gap_x {
                Some(g) => g,
                None => style.gap,
            };
            let reached = rows_reached(nodes, kids, cols.len() as int, kids.len());
            &&& widths.len() == cols.len() >= 1
            &&& style.grid_template_columns@.len() > 0 ==> cols == style.grid_template_columns@
            &&& style.grid_template_columns@.len() == 0 ==> widths.len() == 1 && (val(inner.w)
                >= 0 as real ==> val(widths[0]) == val(inner.w))
            &&& heights.len() >= given.len()
            &&& heights.len() >= reached
            &&& heights.len() == given.len() || heights.len() == reached
            &&& forall|i: int|
                0 <= i < heights.len() ==> match #[trigger] row_track(style, i) {
                    GridTrack::Fixed(v) => heights[i] == v,
                    GridTrack::Auto => heights[i] == track_need(
                        nodes,
                        sizes,
                        kids,
                        cols.len() as int,
                        false,
                        i,
                        kids.len(),
                    ),
                    GridTrack::Fr(_) => true,
                }
            &&& forall|i: int|
                0 <= i < cols.len() ==> match #[trigger] cols[i] {
                    GridTrack::Fixed(v) => widths[i] == v,
                    GridTrack::Auto => widths[i] == track_need(
                        nodes,
                        sizes,
                        kids,
                        cols.len() as int,
                        true,
                        i,
                        kids.len(),
                    ),
                    GridTrack::Fr(_) => true,
                }
            &&& {
                let rows = Seq::new(heights.len(), |i: int| row_track(style, i));
                let gy = match style.gap_y {
                    Some(g) => g,
                    None => style.gap,
                };
                some_fraction(val, rows) && gap_total(val, gy, rows.len()) <= val(inner.h)
                    && own_extents(val, rows, heights) + gap_total(val, gy, rows.len()) <= val(
                    inner.h,
                ) ==> extents(val, heights) + gap_total(val, gy, rows.len()) == val(inner.h)
            }
            &&& some_fraction(val, cols) && gap_total(val, gx, cols.len()) <= val(inner.w)
                && own_extents(val, cols, widths) + gap_total(val, gx, cols.len()) <= val(
                inner.w,
            ) ==> extents(val, widths) + gap_total(val, gx, cols.len()) == val(
                inner.w,
            )
        }),
{
    lemma_whole::<N>(val, 0);
    lemma_whole::<N>(val, 1);
    let cols = grid_columns(style);
    let widths = column_sizes(nodes, sizes, style, kids, inner);
    let gx = column_gap(style);
    let avail = N::max_of(
        N::sub_of(
            inner.w,
            N::mul_of(gx, N::count_of(less_one(cols.len()))),
        ),
        whole(0),
    );
    let need = |i: int|
        track_need(nodes, sizes, kids, cols.len() as int, true, i, kids.len());
    assert(widths =~= Seq::new(cols.len(), |i: int| track_size(cols, need, avail, i)));
    law_fractions_share_the_rest(val, cols, need, avail, widths);
    let n = cols.len();
    assert(val(N::count_of(less_one(n))) == (n - 1) as real);
    let heights = row_sizes(nodes, sizes, style, kids, inner);
    let rows = grid_rows(style, rows_reached(nodes, kids, n as int, kids.len()));
    let avail_h = N::max_of(
        N::sub_of(inner.h, N::mul_of(row_gap(style), N::count_of(less_one(rows.len())))),
        whole(0),
    );
    let need_h = |i: int| track_need(nodes, sizes, kids, n as int, false, i, kids.len());
    assert(heights =~= Seq::new(rows.len(), |i: int| track_size(rows, need_h, avail_h, i)));
    law_fractions_share_the_rest(val, rows, need_h, avail_h, heights);
    assert(rows =~= Seq::new(heights.len(), |i: int| row_track(style, i)));
    if rows.len() > 0 {
        assert(val(N::count_of(less_one(rows.len()))) == (rows.len() - 1) as real);
    }
    if style.grid_template_columns@.len() == 0 {
        let g = val(gx);
        assert(g * (0 as real) == 0 as real) by (nonlinear_arith);
        assert(cols.len() == 1);
        assert(fraction(cols[0]) == Some(whole::<N>(1)));
        assert(some_fraction(val, cols));
        let f = |i: int| val(widths[i]);
        let h = |i: int|
            if fraction(cols[i]) is Some {
                0 as real
            } else {
                val(widths[i])
            };
        assert(total(f, 1) == total(f, 0) + f(0));
        assert(total(h, 1) == total(h, 0) + h(0));
    }
}

/// No slot of the grid belongs to two children, each child stands inside the columns, and
/// spans as many columns and rows as its style asks for: one at the least, and no more
/// columns than there are.
pub proof fn law_grid_children_stand_apart<N>(
    nodes: Seq<Node<N>>,
    kids: Seq<NodeId>,
    ncols: int,
    a: nat,
    b: nat,
)
    requires
        ncols >= 1,
        a < b < kids.len(),
    ensures
        ({
            let x = grid_cell(nodes, kids, ncols, a);
            let y = grid_cell(nodes, kids, ncols, b);
            let style = nodes[kids[a as int].0 as int].style;
            &&& x.row < y.row || (x.row == y.row && x.col < y.col)
            &&& x.col + x.col_span <= y.col || y.col + y.col_span <= x.col || x.row + x.row_span
                <= y.row || y.row + y.row_span <= x.row
            &&& 0 <= x.col && x.col + x.col_span <= ncols
            &&& 1 <= style.grid_column_span <= ncols ==> x.col_span == style.grid_column_span
            &&& style.grid_column_span > ncols ==> x.col_span == ncols
            &&& style.grid_column_span == 0 ==> x.col_span == 1
            &&& 1 <= style.grid_row_span ==> x.row_span == style.grid_row_span
            &&& style.grid_row_span == 0 ==> x.row_span == 1
        }),
{
    law_grid_cells_are_disjoint(nodes, kids, ncols, a, b);
    law_grid_cells_advance(nodes, kids, ncols, a, b);
    law_grid_cells_stay_inside(nodes, kids, ncols, a);
    law_grid_cells_stay_inside(nodes, kids, ncols, b);
}

/// The content of a grid reaches from its first track to the end of its last one.
pub proof fn law_grid_content<N: Num>(
    val: spec_fn(N) -> real,
    nodes: Seq<Node<N>>,
    sizes: Seq<Size<N>>,
    style: Style<N>,
    kids: Seq<NodeId>,
    inner: Rect<N>,
)
    requires
        exact(val),
    ensures
        ({
            let content = grid_content(nodes, sizes, style, kids, inner);
            let widths = column_sizes(nodes, sizes, style, kids, inner);
            let heights = row_sizes(nodes, sizes, style, kids, inner);
            let gx = match style.gap_x {
                Some(g) => g,
                None => style.gap,
            };
            let gy = match style.gap_y {
                Some(g) => g,
                None => style.gap,
            };
            let (m, n) = (widths.len() - 1, heights.len() - 1);
            &&& val(inner.x) + val(content.w) == edge(val, widths, gx, inner.x, m) + val(widths[m])
            &&& val(inner.y) + val(content.h) == edge(val, heights, gy, inner.y, n) + val(
                heights[n],
            )
        }),
{
    let widths = column_sizes(nodes, sizes, style, kids, inner);
    let heights = row_sizes(nodes, sizes, style, kids, inner);
    let ncols = grid_columns(style).len() as int;
    if kids.len() > 0 {
        law_grid_cells_stay_inside(nodes, kids, ncols, 0);
    }
    lemma_span_extent(val, widths, column_gap(style), inner.x, 0, widths.len() as int);
    lemma_span_extent(val, heights, row_gap(style), inner.y, 0, heights.len() as int);
    let f = |i: int| val(widths[i]) + val(column_gap(style));
    let g = |i: int| val(heights[i]) + val(row_gap(style));
    assert(total(f, 0) == 0 as real);
    assert(total(g, 0) == 0 as real);
}

// ---- tables ----

proof fn lemma_widest<N: Num>(
    val: spec_fn(N) -> real,
    sizes: Seq<Size<N>>,
    head: Seq<NodeId>,
    body: Seq<NodeId>,
    c: int,
    n: nat,
)
    requires
        exact(val),
        0 <= c < head.len(),
        n <= body.len(),
    ensures
        ({
            let w = val(widest(sizes, head, body, c, n));
            &&& val(sizes[head[c].0 as int].w) <= w
            &&& forall|k: int|
                0 <= k < n && k % (head.len() as int) == c ==> val(
                    sizes[(#[trigger] body[k]).0 as int].w,
                ) <= w
            &&& w == val(sizes[head[c].0 as int].w) || exists|k: int|
                0 <= k < n && k % (head.len() as int) == c && val(
                    sizes[(#[trigger] body[k]).0 as int].w,
                ) == w
        }),
    decreases n,
{
    if n > 0 {
        lemma_widest(val, sizes, head, body, c, (n - 1) as nat);
        assert(body[n - 1] == body[n - 1]);
    }
}

proof fn lemma_tallest<N: Num>(
    val: spec_fn(N) -> real,
    sizes: Seq<Size<N>>,
    cells: Seq<NodeId>,
    a: int,
    b: int,
)
    requires
        exact(val),
        0 <= a <= b <= cells.len(),
    ensures
        tall_as(val, sizes, cells, a, b, tallest(sizes, cells, a, b)),
    decreases b - a,
{
    lemma_whole::<N>(val, 0);
    if a < b {
        lemma_tallest(val, sizes, cells, a, b - 1);
        assert(cells[b - 1] == cells[b - 1]);
    }
}

/// `h` is the height of the tallest of the cells from `a` up to `b`; nothing without any.
pub open spec fn tall_as<N>(
    val: spec_fn(N) -> real,
    sizes: Seq<Size<N>>,
    cells: Seq<NodeId>,
    a: int,
    b: int,
    h: N,
) -> bool {
    &&& val(h) >= 0 as real
    &&& forall|k: int| a <= k < b ==> val(sizes[(#[trigger] cells[k]).0 as int].h) <= val(h)
    &&& val(h) == 0 as real || exists|k: int|
        a <= k < b && val(sizes[(#[trigger] cells[k]).0 as int].h) == val(h)
}

/// A column of a table is as wide as the widest of its cells, the header's counted in. If
/// no column has any width, the columns share the table's width evenly.
pub proof fn law_table_column_fits_its_cells<N: Num>(
    val: spec_fn(N) -> real,
    nodes: Seq<Node<N>>,
    sizes: Seq<Size<N>>,
    kids: Seq<NodeId>,
    inner: Rect<N>,
    c: int,
)
    requires
        exact(val),
        kids.len() >= 2,
        0 <= c < nodes[kids[0].0 as int].children@.len(),
    ensures
        ({
            let head = nodes[kids[0].0 as int].children@;
            let body = nodes[kids[1].0 as int].children@;
            let n = head.len() as int;
            let widths = table_of(nodes, sizes, kids, inner).widths;
            let w = val(widths[c]);
            &&& widths.len() == n
            &&& {
                ||| {
                    &&& val(sizes[head[c].0 as int].w) <= w
                    &&& forall|k: int|
                        0 <= k < body.len() && k % n == c ==> val(
                            sizes[(#[trigger] body[k]).0 as int].w,
                        ) <= w
                    &&& w == val(sizes[head[c].0 as int].w) || exists|k: int|
                        0 <= k < body.len() && k % n == c && val(
                            sizes[(#[trigger] body[k]).0 as int].w,
                        ) == w
                }
                ||| {
                    &&& w * n as real == val(inner.w)
                    &&& forall|k: int|
                        0 <= k < body.len() ==> val(sizes[(#[trigger] body[k]).0 as int].w)
                            <= 0 as real
                    &&& forall|k: int|
                        0 <= k < n ==> val(sizes[(#[trigger] head[k]).0 as int].w) <= 0 as real
                }
            }
        }),
{
    lemma_whole::<N>(val, 0);
    let head = nodes[kids[0].0 as int].children@;
    let body = nodes[kids[1].0 as int].children@;
    let n = head.len() as int;
    let natural = natural_columns(sizes, head, body);
    lemma_widest(val, sizes, head, body, c, body.len());
    if forall|c: int| 0 <= c < natural.len() ==> N::eq_of(#[trigger] natural[c], whole(0)) {
        assert forall|k: int| 0 <= k < body.len() implies val(
            sizes[(#[trigger] body[k]).0 as int].w,
        ) <= 0 as real by {
            lemma_widest(val, sizes, head, body, k % n, body.len());
            assert(N::eq_of(natural[k % n], whole(0)));
        }
        assert forall|k: int| 0 <= k < n implies val(sizes[(#[trigger] head[k]).0 as int].w)
            <= 0 as real by {
            lemma_widest(val, sizes, head, body, k, body.len());
            assert(N::eq_of(natural[k], whole(0)));
        }
        let all = val(inner.w);
        let m = n as real;
        assert((all / m) * m == all) by (nonlinear_arith)
            requires
                m > 0 as real,
        ;
    }
}

proof fn lemma_rows_slots<N: Num>(
    sizes: Seq<Size<N>>,
    t: Table<N>,
    inner: Rect<N>,
    n: nat,
)
    ensures
        rows_slots(sizes, t, inner, n).len() == n * t.head.len(),
        forall|r: int, c: int|
            0 <= r < n && 0 <= c < t.head.len() ==> rows_slots(sizes, t, inner, n)[r
                * t.head.len() + c] == #[trigger] body_slot(sizes, t, inner, r, c),
    decreases n,
{
    let m = t.head.len() as int;
    if n > 0 {
        let before = rows_slots(sizes, t, inner, (n - 1) as nat);
        lemma_rows_slots(sizes, t, inner, (n - 1) as nat);
        assert(n * m == (n - 1) * m + m) by (nonlinear_arith);
        assert forall|r: int, c: int| 0 <= r < n && 0 <= c < m implies rows_slots(
            sizes,
            t,
            inner,
            n,
        )[r * m + c] == #[trigger] body_slot(sizes, t, inner, r, c) by {
            assert(0 <= r * m) by (nonlinear_arith)
                requires
                    r >= 0,
                    m >= 0,
            ;
            if r < n - 1 {
                assert(r * m + m <= (n - 1) * m) by (nonlinear_arith)
                    requires
                        r + 1 <= n - 1,
                        m >= 0,
                ;
                assert(before[r * m + c] == body_slot(sizes, t, inner, r, c));
            }
        }
    }
}

/// The places in a table of `n` columns, whose first child holds the header cells and
/// whose second one the other cells, row by row: header cells stand side by side on top,
/// and the rows under them, one under the other. Each cell has the x and the width of the
/// header cell of its column, and each row the height of its tallest cell.
#[verifier::rlimit(40)]
pub proof fn law_table_cells<N: Num>(
    val: spec_fn(N) -> real,
    nodes: Seq<Node<N>>,
    sizes: Seq<Size<N>>,
    kids: Seq<NodeId>,
    inner: Rect<N>,
    r: int,
    c: int,
)
    requires
        exact(val),
        kids.len() >= 2,
        0 <= c < nodes[kids[0].0 as int].children@.len(),
        0 <= r,
        (r + 1) * nodes[kids[0].0 as int].children@.len()
            <= nodes[kids[1].0 as int].children@.len(),
    ensures
        ({
            let head = nodes[kids[0].0 as int].children@;
            let body = nodes[kids[1].0 as int].children@;
            let n = head.len() as int;
            let slots = table_slots(nodes, sizes, kids, inner);
            let top = slots[c];
            let cell = slots[n + 1 + r * n + c];
            &&& top.id == head[c] && top.deep
            &&& cell.id == body[r * n + c] && cell.deep
            &&& slots[n].id == kids[0] && !slots[n].deep && slots[n].rect.x == inner.x
                && slots[n].rect.y == inner.y && slots[n].rect.h == top.rect.h
            &&& cell.rect.x == top.rect.x && cell.rect.w == top.rect.w
            &&& top.rect.w == table_of(nodes, sizes, kids, inner).widths[c]
            &&& top.rect.y == inner.y
            &&& tall_as(val, sizes, head, 0, n, top.rect.h)
            &&& tall_as(val, sizes, body, r * n, r * n + n, cell.rect.h)
            &&& c == 0 ==> top.rect.x == inner.x
            &&& c > 0 ==> val(top.rect.x) == val(slots[c - 1].rect.x) + val(slots[c - 1].rect.w)
            &&& r == 0 ==> val(cell.rect.y) == val(top.rect.y) + val(top.rect.h)
            &&& r > 0 ==> {
                let above = slots[n + 1 + (r - 1) * n + c];
                val(cell.rect.y) == val(above.rect.y) + val(above.rect.h)
            }
        }),
{
    let head = nodes[kids[0].0 as int].children@;
    let body = nodes[kids[1].0 as int].children@;
    let n = head.len() as int;
    let t = table_of(nodes, sizes, kids, inner);
    let slots = table_slots(nodes, sizes, kids, inner);
    let m = body.len() as int;
    assert(r < m / n) by (nonlinear_arith)
        requires
            n > 0,
            (r + 1) * n <= m,
    ;
    assert(r * n + n == (r + 1) * n && r * n >= 0) by (nonlinear_arith)
        requires
            r >= 0,
            n > 0,
    ;
    let nrows = t.nrows as int;
    assert((r + 1) * n <= nrows * n) by (nonlinear_arith)
        requires
            r + 1 <= nrows,
            n > 0,
    ;
    lemma_rows_slots(sizes, t, inner, t.nrows);
    lemma_tallest(val, sizes, head, 0, n);
    lemma_tallest(val, sizes, body, r * n, r * n + n);
    let tops = header_slots(t, inner);
    let cells = rows_slots(sizes, t, inner, t.nrows);
    assert(slots[c] == tops[c]);
    assert(slots[n] == headers_slot(t, kids, inner));
    assert(slots[n + 1 + r * n + c] == cells[r * n + c]);
    assert(cells[r * n + c] == body_slot(sizes, t, inner, r, c));
    if c > 0 {
        assert(slots[c - 1] == tops[c - 1]);
    }
    if r > 0 {
        assert((r - 1) * n + n == r * n && (r - 1) * n >= 0) by (nonlinear_arith)
            requires
                r >= 1,
                n > 0,
        ;
        assert(slots[n + 1 + (r - 1) * n + c] == cells[(r - 1) * n + c]);
        assert(cells[(r - 1) * n + c] == body_slot(sizes, t, inner, r - 1, c));
    }
}

/// What follows the two containers of a table stands below the last row, one under the
/// other, each as tall as it is and as wide as the table.
#[verifier::rlimit(40)]
pub proof fn law_table_extras<N: Num>(
    val: spec_fn(N) -> real,
    nodes: Seq<Node<N>>,
    sizes: Seq<Size<N>>,
    kids: Seq<NodeId>,
    inner: Rect<N>,
    k: int,
)
    requires
        exact(val),
        2 <= k < kids.len(),
    ensures
        ({
            let slots = table_slots(nodes, sizes, kids, inner);
            let at = slots.len() - kids.len() + k;
            let s = slots[at];
            &&& s.id == kids[k] && s.deep
            &&& s.rect.x == inner.x
            &&& val(s.rect.w) >= val(inner.w)
            &&& s.rect.h == sizes[kids[k].0 as int].h
            &&& k > 2 ==> val(s.rect.y) == val(slots[at - 1].rect.y) + val(slots[at - 1].rect.h)
            // The container of the rows comes right before the first of them.
            &&& k == 2 ==> slots[at - 1].id == kids[1] && !slots[at - 1].deep && val(s.rect.y)
                == val(slots[at - 1].rect.y) + val(slots[at - 1].rect.h)
        }),
{
    let t = table_of(nodes, sizes, kids, inner);
    let slots = table_slots(nodes, sizes, kids, inner);
    let extras = extra_slots(sizes, t, kids, inner);
    let at = slots.len() - kids.len() + k;
    assert(slots[at] == extras[k - 2]);
    if k > 2 {
        assert(slots[at - 1] == extras[k - 3]);
    } else {
        assert(slots[at - 1] == rows_slot(t, kids, inner));
    }
}

/// The content of a table ends where its last part does, and is as wide as that.
#[verifier::rlimit(40)]
pub proof fn law_table_content<N: Num>(
    val: spec_fn(N) -> real,
    nodes: Seq<Node<N>>,
    sizes: Seq<Size<N>>,
    kids: Seq<NodeId>,
    inner: Rect<N>,
)
    requires
        exact(val),
        kids.len() > 1,
    ensures
        ({
            let slots = table_slots(nodes, sizes, kids, inner);
            let size = table_content(nodes, sizes, kids, inner);
            &&& val(inner.y) + val(size.h) == val(slots.last().rect.y) + val(slots.last().rect.h)
            &&& size.w == slots.last().rect.w
        }),
{
    let t = table_of(nodes, sizes, kids, inner);
    let slots = table_slots(nodes, sizes, kids, inner);
    let extras = extra_slots(sizes, t, kids, inner);
    if kids.len() > 2 {
        assert(slots.last() == extras.last());
    } else {
        assert(slots.last() == rows_slot(t, kids, inner));
    }
}

} // verus!
