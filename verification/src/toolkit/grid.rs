//! Placing children into tracks: grids with fixed, automatic and fractional
//! tracks, and tables whose columns are as wide as their widest cell.

use vstd::prelude::*;
use crate::toolkit::arena::{is_forest, rank_of, ranked, Node, NodeId};
use crate::toolkit::geometry::{no_size, Point, Rect, Size};
use crate::toolkit::layout::{in_range, pan, panned, Slot};
use crate::toolkit::measure::{column_gap, less_one, one_less, row_gap};
use crate::toolkit::num::{whole, Num};
use crate::toolkit::style::{copy_tracks, GridTrack, Style};

verus! {

/// Where an auto-placed grid child lands.
#[derive(Debug, Clone, Copy, PartialEq, Eq, Structural)]
pub struct GridCell {
    pub col: usize,
    /// Row spans add up: a row can be farther down than a `usize` counts.
    pub row: u128,
    pub col_span: usize,
    pub row_span: u32,
}

/// A rectangle of grid slots.
pub struct Area {
    pub col: int,
    pub row: int,
    pub col_span: int,
    pub row_span: int,
}

impl View for GridCell {
    type V = Area;

    open spec fn view(&self) -> Area {
        Area {
            col: self.col as int,
            row: self.row as int,
            col_span: self.col_span as int,
            row_span: self.row_span as int,
        }
    }
}

/// Whether two areas have a slot in common.
pub open spec fn areas_meet(a: Area, b: Area) -> bool {
    &&& a.col < b.col + b.col_span
    &&& b.col < a.col + a.col_span
    &&& a.row < b.row + b.row_span
    &&& b.row < a.row + a.row_span
}

/// Whether slot `(col, row)` of the first pair is that of the second, or comes
/// before it row by row.
pub open spec fn slot_le(a: (int, int), b: (int, int)) -> bool {
    a.1 < b.1 || (a.1 == b.1 && a.0 <= b.0)
}

/// How many columns a child spans: what it asks for, one at the least and the
/// whole grid at most.
pub open spec fn span_of(asked: u32, ncols: int) -> int {
    let least = if asked < 1 {
        1int
    } else {
        asked as int
    };
    if least < ncols {
        least
    } else {
        ncols
    }
}

pub open spec fn row_span_of(asked: u32) -> u32 {
    if asked < 1 {
        1
    } else {
        asked
    }
}

/// Whether an area of the given spans can stand with its corner in `slot`: it
/// stays inside the columns and meets none of `earlier`.
pub open spec fn slot_free(
    earlier: Seq<Area>,
    ncols: int,
    col_span: int,
    row_span: int,
    slot: (int, int),
) -> bool {
    &&& 0 <= slot.0
    &&& 0 <= slot.1
    &&& slot.0 + col_span <= ncols
    &&& forall|j: int|
        0 <= j < earlier.len() ==> !areas_meet(
            #[trigger] earlier[j],
            Area { col: slot.0, row: slot.1, col_span, row_span },
        )
}

/// The slot from which the next child looks for its own: that of the child
/// before it.
pub open spec fn flow_start(earlier: Seq<Area>) -> (int, int) {
    if earlier.len() == 0 {
        (0, 0)
    } else {
        (earlier.last().col, earlier.last().row)
    }
}

/// `slot` is the first free one from `from` on, row by row.
pub open spec fn is_first_free(
    earlier: Seq<Area>,
    ncols: int,
    col_span: int,
    row_span: int,
    from: (int, int),
    slot: (int, int),
) -> bool {
    &&& slot_le(from, slot)
    &&& slot_free(earlier, ncols, col_span, row_span, slot)
    &&& forall|other: (int, int)|
        slot_le(from, other) && #[trigger] slot_free(earlier, ncols, col_span, row_span, other)
            ==> slot_le(slot, other)
}

/// The next free slot after the areas `earlier`.
pub open spec fn next_slot(earlier: Seq<Area>, ncols: int, col_span: int, row_span: int) -> (
    int,
    int,
) {
    choose|slot: (int, int)|
        is_first_free(earlier, ncols, col_span, row_span, flow_start(earlier), slot)
}

/// The areas of the first `n` children: each takes the next free slot.
pub open spec fn areas_upto<N>(
    nodes: Seq<Node<N>>,
    kids: Seq<NodeId>,
    ncols: int,
    n: nat,
) -> Seq<Area>
    decreases n,
{
    if n == 0 {
        Seq::empty()
    } else {
        let earlier = areas_upto(nodes, kids, ncols, (n - 1) as nat);
        let style = nodes[kids[n - 1].0 as int].style;
        let col_span = span_of(style.grid_column_span, ncols);
        let row_span = row_span_of(style.grid_row_span) as int;
        let slot = next_slot(earlier, ncols, col_span, row_span);
        earlier.push(Area { col: slot.0, row: slot.1, col_span, row_span })
    }
}

/// The area of the `n`th child.
pub open spec fn grid_cell<N>(nodes: Seq<Node<N>>, kids: Seq<NodeId>, ncols: int, n: nat) -> Area {
    areas_upto(nodes, kids, ncols, n + 1).last()
}

/// How many rows the first `n` children reach down; one at the least.
pub open spec fn rows_reached<N>(
    nodes: Seq<Node<N>>,
    kids: Seq<NodeId>,
    ncols: int,
    n: nat,
) -> int
    decreases n,
{
    if n == 0 {
        1
    } else {
        let rest = rows_reached(nodes, kids, ncols, (n - 1) as nat);
        let cell = grid_cell(nodes, kids, ncols, (n - 1) as nat);
        if cell.row + cell.row_span > rest {
            cell.row + cell.row_span
        } else {
            rest
        }
    }
}

/// Below row `bottom` everything is free, so from any slot above it there is a
/// first free one.
proof fn lemma_first_free_exists(
    earlier: Seq<Area>,
    ncols: int,
    col_span: int,
    row_span: int,
    bottom: int,
    from: (int, int),
) -> (slot: (int, int))
    requires
        1 <= col_span <= ncols,
        0 <= from.0 < ncols,
        0 <= from.1,
        from.1 < bottom || from == (0int, bottom),
        forall|j: int|
            0 <= j < earlier.len() ==> (#[trigger] earlier[j]).row + earlier[j].row_span <= bottom,
    ensures
        is_first_free(earlier, ncols, col_span, row_span, from, slot),
        slot.1 <= bottom,
    decreases bottom - from.1, ncols - from.0,
{
    if slot_free(earlier, ncols, col_span, row_span, from) {
        from
    } else if from.0 + 1 < ncols {
        lemma_first_free_exists(
            earlier,
            ncols,
            col_span,
            row_span,
            bottom,
            (from.0 + 1, from.1),
        )
    } else {
        let slot = lemma_first_free_exists(
            earlier,
            ncols,
            col_span,
            row_span,
            bottom,
            (0, from.1 + 1),
        );
        slot
    }
}

/// The first `n` areas: how many they are, that the first of them are those of
/// fewer children, and how far down they reach.
proof fn lemma_areas<N>(nodes: Seq<Node<N>>, kids: Seq<NodeId>, ncols: int, n: nat)
    requires
        ncols >= 1,
    ensures
        areas_upto(nodes, kids, ncols, n).len() == n,
        rows_reached(nodes, kids, ncols, n) >= 1,
        forall|k: int|
            0 <= k < n ==> #[trigger] areas_upto(nodes, kids, ncols, n)[k] == grid_cell(
                nodes,
                kids,
                ncols,
                k as nat,
            ),
        forall|k: int|
            0 <= k < n ==> {
                let a = #[trigger] areas_upto(nodes, kids, ncols, n)[k];
                let style = nodes[kids[k].0 as int].style;
                &&& a.col_span == span_of(style.grid_column_span, ncols)
                &&& a.row_span == row_span_of(style.grid_row_span)
                &&& 0 <= a.col
                &&& a.col + a.col_span <= ncols
                &&& 0 <= a.row
                &&& a.row + a.row_span <= rows_reached(nodes, kids, ncols, n)
            },
        rows_reached(nodes, kids, ncols, n) <= 1 + n * 0xffff_ffff,
    decreases n, 0nat,
{
    if n > 0 {
        let m = (n - 1) as nat;
        lemma_areas(nodes, kids, ncols, m);
        lemma_next_slot(nodes, kids, ncols, m);
        let earlier = areas_upto(nodes, kids, ncols, m);
        let all = areas_upto(nodes, kids, ncols, n);
        assert(m + 1 == n);
        assert(all.last() == grid_cell(nodes, kids, ncols, m));
        assert forall|k: int| 0 <= k < n implies #[trigger] all[k] == grid_cell(
            nodes,
            kids,
            ncols,
            k as nat,
        ) by {
            if k < m {
                assert(all[k] == earlier[k]);
            }
        }
        assert forall|k: int| 0 <= k < n implies ({
            let a = #[trigger] all[k];
            let style = nodes[kids[k].0 as int].style;
            &&& a.col_span == span_of(style.grid_column_span, ncols)
            &&& a.row_span == row_span_of(style.grid_row_span)
            &&& 0 <= a.col
            &&& a.col + a.col_span <= ncols
            &&& 0 <= a.row
            &&& a.row + a.row_span <= rows_reached(nodes, kids, ncols, n)
        }) by {
            if k < m {
                assert(all[k] == earlier[k]);
            }
        }
        assert(1 + n * 0xffff_ffff == 1 + m * 0xffff_ffff + 0xffff_ffff);
    }
}

/// The next slot after the first `n` areas is the first free one, and within
/// what they reach or right below it.
proof fn lemma_next_slot<N>(nodes: Seq<Node<N>>, kids: Seq<NodeId>, ncols: int, n: nat)
    requires
        ncols >= 1,
    ensures
        ({
            let earlier = areas_upto(nodes, kids, ncols, n);
            let style = nodes[kids[n as int].0 as int].style;
            let col_span = span_of(style.grid_column_span, ncols);
            let row_span = row_span_of(style.grid_row_span) as int;
            let slot = next_slot(earlier, ncols, col_span, row_span);
            &&& is_first_free(earlier, ncols, col_span, row_span, flow_start(earlier), slot)
            &&& slot.1 <= rows_reached(nodes, kids, ncols, n)
        }),
    decreases n, 1nat,
{
    lemma_areas(nodes, kids, ncols, n);
    let earlier = areas_upto(nodes, kids, ncols, n);
    let style = nodes[kids[n as int].0 as int].style;
    let col_span = span_of(style.grid_column_span, ncols);
    let row_span = row_span_of(style.grid_row_span) as int;
    let slot = lemma_first_free_exists(
        earlier,
        ncols,
        col_span,
        row_span,
        rows_reached(nodes, kids, ncols, n),
        flow_start(earlier),
    );
    let chosen = next_slot(earlier, ncols, col_span, row_span);
    assert(is_first_free(earlier, ncols, col_span, row_span, flow_start(earlier), chosen));
    assert(slot_le(slot, chosen) && slot_le(chosen, slot));
}

/// Each child takes the next free slot: of the slots from the child before it on,
/// row by row, the first in which it stays inside the columns and meets no
/// earlier child.
pub proof fn law_child_takes_next_free_slot<N>(
    nodes: Seq<Node<N>>,
    kids: Seq<NodeId>,
    ncols: int,
    n: nat,
)
    requires
        ncols >= 1,
        n < kids.len(),
    ensures
        ({
            let cell = grid_cell(nodes, kids, ncols, n);
            let earlier = areas_upto(nodes, kids, ncols, n);
            is_first_free(
                earlier,
                ncols,
                cell.col_span,
                cell.row_span,
                flow_start(earlier),
                (cell.col, cell.row),
            )
        }),
{
    lemma_next_slot(nodes, kids, ncols, n);
    lemma_areas(nodes, kids, ncols, n + 1);
}

/// Every child stays inside the grid.
pub proof fn law_grid_cells_stay_inside<N>(
    nodes: Seq<Node<N>>,
    kids: Seq<NodeId>,
    ncols: int,
    n: nat,
)
    requires
        ncols >= 1,
        n < kids.len(),
    ensures
        ({
            let cell = grid_cell(nodes, kids, ncols, n);
            &&& 0 <= cell.col
            &&& 1 <= cell.col_span
            &&& cell.col + cell.col_span <= ncols
            &&& 0 <= cell.row
            &&& 1 <= cell.row_span
            &&& cell.row + cell.row_span <= rows_reached(nodes, kids, ncols, kids.len())
        }),
{
    lemma_areas(nodes, kids, ncols, kids.len());
    assert(areas_upto(nodes, kids, ncols, kids.len())[n as int] == grid_cell(
        nodes,
        kids,
        ncols,
        n,
    ));
}

/// No two children meet, their spans counted in.
pub proof fn law_grid_cells_are_disjoint<N>(
    nodes: Seq<Node<N>>,
    kids: Seq<NodeId>,
    ncols: int,
    a: nat,
    b: nat,
)
    requires
        ncols >= 1,
        a < b < kids.len(),
    ensures
        !areas_meet(grid_cell(nodes, kids, ncols, a), grid_cell(nodes, kids, ncols, b)),
{
    law_child_takes_next_free_slot(nodes, kids, ncols, b);
    lemma_areas(nodes, kids, ncols, b);
    assert(areas_upto(nodes, kids, ncols, b)[a as int] == grid_cell(nodes, kids, ncols, a));
}

/// Children are placed row by row, left to right: a later child starts on a later
/// row, or on the same row right of where an earlier one ends.
pub proof fn law_grid_cells_advance<N>(
    nodes: Seq<Node<N>>,
    kids: Seq<NodeId>,
    ncols: int,
    a: nat,
    b: nat,
)
    requires
        ncols >= 1,
        a < b < kids.len(),
    ensures
        ({
            let x = grid_cell(nodes, kids, ncols, a);
            let y = grid_cell(nodes, kids, ncols, b);
            x.row < y.row || (x.row == y.row && x.col + x.col_span <= y.col)
        }),
    decreases b - a,
{
    law_grid_cells_stay_inside(nodes, kids, ncols, a);
    law_grid_cells_stay_inside(nodes, kids, ncols, b);
    law_child_takes_next_free_slot(nodes, kids, ncols, b);
    lemma_areas(nodes, kids, ncols, b);
    law_grid_cells_are_disjoint(nodes, kids, ncols, a, b);
    if a + 1 < b {
        law_grid_cells_advance(nodes, kids, ncols, a, (b - 1) as nat);
    }
}

/// Where no child spans rows, the next one follows on the same row, and wraps to
/// the start of the next when its span does not fit the remaining columns.
pub proof fn law_single_rows_wrap<N>(
    nodes: Seq<Node<N>>,
    kids: Seq<NodeId>,
    ncols: int,
    n: nat,
)
    requires
        ncols >= 1,
        n + 1 < kids.len(),
        forall|k: int|
            0 <= k < kids.len() ==> nodes[(#[trigger] kids[k]).0 as int].style.grid_row_span <= 1,
    ensures
        ({
            let x = grid_cell(nodes, kids, ncols, n);
            let y = grid_cell(nodes, kids, ncols, n + 1);
            if x.col + x.col_span + y.col_span <= ncols {
                y.col == x.col + x.col_span && y.row == x.row
            } else {
                y.col == 0 && y.row == x.row + 1
            }
        }),
{
    let x = grid_cell(nodes, kids, ncols, n);
    let y = grid_cell(nodes, kids, ncols, n + 1);
    let earlier = areas_upto(nodes, kids, ncols, n + 1);
    law_child_takes_next_free_slot(nodes, kids, ncols, n + 1);
    lemma_areas(nodes, kids, ncols, n + 1);
    law_grid_cells_stay_inside(nodes, kids, ncols, n);
    law_grid_cells_stay_inside(nodes, kids, ncols, n + 1);
    law_grid_cells_advance(nodes, kids, ncols, n, n + 1);
    let want = if x.col + x.col_span + y.col_span <= ncols {
        (x.col + x.col_span, x.row)
    } else {
        (0int, x.row + 1)
    };
    assert forall|j: int| 0 <= j < earlier.len() implies !areas_meet(
        #[trigger] earlier[j],
        Area { col: want.0, row: want.1, col_span: y.col_span, row_span: y.row_span },
    ) by {
        assert(earlier[j] == grid_cell(nodes, kids, ncols, j as nat));
        assert(nodes[kids[j].0 as int].style.grid_row_span <= 1);
        if j < n {
            law_grid_cells_advance(nodes, kids, ncols, j as nat, n);
        }
    }
    assert(slot_free(earlier, ncols, y.col_span, y.row_span, want));
}

/// Whether an area of the given spans in slot `(col, row)` meets none of `cells`.
fn is_free(cells: &Vec<GridCell>, col: usize, row: u128, col_span: usize, row_span: u32) -> (r: bool)
    requires
        col + col_span <= usize::MAX,
        row + row_span <= u128::MAX,
        forall|j: int|
            0 <= j < cells@.len() ==> {
                let c = #[trigger] cells@[j];
                &&& c.col + c.col_span <= usize::MAX
                &&& c.row + c.row_span <= u128::MAX
            },
    ensures
        r == forall|j: int|
            0 <= j < cells@.len() ==> !areas_meet(
                (#[trigger] cells@[j])@,
                Area {
                    col: col as int,
                    row: row as int,
                    col_span: col_span as int,
                    row_span: row_span as int,
                },
            ),
{
    let ghost area = Area {
        col: col as int,
        row: row as int,
        col_span: col_span as int,
        row_span: row_span as int,
    };
    let mut j: usize = 0;
    while j < cells.len()
        invariant
            0 <= j <= cells@.len(),
            col + col_span <= usize::MAX,
            row + row_span <= u128::MAX,
            area == (Area {
                col: col as int,
                row: row as int,
                col_span: col_span as int,
                row_span: row_span as int,
            }),
            forall|i: int|
                0 <= i < cells@.len() ==> {
                    let c = #[trigger] cells@[i];
                    &&& c.col + c.col_span <= usize::MAX
                    &&& c.row + c.row_span <= u128::MAX
                },
            forall|i: int| 0 <= i < j ==> !areas_meet((#[trigger] cells@[i])@, area),
        decreases cells@.len() - j,
    {
        let c: GridCell = cells[j];
        if c.col < col + col_span && col < c.col + c.col_span && c.row < row + row_span as u128
            && row < c.row + c.row_span as u128 {
            assert(areas_meet(cells@[j as int]@, area));
            return false;
        }
        j = j + 1;
    }
    true
}

/// Row-major auto-placement: each child takes the next free slot, wrapping to a
/// new row when its span does not fit the remaining columns. Returns the cells,
/// and how many rows they reach down.
pub fn place_grid_children<N: Num>(nodes: &Vec<Node<N>>, kids: &Vec<NodeId>, ncols: usize) -> (r: (
    Vec<GridCell>,
    u128,
))
    requires
        in_range(nodes@, kids@),
        ncols >= 1,
    ensures
        r.0@.len() == kids@.len(),
        forall|k: int|
            0 <= k < kids@.len() ==> (#[trigger] r.0@[k])@ == grid_cell(
                nodes@,
                kids@,
                ncols as int,
                k as nat,
            ),
        r.1 == rows_reached(nodes@, kids@, ncols as int, kids@.len()),
{
    let n: usize = kids.len();
    let mut cells: Vec<GridCell> = Vec::new();
    let mut col: usize = 0;
    let mut row: u128 = 0;
    let mut reached: u128 = 1;
    let mut k: usize = 0;
    while k < n
        invariant
            0 <= k <= n,
            n == kids@.len(),
            ncols >= 1,
            in_range(nodes@, kids@),
            cells@.len() == k,
            forall|j: int|
                0 <= j < k ==> (#[trigger] cells@[j])@ == grid_cell(
                    nodes@,
                    kids@,
                    ncols as int,
                    j as nat,
                ),
            (col as int, row as int) == flow_start(
                areas_upto(nodes@, kids@, ncols as int, k as nat),
            ),
            reached == rows_reached(nodes@, kids@, ncols as int, k as nat),
        decreases n - k,
    {
        let style: &Style<N> = &nodes[kids[k].0 as usize].style;
        let asked: u32 = style.grid_column_span;
        let least: u32 = if asked < 1 {
            1
        } else {
            asked
        };
        let col_span: usize = if (least as u64) < ncols as u64 {
            least as usize
        } else {
            ncols
        };
        let row_span: u32 = if style.grid_row_span < 1 {
            1
        } else {
            style.grid_row_span
        };
        let ghost earlier = areas_upto(nodes@, kids@, ncols as int, k as nat);
        let ghost start = flow_start(earlier);
        let ghost slot = next_slot(earlier, ncols as int, col_span as int, row_span as int);
        proof {
            lemma_areas(nodes@, kids@, ncols as int, k as nat);
            lemma_next_slot(nodes@, kids@, ncols as int, k as nat);
            assert(k * 0xffff_ffff <= 0xffff_ffff_ffff_ffff * 0xffff_ffff) by (nonlinear_arith)
                requires
                    k <= 0xffff_ffff_ffff_ffff,
            ;
            assert forall|j: int| 0 <= j < k implies ({
                let c = #[trigger] cells@[j];
                &&& c@ == earlier[j]
                &&& c.col + c.col_span <= usize::MAX
                &&& c.row + c.row_span <= u128::MAX
            }) by {
                assert(earlier[j] == grid_cell(nodes@, kids@, ncols as int, j as nat));
            }
        }
        while !(col_span <= ncols - col && is_free(&cells, col, row, col_span, row_span))
            invariant
                k < n,
                ncols >= 1,
                1 <= col_span <= ncols,
                row_span >= 1,
                cells@.len() == k,
                earlier.len() == k,
                0 <= col < ncols,
                slot_le((col as int, row as int), slot),
                slot_le(start, (col as int, row as int)),
                is_first_free(
                    earlier,
                    ncols as int,
                    col_span as int,
                    row_span as int,
                    start,
                    slot,
                ),
                slot.1 <= reached,
                reached <= 1 + 0xffff_ffff_ffff_ffff * 0xffff_ffff,
                forall|j: int|
                    0 <= j < k ==> {
                        let c = #[trigger] cells@[j];
                        &&& c@ == earlier[j]
                        &&& c.col + c.col_span <= usize::MAX
                        &&& c.row + c.row_span <= u128::MAX
                    },
            decreases reached - row, ncols - col,
        {
            proof {
                let here = (col as int, row as int);
                if here == slot {
                    assert(slot_free(
                        earlier,
                        ncols as int,
                        col_span as int,
                        row_span as int,
                        here,
                    ));
                    assert forall|j: int| 0 <= j < cells@.len() implies !areas_meet(
                        (#[trigger] cells@[j])@,
                        Area {
                            col: col as int,
                            row: row as int,
                            col_span: col_span as int,
                            row_span: row_span as int,
                        },
                    ) by {
                        assert(cells@[j]@ == earlier[j]);
                    }
                }
            }
            if col + 1 < ncols {
                col = col + 1;
            } else {
                col = 0;
                row = row + 1;
            }
        }
        proof {
            let here = (col as int, row as int);
            assert forall|j: int| 0 <= j < earlier.len() implies !areas_meet(
                #[trigger] earlier[j],
                Area {
                    col: col as int,
                    row: row as int,
                    col_span: col_span as int,
                    row_span: row_span as int,
                },
            ) by {
                assert(cells@[j]@ == earlier[j]);
            }
            assert(slot_free(earlier, ncols as int, col_span as int, row_span as int, here));
            assert(here == slot);
        }
        let cell = GridCell { col, row, col_span, row_span };
        assert(cell@ == grid_cell(nodes@, kids@, ncols as int, k as nat));
        cells.push(cell);
        let end: u128 = row + row_span as u128;
        if end > reached {
            reached = end;
        }
        k = k + 1;
    }
    (cells, reached)
}

// ---- tracks ----

/// The largest width (or height) of those of the first `n` children that stand
/// in track `i` alone.
pub open spec fn track_need<N: Num>(
    nodes: Seq<Node<N>>,
    sizes: Seq<Size<N>>,
    kids: Seq<NodeId>,
    ncols: int,
    columns: bool,
    i: int,
    n: nat,
) -> N
    decreases n,
{
    if n == 0 {
        whole(0)
    } else {
        let rest = track_need(nodes, sizes, kids, ncols, columns, i, (n - 1) as nat);
        let cell = grid_cell(nodes, kids, ncols, (n - 1) as nat);
        let size = sizes[kids[n - 1].0 as int];
        if columns && cell.col == i && cell.col_span == 1 {
            N::max_of(rest, size.w)
        } else if !columns && cell.row == i && cell.row_span == 1 {
            N::max_of(rest, size.h)
        } else {
            rest
        }
    }
}

/// What tracks are resolved against: the space for them, and what each automatic
/// track needs.
pub open spec fn settled_tracks<N: Num>(
    tracks: Seq<GridTrack<N>>,
    need: spec_fn(int) -> N,
    n: nat,
) -> N
    decreases n,
{
    if n == 0 {
        whole(0)
    } else {
        let rest = settled_tracks(tracks, need, (n - 1) as nat);
        match tracks[n - 1] {
            GridTrack::Fixed(v) => N::add_of(rest, v),
            GridTrack::Auto => N::add_of(rest, need(n - 1)),
            GridTrack::Fr(_) => rest,
        }
    }
}

/// The sum of the fractions' weights.
pub open spec fn fraction_sum<N: Num>(tracks: Seq<GridTrack<N>>, n: nat) -> N
    decreases n,
{
    if n == 0 {
        whole(0)
    } else {
        let rest = fraction_sum(tracks, (n - 1) as nat);
        match tracks[n - 1] {
            GridTrack::Fr(w) => N::add_of(rest, w),
            _ => rest,
        }
    }
}

/// The size of track `i`: its own, what it needs, or its share of the leftover.
pub open spec fn track_size<N: Num>(
    tracks: Seq<GridTrack<N>>,
    need: spec_fn(int) -> N,
    avail: N,
    i: int,
) -> N {
    match tracks[i] {
        GridTrack::Fixed(v) => v,
        GridTrack::Auto => need(i),
        GridTrack::Fr(w) => {
            let total = fraction_sum(tracks, tracks.len());
            if N::lt_of(whole(0), total) {
                let left = N::max_of(
                    N::sub_of(avail, settled_tracks(tracks, need, tracks.len())),
                    whole(0),
                );
                N::mul_of(left, N::div_of(w, total))
            } else {
                whole(0)
            }
        },
    }
}

/// Resolves tracks against `avail` pixels; `needs` says what each track needs if
/// it is automatic.
fn resolve_tracks<N: Num>(
    tracks: &Vec<GridTrack<N>>,
    avail: N,
    needs: &Vec<N>,
    Ghost(need): Ghost<spec_fn(int) -> N>,
) -> (r: Vec<N>)
    requires
        needs@.len() == tracks@.len(),
        forall|i: int| 0 <= i < tracks@.len() ==> #[trigger] needs@[i] == need(i),
    ensures
        r@.len() == tracks@.len(),
        forall|i: int|
            0 <= i < r@.len() ==> #[trigger] r@[i] == track_size(tracks@, need, avail, i),
{
    let n: usize = tracks.len();
    let zero: N = N::ratio(0, 1);
    let mut settled: N = zero;
    let mut fractions: N = zero;
    let mut k: usize = 0;
    while k < n
        invariant
            0 <= k <= n,
            n == tracks@.len(),
            needs@.len() == n,
            forall|i: int| 0 <= i < n ==> #[trigger] needs@[i] == need(i),
            settled == settled_tracks(tracks@, need, k as nat),
            fractions == fraction_sum(tracks@, k as nat),
        decreases n - k,
    {
        match tracks[k] {
            GridTrack::Fixed(v) => {
                settled = settled.plus(v);
            },
            GridTrack::Auto => {
                assert(needs@[k as int] == need(k as int));
                settled = settled.plus(needs[k]);
            },
            GridTrack::Fr(w) => {
                fractions = fractions.plus(w);
            },
        }
        k = k + 1;
    }
    let left: N = avail.minus(settled).greater_of(zero);
    let some: bool = zero.less(fractions);
    let mut out: Vec<N> = Vec::new();
    let mut i: usize = 0;
    while i < n
        invariant
            0 <= i <= n,
            n == tracks@.len(),
            needs@.len() == n,
            out@.len() == i,
            forall|j: int| 0 <= j < n ==> #[trigger] needs@[j] == need(j),
            zero == whole::<N>(0),
            settled == settled_tracks(tracks@, need, n as nat),
            fractions == fraction_sum(tracks@, n as nat),
            left == N::max_of(N::sub_of(avail, settled), zero),
            some == N::lt_of(zero, fractions),
            forall|j: int|
                0 <= j < i ==> #[trigger] out@[j] == track_size(tracks@, need, avail, j),
        decreases n - i,
    {
        let v: N = match tracks[i] {
            GridTrack::Fixed(v) => v,
            GridTrack::Auto => {
                assert(needs@[i as int] == need(i as int));
                needs[i]
            },
            GridTrack::Fr(w) => if some {
                left.times(w.over(fractions))
            } else {
                zero
            },
        };
        assert(v == track_size(tracks@, need, avail, i as int));
        out.push(v);
        i = i + 1;
    }
    out
}

/// Where track `k` starts.
pub open spec fn track_start<N: Num>(track_sizes: Seq<N>, gap: N, start: N, k: nat) -> N
    decreases k,
{
    if k == 0 {
        start
    } else {
        N::add_of(
            track_start(track_sizes, gap, start, (k - 1) as nat),
            N::add_of(track_sizes[k - 1], gap),
        )
    }
}

fn track_positions<N: Num>(track_sizes: &Vec<N>, gap: N, start: N) -> (r: Vec<N>)
    ensures
        r@.len() == track_sizes@.len(),
        forall|k: int|
            0 <= k < r@.len() ==> #[trigger] r@[k] == track_start(
                track_sizes@,
                gap,
                start,
                k as nat,
            ),
{
    let mut out: Vec<N> = Vec::new();
    let mut cursor: N = start;
    let mut k: usize = 0;
    while k < track_sizes.len()
        invariant
            0 <= k <= track_sizes@.len(),
            out@.len() == k,
            cursor == track_start(track_sizes@, gap, start, k as nat),
            forall|j: int|
                0 <= j < k ==> #[trigger] out@[j] == track_start(
                    track_sizes@,
                    gap,
                    start,
                    j as nat,
                ),
        decreases track_sizes@.len() - k,
    {
        out.push(cursor);
        cursor = cursor.plus(track_sizes[k].plus(gap));
        k = k + 1;
    }
    out
}

/// The sum of `v` from `a` up to `b`.
pub open spec fn sum_range<N: Num>(v: Seq<N>, a: int, b: int) -> N
    decreases b - a,
{
    if b <= a {
        whole(0)
    } else {
        N::add_of(sum_range(v, a, b - 1), v[b - 1])
    }
}

fn sum_of<N: Num>(v: &Vec<N>, a: usize, b: usize) -> (r: N)
    requires
        a <= b <= v@.len(),
    ensures
        r == sum_range(v@, a as int, b as int),
{
    let mut sum: N = N::ratio(0, 1);
    let mut k: usize = a;
    while k < b
        invariant
            a <= k <= b <= v@.len(),
            sum == sum_range(v@, a as int, k as int),
        decreases b - k,
    {
        sum = sum.plus(v[k]);
        k = k + 1;
    }
    sum
}

// ---- grids ----

/// A grid's columns: its template's, or one that takes all.
pub open spec fn grid_columns<N: Num>(style: Style<N>) -> Seq<GridTrack<N>> {
    if style.grid_template_columns@.len() == 0 {
        seq![GridTrack::Fr(whole(1))]
    } else {
        style.grid_template_columns@
    }
}

/// A grid's rows: its template's, with automatic ones added as far as children
/// reach.
pub open spec fn grid_rows<N: Num>(style: Style<N>, reached: int) -> Seq<GridTrack<N>> {
    let given = style.grid_template_rows@;
    if given.len() < reached {
        given + Seq::new((reached - given.len()) as nat, |i: int| GridTrack::Auto)
    } else {
        given
    }
}

/// The sizes of a grid's columns.
pub open spec fn column_sizes<N: Num>(
    nodes: Seq<Node<N>>,
    sizes: Seq<Size<N>>,
    style: Style<N>,
    kids: Seq<NodeId>,
    inner: Rect<N>,
) -> Seq<N> {
    let cols = grid_columns(style);
    let avail = N::max_of(
        N::sub_of(
            inner.w,
            N::mul_of(column_gap(style), N::count_of(less_one(cols.len()))),
        ),
        whole(0),
    );
    let need = |i: int|
        track_need(nodes, sizes, kids, cols.len() as int, true, i, kids.len());
    Seq::new(cols.len(), |i: int| track_size(cols, need, avail, i))
}

/// The sizes of a grid's rows.
pub open spec fn row_sizes<N: Num>(
    nodes: Seq<Node<N>>,
    sizes: Seq<Size<N>>,
    style: Style<N>,
    kids: Seq<NodeId>,
    inner: Rect<N>,
) -> Seq<N> {
    let ncols = grid_columns(style).len() as int;
    let rows = grid_rows(style, rows_reached(nodes, kids, ncols, kids.len()));
    let avail = N::max_of(
        N::sub_of(inner.h, N::mul_of(row_gap(style), N::count_of(less_one(rows.len())))),
        whole(0),
    );
    let need = |i: int| track_need(nodes, sizes, kids, ncols, false, i, kids.len());
    Seq::new(rows.len(), |i: int| track_size(rows, need, avail, i))
}

pub open spec fn at_most(a: int, b: int) -> int {
    if a < b {
        a
    } else {
        b
    }
}

/// The extent of the tracks from `a` up to `b`, with the gaps between them.
pub open spec fn span_extent<N: Num>(tracks: Seq<N>, gap: N, a: int, b: int) -> N {
    N::add_of(sum_range(tracks, a, b), N::mul_of(gap, N::count_of(less_one((b - a) as nat))))
}

/// The places of a grid's children.
pub open spec fn grid_slots<N: Num>(
    nodes: Seq<Node<N>>,
    sizes: Seq<Size<N>>,
    style: Style<N>,
    kids: Seq<NodeId>,
    inner: Rect<N>,
    scroll: Point<N>,
) -> Seq<Slot<N>> {
    let ncols = grid_columns(style).len() as int;
    let widths = column_sizes(nodes, sizes, style, kids, inner);
    let heights = row_sizes(nodes, sizes, style, kids, inner);
    Seq::new(
        kids.len(),
        |k: int|
            {
                let cell = grid_cell(nodes, kids, ncols, k as nat);
                let col_end = at_most(cell.col + cell.col_span, widths.len() as int);
                let row_end = at_most(cell.row + cell.row_span, heights.len() as int);
                Slot {
                    id: kids[k],
                    rect: panned(
                        style.scroll_x,
                        style.scroll_y,
                        scroll,
                        Rect {
                            x: track_start(widths, column_gap(style), inner.x, cell.col as nat),
                            y: track_start(heights, row_gap(style), inner.y, cell.row as nat),
                            w: span_extent(widths, column_gap(style), cell.col as int, col_end),
                            h: span_extent(heights, row_gap(style), cell.row as int, row_end),
                        },
                    ),
                    deep: true,
                }
            },
    )
}

/// The extent of a grid's content.
pub open spec fn grid_content<N: Num>(
    nodes: Seq<Node<N>>,
    sizes: Seq<Size<N>>,
    style: Style<N>,
    kids: Seq<NodeId>,
    inner: Rect<N>,
) -> Size<N> {
    let widths = column_sizes(nodes, sizes, style, kids, inner);
    let heights = row_sizes(nodes, sizes, style, kids, inner);
    Size {
        w: N::add_of(
            sum_range(widths, 0, widths.len() as int),
            N::mul_of(column_gap(style), N::count_of(less_one(widths.len()))),
        ),
        h: N::add_of(
            sum_range(heights, 0, heights.len() as int),
            N::mul_of(row_gap(style), N::count_of(less_one(heights.len()))),
        ),
    }
}

/// What each of `n` tracks needs if it is automatic.
fn needs_of<N: Num>(
    nodes: &Vec<Node<N>>,
    sizes: &Vec<Size<N>>,
    kids: &Vec<NodeId>,
    cells: &Vec<GridCell>,
    ncols: usize,
    columns: bool,
    n: usize,
) -> (r: Vec<N>)
    requires
        in_range(nodes@, kids@),
        sizes@.len() == nodes@.len(),
        cells@.len() == kids@.len(),
        forall|k: int|
            0 <= k < kids@.len() ==> (#[trigger] cells@[k])@ == grid_cell(
                nodes@,
                kids@,
                ncols as int,
                k as nat,
            ),
    ensures
        r@.len() == n,
        forall|i: int|
            0 <= i < n ==> #[trigger] r@[i] == track_need(
                nodes@,
                sizes@,
                kids@,
                ncols as int,
                columns,
                i,
                kids@.len(),
            ),
{
    let mut out: Vec<N> = Vec::new();
    let mut i: usize = 0;
    while i < n
        invariant
            0 <= i <= n,
            out@.len() == i,
            in_range(nodes@, kids@),
            sizes@.len() == nodes@.len(),
            cells@.len() == kids@.len(),
            forall|k: int|
                0 <= k < kids@.len() ==> (#[trigger] cells@[k])@ == grid_cell(
                    nodes@,
                    kids@,
                    ncols as int,
                    k as nat,
                ),
            forall|j: int|
                0 <= j < i ==> #[trigger] out@[j] == track_need(
                    nodes@,
                    sizes@,
                    kids@,
                    ncols as int,
                    columns,
                    j,
                    kids@.len(),
                ),
        decreases n - i,
    {
        let mut v: N = N::ratio(0, 1);
        let mut k: usize = 0;
        while k < kids.len()
            invariant
                0 <= k <= kids@.len(),
                in_range(nodes@, kids@),
                sizes@.len() == nodes@.len(),
                cells@.len() == kids@.len(),
                forall|k: int|
                    0 <= k < kids@.len() ==> (#[trigger] cells@[k])@ == grid_cell(
                        nodes@,
                        kids@,
                        ncols as int,
                        k as nat,
                    ),
                v == track_need(
                    nodes@,
                    sizes@,
                    kids@,
                    ncols as int,
                    columns,
                    i as int,
                    k as nat,
                ),
            decreases kids@.len() - k,
        {
            let cell: GridCell = cells[k];
            let size: Size<N> = sizes[kids[k].0 as usize];
            if columns {
                if cell.col == i && cell.col_span == 1 {
                    v = v.greater_of(size.w);
                }
            } else if cell.row == i as u128 && cell.row_span == 1 {
                v = v.greater_of(size.h);
            }
            k = k + 1;
        }
        out.push(v);
        i = i + 1;
    }
    out
}

/// Places the children of a grid.
pub fn arrange_grid<N: Num>(
    nodes: &Vec<Node<N>>,
    sizes: &Vec<Size<N>>,
    style: &Style<N>,
    kids: &Vec<NodeId>,
    inner: Rect<N>,
    scroll: Point<N>,
) -> (r: (Vec<Slot<N>>, Size<N>))
    requires
        in_range(nodes@, kids@),
        sizes@.len() == nodes@.len(),
    ensures
        r.0@ == grid_slots(nodes@, sizes@, *style, kids@, inner, scroll),
        r.1 == grid_content(nodes@, sizes@, *style, kids@, inner),
{
    let zero: N = N::ratio(0, 1);
    let cols: Vec<GridTrack<N>> = if style.grid_template_columns.len() == 0 {
        let mut one: Vec<GridTrack<N>> = Vec::new();
        one.push(GridTrack::Fr(N::ratio(1, 1)));
        assert(one@ =~= grid_columns(*style));
        one
    } else {
        copy_tracks(&style.grid_template_columns)
    };
    let ncols: usize = cols.len();
    let (cells, reached) = place_grid_children(nodes, kids, ncols);
    let mut rows: Vec<GridTrack<N>> = copy_tracks(&style.grid_template_rows);
    let ghost want_rows = grid_rows(*style, reached as int);
    while (rows.len() as u128) < reached
        invariant
            style.grid_template_rows@.len() <= rows@.len() <= want_rows.len(),
            want_rows == grid_rows(*style, reached as int),
            want_rows.len() >= reached,
            want_rows.len() == reached || want_rows.len() == rows@.len(),
            rows@ =~= want_rows.take(rows@.len() as int),
        decreases reached - rows@.len(),
    {
        rows.push(GridTrack::Auto);
    }
    assert(rows@ =~= want_rows);
    let gap_x: N = match style.gap_x {
        Some(g) => g,
        None => style.gap,
    };
    let gap_y: N = match style.gap_y {
        Some(g) => g,
        None => style.gap,
    };
    let gaps_x: N = gap_x.times(N::count(one_less(ncols)));
    let avail_w: N = inner.w.minus(gaps_x).greater_of(zero);
    let needs_w: Vec<N> = needs_of(nodes, sizes, kids, &cells, ncols, true, ncols);
    let ghost need_w = |i: int|
        track_need(nodes@, sizes@, kids@, ncols as int, true, i, kids@.len());
    let widths: Vec<N> = resolve_tracks(&cols, avail_w, &needs_w, Ghost(need_w));
    let gaps_y: N = gap_y.times(N::count(one_less(rows.len())));
    let avail_h: N = inner.h.minus(gaps_y).greater_of(zero);
    let needs_h: Vec<N> = needs_of(nodes, sizes, kids, &cells, ncols, false, rows.len());
    let ghost need_h = |i: int|
        track_need(nodes@, sizes@, kids@, ncols as int, false, i, kids@.len());
    let heights: Vec<N> = resolve_tracks(&rows, avail_h, &needs_h, Ghost(need_h));
    proof {
        lemma_same_track_sizes(
            cols@,
            need_w,
            |i: int|
                track_need(nodes@, sizes@, kids@, grid_columns(*style).len() as int, true, i, kids@.len()),
            avail_w,
        );
        assert(widths@ =~= column_sizes(nodes@, sizes@, *style, kids@, inner));
        lemma_same_track_sizes(
            rows@,
            need_h,
            |i: int|
                track_need(
                    nodes@,
                    sizes@,
                    kids@,
                    grid_columns(*style).len() as int,
                    false,
                    i,
                    kids@.len(),
                ),
            avail_h,
        );
        assert(heights@ =~= row_sizes(nodes@, sizes@, *style, kids@, inner));
    }
    let xs: Vec<N> = track_positions(&widths, gap_x, inner.x);
    let ys: Vec<N> = track_positions(&heights, gap_y, inner.y);
    let ghost want = grid_slots(nodes@, sizes@, *style, kids@, inner, scroll);
    let mut slots: Vec<Slot<N>> = Vec::new();
    let mut k: usize = 0;
    while k < kids.len()
        invariant
            0 <= k <= kids@.len(),
            cells@.len() == kids@.len(),
            ncols >= 1,
            ncols == grid_columns(*style).len(),
            widths@ == column_sizes(nodes@, sizes@, *style, kids@, inner),
            heights@ == row_sizes(nodes@, sizes@, *style, kids@, inner),
            widths@.len() == ncols,
            heights@.len() >= reached,
            reached == rows_reached(nodes@, kids@, ncols as int, kids@.len()),
            xs@.len() == widths@.len(),
            ys@.len() == heights@.len(),
            gap_x == column_gap(*style),
            gap_y == row_gap(*style),
            forall|j: int|
                0 <= j < xs@.len() ==> #[trigger] xs@[j] == track_start(
                    widths@,
                    gap_x,
                    inner.x,
                    j as nat,
                ),
            forall|j: int|
                0 <= j < ys@.len() ==> #[trigger] ys@[j] == track_start(
                    heights@,
                    gap_y,
                    inner.y,
                    j as nat,
                ),
            forall|j: int|
                0 <= j < kids@.len() ==> (#[trigger] cells@[j])@ == grid_cell(
                    nodes@,
                    kids@,
                    ncols as int,
                    j as nat,
                ),
            want == grid_slots(nodes@, sizes@, *style, kids@, inner, scroll),
            slots@ == want.take(k as int),
        decreases kids@.len() - k,
    {
        let cell: GridCell = cells[k];
        proof {
            law_grid_cells_stay_inside(nodes@, kids@, ncols as int, k as nat);
            assert(cell@ == grid_cell(nodes@, kids@, ncols as int, k as nat));
        }
        let col_end: usize = cell.col + cell.col_span;
        let total: usize = heights.len();
        let row: usize = cell.row as usize;
        let row_end: usize = if (cell.row_span as u128) < (total - row) as u128 {
            row + cell.row_span as usize
        } else {
            total
        };
        let w: N = sum_of(&widths, cell.col, col_end).plus(
            gap_x.times(N::count(one_less(col_end - cell.col))),
        );
        let h: N = sum_of(&heights, row, row_end).plus(
            gap_y.times(N::count(one_less(row_end - row))),
        );
        let rect: Rect<N> = Rect { x: xs[cell.col], y: ys[row], w, h };
        let slot = Slot {
            id: kids[k],
            rect: pan(style.scroll_x, style.scroll_y, scroll, rect),
            deep: true,
        };
        assert(slot == want[k as int]);
        slots.push(slot);
        k = k + 1;
        assert(slots@ =~= want.take(k as int));
    }
    assert(want.take(k as int) =~= want);
    let size: Size<N> = Size {
        w: sum_of(&widths, 0, widths.len()).plus(gaps_x),
        h: sum_of(&heights, 0, heights.len()).plus(gaps_y),
    };
    (slots, size)
}

/// Tracks resolve alike for needs that are alike.
proof fn lemma_same_track_sizes<N: Num>(
    tracks: Seq<GridTrack<N>>,
    a: spec_fn(int) -> N,
    b: spec_fn(int) -> N,
    avail: N,
)
    requires
        forall|i: int| 0 <= i < tracks.len() ==> #[trigger] a(i) == b(i),
    ensures
        forall|i: int|
            0 <= i < tracks.len() ==> #[trigger] track_size(tracks, a, avail, i) == track_size(
                tracks,
                b,
                avail,
                i,
            ),
{
    lemma_same_settled(tracks, a, b, tracks.len());
    assert forall|i: int| 0 <= i < tracks.len() implies #[trigger] track_size(tracks, a, avail, i)
        == track_size(tracks, b, avail, i) by {
        assert(a(i) == b(i));
    }
}

proof fn lemma_same_settled<N: Num>(
    tracks: Seq<GridTrack<N>>,
    a: spec_fn(int) -> N,
    b: spec_fn(int) -> N,
    n: nat,
)
    requires
        n <= tracks.len(),
        forall|i: int| 0 <= i < tracks.len() ==> #[trigger] a(i) == b(i),
    ensures
        settled_tracks(tracks, a, n) == settled_tracks(tracks, b, n),
    decreases n,
{
    if n > 0 {
        lemma_same_settled(tracks, a, b, (n - 1) as nat);
        assert(a(n - 1) == b(n - 1));
    }
}

// ---- tables ----

/// The children of a node, by id.
pub open spec fn children_of<N>(nodes: Seq<Node<N>>, id: NodeId) -> Seq<NodeId> {
    nodes[id.0 as int].children@
}

/// A table's header cells: the children of its first child.
pub open spec fn header_cells<N>(nodes: Seq<Node<N>>, kids: Seq<NodeId>) -> Seq<NodeId> {
    if kids.len() == 0 {
        Seq::empty()
    } else {
        children_of(nodes, kids[0])
    }
}

/// A table's cells, row by row: the children of its second child.
pub open spec fn body_cells<N>(nodes: Seq<Node<N>>, kids: Seq<NodeId>) -> Seq<NodeId> {
    if kids.len() < 2 {
        Seq::empty()
    } else {
        children_of(nodes, kids[1])
    }
}

/// The widest of header cell `c` and those of the first `n` cells that stand in
/// column `c`.
pub open spec fn widest<N: Num>(
    sizes: Seq<Size<N>>,
    head: Seq<NodeId>,
    body: Seq<NodeId>,
    c: int,
    n: nat,
) -> N
    decreases n,
{
    if n == 0 {
        sizes[head[c].0 as int].w
    } else {
        let rest = widest(sizes, head, body, c, (n - 1) as nat);
        if (n - 1) % (head.len() as int) == c {
            N::max_of(rest, sizes[body[n - 1].0 as int].w)
        } else {
            rest
        }
    }
}

/// The natural widths of a table's columns.
pub open spec fn natural_columns<N: Num>(
    sizes: Seq<Size<N>>,
    head: Seq<NodeId>,
    body: Seq<NodeId>,
) -> Seq<N> {
    Seq::new(head.len(), |c: int| widest(sizes, head, body, c, body.len()))
}

/// The widths of a table's columns: natural ones, or even shares if none has any
/// width.
pub open spec fn table_columns<N: Num>(
    sizes: Seq<Size<N>>,
    head: Seq<NodeId>,
    body: Seq<NodeId>,
    inner: Rect<N>,
) -> Seq<N> {
    let natural = natural_columns(sizes, head, body);
    if forall|c: int| 0 <= c < natural.len() ==> N::eq_of(#[trigger] natural[c], whole(0)) {
        Seq::new(head.len(), |c: int| N::div_of(inner.w, N::count_of(head.len())))
    } else {
        natural
    }
}

/// The tallest of the cells from `a` up to `b`.
pub open spec fn tallest<N: Num>(sizes: Seq<Size<N>>, cells: Seq<NodeId>, a: int, b: int) -> N
    decreases b - a,
{
    if b <= a {
        whole(0)
    } else {
        N::max_of(tallest(sizes, cells, a, b - 1), sizes[cells[b - 1].0 as int].h)
    }
}

/// Where column `c` starts: columns follow each other without gaps.
pub open spec fn column_start<N: Num>(widths: Seq<N>, start: N, c: nat) -> N
    decreases c,
{
    if c == 0 {
        start
    } else {
        N::add_of(column_start(widths, start, (c - 1) as nat), widths[c - 1])
    }
}

/// Where row `r` starts.
pub open spec fn row_start<N: Num>(
    sizes: Seq<Size<N>>,
    body: Seq<NodeId>,
    ncols: int,
    start: N,
    r: nat,
) -> N
    decreases r,
{
    if r == 0 {
        start
    } else {
        N::add_of(
            row_start(sizes, body, ncols, start, (r - 1) as nat),
            tallest(sizes, body, (r - 1) * ncols, (r - 1) * ncols + ncols),
        )
    }
}

/// Where the `k`th of the children below the table's body starts.
pub open spec fn extra_start<N: Num>(sizes: Seq<Size<N>>, kids: Seq<NodeId>, start: N, k: nat) -> N
    decreases k,
{
    if k == 0 {
        start
    } else {
        N::add_of(
            extra_start(sizes, kids, start, (k - 1) as nat),
            sizes[kids[(k + 1) as int].0 as int].h,
        )
    }
}

/// How many full rows a table has.
pub open spec fn table_rows(cells: nat, ncols: nat) -> nat {
    if ncols == 0 {
        0
    } else {
        (cells / ncols) as nat
    }
}

/// The measures of a table.
pub struct Table<N> {
    pub head: Seq<NodeId>,
    pub body: Seq<NodeId>,
    pub widths: Seq<N>,
    pub total_w: N,
    pub header_h: N,
    pub body_y: N,
    pub nrows: nat,
    pub end_y: N,
}

pub open spec fn table_of<N: Num>(
    nodes: Seq<Node<N>>,
    sizes: Seq<Size<N>>,
    kids: Seq<NodeId>,
    inner: Rect<N>,
) -> Table<N> {
    let head = header_cells(nodes, kids);
    let body = body_cells(nodes, kids);
    let natural = natural_columns(sizes, head, body);
    let header_h = tallest(sizes, head, 0, head.len() as int);
    let body_y = N::add_of(inner.y, header_h);
    let nrows = table_rows(body.len(), head.len());
    Table {
        head,
        body,
        widths: table_columns(sizes, head, body, inner),
        total_w: N::max_of(sum_range(natural, 0, natural.len() as int), inner.w),
        header_h,
        body_y,
        nrows,
        end_y: row_start(sizes, body, head.len() as int, body_y, nrows),
    }
}

/// The places of the header cells.
pub open spec fn header_slots<N: Num>(t: Table<N>, inner: Rect<N>) -> Seq<Slot<N>> {
    Seq::new(
        t.head.len(),
        |c: int|
            Slot {
                id: t.head[c],
                rect: Rect {
                    x: column_start(t.widths, inner.x, c as nat),
                    y: inner.y,
                    w: t.widths[c],
                    h: t.header_h,
                },
                deep: true,
            },
    )
}

/// The place of cell `i`, counted row by row.
pub open spec fn body_slot<N: Num>(
    sizes: Seq<Size<N>>,
    t: Table<N>,
    inner: Rect<N>,
    r: int,
    c: int,
) -> Slot<N> {
    let ncols = t.head.len() as int;
    Slot {
        id: t.body[r * ncols + c],
        rect: Rect {
            x: column_start(t.widths, inner.x, c as nat),
            y: row_start(sizes, t.body, ncols, t.body_y, r as nat),
            w: t.widths[c],
            h: tallest(sizes, t.body, r * ncols, r * ncols + ncols),
        },
        deep: true,
    }
}

/// The places of the cells of one row.
pub open spec fn row_slots<N: Num>(
    sizes: Seq<Size<N>>,
    t: Table<N>,
    inner: Rect<N>,
    r: int,
) -> Seq<Slot<N>> {
    Seq::new(t.head.len(), |c: int| body_slot(sizes, t, inner, r, c))
}

/// The places of the cells of the first `n` rows.
pub open spec fn rows_slots<N: Num>(
    sizes: Seq<Size<N>>,
    t: Table<N>,
    inner: Rect<N>,
    n: nat,
) -> Seq<Slot<N>>
    decreases n,
{
    if n == 0 {
        Seq::empty()
    } else {
        rows_slots(sizes, t, inner, (n - 1) as nat) + row_slots(sizes, t, inner, n - 1)
    }
}

/// The places of the children below the body, each as wide as the table.
pub open spec fn extra_slots<N: Num>(
    sizes: Seq<Size<N>>,
    t: Table<N>,
    kids: Seq<NodeId>,
    inner: Rect<N>,
) -> Seq<Slot<N>> {
    Seq::new(
        if kids.len() < 2 {
            0
        } else {
            (kids.len() - 2) as nat
        },
        |k: int|
            Slot {
                id: kids[k + 2],
                rect: Rect {
                    x: inner.x,
                    y: extra_start(sizes, kids, t.end_y, k as nat),
                    w: t.total_w,
                    h: sizes[kids[k + 2].0 as int].h,
                },
                deep: true,
            },
    )
}

/// The place of the headers container, around the header cells.
pub open spec fn headers_slot<N: Num>(t: Table<N>, kids: Seq<NodeId>, inner: Rect<N>) -> Slot<N> {
    Slot {
        id: kids[0],
        rect: Rect {
            x: inner.x,
            y: inner.y,
            w: N::max_of(
                t.total_w,
                N::sub_of(column_start(t.widths, inner.x, t.head.len()), inner.x),
            ),
            h: t.header_h,
        },
        deep: false,
    }
}

/// The place of the rows container, around the cells.
pub open spec fn rows_slot<N: Num>(t: Table<N>, kids: Seq<NodeId>, inner: Rect<N>) -> Slot<N> {
    Slot {
        id: kids[1],
        rect: Rect {
            x: inner.x,
            y: N::add_of(inner.y, t.header_h),
            w: t.total_w,
            h: N::sub_of(t.end_y, N::add_of(inner.y, t.header_h)),
        },
        deep: false,
    }
}

/// The places in a table: the header cells and their container, the cells row by
/// row and theirs, then whatever follows.
pub open spec fn table_slots<N: Num>(
    nodes: Seq<Node<N>>,
    sizes: Seq<Size<N>>,
    kids: Seq<NodeId>,
    inner: Rect<N>,
) -> Seq<Slot<N>> {
    let t = table_of(nodes, sizes, kids, inner);
    if kids.len() == 0 {
        Seq::empty()
    } else {
        header_slots(t, inner) + seq![headers_slot(t, kids, inner)] + rows_slots(
            sizes,
            t,
            inner,
            t.nrows,
        ) + (if kids.len() < 2 {
            Seq::empty()
        } else {
            seq![rows_slot(t, kids, inner)]
        }) + extra_slots(sizes, t, kids, inner)
    }
}

/// The extent of a table's content.
pub open spec fn table_content<N: Num>(
    nodes: Seq<Node<N>>,
    sizes: Seq<Size<N>>,
    kids: Seq<NodeId>,
    inner: Rect<N>,
) -> Size<N> {
    if kids.len() == 0 {
        no_size()
    } else {
        let t = table_of(nodes, sizes, kids, inner);
        Size {
            w: t.total_w,
            h: N::sub_of(
                extra_start(sizes, kids, t.end_y, extra_slots(sizes, t, kids, inner).len()),
                inner.y,
            ),
        }
    }
}

fn tallest_of<N: Num>(sizes: &Vec<Size<N>>, cells: &Vec<NodeId>, a: usize, b: usize) -> (r: N)
    requires
        a <= b <= cells@.len(),
        forall|k: int| 0 <= k < cells@.len() ==> (#[trigger] cells@[k]).0 < sizes@.len(),
    ensures
        r == tallest(sizes@, cells@, a as int, b as int),
{
    let mut h: N = N::ratio(0, 1);
    let mut k: usize = a;
    while k < b
        invariant
            a <= k <= b <= cells@.len(),
            forall|k: int| 0 <= k < cells@.len() ==> (#[trigger] cells@[k]).0 < sizes@.len(),
            h == tallest(sizes@, cells@, a as int, k as int),
        decreases b - k,
    {
        h = h.greater_of(sizes[cells[k].0 as usize].h);
        k = k + 1;
    }
    h
}

fn widest_of<N: Num>(
    sizes: &Vec<Size<N>>,
    head: &Vec<NodeId>,
    body: &Vec<NodeId>,
    c: usize,
) -> (r: N)
    requires
        c < head@.len(),
        forall|k: int| 0 <= k < head@.len() ==> (#[trigger] head@[k]).0 < sizes@.len(),
        forall|k: int| 0 <= k < body@.len() ==> (#[trigger] body@[k]).0 < sizes@.len(),
    ensures
        r == widest(sizes@, head@, body@, c as int, body@.len()),
{
    let mut w: N = sizes[head[c].0 as usize].w;
    let mut k: usize = 0;
    while k < body.len()
        invariant
            0 <= k <= body@.len(),
            c < head@.len(),
            forall|k: int| 0 <= k < body@.len() ==> (#[trigger] body@[k]).0 < sizes@.len(),
            w == widest(sizes@, head@, body@, c as int, k as nat),
        decreases body@.len() - k,
    {
        if k % head.len() == c {
            w = w.greater_of(sizes[body[k].0 as usize].w);
        }
        k = k + 1;
    }
    w
}

/// A copy of a node's list of children.
fn copy_ids(v: &Vec<NodeId>) -> (r: Vec<NodeId>)
    ensures
        r@ == v@,
{
    let mut out: Vec<NodeId> = Vec::new();
    let mut k: usize = 0;
    while k < v.len()
        invariant
            0 <= k <= v@.len(),
            out@ =~= v@.take(k as int),
        decreases v@.len() - k,
    {
        out.push(v[k]);
        k = k + 1;
    }
    assert(out@ =~= v@);
    out
}

/// The widths of a table's columns, and the sum of the natural ones.
fn columns_of<N: Num>(
    sizes: &Vec<Size<N>>,
    head: &Vec<NodeId>,
    body: &Vec<NodeId>,
    inner: Rect<N>,
) -> (r: (Vec<N>, N))
    requires
        forall|k: int| 0 <= k < head@.len() ==> (#[trigger] head@[k]).0 < sizes@.len(),
        forall|k: int| 0 <= k < body@.len() ==> (#[trigger] body@[k]).0 < sizes@.len(),
    ensures
        r.0@ == table_columns(sizes@, head@, body@, inner),
        r.1 == sum_range(natural_columns(sizes@, head@, body@), 0, head@.len() as int),
{
    let n: usize = head.len();
    let zero: N = N::ratio(0, 1);
    let ghost natural = natural_columns(sizes@, head@, body@);
    let mut widths: Vec<N> = Vec::new();
    let mut none: bool = true;
    let mut c: usize = 0;
    while c < n
        invariant
            0 <= c <= n,
            n == head@.len(),
            zero == whole::<N>(0),
            forall|k: int| 0 <= k < head@.len() ==> (#[trigger] head@[k]).0 < sizes@.len(),
            forall|k: int| 0 <= k < body@.len() ==> (#[trigger] body@[k]).0 < sizes@.len(),
            natural == natural_columns(sizes@, head@, body@),
            widths@ == natural.take(c as int),
            none == forall|k: int| 0 <= k < c ==> N::eq_of(#[trigger] natural[k], whole(0)),
        decreases n - c,
    {
        let w: N = widest_of(sizes, head, body, c);
        assert(natural[c as int] == w);
        none = none && w.same(zero);
        widths.push(w);
        c = c + 1;
        assert(widths@ =~= natural.take(c as int));
    }
    assert(natural.take(n as int) =~= natural);
    let sum: N = sum_of(&widths, 0, n);
    if !none {
        assert(!(forall|k: int|
            0 <= k < natural.len() ==> N::eq_of(#[trigger] natural[k], whole(0))));
        return (widths, sum);
    }
    let mut even: Vec<N> = Vec::new();
    let mut k: usize = 0;
    let ghost shares = Seq::new(
        head@.len(),
        |c: int| N::div_of(inner.w, N::count_of(head@.len())),
    );
    while k < n
        invariant
            0 <= k <= n,
            n == head@.len(),
            shares == Seq::new(
                head@.len(),
                |c: int| N::div_of(inner.w, N::count_of(head@.len())),
            ),
            even@ =~= shares.take(k as int),
        decreases n - k,
    {
        even.push(inner.w.over(N::count(n)));
        k = k + 1;
    }
    assert(even@ =~= table_columns(sizes@, head@, body@, inner));
    (even, sum)
}

/// Places what is in a table. Its columns are as wide as their widest cell, the
/// header included.
pub fn arrange_data_grid<N: Num>(
    nodes: &Vec<Node<N>>,
    sizes: &Vec<Size<N>>,
    kids: &Vec<NodeId>,
    inner: Rect<N>,
) -> (r: (Vec<Slot<N>>, Size<N>))
    requires
        is_forest(nodes@),
        in_range(nodes@, kids@),
        sizes@.len() == nodes@.len(),
    ensures
        r.0@ == table_slots(nodes@, sizes@, kids@, inner),
        r.1 == table_content(nodes@, sizes@, kids@, inner),
{
    let mut slots: Vec<Slot<N>> = Vec::new();
    if kids.len() == 0 {
        assert(slots@ =~= table_slots(nodes@, sizes@, kids@, inner));
        return (slots, Size::default());
    }
    let ghost t = table_of(nodes@, sizes@, kids@, inner);
    let ghost rank = rank_of(nodes@);
    let head: Vec<NodeId> = copy_ids(&nodes[kids[0].0 as usize].children);
    let body: Vec<NodeId> = if kids.len() < 2 {
        Vec::new()
    } else {
        copy_ids(&nodes[kids[1].0 as usize].children)
    };
    proof {
        assert(ranked(nodes@, rank));
        assert(head@ =~= t.head);
        assert(body@ =~= t.body);
        assert forall|k: int| 0 <= k < head@.len() implies (#[trigger] head@[k]).0
            < sizes@.len() by {
            assert(nodes@[kids@[0].0 as int].children@[k] == head@[k]);
        }
        assert forall|k: int| 0 <= k < body@.len() implies (#[trigger] body@[k]).0
            < sizes@.len() by {
            assert(nodes@[kids@[1].0 as int].children@[k] == body@[k]);
        }
    }
    let ncols: usize = head.len();
    let nrows: usize = if ncols > 0 {
        body.len() / ncols
    } else {
        0
    };
    let (widths, natural_w) = columns_of(sizes, &head, &body, inner);
    let total_w: N = natural_w.greater_of(inner.w);
    let header_h: N = tallest_of(sizes, &head, 0, ncols);
    let mut x: N = inner.x;
    let mut c: usize = 0;
    let ghost hs = header_slots(t, inner);
    while c < ncols
        invariant
            0 <= c <= ncols,
            ncols == head@.len(),
            head@ == t.head,
            widths@ == t.widths,
            widths@.len() == ncols,
            header_h == t.header_h,
            hs == header_slots(t, inner),
            x == column_start(t.widths, inner.x, c as nat),
            slots@ == hs.take(c as int),
        decreases ncols - c,
    {
        let slot = Slot {
            id: head[c],
            rect: Rect { x, y: inner.y, w: widths[c], h: header_h },
            deep: true,
        };
        assert(slot == hs[c as int]);
        slots.push(slot);
        x = x.plus(widths[c]);
        c = c + 1;
        assert(slots@ =~= hs.take(c as int));
    }
    assert(hs.take(ncols as int) =~= hs);
    slots.push(
        Slot {
            id: kids[0],
            rect: Rect {
                x: inner.x,
                y: inner.y,
                w: total_w.greater_of(x.minus(inner.x)),
                h: header_h,
            },
            deep: false,
        },
    );
    let ghost top = hs + seq![headers_slot(t, kids@, inner)];
    assert(slots@ =~= top);
    let body_y: N = inner.y.plus(header_h);
    let mut y: N = body_y;
    let mut r: usize = 0;
    assert(top + rows_slots(sizes@, t, inner, 0) =~= top);
    while r < nrows
        invariant
            0 <= r <= nrows,
            ncols == head@.len(),
            nrows == t.nrows,
            nrows == table_rows(body@.len(), ncols as nat),
            head@ == t.head,
            body@ == t.body,
            widths@ == t.widths,
            widths@.len() == ncols,
            body_y == t.body_y,
            forall|k: int| 0 <= k < body@.len() ==> (#[trigger] body@[k]).0 < sizes@.len(),
            y == row_start(sizes@, t.body, ncols as int, t.body_y, r as nat),
            slots@ == top + rows_slots(sizes@, t, inner, r as nat),
        decreases nrows - r,
    {
        proof {
            lemma_row_in_range(body@.len(), ncols as nat, r as nat);
        }
        let from: usize = r * ncols;
        let row_h: N = tallest_of(sizes, &body, from, from + ncols);
        let mut cx: N = inner.x;
        let mut k: usize = 0;
        let ghost before = slots@;
        let ghost rs = row_slots(sizes@, t, inner, r as int);
        assert(before + rs.take(0) =~= before);
        while k < ncols
            invariant
                0 <= k <= ncols,
                ncols == head@.len(),
                from == r * ncols,
                from + ncols <= body@.len(),
                head@ == t.head,
                body@ == t.body,
                widths@ == t.widths,
                widths@.len() == ncols,
                y == row_start(sizes@, t.body, ncols as int, t.body_y, r as nat),
                row_h == tallest(sizes@, t.body, r * ncols, r * ncols + ncols),
                rs == row_slots(sizes@, t, inner, r as int),
                cx == column_start(t.widths, inner.x, k as nat),
                slots@ == before + rs.take(k as int),
            decreases ncols - k,
        {
            let slot = Slot {
                id: body[from + k],
                rect: Rect { x: cx, y, w: widths[k], h: row_h },
                deep: true,
            };
            assert(slot == rs[k as int]);
            slots.push(slot);
            cx = cx.plus(widths[k]);
            k = k + 1;
            assert(slots@ =~= before + rs.take(k as int));
        }
        assert(rs.take(ncols as int) =~= rs);
        y = y.plus(row_h);
        r = r + 1;
        assert(slots@ =~= top + rows_slots(sizes@, t, inner, r as nat));
    }
    let ghost mid = top + rows_slots(sizes@, t, inner, t.nrows);
    let ghost es = extra_slots(sizes@, t, kids@, inner);
    if kids.len() < 2 {
        proof {
            assert(es =~= Seq::<Slot<N>>::empty());
            assert(slots@ =~= table_slots(nodes@, sizes@, kids@, inner));
        }
        return (slots, Size { w: total_w, h: y.minus(inner.y) });
    }
    slots.push(
        Slot {
            id: kids[1],
            rect: Rect {
                x: inner.x,
                y: inner.y.plus(header_h),
                w: total_w,
                h: y.minus(inner.y.plus(header_h)),
            },
            deep: false,
        },
    );
    let ghost upper = mid + seq![rows_slot(t, kids@, inner)];
    assert(slots@ =~= upper);
    let mut e: usize = 2;
    assert(upper + es.take(0) =~= upper);
    while e < kids.len()
        invariant
            2 <= e <= kids@.len(),
            in_range(nodes@, kids@),
            sizes@.len() == nodes@.len(),
            total_w == t.total_w,
            es == extra_slots(sizes@, t, kids@, inner),
            es.len() == kids@.len() - 2,
            y == extra_start(sizes@, kids@, t.end_y, (e - 2) as nat),
            slots@ == upper + es.take(e - 2),
        decreases kids@.len() - e,
    {
        let h: N = sizes[kids[e].0 as usize].h;
        let slot = Slot { id: kids[e], rect: Rect { x: inner.x, y, w: total_w, h }, deep: true };
        assert(slot == es[e - 2]);
        slots.push(slot);
        y = y.plus(h);
        e = e + 1;
        assert(slots@ =~= upper + es.take(e - 2));
    }
    proof {
        assert(es.take(es.len() as int) =~= es);
        assert(slots@ =~= table_slots(nodes@, sizes@, kids@, inner));
    }
    (slots, Size { w: total_w, h: y.minus(inner.y) })
}

pub proof fn lemma_row_in_range(cells: nat, ncols: nat, r: nat)
    requires
        r < table_rows(cells, ncols),
    ensures
        ncols > 0,
        0 <= r * ncols,
        r * ncols + ncols <= cells,
{
    assert(r * ncols + ncols <= cells) by (nonlinear_arith)
        requires
            ncols > 0,
            r + 1 <= cells / ncols,
    ;
    assert(0 <= r * ncols) by (nonlinear_arith);
}

/// Every cell of a table's column, the header's too, gets that column's width.
pub proof fn law_table_columns_are_uniform<N: Num>(
    sizes: Seq<Size<N>>,
    t: Table<N>,
    inner: Rect<N>,
    r: int,
    c: int,
)
    requires
        0 <= c < t.head.len(),
        0 <= r,
    ensures
        body_slot(sizes, t, inner, r, c).rect.w == header_slots(t, inner)[c].rect.w,
        body_slot(sizes, t, inner, r, c).rect.x == header_slots(t, inner)[c].rect.x,
{
}

} // verus!
