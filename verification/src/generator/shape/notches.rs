//! The notches of a shape: the cells that smoothing may fill.
//!
//! A boundary cell is a cell of the shape with a neighbour outside it.  A
//! notch is looked for around every boundary cell that touches two or more
//! boundary cells: the cells outside the shape that touch the boundary cells
//! beside it are gone through, and those that touch two or more boundary
//! cells themselves, and are free, are notches.  A cell can be found more
//! than once, from different boundary cells.

use vstd::prelude::*;
use crate::generator::grid::TriangularGrid;
use crate::generator::grid::geometry::{Cell, neighbours_of};
use crate::generator::shape::growth::{is_arranged_by_score, is_filled};
use crate::generator::shape::quality::is_boundary_cell;

verus! {

/// The boundary cells among the first `n` cells of the shape, in their
/// order.
pub open spec fn boundary_members(cells: Seq<Cell>, ids: Seq<usize>, n: nat) -> Seq<usize>
    decreases n,
{
    if n == 0 {
        Seq::empty()
    } else {
        let rest = boundary_members(cells, ids, (n - 1) as nat);
        if is_boundary_cell(cells, ids, ids[n - 1] as int) {
            rest.push(ids[n - 1])
        } else {
            rest
        }
    }
}

/// The boundary cells of the shape, in their order.
pub open spec fn boundary_of(cells: Seq<Cell>, ids: Seq<usize>) -> Seq<usize> {
    boundary_members(cells, ids, ids.len())
}

/// The number of cells among the first `n` of `around` that are cells of
/// the shape and boundary cells.
pub open spec fn boundary_links(around: Seq<usize>, ids: Seq<usize>, boundary: Seq<usize>, n: nat) -> nat
    decreases n,
{
    if n == 0 {
        0
    } else {
        boundary_links(around, ids, boundary, (n - 1) as nat) + if ids.contains(around[n - 1])
            && boundary.contains(around[n - 1]) {
            1nat
        } else {
            0nat
        }
    }
}

/// The number of boundary cells that touch the cell.
pub open spec fn links_of(cells: Seq<Cell>, ids: Seq<usize>, boundary: Seq<usize>, cell: usize) -> nat {
    let around = neighbours_of(cells, cell as int);
    boundary_links(around, ids, boundary, around.len())
}

/// The list with those of the first `m` cells of `beyond` added, in their
/// order, that are no cells of the shape and not in the list yet.
pub open spec fn add_external(list: Seq<usize>, beyond: Seq<usize>, ids: Seq<usize>, m: nat) -> Seq<usize>
    decreases m,
{
    if m == 0 {
        list
    } else {
        let rest = add_external(list, beyond, ids, (m - 1) as nat);
        if !ids.contains(beyond[m - 1]) && !rest.contains(beyond[m - 1]) {
            rest.push(beyond[m - 1])
        } else {
            rest
        }
    }
}

/// The cells outside the shape that touch a boundary cell among the first
/// `n` cells of `around`, each once, in the order in which they are found.
pub open spec fn external_cells(
    cells: Seq<Cell>,
    around: Seq<usize>,
    ids: Seq<usize>,
    boundary: Seq<usize>,
    n: nat,
) -> Seq<usize>
    decreases n,
{
    if n == 0 {
        Seq::empty()
    } else {
        let rest = external_cells(cells, around, ids, boundary, (n - 1) as nat);
        let member = around[n - 1];
        if ids.contains(member) && boundary.contains(member) {
            let beyond = neighbours_of(cells, member as int);
            add_external(rest, beyond, ids, beyond.len())
        } else {
            rest
        }
    }
}

/// The list with those of the first `e` cells of `external` added, in their
/// order, that touch two or more boundary cells and are free.
pub open spec fn add_notches(
    cells: Seq<Cell>,
    list: Seq<usize>,
    external: Seq<usize>,
    ids: Seq<usize>,
    boundary: Seq<usize>,
    used: Seq<usize>,
    e: nat,
) -> Seq<usize>
    decreases e,
{
    if e == 0 {
        list
    } else {
        let rest = add_notches(cells, list, external, ids, boundary, used, (e - 1) as nat);
        if links_of(cells, ids, boundary, external[e - 1]) >= 2 && !used.contains(external[e - 1]) {
            rest.push(external[e - 1])
        } else {
            rest
        }
    }
}

/// The notches that are found around the first `b` boundary cells.
pub open spec fn notches_around(
    cells: Seq<Cell>,
    ids: Seq<usize>,
    boundary: Seq<usize>,
    used: Seq<usize>,
    b: nat,
) -> Seq<usize>
    decreases b,
{
    if b == 0 {
        Seq::empty()
    } else {
        let rest = notches_around(cells, ids, boundary, used, (b - 1) as nat);
        let around = neighbours_of(cells, boundary[b - 1] as int);
        if boundary_links(around, ids, boundary, around.len()) >= 2 {
            let external = external_cells(cells, around, ids, boundary, around.len());
            add_notches(cells, rest, external, ids, boundary, used, external.len())
        } else {
            rest
        }
    }
}

/// The free cells that would fill a notch of the shape, in the order in
/// which they are found.
pub open spec fn notch_cells(cells: Seq<Cell>, ids: Seq<usize>, used: Seq<usize>) -> Seq<usize> {
    let boundary = boundary_of(cells, ids);
    notches_around(cells, ids, boundary, used, boundary.len())
}

/// Whether `after` is what smoothing makes of the shape `before`: the
/// notches of the shape, ordered by falling score, of which a start of `count`
/// cells is filled in, as far as the shape stays within `cap` cells and the
/// cells are new.
pub open spec fn is_smoothed_by(
    grid: TriangularGrid,
    before: Seq<usize>,
    cap: int,
    used: Seq<usize>,
    sorted: Seq<usize>,
    count: int,
    taken: int,
    after: Seq<usize>,
) -> bool {
    &&& is_arranged_by_score(grid, before, notch_cells(grid@.cells@, before, used), true, sorted)
    &&& 0 <= count <= sorted.len()
    &&& is_filled(before, sorted, count, cap, taken, after)
}

/// Whether `after` is the shape `before` after smoothing.  A shape of fewer
/// than three cells, or of `cap` cells or more, stays as it is; of any other
/// shape a start of its notches, ordered by falling score, is filled in.
pub open spec fn is_smoothed(
    grid: TriangularGrid,
    before: Seq<usize>,
    cap: int,
    used: Seq<usize>,
    after: Seq<usize>,
) -> bool {
    if before.len() < 3 || before.len() >= cap {
        after == before
    } else {
        exists|sorted: Seq<usize>, count: int, taken: int| #[trigger]
            is_smoothed_by(grid, before, cap, used, sorted, count, taken, after)
    }
}

} // verus!
