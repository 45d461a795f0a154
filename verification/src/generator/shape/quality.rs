//! Scores: how well a cell would fit a shape, and how good a shape is.
//!
//! All scores are whole numbers.  Fractions are thousandths; the score of a
//! candidate cell is a sum of weighted thousandths.

use vstd::prelude::*;
use crate::generator::grid::TriangularGrid;
use crate::generator::grid::geometry::{Cell, Point, lattice_radius, mesh_adjacent, within_radius};
use crate::generator::grid::triangular::cells_numbered;
use crate::generator::shape::contains_id;
use crate::math::{isqrt, sqrt_floor};

verus! {

/// The weight of the number of neighbours in the score of a candidate.
pub const ADJACENCY_WEIGHT: u64 = 4;

/// The weight of the distance from the shape in the score of a candidate.
pub const DISTANCE_WEIGHT: u64 = 4;

/// The weight of the shift of the shape's center in the score of a candidate.
pub const BALANCE_WEIGHT: u64 = 2;

/// The weight of the compactness in the total score of a shape, in tenths.
pub const COMPACTNESS_WEIGHT: u32 = 4;

/// The weight of the smoothness in the total score of a shape, in tenths.
pub const SMOOTHNESS_WEIGHT: u32 = 4;

/// The weight of the balance in the total score of a shape, in tenths.
pub const SHAPE_BALANCE_WEIGHT: u32 = 2;

/// The largest number of cells of a mesh.
pub const MAX_CELLS: usize = 384;

/// The number of cells among the first `n` of the mesh that share an edge
/// with cell `cell_id` and are members (`inside`) or are not (`!inside`).
pub open spec fn neighbours_where(
    cells: Seq<Cell>,
    cell_id: int,
    members: Seq<usize>,
    inside: bool,
    n: nat,
) -> nat
    decreases n,
{
    if n == 0 {
        0
    } else {
        neighbours_where(cells, cell_id, members, inside, (n - 1) as nat) + if mesh_adjacent(
            cells,
            cell_id,
            n - 1,
        ) && members.contains((n - 1) as usize) == inside {
            1nat
        } else {
            0nat
        }
    }
}

/// The number of members that share an edge with cell `cell_id`.
pub open spec fn neighbours_inside(cells: Seq<Cell>, cell_id: int, members: Seq<usize>) -> nat {
    neighbours_where(cells, cell_id, members, true, cells.len())
}

/// The number of cells that share an edge with cell `cell_id` and are no
/// members.
pub open spec fn neighbours_outside(cells: Seq<Cell>, cell_id: int, members: Seq<usize>) -> nat {
    neighbours_where(cells, cell_id, members, false, cells.len())
}

/// The sum, over the first `n` ids, of the horizontal offsets of the cells'
/// centroids from `center`.  An id that names no cell adds nothing.
pub open spec fn offset_sum_x(cells: Seq<Cell>, center: Point, ids: Seq<usize>, n: nat) -> int
    decreases n,
{
    if n == 0 {
        0
    } else {
        offset_sum_x(cells, center, ids, (n - 1) as nat) + if ids[n - 1] < cells.len() {
            cells[ids[n - 1] as int].centroid.x - center.x
        } else {
            0
        }
    }
}

/// The sum, over the first `n` ids, of the vertical offsets of the cells'
/// centroids from `center`.  An id that names no cell adds nothing.
pub open spec fn offset_sum_y(cells: Seq<Cell>, center: Point, ids: Seq<usize>, n: nat) -> int
    decreases n,
{
    if n == 0 {
        0
    } else {
        offset_sum_y(cells, center, ids, (n - 1) as nat) + if ids[n - 1] < cells.len() {
            cells[ids[n - 1] as int].centroid.y - center.y
        } else {
            0
        }
    }
}

/// The square of the distance between a point and the mean of the shape's
/// centroids, times the square of the number of cells of the shape, in half
/// steps.
pub open spec fn spread(cells: Seq<Cell>, center: Point, ids: Seq<usize>, p: Point) -> nat {
    let k = ids.len() as int;
    let dx = k * (p.x - center.x) - offset_sum_x(cells, center, ids, ids.len());
    let dy = k * (p.y - center.y) - offset_sum_y(cells, center, ids, ids.len());
    (dx * dx + 3 * (dy * dy)) as nat
}

/// The distance, in the units of the drawing, that belongs to `spread`, over
/// the radius that a round shape of `k` cells is expected to have, which is
/// 1.2 times the square root of `k`; in thousandths, rounded down.
pub open spec fn radius_ratio(spread: nat, size: nat, radius: nat, k: nat) -> nat {
    sqrt_floor(100_000_000 * spread * (size * size) / (576 * (radius * radius) * (k * k * k)))
}

/// The thousandths that a candidate earns for the number of its neighbours
/// in the shape: most for two, which makes a smooth edge.
pub open spec fn adjacency_points(count: nat) -> nat {
    if count == 0 {
        0
    } else if count == 1 {
        700
    } else if count == 2 {
        1000
    } else {
        600
    }
}

/// The thousandths that a candidate earns for its distance from the shape:
/// the fewer, the farther the ratio lies from one.
pub open spec fn distance_points(ratio: nat) -> nat {
    let off = if ratio > 1000 {
        ratio - 1000
    } else {
        1000 - ratio
    };
    if off >= 1000 {
        0
    } else {
        (1000 - off) as nat
    }
}

/// The thousandths that a candidate earns for leaving the center of the
/// shape where it is: the shift of the center over the expected radius is
/// taken off.
pub open spec fn balance_points(ratio: nat, k: nat) -> nat {
    let shift = ratio / (k + 1);
    if shift >= 1000 {
        0
    } else {
        (1000 - shift) as nat
    }
}

/// The score of cell `cell_id` as the next cell of the shape `ids`, from 0
/// to 10000.  Every cell is as good as any other for a shape without cells;
/// an id that names no cell scores nothing.
pub open spec fn candidate_score(
    cells: Seq<Cell>,
    center: Point,
    size: nat,
    radius: nat,
    ids: Seq<usize>,
    cell_id: usize,
) -> nat {
    if ids.len() == 0 {
        10000
    } else if cell_id >= cells.len() {
        0
    } else {
        let ratio = radius_ratio(
            spread(cells, center, ids, cells[cell_id as int].centroid),
            size,
            radius,
            ids.len(),
        );
        ADJACENCY_WEIGHT as nat * adjacency_points(neighbours_inside(cells, cell_id as int, ids))
            + DISTANCE_WEIGHT as nat * distance_points(ratio) + BALANCE_WEIGHT as nat * balance_points(
            ratio,
            ids.len(),
        )
    }
}

/// The centroid of every cell of a mesh lies in the hexagon.
pub proof fn lemma_centroid_within(cells: Seq<Cell>, center: Point, radius: int, k: int)
    requires
        cells_numbered(cells, center, radius),
        0 <= k < cells.len(),
    ensures
        -2 * radius <= cells[k].centroid.x - center.x <= 2 * radius,
        -radius <= cells[k].centroid.y - center.y <= radius,
{
    let cell = cells[k];
    assert(cell.centered());
    assert(within_radius(center, radius, cell.vertices[0]));
    assert(within_radius(center, radius, cell.vertices[1]));
    assert(within_radius(center, radius, cell.vertices[2]));
}

/// Counts the cells that share an edge with cell `cell_id` and are members
/// (`inside`) or are not (`!inside`).
pub fn count_neighbours(grid: &TriangularGrid, cell_id: usize, members: &Vec<usize>, inside: bool) -> (count: usize)
    ensures
        count == neighbours_where(grid@.cells@, cell_id as int, members@, inside, grid@.cells@.len()),
{
    let cells = grid.cells();
    let mut count: usize = 0;
    if cell_id >= cells.len() {
        assert forall|n: nat| n <= cells@.len() implies #[trigger] neighbours_where(
            cells@,
            cell_id as int,
            members@,
            inside,
            n,
        ) == 0 by {
            lemma_no_neighbours(cells@, cell_id as int, members@, inside, n);
        }
        return 0;
    }
    let mut j: usize = 0;
    while j < cells.len()
        invariant
            j <= cells@.len(),
            cells@ == grid@.cells@,
            cell_id < cells@.len(),
            count <= j,
            count == neighbours_where(cells@, cell_id as int, members@, inside, j as nat),
        decreases cells@.len() - j,
    {
        if j != cell_id && cells[cell_id].is_adjacent(&cells[j]) && contains_id(members, j) == inside {
            count = count + 1;
        }
        j = j + 1;
    }
    count
}

/// A cell that is not in the mesh has no neighbours.
proof fn lemma_no_neighbours(cells: Seq<Cell>, cell_id: int, members: Seq<usize>, inside: bool, n: nat)
    requires
        cell_id >= cells.len(),
    ensures
        neighbours_where(cells, cell_id, members, inside, n) == 0,
    decreases n,
{
    if n > 0 {
        lemma_no_neighbours(cells, cell_id, members, inside, (n - 1) as nat);
    }
}

/// Adds up the offsets of the centroids of the cells of a shape from the
/// center of the hexagon.
pub fn offset_sums(grid: &TriangularGrid, ids: &Vec<usize>) -> (sums: (i64, i64))
    requires
        grid.wf(),
        ids@.len() <= MAX_CELLS,
    ensures
        sums.0 == offset_sum_x(grid@.cells@, grid@.center, ids@, ids@.len()),
        sums.1 == offset_sum_y(grid@.cells@, grid@.center, ids@, ids@.len()),
        -48 * ids@.len() <= sums.0 <= 48 * ids@.len(),
        -24 * ids@.len() <= sums.1 <= 24 * ids@.len(),
{
    let hex = grid.hex_grid();
    let center = hex.center;
    let mut sum_x: i64 = 0;
    let mut sum_y: i64 = 0;
    let mut i: usize = 0;
    while i < ids.len()
        invariant
            i <= ids@.len() <= MAX_CELLS,
            grid.wf(),
            *hex == grid@,
            center == hex.center,
            sum_x == offset_sum_x(hex.cells@, center, ids@, i as nat),
            sum_y == offset_sum_y(hex.cells@, center, ids@, i as nat),
            -48 * i <= sum_x <= 48 * i,
            -24 * i <= sum_y <= 24 * i,
        decreases ids@.len() - i,
    {
        let id: usize = ids[i];
        if id < hex.cells.len() {
            proof {
                lemma_centroid_within(
                    hex.cells@,
                    center,
                    lattice_radius(hex.grid_density),
                    id as int,
                );
            }
            let centroid = hex.cells[id].centroid;
            sum_x = sum_x + (centroid.x as i64 - center.x as i64);
            sum_y = sum_y + (centroid.y as i64 - center.y as i64);
        }
        i = i + 1;
    }
    (sum_x, sum_y)
}

/// Computes the spread of a point around a shape whose offsets add up to
/// `sums`.
fn spread_of(grid: &TriangularGrid, count: usize, sums: (i64, i64), p: Point) -> (value: u128)
    requires
        grid.wf(),
        count <= MAX_CELLS,
        -48 * count <= sums.0 <= 48 * count,
        -24 * count <= sums.1 <= 24 * count,
        -48 <= p.x - grid@.center.x <= 48,
        -24 <= p.y - grid@.center.y <= 24,
    ensures
        value == ({
            let dx = count * (p.x - grid@.center.x) - sums.0;
            let dy = count * (p.y - grid@.center.y) - sums.1;
            dx * dx + 3 * (dy * dy)
        }),
        value <= 2_378_170_368,
{
    let center = grid.hex_grid().center;
    let off_x: i64 = p.x as i64 - center.x as i64;
    let off_y: i64 = p.y as i64 - center.y as i64;
    let k: i64 = count as i64;
    assert(-18432 <= k * off_x <= 18432 && -9216 <= k * off_y <= 9216) by (nonlinear_arith)
        requires
            0 <= k <= 384,
            -48 <= off_x <= 48,
            -24 <= off_y <= 24,
    ;
    let dx: i64 = k * off_x - sums.0;
    let dy: i64 = k * off_y - sums.1;
    assert(0 <= dx * dx <= 1_358_954_496 && 0 <= dy * dy <= 339_738_624) by (nonlinear_arith)
        requires
            -36864 <= dx <= 36864,
            -18432 <= dy <= 18432,
    ;
    (dx * dx + 3 * (dy * dy)) as u128
}

/// Computes the ratio of a distance to the radius expected of `k` cells.
fn radius_ratio_of(spread: u128, size: u32, radius: u32, k: usize) -> (ratio: u64)
    requires
        spread <= 2_378_170_368,
        9 <= radius <= 24,
        1 <= k <= MAX_CELLS,
    ensures
        ratio == radius_ratio(spread as nat, size as nat, radius as nat, k as nat),
{
    let s: u128 = size as u128;
    let r: u128 = radius as u128;
    let n: u128 = k as u128;
    assert(0 <= s * s <= 0xffff_ffff * 0xffff_ffff) by (nonlinear_arith)
        requires
            0 <= s <= 0xffff_ffff,
    ;
    assert(0 <= 100_000_000 * spread * (s * s) <= 100_000_000 * 2_378_170_368 * (0xffff_ffff
        * 0xffff_ffff)) by (nonlinear_arith)
        requires
            0 <= spread <= 2_378_170_368,
            0 <= s * s <= 0xffff_ffff * 0xffff_ffff,
    ;
    assert(81 <= r * r <= 576) by (nonlinear_arith)
        requires
            9 <= r <= 24,
    ;
    assert(1 <= n * n <= 147_456 && 1 <= n * n * n <= 56_623_104) by (nonlinear_arith)
        requires
            1 <= n <= 384,
    ;
    assert(0 < 576 * (r * r) * (n * n * n) <= 576 * 576 * 56_623_104) by (nonlinear_arith)
        requires
            81 <= r * r <= 576,
            1 <= n * n * n <= 56_623_104,
    ;
    let numerator: u128 = 100_000_000 * spread * (s * s);
    let denominator: u128 = 576 * (r * r) * (n * n * n);
    isqrt(numerator / denominator)
}

/// Computes the lattice radius of a density.
pub fn lattice_radius_of(density: u8) -> (radius: u32)
    ensures
        radius == lattice_radius(density),
        9 <= radius <= 24,
{
    if density <= 2 {
        9
    } else if density > 8 {
        24
    } else {
        3 * (density as u32)
    }
}

/// Scores cell `cell_id` as the next cell of a shape: four parts for the
/// number of its neighbours in the shape, four for its distance from the
/// shape's center, two for the shift of that center.
pub fn score_candidate_cell(grid: &TriangularGrid, ids: &Vec<usize>, cell_id: usize) -> (score: u64)
    requires
        grid.wf(),
        ids@.len() <= MAX_CELLS,
    ensures
        score == candidate_score(
            grid@.cells@,
            grid@.center,
            grid@.size as nat,
            lattice_radius(grid@.grid_density) as nat,
            ids@,
            cell_id,
        ),
        score <= 10000,
{
    let hex = grid.hex_grid();
    if ids.len() == 0 {
        return 10000;
    }
    if cell_id >= hex.cells.len() {
        return 0;
    }
    let k: usize = ids.len();
    let sums = offset_sums(grid, ids);
    let centroid = hex.cells[cell_id].centroid;
    proof {
        lemma_centroid_within(
            hex.cells@,
            hex.center,
            lattice_radius(hex.grid_density),
            cell_id as int,
        );
    }
    let spread: u128 = spread_of(grid, k, sums, centroid);
    let ratio: u64 = radius_ratio_of(spread, hex.size, lattice_radius_of(hex.grid_density), k);
    let inside: usize = count_neighbours(grid, cell_id, ids, true);
    let adjacency: u64 = if inside == 0 {
        0
    } else if inside == 1 {
        700
    } else if inside == 2 {
        1000
    } else {
        600
    };
    let off: u64 = if ratio > 1000 {
        ratio - 1000
    } else {
        1000 - ratio
    };
    let distance: u64 = if off >= 1000 {
        0
    } else {
        1000 - off
    };
    let shift: u64 = ratio / (k as u64 + 1);
    let balance: u64 = if shift >= 1000 {
        0
    } else {
        1000 - shift
    };
    ADJACENCY_WEIGHT * adjacency + DISTANCE_WEIGHT * distance + BALANCE_WEIGHT * balance
}

/// How good a shape is, in thousandths each; more is better.
#[derive(Debug, Clone, Copy, PartialEq, Eq, Structural)]
pub struct ShapeMetrics {
    /// How short the boundary is for the number of cells.
    pub compactness: u32,
    /// How free the boundary is of sharp notches.
    pub smoothness: u32,
    /// How evenly the cells lie around the center of the shape.
    pub balance: u32,
}

impl ShapeMetrics {
    /// The weighted mean of the three metrics: four tenths compactness, four
    /// tenths smoothness, two tenths balance.
    pub open spec fn spec_total_score(self) -> nat {
        ((COMPACTNESS_WEIGHT * self.compactness + SMOOTHNESS_WEIGHT * self.smoothness
            + SHAPE_BALANCE_WEIGHT * self.balance) / 10) as nat
    }

    /// Every metric is at most a thousand.
    pub open spec fn wf(self) -> bool {
        self.compactness <= 1000 && self.smoothness <= 1000 && self.balance <= 1000
    }

    /// The total score in thousandths.  Metrics above a thousand count as a
    /// thousand.
    pub fn total_score(&self) -> (score: u32)
        ensures
            self.wf() ==> score == self.spec_total_score(),
            score <= 1000,
    {
        let c: u32 = if self.compactness > 1000 {
            1000
        } else {
            self.compactness
        };
        let s: u32 = if self.smoothness > 1000 {
            1000
        } else {
            self.smoothness
        };
        let b: u32 = if self.balance > 1000 {
            1000
        } else {
            self.balance
        };
        (COMPACTNESS_WEIGHT * c + SMOOTHNESS_WEIGHT * s + SHAPE_BALANCE_WEIGHT * b) / 10
    }
}

/// Whether cell `cell_id` has a neighbour that is no member.
pub open spec fn is_boundary_cell(cells: Seq<Cell>, ids: Seq<usize>, cell_id: int) -> bool {
    neighbours_outside(cells, cell_id, ids) > 0
}

/// The number of edges between the first `n` members and cells that are no
/// members.
pub open spec fn boundary_edges(cells: Seq<Cell>, ids: Seq<usize>, n: nat) -> nat
    decreases n,
{
    if n == 0 {
        0
    } else {
        boundary_edges(cells, ids, (n - 1) as nat) + neighbours_outside(cells, ids[n - 1] as int, ids)
    }
}

/// The number of boundary cells among the first `n` members.
pub open spec fn boundary_count(cells: Seq<Cell>, ids: Seq<usize>, n: nat) -> nat
    decreases n,
{
    if n == 0 {
        0
    } else {
        boundary_count(cells, ids, (n - 1) as nat) + if is_boundary_cell(cells, ids, ids[n - 1] as int) {
            1nat
        } else {
            0nat
        }
    }
}

/// The number of cells among the first `n` of the mesh that share an edge
/// with cell `cell_id`, are members and are boundary cells.
pub open spec fn boundary_neighbours(cells: Seq<Cell>, ids: Seq<usize>, cell_id: int, n: nat) -> nat
    decreases n,
{
    if n == 0 {
        0
    } else {
        boundary_neighbours(cells, ids, cell_id, (n - 1) as nat) + if mesh_adjacent(cells, cell_id, n - 1)
            && ids.contains((n - 1) as usize) && is_boundary_cell(cells, ids, n - 1) {
            1nat
        } else {
            0nat
        }
    }
}

/// Whether a member is a boundary cell with more than two boundary cells as
/// neighbours.
pub open spec fn is_sharp_cell(cells: Seq<Cell>, ids: Seq<usize>, cell_id: int) -> bool {
    is_boundary_cell(cells, ids, cell_id) && boundary_neighbours(cells, ids, cell_id, cells.len()) > 2
}

/// The number of sharp cells among the first `n` members.
pub open spec fn sharp_count(cells: Seq<Cell>, ids: Seq<usize>, n: nat) -> nat
    decreases n,
{
    if n == 0 {
        0
    } else {
        sharp_count(cells, ids, (n - 1) as nat) + if is_sharp_cell(cells, ids, ids[n - 1] as int) {
            1nat
        } else {
            0nat
        }
    }
}

/// The compactness of a shape of `k` cells with `edges` boundary edges: the
/// boundary of a circle of the same area, the square root of `12.56 * k`,
/// over the boundary of the shape, and one where the shape has the shorter
/// boundary.  A shape without boundary has none.
pub open spec fn compactness_of(k: nat, edges: nat) -> nat {
    let ideal = sqrt_floor(12_560_000 * k);
    if edges == 0 {
        0
    } else if ideal >= 1000 * edges {
        1000
    } else {
        ideal / edges
    }
}

/// The smoothness of a shape with `boundary` boundary cells of which `sharp`
/// are sharp: the share of those that are not.
pub open spec fn smoothness_of(boundary: nat, sharp: nat) -> nat {
    if boundary == 0 {
        1000
    } else {
        let share = 1000 * sharp / boundary;
        if share >= 1000 {
            0
        } else {
            (1000 - share) as nat
        }
    }
}

/// The distance of member `i` from the mean of the shape's centroids, times
/// the number of members, in half steps and rounded down; zero for an id that
/// names no cell.
pub open spec fn member_distance(cells: Seq<Cell>, center: Point, ids: Seq<usize>, i: int) -> nat {
    if ids[i] < cells.len() {
        sqrt_floor(spread(cells, center, ids, cells[ids[i] as int].centroid))
    } else {
        0
    }
}

/// The sum of the distances of the first `n` members.
pub open spec fn distance_sum(cells: Seq<Cell>, center: Point, ids: Seq<usize>, n: nat) -> nat
    decreases n,
{
    if n == 0 {
        0
    } else {
        distance_sum(cells, center, ids, (n - 1) as nat) + member_distance(cells, center, ids, n - 1)
    }
}

/// The largest of the distances of the first `n` members.
pub open spec fn distance_max(cells: Seq<Cell>, center: Point, ids: Seq<usize>, n: nat) -> nat
    decreases n,
{
    if n == 0 {
        0
    } else {
        let before = distance_max(cells, center, ids, (n - 1) as nat);
        let here = member_distance(cells, center, ids, n - 1);
        if here > before {
            here
        } else {
            before
        }
    }
}

/// The sum, over the first `n` members that name a cell, of the squares of
/// the differences between their distances and `mean`.
pub open spec fn deviation_sum(
    cells: Seq<Cell>,
    center: Point,
    ids: Seq<usize>,
    mean: int,
    n: nat,
) -> nat
    decreases n,
{
    if n == 0 {
        0
    } else {
        deviation_sum(cells, center, ids, mean, (n - 1) as nat) + if ids[n - 1] < cells.len() {
            let d = member_distance(cells, center, ids, n - 1) - mean;
            (d * d) as nat
        } else {
            0nat
        }
    }
}

/// The balance of a shape: one less the variance of the distances of its
/// cells from its center over the square of the largest distance.  A shape
/// whose cells all lie in its center has none.
pub open spec fn balance_of(cells: Seq<Cell>, center: Point, ids: Seq<usize>) -> nat {
    let k = ids.len();
    let largest = distance_max(cells, center, ids, k);
    if k == 0 || largest == 0 {
        0
    } else {
        let mean = distance_sum(cells, center, ids, k) / k;
        let variance = deviation_sum(cells, center, ids, mean as int, k) / k;
        let share = 1000 * variance / (largest * largest);
        if share >= 1000 {
            0
        } else {
            (1000 - share) as nat
        }
    }
}

/// The metrics of a shape.  A shape without cells scores nothing.
pub open spec fn shape_quality(cells: Seq<Cell>, center: Point, ids: Seq<usize>) -> ShapeMetrics {
    if ids.len() == 0 {
        ShapeMetrics { compactness: 0, smoothness: 0, balance: 0 }
    } else {
        ShapeMetrics {
            compactness: compactness_of(ids.len(), boundary_edges(cells, ids, ids.len())) as u32,
            smoothness: smoothness_of(
                boundary_count(cells, ids, ids.len()),
                sharp_count(cells, ids, ids.len()),
            ) as u32,
            balance: balance_of(cells, center, ids) as u32,
        }
    }
}

/// The number of neighbours counted among the first `n` cells is at most
/// `n`.
pub proof fn lemma_neighbours_bound(cells: Seq<Cell>, cell_id: int, members: Seq<usize>, inside: bool, n: nat)
    ensures
        neighbours_where(cells, cell_id, members, inside, n) <= n,
    decreases n,
{
    if n > 0 {
        lemma_neighbours_bound(cells, cell_id, members, inside, (n - 1) as nat);
    }
}

/// Counts the boundary cells among the members that share an edge with
/// cell `cell_id`.
fn count_boundary_neighbours(grid: &TriangularGrid, ids: &Vec<usize>, cell_id: usize) -> (count: usize)
    ensures
        count == boundary_neighbours(grid@.cells@, ids@, cell_id as int, grid@.cells@.len()),
        count <= grid@.cells@.len(),
{
    let cells = grid.cells();
    let mut count: usize = 0;
    let mut j: usize = 0;
    while j < cells.len()
        invariant
            j <= cells@.len(),
            cells@ == grid@.cells@,
            count <= j,
            count == boundary_neighbours(cells@, ids@, cell_id as int, j as nat),
        decreases cells@.len() - j,
    {
        if cell_id < cells.len() && j != cell_id && cells[cell_id].is_adjacent(&cells[j]) && contains_id(
            ids,
            j,
        ) && count_neighbours(grid, j, ids, false) > 0 {
            count = count + 1;
        }
        j = j + 1;
    }
    count
}

/// Computes the compactness and the smoothness of a shape.
fn boundary_metrics(grid: &TriangularGrid, ids: &Vec<usize>) -> (metrics: (u32, u32))
    requires
        grid.wf(),
        1 <= ids@.len() <= MAX_CELLS,
    ensures
        metrics.0 == compactness_of(ids@.len(), boundary_edges(grid@.cells@, ids@, ids@.len())),
        metrics.1 == smoothness_of(
            boundary_count(grid@.cells@, ids@, ids@.len()),
            sharp_count(grid@.cells@, ids@, ids@.len()),
        ),
        metrics.0 <= 1000,
        metrics.1 <= 1000,
{
    let k: usize = ids.len();
    let mut edges: u64 = 0;
    let mut boundary: u64 = 0;
    let mut sharp: u64 = 0;
    let mut i: usize = 0;
    assert(grid@.cells@.len() <= MAX_CELLS) by (nonlinear_arith)
        requires
            grid@.cells@.len() == 6 * (grid@.grid_density as int) * (grid@.grid_density as int),
            2 <= grid@.grid_density <= 8,
    ;
    while i < k
        invariant
            i <= k,
            k == ids@.len(),
            k <= MAX_CELLS,
            grid@.cells@.len() <= MAX_CELLS,
            edges == boundary_edges(grid@.cells@, ids@, i as nat),
            boundary == boundary_count(grid@.cells@, ids@, i as nat),
            sharp == sharp_count(grid@.cells@, ids@, i as nat),
            edges <= MAX_CELLS * i,
            sharp <= boundary <= i,
        decreases k - i,
    {
        let outside: usize = count_neighbours(grid, ids[i], ids, false);
        proof {
            lemma_neighbours_bound(
                grid@.cells@,
                ids@[i as int] as int,
                ids@,
                false,
                grid@.cells@.len(),
            );
        }
        edges = edges + outside as u64;
        if outside > 0 {
            boundary = boundary + 1;
            if count_boundary_neighbours(grid, ids, ids[i]) > 2 {
                sharp = sharp + 1;
            }
        }
        i = i + 1;
    }
    let ideal: u64 = isqrt(12_560_000 * (k as u128));
    let compactness: u64 = if edges == 0 {
        0
    } else if ideal >= 1000 * edges {
        1000
    } else {
        ideal / edges
    };
    let smoothness: u64 = if boundary == 0 {
        1000
    } else {
        let share: u64 = 1000 * sharp / boundary;
        if share >= 1000 {
            0
        } else {
            1000 - share
        }
    };
    proof {
        if edges != 0 && ideal < 1000 * edges {
            assert(ideal / edges <= 1000) by (nonlinear_arith)
                requires
                    0 <= ideal < 1000 * edges,
                    edges > 0,
            ;
        }
    }
    (compactness as u32, smoothness as u32)
}

/// Computes the distance of a member from the mean of the shape.
fn member_distance_of(grid: &TriangularGrid, ids: &Vec<usize>, sums: (i64, i64), i: usize) -> (distance: u64)
    requires
        grid.wf(),
        i < ids@.len() <= MAX_CELLS,
        sums.0 == offset_sum_x(grid@.cells@, grid@.center, ids@, ids@.len()),
        sums.1 == offset_sum_y(grid@.cells@, grid@.center, ids@, ids@.len()),
        -48 * ids@.len() <= sums.0 <= 48 * ids@.len(),
        -24 * ids@.len() <= sums.1 <= 24 * ids@.len(),
    ensures
        distance == member_distance(grid@.cells@, grid@.center, ids@, i as int),
        distance <= 48767,
{
    let hex = grid.hex_grid();
    let id: usize = ids[i];
    if id < hex.cells.len() {
        proof {
            lemma_centroid_within(hex.cells@, hex.center, lattice_radius(hex.grid_density), id as int);
        }
        let value: u128 = spread_of(grid, ids.len(), sums, hex.cells[id].centroid);
        let distance: u64 = isqrt(value);
        proof {
            if distance > 48767 {
                assert(distance * distance >= 48768 * 48768) by (nonlinear_arith)
                    requires
                        distance >= 48768,
                ;
            }
        }
        distance
    } else {
        0
    }
}

/// Computes the balance of a shape.
fn balance_metric(grid: &TriangularGrid, ids: &Vec<usize>) -> (balance: u32)
    requires
        grid.wf(),
        1 <= ids@.len() <= MAX_CELLS,
    ensures
        balance == balance_of(grid@.cells@, grid@.center, ids@),
        balance <= 1000,
{
    let k: usize = ids.len();
    let sums = offset_sums(grid, ids);
    let ghost cells = grid@.cells@;
    let ghost center = grid@.center;
    let mut total: u64 = 0;
    let mut largest: u64 = 0;
    let mut i: usize = 0;
    while i < k
        invariant
            i <= k,
            k == ids@.len(),
            1 <= k <= MAX_CELLS,
            grid.wf(),
            cells == grid@.cells@,
            center == grid@.center,
            sums.0 == offset_sum_x(cells, center, ids@, ids@.len()),
            sums.1 == offset_sum_y(cells, center, ids@, ids@.len()),
            -48 * ids@.len() <= sums.0 <= 48 * ids@.len(),
            -24 * ids@.len() <= sums.1 <= 24 * ids@.len(),
            total == distance_sum(cells, center, ids@, i as nat),
            largest == distance_max(cells, center, ids@, i as nat),
            total <= 48767 * i,
            largest <= 48767,
        decreases k - i,
    {
        let distance: u64 = member_distance_of(grid, ids, sums, i);
        total = total + distance;
        if distance > largest {
            largest = distance;
        }
        i = i + 1;
    }
    if largest == 0 {
        return 0;
    }
    let mean: u64 = total / (k as u64);
    assert(mean <= 48767) by (nonlinear_arith)
        requires
            mean == total / (k as u64),
            0 <= total <= 48767 * k,
            k >= 1,
    ;
    let mut deviation: u64 = 0;
    i = 0;
    while i < k
        invariant
            i <= k,
            k == ids@.len(),
            1 <= k <= MAX_CELLS,
            grid.wf(),
            cells == grid@.cells@,
            center == grid@.center,
            sums.0 == offset_sum_x(cells, center, ids@, ids@.len()),
            sums.1 == offset_sum_y(cells, center, ids@, ids@.len()),
            -48 * ids@.len() <= sums.0 <= 48 * ids@.len(),
            -24 * ids@.len() <= sums.1 <= 24 * ids@.len(),
            mean <= 48767,
            deviation == deviation_sum(cells, center, ids@, mean as int, i as nat),
            deviation <= 2_378_220_289 * i,
        decreases k - i,
    {
        if ids[i] < grid.cell_count() {
            let distance: u64 = member_distance_of(grid, ids, sums, i);
            let d: u64 = if distance > mean {
                distance - mean
            } else {
                mean - distance
            };
            assert(d * d <= 2_378_220_289) by (nonlinear_arith)
                requires
                    0 <= d <= 48767,
            ;
            assert(d * d == (distance - mean) * (distance - mean)) by (nonlinear_arith)
                requires
                    d == distance - mean || d == mean - distance,
            ;
            deviation = deviation + d * d;
        }
        i = i + 1;
    }
    let variance: u64 = deviation / (k as u64);
    assert(0 < largest * largest <= 2_378_220_289) by (nonlinear_arith)
        requires
            0 < largest <= 48767,
    ;
    let share: u64 = 1000 * variance / (largest * largest);
    if share >= 1000 {
        0
    } else {
        (1000 - share) as u32
    }
}

/// Measures a shape: its compactness, its smoothness and its balance.
pub fn evaluate_shape_quality(grid: &TriangularGrid, ids: &Vec<usize>) -> (metrics: ShapeMetrics)
    requires
        grid.wf(),
        ids@.len() <= MAX_CELLS,
    ensures
        metrics == shape_quality(grid@.cells@, grid@.center, ids@),
        metrics.wf(),
{
    if ids.len() == 0 {
        return ShapeMetrics { compactness: 0, smoothness: 0, balance: 0 };
    }
    let (compactness, smoothness) = boundary_metrics(grid, ids);
    let balance = balance_metric(grid, ids);
    ShapeMetrics { compactness, smoothness, balance }
}

} // verus!
