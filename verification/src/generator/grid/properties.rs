//! What holds of every mesh: its cells are fixed by its density and its
//! center, they lie in the hexagon, and each has a neighbour.

use vstd::prelude::*;
use super::geometry::{
    Cell, Point, MeshLayout, MAX_CENTER, cells_adjacent, lattice_point, lattice_radius, layout_of,
    lemma_hexagon_contains_exactly, mesh_adjacent, polygon_contains_point,
};
use super::triangular::{
    TriangularGrid, cells_numbered, is_legacy_sector, is_sector_mesh, mesh_point, sector_cell_placed,
    up_index,
};

verus! {

/// Whether position `k` of a mesh of `n` divisions is that of the upward
/// cell of sector `s`, row `i` and column `j`, or, with `down`, that of the
/// downward cell after it.
pub open spec fn is_place(n: int, k: int, s: int, i: int, j: int, down: bool) -> bool {
    &&& 0 <= s < 6
    &&& 0 <= i < n
    &&& 0 <= j < n - i
    &&& if down {
        j < n - i - 1 && k == up_index(n, s, i, j) + 1
    } else {
        k == up_index(n, s, i, j)
    }
}

/// Whether position `k` is the place of a cell.
pub open spec fn has_place(n: int, k: int) -> bool {
    exists|s: int, i: int, j: int, down: bool| #[trigger] is_place(n, k, s, i, j, down)
}

/// Every position from row `i` on, within a sector, is the place of a cell.
proof fn lemma_row_has_place(n: int, s: int, local: int, i: int)
    requires
        0 <= s < 6,
        0 <= i < n,
        i * (2 * n - i) <= local < n * n,
    ensures
        has_place(n, s * (n * n) + local),
    decreases n - i,
{
    reveal(up_index);
    let start = i * (2 * n - i);
    let next = (i + 1) * (2 * n - (i + 1));
    assert(next == start + 2 * (n - i) - 1) by (nonlinear_arith)
        requires
            start == i * (2 * n - i),
            next == (i + 1) * (2 * n - (i + 1)),
    ;
    if local < next {
        let t = local - start;
        let j = t / 2;
        let down = t % 2 == 1;
        assert(is_place(n, s * (n * n) + local, s, i, j, down));
    } else {
        if i + 1 == n {
            assert(next == n * n) by (nonlinear_arith)
                requires
                    next == (i + 1) * (2 * n - (i + 1)),
                    i + 1 == n,
            ;
        }
        lemma_row_has_place(n, s, local, i + 1);
    }
}

/// Every position of a mesh is the place of a cell.
pub proof fn lemma_has_place(n: int, k: int)
    requires
        1 <= n,
        0 <= k < 6 * n * n,
    ensures
        has_place(n, k),
{
    let size = n * n;
    assert(size >= 1) by (nonlinear_arith)
        requires
            n >= 1,
            size == n * n,
    ;
    assert(6 * n * n == 6 * size) by (nonlinear_arith)
        requires
            size == n * n,
    ;
    let s = k / size;
    let local = k % size;
    assert(k == size * s + local && 0 <= local < size) by {
        vstd::arithmetic::div_mod::lemma_fundamental_div_mod(k, size);
        vstd::arithmetic::div_mod::lemma_mod_pos_bound(k, size);
    }
    assert(0 <= s < 6) by (nonlinear_arith)
        requires
            k == size * s + local,
            0 <= local < size,
            0 <= k < 6 * size,
            size >= 1,
    ;
    assert(s * size == size * s) by (nonlinear_arith);
    assert(0 * (2 * n - 0) == 0);
    lemma_row_has_place(n, s, local, 0);
}

/// Mesh points of a sector that differ in a step are different points.
proof fn lemma_mesh_points_differ(center: Point, s: int, a: (int, int), b: (int, int))
    requires
        -MAX_CENTER <= center.x <= MAX_CENTER,
        -MAX_CENTER <= center.y <= MAX_CENTER,
        0 <= s < 6,
        0 <= a.0 <= 100 && 0 <= a.1 <= 100,
        0 <= b.0 <= 100 && 0 <= b.1 <= 100,
        a != b,
    ensures
        mesh_point(center, s, a.0, a.1) != mesh_point(center, s, b.0, b.1),
{
    reveal(lattice_point);
}

/// Two cells with two common corners, whose third corners differ from each
/// other and from the common ones, share an edge.
proof fn lemma_two_common_corners(first: Cell, second: Cell, a: Point, b: Point, c: Point, d: Point)
    requires
        first.vertices[0] == a || first.vertices[1] == a || first.vertices[2] == a,
        first.vertices[0] == b || first.vertices[1] == b || first.vertices[2] == b,
        first.vertices[0] == c || first.vertices[1] == c || first.vertices[2] == c,
        second.vertices[0] == b || second.vertices[1] == b || second.vertices[2] == b,
        second.vertices[0] == c || second.vertices[1] == c || second.vertices[2] == c,
        second.vertices[0] == d || second.vertices[1] == d || second.vertices[2] == d,
        a != b && a != c && a != d && b != c && b != d && c != d,
    ensures
        cells_adjacent(first, second),
{
}

/// In a subdivided sector, a cell that stands at a place has a neighbour.
proof fn lemma_placed_neighbour(cells: Seq<Cell>, center: Point, n: int, k: int, s: int, i: int, j: int, down: bool)
    requires
        -MAX_CENTER <= center.x <= MAX_CENTER,
        -MAX_CENTER <= center.y <= MAX_CENTER,
        2 <= n <= 8,
        is_place(n, k, s, i, j, down),
        is_sector_mesh(cells, center, n, s),
    ensures
        exists|other: int| #[trigger] mesh_adjacent(cells, k, other),
{
    assert(sector_cell_placed(cells, center, n, s, i, j));
    let up = up_index(n, s, i, j);
    let a = mesh_point(center, s, i, j);
    let b = mesh_point(center, s, i + 1, j);
    let c = mesh_point(center, s, i, j + 1);
    let d = mesh_point(center, s, i + 1, j + 1);
    lemma_mesh_points_differ(center, s, (i, j), (i + 1, j));
    lemma_mesh_points_differ(center, s, (i, j), (i, j + 1));
    lemma_mesh_points_differ(center, s, (i, j), (i + 1, j + 1));
    lemma_mesh_points_differ(center, s, (i + 1, j), (i, j + 1));
    lemma_mesh_points_differ(center, s, (i + 1, j), (i + 1, j + 1));
    lemma_mesh_points_differ(center, s, (i, j + 1), (i + 1, j + 1));
    if j < n - i - 1 {
        // the upward cell and the downward cell after it
        lemma_two_common_corners(cells[up], cells[up + 1], a, b, c, d);
        lemma_two_common_corners(cells[up + 1], cells[up], d, b, c, a);
        if down {
            assert(mesh_adjacent(cells, k, up));
        } else {
            assert(mesh_adjacent(cells, k, up + 1));
        }
    } else if j > 0 {
        // the last upward cell of a row and the downward cell before it
        assert(sector_cell_placed(cells, center, n, s, i, j - 1));
        let before = up_index(n, s, i, j - 1);
        assert(before + 2 == up) by {
            reveal(up_index);
        }
        let e = mesh_point(center, s, i + 1, j - 1);
        lemma_mesh_points_differ(center, s, (i + 1, j - 1), (i, j));
        lemma_mesh_points_differ(center, s, (i + 1, j - 1), (i + 1, j));
        lemma_mesh_points_differ(center, s, (i + 1, j - 1), (i, j + 1));
        lemma_two_common_corners(cells[up], cells[before + 1], c, a, b, e);
        assert(mesh_adjacent(cells, k, before + 1));
    } else {
        // the only cell of the last row and the downward cell below it
        assert(i == n - 1);
        assert(sector_cell_placed(cells, center, n, s, i - 1, 0));
        let below = up_index(n, s, i - 1, 0);
        assert(below + 3 == up) by {
            reveal(up_index);
            assert((i - 1) * (2 * n - (i - 1)) + 3 == i * (2 * n - i)) by (nonlinear_arith)
                requires
                    i == n - 1,
            ;
        }
        let f = mesh_point(center, s, i - 1, 1);
        lemma_mesh_points_differ(center, s, (i - 1, 1), (i, 0));
        lemma_mesh_points_differ(center, s, (i - 1, 1), (i + 1, 0));
        lemma_mesh_points_differ(center, s, (i - 1, 1), (i, 1));
        lemma_two_common_corners(cells[up], cells[below + 1], b, a, c, f);
        assert(mesh_adjacent(cells, k, below + 1));
    }
}

/// In the hand-laid mesh, every cell of a sector has a neighbour in it.
proof fn lemma_legacy_neighbour(cells: Seq<Cell>, center: Point, s: int, r: int)
    requires
        -MAX_CENTER <= center.x <= MAX_CENTER,
        -MAX_CENTER <= center.y <= MAX_CENTER,
        0 <= s < 6,
        0 <= r < 4,
        is_legacy_sector(cells, center, s),
    ensures
        exists|other: int| #[trigger] mesh_adjacent(cells, 4 * s + r, other),
{
    let o = mesh_point(center, s, 0, 0);
    let a1 = mesh_point(center, s, 1, 0);
    let a2 = mesh_point(center, s, 2, 0);
    let a3 = mesh_point(center, s, 3, 0);
    let b1 = mesh_point(center, s, 0, 1);
    let b2 = mesh_point(center, s, 0, 2);
    assert(o == center) by {
        reveal(lattice_point);
    }
    lemma_mesh_points_differ(center, s, (0, 0), (1, 0));
    lemma_mesh_points_differ(center, s, (0, 0), (2, 0));
    lemma_mesh_points_differ(center, s, (0, 0), (0, 1));
    lemma_mesh_points_differ(center, s, (1, 0), (2, 0));
    lemma_mesh_points_differ(center, s, (1, 0), (0, 1));
    lemma_mesh_points_differ(center, s, (1, 0), (0, 2));
    lemma_mesh_points_differ(center, s, (2, 0), (0, 1));
    lemma_mesh_points_differ(center, s, (2, 0), (0, 2));
    lemma_mesh_points_differ(center, s, (2, 0), (3, 0));
    lemma_mesh_points_differ(center, s, (0, 1), (0, 2));
    lemma_mesh_points_differ(center, s, (0, 1), (3, 0));
    lemma_mesh_points_differ(center, s, (0, 2), (3, 0));
    let k = 4 * s;
    lemma_two_common_corners(cells[k], cells[k + 1], o, a1, b1, a2);
    lemma_two_common_corners(cells[k + 1], cells[k], a2, a1, b1, o);
    lemma_two_common_corners(cells[k + 2], cells[k + 3], b1, a2, b2, a3);
    lemma_two_common_corners(cells[k + 3], cells[k + 2], a3, a2, b2, b1);
    if r == 0 {
        assert(mesh_adjacent(cells, k + r, k + 1));
    } else if r == 1 {
        assert(mesh_adjacent(cells, k + r, k));
    } else if r == 2 {
        assert(mesh_adjacent(cells, k + r, k + 3));
    } else {
        assert(mesh_adjacent(cells, k + r, k + 2));
    }
}

/// Every cell of a mesh shares an edge with another cell.
pub proof fn lemma_every_cell_has_a_neighbour(grid: TriangularGrid, k: int)
    requires
        grid.wf(),
        0 <= k < grid@.cells@.len(),
    ensures
        exists|other: int| #[trigger] mesh_adjacent(grid@.cells@, k, other),
{
    let cells = grid@.cells@;
    let center = grid@.center;
    match layout_of(grid@.grid_density) {
        MeshLayout::Legacy24 => {
            assert(grid@.grid_density == 2);
            assert(cells.len() == 24) by {
                assert(6 * 2 * 2 == 24);
                assert(cells.len() == 6 * (grid@.grid_density as int) * (grid@.grid_density as int));
            }
            let s = k / 4;
            let r = k % 4;
            assert(is_legacy_sector(cells, center, s));
            lemma_legacy_neighbour(cells, center, s, r);
        },
        MeshLayout::Recursive(density) => {
            let n = density as int;
            lemma_has_place(n, k);
            let (s, i, j, down) = choose|s: int, i: int, j: int, down: bool| #[trigger] is_place(n, k, s, i, j, down);
            assert(is_sector_mesh(cells, center, n, s));
            lemma_placed_neighbour(cells, center, n, k, s, i, j, down);
        },
    }
}

/// Every corner of every cell of a mesh lies in the closed hexagon.
pub proof fn lemma_cells_in_hexagon(grid: TriangularGrid, k: int, corner: int)
    requires
        grid.wf(),
        0 <= k < grid@.cells@.len(),
        0 <= corner < 3,
    ensures
        polygon_contains_point(grid@.vertices@, grid@.cells@[k].vertices[corner]),
{
    let cell = grid@.cells@[k];
    assert(cells_numbered(grid@.cells@, grid@.center, lattice_radius(grid@.grid_density)));
    assert(cell.id == k);
    lemma_hexagon_contains_exactly(grid@, cell.vertices[corner]);
}

/// Two cells with the same corners and centroids that are the exact means of
/// the corners have the same centroid.
proof fn lemma_same_centroid(a: Cell, b: Cell)
    requires
        a.centered(),
        b.centered(),
        a.vertices[0] == b.vertices[0],
        a.vertices[1] == b.vertices[1],
        a.vertices[2] == b.vertices[2],
    ensures
        a.centroid == b.centroid,
        a.vertices =~= b.vertices,
{
}

/// The mesh is fixed by its density and its center: two meshes of the same
/// density around the same center have the same cells.
pub proof fn lemma_mesh_is_fixed(a: TriangularGrid, b: TriangularGrid, k: int)
    requires
        a.wf(),
        b.wf(),
        a@.grid_density == b@.grid_density,
        a@.center == b@.center,
        0 <= k < a@.cells@.len(),
    ensures
        a@.cells@.len() == b@.cells@.len(),
        a@.vertices@ =~= b@.vertices@,
        a@.cells@[k].id == b@.cells@[k].id,
        a@.cells@[k].vertices == b@.cells@[k].vertices,
        a@.cells@[k].centroid == b@.cells@[k].centroid,
{
    let first = a@.cells@;
    let second = b@.cells@;
    let center = a@.center;
    assert(first[k].id == k && first[k].centered());
    assert(second[k].id == k && second[k].centered());
    match layout_of(a@.grid_density) {
        MeshLayout::Legacy24 => {
            assert(first.len() == 24) by {
                assert(6 * 2 * 2 == 24);
                assert(first.len() == 6 * (a@.grid_density as int) * (a@.grid_density as int));
            }
            let s = k / 4;
            assert(is_legacy_sector(first, center, s));
            assert(is_legacy_sector(second, center, s));
        },
        MeshLayout::Recursive(density) => {
            let n = density as int;
            lemma_has_place(n, k);
            let (s, i, j, down) = choose|s: int, i: int, j: int, down: bool| #[trigger] is_place(n, k, s, i, j, down);
            assert(is_sector_mesh(first, center, n, s));
            assert(is_sector_mesh(second, center, n, s));
            assert(sector_cell_placed(first, center, n, s, i, j));
            assert(sector_cell_placed(second, center, n, s, i, j));
        },
    }
    lemma_same_centroid(first[k], second[k]);
}

} // verus!
