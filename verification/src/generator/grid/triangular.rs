//! The triangular mesh that fills the hexagon.

use vstd::prelude::*;
use super::geometry::{
    Cell, HexGrid, Point, MeshLayout, MAX_CENTER, clamp_density, corner, is_adjacency_list,
    lattice_point, lattice_point_at, lattice_radius, layout_for, layout_of, neighbours_of,
    lemma_mesh_triangle_mean,
    within_radius,
};

verus! {

/// Whether the cell has exactly these corners, in this order.
pub open spec fn has_vertices(cell: Cell, a: Point, b: Point, c: Point) -> bool {
    cell.vertices[0] == a && cell.vertices[1] == b && cell.vertices[2] == c
}

/// The mesh point `i` lattice steps towards corner `sector` and `j` steps
/// towards the corner after it.
pub open spec fn mesh_point(center: Point, sector: int, i: int, j: int) -> Point {
    lattice_point(center, sector, 3 * i, 3 * j)
}

/// The position, in a mesh of `n` divisions, of the upward cell of sector
/// `sector`, row `i` and column `j`.  A downward cell follows its upward
/// neighbour.
#[verifier::opaque]
pub open spec fn up_index(n: int, sector: int, i: int, j: int) -> int {
    sector * (n * n) + i * (2 * n - i) + 2 * j
}

/// The upward cell of row `i` and column `j` of a sector stands at its
/// position, and so does the downward cell after it, if the row has one
/// there.
pub open spec fn sector_cell_placed(
    cells: Seq<Cell>,
    center: Point,
    n: int,
    sector: int,
    i: int,
    j: int,
) -> bool {
    let k = up_index(n, sector, i, j);
    &&& 0 <= k < cells.len()
    &&& has_vertices(
        cells[k],
        mesh_point(center, sector, i, j),
        mesh_point(center, sector, i + 1, j),
        mesh_point(center, sector, i, j + 1),
    )
    &&& j < n - i - 1 ==> k + 1 < cells.len() && has_vertices(
        cells[k + 1],
        mesh_point(center, sector, i + 1, j),
        mesh_point(center, sector, i + 1, j + 1),
        mesh_point(center, sector, i, j + 1),
    )
}

/// The cells of a sector that is subdivided into `n * n` triangles: every
/// row `i` holds the upward cells of its columns and, between them, the
/// downward cells.
pub open spec fn is_sector_mesh(cells: Seq<Cell>, center: Point, n: int, sector: int) -> bool {
    forall|i: int, j: int|
        0 <= i < n && 0 <= j < n - i ==> #[trigger] sector_cell_placed(cells, center, n, sector, i, j)
}

/// The four cells of a sector of the hand-laid mesh: the triangle at the
/// center, the triangle of the inner ring, the bridge between the rings and
/// the outer triangle at the corner.
pub open spec fn is_legacy_sector(cells: Seq<Cell>, center: Point, sector: int) -> bool {
    &&& 4 * sector + 3 < cells.len()
    &&& has_vertices(
        cells[4 * sector],
        center,
        mesh_point(center, sector, 1, 0),
        mesh_point(center, sector, 0, 1),
    )
    &&& has_vertices(
        cells[4 * sector + 1],
        mesh_point(center, sector, 1, 0),
        mesh_point(center, sector, 2, 0),
        mesh_point(center, sector, 0, 1),
    )
    &&& has_vertices(
        cells[4 * sector + 2],
        mesh_point(center, sector, 0, 1),
        mesh_point(center, sector, 2, 0),
        mesh_point(center, sector, 0, 2),
    )
    &&& has_vertices(
        cells[4 * sector + 3],
        mesh_point(center, sector, 2, 0),
        mesh_point(center, sector, 3, 0),
        mesh_point(center, sector, 0, 2),
    )
}

/// Every cell carries its position as id and the exact mean of its corners as
/// centroid, and its corners lie in the hexagon of the given radius.
pub open spec fn cells_numbered(cells: Seq<Cell>, center: Point, radius: int) -> bool {
    forall|k: int|
        0 <= k < cells.len() ==> {
            &&& (#[trigger] cells[k]).id == k
            &&& cells[k].centered()
            &&& within_radius(center, radius, cells[k].vertices[0])
            &&& within_radius(center, radius, cells[k].vertices[1])
            &&& within_radius(center, radius, cells[k].vertices[2])
        }
}

/// The cells are the mesh of the given density around `center`.
pub open spec fn is_mesh(cells: Seq<Cell>, center: Point, density: u8) -> bool {
    &&& cells.len() == 6 * (density as int) * (density as int)
    &&& cells_numbered(cells, center, lattice_radius(density))
    &&& match layout_of(density) {
        MeshLayout::Legacy24 => forall|s: int| 0 <= s < 6 ==> #[trigger] is_legacy_sector(cells, center, s),
        MeshLayout::Recursive(n) => forall|s: int|
            0 <= s < 6 ==> #[trigger] is_sector_mesh(cells, center, n as int, s),
    }
}

/// The start of row `i + 1` follows the last cell of row `i`.
proof fn lemma_next_row(n: int, sector: int, i: int)
    requires
        0 <= i < n,
    ensures
        up_index(n, sector, i, n - i - 1) + 1 == up_index(n, sector, i + 1, 0),
        up_index(n, sector, n, 0) == up_index(n, sector + 1, 0, 0),
        up_index(n, 0, 0, 0) == 0,
        up_index(n, 6, 0, 0) == 6 * n * n,
{
    reveal(up_index);
    assert(i * (2 * n - i) + 2 * (n - i - 1) + 1 == (i + 1) * (2 * n - (i + 1))) by (nonlinear_arith);
    assert(sector * (n * n) + n * (2 * n - n) == (sector + 1) * (n * n)) by (nonlinear_arith);
    assert(6 * (n * n) == 6 * n * n) by (nonlinear_arith);
}

/// Within a row, positions grow by two from column to column.
proof fn lemma_column(n: int, sector: int, i: int, j: int)
    ensures
        up_index(n, sector, i, j) == up_index(n, sector, i, 0) + 2 * j,
{
    reveal(up_index);
}

/// A cell that stands at its position stays there when cells are appended.
proof fn lemma_placed_prefix(
    before: Seq<Cell>,
    after: Seq<Cell>,
    center: Point,
    n: int,
    sector: int,
    i: int,
    j: int,
)
    requires
        sector_cell_placed(before, center, n, sector, i, j),
        before.len() <= after.len(),
        forall|k: int| 0 <= k < before.len() ==> after[k] == before[k],
    ensures
        sector_cell_placed(after, center, n, sector, i, j),
{
}

/// Appends a cell with the given corners, numbered by its position.
fn push_cell(
    cells: &mut Vec<Cell>,
    a: Point,
    b: Point,
    c: Point,
    Ghost(center): Ghost<Point>,
    Ghost(radius): Ghost<int>,
)
    requires
        cells_numbered(old(cells)@, center, radius),
        (a.x + b.x + c.x) % 3 == 0,
        (a.y + b.y + c.y) % 3 == 0,
        within_radius(center, radius, a),
        within_radius(center, radius, b),
        within_radius(center, radius, c),
    ensures
        final(cells)@.len() == old(cells)@.len() + 1,
        forall|k: int| 0 <= k < old(cells)@.len() ==> final(cells)@[k] == old(cells)@[k],
        has_vertices(final(cells)@[old(cells)@.len() as int], a, b, c),
        cells_numbered(final(cells)@, center, radius),
{
    let cell = Cell::new(cells.len(), [a, b, c]);
    cells.push(cell);
}

/// A hexagon filled with triangular cells.
#[derive(Debug)]
pub struct TriangularGrid {
    hex_grid: HexGrid,
}

impl View for TriangularGrid {
    type V = HexGrid;

    closed spec fn view(&self) -> HexGrid {
        self.hex_grid
    }
}

impl TriangularGrid {
    /// The hexagon is regular and its cells are the mesh of its density.
    pub open spec fn wf(&self) -> bool {
        &&& self@.wf()
        &&& is_mesh(self@.cells@, self@.center, self@.grid_density)
    }

    /// Builds the mesh of the given density in a hexagon around the origin.
    /// The density is brought into the range of two to eight; the mesh has
    /// six times the square of the density cells.
    pub fn new(size: u32, grid_density: u8) -> (grid: TriangularGrid)
        ensures
            grid.wf(),
            grid@.size == size,
            grid@.grid_density == clamp_density(grid_density),
            grid@.center == (Point { x: 0, y: 0 }),
            grid@.cells@.len() == 6 * (clamp_density(grid_density) as int) * (clamp_density(
                grid_density,
            ) as int),
    {
        let center = Point::new(0, 0);
        let mut hex_grid = HexGrid::new(size, grid_density, center);
        let cells = Self::generate_triangular_cells(&hex_grid);
        hex_grid.cells = cells;
        TriangularGrid { hex_grid }
    }

    /// Lays out the cells of the hexagon: the hand-laid mesh for density two,
    /// the subdivision of the six sectors otherwise.
    fn generate_triangular_cells(hex_grid: &HexGrid) -> (cells: Vec<Cell>)
        requires
            hex_grid.wf(),
        ensures
            is_mesh(cells@, hex_grid.center, hex_grid.grid_density),
    {
        let n: usize = match layout_for(hex_grid.grid_density) {
            MeshLayout::Legacy24 => {
                return Self::generate_legacy_grid(hex_grid);
            },
            MeshLayout::Recursive(density) => density as usize,
        };
        let mut cells: Vec<Cell> = Vec::new();
        let mut sector: usize = 0;
        proof {
            lemma_next_row(n as int, 0, 0);
        }
        while sector < 6
            invariant
                sector <= 6,
                hex_grid.wf(),
                3 <= n <= 8,
                n == hex_grid.grid_density,
                cells@.len() == up_index(n as int, sector as int, 0, 0),
                cells_numbered(cells@, hex_grid.center, 3 * n),
                forall|s: int|
                    0 <= s < sector ==> #[trigger] is_sector_mesh(cells@, hex_grid.center, n as int, s),
            decreases 6 - sector,
        {
            let ghost before = cells@;
            Self::subdivide_triangle(&mut cells, hex_grid.center, sector, n);
            proof {
                assert forall|s: int| 0 <= s < sector implies #[trigger] is_sector_mesh(
                    cells@,
                    hex_grid.center,
                    n as int,
                    s,
                ) by {
                    assert(is_sector_mesh(before, hex_grid.center, n as int, s));
                    assert forall|i: int, j: int| 0 <= i < n && 0 <= j < n - i implies #[trigger] sector_cell_placed(
                        cells@,
                        hex_grid.center,
                        n as int,
                        s,
                        i,
                        j,
                    ) by {
                        lemma_placed_prefix(before, cells@, hex_grid.center, n as int, s, i, j);
                    }
                }
            }
            sector = sector + 1;
        }
        proof {
            lemma_next_row(n as int, 0, 0);
        }
        cells
    }

    /// Appends the `n * n` cells of one sector: row by row, an upward cell
    /// for every column and a downward cell between two columns.
    fn subdivide_triangle(cells: &mut Vec<Cell>, center: Point, sector: usize, n: usize)
        requires
            -MAX_CENTER <= center.x <= MAX_CENTER,
            -MAX_CENTER <= center.y <= MAX_CENTER,
            sector < 6,
            1 <= n <= 8,
            old(cells)@.len() == up_index(n as int, sector as int, 0, 0),
            cells_numbered(old(cells)@, center, 3 * n),
        ensures
            final(cells)@.len() == up_index(n as int, sector + 1, 0, 0),
            old(cells)@.len() <= final(cells)@.len(),
            cells_numbered(final(cells)@, center, 3 * n),
            is_sector_mesh(final(cells)@, center, n as int, sector as int),
            forall|k: int| 0 <= k < old(cells)@.len() ==> final(cells)@[k] == old(cells)@[k],
    {
        let mut i: usize = 0;
        while i < n
            invariant
                i <= n,
                -MAX_CENTER <= center.x <= MAX_CENTER,
                -MAX_CENTER <= center.y <= MAX_CENTER,
                sector < 6,
                1 <= n <= 8,
                old(cells)@.len() <= cells@.len(),
                cells@.len() == up_index(n as int, sector as int, i as int, 0),
                cells_numbered(cells@, center, 3 * n),
                forall|k: int| 0 <= k < old(cells)@.len() ==> cells@[k] == old(cells)@[k],
                forall|a: int, b: int|
                    0 <= a < i && 0 <= b < n - a ==> #[trigger] sector_cell_placed(
                        cells@,
                        center,
                        n as int,
                        sector as int,
                        a,
                        b,
                    ),
            decreases n - i,
        {
            let mut j: usize = 0;
            while j < n - i
                invariant
                    i < n,
                    j <= n - i,
                    -MAX_CENTER <= center.x <= MAX_CENTER,
                    -MAX_CENTER <= center.y <= MAX_CENTER,
                    sector < 6,
                    1 <= n <= 8,
                    old(cells)@.len() <= cells@.len(),
                    cells@.len() == up_index(n as int, sector as int, i as int, 0) + 2 * j - (if j
                        == n - i {
                        1int
                    } else {
                        0int
                    }),
                    cells_numbered(cells@, center, 3 * n),
                    forall|k: int| 0 <= k < old(cells)@.len() ==> cells@[k] == old(cells)@[k],
                    forall|a: int, b: int|
                        (0 <= a < i && 0 <= b < n - a) || (a == i && 0 <= b < j)
                            ==> #[trigger] sector_cell_placed(
                            cells@,
                            center,
                            n as int,
                            sector as int,
                            a,
                            b,
                        ),
                decreases n - i - j,
            {
                let ghost before = cells@;
                Self::push_column(cells, center, sector, n, i, j);
                proof {
                    assert forall|a: int, b: int|
                        (0 <= a < i && 0 <= b < n - a) || (a == i && 0 <= b < j + 1) implies #[trigger] sector_cell_placed(
                        cells@,
                        center,
                        n as int,
                        sector as int,
                        a,
                        b,
                    ) by {
                        if !(a == i && b == j) {
                            lemma_placed_prefix(before, cells@, center, n as int, sector as int, a, b);
                        }
                    }
                }
                j = j + 1;
            }
            proof {
                lemma_next_row(n as int, sector as int, i as int);
                lemma_column(n as int, sector as int, i as int, n - i - 1);
            }
            i = i + 1;
        }
        proof {
            lemma_next_row(n as int, sector as int, 0);
        }
    }

    /// Appends the upward cell of row `i` and column `j` and, unless the
    /// column is the last of its row, the downward cell after it.
    fn push_column(cells: &mut Vec<Cell>, center: Point, sector: usize, n: usize, i: usize, j: usize)
        requires
            -MAX_CENTER <= center.x <= MAX_CENTER,
            -MAX_CENTER <= center.y <= MAX_CENTER,
            sector < 6,
            1 <= n <= 8,
            i < n,
            j < n - i,
            old(cells)@.len() == up_index(n as int, sector as int, i as int, 0) + 2 * j,
            cells_numbered(old(cells)@, center, 3 * n),
        ensures
            final(cells)@.len() == old(cells)@.len() + (if j < n - i - 1 {
                2int
            } else {
                1int
            }),
            forall|k: int| 0 <= k < old(cells)@.len() ==> final(cells)@[k] == old(cells)@[k],
            cells_numbered(final(cells)@, center, 3 * n),
            sector_cell_placed(final(cells)@, center, n as int, sector as int, i as int, j as int),
    {
        proof {
            lemma_column(n as int, sector as int, i as int, j as int);
        }
        Self::push_triangle(cells, center, sector, n, (i, j), (i + 1, j), (i, j + 1));
        if j < n - i - 1 {
            Self::push_triangle(cells, center, sector, n, (i + 1, j), (i + 1, j + 1), (i, j + 1));
        }
    }

    /// Appends the cell whose corners are the three given mesh points of a
    /// sector, each given by its steps towards the two corners of the sector.
    fn push_triangle(
        cells: &mut Vec<Cell>,
        center: Point,
        sector: usize,
        n: usize,
        a: (usize, usize),
        b: (usize, usize),
        c: (usize, usize),
    )
        requires
            -MAX_CENTER <= center.x <= MAX_CENTER,
            -MAX_CENTER <= center.y <= MAX_CENTER,
            sector < 6,
            1 <= n <= 8,
            a.0 + a.1 <= n,
            b.0 + b.1 <= n,
            c.0 + c.1 <= n,
            cells_numbered(old(cells)@, center, 3 * n),
        ensures
            final(cells)@.len() == old(cells)@.len() + 1,
            forall|k: int| 0 <= k < old(cells)@.len() ==> final(cells)@[k] == old(cells)@[k],
            cells_numbered(final(cells)@, center, 3 * n),
            has_vertices(
                final(cells)@[old(cells)@.len() as int],
                mesh_point(center, sector as int, a.0 as int, a.1 as int),
                mesh_point(center, sector as int, b.0 as int, b.1 as int),
                mesh_point(center, sector as int, c.0 as int, c.1 as int),
            ),
    {
        let pa = lattice_point_at(center, sector, 3 * (a.0 as i32), 3 * (a.1 as i32));
        let pb = lattice_point_at(center, sector, 3 * (b.0 as i32), 3 * (b.1 as i32));
        let pc = lattice_point_at(center, sector, 3 * (c.0 as i32), 3 * (c.1 as i32));
        proof {
            lemma_mesh_triangle_mean(
                center,
                sector as int,
                (a.0 as int, a.1 as int),
                (b.0 as int, b.1 as int),
                (c.0 as int, c.1 as int),
            );
        }
        push_cell(cells, pa, pb, pc, Ghost(center), Ghost(3 * n as int));
    }

    /// Lays out the 24 cells of the hand-laid mesh of density two: four per
    /// sector, on rings at one and two thirds of the way to the corners.
    fn generate_legacy_grid(hex_grid: &HexGrid) -> (cells: Vec<Cell>)
        requires
            hex_grid.wf(),
            hex_grid.grid_density == 2,
        ensures
            is_mesh(cells@, hex_grid.center, hex_grid.grid_density),
    {
        let center = hex_grid.center;
        let mut cells: Vec<Cell> = Vec::new();
        let mut sector: usize = 0;
        while sector < 6
            invariant
                sector <= 6,
                hex_grid.wf(),
                hex_grid.grid_density == 2,
                center == hex_grid.center,
                cells@.len() == 4 * sector,
                cells_numbered(cells@, center, 9),
                forall|s: int| 0 <= s < sector ==> #[trigger] is_legacy_sector(cells@, center, s),
            decreases 6 - sector,
        {
            let ghost before = cells@;
            let outer = hex_grid.vertices[sector];
            assert(outer == corner(center, 2, sector as int));
            let inner = lattice_point_at(center, sector, 3, 0);
            let inner_next = lattice_point_at(center, sector, 0, 3);
            let middle = lattice_point_at(center, sector, 6, 0);
            let middle_next = lattice_point_at(center, sector, 0, 6);
            proof {
                reveal(lattice_point);
                lemma_mesh_triangle_mean(center, sector as int, (0, 0), (1, 0), (0, 1));
                lemma_mesh_triangle_mean(center, sector as int, (1, 0), (2, 0), (0, 1));
                lemma_mesh_triangle_mean(center, sector as int, (0, 1), (2, 0), (0, 2));
                lemma_mesh_triangle_mean(center, sector as int, (2, 0), (3, 0), (0, 2));
            }
            push_cell(&mut cells, center, inner, inner_next, Ghost(center), Ghost(9));
            push_cell(&mut cells, inner, middle, inner_next, Ghost(center), Ghost(9));
            push_cell(&mut cells, inner_next, middle, middle_next, Ghost(center), Ghost(9));
            push_cell(&mut cells, middle, outer, middle_next, Ghost(center), Ghost(9));
            proof {
                assert forall|s: int| 0 <= s < sector + 1 implies #[trigger] is_legacy_sector(
                    cells@,
                    center,
                    s,
                ) by {
                    if s < sector {
                        assert(is_legacy_sector(before, center, s));
                        assert(cells@[4 * s] == before[4 * s]);
                        assert(cells@[4 * s + 1] == before[4 * s + 1]);
                        assert(cells@[4 * s + 2] == before[4 * s + 2]);
                        assert(cells@[4 * s + 3] == before[4 * s + 3]);
                    }
                }
            }
            sector = sector + 1;
        }
        cells
    }

    /// The hexagon with its cells.
    pub fn hex_grid(&self) -> (grid: &HexGrid)
        ensures
            *grid == self@,
    {
        &self.hex_grid
    }

    /// The hexagon with its cells, for changes.  The mesh is well formed
    /// afterwards only if the changes keep it so.
    pub fn hex_grid_mut(&mut self) -> (grid: &mut HexGrid)
        ensures
            *grid == old(self)@,
            final(self)@ == *final(grid),
    {
        &mut self.hex_grid
    }

    /// The cell with the given id, if there is one.
    pub fn get_cell(&self, index: usize) -> (cell: Option<&Cell>)
        ensures
            index < self@.cells@.len() ==> cell == Some(&self@.cells@[index as int]),
            index >= self@.cells@.len() ==> cell.is_none(),
    {
        self.hex_grid.get_cell(index)
    }

    /// The number of cells.
    pub fn cell_count(&self) -> (count: usize)
        ensures
            count == self@.cells@.len(),
    {
        self.hex_grid.cells.len()
    }

    /// The ids of the cells that share an edge with the given cell, in
    /// growing order; empty when there is no such cell.
    pub fn adjacent_cells(&self, cell_id: usize) -> (adjacent: Vec<usize>)
        ensures
            is_adjacency_list(self@.cells@, cell_id as int, adjacent@),
            adjacent@ == neighbours_of(self@.cells@, cell_id as int),
    {
        self.hex_grid.adjacent_cells(cell_id)
    }

    /// The centroid of the given cell, if there is such a cell.
    pub fn get_cell_centroid(&self, cell_id: usize) -> (centroid: Option<Point>)
        ensures
            cell_id < self@.cells@.len() ==> centroid == Some(self@.cells@[cell_id as int].centroid),
            cell_id >= self@.cells@.len() ==> centroid.is_none(),
    {
        match self.get_cell(cell_id) {
            Some(cell) => Some(cell.centroid),
            None => None,
        }
    }

    /// All cells, in the order of their ids.
    pub fn cells(&self) -> (cells: &Vec<Cell>)
        ensures
            cells@ == self@.cells@,
    {
        &self.hex_grid.cells
    }
}

} // verus!
