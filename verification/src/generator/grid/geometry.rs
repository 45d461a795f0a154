//! Points, triangular cells and the hexagon that bounds them.
//!
//! Coordinates are integers on a lattice of equilateral triangles.  `x`
//! counts half steps along the horizontal axis and `y` counts rows; one row is
//! `√3` half steps high.  The triangle with corners `(0, 0)`, `(2, 0)` and
//! `(1, 1)` is therefore equilateral, and so is every triangle of the mesh.
//! To draw a point of a hexagon of circumradius `size`, scale `x - center.x`
//! by `size / (2 * lattice_radius)` and `y - center.y` by `√3` times that.

use vstd::prelude::*;
use crate::math::{sqrt_floor, isqrt, div_floor_three};

verus! {

/// Largest absolute value of a coordinate of a hexagon's center.
pub const MAX_CENTER: i32 = 1_000_000_000;

/// A lattice point.
#[derive(Debug, Clone, Copy, PartialEq, Eq, Structural)]
pub struct Point {
    pub x: i32,
    pub y: i32,
}

/// The square of the Euclidean distance between two points, in half steps.
pub open spec fn distance_squared(a: Point, b: Point) -> nat {
    let dx = a.x - b.x;
    let dy = a.y - b.y;
    (dx * dx + 3 * (dy * dy)) as nat
}

/// The Euclidean distance between two points in half steps, rounded down.
pub open spec fn distance(a: Point, b: Point) -> nat {
    sqrt_floor(distance_squared(a, b))
}

/// Twice the signed area of the triangle `a`, `b`, `c`, in lattice units
/// (positive when the corners run counter-clockwise).
pub open spec fn twice_area(a: Point, b: Point, c: Point) -> int {
    (b.x - a.x) * (c.y - a.y) - (c.x - a.x) * (b.y - a.y)
}

/// The product of two coordinate differences stays within 65 bits.
pub proof fn lemma_product_bound(u: int, v: int)
    requires
        -0x1_0000_0000 <= u <= 0x1_0000_0000,
        -0x1_0000_0000 <= v <= 0x1_0000_0000,
    ensures
        -0x1_0000_0000_0000_0000 <= u * v <= 0x1_0000_0000_0000_0000,
{
    assert(-0x1_0000_0000_0000_0000 <= u * v <= 0x1_0000_0000_0000_0000) by (nonlinear_arith)
        requires
            -0x1_0000_0000 <= u <= 0x1_0000_0000,
            -0x1_0000_0000 <= v <= 0x1_0000_0000,
    ;
}

/// Computes twice the signed area of a triangle.
pub fn signed_area(a: Point, b: Point, c: Point) -> (r: i128)
    ensures
        r == twice_area(a, b, c),
        -0x2_0000_0000_0000_0000 <= r <= 0x2_0000_0000_0000_0000,
{
    let bx: i64 = b.x as i64 - a.x as i64;
    let by: i64 = b.y as i64 - a.y as i64;
    let cx: i64 = c.x as i64 - a.x as i64;
    let cy: i64 = c.y as i64 - a.y as i64;
    proof {
        lemma_product_bound(bx as int, cy as int);
        lemma_product_bound(cx as int, by as int);
    }
    (bx as i128) * (cy as i128) - (cx as i128) * (by as i128)
}

impl Point {
    pub fn new(x: i32, y: i32) -> (p: Point)
        ensures
            p.x == x,
            p.y == y,
    {
        Point { x, y }
    }

    /// The exact squared distance to `other`.
    pub fn distance_squared(&self, other: &Point) -> (d: u128)
        ensures
            d == distance_squared(*self, *other),
    {
        let dx: i64 = self.x as i64 - other.x as i64;
        let dy: i64 = self.y as i64 - other.y as i64;
        proof {
            lemma_product_bound(dx as int, dx as int);
            lemma_product_bound(dy as int, dy as int);
            assert(dx * dx >= 0) by (nonlinear_arith);
            assert(dy * dy >= 0) by (nonlinear_arith);
        }
        let sx: i128 = (dx as i128) * (dx as i128);
        let sy: i128 = (dy as i128) * (dy as i128);
        (sx + 3 * sy) as u128
    }

    /// The distance to `other`, rounded down to a whole number of half steps.
    pub fn distance(&self, other: &Point) -> (d: u64)
        ensures
            d == distance(*self, *other),
    {
        isqrt(self.distance_squared(other))
    }
}

/// A triangular cell of the mesh.
#[derive(Debug, Clone)]
pub struct Cell {
    pub id: usize,
    pub vertices: [Point; 3],
    pub centroid: Point,
}

/// The mean of three points, each coordinate rounded down.
pub open spec fn mean_point(a: Point, b: Point, c: Point) -> Point {
    Point { x: ((a.x + b.x + c.x) / 3) as i32, y: ((a.y + b.y + c.y) / 3) as i32 }
}

/// Whether `p` lies in the closed triangle `a`, `b`, `c`: all three
/// barycentric weights of `p` are non-negative.  A triangle without area
/// contains nothing.
pub open spec fn contains_point(a: Point, b: Point, c: Point, p: Point) -> bool {
    let area = twice_area(a, b, c);
    let s = twice_area(a, p, c);
    let t = twice_area(a, b, p);
    if area > 0 {
        s >= 0 && t >= 0 && area - s - t >= 0
    } else if area < 0 {
        s <= 0 && t <= 0 && area - s - t <= 0
    } else {
        false
    }
}

/// One if the two points coincide, zero otherwise.
pub open spec fn same_point(a: Point, b: Point) -> int {
    if a == b {
        1
    } else {
        0
    }
}

/// The number of pairs of coinciding corners of two cells.
pub open spec fn shared_vertices(a: Cell, b: Cell) -> int {
    same_point(a.vertices[0], b.vertices[0]) + same_point(a.vertices[0], b.vertices[1])
        + same_point(a.vertices[0], b.vertices[2]) + same_point(a.vertices[1], b.vertices[0])
        + same_point(a.vertices[1], b.vertices[1]) + same_point(a.vertices[1], b.vertices[2])
        + same_point(a.vertices[2], b.vertices[0]) + same_point(a.vertices[2], b.vertices[1])
        + same_point(a.vertices[2], b.vertices[2])
}

/// Two cells are adjacent when they share exactly two corners, that is an
/// edge.
pub open spec fn cells_adjacent(a: Cell, b: Cell) -> bool {
    shared_vertices(a, b) == 2
}

/// Adjacency of cells is symmetric.
pub proof fn lemma_cells_adjacent_symmetric(a: Cell, b: Cell)
    ensures
        cells_adjacent(a, b) == cells_adjacent(b, a),
{
}

impl Cell {
    /// Whether the centroid is the exact mean of the corners.
    pub open spec fn centered(&self) -> bool {
        &&& 3 * self.centroid.x == self.vertices[0].x + self.vertices[1].x + self.vertices[2].x
        &&& 3 * self.centroid.y == self.vertices[0].y + self.vertices[1].y + self.vertices[2].y
    }

    /// Builds a cell and computes its centroid.
    pub fn new(id: usize, vertices: [Point; 3]) -> (cell: Cell)
        ensures
            cell.id == id,
            cell.vertices == vertices,
            cell.centroid == mean_point(vertices[0], vertices[1], vertices[2]),
            (vertices[0].x + vertices[1].x + vertices[2].x) % 3 == 0 && (vertices[0].y
                + vertices[1].y + vertices[2].y) % 3 == 0 ==> cell.centered(),
    {
        let sum_x: i64 = vertices[0].x as i64 + vertices[1].x as i64 + vertices[2].x as i64;
        let sum_y: i64 = vertices[0].y as i64 + vertices[1].y as i64 + vertices[2].y as i64;
        let centroid = Point { x: div_floor_three(sum_x) as i32, y: div_floor_three(sum_y) as i32 };
        Cell { id, vertices, centroid }
    }

    /// Whether `point` lies inside the cell or on its boundary.
    pub fn contains_point(&self, point: &Point) -> (inside: bool)
        ensures
            inside == contains_point(self.vertices[0], self.vertices[1], self.vertices[2], *point),
    {
        let area: i128 = signed_area(self.vertices[0], self.vertices[1], self.vertices[2]);
        let s: i128 = signed_area(self.vertices[0], *point, self.vertices[2]);
        let t: i128 = signed_area(self.vertices[0], self.vertices[1], *point);
        if area > 0 {
            s >= 0 && t >= 0 && area - s - t >= 0
        } else if area < 0 {
            s <= 0 && t <= 0 && area - s - t <= 0
        } else {
            false
        }
    }

    /// Whether the two cells share an edge.
    pub fn is_adjacent(&self, other: &Cell) -> (adjacent: bool)
        ensures
            adjacent == cells_adjacent(*self, *other),
    {
        let mut shared: u8 = 0;
        let mut i: usize = 0;
        while i < 3
            invariant
                i <= 3,
                i == 0 ==> shared == 0,
                i == 1 ==> shared == same_point(self.vertices[0], other.vertices[0]) + same_point(
                    self.vertices[0],
                    other.vertices[1],
                ) + same_point(self.vertices[0], other.vertices[2]),
                i == 2 ==> shared == same_point(self.vertices[0], other.vertices[0]) + same_point(
                    self.vertices[0],
                    other.vertices[1],
                ) + same_point(self.vertices[0], other.vertices[2]) + same_point(
                    self.vertices[1],
                    other.vertices[0],
                ) + same_point(self.vertices[1], other.vertices[1]) + same_point(
                    self.vertices[1],
                    other.vertices[2],
                ),
                i == 3 ==> shared == shared_vertices(*self, *other),
            decreases 3 - i,
        {
            let v: Point = self.vertices[i];
            if v == other.vertices[0] {
                shared = shared + 1;
            }
            if v == other.vertices[1] {
                shared = shared + 1;
            }
            if v == other.vertices[2] {
                shared = shared + 1;
            }
            i = i + 1;
        }
        shared == 2
    }
}

/// Brings a density into the supported range of two to eight.
pub open spec fn clamp_density(density: u8) -> u8 {
    if density < 2 {
        2
    } else if density > 8 {
        8
    } else {
        density
    }
}

/// How a density is laid out: the hand-laid mesh of 24 cells, or the
/// subdivision of every sector into `density * density` cells.
#[derive(Debug, Clone, Copy, PartialEq, Eq, Structural)]
pub enum MeshLayout {
    Legacy24,
    Recursive(u8),
}

/// The layout that belongs to a density.
pub open spec fn layout_of(density: u8) -> MeshLayout {
    if clamp_density(density) == 2 {
        MeshLayout::Legacy24
    } else {
        MeshLayout::Recursive(clamp_density(density))
    }
}

/// Decides how a density is laid out.
pub fn layout_for(density: u8) -> (layout: MeshLayout)
    ensures
        layout == layout_of(density),
{
    if density <= 2 {
        MeshLayout::Legacy24
    } else if density > 8 {
        MeshLayout::Recursive(8)
    } else {
        MeshLayout::Recursive(density)
    }
}

/// The number of lattice steps on one edge of a sector.
pub open spec fn divisions(density: u8) -> int {
    match layout_of(density) {
        MeshLayout::Legacy24 => 3,
        MeshLayout::Recursive(d) => d as int,
    }
}

/// The distance from the center to a corner of the hexagon, counted in
/// thirds of a lattice step, so that the centroid of every cell is a lattice
/// point too.  A corner lies `2 * lattice_radius` half steps from the center.
pub open spec fn lattice_radius(density: u8) -> int {
    3 * divisions(density)
}

/// The change of `x` after `k` thirds of a lattice step towards corner
/// `sector` (taken modulo six).
pub open spec fn step_x(sector: int, k: int) -> int {
    let s = sector % 6;
    if s == 0 {
        2 * k
    } else if s == 1 {
        k
    } else if s == 2 {
        -k
    } else if s == 3 {
        -2 * k
    } else if s == 4 {
        -k
    } else {
        k
    }
}

/// The change of `y` after `k` thirds of a lattice step towards corner
/// `sector` (taken modulo six).
pub open spec fn step_y(sector: int, k: int) -> int {
    let s = sector % 6;
    if s == 0 {
        0
    } else if s == 1 {
        k
    } else if s == 2 {
        k
    } else if s == 3 {
        0
    } else if s == 4 {
        -k
    } else {
        -k
    }
}

/// The point reached from `center` by `i` thirds of a step towards corner
/// `sector` and `j` thirds of a step towards the corner after it.
#[verifier::opaque]
pub open spec fn lattice_point(center: Point, sector: int, i: int, j: int) -> Point {
    Point {
        x: (center.x + step_x(sector, i) + step_x(sector + 1, j)) as i32,
        y: (center.y + step_y(sector, i) + step_y(sector + 1, j)) as i32,
    }
}

/// Computes a lattice point near the center of a hexagon.
pub fn lattice_point_at(center: Point, sector: usize, i: i32, j: i32) -> (p: Point)
    requires
        -MAX_CENTER <= center.x <= MAX_CENTER,
        -MAX_CENTER <= center.y <= MAX_CENTER,
        sector < 6,
        0 <= i <= 1000,
        0 <= j <= 1000,
    ensures
        p == lattice_point(center, sector as int, i as int, j as int),
        within_radius(center, i + j, p),
{
    reveal(lattice_point);
    let (dx, dy): (i32, i32) = if sector == 0 {
        (2 * i + j, j)
    } else if sector == 1 {
        (i - j, i + j)
    } else if sector == 2 {
        (0 - i - 2 * j, i)
    } else if sector == 3 {
        (0 - 2 * i - j, 0 - j)
    } else if sector == 4 {
        (j - i, 0 - i - j)
    } else {
        (i + 2 * j, 0 - i)
    };
    Point { x: center.x + dx, y: center.y + dy }
}

/// The corners of a triangle of mesh points add up to three times the
/// lattice point between them.
pub proof fn lemma_mesh_triangle_mean(
    center: Point,
    sector: int,
    a: (int, int),
    b: (int, int),
    c: (int, int),
)
    requires
        -MAX_CENTER <= center.x <= MAX_CENTER,
        -MAX_CENTER <= center.y <= MAX_CENTER,
        0 <= sector < 6,
        0 <= a.0 <= 100 && 0 <= a.1 <= 100,
        0 <= b.0 <= 100 && 0 <= b.1 <= 100,
        0 <= c.0 <= 100 && 0 <= c.1 <= 100,
    ensures
        ({
            let m = lattice_point(center, sector, a.0 + b.0 + c.0, a.1 + b.1 + c.1);
            let pa = lattice_point(center, sector, 3 * a.0, 3 * a.1);
            let pb = lattice_point(center, sector, 3 * b.0, 3 * b.1);
            let pc = lattice_point(center, sector, 3 * c.0, 3 * c.1);
            pa.x + pb.x + pc.x == 3 * m.x && pa.y + pb.y + pc.y == 3 * m.y
        }),
{
    reveal(lattice_point);
}

/// Corner `sector` of the hexagon around `center`, at the angle
/// `sector * 60°`.
pub open spec fn corner(center: Point, density: u8, sector: int) -> Point {
    lattice_point(center, sector, lattice_radius(density), 0)
}

/// Whether `p` is one of the vertices.
pub open spec fn is_polygon_vertex(vertices: Seq<Point>, p: Point) -> bool {
    exists|i: int| 0 <= i < vertices.len() && vertices[i] == p
}

/// Whether `p` lies on the closed segment from `a` to `b`.
pub open spec fn on_segment(a: Point, b: Point, p: Point) -> bool {
    &&& twice_area(a, b, p) == 0
    &&& (a.x <= p.x <= b.x || b.x <= p.x <= a.x)
    &&& (a.y <= p.y <= b.y || b.y <= p.y <= a.y)
}

/// The vertex before vertex `i`, cyclically.
pub open spec fn previous_vertex(vertices: Seq<Point>, i: int) -> Point {
    if i == 0 {
        vertices[vertices.len() - 1]
    } else {
        vertices[i - 1]
    }
}

/// Whether `p` lies on the edge that ends in vertex `i`.
pub open spec fn on_edge(vertices: Seq<Point>, i: int, p: Point) -> bool {
    on_segment(vertices[i], previous_vertex(vertices, i), p)
}

/// Whether `p` lies on one of the polygon's edges.
pub open spec fn on_polygon_edge(vertices: Seq<Point>, p: Point) -> bool {
    exists|i: int| 0 <= i < vertices.len() && #[trigger] on_edge(vertices, i, p)
}

/// Whether the ray from `p` in the direction of growing `x` crosses the edge
/// from `vj` to `vi`.  The edge counts when exactly one of its ends lies
/// above the ray and the crossing lies to the right of `p`.
pub open spec fn ray_crosses(vi: Point, vj: Point, p: Point) -> bool {
    &&& (vi.y > p.y) != (vj.y > p.y)
    &&& if vj.y > vi.y {
        (p.x - vi.x) * (vj.y - vi.y) < (vj.x - vi.x) * (p.y - vi.y)
    } else {
        (p.x - vi.x) * (vj.y - vi.y) > (vj.x - vi.x) * (p.y - vi.y)
    }
}

/// The number of edges among the first `n` that the ray from `p` crosses.
pub open spec fn crossings(vertices: Seq<Point>, p: Point, n: nat) -> nat
    decreases n,
{
    if n == 0 {
        0
    } else {
        crossings(vertices, p, (n - 1) as nat) + if ray_crosses(
            vertices[n - 1],
            previous_vertex(vertices, n - 1),
            p,
        ) {
            1nat
        } else {
            0nat
        }
    }
}

/// Whether `p` lies in the closed polygon: it is a vertex, or it lies on an
/// edge, or the ray from it crosses the boundary an odd number of times.
pub open spec fn polygon_contains_point(vertices: Seq<Point>, p: Point) -> bool {
    is_polygon_vertex(vertices, p) || on_polygon_edge(vertices, p) || crossings(
        vertices,
        p,
        vertices.len(),
    ) % 2 == 1
}

/// Decides whether `p` lies on the closed segment from `a` to `b`.
pub fn point_on_segment(a: Point, b: Point, p: Point) -> (on: bool)
    ensures
        on == on_segment(a, b, p),
{
    let area: i128 = signed_area(a, b, p);
    area == 0 && ((a.x <= p.x && p.x <= b.x) || (b.x <= p.x && p.x <= a.x)) && ((a.y <= p.y && p.y
        <= b.y) || (b.y <= p.y && p.y <= a.y))
}

/// Decides whether the ray from `p` crosses the edge from `vj` to `vi`.
pub fn edge_crossed(vi: Point, vj: Point, p: Point) -> (crossed: bool)
    ensures
        crossed == ray_crosses(vi, vj, p),
{
    if (vi.y > p.y) != (vj.y > p.y) {
        let px: i64 = p.x as i64 - vi.x as i64;
        let py: i64 = p.y as i64 - vi.y as i64;
        let ex: i64 = vj.x as i64 - vi.x as i64;
        let ey: i64 = vj.y as i64 - vi.y as i64;
        proof {
            lemma_product_bound(px as int, ey as int);
            lemma_product_bound(ex as int, py as int);
        }
        let left: i128 = (px as i128) * (ey as i128);
        let right: i128 = (ex as i128) * (py as i128);
        if ey > 0 {
            left < right
        } else {
            left > right
        }
    } else {
        false
    }
}

/// Whether `p` lies in the closed regular hexagon around `center` whose
/// corners are `radius` thirds of a lattice step away: at most `radius` rows
/// above or below the center, and between the slanted edges.
pub open spec fn within_radius(center: Point, radius: int, p: Point) -> bool {
    let dx = p.x - center.x;
    let dy = p.y - center.y;
    &&& -radius <= dy <= radius
    &&& dx + dy <= 2 * radius
    &&& dx - dy <= 2 * radius
    &&& -dx + dy <= 2 * radius
    &&& -dx - dy <= 2 * radius
}

/// Whether `p` lies in the closed regular hexagon of the given density
/// around `center`.
pub open spec fn in_hexagon(center: Point, density: u8, p: Point) -> bool {
    within_radius(center, lattice_radius(density), p)
}

/// On an edge that runs along a lattice diagonal, the crossing test compares
/// the offsets of the point from the edge's end.
proof fn lemma_ray_crosses_diagonal(vi: Point, vj: Point, p: Point)
    requires
        vj.y != vi.y,
        vj.x - vi.x == vj.y - vi.y || vj.x - vi.x == -(vj.y - vi.y),
    ensures
        vj.x - vi.x == vj.y - vi.y ==> ray_crosses(vi, vj, p) == (((vi.y > p.y) != (vj.y > p.y)) && p.x
            - vi.x < p.y - vi.y),
        vj.x - vi.x == -(vj.y - vi.y) ==> ray_crosses(vi, vj, p) == (((vi.y > p.y) != (vj.y > p.y))
            && p.x - vi.x < -(p.y - vi.y)),
{
    let a = p.x - vi.x;
    let b = p.y - vi.y;
    let e = vj.y - vi.y;
    assert(e > 0 ==> (a * e < e * b <==> a < b)) by (nonlinear_arith);
    assert(e < 0 ==> (a * e > e * b <==> a < b)) by (nonlinear_arith);
    assert(e > 0 ==> (a * e < (-e) * b <==> a < -b)) by (nonlinear_arith);
    assert(e < 0 ==> (a * e > (-e) * b <==> a < -b)) by (nonlinear_arith);
}

/// A point lies on the line of a diagonal edge when its offsets from the
/// edge's end agree up to the sign of the diagonal, and on the line of a
/// level edge when it is level with it.
proof fn lemma_on_segment_lattice(a: Point, b: Point, p: Point)
    requires
        a != b,
        b.y == a.y || b.x - a.x == b.y - a.y || b.x - a.x == -(b.y - a.y),
    ensures
        b.y == a.y ==> (twice_area(a, b, p) == 0 <==> p.y == a.y),
        b.y != a.y && b.x - a.x == b.y - a.y ==> (twice_area(a, b, p) == 0 <==> p.x - a.x == p.y - a.y),
        b.y != a.y && b.x - a.x == -(b.y - a.y) ==> (twice_area(a, b, p) == 0 <==> p.x - a.x == -(p.y
            - a.y)),
{
    let ex = b.x - a.x;
    let ey = b.y - a.y;
    let u = p.x - a.x;
    let v = p.y - a.y;
    assert(ey == 0 && ex != 0 ==> (ex * v - u * ey == 0 <==> v == 0)) by (nonlinear_arith);
    assert(ey != 0 && ex == ey ==> (ex * v - u * ey == 0 <==> u == v)) by (nonlinear_arith);
    assert(ey != 0 && ex == -ey ==> (ex * v - u * ey == 0 <==> u == -v)) by (nonlinear_arith);
}

/// The three-tier containment test accepts exactly the lattice points of
/// the closed hexagon.  In particular it accepts the center and the six
/// corners, and rejects every point that lies farther from the center than
/// a corner does.
pub proof fn lemma_hexagon_contains_exactly(grid: HexGrid, p: Point)
    requires
        grid.wf(),
    ensures
        polygon_contains_point(grid.vertices@, p) == in_hexagon(grid.center, grid.grid_density, p),
        polygon_contains_point(grid.vertices@, grid.center),
        forall|s: int| 0 <= s < 6 ==> polygon_contains_point(grid.vertices@, #[trigger] grid.vertices@[s]),
{
    lemma_hexagon_contains(grid, p);
    lemma_hexagon_contains(grid, grid.center);
    assert forall|s: int| 0 <= s < 6 implies polygon_contains_point(
        grid.vertices@,
        #[trigger] grid.vertices@[s],
    ) by {
        lemma_hexagon_contains(grid, grid.vertices@[s]);
    }
}

/// The containment test agrees with the hexagon at `p`.
proof fn lemma_hexagon_contains(grid: HexGrid, p: Point)
    requires
        grid.wf(),
    ensures
        polygon_contains_point(grid.vertices@, p) == in_hexagon(grid.center, grid.grid_density, p),
{
    reveal(lattice_point);
    let v = grid.vertices@;
    let r = lattice_radius(grid.grid_density);
    let c = grid.center;
    assert(9 <= r <= 24);
    assert(v[0] == corner(c, grid.grid_density, 0));
    assert(v[1] == corner(c, grid.grid_density, 1));
    assert(v[2] == corner(c, grid.grid_density, 2));
    assert(v[3] == corner(c, grid.grid_density, 3));
    assert(v[4] == corner(c, grid.grid_density, 4));
    assert(v[5] == corner(c, grid.grid_density, 5));
    assert(v[0].x == c.x + 2 * r && v[0].y == c.y);
    assert(v[1].x == c.x + r && v[1].y == c.y + r);
    assert(v[2].x == c.x - r && v[2].y == c.y + r);
    assert(v[3].x == c.x - 2 * r && v[3].y == c.y);
    assert(v[4].x == c.x - r && v[4].y == c.y - r);
    assert(v[5].x == c.x + r && v[5].y == c.y - r);
    lemma_ray_crosses_diagonal(v[0], v[5], p);
    lemma_ray_crosses_diagonal(v[1], v[0], p);
    lemma_ray_crosses_diagonal(v[3], v[2], p);
    lemma_ray_crosses_diagonal(v[4], v[3], p);
    assert(!ray_crosses(v[2], v[1], p));
    assert(!ray_crosses(v[5], v[4], p));
    lemma_on_segment_lattice(v[0], v[5], p);
    lemma_on_segment_lattice(v[1], v[0], p);
    lemma_on_segment_lattice(v[2], v[1], p);
    lemma_on_segment_lattice(v[3], v[2], p);
    lemma_on_segment_lattice(v[4], v[3], p);
    lemma_on_segment_lattice(v[5], v[4], p);
    reveal_with_fuel(crossings, 7);
    assert(previous_vertex(v, 0) == v[5]);
    let e0 = on_edge(v, 0, p);
    let e1 = on_edge(v, 1, p);
    let e2 = on_edge(v, 2, p);
    let e3 = on_edge(v, 3, p);
    let e4 = on_edge(v, 4, p);
    let e5 = on_edge(v, 5, p);
    assert(on_polygon_edge(v, p) == (e0 || e1 || e2 || e3 || e4 || e5));
    assert(is_polygon_vertex(v, p) ==> in_hexagon(c, grid.grid_density, p));
    if is_polygon_vertex(v, p) {
    } else if on_polygon_edge(v, p) {
    } else {
        let n0: nat = if ray_crosses(v[0], v[5], p) { 1 } else { 0 };
        let n1: nat = if ray_crosses(v[1], v[0], p) { 1 } else { 0 };
        let n3: nat = if ray_crosses(v[3], v[2], p) { 1 } else { 0 };
        let n4: nat = if ray_crosses(v[4], v[3], p) { 1 } else { 0 };
        assert(crossings(v, p, 6) == n0 + n1 + n3 + n4);
        if in_hexagon(c, grid.grid_density, p) {
            assert(!e0 && !e1 && !e2 && !e3 && !e4 && !e5);
        }
    }
}

/// The hexagon and the cells that fill it.
#[derive(Debug)]
pub struct HexGrid {
    /// The circumradius in the units of the drawing.
    pub size: u32,
    pub grid_density: u8,
    pub center: Point,
    pub vertices: Vec<Point>,
    pub cells: Vec<Cell>,
}

/// Whether `list` holds, in growing order, exactly the cells adjacent to
/// cell `cell_id`.
pub open spec fn is_adjacency_list(cells: Seq<Cell>, cell_id: int, list: Seq<usize>) -> bool {
    &&& forall|k: int, l: int| 0 <= k < l < list.len() ==> list[k] < list[l]
    &&& forall|k: int| 0 <= k < list.len() ==> mesh_adjacent(cells, cell_id, #[trigger] list[k] as int)
    &&& forall|other: usize| #[trigger] mesh_adjacent(cells, cell_id, other as int) ==> list.contains(other)
}

/// The adjacency relation of a mesh: two different cells that share an
/// edge.
pub open spec fn mesh_adjacent(cells: Seq<Cell>, a: int, b: int) -> bool {
    &&& 0 <= a < cells.len()
    &&& 0 <= b < cells.len()
    &&& a != b
    &&& cells_adjacent(cells[a], cells[b])
}

/// The cells among the first `n` of the mesh that share an edge with cell
/// `cell_id`, in growing order.
pub open spec fn adjacency_list(cells: Seq<Cell>, cell_id: int, n: nat) -> Seq<usize>
    decreases n,
{
    if n == 0 {
        Seq::empty()
    } else {
        let rest = adjacency_list(cells, cell_id, (n - 1) as nat);
        if mesh_adjacent(cells, cell_id, n - 1) {
            rest.push((n - 1) as usize)
        } else {
            rest
        }
    }
}

/// The cells that share an edge with cell `cell_id`, in growing order.
pub open spec fn neighbours_of(cells: Seq<Cell>, cell_id: int) -> Seq<usize> {
    adjacency_list(cells, cell_id, cells.len())
}

/// A cell that is not in the mesh has no neighbours.
pub proof fn lemma_no_adjacency(cells: Seq<Cell>, cell_id: int, n: nat)
    requires
        cell_id < 0 || cell_id >= cells.len(),
    ensures
        adjacency_list(cells, cell_id, n) == Seq::<usize>::empty(),
    decreases n,
{
    if n > 0 {
        lemma_no_adjacency(cells, cell_id, (n - 1) as nat);
    }
}

/// The adjacency relation of a mesh is symmetric.
pub proof fn lemma_mesh_adjacent_symmetric(cells: Seq<Cell>, a: int, b: int)
    ensures
        mesh_adjacent(cells, a, b) == mesh_adjacent(cells, b, a),
{
    if 0 <= a < cells.len() && 0 <= b < cells.len() {
        lemma_cells_adjacent_symmetric(cells[a], cells[b]);
    }
}

impl HexGrid {
    /// The hexagon is the regular one of its density around its center.
    pub open spec fn wf(&self) -> bool {
        &&& 2 <= self.grid_density <= 8
        &&& -MAX_CENTER <= self.center.x <= MAX_CENTER
        &&& -MAX_CENTER <= self.center.y <= MAX_CENTER
        &&& self.vertices@.len() == 6
        &&& forall|s: int|
            0 <= s < 6 ==> #[trigger] self.vertices@[s] == corner(self.center, self.grid_density, s)
    }

    /// Creates the hexagon of the given density, without cells.  The density
    /// is brought into the range of two to eight.
    pub fn new(size: u32, grid_density: u8, center: Point) -> (grid: HexGrid)
        requires
            -MAX_CENTER <= center.x <= MAX_CENTER,
            -MAX_CENTER <= center.y <= MAX_CENTER,
        ensures
            grid.wf(),
            grid.size == size,
            grid.grid_density == clamp_density(grid_density),
            grid.center == center,
            grid.cells@.len() == 0,
    {
        let density: u8 = if grid_density < 2 {
            2
        } else if grid_density > 8 {
            8
        } else {
            grid_density
        };
        let radius: i32 = if density == 2 {
            9
        } else {
            3 * (density as i32)
        };
        let mut vertices: Vec<Point> = Vec::new();
        let mut sector: usize = 0;
        while sector < 6
            invariant
                sector <= 6,
                -MAX_CENTER <= center.x <= MAX_CENTER,
                -MAX_CENTER <= center.y <= MAX_CENTER,
                2 <= density <= 8,
                radius == lattice_radius(density),
                vertices@.len() == sector,
                forall|s: int| 0 <= s < sector ==> #[trigger] vertices@[s] == corner(center, density, s),
            decreases 6 - sector,
        {
            vertices.push(lattice_point_at(center, sector, radius, 0));
            sector = sector + 1;
        }
        HexGrid { size, grid_density: density, center, vertices, cells: Vec::new() }
    }

    /// The number of cells a mesh of this density has: six times the square
    /// of the density.
    pub fn expected_cell_count(&self) -> (count: usize)
        ensures
            count == 6 * (self.grid_density as int) * (self.grid_density as int),
    {
        let d: usize = self.grid_density as usize;
        assert(d * d <= 255 * 255) by (nonlinear_arith)
            requires
                d <= 255,
        ;
        assert(6 * (d * d) == 6 * d * d) by (nonlinear_arith);
        6 * (d * d)
    }

    /// The cell with the given id, if there is one.
    pub fn get_cell(&self, id: usize) -> (cell: Option<&Cell>)
        ensures
            id < self.cells@.len() ==> cell == Some(&self.cells@[id as int]),
            id >= self.cells@.len() ==> cell.is_none(),
    {
        if id < self.cells.len() {
            Some(&self.cells[id])
        } else {
            None
        }
    }

    /// The ids of the cells that share an edge with the given cell, in
    /// growing order; empty when there is no such cell.
    pub fn adjacent_cells(&self, cell_id: usize) -> (adjacent: Vec<usize>)
        ensures
            is_adjacency_list(self.cells@, cell_id as int, adjacent@),
            adjacent@ == neighbours_of(self.cells@, cell_id as int),
    {
        let mut adjacent: Vec<usize> = Vec::new();
        proof {
            if cell_id >= self.cells@.len() {
                lemma_no_adjacency(self.cells@, cell_id as int, self.cells@.len());
            }
        }
        if cell_id < self.cells.len() {
            let mut i: usize = 0;
            while i < self.cells.len()
                invariant
                    i <= self.cells@.len(),
                    cell_id < self.cells@.len(),
                    adjacent@ == adjacency_list(self.cells@, cell_id as int, i as nat),
                    forall|k: int, l: int| 0 <= k < l < adjacent@.len() ==> adjacent@[k] < adjacent@[l],
                    forall|k: int| 0 <= k < adjacent@.len() ==> adjacent@[k] < i,
                    forall|k: int|
                        0 <= k < adjacent@.len() ==> mesh_adjacent(
                            self.cells@,
                            cell_id as int,
                            #[trigger] adjacent@[k] as int,
                        ),
                    forall|other: usize|
                        other < i && #[trigger] mesh_adjacent(self.cells@, cell_id as int, other as int)
                            ==> adjacent@.contains(other),
                decreases self.cells@.len() - i,
            {
                if i != cell_id && self.cells[cell_id].is_adjacent(&self.cells[i]) {
                    let ghost before = adjacent@;
                    adjacent.push(i);
                    proof {
                        assert(adjacent@[before.len() as int] == i);
                        assert forall|other: usize|
                            other < i + 1 && #[trigger] mesh_adjacent(
                                self.cells@,
                                cell_id as int,
                                other as int,
                            ) implies adjacent@.contains(other) by {
                            if other < i {
                                assert(before.contains(other));
                                let k = choose|k: int| 0 <= k < before.len() && before[k] == other;
                                assert(adjacent@[k] == other);
                            }
                        }
                    }
                }
                i = i + 1;
            }
        }
        adjacent
    }

    /// Whether `point` lies in the closed hexagon.
    pub fn contains_point(&self, point: &Point) -> (inside: bool)
        ensures
            inside == polygon_contains_point(self.vertices@, *point),
    {
        let n: usize = self.vertices.len();
        let p: Point = *point;
        let mut i: usize = 0;
        while i < n
            invariant
                i <= n,
                n == self.vertices@.len(),
                p == *point,
                forall|k: int| 0 <= k < i ==> self.vertices@[k] != p,
            decreases n - i,
        {
            if self.vertices[i] == p {
                assert(self.vertices@[i as int] == p);
                return true;
            }
            i = i + 1;
        }
        assert(!is_polygon_vertex(self.vertices@, p));
        if n == 0 {
            assert(!on_polygon_edge(self.vertices@, p));
            assert(crossings(self.vertices@, p, 0) == 0);
            return false;
        }
        let mut j: usize = n - 1;
        i = 0;
        while i < n
            invariant
                i <= n,
                0 < n == self.vertices@.len(),
                p == *point,
                j == (if i == 0 { n - 1 } else { i - 1 }),
                forall|k: int| 0 <= k < i ==> !#[trigger] on_edge(self.vertices@, k, p),
            decreases n - i,
        {
            let vi: Point = self.vertices[i];
            let vj: Point = self.vertices[j];
            assert(vj == previous_vertex(self.vertices@, i as int));
            if point_on_segment(vi, vj, p) {
                assert(on_edge(self.vertices@, i as int, p));
                return true;
            }
            j = i;
            i = i + 1;
        }
        assert(!on_polygon_edge(self.vertices@, p));
        let mut inside: bool = false;
        j = n - 1;
        i = 0;
        while i < n
            invariant
                i <= n,
                0 < n == self.vertices@.len(),
                p == *point,
                j == (if i == 0 { n - 1 } else { i - 1 }),
                inside == (crossings(self.vertices@, p, i as nat) % 2 == 1),
            decreases n - i,
        {
            let vi: Point = self.vertices[i];
            let vj: Point = self.vertices[j];
            assert(vj == previous_vertex(self.vertices@, i as int));
            if edge_crossed(vi, vj, p) {
                inside = !inside;
            }
            j = i;
            i = i + 1;
        }
        inside
    }
}

} // verus!
