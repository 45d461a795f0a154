use hexlogogen::generator::grid::geometry::{HexGrid, MeshLayout, Point};
use hexlogogen::generator::grid::triangular::TriangularGrid;
use hexlogogen::generator::grid::Cell;

/// The lattice radius of a density: thirds of a lattice step from the center
/// to a corner.
fn lattice_radius(density: u8) -> i32 {
    if density == 2 {
        9
    } else {
        3 * i32::from(density)
    }
}

/// The place of a lattice point in the drawing.
fn cartesian(point: &Point, center: &Point, size: f64, density: u8) -> (f64, f64) {
    let unit = size / f64::from(2 * lattice_radius(density));
    (
        f64::from(point.x - center.x) * unit,
        f64::from(point.y - center.y) * unit * 3.0_f64.sqrt(),
    )
}

#[test]
fn test_hexagon_creation() {
    let center = Point::new(0, 0);
    let size = 100;
    let grid_density = 6;

    let hex_grid = HexGrid::new(size, grid_density, center);

    // Verify that the hexagon has 6 vertices
    assert_eq!(hex_grid.vertices.len(), 6);

    // Verify that all vertices are at the correct distance from the center
    for vertex in &hex_grid.vertices {
        let (x, y) = cartesian(vertex, &center, f64::from(size), grid_density);
        let distance = (x * x + y * y).sqrt();
        assert!((distance - f64::from(size)).abs() < 1e-6);
        assert_eq!(center.distance(vertex), 36);
        assert_eq!(center.distance_squared(vertex), 36 * 36);
    }

    // Verify expected cell count
    assert_eq!(
        hex_grid.expected_cell_count(),
        6 * (grid_density as usize).pow(2)
    );
}

#[test]
fn test_triangular_grid_creation() {
    let size = 100;

    // Test with different grid densities
    for grid_density in 3..=8 {
        let grid = TriangularGrid::new(size, grid_density);
        let expected_cells = 6 * (grid_density as usize).pow(2);

        // Verify cell count
        assert_eq!(grid.cell_count(), expected_cells);

        // Each cell should have 3 vertices
        if let Some(cell) = grid.get_cell(0) {
            assert_eq!(cell.vertices.len(), 3);
        }
    }
}

#[test]
fn test_point_in_hexagon() {
    let center = Point::new(0, 0);
    let size = 100;
    let grid_density = 6;

    let hex_grid = HexGrid::new(size, grid_density, center);

    // Points inside the hexagon
    assert!(hex_grid.contains_point(&center));

    // Points on the boundary
    for vertex in &hex_grid.vertices {
        assert!(hex_grid.contains_point(vertex));
    }

    // Points outside the hexagon: twice the circumradius along both axes
    let outside = Point::new(4 * 18, 4 * 18);
    assert!(!hex_grid.contains_point(&outside));
}

#[test]
fn test_cell_adjacency() {
    let size = 100;
    let grid_density = 3; // Small grid for easier testing

    let grid = TriangularGrid::new(size, grid_density);

    // Each cell should have at least one adjacent cell
    for i in 0..grid.cell_count() {
        let adjacent = grid.adjacent_cells(i);
        assert!(!adjacent.is_empty());
    }
}

#[test]
fn test_original_style_grid() {
    let size = 100;
    let grid_density = 2; // This should trigger the hand-laid grid

    let grid = TriangularGrid::new(size, grid_density);

    // The hand-laid grid should have exactly 24 cells
    assert_eq!(grid.cell_count(), 24);

    // Verify centroid functionality
    for i in 0..grid.cell_count() {
        let centroid = grid.get_cell_centroid(i);
        assert!(centroid.is_some());
    }

    // Non-existent cell should return None
    assert!(grid.get_cell_centroid(100).is_none());
    assert!(grid.get_cell(100).is_none());

    // Verify cells access method
    let cells = grid.cells();
    assert_eq!(cells.len(), 24);

    // Verify hex_grid and hex_grid_mut methods
    let hex_grid = grid.hex_grid();
    assert_eq!(hex_grid.size, size);

    let mut grid = TriangularGrid::new(size, grid_density);
    let hex_grid_mut = grid.hex_grid_mut();
    assert_eq!(hex_grid_mut.size, size);
}

#[test]
fn cell_count_is_six_times_density_squared() {
    for density in 0..=12u8 {
        let clamped = density.clamp(2, 8);
        let grid = TriangularGrid::new(100, density);
        assert_eq!(grid.hex_grid().grid_density, clamped);
        assert_eq!(grid.cell_count(), 6 * usize::from(clamped) * usize::from(clamped));
        assert_eq!(grid.hex_grid().expected_cell_count(), grid.cell_count());
    }
    assert_eq!(TriangularGrid::new(100, 2).cell_count(), 24);
}

#[test]
fn cells_are_numbered_and_centered() {
    for density in 2..=8u8 {
        let grid = TriangularGrid::new(100, density);
        for (i, cell) in grid.cells().iter().enumerate() {
            assert_eq!(cell.id, i);
            assert_eq!(cell.vertices.len(), 3);
            let sum_x: i32 = cell.vertices.iter().map(|v| v.x).sum();
            let sum_y: i32 = cell.vertices.iter().map(|v| v.y).sum();
            assert_eq!(3 * cell.centroid.x, sum_x);
            assert_eq!(3 * cell.centroid.y, sum_y);
            for vertex in &cell.vertices {
                assert!(grid.hex_grid().contains_point(vertex));
            }
            assert!(cell.contains_point(&cell.centroid));
        }
    }
}

#[test]
fn recursive_cells_are_equilateral() {
    let grid = TriangularGrid::new(100, 5);
    for cell in grid.cells() {
        let [a, b, c] = cell.vertices;
        assert_eq!(a.distance_squared(&b), 36);
        assert_eq!(b.distance_squared(&c), 36);
        assert_eq!(c.distance_squared(&a), 36);
    }
}

#[test]
fn first_cells_of_the_recursive_mesh() {
    let grid = TriangularGrid::new(100, 3);
    let cells = grid.cells();
    // sector 0, row 0: up, down, up, down, up
    assert_eq!(cells[0].vertices, [Point::new(0, 0), Point::new(6, 0), Point::new(3, 3)]);
    assert_eq!(cells[1].vertices, [Point::new(6, 0), Point::new(9, 3), Point::new(3, 3)]);
    assert_eq!(cells[2].vertices, [Point::new(3, 3), Point::new(9, 3), Point::new(6, 6)]);
    assert_eq!(cells[0].centroid, Point::new(3, 1));
    // row 1 starts after the five cells of row 0
    assert_eq!(cells[5].vertices, [Point::new(6, 0), Point::new(12, 0), Point::new(9, 3)]);
    // sector 1 starts after the nine cells of sector 0
    assert_eq!(cells[9].vertices, [Point::new(0, 0), Point::new(3, 3), Point::new(-3, 3)]);
}

#[test]
fn legacy_mesh_has_four_cells_per_sector() {
    let grid = TriangularGrid::new(100, 2);
    let cells = grid.cells();
    assert_eq!(cells[0].vertices, [Point::new(0, 0), Point::new(6, 0), Point::new(3, 3)]);
    assert_eq!(cells[1].vertices, [Point::new(6, 0), Point::new(12, 0), Point::new(3, 3)]);
    assert_eq!(cells[2].vertices, [Point::new(3, 3), Point::new(12, 0), Point::new(6, 6)]);
    assert_eq!(cells[3].vertices, [Point::new(12, 0), Point::new(18, 0), Point::new(6, 6)]);
    assert_eq!(cells[4].vertices, [Point::new(0, 0), Point::new(3, 3), Point::new(-3, 3)]);
    assert_eq!(grid.hex_grid().vertices[0], Point::new(18, 0));
    assert_eq!(grid.hex_grid().vertices[1], Point::new(9, 9));
}

#[test]
fn hexagon_corners_follow_the_density() {
    let hex = HexGrid::new(100, 4, Point::new(10, -20));
    assert_eq!(
        hex.vertices,
        vec![
            Point::new(34, -20),
            Point::new(22, -8),
            Point::new(-2, -8),
            Point::new(-14, -20),
            Point::new(-2, -32),
            Point::new(22, -32),
        ]
    );
    assert!(hex.cells.is_empty());
    assert_eq!(HexGrid::new(100, 0, Point::new(0, 0)).grid_density, 2);
    assert_eq!(HexGrid::new(100, 200, Point::new(0, 0)).grid_density, 8);
}

#[test]
fn hexagon_contains_exactly_its_lattice_points() {
    let hex = HexGrid::new(100, 3, Point::new(0, 0));
    let radius = 9;
    for x in -30..=30 {
        for y in -15..=15 {
            let inside = (-radius..=radius).contains(&y)
                && x + y <= 2 * radius
                && x - y <= 2 * radius
                && -x + y <= 2 * radius
                && -x - y <= 2 * radius;
            assert_eq!(hex.contains_point(&Point::new(x, y)), inside, "({x}, {y})");
        }
    }
    // on an edge, between two corners
    assert!(hex.contains_point(&Point::new(0, 9)));
    assert!(hex.contains_point(&Point::new(14, 4)));
    assert!(!hex.contains_point(&Point::new(15, 4)));
}

#[test]
fn adjacency_means_a_shared_edge() {
    let a = Cell::new(0, [Point::new(0, 0), Point::new(6, 0), Point::new(3, 3)]);
    let b = Cell::new(1, [Point::new(6, 0), Point::new(9, 3), Point::new(3, 3)]);
    let c = Cell::new(2, [Point::new(3, 3), Point::new(9, 3), Point::new(6, 6)]);
    assert!(a.is_adjacent(&b));
    assert!(b.is_adjacent(&a));
    assert!(b.is_adjacent(&c));
    // one shared corner is not enough, and a cell is not its own neighbour
    assert!(!a.is_adjacent(&c));
    assert!(!a.is_adjacent(&a));
}

#[test]
fn adjacent_cells_are_listed_in_growing_order() {
    let grid = TriangularGrid::new(100, 3);
    assert_eq!(grid.adjacent_cells(0), vec![1, 9, 45]);
    assert_eq!(grid.adjacent_cells(1), vec![0, 2, 5]);
    assert!(grid.adjacent_cells(54).is_empty());
    for i in 0..grid.cell_count() {
        let around = grid.adjacent_cells(i);
        assert!(around.len() <= 3);
        for &j in &around {
            assert!(grid.adjacent_cells(j).contains(&i));
        }
    }
}

#[test]
fn triangle_contains_its_boundary() {
    let cell = Cell::new(0, [Point::new(0, 0), Point::new(6, 0), Point::new(3, 3)]);
    assert!(cell.contains_point(&Point::new(0, 0)));
    assert!(cell.contains_point(&Point::new(3, 0)));
    assert!(cell.contains_point(&Point::new(3, 1)));
    assert!(!cell.contains_point(&Point::new(3, -1)));
    assert!(!cell.contains_point(&Point::new(7, 0)));
    // the same triangle, corners in the other direction
    let turned = Cell::new(0, [Point::new(0, 0), Point::new(3, 3), Point::new(6, 0)]);
    assert!(turned.contains_point(&Point::new(3, 1)));
    assert!(!turned.contains_point(&Point::new(3, 4)));
    // a triangle without area contains nothing
    let flat = Cell::new(0, [Point::new(0, 0), Point::new(3, 0), Point::new(6, 0)]);
    assert!(!flat.contains_point(&Point::new(3, 0)));
}

#[test]
fn centroid_is_rounded_down() {
    let cell = Cell::new(7, [Point::new(0, 0), Point::new(1, 0), Point::new(0, -1)]);
    assert_eq!(cell.centroid, Point::new(0, -1));
    assert_eq!(cell.id, 7);
}

#[test]
fn distance_is_rounded_down() {
    let origin = Point::new(0, 0);
    assert_eq!(origin.distance_squared(&Point::new(1, 1)), 4);
    assert_eq!(origin.distance(&Point::new(1, 1)), 2);
    assert_eq!(origin.distance_squared(&Point::new(2, 1)), 7);
    assert_eq!(origin.distance(&Point::new(2, 1)), 2);
    let far = Point::new(i32::MAX, i32::MAX);
    let near = Point::new(i32::MIN, i32::MIN);
    assert_eq!(far.distance_squared(&near), 4 * (u32::MAX as u128) * (u32::MAX as u128));
    assert_eq!(far.distance(&near), 2 * (u32::MAX as u64));
}

#[test]
fn layouts_are_told_apart() {
    assert_ne!(MeshLayout::Legacy24, MeshLayout::Recursive(3));
}
