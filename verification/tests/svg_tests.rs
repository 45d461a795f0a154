use hexlogogen::generator::grid::{Point, TriangularGrid};
use hexlogogen::svg::{
    boundary_edges, collect_edges, compute_region_boundary, is_adjacent, shape_outlines,
    shape_regions, stitch,
};
use hexlogogen::Generator;

fn p(x: i32, y: i32) -> Point {
    Point::new(x, y)
}

#[test]
fn regions_are_the_groups_that_hang_together() {
    let grid = TriangularGrid::new(100, 3);
    assert_eq!(shape_regions(&grid, &vec![0, 30, 1]), vec![vec![0, 1], vec![30]]);
    assert_eq!(shape_regions(&grid, &vec![2, 0, 1]), vec![vec![2, 1, 0]]);
    assert_eq!(
        shape_regions(&grid, &vec![0, 2, 4, 20]),
        vec![vec![0], vec![2], vec![4], vec![20]]
    );
    assert!(shape_regions(&grid, &Vec::new()).is_empty());
    // a cell that is not in the mesh is a region of its own
    assert_eq!(shape_regions(&grid, &vec![0, 99]), vec![vec![0], vec![99]]);
    assert!(is_adjacent(&grid, 0, 1));
    assert!(!is_adjacent(&grid, 0, 2));
    assert!(!is_adjacent(&grid, 0, 0));
    assert!(!is_adjacent(&grid, 0, 99));
}

#[test]
fn edges_of_a_region() {
    let grid = TriangularGrid::new(100, 3);
    let edges = collect_edges(&grid, &vec![0, 99, 1]);
    assert_eq!(
        edges,
        vec![
            (p(0, 0), p(6, 0)),
            (p(6, 0), p(3, 3)),
            (p(3, 3), p(0, 0)),
            (p(6, 0), p(9, 3)),
            (p(9, 3), p(3, 3)),
            (p(3, 3), p(6, 0)),
        ]
    );
    assert_eq!(
        boundary_edges(&edges),
        vec![
            (p(0, 0), p(6, 0)),
            (p(3, 3), p(0, 0)),
            (p(6, 0), p(9, 3)),
            (p(9, 3), p(3, 3)),
        ]
    );
    // an edge that occurs twice in the same direction is not shared
    let twice = vec![(p(0, 0), p(1, 1)), (p(0, 0), p(1, 1))];
    assert_eq!(boundary_edges(&twice), twice);
}

#[test]
fn stitching_follows_the_first_edge_that_touches() {
    let chain = stitch(vec![
        (p(0, 0), p(6, 0)),
        (p(3, 3), p(0, 0)),
        (p(6, 0), p(9, 3)),
        (p(9, 3), p(3, 3)),
    ]);
    assert_eq!(
        chain,
        vec![
            (p(0, 0), p(6, 0)),
            (p(6, 0), p(9, 3)),
            (p(9, 3), p(3, 3)),
            (p(3, 3), p(0, 0)),
        ]
    );
    // an edge that ends where the chain ends is turned
    let turned = stitch(vec![(p(0, 0), p(2, 0)), (p(1, 1), p(2, 0)), (p(1, 1), p(0, 0))]);
    assert_eq!(
        turned,
        vec![(p(0, 0), p(2, 0)), (p(2, 0), p(1, 1)), (p(1, 1), p(0, 0))]
    );
    // where the chain ends, the edges that are left follow as they are
    let broken = stitch(vec![
        (p(0, 0), p(2, 0)),
        (p(9, 9), p(8, 8)),
        (p(2, 0), p(1, 1)),
        (p(7, 7), p(9, 9)),
    ]);
    assert_eq!(
        broken,
        vec![
            (p(0, 0), p(2, 0)),
            (p(2, 0), p(1, 1)),
            (p(9, 9), p(8, 8)),
            (p(7, 7), p(9, 9)),
        ]
    );
    assert!(stitch(Vec::new()).is_empty());
}

#[test]
fn outlines_of_regions() {
    let grid = TriangularGrid::new(100, 3);
    assert_eq!(compute_region_boundary(&grid, &vec![0]), vec![p(0, 0), p(6, 0), p(3, 3)]);
    assert_eq!(
        compute_region_boundary(&grid, &vec![0, 1]),
        vec![p(0, 0), p(6, 0), p(9, 3), p(3, 3)]
    );
    assert!(compute_region_boundary(&grid, &Vec::new()).is_empty());
    assert_eq!(
        shape_outlines(&grid, &vec![0, 30, 1]),
        vec![
            vec![p(0, 0), p(6, 0), p(9, 3), p(3, 3)],
            compute_region_boundary(&grid, &vec![30]),
        ]
    );
    // the six cells around the center: the outline is a hexagon
    let around = compute_region_boundary(&grid, &vec![0, 9, 18, 27, 36, 45]);
    assert_eq!(
        around,
        vec![p(6, 0), p(3, 3), p(-3, 3), p(-6, 0), p(-3, -3), p(3, -3)]
    );
}

#[test]
fn every_shape_of_a_run_has_an_outline() {
    for density in [2u8, 5] {
        let mut generator = Generator::new(density, 4, 800, Some(77));
        generator.set_allow_overlap(true);
        generator.generate().unwrap();
        let grid = generator.grid().unwrap();
        for shape in generator.shapes() {
            let regions = shape_regions(grid, &shape.cells);
            let outlines = shape_outlines(grid, &shape.cells);
            assert_eq!(regions.len(), outlines.len());
            assert_eq!(regions.iter().map(Vec::len).sum::<usize>(), shape.cells.len());
            for outline in &outlines {
                assert!(outline.len() >= 3);
                for point in outline {
                    assert!(grid.hex_grid().contains_point(point));
                }
            }
        }
    }
}
