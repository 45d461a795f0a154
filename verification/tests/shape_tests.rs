use hexlogogen::generator::grid::TriangularGrid;
use hexlogogen::generator::random::{new_rng, random_between, random_chance};
use hexlogogen::generator::shape::growth::select_best;
use hexlogogen::generator::shape::quality::{
    count_neighbours, evaluate_shape_quality, lattice_radius_of, score_candidate_cell,
};
use hexlogogen::generator::shape::{contains_id, Shape, ShapeGenerator, ShapeMetrics};

/// Whether every cell but the first touches a cell before it.
fn grown_connected(grid: &TriangularGrid, cells: &[usize]) -> bool {
    (1..cells.len()).all(|k| {
        let around = grid.adjacent_cells(cells[k]);
        cells[..k].iter().any(|c| around.contains(c))
    })
}

fn no_duplicates(cells: &[usize]) -> bool {
    (0..cells.len()).all(|k| !cells[..k].contains(&cells[k]))
}

#[test]
fn test_shape_creation() {
    let shape = Shape::new("#FF0000".to_string(), 800);
    assert_eq!(shape.cell_count(), 0);
    assert_eq!(shape.color, "#FF0000");
    assert_eq!(shape.opacity, 800);
}

#[test]
fn test_shape_add_cell() {
    let mut shape = Shape::new("#FF0000".to_string(), 800);
    shape.add_cell(1);
    shape.add_cell(2);
    shape.add_cell(3);

    assert_eq!(shape.cell_count(), 3);
    assert!(shape.contains_cell(1));
    assert!(shape.contains_cell(2));
    assert!(shape.contains_cell(3));
    assert!(!shape.contains_cell(4));
}

#[test]
fn test_find_center_cells() {
    let grid = TriangularGrid::new(100, 4);
    let generator = ShapeGenerator::new(&grid, Some(42)).unwrap(); // Fixed seed for deterministic testing

    let center_cells = generator.find_center_cells();

    // Should find some cells near the center
    assert!(!center_cells.is_empty());
}

#[test]
fn test_generate_center_shape() {
    let grid = TriangularGrid::new(100, 4);
    let mut generator = ShapeGenerator::new(&grid, Some(42)).unwrap(); // Fixed seed for deterministic testing

    let color = "#FF0000".to_string();
    let opacity = 800;
    let target_size = 10;

    let shape = generator.generate_center_shape(color, opacity, target_size);

    // Shape should have cells starting from center
    assert!(!shape.cells.is_empty());
    assert!(shape.cell_count() <= target_size);
}

#[test]
fn test_shape_generator() {
    let grid = TriangularGrid::new(100, 4);
    let mut generator = ShapeGenerator::new(&grid, Some(42)).unwrap(); // Fixed seed for deterministic testing

    let color = "#FF0000".to_string();
    let opacity = 800;
    let target_size = 10;

    let shape = generator.generate_random_shape(color, opacity, target_size);

    // Shape should have cells (may be less than target if we ran out of adjacent cells)
    assert!(!shape.cells.is_empty());
    assert!(shape.cell_count() <= target_size);
}

#[test]
fn test_generate_multiple_shapes() {
    let grid = TriangularGrid::new(100, 4);
    let mut generator = ShapeGenerator::new(&grid, Some(42)).unwrap(); // Fixed seed for deterministic testing

    let colors = vec![
        "#FF0000".to_string(),
        "#00FF00".to_string(),
        "#0000FF".to_string(),
    ];
    let opacity = 800;
    let count = 3;
    let size_range = (5, 10);

    let shapes = generator.generate_shapes(colors, opacity, count, size_range);

    // Should have the requested number of shapes
    assert_eq!(shapes.len(), count);

    // Each shape should have cells within the size range
    for shape in &shapes {
        assert!(shape.cell_count() >= size_range.0 || shape.cell_count() <= size_range.1);
    }
}

#[test]
fn test_evaluate_shape_quality() {
    let grid = TriangularGrid::new(100, 4);
    let mut generator = ShapeGenerator::new(&grid, Some(42)).unwrap(); // Fixed seed for deterministic testing

    let color = "#FF0000".to_string();
    let opacity = 800;
    let size = 12;

    let shape = generator.generate_balanced_shape(color, opacity, size);
    let metrics = generator.evaluate_shape_quality(&shape);

    // Basic sanity checks on the metrics
    assert!(metrics.compactness <= 1000);
    assert!(metrics.smoothness <= 1000);
    assert!(metrics.balance <= 1000);

    // Total score should be in valid range
    let total = metrics.total_score();
    assert!(total <= 1000);
}

#[test]
fn test_shape_smoothing() {
    let grid = TriangularGrid::new(100, 4);
    let mut generator = ShapeGenerator::new(&grid, Some(42)).unwrap(); // Fixed seed for deterministic testing

    let color = "#FF0000".to_string();
    let opacity = 800;
    let size = 15;

    // Create a shape without smoothing first
    let mut shape = Shape::new(color.clone(), opacity);
    let start_cell = generator.find_center_cells()[0];
    shape.add_cell(start_cell);

    // Add some cells in an angular pattern
    let adjacent = grid.adjacent_cells(start_cell);
    for (i, &adj) in adjacent.iter().enumerate() {
        if i % 2 == 0 && shape.cell_count() < size {
            shape.add_cell(adj);
        }
    }

    // Apply smoothing
    let original_count = shape.cell_count();
    generator.smooth_shape(&mut shape, size);

    // Should have added some cells
    assert!(shape.cell_count() >= original_count);

    // Should not exceed target size
    assert!(shape.cell_count() <= size);
}

#[test]
fn add_cell_keeps_cells_apart() {
    let mut shape = Shape::new("#000000".to_string(), 0);
    shape.add_cell(5);
    shape.add_cell(5);
    shape.add_cell(3);
    shape.add_cell(5);
    assert_eq!(shape.cells, vec![5, 3]);
    assert!(contains_id(&shape.cells, 3));
    assert!(!contains_id(&shape.cells, 4));
}

#[test]
fn center_cells_are_sorted_by_distance() {
    let grid = TriangularGrid::new(100, 3);
    let generator = ShapeGenerator::new(&grid, Some(1)).unwrap();
    let order = generator.find_center_cells();
    assert_eq!(order.len(), 54);
    // the six cells around the center come first, by growing id
    assert_eq!(&order[..6], &[0, 9, 18, 27, 36, 45]);
    let center = grid.hex_grid().center;
    for pair in order.windows(2) {
        let a = grid.cells()[pair[0]].centroid.distance_squared(&center);
        let b = grid.cells()[pair[1]].centroid.distance_squared(&center);
        assert!(a < b || (a == b && pair[0] < pair[1]));
    }
}

#[test]
fn boundary_cells_touch_used_cells() {
    let grid = TriangularGrid::new(100, 3);
    let generator = ShapeGenerator::new(&grid, Some(1)).unwrap();
    assert_eq!(generator.find_boundary_cells(&vec![0]), vec![1, 9, 45]);
    assert_eq!(generator.find_boundary_cells(&vec![0, 1]), vec![9, 45, 2, 5]);
    assert!(generator.find_boundary_cells(&Vec::new()).is_empty());
    let all: Vec<usize> = (0..54).collect();
    assert!(generator.find_boundary_cells(&all).is_empty());
}

#[test]
fn grown_shapes_are_connected_and_within_size() {
    for density in [2u8, 3, 5, 8] {
        let grid = TriangularGrid::new(100, density);
        for seed in 0..12 {
            let mut generator = ShapeGenerator::new(&grid, Some(seed)).unwrap();
            for target in [0usize, 1, 2, 7, 30, 1000] {
                let shapes = [
                    generator.generate_center_shape("#010203".to_string(), 500, target),
                    generator.generate_angular_shape_candidate("#010203".to_string(), 500, target),
                    generator.generate_angular_shape("#010203".to_string(), 500, target),
                    generator.generate_balanced_shape("#010203".to_string(), 500, target),
                    generator.generate_random_shape("#010203".to_string(), 500, target),
                ];
                let nearest = generator.find_center_cells();
                for shape in &shapes {
                    assert_eq!(shape.color, "#010203");
                    assert_eq!(shape.opacity, 500);
                    assert!(shape.cell_count() <= target);
                    assert!(shape.cell_count() <= grid.cell_count());
                    assert_eq!(shape.cells.is_empty(), target == 0);
                    assert!(shape.cells.iter().all(|&c| c < grid.cell_count()));
                    assert!(no_duplicates(&shape.cells));
                    assert!(grown_connected(&grid, &shape.cells));
                    if target > 0 {
                        assert!(nearest[..3].contains(&shape.cells[0]));
                    }
                    if target >= 2 {
                        assert!(shape.cell_count() >= 2);
                    }
                }
            }
        }
    }
}

#[test]
fn avoiding_shapes_stay_on_free_cells() {
    let grid = TriangularGrid::new(100, 3);
    let used: Vec<usize> = vec![0, 9, 18, 27, 1, 2];
    for seed in 0..20 {
        let mut generator = ShapeGenerator::new(&grid, Some(seed)).unwrap();
        let shape = generator.generate_shape_avoiding_cells("#AAAAAA".to_string(), 10, 8, &used);
        assert!(!shape.cells.is_empty());
        // the nearest free cell: the next of the six cells around the center
        assert_eq!(shape.cells[0], 36);
        assert!(shape.cells.iter().all(|c| !used.contains(c)));
        assert!(shape.cell_count() <= 8);
        assert!(grown_connected(&grid, &shape.cells));
        assert!(no_duplicates(&shape.cells));

        let touching = generator.generate_connected_shape("#BBBBBB".to_string(), 10, 8, &used);
        assert!(!touching.cells.is_empty());
        assert!(generator.find_boundary_cells(&used).contains(&touching.cells[0]));
        assert!(touching.cells.iter().all(|c| !used.contains(c)));
        assert!(grown_connected(&grid, &touching.cells));
    }
}

#[test]
fn no_free_cell_no_shape() {
    let grid = TriangularGrid::new(100, 2);
    let all: Vec<usize> = (0..24).collect();
    let mut generator = ShapeGenerator::new(&grid, Some(5)).unwrap();
    assert!(generator
        .generate_shape_avoiding_cells("#000000".to_string(), 1000, 5, &all)
        .cells
        .is_empty());
    assert!(generator
        .generate_connected_shape("#000000".to_string(), 1000, 5, &all)
        .cells
        .is_empty());
    assert!(generator
        .generate_connected_shape("#000000".to_string(), 1000, 0, &Vec::new())
        .cells
        .is_empty());
    // nothing is used: the shape grows from the cell nearest to the center
    let free = generator.generate_connected_shape("#000000".to_string(), 1000, 4, &Vec::new());
    assert_eq!(free.cells[0], 0);
    // one free cell, walled in
    let most: Vec<usize> = (0..24).filter(|&c| c != 7).collect();
    let lone = generator.generate_shape_avoiding_cells("#000000".to_string(), 1000, 5, &most);
    assert_eq!(lone.cells, vec![7]);
}

#[test]
fn generated_shapes_share_no_cell() {
    let grid = TriangularGrid::new(100, 4);
    for seed in 0..20 {
        let mut generator = ShapeGenerator::new(&grid, Some(seed)).unwrap();
        let shapes = generator.generate_shapes(vec!["#111111".to_string()], 300, 6, (3, 9));
        assert_eq!(shapes.len(), 6);
        assert_eq!(shapes[0].color, "#111111");
        for (i, shape) in shapes.iter().enumerate() {
            if i > 0 {
                assert_eq!(shape.color, format!("#PLACEHOLDER{}", i));
            }
            assert_eq!(shape.opacity, 300);
            assert!(shape.cell_count() <= 9);
            assert!(grown_connected(&grid, &shape.cells));
            for other in &shapes[..i] {
                assert!(shape.cells.iter().all(|c| !other.cells.contains(c)));
            }
        }
        assert!(!shapes[0].cells.is_empty());
    }
    let mut generator = ShapeGenerator::new(&grid, Some(1)).unwrap();
    assert!(generator.generate_shapes(Vec::new(), 300, 0, (3, 9)).is_empty());
    let one = generator.generate_shapes(Vec::new(), 300, 1, (9, 3));
    assert_eq!(one[0].color, "#FF0000");
    assert!(one[0].cell_count() <= 9);
}

#[test]
fn smoothing_keeps_the_cells_and_the_size() {
    let grid = TriangularGrid::new(100, 4);
    for seed in 0..30 {
        let mut generator = ShapeGenerator::new(&grid, Some(seed)).unwrap();
        let mut shape = Shape::new("#000000".to_string(), 1);
        for cell in [0usize, 1, 16, 2] {
            shape.add_cell(cell);
        }
        assert!(grown_connected(&grid, &shape.cells));
        let before = shape.cells.clone();
        generator.smooth_shape(&mut shape, 6);
        assert_eq!(&shape.cells[..before.len()], &before[..]);
        assert!(shape.cell_count() <= 6);
        assert!(grown_connected(&grid, &shape.cells));
        assert!(no_duplicates(&shape.cells));

        // a shape below three cells, or at its size, stays as it is
        let mut small = Shape::new("#000000".to_string(), 1);
        small.add_cell(0);
        small.add_cell(1);
        generator.smooth_shape(&mut small, 6);
        assert_eq!(small.cells, vec![0, 1]);
        let mut full = Shape::new("#000000".to_string(), 1);
        for cell in [0usize, 1, 16] {
            full.add_cell(cell);
        }
        generator.smooth_shape(&mut full, 3);
        assert_eq!(full.cells, vec![0, 1, 16]);
    }
}

#[test]
fn candidate_scores() {
    let grid = TriangularGrid::new(100, 3);
    // every cell is as good as any other for a shape without cells
    assert_eq!(score_candidate_cell(&grid, &Vec::new(), 5), 10000);
    // a cell that is not there scores nothing
    assert_eq!(score_candidate_cell(&grid, &vec![0], 54), 0);
    // cell 1 touches cell 0: one neighbour, its centroid 4 half steps from
    // that of cell 0, which are about 22 units of the drawing and far beyond
    // the expected radius
    assert_eq!(count_neighbours(&grid, 1, &vec![0], true), 1);
    assert_eq!(count_neighbours(&grid, 1, &vec![0], false), 2);
    assert_eq!(score_candidate_cell(&grid, &vec![0], 1), 4 * 700);
    // no neighbour in the shape and far away
    assert_eq!(score_candidate_cell(&grid, &vec![0], 30), 0);
    // two neighbours in the shape
    assert_eq!(count_neighbours(&grid, 1, &vec![0, 2], true), 2);
    assert_eq!(score_candidate_cell(&grid, &vec![0, 2], 1), 4 * 1000);

    // in a small drawing distances count: a mesh of size 1
    let small = TriangularGrid::new(1, 3);
    // the centroids (3, 1) and (6, 2) lie sqrt(9 + 3) = 3.46 half steps of
    // 1/18 apart, which are 0.192; the expected radius is 1.2: the ratio is
    // 0.160, the distance earns 160 and the balance 1000 - 160 / 2
    assert_eq!(score_candidate_cell(&small, &vec![0], 1), 4 * 700 + 4 * 160 + 2 * 920);
}

#[test]
fn quality_of_small_shapes() {
    let grid = TriangularGrid::new(100, 3);
    assert_eq!(
        evaluate_shape_quality(&grid, &Vec::new()),
        ShapeMetrics { compactness: 0, smoothness: 0, balance: 0 }
    );
    // one cell: three edges to the outside, the ideal boundary is
    // sqrt(12.56) = 3.544, so the shape is as compact as can be; all cells
    // lie in the center of the shape, which gives no balance
    assert_eq!(
        evaluate_shape_quality(&grid, &vec![0]),
        ShapeMetrics { compactness: 1000, smoothness: 1000, balance: 0 }
    );
    // two cells: four edges, sqrt(25.12) = 5.011; both as far from the middle
    assert_eq!(
        evaluate_shape_quality(&grid, &vec![0, 1]),
        ShapeMetrics { compactness: 1000, smoothness: 1000, balance: 1000 }
    );
    // a row of five cells: seven edges to the outside, sqrt(62.8) = 7.924
    let row = evaluate_shape_quality(&grid, &vec![0, 1, 2, 3, 4]);
    assert_eq!(row.compactness, 1000);
    assert_eq!(row.smoothness, 1000);
    // six cells spread over the mesh, three of them at the rim with two
    // neighbours each: fifteen edges, sqrt(75.36) = 8.681
    let spread = evaluate_shape_quality(&grid, &vec![0, 2, 4, 20, 22, 40]);
    assert_eq!(spread.compactness, 8681 / 15);
    assert_eq!(spread.smoothness, 1000);
    assert_eq!(spread.total_score(), (4 * 578 + 4 * 1000 + 2 * spread.balance) / 10);
}

#[test]
fn more_cells_than_a_mesh_can_have_score_nothing() {
    let grid = TriangularGrid::new(100, 3);
    let generator = ShapeGenerator::new(&grid, Some(1)).unwrap();
    let mut shape = Shape::new("#000000".to_string(), 1);
    shape.cells = (0..385).collect();
    assert_eq!(
        generator.evaluate_shape_quality(&shape),
        ShapeMetrics { compactness: 0, smoothness: 0, balance: 0 }
    );
    shape.cells = vec![0, 1];
    assert_eq!(
        generator.evaluate_shape_quality(&shape),
        ShapeMetrics { compactness: 1000, smoothness: 1000, balance: 1000 }
    );
    assert_eq!(lattice_radius_of(0), 9);
    assert_eq!(lattice_radius_of(2), 9);
    assert_eq!(lattice_radius_of(5), 15);
    assert_eq!(lattice_radius_of(99), 24);
}

#[test]
fn total_score_weighs_the_metrics() {
    let metrics = ShapeMetrics { compactness: 1000, smoothness: 500, balance: 250 };
    assert_eq!(metrics.total_score(), 650);
    let none = ShapeMetrics { compactness: 0, smoothness: 0, balance: 0 };
    assert_eq!(none.total_score(), 0);
    let beyond = ShapeMetrics { compactness: 5000, smoothness: 1000, balance: 1000 };
    assert_eq!(beyond.total_score(), 1000);
}

#[test]
fn the_best_candidate_is_the_first_of_the_largest_key() {
    let shapes = |n: usize| -> Vec<Shape> {
        (0..n).map(|i| Shape::new(format!("#{:06X}", i), 0)).collect()
    };
    assert_eq!(select_best(shapes(3), &vec![5, 9, 9]).unwrap().color, "#000001");
    assert_eq!(select_best(shapes(3), &vec![5, 5, 5]).unwrap().color, "#000000");
    assert_eq!(select_best(shapes(3), &vec![1, 2, 3]).unwrap().color, "#000002");
    assert!(select_best(Vec::new(), &Vec::new()).is_none());
    assert!(select_best(shapes(3), &vec![1, 2]).is_none());
}

#[test]
fn sorting_by_score_is_stable() {
    let grid = TriangularGrid::new(100, 3);
    let generator = ShapeGenerator::new(&grid, Some(1)).unwrap();
    // 1, 9 and 45 touch cell 0 and score alike; 30 and 20 score nothing
    let sorted = generator.sort_by_score(&vec![0], &vec![30, 45, 9, 20, 1], true);
    assert_eq!(sorted, vec![45, 9, 1, 30, 20]);
    let sorted = generator.sort_by_score(&vec![0], &vec![30, 45, 9, 20, 1], false);
    assert_eq!(sorted, vec![30, 20, 45, 9, 1]);
}

#[test]
fn random_draws_stay_in_range() {
    let mut rng = new_rng(Some(11)).unwrap();
    for _ in 0..200 {
        let sample = random_between(&mut rng, 3, 7);
        assert!((3..=7).contains(&sample));
        assert_eq!(random_between(&mut rng, 9, 9), 9);
        assert_eq!(random_between(&mut rng, 9, 2), 9);
        assert!(!random_chance(&mut rng, 0));
        assert!(random_chance(&mut rng, 1000));
        assert!(random_chance(&mut rng, 60000));
    }
    let hits = (0..2000).filter(|_| random_chance(&mut rng, 250)).count();
    assert!((350..650).contains(&hits));
    assert!(new_rng(None).is_ok());
}

#[test]
fn seeded_growth_repeats() {
    let grid = TriangularGrid::new(100, 5);
    let mut first = ShapeGenerator::new(&grid, Some(2024)).unwrap();
    let mut second = ShapeGenerator::new(&grid, Some(2024)).unwrap();
    let a = first.generate_shapes(Vec::new(), 1, 5, (4, 12));
    let b = second.generate_shapes(Vec::new(), 1, 5, (4, 12));
    assert_eq!(a.len(), b.len());
    for (x, y) in a.iter().zip(&b) {
        assert_eq!(x.cells, y.cells);
        assert_eq!(x.color, y.color);
        assert_eq!(x.opacity, y.opacity);
    }
}

#[test]
fn later_shapes_start_beside_the_earlier_ones() {
    let grid = TriangularGrid::new(100, 5);
    for seed in 0..20 {
        let mut generator = ShapeGenerator::new(&grid, Some(seed)).unwrap();
        let shapes = generator.generate_shapes(Vec::new(), 500, 5, (2, 8));
        let nearest = generator.find_center_cells();
        assert!(nearest[..3].contains(&shapes[0].cells[0]));
        let mut used: Vec<usize> = Vec::new();
        for (i, shape) in shapes.iter().enumerate() {
            if i > 0 && !shape.cells.is_empty() {
                let start = shape.cells[0];
                let beside = generator.find_boundary_cells(&used).contains(&start);
                let first_free = nearest.iter().find(|c| !used.contains(c)) == Some(&start);
                assert!(beside || first_free);
            }
            used.extend(&shape.cells);
        }
    }
}
