use hexlogogen::generator::color::ColorManager;
use hexlogogen::generator::shape::{mark_used, Shape};
use hexlogogen::generator::{
    pick_contrasting, select_cells, size_range_of, spare_colors, split_overlap, Theme,
    HEXAGON_SIZE,
};
use hexlogogen::Generator;

fn connected(generator: &Generator, cells: &[usize]) -> bool {
    let grid = generator.grid().unwrap();
    (1..cells.len()).all(|k| {
        let around = grid.adjacent_cells(cells[k]);
        cells[..k].iter().any(|c| around.contains(c))
    })
}

fn run(density: u8, count: u8, opacity: u16, seed: u64, theme: &str, overlap: bool) -> Generator {
    let mut generator = Generator::new(density, count, opacity, Some(seed));
    generator
        .set_color_scheme(theme)
        .set_allow_overlap(overlap)
        .generate()
        .unwrap();
    generator
}

#[test]
fn settings_are_clamped() {
    let generator = run(0, 0, 5000, 1, "mesos", false);
    assert_eq!(generator.grid().unwrap().hex_grid().grid_density, 2);
    assert_eq!(generator.grid().unwrap().hex_grid().size, HEXAGON_SIZE);
    assert_eq!(generator.shapes().len(), 1);
    assert_eq!(generator.shapes()[0].opacity, 1000);
    let generator = run(200, 200, 700, 1, "mesos", false);
    assert_eq!(generator.grid().unwrap().cell_count(), 384);
    assert_eq!(generator.shapes().len(), 10);
    assert_eq!(generator.shapes()[0].opacity, 700);
}

#[test]
fn nothing_is_there_before_the_first_run() {
    let generator = Generator::new(4, 3, 800, Some(1));
    assert!(generator.grid().is_none());
    assert!(generator.shapes().is_empty());
    assert_eq!(
        Generator::available_themes(),
        vec!["mesos", "google", "blues", "greens", "reds", "purples", "rainbow"]
    );
}

#[test]
fn size_ranges() {
    assert_eq!(size_range_of(2, 3), (2, 5));
    assert_eq!(size_range_of(2, 10), (2, 3));
    assert_eq!(size_range_of(2, 6), (2, 4));
    assert_eq!(size_range_of(3, 3), (1, 3));
    assert_eq!(size_range_of(4, 3), (1, 5));
    assert_eq!(size_range_of(5, 3), (2, 8));
    assert_eq!(size_range_of(6, 3), (2, 11));
    assert_eq!(size_range_of(7, 3), (3, 15));
    assert_eq!(size_range_of(8, 3), (4, 19));
    // settings out of their ranges count as the nearest in range
    assert_eq!(size_range_of(0, 0), size_range_of(2, 1));
    assert_eq!(size_range_of(200, 200), size_range_of(8, 10));
    assert_eq!(size_range_of(2, 1), (2, 5));
}

#[test]
fn separate_shapes_share_no_cell_and_no_colour_with_a_neighbour() {
    for density in [2u8, 4, 7] {
        for seed in 0..15 {
            let generator = run(density, 5, 800, seed, "google", false);
            let shapes = generator.shapes();
            let grid = generator.grid().unwrap();
            let palette = Theme::Google.palette();
            let high = size_range_of(density, 5).1;
            assert_eq!(shapes.len(), 5);
            assert!(!shapes[0].cells.is_empty());
            for (i, shape) in shapes.iter().enumerate() {
                assert!(palette.contains(&shape.color), "{}", shape.color);
                assert_eq!(shape.opacity, 800);
                assert!(shape.cell_count() <= high);
                assert!(connected(&generator, &shape.cells));
                for other in &shapes[..i] {
                    assert!(shape.cells.iter().all(|c| !other.cells.contains(c)));
                    let touch = shape.cells.iter().any(|&c| {
                        grid.adjacent_cells(c).iter().any(|n| other.cells.contains(n))
                    });
                    if touch {
                        assert_ne!(shape.color, other.color);
                    }
                }
            }
        }
    }
}

#[test]
fn overlap_gives_a_blend_shape_only_where_shapes_meet() {
    for density in [2u8, 3, 6] {
        for seed in 0..15 {
            let generator = run(density, 4, 600, seed, "rainbow", true);
            let shapes = generator.shapes();
            let palette = Theme::Rainbow.palette();
            assert!(shapes.len() == 4 || shapes.len() == 5);
            let blended = shapes.len() == 5;
            // two shapes from the middle always meet in this mesh
            assert!(blended);
            let blend = &shapes[2];
            assert_eq!(
                blend.color,
                ColorManager::average_colors(&shapes[0].color, &shapes[1].color)
            );
            assert!(!blend.cells.is_empty());
            for cell in &blend.cells {
                assert!(!shapes[0].cells.contains(cell));
                assert!(!shapes[1].cells.contains(cell));
            }
            assert!(shapes[0].cells.iter().all(|c| !shapes[1].cells.contains(c)));
            for (i, shape) in shapes.iter().enumerate() {
                assert_eq!(shape.opacity, 600);
                if i != 2 {
                    assert!(palette.contains(&shape.color));
                }
                if i > 2 {
                    assert!(connected(&generator, &shape.cells));
                    for other in &shapes[..i] {
                        assert!(shape.cells.iter().all(|c| !other.cells.contains(c)));
                    }
                }
            }
        }
    }
}

#[test]
fn overlap_with_one_shape_is_a_run_without() {
    let generator = run(4, 1, 800, 3, "blues", true);
    assert_eq!(generator.shapes().len(), 1);
    assert!(Theme::Blues.palette().contains(&generator.shapes()[0].color));
}

#[test]
fn a_run_replaces_the_shapes_of_the_run_before() {
    let mut generator = Generator::new(3, 4, 800, Some(9));
    generator.set_allow_overlap(true);
    generator.generate().unwrap();
    let first = generator.shapes().len();
    generator.generate().unwrap();
    assert_eq!(generator.shapes().len(), first);
    generator.set_allow_overlap(false);
    generator.set_theme(Theme::Reds);
    generator.generate().unwrap();
    assert_eq!(generator.shapes().len(), 4);
    assert!(Theme::Reds.palette().contains(&generator.shapes()[0].color));
}

#[test]
fn seeded_runs_repeat() {
    for overlap in [false, true] {
        for density in [2u8, 5] {
            let a = run(density, 4, 800, 12345, "mesos", overlap);
            let b = run(density, 4, 800, 12345, "mesos", overlap);
            assert_eq!(a.shapes().len(), b.shapes().len());
            for (x, y) in a.shapes().iter().zip(b.shapes()) {
                assert_eq!(x.cells, y.cells);
                assert_eq!(x.color, y.color);
                assert_eq!(x.opacity, y.opacity);
            }
        }
    }
    let differ = (0..10u64).any(|seed| {
        let a = run(5, 4, 800, seed, "mesos", false);
        let b = run(5, 4, 800, seed + 1000, "mesos", false);
        a.shapes()
            .iter()
            .zip(b.shapes())
            .any(|(x, y)| x.cells != y.cells || x.color != y.color)
    });
    assert!(differ);
}

#[test]
fn unseeded_runs_work() {
    let mut generator = Generator::new(3, 3, 800, None);
    assert!(generator.generate().is_ok());
    assert_eq!(generator.shapes().len(), 3);
}

#[test]
fn splitting_two_shapes() {
    let shape = |cells: &[usize], color: &str| {
        let mut shape = Shape::new(color.to_string(), 400);
        for &cell in cells {
            shape.add_cell(cell);
        }
        shape
    };
    let first = shape(&[4, 1, 7, 3], "#FF0000");
    let second = shape(&[3, 9, 4], "#0000FF");
    let parts = split_overlap(&first, &second, "#7F007F".to_string());
    assert_eq!(parts.len(), 3);
    assert_eq!(parts[0].cells, vec![1, 7]);
    assert_eq!(parts[0].color, "#FF0000");
    assert_eq!(parts[1].cells, vec![9]);
    assert_eq!(parts[1].color, "#0000FF");
    assert_eq!(parts[2].cells, vec![4, 3]);
    assert_eq!(parts[2].color, "#7F007F");
    assert!(parts.iter().all(|part| part.opacity == 400));

    let apart = split_overlap(&first, &shape(&[9, 10], "#0000FF"), "#7F007F".to_string());
    assert_eq!(apart.len(), 2);
    assert_eq!(apart[0].cells, vec![4, 1, 7, 3]);
    assert_eq!(apart[1].cells, vec![9, 10]);

    let same = split_overlap(&first, &first, "#7F007F".to_string());
    assert_eq!(same.len(), 3);
    assert!(same[0].cells.is_empty());
    assert!(same[1].cells.is_empty());
    assert_eq!(same[2].cells, vec![4, 1, 7, 3]);

    assert_eq!(select_cells(&vec![1, 2, 3], &vec![2], true), vec![2]);
    assert_eq!(select_cells(&vec![1, 2, 3], &vec![2], false), vec![1, 3]);
    assert!(select_cells(&Vec::new(), &vec![2], false).is_empty());
}

#[test]
fn the_colour_of_most_contrast() {
    let colors: Vec<String> = ["#000000", "#101010", "#FFFFFF", "#FFFFFF", "#808080"]
        .iter()
        .map(|c| c.to_string())
        .collect();
    assert_eq!(pick_contrasting(&colors), 2);
    let alike: Vec<String> = vec!["#000000".to_string(); 4];
    assert_eq!(pick_contrasting(&alike), 1);
    assert_eq!(pick_contrasting(&vec!["#000000".to_string()]), 0);
    assert_eq!(pick_contrasting(&Vec::new()), 0);
}

#[test]
fn spare_colours_are_new_and_different() {
    let available: Vec<String> = ["#1", "#2", "#1", "#3", "#3", "#4", "#5"]
        .iter()
        .map(|c| c.to_string())
        .collect();
    let first = "#1".to_string();
    let second = "#4".to_string();
    assert_eq!(spare_colors(&available, &first, &second, 5), vec!["#2", "#3", "#5"]);
    assert_eq!(spare_colors(&available, &first, &second, 2), vec!["#2", "#3"]);
    assert!(spare_colors(&available, &first, &second, 0).is_empty());
}

#[test]
fn used_cells_add_up() {
    let mut used = vec![1, 2];
    mark_used(&mut used, &vec![5, 2]);
    assert_eq!(used, vec![1, 2, 5, 2]);
}
