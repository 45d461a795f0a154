use hexlogogen::generator::color::{
    contains_color, placeholder_color, ColorError, ColorManager, Theme, MAX_COLOR_ATTEMPTS,
};
use hexlogogen::generator::grid::triangular::TriangularGrid;
use hexlogogen::generator::shape::Shape;

#[test]
fn test_color_conversion() {
    let hex = "#FF5500";
    let (r, g, b) = ColorManager::hex_to_rgb(hex);
    assert_eq!(r, 255);
    assert_eq!(g, 85);
    assert_eq!(b, 0);

    let hex2 = ColorManager::rgb_to_hex(r, g, b);
    assert_eq!(hex2.to_uppercase(), "#FF5500");
}

#[test]
fn test_color_blending() {
    let color1 = "#FF0000"; // Red
    let color2 = "#0000FF"; // Blue

    // 50% blend should give purple
    let blended = ColorManager::blend_colors(color1, color2, 500);
    assert_eq!(blended.to_uppercase(), "#800080");

    // 0% opacity should give color1
    let blended = ColorManager::blend_colors(color1, color2, 0);
    assert_eq!(blended.to_uppercase(), "#FF0000");

    // 100% opacity should give color2
    let blended = ColorManager::blend_colors(color1, color2, 1000);
    assert_eq!(blended.to_uppercase(), "#0000FF");
}

#[test]
fn test_random_color_selection() {
    let mut manager = ColorManager::default(Some(42)).unwrap(); // Fixed seed for deterministic testing

    // Get a few random colors and ensure they're from the palette
    let color1 = manager.get_random_color();
    let color2 = manager.get_random_color();

    assert!(manager.palette().contains(&color1));
    assert!(manager.palette().contains(&color2));

    // Get multiple colors at once
    let colors = manager.get_random_colors(3);
    assert_eq!(colors.len(), 3);

    for color in colors {
        assert!(manager.palette().contains(&color));
    }
}

#[test]
fn test_get_different_color() {
    let mut manager = ColorManager::default(Some(42)).unwrap(); // Fixed seed for deterministic testing

    let existing_colors = vec![
        "#FFCC09".to_string(),
        "#F68A21".to_string(),
        "#E42728".to_string(),
    ];

    let different_color = manager.get_different_color(&existing_colors);
    assert!(!existing_colors.contains(&different_color));
}

#[test]
fn test_color_contrast() {
    // Test high contrast (black/white)
    let contrast = ColorManager::color_contrast("#FFFFFF", "#000000");
    assert!(contrast > 20_000); // Should be 21.0

    // Test low contrast (similar colors)
    let contrast = ColorManager::color_contrast("#FF0000", "#FF0001");
    assert!(contrast < 1_100); // Should be very close to 1.0
}

#[test]
fn test_with_theme_name() {
    // Test with a valid theme name
    let manager = ColorManager::with_theme_name("blues", Some(42)).unwrap();
    let palette = manager.palette();

    // Verify colors are from the blues theme
    assert!(palette.iter().any(|color| color.to_uppercase() == "#1E88E5"
        || color.to_uppercase() == "#2196F3"
        || color.to_uppercase() == "#0D47A1"));

    // Test with another theme
    let manager = ColorManager::with_theme_name("google", Some(42)).unwrap();
    let palette = manager.palette();

    // Verify colors are from the google theme
    assert!(palette
        .iter()
        .any(|color| color.to_uppercase() == "#4285F4"));
}

#[test]
fn test_default() {
    // Test default theme (should be Mesos)
    let manager = ColorManager::default(Some(42)).unwrap();
    let palette = manager.palette();

    // Verify colors are from the Mesos theme
    assert!(palette
        .iter()
        .any(|color| color.to_uppercase() == "#FFCC09"));
    assert!(palette
        .iter()
        .any(|color| color.to_uppercase() == "#E42728"));
}

#[test]
fn test_colors_with_blend() {
    let mut manager = ColorManager::default(Some(42)).unwrap();

    let (color1, color2, blend) = manager.get_colors_with_blend();

    // Verify the colors are from the palette
    assert!(manager.palette().contains(&color1));
    assert!(manager.palette().contains(&color2));

    // Verify that color1 and color2 are different
    assert_ne!(color1, color2);

    // Verify the blend logic
    let (r1, g1, b1) = ColorManager::hex_to_rgb(&color1);
    let (r2, g2, b2) = ColorManager::hex_to_rgb(&color2);
    let (rb, gb, bb) = ColorManager::hex_to_rgb(&blend);

    // The blend should be the average of the RGB values
    assert_eq!(rb, ((r1 as u16 + r2 as u16) / 2) as u8);
    assert_eq!(gb, ((g1 as u16 + g2 as u16) / 2) as u8);
    assert_eq!(bb, ((b1 as u16 + b2 as u16) / 2) as u8);
}

#[test]
fn test_color_avoiding_adjacency() {
    // Create a triangular grid for testing
    let grid = TriangularGrid::new(100, 2);

    // Create a ColorManager
    let mut manager = ColorManager::default(Some(42)).unwrap();

    // Test with no existing shapes (should just return a random color)
    let shape_cells = vec![0, 1, 2];
    let existing_shapes: Vec<Shape> = vec![];
    let color = manager.get_color_avoiding_adjacency(&grid, &shape_cells, &existing_shapes);

    assert!(manager.palette().contains(&color));

    // Create a shape with a known color
    let mut shape1 = Shape::new("#FF0000".to_string(), 800);
    shape1.add_cell(3);
    shape1.add_cell(4);

    // Create another shape with a different color
    let mut shape2 = Shape::new("#00FF00".to_string(), 800);
    shape2.add_cell(6);
    shape2.add_cell(7);

    let existing_shapes = vec![shape1, shape2];

    // Get a color avoiding adjacency to these shapes
    let color = manager.get_color_avoiding_adjacency(&grid, &shape_cells, &existing_shapes);

    // The color should be from the palette
    assert!(manager.palette().contains(&color));

    // The color should be different from the existing shapes' colors
    assert_ne!(color, "#FF0000");
    assert_ne!(color, "#00FF00");
}

#[test]
fn hex_round_trip_for_all_components() {
    for value in 0..=255u8 {
        let hex = ColorManager::rgb_to_hex(value, 255 - value, value / 2);
        assert_eq!(hex.len(), 7);
        assert_eq!(hex, hex.to_uppercase());
        assert_eq!(ColorManager::hex_to_rgb(&hex), (value, 255 - value, value / 2));
    }
    assert_eq!(ColorManager::rgb_to_hex(0, 10, 171), "#000AAB");
}

#[test]
fn hex_reading_is_total() {
    assert_eq!(ColorManager::hex_to_rgb("ff5500"), (255, 85, 0));
    assert_eq!(ColorManager::hex_to_rgb("##aBcDeF"), (0xab, 0xcd, 0xef));
    assert_eq!(ColorManager::hex_to_rgb("#GG5500"), (0, 85, 0));
    assert_eq!(ColorManager::hex_to_rgb("#+F-100"), (15, 0, 0));
    assert_eq!(ColorManager::hex_to_rgb("#FF"), (255, 0, 0));
    assert_eq!(ColorManager::hex_to_rgb("#FFA"), (255, 0, 0));
    assert_eq!(ColorManager::hex_to_rgb(""), (0, 0, 0));
    assert_eq!(ColorManager::hex_to_rgb("#"), (0, 0, 0));
    assert_eq!(ColorManager::hex_to_rgb("#é12345"), (0, 0x23, 0x45));
}

#[test]
fn blend_rounds_and_clamps() {
    assert_eq!(ColorManager::blend_colors("#000000", "#FFFFFF", 500), "#808080");
    assert_eq!(ColorManager::blend_colors("#000000", "#FFFFFF", 250), "#404040");
    assert_eq!(ColorManager::blend_colors("#0A141E", "#141E28", 333), "#0D1721");
    assert_eq!(ColorManager::blend_colors("#123456", "#654321", 5000), "#654321");
    assert_eq!(ColorManager::blend_colors("#123456", "#654321", 0), "#123456");
    assert_eq!(ColorManager::average_colors("#FF0000", "#0000FF"), "#7F007F");
}

#[test]
fn contrast_has_exact_values() {
    assert_eq!(ColorManager::color_contrast("#FFFFFF", "#000000"), 21_000);
    assert_eq!(ColorManager::color_contrast("#000000", "#FFFFFF"), 21_000);
    assert_eq!(ColorManager::color_contrast("#123456", "#123456"), 1_000);
    // pure red has the luminance 0.2126, pure blue 0.0722
    assert_eq!(ColorManager::color_contrast("#FF0000", "#0000FF"), 2_148);
    assert_eq!(ColorManager::color_contrast("#FF0000", "#000000"), 5_252);
}

#[test]
fn themes_by_name() {
    assert_eq!(Theme::from("mesos"), Theme::Mesos);
    assert_eq!(Theme::from("GOOGLE"), Theme::Google);
    assert_eq!(Theme::from("Blues"), Theme::Blues);
    assert_eq!(Theme::from("greens"), Theme::Greens);
    assert_eq!(Theme::from("rEdS"), Theme::Reds);
    assert_eq!(Theme::from("purples"), Theme::Purples);
    assert_eq!(Theme::from("rainbow"), Theme::Rainbow);
    assert_eq!(Theme::from("no such theme"), Theme::Mesos);
    assert_eq!(Theme::from(""), Theme::Mesos);
    assert_eq!(Theme::from("rainbows"), Theme::Mesos);
    assert_eq!(Theme::Rainbow.to_string(), "rainbow");
    assert_eq!(
        ColorManager::available_themes(),
        vec!["mesos", "google", "blues", "greens", "reds", "purples", "rainbow"]
    );
    for name in ColorManager::available_themes() {
        assert_eq!(Theme::from(name.as_str()).to_string(), name);
    }
}

#[test]
fn theme_palettes() {
    assert_eq!(Theme::Mesos.palette().len(), 15);
    assert_eq!(Theme::Rainbow.palette().len(), 17);
    assert_eq!(Theme::Mesos.palette()[0], "#FFCC09");
    assert_eq!(Theme::Google.palette()[14], "#8AB4F8");
    assert_eq!(Theme::Rainbow.palette()[16], "#C71585");
    let themes = [
        (Theme::Mesos, ColorManager::mesos_theme(Some(1)).unwrap()),
        (Theme::Google, ColorManager::google_theme(Some(1)).unwrap()),
        (Theme::Blues, ColorManager::blues_theme(Some(1)).unwrap()),
        (Theme::Greens, ColorManager::greens_theme(Some(1)).unwrap()),
        (Theme::Reds, ColorManager::reds_theme(Some(1)).unwrap()),
        (Theme::Purples, ColorManager::purples_theme(Some(1)).unwrap()),
        (Theme::Rainbow, ColorManager::rainbow_theme(Some(1)).unwrap()),
    ];
    for (theme, manager) in &themes {
        assert_eq!(manager.palette(), &theme.palette());
        assert_eq!(
            ColorManager::with_theme(*theme, Some(1)).unwrap().palette(),
            &theme.palette()
        );
        for color in manager.palette() {
            let (r, g, b) = ColorManager::hex_to_rgb(color);
            assert_eq!(&ColorManager::rgb_to_hex(r, g, b), color);
        }
    }
}

#[test]
fn empty_palette_is_refused() {
    assert!(matches!(
        ColorManager::new(Vec::new(), Some(1)),
        Err(ColorError::EmptyPalette)
    ));
    assert!(ColorManager::new(vec!["#000000".to_string()], Some(1)).is_ok());
    assert!(ColorManager::new(vec!["#000000".to_string()], None).is_ok());
}

#[test]
fn different_color_gives_up_after_twenty_draws() {
    assert_eq!(MAX_COLOR_ATTEMPTS, 20);
    let only = "#ABCDEF".to_string();
    let mut manager = ColorManager::new(vec![only.clone()], Some(7)).unwrap();
    assert_eq!(manager.get_different_color(&vec![only.clone()]), only);
    assert_eq!(manager.get_different_color(&Vec::new()), only);
}

#[test]
fn seeded_draws_repeat() {
    let mut first = ColorManager::default(Some(99)).unwrap();
    let mut second = ColorManager::default(Some(99)).unwrap();
    assert_eq!(first.get_random_colors(40), second.get_random_colors(40));
    let mut other = ColorManager::default(Some(100)).unwrap();
    assert_ne!(first.get_random_colors(40), other.get_random_colors(40));
}

#[test]
fn contains_color_compares_text() {
    let list = vec!["#000000".to_string(), "#FFFFFF".to_string()];
    assert!(contains_color(&list, &"#FFFFFF".to_string()));
    assert!(!contains_color(&list, &"#ffffff".to_string()));
}

#[test]
fn placeholders_are_numbered() {
    assert_eq!(placeholder_color(0), "#PLACEHOLDER0");
    assert_eq!(placeholder_color(7), "#PLACEHOLDER7");
    assert_eq!(placeholder_color(120), "#PLACEHOLDER120");
}

/// Two strips of the smallest mesh that touch, and one cell far from both.
fn three_shapes() -> Vec<Shape> {
    let mut a = Shape::new("#000000".to_string(), 800);
    a.add_cell(0);
    a.add_cell(1);
    let mut b = Shape::new("#000000".to_string(), 800);
    b.add_cell(2);
    b.add_cell(3);
    let mut c = Shape::new("#000000".to_string(), 800);
    c.add_cell(15);
    vec![a, b, c]
}

#[test]
fn harmonious_colors_differ_between_neighbours() {
    let grid = TriangularGrid::new(100, 2);
    for seed in 0..50 {
        let mut manager = ColorManager::default(Some(seed)).unwrap();
        let mut shapes = three_shapes();
        let harmonious = manager.assign_harmonious_colors(&grid, &mut shapes);
        for shape in &shapes {
            assert!(manager.palette().contains(&shape.color));
            assert_eq!(shape.opacity, 800);
        }
        assert_eq!(shapes[0].cells, vec![0, 1]);
        assert_eq!(shapes[1].cells, vec![2, 3]);
        assert_eq!(shapes[2].cells, vec![15]);
        assert_eq!(harmonious, shapes[0].color != shapes[1].color);
        assert!(harmonious);
    }
}

#[test]
fn one_color_cannot_be_harmonious() {
    let grid = TriangularGrid::new(100, 2);
    let mut manager = ColorManager::new(vec!["#112233".to_string()], Some(3)).unwrap();
    let mut shapes = three_shapes();
    assert!(!manager.assign_harmonious_colors(&grid, &mut shapes));
    for shape in &shapes {
        assert_eq!(shape.color, "#112233");
    }
    // shapes that do not touch need no second colour
    let mut apart = three_shapes();
    apart.remove(1);
    assert!(manager.assign_harmonious_colors(&grid, &mut apart));
    let mut none: Vec<Shape> = Vec::new();
    assert!(manager.assign_harmonious_colors(&grid, &mut none));
}

#[test]
fn the_palette_is_searched_before_a_clash() {
    let grid = TriangularGrid::new(100, 2);
    let palette = vec!["#000000".to_string(), "#FFFFFF".to_string()];
    for seed in 0..200 {
        let mut manager = ColorManager::new(palette.clone(), Some(seed)).unwrap();
        let mut shapes = three_shapes();
        assert!(manager.assign_harmonious_colors(&grid, &mut shapes));
        assert_ne!(shapes[0].color, shapes[1].color);
    }
}

#[test]
fn three_shapes_around_the_center_need_three_colours() {
    let grid = TriangularGrid::new(100, 3);
    // three strips that touch each other in pairs
    let strip = |cells: &[usize]| {
        let mut shape = Shape::new("#000000".to_string(), 1);
        for &cell in cells {
            shape.add_cell(cell);
        }
        shape
    };
    let shapes = || vec![strip(&[0, 1, 9]), strip(&[45, 46]), strip(&[18, 10, 2])];
    let two = vec!["#000000".to_string(), "#FFFFFF".to_string()];
    let three = vec!["#000000".to_string(), "#FFFFFF".to_string(), "#808080".to_string()];
    for seed in 0..50 {
        let mut few = ColorManager::new(two.clone(), Some(seed)).unwrap();
        let mut colored = shapes();
        let harmonious = few.assign_harmonious_colors(&grid, &mut colored);
        let touch = |a: &Shape, b: &Shape| {
            a.cells
                .iter()
                .any(|&c| grid.adjacent_cells(c).iter().any(|n| b.cells.contains(n)))
        };
        let clash = (0..3).any(|a| {
            (0..3).any(|b| a != b && touch(&colored[a], &colored[b]) && colored[a].color == colored[b].color)
        });
        assert_eq!(harmonious, !clash);

        let mut enough = ColorManager::new(three.clone(), Some(seed)).unwrap();
        let mut colored = shapes();
        assert!(enough.assign_harmonious_colors(&grid, &mut colored));
    }
}

#[test]
fn blended_pairs_differ_where_the_palette_allows() {
    let palette = vec!["#102030".to_string(), "#102030".to_string(), "#405060".to_string()];
    for seed in 0..200 {
        let mut manager = ColorManager::new(palette.clone(), Some(seed)).unwrap();
        let (first, second, blend) = manager.get_colors_with_blend();
        assert_ne!(first, second);
        assert_eq!(blend, "#283848");
    }
    let mut single = ColorManager::new(vec!["#102030".to_string()], Some(1)).unwrap();
    let (first, second, blend) = single.get_colors_with_blend();
    assert_eq!((first.as_str(), second.as_str(), blend.as_str()), ("#102030", "#102030", "#102030"));
}

#[test]
fn avoiding_adjacency_searches_the_palette() {
    let grid = TriangularGrid::new(100, 2);
    let mut touching = Shape::new("#000000".to_string(), 800);
    touching.add_cell(1);
    let mut apart = Shape::new("#FFFFFF".to_string(), 800);
    apart.add_cell(15);
    let existing = vec![touching, apart];
    let palette = vec!["#000000".to_string(), "#FFFFFF".to_string()];
    for seed in 0..200 {
        let mut manager = ColorManager::new(palette.clone(), Some(seed)).unwrap();
        // cell 0 touches cell 1 only: white is left, though a shape far away has it
        assert_eq!(manager.get_color_avoiding_adjacency(&grid, &vec![0], &existing), "#FFFFFF");
    }
    let mut black = ColorManager::new(vec!["#000000".to_string()], Some(1)).unwrap();
    assert_eq!(black.get_color_avoiding_adjacency(&grid, &vec![0], &existing), "#000000");
}
