//! The generation engine: mesh, shapes and colours, and the generator that
//! runs them in one pass.

use vstd::prelude::*;

pub mod color;
pub mod grid;
pub mod random;
pub mod shape;

pub use color::Theme;

use color::{
    ColorManager, average, colors_of, contains_color, contrast, is_harmonious, theme_of,
};
use grid::TriangularGrid;
use grid::geometry::clamp_density;
use shape::{Shape, ShapeGenerator, contains_id, mark_used};
use shape::growth::{
    avoids, cells_before, grew_in_turn, is_grown, lemma_cells_before, pairwise_disjoint,
};

verus! {

/// The circumradius of the hexagon in the units of the drawing.
pub const HEXAGON_SIZE: u32 = 100;

/// Why a logo could not be generated.
#[derive(Debug, Clone, Copy, PartialEq, Eq, Structural)]
pub enum GenerateError {
    /// No seed was given and the system had no entropy to offer.
    EntropyUnavailable,
}

/// The cells among the first `n` of `a` that are cells of `b` (`shared`), or
/// that are not (`!shared`), in their order.
pub open spec fn cells_where(a: Seq<usize>, b: Seq<usize>, shared: bool, n: nat) -> Seq<usize>
    decreases n,
{
    if n == 0 {
        Seq::empty()
    } else {
        let rest = cells_where(a, b, shared, (n - 1) as nat);
        if b.contains(a[n - 1]) == shared {
            rest.push(a[n - 1])
        } else {
            rest
        }
    }
}

/// The cells of `a` that are cells of `b` too.
pub open spec fn common_cells(a: Seq<usize>, b: Seq<usize>) -> Seq<usize> {
    cells_where(a, b, true, a.len())
}

/// The cells of `a` that are no cells of `b`.
pub open spec fn remaining_cells(a: Seq<usize>, b: Seq<usize>) -> Seq<usize> {
    cells_where(a, b, false, a.len())
}

/// Two shapes as they are drawn where they may overlap: what the first has
/// alone, what the second has alone and, only if they share a cell, what
/// they share, in the blend colour.
pub open spec fn is_split(first: Shape, second: Shape, blend: Seq<char>, parts: Seq<Shape>) -> bool {
    let common = common_cells(first.cells@, second.cells@);
    &&& parts.len() == (if common.len() > 0 {
        3int
    } else {
        2int
    })
    &&& parts[0].cells@ == remaining_cells(first.cells@, second.cells@)
    &&& parts[0].color@ == first.color@
    &&& parts[0].opacity == first.opacity
    &&& parts[1].cells@ == remaining_cells(second.cells@, first.cells@)
    &&& parts[1].color@ == second.color@
    &&& parts[1].opacity == second.opacity
    &&& common.len() > 0 ==> parts[2].cells@ == common && parts[2].color@ == blend && parts[2].opacity
        == first.opacity
}

/// Selects the cells of `a` that are cells of `b` (`shared`), or that are
/// not (`!shared`).
pub fn select_cells(a: &Vec<usize>, b: &Vec<usize>, shared: bool) -> (selected: Vec<usize>)
    ensures
        selected@ == cells_where(a@, b@, shared, a@.len()),
{
    let mut selected: Vec<usize> = Vec::new();
    let mut i: usize = 0;
    while i < a.len()
        invariant
            i <= a@.len(),
            selected@ == cells_where(a@, b@, shared, i as nat),
        decreases a@.len() - i,
    {
        if contains_id(b, a[i]) == shared {
            selected.push(a[i]);
        }
        i = i + 1;
    }
    selected
}

/// Splits two shapes that may overlap into the parts that are drawn: the
/// cells that each has alone and, if they share cells, the shared cells as a
/// third shape of the blend colour.
pub fn split_overlap(first: &Shape, second: &Shape, blend: String) -> (parts: Vec<Shape>)
    ensures
        is_split(*first, *second, blend@, parts@),
{
    let common = select_cells(&first.cells, &second.cells, true);
    let mut parts: Vec<Shape> = Vec::new();
    parts.push(
        Shape {
            cells: select_cells(&first.cells, &second.cells, false),
            color: first.color.clone(),
            opacity: first.opacity,
        },
    );
    parts.push(
        Shape {
            cells: select_cells(&second.cells, &first.cells, false),
            color: second.color.clone(),
            opacity: second.opacity,
        },
    );
    if common.len() > 0 {
        parts.push(Shape { cells: common, color: blend, opacity: first.opacity });
    }
    parts
}

/// Whether `x` is among the first `n` cells of `a`.
pub open spec fn occurs_before(a: Seq<usize>, n: nat, x: usize) -> bool {
    exists|i: int| 0 <= i < n && a[i] == x
}

/// A blend shape stands among the parts exactly if the two shapes share a
/// cell.
pub proof fn lemma_blend_only_where_shapes_meet(first: Shape, second: Shape, blend: Seq<char>, parts: Seq<Shape>)
    requires
        is_split(first, second, blend, parts),
    ensures
        parts.len() == 3 <==> exists|x: usize| first.cells@.contains(x) && second.cells@.contains(x),
        parts.len() == 2 || parts.len() == 3,
{
    let a = first.cells@;
    let b = second.cells@;
    lemma_cells_where(a, b, true, a.len());
    let common = common_cells(a, b);
    if common.len() > 0 {
        assert(common.contains(common[0]));
        assert(occurs_before(a, a.len(), common[0]));
        assert(a.contains(common[0]) && b.contains(common[0]));
    }
    if exists|x: usize| a.contains(x) && b.contains(x) {
        let x = choose|x: usize| a.contains(x) && b.contains(x);
        let i = choose|i: int| 0 <= i < a.len() && a[i] == x;
        assert(occurs_before(a, a.len(), x));
        assert(common.contains(x));
    }
}

/// The selected cells are exactly the cells among the first `n` that are
/// shared, or that are not.
pub proof fn lemma_cells_where(a: Seq<usize>, b: Seq<usize>, shared: bool, n: nat)
    requires
        n <= a.len(),
    ensures
        forall|x: usize| #[trigger]
            cells_where(a, b, shared, n).contains(x) <==> occurs_before(a, n, x) && b.contains(x) == shared,
        cells_where(a, b, shared, n).len() <= n,
        a.no_duplicates() ==> cells_where(a, b, shared, n).no_duplicates(),
    decreases n,
{
    if n > 0 {
        lemma_cells_where(a, b, shared, (n - 1) as nat);
        let rest = cells_where(a, b, shared, (n - 1) as nat);
        let now = cells_where(a, b, shared, n);
        assert forall|x: usize| #[trigger]
            now.contains(x) <==> occurs_before(a, n, x) && b.contains(x) == shared by {
            assert(rest.contains(x) <==> occurs_before(a, (n - 1) as nat, x) && b.contains(x) == shared);
            if now.contains(x) {
                let k = choose|k: int| 0 <= k < now.len() && now[k] == x;
                if k < rest.len() {
                    assert(rest[k] == x);
                    assert(rest.contains(x));
                    let i = choose|i: int| 0 <= i < n - 1 && a[i] == x;
                    assert(0 <= i < n && a[i] == x);
                } else {
                    assert(a[n - 1] == x);
                }
            }
            if occurs_before(a, n, x) && b.contains(x) == shared {
                let i = choose|i: int| 0 <= i < n && a[i] == x;
                if i < n - 1 {
                    assert(occurs_before(a, (n - 1) as nat, x));
                    assert(rest.contains(x));
                    let k = choose|k: int| 0 <= k < rest.len() && rest[k] == x;
                    assert(now[k] == x);
                } else {
                    assert(now[rest.len() as int] == x);
                }
            }
        }
        if a.no_duplicates() && b.contains(a[n - 1]) == shared {
            assert forall|k: int, l: int| 0 <= k < l < now.len() implies now[k] != now[l] by {
                if l == rest.len() {
                    assert(rest.contains(rest[k]));
                    assert(occurs_before(a, (n - 1) as nat, rest[k]));
                    let i = choose|i: int| 0 <= i < n - 1 && a[i] == rest[k];
                } else {
                    assert(rest[k] != rest[l]);
                }
            }
        }
    } else {
        assert forall|x: usize| #[trigger]
            cells_where(a, b, shared, n).contains(x) <==> occurs_before(a, n, x) && b.contains(x) == shared by {
        }
    }
}

/// Brings a number of shapes into the range of one to ten.
pub open spec fn clamp_count(count: u8) -> u8 {
    if count < 1 {
        1
    } else if count > 10 {
        10
    } else {
        count
    }
}

/// Brings an opacity into the range of nothing to one, in thousandths.
pub open spec fn clamp_opacity(opacity: u16) -> u16 {
    if opacity > 1000 {
        1000
    } else {
        opacity
    }
}

/// The range of the sizes that shapes aim at, for a mesh of the given
/// density and a number of shapes, both brought into their ranges: from one
/// to five in a hundred of the
/// cells, each rounded to the nearest whole number, and for the smallest
/// mesh from two cells to five, or to an even share of the cells if that is
/// less.  The range spans two sizes at least.
pub open spec fn size_range(density: u8, count: u8) -> (int, int) {
    let d = clamp_density(density) as int;
    let c = clamp_count(count) as int;
    let total = 6 * d * d;
    let low = if d <= 2 {
        2
    } else {
        (total + 50) / 100
    };
    let high = if d <= 2 {
        if total / c < 5 {
            total / c
        } else {
            5
        }
    } else {
        (5 * total + 50) / 100
    };
    (low, if high > low + 1 {
        high
    } else {
        low + 1
    })
}

/// The number of colours that are drawn for a run with overlap: two more
/// than there are shapes, and two more again from density four on.
pub open spec fn palette_size(density: u8, count: u8) -> int {
    if density >= 4 {
        count + 4
    } else {
        count + 2
    }
}

/// Every shape is a grown shape of the wanted opacity, of at most `high`
/// cells and of a colour of the palette.
pub open spec fn is_shape_of_run(
    grid: TriangularGrid,
    palette: Seq<Seq<char>>,
    opacity: u16,
    high: int,
    shape: Shape,
) -> bool {
    &&& is_grown(grid@.cells@, shape.cells@)
    &&& shape.cells@.len() <= high
    &&& shape.opacity == opacity
    &&& palette.contains(shape.color@)
}

/// What a run without overlap leaves: as many grown shapes as were asked
/// for, no two with a cell in common, the first from the middle of the
/// hexagon and not empty, the others from seeds beside the shapes before
/// them, and no two that share an edge of the same colour.
pub open spec fn is_separate_result(
    grid: TriangularGrid,
    palette: Seq<Seq<char>>,
    count: int,
    opacity: u16,
    high: int,
    shapes: Seq<Shape>,
) -> bool {
    &&& shapes.len() == count
    &&& forall|i: int| 0 <= i < count ==> is_shape_of_run(grid, palette, opacity, high, #[trigger] shapes[i])
    &&& pairwise_disjoint(shapes)
    &&& grew_in_turn(grid@.cells@, grid@.center, shapes)
    &&& count > 0 ==> shapes[0].cells@.len() > 0
    &&& is_harmonious(grid@.cells@, shapes)
}

/// What a run with overlap leaves, where `first` and `second` are the two
/// shapes that grew from the middle: the parts of the two, then the further
/// shapes, each on cells that no shape before it has.
pub open spec fn is_overlap_of(
    grid: TriangularGrid,
    palette: Seq<Seq<char>>,
    count: int,
    opacity: u16,
    high: int,
    shapes: Seq<Shape>,
    first: Shape,
    second: Shape,
) -> bool {
    let parts: int = if common_cells(first.cells@, second.cells@).len() > 0 {
        3
    } else {
        2
    };
    &&& is_shape_of_run(grid, palette, opacity, high, first)
    &&& is_shape_of_run(grid, palette, opacity, high, second)
    &&& first.cells@.len() > 0
    &&& second.cells@.len() > 0
    &&& shapes.len() == parts + count - 2
    &&& is_split(first, second, average(first.color@, second.color@), shapes.subrange(0, parts))
    &&& forall|i: int|
        parts <= i < shapes.len() ==> is_shape_of_run(grid, palette, opacity, high, #[trigger] shapes[i])
    &&& forall|i: int, j: int|
        parts <= i < shapes.len() && 0 <= j < i ==> #[trigger] avoids(shapes[i].cells@, #[trigger] shapes[j].cells@)
}

/// What a run with overlap leaves.
pub open spec fn is_overlap_result(
    grid: TriangularGrid,
    palette: Seq<Seq<char>>,
    count: int,
    opacity: u16,
    high: int,
    shapes: Seq<Shape>,
) -> bool {
    exists|first: Shape, second: Shape| #[trigger]
        is_overlap_of(grid, palette, count, opacity, high, shapes, first, second)
}

/// Generates logos: a mesh, shapes on it, and their colours.
pub struct Generator {
    grid_size: u8,
    shapes_count: u8,
    opacity: u16,
    seed: Option<u64>,
    grid: Option<TriangularGrid>,
    shapes: Vec<Shape>,
    theme: Theme,
    allow_overlap: bool,
}

impl Generator {
    /// The settings are within their ranges.
    #[verifier::type_invariant]
    spec fn inv(&self) -> bool {
        &&& 2 <= self.grid_size <= 8
        &&& 1 <= self.shapes_count <= 10
        &&& self.opacity <= 1000
    }

    /// The density of the mesh.
    pub closed spec fn density(&self) -> u8 {
        self.grid_size
    }

    /// The number of shapes.
    pub closed spec fn count(&self) -> u8 {
        self.shapes_count
    }

    /// The opacity of the shapes, in thousandths.
    pub closed spec fn shape_opacity(&self) -> u16 {
        self.opacity
    }

    /// The seed, if there is one.
    pub closed spec fn run_seed(&self) -> Option<u64> {
        self.seed
    }

    /// The colour theme.
    pub closed spec fn color_theme(&self) -> Theme {
        self.theme
    }

    /// Whether shapes may overlap.
    pub closed spec fn overlap(&self) -> bool {
        self.allow_overlap
    }

    /// The mesh of the last run.
    pub closed spec fn mesh(&self) -> Option<TriangularGrid> {
        self.grid
    }

    /// The shapes of the last run.
    pub closed spec fn drawn(&self) -> Seq<Shape> {
        self.shapes@
    }

    /// Whether the two agree in all but the theme and the overlap flag.
    pub open spec fn same_run(&self, other: &Generator) -> bool {
        &&& self.density() == other.density()
        &&& self.count() == other.count()
        &&& self.shape_opacity() == other.shape_opacity()
        &&& self.run_seed() == other.run_seed()
        &&& self.mesh() == other.mesh()
        &&& self.drawn() == other.drawn()
    }

    /// Makes a generator.  The density is brought into the range of two to
    /// eight, the number of shapes into the range of one to ten, the opacity
    /// into the range of nothing to one.  The theme is `Mesos`, and shapes do
    /// not overlap.
    pub fn new(grid_size: u8, shapes_count: u8, opacity: u16, seed: Option<u64>) -> (generator: Generator)
        ensures
            generator.density() == clamp_density(grid_size),
            generator.count() == clamp_count(shapes_count),
            generator.shape_opacity() == clamp_opacity(opacity),
            generator.run_seed() == seed,
            generator.color_theme() == Theme::Mesos,
            !generator.overlap(),
            generator.mesh().is_none(),
            generator.drawn().len() == 0,
    {
        Generator {
            grid_size: if grid_size < 2 {
                2
            } else if grid_size > 8 {
                8
            } else {
                grid_size
            },
            shapes_count: if shapes_count < 1 {
                1
            } else if shapes_count > 10 {
                10
            } else {
                shapes_count
            },
            opacity: if opacity > 1000 {
                1000
            } else {
                opacity
            },
            seed,
            grid: None,
            shapes: Vec::new(),
            theme: Theme::Mesos,
            allow_overlap: false,
        }
    }

    /// Sets the colour theme.
    pub fn set_theme(&mut self, theme: Theme) -> (generator: &mut Self)
        ensures
            generator.color_theme() == theme,
            generator.overlap() == old(self).overlap(),
            generator.same_run(old(self)),
            *final(self) == *final(generator),
    {
        proof {
            use_type_invariant(&*self);
        }
        self.theme = theme;
        self
    }

    /// Sets the colour theme by its name, whatever the case of its letters;
    /// a name that denotes no theme stands for `Mesos`.
    pub fn set_color_scheme(&mut self, color_scheme: &str) -> (generator: &mut Self)
        ensures
            generator.color_theme() == theme_of(color_scheme@),
            generator.overlap() == old(self).overlap(),
            generator.same_run(old(self)),
            *final(self) == *final(generator),
    {
        proof {
            use_type_invariant(&*self);
        }
        self.theme = Theme::from(color_scheme);
        self
    }

    /// The names of the themes.
    pub fn available_themes() -> (names: Vec<String>)
        ensures
            colors_of(names@) == seq![
                Theme::Mesos.name(),
                Theme::Google.name(),
                Theme::Blues.name(),
                Theme::Greens.name(),
                Theme::Reds.name(),
                Theme::Purples.name(),
                Theme::Rainbow.name(),
            ],
    {
        ColorManager::available_themes()
    }

    /// Sets whether shapes may overlap.
    pub fn set_allow_overlap(&mut self, allow_overlap: bool) -> (generator: &mut Self)
        ensures
            generator.overlap() == allow_overlap,
            generator.color_theme() == old(self).color_theme(),
            generator.same_run(old(self)),
            *final(self) == *final(generator),
    {
        proof {
            use_type_invariant(&*self);
        }
        self.allow_overlap = allow_overlap;
        self
    }

    /// The number of colours that are drawn for a run with overlap.
    fn palette_size(&self) -> (size: usize)
        ensures
            size == palette_size(self.density(), self.count()),
            size >= 3,
    {
        proof {
            use_type_invariant(self);
        }
        let base: usize = self.shapes_count as usize + 2;
        if self.grid_size >= 4 {
            base + 2
        } else {
            base
        }
    }

    /// The mesh of the last run, if there was a run.
    pub fn grid(&self) -> (grid: Option<&TriangularGrid>)
        ensures
            self.mesh().is_none() ==> grid.is_none(),
            self.mesh().is_some() ==> grid == Some(&self.mesh().unwrap()),
    {
        self.grid.as_ref()
    }

    /// The shapes of the last run.
    pub fn shapes(&self) -> (shapes: &Vec<Shape>)
        ensures
            shapes@ == self.drawn(),
    {
        &self.shapes
    }
}

/// Whether `best` is the place, after the first, of the colour that
/// contrasts most with the first colour; of the first such colour where
/// several do.
pub open spec fn is_most_contrasting(colors: Seq<Seq<char>>, best: int) -> bool {
    &&& 1 <= best < colors.len()
    &&& forall|j: int| 1 <= j < colors.len() ==> contrast(colors[0], #[trigger] colors[j]) <= contrast(colors[0], colors[best])
    &&& forall|j: int| 1 <= j < best ==> contrast(colors[0], #[trigger] colors[j]) < contrast(colors[0], colors[best])
}

/// Finds, among the colours after the first, the one that contrasts most
/// with the first.  Where no colour comes after the first, the first is all
/// there is to find.
pub fn pick_contrasting(colors: &Vec<String>) -> (best: usize)
    ensures
        colors@.len() >= 2 ==> is_most_contrasting(colors_of(colors@), best as int),
        colors@.len() < 2 ==> best == 0,
{
    if colors.len() < 2 {
        return 0;
    }
    let ghost texts = colors_of(colors@);
    let mut best: usize = 1;
    let mut best_contrast: u32 = ColorManager::color_contrast(colors[0].as_str(), colors[1].as_str());
    let mut j: usize = 2;
    while j < colors.len()
        invariant
            2 <= j <= colors@.len(),
            texts == colors_of(colors@),
            1 <= best < j,
            best_contrast == contrast(texts[0], texts[best as int]),
            forall|k: int| 1 <= k < j ==> contrast(texts[0], #[trigger] texts[k]) <= best_contrast,
            forall|k: int| 1 <= k < best ==> contrast(texts[0], #[trigger] texts[k]) < best_contrast,
        decreases colors@.len() - j,
    {
        let here: u32 = ColorManager::color_contrast(colors[0].as_str(), colors[j].as_str());
        if here > best_contrast {
            best_contrast = here;
            best = j;
        }
        j = j + 1;
    }
    best
}

/// Picks, in their order, up to `needed` different colours of `available`
/// that are neither `first` nor `second`.
pub fn spare_colors(available: &Vec<String>, first: &String, second: &String, needed: usize) -> (spare: Vec<String>)
    ensures
        colors_of(spare@) == spares(colors_of(available@), first@, second@, needed as int, available@.len()),
        spare@.len() <= needed,
        forall|k: int| 0 <= k < spare@.len() ==> colors_of(available@).contains(#[trigger] spare@[k]@),
        forall|k: int| 0 <= k < spare@.len() ==> (#[trigger] spare@[k])@ != first@ && spare@[k]@ != second@,
        colors_of(spare@).no_duplicates(),
{
    let ghost texts = colors_of(available@);
    let mut spare: Vec<String> = Vec::new();
    let mut i: usize = 0;
    assert(colors_of(spare@) =~= spares(texts, first@, second@, needed as int, 0));
    while i < available.len()
        invariant
            i <= available@.len(),
            texts == colors_of(available@),
            colors_of(spare@) == spares(texts, first@, second@, needed as int, i as nat),
            spare@.len() <= needed,
            forall|k: int| 0 <= k < spare@.len() ==> colors_of(available@).contains(#[trigger] spare@[k]@),
            forall|k: int| 0 <= k < spare@.len() ==> (#[trigger] spare@[k])@ != first@ && spare@[k]@ != second@,
            colors_of(spare@).no_duplicates(),
        decreases available@.len() - i,
    {
        let color = &available[i];
        assert(texts[i as int] == color@);
        if spare.len() < needed && !(*color == *first) && !(*color == *second) && !contains_color(&spare, color) {
            let ghost before = colors_of(spare@);
            spare.push(color.clone());
            proof {
                let after = colors_of(spare@);
                assert(after =~= before.push(color@));
            }
        }
        i = i + 1;
    }
    spare
}

/// The spare colours among the first `n` of `available`: in their order, up
/// to `needed` different colours that are neither `first` nor `second`.
pub open spec fn spares(
    available: Seq<Seq<char>>,
    first: Seq<char>,
    second: Seq<char>,
    needed: int,
    n: nat,
) -> Seq<Seq<char>>
    decreases n,
{
    if n == 0 {
        Seq::empty()
    } else {
        let rest = spares(available, first, second, needed, (n - 1) as nat);
        let color = available[n - 1];
        if rest.len() < needed && color != first && color != second && !rest.contains(color) {
            rest.push(color)
        } else {
            rest
        }
    }
}

/// Lists the colours of the shapes.
fn colors_in_use(shapes: &Vec<Shape>) -> (colors: Vec<String>)
    ensures
        colors@.len() == shapes@.len(),
        forall|k: int| 0 <= k < colors@.len() ==> (#[trigger] colors@[k])@ == shapes@[k].color@,
{
    let mut colors: Vec<String> = Vec::new();
    let mut k: usize = 0;
    while k < shapes.len()
        invariant
            k <= shapes@.len(),
            colors@.len() == k,
            forall|j: int| 0 <= j < k ==> (#[trigger] colors@[j])@ == shapes@[j].color@,
        decreases shapes@.len() - k,
    {
        colors.push(shapes[k].color.clone());
        k = k + 1;
    }
    colors
}

/// Computes the range of the sizes that shapes aim at.
pub fn size_range_of(density: u8, count: u8) -> (range: (usize, usize))
    ensures
        range.0 == size_range(density, count).0,
        range.1 == size_range(density, count).1,
        1 <= range.0 < range.1 <= 20,
{
    let d: usize = if density < 2 {
        2
    } else if density > 8 {
        8
    } else {
        density as usize
    };
    let c: usize = if count < 1 {
        1
    } else if count > 10 {
        10
    } else {
        count as usize
    };
    assert(4 <= d * d <= 64 && (d >= 3 ==> d * d >= 9) && 6 * d * d == 6 * (d * d)) by (nonlinear_arith)
        requires
            2 <= d <= 8,
    ;
    let total: usize = 6 * (d * d);
    let low: usize = if d <= 2 {
        2
    } else {
        (total + 50) / 100
    };
    let high: usize = if d <= 2 {
        let share: usize = total / c;
        assert(share <= total) by (nonlinear_arith)
            requires
                share == total / c,
                c >= 1,
                total >= 0,
        ;
        if share < 5 {
            share
        } else {
            5
        }
    } else {
        (5 * total + 50) / 100
    };
    (low, if high > low + 1 {
        high
    } else {
        low + 1
    })
}

/// Grows the shapes of a run with overlap: two shapes from the middle of the
/// hexagon, in the first drawn colour and in the drawn colour that contrasts
/// most with it, split into their parts; then further shapes on the cells
/// that are left, in further colours.
fn generate_overlapping(
    shape_generator: &mut ShapeGenerator,
    color_manager: &mut ColorManager,
    count: usize,
    opacity: u16,
    wanted: usize,
    high: usize,
) -> (shapes: Vec<Shape>)
    requires
        old(shape_generator).wf(),
        2 <= count <= 10,
        wanted >= 2,
        1 <= high,
    ensures
        final(shape_generator).grid() == old(shape_generator).grid(),
        final(color_manager).colors() == old(color_manager).colors(),
        is_overlap_result(
            old(shape_generator).grid(),
            old(color_manager).colors(),
            count as int,
            opacity,
            high as int,
            shapes@,
        ),
{
    let ghost grid = shape_generator.grid();
    let ghost cells = grid@.cells@;
    let ghost palette = color_manager.colors();
    let available = color_manager.get_random_colors(wanted);
    let color1: String = available[0].clone();
    let color2: String = available[pick_contrasting(&available)].clone();
    let blend: String = ColorManager::average_colors(color1.as_str(), color2.as_str());
    let shape1 = shape_generator.generate_balanced_shape(color1.clone(), opacity, high);
    let shape2 = shape_generator.generate_balanced_shape(color2.clone(), opacity, high);
    let mut shapes = split_overlap(&shape1, &shape2, blend);
    let ghost parts = shapes@;
    let mut used: Vec<usize> = Vec::new();
    mark_used(&mut used, &shape1.cells);
    mark_used(&mut used, &shape2.cells);
    proof {
        lemma_cells_where(shape1.cells@, shape2.cells@, true, shape1.cells@.len());
        lemma_cells_where(shape1.cells@, shape2.cells@, false, shape1.cells@.len());
        lemma_cells_where(shape2.cells@, shape1.cells@, false, shape2.cells@.len());
        assert forall|j: int, m: int| 0 <= j < parts.len() && 0 <= m < parts[j].cells@.len() implies used@.contains(
            #[trigger] parts[j].cells@[m],
        ) by {
            let x = parts[j].cells@[m];
            assert(parts[j].cells@.contains(x));
            if j == 0 {
                assert(occurs_before(shape1.cells@, shape1.cells@.len(), x));
                let i = choose|i: int| 0 <= i < shape1.cells@.len() && shape1.cells@[i] == x;
                assert(shape1.cells@.contains(x));
            } else if j == 1 {
                assert(occurs_before(shape2.cells@, shape2.cells@.len(), x));
                let i = choose|i: int| 0 <= i < shape2.cells@.len() && shape2.cells@[i] == x;
                assert(shape2.cells@.contains(x));
            } else {
                assert(occurs_before(shape1.cells@, shape1.cells@.len(), x));
                let i = choose|i: int| 0 <= i < shape1.cells@.len() && shape1.cells@[i] == x;
                assert(shape1.cells@.contains(x));
            }
        }
    }
    let needed: usize = count - 2;
    let mut additional = spare_colors(&available, &color1, &color2, needed);
    while additional.len() < needed
        invariant
            additional@.len() <= needed,
            color_manager.colors() == palette,
            forall|k: int| 0 <= k < available@.len() ==> palette.contains(#[trigger] available@[k]@),
            forall|k: int| 0 <= k < additional@.len() ==> palette.contains(#[trigger] additional@[k]@),
        decreases needed - additional@.len(),
    {
        let current = colors_in_use(&shapes);
        let color = color_manager.get_different_color(&current);
        additional.push(color);
    }
    let mut k: usize = 0;
    while k < needed
        invariant
            k <= needed,
            needed == count - 2,
            additional@.len() == needed,
            shape_generator.wf(),
            shape_generator.grid() == grid,
            cells == grid@.cells@,
            forall|j: int| 0 <= j < additional@.len() ==> palette.contains(#[trigger] additional@[j]@),
            shapes@.len() == parts.len() + k,
            forall|j: int| 0 <= j < parts.len() ==> #[trigger] shapes@[j] == parts[j],
            forall|j: int|
                parts.len() <= j < shapes@.len() ==> is_shape_of_run(grid, palette, opacity, high as int, #[trigger] shapes@[j]),
            forall|i: int, j: int|
                parts.len() <= i < shapes@.len() && 0 <= j < i ==> #[trigger] avoids(
                    shapes@[i].cells@,
                    #[trigger] shapes@[j].cells@,
                ),
            forall|j: int, m: int|
                0 <= j < shapes@.len() && 0 <= m < shapes@[j].cells@.len() ==> used@.contains(
                    #[trigger] shapes@[j].cells@[m],
                ),
        decreases needed - k,
    {
        let shape = shape_generator.generate_shape_avoiding_cells(additional[k].clone(), opacity, high, &used);
        let ghost taken = used@;
        let ghost earlier = shapes@;
        mark_used(&mut used, &shape.cells);
        shapes.push(shape);
        proof {
            assert forall|i: int, j: int| parts.len() <= i < shapes@.len() && 0 <= j < i implies #[trigger] avoids(
                shapes@[i].cells@,
                #[trigger] shapes@[j].cells@,
            ) by {
                if i < earlier.len() {
                    assert(avoids(earlier[i].cells@, earlier[j].cells@));
                } else {
                    assert forall|m: int| 0 <= m < shape.cells@.len() implies !shapes@[j].cells@.contains(
                        #[trigger] shape.cells@[m],
                    ) by {
                        if shapes@[j].cells@.contains(shape.cells@[m]) {
                            let q = choose|q: int|
                                0 <= q < shapes@[j].cells@.len() && shapes@[j].cells@[q] == shape.cells@[m];
                            assert(taken.contains(earlier[j].cells@[q]));
                        }
                    }
                }
            }
            assert forall|j: int, m: int|
                0 <= j < shapes@.len() && 0 <= m < shapes@[j].cells@.len() implies used@.contains(
                #[trigger] shapes@[j].cells@[m],
            ) by {
                let x = shapes@[j].cells@[m];
                if j < earlier.len() {
                    assert(shapes@[j] == earlier[j]);
                    assert(taken.contains(earlier[j].cells@[m]));
                    assert(taken.contains(x));
                } else {
                    assert(shapes@[j] == shape);
                    assert(shape.cells@[m] == x);
                    assert(shape.cells@.contains(x));
                }
                assert(used@.contains(x));
            }
        }
        k = k + 1;
    }
    proof {
        let n: int = if common_cells(shape1.cells@, shape2.cells@).len() > 0 {
            3
        } else {
            2
        };
        assert(parts.len() == n);
        assert(shapes@.subrange(0, n) =~= parts);
        assert(palette.contains(available@[0]@));
        assert(is_overlap_of(grid, palette, count as int, opacity, high as int, shapes@, shape1, shape2));
    }
    shapes
}

impl Generator {
    /// Generates a logo: builds the mesh, grows the shapes and colours
    /// them.  Without overlap, or for one shape, the shapes share no cell and
    /// get colours that differ between neighbours.
    /// With overlap two shapes grow from the middle and are split into their
    /// parts, and further shapes grow on what is left.  With a seed this
    /// never fails; a failed run changes nothing.
    pub fn generate(&mut self) -> (result: Result<(), GenerateError>)
        ensures
            final(self).density() == old(self).density(),
            final(self).count() == old(self).count(),
            final(self).shape_opacity() == old(self).shape_opacity(),
            final(self).run_seed() == old(self).run_seed(),
            final(self).color_theme() == old(self).color_theme(),
            final(self).overlap() == old(self).overlap(),
            old(self).run_seed().is_some() ==> result.is_ok(),
            result.is_err() ==> final(self).mesh() == old(self).mesh() && final(self).drawn() == old(
                self,
            ).drawn(),
            result.is_ok() ==> final(self).mesh().is_some() && ({
                let grid = final(self).mesh().unwrap();
                let high = size_range(old(self).density(), old(self).count()).1;
                &&& grid.wf()
                &&& grid@.grid_density == old(self).density()
                &&& grid@.size == HEXAGON_SIZE
                &&& if old(self).overlap() && old(self).count() >= 2 {
                    is_overlap_result(
                        grid,
                        old(self).color_theme().colors(),
                        old(self).count() as int,
                        old(self).shape_opacity(),
                        high,
                        final(self).drawn(),
                    )
                } else {
                    is_separate_result(
                        grid,
                        old(self).color_theme().colors(),
                        old(self).count() as int,
                        old(self).shape_opacity(),
                        high,
                        final(self).drawn(),
                    )
                }
            }),
    {
        proof {
            use_type_invariant(&*self);
        }
        let grid = TriangularGrid::new(HEXAGON_SIZE, self.grid_size);
        let mut color_manager = match ColorManager::with_theme(self.theme, self.seed) {
            Ok(manager) => manager,
            Err(_) => {
                return Err(GenerateError::EntropyUnavailable);
            },
        };
        let mut shape_generator = match ShapeGenerator::new(&grid, self.seed) {
            Ok(generator) => generator,
            Err(_) => {
                return Err(GenerateError::EntropyUnavailable);
            },
        };
        let range = size_range_of(self.grid_size, self.shapes_count);
        let count: usize = self.shapes_count as usize;
        let shapes: Vec<Shape> = if self.allow_overlap && self.shapes_count >= 2 {
            let wanted: usize = self.palette_size();
            generate_overlapping(&mut shape_generator, &mut color_manager, count, self.opacity, wanted, range.1)
        } else {
            let mut shapes = shape_generator.generate_shapes(Vec::new(), self.opacity, count, range);
            let ghost grown = shapes@;
            proof {
                color::lemma_theme_colors(self.theme);
            }
            let _ = color_manager.assign_harmonious_colors(&grid, &mut shapes);
            proof {
                assert forall|a: int, b: int| 0 <= a < b < shapes@.len() implies #[trigger] avoids(
                    shapes@[b].cells@,
                    #[trigger] shapes@[a].cells@,
                ) by {
                    assert(avoids(grown[b].cells@, grown[a].cells@));
                }
                assert forall|k: nat| k <= shapes@.len() implies #[trigger] cells_before(shapes@, k) == cells_before(
                    grown,
                    k,
                ) by {
                    lemma_cells_before(shapes@, grown, k);
                }
                assert(grew_in_turn(grid@.cells@, grid@.center, shapes@)) by {
                    assert forall|i: int| 0 < i < shapes@.len() implies {
                        &&& avoids((#[trigger] shapes@[i]).cells@, cells_before(shapes@, i as nat))
                        &&& shapes@[i].cells@.len() > 0 ==> shape::growth::is_later_seed(
                            grid@.cells@,
                            grid@.center,
                            cells_before(shapes@, i as nat),
                            shapes@[i].cells@[0],
                        )
                    } by {
                        assert(cells_before(shapes@, i as nat) == cells_before(grown, i as nat));
                        assert(shapes@[i].cells == grown[i].cells);
                    }
                    assert(shapes@[0].cells == grown[0].cells);
                }
            }
            shapes
        };
        self.shapes = shapes;
        self.grid = Some(grid);
        Ok(())
    }
}

} // verus!
