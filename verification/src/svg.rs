//! The outlines of shapes: what a renderer needs to draw them.
//!
//! A shape is drawn region by region.  A region is a set of cells that hang
//! together; its outline runs along the edges that no second cell of the
//! region shares.  The points of an outline are lattice points; to draw
//! them, scale them as the geometry module says.

use vstd::prelude::*;
use crate::generator::grid::TriangularGrid;
use crate::generator::grid::geometry::{Cell, Point, is_adjacency_list, mesh_adjacent};
use crate::generator::shape::contains_id;
use crate::generator::shape::growth::{grown_connected, has_earlier_neighbour};

verus! {

/// An edge from its first point to its second.
pub type Edge = (Point, Point);

/// The number of entries among the first `n` that are not marked.
pub open spec fn unmarked(marks: Seq<bool>, n: nat) -> nat
    decreases n,
{
    if n == 0 {
        0
    } else {
        unmarked(marks, (n - 1) as nat) + if marks[n - 1] {
            0nat
        } else {
            1nat
        }
    }
}

/// Marking an entry that was not marked leaves one unmarked entry less.
proof fn lemma_mark(marks: Seq<bool>, at: int, n: nat)
    requires
        0 <= at < marks.len(),
        n <= marks.len(),
        !marks[at],
    ensures
        unmarked(marks.update(at, true), n) + (if at < n {
            1nat
        } else {
            0nat
        }) == unmarked(marks, n),
    decreases n,
{
    if n > 0 {
        lemma_mark(marks, at, (n - 1) as nat);
    }
}

/// Whether one of the groups holds the cell.
pub open spec fn in_some_group(groups: Seq<Seq<usize>>, cell: usize) -> bool {
    exists|g: int| 0 <= g < groups.len() && (#[trigger] groups[g]).contains(cell)
}

/// Whether the cell stands at a place that was not marked at the start.
pub open spec fn is_fresh_cell(ids: Seq<usize>, start: Seq<bool>, cell: usize) -> bool {
    exists|k: int| 0 <= k < ids.len() && !start[k] && #[trigger] ids[k] == cell
}

/// Whether the cell stands at a marked place.
pub open spec fn is_marked_cell(ids: Seq<usize>, marks: Seq<bool>, cell: usize) -> bool {
    exists|k: int| 0 <= k < ids.len() && marks[k] && #[trigger] ids[k] == cell
}

/// No cell of the group shares an edge with a cell at an unmarked place.
pub open spec fn closed_group(cells: Seq<Cell>, ids: Seq<usize>, marks: Seq<bool>, group: Seq<usize>) -> bool {
    forall|m: int, k: int|
        0 <= m < group.len() && 0 <= k < ids.len() && !marks[k] ==> !#[trigger] mesh_adjacent(
            cells,
            group[m] as int,
            ids[k] as int,
        )
}

/// Whether the regions are the groups of cells of `ids` that hang together:
/// every cell is in a region, every region holds cells of `ids` only, is not
/// empty and is connected in its order, all regions together hold as many
/// cells as `ids`, and no cell of a region shares an edge with a cell of a
/// later region.
pub open spec fn is_region_split(cells: Seq<Cell>, ids: Seq<usize>, regions: Seq<Seq<usize>>) -> bool {
    &&& forall|k: int| 0 <= k < ids.len() ==> in_some_group(regions, #[trigger] ids[k])
    &&& forall|g: int, m: int|
        0 <= g < regions.len() && 0 <= m < regions[g].len() ==> ids.contains(#[trigger] regions[g][m])
    &&& forall|g: int| 0 <= g < regions.len() ==> (#[trigger] regions[g]).len() > 0 && grown_connected(cells, regions[g])
    &&& total_len(regions, regions.len()) == ids.len()
    &&& forall|g: int, h: int, m: int, n: int|
        0 <= g < h < regions.len() && 0 <= m < regions[g].len() && 0 <= n < regions[h].len()
            ==> !#[trigger] mesh_adjacent(cells, regions[g][m] as int, regions[h][n] as int)
}

/// The number of cells in the first `n` groups.
pub open spec fn total_len(groups: Seq<Seq<usize>>, n: nat) -> nat
    decreases n,
{
    if n == 0 {
        0
    } else {
        total_len(groups, (n - 1) as nat) + groups[n - 1].len()
    }
}

/// The number of cells in the first groups does not change when a group is
/// added.
proof fn lemma_total_len_push(groups: Seq<Seq<usize>>, group: Seq<usize>, n: nat)
    requires
        n <= groups.len(),
    ensures
        total_len(groups.push(group), n) == total_len(groups, n),
    decreases n,
{
    if n > 0 {
        lemma_total_len_push(groups, group, (n - 1) as nat);
        assert(groups.push(group)[n - 1] == groups[n - 1]);
    }
}

/// Decides whether two cells of the mesh share an edge.
pub fn is_adjacent(grid: &TriangularGrid, first: usize, second: usize) -> (adjacent: bool)
    ensures
        adjacent == mesh_adjacent(grid@.cells@, first as int, second as int),
{
    let around = grid.adjacent_cells(first);
    let found = contains_id(&around, second);
    proof {
        if found {
            let k = choose|k: int| 0 <= k < around@.len() && around@[k] == second;
            assert(mesh_adjacent(grid@.cells@, first as int, around@[k] as int));
        }
    }
    found
}

/// Adds to the region the cells at unmarked places that share an edge with
/// `current`, and marks them.
fn reach_from(
    grid: &TriangularGrid,
    ids: &Vec<usize>,
    marks: &mut Vec<bool>,
    region: &mut Vec<usize>,
    at: usize,
    Ghost(left): Ghost<nat>,
    Ghost(start): Ghost<Seq<bool>>,
) -> (now_left: Ghost<nat>)
    requires
        old(marks)@.len() == ids@.len(),
        start.len() == ids@.len(),
        forall|k: int| 0 <= k < ids@.len() && start[k] ==> old(marks)@[k],
        forall|m: int| 0 <= m < old(region)@.len() ==> is_fresh_cell(ids@, start, #[trigger] old(region)@[m]),
        at < old(region)@.len(),
        left == unmarked(old(marks)@, ids@.len()),
        grown_connected(grid@.cells@, old(region)@),
        forall|m: int| 0 <= m < old(region)@.len() ==> is_marked_cell(ids@, old(marks)@, #[trigger] old(region)@[m]),
    ensures
        final(marks)@.len() == ids@.len(),
        now_left@ == unmarked(final(marks)@, ids@.len()),
        final(region)@.len() + now_left@ == old(region)@.len() + left,
        old(region)@.len() <= final(region)@.len(),
        forall|m: int| 0 <= m < old(region)@.len() ==> final(region)@[m] == old(region)@[m],
        grown_connected(grid@.cells@, final(region)@),
        forall|k: int| 0 <= k < ids@.len() && old(marks)@[k] ==> final(marks)@[k],
        forall|k: int|
            0 <= k < ids@.len() && final(marks)@[k] && !old(marks)@[k] ==> final(region)@.contains(ids@[k]),
        forall|m: int|
            0 <= m < final(region)@.len() ==> is_marked_cell(ids@, final(marks)@, #[trigger] final(region)@[m]),
        forall|m: int| 0 <= m < final(region)@.len() ==> is_fresh_cell(ids@, start, #[trigger] final(region)@[m]),
        forall|k: int|
            0 <= k < ids@.len() && !final(marks)@[k] ==> !#[trigger] mesh_adjacent(
                grid@.cells@,
                old(region)@[at as int] as int,
                ids@[k] as int,
            ),
{
    let ghost cells = grid@.cells@;
    let current: usize = region[at];
    let around = grid.adjacent_cells(current);
    let mut now_left: Ghost<nat> = Ghost(left);
    let mut k: usize = 0;
    while k < ids.len()
        invariant
            k <= ids@.len(),
            cells == grid@.cells@,
            marks@.len() == ids@.len(),
            at < old(region)@.len(),
            current == old(region)@[at as int],
            is_adjacency_list(cells, current as int, around@),
            now_left@ == unmarked(marks@, ids@.len()),
            region@.len() + now_left@ == old(region)@.len() + left,
            old(region)@.len() <= region@.len(),
            forall|m: int| 0 <= m < old(region)@.len() ==> region@[m] == old(region)@[m],
            grown_connected(cells, region@),
            forall|j: int| 0 <= j < ids@.len() && old(marks)@[j] ==> marks@[j],
            forall|j: int| 0 <= j < ids@.len() && marks@[j] && !old(marks)@[j] ==> region@.contains(ids@[j]),
            forall|m: int| 0 <= m < region@.len() ==> is_marked_cell(ids@, marks@, #[trigger] region@[m]),
            forall|m: int| 0 <= m < region@.len() ==> is_fresh_cell(ids@, start, #[trigger] region@[m]),
            start.len() == ids@.len(),
            forall|j: int| 0 <= j < ids@.len() && start[j] ==> marks@[j],
            forall|j: int|
                0 <= j < k && !marks@[j] ==> !#[trigger] mesh_adjacent(cells, current as int, ids@[j] as int),
        decreases ids@.len() - k,
    {
        if !marks[k] && contains_id(&around, ids[k]) {
            let ghost marked = marks@;
            let ghost reached = region@;
            proof {
                lemma_mark(marked, k as int, ids@.len());
                let n = choose|n: int| 0 <= n < around@.len() && around@[n] == ids@[k as int];
                assert(mesh_adjacent(cells, current as int, around@[n] as int));
            }
            region.push(ids[k]);
            marks[k] = true;
            proof {
                now_left@ = (now_left@ - 1) as nat;
                assert(marks@ == marked.update(k as int, true));
                assert forall|m: int| 0 < m < region@.len() implies #[trigger] has_earlier_neighbour(
                    cells,
                    region@,
                    m,
                ) by {
                    if m < reached.len() {
                        assert(has_earlier_neighbour(cells, reached, m));
                        let j = choose|j: int|
                            0 <= j < m && #[trigger] mesh_adjacent(cells, reached[j] as int, reached[m] as int);
                        assert(mesh_adjacent(cells, region@[j] as int, region@[m] as int));
                    } else {
                        assert(mesh_adjacent(cells, region@[at as int] as int, region@[m] as int));
                    }
                }
                assert forall|j: int|
                    0 <= j < ids@.len() && marks@[j] && !old(marks)@[j] implies region@.contains(ids@[j]) by {
                    if j == k {
                        assert(region@[reached.len() as int] == ids@[j]);
                    } else {
                        assert(reached.contains(ids@[j]));
                        let m = choose|m: int| 0 <= m < reached.len() && reached[m] == ids@[j];
                        assert(region@[m] == ids@[j]);
                    }
                }
                assert forall|m: int| 0 <= m < region@.len() implies is_fresh_cell(
                    ids@,
                    start,
                    #[trigger] region@[m],
                ) by {
                    if m < reached.len() {
                        assert(is_fresh_cell(ids@, start, reached[m]));
                    } else {
                        assert(!start[k as int] && ids@[k as int] == region@[m]);
                    }
                }
                assert forall|m: int| 0 <= m < region@.len() implies is_marked_cell(
                    ids@,
                    marks@,
                    #[trigger] region@[m],
                ) by {
                    if m < reached.len() {
                        assert(is_marked_cell(ids@, marked, reached[m]));
                        let j = choose|j: int| 0 <= j < ids@.len() && marked[j] && #[trigger] ids@[j] == reached[m];
                        assert(marks@[j] && ids@[j] == region@[m]);
                    } else {
                        assert(marks@[k as int] && ids@[k as int] == region@[m]);
                    }
                }
            }
        } else {
            proof {
                if !marks@[k as int] && mesh_adjacent(cells, current as int, ids@[k as int] as int) {
                    assert(around@.contains(ids@[k as int]));
                }
            }
        }
        k = k + 1;
    }
    now_left
}

/// The cells of every region.
pub open spec fn region_views(regions: Seq<Vec<usize>>) -> Seq<Seq<usize>> {
    Seq::new(regions.len(), |g: int| regions[g]@)
}

/// Collects the region of the cell at `seed`: the cell and all cells at
/// unmarked places that hang together with it, breadth first.
fn collect_region(
    grid: &TriangularGrid,
    ids: &Vec<usize>,
    marks: &mut Vec<bool>,
    seed: usize,
    Ghost(left): Ghost<nat>,
) -> (found: (Vec<usize>, Ghost<nat>))
    requires
        old(marks)@.len() == ids@.len(),
        seed < ids@.len(),
        !old(marks)@[seed as int],
        left == unmarked(old(marks)@, ids@.len()),
    ensures
        final(marks)@.len() == ids@.len(),
        found.1@ == unmarked(final(marks)@, ids@.len()),
        found.0@.len() + found.1@ == left,
        found.0@.len() > 0,
        grown_connected(grid@.cells@, found.0@),
        final(marks)@[seed as int],
        forall|k: int| 0 <= k < ids@.len() && old(marks)@[k] ==> final(marks)@[k],
        forall|k: int|
            0 <= k < ids@.len() && final(marks)@[k] && !old(marks)@[k] ==> found.0@.contains(ids@[k]),
        forall|m: int| 0 <= m < found.0@.len() ==> is_marked_cell(ids@, final(marks)@, #[trigger] found.0@[m]),
        forall|m: int| 0 <= m < found.0@.len() ==> is_fresh_cell(ids@, old(marks)@, #[trigger] found.0@[m]),
        closed_group(grid@.cells@, ids@, final(marks)@, found.0@),
{
    let ghost cells = grid@.cells@;
    let ghost start = marks@;
    let mut region: Vec<usize> = Vec::new();
    region.push(ids[seed]);
    proof {
        lemma_mark(start, seed as int, ids@.len());
    }
    marks[seed] = true;
    let mut now_left: Ghost<nat> = Ghost((left - 1) as nat);
    proof {
        assert(marks@ == start.update(seed as int, true));
        assert(is_fresh_cell(ids@, start, ids@[seed as int]));
        assert(is_marked_cell(ids@, marks@, ids@[seed as int]));
        assert(region@[0] == ids@[seed as int]);
    }
    let mut j: usize = 0;
    while j < region.len()
        invariant
            j <= region@.len(),
            cells == grid@.cells@,
            marks@.len() == ids@.len(),
            start.len() == ids@.len(),
            now_left@ == unmarked(marks@, ids@.len()),
            region@.len() + now_left@ == left,
            region@.len() > 0,
            grown_connected(cells, region@),
            seed < ids@.len(),
            marks@[seed as int],
            forall|k: int| 0 <= k < ids@.len() && start[k] ==> marks@[k],
            forall|k: int| 0 <= k < ids@.len() && marks@[k] && !start[k] ==> region@.contains(ids@[k]),
            forall|m: int| 0 <= m < region@.len() ==> is_marked_cell(ids@, marks@, #[trigger] region@[m]),
            forall|m: int| 0 <= m < region@.len() ==> is_fresh_cell(ids@, start, #[trigger] region@[m]),
            forall|m: int, k: int|
                0 <= m < j && 0 <= k < ids@.len() && !marks@[k] ==> !#[trigger] mesh_adjacent(
                    cells,
                    region@[m] as int,
                    ids@[k] as int,
                ),
        decreases now_left@ + region@.len() - j,
    {
        let ghost before = region@;
        let ghost marked = marks@;
        now_left = reach_from(grid, ids, marks, &mut region, j, now_left, Ghost(start));
        proof {
            assert forall|k: int| 0 <= k < ids@.len() && marks@[k] && !start[k] implies region@.contains(
                ids@[k],
            ) by {
                if marked[k] {
                    assert(before.contains(ids@[k]));
                    let m = choose|m: int| 0 <= m < before.len() && before[m] == ids@[k];
                    assert(region@[m] == ids@[k]);
                }
            }
        }
        j = j + 1;
    }
    (region, now_left)
}

/// Splits the cells of a shape into regions: groups of cells that hang
/// together.  A region starts with the first cell that is in no region yet
/// and takes, breadth first, every cell that shares an edge with one of its
/// cells.
pub fn shape_regions(grid: &TriangularGrid, cell_ids: &Vec<usize>) -> (regions: Vec<Vec<usize>>)
    ensures
        is_region_split(grid@.cells@, cell_ids@, region_views(regions@)),
{
    let ghost cells = grid@.cells@;
    let n: usize = cell_ids.len();
    let mut marks: Vec<bool> = Vec::new();
    let mut i: usize = 0;
    while i < n
        invariant
            i <= n,
            marks@.len() == i,
            forall|k: int| 0 <= k < i ==> !marks@[k],
            unmarked(marks@, i as nat) == i,
        decreases n - i,
    {
        let ghost before = marks@;
        marks.push(false);
        proof {
            lemma_unmarked_prefix(before, marks@, i as nat);
        }
        i = i + 1;
    }
    let mut regions: Vec<Vec<usize>> = Vec::new();
    let mut left: Ghost<nat> = Ghost(n as nat);
    i = 0;
    while i < n
        invariant
            i <= n,
            n == cell_ids@.len(),
            cells == grid@.cells@,
            marks@.len() == n,
            left@ == unmarked(marks@, n as nat),
            total_len(region_views(regions@), regions@.len()) + left@ == n,
            forall|k: int| 0 <= k < i ==> marks@[k],
            forall|k: int| 0 <= k < n && marks@[k] ==> in_some_group(region_views(regions@), #[trigger] cell_ids@[k]),
            forall|g: int, m: int|
                0 <= g < regions@.len() && 0 <= m < regions@[g]@.len() ==> is_marked_cell(
                    cell_ids@,
                    marks@,
                    #[trigger] regions@[g]@[m],
                ),
            forall|g: int|
                0 <= g < regions@.len() ==> (#[trigger] regions@[g])@.len() > 0 && grown_connected(
                    cells,
                    regions@[g]@,
                ) && closed_group(cells, cell_ids@, marks@, regions@[g]@),
            forall|g: int, h: int, m: int, x: int|
                0 <= g < h < regions@.len() && 0 <= m < regions@[g]@.len() && 0 <= x < regions@[h]@.len()
                    ==> !#[trigger] mesh_adjacent(cells, regions@[g]@[m] as int, regions@[h]@[x] as int),
        decreases n - i,
    {
        if !marks[i] {
            let ghost start = marks@;
            let ghost earlier = regions@;
            let (region, now_left) = collect_region(grid, cell_ids, &mut marks, i, left);
            left = now_left;
            regions.push(region);
            proof {
                let views = region_views(regions@);
                let old_views = region_views(earlier);
                assert(views =~= old_views.push(region@));
                lemma_total_len_push(old_views, region@, earlier.len() as nat);
                assert forall|k: int| 0 <= k < n && marks@[k] implies in_some_group(
                    views,
                    #[trigger] cell_ids@[k],
                ) by {
                    if start[k] {
                        assert(in_some_group(old_views, cell_ids@[k]));
                        let g = choose|g: int| 0 <= g < old_views.len() && (#[trigger] old_views[g]).contains(cell_ids@[k]);
                        assert(views[g].contains(cell_ids@[k]));
                    } else {
                        assert(views[earlier.len() as int].contains(cell_ids@[k]));
                    }
                }
                assert forall|g: int, m: int|
                    0 <= g < regions@.len() && 0 <= m < regions@[g]@.len() implies is_marked_cell(
                    cell_ids@,
                    marks@,
                    #[trigger] regions@[g]@[m],
                ) by {
                    if g < earlier.len() {
                        assert(is_marked_cell(cell_ids@, start, earlier[g]@[m]));
                        let k = choose|k: int| 0 <= k < n && start[k] && #[trigger] cell_ids@[k] == earlier[g]@[m];
                        assert(marks@[k]);
                    }
                }
                assert forall|g: int, h: int, m: int, x: int|
                    0 <= g < h < regions@.len() && 0 <= m < regions@[g]@.len() && 0 <= x < regions@[h]@.len() implies !#[trigger] mesh_adjacent(
                    cells,
                    regions@[g]@[m] as int,
                    regions@[h]@[x] as int,
                ) by {
                    if h == earlier.len() {
                        assert(is_fresh_cell(cell_ids@, start, region@[x]));
                        let k = choose|k: int| 0 <= k < n && !start[k] && #[trigger] cell_ids@[k] == region@[x];
                        assert(closed_group(cells, cell_ids@, start, earlier[g]@));
                    } else {
                        assert(regions@[g] == earlier[g] && regions@[h] == earlier[h]);
                    }
                }
                assert forall|g: int| 0 <= g < regions@.len() implies (#[trigger] regions@[g])@.len() > 0
                    && grown_connected(cells, regions@[g]@) && closed_group(
                    cells,
                    cell_ids@,
                    marks@,
                    regions@[g]@,
                ) by {
                    if g < earlier.len() {
                        assert(regions@[g] == earlier[g]);
                        assert(closed_group(cells, cell_ids@, start, earlier[g]@));
                    }
                }
            }
        }
        i = i + 1;
    }
    proof {
        let views = region_views(regions@);
        assert(left@ == 0) by {
            lemma_all_marked(marks@, n as nat);
        }
        assert forall|g: int, m: int| 0 <= g < views.len() && 0 <= m < views[g].len() implies cell_ids@.contains(
            #[trigger] views[g][m],
        ) by {
            assert(is_marked_cell(cell_ids@, marks@, regions@[g]@[m]));
        }
        assert forall|g: int| 0 <= g < views.len() implies (#[trigger] views[g]).len() > 0 && grown_connected(
            cells,
            views[g],
        ) by {
            assert(regions@[g]@.len() > 0);
        }
    }
    regions
}

/// Adding an entry does not change the count among the entries before it.
proof fn lemma_unmarked_prefix(before: Seq<bool>, after: Seq<bool>, n: nat)
    requires
        n <= before.len() <= after.len(),
        forall|k: int| 0 <= k < before.len() ==> after[k] == before[k],
    ensures
        unmarked(after, n) == unmarked(before, n),
    decreases n,
{
    if n > 0 {
        lemma_unmarked_prefix(before, after, (n - 1) as nat);
    }
}

/// Where every entry is marked, none is unmarked.
proof fn lemma_all_marked(marks: Seq<bool>, n: nat)
    requires
        n <= marks.len(),
        forall|k: int| 0 <= k < n ==> marks[k],
    ensures
        unmarked(marks, n) == 0,
    decreases n,
{
    if n > 0 {
        lemma_all_marked(marks, (n - 1) as nat);
    }
}

/// The three edges of a cell, from corner to corner in the order of its
/// corners.
pub open spec fn cell_edges(cell: Cell) -> Seq<Edge> {
    seq![
        (cell.vertices[0], cell.vertices[1]),
        (cell.vertices[1], cell.vertices[2]),
        (cell.vertices[2], cell.vertices[0]),
    ]
}

/// The edges of the first `n` cells of a region.  An id that names no cell
/// adds nothing.
pub open spec fn region_edges(cells: Seq<Cell>, ids: Seq<usize>, n: nat) -> Seq<Edge>
    decreases n,
{
    if n == 0 {
        Seq::empty()
    } else {
        region_edges(cells, ids, (n - 1) as nat) + if ids[n - 1] < cells.len() {
            cell_edges(cells[ids[n - 1] as int])
        } else {
            Seq::empty()
        }
    }
}

/// Whether `b` runs where `a` runs, the other way.
pub open spec fn is_reverse(a: Edge, b: Edge) -> bool {
    a.0 == b.1 && a.1 == b.0
}

/// Whether no other edge of the list runs along edge `i` the other way.
pub open spec fn is_unshared(edges: Seq<Edge>, i: int) -> bool {
    forall|j: int| 0 <= j < edges.len() && j != i ==> !#[trigger] is_reverse(edges[i], edges[j])
}

/// The unshared edges among the first `n` edges, in their order.
pub open spec fn unshared_edges(edges: Seq<Edge>, n: nat) -> Seq<Edge>
    decreases n,
{
    if n == 0 {
        Seq::empty()
    } else {
        let rest = unshared_edges(edges, (n - 1) as nat);
        if is_unshared(edges, n - 1) {
            rest.push(edges[n - 1])
        } else {
            rest
        }
    }
}

/// Whether the edge starts or ends in the point.
pub open spec fn touches(edge: Edge, p: Point) -> bool {
    edge.0 == p || edge.1 == p
}

/// The edge, turned if need be so that it starts in the point.
pub open spec fn turned_to(edge: Edge, p: Point) -> Edge {
    if edge.0 == p {
        edge
    } else {
        (edge.1, edge.0)
    }
}

/// Whether position `p` is taken by one of the first `k` places of the
/// order.
pub open spec fn taken_before(order: Seq<usize>, k: int, p: int) -> bool {
    exists|a: int| 0 <= a < k && #[trigger] order[a] == p
}

/// Whether place `k` of the chain continues it: its edge is the first edge
/// not taken before that touches the end of the edge before it, turned so
/// that it starts there.
pub open spec fn continues_chain(edges: Seq<Edge>, order: Seq<usize>, chain: Seq<Edge>, k: int) -> bool {
    let end = chain[k - 1].1;
    &&& touches(edges[order[k] as int], end)
    &&& chain[k] == turned_to(edges[order[k] as int], end)
    &&& forall|p: int|
        0 <= p < order[k] && !taken_before(order, k, p) ==> !touches(#[trigger] edges[p], end)
}

/// Whether `chain` holds the edges stitched into an outline, where `order`
/// names the edge that stands at each place and `cut` is the number of
/// places that form a chain: the chain starts with the first edge; every
/// further place of the chain continues it; and where the chain ends before
/// all edges are taken, no edge that is left touches its end, and the edges
/// that are left follow as they are, in their order.
pub open spec fn is_stitched(edges: Seq<Edge>, order: Seq<usize>, cut: int, chain: Seq<Edge>) -> bool {
    &&& chain.len() == edges.len()
    &&& crate::sorting::is_permutation(order, edges.len() as int)
    &&& edges.len() > 0 ==> {
        &&& 1 <= cut <= edges.len()
        &&& order[0] == 0
        &&& chain[0] == edges[0]
        &&& forall|k: int| 0 < k < cut ==> #[trigger] continues_chain(edges, order, chain, k)
        &&& forall|p: int|
            0 <= p < edges.len() && cut < edges.len() && !taken_before(order, cut, p) ==> !touches(
                #[trigger] edges[p],
                chain[cut - 1].1,
            )
        &&& forall|k: int| cut <= k < edges.len() ==> (#[trigger] chain[k]) == edges[order[k] as int]
        &&& forall|k: int, l: int| cut <= k < l < edges.len() ==> #[trigger] order[k] < #[trigger] order[l]
    }
}

/// The points in which the edges start.
pub open spec fn start_points(chain: Seq<Edge>) -> Seq<Point> {
    Seq::new(chain.len(), |k: int| chain[k].0)
}

/// The unshared edges of a region.
pub open spec fn region_boundary(cells: Seq<Cell>, ids: Seq<usize>) -> Seq<Edge> {
    let all = region_edges(cells, ids, ids.len());
    unshared_edges(all, all.len())
}

/// Whether `points` is the outline of the region: the points in which the
/// unshared edges of the region start, stitched into a chain.
pub open spec fn is_outline(cells: Seq<Cell>, ids: Seq<usize>, points: Seq<Point>) -> bool {
    exists|order: Seq<usize>, cut: int, chain: Seq<Edge>|
        #[trigger] is_stitched(region_boundary(cells, ids), order, cut, chain) && points == start_points(chain)
}

/// Collects the edges of the cells of a region.
pub fn collect_edges(grid: &TriangularGrid, cell_ids: &Vec<usize>) -> (edges: Vec<Edge>)
    ensures
        edges@ == region_edges(grid@.cells@, cell_ids@, cell_ids@.len()),
{
    let cells = grid.cells();
    let mut edges: Vec<Edge> = Vec::new();
    let mut i: usize = 0;
    while i < cell_ids.len()
        invariant
            i <= cell_ids@.len(),
            cells@ == grid@.cells@,
            edges@ == region_edges(cells@, cell_ids@, i as nat),
        decreases cell_ids@.len() - i,
    {
        let id: usize = cell_ids[i];
        let ghost before = edges@;
        if id < cells.len() {
            let cell = &cells[id];
            edges.push((cell.vertices[0], cell.vertices[1]));
            edges.push((cell.vertices[1], cell.vertices[2]));
            edges.push((cell.vertices[2], cell.vertices[0]));
            assert(edges@ =~= before + cell_edges(cells@[id as int]));
        } else {
            assert(edges@ =~= before + Seq::<Edge>::empty());
        }
        i = i + 1;
    }
    edges
}

/// Keeps the edges that no other edge of the list runs along the other way.
pub fn boundary_edges(edges: &Vec<Edge>) -> (boundary: Vec<Edge>)
    ensures
        boundary@ == unshared_edges(edges@, edges@.len()),
{
    let mut boundary: Vec<Edge> = Vec::new();
    let mut i: usize = 0;
    while i < edges.len()
        invariant
            i <= edges@.len(),
            boundary@ == unshared_edges(edges@, i as nat),
        decreases edges@.len() - i,
    {
        let edge: Edge = edges[i];
        let mut unshared: bool = true;
        let mut j: usize = 0;
        while j < edges.len() && unshared
            invariant
                j <= edges@.len(),
                i < edges@.len(),
                edge == edges@[i as int],
                unshared ==> forall|k: int| 0 <= k < j && k != i ==> !#[trigger] is_reverse(edge, edges@[k]),
                !unshared ==> !is_unshared(edges@, i as int),
            decreases edges@.len() - j,
        {
            if j != i && edge.0 == edges[j].1 && edge.1 == edges[j].0 {
                assert(is_reverse(edges@[i as int], edges@[j as int]));
                unshared = false;
            }
            j = j + 1;
        }
        if unshared {
            assert(is_unshared(edges@, i as int));
            boundary.push(edge);
        }
        i = i + 1;
    }
    boundary
}

/// Finds the first edge that touches the point.
fn find_touching(edges: &Vec<Edge>, p: Point) -> (at: usize)
    ensures
        at <= edges@.len(),
        at < edges@.len() ==> touches(edges@[at as int], p),
        forall|k: int| 0 <= k < at ==> !touches(#[trigger] edges@[k], p),
{
    let mut at: usize = 0;
    while at < edges.len() && !(edges[at].0 == p || edges[at].1 == p)
        invariant
            at <= edges@.len(),
            forall|k: int| 0 <= k < at ==> !touches(#[trigger] edges@[k], p),
        decreases edges@.len() - at,
    {
        at = at + 1;
    }
    at
}

/// Whether place `k` holds the same edge, by the same name, in both chains.
pub open spec fn same_place(chain: Seq<Edge>, order: Seq<usize>, linked: Seq<Edge>, head: Seq<usize>, k: int) -> bool {
    chain[k] == linked[k] && order[k] == head[k]
}

/// Whether place `k` holds the edge that is left at place `k - cut`.
pub open spec fn left_place(
    chain: Seq<Edge>,
    order: Seq<usize>,
    rest: Seq<Edge>,
    places: Seq<usize>,
    cut: int,
    k: int,
) -> bool {
    chain[k] == rest[k - cut] && order[k] == places[k - cut]
}

/// A chain with the edges that are left behind it is a stitched chain.
proof fn lemma_stitched(
    all: Seq<Edge>,
    head: Seq<usize>,
    linked: Seq<Edge>,
    places: Seq<usize>,
    rest: Seq<Edge>,
    order: Seq<usize>,
    chain: Seq<Edge>,
)
    requires
        all.len() > 0,
        linked.len() >= 1,
        linked.len() + rest.len() == all.len(),
        head.len() == linked.len(),
        places.len() == rest.len(),
        order.len() == all.len(),
        chain.len() == all.len(),
        forall|i: int| 0 <= i < rest.len() ==> (#[trigger] places[i]) < all.len() && rest[i] == all[places[i] as int],
        forall|i: int, j: int| 0 <= i < j < places.len() ==> #[trigger] places[i] < #[trigger] places[j],
        forall|a: int| 0 <= a < head.len() ==> (#[trigger] head[a]) < all.len(),
        forall|a: int, b: int| 0 <= a < b < head.len() ==> #[trigger] head[a] != #[trigger] head[b],
        forall|a: int, i: int| 0 <= a < head.len() && 0 <= i < places.len() ==> #[trigger] head[a] != #[trigger] places[i],
        forall|p: usize| p < all.len() ==> taken_before(head, head.len() as int, p as int) || #[trigger] places.contains(p),
        head[0] == 0,
        linked[0] == all[0],
        forall|k: int| 0 < k < linked.len() ==> #[trigger] continues_chain(all, head, linked, k),
        rest.len() > 0 ==> forall|i: int| 0 <= i < rest.len() ==> !touches(#[trigger] rest[i], linked[linked.len() - 1].1),
        all.len() <= usize::MAX,
        forall|k: int| 0 <= k < linked.len() ==> #[trigger] same_place(chain, order, linked, head, k),
        forall|k: int|
            linked.len() <= k < all.len() ==> #[trigger] left_place(chain, order, rest, places, linked.len() as int, k),
    ensures
        is_stitched(all, order, linked.len() as int, chain),
{
    let n = all.len() as int;
    let cut = linked.len() as int;
    assert(same_place(chain, order, linked, head, 0));
    assert forall|k: int| 0 < k < cut implies #[trigger] continues_chain(all, order, chain, k) by {
        assert(continues_chain(all, head, linked, k));
        assert(same_place(chain, order, linked, head, k));
        assert(same_place(chain, order, linked, head, k - 1));
        assert forall|p: int| 0 <= p < order[k] && !taken_before(order, k, p) implies !touches(
            #[trigger] all[p],
            chain[k - 1].1,
        ) by {
            if taken_before(head, k, p) {
                let a = choose|a: int| 0 <= a < k && #[trigger] head[a] == p;
                assert(same_place(chain, order, linked, head, a));
                assert(order[a] == p);
            }
        }
    }
    assert forall|p: int| 0 <= p < n && cut < n && !taken_before(order, cut, p) implies !touches(
        #[trigger] all[p],
        chain[cut - 1].1,
    ) by {
        assert(same_place(chain, order, linked, head, cut - 1));
        if taken_before(head, cut, p) {
            let a = choose|a: int| 0 <= a < cut && #[trigger] head[a] == p;
            assert(same_place(chain, order, linked, head, a));
            assert(order[a] == p);
        } else {
            assert(places.contains(p as usize));
            let j = choose|j: int| 0 <= j < places.len() && places[j] == p as usize;
            assert(!touches(rest[j], linked[cut - 1].1));
        }
    }
    assert forall|k: int| cut <= k < n implies (#[trigger] chain[k]) == all[order[k] as int] by {
        assert(left_place(chain, order, rest, places, cut, k));
    }
    assert forall|k: int, l: int| cut <= k < l < n implies #[trigger] order[k] < #[trigger] order[l] by {
        assert(left_place(chain, order, rest, places, cut, k));
        assert(left_place(chain, order, rest, places, cut, l));
    }
    assert(order.no_duplicates()) by {
        assert forall|a: int, b: int| 0 <= a < b < order.len() implies order[a] != order[b] by {
            if b < cut {
                assert(same_place(chain, order, linked, head, a));
                assert(same_place(chain, order, linked, head, b));
                assert(head[a] != head[b]);
            } else if a < cut {
                assert(same_place(chain, order, linked, head, a));
                assert(left_place(chain, order, rest, places, cut, b));
                assert(head[a] != places[b - cut]);
            } else {
                assert(left_place(chain, order, rest, places, cut, a));
                assert(left_place(chain, order, rest, places, cut, b));
            }
        }
    }
    assert forall|k: int| 0 <= k < order.len() implies (#[trigger] order[k]) < n by {
        if k < cut {
            assert(same_place(chain, order, linked, head, k));
        } else {
            assert(left_place(chain, order, rest, places, cut, k));
        }
    }
    assert forall|p: usize| p < n implies #[trigger] order.contains(p) by {
        if taken_before(head, cut, p as int) {
            let a = choose|a: int| 0 <= a < cut && #[trigger] head[a] == p as int;
            assert(same_place(chain, order, linked, head, a));
            assert(order[a] == p);
        } else {
            assert(places.contains(p));
            let j = choose|j: int| 0 <= j < places.len() && places[j] == p;
            assert(left_place(chain, order, rest, places, cut, cut + j));
            assert(order[cut + j] == p);
        }
    }
}

/// Stitches edges into a chain: starting with the first edge, the chain
/// takes again and again the first edge left that touches its end, turned
/// so that it starts there.  Where no edge that is left touches the end, the
/// edges that are left follow as they are.
pub fn stitch(edges: Vec<Edge>) -> (chain: Vec<Edge>)
    ensures
        exists|order: Seq<usize>, cut: int| #[trigger] is_stitched(edges@, order, cut, chain@),
{
    let n: usize = edges.len();
    let mut chain: Vec<Edge> = Vec::new();
    if n == 0 {
        assert(is_stitched(edges@, Seq::<usize>::empty(), 0, chain@));
        return chain;
    }
    let mut rest: Vec<Edge> = edges;
    let ghost all = rest@;
    let ghost mut places: Seq<usize> = Seq::new(n as nat, |i: int| i as usize);
    let ghost mut order: Seq<usize> = seq![0usize];
    let first = rest.remove(0);
    chain.push(first);
    proof {
        let initial = places;
        places = places.remove(0);
        assert(taken_before(order, 1, 0)) by {
            assert(order[0] == 0);
        }
        assert forall|i: int| 0 <= i < places.len() implies #[trigger] places[i] == (i + 1) as usize by {
            assert(places[i] == initial[i + 1]);
        }
        assert forall|p: usize| p < n implies taken_before(order, order.len() as int, p as int) || #[trigger] places.contains(
            p,
        ) by {
            if p > 0 {
                assert(places[p - 1] == p);
            }
        }
    }
    let mut chained: bool = true;
    while rest.len() > 0 && chained
        invariant
            n == all.len(),
            n > 0,
            chain@.len() >= 1,
            chain@.len() + rest@.len() == n,
            order.len() == chain@.len(),
            places.len() == rest@.len(),
            forall|i: int| 0 <= i < rest@.len() ==> (#[trigger] places[i]) < n && rest@[i] == all[places[i] as int],
            forall|i: int, j: int| 0 <= i < j < places.len() ==> #[trigger] places[i] < #[trigger] places[j],
            forall|a: int| 0 <= a < order.len() ==> (#[trigger] order[a]) < n,
            forall|a: int, b: int| 0 <= a < b < order.len() ==> #[trigger] order[a] != #[trigger] order[b],
            forall|a: int, i: int| 0 <= a < order.len() && 0 <= i < places.len() ==> #[trigger] order[a] != #[trigger] places[i],
            forall|p: usize| p < n ==> taken_before(order, order.len() as int, p as int) || #[trigger] places.contains(p),
            order[0] == 0,
            chain@[0] == all[0],
            forall|k: int| 0 < k < chain@.len() ==> #[trigger] continues_chain(all, order, chain@, k),
            !chained ==> forall|i: int| 0 <= i < rest@.len() ==> !touches(#[trigger] rest@[i], chain@[chain@.len() - 1].1),
        decreases rest@.len() + (if chained { 1nat } else { 0nat }),
    {
        let end: Point = chain[chain.len() - 1].1;
        let at: usize = find_touching(&rest, end);
        if at < rest.len() {
            let ghost before_order = order;
            let ghost before_places = places;
            let ghost before_chain = chain@;
            let ghost before_rest = rest@;
            let edge = rest.remove(at);
            let turned: Edge = if edge.0 == end {
                edge
            } else {
                (edge.1, edge.0)
            };
            chain.push(turned);
            proof {
                let place = before_places[at as int];
                order = before_order.push(place);
                places = before_places.remove(at as int);
                let k = before_chain.len() as int;
                assert(order[k] == place);
                assert forall|i: int| 0 <= i < rest@.len() implies (#[trigger] places[i]) < n && rest@[i] == all[places[i] as int] by {
                    if i < at {
                        assert(places[i] == before_places[i] && rest@[i] == before_rest[i]);
                    } else {
                        assert(places[i] == before_places[i + 1] && rest@[i] == before_rest[i + 1]);
                    }
                }
                assert forall|i: int, j: int| 0 <= i < j < places.len() implies #[trigger] places[i] < #[trigger] places[j] by {
                    let a = if i < at { i } else { i + 1 };
                    let b = if j < at { j } else { j + 1 };
                    assert(places[i] == before_places[a] && places[j] == before_places[b]);
                }
                assert forall|a: int, b: int| 0 <= a < b < order.len() implies #[trigger] order[a] != #[trigger] order[b] by {
                    if b == k {
                        assert(order[a] == before_order[a]);
                        assert(before_order[a] != before_places[at as int]);
                    } else {
                        assert(before_order[a] != before_order[b]);
                    }
                }
                assert forall|a: int, i: int| 0 <= a < order.len() && 0 <= i < places.len() implies #[trigger] order[a] != #[trigger] places[i] by {
                    let j = if i < at { i } else { i + 1 };
                    assert(places[i] == before_places[j]);
                    if a == k {
                        if j < at {
                            assert(before_places[j] < before_places[at as int]);
                        } else {
                            assert(before_places[at as int] < before_places[j]);
                        }
                    } else {
                        assert(before_order[a] != before_places[j]);
                    }
                }
                assert forall|p: usize| p < n implies taken_before(order, order.len() as int, p as int) || #[trigger] places.contains(p) by {
                    if taken_before(before_order, before_order.len() as int, p as int) {
                        let a = choose|a: int| 0 <= a < before_order.len() && #[trigger] before_order[a] == p as int;
                        assert(order[a] == p as int);
                    } else {
                        assert(before_places.contains(p));
                        let i = choose|i: int| 0 <= i < before_places.len() && before_places[i] == p;
                        if i < at {
                            assert(places[i] == p);
                        } else if i == at {
                            assert(order[k] == p as int);
                        } else {
                            assert(places[i - 1] == p);
                        }
                    }
                }
                assert forall|j: int| 0 < j < chain@.len() implies #[trigger] continues_chain(all, order, chain@, j) by {
                    if j < k {
                        assert(continues_chain(all, before_order, before_chain, j));
                        assert(chain@[j] == before_chain[j] && chain@[j - 1] == before_chain[j - 1]);
                        assert(order[j] == before_order[j]);
                        assert forall|p: int| 0 <= p < order[j] && !taken_before(order, j, p) implies !touches(
                            #[trigger] all[p],
                            chain@[j - 1].1,
                        ) by {
                            if taken_before(before_order, j, p) {
                                let a = choose|a: int| 0 <= a < j && #[trigger] before_order[a] == p;
                                assert(order[a] == p);
                            }
                        }
                    } else {
                        assert(chain@[k - 1] == before_chain[k - 1]);
                        assert(all[place as int] == before_rest[at as int]);
                        assert forall|p: int| 0 <= p < order[k] && !taken_before(order, k, p) implies !touches(
                            #[trigger] all[p],
                            end,
                        ) by {
                            if taken_before(before_order, k, p) {
                                let a = choose|a: int| 0 <= a < k && #[trigger] before_order[a] == p;
                                assert(order[a] == p);
                            } else {
                                assert(before_places.contains(p as usize));
                                let i = choose|i: int| 0 <= i < before_places.len() && before_places[i] == p as usize;
                                if i >= at {
                                    if i > at {
                                        assert(before_places[at as int] < before_places[i]);
                                    }
                                }
                                assert(!touches(before_rest[i], end));
                            }
                        }
                    }
                }
            }
        } else {
            chained = false;
        }
    }
    let ghost cut: int = chain@.len() as int;
    let ghost linked = chain@;
    let ghost head = order;
    let mut i: usize = 0;
    while i < rest.len()
        invariant
            i <= rest@.len(),
            chain@.len() == cut + i,
            cut + rest@.len() == n,
            n == all.len(),
            places.len() == rest@.len(),
            order.len() == chain@.len(),
            head.len() == cut,
            linked.len() == cut,
            forall|k: int| 0 <= k < cut ==> #[trigger] same_place(chain@, order, linked, head, k),
            forall|k: int| cut <= k < cut + i ==> #[trigger] left_place(chain@, order, rest@, places, cut, k),
        decreases rest@.len() - i,
    {
        let ghost so_far = chain@;
        let ghost named = order;
        chain.push(rest[i]);
        proof {
            order = order.push(places[i as int]);
            assert forall|k: int| 0 <= k < cut implies #[trigger] same_place(chain@, order, linked, head, k) by {
                assert(same_place(so_far, named, linked, head, k));
            }
            assert forall|k: int| cut <= k < cut + i + 1 implies #[trigger] left_place(
                chain@,
                order,
                rest@,
                places,
                cut,
                k,
            ) by {
                if k < cut + i {
                    assert(left_place(so_far, named, rest@, places, cut, k));
                }
            }
        }
        i = i + 1;
    }
    proof {
        lemma_stitched(all, head, linked, places, rest@, order, chain@);
    }
    chain
}

/// Traces the outline of a region: the unshared edges of its cells,
/// stitched into a chain, as the points in which they start.
pub fn compute_region_boundary(grid: &TriangularGrid, cell_ids: &Vec<usize>) -> (points: Vec<Point>)
    ensures
        is_outline(grid@.cells@, cell_ids@, points@),
{
    let edges = collect_edges(grid, cell_ids);
    let boundary = boundary_edges(&edges);
    let chain = stitch(boundary);
    let mut points: Vec<Point> = Vec::new();
    let mut k: usize = 0;
    while k < chain.len()
        invariant
            k <= chain@.len(),
            points@.len() == k,
            forall|j: int| 0 <= j < k ==> #[trigger] points@[j] == chain@[j].0,
        decreases chain@.len() - k,
    {
        points.push(chain[k].0);
        k = k + 1;
    }
    proof {
        assert(points@ =~= start_points(chain@));
        let (order, cut) = choose|order: Seq<usize>, cut: int| #[trigger] is_stitched(boundary@, order, cut, chain@);
        assert(boundary@ == region_boundary(grid@.cells@, cell_ids@));
        assert(is_stitched(region_boundary(grid@.cells@, cell_ids@), order, cut, chain@));
    }
    points
}

/// Traces the outlines of a shape, one for each of its regions.
pub fn shape_outlines(grid: &TriangularGrid, cell_ids: &Vec<usize>) -> (outlines: Vec<Vec<Point>>)
    ensures
        exists|regions: Seq<Seq<usize>>|
            {
                &&& #[trigger] is_region_split(grid@.cells@, cell_ids@, regions)
                &&& outlines@.len() == regions.len()
                &&& forall|g: int|
                    0 <= g < regions.len() ==> is_outline(grid@.cells@, regions[g], (#[trigger] outlines@[g])@)
            },
{
    let regions = shape_regions(grid, cell_ids);
    let ghost views = region_views(regions@);
    let mut outlines: Vec<Vec<Point>> = Vec::new();
    let mut g: usize = 0;
    while g < regions.len()
        invariant
            g <= regions@.len(),
            views == region_views(regions@),
            outlines@.len() == g,
            forall|h: int| 0 <= h < g ==> is_outline(grid@.cells@, views[h], (#[trigger] outlines@[h])@),
        decreases regions@.len() - g,
    {
        let outline = compute_region_boundary(grid, &regions[g]);
        outlines.push(outline);
        g = g + 1;
    }
    proof {
        assert(is_region_split(grid@.cells@, cell_ids@, views));
    }
    outlines
}

} // verus!
