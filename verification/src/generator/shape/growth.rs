//! Growing shapes on the mesh.
//!
//! A shape grows from a seed cell by taking neighbours of cells it already
//! has.  Which neighbours it takes is left to the random source; that every
//! cell after the first touches an earlier one is not.

use vstd::prelude::*;
use rand_chacha::ChaCha8Rng;
use crate::generator::grid::TriangularGrid;
use crate::generator::grid::geometry::{
    Cell, Point, distance_squared, is_adjacency_list, mesh_adjacent, neighbours_of,
};
use crate::generator::random::{
    RandomError, new_rng, random_below, random_between, random_chance, shuffle_cells,
};
use crate::generator::shape::{Shape, contains_id, mark_used};
use crate::generator::shape::notches;
use crate::generator::shape::quality::{
    MAX_CELLS, ShapeMetrics, evaluate_shape_quality, score_candidate_cell,
};
use crate::sorting::{arrange, is_sorted_order, sorted_order};

verus! {

/// Whether a cell before position `k` shares an edge with the cell at
/// position `k`.
pub open spec fn has_earlier_neighbour(cells: Seq<Cell>, ids: Seq<usize>, k: int) -> bool {
    exists|j: int| 0 <= j < k && #[trigger] mesh_adjacent(cells, ids[j] as int, ids[k] as int)
}

/// Every cell but the first shares an edge with a cell that was added before
/// it.
pub open spec fn grown_connected(cells: Seq<Cell>, ids: Seq<usize>) -> bool {
    forall|k: int| 0 < k < ids.len() ==> #[trigger] has_earlier_neighbour(cells, ids, k)
}

/// The ids are the cells of a grown shape: cells of the mesh, each once, and
/// connected in the order in which they were added.
pub open spec fn is_grown(cells: Seq<Cell>, ids: Seq<usize>) -> bool {
    &&& ids.no_duplicates()
    &&& forall|k: int| 0 <= k < ids.len() ==> (#[trigger] ids[k]) < cells.len()
    &&& grown_connected(cells, ids)
}

/// None of the ids is used.
pub open spec fn avoids(ids: Seq<usize>, used: Seq<usize>) -> bool {
    forall|k: int| 0 <= k < ids.len() ==> !used.contains(#[trigger] ids[k])
}

/// Whether `before` is the start of `after`.
pub open spec fn extends(before: Seq<usize>, after: Seq<usize>) -> bool {
    &&& before.len() <= after.len()
    &&& forall|k: int| 0 <= k < before.len() ==> #[trigger] after[k] == before[k]
}

/// A grown shape stays one when it takes a new cell that touches one of its
/// cells.
pub proof fn lemma_push_grown(cells: Seq<Cell>, ids: Seq<usize>, cell: usize, at: int)
    requires
        is_grown(cells, ids),
        0 <= at < ids.len(),
        mesh_adjacent(cells, ids[at] as int, cell as int),
        !ids.contains(cell),
    ensures
        is_grown(cells, ids.push(cell)),
{
    let after = ids.push(cell);
    assert forall|k: int| 0 < k < after.len() implies #[trigger] has_earlier_neighbour(cells, after, k) by {
        if k < ids.len() {
            assert(has_earlier_neighbour(cells, ids, k));
            let j = choose|j: int| 0 <= j < k && #[trigger] mesh_adjacent(cells, ids[j] as int, ids[k] as int);
            assert(mesh_adjacent(cells, after[j] as int, after[k] as int));
        } else {
            assert(mesh_adjacent(cells, after[at] as int, after[k] as int));
        }
    }
    assert forall|a: int, b: int| 0 <= a < after.len() && 0 <= b < after.len() && a != b implies after[a]
        != after[b] by {
        if a == ids.len() {
            assert(ids[b] != cell);
        } else if b == ids.len() {
            assert(ids[a] != cell);
        }
    }
}

/// A mesh has at most `MAX_CELLS` cells.
pub proof fn lemma_mesh_size(grid: &TriangularGrid)
    requires
        grid.wf(),
    ensures
        24 <= grid@.cells@.len() <= MAX_CELLS,
{
    let d = grid@.grid_density as int;
    assert(24 <= 6 * d * d <= 384) by (nonlinear_arith)
        requires
            2 <= d <= 8,
    ;
}

/// A grown shape has at most as many cells as the mesh.
pub proof fn lemma_grown_size(grid: &TriangularGrid, ids: Seq<usize>)
    requires
        grid.wf(),
        is_grown(grid@.cells@, ids),
    ensures
        ids.len() <= grid@.cells@.len() <= MAX_CELLS,
{
    lemma_mesh_size(grid);
    crate::sorting::lemma_distinct_bounded(ids, grid@.cells@.len());
}

/// While nothing is used, every cell of the mesh has a free neighbour.
pub proof fn lemma_start_has_neighbour(grid: &TriangularGrid, start: usize, used: Seq<usize>)
    requires
        grid.wf(),
        start < grid@.cells@.len(),
        used.len() == 0,
    ensures
        has_free_neighbour(grid@.cells@, used, start),
{
    crate::generator::grid::properties::lemma_every_cell_has_a_neighbour(*grid, start as int);
    let other = choose|other: int| #[trigger] mesh_adjacent(grid@.cells@, start as int, other);
    lemma_mesh_size(grid);
    assert(mesh_adjacent(grid@.cells@, start as int, (other as usize) as int));
}

/// The squared distances of the cells' centroids from `center`.
pub open spec fn center_keys(cells: Seq<Cell>, center: Point) -> Seq<u128> {
    Seq::new(cells.len(), |i: int| distance_squared(cells[i].centroid, center) as u128)
}

/// Whether `order` lists the cells by growing distance from `center`, cells
/// at the same distance by growing id.
pub open spec fn is_center_order(cells: Seq<Cell>, center: Point, order: Seq<usize>) -> bool {
    is_sorted_order(center_keys(cells, center), false, order)
}

/// Whether the cell is one of the three that lie nearest to `center`.
pub open spec fn is_near_center(cells: Seq<Cell>, center: Point, cell: usize) -> bool {
    exists|order: Seq<usize>, rank: int|
        #![trigger is_center_order(cells, center, order), order[rank]]
        is_center_order(cells, center, order) && 0 <= rank < 3 && rank < order.len() && order[rank] == cell
}

/// Whether the cell is the nearest to `center` among those that are not
/// used.
pub open spec fn is_nearest_free(cells: Seq<Cell>, center: Point, used: Seq<usize>, cell: usize) -> bool {
    exists|order: Seq<usize>, rank: int|
        #![trigger is_center_order(cells, center, order), order[rank]]
        {
            &&& is_center_order(cells, center, order)
            &&& 0 <= rank < order.len()
            &&& order[rank] == cell
            &&& !used.contains(cell)
            &&& forall|q: int| 0 <= q < rank ==> used.contains(#[trigger] order[q])
        }
}

/// Whether the cell is free and touches a used cell.
pub open spec fn touches_used(cells: Seq<Cell>, used: Seq<usize>, cell: usize) -> bool {
    &&& !used.contains(cell)
    &&& exists|u: int| 0 <= u < used.len() && #[trigger] mesh_adjacent(cells, used[u] as int, cell as int)
}

/// Grows shapes on a mesh, with a random source of its own.
pub struct ShapeGenerator<'a> {
    grid: &'a TriangularGrid,
    rng: ChaCha8Rng,
}

impl<'a> ShapeGenerator<'a> {
    /// The mesh on which the shapes grow.
    pub closed spec fn grid(&self) -> TriangularGrid {
        *self.grid
    }

    /// The mesh is well formed.
    pub open spec fn wf(&self) -> bool {
        self.grid().wf()
    }

    /// Makes a generator for a mesh.  With a seed the random source is the
    /// one of that seed, and this never fails; without, it is seeded from the
    /// system's entropy.
    pub fn new(grid: &'a TriangularGrid, seed: Option<u64>) -> (generator: Result<
        ShapeGenerator<'a>,
        RandomError,
    >)
        requires
            grid.wf(),
        ensures
            seed.is_some() ==> generator.is_ok(),
            generator matches Ok(g) ==> g.grid() == *grid && g.wf(),
    {
        match new_rng(seed) {
            Ok(rng) => Ok(ShapeGenerator { grid, rng }),
            Err(error) => Err(error),
        }
    }

    /// Lists all cells by growing distance of their centroids from the
    /// center of the hexagon.
    pub fn find_center_cells(&self) -> (order: Vec<usize>)
        ensures
            is_center_order(self.grid()@.cells@, self.grid()@.center, order@),
    {
        let hex = self.grid.hex_grid();
        let mut keys: Vec<u128> = Vec::new();
        let mut i: usize = 0;
        while i < hex.cells.len()
            invariant
                i <= hex.cells@.len(),
                keys@.len() == i,
                forall|k: int|
                    0 <= k < i ==> #[trigger] keys@[k] == distance_squared(hex.cells@[k].centroid, hex.center),
            decreases hex.cells@.len() - i,
        {
            keys.push(hex.cells[i].centroid.distance_squared(&hex.center));
            i = i + 1;
        }
        assert(keys@ =~= center_keys(hex.cells@, hex.center));
        sorted_order(&keys, false)
    }

    /// Lists the free cells that touch a used cell, each once.
    pub fn find_boundary_cells(&self, used_cells: &Vec<usize>) -> (boundary: Vec<usize>)
        ensures
            boundary@.no_duplicates(),
            forall|cell: usize|
                boundary@.contains(cell) <==> touches_used(self.grid()@.cells@, used_cells@, cell),
    {
        let ghost cells = self.grid()@.cells@;
        let mut boundary: Vec<usize> = Vec::new();
        let mut u: usize = 0;
        while u < used_cells.len()
            invariant
                u <= used_cells@.len(),
                cells == self.grid()@.cells@,
                boundary@.no_duplicates(),
                forall|k: int|
                    0 <= k < boundary@.len() ==> touches_used(cells, used_cells@, #[trigger] boundary@[k]),
                forall|cell: usize, v: int|
                    0 <= v < u && !used_cells@.contains(cell) && #[trigger] mesh_adjacent(
                        cells,
                        used_cells@[v] as int,
                        cell as int,
                    ) ==> boundary@.contains(cell),
            decreases used_cells@.len() - u,
        {
            let around = self.grid.adjacent_cells(used_cells[u]);
            let mut n: usize = 0;
            while n < around.len()
                invariant
                    n <= around@.len(),
                    u < used_cells@.len(),
                    cells == self.grid()@.cells@,
                    is_adjacency_list(cells, used_cells@[u as int] as int, around@),
                    boundary@.no_duplicates(),
                    forall|k: int|
                        0 <= k < boundary@.len() ==> touches_used(cells, used_cells@, #[trigger] boundary@[k]),
                    forall|cell: usize, v: int|
                        0 <= v < u && !used_cells@.contains(cell) && #[trigger] mesh_adjacent(
                            cells,
                            used_cells@[v] as int,
                            cell as int,
                        ) ==> boundary@.contains(cell),
                    forall|m: int|
                        0 <= m < n && !used_cells@.contains(#[trigger] around@[m]) ==> boundary@.contains(
                            around@[m],
                        ),
                decreases around@.len() - n,
            {
                let cell: usize = around[n];
                let ghost before = boundary@;
                if !contains_id(used_cells, cell) && !contains_id(&boundary, cell) {
                    boundary.push(cell);
                    proof {
                        assert(mesh_adjacent(cells, used_cells@[u as int] as int, around@[n as int] as int));
                        assert(boundary@[before.len() as int] == cell);
                    }
                }
                proof {
                    assert forall|x: usize| before.contains(x) implies boundary@.contains(x) by {
                        let k = choose|k: int| 0 <= k < before.len() && before[k] == x;
                        assert(boundary@[k] == x);
                    }
                }
                n = n + 1;
            }
            proof {
                assert forall|cell: usize, v: int|
                    0 <= v < u + 1 && !used_cells@.contains(cell) && #[trigger] mesh_adjacent(
                        cells,
                        used_cells@[v] as int,
                        cell as int,
                    ) implies boundary@.contains(cell) by {
                    if v == u {
                        assert(around@.contains(cell));
                        let m = choose|m: int| 0 <= m < around@.len() && around@[m] == cell;
                        assert(boundary@.contains(around@[m]));
                    }
                }
            }
            u = u + 1;
        }
        proof {
            assert forall|cell: usize| boundary@.contains(cell) <==> touches_used(
                cells,
                used_cells@,
                cell,
            ) by {
                if boundary@.contains(cell) {
                    let k = choose|k: int| 0 <= k < boundary@.len() && boundary@[k] == cell;
                    assert(touches_used(cells, used_cells@, boundary@[k]));
                }
                if touches_used(cells, used_cells@, cell) {
                    let v = choose|v: int|
                        0 <= v < used_cells@.len() && #[trigger] mesh_adjacent(
                            cells,
                            used_cells@[v] as int,
                            cell as int,
                        );
                    assert(boundary@.contains(cell));
                }
            }
        }
        boundary
    }
}

/// Two lists with the same elements, each as often in the one as in the
/// other, are as long, hold the same cells, and are both without duplicates
/// or both with.
pub proof fn lemma_same_elements(a: Seq<usize>, b: Seq<usize>)
    requires
        a.to_multiset() == b.to_multiset(),
    ensures
        a.len() == b.len(),
        forall|x: usize| a.contains(x) <==> b.contains(x),
        a.no_duplicates() ==> b.no_duplicates(),
{
    vstd::seq_lib::to_multiset_len(a);
    vstd::seq_lib::to_multiset_len(b);
    assert forall|x: usize| a.contains(x) <==> b.contains(x) by {
        vstd::seq_lib::to_multiset_contains(a, x);
        vstd::seq_lib::to_multiset_contains(b, x);
    }
    if a.no_duplicates() {
        a.lemma_multiset_has_no_duplicates();
        b.lemma_multiset_has_no_duplicates_conv();
    }
}

/// The scores of the candidates as the next cell of a shape.
pub open spec fn score_keys(grid: TriangularGrid, ids: Seq<usize>, candidates: Seq<usize>) -> Seq<u128> {
    Seq::new(
        candidates.len(),
        |i: int|
            crate::generator::shape::quality::candidate_score(
                grid@.cells@,
                grid@.center,
                grid@.size as nat,
                crate::generator::grid::geometry::lattice_radius(grid@.grid_density) as nat,
                ids,
                candidates[i],
            ) as u128,
    )
}

/// Whether `sorted` holds the candidates by falling score (or by growing
/// score, unless `descending`), candidates of the same score in the order
/// in which they stood.
pub open spec fn is_arranged_by_score(
    grid: TriangularGrid,
    ids: Seq<usize>,
    candidates: Seq<usize>,
    descending: bool,
    sorted: Seq<usize>,
) -> bool {
    exists|order: Seq<usize>|
        {
            &&& #[trigger] is_sorted_order(score_keys(grid, ids, candidates), descending, order)
            &&& sorted.len() == candidates.len()
            &&& forall|k: int| 0 <= k < sorted.len() ==> #[trigger] sorted[k] == candidates[order[k] as int]
        }
}

/// Whether a free cell shares an edge with the given cell.
pub open spec fn has_free_neighbour(cells: Seq<Cell>, used: Seq<usize>, cell: usize) -> bool {
    exists|other: usize| #[trigger] mesh_adjacent(cells, cell as int, other as int) && !used.contains(other)
}

impl<'a> ShapeGenerator<'a> {
    /// Sorts candidates by their score as the next cell of a shape.
    pub fn sort_by_score(&self, ids: &Vec<usize>, candidates: &Vec<usize>, descending: bool) -> (sorted: Vec<usize>)
        requires
            self.wf(),
            ids@.len() <= MAX_CELLS,
        ensures
            is_arranged_by_score(self.grid(), ids@, candidates@, descending, sorted@),
            sorted@.len() == candidates@.len(),
            forall|x: usize| candidates@.contains(x) <==> sorted@.contains(x),
            candidates@.no_duplicates() ==> sorted@.no_duplicates(),
    {
        let mut keys: Vec<u128> = Vec::new();
        let mut i: usize = 0;
        while i < candidates.len()
            invariant
                i <= candidates@.len(),
                self.wf(),
                ids@.len() <= MAX_CELLS,
                keys@.len() == i,
                forall|k: int| 0 <= k < i ==> #[trigger] keys@[k] == score_keys(self.grid(), ids@, candidates@)[k],
            decreases candidates@.len() - i,
        {
            keys.push(score_candidate_cell(self.grid, ids, candidates[i]) as u128);
            i = i + 1;
        }
        assert(keys@ =~= score_keys(self.grid(), ids@, candidates@));
        let order = sorted_order(&keys, descending);
        arrange(candidates, &order)
    }

    /// Puts the candidates in the order in which they are to be taken: with
    /// the chance `randomness` in a thousand a random order, else by falling
    /// score.  With no chance the order is that of the scores, with a chance
    /// of a thousand it is a shuffle.
    fn order_candidates(&mut self, ids: &Vec<usize>, candidates: Vec<usize>, randomness: u32) -> (ordered: Vec<usize>)
        requires
            old(self).wf(),
            ids@.len() <= MAX_CELLS,
        ensures
            final(self).grid() == old(self).grid(),
            ordered@.len() == candidates@.len(),
            forall|x: usize| candidates@.contains(x) <==> ordered@.contains(x),
            candidates@.no_duplicates() ==> ordered@.no_duplicates(),
            is_arranged_by_score(old(self).grid(), ids@, candidates@, true, ordered@) || ordered@.to_multiset()
                == candidates@.to_multiset(),
            randomness == 0 ==> is_arranged_by_score(old(self).grid(), ids@, candidates@, true, ordered@),
            randomness >= 1000 ==> ordered@.to_multiset() == candidates@.to_multiset(),
    {
        if random_chance(&mut self.rng, randomness) {
            let mut shuffled = candidates;
            shuffle_cells(&mut self.rng, &mut shuffled);
            proof {
                lemma_same_elements(candidates@, shuffled@);
            }
            shuffled
        } else {
            self.sort_by_score(ids, &candidates, true)
        }
    }

    /// Collects the neighbours of `current` that are neither members, nor
    /// used, nor visited, and marks them as visited.
    fn collect_candidates(
        &self,
        ids: &Vec<usize>,
        used: &Vec<usize>,
        visited: &mut Vec<usize>,
        current: usize,
    ) -> (candidates: Vec<usize>)
        ensures
            forall|k: int|
                0 <= k < candidates@.len() ==> {
                    &&& mesh_adjacent(self.grid()@.cells@, current as int, (#[trigger] candidates@[k]) as int)
                    &&& !ids@.contains(candidates@[k])
                    &&& !used@.contains(candidates@[k])
                    &&& !old(visited)@.contains(candidates@[k])
                },
            forall|other: usize|
                #[trigger] mesh_adjacent(self.grid()@.cells@, current as int, other as int) && !ids@.contains(
                    other,
                ) && !used@.contains(other) && !old(visited)@.contains(other) ==> candidates@.contains(other),
            candidates@.no_duplicates(),
            final(visited)@ == old(visited)@ + candidates@,
    {
        let ghost cells = self.grid()@.cells@;
        let around = self.grid.adjacent_cells(current);
        let mut candidates: Vec<usize> = Vec::new();
        let mut n: usize = 0;
        while n < around.len()
            invariant
                n <= around@.len(),
                cells == self.grid()@.cells@,
                is_adjacency_list(cells, current as int, around@),
                visited@ == old(visited)@ + candidates@,
                forall|k: int| 0 <= k < candidates@.len() ==> exists|m: int| 0 <= m < n && around@[m] == #[trigger] candidates@[k],
                forall|k: int|
                    0 <= k < candidates@.len() ==> {
                        &&& mesh_adjacent(cells, current as int, (#[trigger] candidates@[k]) as int)
                        &&& !ids@.contains(candidates@[k])
                        &&& !used@.contains(candidates@[k])
                        &&& !old(visited)@.contains(candidates@[k])
                    },
                forall|m: int|
                    0 <= m < n && !ids@.contains(#[trigger] around@[m]) && !used@.contains(around@[m])
                        && !old(visited)@.contains(around@[m]) ==> candidates@.contains(around@[m]),
                candidates@.no_duplicates(),
            decreases around@.len() - n,
        {
            let cell: usize = around[n];
            let ghost before = candidates@;
            let ghost seen = visited@;
            if !contains_id(ids, cell) && !contains_id(used, cell) && !contains_id(visited, cell) {
                candidates.push(cell);
                visited.push(cell);
                proof {
                    if old(visited)@.contains(cell) {
                        let v = choose|v: int| 0 <= v < old(visited)@.len() && old(visited)@[v] == cell;
                        assert(seen[v] == cell);
                    }
                    assert(visited@ =~= old(visited)@ + candidates@);
                    assert(candidates@[before.len() as int] == cell);
                    assert(mesh_adjacent(cells, current as int, around@[n as int] as int));
                    assert forall|k: int| 0 <= k < before.len() implies before[k] != cell by {
                        let m = choose|m: int| 0 <= m < n && around@[m] == before[k];
                        assert(around@[m] < around@[n as int]);
                    }
                }
            } else {
                proof {
                    if visited@.contains(cell) && !old(visited)@.contains(cell) {
                        let v = choose|v: int| 0 <= v < visited@.len() && visited@[v] == cell;
                        assert(v >= old(visited)@.len());
                        assert(candidates@[v - old(visited)@.len()] == cell);
                    }
                }
            }
            proof {
                assert forall|x: usize| before.contains(x) implies candidates@.contains(x) by {
                    let k = choose|k: int| 0 <= k < before.len() && before[k] == x;
                    assert(candidates@[k] == x);
                }
                assert forall|k: int| 0 <= k < candidates@.len() implies exists|m: int|
                    0 <= m < n + 1 && around@[m] == #[trigger] candidates@[k] by {
                    if k < before.len() {
                        let m = choose|m: int| 0 <= m < n && around@[m] == before[k];
                        assert(around@[m] == candidates@[k]);
                    } else {
                        assert(around@[n as int] == candidates@[k]);
                    }
                }
            }
            n = n + 1;
        }
        proof {
            assert forall|other: usize|
                #[trigger] mesh_adjacent(cells, current as int, other as int) && !ids@.contains(other)
                    && !used@.contains(other) && !old(visited)@.contains(other) implies candidates@.contains(
                other,
            ) by {
                assert(around@.contains(other));
                let m = choose|m: int| 0 <= m < around@.len() && around@[m] == other;
                assert(candidates@.contains(around@[m]));
            }
        }
        candidates
    }

    /// Adds the cells of `ordered`, in order, until the shape has `cap`
    /// cells, and queues the added cells.
    fn add_candidates(
        &self,
        shape: &mut Shape,
        queue: &mut Vec<usize>,
        ordered: &Vec<usize>,
        cap: usize,
        used: &Vec<usize>,
        current: usize,
    )
        requires
            is_grown(self.grid()@.cells@, old(shape).cells@),
            avoids(old(shape).cells@, used@),
            old(shape).cells@.contains(current),
            old(shape).cells@.len() <= cap,
            forall|q: int| 0 <= q < old(queue)@.len() ==> old(shape).cells@.contains(#[trigger] old(queue)@[q]),
            forall|k: int|
                0 <= k < ordered@.len() ==> mesh_adjacent(
                    self.grid()@.cells@,
                    current as int,
                    (#[trigger] ordered@[k]) as int,
                ) && !used@.contains(ordered@[k]),
        ensures
            is_grown(self.grid()@.cells@, final(shape).cells@),
            avoids(final(shape).cells@, used@),
            extends(old(shape).cells@, final(shape).cells@),
            final(shape).cells@.len() <= cap,
            final(shape).color == old(shape).color,
            final(shape).opacity == old(shape).opacity,
            extends(old(queue)@, final(queue)@),
            forall|q: int| 0 <= q < final(queue)@.len() ==> final(shape).cells@.contains(#[trigger] final(queue)@[q]),
            ordered@.len() > 0 && old(shape).cells@.len() < cap ==> final(shape).cells@.len() > old(
                shape,
            ).cells@.len() || old(shape).cells@.contains(ordered@[0]),
    {
        let ghost cells = self.grid()@.cells@;
        let mut k: usize = 0;
        while k < ordered.len() && shape.cell_count() < cap
            invariant
                k <= ordered@.len(),
                cells == self.grid()@.cells@,
                is_grown(cells, shape.cells@),
                avoids(shape.cells@, used@),
                extends(old(shape).cells@, shape.cells@),
                shape.cells@.contains(current),
                shape.cells@.len() <= cap,
                shape.color == old(shape).color,
                shape.opacity == old(shape).opacity,
                extends(old(queue)@, queue@),
                forall|q: int| 0 <= q < queue@.len() ==> shape.cells@.contains(#[trigger] queue@[q]),
                forall|m: int|
                    0 <= m < ordered@.len() ==> mesh_adjacent(cells, current as int, (#[trigger] ordered@[m]) as int)
                        && !used@.contains(ordered@[m]),
                k > 0 ==> shape.cells@.len() > old(shape).cells@.len() || old(shape).cells@.contains(ordered@[0]),
            decreases ordered@.len() - k,
        {
            let cell: usize = ordered[k];
            let ghost before = shape.cells@;
            let ghost queued = queue@;
            proof {
                if !before.contains(cell) {
                    let at = choose|at: int| 0 <= at < before.len() && before[at] == current;
                    lemma_push_grown(cells, before, cell, at);
                } else if k == 0 {
                    let at = choose|at: int| 0 <= at < before.len() && before[at] == cell;
                    if at >= old(shape).cells@.len() {
                    } else {
                        assert(old(shape).cells@[at] == cell);
                    }
                }
            }
            shape.add_cell(cell);
            queue.push(cell);
            proof {
                let after = shape.cells@;
                assert forall|x: usize| before.contains(x) implies after.contains(x) by {
                    let i = choose|i: int| 0 <= i < before.len() && before[i] == x;
                    assert(after[i] == x);
                }
                if !before.contains(cell) {
                    assert(after[before.len() as int] == cell);
                }
                assert(after.contains(cell));
                assert forall|q: int| 0 <= q < queue@.len() implies after.contains(#[trigger] queue@[q]) by {
                    if q < queued.len() {
                        assert(before.contains(queued[q]));
                    }
                }
            }
            k = k + 1;
        }
    }

    /// Grows a shape that holds its seed cell only, breadth first: the
    /// neighbours of the cells are taken in the order in which the cells were
    /// added, until the shape has `cap` cells or no cell is left to visit.
    fn grow(&mut self, shape: &mut Shape, cap: usize, used: &Vec<usize>, randomness: u32)
        requires
            old(self).wf(),
            is_grown(old(self).grid()@.cells@, old(shape).cells@),
            avoids(old(shape).cells@, used@),
            old(shape).cells@.len() == 1,
            1 <= cap <= MAX_CELLS,
        ensures
            final(self).grid() == old(self).grid(),
            is_grown(old(self).grid()@.cells@, final(shape).cells@),
            avoids(final(shape).cells@, used@),
            extends(old(shape).cells@, final(shape).cells@),
            final(shape).cells@.len() <= cap,
            final(shape).color == old(shape).color,
            final(shape).opacity == old(shape).opacity,
            cap >= 2 && has_free_neighbour(old(self).grid()@.cells@, used@, old(shape).cells@[0])
                ==> final(shape).cells@.len() >= 2,
    {
        let ghost cells = self.grid()@.cells@;
        let seed: usize = shape.cells[0];
        let max_attempts: usize = 3 * cap;
        let mut attempts: usize = 0;
        let mut queue: Vec<usize> = Vec::new();
        queue.push(seed);
        let mut head: usize = 0;
        let mut visited: Vec<usize> = Vec::new();
        visited.push(seed);
        while shape.cell_count() < cap && attempts < max_attempts && head < queue.len()
            invariant
                self.wf(),
                self.grid() == old(self).grid(),
                cells == self.grid()@.cells@,
                1 <= cap <= MAX_CELLS,
                max_attempts == 3 * cap,
                attempts <= max_attempts,
                head <= queue@.len(),
                is_grown(cells, shape.cells@),
                avoids(shape.cells@, used@),
                extends(old(shape).cells@, shape.cells@),
                shape.cells@.len() <= cap,
                shape.color == old(shape).color,
                shape.opacity == old(shape).opacity,
                seed == old(shape).cells@[0],
                forall|q: int| 0 <= q < queue@.len() ==> shape.cells@.contains(#[trigger] queue@[q]),
                attempts == 0 ==> head == 0 && queue@ == seq![seed] && visited@ == seq![seed] && shape.cells@
                    == seq![seed],
                attempts > 0 && cap >= 2 && has_free_neighbour(cells, used@, seed) ==> shape.cells@.len() >= 2,
            decreases max_attempts - attempts,
        {
            let ghost first = attempts == 0;
            attempts = attempts + 1;
            let current: usize = queue[head];
            head = head + 1;
            let ghost before = shape.cells@;
            let candidates = self.collect_candidates(&shape.cells, used, &mut visited, current);
            let ordered = self.order_candidates(&shape.cells, candidates, randomness);
            proof {
                assert forall|k: int| 0 <= k < ordered@.len() implies mesh_adjacent(
                    cells,
                    current as int,
                    (#[trigger] ordered@[k]) as int,
                ) && !used@.contains(ordered@[k]) && !before.contains(ordered@[k]) by {
                    assert(ordered@.contains(ordered@[k]));
                    let c = choose|c: int| 0 <= c < candidates@.len() && candidates@[c] == ordered@[k];
                    assert(mesh_adjacent(cells, current as int, candidates@[c] as int));
                }
                if first && cap >= 2 && has_free_neighbour(cells, used@, seed) {
                    let other = choose|other: usize| #[trigger]
                        mesh_adjacent(cells, seed as int, other as int) && !used@.contains(other);
                    assert(before =~= seq![seed]);
                    assert(!before.contains(other));
                    assert(candidates@.contains(other));
                    assert(ordered@.len() > 0);
                    assert(!before.contains(ordered@[0]));
                }
            }
            self.add_candidates(shape, &mut queue, &ordered, cap, used, current);
        }
    }
}

/// Whether a cell of the shape shares an edge with the given cell.
pub open spec fn touches_member(cells: Seq<Cell>, ids: Seq<usize>, cell: usize) -> bool {
    exists|m: int| 0 <= m < ids.len() && #[trigger] mesh_adjacent(cells, ids[m] as int, cell as int)
}

/// Whether a cell of the mesh is free.
pub open spec fn has_free_cell(cells: Seq<Cell>, used: Seq<usize>) -> bool {
    exists|cell: usize| cell < cells.len() && !#[trigger] used.contains(cell)
}

/// The smaller of two numbers.
pub fn smaller(a: usize, b: usize) -> (least: usize)
    ensures
        least == (if a < b {
            a
        } else {
            b
        }),
{
    if a < b {
        a
    } else {
        b
    }
}

impl<'a> ShapeGenerator<'a> {
    /// Lists the members that have a neighbour outside the shape.
    fn boundary_members(&self, ids: &Vec<usize>) -> (boundary: Vec<usize>)
        ensures
            boundary@ == notches::boundary_of(self.grid()@.cells@, ids@),
            forall|k: int| 0 <= k < boundary@.len() ==> ids@.contains(#[trigger] boundary@[k]),
    {
        let mut boundary: Vec<usize> = Vec::new();
        let mut i: usize = 0;
        while i < ids.len()
            invariant
                i <= ids@.len(),
                boundary@ == notches::boundary_members(self.grid()@.cells@, ids@, i as nat),
                forall|k: int| 0 <= k < boundary@.len() ==> ids@.contains(#[trigger] boundary@[k]),
            decreases ids@.len() - i,
        {
            if crate::generator::shape::quality::count_neighbours(self.grid, ids[i], ids, false) > 0 {
                boundary.push(ids[i]);
            }
            i = i + 1;
        }
        boundary
    }

    /// Counts the cells of `around` that are boundary members.
    fn count_boundary_links(around: &Vec<usize>, ids: &Vec<usize>, boundary: &Vec<usize>) -> (count: usize)
        ensures
            count == notches::boundary_links(around@, ids@, boundary@, around@.len()),
            count <= around@.len(),
    {
        let mut count: usize = 0;
        let mut n: usize = 0;
        while n < around.len()
            invariant
                n <= around@.len(),
                count <= n,
                count == notches::boundary_links(around@, ids@, boundary@, n as nat),
            decreases around@.len() - n,
        {
            if contains_id(ids, around[n]) && contains_id(boundary, around[n]) {
                count = count + 1;
            }
            n = n + 1;
        }
        count
    }

    /// Lists the cells outside the shape that touch a boundary member among
    /// the cells of `around`, each once.
    fn external_cells(&self, around: &Vec<usize>, ids: &Vec<usize>, boundary: &Vec<usize>) -> (external: Vec<usize>)
        ensures
            external@ == notches::external_cells(self.grid()@.cells@, around@, ids@, boundary@, around@.len()),
            forall|k: int|
                0 <= k < external@.len() ==> touches_member(self.grid()@.cells@, ids@, #[trigger] external@[k])
                    && !ids@.contains(external@[k]),
    {
        let ghost cells = self.grid()@.cells@;
        let mut external: Vec<usize> = Vec::new();
        let mut n: usize = 0;
        while n < around.len()
            invariant
                n <= around@.len(),
                cells == self.grid()@.cells@,
                external@ == notches::external_cells(cells, around@, ids@, boundary@, n as nat),
                forall|k: int|
                    0 <= k < external@.len() ==> touches_member(cells, ids@, #[trigger] external@[k])
                        && !ids@.contains(external@[k]),
            decreases around@.len() - n,
        {
            let member: usize = around[n];
            if contains_id(ids, member) && contains_id(boundary, member) {
                let beyond = self.grid.adjacent_cells(member);
                let ghost found = external@;
                let mut m: usize = 0;
                while m < beyond.len()
                    invariant
                        m <= beyond@.len(),
                        cells == self.grid()@.cells@,
                        ids@.contains(member),
                        external@ == notches::add_external(found, beyond@, ids@, m as nat),
                        is_adjacency_list(cells, member as int, beyond@),
                        forall|k: int|
                            0 <= k < external@.len() ==> touches_member(cells, ids@, #[trigger] external@[k])
                                && !ids@.contains(external@[k]),
                    decreases beyond@.len() - m,
                {
                    let cell: usize = beyond[m];
                    if !contains_id(ids, cell) && !contains_id(&external, cell) {
                        proof {
                            let at = choose|at: int| 0 <= at < ids@.len() && ids@[at] == member;
                            assert(mesh_adjacent(cells, ids@[at] as int, beyond@[m as int] as int));
                            assert(touches_member(cells, ids@, cell));
                        }
                        external.push(cell);
                    }
                    m = m + 1;
                }
            }
            n = n + 1;
        }
        external
    }

    /// Lists the free cells that would fill a notch of the shape: cells
    /// outside it that touch two or more of its boundary cells, found from
    /// the boundary cells that touch two or more boundary cells themselves.
    fn notch_cells(&self, ids: &Vec<usize>, used: &Vec<usize>) -> (notches: Vec<usize>)
        ensures
            notches@ == notches::notch_cells(self.grid()@.cells@, ids@, used@),
            forall|k: int|
                0 <= k < notches@.len() ==> {
                    &&& touches_member(self.grid()@.cells@, ids@, #[trigger] notches@[k])
                    &&& !ids@.contains(notches@[k])
                    &&& !used@.contains(notches@[k])
                },
    {
        let ghost cells = self.grid()@.cells@;
        let boundary = self.boundary_members(ids);
        let mut notches: Vec<usize> = Vec::new();
        let mut b: usize = 0;
        while b < boundary.len()
            invariant
                b <= boundary@.len(),
                cells == self.grid()@.cells@,
                boundary@ == notches::boundary_of(cells, ids@),
                notches@ == notches::notches_around(cells, ids@, boundary@, used@, b as nat),
                forall|k: int|
                    0 <= k < notches@.len() ==> {
                        &&& touches_member(cells, ids@, #[trigger] notches@[k])
                        &&& !ids@.contains(notches@[k])
                        &&& !used@.contains(notches@[k])
                    },
            decreases boundary@.len() - b,
        {
            let around = self.grid.adjacent_cells(boundary[b]);
            if Self::count_boundary_links(&around, ids, &boundary) >= 2 {
                let external = self.external_cells(&around, ids, &boundary);
                let ghost found = notches@;
                let mut e: usize = 0;
                while e < external.len()
                    invariant
                        e <= external@.len(),
                        cells == self.grid()@.cells@,
                        notches@ == notches::add_notches(cells, found, external@, ids@, boundary@, used@, e as nat),
                        forall|k: int|
                            0 <= k < external@.len() ==> touches_member(cells, ids@, #[trigger] external@[k])
                                && !ids@.contains(external@[k]),
                        forall|k: int|
                            0 <= k < notches@.len() ==> {
                                &&& touches_member(cells, ids@, #[trigger] notches@[k])
                                &&& !ids@.contains(notches@[k])
                                &&& !used@.contains(notches@[k])
                            },
                    decreases external@.len() - e,
                {
                    let cell: usize = external[e];
                    let links = self.grid.adjacent_cells(cell);
                    if Self::count_boundary_links(&links, ids, &boundary) >= 2 && !contains_id(used, cell) {
                        notches.push(cell);
                    }
                    e = e + 1;
                }
            }
            b = b + 1;
        }
        notches
    }

    /// Fills notches of a shape of three or more cells that is below `cap`
    /// cells: of the free cells that would fill a notch, ordered by falling
    /// score, a start of random length is added, up to `cap` cells in all.
    pub fn smooth_avoiding(&mut self, shape: &mut Shape, cap: usize, used: &Vec<usize>)
        requires
            old(self).wf(),
            is_grown(old(self).grid()@.cells@, old(shape).cells@),
            avoids(old(shape).cells@, used@),
        ensures
            final(self).grid() == old(self).grid(),
            is_grown(old(self).grid()@.cells@, final(shape).cells@),
            avoids(final(shape).cells@, used@),
            extends(old(shape).cells@, final(shape).cells@),
            final(shape).cells@.len() <= cap || final(shape).cells@ == old(shape).cells@,
            old(shape).cells@.len() < 3 ==> final(shape).cells@ == old(shape).cells@,
            notches::is_smoothed(old(self).grid(), old(shape).cells@, cap as int, used@, final(shape).cells@),
            final(shape).color == old(shape).color,
            final(shape).opacity == old(shape).opacity,
    {
        let ghost cells = self.grid()@.cells@;
        if shape.cell_count() < 3 || shape.cell_count() >= cap {
            return;
        }
        proof {
            lemma_grown_size(self.grid, shape.cells@);
        }
        let notches = self.notch_cells(&shape.cells, used);
        let sorted = self.sort_by_score(&shape.cells, &notches, true);
        let fill_count: usize = if sorted.len() == 0 {
            0
        } else {
            random_between(&mut self.rng, 0, sorted.len())
        };
        proof {
            assert forall|k: int| 0 <= k < sorted@.len() implies touches_member(
                cells,
                shape.cells@,
                #[trigger] sorted@[k],
            ) && !used@.contains(sorted@[k]) by {
                assert(sorted@.contains(sorted@[k]));
                let c = choose|c: int| 0 <= c < notches@.len() && notches@[c] == sorted@[k];
                assert(touches_member(cells, shape.cells@, notches@[c]));
            }
        }
        let ghost before = shape.cells@;
        fill_notches(shape, &sorted, fill_count, cap);
        proof {
            let taken = choose|taken: int| is_filled(before, sorted@, fill_count as int, cap as int, taken, shape.cells@);
            lemma_filled_grown(cells, before, sorted@, used@, taken);
            assert(notches::is_smoothed_by(
                old(self).grid(),
                before,
                cap as int,
                used@,
                sorted@,
                fill_count as int,
                taken,
                shape.cells@,
            ));
        }
    }

    /// Fills notches of a shape, whatever cells other shapes use.
    pub fn smooth_shape(&mut self, shape: &mut Shape, target_size: usize)
        requires
            old(self).wf(),
            is_grown(old(self).grid()@.cells@, old(shape).cells@),
        ensures
            final(self).grid() == old(self).grid(),
            is_grown(old(self).grid()@.cells@, final(shape).cells@),
            extends(old(shape).cells@, final(shape).cells@),
            final(shape).cells@.len() <= target_size || final(shape).cells@ == old(shape).cells@,
            old(shape).cells@.len() < 3 ==> final(shape).cells@ == old(shape).cells@,
            notches::is_smoothed(
                old(self).grid(),
                old(shape).cells@,
                target_size as int,
                Seq::<usize>::empty(),
                final(shape).cells@,
            ),
            final(shape).color == old(shape).color,
            final(shape).opacity == old(shape).opacity,
    {
        let used: Vec<usize> = Vec::new();
        assert(used@ =~= Seq::<usize>::empty());
        self.smooth_avoiding(shape, target_size, &used);
    }

    /// Grows a shape from a seed that is already its only cell, and smooths
    /// it unless the draw for `randomness` says otherwise.
    fn grow_and_smooth(&mut self, shape: &mut Shape, target_size: usize, used: &Vec<usize>)
        requires
            old(self).wf(),
            is_grown(old(self).grid()@.cells@, old(shape).cells@),
            avoids(old(shape).cells@, used@),
            old(shape).cells@.len() == 1,
            target_size >= 1,
        ensures
            final(self).grid() == old(self).grid(),
            is_grown(old(self).grid()@.cells@, final(shape).cells@),
            avoids(final(shape).cells@, used@),
            extends(old(shape).cells@, final(shape).cells@),
            final(shape).cells@.len() <= target_size,
            final(shape).cells@.len() <= MAX_CELLS,
            final(shape).color == old(shape).color,
            final(shape).opacity == old(shape).opacity,
            target_size >= 2 && has_free_neighbour(old(self).grid()@.cells@, used@, old(shape).cells@[0])
                ==> final(shape).cells@.len() >= 2,
    {
        proof {
            lemma_mesh_size(self.grid);
        }
        let cap: usize = smaller(target_size, self.grid.cell_count());
        let randomness: u32 = random_between(&mut self.rng, 100, 399) as u32;
        self.grow(shape, cap, used, randomness);
        if !random_chance(&mut self.rng, randomness) {
            self.smooth_avoiding(shape, cap, used);
        }
    }

    /// Grows a shape from the middle of the hexagon: the seed is the cell
    /// nearest to the center or, one time in five, one of the three
    /// nearest.
    pub fn generate_center_shape(&mut self, color: String, opacity: u16, target_size: usize) -> (shape: Shape)
        requires
            old(self).wf(),
        ensures
            final(self).grid() == old(self).grid(),
            shape.color == color,
            shape.opacity == opacity,
            is_grown(old(self).grid()@.cells@, shape.cells@),
            shape.cells@.len() <= target_size,
            shape.cells@.len() <= MAX_CELLS,
            target_size > 0 ==> shape.cells@.len() > 0 && is_near_center(
                old(self).grid()@.cells@,
                old(self).grid()@.center,
                shape.cells@[0],
            ),
            target_size >= 2 ==> shape.cells@.len() >= 2,
    {
        let ghost cells = self.grid()@.cells@;
        let mut shape = Shape::new(color, opacity);
        if target_size == 0 {
            return shape;
        }
        proof {
            lemma_mesh_size(self.grid);
        }
        let center_cells = self.find_center_cells();
        let start_index: usize = if random_chance(&mut self.rng, 800) {
            0
        } else {
            random_below(&mut self.rng, smaller(center_cells.len(), 3))
        };
        let start: usize = center_cells[start_index];
        shape.add_cell(start);
        let used: Vec<usize> = Vec::new();
        proof {
            assert(shape.cells@ =~= seq![start]);
            assert(is_center_order(cells, self.grid()@.center, center_cells@));
            assert(center_cells@[start_index as int] == start);
            assert(is_near_center(cells, self.grid()@.center, start));
            lemma_start_has_neighbour(self.grid, start, used@);
        }
        self.grow_and_smooth(&mut shape, target_size, &used);
        shape
    }

    /// Grows a shape from the free cell nearest to the center, on free cells
    /// only.  Without a free cell the shape stays empty.
    pub fn generate_shape_avoiding_cells(
        &mut self,
        color: String,
        opacity: u16,
        target_size: usize,
        used_cells: &Vec<usize>,
    ) -> (shape: Shape)
        requires
            old(self).wf(),
        ensures
            final(self).grid() == old(self).grid(),
            shape.color == color,
            shape.opacity == opacity,
            is_grown(old(self).grid()@.cells@, shape.cells@),
            avoids(shape.cells@, used_cells@),
            shape.cells@.len() <= target_size,
            shape.cells@.len() <= MAX_CELLS,
            shape.cells@.len() > 0 <==> target_size > 0 && has_free_cell(old(self).grid()@.cells@, used_cells@),
            shape.cells@.len() > 0 ==> is_nearest_free(
                old(self).grid()@.cells@,
                old(self).grid()@.center,
                used_cells@,
                shape.cells@[0],
            ),
            target_size >= 2 && shape.cells@.len() > 0 && has_free_neighbour(
                old(self).grid()@.cells@,
                used_cells@,
                shape.cells@[0],
            ) ==> shape.cells@.len() >= 2,
    {
        let ghost cells = self.grid()@.cells@;
        let mut shape = Shape::new(color, opacity);
        if target_size == 0 {
            return shape;
        }
        let center_cells = self.find_center_cells();
        let mut rank: usize = 0;
        while rank < center_cells.len() && contains_id(used_cells, center_cells[rank])
            invariant
                rank <= center_cells@.len(),
                forall|q: int| 0 <= q < rank ==> used_cells@.contains(#[trigger] center_cells@[q]),
            decreases center_cells@.len() - rank,
        {
            rank = rank + 1;
        }
        if rank >= center_cells.len() {
            proof {
                assert forall|cell: usize| cell < cells.len() implies #[trigger] used_cells@.contains(cell) by {
                    assert(center_cells@.contains(cell));
                    let q = choose|q: int| 0 <= q < center_cells@.len() && center_cells@[q] == cell;
                    assert(used_cells@.contains(center_cells@[q]));
                }
            }
            return shape;
        }
        let start: usize = center_cells[rank];
        shape.add_cell(start);
        proof {
            assert(shape.cells@ =~= seq![start]);
            assert(is_center_order(cells, self.grid()@.center, center_cells@));
            assert(center_cells@[rank as int] == start);
            assert(is_nearest_free(cells, self.grid()@.center, used_cells@, start));
            assert(start < cells.len() && !used_cells@.contains(start));
        }
        self.grow_and_smooth(&mut shape, target_size, used_cells);
        shape
    }
}

/// Whether `after` is `before` with the first `taken` candidates added, and
/// `taken` is as large as the rules allow: candidates are added in order
/// while fewer than `count` are added, the shape is below `cap` cells and
/// the next candidate is new.
pub open spec fn is_filled(
    before: Seq<usize>,
    candidates: Seq<usize>,
    count: int,
    cap: int,
    taken: int,
    after: Seq<usize>,
) -> bool {
    &&& 0 <= taken <= candidates.len()
    &&& taken <= count
    &&& taken > 0 ==> before.len() + taken <= cap
    &&& after == before + candidates.subrange(0, taken)
    &&& forall|q: int| 0 <= q < taken ==> !(before + candidates.subrange(0, q)).contains(#[trigger] candidates[q])
    &&& taken == candidates.len() || taken == count || before.len() + taken >= cap || after.contains(
        candidates[taken],
    )
}

/// Adds candidates to a shape, in order, while fewer than `count` are added,
/// the shape is below `cap` cells and the next candidate is new.
pub fn fill_notches(shape: &mut Shape, candidates: &Vec<usize>, count: usize, cap: usize)
    ensures
        exists|taken: int| is_filled(old(shape).cells@, candidates@, count as int, cap as int, taken, final(shape).cells@),
        final(shape).color == old(shape).color,
        final(shape).opacity == old(shape).opacity,
{
    let mut i: usize = 0;
    proof {
        assert(old(shape).cells@ + candidates@.subrange(0, 0) =~= old(shape).cells@);
    }
    while i < candidates.len() && i < count && shape.cell_count() < cap && !shape.contains_cell(candidates[i])
        invariant
            i <= candidates@.len(),
            i <= count,
            i > 0 ==> old(shape).cells@.len() + i <= cap,
            shape.cells@ == old(shape).cells@ + candidates@.subrange(0, i as int),
            forall|q: int|
                0 <= q < i ==> !(old(shape).cells@ + candidates@.subrange(0, q)).contains(#[trigger] candidates@[q]),
            shape.color == old(shape).color,
            shape.opacity == old(shape).opacity,
        decreases candidates@.len() - i,
    {
        let ghost before = shape.cells@;
        shape.add_cell(candidates[i]);
        proof {
            assert(candidates@.subrange(0, i + 1) =~= candidates@.subrange(0, i as int).push(candidates@[i as int]));
            assert(shape.cells@ =~= old(shape).cells@ + candidates@.subrange(0, i + 1));
        }
        i = i + 1;
    }
    proof {
        assert(is_filled(old(shape).cells@, candidates@, count as int, cap as int, i as int, shape.cells@));
    }
}

/// A grown shape on free cells stays one when cells are filled in that are
/// free and touch it.
pub proof fn lemma_filled_grown(cells: Seq<Cell>, before: Seq<usize>, candidates: Seq<usize>, used: Seq<usize>, taken: int)
    requires
        is_grown(cells, before),
        avoids(before, used),
        0 <= taken <= candidates.len(),
        forall|k: int|
            0 <= k < candidates.len() ==> touches_member(cells, before, #[trigger] candidates[k]) && !used.contains(
                candidates[k],
            ),
        forall|q: int| 0 <= q < taken ==> !(before + candidates.subrange(0, q)).contains(#[trigger] candidates[q]),
    ensures
        is_grown(cells, before + candidates.subrange(0, taken)),
        avoids(before + candidates.subrange(0, taken), used),
        extends(before, before + candidates.subrange(0, taken)),
    decreases taken,
{
    if taken == 0 {
        assert(before + candidates.subrange(0, 0) =~= before);
    } else {
        lemma_filled_grown(cells, before, candidates, used, taken - 1);
        let so_far = before + candidates.subrange(0, taken - 1);
        let cell = candidates[taken - 1];
        assert(before + candidates.subrange(0, taken) =~= so_far.push(cell));
        lemma_touches_extended(cells, before, so_far, cell);
        let m = choose|m: int| 0 <= m < so_far.len() && #[trigger] mesh_adjacent(cells, so_far[m] as int, cell as int);
        lemma_push_grown(cells, so_far, cell, m);
    }
}

/// Whether a free cell touches a used cell.
pub open spec fn has_boundary(cells: Seq<Cell>, used: Seq<usize>) -> bool {
    exists|cell: usize| #[trigger] touches_used(cells, used, cell)
}

/// A cell that touches a shape touches every shape that starts with it.
pub proof fn lemma_touches_extended(cells: Seq<Cell>, before: Seq<usize>, after: Seq<usize>, cell: usize)
    requires
        touches_member(cells, before, cell),
        extends(before, after),
    ensures
        touches_member(cells, after, cell),
{
    let m = choose|m: int| 0 <= m < before.len() && #[trigger] mesh_adjacent(cells, before[m] as int, cell as int);
    assert(after[m] == before[m]);
    assert(mesh_adjacent(cells, after[m] as int, cell as int));
}

/// A cell of a shape is a cell of every shape that starts with it.
pub proof fn lemma_contains_extended(before: Seq<usize>, after: Seq<usize>, cell: usize)
    requires
        before.contains(cell),
        extends(before, after),
    ensures
        after.contains(cell),
{
    let m = choose|m: int| 0 <= m < before.len() && before[m] == cell;
    assert(after[m] == cell);
}

/// Whether `best` is the first position of the largest key.
pub open spec fn is_best(keys: Seq<u128>, best: int) -> bool {
    &&& 0 <= best < keys.len()
    &&& forall|j: int| 0 <= j < keys.len() ==> keys[j] <= keys[best]
    &&& forall|j: int| 0 <= j < best ==> keys[j] < keys[best]
}

/// Picks the candidate with the largest key, the first of them where several
/// have it.  Without candidates, or where not every candidate has a key,
/// there is nothing to pick.
pub fn select_best(candidates: Vec<Shape>, keys: &Vec<u128>) -> (best: Option<Shape>)
    ensures
        candidates@.len() == 0 || keys@.len() != candidates@.len() ==> best.is_none(),
        candidates@.len() > 0 && keys@.len() == candidates@.len() ==> best.is_some() && exists|at: int| #[trigger]
            is_best(keys@, at) && best == Some(candidates@[at]),
{
    if candidates.len() == 0 || keys.len() != candidates.len() {
        return None;
    }
    let mut at: usize = 0;
    let mut j: usize = 1;
    while j < keys.len()
        invariant
            1 <= j <= keys@.len(),
            at < j,
            forall|k: int| 0 <= k < j ==> keys@[k] <= keys@[at as int],
            forall|k: int| 0 <= k < at ==> keys@[k] < keys@[at as int],
        decreases keys@.len() - j,
    {
        if keys[j] > keys[at] {
            at = j;
        }
        j = j + 1;
    }
    let mut candidates = candidates;
    let ghost all = candidates@;
    let shape = candidates.swap_remove(at);
    assert(is_best(keys@, at as int) && shape == all[at as int]);
    Some(shape)
}

/// Takes the cell at `at` out of the list.
fn take_at(list: &mut Vec<usize>, at: usize) -> (cell: usize)
    requires
        at < old(list)@.len(),
    ensures
        cell == old(list)@[at as int],
        final(list)@.len() == old(list)@.len() - 1,
        forall|k: int| 0 <= k < final(list)@.len() ==> old(list)@.contains(#[trigger] final(list)@[k]),
{
    let cell = list.remove(at);
    proof {
        assert forall|k: int| 0 <= k < list@.len() implies old(list)@.contains(#[trigger] list@[k]) by {
            if k < at {
                assert(old(list)@[k] == list@[k]);
            } else {
                assert(old(list)@[k + 1] == list@[k]);
            }
        }
    }
    cell
}

/// Finds the position of a cell in a list.
fn position_of(list: &Vec<usize>, cell: usize) -> (position: usize)
    ensures
        position <= list@.len(),
        position < list@.len() ==> list@[position as int] == cell,
        forall|k: int| 0 <= k < position ==> list@[k] != cell,
{
    let mut k: usize = 0;
    while k < list.len() && list[k] != cell
        invariant
            k <= list@.len(),
            forall|m: int| 0 <= m < k ==> list@[m] != cell,
        decreases list@.len() - k,
    {
        k = k + 1;
    }
    k
}

impl<'a> ShapeGenerator<'a> {
    /// Sorts cells by growing distance from the center of the hexagon.
    fn sort_by_center_rank(&self, cells: &Vec<usize>) -> (sorted: Vec<usize>)
        ensures
            sorted@.len() == cells@.len(),
            forall|x: usize| cells@.contains(x) <==> sorted@.contains(x),
    {
        let center_cells = self.find_center_cells();
        let mut keys: Vec<u128> = Vec::new();
        let mut i: usize = 0;
        while i < cells.len()
            invariant
                i <= cells@.len(),
                keys@.len() == i,
            decreases cells@.len() - i,
        {
            keys.push(position_of(&center_cells, cells[i]) as u128);
            i = i + 1;
        }
        let order = sorted_order(&keys, false);
        arrange(cells, &order)
    }

    /// Adds to the frontier the neighbours of `cell` that are neither
    /// members nor in the frontier.
    fn extend_frontier(&self, ids: &Vec<usize>, frontier: &mut Vec<usize>, cell: usize)
        requires
            ids@.contains(cell),
            forall|k: int|
                0 <= k < old(frontier)@.len() ==> touches_member(
                    self.grid()@.cells@,
                    ids@,
                    #[trigger] old(frontier)@[k],
                ),
        ensures
            forall|k: int|
                0 <= k < final(frontier)@.len() ==> touches_member(
                    self.grid()@.cells@,
                    ids@,
                    #[trigger] final(frontier)@[k],
                ),
            forall|k: int|
                0 <= k < final(frontier)@.len() ==> old(frontier)@.contains(#[trigger] final(frontier)@[k]) || (
                mesh_adjacent(self.grid()@.cells@, cell as int, final(frontier)@[k] as int) && !ids@.contains(
                    final(frontier)@[k],
                )),
            forall|other: usize|
                #[trigger] mesh_adjacent(self.grid()@.cells@, cell as int, other as int) && !ids@.contains(other)
                    ==> final(frontier)@.contains(other),
    {
        let ghost cells = self.grid()@.cells@;
        let around = self.grid.adjacent_cells(cell);
        let mut n: usize = 0;
        while n < around.len()
            invariant
                n <= around@.len(),
                cells == self.grid()@.cells@,
                ids@.contains(cell),
                is_adjacency_list(cells, cell as int, around@),
                forall|k: int| 0 <= k < frontier@.len() ==> touches_member(cells, ids@, #[trigger] frontier@[k]),
                forall|k: int|
                    0 <= k < frontier@.len() ==> old(frontier)@.contains(#[trigger] frontier@[k]) || (mesh_adjacent(
                        cells,
                        cell as int,
                        frontier@[k] as int,
                    ) && !ids@.contains(frontier@[k])),
                forall|m: int| 0 <= m < n && !ids@.contains(#[trigger] around@[m]) ==> frontier@.contains(around@[m]),
            decreases around@.len() - n,
        {
            let next: usize = around[n];
            let ghost before = frontier@;
            if !contains_id(ids, next) && !contains_id(frontier, next) {
                proof {
                    let at = choose|at: int| 0 <= at < ids@.len() && ids@[at] == cell;
                    assert(mesh_adjacent(cells, ids@[at] as int, around@[n as int] as int));
                    assert(touches_member(cells, ids@, next));
                }
                frontier.push(next);
                proof {
                    assert(frontier@[before.len() as int] == next);
                }
            }
            proof {
                assert forall|x: usize| before.contains(x) implies frontier@.contains(x) by {
                    let k = choose|k: int| 0 <= k < before.len() && before[k] == x;
                    assert(frontier@[k] == x);
                }
                assert forall|k: int| 0 <= k < frontier@.len() implies old(frontier)@.contains(
                    #[trigger] frontier@[k],
                ) || (mesh_adjacent(cells, cell as int, frontier@[k] as int) && !ids@.contains(frontier@[k])) by {
                    if k < before.len() {
                        assert(frontier@[k] == before[k]);
                    } else {
                        assert(mesh_adjacent(cells, cell as int, around@[n as int] as int));
                    }
                }
            }
            n = n + 1;
        }
        proof {
            assert forall|other: usize|
                #[trigger] mesh_adjacent(cells, cell as int, other as int) && !ids@.contains(
                    other,
                ) implies frontier@.contains(other) by {
                assert(around@.contains(other));
                let m = choose|m: int| 0 <= m < around@.len() && around@[m] == other;
                assert(frontier@.contains(around@[m]));
            }
        }
    }

    /// Grows one candidate for an angular shape: layer by layer from the
    /// middle of the hexagon, one cell of the frontier at a time, mostly one
    /// of the better half, and now and then the worst cell of the frontier is
    /// dropped.
    pub fn generate_angular_shape_candidate(&mut self, color: String, opacity: u16, target_size: usize) -> (shape: Shape)
        requires
            old(self).wf(),
        ensures
            final(self).grid() == old(self).grid(),
            shape.color == color,
            shape.opacity == opacity,
            is_grown(old(self).grid()@.cells@, shape.cells@),
            shape.cells@.len() <= target_size,
            shape.cells@.len() <= MAX_CELLS,
            target_size > 0 ==> shape.cells@.len() > 0 && is_near_center(
                old(self).grid()@.cells@,
                old(self).grid()@.center,
                shape.cells@[0],
            ),
            target_size >= 2 ==> shape.cells@.len() >= 2,
    {
        let ghost cells = self.grid()@.cells@;
        let mut shape = Shape::new(color, opacity);
        if target_size == 0 {
            return shape;
        }
        proof {
            lemma_mesh_size(self.grid);
        }
        let center_cells = self.find_center_cells();
        let start_index: usize = if random_chance(&mut self.rng, 700) {
            0
        } else {
            random_below(&mut self.rng, smaller(center_cells.len(), 3))
        };
        let start: usize = center_cells[start_index];
        shape.add_cell(start);
        proof {
            assert(shape.cells@ =~= seq![start]);
            assert(is_center_order(cells, self.grid()@.center, center_cells@));
            assert(center_cells@[start_index as int] == start);
            assert(is_near_center(cells, self.grid()@.center, start));
            lemma_start_has_neighbour(self.grid, start, Seq::<usize>::empty());
        }
        let ghost beside = choose|other: usize| #[trigger]
            mesh_adjacent(cells, start as int, other as int) && !Seq::<usize>::empty().contains(other);
        let cap: usize = smaller(target_size, self.grid.cell_count());
        let max_attempts: usize = 3 * cap;
        let mut attempts: usize = 0;
        let mut current_layer: Vec<usize> = Vec::new();
        current_layer.push(start);
        let mut next_layer: Vec<usize> = Vec::new();
        let mut frontier: Vec<usize> = Vec::new();
        let randomness: u32 = random_between(&mut self.rng, 200, 499) as u32;
        while shape.cell_count() < cap && attempts < max_attempts
            invariant
                self.wf(),
                self.grid() == old(self).grid(),
                cells == self.grid()@.cells@,
                1 <= cap <= MAX_CELLS,
                cap <= target_size,
                target_size >= 2 ==> cap >= 2,
                max_attempts == 3 * cap,
                attempts <= max_attempts,
                200 <= randomness <= 499,
                is_grown(cells, shape.cells@),
                1 <= shape.cells@.len() <= cap,
                shape.cells@[0] == start,
                shape.color == color,
                shape.opacity == opacity,
                forall|k: int| 0 <= k < current_layer@.len() ==> shape.cells@.contains(#[trigger] current_layer@[k]),
                forall|k: int| 0 <= k < next_layer@.len() ==> shape.cells@.contains(#[trigger] next_layer@[k]),
                forall|k: int| 0 <= k < frontier@.len() ==> touches_member(cells, shape.cells@, #[trigger] frontier@[k]),
                mesh_adjacent(cells, start as int, beside as int),
                attempts == 0 ==> shape.cells@ == seq![start] && frontier@.len() == 0 && current_layer@ == seq![
                    start,
                ],
                attempts > 0 && cap >= 2 ==> shape.cells@.len() >= 2,
            ensures
                cap >= 2 ==> shape.cells@.len() >= 2,
            decreases max_attempts - attempts,
        {
            let ghost first = attempts == 0;
            attempts = attempts + 1;
            if frontier.len() == 0 {
                if current_layer.len() == 0 {
                    current_layer = next_layer;
                    next_layer = Vec::new();
                    if current_layer.len() == 0 {
                        break;
                    }
                }
                let ghost layer = current_layer@;
                let cell = take_at(&mut current_layer, 0);
                proof {
                    assert(shape.cells@.contains(layer[0]));
                    assert forall|k: int| 0 <= k < current_layer@.len() implies shape.cells@.contains(
                        #[trigger] current_layer@[k],
                    ) by {
                        assert(layer.contains(current_layer@[k]));
                        let m = choose|m: int| 0 <= m < layer.len() && layer[m] == current_layer@[k];
                        assert(shape.cells@.contains(layer[m]));
                    }
                }
                self.extend_frontier(&shape.cells, &mut frontier, cell);
                proof {
                    if first {
                        assert(layer[0] == start);
                        assert(!shape.cells@.contains(beside));
                        assert(frontier@.contains(beside));
                    }
                }
                if frontier.len() == 0 {
                    continue;
                }
            }
            proof {
                if first {
                    assert forall|k: int| 0 <= k < frontier@.len() implies !shape.cells@.contains(
                        #[trigger] frontier@[k],
                    ) by {
                        assert(!Seq::<usize>::empty().contains(frontier@[k]));
                    }
                }
            }
            let ghost unsorted = frontier@;
            frontier = self.sort_by_score(&shape.cells, &frontier, true);
            proof {
                assert forall|k: int| 0 <= k < frontier@.len() implies touches_member(
                    cells,
                    shape.cells@,
                    #[trigger] frontier@[k],
                ) by {
                    assert(frontier@.contains(frontier@[k]));
                    let m = choose|m: int| 0 <= m < unsorted.len() && unsorted[m] == frontier@[k];
                    assert(touches_member(cells, shape.cells@, unsorted[m]));
                }
            }
            let selected: usize = if random_chance(&mut self.rng, randomness) {
                random_below(&mut self.rng, frontier.len())
            } else {
                let half: usize = frontier.len() / 2;
                let top: usize = if half < 1 {
                    1
                } else {
                    half
                };
                random_below(&mut self.rng, top)
            };
            let ghost ranked = frontier@;
            let next_cell = take_at(&mut frontier, selected);
            let ghost before = shape.cells@;
            proof {
                if first {
                    assert(ranked.contains(next_cell));
                    assert(unsorted.contains(next_cell));
                    let m = choose|m: int| 0 <= m < unsorted.len() && unsorted[m] == next_cell;
                    assert(!before.contains(unsorted[m]));
                }
                assert(touches_member(cells, before, ranked[selected as int]));
                if !before.contains(next_cell) {
                    let m = choose|m: int|
                        0 <= m < before.len() && #[trigger] mesh_adjacent(
                            cells,
                            before[m] as int,
                            next_cell as int,
                        );
                    lemma_push_grown(cells, before, next_cell, m);
                }
            }
            shape.add_cell(next_cell);
            next_layer.push(next_cell);
            proof {
                let after = shape.cells@;
                assert(extends(before, after));
                if !before.contains(next_cell) {
                    assert(after[before.len() as int] == next_cell);
                }
                assert(after.contains(next_cell));
                assert forall|k: int| 0 <= k < current_layer@.len() implies after.contains(
                    #[trigger] current_layer@[k],
                ) by {
                    lemma_contains_extended(before, after, current_layer@[k]);
                }
                assert forall|k: int| 0 <= k < next_layer@.len() implies after.contains(#[trigger] next_layer@[k]) by {
                    if k < next_layer@.len() - 1 {
                        lemma_contains_extended(before, after, next_layer@[k]);
                    }
                }
                assert forall|k: int| 0 <= k < frontier@.len() implies touches_member(
                    cells,
                    after,
                    #[trigger] frontier@[k],
                ) by {
                    assert(ranked.contains(frontier@[k]));
                    let m = choose|m: int| 0 <= m < ranked.len() && ranked[m] == frontier@[k];
                    assert(touches_member(cells, before, ranked[m]));
                    lemma_touches_extended(cells, before, after, frontier@[k]);
                }
            }
            self.extend_frontier(&shape.cells, &mut frontier, next_cell);
            if random_chance(&mut self.rng, 100 + randomness) && frontier.len() > 2 {
                let ghost kept = frontier@;
                frontier = self.sort_by_score(&shape.cells, &frontier, false);
                let ghost resorted = frontier@;
                let _ = take_at(&mut frontier, 0);
                proof {
                    assert forall|k: int| 0 <= k < frontier@.len() implies touches_member(
                        cells,
                        shape.cells@,
                        #[trigger] frontier@[k],
                    ) by {
                        assert(resorted.contains(frontier@[k]));
                        assert(kept.contains(frontier@[k]));
                        let m = choose|m: int| 0 <= m < kept.len() && kept[m] == frontier@[k];
                        assert(touches_member(cells, shape.cells@, kept[m]));
                    }
                }
            }
        }
        if !random_chance(&mut self.rng, randomness) {
            let used: Vec<usize> = Vec::new();
            proof {
                assert(avoids(shape.cells@, used@));
            }
            self.smooth_avoiding(&mut shape, cap, &used);
        }
        shape
    }
}

/// Whether the shape is one that grew from the middle of the hexagon, of
/// the given colour and opacity and of at most `target_size` cells.
pub open spec fn is_center_shape(
    grid: TriangularGrid,
    shape: Shape,
    color: String,
    opacity: u16,
    target_size: usize,
) -> bool {
    &&& shape.color == color
    &&& shape.opacity == opacity
    &&& is_grown(grid@.cells@, shape.cells@)
    &&& shape.cells@.len() <= target_size
    &&& shape.cells@.len() <= MAX_CELLS
    &&& target_size > 0 ==> shape.cells@.len() > 0 && is_near_center(
        grid@.cells@,
        grid@.center,
        shape.cells@[0],
    )
    &&& target_size >= 2 ==> shape.cells@.len() >= 2
}

/// The number of candidates among which the best shape is chosen.
pub const CANDIDATES: usize = 3;

/// The width of the range of the random bonus that a candidate's score gets,
/// in thousandths.
pub const JITTER: usize = 200;

/// The colour of the shape at `index` where `colors` are given: the colour
/// at that place if there is one, else red for the first shape and a
/// stand-in for the others.
pub open spec fn planned_color(colors: Seq<String>, index: int) -> Seq<char> {
    if index < colors.len() {
        colors[index]@
    } else if index == 0 {
        "#FF0000"@
    } else {
        crate::generator::color::placeholder(index as nat)
    }
}

/// The cells of the first `n` shapes, shape after shape.
pub open spec fn cells_before(shapes: Seq<Shape>, n: nat) -> Seq<usize>
    decreases n,
{
    if n == 0 {
        Seq::empty()
    } else {
        cells_before(shapes, (n - 1) as nat) + shapes[n - 1].cells@
    }
}

/// The cells of the first shapes depend on the cells of these shapes only.
pub proof fn lemma_cells_before(a: Seq<Shape>, b: Seq<Shape>, n: nat)
    requires
        n <= a.len(),
        n <= b.len(),
        forall|k: int| 0 <= k < n ==> (#[trigger] a[k]).cells@ == b[k].cells@,
    ensures
        cells_before(a, n) == cells_before(b, n),
    decreases n,
{
    if n > 0 {
        lemma_cells_before(a, b, (n - 1) as nat);
        assert(a[n - 1].cells@ == b[n - 1].cells@);
    }
}

/// Whether the cell is a seed for a shape that grows beside what is used: a
/// free cell that touches a used cell, or the free cell nearest to the
/// center.
pub open spec fn is_later_seed(cells: Seq<Cell>, center: Point, used: Seq<usize>, cell: usize) -> bool {
    touches_used(cells, used, cell) || is_nearest_free(cells, center, used, cell)
}

/// Whether the shapes grew one after the other: the first from the middle
/// of the hexagon, each of the others on cells that no earlier shape has,
/// from a seed beside the earlier shapes.
pub open spec fn grew_in_turn(cells: Seq<Cell>, center: Point, shapes: Seq<Shape>) -> bool {
    &&& shapes.len() > 0 && shapes[0].cells@.len() > 0 ==> is_near_center(cells, center, shapes[0].cells@[0])
    &&& forall|i: int|
        0 < i < shapes.len() ==> {
            &&& avoids((#[trigger] shapes[i]).cells@, cells_before(shapes, i as nat))
            &&& shapes[i].cells@.len() > 0 ==> is_later_seed(
                cells,
                center,
                cells_before(shapes, i as nat),
                shapes[i].cells@[0],
            )
        }
}

/// No cell belongs to two of the shapes.
pub open spec fn pairwise_disjoint(shapes: Seq<Shape>) -> bool {
    forall|a: int, b: int|
        0 <= a < b < shapes.len() ==> #[trigger] avoids(shapes[b].cells@, #[trigger] shapes[a].cells@)
}

impl<'a> ShapeGenerator<'a> {
    /// Measures a shape: its compactness, its smoothness and its balance.
    /// A list of more cells than a mesh can have is no shape and scores
    /// nothing.
    pub fn evaluate_shape_quality(&self, shape: &Shape) -> (metrics: ShapeMetrics)
        requires
            self.wf(),
        ensures
            metrics == (if shape.cells@.len() <= MAX_CELLS {
                crate::generator::shape::quality::shape_quality(
                    self.grid()@.cells@,
                    self.grid()@.center,
                    shape.cells@,
                )
            } else {
                ShapeMetrics { compactness: 0, smoothness: 0, balance: 0 }
            }),
            metrics.wf(),
    {
        if shape.cells.len() > MAX_CELLS {
            return ShapeMetrics { compactness: 0, smoothness: 0, balance: 0 };
        }
        evaluate_shape_quality(self.grid, &shape.cells)
    }

    /// Scores the candidates: the total score of each plus a random bonus
    /// below `JITTER`.
    fn jittered_scores(&mut self, shapes: &Vec<Shape>) -> (keys: Vec<u128>)
        requires
            old(self).wf(),
            forall|k: int| 0 <= k < shapes@.len() ==> (#[trigger] shapes@[k]).cells@.len() <= MAX_CELLS,
        ensures
            final(self).grid() == old(self).grid(),
            keys@.len() == shapes@.len(),
    {
        let mut keys: Vec<u128> = Vec::new();
        let mut k: usize = 0;
        while k < shapes.len()
            invariant
                k <= shapes@.len(),
                self.wf(),
                self.grid() == old(self).grid(),
                keys@.len() == k,
                forall|j: int| 0 <= j < shapes@.len() ==> (#[trigger] shapes@[j]).cells@.len() <= MAX_CELLS,
            decreases shapes@.len() - k,
        {
            let score: u32 = self.evaluate_shape_quality(&shapes[k]).total_score();
            let bonus: usize = random_below(&mut self.rng, JITTER);
            keys.push(score as u128 + bonus as u128);
            k = k + 1;
        }
        keys
    }

    /// Grows three candidates from the middle of the hexagon, each layer by
    /// layer, and returns the one with the best total score after a random
    /// bonus.
    pub fn generate_angular_shape(&mut self, color: String, opacity: u16, target_size: usize) -> (shape: Shape)
        requires
            old(self).wf(),
        ensures
            final(self).grid() == old(self).grid(),
            is_center_shape(old(self).grid(), shape, color, opacity, target_size),
    {
        let mut shapes: Vec<Shape> = Vec::new();
        let mut k: usize = 0;
        while k < CANDIDATES
            invariant
                k <= CANDIDATES,
                self.wf(),
                self.grid() == old(self).grid(),
                shapes@.len() == k,
                forall|j: int|
                    0 <= j < k ==> is_center_shape(old(self).grid(), #[trigger] shapes@[j], color, opacity, target_size),
            decreases CANDIDATES - k,
        {
            let candidate = self.generate_angular_shape_candidate(color.clone(), opacity, target_size);
            shapes.push(candidate);
            k = k + 1;
        }
        let keys = self.jittered_scores(&shapes);
        match select_best(shapes, &keys) {
            Some(shape) => shape,
            None => Shape::new(color, opacity),
        }
    }

    /// Grows three candidates from the middle of the hexagon, each breadth
    /// first, and returns the one with the best total score after a random
    /// bonus.
    pub fn generate_balanced_shape(&mut self, color: String, opacity: u16, target_size: usize) -> (shape: Shape)
        requires
            old(self).wf(),
        ensures
            final(self).grid() == old(self).grid(),
            is_center_shape(old(self).grid(), shape, color, opacity, target_size),
    {
        let mut shapes: Vec<Shape> = Vec::new();
        let mut k: usize = 0;
        while k < CANDIDATES
            invariant
                k <= CANDIDATES,
                self.wf(),
                self.grid() == old(self).grid(),
                shapes@.len() == k,
                forall|j: int|
                    0 <= j < k ==> is_center_shape(old(self).grid(), #[trigger] shapes@[j], color, opacity, target_size),
            decreases CANDIDATES - k,
        {
            let candidate = self.generate_center_shape(color.clone(), opacity, target_size);
            shapes.push(candidate);
            k = k + 1;
        }
        let keys = self.jittered_scores(&shapes);
        match select_best(shapes, &keys) {
            Some(shape) => shape,
            None => Shape::new(color, opacity),
        }
    }

    /// Grows a shape from the middle of the hexagon, breadth first or layer
    /// by layer with equal chance.
    pub fn generate_random_shape(&mut self, color: String, opacity: u16, target_size: usize) -> (shape: Shape)
        requires
            old(self).wf(),
        ensures
            final(self).grid() == old(self).grid(),
            is_center_shape(old(self).grid(), shape, color, opacity, target_size),
    {
        if random_chance(&mut self.rng, 500) {
            self.generate_center_shape(color, opacity, target_size)
        } else {
            self.generate_angular_shape(color, opacity, target_size)
        }
    }

    /// Grows a shape on free cells from a free cell that touches a used
    /// cell, so that the shape touches what is there.  Where no free cell
    /// touches a used one, the shape grows from the free cell nearest to the
    /// center.
    pub fn generate_connected_shape(
        &mut self,
        color: String,
        opacity: u16,
        target_size: usize,
        used_cells: &Vec<usize>,
    ) -> (shape: Shape)
        requires
            old(self).wf(),
        ensures
            final(self).grid() == old(self).grid(),
            shape.color == color,
            shape.opacity == opacity,
            is_grown(old(self).grid()@.cells@, shape.cells@),
            avoids(shape.cells@, used_cells@),
            shape.cells@.len() <= target_size,
            shape.cells@.len() <= MAX_CELLS,
            shape.cells@.len() > 0 <==> target_size > 0 && has_free_cell(old(self).grid()@.cells@, used_cells@),
            shape.cells@.len() > 0 ==> if has_boundary(old(self).grid()@.cells@, used_cells@) {
                touches_used(old(self).grid()@.cells@, used_cells@, shape.cells@[0])
            } else {
                is_nearest_free(
                    old(self).grid()@.cells@,
                    old(self).grid()@.center,
                    used_cells@,
                    shape.cells@[0],
                )
            },
    {
        let ghost cells = self.grid()@.cells@;
        if target_size == 0 {
            return Shape::new(color, opacity);
        }
        let mut boundary = self.find_boundary_cells(used_cells);
        if boundary.len() == 0 {
            proof {
                assert forall|cell: usize| !#[trigger] touches_used(cells, used_cells@, cell) by {
                    assert(!boundary@.contains(cell));
                }
            }
            return self.generate_shape_avoiding_cells(color, opacity, target_size, used_cells);
        }
        let ghost found = boundary@;
        shuffle_cells(&mut self.rng, &mut boundary);
        proof {
            lemma_same_elements(found, boundary@);
        }
        if random_chance(&mut self.rng, 700) {
            boundary = self.sort_by_center_rank(&boundary);
        }
        let start: usize = boundary[random_below(&mut self.rng, smaller(boundary.len(), 3))];
        let mut shape = Shape::new(color, opacity);
        shape.add_cell(start);
        proof {
            assert(boundary@.contains(start));
            assert(found.contains(start));
            assert(touches_used(cells, used_cells@, start));
            assert(shape.cells@ =~= seq![start]);
            let u = choose|u: int|
                0 <= u < used_cells@.len() && #[trigger] mesh_adjacent(
                    cells,
                    used_cells@[u] as int,
                    start as int,
                );
            assert(start < cells.len());
            assert(has_free_cell(cells, used_cells@));
            assert(has_boundary(cells, used_cells@));
        }
        self.grow_and_smooth(&mut shape, target_size, used_cells);
        shape
    }

    /// Grows `count` shapes that share no cell.  The first grows from the
    /// middle of the hexagon; each of the others grows on free cells, mostly
    /// from a cell that touches an earlier shape.  Every shape aims at a size
    /// drawn from the range.  Shapes get the given colours as far as these
    /// reach.
    pub fn generate_shapes(
        &mut self,
        colors: Vec<String>,
        opacity: u16,
        count: usize,
        size_range: (usize, usize),
    ) -> (shapes: Vec<Shape>)
        requires
            old(self).wf(),
        ensures
            final(self).grid() == old(self).grid(),
            shapes@.len() == count,
            forall|i: int|
                0 <= i < count ==> {
                    &&& is_grown(old(self).grid()@.cells@, (#[trigger] shapes@[i]).cells@)
                    &&& shapes@[i].cells@.len() <= size_range.1 || shapes@[i].cells@.len() <= size_range.0
                    &&& shapes@[i].opacity == opacity
                    &&& shapes@[i].color@ == planned_color(colors@, i)
                },
            count > 0 && size_range.0 > 0 ==> shapes@[0].cells@.len() > 0,
            pairwise_disjoint(shapes@),
            grew_in_turn(old(self).grid()@.cells@, old(self).grid()@.center, shapes@),
    {
        let ghost cells = self.grid()@.cells@;
        let ghost center = self.grid()@.center;
        let mut shapes: Vec<Shape> = Vec::new();
        let mut used: Vec<usize> = Vec::new();
        let mut i: usize = 0;
        while i < count
            invariant
                i <= count,
                self.wf(),
                self.grid() == old(self).grid(),
                cells == self.grid()@.cells@,
                shapes@.len() == i,
                forall|k: int|
                    0 <= k < i ==> {
                        &&& is_grown(cells, (#[trigger] shapes@[k]).cells@)
                        &&& shapes@[k].cells@.len() <= size_range.1 || shapes@[k].cells@.len() <= size_range.0
                        &&& shapes@[k].opacity == opacity
                        &&& shapes@[k].color@ == planned_color(colors@, k)
                    },
                i > 0 && size_range.0 > 0 ==> shapes@[0].cells@.len() > 0,
                i == 0 ==> used@.len() == 0,
                center == self.grid()@.center,
                used@ == cells_before(shapes@, i as nat),
                grew_in_turn(cells, center, shapes@),
                pairwise_disjoint(shapes@),
                forall|k: int, m: int|
                    0 <= k < i && 0 <= m < shapes@[k].cells@.len() ==> used@.contains(#[trigger] shapes@[k].cells@[m]),
            decreases count - i,
        {
            let color: String = if i < colors.len() {
                colors[i].clone()
            } else if i == 0 {
                String::from_str("#FF0000")
            } else {
                crate::generator::color::placeholder_color(i)
            };
            let size: usize = random_between(&mut self.rng, size_range.0, size_range.1);
            let shape: Shape = if i == 0 {
                if random_chance(&mut self.rng, 500) {
                    self.generate_balanced_shape(color, opacity, size)
                } else {
                    self.generate_angular_shape(color, opacity, size)
                }
            } else if random_chance(&mut self.rng, 300) {
                self.generate_shape_avoiding_cells(color, opacity, size, &used)
            } else {
                self.generate_connected_shape(color, opacity, size, &used)
            };
            proof {
                if i == 0 {
                    assert(used@.len() == 0);
                    assert(avoids(shape.cells@, used@));
                }
            }
            let ghost taken = used@;
            mark_used(&mut used, &shape.cells);
            let ghost earlier = shapes@;
            shapes.push(shape);
            proof {
                assert forall|a: int, b: int| 0 <= a < b < shapes@.len() implies #[trigger] avoids(
                    shapes@[b].cells@,
                    #[trigger] shapes@[a].cells@,
                ) by {
                    if b < i {
                        assert(avoids(earlier[b].cells@, earlier[a].cells@));
                    } else {
                        assert forall|k: int| 0 <= k < shape.cells@.len() implies !shapes@[a].cells@.contains(
                            #[trigger] shape.cells@[k],
                        ) by {
                            if shapes@[a].cells@.contains(shape.cells@[k]) {
                                let j = choose|j: int|
                                    0 <= j < shapes@[a].cells@.len() && shapes@[a].cells@[j] == shape.cells@[k];
                                assert(taken.contains(earlier[a].cells@[j]));
                            }
                        }
                    }
                }
                assert forall|k: int, j: int|
                    0 <= k < i + 1 && 0 <= j < shapes@[k].cells@.len() implies used@.contains(
                    #[trigger] shapes@[k].cells@[j],
                ) by {
                    if k < i {
                        assert(taken.contains(earlier[k].cells@[j]));
                    } else {
                        assert(shape.cells@.contains(shape.cells@[j]));
                    }
                }
                assert forall|k: nat| k <= i implies #[trigger] cells_before(shapes@, k) == cells_before(
                    earlier,
                    k,
                ) by {
                    lemma_cells_before(shapes@, earlier, k);
                }
                assert(cells_before(shapes@, (i + 1) as nat) == cells_before(shapes@, i as nat) + shape.cells@);
                assert forall|k: int| 0 < k < shapes@.len() implies {
                    &&& avoids((#[trigger] shapes@[k]).cells@, cells_before(shapes@, k as nat))
                    &&& shapes@[k].cells@.len() > 0 ==> is_later_seed(
                        cells,
                        center,
                        cells_before(shapes@, k as nat),
                        shapes@[k].cells@[0],
                    )
                } by {
                    assert(cells_before(shapes@, k as nat) == cells_before(earlier, k as nat));
                    if k < i {
                        assert(shapes@[k] == earlier[k]);
                    }
                }
            }
            i = i + 1;
        }
        shapes
    }
}

} // verus!
