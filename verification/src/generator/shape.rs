//! Shapes: connected groups of cells with a colour and an opacity.

use vstd::prelude::*;

pub mod growth;
pub mod notches;
pub mod quality;

pub use growth::ShapeGenerator;
pub use quality::ShapeMetrics;

verus! {

/// A group of cells of one colour.
#[derive(Debug, Clone)]
pub struct Shape {
    /// The ids of the cells, in the order in which they were added, each
    /// once.
    pub cells: Vec<usize>,
    /// The fill colour, `#` and six hexadecimal digits.
    pub color: String,
    /// The opacity in thousandths, from 0 to 1000.
    pub opacity: u16,
}

/// Decides whether `cell_id` occurs in `cells`.
pub fn contains_id(cells: &Vec<usize>, cell_id: usize) -> (found: bool)
    ensures
        found == cells@.contains(cell_id),
{
    let mut i: usize = 0;
    while i < cells.len()
        invariant
            i <= cells@.len(),
            forall|k: int| 0 <= k < i ==> cells@[k] != cell_id,
        decreases cells@.len() - i,
    {
        if cells[i] == cell_id {
            return true;
        }
        i = i + 1;
    }
    false
}

impl Shape {
    /// No cell occurs twice.
    pub open spec fn wf(&self) -> bool {
        self.cells@.no_duplicates()
    }

    /// Creates a shape without cells.
    pub fn new(color: String, opacity: u16) -> (shape: Shape)
        ensures
            shape.cells@.len() == 0,
            shape.color == color,
            shape.opacity == opacity,
            shape.wf(),
    {
        Shape { cells: Vec::new(), color, opacity }
    }

    /// Adds a cell, unless the shape has it already.
    pub fn add_cell(&mut self, cell_id: usize)
        ensures
            final(self).color == old(self).color,
            final(self).opacity == old(self).opacity,
            old(self).cells@.contains(cell_id) ==> final(self).cells@ == old(self).cells@,
            !old(self).cells@.contains(cell_id) ==> final(self).cells@ == old(self).cells@.push(cell_id),
            old(self).wf() ==> final(self).wf(),
    {
        if !contains_id(&self.cells, cell_id) {
            self.cells.push(cell_id);
        }
    }

    /// Whether the shape has the cell.
    pub fn contains_cell(&self, cell_id: usize) -> (found: bool)
        ensures
            found == self.cells@.contains(cell_id),
    {
        contains_id(&self.cells, cell_id)
    }

    /// The number of cells of the shape.
    pub fn cell_count(&self) -> (count: usize)
        ensures
            count == self.cells@.len(),
    {
        self.cells.len()
    }
}

/// Adds the cells, in their order, to the list of used cells.
pub fn mark_used(used: &mut Vec<usize>, cells: &Vec<usize>)
    ensures
        final(used)@ == old(used)@ + cells@,
        forall|x: usize| #[trigger] old(used)@.contains(x) ==> final(used)@.contains(x),
        forall|x: usize| #[trigger] cells@.contains(x) ==> final(used)@.contains(x),
        forall|x: usize| #[trigger] final(used)@.contains(x) ==> old(used)@.contains(x) || cells@.contains(x),
{
    let mut m: usize = 0;
    while m < cells.len()
        invariant
            m <= cells@.len(),
            used@ == old(used)@ + cells@.subrange(0, m as int),
        decreases cells@.len() - m,
    {
        used.push(cells[m]);
        assert(used@ =~= old(used)@ + cells@.subrange(0, m + 1));
        m = m + 1;
    }
    proof {
        assert(cells@.subrange(0, cells@.len() as int) =~= cells@);
        let before = old(used)@;
        let after = used@;
        assert forall|x: usize| #[trigger] before.contains(x) implies after.contains(x) by {
            let k = choose|k: int| 0 <= k < before.len() && before[k] == x;
            assert(after[k] == x);
        }
        assert forall|x: usize| #[trigger] cells@.contains(x) implies after.contains(x) by {
            let k = choose|k: int| 0 <= k < cells@.len() && cells@[k] == x;
            assert(after[before.len() + k] == x);
        }
        assert forall|x: usize| #[trigger] after.contains(x) implies before.contains(x) || cells@.contains(x) by {
            let k = choose|k: int| 0 <= k < after.len() && after[k] == x;
            if k < before.len() {
                assert(before[k] == x);
            } else {
                assert(cells@[k - before.len()] == x);
            }
        }
    }
}

} // verus!
