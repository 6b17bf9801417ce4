//! A count-min sketch: frequency estimates that never fall below the true count.

use vstd::prelude::*;
use crate::hashing::{mmh3, murmur3_32};

verus! {

/// The column that hash `hash` stands for among `width` columns.
pub open spec fn column(hash: u32, width: int) -> int {
    hash as int % width
}

/// The column of `item` in row `row`.
pub open spec fn item_column(item: Seq<u8>, row: int, width: int) -> int {
    column(murmur3_32(item, row as u32), width)
}

/// A count-min sketch of `depth` rows of `width` counters.
pub struct CountMinSketch {
    /// The number of counters in a row.
    pub width: usize,
    /// The number of rows, each with a hash function of its own.
    pub depth: usize,
    /// The counters, row by row.
    pub sketch: Vec<Vec<u32>>,
}

impl View for CountMinSketch {
    type V = Seq<Seq<u32>>;

    /// The counters, row by row.
    open spec fn view(&self) -> Seq<Seq<u32>> {
        Seq::new(self.sketch@.len(), |i: int| self.sketch@[i]@)
    }
}

/// The counters have `depth` rows of `width` columns.
pub open spec fn shaped(grid: Seq<Seq<u32>>, width: int, depth: int) -> bool {
    &&& grid.len() == depth
    &&& forall|i: int| 0 <= i < depth ==> (#[trigger] grid[i]).len() == width
}

/// The counters after `freq` was added to the cell of `item` in each of the first `rows` rows.
pub open spec fn updated(grid: Seq<Seq<u32>>, item: Seq<u8>, freq: u32, rows: int) -> Seq<
    Seq<u32>,
> {
    Seq::new(
        grid.len(),
        |i: int|
            if i < rows {
                grid[i].update(
                    item_column(item, i, grid[i].len() as int),
                    (grid[i][item_column(item, i, grid[i].len() as int)] + freq) as u32,
                )
            } else {
                grid[i]
            },
    )
}

/// Adding `freq` to the cells of `item` overflows no counter.
pub open spec fn fits(grid: Seq<Seq<u32>>, item: Seq<u8>, freq: u32) -> bool {
    forall|i: int|
        0 <= i < grid.len() ==> (#[trigger] grid[i])[item_column(item, i, grid[i].len() as int)]
            + freq <= u32::MAX
}

/// The least of the cells of `item` in the first `rows` rows, `u32::MAX` for no row.
pub open spec fn least(grid: Seq<Seq<u32>>, item: Seq<u8>, rows: int) -> u32
    decreases rows,
{
    if rows <= 0 {
        u32::MAX
    } else {
        let rest = least(grid, item, rows - 1);
        let cell = grid[rows - 1][item_column(item, rows - 1, grid[rows - 1].len() as int)];
        if cell < rest {
            cell
        } else {
            rest
        }
    }
}

/// The cell of `item` in row `row`.
pub open spec fn cell(grid: Seq<Seq<u32>>, item: Seq<u8>, row: int) -> u32 {
    grid[row][item_column(item, row, grid[row].len() as int)]
}

/// How often `item` was counted by the updates `ops`, each an item with a frequency.
pub open spec fn true_count(ops: Seq<(Seq<u8>, u32)>, item: Seq<u8>) -> int
    decreases ops.len(),
{
    if ops.len() == 0 {
        0
    } else {
        true_count(ops.drop_last(), item) + (if ops.last().0 == item {
            ops.last().1 as int
        } else {
            0
        })
    }
}

/// The counters after the updates `ops`, one after the other.
pub open spec fn after_all(grid: Seq<Seq<u32>>, ops: Seq<(Seq<u8>, u32)>) -> Seq<Seq<u32>>
    decreases ops.len(),
{
    if ops.len() == 0 {
        grid
    } else {
        updated(after_all(grid, ops.drop_last()), ops.last().0, ops.last().1, grid.len() as int)
    }
}

/// None of the updates `ops`, one after the other, overflows a counter.
pub open spec fn all_fit(grid: Seq<Seq<u32>>, ops: Seq<(Seq<u8>, u32)>) -> bool
    decreases ops.len(),
{
    ops.len() == 0 || (all_fit(grid, ops.drop_last()) && fits(
        after_all(grid, ops.drop_last()),
        ops.last().0,
        ops.last().1,
    ))
}

/// An update with frequency zero changes no counter.
pub proof fn law_zero_update_changes_nothing(
    grid: Seq<Seq<u32>>,
    item: Seq<u8>,
    width: int,
    depth: int,
)
    requires
        shaped(grid, width, depth),
        depth > 0 ==> width > 0,
    ensures
        updated(grid, item, 0, depth) == grid,
{
    let after = updated(grid, item, 0, depth);
    assert forall|i: int| 0 <= i < depth implies after[i] == grid[i] by {
        assert(grid[i].len() == width);
        assert(after[i] =~= grid[i]);
    }
    assert(after =~= grid);
}

/// Updates keep the shape of the counters, and each cell of an item grows
/// by at least what the item was counted.
pub proof fn lemma_cell_grows(
    grid: Seq<Seq<u32>>,
    ops: Seq<(Seq<u8>, u32)>,
    item: Seq<u8>,
    width: int,
    depth: int,
    row: int,
)
    requires
        shaped(grid, width, depth),
        width > 0,
        0 <= row < depth,
        all_fit(grid, ops),
    ensures
        shaped(after_all(grid, ops), width, depth),
        cell(after_all(grid, ops), item, row) >= cell(grid, item, row) + true_count(ops, item),
    decreases ops.len(),
{
    if ops.len() > 0 {
        let front = ops.drop_last();
        let mid = after_all(grid, front);
        lemma_cell_grows(grid, front, item, width, depth, row);
        let (it, freq) = ops.last();
        let after = updated(mid, it, freq, depth);
        assert(after == after_all(grid, ops));
        assert forall|i: int| 0 <= i < depth implies (#[trigger] after[i]).len() == width by {
            assert(mid[i].len() == width);
        }
        assert(mid[row].len() == width);
        assert(grid[row].len() == width);
        assert(mid[row][item_column(it, row, width)] + freq <= u32::MAX);
    }
}

/// The least of the cells of an item is no less than a bound below all of them.
pub proof fn lemma_least_bound(grid: Seq<Seq<u32>>, item: Seq<u8>, rows: int, bound: int)
    requires
        rows > 0,
        forall|i: int| 0 <= i < rows ==> #[trigger] cell(grid, item, i) >= bound,
    ensures
        least(grid, item, rows) >= bound,
    decreases rows,
{
    reveal_with_fuel(least, 2);
    assert(cell(grid, item, rows - 1) >= bound);
    if rows > 1 {
        lemma_least_bound(grid, item, rows - 1, bound);
    }
}

/// After any updates that overflow no counter, the estimate of an item in a
/// sketch that started with zeros is no less than what the item was counted.
pub proof fn law_never_underestimates(
    grid: Seq<Seq<u32>>,
    ops: Seq<(Seq<u8>, u32)>,
    item: Seq<u8>,
    width: int,
    depth: int,
)
    requires
        shaped(grid, width, depth),
        width > 0,
        depth > 0,
        all_fit(grid, ops),
    ensures
        least(after_all(grid, ops), item, depth) >= least(grid, item, depth),
        least(after_all(grid, ops), item, depth) >= true_count(ops, item),
{
    let after = after_all(grid, ops);
    lemma_count_positive(ops, item);
    assert forall|i: int| 0 <= i < depth implies #[trigger] cell(after, item, i) >= true_count(
        ops,
        item,
    ) by {
        lemma_cell_grows(grid, ops, item, width, depth, i);
    }
    lemma_least_bound(after, item, depth, true_count(ops, item));
    assert forall|i: int| 0 <= i < depth implies #[trigger] cell(after, item, i) >= least(
        grid,
        item,
        depth,
    ) by {
        lemma_cell_grows(grid, ops, item, width, depth, i);
        lemma_least_is_below(grid, item, depth, i);
    }
    lemma_least_bound(after, item, depth, least(grid, item, depth) as int);
}

/// An item is counted at least zero times.
pub proof fn lemma_count_positive(ops: Seq<(Seq<u8>, u32)>, item: Seq<u8>)
    ensures
        true_count(ops, item) >= 0,
    decreases ops.len(),
{
    if ops.len() > 0 {
        lemma_count_positive(ops.drop_last(), item);
    }
}

/// The least of the cells of an item is no more than any of them.
pub proof fn lemma_least_is_below(grid: Seq<Seq<u32>>, item: Seq<u8>, rows: int, row: int)
    requires
        0 <= row < rows,
    ensures
        least(grid, item, rows) <= cell(grid, item, row),
    decreases rows,
{
    if row < rows - 1 {
        lemma_least_is_below(grid, item, rows - 1, row);
    }
}

impl CountMinSketch {
    /// The counters have `depth` rows of `width` columns; rows are numbered
    /// in a `u32`, and a sketch with rows has columns.
    pub open spec fn wf(&self) -> bool {
        &&& shaped(self@, self.width as int, self.depth as int)
        &&& self.width <= u32::MAX
        &&& self.depth <= u32::MAX
        &&& self.depth > 0 ==> self.width > 0
    }

    /// A sketch of `depth` rows of `width` counters, all zero.
    pub fn new(width: usize, depth: usize) -> (cms: CountMinSketch)
        requires
            width <= u32::MAX,
            depth <= u32::MAX,
            depth > 0 ==> width > 0,
        ensures
            cms.wf(),
            cms.width == width,
            cms.depth == depth,
            forall|i: int, j: int| 0 <= i < depth && 0 <= j < width ==> #[trigger] cms@[i][j] == 0,
    {
        let row = vec![0u32; width];
        let sketch = vec![row; depth];
        let cms = CountMinSketch { width, depth, sketch };
        proof {
            assert forall|i: int| 0 <= i < depth implies (#[trigger] cms@[i]) =~= row@ by {
                assert(cloned(row, cms.sketch@[i]));
            }
        }
        cms
    }

    /// Adds `freq` to the counter that `hash` stands for in row `row`.
    pub fn add_hashed(&mut self, row: usize, hash: u32, freq: u32)
        requires
            old(self).wf(),
            row < old(self).depth,
            old(self)@[row as int][column(hash, old(self).width as int)] + freq <= u32::MAX,
        ensures
            final(self).wf(),
            final(self).width == old(self).width,
            final(self).depth == old(self).depth,
            final(self)@ == old(self)@.update(
                row as int,
                old(self)@[row as int].update(
                    column(hash, old(self).width as int),
                    (old(self)@[row as int][column(hash, old(self).width as int)] + freq) as u32,
                ),
            ),
    {
        let ghost before = self@;
        proof {
            assert(before[row as int].len() == self.width);
        }
        let index = hash % self.width as u32;
        self.sketch[row][index as usize] += freq;
        proof {
            assert(self@ =~= before.update(
                row as int,
                before[row as int].update(
                    column(hash, self.width as int),
                    (before[row as int][column(hash, self.width as int)] + freq) as u32,
                ),
            ));
        }
    }

    /// The counter that `hash` stands for in row `row`.
    pub fn cell_hashed(&self, row: usize, hash: u32) -> (count: u32)
        requires
            self.wf(),
            row < self.depth,
        ensures
            count == self@[row as int][column(hash, self.width as int)],
    {
        proof {
            assert(self@[row as int].len() == self.width);
        }
        let index = hash % self.width as u32;
        self.sketch[row][index as usize]
    }

    /// Adds `freq` to the cell of `item` in every row.
    pub fn update(&mut self, item: &[u8], freq: u32)
        requires
            old(self).wf(),
            fits(old(self)@, item@, freq),
        ensures
            final(self).wf(),
            final(self).width == old(self).width,
            final(self).depth == old(self).depth,
            final(self)@ == updated(old(self)@, item@, freq, old(self).depth as int),
    {
        let ghost before = self@;
        proof {
            assert(self@ =~= updated(before, item@, freq, 0));
        }
        let depth = self.depth;
        for i in 0..depth
            invariant
                depth == self.depth,
                self.wf(),
                self.width == old(self).width,
                self.depth == old(self).depth,
                before == old(self)@,
                shaped(before, self.width as int, self.depth as int),
                fits(before, item@, freq),
                self@ == updated(before, item@, freq, i as int),
        {
            proof {
                assert(before[i as int].len() == self.width);
                assert(self@[i as int] == before[i as int]);
            }
            let hash = mmh3(item, i as u32);
            self.add_hashed(i, hash, freq);
            proof {
                assert(self@ =~= updated(before, item@, freq, i + 1));
            }
        }
    }

    /// Adds `freq` to the cell of `item` in every row unless a counter would
    /// overflow; says whether it did.
    pub fn try_update(&mut self, item: &[u8], freq: u32) -> (done: bool)
        requires
            old(self).wf(),
        ensures
            final(self).wf(),
            final(self).width == old(self).width,
            final(self).depth == old(self).depth,
            done == fits(old(self)@, item@, freq),
            done ==> final(self)@ == updated(old(self)@, item@, freq, old(self).depth as int),
            !done ==> final(self)@ == old(self)@,
    {
        let depth = self.depth;
        for i in 0..depth
            invariant
                depth == self.depth,
                self.wf(),
                *self == *old(self),
                forall|w: int|
                    0 <= w < i ==> (#[trigger] self@[w])[item_column(item@, w, self@[w].len() as int)]
                        + freq <= u32::MAX,
        {
            proof {
                assert(self@[i as int].len() == self.width);
            }
            let hash = mmh3(item, i as u32);
            if self.cell_hashed(i, hash) > u32::MAX - freq {
                return false;
            }
        }
        self.update(item, freq);
        true
    }

    /// The least of the cells of `item`: no less than the sum of the
    /// frequencies it was updated with.
    pub fn estimate(&self, item: &[u8]) -> (min: u32)
        requires
            self.wf(),
        ensures
            min == least(self@, item@, self.depth as int),
    {
        let mut min = u32::MAX;
        for i in 0..self.depth
            invariant
                self.wf(),
                min == least(self@, item@, i as int),
        {
            proof {
                assert(self@[i as int].len() == self.width);
            }
            let index = mmh3(item, i as u32) % self.width as u32;
            if self.sketch[i][index as usize] < min {
                min = self.sketch[i][index as usize];
            }
        }
        min
    }
}

} // verus!
