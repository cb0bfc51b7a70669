//! Square numeric grids.
//!
//! An entry of a [`Matrix`] is the 64-bit pattern of an IEEE 754 binary64
//! value; the all-zero pattern `0u64` is the pattern of positive zero.  The
//! library never performs floating-point arithmetic itself: it frames, fills
//! and schedules, and a driver outside the library interprets the patterns.

use vstd::prelude::*;

verus! {

/// An n-by-n grid of binary64 bit patterns.
pub struct Matrix {
    rows: Vec<Vec<u64>>,
}

/// The bit pattern a cell takes when its field could not be read as a number:
/// positive zero.
pub open spec fn zero_bits() -> u64 {
    0u64
}

impl View for Matrix {
    type V = Seq<Seq<u64>>;

    closed spec fn view(&self) -> Seq<Seq<u64>> {
        Seq::new(self.rows@.len(), |i: int| self.rows@[i]@)
    }
}

/// A square grid: every row is as long as the list of rows.
pub open spec fn is_square(g: Seq<Seq<u64>>) -> bool {
    forall|i: int| 0 <= i < g.len() ==> #[trigger] g[i].len() == g.len()
}

/// What a parsed cell contributes to the grid: its bit pattern, or the zero
/// pattern when the field was not a number.
pub open spec fn cell_value(cell: Option<u64>) -> u64 {
    match cell {
        Some(bits) => bits,
        None => zero_bits(),
    }
}

impl Matrix {
    /// The grid is well formed when it is square.
    pub open spec fn wf(&self) -> bool {
        is_square(self@)
    }

    /// The dimension n.
    pub open spec fn spec_n(&self) -> nat {
        self@.len()
    }

    /// The dimension n.
    pub fn n(&self) -> (n: usize)
        ensures
            n == self.spec_n(),
    {
        self.rows.len()
    }

    /// The entry at row `i`, column `j`.
    pub fn get(&self, i: usize, j: usize) -> (r: u64)
        requires
            self.wf(),
            i < self.spec_n(),
            j < self.spec_n(),
        ensures
            r == self@[i as int][j as int],
    {
        proof {
            assert(self@[i as int] == self.rows@[i as int]@);
            assert(self@[i as int].len() == self@.len());
        }
        self.rows[i][j]
    }

    /// Replaces the entry at row `i`, column `j`.
    pub fn set(&mut self, i: usize, j: usize, bits: u64)
        requires
            old(self).wf(),
            i < old(self).spec_n(),
            j < old(self).spec_n(),
        ensures
            final(self).wf(),
            final(self).spec_n() == old(self).spec_n(),
            final(self)@ == old(self)@.update(i as int, old(self)@[i as int].update(j as int, bits)),
    {
        proof {
            assert(old(self)@[i as int] == old(self).rows@[i as int]@);
            assert(old(self)@[i as int].len() == old(self)@.len());
        }
        let row = &mut self.rows[i];
        row.set(j, bits);
        proof {
            assert(final(self)@ =~~= old(self)@.update(
                i as int,
                old(self)@[i as int].update(j as int, bits),
            ));
        }
    }

    /// The all-zero n-by-n grid: every entry is the pattern of positive zero.
    pub fn zero(n: usize) -> (m: Matrix)
        ensures
            m.wf(),
            m.spec_n() == n,
            forall|i: int, j: int| 0 <= i < n && 0 <= j < n ==> m@[i][j] == zero_bits(),
    {
        let mut rows: Vec<Vec<u64>> = Vec::new();
        let mut i: usize = 0;
        while i < n
            invariant
                i <= n,
                rows@.len() == i,
                forall|r: int| 0 <= r < i ==> #[trigger] rows@[r]@.len() == n,
                forall|r: int, c: int|
                    0 <= r < i && 0 <= c < n ==> #[trigger] rows@[r]@[c] == zero_bits(),
            decreases n - i,
        {
            let mut row: Vec<u64> = Vec::new();
            let mut j: usize = 0;
            while j < n
                invariant
                    j <= n,
                    row@.len() == j,
                    forall|c: int| 0 <= c < j ==> #[trigger] row@[c] == zero_bits(),
                decreases n - j,
            {
                row.push(0u64);
                j = j + 1;
            }
            rows.push(row);
            i = i + 1;
        }
        Matrix { rows }
    }

    /// Builds a grid from parsed cells, substituting the zero pattern for
    /// every cell whose text could not be read as a number.  The substitution
    /// is deliberate leniency: a malformed field corrupts one entry rather
    /// than rejecting the whole matrix.
    pub fn new(cells: Vec<Vec<Option<u64>>>) -> (m: Matrix)
        requires
            forall|i: int| 0 <= i < cells@.len() ==> #[trigger] cells@[i]@.len() == cells@.len(),
        ensures
            m.wf(),
            m.spec_n() == cells@.len(),
            forall|i: int, j: int|
                0 <= i < m.spec_n() && 0 <= j < m.spec_n() ==> m@[i][j] == cell_value(
                    cells@[i]@[j],
                ),
    {
        let n = cells.len();
        let mut rows: Vec<Vec<u64>> = Vec::new();
        let mut i: usize = 0;
        while i < n
            invariant
                i <= n,
                n == cells@.len(),
                forall|r: int| 0 <= r < n ==> #[trigger] cells@[r]@.len() == n,
                rows@.len() == i,
                forall|r: int| 0 <= r < i ==> #[trigger] rows@[r]@.len() == n,
                forall|r: int, c: int|
                    0 <= r < i && 0 <= c < n ==> #[trigger] rows@[r]@[c] == cell_value(
                        cells@[r]@[c],
                    ),
            decreases n - i,
        {
            let source = &cells[i];
            let mut row: Vec<u64> = Vec::new();
            let mut j: usize = 0;
            while j < n
                invariant
                    j <= n,
                    n == cells@.len(),
                    0 <= i < n,
                    forall|r: int| 0 <= r < n ==> #[trigger] cells@[r]@.len() == n,
                    source == cells@[i as int],
                    row@.len() == j,
                    forall|c: int|
                        0 <= c < j ==> #[trigger] row@[c] == cell_value(cells@[i as int]@[c]),
                decreases n - j,
            {
                let v = match source[j] {
                    Some(bits) => bits,
                    None => 0u64,
                };
                row.push(v);
                j = j + 1;
            }
            rows.push(row);
            i = i + 1;
        }
        Matrix { rows }
    }
}

} // verus!
