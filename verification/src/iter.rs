//! A lazy traversal of one column of a grid, without materializing the
//! column as its own collection.

use vstd::prelude::*;

verus! {

/// A read-only forward traversal over one column of a grid: yields the
/// value at that column of each row, in increasing row order, and is
/// exhausted after the last row.
pub struct ColumnIterator<'a, T> {
    pub matrix: &'a Vec<Vec<T>>,
    pub col_index: usize,
    pub row_index: usize,
}

impl<'a, T> ColumnIterator<'a, T> {
    /// Starts a traversal of column `col_index` at the first row.
    pub fn new(matrix: &'a Vec<Vec<T>>, col_index: usize) -> (it: Self)
        ensures
            it.matrix == matrix,
            it.col_index == col_index,
            it.row_index == 0,
    {
        ColumnIterator { matrix, col_index, row_index: 0 }
    }

    /// Yields the element of the current row at the traversed column and
    /// advances, or yields nothing once every row has been visited.
    pub fn next(&mut self) -> (r: Option<&'a T>)
        requires
            old(self).row_index < old(self).matrix@.len() ==> old(self).col_index < old(
                self,
            ).matrix@[old(self).row_index as int]@.len(),
        ensures
            final(self).matrix == old(self).matrix,
            final(self).col_index == old(self).col_index,
            old(self).row_index < old(self).matrix@.len() ==> {
                &&& final(self).row_index == old(self).row_index + 1
                &&& r is Some
                &&& *r->Some_0 == old(self).matrix@[old(self).row_index as int]@[old(
                    self,
                ).col_index as int]
            },
            old(self).row_index >= old(self).matrix@.len() ==> r is None && final(self).row_index
                == old(self).row_index,
    {
        if self.row_index < self.matrix.len() {
            let item = &self.matrix[self.row_index][self.col_index];
            self.row_index += 1;
            Some(item)
        } else {
            None
        }
    }
}

} // verus!
