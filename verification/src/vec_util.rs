//! Small helpers on vectors.

use vstd::prelude::*;

verus! {

/// Copies a row element by element.
pub(crate) fn copy_row<T: Copy>(row: &Vec<T>) -> (r: Vec<T>)
    ensures
        r@ == row@,
{
    let mut r: Vec<T> = Vec::new();
    let mut j: usize = 0;
    while j < row.len()
        invariant
            j <= row.len(),
            r@ == row@.take(j as int),
        decreases row.len() - j,
    {
        r.push(row[j]);
        j += 1;
        assert(r@ =~= row@.take(j as int));
    }
    assert(r@ =~= row@);
    r
}

} // verus!
