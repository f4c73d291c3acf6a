//! The table of distances between the points of a set, as the clustering
//! reads it.

use vstd::prelude::*;

verus! {

/// A table has as many rows as columns, and no more of them than there are
/// row ids.
pub open spec fn is_square(d: Seq<Seq<u64>>) -> bool {
    &&& d.len() <= i32::MAX
    &&& forall|i: int| 0 <= i < d.len() ==> (#[trigger] d[i]).len() == d.len()
}

/// What a vector of rows holds, row by row.
pub open spec fn rows_of(rows: Seq<Vec<u64>>) -> Seq<Seq<u64>> {
    Seq::new(rows.len(), |i: int| rows[i]@)
}

/// The distances between the points of a set, each as an unsigned number
/// that grows with the distance: entry `j` of row `i` stands for the
/// distance from point `i` to point `j`. Only the order of the numbers
/// within a row matters, and what a row holds for its own point is never
/// read.
pub struct DistanceTable {
    rows: Vec<Vec<u64>>,
}

impl View for DistanceTable {
    type V = Seq<Seq<u64>>;

    closed spec fn view(&self) -> Seq<Seq<u64>> {
        rows_of(self.rows@)
    }
}

impl DistanceTable {
    #[verifier::type_invariant]
    spec fn square(self) -> bool {
        is_square(rows_of(self.rows@))
    }

    /// The table with the given rows, if there are as many rows as columns
    /// and at most `i32::MAX` of them.
    pub fn new(rows: Vec<Vec<u64>>) -> (table: Option<DistanceTable>)
        ensures
            table is Some <==> is_square(rows_of(rows@)),
            table matches Some(t) ==> t@ == rows_of(rows@),
    {
        let n = rows.len();
        if n > i32::MAX as usize {
            return None;
        }
        let mut i: usize = 0;
        while i < n
            invariant
                i <= n == rows@.len() <= i32::MAX,
                forall|r: int| 0 <= r < i ==> (#[trigger] rows@[r])@.len() == n,
            decreases n - i,
        {
            if rows[i].len() != n {
                assert(rows_of(rows@)[i as int].len() != n);
                return None;
            }
            i += 1;
        }
        Some(DistanceTable { rows })
    }

    /// The number of points.
    pub fn len(&self) -> (n: usize)
        ensures
            n == self@.len(),
            is_square(self@),
    {
        proof {
            use_type_invariant(self);
        }
        self.rows.len()
    }

    /// The distances from point `i` to each point.
    pub fn row(&self, i: usize) -> (row: &Vec<u64>)
        requires
            i < self@.len(),
        ensures
            row@ == self@[i as int],
            row@.len() == self@.len(),
    {
        proof {
            use_type_invariant(self);
        }
        &self.rows[i]
    }
}

} // verus!
