//! Whether two tables can be compared record by record.
use vstd::prelude::*;
use crate::text::views;
use crate::wtcsv::error::{ErrorView, WTCSVError};
use crate::wtcsv::table::{TableView, WTCSV};

verus! {

/// Whether place `i` is the first at which `left` has another string than
/// `right`.
pub open spec fn is_first_mismatch(left: Seq<Seq<char>>, right: Seq<Seq<char>>, i: int) -> bool {
    &&& 0 <= i < left.len()
    &&& left[i] != right[i]
    &&& forall|j: int| 0 <= j < i ==> left[j] == right[j]
}

/// What comparing the shapes of two tables gives. The number of columns is
/// looked at first, then the number of records, then the names of the
/// columns from the first on; the first of these that differs is the error.
pub open spec fn compatibility(left: TableView, right: TableView) -> Result<(), ErrorView> {
    let names = left.header.params;
    let others = right.header.params;
    if names.len() != others.len() {
        Err(ErrorView::HeaderLen(names.len(), others.len()))
    } else if left.records.len() != right.records.len() {
        Err(ErrorView::RecordLength(left.records.len(), right.records.len()))
    } else if exists|i: int| is_first_mismatch(names, others, i) {
        let i = choose|i: int| is_first_mismatch(names, others, i);
        Err(ErrorView::HeaderContent(names[i], others[i]))
    } else {
        Ok(())
    }
}

impl WTCSV {
    /// Checks that `other` has the columns of this table, under the same
    /// names, and as many records. Neither table is changed.
    pub fn is_same(&self, other: &Self) -> (result: Result<(), WTCSVError>)
        ensures
            match result {
                Ok(()) => compatibility(self@, other@) is Ok,
                Err(e) => compatibility(self@, other@) == Err::<(), ErrorView>(e@),
            },
    {
        if self.header.params.len() != other.header.params.len() {
            return Err(
                WTCSVError::HeaderLen(self.header.params.len(), other.header.params.len()),
            );
        }
        if self.records.len() != other.records.len() {
            return Err(WTCSVError::RecordLength(self.records.len(), other.records.len()));
        }
        let ghost names = self@.header.params;
        let ghost others = other@.header.params;
        let mut i: usize = 0;
        while i < self.header.params.len()
            invariant
                i <= self.header.params.len(),
                self.header.params.len() == other.header.params.len(),
                self.records.len() == other.records.len(),
                names == views(self.header.params@),
                others == views(other.header.params@),
                forall|j: int| 0 <= j < i ==> names[j] == others[j],
            decreases self.header.params.len() - i,
        {
            if !(other.header.params[i] == self.header.params[i]) {
                assert(is_first_mismatch(names, others, i as int));
                return Err(
                    WTCSVError::HeaderContent(
                        self.header.params[i].clone(),
                        other.header.params[i].clone(),
                    ),
                );
            }
            i += 1;
        }
        Ok(())
    }
}

} // verus!
