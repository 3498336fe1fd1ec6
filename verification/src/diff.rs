//! The records in which two tables of one shape differ.
use vstd::prelude::*;
use crate::wtcsv::compatibility::{compatibility, is_first_mismatch};
use crate::wtcsv::error::{ErrorView, WTCSVError};
use crate::wtcsv::table::{TableView, WTCSV};

verus! {

/// One record that differs between two tables: its identifier in the left
/// table, and the first field that differs as each table has it.
#[derive(Debug)]
pub struct Diff {
    pub id: String,
    pub old: String,
    pub new: String,
}

/// A difference with its strings as character sequences.
pub ghost struct DiffView {
    pub id: Seq<char>,
    pub old: Seq<char>,
    pub new: Seq<char>,
}

impl View for Diff {
    type V = DiffView;

    open spec fn view(&self) -> DiffView {
        DiffView { id: self.id@, old: self.old@, new: self.new@ }
    }
}

/// The views of the differences of `diffs`, in order.
pub open spec fn diff_views(diffs: Seq<Diff>) -> Seq<DiffView> {
    Seq::new(diffs.len(), |i: int| diffs[i]@)
}

/// What is reported of two records at the same place: nothing where every
/// field of the left one is the same in the right one, else the first field
/// that is not, and no later one.
pub open spec fn record_diff(left: Seq<Seq<char>>, right: Seq<Seq<char>>) -> Option<DiffView> {
    if exists|j: int| is_first_mismatch(left, right, j) {
        let j = choose|j: int| is_first_mismatch(left, right, j);
        Some(DiffView { id: left[0], old: left[j], new: right[j] })
    } else {
        None
    }
}

/// What is reported of the first `n` records of two tables, in their order.
pub open spec fn record_diffs(
    left: Seq<Seq<Seq<char>>>,
    right: Seq<Seq<Seq<char>>>,
    n: nat,
) -> Seq<DiffView>
    decreases n,
{
    if n == 0 {
        Seq::empty()
    } else {
        let before = record_diffs(left, right, (n - 1) as nat);
        match record_diff(left[n - 1], right[n - 1]) {
            Some(d) => before.push(d),
            None => before,
        }
    }
}

/// What comparing two tables gives: the error of their shapes, or what is
/// reported of their records.
pub open spec fn diff(left: TableView, right: TableView) -> Result<Seq<DiffView>, ErrorView> {
    match compatibility(left, right) {
        Err(e) => Err(e),
        Ok(_) => Ok(record_diffs(left.records, right.records, left.records.len())),
    }
}

/// Where two tables of one shape differ in one record only, that record is
/// reported once, with the first of its fields that differs, however many
/// of them do.
pub proof fn lemma_diff_one_record(left: TableView, right: TableView, k: int, j: int)
    requires
        compatibility(left, right) is Ok,
        0 <= k < left.records.len(),
        is_first_mismatch(left.records[k], right.records[k], j),
        forall|i: int|
            0 <= i < left.records.len() && i != k ==> left.records[i] == right.records[i],
    ensures
        diff(left, right) == Ok::<Seq<DiffView>, ErrorView>(
            seq![
                DiffView {
                    id: left.records[k][0],
                    old: left.records[k][j],
                    new: right.records[k][j],
                },
            ],
        ),
{
    let found = DiffView {
        id: left.records[k][0],
        old: left.records[k][j],
        new: right.records[k][j],
    };
    assert(record_diff(left.records[k], right.records[k]) == Some(found));
    lemma_diffs_around(left.records, right.records, k, left.records.len());
    assert(Seq::<DiffView>::empty().push(found) =~= seq![found]);
}

/// The reports of records that are the same on both sides are empty, and one
/// record that differs adds its one report.
proof fn lemma_diffs_around(
    left: Seq<Seq<Seq<char>>>,
    right: Seq<Seq<Seq<char>>>,
    k: int,
    n: nat,
)
    requires
        0 <= k < left.len(),
        n <= left.len(),
        record_diff(left[k], right[k]) is Some,
        forall|i: int| 0 <= i < left.len() && i != k ==> left[i] == right[i],
    ensures
        record_diffs(left, right, n) == if n <= k {
            Seq::<DiffView>::empty()
        } else {
            Seq::<DiffView>::empty().push(record_diff(left[k], right[k])->0)
        },
    decreases n,
{
    if n > 0 {
        lemma_diffs_around(left, right, k, (n - 1) as nat);
        if n - 1 != k {
            assert(left[n - 1] == right[n - 1]);
            assert(record_diff(left[n - 1], right[n - 1]) is None);
        }
    }
}

impl Diff {
    /// Compares two tables record by record. Fails as `is_same` does where
    /// the tables have not one shape. Of a record that differs only the
    /// first differing field is reported.
    pub fn diff_from_ref(left: &WTCSV, right: &WTCSV) -> (result: Result<Vec<Diff>, WTCSVError>)
        requires
            left.wf(),
            right.wf(),
        ensures
            match result {
                Ok(diffs) => diff(left@, right@) == Ok::<Seq<DiffView>, ErrorView>(
                    diff_views(diffs@),
                ),
                Err(e) => diff(left@, right@) == Err::<Seq<DiffView>, ErrorView>(e@),
            },
    {
        match left.is_same(right) {
            Err(e) => {
                return Err(e);
            },
            Ok(()) => {},
        }
        let ghost ls = left@.records;
        let ghost rs = right@.records;
        let mut diffs: Vec<Diff> = Vec::new();
        let mut i: usize = 0;
        assert(diff_views(diffs@) =~= record_diffs(ls, rs, 0));
        while i < left.records.len()
            invariant
                i <= left.records.len(),
                left.wf(),
                right.wf(),
                compatibility(left@, right@) is Ok,
                ls == left@.records,
                rs == right@.records,
                diff_views(diffs@) == record_diffs(ls, rs, i as nat),
            decreases left.records.len() - i,
        {
            let record = &left.records[i];
            let other = &right.records[i];
            assert(ls[i as int].len() == left.header.len);
            assert(rs[i as int].len() == right.header.len);
            let mut j: usize = 0;
            let mut found = false;
            while j < record.items.len() && !found
                invariant
                    j <= record.items.len(),
                    record.items.len() == other.items.len(),
                    record.items.len() >= 1,
                    ls[i as int] == record@,
                    rs[i as int] == other@,
                    !found ==> forall|n: int| 0 <= n < j ==> ls[i as int][n] == rs[i as int][n],
                    !found ==> diff_views(diffs@) == record_diffs(ls, rs, i as nat),
                    found ==> diff_views(diffs@) == record_diffs(ls, rs, (i + 1) as nat),
                decreases record.items.len() - j + if found { 0int } else { 1int },
            {
                if !(other.items[j] == record.items[j]) {
                    let d = Diff {
                        id: record.items[0].clone(),
                        old: record.items[j].clone(),
                        new: other.items[j].clone(),
                    };
                    proof {
                        assert(is_first_mismatch(ls[i as int], rs[i as int], j as int));
                        assert(record_diff(ls[i as int], rs[i as int]) == Some(d@));
                        assert(diff_views(diffs@.push(d)) =~= diff_views(diffs@).push(d@));
                    }
                    diffs.push(d);
                    found = true;
                } else {
                    j += 1;
                }
            }
            proof {
                if !found {
                    assert(record_diff(ls[i as int], rs[i as int]) is None);
                }
            }
            i += 1;
        }
        Ok(diffs)
    }
}

} // verus!
