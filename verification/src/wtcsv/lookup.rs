//! Finding and editing records by their identifier, the first field.
use vstd::prelude::*;
use vstd::hash_map::StringHashMap;
use crate::text::views;
use crate::wtcsv::error::{ErrorView, WTCSVError};
use crate::wtcsv::record::Record;
use crate::wtcsv::table::{TableView, WTCSV};

verus! {

/// Whether some record has the identifier `id`.
pub open spec fn has_id(records: Seq<Seq<Seq<char>>>, id: Seq<char>) -> bool {
    exists|k: int| 0 <= k < records.len() && (#[trigger] records[k])[0] == id
}

/// Whether record `k` is the first with the identifier `id`.
pub open spec fn is_first_with_id(records: Seq<Seq<Seq<char>>>, id: Seq<char>, k: int) -> bool {
    &&& 0 <= k < records.len()
    &&& records[k][0] == id
    &&& forall|j: int| 0 <= j < k ==> (#[trigger] records[j])[0] != id
}

/// Whether record `k` is the last with the identifier `id`.
pub open spec fn is_last_with_id(records: Seq<Seq<Seq<char>>>, id: Seq<char>, k: int) -> bool {
    &&& 0 <= k < records.len()
    &&& records[k][0] == id
    &&& forall|j: int| k < j < records.len() ==> (#[trigger] records[j])[0] != id
}

/// What looking `id` up in a table gives: the first record with that
/// identifier, or the error that names the identifier and the table.
pub open spec fn lookup(table: TableView, id: Seq<char>) -> Result<Seq<Seq<char>>, ErrorView> {
    if has_id(table.records, id) {
        Ok(table.records[choose|k: int| is_first_with_id(table.records, id, k)])
    } else {
        Err(ErrorView::RecordIdNotFound(id, table.name))
    }
}

/// A record with `value` in every field but the first.
pub open spec fn overwritten(record: Seq<Seq<char>>, value: Seq<char>) -> Seq<Seq<char>> {
    Seq::new(
        record.len(),
        |j: int|
            if j == 0 {
                record[0]
            } else {
                value
            },
    )
}

/// What editing `id` in a table gives: the table with the last record of
/// that identifier overwritten, or the error that names the identifier and
/// the table.
pub open spec fn edit(table: TableView, id: Seq<char>, value: Seq<char>) -> Result<
    TableView,
    ErrorView,
> {
    if has_id(table.records, id) {
        let k = choose|k: int| is_last_with_id(table.records, id, k);
        Ok(
            TableView {
                records: table.records.update(k, overwritten(table.records[k], value)),
                ..table
            },
        )
    } else {
        Err(ErrorView::RecordIdNotFound(id, table.name))
    }
}

/// Where exactly one record has the identifier, looking the identifier up
/// gives that record.
pub proof fn lemma_lookup_unique(table: TableView, id: Seq<char>, k: int)
    requires
        0 <= k < table.records.len(),
        table.records[k][0] == id,
        forall|j: int|
            0 <= j < table.records.len() && j != k ==> (#[trigger] table.records[j])[0] != id,
    ensures
        lookup(table, id) == Ok::<Seq<Seq<char>>, ErrorView>(table.records[k]),
{
    assert(is_first_with_id(table.records, id, k));
}

/// Where no record has the identifier, looking it up gives the error that
/// names the identifier and the table, and editing it gives the same error.
pub proof fn lemma_lookup_none(table: TableView, id: Seq<char>, value: Seq<char>)
    requires
        forall|j: int| 0 <= j < table.records.len() ==> (#[trigger] table.records[j])[0] != id,
    ensures
        lookup(table, id) == Err::<Seq<Seq<char>>, ErrorView>(
            ErrorView::RecordIdNotFound(id, table.name),
        ),
        edit(table, id, value) == Err::<TableView, ErrorView>(
            ErrorView::RecordIdNotFound(id, table.name),
        ),
{
}

/// Whether `after` is `before` with record `k`, the last with the identifier
/// `id`, overwritten: its first field as it was, every other field `value`,
/// and every other record as it was.
pub open spec fn is_edited_at(
    before: Seq<Seq<Seq<char>>>,
    after: Seq<Seq<Seq<char>>>,
    id: Seq<char>,
    value: Seq<char>,
    k: int,
) -> bool {
    &&& is_last_with_id(before, id, k)
    &&& after.len() == before.len()
    &&& after[k].len() == before[k].len()
    &&& after[k][0] == id
    &&& forall|j: int| 1 <= j < after[k].len() ==> after[k][j] == value
    &&& forall|i: int| 0 <= i < after.len() && i != k ==> after[i] == before[i]
}

/// After an edit that succeeds, the table has a record in which the first
/// field is the identifier and every other field is the new value, it has
/// every other record as before, and it is as well formed as it was.
pub proof fn lemma_edit_effect(table: TableView, id: Seq<char>, value: Seq<char>)
    requires
        table.wf(),
        has_id(table.records, id),
    ensures
        edit(table, id, value) is Ok,
        edit(table, id, value)->Ok_0.wf(),
        exists|k: int|
            is_edited_at(table.records, edit(table, id, value)->Ok_0.records, id, value, k),
{
    lemma_last_with_id(table.records, id);
    let k = choose|k: int| is_last_with_id(table.records, id, k);
    let after = edit(table, id, value)->Ok_0.records;
    assert(after[k] == overwritten(table.records[k], value));
    assert(table.records[k].len() == table.header.len);
    assert forall|i: int| 0 <= i < after.len() implies (#[trigger] after[i]).len()
        == table.header.len by {
        if i != k {
            assert(after[i] == table.records[i]);
        }
    }
    assert(is_edited_at(table.records, after, id, value, k));
}

/// Among the records with an identifier one is the last.
pub proof fn lemma_last_with_id(records: Seq<Seq<Seq<char>>>, id: Seq<char>)
    requires
        has_id(records, id),
    ensures
        exists|k: int| is_last_with_id(records, id, k),
    decreases records.len(),
{
    let n = records.len() - 1;
    if records[n][0] == id {
        assert(is_last_with_id(records, id, n));
    } else {
        let front = records.drop_last();
        let w = choose|w: int| 0 <= w < records.len() && (#[trigger] records[w])[0] == id;
        assert(front[w][0] == id);
        lemma_last_with_id(front, id);
        let k = choose|k: int| is_last_with_id(front, id, k);
        assert forall|j: int| k < j < records.len() implies (#[trigger] records[j])[0] != id by {
            if j < n {
                assert(front[j][0] != id);
            }
        }
        assert(is_last_with_id(records, id, k));
    }
}

/// Among the records with an identifier one is the first.
pub proof fn lemma_first_with_id(records: Seq<Seq<Seq<char>>>, id: Seq<char>)
    requires
        has_id(records, id),
    ensures
        exists|k: int| is_first_with_id(records, id, k),
    decreases records.len(),
{
    let n = records.len() - 1;
    let front = records.drop_last();
    if has_id(front, id) {
        lemma_first_with_id(front, id);
        let k = choose|k: int| is_first_with_id(front, id, k);
        assert(records[k] == front[k]);
        assert forall|j: int| 0 <= j < k implies (#[trigger] records[j])[0] != id by {
            assert(front[j][0] != id);
        }
        assert(is_first_with_id(records, id, k));
    } else {
        let w = choose|w: int| 0 <= w < records.len() && (#[trigger] records[w])[0] == id;
        if w < n {
            assert(front[w][0] == id);
        }
        assert forall|j: int| 0 <= j < n implies (#[trigger] records[j])[0] != id by {
            assert(front[j][0] == records[j][0]);
        }
        assert(is_first_with_id(records, id, n));
    }
}

/// An index from each identifier of a table to the first record that has
/// it. The caller owns it and hands it to every lookup; after a change to
/// the table the caller clears it, for the table does not.
pub struct RecordIndex {
    map: StringHashMap<Record>,
}

impl View for RecordIndex {
    type V = Map<Seq<char>, Seq<Seq<char>>>;

    closed spec fn view(&self) -> Map<Seq<char>, Seq<Seq<char>>> {
        Map::new(|id: Seq<char>| self.map@.contains_key(id), |id: Seq<char>| self.map@[id]@)
    }
}

/// The index of a table: each identifier that a record has, with the first
/// record that has it.
pub open spec fn record_index(records: Seq<Seq<Seq<char>>>) -> Map<Seq<char>, Seq<Seq<char>>> {
    Map::new(
        |id: Seq<char>| has_id(records, id),
        |id: Seq<char>| records[choose|k: int| is_first_with_id(records, id, k)],
    )
}

/// The index as a lookup leaves it: built from the table where it was
/// empty, else as it was.
pub open spec fn refreshed_records(
    index: Map<Seq<char>, Seq<Seq<char>>>,
    records: Seq<Seq<Seq<char>>>,
) -> Map<Seq<char>, Seq<Seq<char>>> {
    if index.is_empty() {
        record_index(records)
    } else {
        index
    }
}

/// What an index answers for an identifier: the record it has for it, or the
/// error that names the identifier and the table.
pub open spec fn lookup_in(
    index: Map<Seq<char>, Seq<Seq<char>>>,
    id: Seq<char>,
    name: Seq<char>,
) -> Result<Seq<Seq<char>>, ErrorView> {
    if index.contains_key(id) {
        Ok(index[id])
    } else {
        Err(ErrorView::RecordIdNotFound(id, name))
    }
}

/// The index of a table with one more record: the record is added under its
/// identifier unless an earlier record has it.
pub proof fn lemma_record_index_push(records: Seq<Seq<Seq<char>>>, i: int)
    requires
        0 <= i < records.len(),
    ensures
        record_index(records.take(i + 1)) == if has_id(records.take(i), records[i][0]) {
            record_index(records.take(i))
        } else {
            record_index(records.take(i)).insert(records[i][0], records[i])
        },
{
    let before = records.take(i);
    let upto = records.take(i + 1);
    let new_id = records[i][0];
    let grown = if has_id(before, new_id) {
        record_index(before)
    } else {
        record_index(before).insert(new_id, records[i])
    };
    assert forall|id: Seq<char>| has_id(upto, id) <==> has_id(before, id) || id == new_id by {
        if has_id(before, id) {
            let w = choose|w: int| 0 <= w < before.len() && (#[trigger] before[w])[0] == id;
            assert(upto[w][0] == id);
        }
        if id == new_id {
            assert(upto[i][0] == id);
        }
        if has_id(upto, id) {
            let w = choose|w: int| 0 <= w < upto.len() && (#[trigger] upto[w])[0] == id;
            if w < i {
                assert(before[w][0] == id);
            }
        }
    }
    assert forall|id: Seq<char>| has_id(upto, id) implies #[trigger] record_index(upto)[id]
        == grown[id] by {
        lemma_first_with_id(upto, id);
        let k = choose|k: int| is_first_with_id(upto, id, k);
        if has_id(before, id) {
            lemma_first_with_id(before, id);
            let b = choose|b: int| is_first_with_id(before, id, b);
            assert(upto[b][0] == id);
            if k < b {
                assert(before[k][0] == upto[k][0]);
            }
            assert(k == b);
        } else {
            if k < i {
                assert(before[k][0] == id);
            }
            assert(k == i);
        }
    }
    assert(record_index(upto) =~= grown);
}

/// A lookup through an index that is empty, or that was built from the table
/// as it stands, answers as the lookup without an index does, and leaves the
/// index built from the table: so does then every lookup after it.
pub proof fn lemma_buffered_lookup(
    table: TableView,
    index: Map<Seq<char>, Seq<Seq<char>>>,
    id: Seq<char>,
)
    requires
        index.is_empty() || index == record_index(table.records),
    ensures
        refreshed_records(index, table.records) == record_index(table.records),
        lookup_in(refreshed_records(index, table.records), id, table.name) == lookup(table, id),
{
}

impl RecordIndex {
    /// An empty index.
    pub fn new() -> (index: RecordIndex)
        ensures
            index@ == Map::<Seq<char>, Seq<Seq<char>>>::empty(),
    {
        let index = RecordIndex { map: StringHashMap::new() };
        assert(index@ =~= Map::<Seq<char>, Seq<Seq<char>>>::empty());
        index
    }

    /// Whether the index holds no identifier.
    pub fn is_empty(&self) -> (empty: bool)
        ensures
            empty == self@.is_empty(),
    {
        assert(self@.dom() =~= self.map@.dom());
        self.map.is_empty()
    }

    /// Empties the index, so that the next lookup builds it anew.
    pub fn clear(&mut self)
        ensures
            final(self)@ == Map::<Seq<char>, Seq<Seq<char>>>::empty(),
    {
        self.map.clear();
        assert(self@ =~= Map::<Seq<char>, Seq<Seq<char>>>::empty());
    }

    /// Adds `record` under `id` unless the index has a record for `id`.
    fn add(&mut self, id: &String, record: &Record)
        ensures
            final(self)@ == if old(self)@.contains_key(id@) {
                old(self)@
            } else {
                old(self)@.insert(id@, record@)
            },
    {
        if !self.map.contains_key(id.as_str()) {
            self.map.insert(id.clone(), record.clone());
        }
        assert(self@ =~= if old(self)@.contains_key(id@) {
            old(self)@
        } else {
            old(self)@.insert(id@, record@)
        });
    }

    /// The record that the index has for `id`, or the error that names `id`
    /// and `name`.
    fn get(&self, id: &str, name: &String) -> (result: Result<Record, WTCSVError>)
        ensures
            match result {
                Ok(record) => lookup_in(self@, id@, name@) == Ok::<Seq<Seq<char>>, ErrorView>(
                    record@,
                ),
                Err(e) => lookup_in(self@, id@, name@) == Err::<Seq<Seq<char>>, ErrorView>(e@),
            },
    {
        match self.map.get(id) {
            Some(record) => Ok(record.clone()),
            None => Err(WTCSVError::RecordIdNotFound(id.to_owned(), name.clone())),
        }
    }
}

impl WTCSV {
    /// Builds the index of the table into `buffer`, which is empty.
    fn fill_records(&self, buffer: &mut RecordIndex)
        requires
            self.wf(),
            old(buffer)@.is_empty(),
        ensures
            final(buffer)@ == record_index(self@.records),
    {
        let ghost records = self@.records;
        let mut i: usize = 0;
        assert(records.take(0) =~= Seq::<Seq<Seq<char>>>::empty());
        assert(buffer@ =~= record_index(records.take(0)));
        while i < self.records.len()
            invariant
                i <= self.records.len(),
                self.wf(),
                records == self@.records,
                buffer@ == record_index(records.take(i as int)),
            decreases self.records.len() - i,
        {
            proof {
                assert(records[i as int].len() == self.header.len);
                lemma_record_index_push(records, i as int);
            }
            buffer.add(&self.records[i].items[0], &self.records[i]);
            i += 1;
        }
        assert(records.take(i as int) =~= records);
    }

    /// The record that `buffer` has for the identifier `id`, or
    /// `RecordIdNotFound` where it has none. An empty buffer is first built
    /// from the table; one that is not empty is taken as it is, so a buffer
    /// built from the table as it stands answers every lookup as
    /// `get_record_by_id_vec` does, without reading the table again.
    pub fn get_buffered_record_by_id(&self, id: &str, buffer: &mut RecordIndex) -> (result: Result<
        Record,
        WTCSVError,
    >)
        requires
            self.wf(),
        ensures
            final(buffer)@ == refreshed_records(old(buffer)@, self@.records),
            match result {
                Ok(record) => lookup_in(final(buffer)@, id@, self@.name) == Ok::<
                    Seq<Seq<char>>,
                    ErrorView,
                >(record@),
                Err(e) => lookup_in(final(buffer)@, id@, self@.name) == Err::<
                    Seq<Seq<char>>,
                    ErrorView,
                >(e@),
            },
    {
        if buffer.is_empty() {
            self.fill_records(buffer);
        }
        buffer.get(id, &self.name)
    }

    /// Sets every field but the first to `new_target` in the record with the
    /// identifier `id`; where several records have it, in the last of them.
    /// Where none has it, fails with `RecordIdNotFound` and leaves the table
    /// as it was.
    pub fn edit_record_by_id(&mut self, id: &str, new_target: &str) -> (result: Result<
        (),
        WTCSVError,
    >)
        requires
            old(self).wf(),
        ensures
            final(self).wf(),
            match result {
                Ok(()) => edit(old(self)@, id@, new_target@) == Ok::<TableView, ErrorView>(
                    final(self)@,
                ),
                Err(e) => edit(old(self)@, id@, new_target@) == Err::<TableView, ErrorView>(e@)
                    && *final(self) == *old(self),
            },
    {
        let key = id.to_owned();
        let ghost records = self@.records;
        let mut found: Option<usize> = None;
        let mut i: usize = 0;
        while i < self.records.len()
            invariant
                i <= self.records.len(),
                *self == *old(self),
                self.wf(),
                records == self@.records,
                key@ == id@,
                match found {
                    Some(k) => k < i && records[k as int][0] == id@ && forall|j: int|
                        k < j < i ==> (#[trigger] records[j])[0] != id@,
                    None => forall|j: int| 0 <= j < i ==> (#[trigger] records[j])[0] != id@,
                },
            decreases self.records.len() - i,
        {
            assert(records[i as int].len() == self.header.len);
            if self.records[i].items[0] == key {
                found = Some(i);
            }
            i += 1;
        }
        match found {
            None => Err(WTCSVError::RecordIdNotFound(key, self.name.clone())),
            Some(k) => {
                assert(is_last_with_id(records, id@, k as int));
                assert(records[k as int].len() == self.header.len);
                let width = self.records[k].items.len();
                let mut items: Vec<String> = Vec::new();
                items.push(self.records[k].items[0].clone());
                let mut j: usize = 1;
                while j < width
                    invariant
                        1 <= j <= width,
                        items.len() == j,
                        items@[0]@ == records[k as int][0],
                        forall|n: int| 1 <= n < j ==> (#[trigger] items@[n])@ == new_target@,
                    decreases width - j,
                {
                    items.push(new_target.to_owned());
                    j += 1;
                }
                assert(views(items@) =~= overwritten(records[k as int], new_target@));
                self.records[k] = Record { items };
                assert(self@.records =~= records.update(
                    k as int,
                    overwritten(records[k as int], new_target@),
                ));
                Ok(())
            },
        }
    }

    /// The first record with the identifier `id`, or `RecordIdNotFound`
    /// where no record has it.
    pub fn get_record_by_id_vec(&self, id: &str) -> (result: Result<Record, WTCSVError>)
        requires
            self.wf(),
        ensures
            match result {
                Ok(record) => lookup(self@, id@) == Ok::<Seq<Seq<char>>, ErrorView>(record@),
                Err(e) => lookup(self@, id@) == Err::<Seq<Seq<char>>, ErrorView>(e@),
            },
    {
        let key = id.to_owned();
        let ghost records = self@.records;
        let mut i: usize = 0;
        while i < self.records.len()
            invariant
                i <= self.records.len(),
                self.wf(),
                records == self@.records,
                key@ == id@,
                forall|j: int| 0 <= j < i ==> (#[trigger] records[j])[0] != id@,
            decreases self.records.len() - i,
        {
            assert(records[i as int].len() == self.header.len);
            if self.records[i].items[0] == key {
                assert(is_first_with_id(records, id@, i as int));
                return Ok(self.records[i].clone());
            }
            i += 1;
        }
        Err(WTCSVError::RecordIdNotFound(key, self.name.clone()))
    }
}

} // verus!
