//! Finding the identifiers of the records that hold a value, with and
//! without an index that the caller keeps between queries.
use vstd::prelude::*;
use vstd::hash_map::StringHashMap;
use crate::order::{
    ascending, insert_sorted, lemma_insert_sorted_ascending, lemma_insert_sorted_holds,
    lemma_insert_sorted_twice, lemma_lex_asymmetric, lemma_lex_total, lex_less,
};
use crate::text::views;
use crate::wtcsv::table::WTCSV;

verus! {

/// The identifiers of the records that hold `value` in any field, the first
/// among them, each once and in ascending order.
pub open spec fn ids_by_value(records: Seq<Seq<Seq<char>>>, value: Seq<char>) -> Seq<Seq<char>>
    decreases records.len(),
{
    if records.len() == 0 {
        Seq::empty()
    } else {
        let before = ids_by_value(records.drop_last(), value);
        if records.last().contains(value) {
            insert_sorted(before, records.last()[0])
        } else {
            before
        }
    }
}

/// Whether some record holds `value` and has the identifier `id`.
pub open spec fn id_holds_value(
    records: Seq<Seq<Seq<char>>>,
    value: Seq<char>,
    id: Seq<char>,
) -> bool {
    exists|k: int|
        0 <= k < records.len() && (#[trigger] records[k]).contains(value) && records[k][0] == id
}

/// The identifiers by value are ascending, and they are the identifiers of
/// the records that hold the value, no more and no fewer.
pub proof fn lemma_ids_by_value(records: Seq<Seq<Seq<char>>>, value: Seq<char>)
    ensures
        ascending(ids_by_value(records, value)),
        forall|id: Seq<char>|
            ids_by_value(records, value).contains(id) <==> id_holds_value(records, value, id),
    decreases records.len(),
{
    if records.len() > 0 {
        let front = records.drop_last();
        let before = ids_by_value(front, value);
        let last = records.last();
        lemma_ids_by_value(front, value);
        if last.contains(value) {
            lemma_insert_sorted_ascending(before, last[0]);
        }
        assert forall|id: Seq<char>|
            ids_by_value(records, value).contains(id) <==> id_holds_value(
                records,
                value,
                id,
            ) by {
            if last.contains(value) {
                lemma_insert_sorted_holds(before, last[0], id);
            }
            if id_holds_value(front, value, id) {
                let k = choose|k: int|
                    0 <= k < front.len() && (#[trigger] front[k]).contains(value) && front[k][0]
                        == id;
                assert(records[k].contains(value) && records[k][0] == id);
            }
            if id_holds_value(records, value, id) {
                let k = choose|k: int|
                    0 <= k < records.len() && (#[trigger] records[k]).contains(value)
                        && records[k][0] == id;
                if k < front.len() {
                    assert(front[k].contains(value) && front[k][0] == id);
                }
            }
            if last.contains(value) && id == last[0] {
                assert(records[records.len() - 1].contains(value));
            }
        }
    }
}

/// Puts `id` in its place in the ascending `ids`, unless it is there.
fn insert_id(ids: &mut Vec<String>, id: &String)
    ensures
        views(final(ids)@) == insert_sorted(views(old(ids)@), id@),
{
    let ghost all = views(ids@);
    let mut p: usize = ids.len();
    assert(all.take(p as int) =~= all);
    assert(all.skip(p as int) =~= Seq::<Seq<char>>::empty());
    while p > 0 && lex_less(id.as_str(), ids[p - 1].as_str())
        invariant
            p <= ids.len(),
            all == views(ids@),
            *ids == *old(ids),
            insert_sorted(all, id@) == insert_sorted(all.take(p as int), id@) + all.skip(p as int),
        decreases p,
    {
        proof {
            let front = all.take(p as int);
            lemma_lex_asymmetric(id@, all[p - 1]);
            assert(front.last() == all[p - 1]);
            assert(front.drop_last() =~= all.take(p - 1));
            assert(insert_sorted(front, id@) == insert_sorted(all.take(p - 1), id@).push(
                all[p - 1],
            ));
            assert(insert_sorted(all.take(p - 1), id@).push(all[p - 1]) + all.skip(p as int)
                =~= insert_sorted(all.take(p - 1), id@) + all.skip(p - 1));
        }
        p -= 1;
    }
    proof {
        let front = all.take(p as int);
        if p > 0 {
            assert(front.last() == all[p - 1]);
            lemma_lex_total(all[p - 1], id@);
        }
    }
    if p > 0 && ids[p - 1] == *id {
        assert(all.take(p as int) + all.skip(p as int) =~= all);
    } else {
        ids.insert(p, id.clone());
        assert(views(ids@) =~= all.take(p as int).push(id@) + all.skip(p as int));
    }
}

/// Whether `items` holds `value`.
fn holds(items: &Vec<String>, value: &String) -> (found: bool)
    ensures
        found == views(items@).contains(value@),
{
    let mut j: usize = 0;
    while j < items.len()
        invariant
            j <= items.len(),
            forall|n: int| 0 <= n < j ==> views(items@)[n] != value@,
        decreases items.len() - j,
    {
        if items[j] == *value {
            assert(views(items@)[j as int] == value@);
            return true;
        }
        j += 1;
    }
    false
}

/// An index from each value of a table to the identifiers of the records
/// that hold it. The caller owns it and hands it to every query; after a
/// change to the table the caller clears it, for the table does not.
pub struct ValueIndex {
    map: StringHashMap<Vec<String>>,
}

impl View for ValueIndex {
    type V = Map<Seq<char>, Seq<Seq<char>>>;

    closed spec fn view(&self) -> Map<Seq<char>, Seq<Seq<char>>> {
        Map::new(|v: Seq<char>| self.map@.contains_key(v), |v: Seq<char>| views(self.map@[v]@))
    }
}

/// Whether some record holds `value` in one of its fields.
pub open spec fn holds_somewhere(records: Seq<Seq<Seq<char>>>, value: Seq<char>) -> bool {
    exists|k: int| 0 <= k < records.len() && (#[trigger] records[k]).contains(value)
}

/// The index of a table: each value that stands in it, with the identifiers
/// by that value.
pub open spec fn value_index(records: Seq<Seq<Seq<char>>>) -> Map<Seq<char>, Seq<Seq<char>>> {
    Map::new(
        |v: Seq<char>| holds_somewhere(records, v),
        |v: Seq<char>| ids_by_value(records, v),
    )
}

/// The index as a query leaves it: built from the table where it was empty,
/// else as it was.
pub open spec fn refreshed(
    index: Map<Seq<char>, Seq<Seq<char>>>,
    records: Seq<Seq<Seq<char>>>,
) -> Map<Seq<char>, Seq<Seq<char>>> {
    if index.is_empty() {
        value_index(records)
    } else {
        index
    }
}

/// What an index answers for a value: the identifiers it has for it, or none.
pub open spec fn answer(index: Map<Seq<char>, Seq<Seq<char>>>, value: Seq<char>) -> Seq<
    Seq<char>,
> {
    if index.contains_key(value) {
        index[value]
    } else {
        Seq::empty()
    }
}

/// The index while it is built: after the first `i` records and the first
/// `j` fields of the next.
pub open spec fn partial_index(records: Seq<Seq<Seq<char>>>, i: int, j: int) -> Map<
    Seq<char>,
    Seq<Seq<char>>,
> {
    Map::new(
        |v: Seq<char>| holds_somewhere(records.take(i), v) || records[i].take(j).contains(v),
        |v: Seq<char>|
            if records[i].take(j).contains(v) {
                insert_sorted(ids_by_value(records.take(i), v), records[i][0])
            } else {
                ids_by_value(records.take(i), v)
            },
    )
}

/// A value that no record holds has no identifiers.
pub proof fn lemma_ids_by_value_none(records: Seq<Seq<Seq<char>>>, value: Seq<char>)
    requires
        !holds_somewhere(records, value),
    ensures
        ids_by_value(records, value) == Seq::<Seq<char>>::empty(),
    decreases records.len(),
{
    if records.len() > 0 {
        let front = records.drop_last();
        assert(!holds_somewhere(front, value)) by {
            if holds_somewhere(front, value) {
                let k = choose|k: int|
                    0 <= k < front.len() && (#[trigger] front[k]).contains(value);
                assert(records[k].contains(value));
            }
        }
        lemma_ids_by_value_none(front, value);
        assert(!records[records.len() - 1].contains(value));
    }
}

/// Building starts each record from the index of the records before it.
pub proof fn lemma_partial_index_start(records: Seq<Seq<Seq<char>>>, i: int)
    requires
        0 <= i < records.len(),
    ensures
        partial_index(records, i, 0) == value_index(records.take(i)),
{
    assert(records[i].take(0) =~= Seq::<Seq<char>>::empty());
    assert(partial_index(records, i, 0) =~= value_index(records.take(i)));
}

/// Building ends each record with the index of the records up to it.
pub proof fn lemma_partial_index_end(records: Seq<Seq<Seq<char>>>, i: int)
    requires
        0 <= i < records.len(),
    ensures
        partial_index(records, i, records[i].len() as int) == value_index(records.take(i + 1)),
{
    let before = records.take(i);
    let upto = records.take(i + 1);
    assert(records[i].take(records[i].len() as int) =~= records[i]);
    assert(upto.drop_last() =~= before);
    assert(upto.last() == records[i]);
    assert forall|v: Seq<char>|
        holds_somewhere(upto, v) <==> holds_somewhere(before, v) || records[i].contains(v) by {
        if holds_somewhere(before, v) {
            let k = choose|k: int| 0 <= k < before.len() && (#[trigger] before[k]).contains(v);
            assert(upto[k].contains(v));
        }
        if records[i].contains(v) {
            assert(upto[i].contains(v));
        }
        if holds_somewhere(upto, v) {
            let k = choose|k: int| 0 <= k < upto.len() && (#[trigger] upto[k]).contains(v);
            if k < i {
                assert(before[k].contains(v));
            }
        }
    }
    assert(partial_index(records, i, records[i].len() as int) =~= value_index(upto));
}

/// Building goes on, field by field, by putting the record's identifier in
/// its place among those that the index has for the field's value.
pub proof fn lemma_partial_index_step(records: Seq<Seq<Seq<char>>>, i: int, j: int)
    requires
        0 <= i < records.len(),
        0 <= j < records[i].len(),
    ensures
        partial_index(records, i, j + 1) == partial_index(records, i, j).insert(
            records[i][j],
            insert_sorted(answer(partial_index(records, i, j), records[i][j]), records[i][0]),
        ),
{
    let item = records[i][j];
    let id = records[i][0];
    let before = records[i].take(j);
    let upto = records[i].take(j + 1);
    let prev = ids_by_value(records.take(i), item);
    assert(upto.drop_last() =~= before);
    assert(upto.last() == item);
    assert(upto.contains(item)) by {
        assert(upto[j] == item);
    }
    assert forall|v: Seq<char>| upto.contains(v) <==> before.contains(v) || v == item by {
        if before.contains(v) {
            let n = choose|n: int| 0 <= n < before.len() && before[n] == v;
            assert(upto[n] == v);
        }
        if upto.contains(v) {
            let n = choose|n: int| 0 <= n < upto.len() && upto[n] == v;
            if n < j {
                assert(before[n] == v);
            }
        }
    }
    if before.contains(item) {
        lemma_insert_sorted_twice(prev, id);
    } else if !holds_somewhere(records.take(i), item) {
        lemma_ids_by_value_none(records.take(i), item);
    }
    assert(partial_index(records, i, j + 1) =~= partial_index(records, i, j).insert(
        item,
        insert_sorted(answer(partial_index(records, i, j), item), id),
    ));
}

/// A query through an index that is empty, or that was built from the table
/// as it stands, answers as the query without an index does, and leaves the
/// index built from the table: so does then every query after it.
pub proof fn lemma_buffered_query(
    records: Seq<Seq<Seq<char>>>,
    index: Map<Seq<char>, Seq<Seq<char>>>,
    value: Seq<char>,
)
    requires
        index.is_empty() || index == value_index(records),
    ensures
        refreshed(index, records) == value_index(records),
        answer(refreshed(index, records), value) == ids_by_value(records, value),
{
    if !holds_somewhere(records, value) {
        lemma_ids_by_value_none(records, value);
    }
}

impl ValueIndex {
    /// An empty index.
    pub fn new() -> (index: ValueIndex)
        ensures
            index@ == Map::<Seq<char>, Seq<Seq<char>>>::empty(),
    {
        let index = ValueIndex { map: StringHashMap::new() };
        assert(index@ =~= Map::<Seq<char>, Seq<Seq<char>>>::empty());
        index
    }

    /// Whether the index holds no value.
    pub fn is_empty(&self) -> (empty: bool)
        ensures
            empty == self@.is_empty(),
    {
        assert(self@.dom() =~= self.map@.dom());
        self.map.is_empty()
    }

    /// Empties the index, so that the next query builds it anew.
    pub fn clear(&mut self)
        ensures
            final(self)@ == Map::<Seq<char>, Seq<Seq<char>>>::empty(),
    {
        self.map.clear();
        assert(self@ =~= Map::<Seq<char>, Seq<Seq<char>>>::empty());
    }

    /// The identifiers that the index has for `value`, or none.
    fn get(&self, value: &str) -> (ids: Vec<String>)
        ensures
            views(ids@) == answer(self@, value@),
    {
        match self.map.get(value) {
            Some(ids) => {
                let ids = ids.clone();
                assert(views(ids@) =~= answer(self@, value@));
                ids
            },
            None => Vec::new(),
        }
    }

    /// Sets the identifiers for `value`.
    fn set(&mut self, value: String, ids: Vec<String>)
        ensures
            final(self)@ == old(self)@.insert(value@, views(ids@)),
    {
        self.map.insert(value, ids);
        assert(self@ =~= old(self)@.insert(value@, views(ids@)));
    }
}

impl WTCSV {
    /// Builds the index of the table into `buffer`, which is empty.
    fn fill(&self, buffer: &mut ValueIndex)
        requires
            self.wf(),
            old(buffer)@.is_empty(),
        ensures
            final(buffer)@ == value_index(self@.records),
    {
        let ghost records = self@.records;
        let mut i: usize = 0;
        assert(records.take(0) =~= Seq::<Seq<Seq<char>>>::empty());
        assert(buffer@ =~= value_index(records.take(0)));
        while i < self.records.len()
            invariant
                i <= self.records.len(),
                self.wf(),
                records == self@.records,
                buffer@ == value_index(records.take(i as int)),
            decreases self.records.len() - i,
        {
            let items = &self.records[i].items;
            let mut j: usize = 0;
            proof {
                lemma_partial_index_start(records, i as int);
                assert(records[i as int].len() == self.header.len);
            }
            while j < items.len()
                invariant
                    i < self.records.len(),
                    j <= items.len(),
                    items.len() >= 1,
                    records == self@.records,
                    records[i as int] == views(items@),
                    buffer@ == partial_index(records, i as int, j as int),
                decreases items.len() - j,
            {
                let mut ids = buffer.get(items[j].as_str());
                insert_id(&mut ids, &items[0]);
                buffer.set(items[j].clone(), ids);
                proof {
                    lemma_partial_index_step(records, i as int, j as int);
                }
                j += 1;
            }
            proof {
                lemma_partial_index_end(records, i as int);
            }
            i += 1;
        }
        assert(records.take(i as int) =~= records);
    }

    /// The identifiers by `parameter` as `buffer` has them. An empty buffer is
    /// first built from the table; one that is not empty is taken as it is,
    /// so a buffer built from the table as it stands answers every query as
    /// `get_ids_by_parameter` does, without reading the table again.
    pub fn get_buffered_ids_by_parameter(&self, parameter: &str, buffer: &mut ValueIndex) -> (ids:
        Vec<String>)
        requires
            self.wf(),
        ensures
            final(buffer)@ == refreshed(old(buffer)@, self@.records),
            views(ids@) == answer(final(buffer)@, parameter@),
    {
        if buffer.is_empty() {
            self.fill(buffer);
        }
        buffer.get(parameter)
    }

    /// The identifiers of the records that hold `parameter` in any of their
    /// fields, each once, in ascending order whatever the order of the
    /// records.
    #[must_use]
    pub fn get_ids_by_parameter(&self, parameter: &str) -> (ids: Vec<String>)
        requires
            self.wf(),
        ensures
            views(ids@) == ids_by_value(self@.records, parameter@),
            ascending(views(ids@)),
            forall|id: Seq<char>|
                views(ids@).contains(id) <==> id_holds_value(self@.records, parameter@, id),
    {
        let value = parameter.to_owned();
        let ghost records = self@.records;
        let mut ids: Vec<String> = Vec::new();
        let mut i: usize = 0;
        assert(records.take(0) =~= Seq::<Seq<Seq<char>>>::empty());
        assert(views(ids@) =~= ids_by_value(records.take(0), value@));
        while i < self.records.len()
            invariant
                i <= self.records.len(),
                self.wf(),
                records == self@.records,
                value@ == parameter@,
                views(ids@) == ids_by_value(records.take(i as int), value@),
            decreases self.records.len() - i,
        {
            proof {
                assert(records.take(i + 1).drop_last() =~= records.take(i as int));
                assert(records.take(i + 1).last() == records[i as int]);
                assert(records[i as int].len() == self.header.len);
            }
            if holds(&self.records[i].items, &value) {
                insert_id(&mut ids, &self.records[i].items[0]);
            }
            i += 1;
        }
        proof {
            assert(records.take(i as int) =~= records);
            lemma_ids_by_value(records, value@);
        }
        ids
    }
}

} // verus!
