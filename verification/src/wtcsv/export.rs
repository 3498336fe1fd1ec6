//! Writing a table back to text.
use vstd::prelude::*;
use vstd::string::StringExecFns;
use crate::text::{concat, join, push_char, views};
use crate::wtcsv::table::{TableView, WTCSV};
use crate::{CARRIAGE_RETURN, DELIMITER, QUOTE, RECORD_SEP};

verus! {

/// A field as a line spells it: bare where it is empty, else between quotes.
pub open spec fn quote(field: Seq<char>) -> Seq<char> {
    if field.len() == 0 {
        field
    } else {
        seq![QUOTE] + field + seq![QUOTE]
    }
}

/// Each field quoted.
pub open spec fn quote_all(fields: Seq<Seq<char>>) -> Seq<Seq<char>> {
    Seq::new(fields.len(), |i: int| quote(fields[i]))
}

/// The end of a line: the line feed, after a carriage return where the file
/// has two-character line ends.
pub open spec fn line_end(crlf: bool) -> Seq<char> {
    if crlf {
        seq![CARRIAGE_RETURN, RECORD_SEP]
    } else {
        seq![RECORD_SEP]
    }
}

/// The line of a record: its fields quoted, with delimiters between them and
/// the line end after them.
pub open spec fn line_of(record: Seq<Seq<char>>, crlf: bool) -> Seq<char> {
    join(quote_all(record), DELIMITER) + line_end(crlf)
}

/// The line of each record.
pub open spec fn lines_of(records: Seq<Seq<Seq<char>>>, crlf: bool) -> Seq<Seq<char>> {
    Seq::new(records.len(), |i: int| line_of(records[i], crlf))
}

/// The text of a table: its header line as it was read, then the line of
/// each record in order.
pub open spec fn export(table: TableView) -> Seq<char> {
    table.header.raw_header + concat(lines_of(table.records, table.crlf))
}

/// Appends the line of the record `items` to `file`.
fn write_line(file: &mut String, items: &Vec<String>, crlf: bool)
    ensures
        final(file)@ == old(file)@ + line_of(views(items@), crlf),
{
    let ghost base = file@;
    let ghost quoted = quote_all(views(items@));
    let mut j: usize = 0;
    assert(quoted.take(0) =~= Seq::<Seq<char>>::empty());
    assert(file@ =~= base + join(quoted.take(0), DELIMITER));
    while j < items.len()
        invariant
            j <= items.len(),
            quoted == quote_all(views(items@)),
            file@ == base + join(quoted.take(j as int), DELIMITER),
        decreases items.len() - j,
    {
        let ghost so_far = file@;
        let ghost joined = join(quoted.take(j as int), DELIMITER);
        if j > 0 {
            push_char(file, DELIMITER);
        }
        let ghost sep = file@;
        let item = items[j].as_str();
        if !item.is_empty() {
            push_char(file, QUOTE);
            file.append(item);
            push_char(file, QUOTE);
        }
        proof {
            let next = quoted.take(j + 1);
            assert(next.drop_last() =~= quoted.take(j as int));
            assert(next.last() == quote(items@[j as int]@));
            assert(file@ =~= sep + quote(items@[j as int]@));
            if j == 0 {
                assert(joined =~= Seq::<char>::empty());
                assert(join(next, DELIMITER) =~= next[0]);
                assert(file@ =~= base + join(next, DELIMITER));
            } else {
                assert(join(next, DELIMITER) =~= joined.push(DELIMITER) + next.last());
                assert(file@ =~= base + join(next, DELIMITER));
            }
        }
        j += 1;
    }
    assert(quoted.take(j as int) =~= quoted);
    if crlf {
        push_char(file, CARRIAGE_RETURN);
    }
    push_char(file, RECORD_SEP);
    assert(file@ =~= base + line_of(views(items@), crlf));
}

impl WTCSV {
    /// The text of the table. For a table read from a well-formed text this
    /// is that text, letter for letter.
    #[must_use]
    pub fn export_to_file(&self) -> (file: String)
        ensures
            file@ == export(self@),
    {
        let mut file = self.header.raw_header.clone();
        let ghost lines = lines_of(self@.records, self.crlf);
        let mut i: usize = 0;
        assert(lines.take(0) =~= Seq::<Seq<char>>::empty());
        assert(file@ =~= self.header.raw_header@ + concat(lines.take(0)));
        while i < self.records.len()
            invariant
                i <= self.records.len(),
                lines == lines_of(self@.records, self.crlf),
                file@ == self.header.raw_header@ + concat(lines.take(i as int)),
            decreases self.records.len() - i,
        {
            write_line(&mut file, &self.records[i].items, self.crlf);
            proof {
                let next = lines.take(i + 1);
                assert(next.drop_last() =~= lines.take(i as int));
                assert(next.last() == line_of(self@.records[i as int], self.crlf));
                assert(file@ =~= self.header.raw_header@ + concat(next));
            }
            i += 1;
        }
        assert(lines.take(i as int) =~= lines);
        file
    }
}

} // verus!
