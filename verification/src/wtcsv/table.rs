//! The table: a header and the records under it, read from text.
use vstd::prelude::*;
use crate::text::{chars_of, count, lemma_count_push};
use crate::wtcsv::error::{ErrorView, WTCSVError};
use crate::wtcsv::header::{header_of, Header, HeaderView};
use crate::wtcsv::record::{record_of, Record};
use crate::{CARRIAGE_RETURN, DELIMITER, RECORD_SEP};

verus! {

/// A table: its header and its records in the order of the file.
#[derive(Debug)]
#[allow(clippy::upper_case_acronyms)]
pub struct WTCSV {
    /// Names the table in errors and has no other use.
    pub name: String,
    /// The columns of the table.
    pub header: Header,
    /// The records, in the order in which the file holds them.
    pub records: Vec<Record>,
    /// Whether the text held a carriage return right before a line feed
    /// anywhere. The line of every record is then read and written with both,
    /// else with the line feed alone.
    pub crlf: bool,
}

/// A table with its strings as character sequences.
pub ghost struct TableView {
    pub name: Seq<char>,
    pub header: HeaderView,
    pub records: Seq<Seq<Seq<char>>>,
    pub crlf: bool,
}

/// The views of the records of `records`, in order.
pub open spec fn record_views(records: Seq<Record>) -> Seq<Seq<Seq<char>>> {
    Seq::new(records.len(), |i: int| records[i]@)
}

impl View for WTCSV {
    type V = TableView;

    open spec fn view(&self) -> TableView {
        TableView {
            name: self.name@,
            header: self.header@,
            records: record_views(self.records@),
            crlf: self.crlf,
        }
    }
}

impl TableView {
    /// Whether the header has at least two columns, lists each in both forms,
    /// and every record has one field for each column.
    pub open spec fn wf(self) -> bool {
        &&& self.header.len >= 2
        &&& self.header.params.len() == self.header.len
        &&& self.header.raw_params.len() == self.header.len
        &&& forall|i: int|
            0 <= i < self.records.len() ==> (#[trigger] self.records[i]).len() == self.header.len
    }
}

/// Whether the text holds a carriage return with a line feed right after it.
pub open spec fn has_crlf(text: Seq<char>) -> bool {
    exists|i: int|
        0 <= i < text.len() - 1 && #[trigger] text[i] == CARRIAGE_RETURN && text[i + 1]
            == RECORD_SEP
}

/// How far the scan for the ends of lines has come: the lines found, each
/// with its line end, what has been read since the last of them, and the
/// number of delimiters in that.
pub ghost struct Scan {
    pub chunks: Seq<Seq<char>>,
    pub buffer: Seq<char>,
    pub delims: nat,
}

/// The scan after one more character. A line ends at a line feed that comes
/// when the buffer holds one delimiter less than the table has columns.
pub open spec fn scan_step(before: Scan, c: char, width: nat) -> Scan {
    let buffer = before.buffer.push(c);
    let delims = if c == DELIMITER {
        before.delims + 1
    } else {
        before.delims
    };
    if delims == width - 1 && c == RECORD_SEP {
        Scan { chunks: before.chunks.push(buffer), buffer: Seq::empty(), delims: 0 }
    } else {
        Scan { chunks: before.chunks, buffer, delims }
    }
}

/// The scan after the whole of `text`, for a table of `width` columns.
pub open spec fn scan(text: Seq<char>, width: nat) -> Scan
    decreases text.len(),
{
    if text.len() == 0 {
        Scan { chunks: Seq::empty(), buffer: Seq::empty(), delims: 0 }
    } else {
        scan_step(scan(text.drop_last(), width), text.last(), width)
    }
}

/// The number of characters in a line end.
pub open spec fn line_end_len(crlf: bool) -> nat {
    if crlf {
        2
    } else {
        1
    }
}

/// A chunk without its last one or two characters, which are taken to be its
/// line end.
pub open spec fn trim(chunk: Seq<char>, crlf: bool) -> Seq<char> {
    chunk.take(chunk.len() - line_end_len(crlf))
}

/// Each chunk trimmed.
pub open spec fn trim_all(chunks: Seq<Seq<char>>, crlf: bool) -> Seq<Seq<char>> {
    Seq::new(chunks.len(), |i: int| trim(chunks[i], crlf))
}

/// The lines of a text, the header line first, each without its line end.
pub open spec fn lines_in(text: Seq<char>) -> Seq<Seq<char>> {
    trim_all(scan(text, header_of(text).len).chunks, has_crlf(text))
}

/// The record of each line.
pub open spec fn records_of(lines: Seq<Seq<char>>) -> Seq<Seq<Seq<char>>> {
    Seq::new(lines.len(), |i: int| record_of(lines[i]))
}

/// Whether line `i` is the first that has another number of fields than
/// `width`.
pub open spec fn is_first_misfit(lines: Seq<Seq<char>>, width: nat, i: int) -> bool {
    &&& 0 <= i < lines.len()
    &&& record_of(lines[i]).len() != width
    &&& forall|j: int| 0 <= j < i ==> (#[trigger] record_of(lines[j])).len() == width
}

/// What reading `text` as a table called `name` gives: the table, or the
/// first thing that is wrong with the text.
pub open spec fn parse(text: Seq<char>, name: Seq<char>) -> Result<TableView, ErrorView> {
    let header = header_of(text);
    let lines = lines_in(text);
    if header.len < 2 {
        Err(ErrorView::HeaderTooShort(1))
    } else if exists|i: int| is_first_misfit(lines, header.len, i) {
        let i = choose|i: int| is_first_misfit(lines, header.len, i);
        Err(ErrorView::HeaderLen(header.len, record_of(lines[i]).len()))
    } else {
        Ok(
            TableView {
                name,
                header,
                records: if lines.len() == 0 {
                    Seq::empty()
                } else {
                    records_of(lines).drop_first()
                },
                crlf: has_crlf(text),
            },
        )
    }
}

/// Trimming goes chunk by chunk.
pub proof fn lemma_trim_all_push(chunks: Seq<Seq<char>>, chunk: Seq<char>, crlf: bool)
    ensures
        trim_all(chunks.push(chunk), crlf) == trim_all(chunks, crlf).push(trim(chunk, crlf)),
{
    assert(trim_all(chunks.push(chunk), crlf) =~= trim_all(chunks, crlf).push(trim(chunk, crlf)));
}

/// Reading records goes line by line.
pub proof fn lemma_records_of_push(lines: Seq<Seq<char>>, line: Seq<char>)
    ensures
        records_of(lines.push(line)) == records_of(lines).push(record_of(line)),
{
    assert(records_of(lines.push(line)) =~= records_of(lines).push(record_of(line)));
}

/// The scan of a text goes on from the scan of what stands before its last
/// character.
pub proof fn lemma_scan_push(text: Seq<char>, c: char, width: nat)
    ensures
        scan(text.push(c), width) == scan_step(scan(text, width), c, width),
{
    assert(text.push(c).drop_last() =~= text);
}

/// The buffer of a scan holds as many delimiters as the scan has counted, and
/// every line found has at least as many characters as the table has
/// columns.
pub proof fn lemma_scan_buffer(text: Seq<char>, width: nat)
    ensures
        scan(text, width).delims == count(scan(text, width).buffer, DELIMITER),
        scan(text, width).delims <= scan(text, width).buffer.len(),
        forall|k: int|
            0 <= k < scan(text, width).chunks.len() ==> (#[trigger] scan(
                text,
                width,
            ).chunks[k]).len() >= width,
    decreases text.len(),
{
    if text.len() > 0 {
        let before = scan(text.drop_last(), width);
        lemma_scan_buffer(text.drop_last(), width);
        lemma_count_push(before.buffer, text.last(), DELIMITER);
        assert(before.buffer.push(text.last()).drop_last() =~= before.buffer);
    }
}

/// The lines that a scan has found stay as they are while it goes on.
pub proof fn lemma_scan_prefix(text: Seq<char>, width: nat, i: int)
    requires
        0 <= i <= text.len(),
    ensures
        scan(text.take(i), width).chunks.len() <= scan(text, width).chunks.len(),
        forall|k: int|
            0 <= k < scan(text.take(i), width).chunks.len() ==> scan(text.take(i), width).chunks[k]
                == scan(text, width).chunks[k],
    decreases text.len(),
{
    if i == text.len() {
        assert(text.take(i) =~= text);
    } else {
        assert(text.drop_last().take(i) =~= text.take(i));
        lemma_scan_prefix(text.drop_last(), width, i);
    }
}

/// Where a line has another number of fields than the table has columns,
/// some line is the first such.
pub proof fn lemma_first_misfit(lines: Seq<Seq<char>>, width: nat, i: int)
    requires
        0 <= i < lines.len(),
        record_of(lines[i]).len() != width,
    ensures
        exists|k: int| is_first_misfit(lines, width, k),
    decreases i,
{
    if exists|j: int| 0 <= j < i && record_of(lines[j]).len() != width {
        let j = choose|j: int| 0 <= j < i && record_of(lines[j]).len() != width;
        lemma_first_misfit(lines, width, j);
    } else {
        assert(is_first_misfit(lines, width, i));
    }
}

/// A table that was read from a text has one field for each column in every
/// record.
pub proof fn lemma_parse_wf(text: Seq<char>, name: Seq<char>)
    requires
        parse(text, name) is Ok,
    ensures
        parse(text, name)->Ok_0.wf(),
{
    let width = header_of(text).len;
    let lines = lines_in(text);
    let table = parse(text, name)->Ok_0;
    assert forall|i: int| 0 <= i < table.records.len() implies (#[trigger] table.records[i]).len()
        == width by {
        if record_of(lines[i + 1]).len() != width {
            lemma_first_misfit(lines, width, i + 1);
        }
    }
}

/// The views of records go record by record.
pub proof fn lemma_record_views_push(records: Seq<Record>, record: Record)
    ensures
        record_views(records.push(record)) == record_views(records).push(record@),
{
    assert(record_views(records.push(record)) =~= record_views(records).push(record@));
}

impl TableView {
    /// The table with one more record at its end.
    pub open spec fn with_record(self, record: Seq<Seq<char>>) -> TableView {
        TableView { records: self.records.push(record), ..self }
    }
}

impl WTCSV {
    /// Whether the header is well formed and every record has one field for
    /// each of its columns.
    pub open spec fn wf(&self) -> bool {
        self@.wf()
    }

    /// Reads the table called `name` from its text. Fails where the header
    /// line has fewer than two fields, and where a line, the header line
    /// among them, has another number of fields than the header once its
    /// line end is cut off. A failure leaves no table.
    pub fn new_from_file(file: &str, name: &str) -> (result: Result<WTCSV, WTCSVError>)
        ensures
            match result {
                Ok(table) => parse(file@, name@) == Ok::<TableView, ErrorView>(table@)
                    && table.wf(),
                Err(e) => parse(file@, name@) == Err::<TableView, ErrorView>(e@),
            },
    {
        let chars = chars_of(file);
        let crlf = find_crlf(&chars);
        let header = match Header::from_chars(&chars) {
            Ok(header) => header,
            Err(e) => {
                return Err(e);
            },
        };
        let width = header.len;
        let line_end: usize = if crlf {
            2
        } else {
            1
        };
        let (bounds, _, _) = scan_chunks(&chars, width);
        let mut table = WTCSV { name: name.to_owned(), header, records: Vec::new(), crlf };
        let ghost text = chars@;
        let ghost lines = lines_in(text);
        let mut k: usize = 0;
        proof {
            lemma_scan_buffer(text, width as nat);
            assert(record_views(table.records@) =~= records_of(lines.take(0)));
        }
        while k < bounds.len()
            invariant
                k <= bounds.len(),
                text == chars@,
                text == file@,
                lines == lines_in(text),
                width >= 2,
                width == header_of(text).len,
                crlf == has_crlf(text),
                line_end == line_end_len(crlf),
                is_scan_of(bounds@, text, width as nat),
                forall|n: int|
                    0 <= n < bounds.len() ==> (#[trigger] bounds[n]).1 - bounds[n].0 >= width,
                table.name@ == name@,
                table.header@ == header_of(text),
                table.header.wf(),
                table.crlf == crlf,
                record_views(table.records@) == records_of(lines.take(k as int)),
                forall|n: int| 0 <= n < k ==> (#[trigger] record_of(lines[n])).len() == width,
            decreases bounds.len() - k,
        {
            let (from, to) = bounds[k];
            let ghost chunk = scan(text, width as nat).chunks[k as int];
            assert(chunk == text.subrange(from as int, to as int));
            assert(to - from >= width);
            let record = Record::from_chars(&chars, from, to - line_end);
            proof {
                assert(trim(chunk, crlf) =~= text.subrange(from as int, to - line_end));
                assert(lines.take(k as int).push(lines[k as int]) =~= lines.take(k + 1));
                lemma_records_of_push(lines.take(k as int), lines[k as int]);
                lemma_record_views_push(table.records@, record);
            }
            if record.items.len() != width {
                assert(is_first_misfit(lines, width as nat, k as int));
                return Err(WTCSVError::HeaderLen(width, record.items.len()));
            }
            table.records.push(record);
            k += 1;
        }
        proof {
            assert(lines.take(k as int) =~= lines);
            assert forall|n: int| 0 <= n < table.records.len() implies (#[trigger] record_views(
                table.records@,
            )[n]).len() == width by {
                assert(record_views(table.records@)[n] == record_of(lines[n]));
            }
        }
        if table.records.len() > 0 {
            table.records.remove(0);
            assert(record_views(table.records@) =~= records_of(lines).drop_first());
        } else {
            assert(record_views(table.records@) =~= Seq::<Seq<Seq<char>>>::empty());
        }
        Ok(table)
    }

    /// Reads one line, given without its line end, and adds the record to
    /// the end of the table if it has one field for each column. Otherwise
    /// fails with `HeaderLen` and leaves the table as it was.
    pub fn insert_record(&mut self, record: &str) -> (result: Result<(), WTCSVError>)
        ensures
            match result {
                Ok(()) => {
                    &&& record_of(record@).len() == old(self).header.len
                    &&& final(self)@ == old(self)@.with_record(record_of(record@))
                },
                Err(e) => {
                    &&& record_of(record@).len() != old(self).header.len
                    &&& e@ == ErrorView::HeaderLen(
                        old(self).header.len as nat,
                        record_of(record@).len(),
                    )
                    &&& *final(self) == *old(self)
                },
            },
            old(self).wf() ==> final(self).wf(),
    {
        let serialized_record = Record::from_wt_string(record);
        if self.header.len == serialized_record.items.len() {
            proof {
                lemma_record_views_push(self.records@, serialized_record);
            }
            self.records.push(serialized_record);
            Ok(())
        } else {
            Err(WTCSVError::HeaderLen(self.header.len, serialized_record.items.len()))
        }
    }
}

impl Clone for WTCSV {
    fn clone(&self) -> (res: Self)
        ensures
            res@ == self@,
    {
        let records = self.records.clone();
        assert(record_views(records@) =~= record_views(self.records@));
        WTCSV {
            name: self.name.clone(),
            header: self.header.clone(),
            records,
            crlf: self.crlf,
        }
    }
}

/// Whether `bounds` gives, line by line, the place in `text` of the lines
/// that the scan finds for a table of `width` columns.
pub open spec fn is_scan_of(bounds: Seq<(usize, usize)>, text: Seq<char>, width: nat) -> bool {
    let found = scan(text, width);
    &&& bounds.len() == found.chunks.len()
    &&& forall|k: int|
        0 <= k < bounds.len() ==> {
            &&& 0 <= (#[trigger] bounds[k]).0 <= bounds[k].1 <= text.len()
            &&& text.subrange(bounds[k].0 as int, bounds[k].1 as int) == found.chunks[k]
        }
}

/// Scans the text for the ends of its lines, for a table of `width` columns.
/// Gives the place of every line found, its line end included, then the
/// place where what follows the last of them begins, and the number of
/// delimiters in that rest.
pub fn scan_chunks(chars: &Vec<char>, width: usize) -> (found: (Vec<(usize, usize)>, usize, usize))
    ensures
        is_scan_of(found.0@, chars@, width as nat),
        found.1 <= chars.len(),
        chars@.subrange(found.1 as int, chars.len() as int) == scan(chars@, width as nat).buffer,
        found.2 == scan(chars@, width as nat).delims,
{
    let ghost text = chars@;
    let mut bounds: Vec<(usize, usize)> = Vec::new();
    let mut start: usize = 0;
    let mut delims: usize = 0;
    let mut i: usize = 0;
    assert(text.take(0) =~= Seq::<char>::empty());
    assert(text.subrange(0, 0) =~= Seq::<char>::empty());
    while i < chars.len()
        invariant
            start <= i <= chars.len(),
            text == chars@,
            is_scan_of(bounds@, text.take(i as int), width as nat),
            scan(text.take(i as int), width as nat).buffer == text.subrange(start as int, i as int),
            scan(text.take(i as int), width as nat).delims == delims,
        decreases chars.len() - i,
    {
        let c = chars[i];
        let ghost before = scan(text.take(i as int), width as nat);
        proof {
            assert(text.take(i as int).push(c) =~= text.take(i + 1));
            lemma_scan_push(text.take(i as int), c, width as nat);
            lemma_scan_buffer(text.take(i as int), width as nat);
            assert(text.subrange(start as int, i as int).push(c) =~= text.subrange(
                start as int,
                i + 1,
            ));
            assert forall|k: int| 0 <= k < bounds.len() implies text.take(i + 1).subrange(
                (#[trigger] bounds[k]).0 as int,
                bounds[k].1 as int,
            ) == before.chunks[k] by {
                assert(text.take(i + 1).subrange(bounds[k].0 as int, bounds[k].1 as int)
                    =~= text.take(i as int).subrange(bounds[k].0 as int, bounds[k].1 as int));
            }
        }
        if c == DELIMITER {
            delims += 1;
        }
        if width > 0 && delims == width - 1 && c == RECORD_SEP {
            bounds.push((start, i + 1));
            proof {
                assert(text.take(i + 1).subrange(start as int, i + 1) =~= text.subrange(
                    start as int,
                    i + 1,
                ));
                assert(text.subrange(i + 1, i + 1) =~= Seq::<char>::empty());
            }
            start = i + 1;
            delims = 0;
        }
        i += 1;
    }
    assert(text.take(i as int) =~= text);
    (bounds, start, delims)
}

/// Whether the characters hold a carriage return with a line feed right
/// after it.
fn find_crlf(chars: &Vec<char>) -> (found: bool)
    ensures
        found == has_crlf(chars@),
{
    let mut i: usize = 1;
    while i < chars.len()
        invariant
            1 <= i,
            forall|j: int|
                0 <= j < i - 1 && j < chars.len() - 1 ==> !(#[trigger] chars@[j] == CARRIAGE_RETURN
                    && chars@[j + 1] == RECORD_SEP),
        decreases chars.len() - i,
    {
        if chars[i - 1] == CARRIAGE_RETURN && chars[i] == RECORD_SEP {
            return true;
        }
        i += 1;
    }
    false
}

} // verus!
