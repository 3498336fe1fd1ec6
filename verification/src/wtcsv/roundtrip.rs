//! Reading a well-formed text and writing the table back gives the text.
use vstd::prelude::*;
use crate::text::{
    concat, count, first_index, join, lemma_cancel_prefix, lemma_cancel_suffix,
    lemma_concat_first, lemma_concat_len, lemma_concat_pieces, lemma_count_add, lemma_count_none,
    lemma_count_push, lemma_first_index, lemma_join_len, lemma_join_pieces, lemma_join_split,
    lemma_split_first, lemma_split_len, split,
};
use crate::wtcsv::export::{export, line_end, line_of, lines_of, quote, quote_all};
use crate::wtcsv::header::{header_line, header_of};
use crate::wtcsv::record::{record_of, strip, strip_all};
use crate::wtcsv::table::{
    has_crlf, is_first_misfit, lemma_first_misfit, lemma_scan_buffer, lemma_scan_prefix,
    lemma_scan_push, line_end_len, lines_in, parse, records_of, scan, trim,
};
use crate::{DELIMITER, QUOTE, RECORD_SEP};

verus! {

/// Whether a token is a field as the format spells it: nothing at all, or
/// something between two quotes.
pub open spec fn is_field_token(token: Seq<char>) -> bool {
    token.len() == 0 || (token.len() >= 3 && token.first() == QUOTE && token.last() == QUOTE)
}

/// Whether a chunk is the line of a record: fields as the format spells
/// them, and the file's line end after them.
pub open spec fn is_record_chunk(chunk: Seq<char>, crlf: bool) -> bool {
    &&& chunk.len() >= line_end_len(crlf)
    &&& chunk.skip(chunk.len() - line_end_len(crlf)) == line_end(crlf)
    &&& forall|k: int|
        0 <= k < split(trim(chunk, crlf), DELIMITER).len() ==> is_field_token(
            #[trigger] split(trim(chunk, crlf), DELIMITER)[k],
        )
}

/// Whether a text is a table as the format spells it: a header line of at
/// least two columns that keeps its number of fields when it is cut like any
/// other line, then lines of records and nothing after the last of them.
pub open spec fn well_formed(text: Seq<char>) -> bool {
    let width = header_of(text).len;
    let crlf = has_crlf(text);
    let found = scan(text, width);
    &&& width >= 2
    &&& found.chunks.len() >= 1
    &&& found.buffer.len() == 0
    &&& record_of(trim(found.chunks[0], crlf)).len() == width
    &&& forall|i: int|
        1 <= i < found.chunks.len() ==> is_record_chunk(#[trigger] found.chunks[i], crlf)
}

/// The lines that a scan has found, and after them its buffer, are the text.
/// Every line holds one delimiter less than the table has columns.
pub proof fn lemma_scan_whole(text: Seq<char>, width: nat)
    ensures
        concat(scan(text, width).chunks) + scan(text, width).buffer == text,
        scan(text, width).delims == count(scan(text, width).buffer, DELIMITER),
        forall|k: int|
            0 <= k < scan(text, width).chunks.len() ==> count(
                #[trigger] scan(text, width).chunks[k],
                DELIMITER,
            ) + 1 == width,
    decreases text.len(),
{
    if text.len() == 0 {
        assert(concat(scan(text, width).chunks) + scan(text, width).buffer =~= text);
    } else {
        let before = scan(text.drop_last(), width);
        let after = scan(text, width);
        lemma_scan_whole(text.drop_last(), width);
        lemma_count_push(before.buffer, text.last(), DELIMITER);
        assert(text.drop_last().push(text.last()) =~= text);
        if after.chunks.len() > before.chunks.len() {
            assert(after.chunks.drop_last() =~= before.chunks);
            assert(concat(after.chunks) + after.buffer =~= text);
        } else {
            assert(concat(after.chunks) + after.buffer =~= text);
        }
    }
}

/// Before the first line feed no line ends.
pub proof fn lemma_scan_no_line(text: Seq<char>, width: nat)
    requires
        forall|j: int| 0 <= j < text.len() ==> text[j] != RECORD_SEP,
    ensures
        scan(text, width).chunks.len() == 0,
        scan(text, width).buffer == text,
    decreases text.len(),
{
    if text.len() == 0 {
        assert(scan(text, width).buffer =~= text);
    } else {
        lemma_scan_no_line(text.drop_last(), width);
        assert(text.drop_last().push(text.last()) =~= text);
    }
}

/// The first line that the scan finds is the header line with its line
/// feed.
pub proof fn lemma_scan_header(text: Seq<char>)
    requires
        scan(text, header_of(text).len).chunks.len() >= 1,
    ensures
        scan(text, header_of(text).len).chunks[0] == header_of(text).raw_header,
{
    let width = header_of(text).len;
    let k = first_index(text, RECORD_SEP);
    lemma_first_index(text, RECORD_SEP);
    lemma_split_first(text, RECORD_SEP, k);
    lemma_split_len(header_line(text), DELIMITER);
    if k == text.len() {
        lemma_scan_no_line(text, width);
    } else {
        let line = text.take(k);
        lemma_scan_no_line(line, width);
        lemma_scan_whole(line, width);
        lemma_scan_push(line, RECORD_SEP, width);
        assert(line.push(RECORD_SEP) =~= text.take(k + 1));
        lemma_scan_prefix(text, width, k + 1);
        assert(scan(text.take(k + 1), width).chunks[0] == line.push(RECORD_SEP));
    }
}

/// Quoting what stripping left restores a field that the format spells.
pub proof fn lemma_quote_strip(token: Seq<char>)
    requires
        is_field_token(token),
    ensures
        quote(strip(token)) == token,
{
    assert(quote(strip(token)) =~= token);
}

/// Writing the record of a record's line gives the line.
pub proof fn lemma_line_round_trip(chunk: Seq<char>, crlf: bool)
    requires
        is_record_chunk(chunk, crlf),
    ensures
        line_of(record_of(trim(chunk, crlf)), crlf) == chunk,
        count(trim(chunk, crlf), DELIMITER) == count(chunk, DELIMITER),
{
    let line = trim(chunk, crlf);
    let tokens = split(line, DELIMITER);
    assert forall|k: int| 0 <= k < tokens.len() implies quote_all(strip_all(tokens))[k]
        == tokens[k] by {
        lemma_quote_strip(tokens[k]);
    }
    assert(quote_all(strip_all(tokens)) =~= tokens);
    lemma_join_split(line, DELIMITER);
    assert(line + line_end(crlf) =~= chunk);
    lemma_count_add(line, line_end(crlf), DELIMITER);
    lemma_count_none(line_end(crlf), DELIMITER);
}

/// For any well-formed text, reading it as a table succeeds, and writing
/// that table gives the text back, letter for letter. This holds for texts
/// with either kind of line end.
pub proof fn lemma_round_trip(text: Seq<char>, name: Seq<char>)
    requires
        well_formed(text),
    ensures
        parse(text, name) is Ok,
        parse(text, name)->Ok_0.wf(),
        export(parse(text, name)->Ok_0) == text,
{
    let width = header_of(text).len;
    let crlf = has_crlf(text);
    let found = scan(text, width);
    let lines = lines_in(text);
    lemma_scan_whole(text, width);
    lemma_scan_header(text);
    lemma_split_len(header_line(text), DELIMITER);
    assert forall|i: int| 0 <= i < lines.len() implies (#[trigger] record_of(lines[i])).len()
        == width by {
        if i >= 1 {
            assert(is_record_chunk(found.chunks[i], crlf));
            lemma_line_round_trip(found.chunks[i], crlf);
            lemma_split_len(lines[i], DELIMITER);
        }
    }
    assert(!exists|i: int| is_first_misfit(lines, width, i));
    let table = parse(text, name)->Ok_0;
    assert(table.records == records_of(lines).drop_first());
    assert forall|i: int| 0 <= i < table.records.len() implies lines_of(table.records, crlf)[i]
        == found.chunks.drop_first()[i] by {
        assert(is_record_chunk(found.chunks[i + 1], crlf));
        lemma_line_round_trip(found.chunks[i + 1], crlf);
        assert(table.records[i] == record_of(lines[i + 1]));
    }
    assert(lines_of(table.records, crlf) =~= found.chunks.drop_first());
    lemma_concat_first(found.chunks);
    assert(export(table) =~= text);
    assert(header_of(text).params.len() == width);
    assert(table.wf());
}

/// A text with a line feed has a header line that the scan finds.
pub proof fn lemma_scan_finds_header(text: Seq<char>)
    requires
        text.contains(RECORD_SEP),
    ensures
        scan(text, header_of(text).len).chunks.len() >= 1,
{
    let width = header_of(text).len;
    let k = first_index(text, RECORD_SEP);
    lemma_first_index(text, RECORD_SEP);
    lemma_split_first(text, RECORD_SEP, k);
    lemma_split_len(header_line(text), DELIMITER);
    let line = text.take(k);
    lemma_scan_no_line(line, width);
    lemma_scan_whole(line, width);
    lemma_scan_push(line, RECORD_SEP, width);
    assert(line.push(RECORD_SEP) =~= text.take(k + 1));
    lemma_scan_prefix(text, width, k + 1);
}

/// Writing the record of a line gives no more characters than the line had
/// with its line end.
pub proof fn lemma_line_len(chunk: Seq<char>, crlf: bool)
    requires
        chunk.len() >= line_end_len(crlf),
    ensures
        line_of(record_of(trim(chunk, crlf)), crlf).len() <= chunk.len(),
{
    let line = trim(chunk, crlf);
    let tokens = split(line, DELIMITER);
    let quoted = quote_all(strip_all(tokens));
    lemma_join_len(quoted, tokens, DELIMITER);
    lemma_join_split(line, DELIMITER);
}

/// A line that comes back as it was when its record is written is the line
/// of a record.
pub proof fn lemma_line_only(chunk: Seq<char>, crlf: bool)
    requires
        chunk.len() >= line_end_len(crlf),
        line_of(record_of(trim(chunk, crlf)), crlf) == chunk,
    ensures
        is_record_chunk(chunk, crlf),
{
    let line = trim(chunk, crlf);
    let end = chunk.skip(chunk.len() - line_end_len(crlf));
    let tokens = split(line, DELIMITER);
    let quoted = quote_all(strip_all(tokens));
    assert(line + end =~= chunk);
    lemma_cancel_suffix(join(quoted, DELIMITER), line_end(crlf), line, end);
    lemma_join_split(line, DELIMITER);
    lemma_join_len(quoted, tokens, DELIMITER);
    lemma_join_pieces(quoted, tokens, DELIMITER);
    assert forall|k: int| 0 <= k < tokens.len() implies is_field_token(#[trigger] tokens[k]) by {
        let token = tokens[k];
        assert(quoted[k] == quote(strip(token)));
        if token.len() >= 3 {
            assert(quote(strip(token))[0] == QUOTE);
            assert(quote(strip(token))[token.len() - 1] == QUOTE);
        }
    }
}

/// Only a well-formed text is read as a table that is written back as the
/// text: reading and writing restores no other.
pub proof fn lemma_round_trip_only(text: Seq<char>, name: Seq<char>)
    requires
        parse(text, name) is Ok,
        export(parse(text, name)->Ok_0) == text,
    ensures
        well_formed(text),
{
    let width = header_of(text).len;
    let crlf = has_crlf(text);
    let found = scan(text, width);
    let lines = lines_in(text);
    let table = parse(text, name)->Ok_0;
    lemma_scan_whole(text, width);
    lemma_scan_buffer(text, width);
    assert forall|i: int| 0 <= i < lines.len() implies (#[trigger] record_of(lines[i])).len()
        == width by {
        if record_of(lines[i]).len() != width {
            lemma_first_misfit(lines, width, i);
        }
    }
    if found.chunks.len() == 0 {
        assert(table.records =~= Seq::<Seq<Seq<char>>>::empty());
        assert(lines_of(table.records, crlf) =~= Seq::<Seq<char>>::empty());
        assert(export(table) =~= header_line(text).push(RECORD_SEP));
        let k = first_index(text, RECORD_SEP);
        lemma_first_index(text, RECORD_SEP);
        lemma_split_first(text, RECORD_SEP, k);
        if k < text.len() {
            assert(text.contains(RECORD_SEP));
            lemma_scan_finds_header(text);
        }
        assert(false);
    }
    lemma_scan_header(text);
    lemma_concat_first(found.chunks);
    let rest = found.chunks.drop_first();
    let written = lines_of(table.records, crlf);
    assert(table.records == records_of(lines).drop_first());
    assert(written.len() == rest.len());
    assert forall|i: int| 0 <= i < written.len() implies (#[trigger] written[i]).len()
        <= rest[i].len() by {
        assert(rest[i] == found.chunks[i + 1]);
        assert(found.chunks[i + 1].len() >= width);
        lemma_line_len(found.chunks[i + 1], crlf);
        assert(table.records[i] == record_of(lines[i + 1]));
    }
    lemma_concat_len(written, rest);
    assert(found.chunks[0] + concat(written) == found.chunks[0] + (concat(rest) + found.buffer))
        by {
        assert(found.chunks[0] + (concat(rest) + found.buffer) =~= (found.chunks[0] + concat(
            rest,
        )) + found.buffer);
    }
    lemma_cancel_prefix(found.chunks[0], concat(written), concat(rest) + found.buffer);
    assert(found.buffer.len() == 0);
    assert(concat(rest) + found.buffer =~= concat(rest));
    lemma_concat_pieces(written, rest);
    assert forall|i: int| 1 <= i < found.chunks.len() implies is_record_chunk(
        #[trigger] found.chunks[i],
        crlf,
    ) by {
        assert(rest[i - 1] == found.chunks[i]);
        assert(written[i - 1] == line_of(table.records[i - 1], crlf));
        assert(table.records[i - 1] == record_of(lines[i]));
        assert(found.chunks[i].len() >= width);
        lemma_line_only(found.chunks[i], crlf);
    }
    assert(lines[0] == trim(found.chunks[0], crlf));
}

/// The texts that reading and writing restores are the well-formed texts,
/// all of them and no others.
pub proof fn lemma_round_trip_exactly(text: Seq<char>, name: Seq<char>)
    ensures
        well_formed(text) <==> parse(text, name) is Ok && export(parse(text, name)->Ok_0) == text,
{
    if well_formed(text) {
        lemma_round_trip(text, name);
    }
    if parse(text, name) is Ok && export(parse(text, name)->Ok_0) == text {
        lemma_round_trip_only(text, name);
    }
}

} // verus!
