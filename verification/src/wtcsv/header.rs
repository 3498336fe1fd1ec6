//! The first line of a table: the names of its columns.
use vstd::prelude::*;
use crate::text::{
    bounds_of_split, chars_of, lemma_split_first, lemma_split_len, lemma_views_push, push_char,
    split, split_bounds, string_of, views,
};
use crate::wtcsv::error::WTCSVError;
use crate::{DELIMITER, RECORD_SEP};

verus! {

/// The columns of a table. Made once for a table and never changed.
#[derive(Debug)]
pub struct Header {
    /// The number of columns, at least two.
    pub len: usize,
    /// The names of the columns.
    pub params: Vec<String>,
    /// The columns as the header line spells them, annotations included.
    pub raw_params: Vec<String>,
    /// The header line as it stood in the text, with a line feed at its end.
    pub raw_header: String,
}

/// A header with its strings as character sequences.
pub ghost struct HeaderView {
    pub len: nat,
    pub params: Seq<Seq<char>>,
    pub raw_params: Seq<Seq<char>>,
    pub raw_header: Seq<char>,
}

impl View for Header {
    type V = HeaderView;

    open spec fn view(&self) -> HeaderView {
        HeaderView {
            len: self.len as nat,
            params: views(self.params@),
            raw_params: views(self.raw_params@),
            raw_header: self.raw_header@,
        }
    }
}

/// Whether `c` is one of the four characters that a column's name drops: the
/// quote, the two angle brackets and the carriage return.
pub open spec fn is_markup(c: char) -> bool {
    c == '"' || c == '<' || c == '>' || c == '\r'
}

/// Holds of the characters that a column's name keeps.
pub open spec fn kept() -> spec_fn(char) -> bool {
    |c: char| !is_markup(c)
}

/// The name of a column as the header spells it: what stands before the first
/// `|`, without the markup characters.
pub open spec fn sanitize(raw: Seq<char>) -> Seq<char> {
    split(raw, '|')[0].filter(kept())
}

/// Each column sanitized.
pub open spec fn sanitize_all(raw: Seq<Seq<char>>) -> Seq<Seq<char>> {
    Seq::new(raw.len(), |i: int| sanitize(raw[i]))
}

/// The header line of a text: what stands before its first line feed, or all
/// of it where it has none.
pub open spec fn header_line(text: Seq<char>) -> Seq<char> {
    split(text, RECORD_SEP)[0]
}

/// The header that a text begins with.
pub open spec fn header_of(text: Seq<char>) -> HeaderView {
    let columns = split(header_line(text), DELIMITER);
    HeaderView {
        len: columns.len(),
        params: sanitize_all(columns),
        raw_params: columns,
        raw_header: header_line(text).push(RECORD_SEP),
    }
}

/// Sanitizing goes column by column.
pub proof fn lemma_sanitize_all_push(raw: Seq<Seq<char>>, column: Seq<char>)
    ensures
        sanitize_all(raw.push(column)) == sanitize_all(raw).push(sanitize(column)),
{
    assert(sanitize_all(raw.push(column)) =~= sanitize_all(raw).push(sanitize(column)));
}

/// The name of the column that `chars[from..to]` spells.
fn sanitize_chars(chars: &Vec<char>, from: usize, to: usize) -> (name: String)
    requires
        from <= to <= chars.len(),
    ensures
        name@ == sanitize(chars@.subrange(from as int, to as int)),
{
    let ghost raw = chars@.subrange(from as int, to as int);
    let mut name = String::new();
    let mut i: usize = from;
    assert(raw.take(0).filter(kept()) =~= Seq::<char>::empty()) by {
        reveal(Seq::filter);
    }
    while i < to && chars[i] != '|'
        invariant
            from <= i <= to <= chars.len(),
            raw == chars@.subrange(from as int, to as int),
            forall|j: int| 0 <= j < i - from ==> raw[j] != '|',
            name@ == raw.take(i - from).filter(kept()),
        decreases to - i,
    {
        let c = chars[i];
        proof {
            assert(raw.take(i - from).push(c) =~= raw.take(i - from + 1));
            Seq::lemma_filter_push(raw.take(i - from), c, kept());
        }
        if c != '"' && c != '<' && c != '>' && c != '\r' {
            push_char(&mut name, c);
        }
        i += 1;
    }
    proof {
        lemma_split_first(raw, '|', i - from);
    }
    name
}

/// The name of a column as the header spells it.
pub fn sanitize_header(raw: &str) -> (name: String)
    ensures
        name@ == sanitize(raw@),
{
    let chars = chars_of(raw);
    assert(chars@.subrange(0, chars.len() as int) =~= raw@);
    sanitize_chars(&chars, 0, chars.len())
}

impl Header {
    /// Whether the header has at least two columns and lists each of them in
    /// both forms.
    pub open spec fn wf(&self) -> bool {
        &&& self.len >= 2
        &&& self.params.len() == self.len
        &&& self.raw_params.len() == self.len
    }

    /// Reads the header from the whole text of a table. Fails with
    /// `HeaderTooShort` where the header line holds no delimiter.
    pub fn from_file(file: &str) -> (result: Result<Header, WTCSVError>)
        ensures
            match result {
                Ok(header) => header@ == header_of(file@) && header.wf(),
                Err(e) => e@ == crate::wtcsv::error::ErrorView::HeaderTooShort(1)
                    && header_of(file@).len == 1,
            },
    {
        let chars = chars_of(file);
        Header::from_chars(&chars)
    }

    /// Reads the header from the characters of the whole text of a table.
    pub fn from_chars(chars: &Vec<char>) -> (result: Result<Header, WTCSVError>)
        ensures
            match result {
                Ok(header) => header@ == header_of(chars@) && header.wf(),
                Err(e) => e@ == crate::wtcsv::error::ErrorView::HeaderTooShort(1)
                    && header_of(chars@).len == 1,
            },
    {
        let mut end: usize = 0;
        while end < chars.len() && chars[end] != RECORD_SEP
            invariant
                end <= chars.len(),
                forall|j: int| 0 <= j < end ==> chars@[j] != RECORD_SEP,
            decreases chars.len() - end,
        {
            end += 1;
        }
        proof {
            lemma_split_first(chars@, RECORD_SEP, end as int);
            assert(chars@.take(end as int) =~= chars@.subrange(0, end as int));
        }
        let ghost columns = split(header_line(chars@), DELIMITER);
        let bounds = split_bounds(chars, 0, end, DELIMITER);
        proof {
            lemma_split_len(header_line(chars@), DELIMITER);
        }
        if bounds.len() <= 1 {
            return Err(WTCSVError::HeaderTooShort(bounds.len()));
        }
        let mut params: Vec<String> = Vec::new();
        let mut raw_params: Vec<String> = Vec::new();
        let mut k: usize = 0;
        assert(columns.take(0) =~= Seq::<Seq<char>>::empty());
        assert(views(params@) =~= sanitize_all(columns.take(0)));
        assert(views(raw_params@) =~= columns.take(0));
        while k < bounds.len()
            invariant
                k <= bounds.len(),
                end <= chars.len(),
                columns == split(chars@.subrange(0, end as int), DELIMITER),
                bounds_of_split(bounds@, chars@, 0, end as int, DELIMITER),
                views(params@) == sanitize_all(columns.take(k as int)),
                views(raw_params@) == columns.take(k as int),
            decreases bounds.len() - k,
        {
            let (a, b) = bounds[k];
            let name = sanitize_chars(chars, a, b);
            let raw = string_of(chars, a, b);
            proof {
                lemma_views_push(params@, name);
                lemma_views_push(raw_params@, raw);
                lemma_sanitize_all_push(columns.take(k as int), columns[k as int]);
                assert(columns.take(k as int).push(columns[k as int]) =~= columns.take(k + 1));
            }
            params.push(name);
            raw_params.push(raw);
            k += 1;
        }
        assert(columns.take(k as int) =~= columns);
        let mut raw_header = string_of(chars, 0, end);
        push_char(&mut raw_header, RECORD_SEP);
        Ok(Header { len: bounds.len(), params, raw_params, raw_header })
    }
}

impl Clone for Header {
    fn clone(&self) -> (res: Self)
        ensures
            res@ == self@,
            res.wf() == self.wf(),
    {
        let params = self.params.clone();
        let raw_params = self.raw_params.clone();
        assert(views(params@) =~= views(self.params@));
        assert(views(raw_params@) =~= views(self.raw_params@));
        Header { len: self.len, params, raw_params, raw_header: self.raw_header.clone() }
    }
}

} // verus!
