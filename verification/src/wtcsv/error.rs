//! The ways in which reading, editing, querying or comparing a table fails.
use vstd::prelude::*;
use vstd::string::StringExecFns;
use crate::text::push_char;

verus! {

/// Why an operation on a table failed. Where a variant holds two values, the
/// first is what was expected and the second what was found.
#[derive(Debug)]
pub enum WTCSVError {
    /// A line has another number of fields than the header, or two headers
    /// differ in their number of fields.
    HeaderLen(usize, usize),
    /// Two headers name a column differently.
    HeaderContent(String, String),
    /// The header line has fewer than two fields; holds their number.
    HeaderTooShort(usize),
    /// Two tables differ in their number of records.
    RecordLength(usize, usize),
    /// No record has the identifier; holds the identifier and the table's name.
    RecordIdNotFound(String, String),
}

/// An error with its strings as character sequences.
pub ghost enum ErrorView {
    HeaderLen(nat, nat),
    HeaderContent(Seq<char>, Seq<char>),
    HeaderTooShort(nat),
    RecordLength(nat, nat),
    RecordIdNotFound(Seq<char>, Seq<char>),
}

impl View for WTCSVError {
    type V = ErrorView;

    open spec fn view(&self) -> ErrorView {
        match *self {
            WTCSVError::HeaderLen(expected, found) => ErrorView::HeaderLen(
                expected as nat,
                found as nat,
            ),
            WTCSVError::HeaderContent(expected, found) => ErrorView::HeaderContent(
                expected@,
                found@,
            ),
            WTCSVError::HeaderTooShort(found) => ErrorView::HeaderTooShort(found as nat),
            WTCSVError::RecordLength(expected, found) => ErrorView::RecordLength(
                expected as nat,
                found as nat,
            ),
            WTCSVError::RecordIdNotFound(id, name) => ErrorView::RecordIdNotFound(id@, name@),
        }
    }
}

/// The character of a digit.
pub open spec fn digit(d: nat) -> char {
    if d == 0 {
        '0'
    } else if d == 1 {
        '1'
    } else if d == 2 {
        '2'
    } else if d == 3 {
        '3'
    } else if d == 4 {
        '4'
    } else if d == 5 {
        '5'
    } else if d == 6 {
        '6'
    } else if d == 7 {
        '7'
    } else if d == 8 {
        '8'
    } else {
        '9'
    }
}

/// A number in decimal digits, without leading zeros.
pub open spec fn decimal(n: nat) -> Seq<char>
    decreases n,
{
    if n < 10 {
        seq![digit(n)]
    } else {
        decimal(n / 10).push(digit(n % 10))
    }
}

/// What an error says of itself.
pub open spec fn message(e: ErrorView) -> Seq<char> {
    match e {
        ErrorView::HeaderLen(expected, found) => "Header Length mismatch, expected "@ + decimal(
            expected,
        ) + " but found "@ + decimal(found),
        ErrorView::HeaderContent(expected, found) => "Header content mismatch, expected "@
            + expected + " but found "@ + found,
        ErrorView::HeaderTooShort(found) => "Header too short, expected at least 2 but found "@
            + decimal(found),
        ErrorView::RecordLength(expected, found) => "Record content mismatch, expected "@
            + decimal(expected) + " but found "@ + decimal(found),
        ErrorView::RecordIdNotFound(id, name) => "File "@ + id
            + " does not contain record with id "@ + name,
    }
}

/// The character of the digit `d`.
fn digit_char(d: usize) -> (c: char)
    requires
        d < 10,
    ensures
        c == digit(d as nat),
{
    match d {
        0 => '0',
        1 => '1',
        2 => '2',
        3 => '3',
        4 => '4',
        5 => '5',
        6 => '6',
        7 => '7',
        8 => '8',
        _ => '9',
    }
}

/// Appends `n` in decimal digits.
fn push_decimal(out: &mut String, n: usize)
    ensures
        final(out)@ == old(out)@ + decimal(n as nat),
    decreases n,
{
    if n >= 10 {
        push_decimal(out, n / 10);
    }
    push_char(out, digit_char(n % 10));
    assert(out@ =~= old(out)@ + decimal(n as nat));
}

impl WTCSVError {
    /// What the error says of itself, in one line.
    pub fn to_string(&self) -> (text: String)
        ensures
            text@ == message(self@),
    {
        let mut text = String::new();
        match self {
            WTCSVError::HeaderLen(expected, found) => {
                text.append("Header Length mismatch, expected ");
                push_decimal(&mut text, *expected);
                text.append(" but found ");
                push_decimal(&mut text, *found);
            },
            WTCSVError::HeaderContent(expected, found) => {
                text.append("Header content mismatch, expected ");
                text.append(expected.as_str());
                text.append(" but found ");
                text.append(found.as_str());
            },
            WTCSVError::HeaderTooShort(found) => {
                text.append("Header too short, expected at least 2 but found ");
                push_decimal(&mut text, *found);
            },
            WTCSVError::RecordLength(expected, found) => {
                text.append("Record content mismatch, expected ");
                push_decimal(&mut text, *expected);
                text.append(" but found ");
                push_decimal(&mut text, *found);
            },
            WTCSVError::RecordIdNotFound(id, name) => {
                text.append("File ");
                text.append(id.as_str());
                text.append(" does not contain record with id ");
                text.append(name.as_str());
            },
        }
        assert(text@ =~= message(self@));
        text
    }
}

} // verus!
