//! A codec and query layer for a semicolon-delimited, quote-wrapped table
//! format in which a game keeps its localisation and unit data.
//!
//! A table is read from its text by `WTCSV::new_from_file` and written back,
//! letter for letter, by `WTCSV::export_to_file`. Its records are edited and
//! looked up by the identifier in their first field, and found by any value
//! they hold; two tables are compared by `WTCSV::is_same` and
//! `Diff::diff_from_ref`.
//!
//! What each function does is stated over sequences of characters: `parse`,
//! `export`, `edit`, `lookup`, `ids_by_value`, `compatibility` and `diff` say
//! what the functions of the same purpose return.
use vstd::prelude::*;

pub mod diff;
pub mod order;
pub mod text;
pub mod wtcsv;

verus! {

/// Separates the fields of a line.
pub const DELIMITER: char = ';';

/// Ends a line, alone or after a carriage return.
pub const RECORD_SEP: char = '\n';

/// Stands before the line feed in files with two-character line ends.
pub const CARRIAGE_RETURN: char = '\r';

/// Wraps every field that is not empty.
pub const QUOTE: char = '"';

} // verus!
