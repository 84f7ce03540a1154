//! Reading an assignment problem from a table, and writing the assignments
//! back as one.
//!
//! Readers and writers work on lines of text. Opening and closing files is
//! left to the program that uses them.
pub mod csv;
pub mod text;

use crate::io::csv::{CsvReader, CsvWriter};
use vstd::prelude::*;

verus! {

/// The kinds of table that can be read and written.
#[derive(Copy, Clone, Debug, PartialEq, Eq, Structural)]
pub enum FileType {
    /// Lines of fields with commas between them.
    Csv,
}

/// A reader for tables of the given kind.
pub fn reader_factory(file_type: FileType) -> (reader: CsvReader)
    ensures
        reader@ == Seq::<Seq<char>>::empty(),
{
    match file_type {
        FileType::Csv => CsvReader::new(),
    }
}

/// A writer for tables of the given kind, with one column for each of the
/// tasks `task_names`.
pub fn writer_factory(file_type: FileType, task_names: Vec<String>) -> (writer: CsvWriter)
    ensures
        writer@ == crate::network::report::names_view(task_names@),
{
    match file_type {
        FileType::Csv => CsvWriter::new(task_names),
    }
}

} // verus!
