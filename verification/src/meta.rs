//! The dialect/metadata record produced by one inspection: detected column
//! count, sampled and estimated row counts, terminator convention, header
//! names, file size, delimiter, and accumulated advisory diagnostics.

use vstd::prelude::*;

verus! {

/// Dialect and metadata of one inspected file.  Filled once by the dialect
/// sampler and then read by the renderer and the sample writer; advisory
/// diagnostics accumulate in `error_message` and never abort an inspection.
#[derive(Debug, Clone, PartialEq)]
pub struct CsvMeta {
    /// Detected column count; 0 when no delimiter was chosen.
    pub total_column: usize,
    /// Number of data rows actually sampled.
    pub validate_row: usize,
    /// Extrapolated total row count (heuristic; may be inexact).
    pub estimate_row: usize,
    /// Whether the carriage-return byte survived sampling.
    pub is_line_br_13_exist: bool,
    /// Whether the line-feed byte survived sampling.
    pub is_line_br_10_exist: bool,
    /// Header labels, in column order.
    pub column_name: Vec<String>,
    /// Size of the inspected file in bytes.
    pub file_size: usize,
    /// The chosen delimiter byte; 0 when none was chosen.
    pub delimiter: u8,
    /// Accumulated advisory diagnostics.
    pub error_message: String,
}

impl CsvMeta {
    pub fn get_total_column(&self) -> (r: usize)
        ensures
            r == self.total_column,
    {
        self.total_column
    }

    pub fn get_validate_row(&self) -> (r: usize)
        ensures
            r == self.validate_row,
    {
        self.validate_row
    }

    pub fn get_estimate_row(&self) -> (r: usize)
        ensures
            r == self.estimate_row,
    {
        self.estimate_row
    }

    pub fn get_is_line_br_13_exist(&self) -> (r: bool)
        ensures
            r == self.is_line_br_13_exist,
    {
        self.is_line_br_13_exist
    }

    pub fn get_is_line_br_10_exist(&self) -> (r: bool)
        ensures
            r == self.is_line_br_10_exist,
    {
        self.is_line_br_10_exist
    }

    pub fn get_column_name(&self) -> (r: &Vec<String>)
        ensures
            r == &self.column_name,
    {
        &self.column_name
    }

    pub fn get_file_size(&self) -> (r: usize)
        ensures
            r == self.file_size,
    {
        self.file_size
    }

    pub fn get_delimiter(&self) -> (r: u8)
        ensures
            r == self.delimiter,
    {
        self.delimiter
    }

    pub fn get_error_message(&self) -> (r: &String)
        ensures
            r == &self.error_message,
    {
        &self.error_message
    }
}

} // verus!
