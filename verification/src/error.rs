//! What can keep a report from being written.

use vstd::prelude::*;

verus! {

#[derive(Debug, Clone, Copy, PartialEq, Eq)]
pub enum ExportError {
    /// The report holds more lines or conditions than can be counted.
    Uncountable,
    /// An attribute still holds a rate where its text is needed.
    UnformattedRate,
    /// The elements are nested deeper than the writer can indent.
    TooDeep,
    /// The writer reported a failure of its sink.
    Write,
}

impl ExportError {
    pub open spec fn text(self) -> Seq<char> {
        match self {
            ExportError::Uncountable => "the report holds more lines than can be counted"@,
            ExportError::UnformattedRate => "a rate of the report has no text yet"@,
            ExportError::TooDeep => "the report is nested too deep"@,
            ExportError::Write => "the report could not be written"@,
        }
    }

    /// The error in words.
    pub fn message(&self) -> (message: String)
        ensures
            message@ == self.text(),
    {
        match self {
            ExportError::Uncountable => "the report holds more lines than can be counted".to_owned(),
            ExportError::UnformattedRate => "a rate of the report has no text yet".to_owned(),
            ExportError::TooDeep => "the report is nested too deep".to_owned(),
            ExportError::Write => "the report could not be written".to_owned(),
        }
    }
}

} // verus!
