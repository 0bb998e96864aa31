//! The coverage measured for one source file.

use std::collections::BTreeMap;
use vstd::prelude::*;

verus! {

/// Where a function starts, and whether it ran.
#[derive(Debug, Clone, Copy, PartialEq, Eq)]
pub struct Function {
    pub start: u32,
    pub executed: bool,
}

/// Line hits, branch outcomes and functions of one file. The functions
/// come in the order in which the report is to list them.
#[derive(Debug, Clone, PartialEq, Eq)]
pub struct CovResult {
    pub lines: BTreeMap<u32, u64>,
    pub branches: BTreeMap<u32, Vec<bool>>,
    pub functions: Vec<(String, Function)>,
}

pub struct CovResultView {
    pub lines: Map<u32, u64>,
    pub branches: Map<u32, Seq<bool>>,
    pub functions: Seq<(Seq<char>, Function)>,
}

/// The branch outcomes of each line as sequences.
pub open spec fn branch_views(branches: Map<u32, Vec<bool>>) -> Map<u32, Seq<bool>> {
    branches.map_values(|outcomes: Vec<bool>| outcomes@)
}

pub open spec fn function_views(functions: Seq<(String, Function)>) -> Seq<(Seq<char>, Function)> {
    functions.map_values(|f: (String, Function)| (f.0@, f.1))
}

impl View for CovResult {
    type V = CovResultView;

    open spec fn view(&self) -> CovResultView {
        CovResultView {
            lines: self.lines@,
            branches: branch_views(self.branches@),
            functions: function_views(self.functions@),
        }
    }
}

/// Where each function starts, in the order of the functions.
pub open spec fn starts_of(functions: Seq<(Seq<char>, Function)>) -> Seq<u32> {
    functions.map_values(|f: (Seq<char>, Function)| f.1.start)
}

impl CovResultView {
    /// Where the functions start, in the order of the functions.
    pub open spec fn starts(self) -> Seq<u32> {
        starts_of(self.functions)
    }
}

/// A source file to report on: the path it is reported under, the stem of
/// its file name, and what was measured for it.
#[derive(Debug, Clone, PartialEq, Eq)]
pub struct SourceFile {
    pub rel_path: String,
    pub stem: String,
    pub result: CovResult,
}

pub struct SourceFileView {
    pub rel_path: Seq<char>,
    pub stem: Seq<char>,
    pub result: CovResultView,
}

impl View for SourceFile {
    type V = SourceFileView;

    open spec fn view(&self) -> SourceFileView {
        SourceFileView { rel_path: self.rel_path@, stem: self.stem@, result: self.result@ }
    }
}

pub open spec fn source_file_views(files: Seq<SourceFile>) -> Seq<SourceFileView> {
    files.map_values(|f: SourceFile| f@)
}

} // verus!
