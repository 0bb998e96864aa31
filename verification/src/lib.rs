//! Cobertura coverage reports from per-file line, branch and function data.
//!
//! A report is made in four steps:
//!
//! 1. [`coverage::get_coverage`] builds the report tree. It shares the lines
//!    of each file out among the file's functions ([`attribution`]), turns
//!    each line number into the line that is shown for it ([`classify`]), and
//!    names the methods ([`demangle`]).
//! 2. [`emit::document`] lays the tree out as the XML events of a Cobertura
//!    `coverage-04` document, with the counts of every level
//!    ([`aggregate`], [`stats`]). A method is counted by its lines; a class
//!    by the lines of its file, each once, however many methods show them.
//!    Counts are written out in decimal digits; rates are left as pairs of
//!    counts.
//! 3. The caller lists a text for each rate ([`rates::pending_rates`]) and has
//!    the rates replaced ([`rates::with_rate_texts`]).
//! 4. [`xml::render`] hands the events to the XML writer and returns the
//!    bytes of the document. A laid-out report is always fit to be rendered
//!    ([`nesting`]).
//!
//! All of this is verified, but for what two outside crates do: the items of
//! [`writer`] state without proof what `quick_xml` writes, and [`demangle`]
//! gives a name to what `symbolic_demangle` returns.

pub mod aggregate;
pub mod ascending;
pub mod attribution;
pub mod classify;
pub mod coverage;
pub mod decimal;
pub mod demangle;
pub mod emit;
pub mod error;
pub mod input;
pub mod nesting;
pub mod rates;
pub mod stats;
pub mod tree;
pub mod writer;
pub mod xml;
