//! The report tree: coverage, packages, classes, methods and lines.

use vstd::prelude::*;

verus! {

/// The kind of a branch condition. Only jumps are reported.
#[derive(Debug, Clone, Copy, PartialEq, Eq)]
pub enum ConditionType {
    Jump,
}

impl ConditionType {
    /// The kind as it is written in the report.
    pub open spec fn text(self) -> Seq<char> {
        "jump"@
    }

    pub fn to_string(&self) -> (s: String)
        ensures
            s@ == self.text(),
    {
        match self {
            ConditionType::Jump => "jump".to_owned(),
        }
    }
}

/// One outcome of a branch point: its position among the outcomes of its
/// line, and whether it was taken.
#[derive(Debug, Clone, Copy, PartialEq, Eq)]
pub struct Condition {
    pub number: usize,
    pub cond_type: ConditionType,
    pub covered: bool,
}

/// A line of a source file as the report shows it.
#[derive(Debug, Clone, PartialEq, Eq)]
pub enum Line {
    Plain { number: u32, hits: u64 },
    Branch { number: u32, hits: u64, conditions: Vec<Condition> },
}

/// The mathematical value of a [`Line`].
pub enum LineView {
    Plain { number: u32, hits: u64 },
    Branch { number: u32, hits: u64, conditions: Seq<Condition> },
}

impl LineView {
    pub open spec fn number(self) -> u32 {
        match self {
            LineView::Plain { number, .. } => number,
            LineView::Branch { number, .. } => number,
        }
    }

    pub open spec fn hits(self) -> u64 {
        match self {
            LineView::Plain { hits, .. } => hits,
            LineView::Branch { hits, .. } => hits,
        }
    }

    /// A line counts as covered exactly when it was hit at least once.
    pub open spec fn covered(self) -> bool {
        self.hits() > 0
    }

    /// The branch outcomes of the line; none for a plain line.
    pub open spec fn conditions(self) -> Seq<Condition> {
        match self {
            LineView::Plain { .. } => Seq::empty(),
            LineView::Branch { conditions, .. } => conditions,
        }
    }
}

impl View for Line {
    type V = LineView;

    open spec fn view(&self) -> LineView {
        match *self {
            Line::Plain { number, hits } => LineView::Plain { number, hits },
            Line::Branch { number, hits, conditions } => LineView::Branch {
                number,
                hits,
                conditions: conditions@,
            },
        }
    }
}

impl Line {
    pub fn number(&self) -> (n: u32)
        ensures
            n == self@.number(),
    {
        match self {
            Line::Plain { number, .. } => *number,
            Line::Branch { number, .. } => *number,
        }
    }

    pub fn hits(&self) -> (h: u64)
        ensures
            h == self@.hits(),
    {
        match self {
            Line::Plain { hits, .. } => *hits,
            Line::Branch { hits, .. } => *hits,
        }
    }

    pub fn covered(&self) -> (c: bool)
        ensures
            c == self@.covered(),
            c <==> self@.hits() > 0,
    {
        self.hits() > 0
    }
}

/// The values of a sequence of lines, in order.
pub open spec fn line_views(lines: Seq<Line>) -> Seq<LineView> {
    lines.map_values(|l: Line| l@)
}

/// A function of a source file with the lines attributed to it.
#[derive(Debug, Clone, PartialEq, Eq)]
pub struct Method {
    pub name: String,
    pub signature: String,
    pub lines: Vec<Line>,
}

pub struct MethodView {
    pub name: Seq<char>,
    pub signature: Seq<char>,
    pub lines: Seq<LineView>,
}

impl View for Method {
    type V = MethodView;

    open spec fn view(&self) -> MethodView {
        MethodView { name: self.name@, signature: self.signature@, lines: line_views(self.lines@) }
    }
}

pub open spec fn method_views(methods: Seq<Method>) -> Seq<MethodView> {
    methods.map_values(|m: Method| m@)
}

/// A source file: its methods, and the lines that no method claims.
#[derive(Debug, Clone, PartialEq, Eq)]
pub struct Class {
    pub name: String,
    pub file_name: String,
    pub lines: Vec<Line>,
    pub methods: Vec<Method>,
}

pub struct ClassView {
    pub name: Seq<char>,
    pub file_name: Seq<char>,
    pub lines: Seq<LineView>,
    pub methods: Seq<MethodView>,
}

impl View for Class {
    type V = ClassView;

    open spec fn view(&self) -> ClassView {
        ClassView {
            name: self.name@,
            file_name: self.file_name@,
            lines: line_views(self.lines@),
            methods: method_views(self.methods@),
        }
    }
}

pub open spec fn class_views(classes: Seq<Class>) -> Seq<ClassView> {
    classes.map_values(|c: Class| c@)
}

/// The report's grouping of classes; one package stands for one file.
#[derive(Debug, Clone, PartialEq, Eq)]
pub struct Package {
    pub name: String,
    pub classes: Vec<Class>,
}

pub struct PackageView {
    pub name: Seq<char>,
    pub classes: Seq<ClassView>,
}

impl View for Package {
    type V = PackageView;

    open spec fn view(&self) -> PackageView {
        PackageView { name: self.name@, classes: class_views(self.classes@) }
    }
}

pub open spec fn package_views(packages: Seq<Package>) -> Seq<PackageView> {
    packages.map_values(|p: Package| p@)
}

/// The root of the report.
#[derive(Debug, Clone, PartialEq, Eq)]
pub struct Coverage {
    pub sources: Vec<String>,
    pub packages: Vec<Package>,
}

pub struct CoverageView {
    pub sources: Seq<Seq<char>>,
    pub packages: Seq<PackageView>,
}

pub open spec fn string_views(strings: Seq<String>) -> Seq<Seq<char>> {
    strings.map_values(|s: String| s@)
}

impl View for Coverage {
    type V = CoverageView;

    open spec fn view(&self) -> CoverageView {
        CoverageView {
            sources: string_views(self.sources@),
            packages: package_views(self.packages@),
        }
    }
}

} // verus!
