//! The lines below each level of the report, and the counts over them.
//!
//! A method is counted by its lines. A class is counted by the lines of its
//! file: those of its methods and those that no method owns, each line
//! number taken once, however many methods repeat it. A package is counted
//! by its classes and the report by its packages.

use crate::stats::{
    countable, counted, covered_conditions, covered_lines, distinct_numbers,
    lemma_counted_concat, lemma_counts_concat, lemma_covered_at_most_valid, stats_of, total_conditions, CoverageStats,
};
use crate::tree::{
    class_views, line_views, method_views, package_views, Class, ClassView, Condition, Coverage,
    CoverageView, Line, LineView, Method, MethodView, Package, PackageView,
};
use std::collections::BTreeSet;
use vstd::laws_cmp::group_laws_cmp;
use vstd::prelude::*;

verus! {

/// The lines of several runs, one run after the other.
pub open spec fn joined(runs: Seq<Seq<LineView>>) -> Seq<LineView>
    decreases runs.len(),
{
    if runs.len() == 0 {
        Seq::empty()
    } else {
        joined(runs.drop_last()) + runs.last()
    }
}

impl MethodView {
    /// The lines that the method's counts are taken over.
    pub open spec fn leaves(self) -> Seq<LineView> {
        self.lines
    }
}

/// The lines of the methods, method by method.
pub open spec fn methods_leaves(methods: Seq<MethodView>) -> Seq<LineView> {
    joined(methods.map_values(|m: MethodView| m.leaves()))
}

/// Whether one of the lines has the number.
pub open spec fn has_number(leaves: Seq<LineView>, number: u32) -> bool {
    exists|i: int| 0 <= i < leaves.len() && (#[trigger] leaves[i]).number() == number
}

/// The lines with each line number taken once: of the lines that have the
/// same number, the first.
pub open spec fn once_each(leaves: Seq<LineView>) -> Seq<LineView>
    decreases leaves.len(),
{
    if leaves.len() == 0 {
        Seq::empty()
    } else if has_number(leaves.drop_last(), leaves.last().number()) {
        once_each(leaves.drop_last())
    } else {
        once_each(leaves.drop_last()).push(leaves.last())
    }
}

impl ClassView {
    /// Every line of the class where it stands: the lines of its methods,
    /// method by method, then the lines that no method owns.
    pub open spec fn all_lines(self) -> Seq<LineView> {
        methods_leaves(self.methods) + self.lines
    }

    /// The lines that the class's counts are taken over: the lines of its
    /// methods and those that no method owns, each line number once.
    pub open spec fn leaves(self) -> Seq<LineView> {
        once_each(self.all_lines())
    }
}

/// The lines of the classes, class by class.
pub open spec fn classes_leaves(classes: Seq<ClassView>) -> Seq<LineView> {
    joined(classes.map_values(|c: ClassView| c.leaves()))
}

impl PackageView {
    /// The lines that the package's counts are taken over.
    pub open spec fn leaves(self) -> Seq<LineView> {
        classes_leaves(self.classes)
    }
}

/// The lines of the packages, package by package.
pub open spec fn packages_leaves(packages: Seq<PackageView>) -> Seq<LineView> {
    joined(packages.map_values(|p: PackageView| p.leaves()))
}

impl CoverageView {
    /// The lines that the report's counts are taken over.
    pub open spec fn leaves(self) -> Seq<LineView> {
        packages_leaves(self.packages)
    }
}

impl MethodView {
    /// Whether the counts of the method fit the integers that hold them.
    pub open spec fn fits(self) -> bool {
        countable(self.leaves())
    }
}

impl ClassView {
    /// Whether the counts of the class and of each of its methods fit.
    pub open spec fn fits(self) -> bool {
        &&& countable(self.leaves())
        &&& forall|i: int| 0 <= i < self.methods.len() ==> (#[trigger] self.methods[i]).fits()
    }
}

impl PackageView {
    /// Whether the counts of the package and of all below it fit.
    pub open spec fn fits(self) -> bool {
        &&& countable(self.leaves())
        &&& forall|i: int| 0 <= i < self.classes.len() ==> (#[trigger] self.classes[i]).fits()
    }
}

impl CoverageView {
    /// Whether the counts of the report and of all below it fit.
    pub open spec fn fits(self) -> bool {
        &&& countable(self.leaves())
        &&& forall|i: int| 0 <= i < self.packages.len() ==> (#[trigger] self.packages[i]).fits()
    }
}

/// The lines with each number taken once have the numbers of all the
/// lines, no number twice, and no line that is not among them.
pub proof fn lemma_once_each(leaves: Seq<LineView>)
    ensures
        forall|n: u32| has_number(once_each(leaves), n) <==> has_number(leaves, n),
        forall|i: int, j: int|
            0 <= i < j < once_each(leaves).len() ==> (#[trigger] once_each(leaves)[i]).number() != (
            #[trigger] once_each(leaves)[j]).number(),
        forall|i: int|
            0 <= i < once_each(leaves).len() ==> leaves.contains(#[trigger] once_each(leaves)[i]),
        once_each(leaves).len() <= leaves.len(),
    decreases leaves.len(),
{
    let kept = once_each(leaves);
    if leaves.len() > 0 {
        let head = leaves.drop_last();
        let last = leaves.last();
        let before = once_each(head);
        lemma_once_each(head);
        assert forall|n: u32| has_number(leaves, n) <==> has_number(head, n) || n
            == last.number() by {
            if has_number(leaves, n) {
                let i = choose|i: int| 0 <= i < leaves.len() && (#[trigger] leaves[i]).number() == n;
                if i < head.len() {
                    assert(head[i].number() == n);
                }
            }
            if has_number(head, n) {
                let i = choose|i: int| 0 <= i < head.len() && (#[trigger] head[i]).number() == n;
                assert(leaves[i].number() == n);
            }
            if n == last.number() {
                assert(leaves[leaves.len() - 1].number() == n);
            }
        }
        assert forall|n: u32| has_number(kept, n) <==> has_number(leaves, n) by {
            assert(has_number(before, n) <==> has_number(head, n));
            if has_number(kept, n) {
                let i = choose|i: int| 0 <= i < kept.len() && (#[trigger] kept[i]).number() == n;
                if i < before.len() {
                    assert(before[i].number() == n);
                }
            }
            if has_number(before, n) {
                let i = choose|i: int| 0 <= i < before.len() && (#[trigger] before[i]).number() == n;
                assert(kept[i].number() == n);
            }
            if n == last.number() && !has_number(head, n) {
                assert(kept[kept.len() - 1].number() == n);
            }
        }
        assert forall|i: int, j: int| 0 <= i < j < kept.len() implies (#[trigger] kept[i]).number() != (
        #[trigger] kept[j]).number() by {
            if j == before.len() {
                assert(before[i].number() == kept[i].number());
                assert(has_number(before, kept[i].number()));
            }
        }
        assert forall|i: int| 0 <= i < kept.len() implies leaves.contains(#[trigger] kept[i]) by {
            if i < before.len() {
                assert(head.contains(before[i]));
                let k = choose|k: int| 0 <= k < head.len() && head[k] == before[i];
                assert(leaves[k] == kept[i]);
            } else {
                assert(leaves[leaves.len() - 1] == kept[i]);
            }
        }
    }
}

/// Lines that repeat numbers of the lines before them add nothing: taken
/// once each, the lines are those before them taken once each.
pub proof fn lemma_once_each_repeated(before: Seq<LineView>, repeated: Seq<LineView>)
    requires
        forall|j: int|
            0 <= j < repeated.len() ==> has_number(before, (#[trigger] repeated[j]).number()),
    ensures
        once_each(before + repeated) == once_each(before),
    decreases repeated.len(),
{
    if repeated.len() == 0 {
        assert(before + repeated =~= before);
    } else {
        let all = before + repeated;
        let last = repeated.last();
        lemma_once_each_repeated(before, repeated.drop_last());
        assert(all.drop_last() =~= before + repeated.drop_last());
        assert(all.last() == last);
        assert(has_number(before, repeated[repeated.len() - 1].number()));
        let i = choose|i: int| 0 <= i < before.len() && (#[trigger] before[i]).number() == last.number();
        assert(all.drop_last()[i].number() == last.number());
    }
}

/// Lines that have none of the numbers of the lines before them are taken
/// by themselves: taken once each, the lines are those before them taken
/// once each, and then the others taken once each.
pub proof fn lemma_once_each_apart(before: Seq<LineView>, others: Seq<LineView>)
    requires
        forall|j: int|
            0 <= j < others.len() ==> !has_number(before, (#[trigger] others[j]).number()),
    ensures
        once_each(before + others) == once_each(before) + once_each(others),
    decreases others.len(),
{
    if others.len() == 0 {
        assert(before + others =~= before);
        assert(once_each(before) + once_each(others) =~= once_each(before));
    } else {
        let all = before + others;
        let head = others.drop_last();
        let last = others.last();
        assert forall|j: int| 0 <= j < head.len() implies !has_number(
            before,
            (#[trigger] head[j]).number(),
        ) by {
            assert(head[j] == others[j]);
        }
        lemma_once_each_apart(before, head);
        assert(all.drop_last() =~= before + head);
        assert(all.last() == last);
        assert(!has_number(before, others[others.len() - 1].number()));
        assert(has_number(all.drop_last(), last.number()) <==> has_number(head, last.number())) by {
            if has_number(all.drop_last(), last.number()) {
                let i = choose|i: int|
                    0 <= i < all.drop_last().len() && (#[trigger] all.drop_last()[i]).number()
                        == last.number();
                if i < before.len() {
                    assert(before[i].number() == last.number());
                } else {
                    assert(head[i - before.len()].number() == last.number());
                }
            }
            if has_number(head, last.number()) {
                let i = choose|i: int| 0 <= i < head.len() && (#[trigger] head[i]).number() == last.number();
                assert(all.drop_last()[before.len() + i].number() == last.number());
            }
        }
        if has_number(head, last.number()) {
            assert(once_each(all) =~= once_each(before) + once_each(others));
        } else {
            assert(once_each(all) =~= once_each(before) + once_each(others));
        }
    }
}

/// Lines of which no two have the same number are all taken.
pub proof fn lemma_once_each_distinct(leaves: Seq<LineView>)
    requires
        distinct_numbers(leaves),
    ensures
        once_each(leaves) == leaves,
    decreases leaves.len(),
{
    if leaves.len() == 0 {
        assert(once_each(leaves) =~= leaves);
    } else {
        let head = leaves.drop_last();
        assert(distinct_numbers(head)) by {
            assert forall|i: int, j: int| 0 <= i < j < head.len() implies (
            #[trigger] head[i]).number() != (#[trigger] head[j]).number() by {
                assert(head[i] == leaves[i] && head[j] == leaves[j]);
            }
        }
        lemma_once_each_distinct(head);
        if has_number(head, leaves.last().number()) {
            let i = choose|i: int|
                0 <= i < head.len() && (#[trigger] head[i]).number() == leaves.last().number();
            assert(leaves[i].number() != leaves[leaves.len() - 1].number());
        }
        assert(once_each(leaves) =~= leaves);
    }
}

/// A line is among the runs joined exactly where it is in one of the runs.
pub proof fn lemma_joined_members(runs: Seq<Seq<LineView>>)
    ensures
        forall|x: LineView| #[trigger]
            joined(runs).contains(x) <==> exists|i: int|
                0 <= i < runs.len() && (#[trigger] runs[i]).contains(x),
    decreases runs.len(),
{
    if runs.len() > 0 {
        let head = runs.drop_last();
        lemma_joined_members(head);
        assert forall|x: LineView| #[trigger]
            joined(runs).contains(x) <==> exists|i: int|
                0 <= i < runs.len() && (#[trigger] runs[i]).contains(x) by {
            let all = joined(runs);
            if all.contains(x) {
                let k = choose|k: int| 0 <= k < all.len() && all[k] == x;
                if k < joined(head).len() {
                    assert(joined(head)[k] == x);
                    assert(joined(head).contains(x));
                    let i = choose|i: int| 0 <= i < head.len() && (#[trigger] head[i]).contains(x);
                    assert(runs[i].contains(x));
                } else {
                    assert(runs.last()[k - joined(head).len()] == x);
                    assert(runs[runs.len() - 1].contains(x));
                }
            }
            if exists|i: int| 0 <= i < runs.len() && (#[trigger] runs[i]).contains(x) {
                let i = choose|i: int| 0 <= i < runs.len() && (#[trigger] runs[i]).contains(x);
                if i < head.len() {
                    assert(head[i].contains(x));
                    assert(joined(head).contains(x));
                    let k = choose|k: int| 0 <= k < joined(head).len() && joined(head)[k] == x;
                    assert(all[k] == x);
                } else {
                    let k = choose|k: int| 0 <= k < runs.last().len() && runs.last()[k] == x;
                    assert(all[joined(head).len() + k] == x);
                }
            }
        }
    }
}

/// Runs that have, one by one, the same lengths and counts have the same
/// length and counts when they are joined.
pub proof fn lemma_joined_counts(a: Seq<Seq<LineView>>, b: Seq<Seq<LineView>>)
    requires
        a.len() == b.len(),
        forall|i: int|
            0 <= i < a.len() ==> {
                &&& (#[trigger] a[i]).len() == b[i].len()
                &&& covered_lines(a[i]) == covered_lines(b[i])
                &&& total_conditions(a[i]) == total_conditions(b[i])
                &&& covered_conditions(a[i]) == covered_conditions(b[i])
            },
    ensures
        joined(a).len() == joined(b).len(),
        covered_lines(joined(a)) == covered_lines(joined(b)),
        total_conditions(joined(a)) == total_conditions(joined(b)),
        covered_conditions(joined(a)) == covered_conditions(joined(b)),
    decreases a.len(),
{
    if a.len() > 0 {
        assert(a[a.len() - 1].len() == b[a.len() - 1].len());
        assert forall|i: int| 0 <= i < a.drop_last().len() implies {
            &&& (#[trigger] a.drop_last()[i]).len() == b.drop_last()[i].len()
            &&& covered_lines(a.drop_last()[i]) == covered_lines(b.drop_last()[i])
            &&& total_conditions(a.drop_last()[i]) == total_conditions(b.drop_last()[i])
            &&& covered_conditions(a.drop_last()[i]) == covered_conditions(b.drop_last()[i])
        } by {
            assert(a.drop_last()[i] == a[i]);
        }
        lemma_joined_counts(a.drop_last(), b.drop_last());
        lemma_counts_concat(joined(a.drop_last()), a.last());
        lemma_counts_concat(joined(b.drop_last()), b.last());
    }
}

/// The runs up to a position, joined, are the start of all runs joined.
pub proof fn lemma_joined_split(runs: Seq<Seq<LineView>>, k: int)
    requires
        0 <= k <= runs.len(),
    ensures
        joined(runs) == joined(runs.take(k)) + joined(runs.skip(k)),
    decreases runs.len() - k,
{
    if k == runs.len() {
        assert(runs.take(k) =~= runs);
        assert(runs.skip(k) =~= Seq::<Seq<LineView>>::empty());
        assert(joined(runs) + Seq::<LineView>::empty() =~= joined(runs));
    } else {
        let head = runs.drop_last();
        lemma_joined_split(head, k);
        assert(head.take(k) =~= runs.take(k));
        assert(runs.skip(k).drop_last() =~= head.skip(k));
        assert(joined(runs.skip(k)) == joined(head.skip(k)) + runs.last());
        assert(joined(runs) =~= joined(runs.take(k)) + joined(runs.skip(k)));
    }
}

/// Adds the counts of one more run of lines to the counts of the runs
/// before it.
fn extend(
    acc: CoverageStats,
    part: Option<CoverageStats>,
    Ghost(before): Ghost<Seq<LineView>>,
    Ghost(run): Ghost<Seq<LineView>>,
) -> (sum: Option<CoverageStats>)
    requires
        countable(before),
        acc == stats_of(before),
        part == counted(run),
    ensures
        sum == counted(before + run),
{
    proof {
        lemma_counted_concat(before, run);
        lemma_covered_at_most_valid(before);
        lemma_covered_at_most_valid(run);
    }
    match part {
        Some(p) => acc.combine(p),
        None => None,
    }
}

impl Method {
    /// The counts over the method's lines.
    pub fn get_stats(&self) -> (stats: Option<CoverageStats>)
        ensures
            stats == counted(self@.leaves()),
    {
        CoverageStats::from_lines(&self.lines)
    }
}

/// The counts over the lines of all the methods.
pub fn methods_stats(methods: &Vec<Method>) -> (stats: Option<CoverageStats>)
    ensures
        stats == counted(methods_leaves(method_views(methods@))),
{
    let ghost runs = method_views(methods@).map_values(|m: MethodView| m.leaves());
    let mut acc = CoverageStats::empty();
    let mut i: usize = 0;
    while i < methods.len()
        invariant
            i <= methods.len(),
            runs == method_views(methods@).map_values(|m: MethodView| m.leaves()),
            countable(joined(runs.take(i as int))),
            acc == stats_of(joined(runs.take(i as int))),
        decreases methods.len() - i,
    {
        proof {
            assert(runs.take(i + 1).drop_last() =~= runs.take(i as int));
            assert(runs.take(i + 1).last() == methods@[i as int]@.leaves());
            lemma_joined_split(runs, i + 1);
            lemma_counted_concat(joined(runs.take(i + 1)), joined(runs.skip(i + 1)));
        }
        let part = methods[i].get_stats();
        match extend(
            acc,
            part,
            Ghost(joined(runs.take(i as int))),
            Ghost(methods@[i as int]@.leaves()),
        ) {
            Some(sum) => {
                acc = sum;
            },
            None => {
                return None;
            },
        }
        i = i + 1;
    }
    assert(runs.take(i as int) =~= runs);
    Some(acc)
}

impl Class {
    /// The counts over the lines of the class: those of its methods and
    /// those that no method owns, each line number once.
    pub fn get_stats(&self) -> (stats: Option<CoverageStats>)
        ensures
            stats == counted(self@.leaves()),
    {
        CoverageStats::from_lines(&self.get_lines())
    }
}

/// The counts over the lines of all the classes.
pub fn classes_stats(classes: &Vec<Class>) -> (stats: Option<CoverageStats>)
    ensures
        stats == counted(classes_leaves(class_views(classes@))),
{
    let ghost runs = class_views(classes@).map_values(|c: ClassView| c.leaves());
    let mut acc = CoverageStats::empty();
    let mut i: usize = 0;
    while i < classes.len()
        invariant
            i <= classes.len(),
            runs == class_views(classes@).map_values(|c: ClassView| c.leaves()),
            countable(joined(runs.take(i as int))),
            acc == stats_of(joined(runs.take(i as int))),
        decreases classes.len() - i,
    {
        proof {
            assert(runs.take(i + 1).drop_last() =~= runs.take(i as int));
            assert(runs.take(i + 1).last() == classes@[i as int]@.leaves());
            lemma_joined_split(runs, i + 1);
            lemma_counted_concat(joined(runs.take(i + 1)), joined(runs.skip(i + 1)));
        }
        let part = classes[i].get_stats();
        match extend(
            acc,
            part,
            Ghost(joined(runs.take(i as int))),
            Ghost(classes@[i as int]@.leaves()),
        ) {
            Some(sum) => {
                acc = sum;
            },
            None => {
                return None;
            },
        }
        i = i + 1;
    }
    assert(runs.take(i as int) =~= runs);
    Some(acc)
}

impl Package {
    /// The counts over the lines of the package's classes.
    pub fn get_stats(&self) -> (stats: Option<CoverageStats>)
        ensures
            stats == counted(self@.leaves()),
    {
        classes_stats(&self.classes)
    }
}

/// The counts over the lines of all the packages.
pub fn packages_stats(packages: &Vec<Package>) -> (stats: Option<CoverageStats>)
    ensures
        stats == counted(packages_leaves(package_views(packages@))),
{
    let ghost runs = package_views(packages@).map_values(|p: PackageView| p.leaves());
    let mut acc = CoverageStats::empty();
    let mut i: usize = 0;
    while i < packages.len()
        invariant
            i <= packages.len(),
            runs == package_views(packages@).map_values(|p: PackageView| p.leaves()),
            countable(joined(runs.take(i as int))),
            acc == stats_of(joined(runs.take(i as int))),
        decreases packages.len() - i,
    {
        proof {
            assert(runs.take(i + 1).drop_last() =~= runs.take(i as int));
            assert(runs.take(i + 1).last() == packages@[i as int]@.leaves());
            lemma_joined_split(runs, i + 1);
            lemma_counted_concat(joined(runs.take(i + 1)), joined(runs.skip(i + 1)));
        }
        let part = packages[i].get_stats();
        match extend(
            acc,
            part,
            Ghost(joined(runs.take(i as int))),
            Ghost(packages@[i as int]@.leaves()),
        ) {
            Some(sum) => {
                acc = sum;
            },
            None => {
                return None;
            },
        }
        i = i + 1;
    }
    assert(runs.take(i as int) =~= runs);
    Some(acc)
}

impl Coverage {
    /// The counts over every line of the report.
    pub fn get_stats(&self) -> (stats: Option<CoverageStats>)
        ensures
            stats == counted(self@.leaves()),
    {
        packages_stats(&self.packages)
    }
}

/// A line with the same number, hits and conditions.
fn copy_line(line: &Line) -> (copy: Line)
    ensures
        copy@ == line@,
{
    match line {
        Line::Plain { number, hits } => Line::Plain { number: *number, hits: *hits },
        Line::Branch { number, hits, conditions } => {
            let mut copied: Vec<Condition> = Vec::new();
            let mut i: usize = 0;
            while i < conditions.len()
                invariant
                    i <= conditions.len(),
                    copied@ == conditions@.take(i as int),
                decreases conditions.len() - i,
            {
                copied.push(conditions[i]);
                i = i + 1;
                assert(copied@ =~= conditions@.take(i as int));
            }
            assert(conditions@.take(i as int) =~= conditions@);
            Line::Branch { number: *number, hits: *hits, conditions: copied }
        },
    }
}

/// Adds copies of the lines to those gathered so far.
fn gather(gathered: &mut Vec<Line>, lines: &Vec<Line>)
    ensures
        line_views(final(gathered)@) == line_views(old(gathered)@) + line_views(lines@),
{
    let ghost before = line_views(gathered@);
    let mut i: usize = 0;
    assert(before + line_views(lines@.take(0)) =~= before);
    while i < lines.len()
        invariant
            i <= lines.len(),
            line_views(gathered@) == before + line_views(lines@.take(i as int)),
        decreases lines.len() - i,
    {
        let ghost so_far = line_views(gathered@);
        let copy = copy_line(&lines[i]);
        gathered.push(copy);
        assert(line_views(gathered@) =~= so_far.push(copy@));
        assert(line_views(lines@.take(i + 1)) =~= line_views(lines@.take(i as int)).push(
            lines@[i as int]@,
        ));
        i = i + 1;
        assert(line_views(gathered@) =~= before + line_views(lines@.take(i as int)));
    }
    assert(lines@.take(i as int) =~= lines@);
}

impl Line {
    /// The line by itself, as the lines that its counts are taken over.
    pub fn get_lines(&self) -> (lines: Vec<Line>)
        ensures
            line_views(lines@) == seq![self@],
    {
        let mut lines: Vec<Line> = Vec::new();
        lines.push(copy_line(self));
        assert(line_views(lines@) =~= seq![self@]);
        lines
    }
}

impl Method {
    /// The lines that the method's counts are taken over.
    pub fn get_lines(&self) -> (lines: Vec<Line>)
        ensures
            line_views(lines@) == self@.leaves(),
    {
        let mut lines: Vec<Line> = Vec::new();
        assert(line_views(lines@) =~= Seq::<LineView>::empty());
        gather(&mut lines, &self.lines);
        assert(line_views(lines@) =~= self@.leaves());
        lines
    }
}

/// The lines of all the methods, method by method.
pub fn methods_lines(methods: &Vec<Method>) -> (lines: Vec<Line>)
    ensures
        line_views(lines@) == methods_leaves(method_views(methods@)),
{
    let ghost runs = method_views(methods@).map_values(|m: MethodView| m.leaves());
    let mut lines: Vec<Line> = Vec::new();
    assert(line_views(lines@) =~= Seq::<LineView>::empty());
    let mut i: usize = 0;
    while i < methods.len()
        invariant
            i <= methods.len(),
            runs == method_views(methods@).map_values(|m: MethodView| m.leaves()),
            line_views(lines@) == joined(runs.take(i as int)),
        decreases methods.len() - i,
    {
        assert(runs.take(i + 1).drop_last() =~= runs.take(i as int));
        assert(runs.take(i + 1).last() == methods@[i as int]@.leaves());
        gather(&mut lines, &methods[i].lines);
        i = i + 1;
    }
    assert(runs.take(i as int) =~= runs);
    lines
}

/// Marks a line number as seen, and tells whether it was new.
fn mark(seen: &mut BTreeSet<u32>, number: u32) -> (fresh: bool)
    ensures
        final(seen)@ == old(seen)@.insert(number),
        fresh == !old(seen)@.contains(number),
{
    broadcast use group_laws_cmp;

    seen.insert(number)
}

/// Copies of the lines, each line number taken once: of the lines that have
/// the same number, the first.
pub fn once(lines: &Vec<Line>) -> (kept: Vec<Line>)
    ensures
        line_views(kept@) == once_each(line_views(lines@)),
{
    let ghost views = line_views(lines@);
    let mut seen: BTreeSet<u32> = BTreeSet::new();
    let mut kept: Vec<Line> = Vec::new();
    let mut i: usize = 0;
    assert(line_views(kept@) =~= once_each(views.take(0)));
    while i < lines.len()
        invariant
            i <= lines.len(),
            views == line_views(lines@),
            forall|n: u32| seen@.contains(n) <==> has_number(views.take(i as int), n),
            line_views(kept@) == once_each(views.take(i as int)),
        decreases lines.len() - i,
    {
        let ghost before = views.take(i as int);
        let ghost next = views.take(i + 1);
        let number = lines[i].number();
        proof {
            assert(next.drop_last() =~= before);
            assert(next.last() == lines@[i as int]@);
            assert forall|n: u32| has_number(next, n) <==> has_number(before, n) || n
                == number by {
                if has_number(next, n) {
                    let k = choose|k: int| 0 <= k < next.len() && (#[trigger] next[k]).number() == n;
                    if k < before.len() {
                        assert(before[k].number() == n);
                    }
                }
                if has_number(before, n) {
                    let k = choose|k: int|
                        0 <= k < before.len() && (#[trigger] before[k]).number() == n;
                    assert(next[k].number() == n);
                }
                if n == number {
                    assert(next[next.len() - 1].number() == n);
                }
            }
        }
        if mark(&mut seen, number) {
            let ghost so_far = line_views(kept@);
            let copy = copy_line(&lines[i]);
            kept.push(copy);
            assert(line_views(kept@) =~= so_far.push(copy@));
        }
        i = i + 1;
    }
    assert(views.take(i as int) =~= views);
    kept
}

impl Class {
    /// The lines that the class's counts are taken over.
    pub fn get_lines(&self) -> (lines: Vec<Line>)
        ensures
            line_views(lines@) == self@.leaves(),
    {
        let mut all = methods_lines(&self.methods);
        gather(&mut all, &self.lines);
        once(&all)
    }
}

/// The lines of all the classes, class by class.
pub fn classes_lines(classes: &Vec<Class>) -> (lines: Vec<Line>)
    ensures
        line_views(lines@) == classes_leaves(class_views(classes@)),
{
    let ghost runs = class_views(classes@).map_values(|c: ClassView| c.leaves());
    let mut lines: Vec<Line> = Vec::new();
    assert(line_views(lines@) =~= Seq::<LineView>::empty());
    let mut i: usize = 0;
    while i < classes.len()
        invariant
            i <= classes.len(),
            runs == class_views(classes@).map_values(|c: ClassView| c.leaves()),
            line_views(lines@) == joined(runs.take(i as int)),
        decreases classes.len() - i,
    {
        assert(runs.take(i + 1).drop_last() =~= runs.take(i as int));
        assert(runs.take(i + 1).last() == classes@[i as int]@.leaves());
        let part = classes[i].get_lines();
        gather(&mut lines, &part);
        i = i + 1;
    }
    assert(runs.take(i as int) =~= runs);
    lines
}

impl Package {
    /// The lines that the package's counts are taken over.
    pub fn get_lines(&self) -> (lines: Vec<Line>)
        ensures
            line_views(lines@) == self@.leaves(),
    {
        classes_lines(&self.classes)
    }
}

/// The lines of all the packages, package by package.
pub fn packages_lines(packages: &Vec<Package>) -> (lines: Vec<Line>)
    ensures
        line_views(lines@) == packages_leaves(package_views(packages@)),
{
    let ghost runs = package_views(packages@).map_values(|p: PackageView| p.leaves());
    let mut lines: Vec<Line> = Vec::new();
    assert(line_views(lines@) =~= Seq::<LineView>::empty());
    let mut i: usize = 0;
    while i < packages.len()
        invariant
            i <= packages.len(),
            runs == package_views(packages@).map_values(|p: PackageView| p.leaves()),
            line_views(lines@) == joined(runs.take(i as int)),
        decreases packages.len() - i,
    {
        assert(runs.take(i + 1).drop_last() =~= runs.take(i as int));
        assert(runs.take(i + 1).last() == packages@[i as int]@.leaves());
        let part = packages[i].get_lines();
        gather(&mut lines, &part);
        i = i + 1;
    }
    assert(runs.take(i as int) =~= runs);
    lines
}

impl Coverage {
    /// Every line of the report, as the lines that its counts are taken
    /// over.
    pub fn get_lines(&self) -> (lines: Vec<Line>)
        ensures
            line_views(lines@) == self@.leaves(),
    {
        packages_lines(&self.packages)
    }
}

impl Method {
    /// Whether the counts of the method fit.
    pub fn fits(&self) -> (fits: bool)
        ensures
            fits == self@.fits(),
    {
        self.get_stats().is_some()
    }
}

/// Whether the counts of each of the methods fit.
pub fn methods_fit(methods: &Vec<Method>) -> (fit: bool)
    ensures
        fit == forall|i: int|
            0 <= i < methods@.len() ==> (#[trigger] method_views(methods@)[i]).fits(),
{
    let mut i: usize = 0;
    while i < methods.len()
        invariant
            i <= methods.len(),
            forall|k: int| 0 <= k < i ==> (#[trigger] method_views(methods@)[k]).fits(),
        decreases methods.len() - i,
    {
        if !methods[i].fits() {
            assert(!method_views(methods@)[i as int].fits());
            return false;
        }
        i = i + 1;
    }
    true
}

impl Class {
    /// Whether the counts of the class and of each of its methods fit.
    pub fn fits(&self) -> (fits: bool)
        ensures
            fits == self@.fits(),
    {
        self.get_stats().is_some() && methods_fit(&self.methods)
    }
}

/// Whether the counts of each of the classes, and of all below them, fit.
pub fn classes_fit(classes: &Vec<Class>) -> (fit: bool)
    ensures
        fit == forall|i: int|
            0 <= i < classes@.len() ==> (#[trigger] class_views(classes@)[i]).fits(),
{
    let mut i: usize = 0;
    while i < classes.len()
        invariant
            i <= classes.len(),
            forall|k: int| 0 <= k < i ==> (#[trigger] class_views(classes@)[k]).fits(),
        decreases classes.len() - i,
    {
        if !classes[i].fits() {
            assert(!class_views(classes@)[i as int].fits());
            return false;
        }
        i = i + 1;
    }
    true
}

impl Package {
    /// Whether the counts of the package and of all below it fit.
    pub fn fits(&self) -> (fits: bool)
        ensures
            fits == self@.fits(),
    {
        self.get_stats().is_some() && classes_fit(&self.classes)
    }
}

/// Whether the counts of each of the packages, and of all below them, fit.
pub fn packages_fit(packages: &Vec<Package>) -> (fit: bool)
    ensures
        fit == forall|i: int|
            0 <= i < packages@.len() ==> (#[trigger] package_views(packages@)[i]).fits(),
{
    let mut i: usize = 0;
    while i < packages.len()
        invariant
            i <= packages.len(),
            forall|k: int| 0 <= k < i ==> (#[trigger] package_views(packages@)[k]).fits(),
        decreases packages.len() - i,
    {
        if !packages[i].fits() {
            assert(!package_views(packages@)[i as int].fits());
            return false;
        }
        i = i + 1;
    }
    true
}

impl Coverage {
    /// Whether the counts of the report and of all below it fit.
    pub fn fits(&self) -> (fits: bool)
        ensures
            fits == self@.fits(),
    {
        self.get_stats().is_some() && packages_fit(&self.packages)
    }
}

} // verus!
