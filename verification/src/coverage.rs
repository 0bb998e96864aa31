//! Building the report tree from the coverage of the source files.

use crate::aggregate::{
    has_number, joined, lemma_joined_counts, lemma_joined_members, lemma_once_each,
};
use crate::ascending::{ascending, lemma_ascending, lists, strictly_increasing};
use crate::attribution::{attribute, claimed, claimed_by_any, lemma_claims_disjoint, orphaned};
use crate::classify::{classify, line_from_number};
use crate::stats::{
    countable, covered_conditions, covered_lines, distinct_numbers, lemma_counts_rearranged,
    stats_of, total_conditions,
};
use crate::demangle::{display_name, method_name, readable};
use crate::input::{
    branch_views, function_views, source_file_views, starts_of, CovResultView, SourceFile,
    SourceFileView,
};
use crate::tree::{
    Class, ClassView, Coverage, CoverageView, Line, LineView, Method, MethodView, Package,
    PackageView,
};
use std::collections::BTreeMap;
use vstd::prelude::*;

verus! {

/// The lines shown for the given line numbers of a file.
pub open spec fn lines_for(numbers: Seq<u32>, result: CovResultView) -> Seq<LineView> {
    Seq::new(numbers.len(), |i: int| classify(numbers[i], result.lines, result.branches))
}

/// The lines of a file, each shown once, in ascending order.
pub open spec fn file_lines(result: CovResultView) -> Seq<LineView> {
    lines_for(ascending(result.lines.dom()), result)
}

/// The method shown for the function at position `i` of a file: its name,
/// an empty signature, and the lines it owns in ascending order.
pub open spec fn method_of(result: CovResultView, i: int, demangle: bool) -> MethodView {
    let symbol = result.functions[i].0;
    MethodView {
        name: display_name(symbol, demangle, readable(symbol)),
        signature: Seq::empty(),
        lines: lines_for(
            ascending(claimed(result.lines.dom(), result.starts(), result.functions[i].1.start)),
            result,
        ),
    }
}

/// One method for each function of the file, in the order of the functions.
pub open spec fn methods_of(result: CovResultView, demangle: bool) -> Seq<MethodView> {
    Seq::new(result.functions.len(), |i: int| method_of(result, i, demangle))
}

/// The class shown for a file: named by the file's stem, with the file's
/// methods and, in ascending order, the lines that no function owns.
pub open spec fn class_of(file: SourceFileView, demangle: bool) -> ClassView {
    ClassView {
        name: file.stem,
        file_name: file.rel_path,
        lines: lines_for(
            ascending(orphaned(file.result.lines.dom(), file.result.starts())),
            file.result,
        ),
        methods: methods_of(file.result, demangle),
    }
}

/// The package shown for a file: named by the file's path, with the file's
/// class as its only class.
pub open spec fn package_of(file: SourceFileView, demangle: bool) -> PackageView {
    PackageView { name: file.rel_path, classes: seq![class_of(file, demangle)] }
}

/// The report for the files: the one source root `.`, and one package for
/// each file, in the order of the files.
pub open spec fn coverage_of(files: Seq<SourceFileView>, demangle: bool) -> CoverageView {
    CoverageView {
        sources: seq!["."@],
        packages: Seq::new(files.len(), |i: int| package_of(files[i], demangle)),
    }
}

/// Builds the lines for the given line numbers.
pub fn lines_from_numbers(
    numbers: &Vec<u32>,
    lines: &BTreeMap<u32, u64>,
    branches: &BTreeMap<u32, Vec<bool>>,
) -> (built: Vec<Line>)
    ensures
        built@.len() == numbers@.len(),
        forall|i: int|
            0 <= i < numbers@.len() ==> (#[trigger] built@[i])@ == classify(
                numbers@[i],
                lines@,
                branch_views(branches@),
            ),
{
    let mut built: Vec<Line> = Vec::new();
    let mut i: usize = 0;
    while i < numbers.len()
        invariant
            i <= numbers.len(),
            built@.len() == i,
            forall|k: int|
                0 <= k < i ==> (#[trigger] built@[k])@ == classify(
                    numbers@[k],
                    lines@,
                    branch_views(branches@),
                ),
        decreases numbers.len() - i,
    {
        built.push(line_from_number(numbers[i], lines, branches));
        i = i + 1;
    }
    built
}

/// Builds the class of a file.
pub fn get_class(file: &SourceFile, demangle: bool) -> (class: Class)
    ensures
        class@ == class_of(file@, demangle),
{
    let result = &file.result;
    let shared = attribute(&result.lines, &result.functions);
    let ghost view = result@;
    assert(view.starts() == starts_of(function_views(result.functions@)));
    assert(shared.shares(view.lines.dom(), view.starts()));

    let mut methods: Vec<Method> = Vec::new();
    let mut i: usize = 0;
    while i < result.functions.len()
        invariant
            i <= result.functions.len(),
            view == result@,
            shared.shares(view.lines.dom(), view.starts()),
            view.starts().len() == result.functions@.len(),
            methods@.len() == i,
            forall|k: int| 0 <= k < i ==> (#[trigger] methods@[k])@ == method_of(view, k, demangle),
        decreases result.functions.len() - i,
    {
        let lines = lines_from_numbers(&shared.methods[i], &result.lines, &result.branches);
        let name = method_name(&result.functions[i].0, demangle);
        let method = Method { name, signature: String::new(), lines };
        proof {
            assert(view.functions[i as int] == (
                result.functions@[i as int].0@,
                result.functions@[i as int].1,
            ));
            assert(view.starts()[i as int] == result.functions@[i as int].1.start);
            assert(shared.methods@[i as int]@ == ascending(
                claimed(view.lines.dom(), view.starts(), view.starts()[i as int]),
            ));
            assert(method@.lines =~= method_of(view, i as int, demangle).lines);
            assert(method@.signature =~= Seq::<char>::empty());
        }
        methods.push(method);
        i = i + 1;
    }

    let lines = lines_from_numbers(&shared.orphans, &result.lines, &result.branches);
    let class = Class {
        name: file.stem.clone(),
        file_name: file.rel_path.clone(),
        lines,
        methods,
    };
    proof {
        assert(class@.lines =~= class_of(file@, demangle).lines);
        assert(class@.methods =~= class_of(file@, demangle).methods);
    }
    class
}

/// Builds the package of a file.
pub fn get_package(file: &SourceFile, demangle: bool) -> (package: Package)
    ensures
        package@ == package_of(file@, demangle),
{
    let class = get_class(file, demangle);
    let mut classes: Vec<Class> = Vec::new();
    classes.push(class);
    let package = Package { name: file.rel_path.clone(), classes };
    proof {
        assert(package@.classes =~= seq![class_of(file@, demangle)]);
    }
    package
}

/// Builds the report for the files given. Function names are made readable
/// where `demangle` is set.
pub fn get_coverage(files: &Vec<SourceFile>, demangle: bool) -> (coverage: Coverage)
    ensures
        coverage@ == coverage_of(source_file_views(files@), demangle),
{
    let mut sources: Vec<String> = Vec::new();
    sources.push(".".to_owned());
    let mut packages: Vec<Package> = Vec::new();
    let mut i: usize = 0;
    while i < files.len()
        invariant
            i <= files.len(),
            packages@.len() == i,
            forall|k: int|
                0 <= k < i ==> (#[trigger] packages@[k])@ == package_of(files@[k]@, demangle),
        decreases files.len() - i,
    {
        packages.push(get_package(&files[i], demangle));
        i = i + 1;
    }
    let coverage = Coverage { sources, packages };
    proof {
        assert(coverage@.sources =~= seq!["."@]);
        assert(coverage@.packages =~= coverage_of(source_file_views(files@), demangle).packages);
    }
    coverage
}

/// The numbers of the lines, in their order.
pub open spec fn numbers_of(lines: Seq<LineView>) -> Seq<u32> {
    Seq::new(lines.len(), |i: int| lines[i].number())
}

/// The lines of a class and of its methods are the lines that the
/// attribution gives them, each shown as its number, hits and branch
/// outcomes say.
pub proof fn lemma_class_lines(file: SourceFileView, demangle: bool)
    ensures
        ({
            let class = class_of(file, demangle);
            let lines = file.result.lines.dom();
            let starts = file.result.starts();
            &&& class.methods.len() == file.result.functions.len()
            &&& starts.len() == file.result.functions.len()
            &&& numbers_of(class.lines) == ascending(orphaned(lines, starts))
            &&& forall|i: int|
                0 <= i < class.methods.len() ==> numbers_of((#[trigger] class.methods[i]).lines)
                    == ascending(claimed(lines, starts, starts[i]))
            &&& forall|k: int|
                0 <= k < class.lines.len() ==> #[trigger] class.lines[k] == classify(
                    class.lines[k].number(),
                    file.result.lines,
                    file.result.branches,
                )
            &&& forall|i: int, k: int|
                0 <= i < class.methods.len() && 0 <= k < class.methods[i].lines.len()
                    ==> #[trigger] class.methods[i].lines[k] == classify(
                    class.methods[i].lines[k].number(),
                    file.result.lines,
                    file.result.branches,
                )
        }),
{
    let class = class_of(file, demangle);
    let lines = file.result.lines.dom();
    let starts = file.result.starts();
    assert(numbers_of(class.lines) =~= ascending(orphaned(lines, starts)));
    assert forall|i: int| 0 <= i < class.methods.len() implies numbers_of(
        (#[trigger] class.methods[i]).lines,
    ) == ascending(claimed(lines, starts, starts[i])) by {
        assert(class.methods[i] == method_of(file.result, i, demangle));
        assert(numbers_of(class.methods[i].lines) =~= ascending(
            claimed(lines, starts, file.result.functions[i].1.start),
        ));
    }
}

/// Every line of a file has its place in the file's class. Where no
/// function owns it, it stands among the lines of the class itself, once,
/// and in no method. Where functions own it, it stands once in the method
/// of each of them and not among the lines of the class; those functions
/// all start on the same line, and their methods hold the same lines.
/// The class and its methods hold no line that the file does not have.
pub proof fn lemma_every_line_has_its_place(file: SourceFileView, demangle: bool)
    ensures
        ({
            let class = class_of(file, demangle);
            let lines = file.result.lines.dom();
            let functions = file.result.functions;
            &&& class.methods.len() == functions.len()
            &&& strictly_increasing(numbers_of(class.lines))
            &&& forall|i: int|
                0 <= i < functions.len() ==> strictly_increasing(
                    numbers_of((#[trigger] class.methods[i]).lines),
                )
            &&& forall|n: u32|
                lines.contains(n) ==> (#[trigger] numbers_of(class.lines).contains(n)
                    <==> forall|i: int|
                    0 <= i < functions.len() ==> !numbers_of(
                        (#[trigger] class.methods[i]).lines,
                    ).contains(n))
            &&& forall|n: u32| #[trigger]
                numbers_of(class.lines).contains(n) ==> lines.contains(n)
            &&& forall|i: int, n: u32|
                0 <= i < functions.len() && #[trigger] numbers_of(class.methods[i].lines).contains(
                    n,
                ) ==> lines.contains(n) && functions[i].1.start <= n
            &&& forall|i: int, j: int, n: u32|
                #![trigger numbers_of(class.methods[i].lines).contains(n), numbers_of(class.methods[j].lines).contains(n)]
                0 <= i < functions.len() && 0 <= j < functions.len() && numbers_of(
                    class.methods[i].lines,
                ).contains(n) && numbers_of(class.methods[j].lines).contains(n)
                    ==> functions[i].1.start == functions[j].1.start
            &&& forall|i: int, j: int|
                0 <= i < functions.len() && 0 <= j < functions.len() && functions[i].1.start
                    == functions[j].1.start ==> (#[trigger] class.methods[i]).lines == (
                #[trigger] class.methods[j]).lines
        }),
{
    let class = class_of(file, demangle);
    let lines = file.result.lines.dom();
    let functions = file.result.functions;
    let starts = file.result.starts();
    lemma_class_lines(file, demangle);
    lemma_ascending(orphaned(lines, starts));
    assert forall|i: int| 0 <= i < functions.len() implies strictly_increasing(
        numbers_of((#[trigger] class.methods[i]).lines),
    ) && lists(numbers_of(class.methods[i].lines), claimed(lines, starts, starts[i])) by {
        lemma_ascending(claimed(lines, starts, starts[i]));
    }
    assert forall|n: u32| lines.contains(n) implies (#[trigger] numbers_of(class.lines).contains(n)
        <==> forall|i: int|
        0 <= i < functions.len() ==> !numbers_of((#[trigger] class.methods[i]).lines).contains(
            n,
        )) by {
        if numbers_of(class.lines).contains(n) {
            assert(orphaned(lines, starts).contains(n));
            assert forall|i: int| 0 <= i < functions.len() implies !numbers_of(
                (#[trigger] class.methods[i]).lines,
            ).contains(n) by {
                assert(lists(numbers_of(class.methods[i].lines), claimed(lines, starts, starts[i])));
                assert(!claimed(lines, starts, starts[i]).contains(n));
            }
        } else {
            assert(!orphaned(lines, starts).contains(n));
            assert(claimed_by_any(lines, starts, n));
            let i = choose|i: int|
                0 <= i < starts.len() && #[trigger] claimed(lines, starts, starts[i]).contains(n);
            assert(lists(numbers_of(class.methods[i].lines), claimed(lines, starts, starts[i])));
            assert(numbers_of(class.methods[i].lines).contains(n));
        }
    }
    assert forall|i: int, n: u32|
        0 <= i < functions.len() && #[trigger] numbers_of(class.methods[i].lines).contains(
            n,
        ) implies lines.contains(n) && functions[i].1.start <= n by {
        assert(lists(numbers_of(class.methods[i].lines), claimed(lines, starts, starts[i])));
        assert(claimed(lines, starts, starts[i]).contains(n));
    }
    assert forall|i: int, j: int, n: u32|
        #![trigger numbers_of(class.methods[i].lines).contains(n), numbers_of(class.methods[j].lines).contains(n)]
        0 <= i < functions.len() && 0 <= j < functions.len() && numbers_of(
            class.methods[i].lines,
        ).contains(n) && numbers_of(class.methods[j].lines).contains(n) implies functions[i].1.start
        == functions[j].1.start by {
        assert(lists(numbers_of(class.methods[i].lines), claimed(lines, starts, starts[i])));
        assert(lists(numbers_of(class.methods[j].lines), claimed(lines, starts, starts[j])));
        if starts[i] != starts[j] {
            lemma_claims_disjoint(lines, starts, i, j, n);
        }
    }
    assert forall|i: int, j: int|
        0 <= i < functions.len() && 0 <= j < functions.len() && functions[i].1.start
            == functions[j].1.start implies (#[trigger] class.methods[i]).lines == (
    #[trigger] class.methods[j]).lines by {
        assert(class.methods[i] == method_of(file.result, i, demangle));
        assert(class.methods[j] == method_of(file.result, j, demangle));
    }
}

/// The counts of a file's class are taken over the lines of the file, each
/// of them once: the lines that are counted have the line numbers of the
/// file and no others, no number twice, however many functions start on one
/// line; each is the line that its number, hits and branch outcomes give;
/// and there are as many of them as the file has lines.
pub proof fn lemma_class_counts_each_line_once(file: SourceFileView, demangle: bool)
    ensures
        ({
            let leaves = class_of(file, demangle).leaves();
            let lines = file.result.lines.dom();
            &&& forall|i: int, j: int|
                0 <= i < j < leaves.len() ==> (#[trigger] leaves[i]).number() != (
                #[trigger] leaves[j]).number()
            &&& forall|n: u32| has_number(leaves, n) <==> lines.contains(n)
            &&& forall|i: int|
                0 <= i < leaves.len() ==> #[trigger] leaves[i] == classify(
                    leaves[i].number(),
                    file.result.lines,
                    file.result.branches,
                )
            &&& lines.finite() ==> leaves.len() == lines.len()
        }),
{
    let class = class_of(file, demangle);
    let leaves = class.leaves();
    let all = class.all_lines();
    let lines = file.result.lines.dom();
    let runs = class.methods.map_values(|m: MethodView| m.leaves());
    let of_methods = joined(runs);
    lemma_once_each(all);
    lemma_every_line_has_its_place(file, demangle);
    lemma_class_lines(file, demangle);
    lemma_joined_members(runs);

    // Where a line of the class stands: in one of the methods, or among the
    // lines of the class itself.
    assert forall|k: int| 0 <= k < all.len() implies lines.contains((#[trigger] all[k]).number())
        && all[k] == classify(all[k].number(), file.result.lines, file.result.branches) by {
        let x = all[k];
        if k < of_methods.len() {
            assert(of_methods[k] == x);
            assert(of_methods.contains(x));
            let i = choose|i: int| 0 <= i < runs.len() && (#[trigger] runs[i]).contains(x);
            let m = choose|m: int| 0 <= m < runs[i].len() && runs[i][m] == x;
            assert(class.methods[i].lines[m] == x);
            assert(numbers_of(class.methods[i].lines)[m] == x.number());
            assert(numbers_of(class.methods[i].lines).contains(x.number()));
        } else {
            let m = k - of_methods.len();
            assert(class.lines[m] == x);
            assert(numbers_of(class.lines)[m] == x.number());
            assert(numbers_of(class.lines).contains(x.number()));
        }
    }
    assert forall|n: u32| has_number(all, n) <==> lines.contains(n) by {
        if lines.contains(n) {
            if numbers_of(class.lines).contains(n) {
                let m = choose|m: int|
                    0 <= m < class.lines.len() && numbers_of(class.lines)[m] == n;
                assert(all[of_methods.len() + m].number() == n);
            } else {
                let i = choose|i: int|
                    0 <= i < class.methods.len() && numbers_of(
                        (#[trigger] class.methods[i]).lines,
                    ).contains(n);
                let own = class.methods[i].lines;
                let m = choose|m: int| 0 <= m < own.len() && numbers_of(own)[m] == n;
                let x = own[m];
                assert(runs[i][m] == x);
                assert(runs[i].contains(x));
                assert(of_methods.contains(x));
                let k = choose|k: int| 0 <= k < of_methods.len() && of_methods[k] == x;
                assert(all[k].number() == n);
            }
        }
    }
    assert forall|i: int| 0 <= i < leaves.len() implies #[trigger] leaves[i] == classify(
        leaves[i].number(),
        file.result.lines,
        file.result.branches,
    ) by {
        assert(all.contains(leaves[i]));
        let k = choose|k: int| 0 <= k < all.len() && all[k] == leaves[i];
        assert(all[k] == classify(all[k].number(), file.result.lines, file.result.branches));
    }
    if lines.finite() {
        let numbers = numbers_of(leaves);
        assert(numbers.no_duplicates());
        assert forall|n: u32| numbers.to_set().contains(n) <==> lines.contains(n) by {
            if numbers.contains(n) {
                let i = choose|i: int| 0 <= i < numbers.len() && numbers[i] == n;
                assert(leaves[i].number() == n);
            }
            if has_number(leaves, n) {
                let i = choose|i: int| 0 <= i < leaves.len() && (#[trigger] leaves[i]).number() == n;
                assert(numbers[i] == n);
            }
        }
        assert(numbers.to_set() =~= lines);
        numbers.unique_seq_to_set();
    }
}

/// The counts of a file's class are the counts of the lines of the file:
/// as many lines as the file has, as many covered as were hit, and the
/// conditions of the file's branch lines, whatever functions the file has
/// and however many of them start on one line.
pub proof fn lemma_class_counts_file_lines(file: SourceFileView, demangle: bool)
    ensures
        ({
            let leaves = class_of(file, demangle).leaves();
            let of_file = file_lines(file.result);
            &&& leaves.len() == of_file.len()
            &&& covered_lines(leaves) == covered_lines(of_file)
            &&& total_conditions(leaves) == total_conditions(of_file)
            &&& covered_conditions(leaves) == covered_conditions(of_file)
            &&& countable(leaves) <==> countable(of_file)
            &&& stats_of(leaves) == stats_of(of_file)
        }),
{
    let leaves = class_of(file, demangle).leaves();
    let result = file.result;
    let lines = result.lines.dom();
    let listed = ascending(lines);
    let of_file = file_lines(result);
    lemma_class_counts_each_line_once(file, demangle);
    lemma_ascending(lines);
    assert(distinct_numbers(leaves));
    assert(distinct_numbers(of_file));
    assert forall|i: int| 0 <= i < leaves.len() implies of_file.contains(#[trigger] leaves[i]) by {
        let n = leaves[i].number();
        assert(has_number(leaves, n));
        assert(listed.contains(n));
        let k = choose|k: int| 0 <= k < listed.len() && listed[k] == n;
        assert(of_file[k] == leaves[i]);
    }
    assert forall|k: int| 0 <= k < of_file.len() implies leaves.contains(#[trigger] of_file[k]) by {
        let n = listed[k];
        assert(listed.contains(n));
        assert(has_number(leaves, n));
        let i = choose|i: int| 0 <= i < leaves.len() && (#[trigger] leaves[i]).number() == n;
        assert(leaves[i] == of_file[k]);
    }
    lemma_counts_rearranged(leaves, of_file);
}

/// The lines of the files, each line of each file once, file by file.
pub open spec fn report_lines(files: Seq<SourceFileView>) -> Seq<LineView> {
    joined(Seq::new(files.len(), |i: int| file_lines(files[i].result)))
}

/// The counts of a report are the counts of the lines of its files: each
/// file is counted by itself, and each of its lines once.
pub proof fn lemma_report_counts_file_lines(files: Seq<SourceFileView>, demangle: bool)
    ensures
        ({
            let leaves = coverage_of(files, demangle).leaves();
            let of_files = report_lines(files);
            &&& leaves.len() == of_files.len()
            &&& covered_lines(leaves) == covered_lines(of_files)
            &&& total_conditions(leaves) == total_conditions(of_files)
            &&& covered_conditions(leaves) == covered_conditions(of_files)
            &&& countable(leaves) <==> countable(of_files)
            &&& stats_of(leaves) == stats_of(of_files)
        }),
{
    let coverage = coverage_of(files, demangle);
    let counted = coverage.packages.map_values(|p: PackageView| p.leaves());
    let of_files = Seq::new(files.len(), |i: int| file_lines(files[i].result));
    assert forall|i: int| 0 <= i < counted.len() implies {
        &&& (#[trigger] counted[i]).len() == of_files[i].len()
        &&& covered_lines(counted[i]) == covered_lines(of_files[i])
        &&& total_conditions(counted[i]) == total_conditions(of_files[i])
        &&& covered_conditions(counted[i]) == covered_conditions(of_files[i])
    } by {
        let package = package_of(files[i], demangle);
        let class = class_of(files[i], demangle);
        let runs = package.classes.map_values(|c: ClassView| c.leaves());
        assert(coverage.packages[i] == package);
        assert(runs =~= seq![class.leaves()]);
        assert(runs.drop_last() =~= Seq::<Seq<LineView>>::empty());
        assert(joined(runs.drop_last()) =~= Seq::<LineView>::empty());
        assert(joined(runs) =~= class.leaves());
        assert(counted[i] == class.leaves());
        lemma_class_counts_file_lines(files[i], demangle);
    }
    lemma_joined_counts(counted, of_files);
}

} // verus!
