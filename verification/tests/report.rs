use cobertura::coverage::get_coverage;
use cobertura::emit::document;
use cobertura::error::ExportError;
use cobertura::input::{CovResult, Function, SourceFile};
use cobertura::rates::{pending_rates, with_rate_texts};
use cobertura::stats::Rate;
use cobertura::tree::{Coverage, Line};
use cobertura::xml::{render, XmlEvent};
use std::collections::BTreeMap;

fn source_file(
    rel_path: &str,
    stem: &str,
    lines: &[(u32, u64)],
    branches: &[(u32, Vec<bool>)],
    functions: &[(&str, u32, bool)],
) -> SourceFile {
    SourceFile {
        rel_path: rel_path.to_string(),
        stem: stem.to_string(),
        result: CovResult {
            lines: lines.iter().cloned().collect(),
            branches: branches.iter().cloned().collect::<BTreeMap<u32, Vec<bool>>>(),
            functions: functions
                .iter()
                .map(|(name, start, executed)| {
                    (name.to_string(), Function { start: *start, executed: *executed })
                })
                .collect(),
        },
    }
}

fn rate_text(rate: &Rate) -> String {
    (rate.numerator as f64 / rate.denominator as f64).to_string()
}

fn to_xml(coverage: &Coverage, timestamp: u64) -> String {
    let events = document(coverage, timestamp).unwrap();
    let table: Vec<(Rate, String)> =
        pending_rates(&events).iter().map(|rate| (*rate, rate_text(rate))).collect();
    let events = with_rate_texts(&events, &table);
    String::from_utf8(render(&events).unwrap()).unwrap()
}

fn report(files: Vec<SourceFile>, demangle: bool) -> String {
    to_xml(&get_coverage(&files, demangle), 1)
}

fn count(text: &str, part: &str) -> usize {
    text.matches(part).count()
}

fn main_rs() -> SourceFile {
    source_file(
        "src/main.rs",
        "main",
        &[(1, 1), (2, 1), (3, 2), (4, 1), (5, 0), (6, 0), (8, 1), (9, 1)],
        &[(3, vec![true, false]), (5, vec![false, false])],
        &[("_ZN8cov_test4main17h7eb435a3fb3e6f20E", 1, true)],
    )
}

const DOUBLE_LINES: [(u32, u64); 8] =
    [(1, 2), (3, 0), (6, 2), (7, 1), (8, 2), (9, 1), (11, 1), (12, 2)];

fn double_lines_rs() -> SourceFile {
    source_file(
        "src/main.rs",
        "main",
        &DOUBLE_LINES,
        &[(8, vec![true, false])],
        &[
            ("_ZN8cov_test7test_fn17hbf19ec7bfabe8524E", 6, true),
            ("_ZN8cov_test4main17h7eb435a3fb3e6f20E", 1, false),
            ("_ZN8cov_test4main17h29b45b3d7d8851d2E", 1, true),
            ("_ZN8cov_test7test_fn28_$u7b$$u7b$closure$u7d$$u7d$17hab7a162ac9b573fcE", 6, true),
            ("_ZN8cov_test4main17h679717cd8503f8adE", 1, false),
        ],
    )
}

#[test]
fn test_cobertura() {
    let results = report(vec![main_rs()], true);

    assert!(results.contains(r#"package name="src/main.rs""#));
    assert!(results.contains(r#"class name="main" filename="src/main.rs""#));
    assert!(results.contains(r#"method name="cov_test::main""#));
    assert!(results.contains(r#"line number="1" hits="1">"#));
    assert!(results.contains(r#"line number="3" hits="2" branch="true""#));
    assert!(results.contains(r#"<condition number="0" type="jump" coverage="1"/>"#));

    assert!(results.contains(r#"lines-covered="6""#));
    assert!(results.contains(r#"lines-valid="8""#));
    assert!(results.contains(r#"line-rate="0.75""#));

    assert!(results.contains(r#"branches-covered="1""#));
    assert!(results.contains(r#"branches-valid="4""#));
    assert!(results.contains(r#"branch-rate="0.25""#));
}

#[test]
fn test_cobertura_double_lines() {
    let results = report(vec![double_lines_rs()], true);

    assert!(results.contains(r#"package name="src/main.rs""#));
    assert!(results.contains(r#"class name="main" filename="src/main.rs""#));
    assert!(results.contains(r#"method name="cov_test::main""#));
    assert!(results.contains(r#"method name="cov_test::test_fn""#));

    assert!(results.contains(r#"lines-covered="7""#));
    assert!(results.contains(r#"lines-valid="8""#));
    assert!(results.contains(r#"line-rate="0.875""#));

    assert!(results.contains(r#"branches-covered="1""#));
    assert!(results.contains(r#"branches-valid="2""#));
    assert!(results.contains(r#"branch-rate="0.5""#));
}

#[test]
fn functions_with_one_start_are_all_shown_and_their_lines_counted_once() {
    let results = report(vec![double_lines_rs()], true);

    // Five functions give five methods; those that start on the same line
    // show the same lines.
    assert_eq!(count(&results, "<method "), 5);
    assert_eq!(count(&results, r#"method name="cov_test::main""#), 3);
    assert_eq!(count(&results, r#"<line number="1" hits="2">"#), 3);
    assert_eq!(count(&results, r#"<line number="6" hits="2">"#), 2);
    assert_eq!(
        count(&results, r#"<method name="cov_test::main" signature="" line-rate="0.5" branch-rate="0""#),
        3
    );
    assert_eq!(
        count(&results, r#"<method name="cov_test::test_fn" signature="" line-rate="1" branch-rate="0.5""#),
        1
    );

    // The class, the package and the report count each line of the file once.
    let totals = r#"line-rate="0.875" branch-rate="0.5" complexity="0""#;
    assert!(results.contains(&format!(r#"<package name="src/main.rs" {}>"#, totals)));
    assert!(results.contains(&format!(r#"<class name="main" filename="src/main.rs" {}>"#, totals)));
    assert!(results.contains(
        r#"<coverage lines-covered="7" lines-valid="8" line-rate="0.875" branches-covered="1" branches-valid="2" branch-rate="0.5""#
    ));
}

#[test]
fn one_function_for_each_start_counts_each_line_once() {
    let file = source_file(
        "src/main.rs",
        "main",
        &DOUBLE_LINES,
        &[(8, vec![true, false])],
        &[
            ("_ZN8cov_test7test_fn17hbf19ec7bfabe8524E", 6, true),
            ("_ZN8cov_test4main17h7eb435a3fb3e6f20E", 1, false),
        ],
    );
    let results = report(vec![file], true);

    assert!(results.contains(r#"method name="cov_test::main""#));
    assert!(results.contains(r#"method name="cov_test::test_fn""#));
    assert_eq!(count(&results, "<method "), 2);

    assert!(results.contains(r#"lines-covered="7""#));
    assert!(results.contains(r#"lines-valid="8""#));
    assert!(results.contains(r#"line-rate="0.875""#));

    assert!(results.contains(r#"branches-covered="1""#));
    assert!(results.contains(r#"branches-valid="2""#));
    assert!(results.contains(r#"branch-rate="0.5""#));
}

#[test]
fn empty_input_gives_an_empty_report() {
    let results = report(vec![], true);
    let expected = "<?xml version=\"1.0\"?>\n\
        <!DOCTYPE coverage SYSTEM 'http://cobertura.sourceforge.net/xml/coverage-04.dtd'>\n\
        <coverage lines-covered=\"0\" lines-valid=\"0\" line-rate=\"0\" branches-covered=\"0\" \
        branches-valid=\"0\" branch-rate=\"0\" complexity=\"0\" version=\"1.9\" timestamp=\"1\">\n    \
        <sources>\n        <source>.\n        </source>\n    </sources>\n    \
        <packages>\n    </packages>\n</coverage>";
    assert_eq!(results, expected);
}

#[test]
fn whole_document_of_a_small_file() {
    let file = source_file(
        "a/b.rs",
        "b",
        &[(1, 3), (2, 0), (5, 1)],
        &[(2, vec![false, true])],
        &[("f", 1, true)],
    );
    let results = to_xml(&get_coverage(&vec![file], false), 1600000000);
    let expected = r#"<?xml version="1.0"?>
<!DOCTYPE coverage SYSTEM 'http://cobertura.sourceforge.net/xml/coverage-04.dtd'>
<coverage lines-covered="2" lines-valid="3" line-rate="0.6666666666666666" branches-covered="1" branches-valid="2" branch-rate="0.5" complexity="0" version="1.9" timestamp="1600000000">
    <sources>
        <source>.
        </source>
    </sources>
    <packages>
        <package name="a/b.rs" line-rate="0.6666666666666666" branch-rate="0.5" complexity="0">
            <classes>
                <class name="b" filename="a/b.rs" line-rate="0.6666666666666666" branch-rate="0.5" complexity="0">
                    <methods>
                        <method name="f" signature="" line-rate="0.6666666666666666" branch-rate="0.5" complexity="0">
                            <lines>
                                <line number="1" hits="3">
                                </line>
                                <line number="2" hits="0" branch="true">
                                    <conditions>
                                        <condition number="0" type="jump" coverage="0"/>
                                        <condition number="1" type="jump" coverage="1"/>
                                    </conditions>
                                </line>
                                <line number="5" hits="1">
                                </line>
                            </lines>
                        </method>
                    </methods>
                    <lines>
                    </lines>
                </class>
            </classes>
        </package>
    </packages>
</coverage>"#;
    assert_eq!(results, expected);
}

#[test]
fn orphan_lines_stand_in_the_class_and_are_counted() {
    let file = source_file(
        "lib.rs",
        "lib",
        &[(1, 1), (2, 0), (10, 4), (11, 0)],
        &[],
        &[("f", 10, true)],
    );
    let coverage = get_coverage(&vec![file], false);
    let class = &coverage.packages[0].classes[0];
    assert_eq!(
        class.lines,
        vec![Line::Plain { number: 1, hits: 1 }, Line::Plain { number: 2, hits: 0 }]
    );
    assert_eq!(
        class.methods[0].lines,
        vec![Line::Plain { number: 10, hits: 4 }, Line::Plain { number: 11, hits: 0 }]
    );
    let results = to_xml(&coverage, 0);
    assert!(results.contains(r#"<coverage lines-covered="2" lines-valid="4" line-rate="0.5""#));
    assert!(results.contains(r#"<class name="lib" filename="lib.rs" line-rate="0.5""#));
    assert!(results.contains(r#"<method name="f" signature="" line-rate="0.5""#));
}

#[test]
fn names_are_kept_where_demangling_is_off() {
    let results = report(vec![main_rs()], false);
    assert!(results.contains(r#"method name="_ZN8cov_test4main17h7eb435a3fb3e6f20E""#));
}

#[test]
fn names_and_paths_are_escaped() {
    let file = source_file("a&b/<c>.rs", "<c>", &[(1, 1)], &[], &[("f\"g'", 1, true)]);
    let results = report(vec![file], false);
    assert!(results.contains(r#"<package name="a&amp;b/&lt;c&gt;.rs""#));
    assert!(results.contains(r#"<class name="&lt;c&gt;" filename="a&amp;b/&lt;c&gt;.rs""#));
    assert!(results.contains(r#"<method name="f&quot;g&apos;" signature="""#));
}

#[test]
fn every_package_has_its_own_rates() {
    let first = source_file("one.rs", "one", &[(1, 1), (2, 1)], &[], &[("f", 1, true)]);
    let second = source_file("two.rs", "two", &[(1, 0), (2, 1)], &[], &[("g", 1, true)]);
    let results = report(vec![first, second], false);
    assert!(results.contains(r#"<coverage lines-covered="3" lines-valid="4" line-rate="0.75""#));
    assert!(results.contains(r#"<package name="one.rs" line-rate="1" branch-rate="0""#));
    assert!(results.contains(r#"<package name="two.rs" line-rate="0.5" branch-rate="0""#));
    assert!(results.find("one.rs").unwrap() < results.find("two.rs").unwrap());
}

#[test]
fn events_that_hold_a_rate_are_not_rendered() {
    let events = document(&get_coverage(&vec![main_rs()], true), 0).unwrap();
    assert_eq!(render(&events), Err(ExportError::UnformattedRate));
}

#[test]
fn the_layout_starts_with_declaration_and_document_type() {
    let events = document(&get_coverage(&vec![], false), 0).unwrap();
    assert_eq!(events[0], XmlEvent::Decl { version: "1.0".to_string() });
    assert_eq!(
        events[1],
        XmlEvent::DocType {
            text: " coverage SYSTEM 'http://cobertura.sourceforge.net/xml/coverage-04.dtd'"
                .to_string()
        }
    );
    assert_eq!(events.last(), Some(&XmlEvent::End { name: "coverage".to_string() }));
}

#[test]
fn every_element_of_a_report_is_closed_by_its_own_end_tag() {
    let events = document(&get_coverage(&vec![main_rs(), double_lines_rs()], true), 0).unwrap();
    let mut open: Vec<&String> = Vec::new();
    let mut deepest = 0;
    for event in &events {
        match event {
            XmlEvent::Start { name, .. } => {
                open.push(name);
                deepest = deepest.max(open.len());
            }
            XmlEvent::End { name } => assert_eq!(open.pop(), Some(name)),
            _ => {}
        }
    }
    assert!(open.is_empty());
    assert_eq!(deepest, 10);
}
