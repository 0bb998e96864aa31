use cobertura::aggregate::{
    classes_fit, classes_lines, classes_stats, methods_fit, methods_lines, methods_stats, once,
    packages_fit, packages_lines, packages_stats,
};
use cobertura::stats::{CoverageStats, Rate};
use cobertura::tree::{Class, Condition, ConditionType, Coverage, Line, Method, Package};

fn condition(number: usize, covered: bool) -> Condition {
    Condition { number, cond_type: ConditionType::Jump, covered }
}

fn plain(number: u32, hits: u64) -> Line {
    Line::Plain { number, hits }
}

fn branch(number: u32, hits: u64, outcomes: &[bool]) -> Line {
    Line::Branch {
        number,
        hits,
        conditions: outcomes.iter().enumerate().map(|(i, taken)| condition(i, *taken)).collect(),
    }
}

fn method(name: &str, lines: Vec<Line>) -> Method {
    Method { name: name.to_string(), signature: String::new(), lines }
}

fn stats(covered: u64, valid: u64, taken: u64, conditions: u64) -> CoverageStats {
    CoverageStats {
        lines_covered: covered,
        lines_valid: valid,
        branches_covered: taken,
        branches_valid: conditions,
        complexity: 0,
    }
}

fn first_class() -> Class {
    Class {
        name: "a".to_string(),
        file_name: "a.rs".to_string(),
        lines: vec![plain(1, 0), branch(2, 1, &[true])],
        methods: vec![
            method("f", vec![plain(3, 2), branch(4, 0, &[false, true, true])]),
            method("g", vec![plain(9, 1)]),
            method("h", vec![]),
        ],
    }
}

fn second_class() -> Class {
    Class {
        name: "b".to_string(),
        file_name: "b.rs".to_string(),
        lines: vec![],
        methods: vec![method("k", vec![plain(1, 0), plain(2, 0)])],
    }
}

fn report() -> Coverage {
    Coverage {
        sources: vec![".".to_string()],
        packages: vec![
            Package { name: "a.rs".to_string(), classes: vec![first_class()] },
            Package { name: "b.rs".to_string(), classes: vec![second_class()] },
        ],
    }
}

#[test]
fn lines_and_conditions_are_counted() {
    let lines = vec![
        plain(1, 1),
        plain(2, 0),
        branch(3, 2, &[true, false]),
        branch(5, 0, &[false, false]),
        plain(8, 4),
    ];
    assert_eq!(CoverageStats::from_lines(&lines), Some(stats(3, 5, 1, 4)));
}

#[test]
fn no_lines_give_zero_counts_and_zero_rates() {
    let none = CoverageStats::from_lines(&vec![]).unwrap();
    assert_eq!(none, stats(0, 0, 0, 0));
    assert_eq!(none, CoverageStats::empty());
    assert_eq!(none.line_rate(), Rate { numerator: 0, denominator: 1 });
    assert_eq!(none.branch_rate(), Rate { numerator: 0, denominator: 1 });
}

#[test]
fn rates_are_covered_among_valid() {
    let counts = stats(6, 8, 1, 4);
    assert_eq!(counts.line_rate(), Rate { numerator: 6, denominator: 8 });
    assert_eq!(counts.branch_rate(), Rate { numerator: 1, denominator: 4 });
    let plain_only = stats(2, 2, 0, 0);
    assert_eq!(plain_only.line_rate(), Rate { numerator: 2, denominator: 2 });
    assert_eq!(plain_only.branch_rate(), Rate { numerator: 0, denominator: 1 });
}

#[test]
fn complexity_is_always_zero() {
    assert_eq!(CoverageStats::from_lines(&vec![plain(1, 1)]).unwrap().complexity, 0);
    assert_eq!(report().get_stats().unwrap().complexity, 0);
}

#[test]
fn counts_add_up_or_do_not_fit() {
    assert_eq!(stats(1, 2, 3, 4).combine(stats(10, 20, 30, 40)), Some(stats(11, 22, 33, 44)));
    assert_eq!(stats(0, u64::MAX, 0, 0).combine(stats(0, 1, 0, 0)), None);
    assert_eq!(stats(0, 0, 0, u64::MAX).combine(stats(0, 0, 0, 1)), None);
    assert_eq!(
        stats(0, u64::MAX - 1, 0, 0).combine(stats(0, 1, 0, 0)),
        Some(stats(0, u64::MAX, 0, 0))
    );
}

#[test]
fn every_level_counts_the_lines_below_it() {
    let class = first_class();
    assert_eq!(class.methods[0].get_stats(), Some(stats(1, 2, 2, 3)));
    assert_eq!(class.methods[2].get_stats(), Some(stats(0, 0, 0, 0)));
    assert_eq!(methods_stats(&class.methods), Some(stats(2, 3, 2, 3)));
    assert_eq!(class.get_stats(), Some(stats(3, 5, 3, 4)));

    let report = report();
    assert_eq!(report.packages[0].get_stats(), Some(stats(3, 5, 3, 4)));
    assert_eq!(report.packages[1].get_stats(), Some(stats(0, 2, 0, 0)));
    assert_eq!(classes_stats(&report.packages[1].classes), Some(stats(0, 2, 0, 0)));
    assert_eq!(packages_stats(&report.packages), Some(stats(3, 7, 3, 4)));
    assert_eq!(report.get_stats(), Some(stats(3, 7, 3, 4)));
}

#[test]
fn the_lines_of_a_level_are_those_of_its_parts_in_order() {
    let class = first_class();
    assert_eq!(plain(7, 1).get_lines(), vec![plain(7, 1)]);
    assert_eq!(class.methods[0].get_lines(), class.methods[0].lines);
    assert_eq!(
        methods_lines(&class.methods),
        vec![plain(3, 2), branch(4, 0, &[false, true, true]), plain(9, 1)]
    );
    let of_class = vec![
        plain(3, 2),
        branch(4, 0, &[false, true, true]),
        plain(9, 1),
        plain(1, 0),
        branch(2, 1, &[true]),
    ];
    assert_eq!(class.get_lines(), of_class);

    let report = report();
    let mut all = of_class.clone();
    all.extend(vec![plain(1, 0), plain(2, 0)]);
    assert_eq!(classes_lines(&report.packages[0].classes), of_class);
    assert_eq!(report.packages[0].get_lines(), of_class);
    assert_eq!(packages_lines(&report.packages), all);
    assert_eq!(report.get_lines(), all);
}

#[test]
fn counting_the_lines_of_a_level_gives_its_counts() {
    let report = report();
    assert_eq!(CoverageStats::from_lines(&report.get_lines()), report.get_stats());
    let class = first_class();
    assert_eq!(CoverageStats::from_lines(&class.get_lines()), class.get_stats());
}

#[test]
fn counting_again_gives_the_same_counts() {
    let report = report();
    let first = report.get_stats();
    let second = report.get_stats();
    assert_eq!(first, second);
    assert_eq!(first.unwrap().line_rate(), second.unwrap().line_rate());
    assert_eq!(first.unwrap().branch_rate(), second.unwrap().branch_rate());
}

#[test]
fn a_line_is_covered_where_it_was_hit() {
    assert!(plain(1, 1).covered());
    assert!(plain(1, u64::MAX).covered());
    assert!(!plain(1, 0).covered());
    assert!(branch(2, 3, &[false]).covered());
    assert!(!branch(2, 0, &[true]).covered());
    assert_eq!(branch(2, 3, &[true]).number(), 2);
    assert_eq!(plain(9, 4).number(), 9);
    assert_eq!(plain(9, 4).hits(), 4);
}

#[test]
fn the_kind_of_a_condition_is_written_as_jump() {
    assert_eq!(ConditionType::Jump.to_string(), "jump");
}

fn doubled_class() -> Class {
    let early = vec![plain(1, 2), plain(3, 0)];
    let late = vec![
        plain(6, 2),
        plain(7, 1),
        branch(8, 2, &[true, false]),
        plain(9, 1),
        plain(11, 1),
        plain(12, 2),
    ];
    Class {
        name: "main".to_string(),
        file_name: "src/main.rs".to_string(),
        lines: vec![],
        methods: vec![
            method("test_fn", late.clone()),
            method("main", early.clone()),
            method("main", early.clone()),
            method("closure", late),
            method("main", early),
        ],
    }
}

#[test]
fn each_line_number_is_taken_once() {
    assert_eq!(once(&vec![]), vec![]);
    assert_eq!(
        once(&vec![plain(3, 1), plain(1, 0), plain(3, 1), branch(1, 0, &[true]), plain(2, 5)]),
        vec![plain(3, 1), plain(1, 0), plain(2, 5)]
    );
    assert_eq!(
        once(&vec![plain(4, 0), plain(4, 9), plain(4, 0)]),
        vec![plain(4, 0)]
    );
}

#[test]
fn a_class_counts_a_line_once_however_many_methods_hold_it() {
    let class = doubled_class();
    assert_eq!(methods_stats(&class.methods), Some(stats(15, 18, 2, 4)));
    assert_eq!(class.methods[0].get_stats(), Some(stats(6, 6, 1, 2)));
    assert_eq!(class.methods[1].get_stats(), Some(stats(1, 2, 0, 0)));
    assert_eq!(class.get_stats(), Some(stats(7, 8, 1, 2)));
    assert_eq!(
        class.get_lines(),
        vec![
            plain(6, 2),
            plain(7, 1),
            branch(8, 2, &[true, false]),
            plain(9, 1),
            plain(11, 1),
            plain(12, 2),
            plain(1, 2),
            plain(3, 0),
        ]
    );

    let report = Coverage {
        sources: vec![".".to_string()],
        packages: vec![Package { name: "src/main.rs".to_string(), classes: vec![class] }],
    };
    let counts = report.get_stats().unwrap();
    assert_eq!(counts, stats(7, 8, 1, 2));
    assert_eq!(counts.line_rate(), Rate { numerator: 7, denominator: 8 });
    assert_eq!(counts.branch_rate(), Rate { numerator: 1, denominator: 2 });
    assert_eq!(report.packages[0].get_stats(), Some(stats(7, 8, 1, 2)));
}

#[test]
fn a_line_of_a_method_and_of_the_class_is_counted_once() {
    let class = Class {
        name: "a".to_string(),
        file_name: "a.rs".to_string(),
        lines: vec![plain(5, 0), plain(6, 1)],
        methods: vec![method("f", vec![plain(5, 3)])],
    };
    assert_eq!(class.get_lines(), vec![plain(5, 3), plain(6, 1)]);
    assert_eq!(class.get_stats(), Some(stats(2, 2, 0, 0)));
}

#[test]
fn classes_are_counted_each_by_itself() {
    let report = Coverage {
        sources: vec![],
        packages: vec![
            Package { name: "a".to_string(), classes: vec![second_class()] },
            Package { name: "b".to_string(), classes: vec![second_class(), second_class()] },
        ],
    };
    assert_eq!(report.packages[1].get_stats(), Some(stats(0, 4, 0, 0)));
    assert_eq!(report.get_stats(), Some(stats(0, 6, 0, 0)));
}

#[test]
fn counts_of_ordinary_reports_fit() {
    let report = report();
    assert!(report.fits());
    assert!(packages_fit(&report.packages));
    assert!(report.packages[0].fits());
    assert!(classes_fit(&report.packages[0].classes));
    assert!(first_class().fits());
    assert!(methods_fit(&first_class().methods));
    assert!(first_class().methods[0].fits());
    assert!(doubled_class().fits());
    assert!(methods_fit(&vec![]));
}
