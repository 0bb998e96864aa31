use cobertura::ascending::line_numbers;
use cobertura::attribution::{
    attribute, file_end, find_function_end, function_starts, lines_in_function, unclaimed_lines,
    Attribution,
};
use cobertura::input::Function;
use std::collections::BTreeMap;

fn hits(numbers: &[u32]) -> BTreeMap<u32, u64> {
    numbers.iter().map(|n| (*n, 1)).collect()
}

fn functions(starts: &[u32]) -> Vec<(String, Function)> {
    starts
        .iter()
        .enumerate()
        .map(|(i, start)| (format!("f{}", i), Function { start: *start, executed: true }))
        .collect()
}

#[test]
fn line_numbers_come_in_ascending_order() {
    let mut lines = BTreeMap::new();
    lines.insert(9, 1);
    lines.insert(2, 0);
    lines.insert(5, 7);
    assert_eq!(line_numbers(&lines), vec![2, 5, 9]);
    assert_eq!(line_numbers(&BTreeMap::new()), Vec::<u32>::new());
}

#[test]
fn the_file_ends_behind_its_last_line() {
    assert_eq!(file_end(&vec![1, 4, 9]), 10);
    assert_eq!(file_end(&vec![]), 0);
    assert_eq!(file_end(&vec![u32::MAX]), 4294967296);
}

#[test]
fn starts_are_collected_in_the_order_of_the_functions() {
    assert_eq!(function_starts(&functions(&[6, 1, 1, 6, 1])), vec![6, 1, 1, 6, 1]);
}

#[test]
fn a_function_ends_at_the_next_start_or_at_the_end() {
    let starts = vec![6, 1, 20, 1, 6];
    assert_eq!(find_function_end(&starts, 1, 30), 6);
    assert_eq!(find_function_end(&starts, 6, 30), 20);
    assert_eq!(find_function_end(&starts, 20, 30), 30);
    assert_eq!(find_function_end(&starts, 0, 30), 1);
    assert_eq!(find_function_end(&vec![], 3, 30), 30);
}

#[test]
fn lines_of_a_range_are_picked_and_marked() {
    let all = vec![1, 3, 6, 7, 12];
    let mut claimed = vec![false, true, false, false, false];
    assert_eq!(lines_in_function(&all, 3, 7, &mut claimed), vec![3, 6]);
    assert_eq!(claimed, vec![false, true, true, false, false]);
    assert_eq!(unclaimed_lines(&all, &claimed), vec![1, 7, 12]);
}

#[test]
fn every_line_goes_to_one_function_or_to_the_orphans() {
    let lines = hits(&[1, 2, 5, 6, 7, 10, 11]);
    let shared = attribute(&lines, &functions(&[5, 10]));
    assert_eq!(
        shared,
        Attribution { methods: vec![vec![5, 6, 7], vec![10, 11]], orphans: vec![1, 2] }
    );
    let mut seen: Vec<u32> = shared.orphans.clone();
    for method in &shared.methods {
        seen.extend(method);
    }
    seen.sort();
    assert_eq!(seen, vec![1, 2, 5, 6, 7, 10, 11]);
}

#[test]
fn functions_with_one_start_share_their_lines() {
    let lines = hits(&[1, 3, 6, 7, 8, 9, 11, 12]);
    let shared = attribute(&lines, &functions(&[6, 1, 1, 6, 1]));
    let from_one = vec![1, 3];
    let from_six = vec![6, 7, 8, 9, 11, 12];
    assert_eq!(
        shared.methods,
        vec![from_six.clone(), from_one.clone(), from_one.clone(), from_six, from_one]
    );
    assert_eq!(shared.orphans, Vec::<u32>::new());
}

#[test]
fn a_file_without_functions_has_orphans_only() {
    let shared = attribute(&hits(&[4, 8]), &functions(&[]));
    assert_eq!(shared, Attribution { methods: vec![], orphans: vec![4, 8] });
}

#[test]
fn a_file_without_lines_has_empty_methods() {
    let shared = attribute(&hits(&[]), &functions(&[3, 1]));
    assert_eq!(shared, Attribution { methods: vec![vec![], vec![]], orphans: vec![] });
}

#[test]
fn a_function_behind_the_last_line_owns_nothing() {
    let shared = attribute(&hits(&[1, 2]), &functions(&[1, 50]));
    assert_eq!(shared, Attribution { methods: vec![vec![1, 2], vec![]], orphans: vec![] });
}

#[test]
fn the_last_function_reaches_the_largest_line_number() {
    let shared = attribute(&hits(&[7, u32::MAX]), &functions(&[7]));
    assert_eq!(shared, Attribution { methods: vec![vec![7, u32::MAX]], orphans: vec![] });
}
