use std::cmp::Ordering;

use csv_filter::sort::{get_sort_order, record_comparator, sort_csv_rows};

fn srow(fields: &[&str]) -> Vec<String> {
    fields.iter().map(|f| f.to_string()).collect()
}

fn stable(rows: &[&[&str]]) -> Vec<Vec<String>> {
    rows.iter().map(|r| srow(r)).collect()
}

#[test]
fn sort_order_resolves_names_to_positions() {
    let header = srow(&["id", "category", "amount"]);
    let order = get_sort_order(&header, &srow(&["amount", "id"]));
    assert_eq!(order, vec![2, 0]);
}

#[test]
fn sort_order_keeps_every_position_of_a_repeated_header() {
    let header = srow(&["a", "b", "a"]);
    let order = get_sort_order(&header, &srow(&["a"]));
    assert_eq!(order, vec![0, 2]);
}

#[test]
fn sort_order_of_unknown_name_is_empty() {
    let header = srow(&["a", "b"]);
    let order = get_sort_order(&header, &srow(&["c"]));
    assert_eq!(order, Vec::<usize>::new());
}

#[test]
fn comparator_decides_by_the_first_differing_key() {
    let order = vec![1usize, 0usize];
    let a = srow(&["2", "x"]);
    let b = srow(&["1", "x"]);
    assert_eq!(record_comparator(&a, &b, &order), Ordering::Greater);
    assert_eq!(record_comparator(&b, &a, &order), Ordering::Less);
    assert_eq!(record_comparator(&a, &a, &order), Ordering::Equal);
}

#[test]
fn comparator_is_lexicographic_not_numeric() {
    let order = vec![0usize];
    let a = srow(&["9"]);
    let b = srow(&["10"]);
    // "9" > "10" byte-wise
    assert_eq!(record_comparator(&a, &b, &order), Ordering::Greater);
}

#[test]
fn sorts_rows_by_two_keys() {
    let header = srow(&["id", "category", "amount"]);
    let rows = stable(&[
        &["3", "B", "20"],
        &["1", "A", "30"],
        &["2", "B", "10"],
        &["4", "A", "10"],
    ]);
    let sorted = sort_csv_rows(&header, rows, &srow(&["category", "amount"]));
    assert_eq!(
        sorted,
        stable(&[
            &["4", "A", "10"],
            &["1", "A", "30"],
            &["2", "B", "10"],
            &["3", "B", "20"],
        ])
    );
}

#[test]
fn sorting_a_sorted_file_is_idempotent() {
    let header = srow(&["k", "v"]);
    let rows = stable(&[&["a", "3"], &["b", "1"], &["b", "2"], &["c", "9"]]);
    let once = sort_csv_rows(&header, rows, &srow(&["k"]));
    let twice = sort_csv_rows(&header, once.clone(), &srow(&["k"]));
    assert_eq!(once, twice);
}

#[test]
fn ties_beyond_the_sort_keys_keep_their_order() {
    let header = srow(&["k", "v"]);
    let rows = stable(&[&["b", "first"], &["a", "x"], &["b", "second"], &["b", "third"]]);
    let sorted = sort_csv_rows(&header, rows, &srow(&["k"]));
    assert_eq!(
        sorted,
        stable(&[&["a", "x"], &["b", "first"], &["b", "second"], &["b", "third"]])
    );
}

#[test]
fn sorting_with_no_keys_leaves_rows_in_place() {
    let header = srow(&["k"]);
    let rows = stable(&[&["z"], &["a"], &["m"]]);
    let sorted = sort_csv_rows(&header, rows.clone(), &srow(&[]));
    assert_eq!(sorted, rows);
}

#[test]
fn sorting_nothing_yields_nothing() {
    let header = srow(&["k"]);
    let sorted = sort_csv_rows(&header, Vec::new(), &srow(&["k"]));
    assert!(sorted.is_empty());
}
