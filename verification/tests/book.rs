use std::collections::BTreeMap;

use geyser_services::book::{l2_diff, l2_snapshot, quantities_fit, size_at};

fn apply(book: &mut BTreeMap<i64, i64>, entries: &[(i64, i64)]) {
    for &(price, size) in entries {
        if size == 0 {
            book.remove(&price);
        } else {
            book.insert(price, size);
        }
    }
}

fn depth(levels: &[(i64, i64)]) -> BTreeMap<i64, i64> {
    let mut book = BTreeMap::new();
    apply(&mut book, levels);
    book
}

#[test]
fn levels_sum_neighbouring_orders() {
    let orders = vec![(10, 1), (10, 2), (9, 4), (8, 5), (8, 6), (8, 7)];
    assert_eq!(l2_snapshot(&orders), vec![(10, 3), (9, 4), (8, 18)]);
}

#[test]
fn levels_of_an_empty_book() {
    assert_eq!(l2_snapshot(&vec![]), vec![]);
}

#[test]
fn one_price_makes_one_level() {
    assert_eq!(l2_snapshot(&vec![(7, 1), (7, 1), (7, 1)]), vec![(7, 3)]);
}

#[test]
fn prices_that_return_make_a_new_level() {
    let orders = vec![(10, 1), (9, 2), (10, 3)];
    assert_eq!(l2_snapshot(&orders), vec![(10, 1), (9, 2), (10, 3)]);
}

#[test]
fn negative_quantities_count() {
    assert_eq!(l2_snapshot(&vec![(5, 3), (5, -4), (-5, -1)]), vec![(5, -1), (-5, -1)]);
}

#[test]
fn levels_keep_the_total_quantity() {
    let orders = vec![(10, 1), (10, 2), (9, 4), (8, 5), (8, 6)];
    let total: i64 = orders.iter().map(|order| order.1).sum();
    let sizes: i64 = l2_snapshot(&orders).iter().map(|level| level.1).sum();
    assert_eq!(total, sizes);
}

#[test]
fn ascending_orders_give_each_price_once() {
    let orders = vec![(1, 1), (1, 2), (2, 3), (4, 4), (4, 5)];
    assert_eq!(l2_snapshot(&orders), vec![(1, 3), (2, 3), (4, 9)]);
}

#[test]
fn descending_orders_give_each_price_once() {
    let orders = vec![(4, 5), (4, 4), (2, 3), (1, 2), (1, 1)];
    assert_eq!(l2_snapshot(&orders), vec![(4, 9), (2, 3), (1, 3)]);
}

#[test]
fn quantities_that_overflow_do_not_fit() {
    assert!(!quantities_fit(&vec![(1, i64::MAX), (1, 1)]));
    assert!(!quantities_fit(&vec![(1, i64::MIN), (1, -1)]));
    assert!(!quantities_fit(&vec![(1, i64::MAX), (1, 1), (1, -1)]));
}

#[test]
fn quantities_on_different_levels_fit() {
    assert!(quantities_fit(&vec![]));
    assert!(quantities_fit(&vec![(1, i64::MAX), (2, i64::MAX)]));
    assert!(quantities_fit(&vec![(1, i64::MAX), (1, 0), (1, -1), (1, 1)]));
}

#[test]
fn size_at_finds_the_first_level() {
    let levels = vec![(3, 30), (2, 20), (3, 31)];
    assert_eq!(size_at(&levels, 3), Some(30));
    assert_eq!(size_at(&levels, 2), Some(20));
    assert_eq!(size_at(&levels, 1), None);
}

#[test]
fn diff_of_equal_books_is_empty() {
    let levels = vec![(10, 5), (9, 1)];
    assert_eq!(l2_diff(&levels, &levels), vec![]);
}

#[test]
fn diff_of_two_sizes_at_one_price_is_not_empty() {
    let levels = vec![(10, 5), (9, 1), (10, 6)];
    assert_eq!(l2_diff(&levels, &levels), vec![(10, 6)]);
}

#[test]
fn diff_names_removed_changed_and_new_levels() {
    let previous = vec![(10, 1), (9, 2), (8, 3), (7, 4)];
    let current = vec![(11, 5), (10, 1), (8, 6)];
    assert_eq!(l2_diff(&previous, &current), vec![(9, 0), (7, 0), (11, 5), (8, 6)]);
}

#[test]
fn diff_from_and_to_an_empty_book() {
    let levels = vec![(10, 1), (9, 2)];
    assert_eq!(l2_diff(&vec![], &levels), levels);
    assert_eq!(l2_diff(&levels, &vec![]), vec![(10, 0), (9, 0)]);
}

#[test]
fn replaying_a_delta_gives_the_current_book() {
    let previous = vec![(10, 1), (9, 2), (8, 3), (7, 4)];
    let current = vec![(11, 5), (10, 1), (8, 6), (6, 0)];
    let mut client = depth(&previous);
    apply(&mut client, &l2_diff(&previous, &current));
    assert_eq!(client, depth(&current));
}

#[test]
fn replaying_a_delta_of_ambiguous_levels_can_differ() {
    let previous = vec![(1, 7), (1, 5)];
    let current = vec![(1, 7)];
    let mut client = depth(&previous);
    apply(&mut client, &l2_diff(&previous, &current));
    assert_ne!(client, depth(&current));
}
