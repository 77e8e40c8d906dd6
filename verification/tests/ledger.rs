use fair_routes::ledger::{copy_entries, find_location, sum_entries};

#[test]
fn sum_entries_adds_the_tips() {
    assert_eq!(sum_entries(&vec![]), 0);
    assert_eq!(sum_entries(&vec![(3, 4), (9, 1), (0, 7)]), 12);
}

#[test]
fn find_location_gives_the_position() {
    let entries = vec![(3, 4), (9, 1), (0, 7)];
    assert_eq!(find_location(&entries, 3), Some(0));
    assert_eq!(find_location(&entries, 0), Some(2));
    assert_eq!(find_location(&entries, 4), None);
    assert_eq!(find_location(&vec![], 0), None);
}

#[test]
fn copy_entries_keeps_the_entries() {
    let entries = vec![(3, 4), (9, 1), (0, 7)];
    assert_eq!(copy_entries(&entries), entries);
    assert_eq!(copy_entries(&vec![]), vec![]);
}
