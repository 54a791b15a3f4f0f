use queens::record::{calc_queens, Queens};

#[test]
fn a_fresh_record_holds_nothing() {
    let record = Queens::default(8);
    assert_eq!(record.size, 8);
    assert!(record.unique_solutions.is_empty());
    assert!(record.solutions.is_empty());
}

#[test]
fn calc_queens_starts_from_a_fresh_record() {
    let record = calc_queens(5);
    assert_eq!(record.size, 5);
    assert!(record.unique_solutions.is_empty());
    assert!(record.solutions.is_empty());
}
