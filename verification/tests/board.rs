use queens::board::Fields;

fn state(size: u8, fixed_rows: Vec<u8>, open_rows: Vec<Vec<u8>>) -> Fields {
    Fields { size, fixed_rows, open_rows }
}

#[test]
fn test_solved() {
    assert!(Fields::default(0).is_solved());
    assert!(Fields { size: 1, fixed_rows: vec![0], open_rows: vec![] }.is_solved());
    assert!(!Fields { size: 1, fixed_rows: vec![], open_rows: vec![vec![0]] }.is_solved());
    assert!(Fields { size: 4, fixed_rows: vec![1, 3, 0, 2], open_rows: vec![] }.is_solved());
    assert!(!Fields { size: 4, fixed_rows: vec![1, 3, 0], open_rows: vec![vec![2]] }.is_solved());
}

#[test]
fn test_is_possible() {
    assert!(Fields { size: 1, fixed_rows: vec![0], open_rows: vec![] }.is_still_possible());
    assert!(Fields { size: 1, fixed_rows: vec![], open_rows: vec![vec![0]] }.is_still_possible());
    assert!(Fields { size: 4, fixed_rows: vec![1, 3, 0, 2], open_rows: vec![] }.is_still_possible());
    assert!(Fields { size: 4, fixed_rows: vec![1, 3, 0], open_rows: vec![vec![2]] }.is_still_possible());
    assert!(!Fields { size: 4, fixed_rows: vec![0, 2], open_rows: vec![vec![], vec![1, 3]] }.is_still_possible());
}

#[test]
fn test_gen_fields() {
    assert_eq!(Fields::gen_fields(1), vec![vec![0]]);
    assert_eq!(Fields::gen_fields(2), vec![vec![0], vec![0, 1]]);
    assert_eq!(Fields::gen_fields(4), vec![vec![0, 1], vec![0, 1, 2, 3], vec![0, 1, 2, 3], vec![0, 1, 2, 3]]);
    assert_eq!(
        Fields::gen_fields(5),
        vec![vec![0, 1, 2], vec![0, 1, 2, 3, 4], vec![0, 1, 2, 3, 4], vec![0, 1, 2, 3, 4], vec![0, 1, 2, 3, 4]]
    );
    assert_eq!(
        Fields::gen_fields(8),
        vec![
            vec![0, 1, 2, 3],
            vec![0, 1, 2, 3, 4, 5, 6, 7],
            vec![0, 1, 2, 3, 4, 5, 6, 7],
            vec![0, 1, 2, 3, 4, 5, 6, 7],
            vec![0, 1, 2, 3, 4, 5, 6, 7],
            vec![0, 1, 2, 3, 4, 5, 6, 7],
            vec![0, 1, 2, 3, 4, 5, 6, 7],
            vec![0, 1, 2, 3, 4, 5, 6, 7]
        ]
    );
}

#[test]
fn gen_fields_of_nothing_is_empty() {
    assert_eq!(Fields::gen_fields(0), Vec::<Vec<u8>>::new());
}

#[test]
fn gen_fields_of_the_largest_board() {
    let rows = Fields::gen_fields(255);
    assert_eq!(rows.len(), 255);
    assert_eq!(rows[0], (0..128).collect::<Vec<u8>>());
    assert_eq!(rows[1], (0..255).collect::<Vec<u8>>());
    assert_eq!(rows[254], (0..255).collect::<Vec<u8>>());
}

#[test]
fn only_the_top_row_is_halved() {
    let rows = Fields::gen_fields(7);
    assert_eq!(rows[0], vec![0, 1, 2, 3]);
    for row in 1..7 {
        assert_eq!(rows[row], vec![0, 1, 2, 3, 4, 5, 6]);
    }
}

#[test]
fn default_has_nothing_committed() {
    let fresh = Fields::default(4);
    assert_eq!(fresh.size, 4);
    assert_eq!(fresh.fixed_rows, Vec::<u8>::new());
    assert_eq!(fresh.open_rows, Fields::gen_fields(4));
    assert!(!fresh.is_solved());
    assert!(fresh.is_still_possible());
}

#[test]
fn default_of_one_has_a_single_candidate() {
    let fresh = Fields::default(1);
    assert_eq!(fresh.open_rows, vec![vec![0]]);
    assert!(!fresh.is_solved());
}

#[test]
fn possible_does_not_depend_on_solved() {
    assert!(state(0, vec![], vec![]).is_still_possible());
    assert!(state(0, vec![], vec![]).is_solved());
    let dead = state(3, vec![0], vec![vec![2], vec![]]);
    assert!(!dead.is_still_possible());
    assert!(!dead.is_solved());
    let dead_first = state(2, vec![], vec![vec![], vec![0, 1]]);
    assert!(!dead_first.is_still_possible());
    let alive = state(3, vec![0], vec![vec![2], vec![1]]);
    assert!(alive.is_still_possible());
    assert!(!alive.is_solved());
}

#[test]
fn clone_keeps_every_field() {
    let first = state(4, vec![1, 3], vec![vec![0], vec![2]]);
    let copy = first.clone();
    assert_eq!(first.fixed_rows, vec![1, 3]);
    assert_eq!(copy.size, 4);
    assert_eq!(copy.fixed_rows, vec![1, 3]);
    assert_eq!(copy.open_rows, vec![vec![0], vec![2]]);
}
