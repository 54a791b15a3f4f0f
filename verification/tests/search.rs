use queens::board::Fields;

fn state(size: u8, fixed_rows: Vec<u8>, open_rows: Vec<Vec<u8>>) -> Fields {
    Fields { size, fixed_rows, open_rows }
}

fn count(size: u8) -> usize {
    Fields::default(size).get_all_solutions().len()
}

fn at_peace(columns: &[u8]) -> bool {
    for i in 0..columns.len() {
        for j in (i + 1)..columns.len() {
            let a = columns[i] as i32;
            let b = columns[j] as i32;
            if a == b || (a - b).abs() == (j - i) as i32 {
                return false;
            }
        }
    }
    true
}

#[test]
fn empty_board_is_its_own_solution() {
    let fresh = Fields::default(0);
    assert!(fresh.is_solved());
    let found = fresh.get_all_solutions();
    assert_eq!(found.len(), 1);
    assert_eq!(found[0].size, 0);
    assert_eq!(found[0].fixed_rows, Vec::<u8>::new());
    assert_eq!(found[0].open_rows, Vec::<Vec<u8>>::new());
}

#[test]
fn one_queen_is_solved_by_its_single_candidate() {
    let fresh = Fields::default(1);
    let next = fresh.get_next_iteration();
    assert_eq!(next.len(), 1);
    assert!(next[0].is_solved());
    assert_eq!(next[0].fixed_rows, vec![0]);
    let found = fresh.get_all_solutions();
    assert_eq!(found.len(), 1);
    assert_eq!(found[0].fixed_rows, vec![0]);
    assert_eq!(found[0].open_rows, Vec::<Vec<u8>>::new());
}

#[test]
fn small_boards_without_solution() {
    assert_eq!(count(1), 1);
    assert_eq!(count(2), 0);
    assert_eq!(count(3), 0);
}

#[test]
fn counts_with_the_top_queen_on_the_left_half() {
    assert_eq!(count(4), 1);
    assert_eq!(count(5), 6);
    assert_eq!(count(6), 2);
    assert_eq!(count(7), 23);
    assert_eq!(count(8), 46);
}

#[test]
fn mirroring_gives_the_classic_counts() {
    let classic: [usize; 8] = [1, 0, 0, 2, 10, 4, 40, 92];
    for size in 1u8..=8 {
        let found = Fields::default(size).get_all_solutions();
        let centre = if size % 2 == 1 {
            found.iter().filter(|s| s.fixed_rows[0] == size / 2).count()
        } else {
            0
        };
        assert_eq!(2 * found.len() - centre, classic[size as usize - 1]);
    }
}

#[test]
fn every_solution_is_a_full_peaceful_placement() {
    for size in 0u8..=8 {
        for solution in Fields::default(size).get_all_solutions() {
            assert!(solution.is_solved());
            assert_eq!(solution.size, size);
            assert_eq!(solution.fixed_rows.len(), size as usize);
            assert!(solution.fixed_rows.iter().all(|c| *c < size));
            assert!(at_peace(&solution.fixed_rows));
        }
    }
}

#[test]
fn solutions_come_in_lexicographic_order() {
    let found = Fields::default(6).get_all_solutions();
    assert_eq!(found.len(), 2);
    assert_eq!(found[0].fixed_rows, vec![1, 3, 5, 0, 2, 4]);
    assert_eq!(found[1].fixed_rows, vec![2, 5, 1, 4, 0, 3]);
    let five = Fields::default(5).get_all_solutions();
    for pair in five.windows(2) {
        assert!(pair[0].fixed_rows < pair[1].fixed_rows);
    }
}

#[test]
fn four_queens_solution() {
    let found = Fields::default(4).get_all_solutions();
    assert_eq!(found.len(), 1);
    assert_eq!(found[0].fixed_rows, vec![1, 3, 0, 2]);
    assert_eq!(found[0].open_rows, Vec::<Vec<u8>>::new());
}

#[test]
fn solved_state_steps_to_itself() {
    let solved = state(4, vec![1, 3, 0, 2], vec![]);
    let next = solved.get_next_iteration();
    assert_eq!(next.len(), 1);
    assert_eq!(next[0].size, 4);
    assert_eq!(next[0].fixed_rows, vec![1, 3, 0, 2]);
    assert_eq!(next[0].open_rows, Vec::<Vec<u8>>::new());
    let found = solved.get_all_solutions();
    assert_eq!(found.len(), 1);
    assert_eq!(found[0].fixed_rows, vec![1, 3, 0, 2]);
}

#[test]
fn four_queens_first_step() {
    let next = Fields::default(4).get_next_iteration();
    assert_eq!(next.len(), 2);
    assert!(next.iter().all(|s| s.is_still_possible()));
    assert_eq!(next[0].size, 4);
    assert_eq!(next[0].fixed_rows, vec![0]);
    assert_eq!(next[0].open_rows, vec![vec![2, 3], vec![1, 3], vec![1, 2]]);
    assert_eq!(next[1].fixed_rows, vec![1]);
    assert_eq!(next[1].open_rows, vec![vec![3], vec![0, 2], vec![0, 2, 3]]);
}

#[test]
fn pruning_removes_column_and_both_diagonals_only() {
    let parent = state(6, vec![], vec![vec![3], (0..6).collect(), (0..6).collect(), (0..6).collect(), (0..6).collect(), (0..6).collect()]);
    let next = parent.get_next_iteration();
    assert_eq!(next.len(), 1);
    assert_eq!(next[0].fixed_rows, vec![3]);
    assert_eq!(next[0].open_rows[0], vec![0, 1, 5]);
    assert_eq!(next[0].open_rows[1], vec![0, 2, 4]);
    assert_eq!(next[0].open_rows[2], vec![1, 2, 4, 5]);
    assert_eq!(next[0].open_rows[3], vec![0, 1, 2, 4, 5]);
    assert_eq!(next[0].open_rows[4], vec![0, 1, 2, 4, 5]);
}

#[test]
fn dead_ends_are_left_out() {
    let next = Fields::default(2).get_next_iteration();
    assert_eq!(next.len(), 0);
    let next = Fields::default(3).get_next_iteration();
    assert_eq!(next.len(), 1);
    assert_eq!(next[0].fixed_rows, vec![0]);
    assert_eq!(next[0].open_rows, vec![vec![2], vec![1]]);
    assert_eq!(next[0].get_next_iteration().len(), 0);
}

#[test]
fn eight_queens_first_step() {
    let next = Fields::default(8).get_next_iteration();
    assert_eq!(next.len(), 4);
    for (column, successor) in next.iter().enumerate() {
        assert_eq!(successor.fixed_rows, vec![column as u8]);
        assert_eq!(successor.open_rows.len(), 7);
    }
}

#[test]
fn diagonals_beyond_the_byte_range_hit_nothing() {
    let mut rows: Vec<Vec<u8>> = vec![vec![250], vec![9]];
    for _ in 2..100 {
        rows.push(vec![3, 149]);
    }
    let wide = state(255, vec![], rows);
    let next = wide.get_next_iteration();
    assert_eq!(next.len(), 1);
    assert_eq!(next[0].fixed_rows, vec![250]);
    assert_eq!(next[0].open_rows.len(), 99);
    assert_eq!(next[0].open_rows[0], vec![9]);
    for row in 1..99 {
        assert_eq!(next[0].open_rows[row], vec![3, 149]);
    }
}

#[test]
fn far_diagonal_is_pruned() {
    let mut rows: Vec<Vec<u8>> = vec![vec![250]];
    for _ in 1..120 {
        rows.push(vec![149, 250, 251]);
    }
    let next = state(255, vec![], rows).get_next_iteration();
    assert_eq!(next.len(), 1);
    assert_eq!(next[0].open_rows[0], vec![149]);
    assert_eq!(next[0].open_rows[1], vec![149, 251]);
    assert_eq!(next[0].open_rows[100], vec![251]);
    assert_eq!(next[0].open_rows[101], vec![149, 251]);
}

fn placements(size: u8, prefix: &mut Vec<u8>, out: &mut Vec<Vec<u8>>) {
    if prefix.len() == size as usize {
        out.push(prefix.clone());
        return;
    }
    for column in 0..size {
        prefix.push(column);
        if at_peace(prefix) {
            placements(size, prefix, out);
        }
        prefix.pop();
    }
}

#[test]
fn every_placement_with_the_top_queen_on_the_left_half_is_found_once() {
    for size in 1u8..=7 {
        let mut all = Vec::new();
        placements(size, &mut Vec::new(), &mut all);
        let expected: Vec<Vec<u8>> = all.into_iter().filter(|p| p[0] < (size + 1) / 2).collect();
        let found: Vec<Vec<u8>> =
            Fields::default(size).get_all_solutions().into_iter().map(|s| s.fixed_rows).collect();
        assert_eq!(found, expected);
    }
}

#[test]
fn search_from_a_partial_board_continues_its_rows() {
    let partial = state(4, vec![1], vec![vec![3], vec![0, 2], vec![0, 2, 3]]);
    let found = partial.get_all_solutions();
    assert_eq!(found.len(), 1);
    assert_eq!(found[0].fixed_rows, vec![1, 3, 0, 2]);
    let stuck = state(4, vec![0], vec![vec![2, 3], vec![1, 3], vec![1, 2]]);
    assert_eq!(stuck.get_all_solutions().len(), 0);
}

#[test]
fn search_is_the_search_from_each_successor() {
    let fresh = Fields::default(6);
    let mut below: Vec<Vec<u8>> = Vec::new();
    for successor in fresh.get_next_iteration() {
        for solution in successor.get_all_solutions() {
            below.push(solution.fixed_rows);
        }
    }
    let found: Vec<Vec<u8>> = fresh.get_all_solutions().into_iter().map(|s| s.fixed_rows).collect();
    assert_eq!(found, below);
}
