use queens::board::Fields;
use queens::layout::{layout_fields, render_many, width_or_fallback, FALLBACK_WIDTH};
use queens::render::{COLORED, INVISIBLE, QUEEN, UNKNOWN};

fn state(size: u8, fixed_rows: Vec<u8>, open_rows: Vec<Vec<u8>>) -> Fields {
    Fields { size, fixed_rows, open_rows }
}

#[test]
fn glyphs() {
    assert_eq!(QUEEN, '\u{265B}');
    assert_eq!(COLORED, '\u{2588}');
    assert_eq!(INVISIBLE, '\u{2591}');
    assert_eq!(UNKNOWN, '?');
}

#[test]
fn rows_of_a_solved_board() {
    let rows = state(4, vec![1, 3, 0, 2], vec![]).get_rows();
    assert_eq!(rows, vec!["░♛░█", "█░█♛", "♛█░█", "█░♛░"]);
}

#[test]
fn rows_of_a_fresh_board() {
    assert_eq!(Fields::default(4).get_rows(), vec!["??░█", "????", "????", "????"]);
    assert_eq!(Fields::default(1).get_rows(), vec!["?"]);
    assert_eq!(Fields::default(0).get_rows(), Vec::<String>::new());
}

#[test]
fn checkerboard_runs_through_committed_and_pending_rows() {
    let rows = state(4, vec![0], vec![vec![2, 3], vec![1, 3], vec![1, 2]]).get_rows();
    assert_eq!(rows, vec!["♛█░█", "█░??", "░?░?", "█??░"]);
    let rows = state(3, vec![0, 2], vec![vec![]]).get_rows();
    assert_eq!(rows, vec!["♛█░", "█░♛", "░█░"]);
}

#[test]
fn every_solution_renders_one_queen_per_row_and_column() {
    for size in 0u8..=8 {
        for solution in Fields::default(size).get_all_solutions() {
            let rows = solution.get_rows();
            assert_eq!(rows.len(), size as usize);
            let mut seen = vec![false; size as usize];
            for (number, row) in rows.iter().enumerate() {
                let glyphs: Vec<char> = row.chars().collect();
                assert_eq!(glyphs.len(), size as usize);
                let queens: Vec<usize> = (0..glyphs.len()).filter(|c| glyphs[*c] == QUEEN).collect();
                assert_eq!(queens, vec![solution.fixed_rows[number] as usize]);
                assert!(!seen[queens[0]]);
                seen[queens[0]] = true;
            }
        }
    }
}

#[test]
fn text_puts_each_row_on_a_line() {
    assert_eq!(state(4, vec![1, 3, 0, 2], vec![]).to_text(), "░♛░█\n█░█♛\n♛█░█\n█░♛░");
    assert_eq!(Fields::default(1).to_text(), "?");
    assert_eq!(Fields::default(0).to_text(), "");
}

#[test]
fn fallback_width_is_one_column() {
    assert_eq!(FALLBACK_WIDTH, 1);
    assert_eq!(width_or_fallback(None), 1);
    assert_eq!(width_or_fallback(Some(80)), 80);
    assert_eq!(width_or_fallback(Some(0)), 0);
}

#[test]
fn narrow_terminal_gives_one_board_per_group() {
    let boards = Fields::default(4).get_next_iteration();
    let lines = layout_fields(&boards, 1);
    assert_eq!(lines, vec!["♛█░█", "█░??", "░?░?", "█??░", "", "░♛░█", "█░█?", "?█?█", "?░??"]);
}

#[test]
fn wide_terminal_puts_boards_side_by_side() {
    let boards = Fields::default(4).get_next_iteration();
    let lines = layout_fields(&boards, 80);
    assert_eq!(lines, vec!["♛█░█  ░♛░█", "█░??  █░█?", "░?░?  ?█?█", "█??░  ?░??"]);
}

#[test]
fn a_board_joins_only_strictly_below_the_width() {
    let boards = Fields::default(4).get_next_iteration();
    assert_eq!(layout_fields(&boards, 10).len(), 9);
    assert_eq!(layout_fields(&boards, 11).len(), 4);
    let three = vec![Fields::default(1), Fields::default(1), Fields::default(1)];
    assert_eq!(layout_fields(&three, 7), vec!["?  ?", "", "?"]);
    assert_eq!(layout_fields(&three, 8), vec!["?  ?  ?"]);
    assert_eq!(layout_fields(&three, 4), vec!["?", "", "?", "", "?"]);
    assert_eq!(layout_fields(&three, 0), vec!["?", "", "?", "", "?"]);
}

#[test]
fn shorter_boards_are_padded_with_blanks() {
    let mixed = vec![Fields::default(1), state(3, vec![0, 2], vec![vec![]]), Fields::default(2)];
    let lines = layout_fields(&mixed, 40);
    assert_eq!(lines, vec!["?  ♛█░  ?█", "   █░♛  ??", "   ░█░    "]);
}

#[test]
fn no_boards_no_lines() {
    assert_eq!(layout_fields(&Vec::new(), 80), Vec::<String>::new());
    assert_eq!(layout_fields(&vec![Fields::default(0)], 80), Vec::<String>::new());
    assert_eq!(layout_fields(&vec![Fields::default(0), Fields::default(1)], 1), vec!["", "?"]);
}

#[test]
fn width_near_the_limit_does_not_wrap_around() {
    let two = vec![Fields::default(1), Fields::default(1)];
    assert_eq!(layout_fields(&two, u16::MAX), vec!["?  ?"]);
}

#[test]
fn render_many_lays_out_for_some_width() {
    let boards = Fields::default(4).get_next_iteration();
    let lines = render_many(&boards);
    let apart = layout_fields(&boards, 1);
    let beside = layout_fields(&boards, 80);
    assert!(lines == apart || lines == beside);
}

#[test]
fn lines_of_a_group_share_one_width_below_the_terminal() {
    let mixed = vec![Fields::default(1), state(3, vec![0, 2], vec![vec![]]), Fields::default(2)];
    assert_eq!(layout_fields(&mixed, 10), vec!["?  ♛█░", "   █░♛", "   ░█░", "", "?█", "??"]);
    let joined = layout_fields(&mixed, 11);
    assert_eq!(joined.len(), 3);
    for line in joined {
        assert_eq!(line.chars().count(), 10);
    }
    assert_eq!(layout_fields(&mixed, 6), vec!["?", "", "♛█░", "█░♛", "░█░", "", "?█", "??"]);
    assert_eq!(layout_fields(&mixed, 7), vec!["?  ♛█░", "   █░♛", "   ░█░", "", "?█", "??"]);
}
