use candy_grid::board::Action;
use candy_grid::board::State;
use candy_grid::board::action_to_char;
use candy_grid::oracle::Schedule;

fn schedule_of(first: &[u8], rest: u8) -> Schedule {
    let mut v: Vec<u8> = Vec::new();
    for i in 0..100 {
        if i < first.len() {
            v.push(first[i]);
        } else {
            v.push(rest);
        }
    }
    Schedule::new(v)
}

fn board_from(cells: &[(usize, usize, u8)]) -> State {
    let mut s = State::new();
    for &(y, x, v) in cells {
        s.board[y * 10 + x] = v;
    }
    s
}

#[test]
fn action_chars() {
    assert_eq!(action_to_char(Action::Forward), 'F');
    assert_eq!(action_to_char(Action::Back), 'B');
    assert_eq!(action_to_char(Action::Left), 'L');
    assert_eq!(action_to_char(Action::Right), 'R');
}

#[test]
fn new_board_is_empty_and_done_after_end() {
    let mut s = State::new();
    assert_eq!(s.turn, 0);
    assert!(s.board.iter().all(|&c| c == 0));
    assert!(!s.is_done());
    s.turn = 100;
    assert!(s.is_done());
}

#[test]
fn score_empty_board_is_zero() {
    let s = State::new();
    assert_eq!(s.get_score(), 0);
}

#[test]
fn score_two_groups_three_and_five() {
    // A horizontal group of 3 in row 0 and a horizontal group of 5 in row 5.
    let s = board_from(&[
        (0, 0, 1),
        (0, 1, 1),
        (0, 2, 1),
        (5, 0, 2),
        (5, 1, 2),
        (5, 2, 2),
        (5, 3, 2),
        (5, 4, 2),
    ]);
    assert_eq!(s.get_score(), 9 + 25);
}

#[test]
fn score_full_single_group() {
    let mut s = State::new();
    for i in 0..100 {
        s.board[i] = 1;
    }
    assert_eq!(s.get_score(), 10000);
}

#[test]
fn score_same_value_not_adjacent_counts_separately() {
    // Two single tiles of the same value on a diagonal: 1 + 1, not 4.
    let s = board_from(&[(0, 0, 3), (1, 1, 3)]);
    assert_eq!(s.get_score(), 2);
}

#[test]
fn group_size_of_l_shape() {
    let s = board_from(&[(2, 2, 1), (3, 2, 1), (4, 2, 1), (4, 3, 1)]);
    let mut checked = vec![false; 100];
    let cnt = s.get_group_size(2 * 10 + 2, &mut checked);
    assert_eq!(cnt, 4);
    assert_eq!(checked.iter().filter(|&&b| b).count(), 4);
}

#[test]
fn advance_left_compacts_and_keeps_order() {
    let mut s = board_from(&[(0, 1, 2), (0, 4, 3), (0, 7, 1)]);
    s.advance(Action::Left);
    assert_eq!(&s.board[0..10], &[2, 3, 1, 0, 0, 0, 0, 0, 0, 0]);
    assert_eq!(s.turn, 1);
}

#[test]
fn advance_right_compacts_and_keeps_order() {
    let mut s = board_from(&[(3, 1, 2), (3, 4, 3), (3, 7, 1)]);
    s.advance(Action::Right);
    assert_eq!(&s.board[30..40], &[0, 0, 0, 0, 0, 0, 0, 2, 3, 1]);
}

#[test]
fn advance_forward_compacts_columns_up() {
    let mut s = board_from(&[(2, 0, 1), (6, 0, 2), (9, 0, 3)]);
    s.advance(Action::Forward);
    let col: Vec<u8> = (0..10).map(|y| s.board[y * 10]).collect();
    assert_eq!(col, vec![1, 2, 3, 0, 0, 0, 0, 0, 0, 0]);
}

#[test]
fn advance_back_compacts_columns_down() {
    let mut s = board_from(&[(2, 9, 1), (6, 9, 2), (9, 9, 3)]);
    s.advance(Action::Back);
    let col: Vec<u8> = (0..10).map(|y| s.board[y * 10 + 9]).collect();
    assert_eq!(col, vec![0, 0, 0, 0, 0, 0, 0, 1, 2, 3]);
}

#[test]
fn advance_is_idempotent_on_cells() {
    let mut a = board_from(&[(0, 1, 2), (0, 4, 3), (5, 7, 1), (9, 0, 2), (3, 3, 3)]);
    let mut b = board_from(&[(0, 1, 2), (0, 4, 3), (5, 7, 1), (9, 0, 2), (3, 3, 3)]);
    a.advance(Action::Back);
    b.advance(Action::Back);
    b.advance(Action::Back);
    assert_eq!(a.board, b.board);
    assert_eq!(b.turn, 2);
}

#[test]
fn advance_conserves_tile_multiset() {
    let before = board_from(&[(0, 1, 2), (0, 4, 3), (5, 7, 1), (9, 0, 2), (3, 3, 3), (3, 4, 3)]);
    for action in [Action::Forward, Action::Back, Action::Left, Action::Right] {
        let mut s = before.duplicate();
        s.advance(action);
        let mut old_sorted = before.board.clone();
        let mut new_sorted = s.board.clone();
        old_sorted.sort();
        new_sorted.sort();
        assert_eq!(old_sorted, new_sorted);
    }
}

#[test]
fn advance_on_full_and_empty_lines_is_noop() {
    let mut s = State::new();
    for x in 0..10 {
        s.board[3 * 10 + x] = 2;
    }
    let before = s.board.clone();
    s.advance(Action::Left);
    assert_eq!(s.board, before);
}

#[test]
fn update_fills_nth_empty_cell_in_row_major_order() {
    let schedule = schedule_of(&[3], 1);
    let mut s = board_from(&[(0, 0, 1), (0, 2, 1)]);
    // Empty cells in row-major order: (0,1) first, (0,3) second, (0,4) third.
    s.update(&schedule, 3);
    assert_eq!(s.board[4], 3);
    assert_eq!(s.turn, 0);
}

#[test]
fn update_adds_exactly_one_tile_and_keeps_others() {
    let schedule = schedule_of(&[2], 1);
    let mut s = board_from(&[(4, 4, 1), (4, 5, 3)]);
    let before = s.board.clone();
    s.update(&schedule, 7);
    let changed: Vec<usize> = (0..100).filter(|&i| s.board[i] != before[i]).collect();
    assert_eq!(changed.len(), 1);
    assert_eq!(before[changed[0]], 0);
    assert_eq!(s.board[changed[0]], 2);
    let empties_before = before.iter().filter(|&&c| c == 0).count();
    let empties_after = s.board.iter().filter(|&&c| c == 0).count();
    assert_eq!(empties_before - 1, empties_after);
}

#[test]
fn three_insertions_then_left_fill_row_zero() {
    // Schedule 1,1,1 then 2s; positions always 1: the first empty cell in
    // row-major order is the leftmost open cell of row 0.
    let schedule = schedule_of(&[1, 1, 1], 2);
    let mut s = State::new();
    for _ in 0..3 {
        s.update(&schedule, 1);
        s.advance(Action::Left);
    }
    assert_eq!(&s.board[0..10], &[1, 1, 1, 0, 0, 0, 0, 0, 0, 0]);
    assert!(s.board[10..].iter().all(|&c| c == 0));
    assert_eq!(s.turn, 3);
}
