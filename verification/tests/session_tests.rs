use twenty48::engine::{Board, Direction};
use twenty48::session::{
    boards_equal, empty_cells, is_power_of_two, judge, new_game_board, play_round, RoundOutcome,
    Status,
};

fn board_of(cells: Vec<u64>) -> Board {
    Board::from_cells(cells).unwrap()
}

fn cells_of(b: &Board) -> Vec<u64> {
    b.cells().clone()
}

#[test]
fn power_of_two_accepts_powers() {
    assert!(is_power_of_two(1));
    assert!(is_power_of_two(2));
    assert!(is_power_of_two(4));
    assert!(is_power_of_two(1024));
    assert!(is_power_of_two(1 << 30));
}

#[test]
fn power_of_two_rejects_everything_else() {
    assert!(!is_power_of_two(0));
    assert!(!is_power_of_two(3));
    assert!(!is_power_of_two(6));
    assert!(!is_power_of_two(-4));
    assert!(!is_power_of_two(100));
}

#[test]
fn judge_sees_win_anywhere() {
    let mut cells: Vec<u64> = vec![0; 16];
    cells[11] = 2048;
    assert_eq!(judge(&board_of(cells), 2048), Status::Won);
}

#[test]
fn judge_prefers_win_on_a_full_board() {
    let cells: Vec<u64> = vec![2, 4, 2, 4, 4, 2, 4, 2, 2, 4, 2048, 4, 4, 2, 4, 2];
    assert_eq!(judge(&board_of(cells), 2048), Status::Won);
}

#[test]
fn judge_declares_loss_only_when_full() {
    let full: Vec<u64> = vec![2, 4, 2, 4, 4, 2, 4, 2, 2, 4, 2, 4, 4, 2, 4, 2];
    assert_eq!(judge(&board_of(full), 2048), Status::Lost);
    let mut one_gap: Vec<u64> = vec![2, 4, 2, 4, 4, 2, 4, 2, 2, 4, 2, 4, 4, 2, 4, 2];
    one_gap[9] = 0;
    assert_eq!(judge(&board_of(one_gap), 2048), Status::Playing);
}

#[test]
fn boards_equal_compares_cells() {
    let a: Vec<u64> = vec![0; 16];
    let mut b: Vec<u64> = vec![0; 16];
    assert!(boards_equal(&board_of(a.clone()), &board_of(b.clone())));
    b[15] = 2;
    assert!(!boards_equal(&board_of(a), &board_of(b)));
}

#[test]
fn empty_cells_lists_exactly_the_gaps() {
    let mut cells: Vec<u64> = vec![2; 16];
    cells[3] = 0;
    cells[10] = 0;
    let empties = empty_cells(&board_of(cells));
    assert_eq!(empties, vec![3, 10]);
}

#[test]
fn no_op_round_spawns_nothing() {
    let cells: Vec<u64> = vec![2, 4, 2, 4, 4, 2, 4, 2, 2, 4, 2, 4, 4, 2, 4, 2];
    let (after, outcome) = play_round(board_of(cells.clone()), Direction::Left, 2048);
    assert_eq!(outcome, RoundOutcome::NoChange);
    assert_eq!(cells_of(&after), cells);
}

#[test]
fn committed_round_spawns_one_tile_in_a_gap() {
    let mut cells: Vec<u64> = vec![0; 16];
    cells[0] = 2;
    cells[1] = 2;
    let (after, outcome) = play_round(board_of(cells), Direction::Left, 2048);
    assert_eq!(outcome, RoundOutcome::Moved(Status::Playing));
    let out = cells_of(&after);
    assert_eq!(out[0], 4);
    let spawned: Vec<(usize, u64)> = out
        .iter()
        .copied()
        .enumerate()
        .skip(1)
        .filter(|&(_, v)| v != 0)
        .collect();
    assert_eq!(spawned.len(), 1, "exactly one tile is spawned: {out:?}");
    let (at, v) = spawned[0];
    assert!(at >= 1 && at < 16);
    assert!(v == 2 || v == 4, "a spawned tile is worth 2 or 4, not {v}");
}

#[test]
fn reaching_the_win_value_wins_at_once() {
    let mut cells: Vec<u64> = vec![0; 16];
    cells[0] = 2;
    cells[1] = 2;
    let (after, outcome) = play_round(board_of(cells), Direction::Left, 4);
    assert_eq!(outcome, RoundOutcome::Moved(Status::Won));
    assert_eq!(cells_of(&after)[0], 4);
}

#[test]
fn filling_the_last_gap_loses() {
    // The left move merges only the leading pair, leaving exactly one gap,
    // which the spawn then fills; no cell can reach the win value.
    let cells: Vec<u64> = vec![
        2, 2, 4, 8, 16, 32, 64, 128, 256, 4, 16, 2, 32, 8, 64, 256,
    ];
    let (after, outcome) = play_round(board_of(cells), Direction::Left, 2048);
    assert_eq!(outcome, RoundOutcome::Moved(Status::Lost));
    assert!(cells_of(&after).iter().all(|&v| v != 0));
}

#[test]
fn new_game_board_has_two_seed_tiles() {
    let b = new_game_board();
    let cells = cells_of(&b);
    assert_eq!(cells.len(), 16);
    assert_eq!(cells.iter().filter(|&&v| v == 2).count(), 2);
    assert_eq!(cells.iter().filter(|&&v| v == 0).count(), 14);
}
