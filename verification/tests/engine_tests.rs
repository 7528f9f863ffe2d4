use twenty48::engine::{make_move, transform_line, Board, Direction};

fn board_of(cells: Vec<u64>) -> Board {
    Board::from_cells(cells).unwrap()
}

fn cells_of(b: &Board) -> Vec<u64> {
    b.cells().clone()
}

#[test]
fn merge_cap() {
    let line: Vec<u64> = vec![2, 2, 2, 2];
    let out = transform_line(&line);
    assert_eq!(out, vec![4, 4, 0, 0]);
}

#[test]
fn triple_non_merge() {
    let line: Vec<u64> = vec![2, 2, 2, 0];
    let out = transform_line(&line);
    assert_eq!(out, vec![4, 2, 0, 0]);
}

#[test]
fn merge_skips_gaps() {
    let line: Vec<u64> = vec![2, 0, 2, 0];
    let out = transform_line(&line);
    assert_eq!(out, vec![4, 0, 0, 0]);
}

#[test]
fn merged_tile_does_not_merge_again() {
    let line: Vec<u64> = vec![2, 2, 4, 8];
    let out = transform_line(&line);
    assert_eq!(out, vec![4, 4, 8, 0]);
}

#[test]
fn slide_without_merge() {
    let line: Vec<u64> = vec![0, 2, 0, 4];
    let out = transform_line(&line);
    assert_eq!(out, vec![2, 4, 0, 0]);
}

#[test]
fn empty_line_is_noop() {
    let line: Vec<u64> = vec![0, 0, 0, 0];
    let out = transform_line(&line);
    assert_eq!(out, vec![0, 0, 0, 0]);
}

#[test]
fn single_merge_left() {
    let mut cells: Vec<u64> = vec![0; 16];
    cells[0] = 2;
    cells[1] = 2;
    let b = board_of(cells);
    let moved = make_move(&b, Direction::Left);
    let mut expected: Vec<u64> = vec![0; 16];
    expected[0] = 4;
    assert_eq!(cells_of(&moved), expected);
}

#[test]
fn column_merge_up() {
    let mut cells: Vec<u64> = vec![0; 16];
    cells[3] = 2;
    cells[7] = 2;
    let b = board_of(cells);
    let moved = make_move(&b, Direction::Up);
    let mut expected: Vec<u64> = vec![0; 16];
    expected[3] = 4;
    assert_eq!(cells_of(&moved), expected);
}

#[test]
fn move_right_packs_against_right_edge() {
    let mut cells: Vec<u64> = vec![0; 16];
    cells[0] = 2;
    cells[1] = 2;
    cells[2] = 4;
    let b = board_of(cells);
    let moved = make_move(&b, Direction::Right);
    let mut expected: Vec<u64> = vec![0; 16];
    expected[2] = 4;
    expected[3] = 4;
    assert_eq!(cells_of(&moved), expected);
}

#[test]
fn move_down_packs_against_bottom_edge() {
    let mut cells: Vec<u64> = vec![0; 16];
    cells[0] = 2;
    cells[4] = 2;
    cells[8] = 4;
    let b = board_of(cells);
    let moved = make_move(&b, Direction::Down);
    let mut expected: Vec<u64> = vec![0; 16];
    expected[8] = 4;
    expected[12] = 4;
    assert_eq!(cells_of(&moved), expected);
}

#[test]
fn settled_board_is_noop_in_every_direction() {
    let cells: Vec<u64> = vec![2, 4, 2, 4, 4, 2, 4, 2, 2, 4, 2, 4, 4, 2, 4, 2];
    let b = board_of(cells.clone());
    for dir in [Direction::Left, Direction::Right, Direction::Up, Direction::Down] {
        let moved = make_move(&b, dir);
        assert_eq!(cells_of(&moved), cells);
    }
}

#[test]
fn mass_reduced_only_by_merges() {
    let count_nonzero = |v: &Vec<u64>| v.iter().filter(|&&x| x != 0).count();

    let merging: Vec<u64> = vec![
        2, 2, 4, 8, 0, 0, 0, 0, 0, 0, 0, 0, 0, 0, 0, 0,
    ];
    let b = board_of(merging.clone());
    let moved = make_move(&b, Direction::Left);
    assert_eq!(count_nonzero(&merging), 4);
    assert_eq!(count_nonzero(cells_of(&moved).as_ref()), 3);

    let sliding: Vec<u64> = vec![
        0, 2, 4, 0, 0, 0, 0, 0, 0, 0, 0, 0, 0, 0, 0, 0,
    ];
    let b2 = board_of(sliding.clone());
    let moved2 = make_move(&b2, Direction::Left);
    assert_eq!(count_nonzero(&sliding), 2);
    assert_eq!(count_nonzero(cells_of(&moved2).as_ref()), 2);
}

#[test]
fn every_line_compacted_after_move() {
    let cells: Vec<u64> = vec![0, 2, 0, 2, 4, 0, 4, 0, 0, 0, 8, 2, 2, 0, 0, 2];
    let b = board_of(cells);
    let moved = make_move(&b, Direction::Left);
    let out = cells_of(&moved);
    for r in 0..4 {
        let row = &out[4 * r..4 * r + 4];
        let mut seen_zero = false;
        for &v in row {
            if v == 0 {
                seen_zero = true;
            } else {
                assert!(!seen_zero, "non-zero tile after a gap in row {r}: {row:?}");
            }
        }
    }
}

fn mirror_rows(cells: &Vec<u64>) -> Vec<u64> {
    let mut out = vec![0u64; 16];
    for r in 0..4 {
        for c in 0..4 {
            out[4 * r + c] = cells[4 * r + 3 - c];
        }
    }
    out
}

#[test]
fn direction_symmetry_left_right() {
    let cells: Vec<u64> = vec![2, 2, 4, 0, 0, 8, 8, 2, 4, 0, 4, 4, 2, 0, 0, 2];
    let moved_right = make_move(&board_of(cells.clone()), Direction::Right);
    let moved_left_mirrored = make_move(&board_of(mirror_rows(&cells)), Direction::Left);
    assert_eq!(cells_of(&moved_right), mirror_rows(cells_of(&moved_left_mirrored).as_ref()));
}

fn flip_rows(cells: &Vec<u64>) -> Vec<u64> {
    let mut out = vec![0u64; 16];
    for r in 0..4 {
        for c in 0..4 {
            out[4 * r + c] = cells[4 * (3 - r) + c];
        }
    }
    out
}

#[test]
fn direction_symmetry_up_down() {
    let cells: Vec<u64> = vec![2, 2, 4, 0, 0, 8, 8, 2, 4, 0, 4, 4, 2, 0, 0, 2];
    let moved_down = make_move(&board_of(cells.clone()), Direction::Down);
    let moved_up_flipped = make_move(&board_of(flip_rows(&cells)), Direction::Up);
    assert_eq!(cells_of(&moved_down), flip_rows(cells_of(&moved_up_flipped).as_ref()));
}

#[test]
fn from_cells_rejects_wrong_length() {
    assert!(Board::from_cells(vec![0; 15]).is_none());
    assert!(Board::from_cells(vec![0; 17]).is_none());
    assert!(Board::from_cells(vec![0; 16]).is_some());
}

#[test]
fn cell_reads_row_major() {
    let mut cells: Vec<u64> = vec![0; 16];
    cells[6] = 32;
    let b = board_of(cells);
    assert_eq!(b.cell(6), 32);
    assert_eq!(b.cell(5), 0);
}
