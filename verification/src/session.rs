use vstd::prelude::*;

use crate::engine::{apply_spec, make_move, power_of_two, Board, Direction};
use crate::laws::lemma_changed_has_empty;
use rand::seq::SliceRandom;

verus! {

/// Where a session stands after a committed move and its spawn.
#[derive(Clone, Copy, PartialEq, Eq, Structural, Debug)]
pub enum Status {
    Playing,
    Won,
    Lost,
}

/// What one round of play came to: either the move changed nothing, or it
/// was committed and judged.
#[derive(Clone, Copy, PartialEq, Eq, Structural, Debug)]
pub enum RoundOutcome {
    NoChange,
    Moved(Status),
}

/// Whether some cell of the board holds the value `v`.
pub open spec fn contains_value(s: Seq<u64>, v: u64) -> bool {
    exists|i: int| 0 <= i < s.len() && s[i] == v
}

/// The session's verdict on a board: a board showing the win value has
/// won, wherever it stands; failing that, a board with no empty cell has
/// lost; any other board plays on.
pub open spec fn judge_spec(s: Seq<u64>, win: u64) -> Status {
    if contains_value(s, win) {
        Status::Won
    } else if !contains_value(s, 0) {
        Status::Lost
    } else {
        Status::Playing
    }
}

/// Whether an offered win value is acceptable: a session only starts once
/// a positive power of two has been supplied.
pub fn is_power_of_two(x: i32) -> (r: bool)
    ensures
        r == power_of_two(x as int),
{
    if x <= 0 {
        return false;
    }
    let mut v: i32 = x;
    while v > 1 && v % 2 == 0
        invariant
            1 <= v <= x,
            power_of_two(x as int) == power_of_two(v as int),
        decreases v,
    {
        v = v / 2;
    }
    v == 1
}

/// Decides the session's verdict for a board.
pub fn judge(board: &Board, win: u64) -> (st: Status)
    requires
        board@.len() == 16,
    ensures
        st == judge_spec(board@, win),
{
    let mut i: usize = 0;
    let mut seen_win = false;
    let mut seen_empty = false;
    while i < 16
        invariant
            i <= 16,
            board@.len() == 16,
            seen_win <==> exists|t: int| 0 <= t < i && board@[t] == win,
            seen_empty <==> exists|t: int| 0 <= t < i && board@[t] == 0,
        decreases 16 - i,
    {
        let v = board.cell(i);
        if v == win {
            seen_win = true;
        }
        if v == 0 {
            seen_empty = true;
        }
        i += 1;
    }
    if seen_win {
        Status::Won
    } else if !seen_empty {
        Status::Lost
    } else {
        Status::Playing
    }
}

/// Cell-by-cell equality of two boards: the signal that a move was a
/// no-op round.
pub fn boards_equal(a: &Board, b: &Board) -> (r: bool)
    requires
        a@.len() == 16,
        b@.len() == 16,
    ensures
        r <==> a@ == b@,
{
    let mut i: usize = 0;
    while i < 16
        invariant
            i <= 16,
            a@.len() == 16,
            b@.len() == 16,
            forall|t: int| 0 <= t < i ==> a@[t] == b@[t],
        decreases 16 - i,
    {
        if a.cell(i) != b.cell(i) {
            return false;
        }
        i += 1;
    }
    proof {
        assert(a@ =~= b@);
    }
    true
}

/// The indices of the empty cells of the board, in increasing order.
pub fn empty_cells(board: &Board) -> (r: Vec<usize>)
    requires
        board@.len() == 16,
    ensures
        forall|t: int| 0 <= t < r@.len() ==> #[trigger] r@[t] < 16 && board@[r@[t] as int] == 0,
        forall|i: int| 0 <= i < 16 && board@[i] == 0 ==> r@.contains(i as usize),
{
    let mut r: Vec<usize> = Vec::new();
    let mut i: usize = 0;
    while i < 16
        invariant
            i <= 16,
            board@.len() == 16,
            forall|t: int| 0 <= t < r@.len() ==> #[trigger] r@[t] < 16 && board@[r@[t] as int]
                == 0,
            forall|j: int| 0 <= j < i && board@[j] == 0 ==> r@.contains(j as usize),
        decreases 16 - i,
    {
        let ghost old_r = r@;
        if board.cell(i) == 0 {
            r.push(i);
        }
        i += 1;
        proof {
            assert forall|j: int| 0 <= j < i && board@[j] == 0 implies r@.contains(j as usize) by {
                if j < i - 1 {
                    let t = choose|t: int| 0 <= t < old_r.len() && old_r[t] == j as usize;
                    assert(r@[t] == j as usize);
                } else {
                    assert(r@[r@.len() - 1] == j as usize);
                }
            }
        }
    }
    r
}

/// Relies on rand's `SliceRandom::shuffle` with `thread_rng`: it permutes
/// the slice in place, so the cells keep their values and count, only
/// their order changes.
#[verifier::external_body]
fn shuffle_cells(cells: &mut Vec<u64>)
    ensures
        final(cells)@.len() == old(cells)@.len(),
        final(cells)@.to_multiset() == old(cells)@.to_multiset(),
{
    cells.shuffle(&mut rand::thread_rng());
}

/// Relies on rand's `SliceRandom::choose` with `thread_rng`: on a
/// non-empty slice it returns `Some` of one of the slice's elements.
#[verifier::external_body]
fn choose_cell(empties: &Vec<usize>) -> (r: usize)
    requires
        empties@.len() > 0,
    ensures
        empties@.contains(r),
{
    *empties.choose(&mut rand::thread_rng()).unwrap()
}

/// Relies on rand's `SliceRandom::choose_weighted` with `thread_rng`: it
/// returns `Ok` of one of the slice's elements whenever some weight is
/// positive and the sum of the weights fits its accumulator.
#[verifier::external_body]
fn pick_weighted(a: u64, weight_a: u32, b: u64, weight_b: u32) -> (r: u64)
    requires
        weight_a > 0 || weight_b > 0,
        weight_a as int + weight_b as int <= u32::MAX as int,
    ensures
        r == a || r == b,
{
    [(a, weight_a), (b, weight_b)].choose_weighted(&mut rand::thread_rng(), |item| item.1).unwrap().0
}

/// The value of a spawned tile: 2 with relative weight 9, 4 with relative
/// weight 1.
fn spawn_value() -> (v: u64)
    ensures
        v == 2 || v == 4,
{
    pick_weighted(2, 9, 4, 1)
}

/// One round of play. The move is applied to the board; if it changed
/// nothing the round is a pure no-op, with no spawn and no judgement.
/// Otherwise the moved board is committed, one tile of value 2 or 4 is
/// spawned in a randomly chosen empty cell — a changed board always has
/// one — and the result is judged: win before loss, loss only when no
/// cell is left empty.
pub fn play_round(board: Board, dir: Direction, win: u64) -> (r: (Board, RoundOutcome))
    requires
        board.well_sized(),
    ensures
        r.0@.len() == 16,
        apply_spec(board@, dir) == board@ ==> r.0@ == board@ && r.1 == RoundOutcome::NoChange,
        apply_spec(board@, dir) != board@ ==> (exists|i: int, v: u64|
            0 <= i < 16 && (v == 2 || v == 4) && apply_spec(board@, dir)[i] == 0 && r.0@
                == apply_spec(board@, dir).update(i, v)) && r.1 == RoundOutcome::Moved(
            judge_spec(r.0@, win),
        ),
{
    let moved = make_move(&board, dir);
    if boards_equal(&moved, &board) {
        (board, RoundOutcome::NoChange)
    } else {
        proof {
            lemma_changed_has_empty(board@, dir);
        }
        let empties = empty_cells(&moved);
        proof {
            let i = choose|i: int| 0 <= i < 16 && apply_spec(board@, dir)[i] == 0;
            assert(empties@.contains(i as usize));
        }
        let idx = choose_cell(&empties);
        proof {
            let t = choose|t: int| 0 <= t < empties@.len() && empties@[t] == idx;
            assert(empties@[t] < 16 && moved@[empties@[t] as int] == 0);
        }
        let val = spawn_value();
        let mut committed = moved;
        committed.set_cell(idx, val);
        let st = judge(&committed, win);
        (committed, RoundOutcome::Moved(st))
    }
}

/// The sixteen starting cells before the opening shuffle: two seed tiles
/// of value 2, all other cells empty.
pub open spec fn seed_cells() -> Seq<u64> {
    seq![2u64, 2u64] + Seq::new(14, |i: int| 0u64)
}

/// A fresh board for a new session: the two seed tiles are placed and the
/// whole board is randomly permuted.
pub fn new_game_board() -> (b: Board)
    ensures
        b@.len() == 16,
        b@.to_multiset() == seed_cells().to_multiset(),
        b.well_sized(),
        forall|i: int| 0 <= i < 16 ==> b@[i] == 0 || b@[i] == 2,
{
    broadcast use vstd::seq_lib::group_to_multiset_ensures;

    let mut cells: Vec<u64> = Vec::new();
    cells.push(2);
    cells.push(2);
    let mut i: usize = 2;
    while i < 16
        invariant
            cells@.len() == i,
            2 <= i <= 16,
            cells@[0] == 2 && cells@[1] == 2,
            forall|t: int| 2 <= t < i ==> cells@[t] == 0,
        decreases 16 - i,
    {
        cells.push(0);
        i += 1;
    }
    proof {
        assert(cells@ =~= seed_cells());
    }
    shuffle_cells(&mut cells);
    proof {
        assert forall|t: int| 0 <= t < 16 implies cells@[t] == 0 || cells@[t] == 2 by {
            assert(cells@.contains(cells@[t]));
            assert(cells@.to_multiset().contains(cells@[t]));
            assert(seed_cells().to_multiset().contains(cells@[t]));
            assert(seed_cells().contains(cells@[t]));
            let w = choose|w: int| 0 <= w < 16 && seed_cells()[w] == cells@[t];
            assert(seed_cells()[w] == cells@[t]);
        }
    }
    let b = Board::from_cells(cells);
    b.unwrap()
}

} // verus!
