use vstd::prelude::*;

verus! {

/// A move direction. Left and Right act on rows, Up and Down on columns;
/// Right and Down traverse their line in reverse order, so tiles always
/// compact toward the edge the direction names.
#[derive(Clone, Copy, PartialEq, Eq, Structural, Debug)]
pub enum Direction {
    Left,
    Right,
    Up,
    Down,
}

/// Whether `v` is a positive power of two.
pub open spec fn power_of_two(v: int) -> bool
    decreases v,
{
    if v <= 0 {
        false
    } else if v == 1 {
        true
    } else {
        v % 2 == 0 && power_of_two(v / 2)
    }
}

/// A well-formed cell value: empty, or a tile worth a power of two of at
/// least 2.
pub open spec fn valid_tile(v: u64) -> bool {
    v == 0 || (v >= 2 && power_of_two(v as int))
}

/// Every cell of the sequence is a well-formed cell value.
pub open spec fn all_tiles_valid(s: Seq<u64>) -> bool {
    forall|i: int| 0 <= i < s.len() ==> valid_tile(#[trigger] s[i])
}

/// A tile value small enough that merging (doubling) cannot overflow `u64`.
pub open spec fn tile_fits(v: u64) -> bool {
    v <= 0x7fff_ffff_ffff_ffffu64
}

/// Every tile of the sequence is small enough to double without overflow.
pub open spec fn all_tiles_fit(s: Seq<u64>) -> bool {
    forall|i: int| 0 <= i < s.len() ==> tile_fits(#[trigger] s[i])
}

/// The non-zero values of a line, in their original order.
pub open spec fn nonzeros(s: Seq<u64>) -> Seq<u64>
    decreases s.len(),
{
    if s.len() == 0 {
        Seq::empty()
    } else if s[0] == 0 {
        nonzeros(s.skip(1))
    } else {
        seq![s[0]] + nonzeros(s.skip(1))
    }
}

/// Greedy pairwise merging of a gap-free line, scanning from the front:
/// two equal leading values combine into their double and are consumed,
/// so a merged tile can never merge again in the same move.
pub open spec fn merge_pairs(s: Seq<u64>) -> Seq<u64>
    decreases s.len(),
{
    if s.len() <= 1 {
        s
    } else if s[0] == s[1] {
        seq![(2 * s[0]) as u64] + merge_pairs(s.skip(2))
    } else {
        seq![s[0]] + merge_pairs(s.skip(1))
    }
}

/// The result of one move on a line in traversal order: drop the gaps,
/// merge equal neighbours pairwise from the front, and pad with zeros.
pub open spec fn slid_line(l: Seq<u64>) -> Seq<u64> {
    let m = merge_pairs(nonzeros(l));
    m + Seq::new((l.len() - m.len()) as nat, |i: int| 0u64)
}

/// Board index of the `k`-th cell (in traversal order) of line `li`.
pub open spec fn line_index(d: Direction, li: int, k: int) -> int {
    match d {
        Direction::Left => 4 * li + k,
        Direction::Right => 4 * li + 3 - k,
        Direction::Up => 4 * k + li,
        Direction::Down => 4 * (3 - k) + li,
    }
}

/// Which line (row or column) the board cell `j` belongs to under `d`.
pub open spec fn line_of(d: Direction, j: int) -> int {
    match d {
        Direction::Left => j / 4,
        Direction::Right => j / 4,
        Direction::Up => j % 4,
        Direction::Down => j % 4,
    }
}

/// Position of board cell `j` within its line, in traversal order.
pub open spec fn slot_of(d: Direction, j: int) -> int {
    match d {
        Direction::Left => j % 4,
        Direction::Right => 3 - j % 4,
        Direction::Up => j / 4,
        Direction::Down => 3 - j / 4,
    }
}

/// The four values of line `li` of board `b`, in traversal order for `d`.
pub open spec fn extract_line(b: Seq<u64>, d: Direction, li: int) -> Seq<u64> {
    Seq::new(4, |k: int| b[line_index(d, li, k)])
}

/// The whole-board transform: every line is slid independently and written
/// back to its original cells.
pub open spec fn apply_spec(b: Seq<u64>, d: Direction) -> Seq<u64> {
    Seq::new(16, |j: int| slid_line(extract_line(b, d, line_of(d, j)))[slot_of(d, j)])
}

/// A line whose non-zero tiles are packed at the front: once a cell is
/// empty, every later cell of the line is empty too.
pub open spec fn compacted(l: Seq<u64>) -> bool {
    forall|i: int, j: int| 0 <= i < j < l.len() && l[i] == 0 ==> l[j] == 0
}

/// No two neighbouring cells of the line hold the same non-zero tile.
pub open spec fn no_adjacent_merge(l: Seq<u64>) -> bool {
    forall|i: int| 0 <= i < l.len() - 1 && #[trigger] l[i] != 0 ==> l[i + 1] != l[i]
}

/// 1 for an occupied cell, 0 for an empty one.
pub open spec fn ind_nz(v: u64) -> int {
    if v != 0 {
        1
    } else {
        0
    }
}

/// How many cells of the sequence are occupied.
pub open spec fn count_nz(s: Seq<u64>) -> int
    decreases s.len(),
{
    if s.len() == 0 {
        0
    } else {
        ind_nz(s[0]) + count_nz(s.skip(1))
    }
}

/// The board with each row reversed (a horizontal mirror image).
pub open spec fn mirror_rows(b: Seq<u64>) -> Seq<u64> {
    Seq::new(16, |j: int| b[4 * (j / 4) + 3 - j % 4])
}

/// The board with the order of its rows reversed (a vertical flip).
pub open spec fn flip_rows(b: Seq<u64>) -> Seq<u64> {
    Seq::new(16, |j: int| b[4 * (3 - j / 4) + j % 4])
}

/// The line decomposition is a bijection between board cells and
/// (line, slot) pairs.
pub proof fn lemma_indexing(d: Direction)
    ensures
        forall|li: int, k: int|
            0 <= li < 4 && 0 <= k < 4 ==> 0 <= #[trigger] line_index(d, li, k) < 16
                && line_of(d, line_index(d, li, k)) == li && slot_of(d, line_index(d, li, k))
                == k,
        forall|j: int|
            0 <= j < 16 ==> 0 <= #[trigger] line_of(d, j) < 4 && 0 <= slot_of(d, j) < 4
                && line_index(d, line_of(d, j), slot_of(d, j)) == j,
{
}

/// Dropping the gaps never lengthens a line.
pub proof fn lemma_nonzeros_len(s: Seq<u64>)
    ensures
        nonzeros(s).len() <= s.len(),
    decreases s.len(),
{
    if s.len() > 0 {
        lemma_nonzeros_len(s.skip(1));
    }
}

/// Merging never lengthens a line.
pub proof fn lemma_merge_pairs_len(s: Seq<u64>)
    ensures
        merge_pairs(s).len() <= s.len(),
    decreases s.len(),
{
    if s.len() > 1 {
        if s[0] == s[1] {
            lemma_merge_pairs_len(s.skip(2));
        } else {
            lemma_merge_pairs_len(s.skip(1));
        }
    }
}

/// One move applied to a single line given in traversal order: compaction
/// toward the front and pairwise merging, exactly `slid_line` of the input.
pub fn transform_line(l: &Vec<u64>) -> (r: Vec<u64>)
    requires
        all_tiles_fit(l@),
    ensures
        r@ == slid_line(l@),
        r@.len() == l@.len(),
{
    let mut nz: Vec<u64> = Vec::new();
    let mut i: usize = 0;
    proof {
        assert(l@.skip(0) =~= l@);
        assert(nz@ + nonzeros(l@) =~= nonzeros(l@));
    }
    while i < l.len()
        invariant
            i <= l@.len(),
            all_tiles_fit(l@),
            nonzeros(l@) == nz@ + nonzeros(l@.skip(i as int)),
            forall|t: int| 0 <= t < nz@.len() ==> #[trigger] nz@[t] != 0,
            forall|t: int| 0 <= t < nz@.len() ==> tile_fits(#[trigger] nz@[t]),
        decreases l@.len() - i,
    {
        proof {
            assert(l@.skip(i as int)[0] == l@[i as int]);
            assert(l@.skip(i as int).skip(1) =~= l@.skip(i as int + 1));
        }
        let ghost old_nz = nz@;
        let v = l[i];
        if v != 0 {
            nz.push(v);
        }
        i += 1;
        proof {
            if v != 0 {
                assert(old_nz + (seq![v] + nonzeros(l@.skip(i as int))) =~= nz@ + nonzeros(
                    l@.skip(i as int),
                ));
            }
        }
    }
    proof {
        assert(l@.skip(l@.len() as int) =~= Seq::<u64>::empty());
        assert(nz@ + nonzeros(l@.skip(l@.len() as int)) =~= nz@);
    }
    let mut merged: Vec<u64> = Vec::new();
    let mut j: usize = 0;
    proof {
        assert(nz@.skip(0) =~= nz@);
        assert(merged@ + merge_pairs(nz@) =~= merge_pairs(nz@));
    }
    while j < nz.len()
        invariant
            j <= nz@.len(),
            forall|t: int| 0 <= t < nz@.len() ==> tile_fits(#[trigger] nz@[t]),
            merge_pairs(nz@) == merged@ + merge_pairs(nz@.skip(j as int)),
        decreases nz@.len() - j,
    {
        let ghost s = nz@.skip(j as int);
        let ghost old_m = merged@;
        proof {
            assert(s[0] == nz@[j as int]);
        }
        if j + 1 < nz.len() && nz[j] == nz[j + 1] {
            proof {
                assert(s[1] == nz@[j as int + 1]);
                assert(s.skip(2) =~= nz@.skip(j as int + 2));
            }
            merged.push(2 * nz[j]);
            j += 2;
            proof {
                assert(old_m + (seq![(2 * s[0]) as u64] + merge_pairs(nz@.skip(j as int)))
                    =~= merged@ + merge_pairs(nz@.skip(j as int)));
            }
        } else {
            proof {
                if j + 1 < nz@.len() {
                    assert(s[1] == nz@[j as int + 1]);
                }
                assert(s.skip(1) =~= nz@.skip(j as int + 1));
                if s.len() == 1 {
                    assert(merge_pairs(s) =~= seq![s[0]] + merge_pairs(s.skip(1)));
                }
            }
            merged.push(nz[j]);
            j += 1;
            proof {
                assert(old_m + (seq![s[0]] + merge_pairs(nz@.skip(j as int))) =~= merged@
                    + merge_pairs(nz@.skip(j as int)));
            }
        }
    }
    proof {
        assert(nz@.skip(nz@.len() as int) =~= Seq::<u64>::empty());
        assert(merged@ + merge_pairs(nz@.skip(nz@.len() as int)) =~= merged@);
        lemma_nonzeros_len(l@);
        lemma_merge_pairs_len(nz@);
    }
    let ghost mpv = merge_pairs(nonzeros(l@));
    proof {
        assert(merged@ =~= mpv + Seq::new((merged@.len() - mpv.len()) as nat, |t: int| 0u64));
    }
    while merged.len() < l.len()
        invariant
            mpv.len() <= merged@.len(),
            merged@.len() <= l@.len(),
            merged@ == mpv + Seq::new((merged@.len() - mpv.len()) as nat, |t: int| 0u64),
        decreases l@.len() - merged@.len(),
    {
        merged.push(0);
        proof {
            assert(merged@ =~= mpv + Seq::new((merged@.len() - mpv.len()) as nat, |t: int| 0u64));
        }
    }
    merged
}

/// A 4×4 board of tiles, row-major: cell (r, c) sits at index r*4 + c.
/// A value of 0 denotes an empty cell.
pub struct Board {
    cells: Vec<u64>,
}

impl View for Board {
    type V = Seq<u64>;

    closed spec fn view(&self) -> Seq<u64> {
        self.cells@
    }
}

impl Board {
    /// Sixteen cells, each either empty or a tile that can still double.
    pub open spec fn well_sized(&self) -> bool {
        self@.len() == 16 && all_tiles_fit(self@)
    }

    /// Wraps sixteen cell values as a board; rejects any other count.
    pub fn from_cells(cells: Vec<u64>) -> (r: Option<Board>)
        ensures
            cells@.len() == 16 ==> (r matches Some(b) && b@ == cells@),
            cells@.len() != 16 ==> r is None,
    {
        if cells.len() == 16 {
            Some(Board { cells })
        } else {
            None
        }
    }

    /// The value of cell `i`.
    pub fn cell(&self, i: usize) -> (v: u64)
        requires
            i < self@.len(),
        ensures
            v == self@[i as int],
    {
        self.cells[i]
    }

    /// Overwrites cell `i` with the value `v`.
    pub fn set_cell(&mut self, i: usize, v: u64)
        requires
            i < old(self)@.len(),
        ensures
            final(self)@ == old(self)@.update(i as int, v),
    {
        self.cells[i] = v;
    }

    /// All sixteen cell values, row-major.
    pub fn cells(&self) -> (r: &Vec<u64>)
        ensures
            r@ == self@,
    {
        &self.cells
    }
}

/// Board index of the `k`-th cell of line `li` in traversal order for `d`.
fn board_index(d: Direction, li: usize, k: usize) -> (r: usize)
    requires
        li < 4,
        k < 4,
    ensures
        r == line_index(d, li as int, k as int),
        r < 16,
{
    match d {
        Direction::Left => 4 * li + k,
        Direction::Right => 4 * li + 3 - k,
        Direction::Up => 4 * k + li,
        Direction::Down => 4 * (3 - k) + li,
    }
}

/// One move of the puzzle: every row (for Left/Right) or column (for
/// Up/Down) is compacted and merged toward the direction's edge. Pure:
/// the input board is untouched and the result is a fresh board.
pub fn make_move(board: &Board, dir: Direction) -> (r: Board)
    requires
        board.well_sized(),
    ensures
        r@ == apply_spec(board@, dir),
        r@.len() == 16,
{
    let mut out: Vec<u64> = Vec::new();
    let mut z: usize = 0;
    while z < 16
        invariant
            out@.len() == z,
            z <= 16,
        decreases 16 - z,
    {
        out.push(0);
        z += 1;
    }
    let mut li: usize = 0;
    while li < 4
        invariant
            li <= 4,
            out@.len() == 16,
            board@.len() == 16,
            all_tiles_fit(board@),
            forall|j: int|
                0 <= j < 16 && line_of(dir, j) < li ==> out@[j] == apply_spec(board@, dir)[j],
        decreases 4 - li,
    {
        proof {
            lemma_indexing(dir);
        }
        let mut line: Vec<u64> = Vec::new();
        let mut k: usize = 0;
        while k < 4
            invariant
                k <= 4,
                li < 4,
                board@.len() == 16,
                all_tiles_fit(board@),
                line@.len() == k,
                forall|t: int|
                    0 <= t < k ==> #[trigger] line@[t] == board@[line_index(dir, li as int, t)],
            decreases 4 - k,
        {
            proof {
                lemma_indexing(dir);
            }
            let idx = board_index(dir, li, k);
            line.push(board.cells[idx]);
            k += 1;
        }
        proof {
            assert(line@ =~= extract_line(board@, dir, li as int));
            assert forall|t: int| 0 <= t < line@.len() implies tile_fits(#[trigger] line@[t]) by {
                assert(line@[t] == board@[line_index(dir, li as int, t)]);
            }
        }
        let slid = transform_line(&line);
        let ghost done = out@;
        let mut k2: usize = 0;
        while k2 < 4
            invariant
                k2 <= 4,
                li < 4,
                slid@ == slid_line(extract_line(board@, dir, li as int)),
                slid@.len() == 4,
                out@.len() == 16,
                forall|j: int|
                    0 <= j < 16 && line_of(dir, j) != li ==> out@[j] == done[j],
                done.len() == 16,
                forall|kk: int|
                    0 <= kk < k2 ==> #[trigger] out@[line_index(dir, li as int, kk)] == slid@[kk],
            decreases 4 - k2,
        {
            proof {
                lemma_indexing(dir);
            }
            let idx = board_index(dir, li, k2);
            let v = slid[k2];
            out[idx] = v;
            k2 += 1;
        }
        li += 1;
        proof {
            lemma_indexing(dir);
            assert forall|j: int| 0 <= j < 16 && line_of(dir, j) < li implies out@[j] == apply_spec(
                board@,
                dir,
            )[j] by {
                if line_of(dir, j) == li - 1 {
                    assert(line_index(dir, line_of(dir, j), slot_of(dir, j)) == j);
                    assert(out@[j] == slid@[slot_of(dir, j)]);
                } else {
                    assert(out@[j] == done[j]);
                }
            }
        }
    }
    proof {
        lemma_indexing(dir);
        assert(out@ =~= apply_spec(board@, dir));
    }
    Board { cells: out }
}

} // verus!
