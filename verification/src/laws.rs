use vstd::prelude::*;

use crate::engine::{
    all_tiles_fit, all_tiles_valid, apply_spec, compacted, count_nz, extract_line, flip_rows,
    ind_nz, lemma_indexing, lemma_merge_pairs_len, lemma_nonzeros_len, line_index, line_of,
    merge_pairs, mirror_rows, no_adjacent_merge, nonzeros, power_of_two, slid_line, slot_of,
    tile_fits, valid_tile, Direction,
};

verus! {

/// Every value kept by `nonzeros` is non-zero, and still fits if every
/// value of the source line fits.
proof fn lemma_nonzeros_elems(s: Seq<u64>)
    ensures
        forall|i: int| 0 <= i < nonzeros(s).len() ==> #[trigger] nonzeros(s)[i] != 0,
        all_tiles_fit(s) ==> forall|i: int|
            0 <= i < nonzeros(s).len() ==> tile_fits(#[trigger] nonzeros(s)[i]),
    decreases s.len(),
{
    if s.len() > 0 {
        lemma_nonzeros_elems(s.skip(1));
        assert(all_tiles_fit(s) ==> all_tiles_fit(s.skip(1))) by {
            if all_tiles_fit(s) {
                assert forall|i: int| 0 <= i < s.skip(1).len() implies tile_fits(
                    #[trigger] s.skip(1)[i],
                ) by {
                    assert(s.skip(1)[i] == s[i + 1]);
                }
            }
        }
        assert forall|i: int| 0 <= i < nonzeros(s).len() implies #[trigger] nonzeros(s)[i] != 0
            && (all_tiles_fit(s) ==> tile_fits(nonzeros(s)[i])) by {
            if s[0] == 0 {
                assert(nonzeros(s) == nonzeros(s.skip(1)));
            } else {
                assert(nonzeros(s) == seq![s[0]] + nonzeros(s.skip(1)));
                if i == 0 {
                    assert(nonzeros(s)[0] == s[0]);
                } else {
                    assert(nonzeros(s)[i] == nonzeros(s.skip(1))[i - 1]);
                }
            }
        }
    }
}

/// Merging a line of non-zero tiles that all fit yields only non-zero
/// tiles: a doubled tile cannot be zero.
proof fn lemma_merge_pairs_nonzero(s: Seq<u64>)
    requires
        forall|i: int| 0 <= i < s.len() ==> #[trigger] s[i] != 0,
        forall|i: int| 0 <= i < s.len() ==> tile_fits(#[trigger] s[i]),
    ensures
        forall|i: int| 0 <= i < merge_pairs(s).len() ==> #[trigger] merge_pairs(s)[i] != 0,
    decreases s.len(),
{
    if s.len() > 1 {
        if s[0] == s[1] {
            assert forall|i: int| 0 <= i < s.skip(2).len() implies #[trigger] s.skip(2)[i] != 0
                && tile_fits(s.skip(2)[i]) by {
                assert(s.skip(2)[i] == s[i + 2]);
            }
            lemma_merge_pairs_nonzero(s.skip(2));
            assert forall|i: int| 0 < i < merge_pairs(s).len() implies merge_pairs(s)[i]
                == merge_pairs(s.skip(2))[i - 1] by {
                assert(merge_pairs(s) == seq![(2 * s[0]) as u64] + merge_pairs(s.skip(2)));
            }
            assert(merge_pairs(s)[0] == (2 * s[0]) as u64);
            assert((2 * s[0]) as u64 != 0);
        } else {
            assert forall|i: int| 0 <= i < s.skip(1).len() implies #[trigger] s.skip(1)[i] != 0
                && tile_fits(s.skip(1)[i]) by {
                assert(s.skip(1)[i] == s[i + 1]);
            }
            lemma_merge_pairs_nonzero(s.skip(1));
            assert forall|i: int| 0 < i < merge_pairs(s).len() implies merge_pairs(s)[i]
                == merge_pairs(s.skip(1))[i - 1] by {
                assert(merge_pairs(s) == seq![s[0]] + merge_pairs(s.skip(1)));
            }
        }
    }
}

/// A slid line has all its non-zero tiles in front: its merged prefix is
/// free of zeros and only the padding after it is zero.
proof fn lemma_slid_compacted(l: Seq<u64>)
    requires
        all_tiles_fit(l),
    ensures
        compacted(slid_line(l)),
        slid_line(l).len() == l.len(),
{
    lemma_nonzeros_len(l);
    lemma_merge_pairs_len(nonzeros(l));
    lemma_nonzeros_elems(l);
    lemma_merge_pairs_nonzero(nonzeros(l));
    let m = merge_pairs(nonzeros(l));
    assert forall|i: int, j: int|
        0 <= i < j < slid_line(l).len() && slid_line(l)[i] == 0 implies slid_line(l)[j] == 0 by {
        assert(i >= m.len());
    }
}

/// A line that starts with an empty cell and is compacted is empty
/// throughout, so it keeps no tile at all.
proof fn lemma_nonzeros_of_zeros(s: Seq<u64>)
    requires
        forall|i: int| 0 <= i < s.len() ==> #[trigger] s[i] == 0,
    ensures
        nonzeros(s) == Seq::<u64>::empty(),
    decreases s.len(),
{
    if s.len() > 0 {
        assert forall|i: int| 0 <= i < s.skip(1).len() implies #[trigger] s.skip(1)[i] == 0 by {
            assert(s.skip(1)[i] == s[i + 1]);
        }
        lemma_nonzeros_of_zeros(s.skip(1));
    }
}

/// In a compacted line the kept tiles are exactly the leading cells:
/// the line is its non-zero prefix followed by zeros.
proof fn lemma_compacted_shape(l: Seq<u64>)
    requires
        compacted(l),
    ensures
        nonzeros(l).len() <= l.len(),
        l =~= nonzeros(l) + Seq::new((l.len() - nonzeros(l).len()) as nat, |i: int| 0u64),
    decreases l.len(),
{
    lemma_nonzeros_len(l);
    if l.len() == 0 {
    } else if l[0] == 0 {
        assert forall|i: int| 0 <= i < l.len() implies #[trigger] l[i] == 0 by {
            if i > 0 {
                assert(l[0] == 0);
            }
        }
        lemma_nonzeros_of_zeros(l);
    } else {
        assert forall|i: int, j: int|
            0 <= i < j < l.skip(1).len() && #[trigger] l.skip(1)[i] == 0 implies #[trigger] l.skip(
            1,
        )[j] == 0 by {
            assert(l.skip(1)[i] == l[i + 1]);
            assert(l.skip(1)[j] == l[j + 1]);
        }
        lemma_compacted_shape(l.skip(1));
        assert(nonzeros(l) == seq![l[0]] + nonzeros(l.skip(1)));
        let nz = nonzeros(l);
        let rhs = nz + Seq::new((l.len() - nz.len()) as nat, |i: int| 0u64);
        assert forall|i: int| 0 <= i < l.len() implies l[i] == rhs[i] by {
            if i > 0 {
                let tail = nonzeros(l.skip(1));
                let rhs1 = tail + Seq::new((l.skip(1).len() - tail.len()) as nat, |t: int| 0u64);
                assert(l.skip(1)[i - 1] == rhs1[i - 1]);
                assert(l[i] == l.skip(1)[i - 1]);
                if i < nz.len() {
                    assert(rhs[i] == nz[i]);
                    assert(nz[i] == tail[i - 1]);
                } else {
                    assert(rhs[i] == 0);
                }
            }
        }
        assert(l =~= rhs);
    }
}

/// Merging changes nothing in a line with no two equal neighbours.
proof fn lemma_merge_pairs_id(s: Seq<u64>)
    requires
        forall|i: int| 0 <= i < s.len() - 1 ==> s[i + 1] != #[trigger] s[i],
    ensures
        merge_pairs(s) == s,
    decreases s.len(),
{
    if s.len() > 1 {
        assert(s[1] != s[0]);
        assert forall|i: int| 0 <= i < s.skip(1).len() - 1 implies s.skip(1)[i + 1]
            != #[trigger] s.skip(1)[i] by {
            assert(s.skip(1)[i] == s[i + 1]);
            assert(s.skip(1)[i + 1] == s[i + 2]);
        }
        lemma_merge_pairs_id(s.skip(1));
        assert(merge_pairs(s) == seq![s[0]] + s.skip(1));
        assert(seq![s[0]] + s.skip(1) =~= s);
    }
}

/// A settled line — compacted, with no mergeable neighbours — is a fixed
/// point of the slide.
proof fn lemma_slid_settled(l: Seq<u64>)
    requires
        compacted(l),
        no_adjacent_merge(l),
    ensures
        slid_line(l) == l,
{
    lemma_compacted_shape(l);
    lemma_nonzeros_elems(l);
    let nz = nonzeros(l);
    assert forall|i: int| 0 <= i < nz.len() - 1 implies nz[i + 1] != #[trigger] nz[i] by {
        assert(nz[i] == l[i]);
        assert(nz[i + 1] == l[i + 1]);
        assert(l[i] != 0);
    }
    lemma_merge_pairs_id(nz);
    assert(slid_line(l) =~= l);
}

/// Idempotence under no-op: a board already fully compacted toward `d`,
/// with no mergeable pair along any of `d`'s lines, is returned unchanged
/// by a move in `d`.
pub proof fn lemma_noop_move(b: Seq<u64>, d: Direction)
    requires
        b.len() == 16,
        forall|li: int|
            0 <= li < 4 ==> compacted(#[trigger] extract_line(b, d, li)) && no_adjacent_merge(
                extract_line(b, d, li),
            ),
    ensures
        apply_spec(b, d) == b,
{
    lemma_indexing(d);
    assert forall|j: int| 0 <= j < 16 implies apply_spec(b, d)[j] == b[j] by {
        let li = line_of(d, j);
        lemma_slid_settled(extract_line(b, d, li));
        assert(extract_line(b, d, li)[slot_of(d, j)] == b[line_index(d, li, slot_of(d, j))]);
    }
    assert(apply_spec(b, d) =~= b);
}

/// Each line of the board after a move is the slid image of the same line
/// before the move.
proof fn lemma_apply_lines(b: Seq<u64>, d: Direction, li: int)
    requires
        b.len() == 16,
        0 <= li < 4,
    ensures
        extract_line(apply_spec(b, d), d, li) == slid_line(extract_line(b, d, li)),
{
    lemma_indexing(d);
    lemma_nonzeros_len(extract_line(b, d, li));
    lemma_merge_pairs_len(nonzeros(extract_line(b, d, li)));
    assert forall|k: int| 0 <= k < 4 implies extract_line(apply_spec(b, d), d, li)[k] == slid_line(
        extract_line(b, d, li),
    )[k] by {
        let j = line_index(d, li, k);
        assert(extract_line(apply_spec(b, d), d, li)[k] == apply_spec(b, d)[j]);
        assert(line_of(d, j) == li && slot_of(d, j) == k);
    }
    assert(extract_line(apply_spec(b, d), d, li) =~= slid_line(extract_line(b, d, li)));
}

/// Every tile of a line extracted from a board whose tiles all fit,
/// fits too.
proof fn lemma_extract_fits(b: Seq<u64>, d: Direction, li: int)
    requires
        b.len() == 16,
        all_tiles_fit(b),
        0 <= li < 4,
    ensures
        all_tiles_fit(extract_line(b, d, li)),
{
    lemma_indexing(d);
    assert forall|k: int| 0 <= k < extract_line(b, d, li).len() implies tile_fits(
        #[trigger] extract_line(b, d, li)[k],
    ) by {
        assert(extract_line(b, d, li)[k] == b[line_index(d, li, k)]);
    }
}

/// Occupied cells of a concatenation are counted part by part.
proof fn lemma_count_concat(a: Seq<u64>, b: Seq<u64>)
    ensures
        count_nz(a + b) == count_nz(a) + count_nz(b),
    decreases a.len(),
{
    if a.len() == 0 {
        assert(a + b =~= b);
    } else {
        assert((a + b)[0] == a[0]);
        assert((a + b).skip(1) =~= a.skip(1) + b);
        lemma_count_concat(a.skip(1), b);
    }
}

/// A line of four cells counts its occupied cells one by one.
proof fn lemma_count4(l: Seq<u64>)
    requires
        l.len() == 4,
    ensures
        count_nz(l) == ind_nz(l[0]) + ind_nz(l[1]) + ind_nz(l[2]) + ind_nz(l[3]),
{
    reveal_with_fuel(count_nz, 5);
    assert(l.skip(1)[0] == l[1]);
    assert(l.skip(1).skip(1) =~= l.skip(2));
    assert(l.skip(2)[0] == l[2]);
    assert(l.skip(2).skip(1) =~= l.skip(3));
    assert(l.skip(3)[0] == l[3]);
    assert(l.skip(3).skip(1) =~= l.skip(4));
    assert(l.skip(4).len() == 0);
}

/// A sequence of zeros holds no occupied cell.
proof fn lemma_count_zeros(s: Seq<u64>)
    requires
        forall|i: int| 0 <= i < s.len() ==> #[trigger] s[i] == 0,
    ensures
        count_nz(s) == 0,
    decreases s.len(),
{
    if s.len() > 0 {
        assert forall|i: int| 0 <= i < s.skip(1).len() implies #[trigger] s.skip(1)[i] == 0 by {
            assert(s.skip(1)[i] == s[i + 1]);
        }
        lemma_count_zeros(s.skip(1));
    }
}

/// A sequence with no empty cell counts every cell.
proof fn lemma_count_full(s: Seq<u64>)
    requires
        forall|i: int| 0 <= i < s.len() ==> #[trigger] s[i] != 0,
    ensures
        count_nz(s) == s.len(),
    decreases s.len(),
{
    if s.len() > 0 {
        assert forall|i: int| 0 <= i < s.skip(1).len() implies #[trigger] s.skip(1)[i] != 0 by {
            assert(s.skip(1)[i] == s[i + 1]);
        }
        lemma_count_full(s.skip(1));
    }
}

/// Dropping the gaps keeps exactly the occupied cells.
proof fn lemma_count_nonzeros(s: Seq<u64>)
    ensures
        count_nz(s) == nonzeros(s).len(),
    decreases s.len(),
{
    if s.len() > 0 {
        lemma_count_nonzeros(s.skip(1));
    }
}

/// Merging shortens a line exactly when it changes it: the merged line is
/// as long as its source precisely when no pair was combined.
proof fn lemma_merge_pairs_len_exact(s: Seq<u64>)
    ensures
        merge_pairs(s).len() <= s.len(),
        (merge_pairs(s).len() == s.len()) <==> (merge_pairs(s) == s),
    decreases s.len(),
{
    if s.len() > 1 {
        if s[0] == s[1] {
            lemma_merge_pairs_len_exact(s.skip(2));
        } else {
            lemma_merge_pairs_len_exact(s.skip(1));
            if merge_pairs(s.skip(1)) == s.skip(1) {
                assert(merge_pairs(s) =~= s);
            }
            if merge_pairs(s).len() == s.len() {
                assert(merge_pairs(s.skip(1)).len() == s.skip(1).len());
            }
        }
    }
}

/// How many tiles a slid line keeps: exactly the merged non-zero tiles.
proof fn lemma_count_slid(l: Seq<u64>)
    requires
        all_tiles_fit(l),
    ensures
        count_nz(slid_line(l)) == merge_pairs(nonzeros(l)).len(),
{
    lemma_nonzeros_len(l);
    lemma_merge_pairs_len(nonzeros(l));
    lemma_nonzeros_elems(l);
    lemma_merge_pairs_nonzero(nonzeros(l));
    let m = merge_pairs(nonzeros(l));
    let pad = Seq::new((l.len() - m.len()) as nat, |i: int| 0u64);
    lemma_count_concat(m, pad);
    lemma_count_full(m);
    lemma_count_zeros(pad);
}

/// A board's occupied cells are counted line by line, whichever axis the
/// direction uses.
proof fn lemma_count_lines(b: Seq<u64>, d: Direction)
    requires
        b.len() == 16,
    ensures
        count_nz(b) == count_nz(extract_line(b, d, 0)) + count_nz(extract_line(b, d, 1)) + count_nz(
            extract_line(b, d, 2),
        ) + count_nz(extract_line(b, d, 3)),
{
    let r0 = b.subrange(0, 4);
    let r1 = b.subrange(4, 8);
    let r2 = b.subrange(8, 12);
    let r3 = b.subrange(12, 16);
    assert(b =~= r0 + r1 + r2 + r3);
    lemma_count_concat(r0 + r1 + r2, r3);
    lemma_count_concat(r0 + r1, r2);
    lemma_count_concat(r0, r1);
    assert(count_nz(b) == count_nz(r0) + count_nz(r1) + count_nz(r2) + count_nz(r3));
    lemma_count4(r0);
    lemma_count4(r1);
    lemma_count4(r2);
    lemma_count4(r3);
    lemma_count4(extract_line(b, d, 0));
    lemma_count4(extract_line(b, d, 1));
    lemma_count4(extract_line(b, d, 2));
    lemma_count4(extract_line(b, d, 3));
    lemma_indexing(d);
    // Case split so that every line_index value becomes concrete: the
    // sixteen summands can then be matched one-to-one with the rows'.
    match d {
        Direction::Left => {
        },
        Direction::Right => {
        },
        Direction::Up => {
        },
        Direction::Down => {
        },
    }
}

/// Mass conservation or reduction: a move never increases the number of
/// occupied cells, and keeps it exactly when no line merges a pair.
pub proof fn lemma_move_mass(b: Seq<u64>, d: Direction)
    requires
        b.len() == 16,
        all_tiles_fit(b),
    ensures
        count_nz(apply_spec(b, d)) <= count_nz(b),
        (count_nz(apply_spec(b, d)) == count_nz(b)) <==> (forall|li: int|
            0 <= li < 4 ==> merge_pairs(nonzeros(#[trigger] extract_line(b, d, li))) == nonzeros(
                extract_line(b, d, li),
            )),
{
    let a = apply_spec(b, d);
    lemma_count_lines(b, d);
    lemma_count_lines(a, d);
    assert forall|li: int| 0 <= li < 4 implies {
        let l = #[trigger] extract_line(b, d, li);
        count_nz(extract_line(a, d, li)) <= count_nz(l) && ((count_nz(extract_line(a, d, li))
            == count_nz(l)) <==> (merge_pairs(nonzeros(l)) == nonzeros(l)))
    } by {
        let l = extract_line(b, d, li);
        lemma_apply_lines(b, d, li);
        lemma_extract_fits(b, d, li);
        lemma_count_slid(l);
        lemma_count_nonzeros(l);
        lemma_merge_pairs_len_exact(nonzeros(l));
    }
    assert(count_nz(extract_line(a, d, 0)) <= count_nz(extract_line(b, d, 0)));
    assert(count_nz(extract_line(a, d, 1)) <= count_nz(extract_line(b, d, 1)));
    assert(count_nz(extract_line(a, d, 2)) <= count_nz(extract_line(b, d, 2)));
    assert(count_nz(extract_line(a, d, 3)) <= count_nz(extract_line(b, d, 3)));
}

/// Compaction correctness: after any move, every line of the board, read
/// in traversal order, has its non-zero tiles contiguous from the front
/// and only zeros after them.
pub proof fn lemma_move_compacts(b: Seq<u64>, d: Direction)
    requires
        b.len() == 16,
        all_tiles_fit(b),
    ensures
        forall|li: int| 0 <= li < 4 ==> compacted(#[trigger] extract_line(apply_spec(b, d), d, li)),
{
    assert forall|li: int| 0 <= li < 4 implies compacted(
        #[trigger] extract_line(apply_spec(b, d), d, li),
    ) by {
        lemma_apply_lines(b, d, li);
        lemma_extract_fits(b, d, li);
        lemma_slid_compacted(extract_line(b, d, li));
    }
}

/// Dropping the gaps keeps every cell value well formed.
proof fn lemma_nonzeros_valid(s: Seq<u64>)
    requires
        all_tiles_valid(s),
    ensures
        all_tiles_valid(nonzeros(s)),
    decreases s.len(),
{
    if s.len() > 0 {
        assert forall|i: int| 0 <= i < s.skip(1).len() implies valid_tile(
            #[trigger] s.skip(1)[i],
        ) by {
            assert(s.skip(1)[i] == s[i + 1]);
        }
        lemma_nonzeros_valid(s.skip(1));
        assert forall|i: int| 0 <= i < nonzeros(s).len() implies valid_tile(
            #[trigger] nonzeros(s)[i],
        ) by {
            if s[0] != 0 {
                assert(nonzeros(s) == seq![s[0]] + nonzeros(s.skip(1)));
                if i > 0 {
                    assert(nonzeros(s)[i] == nonzeros(s.skip(1))[i - 1]);
                }
            }
        }
    }
}

/// Merging keeps every cell value well formed: the double of a power of
/// two is the next power of two.
proof fn lemma_merge_pairs_valid(s: Seq<u64>)
    requires
        all_tiles_valid(s),
        all_tiles_fit(s),
    ensures
        all_tiles_valid(merge_pairs(s)),
    decreases s.len(),
{
    if s.len() > 1 {
        assert forall|i: int|
            0 <= i < s.skip(1).len() implies valid_tile(#[trigger] s.skip(1)[i]) && tile_fits(
            s.skip(1)[i],
        ) by {
            assert(s.skip(1)[i] == s[i + 1]);
        }
        assert forall|i: int|
            0 <= i < s.skip(2).len() implies valid_tile(#[trigger] s.skip(2)[i]) && tile_fits(
            s.skip(2)[i],
        ) by {
            assert(s.skip(2)[i] == s[i + 2]);
        }
        if s[0] == s[1] {
            lemma_merge_pairs_valid(s.skip(2));
            assert(valid_tile((2 * s[0]) as u64)) by {
                assert(valid_tile(s[0]) && tile_fits(s[0]));
                if s[0] != 0 {
                    assert(power_of_two(2 * (s[0] as int)));
                }
            }
            assert forall|i: int| 0 <= i < merge_pairs(s).len() implies valid_tile(
                #[trigger] merge_pairs(s)[i],
            ) by {
                assert(merge_pairs(s) == seq![(2 * s[0]) as u64] + merge_pairs(s.skip(2)));
                if i > 0 {
                    assert(merge_pairs(s)[i] == merge_pairs(s.skip(2))[i - 1]);
                }
            }
        } else {
            lemma_merge_pairs_valid(s.skip(1));
            assert forall|i: int| 0 <= i < merge_pairs(s).len() implies valid_tile(
                #[trigger] merge_pairs(s)[i],
            ) by {
                assert(merge_pairs(s) == seq![s[0]] + merge_pairs(s.skip(1)));
                if i > 0 {
                    assert(merge_pairs(s)[i] == merge_pairs(s.skip(1))[i - 1]);
                }
            }
        }
    }
}

/// Board invariant: a move keeps every cell empty or a genuine tile — a
/// power of two of at least 2 — since merging two equal tiles doubles
/// them into the next power of two.
pub proof fn lemma_move_tiles_valid(b: Seq<u64>, d: Direction)
    requires
        b.len() == 16,
        all_tiles_fit(b),
        all_tiles_valid(b),
    ensures
        all_tiles_valid(apply_spec(b, d)),
{
    lemma_indexing(d);
    assert forall|j: int| 0 <= j < 16 implies valid_tile(#[trigger] apply_spec(b, d)[j]) by {
        let li = line_of(d, j);
        let l = extract_line(b, d, li);
        assert forall|k: int|
            0 <= k < l.len() implies valid_tile(#[trigger] l[k]) && tile_fits(l[k]) by {
            assert(l[k] == b[line_index(d, li, k)]);
        }
        lemma_nonzeros_valid(l);
        lemma_nonzeros_elems(l);
        lemma_nonzeros_len(l);
        lemma_merge_pairs_valid(nonzeros(l));
        lemma_merge_pairs_len(nonzeros(l));
        let m = merge_pairs(nonzeros(l));
        assert(apply_spec(b, d)[j] == slid_line(l)[slot_of(d, j)]);
        if slot_of(d, j) >= m.len() {
            assert(slid_line(l)[slot_of(d, j)] == 0);
        }
    }
}

/// A line with no empty cell keeps all its cells when the gaps are
/// dropped.
proof fn lemma_nonzeros_full(s: Seq<u64>)
    requires
        forall|i: int| 0 <= i < s.len() ==> #[trigger] s[i] != 0,
    ensures
        nonzeros(s) == s,
    decreases s.len(),
{
    if s.len() > 0 {
        assert forall|i: int| 0 <= i < s.skip(1).len() implies #[trigger] s.skip(1)[i] != 0 by {
            assert(s.skip(1)[i] == s[i + 1]);
        }
        lemma_nonzeros_full(s.skip(1));
        assert(seq![s[0]] + s.skip(1) =~= s);
    }
}

/// The count of occupied cells never exceeds the length, and falls short
/// of it as soon as one cell is empty.
proof fn lemma_count_le_len(s: Seq<u64>)
    ensures
        count_nz(s) <= s.len(),
        (exists|i: int| 0 <= i < s.len() && s[i] == 0) ==> count_nz(s) < s.len(),
    decreases s.len(),
{
    if s.len() > 0 {
        lemma_count_le_len(s.skip(1));
        if exists|i: int| 0 <= i < s.len() && s[i] == 0 {
            let i = choose|i: int| 0 <= i < s.len() && s[i] == 0;
            if i > 0 {
                assert(s.skip(1)[i - 1] == 0);
            }
        }
    }
}

/// A move that changes the board always leaves at least one empty cell,
/// so the following spawn always finds a place for its tile.
pub proof fn lemma_changed_has_empty(b: Seq<u64>, d: Direction)
    requires
        b.len() == 16,
        all_tiles_fit(b),
        apply_spec(b, d) != b,
    ensures
        exists|i: int| 0 <= i < 16 && apply_spec(b, d)[i] == 0,
{
    let a = apply_spec(b, d);
    lemma_move_mass(b, d);
    if forall|i: int| 0 <= i < 16 ==> #[trigger] b[i] != 0 {
        if count_nz(a) == count_nz(b) {
            lemma_indexing(d);
            assert forall|j: int| 0 <= j < 16 implies a[j] == b[j] by {
                let li = line_of(d, j);
                let l = extract_line(b, d, li);
                assert forall|k: int| 0 <= k < 4 implies #[trigger] l[k] != 0 by {
                    assert(l[k] == b[line_index(d, li, k)]);
                }
                lemma_nonzeros_full(l);
                assert(merge_pairs(nonzeros(l)) == nonzeros(l));
                assert(slid_line(l) =~= l);
                assert(a[j] == slid_line(l)[slot_of(d, j)]);
            }
            assert(a =~= b);
        }
        lemma_count_full(b);
        if forall|i: int| 0 <= i < 16 ==> #[trigger] a[i] != 0 {
            lemma_count_full(a);
        }
    } else {
        lemma_count_le_len(b);
        if forall|i: int| 0 <= i < 16 ==> #[trigger] a[i] != 0 {
            lemma_count_full(a);
        }
    }
}

/// Direction symmetry, horizontal: a line and its reverse, moved in
/// opposite horizontal directions, give mirror-image results — moving the
/// mirrored board left is the mirror of moving the board right, and the
/// other way round.
pub proof fn lemma_mirror_horizontal(b: Seq<u64>)
    requires
        b.len() == 16,
    ensures
        apply_spec(mirror_rows(b), Direction::Left) == mirror_rows(apply_spec(b, Direction::Right)),
        apply_spec(mirror_rows(b), Direction::Right) == mirror_rows(apply_spec(b, Direction::Left)),
{
    lemma_mirror_one(b, Direction::Left);
    lemma_mirror_one(b, Direction::Right);
}

/// Direction symmetry, vertical: flipping the rows swaps the effect of Up
/// and Down in the same way.
pub proof fn lemma_mirror_vertical(b: Seq<u64>)
    requires
        b.len() == 16,
    ensures
        apply_spec(flip_rows(b), Direction::Up) == flip_rows(apply_spec(b, Direction::Down)),
        apply_spec(flip_rows(b), Direction::Down) == flip_rows(apply_spec(b, Direction::Up)),
{
    lemma_mirror_one(b, Direction::Up);
    lemma_mirror_one(b, Direction::Down);
}

/// The image of a board cell under the reflection that pairs `d` with its
/// opposite direction.
spec fn reflect(d: Direction, j: int) -> int {
    match d {
        Direction::Left | Direction::Right => 4 * (j / 4) + 3 - j % 4,
        Direction::Up | Direction::Down => 4 * (3 - j / 4) + j % 4,
    }
}

/// The reflected board for the axis of `d`.
spec fn reflected(d: Direction, b: Seq<u64>) -> Seq<u64> {
    match d {
        Direction::Left | Direction::Right => mirror_rows(b),
        Direction::Up | Direction::Down => flip_rows(b),
    }
}

/// The direction with the same axis as `d` and the opposite sense.
spec fn opposite(d: Direction) -> Direction {
    match d {
        Direction::Left => Direction::Right,
        Direction::Right => Direction::Left,
        Direction::Up => Direction::Down,
        Direction::Down => Direction::Up,
    }
}

/// One half of the symmetry: moving the reflected board toward `d` is the
/// reflection of moving the board toward the opposite of `d`.
proof fn lemma_mirror_one(b: Seq<u64>, d: Direction)
    requires
        b.len() == 16,
    ensures
        apply_spec(reflected(d, b), d) == reflected(d, apply_spec(b, opposite(d))),
{
    let o = opposite(d);
    let m = reflected(d, b);
    lemma_indexing(d);
    lemma_indexing(o);
    assert forall|li: int| 0 <= li < 4 implies extract_line(m, d, li) == extract_line(
        b,
        o,
        li,
    ) by {
        assert forall|k: int| 0 <= k < 4 implies extract_line(m, d, li)[k] == extract_line(
            b,
            o,
            li,
        )[k] by {
            let j = line_index(d, li, k);
            assert(extract_line(m, d, li)[k] == m[j]);
            assert(m[j] == b[reflect(d, j)]);
            assert(reflect(d, j) == line_index(o, li, k));
        }
        assert(extract_line(m, d, li) =~= extract_line(b, o, li));
    }
    assert forall|j: int| 0 <= j < 16 implies apply_spec(m, d)[j] == reflected(
        d,
        apply_spec(b, o),
    )[j] by {
        let rj = reflect(d, j);
        assert(reflected(d, apply_spec(b, o))[j] == apply_spec(b, o)[rj]);
        assert(line_of(o, rj) == line_of(d, j));
        assert(slot_of(o, rj) == slot_of(d, j));
    }
    assert(apply_spec(m, d) =~= reflected(d, apply_spec(b, o)));
}

} // verus!
