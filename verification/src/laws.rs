//! The engine's laws, stated over the model and proved once and for all.
//!
//! Each proof function here relates the specification functions that the
//! public operations' contracts use, so what it states holds of every call
//! of those operations.

use vstd::prelude::*;

use crate::model::{
    lemma_compacted_packed, lemma_grid_rowcol, lemma_line_vals_len, lemma_line_vals_member,
    lemma_mp_len, lemma_mp_member, lemma_mp_no_adjacent, lemma_move_spec_line, lemma_oline_index,
    lemma_line_total4, lemma_line_vals_count, lemma_pos_roundtrip, lemma_rev_line4,
    lemma_slid_line_measures, line_compacted, line_idx, line_vals, merge_pairs, move_spec,
    no_adjacent_equal, oline, opos, packed_line, rev_line, row_of, col_of, settled, slid_line,
    slot_idx, spawn_step, terminal_spec, tile_count, tile_total, Direction,
};

verus! {

/// A move conserves the sum of all tile values exactly (two merged tiles of
/// value v become one tile of value 2v), never increases the number of
/// tiles, and removes at most half of them: every merge consumes exactly
/// two tiles, so no tile merges twice in one move.
pub proof fn lemma_move_conserves(g: Seq<Option<int>>, d: Direction)
    requires
        g.len() == 16,
    ensures
        tile_total(move_spec(g, d)) == tile_total(g),
        tile_count(move_spec(g, d)) <= tile_count(g),
        2 * tile_count(move_spec(g, d)) >= tile_count(g),
{
    let ms = move_spec(g, d);
    assert(ms.len() == 16);
    lemma_move_spec_line(g, d, 0);
    assert(oline(g, d, 0).len() == 4);
    lemma_slid_line_measures(oline(g, d, 0));
    lemma_move_spec_line(g, d, 1);
    assert(oline(g, d, 1).len() == 4);
    lemma_slid_line_measures(oline(g, d, 1));
    lemma_move_spec_line(g, d, 2);
    assert(oline(g, d, 2).len() == 4);
    lemma_slid_line_measures(oline(g, d, 2));
    lemma_move_spec_line(g, d, 3);
    assert(oline(g, d, 3).len() == 4);
    lemma_slid_line_measures(oline(g, d, 3));
    lemma_grid_rowcol(g);
    lemma_grid_rowcol(ms);
    match d {
        Direction::Left => {
            assert(oline(ms, d, 0) == row_of(ms, 0) && oline(g, d, 0) == row_of(g, 0));
            assert(oline(ms, d, 1) == row_of(ms, 1) && oline(g, d, 1) == row_of(g, 1));
            assert(oline(ms, d, 2) == row_of(ms, 2) && oline(g, d, 2) == row_of(g, 2));
            assert(oline(ms, d, 3) == row_of(ms, 3) && oline(g, d, 3) == row_of(g, 3));
        },
        Direction::Right => {
            lemma_rev_line4(row_of(ms, 0));
            lemma_rev_line4(row_of(g, 0));
            assert(oline(ms, d, 0) == rev_line(row_of(ms, 0)) && oline(g, d, 0) == rev_line(row_of(g, 0)));
            lemma_rev_line4(row_of(ms, 1));
            lemma_rev_line4(row_of(g, 1));
            assert(oline(ms, d, 1) == rev_line(row_of(ms, 1)) && oline(g, d, 1) == rev_line(row_of(g, 1)));
            lemma_rev_line4(row_of(ms, 2));
            lemma_rev_line4(row_of(g, 2));
            assert(oline(ms, d, 2) == rev_line(row_of(ms, 2)) && oline(g, d, 2) == rev_line(row_of(g, 2)));
            lemma_rev_line4(row_of(ms, 3));
            lemma_rev_line4(row_of(g, 3));
            assert(oline(ms, d, 3) == rev_line(row_of(ms, 3)) && oline(g, d, 3) == rev_line(row_of(g, 3)));
        },
        Direction::Up => {
            assert(oline(ms, d, 0) == col_of(ms, 0) && oline(g, d, 0) == col_of(g, 0));
            assert(oline(ms, d, 1) == col_of(ms, 1) && oline(g, d, 1) == col_of(g, 1));
            assert(oline(ms, d, 2) == col_of(ms, 2) && oline(g, d, 2) == col_of(g, 2));
            assert(oline(ms, d, 3) == col_of(ms, 3) && oline(g, d, 3) == col_of(g, 3));
        },
        Direction::Down => {
            lemma_rev_line4(col_of(ms, 0));
            lemma_rev_line4(col_of(g, 0));
            assert(oline(ms, d, 0) == rev_line(col_of(ms, 0)) && oline(g, d, 0) == rev_line(col_of(g, 0)));
            lemma_rev_line4(col_of(ms, 1));
            lemma_rev_line4(col_of(g, 1));
            assert(oline(ms, d, 1) == rev_line(col_of(ms, 1)) && oline(g, d, 1) == rev_line(col_of(g, 1)));
            lemma_rev_line4(col_of(ms, 2));
            lemma_rev_line4(col_of(g, 2));
            assert(oline(ms, d, 2) == rev_line(col_of(ms, 2)) && oline(g, d, 2) == rev_line(col_of(g, 2)));
            lemma_rev_line4(col_of(ms, 3));
            lemma_rev_line4(col_of(g, 3));
            assert(oline(ms, d, 3) == rev_line(col_of(ms, 3)) && oline(g, d, 3) == rev_line(col_of(g, 3)));
        },
    }
}

/// Every value on the grid after a move was already present before the move
/// or is the exact double of a value that was: merges are the only change a
/// move makes to the values.
pub proof fn lemma_move_value_provenance(g: Seq<Option<int>>, d: Direction, k: int)
    requires
        g.len() == 16,
        0 <= k < 16,
        move_spec(g, d)[k] is Some,
    ensures
        exists|k2: int|
            0 <= k2 < 16 && ((#[trigger] g[k2]) == move_spec(g, d)[k] || (g[k2] matches Some(w)
                && move_spec(g, d)[k] == Some(2 * w))),
{
    let ms = move_spec(g, d);
    lemma_pos_roundtrip(d, k);
    let i = line_idx(d, k);
    let sl = slot_idx(d, k);
    let l = oline(g, d, i);
    assert(l.len() == 4);
    let m = merge_pairs(line_vals(l));
    lemma_line_vals_len(l);
    lemma_mp_len(line_vals(l));
    assert(ms[k] == packed_line(m, 4)[sl]);
    assert(sl < m.len());
    let v = m[sl];
    assert(ms[k] == Some(v));
    lemma_mp_member(line_vals(l), sl);
    let t = choose|t: int|
        0 <= t < line_vals(l).len() && (line_vals(l)[t] == merge_pairs(line_vals(l))[sl]
            || merge_pairs(line_vals(l))[sl] == 2 * line_vals(l)[t]);
    lemma_line_vals_member(l, t);
    let j = choose|j: int| 0 <= j < l.len() && l[j] == Some(line_vals(l)[t]);
    lemma_oline_index(g, d, i, j);
    let k2 = opos(d, i, j);
    assert(g[k2] == Some(line_vals(l)[t]));
    assert(0 <= k2 < 16 && (g[k2] == ms[k] || (g[k2] matches Some(w) && ms[k] == Some(2 * w))));
}

/// A move on a grid whose lines are already compacted against the
/// destination edge, with no mergeable pair, changes nothing.
pub proof fn lemma_settled_move_is_noop(g: Seq<Option<int>>, d: Direction)
    requires
        g.len() == 16,
        settled(g, d),
    ensures
        move_spec(g, d) == g,
{
    assert forall|k: int| 0 <= k < 16 implies move_spec(g, d)[k] == g[k] by {
        lemma_pos_roundtrip(d, k);
        let i = line_idx(d, k);
        let sl = slot_idx(d, k);
        let l = oline(g, d, i);
        assert(line_compacted(l) && no_adjacent_equal(line_vals(l)));
        lemma_mp_no_adjacent(line_vals(l));
        lemma_compacted_packed(l);
        assert(l.len() == 4);
        assert(slid_line(l) == l);
        lemma_oline_index(g, d, i, sl);
        assert(move_spec(g, d)[k] == l[sl]);
        assert(opos(d, i, sl) == k);
    }
    assert(move_spec(g, d) =~= g);
}

/// On a grid with exactly one empty cell, a spawn fills exactly that cell,
/// with a 2 or a 4, and leaves every other cell as it was.
pub proof fn lemma_spawn_fills_unique_empty(g: Seq<Option<u32>>, h: Seq<Option<u32>>, j: int)
    requires
        g.len() == 16,
        0 <= j < 16,
        g[j] is None,
        forall|k: int| 0 <= k < 16 && k != j ==> (#[trigger] g[k]) is Some,
        spawn_step(g, h),
    ensures
        h[j] == Some(2u32) || h[j] == Some(4u32),
        forall|k: int| 0 <= k < 16 && k != j ==> #[trigger] h[k] == g[k],
{
    let k0 = choose|k: int|
        0 <= k < 16 && (#[trigger] g[k]) is None && (h == g.update(k, Some(2u32)) || h == g.update(
            k,
            Some(4u32),
        ));
    assert(k0 == j);
}

/// A terminal grid is settled in every direction, so no move can change it:
/// the terminal predicate is sufficient for "no legal move exists".
pub proof fn lemma_terminal_no_move(g: Seq<Option<int>>, d: Direction)
    requires
        g.len() == 16,
        terminal_spec(g),
    ensures
        move_spec(g, d) == g,
{
    assert forall|i: int|
        0 <= i < 4 implies line_compacted(#[trigger] oline(g, d, i)) && no_adjacent_equal(
        line_vals(oline(g, d, i)),
    ) by {
        let l = oline(g, d, i);
        assert(l.len() == 4);
        assert forall|j: int| 0 <= j < 4 implies (#[trigger] l[j]) is Some by {
            lemma_oline_index(g, d, i, j);
            assert(g[opos(d, i, j)] is Some);
        }
        assert(line_compacted(l));
        lemma_compacted_packed(l);
        lemma_line_vals_count(l);
        lemma_line_total4(l);
        assert(line_vals(l).len() == 4);
        assert forall|j: int| 0 <= j < 4 implies l[j] == Some(line_vals(l)[j]) by {
            assert(packed_line(line_vals(l), 4)[j] == l[j]);
        }
        assert forall|t: int|
            0 <= t < line_vals(l).len() - 1 implies line_vals(l)[t] != #[trigger] line_vals(
            l,
        )[t + 1] by {
            lemma_oline_index(g, d, i, t);
            lemma_oline_index(g, d, i, t + 1);
            match d {
                Direction::Left => {
                    assert(g[4 * i + t] != g[4 * i + t + 1]);
                },
                Direction::Right => {
                    assert(g[4 * i + (2 - t)] != g[4 * i + (2 - t) + 1]);
                },
                Direction::Up => {
                    assert(g[4 * t + i] != g[4 * (t + 1) + i]);
                },
                Direction::Down => {
                    assert(g[4 * (2 - t) + i] != g[4 * ((2 - t) + 1) + i]);
                },
            }
            assert(l[t] != l[t + 1]);
        }
    }
    lemma_settled_move_is_noop(g, d);
}

} // verus!
