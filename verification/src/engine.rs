//! The move engine: directional compaction with merging, and the terminal
//! predicate.
//!
//! Every move works line by line: the line is read with its destination edge
//! first, its tiles are slid and merged by `slide_line`, and the result is
//! written back. `slide_line` is verified against the model's `slid_line`.

use vstd::prelude::*;

use crate::board::Board;
use crate::model::{
    cells_ok, lemma_line_vals_len, lemma_mp_len, lemma_oline_index, lemma_opos_roundtrip,
    lemma_pos_roundtrip, lemma_pow2_double, line_idx, line_vals, merge_pairs, move_spec, oline,
    opos, packed_line, pow2_val, slid_line, slot_idx, terminal_spec, to_ints, vals_at_most, widen,
    Direction,
};

verus! {

/// Slide and merge one line of four cells toward index 0: the non-empty
/// values are compacted against the edge and merged pairwise, each merge
/// result barred from merging again. Also reports whether the line changed.
fn slide_line(line: &Vec<Option<u32>>) -> (res: (Vec<Option<u32>>, bool))
    requires
        line@.len() == 4,
        forall|j: int|
            0 <= j < 4 ==> (#[trigger] line@[j] matches Some(v) ==> pow2_val(v as int) && 2 <= v
                && v <= 0x4000_0000),
    ensures
        res.0@.len() == 4,
        to_ints(res.0@) == slid_line(to_ints(line@)),
        forall|j: int|
            0 <= j < 4 ==> (#[trigger] res.0@[j] matches Some(v) ==> pow2_val(v as int) && 2 <= v),
        res.1 == (res.0@ != line@),
{
    let ghost li = to_ints(line@);
    proof {
        assert(li.skip(0) =~= li);
    }
    // Gather the non-empty values, nearest the destination edge first.
    let mut vals: Vec<u32> = Vec::new();
    let mut j: usize = 0;
    while j < 4
        invariant
            j <= 4,
            line@.len() == 4,
            li == to_ints(line@),
            forall|t: int|
                0 <= t < 4 ==> (#[trigger] line@[t] matches Some(v) ==> pow2_val(v as int) && 2 <= v
                    && v <= 0x4000_0000),
            widen(vals@) + line_vals(li.skip(j as int)) == line_vals(li),
            forall|t: int|
                0 <= t < vals@.len() ==> pow2_val(#[trigger] vals@[t] as int) && 2 <= vals@[t]
                    && vals@[t] <= 0x4000_0000,
        decreases 4 - j,
    {
        let ghost ji = j as int;
        proof {
            assert(li.skip(ji)[0] == li[ji]);
            assert(li.skip(ji).skip(1) =~= li.skip(ji + 1));
        }
        let c = line[j];
        match c {
            Some(v) => {
                let ghost prev = vals@;
                vals.push(v);
                proof {
                    assert(li[ji] == Some(v as int));
                    assert(line_vals(li.skip(ji)) == seq![v as int] + line_vals(li.skip(ji + 1)));
                    assert(widen(vals@) =~= widen(prev) + seq![v as int]);
                    assert((widen(prev) + seq![v as int]) + line_vals(li.skip(ji + 1)) =~= widen(
                        prev,
                    ) + (seq![v as int] + line_vals(li.skip(ji + 1))));
                }
            },
            None => {
                proof {
                    assert(li[ji] is None);
                }
            },
        }
        j += 1;
    }
    proof {
        assert(li.skip(4) =~= Seq::<Option<int>>::empty());
        assert(widen(vals@) + line_vals(li.skip(4)) =~= widen(vals@));
        assert(widen(vals@) == line_vals(li));
        lemma_line_vals_len(li);
        assert(vals@.len() == widen(vals@).len());
    }
    // Merge equal neighbours pairwise, never reusing a merge result.
    let ghost vs = widen(vals@);
    let mut merged: Vec<u32> = Vec::new();
    let mut idx: usize = 0;
    proof {
        assert(vs.skip(0) =~= vs);
        assert(widen(merged@) =~= Seq::<int>::empty());
        assert(widen(merged@) + merge_pairs(vs.skip(0)) =~= merge_pairs(vs));
    }
    while idx < vals.len()
        invariant
            idx <= vals@.len(),
            vals@.len() <= 4,
            vs == widen(vals@),
            forall|t: int|
                0 <= t < vals@.len() ==> pow2_val(#[trigger] vals@[t] as int) && 2 <= vals@[t]
                    && vals@[t] <= 0x4000_0000,
            merge_pairs(vs) == widen(merged@) + merge_pairs(vs.skip(idx as int)),
            forall|t: int|
                0 <= t < merged@.len() ==> pow2_val(#[trigger] merged@[t] as int) && 2 <= merged@[t],
        decreases vals@.len() - idx,
    {
        let v = vals[idx];
        let ghost i0 = idx as int;
        let ghost prev = merged@;
        proof {
            assert(vs.skip(i0)[0] == vs[i0]);
            assert(vs[i0] == v as int);
        }
        if idx + 1 < vals.len() && vals[idx + 1] == v {
            proof {
                assert(vs.skip(i0)[1] == vs[i0 + 1]);
                assert(vs.skip(i0).skip(2) =~= vs.skip(i0 + 2));
                assert(merge_pairs(vs.skip(i0)) == seq![2 * vs[i0]] + merge_pairs(vs.skip(i0 + 2)));
            }
            merged.push(2 * v);
            proof {
                lemma_pow2_double(v as int);
                assert(widen(merged@) =~= widen(prev) + seq![2 * (v as int)]);
                assert((widen(prev) + seq![2 * (v as int)]) + merge_pairs(vs.skip(i0 + 2)) =~= widen(
                    prev,
                ) + (seq![2 * (v as int)] + merge_pairs(vs.skip(i0 + 2))));
            }
            idx += 2;
        } else {
            proof {
                if vs.skip(i0).len() > 1 {
                    assert(vs.skip(i0)[1] == vs[i0 + 1]);
                    assert(vs.skip(i0).skip(1) =~= vs.skip(i0 + 1));
                    assert(merge_pairs(vs.skip(i0)) == seq![vs[i0]] + merge_pairs(vs.skip(i0 + 1)));
                } else {
                    assert(vs.skip(i0) =~= seq![vs[i0]]);
                    assert(vs.skip(i0 + 1) =~= Seq::<int>::empty());
                    assert(merge_pairs(vs.skip(i0)) == seq![vs[i0]] + merge_pairs(vs.skip(i0 + 1)));
                }
            }
            merged.push(v);
            proof {
                assert(widen(merged@) =~= widen(prev) + seq![v as int]);
                assert((widen(prev) + seq![v as int]) + merge_pairs(vs.skip(i0 + 1)) =~= widen(prev)
                    + (seq![v as int] + merge_pairs(vs.skip(i0 + 1))));
            }
            idx += 1;
        }
    }
    proof {
        assert(vs.skip(vals@.len() as int) =~= Seq::<int>::empty());
        assert(widen(merged@) + merge_pairs(vs.skip(vals@.len() as int)) =~= widen(merged@));
        assert(widen(merged@) == merge_pairs(vs));
        lemma_mp_len(vs);
        assert(merged@.len() == widen(merged@).len());
        assert(merged@.len() <= 4);
    }
    // Pack the merged values against the destination edge.
    let mut out: Vec<Option<u32>> = Vec::new();
    let mut j2: usize = 0;
    while j2 < 4
        invariant
            j2 <= 4,
            out@.len() == j2,
            merged@.len() <= 4,
            forall|t: int|
                0 <= t < merged@.len() ==> pow2_val(#[trigger] merged@[t] as int) && 2 <= merged@[t],
            forall|t: int|
                0 <= t < j2 ==> #[trigger] out@[t] == (if t < merged@.len() {
                    Some(merged@[t])
                } else {
                    None::<u32>
                }),
        decreases 4 - j2,
    {
        if j2 < merged.len() {
            out.push(Some(merged[j2]));
        } else {
            out.push(None);
        }
        j2 += 1;
    }
    proof {
        assert(li.len() == 4);
        assert(to_ints(out@) =~= packed_line(widen(merged@), 4));
        assert(to_ints(out@) == slid_line(li));
    }
    // Report whether the line changed.
    let mut changed = false;
    let mut j3: usize = 0;
    while j3 < 4
        invariant
            j3 <= 4,
            out@.len() == 4,
            line@.len() == 4,
            changed == (exists|t: int| 0 <= t < j3 && #[trigger] out@[t] != line@[t]),
        decreases 4 - j3,
    {
        let a = out[j3];
        let b = line[j3];
        let same = match (a, b) {
            (Option::Some(x), Option::Some(y)) => x == y,
            (Option::None, Option::None) => true,
            _ => false,
        };
        proof {
            if !same {
                assert(out@[j3 as int] != line@[j3 as int]);
            }
        }
        if !same {
            changed = true;
        }
        j3 += 1;
    }
    proof {
        if changed {
            let t = choose|t: int| 0 <= t < 3 + 1 && #[trigger] out@[t] != line@[t];
            assert(out@[t] != line@[t]);
            assert(out@ != line@);
        } else {
            assert(out@ =~= line@);
        }
    }
    (out, changed)
}

impl Board {
    /// Apply one directional move: every line is compacted and merged toward
    /// the destination edge. Returns true exactly when some cell changed;
    /// a move that changes nothing leaves the grid untouched.
    pub fn apply_move(&mut self, d: Direction) -> (moved: bool)
        requires
            old(self).wf(),
            vals_at_most(old(self)@, 0x4000_0000),
        ensures
            final(self).wf(),
            to_ints(final(self)@) == move_spec(to_ints(old(self)@), d),
            moved == (final(self)@ != old(self)@),
    {
        let ghost g = to_ints(old(self)@);
        let mut moved = false;
        let mut i: usize = 0;
        while i < 4
            invariant
                i <= 4,
                self@.len() == 16,
                old(self).wf(),
                vals_at_most(old(self)@, 0x4000_0000),
                g == to_ints(old(self)@),
                cells_ok(self@),
                forall|k: int|
                    0 <= k < 16 && line_idx(d, k) < i ==> #[trigger] to_ints(self@)[k] == move_spec(
                        g,
                        d,
                    )[k],
                forall|k: int|
                    0 <= k < 16 && line_idx(d, k) >= i ==> #[trigger] self@[k] == old(self)@[k],
                moved == (exists|k: int|
                    0 <= k < 16 && line_idx(d, k) < i && #[trigger] self@[k] != old(self)@[k]),
            decreases 4 - i,
        {
            let ghost ii = i as int;
            let line = self.read_line(d, i);
            proof {
                assert forall|j: int| 0 <= j < 4 implies #[trigger] line@[j] == old(self)@[opos(
                    d,
                    ii,
                    j,
                )] by {
                    lemma_opos_roundtrip(d, ii, j);
                }
                assert(to_ints(line@) =~= oline(g, d, ii)) by {
                    assert forall|j: int| 0 <= j < 4 implies to_ints(line@)[j] == oline(g, d, ii)[j] by {
                        lemma_oline_index(g, d, ii, j);
                        lemma_opos_roundtrip(d, ii, j);
                    }
                }
                assert forall|j: int|
                    0 <= j < 4 implies (#[trigger] line@[j] matches Some(v) ==> pow2_val(v as int)
                        && 2 <= v && v <= 0x4000_0000) by {
                    lemma_opos_roundtrip(d, ii, j);
                    assert(line@[j] == old(self)@[opos(d, ii, j)]);
                }
            }
            let (out, ch) = slide_line(&line);
            let ghost pre = self@;
            self.write_line(d, i, &out);
            if ch {
                moved = true;
            }
            proof {
                assert forall|k: int|
                    0 <= k < 16 && line_idx(d, k) < ii + 1 implies #[trigger] to_ints(self@)[k]
                        == move_spec(g, d)[k] by {
                    lemma_pos_roundtrip(d, k);
                    let s = slot_idx(d, k);
                    if line_idx(d, k) == ii {
                        assert(self@[opos(d, ii, s)] == out@[s]);
                        assert(to_ints(self@)[k] == to_ints(out@)[s]);
                        assert(move_spec(g, d)[k] == slid_line(oline(g, d, ii))[s]);
                    } else {
                        assert(self@[k] == pre[k]);
                        assert(to_ints(pre)[k] == move_spec(g, d)[k]);
                    }
                }
                assert forall|k: int|
                    0 <= k < 16 && line_idx(d, k) >= ii + 1 implies #[trigger] self@[k] == old(
                        self,
                    )@[k] by {
                    assert(self@[k] == pre[k]);
                }
                assert forall|k: int| 0 <= k < 16 implies (#[trigger] self@[k] matches Some(v)
                    ==> pow2_val(v as int) && 2 <= v) by {
                    lemma_pos_roundtrip(d, k);
                    let s = slot_idx(d, k);
                    if line_idx(d, k) == ii {
                        assert(self@[opos(d, ii, s)] == out@[s]);
                    } else {
                        assert(self@[k] == pre[k]);
                    }
                }
                if ch {
                    assert(exists|t: int| 0 <= t < 4 && #[trigger] out@[t] != line@[t]) by {
                        if forall|t: int| 0 <= t < 4 ==> #[trigger] out@[t] == line@[t] {
                            assert(out@ =~= line@);
                        }
                    }
                    let t = choose|t: int| 0 <= t < 4 && #[trigger] out@[t] != line@[t];
                    lemma_opos_roundtrip(d, ii, t);
                    assert(self@[opos(d, ii, t)] == out@[t]);
                    assert(old(self)@[opos(d, ii, t)] == line@[t]);
                    assert(0 <= opos(d, ii, t) < 16 && line_idx(d, opos(d, ii, t)) < ii + 1
                        && self@[opos(d, ii, t)] != old(self)@[opos(d, ii, t)]);
                } else {
                    assert(out@ =~= line@);
                    assert forall|k: int|
                        0 <= k < 16 && line_idx(d, k) < ii + 1 && #[trigger] self@[k] != old(
                            self,
                        )@[k] implies line_idx(d, k) < ii && pre[k] != old(self)@[k] by {
                        lemma_pos_roundtrip(d, k);
                        let s = slot_idx(d, k);
                        if line_idx(d, k) == ii {
                            assert(self@[opos(d, ii, s)] == out@[s]);
                            assert(out@[s] == line@[s]);
                            assert(line@[s] == old(self)@[opos(d, ii, s)]);
                        } else {
                            assert(self@[k] == pre[k]);
                        }
                    }
                    assert forall|k: int|
                        0 <= k < 16 && line_idx(d, k) < ii && #[trigger] pre[k] != old(self)@[k]
                        implies self@[k] != old(self)@[k] by {
                        lemma_pos_roundtrip(d, k);
                        assert(self@[k] == pre[k]);
                    }
                }
            }
            i += 1;
        }
        proof {
            assert forall|k: int| 0 <= k < 16 implies line_idx(d, k) < 4 by {
                lemma_pos_roundtrip(d, k);
            }
            assert(to_ints(self@) =~= move_spec(g, d));
            if moved {
                let k = choose|k: int|
                    0 <= k < 16 && line_idx(d, k) < 4 && #[trigger] self@[k] != old(self)@[k];
                assert(self@ != old(self)@);
            } else {
                assert(self@ =~= old(self)@);
            }
        }
        moved
    }
}

impl Board {
    /// Move all tiles up; true exactly when some cell changed.
    pub fn move_up(&mut self) -> (moved: bool)
        requires
            old(self).wf(),
            vals_at_most(old(self)@, 0x4000_0000),
        ensures
            final(self).wf(),
            to_ints(final(self)@) == move_spec(to_ints(old(self)@), Direction::Up),
            moved == (final(self)@ != old(self)@),
    {
        self.apply_move(Direction::Up)
    }

    /// Move all tiles left; true exactly when some cell changed.
    pub fn move_left(&mut self) -> (moved: bool)
        requires
            old(self).wf(),
            vals_at_most(old(self)@, 0x4000_0000),
        ensures
            final(self).wf(),
            to_ints(final(self)@) == move_spec(to_ints(old(self)@), Direction::Left),
            moved == (final(self)@ != old(self)@),
    {
        self.apply_move(Direction::Left)
    }

    /// Move all tiles down; true exactly when some cell changed.
    pub fn move_down(&mut self) -> (moved: bool)
        requires
            old(self).wf(),
            vals_at_most(old(self)@, 0x4000_0000),
        ensures
            final(self).wf(),
            to_ints(final(self)@) == move_spec(to_ints(old(self)@), Direction::Down),
            moved == (final(self)@ != old(self)@),
    {
        self.apply_move(Direction::Down)
    }

    /// Move all tiles right; true exactly when some cell changed.
    pub fn move_right(&mut self) -> (moved: bool)
        requires
            old(self).wf(),
            vals_at_most(old(self)@, 0x4000_0000),
        ensures
            final(self).wf(),
            to_ints(final(self)@) == move_spec(to_ints(old(self)@), Direction::Right),
            moved == (final(self)@ != old(self)@),
    {
        self.apply_move(Direction::Right)
    }

    /// The game is over exactly when the grid is full and no two adjacent
    /// cells (checked rightward and downward) hold equal values.
    pub fn is_game_over(&self) -> (over: bool)
        requires
            self.wf(),
        ensures
            over == terminal_spec(to_ints(self@)),
    {
        let ghost gi = to_ints(self@);
        let mut row: usize = 0;
        while row < 4
            invariant
                row <= 4,
                self.wf(),
                gi == to_ints(self@),
                forall|r: int, c: int|
                    0 <= r < row && 0 <= c < 4 ==> (#[trigger] gi[4 * r + c]) is Some,
                forall|r: int, c: int|
                    0 <= r < row && r < 3 && 0 <= c < 4 ==> #[trigger] gi[4 * r + c] != gi[4 * (r
                        + 1) + c],
                forall|r: int, c: int|
                    0 <= r < row && 0 <= c < 3 ==> #[trigger] gi[4 * r + c] != gi[4 * r + c + 1],
            decreases 4 - row,
        {
            let mut col: usize = 0;
            while col < 4
                invariant
                    row < 4,
                    col <= 4,
                    self.wf(),
                    gi == to_ints(self@),
                    forall|r: int, c: int|
                        0 <= r < row && 0 <= c < 4 ==> (#[trigger] gi[4 * r + c]) is Some,
                    forall|r: int, c: int|
                        0 <= r < row && r < 3 && 0 <= c < 4 ==> #[trigger] gi[4 * r + c] != gi[4 * (
                        r + 1) + c],
                    forall|r: int, c: int|
                        0 <= r < row && 0 <= c < 3 ==> #[trigger] gi[4 * r + c] != gi[4 * r + c
                            + 1],
                    forall|c: int| 0 <= c < col ==> (#[trigger] gi[4 * row as int + c]) is Some,
                    forall|c: int|
                        0 <= c < col && row < 3 ==> #[trigger] gi[4 * row as int + c] != gi[4 * (
                        row as int + 1) + c],
                    forall|c: int|
                        0 <= c < col && c < 3 ==> #[trigger] gi[4 * row as int + c] != gi[4
                            * row as int + c + 1],
                decreases 4 - col,
            {
                let here = self.cell(row, col);
                if here.is_none() {
                    proof {
                        assert(gi[4 * row as int + col as int] is None);
                        assert(!terminal_spec(gi));
                    }
                    return false;
                }
                if row < 3 {
                    let below = self.cell(row + 1, col);
                    if cells_equal(here, below) {
                        proof {
                            assert(gi[4 * row as int + col as int] == gi[4 * (row as int + 1)
                                + col as int]);
                            assert(!terminal_spec(gi));
                        }
                        return false;
                    }
                }
                if col < 3 {
                    let right = self.cell(row, col + 1);
                    if cells_equal(here, right) {
                        proof {
                            assert(gi[4 * row as int + col as int] == gi[4 * row as int
                                + col as int + 1]);
                            assert(!terminal_spec(gi));
                        }
                        return false;
                    }
                }
                col += 1;
            }
            proof {
                assert forall|r: int, c: int|
                    0 <= r < row as int + 1 && 0 <= c < 4 implies (#[trigger] gi[4 * r + c])
                    is Some by {
                    if r == row as int {
                        assert(gi[4 * row as int + c] is Some);
                    }
                }
                assert forall|r: int, c: int|
                    0 <= r < row as int + 1 && r < 3 && 0 <= c < 4 implies #[trigger] gi[4 * r + c]
                    != gi[4 * (r + 1) + c] by {
                    if r == row as int {
                        assert(gi[4 * row as int + c] != gi[4 * (row as int + 1) + c]);
                    }
                }
                assert forall|r: int, c: int|
                    0 <= r < row as int + 1 && 0 <= c < 3 implies #[trigger] gi[4 * r + c] != gi[4
                    * r + c + 1] by {
                    if r == row as int {
                        assert(gi[4 * row as int + c] != gi[4 * row as int + c + 1]);
                    }
                }
            }
            row += 1;
        }
        proof {
            assert forall|k: int| 0 <= k < 16 implies (#[trigger] gi[k]) is Some by {
                let r = k / 4;
                let c = k % 4;
                assert(k == 4 * r + c);
                assert(gi[4 * r + c] is Some);
            }
        }
        true
    }
}

/// Equality of two cells, decided on their contents.
fn cells_equal(a: Option<u32>, b: Option<u32>) -> (r: bool)
    ensures
        r == (a == b),
{
    match (a, b) {
        (Option::Some(x), Option::Some(y)) => x == y,
        (Option::None, Option::None) => true,
        _ => false,
    }
}

} // verus!
