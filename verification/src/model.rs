//! Mathematical model of the grid and of directional moves.
//!
//! A grid is modelled as a flat row-major sequence of 16 optional `int`
//! values (`None` is an empty cell). A move is specified line by line: the
//! non-empty values of a line, read from the destination edge outward, are
//! merged pairwise (`merge_pairs`) and packed back against that edge.

use vstd::prelude::*;

verus! {

/// The four directions a move can take; they fix the axis and the
/// destination edge of the compaction.
#[derive(Clone, Copy, Debug, PartialEq, Eq, Structural)]
pub enum Direction {
    Up,
    Down,
    Left,
    Right,
}

/// Whether `v` is a power of two (1, 2, 4, ...).
pub open spec fn pow2_val(v: int) -> bool
    decreases v,
{
    if v <= 0 {
        false
    } else if v == 1 {
        true
    } else {
        v % 2 == 0 && pow2_val(v / 2)
    }
}

/// The cells of a concrete grid or line, with values widened to `int`.
pub open spec fn to_ints(g: Seq<Option<u32>>) -> Seq<Option<int>> {
    Seq::new(
        g.len(),
        |i: int|
            match g[i] {
                Some(v) => Some(v as int),
                None => None,
            },
    )
}

/// The values of a sequence of `u32`, widened to `int`.
pub open spec fn widen(s: Seq<u32>) -> Seq<int> {
    Seq::new(s.len(), |i: int| s[i] as int)
}

/// Row `r` of a 16-cell grid, left to right.
pub open spec fn row_of(g: Seq<Option<int>>, r: int) -> Seq<Option<int>> {
    Seq::new(4, |c: int| g[4 * r + c])
}

/// Column `c` of a 16-cell grid, top to bottom.
pub open spec fn col_of(g: Seq<Option<int>>, c: int) -> Seq<Option<int>> {
    Seq::new(4, |r: int| g[4 * r + c])
}

/// A line read in the opposite order.
pub open spec fn rev_line(l: Seq<Option<int>>) -> Seq<Option<int>> {
    Seq::new(l.len(), |i: int| l[l.len() - 1 - i])
}

/// The non-empty values of a line, in order.
pub open spec fn line_vals(l: Seq<Option<int>>) -> Seq<int>
    decreases l.len(),
{
    if l.len() == 0 {
        Seq::empty()
    } else {
        match l[0] {
            Some(v) => seq![v] + line_vals(l.skip(1)),
            None => line_vals(l.skip(1)),
        }
    }
}

/// Greedy pairwise merging from the destination edge: two equal leading
/// values become one doubled value, and the result of a merge never takes
/// part in another merge of the same pass.
pub open spec fn merge_pairs(vals: Seq<int>) -> Seq<int>
    decreases vals.len(),
{
    if vals.len() <= 1 {
        vals
    } else if vals[0] == vals[1] {
        seq![2 * vals[0]] + merge_pairs(vals.skip(2))
    } else {
        seq![vals[0]] + merge_pairs(vals.skip(1))
    }
}

/// A line of length `n` holding `vals` packed against index 0, the rest empty.
pub open spec fn packed_line(vals: Seq<int>, n: int) -> Seq<Option<int>> {
    Seq::new(
        n as nat,
        |i: int|
            if i < vals.len() {
                Some(vals[i])
            } else {
                None
            },
    )
}

/// What one move does to a single line whose index 0 is the destination edge.
pub open spec fn slid_line(l: Seq<Option<int>>) -> Seq<Option<int>> {
    packed_line(merge_pairs(line_vals(l)), l.len() as int)
}

/// Line `i` of the grid, oriented so that index 0 is the destination edge of
/// a move in direction `d`.
pub open spec fn oline(g: Seq<Option<int>>, d: Direction, i: int) -> Seq<Option<int>> {
    match d {
        Direction::Left => row_of(g, i),
        Direction::Right => rev_line(row_of(g, i)),
        Direction::Up => col_of(g, i),
        Direction::Down => rev_line(col_of(g, i)),
    }
}

/// Flat grid index of slot `j` (counted from the destination edge) of
/// oriented line `i` for direction `d`.
pub open spec fn opos(d: Direction, i: int, j: int) -> int {
    match d {
        Direction::Left => 4 * i + j,
        Direction::Right => 4 * i + 3 - j,
        Direction::Up => 4 * j + i,
        Direction::Down => 4 * (3 - j) + i,
    }
}

/// Which oriented line the flat index `k` belongs to under direction `d`.
pub open spec fn line_idx(d: Direction, k: int) -> int {
    match d {
        Direction::Left => k / 4,
        Direction::Right => k / 4,
        Direction::Up => k % 4,
        Direction::Down => k % 4,
    }
}

/// Which slot of its oriented line the flat index `k` is under direction `d`.
pub open spec fn slot_idx(d: Direction, k: int) -> int {
    match d {
        Direction::Left => k % 4,
        Direction::Right => 3 - k % 4,
        Direction::Up => k / 4,
        Direction::Down => 3 - k / 4,
    }
}

/// The grid after a move in direction `d`: every oriented line is compacted
/// and merged toward its destination edge.
pub open spec fn move_spec(g: Seq<Option<int>>, d: Direction) -> Seq<Option<int>> {
    Seq::new(16, |k: int| slid_line(oline(g, d, line_idx(d, k)))[slot_idx(d, k)])
}

/// Every stored value is a power of two of at least 2.
pub open spec fn cells_ok(g: Seq<Option<u32>>) -> bool {
    forall|k: int|
        0 <= k < g.len() ==> (#[trigger] g[k] matches Some(v) ==> pow2_val(v as int) && v >= 2)
}

/// Every stored value is at most `m`.
pub open spec fn vals_at_most(g: Seq<Option<u32>>, m: u32) -> bool {
    forall|k: int| 0 <= k < g.len() ==> (#[trigger] g[k] matches Some(v) ==> v <= m)
}

/// The grid is full and no two horizontally or vertically adjacent cells
/// hold equal values: no move can change anything.
pub open spec fn terminal_spec(g: Seq<Option<int>>) -> bool {
    &&& forall|k: int| 0 <= k < 16 ==> (#[trigger] g[k]) is Some
    &&& forall|r: int, c: int|
        0 <= r < 3 && 0 <= c < 4 ==> #[trigger] g[4 * r + c] != g[4 * (r + 1) + c]
    &&& forall|r: int, c: int|
        0 <= r < 4 && 0 <= c < 3 ==> #[trigger] g[4 * r + c] != g[4 * r + c + 1]
}

/// `h` is `g` with one formerly empty cell set to 2 or to 4.
pub open spec fn spawn_step(g: Seq<Option<u32>>, h: Seq<Option<u32>>) -> bool {
    exists|k: int|
        0 <= k < 16 && (#[trigger] g[k]) is None && (h == g.update(k, Some(2u32)) || h == g.update(
            k,
            Some(4u32),
        ))
}

/// Number of non-empty cells.
pub open spec fn tile_count(g: Seq<Option<int>>) -> int
    decreases g.len(),
{
    if g.len() == 0 {
        0
    } else {
        (if g[0] is Some {
            1int
        } else {
            0int
        }) + tile_count(g.skip(1))
    }
}

/// Sum of all tile values.
pub open spec fn tile_total(g: Seq<Option<int>>) -> int
    decreases g.len(),
{
    if g.len() == 0 {
        0
    } else {
        (match g[0] {
            Some(v) => v,
            None => 0,
        }) + tile_total(g.skip(1))
    }
}

/// Sum of a sequence of values.
pub open spec fn val_total(vals: Seq<int>) -> int
    decreases vals.len(),
{
    if vals.len() == 0 {
        0
    } else {
        vals[0] + val_total(vals.skip(1))
    }
}

/// All non-empty cells of the line form a prefix: the line is compacted
/// against its destination edge.
pub open spec fn line_compacted(l: Seq<Option<int>>) -> bool {
    forall|i: int, j: int| 0 <= i <= j < l.len() && (#[trigger] l[j]) is Some ==> (#[trigger] l[i]) is Some
}

/// No two consecutive values are equal.
pub open spec fn no_adjacent_equal(vals: Seq<int>) -> bool {
    forall|i: int| 0 <= i < vals.len() - 1 ==> vals[i] != #[trigger] vals[i + 1]
}

/// A grid on which a move in direction `d` has nothing to do: every line is
/// compacted against the destination edge and holds no mergeable pair.
pub open spec fn settled(g: Seq<Option<int>>, d: Direction) -> bool {
    forall|i: int|
        0 <= i < 4 ==> line_compacted(#[trigger] oline(g, d, i)) && no_adjacent_equal(
            line_vals(oline(g, d, i)),
        )
}

} // verus!

verus! {

/// Value of a cell, an empty cell counting as 0.
pub open spec fn cval(c: Option<int>) -> int {
    match c {
        Some(v) => v,
        None => 0,
    }
}

/// Occupancy of a cell, as 0 or 1.
pub open spec fn cind(c: Option<int>) -> int {
    if c is Some {
        1
    } else {
        0
    }
}

/// Doubling keeps a value a power of two.
pub proof fn lemma_pow2_double(v: int)
    requires
        pow2_val(v),
    ensures
        pow2_val(2 * v),
{
    assert(2 * v > 1 && 2 * v % 2 == 0 && 2 * v / 2 == v);
}

pub proof fn lemma_line_vals_len(l: Seq<Option<int>>)
    ensures
        line_vals(l).len() <= l.len(),
    decreases l.len(),
{
    if l.len() > 0 {
        lemma_line_vals_len(l.skip(1));
    }
}

pub proof fn lemma_line_vals_all_none(l: Seq<Option<int>>)
    requires
        forall|j: int| 0 <= j < l.len() ==> (#[trigger] l[j]) is None,
    ensures
        line_vals(l) == Seq::<int>::empty(),
    decreases l.len(),
{
    if l.len() > 0 {
        assert(l[0] is None);
        assert(forall|j: int| 0 <= j < l.skip(1).len() ==> (#[trigger] l.skip(1)[j]) is None);
        lemma_line_vals_all_none(l.skip(1));
    }
}

pub proof fn lemma_line_vals_total(l: Seq<Option<int>>)
    ensures
        val_total(line_vals(l)) == tile_total(l),
    decreases l.len(),
{
    if l.len() > 0 {
        lemma_line_vals_total(l.skip(1));
        match l[0] {
            Some(v) => {
                let s = line_vals(l.skip(1));
                assert((seq![v] + s)[0] == v);
                assert((seq![v] + s).skip(1) =~= s);
            },
            None => {},
        }
    }
}

pub proof fn lemma_line_vals_count(l: Seq<Option<int>>)
    ensures
        line_vals(l).len() == tile_count(l),
    decreases l.len(),
{
    if l.len() > 0 {
        lemma_line_vals_count(l.skip(1));
    }
}

/// Cells behind the values: every listed value stands in some cell.
pub proof fn lemma_line_vals_member(l: Seq<Option<int>>, t: int)
    requires
        0 <= t < line_vals(l).len(),
    ensures
        exists|i: int| 0 <= i < l.len() && l[i] == Some(line_vals(l)[t]),
    decreases l.len(),
{
    if l.len() > 0 {
        match l[0] {
            Some(v) => {
                if t == 0 {
                    assert(l[0] == Some(line_vals(l)[0]));
                } else {
                    lemma_line_vals_member(l.skip(1), t - 1);
                    let i = choose|i: int|
                        0 <= i < l.skip(1).len() && l.skip(1)[i] == Some(line_vals(l.skip(1))[t - 1]);
                    assert(l[i + 1] == Some(line_vals(l)[t]));
                }
            },
            None => {
                lemma_line_vals_member(l.skip(1), t);
                let i = choose|i: int|
                    0 <= i < l.skip(1).len() && l.skip(1)[i] == Some(line_vals(l.skip(1))[t]);
                assert(l[i + 1] == Some(line_vals(l)[t]));
            },
        }
    }
}

pub proof fn lemma_mp_len(vals: Seq<int>)
    ensures
        merge_pairs(vals).len() <= vals.len(),
        2 * merge_pairs(vals).len() >= vals.len(),
    decreases vals.len(),
{
    if vals.len() > 1 {
        if vals[0] == vals[1] {
            assert(vals.skip(2).len() == vals.len() - 2);
            lemma_mp_len(vals.skip(2));
        } else {
            lemma_mp_len(vals.skip(1));
        }
    }
}

pub proof fn lemma_mp_total(vals: Seq<int>)
    ensures
        val_total(merge_pairs(vals)) == val_total(vals),
    decreases vals.len(),
{
    if vals.len() > 1 {
        assert(val_total(vals) == vals[0] + val_total(vals.skip(1)));
        assert(vals.skip(1)[0] == vals[1]);
        assert(vals.skip(1).skip(1) =~= vals.skip(2));
        assert(val_total(vals.skip(1)) == vals[1] + val_total(vals.skip(2)));
        if vals[0] == vals[1] {
            lemma_mp_total(vals.skip(2));
            let s = merge_pairs(vals.skip(2));
            assert((seq![2 * vals[0]] + s)[0] == 2 * vals[0]);
            assert((seq![2 * vals[0]] + s).skip(1) =~= s);
        } else {
            lemma_mp_total(vals.skip(1));
            let s = merge_pairs(vals.skip(1));
            assert((seq![vals[0]] + s)[0] == vals[0]);
            assert((seq![vals[0]] + s).skip(1) =~= s);
        }
    }
}

/// Every merged value is either one of the line's values or the double of one.
pub proof fn lemma_mp_member(vals: Seq<int>, t: int)
    requires
        0 <= t < merge_pairs(vals).len(),
    ensures
        exists|i: int|
            0 <= i < vals.len() && (vals[i] == merge_pairs(vals)[t] || merge_pairs(vals)[t] == 2
                * vals[i]),
    decreases vals.len(),
{
    if vals.len() > 1 {
        if vals[0] == vals[1] {
            if t == 0 {
                assert(merge_pairs(vals)[0] == 2 * vals[0]);
            } else {
                lemma_mp_member(vals.skip(2), t - 1);
                let i = choose|i: int|
                    0 <= i < vals.skip(2).len() && (vals.skip(2)[i] == merge_pairs(vals.skip(2))[t
                        - 1] || merge_pairs(vals.skip(2))[t - 1] == 2 * vals.skip(2)[i]);
                assert(vals[i + 2] == vals.skip(2)[i]);
                assert(merge_pairs(vals)[t] == merge_pairs(vals.skip(2))[t - 1]);
                assert(0 <= i + 2 < vals.len() && (vals[i + 2] == merge_pairs(vals)[t]
                    || merge_pairs(vals)[t] == 2 * vals[i + 2]));
            }
        } else {
            if t == 0 {
                assert(merge_pairs(vals)[0] == vals[0]);
            } else {
                lemma_mp_member(vals.skip(1), t - 1);
                let i = choose|i: int|
                    0 <= i < vals.skip(1).len() && (vals.skip(1)[i] == merge_pairs(vals.skip(1))[t
                        - 1] || merge_pairs(vals.skip(1))[t - 1] == 2 * vals.skip(1)[i]);
                assert(vals[i + 1] == vals.skip(1)[i]);
                assert(merge_pairs(vals)[t] == merge_pairs(vals.skip(1))[t - 1]);
                assert(0 <= i + 1 < vals.len() && (vals[i + 1] == merge_pairs(vals)[t]
                    || merge_pairs(vals)[t] == 2 * vals[i + 1]));
            }
        }
    } else {
        assert(vals[t] == merge_pairs(vals)[t]);
    }
}

/// Without a mergeable pair, merging does nothing.
pub proof fn lemma_mp_no_adjacent(vals: Seq<int>)
    requires
        no_adjacent_equal(vals),
    ensures
        merge_pairs(vals) == vals,
    decreases vals.len(),
{
    if vals.len() > 1 {
        assert(vals[0int] != vals[0int + 1]);
        assert(forall|i: int|
            0 <= i < vals.skip(1).len() - 1 ==> vals.skip(1)[i] != #[trigger] vals.skip(1)[i + 1])
            by {
            assert(forall|i: int|
                0 <= i < vals.skip(1).len() - 1 ==> #[trigger] vals.skip(1)[i] == vals[i + 1]
                    && vals.skip(1)[i + 1] == vals[i + 2]);
        }
        lemma_mp_no_adjacent(vals.skip(1));
        assert(seq![vals[0]] + vals.skip(1) =~= vals);
    }
}

pub proof fn lemma_packed_total(m: Seq<int>, n: int)
    requires
        m.len() <= n,
    ensures
        tile_total(packed_line(m, n)) == val_total(m),
        tile_count(packed_line(m, n)) == m.len(),
    decreases n,
{
    if n > 0 {
        if m.len() > 0 {
            assert(packed_line(m, n)[0] == Some(m[0]));
            assert(packed_line(m, n).skip(1) =~= packed_line(m.skip(1), n - 1));
            lemma_packed_total(m.skip(1), n - 1);
        } else {
            assert(packed_line(m, n)[0] is None);
            assert(packed_line(m, n).skip(1) =~= packed_line(m, n - 1));
            lemma_packed_total(m, n - 1);
        }
    } else {
        assert(packed_line(m, n) =~= Seq::<Option<int>>::empty());
    }
}

/// A compacted line is its own values packed against the edge.
pub proof fn lemma_compacted_packed(l: Seq<Option<int>>)
    requires
        line_compacted(l),
    ensures
        packed_line(line_vals(l), l.len() as int) == l,
    decreases l.len(),
{
    if l.len() > 0 {
        match l[0] {
            Some(v) => {
                assert(forall|i: int, j: int|
                    0 <= i <= j < l.skip(1).len() && (#[trigger] l.skip(1)[j]) is Some ==> (
                    #[trigger] l.skip(1)[i]) is Some) by {
                    assert(forall|i: int|
                        0 <= i < l.skip(1).len() ==> #[trigger] l.skip(1)[i] == l[i + 1]);
                }
                lemma_compacted_packed(l.skip(1));
                let m = line_vals(l);
                assert(m == seq![v] + line_vals(l.skip(1)));
                lemma_line_vals_len(l);
                assert(packed_line(m, l.len() as int) =~= l) by {
                    assert(forall|i: int|
                        1 <= i < l.len() ==> #[trigger] l[i] == packed_line(
                            line_vals(l.skip(1)),
                            l.len() - 1,
                        )[i - 1]);
                    assert(forall|i: int|
                        1 <= i < m.len() ==> #[trigger] m[i] == line_vals(l.skip(1))[i - 1]);
                }
            },
            None => {
                assert(forall|j: int| 0 <= j < l.len() ==> (#[trigger] l[j]) is None) by {
                    assert(forall|j: int| 0 <= j < l.len() && (#[trigger] l[j]) is Some ==> l[0] is Some);
                }
                lemma_line_vals_all_none(l);
                assert(packed_line(line_vals(l), l.len() as int) =~= l);
            },
        }
    } else {
        assert(packed_line(line_vals(l), 0) =~= l);
    }
}

pub proof fn lemma_total_split(a: Seq<Option<int>>, b: Seq<Option<int>>)
    ensures
        tile_total(a + b) == tile_total(a) + tile_total(b),
        tile_count(a + b) == tile_count(a) + tile_count(b),
    decreases a.len(),
{
    if a.len() == 0 {
        assert(a + b =~= b);
    } else {
        assert((a + b)[0] == a[0]);
        assert((a + b).skip(1) =~= a.skip(1) + b);
        lemma_total_split(a.skip(1), b);
    }
}

pub proof fn lemma_line_total4(l: Seq<Option<int>>)
    requires
        l.len() == 4,
    ensures
        tile_total(l) == cval(l[0]) + cval(l[1]) + cval(l[2]) + cval(l[3]),
        tile_count(l) == cind(l[0]) + cind(l[1]) + cind(l[2]) + cind(l[3]),
{
    let l1 = l.skip(1);
    let l2 = l.skip(2);
    let l3 = l.skip(3);
    let l4 = l.skip(4);
    assert(l1.skip(1) =~= l2);
    assert(l2.skip(1) =~= l3);
    assert(l3.skip(1) =~= l4);
    assert(l4.len() == 0);
    assert(l1[0] == l[1] && l2[0] == l[2] && l3[0] == l[3]);
    assert(tile_total(l) == cval(l[0]) + tile_total(l1));
    assert(tile_total(l1) == cval(l[1]) + tile_total(l2));
    assert(tile_total(l2) == cval(l[2]) + tile_total(l3));
    assert(tile_total(l3) == cval(l[3]) + tile_total(l4));
    assert(tile_count(l) == cind(l[0]) + tile_count(l1));
    assert(tile_count(l1) == cind(l[1]) + tile_count(l2));
    assert(tile_count(l2) == cind(l[2]) + tile_count(l3));
    assert(tile_count(l3) == cind(l[3]) + tile_count(l4));
}

/// The grid measures split over rows and equally over columns.
pub proof fn lemma_grid_rowcol(g: Seq<Option<int>>)
    requires
        g.len() == 16,
    ensures
        tile_total(g) == tile_total(row_of(g, 0)) + tile_total(row_of(g, 1)) + tile_total(
            row_of(g, 2),
        ) + tile_total(row_of(g, 3)),
        tile_total(g) == tile_total(col_of(g, 0)) + tile_total(col_of(g, 1)) + tile_total(
            col_of(g, 2),
        ) + tile_total(col_of(g, 3)),
        tile_count(g) == tile_count(row_of(g, 0)) + tile_count(row_of(g, 1)) + tile_count(
            row_of(g, 2),
        ) + tile_count(row_of(g, 3)),
        tile_count(g) == tile_count(col_of(g, 0)) + tile_count(col_of(g, 1)) + tile_count(
            col_of(g, 2),
        ) + tile_count(col_of(g, 3)),
{
    let r0 = row_of(g, 0);
    let r1 = row_of(g, 1);
    let r2 = row_of(g, 2);
    let r3 = row_of(g, 3);
    assert(g =~= r0 + r1 + r2 + r3);
    lemma_total_split(r0 + r1 + r2, r3);
    lemma_total_split(r0 + r1, r2);
    lemma_total_split(r0, r1);
    lemma_line_total4(r0);
    lemma_line_total4(r1);
    lemma_line_total4(r2);
    lemma_line_total4(r3);
    lemma_line_total4(col_of(g, 0));
    lemma_line_total4(col_of(g, 1));
    lemma_line_total4(col_of(g, 2));
    lemma_line_total4(col_of(g, 3));
}

pub proof fn lemma_rev_line4(l: Seq<Option<int>>)
    requires
        l.len() == 4,
    ensures
        tile_total(rev_line(l)) == tile_total(l),
        tile_count(rev_line(l)) == tile_count(l),
{
    lemma_line_total4(l);
    lemma_line_total4(rev_line(l));
}

/// One line keeps its total and never gains tiles under a move.
pub proof fn lemma_slid_line_measures(l: Seq<Option<int>>)
    requires
        l.len() == 4,
    ensures
        slid_line(l).len() == 4,
        tile_total(slid_line(l)) == tile_total(l),
        tile_count(slid_line(l)) <= tile_count(l),
        2 * tile_count(slid_line(l)) >= tile_count(l),
{
    lemma_line_vals_len(l);
    lemma_mp_len(line_vals(l));
    lemma_packed_total(merge_pairs(line_vals(l)), 4);
    lemma_mp_total(line_vals(l));
    lemma_line_vals_total(l);
    lemma_line_vals_count(l);
}

} // verus!

verus! {

/// An oriented line reads the grid at the positions `opos` names.
pub proof fn lemma_oline_index(g: Seq<Option<int>>, d: Direction, i: int, j: int)
    requires
        g.len() == 16,
        0 <= i < 4,
        0 <= j < 4,
    ensures
        0 <= opos(d, i, j) < 16,
        oline(g, d, i).len() == 4,
        oline(g, d, i)[j] == g[opos(d, i, j)],
{
}

/// `line_idx` and `slot_idx` invert `opos`.
pub proof fn lemma_pos_roundtrip(d: Direction, k: int)
    requires
        0 <= k < 16,
    ensures
        0 <= line_idx(d, k) < 4,
        0 <= slot_idx(d, k) < 4,
        opos(d, line_idx(d, k), slot_idx(d, k)) == k,
{
}

/// `opos` lands in the grid and is inverted by `line_idx` and `slot_idx`.
pub proof fn lemma_opos_roundtrip(d: Direction, i: int, j: int)
    requires
        0 <= i < 4,
        0 <= j < 4,
    ensures
        0 <= opos(d, i, j) < 16,
        line_idx(d, opos(d, i, j)) == i,
        slot_idx(d, opos(d, i, j)) == j,
{
}

/// A move acts on every oriented line as `slid_line`.
pub proof fn lemma_move_spec_line(g: Seq<Option<int>>, d: Direction, i: int)
    requires
        g.len() == 16,
        0 <= i < 4,
    ensures
        oline(move_spec(g, d), d, i) == slid_line(oline(g, d, i)),
{
    let ms = move_spec(g, d);
    assert forall|j: int| 0 <= j < 4 implies oline(ms, d, i)[j] == slid_line(oline(g, d, i))[j] by {
        lemma_oline_index(ms, d, i, j);
        lemma_opos_roundtrip(d, i, j);
        let k = opos(d, i, j);
        assert(ms[k] == slid_line(oline(g, d, line_idx(d, k)))[slot_idx(d, k)]);
    }
    assert(oline(ms, d, i) =~= slid_line(oline(g, d, i)));
}

} // verus!

verus! {

pub proof fn lemma_count_all_none(g: Seq<Option<int>>)
    requires
        forall|k: int| 0 <= k < g.len() ==> (#[trigger] g[k]) is None,
    ensures
        tile_count(g) == 0,
    decreases g.len(),
{
    if g.len() > 0 {
        assert(g[0] is None);
        assert(forall|k: int| 0 <= k < g.skip(1).len() ==> (#[trigger] g.skip(1)[k]) is None);
        lemma_count_all_none(g.skip(1));
    }
}

/// Filling one empty cell raises the tile count by one.
pub proof fn lemma_count_update(g: Seq<Option<int>>, k: int, v: int)
    requires
        0 <= k < g.len(),
        g[k] is None,
    ensures
        tile_count(g.update(k, Some(v))) == tile_count(g) + 1,
    decreases g.len(),
{
    let h = g.update(k, Some(v));
    if k == 0 {
        assert(h[0] == Some(v));
        assert(h.skip(1) =~= g.skip(1));
    } else {
        assert(h[0] == g[0]);
        assert(h.skip(1) =~= g.skip(1).update(k - 1, Some(v)));
        lemma_count_update(g.skip(1), k - 1, v);
    }
}

} // verus!
