//! The grid itself: construction, cell access, and the random tile spawn.
//!
//! The grid is a fixed 4x4 matrix of cells stored row-major; a cell is
//! either empty (`None`) or holds a power-of-two value of at least 2.

use rand::Rng;
use vstd::prelude::*;

use crate::model::{
    cells_ok, lemma_count_all_none, lemma_count_update, lemma_opos_roundtrip, opos, pow2_val,
    line_idx, spawn_step, tile_count, to_ints, Direction,
};

verus! {

/// The 4x4 grid, row-major: the cell at `(row, col)` is entry `4 * row + col`.
pub struct Board {
    cells: Vec<Option<u32>>,
}

impl View for Board {
    type V = Seq<Option<u32>>;

    closed spec fn view(&self) -> Seq<Option<u32>> {
        self.cells@
    }
}

/// Whether `v` can be stored in a cell: a power of two, at least 2.
fn is_tile_value(v: u32) -> (r: bool)
    ensures
        r == (pow2_val(v as int) && v >= 2),
{
    if v < 2 {
        return false;
    }
    let mut x: u32 = v;
    while x > 1
        invariant
            x >= 1,
            pow2_val(v as int) == pow2_val(x as int),
        decreases x,
    {
        if x % 2 == 1 {
            assert(!pow2_val(x as int));
            return false;
        }
        x = x / 2;
    }
    true
}

/// Relies on rand's `Rng::gen_range` over the half-open range `0..n`: it
/// returns a value of that range and panics only when the range is empty,
/// which the precondition rules out.
#[verifier::external_body]
fn random_below(n: usize) -> (r: usize)
    requires
        1 <= n,
    ensures
        r < n,
{
    rand::thread_rng().gen_range(0..n)
}

impl Board {
    /// Structural invariant: 16 cells, every stored value a power of two
    /// of at least 2.
    pub open spec fn wf(&self) -> bool {
        self@.len() == 16 && cells_ok(self@)
    }

    /// A fresh game grid: all cells empty, then exactly two tiles spawned.
    pub fn new() -> (b: Board)
        ensures
            b.wf(),
            tile_count(to_ints(b@)) == 2,
            forall|k: int| 0 <= k < 16 ==> (#[trigger] b@[k] matches Some(v) ==> v == 2 || v == 4),
    {
        let mut cells: Vec<Option<u32>> = Vec::new();
        let mut k: usize = 0;
        while k < 16
            invariant
                k <= 16,
                cells@.len() == k,
                forall|t: int| 0 <= t < k ==> (#[trigger] cells@[t]) is None,
            decreases 16 - k,
        {
            cells.push(None);
            k += 1;
        }
        let mut b = Board { cells };
        let ghost g0 = b@;
        proof {
            assert(forall|t: int| 0 <= t < 16 ==> (#[trigger] to_ints(g0)[t]) is None);
            lemma_count_all_none(to_ints(g0));
        }
        b.spawn_random_tile();
        let ghost g1 = b@;
        proof {
            assert(g0[0] is None);
            assert(spawn_step(g0, g1));
            let k1 = choose|k: int|
                0 <= k < 16 && (#[trigger] g0[k]) is None && (g1 == g0.update(k, Some(2u32)) || g1
                    == g0.update(k, Some(4u32)));
            let v1: u32 = if g1 == g0.update(k1, Some(2u32)) {
                2
            } else {
                4
            };
            assert(g1 == g0.update(k1, Some(v1)));
            assert(to_ints(g1) =~= to_ints(g0).update(k1, Some(v1 as int)));
            lemma_count_update(to_ints(g0), k1, v1 as int);
            assert(tile_count(to_ints(g1)) == 1);
            let w: int = if k1 == 0 {
                1
            } else {
                0
            };
            assert(g1[w] is None);
        }
        b.spawn_random_tile();
        let ghost g2 = b@;
        proof {
            assert(spawn_step(g1, g2));
            let k1 = choose|k: int|
                0 <= k < 16 && (#[trigger] g0[k]) is None && (g1 == g0.update(k, Some(2u32)) || g1
                    == g0.update(k, Some(4u32)));
            let k2 = choose|k: int|
                0 <= k < 16 && (#[trigger] g1[k]) is None && (g2 == g1.update(k, Some(2u32)) || g2
                    == g1.update(k, Some(4u32)));
            let v2: u32 = if g2 == g1.update(k2, Some(2u32)) {
                2
            } else {
                4
            };
            assert(g2 == g1.update(k2, Some(v2)));
            assert(to_ints(g2) =~= to_ints(g1).update(k2, Some(v2 as int)));
            lemma_count_update(to_ints(g1), k2, v2 as int);
            assert(forall|k: int|
                0 <= k < 16 ==> (#[trigger] g2[k] matches Some(v) ==> v == 2 || v == 4));
        }
        b
    }

    /// A grid built from 16 given cells, row-major; `None` exactly when the
    /// cells are not a valid grid (wrong length, or a value that is not a
    /// power of two of at least 2).
    pub fn from_cells(cells: Vec<Option<u32>>) -> (r: Option<Board>)
        ensures
            r matches Some(b) ==> b@ == cells@ && b.wf(),
            (r is Some) <==> (cells@.len() == 16 && cells_ok(cells@)),
    {
        if cells.len() != 16 {
            return None;
        }
        let mut k: usize = 0;
        while k < 16
            invariant
                k <= 16,
                cells@.len() == 16,
                forall|t: int|
                    0 <= t < k ==> (#[trigger] cells@[t] matches Some(v) ==> pow2_val(v as int)
                        && v >= 2),
            decreases 16 - k,
        {
            let c = cells[k];
            match c {
                Some(v) => {
                    if !is_tile_value(v) {
                        assert(!(cells@[k as int] matches Some(v) ==> pow2_val(v as int) && v
                            >= 2));
                        return None;
                    }
                },
                None => {},
            }
            k += 1;
        }
        Some(Board { cells })
    }

    /// Read the cell at `(row, col)`; both indices must be below 4.
    pub fn cell(&self, row: usize, col: usize) -> (c: Option<u32>)
        requires
            self.wf(),
            row < 4,
            col < 4,
        ensures
            c == self@[4 * row as int + col as int],
    {
        self.cells[4 * row + col]
    }

    /// The positions of all empty cells, in row-major order.
    fn empty_positions(&self) -> (empties: Vec<usize>)
        requires
            self@.len() == 16,
        ensures
            forall|t: int|
                0 <= t < empties@.len() ==> (#[trigger] empties@[t]) < 16
                    && self@[empties@[t] as int] is None,
            forall|t: int|
                0 <= t < 16 && (#[trigger] self@[t]) is None ==> exists|u: int|
                    0 <= u < empties@.len() && empties@[u] == t,
    {
        let mut empties: Vec<usize> = Vec::new();
        let mut k: usize = 0;
        while k < 16
            invariant
                k <= 16,
                self@.len() == 16,
                forall|t: int|
                    0 <= t < empties@.len() ==> (#[trigger] empties@[t]) < 16
                        && self@[empties@[t] as int] is None,
                forall|t: int|
                    0 <= t < k && (#[trigger] self@[t]) is None ==> exists|u: int|
                        0 <= u < empties@.len() && empties@[u] == t,
            decreases 16 - k,
        {
            let c = self.cells[k];
            let ghost before = empties@;
            if c.is_none() {
                empties.push(k);
                proof {
                    assert(empties@[empties@.len() - 1] == k as int);
                    assert forall|t: int|
                        0 <= t < k as int + 1 && (#[trigger] self@[t]) is None implies exists|u: int|
                        0 <= u < empties@.len() && empties@[u] == t by {
                        if t < k as int {
                            let u0 = choose|u: int| 0 <= u < before.len() && before[u] == t;
                            assert(empties@[u0] == before[u0]);
                            assert(empties@[u0] == t);
                        } else {
                            assert(empties@[empties@.len() - 1] == t);
                        }
                    }
                }
            }
            k += 1;
        }
        empties
    }

    /// Spawn one tile from supplied choices, so that a caller can inject or
    /// seed the randomness: fill the `pick % n`-th empty cell (n the number
    /// of empty cells) with 4 if `four`, else with 2. On a full grid this is
    /// a silent no-op.
    pub fn spawn_tile(&mut self, pick: usize, four: bool)
        requires
            old(self).wf(),
        ensures
            final(self).wf(),
            (forall|k: int| 0 <= k < 16 ==> (#[trigger] old(self)@[k]) is Some) ==> final(self)@
                == old(self)@,
            (exists|k: int| 0 <= k < 16 && (#[trigger] old(self)@[k]) is None) ==> exists|k: int|
                0 <= k < 16 && (#[trigger] old(self)@[k]) is None && final(self)@ == old(
                self,
            )@.update(
                k,
                Some(
                    if four {
                        4u32
                    } else {
                        2u32
                    },
                ),
            ),
    {
        let empties = self.empty_positions();
        if empties.len() > 0 {
            let pos = empties[pick % empties.len()];
            let tile: u32 = if four {
                4
            } else {
                2
            };
            self.cells[pos] = Some(tile);
            proof {
                assert(pow2_val(1int));
                assert(pow2_val(2int));
                assert(pow2_val(4int));
                assert(self@ == old(self)@.update(pos as int, Some(tile)));
                assert(cells_ok(self@)) by {
                    assert(forall|t: int|
                        0 <= t < 16 && t != pos as int ==> #[trigger] self@[t] == old(self)@[t]);
                }
            }
        } else {
            proof {
                assert(forall|t: int| 0 <= t < 16 ==> (#[trigger] self@[t]) is Some);
            }
        }
    }

    /// Spawn one tile at random: choose an empty cell uniformly and fill it
    /// with 2 (probability 0.9) or 4 (probability 0.1). On a full grid this
    /// is a silent no-op.
    pub fn spawn_random_tile(&mut self)
        requires
            old(self).wf(),
        ensures
            final(self).wf(),
            (forall|k: int| 0 <= k < 16 ==> (#[trigger] old(self)@[k]) is Some) ==> final(self)@
                == old(self)@,
            (exists|k: int| 0 <= k < 16 && (#[trigger] old(self)@[k]) is None) ==> spawn_step(
                old(self)@,
                final(self)@,
            ),
    {
        let empty_count = self.empty_positions().len();
        if empty_count > 0 {
            let pick = random_below(empty_count);
            let four = random_below(10) == 0;
            self.spawn_tile(pick, four);
        }
    }
}

} // verus!

verus! {

/// Flat index of slot `j` of oriented line `i` for direction `d`.
fn line_pos(d: Direction, i: usize, j: usize) -> (k: usize)
    requires
        i < 4,
        j < 4,
    ensures
        k < 16,
        k as int == opos(d, i as int, j as int),
{
    match d {
        Direction::Left => 4 * i + j,
        Direction::Right => 4 * i + 3 - j,
        Direction::Up => 4 * j + i,
        Direction::Down => 4 * (3 - j) + i,
    }
}

impl Board {
    /// Copy oriented line `i` out of the grid, destination edge first.
    pub(crate) fn read_line(&self, d: Direction, i: usize) -> (line: Vec<Option<u32>>)
        requires
            self@.len() == 16,
            i < 4,
        ensures
            line@.len() == 4,
            forall|j: int| 0 <= j < 4 ==> #[trigger] line@[j] == self@[opos(d, i as int, j)],
    {
        let mut line: Vec<Option<u32>> = Vec::new();
        let mut j: usize = 0;
        while j < 4
            invariant
                j <= 4,
                i < 4,
                self@.len() == 16,
                line@.len() == j,
                forall|t: int| 0 <= t < j ==> #[trigger] line@[t] == self@[opos(d, i as int, t)],
            decreases 4 - j,
        {
            let k = line_pos(d, i, j);
            line.push(self.cells[k]);
            j += 1;
        }
        line
    }

    /// Write `line` back as oriented line `i`; every other cell keeps its value.
    pub(crate) fn write_line(&mut self, d: Direction, i: usize, line: &Vec<Option<u32>>)
        requires
            old(self)@.len() == 16,
            i < 4,
            line@.len() == 4,
        ensures
            final(self)@.len() == 16,
            forall|j: int| 0 <= j < 4 ==> final(self)@[opos(d, i as int, j)] == #[trigger] line@[j],
            forall|k: int|
                0 <= k < 16 && line_idx(d, k) != i ==> #[trigger] final(self)@[k] == old(self)@[k],
    {
        let mut j: usize = 0;
        while j < 4
            invariant
                j <= 4,
                i < 4,
                line@.len() == 4,
                self@.len() == 16,
                forall|t: int| 0 <= t < j ==> self@[opos(d, i as int, t)] == #[trigger] line@[t],
                forall|k: int|
                    0 <= k < 16 && line_idx(d, k) != i ==> #[trigger] self@[k] == old(self)@[k],
            decreases 4 - j,
        {
            let k = line_pos(d, i, j);
            let ghost pre = self@;
            let c = line[j];
            self.cells[k] = c;
            proof {
                lemma_opos_roundtrip(d, i as int, j as int);
                assert forall|t: int|
                    0 <= t < j as int + 1 implies self@[opos(d, i as int, t)] == line@[t] by {
                    lemma_opos_roundtrip(d, i as int, t);
                    if t < j as int {
                        assert(opos(d, i as int, t) != k as int);
                        assert(self@[opos(d, i as int, t)] == pre[opos(d, i as int, t)]);
                    }
                }
            }
            j += 1;
        }
    }
}

} // verus!
