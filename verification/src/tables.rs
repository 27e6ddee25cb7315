//! The two 262144-entry sub-grid evaluation tables, keyed by
//! `(them << 9) | us` where each half is a nine-bit occupancy, together
//! with the laws that relate entries of swapped players.

use vstd::prelude::*;
use crate::bits::{grid_bit, line_cells, line_count, line_full, has_line};

verus! {

pub const OUTCOME_WIN: i32 = 1000000;

pub const OUTCOME_LOSS: i32 = -1000000;

pub const OUTCOME_DRAW: i32 = 0;

/// State of the joint walk over the eight lines of a `(us, them)` pair:
/// accumulated line scores, and whether a completed line stopped the walk.
pub struct LineWalk {
    pub large: int,
    pub small: int,
    pub us_won: bool,
    pub them_won: bool,
}

/// Large-table worth of holding `c` cells of a live line.
pub open spec fn lscore(c: int) -> int {
    if c == 1 {
        20
    } else if c == 2 {
        90
    } else {
        0
    }
}

/// Small-table worth of holding `c` cells of a live line.
pub open spec fn sscore(c: int) -> int {
    if c == 1 {
        1
    } else if c == 2 {
        8
    } else {
        0
    }
}

/// Walks lines `f..8` jointly over both grids: a line with cells of both
/// sides is dead and skipped; a line completed by either side stops the
/// walk and records the winner; a live line adds its two scores.
pub open spec fn walk_lines(us: u64, them: u64, f: int) -> LineWalk
    decreases 8 - f,
{
    if f >= 8 {
        LineWalk { large: 0, small: 0, us_won: false, them_won: false }
    } else {
        let uc = line_count(us, f);
        let tc = line_count(them, f);
        if uc > 0 && tc > 0 {
            walk_lines(us, them, f + 1)
        } else if uc == 3 {
            LineWalk { large: 0, small: 0, us_won: true, them_won: false }
        } else if tc == 3 {
            LineWalk { large: 0, small: 0, us_won: false, them_won: true }
        } else {
            let rest = walk_lines(us, them, f + 1);
            LineWalk {
                large: lscore(uc) - lscore(tc) + rest.large,
                small: sscore(uc) - sscore(tc) + rest.small,
                us_won: rest.us_won,
                them_won: rest.them_won,
            }
        }
    }
}

/// How many of the four corner cells are occupied.
pub open spec fn corner_score(g: u64) -> int {
    (if grid_bit(g, 0) {
        1int
    } else {
        0int
    }) + (if grid_bit(g, 2) {
        1int
    } else {
        0int
    }) + (if grid_bit(g, 6) {
        1int
    } else {
        0int
    }) + (if grid_bit(g, 8) {
        1int
    } else {
        0int
    })
}

/// How many of the four edge cells are occupied.
pub open spec fn edge_score(g: u64) -> int {
    (if grid_bit(g, 1) {
        1int
    } else {
        0int
    }) + (if grid_bit(g, 3) {
        1int
    } else {
        0int
    }) + (if grid_bit(g, 5) {
        1int
    } else {
        0int
    }) + (if grid_bit(g, 7) {
        1int
    } else {
        0int
    })
}

/// Whether the centre cell is occupied.
pub open spec fn centre_score(g: u64) -> int {
    if grid_bit(g, 4) {
        1int
    } else {
        0int
    }
}

/// Positional term: corners are worth 7, edges 5, the centre 9.
pub open spec fn pos_score(us: u64, them: u64) -> int {
    7 * (corner_score(us) - corner_score(them)) + 5 * (edge_score(us) - edge_score(them)) + 9 * (
    centre_score(us) - centre_score(them))
}

/// The meta-grid table entry for the pair `(us, them)` of nine-bit grids.
pub open spec fn eval_large_spec(us: u64, them: u64) -> int {
    let w = walk_lines(us, them, 0);
    if w.us_won {
        1000000
    } else if w.them_won {
        -1000000
    } else if (us | them) == 511 {
        0
    } else {
        w.large + 25 * pos_score(us, them)
    }
}

/// The per-zone table entry for the pair `(us, them)` of nine-bit grids.
pub open spec fn eval_small_spec(us: u64, them: u64) -> int {
    let w = walk_lines(us, them, 0);
    if w.us_won {
        0
    } else if w.them_won {
        0
    } else if (us | them) == 511 {
        0
    } else {
        w.small + pos_score(us, them)
    }
}

/// The two evaluation tables; both are fixed once built.
pub struct Tables {
    pub large: Vec<i32>,
    pub small: Vec<i32>,
}

impl Tables {
    /// Both vectors hold every entry of the specification, indexed by
    /// `(them << 9) | us`, that is `them * 512 + us`.
    pub open spec fn wf(&self) -> bool {
        &&& self.large@.len() == 0x40000
        &&& self.small@.len() == 0x40000
        &&& forall|i: int|
            0 <= i < 0x40000 ==> #[trigger] self.large@[i] == eval_large_spec(
                (i % 512) as u64,
                (i / 512) as u64,
            )
        &&& forall|i: int|
            0 <= i < 0x40000 ==> #[trigger] self.small@[i] == eval_small_spec(
                (i % 512) as u64,
                (i / 512) as u64,
            )
    }
}

/// Any single-bit read is zero or one.
pub proof fn lemma_bit01(g: u64, c: u64)
    by (bit_vector)
    ensures
        ((g >> c) & 1) == 0 || ((g >> c) & 1) == 1,
{
}

/// Bitwise-disjoint words share no set bit.
pub proof fn lemma_disjoint_bit(g: u64, h: u64, c: u64)
    by (bit_vector)
    requires
        g & h == 0,
    ensures
        !((g >> c) & 1 == 1 && (h >> c) & 1 == 1),
{
}

/// Bitwise `and` commutes.
pub proof fn lemma_and_comm(g: u64, h: u64)
    by (bit_vector)
    ensures
        g & h == h & g,
{
}

/// Bitwise `or` commutes.
pub proof fn lemma_or_comm(g: u64, h: u64)
    by (bit_vector)
    ensures
        g | h == h | g,
{
}

/// A line completed in one of two disjoint grids is empty in the other.
proof fn lemma_full_line_excludes(us: u64, them: u64, f: int)
    requires
        us & them == 0,
        line_count(us, f) == 3,
    ensures
        line_count(them, f) == 0,
{
    lemma_disjoint_bit(us, them, line_cells(f).0);
    lemma_disjoint_bit(us, them, line_cells(f).1);
    lemma_disjoint_bit(us, them, line_cells(f).2);
}

/// Swapping the two grids of a walk swaps the winner flags and negates
/// both accumulated scores.
pub proof fn lemma_walk_symmetry(us: u64, them: u64, f: int)
    requires
        us & them == 0,
    ensures
        walk_lines(them, us, f).us_won == walk_lines(us, them, f).them_won,
        walk_lines(them, us, f).them_won == walk_lines(us, them, f).us_won,
        walk_lines(them, us, f).large == -walk_lines(us, them, f).large,
        walk_lines(them, us, f).small == -walk_lines(us, them, f).small,
    decreases 8 - f,
{
    if f < 8 {
        let uc = line_count(us, f);
        let tc = line_count(them, f);
        if uc == 3 {
            lemma_full_line_excludes(us, them, f);
        }
        if tc == 3 {
            lemma_and_comm(us, them);
            lemma_full_line_excludes(them, us, f);
        }
        lemma_walk_symmetry(us, them, f + 1);
    }
}

/// The walk never flags both sides as winners.
pub proof fn lemma_walk_flags(us: u64, them: u64, f: int)
    ensures
        !(walk_lines(us, them, f).us_won && walk_lines(us, them, f).them_won),
    decreases 8 - f,
{
    if f < 8 {
        lemma_walk_flags(us, them, f + 1);
    }
}

/// The accumulated walk scores are bounded by what the remaining lines
/// can contribute.
pub proof fn lemma_walk_bounds(us: u64, them: u64, f: int)
    requires
        0 <= f <= 8,
    ensures
        -(8 - f) * 90 <= walk_lines(us, them, f).large <= (8 - f) * 90,
        -(8 - f) * 8 <= walk_lines(us, them, f).small <= (8 - f) * 8,
    decreases 8 - f,
{
    if f < 8 {
        lemma_walk_bounds(us, them, f + 1);
    }
}

/// A winner flag of the walk means that side holds a completed line among
/// the remaining ones; and on disjoint grids, a side holding such a line
/// wins the walk unless the other side holds a line too.
pub proof fn lemma_walk_wins(us: u64, them: u64, f: int)
    requires
        us & them == 0,
        0 <= f,
    ensures
        walk_lines(us, them, f).us_won ==> (exists|f0: int|
            f <= f0 < 8 && #[trigger] line_full(us, f0)),
        walk_lines(us, them, f).them_won ==> (exists|f0: int|
            f <= f0 < 8 && #[trigger] line_full(them, f0)),
        ((exists|f0: int| f <= f0 < 8 && #[trigger] line_full(us, f0)) && !has_line(them))
            ==> walk_lines(us, them, f).us_won,
        ((exists|f0: int| f <= f0 < 8 && #[trigger] line_full(them, f0)) && !has_line(us))
            ==> walk_lines(us, them, f).them_won,
    decreases 8 - f,
{
    if f < 8 {
        let uc = line_count(us, f);
        let tc = line_count(them, f);
        if uc == 3 {
            lemma_full_line_excludes(us, them, f);
        }
        if tc == 3 {
            lemma_and_comm(us, them);
            lemma_full_line_excludes(them, us, f);
        }
        if uc > 0 && tc > 0 {
            lemma_walk_wins(us, them, f + 1);
        } else if uc == 3 {
            assert(line_full(us, f));
            assert(has_line(us));
        } else if tc == 3 {
            assert(line_full(them, f));
            assert(has_line(them));
        } else {
            lemma_walk_wins(us, them, f + 1);
            assert forall|f0: int| f <= f0 < 8 && #[trigger] line_full(us, f0) implies f + 1 <= f0
                < 8 && line_full(us, f0) by {}
            assert forall|f0: int| f <= f0 < 8 && #[trigger] line_full(them, f0) implies f + 1
                <= f0 < 8 && line_full(them, f0) by {}
        }
    }
}

/// Entries are either the two terminal values or small: the large entry
/// stays within 2145 and the small entry within 121 when no side has won.
pub proof fn lemma_entry_range(us: u64, them: u64)
    ensures
        eval_large_spec(us, them) == 1000000 || eval_large_spec(us, them) == -1000000 || (-2145
            <= eval_large_spec(us, them) <= 2145),
        -121 <= eval_small_spec(us, them) <= 121,
{
    lemma_walk_bounds(us, them, 0);
}

/// The cells of line `f`, for the executable walk.
fn line_cells_at(f: usize) -> (r: (u64, u64, u64))
    requires
        f < 8,
    ensures
        r == line_cells(f as int),
{
    if f == 0 {
        (0, 3, 6)
    } else if f == 1 {
        (1, 4, 7)
    } else if f == 2 {
        (2, 5, 8)
    } else if f == 3 {
        (0, 1, 2)
    } else if f == 4 {
        (3, 4, 5)
    } else if f == 5 {
        (6, 7, 8)
    } else if f == 6 {
        (0, 4, 8)
    } else {
        (2, 4, 6)
    }
}

/// Occupancy count of line `f` in `g`.
fn count_line(g: u64, f: usize) -> (r: u64)
    requires
        f < 8,
    ensures
        r == line_count(g, f as int),
{
    let (a, b, c) = line_cells_at(f);
    proof {
        lemma_bit01(g, a);
        lemma_bit01(g, b);
        lemma_bit01(g, c);
    }
    ((g >> a) & 1) + ((g >> b) & 1) + ((g >> c) & 1)
}

/// Positional term of a pair of grids, computed from the nine cell bits.
fn position_score(us: u64, them: u64) -> (r: i32)
    ensures
        r == pos_score(us, them),
        -57 <= r <= 57,
{
    proof {
        lemma_bit01(us, 0);
        lemma_bit01(us, 1);
        lemma_bit01(us, 2);
        lemma_bit01(us, 3);
        lemma_bit01(us, 4);
        lemma_bit01(us, 5);
        lemma_bit01(us, 7);
        lemma_bit01(us, 6);
        lemma_bit01(us, 8);
        lemma_bit01(them, 0);
        lemma_bit01(them, 1);
        lemma_bit01(them, 2);
        lemma_bit01(them, 3);
        lemma_bit01(them, 4);
        lemma_bit01(them, 5);
        lemma_bit01(them, 6);
        lemma_bit01(them, 7);
        lemma_bit01(them, 8);
    }
    let cu = ((us >> 0) & 1) + ((us >> 2) & 1) + ((us >> 6) & 1) + ((us >> 8) & 1);
    let ct = ((them >> 0) & 1) + ((them >> 2) & 1) + ((them >> 6) & 1) + ((them >> 8) & 1);
    let eu = ((us >> 1) & 1) + ((us >> 3) & 1) + ((us >> 5) & 1) + ((us >> 7) & 1);
    let et = ((them >> 1) & 1) + ((them >> 3) & 1) + ((them >> 5) & 1) + ((them >> 7) & 1);
    let gu = (us >> 4) & 1;
    let gt = (them >> 4) & 1;
    7 * (cu as i32 - ct as i32) + 5 * (eu as i32 - et as i32) + 9 * (gu as i32 - gt as i32)
}

/// One pair of table entries, `(large, small)`, for nine-bit grids
/// `us` and `them`.
fn table_entry(us: u64, them: u64) -> (r: (i32, i32))
    ensures
        r.0 == eval_large_spec(us, them),
        r.1 == eval_small_spec(us, them),
{
    let mut f: usize = 0;
    let mut large: i32 = 0;
    let mut small: i32 = 0;
    let mut us_won = false;
    let mut them_won = false;
    while f < 8 && !us_won && !them_won
        invariant
            f <= 8,
            -90 * f <= large <= 90 * f,
            -8 * f <= small <= 8 * f,
            ({
                let w0 = walk_lines(us, them, 0);
                let wf = walk_lines(us, them, f as int);
                &&& (!us_won && !them_won) ==> {
                    &&& w0.us_won == wf.us_won
                    &&& w0.them_won == wf.them_won
                    &&& (!wf.us_won && !wf.them_won) ==> (w0.large == large + wf.large
                        && w0.small == small + wf.small)
                }
                &&& us_won ==> (w0.us_won && !w0.them_won && !them_won)
                &&& them_won ==> (w0.them_won && !w0.us_won && !us_won)
            }),
        decreases
                8 - f,
                (if us_won || them_won {
                    0int
                } else {
                    1int
                }),
    {
        let uc = count_line(us, f);
        let tc = count_line(them, f);
        if uc > 0 && tc > 0 {
            f = f + 1;
        } else if uc == 3 {
            us_won = true;
        } else if tc == 3 {
            them_won = true;
        } else {
            let lu: i32 = if uc == 1 {
                20
            } else if uc == 2 {
                90
            } else {
                0
            };
            let lt: i32 = if tc == 1 {
                20
            } else if tc == 2 {
                90
            } else {
                0
            };
            let su: i32 = if uc == 1 {
                1
            } else if uc == 2 {
                8
            } else {
                0
            };
            let st: i32 = if tc == 1 {
                1
            } else if tc == 2 {
                8
            } else {
                0
            };
            large = large + (lu - lt);
            small = small + (su - st);
            f = f + 1;
        }
    }
    if us_won {
        (OUTCOME_WIN, 0)
    } else if them_won {
        (OUTCOME_LOSS, 0)
    } else if (us | them) == 511 {
        (0, 0)
    } else {
        let ps = position_score(us, them);
        (large + 25 * ps, small + ps)
    }
}

/// Builds the two evaluation tables, one entry for every index
/// `(them << 9) | us` with both halves below 512.
pub fn init() -> (t: Tables)
    ensures
        t.wf(),
{
    let mut large: Vec<i32> = Vec::new();
    let mut small: Vec<i32> = Vec::new();
    let mut them: u64 = 0;
    while them < 512
        invariant
            them <= 512,
            large@.len() == them * 512,
            small@.len() == them * 512,
            forall|i: int|
                0 <= i < large@.len() ==> #[trigger] large@[i] == eval_large_spec(
                    (i % 512) as u64,
                    (i / 512) as u64,
                ),
            forall|i: int|
                0 <= i < small@.len() ==> #[trigger] small@[i] == eval_small_spec(
                    (i % 512) as u64,
                    (i / 512) as u64,
                ),
        decreases 512 - them,
    {
        let mut us: u64 = 0;
        while us < 512
            invariant
                them < 512,
                us <= 512,
                large@.len() == them * 512 + us,
                small@.len() == them * 512 + us,
                forall|i: int|
                    0 <= i < large@.len() ==> #[trigger] large@[i] == eval_large_spec(
                        (i % 512) as u64,
                        (i / 512) as u64,
                    ),
                forall|i: int|
                    0 <= i < small@.len() ==> #[trigger] small@[i] == eval_small_spec(
                        (i % 512) as u64,
                        (i / 512) as u64,
                    ),
            decreases 512 - us,
        {
            let (el, es) = table_entry(us, them);
            proof {
                assert((them * 512 + us) % 512 == us && (them * 512 + us) / 512 == them) by (
                nonlinear_arith)
                    requires
                        us < 512 && them < 512,
                ;
            }
            large.push(el);
            small.push(es);
            us = us + 1;
        }
        them = them + 1;
    }
    Tables { large, small }
}

/// Table symmetry: swapping the two players' grids negates both entries.
pub proof fn lemma_table_symmetry(t: &Tables, a: u64, b: u64)
    requires
        t.wf(),
        a < 512,
        b < 512,
        a & b == 0,
    ensures
        t.large@[((a << 9) | b) as int] == -t.large@[((b << 9) | a) as int],
        t.small@[((a << 9) | b) as int] == -t.small@[((b << 9) | a) as int],
{
    lemma_table_index(a, b);
    lemma_table_index(b, a);
    lemma_and_comm(a, b);
    lemma_or_comm(a, b);
    lemma_walk_symmetry(b, a, 0);
    lemma_walk_flags(a, b, 0);
    lemma_walk_flags(b, a, 0);
    assert((a * 512 + b) % 512 == b && (a * 512 + b) / 512 == a) by (nonlinear_arith)
        requires
            a < 512 && b < 512,
    ;
    assert((b * 512 + a) % 512 == a && (b * 512 + a) / 512 == b) by (nonlinear_arith)
        requires
            a < 512 && b < 512,
    ;
}

/// A table index is the pair it encodes.
pub proof fn lemma_table_index(hi: u64, lo: u64)
    by (bit_vector)
    requires
        hi < 512,
        lo < 512,
    ensures
        ((hi << 9) | lo) == hi * 512 + lo,
        ((hi << 9) | lo) < 0x40000,
{
}

/// Terminal encoding: on disjoint grids where the two sides do not both
/// hold completed lines, the large entry is the winning value exactly when
/// `us` holds a line, and the losing value exactly when `them` does.
pub proof fn lemma_table_terminal(t: &Tables, us: u64, them: u64)
    requires
        t.wf(),
        us < 512,
        them < 512,
        us & them == 0,
        !(has_line(us) && has_line(them)),
    ensures
        (t.large@[((them << 9) | us) as int] == 1000000) == has_line(us),
        (t.large@[((them << 9) | us) as int] == -1000000) == has_line(them),
{
    lemma_table_index(them, us);
    lemma_walk_wins(us, them, 0);
    lemma_walk_bounds(us, them, 0);
    let w = walk_lines(us, them, 0);
    if w.us_won {
        assert(has_line(us));
    }
    if w.them_won {
        assert(has_line(them));
    }
    if has_line(us) {
        let f0 = choose|f0: int| 0 <= f0 < 8 && line_full(us, f0);
        assert(w.us_won);
    }
    if has_line(them) {
        let f0 = choose|f0: int| 0 <= f0 < 8 && line_full(them, f0);
        assert(w.them_won);
    }
}

} // verus!
