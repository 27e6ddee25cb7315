//! Bit geometry of a 3x3 sub-grid: a grid is the nine low bits of a word,
//! and the eight winning lines are fixed triples of cells.

use vstd::prelude::*;

verus! {

/// True when bit `c` of `g` is set. A sub-grid occupies the nine low bits
/// of a word; higher bits never matter to the predicates below.
pub open spec fn grid_bit(g: u64, c: u64) -> bool {
    (g >> c) & 1 == 1
}

/// The three cells of winning line `f`: the three columns, then the three
/// rows, then the two diagonals.
pub open spec fn line_cells(f: int) -> (u64, u64, u64) {
    if f == 0 {
        (0, 3, 6)
    } else if f == 1 {
        (1, 4, 7)
    } else if f == 2 {
        (2, 5, 8)
    } else if f == 3 {
        (0, 1, 2)
    } else if f == 4 {
        (3, 4, 5)
    } else if f == 5 {
        (6, 7, 8)
    } else if f == 6 {
        (0, 4, 8)
    } else {
        (2, 4, 6)
    }
}

/// How many cells of line `f` are occupied in `g`.
pub open spec fn line_count(g: u64, f: int) -> int {
    (if grid_bit(g, line_cells(f).0) {
        1int
    } else {
        0int
    }) + (if grid_bit(g, line_cells(f).1) {
        1int
    } else {
        0int
    }) + (if grid_bit(g, line_cells(f).2) {
        1int
    } else {
        0int
    })
}

/// Line `f` is fully occupied in `g`.
pub open spec fn line_full(g: u64, f: int) -> bool {
    line_count(g, f) == 3
}

/// The grid holds at least one completed line.
pub open spec fn has_line(g: u64) -> bool {
    exists|f: int| 0 <= f < 8 && #[trigger] line_full(g, f)
}

/// `has_line`, written out as the eight cell patterns.
pub open spec fn win_patterns(g: u64) -> bool {
    ||| (grid_bit(g, 0) && grid_bit(g, 3) && grid_bit(g, 6))
    ||| (grid_bit(g, 1) && grid_bit(g, 4) && grid_bit(g, 7))
    ||| (grid_bit(g, 2) && grid_bit(g, 5) && grid_bit(g, 8))
    ||| (grid_bit(g, 0) && grid_bit(g, 1) && grid_bit(g, 2))
    ||| (grid_bit(g, 3) && grid_bit(g, 4) && grid_bit(g, 5))
    ||| (grid_bit(g, 6) && grid_bit(g, 7) && grid_bit(g, 8))
    ||| (grid_bit(g, 0) && grid_bit(g, 4) && grid_bit(g, 8))
    ||| (grid_bit(g, 2) && grid_bit(g, 4) && grid_bit(g, 6))
}

pub proof fn lemma_win_patterns(g: u64)
    ensures
        win_patterns(g) == has_line(g),
{
    if win_patterns(g) {
        if grid_bit(g, 0) && grid_bit(g, 3) && grid_bit(g, 6) {
            assert(line_full(g, 0));
        } else if grid_bit(g, 1) && grid_bit(g, 4) && grid_bit(g, 7) {
            assert(line_full(g, 1));
        } else if grid_bit(g, 2) && grid_bit(g, 5) && grid_bit(g, 8) {
            assert(line_full(g, 2));
        } else if grid_bit(g, 0) && grid_bit(g, 1) && grid_bit(g, 2) {
            assert(line_full(g, 3));
        } else if grid_bit(g, 3) && grid_bit(g, 4) && grid_bit(g, 5) {
            assert(line_full(g, 4));
        } else if grid_bit(g, 6) && grid_bit(g, 7) && grid_bit(g, 8) {
            assert(line_full(g, 5));
        } else if grid_bit(g, 0) && grid_bit(g, 4) && grid_bit(g, 8) {
            assert(line_full(g, 6));
        } else {
            assert(line_full(g, 7));
        }
    }
    if has_line(g) {
        let f = choose|f: int| 0 <= f < 8 && line_full(g, f);
        assert(win_patterns(g));
    }
}

/// Whether a grid holds a line depends only on its nine cell bits.
pub proof fn lemma_has_line_congruence(g1: u64, g2: u64)
    requires
        forall|c: u64| c < 9 ==> #[trigger] grid_bit(g1, c) == grid_bit(g2, c),
    ensures
        has_line(g1) == has_line(g2),
{
    assert forall|f: int| 0 <= f < 8 implies #[trigger] line_full(g1, f) == line_full(g2, f) by {
        assert(grid_bit(g1, line_cells(f).0) == grid_bit(g2, line_cells(f).0));
        assert(grid_bit(g1, line_cells(f).1) == grid_bit(g2, line_cells(f).1));
        assert(grid_bit(g1, line_cells(f).2) == grid_bit(g2, line_cells(f).2));
    }
    if has_line(g1) {
        let f = choose|f: int| 0 <= f < 8 && line_full(g1, f);
        assert(line_full(g2, f));
    }
    if has_line(g2) {
        let f = choose|f: int| 0 <= f < 8 && line_full(g2, f);
        assert(line_full(g1, f));
    }
}

/// The per-line fan-out of a sub-grid: eight 3-bit fields, field `f` bit `j`
/// set exactly when cell `j` of line `f` is occupied. Each input bit feeds a
/// fixed set of field bits, so the fan-out is a sum of constant multiples.
pub open spec fn lines_fan(g: u64) -> int {
    (g & 1) * 0x40201 + ((g >> 1) & 1) * 0x408 + ((g >> 2) & 1) * 0x200840 + ((g >> 3) & 1)
        * 0x1002 + ((g >> 4) & 1) * 0x482010 + ((g >> 5) & 1) * 0x4080 + ((g >> 6) & 1) * 0x808004
        + ((g >> 7) & 1) * 0x10020 + ((g >> 8) & 1) * 0x120100
}

/// Maps a sub-grid to its 24-bit per-line occupancy fan-out, without
/// branches.
pub fn lines(grid: u64) -> (r: u64)
    ensures
        r == lines_fan(grid),
{
    proof {
        assert((grid & 1) <= 1 && ((grid >> 1) & 1) <= 1 && ((grid >> 2) & 1) <= 1 && ((grid >> 3)
            & 1) <= 1 && ((grid >> 4) & 1) <= 1 && ((grid >> 5) & 1) <= 1 && ((grid >> 6) & 1) <= 1
            && ((grid >> 7) & 1) <= 1 && ((grid >> 8) & 1) <= 1) by (bit_vector);
    }
    (grid & 1) * 0x40201 + ((grid >> 1) & 1) * 0x408 + ((grid >> 2) & 1) * 0x200840 + ((grid >> 3)
        & 1) * 0x1002 + ((grid >> 4) & 1) * 0x482010 + ((grid >> 5) & 1) * 0x4080 + ((grid >> 6)
        & 1) * 0x808004 + ((grid >> 7) & 1) * 0x10020 + ((grid >> 8) & 1) * 0x120100
}

/// Decides whether any line of the sub-grid is fully occupied, by testing
/// every 3-bit field of the fan-out for the value 7 at once.
pub fn line_presence(grid: u64) -> (r: bool)
    ensures
        r == has_line(grid),
{
    let l = lines(grid);
    let r = (l & (l >> 1) & (l >> 2) & 0x249249) != 0;
    proof {
        assert(((l & (l >> 1) & (l >> 2) & 0x249249) != 0) == win_patterns(grid))
            by (bit_vector)
            requires
                l == lines_fan(grid),
        ;
        lemma_win_patterns(grid);
    }
    r
}

/// A word is its low bits below `n+1`, split into the low bits below `n`
/// and the bit at `n`.
pub proof fn lemma_mask_step(x: u64, n: u64)
    by (bit_vector)
    requires
        n < 63,
    ensures
        x & (((1u64 << ((n + 1) as u64)) - 1) as u64) == (x & (((1u64 << n) - 1) as u64)) | (((x >> n) & 1) << n),
        x & (((1u64 << 0u64) - 1) as u64) == 0,
{
}

/// A word is its low 63 bits and its top bit.
pub proof fn lemma_split_top(x: u64)
    by (bit_vector)
    ensures
        x == (x & (((1u64 << 63u64) - 1) as u64)) | (((x >> 63u64) & 1) << 63u64),
{
}

/// Words that agree on the bits below `n` agree on the low mask of `n`.
pub proof fn lemma_low_eq(x: u64, y: u64, n: u64)
    requires
        n <= 63,
        forall|c: u64| c < n ==> #[trigger] ((x >> c) & 1) == ((y >> c) & 1),
    ensures
        x & (((1u64 << n) - 1) as u64) == y & (((1u64 << n) - 1) as u64),
    decreases n,
{
    if n == 0 {
        lemma_mask_step(x, 0);
        lemma_mask_step(y, 0);
    } else {
        lemma_low_eq(x, y, (n - 1) as u64);
        lemma_mask_step(x, (n - 1) as u64);
        lemma_mask_step(y, (n - 1) as u64);
        assert(((x >> ((n - 1) as u64)) & 1) == ((y >> ((n - 1) as u64)) & 1));
    }
}

/// Words with the same bits are the same word.
pub proof fn lemma_word_eq(x: u64, y: u64)
    requires
        forall|c: u64| c < 64 ==> #[trigger] ((x >> c) & 1) == ((y >> c) & 1),
    ensures
        x == y,
{
    lemma_low_eq(x, y, 63);
    lemma_split_top(x);
    lemma_split_top(y);
    assert(((x >> 63u64) & 1) == ((y >> 63u64) & 1));
}

/// A nine-bit window read, bit by bit.
pub proof fn lemma_window_bit9(x: u64, s: u64, j: u64)
    by (bit_vector)
    requires
        s <= 54,
        j < 64,
    ensures
        (((x >> s) & 511) >> j) & 1 == (if j < 9 {
            (x >> ((s + j) as u64)) & 1
        } else {
            0u64
        }),
{
}

/// Words that agree on a nine-bit window agree on its value.
pub proof fn lemma_window_eq(x: u64, y: u64, s: u64)
    requires
        s <= 45,
        forall|t: u64| s <= t < s + 9 ==> #[trigger] ((x >> t) & 1) == ((y >> t) & 1),
    ensures
        (x >> s) & 511 == (y >> s) & 511,
{
    let a = (x >> s) & 511;
    let bb = (y >> s) & 511;
    assert forall|j: u64| j < 64 implies #[trigger] ((a >> j) & 1) == ((bb >> j) & 1) by {
        lemma_window_bit9(x, s, j);
        lemma_window_bit9(y, s, j);
        if j < 9 {
            assert(((x >> ((s + j) as u64)) & 1) == ((y >> ((s + j) as u64)) & 1));
        }
    }
    lemma_word_eq(a, bb);
}

} // verus!
