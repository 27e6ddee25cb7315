//! The static evaluator: the meta-grid table entry, short-circuited on a
//! decided or full meta grid, otherwise topped up with the small table
//! entry of every zone still in play; the total is negated for O.

use vstd::prelude::*;
use crate::board::{Board, wf, zone_o, zone_o_of, zone_sendable, zone_sendable_of, zone_x, zone_x_of};
use crate::tables::{
    OUTCOME_LOSS, OUTCOME_WIN, Tables, eval_large_spec, eval_small_spec, lemma_entry_range,
    lemma_table_index,
};

verus! {

/// The nine meta cells X owns, as a nine-bit grid.
pub open spec fn meta_x_grid(b: Board) -> u64 {
    (b.share >> 36) & 511
}

/// The nine meta cells O owns, as a nine-bit grid.
pub open spec fn meta_o_grid(b: Board) -> u64 {
    (b.share >> 45) & 511
}

/// What zone `z` adds to the evaluation: its small-table entry while the
/// zone is neither won nor full, otherwise nothing.
pub open spec fn zone_term(b: Board, z: u64) -> int {
    if zone_sendable(b, z) {
        eval_small_spec(zone_x(b, z), zone_o(b, z))
    } else {
        0
    }
}

/// The zone contributions of the zones below `n`, summed.
pub open spec fn zone_sum_upto(b: Board, n: int) -> int
    decreases n,
{
    if n <= 0 {
        0
    } else {
        zone_sum_upto(b, n - 1) + zone_term(b, (n - 1) as u64)
    }
}

/// The board's worth from X's point of view.
pub open spec fn eval_x(b: Board) -> int {
    let e = eval_large_spec(meta_x_grid(b), meta_o_grid(b));
    if e == 1000000 || e == -1000000 {
        e
    } else if (meta_x_grid(b) | meta_o_grid(b)) == 511 {
        0
    } else {
        e + zone_sum_upto(b, 9)
    }
}

/// The board's worth for the side to move: positive is good for the
/// mover.
pub open spec fn eval_spec(b: Board, side: bool) -> int {
    if side {
        -eval_x(b)
    } else {
        eval_x(b)
    }
}

/// Decomposing the 18-bit meta table index into its two nine-bit grids,
/// and the two forms of the full-meta test.
pub proof fn lemma_meta_index(x: u64)
    by (bit_vector)
    ensures
        ((x >> 36) & 0x3FFFF) < 0x40000,
        ((x >> 36) & 0x3FFFF) % 512 == (x >> 36) & 511,
        ((x >> 36) & 0x3FFFF) / 512 == (x >> 45) & 511,
        (((x >> 36) | (x >> 45)) & 511 == 511) == ((((x >> 36) & 511) | ((x >> 45) & 511))
            == 511),
{
}

/// A nine-bit mask keeps its word below 512.
pub proof fn lemma_mask512(x: u64)
    by (bit_vector)
    ensures
        x & 511 < 512,
{
}

/// The zone sum grows by at most 121 per zone.
pub proof fn lemma_zone_sum_bound(b: Board, n: int)
    requires
        0 <= n <= 9,
    ensures
        -121 * n <= zone_sum_upto(b, n) <= 121 * n,
    decreases n,
{
    if n > 0 {
        lemma_zone_sum_bound(b, n - 1);
        lemma_entry_range(zone_x(b, (n - 1) as u64), zone_o(b, (n - 1) as u64));
    }
}

/// The static evaluation stays strictly inside the two outcome values
/// unless the meta grid itself is decided.
pub proof fn lemma_eval_range(b: Board, side: bool)
    ensures
        -1000000 <= eval_spec(b, side) <= 1000000,
{
    lemma_entry_range(meta_x_grid(b), meta_o_grid(b));
    lemma_zone_sum_bound(b, 9);
}

/// One bit of an `and`, as a boolean.
proof fn lemma_and_bit_bool(x: u64, y: u64, t: u64)
    by (bit_vector)
    ensures
        (((x & y) >> t) & 1 == 1) == (((x >> t) & 1 == 1) && ((y >> t) & 1 == 1)),
{
}

/// Nine-bit words without a shared set bit are bitwise disjoint.
proof fn lemma_grid_disjoint(gx: u64, gy: u64)
    requires
        gx < 512,
        gy < 512,
        forall|j: u64| j < 9 ==> !(#[trigger] crate::bits::grid_bit(gx, j) && crate::bits::grid_bit(gy, j)),
    ensures
        gx & gy == 0,
{
    assert forall|t: u64| t < 64 implies #[trigger] (((gx & gy) >> t) & 1) == ((0u64 >> t)
        & 1) by {
        lemma_and_bit_bool(gx, gy, t);
        crate::board::lemma_zero_bit(t);
        crate::tables::lemma_bit01(gx & gy, t);
        lemma_small_grid_bit(gx, t);
        lemma_small_grid_bit(gy, t);
        if t < 9 {
            assert(!(crate::bits::grid_bit(gx, t) && crate::bits::grid_bit(gy, t)));
        }
    }
    crate::bits::lemma_word_eq(gx & gy, 0);
}

/// A nine-bit word has no bits at nine and beyond.
proof fn lemma_small_grid_bit(x: u64, t: u64)
    by (bit_vector)
    requires
        x < 512,
    ensures
        9 <= t < 64 ==> (x >> t) & 1 == 0,
{
}

/// A well-formed board's two grids of one zone share no cell, nor do its
/// two meta grids.
proof fn lemma_wf_disjoint_grids(b: Board)
    requires
        wf(b),
    ensures
        forall|z: u64| z < 9 ==> #[trigger] (zone_x(b, z) & zone_o(b, z)) == 0,
        meta_x_grid(b) & meta_o_grid(b) == 0,
{
    assert forall|z: u64| z < 9 implies #[trigger] (zone_x(b, z) & zone_o(b, z)) == 0 by {
        lemma_mask512_zone(b, z);
        assert forall|j: u64| j < 9 implies !(#[trigger] crate::bits::grid_bit(zone_x(b, z), j)
            && crate::bits::grid_bit(zone_o(b, z), j)) by {
            crate::board::lemma_zone_cell_bit(b, z, j);
            crate::board::lemma_zone_cell_bit_o(b, z, j);
            assert(!(crate::board::x_bit(b, (9 * z + j) as u64) && crate::board::o_bit(
                b,
                (9 * z + j) as u64,
            )));
        }
        lemma_grid_disjoint(zone_x(b, z), zone_o(b, z));
    }
    lemma_mask512(b.share >> 36);
    lemma_mask512(b.share >> 45);
    assert forall|j: u64| j < 9 implies !(#[trigger] crate::bits::grid_bit(meta_x_grid(b), j)
        && crate::bits::grid_bit(meta_o_grid(b), j)) by {
        crate::bits::lemma_window_bit9(b.share, 36, j);
        crate::bits::lemma_window_bit9(b.share, 45, j);
        crate::board::lemma_shift_compose(b.share, 36, j);
        crate::board::lemma_shift_compose(b.share, 45, j);
        assert(!(crate::board::meta_x(b, j) && crate::board::meta_o(b, j)));
    }
    lemma_grid_disjoint(meta_x_grid(b), meta_o_grid(b));
}

/// Both grids of a zone are nine-bit words.
proof fn lemma_mask512_zone(b: Board, z: u64)
    requires
        z < 9,
    ensures
        zone_x(b, z) < 512,
        zone_o(b, z) < 512,
{
    if z < 7 {
        lemma_mask512(b.us >> ((9 * z) as u64));
        lemma_mask512(b.them >> ((9 * z) as u64));
    } else {
        lemma_mask512(b.share >> ((9 * z - 63) as u64));
        lemma_mask512(b.share >> ((9 * z - 45) as u64));
    }
}

/// The meta grids of the mirrored board are the original's, swapped.
proof fn lemma_mirror_meta_grids(b: Board)
    ensures
        meta_x_grid(crate::board::mirror(b)) == meta_o_grid(b),
        meta_o_grid(crate::board::mirror(b)) == meta_x_grid(b),
{
    let m = crate::board::mirror(b);
    crate::board::lemma_mirror_views(b);
    assert forall|j: u64| j < 64 implies #[trigger] ((meta_x_grid(m) >> j) & 1) == ((meta_o_grid(
        b,
    ) >> j) & 1) by {
        crate::bits::lemma_window_bit9(m.share, 36, j);
        crate::bits::lemma_window_bit9(b.share, 45, j);
        if j < 9 {
            crate::board::lemma_shift_compose(m.share, 36, j);
            crate::board::lemma_shift_compose(b.share, 45, j);
            crate::tables::lemma_bit01(m.share, (36 + j) as u64);
            crate::tables::lemma_bit01(b.share, (45 + j) as u64);
            assert(crate::board::meta_x(m, j) == crate::board::meta_o(b, j));
        }
    }
    crate::bits::lemma_word_eq(meta_x_grid(m), meta_o_grid(b));
    assert forall|j: u64| j < 64 implies #[trigger] ((meta_o_grid(m) >> j) & 1) == ((meta_x_grid(
        b,
    ) >> j) & 1) by {
        crate::bits::lemma_window_bit9(m.share, 45, j);
        crate::bits::lemma_window_bit9(b.share, 36, j);
        if j < 9 {
            crate::board::lemma_shift_compose(m.share, 45, j);
            crate::board::lemma_shift_compose(b.share, 36, j);
            crate::tables::lemma_bit01(m.share, (45 + j) as u64);
            crate::tables::lemma_bit01(b.share, (36 + j) as u64);
            assert(crate::board::meta_o(m, j) == crate::board::meta_x(b, j));
        }
    }
    crate::bits::lemma_word_eq(meta_o_grid(m), meta_x_grid(b));
}

/// The zone contributions of the mirrored board, negated.
proof fn lemma_mirror_zone_sum(b: Board, n: int)
    requires
        wf(b),
        0 <= n <= 9,
    ensures
        zone_sum_upto(crate::board::mirror(b), n) == -zone_sum_upto(b, n),
    decreases n,
{
    let m = crate::board::mirror(b);
    if n > 0 {
        lemma_mirror_zone_sum(b, n - 1);
        let z = (n - 1) as u64;
        crate::board::lemma_mirror_views(b);
        lemma_wf_disjoint_grids(b);
        crate::tables::lemma_and_comm(zone_x(b, z), zone_o(b, z));
        crate::tables::lemma_or_comm(zone_x(b, z), zone_o(b, z));
        crate::tables::lemma_walk_symmetry(zone_x(b, z), zone_o(b, z), 0);
        crate::tables::lemma_walk_flags(zone_x(b, z), zone_o(b, z), 0);
        crate::tables::lemma_walk_flags(zone_o(b, z), zone_x(b, z), 0);
        assert(zone_x(m, z) == zone_o(b, z) && zone_o(m, z) == zone_x(b, z));
        assert(zone_term(m, z) == -zone_term(b, z));
    }
}

/// Mirroring the board negates the evaluation from X's point of view, so
/// the mover-relative score of the mirrored board for the other side is
/// the original mover's score.
pub proof fn lemma_eval_mirror(b: Board)
    requires
        wf(b),
    ensures
        eval_x(crate::board::mirror(b)) == -eval_x(b),
        forall|side: bool|
            eval_spec(crate::board::mirror(b), !side) == #[trigger] eval_spec(b, side),
{
    let m = crate::board::mirror(b);
    lemma_mirror_meta_grids(b);
    lemma_wf_disjoint_grids(b);
    crate::tables::lemma_and_comm(meta_x_grid(b), meta_o_grid(b));
    crate::tables::lemma_or_comm(meta_x_grid(b), meta_o_grid(b));
    crate::tables::lemma_walk_symmetry(meta_x_grid(b), meta_o_grid(b), 0);
    crate::tables::lemma_walk_flags(meta_x_grid(b), meta_o_grid(b), 0);
    crate::tables::lemma_walk_flags(meta_o_grid(b), meta_x_grid(b), 0);
    lemma_mirror_zone_sum(b, 9);
}

/// A line in the masked meta grid is a line in the raw shifted word.
proof fn lemma_mask_line(b: Board)
    ensures
        crate::bits::has_line(meta_x_grid(b)) == crate::bits::has_line(b.share >> 36),
        crate::bits::has_line(meta_o_grid(b)) == crate::bits::has_line(b.share >> 45),
{
    assert forall|j: u64| j < 9 implies #[trigger] crate::bits::grid_bit(meta_x_grid(b), j)
        == crate::bits::grid_bit(b.share >> 36, j) by {
        crate::bits::lemma_window_bit9(b.share, 36, j);
        crate::board::lemma_shift_compose(b.share, 36, j);
        crate::tables::lemma_bit01(b.share, (36 + j) as u64);
    }
    crate::bits::lemma_has_line_congruence(meta_x_grid(b), b.share >> 36);
    assert forall|j: u64| j < 9 implies #[trigger] crate::bits::grid_bit(meta_o_grid(b), j)
        == crate::bits::grid_bit(b.share >> 45, j) by {
        crate::bits::lemma_window_bit9(b.share, 45, j);
        crate::board::lemma_shift_compose(b.share, 45, j);
        crate::tables::lemma_bit01(b.share, (45 + j) as u64);
    }
    crate::bits::lemma_has_line_congruence(meta_o_grid(b), b.share >> 45);
}

/// A saturated meta entry certifies the decided meta grid.
pub proof fn lemma_large_mate(b: Board)
    requires
        wf(b),
    ensures
        (eval_large_spec(meta_x_grid(b), meta_o_grid(b)) == 1000000) ==> crate::bits::has_line(
            b.share >> 36,
        ),
        (eval_large_spec(meta_x_grid(b), meta_o_grid(b)) == -1000000) ==> crate::bits::has_line(
            b.share >> 45,
        ),
{
    lemma_wf_disjoint_grids(b);
    crate::tables::lemma_walk_wins(meta_x_grid(b), meta_o_grid(b), 0);
    crate::tables::lemma_walk_bounds(meta_x_grid(b), meta_o_grid(b), 0);
    lemma_mask_line(b);
}

/// A saturated evaluation certifies a decided meta grid for the right
/// player; any other evaluation stays far from the outcome values.
pub proof fn lemma_eval_mate(b: Board, side: bool)
    requires
        wf(b),
    ensures
        eval_spec(b, side) == 1000000 ==> (if side {
            crate::bits::has_line(b.share >> 45)
        } else {
            crate::bits::has_line(b.share >> 36)
        }),
        eval_spec(b, side) == -1000000 ==> (if side {
            crate::bits::has_line(b.share >> 36)
        } else {
            crate::bits::has_line(b.share >> 45)
        }),
        eval_spec(b, side) != 1000000 && eval_spec(b, side) != -1000000 ==> -3234 <= eval_spec(
            b,
            side,
        ) <= 3234,
{
    lemma_large_mate(b);
    lemma_entry_range(meta_x_grid(b), meta_o_grid(b));
    lemma_zone_sum_bound(b, 9);
}

/// The meta-grid table entry of the mirrored board is the original's,
/// negated.
pub proof fn lemma_eval_large_mirror(b: Board)
    requires
        wf(b),
    ensures
        eval_large_spec(
            meta_x_grid(crate::board::mirror(b)),
            meta_o_grid(crate::board::mirror(b)),
        ) == -eval_large_spec(meta_x_grid(b), meta_o_grid(b)),
{
    lemma_mirror_meta_grids(b);
    lemma_wf_disjoint_grids(b);
    crate::tables::lemma_and_comm(meta_x_grid(b), meta_o_grid(b));
    crate::tables::lemma_or_comm(meta_x_grid(b), meta_o_grid(b));
    crate::tables::lemma_walk_symmetry(meta_x_grid(b), meta_o_grid(b), 0);
    crate::tables::lemma_walk_flags(meta_x_grid(b), meta_o_grid(b), 0);
    crate::tables::lemma_walk_flags(meta_o_grid(b), meta_x_grid(b), 0);
}

/// Scores the board for `side`, summing table lookups.
pub fn evaluate(board: &Board, side: bool, tables: &Tables) -> (e: i32)
    requires
        tables.wf(),
    ensures
        e == eval_spec(*board, side),
{
    let m: u64 = (board.share >> 36) & 0x3FFFF;
    proof {
        lemma_meta_index(board.share);
    }
    let big = tables.large[m as usize];
    proof {
        assert(big == eval_large_spec(meta_x_grid(*board), meta_o_grid(*board)));
        lemma_entry_range(meta_x_grid(*board), meta_o_grid(*board));
    }
    if big == OUTCOME_WIN || big == OUTCOME_LOSS {
        return if side {
            -big
        } else {
            big
        };
    }
    if (((board.share >> 36) | (board.share >> 45)) & 511) == 511 {
        return 0;
    }
    let mut acc: i32 = big;
    let mut z: u64 = 0;
    while z < 9
        invariant
            z <= 9,
            tables.wf(),
            -2145 <= big <= 2145,
            big == eval_large_spec(meta_x_grid(*board), meta_o_grid(*board)),
            acc == big + zone_sum_upto(*board, z as int),
        decreases 9 - z,
    {
        proof {
            lemma_zone_sum_bound(*board, z as int);
        }
        if zone_sendable_of(board, z) {
            let zx = zone_x_of(board, z);
            let zo = zone_o_of(board, z);
            proof {
                if z < 7 {
                    lemma_mask512(board.us >> (9 * z));
                    lemma_mask512(board.them >> (9 * z));
                } else {
                    lemma_mask512(board.share >> (9 * z - 63));
                    lemma_mask512(board.share >> (9 * z - 45));
                }
                lemma_table_index(zo, zx);
                assert((zo * 512 + zx) % 512 == zx && (zo * 512 + zx) / 512 == zo) by (
                nonlinear_arith)
                    requires
                        zx < 512 && zo < 512,
                ;
                lemma_entry_range(zx, zo);
            }
            let idx = (zo << 9) | zx;
            let term = tables.small[idx as usize];
            acc = acc + term;
        }
        z = z + 1;
    }
    proof {
        lemma_zone_sum_bound(*board, 9);
    }
    if side {
        -acc
    } else {
        acc
    }
}

} // verus!
