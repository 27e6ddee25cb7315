//! The packed three-word board: player X's cells in `us` and the low
//! eighteen bits of `share`, player O's in `them` and the next eighteen,
//! the two meta grids in bits 36..54 of `share`, and the next-zone field
//! in bits 54..58.

use vstd::prelude::*;
use crate::bits::{grid_bit, has_line, line_cells, line_full};

verus! {

/// A cell index in `[0, 81)`; the value 81 is the null-move sentinel.
pub type Move = u64;

/// Next-zone field value meaning "any zone that is open".
pub const ZONE_ANY: u64 = 9;

/// Sentinel for an unused principal-variation slot.
pub const NULL_MOVE: u64 = 81;

/// The packed board. The side flag is `false` for X and `true` for O
/// everywhere in this crate.
#[derive(Clone, Copy, PartialEq, Eq, Structural, Debug)]
pub struct Board {
    pub us: u64,
    pub them: u64,
    pub share: u64,
}

/// Player X occupies cell `c`.
pub open spec fn x_bit(b: Board, c: u64) -> bool {
    if c < 63 {
        grid_bit(b.us, c)
    } else {
        grid_bit(b.share, (c - 63) as u64)
    }
}

/// Player O occupies cell `c`.
pub open spec fn o_bit(b: Board, c: u64) -> bool {
    if c < 63 {
        grid_bit(b.them, c)
    } else {
        grid_bit(b.share, (c - 45) as u64)
    }
}

/// The moving side occupies cell `c`.
pub open spec fn side_bit(b: Board, c: u64, side: bool) -> bool {
    if side {
        o_bit(b, c)
    } else {
        x_bit(b, c)
    }
}

/// Neither player occupies cell `c`.
pub open spec fn cell_free(b: Board, c: u64) -> bool {
    !x_bit(b, c) && !o_bit(b, c)
}

/// X has won zone `z` on the meta grid.
pub open spec fn meta_x(b: Board, z: u64) -> bool {
    grid_bit(b.share >> 36, z)
}

/// O has won zone `z` on the meta grid.
pub open spec fn meta_o(b: Board, z: u64) -> bool {
    grid_bit(b.share >> 45, z)
}

/// The next-zone field: a zone index, or `ZONE_ANY`.
pub open spec fn zone_field(b: Board) -> u64 {
    (b.share >> 54) & 15
}

/// The nine-bit occupancy of zone `z` for player X.
pub open spec fn zone_x(b: Board, z: u64) -> u64 {
    if z < 7 {
        (b.us >> ((9 * z) as u64)) & 511
    } else {
        (b.share >> ((9 * z - 63) as u64)) & 511
    }
}

/// The nine-bit occupancy of zone `z` for player O.
pub open spec fn zone_o(b: Board, z: u64) -> u64 {
    if z < 7 {
        (b.them >> ((9 * z) as u64)) & 511
    } else {
        (b.share >> ((9 * z - 45) as u64)) & 511
    }
}

/// The nine-bit occupancy of zone `z` for the moving side.
pub open spec fn zone_side(b: Board, z: u64, side: bool) -> u64 {
    if side {
        zone_o(b, z)
    } else {
        zone_x(b, z)
    }
}

/// Neither player has won zone `z`.
pub open spec fn zone_open(b: Board, z: u64) -> bool {
    !meta_x(b, z) && !meta_o(b, z)
}

/// Zone `z` may be sent to: not won by either side and not full.
pub open spec fn zone_sendable(b: Board, z: u64) -> bool {
    zone_open(b, z) && (zone_x(b, z) | zone_o(b, z)) != 511
}

/// The game is over: either player completed a meta-grid line.
pub open spec fn terminal(b: Board) -> bool {
    has_line(b.share >> 36) || has_line(b.share >> 45)
}

/// Cell `c` is a legal move on `b`: the game is not over, the cell's zone
/// is the constrained one (or any open zone when the field says any), and
/// the cell is empty.
pub open spec fn legal(b: Board, c: u64) -> bool {
    &&& c < 81
    &&& !terminal(b)
    &&& if zone_field(b) == ZONE_ANY {
        zone_open(b, c / 9)
    } else {
        c / 9 == zone_field(b)
    }
    &&& cell_free(b, c)
}

/// The board invariant: unused bits are clear, no cell is claimed by both
/// players, each meta bit reflects a completed line in its zone for its
/// player only, at most one side owns a zone, and a constrained next zone
/// is neither won nor full.
pub open spec fn wf(b: Board) -> bool {
    &&& zone_field(b) <= 9
    &&& !grid_bit(b.us, 63)
    &&& !grid_bit(b.them, 63)
    &&& forall|c: u64| 58 <= c < 64 ==> !(#[trigger] grid_bit(b.share, c))
    &&& forall|c: u64| c < 81 ==> !(#[trigger] x_bit(b, c) && o_bit(b, c))
    &&& forall|z: u64| z < 9 ==> (#[trigger] meta_x(b, z)) == has_line(zone_x(b, z))
    &&& forall|z: u64| z < 9 ==> (#[trigger] meta_o(b, z)) == has_line(zone_o(b, z))
    &&& forall|z: u64| z < 9 ==> !((#[trigger] meta_x(b, z)) && meta_o(b, z))
    &&& (zone_field(b) < 9 ==> zone_sendable(b, zone_field(b)))
}

/// The board with cell `c` granted to `side`: zones 0..6 live in `us` or
/// `them`, zones 7..8 in the low half of `share`.
pub open spec fn with_cell(b: Board, c: u64, side: bool) -> Board {
    if c >= 63 {
        Board {
            us: b.us,
            them: b.them,
            share: b.share | (1u64 << ((c - 63 + (if side {
                18int
            } else {
                0int
            })) as u64)),
        }
    } else if !side {
        Board { us: b.us | (1u64 << c), them: b.them, share: b.share }
    } else {
        Board { us: b.us, them: b.them | (1u64 << c), share: b.share }
    }
}

/// The board with the meta bit of zone `z` set for `side`.
pub open spec fn with_meta(b: Board, z: u64, side: bool) -> Board {
    Board {
        us: b.us,
        them: b.them,
        share: b.share | (1u64 << ((36 + (if side {
            9int
        } else {
            0int
        }) + z) as u64)),
    }
}

/// The board with the next-zone field replaced by `nz`.
pub open spec fn with_zone_field(b: Board, nz: u64) -> Board {
    Board { us: b.us, them: b.them, share: (b.share & 0xFC3F_FFFF_FFFF_FFFFu64) | (nz << 54) }
}

/// The successor of `b` after `side` plays cell `mv`: the cell bit is set,
/// the mover's meta bit follows a completed line in the zone just played,
/// and the next-zone field becomes `mv % 9`, or any if that target zone is
/// won or full.
pub open spec fn play_move_spec(b: Board, mv: u64, side: bool) -> Board {
    let b1 = with_cell(b, mv, side);
    let b2 = if has_line(zone_side(b1, mv / 9, side)) {
        with_meta(b1, mv / 9, side)
    } else {
        b1
    };
    let tgt = mv % 9;
    let nz = if zone_sendable(b2, tgt) {
        tgt
    } else {
        ZONE_ANY
    };
    with_zone_field(b2, nz)
}

/// Reading one bit of a word with a single extra bit set.
pub proof fn lemma_or_bit(x: u64, k: u64, c: u64)
    by (bit_vector)
    requires
        k < 64,
        c < 64,
    ensures
        ((x | (1u64 << k)) >> c) & 1 == (if c == k {
            1u64
        } else {
            (x >> c) & 1
        }),
{
}

/// Reading a nine-bit window of a word with a single extra bit set.
pub proof fn lemma_or_window(x: u64, k: u64, s: u64)
    by (bit_vector)
    requires
        k < 64,
        s < 64,
    ensures
        !(s <= k < s + 9) ==> ((x | (1u64 << k)) >> s) & 511 == (x >> s) & 511,
        (s <= k < s + 9) ==> ((x | (1u64 << k)) >> s) & 511 == ((x >> s) & 511) | (1u64 << ((k
            - s) as u64)),
{
}

/// Two shifts compose into one for a single-bit read.
pub proof fn lemma_shift_compose(x: u64, s: u64, t: u64)
    by (bit_vector)
    requires
        s + t < 64,
    ensures
        ((x >> s) >> t) & 1 == (x >> ((s + t) as u64)) & 1,
{
}

/// Setting a bit below the next-zone field leaves the field alone.
pub proof fn lemma_or_field(x: u64, k: u64)
    by (bit_vector)
    requires
        k < 54,
    ensures
        ((x | (1u64 << k)) >> 54) & 15 == (x >> 54) & 15,
{
}

/// Replacing the next-zone field: the field reads back, and every bit and
/// nine-bit window outside it is untouched.
pub proof fn lemma_zone_field_write(x: u64, nz: u64, y: u64)
    by (bit_vector)
    requires
        nz <= 15,
        y == (x & 0xFC3F_FFFF_FFFF_FFFFu64) | (nz << 54),
    ensures
        (y >> 54) & 15 == nz,
        forall|c: u64| c < 54 || 58 <= c < 64 ==> ((y >> c) & 1 == (x >> c) & 1),
        forall|s: u64| s <= 45 ==> ((y >> s) & 511 == (x >> s) & 511),
{
}

/// No bit of zero is set.
pub proof fn lemma_zero_bit(c: u64)
    by (bit_vector)
    ensures
        (0u64 >> c) & 1 == 0,
{
}

/// A grid without occupied cells holds no line.
pub proof fn lemma_no_line_in_empty()
    ensures
        !has_line(0),
{
    assert forall|f: int| 0 <= f < 8 implies !line_full(0, f) by {
        lemma_zero_bit(line_cells(f).0);
        lemma_zero_bit(line_cells(f).1);
        lemma_zero_bit(line_cells(f).2);
    }
}

/// Facts about the starting word `9 << 54`: the zone field reads 9 and
/// every other bit and window is clear.
proof fn lemma_empty_share()
    by (bit_vector)
    ensures
        ((9u64 << 54) >> 54) & 15 == 9,
        forall|c: u64| c < 54 || 58 <= c < 64 ==> ((9u64 << 54) >> c) & 1 == 0,
        forall|s: u64| s <= 45 ==> ((9u64 << 54) >> s) & 511 == 0,
        forall|s: u64| (0u64 >> s) & 511 == 0,
{
}

/// What granting a cell changes: exactly the mover's bit at that cell;
/// meta bits, the zone field, the unused bits and every other zone grid
/// stay as they were.
pub proof fn lemma_with_cell_frame(b: Board, mv: u64, side: bool)
    requires
        mv < 81,
    ensures
        forall|c: u64|
            c < 81 ==> #[trigger] x_bit(with_cell(b, mv, side), c) == (x_bit(b, c) || (!side && c
                == mv)),
        forall|c: u64|
            c < 81 ==> #[trigger] o_bit(with_cell(b, mv, side), c) == (o_bit(b, c) || (side && c
                == mv)),
        forall|z: u64| z < 9 ==> #[trigger] meta_x(with_cell(b, mv, side), z) == meta_x(b, z),
        forall|z: u64| z < 9 ==> #[trigger] meta_o(with_cell(b, mv, side), z) == meta_o(b, z),
        zone_field(with_cell(b, mv, side)) == zone_field(b),
        forall|z: u64|
            z < 9 && !(!side && z == mv / 9) ==> #[trigger] zone_x(with_cell(b, mv, side), z)
                == zone_x(b, z),
        forall|z: u64|
            z < 9 && !(side && z == mv / 9) ==> #[trigger] zone_o(with_cell(b, mv, side), z)
                == zone_o(b, z),
        grid_bit(with_cell(b, mv, side).us, 63) == grid_bit(b.us, 63),
        grid_bit(with_cell(b, mv, side).them, 63) == grid_bit(b.them, 63),
        forall|c: u64|
            58 <= c < 64 ==> #[trigger] grid_bit(with_cell(b, mv, side).share, c) == grid_bit(
                b.share,
                c,
            ),
{
    let b1 = with_cell(b, mv, side);
    let k: u64 = if mv >= 63 {
        (mv - 63 + (if side {
            18u64
        } else {
            0u64
        })) as u64
    } else {
        mv
    };
    assert forall|c: u64| c < 81 implies #[trigger] x_bit(b1, c) == (x_bit(b, c) || (!side && c
        == mv)) by {
        if mv >= 63 {
            lemma_or_bit(b.share, k, (if c >= 63 {
                c - 63
            } else {
                c as int
            }) as u64);
        } else if !side {
            if c < 63 {
                lemma_or_bit(b.us, k, c);
            }
        }
    }
    assert forall|c: u64| c < 81 implies #[trigger] o_bit(b1, c) == (o_bit(b, c) || (side && c
        == mv)) by {
        if mv >= 63 {
            lemma_or_bit(b.share, k, (if c >= 63 {
                c - 45
            } else {
                c as int
            }) as u64);
        } else if side {
            if c < 63 {
                lemma_or_bit(b.them, k, c);
            }
        }
    }
    assert forall|z: u64| z < 9 implies #[trigger] meta_x(b1, z) == meta_x(b, z) by {
        if mv >= 63 {
            lemma_shift_compose(b.share, 36, z);
            lemma_shift_compose(b1.share, 36, z);
            lemma_or_bit(b.share, k, (36 + z) as u64);
        }
    }
    assert forall|z: u64| z < 9 implies #[trigger] meta_o(b1, z) == meta_o(b, z) by {
        if mv >= 63 {
            lemma_shift_compose(b.share, 45, z);
            lemma_shift_compose(b1.share, 45, z);
            lemma_or_bit(b.share, k, (45 + z) as u64);
        }
    }
    if mv >= 63 {
        lemma_or_field(b.share, k);
    }
    assert forall|z: u64| z < 9 && !(!side && z == mv / 9) implies #[trigger] zone_x(b1, z)
        == zone_x(b, z) by {
        if mv >= 63 && z >= 7 {
            lemma_or_window(b.share, k, (9 * z - 63) as u64);
        } else if mv < 63 && !side && z < 7 {
            lemma_or_window(b.us, k, (9 * z) as u64);
        }
    }
    assert forall|z: u64| z < 9 && !(side && z == mv / 9) implies #[trigger] zone_o(b1, z)
        == zone_o(b, z) by {
        if mv >= 63 && z >= 7 {
            lemma_or_window(b.share, k, (9 * z - 45) as u64);
        } else if mv < 63 && side && z < 7 {
            lemma_or_window(b.them, k, (9 * z) as u64);
        }
    }
    if mv < 63 {
        if !side {
            lemma_or_bit(b.us, k, 63);
        } else {
            lemma_or_bit(b.them, k, 63);
        }
    }
    assert forall|c: u64| 58 <= c < 64 implies #[trigger] grid_bit(b1.share, c) == grid_bit(
        b.share,
        c,
    ) by {
        if mv >= 63 {
            lemma_or_bit(b.share, k, c);
        }
    }
}

/// What setting a meta bit changes: exactly that bit; cells, zone grids,
/// the zone field and the unused bits stay as they were.
pub proof fn lemma_with_meta_frame(b: Board, z0: u64, side: bool)
    requires
        z0 < 9,
    ensures
        forall|c: u64| c < 81 ==> #[trigger] x_bit(with_meta(b, z0, side), c) == x_bit(b, c),
        forall|c: u64| c < 81 ==> #[trigger] o_bit(with_meta(b, z0, side), c) == o_bit(b, c),
        forall|z: u64|
            z < 9 ==> #[trigger] meta_x(with_meta(b, z0, side), z) == (meta_x(b, z) || (!side && z
                == z0)),
        forall|z: u64|
            z < 9 ==> #[trigger] meta_o(with_meta(b, z0, side), z) == (meta_o(b, z) || (side && z
                == z0)),
        zone_field(with_meta(b, z0, side)) == zone_field(b),
        forall|z: u64| z < 9 ==> #[trigger] zone_x(with_meta(b, z0, side), z) == zone_x(b, z),
        forall|z: u64| z < 9 ==> #[trigger] zone_o(with_meta(b, z0, side), z) == zone_o(b, z),
        forall|c: u64|
            58 <= c < 64 ==> #[trigger] grid_bit(with_meta(b, z0, side).share, c) == grid_bit(
                b.share,
                c,
            ),
{
    let b2 = with_meta(b, z0, side);
    let k: u64 = (36 + (if side {
        9u64
    } else {
        0u64
    }) + z0) as u64;
    assert forall|c: u64| c < 81 implies #[trigger] x_bit(b2, c) == x_bit(b, c) by {
        if c >= 63 {
            lemma_or_bit(b.share, k, (c - 63) as u64);
        }
    }
    assert forall|c: u64| c < 81 implies #[trigger] o_bit(b2, c) == o_bit(b, c) by {
        if c >= 63 {
            lemma_or_bit(b.share, k, (c - 45) as u64);
        }
    }
    assert forall|z: u64| z < 9 implies #[trigger] meta_x(b2, z) == (meta_x(b, z) || (!side && z
        == z0)) by {
        lemma_shift_compose(b.share, 36, z);
        lemma_shift_compose(b2.share, 36, z);
        lemma_or_bit(b.share, k, (36 + z) as u64);
    }
    assert forall|z: u64| z < 9 implies #[trigger] meta_o(b2, z) == (meta_o(b, z) || (side && z
        == z0)) by {
        lemma_shift_compose(b.share, 45, z);
        lemma_shift_compose(b2.share, 45, z);
        lemma_or_bit(b.share, k, (45 + z) as u64);
    }
    lemma_or_field(b.share, k);
    assert forall|z: u64| z < 9 implies #[trigger] zone_x(b2, z) == zone_x(b, z) by {
        if z >= 7 {
            lemma_or_window(b.share, k, (9 * z - 63) as u64);
        }
    }
    assert forall|z: u64| z < 9 implies #[trigger] zone_o(b2, z) == zone_o(b, z) by {
        if z >= 7 {
            lemma_or_window(b.share, k, (9 * z - 45) as u64);
        }
    }
    assert forall|c: u64| 58 <= c < 64 implies #[trigger] grid_bit(b2.share, c) == grid_bit(
        b.share,
        c,
    ) by {
        lemma_or_bit(b.share, k, c);
    }
}

/// What replacing the zone field changes: exactly the field.
pub proof fn lemma_with_zone_field_frame(b: Board, nz: u64)
    requires
        nz <= 15,
    ensures
        forall|c: u64| c < 81 ==> #[trigger] x_bit(with_zone_field(b, nz), c) == x_bit(b, c),
        forall|c: u64| c < 81 ==> #[trigger] o_bit(with_zone_field(b, nz), c) == o_bit(b, c),
        forall|z: u64| z < 9 ==> #[trigger] meta_x(with_zone_field(b, nz), z) == meta_x(b, z),
        forall|z: u64| z < 9 ==> #[trigger] meta_o(with_zone_field(b, nz), z) == meta_o(b, z),
        zone_field(with_zone_field(b, nz)) == nz,
        forall|z: u64| z < 9 ==> #[trigger] zone_x(with_zone_field(b, nz), z) == zone_x(b, z),
        forall|z: u64| z < 9 ==> #[trigger] zone_o(with_zone_field(b, nz), z) == zone_o(b, z),
        forall|c: u64|
            58 <= c < 64 ==> #[trigger] grid_bit(with_zone_field(b, nz).share, c) == grid_bit(
                b.share,
                c,
            ),
{
    let b3 = with_zone_field(b, nz);
    lemma_zone_field_write(b.share, nz, b3.share);
    assert forall|c: u64| c < 81 implies #[trigger] x_bit(b3, c) == x_bit(b, c) by {
        if c >= 63 {
            assert((b3.share >> ((c - 63) as u64)) & 1 == (b.share >> ((c - 63) as u64)) & 1);
        }
    }
    assert forall|c: u64| c < 81 implies #[trigger] o_bit(b3, c) == o_bit(b, c) by {
        if c >= 63 {
            assert((b3.share >> ((c - 45) as u64)) & 1 == (b.share >> ((c - 45) as u64)) & 1);
        }
    }
    assert forall|z: u64| z < 9 implies #[trigger] meta_x(b3, z) == meta_x(b, z) by {
        lemma_shift_compose(b.share, 36, z);
        lemma_shift_compose(b3.share, 36, z);
        assert((b3.share >> ((36 + z) as u64)) & 1 == (b.share >> ((36 + z) as u64)) & 1);
    }
    assert forall|z: u64| z < 9 implies #[trigger] meta_o(b3, z) == meta_o(b, z) by {
        lemma_shift_compose(b.share, 45, z);
        lemma_shift_compose(b3.share, 45, z);
        assert((b3.share >> ((45 + z) as u64)) & 1 == (b.share >> ((45 + z) as u64)) & 1);
    }
    assert forall|z: u64| z < 9 implies #[trigger] zone_x(b3, z) == zone_x(b, z) by {
        if z >= 7 {
            assert((b3.share >> ((9 * z - 63) as u64)) & 511 == (b.share >> ((9 * z
                - 63) as u64)) & 511);
        }
    }
    assert forall|z: u64| z < 9 implies #[trigger] zone_o(b3, z) == zone_o(b, z) by {
        if z >= 7 {
            assert((b3.share >> ((9 * z - 45) as u64)) & 511 == (b.share >> ((9 * z
                - 45) as u64)) & 511);
        }
    }
}

/// A legal move lands in an open zone.
pub proof fn lemma_legal_zone_open(b: Board, mv: u64)
    requires
        wf(b),
        legal(b, mv),
    ensures
        zone_open(b, mv / 9),
        mv / 9 < 9,
{
    if zone_field(b) != ZONE_ANY {
        assert(zone_sendable(b, zone_field(b)));
    }
}

/// Everything one move changes: the mover gains exactly the played cell;
/// the mover's meta bit for the played zone follows a completed line
/// there; the next-zone field becomes the target or any; nothing else
/// moves. The successor is well formed again.
pub proof fn lemma_play_move(b: Board, mv: u64, side: bool)
    requires
        wf(b),
        legal(b, mv),
    ensures
        wf(play_move_spec(b, mv, side)),
        forall|c: u64|
            c < 81 ==> #[trigger] x_bit(play_move_spec(b, mv, side), c) == (x_bit(b, c) || (!side
                && c == mv)),
        forall|c: u64|
            c < 81 ==> #[trigger] o_bit(play_move_spec(b, mv, side), c) == (o_bit(b, c) || (side
                && c == mv)),
        forall|z: u64|
            z < 9 ==> #[trigger] meta_x(play_move_spec(b, mv, side), z) == (meta_x(b, z) || (!side
                && z == mv / 9 && has_line(zone_x(play_move_spec(b, mv, side), z)))),
        forall|z: u64|
            z < 9 ==> #[trigger] meta_o(play_move_spec(b, mv, side), z) == (meta_o(b, z) || (side
                && z == mv / 9 && has_line(zone_o(play_move_spec(b, mv, side), z)))),
        zone_field(play_move_spec(b, mv, side)) == (if zone_sendable(
            play_move_spec(b, mv, side),
            mv % 9,
        ) {
            mv % 9
        } else {
            ZONE_ANY
        }),
{
    let b1 = with_cell(b, mv, side);
    let z0 = mv / 9;
    let won = has_line(zone_side(b1, z0, side));
    let b2 = if won {
        with_meta(b1, z0, side)
    } else {
        b1
    };
    let tgt = mv % 9;
    let nz: u64 = if zone_sendable(b2, tgt) {
        tgt
    } else {
        ZONE_ANY
    };
    let r = play_move_spec(b, mv, side);
    assert(r == with_zone_field(b2, nz));
    lemma_legal_zone_open(b, mv);
    lemma_with_cell_frame(b, mv, side);
    if won {
        lemma_with_meta_frame(b1, z0, side);
    }
    lemma_with_zone_field_frame(b2, nz);
    // The zone just played keeps its new grids from the cell write on.
    assert(zone_x(r, z0) == zone_x(b1, z0) && zone_o(r, z0) == zone_o(b1, z0));
    // Cells pass through the last two stages unchanged.
    assert(forall|c: u64| c < 81 ==> #[trigger] x_bit(r, c) == x_bit(b1, c));
    assert(forall|c: u64| c < 81 ==> #[trigger] o_bit(r, c) == o_bit(b1, c));
    // Meta bits of the successor, against the pre-move board.
    assert forall|z: u64| z < 9 implies #[trigger] meta_x(r, z) == (meta_x(b, z) || (!side && z
        == z0 && has_line(zone_x(r, z)))) by {
        if !side && z == z0 {
            assert(zone_x(r, z) == zone_x(b1, z));
            assert(!meta_x(b, z));
        } else {
            assert(zone_x(r, z) == zone_x(b, z));
        }
    }
    assert forall|z: u64| z < 9 implies #[trigger] meta_o(r, z) == (meta_o(b, z) || (side && z
        == z0 && has_line(zone_o(r, z)))) by {
        if side && z == z0 {
            assert(zone_o(r, z) == zone_o(b1, z));
            assert(!meta_o(b, z));
        } else {
            assert(zone_o(r, z) == zone_o(b, z));
        }
    }
    // Well-formedness of the successor, clause by clause.
    assert(zone_field(r) <= 9);
    assert(!grid_bit(r.us, 63) && !grid_bit(r.them, 63));
    assert forall|c: u64| 58 <= c < 64 implies !(#[trigger] grid_bit(r.share, c)) by {
        if won {
            assert(grid_bit(r.share, c) == grid_bit(b2.share, c));
            assert(grid_bit(b2.share, c) == grid_bit(b1.share, c));
        }
    }
    assert forall|c: u64| c < 81 implies !(#[trigger] x_bit(r, c) && o_bit(r, c)) by {
        assert(!(x_bit(b, c) && o_bit(b, c)));
    }
    assert forall|z: u64| z < 9 implies (#[trigger] meta_x(r, z)) == has_line(zone_x(r, z)) by {
        if !(!side && z == z0) {
            assert(zone_x(r, z) == zone_x(b, z));
            assert(meta_x(r, z) == meta_x(b, z));
        }
    }
    assert forall|z: u64| z < 9 implies (#[trigger] meta_o(r, z)) == has_line(zone_o(r, z)) by {
        if !(side && z == z0) {
            assert(zone_o(r, z) == zone_o(b, z));
            assert(meta_o(r, z) == meta_o(b, z));
        }
    }
    assert forall|z: u64| z < 9 implies !((#[trigger] meta_x(r, z)) && meta_o(r, z)) by {
        if z != z0 {
            assert(meta_x(r, z) == meta_x(b, z) && meta_o(r, z) == meta_o(b, z));
        }
    }
    assert(zone_field(r) == nz);
    if nz != ZONE_ANY {
        assert(zone_sendable(b2, tgt));
        assert(tgt < 9);
        assert(zone_x(r, tgt) == zone_x(b2, tgt) && zone_o(r, tgt) == zone_o(b2, tgt));
        assert(meta_x(r, tgt) == meta_x(b2, tgt) && meta_o(r, tgt) == meta_o(b2, tgt));
        assert(zone_sendable(r, tgt));
    } else {
        if zone_sendable(r, tgt) {
            assert(tgt < 9);
            assert(zone_x(r, tgt) == zone_x(b2, tgt) && zone_o(r, tgt) == zone_o(b2, tgt));
            assert(meta_x(r, tgt) == meta_x(b2, tgt) && meta_o(r, tgt) == meta_o(b2, tgt));
            assert(zone_sendable(b2, tgt));
            assert(false);
        }
    }
}

/// The nine-bit occupancy of zone `z` for player X.
pub fn zone_x_of(b: &Board, z: u64) -> (r: u64)
    requires
        z < 9,
    ensures
        r == zone_x(*b, z),
{
    if z < 7 {
        (b.us >> (9 * z)) & 511
    } else {
        (b.share >> (9 * z - 63)) & 511
    }
}

/// The nine-bit occupancy of zone `z` for player O.
pub fn zone_o_of(b: &Board, z: u64) -> (r: u64)
    requires
        z < 9,
    ensures
        r == zone_o(*b, z),
{
    if z < 7 {
        (b.them >> (9 * z)) & 511
    } else {
        (b.share >> (9 * z - 45)) & 511
    }
}

/// Whether `side` has won zone `z`.
pub fn meta_of(b: &Board, z: u64, side: bool) -> (r: bool)
    requires
        z < 9,
    ensures
        r == if side {
            meta_o(*b, z)
        } else {
            meta_x(*b, z)
        },
{
    if side {
        ((b.share >> 45) >> z) & 1 == 1
    } else {
        ((b.share >> 36) >> z) & 1 == 1
    }
}

/// Whether zone `z` may still be sent to.
pub fn zone_sendable_of(b: &Board, z: u64) -> (r: bool)
    requires
        z < 9,
    ensures
        r == zone_sendable(*b, z),
{
    !meta_of(b, z, false) && !meta_of(b, z, true) && (zone_x_of(b, z) | zone_o_of(b, z)) != 511
}

/// Applies one move: grants the cell to `side`, raises the mover's meta
/// bit when the zone is now won, and points the next-zone field at the
/// target zone, or at any when that zone is won or full.
pub fn play_move(board: Board, mv: Move, side: bool) -> (r: Board)
    requires
        wf(board),
        legal(board, mv),
    ensures
        r == play_move_spec(board, mv, side),
        wf(r),
{
    let b1 = if mv >= 63 {
        Board {
            us: board.us,
            them: board.them,
            share: board.share | (1u64 << (mv - 63 + (if side {
                18u64
            } else {
                0u64
            }))),
        }
    } else if !side {
        Board { us: board.us | (1u64 << mv), them: board.them, share: board.share }
    } else {
        Board { us: board.us, them: board.them | (1u64 << mv), share: board.share }
    };
    proof {
        assert(b1 == with_cell(board, mv, side));
    }
    let z0 = mv / 9;
    let zgrid = if side {
        zone_o_of(&b1, z0)
    } else {
        zone_x_of(&b1, z0)
    };
    let won = crate::bits::line_presence(zgrid);
    let b2 = if won {
        Board {
            us: b1.us,
            them: b1.them,
            share: b1.share | (1u64 << (36 + (if side {
                9u64
            } else {
                0u64
            }) + z0)),
        }
    } else {
        b1
    };
    proof {
        assert(b2 == (if has_line(zone_side(b1, mv / 9, side)) {
            with_meta(b1, mv / 9, side)
        } else {
            b1
        }));
    }
    let tgt = mv % 9;
    let nz = if zone_sendable_of(&b2, tgt) {
        tgt
    } else {
        ZONE_ANY
    };
    let r = Board {
        us: b2.us,
        them: b2.them,
        share: (b2.share & 0xFC3F_FFFF_FFFF_FFFFu64) | (nz << 54),
    };
    proof {
        assert(r == play_move_spec(board, mv, side));
        lemma_play_move(board, mv, side);
    }
    r
}

/// The board with the two players swapped: cells, share halves and meta
/// grids exchanged, the next-zone field kept.
pub open spec fn mirror(b: Board) -> Board {
    Board {
        us: b.them,
        them: b.us,
        share: ((b.share & 0x3FFFF) << 18) | ((b.share >> 18) & 0x3FFFF) | (((b.share >> 45)
            & 511) << 36) | (((b.share >> 36) & 511) << 45) | (((b.share >> 54) & 15) << 54),
    }
}

/// Each bit of the swapped share word, against the original.
proof fn lemma_mirror_share_bits(x: u64, y: u64, t: u64)
    by (bit_vector)
    requires
        t < 64,
        y == ((x & 0x3FFFF) << 18) | ((x >> 18) & 0x3FFFF) | (((x >> 45) & 511) << 36) | (((x
            >> 36) & 511) << 45) | (((x >> 54) & 15) << 54),
    ensures
        (y >> t) & 1 == (if t < 18 {
            (x >> ((t + 18) as u64)) & 1
        } else if t < 36 {
            (x >> ((t - 18) as u64)) & 1
        } else if t < 45 {
            (x >> ((t + 9) as u64)) & 1
        } else if t < 54 {
            (x >> ((t - 9) as u64)) & 1
        } else if t < 58 {
            (x >> t) & 1
        } else {
            0u64
        }),
        (y >> 54) & 15 == (x >> 54) & 15,
{
}

/// How every view of the mirrored board reads: the two players change
/// places and nothing else moves.
pub proof fn lemma_mirror_views(b: Board)
    ensures
        forall|c: u64| c < 81 ==> #[trigger] x_bit(mirror(b), c) == o_bit(b, c),
        forall|c: u64| c < 81 ==> #[trigger] o_bit(mirror(b), c) == x_bit(b, c),
        forall|z: u64| z < 9 ==> #[trigger] meta_x(mirror(b), z) == meta_o(b, z),
        forall|z: u64| z < 9 ==> #[trigger] meta_o(mirror(b), z) == meta_x(b, z),
        zone_field(mirror(b)) == zone_field(b),
        forall|z: u64| z < 9 ==> #[trigger] zone_x(mirror(b), z) == zone_o(b, z),
        forall|z: u64| z < 9 ==> #[trigger] zone_o(mirror(b), z) == zone_x(b, z),
        forall|t: u64| 58 <= t < 64 ==> !(#[trigger] grid_bit(mirror(b).share, t)),
        !grid_bit(mirror(b).us, 63) == !grid_bit(b.them, 63),
        !grid_bit(mirror(b).them, 63) == !grid_bit(b.us, 63),
{
    let m = mirror(b);
    assert forall|c: u64| c < 81 implies #[trigger] x_bit(m, c) == o_bit(b, c) by {
        if c >= 63 {
            lemma_mirror_share_bits(b.share, m.share, (c - 63) as u64);
        }
    }
    assert forall|c: u64| c < 81 implies #[trigger] o_bit(m, c) == x_bit(b, c) by {
        if c >= 63 {
            lemma_mirror_share_bits(b.share, m.share, (c - 45) as u64);
        }
    }
    assert forall|z: u64| z < 9 implies #[trigger] meta_x(m, z) == meta_o(b, z) by {
        lemma_shift_compose(m.share, 36, z);
        lemma_shift_compose(b.share, 45, z);
        lemma_mirror_share_bits(b.share, m.share, (36 + z) as u64);
    }
    assert forall|z: u64| z < 9 implies #[trigger] meta_o(m, z) == meta_x(b, z) by {
        lemma_shift_compose(m.share, 45, z);
        lemma_shift_compose(b.share, 36, z);
        lemma_mirror_share_bits(b.share, m.share, (45 + z) as u64);
    }
    assert(zone_field(m) == zone_field(b)) by {
        lemma_mirror_share_bits(b.share, m.share, 54);
    }
    assert forall|z: u64| z < 9 implies #[trigger] zone_x(m, z) == zone_o(b, z) by {
        if z >= 7 {
            let s = (9 * z - 63) as u64;
            assert forall|t: u64| s <= t < s + 9 implies #[trigger] ((m.share >> t) & 1) == ((
            b.share >> ((t + 18) as u64)) & 1) by {
                lemma_mirror_share_bits(b.share, m.share, t);
            }
            lemma_mirror_window_low(b.share, m.share, s);
        }
    }
    assert forall|z: u64| z < 9 implies #[trigger] zone_o(m, z) == zone_x(b, z) by {
        if z >= 7 {
            let s = (9 * z - 45) as u64;
            assert forall|t: u64| s <= t < s + 9 implies #[trigger] ((m.share >> t) & 1) == ((
            b.share >> ((t - 18) as u64)) & 1) by {
                lemma_mirror_share_bits(b.share, m.share, t);
            }
            lemma_mirror_window_high(b.share, m.share, s);
        }
    }
    assert forall|t: u64| 58 <= t < 64 implies !(#[trigger] grid_bit(m.share, t)) by {
        lemma_mirror_share_bits(b.share, m.share, t);
    }
}

/// A nine-bit window of the swapped word, eighteen places below its
/// source.
proof fn lemma_mirror_window_low(x: u64, y: u64, s: u64)
    requires
        s <= 9,
        forall|t: u64| s <= t < s + 9 ==> #[trigger] ((y >> t) & 1) == ((x >> ((t + 18) as u64))
            & 1),
    ensures
        (y >> s) & 511 == (x >> ((s + 18) as u64)) & 511,
{
    let a = (y >> s) & 511;
    let bb = (x >> ((s + 18) as u64)) & 511;
    assert forall|j: u64| j < 64 implies #[trigger] ((a >> j) & 1) == ((bb >> j) & 1) by {
        crate::bits::lemma_window_bit9(y, s, j);
        crate::bits::lemma_window_bit9(x, (s + 18) as u64, j);
        if j < 9 {
            assert(((y >> ((s + j) as u64)) & 1) == ((x >> ((s + j + 18) as u64)) & 1));
        }
    }
    crate::bits::lemma_word_eq(a, bb);
}

/// A nine-bit window of the swapped word, eighteen places above its
/// source.
proof fn lemma_mirror_window_high(x: u64, y: u64, s: u64)
    requires
        18 <= s <= 27,
        forall|t: u64| s <= t < s + 9 ==> #[trigger] ((y >> t) & 1) == ((x >> ((t - 18) as u64))
            & 1),
    ensures
        (y >> s) & 511 == (x >> ((s - 18) as u64)) & 511,
{
    let a = (y >> s) & 511;
    let bb = (x >> ((s - 18) as u64)) & 511;
    assert forall|j: u64| j < 64 implies #[trigger] ((a >> j) & 1) == ((bb >> j) & 1) by {
        crate::bits::lemma_window_bit9(y, s, j);
        crate::bits::lemma_window_bit9(x, (s - 18) as u64, j);
        if j < 9 {
            assert(((y >> ((s + j) as u64)) & 1) == ((x >> ((s + j - 18) as u64)) & 1));
        }
    }
    crate::bits::lemma_word_eq(a, bb);
}

/// Mirroring swaps the two meta pseudo-grids, keeps the game-over test,
/// the legality of every cell, and the invariant.
pub proof fn lemma_mirror_game(b: Board)
    ensures
        terminal(mirror(b)) == terminal(b),
        forall|c: u64| c < 81 ==> #[trigger] legal(mirror(b), c) == legal(b, c),
        wf(b) ==> wf(mirror(b)),
{
    let m = mirror(b);
    lemma_mirror_views(b);
    assert forall|z: u64| z < 9 implies #[trigger] grid_bit(m.share >> 36, z) == grid_bit(
        b.share >> 45,
        z,
    ) by {
        assert(meta_x(m, z) == meta_o(b, z));
    }
    assert forall|z: u64| z < 9 implies #[trigger] grid_bit(m.share >> 45, z) == grid_bit(
        b.share >> 36,
        z,
    ) by {
        assert(meta_o(m, z) == meta_x(b, z));
    }
    crate::bits::lemma_has_line_congruence(m.share >> 36, b.share >> 45);
    crate::bits::lemma_has_line_congruence(m.share >> 45, b.share >> 36);
    assert forall|c: u64| c < 81 implies #[trigger] legal(m, c) == legal(b, c) by {
        if zone_field(b) == ZONE_ANY {
            assert(meta_x(m, c / 9) == meta_o(b, c / 9));
            assert(meta_o(m, c / 9) == meta_x(b, c / 9));
        }
        assert(x_bit(m, c) == o_bit(b, c) && o_bit(m, c) == x_bit(b, c));
    }
    if wf(b) {
        assert forall|c: u64| c < 81 implies !(#[trigger] x_bit(m, c) && o_bit(m, c)) by {
            assert(x_bit(m, c) == o_bit(b, c) && o_bit(m, c) == x_bit(b, c));
        }
        assert forall|z: u64| z < 9 implies (#[trigger] meta_x(m, z)) == has_line(zone_x(m, z)) by {
            assert(zone_x(m, z) == zone_o(b, z));
        }
        assert forall|z: u64| z < 9 implies (#[trigger] meta_o(m, z)) == has_line(zone_o(m, z)) by {
            assert(zone_o(m, z) == zone_x(b, z));
        }
        assert forall|z: u64| z < 9 implies !((#[trigger] meta_x(m, z)) && meta_o(m, z)) by {
            assert(meta_x(m, z) == meta_o(b, z) && meta_o(m, z) == meta_x(b, z));
        }
        if zone_field(m) < 9 {
            let zf = zone_field(b);
            assert(zone_sendable(b, zf));
            crate::tables::lemma_or_comm(zone_x(b, zf), zone_o(b, zf));
            assert(zone_sendable(m, zf));
        }
        assert(!grid_bit(m.us, 63) && !grid_bit(m.them, 63));
    }
}

/// Mirroring swaps the two occupancy counts.
pub proof fn lemma_mirror_counts(b: Board, n: int)
    requires
        n <= 81,
    ensures
        count_side_upto(mirror(b), false, n) == count_side_upto(b, true, n),
        count_side_upto(mirror(b), true, n) == count_side_upto(b, false, n),
    decreases n,
{
    lemma_mirror_views(b);
    if n > 0 {
        lemma_mirror_counts(b, n - 1);
    }
}

/// Playing for the other side on the mirrored board mirrors the
/// successor.
pub proof fn lemma_mirror_play(b: Board, mv: u64, side: bool)
    requires
        wf(b),
        legal(b, mv),
    ensures
        play_move_spec(mirror(b), mv, !side) == mirror(play_move_spec(b, mv, side)),
{
    let m = mirror(b);
    lemma_mirror_views(b);
    lemma_mirror_game(b);
    let lft = play_move_spec(m, mv, !side);
    let p = play_move_spec(b, mv, side);
    let rgt = mirror(p);
    lemma_play_move(m, mv, !side);
    lemma_play_move(b, mv, side);
    lemma_mirror_views(p);
    // The cells of both results agree.
    assert forall|c: u64| c < 81 implies #[trigger] x_bit(lft, c) == x_bit(rgt, c) by {
        assert(x_bit(lft, c) == (o_bit(b, c) || (side && c == mv)));
        assert(x_bit(rgt, c) == o_bit(p, c));
    }
    assert forall|c: u64| c < 81 implies #[trigger] o_bit(lft, c) == o_bit(rgt, c) by {
        assert(o_bit(lft, c) == (x_bit(b, c) || (!side && c == mv)));
        assert(o_bit(rgt, c) == x_bit(p, c));
    }
    // So do the zone grids, window by window.
    assert forall|z: u64| z < 9 implies #[trigger] zone_x(lft, z) == zone_x(rgt, z) by {
        lemma_zone_grid_from_cells(lft, rgt, z);
    }
    assert forall|z: u64| z < 9 implies #[trigger] zone_o(lft, z) == zone_o(rgt, z) by {
        lemma_zone_grid_from_cells(lft, rgt, z);
    }
    // Meta bits, the zone field, and the padding agree, so the words do.
    assert forall|z: u64| z < 9 implies #[trigger] meta_x(lft, z) == meta_x(rgt, z) by {
        assert(meta_x(rgt, z) == meta_o(p, z));
        assert(meta_x(m, z) == meta_o(b, z));
        assert(zone_x(lft, z) == zone_x(rgt, z));
        assert(zone_x(rgt, z) == zone_o(p, z));
        assert(meta_x(lft, z) == (meta_o(b, z) || (side && z == mv / 9 && has_line(
            zone_o(p, z),
        ))));
        assert(meta_o(p, z) == (meta_o(b, z) || (side && z == mv / 9 && has_line(zone_o(p, z)))));
    }
    assert forall|z: u64| z < 9 implies #[trigger] meta_o(lft, z) == meta_o(rgt, z) by {
        assert(meta_o(rgt, z) == meta_x(p, z));
        assert(meta_o(m, z) == meta_x(b, z));
        assert(zone_o(lft, z) == zone_o(rgt, z));
        assert(zone_o(rgt, z) == zone_x(p, z));
        assert(meta_o(lft, z) == (meta_x(b, z) || (!side && z == mv / 9 && has_line(
            zone_x(p, z),
        ))));
        assert(meta_x(p, z) == (meta_x(b, z) || (!side && z == mv / 9 && has_line(zone_x(p, z)))));
    }
    let tgt = mv % 9;
    assert(tgt < 9);
    assert(zone_sendable(lft, tgt) == zone_sendable(rgt, tgt)) by {
        crate::tables::lemma_or_comm(zone_x(lft, tgt), zone_o(lft, tgt));
        crate::tables::lemma_or_comm(zone_x(rgt, tgt), zone_o(rgt, tgt));
    }
    assert(zone_field(lft) == zone_field(rgt)) by {
        assert(zone_field(rgt) == zone_field(p));
        assert(zone_sendable(rgt, tgt) == zone_sendable(p, tgt)) by {
            assert(zone_x(rgt, tgt) == zone_o(p, tgt) && zone_o(rgt, tgt) == zone_x(p, tgt));
            assert(meta_x(rgt, tgt) == meta_o(p, tgt) && meta_o(rgt, tgt) == meta_x(p, tgt));
            crate::tables::lemma_or_comm(zone_x(p, tgt), zone_o(p, tgt));
        }
    }
    lemma_boards_eq(lft, rgt);
}

/// The nine-bit zone windows follow from the cells alone.
proof fn lemma_zone_grid_from_cells(a: Board, bb: Board, z: u64)
    requires
        z < 9,
        forall|c: u64| c < 81 ==> #[trigger] x_bit(a, c) == x_bit(bb, c),
        forall|c: u64| c < 81 ==> #[trigger] o_bit(a, c) == o_bit(bb, c),
    ensures
        zone_x(a, z) == zone_x(bb, z),
        zone_o(a, z) == zone_o(bb, z),
{
    assert forall|j: u64| j < 64 implies #[trigger] ((zone_x(a, z) >> j) & 1) == ((zone_x(bb, z)
        >> j) & 1) by {
        lemma_zone_cell_bit(a, z, j);
        lemma_zone_cell_bit(bb, z, j);
        if j < 9 {
            assert(x_bit(a, (9 * z + j) as u64) == x_bit(bb, (9 * z + j) as u64));
        }
    }
    crate::bits::lemma_word_eq(zone_x(a, z), zone_x(bb, z));
    assert forall|j: u64| j < 64 implies #[trigger] ((zone_o(a, z) >> j) & 1) == ((zone_o(bb, z)
        >> j) & 1) by {
        lemma_zone_cell_bit_o(a, z, j);
        lemma_zone_cell_bit_o(bb, z, j);
        if j < 9 {
            assert(o_bit(a, (9 * z + j) as u64) == o_bit(bb, (9 * z + j) as u64));
        }
    }
    crate::bits::lemma_word_eq(zone_o(a, z), zone_o(bb, z));
}

/// One bit of a zone window is the cell it packs.
pub proof fn lemma_zone_cell_bit(b: Board, z: u64, j: u64)
    requires
        z < 9,
        j < 64,
    ensures
        (zone_x(b, z) >> j) & 1 == (if j < 9 {
            if x_bit(b, (9 * z + j) as u64) {
                1u64
            } else {
                0u64
            }
        } else {
            0u64
        }),
{
    if z < 7 {
        crate::bits::lemma_window_bit9(b.us, (9 * z) as u64, j);
        crate::tables::lemma_bit01(b.us, (9 * z + j) as u64);
    } else {
        crate::bits::lemma_window_bit9(b.share, (9 * z - 63) as u64, j);
        crate::tables::lemma_bit01(b.share, (9 * z - 63 + j) as u64);
    }
}

/// One bit of a zone window is the cell it packs, for player O.
pub proof fn lemma_zone_cell_bit_o(b: Board, z: u64, j: u64)
    requires
        z < 9,
        j < 64,
    ensures
        (zone_o(b, z) >> j) & 1 == (if j < 9 {
            if o_bit(b, (9 * z + j) as u64) {
                1u64
            } else {
                0u64
            }
        } else {
            0u64
        }),
{
    if z < 7 {
        crate::bits::lemma_window_bit9(b.them, (9 * z) as u64, j);
        crate::tables::lemma_bit01(b.them, (9 * z + j) as u64);
    } else {
        crate::bits::lemma_window_bit9(b.share, (9 * z - 45) as u64, j);
        crate::tables::lemma_bit01(b.share, (9 * z - 45 + j) as u64);
    }
}

/// Boards whose cells, meta bits, zone field and padding agree are the
/// same board.
#[verifier::rlimit(60)]
proof fn lemma_boards_eq(a: Board, bb: Board)
    requires
        forall|c: u64| c < 81 ==> #[trigger] x_bit(a, c) == x_bit(bb, c),
        forall|c: u64| c < 81 ==> #[trigger] o_bit(a, c) == o_bit(bb, c),
        forall|z: u64| z < 9 ==> #[trigger] meta_x(a, z) == meta_x(bb, z),
        forall|z: u64| z < 9 ==> #[trigger] meta_o(a, z) == meta_o(bb, z),
        zone_field(a) == zone_field(bb),
        !grid_bit(a.us, 63),
        !grid_bit(bb.us, 63),
        !grid_bit(a.them, 63),
        !grid_bit(bb.them, 63),
        forall|t: u64| 58 <= t < 64 ==> !(#[trigger] grid_bit(a.share, t)),
        forall|t: u64| 58 <= t < 64 ==> !(#[trigger] grid_bit(bb.share, t)),
    ensures
        a == bb,
{
    assert forall|t: u64| t < 64 implies #[trigger] ((a.us >> t) & 1) == ((bb.us >> t) & 1) by {
        crate::tables::lemma_bit01(a.us, t);
        crate::tables::lemma_bit01(bb.us, t);
        if t < 63 {
            assert(x_bit(a, t) == x_bit(bb, t));
        }
    }
    crate::bits::lemma_word_eq(a.us, bb.us);
    assert forall|t: u64| t < 64 implies #[trigger] ((a.them >> t) & 1) == ((bb.them >> t)
        & 1) by {
        crate::tables::lemma_bit01(a.them, t);
        crate::tables::lemma_bit01(bb.them, t);
        if t < 63 {
            assert(o_bit(a, t) == o_bit(bb, t));
        }
    }
    crate::bits::lemma_word_eq(a.them, bb.them);
    assert forall|t: u64| t < 64 implies #[trigger] ((a.share >> t) & 1) == ((bb.share >> t)
        & 1) by {
        crate::tables::lemma_bit01(a.share, t);
        crate::tables::lemma_bit01(bb.share, t);
        if t < 18 {
            assert(x_bit(a, (t + 63) as u64) == x_bit(bb, (t + 63) as u64));
        } else if t < 36 {
            assert(o_bit(a, (t + 45) as u64) == o_bit(bb, (t + 45) as u64));
        } else if t < 45 {
            lemma_shift_compose(a.share, 36, (t - 36) as u64);
            lemma_shift_compose(bb.share, 36, (t - 36) as u64);
            assert(meta_x(a, (t - 36) as u64) == meta_x(bb, (t - 36) as u64));
        } else if t < 54 {
            lemma_shift_compose(a.share, 45, (t - 45) as u64);
            lemma_shift_compose(bb.share, 45, (t - 45) as u64);
            assert(meta_o(a, (t - 45) as u64) == meta_o(bb, (t - 45) as u64));
        } else if t < 58 {
            crate::codec::lemma_field_bits(a.share, t);
            crate::codec::lemma_field_bits(bb.share, t);
        } else {
            assert(!grid_bit(a.share, t) && !grid_bit(bb.share, t));
        }
    }
    crate::bits::lemma_word_eq(a.share, bb.share);
}

/// Decides the board invariant at run time, for callers that load
/// positions from outside.
#[verifier::rlimit(50)]
pub fn board_wf(b: &Board) -> (r: bool)
    ensures
        r == wf(*b),
{
    let field_ok = ((b.share >> 54) & 15) <= 9;
    let pad_ok = ((b.us >> 63) & 1) == 0 && ((b.them >> 63) & 1) == 0;
    let mut high_ok = true;
    let mut c: u64 = 58;
    while c < 64
        invariant
            58 <= c <= 64,
            high_ok == (forall|q: u64| 58 <= q < c ==> !(#[trigger] grid_bit(b.share, q))),
        decreases 64 - c,
    {
        proof {
            if !high_ok {
                let q = choose|q: u64| 58 <= q < c && #[trigger] grid_bit(b.share, q);
                assert(58 <= q < c + 1 && grid_bit(b.share, q));
            }
        }
        if (b.share >> c) & 1 == 1 {
            proof {
                assert(grid_bit(b.share, c));
            }
            high_ok = false;
        }
        c = c + 1;
    }
    let mut free_ok = true;
    let mut cc: u64 = 0;
    while cc < 81
        invariant
            cc <= 81,
            free_ok == (forall|q: u64| q < cc ==> !(#[trigger] x_bit(*b, q) && o_bit(*b, q))),
        decreases 81 - cc,
    {
        proof {
            if !free_ok {
                let q = choose|q: u64| q < cc && #[trigger] x_bit(*b, q) && o_bit(*b, q);
                assert(q < cc + 1 && x_bit(*b, q) && o_bit(*b, q));
            }
        }
        let xb = if cc < 63 {
            (b.us >> cc) & 1 == 1
        } else {
            (b.share >> (cc - 63)) & 1 == 1
        };
        let ob = if cc < 63 {
            (b.them >> cc) & 1 == 1
        } else {
            (b.share >> (cc - 45)) & 1 == 1
        };
        if xb && ob {
            proof {
                assert(x_bit(*b, cc) && o_bit(*b, cc));
            }
            free_ok = false;
        }
        cc = cc + 1;
    }
    let mut mx_ok = true;
    let mut mo_ok = true;
    let mut both_ok = true;
    let mut z: u64 = 0;
    while z < 9
        invariant
            z <= 9,
            mx_ok == (forall|q: u64|
                q < z ==> (#[trigger] meta_x(*b, q)) == has_line(zone_x(*b, q))),
            mo_ok == (forall|q: u64|
                q < z ==> (#[trigger] meta_o(*b, q)) == has_line(zone_o(*b, q))),
            both_ok == (forall|q: u64| q < z ==> !((#[trigger] meta_x(*b, q)) && meta_o(*b, q))),
        decreases 9 - z,
    {
        proof {
            if !mx_ok {
                let q = choose|q: u64| q < z && (#[trigger] meta_x(*b, q)) != has_line(
                    zone_x(*b, q),
                );
                assert(q < z + 1 && meta_x(*b, q) != has_line(zone_x(*b, q)));
            }
            if !mo_ok {
                let q = choose|q: u64| q < z && (#[trigger] meta_o(*b, q)) != has_line(
                    zone_o(*b, q),
                );
                assert(q < z + 1 && meta_o(*b, q) != has_line(zone_o(*b, q)));
            }
            if !both_ok {
                let q = choose|q: u64| q < z && (#[trigger] meta_x(*b, q)) && meta_o(*b, q);
                assert(q < z + 1 && meta_x(*b, q) && meta_o(*b, q));
            }
        }
        let mx = meta_of(b, z, false);
        let mo = meta_of(b, z, true);
        let lx = crate::bits::line_presence(zone_x_of(b, z));
        let lo = crate::bits::line_presence(zone_o_of(b, z));
        if mx != lx {
            proof {
                assert(meta_x(*b, z) != has_line(zone_x(*b, z)));
            }
            mx_ok = false;
        }
        if mo != lo {
            proof {
                assert(meta_o(*b, z) != has_line(zone_o(*b, z)));
            }
            mo_ok = false;
        }
        if mx && mo {
            proof {
                assert(meta_x(*b, z) && meta_o(*b, z));
            }
            both_ok = false;
        }
        z = z + 1;
    }
    let meta_ok = mx_ok && mo_ok && both_ok;
    let field = (b.share >> 54) & 15;
    let send_ok = if field < 9 {
        zone_sendable_of(b, field)
    } else {
        true
    };
    proof {
        crate::tables::lemma_bit01(b.us, 63);
        crate::tables::lemma_bit01(b.them, 63);
        assert(field_ok == (zone_field(*b) <= 9));
        assert(pad_ok == (!grid_bit(b.us, 63) && !grid_bit(b.them, 63)));
        assert(high_ok == (forall|q: u64| 58 <= q < 64 ==> !(#[trigger] grid_bit(b.share, q))));
        assert(free_ok == (forall|q: u64| q < 81 ==> !(#[trigger] x_bit(*b, q) && o_bit(*b, q))));
        assert(mx_ok == (forall|q: u64| q < 9 ==> (#[trigger] meta_x(*b, q)) == has_line(zone_x(*b, q))));
        assert(mo_ok == (forall|q: u64| q < 9 ==> (#[trigger] meta_o(*b, q)) == has_line(zone_o(*b, q))));
        assert(both_ok == (forall|q: u64| q < 9 ==> !((#[trigger] meta_x(*b, q)) && meta_o(*b, q))));
        assert(send_ok == (zone_field(*b) < 9 ==> zone_sendable(*b, zone_field(*b))));
    }
    field_ok && pad_ok && high_ok && free_ok && meta_ok && send_ok
}

/// How many of the cells below `n` the given side occupies.
pub open spec fn count_side_upto(b: Board, side: bool, n: int) -> int
    decreases n,
{
    if n <= 0 {
        0
    } else {
        count_side_upto(b, side, n - 1) + (if side_bit(b, (n - 1) as u64, side) {
            1int
        } else {
            0int
        })
    }
}

/// How many cells the given side occupies.
pub open spec fn side_count(b: Board, side: bool) -> int {
    count_side_upto(b, side, 81)
}

/// How many cells are occupied in all.
pub open spec fn total_count(b: Board) -> int {
    side_count(b, false) + side_count(b, true)
}

/// Counting only looks at the cells below `n`.
pub proof fn lemma_count_frame(b1: Board, b2: Board, side: bool, n: int)
    requires
        n <= 81,
        forall|c: u64| c < 81 ==> #[trigger] side_bit(b2, c, side) == side_bit(b1, c, side),
    ensures
        count_side_upto(b2, side, n) == count_side_upto(b1, side, n),
    decreases n,
{
    if n > 0 {
        lemma_count_frame(b1, b2, side, n - 1);
    }
}

/// Granting one empty cell raises the count below `n` by one exactly when
/// the cell lies below `n`.
pub proof fn lemma_count_flip(b1: Board, b2: Board, side: bool, mv: u64, n: int)
    requires
        n <= 81,
        mv < 81,
        !side_bit(b1, mv, side),
        side_bit(b2, mv, side),
        forall|c: u64|
            c < 81 && c != mv ==> #[trigger] side_bit(b2, c, side) == side_bit(b1, c, side),
    ensures
        count_side_upto(b2, side, n) == count_side_upto(b1, side, n) + (if mv < n {
            1int
        } else {
            0int
        }),
    decreases n,
{
    if n > 0 {
        lemma_count_flip(b1, b2, side, mv, n - 1);
    }
}

/// A count over `n` cells stays within `[0, n]`.
pub proof fn lemma_count_bound(b: Board, side: bool, n: int)
    requires
        0 <= n,
    ensures
        0 <= count_side_upto(b, side, n) <= n,
    decreases n,
{
    if n > 0 {
        lemma_count_bound(b, side, n - 1);
    }
}

/// On a board without doubly-claimed cells, the two counts below `n`
/// together stay within `n`, and strictly below it when a free cell lies
/// below `n`.
pub proof fn lemma_total_upto(b: Board, n: int, free: u64)
    requires
        0 <= n <= 81,
        free < 81,
        cell_free(b, free),
        forall|c: u64| c < 81 ==> !(#[trigger] x_bit(b, c) && o_bit(b, c)),
    ensures
        count_side_upto(b, false, n) + count_side_upto(b, true, n) <= (if free < n {
            n - 1
        } else {
            n
        }),
    decreases n,
{
    if n > 0 {
        lemma_total_upto(b, n - 1, free);
    }
}

/// Playing a move is a function of board, move and side: two results of
/// the same application are the same board.
pub proof fn lemma_play_move_deterministic(b: Board, mv: u64, side: bool, r1: Board, r2: Board)
    requires
        r1 == play_move_spec(b, mv, side),
        r2 == play_move_spec(b, mv, side),
    ensures
        r1 == r2,
{
}

/// Occupancy conservation: a move raises the mover's cell count by exactly
/// one and leaves the opponent's count unchanged.
pub proof fn lemma_occupancy_conservation(b: Board, mv: u64, side: bool)
    requires
        wf(b),
        legal(b, mv),
    ensures
        side_count(play_move_spec(b, mv, side), side) == side_count(b, side) + 1,
        side_count(play_move_spec(b, mv, side), !side) == side_count(b, !side),
        total_count(play_move_spec(b, mv, side)) == total_count(b) + 1,
{
    let r = play_move_spec(b, mv, side);
    lemma_play_move(b, mv, side);
    assert forall|c: u64| c < 81 && c != mv implies #[trigger] side_bit(r, c, side) == side_bit(
        b,
        c,
        side,
    ) by {}
    assert(side_bit(r, mv, side) && !side_bit(b, mv, side));
    lemma_count_flip(b, r, side, mv, 81);
    let opp = !side;
    assert forall|c: u64| c < 81 implies #[trigger] side_bit(r, c, opp) == side_bit(
        b,
        c,
        opp,
    ) by {}
    lemma_count_frame(b, r, opp, 81);
    if side {
        assert(side_count(r, true) == side_count(b, true) + 1);
    } else {
        assert(side_count(r, false) == side_count(b, false) + 1);
    }
}

/// Meta monotonicity: no move ever clears a meta bit.
pub proof fn lemma_meta_monotone(b: Board, mv: u64, side: bool)
    requires
        wf(b),
        legal(b, mv),
    ensures
        forall|z: u64|
            z < 9 && #[trigger] meta_x(b, z) ==> meta_x(play_move_spec(b, mv, side), z),
        forall|z: u64|
            z < 9 && #[trigger] meta_o(b, z) ==> meta_o(play_move_spec(b, mv, side), z),
{
    lemma_play_move(b, mv, side);
}

/// The starting position: empty, next zone any.
pub fn empty_board() -> (b: Board)
    ensures
        b == (Board { us: 0, them: 0, share: 9u64 << 54 }),
        wf(b),
        zone_field(b) == ZONE_ANY,
{
    let b = Board { us: 0, them: 0, share: 9u64 << 54 };
    proof {
        lemma_empty_share();
        lemma_no_line_in_empty();
        lemma_zero_bit(63);
        assert(!grid_bit(b.us, 63) && !grid_bit(b.them, 63));
        assert forall|c: u64| 58 <= c < 64 implies !(#[trigger] grid_bit(b.share, c)) by {
            assert(((9u64 << 54) >> c) & 1 == 0);
        }
        assert forall|c: u64| c < 81 implies !(#[trigger] x_bit(b, c) && o_bit(b, c)) by {
            if c < 63 {
                lemma_zero_bit(c);
            }
        }
        assert forall|z: u64| z < 9 implies !(#[trigger] meta_x(b, z)) by {
            lemma_shift_compose(b.share, 36, z);
            assert(((9u64 << 54) >> ((36 + z) as u64)) & 1 == 0);
        }
        assert forall|z: u64| z < 9 implies !(#[trigger] meta_o(b, z)) by {
            lemma_shift_compose(b.share, 45, z);
            assert(((9u64 << 54) >> ((45 + z) as u64)) & 1 == 0);
        }
        assert forall|z: u64| z < 9 implies !has_line(#[trigger] zone_x(b, z)) by {
            assert(zone_x(b, z) == 0);
        }
        assert forall|z: u64| z < 9 implies !has_line(#[trigger] zone_o(b, z)) by {
            assert(zone_o(b, z) == 0);
        }
    }
    b
}

} // verus!
