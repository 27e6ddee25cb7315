//! The legal-move generator: all legal cells of a board, in ascending
//! order. The order is observable, since it fixes which cut-off move the
//! search returns.

use vstd::prelude::*;
use crate::bits::{has_line, line_presence};
use crate::board::{
    Board, Move, ZONE_ANY, cell_free, legal, meta_of, terminal, wf, zone_field, zone_open,
};

verus! {

/// The legal cells below `n`, ascending.
pub open spec fn legal_upto(b: Board, n: int) -> Seq<u64>
    decreases n,
{
    if n <= 0 {
        Seq::empty()
    } else if legal(b, (n - 1) as u64) {
        legal_upto(b, n - 1).push((n - 1) as u64)
    } else {
        legal_upto(b, n - 1)
    }
}

/// All legal cells of the board, ascending.
pub open spec fn legal_moves(b: Board) -> Seq<u64> {
    legal_upto(b, 81)
}

/// Every listed cell is a legal one below `n`, the list ascends strictly,
/// and every legal cell below `n` is listed.
pub proof fn lemma_legal_upto(b: Board, n: int)
    requires
        0 <= n <= 81,
    ensures
        forall|i: int|
            0 <= i < legal_upto(b, n).len() ==> legal(b, #[trigger] legal_upto(b, n)[i])
                && legal_upto(b, n)[i] < n,
        forall|i: int, j: int|
            0 <= i < j < legal_upto(b, n).len() ==> legal_upto(b, n)[i] < legal_upto(b, n)[j],
        forall|c: u64| c < n && legal(b, c) ==> legal_upto(b, n).contains(c),
    decreases n,
{
    if n > 0 {
        lemma_legal_upto(b, n - 1);
        assert forall|c: u64| c < n && legal(b, c) implies legal_upto(b, n).contains(c) by {
            if c < n - 1 {
                let i = choose|i: int|
                    0 <= i < legal_upto(b, n - 1).len() && #[trigger] legal_upto(b, n - 1)[i]
                        == c;
                assert(legal_upto(b, n)[i] == c);
            } else {
                assert(legal(b, (n - 1) as u64));
                assert(legal_upto(b, n).last() == c);
            }
        }
    }
}

/// No more cells are listed than exist.
pub proof fn lemma_legal_upto_len(b: Board, n: int)
    requires
        0 <= n,
    ensures
        legal_upto(b, n).len() <= n,
    decreases n,
{
    if n > 0 {
        lemma_legal_upto_len(b, n - 1);
    }
}

/// The membership facts at the full board.
pub proof fn lemma_legal_moves(b: Board)
    ensures
        forall|i: int|
            0 <= i < legal_moves(b).len() ==> legal(b, #[trigger] legal_moves(b)[i]),
        forall|i: int, j: int|
            0 <= i < j < legal_moves(b).len() ==> legal_moves(b)[i] < legal_moves(b)[j],
        forall|c: u64| legal(b, c) ==> legal_moves(b).contains(c),
{
    lemma_legal_upto(b, 81);
}

/// Boards that agree on legality list the same moves.
pub proof fn lemma_legal_upto_congruence(b1: Board, b2: Board, n: int)
    requires
        n <= 81,
        forall|c: u64| c < 81 ==> #[trigger] legal(b1, c) == legal(b2, c),
    ensures
        legal_upto(b1, n) == legal_upto(b2, n),
    decreases n,
{
    if n > 0 {
        lemma_legal_upto_congruence(b1, b2, n - 1);
    }
}

/// A finished game offers no move.
pub proof fn lemma_terminal_no_moves(b: Board, n: int)
    requires
        terminal(b),
    ensures
        legal_upto(b, n) == Seq::<u64>::empty(),
    decreases n,
{
    if n > 0 {
        lemma_terminal_no_moves(b, n - 1);
    }
}

/// Zone constraint: while the next-zone field names a zone, every
/// generated move lies in that zone.
pub proof fn lemma_zone_constraint(b: Board, i: int)
    requires
        zone_field(b) != ZONE_ANY,
        0 <= i < legal_moves(b).len(),
    ensures
        legal_moves(b)[i] / 9 == zone_field(b),
{
    lemma_legal_moves(b);
}

/// Lists the legal cells of the board in ascending order: none when the
/// meta grid is decided; otherwise the free cells of the constrained
/// zone, or of every open zone when the field says any.
pub fn generate_moves(board: &Board) -> (r: Vec<Move>)
    ensures
        r@ == legal_moves(*board),
{
    let over = line_presence(board.share >> 36) || line_presence(board.share >> 45);
    if over {
        let empty: Vec<u64> = Vec::new();
        proof {
            lemma_terminal_no_moves(*board, 81);
        }
        return empty;
    }
    let field = (board.share >> 54) & 15;
    let mut v: Vec<u64> = Vec::new();
    let mut c: u64 = 0;
    while c < 81
        invariant
            c <= 81,
            v@ == legal_upto(*board, c as int),
            !terminal(*board),
            field == zone_field(*board),
        decreases 81 - c,
    {
        let z = c / 9;
        let allowed = if field == 9 {
            !meta_of(board, z, false) && !meta_of(board, z, true)
        } else {
            z == field
        };
        let occupied = if c < 63 {
            ((board.us >> c) & 1) == 1 || ((board.them >> c) & 1) == 1
        } else {
            ((board.share >> (c - 63)) & 1) == 1 || ((board.share >> (c - 45)) & 1) == 1
        };
        proof {
            assert(legal(*board, c) == (allowed && !occupied));
        }
        if allowed && !occupied {
            v.push(c);
        }
        c = c + 1;
    }
    v
}

} // verus!
