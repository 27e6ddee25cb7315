//! Fixed-depth negamax alpha-beta with fail-hard cutoffs, mate-distance
//! scaling at terminal nodes, and a principal variation of 81 slots where
//! slot `max_depth - depth` holds the move chosen at that depth.

use vstd::prelude::*;
use crate::board::{
    Board, Move, NULL_MOVE, legal, play_move, play_move_spec, total_count, wf,
    lemma_count_bound, lemma_occupancy_conservation, lemma_play_move, lemma_total_upto,
};
use crate::eval::{
    eval_spec, evaluate, lemma_eval_range, lemma_meta_index, meta_o_grid, meta_x_grid,
};
use crate::movegen::{generate_moves, legal_moves, lemma_legal_moves};
use crate::tables::{OUTCOME_LOSS, OUTCOME_WIN, Tables, eval_large_spec, lemma_entry_range};

verus! {

/// A principal variation of 81 unused slots.
pub open spec fn null_pv() -> Seq<u64> {
    Seq::new(81, |i: int| NULL_MOVE)
}

/// The fold of the search over the remaining moves of a node: each move
/// is searched with the window negated and swapped, a score at or above
/// beta cuts off with exactly beta, a score above alpha becomes the new
/// alpha and its line the running best, and exhaustion returns alpha with
/// the best line.
pub open spec fn ab_moves(
    b: Board,
    side: bool,
    depth: int,
    alpha: int,
    beta: int,
    maxd: int,
    moves: Seq<u64>,
    best: Seq<u64>,
) -> (int, Seq<u64>)
    decreases depth, moves.len(),
{
    if moves.len() == 0 || depth < 1 {
        (alpha, best)
    } else {
        let mv = moves[0];
        let child = ab_spec(play_move_spec(b, mv, side), !side, depth - 1, -beta, -alpha, maxd);
        let score = -child.0;
        let line = child.1.update(maxd - depth, mv);
        if score >= beta {
            (beta, line)
        } else if score > alpha {
            ab_moves(b, side, depth, score, beta, maxd, moves.drop_first(), line)
        } else {
            ab_moves(b, side, depth, alpha, beta, maxd, moves.drop_first(), best)
        }
    }
}

/// The search of one node: the static evaluation at depth zero; on a node
/// without moves the side-adjusted meta entry, pushed toward zero by the
/// distance from the root when it is a forced outcome and zero otherwise;
/// else the fold over the legal moves in ascending order.
pub open spec fn ab_spec(b: Board, side: bool, depth: int, alpha: int, beta: int, maxd: int) -> (
    int,
    Seq<u64>,
)
    decreases depth, 100int,
        via ab_spec_decreases
{
    if depth < 1 {
        (eval_spec(b, side), null_pv())
    } else {
        let ms = legal_moves(b);
        if ms.len() == 0 {
            let raw = eval_large_spec(meta_x_grid(b), meta_o_grid(b));
            let e = if side {
                -raw
            } else {
                raw
            };
            if e == 1000000 {
                (e - (maxd - depth), null_pv())
            } else if e == -1000000 {
                (e + (maxd - depth), null_pv())
            } else {
                (0, null_pv())
            }
        } else {
            ab_moves(b, side, depth, alpha, beta, maxd, ms, null_pv())
        }
    }
}

#[via_fn]
proof fn ab_spec_decreases(b: Board, side: bool, depth: int, alpha: int, beta: int, maxd: int) {
    crate::movegen::lemma_legal_upto_len(b, 81);
}

/// The best score among the remaining moves, each searched without a
/// window; below every real score when no move is left.
pub open spec fn neg_moves(b: Board, side: bool, depth: int, maxd: int, moves: Seq<u64>) -> int
    decreases depth, moves.len(),
{
    if moves.len() == 0 || depth < 1 {
        -2000000
    } else {
        let v = -negamax_spec(play_move_spec(b, moves[0], side), !side, depth - 1, maxd);
        let rest = neg_moves(b, side, depth, maxd, moves.drop_first());
        if v >= rest {
            v
        } else {
            rest
        }
    }
}

/// The windowless value of the search: the same recursion as `ab_spec`,
/// with the best child score taken outright.
pub open spec fn negamax_spec(b: Board, side: bool, depth: int, maxd: int) -> int
    decreases depth, 100int,
    via negamax_spec_decreases
{
    if depth < 1 {
        eval_spec(b, side)
    } else {
        let ms = legal_moves(b);
        if ms.len() == 0 {
            let raw = eval_large_spec(meta_x_grid(b), meta_o_grid(b));
            let e = if side {
                -raw
            } else {
                raw
            };
            if e == 1000000 {
                e - (maxd - depth)
            } else if e == -1000000 {
                e + (maxd - depth)
            } else {
                0
            }
        } else {
            neg_moves(b, side, depth, maxd, ms)
        }
    }
}

#[via_fn]
proof fn negamax_spec_decreases(b: Board, side: bool, depth: int, maxd: int) {
    crate::movegen::lemma_legal_upto_len(b, 81);
}

/// The fold of the search returns exactly the best remaining score,
/// clamped to its window, whatever line it starts from.
proof fn lemma_ab_moves_clamp(
    b: Board,
    side: bool,
    depth: int,
    alpha: int,
    beta: int,
    maxd: int,
    moves: Seq<u64>,
    best: Seq<u64>,
)
    requires
        -1000000 <= alpha < beta <= 1000000,
        1 <= depth,
    ensures
        ({
            let m = neg_moves(b, side, depth, maxd, moves);
            let r = ab_moves(b, side, depth, alpha, beta, maxd, moves, best).0;
            r == if m <= alpha {
                alpha
            } else if m >= beta {
                beta
            } else {
                m
            }
        }),
    decreases depth, moves.len(),
{
    if moves.len() > 0 {
        let bc = play_move_spec(b, moves[0], side);
        lemma_ab_clamp(bc, !side, depth - 1, -beta, -alpha, maxd);
        let mc = negamax_spec(bc, !side, depth - 1, maxd);
        let v = -mc;
        let child = ab_spec(bc, !side, depth - 1, -beta, -alpha, maxd);
        let score = -child.0;
        let line = child.1.update(maxd - depth, moves[0]);
        if score >= beta {
            assert(v >= beta);
        } else if score > alpha {
            assert(score == v);
            lemma_ab_moves_clamp(b, side, depth, score, beta, maxd, moves.drop_first(), line);
        } else {
            assert(v <= alpha);
            lemma_ab_moves_clamp(b, side, depth, alpha, beta, maxd, moves.drop_first(), best);
        }
    }
}

/// Fail-hard clamping: the search returns the windowless value, or the
/// window bound it crossed.
pub proof fn lemma_ab_clamp(b: Board, side: bool, depth: int, alpha: int, beta: int, maxd: int)
    requires
        -1000000 <= alpha < beta <= 1000000,
    ensures
        ({
            let m = negamax_spec(b, side, depth, maxd);
            let r = ab_spec(b, side, depth, alpha, beta, maxd).0;
            r == m || (m <= alpha && r == alpha) || (m >= beta && r == beta)
        }),
    decreases depth, 101int,
{
    if depth >= 1 {
        let ms = legal_moves(b);
        if ms.len() > 0 {
            crate::movegen::lemma_legal_upto_len(b, 81);
            lemma_ab_moves_clamp(b, side, depth, alpha, beta, maxd, ms, null_pv());
        }
    }
}

/// The windowless value of a well-formed position stays within the two
/// outcome values.
pub proof fn lemma_negamax_range(b: Board, side: bool, depth: int, maxd: int)
    requires
        wf(b),
        depth <= maxd,
        maxd - depth <= total_count(b),
    ensures
        -1000000 <= negamax_spec(b, side, depth, maxd) <= 1000000,
    decreases depth, 101int,
{
    if depth < 1 {
        lemma_eval_range(b, side);
    } else {
        let ms = legal_moves(b);
        if ms.len() == 0 {
            lemma_count_bound(b, false, 81);
            lemma_count_bound(b, true, 81);
        } else {
            crate::movegen::lemma_legal_upto_len(b, 81);
            lemma_legal_moves(b);
            lemma_neg_moves_range(b, side, depth, maxd, ms);
        }
    }
}

/// Every candidate score of a non-empty move list is a real child value.
proof fn lemma_neg_moves_range(b: Board, side: bool, depth: int, maxd: int, moves: Seq<u64>)
    requires
        wf(b),
        1 <= depth <= maxd,
        maxd - depth <= total_count(b),
        moves.len() > 0,
        forall|ii: int| 0 <= ii < moves.len() ==> legal(b, #[trigger] moves[ii]),
    ensures
        -1000000 <= neg_moves(b, side, depth, maxd, moves) <= 1000000,
    decreases depth, moves.len(),
{
    assert(legal(b, moves[0]));
    let bc = play_move_spec(b, moves[0], side);
    lemma_play_move(b, moves[0], side);
    lemma_occupancy_conservation(b, moves[0], side);
    lemma_negamax_range(bc, !side, depth - 1, maxd);
    if moves.len() == 1 {
        assert(moves.drop_first().len() == 0);
        assert(neg_moves(b, side, depth, maxd, moves.drop_first()) == -2000000);
    }
    if moves.len() > 1 {
        assert forall|ii: int| 0 <= ii < moves.drop_first().len() implies legal(
            b,
            #[trigger] moves.drop_first()[ii],
        ) by {
            assert(moves.drop_first()[ii] == moves[ii + 1]);
        }
        lemma_neg_moves_range(b, side, depth, maxd, moves.drop_first());
    }
}

/// With the full window, the search returns the windowless value itself.
pub proof fn lemma_full_window_exact(b: Board, side: bool, depth: int, maxd: int)
    requires
        wf(b),
        0 <= depth <= maxd,
        maxd - depth <= total_count(b),
    ensures
        ab_spec(b, side, depth, -1000000, 1000000, maxd).0 == negamax_spec(b, side, depth, maxd),
{
    lemma_ab_clamp(b, side, depth, -1000000, 1000000, maxd);
    lemma_negamax_range(b, side, depth, maxd);
}

/// The given side owns a completed meta-grid line.
pub open spec fn meta_won(b: Board, winner: bool) -> bool {
    if winner {
        crate::bits::has_line(b.share >> 45)
    } else {
        crate::bits::has_line(b.share >> 36)
    }
}

/// The winner forces a meta win within `k` plies, whoever moves: already
/// won; or, on the winner's turn, some legal move keeps the forcing line;
/// or, on the other side's turn, every legal reply does. A stuck or
/// drawn-out position forces nothing.
pub open spec fn forced_win(b: Board, mover: bool, winner: bool, k: int) -> bool
    decreases k,
{
    if meta_won(b, winner) {
        true
    } else if k <= 0 {
        false
    } else if legal_moves(b).len() == 0 {
        false
    } else if mover == winner {
        exists|i: int|
            0 <= i < legal_moves(b).len() && forced_win(
                #[trigger] play_move_spec(b, legal_moves(b)[i], mover),
                !mover,
                winner,
                k - 1,
            )
    } else {
        forall|i: int|
            0 <= i < legal_moves(b).len() ==> forced_win(
                #[trigger] play_move_spec(b, legal_moves(b)[i], mover),
                !mover,
                winner,
                k - 1,
            )
    }
}

/// More plies never hurt a forcing line.
proof fn lemma_forced_win_mono(b: Board, mover: bool, winner: bool, k1: int, k2: int)
    requires
        k1 <= k2,
        forced_win(b, mover, winner, k1),
    ensures
        forced_win(b, mover, winner, k2),
    decreases k1,
{
    if !meta_won(b, winner) {
        let ms = legal_moves(b);
        if mover == winner {
            let i = choose|i: int|
                0 <= i < ms.len() && forced_win(
                    #[trigger] play_move_spec(b, ms[i], mover),
                    !mover,
                    winner,
                    k1 - 1,
                );
            lemma_forced_win_mono(play_move_spec(b, ms[i], mover), !mover, winner, k1 - 1, k2 - 1);
        } else {
            assert forall|i: int| 0 <= i < ms.len() implies forced_win(
                #[trigger] play_move_spec(b, ms[i], mover),
                !mover,
                winner,
                k2 - 1,
            ) by {
                lemma_forced_win_mono(play_move_spec(b, ms[i], mover), !mover, winner, k1 - 1, k2 - 1);
            }
        }
    }
}

/// The best score of a non-empty move list is attained by one of its
/// moves, and bounds them all.
proof fn lemma_neg_moves_attained(b: Board, side: bool, depth: int, maxd: int, moves: Seq<u64>)
    requires
        moves.len() > 0,
        1 <= depth <= maxd,
        wf(b),
        maxd - depth <= total_count(b),
        forall|ii: int| 0 <= ii < moves.len() ==> legal(b, #[trigger] moves[ii]),
    ensures
        exists|i: int|
            0 <= i < moves.len() && neg_moves(b, side, depth, maxd, moves) == -negamax_spec(
                #[trigger] play_move_spec(b, moves[i], side),
                !side,
                depth - 1,
                maxd,
            ),
        forall|i: int|
            0 <= i < moves.len() ==> -negamax_spec(
                #[trigger] play_move_spec(b, moves[i], side),
                !side,
                depth - 1,
                maxd,
            ) <= neg_moves(b, side, depth, maxd, moves),
    decreases moves.len(),
{
    assert(legal(b, moves[0]));
    lemma_play_move(b, moves[0], side);
    lemma_occupancy_conservation(b, moves[0], side);
    lemma_negamax_range(play_move_spec(b, moves[0], side), !side, depth - 1, maxd);
    let v = -negamax_spec(play_move_spec(b, moves[0], side), !side, depth - 1, maxd);
    if moves.len() == 1 {
        assert(moves.drop_first().len() == 0);
        assert(neg_moves(b, side, depth, maxd, moves.drop_first()) == -2000000);
        assert(neg_moves(b, side, depth, maxd, moves) == -negamax_spec(
            play_move_spec(b, moves[0], side),
            !side,
            depth - 1,
            maxd,
        ));
    } else {
        let rest = moves.drop_first();
        assert forall|ii: int| 0 <= ii < rest.len() implies legal(b, #[trigger] rest[ii]) by {
            assert(rest[ii] == moves[ii + 1]);
        }
        lemma_neg_moves_attained(b, side, depth, maxd, rest);
        if neg_moves(b, side, depth, maxd, moves) != v {
            let j = choose|j: int|
                0 <= j < rest.len() && neg_moves(b, side, depth, maxd, rest) == -negamax_spec(
                    #[trigger] play_move_spec(b, rest[j], side),
                    !side,
                    depth - 1,
                    maxd,
                );
            assert(rest[j] == moves[j + 1]);
            assert(neg_moves(b, side, depth, maxd, moves) == -negamax_spec(
                play_move_spec(b, moves[j + 1], side),
                !side,
                depth - 1,
                maxd,
            ));
        }
        assert forall|i: int| 0 <= i < moves.len() implies -negamax_spec(
            #[trigger] play_move_spec(b, moves[i], side),
            !side,
            depth - 1,
            maxd,
        ) <= neg_moves(b, side, depth, maxd, moves) by {
            if i > 0 {
                assert(rest[i - 1] == moves[i]);
                assert(-negamax_spec(play_move_spec(b, rest[i - 1], side), !side, depth - 1, maxd)
                    <= neg_moves(b, side, depth, maxd, rest));
            }
        }
    }
}

/// A winning value certifies a forcing line: whenever the windowless
/// value reaches the winning band, the mover forces a meta win within
/// the remaining depth.
proof fn lemma_mate_attack(b: Board, side: bool, depth: int, maxd: int)
    requires
        wf(b),
        0 <= depth <= maxd <= 81,
        maxd - depth <= total_count(b),
        negamax_spec(b, side, depth, maxd) >= 1000000 - maxd,
    ensures
        forced_win(b, side, side, depth),
    decreases depth,
{
    let v = negamax_spec(b, side, depth, maxd);
    if depth < 1 {
        crate::eval::lemma_eval_mate(b, side);
        assert(meta_won(b, side));
    } else {
        let ms = legal_moves(b);
        if ms.len() == 0 {
            crate::eval::lemma_large_mate(b);
            assert(meta_won(b, side));
        } else {
            lemma_legal_moves(b);
            crate::movegen::lemma_legal_upto_len(b, 81);
            lemma_neg_moves_attained(b, side, depth, maxd, ms);
            let i = choose|i: int|
                0 <= i < ms.len() && neg_moves(b, side, depth, maxd, ms) == -negamax_spec(
                    #[trigger] play_move_spec(b, ms[i], side),
                    !side,
                    depth - 1,
                    maxd,
                );
            let bc = play_move_spec(b, ms[i], side);
            assert(legal(b, ms[i]));
            lemma_play_move(b, ms[i], side);
            lemma_occupancy_conservation(b, ms[i], side);
            lemma_mate_defend(bc, !side, depth - 1, maxd);
            if !meta_won(b, side) {
                assert(forced_win(play_move_spec(b, ms[i], side), !side, side, depth - 1));
                assert(forced_win(b, side, side, depth));
            }
        }
    }
}

/// A lost value on the defender's turn: every reply keeps the other
/// player's forcing line alive.
proof fn lemma_mate_defend(b: Board, side: bool, depth: int, maxd: int)
    requires
        wf(b),
        0 <= depth <= maxd <= 81,
        maxd - depth <= total_count(b),
        negamax_spec(b, side, depth, maxd) <= -(1000000 - maxd),
    ensures
        forced_win(b, side, !side, depth),
    decreases depth,
{
    let v = negamax_spec(b, side, depth, maxd);
    if depth < 1 {
        crate::eval::lemma_eval_mate(b, side);
        assert(meta_won(b, !side));
    } else {
        let ms = legal_moves(b);
        if ms.len() == 0 {
            crate::eval::lemma_large_mate(b);
            assert(meta_won(b, !side));
        } else {
            lemma_legal_moves(b);
            crate::movegen::lemma_legal_upto_len(b, 81);
            lemma_neg_moves_attained(b, side, depth, maxd, ms);
            if !meta_won(b, !side) {
                assert forall|i: int| 0 <= i < ms.len() implies forced_win(
                    #[trigger] play_move_spec(b, ms[i], side),
                    !side,
                    !side,
                    depth - 1,
                ) by {
                    assert(legal(b, ms[i]));
                    lemma_play_move(b, ms[i], side);
                    lemma_occupancy_conservation(b, ms[i], side);
                    assert(-negamax_spec(play_move_spec(b, ms[i], side), !side, depth - 1, maxd)
                        <= v);
                    lemma_mate_attack(play_move_spec(b, ms[i], side), !side, depth - 1, maxd);
                }
                assert(forced_win(b, side, !side, depth));
            }
        }
    }
}

/// Mate certification: when the full-window search reports a score in
/// the winning band, the mover has a forcing line to a meta win within
/// the searched depth.
pub proof fn lemma_mate_distance(b: Board, side: bool, maxd: int)
    requires
        wf(b),
        0 <= maxd <= 81,
        ab_spec(b, side, maxd, -1000000, 1000000, maxd).0 >= 1000000 - maxd,
    ensures
        forced_win(b, side, side, maxd),
{
    lemma_count_bound(b, false, 81);
    lemma_count_bound(b, true, 81);
    lemma_full_window_exact(b, side, maxd, maxd);
    lemma_mate_attack(b, side, maxd, maxd);
}

/// Move by move, the mirrored board searched for the other player yields
/// the same best score.
proof fn lemma_neg_moves_mirror(b: Board, side: bool, depth: int, maxd: int, moves: Seq<u64>)
    requires
        wf(b),
        1 <= depth <= maxd,
        maxd - depth <= total_count(b),
        forall|ii: int| 0 <= ii < moves.len() ==> legal(b, #[trigger] moves[ii]),
    ensures
        neg_moves(crate::board::mirror(b), !side, depth, maxd, moves) == neg_moves(
            b,
            side,
            depth,
            maxd,
            moves,
        ),
    decreases depth, moves.len(),
{
    if moves.len() > 0 {
        let mv = moves[0];
        assert(legal(b, mv));
        crate::board::lemma_mirror_play(b, mv, side);
        lemma_play_move(b, mv, side);
        lemma_occupancy_conservation(b, mv, side);
        lemma_negamax_mirror(play_move_spec(b, mv, side), !side, depth - 1, maxd);
        assert forall|ii: int| 0 <= ii < moves.drop_first().len() implies legal(
            b,
            #[trigger] moves.drop_first()[ii],
        ) by {
            assert(moves.drop_first()[ii] == moves[ii + 1]);
        }
        lemma_neg_moves_mirror(b, side, depth, maxd, moves.drop_first());
    }
}

/// Mirroring the board and handing the move to the other player leaves
/// the windowless value unchanged: the score is relative to the mover.
proof fn lemma_negamax_mirror(b: Board, side: bool, depth: int, maxd: int)
    requires
        wf(b),
        depth <= maxd,
        maxd - depth <= total_count(b),
    ensures
        negamax_spec(crate::board::mirror(b), !side, depth, maxd) == negamax_spec(
            b,
            side,
            depth,
            maxd,
        ),
    decreases depth, 101int,
{
    let m = crate::board::mirror(b);
    crate::board::lemma_mirror_game(b);
    if depth < 1 {
        crate::eval::lemma_eval_mirror(b);
        assert(eval_spec(m, !side) == eval_spec(b, side));
    } else {
        crate::movegen::lemma_legal_upto_congruence(m, b, 81);
        let ms = legal_moves(b);
        if ms.len() == 0 {
            crate::eval::lemma_eval_large_mirror(b);
        } else {
            lemma_legal_moves(b);
            crate::movegen::lemma_legal_upto_len(b, 81);
            lemma_neg_moves_mirror(b, side, depth, maxd, ms);
        }
    }
}

/// Player symmetry of the search: the full-window score of a position
/// and of its mirror image, searched for the other player, coincide,
/// because the score is always relative to the side to move.
pub proof fn lemma_search_symmetry(b: Board, side: bool, depth: int, maxd: int)
    requires
        wf(b),
        0 <= depth <= maxd,
        maxd - depth <= total_count(b),
    ensures
        ab_spec(crate::board::mirror(b), !side, depth, -1000000, 1000000, maxd).0 == ab_spec(
            b,
            side,
            depth,
            -1000000,
            1000000,
            maxd,
        ).0,
{
    crate::board::lemma_mirror_game(b);
    crate::board::lemma_mirror_counts(b, 81);
    lemma_full_window_exact(b, side, depth, maxd);
    lemma_full_window_exact(crate::board::mirror(b), !side, depth, maxd);
    lemma_negamax_mirror(b, side, depth, maxd);
}

/// From slot `k` on, the principal variation reads as a playable line:
/// it ends at the first null slot, and every move before that is legal on
/// the board reached by playing the earlier ones in turn.
pub open spec fn pv_ok(b: Board, side: bool, pv: Seq<u64>, k: int) -> bool
    decreases 81 - k,
{
    if k < 0 || k >= 81 {
        true
    } else if pv[k] == NULL_MOVE {
        true
    } else {
        legal(b, pv[k]) && pv_ok(play_move_spec(b, pv[k], side), !side, pv, k + 1)
    }
}

/// Playability only reads the slots from `k` on.
proof fn lemma_pv_ok_agree(b: Board, side: bool, pv1: Seq<u64>, pv2: Seq<u64>, k: int)
    requires
        pv_ok(b, side, pv1, k),
        forall|j: int| k <= j < 81 ==> pv1[j] == pv2[j],
    ensures
        pv_ok(b, side, pv2, k),
    decreases 81 - k,
{
    if 0 <= k < 81 && pv1[k] != NULL_MOVE {
        lemma_pv_ok_agree(play_move_spec(b, pv1[k], side), !side, pv1, pv2, k + 1);
    }
}

/// The all-null variation is playable from anywhere.
proof fn lemma_pv_ok_null(b: Board, side: bool, k: int)
    ensures
        pv_ok(b, side, null_pv(), k),
{
}

/// The fold of the search hands back a playable line whenever it starts
/// from one.
proof fn lemma_pv_moves(
    b: Board,
    side: bool,
    depth: int,
    alpha: int,
    beta: int,
    maxd: int,
    moves: Seq<u64>,
    best: Seq<u64>,
)
    requires
        wf(b),
        1 <= depth <= maxd,
        maxd - depth <= total_count(b),
        forall|ii: int| 0 <= ii < moves.len() ==> legal(b, #[trigger] moves[ii]),
        pv_ok(b, side, best, maxd - depth),
        best.len() == 81,
    ensures
        pv_ok(b, side, ab_moves(b, side, depth, alpha, beta, maxd, moves, best).1, maxd - depth),
        ab_moves(b, side, depth, alpha, beta, maxd, moves, best).1.len() == 81,
    decreases depth, moves.len(),
{
    if moves.len() > 0 {
        let mv = moves[0];
        assert(legal(b, mv));
        let bc = play_move_spec(b, mv, side);
        lemma_play_move(b, mv, side);
        lemma_occupancy_conservation(b, mv, side);
        lemma_pv_spec(bc, !side, depth - 1, -beta, -alpha, maxd);
        let child = ab_spec(bc, !side, depth - 1, -beta, -alpha, maxd);
        let k = maxd - depth;
        lemma_total_upto(b, 81, mv);
        let line = child.1.update(k, mv);
        assert(line[k] == mv);
        lemma_pv_ok_agree(bc, !side, child.1, line, k + 1);
        assert(pv_ok(b, side, line, k));
        let score = -child.0;
        if score >= beta {
        } else if score > alpha {
            assert forall|ii: int| 0 <= ii < moves.drop_first().len() implies legal(
                b,
                #[trigger] moves.drop_first()[ii],
            ) by {
                assert(moves.drop_first()[ii] == moves[ii + 1]);
            }
            lemma_pv_moves(b, side, depth, score, beta, maxd, moves.drop_first(), line);
        } else {
            assert forall|ii: int| 0 <= ii < moves.drop_first().len() implies legal(
                b,
                #[trigger] moves.drop_first()[ii],
            ) by {
                assert(moves.drop_first()[ii] == moves[ii + 1]);
            }
            lemma_pv_moves(b, side, depth, alpha, beta, maxd, moves.drop_first(), best);
        }
    }
}

/// Principal-variation playability: the moves of the returned line, up to
/// its first null slot, are legal when played in turn from the searched
/// board, sides alternating. At the root, the line starts at slot zero.
pub proof fn lemma_pv_spec(b: Board, side: bool, depth: int, alpha: int, beta: int, maxd: int)
    requires
        wf(b),
        0 <= depth <= maxd,
        maxd - depth <= total_count(b),
    ensures
        pv_ok(b, side, ab_spec(b, side, depth, alpha, beta, maxd).1, maxd - depth),
        ab_spec(b, side, depth, alpha, beta, maxd).1.len() == 81,
    decreases depth, 100int,
{
    if depth < 1 {
        lemma_pv_ok_null(b, side, maxd - depth);
    } else {
        let ms = legal_moves(b);
        if ms.len() == 0 {
            lemma_pv_ok_null(b, side, maxd - depth);
        } else {
            lemma_legal_moves(b);
            crate::movegen::lemma_legal_upto_len(b, 81);
            lemma_pv_ok_null(b, side, maxd - depth);
            lemma_pv_moves(b, side, depth, alpha, beta, maxd, ms, null_pv());
        }
    }
}

/// A fresh all-null principal variation.
fn null_pv_vec() -> (r: Vec<u64>)
    ensures
        r@ == null_pv(),
{
    let mut v: Vec<u64> = Vec::new();
    let mut i: usize = 0;
    while i < 81
        invariant
            i <= 81,
            v@.len() == i,
            forall|j: int| 0 <= j < i ==> v@[j] == NULL_MOVE,
        decreases 81 - i,
    {
        v.push(NULL_MOVE);
        i = i + 1;
    }
    proof {
        assert(v@ =~= null_pv());
    }
    v
}

/// The fixed-depth search. Returns the fail-hard score of the window
/// `(alpha, beta)` and the principal variation, exactly as the
/// specification recursion computes them.
pub fn alpha_beta(
    board: Board,
    side: bool,
    depth: usize,
    alpha: i32,
    beta: i32,
    tables: &Tables,
    max_depth: usize,
) -> (r: (i32, Vec<Move>))
    requires
        tables.wf(),
        wf(board),
        -1000000 <= alpha as int,
        alpha < beta,
        beta as int <= 1000000,
        depth <= max_depth,
        max_depth - depth <= total_count(board),
    ensures
        r.0 as int == ab_spec(
            board,
            side,
            depth as int,
            alpha as int,
            beta as int,
            max_depth as int,
        ).0,
        r.1@ == ab_spec(board, side, depth as int, alpha as int, beta as int, max_depth as int).1,
        -1000000 <= r.0 as int <= 1000000,
        r.1@.len() == 81,
    decreases depth,
{
    if depth == 0 {
        let e = evaluate(&board, side, tables);
        proof {
            lemma_eval_range(board, side);
        }
        return (e, null_pv_vec());
    }
    let moves = generate_moves(&board);
    proof {
        lemma_legal_moves(board);
        lemma_count_bound(board, false, 81);
        lemma_count_bound(board, true, 81);
    }
    if moves.len() == 0 {
        let m: u64 = (board.share >> 36) & 0x3FFFF;
        proof {
            lemma_meta_index(board.share);
        }
        let big = tables.large[m as usize];
        proof {
            assert(big == eval_large_spec(meta_x_grid(board), meta_o_grid(board)));
            lemma_entry_range(meta_x_grid(board), meta_o_grid(board));
        }
        let e = if side {
            -big
        } else {
            big
        };
        let k = max_depth - depth;
        let v = if e == OUTCOME_WIN {
            e - (k as i32)
        } else if e == OUTCOME_LOSS {
            e + (k as i32)
        } else {
            0
        };
        return (v, null_pv_vec());
    }
    proof {
        assert(legal(board, moves@[0]));
        lemma_total_upto(board, 81, moves@[0]);
    }
    let idx = max_depth - depth;
    let mut alpha_cur = alpha;
    let mut best = null_pv_vec();
    let mut i: usize = 0;
    proof {
        assert(moves@.skip(0) =~= moves@);
    }
    while i < moves.len()
        invariant
            tables.wf(),
            wf(board),
            moves@ == legal_moves(board),
            moves@.len() >= 1,
            i <= moves@.len(),
            1 <= depth <= max_depth,
            idx == max_depth - depth,
            max_depth - depth <= total_count(board),
            total_count(board) <= 80,
            -1000000 <= alpha as int <= alpha_cur as int,
            alpha_cur < beta,
            beta as int <= 1000000,
            best@.len() == 81,
            ab_spec(board, side, depth as int, alpha as int, beta as int, max_depth as int)
                == ab_moves(
                board,
                side,
                depth as int,
                alpha_cur as int,
                beta as int,
                max_depth as int,
                moves@.skip(i as int),
                best@,
            ),
        decreases moves@.len() - i,
    {
        let mv = moves[i];
        proof {
            lemma_legal_moves(board);
            assert(legal_moves(board)[i as int] == mv);
            assert(legal(board, mv));
            lemma_play_move(board, mv, side);
            lemma_occupancy_conservation(board, mv, side);
        }
        let child_board = play_move(board, mv, side);
        let (cs, mut cl) = alpha_beta(
            child_board,
            !side,
            depth - 1,
            -beta,
            -alpha_cur,
            tables,
            max_depth,
        );
        let score = -cs;
        cl[idx] = mv;
        proof {
            assert(moves@.skip(i as int)[0] == mv);
            assert(moves@.skip(i as int).drop_first() =~= moves@.skip(i as int + 1));
        }
        if score >= beta {
            return (beta, cl);
        }
        if score > alpha_cur {
            alpha_cur = score;
            best = cl;
        }
        i = i + 1;
    }
    (alpha_cur, best)
}

} // verus!
