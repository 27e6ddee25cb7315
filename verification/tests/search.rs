use uttt::board::{Board, empty_board, play_move};
use uttt::eval::evaluate;
use uttt::movegen::generate_moves;
use uttt::search::alpha_beta;
use uttt::tables::{OUTCOME_LOSS, OUTCOME_WIN, init};

#[test]
fn empty_board_evaluates_to_zero() {
    let t = init();
    let b = empty_board();
    assert_eq!(evaluate(&b, false, &t), 0);
    assert_eq!(evaluate(&b, true, &t), 0);
}

#[test]
fn meta_row_is_a_terminal_evaluation() {
    // X owns meta NW-N-NE: a win for X, a loss seen from O.
    let t = init();
    let b = Board { us: 0, them: 0, share: (0b111u64 << 36) | (9 << 54) };
    assert_eq!(evaluate(&b, false, &t), 1_000_000);
    assert_eq!(evaluate(&b, true, &t), -1_000_000);
}

#[test]
fn full_meta_grid_without_winner_is_a_draw() {
    // Every zone decided, no meta line for either side: exactly zero.
    let t = init();
    let x_zones = [0u64, 2, 3, 7, 8];
    let o_zones = [1u64, 4, 5, 6];
    let mut us = 0u64;
    let mut them = 0u64;
    let mut share = 9u64 << 54;
    for z in x_zones {
        us |= 0b111 << (9 * z);
        share |= 1 << (36 + z);
    }
    for z in o_zones {
        them |= 0b111 << (9 * z);
        share |= 1 << (45 + z);
    }
    let b = Board { us, them, share };
    assert_eq!(evaluate(&b, false, &t), 0);
    assert_eq!(evaluate(&b, true, &t), 0);
}

#[test]
fn depth_one_search_agrees_with_the_evaluator() {
    // At depth one from the start, the score is the best negated child
    // evaluation, and the variation holds the first cell achieving it.
    let t = init();
    let b = empty_board();
    let (score, pv) = alpha_beta(b, false, 1, OUTCOME_LOSS, OUTCOME_WIN, &t, 1);
    let mut best = OUTCOME_LOSS;
    let mut best_move = 81u64;
    for m in generate_moves(&b) {
        let child = play_move(b, m, false);
        let e = -evaluate(&child, true, &t);
        if e > best {
            best = e;
            best_move = m;
        }
    }
    assert_eq!(score, best);
    assert_eq!(pv[0], best_move);
    assert_eq!(pv[1], 81);
}

#[test]
fn search_on_a_finished_game_scales_the_outcome() {
    // X has already won the meta grid; a depth-3 search from O's seat
    // reports a loss at the root, without scaling (depth == max_depth).
    let t = init();
    let us = 0b111u64 | (0b111 << 9) | (0b111 << 18);
    let share = (0b111u64 << 36) | (9 << 54);
    let b = Board { us, them: 0, share };
    let (score, pv) = alpha_beta(b, true, 3, OUTCOME_LOSS, OUTCOME_WIN, &t, 3);
    assert_eq!(score, -1_000_000);
    assert_eq!(pv[0], 81);
}

#[test]
fn mate_in_one_is_preferred_and_scaled() {
    // Zones NW and N already belong to X, zone NE needs one stone: the
    // search finds the winning cell and reports the mate one ply out.
    let t = init();
    let us = 0b111u64 | (0b111 << 9) | (0b11 << 18);
    let share = (1u64 << 36) | (1 << 37) | (9 << 54);
    let b = Board { us, them: 0, share };
    let (score, pv) = alpha_beta(b, false, 2, OUTCOME_LOSS, OUTCOME_WIN, &t, 2);
    assert_eq!(score, 1_000_000 - 1);
    assert_eq!(pv[0], 20);
}

#[test]
fn fixed_depth_search_is_reproducible() {
    // Two identical runs at depth four return bitwise-identical results.
    let t = init();
    let b = empty_board();
    let (s1, pv1) = alpha_beta(b, false, 4, OUTCOME_LOSS, OUTCOME_WIN, &t, 4);
    let (s2, pv2) = alpha_beta(b, false, 4, OUTCOME_LOSS, OUTCOME_WIN, &t, 4);
    assert_eq!(s1, s2);
    assert_eq!(pv1, pv2);
}

#[test]
fn principal_variation_is_playable() {
    // The non-null prefix of the variation is a legal line from the root.
    let t = init();
    let mut b = empty_board();
    b = play_move(b, 40, false);
    let (_, pv) = alpha_beta(b, true, 3, OUTCOME_LOSS, OUTCOME_WIN, &t, 3);
    let mut cur = b;
    let mut side = true;
    for m in pv.iter() {
        if *m == 81 {
            break;
        }
        assert!(generate_moves(&cur).contains(m));
        cur = play_move(cur, *m, side);
        side = !side;
    }
}

#[test]
fn mirrored_position_scores_the_same_for_the_other_player() {
    // Swapping the players and the mover leaves the mover-relative score
    // unchanged.
    let t = init();
    let mut b = empty_board();
    b = play_move(b, 40, false);
    b = play_move(b, 44, true);
    b = play_move(b, 76, false);
    let mirrored = Board {
        us: b.them,
        them: b.us,
        share: ((b.share & 0x3FFFF) << 18)
            | ((b.share >> 18) & 0x3FFFF)
            | (((b.share >> 45) & 511) << 36)
            | (((b.share >> 36) & 511) << 45)
            | (((b.share >> 54) & 15) << 54),
    };
    let (s1, _) = alpha_beta(b, true, 3, OUTCOME_LOSS, OUTCOME_WIN, &t, 3);
    let (s2, _) = alpha_beta(mirrored, false, 3, OUTCOME_LOSS, OUTCOME_WIN, &t, 3);
    assert_eq!(s1, s2);
}

#[test]
fn narrow_windows_clamp_the_full_score()
{
    // Fail-hard: against a narrow window the search returns the bound the
    // true score crossed, and the true score itself when inside.
    let t = init();
    let b = empty_board();
    let (full, _) = alpha_beta(b, false, 2, OUTCOME_LOSS, OUTCOME_WIN, &t, 2);
    let (low, _) = alpha_beta(b, false, 2, full + 1, full + 2, &t, 2);
    assert_eq!(low, full + 1);
    let (high, _) = alpha_beta(b, false, 2, full - 2, full - 1, &t, 2);
    assert_eq!(high, full - 1);
    let (mid, _) = alpha_beta(b, false, 2, full - 1, full + 1, &t, 2);
    assert_eq!(mid, full);
}
