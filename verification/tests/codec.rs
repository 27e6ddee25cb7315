use uttt::board::{Board, empty_board, play_move};
use uttt::codec::{board_from_string, board_pretty, board_string};
use uttt::text::{eval_string, move_from_string, move_string};

#[test]
fn moves_print_as_zone_and_square() {
    assert_eq!(move_string(0), "nw/nw");
    assert_eq!(move_string(40), "c/c");
    assert_eq!(move_string(80), "se/se");
    assert_eq!(move_string(3), "nw/w");
    assert_eq!(move_string(72), "se/nw");
}

#[test]
fn moves_parse_back() {
    assert_eq!(move_from_string("nw/nw"), Some(0));
    assert_eq!(move_from_string("c/c"), Some(40));
    assert_eq!(move_from_string("se/se"), Some(80));
    assert_eq!(move_from_string("n/sw"), Some(15));
}

#[test]
fn malformed_moves_are_rejected() {
    assert_eq!(move_from_string(""), None);
    assert_eq!(move_from_string("c"), None);
    assert_eq!(move_from_string("c/c/c"), None);
    assert_eq!(move_from_string("x/y"), None);
    assert_eq!(move_from_string("any/c"), None);
    assert_eq!(move_from_string("c/"), None);
    assert_eq!(move_from_string("/c"), None);
}

#[test]
fn every_move_round_trips_through_its_text() {
    for m in 0..81u64 {
        assert_eq!(move_from_string(&move_string(m)), Some(m));
    }
}

#[test]
fn scores_print_in_the_protocol_form() {
    assert_eq!(eval_string(0, 5), "D0");
    assert_eq!(eval_string(123, 5), "+123");
    assert_eq!(eval_string(-7, 5), "-7");
    assert_eq!(eval_string(999_999, 4), "W1");
    assert_eq!(eval_string(1_000_000, 4), "W0");
    assert_eq!(eval_string(-999_998, 5), "L2");
    assert_eq!(eval_string(-1_000_000, 5), "L0");
    assert_eq!(eval_string(999_990, 4), "+999990");
}

#[test]
fn the_empty_board_prints_compactly() {
    assert_eq!(board_string(empty_board()), "9/9/9/9/9/9/9/9/9 any");
}

#[test]
fn a_lone_centre_stone_prints_in_the_middle_row() {
    let b = play_move(empty_board(), 40, false);
    assert_eq!(board_string(b), "9/9/9/9/4x4/9/9/9/9 c");
}

#[test]
fn the_empty_board_parses_back() {
    let b = board_from_string("9/9/9/9/9/9/9/9/9 any");
    assert_eq!(b, Some(empty_board()));
}

#[test]
fn parsing_recomputes_each_sides_own_meta_bits() {
    // Zone NW carries a completed X column in its first text column.
    let b = board_from_string("x8/x8/x8/9/9/9/9/9/9 any").unwrap();
    assert_eq!(b.us, 1 | (1 << 3) | (1 << 6));
    assert_eq!((b.share >> 36) & 0x1FF, 1);
    assert_eq!((b.share >> 45) & 0x1FF, 0);
}

#[test]
fn malformed_boards_are_rejected() {
    assert_eq!(board_from_string(""), None);
    assert_eq!(board_from_string("9/9/9 any"), None);
    assert_eq!(board_from_string("9/9/9/9/9/9/9/9/9"), None);
    assert_eq!(board_from_string("9/9/9/9/9/9/9/9/9 zz"), None);
    assert_eq!(board_from_string("9/9/9/9/9/9/9/9/8 any"), None);
    assert_eq!(board_from_string("9/9/9/9/9/9/9/9/9 any extra"), None);
}

#[test]
fn reachable_boards_round_trip() {
    // A legal line of play, encoded and decoded after every move.
    let mut b = empty_board();
    let line = [(40u64, false), (44, true), (76, false), (36, true), (4, false)];
    for (mv, side) in line {
        b = play_move(b, mv, side);
        let text = board_string(b);
        assert_eq!(board_from_string(&text), Some(b));
    }
}

#[test]
fn the_drawn_board_has_seventeen_lines() {
    let b = play_move(empty_board(), 40, false);
    let lines = board_pretty(&b);
    assert_eq!(lines.len(), 17);
    assert_eq!(lines[0], "---+---+---");
    assert_eq!(lines[5], "...|...|...");
    assert_eq!(lines[6], "...|.X.|...");
    assert_eq!(lines[13], "...");
    assert_eq!(lines[16], "ZONE: C");
}
