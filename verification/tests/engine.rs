use uttt::bits::{line_presence, lines};
use uttt::board::{Board, board_wf, empty_board, play_move};
use uttt::movegen::generate_moves;
use uttt::tables::init;

#[test]
fn lines_of_empty_grid_is_zero() {
    assert_eq!(lines(0), 0);
}

#[test]
fn lines_fans_a_full_row_into_its_field() {
    // Cells 0,1,2 form the fourth line; its field occupies bits 9..12.
    assert_eq!((lines(0b111) >> 9) & 7, 7);
    assert_eq!(lines(0b111) & 7, 1);
}

#[test]
fn line_presence_detects_rows_columns_and_diagonals() {
    assert!(line_presence(0b000000111));
    assert!(line_presence(0b111000000));
    assert!(line_presence(0b001001001));
    assert!(line_presence(0b100010001));
    assert!(line_presence(0b001010100));
    assert!(!line_presence(0));
    assert!(!line_presence(0b000000101));
    assert!(line_presence(511));
}

#[test]
fn table_symmetry_on_samples() {
    // For disjoint grids, swapping the players negates both entries.
    let t = init();
    let pairs = [(0u64, 0u64), (0b111, 0), (0b1, 0b10), (0b101000101, 0b010010010), (16, 257)];
    for (a, b) in pairs {
        assert_eq!(t.large[((a << 9) | b) as usize], -t.large[((b << 9) | a) as usize]);
        assert_eq!(t.small[((a << 9) | b) as usize], -t.small[((b << 9) | a) as usize]);
    }
}

#[test]
fn table_terminal_entries() {
    let t = init();
    // A completed row for the low half is a win, and a loss when swapped.
    assert_eq!(t.large[0b111], 1_000_000);
    assert_eq!(t.small[0b111], 0);
    assert_eq!(t.large[0b111 << 9], -1_000_000);
    // The full drawn grid scores zero.
    let us = 0b110001101u64;
    let them = 0b001110010u64;
    assert_eq!(us & them, 0);
    assert_eq!(us | them, 511);
    assert_eq!(t.large[((them << 9) | us) as usize], 0);
}

#[test]
fn table_entry_formula_for_lone_centre() {
    // A lone centre stone touches four live lines at 20 each, plus the
    // positional centre worth 9, scaled by 25 in the large table.
    let t = init();
    assert_eq!(t.large[1 << 4], 4 * 20 + 25 * 9);
    assert_eq!(t.small[1 << 4], 4 * 1 + 9);
}

#[test]
fn empty_board_is_well_formed() {
    let b = empty_board();
    assert_eq!(b, Board { us: 0, them: 0, share: 9 << 54 });
    assert!(board_wf(&b));
}

#[test]
fn play_move_sets_cell_and_next_zone() {
    let b = empty_board();
    let after = play_move(b, 40, false);
    assert_eq!(after.us, 1u64 << 40);
    assert_eq!(after.them, 0);
    assert_eq!((after.share >> 54) & 15, 4);
    assert!(board_wf(&after));
}

#[test]
fn play_move_is_deterministic() {
    let b = empty_board();
    let r1 = play_move(b, 40, false);
    let r2 = play_move(b, 40, false);
    assert_eq!(r1, r2);
}

#[test]
fn play_move_conserves_occupancy() {
    // One move adds exactly one stone for the mover and none for the
    // opponent.
    let b = empty_board();
    let after_x = play_move(b, 40, false);
    assert_eq!(after_x.us.count_ones(), 1);
    assert_eq!(after_x.them.count_ones(), 0);
    let after_o = play_move(after_x, 44, true);
    assert_eq!(after_o.us.count_ones(), 1);
    assert_eq!(after_o.them.count_ones(), 1);
}

#[test]
fn winning_a_zone_sent_to_itself_frees_the_choice() {
    // X holds the corners of zone C and plays its centre: the zone is won
    // by that very move, and since the move also points at zone C, the
    // next zone becomes any.
    let b = Board { us: (1u64 << 36) | (1u64 << 44), them: 0, share: 4 << 54 };
    assert!(board_wf(&b));
    let after = play_move(b, 40, false);
    assert_eq!((after.share >> 36) & 0x1FF, 1 << 4);
    assert_eq!((after.share >> 54) & 15, 9);
    assert!(board_wf(&after));
}

#[test]
fn generator_lists_all_cells_of_the_empty_board() {
    let b = empty_board();
    let moves = generate_moves(&b);
    assert_eq!(moves.len(), 81);
    for (i, m) in moves.iter().enumerate() {
        assert_eq!(*m, i as u64);
    }
}

#[test]
fn generator_honours_the_zone_constraint() {
    // After a move to intra-zone position 3, only zone W's free cells come
    // back.
    let b = empty_board();
    let after = play_move(b, 3, false);
    let moves = generate_moves(&after);
    assert_eq!(moves.len(), 9);
    for m in moves.iter() {
        assert_eq!(m / 9, 3);
    }
}

#[test]
fn generator_skips_won_zones_under_free_choice() {
    let b = Board { us: (1u64 << 36) | (1u64 << 44), them: 0, share: 4 << 54 };
    let after = play_move(b, 40, false);
    // Zone C is now won and the choice free: its cells never appear.
    let moves = generate_moves(&after);
    assert!(!moves.is_empty());
    for m in moves.iter() {
        assert_ne!(m / 9, 4);
    }
}

#[test]
fn meta_win_stops_the_generator() {
    // X owns the top meta row: the game is over, nothing is generated.
    let b = Board { us: 0, them: 0, share: (0b111u64 << 36) | (9 << 54) };
    let moves = generate_moves(&b);
    assert!(moves.is_empty());
}

#[test]
fn meta_bits_never_clear() {
    // Once a zone is won its meta bit survives every later move.
    let b = Board { us: (1u64 << 36) | (1u64 << 44), them: 0, share: 4 << 54 };
    let won = play_move(b, 40, false);
    assert_eq!((won.share >> 36) & 0x1FF, 1 << 4);
    let later = play_move(won, 0, true);
    assert_eq!((later.share >> 36) & 0x1FF, 1 << 4);
}
