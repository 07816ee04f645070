use othello_full_search::board::Board;
use othello_full_search::side::Side;
use othello_full_search::squares::{bit_at, bits, count_squares, in_board, square_name};

#[test]
fn initial_position_has_four_moves() {
    let board = Board::initial();
    let names: Vec<String> = bits(board.legal_moves()).into_iter().map(square_name).collect();
    assert_eq!(names, vec!["D3", "C4", "F5", "E6"]);
}

#[test]
fn move_application_flips_discs() {
    let board = Board::initial().apply_move(19); // D3
    assert_eq!(board.black.count_ones(), 4);
    assert_eq!(board.white.count_ones(), 1);
    assert_eq!(board.side, Side::White);
}

#[test]
fn starting_position_is_the_usual_one() {
    let board = Board::initial();
    assert_eq!(board.black, 0x0000_0008_1000_0000);
    assert_eq!(board.white, 0x0000_0010_0800_0000);
    assert_eq!(board.side, Side::Black);
    assert_eq!(board.disc_counts(), (2, 2));
    assert_eq!(board.empties(), 60);
    assert_eq!(board.occupied(), board.black | board.white);
    assert_eq!(board.player_bits(), board.black);
    assert_eq!(board.opponent_bits(), board.white);
    assert!(!board.is_terminal());
}

#[test]
fn a_move_changes_exactly_the_bracketed_discs() {
    let board = Board::initial();
    assert_eq!(board.flips_for(19), 1 << 27);
    let after = board.apply_move(19);
    assert_eq!(after.black, board.black | 1 << 19 | 1 << 27);
    assert_eq!(after.white, 1 << 36);
    assert_eq!(after.empties(), board.empties() - 1);
    // Whoever moves gains the new disc and the turned ones.
    let (black, white) = after.disc_counts();
    assert_eq!((black, white), (4, 1));
}

#[test]
fn squares_without_a_bracket_turn_nothing() {
    let board = Board::initial();
    assert_eq!(board.flips_for(0), 0);
    assert_eq!(board.flips_for(20), 0);
    assert_eq!(board.flips_for(255), 0);
}

#[test]
fn white_moves_turn_black_discs() {
    let board = Board::initial().apply_move(19);
    let moves = bits(board.legal_moves());
    assert_eq!(moves, vec![18, 20, 34]);
    let after = board.apply_move(18);
    assert_eq!(after.side, Side::Black);
    assert_eq!(after.white, 1 << 36 | 1 << 27 | 1 << 18);
    assert_eq!(after.black, 1 << 19 | 1 << 28 | 1 << 35);
}

#[test]
fn one_move_can_turn_discs_in_several_directions() {
    // Black on A1, D1 and A4 brackets rows of White from D4.
    let black = 1 | 1 << 3 | 1 << 24;
    let white = 1 << 9 | 1 << 18 | 1 << 11 | 1 << 19 | 1 << 25 | 1 << 26;
    let board = Board { black, white, side: Side::Black };
    assert_eq!(board.flips_for(27), white);
    assert_eq!(board.legal_moves() & (1 << 27), 1 << 27);
    let after = board.apply_move(27);
    assert_eq!(after.white, 0);
    assert_eq!(after.black, black | white | 1 << 27);
}

#[test]
fn rays_do_not_wrap_round_the_edge() {
    // H1 and A2 are neighbours as numbers only.
    let board = Board { black: 1 << 9, white: 1 << 8, side: Side::Black };
    assert_eq!(board.flips_for(7), 0);
    assert_eq!(board.legal_moves(), 0);
}

#[test]
fn pass_changes_the_player_alone() {
    let board = Board::initial();
    let passed = board.pass();
    assert_eq!(passed.black, board.black);
    assert_eq!(passed.white, board.white);
    assert_eq!(passed.side, Side::White);
    assert_eq!(passed.pass(), board);
}

#[test]
fn game_is_over_when_nobody_can_move() {
    let full = Board { black: u64::MAX, white: 0, side: Side::White };
    assert!(full.is_terminal());
    assert_eq!(full.empties(), 0);
    assert_eq!(full.disc_counts(), (64, 0));
    let wiped_out = Board { black: 1 << 3, white: 0, side: Side::Black };
    assert!(wiped_out.is_terminal());
    let must_pass = Board { black: 1, white: 1 << 1, side: Side::White };
    assert_eq!(must_pass.legal_moves(), 0);
    assert!(!must_pass.is_terminal());
}

#[test]
fn legal_moves_lie_on_empty_squares_and_turn_discs() {
    let mut board = Board::initial();
    for _ in 0..20 {
        let moves = board.legal_moves();
        assert_eq!(moves & board.occupied(), 0);
        for square in 0..64u8 {
            let legal = moves >> square & 1 == 1;
            let free = board.occupied() >> square & 1 == 0;
            assert_eq!(legal, free && board.flips_for(square) != 0);
        }
        match bits(moves).first() {
            Some(square) => {
                let turned = board.flips_for(*square);
                assert_eq!(turned & !board.opponent_bits(), 0);
                let next = board.apply_move(*square);
                assert_eq!(next.black & next.white, 0);
                assert_eq!(next.occupied(), board.occupied() | 1 << *square);
                board = next;
            }
            None => board = board.pass(),
        }
    }
}

#[test]
fn square_names_and_bits() {
    assert_eq!(square_name(0), "A1");
    assert_eq!(square_name(7), "H1");
    assert_eq!(square_name(19), "D3");
    assert_eq!(square_name(63), "H8");
    assert_eq!(bit_at(0, 0), 1);
    assert_eq!(bit_at(3, 4), 1 << 28);
    assert_eq!(bit_at(7, 7), 1 << 63);
    assert!(in_board(0, 0));
    assert!(in_board(7, 7));
    assert!(!in_board(-1, 0));
    assert!(!in_board(0, 8));
    assert!(!in_board(8, -1));
}

#[test]
fn bits_come_in_ascending_order() {
    assert_eq!(bits(0), Vec::<u8>::new());
    assert_eq!(bits(0b1011), vec![0, 1, 3]);
    assert_eq!(bits(1 << 63 | 1), vec![0, 63]);
    assert_eq!(bits(u64::MAX).len(), 64);
    assert_eq!(count_squares(u64::MAX), 64);
    assert_eq!(count_squares(0b1011), 3);
}

#[test]
fn sides_read_back() {
    for side in [Side::Black, Side::White] {
        assert_eq!(side.opposite().opposite(), side);
        assert_ne!(side.opposite(), side);
        assert_eq!(Side::from_i64(side.to_i64()).unwrap(), side);
        assert_eq!(Side::from_char(side.to_char()).unwrap(), side);
    }
    assert_eq!(Side::Black.to_i64(), 0);
    assert_eq!(Side::White.to_i64(), 1);
    assert_eq!(Side::Black.to_char(), 'b');
    assert_eq!(Side::White.to_char(), 'w');
    assert_eq!(Side::from_char('B').unwrap(), Side::Black);
    assert_eq!(Side::from_char('W').unwrap(), Side::White);
}

#[test]
fn unknown_sides_are_refused() {
    assert_eq!(Side::from_i64(2).unwrap_err().message(), "invalid side value: 2");
    assert_eq!(Side::from_i64(-7).unwrap_err().message(), "invalid side value: -7");
    assert_eq!(
        Side::from_i64(i64::MIN).unwrap_err().message(),
        "invalid side value: -9223372036854775808"
    );
    assert_eq!(Side::from_char('x').unwrap_err().message(), "invalid side char: x");
}
