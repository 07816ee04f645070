use num_bigint::BigUint;
use othello_full_search::board::Board;
use othello_full_search::perft::{perft, perft_command};
use othello_full_search::side::Side;
use othello_full_search::squares::bits;

#[test]
fn known_initial_perft_counts() {
    let board = Board::initial();
    let expected = [
        (0, 1u64),
        (1, 4),
        (2, 12),
        (3, 56),
        (4, 244),
        (5, 1396),
        (6, 8200),
    ];
    for (depth, count) in expected {
        assert_eq!(perft(board, depth), BigUint::from(count));
    }
}

#[test]
fn a_finished_game_is_one_leaf() {
    let full = Board { black: u64::MAX, white: 0, side: Side::Black };
    assert_eq!(perft(full, 0), BigUint::from(1u8));
    assert_eq!(perft(full, 255), BigUint::from(1u8));
}

#[test]
fn a_pass_takes_one_move_of_depth() {
    // White must pass; Black then takes the last White disc and the game is over.
    let board = Board { black: 1, white: 1 << 1, side: Side::White };
    assert_eq!(board.legal_moves(), 0);
    assert_eq!(perft(board, 1), BigUint::from(1u8));
    assert_eq!(perft(board, 2), BigUint::from(1u8));
    assert_eq!(perft(board, 200), BigUint::from(1u8));
}

#[test]
fn counts_below_the_first_moves_add_up() {
    let board = Board::initial();
    for depth in 1..5u8 {
        let mut total = BigUint::from(0u8);
        for square in bits(board.legal_moves()) {
            total += perft(board.apply_move(square), depth - 1);
        }
        assert_eq!(total, perft(board, depth));
    }
}

#[test]
fn perft_command_prints_the_count() {
    assert_eq!(perft_command(6, false), vec!["8200"]);
    assert_eq!(perft_command(0, false), vec!["1"]);
}

#[test]
fn perft_command_divides_the_count() {
    assert_eq!(perft_command(3, true), vec!["D3: 14", "C4: 14", "F5: 14", "E6: 14", "total: 56"]);
    // At depth 0 every first move still counts as a leaf.
    assert_eq!(perft_command(0, true), vec!["D3: 1", "C4: 1", "F5: 1", "E6: 1", "total: 4"]);
    assert_eq!(perft_command(1, true), perft_command(0, true));
}
