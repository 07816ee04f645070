//! What every move keeps and changes.
use vstd::prelude::*;

use crate::board;
use crate::board::Board;
use crate::side::Side;
use crate::squares;

verus! {

/// The discs that a disc of the player on `square` turns.
pub open spec fn turned(board: Board, square: int) -> Set<int> {
    Set::new(|t: int| board.turns(square, t))
}

/// Only discs of the other player are turned.
pub proof fn law_only_opponent_discs_turn(board: Board, square: int, target: int)
    requires
        board.turns(square, target),
    ensures
        squares::holds(board.opponent(), target),
{
    let (player, opponent) = (board.player(), board.opponent());
    let d = choose|d: int|
        0 <= d < 8 && #[trigger] board::bracketed(
            player,
            opponent,
            square,
            board::DIRECTIONS@[d].0 as int,
            board::DIRECTIONS@[d].1 as int,
            target,
        );
    let (dr, dc) = (board::DIRECTIONS@[d].0 as int, board::DIRECTIONS@[d].1 as int);
    let (n, k) = choose|n: int, k: int|
        #[trigger] board::brackets(player, opponent, square, dr, dc, n) && 1 <= k <= n && target
            == #[trigger] board::ray_square(square, dr, dc, k);
    assert(squares::holds(opponent, board::ray_square(square, dr, dc, k)));
}

/// A legal move turns at least one disc and never the square that it fills.
pub proof fn law_legal_move_turns_discs(board: Board, square: int)
    requires
        board.legal(square),
    ensures
        turned(board, square).finite(),
        turned(board, square).len() >= 1,
        turned(board, square).subset_of(squares::squares(board.opponent())),
        !turned(board, square).contains(square),
{
    let set = turned(board, square);
    let other = squares::squares(board.opponent());
    assert forall|t: int| set.contains(t) implies other.contains(t) by {
        law_only_opponent_discs_turn(board, square, t);
    }
    squares::lemma_squares_finite(board.opponent());
    vstd::set_lib::lemma_len_subset(set, other);
    let t = choose|t: int| board.turns(square, t);
    assert(set.contains(t));
    if set.contains(square) {
        assert(other.contains(square));
    }
}

/// A move fills exactly one square: the discs on the board are the old ones and the
/// placed one, on whatever squares they stand.
pub proof fn law_move_fills_one_square(board: Board, square: int)
    requires
        board.legal(square),
    ensures
        board.after_move(square).discs() == board.discs().insert(square),
        board.discs().finite(),
        board.after_move(square).discs().len() == board.discs().len() + 1,
        board.after_move(square).discs().len() <= 64,
{
    let next = board.after_move(square);
    board.lemma_after_move(square);
    assert forall|s: int| next.taken(s) == (board.taken(s) || s == square) by {
        assert(next.taken(s) == (squares::holds(next.player(), s) || squares::holds(
            next.opponent(),
            s,
        )));
        assert(board.taken(s) == (squares::holds(board.player(), s) || squares::holds(
            board.opponent(),
            s,
        )));
        if board.turns(square, s) {
            law_only_opponent_discs_turn(board, square, s);
        }
    }
    assert(next.discs() =~= board.discs().insert(square));
    lemma_discs_finite(board);
    lemma_discs_finite(next);
}

/// At most 64 discs stand on a board.
pub proof fn lemma_discs_finite(board: Board)
    ensures
        board.discs().finite(),
        board.discs().len() <= 64,
{
    let mask = board.black | board.white;
    assert forall|s: int| squares::holds(mask, s) == board.taken(s) by {
        squares::lemma_holds_ops(board.black, board.white, s);
    }
    assert(squares::squares(mask) =~= board.discs());
    squares::lemma_squares_finite(mask);
}

/// A legal move keeps the discs of the two players apart.
pub proof fn law_move_keeps_discs_apart(board: Board, square: int)
    requires
        board.well_formed(),
        board.legal(square),
    ensures
        board.after_move(square).well_formed(),
{
    let next = board.after_move(square);
    board.lemma_after_move(square);
    assert forall|s: int| !(squares::holds(next.black, s) && squares::holds(next.white, s)) by {
        assert(!(squares::holds(board.black, s) && squares::holds(board.white, s)));
        if squares::holds(next.player(), s) && squares::holds(next.opponent(), s) {
            assert(squares::holds(board.opponent(), s));
            assert(s == square);
        }
    }
}

/// The score of a legal move: the mover gains the placed disc and the turned ones, the
/// other player loses the turned ones.
pub proof fn law_move_score(board: Board, square: int)
    requires
        board.well_formed(),
        board.legal(square),
    ensures
        squares::squares(board.after_move(square).opponent()).len() == squares::squares(
            board.player(),
        ).len() + 1 + turned(board, square).len(),
        squares::squares(board.after_move(square).player()).len() == squares::squares(
            board.opponent(),
        ).len() - turned(board, square).len(),
{
    let next = board.after_move(square);
    let own = squares::squares(board.player());
    let other = squares::squares(board.opponent());
    let flips = turned(board, square);
    board.lemma_after_move(square);
    law_legal_move_turns_discs(board, square);
    squares::lemma_squares_finite(board.player());
    squares::lemma_squares_finite(board.opponent());
    assert(own.disjoint(other)) by {
        assert forall|s: int| own.contains(s) implies !other.contains(s) by {
            assert(!(squares::holds(board.black, s) && squares::holds(board.white, s)));
        }
    }
    assert(!own.contains(square));
    assert(squares::squares(next.opponent()) =~= own.insert(square).union(flips)) by {
        assert forall|s: int|
            squares::squares(next.opponent()).contains(s) == own.insert(square).union(
                flips,
            ).contains(s) by {
            if flips.contains(s) {
                assert(other.contains(s));
            }
        }
    }
    assert(own.insert(square).disjoint(flips));
    vstd::set_lib::lemma_set_disjoint_lens(own.insert(square), flips);
    assert(squares::squares(next.player()) =~= other.difference(flips));
    assert(other =~= other.difference(flips).union(flips));
    vstd::set_lib::lemma_set_disjoint_lens(other.difference(flips), flips);
}

/// Passing changes nothing but the player to move, and two passes change nothing.
pub proof fn law_pass(board: Board)
    ensures
        board.after_pass().black == board.black,
        board.after_pass().white == board.white,
        board.after_pass().side != board.side,
        board.after_pass().after_pass() == board,
        board.after_pass().finished() == board.finished(),
        board.well_formed() ==> board.after_pass().well_formed(),
{
    assert(board.after_pass().after_pass() == board);
    if board.finished() {
        assert forall|s: int|
            !board.after_pass().legal(s) && !board.after_pass().after_pass().legal(s) by {
            assert(!board.legal(s));
        }
    }
    if board.after_pass().finished() {
        assert forall|s: int| !board.legal(s) && !board.after_pass().legal(s) by {
            assert(!board.after_pass().legal(s) && !board.after_pass().after_pass().legal(s));
        }
    }
}

/// A full board ends the game.
pub proof fn law_full_board_is_finished(board: Board)
    requires
        forall|s: int| 0 <= s < 64 ==> board.taken(s),
    ensures
        board.finished(),
{
    assert forall|s: int| !board.legal(s) && !board.after_pass().legal(s) by {
        if 0 <= s < 64 {
            assert(board.taken(s));
        }
    }
}

/// The starting position has two discs for each player, on four different squares, and
/// Black is to move.
pub proof fn law_start_is_balanced()
    ensures
        Board::start().well_formed(),
        Board::start().side == Side::Black,
        squares::squares(Board::start().black) == set![28int, 35int],
        squares::squares(Board::start().white) == set![27int, 36int],
        squares::squares(Board::start().black).len() == 2,
        squares::squares(Board::start().white).len() == 2,
{
    let start = Board::start();
    board::lemma_mask_of(|s: int| s == 3 * 8 + 4 || s == 4 * 8 + 3);
    board::lemma_mask_of(|s: int| s == 3 * 8 + 3 || s == 4 * 8 + 4);
    assert(squares::squares(start.black) =~= set![28int, 35int]);
    assert(squares::squares(start.white) =~= set![27int, 36int]);
}

/// A ray runs straight: each step changes the row and the column by the same amounts, and it
/// is on the board as long as both are.
pub proof fn law_rays_are_straight(square: int, dr: int, dc: int, k: int)
    ensures
        board::ray_inside(square, dr, dc, k) == (0 <= square / 8 + k * dr < 8 && 0 <= square % 8 + k
            * dc < 8),
        board::ray_square(square, dr, dc, k) == 8 * (square / 8 + k * dr) + square % 8 + k * dc,
        board::ray_inside(square, dr, dc, k) ==> 0 <= board::ray_square(square, dr, dc, k) < 64
            && board::ray_square(square, dr, dc, k) / 8 == square / 8 + k * dr
            && board::ray_square(square, dr, dc, k) % 8 == square % 8 + k * dc,
{
}

/// Who moves: with Black to move the player's discs are the black ones, with White to move
/// the white ones.
pub proof fn law_player_is_the_side_to_move(board: Board)
    ensures
        board.side == Side::Black ==> board.player() == board.black && board.opponent()
            == board.white,
        board.side == Side::White ==> board.player() == board.white && board.opponent()
            == board.black,
{
}

/// Every disc between the placed one and the next disc of the player in any of the eight
/// directions is turned, however many there are, if all of them are the opponent's.
pub proof fn law_bracketed_discs_turn(
    board: Board,
    square: int,
    dr: int,
    dc: int,
    m: int,
    k: int,
)
    requires
        -1 <= dr <= 1,
        -1 <= dc <= 1,
        dr != 0 || dc != 0,
        0 < k < m,
        forall|j: int|
            0 < j < m ==> #[trigger] board::ray_inside(square, dr, dc, j) && squares::holds(
                board.opponent(),
                board::ray_square(square, dr, dc, j),
            ),
        board::ray_inside(square, dr, dc, m),
        squares::holds(board.player(), board::ray_square(square, dr, dc, m)),
        !squares::holds(board.opponent(), board::ray_square(square, dr, dc, m)),
    ensures
        board.turns(square, board::ray_square(square, dr, dc, k)),
{
    let d = if dr < 0 {
        dc + 1
    } else if dr == 0 {
        if dc < 0 {
            3
        } else {
            4
        }
    } else {
        dc + 6
    };
    let (player, opponent) = (board.player(), board.opponent());
    assert(board::DIRECTIONS@[d].0 == dr && board::DIRECTIONS@[d].1 == dc);
    assert forall|j: int|
        #![trigger board::ray_square(square, dr, dc, j)]
        #![trigger board::ray_inside(square, dr, dc, j)]
        1 <= j <= m - 1 implies board::ray_inside(square, dr, dc, j) && squares::holds(
        opponent,
        board::ray_square(square, dr, dc, j),
    ) by {
        assert(board::ray_inside(square, dr, dc, j));
    }
    assert(board::brackets(player, opponent, square, dr, dc, m - 1));
    assert(board::bracketed(
        player,
        opponent,
        square,
        dr,
        dc,
        board::ray_square(square, dr, dc, k),
    ));
}

/// A disc that is turned stands between the placed disc and a disc of the player in one of
/// the eight directions, with nothing but discs of the opponent between them. The result is
/// that direction, the distance to the player's disc and that to the turned one.
pub proof fn law_turned_disc_is_bracketed(board: Board, square: int, target: int) -> (w: (
    int,
    int,
    int,
    int,
))
    requires
        board.turns(square, target),
    ensures
        -1 <= w.0 <= 1,
        -1 <= w.1 <= 1,
        w.0 != 0 || w.1 != 0,
        0 < w.3 < w.2,
        target == board::ray_square(square, w.0, w.1, w.3),
        forall|j: int|
            0 < j < w.2 ==> #[trigger] board::ray_inside(square, w.0, w.1, j) && squares::holds(
                board.opponent(),
                board::ray_square(square, w.0, w.1, j),
            ),
        board::ray_inside(square, w.0, w.1, w.2),
        squares::holds(board.player(), board::ray_square(square, w.0, w.1, w.2)),
        !squares::holds(board.opponent(), board::ray_square(square, w.0, w.1, w.2)),
{
    let (player, opponent) = (board.player(), board.opponent());
    let d = choose|d: int|
        0 <= d < 8 && #[trigger] board::bracketed(
            player,
            opponent,
            square,
            board::DIRECTIONS@[d].0 as int,
            board::DIRECTIONS@[d].1 as int,
            target,
        );
    let (dr, dc) = (board::DIRECTIONS@[d].0 as int, board::DIRECTIONS@[d].1 as int);
    let (n, k) = choose|n: int, k: int|
        #[trigger] board::brackets(player, opponent, square, dr, dc, n) && 1 <= k <= n && target
            == #[trigger] board::ray_square(square, dr, dc, k);
    (dr, dc, n + 1, k)
}

/// A square is legal exactly where it is empty and a disc there turns some disc.
pub proof fn law_legal_squares(board: Board, square: int)
    ensures
        board.legal(square) ==> 0 <= square < 64 && !squares::holds(board.black, square)
            && !squares::holds(board.white, square) && exists|t: int| board.turns(square, t),
        forall|t: int|
            0 <= square < 64 && !squares::holds(board.black, square) && !squares::holds(
                board.white,
                square,
            ) && #[trigger] board.turns(square, t) ==> board.legal(square),
        squares::holds(board.legal_mask(), square) == board.legal(square),
        board.discs().contains(square) == (squares::holds(board.black, square) || squares::holds(
            board.white,
            square,
        )),
{
    board::lemma_mask_of(|s: int| board.legal(s));
}

/// What a move leaves on a square: the mover's discs, the placed one and the turned ones are
/// the mover's, the opponent keeps the rest, and the other player is to move.
pub proof fn law_board_after_a_move(board: Board, square: int, t: int)
    requires
        0 <= t < 64,
    ensures
        ({
            let next = board.after_move(square);
            let mine = |mask: u64|
                squares::holds(mask, t) || t == square || board.turns(square, t);
            let theirs = |mask: u64| squares::holds(mask, t) && !board.turns(square, t);
            match board.side {
                Side::Black => squares::holds(next.black, t) == mine(board.black)
                    && squares::holds(next.white, t) == theirs(board.white) && next.side
                    == Side::White,
                Side::White => squares::holds(next.white, t) == mine(board.white)
                    && squares::holds(next.black, t) == theirs(board.black) && next.side
                    == Side::Black,
            }
        }),
{
    board.lemma_after_move(square);
    let next = board.after_move(square);
    assert(squares::holds(next.opponent(), t) == (squares::holds(board.player(), t) || t == square
        || board.turns(square, t)));
    assert(squares::holds(next.player(), t) == (squares::holds(board.opponent(), t)
        && !board.turns(square, t)));
}

/// The game is over exactly when neither player has a legal square.
pub proof fn law_game_is_over_without_moves(board: Board, square: int)
    ensures
        board.legal(square) || board.after_pass().legal(square) ==> !board.finished(),
        board.legal_mask() == 0 && board.after_pass().legal_mask() == 0 ==> board.finished(),
{
    board.lemma_finished(board.legal_mask(), board.after_pass().legal_mask());
}

} // verus!
