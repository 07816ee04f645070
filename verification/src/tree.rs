//! The game tree: the moves from a position, and what is counted over all lines of
//! play.
use vstd::prelude::*;

use crate::board::Board;
use crate::rules;
use crate::side::Side;
use crate::squares;

verus! {

/// The number under which a pass is stored as a move.
pub const PASS_MOVE: i32 = 64;

/// The moves from a position with the positions that they lead to: none when the game
/// is over, a pass when only the other player can move, and otherwise every legal
/// square in ascending order.
pub open spec fn children(board: Board) -> Seq<(int, Board)> {
    let list = squares::square_list(board.legal_mask());
    if board.finished() {
        Seq::empty()
    } else if board.legal_mask() == 0 {
        seq![(PASS_MOVE as int, board.after_pass())]
    } else {
        Seq::new(list.len(), |i: int| (list[i] as int, board.after_move(list[i] as int)))
    }
}

/// A bound on the number of moves that can still follow.
pub open spec fn height(board: Board) -> nat {
    (2 * (64 - board.discs().len()) + if board.legal_mask() == 0 {
        1int
    } else {
        0int
    }) as nat
}

/// The legal squares as a mask and as a list.
pub proof fn lemma_legal_list(board: Board)
    ensures
        forall|s: int| #[trigger] squares::holds(board.legal_mask(), s) == board.legal(s),
        forall|i: int|
            0 <= i < squares::square_list(board.legal_mask()).len() ==> board.legal(
                #[trigger] squares::square_list(board.legal_mask())[i] as int,
            ),
{
    crate::board::lemma_mask_of(|s: int| board.legal(s));
    squares::lemma_square_list(board.legal_mask());
    assert forall|i: int|
        0 <= i < squares::square_list(board.legal_mask()).len() implies board.legal(
        #[trigger] squares::square_list(board.legal_mask())[i] as int,
    ) by {
        let s = squares::square_list(board.legal_mask())[i] as int;
        assert(squares::holds(board.legal_mask(), s));
    }
}

/// Every move brings the end of the game nearer, and a position has moves exactly as
/// long as the game is not over.
pub proof fn law_moves_lead_towards_the_end(board: Board)
    ensures
        forall|i: int|
            0 <= i < children(board).len() ==> height(#[trigger] children(board)[i].1) < height(
                board,
            ),
        (children(board).len() == 0) == board.finished(),
        height(board) <= 129,
{
    let list = squares::square_list(board.legal_mask());
    squares::lemma_square_list(board.legal_mask());
    lemma_legal_list(board);
    board.lemma_finished(board.legal_mask(), board.after_pass().legal_mask());
    rules::lemma_discs_finite(board);
    assert forall|i: int| 0 <= i < children(board).len() implies height(
        #[trigger] children(board)[i].1,
    ) < height(board) by {
        let child = children(board)[i].1;
        if board.legal_mask() == 0 {
            assert(child.discs() =~= board.discs());
        } else {
            assert(board.legal(list[i] as int));
            rules::law_move_fills_one_square(board, list[i] as int);
        }
    }
}

/// The sum of `f` over the positions in which the lines of play from `board` end, a
/// line being any sequence of moves, of any length and also none.
pub open spec fn line_total(board: Board, f: spec_fn(Board) -> nat) -> nat
    decreases height(board), children(board).len() + 1,
{
    f(board) + line_total_below(board, children(board).len(), f)
}

/// The part of `line_total` on lines that begin with one of the first `n` moves.
pub open spec fn line_total_below(board: Board, n: nat, f: spec_fn(Board) -> nat) -> nat
    decreases height(board), n,
{
    if n == 0 || n > children(board).len() {
        0
    } else {
        proof {
            law_moves_lead_towards_the_end(board);
            assert(height(children(board)[n - 1].1) < height(board));
        }
        line_total_below(board, (n - 1) as nat, f) + line_total(children(board)[n - 1].1, f)
    }
}

/// 1 at the position `target`, 0 elsewhere.
pub open spec fn at(target: Board) -> spec_fn(Board) -> nat {
    |board: Board|
        if board == target {
            1nat
        } else {
            0nat
        }
}

/// 1 where a move leads to the position `target`, 0 elsewhere.
pub open spec fn moves_to(target: Board) -> spec_fn(Board) -> nat {
    |board: Board| first_moves_to(board, children(board).len(), target)
}

/// 1 where one of the first `n` moves leads to the position `target`, 0 elsewhere.
pub open spec fn first_moves_to(board: Board, n: nat, target: Board) -> nat {
    if exists|i: int| 0 <= i < n && (#[trigger] children(board)[i]).1 == target {
        1
    } else {
        0
    }
}

/// 1 where the game has ended with the given numbers of discs, 0 elsewhere.
pub open spec fn ended_with(black: int, white: int) -> spec_fn(Board) -> nat {
    |board: Board|
        if board.finished() && squares::squares(board.black).len() == black && squares::squares(
            board.white,
        ).len() == white {
            1nat
        } else {
            0nat
        }
}

/// 1 where the game has ended, 0 elsewhere.
pub open spec fn ended() -> spec_fn(Board) -> nat {
    |board: Board|
        if board.finished() {
            1nat
        } else {
            0nat
        }
}

/// 1 everywhere.
pub open spec fn each() -> spec_fn(Board) -> nat {
    |board: Board| 1nat
}

/// The number of game paths from one position to another.
pub open spec fn path_count(from: Board, to: Board) -> nat {
    line_total(from, at(to))
}

/// The number of games from a position that end with the given numbers of discs.
pub open spec fn game_count(from: Board, black: int, white: int) -> nat {
    line_total(from, ended_with(black, white))
}

/// The final score of a position, from Black's side.
pub open spec fn score(board: Board) -> int {
    squares::squares(board.black).len() - squares::squares(board.white).len()
}

/// The value that a player prefers: Black the larger one, White the smaller one.
pub open spec fn better(side: Side, a: int, b: int) -> int {
    match side {
        Side::Black => if a >= b {
            a
        } else {
            b
        },
        Side::White => if a <= b {
            a
        } else {
            b
        },
    }
}

/// The exact value of a position from Black's side: the final score when both players
/// choose the moves that are best for them.
pub open spec fn exact_value(board: Board) -> int
    decreases height(board), children(board).len() + 1,
{
    if children(board).len() == 0 {
        score(board)
    } else {
        best_value(board, children(board).len())
    }
}

/// The value of the best of the first `n` moves for the player to move.
pub open spec fn best_value(board: Board, n: nat) -> int
    decreases height(board), n,
{
    if n == 0 || n > children(board).len() {
        0
    } else {
        proof {
            law_moves_lead_towards_the_end(board);
            assert(height(children(board)[n - 1].1) < height(board));
        }
        let last = exact_value(children(board)[n - 1].1);
        if n == 1 {
            last
        } else {
            better(board.side, best_value(board, (n - 1) as nat), last)
        }
    }
}

/// The value of a position is that of one of its moves, and no move is better for the
/// player to move.
pub proof fn law_value_is_that_of_the_best_move(board: Board)
    requires
        !board.finished(),
    ensures
        exists|i: int|
            0 <= i < children(board).len() && exact_value(board) == exact_value(
                #[trigger] children(board)[i].1,
            ),
        forall|i: int|
            0 <= i < children(board).len() ==> better(
                board.side,
                exact_value(board),
                exact_value(#[trigger] children(board)[i].1),
            ) == exact_value(board),
{
    law_moves_lead_towards_the_end(board);
    lemma_best_value(board, children(board).len());
}

proof fn lemma_best_value(board: Board, n: nat)
    requires
        0 < n <= children(board).len(),
    ensures
        exists|i: int|
            0 <= i < n && best_value(board, n) == exact_value(#[trigger] children(board)[i].1),
        forall|i: int|
            0 <= i < n ==> better(
                board.side,
                best_value(board, n),
                exact_value(#[trigger] children(board)[i].1),
            ) == best_value(board, n),
    decreases n,
{
    let last = exact_value(children(board)[n - 1].1);
    if n > 1 {
        let m = (n - 1) as nat;
        lemma_best_value(board, m);
        let i = choose|i: int|
            0 <= i < m && best_value(board, m) == exact_value(#[trigger] children(board)[i].1);
        assert(best_value(board, n) == better(board.side, best_value(board, m), last));
        if best_value(board, n) == best_value(board, m) {
            assert(best_value(board, n) == exact_value(children(board)[i].1));
        } else {
            assert(best_value(board, n) == exact_value(children(board)[n - 1].1));
        }
        assert forall|j: int| 0 <= j < n implies better(
            board.side,
            best_value(board, n),
            exact_value(#[trigger] children(board)[j].1),
        ) == best_value(board, n) by {
            if j < m {
                assert(better(
                    board.side,
                    best_value(board, m),
                    exact_value(children(board)[j].1),
                ) == best_value(board, m));
            }
        }
    }
}

/// Different moves lead to different positions.
pub proof fn law_moves_lead_to_different_positions(board: Board, i: int, j: int)
    requires
        0 <= i < j < children(board).len(),
    ensures
        children(board)[i].0 != children(board)[j].0,
        children(board)[i].1 != children(board)[j].1,
{
    let list = squares::square_list(board.legal_mask());
    squares::lemma_square_list(board.legal_mask());
    lemma_legal_list(board);
    let (a, b) = (list[i] as int, list[j] as int);
    assert(a < b);
    assert(board.legal(a) && board.legal(b));
    rules::law_move_fills_one_square(board, a);
    rules::law_move_fills_one_square(board, b);
    assert(board.after_move(a).discs().contains(a));
    assert(!board.discs().contains(a));
    assert(!board.after_move(b).discs().contains(a));
}

/// Whether `mv` leads from one position to another: a disc on a legal square, or a pass
/// where only the other player can move.
pub open spec fn is_move(board: Board, mv: int, next: Board) -> bool {
    ||| board.legal(mv) && next == board.after_move(mv)
    ||| mv == PASS_MOVE && !board.finished() && board.legal_mask() == 0 && next
        == board.after_pass()
}

/// The listed moves are the moves.
pub proof fn lemma_children_are_moves(board: Board, mv: int, next: Board)
    ensures
        children(board).contains((mv, next)) == is_move(board, mv, next),
{
    let list = squares::square_list(board.legal_mask());
    let moves = children(board);
    squares::lemma_square_list(board.legal_mask());
    lemma_legal_list(board);
    if moves.contains((mv, next)) {
        let i = moves.index_of((mv, next));
        assert(moves[i] == (mv, next));
        if board.legal_mask() != 0 {
            assert(board.legal(list[i] as int));
        }
    }
    if is_move(board, mv, next) {
        if board.legal(mv) {
            assert(squares::holds(board.legal_mask(), mv));
            squares::lemma_holds_zero(mv);
            assert(squares::holds(board.legal_mask(), (mv as u8) as int));
            let i = list.index_of(mv as u8);
            assert(moves[i] == (mv, next));
        } else {
            assert(moves[0] == (mv, next));
        }
    }
}

/// Wherever play leads from a position in which no square holds discs of both players,
/// none does.
pub proof fn law_play_keeps_discs_apart(from: Board, to: Board)
    requires
        from.well_formed(),
        path_count(from, to) >= 1,
    ensures
        to.well_formed(),
    decreases height(from), children(from).len() + 1,
{
    if from != to {
        lemma_play_keeps_discs_apart(from, to, children(from).len());
    }
}

/// The same for lines of play that begin with one of the first `n` moves.
proof fn lemma_play_keeps_discs_apart(from: Board, to: Board, n: nat)
    requires
        from.well_formed(),
        n <= children(from).len(),
        line_total_below(from, n, at(to)) >= 1,
    ensures
        to.well_formed(),
    decreases height(from), n,
{
    let next = children(from)[n - 1].1;
    law_moves_lead_towards_the_end(from);
    assert(height(next) < height(from));
    if line_total(next, at(to)) >= 1 {
        assert(children(from).contains(children(from)[n - 1]));
        lemma_children_are_moves(from, children(from)[n - 1].0, next);
        if from.legal(children(from)[n - 1].0) {
            rules::law_move_keeps_discs_apart(from, children(from)[n - 1].0);
        } else {
            rules::law_pass(from);
        }
        law_play_keeps_discs_apart(next, to);
    } else {
        lemma_play_keeps_discs_apart(from, to, (n - 1) as nat);
    }
}

/// A path to a position is the empty one or goes on from a path to a position that has a
/// move to it.
pub proof fn law_paths_come_by_a_last_move(from: Board, to: Board)
    ensures
        path_count(from, to) == at(to)(from) + line_total(from, moves_to(to)),
    decreases height(from), children(from).len() + 1,
{
    lemma_last_moves(from, to, children(from).len());
}

/// The same for lines of play that begin with one of the first `n` moves.
proof fn lemma_last_moves(from: Board, to: Board, n: nat)
    requires
        n <= children(from).len(),
    ensures
        line_total_below(from, n, at(to)) == first_moves_to(from, n, to) + line_total_below(
            from,
            n,
            moves_to(to),
        ),
    decreases height(from), n,
{
    if n > 0 {
        let next = children(from)[n - 1].1;
        let m = (n - 1) as nat;
        law_moves_lead_towards_the_end(from);
        assert(height(next) < height(from));
        lemma_last_moves(from, to, m);
        law_paths_come_by_a_last_move(next, to);
        assert(first_moves_to(from, n, to) == first_moves_to(from, m, to) + at(to)(next)) by {
            if next == to {
                if exists|i: int| 0 <= i < m && (#[trigger] children(from)[i]).1 == to {
                    let i = choose|i: int|
                        0 <= i < m && (#[trigger] children(from)[i]).1 == to;
                    law_moves_lead_to_different_positions(from, i, n - 1);
                }
            } else if first_moves_to(from, n, to) == 1 {
                let i = choose|i: int| 0 <= i < n && (#[trigger] children(from)[i]).1 == to;
                assert(0 <= i < m && children(from)[i].1 == to);
            } else if first_moves_to(from, m, to) == 1 {
                let i = choose|i: int| 0 <= i < m && (#[trigger] children(from)[i]).1 == to;
                assert(0 <= i < n && children(from)[i].1 == to);
            }
        }
    }
}

/// The exact value is the best that the player to move can get: with Black to move it is at
/// least the exact value of every position one move on, with White to move at most, and it
/// is the value of one of them. Where the game is over it is black discs less white discs.
pub proof fn law_black_maximizes_and_white_minimizes(board: Board)
    ensures
        !board.finished() && board.side == Side::Black ==> forall|i: int|
            0 <= i < children(board).len() ==> exact_value(board) >= exact_value(
                #[trigger] children(board)[i].1,
            ),
        !board.finished() && board.side == Side::White ==> forall|i: int|
            0 <= i < children(board).len() ==> exact_value(board) <= exact_value(
                #[trigger] children(board)[i].1,
            ),
        !board.finished() ==> exists|i: int|
            0 <= i < children(board).len() && exact_value(board) == exact_value(
                #[trigger] children(board)[i].1,
            ),
        board.finished() ==> exact_value(board) == squares::squares(board.black).len()
            - squares::squares(board.white).len(),
{
    law_moves_lead_towards_the_end(board);
    if !board.finished() {
        law_value_is_that_of_the_best_move(board);
        assert forall|i: int| 0 <= i < children(board).len() implies (board.side == Side::Black
            ==> exact_value(board) >= exact_value(#[trigger] children(board)[i].1)) && (board.side
            == Side::White ==> exact_value(board) <= exact_value(children(board)[i].1)) by {
            assert(better(
                board.side,
                exact_value(board),
                exact_value(children(board)[i].1),
            ) == exact_value(board));
        }
    }
}

/// Of two values the player prefers one of them: Black none smaller than either, White none
/// larger.
pub proof fn law_preference(a: int, b: int)
    ensures
        better(Side::Black, a, b) >= a,
        better(Side::Black, a, b) >= b,
        better(Side::Black, a, b) == a || better(Side::Black, a, b) == b,
        better(Side::White, a, b) <= a,
        better(Side::White, a, b) <= b,
        better(Side::White, a, b) == a || better(Side::White, a, b) == b,
{
}

/// The moves are listed by ascending number; a pass is listed alone, under the number 64.
pub proof fn law_moves_are_listed_in_order(board: Board, i: int, j: int)
    requires
        0 <= i < j < children(board).len(),
    ensures
        children(board)[i].0 < children(board)[j].0 < 64,
        board.legal(children(board)[i].0),
        children(board)[i].1 == board.after_move(children(board)[i].0),
{
    squares::lemma_square_list(board.legal_mask());
    lemma_legal_list(board);
    assert(board.legal(squares::square_list(board.legal_mask())[i] as int));
}

/// The moves of a position are exactly its legal squares, each leading to the position that
/// a disc there makes, and a pass under the number 64 where the game is not over and there
/// is no legal square.
pub proof fn law_every_move_is_listed(board: Board, mv: int, next: Board)
    ensures
        children(board).contains((mv, next)) == ((board.legal(mv) && next == board.after_move(mv))
            || (mv == 64 && next == board.after_pass() && !board.finished() && forall|s: int|
            !board.legal(s))),
        children(board).no_duplicates(),
{
    lemma_children_are_moves(board, mv, next);
    lemma_legal_list(board);
    squares::lemma_square_list(board.legal_mask());
    if board.legal_mask() == 0 {
        assert forall|s: int| !board.legal(s) by {
            squares::lemma_holds_zero(s);
            assert(squares::holds(board.legal_mask(), s) == board.legal(s));
        }
    } else {
        let s = squares::lemma_some_square(board.legal_mask());
        assert(board.legal(s));
    }
    assert forall|i: int, j: int|
        0 <= i < children(board).len() && 0 <= j < children(board).len() && i != j implies children(
        board,
    )[i] != children(board)[j] by {
        if i < j {
            law_moves_lead_to_different_positions(board, i, j);
        } else {
            law_moves_lead_to_different_positions(board, j, i);
        }
    }
}

} // verus!
