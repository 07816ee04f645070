//! Counting the leaves of the game tree to a fixed depth.
use num_bigint::BigUint;
use vstd::prelude::*;

use crate::board;
use crate::board::Board;
use crate::count;
use crate::count::{big_add, big_from_u8, big_to_string, big_zero};
use crate::rules;
use crate::squares;
use crate::squares::{bits, square_name};
use crate::text;
use crate::text::append;
use crate::tree;

verus! {

/// The number of leaves of the game tree from a position, cut off at a depth: a line
/// ends after `depth` moves or with the game.
pub open spec fn leaf_count(board: Board, depth: nat) -> nat
    decreases depth, 0nat,
{
    if depth == 0 || board.finished() {
        1
    } else {
        leaf_sum(tree::children(board), (depth - 1) as nat)
    }
}

/// The number of leaves below a list of moves.
pub open spec fn leaf_sum(moves: Seq<(int, Board)>, depth: nat) -> nat
    decreases depth, moves.len() + 1,
{
    if moves.len() == 0 {
        0
    } else {
        leaf_sum(moves.drop_last(), depth) + leaf_count(moves.last().1, depth)
    }
}

/// The moves that put a disc on the board, in ascending order of their squares.
pub open spec fn disc_moves(board: Board) -> Seq<(int, Board)> {
    let list = squares::square_list(board.legal_mask());
    Seq::new(list.len(), |i: int| (list[i] as int, board.after_move(list[i] as int)))
}

/// The number of leaves of the game tree from `board` to the given depth.
pub fn perft(board: Board, depth: u8) -> (leaves: BigUint)
    ensures
        count::big_value(leaves) == leaf_count(board, depth as nat),
    decreases depth,
{
    if depth == 0 || board.is_terminal() {
        return big_from_u8(1);
    }
    let moves = board.legal_moves();
    let ghost all = tree::children(board);
    if moves == 0 {
        proof {
            assert(all.drop_last() =~= Seq::<(int, Board)>::empty());
            assert(leaf_sum(all.drop_last(), (depth - 1) as nat) == 0);
            assert(all.last().1 == board.after_pass());
        }
        return perft(board.pass(), depth - 1);
    }
    let list = bits(moves);
    let mut total = big_zero();
    let mut i: usize = 0;
    assert(all.subrange(0, 0) =~= Seq::<(int, Board)>::empty());
    while i < list.len()
        invariant
            depth > 0,
            moves == board.legal_mask(),
            moves != 0,
            !board.finished(),
            list@ == squares::square_list(moves),
            all == tree::children(board),
            all.len() == list.len(),
            i <= list.len(),
            count::big_value(total) == leaf_sum(all.subrange(0, i as int), (depth - 1) as nat),
        decreases list.len() - i,
    {
        proof {
            tree::lemma_legal_list(board);
            squares::lemma_square_list(moves);
            assert(board.legal(list@[i as int] as int));
            assert(all.subrange(0, i + 1).drop_last() =~= all.subrange(0, i as int));
        }
        let leaves = perft(board.apply_move(list[i]), depth - 1);
        total = big_add(total, &leaves);
        i = i + 1;
    }
    assert(all.subrange(0, i as int) =~= all);
    total
}

/// The lines that the `perft` command prints: the leaf count of the starting position,
/// or with `divide` the count below each first move and their total. The counts below
/// the first moves go one move less deep, but never below depth 0.
pub open spec fn perft_lines(depth: nat, divide: bool) -> Seq<Seq<char>> {
    let start = Board::start();
    if divide {
        let moves = disc_moves(start);
        let below = if depth == 0 {
            0nat
        } else {
            (depth - 1) as nat
        };
        Seq::new(
            moves.len(),
            |i: int|
                squares::square_text(moves[i].0 as u8) + ": "@ + text::decimal(
                    leaf_count(moves[i].1, below),
                ),
        ).push("total: "@ + text::decimal(leaf_sum(moves, below)))
    } else {
        seq![text::decimal(leaf_count(start, depth))]
    }
}

/// The lines that the `perft` command prints.
pub fn perft_command(depth: u8, divide: bool) -> (lines: Vec<String>)
    ensures
        text::texts_of(lines@) == perft_lines(depth as nat, divide),
{
    let board = Board::initial();
    let mut lines: Vec<String> = Vec::new();
    if divide {
        let moves = board.legal_moves();
        let list = bits(moves);
        let below = depth.saturating_sub(1);
        let mut total = big_zero();
        let mut i: usize = 0;
        let ghost all = disc_moves(board);
        let ghost want = perft_lines(depth as nat, divide);
        assert(all.subrange(0, 0) =~= Seq::<(int, Board)>::empty());
        while i < list.len()
            invariant
                board == Board::start(),
                divide,
                moves == board.legal_mask(),
                list@ == squares::square_list(moves),
                all == disc_moves(board),
                want == perft_lines(depth as nat, divide),
                below == if depth == 0 {
                    0
                } else {
                    depth - 1
                },
                i <= list.len(),
                lines.len() == i,
                forall|j: int| 0 <= j < i ==> (#[trigger] lines[j])@ == want[j],
                count::big_value(total) == leaf_sum(all.subrange(0, i as int), below as nat),
            decreases list.len() - i,
        {
            let square = list[i];
            proof {
                tree::lemma_legal_list(board);
                squares::lemma_square_list(moves);
                assert(board.legal(list@[i as int] as int));
                assert(all.subrange(0, i + 1).drop_last() =~= all.subrange(0, i as int));
            }
            let leaves = perft(board.apply_move(square), below);
            total = big_add(total, &leaves);
            let mut line = square_name(square);
            append(&mut line, ": ");
            append(&mut line, big_to_string(&leaves).as_str());
            assert(line@ == want[i as int]);
            lines.push(line);
            i = i + 1;
        }
        assert(all.subrange(0, i as int) =~= all);
        let mut line = String::new();
        append(&mut line, "total: ");
        append(&mut line, big_to_string(&total).as_str());
        assert(line@ == want[i as int]);
        lines.push(line);
        assert(text::texts_of(lines@) =~= want);
    } else {
        lines.push(big_to_string(&perft(board, depth)));
        assert(text::texts_of(lines@) =~= perft_lines(depth as nat, divide));
    }
    lines
}

/// The counts below the first moves add up to the count of the position, to any depth
/// of at least one.
pub proof fn law_divide_adds_up(board: Board, depth: nat)
    requires
        depth >= 1,
        board.legal_mask() != 0,
    ensures
        leaf_sum(disc_moves(board), (depth - 1) as nat) == leaf_count(board, depth),
{
    board.lemma_finished(board.legal_mask(), board.after_pass().legal_mask());
    assert(disc_moves(board) =~= tree::children(board));
}

/// The starting position has a legal move, so that its counts divide.
pub proof fn law_start_has_a_move()
    ensures
        Board::start().legal(19),
        Board::start().legal_mask() != 0,
{
    let start = Board::start();
    rules::law_start_is_balanced();
    assert(squares::squares(start.black).contains(35));
    assert(!squares::squares(start.white).contains(35));
    assert(squares::squares(start.white).contains(27));
    assert(!squares::squares(start.white).contains(19));
    assert(!squares::squares(start.black).contains(19));
    assert(board::ray_square(19, 1, 0, 1) == 27);
    assert(board::ray_square(19, 1, 0, 2) == 35);
    assert(board::brackets(start.black, start.white, 19, 1, 0, 1));
    assert(board::bracketed(
        start.player(),
        start.opponent(),
        19,
        board::DIRECTIONS@[6].0 as int,
        board::DIRECTIONS@[6].1 as int,
        27,
    ));
    assert(start.turns(19, 27));
    tree::lemma_legal_list(start);
    squares::lemma_holds_zero(19);
    assert(squares::holds(start.legal_mask(), 19));
}

/// Searched to the end, the leaves are the complete games.
pub proof fn law_deep_leaves_are_games(board: Board, depth: nat)
    requires
        depth >= tree::height(board),
    ensures
        leaf_count(board, depth) == tree::line_total(board, tree::ended()),
    decreases depth, 0nat,
{
    let all = tree::children(board);
    tree::law_moves_lead_towards_the_end(board);
    if board.finished() {
        assert(tree::line_total_below(board, 0, tree::ended()) == 0);
    } else {
        assert(tree::height(all[0].1) < tree::height(board));
        lemma_deep_sum(board, (depth - 1) as nat, all.len());
        assert(all.subrange(0, all.len() as int) =~= all);
    }
}

/// The leaves below the first `n` moves, searched to the end, are the games that begin
/// with them.
proof fn lemma_deep_sum(board: Board, depth: nat, n: nat)
    requires
        n <= tree::children(board).len(),
        forall|i: int|
            0 <= i < tree::children(board).len() ==> depth >= tree::height(
                #[trigger] tree::children(board)[i].1,
            ),
    ensures
        leaf_sum(tree::children(board).subrange(0, n as int), depth) == tree::line_total_below(
            board,
            n,
            tree::ended(),
        ),
    decreases depth, n + 1,
{
    let all = tree::children(board);
    if n > 0 {
        lemma_deep_sum(board, depth, (n - 1) as nat);
        assert(all.subrange(0, n as int).drop_last() =~= all.subrange(0, n - 1));
        law_deep_leaves_are_games(all[n - 1].1, depth);
    }
}

/// Leaf counts by depth: one at depth zero and where the game is over, and otherwise, one
/// move deeper, the sum of the counts over all moves, whatever the depth.
pub proof fn law_leaves_one_move_deeper(board: Board, depth: nat)
    ensures
        leaf_count(board, 0) == 1,
        board.finished() ==> leaf_count(board, depth) == 1,
        !board.finished() ==> leaf_count(board, depth + 1) == tree::children(board).map_values(
            |child: (int, Board)| leaf_count(child.1, depth),
        ).fold_left(0nat, |sum: nat, n: nat| sum + n),
        !board.finished() && board.legal_mask() == 0 ==> leaf_count(board, depth + 1) == leaf_count(
            board.after_pass(),
            depth,
        ),
{
    let all = tree::children(board);
    if !board.finished() {
        lemma_sum_is_fold(all, depth);
        if board.legal_mask() == 0 {
            assert(all.drop_last() =~= Seq::<(int, Board)>::empty());
            reveal_with_fuel(leaf_sum, 2);
        }
    }
}

/// The leaves below a list of moves, added up.
proof fn lemma_sum_is_fold(moves: Seq<(int, Board)>, depth: nat)
    ensures
        leaf_sum(moves, depth) == moves.map_values(
            |child: (int, Board)| leaf_count(child.1, depth),
        ).fold_left(0nat, |sum: nat, n: nat| sum + n),
    decreases moves.len(),
{
    let counts = moves.map_values(|child: (int, Board)| leaf_count(child.1, depth));
    if moves.len() > 0 {
        lemma_sum_is_fold(moves.drop_last(), depth);
        assert(counts.drop_last() =~= moves.drop_last().map_values(
            |child: (int, Board)| leaf_count(child.1, depth),
        ));
    }
}

/// Without a division, whatever the depth, the one line printed is the leaf count of the
/// starting position to exactly that depth; with it, to every depth of at least one, the total
/// printed is the same number.
pub proof fn law_perft_prints_the_count_to_its_depth(depth: nat)
    ensures
        perft_lines(depth, false).len() == 1,
        perft_lines(depth, false)[0] == text::decimal(leaf_count(Board::start(), depth)),
        depth >= 1 ==> perft_lines(depth, true).last() == "total: "@ + perft_lines(depth, false)[0],
        depth == 0 ==> perft_lines(depth, true) == perft_lines(1, true),
{
    law_start_has_a_move();
    if depth >= 1 {
        law_divide_adds_up(Board::start(), depth);
    }
    assert(perft_lines(0, true) =~= perft_lines(1, true));
}

/// A division prints one line for every legal square of the starting position, in ascending
/// order: the square and the leaf count below it, one move less deep.
pub proof fn law_division_prints_every_first_move(depth: nat, i: int)
    requires
        depth >= 1,
    ensures
        ({
            let start = Board::start();
            let list = squares::square_list(start.legal_mask());
            &&& perft_lines(depth, true).len() == list.len() + 1
            &&& 0 <= i < list.len() ==> perft_lines(depth, true)[i] == squares::square_text(list[i])
                + ": "@ + text::decimal(
                leaf_count(start.after_move(list[i] as int), (depth - 1) as nat),
            )
        }),
{
    squares::lemma_square_list(Board::start().legal_mask());
}

} // verus!
