//! What sound tables say: how the stored counts, moves and values stand to the game tree.
use vstd::prelude::*;

use crate::board::Board;
use crate::count;
use crate::error::ErrorView;
use crate::key;
use crate::perft;
use crate::progress;
use crate::rules;
use crate::search;
use crate::side::Side;
use crate::squares;
use crate::sums;
use crate::tables;
use crate::tables::{Record, Tables};
use crate::text;
use crate::tree;

verus! {

/// At any time, the reach count of a position is at most the number of game paths that
/// lead to it.
pub proof fn law_reach_count_never_exceeds_paths(t: Tables, board: Board)
    requires
        tables::sound(t),
    ensures
        t.reach_count(board) <= tree::path_count(Board::start(), board),
{
    let key = key::key_text(board);
    progress::lemma_board_at(board);
    if t.positions.contains_key(key) {
        let record = t.positions[key];
        assert(tables::entry_sound(key, record));
        let f = tree::at(board);
        let g = tables::weight(f);
        let p = tables::number(record.propagated);
        let pending = (tables::number(record.reach) - p) as nat;
        let ahead = tree::line_total(board, f);
        assert(sums::map_total(t.positions, g) == tree::line_total(Board::start(), f));
        sums::lemma_map_total_bounds(t.positions, g, key);
        assert(f(board) == 1);
        assert(ahead >= 1);
        assert(p * 1 + pending * ahead >= p + pending) by (nonlinear_arith)
            requires
                ahead >= 1,
        ;
        assert(g(key, record) == p * 1 + pending * ahead);
    }
}

/// Every stored position can be reached from the starting position, and no square of it
/// holds discs of both players.
pub proof fn law_stored_positions_are_reachable(t: Tables, board: Board)
    requires
        tables::sound(t),
        t.positions.contains_key(key::key_text(board)),
    ensures
        tree::path_count(Board::start(), board) >= 1,
        board.well_formed(),
{
    rules::law_start_is_balanced();
    law_reach_count_never_exceeds_paths(t, board);
    assert(tables::entry_sound(key::key_text(board), t.positions[key::key_text(board)]));
    tree::law_play_keeps_discs_apart(Board::start(), board);
}

/// The edges of an expanded position are its legal moves, all of them and no others.
pub proof fn law_edges_are_the_legal_moves(t: Tables, key: Seq<char>, mv: int, next: Board)
    requires
        tables::sound(t),
        t.positions.contains_key(key),
        t.positions[key].expanded,
    ensures
        t.edges.contains((key, mv, key::key_text(next))) == tree::is_move(
            tables::board_at(key),
            mv,
            next,
        ),
        forall|child: Seq<char>| #[trigger]
            t.edges.contains((key, mv, child)) ==> child == key::key_text(tables::board_at(child)),
{
    let board = tables::board_at(key);
    let moves = tree::children(board);
    let edge = (key, mv, key::key_text(next));
    assert(tables::entry_charted(t, key, t.positions[key]));
    tree::lemma_children_are_moves(board, mv, next);
    if t.edges.contains(edge) {
        assert(tables::edge_sound(t, edge));
        let i = choose|i: int|
            0 <= i < moves.len() && (#[trigger] moves[i]).0 == mv && edge.2 == key::key_text(
                moves[i].1,
            );
        key::law_keys_are_unique(next, moves[i].1);
        assert(moves[i] == (mv, next));
    }
    if tree::is_move(board, mv, next) {
        let i = moves.index_of((mv, next));
        assert(moves[i] == (mv, next));
    }
    assert forall|child: Seq<char>| #[trigger] t.edges.contains((key, mv, child)) implies child
        == key::key_text(tables::board_at(child)) by {
        assert(tables::edge_sound(t, (key, mv, child)));
        assert(tables::entry_sound(child, t.positions[child]));
    }
}

/// A finished game that has been processed has its score, black discs less white discs,
/// as its value, and every stored value is the exact one.
pub proof fn law_stored_values_are_exact(t: Tables, key: Seq<char>)
    requires
        tables::sound(t),
        t.positions.contains_key(key),
    ensures
        t.positions[key].value_black is Some ==> t.positions[key].value_black == Some(
            tree::exact_value(tables::board_at(key)),
        ),
        t.positions[key].terminal ==> tables::board_at(key).finished()
            && t.positions[key].value_black == Some(tree::score(tables::board_at(key))),
        t.positions[key].expanded && tables::board_at(key).finished() ==> t.positions[key].terminal,
{
    assert(tables::entry_charted(t, key, t.positions[key]));
    tree::law_moves_lead_towards_the_end(tables::board_at(key));
}

/// At any time, the paths stored for a final score are at most the games that end with it.
pub proof fn law_buckets_never_exceed_games(t: Tables, black: int, white: int)
    requires
        tables::sound(t),
    ensures
        t.bucket_count(black, white) <= tree::game_count(Board::start(), black, white),
{
    let f = tree::ended_with(black, white);
    progress::lemma_handed_below_lines(t, f);
    assert(t.bucket_count(black, white) == sums::map_total(t.positions, tables::handed(f)));
}

/// With an empty frontier the search is complete: the reach count of every position is
/// the number of game paths to it, zero where the position is not stored, every position
/// that play can reach is stored and expanded, and every score bucket holds the number of
/// games that end with that score.
pub proof fn law_empty_frontier_means_complete(t: Tables, board: Board, black: int, white: int)
    requires
        tables::sound(t),
        forall|k: Seq<char>| !t.frontier.contains(k),
    ensures
        t.reach_count(board) == tree::path_count(Board::start(), board),
        tree::path_count(Board::start(), board) >= 1 ==> t.positions.contains_key(
            key::key_text(board),
        ) && t.positions[key::key_text(board)].expanded,
        t.bucket_count(black, white) == tree::game_count(Board::start(), black, white),
{
    let key = key::key_text(board);
    progress::lemma_board_at(board);
    let f = tree::at(board);
    lemma_nothing_pending(t, f);
    let g = tables::handed(f);
    assert forall|j: Seq<char>| #[trigger] t.positions.contains_key(j) && j != key implies g(
        j,
        t.positions[j],
    ) == 0 by {
        let record = t.positions[j];
        assert(tables::entry_sound(j, record));
        assert(tables::board_at(j) != board);
        assert(f(tables::board_at(j)) == 0);
        assert(tables::number(record.propagated) * 0 == 0);
    }
    sums::lemma_map_total_single(t.positions, g, key);
    if t.positions.contains_key(key) {
        let record = t.positions[key];
        assert(tables::entry_queued(t, key, record));
        assert(tables::entry_charted(t, key, record));
        assert(f(board) == 1);
        assert(tables::number(record.propagated) * 1 == tables::number(record.propagated));
    }
    lemma_nothing_pending(t, tree::ended_with(black, white));
    assert(t.bucket_count(black, white) == sums::map_total(
        t.positions,
        tables::handed(tree::ended_with(black, white)),
    ));
}

/// Without pending paths, the paths handed on account for all lines of play.
proof fn lemma_nothing_pending(t: Tables, f: spec_fn(Board) -> nat)
    requires
        tables::sound(t),
        forall|k: Seq<char>| !t.frontier.contains(k),
    ensures
        sums::map_total(t.positions, tables::handed(f)) == tree::line_total(Board::start(), f),
{
    let (g, h) = (tables::handed(f), tables::weight(f));
    assert forall|k: Seq<char>| #[trigger] t.positions.contains_key(k) implies g(
        k,
        t.positions[k],
    ) == h(k, t.positions[k]) by {
        let record = t.positions[k];
        assert(tables::entry_queued(t, k, record));
        assert(!t.frontier.contains(k));
        let r = tables::number(record.reach);
        assert((r - r) * tree::line_total(tables::board_at(k), f) == 0) by (nonlinear_arith);
    }
    sums::lemma_map_total_same(t.positions, g, h);
    assert(sums::map_total(t.positions, h) == tree::line_total(Board::start(), f));
}

/// Whether no position is on the frontier.
pub open spec fn is_complete(t: Tables) -> bool {
    forall|k: Seq<char>| !t.frontier.contains(k)
}

/// The frontier is empty exactly when every position has handed on all the paths that
/// reach it.
pub proof fn law_empty_frontier_means_nothing_pending(t: Tables)
    requires
        tables::sound(t),
    ensures
        is_complete(t) == forall|k: Seq<char>| !#[trigger] tables::has_pending(t, k),
{
    assert forall|k: Seq<char>| #[trigger] tables::has_pending(t, k) implies t.frontier.contains(
        k,
    ) by {
        assert(tables::entry_queued(t, k, t.positions[k]));
    }
    if forall|k: Seq<char>| !#[trigger] tables::has_pending(t, k) {
        assert forall|k: Seq<char>| !t.frontier.contains(k) by {
            assert(!tables::has_pending(t, k));
        }
    }
}

/// What is stored in the end about a position that is reached.
spec fn final_record(t: Tables, key: Seq<char>) -> Record {
    let board = tables::board_at(key);
    let paths = text::decimal(tree::path_count(Board::start(), board));
    Record {
        row: search::row_of(board),
        reach: paths,
        propagated: paths,
        terminal: board.finished(),
        expanded: true,
        legal_moves: Some(squares::squares(board.legal_mask()).len() as int),
        value_black: if board.finished() {
            Some(tree::score(board))
        } else if t.positions.contains_key(key) {
            t.positions[key].value_black
        } else {
            None
        },
    }
}

/// What a complete search has stored about a position.
proof fn lemma_final_record(t: Tables, after: Tables, key: Seq<char>)
    requires
        tables::sound(after),
        is_complete(after),
        progress::keeps_values(t, after),
        after.positions.contains_key(key),
    ensures
        after.positions[key] == final_record(t, key),
        key == key::key_text(tables::board_at(key)),
        tree::path_count(Board::start(), tables::board_at(key)) >= 1,
{
    let board = tables::board_at(key);
    let record = after.positions[key];
    assert(tables::entry_sound(key, record));
    assert(tables::entry_queued(after, key, record));
    assert(tables::entry_charted(after, key, record));
    law_empty_frontier_means_complete(after, board, 0, 0);
    law_stored_values_are_exact(after, key);
}

/// The order of the steps does not matter: two series of steps from one database that both
/// empty the frontier leave the same tables.
pub proof fn law_order_of_steps_does_not_matter(
    t: Tables,
    first: Seq<Seq<char>>,
    second: Seq<Seq<char>>,
)
    requires
        tables::sound(t),
        progress::run_steps(t, first) matches Some(after) ==> is_complete(after),
        progress::run_steps(t, second) matches Some(after) ==> is_complete(after),
    ensures
        progress::run_steps(t, first) is Some,
        progress::run_steps(t, first) == progress::run_steps(t, second),
{
    progress::law_search_can_always_go_on(t, first);
    progress::law_search_can_always_go_on(t, second);
    progress::lemma_run_keeps_values(t, first);
    progress::lemma_run_keeps_values(t, second);
    let a = progress::run_steps(t, first)->0;
    let b = progress::run_steps(t, second)->0;
    lemma_complete_within(t, a, b);
    lemma_complete_within(t, b, a);
    assert(a.positions =~= b.positions) by {
        assert forall|k: Seq<char>| #[trigger] a.positions.contains_key(k) implies a.positions[k]
            == b.positions[k] by {
            lemma_final_record(t, a, k);
            lemma_final_record(t, b, k);
        }
        assert(a.positions.dom() =~= b.positions.dom()) by {
            assert forall|k: Seq<char>|
                a.positions.dom().contains(k) == b.positions.dom().contains(k) by {
                assert(a.positions.contains_key(k) == b.positions.contains_key(k));
            }
        }
    }
    assert(a.frontier =~= b.frontier);
    assert(a.edges =~= b.edges);
    assert(a.buckets =~= b.buckets) by {
        assert(a.buckets.dom() =~= b.buckets.dom()) by {
            assert forall|score: (int, int)|
                a.buckets.dom().contains(score) == b.buckets.dom().contains(score) by {
                assert(a.buckets.contains_key(score) == b.buckets.contains_key(score));
            }
        }
    }
}

/// What one complete search has stored, another one has stored as well.
proof fn lemma_complete_within(t: Tables, a: Tables, b: Tables)
    requires
        tables::sound(a),
        tables::sound(b),
        is_complete(a),
        is_complete(b),
        progress::keeps_values(t, a),
        progress::keeps_values(t, b),
    ensures
        forall|k: Seq<char>| #[trigger]
            a.positions.contains_key(k) ==> b.positions.contains_key(k),
        forall|e: (Seq<char>, int, Seq<char>)| #[trigger]
            a.edges.contains(e) ==> b.edges.contains(e),
        forall|score: (int, int)| #[trigger]
            a.buckets.contains_key(score) ==> b.buckets.contains_key(score) && a.buckets[score]
                == b.buckets[score],
{
    assert forall|k: Seq<char>| #[trigger]
        a.positions.contains_key(k) implies b.positions.contains_key(k) by {
        lemma_final_record(t, a, k);
        law_empty_frontier_means_complete(b, tables::board_at(k), 0, 0);
    }
    assert forall|e: (Seq<char>, int, Seq<char>)| #[trigger]
        a.edges.contains(e) implies b.edges.contains(e) by {
        let moves = tree::children(tables::board_at(e.0));
        assert(tables::edge_sound(a, e));
        assert(b.positions.contains_key(e.0));
        lemma_final_record(t, b, e.0);
        assert(tables::entry_charted(b, e.0, b.positions[e.0]));
        let i = choose|i: int|
            0 <= i < moves.len() && (#[trigger] moves[i]).0 == e.1 && e.2 == key::key_text(
                moves[i].1,
            );
        assert(b.edges.contains((e.0, moves[i].0, key::key_text(moves[i].1))));
    }
    assert forall|score: (int, int)| #[trigger]
        a.buckets.contains_key(score) implies b.buckets.contains_key(score) && a.buckets[score]
        == b.buckets[score] by {
        assert(tables::bucket_sound(a, score));
        assert(tables::bucket_sound(b, score));
        law_empty_frontier_means_complete(a, Board::start(), score.0, score.1);
        law_empty_frontier_means_complete(b, Board::start(), score.0, score.1);
        assert(a.bucket_count(score.0, score.1) == b.bucket_count(score.0, score.1));
    }
}

/// The edges that lead to the position under `key`.
pub open spec fn edges_into(t: Tables, key: Seq<char>) -> Set<(Seq<char>, int, Seq<char>)> {
    Set::new(|e: (Seq<char>, int, Seq<char>)| t.edges.contains(e) && e.2 == key)
}

/// The number of paths that have been handed on along an edge.
pub open spec fn passed_along(t: Tables) -> spec_fn((Seq<char>, int, Seq<char>)) -> nat {
    |e: (Seq<char>, int, Seq<char>)| tables::number(t.positions[e.0].propagated)
}

/// The number of paths that have been handed on to the position under `key`, over all
/// edges that lead to it.
pub open spec fn inflow(t: Tables, key: Seq<char>) -> nat {
    sums::set_total(edges_into(t, key), passed_along(t))
}

/// Whether the paths of a stored position flow: what reaches it is one path for the start
/// and what was handed on to it along the edges, and its own edges are all its moves once
/// it has handed on paths, and none before.
pub open spec fn entry_flows(t: Tables, board: Board) -> bool {
    let key = key::key_text(board);
    let record = t.positions[key];
    &&& edges_into(t, key).finite()
    &&& tables::number(record.reach) == inflow(t, key) + tree::at(Board::start())(board)
    &&& tables::number(record.propagated) > 0 ==> forall|mv: int, next: Board| #[trigger]
        tree::is_move(board, mv, next) == t.edges.contains((key, mv, key::key_text(next)))
    &&& tables::number(record.propagated) == 0 ==> forall|mv: int, child: Seq<char>|
        !t.edges.contains((key, mv, child))
}

/// The reach count of a stored position is 1 for the start plus what its parents have
/// handed on along the edges, whichever positions are processed so far.
pub proof fn law_reach_counts_follow_the_edges(t: Tables, board: Board)
    requires
        tables::sound(t),
        t.positions.contains_key(key::key_text(board)),
    ensures
        entry_flows(t, board),
{
    let key = key::key_text(board);
    let record = t.positions[key];
    progress::lemma_board_at(board);
    assert(tables::entry_charted(t, key, record));
    lemma_inflow(t, board);
    lemma_reach_by_moves(t, board);
    if tables::number(record.propagated) > 0 {
        assert forall|mv: int, next: Board| #[trigger]
            tree::is_move(board, mv, next) == t.edges.contains((key, mv, key::key_text(next))) by {
            law_edges_are_the_legal_moves(t, key, mv, next);
        }
    }
}

/// Processing a position keeps the flow of paths, new positions included.
pub proof fn law_step_keeps_the_flow(t: Tables, key: Seq<char>)
    requires
        tables::sound(t),
    ensures
        search::step_script(key, t.counts(key)) matches Ok((actions, _)) && (tables::perform_all(
            t,
            actions,
        ) matches Some(after) && forall|board: Board|
            after.positions.contains_key(#[trigger] key::key_text(board)) ==> entry_flows(
                after,
                board,
            )),
{
    progress::law_step_keeps_tables_sound(t, key);
    let actions = search::step_script(key, t.counts(key))->Ok_0.0;
    let after = tables::perform_all(t, actions)->0;
    assert forall|board: Board|
        after.positions.contains_key(#[trigger] key::key_text(board)) implies entry_flows(
        after,
        board,
    ) by {
        law_reach_counts_follow_the_edges(after, board);
    }
}

/// What a stored position counts at `target`: all the paths that reach it, there.
spec fn reach_at(target: Board) -> spec_fn(Seq<char>, Record) -> nat {
    |key: Seq<char>, record: Record|
        tables::number(record.reach) * tree::at(target)(tables::board_at(key))
}

/// The sum of two weights.
spec fn both(
    g: spec_fn(Seq<char>, Record) -> nat,
    h: spec_fn(Seq<char>, Record) -> nat,
) -> spec_fn(Seq<char>, Record) -> nat {
    |key: Seq<char>, record: Record| g(key, record) + h(key, record)
}

/// The reach count of a stored position by the paths handed on from positions that have a
/// move to it.
proof fn lemma_reach_by_moves(t: Tables, board: Board)
    requires
        tables::sound(t),
        t.positions.contains_key(key::key_text(board)),
    ensures
        tables::number(t.positions[key::key_text(board)].reach) == tree::at(Board::start())(board)
            + sums::map_total(t.positions, tables::handed(tree::moves_to(board))),
{
    let key = key::key_text(board);
    let start = Board::start();
    let (f, g) = (tree::at(board), tree::moves_to(board));
    let (wf, wg) = (tables::weight(f), tables::weight(g));
    let (hg, r) = (tables::handed(g), reach_at(board));
    progress::lemma_board_at(board);
    tree::law_paths_come_by_a_last_move(start, board);
    assert(sums::map_total(t.positions, wf) == tree::line_total(start, f));
    assert(sums::map_total(t.positions, wg) == tree::line_total(start, g));
    assert forall|k: Seq<char>| #[trigger] t.positions.contains_key(k) implies wf(
        k,
        t.positions[k],
    ) + hg(k, t.positions[k]) == r(k, t.positions[k]) + wg(k, t.positions[k]) by {
        let record = t.positions[k];
        let here = tables::board_at(k);
        assert(tables::entry_sound(k, record));
        let p = tables::number(record.propagated);
        let pending = (tables::number(record.reach) - p) as nat;
        tree::law_paths_come_by_a_last_move(here, board);
        progress::lemma_product_of_sum(f(here), tree::line_total(here, g), pending);
        progress::lemma_product_of_sum(p, pending, f(here));
        assert(p + pending == tables::number(record.reach));
    }
    sums::lemma_map_total_sum(t.positions, both(wf, hg), wf, hg);
    sums::lemma_map_total_sum(t.positions, both(wf, hg), r, wg);
    assert forall|k: Seq<char>| #[trigger] t.positions.contains_key(k) && k != key implies r(
        k,
        t.positions[k],
    ) == 0 by {
        assert(tables::entry_sound(k, t.positions[k]));
        assert(f(tables::board_at(k)) == 0);
        assert(tables::number(t.positions[k].reach) * 0 == 0);
    }
    sums::lemma_map_total_single(t.positions, r, key);
    assert(f(board) == 1);
    assert(tables::number(t.positions[key].reach) * 1 == tables::number(t.positions[key].reach));
}

/// The edge by which the position under `from` leads to the one under `to`.
spec fn edge_between(t: Tables, to: Seq<char>) -> spec_fn(Seq<char>) -> (
    Seq<char>,
    int,
    Seq<char>,
) {
    |from: Seq<char>| (from, choose|mv: int| t.edges.contains((from, mv, to)), to)
}

/// The paths handed on along the edges to a position are those handed on from positions
/// that have a move to it.
proof fn lemma_inflow(t: Tables, board: Board)
    requires
        tables::sound(t),
    ensures
        edges_into(t, key::key_text(board)).finite(),
        inflow(t, key::key_text(board)) == sums::map_total(
            t.positions,
            tables::handed(tree::moves_to(board)),
        ),
{
    let key = key::key_text(board);
    let g = tables::handed(tree::moves_to(board));
    let h = sums::entry_weight(t.positions, g);
    let parents = Set::new(
        |k: Seq<char>| exists|mv: int| #[trigger] t.edges.contains((k, mv, key)),
    );
    let m = edge_between(t, key);
    assert forall|k: Seq<char>| #[trigger] parents.contains(k) implies t.positions.contains_key(k)
        && t.edges.contains(m(k)) && h(k) == passed_along(t)(m(k)) by {
        let mv = choose|mv: int| t.edges.contains((k, mv, key));
        lemma_edge_is_move(t, k, mv, board);
        let p = tables::number(t.positions[k].propagated);
        assert(tree::moves_to(board)(tables::board_at(k)) == 1);
        assert(p * 1 == p);
    }
    assert(parents.subset_of(t.positions.dom()));
    assert forall|k: Seq<char>| #[trigger]
        t.positions.dom().contains(k) && !parents.contains(k) implies h(k) == 0 by {
        lemma_no_edge_no_weight(t, k, board);
    }
    sums::lemma_set_total_part(t.positions.dom(), parents, h);
    sums::lemma_set_total_image(parents, m, passed_along(t), h);
    assert(parents.map(m) =~= edges_into(t, key)) by {
        assert forall|e: (Seq<char>, int, Seq<char>)|
            parents.map(m).contains(e) == edges_into(t, key).contains(e) by {
            if parents.map(m).contains(e) {
                let k = choose|k: Seq<char>| parents.contains(k) && e == m(k);
                assert(t.edges.contains(m(k)));
            }
            if edges_into(t, key).contains(e) {
                assert(t.edges.contains((e.0, e.1, key)));
                assert(parents.contains(e.0));
                let mv = m(e.0).1;
                assert(t.edges.contains((e.0, mv, key)));
                lemma_edge_is_move(t, e.0, e.1, board);
                lemma_edge_is_move(t, e.0, mv, board);
                lemma_one_move(tables::board_at(e.0), e.1, mv, board);
                assert(m(e.0) == e);
            }
        }
    }
}

/// An edge to a position is a move to it.
proof fn lemma_edge_is_move(t: Tables, key: Seq<char>, mv: int, board: Board)
    requires
        tables::sound(t),
        t.edges.contains((key, mv, key::key_text(board))),
    ensures
        t.positions.contains_key(key),
        tree::children(tables::board_at(key)).contains((mv, board)),
        tree::moves_to(board)(tables::board_at(key)) == 1,
{
    let edge = (key, mv, key::key_text(board));
    let moves = tree::children(tables::board_at(key));
    assert(tables::edge_sound(t, edge));
    let i = choose|i: int|
        0 <= i < moves.len() && (#[trigger] moves[i]).0 == mv && edge.2 == key::key_text(
            moves[i].1,
        );
    key::law_keys_are_unique(board, moves[i].1);
    assert(moves[i] == (mv, board));
}

/// Only one move leads from one position to another.
proof fn lemma_one_move(board: Board, a: int, b: int, next: Board)
    requires
        tree::children(board).contains((a, next)),
        tree::children(board).contains((b, next)),
    ensures
        a == b,
{
    let moves = tree::children(board);
    let i = moves.index_of((a, next));
    let j = moves.index_of((b, next));
    assert(moves[i] == (a, next) && moves[j] == (b, next));
    if i < j {
        tree::law_moves_lead_to_different_positions(board, i, j);
    } else if j < i {
        tree::law_moves_lead_to_different_positions(board, j, i);
    }
}

/// A stored position without an edge to another has handed on nothing to it.
proof fn lemma_no_edge_no_weight(t: Tables, key: Seq<char>, board: Board)
    requires
        tables::sound(t),
        t.positions.contains_key(key),
        forall|mv: int| !#[trigger] t.edges.contains((key, mv, key::key_text(board))),
    ensures
        tables::handed(tree::moves_to(board))(key, t.positions[key]) == 0,
{
    let here = tables::board_at(key);
    let moves = tree::children(here);
    let record = t.positions[key];
    assert(tables::entry_charted(t, key, record));
    if tree::moves_to(board)(here) == 1 && record.expanded {
        let i = choose|i: int| 0 <= i < moves.len() && (#[trigger] moves[i]).1 == board;
        assert(t.edges.contains((key, moves[i].0, key::key_text(moves[i].1))));
    }
    let (p, w) = (tables::number(record.propagated), tree::moves_to(board)(here));
    assert(p == 0 || w == 0 ==> p * w == 0) by (nonlinear_arith);
}

/// Whether `scores` names every stored bucket once.
pub open spec fn lists_buckets(t: Tables, scores: Seq<(int, int)>) -> bool {
    &&& scores.no_duplicates()
    &&& forall|score: (int, int)| #[trigger]
        t.buckets.contains_key(score) <==> scores.contains(score)
}

/// The stored path counts of a list of buckets.
pub open spec fn bucket_texts(t: Tables, scores: Seq<(int, int)>) -> Seq<Seq<char>> {
    Seq::new(scores.len(), |i: int| t.buckets[scores[i]].paths)
}

/// The total over all buckets, in whatever order they are read, is the number of paths
/// handed on from finished games; with an empty frontier it is the number of all games,
/// which is also what counting leaves without a cut gives.
pub proof fn law_bucket_total_counts_games(t: Tables, scores: Seq<(int, int)>, depth: nat)
    requires
        tables::sound(t),
        lists_buckets(t, scores),
        depth >= tree::height(Board::start()),
    ensures
        count::counts_total(bucket_texts(t, scores)) == Ok::<nat, ErrorView>(
            sums::map_total(t.positions, tables::handed(tree::ended())),
        ),
        (forall|k: Seq<char>| !t.frontier.contains(k)) ==> count::counts_total(
            bucket_texts(t, scores),
        ) == Ok::<nat, ErrorView>(perft::leaf_count(Board::start(), depth)),
{
    lemma_bucket_total(t, scores, scores.len());
    assert(bucket_texts(t, scores).subrange(0, scores.len() as int) =~= bucket_texts(t, scores));
    assert(scores.subrange(0, scores.len() as int) =~= scores);
    let (g, h) = (tables::handed(ended_in(scores)), tables::handed(tree::ended()));
    assert forall|k: Seq<char>| #[trigger] t.positions.contains_key(k) implies g(
        k,
        t.positions[k],
    ) == h(k, t.positions[k]) by {
        let board = tables::board_at(k);
        let black = squares::squares(board.black).len() as int;
        let white = squares::squares(board.white).len() as int;
        let p = tables::number(t.positions[k].propagated);
        if board.finished() && !scores.contains((black, white)) {
            let one = tree::ended_with(black, white);
            assert(!t.buckets.contains_key((black, white)));
            assert(t.bucket_count(black, white) == 0);
            sums::lemma_map_total_bounds(t.positions, tables::handed(one), k);
            assert(one(board) == 1);
            assert(p * 1 == p);
            assert(p == 0);
            assert(0 * tree::ended()(board) == 0);
        }
    }
    sums::lemma_map_total_same(t.positions, g, h);
    if forall|k: Seq<char>| !t.frontier.contains(k) {
        lemma_nothing_pending(t, tree::ended());
        perft::law_deep_leaves_are_games(Board::start(), depth);
    }
}

/// 1 where the game has ended with one of the given scores, 0 elsewhere.
spec fn ended_in(scores: Seq<(int, int)>) -> spec_fn(Board) -> nat {
    |board: Board|
        if board.finished() && scores.contains(
            (
                squares::squares(board.black).len() as int,
                squares::squares(board.white).len() as int,
            ),
        ) {
            1nat
        } else {
            0nat
        }
}

/// The total over the first `n` buckets of a list.
proof fn lemma_bucket_total(t: Tables, scores: Seq<(int, int)>, n: nat)
    requires
        tables::sound(t),
        lists_buckets(t, scores),
        n <= scores.len(),
    ensures
        count::counts_total(bucket_texts(t, scores).subrange(0, n as int)) == Ok::<nat, ErrorView>(
            sums::map_total(t.positions, tables::handed(ended_in(scores.subrange(0, n as int)))),
        ),
    decreases n,
{
    let front = scores.subrange(0, n as int);
    let f = ended_in(front);
    if n == 0 {
        assert forall|k: Seq<char>| #[trigger] t.positions.contains_key(k) implies tables::handed(
            f,
        )(k, t.positions[k]) == 0 by {
            assert(f(tables::board_at(k)) == 0);
            assert(tables::number(t.positions[k].propagated) * 0 == 0);
        }
        sums::lemma_map_total_zero(t.positions, tables::handed(f));
    } else {
        let m = (n - 1) as nat;
        let score = scores[m as int];
        let (before, one) = (
            ended_in(scores.subrange(0, m as int)),
            tree::ended_with(score.0, score.1),
        );
        let texts = bucket_texts(t, scores).subrange(0, n as int);
        lemma_bucket_total(t, scores, m);
        assert(texts.drop_last() =~= bucket_texts(t, scores).subrange(0, m as int));
        assert(texts.last() == t.buckets[score].paths);
        assert(scores.contains(score));
        assert(tables::bucket_sound(t, score));
        assert(t.bucket_count(score.0, score.1) == sums::map_total(
            t.positions,
            tables::handed(one),
        ));
        assert forall|k: Seq<char>| #[trigger] t.positions.contains_key(k) implies tables::handed(
            f,
        )(k, t.positions[k]) == tables::handed(before)(k, t.positions[k]) + tables::handed(one)(
            k,
            t.positions[k],
        ) by {
            let board = tables::board_at(k);
            let here = (
                squares::squares(board.black).len() as int,
                squares::squares(board.white).len() as int,
            );
            let p = tables::number(t.positions[k].propagated);
            assert(f(board) == before(board) + one(board)) by {
                if here == score {
                    assert(front[m as int] == here);
                    if scores.subrange(0, m as int).contains(here) {
                        let i = scores.subrange(0, m as int).index_of(here);
                        assert(scores[i] == scores[m as int]);
                    }
                } else if front.contains(here) {
                    let i = front.index_of(here);
                    assert(scores.subrange(0, m as int)[i] == here);
                } else if scores.subrange(0, m as int).contains(here) {
                    let i = scores.subrange(0, m as int).index_of(here);
                    assert(front[i] == here);
                }
            }
            progress::lemma_product_of_sum(before(board), one(board), p);
        }
        sums::lemma_map_total_sum(
            t.positions,
            tables::handed(f),
            tables::handed(before),
            tables::handed(one),
        );
    }
}

/// The columns of a stored position describe it: the masks, the side and the empty squares
/// from the start, and the number of its legal squares and whether the game is over there
/// once it is expanded.
pub proof fn law_stored_columns_describe_the_position(t: Tables, board: Board)
    requires
        tables::sound(t),
        t.positions.contains_key(key::key_text(board)),
    ensures
        ({
            let record = t.positions[key::key_text(board)];
            &&& record.row.key == key::key_text(board)
            &&& record.row.black_hex == text::hex_text(board.black as nat, 16)
            &&& record.row.white_hex == text::hex_text(board.white as nat, 16)
            &&& record.row.side == match board.side {
                Side::Black => 0int,
                Side::White => 1int,
            }
            &&& record.row.empties == 64 - board.discs().len()
            &&& record.expanded ==> record.terminal == board.finished() && record.legal_moves
                == Some(Set::new(|s: int| board.legal(s)).len() as int)
            &&& !record.expanded ==> !record.terminal && record.legal_moves is None
        }),
{
    let key = key::key_text(board);
    progress::lemma_board_at(board);
    assert(tables::entry_sound(key, t.positions[key]));
    assert(tables::entry_charted(t, key, t.positions[key]));
    tree::lemma_legal_list(board);
    assert(squares::squares(board.legal_mask()) =~= Set::new(|s: int| board.legal(s)));
}

} // verus!
