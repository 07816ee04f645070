//! Every step of the search keeps the tables sound, and the search comes to an end.
use vstd::prelude::*;

use crate::board::Board;
use crate::count;
use crate::key;
use crate::search;
use crate::search::ActionView;
use crate::squares;
use crate::sums;
use crate::tables;
use crate::tables::{Bucket, Record, Tables};
use crate::text;
use crate::tree;

verus! {

/// The two literal counts that are stored.
proof fn lemma_literal_counts()
    ensures
        count::count_value("0"@) == Some(0nat),
        count::count_value("1"@) == Some(1nat),
        "0"@ == text::decimal(0),
        "1"@ == text::decimal(1),
{
    reveal_strlit("0");
    reveal_strlit("1");
    assert("0"@ =~= text::decimal(0));
    assert("1"@ =~= text::decimal(1));
    count::law_count_round_trip(0);
    count::law_count_round_trip(1);
}

/// A product with a sum, taken apart.
pub(crate) proof fn lemma_product_of_sum(a: nat, b: nat, c: nat)
    ensures
        (a + b) * c == a * c + b * c,
        c * (a + b) == c * a + c * b,
{
    assert((a + b) * c == a * c + b * c) by (nonlinear_arith);
    assert(c * (a + b) == c * a + c * b) by (nonlinear_arith);
}

/// A position that is stored reads back from its key.
pub(crate) proof fn lemma_board_at(board: Board)
    ensures
        tables::board_at(key::key_text(board)) == board,
{
    key::law_key_round_trip(board);
}

/// Whether every position on the frontier, but perhaps the one under `key`, has pending
/// paths.
spec fn queues_only_pending(t: Tables, key: Seq<char>) -> bool {
    forall|k: Seq<char>| #[trigger]
        t.frontier.contains(k) && k != key ==> tables::has_pending(t, k)
}

/// Whether a step from one state of the tables to another drops no position, and changes no
/// value but that of finished games.
pub open spec fn keeps_values(t: Tables, after: Tables) -> bool {
    &&& forall|k: Seq<char>| #[trigger]
        t.positions.contains_key(k) ==> after.positions.contains_key(k)
    &&& forall|k: Seq<char>| #[trigger]
        after.positions.contains_key(k) && !tables::board_at(k).finished()
            ==> after.positions[k].value_black == (if t.positions.contains_key(k) {
            t.positions[k].value_black
        } else {
            None
        })
}

/// The tables between the handing on of the first `n` moves and the next: everything is
/// as it must be, but that the moves from `n` on still lack their `delta` paths and that
/// the columns of the position itself are not filled yet.
spec fn midway(t: Tables, key: Seq<char>, delta: nat, n: nat) -> bool {
    let board = tables::board_at(key);
    &&& tables::consistent(t)
    &&& t.positions.contains_key(key)
    &&& tables::number(t.positions[key].reach) == tables::number(t.positions[key].propagated)
    &&& tables::value_exact(key, t.positions[key])
    &&& tables::moves_stored(t, key, n as int)
    &&& tables::buckets_balanced(t)
    &&& queues_only_pending(t, key)
    &&& forall|k: Seq<char>| #[trigger]
        t.positions.contains_key(k) && k != key ==> tables::entry_charted(t, k, t.positions[k])
    &&& forall|f: spec_fn(Board) -> nat| #[trigger]
        sums::map_total(t.positions, tables::weight(f)) + delta * tree::line_total_below(
            board,
            tree::children(board).len(),
            f,
        ) == tree::line_total(Board::start(), f) + delta * tree::line_total_below(board, n, f)
}

/// Whether the same paths are handed on in two states of the tables.
spec fn same_handed(a: Tables, b: Tables) -> bool {
    forall|f: spec_fn(Board) -> nat| #[trigger]
        sums::map_total(a.positions, tables::handed(f)) == sums::map_total(
            b.positions,
            tables::handed(f),
        )
}

/// Handing on takes the pending paths of a position out of the balance, all but what
/// they count at the position itself.
#[verifier::spinoff_prover]
#[verifier::rlimit(60)]
proof fn lemma_hand_on(t: Tables, key: Seq<char>) -> (after: Tables)
    requires
        tables::sound(t),
        t.positions.contains_key(key),
        tables::number(t.positions[key].propagated) < tables::number(t.positions[key].reach),
    ensures
        ({
            let reach = tables::number(t.positions[key].reach);
            let delta = (reach - tables::number(t.positions[key].propagated)) as nat;
            let board = tables::board_at(key);
            let action = ActionView::SetPropagated { key, count: text::decimal(reach) };
            &&& tables::perform(t, action) == Some(after)
            &&& after.buckets == t.buckets
            &&& after.edges == t.edges
            &&& after.frontier == t.frontier
            &&& after.positions.dom() == t.positions.dom()
            &&& after.positions[key] == (Record {
                propagated: text::decimal(reach),
                ..t.positions[key]
            })
            &&& tables::number(after.positions[key].propagated) == reach
            &&& tables::consistent(after)
            &&& queues_only_pending(after, key)
            &&& keeps_values(t, after)
            &&& forall|k: Seq<char>| #[trigger]
                after.positions.contains_key(k) && k != key ==> tables::entry_charted(
                    after,
                    k,
                    after.positions[k],
                )
            &&& forall|f: spec_fn(Board) -> nat| #[trigger]
                sums::map_total(after.positions, tables::weight(f)) + delta
                    * tree::line_total_below(board, tree::children(board).len(), f)
                    == tree::line_total(Board::start(), f)
            &&& forall|f: spec_fn(Board) -> nat| #[trigger]
                sums::map_total(after.positions, tables::handed(f)) == sums::map_total(
                    t.positions,
                    tables::handed(f),
                ) + delta * f(board)
        }),
{
    let record = t.positions[key];
    let reach = tables::number(record.reach);
    let old = tables::number(record.propagated);
    let delta = (reach - old) as nat;
    let board = tables::board_at(key);
    let stored = Record { propagated: text::decimal(reach), ..record };
    let after = Tables { positions: t.positions.insert(key, stored), ..t };
    count::law_count_round_trip(reach);
    assert(after.positions.dom() =~= t.positions.dom());
    assert(tables::entry_sound(key, record));
    assert(tables::consistent(after)) by {
        assert forall|k: Seq<char>| #[trigger]
            after.positions.contains_key(k) implies tables::entry_sound(k, after.positions[k])
            && tables::entry_queued(after, k, after.positions[k]) by {
            assert(t.positions.contains_key(k));
            assert(tables::entry_sound(k, t.positions[k]));
            assert(tables::entry_queued(t, k, t.positions[k]));
        }
        assert forall|e: (Seq<char>, int, Seq<char>)| #[trigger]
            after.edges.contains(e) implies tables::edge_sound(after, e) by {
            assert(tables::edge_sound(t, e));
        }
        assert forall|score: (int, int)| #[trigger] tables::bucket_sound(after, score) by {
            assert(tables::bucket_sound(t, score));
        }
    }
    assert forall|k: Seq<char>| #[trigger]
        after.frontier.contains(k) && k != key implies tables::has_pending(after, k) by {
        assert(tables::has_pending(t, k));
    }
    assert forall|k: Seq<char>| #[trigger]
        after.positions.contains_key(k) && k != key implies tables::entry_charted(
        after,
        k,
        after.positions[k],
    ) by {
        assert(tables::entry_charted(t, k, t.positions[k]));
        assert(tables::moves_stored(
            t,
            k,
            tree::children(tables::board_at(k)).len() as int,
        ) == tables::moves_stored(after, k, tree::children(tables::board_at(k)).len() as int));
    }
    assert forall|f: spec_fn(Board) -> nat| #[trigger]
        sums::map_total(after.positions, tables::weight(f)) + delta * tree::line_total_below(
            board,
            tree::children(board).len(),
            f,
        ) == tree::line_total(Board::start(), f) by {
        let g = tables::weight(f);
        let here = f(board);
        let below = tree::line_total_below(board, tree::children(board).len(), f);
        sums::lemma_map_total_insert(t.positions, g, key, stored);
        assert(sums::map_total(t.positions, g) == tree::line_total(Board::start(), f));
        assert(tree::line_total(board, f) == here + below);
        lemma_product_of_sum(here, below, delta);
        lemma_product_of_sum(old, delta, here);
        assert(old + delta == reach);
        assert(g(key, record) == old * here + delta * (here + below));
        assert(g(key, stored) == reach * here) by {
            assert((reach - reach) * tree::line_total(board, f) == 0) by (nonlinear_arith);
        }
    }
    assert forall|f: spec_fn(Board) -> nat| #[trigger]
        sums::map_total(after.positions, tables::handed(f)) == sums::map_total(
            t.positions,
            tables::handed(f),
        ) + delta * f(board) by {
        let g = tables::handed(f);
        sums::lemma_map_total_insert(t.positions, g, key, stored);
        lemma_product_of_sum(old, delta, f(board));
        assert(old + delta == reach);
        assert(g(key, record) == old * f(board));
        assert(g(key, stored) == reach * f(board));
    }
    after
}

/// Whether all pending paths of a position, and no others, are handed on between two
/// states of the tables.
spec fn hands_on(t: Tables, key: Seq<char>, after: Tables) -> bool {
    let record = t.positions[key];
    let delta = (tables::number(record.reach) - tables::number(record.propagated)) as nat;
    forall|f: spec_fn(Board) -> nat| #[trigger]
        sums::map_total(after.positions, tables::handed(f)) == sums::map_total(
            t.positions,
            tables::handed(f),
        ) + delta * f(tables::board_at(key))
}

/// The buckets stay balanced as long as they and the paths handed on stay the same.
proof fn lemma_same_buckets(t: Tables, after: Tables)
    requires
        tables::buckets_balanced(t),
        after.buckets == t.buckets,
        same_handed(after, t),
    ensures
        tables::buckets_balanced(after),
{
    assert forall|black: int, white: int| #[trigger]
        after.bucket_count(black, white) == sums::map_total(
            after.positions,
            tables::handed(tree::ended_with(black, white)),
        ) by {
        assert(after.bucket_count(black, white) == t.bucket_count(black, white));
    }
}

/// Handing paths on along one more edge leaves what is stored about other positions right.
proof fn lemma_others_charted(
    t: Tables,
    after: Tables,
    key: Seq<char>,
    mv: int,
    child_key: Seq<char>,
)
    requires
        tables::consistent(t),
        forall|k: Seq<char>| #[trigger]
            t.positions.contains_key(k) && k != key ==> tables::entry_charted(t, k, t.positions[k]),
        after.edges == t.edges.insert((key, mv, child_key)),
        forall|k: Seq<char>| #[trigger]
            after.positions.contains_key(k) ==> t.positions.contains_key(k) || k == child_key,
        forall|k: Seq<char>| #[trigger]
            t.positions.contains_key(k) ==> after.positions[k] == (Record {
                reach: after.positions[k].reach,
                ..t.positions[k]
            }),
        !t.positions.contains_key(child_key) ==> after.positions[child_key] == (Record {
            reach: after.positions[child_key].reach,
            ..tables::fresh_record(after.positions[child_key].row)
        }),
    ensures
        forall|k: Seq<char>| #[trigger]
            after.positions.contains_key(k) && k != key ==> tables::entry_charted(
                after,
                k,
                after.positions[k],
            ),
{
    lemma_literal_counts();
    assert forall|k: Seq<char>| #[trigger]
        after.positions.contains_key(k) && k != key implies tables::entry_charted(
        after,
        k,
        after.positions[k],
    ) by {
        let len = tree::children(tables::board_at(k)).len() as int;
        if t.positions.contains_key(k) {
            assert(tables::entry_charted(t, k, t.positions[k]));
            if t.positions[k].expanded {
                assert forall|i: int| 0 <= i < len implies after.edges.contains(
                    (
                        k,
                        (#[trigger] tree::children(tables::board_at(k))[i]).0,
                        key::key_text(tree::children(tables::board_at(k))[i].1),
                    ),
                ) by {
                    assert(t.edges.contains(
                        (
                            k,
                            tree::children(tables::board_at(k))[i].0,
                            key::key_text(tree::children(tables::board_at(k))[i].1),
                        ),
                    ));
                }
            } else {
                assert forall|m: int, c: Seq<char>| !after.edges.contains((k, m, c)) by {
                    assert(!t.edges.contains((k, m, c)));
                }
            }
        } else {
            assert(k == child_key);
            assert forall|m: int, c: Seq<char>| !after.edges.contains((k, m, c)) by {
                if after.edges.contains((k, m, c)) {
                    assert(t.edges.contains((k, m, c)));
                    assert(tables::edge_sound(t, (k, m, c)));
                }
            }
        }
    }
}

/// Handing `delta` paths on to the move `n` of a position that is midway.
#[verifier::spinoff_prover]
#[verifier::rlimit(60)]
proof fn lemma_child_step(t: Tables, key: Seq<char>, delta: nat, n: nat) -> (after: Tables)
    requires
        midway(t, key, delta, n),
        n < tree::children(tables::board_at(key)).len(),
        delta >= 1,
    ensures
        tables::perform_all(
            t,
            search::child_script(key, tree::children(tables::board_at(key))[n as int], delta),
        ) == Some(after),
        midway(after, key, delta, n + 1),
        same_handed(after, t),
        keeps_values(t, after),
{
    let board = tables::board_at(key);
    let moves = tree::children(board);
    let (mv, child) = moves[n as int];
    let child_key = key::key_text(child);
    lemma_board_at(child);
    lemma_literal_counts();
    tree::law_moves_lead_towards_the_end(board);
    assert(tree::height(moves[n as int].1) < tree::height(board));
    assert(child_key != key);
    let known = t.positions.contains_key(child_key);
    let before = if known {
        t.positions[child_key]
    } else {
        tables::fresh_record(search::row_of(child))
    };
    if known {
        assert(tables::entry_sound(child_key, t.positions[child_key]));
    }
    let r = tables::number(before.reach);
    let p = tables::number(before.propagated);
    let stored = Record { reach: text::decimal(r + delta), ..before };
    count::law_count_round_trip(r + delta);
    let after = Tables {
        positions: t.positions.insert(child_key, stored),
        frontier: t.frontier.insert(child_key),
        edges: t.edges.insert((key, mv, child_key)),
        ..t
    };
    // The three actions lead to these tables.
    let script = search::child_script(key, moves[n as int], delta);
    let inserted = if known {
        t
    } else {
        Tables { positions: t.positions.insert(child_key, before), ..t }
    };
    let linked = Tables { edges: t.edges.insert((key, mv, child_key)), ..inserted };
    assert(tables::perform_all(t, script) == Some(after)) by {
        reveal_with_fuel(tables::perform_all, 4);
        let s2 = script.drop_last();
        let s1 = s2.drop_last();
        assert(s1.drop_last() =~= Seq::<ActionView>::empty());
        assert(s1.last() == ActionView::InsertPosition(search::row_of(child)));
        assert(s2.last() == ActionView::InsertEdge { parent: key, mv, child: child_key });
        assert(script.last() == ActionView::AddReach { key: child_key, delta });
        assert(tables::perform(t, s1.last()) == Some(inserted));
        assert(tables::perform(inserted, s2.last()) == Some(linked));
        assert(linked.positions[child_key] == before);
        assert(linked.positions.insert(child_key, stored) =~= after.positions);
        assert(tables::perform(linked, script.last()) == Some(after));
    }
    // They are consistent.
    assert(tables::entry_sound(child_key, stored));
    assert(tables::consistent(after)) by {
        assert forall|k: Seq<char>| #[trigger]
            after.positions.contains_key(k) implies tables::entry_sound(k, after.positions[k])
            && tables::entry_queued(after, k, after.positions[k]) by {
            if k != child_key {
                assert(t.positions.contains_key(k));
                assert(tables::entry_sound(k, t.positions[k]));
                assert(tables::entry_queued(t, k, t.positions[k]));
            }
        }
        assert(after.positions.dom() =~= t.positions.dom().insert(child_key));
        assert forall|k: Seq<char>| #[trigger]
            after.frontier.contains(k) implies after.positions.contains_key(k) by {
            if k != child_key {
                assert(t.frontier.contains(k));
            }
        }
        assert forall|e: (Seq<char>, int, Seq<char>)| #[trigger]
            after.edges.contains(e) implies tables::edge_sound(after, e) by {
            if t.edges.contains(e) {
                assert(tables::edge_sound(t, e));
            } else {
                assert(e == (key, mv, child_key));
                assert(moves[n as int].0 == e.1);
            }
        }
        assert forall|score: (int, int)| #[trigger] tables::bucket_sound(after, score) by {
            assert(tables::bucket_sound(t, score));
        }
    }
    assert(queues_only_pending(after, key)) by {
        assert forall|k: Seq<char>| #[trigger]
            after.frontier.contains(k) && k != key implies tables::has_pending(after, k) by {
            if k != child_key {
                assert(t.frontier.contains(k));
                assert(tables::has_pending(t, k));
            }
        }
    }
    lemma_others_charted(t, after, key, mv, child_key);
    assert(tables::moves_stored(after, key, (n + 1) as int)) by {
        assert forall|i: int| 0 <= i < n + 1 implies after.edges.contains(
            (key, (#[trigger] tree::children(board)[i]).0, key::key_text(tree::children(board)[i].1)),
        ) by {
            if i < n {
                assert(t.edges.contains((key, moves[i].0, key::key_text(moves[i].1))));
            }
        }
    }
    // The sums.
    assert(same_handed(after, t)) by {
        assert forall|f: spec_fn(Board) -> nat| #[trigger]
            sums::map_total(after.positions, tables::handed(f)) == sums::map_total(
                t.positions,
                tables::handed(f),
            ) by {
            let g = tables::handed(f);
            let here = f(child);
            sums::lemma_map_total_insert(t.positions, g, child_key, stored);
            assert(g(child_key, stored) == g(child_key, before));
            assert(!known ==> g(child_key, before) == 0) by {
                assert(p == 0 ==> p * here == 0) by (nonlinear_arith);
            }
        }
    }
    lemma_same_buckets(t, after);
    assert forall|f: spec_fn(Board) -> nat| #[trigger]
        sums::map_total(after.positions, tables::weight(f)) + delta * tree::line_total_below(
            board,
            moves.len(),
            f,
        ) == tree::line_total(Board::start(), f) + delta * tree::line_total_below(
            board,
            n + 1,
            f,
        ) by {
        let g = tables::weight(f);
        let ahead = tree::line_total(child, f);
        let here = f(child);
        sums::lemma_map_total_insert(t.positions, g, child_key, stored);
        assert(tree::line_total_below(board, n + 1, f) == tree::line_total_below(board, n, f)
            + ahead);
        lemma_product_of_sum(tree::line_total_below(board, n, f), ahead, delta);
        let pending = (r - p) as nat;
        lemma_product_of_sum(pending, delta, ahead);
        assert(g(child_key, stored) == p * here + (pending + delta) * ahead);
        assert(g(child_key, before) == p * here + pending * ahead);
        assert(!known ==> g(child_key, before) == 0) by {
            assert(p == 0 && pending == 0 ==> p * here + pending * ahead == 0)
                by (nonlinear_arith);
        }
        assert(sums::map_total(t.positions, g) + delta * tree::line_total_below(
            board,
            moves.len(),
            f,
        ) == tree::line_total(Board::start(), f) + delta * tree::line_total_below(board, n, f));
    }
    after
}

/// Handing `delta` paths on to the first `n` moves.
proof fn lemma_children_steps(t: Tables, key: Seq<char>, delta: nat, n: nat) -> (after: Tables)
    requires
        midway(t, key, delta, 0),
        n <= tree::children(tables::board_at(key)).len(),
        delta >= 1,
    ensures
        tables::perform_all(
            t,
            search::children_script(
                key,
                tree::children(tables::board_at(key)).subrange(0, n as int),
                delta,
            ),
        ) == Some(after),
        midway(after, key, delta, n),
        same_handed(after, t),
        keeps_values(t, after),
    decreases n,
{
    let moves = tree::children(tables::board_at(key));
    let front = moves.subrange(0, n as int);
    if n == 0 {
        t
    } else {
        let between = lemma_children_steps(t, key, delta, (n - 1) as nat);
        let after = lemma_child_step(between, key, delta, (n - 1) as nat);
        assert(front.drop_last() =~= moves.subrange(0, n - 1));
        assert(front.last() == moves[n - 1]);
        tables::lemma_perform_concat(
            t,
            search::children_script(key, front.drop_last(), delta),
            search::child_script(key, front.last(), delta),
        );
        after
    }
}

/// Taking a position without pending paths off the frontier makes settled tables sound.
proof fn lemma_leave(t: Tables, key: Seq<char>) -> (after: Tables)
    requires
        tables::settled(t),
        queues_only_pending(t, key),
        t.positions.contains_key(key) ==> tables::number(t.positions[key].reach)
            == tables::number(t.positions[key].propagated),
    ensures
        tables::perform(t, ActionView::LeaveFrontier { key }) == Some(after),
        tables::sound(after),
        keeps_values(t, after),
        after == (Tables { frontier: t.frontier.remove(key), ..t }),
{
    let after = Tables { frontier: t.frontier.remove(key), ..t };
    assert forall|k: Seq<char>| #[trigger]
        after.positions.contains_key(k) implies tables::entry_sound(k, after.positions[k])
        && tables::entry_queued(after, k, after.positions[k]) && tables::entry_charted(
        after,
        k,
        after.positions[k],
    ) by {
        assert(t.positions.contains_key(k));
        assert(tables::entry_sound(k, t.positions[k]));
        assert(tables::entry_queued(t, k, t.positions[k]));
        assert(tables::entry_charted(t, k, t.positions[k]));
        let len = tree::children(tables::board_at(k)).len() as int;
        assert(tables::moves_stored(t, k, len) == tables::moves_stored(after, k, len));
    }
    assert forall|k: Seq<char>| #[trigger]
        after.frontier.contains(k) implies tables::has_pending(after, k) by {
        assert(t.frontier.contains(k));
        assert(tables::has_pending(t, k));
    }
    assert forall|e: (Seq<char>, int, Seq<char>)| #[trigger]
        after.edges.contains(e) implies tables::edge_sound(after, e) by {
        assert(tables::edge_sound(t, e));
    }
    assert forall|score: (int, int)| #[trigger] tables::bucket_sound(after, score) by {
        assert(tables::bucket_sound(t, score));
    }
    lemma_same_buckets(t, after);
    after
}

/// Marking a position as expanded, once all its moves have their paths, settles the tables
/// again.
#[verifier::spinoff_prover]
#[verifier::rlimit(60)]
proof fn lemma_mark_expanded(t: Tables, key: Seq<char>, delta: nat) -> (after: Tables)
    requires
        !tables::board_at(key).finished(),
        midway(t, key, delta, tree::children(tables::board_at(key)).len()),
    ensures
        tables::perform(
            t,
            ActionView::MarkExpanded {
                key,
                legal_moves: squares::squares(tables::board_at(key).legal_mask()).len() as int,
            },
        ) == Some(after),
        tables::settled(after),
        queues_only_pending(after, key),
        keeps_values(t, after),
        after.positions.contains_key(key),
        tables::number(after.positions[key].reach) == tables::number(
            after.positions[key].propagated,
        ),
        same_handed(after, t),
{
    let board = tables::board_at(key);
    let len = tree::children(board).len();
    let record = t.positions[key];
    let stored = Record {
        terminal: false,
        expanded: true,
        legal_moves: Some(squares::squares(board.legal_mask()).len() as int),
        ..record
    };
    let after = Tables { positions: t.positions.insert(key, stored), ..t };
    assert(after.positions.dom() =~= t.positions.dom());
    assert forall|k: Seq<char>| #[trigger]
        after.positions.contains_key(k) implies tables::entry_sound(k, after.positions[k])
        && tables::entry_queued(after, k, after.positions[k]) && tables::entry_charted(
        after,
        k,
        after.positions[k],
    ) by {
        assert(t.positions.contains_key(k));
        assert(tables::entry_sound(k, t.positions[k]));
        assert(tables::entry_queued(t, k, t.positions[k]));
        let n = tree::children(tables::board_at(k)).len() as int;
        assert(tables::moves_stored(t, k, n) == tables::moves_stored(after, k, n));
        if k != key {
            assert(tables::entry_charted(t, k, t.positions[k]));
        }
    }
    assert forall|e: (Seq<char>, int, Seq<char>)| #[trigger]
        after.edges.contains(e) implies tables::edge_sound(after, e) by {
        assert(tables::edge_sound(t, e));
    }
    assert forall|score: (int, int)| #[trigger] tables::bucket_sound(after, score) by {
        assert(tables::bucket_sound(t, score));
    }
    assert(queues_only_pending(after, key)) by {
        assert forall|k: Seq<char>| #[trigger]
            after.frontier.contains(k) && k != key implies tables::has_pending(after, k) by {
            assert(tables::has_pending(t, k));
        }
    }
    assert(same_handed(after, t)) by {
        assert forall|f: spec_fn(Board) -> nat| #[trigger]
            sums::map_total(after.positions, tables::handed(f)) == sums::map_total(
                t.positions,
                tables::handed(f),
            ) by {
            let g = tables::handed(f);
            sums::lemma_map_total_insert(t.positions, g, key, stored);
            assert(g(key, stored) == g(key, record));
        }
    }
    lemma_same_buckets(t, after);
    assert forall|f: spec_fn(Board) -> nat| #[trigger]
        sums::map_total(after.positions, tables::weight(f)) == tree::line_total(
            Board::start(),
            f,
        ) by {
        let g = tables::weight(f);
        sums::lemma_map_total_insert(t.positions, g, key, stored);
        assert(g(key, stored) == g(key, record));
        assert(sums::map_total(t.positions, g) + delta * tree::line_total_below(board, len, f)
            == tree::line_total(Board::start(), f) + delta * tree::line_total_below(
            board,
            len,
            f,
        ));
    }
    after
}

/// Processing a position with pending paths in which the game is not over.
#[verifier::spinoff_prover]
#[verifier::rlimit(60)]
proof fn lemma_expand(t: Tables, key: Seq<char>) -> (after: Tables)
    requires
        tables::sound(t),
        t.positions.contains_key(key),
        tables::number(t.positions[key].propagated) < tables::number(t.positions[key].reach),
        !tables::board_at(key).finished(),
    ensures
        ({
            let reach = tables::number(t.positions[key].reach);
            let delta = (reach - tables::number(t.positions[key].propagated)) as nat;
            tables::perform_all(
                t,
                search::expansion(key, tables::board_at(key), reach, delta),
            ) == Some(after)
        }),
        tables::sound(after),
        !after.frontier.contains(key),
        hands_on(t, key, after),
        keeps_values(t, after),
{
    let reach = tables::number(t.positions[key].reach);
    let delta = (reach - tables::number(t.positions[key].propagated)) as nat;
    let board = tables::board_at(key);
    let moves = tree::children(board);
    let first = ActionView::SetPropagated { key, count: text::decimal(reach) };
    let mark = ActionView::MarkExpanded {
        key,
        legal_moves: squares::squares(board.legal_mask()).len() as int,
    };
    let leave = ActionView::LeaveFrontier { key };
    let between = lemma_hand_on(t, key);
    assert(midway(between, key, delta, 0)) by {
        assert(tables::entry_charted(t, key, t.positions[key]));
        assert(tables::buckets_balanced(between)) by {
            assert forall|black: int, white: int| #[trigger]
                between.bucket_count(black, white) == sums::map_total(
                    between.positions,
                    tables::handed(tree::ended_with(black, white)),
                ) by {
                assert(t.bucket_count(black, white) == between.bucket_count(black, white));
                assert(t.bucket_count(black, white) == sums::map_total(
                    t.positions,
                    tables::handed(tree::ended_with(black, white)),
                ));
                assert(tree::ended_with(black, white)(board) == 0);
                assert(delta * 0 == 0);
            }
        }
        assert forall|f: spec_fn(Board) -> nat| #[trigger]
            sums::map_total(between.positions, tables::weight(f)) + delta
                * tree::line_total_below(board, moves.len(), f) == tree::line_total(
                Board::start(),
                f,
            ) + delta * tree::line_total_below(board, 0, f) by {
            assert(delta * tree::line_total_below(board, 0, f) == 0);
        }
    }
    let handed_on = lemma_children_steps(between, key, delta, moves.len());
    assert(moves.subrange(0, moves.len() as int) =~= moves);
    let marked = lemma_mark_expanded(handed_on, key, delta);
    let after = lemma_leave(marked, key);
    let children = search::children_script(key, moves, delta);
    // The script is these parts in order.
    tables::lemma_perform_one(t, first);
    tables::lemma_perform_push(between, children, mark);
    tables::lemma_perform_concat(t, seq![first], children.push(mark));
    tables::lemma_perform_push(t, seq![first] + children.push(mark), leave);
    after
}

/// The actions for a finished game, but for the last one, settle the tables: the position is
/// marked and its pending paths are in their bucket.
#[verifier::spinoff_prover]
#[verifier::rlimit(60)]
proof fn lemma_fill(t: Tables, key: Seq<char>) -> (states: (Tables, Tables, Tables))
    requires
        tables::sound(t),
        t.positions.contains_key(key),
        tables::number(t.positions[key].propagated) < tables::number(t.positions[key].reach),
        tables::board_at(key).finished(),
    ensures
        ({
            let reach = tables::number(t.positions[key].reach);
            let delta = (reach - tables::number(t.positions[key].propagated)) as nat;
            let board = tables::board_at(key);
            let black = squares::squares(board.black).len() as int;
            let white = squares::squares(board.white).len() as int;
            let first = ActionView::SetPropagated { key, count: text::decimal(reach) };
            let mark = ActionView::MarkTerminal { key, value_black: black - white };
            let fill = ActionView::AddTerminalPaths {
                black_discs: black,
                white_discs: white,
                result: search::result_text(black, white),
                delta,
            };
            &&& tables::perform(t, first) == Some(states.0)
            &&& tables::perform(states.0, mark) == Some(states.1)
            &&& tables::perform(states.1, fill) == Some(states.2)
        }),
        tables::settled(states.2),
        queues_only_pending(states.2, key),
        hands_on(t, key, states.2),
        keeps_values(t, states.2),
        states.2.positions.contains_key(key),
        tables::number(states.2.positions[key].reach) == tables::number(
            states.2.positions[key].propagated,
        ),
{
    let reach = tables::number(t.positions[key].reach);
    let delta = (reach - tables::number(t.positions[key].propagated)) as nat;
    let board = tables::board_at(key);
    let black = squares::squares(board.black).len() as int;
    let white = squares::squares(board.white).len() as int;
    let score = (black, white);
    let mark = ActionView::MarkTerminal { key, value_black: black - white };
    let fill = ActionView::AddTerminalPaths {
        black_discs: black,
        white_discs: white,
        result: search::result_text(black, white),
        delta,
    };
    let between = lemma_hand_on(t, key);
    let record = between.positions[key];
    let stored = Record {
        terminal: true,
        expanded: true,
        legal_moves: Some(0),
        value_black: Some(black - white),
        ..record
    };
    let marked = Tables { positions: between.positions.insert(key, stored), ..between };
    let old = t.bucket_count(black, white);
    let label = if t.buckets.contains_key(score) {
        t.buckets[score].result
    } else {
        search::result_text(black, white)
    };
    let paths = text::decimal(old + delta);
    count::law_count_round_trip(old + delta);
    let filled = Tables {
        buckets: t.buckets.insert(score, Bucket { result: label, paths }),
        ..marked
    };
    assert(tables::perform(between, mark) == Some(marked));
    assert(tables::perform(marked, fill) == Some(filled)) by {
        assert(tables::bucket_sound(t, score));
        assert(marked.buckets == t.buckets);
    }
    tree::law_moves_lead_towards_the_end(board);
    assert(tree::children(board).len() == 0);
    assert(queues_only_pending(filled, key)) by {
        assert forall|k: Seq<char>| #[trigger]
            filled.frontier.contains(k) && k != key implies tables::has_pending(filled, k) by {
            assert(tables::has_pending(between, k));
        }
    }
    assert(keeps_values(between, filled));
    assert(tables::settled(filled)) by {
        assert(filled.positions.dom() =~= t.positions.dom());
        assert forall|k: Seq<char>| #[trigger]
            filled.positions.contains_key(k) implies tables::entry_sound(k, filled.positions[k])
            && tables::entry_queued(filled, k, filled.positions[k]) && tables::entry_charted(
            filled,
            k,
            filled.positions[k],
        ) by {
            assert(between.positions.contains_key(k));
            assert(tables::entry_sound(k, between.positions[k]));
            assert(tables::entry_queued(between, k, between.positions[k]));
            let n = tree::children(tables::board_at(k)).len() as int;
            assert(tables::moves_stored(between, k, n) == tables::moves_stored(filled, k, n));
            if k != key {
                assert(tables::entry_charted(between, k, between.positions[k]));
            } else {
                assert(tables::moves_stored(filled, k, 0));
                board.lemma_finished(board.legal_mask(), board.after_pass().legal_mask());
                squares::lemma_square_list(board.legal_mask());
            }
        }
        assert forall|e: (Seq<char>, int, Seq<char>)| #[trigger]
            filled.edges.contains(e) implies tables::edge_sound(filled, e) by {
            assert(tables::edge_sound(between, e));
        }
        assert forall|s: (int, int)| #[trigger] tables::bucket_sound(filled, s) by {
            assert(tables::bucket_sound(t, s));
        }
        assert forall|b: int, w: int| #[trigger]
            filled.bucket_count(b, w) == sums::map_total(
                filled.positions,
                tables::handed(tree::ended_with(b, w)),
            ) by {
            let g = tables::handed(tree::ended_with(b, w));
            sums::lemma_map_total_insert(between.positions, g, key, stored);
            assert(g(key, stored) == g(key, record));
            assert(sums::map_total(between.positions, g) == t.bucket_count(b, w) + delta
                * tree::ended_with(b, w)(board)) by {
                assert(t.bucket_count(b, w) == sums::map_total(t.positions, g));
            }
            if (b, w) == score {
                assert(tree::ended_with(b, w)(board) == 1);
                assert(delta * 1 == delta);
            } else {
                assert(tree::ended_with(b, w)(board) == 0);
                assert(delta * 0 == 0);
            }
        }
        assert forall|f: spec_fn(Board) -> nat| #[trigger]
            sums::map_total(filled.positions, tables::weight(f)) == tree::line_total(
                Board::start(),
                f,
            ) by {
            let g = tables::weight(f);
            sums::lemma_map_total_insert(between.positions, g, key, stored);
            assert(g(key, stored) == g(key, record));
            assert(tree::line_total_below(board, 0, f) == 0);
            assert(delta * 0 == 0);
            assert(sums::map_total(between.positions, g) + delta * tree::line_total_below(
                board,
                tree::children(board).len(),
                f,
            ) == tree::line_total(Board::start(), f));
        }
    }
    assert(hands_on(t, key, filled)) by {
        assert forall|f: spec_fn(Board) -> nat| #[trigger]
            sums::map_total(filled.positions, tables::handed(f)) == sums::map_total(
                t.positions,
                tables::handed(f),
            ) + delta * f(board) by {
            let g = tables::handed(f);
            sums::lemma_map_total_insert(between.positions, g, key, stored);
            assert(g(key, stored) == g(key, record));
            assert(sums::map_total(between.positions, g) == sums::map_total(t.positions, g) + delta
                * f(board));
        }
    }
    (between, marked, filled)
}

/// Processing a position with pending paths in which the game is over.
proof fn lemma_finish(t: Tables, key: Seq<char>) -> (after: Tables)
    requires
        tables::sound(t),
        t.positions.contains_key(key),
        tables::number(t.positions[key].propagated) < tables::number(t.positions[key].reach),
        tables::board_at(key).finished(),
    ensures
        ({
            let reach = tables::number(t.positions[key].reach);
            let delta = (reach - tables::number(t.positions[key].propagated)) as nat;
            tables::perform_all(
                t,
                search::expansion(key, tables::board_at(key), reach, delta),
            ) == Some(after)
        }),
        tables::sound(after),
        !after.frontier.contains(key),
        hands_on(t, key, after),
        keeps_values(t, after),
{
    let reach = tables::number(t.positions[key].reach);
    let delta = (reach - tables::number(t.positions[key].propagated)) as nat;
    let board = tables::board_at(key);
    let black = squares::squares(board.black).len() as int;
    let white = squares::squares(board.white).len() as int;
    let first = ActionView::SetPropagated { key, count: text::decimal(reach) };
    let mark = ActionView::MarkTerminal { key, value_black: black - white };
    let fill = ActionView::AddTerminalPaths {
        black_discs: black,
        white_discs: white,
        result: search::result_text(black, white),
        delta,
    };
    let leave = ActionView::LeaveFrontier { key };
    let (between, marked, filled) = lemma_fill(t, key);
    let after = lemma_leave(filled, key);
    assert(after.positions == filled.positions);
    tables::lemma_perform_one(t, first);
    tables::lemma_perform_push(t, seq![first], mark);
    tables::lemma_perform_push(t, seq![first].push(mark), fill);
    tables::lemma_perform_push(t, seq![first].push(mark).push(fill), leave);
    assert(search::expansion(key, board, reach, delta) =~= seq![first].push(mark).push(fill).push(
        leave,
    ));
    after
}

/// All that a step does to sound tables.
proof fn lemma_step(t: Tables, key: Seq<char>) -> (after: Tables)
    requires
        tables::sound(t),
    ensures
        search::step_script(key, t.counts(key)) matches Ok((actions, did_work)) && {
            &&& tables::perform_all(t, actions) == Some(after)
            &&& did_work == tables::has_pending(t, key)
        },
        tables::sound(after),
        !after.frontier.contains(key),
        keeps_values(t, after),
        tables::has_pending(t, key) ==> hands_on(t, key, after),
        !tables::has_pending(t, key) ==> after.positions == t.positions,
{
    if t.positions.contains_key(key) {
        assert(tables::entry_sound(key, t.positions[key]));
        key::law_key_round_trip(tables::board_at(key));
    }
    if !tables::has_pending(t, key) {
        let after = lemma_leave(t, key);
        tables::lemma_perform_one(t, ActionView::LeaveFrontier { key });
        after
    } else if tables::board_at(key).finished() {
        lemma_finish(t, key)
    } else {
        lemma_expand(t, key)
    }
}

/// A step on sound tables never fails and leaves sound tables behind, with the position
/// off the frontier; it does work exactly where the position has paths to hand on, which
/// is exactly where it is on the frontier.
pub proof fn law_step_keeps_tables_sound(t: Tables, key: Seq<char>)
    requires
        tables::sound(t),
    ensures
        search::step_script(key, t.counts(key)) matches Ok((actions, did_work)) && {
            &&& tables::perform_all(t, actions) matches Some(after) && tables::sound(after)
                && !after.frontier.contains(key)
            &&& did_work == tables::has_pending(t, key)
            &&& did_work == t.frontier.contains(key)
        },
{
    let after = lemma_step(t, key);
    if tables::has_pending(t, key) {
        assert(tables::entry_queued(t, key, t.positions[key]));
    }
}

/// Setting up an empty database gives sound tables that hold the starting position,
/// reached by one path and on the frontier; a database that holds positions is left as it
/// is.
pub proof fn law_seeded_tables_are_sound(count: int)
    ensures
        count != 0 ==> search::seed_script(count).len() == 0,
        tables::perform_all(Tables::empty(), search::seed_script(0)) matches Some(seeded)
            && tables::sound(seeded) && seeded.reach_count(Board::start()) == 1
            && seeded.frontier == set![key::key_text(Board::start())] && seeded.positions.dom()
            == set![key::key_text(Board::start())],
{
    let start = Board::start();
    let key = key::key_text(start);
    let script = search::seed_script(0);
    let empty = Tables::empty();
    lemma_board_at(start);
    lemma_literal_counts();
    let fresh = tables::fresh_record(search::row_of(start));
    let reached = Record { reach: "1"@, ..fresh };
    let t1 = Tables { positions: empty.positions.insert(key, fresh), ..empty };
    let t2 = Tables { positions: t1.positions.insert(key, reached), ..t1 };
    let t3 = Tables { frontier: t2.frontier.insert(key), ..t2 };
    assert(tables::perform_all(empty, script) == Some(t3)) by {
        reveal_with_fuel(tables::perform_all, 4);
        let s2 = script.drop_last();
        let s1 = s2.drop_last();
        assert(s1.drop_last() =~= Seq::<ActionView>::empty());
        assert(tables::perform(empty, s1.last()) == Some(t1));
        assert(tables::perform(t1, s2.last()) == Some(t2));
        assert(tables::perform(t2, script.last()) == Some(t3));
    }
    assert(t3.positions =~= empty.positions.insert(key, reached));
    assert(t3.frontier =~= set![key]);
    assert(t3.positions.dom() =~= set![key]);
    assert(tables::sound(t3)) by {
        assert(tables::entry_sound(key, reached));
        assert(tables::entry_charted(t3, key, reached));
        assert forall|black: int, white: int| #[trigger]
            t3.bucket_count(black, white) == sums::map_total(
                t3.positions,
                tables::handed(tree::ended_with(black, white)),
            ) by {
            let g = tables::handed(tree::ended_with(black, white));
            sums::lemma_map_total_insert(empty.positions, g, key, reached);
            sums::lemma_map_total_empty::<Seq<char>, Record>(g);
            assert(g(key, reached) == 0) by {
                assert(0 * tree::ended_with(black, white)(start) == 0) by (nonlinear_arith);
            }
        }
        assert forall|f: spec_fn(Board) -> nat| #[trigger]
            sums::map_total(t3.positions, tables::weight(f)) == tree::line_total(start, f) by {
            let g = tables::weight(f);
            sums::lemma_map_total_insert(empty.positions, g, key, reached);
            sums::lemma_map_total_empty::<Seq<char>, Record>(g);
            assert(g(key, reached) == tree::line_total(start, f)) by {
                assert(0 * f(start) + (1 - 0) * tree::line_total(start, f) == tree::line_total(
                    start,
                    f,
                )) by (nonlinear_arith);
            }
        }
    }
}

/// The tables after processing the positions under a list of keys one after the other,
/// or none where a step fails.
pub open spec fn run_steps(t: Tables, keys: Seq<Seq<char>>) -> Option<Tables>
    decreases keys.len(),
{
    if keys.len() == 0 {
        Some(t)
    } else {
        match run_steps(t, keys.drop_last()) {
            None => None,
            Some(before) => match search::step_script(keys.last(), before.counts(keys.last())) {
                Err(_) => None,
                Ok((actions, _)) => tables::perform_all(before, actions),
            },
        }
    }
}

/// However far a search has come and in whatever order positions are processed, it goes on
/// from where it is: every further step succeeds and the tables stay sound.
pub proof fn law_search_can_always_go_on(t: Tables, keys: Seq<Seq<char>>)
    requires
        tables::sound(t),
    ensures
        run_steps(t, keys) matches Some(after) && tables::sound(after),
    decreases keys.len(),
{
    if keys.len() > 0 {
        law_search_can_always_go_on(t, keys.drop_last());
        let before = run_steps(t, keys.drop_last())->0;
        law_step_keeps_tables_sound(before, keys.last());
    }
}

/// A series of steps drops no position and changes no value but that of finished games.
pub(crate) proof fn lemma_run_keeps_values(t: Tables, keys: Seq<Seq<char>>)
    requires
        tables::sound(t),
    ensures
        run_steps(t, keys) matches Some(after) && keeps_values(t, after),
    decreases keys.len(),
{
    if keys.len() > 0 {
        lemma_run_keeps_values(t, keys.drop_last());
        law_search_can_always_go_on(t, keys.drop_last());
        let before = run_steps(t, keys.drop_last())->0;
        let after = lemma_step(before, keys.last());
    }
}

/// The number of paths handed on so far, over all positions.
pub open spec fn handed_on(t: Tables) -> nat {
    sums::map_total(t.positions, tables::handed(tree::each()))
}

/// The search comes to an end: every step that does work hands on at least one more path,
/// and there are no more to hand on than lines of play.
pub proof fn law_search_is_finite(t: Tables, key: Seq<char>)
    requires
        tables::sound(t),
    ensures
        handed_on(t) <= tree::line_total(Board::start(), tree::each()),
        search::step_script(key, t.counts(key)) matches Ok((actions, did_work)) && (
        tables::perform_all(t, actions) matches Some(after) && (if did_work {
            handed_on(after) > handed_on(t)
        } else {
            handed_on(after) == handed_on(t)
        })),
{
    let f = tree::each();
    lemma_handed_below_lines(t, f);
    let after = lemma_step(t, key);
    if tables::has_pending(t, key) {
        let record = t.positions[key];
        assert(tables::entry_sound(key, record));
        let delta = (tables::number(record.reach) - tables::number(record.propagated)) as nat;
        assert(f(tables::board_at(key)) == 1);
        assert(sums::map_total(after.positions, tables::handed(f)) == handed_on(t) + delta * 1);
    }
}

/// The paths handed on are among the lines of play.
pub(crate) proof fn lemma_handed_below_lines(t: Tables, f: spec_fn(Board) -> nat)
    requires
        tables::sound(t),
    ensures
        sums::map_total(t.positions, tables::handed(f)) <= tree::line_total(Board::start(), f),
{
    let (g, h) = (tables::handed(f), tables::weight(f));
    assert forall|k: Seq<char>| #[trigger] t.positions.contains_key(k) implies g(
        k,
        t.positions[k],
    ) <= h(k, t.positions[k]) by {
        let record = t.positions[k];
        assert(tables::entry_sound(k, record));
        let pending = (tables::number(record.reach) - tables::number(record.propagated)) as nat;
        let ahead = tree::line_total(tables::board_at(k), f);
        assert(pending * ahead >= 0) by (nonlinear_arith);
    }
    sums::lemma_map_total_le(t.positions, g, h);
    assert(sums::map_total(t.positions, h) == tree::line_total(Board::start(), f));
}

} // verus!
