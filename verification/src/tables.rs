//! The database tables, and what every step of the search keeps true of them.
//!
//! The tables are described as they are stored: counts are texts, positions are named
//! by their keys. `perform` says what each action does to them.
use vstd::prelude::*;

use crate::board::Board;
use crate::count;
use crate::key;
use crate::search;
use crate::search::{ActionView, PositionRowView};
use crate::squares;
use crate::sums;
use crate::text;
use crate::tree;

verus! {

/// A stored position.
pub struct Record {
    pub row: PositionRowView,
    pub reach: Seq<char>,
    pub propagated: Seq<char>,
    pub terminal: bool,
    pub expanded: bool,
    pub legal_moves: Option<int>,
    pub value_black: Option<int>,
}

/// The stored paths to one final score.
pub struct Bucket {
    pub result: Seq<char>,
    pub paths: Seq<char>,
}

/// The content of the database.
pub struct Tables {
    /// The positions by key.
    pub positions: Map<Seq<char>, Record>,
    /// The keys of the positions that may still have paths to hand on.
    pub frontier: Set<Seq<char>>,
    /// The moves: parent key, move number, child key.
    pub edges: Set<(Seq<char>, int, Seq<char>)>,
    /// The paths that end with given numbers of black and white discs.
    pub buckets: Map<(int, int), Bucket>,
}

/// A position as it is first inserted.
pub open spec fn fresh_record(row: PositionRowView) -> Record {
    Record {
        row,
        reach: "0"@,
        propagated: "0"@,
        terminal: false,
        expanded: false,
        legal_moves: None,
        value_black: None,
    }
}

impl Tables {
    /// The tables of a new database.
    pub open spec fn empty() -> Tables {
        Tables {
            positions: Map::empty(),
            frontier: Set::empty(),
            edges: Set::empty(),
            buckets: Map::empty(),
        }
    }

    /// The tables with the record of a stored position replaced; a position that is not
    /// stored stays so.
    pub open spec fn updated(self, key: Seq<char>, record: Record) -> Tables {
        if self.positions.contains_key(key) {
            Tables { positions: self.positions.insert(key, record), ..self }
        } else {
            self
        }
    }

    /// The stored counts of a position.
    pub open spec fn counts(self, key: Seq<char>) -> Option<(Seq<char>, Seq<char>)> {
        if self.positions.contains_key(key) {
            Some((self.positions[key].reach, self.positions[key].propagated))
        } else {
            None
        }
    }

    /// The number of paths stored for a final score.
    pub open spec fn bucket_count(self, black: int, white: int) -> nat {
        if self.buckets.contains_key((black, white)) {
            number(self.buckets[(black, white)].paths)
        } else {
            0
        }
    }

    /// The reach count stored for a position.
    pub open spec fn reach_count(self, board: Board) -> nat {
        if self.positions.contains_key(key::key_text(board)) {
            number(self.positions[key::key_text(board)].reach)
        } else {
            0
        }
    }
}

/// The number that a stored count writes.
pub open spec fn number(text: Seq<char>) -> nat {
    match count::count_value(text) {
        Some(n) => n,
        None => 0,
    }
}

/// The position under a key.
pub open spec fn board_at(key: Seq<char>) -> Board {
    match key::board_of_key(key) {
        Ok(board) => board,
        Err(_) => Board::start(),
    }
}

/// The tables after an action, or none where the action fails and the transaction is
/// given up: a count that cannot be read, or a reference to a position that is not
/// stored.
pub open spec fn perform(tables: Tables, action: ActionView) -> Option<Tables> {
    let positions = tables.positions;
    match action {
        ActionView::InsertPosition(row) => if positions.contains_key(row.key) {
            Some(tables)
        } else {
            Some(Tables { positions: positions.insert(row.key, fresh_record(row)), ..tables })
        },
        ActionView::SetReach { key, count } => Some(
            tables.updated(key, Record { reach: count, ..positions[key] }),
        ),
        ActionView::AddReach { key, delta } => if positions.contains_key(key) {
            match count::raised_count(positions[key].reach, delta) {
                Ok(reach) => Some(
                    Tables {
                        positions: positions.insert(key, Record { reach, ..positions[key] }),
                        frontier: tables.frontier.insert(key),
                        ..tables
                    },
                ),
                Err(_) => None,
            }
        } else {
            None
        },
        ActionView::SetPropagated { key, count } => Some(
            tables.updated(key, Record { propagated: count, ..positions[key] }),
        ),
        ActionView::InsertEdge { parent, mv, child } => if positions.contains_key(parent)
            && positions.contains_key(child) {
            Some(Tables { edges: tables.edges.insert((parent, mv, child)), ..tables })
        } else {
            None
        },
        ActionView::MarkTerminal { key, value_black } => Some(
            tables.updated(
                key,
                Record {
                    terminal: true,
                    expanded: true,
                    legal_moves: Some(0),
                    value_black: Some(value_black),
                    ..positions[key]
                },
            ),
        ),
        ActionView::AddTerminalPaths { black_discs, white_discs, result, delta } => {
            let score = (black_discs, white_discs);
            let stored = tables.buckets.contains_key(score);
            let old = if stored {
                Some(tables.buckets[score].paths)
            } else {
                None
            };
            match count::raised_bucket(old, delta) {
                Ok(paths) => {
                    let label = if stored {
                        tables.buckets[score].result
                    } else {
                        result
                    };
                    Some(
                        Tables {
                            buckets: tables.buckets.insert(score, Bucket { result: label, paths }),
                            ..tables
                        },
                    )
                },
                Err(_) => None,
            }
        },
        ActionView::MarkExpanded { key, legal_moves } => Some(
            tables.updated(
                key,
                Record {
                    terminal: false,
                    expanded: true,
                    legal_moves: Some(legal_moves),
                    ..positions[key]
                },
            ),
        ),
        ActionView::SetValue { key, value_black } => Some(
            tables.updated(key, Record { value_black: Some(value_black), ..positions[key] }),
        ),
        ActionView::EnterFrontier { key } => if positions.contains_key(key) {
            Some(Tables { frontier: tables.frontier.insert(key), ..tables })
        } else {
            None
        },
        ActionView::LeaveFrontier { key } => Some(
            Tables { frontier: tables.frontier.remove(key), ..tables },
        ),
    }
}

/// The tables after a list of actions, or none where one of them fails.
pub open spec fn perform_all(tables: Tables, actions: Seq<ActionView>) -> Option<Tables>
    decreases actions.len(),
{
    if actions.len() == 0 {
        Some(tables)
    } else {
        match perform_all(tables, actions.drop_last()) {
            Some(before) => perform(before, actions.last()),
            None => None,
        }
    }
}

/// Actions in two lists are performed one list after the other.
pub proof fn lemma_perform_concat(tables: Tables, a: Seq<ActionView>, b: Seq<ActionView>)
    ensures
        perform_all(tables, a + b) == match perform_all(tables, a) {
            Some(between) => perform_all(between, b),
            None => None,
        },
    decreases b.len(),
{
    if b.len() == 0 {
        assert(a + b =~= a);
    } else {
        lemma_perform_concat(tables, a, b.drop_last());
        assert((a + b).drop_last() =~= a + b.drop_last());
    }
}

/// A list of one more action.
pub proof fn lemma_perform_push(tables: Tables, a: Seq<ActionView>, action: ActionView)
    ensures
        perform_all(tables, a.push(action)) == match perform_all(tables, a) {
            Some(between) => perform(between, action),
            None => None,
        },
{
    assert(a.push(action).drop_last() =~= a);
}

/// A list of a single action.
pub proof fn lemma_perform_one(tables: Tables, action: ActionView)
    ensures
        perform_all(tables, seq![action]) == perform(tables, action),
{
    assert(seq![action].drop_last() =~= Seq::<ActionView>::empty());
    assert(perform_all(tables, seq![action].drop_last()) == Some(tables));
}

/// What a stored position contributes to a sum over lines of play: `f` of the position
/// for every path handed on, and all that follows for every path still pending.
pub open spec fn weight(f: spec_fn(Board) -> nat) -> spec_fn(Seq<char>, Record) -> nat {
    |key: Seq<char>, record: Record|
        (number(record.propagated) * f(board_at(key)) + (number(record.reach) - number(
            record.propagated,
        )) * tree::line_total(board_at(key), f)) as nat
}

/// What a stored position contributes to a sum over the paths handed on.
pub open spec fn handed(f: spec_fn(Board) -> nat) -> spec_fn(Seq<char>, Record) -> nat {
    |key: Seq<char>, record: Record| number(record.propagated) * f(board_at(key))
}

/// Whether a record fits its key: the key is that of a position, the inserted columns
/// describe it, both counts are numbers in plain decimal, at least one path reaches it, and
/// no more paths are handed on than reach it.
pub open spec fn entry_sound(key: Seq<char>, record: Record) -> bool {
    &&& key == key::key_text(board_at(key))
    &&& record.row == search::row_of(board_at(key))
    &&& count::count_value(record.reach) is Some
    &&& count::count_value(record.propagated) is Some
    &&& record.reach == text::decimal(number(record.reach))
    &&& record.propagated == text::decimal(number(record.propagated))
    &&& number(record.propagated) <= number(record.reach)
    &&& number(record.reach) >= 1
}

/// Whether an edge is a move of the game between two stored positions.
pub open spec fn edge_sound(tables: Tables, edge: (Seq<char>, int, Seq<char>)) -> bool {
    &&& tables.positions.contains_key(edge.0)
    &&& tables.positions.contains_key(edge.2)
    &&& exists|i: int|
        0 <= i < tree::children(board_at(edge.0)).len() && (#[trigger] tree::children(
            board_at(edge.0),
        )[i]).0 == edge.1 && edge.2 == key::key_text(tree::children(board_at(edge.0))[i].1)
}

/// Whether the edges hold the first `n` moves of a position.
pub open spec fn moves_stored(tables: Tables, key: Seq<char>, n: int) -> bool {
    forall|i: int|
        0 <= i < n ==> tables.edges.contains(
            (
                key,
                (#[trigger] tree::children(board_at(key))[i]).0,
                key::key_text(tree::children(board_at(key))[i].1),
            ),
        )
}

/// Whether what is stored about the moves and the value of a position is right: an
/// expanded one has handed on paths, has all its moves as edges and its columns filled, one
/// that is not expanded has handed on nothing and has no edges, and a stored value is exact.
pub open spec fn entry_charted(tables: Tables, key: Seq<char>, record: Record) -> bool {
    let board = board_at(key);
    &&& record.expanded ==> {
        &&& record.terminal == board.finished()
        &&& record.legal_moves == Some(squares::squares(board.legal_mask()).len() as int)
        &&& moves_stored(tables, key, tree::children(board).len() as int)
        &&& board.finished() ==> record.value_black is Some
        &&& number(record.propagated) >= 1
    }
    &&& !record.expanded ==> {
        &&& !record.terminal
        &&& record.legal_moves is None
        &&& record.value_black is None
        &&& number(record.propagated) == 0
        &&& forall|mv: int, child: Seq<char>| !tables.edges.contains((key, mv, child))
    }
    &&& value_exact(key, record)
}

/// Whether a stored value is the exact value of the position.
pub open spec fn value_exact(key: Seq<char>, record: Record) -> bool {
    record.value_black is Some ==> record.value_black == Some(tree::exact_value(board_at(key)))
}

/// Whether a bucket holds paths, as a number in plain decimal, and carries the label of its
/// score.
pub open spec fn bucket_sound(tables: Tables, score: (int, int)) -> bool {
    tables.buckets.contains_key(score) ==> {
        &&& count::count_value(tables.buckets[score].paths) is Some
        &&& tables.buckets[score].paths == text::decimal(number(tables.buckets[score].paths))
        &&& number(tables.buckets[score].paths) >= 1
        &&& tables.buckets[score].result == search::result_text(score.0, score.1)
    }
}

/// Whether a position with pending paths is on the frontier.
pub open spec fn entry_queued(tables: Tables, key: Seq<char>, record: Record) -> bool {
    number(record.reach) != number(record.propagated) ==> tables.frontier.contains(key)
}

/// Whether the position under `key` has paths that are not handed on yet.
pub open spec fn has_pending(tables: Tables, key: Seq<char>) -> bool {
    tables.positions.contains_key(key) && number(tables.positions[key].reach) != number(
        tables.positions[key].propagated,
    )
}

/// What holds of the tables at all times, whatever a step is about to do.
pub open spec fn consistent(tables: Tables) -> bool {
    &&& tables.positions.dom().finite()
    &&& forall|k: Seq<char>| #[trigger]
        tables.positions.contains_key(k) ==> entry_sound(k, tables.positions[k])
    &&& forall|k: Seq<char>| #[trigger]
        tables.positions.contains_key(k) ==> entry_queued(tables, k, tables.positions[k])
    &&& forall|k: Seq<char>| #[trigger]
        tables.frontier.contains(k) ==> tables.positions.contains_key(k)
    &&& forall|e: (Seq<char>, int, Seq<char>)| #[trigger]
        tables.edges.contains(e) ==> edge_sound(tables, e)
    &&& forall|score: (int, int)| #[trigger] bucket_sound(tables, score)
}

/// Whether every path that was handed on from a finished game is in its bucket.
pub open spec fn buckets_balanced(tables: Tables) -> bool {
    forall|black: int, white: int| #[trigger]
        tables.bucket_count(black, white) == sums::map_total(
            tables.positions,
            handed(tree::ended_with(black, white)),
        )
}

/// Whether every path from the starting position is accounted for: it is either handed
/// on at its last position or still pending at one that it passes.
pub open spec fn paths_balanced(tables: Tables) -> bool {
    forall|f: spec_fn(Board) -> nat| #[trigger]
        sums::map_total(tables.positions, weight(f)) == tree::line_total(Board::start(), f)
}

/// What holds of the tables whenever no move is half handed on, whatever the frontier still
/// holds besides the positions with pending paths.
pub open spec fn settled(tables: Tables) -> bool {
    &&& consistent(tables)
    &&& forall|k: Seq<char>| #[trigger]
        tables.positions.contains_key(k) ==> entry_charted(tables, k, tables.positions[k])
    &&& buckets_balanced(tables)
    &&& paths_balanced(tables)
}

/// What every committed step leaves behind. The frontier holds exactly the positions with
/// pending paths.
pub open spec fn sound(tables: Tables) -> bool {
    &&& settled(tables)
    &&& forall|k: Seq<char>| #[trigger] tables.frontier.contains(k) ==> has_pending(tables, k)
}

} // verus!
