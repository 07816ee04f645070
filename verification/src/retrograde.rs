//! Retrograde analysis: filling in the exact values of positions from the values of the
//! positions one move on.
use vstd::prelude::*;

use crate::board::Board;
use crate::error::{Error, ErrorView};
use crate::key;
use crate::search::ActionView;
use crate::side;
use crate::side::Side;
use crate::sums;
use crate::tables;
use crate::tables::{Record, Tables};
use crate::text;
use crate::text::{append, append_decimal};
use crate::tree;

verus! {

/// Whether `value` is what the values one move on give a position: none where there are
/// no moves or one of them has no value yet, and otherwise the value that the player to
/// move prefers.
pub open spec fn is_parent_value(
    values: Seq<Option<i64>>,
    side: Side,
    value: Option<i64>,
) -> bool {
    match value {
        None => values.len() == 0 || values.contains(None),
        Some(v) => {
            &&& values.contains(Some(v))
            &&& forall|i: int|
                0 <= i < values.len() ==> (#[trigger] values[i] matches Some(w) && tree::better(
                    side,
                    v as int,
                    w as int,
                ) == v)
        },
    }
}

/// The value of a position from the values one move on, for the player to move.
pub fn retrograde_value(values: &Vec<Option<i64>>, side: Side) -> (value: Option<i64>)
    ensures
        is_parent_value(values@, side, value),
        value matches Some(v) ==> forall|i: int|
            0 <= i < values.len() ==> #[trigger] values[i] is Some && (side == Side::Black ==> v
                >= values[i]->0) && (side == Side::White ==> v <= values[i]->0),
{
    let mut best: Option<i64> = None;
    let mut i: usize = 0;
    while i < values.len()
        invariant
            i <= values.len(),
            i == 0 ==> best is None,
            i > 0 ==> best is Some && is_parent_value(values@.subrange(0, i as int), side, best),
        decreases values.len() - i,
    {
        let ghost front = values@.subrange(0, i as int);
        let ghost next = values@.subrange(0, i + 1);
        let value = match values[i] {
            None => {
                assert(values@[i as int] is None);
                return None;
            },
            Some(value) => value,
        };
        let chosen: i64 = match best {
            None => value,
            Some(current) => match side {
                Side::Black => if current >= value {
                    current
                } else {
                    value
                },
                Side::White => if current <= value {
                    current
                } else {
                    value
                },
            },
        };
        proof {
            assert(next[i as int] == Some(value));
            if best is Some {
                let at = front.index_of(best);
                assert(next[at] == front[at]);
            }
            assert forall|j: int| 0 <= j < next.len() implies (#[trigger] next[j] matches Some(w)
                && tree::better(side, chosen as int, w as int) == chosen) by {
                if j < i {
                    assert(front[j] == next[j]);
                }
            }
        }
        best = Some(chosen);
        i = i + 1;
    }
    assert(values@.subrange(0, values@.len() as int) =~= values@);
    proof {
        law_black_takes_the_largest_and_white_the_smallest(values@, side, best);
    }
    best
}

/// The stored sides of a list of positions, or the error of the first that names none.
pub open spec fn candidate_sides(rows: Seq<(String, i64)>) -> Result<Seq<Side>, ErrorView>
    decreases rows.len(),
{
    if rows.len() == 0 {
        Ok(Seq::empty())
    } else {
        match candidate_sides(rows.drop_last()) {
            Err(error) => Err(error),
            Ok(sides) => match side::side_of_value(rows.last().1 as int) {
                Err(error) => Err(error),
                Ok(side) => Ok(sides.push(side)),
            },
        }
    }
}

/// A list of sides that failed stays failed when rows follow.
proof fn lemma_sides_fail(rows: Seq<(String, i64)>, n: int)
    requires
        0 <= n <= rows.len(),
        candidate_sides(rows.subrange(0, n)) is Err,
    ensures
        candidate_sides(rows) == candidate_sides(rows.subrange(0, n)),
    decreases rows.len(),
{
    if n == rows.len() {
        assert(rows.subrange(0, n) =~= rows);
    } else {
        assert(rows.drop_last().subrange(0, n) =~= rows.subrange(0, n));
        lemma_sides_fail(rows.drop_last(), n);
    }
}

/// The positions to try, with the players to move, from their stored keys and sides.
pub fn unsolved_candidates(rows: &Vec<(String, i64)>) -> (candidates: Result<
    Vec<(String, Side)>,
    Error,
>)
    ensures
        match candidates {
            Err(error) => candidate_sides(rows@) == Err::<Seq<Side>, ErrorView>(error@),
            Ok(list) => {
                &&& list.len() == rows.len()
                &&& forall|i: int| 0 <= i < list.len() ==> (#[trigger] list[i]).0@ == rows[i].0@
                &&& candidate_sides(rows@) matches Ok(sides) && sides.len() == list.len() && (
                forall|i: int| 0 <= i < list.len() ==> (#[trigger] list[i]).1 == sides[i])
            },
        },
{
    let mut list: Vec<(String, Side)> = Vec::new();
    let mut i: usize = 0;
    assert(rows@.subrange(0, 0) =~= Seq::<(String, i64)>::empty());
    while i < rows.len()
        invariant
            i <= rows.len(),
            list.len() == i,
            forall|j: int| 0 <= j < i ==> (#[trigger] list[j]).0@ == rows[j].0@,
            candidate_sides(rows@.subrange(0, i as int)) matches Ok(sides) && sides.len() == i && (
            forall|j: int| 0 <= j < i ==> (#[trigger] list[j]).1 == sides[j]),
        decreases rows.len() - i,
    {
        let ghost next = rows@.subrange(0, i + 1);
        assert(next.drop_last() =~= rows@.subrange(0, i as int));
        assert(next.last() == rows[i as int]);
        match Side::from_i64(rows[i].1) {
            Err(error) => {
                proof {
                    lemma_sides_fail(rows@, i + 1);
                }
                return Err(error);
            },
            Ok(side) => {
                list.push((rows[i].0.clone(), side));
            },
        }
        i = i + 1;
    }
    assert(rows@.subrange(0, i as int) =~= rows@);
    Ok(list)
}

/// What has happened in a retrograde analysis.
pub enum PassEvent {
    /// The next pass may begin.
    Ready,
    /// The positions to try are known: so many of them.
    Fetched { rows: u64 },
    /// All of them are tried, and the values that were found are committed.
    Committed { rows: u64, solved: u64 },
}

/// What a retrograde analysis does next.
#[derive(Clone, Copy, Debug, PartialEq, Eq, Structural)]
pub enum PassAction {
    /// Read the next positions without a value, past the first `offset` of them.
    Fetch { offset: u64 },
    /// Try each of them.
    Solve,
    /// Begin the next pass.
    Continue,
    /// End the analysis.
    Stop,
}

/// The state of an analysis.
#[derive(Clone, Copy, Debug, PartialEq, Eq, Structural)]
pub struct PassState {
    /// The number of passes begun.
    pub pass: u64,
    /// The number of positions tried in vain since a value was last stored: the first ones
    /// of those without a value.
    pub tried: u64,
}

/// The state after an event, what to do, and a line to print.
pub struct PassStep {
    pub state: PassState,
    pub action: PassAction,
    pub line: Option<String>,
}

/// The number of positions tried in vain after a pass over `rows` more of them: a pass that
/// has found values makes all the others worth trying again.
pub open spec fn next_tried(tried: nat, rows: nat, solved: nat) -> nat {
    if solved == 0 {
        tried + rows
    } else {
        0
    }
}

/// The number of passes begun, the number of positions tried in vain, and what to do after
/// an event.
pub open spec fn pass_choice(state: PassState, max_passes: Option<u64>, event: PassEvent) -> (
    nat,
    nat,
    PassAction,
) {
    let (pass, tried) = (state.pass as nat, state.tried as nat);
    match event {
        PassEvent::Ready => if max_passes matches Some(limit) && pass >= limit {
            (pass, tried, PassAction::Stop)
        } else {
            (pass + 1, tried, PassAction::Fetch { offset: state.tried })
        },
        PassEvent::Fetched { rows } => if rows == 0 {
            (pass, tried, PassAction::Stop)
        } else {
            (pass, tried, PassAction::Solve)
        },
        PassEvent::Committed { rows, solved } => (
            pass,
            next_tried(tried, rows as nat, solved as nat),
            PassAction::Continue,
        ),
    }
}

/// The line printed after an event.
pub open spec fn pass_line(state: PassState, event: PassEvent) -> Option<Seq<char>> {
    match event {
        PassEvent::Ready => None,
        PassEvent::Fetched { rows } => if rows == 0 && state.tried == 0 {
            Some("no unsolved candidates found"@)
        } else {
            None
        },
        PassEvent::Committed { solved, .. } => Some(
            "retrograde pass "@ + text::decimal(state.pass as nat) + ": solved "@ + text::decimal(
                solved as nat,
            ),
        ),
    }
}

/// An optional text taken by content.
pub open spec fn line_text(line: Option<String>) -> Option<Seq<char>> {
    match line {
        None => None,
        Some(text) => Some(text@),
    }
}

/// Decides what a retrograde analysis does after an event. A pass tries the next positions
/// behind those that were tried in vain since the last value was stored. The analysis ends
/// at the limit on passes, or when there are none left to try.
pub fn retrograde_command(state: PassState, max_passes: Option<u64>, event: PassEvent) -> (step:
    PassStep)
    requires
        event is Ready ==> state.pass < u64::MAX || max_passes is Some,
        event matches PassEvent::Committed { rows, solved: 0 } ==> state.tried + rows <= u64::MAX,
    ensures
        (step.state.pass as nat, step.state.tried as nat, step.action) == pass_choice(
            state,
            max_passes,
            event,
        ),
        line_text(step.line) == pass_line(state, event),
{
    match event {
        PassEvent::Ready => {
            if let Some(limit) = max_passes {
                if state.pass >= limit {
                    return PassStep { state, action: PassAction::Stop, line: None };
                }
            }
            PassStep {
                state: PassState { pass: state.pass + 1, tried: state.tried },
                action: PassAction::Fetch { offset: state.tried },
                line: None,
            }
        },
        PassEvent::Fetched { rows } => {
            if rows > 0 {
                return PassStep { state, action: PassAction::Solve, line: None };
            }
            let line = if state.tried == 0 {
                Some("no unsolved candidates found".to_owned())
            } else {
                None
            };
            PassStep { state, action: PassAction::Stop, line }
        },
        PassEvent::Committed { rows, solved } => {
            let mut line = String::new();
            append(&mut line, "retrograde pass ");
            append_decimal(&mut line, state.pass);
            append(&mut line, ": solved ");
            append_decimal(&mut line, solved);
            let tried: u64 = if solved == 0 {
                state.tried + rows
            } else {
                0
            };
            PassStep {
                state: PassState { pass: state.pass, tried },
                action: PassAction::Continue,
                line: Some(line),
            }
        },
    }
}

/// An analysis with a limit never begins more passes than it allows.
pub proof fn law_passes_stay_within_limit(state: PassState, limit: u64, event: PassEvent)
    requires
        state.pass <= limit,
    ensures
        pass_choice(state, Some(limit), event).0 <= limit,
{
}

/// A stored value taken as a number.
pub open spec fn value_of(value: Option<i64>) -> Option<int> {
    match value {
        None => None,
        Some(v) => Some(v as int),
    }
}

/// Whether a position one move on from the one under `key` has the stored value `value`.
pub open spec fn is_child_value(t: Tables, key: Seq<char>, value: Option<int>) -> bool {
    exists|mv: int, child: Seq<char>| #[trigger]
        t.edges.contains((key, mv, child)) && t.positions[child].value_black == value
}

/// Whether `value` is among `values`.
pub open spec fn is_listed(values: Seq<Option<i64>>, value: Option<int>) -> bool {
    exists|i: int| 0 <= i < values.len() && value_of(#[trigger] values[i]) == value
}

/// Whether `values` are the stored values of the positions one move on from the one under
/// `key`, in whatever order and however often each.
pub open spec fn lists_child_values(t: Tables, key: Seq<char>, values: Seq<Option<i64>>) -> bool {
    forall|value: Option<int>|
        #![trigger is_child_value(t, key, value)]
        #![trigger is_listed(values, value)]
        is_child_value(t, key, value) == is_listed(values, value)
}

/// A listed value is that of one of the moves.
proof fn lemma_listed_move(t: Tables, key: Seq<char>, values: Seq<Option<i64>>, at: int) -> (i: int)
    requires
        tables::sound(t),
        lists_child_values(t, key, values),
        0 <= at < values.len(),
    ensures
        t.positions.contains_key(key),
        t.positions[key].expanded,
        0 <= i < tree::children(tables::board_at(key)).len(),
        ({
            let child = key::key_text(tree::children(tables::board_at(key))[i].1);
            t.positions.contains_key(child) && t.positions[child].value_black == value_of(
                values[at],
            )
        }),
{
    let moves = tree::children(tables::board_at(key));
    assert(is_listed(values, value_of(values[at])));
    assert(is_child_value(t, key, value_of(values[at])));
    let (mv, child) = choose|mv: int, child: Seq<char>| #[trigger]
        t.edges.contains((key, mv, child)) && t.positions[child].value_black == value_of(
            values[at],
        );
    assert(tables::edge_sound(t, (key, mv, child)));
    assert(tables::entry_charted(t, key, t.positions[key]));
    let i = choose|i: int|
        0 <= i < moves.len() && (#[trigger] moves[i]).0 == mv && child == key::key_text(
            moves[i].1,
        );
    i
}

/// The value of every move of an expanded position is listed.
proof fn lemma_move_listed(t: Tables, key: Seq<char>, values: Seq<Option<i64>>, i: int) -> (at: int)
    requires
        tables::sound(t),
        t.positions.contains_key(key),
        t.positions[key].expanded,
        lists_child_values(t, key, values),
        0 <= i < tree::children(tables::board_at(key)).len(),
    ensures
        0 <= at < values.len(),
        ({
            let child = key::key_text(tree::children(tables::board_at(key))[i].1);
            t.positions.contains_key(child) && t.positions[child].value_black == value_of(
                values[at],
            )
        }),
{
    let moves = tree::children(tables::board_at(key));
    let child = key::key_text(moves[i].1);
    assert(tables::entry_charted(t, key, t.positions[key]));
    assert(t.edges.contains((key, moves[i].0, child)));
    assert(tables::edge_sound(t, (key, moves[i].0, child)));
    let value = t.positions[child].value_black;
    assert(is_child_value(t, key, value));
    assert(is_listed(values, value));
    choose|at: int| 0 <= at < values.len() && value_of(#[trigger] values[at]) == value
}

/// A value found on sound tables is the exact value of the position: the final score
/// under best play of both sides, Black maximising and White minimising.
pub proof fn law_retrograde_value_is_exact(
    t: Tables,
    key: Seq<char>,
    values: Seq<Option<i64>>,
    side: Side,
    value: i64,
)
    requires
        tables::sound(t),
        t.positions.contains_key(key),
        side::side_of_value(t.positions[key].row.side) == Ok::<Side, ErrorView>(side),
        lists_child_values(t, key, values),
        is_parent_value(values, side, Some(value)),
    ensures
        !tables::board_at(key).finished(),
        t.positions[key].expanded,
        value == tree::exact_value(tables::board_at(key)),
{
    let record = t.positions[key];
    let board = tables::board_at(key);
    let moves = tree::children(board);
    assert(tables::entry_sound(key, record));
    assert(tables::entry_charted(t, key, record));
    side::law_side_round_trip(board.side);
    assert(side == board.side);
    let at = values.index_of(Some(value));
    assert(values[at] == Some(value));
    let i = lemma_listed_move(t, key, values, at);
    lemma_child_value(t, moves[i].1);
    assert(value == tree::exact_value(moves[i].1));
    tree::law_moves_lead_towards_the_end(board);
    tree::law_value_is_that_of_the_best_move(board);
    let best = choose|b: int|
        0 <= b < moves.len() && tree::exact_value(board) == tree::exact_value(
            #[trigger] moves[b].1,
        );
    let b = lemma_move_listed(t, key, values, best);
    lemma_child_value(t, moves[best].1);
    assert(values[b] matches Some(w) && tree::better(side, value as int, w as int) == value);
    assert(tree::better(board.side, tree::exact_value(board), tree::exact_value(moves[i].1))
        == tree::exact_value(board));
}

/// The stored value of a position, where there is one, is exact.
proof fn lemma_child_value(t: Tables, board: Board)
    requires
        tables::sound(t),
        t.positions.contains_key(key::key_text(board)),
    ensures
        t.positions[key::key_text(board)].value_black matches Some(v) ==> v == tree::exact_value(
            board,
        ),
{
    let key = key::key_text(board);
    key::law_key_round_trip(board);
    assert(tables::entry_charted(t, key, t.positions[key]));
}

/// Storing a value that was found on sound tables keeps them sound and changes nothing
/// else.
pub proof fn law_solving_keeps_tables_sound(
    t: Tables,
    key: Seq<char>,
    values: Seq<Option<i64>>,
    side: Side,
    value: i64,
)
    requires
        tables::sound(t),
        t.positions.contains_key(key),
        side::side_of_value(t.positions[key].row.side) == Ok::<Side, ErrorView>(side),
        lists_child_values(t, key, values),
        is_parent_value(values, side, Some(value)),
    ensures
        tables::perform(t, ActionView::SetValue { key, value_black: value as int }) == Some(
            Tables {
                positions: t.positions.insert(
                    key,
                    Record { value_black: Some(value as int), ..t.positions[key] },
                ),
                ..t
            },
        ),
        tables::perform(t, ActionView::SetValue { key, value_black: value as int }) matches Some(
            after,
        ) && tables::sound(after),
{
    law_retrograde_value_is_exact(t, key, values, side, value);
    lemma_store_exact_value(t, key);
}

/// The tables with the exact value of a stored position filled in.
pub open spec fn with_exact_value(t: Tables, key: Seq<char>) -> Tables {
    t.updated(
        key,
        Record {
            value_black: Some(tree::exact_value(tables::board_at(key))),
            ..t.positions[key]
        },
    )
}

/// Storing the exact value of an expanded position keeps the tables sound.
pub(crate) proof fn lemma_store_exact_value(t: Tables, key: Seq<char>)
    requires
        tables::sound(t),
        t.positions.contains_key(key),
        t.positions[key].expanded,
    ensures
        tables::sound(with_exact_value(t, key)),
{
    let record = t.positions[key];
    let after = with_exact_value(t, key);
    let stored = after.positions[key];
    assert(after.positions.dom() =~= t.positions.dom());
    assert forall|k: Seq<char>| #[trigger]
        after.positions.contains_key(k) implies tables::entry_sound(k, after.positions[k])
        && tables::entry_queued(after, k, after.positions[k]) && tables::entry_charted(
        after,
        k,
        after.positions[k],
    ) by {
        assert(t.positions.contains_key(k));
        assert(tables::entry_sound(k, t.positions[k]));
        assert(tables::entry_queued(t, k, t.positions[k]));
        assert(tables::entry_charted(t, k, t.positions[k]));
        let n = tree::children(tables::board_at(k)).len() as int;
        assert(tables::moves_stored(t, k, n) == tables::moves_stored(after, k, n));
    }
    assert forall|k: Seq<char>| #[trigger] after.frontier.contains(k) implies tables::has_pending(
        after,
        k,
    ) by {
        assert(tables::has_pending(t, k));
    }
    assert forall|e: (Seq<char>, int, Seq<char>)| #[trigger]
        after.edges.contains(e) implies tables::edge_sound(after, e) by {
        assert(tables::edge_sound(t, e));
    }
    assert forall|score: (int, int)| #[trigger] tables::bucket_sound(after, score) by {
        assert(tables::bucket_sound(t, score));
    }
    assert forall|black: int, white: int| #[trigger]
        after.bucket_count(black, white) == sums::map_total(
            after.positions,
            tables::handed(tree::ended_with(black, white)),
        ) by {
        let g = tables::handed(tree::ended_with(black, white));
        assert(t.bucket_count(black, white) == after.bucket_count(black, white));
        sums::lemma_map_total_insert(t.positions, g, key, stored);
        assert(g(key, stored) == g(key, record));
    }
    assert forall|f: spec_fn(Board) -> nat| #[trigger]
        sums::map_total(after.positions, tables::weight(f)) == tree::line_total(
            Board::start(),
            f,
        ) by {
        let g = tables::weight(f);
        sums::lemma_map_total_insert(t.positions, g, key, stored);
        assert(g(key, stored) == g(key, record));
        assert(sums::map_total(t.positions, g) == tree::line_total(Board::start(), f));
    }
}

/// A position gets a value exactly when it is expanded, the game is not over there, and
/// every position one move on has its value.
pub proof fn law_position_is_solved_once_its_moves_are(
    t: Tables,
    key: Seq<char>,
    values: Seq<Option<i64>>,
    side: Side,
    value: Option<i64>,
)
    requires
        tables::sound(t),
        t.positions.contains_key(key),
        lists_child_values(t, key, values),
        is_parent_value(values, side, value),
    ensures
        value is Some == (t.positions[key].expanded && !tables::board_at(key).finished() && (
        forall|i: int|
            0 <= i < tree::children(tables::board_at(key)).len() ==> t.positions[key::key_text(
                (#[trigger] tree::children(tables::board_at(key))[i]).1,
            )].value_black is Some)),
{
    let record = t.positions[key];
    let board = tables::board_at(key);
    let moves = tree::children(board);
    assert(tables::entry_charted(t, key, record));
    tree::law_moves_lead_towards_the_end(board);
    if value is Some {
        let at = values.index_of(value);
        assert(values[at] == value);
        let first = lemma_listed_move(t, key, values, at);
        assert forall|i: int| 0 <= i < moves.len() implies t.positions[key::key_text(
            (#[trigger] moves[i]).1,
        )].value_black is Some by {
            let b = lemma_move_listed(t, key, values, i);
            assert(values[b] is Some);
        }
    } else if values.len() == 0 {
        if record.expanded && !board.finished() {
            let b = lemma_move_listed(t, key, values, 0);
        }
    } else {
        let at = values.index_of(None);
        assert(values[at] is None);
        let i = lemma_listed_move(t, key, values, at);
        assert(t.positions[key::key_text(moves[i].1)].value_black is None);
    }
}

/// A value returned for Black is at least every value one move on, a value returned for White
/// at most, and either is one of them. None is returned exactly where there are no moves or
/// one has no value yet.
pub proof fn law_black_takes_the_largest_and_white_the_smallest(
    values: Seq<Option<i64>>,
    side: Side,
    value: Option<i64>,
)
    requires
        is_parent_value(values, side, value),
    ensures
        value is None == (values.len() == 0 || exists|i: int|
            0 <= i < values.len() && #[trigger] values[i] is None),
        value matches Some(v) ==> {
            &&& exists|i: int| 0 <= i < values.len() && #[trigger] values[i] == Some(v)
            &&& forall|i: int| 0 <= i < values.len() ==> #[trigger] values[i] is Some
            &&& side == Side::Black ==> forall|i: int|
                0 <= i < values.len() ==> v >= (#[trigger] values[i])->0
            &&& side == Side::White ==> forall|i: int|
                0 <= i < values.len() ==> v <= (#[trigger] values[i])->0
        },
{
    if value is None {
        if values.len() > 0 {
            let i = values.index_of(None);
            assert(values[i] is None);
        }
    } else {
        let i = values.index_of(value);
        assert(values[i] == value);
        assert forall|j: int| 0 <= j < values.len() implies #[trigger] values[j] is Some && (side
            == Side::Black ==> value->0 >= values[j]->0) && (side == Side::White ==> value->0
            <= values[j]->0) by {
            assert(values[j] matches Some(w) && tree::better(side, value->0 as int, w as int)
                == value->0);
            tree::law_preference(value->0 as int, values[j]->0 as int);
        }
    }
}

/// The candidates have the sides that their own rows store, row by row, and fail with the
/// first row that stores none.
pub proof fn law_candidates_have_their_own_sides(rows: Seq<(String, i64)>)
    ensures
        match candidate_sides(rows) {
            Ok(sides) => sides.len() == rows.len() && forall|i: int|
                0 <= i < rows.len() ==> ((rows[i].1 == 0 && #[trigger] sides[i] == Side::Black) || (
                rows[i].1 == 1 && sides[i] == Side::White)),
            Err(error) => exists|i: int|
                0 <= i < rows.len() && error == ErrorView::SideValue((#[trigger] rows[i]).1 as int)
                    && rows[i].1 != 0 && rows[i].1 != 1 && forall|j: int|
                    0 <= j < i ==> (#[trigger] rows[j]).1 == 0 || rows[j].1 == 1,
        },
    decreases rows.len(),
{
    if rows.len() > 0 {
        let front = rows.drop_last();
        law_candidates_have_their_own_sides(front);
        side::law_nothing_else_names_a_side(rows.last().1 as int, 'b');
        match candidate_sides(front) {
            Ok(sides) => {
                assert forall|j: int| 0 <= j < front.len() implies (#[trigger] rows[j]).1 == 0
                    || rows[j].1 == 1 by {
                    assert(front[j] == rows[j]);
                    assert((front[j].1 == 0 && sides[j] == Side::Black) || (front[j].1 == 1
                        && sides[j] == Side::White));
                }
                if side::side_of_value(rows.last().1 as int) is Err {
                    assert(rows[rows.len() - 1] == rows.last());
                } else {
                    let all = candidate_sides(rows)->Ok_0;
                    assert forall|i: int| 0 <= i < rows.len() implies ((rows[i].1 == 0
                        && #[trigger] all[i] == Side::Black) || (rows[i].1 == 1 && all[i]
                        == Side::White)) by {
                        if i < front.len() {
                            assert(all[i] == sides[i]);
                            assert(front[i] == rows[i]);
                        }
                    }
                }
            },
            Err(error) => {
                let i = choose|i: int|
                    0 <= i < front.len() && error == ErrorView::SideValue(
                        (#[trigger] front[i]).1 as int,
                    ) && front[i].1 != 0 && front[i].1 != 1 && forall|j: int|
                        0 <= j < i ==> (#[trigger] front[j]).1 == 0 || front[j].1 == 1;
                assert(rows[i] == front[i]);
                assert forall|j: int| 0 <= j < i implies (#[trigger] rows[j]).1 == 0 || rows[j].1
                    == 1 by {
                    assert(front[j] == rows[j]);
                }
            },
        }
    }
}

/// An analysis begins a pass whenever its limit, if it has one, is not reached; the pass reads
/// on behind the positions tried in vain. It tries whatever it has read, ends when it has read
/// nothing, and after trying goes on: behind the positions just tried if they were all in
/// vain, and from the first one again otherwise.
pub proof fn law_analysis_goes_on_while_it_can(
    state: PassState,
    max_passes: Option<u64>,
    rows: u64,
    solved: u64,
)
    ensures
        (max_passes is None || state.pass < max_passes->0) ==> pass_choice(
            state,
            max_passes,
            PassEvent::Ready,
        ) == (
            (state.pass + 1) as nat,
            state.tried as nat,
            PassAction::Fetch { offset: state.tried },
        ),
        (max_passes is Some && state.pass >= max_passes->0) ==> pass_choice(
            state,
            max_passes,
            PassEvent::Ready,
        ) == (state.pass as nat, state.tried as nat, PassAction::Stop),
        pass_choice(state, max_passes, PassEvent::Fetched { rows }) == (
            state.pass as nat,
            state.tried as nat,
            if rows == 0 {
                PassAction::Stop
            } else {
                PassAction::Solve
            },
        ),
        pass_choice(state, max_passes, PassEvent::Committed { rows, solved }) == (
            state.pass as nat,
            if solved == 0 {
                (state.tried + rows) as nat
            } else {
                0
            },
            PassAction::Continue,
        ),
{
}

/// A pass is reported with its own number and the number of values that it found; that there
/// was nothing to try is said only where no position was tried before.
pub proof fn law_passes_are_reported(state: PassState, rows: u64, solved: u64, line: String)
    ensures
        pass_line(state, PassEvent::Committed { rows, solved }) == Some(
            "retrograde pass "@ + text::decimal(state.pass as nat) + ": solved "@ + text::decimal(
                solved as nat,
            ),
        ),
        pass_line(state, PassEvent::Ready) is None,
        pass_line(state, PassEvent::Fetched { rows }) == if rows == 0 && state.tried == 0 {
            Some("no unsolved candidates found"@)
        } else {
            None
        },
        line_text(Some(line)) == Some(line@),
        line_text(None) is None,
{
}

} // verus!
