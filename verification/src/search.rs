//! One step of the full search: what processing a stored position does to the
//! database tables.
use num_bigint::BigUint;
use vstd::prelude::*;

use crate::board::Board;
use crate::count;
use crate::count::{big_clone, big_eq, big_lt, big_sub, big_to_string, parse_big};
use crate::error::{Error, ErrorView};
use crate::key;
use crate::side::Side;
use crate::squares;
use crate::squares::bits;
use crate::text;
use crate::text::append_hex;
use crate::tree;
use crate::tree::PASS_MOVE;

verus! {

/// A row of the `positions` table as it is first inserted.
pub struct PositionRow {
    pub key: String,
    pub black_hex: String,
    pub white_hex: String,
    pub side: i64,
    pub empties: i64,
}

/// The content of a [`PositionRow`].
pub struct PositionRowView {
    pub key: Seq<char>,
    pub black_hex: Seq<char>,
    pub white_hex: Seq<char>,
    pub side: int,
    pub empties: int,
}

impl View for PositionRow {
    type V = PositionRowView;

    open spec fn view(&self) -> PositionRowView {
        PositionRowView {
            key: self.key@,
            black_hex: self.black_hex@,
            white_hex: self.white_hex@,
            side: self.side as int,
            empties: self.empties as int,
        }
    }
}

/// The row under which a position is inserted.
pub open spec fn row_of(board: Board) -> PositionRowView {
    PositionRowView {
        key: key::key_text(board),
        black_hex: text::hex_text(board.black as nat, 16),
        white_hex: text::hex_text(board.white as nat, 16),
        side: board.side.value(),
        empties: 64 - board.discs().len(),
    }
}

/// The row under which a position is inserted.
pub fn position_row(board: Board) -> (row: PositionRow)
    ensures
        row@ == row_of(board),
        row.black_hex@ == text::hex_text(board.black as nat, 16),
        row.white_hex@ == text::hex_text(board.white as nat, 16),
        row.key@ == key::key_text(board),
{
    let mut black_hex = String::new();
    append_hex(&mut black_hex, board.black, 16);
    let mut white_hex = String::new();
    append_hex(&mut white_hex, board.white, 16);
    PositionRow {
        key: board.key(),
        black_hex,
        white_hex,
        side: board.side.to_i64(),
        empties: board.empties() as i64,
    }
}

/// A change to the database tables. The changes of one step are made in order, in one
/// transaction.
pub enum Action {
    /// Insert a position unless its key is there; both counts start at zero.
    InsertPosition(PositionRow),
    /// Store the reach count of a position.
    SetReach { key: String, count: String },
    /// Add to the reach count of a position, as [`count::add_reach_count`] does, and
    /// put the position on the frontier.
    AddReach { key: String, delta: BigUint },
    /// Store the propagated count of a position.
    SetPropagated { key: String, count: String },
    /// Insert an edge unless it is there; both its ends must be stored.
    InsertEdge { parent: String, mv: i32, child: String },
    /// Mark a position as terminal and expanded, without legal moves, with its value.
    MarkTerminal { key: String, value_black: i64 },
    /// Add to a score bucket, as [`count::add_terminal_paths`] does; a new bucket gets
    /// the result label.
    AddTerminalPaths { black_discs: u8, white_discs: u8, result: String, delta: BigUint },
    /// Mark a position as expanded and not terminal, with its number of legal moves.
    MarkExpanded { key: String, legal_moves: i64 },
    /// Store the exact value of a position.
    SetValue { key: String, value_black: i64 },
    /// Put a stored position on the frontier.
    EnterFrontier { key: String },
    /// Take a position off the frontier.
    LeaveFrontier { key: String },
}

/// The content of an [`Action`].
pub enum ActionView {
    InsertPosition(PositionRowView),
    SetReach { key: Seq<char>, count: Seq<char> },
    AddReach { key: Seq<char>, delta: nat },
    SetPropagated { key: Seq<char>, count: Seq<char> },
    InsertEdge { parent: Seq<char>, mv: int, child: Seq<char> },
    MarkTerminal { key: Seq<char>, value_black: int },
    AddTerminalPaths { black_discs: int, white_discs: int, result: Seq<char>, delta: nat },
    MarkExpanded { key: Seq<char>, legal_moves: int },
    SetValue { key: Seq<char>, value_black: int },
    EnterFrontier { key: Seq<char> },
    LeaveFrontier { key: Seq<char> },
}

impl View for Action {
    type V = ActionView;

    open spec fn view(&self) -> ActionView {
        match *self {
            Action::InsertPosition(row) => ActionView::InsertPosition(row@),
            Action::SetReach { key, count } => ActionView::SetReach { key: key@, count: count@ },
            Action::AddReach { key, delta } => ActionView::AddReach {
                key: key@,
                delta: count::big_value(delta),
            },
            Action::SetPropagated { key, count } => ActionView::SetPropagated {
                key: key@,
                count: count@,
            },
            Action::InsertEdge { parent, mv, child } => ActionView::InsertEdge {
                parent: parent@,
                mv: mv as int,
                child: child@,
            },
            Action::MarkTerminal { key, value_black } => ActionView::MarkTerminal {
                key: key@,
                value_black: value_black as int,
            },
            Action::AddTerminalPaths {
                black_discs,
                white_discs,
                result,
                delta,
            } => ActionView::AddTerminalPaths {
                black_discs: black_discs as int,
                white_discs: white_discs as int,
                result: result@,
                delta: count::big_value(delta),
            },
            Action::MarkExpanded { key, legal_moves } => ActionView::MarkExpanded {
                key: key@,
                legal_moves: legal_moves as int,
            },
            Action::SetValue { key, value_black } => ActionView::SetValue {
                key: key@,
                value_black: value_black as int,
            },
            Action::EnterFrontier { key } => ActionView::EnterFrontier { key: key@ },
            Action::LeaveFrontier { key } => ActionView::LeaveFrontier { key: key@ },
        }
    }
}

/// The contents of a list of actions.
pub open spec fn script(actions: Seq<Action>) -> Seq<ActionView> {
    Seq::new(actions.len(), |i: int| actions[i]@)
}

/// The label of a final score.
pub open spec fn result_text(black_discs: int, white_discs: int) -> Seq<char> {
    if black_discs > white_discs {
        "black"@
    } else if white_discs > black_discs {
        "white"@
    } else {
        "draw"@
    }
}

/// The label of a final score: who has more discs.
pub fn result_label(black_discs: u8, white_discs: u8) -> (label: String)
    ensures
        label@ == result_text(black_discs as int, white_discs as int),
{
    if black_discs > white_discs {
        "black".to_owned()
    } else if white_discs > black_discs {
        "white".to_owned()
    } else {
        "draw".to_owned()
    }
}

/// The actions that set up a database that holds `count` positions: an empty one gets
/// the starting position, reached by one path and on the frontier.
pub open spec fn seed_script(count: int) -> Seq<ActionView> {
    let start = Board::start();
    if count == 0 {
        seq![
            ActionView::InsertPosition(row_of(start)),
            ActionView::SetReach { key: key::key_text(start), count: "1"@ },
            ActionView::EnterFrontier { key: key::key_text(start) },
        ]
    } else {
        Seq::empty()
    }
}

/// The actions that set up a database that holds `count` positions.
pub fn ensure_initial(count: i64) -> (actions: Vec<Action>)
    ensures
        script(actions@) == seed_script(count as int),
{
    let mut actions: Vec<Action> = Vec::new();
    if count == 0 {
        let initial = Board::initial();
        actions.push(Action::InsertPosition(position_row(initial)));
        actions.push(Action::SetReach { key: initial.key(), count: "1".to_owned() });
        actions.push(Action::EnterFrontier { key: initial.key() });
    }
    assert(script(actions@) =~= seed_script(count as int));
    actions
}

/// The actions for one move of an expanded position.
pub open spec fn child_script(parent: Seq<char>, child: (int, Board), delta: nat) -> Seq<
    ActionView,
> {
    seq![
        ActionView::InsertPosition(row_of(child.1)),
        ActionView::InsertEdge { parent, mv: child.0, child: key::key_text(child.1) },
        ActionView::AddReach { key: key::key_text(child.1), delta },
    ]
}

/// The actions for a list of moves of an expanded position.
pub open spec fn children_script(parent: Seq<char>, moves: Seq<(int, Board)>, delta: nat) -> Seq<
    ActionView,
>
    decreases moves.len(),
{
    if moves.len() == 0 {
        Seq::empty()
    } else {
        children_script(parent, moves.drop_last(), delta) + child_script(
            parent,
            moves.last(),
            delta,
        )
    }
}

/// The actions that hand `delta` paths on from a position: to its score bucket when the
/// game is over there, and otherwise to every position one move on.
pub open spec fn expansion(key: Seq<char>, board: Board, reach: nat, delta: nat) -> Seq<ActionView> {
    let black = squares::squares(board.black).len() as int;
    let white = squares::squares(board.white).len() as int;
    let handed_on = if board.finished() {
        seq![
            ActionView::MarkTerminal { key, value_black: black - white },
            ActionView::AddTerminalPaths {
                black_discs: black,
                white_discs: white,
                result: result_text(black, white),
                delta,
            },
        ]
    } else {
        children_script(key, tree::children(board), delta).push(
            ActionView::MarkExpanded {
                key,
                legal_moves: squares::squares(board.legal_mask()).len() as int,
            },
        )
    };
    (seq![ActionView::SetPropagated { key, count: text::decimal(reach) }] + handed_on).push(
        ActionView::LeaveFrontier { key },
    )
}

/// The actions and the outcome of processing the position under `key`, whose reach and
/// propagated counts are stored as in `row`.
pub open spec fn step_script(key: Seq<char>, row: Option<(Seq<char>, Seq<char>)>) -> Result<
    (Seq<ActionView>, bool),
    ErrorView,
> {
    match pending_count(key, row) {
        Err(error) => Err(error),
        Ok(None) => Ok((seq![ActionView::LeaveFrontier { key }], false)),
        Ok(Some((reach, delta))) => match key::board_of_key(key) {
            Err(error) => Err(error),
            Ok(board) => Ok((expansion(key, board, reach, delta), true)),
        },
    }
}

/// The reach count of a position and the part of it that is not handed on yet, or none
/// where there is no such part.
pub open spec fn pending_count(key: Seq<char>, row: Option<(Seq<char>, Seq<char>)>) -> Result<
    Option<(nat, nat)>,
    ErrorView,
> {
    match row {
        None => Ok(None),
        Some((reach_text, propagated_text)) => match count::stored_count(reach_text) {
            Err(error) => Err(error),
            Ok(reach) => match count::stored_count(propagated_text) {
                Err(error) => Err(error),
                Ok(propagated) => if reach == propagated {
                    Ok(None)
                } else if reach < propagated {
                    Err(ErrorView::CountsReversed(key))
                } else {
                    Ok(Some((reach, (reach - propagated) as nat)))
                },
            },
        },
    }
}

/// The stored counts of a position taken by content.
pub open spec fn row_texts(row: Option<(String, String)>) -> Option<(Seq<char>, Seq<char>)> {
    match row {
        None => None,
        Some((reach, propagated)) => Some((reach@, propagated@)),
    }
}

/// A pending count taken by content.
pub open spec fn pending_outcome(result: Result<Option<(BigUint, BigUint)>, Error>) -> Result<
    Option<(nat, nat)>,
    ErrorView,
> {
    match result {
        Err(error) => Err(error@),
        Ok(None) => Ok(None),
        Ok(Some((reach, delta))) => Ok(Some((count::big_value(reach), count::big_value(delta)))),
    }
}

/// The reach count of a position and the part of it that is not handed on yet.
pub fn pending_paths(key: &str, row: &Option<(String, String)>) -> (pending: Result<
    Option<(BigUint, BigUint)>,
    Error,
>)
    ensures
        pending_outcome(pending) == pending_count(key@, row_texts(*row)),
{
    match row {
        None => Ok(None),
        Some((reach_text, propagated_text)) => {
            let reach = match parse_big(reach_text.as_str()) {
                Err(error) => {
                    return Err(error);
                },
                Ok(reach) => reach,
            };
            let propagated = match parse_big(propagated_text.as_str()) {
                Err(error) => {
                    return Err(error);
                },
                Ok(propagated) => propagated,
            };
            if big_eq(&reach, &propagated) {
                return Ok(None);
            }
            if big_lt(&reach, &propagated) {
                return Err(Error::CountsReversed(key.to_owned()));
            }
            let delta = big_sub(&reach, &propagated);
            Ok(Some((reach, delta)))
        },
    }
}

/// What processing a position comes to: the actions, and whether there was work to do.
pub struct Step {
    pub actions: Vec<Action>,
    pub did_work: bool,
}

/// A step taken by content.
pub open spec fn step_outcome(result: Result<Step, Error>) -> Result<
    (Seq<ActionView>, bool),
    ErrorView,
> {
    match result {
        Ok(step) => Ok((script(step.actions@), step.did_work)),
        Err(error) => Err(error@),
    }
}

/// Adds the actions for one move of an expanded position.
fn push_child(actions: &mut Vec<Action>, parent: &str, mv: i32, child: Board, delta: &BigUint)
    ensures
        script(final(actions)@) == script(old(actions)@) + child_script(
            parent@,
            (mv as int, child),
            count::big_value(*delta),
        ),
{
    actions.push(Action::InsertPosition(position_row(child)));
    actions.push(Action::InsertEdge { parent: parent.to_owned(), mv, child: child.key() });
    actions.push(Action::AddReach { key: child.key(), delta: big_clone(delta) });
    assert(script(actions@) =~= script(old(actions)@) + child_script(
        parent@,
        (mv as int, child),
        count::big_value(*delta),
    ));
}

/// Adds the actions for every move of a position in which the game is not over.
fn push_children(actions: &mut Vec<Action>, parent: &str, board: Board, moves: u64, delta: &BigUint)
    requires
        !board.finished(),
        moves == board.legal_mask(),
    ensures
        script(final(actions)@) == script(old(actions)@) + children_script(
            parent@,
            tree::children(board),
            count::big_value(*delta),
        ),
{
    let ghost all = tree::children(board);
    let ghost d = count::big_value(*delta);
    let ghost before = script(actions@);
    if moves == 0 {
        push_child(actions, parent, PASS_MOVE, board.pass(), delta);
        proof {
            assert(all.drop_last() =~= Seq::<(int, Board)>::empty());
            assert(children_script(parent@, all.drop_last(), d) =~= Seq::<ActionView>::empty());
            assert(children_script(parent@, all, d) =~= child_script(parent@, all.last(), d));
        }
        return;
    }
    let list = bits(moves);
    let mut i: usize = 0;
    proof {
        assert(all.subrange(0, 0) =~= Seq::<(int, Board)>::empty());
        assert(before =~= before + children_script(parent@, all.subrange(0, 0), d));
    }
    while i < list.len()
        invariant
            !board.finished(),
            moves == board.legal_mask(),
            moves != 0,
            list@ == squares::square_list(moves),
            all == tree::children(board),
            all.len() == list.len(),
            d == count::big_value(*delta),
            i <= list.len(),
            script(actions@) == before + children_script(parent@, all.subrange(0, i as int), d),
        decreases list.len() - i,
    {
        let square = list[i];
        proof {
            tree::lemma_legal_list(board);
            squares::lemma_square_list(moves);
            assert(board.legal(list@[i as int] as int));
            assert(all.subrange(0, i + 1).drop_last() =~= all.subrange(0, i as int));
            assert(all.subrange(0, i + 1).last() == all[i as int]);
        }
        push_child(actions, parent, square as i32, board.apply_move(square), delta);
        assert(script(actions@) =~= before + children_script(parent@, all.subrange(0, i + 1), d));
        i = i + 1;
    }
    assert(all.subrange(0, i as int) =~= all);
}

/// The actions of processing the position under `key`, whose reach and propagated counts
/// are stored as in `row`. A position that is not stored, or whose paths are all handed
/// on, only leaves the frontier.
pub fn process_position(key: &str, row: &Option<(String, String)>) -> (step: Result<Step, Error>)
    requires
        pending_count(key@, row_texts(*row)) matches Ok(Some(_)) ==> key::splits(key@),
    ensures
        step_outcome(step) == step_script(key@, row_texts(*row)),
{
    let mut actions: Vec<Action> = Vec::new();
    let (reach, delta) = match pending_paths(key, row) {
        Err(error) => {
            return Err(error);
        },
        Ok(None) => {
            actions.push(Action::LeaveFrontier { key: key.to_owned() });
            assert(script(actions@) =~= seq![ActionView::LeaveFrontier { key: key@ }]);
            return Ok(Step { actions, did_work: false });
        },
        Ok(Some(pending)) => pending,
    };
    let ghost d = count::big_value(delta);
    let ghost r = count::big_value(reach);
    actions.push(
        Action::SetPropagated { key: key.to_owned(), count: big_to_string(&reach) },
    );
    assert(script(actions@) =~= seq![
        ActionView::SetPropagated { key: key@, count: text::decimal(r) },
    ]);
    let board = match Board::from_key(key) {
        Err(error) => {
            return Err(error);
        },
        Ok(board) => board,
    };
    let moves = board.legal_moves();
    let opponent_moves = board.pass().legal_moves();
    let ghost before = script(actions@);
    proof {
        board.lemma_finished(moves, opponent_moves);
        squares::lemma_square_list(moves);
    }
    if moves == 0 && opponent_moves == 0 {
        let (black_discs, white_discs) = board.disc_counts();
        let value_black: i64 = black_discs as i64 - white_discs as i64;
        actions.push(Action::MarkTerminal { key: key.to_owned(), value_black });
        actions.push(
            Action::AddTerminalPaths {
                black_discs,
                white_discs,
                result: result_label(black_discs, white_discs),
                delta,
            },
        );
        actions.push(Action::LeaveFrontier { key: key.to_owned() });
        assert(script(actions@) =~= expansion(key@, board, r, d));
    } else {
        let legal_count: i64 = squares::count_squares(moves) as i64;
        push_children(&mut actions, key, board, moves, &delta);
        let ghost expanded = script(actions@);
        actions.push(Action::MarkExpanded { key: key.to_owned(), legal_moves: legal_count });
        actions.push(Action::LeaveFrontier { key: key.to_owned() });
        proof {
            let mark = ActionView::MarkExpanded { key: key@, legal_moves: legal_count as int };
            let leave = ActionView::LeaveFrontier { key: key@ };
            let moved = children_script(key@, tree::children(board), d);
            assert(script(actions@) =~= expanded.push(mark).push(leave));
            assert(expanded.push(mark) =~= before + moved.push(mark));
        }
        assert(script(actions@) =~= expansion(key@, board, r, d));
    }
    Ok(Step { actions, did_work: true })
}

/// A mask reads back from its sixteen hexadecimal digits.
proof fn lemma_mask_reads_back(mask: u64)
    ensures
        text::unsigned_value(
            text::bytes_of(text::hex_text(mask as nat, 16)),
            16,
            0xffff_ffff_ffff_ffff,
        ) == Some(mask as int),
{
    let digits = text::hex_text(mask as nat, 16);
    text::lemma_hex_ascii(mask as nat, 16);
    vstd::utf8::is_ascii_chars_encode_utf8(digits);
    text::lemma_hex_round_trip(mask, text::bytes_of(digits));
}

/// The columns of a row, whoever is to move: the black mask reads back from its column and
/// the white mask from its own, the key is these two columns and the letter of the player to
/// move, the side is 0 for Black and 1 for White, and the empty squares are those without a
/// disc.
pub proof fn law_row_describes_its_position(board: Board)
    ensures
        row_of(board).black_hex.len() == 16,
        row_of(board).white_hex.len() == 16,
        text::unsigned_value(
            text::bytes_of(row_of(board).black_hex),
            16,
            0xffff_ffff_ffff_ffff,
        ) == Some(board.black as int),
        text::unsigned_value(
            text::bytes_of(row_of(board).white_hex),
            16,
            0xffff_ffff_ffff_ffff,
        ) == Some(board.white as int),
        row_of(board).black_hex == text::hex_text(board.black as nat, 16),
        row_of(board).white_hex == text::hex_text(board.white as nat, 16),
        row_of(board).key == row_of(board).black_hex + row_of(board).white_hex + seq![
            match board.side {
                Side::Black => 'b',
                Side::White => 'w',
            },
        ],
        row_of(board).key == key::key_text(board),
        row_of(board).side == match board.side {
            Side::Black => 0int,
            Side::White => 1int,
        },
        row_of(board).empties == 64 - Set::new(
            |s: int| squares::holds(board.black, s) || squares::holds(board.white, s),
        ).len(),
{
    lemma_mask_reads_back(board.black);
    lemma_mask_reads_back(board.white);
    text::lemma_hex_ascii(board.black as nat, 16);
    text::lemma_hex_ascii(board.white as nat, 16);
    assert(row_of(board).key =~= row_of(board).black_hex + row_of(board).white_hex + seq![
        board.side.letter(),
    ]);
    assert(board.discs() =~= Set::new(
        |s: int| squares::holds(board.black, s) || squares::holds(board.white, s),
    ));
}

/// The content of a row is all that it holds, column by column.
pub proof fn law_row_content(row: PositionRow)
    ensures
        row@.key == row.key@,
        row@.black_hex == row.black_hex@,
        row@.white_hex == row.white_hex@,
        row@.side == row.side,
        row@.empties == row.empties,
{
}

/// The content of an action is all that it holds.
pub proof fn law_action_content(action: Action)
    ensures
        match action {
            Action::InsertPosition(row) => action@ == ActionView::InsertPosition(row@),
            Action::SetReach { key, count } => action@ == (ActionView::SetReach {
                key: key@,
                count: count@,
            }),
            Action::AddReach { key, delta } => action@ == (ActionView::AddReach {
                key: key@,
                delta: count::big_value(delta),
            }),
            Action::SetPropagated { key, count } => action@ == (ActionView::SetPropagated {
                key: key@,
                count: count@,
            }),
            Action::InsertEdge { parent, mv, child } => action@ == (ActionView::InsertEdge {
                parent: parent@,
                mv: mv as int,
                child: child@,
            }),
            Action::MarkTerminal { key, value_black } => action@ == (ActionView::MarkTerminal {
                key: key@,
                value_black: value_black as int,
            }),
            Action::AddTerminalPaths { black_discs, white_discs, result, delta } => action@ == (
            ActionView::AddTerminalPaths {
                black_discs: black_discs as int,
                white_discs: white_discs as int,
                result: result@,
                delta: count::big_value(delta),
            }),
            Action::MarkExpanded { key, legal_moves } => action@ == (ActionView::MarkExpanded {
                key: key@,
                legal_moves: legal_moves as int,
            }),
            Action::SetValue { key, value_black } => action@ == (ActionView::SetValue {
                key: key@,
                value_black: value_black as int,
            }),
            Action::EnterFrontier { key } => action@ == (ActionView::EnterFrontier { key: key@ }),
            Action::LeaveFrontier { key } => action@ == (ActionView::LeaveFrontier { key: key@ }),
        },
{
}

/// The contents of a list of actions are those of its actions, in their order, and a step and
/// its content agree on success and failure, actions and outcome.
pub proof fn law_step_content(actions: Seq<Action>, step: Result<Step, Error>)
    ensures
        script(actions).len() == actions.len(),
        forall|i: int| 0 <= i < actions.len() ==> #[trigger] script(actions)[i] == actions[i]@,
        step matches Ok(done) ==> step_outcome(step) == Ok::<(Seq<ActionView>, bool), ErrorView>(
            (script(done.actions@), done.did_work),
        ),
        step matches Err(error) ==> step_outcome(step) == Err::<
            (Seq<ActionView>, bool),
            ErrorView,
        >(error@),
{
}

/// The contents of stored counts and of pending counts are all that they hold.
pub proof fn law_pending_content(
    row: Option<(String, String)>,
    pending: Result<Option<(BigUint, BigUint)>, Error>,
)
    ensures
        row is None ==> row_texts(row) is None,
        row matches Some((reach, propagated)) ==> row_texts(row) == Some((reach@, propagated@)),
        pending matches Err(error) ==> pending_outcome(pending) == Err::<
            Option<(nat, nat)>,
            ErrorView,
        >(error@),
        pending matches Ok(None) ==> pending_outcome(pending) == Ok::<
            Option<(nat, nat)>,
            ErrorView,
        >(None),
        pending matches Ok(Some((reach, delta))) ==> pending_outcome(pending) == Ok::<
            Option<(nat, nat)>,
            ErrorView,
        >(Some((count::big_value(reach), count::big_value(delta)))),
{
}

/// A final score is labelled for the player with more discs, and as a draw exactly where both
/// have the same number.
pub proof fn law_label_is_that_of_the_winner(black: int, white: int)
    ensures
        (result_text(black, white) == "black"@) == (black > white),
        (result_text(black, white) == "white"@) == (white > black),
        (result_text(black, white) == "draw"@) == (black == white),
{
    reveal_strlit("black");
    reveal_strlit("white");
    reveal_strlit("draw");
    assert("black"@[0] == 'b' && "white"@[0] == 'w' && "draw"@[0] == 'd');
}

/// What is pending: the paths that reach a position less those handed on. There is nothing
/// where the position is not stored or both counts are the same number; counts that cannot be
/// read are refused, the reach count first, and so are more paths handed on than reach it.
pub proof fn law_pending_is_the_difference(
    key: Seq<char>,
    reach: Seq<char>,
    propagated: Seq<char>,
)
    ensures
        pending_count(key, None) == Ok::<Option<(nat, nat)>, ErrorView>(None),
        match (count::count_value(reach), count::count_value(propagated)) {
            (None, _) => pending_count(key, Some((reach, propagated))) == Err::<
                Option<(nat, nat)>,
                ErrorView,
            >(ErrorView::Count { value: reach, cause: count::count_fault(reach) }),
            (Some(_), None) => pending_count(key, Some((reach, propagated))) == Err::<
                Option<(nat, nat)>,
                ErrorView,
            >(ErrorView::Count { value: propagated, cause: count::count_fault(propagated) }),
            (Some(r), Some(p)) => pending_count(key, Some((reach, propagated))) == if r > p {
                Ok::<Option<(nat, nat)>, ErrorView>(Some((r, (r - p) as nat)))
            } else if r == p {
                Ok(None)
            } else {
                Err(ErrorView::CountsReversed(key))
            },
        },
{
}

/// A position without pending paths only leaves the frontier, whatever its key; one with
/// pending paths needs a key that stands for a position, and is then worked on.
pub proof fn law_steps_do_work_where_paths_are_pending(
    key: Seq<char>,
    row: Option<(Seq<char>, Seq<char>)>,
)
    ensures
        match pending_count(key, row) {
            Err(error) => step_script(key, row) == Err::<(Seq<ActionView>, bool), ErrorView>(error),
            Ok(None) => step_script(key, row) == Ok::<(Seq<ActionView>, bool), ErrorView>(
                (seq![ActionView::LeaveFrontier { key }], false),
            ),
            Ok(Some(_)) => match key::board_of_key(key) {
                Err(error) => step_script(key, row) == Err::<(Seq<ActionView>, bool), ErrorView>(
                    error,
                ),
                Ok(_) => step_script(key, row) matches Ok((_, did_work)) && did_work,
            },
        },
{
}

/// A finished game: all paths count as handed on, the position gets black discs less white
/// discs as its value, and the pending paths go to the bucket of exactly its disc counts,
/// under the label of its winner.
pub proof fn law_finished_games_go_to_their_bucket(
    key: Seq<char>,
    row: Option<(Seq<char>, Seq<char>)>,
    board: Board,
    reach: nat,
    delta: nat,
)
    requires
        pending_count(key, row) == Ok::<Option<(nat, nat)>, ErrorView>(Some((reach, delta))),
        key::board_of_key(key) == Ok::<Board, ErrorView>(board),
        board.finished(),
    ensures
        ({
            let black = squares::squares(board.black).len() as int;
            let white = squares::squares(board.white).len() as int;
            step_script(key, row) == Ok::<(Seq<ActionView>, bool), ErrorView>(
                (
                    seq![
                        ActionView::SetPropagated { key, count: text::decimal(reach) },
                        ActionView::MarkTerminal { key, value_black: black - white },
                        ActionView::AddTerminalPaths {
                            black_discs: black,
                            white_discs: white,
                            result: if black > white {
                                "black"@
                            } else if white > black {
                                "white"@
                            } else {
                                "draw"@
                            },
                            delta,
                        },
                        ActionView::LeaveFrontier { key },
                    ],
                    true,
                ),
            )
        }),
{
    let actions = step_script(key, row)->Ok_0.0;
    assert(actions.len() == 4);
    assert(actions =~= seq![actions[0], actions[1], actions[2], actions[3]]);
}

/// The actions for a list of moves are three for each, in order.
proof fn lemma_children_script(parent: Seq<char>, moves: Seq<(int, Board)>, delta: nat, i: int)
    requires
        0 <= i < moves.len(),
    ensures
        children_script(parent, moves, delta).len() == 3 * moves.len(),
        children_script(parent, moves, delta)[3 * i] == ActionView::InsertPosition(
            row_of(moves[i].1),
        ),
        children_script(parent, moves, delta)[3 * i + 1] == (ActionView::InsertEdge {
            parent,
            mv: moves[i].0,
            child: key::key_text(moves[i].1),
        }),
        children_script(parent, moves, delta)[3 * i + 2] == (ActionView::AddReach {
            key: key::key_text(moves[i].1),
            delta,
        }),
    decreases moves.len(),
{
    let front = moves.drop_last();
    let before = children_script(parent, front, delta);
    if front.len() > 0 {
        lemma_children_script(
            parent,
            front,
            delta,
            if i < front.len() {
                i
            } else {
                0
            },
        );
    }
    assert(before.len() == 3 * front.len());
    if i < front.len() {
        assert(front[i] == moves[i]);
    } else {
        assert(moves[i] == moves.last());
    }
}

/// A position in which the game goes on: all paths count as handed on, and for every move in
/// turn the position that it leads to is inserted, the edge is stored, and the pending paths
/// are added to it, no more and no less; then the number of legal squares is filled in.
pub proof fn law_paths_are_handed_on_along_every_move(
    key: Seq<char>,
    row: Option<(Seq<char>, Seq<char>)>,
    board: Board,
    reach: nat,
    delta: nat,
    i: int,
)
    requires
        pending_count(key, row) == Ok::<Option<(nat, nat)>, ErrorView>(Some((reach, delta))),
        key::board_of_key(key) == Ok::<Board, ErrorView>(board),
        !board.finished(),
        0 <= i < tree::children(board).len(),
    ensures
        step_script(key, row) matches Ok((actions, did_work)) && {
            let (mv, next) = tree::children(board)[i];
            let n = tree::children(board).len() as int;
            &&& did_work
            &&& actions.len() == 3 * n + 3
            &&& actions[0] == (ActionView::SetPropagated { key, count: text::decimal(reach) })
            &&& actions[3 * i + 1] == ActionView::InsertPosition(row_of(next))
            &&& actions[3 * i + 2] == (ActionView::InsertEdge {
                parent: key,
                mv,
                child: key::key_text(next),
            })
            &&& actions[3 * i + 3] == (ActionView::AddReach { key: key::key_text(next), delta })
            &&& actions[3 * n + 1] == (ActionView::MarkExpanded {
                key,
                legal_moves: squares::squares(board.legal_mask()).len() as int,
            })
            &&& actions[3 * n + 2] == (ActionView::LeaveFrontier { key })
        },
{
    lemma_children_script(key, tree::children(board), delta, i);
    let moved = children_script(key, tree::children(board), delta);
    let actions = step_script(key, row)->Ok_0.0;
    assert(actions[3 * i + 1] == moved[3 * i]);
    assert(actions[3 * i + 2] == moved[3 * i + 1]);
    assert(actions[3 * i + 3] == moved[3 * i + 2]);
}

/// An empty database is set up with the starting position, reached by one path and on the
/// frontier; one that holds positions is left alone, however many they are.
pub proof fn law_only_empty_databases_are_seeded(count: int)
    ensures
        count != 0 ==> seed_script(count).len() == 0,
        count == 0 ==> seed_script(count) == seq![
            ActionView::InsertPosition(row_of(Board::start())),
            ActionView::SetReach { key: key::key_text(Board::start()), count: "1"@ },
            ActionView::EnterFrontier { key: key::key_text(Board::start()) },
        ],
{
}

} // verus!
