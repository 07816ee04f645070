//! What retrograde analysis comes to: it ends, and it leaves nothing unsolved that can be
//! solved, however much of the tree is searched and however few positions a pass tries.
use vstd::prelude::*;

use crate::error::ErrorView;
use crate::key;
use crate::results;
use crate::retrograde;
use crate::retrograde::{PassAction, PassEvent, PassState};
use crate::search::ActionView;
use crate::side;
use crate::side::Side;
use crate::tables;
use crate::tables::Tables;
use crate::tree;

verus! {

/// Whether a stored position has no value.
pub open spec fn unsolved(t: Tables, key: Seq<char>) -> bool {
    t.positions.contains_key(key) && t.positions[key].value_black is None
}

/// Whether a stored position has moves, all of them stored, and every position one move on
/// has a value.
pub open spec fn moves_solved(t: Tables, key: Seq<char>) -> bool {
    &&& t.positions.contains_key(key)
    &&& t.positions[key].expanded
    &&& !tables::board_at(key).finished()
    &&& forall|i: int|
        0 <= i < tree::children(tables::board_at(key)).len() ==> t.positions[key::key_text(
            (#[trigger] tree::children(tables::board_at(key))[i]).1,
        )].value_black is Some
}

/// Whether a position without a value can be given one.
pub open spec fn solvable(t: Tables, key: Seq<char>) -> bool {
    unsolved(t, key) && moves_solved(t, key)
}

/// The tables after a position was tried.
pub open spec fn after_try(t: Tables, key: Seq<char>) -> Tables {
    if solvable(t, key) {
        retrograde::with_exact_value(t, key)
    } else {
        t
    }
}

/// Trying a position without a value: the value that its moves give is stored where there is
/// one, and that is so exactly where the position can be solved.
pub proof fn law_trying_solves_what_is_solvable(
    t: Tables,
    key: Seq<char>,
    values: Seq<Option<i64>>,
    side: Side,
    value: Option<i64>,
)
    requires
        tables::sound(t),
        unsolved(t, key),
        side::side_of_value(t.positions[key].row.side) == Ok::<Side, ErrorView>(side),
        retrograde::lists_child_values(t, key, values),
        retrograde::is_parent_value(values, side, value),
    ensures
        value is Some == solvable(t, key),
        match value {
            Some(v) => tables::perform(t, ActionView::SetValue { key, value_black: v as int })
                == Some(after_try(t, key)),
            None => after_try(t, key) == t,
        },
        tables::sound(after_try(t, key)),
{
    retrograde::law_position_is_solved_once_its_moves_are(t, key, values, side, value);
    if value is Some {
        retrograde::law_solving_keeps_tables_sound(t, key, values, side, value->0);
        retrograde::law_retrograde_value_is_exact(t, key, values, side, value->0);
    }
}

/// Whether a position was tried and got no value.
pub open spec fn tried_in_vain(t: Tables, key: Seq<char>) -> bool {
    exists|values: Seq<Option<i64>>, side: Side|
        #![trigger retrograde::is_parent_value(values, side, None)]
        retrograde::lists_child_values(t, key, values) && retrograde::is_parent_value(
            values,
            side,
            None,
        )
}

/// Where every position without a value was tried in vain, none of them can be solved: every
/// stored position whose moves all have values has one itself.
pub proof fn law_nothing_solvable_is_left(t: Tables)
    requires
        tables::sound(t),
        forall|k: Seq<char>| #[trigger] unsolved(t, k) ==> tried_in_vain(t, k),
    ensures
        forall|k: Seq<char>| !#[trigger] solvable(t, k),
        forall|k: Seq<char>| #[trigger]
            moves_solved(t, k) ==> t.positions[k].value_black is Some,
{
    assert forall|k: Seq<char>| !#[trigger] solvable(t, k) by {
        if unsolved(t, k) {
            let (values, side) = choose|values: Seq<Option<i64>>, side: Side|
                #![trigger retrograde::is_parent_value(values, side, None)]
                retrograde::lists_child_values(t, k, values) && retrograde::is_parent_value(
                    values,
                    side,
                    None,
                );
            retrograde::law_position_is_solved_once_its_moves_are(t, k, values, side, None);
        }
    }
    assert forall|k: Seq<char>| #[trigger] moves_solved(t, k) implies t.positions[k].value_black
        is Some by {
        assert(!solvable(t, k));
    }
}

/// The tables after the positions under a list of keys were tried one after the other.
pub open spec fn after_tries(t: Tables, keys: Seq<Seq<char>>) -> Tables
    decreases keys.len(),
{
    if keys.len() == 0 {
        t
    } else {
        after_try(after_tries(t, keys.drop_last()), keys.last())
    }
}

/// The number of values that trying them finds.
pub open spec fn solved_count(t: Tables, keys: Seq<Seq<char>>) -> nat
    decreases keys.len(),
{
    if keys.len() == 0 {
        0
    } else {
        solved_count(t, keys.drop_last()) + if solvable(
            after_tries(t, keys.drop_last()),
            keys.last(),
        ) {
            1nat
        } else {
            0nat
        }
    }
}

/// Whether `list` names every position without a value once.
pub open spec fn lists_unsolved(t: Tables, list: Seq<Seq<char>>) -> bool {
    &&& list.no_duplicates()
    &&& forall|k: Seq<char>| #[trigger] list.contains(k) == unsolved(t, k)
}

/// Whether `order` puts the positions without a value in a row, for any sound tables.
pub open spec fn is_order(order: spec_fn(Tables) -> Seq<Seq<char>>) -> bool {
    forall|t: Tables| tables::sound(t) ==> lists_unsolved(t, #[trigger] order(t))
}

/// At most `batch` entries of a list, past the first `offset`.
pub open spec fn window(list: Seq<Seq<char>>, offset: nat, batch: nat) -> Seq<Seq<char>> {
    if offset >= list.len() {
        Seq::empty()
    } else if offset + batch >= list.len() {
        list.subrange(offset as int, list.len() as int)
    } else {
        list.subrange(offset as int, (offset + batch) as int)
    }
}

/// The tables and the number of positions tried in vain after `passes` passes, each over the
/// next `batch` positions without a value, in the given order.
pub open spec fn after_passes(
    t: Tables,
    order: spec_fn(Tables) -> Seq<Seq<char>>,
    batch: nat,
    passes: nat,
) -> (Tables, nat)
    decreases passes,
{
    if passes == 0 {
        (t, 0)
    } else {
        let (u, tried) = after_passes(t, order, batch, (passes - 1) as nat);
        let keys = window(order(u), tried, batch);
        (
            after_tries(u, keys),
            retrograde::next_tried(tried, keys.len(), solved_count(u, keys)),
        )
    }
}

/// Whether an analysis has no positions left to try after `passes` passes.
pub open spec fn is_over(
    t: Tables,
    order: spec_fn(Tables) -> Seq<Seq<char>>,
    batch: nat,
    passes: nat,
) -> bool {
    let (u, tried) = after_passes(t, order, batch, passes);
    window(order(u), tried, batch).len() == 0
}

/// The passes are those that [`retrograde::retrograde_command`] decides on: without a limit
/// it fetches past the positions tried in vain, stops exactly when there are none left, and
/// counts those tried in vain as the passes do.
pub proof fn law_passes_follow_the_choices(
    t: Tables,
    order: spec_fn(Tables) -> Seq<Seq<char>>,
    batch: nat,
    passes: nat,
    state: PassState,
    rows: u64,
    solved: u64,
)
    requires
        ({
            let (u, tried) = after_passes(t, order, batch, passes);
            let keys = window(order(u), tried, batch);
            state.tried == tried && rows == keys.len() && solved == solved_count(u, keys)
        }),
    ensures
        retrograde::pass_choice(state, None, PassEvent::Ready).2 == (PassAction::Fetch {
            offset: state.tried,
        }),
        retrograde::pass_choice(state, None, PassEvent::Fetched { rows }).2
            == if is_over(t, order, batch, passes) {
            PassAction::Stop
        } else {
            PassAction::Solve
        },
        retrograde::pass_choice(state, None, PassEvent::Committed { rows, solved }).1
            == after_passes(t, order, batch, passes + 1).1,
        retrograde::pass_choice(state, None, PassEvent::Committed { rows, solved }).2
            == PassAction::Continue,
{
}

/// Trying positions keeps the tables sound and only takes positions from those without a
/// value, as many as values are found.
proof fn lemma_tries(t: Tables, keys: Seq<Seq<char>>)
    requires
        tables::sound(t),
    ensures
        tables::sound(after_tries(t, keys)),
        forall|k: Seq<char>| #[trigger] unsolved(after_tries(t, keys), k) ==> unsolved(t, k),
        solved_count(t, keys) == 0 ==> after_tries(t, keys) == t,
        solved_count(t, keys) == 0 ==> forall|i: int|
            0 <= i < keys.len() ==> !solvable(t, #[trigger] keys[i]),
        solved_count(t, keys) > 0 ==> exists|k: Seq<char>|
            #[trigger] unsolved(t, k) && !unsolved(after_tries(t, keys), k),
    decreases keys.len(),
{
    if keys.len() > 0 {
        let front = keys.drop_last();
        let between = after_tries(t, front);
        let after = after_tries(t, keys);
        lemma_tries(t, front);
        if solvable(between, keys.last()) {
            retrograde::lemma_store_exact_value(between, keys.last());
            assert(unsolved(between, keys.last()));
            assert(unsolved(t, keys.last()) && !unsolved(after, keys.last()));
        }
        assert forall|k: Seq<char>| #[trigger] unsolved(after, k) implies unsolved(t, k) by {
            assert(unsolved(between, k));
        }
        if solved_count(t, keys) == 0 {
            assert forall|i: int| 0 <= i < keys.len() implies !solvable(t, #[trigger] keys[i]) by {
                if i < front.len() {
                    assert(front[i] == keys[i]);
                }
            }
        } else if solved_count(t, front) > 0 {
            let k = choose|k: Seq<char>| #[trigger] unsolved(t, k) && !unsolved(between, k);
            assert(unsolved(t, k) && !unsolved(after, k));
        }
    }
}

/// At any time of an analysis the tables are sound, and none of the positions counted as
/// tried in vain can be solved.
proof fn lemma_passes(
    t: Tables,
    order: spec_fn(Tables) -> Seq<Seq<char>>,
    batch: nat,
    passes: nat,
)
    requires
        tables::sound(t),
        is_order(order),
    ensures
        ({
            let (u, tried) = after_passes(t, order, batch, passes);
            &&& tables::sound(u)
            &&& tried <= order(u).len()
            &&& forall|i: int| 0 <= i < tried ==> !solvable(u, #[trigger] order(u)[i])
        }),
    decreases passes,
{
    if passes > 0 {
        let before = (passes - 1) as nat;
        lemma_passes(t, order, batch, before);
        let (u, tried) = after_passes(t, order, batch, before);
        let keys = window(order(u), tried, batch);
        let (v, now) = after_passes(t, order, batch, passes);
        lemma_tries(u, keys);
        if solved_count(u, keys) == 0 {
            assert forall|i: int| 0 <= i < now implies !solvable(v, #[trigger] order(v)[i]) by {
                if i >= tried {
                    assert(keys[i - tried] == order(u)[i]);
                }
            }
        }
    }
}

/// Retrograde analysis leaves nothing unsolved that can be solved: once it has no positions
/// left to try, every stored position whose moves are all stored with values has its value,
/// in a partial database as in a complete one.
pub proof fn law_analysis_leaves_nothing_solvable(
    t: Tables,
    order: spec_fn(Tables) -> Seq<Seq<char>>,
    batch: nat,
    passes: nat,
)
    requires
        tables::sound(t),
        is_order(order),
        batch >= 1,
        is_over(t, order, batch, passes),
    ensures
        tables::sound(after_passes(t, order, batch, passes).0),
        forall|k: Seq<char>| !#[trigger] solvable(after_passes(t, order, batch, passes).0, k),
        forall|k: Seq<char>| #[trigger]
            moves_solved(after_passes(t, order, batch, passes).0, k) ==> after_passes(
                t,
                order,
                batch,
                passes,
            ).0.positions[k].value_black is Some,
{
    lemma_passes(t, order, batch, passes);
    let (u, tried) = after_passes(t, order, batch, passes);
    assert(tried == order(u).len());
    assert forall|k: Seq<char>| !#[trigger] solvable(u, k) by {
        if unsolved(u, k) {
            assert(order(u).contains(k));
            let i = order(u).index_of(k);
            assert(!solvable(u, order(u)[i]));
        }
    }
    assert forall|k: Seq<char>| #[trigger] moves_solved(u, k) implies u.positions[k].value_black
        is Some by {
        assert(!solvable(u, k));
    }
}

/// Retrograde analysis comes to an end: after some number of passes there are no positions
/// left to try.
pub proof fn law_analysis_comes_to_an_end(
    t: Tables,
    order: spec_fn(Tables) -> Seq<Seq<char>>,
    batch: nat,
)
    requires
        tables::sound(t),
        is_order(order),
    ensures
        exists|passes: nat| is_over(t, order, batch, passes),
{
    let passes = lemma_end(t, order, batch, 0);
    assert(is_over(t, order, batch, passes));
}

/// From any pass of an analysis on there is one after which it is over.
proof fn lemma_end(
    t: Tables,
    order: spec_fn(Tables) -> Seq<Seq<char>>,
    batch: nat,
    passes: nat,
) -> (end: nat)
    requires
        tables::sound(t),
        is_order(order),
    ensures
        is_over(t, order, batch, end),
    decreases
        order(after_passes(t, order, batch, passes).0).len(),
        order(after_passes(t, order, batch, passes).0).len() - after_passes(
            t,
            order,
            batch,
            passes,
        ).1,
{
    lemma_passes(t, order, batch, passes);
    lemma_passes(t, order, batch, passes + 1);
    let (u, tried) = after_passes(t, order, batch, passes);
    let keys = window(order(u), tried, batch);
    if keys.len() == 0 {
        passes
    } else {
        let (v, now) = after_passes(t, order, batch, passes + 1);
        lemma_tries(u, keys);
        if solved_count(u, keys) > 0 {
            let k = choose|k: Seq<char>| #[trigger] unsolved(u, k) && !unsolved(v, k);
            lemma_fewer(u, v, order(u), order(v), k);
        }
        lemma_end(t, order, batch, passes + 1)
    }
}

/// Fewer positions are without a value when one of them got one and no other lost its own.
proof fn lemma_fewer(
    u: Tables,
    v: Tables,
    before: Seq<Seq<char>>,
    after: Seq<Seq<char>>,
    key: Seq<char>,
)
    requires
        lists_unsolved(u, before),
        lists_unsolved(v, after),
        forall|k: Seq<char>| #[trigger] unsolved(v, k) ==> unsolved(u, k),
        unsolved(u, key),
        !unsolved(v, key),
    ensures
        after.len() < before.len(),
{
    before.unique_seq_to_set();
    after.unique_seq_to_set();
    let (a, b) = (after.to_set(), before.to_set());
    assert forall|k: Seq<char>| a.contains(k) implies b.remove(key).contains(k) by {
        assert(after.contains(k));
        assert(unsolved(v, k));
        assert(before.contains(k));
    }
    assert(before.contains(key));
    vstd::set_lib::lemma_len_subset(a, b.remove(key));
}

/// Once the search is complete and nothing solvable is left, every position has its value.
pub proof fn law_complete_search_is_solved(t: Tables, key: Seq<char>)
    requires
        tables::sound(t),
        results::is_complete(t),
        forall|k: Seq<char>| !#[trigger] solvable(t, k),
        t.positions.contains_key(key),
    ensures
        t.positions[key].value_black is Some,
    decreases tree::height(tables::board_at(key)),
{
    let record = t.positions[key];
    let board = tables::board_at(key);
    let moves = tree::children(board);
    assert(tables::entry_sound(key, record));
    assert(tables::entry_queued(t, key, record));
    assert(tables::entry_charted(t, key, record));
    if !board.finished() {
        assert forall|i: int| 0 <= i < moves.len() implies t.positions[key::key_text(
            (#[trigger] moves[i]).1,
        )].value_black is Some by {
            let child = key::key_text(moves[i].1);
            assert(t.edges.contains((key, moves[i].0, child)));
            assert(tables::edge_sound(t, (key, moves[i].0, child)));
            key::law_key_round_trip(moves[i].1);
            tree::law_moves_lead_towards_the_end(board);
            assert(tree::height(moves[i].1) < tree::height(board));
            law_complete_search_is_solved(t, child);
        }
        assert(moves_solved(t, key));
        assert(!solvable(t, key));
    }
}

} // verus!
