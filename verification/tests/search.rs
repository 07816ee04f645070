use num_bigint::BigUint;
use othello_full_search::board::Board;
use othello_full_search::count::{add_reach_count, add_terminal_paths, parse_big, terminal_path_total};
use othello_full_search::error::Error;
use othello_full_search::perft::perft;
use othello_full_search::retrograde::{
    retrograde_command, retrograde_value, unsolved_candidates, PassAction, PassEvent, PassState,
};
use othello_full_search::search::{
    ensure_initial, pending_paths, position_row, process_position, result_label, Action,
    PositionRow,
};
use othello_full_search::side::Side;
use othello_full_search::squares::bits;
use othello_full_search::tree::PASS_MOVE;
use std::collections::{BTreeMap, BTreeSet};

struct Stored {
    side: i64,
    empties: i64,
    reach: String,
    propagated: String,
    terminal: bool,
    expanded: bool,
    legal_moves: Option<i64>,
    value: Option<i64>,
}

/// The tables of a database, in memory.
struct Store {
    positions: BTreeMap<String, Stored>,
    frontier: BTreeSet<String>,
    edges: BTreeSet<(String, i32, String)>,
    buckets: BTreeMap<(u8, u8), (String, String)>,
}

impl Store {
    fn empty() -> Store {
        Store {
            positions: BTreeMap::new(),
            frontier: BTreeSet::new(),
            edges: BTreeSet::new(),
            buckets: BTreeMap::new(),
        }
    }

    fn seeded() -> Store {
        let mut store = Store::empty();
        store.perform_all(ensure_initial(0));
        store
    }

    fn from_root(board: Board) -> Store {
        let mut store = Store::empty();
        store.perform(Action::InsertPosition(position_row(board)));
        store.perform(Action::SetReach { key: board.key(), count: "1".to_string() });
        store.perform(Action::EnterFrontier { key: board.key() });
        store
    }

    fn insert(&mut self, row: PositionRow) {
        self.positions.entry(row.key).or_insert(Stored {
            side: row.side,
            empties: row.empties,
            reach: "0".to_string(),
            propagated: "0".to_string(),
            terminal: false,
            expanded: false,
            legal_moves: None,
            value: None,
        });
    }

    fn at(&mut self, key: &str) -> &mut Stored {
        self.positions.get_mut(key).unwrap()
    }

    fn perform(&mut self, action: Action) {
        match action {
            Action::InsertPosition(row) => self.insert(row),
            Action::SetReach { key, count } => self.at(&key).reach = count,
            Action::AddReach { key, delta } => {
                let stored = self.at(&key);
                stored.reach = add_reach_count(&stored.reach, &delta).unwrap();
                self.frontier.insert(key);
            }
            Action::SetPropagated { key, count } => self.at(&key).propagated = count,
            Action::InsertEdge { parent, mv, child } => {
                assert!(self.positions.contains_key(&parent));
                assert!(self.positions.contains_key(&child));
                self.edges.insert((parent, mv, child));
            }
            Action::MarkTerminal { key, value_black } => {
                let stored = self.at(&key);
                stored.terminal = true;
                stored.expanded = true;
                stored.legal_moves = Some(0);
                stored.value = Some(value_black);
            }
            Action::AddTerminalPaths { black_discs, white_discs, result, delta } => {
                let score = (black_discs, white_discs);
                let old = self.buckets.get(&score).map(|bucket| bucket.1.clone());
                let next = add_terminal_paths(&old, &delta).unwrap();
                self.buckets.entry(score).or_insert((result, String::new())).1 = next;
            }
            Action::MarkExpanded { key, legal_moves } => {
                let stored = self.at(&key);
                stored.terminal = false;
                stored.expanded = true;
                stored.legal_moves = Some(legal_moves);
            }
            Action::SetValue { key, value_black } => self.at(&key).value = Some(value_black),
            Action::EnterFrontier { key } => {
                self.frontier.insert(key);
            }
            Action::LeaveFrontier { key } => {
                self.frontier.remove(&key);
            }
        }
    }

    fn perform_all(&mut self, actions: Vec<Action>) {
        for action in actions {
            self.perform(action);
        }
    }

    fn step(&mut self, key: &str) -> bool {
        let row = self.positions.get(key).map(|p| (p.reach.clone(), p.propagated.clone()));
        let step = process_position(key, &row).unwrap();
        self.perform_all(step.actions);
        assert!(!self.frontier.contains(key));
        step.did_work
    }

    /// Works the frontier off, from either end of it.
    fn run(&mut self, from_front: bool) {
        loop {
            let next = if from_front {
                self.frontier.iter().next().cloned()
            } else {
                self.frontier.iter().next_back().cloned()
            };
            match next {
                Some(key) => {
                    self.step(&key);
                }
                None => break,
            }
        }
    }

    fn child_values(&self, key: &str) -> Vec<Option<i64>> {
        let edges = self.edges.iter().filter(|edge| edge.0 == key);
        edges.map(|edge| self.positions[&edge.2].value).collect()
    }

    fn bucket_texts(&self) -> Vec<String> {
        self.buckets.values().map(|bucket| bucket.1.clone()).collect()
    }
}

/// A position with few empty squares, reached by always taking a middle move.
fn late_position(empties: u8) -> Board {
    let mut board = Board::initial();
    while board.empties() > empties {
        let moves = bits(board.legal_moves());
        board = match moves.get(moves.len() / 2) {
            Some(square) => board.apply_move(*square),
            None => board.pass(),
        };
    }
    board
}

fn minimax(board: Board) -> i64 {
    if board.is_terminal() {
        let (black, white) = board.disc_counts();
        return black as i64 - white as i64;
    }
    let moves = bits(board.legal_moves());
    if moves.is_empty() {
        return minimax(board.pass());
    }
    let values = moves.into_iter().map(|square| minimax(board.apply_move(square)));
    match board.side {
        Side::Black => values.max().unwrap(),
        Side::White => values.min().unwrap(),
    }
}

/// Counts for every position the paths that lead to it, by walking all of them.
fn count_paths(from: Board, counts: &mut BTreeMap<String, u64>) {
    *counts.entry(from.key()).or_insert(0) += 1;
    if from.is_terminal() {
        return;
    }
    let moves = bits(from.legal_moves());
    if moves.is_empty() {
        count_paths(from.pass(), counts);
    }
    for square in moves {
        count_paths(from.apply_move(square), counts);
    }
}

fn all_paths(root: Board) -> BTreeMap<String, u64> {
    let mut counts = BTreeMap::new();
    count_paths(root, &mut counts);
    counts
}

#[test]
fn empty_database_gets_the_starting_position() {
    let store = Store::seeded();
    let key = Board::initial().key();
    assert_eq!(store.positions.len(), 1);
    let stored = &store.positions[&key];
    assert_eq!((stored.side, stored.empties), (0, 60));
    assert_eq!((stored.reach.as_str(), stored.propagated.as_str()), ("1", "0"));
    assert!(!stored.expanded);
    assert!(store.frontier.contains(&key));
    assert_eq!(ensure_initial(1).len(), 0);
    assert_eq!(ensure_initial(-1).len(), 0);
}

#[test]
fn inserted_rows_describe_their_position() {
    let row = position_row(Board::initial().apply_move(19));
    assert_eq!(row.key, "00000008180800000000001000000000w");
    assert_eq!(row.black_hex, "0000000818080000");
    assert_eq!(row.white_hex, "0000001000000000");
    assert_eq!((row.side, row.empties), (1, 59));
}

#[test]
fn first_step_reaches_every_reply() {
    let start = Board::initial();
    let mut store = Store::seeded();
    assert!(store.step(&start.key()));
    assert_eq!(store.positions.len(), 5);
    assert_eq!(store.frontier.len(), 4);
    assert_eq!(store.edges.len(), 4);
    for square in bits(start.legal_moves()) {
        let child = start.apply_move(square).key();
        assert!(store.edges.contains(&(start.key(), square as i32, child.clone())));
        assert_eq!(store.positions[&child].reach, "1");
    }
    let stored = &store.positions[&start.key()];
    assert_eq!(stored.propagated, "1");
    assert_eq!(stored.legal_moves, Some(4));
    assert!(stored.expanded && !stored.terminal && stored.value.is_none());
    // A second step finds nothing to do.
    assert!(!store.step(&start.key()));
    assert_eq!(store.positions.len(), 5);
}

#[test]
fn reach_counts_of_a_level_add_up_to_the_leaf_count() {
    let mut store = Store::seeded();
    for depth in 1..6u8 {
        for key in store.frontier.clone() {
            assert!(store.step(&key));
        }
        let level = store.positions.values().filter(|p| p.empties == 60 - depth as i64);
        let total: BigUint = level.map(|p| parse_big(&p.reach).unwrap()).sum();
        assert_eq!(total, perft(Board::initial(), depth));
    }
}

#[test]
fn steps_change_what_is_stored_in_a_fixed_order() {
    let start = Board::initial();
    let row = Some(("3".to_string(), "1".to_string()));
    let step = process_position(&start.key(), &row).unwrap();
    assert!(step.did_work);
    assert_eq!(step.actions.len(), 15);
    match &step.actions[0] {
        Action::SetPropagated { key, count } => {
            assert_eq!(key, &start.key());
            assert_eq!(count, "3");
        }
        _ => panic!("propagated count first"),
    }
    match &step.actions[3] {
        Action::AddReach { key, delta } => {
            assert_eq!(key, &start.apply_move(19).key());
            assert_eq!(delta, &BigUint::from(2u8));
        }
        _ => panic!("reach of the first reply"),
    }
    assert!(matches!(&step.actions[13], Action::MarkExpanded { legal_moves: 4, .. }));
    assert!(matches!(&step.actions[14], Action::LeaveFrontier { .. }));
}

#[test]
fn a_pass_is_stored_as_a_move() {
    let board = Board { black: 1, white: 1 << 1, side: Side::White };
    let mut store = Store::from_root(board);
    assert!(store.step(&board.key()));
    let passed = board.pass().key();
    assert_eq!(PASS_MOVE, 64);
    assert!(store.edges.contains(&(board.key(), 64, passed.clone())));
    assert_eq!(store.positions[&board.key()].legal_moves, Some(0));
    assert!(!store.positions[&board.key()].terminal);
    assert!(store.step(&passed));
    // Black has taken everything: the game ends three discs to none.
    let last = board.pass().apply_move(2);
    assert!(store.step(&last.key()));
    assert_eq!(store.positions[&last.key()].value, Some(3));
    assert!(store.positions[&last.key()].terminal);
    assert_eq!(store.buckets[&(3, 0)], ("black".to_string(), "1".to_string()));
}

#[test]
fn positions_that_are_not_stored_leave_the_frontier() {
    let step = process_position("anything", &None).unwrap();
    assert!(!step.did_work);
    assert_eq!(step.actions.len(), 1);
    assert!(matches!(&step.actions[0], Action::LeaveFrontier { key } if key == "anything"));
}

#[test]
fn broken_rows_are_refused() {
    let key = Board::initial().key();
    let row = |reach: &str, propagated: &str| Some((reach.to_string(), propagated.to_string()));
    let reversed = process_position(&key, &row("1", "2")).err().unwrap();
    assert!(matches!(reversed, Error::CountsReversed(_)));
    assert_eq!(
        reversed.message(),
        format!("database invariant broken: propagated_count exceeds reach_count for {key}")
    );
    let unread = process_position(&key, &row("x", "y")).err().unwrap();
    assert_eq!(unread.message(), "invalid integer in database: x");
    let bad_key = process_position("abc", &row("1", "0")).err().unwrap();
    assert_eq!(bad_key.message(), "invalid key length: abc");
    // Without pending paths the key is not looked at.
    assert!(process_position("abc", &row("1", "1")).is_ok());
}

#[test]
fn pending_paths_are_the_difference() {
    let row = Some(("100000000000000000000".to_string(), "1".to_string()));
    let (reach, delta) = pending_paths("k", &row).unwrap().unwrap();
    assert_eq!(reach.to_string(), "100000000000000000000");
    assert_eq!(delta.to_string(), "99999999999999999999");
    let even = Some(("7".to_string(), "07".to_string()));
    assert!(pending_paths("k", &even).unwrap().is_none());
    assert!(pending_paths("k", &None).unwrap().is_none());
}

#[test]
fn scores_are_labelled() {
    assert_eq!(result_label(33, 31), "black");
    assert_eq!(result_label(31, 33), "white");
    assert_eq!(result_label(32, 32), "draw");
}

#[test]
fn complete_search_counts_every_path() {
    let root = late_position(6);
    let mut store = Store::from_root(root);
    store.run(true);
    let paths = all_paths(root);
    assert_eq!(store.positions.len(), paths.len());
    for (key, stored) in &store.positions {
        let board = Board::from_key(key).unwrap();
        assert_eq!(stored.reach, stored.propagated);
        assert_eq!(stored.reach, paths[key].to_string());
        assert_eq!(stored.terminal, board.is_terminal());
        assert!(stored.expanded);
    }
    let total = terminal_path_total(&store.bucket_texts()).unwrap();
    assert_eq!(total, perft(root, 255));
}

#[test]
fn order_of_processing_does_not_matter() {
    let root = late_position(6);
    let (mut first, mut second) = (Store::from_root(root), Store::from_root(root));
    first.run(true);
    // Interrupted after every few steps and taken up again from the other end.
    for _ in 0..10 {
        let key = second.frontier.iter().next().cloned().unwrap();
        second.step(&key);
    }
    second.run(false);
    assert_eq!(first.buckets, second.buckets);
    assert_eq!(first.edges, second.edges);
    let counts = |store: &Store| -> Vec<(String, String)> {
        store.positions.iter().map(|(key, p)| (key.clone(), p.reach.clone())).collect()
    };
    assert_eq!(counts(&first), counts(&second));
}

#[test]
fn reach_counts_are_what_the_parents_handed_on() {
    let root = late_position(5);
    let root_key = root.key();
    let mut store = Store::from_root(root);
    while let Some(key) = store.frontier.iter().next().cloned() {
        // Whatever is on the frontier has paths to hand on, and nothing else has.
        for (key, stored) in &store.positions {
            assert_eq!(store.frontier.contains(key), stored.reach != stored.propagated);
        }
        assert!(store.step(&key));
        let mut inflow: BTreeMap<&str, u64> = BTreeMap::new();
        inflow.insert(&root_key, 1);
        for (parent, _, child) in &store.edges {
            let handed_on = store.positions[parent].propagated.parse::<u64>().unwrap();
            *inflow.entry(child).or_insert(0) += handed_on;
        }
        for (key, stored) in &store.positions {
            assert_eq!(stored.reach.parse::<u64>().unwrap(), inflow[key.as_str()]);
            let board = Board::from_key(key).unwrap();
            let edges = store.edges.iter().filter(|edge| &edge.0 == key).count();
            let moves = bits(board.legal_moves()).len();
            let all = if board.is_terminal() { 0 } else { moves.max(1) };
            assert_eq!(edges, if stored.propagated == "0" { 0 } else { all });
        }
    }
}

#[test]
fn partial_search_never_counts_too_much() {
    let root = late_position(6);
    let mut store = Store::from_root(root);
    let paths = all_paths(root);
    let mut handed_on = 0u64;
    for _ in 0..30 {
        match store.frontier.iter().next_back().cloned() {
            Some(key) => {
                assert!(store.step(&key));
                let now: u64 =
                    store.positions.values().map(|p| p.propagated.parse::<u64>().unwrap()).sum();
                assert!(now > handed_on);
                handed_on = now;
            }
            None => break,
        }
        for (key, stored) in &store.positions {
            let reach = stored.reach.parse::<u64>().unwrap();
            assert!(1 <= reach && reach <= paths[key]);
        }
    }
    assert!(terminal_path_total(&store.bucket_texts()).unwrap() <= perft(root, 255));
}

/// Runs a retrograde analysis to its end; the number of passes begun and of values found.
fn analyse(store: &mut Store, batch: usize) -> (u64, u64) {
    let mut state = PassState { pass: 0, tried: 0 };
    let mut event = PassEvent::Ready;
    let mut candidates: Vec<(String, Side)> = Vec::new();
    let mut found = 0;
    loop {
        let step = retrograde_command(state, None, event);
        state = step.state;
        event = match step.action {
            PassAction::Fetch { offset } => {
                let mut unsolved: Vec<(i64, String, i64)> = store
                    .positions
                    .iter()
                    .filter(|(_, p)| p.value.is_none())
                    .map(|(key, p)| (p.empties, key.clone(), p.side))
                    .collect();
                unsolved.sort();
                let rows: Vec<(String, i64)> = unsolved
                    .into_iter()
                    .skip(offset as usize)
                    .take(batch)
                    .map(|(_, key, side)| (key, side))
                    .collect();
                candidates = unsolved_candidates(&rows).unwrap();
                PassEvent::Fetched { rows: candidates.len() as u64 }
            }
            PassAction::Solve => {
                let rows = candidates.len() as u64;
                let mut solved = 0;
                for (key, side) in candidates.drain(..) {
                    if let Some(value) = retrograde_value(&store.child_values(&key), side) {
                        store.perform(Action::SetValue { key, value_black: value });
                        solved += 1;
                    }
                }
                found += solved;
                PassEvent::Committed { rows, solved }
            }
            PassAction::Continue => PassEvent::Ready,
            PassAction::Stop => break,
        };
    }
    (state.pass, found)
}

/// Checks that stored values are exact and that none is missing that could be given.
fn check_values(store: &Store) {
    for (key, stored) in &store.positions {
        if let Some(value) = stored.value {
            assert_eq!(value, minimax(Board::from_key(key).unwrap()));
        } else {
            let values = store.child_values(key);
            assert!(values.is_empty() || values.contains(&None));
        }
    }
}

#[test]
fn retrograde_values_are_exact() {
    for batch in [1, 7, 1000] {
        let mut store = Store::from_root(late_position(5));
        store.run(true);
        analyse(&mut store, batch);
        check_values(&store);
        assert!(store.positions.values().all(|p| p.value.is_some()));
    }
}

#[test]
fn partial_databases_are_solved_as_far_as_they_go() {
    for batch in [1, 3, 1000] {
        let mut store = Store::from_root(late_position(6));
        for _ in 0..40 {
            let key = store.frontier.iter().next().cloned().unwrap();
            store.step(&key);
        }
        analyse(&mut store, batch);
        check_values(&store);
        // Another analysis finds nothing more.
        assert_eq!(analyse(&mut store, batch).1, 0);
        check_values(&store);
    }
}

#[test]
fn unexpanded_positions_do_not_block_the_others() {
    // An unexpanded position with few empty squares stands before one that can be solved.
    let board = Board { black: 1, white: 1 << 1, side: Side::Black };
    let blocking = Board { black: u64::MAX >> 2, white: 1 << 62, side: Side::Black };
    assert!(blocking.empties() < board.empties());
    let mut store = Store::from_root(board);
    store.run(true);
    store.perform(Action::InsertPosition(position_row(blocking)));
    let (passes, found) = analyse(&mut store, 1);
    assert_eq!(found, 1);
    assert_eq!(store.positions[&board.key()].value, Some(3));
    assert_eq!(store.positions[&blocking.key()].value, None);
    // The blocking row, the solvable one, the blocking row again, and none left.
    assert_eq!(passes, 4);
}

#[test]
fn forced_passes_do_not_block_the_others() {
    // Black must pass; the key of the pass sorts before that of the position it leads to.
    let board = Board { black: 1 << 1, white: 1, side: Side::Black };
    assert_eq!(board.legal_moves(), 0);
    assert!(board.key() < board.pass().key());
    let mut store = Store::from_root(board);
    store.run(true);
    analyse(&mut store, 1);
    assert_eq!(store.positions[&board.key()].value, Some(-3));
    assert_eq!(store.positions[&board.pass().key()].value, Some(-3));
}

#[test]
fn retrograde_value_needs_every_move() {
    assert_eq!(retrograde_value(&vec![], Side::Black), None);
    assert_eq!(retrograde_value(&vec![Some(4), None], Side::Black), None);
    assert_eq!(retrograde_value(&vec![None, Some(4)], Side::White), None);
    assert_eq!(retrograde_value(&vec![Some(-3)], Side::White), Some(-3));
    assert_eq!(retrograde_value(&vec![Some(2), Some(9), Some(-5)], Side::Black), Some(9));
    assert_eq!(retrograde_value(&vec![Some(2), Some(9), Some(-5)], Side::White), Some(-5));
    assert_eq!(retrograde_value(&vec![Some(i64::MIN), Some(i64::MAX)], Side::Black), Some(i64::MAX));
}

#[test]
fn candidates_keep_their_order() {
    let rows = vec![("a".to_string(), 0), ("b".to_string(), 1)];
    let candidates = unsolved_candidates(&rows).unwrap();
    assert_eq!(candidates, vec![("a".to_string(), Side::Black), ("b".to_string(), Side::White)]);
    let broken = vec![("a".to_string(), 0), ("b".to_string(), 3), ("c".to_string(), 4)];
    assert_eq!(unsolved_candidates(&broken).unwrap_err().message(), "invalid side value: 3");
}

#[test]
fn retrograde_passes_are_limited() {
    let begin = PassState { pass: 0, tried: 4 };
    let first = retrograde_command(begin, Some(1), PassEvent::Ready);
    assert_eq!(first.state, PassState { pass: 1, tried: 4 });
    assert_eq!(first.action, PassAction::Fetch { offset: 4 });
    assert_eq!(first.line, None);
    let second = retrograde_command(first.state, Some(1), PassEvent::Ready);
    assert_eq!((second.state, second.action), (first.state, PassAction::Stop));
    assert_eq!(second.line, None);
    assert_eq!(retrograde_command(begin, Some(0), PassEvent::Ready).action, PassAction::Stop);
}

#[test]
fn retrograde_goes_on_past_positions_tried_in_vain() {
    let state = PassState { pass: 3, tried: 20 };
    let fruitless = retrograde_command(state, None, PassEvent::Committed { rows: 10, solved: 0 });
    assert_eq!(fruitless.state, PassState { pass: 3, tried: 30 });
    assert_eq!(fruitless.action, PassAction::Continue);
    assert_eq!(fruitless.line.unwrap(), "retrograde pass 3: solved 0");
    let next = retrograde_command(fruitless.state, None, PassEvent::Ready);
    assert_eq!(next.action, PassAction::Fetch { offset: 30 });
    let fruitful = retrograde_command(state, None, PassEvent::Committed { rows: 10, solved: 2 });
    assert_eq!(fruitful.state, PassState { pass: 3, tried: 0 });
    assert_eq!(fruitful.action, PassAction::Continue);
    assert_eq!(fruitful.line.unwrap(), "retrograde pass 3: solved 2");
}

#[test]
fn retrograde_stops_with_nothing_left_to_try() {
    let fresh = PassState { pass: 1, tried: 0 };
    let nothing = retrograde_command(fresh, None, PassEvent::Fetched { rows: 0 });
    assert_eq!((nothing.state, nothing.action), (fresh, PassAction::Stop));
    assert_eq!(nothing.line.unwrap(), "no unsolved candidates found");
    let all_tried = PassState { pass: 2, tried: 5 };
    let end = retrograde_command(all_tried, None, PassEvent::Fetched { rows: 0 });
    assert_eq!((end.state, end.action), (all_tried, PassAction::Stop));
    assert_eq!(end.line, None);
    let some = retrograde_command(fresh, None, PassEvent::Fetched { rows: 1 });
    assert_eq!(some.action, PassAction::Solve);
    assert_eq!(some.line, None);
}
