use num_bigint::BigUint;
use othello_full_search::report::{
    bucket_line, csv_header, csv_line, progress_line, status_lines, ExportRow, StatusCounts,
};

#[test]
fn status_of_a_database() {
    let counts = StatusCounts {
        positions: 10,
        expanded: 4,
        frontier: 6,
        edges: 9,
        terminal_positions: 1,
        solved: 2,
        min_empties: Some(57),
        max_empties: Some(60),
    };
    let lines = status_lines("data/search.sqlite3", counts, &BigUint::from(u64::MAX));
    assert_eq!(
        lines,
        vec![
            "database: data/search.sqlite3",
            "positions: 10",
            "expanded positions: 4",
            "frontier: 6",
            "edges: 9",
            "terminal positions: 1",
            "solved/value_black positions: 2",
            "empties range: 57..60",
            "terminal path total: 18446744073709551615",
            "terminal score buckets (top 10 by score order):",
        ]
    );
}

#[test]
fn status_of_an_empty_database() {
    let counts = StatusCounts {
        positions: 0,
        expanded: 0,
        frontier: 0,
        edges: 0,
        terminal_positions: 0,
        solved: 0,
        min_empties: None,
        max_empties: None,
    };
    let lines = status_lines("x", counts, &BigUint::from(0u8));
    assert_eq!(lines[7], "empties range: -..-");
    assert_eq!(lines[8], "terminal path total: 0");
}

#[test]
fn bucket_lines_are_indented() {
    assert_eq!(bucket_line(40, 24, "black", "123456789012345678901"), "  40-24 black: 123456789012345678901");
    assert_eq!(bucket_line(32, 32, "draw", "1"), "  32-32 draw: 1");
}

#[test]
fn progress_is_told_in_one_line() {
    assert_eq!(
        progress_line(1500, "299.9", 20000, 31000, 8000),
        "processed this run: 1500, rate: 299.9/s, positions: 20000, edges: 31000, frontier: 8000"
    );
}

#[test]
fn export_has_a_field_for_every_column() {
    assert_eq!(
        csv_header(),
        "key,black_hex,white_hex,side,empties,legal_moves,terminal,reach_count,value_black"
    );
    let mut row = ExportRow {
        key: "k".to_string(),
        black_hex: "b".to_string(),
        white_hex: "w".to_string(),
        side: 1,
        empties: 12,
        legal_moves: Some(3),
        terminal: 0,
        reach_count: "99".to_string(),
        value_black: Some(-4),
    };
    assert_eq!(csv_line(&row), "k,b,w,1,12,3,0,99,-4");
    row.legal_moves = None;
    row.value_black = None;
    assert_eq!(csv_line(&row), "k,b,w,1,12,,0,99,");
    assert_eq!(csv_line(&row).matches(',').count(), csv_header().matches(',').count());
}
