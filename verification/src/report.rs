//! The lines that the program prints about a database, and its comma-separated export.
use num_bigint::BigUint;
use vstd::prelude::*;

use crate::count;
use crate::count::big_to_string;
use crate::text;
use crate::text::{append, append_decimal, append_signed};

verus! {

/// A number in decimal, or what stands for a missing one.
pub open spec fn optional_text(value: Option<i64>, missing: Seq<char>) -> Seq<char> {
    match value {
        Some(n) => text::signed_decimal(n as int),
        None => missing,
    }
}

/// Appends a number in decimal, or what stands for a missing one.
fn append_optional(line: &mut String, value: Option<i64>, missing: &str)
    ensures
        final(line)@ == old(line)@ + optional_text(value, missing@),
{
    match value {
        Some(n) => append_signed(line, n),
        None => append(line, missing),
    }
}

/// What is counted in a database for its status.
#[derive(Clone, Copy, Debug)]
pub struct StatusCounts {
    pub positions: i64,
    pub expanded: i64,
    pub frontier: i64,
    pub edges: i64,
    pub terminal_positions: i64,
    pub solved: i64,
    pub min_empties: Option<i64>,
    pub max_empties: Option<i64>,
}

/// A label with a number behind it.
pub open spec fn labelled(label: Seq<char>, n: i64) -> Seq<char> {
    label + text::signed_decimal(n as int)
}

/// The lines of a database status, up to the heading of the score buckets.
pub open spec fn status_text(db_path: Seq<char>, counts: StatusCounts, terminal_paths: nat) -> Seq<
    Seq<char>,
> {
    seq![
        "database: "@ + db_path,
        labelled("positions: "@, counts.positions),
        labelled("expanded positions: "@, counts.expanded),
        labelled("frontier: "@, counts.frontier),
        labelled("edges: "@, counts.edges),
        labelled("terminal positions: "@, counts.terminal_positions),
        labelled("solved/value_black positions: "@, counts.solved),
        "empties range: "@ + optional_text(counts.min_empties, "-"@) + ".."@ + optional_text(
            counts.max_empties,
            "-"@,
        ),
        "terminal path total: "@ + text::decimal(terminal_paths),
        "terminal score buckets (top 10 by score order):"@,
    ]
}

/// A label with a number behind it.
fn labelled_line(label: &str, n: i64) -> (line: String)
    ensures
        line@ == labelled(label@, n),
{
    let mut line = label.to_owned();
    append_signed(&mut line, n);
    line
}

/// The lines of a database status, up to the heading of the score buckets.
pub fn status_lines(db_path: &str, counts: StatusCounts, terminal_paths: &BigUint) -> (lines: Vec<
    String,
>)
    ensures
        text::texts_of(lines@) == status_text(db_path@, counts, count::big_value(*terminal_paths)),
{
    let mut database = "database: ".to_owned();
    append(&mut database, db_path);
    let mut empties = "empties range: ".to_owned();
    append_optional(&mut empties, counts.min_empties, "-");
    append(&mut empties, "..");
    append_optional(&mut empties, counts.max_empties, "-");
    let mut total = "terminal path total: ".to_owned();
    append(&mut total, big_to_string(terminal_paths).as_str());
    let mut lines: Vec<String> = Vec::new();
    lines.push(database);
    lines.push(labelled_line("positions: ", counts.positions));
    lines.push(labelled_line("expanded positions: ", counts.expanded));
    lines.push(labelled_line("frontier: ", counts.frontier));
    lines.push(labelled_line("edges: ", counts.edges));
    lines.push(labelled_line("terminal positions: ", counts.terminal_positions));
    lines.push(labelled_line("solved/value_black positions: ", counts.solved));
    lines.push(empties);
    lines.push(total);
    lines.push("terminal score buckets (top 10 by score order):".to_owned());
    assert(text::texts_of(lines@) =~= status_text(
        db_path@,
        counts,
        count::big_value(*terminal_paths),
    ));
    lines
}

/// The line of a score bucket.
pub open spec fn bucket_text(black: i64, white: i64, result: Seq<char>, paths: Seq<char>) -> Seq<
    char,
> {
    "  "@ + text::signed_decimal(black as int) + "-"@ + text::signed_decimal(white as int) + " "@
        + result + ": "@ + paths
}

/// The line of a score bucket.
pub fn bucket_line(black: i64, white: i64, result: &str, paths: &str) -> (line: String)
    ensures
        line@ == bucket_text(black, white, result@, paths@),
{
    let mut line = "  ".to_owned();
    append_signed(&mut line, black);
    append(&mut line, "-");
    append_signed(&mut line, white);
    append(&mut line, " ");
    append(&mut line, result);
    append(&mut line, ": ");
    append(&mut line, paths);
    line
}

/// The progress line of a run, its rate of positions per second already in text.
pub open spec fn progress_text(
    processed: u64,
    rate: Seq<char>,
    positions: i64,
    edges: i64,
    frontier: i64,
) -> Seq<char> {
    "processed this run: "@ + text::decimal(processed as nat) + ", rate: "@ + rate
        + "/s, positions: "@ + text::signed_decimal(positions as int) + ", edges: "@
        + text::signed_decimal(edges as int) + ", frontier: "@ + text::signed_decimal(
        frontier as int,
    )
}

/// The progress line of a run, its rate of positions per second already in text.
pub fn progress_line(processed: u64, rate: &str, positions: i64, edges: i64, frontier: i64) -> (line:
    String)
    ensures
        line@ == progress_text(processed, rate@, positions, edges, frontier),
{
    let mut line = "processed this run: ".to_owned();
    append_decimal(&mut line, processed);
    append(&mut line, ", rate: ");
    append(&mut line, rate);
    append(&mut line, "/s, positions: ");
    append_signed(&mut line, positions);
    append(&mut line, ", edges: ");
    append_signed(&mut line, edges);
    append(&mut line, ", frontier: ");
    append_signed(&mut line, frontier);
    line
}

/// A stored position as it is exported.
#[derive(Debug)]
pub struct ExportRow {
    pub key: String,
    pub black_hex: String,
    pub white_hex: String,
    pub side: i64,
    pub empties: i64,
    pub legal_moves: Option<i64>,
    pub terminal: i64,
    pub reach_count: String,
    pub value_black: Option<i64>,
}

/// The heading of an export.
pub open spec fn csv_heading() -> Seq<char> {
    "key,black_hex,white_hex,side,empties,legal_moves,terminal,reach_count,value_black"@
}

/// The heading of an export.
pub fn csv_header() -> (line: String)
    ensures
        line@ == csv_heading(),
{
    "key,black_hex,white_hex,side,empties,legal_moves,terminal,reach_count,value_black".to_owned()
}

/// The fields of an exported position, in the order of the heading; a missing number is an
/// empty field.
pub open spec fn csv_fields(row: ExportRow) -> Seq<Seq<char>> {
    seq![
        row.key@,
        row.black_hex@,
        row.white_hex@,
        text::signed_decimal(row.side as int),
        text::signed_decimal(row.empties as int),
        optional_text(row.legal_moves, ""@),
        text::signed_decimal(row.terminal as int),
        row.reach_count@,
        optional_text(row.value_black, ""@),
    ]
}

/// Fields with commas between them.
pub open spec fn comma_joined(fields: Seq<Seq<char>>) -> Seq<char>
    decreases fields.len(),
{
    if fields.len() == 0 {
        Seq::empty()
    } else if fields.len() == 1 {
        fields[0]
    } else {
        comma_joined(fields.drop_last()) + ","@ + fields.last()
    }
}

/// The line of an exported position.
pub fn csv_line(row: &ExportRow) -> (line: String)
    ensures
        line@ == comma_joined(csv_fields(*row)),
{
    let mut line = String::new();
    append(&mut line, row.key.as_str());
    append(&mut line, ",");
    append(&mut line, row.black_hex.as_str());
    append(&mut line, ",");
    append(&mut line, row.white_hex.as_str());
    append(&mut line, ",");
    append_signed(&mut line, row.side);
    append(&mut line, ",");
    append_signed(&mut line, row.empties);
    append(&mut line, ",");
    append_optional(&mut line, row.legal_moves, "");
    append(&mut line, ",");
    append_signed(&mut line, row.terminal);
    append(&mut line, ",");
    append(&mut line, row.reach_count.as_str());
    append(&mut line, ",");
    append_optional(&mut line, row.value_black, "");
    proof {
        reveal_with_fuel(comma_joined, 10);
        let fields = csv_fields(*row);
        assert(line@ =~= comma_joined(fields));
    }
    line
}

/// The parts of a text between its commas.
pub open spec fn comma_split(text: Seq<char>) -> Seq<Seq<char>>
    decreases text.len(),
{
    if text.len() == 0 {
        seq![Seq::empty()]
    } else {
        let before = comma_split(text.drop_last());
        if text.last() == ',' {
            before.push(Seq::empty())
        } else {
            before.drop_last().push(before.last().push(text.last()))
        }
    }
}

/// A text without commas is one part.
proof fn lemma_split_one(text: Seq<char>)
    requires
        !text.contains(','),
    ensures
        comma_split(text) == seq![text],
    decreases text.len(),
{
    if text.len() > 0 {
        let front = text.drop_last();
        assert(text.contains(text.last())) by {
            assert(text[text.len() - 1] == text.last());
        }
        assert(!front.contains(',')) by {
            if front.contains(',') {
                let i = front.index_of(',');
                assert(text[i] == ',');
            }
        }
        lemma_split_one(front);
        assert(front.push(text.last()) =~= text);
        assert(comma_split(text) =~= seq![text]);
    } else {
        assert(text =~= Seq::<char>::empty());
    }
}

/// A part without commas behind a comma is one part more.
proof fn lemma_split_push(text: Seq<char>, part: Seq<char>)
    requires
        !part.contains(','),
    ensures
        comma_split(text + ","@ + part) == comma_split(text).push(part),
    decreases part.len(),
{
    reveal_strlit(",");
    let all = text + ","@ + part;
    if part.len() == 0 {
        assert(all.drop_last() =~= text);
        assert(all.last() == ',');
        assert(part =~= Seq::<char>::empty());
    } else {
        let front = part.drop_last();
        assert(part.contains(part.last())) by {
            assert(part[part.len() - 1] == part.last());
        }
        assert(!front.contains(',')) by {
            if front.contains(',') {
                let i = front.index_of(',');
                assert(part[i] == ',');
            }
        }
        lemma_split_push(text, front);
        assert(all.drop_last() =~= text + ","@ + front);
        assert(all.last() == part.last());
        assert(front.push(part.last()) =~= part);
        let before = comma_split(text).push(front);
        assert(before.drop_last() =~= comma_split(text));
    }
}

/// Numbers are written without commas.
proof fn lemma_no_comma(n: int)
    ensures
        !text::signed_decimal(n).contains(','),
{
    let size = if n < 0 {
        (-n) as nat
    } else {
        n as nat
    };
    text::lemma_decimal_digits(size);
    let written = text::signed_decimal(n);
    if written.contains(',') {
        let i = written.index_of(',');
        if n < 0 && i > 0 {
            assert(written[i] == text::decimal(size)[i - 1]);
        } else if n >= 0 {
            assert(written[i] == text::decimal(size)[i]);
        }
    }
}

/// The fields of an exported line, joined by commas, each from its own column alone.
pub proof fn law_export_line_is_its_columns(row: ExportRow)
    ensures
        comma_joined(csv_fields(row)) == row.key@ + ","@ + row.black_hex@ + ","@ + row.white_hex@
            + ","@ + text::signed_decimal(row.side as int) + ","@ + text::signed_decimal(
            row.empties as int,
        ) + ","@ + (match row.legal_moves {
            Some(n) => text::signed_decimal(n as int),
            None => Seq::empty(),
        }) + ","@ + text::signed_decimal(row.terminal as int) + ","@ + row.reach_count@ + ","@ + (
        match row.value_black {
            Some(n) => text::signed_decimal(n as int),
            None => Seq::empty(),
        }),
{
    reveal_strlit("");
    reveal_with_fuel(comma_joined, 10);
    assert(""@ =~= Seq::<char>::empty());
    assert(comma_joined(csv_fields(row)) =~= row.key@ + ","@ + row.black_hex@ + ","@
        + row.white_hex@ + ","@ + text::signed_decimal(row.side as int) + ","@
        + text::signed_decimal(row.empties as int) + ","@ + (match row.legal_moves {
        Some(n) => text::signed_decimal(n as int),
        None => Seq::empty(),
    }) + ","@ + text::signed_decimal(row.terminal as int) + ","@ + row.reach_count@ + ","@ + (
    match row.value_black {
        Some(n) => text::signed_decimal(n as int),
        None => Seq::empty(),
    }));
}

/// Every field of an exported line reads back as the column that the heading names at its
/// place: cut at its commas, the line gives the columns, with an empty part exactly where a
/// number is not stored.
pub proof fn law_export_reads_back(row: ExportRow)
    requires
        !row.key@.contains(','),
        !row.black_hex@.contains(','),
        !row.white_hex@.contains(','),
        !row.reach_count@.contains(','),
    ensures
        comma_split(csv_heading()) == seq![
            "key"@,
            "black_hex"@,
            "white_hex"@,
            "side"@,
            "empties"@,
            "legal_moves"@,
            "terminal"@,
            "reach_count"@,
            "value_black"@,
        ],
        comma_split(comma_joined(csv_fields(row))) == seq![
            row.key@,
            row.black_hex@,
            row.white_hex@,
            text::signed_decimal(row.side as int),
            text::signed_decimal(row.empties as int),
            match row.legal_moves {
                Some(n) => text::signed_decimal(n as int),
                None => Seq::empty(),
            },
            text::signed_decimal(row.terminal as int),
            row.reach_count@,
            match row.value_black {
                Some(n) => text::signed_decimal(n as int),
                None => Seq::empty(),
            },
        ],
{
    law_export_line_is_its_columns(row);
    let moves = match row.legal_moves {
        Some(n) => text::signed_decimal(n as int),
        None => Seq::empty(),
    };
    let value = match row.value_black {
        Some(n) => text::signed_decimal(n as int),
        None => Seq::empty(),
    };
    lemma_no_comma(row.side as int);
    lemma_no_comma(row.empties as int);
    lemma_no_comma(row.terminal as int);
    if let Some(n) = row.legal_moves {
        lemma_no_comma(n as int);
    }
    if let Some(n) = row.value_black {
        lemma_no_comma(n as int);
    }
    lemma_split_nine(
        row.key@,
        row.black_hex@,
        row.white_hex@,
        text::signed_decimal(row.side as int),
        text::signed_decimal(row.empties as int),
        moves,
        text::signed_decimal(row.terminal as int),
        row.reach_count@,
        value,
    );
    lemma_heading();
}

/// Nine parts with commas between them.
proof fn lemma_split_nine(
    a: Seq<char>,
    b: Seq<char>,
    c: Seq<char>,
    d: Seq<char>,
    e: Seq<char>,
    f: Seq<char>,
    g: Seq<char>,
    h: Seq<char>,
    i: Seq<char>,
)
    requires
        !a.contains(','),
        !b.contains(','),
        !c.contains(','),
        !d.contains(','),
        !e.contains(','),
        !f.contains(','),
        !g.contains(','),
        !h.contains(','),
        !i.contains(','),
    ensures
        comma_split(
            a + ","@ + b + ","@ + c + ","@ + d + ","@ + e + ","@ + f + ","@ + g + ","@ + h + ","@
                + i,
        ) == seq![a, b, c, d, e, f, g, h, i],
{
    let t2 = a + ","@ + b;
    let t3 = t2 + ","@ + c;
    let t4 = t3 + ","@ + d;
    let t5 = t4 + ","@ + e;
    let t6 = t5 + ","@ + f;
    let t7 = t6 + ","@ + g;
    let t8 = t7 + ","@ + h;
    lemma_split_one(a);
    lemma_split_push(a, b);
    lemma_split_push(t2, c);
    lemma_split_push(t3, d);
    lemma_split_push(t4, e);
    lemma_split_push(t5, f);
    lemma_split_push(t6, g);
    lemma_split_push(t7, h);
    lemma_split_push(t8, i);
    assert(seq![a].push(b).push(c).push(d).push(e).push(f).push(g).push(h).push(i) =~= seq![
        a,
        b,
        c,
        d,
        e,
        f,
        g,
        h,
        i,
    ]);
}

/// The parts of the heading.
proof fn lemma_heading()
    ensures
        comma_split(csv_heading()) == seq![
            "key"@,
            "black_hex"@,
            "white_hex"@,
            "side"@,
            "empties"@,
            "legal_moves"@,
            "terminal"@,
            "reach_count"@,
            "value_black"@,
        ],
{
    reveal_strlit(
        "key,black_hex,white_hex,side,empties,legal_moves,terminal,reach_count,value_black",
    );
    reveal_strlit(",");
    reveal_strlit("key");
    reveal_strlit("black_hex");
    reveal_strlit("white_hex");
    reveal_strlit("side");
    reveal_strlit("empties");
    reveal_strlit("legal_moves");
    reveal_strlit("terminal");
    reveal_strlit("reach_count");
    reveal_strlit("value_black");
    assert(csv_heading() =~= "key"@ + ","@ + "black_hex"@ + ","@ + "white_hex"@ + ","@ + "side"@
        + ","@ + "empties"@ + ","@ + "legal_moves"@ + ","@ + "terminal"@ + ","@ + "reach_count"@
        + ","@ + "value_black"@);
    lemma_split_nine(
        "key"@,
        "black_hex"@,
        "white_hex"@,
        "side"@,
        "empties"@,
        "legal_moves"@,
        "terminal"@,
        "reach_count"@,
        "value_black"@,
    );
}

/// The status tells every count under its own label and in full, the range of empty squares
/// from its smaller to its larger end, with a dash for an end that is missing, and the total
/// of the finished paths.
pub proof fn law_status_tells_every_count(
    db_path: Seq<char>,
    counts: StatusCounts,
    terminal_paths: nat,
)
    ensures
        ({
            let lines = status_text(db_path, counts, terminal_paths);
            let least = match counts.min_empties {
                Some(n) => text::signed_decimal(n as int),
                None => "-"@,
            };
            let most = match counts.max_empties {
                Some(n) => text::signed_decimal(n as int),
                None => "-"@,
            };
            &&& lines.len() == 10
            &&& lines[0] == "database: "@ + db_path
            &&& lines[1] == "positions: "@ + text::signed_decimal(counts.positions as int)
            &&& lines[2] == "expanded positions: "@ + text::signed_decimal(counts.expanded as int)
            &&& lines[3] == "frontier: "@ + text::signed_decimal(counts.frontier as int)
            &&& lines[4] == "edges: "@ + text::signed_decimal(counts.edges as int)
            &&& lines[5] == "terminal positions: "@ + text::signed_decimal(
                counts.terminal_positions as int,
            )
            &&& lines[6] == "solved/value_black positions: "@ + text::signed_decimal(
                counts.solved as int,
            )
            &&& lines[7] == "empties range: "@ + least + ".."@ + most
            &&& lines[8] == "terminal path total: "@ + text::decimal(terminal_paths)
            &&& lines[9] == "terminal score buckets (top 10 by score order):"@
        }),
{
}

/// A bucket line tells black discs, white discs, the label and the paths, in this order and in
/// full.
pub proof fn law_bucket_line(black: i64, white: i64, result: Seq<char>, paths: Seq<char>)
    ensures
        bucket_text(black, white, result, paths) == "  "@ + text::signed_decimal(black as int)
            + "-"@ + text::signed_decimal(white as int) + " "@ + result + ": "@ + paths,
{
}

/// A progress line tells the positions processed, the rate, and the sizes of the tables, each
/// under its own label and in full.
pub proof fn law_progress_line(
    processed: u64,
    rate: Seq<char>,
    positions: i64,
    edges: i64,
    frontier: i64,
)
    ensures
        progress_text(processed, rate, positions, edges, frontier) == "processed this run: "@
            + text::decimal(processed as nat) + ", rate: "@ + rate + "/s, positions: "@
            + text::signed_decimal(positions as int) + ", edges: "@ + text::signed_decimal(
            edges as int,
        ) + ", frontier: "@ + text::signed_decimal(frontier as int),
{
}

/// A number that may be missing is written like any other where it is there.
pub proof fn law_optional_numbers(n: i64, missing: Seq<char>)
    ensures
        optional_text(Some(n), missing) == text::signed_decimal(n as int),
        optional_text(None, missing) == missing,
{
}

} // verus!
