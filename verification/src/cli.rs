//! The command line: which database and which command, from the arguments.
use vstd::prelude::*;

use crate::error::{Error, ErrorView};
use crate::text;
use crate::text::{parse_unsigned, same_text};

verus! {

/// What the program is asked to do.
#[derive(Debug)]
pub enum Command {
    /// Create the database and insert the starting position.
    Init { reset: bool },
    /// Expand positions from the frontier.
    Run { batch: usize, max_positions: Option<u64>, max_seconds: Option<u64> },
    /// Show the progress of the search.
    Status,
    /// Count game-tree leaves without a database.
    Perft { depth: u8, divide: bool },
    /// Fill in exact values.
    Retrograde { batch: usize, max_passes: Option<u64> },
    /// Write all positions as comma-separated values.
    ExportCsv { output_path: String },
    /// Show how the program is used.
    Help,
}

/// The content of a [`Command`].
pub enum CommandView {
    Init { reset: bool },
    Run { batch: int, max_positions: Option<int>, max_seconds: Option<int> },
    Status,
    Perft { depth: int, divide: bool },
    Retrograde { batch: int, max_passes: Option<int> },
    ExportCsv { output_path: Seq<char> },
    Help,
}

/// An optional number of an option, taken by content.
pub open spec fn number_of(value: Option<u64>) -> Option<int> {
    match value {
        Some(n) => Some(n as int),
        None => None,
    }
}

impl View for Command {
    type V = CommandView;

    open spec fn view(&self) -> CommandView {
        match *self {
            Command::Init { reset } => CommandView::Init { reset },
            Command::Run { batch, max_positions, max_seconds } => CommandView::Run {
                batch: batch as int,
                max_positions: number_of(max_positions),
                max_seconds: number_of(max_seconds),
            },
            Command::Status => CommandView::Status,
            Command::Perft { depth, divide } => CommandView::Perft { depth: depth as int, divide },
            Command::Retrograde { batch, max_passes } => CommandView::Retrograde {
                batch: batch as int,
                max_passes: number_of(max_passes),
            },
            Command::ExportCsv { output_path } => CommandView::ExportCsv {
                output_path: output_path@,
            },
            Command::Help => CommandView::Help,
        }
    }
}

/// The database path and the command.
#[derive(Debug)]
pub struct Config {
    pub db_path: String,
    pub command: Command,
}

/// The arguments without every `--db` and its path, and the path given last.
pub open spec fn split_db(args: Seq<Seq<char>>) -> Result<
    (Seq<Seq<char>>, Option<Seq<char>>),
    ErrorView,
>
    decreases args.len(),
{
    if args.len() == 0 {
        Ok((Seq::empty(), None))
    } else if args[0] == "--db"@ {
        if args.len() < 2 {
            Err(ErrorView::DatabasePath)
        } else {
            match split_db(args.subrange(2, args.len() as int)) {
                Err(error) => Err(error),
                Ok((rest, later)) => Ok(
                    (
                        rest,
                        if later is Some {
                            later
                        } else {
                            Some(args[1])
                        },
                    ),
                ),
            }
        }
    } else {
        match split_db(args.subrange(1, args.len() as int)) {
            Err(error) => Err(error),
            Ok((rest, path)) => Ok((seq![args[0]] + rest, path)),
        }
    }
}

/// The number of arguments before the first one that is `name`, or of all where none is.
pub open spec fn place_of(args: Seq<Seq<char>>, name: Seq<char>) -> nat
    decreases args.len(),
{
    if args.len() == 0 || args[0] == name {
        0
    } else {
        1 + place_of(args.subrange(1, args.len() as int), name)
    }
}

/// The value of an option: the argument behind the first one that is its name, and none
/// where no argument is.
pub open spec fn string_option(args: Seq<Seq<char>>, name: Seq<char>) -> Result<
    Option<Seq<char>>,
    ErrorView,
> {
    let place = place_of(args, name);
    if place + 1 < args.len() {
        Ok(Some(args[(place + 1) as int]))
    } else if place < args.len() {
        Err(ErrorView::OptionValue(name))
    } else {
        Ok(None)
    }
}

/// The value of an option that takes a number up to `max`.
pub open spec fn number_option(args: Seq<Seq<char>>, name: Seq<char>, max: int) -> Result<
    Option<int>,
    ErrorView,
> {
    match string_option(args, name) {
        Err(error) => Err(error),
        Ok(None) => Ok(None),
        Ok(Some(value)) => match text::unsigned_value(text::bytes_of(value), 10, max) {
            Some(n) => Ok(Some(n)),
            None => Err(
                ErrorView::OptionInteger {
                    name,
                    value,
                    cause: text::fault_of(text::bytes_of(value), 10, max).text(),
                },
            ),
        },
    }
}

/// The number of an option, or what stands for it where it is not given.
pub open spec fn or_default(value: Option<int>, default: int) -> int {
    match value {
        Some(n) => n,
        None => default,
    }
}

/// The `run` command that its options make.
pub open spec fn run_options(args: Seq<Seq<char>>) -> Result<CommandView, ErrorView> {
    match number_option(args, "--batch"@, usize::MAX as int) {
        Err(error) => Err(error),
        Ok(batch) => match number_option(args, "--max-positions"@, u64::MAX as int) {
            Err(error) => Err(error),
            Ok(max_positions) => match number_option(args, "--max-seconds"@, u64::MAX as int) {
                Err(error) => Err(error),
                Ok(max_seconds) => Ok(
                    CommandView::Run { batch: or_default(batch, 100), max_positions, max_seconds },
                ),
            },
        },
    }
}

/// The `perft` command that its options make.
pub open spec fn perft_options(args: Seq<Seq<char>>) -> Result<CommandView, ErrorView> {
    match number_option(args, "--depth"@, u8::MAX as int) {
        Err(error) => Err(error),
        Ok(depth) => Ok(
            CommandView::Perft { depth: or_default(depth, 6), divide: args.contains("--divide"@) },
        ),
    }
}

/// The `retrograde` command that its options make.
pub open spec fn retrograde_options(args: Seq<Seq<char>>) -> Result<CommandView, ErrorView> {
    match number_option(args, "--batch"@, usize::MAX as int) {
        Err(error) => Err(error),
        Ok(batch) => match number_option(args, "--max-passes"@, u64::MAX as int) {
            Err(error) => Err(error),
            Ok(max_passes) => Ok(
                CommandView::Retrograde { batch: or_default(batch, 1000), max_passes },
            ),
        },
    }
}

/// The `export-csv` command that its options make.
pub open spec fn export_options(args: Seq<Seq<char>>) -> Result<CommandView, ErrorView> {
    match string_option(args, "--out"@) {
        Err(error) => Err(error),
        Ok(Some(output_path)) => Ok(CommandView::ExportCsv { output_path }),
        Ok(None) => Ok(CommandView::ExportCsv { output_path: "positions.csv"@ }),
    }
}

/// The command that the arguments ask for, the database path taken out of them.
pub open spec fn command_of(args: Seq<Seq<char>>) -> Result<CommandView, ErrorView> {
    if args.len() == 0 || args[0] == "help"@ || args[0] == "--help"@ || args[0] == "-h"@ {
        Ok(CommandView::Help)
    } else if args[0] == "init"@ {
        Ok(CommandView::Init { reset: args.contains("--reset"@) })
    } else if args[0] == "run"@ {
        run_options(args)
    } else if args[0] == "status"@ {
        Ok(CommandView::Status)
    } else if args[0] == "perft"@ {
        perft_options(args)
    } else if args[0] == "retrograde"@ {
        retrograde_options(args)
    } else if args[0] == "export-csv"@ {
        export_options(args)
    } else {
        Err(ErrorView::UnknownCommand(args[0]))
    }
}

/// The database path and the command that the arguments ask for.
pub open spec fn config_of(args: Seq<Seq<char>>) -> Result<(Seq<char>, CommandView), ErrorView> {
    match split_db(args) {
        Err(error) => Err(error),
        Ok((rest, path)) => match command_of(rest) {
            Err(error) => Err(error),
            Ok(command) => Ok(
                (
                    match path {
                        Some(path) => path,
                        None => "othello_full_search.sqlite3"@,
                    },
                    command,
                ),
            ),
        },
    }
}

/// A text option taken by content.
pub open spec fn string_outcome(result: Result<Option<String>, Error>) -> Result<
    Option<Seq<char>>,
    ErrorView,
> {
    match result {
        Err(error) => Err(error@),
        Ok(None) => Ok(None),
        Ok(Some(value)) => Ok(Some(value@)),
    }
}

/// A number option taken by content.
pub open spec fn number_outcome(result: Result<Option<u64>, Error>) -> Result<
    Option<int>,
    ErrorView,
> {
    match result {
        Err(error) => Err(error@),
        Ok(value) => Ok(number_of(value)),
    }
}

/// A command taken by content.
pub open spec fn command_outcome(result: Result<Command, Error>) -> Result<CommandView, ErrorView> {
    match result {
        Err(error) => Err(error@),
        Ok(command) => Ok(command@),
    }
}

/// A configuration taken by content.
pub open spec fn config_outcome(result: Result<Config, Error>) -> Result<
    (Seq<char>, CommandView),
    ErrorView,
> {
    match result {
        Err(error) => Err(error@),
        Ok(config) => Ok((config.db_path@, config.command@)),
    }
}

/// The place of an argument behind others that are not it.
proof fn lemma_place(args: Seq<Seq<char>>, name: Seq<char>, n: nat)
    requires
        n <= args.len(),
        forall|j: int| 0 <= j < n ==> #[trigger] args[j] != name,
        n < args.len() ==> args[n as int] == name,
    ensures
        place_of(args, name) == n,
    decreases args.len(),
{
    if n > 0 {
        let tail = args.subrange(1, args.len() as int);
        assert forall|j: int| 0 <= j < n - 1 implies #[trigger] tail[j] != name by {
            assert(args[j + 1] != name);
        }
        assert(args[0] != name);
        lemma_place(tail, name, (n - 1) as nat);
    }
}

/// The value of a text option.
pub fn parse_string_option(args: &[String], name: &str) -> (value: Result<Option<String>, Error>)
    ensures
        string_outcome(value) == string_option(text::texts_of(args@), name@),
{
    let ghost texts = text::texts_of(args@);
    let mut i: usize = 0;
    while i < args.len()
        invariant
            i <= args.len(),
            texts == text::texts_of(args@),
            forall|j: int| 0 <= j < i ==> #[trigger] texts[j] != name@,
        decreases args.len() - i,
    {
        if same_text(&args[i], name) {
            proof {
                lemma_place(texts, name@, i as nat);
            }
            if args.len() - i >= 2 {
                return Ok(Some(args[i + 1].clone()));
            }
            return Err(Error::OptionValue(name.to_owned()));
        }
        i = i + 1;
    }
    proof {
        lemma_place(texts, name@, i as nat);
    }
    Ok(None)
}

/// The value of an option that takes a number up to `max`.
fn parse_number_option(args: &[String], name: &str, max: u64) -> (value: Result<
    Option<u64>,
    Error,
>)
    ensures
        number_outcome(value) == number_option(text::texts_of(args@), name@, max as int),
        value matches Ok(Some(n)) ==> n <= max,
{
    match parse_string_option(args, name) {
        Err(error) => Err(error),
        Ok(None) => Ok(None),
        Ok(Some(value)) => match parse_unsigned(value.as_str().as_bytes(), 10, max) {
            Ok(n) => Ok(Some(n)),
            Err(fault) => Err(
                Error::OptionInteger { name: name.to_owned(), value, cause: fault.describe() },
            ),
        },
    }
}

/// The value of an option that takes a 64-bit number.
pub fn parse_u64_option(args: &[String], name: &str) -> (value: Result<Option<u64>, Error>)
    ensures
        number_outcome(value) == number_option(text::texts_of(args@), name@, u64::MAX as int),
{
    parse_number_option(args, name, u64::MAX)
}

/// The value of an option that takes a number of the machine's width.
pub fn parse_usize_option(args: &[String], name: &str) -> (value: Result<Option<usize>, Error>)
    ensures
        match value {
            Err(error) => Err(error@),
            Ok(Some(n)) => Ok(Some(n as int)),
            Ok(None) => Ok(None),
        } == number_option(text::texts_of(args@), name@, usize::MAX as int),
{
    match parse_number_option(args, name, usize::MAX as u64) {
        Err(error) => Err(error),
        Ok(None) => Ok(None),
        Ok(Some(n)) => Ok(Some(n as usize)),
    }
}

/// The value of an option that takes a number up to 255.
pub fn parse_u8_option(args: &[String], name: &str) -> (value: Result<Option<u8>, Error>)
    ensures
        match value {
            Err(error) => Err(error@),
            Ok(Some(n)) => Ok(Some(n as int)),
            Ok(None) => Ok(None),
        } == number_option(text::texts_of(args@), name@, u8::MAX as int),
{
    match parse_number_option(args, name, u8::MAX as u64) {
        Err(error) => Err(error),
        Ok(None) => Ok(None),
        Ok(Some(n)) => Ok(Some(n as u8)),
    }
}

/// Whether one of the arguments is `name`.
fn is_given(args: &Vec<String>, name: &str) -> (given: bool)
    ensures
        given == text::texts_of(args@).contains(name@),
{
    let ghost texts = text::texts_of(args@);
    let mut i: usize = 0;
    while i < args.len()
        invariant
            i <= args.len(),
            texts == text::texts_of(args@),
            forall|j: int| 0 <= j < i ==> #[trigger] texts[j] != name@,
        decreases args.len() - i,
    {
        if same_text(&args[i], name) {
            assert(texts[i as int] == name@);
            return true;
        }
        i = i + 1;
    }
    false
}

/// The `run` command that its options make.
fn parse_run(args: &Vec<String>) -> (command: Result<Command, Error>)
    ensures
        command_outcome(command) == run_options(text::texts_of(args@)),
{
    let batch: usize = match parse_usize_option(args.as_slice(), "--batch") {
        Err(error) => {
            return Err(error);
        },
        Ok(Some(batch)) => batch,
        Ok(None) => 100,
    };
    let max_positions = match parse_u64_option(args.as_slice(), "--max-positions") {
        Err(error) => {
            return Err(error);
        },
        Ok(max_positions) => max_positions,
    };
    let max_seconds = match parse_u64_option(args.as_slice(), "--max-seconds") {
        Err(error) => {
            return Err(error);
        },
        Ok(max_seconds) => max_seconds,
    };
    Ok(Command::Run { batch, max_positions, max_seconds })
}

/// The `perft` command that its options make.
fn parse_perft(args: &Vec<String>) -> (command: Result<Command, Error>)
    ensures
        command_outcome(command) == perft_options(text::texts_of(args@)),
{
    let depth: u8 = match parse_u8_option(args.as_slice(), "--depth") {
        Err(error) => {
            return Err(error);
        },
        Ok(Some(depth)) => depth,
        Ok(None) => 6,
    };
    Ok(Command::Perft { depth, divide: is_given(args, "--divide") })
}

/// The `retrograde` command that its options make.
fn parse_retrograde(args: &Vec<String>) -> (command: Result<Command, Error>)
    ensures
        command_outcome(command) == retrograde_options(text::texts_of(args@)),
{
    let batch: usize = match parse_usize_option(args.as_slice(), "--batch") {
        Err(error) => {
            return Err(error);
        },
        Ok(Some(batch)) => batch,
        Ok(None) => 1000,
    };
    match parse_u64_option(args.as_slice(), "--max-passes") {
        Err(error) => Err(error),
        Ok(max_passes) => Ok(Command::Retrograde { batch, max_passes }),
    }
}

/// The `export-csv` command that its options make.
fn parse_export(args: &Vec<String>) -> (command: Result<Command, Error>)
    ensures
        command_outcome(command) == export_options(text::texts_of(args@)),
{
    match parse_string_option(args.as_slice(), "--out") {
        Err(error) => Err(error),
        Ok(Some(output_path)) => Ok(Command::ExportCsv { output_path }),
        Ok(None) => Ok(Command::ExportCsv { output_path: "positions.csv".to_owned() }),
    }
}

/// The command that the arguments ask for, the database path taken out of them.
fn parse_command(args: &Vec<String>) -> (command: Result<Command, Error>)
    ensures
        command_outcome(command) == command_of(text::texts_of(args@)),
{
    if args.len() == 0 {
        return Ok(Command::Help);
    }
    let name = &args[0];
    assert(text::texts_of(args@)[0] == name@);
    if same_text(name, "help") || same_text(name, "--help") || same_text(name, "-h") {
        Ok(Command::Help)
    } else if same_text(name, "init") {
        Ok(Command::Init { reset: is_given(args, "--reset") })
    } else if same_text(name, "run") {
        parse_run(args)
    } else if same_text(name, "status") {
        Ok(Command::Status)
    } else if same_text(name, "perft") {
        parse_perft(args)
    } else if same_text(name, "retrograde") {
        parse_retrograde(args)
    } else if same_text(name, "export-csv") {
        parse_export(args)
    } else {
        Err(Error::UnknownCommand(name.clone()))
    }
}

/// What is split off so far, with what the remaining arguments add to it.
spec fn joined(
    rest: Seq<Seq<char>>,
    path: Option<Seq<char>>,
    more: Result<(Seq<Seq<char>>, Option<Seq<char>>), ErrorView>,
) -> Result<(Seq<Seq<char>>, Option<Seq<char>>), ErrorView> {
    match more {
        Err(error) => Err(error),
        Ok((tail, later)) => Ok(
            (
                rest + tail,
                if later is Some {
                    later
                } else {
                    path
                },
            ),
        ),
    }
}

/// The database path and the command that the arguments of the program ask for, the
/// program's own name not among them.
pub fn parse_args(args: &Vec<String>) -> (config: Result<Config, Error>)
    ensures
        config_outcome(config) == config_of(text::texts_of(args@)),
{
    let ghost texts = text::texts_of(args@);
    let mut rest: Vec<String> = Vec::new();
    let mut db_path: Option<String> = None;
    let mut i: usize = 0;
    proof {
        assert(texts.subrange(0, texts.len() as int) =~= texts);
        assert(text::texts_of(rest@) =~= Seq::<Seq<char>>::empty());
        if split_db(texts) is Ok {
            assert(Seq::<Seq<char>>::empty() + split_db(texts)->Ok_0.0 =~= split_db(
                texts,
            )->Ok_0.0);
        }
    }
    while i < args.len()
        invariant
            i <= args.len(),
            texts == text::texts_of(args@),
            split_db(texts) == joined(
                text::texts_of(rest@),
                match db_path {
                    Some(path) => Some(path@),
                    None => None,
                },
                split_db(texts.subrange(i as int, texts.len() as int)),
            ),
        decreases args.len() - i,
    {
        let ghost now = texts.subrange(i as int, texts.len() as int);
        let ghost before = text::texts_of(rest@);
        assert(now[0] == texts[i as int]);
        if same_text(&args[i], "--db") {
            if args.len() - i < 2 {
                return Err(Error::DatabasePath);
            }
            db_path = Some(args[i + 1].clone());
            proof {
                assert(now.subrange(2, now.len() as int) =~= texts.subrange(
                    i + 2,
                    texts.len() as int,
                ));
                assert(now[1] == texts[i + 1]);
            }
            i = i + 2;
        } else {
            rest.push(args[i].clone());
            proof {
                let later = texts.subrange(i + 1, texts.len() as int);
                assert(now.subrange(1, now.len() as int) =~= later);
                assert(text::texts_of(rest@) =~= before.push(now[0]));
                if split_db(later) is Ok {
                    let tail = split_db(later)->Ok_0.0;
                    assert(before.push(now[0]) + tail =~= before + (seq![now[0]] + tail));
                }
            }
            i = i + 1;
        }
    }
    proof {
        assert(texts.subrange(i as int, texts.len() as int) =~= Seq::<Seq<char>>::empty());
        assert(text::texts_of(rest@) + Seq::<Seq<char>>::empty() =~= text::texts_of(rest@));
    }
    match parse_command(&rest) {
        Err(error) => Err(error),
        Ok(command) => {
            let db_path = match db_path {
                Some(path) => path,
                None => "othello_full_search.sqlite3".to_owned(),
            };
            Ok(Config { db_path, command })
        },
    }
}

/// `--db` and its path may stand anywhere: the command is the one without them, and the
/// path given last counts.
pub proof fn law_database_option_stands_anywhere(
    before: Seq<Seq<char>>,
    path: Seq<char>,
    after: Seq<Seq<char>>,
)
    requires
        !before.contains("--db"@),
    ensures
        split_db(before + seq!["--db"@, path] + after) == match split_db(before + after) {
            Err(error) => Err::<(Seq<Seq<char>>, Option<Seq<char>>), ErrorView>(error),
            Ok((rest, later)) => Ok(
                (
                    rest,
                    if later is Some {
                        later
                    } else {
                        Some(path)
                    },
                ),
            ),
        },
    decreases before.len(),
{
    let args = before + seq!["--db"@, path] + after;
    if before.len() == 0 {
        assert(args.subrange(2, args.len() as int) =~= after);
        assert(before + after =~= after);
    } else {
        let tail = before.subrange(1, before.len() as int);
        assert(before.contains(before[0]));
        assert(!tail.contains("--db"@)) by {
            if tail.contains("--db"@) {
                let j = tail.index_of("--db"@);
                assert(before[j + 1] == "--db"@);
            }
        }
        law_database_option_stands_anywhere(tail, path, after);
        assert(args.subrange(1, args.len() as int) =~= tail + seq!["--db"@, path] + after);
        assert((before + after).subrange(1, (before + after).len() as int) =~= tail + after);
        assert(args[0] == before[0]);
        assert((before + after)[0] == before[0]);
    }
}

/// An option has the value behind its first occurrence, whatever follows.
pub proof fn law_first_occurrence_counts(
    before: Seq<Seq<char>>,
    name: Seq<char>,
    value: Seq<char>,
    after: Seq<Seq<char>>,
)
    requires
        !before.contains(name),
    ensures
        string_option(before + seq![name, value] + after, name) == Ok::<
            Option<Seq<char>>,
            ErrorView,
        >(Some(value)),
{
    let args = before + seq![name, value] + after;
    assert forall|j: int| 0 <= j < before.len() implies #[trigger] args[j] != name by {
        assert(before.contains(before[j]));
    }
    lemma_place(args, name, before.len());
}

/// A number in range that is given in decimal is read back, with or without a plus sign.
pub proof fn law_number_option_reads_back(
    before: Seq<Seq<char>>,
    name: Seq<char>,
    n: nat,
    max: int,
    after: Seq<Seq<char>>,
)
    requires
        !before.contains(name),
        n <= max,
    ensures
        number_option(before + seq![name, text::decimal(n)] + after, name, max) == Ok::<
            Option<int>,
            ErrorView,
        >(Some(n as int)),
        number_option(before + seq![name, seq!['+'] + text::decimal(n)] + after, name, max) == Ok::<
            Option<int>,
            ErrorView,
        >(Some(n as int)),
{
    law_first_occurrence_counts(before, name, text::decimal(n), after);
    law_first_occurrence_counts(before, name, seq!['+'] + text::decimal(n), after);
    text::lemma_decimal_round_trip(n, max);
}

/// Arguments without `--db` stay as they are and give no path; a `--db` at their end is
/// refused.
pub proof fn law_other_arguments_stay(args: Seq<Seq<char>>)
    requires
        !args.contains("--db"@),
    ensures
        split_db(args) == Ok::<(Seq<Seq<char>>, Option<Seq<char>>), ErrorView>((args, None)),
        split_db(args.push("--db"@)) == Err::<(Seq<Seq<char>>, Option<Seq<char>>), ErrorView>(
            ErrorView::DatabasePath,
        ),
    decreases args.len(),
{
    let last = args.push("--db"@);
    if args.len() == 0 {
        assert(args =~= Seq::<Seq<char>>::empty());
        assert(last[0] == "--db"@);
    } else {
        let tail = args.subrange(1, args.len() as int);
        assert(args.contains(args[0]));
        assert(!tail.contains("--db"@)) by {
            if tail.contains("--db"@) {
                let j = tail.index_of("--db"@);
                assert(args[j + 1] == "--db"@);
            }
        }
        law_other_arguments_stay(tail);
        assert(seq![args[0]] + tail =~= args);
        assert(last[0] == args[0]);
        assert(last.subrange(1, last.len() as int) =~= tail.push("--db"@));
    }
}

/// An option that is not given has no value, and one at the end of the arguments is refused.
pub proof fn law_options_need_a_value(args: Seq<Seq<char>>, name: Seq<char>, max: int)
    requires
        !args.contains(name),
    ensures
        string_option(args, name) == Ok::<Option<Seq<char>>, ErrorView>(None),
        number_option(args, name, max) == Ok::<Option<int>, ErrorView>(None),
        string_option(args.push(name), name) == Err::<Option<Seq<char>>, ErrorView>(
            ErrorView::OptionValue(name),
        ),
        number_option(args.push(name), name, max) == Err::<Option<int>, ErrorView>(
            ErrorView::OptionValue(name),
        ),
{
    assert forall|j: int| 0 <= j < args.len() implies #[trigger] args[j] != name by {
        assert(args.contains(args[j]));
    }
    lemma_place(args, name, args.len());
    assert forall|j: int| 0 <= j < args.len() implies #[trigger] args.push(name)[j] != name by {
        assert(args[j] != name);
    }
    lemma_place(args.push(name), name, args.len());
}

/// The value of a number option is the number that its text writes, and a text that writes
/// none in range is refused, with the option, the text and the reason.
pub proof fn law_number_options_are_numbers(
    before: Seq<Seq<char>>,
    name: Seq<char>,
    value: Seq<char>,
    after: Seq<Seq<char>>,
    max: int,
)
    requires
        !before.contains(name),
    ensures
        number_option(before + seq![name, value] + after, name, max) == match text::unsigned_value(
            vstd::utf8::encode_utf8(value),
            10,
            max,
        ) {
            Some(n) => Ok::<Option<int>, ErrorView>(Some(n)),
            None => Err(
                ErrorView::OptionInteger {
                    name,
                    value,
                    cause: text::fault_of(vstd::utf8::encode_utf8(value), 10, max).text(),
                },
            ),
        },
{
    law_first_occurrence_counts(before, name, value, after);
}

/// The words for commands are all different.
proof fn lemma_words_differ()
    ensures
        "run"@ != "help"@ && "run"@ != "--help"@ && "run"@ != "-h"@ && "run"@ != "init"@,
        "status"@ != "help"@ && "status"@ != "--help"@ && "status"@ != "-h"@ && "status"@ != "init"@
            && "status"@ != "run"@,
        "perft"@ != "help"@ && "perft"@ != "--help"@ && "perft"@ != "-h"@ && "perft"@ != "init"@
            && "perft"@ != "run"@ && "perft"@ != "status"@,
        "retrograde"@ != "help"@ && "retrograde"@ != "--help"@ && "retrograde"@ != "-h"@
            && "retrograde"@ != "init"@ && "retrograde"@ != "run"@ && "retrograde"@ != "status"@
            && "retrograde"@ != "perft"@,
        "export-csv"@ != "help"@ && "export-csv"@ != "--help"@ && "export-csv"@ != "-h"@
            && "export-csv"@ != "init"@ && "export-csv"@ != "run"@ && "export-csv"@ != "status"@
            && "export-csv"@ != "perft"@ && "export-csv"@ != "retrograde"@,
        "init"@ != "help"@ && "init"@ != "--help"@ && "init"@ != "-h"@,
{
    reveal_strlit("help");
    reveal_strlit("--help");
    reveal_strlit("-h");
    reveal_strlit("init");
    reveal_strlit("run");
    reveal_strlit("status");
    reveal_strlit("perft");
    reveal_strlit("retrograde");
    reveal_strlit("export-csv");
    assert("help"@[0] == 'h' && "--help"@[0] == '-' && "-h"@[0] == '-' && "init"@[0] == 'i'
        && "run"@[0] == 'r' && "status"@[0] == 's' && "perft"@[0] == 'p' && "retrograde"@[0] == 'r'
        && "export-csv"@[0] == 'e');
    assert("run"@.len() == 3 && "retrograde"@.len() == 10);
}

/// The first argument names the command, and nothing else does: no argument or a word for
/// help asks for help, `init` resets exactly where `--reset` is given, and an unknown word is
/// refused.
pub proof fn law_first_argument_names_the_command(args: Seq<Seq<char>>)
    ensures
        args.len() == 0 ==> command_of(args) == Ok::<CommandView, ErrorView>(CommandView::Help),
        args.len() > 0 && (args[0] == "help"@ || args[0] == "--help"@ || args[0] == "-h"@)
            ==> command_of(args) == Ok::<CommandView, ErrorView>(CommandView::Help),
        args.len() > 0 && args[0] == "init"@ ==> command_of(args) == Ok::<CommandView, ErrorView>(
            CommandView::Init { reset: args.contains("--reset"@) },
        ),
        args.len() > 0 && args[0] == "status"@ ==> command_of(args) == Ok::<CommandView, ErrorView>(
            CommandView::Status,
        ),
        args.len() > 0 && args[0] != "help"@ && args[0] != "--help"@ && args[0] != "-h"@ && args[0]
            != "init"@ && args[0] != "run"@ && args[0] != "status"@ && args[0] != "perft"@
            && args[0] != "retrograde"@ && args[0] != "export-csv"@ ==> command_of(args) == Err::<
            CommandView,
            ErrorView,
        >(ErrorView::UnknownCommand(args[0])),
{
    lemma_words_differ();
}

/// `run` takes each of its options as it is given: a batch of 100 and no limits where they are
/// not, and the error of the first one that is refused.
pub proof fn law_run_takes_its_options(args: Seq<Seq<char>>)
    requires
        args.len() > 0,
        args[0] == "run"@,
    ensures
        ({
            let batch = number_option(args, "--batch"@, usize::MAX as int);
            let positions = number_option(args, "--max-positions"@, 0xffff_ffff_ffff_ffff);
            let seconds = number_option(args, "--max-seconds"@, 0xffff_ffff_ffff_ffff);
            match command_of(args) {
                Ok(command) => batch is Ok && positions is Ok && seconds is Ok && command == (
                CommandView::Run {
                    batch: match batch->Ok_0 {
                        Some(n) => n,
                        None => 100,
                    },
                    max_positions: positions->Ok_0,
                    max_seconds: seconds->Ok_0,
                }),
                Err(error) => if batch is Err {
                    error == batch->Err_0
                } else if positions is Err {
                    error == positions->Err_0
                } else {
                    seconds is Err && error == seconds->Err_0
                },
            }
        }),
{
    lemma_words_differ();
}

/// `perft` goes to the depth that is given, or to 6, and divides exactly where `--divide` is
/// given.
pub proof fn law_perft_takes_its_options(args: Seq<Seq<char>>)
    requires
        args.len() > 0,
        args[0] == "perft"@,
    ensures
        match number_option(args, "--depth"@, 255) {
            Ok(depth) => command_of(args) == Ok::<CommandView, ErrorView>(
                CommandView::Perft {
                    depth: match depth {
                        Some(n) => n,
                        None => 6,
                    },
                    divide: args.contains("--divide"@),
                },
            ),
            Err(error) => command_of(args) == Err::<CommandView, ErrorView>(error),
        },
{
    lemma_words_differ();
}

/// `retrograde` takes each of its options as it is given: a batch of 1000 and no limit where
/// they are not, and the error of the first one that is refused.
pub proof fn law_retrograde_takes_its_options(args: Seq<Seq<char>>)
    requires
        args.len() > 0,
        args[0] == "retrograde"@,
    ensures
        ({
            let batch = number_option(args, "--batch"@, usize::MAX as int);
            let passes = number_option(args, "--max-passes"@, 0xffff_ffff_ffff_ffff);
            match command_of(args) {
                Ok(command) => batch is Ok && passes is Ok && command == (CommandView::Retrograde {
                    batch: match batch->Ok_0 {
                        Some(n) => n,
                        None => 1000,
                    },
                    max_passes: passes->Ok_0,
                }),
                Err(error) => if batch is Err {
                    error == batch->Err_0
                } else {
                    passes is Err && error == passes->Err_0
                },
            }
        }),
{
    lemma_words_differ();
}

/// `export-csv` writes to the path that is given, or to `positions.csv`.
pub proof fn law_export_takes_its_path(args: Seq<Seq<char>>)
    requires
        args.len() > 0,
        args[0] == "export-csv"@,
    ensures
        match string_option(args, "--out"@) {
            Ok(path) => command_of(args) == Ok::<CommandView, ErrorView>(
                CommandView::ExportCsv {
                    output_path: match path {
                        Some(path) => path,
                        None => "positions.csv"@,
                    },
                },
            ),
            Err(error) => command_of(args) == Err::<CommandView, ErrorView>(error),
        },
{
    lemma_words_differ();
}

/// The configuration is the command of the arguments without `--db` and the path given there,
/// or the usual one.
pub proof fn law_configuration(args: Seq<Seq<char>>)
    ensures
        match split_db(args) {
            Err(error) => config_of(args) == Err::<(Seq<char>, CommandView), ErrorView>(error),
            Ok((rest, path)) => match command_of(rest) {
                Err(error) => config_of(args) == Err::<(Seq<char>, CommandView), ErrorView>(error),
                Ok(command) => config_of(args) == Ok::<(Seq<char>, CommandView), ErrorView>(
                    (
                        if path is Some {
                            path->0
                        } else {
                            "othello_full_search.sqlite3"@
                        },
                        command,
                    ),
                ),
            },
        },
{
}

/// The content of a command is all that it holds.
pub proof fn law_command_content(command: Command)
    ensures
        match command {
            Command::Init { reset } => command@ == (CommandView::Init { reset }),
            Command::Run { batch, max_positions, max_seconds } => command@ matches CommandView::Run {
                batch: b,
                max_positions: p,
                max_seconds: s,
            } && b == batch && p is Some == max_positions is Some && (p is Some ==> p->0
                == max_positions->0) && s is Some == max_seconds is Some && (s is Some ==> s->0
                == max_seconds->0),
            Command::Status => command@ == CommandView::Status,
            Command::Perft { depth, divide } => command@ == (CommandView::Perft {
                depth: depth as int,
                divide,
            }),
            Command::Retrograde { batch, max_passes } => command@ matches CommandView::Retrograde {
                batch: b,
                max_passes: p,
            } && b == batch && p is Some == max_passes is Some && (p is Some ==> p->0
                == max_passes->0),
            Command::ExportCsv { output_path } => command@ == (CommandView::ExportCsv {
                output_path: output_path@,
            }),
            Command::Help => command@ == CommandView::Help,
        },
{
}

/// Results of this module and their contents agree on success and failure, value and error.
pub proof fn law_option_outcomes(
    words: Result<Option<String>, Error>,
    number: Result<Option<u64>, Error>,
    config: Result<Config, Error>,
)
    ensures
        words matches Ok(Some(value)) ==> string_outcome(words) == Ok::<
            Option<Seq<char>>,
            ErrorView,
        >(Some(value@)),
        words matches Ok(None) ==> string_outcome(words) == Ok::<Option<Seq<char>>, ErrorView>(
            None,
        ),
        words matches Err(error) ==> string_outcome(words) == Err::<Option<Seq<char>>, ErrorView>(
            error@,
        ),
        number matches Ok(Some(n)) ==> number_outcome(number) == Ok::<Option<int>, ErrorView>(
            Some(n as int),
        ),
        number matches Ok(None) ==> number_outcome(number) == Ok::<Option<int>, ErrorView>(None),
        number matches Err(error) ==> number_outcome(number) == Err::<Option<int>, ErrorView>(
            error@,
        ),
        config matches Ok(found) ==> config_outcome(config) == Ok::<
            (Seq<char>, CommandView),
            ErrorView,
        >((found.db_path@, found.command@)),
        config matches Err(error) ==> config_outcome(config) == Err::<
            (Seq<char>, CommandView),
            ErrorView,
        >(error@),
{
}

} // verus!
