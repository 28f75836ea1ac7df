//! Decisions of the command loop: what a line of input does to the table and
//! what it prints. Reading lines and writing bytes is left to the caller.
use crate::row::{decode_spec, parse_spec, push_all, PrepareResult, Row, RowView};
use crate::row::ROW_SIZE;
use crate::table::{
    apply_writes, image_rows, layout_len, lemma_close_image, lemma_close_then_reopen, listing,
    page_of, record_in, PageWrite, Table,
    ROUND_TRIP_ROWS, ROWS_PER_PAGE,
};
use crate::text::{is_ws, skip_spaces, skip_ws};
use crate::pager::{disk_page, PAGE_SIZE};
use vstd::prelude::*;
use vstd::string::*;
use vstd::utf8::encode_utf8;

verus! {

/// A prepared command.
pub enum Statement {
    Insert(Row),
    Select,
}

pub ghost enum StatementView {
    Insert(RowView),
    Select,
}

impl View for Statement {
    type V = StatementView;

    open spec fn view(&self) -> StatementView {
        match self {
            Statement::Insert(r) => StatementView::Insert(r@),
            Statement::Select => StatementView::Select,
        }
    }
}

pub enum MetaCommandResult {
    UnrecognizedCommand,
}

pub enum RunControl {
    Exit,
}

/// Whether `s` begins with `p`.
pub open spec fn has_prefix(s: Seq<char>, p: Seq<char>) -> bool {
    s.len() >= p.len() && s.subrange(0, p.len() as int) == p
}

/// End of `s` once trailing whitespace before position `j` is dropped.
pub open spec fn rskip_ws(s: Seq<char>, j: int) -> int
    decreases j,
{
    if j <= 0 || j > s.len() || !is_ws(s[j - 1]) {
        j
    } else {
        rskip_ws(s, j - 1)
    }
}

/// `s` without leading and trailing whitespace.
pub open spec fn trim_spec(s: Seq<char>) -> Seq<char> {
    let a = skip_ws(s, 0);
    let b = rskip_ws(s, s.len() as int);
    if a < b {
        s.subrange(a, b)
    } else {
        Seq::empty()
    }
}

/// What `prepare_statement` makes of a trimmed command.
pub open spec fn prepare_spec(s: Seq<char>) -> Result<StatementView, PrepareResult> {
    if has_prefix(s, "insert"@) {
        match parse_spec(s.subrange("insert"@.len() as int, s.len() as int)) {
            Ok(r) => Ok(StatementView::Insert(r)),
            Err(e) => Err(e),
        }
    } else if has_prefix(s, "select"@) {
        Ok(StatementView::Select)
    } else {
        Err(PrepareResult::UnrecognizedStatement)
    }
}

/// The prompt printed before each line is read.
pub open spec fn prompt() -> Seq<u8> {
    "mysqlite> ".spec_bytes()
}

/// What one trimmed command prints when it changes nothing and does not end
/// the session.
pub open spec fn message(t: Seq<char>) -> Seq<u8> {
    if t[0] == '.' {
        "Unrecognized command '".spec_bytes() + encode_utf8(t) + "'\n".spec_bytes()
    } else {
        match prepare_spec(t) {
            Err(PrepareResult::SyntaxError) => "Syntax error. Could not parse statement.\n".spec_bytes(),
            Err(PrepareResult::StringTooLong) => "String is too long.\n".spec_bytes(),
            _ => "Unrecognized keyword at start of '".spec_bytes() + encode_utf8(t) + "'.\n".spec_bytes(),
        }
    }
}

/// The effect of one line on the rows: the rows after it, what it prints,
/// and whether it ends the session.
#[verifier::opaque]
pub open spec fn line_spec(rows: Seq<RowView>, line: Seq<char>) -> (Seq<RowView>, Seq<u8>, bool) {
    let t = trim_spec(line);
    if t.len() == 0 {
        (rows, Seq::empty(), false)
    } else if t[0] == '.' {
        if t == ".exit"@ {
            (rows, Seq::empty(), true)
        } else {
            (rows, message(t), false)
        }
    } else {
        match prepare_spec(t) {
            Ok(StatementView::Insert(r)) => (rows.push(r), Seq::empty(), false),
            Ok(StatementView::Select) => (rows, listing(rows), false),
            Err(_) => (rows, message(t), false),
        }
    }
}

/// A session over `lines`, starting from `rows`: the bytes printed, the rows
/// at the end, and whether a line ended it.
pub open spec fn session_spec(rows: Seq<RowView>, lines: Seq<Seq<char>>) -> (Seq<u8>, Seq<RowView>, bool)
    decreases lines.len(),
{
    if lines.len() == 0 {
        (Seq::empty(), rows, false)
    } else {
        let (rows1, out1, stop) = line_spec(rows, lines[0]);
        if stop {
            (prompt() + out1, rows1, true)
        } else {
            let (out2, rows2, stop2) = session_spec(rows1, lines.drop_first());
            (prompt() + out1 + out2, rows2, stop2)
        }
    }
}

/// Whether `s` begins with `p`.
fn starts_with(s: &str, p: &str) -> (r: bool)
    ensures
        r == has_prefix(s@, p@),
{
    let n = s.unicode_len();
    let m = p.unicode_len();
    if n < m {
        return false;
    }
    let mut i: usize = 0;
    while i < m
        invariant
            n == s@.len(),
            m == p@.len(),
            m <= n,
            i <= m,
            s@.subrange(0, i as int) == p@.subrange(0, i as int),
        decreases m - i,
    {
        if s.get_char(i) != p.get_char(i) {
            assert(s@.subrange(0, m as int)[i as int] != p@[i as int]);
            return false;
        }
        i = i + 1;
        assert(s@.subrange(0, i as int) =~= p@.subrange(0, i as int));
    }
    assert(p@.subrange(0, m as int) =~= p@);
    true
}

/// The line without leading and trailing whitespace.
pub fn read_input(input_buffer: &str) -> (r: &str)
    ensures
        r@ == trim_spec(input_buffer@),
{
    let n = input_buffer.unicode_len();
    let a = skip_spaces(input_buffer, n, 0);
    let mut b = n;
    while b > 0 && is_space_at(input_buffer, b - 1)
        invariant
            n == input_buffer@.len(),
            b <= n,
            rskip_ws(input_buffer@, b as int) == rskip_ws(input_buffer@, n as int),
        decreases b,
    {
        b = b - 1;
    }
    if a < b {
        input_buffer.substring_char(a, b)
    } else {
        input_buffer.substring_char(0, 0)
    }
}

fn is_space_at(s: &str, i: usize) -> (r: bool)
    requires
        i < s@.len(),
    ensures
        r == is_ws(s@[i as int]),
{
    crate::text::is_space(s.get_char(i))
}

/// Appends the prompt to `output`.
pub fn print_prompt(output: &mut Vec<u8>)
    ensures
        final(output)@ == old(output)@ + prompt(),
{
    push_all(output, "mysqlite> ".as_bytes());
}

/// Turns a trimmed command into a statement.
pub fn prepare_statement(input_buffer: &str) -> (r: Result<Statement, PrepareResult>)
    ensures
        match r {
            Ok(st) => prepare_spec(input_buffer@) == Ok::<StatementView, PrepareResult>(st@)
                && (st matches Statement::Insert(row) ==> row.wf()),
            Err(e) => prepare_spec(input_buffer@) == Err::<StatementView, PrepareResult>(e),
        },
{
    if starts_with(input_buffer, "insert") {
        let n = input_buffer.unicode_len();
        let k = "insert".unicode_len();
        let rest = input_buffer.substring_char(k, n);
        match Row::from_str(rest) {
            Ok(row) => Ok(Statement::Insert(row)),
            Err(e) => Err(e),
        }
    } else if starts_with(input_buffer, "select") {
        Ok(Statement::Select)
    } else {
        Err(PrepareResult::UnrecognizedStatement)
    }
}

/// Recognises the meta command `.exit`.
pub fn do_meta_command(command: &str) -> (r: Result<RunControl, MetaCommandResult>)
    ensures
        r is Ok <==> command@ == ".exit"@,
{
    let exit = ".exit";
    if command.unicode_len() == exit.unicode_len() && starts_with(command, exit) {
        assert(command@ =~= command@.subrange(0, exit@.len() as int));
        Ok(RunControl::Exit)
    } else {
        proof {
            if command@ == exit@ {
                assert(command@.subrange(0, exit@.len() as int) =~= exit@);
            }
        }
        Err(MetaCommandResult::UnrecognizedCommand)
    }
}

/// Runs a prepared statement against the table.
pub fn execute_statement(statement: &Statement, table: &mut Table, output: &mut Vec<u8>)
    requires
        old(table).wf(),
        statement matches Statement::Insert(row) ==> row.wf(),
        page_of(old(table).view().len() as int + 1) < usize::MAX / PAGE_SIZE,
    ensures
        final(table).wf(),
        final(table).cache().image() == old(table).cache().image(),
        match statement@ {
            StatementView::Insert(r) => final(table).view() == old(table).view().push(r)
                && final(output)@ == old(output)@,
            StatementView::Select => final(table).view() == old(table).view() && final(output)@
                == old(output)@ + listing(old(table).view()),
        },
{
    match statement {
        Statement::Insert(row) => match table.insert(row) {
            Ok(()) => {},
            Err(_) => {
                proof {
                    assert(false);
                }
            },
        },
        Statement::Select => table.select(output),
    }
}

/// Carries out one line of input: prints what it prints, changes the table
/// as it asks, and on `.exit` closes the table and returns the writes made.
pub fn execute_line(table: &mut Table, line: &str, output: &mut Vec<u8>) -> (r: Option<
    Vec<PageWrite>,
>)
    requires
        old(table).wf(),
        page_of(old(table).view().len() as int + 1) < usize::MAX / PAGE_SIZE,
    ensures
        ({
            let (rows1, out1, stop) = line_spec(old(table).view(), line@);
            &&& final(output)@ == old(output)@ + out1
            &&& stop == r is Some
            &&& !stop ==> final(table).wf() && final(table).view() == rows1
                && final(table).cache().image() == old(table).cache().image()
            &&& stop ==> rows1 == old(table).view() && final(table).cache().image()
                == old(table).close_image()
        }),
        r matches Some(ws) ==> apply_writes(old(table).cache().image(), ws@)
            == old(table).close_image(),
{
    reveal(line_spec);
    let command = read_input(line);
    if command.unicode_len() == 0 {
        return None;
    }
    if command.get_char(0) == '.' {
        match do_meta_command(command) {
            Ok(RunControl::Exit) => {
                return Some(table.close());
            },
            Err(MetaCommandResult::UnrecognizedCommand) => {
                push_all(output, "Unrecognized command '".as_bytes());
                push_all(output, command.as_bytes());
                push_all(output, "'\n".as_bytes());
                return None;
            },
        }
    }
    match prepare_statement(command) {
        Ok(statement) => {
            execute_statement(&statement, table, output);
            proof {
                assert(output@ =~= old(output)@ + line_spec(old(table).view(), line@).1);
            }
        },
        Err(PrepareResult::SyntaxError) => {
            push_all(output, "Syntax error. Could not parse statement.\n".as_bytes());
        },
        Err(PrepareResult::StringTooLong) => {
            push_all(output, "String is too long.\n".as_bytes());
        },
        Err(PrepareResult::UnrecognizedStatement) => {
            push_all(output, "Unrecognized keyword at start of '".as_bytes());
            push_all(output, command.as_bytes());
            push_all(output, "'.\n".as_bytes());
        },
    }
    None
}

proof fn lemma_line_spec_rows(rows: Seq<RowView>, line: Seq<char>)
    ensures
        line_spec(rows, line).0.len() <= rows.len() + 1,
        line_spec(rows, line).2 ==> line_spec(rows, line).0 == rows,
{
    reveal(line_spec);
}

/// Views of the lines.
pub open spec fn lines_view(lines: Seq<String>) -> Seq<Seq<char>> {
    lines.map_values(|l: String| l@)
}

/// Runs a session over the backing image `file` with the given input lines:
/// a prompt before each line, until `.exit` or the end of the input. Returns
/// the backing image as the session leaves it; after `.exit` the table has
/// been closed into it. The bound on the input keeps every page offset
/// addressable.
pub fn run(lines: &Vec<String>, output: &mut Vec<u8>, file: Vec<u8>) -> (r: Vec<u8>)
    requires
        file@.len() <= isize::MAX,
        file@.len() / (ROW_SIZE as nat) + lines@.len() < ROWS_PER_PAGE * (usize::MAX / PAGE_SIZE
            - 1),
    ensures
        ({
            let (out, rows, exited) = session_spec(image_rows(file@), lines_view(lines@));
            &&& final(output)@ == old(output)@ + out
            &&& !exited ==> r@ == file@
            &&& exited ==> forall|i: int|
                0 <= i < rows.len() ==> #[trigger] decode_spec(
                    record_in(disk_page(r@, page_of(i)), i),
                ) == rows[i]
            &&& exited ==> file@.len() <= r@.len() && (r@.len() <= file@.len() || r@.len()
                <= layout_len(rows.len() as int))
            &&& exited && rows.len() != file@.len() / (ROW_SIZE as nat) ==> r@.len() == layout_len(
                rows.len() as int,
            )
            &&& exited && rows.len() < ROUND_TRIP_ROWS ==> image_rows(r@) == rows
        }),
{
    let ghost all = lines_view(lines@);
    let ghost rows0 = image_rows(file@);
    let ghost file0 = file@;
    let ghost mut acc: Seq<u8> = Seq::empty();
    let mut table = Table::new(file);
    assert(all.subrange(0, all.len() as int) =~= all);
    let mut i: usize = 0;
    while i < lines.len()
        invariant
            table.wf(),
            i <= lines@.len(),
            all == lines_view(lines@),
            rows0 == image_rows(file0),
            file0 == file@,
            table.cache().image() == file0,
            table.view().len() <= file0.len() / (ROW_SIZE as nat) + i,
            file0.len() / (ROW_SIZE as nat) + lines@.len() < ROWS_PER_PAGE * (usize::MAX
                / PAGE_SIZE - 1),
            output@ == old(output)@ + acc,
            session_spec(rows0, all) == ({
                let (o, rws, e) = session_spec(
                    table.view(),
                    all.subrange(i as int, all.len() as int),
                );
                (acc + o, rws, e)
            }),
        decreases lines@.len() - i,
    {
        let ghost rest = all.subrange(i as int, all.len() as int);
        let ghost t0 = table;
        let ghost step = line_spec(t0.view(), rest[0]);
        proof {
            assert(rest[0] == lines@[i as int]@);
            assert(rest.drop_first() =~= all.subrange(i + 1, all.len() as int));
        }
        print_prompt(output);
        let outcome = execute_line(&mut table, lines[i].as_str(), output);
        let ghost acc0 = acc;
        proof {
            lemma_line_spec_rows(t0.view(), rest[0]);
            acc = acc + prompt() + step.1;
            assert(output@ =~= old(output)@ + acc);
        }
        if outcome.is_some() {
            proof {
                assert(acc0 + (prompt() + step.1) =~= acc);
                assert(session_spec(t0.view(), rest) == (prompt() + step.1, step.0, true));
                lemma_close_image(t0);
                if step.0.len() < ROUND_TRIP_ROWS {
                    lemma_close_then_reopen(t0);
                }
            }
            return table.into_file();
        }
        i = i + 1;
        proof {
            let (o2, r2, e2) = session_spec(step.0, all.subrange(i as int, all.len() as int));
            assert(acc0 + (prompt() + step.1 + o2) =~= acc + o2);
        }
    }
    proof {
        assert(all.subrange(i as int, all.len() as int) =~= Seq::<Seq<char>>::empty());
        assert(acc + Seq::<u8>::empty() =~= acc);
    }
    table.into_file()
}

} // verus!
