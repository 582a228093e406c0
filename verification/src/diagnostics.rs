//! Diagnostics: the errors that `kotlinc` reports, read from its error output.
use vstd::prelude::*;
use crate::pattern::{regex_compiles, regex_named_captures, Pattern};
use crate::text::{parse_u32, parse_u32_str};

verus! {

/// The pattern of an error line of `kotlinc`: `<file>:<line>:<column>: error: <message>`.
pub const ERROR_PATTERN: &'static str =
    r"(?P<file>.*):(?P<line>\d+):(?P<column>\d+):\s*error:\s*(?P<message>.+)";

/// An error diagnostic: its range in the document and its message.
#[derive(Debug)]
pub struct DiagnosticEntry {
    pub start_line: u32,
    pub start_character: u32,
    pub end_line: u32,
    pub end_character: u32,
    pub message: String,
}

/// The content of a diagnostic.
pub ghost struct DiagnosticModel {
    pub start_line: int,
    pub start_character: int,
    pub end_line: int,
    pub end_character: int,
    pub message: Seq<char>,
}

impl DeepView for DiagnosticEntry {
    type V = DiagnosticModel;

    open spec fn deep_view(&self) -> DiagnosticModel {
        DiagnosticModel {
            start_line: self.start_line as int,
            start_character: self.start_character as int,
            end_line: self.end_line as int,
            end_character: self.end_character as int,
            message: self.message@,
        }
    }
}

/// Why no diagnostics could be made of an error output.
#[derive(Debug, Clone, Copy, PartialEq, Eq, Structural)]
pub enum DiagnosticsError {
    /// The error pattern did not compile.
    Pattern,
    /// A reported line or column is 0, not a number, or too large, so that
    /// the range of its diagnostic does not fit in a `u32`.
    NumberOutOfRange,
}

/// The groups read from each error line: line, column and message.
pub open spec fn group_names() -> Seq<Seq<char>> {
    seq!["line"@, "column"@, "message"@]
}

/// A number read from the error output, or 0 where it does not read as a `u32`.
pub open spec fn number_or_zero(s: Seq<char>) -> int {
    match parse_u32(s) {
        Some(n) => n as int,
        None => 0,
    }
}

/// A row of captured groups gives a diagnostic when all three groups are there.
pub open spec fn row_reportable(row: Seq<Option<Seq<char>>>) -> bool {
    &&& row.len() == 3
    &&& row[0] is Some
    &&& row[1] is Some
    &&& row[2] is Some
}

/// The line and column of a row give a range that fits in a `u32`:
/// both are at least 1, and the column leaves room for the 5 added to it.
pub open spec fn row_in_range(row: Seq<Option<Seq<char>>>) -> bool {
    &&& number_or_zero(row[0]->0) >= 1
    &&& number_or_zero(row[1]->0) >= 1
    &&& number_or_zero(row[1]->0) + 5 <= u32::MAX
}

/// Every row that gives a diagnostic has a line and column in range.
pub open spec fn rows_in_range(rows: Seq<Seq<Option<Seq<char>>>>) -> bool {
    forall|i: int| 0 <= i < rows.len() && row_reportable(#[trigger] rows[i]) ==> row_in_range(rows[i])
}

/// The diagnostic of a row: from (line - 1, column - 1) to (line - 1, column + 5),
/// with the row's message.
pub open spec fn row_diagnostic(row: Seq<Option<Seq<char>>>) -> DiagnosticModel {
    DiagnosticModel {
        start_line: number_or_zero(row[0]->0) - 1,
        start_character: number_or_zero(row[1]->0) - 1,
        end_line: number_or_zero(row[0]->0) - 1,
        end_character: number_or_zero(row[1]->0) + 5,
        message: row[2]->0,
    }
}

/// The diagnostics of the rows that give one, in order.
pub open spec fn diagnostics_of(rows: Seq<Seq<Option<Seq<char>>>>) -> Seq<DiagnosticModel>
    decreases rows.len(),
{
    if rows.len() == 0 {
        Seq::empty()
    } else {
        diagnostics_of(rows.drop_last()) + if row_reportable(rows.last()) {
            seq![row_diagnostic(rows.last())]
        } else {
            Seq::empty()
        }
    }
}

/// The diagnostics of the captured rows of an error output.
pub fn diagnostics_from_captures(rows: &Vec<Vec<Option<String>>>) -> (diagnostics: Vec<DiagnosticEntry>)
    requires
        rows_in_range(rows.deep_view()),
    ensures
        diagnostics.deep_view() == diagnostics_of(rows.deep_view()),
{
    let ghost rs = rows.deep_view();
    let mut diagnostics: Vec<DiagnosticEntry> = Vec::new();
    let mut i: usize = 0;
    proof {
        assert(rs.take(0) =~= Seq::<Seq<Option<Seq<char>>>>::empty());
    }
    while i < rows.len()
        invariant
            i <= rows.len(),
            rs == rows.deep_view(),
            rows_in_range(rs),
            diagnostics.deep_view() =~= diagnostics_of(rs.take(i as int)),
        decreases rows.len() - i,
    {
        let row = &rows[i];
        let ghost rv = rs[i as int];
        proof {
            assert(rs.take(i + 1).drop_last() =~= rs.take(i as int));
            assert(rs.take(i + 1).last() == rv);
            assert(rv == row.deep_view());
        }
        if row.len() == 3 {
            match (&row[0], &row[1], &row[2]) {
                (Some(line), Some(column), Some(message)) => {
                    proof {
                        assert(row_reportable(rv));
                        assert(row_in_range(rv));
                    }
                    let l = match parse_u32_str(line.as_str()) {
                        Some(n) => n,
                        None => 0,
                    };
                    let c = match parse_u32_str(column.as_str()) {
                        Some(n) => n,
                        None => 0,
                    };
                    let entry = DiagnosticEntry {
                        start_line: l - 1,
                        start_character: c - 1,
                        end_line: l - 1,
                        end_character: c + 5,
                        message: message.clone(),
                    };
                    let ghost before = diagnostics.deep_view();
                    diagnostics.push(entry);
                    proof {
                        assert(diagnostics.deep_view() =~= before.push(row_diagnostic(rv)));
                    }
                },
                _ => {
                    proof {
                        assert(!row_reportable(rv));
                    }
                },
            }
        } else {
            proof {
                assert(!row_reportable(rv));
            }
        }
        i += 1;
    }
    proof {
        assert(rs.take(i as int) =~= rs);
    }
    diagnostics
}

/// The rows of `kotlinc`'s error output `stderr` that the error pattern captures.
pub open spec fn error_rows(stderr: Seq<char>) -> Seq<Seq<Option<Seq<char>>>> {
    regex_named_captures(ERROR_PATTERN@, stderr, group_names())
}

/// The diagnostics of `kotlinc`'s error output `stderr`: one for each error
/// line, none for an empty output.
pub fn diagnostics_from_stderr(stderr: &str) -> (r: Result<Vec<DiagnosticEntry>, DiagnosticsError>)
    ensures
        stderr@.len() == 0 ==> (r matches Ok(d) && d.len() == 0),
        stderr@.len() > 0 ==> {
            &&& (r == Err::<Vec<DiagnosticEntry>, _>(DiagnosticsError::Pattern)) <==> !regex_compiles(
                ERROR_PATTERN@,
            )
            &&& (r == Err::<Vec<DiagnosticEntry>, _>(DiagnosticsError::NumberOutOfRange)) <==> (
            regex_compiles(ERROR_PATTERN@) && !rows_in_range(error_rows(stderr@)))
            &&& r matches Ok(d) ==> d.deep_view() == diagnostics_of(error_rows(stderr@))
        },
{
    if stderr.is_empty() {
        return Ok(Vec::new());
    }
    let pattern = match Pattern::new(ERROR_PATTERN) {
        Ok(p) => p,
        Err(_) => return Err(DiagnosticsError::Pattern),
    };
    let names = vec![String::from_str("line"), String::from_str("column"), String::from_str("message")];
    proof {
        assert(names.deep_view() =~= group_names());
    }
    let rows = pattern.named_captures(stderr, &names);
    proof {
        assert(pattern@ == ERROR_PATTERN@);
    }
    let ghost rs = rows.deep_view();
    let mut i: usize = 0;
    while i < rows.len()
        invariant
            i <= rows.len(),
            rs == rows.deep_view(),
            stderr@.len() > 0,
            regex_compiles(ERROR_PATTERN@),
            rs == error_rows(stderr@),
            forall|j: int| 0 <= j < i && row_reportable(#[trigger] rs[j]) ==> row_in_range(rs[j]),
        decreases rows.len() - i,
    {
        let row = &rows[i];
        proof {
            assert(rs[i as int] == row.deep_view());
        }
        if row.len() == 3 {
            match (&row[0], &row[1], &row[2]) {
                (Some(line), Some(column), Some(_)) => {
                    let l = parse_u32_str(line.as_str());
                    let c = parse_u32_str(column.as_str());
                    let in_range = match (l, c) {
                        (Some(l), Some(c)) => l >= 1 && c >= 1 && c <= u32::MAX - 5,
                        _ => false,
                    };
                    if !in_range {
                        proof {
                            assert(row_reportable(rs[i as int]));
                            assert(!row_in_range(rs[i as int]));
                        }
                        return Err(DiagnosticsError::NumberOutOfRange);
                    }
                },
                _ => {},
            }
        }
        i += 1;
    }
    Ok(diagnostics_from_captures(&rows))
}


/// Every diagnostic lies on one line and covers six columns, from just
/// before the reported column to five past it.
pub proof fn law_diagnostic_ranges(rows: Seq<Seq<Option<Seq<char>>>>)
    ensures
        forall|i: int|
            0 <= i < diagnostics_of(rows).len() ==> {
                let d = #[trigger] diagnostics_of(rows)[i];
                &&& d.end_line == d.start_line
                &&& d.end_character == d.start_character + 6
            },
    decreases rows.len(),
{
    if rows.len() > 0 {
        law_diagnostic_ranges(rows.drop_last());
        let prev = diagnostics_of(rows.drop_last());
        let all = diagnostics_of(rows);
        assert forall|i: int| 0 <= i < all.len() implies {
            let d = #[trigger] all[i];
            &&& d.end_line == d.start_line
            &&& d.end_character == d.start_character + 6
        } by {
            if i < prev.len() {
                assert(all[i] == prev[i]);
            } else {
                assert(all[i] == row_diagnostic(rows.last()));
            }
        }
    }
}


/// The diagnostics of rows read one part after another are the diagnostics of
/// the first part followed by those of the second, and the rows are in range
/// exactly when both parts are.
pub proof fn law_diagnostics_concat(a: Seq<Seq<Option<Seq<char>>>>, b: Seq<Seq<Option<Seq<char>>>>)
    ensures
        diagnostics_of(a + b) == diagnostics_of(a) + diagnostics_of(b),
        rows_in_range(a + b) <==> rows_in_range(a) && rows_in_range(b),
    decreases b.len(),
{
    if b.len() == 0 {
        assert(a + b =~= a);
        assert(diagnostics_of(a) + diagnostics_of(b) =~= diagnostics_of(a));
    } else {
        law_diagnostics_concat(a, b.drop_last());
        assert((a + b).drop_last() =~= a + b.drop_last());
        assert((a + b).last() == b.last());
        assert(diagnostics_of(a + b) =~= diagnostics_of(a) + diagnostics_of(b));
    }
    assert(rows_in_range(a + b) <==> rows_in_range(a) && rows_in_range(b)) by {
        if rows_in_range(a + b) {
            assert forall|i: int| 0 <= i < a.len() && row_reportable(#[trigger] a[i]) implies row_in_range(a[i]) by {
                assert((a + b)[i] == a[i]);
            }
            assert forall|i: int| 0 <= i < b.len() && row_reportable(#[trigger] b[i]) implies row_in_range(b[i]) by {
                assert((a + b)[a.len() + i] == b[i]);
            }
        }
        if rows_in_range(a) && rows_in_range(b) {
            assert forall|i: int| 0 <= i < (a + b).len() && row_reportable(#[trigger] (a + b)[i]) implies row_in_range(
                (a + b)[i],
            ) by {
                if i < a.len() {
                    assert((a + b)[i] == a[i]);
                } else {
                    assert((a + b)[i] == b[i - a.len()]);
                }
            }
        }
    }
}

/// An error line whose line reads as a number `l >= 1` and whose column reads
/// as a number `c` with `1 <= c <= u32::MAX - 5` is in range and gives exactly
/// one diagnostic, from `(l - 1, c - 1)` to `(l - 1, c + 5)`, with its message.
pub proof fn law_error_line_diagnostic(line: Seq<char>, column: Seq<char>, message: Seq<char>, l: u32, c: u32)
    requires
        parse_u32(line) == Some(l),
        parse_u32(column) == Some(c),
        l >= 1,
        1 <= c <= u32::MAX - 5,
    ensures
        rows_in_range(seq![seq![Some(line), Some(column), Some(message)]]),
        diagnostics_of(seq![seq![Some(line), Some(column), Some(message)]]) == seq![
            DiagnosticModel {
                start_line: l - 1,
                start_character: c - 1,
                end_line: l - 1,
                end_character: c + 5,
                message,
            },
        ],
{
    let row = seq![Some(line), Some(column), Some(message)];
    let rows = seq![row];
    assert(rows.drop_last() =~= Seq::<Seq<Option<Seq<char>>>>::empty());
    assert(row_reportable(row));
    assert(rows_in_range(rows)) by {
        assert forall|i: int| 0 <= i < rows.len() && row_reportable(#[trigger] rows[i]) implies row_in_range(rows[i]) by {
            assert(rows[i] == row);
        }
    }
    assert(diagnostics_of(rows.drop_last()) == Seq::<DiagnosticModel>::empty());
    assert(rows.last() == row);
    assert(diagnostics_of(rows) =~= seq![row_diagnostic(row)]);
}

/// An error line whose line is 0 or not a `u32` is out of range.
pub proof fn law_error_line_out_of_range(line: Seq<char>, column: Seq<char>, message: Seq<char>)
    requires
        !(parse_u32(line) matches Some(l) && l >= 1),
    ensures
        !rows_in_range(seq![seq![Some(line), Some(column), Some(message)]]),
{
    let row = seq![Some(line), Some(column), Some(message)];
    let rows = seq![row];
    assert(rows[0] == row);
    assert(row_reportable(row));
}

/// An error line whose column is 0, not a `u32` or larger than
/// `u32::MAX - 5` is out of range.
pub proof fn law_error_column_out_of_range(line: Seq<char>, column: Seq<char>, message: Seq<char>)
    requires
        !(parse_u32(column) matches Some(c) && 1 <= c <= u32::MAX - 5),
    ensures
        !rows_in_range(seq![seq![Some(line), Some(column), Some(message)]]),
{
    let row = seq![Some(line), Some(column), Some(message)];
    let rows = seq![row];
    assert(rows[0] == row);
    assert(row_reportable(row));
}

/// A row that lacks one of the three groups gives no diagnostic and is never out of range.
pub proof fn law_incomplete_row_ignored(row: Seq<Option<Seq<char>>>)
    requires
        !(row.len() == 3 && row[0] is Some && row[1] is Some && row[2] is Some),
    ensures
        rows_in_range(seq![row]),
        diagnostics_of(seq![row]) == Seq::<DiagnosticModel>::empty(),
{
    let rows = seq![row];
    assert(rows.drop_last() =~= Seq::<Seq<Option<Seq<char>>>>::empty());
    assert(rows[0] == row);
    assert(diagnostics_of(rows.drop_last()) == Seq::<DiagnosticModel>::empty());
    assert(rows.last() == row);
    assert(!row_reportable(row));
    assert(diagnostics_of(rows) =~= Seq::<DiagnosticModel>::empty());
}

} // verus!
