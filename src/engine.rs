use vstd::prelude::*;
use vstd::string::StrSliceExecFns;
use crate::csv::{csv_chars, csv_table, csv_text, load_csv, LoadError};
use crate::expr::ExecError;
use crate::json::{json_table, load_json};
use crate::query::{execute, execute_spec, Query};
use crate::sql::{parse_sql, query_view, sql_query, SqlError};
use crate::table::{columns_typed, Table, TableModel};
use crate::text::{chars_of, string_of};

verus! {

/// The encodings a source may be in.
#[derive(PartialEq, Eq, Structural, Clone, Copy, Debug)]
pub enum Format {
    Csv,
    Json,
}

/// Why a query failed, by stage.
#[derive(PartialEq, Eq, Structural, Clone, Copy, Debug)]
pub enum QueryError {
    Sql(SqlError),
    Load(LoadError),
    Exec(ExecError),
}

/// A query result.
#[derive(Debug)]
pub struct DataSet(pub Table);

pub open spec fn is_ws(c: char) -> bool {
    c == ' ' || c == '\t' || c == '\n' || c == '\r'
}

/// The first character of `s` that is not white space, if any.
pub open spec fn first_non_ws(s: Seq<char>) -> Option<char>
    decreases s.len(),
{
    if s.len() == 0 {
        None
    } else if is_ws(s[0]) {
        first_non_ws(s.drop_first())
    } else {
        Some(s[0])
    }
}

/// The format of a payload: the hint when there is one, else JSON when the
/// payload starts with `{` or `[` after white space, else CSV.
pub open spec fn detected(data: Seq<char>, hint: Option<Format>) -> Format {
    match hint {
        Some(f) => f,
        None => match first_non_ws(data) {
            Some(c) => if c == '{' || c == '[' {
                Format::Json
            } else {
                Format::Csv
            },
            None => Format::Csv,
        },
    }
}

/// Classifies a payload as CSV or JSON.
pub fn detect_format(data: &Vec<char>, hint: Option<Format>) -> (r: Format)
    ensures
        r == detected(data@, hint),
{
    if let Some(f) = hint {
        return f;
    }
    let mut i: usize = 0;
    assert(data@.skip(0) =~= data@);
    while i < data.len()
        invariant
            hint is None,
            i <= data@.len(),
            first_non_ws(data@) == first_non_ws(data@.skip(i as int)),
        decreases data@.len() - i,
    {
        let c = data[i];
        assert(data@.skip(i as int)[0] == c);
        if !(c == ' ' || c == '\t' || c == '\n' || c == '\r') {
            return if c == '{' || c == '[' {
                Format::Json
            } else {
                Format::Csv
            };
        }
        assert(data@.skip(i as int).drop_first() =~= data@.skip(i + 1));
        i = i + 1;
    }
    assert(data@.skip(i as int).len() == 0);
    Format::Csv
}

/// `s` ends with `tail`.
pub open spec fn ends_with(s: Seq<char>, tail: Seq<char>) -> bool {
    s.len() >= tail.len() && s.subrange(s.len() - tail.len(), s.len() as int) == tail
}

/// The format a source's name announces: `.csv` or `.json` at its end.
pub open spec fn hint_of(source: Seq<char>) -> Option<Format> {
    if ends_with(source, seq!['.', 'c', 's', 'v']) {
        Some(Format::Csv)
    } else if ends_with(source, seq!['.', 'j', 's', 'o', 'n']) {
        Some(Format::Json)
    } else {
        None
    }
}

/// The format that a source's name announces by its extension.
pub fn format_hint(source: &Vec<char>) -> (r: Option<Format>)
    ensures
        r == hint_of(source@),
{
    let n = source.len();
    if n >= 4 && source[n - 4] == '.' && source[n - 3] == 'c' && source[n - 2] == 's' && source[n - 1] == 'v' {
        assert(source@.subrange(n - 4, n as int) =~= seq!['.', 'c', 's', 'v']);
        Some(Format::Csv)
    } else if n >= 5 && source[n - 5] == '.' && source[n - 4] == 'j' && source[n - 3] == 's' && source[n - 2] == 'o' && source[n - 1] == 'n' {
        assert(source@.subrange(n - 5, n as int) =~= seq!['.', 'j', 's', 'o', 'n']);
        Some(Format::Json)
    } else {
        proof {
            if ends_with(source@, seq!['.', 'c', 's', 'v']) {
                let t = source@.subrange(n - 4, n as int);
                assert(t[0] == source@[n - 4] && t[1] == source@[n - 3] && t[2] == source@[n - 2] && t[3] == source@[n - 1]);
            }
            if ends_with(source@, seq!['.', 'j', 's', 'o', 'n']) {
                let t = source@.subrange(n - 5, n as int);
                assert(t[0] == source@[n - 5] && t[1] == source@[n - 4] && t[2] == source@[n - 3] && t[3] == source@[n - 2] && t[4] == source@[n - 1]);
            }
        }
        None
    }
}

/// The table a payload makes in the given format, if any.
pub open spec fn loaded(data: Seq<char>, format: Format) -> Option<TableModel> {
    match format {
        Format::Csv => csv_table(data),
        Format::Json => json_table(data),
    }
}

/// Loads a payload in the given format.
pub fn load(data: &Vec<char>, format: Format) -> (r: Result<Table, LoadError>)
    ensures
        r matches Ok(t) ==> t.wf() && columns_typed(t@),
        r is Ok <==> loaded(data@, format) is Some,
        r matches Ok(t) ==> t@ == loaded(data@, format)->Some_0,
{
    match format {
        Format::Csv => load_csv(data),
        Format::Json => load_json(data),
    }
}

/// Translates SQL text into a query.
pub fn translate(sql: &str) -> (r: Result<Query, QueryError>)
    ensures
        match sql_query(sql@) {
            Ok(m) => r is Ok && query_view(r->Ok_0) == m,
            Err(k) => r matches Err(QueryError::Sql(e)) && e == k,
        },
{
    let s = chars_of(sql);
    match parse_sql(&s) {
        Ok(q) => Ok(q),
        Err(e) => Err(QueryError::Sql(e)),
    }
}

/// Runs a query on a loaded table.
pub fn run_on_table(q: &Query, t: &Table) -> (r: Result<DataSet, QueryError>)
    requires
        t.wf(),
    ensures
        match r {
            Ok(d) => execute_spec(*q, t@, Ok(d.0)),
            Err(QueryError::Exec(x)) => execute_spec(*q, t@, Err(x)),
            Err(_) => false,
        },
{
    match execute(q, t) {
        Ok(out) => Ok(DataSet(out)),
        Err(x) => Err(QueryError::Exec(x)),
    }
}

/// The hint that decides the format: the declared one, else the source's extension.
pub open spec fn hint_for(declared: Option<Format>, source: Seq<char>) -> Option<Format> {
    match declared {
        Some(f) => Some(f),
        None => hint_of(source),
    }
}

/// A declared content type that names a format: `text/csv` or `application/json`
/// at its start.
pub open spec fn content_type_of(t: Seq<char>) -> Option<Format> {
    if starts_with(t, seq!['t', 'e', 'x', 't', '/', 'c', 's', 'v']) {
        Some(Format::Csv)
    } else if starts_with(
        t,
        seq!['a', 'p', 'p', 'l', 'i', 'c', 'a', 't', 'i', 'o', 'n', '/', 'j', 's', 'o', 'n'],
    ) {
        Some(Format::Json)
    } else {
        None
    }
}

pub open spec fn starts_with(s: Seq<char>, head: Seq<char>) -> bool {
    s.len() >= head.len() && s.subrange(0, head.len() as int) == head
}

fn has_prefix(s: &Vec<char>, head: &str) -> (r: bool)
    ensures
        r == starts_with(s@, head@),
{
    let n = head.unicode_len();
    if n > s.len() {
        return false;
    }
    let mut i: usize = 0;
    while i < n
        invariant
            n == head@.len(),
            n <= s@.len(),
            i <= n,
            forall|k: int| 0 <= k < i ==> s@[k] == head@[k],
        decreases n - i,
    {
        if s[i] != head.get_char(i) {
            assert(s@.subrange(0, n as int)[i as int] != head@[i as int]);
            return false;
        }
        i = i + 1;
    }
    assert(s@.subrange(0, n as int) =~= head@);
    true
}

/// The format that a declared content type names, if any.
pub fn content_type_hint(t: &str) -> (r: Option<Format>)
    ensures
        r == content_type_of(t@),
{
    let c = chars_of(t);
    proof {
        reveal_strlit("text/csv");
        reveal_strlit("application/json");
        assert("text/csv"@ =~= seq!['t', 'e', 'x', 't', '/', 'c', 's', 'v']);
        assert("application/json"@ =~= seq![
            'a', 'p', 'p', 'l', 'i', 'c', 'a', 't', 'i', 'o', 'n', '/', 'j', 's', 'o', 'n'
        ]);
    }
    if has_prefix(&c, "text/csv") {
        Some(Format::Csv)
    } else if has_prefix(&c, "application/json") {
        Some(Format::Json)
    } else {
        None
    }
}

/// Runs a query on the text fetched from its source, in the format that the
/// declared hint, else the source's extension, else the text itself gives.
pub fn run_with_hint(q: &Query, data: &str, declared: Option<Format>) -> (r: Result<DataSet, QueryError>)
    ensures
        match loaded(data@, detected(data@, hint_for(declared, q.source@))) {
            None => r matches Err(QueryError::Load(_)),
            Some(m) => match r {
                Ok(d) => execute_spec(*q, m, Ok(d.0)),
                Err(QueryError::Exec(x)) => execute_spec(*q, m, Err(x)),
                _ => false,
            },
        },
{
    let chars = chars_of(data);
    let hint = match declared {
        Some(f) => Some(f),
        None => format_hint(&q.source),
    };
    let format = detect_format(&chars, hint);
    let table = match load(&chars, format) {
        Ok(t) => t,
        Err(e) => {
            return Err(QueryError::Load(e));
        },
    };
    run_on_table(q, &table)
}

/// Runs a query on the text fetched from its source: the format is detected, the
/// text loaded, and the query executed on the table.
pub fn run(q: &Query, data: &str) -> (r: Result<DataSet, QueryError>)
    ensures
        match loaded(data@, detected(data@, hint_of(q.source@))) {
            None => r matches Err(QueryError::Load(_)),
            Some(m) => match r {
                Ok(d) => execute_spec(*q, m, Ok(d.0)),
                Err(QueryError::Exec(x)) => execute_spec(*q, m, Err(x)),
                _ => false,
            },
        },
{
    run_with_hint(q, data, None)
}

impl DataSet {
    /// The result as CSV text: the header line, then one line per row.
    pub fn to_csv(&self) -> (r: String)
        ensures
            r@ == csv_text(self.0@),
    {
        string_of(&csv_chars(&self.0))
    }

    /// The number of rows.
    pub fn height(&self) -> (r: usize)
        ensures
            r == self.0@.rows.len(),
    {
        self.0.rows.len()
    }
}

} // verus!
