use vstd::prelude::*;
use crate::table::{columns_typed, Table, TableModel, names_view, row_view};
use crate::text::{copy_text, text_eq};
use crate::value::{bool_of_text, cell_rank, fits_i64, int_of_text, parse_bool_text, parse_int_text, Cell, Value};

verus! {

pub open spec fn digit_char(d: int) -> char {
    if d == 0 { '0' }
    else if d == 1 { '1' }
    else if d == 2 { '2' }
    else if d == 3 { '3' }
    else if d == 4 { '4' }
    else if d == 5 { '5' }
    else if d == 6 { '6' }
    else if d == 7 { '7' }
    else if d == 8 { '8' }
    else { '9' }
}

/// The decimal digits of a natural number.
pub open spec fn nat_digits(n: nat) -> Seq<char>
    decreases n,
{
    if n < 10 {
        seq![digit_char(n as int)]
    } else {
        nat_digits(n / 10).push(digit_char((n % 10) as int))
    }
}

/// The decimal form of an integer.
pub open spec fn int_text(i: int) -> Seq<char> {
    if i < 0 {
        seq!['-'] + nat_digits((-i) as nat)
    } else {
        nat_digits(i as nat)
    }
}

/// A text field needs quotes when it holds a comma, a quote or a line break.
pub open spec fn needs_quotes(t: Seq<char>) -> bool {
    exists|i: int| 0 <= i < t.len() && (t[i] == ',' || t[i] == '"' || t[i] == '\n' || t[i] == '\r')
}

/// The characters of a text with each quote doubled.
pub open spec fn escape_quotes(t: Seq<char>) -> Seq<char>
    decreases t.len(),
{
    if t.len() == 0 {
        Seq::empty()
    } else if t.last() == '"' {
        escape_quotes(t.drop_last()) + seq!['"', '"']
    } else {
        escape_quotes(t.drop_last()).push(t.last())
    }
}

pub open spec fn text_field(t: Seq<char>) -> Seq<char> {
    if needs_quotes(t) {
        seq!['"'] + escape_quotes(t) + seq!['"']
    } else {
        t
    }
}

/// How a cell is written in a CSV field: null as nothing.
pub open spec fn cell_field(c: Cell) -> Seq<char> {
    match c {
        Cell::Null => Seq::empty(),
        Cell::Bool(b) => if b {
            seq!['t', 'r', 'u', 'e']
        } else {
            seq!['f', 'a', 'l', 's', 'e']
        },
        Cell::Int(i) => int_text(i),
        Cell::Text(t) => text_field(t),
    }
}

/// Fields separated by commas.
pub open spec fn join_fields(fs: Seq<Seq<char>>) -> Seq<char>
    decreases fs.len(),
{
    if fs.len() == 0 {
        Seq::empty()
    } else if fs.len() == 1 {
        fs[0]
    } else {
        join_fields(fs.drop_last()).push(',') + fs.last()
    }
}

/// The lines of the rows, each ended by a line break.
pub open spec fn rows_text(rows: Seq<Seq<Cell>>) -> Seq<char>
    decreases rows.len(),
{
    if rows.len() == 0 {
        Seq::empty()
    } else {
        rows_text(rows.drop_last()) + join_fields(rows.last().map_values(|c: Cell| cell_field(c)))
            .push('\n')
    }
}

/// A table as CSV: the header line, then one line per row.
pub open spec fn csv_text(m: TableModel) -> Seq<char> {
    join_fields(m.names.map_values(|n: Seq<char>| text_field(n))).push('\n') + rows_text(m.rows)
}

fn digit_of(d: u64) -> (c: char)
    requires
        d < 10,
    ensures
        c == digit_char(d as int),
{
    if d == 0 { '0' }
    else if d == 1 { '1' }
    else if d == 2 { '2' }
    else if d == 3 { '3' }
    else if d == 4 { '4' }
    else if d == 5 { '5' }
    else if d == 6 { '6' }
    else if d == 7 { '7' }
    else if d == 8 { '8' }
    else { '9' }
}

fn push_digits(n: u64, out: &mut Vec<char>)
    ensures
        final(out)@ == old(out)@ + nat_digits(n as nat),
    decreases n,
{
    if n >= 10 {
        push_digits(n / 10, out);
    }
    out.push(digit_of(n % 10));
    proof {
        if n >= 10 {
            assert(nat_digits(n as nat) == nat_digits((n / 10) as nat).push(digit_char((n % 10) as int)));
        }
    }
    assert(out@ =~= old(out)@ + nat_digits(n as nat));
}

fn push_int(i: i64, out: &mut Vec<char>)
    ensures
        final(out)@ == old(out)@ + int_text(i as int),
{
    if i < 0 {
        out.push('-');
        let m: i128 = -(i as i128);
        push_digits(m as u64, out);
        assert(out@ =~= old(out)@ + int_text(i as int));
    } else {
        push_digits(i as u64, out);
    }
}

fn push_text_field(t: &Vec<char>, out: &mut Vec<char>)
    ensures
        final(out)@ == old(out)@ + text_field(t@),
{
    let mut quote = false;
    let mut i: usize = 0;
    while i < t.len()
        invariant
            i <= t@.len(),
            quote == exists|k: int| 0 <= k < i && (t@[k] == ',' || t@[k] == '"' || t@[k] == '\n' || t@[k] == '\r'),
        decreases t@.len() - i,
    {
        let c = t[i];
        if c == ',' || c == '"' || c == '\n' || c == '\r' {
            quote = true;
        }
        i = i + 1;
    }
    if !quote {
        let mut k: usize = 0;
        while k < t.len()
            invariant
                k <= t@.len(),
                out@ == old(out)@ + t@.subrange(0, k as int),
            decreases t@.len() - k,
        {
            out.push(t[k]);
            k = k + 1;
            assert(out@ =~= old(out)@ + t@.subrange(0, k as int));
        }
        assert(t@.subrange(0, k as int) =~= t@);
        return;
    }
    out.push('"');
    let ghost start = out@;
    let mut k: usize = 0;
    while k < t.len()
        invariant
            k <= t@.len(),
            out@ == start + escape_quotes(t@.subrange(0, k as int)),
        decreases t@.len() - k,
    {
        let ghost before = t@.subrange(0, k as int);
        assert(t@.subrange(0, k + 1).drop_last() =~= before);
        if t[k] == '"' {
            out.push('"');
            out.push('"');
        } else {
            out.push(t[k]);
        }
        k = k + 1;
        assert(out@ =~= start + escape_quotes(t@.subrange(0, k as int)));
    }
    assert(t@.subrange(0, k as int) =~= t@);
    out.push('"');
    assert(out@ =~= old(out)@ + text_field(t@));
}

fn push_cell(v: &Value, out: &mut Vec<char>)
    ensures
        final(out)@ == old(out)@ + cell_field(v@),
{
    match v {
        Value::Null => {
            assert(out@ =~= old(out)@ + cell_field(v@));
        },
        Value::Bool(b) => {
            if *b {
                out.push('t');
                out.push('r');
                out.push('u');
                out.push('e');
            } else {
                out.push('f');
                out.push('a');
                out.push('l');
                out.push('s');
                out.push('e');
            }
            assert(out@ =~= old(out)@ + cell_field(v@));
        },
        Value::Int(i) => push_int(*i, out),
        Value::Text(t) => push_text_field(t, out),
    }
}

fn push_header(names: &Vec<Vec<char>>, out: &mut Vec<char>)
    ensures
        final(out)@ == old(out)@ + join_fields(names_view(names@).map_values(|n: Seq<char>| text_field(n))),
{
    let ghost fs = names_view(names@).map_values(|n: Seq<char>| text_field(n));
    let mut i: usize = 0;
    while i < names.len()
        invariant
            i <= names@.len(),
            fs == names_view(names@).map_values(|n: Seq<char>| text_field(n)),
            out@ == old(out)@ + join_fields(fs.subrange(0, i as int)),
        decreases names@.len() - i,
    {
        if i > 0 {
            out.push(',');
        }
        push_text_field(&names[i], out);
        proof {
            let s = fs.subrange(0, i + 1);
            assert(s.drop_last() =~= fs.subrange(0, i as int));
            assert(s.last() == text_field(names@[i as int]@));
            if i == 0 {
                assert(join_fields(fs.subrange(0, 0)) =~= Seq::empty());
            }
        }
        i = i + 1;
        assert(out@ =~= old(out)@ + join_fields(fs.subrange(0, i as int)));
    }
    assert(fs.subrange(0, i as int) =~= fs);
}

fn push_row(row: &Vec<Value>, out: &mut Vec<char>)
    ensures
        final(out)@ == old(out)@ + join_fields(row_view(row@).map_values(|c: Cell| cell_field(c))),
{
    let ghost fs = row_view(row@).map_values(|c: Cell| cell_field(c));
    let mut i: usize = 0;
    while i < row.len()
        invariant
            i <= row@.len(),
            fs == row_view(row@).map_values(|c: Cell| cell_field(c)),
            out@ == old(out)@ + join_fields(fs.subrange(0, i as int)),
        decreases row@.len() - i,
    {
        if i > 0 {
            out.push(',');
        }
        push_cell(&row[i], out);
        proof {
            let s = fs.subrange(0, i + 1);
            assert(s.drop_last() =~= fs.subrange(0, i as int));
            assert(s.last() == cell_field(row@[i as int]@));
            if i == 0 {
                assert(join_fields(fs.subrange(0, 0)) =~= Seq::empty());
            }
        }
        i = i + 1;
        assert(out@ =~= old(out)@ + join_fields(fs.subrange(0, i as int)));
    }
    assert(fs.subrange(0, i as int) =~= fs);
}

/// The characters of a table written as CSV.
pub fn csv_chars(t: &Table) -> (r: Vec<char>)
    ensures
        r@ == csv_text(t@),
{
    let mut out: Vec<char> = Vec::new();
    push_header(&t.names, &mut out);
    out.push('\n');
    let ghost head = out@;
    let mut i: usize = 0;
    while i < t.rows.len()
        invariant
            i <= t@.rows.len(),
            out@ == head + rows_text(t@.rows.subrange(0, i as int)),
        decreases t@.rows.len() - i,
    {
        push_row(&t.rows[i], &mut out);
        out.push('\n');
        proof {
            let s = t@.rows.subrange(0, i + 1);
            assert(s.drop_last() =~= t@.rows.subrange(0, i as int));
            assert(s.last() == row_view(t.rows@[i as int]@));
        }
        i = i + 1;
        assert(out@ =~= head + rows_text(t@.rows.subrange(0, i as int)));
    }
    assert(t@.rows.subrange(0, i as int) =~= t@.rows);
    out
}

/// Why raw data could not be loaded into a table; the number locates the fault:
/// the line of CSV text; in JSON text, the character position of a syntax fault,
/// or the row at which a column first holds a second kind of value.
#[derive(PartialEq, Eq, Structural, Clone, Copy, Debug)]
pub enum LoadError {
    ParseError(usize),
}

/// One field of a CSV record, and whether it was quoted.
pub struct Field {
    pub text: Vec<char>,
    pub quoted: bool,
}

/// A field as text, and whether it was quoted.
pub open spec fn field_view(f: Field) -> (Seq<char>, bool) {
    (f.text@, f.quoted)
}

pub open spec fn record_view(r: Seq<Field>) -> Seq<(Seq<char>, bool)> {
    r.map_values(|f: Field| field_view(f))
}

pub open spec fn records_view(rs: Seq<Vec<Field>>) -> Seq<Seq<(Seq<char>, bool)>> {
    rs.map_values(|r: Vec<Field>| record_view(r@))
}

/// Where the reading of CSV text stands: the records done, the fields of the
/// current record, the text of the current field, whether it opened with a quote,
/// whether we are inside quotes, and whether a quote inside quotes was just seen
/// (it closes the quotes unless another quote follows).
pub struct CsvState {
    pub records: Seq<Seq<(Seq<char>, bool)>>,
    pub record: Seq<(Seq<char>, bool)>,
    pub text: Seq<char>,
    pub quoted: bool,
    pub in_quotes: bool,
    pub pending: bool,
}

pub open spec fn csv_start() -> CsvState {
    CsvState {
        records: Seq::empty(),
        record: Seq::empty(),
        text: Seq::empty(),
        quoted: false,
        in_quotes: false,
        pending: false,
    }
}

pub open spec fn end_field(st: CsvState) -> CsvState {
    CsvState { record: st.record.push((st.text, st.quoted)), text: Seq::empty(), quoted: false, ..st }
}

/// A character outside quotes: a quote opens a field's quotes, a comma ends the
/// field, a line feed ends the record, a carriage return is dropped.
pub open spec fn outside_step(st: CsvState, c: char) -> CsvState {
    if c == '"' && st.text.len() == 0 && !st.quoted {
        CsvState { in_quotes: true, quoted: true, ..st }
    } else if c == ',' {
        end_field(st)
    } else if c == '\n' {
        let f = end_field(st);
        CsvState { records: f.records.push(f.record), record: Seq::empty(), ..f }
    } else if c == '\r' {
        st
    } else {
        CsvState { text: st.text.push(c), ..st }
    }
}

/// One character of CSV text; inside quotes, two quotes stand for one.
pub open spec fn csv_step(st: CsvState, c: char) -> CsvState {
    if st.in_quotes && !st.pending {
        if c == '"' {
            CsvState { pending: true, ..st }
        } else {
            CsvState { text: st.text.push(c), ..st }
        }
    } else if st.in_quotes {
        if c == '"' {
            CsvState { text: st.text.push('"'), pending: false, ..st }
        } else {
            outside_step(CsvState { in_quotes: false, pending: false, ..st }, c)
        }
    } else {
        outside_step(st, c)
    }
}

pub open spec fn csv_run(s: Seq<char>) -> CsvState
    decreases s.len(),
{
    if s.len() == 0 {
        csv_start()
    } else {
        csv_step(csv_run(s.drop_last()), s.last())
    }
}

/// The records of CSV text: none when a quote is left open; a last line without
/// a line feed is a record too.
pub open spec fn csv_records(s: Seq<char>) -> Option<Seq<Seq<(Seq<char>, bool)>>> {
    let st = csv_run(s);
    if st.in_quotes && !st.pending {
        None
    } else if st.text.len() > 0 || st.quoted || st.record.len() > 0 {
        Some(st.records.push(st.record.push((st.text, st.quoted))))
    } else {
        Some(st.records)
    }
}

/// Splits CSV text into records of fields; a quoted field may hold commas,
/// line breaks and doubled quotes.
fn split_records(s: &Vec<char>) -> (r: Result<Vec<Vec<Field>>, LoadError>)
    ensures
        match csv_records(s@) {
            Some(rm) => r is Ok && records_view(r->Ok_0@) == rm,
            None => r is Err,
        },
{
    let mut records: Vec<Vec<Field>> = Vec::new();
    let mut record: Vec<Field> = Vec::new();
    let mut text: Vec<char> = Vec::new();
    let mut quoted = false;
    let mut in_quotes = false;
    let mut pending = false;
    let mut line: usize = 1;
    let mut i: usize = 0;
    assert(records_view(records@) =~= Seq::empty());
    assert(record_view(record@) =~= Seq::empty());
    assert(text@ =~= Seq::<char>::empty());
    assert(s@.subrange(0, 0) =~= Seq::<char>::empty());
    while i < s.len()
        invariant
            i <= s@.len(),
            csv_run(s@.subrange(0, i as int)) == (CsvState {
                records: records_view(records@),
                record: record_view(record@),
                text: text@,
                quoted,
                in_quotes,
                pending,
            }),
        decreases s@.len() - i,
    {
        let c = s[i];
        proof {
            let sub = s@.subrange(0, i + 1);
            assert(sub.drop_last() =~= s@.subrange(0, i as int));
            assert(sub.last() == c);
        }
        let mut outside = !in_quotes;
        if in_quotes && !pending {
            if c == '"' {
                pending = true;
            } else {
                if c == '\n' {
                    line = line.saturating_add(1);
                }
                text.push(c);
            }
        } else if in_quotes {
            if c == '"' {
                text.push('"');
                pending = false;
            } else {
                in_quotes = false;
                pending = false;
                outside = true;
            }
        }
        if outside {
            if c == '"' && text.len() == 0 && !quoted {
                in_quotes = true;
                quoted = true;
            } else if c == ',' {
                let ghost rv0 = record_view(record@);
                let ghost tv = text@;
                record.push(Field { text, quoted });
                assert(record_view(record@) =~= rv0.push((tv, quoted)));
                text = Vec::new();
                quoted = false;
            } else if c == '\n' {
                let ghost rv0 = record_view(record@);
                let ghost tv = text@;
                record.push(Field { text, quoted });
                let ghost rv = record_view(record@);
                assert(rv =~= rv0.push((tv, quoted)));
                let ghost rsv = records_view(records@);
                records.push(record);
                assert(records_view(records@) =~= rsv.push(rv));
                record = Vec::new();
                text = Vec::new();
                quoted = false;
                line = line.saturating_add(1);
            } else if c == '\r' {
            } else {
                text.push(c);
            }
        }
        proof {
            assert(record_view(record@) =~= csv_run(s@.subrange(0, i + 1)).record);
            assert(records_view(records@) =~= csv_run(s@.subrange(0, i + 1)).records);
            assert(text@ =~= csv_run(s@.subrange(0, i + 1)).text);
        }
        i = i + 1;
    }
    assert(s@.subrange(0, i as int) =~= s@);
    if in_quotes && !pending {
        return Err(LoadError::ParseError(line));
    }
    if text.len() > 0 || quoted || record.len() > 0 {
        let ghost rv = record_view(record@);
        record.push(Field { text, quoted });
        assert(record_view(record@) =~= rv.push((text@, quoted)));
        let ghost rsv = records_view(records@);
        records.push(record);
        assert(records_view(records@) =~= rsv.push(record_view(record@)));
    }
    Ok(records)
}

/// A record that is an empty line.
pub open spec fn is_blank(rec: Seq<(Seq<char>, bool)>) -> bool {
    rec.len() == 1 && rec[0].0.len() == 0 && !rec[0].1
}

/// An empty unquoted field stands for null.
pub open spec fn is_null_field(f: (Seq<char>, bool)) -> bool {
    f.0.len() == 0 && !f.1
}

/// The kind a text suggests: integer (2), then boolean (1), then text (3).
pub open spec fn kind_of_text(t: Seq<char>) -> int {
    if int_of_text(t) matches Some(v) && fits_i64(v) {
        2
    } else if bool_of_text(t) is Some {
        1
    } else {
        3
    }
}

/// The kind of column `c`: that of its first non-null field from record `i` on,
/// or text when it has none.
pub open spec fn first_kind(recs: Seq<Seq<(Seq<char>, bool)>>, c: int, i: int) -> int
    decreases recs.len() - i,
{
    if i >= recs.len() || i < 0 {
        3
    } else if c < recs[i].len() && !is_null_field(recs[i][c]) {
        kind_of_text(recs[i][c].0)
    } else {
        first_kind(recs, c, i + 1)
    }
}

/// A field read as a cell of the given kind, if it can be.
pub open spec fn field_cell(f: (Seq<char>, bool), kind: int) -> Option<Cell> {
    if is_null_field(f) {
        Some(Cell::Null)
    } else if kind == 2 {
        match int_of_text(f.0) {
            Some(v) => if fits_i64(v) {
                Some(Cell::Int(v))
            } else {
                None
            },
            None => None,
        }
    } else if kind == 1 {
        match bool_of_text(f.0) {
            Some(b) => Some(Cell::Bool(b)),
            None => None,
        }
    } else {
        Some(Cell::Text(f.0))
    }
}

/// The cells of a record, if every field can be read in its column's kind.
pub open spec fn row_cells(rec: Seq<(Seq<char>, bool)>, kinds: Seq<int>) -> Option<Seq<Cell>> {
    if forall|c: int| 0 <= c < rec.len() ==> (#[trigger] field_cell(rec[c], kinds[c])) is Some {
        Some(Seq::new(rec.len(), |c: int| field_cell(rec[c], kinds[c])->Some_0))
    } else {
        None
    }
}

/// The rows of records `1 .. n`; an empty line is skipped unless there is a
/// single column; a record of the wrong width or with an unreadable field refuses all.
pub open spec fn rows_of(recs: Seq<Seq<(Seq<char>, bool)>>, width: int, kinds: Seq<int>, n: int) -> Option<
    Seq<Seq<Cell>>,
>
    decreases n,
{
    if n <= 1 {
        Some(Seq::empty())
    } else {
        match rows_of(recs, width, kinds, n - 1) {
            None => None,
            Some(rs) => {
                let rec = recs[n - 1];
                if is_blank(rec) && width != 1 {
                    Some(rs)
                } else if rec.len() != width {
                    None
                } else {
                    match row_cells(rec, kinds) {
                        Some(row) => Some(rs.push(row)),
                        None => None,
                    }
                }
            },
        }
    }
}

pub open spec fn header_names(recs: Seq<Seq<(Seq<char>, bool)>>) -> Seq<Seq<char>> {
    recs[0].map_values(|f: (Seq<char>, bool)| f.0)
}

pub open spec fn column_kinds(recs: Seq<Seq<(Seq<char>, bool)>>) -> Seq<int> {
    Seq::new(recs[0].len(), |c: int| first_kind(recs, c, 1))
}

/// The table that CSV records make: the first names the columns, which must
/// differ; each later one is a row.
pub open spec fn fields_table(recs: Seq<Seq<(Seq<char>, bool)>>) -> Option<TableModel> {
    if recs.len() == 0 {
        None
    } else if exists|a: int, b: int|
        0 <= a < b < recs[0].len() && #[trigger] header_names(recs)[a] == #[trigger] header_names(
            recs,
        )[b] {
        None
    } else {
        match rows_of(recs, recs[0].len() as int, column_kinds(recs), recs.len() as int) {
            Some(rows) => Some(TableModel { names: header_names(recs), rows }),
            None => None,
        }
    }
}

fn blank(rec: &Vec<Field>) -> (r: bool)
    ensures
        r == is_blank(record_view(rec@)),
{
    rec.len() == 1 && rec[0].text.len() == 0 && !rec[0].quoted
}

fn infer_kind(f: &Field) -> (k: u8)
    ensures
        k as int == kind_of_text(f.text@),
{
    if parse_int_text(&f.text).is_some() {
        2
    } else if parse_bool_text(&f.text).is_some() {
        1
    } else {
        3
    }
}

fn field_value(f: &Field, kind: u8) -> (r: Option<Value>)
    ensures
        match (r, field_cell(field_view(*f), kind as int)) {
            (Some(v), Some(c)) => v@ == c,
            (None, None) => true,
            _ => false,
        },
{
    if f.text.len() == 0 && !f.quoted {
        return Some(Value::Null);
    }
    if kind == 2 {
        match parse_int_text(&f.text) {
            Some(i) => Some(Value::Int(i)),
            None => None,
        }
    } else if kind == 1 {
        match parse_bool_text(&f.text) {
            Some(b) => Some(Value::Bool(b)),
            None => None,
        }
    } else {
        Some(Value::Text(copy_text(&f.text)))
    }
}

proof fn lemma_rows_of_none(recs: Seq<Seq<(Seq<char>, bool)>>, width: int, kinds: Seq<int>, n: int, m: int)
    requires
        n <= m,
        rows_of(recs, width, kinds, n) is None,
    ensures
        rows_of(recs, width, kinds, m) is None,
    decreases m - n,
{
    if n < m {
        lemma_rows_of_none(recs, width, kinds, n, m - 1);
    }
}

proof fn lemma_kind_range(recs: Seq<Seq<(Seq<char>, bool)>>, c: int, i: int)
    ensures
        1 <= first_kind(recs, c, i) <= 3,
    decreases recs.len() - i,
{
    if 0 <= i < recs.len() && !(c < recs[i].len() && !is_null_field(recs[i][c])) {
        lemma_kind_range(recs, c, i + 1);
    }
}

/// Builds the table of CSV records.
pub fn table_from_fields(recs: &Vec<Vec<Field>>) -> (r: Result<Table, LoadError>)
    ensures
        match r {
            Ok(t) => fields_table(records_view(recs@)) == Some(t@) && t.wf() && columns_typed(t@),
            Err(_) => fields_table(records_view(recs@)) is None,
        },
{
    let ghost rv = records_view(recs@);
    if recs.len() == 0 {
        return Err(LoadError::ParseError(1));
    }
    assert(rv[0] == record_view(recs@[0]@));
    let header = &recs[0];
    let ghost hn = header_names(rv);
    assert(hn.len() == header@.len());
    assert(forall|j: int| 0 <= j < header@.len() ==> #[trigger] hn[j] == header@[j].text@);
    let mut names: Vec<Vec<char>> = Vec::new();
    let mut c: usize = 0;
    while c < header.len()
        invariant
            rv == records_view(recs@),
            header == recs@[0],
            hn == header_names(rv),
            hn.len() == header@.len(),
            forall|j: int| 0 <= j < header@.len() ==> #[trigger] hn[j] == header@[j].text@,
            c <= header@.len(),
            names@.len() == c,
            forall|j: int| 0 <= j < c ==> #[trigger] names@[j]@ == hn[j],
            forall|i: int, j: int| 0 <= i < j < c ==> #[trigger] names@[i]@ != #[trigger] names@[j]@,
        decreases header@.len() - c,
    {
        let mut k: usize = 0;
        while k < c
            invariant
                rv == records_view(recs@),
                header == recs@[0],
                hn == header_names(rv),
                hn.len() == header@.len(),
                forall|j: int| 0 <= j < header@.len() ==> #[trigger] hn[j] == header@[j].text@,
            hn.len() == header@.len(),
            forall|j: int| 0 <= j < header@.len() ==> #[trigger] hn[j] == header@[j].text@,
                k <= c == names@.len(),
                c < header@.len(),
                forall|j: int| 0 <= j < c ==> #[trigger] names@[j]@ == hn[j],
                forall|j: int| 0 <= j < k ==> names@[j]@ != header@[c as int].text@,
            decreases c - k,
        {
            if text_eq(&names[k], &header[c].text) {
                assert(hn[k as int] == hn[c as int]);
                return Err(LoadError::ParseError(1));
            }
            k = k + 1;
        }
        names.push(copy_text(&header[c].text));
        c = c + 1;
    }
    assert(names_view(names@) =~= hn);
    let width = names.len();
    let nrec = recs.len();
    let ghost kinds_m = column_kinds(rv);
    let mut kinds: Vec<u8> = Vec::new();
    let mut c: usize = 0;
    while c < width
        invariant
            rv == records_view(recs@),
            nrec == recs@.len() >= 1,
            width == recs@[0]@.len(),
            kinds_m == column_kinds(rv),
            c <= width,
            kinds@.len() == c,
            forall|j: int| 0 <= j < c ==> #[trigger] kinds@[j] as int == kinds_m[j],
        decreases width - c,
    {
        let mut kind: u8 = 3;
        let mut found = false;
        let mut i: usize = 1;
        while i < recs.len() && !found
            invariant
                rv == records_view(recs@),
                1 <= i <= recs@.len(),
                found ==> kind as int == first_kind(rv, c as int, 1),
                !found ==> kind == 3,
                !found ==> first_kind(rv, c as int, 1) == first_kind(rv, c as int, i as int),
            decreases recs@.len() - i + (if found { 0int } else { 1int }),
        {
            let rec = &recs[i];
            if c < rec.len() && (rec[c].text.len() > 0 || rec[c].quoted) {
                kind = infer_kind(&rec[c]);
                assert(!is_null_field(rv[i as int][c as int]));
                found = true;
            } else {
                i = i + 1;
            }
        }
        assert(kind as int == first_kind(rv, c as int, 1));
        kinds.push(kind);
        c = c + 1;
    }
    let ghost rowsm = rows_of(rv, width as int, kinds_m, recs@.len() as int);
    let mut rows: Vec<Vec<Value>> = Vec::new();
    let mut i: usize = 1;
    while i < recs.len()
        invariant
            rv == records_view(recs@),
            1 <= i <= recs@.len() == nrec,
            width == recs@[0]@.len(),
            kinds_m == column_kinds(rv),
            kinds@.len() == width,
            forall|j: int| 0 <= j < width ==> #[trigger] kinds@[j] as int == kinds_m[j],
            rowsm == rows_of(rv, width as int, kinds_m, recs@.len() as int),
            rows_of(rv, width as int, kinds_m, i as int) == Some(
                rows@.map_values(|r: Vec<Value>| row_view(r@)),
            ),
        decreases recs@.len() - i,
    {
        let rec = &recs[i];
        let line_no = i + 1;
        let ghost before = rows@.map_values(|r: Vec<Value>| row_view(r@));
        if !blank(rec) || width == 1 {
            if rec.len() != width {
                proof {
                    lemma_rows_of_none(rv, width as int, kinds_m, i + 1, recs@.len() as int);
                }
                return Err(LoadError::ParseError(line_no));
            }
            let mut row: Vec<Value> = Vec::new();
            let mut c: usize = 0;
            while c < width
                invariant
                    rv == records_view(recs@),
                    c <= width == rec@.len(),
                    width == recs@[0]@.len(),
                    1 <= i < recs@.len(),
                    rec == recs@[i as int],
                    rv[i as int] == record_view(rec@),
                    !(is_blank(rv[i as int]) && width != 1),
                    kinds_m == column_kinds(rv),
                    rows_of(rv, width as int, kinds_m, i as int) == Some(before),
                    kinds@.len() == width,
                    forall|j: int| 0 <= j < width ==> #[trigger] kinds@[j] as int == kinds_m[j],
                    row@.len() == c,
                    forall|j: int| 0 <= j < c ==> (#[trigger] field_cell(rv[i as int][j], kinds_m[j])) is Some,
                    forall|j: int|
                        0 <= j < c ==> (#[trigger] row@[j])@ == field_cell(rv[i as int][j], kinds_m[j])->Some_0,
                decreases width - c,
            {
                match field_value(&rec[c], kinds[c]) {
                    Some(v) => {
                        row.push(v);
                    },
                    None => {
                        proof {
                            assert(field_cell(rv[i as int][c as int], kinds_m[c as int]) is None);
                            assert(row_cells(rv[i as int], kinds_m) is None);
                            assert(rows_of(rv, width as int, kinds_m, i as int + 1) is None);
                            lemma_rows_of_none(rv, width as int, kinds_m, i + 1, recs@.len() as int);
                        }
                        return Err(LoadError::ParseError(line_no));
                    },
                }
                c = c + 1;
            }
            assert(row_view(row@) =~= row_cells(rv[i as int], kinds_m)->Some_0);
            rows.push(row);
            assert(rows@.map_values(|r: Vec<Value>| row_view(r@)) =~= before.push(row_view(row@)));
        }
        i = i + 1;
    }
    let t = Table { names, rows };
    proof {
        assert(!(exists|a: int, b: int|
            0 <= a < b < recs@[0]@.len() && #[trigger] header_names(rv)[a] == #[trigger] header_names(
                rv,
            )[b])) by {
            assert forall|a: int, b: int| 0 <= a < b < recs@[0]@.len() implies #[trigger] header_names(rv)[a] != #[trigger] header_names(rv)[b] by {
                assert(names@[a]@ == hn[a] && names@[b]@ == hn[b]);
            };
        };
        assert(t@.names == hn);
        assert(fields_table(records_view(recs@)) == Some(t@));
        assert forall|j: int| 0 <= j < width implies 1 <= #[trigger] kinds_m[j] <= 3 by {
            lemma_kind_range(rv, j, 1);
        };
        assert forall|r: int| 0 <= r < t@.rows.len() implies #[trigger] t@.rows[r].len() == t@.names.len() by {
            lemma_rows_width(rv, width as int, kinds_m, recs@.len() as int);
        };
        assert forall|c: int, i: int, j: int|
            0 <= c < t@.names.len() && 0 <= i < t@.rows.len() && 0 <= j < t@.rows.len() && !(
            #[trigger] t@.rows[i][c] is Null) && !(#[trigger] t@.rows[j][c] is Null) implies cell_rank(
                t@.rows[i][c],
            ) == cell_rank(t@.rows[j][c]) by {
            lemma_rows_width(rv, width as int, kinds_m, recs@.len() as int);
            let rs = rows_of(rv, width as int, kinds_m, recs@.len() as int)->Some_0;
            assert(rs == t@.rows);
            assert(rs[i].len() == width);
            assert(cell_rank(rs[i][c]) == kinds_m[c]);
            assert(rs[j].len() == width);
            assert(cell_rank(rs[j][c]) == kinds_m[c]);
        };
        assert forall|a: int, b: int| 0 <= a < b < t@.names.len() implies #[trigger] t@.names[a] != #[trigger] t@.names[b] by {
            assert(names@[a]@ == hn[a] && names@[b]@ == hn[b]);
        };
    }
    Ok(t)
}

/// The rows that `rows_of` gives have the width, and each non-null cell the kind of its column.
proof fn lemma_rows_width(recs: Seq<Seq<(Seq<char>, bool)>>, width: int, kinds: Seq<int>, n: int)
    requires
        kinds.len() == width,
        forall|j: int| 0 <= j < width ==> 1 <= #[trigger] kinds[j] <= 3,
    ensures
        rows_of(recs, width, kinds, n) matches Some(rs) ==> forall|r: int|
            0 <= r < rs.len() ==> #[trigger] rs[r].len() == width && forall|c: int|
                0 <= c < width && !(#[trigger] rs[r][c] is Null) ==> cell_rank(rs[r][c]) == kinds[c],
    decreases n,
{
    if n > 1 {
        lemma_rows_width(recs, width, kinds, n - 1);
        if let Some(rs) = rows_of(recs, width, kinds, n - 1) {
            let rec = recs[n - 1];
            if !(is_blank(rec) && width != 1) && rec.len() == width {
                if let Some(row) = row_cells(rec, kinds) {
                    assert forall|c: int| 0 <= c < width && !(#[trigger] row[c] is Null) implies cell_rank(row[c]) == kinds[c] by {
                        assert(field_cell(rec[c], kinds[c]) is Some);
                    };
                    let rs2 = rs.push(row);
                    assert forall|r: int| 0 <= r < rs2.len() implies #[trigger] rs2[r].len() == width && forall|c: int|
                        0 <= c < width && !(#[trigger] rs2[r][c] is Null) ==> cell_rank(rs2[r][c]) == kinds[c] by {
                        if r < rs.len() {
                            assert(rs2[r] == rs[r]);
                        } else {
                            assert(rs2[r] == row);
                        }
                    };
                }
            }
        }
    }
}

/// The table that CSV text makes, if any.
pub open spec fn csv_table(s: Seq<char>) -> Option<TableModel> {
    match csv_records(s) {
        Some(rm) => fields_table(rm),
        None => None,
    }
}

/// Loads CSV text: the first record names the columns, each later one is a row.
/// Each column takes the kind of its first non-null field.
pub fn load_csv(s: &Vec<char>) -> (r: Result<Table, LoadError>)
    ensures
        r is Ok <==> csv_table(s@) is Some,
        r matches Ok(t) ==> t@ == csv_table(s@)->Some_0 && t.wf() && columns_typed(t@),
{
    let records = split_records(s)?;
    table_from_fields(&records)
}

} // verus!
