use vstd::prelude::*;
use crate::csv::LoadError;
use crate::table::{column_index, columns_typed, lemma_column_index, names_view, row_view, Table, TableModel};
use crate::text::{copy_text, text_eq};
use crate::value::{cell_rank, copy_value, digit_value, digits_val, is_digit, lemma_digits_val_grows, Cell, Value};

verus! {

pub open spec fn json_ws(c: char) -> bool {
    c == ' ' || c == '\t' || c == '\n' || c == '\r'
}

/// The first position at or after `i` that is not white space.
pub open spec fn ws_end(s: Seq<char>, i: int) -> int
    decreases s.len() - i,
{
    if 0 <= i < s.len() && json_ws(s[i]) {
        ws_end(s, i + 1)
    } else {
        i
    }
}

proof fn lemma_ws_end(s: Seq<char>, i: int)
    requires
        0 <= i <= s.len(),
    ensures
        i <= ws_end(s, i) <= s.len(),
    decreases s.len() - i,
{
    if i < s.len() && json_ws(s[i]) {
        lemma_ws_end(s, i + 1);
    }
}

/// What an escape `\d` stands for.
pub open spec fn escape_char(d: char) -> Option<char> {
    if d == 'n' {
        Some('\n')
    } else if d == 't' {
        Some('\t')
    } else if d == 'r' {
        Some('\r')
    } else if d == 'b' {
        Some('\u{8}')
    } else if d == 'f' {
        Some('\u{c}')
    } else if d == '"' || d == '\\' || d == '/' {
        Some(d)
    } else {
        None
    }
}

/// The rest of a string from `i`, after `acc` was read: its text and the position
/// after the closing quote.
pub open spec fn str_body(s: Seq<char>, i: int, acc: Seq<char>) -> Option<(Seq<char>, int)>
    decreases s.len() - i,
{
    if i < 0 || i >= s.len() {
        None
    } else if s[i] == '"' {
        Some((acc, i + 1))
    } else if s[i] == '\\' {
        if i + 1 >= s.len() {
            None
        } else {
            match escape_char(s[i + 1]) {
                Some(x) => str_body(s, i + 2, acc.push(x)),
                None => None,
            }
        }
    } else {
        str_body(s, i + 1, acc.push(s[i]))
    }
}

/// A JSON string at `pos`.
pub open spec fn json_string(s: Seq<char>, pos: int) -> Option<(Seq<char>, int)> {
    if 0 <= pos < s.len() && s[pos] == '"' {
        str_body(s, pos + 1, Seq::empty())
    } else {
        None
    }
}

proof fn lemma_str_body(s: Seq<char>, i: int, acc: Seq<char>)
    requires
        0 <= i,
    ensures
        str_body(s, i, acc) matches Some((t, e)) ==> i < e <= s.len(),
    decreases s.len() - i,
{
    if 0 <= i < s.len() && s[i] != '"' {
        if s[i] == '\\' {
            if i + 1 < s.len() {
                if let Some(x) = escape_char(s[i + 1]) {
                    lemma_str_body(s, i + 2, acc.push(x));
                }
            }
        } else {
            lemma_str_body(s, i + 1, acc.push(s[i]));
        }
    }
}

/// The position after the run of digits from `i`.
pub open spec fn digits_end(s: Seq<char>, i: int) -> int
    decreases s.len() - i,
{
    if 0 <= i < s.len() && is_digit(s[i]) {
        digits_end(s, i + 1)
    } else {
        i
    }
}

/// The word `w` stands at `pos`.
pub open spec fn has_word(s: Seq<char>, pos: int, w: Seq<char>) -> bool {
    0 <= pos && pos + w.len() <= s.len() && s.subrange(pos, pos + w.len()) == w
}

/// A scalar at `pos`: a string, `true`, `false`, `null`, or an integer that fits `i64`
/// and is not followed by a fraction or an exponent.
pub open spec fn json_scalar(s: Seq<char>, pos: int) -> Option<(Cell, int)> {
    if !(0 <= pos < s.len()) {
        None
    } else if s[pos] == '"' {
        match json_string(s, pos) {
            Some((t, e)) => Some((Cell::Text(t), e)),
            None => None,
        }
    } else if has_word(s, pos, seq!['t', 'r', 'u', 'e']) {
        Some((Cell::Bool(true), pos + 4))
    } else if has_word(s, pos, seq!['f', 'a', 'l', 's', 'e']) {
        Some((Cell::Bool(false), pos + 5))
    } else if has_word(s, pos, seq!['n', 'u', 'l', 'l']) {
        Some((Cell::Null, pos + 4))
    } else {
        let neg = s[pos] == '-';
        let start = if neg {
            pos + 1
        } else {
            pos
        };
        let end = digits_end(s, start);
        let v = digits_val(s.subrange(start, end));
        if end == start || (end < s.len() && (s[end] == '.' || s[end] == 'e' || s[end] == 'E'))
            || v > i64::MAX {
            None
        } else {
            Some((Cell::Int(if neg { -v } else { v }), end))
        }
    }
}

/// The members of an object from `i` on, after `keys` and `vals` were read; the
/// position after the closing brace.
pub open spec fn json_members(s: Seq<char>, i: int, keys: Seq<Seq<char>>, vals: Seq<Cell>) -> Option<
    (Seq<Seq<char>>, Seq<Cell>, int),
>
    decreases s.len() - i,
{
    if i < 0 || i >= s.len() {
        None
    } else {
        match json_string(s, i) {
            None => None,
            Some((k, e1)) => {
                let e2 = ws_end(s, e1);
                if e2 >= s.len() || s[e2] != ':' {
                    None
                } else {
                    let e3 = ws_end(s, e2 + 1);
                    match json_scalar(s, e3) {
                        None => None,
                        Some((v, e4)) => {
                            let e5 = ws_end(s, e4);
                            if e5 < s.len() && s[e5] == ',' {
                                let n = ws_end(s, e5 + 1);
                                if i < n <= s.len() {
                                    json_members(s, n, keys.push(k), vals.push(v))
                                } else {
                                    None
                                }
                            } else if e5 < s.len() && s[e5] == '}' {
                                Some((keys.push(k), vals.push(v), e5 + 1))
                            } else {
                                None
                            }
                        },
                    }
                }
            },
        }
    }
}

/// A flat object at `pos`.
pub open spec fn json_object(s: Seq<char>, pos: int) -> Option<(Seq<Seq<char>>, Seq<Cell>, int)> {
    if 0 <= pos < s.len() && s[pos] == '{' {
        let i = ws_end(s, pos + 1);
        if i < s.len() && s[i] == '}' {
            Some((Seq::empty(), Seq::empty(), i + 1))
        } else {
            json_members(s, i, Seq::empty(), Seq::empty())
        }
    } else {
        None
    }
}

/// A record: its keys and its values.
pub type RecordModel = (Seq<Seq<char>>, Seq<Cell>);

/// The objects of an array from `i` on, after `acc`; the array must end the text.
pub open spec fn json_elements(s: Seq<char>, i: int, acc: Seq<RecordModel>) -> Option<Seq<RecordModel>>
    decreases s.len() - i,
{
    if i < 0 || i >= s.len() {
        None
    } else {
        match json_object(s, i) {
            None => None,
            Some((ks, vs, e1)) => {
                let e2 = ws_end(s, e1);
                if e2 < s.len() && s[e2] == ',' {
                    let n = ws_end(s, e2 + 1);
                    if i < n <= s.len() {
                        json_elements(s, n, acc.push((ks, vs)))
                    } else {
                        None
                    }
                } else if e2 < s.len() && s[e2] == ']' {
                    if ws_end(s, e2 + 1) == s.len() {
                        Some(acc.push((ks, vs)))
                    } else {
                        None
                    }
                } else {
                    None
                }
            },
        }
    }
}

/// The records of a JSON text: an array of flat objects, with white space around.
pub open spec fn json_records(s: Seq<char>) -> Option<Seq<RecordModel>> {
    let i = ws_end(s, 0);
    if i >= s.len() || s[i] != '[' {
        None
    } else {
        let j = ws_end(s, i + 1);
        if j < s.len() && s[j] == ']' {
            if ws_end(s, j + 1) == s.len() {
                Some(Seq::empty())
            } else {
                None
            }
        } else {
            json_elements(s, j, Seq::empty())
        }
    }
}

/// One record of a JSON array: its keys and values, in text order.
pub struct Record {
    pub keys: Vec<Vec<char>>,
    pub values: Vec<Value>,
}

pub open spec fn record_view(r: Record) -> RecordModel {
    (names_view(r.keys@), row_view(r.values@))
}

pub open spec fn records_view(rs: Seq<Record>) -> Seq<RecordModel> {
    rs.map_values(|r: Record| record_view(r))
}

fn skip_ws(s: &Vec<char>, pos: usize) -> (r: usize)
    requires
        pos <= s@.len(),
    ensures
        pos <= r <= s@.len(),
        r == ws_end(s@, pos as int),
{
    let mut i = pos;
    while i < s.len() && (s[i] == ' ' || s[i] == '\t' || s[i] == '\n' || s[i] == '\r')
        invariant
            pos <= i <= s@.len(),
            ws_end(s@, pos as int) == ws_end(s@, i as int),
        decreases s@.len() - i,
    {
        i = i + 1;
    }
    i
}

/// A JSON string starting at its opening quote; the position after its closing quote.
fn parse_string(s: &Vec<char>, pos: usize) -> (r: Result<(Vec<char>, usize), LoadError>)
    requires
        pos < s@.len(),
    ensures
        match json_string(s@, pos as int) {
            Some((t, e)) => r is Ok && r->Ok_0.0@ == t && r->Ok_0.1 == e,
            None => r is Err,
        },
        r matches Ok((t, e)) ==> pos < e <= s@.len(),
{
    let len = s.len();
    if s[pos] != '"' {
        return Err(LoadError::ParseError(pos));
    }
    let mut t: Vec<char> = Vec::new();
    let mut i = pos + 1;
    while i < s.len()
        invariant
            pos < i <= s@.len(),
            json_string(s@, pos as int) == str_body(s@, i as int, t@),
        decreases s@.len() - i,
    {
        let c = s[i];
        if c == '"' {
            return Ok((t, i + 1));
        }
        if c == '\\' {
            if i + 1 >= s.len() {
                return Err(LoadError::ParseError(i));
            }
            let d = s[i + 1];
            let x = if d == 'n' {
                '\n'
            } else if d == 't' {
                '\t'
            } else if d == 'r' {
                '\r'
            } else if d == 'b' {
                '\u{8}'
            } else if d == 'f' {
                '\u{c}'
            } else if d == '"' || d == '\\' || d == '/' {
                d
            } else {
                return Err(LoadError::ParseError(i));
            };
            t.push(x);
            i = i + 2;
        } else {
            t.push(c);
            i = i + 1;
        }
    }
    Err(LoadError::ParseError(i))
}

/// Whether the characters `a`, `b`, `c`, `d` (and `e`, when `five`) stand at `pos`.
fn word_at(s: &Vec<char>, pos: usize, w: &Vec<char>) -> (r: bool)
    requires
        pos <= s@.len(),
    ensures
        r == has_word(s@, pos as int, w@),
{
    let len = s.len();
    if w.len() > len - pos {
        return false;
    }
    let mut i: usize = 0;
    while i < w.len()
        invariant
            len == s@.len(),
            pos + w@.len() <= len,
            i <= w@.len(),
            forall|k: int| 0 <= k < i ==> s@[pos + k] == w@[k],
        decreases w@.len() - i,
    {
        if s[pos + i] != w[i] {
            assert(s@.subrange(pos as int, pos + w@.len())[i as int] != w@[i as int]);
            return false;
        }
        i = i + 1;
    }
    assert(s@.subrange(pos as int, pos + w@.len()) =~= w@);
    true
}

fn word(a: char, b: char, c: char, d: char) -> (r: Vec<char>)
    ensures
        r@ == seq![a, b, c, d],
{
    let mut v: Vec<char> = Vec::new();
    v.push(a);
    v.push(b);
    v.push(c);
    v.push(d);
    assert(v@ =~= seq![a, b, c, d]);
    v
}

/// A scalar JSON value: a string, an integer, `true`, `false` or `null`.
fn parse_scalar(s: &Vec<char>, pos: usize) -> (r: Result<(Value, usize), LoadError>)
    requires
        pos < s@.len(),
    ensures
        match json_scalar(s@, pos as int) {
            Some((c, e)) => r is Ok && r->Ok_0.0@ == c && r->Ok_0.1 == e,
            None => r is Err,
        },
        r matches Ok((v, e)) ==> pos < e <= s@.len(),
{
    let len = s.len();
    let c = s[pos];
    if c == '"' {
        let (t, e) = parse_string(s, pos)?;
        return Ok((Value::Text(t), e));
    }
    if word_at(s, pos, &word('t', 'r', 'u', 'e')) {
        return Ok((Value::Bool(true), pos + 4));
    }
    let mut fls = word('f', 'a', 'l', 's');
    fls.push('e');
    assert(fls@ =~= seq!['f', 'a', 'l', 's', 'e']);
    if word_at(s, pos, &fls) {
        return Ok((Value::Bool(false), pos + 5));
    }
    if word_at(s, pos, &word('n', 'u', 'l', 'l')) {
        return Ok((Value::Null, pos + 4));
    }
    let neg = c == '-';
    let start = if neg {
        pos + 1
    } else {
        pos
    };
    let mut i = start;
    let mut v: i64 = 0;
    assert(s@.subrange(start as int, start as int) =~= Seq::<char>::empty());
    while i < s.len() && '0' <= s[i] && s[i] <= '9'
        invariant
            start <= i <= s@.len(),
            start <= pos + 1,
            s@[pos as int] != '"',
            !has_word(s@, pos as int, seq!['t', 'r', 'u', 'e']),
            !has_word(s@, pos as int, seq!['f', 'a', 'l', 's', 'e']),
            !has_word(s@, pos as int, seq!['n', 'u', 'l', 'l']),
            neg == (s@[pos as int] == '-'),
            start == (if neg { pos + 1 } else { pos as int }),
            0 <= v,
            v as int == digits_val(s@.subrange(start as int, i as int)),
            digits_end(s@, start as int) == digits_end(s@, i as int),
            forall|k: int| start <= k < i ==> is_digit(#[trigger] s@[k]),
        decreases s@.len() - i,
    {
        let d = match digit_value(s[i]) {
            Some(d) => d,
            None => {
                return Err(LoadError::ParseError(pos));
            },
        };
        let ghost next = s@.subrange(start as int, i + 1);
        assert(next.drop_last() =~= s@.subrange(start as int, i as int));
        assert(next.last() == s@[i as int]);
        assert(digits_val(next) == v * 10 + d);
        if v > (i64::MAX - d) / 10 {
            proof {
                assert(v * 10 + d > i64::MAX) by (nonlinear_arith)
                    requires
                        v > (i64::MAX - d) / 10,
                        0 <= d <= 9,
                ;
                assert(is_digit(s@[i as int]));
                assert(digits_end(s@, i as int) == digits_end(s@, i + 1));
                lemma_digits_end_run(s@, start as int, i + 1);
                let end = digits_end(s@, start as int);
                let run = s@.subrange(start as int, end);
                lemma_digits_val_grows(run, i + 1 - start);
                assert(run.subrange(0, i + 1 - start) =~= next);
            }
            return Err(LoadError::ParseError(pos));
        }
        v = v * 10 + d;
        assert(digits_end(s@, i as int) == digits_end(s@, i + 1));
        i = i + 1;
    }
    proof {
        lemma_digits_end_run(s@, start as int, i as int);
    }
    if i == start || (i < s.len() && (s[i] == '.' || s[i] == 'e' || s[i] == 'E')) {
        return Err(LoadError::ParseError(pos));
    }
    Ok((
        if neg {
            Value::Int(-v)
        } else {
            Value::Int(v)
        },
        i,
    ))
}

/// The digits run from `a` to `digits_end`, and `digits_end(a) == digits_end(i)`
/// for `i` inside it, with a non-digit (or the end) at `digits_end`.
proof fn lemma_digits_end_run(s: Seq<char>, a: int, i: int)
    requires
        0 <= a <= i <= s.len(),
        forall|k: int| a <= k < i ==> is_digit(#[trigger] s[k]),
        digits_end(s, a) == digits_end(s, i),
    ensures
        i <= digits_end(s, a) <= s.len(),
        forall|k: int| a <= k < digits_end(s, a) ==> is_digit(#[trigger] s[k]),
        digits_end(s, a) == s.len() || !is_digit(s[digits_end(s, a)]),
    decreases s.len() - i,
{
    if i < s.len() && is_digit(s[i]) {
        lemma_digits_end_run(s, a, i + 1);
    }
}

/// A flat JSON object starting at `{`.
fn parse_object(s: &Vec<char>, pos: usize) -> (r: Result<(Record, usize), LoadError>)
    requires
        pos < s@.len(),
    ensures
        match json_object(s@, pos as int) {
            Some((ks, vs, e)) => r is Ok && record_view(r->Ok_0.0) == (ks, vs) && r->Ok_0.1 == e,
            None => r is Err,
        },
        r matches Ok((x, e)) ==> pos < e <= s@.len() && x.keys@.len() == x.values@.len(),
{
    let len = s.len();
    if s[pos] != '{' {
        return Err(LoadError::ParseError(pos));
    }
    let mut keys: Vec<Vec<char>> = Vec::new();
    let mut values: Vec<Value> = Vec::new();
    let mut i = skip_ws(s, pos + 1);
    assert(names_view(keys@) =~= Seq::empty());
    assert(row_view(values@) =~= Seq::empty());
    if i < s.len() && s[i] == '}' {
        return Ok((Record { keys, values }, i + 1));
    }
    loop
        invariant
            pos < i <= s@.len(),
            keys@.len() == values@.len(),
            json_object(s@, pos as int) == json_members(s@, i as int, names_view(keys@), row_view(values@)),
        decreases s@.len() - i,
    {
        if i >= s.len() {
            return Err(LoadError::ParseError(i));
        }
        let (k, e1) = parse_string(s, i)?;
        let e2 = skip_ws(s, e1);
        if e2 >= s.len() || s[e2] != ':' {
            return Err(LoadError::ParseError(e2));
        }
        let e3 = skip_ws(s, e2 + 1);
        if e3 >= s.len() {
            return Err(LoadError::ParseError(e3));
        }
        let (v, e4) = parse_scalar(s, e3)?;
        let ghost kv = names_view(keys@);
        let ghost vv = row_view(values@);
        keys.push(k);
        values.push(v);
        assert(names_view(keys@) =~= kv.push(k@));
        assert(row_view(values@) =~= vv.push(v@));
        let e5 = skip_ws(s, e4);
        if e5 < s.len() && s[e5] == ',' {
            i = skip_ws(s, e5 + 1);
        } else if e5 < s.len() && s[e5] == '}' {
            return Ok((Record { keys, values }, e5 + 1));
        } else {
            return Err(LoadError::ParseError(e5));
        }
    }
}

/// The records of a JSON array of flat objects.
pub fn parse_records(s: &Vec<char>) -> (r: Result<Vec<Record>, LoadError>)
    ensures
        match json_records(s@) {
            Some(rm) => r is Ok && records_view(r->Ok_0@) == rm,
            None => r is Err,
        },
        r matches Ok(v) ==> forall|i: int| 0 <= i < v@.len() ==> #[trigger] v@[i].keys@.len() == v@[i].values@.len(),
{
    let mut recs: Vec<Record> = Vec::new();
    let mut i = skip_ws(s, 0);
    if i >= s.len() || s[i] != '[' {
        return Err(LoadError::ParseError(i));
    }
    i = skip_ws(s, i + 1);
    assert(records_view(recs@) =~= Seq::empty());
    if i < s.len() && s[i] == ']' {
        i = skip_ws(s, i + 1);
        return if i == s.len() {
            Ok(recs)
        } else {
            Err(LoadError::ParseError(i))
        };
    }
    loop
        invariant
            i <= s@.len(),
            json_records(s@) == json_elements(s@, i as int, records_view(recs@)),
            forall|k: int| 0 <= k < recs@.len() ==> #[trigger] recs@[k].keys@.len() == recs@[k].values@.len(),
        decreases s@.len() - i,
    {
        if i >= s.len() {
            return Err(LoadError::ParseError(i));
        }
        let (rec, e1) = parse_object(s, i)?;
        let ghost rv = records_view(recs@);
        let ghost one = record_view(rec);
        recs.push(rec);
        assert(records_view(recs@) =~= rv.push(one));
        let e2 = skip_ws(s, e1);
        if e2 < s.len() && s[e2] == ',' {
            i = skip_ws(s, e2 + 1);
        } else if e2 < s.len() && s[e2] == ']' {
            let e3 = skip_ws(s, e2 + 1);
            return if e3 == s.len() {
                Ok(recs)
            } else {
                Err(LoadError::ParseError(e3))
            };
        } else {
            return Err(LoadError::ParseError(e2));
        }
    }
}

/// The keys of a record, as text.
pub open spec fn record_keys(r: RecordModel) -> Seq<Seq<char>> {
    r.0
}

/// All keys of the records, record after record.
pub open spec fn all_keys(recs: Seq<RecordModel>) -> Seq<Seq<char>>
    decreases recs.len(),
{
    if recs.len() == 0 {
        Seq::empty()
    } else {
        all_keys(recs.drop_last()) + record_keys(recs.last())
    }
}

/// Each key once, in order of first appearance.
pub open spec fn distinct_in_order(ks: Seq<Seq<char>>) -> Seq<Seq<char>>
    decreases ks.len(),
{
    if ks.len() == 0 {
        Seq::empty()
    } else {
        let u = distinct_in_order(ks.drop_last());
        if u.contains(ks.last()) {
            u
        } else {
            u.push(ks.last())
        }
    }
}

/// The cell of a record under a key: the value of its first entry with that key,
/// or null when it has none.
pub open spec fn record_cell(r: RecordModel, k: Seq<char>) -> Cell {
    match column_index(record_keys(r), k) {
        Some(i) => r.1[i],
        None => Cell::Null,
    }
}

/// The table that the records make: a column per key, a row per record.
pub open spec fn records_table(recs: Seq<RecordModel>) -> TableModel {
    let names = distinct_in_order(all_keys(recs));
    TableModel {
        names,
        rows: recs.map_values(|r: RecordModel| names.map_values(|k: Seq<char>| record_cell(r, k))),
    }
}

/// The position of the first `k` among `keys`.
fn key_position(keys: &Vec<Vec<char>>, k: &Vec<char>) -> (r: Option<usize>)
    ensures
        r matches Some(i) ==> column_index(names_view(keys@), k@) == Some(i as int),
        r is None ==> column_index(names_view(keys@), k@) is None,
{
    let ghost ks = names_view(keys@);
    let mut i: usize = 0;
    while i < keys.len()
        invariant
            ks == names_view(keys@),
            i <= keys@.len(),
            forall|j: int| 0 <= j < i ==> ks[j] != k@,
        decreases keys@.len() - i,
    {
        if text_eq(&keys[i], k) {
            proof {
                lemma_column_index(ks, k@);
                assert(ks[i as int] == k@);
                if let Some(c) = column_index(ks, k@) {
                    if c < i {
                        assert(ks[c] != k@);
                    }
                }
            }
            return Some(i);
        }
        assert(ks[i as int] == keys@[i as int]@);
        i = i + 1;
    }
    proof {
        lemma_column_index(ks, k@);
    }
    None
}

/// Builds the table of a sequence of records; refused when a column holds
/// values of two kinds.
pub fn table_from_records(recs: &Vec<Record>) -> (r: Result<Table, LoadError>)
    requires
        forall|i: int| 0 <= i < recs@.len() ==> #[trigger] recs@[i].keys@.len() == recs@[i].values@.len(),
    ensures
        match r {
            Ok(t) => t@ == records_table(records_view(recs@)) && t.wf() && columns_typed(t@),
            Err(_) => !columns_typed(records_table(records_view(recs@))),
        },
{
    let ghost m = records_table(records_view(recs@));
    let mut names: Vec<Vec<char>> = Vec::new();
    let mut i: usize = 0;
    while i < recs.len()
        invariant
            i <= recs@.len(),
            names_view(names@) == distinct_in_order(all_keys(records_view(recs@).subrange(0, i as int))),
            forall|a: int, b: int| 0 <= a < b < names@.len() ==> #[trigger] names@[a]@ != #[trigger] names@[b]@,
        decreases recs@.len() - i,
    {
        let ghost done = all_keys(records_view(recs@).subrange(0, i as int));
        let ghost rk = record_keys(records_view(recs@)[i as int]);
        assert(done + rk.subrange(0, 0) =~= done);
        let mut k: usize = 0;
        while k < recs[i].keys.len()
            invariant
                i < recs@.len(),
                rk == record_keys(records_view(recs@)[i as int]),
                k <= recs@[i as int].keys@.len(),
                names_view(names@) == distinct_in_order(done + rk.subrange(0, k as int)),
                forall|a: int, b: int| 0 <= a < b < names@.len() ==> #[trigger] names@[a]@ != #[trigger] names@[b]@,
            decreases recs@[i as int].keys@.len() - k,
        {
            let key = &recs[i].keys[k];
            let ghost ks = done + rk.subrange(0, k + 1);
            assert(ks.drop_last() =~= done + rk.subrange(0, k as int));
            assert(ks.last() == key@);
            match key_position(&names, key) {
                Some(_) => {
                    proof {
                        lemma_column_index(names_view(names@), key@);
                        let c = column_index(names_view(names@), key@)->Some_0;
                        assert(names_view(names@)[c] == key@);
                    }
                },
                None => {
                    proof {
                        lemma_column_index(names_view(names@), key@);
                        assert(!names_view(names@).contains(key@));
                        assert(forall|j: int| 0 <= j < names@.len() ==> names_view(names@)[j] == names@[j]@);
                    }
                    let ghost before = names@;
                    names.push(copy_text(key));
                    assert forall|a: int, b: int| 0 <= a < b < names@.len() implies #[trigger] names@[a]@ != #[trigger] names@[b]@ by {
                        if b == before.len() {
                            assert(names_view(before)[a] == before[a]@);
                            assert(names@[a] == before[a]);
                        } else {
                            assert(names@[a] == before[a] && names@[b] == before[b]);
                        }
                    };
                    assert(names_view(names@) =~= distinct_in_order(ks));
                },
            }
            k = k + 1;
        }
        assert(rk.subrange(0, k as int) =~= rk);
        assert(records_view(recs@).subrange(0, i + 1).drop_last() =~= records_view(recs@).subrange(0, i as int));
        i = i + 1;
    }
    assert(records_view(recs@).subrange(0, i as int) =~= records_view(recs@));
    assert(names_view(names@) == m.names);
    let width = names.len();
    let mut rows: Vec<Vec<Value>> = Vec::new();
    let mut i: usize = 0;
    while i < recs.len()
        invariant
            i <= recs@.len(),
            width == names@.len(),
            m == records_table(records_view(recs@)),
            names_view(names@) == m.names,
            forall|k: int| 0 <= k < recs@.len() ==> #[trigger] recs@[k].keys@.len() == recs@[k].values@.len(),
            rows@.len() == i,
            forall|r: int| 0 <= r < i ==> row_view(#[trigger] rows@[r]@) == m.rows[r],
        decreases recs@.len() - i,
    {
        let rec = &recs[i];
        let mut row: Vec<Value> = Vec::new();
        let mut c: usize = 0;
        while c < width
            invariant
                c <= width == names@.len(),
                i < recs@.len(),
                rec == recs@[i as int],
                names_view(names@) == m.names,
                rec.keys@.len() == rec.values@.len(),
                row@.len() == c,
                forall|j: int| 0 <= j < c ==> (#[trigger] row@[j])@ == record_cell(records_view(recs@)[i as int], m.names[j]),
            decreases width - c,
        {
            assert(m.names[c as int] == names@[c as int]@);
            match key_position(&rec.keys, &names[c]) {
                Some(p) => {
                    proof {
                        lemma_column_index(record_keys(records_view(recs@)[i as int]), names@[c as int]@);
                    }
                    row.push(copy_value(&rec.values[p]));
                },
                None => row.push(Value::Null),
            }
            c = c + 1;
        }
        assert(row_view(row@) =~= m.rows[i as int]);
        rows.push(row);
        i = i + 1;
    }
    assert(rows@.map_values(|r: Vec<Value>| row_view(r@)) =~= m.rows);
    let mut c: usize = 0;
    while c < width
        invariant
            c <= width == names@.len(),
            m == records_table(records_view(recs@)),
            names_view(names@) == m.names,
            rows@.map_values(|r: Vec<Value>| row_view(r@)) == m.rows,
            forall|r: int| 0 <= r < rows@.len() ==> #[trigger] rows@[r]@.len() == width,
            forall|cc: int, a: int, b: int|
                0 <= cc < c && 0 <= a < rows@.len() && 0 <= b < rows@.len() && !((#[trigger] rows@[a]@[cc])@ is Null) && !((#[trigger] rows@[b]@[cc])@ is Null)
                    ==> cell_rank(rows@[a]@[cc]@) == cell_rank(rows@[b]@[cc]@),
        decreases width - c,
    {
        let mut first: Option<usize> = None;
        let mut r: usize = 0;
        while r < rows.len()
            invariant
                c < width == names@.len(),
                m == records_table(records_view(recs@)),
                names_view(names@) == m.names,
                rows@.map_values(|r: Vec<Value>| row_view(r@)) == m.rows,
                r <= rows@.len(),
                forall|x: int| 0 <= x < rows@.len() ==> #[trigger] rows@[x]@.len() == width,
                first matches Some(f) ==> f < rows@.len() && !(rows@[f as int]@[c as int]@ is Null),
                first matches Some(f) ==> forall|x: int| 0 <= x < r && !((#[trigger] rows@[x]@[c as int])@ is Null) ==> cell_rank(rows@[x]@[c as int]@) == cell_rank(rows@[f as int]@[c as int]@),
                first is None ==> forall|x: int| 0 <= x < r ==> (#[trigger] rows@[x]@[c as int])@ is Null,
            decreases rows@.len() - r,
        {
            match &rows[r][c] {
                Value::Null => {},
                v => {
                    match first {
                        None => {
                            first = Some(r);
                        },
                        Some(f) => {
                            if !same_kind(v, &rows[f][c]) {
                                proof {
                                    assert(m.rows[r as int] == row_view(rows@[r as int]@));
                                    assert(m.rows[f as int] == row_view(rows@[f as int]@));
                                    assert(m.rows[r as int][c as int] == rows@[r as int]@[c as int]@);
                                    assert(m.rows[f as int][c as int] == rows@[f as int]@[c as int]@);
                                    assert(m.names.len() == width);
                                }
                                return Err(LoadError::ParseError(r));
                            }
                        },
                    }
                },
            }
            r = r + 1;
        }
        c = c + 1;
    }
    let t = Table { names, rows };
    proof {
        assert forall|r: int| 0 <= r < t@.rows.len() implies #[trigger] t@.rows[r].len() == t@.names.len() by {
            assert(t@.rows[r] == row_view(rows@[r]@));
        };
        assert forall|c: int, i: int, j: int|
            0 <= c < t@.names.len() && 0 <= i < t@.rows.len() && 0 <= j < t@.rows.len() && !(
            #[trigger] t@.rows[i][c] is Null) && !(#[trigger] t@.rows[j][c] is Null) implies cell_rank(
                t@.rows[i][c],
            ) == cell_rank(t@.rows[j][c]) by {
            assert(t@.rows[i][c] == rows@[i]@[c]@);
            assert(t@.rows[j][c] == rows@[j]@[c]@);
        };
        assert forall|a: int, b: int| 0 <= a < b < t@.names.len() implies #[trigger] t@.names[a] != #[trigger] t@.names[b] by {
            assert(t@.names[a] == names@[a]@);
        };
    }
    Ok(t)
}

/// The table that JSON text makes, if any: refused when the text is no array of
/// flat objects, or when a column would hold values of two kinds.
pub open spec fn json_table(s: Seq<char>) -> Option<TableModel> {
    match json_records(s) {
        Some(rm) => if columns_typed(records_table(rm)) {
            Some(records_table(rm))
        } else {
            None
        },
        None => None,
    }
}

/// Loads a JSON array of flat objects: the columns are the keys in order of first
/// appearance, and a key missing from a record is null in its row. A column whose
/// values are of two kinds is refused.
pub fn load_json(s: &Vec<char>) -> (r: Result<Table, LoadError>)
    ensures
        r is Ok <==> json_table(s@) is Some,
        r matches Ok(t) ==> t@ == json_table(s@)->Some_0 && t.wf() && columns_typed(t@),
{
    let recs = parse_records(s)?;
    table_from_records(&recs)
}

fn same_kind(a: &Value, b: &Value) -> (r: bool)
    ensures
        r == (cell_rank(a@) == cell_rank(b@)),
{
    match (a, b) {
        (Value::Null, Value::Null) => true,
        (Value::Bool(_), Value::Bool(_)) => true,
        (Value::Int(_), Value::Int(_)) => true,
        (Value::Text(_), Value::Text(_)) => true,
        _ => false,
    }
}

} // verus!
