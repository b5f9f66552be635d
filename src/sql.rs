use vstd::prelude::*;
use vstd::string::StrSliceExecFns;
use crate::expr::{CmpOp, Expr, Operand};
use crate::query::{Query, Selection, SortKey};
use crate::table::names_view;
use crate::value::{digit_value, digits_val, is_digit, lemma_digits_val_grows, Cell, Value};

verus! {

/// Why SQL text could not be turned into a query.
#[derive(PartialEq, Eq, Structural, Clone, Copy, Debug)]
pub enum SqlError {
    SyntaxError,
    UnsupportedConstruct,
}

pub open spec fn is_space(c: char) -> bool {
    c == ' ' || c == '\t' || c == '\n' || c == '\r'
}

/// A character that may stand in a source identifier (a name, a path or a URL).
pub open spec fn is_source_char(c: char) -> bool {
    !is_space(c) && c != ';' && c != ',' && c != '(' && c != ')' && c != '\''
}

pub open spec fn is_word_char(c: char) -> bool {
    ('a' <= c && c <= 'z') || ('A' <= c && c <= 'Z') || ('0' <= c && c <= '9') || c == '_'
}

/// The first position at or after `i` that is not white space.
pub open spec fn space_end(s: Seq<char>, i: int) -> int
    decreases s.len() - i,
{
    if 0 <= i < s.len() && is_space(s[i]) {
        space_end(s, i + 1)
    } else {
        i
    }
}

/// The position after the run of name characters from `i`.
pub open spec fn word_end(s: Seq<char>, i: int) -> int
    decreases s.len() - i,
{
    if 0 <= i < s.len() && is_word_char(s[i]) {
        word_end(s, i + 1)
    } else {
        i
    }
}

/// The keyword, given in lower and upper case, as a whole word at `pos`: where it ends.
pub open spec fn kw_match(s: Seq<char>, pos: int, lo: Seq<char>, up: Seq<char>) -> Option<int> {
    if lo.len() > 0 && up.len() == lo.len() && 0 <= pos && pos + lo.len() <= s.len() && (forall|i: int|
        0 <= i < lo.len() ==> #[trigger] s[pos + i] == lo[i] || s[pos + i] == up[i]) && (pos
        + lo.len() == s.len() || !is_word_char(s[pos + lo.len()])) {
        Some(pos + lo.len())
    } else {
        None
    }
}

/// The keyword after white space from `pos`.
pub open spec fn kw_after(s: Seq<char>, pos: int, lo: Seq<char>, up: Seq<char>) -> Option<int> {
    kw_match(s, space_end(s, pos), lo, up)
}

/// A name after white space: letters, digits and `_`.
pub open spec fn sql_name(s: Seq<char>, pos: int) -> Option<(Seq<char>, int)> {
    let p = space_end(s, pos);
    let e = word_end(s, p);
    if e == p {
        None
    } else {
        Some((s.subrange(p, e), e))
    }
}

/// A count after white space: decimal digits, not followed by a name character.
pub open spec fn sql_count(s: Seq<char>, pos: int) -> Option<(int, int)> {
    let p = space_end(s, pos);
    let e = digits_end(s, p);
    let v = digits_val(s.subrange(p, e));
    if e == p || v > usize::MAX || (e < s.len() && is_word_char(s[e])) {
        None
    } else {
        Some((v, e))
    }
}

/// An integer literal at `pos`, with an optional minus sign.
pub open spec fn sql_int(s: Seq<char>, pos: int) -> Option<(int, int)> {
    let neg = s[pos] == '-';
    let start = if neg {
        pos + 1
    } else {
        pos
    };
    let e = digits_end(s, start);
    let v = digits_val(s.subrange(start, e));
    if e == start || v > i64::MAX || (e < s.len() && is_word_char(s[e])) {
        None
    } else {
        Some((if neg { -v } else { v }, e))
    }
}

/// The position of the first quote at or after `i`, or the end.
pub open spec fn quote_end(s: Seq<char>, i: int) -> int
    decreases s.len() - i,
{
    if 0 <= i < s.len() && s[i] != '\'' {
        quote_end(s, i + 1)
    } else {
        i
    }
}

/// The position after the run of digits from `i`.
pub open spec fn digits_end(s: Seq<char>, i: int) -> int
    decreases s.len() - i,
{
    if 0 <= i < s.len() && is_digit(s[i]) {
        digits_end(s, i + 1)
    } else {
        i
    }
}

proof fn lemma_run_end(s: Seq<char>, a: int, i: int)
    requires
        0 <= a <= i <= s.len(),
        forall|k: int| a <= k < i ==> is_digit(#[trigger] s[k]),
        digits_end(s, a) == digits_end(s, i),
    ensures
        i <= digits_end(s, a) <= s.len(),
        forall|k: int| a <= k < digits_end(s, a) ==> is_digit(#[trigger] s[k]),
        digits_end(s, a) == s.len() || !is_digit(s[digits_end(s, a)]),
    decreases s.len() - i,
{
    if i < s.len() && is_digit(s[i]) {
        lemma_run_end(s, a, i + 1);
    }
}

fn space(c: char) -> (r: bool)
    ensures
        r == is_space(c),
{
    c == ' ' || c == '\t' || c == '\n' || c == '\r'
}

fn source_char(c: char) -> (r: bool)
    ensures
        r == is_source_char(c),
{
    !space(c) && c != ';' && c != ',' && c != '(' && c != ')' && c != '\''
}

fn word_char(c: char) -> (r: bool)
    ensures
        r == is_word_char(c),
{
    ('a' <= c && c <= 'z') || ('A' <= c && c <= 'Z') || ('0' <= c && c <= '9') || c == '_'
}

fn digit(c: char) -> (r: Option<u8>)
    ensures
        r matches Some(d) ==> d < 10,
{
    if c == '0' { Some(0) }
    else if c == '1' { Some(1) }
    else if c == '2' { Some(2) }
    else if c == '3' { Some(3) }
    else if c == '4' { Some(4) }
    else if c == '5' { Some(5) }
    else if c == '6' { Some(6) }
    else if c == '7' { Some(7) }
    else if c == '8' { Some(8) }
    else if c == '9' { Some(9) }
    else { None }
}

/// The first position at or after `pos` that is not white space.
fn skip_space(s: &Vec<char>, pos: usize) -> (r: usize)
    requires
        pos <= s@.len(),
    ensures
        pos <= r <= s@.len(),
        forall|i: int| pos <= i < r ==> is_space(#[trigger] s@[i]),
        r == s@.len() || !is_space(s@[r as int]),
        r == space_end(s@, pos as int),
{
    let mut i = pos;
    while i < s.len() && space(s[i])
        invariant
            pos <= i <= s@.len(),
            forall|k: int| pos <= k < i ==> is_space(#[trigger] s@[k]),
            space_end(s@, pos as int) == space_end(s@, i as int),
        decreases s@.len() - i,
    {
        i = i + 1;
    }
    i
}

/// Where the keyword (given in lower and upper case) ends, if it stands at `pos`
/// as a whole word.
fn keyword_at(s: &Vec<char>, pos: usize, lower: &str, upper: &str) -> (r: Option<usize>)
    requires
        pos <= s@.len(),
    ensures
        r matches Some(e) ==> pos < e <= s@.len(),
        r matches Some(e) ==> e == pos + lower@.len() && forall|i: int|
            0 <= i < lower@.len() ==> #[trigger] s@[pos + i] == lower@[i] || s@[pos + i] == upper@[i],
        r matches Some(e) ==> e == s@.len() || !is_word_char(s@[e as int]),
        r matches Some(e) ==> kw_match(s@, pos as int, lower@, upper@) == Some(e as int),
        r is None ==> kw_match(s@, pos as int, lower@, upper@) is None,
        (lower@.len() > 0 && upper@.len() == lower@.len() && pos + lower@.len() <= s@.len() && (
        forall|i: int|
            0 <= i < lower@.len() ==> #[trigger] s@[pos + i] == lower@[i] || s@[pos + i] == upper@[i])
            && (pos + lower@.len() == s@.len() || !is_word_char(s@[pos + lower@.len()]))) ==> r
            == Some((pos + lower@.len()) as usize),
{
    let len = s.len();
    let n = lower.unicode_len();
    if n == 0 || upper.unicode_len() != n || n > len - pos {
        return None;
    }
    let mut i: usize = 0;
    while i < n
        invariant
            len == s@.len(),
            n == lower@.len(),
            n == upper@.len(),
            pos + n <= len,
            i <= n,
            forall|k: int| 0 <= k < i ==> #[trigger] s@[pos + k] == lower@[k] || s@[pos + k] == upper@[k],
        decreases n - i,
    {
        let c = s[pos + i];
        if c != lower.get_char(i) && c != upper.get_char(i) {
            return None;
        }
        i = i + 1;
    }
    if pos + n == len || !word_char(s[pos + n]) {
        Some(pos + n)
    } else {
        None
    }
}

/// A keyword at `pos`, after white space; the position after it.
fn expect_keyword(s: &Vec<char>, pos: usize, lower: &str, upper: &str) -> (r: Option<usize>)
    requires
        pos <= s@.len(),
    ensures
        r matches Some(e) ==> pos < e <= s@.len(),
        r matches Some(e) ==> kw_after(s@, pos as int, lower@, upper@) == Some(e as int),
        r is None ==> kw_after(s@, pos as int, lower@, upper@) is None,
{
    let p = skip_space(s, pos);
    keyword_at(s, p, lower, upper)
}

/// A name made of letters, digits and `_`, after white space.
fn parse_name(s: &Vec<char>, pos: usize) -> (r: Result<(Vec<char>, usize), SqlError>)
    requires
        pos <= s@.len(),
    ensures
        r matches Ok((n, e)) ==> pos < e <= s@.len() && n@.len() > 0,
        match sql_name(s@, pos as int) {
            Some((n, e)) => r is Ok && r->Ok_0.0@ == n && r->Ok_0.1 == e,
            None => r == Err::<(Vec<char>, usize), SqlError>(SqlError::SyntaxError),
        },
{
    let p = skip_space(s, pos);
    let mut e = p;
    let mut name: Vec<char> = Vec::new();
    while e < s.len() && word_char(s[e])
        invariant
            p <= e <= s@.len(),
            name@ == s@.subrange(p as int, e as int),
            word_end(s@, p as int) == word_end(s@, e as int),
        decreases s@.len() - e,
    {
        name.push(s[e]);
        e = e + 1;
        assert(name@ =~= s@.subrange(p as int, e as int));
    }
    if e == p {
        Err(SqlError::SyntaxError)
    } else {
        Ok((name, e))
    }
}

/// A run of decimal digits read as a number, after white space.
fn parse_count(s: &Vec<char>, pos: usize) -> (r: Result<(usize, usize), SqlError>)
    requires
        pos <= s@.len(),
    ensures
        r matches Ok((n, e)) ==> pos < e <= s@.len(),
        match sql_count(s@, pos as int) {
            Some((n, e)) => r is Ok && r->Ok_0.0 == n && r->Ok_0.1 == e,
            None => r == Err::<(usize, usize), SqlError>(SqlError::SyntaxError),
        },
{
    let p = skip_space(s, pos);
    let mut e = p;
    let mut v: usize = 0;
    assert(s@.subrange(p as int, p as int) =~= Seq::<char>::empty());
    while e < s.len() && '0' <= s[e] && s[e] <= '9'
        invariant
            p <= e <= s@.len(),
            p == space_end(s@, pos as int),
            v as int == digits_val(s@.subrange(p as int, e as int)),
            digits_end(s@, p as int) == digits_end(s@, e as int),
            forall|k: int| p <= k < e ==> is_digit(#[trigger] s@[k]),
        decreases s@.len() - e,
    {
        let d = match digit_value(s[e]) {
            Some(d) => d as usize,
            None => {
                return Err(SqlError::SyntaxError);
            },
        };
        let ghost next = s@.subrange(p as int, e + 1);
        assert(next.drop_last() =~= s@.subrange(p as int, e as int));
        assert(digits_val(next) == v * 10 + d);
        if v > (usize::MAX - d) / 10 {
            proof {
                assert(v * 10 + d > usize::MAX) by (nonlinear_arith)
                    requires
                        v > (usize::MAX - d) / 10,
                        0 <= d <= 9,
                ;
                assert(digits_end(s@, e as int) == digits_end(s@, e + 1));
                lemma_run_end(s@, p as int, e + 1);
                let run = s@.subrange(p as int, digits_end(s@, p as int));
                lemma_digits_val_grows(run, e + 1 - p);
                assert(run.subrange(0, e + 1 - p) =~= next);
            }
            return Err(SqlError::SyntaxError);
        }
        v = v * 10 + d;
        assert(digits_end(s@, e as int) == digits_end(s@, e + 1));
        e = e + 1;
    }
    proof {
        lemma_run_end(s@, p as int, e as int);
    }
    if e == p || (e < s.len() && word_char(s[e])) {
        Err(SqlError::SyntaxError)
    } else {
        Ok((v, e))
    }
}

/// An integer literal, with an optional minus sign.
fn parse_int(s: &Vec<char>, pos: usize) -> (r: Result<(i64, usize), SqlError>)
    requires
        pos < s@.len(),
    ensures
        r matches Ok((n, e)) ==> pos < e <= s@.len(),
        match sql_int(s@, pos as int) {
            Some((n, e)) => r is Ok && r->Ok_0.0 as int == n && r->Ok_0.1 == e,
            None => r == Err::<(i64, usize), SqlError>(SqlError::SyntaxError),
        },
{
    let len = s.len();
    let neg = s[pos] == '-';
    let start = if neg {
        pos + 1
    } else {
        pos
    };
    let mut e = start;
    let mut v: i64 = 0;
    assert(s@.subrange(start as int, start as int) =~= Seq::<char>::empty());
    while e < s.len() && '0' <= s[e] && s[e] <= '9'
        invariant
            start <= e <= s@.len(),
            start <= pos + 1,
            neg == (s@[pos as int] == '-'),
            start == (if neg { pos + 1 } else { pos as int }),
            0 <= v,
            v as int == digits_val(s@.subrange(start as int, e as int)),
            digits_end(s@, start as int) == digits_end(s@, e as int),
            forall|k: int| start <= k < e ==> is_digit(#[trigger] s@[k]),
        decreases s@.len() - e,
    {
        let d = match digit_value(s[e]) {
            Some(d) => d,
            None => {
                return Err(SqlError::SyntaxError);
            },
        };
        let ghost next = s@.subrange(start as int, e + 1);
        assert(next.drop_last() =~= s@.subrange(start as int, e as int));
        assert(digits_val(next) == v * 10 + d);
        if v > (i64::MAX - d) / 10 {
            proof {
                assert(v * 10 + d > i64::MAX) by (nonlinear_arith)
                    requires
                        v > (i64::MAX - d) / 10,
                        0 <= d <= 9,
                ;
                assert(digits_end(s@, e as int) == digits_end(s@, e + 1));
                lemma_run_end(s@, start as int, e + 1);
                let run = s@.subrange(start as int, digits_end(s@, start as int));
                lemma_digits_val_grows(run, e + 1 - start);
                assert(run.subrange(0, e + 1 - start) =~= next);
            }
            return Err(SqlError::SyntaxError);
        }
        v = v * 10 + d;
        assert(digits_end(s@, e as int) == digits_end(s@, e + 1));
        e = e + 1;
    }
    proof {
        lemma_run_end(s@, start as int, e as int);
    }
    if e == start || (e < s.len() && word_char(s[e])) {
        Err(SqlError::SyntaxError)
    } else if neg {
        Ok((-v, e))
    } else {
        Ok((v, e))
    }
}

/// A leaf of a condition, as values.
pub enum OperandModel {
    Column(Seq<char>),
    Literal(Cell),
}

/// A condition, as values.
pub enum ExprModel {
    Compare(CmpOp, OperandModel, OperandModel),
    And(Box<ExprModel>, Box<ExprModel>),
    Or(Box<ExprModel>, Box<ExprModel>),
    Not(Box<ExprModel>),
}

pub open spec fn operand_view(o: Operand) -> OperandModel {
    match o {
        Operand::Column(n) => OperandModel::Column(n@),
        Operand::Literal(v) => OperandModel::Literal(v@),
    }
}

pub open spec fn expr_view(e: Expr) -> ExprModel
    decreases e,
{
    match e {
        Expr::Compare(op, l, r) => ExprModel::Compare(op, operand_view(l), operand_view(r)),
        Expr::And(l, r) => ExprModel::And(Box::new(expr_view(*l)), Box::new(expr_view(*r))),
        Expr::Or(l, r) => ExprModel::Or(Box::new(expr_view(*l)), Box::new(expr_view(*r))),
        Expr::Not(x) => ExprModel::Not(Box::new(expr_view(*x))),
    }
}

/// An operand after white space: a quoted text, an integer, `TRUE`, `FALSE`,
/// `NULL`, or a column name; a parenthesis, a function call or a subquery is
/// outside the grammar.
pub open spec fn sql_operand(s: Seq<char>, pos: int) -> Result<(OperandModel, int), SqlError> {
    let p = space_end(s, pos);
    if p < 0 || p >= s.len() {
        Err(SqlError::SyntaxError)
    } else if s[p] == '\'' {
        let q = quote_end(s, p + 1);
        if q >= s.len() {
            Err(SqlError::SyntaxError)
        } else {
            Ok((OperandModel::Literal(Cell::Text(s.subrange(p + 1, q))), q + 1))
        }
    } else if s[p] == '-' || is_digit(s[p]) {
        match sql_int(s, p) {
            Some((v, e)) => Ok((OperandModel::Literal(Cell::Int(v)), e)),
            None => Err(SqlError::SyntaxError),
        }
    } else if s[p] == '(' {
        Err(SqlError::UnsupportedConstruct)
    } else if kw_match(s, p, "true"@, "TRUE"@) is Some {
        Ok((OperandModel::Literal(Cell::Bool(true)), kw_match(s, p, "true"@, "TRUE"@)->Some_0))
    } else if kw_match(s, p, "false"@, "FALSE"@) is Some {
        Ok((OperandModel::Literal(Cell::Bool(false)), kw_match(s, p, "false"@, "FALSE"@)->Some_0))
    } else if kw_match(s, p, "null"@, "NULL"@) is Some {
        Ok((OperandModel::Literal(Cell::Null), kw_match(s, p, "null"@, "NULL"@)->Some_0))
    } else if kw_match(s, p, "select"@, "SELECT"@) is Some {
        Err(SqlError::UnsupportedConstruct)
    } else {
        match sql_name(s, p) {
            None => Err(SqlError::SyntaxError),
            Some((n, e)) => {
                let q = space_end(s, e);
                if q < s.len() && s[q] == '(' {
                    Err(SqlError::UnsupportedConstruct)
                } else {
                    Ok((OperandModel::Column(n), e))
                }
            },
        }
    }
}

/// A comparison operator after white space.
pub open spec fn sql_op(s: Seq<char>, pos: int) -> Option<(CmpOp, int)> {
    let p = space_end(s, pos);
    if p < 0 || p >= s.len() {
        None
    } else {
        let c = s[p];
        let next = if p + 1 < s.len() {
            s[p + 1]
        } else {
            ' '
        };
        if c == '=' {
            Some((CmpOp::Eq, p + 1))
        } else if c == '!' && next == '=' {
            Some((CmpOp::NotEq, p + 2))
        } else if c == '<' && next == '>' {
            Some((CmpOp::NotEq, p + 2))
        } else if c == '<' && next == '=' {
            Some((CmpOp::LtEq, p + 2))
        } else if c == '<' {
            Some((CmpOp::Lt, p + 1))
        } else if c == '>' && next == '=' {
            Some((CmpOp::GtEq, p + 2))
        } else if c == '>' {
            Some((CmpOp::Gt, p + 1))
        } else {
            None
        }
    }
}

/// `( condition )`, `NOT x`, or `operand op operand`, after white space.
pub open spec fn sql_unary(s: Seq<char>, pos: int) -> Result<(ExprModel, int), SqlError>
    decreases s.len() - pos, 0int,
{
    if pos < 0 || pos > s.len() {
        Err(SqlError::SyntaxError)
    } else {
        let p = space_end(s, pos);
        if pos <= p < s.len() && s[p] == '(' {
            if kw_match(s, space_end(s, p + 1), "select"@, "SELECT"@) is Some {
                Err(SqlError::UnsupportedConstruct)
            } else {
                match sql_or(s, p + 1) {
                    Err(x) => Err(x),
                    Ok((x, e)) => {
                        let e2 = space_end(s, e);
                        if e2 < s.len() && s[e2] == ')' {
                            Ok((x, e2 + 1))
                        } else {
                            Err(SqlError::SyntaxError)
                        }
                    },
                }
            }
        } else {
            match kw_match(s, p, "not"@, "NOT"@) {
                Some(k) => if pos < k <= s.len() {
                    match sql_unary(s, k) {
                        Err(x) => Err(x),
                        Ok((x, e)) => Ok((ExprModel::Not(Box::new(x)), e)),
                    }
                } else {
                    Err(SqlError::SyntaxError)
                },
                None => match sql_operand(s, p) {
                    Err(x) => Err(x),
                    Ok((l, e1)) => match sql_op(s, e1) {
                        None => Err(SqlError::SyntaxError),
                        Some((op, e2)) => match sql_operand(s, e2) {
                            Err(x) => Err(x),
                            Ok((r, e3)) => Ok((ExprModel::Compare(op, l, r), e3)),
                        },
                    },
                },
            }
        }
    }
}

/// More conditions joined by `AND` to `acc`, from `e` on.
pub open spec fn and_rest(s: Seq<char>, e: int, acc: ExprModel) -> Result<(ExprModel, int), SqlError>
    decreases s.len() - e, 1int,
{
    if e < 0 || e > s.len() {
        Err(SqlError::SyntaxError)
    } else {
        match kw_after(s, e, "and"@, "AND"@) {
            None => Ok((acc, e)),
            Some(k) => if e < k <= s.len() {
                match sql_unary(s, k) {
                    Err(x) => Err(x),
                    Ok((y, e2)) => if e < e2 <= s.len() {
                        and_rest(s, e2, ExprModel::And(Box::new(acc), Box::new(y)))
                    } else {
                        Err(SqlError::SyntaxError)
                    },
                }
            } else {
                Err(SqlError::SyntaxError)
            },
        }
    }
}

/// Conditions joined by `AND`.
pub open spec fn sql_and(s: Seq<char>, pos: int) -> Result<(ExprModel, int), SqlError>
    decreases s.len() - pos, 2int,
{
    match sql_unary(s, pos) {
        Err(x) => Err(x),
        Ok((x, e0)) => if pos < e0 <= s.len() {
            and_rest(s, e0, x)
        } else {
            Err(SqlError::SyntaxError)
        },
    }
}

/// More conditions joined by `OR` to `acc`, from `e` on.
pub open spec fn or_rest(s: Seq<char>, e: int, acc: ExprModel) -> Result<(ExprModel, int), SqlError>
    decreases s.len() - e, 3int,
{
    if e < 0 || e > s.len() {
        Err(SqlError::SyntaxError)
    } else {
        match kw_after(s, e, "or"@, "OR"@) {
            None => Ok((acc, e)),
            Some(k) => if e < k <= s.len() {
                match sql_and(s, k) {
                    Err(x) => Err(x),
                    Ok((y, e2)) => if e < e2 <= s.len() {
                        or_rest(s, e2, ExprModel::Or(Box::new(acc), Box::new(y)))
                    } else {
                        Err(SqlError::SyntaxError)
                    },
                }
            } else {
                Err(SqlError::SyntaxError)
            },
        }
    }
}

/// A condition: terms joined by `OR`, each of conditions joined by `AND`.
pub open spec fn sql_or(s: Seq<char>, pos: int) -> Result<(ExprModel, int), SqlError>
    decreases s.len() - pos, 4int,
{
    match sql_and(s, pos) {
        Err(x) => Err(x),
        Ok((x, e0)) => if pos < e0 <= s.len() {
            or_rest(s, e0, x)
        } else {
            Err(SqlError::SyntaxError)
        },
    }
}

/// A column name or a literal: a number, a quoted string, `TRUE`, `FALSE` or `NULL`.
fn parse_operand(s: &Vec<char>, pos: usize) -> (r: Result<(Operand, usize), SqlError>)
    requires
        pos <= s@.len(),
    ensures
        r matches Ok((o, e)) ==> pos < e <= s@.len(),
        match sql_operand(s@, pos as int) {
            Ok((o, e)) => r is Ok && operand_view(r->Ok_0.0) == o && r->Ok_0.1 == e,
            Err(k) => r is Err && r->Err_0 == k,
        },
{
    let p = skip_space(s, pos);
    if p == s.len() {
        return Err(SqlError::SyntaxError);
    }
    let c = s[p];
    if c == '\'' {
        let mut e = p + 1;
        let mut t: Vec<char> = Vec::new();
        while e < s.len() && s[e] != '\''
            invariant
                p < e <= s@.len(),
                p == space_end(s@, pos as int),
                t@ == s@.subrange(p + 1, e as int),
                quote_end(s@, p + 1) == quote_end(s@, e as int),
            decreases s@.len() - e,
        {
            t.push(s[e]);
            e = e + 1;
            assert(t@ =~= s@.subrange(p + 1, e as int));
        }
        if e == s.len() {
            return Err(SqlError::SyntaxError);
        }
        return Ok((Operand::Literal(Value::Text(t)), e + 1));
    }
    if c == '-' || digit_value(c).is_some() {
        let (v, e) = parse_int(s, p)?;
        return Ok((Operand::Literal(Value::Int(v)), e));
    }
    if c == '(' {
        return Err(SqlError::UnsupportedConstruct);
    }
    if let Some(e) = keyword_at(s, p, "true", "TRUE") {
        return Ok((Operand::Literal(Value::Bool(true)), e));
    }
    if let Some(e) = keyword_at(s, p, "false", "FALSE") {
        return Ok((Operand::Literal(Value::Bool(false)), e));
    }
    if let Some(e) = keyword_at(s, p, "null", "NULL") {
        return Ok((Operand::Literal(Value::Null), e));
    }
    if keyword_at(s, p, "select", "SELECT").is_some() {
        return Err(SqlError::UnsupportedConstruct);
    }
    let (n, e) = parse_name(s, p)?;
    let q = skip_space(s, e);
    if q < s.len() && s[q] == '(' {
        return Err(SqlError::UnsupportedConstruct);
    }
    Ok((Operand::Column(n), e))
}

/// A comparison operator, after white space.
fn parse_op(s: &Vec<char>, pos: usize) -> (r: Result<(CmpOp, usize), SqlError>)
    requires
        pos <= s@.len(),
    ensures
        r matches Ok((o, e)) ==> pos < e <= s@.len(),
        match sql_op(s@, pos as int) {
            Some((o, e)) => r is Ok && r->Ok_0.0 == o && r->Ok_0.1 == e,
            None => r == Err::<(CmpOp, usize), SqlError>(SqlError::SyntaxError),
        },
{
    let p = skip_space(s, pos);
    if p == s.len() {
        return Err(SqlError::SyntaxError);
    }
    let c = s[p];
    let next = if p + 1 < s.len() {
        s[p + 1]
    } else {
        ' '
    };
    if c == '=' {
        Ok((CmpOp::Eq, p + 1))
    } else if c == '!' && next == '=' {
        Ok((CmpOp::NotEq, p + 2))
    } else if c == '<' && next == '>' {
        Ok((CmpOp::NotEq, p + 2))
    } else if c == '<' && next == '=' {
        Ok((CmpOp::LtEq, p + 2))
    } else if c == '<' {
        Ok((CmpOp::Lt, p + 1))
    } else if c == '>' && next == '=' {
        Ok((CmpOp::GtEq, p + 2))
    } else if c == '>' {
        Ok((CmpOp::Gt, p + 1))
    } else {
        Err(SqlError::SyntaxError)
    }
}

/// `( expr )`, `NOT x`, or `operand op operand`.
fn parse_unary(s: &Vec<char>, pos: usize) -> (r: Result<(Expr, usize), SqlError>)
    requires
        pos <= s@.len(),
    ensures
        r matches Ok((x, e)) ==> pos < e <= s@.len(),
        match sql_unary(s@, pos as int) {
            Ok((x, e)) => r is Ok && expr_view(r->Ok_0.0) == x && r->Ok_0.1 == e,
            Err(k) => r is Err && r->Err_0 == k,
        },
    decreases s@.len() - pos, 0int,
{
    let p = skip_space(s, pos);
    if p < s.len() && s[p] == '(' {
        let q = skip_space(s, p + 1);
        if keyword_at(s, q, "select", "SELECT").is_some() {
            return Err(SqlError::UnsupportedConstruct);
        }
        let (x, e) = parse_or(s, p + 1)?;
        let e2 = skip_space(s, e);
        if e2 < s.len() && s[e2] == ')' {
            return Ok((x, e2 + 1));
        }
        return Err(SqlError::SyntaxError);
    }
    if let Some(k) = keyword_at(s, p, "not", "NOT") {
        let (x, e) = parse_unary(s, k)?;
        return Ok((Expr::Not(Box::new(x)), e));
    }
    let (l, e1) = parse_operand(s, p)?;
    let (op, e2) = parse_op(s, e1)?;
    let (r, e3) = parse_operand(s, e2)?;
    Ok((Expr::Compare(op, l, r), e3))
}

/// Conditions joined by `AND`.
fn parse_and(s: &Vec<char>, pos: usize) -> (r: Result<(Expr, usize), SqlError>)
    requires
        pos <= s@.len(),
    ensures
        r matches Ok((x, e)) ==> pos < e <= s@.len(),
        match sql_and(s@, pos as int) {
            Ok((x, e)) => r is Ok && expr_view(r->Ok_0.0) == x && r->Ok_0.1 == e,
            Err(k) => r is Err && r->Err_0 == k,
        },
    decreases s@.len() - pos, 1int,
{
    let (first, e0) = parse_unary(s, pos)?;
    let mut x = first;
    let mut e = e0;
    loop
        invariant
            pos < e <= s@.len(),
            sql_and(s@, pos as int) == and_rest(s@, e as int, expr_view(x)),
        decreases s@.len() - e,
    {
        match expect_keyword(s, e, "and", "AND") {
            Some(k) => {
                let (y, e2) = parse_unary(s, k)?;
                x = Expr::And(Box::new(x), Box::new(y));
                e = e2;
            },
            None => {
                return Ok((x, e));
            },
        }
    }
}

/// Conditions joined by `OR`.
fn parse_or(s: &Vec<char>, pos: usize) -> (r: Result<(Expr, usize), SqlError>)
    requires
        pos <= s@.len(),
    ensures
        r matches Ok((x, e)) ==> pos < e <= s@.len(),
        match sql_or(s@, pos as int) {
            Ok((x, e)) => r is Ok && expr_view(r->Ok_0.0) == x && r->Ok_0.1 == e,
            Err(k) => r is Err && r->Err_0 == k,
        },
    decreases s@.len() - pos, 2int,
{
    let (first, e0) = parse_and(s, pos)?;
    let mut x = first;
    let mut e = e0;
    loop
        invariant
            pos < e <= s@.len(),
            sql_or(s@, pos as int) == or_rest(s@, e as int, expr_view(x)),
        decreases s@.len() - e,
    {
        match expect_keyword(s, e, "or", "OR") {
            Some(k) => {
                let (y, e2) = parse_and(s, k)?;
                x = Expr::Or(Box::new(x), Box::new(y));
                e = e2;
            },
            None => {
                return Ok((x, e));
            },
        }
    }
}

/// `s[a..b]` is a source identifier: a run of source characters after white space,
/// which ends where the text or the run ends.
pub open spec fn source_at(s: Seq<char>, a: int, b: int) -> bool {
    &&& 0 < a < b <= s.len()
    &&& is_space(s[a - 1])
    &&& forall|i: int| a <= i < b ==> is_source_char(#[trigger] s[i])
    &&& b == s.len() || !is_source_char(s[b])
}

/// The source identifier after `FROM`: its start and end.
fn parse_source(s: &Vec<char>, pos: usize) -> (r: Result<(usize, usize), SqlError>)
    requires
        pos <= s@.len(),
    ensures
        r matches Ok((a, b)) ==> pos < a && pos < b && source_at(s@, a as int, b as int) && forall|i: int|
            pos <= i < a ==> is_space(#[trigger] s@[i]),
        pos + 1 < s@.len() && is_space(s@[pos as int]) && is_source_char(s@[pos + 1]) ==> r is Ok,
        match sql_source(s@, pos as int) {
            Some((a, b)) => r is Ok && r->Ok_0.0 == a && r->Ok_0.1 == b,
            None => r == Err::<(usize, usize), SqlError>(SqlError::SyntaxError),
        },
{
    let a = skip_space(s, pos);
    if a == pos {
        return Err(SqlError::SyntaxError);
    }
    let mut b = a;
    while b < s.len() && source_char(s[b])
        invariant
            a <= b <= s@.len(),
            a == space_end(s@, pos as int),
            source_end(s@, a as int) == source_end(s@, b as int),
            forall|i: int| a <= i < b ==> is_source_char(#[trigger] s@[i]),
        decreases s@.len() - b,
    {
        b = b + 1;
    }
    if b == a {
        return Err(SqlError::SyntaxError);
    }
    Ok((a, b))
}

fn copy_range(s: &Vec<char>, a: usize, b: usize) -> (r: Vec<char>)
    requires
        a <= b <= s@.len(),
    ensures
        r@ == s@.subrange(a as int, b as int),
{
    let mut r: Vec<char> = Vec::new();
    let mut i = a;
    while i < b
        invariant
            a <= i <= b <= s@.len(),
            r@ == s@.subrange(a as int, i as int),
        decreases b - i,
    {
        r.push(s[i]);
        i = i + 1;
        assert(r@ =~= s@.subrange(a as int, i as int));
    }
    r
}

/// After white space from `pos`, a `*`.
pub open spec fn star_at(s: Seq<char>, pos: int) -> bool {
    exists|p: int|
        pos <= p < s.len() && s[p] == '*' && forall|i: int| pos <= i < p ==> is_space(#[trigger] s[i])
}

/// A parsed query, as values; a selection of `None` stands for `*`.
pub struct QueryModel {
    pub source: Seq<char>,
    pub condition: Option<ExprModel>,
    pub selection: Option<Seq<Seq<char>>>,
    pub offset: Option<int>,
    pub limit: Option<int>,
    pub order_by: Seq<(Seq<char>, bool)>,
}

pub open spec fn selection_view(sel: Selection) -> Option<Seq<Seq<char>>> {
    match sel {
        Selection::All => None,
        Selection::Columns(cs) => Some(names_view(cs@)),
    }
}

pub open spec fn keys_view(keys: Seq<SortKey>) -> Seq<(Seq<char>, bool)> {
    keys.map_values(|k: SortKey| (k.column@, k.descending))
}

pub open spec fn query_view(q: Query) -> QueryModel {
    QueryModel {
        source: q.source@,
        condition: match q.condition {
            Some(e) => Some(expr_view(e)),
            None => None,
        },
        selection: match q.selection {
            Selection::All => None,
            Selection::Columns(cs) => Some(names_view(cs@)),
        },
        offset: match q.offset {
            Some(n) => Some(n as int),
            None => None,
        },
        limit: match q.limit {
            Some(n) => Some(n as int),
            None => None,
        },
        order_by: q.order_by@.map_values(|k: SortKey| (k.column@, k.descending)),
    }
}

/// Column names separated by commas, from `e` on, after `cols`.
pub open spec fn sel_rest(s: Seq<char>, e: int, cols: Seq<Seq<char>>) -> Result<
    (Option<Seq<Seq<char>>>, int),
    SqlError,
>
    decreases s.len() - e,
{
    match sql_name(s, e) {
        None => Err(SqlError::SyntaxError),
        Some((n, e1)) => {
            let q = space_end(s, e1);
            if q < s.len() && s[q] == '(' {
                Err(SqlError::UnsupportedConstruct)
            } else if q < s.len() && s[q] == ',' {
                if e < q + 1 <= s.len() {
                    sel_rest(s, q + 1, cols.push(n))
                } else {
                    Err(SqlError::SyntaxError)
                }
            } else {
                Ok((Some(cols.push(n)), e1))
            }
        },
    }
}

/// The select list: `*` (as `None`) or column names.
pub open spec fn sql_selection(s: Seq<char>, pos: int) -> Result<(Option<Seq<Seq<char>>>, int), SqlError> {
    let p = space_end(s, pos);
    if 0 <= p < s.len() && s[p] == '*' {
        Ok((None, p + 1))
    } else {
        sel_rest(s, p, Seq::empty())
    }
}

/// Sort keys from `e` on, after `keys`: a name, then `DESC` or `ASC` or nothing.
pub open spec fn order_rest(s: Seq<char>, e: int, keys: Seq<(Seq<char>, bool)>) -> Result<
    (Seq<(Seq<char>, bool)>, int),
    SqlError,
>
    decreases s.len() - e,
{
    match sql_name(s, e) {
        None => Err(SqlError::SyntaxError),
        Some((n, e1)) => {
            let de = kw_after(s, e1, "desc"@, "DESC"@);
            let ae = kw_after(s, e1, "asc"@, "ASC"@);
            let descending = de is Some;
            let end = if de is Some {
                de->Some_0
            } else if ae is Some {
                ae->Some_0
            } else {
                e1
            };
            let keys2 = keys.push((n, descending));
            let q = space_end(s, end);
            if q < s.len() && s[q] == ',' {
                if e < q + 1 <= s.len() {
                    order_rest(s, q + 1, keys2)
                } else {
                    Err(SqlError::SyntaxError)
                }
            } else {
                Ok((keys2, end))
            }
        },
    }
}

/// The position after the run of source characters from `i`.
pub open spec fn source_end(s: Seq<char>, i: int) -> int
    decreases s.len() - i,
{
    if 0 <= i < s.len() && is_source_char(s[i]) {
        source_end(s, i + 1)
    } else {
        i
    }
}

/// The source after `FROM`: white space, then a run of source characters.
pub open spec fn sql_source(s: Seq<char>, pos: int) -> Option<(int, int)> {
    let a = space_end(s, pos);
    let b = source_end(s, a);
    if a == pos || b == a {
        None
    } else {
        Some((a, b))
    }
}

/// A clause outside the grammar starts at `pos`: another table, a join, a
/// grouping or a union.
pub open spec fn unsupported_at(s: Seq<char>, pos: int) -> bool {
    let p = space_end(s, pos);
    (0 <= p < s.len() && s[p] == ',') || kw_after(s, p, "join"@, "JOIN"@) is Some || kw_after(
        s,
        p,
        "inner"@,
        "INNER"@,
    ) is Some || kw_after(s, p, "left"@, "LEFT"@) is Some || kw_after(s, p, "right"@, "RIGHT"@) is Some
        || kw_after(s, p, "full"@, "FULL"@) is Some || kw_after(s, p, "cross"@, "CROSS"@) is Some
        || kw_after(s, p, "group"@, "GROUP"@) is Some || kw_after(s, p, "having"@, "HAVING"@) is Some
        || kw_after(s, p, "union"@, "UNION"@) is Some
}

/// An optional `WHERE` condition from `b` on.
pub open spec fn where_part(s: Seq<char>, b: int) -> Result<(Option<ExprModel>, int), SqlError> {
    match kw_after(s, b, "where"@, "WHERE"@) {
        None => Ok((None, b)),
        Some(k) => match sql_or(s, k) {
            Err(x) => Err(x),
            Ok((x, e1)) => if unsupported_at(s, e1) {
                Err(SqlError::UnsupportedConstruct)
            } else {
                Ok((Some(x), e1))
            },
        },
    }
}

/// An optional `ORDER BY` list from `e` on.
pub open spec fn order_part(s: Seq<char>, e: int) -> Result<(Seq<(Seq<char>, bool)>, int), SqlError> {
    match kw_after(s, e, "order"@, "ORDER"@) {
        None => Ok((Seq::empty(), e)),
        Some(k) => match kw_after(s, k, "by"@, "BY"@) {
            None => Err(SqlError::SyntaxError),
            Some(k2) => order_rest(s, k2, Seq::empty()),
        },
    }
}

/// An optional keyword followed by a count.
pub open spec fn opt_count(s: Seq<char>, e: int, lo: Seq<char>, up: Seq<char>) -> Result<
    (Option<int>, int),
    SqlError,
> {
    match kw_after(s, e, lo, up) {
        None => Ok((None, e)),
        Some(k) => match sql_count(s, k) {
            None => Err(SqlError::SyntaxError),
            Some((n, e1)) => Ok((Some(n), e1)),
        },
    }
}

/// `LIMIT` and `OFFSET`, each optional, in either order: (limit, offset, end).
pub open spec fn limits(s: Seq<char>, e: int) -> Result<(Option<int>, Option<int>, int), SqlError> {
    match opt_count(s, e, "limit"@, "LIMIT"@) {
        Err(x) => Err(x),
        Ok((l1, e1)) => match opt_count(s, e1, "offset"@, "OFFSET"@) {
            Err(x) => Err(x),
            Ok((o, e2)) => if l1 is None {
                match opt_count(s, e2, "limit"@, "LIMIT"@) {
                    Err(x) => Err(x),
                    Ok((l2, e3)) => Ok((l2, o, e3)),
                }
            } else {
                Ok((l1, o, e2))
            },
        },
    }
}

/// Only white space, with at most one `;`, follows `e`.
pub open spec fn ends_at(s: Seq<char>, e: int) -> bool {
    let t = space_end(s, e);
    let t2 = if t < s.len() && s[t] == ';' {
        space_end(s, t + 1)
    } else {
        t
    };
    t2 >= s.len()
}

/// What follows the source: `[WHERE condition] [ORDER BY keys] [LIMIT n] [OFFSET n] [;]`
/// and nothing more.
pub open spec fn tail_spec(s: Seq<char>, b: int) -> Result<
    (Option<ExprModel>, Seq<(Seq<char>, bool)>, Option<int>, Option<int>),
    SqlError,
> {
    match where_part(s, b) {
        Err(x) => Err(x),
        Ok((cond, e1)) => match order_part(s, e1) {
            Err(x) => Err(x),
            Ok((keys, e2)) => match limits(s, e2) {
                Err(x) => Err(x),
                Ok((lim, off, e3)) => if ends_at(s, e3) {
                    Ok((cond, keys, lim, off))
                } else if unsupported_at(s, e3) {
                    Err(SqlError::UnsupportedConstruct)
                } else {
                    Err(SqlError::SyntaxError)
                },
            },
        },
    }
}

/// The restricted grammar of one statement:
/// `SELECT (* | names) FROM source [WHERE condition] [ORDER BY keys] [LIMIT n]
/// [OFFSET n] [;]`, keywords in any case; a join, another table, a grouping, a
/// union, a function call or a subquery is `UnsupportedConstruct`; anything else
/// that does not fit, a second statement included, is `SyntaxError`.
pub open spec fn sql_query(s: Seq<char>) -> Result<QueryModel, SqlError> {
    match kw_match(s, space_end(s, 0), "select"@, "SELECT"@) {
        None => Err(SqlError::SyntaxError),
        Some(k) => match sql_selection(s, k) {
            Err(x) => Err(x),
            Ok((sel, al)) => match kw_match(s, space_end(s, al), "from"@, "FROM"@) {
                None => if unsupported_at(s, al) {
                    Err(SqlError::UnsupportedConstruct)
                } else {
                    Err(SqlError::SyntaxError)
                },
                Some(af) => match sql_source(s, af) {
                    None => Err(SqlError::SyntaxError),
                    Some((a, b)) => if unsupported_at(s, b) {
                        Err(SqlError::UnsupportedConstruct)
                    } else {
                        match tail_spec(s, b) {
                            Err(x) => Err(x),
                            Ok((cond, keys, lim, off)) => Ok(
                                QueryModel {
                                    source: s.subrange(a, b),
                                    condition: cond,
                                    selection: sel,
                                    offset: off,
                                    limit: lim,
                                    order_by: keys,
                                },
                            ),
                        }
                    },
                },
            },
        },
    }
}

/// The select list: `*`, or column names separated by commas.
fn parse_selection(s: &Vec<char>, pos: usize) -> (r: Result<(Selection, usize), SqlError>)
    requires
        pos <= s@.len(),
    ensures
        r matches Ok((x, e)) ==> pos < e <= s@.len(),
        r matches Ok((x, e)) ==> (x is All <==> star_at(s@, pos as int)),
        star_at(s@, pos as int) ==> (r is Ok && r->Ok_0.0 is All),
        r matches Ok((x, e)) ==> (x is All ==> pos < e && s@[e - 1] == '*' && forall|i: int|
            pos <= i < e - 1 ==> is_space(#[trigger] s@[i])),
        match sql_selection(s@, pos as int) {
            Ok((x, e)) => r is Ok && selection_view(r->Ok_0.0) == x && r->Ok_0.1 == e,
            Err(k) => r is Err && r->Err_0 == k,
        },
{
    let p = skip_space(s, pos);
    if p < s.len() && s[p] == '*' {
        return Ok((Selection::All, p + 1));
    }
    proof {
        assert forall|q: int|
            pos <= q < s@.len() && s@[q] == '*' implies !(forall|i: int|
                pos <= i < q ==> is_space(#[trigger] s@[i])) by {
            if forall|i: int| pos <= i < q ==> is_space(#[trigger] s@[i]) {
                if q < p {
                    assert(is_space(s@[q]));
                } else if q > p {
                    assert(p < s@.len());
                    assert(is_space(s@[p as int]));
                }
            }
        };
        assert(!star_at(s@, pos as int));
    }
    let mut cols: Vec<Vec<char>> = Vec::new();
    assert(names_view(cols@) =~= Seq::<Seq<char>>::empty());
    let mut e = p;
    loop
        invariant
            pos <= p <= e <= s@.len(),
            p == space_end(s@, pos as int),
            !(p < s@.len() && s@[p as int] == '*'),
            sql_selection(s@, pos as int) == sel_rest(s@, e as int, names_view(cols@)),
            !star_at(s@, pos as int),
            cols@.len() > 0 ==> pos < e,
        decreases s@.len() - e,
    {
        let (n, e1) = parse_name(s, e)?;
        let q = skip_space(s, e1);
        if q < s.len() && s[q] == '(' {
            return Err(SqlError::UnsupportedConstruct);
        }
        let ghost cv = names_view(cols@);
        let ghost nv = n@;
        cols.push(n);
        assert(names_view(cols@) =~= cv.push(nv));
        if q < s.len() && s[q] == ',' {
            e = q + 1;
        } else {
            return Ok((Selection::Columns(cols), e1));
        }
    }
}

/// The keys of `ORDER BY`: names, each with an optional `ASC` or `DESC`.
fn parse_order(s: &Vec<char>, pos: usize) -> (r: Result<(Vec<SortKey>, usize), SqlError>)
    requires
        pos <= s@.len(),
    ensures
        r matches Ok((x, e)) ==> pos < e <= s@.len(),
        match order_rest(s@, pos as int, Seq::empty()) {
            Ok((x, e)) => r is Ok && keys_view(r->Ok_0.0@) == x && r->Ok_0.1 == e,
            Err(k) => r is Err && r->Err_0 == k,
        },
{
    let mut keys: Vec<SortKey> = Vec::new();
    let mut e = pos;
    assert(keys_view(keys@) =~= Seq::empty());
    loop
        invariant
            pos <= e <= s@.len(),
            order_rest(s@, pos as int, Seq::empty()) == order_rest(s@, e as int, keys_view(keys@)),
        decreases s@.len() - e,
    {
        let (n, e1) = parse_name(s, e)?;
        let mut end = e1;
        let mut descending = false;
        if let Some(k) = expect_keyword(s, e1, "desc", "DESC") {
            descending = true;
            end = k;
        } else if let Some(k) = expect_keyword(s, e1, "asc", "ASC") {
            end = k;
        }
        let ghost kv = keys_view(keys@);
        let ghost nv = n@;
        keys.push(SortKey { column: n, descending });
        assert(keys_view(keys@) =~= kv.push((nv, descending)));
        let q = skip_space(s, end);
        if q < s.len() && s[q] == ',' {
            e = q + 1;
        } else {
            return Ok((keys, end));
        }
    }
}

/// Whether a clause outside the supported grammar starts at `pos`.
fn unsupported_clause(s: &Vec<char>, pos: usize) -> (r: bool)
    requires
        pos <= s@.len(),
    ensures
        pos == s@.len() ==> !r,
        r == unsupported_at(s@, pos as int),
{
    let p = skip_space(s, pos);
    (p < s.len() && s[p] == ',') || expect_keyword(s, p, "join", "JOIN").is_some()
        || expect_keyword(s, p, "inner", "INNER").is_some()
        || expect_keyword(s, p, "left", "LEFT").is_some()
        || expect_keyword(s, p, "right", "RIGHT").is_some()
        || expect_keyword(s, p, "full", "FULL").is_some()
        || expect_keyword(s, p, "cross", "CROSS").is_some()
        || expect_keyword(s, p, "group", "GROUP").is_some()
        || expect_keyword(s, p, "having", "HAVING").is_some()
        || expect_keyword(s, p, "union", "UNION").is_some()
}

/// An optional keyword followed by a count.
fn parse_opt_count(s: &Vec<char>, e: usize, lower: &str, upper: &str) -> (r: Result<(Option<usize>, usize), SqlError>)
    requires
        e <= s@.len(),
    ensures
        match opt_count(s@, e as int, lower@, upper@) {
            Ok((n, e1)) => r is Ok && r->Ok_0.1 == e1 && e1 <= s@.len() && match (n, r->Ok_0.0) {
                (Some(a), Some(b)) => a == b as int,
                (None, None) => true,
                _ => false,
            },
            Err(k) => r is Err && r->Err_0 == k,
        },
{
    match expect_keyword(s, e, lower, upper) {
        Some(k) => {
            let (n, e1) = parse_count(s, k)?;
            Ok((Some(n), e1))
        },
        None => Ok((None, e)),
    }
}

pub open spec fn cond_view(c: Option<Expr>) -> Option<ExprModel> {
    match c {
        Some(e) => Some(expr_view(e)),
        None => None,
    }
}

pub open spec fn count_view(c: Option<usize>) -> Option<int> {
    match c {
        Some(n) => Some(n as int),
        None => None,
    }
}

/// What follows the source.
#[verifier::rlimit(100)]
fn parse_tail(s: &Vec<char>, b: usize) -> (r: Result<(Option<Expr>, Vec<SortKey>, Option<usize>, Option<usize>), SqlError>)
    requires
        b <= s@.len(),
    ensures
        match tail_spec(s@, b as int) {
            Ok((c, k, l, o)) => r is Ok && cond_view(r->Ok_0.0) == c && keys_view(r->Ok_0.1@) == k
                && count_view(r->Ok_0.2) == l && count_view(r->Ok_0.3) == o,
            Err(x) => r is Err && r->Err_0 == x,
        },
{
    let mut e = b;
    let mut condition: Option<Expr> = None;
    if let Some(k) = expect_keyword(s, e, "where", "WHERE") {
        let (x, e1) = parse_or(s, k)?;
        if unsupported_clause(s, e1) {
            return Err(SqlError::UnsupportedConstruct);
        }
        condition = Some(x);
        e = e1;
    }
    assert(where_part(s@, b as int) == Ok::<(Option<ExprModel>, int), SqlError>((cond_view(condition), e as int)));
    let mut order_by: Vec<SortKey> = Vec::new();
    assert(keys_view(order_by@) =~= Seq::empty());
    if let Some(k) = expect_keyword(s, e, "order", "ORDER") {
        match expect_keyword(s, k, "by", "BY") {
            Some(k2) => {
                let (keys, e1) = parse_order(s, k2)?;
                order_by = keys;
                e = e1;
            },
            None => {
                return Err(SqlError::SyntaxError);
            },
        }
    }
    let e2 = e;
    let (l1, e3) = parse_opt_count(s, e2, "limit", "LIMIT")?;
    let (offset, e4) = parse_opt_count(s, e3, "offset", "OFFSET")?;
    let mut limit = l1;
    let mut e5 = e4;
    if l1.is_none() {
        let (l2, e6) = parse_opt_count(s, e4, "limit", "LIMIT")?;
        limit = l2;
        e5 = e6;
    }
    let mut t = skip_space(s, e5);
    if t < s.len() && s[t] == ';' {
        t = skip_space(s, t + 1);
    }
    if t < s.len() {
        return if unsupported_clause(s, e5) {
            Err(SqlError::UnsupportedConstruct)
        } else {
            Err(SqlError::SyntaxError)
        };
    }
    Ok((condition, order_by, limit, offset))
}

/// Translates the text of one `SELECT` statement into a query.
pub fn parse_sql(s: &Vec<char>) -> (r: Result<Query, SqlError>)
    ensures
        match sql_query(s@) {
            Ok(m) => r is Ok && query_view(r->Ok_0) == m,
            Err(k) => r is Err && r->Err_0 == k,
        },
{
    let ks = skip_space(s, 0);
    let after_select = match keyword_at(s, ks, "select", "SELECT") {
        Some(k) => k,
        None => {
            return Err(SqlError::SyntaxError);
        },
    };
    let (selection, after_list) = parse_selection(s, after_select)?;
    let kf = skip_space(s, after_list);
    let after_from = match keyword_at(s, kf, "from", "FROM") {
        Some(k) => k,
        None => {
            return if unsupported_clause(s, after_list) {
                Err(SqlError::UnsupportedConstruct)
            } else {
                Err(SqlError::SyntaxError)
            };
        },
    };
    let (a, b) = parse_source(s, after_from)?;
    if unsupported_clause(s, b) {
        return Err(SqlError::UnsupportedConstruct);
    }
    let source = copy_range(s, a, b);
    let (condition, order_by, limit, offset) = parse_tail(s, b)?;
    Ok(Query { source, condition, selection, offset, limit, order_by })
}

} // verus!
