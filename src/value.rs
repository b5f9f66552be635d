use vstd::prelude::*;
use crate::text::{compare_text, copy_text, text_cmp, lemma_text_cmp_props, lemma_text_cmp_trans};

verus! {

/// The mathematical content of a table cell.
pub enum Cell {
    Null,
    Bool(bool),
    Int(int),
    Text(Seq<char>),
}

/// A typed value held in one cell of a table.
#[derive(Debug, PartialEq, Eq)]
pub enum Value {
    Null,
    Bool(bool),
    Int(i64),
    Text(Vec<char>),
}

impl View for Value {
    type V = Cell;

    open spec fn view(&self) -> Cell {
        match self {
            Value::Null => Cell::Null,
            Value::Bool(b) => Cell::Bool(*b),
            Value::Int(i) => Cell::Int(*i as int),
            Value::Text(t) => Cell::Text(t@),
        }
    }
}

/// The kind of a cell, used to order cells of different kinds.
pub open spec fn cell_rank(c: Cell) -> int {
    match c {
        Cell::Null => 0,
        Cell::Bool(_) => 1,
        Cell::Int(_) => 2,
        Cell::Text(_) => 3,
    }
}

pub open spec fn int_cmp(a: int, b: int) -> int {
    if a < b {
        -1
    } else if a > b {
        1
    } else {
        0
    }
}

pub open spec fn bool_int(b: bool) -> int {
    if b {
        1
    } else {
        0
    }
}

/// Total order on cells: by kind first (null, boolean, integer, text), then by value.
pub open spec fn cell_cmp(a: Cell, b: Cell) -> int {
    match (a, b) {
        (Cell::Bool(x), Cell::Bool(y)) => int_cmp(bool_int(x), bool_int(y)),
        (Cell::Int(x), Cell::Int(y)) => int_cmp(x, y),
        (Cell::Text(x), Cell::Text(y)) => text_cmp(x, y),
        _ => int_cmp(cell_rank(a), cell_rank(b)),
    }
}

pub proof fn lemma_cell_cmp_props(a: Cell, b: Cell)
    ensures
        -1 <= cell_cmp(a, b) <= 1,
        cell_cmp(a, b) == -cell_cmp(b, a),
        cell_cmp(a, b) == 0 <==> a == b,
{
    match (a, b) {
        (Cell::Text(x), Cell::Text(y)) => lemma_text_cmp_props(x, y),
        (Cell::Bool(x), Cell::Bool(y)) => {},
        _ => {},
    }
}

pub proof fn lemma_cell_cmp_trans(a: Cell, b: Cell, c: Cell)
    requires
        cell_cmp(a, b) <= 0,
        cell_cmp(b, c) <= 0,
    ensures
        cell_cmp(a, c) <= 0,
{
    lemma_cell_cmp_props(a, b);
    lemma_cell_cmp_props(b, c);
    lemma_cell_cmp_props(a, c);
    match (a, b, c) {
        (Cell::Text(x), Cell::Text(y), Cell::Text(z)) => lemma_text_cmp_trans(x, y, z),
        _ => {},
    }
}

fn rank_of(v: &Value) -> (r: u8)
    ensures
        r as int == cell_rank(v@),
{
    match v {
        Value::Null => 0,
        Value::Bool(_) => 1,
        Value::Int(_) => 2,
        Value::Text(_) => 3,
    }
}

/// Compares two values in the total order of cells.
pub fn compare_values(a: &Value, b: &Value) -> (r: i8)
    ensures
        r as int == cell_cmp(a@, b@),
{
    match (a, b) {
        (Value::Bool(x), Value::Bool(y)) => {
            if *x == *y {
                0
            } else if *y {
                -1
            } else {
                1
            }
        },
        (Value::Int(x), Value::Int(y)) => {
            if *x < *y {
                -1
            } else if *x > *y {
                1
            } else {
                0
            }
        },
        (Value::Text(x), Value::Text(y)) => compare_text(x, y),
        _ => {
            let ra = rank_of(a);
            let rb = rank_of(b);
            if ra < rb {
                -1
            } else if ra > rb {
                1
            } else {
                0
            }
        },
    }
}

/// A copy of a value.
pub fn copy_value(v: &Value) -> (r: Value)
    ensures
        r@ == v@,
{
    match v {
        Value::Null => Value::Null,
        Value::Bool(b) => Value::Bool(*b),
        Value::Int(i) => Value::Int(*i),
        Value::Text(t) => Value::Text(copy_text(t)),
    }
}

pub open spec fn is_digit(c: char) -> bool {
    '0' <= c && c <= '9'
}

pub open spec fn digit_val(c: char) -> int {
    if c == '0' { 0 }
    else if c == '1' { 1 }
    else if c == '2' { 2 }
    else if c == '3' { 3 }
    else if c == '4' { 4 }
    else if c == '5' { 5 }
    else if c == '6' { 6 }
    else if c == '7' { 7 }
    else if c == '8' { 8 }
    else { 9 }
}

/// The number that a run of decimal digits spells.
pub open spec fn digits_val(s: Seq<char>) -> int
    decreases s.len(),
{
    if s.len() == 0 {
        0
    } else {
        digits_val(s.drop_last()) * 10 + digit_val(s.last())
    }
}

pub open spec fn all_digits(s: Seq<char>) -> bool {
    s.len() > 0 && forall|i: int| 0 <= i < s.len() ==> is_digit(#[trigger] s[i])
}

/// The integer that a text spells in decimal, with an optional leading minus sign.
pub open spec fn int_of_text(t: Seq<char>) -> Option<int> {
    if t.len() > 0 && t[0] == '-' {
        if all_digits(t.drop_first()) {
            Some(-digits_val(t.drop_first()))
        } else {
            None
        }
    } else if all_digits(t) {
        Some(digits_val(t))
    } else {
        None
    }
}

/// The integers that `i64` holds.
pub open spec fn fits_i64(v: int) -> bool {
    i64::MIN <= v <= i64::MAX
}

pub proof fn lemma_digits_val_grows(s: Seq<char>, k: int)
    requires
        0 <= k <= s.len(),
        forall|i: int| 0 <= i < s.len() ==> is_digit(#[trigger] s[i]),
    ensures
        digits_val(s) >= digits_val(s.subrange(0, k)) >= 0,
    decreases s.len(),
{
    if s.len() > 0 {
        if k == s.len() {
            assert(s.subrange(0, k) =~= s);
            lemma_digits_val_grows(s.drop_last(), k - 1);
            assert(s.drop_last().subrange(0, k - 1) =~= s.drop_last());
        } else {
            lemma_digits_val_grows(s.drop_last(), k);
            assert(s.drop_last().subrange(0, k) =~= s.subrange(0, k));
            assert(s.drop_last().subrange(0, s.len() - 1) =~= s.drop_last());
            lemma_digits_val_grows(s.drop_last(), s.len() - 1);
        }
    } else {
        assert(s.subrange(0, k) =~= s);
    }
}

pub fn digit_value(c: char) -> (r: Option<i64>)
    ensures
        r matches Some(d) ==> is_digit(c) && d == digit_val(c),
        r is None ==> !is_digit(c),
{
    if c == '0' { Some(0) }
    else if c == '1' { Some(1) }
    else if c == '2' { Some(2) }
    else if c == '3' { Some(3) }
    else if c == '4' { Some(4) }
    else if c == '5' { Some(5) }
    else if c == '6' { Some(6) }
    else if c == '7' { Some(7) }
    else if c == '8' { Some(8) }
    else if c == '9' { Some(9) }
    else { None }
}

/// Reads a text as a decimal integer; `None` when it spells none, or one out of range.
pub fn parse_int_text(t: &Vec<char>) -> (r: Option<i64>)
    ensures
        match int_of_text(t@) {
            Some(v) => if fits_i64(v) {
                r == Some(v as i64)
            } else {
                r is None
            },
            None => r is None,
        },
{
    let neg = t.len() > 0 && t[0] == '-';
    let start: usize = if neg {
        1
    } else {
        0
    };
    let ghost body = t@.subrange(start as int, t@.len() as int);
    assert(neg ==> body =~= t@.drop_first());
    assert(!neg ==> body =~= t@);
    if start == t.len() {
        return None;
    }
    let limit: u64 = if neg {
        0x8000_0000_0000_0000
    } else {
        0x7fff_ffff_ffff_ffff
    };
    let mut v: u64 = 0;
    let mut i = start;
    while i < t.len()
        invariant
            start <= i <= t@.len(),
            start < t@.len(),
            neg == (t@.len() > 0 && t@[0] == '-'),
            start == (if neg { 1usize } else { 0usize }),
            neg ==> body == t@.drop_first(),
            !neg ==> body == t@,
            body == t@.subrange(start as int, t@.len() as int),
            limit == (if neg { 0x8000_0000_0000_0000u64 } else { 0x7fff_ffff_ffff_ffffu64 }),
            v <= limit,
            v as int == digits_val(t@.subrange(start as int, i as int)),
            forall|k: int| start <= k < i ==> is_digit(#[trigger] t@[k]),
        decreases t@.len() - i,
    {
        let d = match digit_value(t[i]) {
            Some(d) => d as u64,
            None => {
                assert(!is_digit(body[i - start]));
                return None;
            },
        };
        let ghost next = t@.subrange(start as int, i + 1);
        assert(next.drop_last() =~= t@.subrange(start as int, i as int));
        assert(next.last() == t@[i as int]);
        assert(digits_val(next) == v * 10 + d);
        if v > (limit - d) / 10 {
            proof {
                assert(v * 10 + d > limit) by (nonlinear_arith)
                    requires
                        v > (limit - d) / 10,
                        0 <= d <= 9,
                ;
                let k = i + 1 - start;
                if forall|j: int| 0 <= j < body.len() ==> is_digit(#[trigger] body[j]) {
                    lemma_digits_val_grows(body, k);
                    assert(body.subrange(0, k) =~= next);
                }
            }
            return None;
        }
        assert(v * 10 + d <= limit) by (nonlinear_arith)
            requires
                v <= (limit - d) / 10,
                0 <= d <= 9,
                d <= limit,
        ;
        v = v * 10 + d;
        i = i + 1;
    }
    assert(t@.subrange(start as int, i as int) =~= body);
    if neg {
        if v == 0x8000_0000_0000_0000 {
            Some(i64::MIN)
        } else {
            Some(-(v as i64))
        }
    } else {
        Some(v as i64)
    }
}

/// The boolean that a text spells: `true` or `false`, in any case.
pub open spec fn bool_of_text(t: Seq<char>) -> Option<bool> {
    if t.len() == 4 && (t[0] == 't' || t[0] == 'T') && (t[1] == 'r' || t[1] == 'R') && (t[2] == 'u'
        || t[2] == 'U') && (t[3] == 'e' || t[3] == 'E') {
        Some(true)
    } else if t.len() == 5 && (t[0] == 'f' || t[0] == 'F') && (t[1] == 'a' || t[1] == 'A') && (t[2]
        == 'l' || t[2] == 'L') && (t[3] == 's' || t[3] == 'S') && (t[4] == 'e' || t[4] == 'E') {
        Some(false)
    } else {
        None
    }
}

/// Reads a text as a boolean.
pub fn parse_bool_text(t: &Vec<char>) -> (r: Option<bool>)
    ensures
        r == bool_of_text(t@),
{
    if t.len() == 4 && (t[0] == 't' || t[0] == 'T') && (t[1] == 'r' || t[1] == 'R') && (t[2] == 'u'
        || t[2] == 'U') && (t[3] == 'e' || t[3] == 'E') {
        Some(true)
    } else if t.len() == 5 && (t[0] == 'f' || t[0] == 'F') && (t[1] == 'a' || t[1] == 'A') && (t[2]
        == 'l' || t[2] == 'L') && (t[3] == 's' || t[3] == 'S') && (t[4] == 'e' || t[4] == 'E') {
        Some(false)
    } else {
        None
    }
}

/// A text read as a value of the kind of `other`, when `other` is an integer or a
/// boolean and the text spells one.
pub open spec fn text_as(t: Seq<char>, other: Cell) -> Option<Cell> {
    match other {
        Cell::Int(_) => match int_of_text(t) {
            Some(v) => if fits_i64(v) {
                Some(Cell::Int(v))
            } else {
                None
            },
            None => None,
        },
        Cell::Bool(_) => match bool_of_text(t) {
            Some(b) => Some(Cell::Bool(b)),
            None => None,
        },
        _ => None,
    }
}

/// Two cells brought to one kind: unchanged when they share it; a text facing an
/// integer or a boolean is read as one; otherwise none.
pub open spec fn coerced(a: Cell, b: Cell) -> Option<(Cell, Cell)> {
    if cell_rank(a) == cell_rank(b) {
        Some((a, b))
    } else {
        match (a, b) {
            (Cell::Text(t), _) => match text_as(t, b) {
                Some(x) => Some((x, b)),
                None => None,
            },
            (_, Cell::Text(t)) => match text_as(t, a) {
                Some(y) => Some((a, y)),
                None => None,
            },
            _ => None,
        }
    }
}

fn text_as_value(t: &Vec<char>, other: &Value) -> (r: Option<Value>)
    ensures
        match (r, text_as(t@, other@)) {
            (Some(v), Some(c)) => v@ == c,
            (None, None) => true,
            _ => false,
        },
{
    match other {
        Value::Int(_) => match parse_int_text(t) {
            Some(v) => Some(Value::Int(v)),
            None => None,
        },
        Value::Bool(_) => match parse_bool_text(t) {
            Some(b) => Some(Value::Bool(b)),
            None => None,
        },
        _ => None,
    }
}

/// Brings two values to one kind for a comparison.
pub fn coerce_values(a: &Value, b: &Value) -> (r: Option<(Value, Value)>)
    ensures
        match (r, coerced(a@, b@)) {
            (Some((x, y)), Some((cx, cy))) => x@ == cx && y@ == cy,
            (None, None) => true,
            _ => false,
        },
{
    if rank_of(a) == rank_of(b) {
        return Some((copy_value(a), copy_value(b)));
    }
    match (a, b) {
        (Value::Text(t), _) => match text_as_value(t, b) {
            Some(x) => Some((x, copy_value(b))),
            None => None,
        },
        (_, Value::Text(t)) => match text_as_value(t, a) {
            Some(y) => Some((copy_value(a), y)),
            None => None,
        },
        _ => None,
    }
}

} // verus!
