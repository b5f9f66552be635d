use vstd::prelude::*;
use crate::table::{column_index, lemma_column_index, row_view, Table};
use crate::value::{cell_cmp, coerce_values, coerced, compare_values, copy_value, Cell, Value};

verus! {

/// A comparison operator of a filter.
#[derive(PartialEq, Eq, Structural, Clone, Copy, Debug)]
pub enum CmpOp {
    Eq,
    NotEq,
    Lt,
    LtEq,
    Gt,
    GtEq,
}

/// A leaf of a filter: a column of the row, or a literal value.
#[derive(Debug)]
pub enum Operand {
    Column(Vec<char>),
    Literal(Value),
}

/// A filter over the rows of a table.
#[derive(Debug)]
pub enum Expr {
    Compare(CmpOp, Operand, Operand),
    And(Box<Expr>, Box<Expr>),
    Or(Box<Expr>, Box<Expr>),
    Not(Box<Expr>),
}

/// Why a query could not be run against a table.
#[derive(PartialEq, Eq, Structural, Clone, Copy, Debug)]
pub enum ExecError {
    UnknownColumn,
    TypeMismatch,
}

/// Whether `op` holds of two values whose order is `c` (-1, 0 or 1).
pub open spec fn op_holds(op: CmpOp, c: int) -> bool {
    match op {
        CmpOp::Eq => c == 0,
        CmpOp::NotEq => c != 0,
        CmpOp::Lt => c < 0,
        CmpOp::LtEq => c <= 0,
        CmpOp::Gt => c > 0,
        CmpOp::GtEq => c >= 0,
    }
}

/// A comparison with a null on either side is unknown (`None`); a text facing an
/// integer or a boolean is read as one; values that cannot be brought to one kind
/// cannot be compared.
pub open spec fn compare_cells(op: CmpOp, a: Cell, b: Cell) -> Result<Option<bool>, ExecError> {
    if a is Null || b is Null {
        Ok(None)
    } else {
        match coerced(a, b) {
            Some((x, y)) => Ok(Some(op_holds(op, cell_cmp(x, y)))),
            None => Err(ExecError::TypeMismatch),
        }
    }
}

/// The cell that an operand stands for in a row.
pub open spec fn operand_cell(o: Operand, names: Seq<Seq<char>>, row: Seq<Cell>) -> Result<
    Cell,
    ExecError,
> {
    match o {
        Operand::Column(n) => match column_index(names, n@) {
            Some(i) => Ok(row[i]),
            None => Err(ExecError::UnknownColumn),
        },
        Operand::Literal(v) => Ok(v@),
    }
}

/// The value of a filter on a row: `None` once it meets a null, which `NOT`,
/// `AND` and `OR` pass on, so that such a row is left out; `AND` and `OR` do not
/// look at their right side when the left side decides.
pub open spec fn eval(e: Expr, names: Seq<Seq<char>>, row: Seq<Cell>) -> Result<Option<bool>, ExecError>
    decreases e,
{
    match e {
        Expr::Compare(op, l, r) => match operand_cell(l, names, row) {
            Err(x) => Err(x),
            Ok(a) => match operand_cell(r, names, row) {
                Err(x) => Err(x),
                Ok(b) => compare_cells(op, a, b),
            },
        },
        Expr::And(l, r) => match eval(*l, names, row) {
            Err(x) => Err(x),
            Ok(None) => Ok(None),
            Ok(Some(false)) => Ok(Some(false)),
            Ok(Some(true)) => eval(*r, names, row),
        },
        Expr::Or(l, r) => match eval(*l, names, row) {
            Err(x) => Err(x),
            Ok(None) => Ok(None),
            Ok(Some(true)) => Ok(Some(true)),
            Ok(Some(false)) => eval(*r, names, row),
        },
        Expr::Not(x) => match eval(*x, names, row) {
            Err(x) => Err(x),
            Ok(None) => Ok(None),
            Ok(Some(b)) => Ok(Some(!b)),
        },
    }
}

/// Every column that the filter names exists.
pub open spec fn columns_known(e: Expr, names: Seq<Seq<char>>) -> bool
    decreases e,
{
    match e {
        Expr::Compare(_, l, r) => operand_known(l, names) && operand_known(r, names),
        Expr::And(l, r) => columns_known(*l, names) && columns_known(*r, names),
        Expr::Or(l, r) => columns_known(*l, names) && columns_known(*r, names),
        Expr::Not(x) => columns_known(*x, names),
    }
}

pub open spec fn operand_known(o: Operand, names: Seq<Seq<char>>) -> bool {
    match o {
        Operand::Column(n) => column_index(names, n@) is Some,
        Operand::Literal(_) => true,
    }
}

fn operand_exists(o: &Operand, t: &Table) -> (r: bool)
    ensures
        r == operand_known(*o, t@.names),
{
    match o {
        Operand::Column(n) => t.find_column(n).is_some(),
        Operand::Literal(_) => true,
    }
}

/// Whether every column that the filter names exists in `t`.
pub fn check_columns(e: &Expr, t: &Table) -> (r: bool)
    ensures
        r == columns_known(*e, t@.names),
    decreases e,
{
    match e {
        Expr::Compare(_, l, r) => operand_exists(l, t) && operand_exists(r, t),
        Expr::And(l, r) => check_columns(l, t) && check_columns(r, t),
        Expr::Or(l, r) => check_columns(l, t) && check_columns(r, t),
        Expr::Not(x) => check_columns(x, t),
    }
}

fn operand_value(o: &Operand, t: &Table, row: &Vec<Value>) -> (r: Result<Value, ExecError>)
    requires
        row@.len() == t@.names.len(),
    ensures
        match (r, operand_cell(*o, t@.names, row_view(row@))) {
            (Ok(v), Ok(c)) => v@ == c,
            (Err(x), Err(y)) => x == y,
            _ => false,
        },
{
    match o {
        Operand::Column(n) => match t.find_column(n) {
            Some(i) => {
                proof {
                    lemma_column_index(t@.names, n@);
                }
                Ok(copy_value(&row[i]))
            },
            None => Err(ExecError::UnknownColumn),
        },
        Operand::Literal(v) => Ok(copy_value(v)),
    }
}

fn is_null(v: &Value) -> (r: bool)
    ensures
        r == (v@ is Null),
{
    match v {
        Value::Null => true,
        _ => false,
    }
}

/// Evaluates a filter on one row of a table.
pub fn eval_expr(e: &Expr, t: &Table, row: &Vec<Value>) -> (r: Result<Option<bool>, ExecError>)
    requires
        row@.len() == t@.names.len(),
    ensures
        r == eval(*e, t@.names, row_view(row@)),
    decreases e,
{
    match e {
        Expr::Compare(op, l, r) => {
            let a = operand_value(l, t, row)?;
            let b = operand_value(r, t, row)?;
            if is_null(&a) || is_null(&b) {
                Ok(None)
            } else {
                let (x, y) = match coerce_values(&a, &b) {
                    Some(p) => p,
                    None => {
                        return Err(ExecError::TypeMismatch);
                    },
                };
                let c = compare_values(&x, &y);
                let holds = match op {
                    CmpOp::Eq => c == 0,
                    CmpOp::NotEq => c != 0,
                    CmpOp::Lt => c < 0,
                    CmpOp::LtEq => c <= 0,
                    CmpOp::Gt => c > 0,
                    CmpOp::GtEq => c >= 0,
                };
                Ok(Some(holds))
            }
        },
        Expr::And(l, r) => match eval_expr(l, t, row)? {
            None => Ok(None),
            Some(true) => eval_expr(r, t, row),
            Some(false) => Ok(Some(false)),
        },
        Expr::Or(l, r) => match eval_expr(l, t, row)? {
            None => Ok(None),
            Some(true) => Ok(Some(true)),
            Some(false) => eval_expr(r, t, row),
        },
        Expr::Not(x) => match eval_expr(x, t, row)? {
            None => Ok(None),
            Some(b) => Ok(Some(!b)),
        },
    }
}

} // verus!
