use vstd::prelude::*;
use crate::expr::{check_columns, columns_known, eval, eval_expr, ExecError, Expr};
use crate::order::{is_row_subset, is_stable_order, keys_fit, sort_rows};
use crate::table::{column_index, gathered, lemma_column_index, wf_model, Table, TableModel};

verus! {

/// Which columns a query returns.
#[derive(Debug)]
pub enum Selection {
    All,
    Columns(Vec<Vec<char>>),
}

/// One key of `ORDER BY`.
#[derive(Debug)]
pub struct SortKey {
    pub column: Vec<char>,
    pub descending: bool,
}

/// A parsed query: where the data comes from, and what to do with it.
#[derive(Debug)]
pub struct Query {
    pub source: Vec<char>,
    pub condition: Option<Expr>,
    pub selection: Selection,
    pub offset: Option<usize>,
    pub limit: Option<usize>,
    pub order_by: Vec<SortKey>,
}

/// The positions of the rows among the first `n` on which the filter holds, or the
/// error of the first row on which it cannot be evaluated.
pub open spec fn filter_prefix(e: Expr, m: TableModel, n: int) -> Result<Seq<usize>, ExecError>
    decreases n,
{
    if n <= 0 {
        Ok(Seq::empty())
    } else {
        match filter_prefix(e, m, n - 1) {
            Err(x) => Err(x),
            Ok(s) => match eval(e, m.names, m.rows[n - 1]) {
                Err(x) => Err(x),
                Ok(Some(true)) => Ok(s.push((n - 1) as usize)),
                Ok(_) => Ok(s),
            },
        }
    }
}

pub open spec fn all_rows(n: nat) -> Seq<usize> {
    Seq::new(n, |i: int| i as usize)
}

/// The rows that pass the condition of a query, in table order; a condition
/// that names a missing column is refused before any row is looked at.
pub open spec fn filtered(cond: Option<Expr>, m: TableModel) -> Result<Seq<usize>, ExecError> {
    match cond {
        None => Ok(all_rows(m.rows.len())),
        Some(e) => if columns_known(e, m.names) {
            filter_prefix(e, m, m.rows.len() as int)
        } else {
            Err(ExecError::UnknownColumn)
        },
    }
}

/// The sort keys as column positions, if every key names a column.
pub open spec fn resolved_keys(order_by: Seq<SortKey>, names: Seq<Seq<char>>) -> Option<
    Seq<(usize, bool)>,
> {
    if forall|k: int|
        0 <= k < order_by.len() ==> (#[trigger] column_index(names, order_by[k].column@)) is Some {
        Some(
            Seq::new(
                order_by.len(),
                |k: int|
                    (
                        column_index(names, order_by[k].column@)->Some_0 as usize,
                        order_by[k].descending,
                    ),
            ),
        )
    } else {
        None
    }
}

/// The selected columns as positions, if every one exists.
pub open spec fn resolved_columns(sel: Selection, names: Seq<Seq<char>>) -> Option<Seq<usize>> {
    match sel {
        Selection::All => Some(all_rows(names.len())),
        Selection::Columns(cs) => resolved_names(cs@, names),
    }
}

/// The named columns as positions, if every one exists.
pub open spec fn resolved_names(cs: Seq<Vec<char>>, names: Seq<Seq<char>>) -> Option<Seq<usize>> {
    if forall|k: int| 0 <= k < cs.len() ==> (#[trigger] column_index(names, cs[k]@)) is Some {
        Some(Seq::new(cs.len(), |k: int| column_index(names, cs[k]@)->Some_0 as usize))
    } else {
        None
    }
}

/// The part of `s` that `OFFSET` and `LIMIT` leave.
pub open spec fn sliced(s: Seq<usize>, offset: Option<usize>, limit: Option<usize>) -> Seq<usize> {
    let start = match offset {
        Some(n) => if n < s.len() {
            n as int
        } else {
            s.len() as int
        },
        None => 0,
    };
    let end = match limit {
        Some(m) => if start + m < s.len() {
            start + m
        } else {
            s.len() as int
        },
        None => s.len() as int,
    };
    s.subrange(start, end)
}

pub proof fn lemma_filter_prefix(e: Expr, m: TableModel, n: int)
    requires
        n <= m.rows.len() <= usize::MAX,
    ensures
        filter_prefix(e, m, n) matches Ok(s) ==> is_row_subset(s, n) && is_row_subset(s, m.rows.len() as int),
    decreases n,
{
    if n > 0 {
        lemma_filter_prefix(e, m, n - 1);
        if let Ok(s) = filter_prefix(e, m, n - 1) {
            let t = s.push((n - 1) as usize);
            assert(forall|i: int| 0 <= i < t.len() ==> #[trigger] t[i] < n);
        }
    }
}

/// The positions of the rows of `t` on which `e` holds.
pub fn filter_rows(e: &Expr, t: &Table) -> (r: Result<Vec<usize>, ExecError>)
    requires
        t.wf(),
    ensures
        match (r, filter_prefix(*e, t@, t@.rows.len() as int)) {
            (Ok(v), Ok(s)) => v@ == s,
            (Err(x), Err(y)) => x == y,
            _ => false,
        },
{
    let mut out: Vec<usize> = Vec::new();
    let mut i: usize = 0;
    while i < t.rows.len()
        invariant
            t.wf(),
            i <= t@.rows.len(),
            filter_prefix(*e, t@, i as int) == Ok::<Seq<usize>, ExecError>(out@),
        decreases t@.rows.len() - i,
    {
        assert(t@.rows[i as int].len() == t@.names.len());
        let keep = eval_expr(e, t, &t.rows[i]);
        match keep {
            Err(x) => {
                proof {
                    lemma_filter_rest_err(*e, t@, i as int + 1, x);
                }
                return Err(x);
            },
            Ok(Some(true)) => {
                out.push(i);
            },
            Ok(_) => {},
        }
        i = i + 1;
    }
    Ok(out)
}

pub proof fn lemma_filter_rest_err(e: Expr, m: TableModel, n: int, x: ExecError)
    requires
        filter_prefix(e, m, n) == Err::<Seq<usize>, ExecError>(x),
        n <= m.rows.len(),
    ensures
        filter_prefix(e, m, m.rows.len() as int) == Err::<Seq<usize>, ExecError>(x),
    decreases m.rows.len() - n,
{
    if n < m.rows.len() {
        lemma_filter_rest_err(e, m, n + 1, x);
    }
}

fn all_positions(n: usize) -> (r: Vec<usize>)
    ensures
        r@ == all_rows(n as nat),
{
    let mut r: Vec<usize> = Vec::new();
    let mut i: usize = 0;
    while i < n
        invariant
            i <= n,
            r@ =~= all_rows(i as nat),
        decreases n - i,
    {
        r.push(i);
        i = i + 1;
        assert(r@ =~= all_rows(i as nat));
    }
    r
}

/// The sort keys of a query as column positions of `t`.
pub fn resolve_keys(order_by: &Vec<SortKey>, t: &Table) -> (r: Option<Vec<(usize, bool)>>)
    ensures
        match r {
            Some(v) => resolved_keys(order_by@, t@.names) == Some(v@),
            None => resolved_keys(order_by@, t@.names) is None,
        },
{
    let mut keys: Vec<(usize, bool)> = Vec::new();
    let mut k: usize = 0;
    while k < order_by.len()
        invariant
            k <= order_by@.len(),
            keys@.len() == k,
            forall|j: int| 0 <= j < k ==> (#[trigger] column_index(t@.names, order_by@[j].column@)) is Some,
            forall|j: int| 0 <= j < k ==> #[trigger] keys@[j] == (
                column_index(t@.names, order_by@[j].column@)->Some_0 as usize,
                order_by@[j].descending,
            ),
        decreases order_by@.len() - k,
    {
        match t.find_column(&order_by[k].column) {
            Some(c) => {
                keys.push((c, order_by[k].descending));
            },
            None => {
                return None;
            },
        }
        k = k + 1;
    }
    assert(keys@ =~= resolved_keys(order_by@, t@.names)->Some_0);
    Some(keys)
}

/// The selected columns as positions of `t`.
pub fn resolve_columns(sel: &Selection, t: &Table) -> (r: Option<Vec<usize>>)
    ensures
        match r {
            Some(v) => resolved_columns(*sel, t@.names) == Some(v@),
            None => resolved_columns(*sel, t@.names) is None,
        },
{
    match sel {
        Selection::All => Some(all_positions(t.names.len())),
        Selection::Columns(cs) => {
            let mut cols: Vec<usize> = Vec::new();
            let mut k: usize = 0;
            assert(resolved_columns(*sel, t@.names) == resolved_names(cs@, t@.names));
            while k < cs.len()
                invariant
                    resolved_columns(*sel, t@.names) == resolved_names(cs@, t@.names),
                    k <= cs@.len(),
                    cols@.len() == k,
                    forall|j: int| 0 <= j < k ==> (#[trigger] column_index(t@.names, cs@[j]@)) is Some,
                    forall|j: int| 0 <= j < k ==> #[trigger] cols@[j] == column_index(t@.names, cs@[j]@)->Some_0 as usize,
                decreases cs@.len() - k,
            {
                match t.find_column(&cs[k]) {
                    Some(c) => {
                        cols.push(c);
                    },
                    None => {
                        assert(column_index(t@.names, cs@[k as int]@) is None);
                        assert(resolved_names(cs@, t@.names) is None);
                        return None;
                    },
                }
                k = k + 1;
            }
            assert(cols@ =~= resolved_names(cs@, t@.names)->Some_0);
            Some(cols)
        },
    }
}

/// The part of `s` that `OFFSET` and `LIMIT` leave.
pub fn slice_rows(s: &Vec<usize>, offset: Option<usize>, limit: Option<usize>) -> (r: Vec<usize>)
    ensures
        r@ == sliced(s@, offset, limit),
{
    let len = s.len();
    let start: usize = match offset {
        Some(n) => if n < len {
            n
        } else {
            len
        },
        None => 0,
    };
    let end: usize = match limit {
        Some(m) => if m < len - start {
            start + m
        } else {
            len
        },
        None => len,
    };
    let mut r: Vec<usize> = Vec::new();
    let mut i: usize = start;
    while i < end
        invariant
            start <= i <= end <= len == s@.len(),
            r@ =~= s@.subrange(start as int, i as int),
        decreases end - i,
    {
        r.push(s[i]);
        i = i + 1;
        assert(r@ =~= s@.subrange(start as int, i as int));
    }
    r
}

/// Running a query: `Ok` exactly when the filter can be evaluated on every row
/// and every sort key and selected column exists; the result then holds the
/// selected columns of the filtered rows, stably sorted, then cut by `OFFSET`
/// and `LIMIT`.
pub open spec fn execute_spec(q: Query, m: TableModel, r: Result<Table, ExecError>) -> bool {
    match filtered(q.condition, m) {
        Err(x) => r is Err && r->Err_0 == x,
        Ok(f) => match resolved_keys(q.order_by@, m.names) {
            None => r is Err && r->Err_0 == ExecError::UnknownColumn,
            Some(keys) => match resolved_columns(q.selection, m.names) {
                None => r is Err && r->Err_0 == ExecError::UnknownColumn,
                Some(cols) => r is Ok && exists|s: Seq<usize>|
                    #[trigger] is_stable_order(keys, m.rows, f, s) && r->Ok_0@ == gathered(
                        m,
                        sliced(s, q.offset, q.limit),
                        cols,
                    ),
            },
        },
    }
}

proof fn lemma_keys_fit(order_by: Seq<SortKey>, m: TableModel)
    requires
        wf_model(m),
        resolved_keys(order_by, m.names) is Some,
    ensures
        keys_fit(resolved_keys(order_by, m.names)->Some_0, m),
{
    let keys = resolved_keys(order_by, m.names)->Some_0;
    assert forall|k: int| 0 <= k < keys.len() implies #[trigger] keys[k].0 < m.names.len() by {
        lemma_column_index(m.names, order_by[k].column@);
        assert(column_index(m.names, order_by[k].column@) is Some);
    };
}

proof fn lemma_columns_fit(sel: Selection, m: TableModel)
    requires
        resolved_columns(sel, m.names) is Some,
    ensures
        forall|i: int|
            0 <= i < resolved_columns(sel, m.names)->Some_0.len() ==> #[trigger] resolved_columns(
                sel,
                m.names,
            )->Some_0[i] < m.names.len(),
{
    let cols = resolved_columns(sel, m.names)->Some_0;
    if let Selection::Columns(cs) = sel {
        assert forall|i: int| 0 <= i < cols.len() implies #[trigger] cols[i] < m.names.len() by {
            lemma_column_index(m.names, cs@[i]@);
            assert(column_index(m.names, cs@[i]@) is Some);
        };
    }
}

proof fn lemma_sorted_rows(inp: Seq<usize>, out: Seq<usize>, n: int)
    requires
        is_row_subset(inp, n),
        out.to_multiset() == inp.to_multiset(),
    ensures
        forall|i: int| 0 <= i < out.len() ==> #[trigger] out[i] < n,
        out.len() == inp.len(),
{
    out.to_multiset_ensures();
    inp.to_multiset_ensures();
    assert forall|i: int| 0 <= i < out.len() implies #[trigger] out[i] < n by {
        assert(out.contains(out[i]));
        assert(out.to_multiset().count(out[i]) > 0);
        assert(inp.contains(out[i]));
        let j = choose|j: int| 0 <= j < inp.len() && inp[j] == out[i];
        assert(inp[j] < n);
    };
}

/// Runs a query against a loaded table.
pub fn execute(q: &Query, t: &Table) -> (r: Result<Table, ExecError>)
    requires
        t.wf(),
    ensures
        execute_spec(*q, t@, r),
{
    let f = match &q.condition {
        Some(e) => {
            if !check_columns(e, t) {
                return Err(ExecError::UnknownColumn);
            }
            match filter_rows(e, t) {
                Ok(f) => f,
                Err(x) => {
                    return Err(x);
                },
            }
        },
        None => all_positions(t.rows.len()),
    };
    let n = t.rows.len();
    proof {
        assert(n == t@.rows.len());
        if q.condition is Some {
            lemma_filter_prefix(q.condition->Some_0, t@, t@.rows.len() as int);
        }
    }
    assert(filtered(q.condition, t@) == Ok::<Seq<usize>, ExecError>(f@));
    let keys = match resolve_keys(&q.order_by, t) {
        Some(k) => k,
        None => {
            return Err(ExecError::UnknownColumn);
        },
    };
    proof {
        lemma_keys_fit(q.order_by@, t@);
    }
    let sorted = sort_rows(&keys, t, &f);
    let cols = match resolve_columns(&q.selection, t) {
        Some(c) => c,
        None => {
            return Err(ExecError::UnknownColumn);
        },
    };
    proof {
        lemma_columns_fit(q.selection, t@);
        lemma_sorted_rows(f@, sorted@, t@.rows.len() as int);
        assert(forall|i: int| 0 <= i < cols@.len() ==> cols@[i] == resolved_columns(q.selection, t@.names)->Some_0[i]);
    }
    let window = slice_rows(&sorted, q.offset, q.limit);
    let out = t.gather(&window, &cols);
    proof {
        let keys_m = resolved_keys(q.order_by@, t@.names)->Some_0;
        let f_m = filtered(q.condition, t@)->Ok_0;
        assert(keys_m == keys@ && f_m == f@);
        assert(is_stable_order(keys_m, t@.rows, f_m, sorted@));
    }
    Ok(out)
}

} // verus!
