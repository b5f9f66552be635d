use vstd::prelude::*;
use crate::expr::{eval, CmpOp, ExecError, Expr, Operand};
use crate::order::is_stable_order;
use crate::query::{
    all_rows, execute_spec, filter_prefix, filtered, resolved_columns, resolved_keys, resolved_names,
    sliced, Query, Selection,
};
use crate::table::{column_index, gathered, wf_model, Table, TableModel};
use crate::value::{cell_rank, lemma_cell_cmp_props, Value};

verus! {

/// The filter `c = v`.
pub open spec fn equals(c: Vec<char>, v: Value) -> Expr {
    Expr::Compare(CmpOp::Eq, Operand::Column(c), Operand::Literal(v))
}

/// `SELECT *` keeps every column of the table, in table order.
pub proof fn lemma_select_all_keeps_columns(q: Query, m: TableModel, r: Result<Table, ExecError>)
    requires
        q.selection is All,
        m.names.len() <= usize::MAX,
        execute_spec(q, m, r),
        r is Ok,
    ensures
        r->Ok_0@.names == m.names,
{
    let f = filtered(q.condition, m)->Ok_0;
    let keys = resolved_keys(q.order_by@, m.names)->Some_0;
    let cols = resolved_columns(q.selection, m.names)->Some_0;
    let s = choose|s: Seq<usize>|
        #[trigger] is_stable_order(keys, m.rows, f, s) && r->Ok_0@ == gathered(
            m,
            sliced(s, q.offset, q.limit),
            cols,
        );
    assert(cols == all_rows(m.names.len()));
    assert(r->Ok_0@.names =~= m.names);
}

/// `OFFSET n LIMIT k` on a table of `R` rows with no filter returns
/// `max(0, min(k, R - n))` rows; so an offset of `R` or more returns none.
pub proof fn lemma_offset_limit_count(
    q: Query,
    m: TableModel,
    r: Result<Table, ExecError>,
    n: usize,
    k: usize,
)
    requires
        q.condition is None,
        q.offset == Some(n),
        q.limit == Some(k),
        execute_spec(q, m, r),
        r is Ok,
    ensures
        r->Ok_0@.rows.len() == if n >= m.rows.len() {
            0
        } else if k < m.rows.len() - n {
            k as int
        } else {
            m.rows.len() - n
        },
{
    let f = filtered(q.condition, m)->Ok_0;
    let keys = resolved_keys(q.order_by@, m.names)->Some_0;
    let cols = resolved_columns(q.selection, m.names)->Some_0;
    let s = choose|s: Seq<usize>|
        #[trigger] is_stable_order(keys, m.rows, f, s) && r->Ok_0@ == gathered(
            m,
            sliced(s, q.offset, q.limit),
            cols,
        );
    s.to_multiset_ensures();
    f.to_multiset_ensures();
    assert(f.len() == m.rows.len());
    assert(s.len() == m.rows.len());
}

/// Selecting a column that the table lacks fails with `UnknownColumn`, whatever
/// the filter and the sort keys name, unless the filter fails on a type mismatch first.
pub proof fn lemma_unknown_projection(
    q: Query,
    m: TableModel,
    r: Result<Table, ExecError>,
    j: int,
)
    requires
        q.selection matches Selection::Columns(cs) && 0 <= j < cs@.len() && column_index(
            m.names,
            cs@[j]@,
        ) is None,
        filtered(q.condition, m) != Err::<Seq<usize>, ExecError>(ExecError::TypeMismatch),
        execute_spec(q, m, r),
    ensures
        r is Err && r->Err_0 == ExecError::UnknownColumn,
{
    if let Selection::Columns(cs) = q.selection {
        assert(resolved_names(cs@, m.names) is None);
    }
    if let Err(x) = filtered(q.condition, m) {
        assert(x != ExecError::TypeMismatch);
    }
}

/// Under `c = v`, a row whose cell in `c` is null or differs from `v` (and is of
/// the same kind) is left out, and a row whose cell is `v` is kept.
proof fn lemma_equals_row(c: Vec<char>, v: Value, m: TableModel, ci: int, i: int)
    requires
        wf_model(m),
        column_index(m.names, c@) == Some(ci),
        !(v@ is Null),
        0 <= i < m.rows.len(),
        m.rows[i][ci] is Null || cell_rank(m.rows[i][ci]) == cell_rank(v@),
    ensures
        eval(equals(c, v), m.names, m.rows[i]) == Ok::<Option<bool>, ExecError>(
            if m.rows[i][ci] is Null {
                None
            } else {
                Some(m.rows[i][ci] == v@)
            },
        ),
{
    lemma_cell_cmp_props(m.rows[i][ci], v@);
}

proof fn lemma_filter_absent(c: Vec<char>, v: Value, m: TableModel, ci: int, n: int)
    requires
        wf_model(m),
        column_index(m.names, c@) == Some(ci),
        !(v@ is Null),
        0 <= n <= m.rows.len(),
        forall|i: int|
            0 <= i < m.rows.len() ==> (#[trigger] m.rows[i][ci] is Null || cell_rank(m.rows[i][ci])
                == cell_rank(v@)) && m.rows[i][ci] != v@,
    ensures
        filter_prefix(equals(c, v), m, n) == Ok::<Seq<usize>, ExecError>(Seq::empty()),
    decreases n,
{
    if n > 0 {
        lemma_filter_absent(c, v, m, ci, n - 1);
        lemma_equals_row(c, v, m, ci, n - 1);
    }
}

proof fn lemma_filter_present(c: Vec<char>, v: Value, m: TableModel, ci: int, n: int, i0: int)
    requires
        wf_model(m),
        column_index(m.names, c@) == Some(ci),
        !(v@ is Null),
        0 <= n <= m.rows.len(),
        forall|i: int|
            0 <= i < m.rows.len() ==> (#[trigger] m.rows[i][ci] is Null || cell_rank(m.rows[i][ci])
                == cell_rank(v@)),
    ensures
        filter_prefix(equals(c, v), m, n) is Ok,
        0 <= i0 < n && m.rows[i0][ci] == v@ ==> filter_prefix(equals(c, v), m, n)->Ok_0.contains(
            i0 as usize,
        ),
    decreases n,
{
    if n > 0 {
        lemma_filter_present(c, v, m, ci, n - 1, i0);
        lemma_equals_row(c, v, m, ci, n - 1);
        let s = filter_prefix(equals(c, v), m, n - 1)->Ok_0;
        if 0 <= i0 < n - 1 && m.rows[i0][ci] == v@ {
            let w = choose|w: int| 0 <= w < s.len() && s[w] == i0 as usize;
            if m.rows[n - 1][ci] == v@ {
                assert(s.push((n - 1) as usize)[w] == i0 as usize);
            }
        }
        if i0 == n - 1 && m.rows[i0][ci] == v@ {
            assert(s.push((n - 1) as usize)[s.len() as int] == i0 as usize);
        }
    }
}

/// `WHERE c = v` keeps no row when `v` is in no cell of `c` (the column's other
/// cells being null or of the kind of `v`): the query returns no row.
pub proof fn lemma_filter_absent_value(
    q: Query,
    m: TableModel,
    r: Result<Table, ExecError>,
    c: Vec<char>,
    v: Value,
)
    requires
        wf_model(m),
        q.condition == Some(equals(c, v)),
        column_index(m.names, c@) is Some,
        !(v@ is Null),
        forall|i: int|
            0 <= i < m.rows.len() ==> (#[trigger] m.rows[i][column_index(m.names, c@)->Some_0] is Null
                || cell_rank(m.rows[i][column_index(m.names, c@)->Some_0]) == cell_rank(v@))
                && m.rows[i][column_index(m.names, c@)->Some_0] != v@,
        execute_spec(q, m, r),
    ensures
        filtered(q.condition, m) == Ok::<Seq<usize>, ExecError>(Seq::empty()),
        r is Ok ==> r->Ok_0@.rows.len() == 0,
{
    let ci = column_index(m.names, c@)->Some_0;
    lemma_filter_absent(c, v, m, ci, m.rows.len() as int);
    if r is Ok {
        let keys = resolved_keys(q.order_by@, m.names)->Some_0;
        let cols = resolved_columns(q.selection, m.names)->Some_0;
        let f = Seq::<usize>::empty();
        let s = choose|s: Seq<usize>|
            #[trigger] is_stable_order(keys, m.rows, f, s) && r->Ok_0@ == gathered(
                m,
                sliced(s, q.offset, q.limit),
                cols,
            );
        s.to_multiset_ensures();
        f.to_multiset_ensures();
    }
}

/// `WHERE c = v` keeps every row whose cell in `c` is `v` (the column's cells
/// being null or of the kind of `v`): with no `OFFSET` or `LIMIT`, the query
/// returns at least one row.
pub proof fn lemma_filter_present_value(
    q: Query,
    m: TableModel,
    r: Result<Table, ExecError>,
    c: Vec<char>,
    v: Value,
    i0: int,
)
    requires
        wf_model(m),
        q.condition == Some(equals(c, v)),
        column_index(m.names, c@) is Some,
        !(v@ is Null),
        forall|i: int|
            0 <= i < m.rows.len() ==> (#[trigger] m.rows[i][column_index(m.names, c@)->Some_0] is Null
                || cell_rank(m.rows[i][column_index(m.names, c@)->Some_0]) == cell_rank(v@)),
        0 <= i0 < m.rows.len(),
        m.rows[i0][column_index(m.names, c@)->Some_0] == v@,
        q.offset is None,
        q.limit is None,
        execute_spec(q, m, r),
    ensures
        filtered(q.condition, m) is Ok,
        filtered(q.condition, m)->Ok_0.contains(i0 as usize),
        r is Ok ==> r->Ok_0@.rows.len() >= 1,
{
    let ci = column_index(m.names, c@)->Some_0;
    lemma_filter_present(c, v, m, ci, m.rows.len() as int, i0);
    if r is Ok {
        let keys = resolved_keys(q.order_by@, m.names)->Some_0;
        let cols = resolved_columns(q.selection, m.names)->Some_0;
        let f = filtered(q.condition, m)->Ok_0;
        let s = choose|s: Seq<usize>|
            #[trigger] is_stable_order(keys, m.rows, f, s) && r->Ok_0@ == gathered(
                m,
                sliced(s, q.offset, q.limit),
                cols,
            );
        s.to_multiset_ensures();
        f.to_multiset_ensures();
        assert(s.subrange(0, s.len() as int) =~= s);
    }
}

} // verus!
