use vstd::prelude::*;
use crate::text::{copy_text, text_eq};
use crate::value::{cell_rank, copy_value, Cell, Value};

verus! {

/// The mathematical content of a table: column names, and rows of cells.
pub struct TableModel {
    pub names: Seq<Seq<char>>,
    pub rows: Seq<Seq<Cell>>,
}

/// An in-memory table: named columns, and rows that hold one value per column.
#[derive(Debug, PartialEq, Eq)]
pub struct Table {
    pub names: Vec<Vec<char>>,
    pub rows: Vec<Vec<Value>>,
}

pub open spec fn names_view(names: Seq<Vec<char>>) -> Seq<Seq<char>> {
    names.map_values(|n: Vec<char>| n@)
}

pub open spec fn row_view(row: Seq<Value>) -> Seq<Cell> {
    row.map_values(|v: Value| v@)
}

impl View for Table {
    type V = TableModel;

    open spec fn view(&self) -> TableModel {
        TableModel {
            names: names_view(self.names@),
            rows: self.rows@.map_values(|r: Vec<Value>| row_view(r@)),
        }
    }
}

/// Every row has one cell per column, and no two columns share a name.
pub open spec fn wf_model(m: TableModel) -> bool {
    &&& forall|i: int| 0 <= i < m.rows.len() ==> #[trigger] m.rows[i].len() == m.names.len()
    &&& forall|i: int, j: int|
        0 <= i < j < m.names.len() ==> #[trigger] m.names[i] != #[trigger] m.names[j]
}

/// The non-null cells of each column are all of one kind.
pub open spec fn columns_typed(m: TableModel) -> bool {
    forall|c: int, i: int, j: int|
        0 <= c < m.names.len() && 0 <= i < m.rows.len() && 0 <= j < m.rows.len() && !(
        #[trigger] m.rows[i][c] is Null) && !(#[trigger] m.rows[j][c] is Null) ==> cell_rank(
            m.rows[i][c],
        ) == cell_rank(m.rows[j][c])
}

/// The position of the first column called `n`, if any.
pub open spec fn column_index(names: Seq<Seq<char>>, n: Seq<char>) -> Option<int>
    decreases names.len(),
{
    if names.len() == 0 {
        None
    } else if names[0] == n {
        Some(0)
    } else {
        match column_index(names.drop_first(), n) {
            Some(i) => Some(i + 1),
            None => None,
        }
    }
}

pub proof fn lemma_column_index(names: Seq<Seq<char>>, n: Seq<char>)
    ensures
        match column_index(names, n) {
            Some(i) => 0 <= i < names.len() && names[i] == n && forall|j: int|
                0 <= j < i ==> names[j] != n,
            None => forall|j: int| 0 <= j < names.len() ==> names[j] != n,
        },
    decreases names.len(),
{
    if names.len() > 0 && names[0] != n {
        lemma_column_index(names.drop_first(), n);
        match column_index(names.drop_first(), n) {
            Some(i) => {
                assert forall|j: int| 0 <= j < i + 1 implies names[j] != n by {
                    if j > 0 {
                        assert(names[j] == names.drop_first()[j - 1]);
                    }
                };
            },
            None => {
                assert forall|j: int| 0 <= j < names.len() implies names[j] != n by {
                    if j > 0 {
                        assert(names[j] == names.drop_first()[j - 1]);
                    }
                };
            },
        }
    }
}

/// The table whose columns are `cols` and whose rows are the rows at `order`.
pub open spec fn gathered(m: TableModel, order: Seq<usize>, cols: Seq<usize>) -> TableModel {
    TableModel {
        names: cols.map_values(|c: usize| m.names[c as int]),
        rows: order.map_values(
            |o: usize| cols.map_values(|c: usize| m.rows[o as int][c as int]),
        ),
    }
}

impl Table {
    pub open spec fn wf(&self) -> bool {
        wf_model(self@)
    }

    /// The number of rows.
    pub fn row_count(&self) -> (r: usize)
        ensures
            r == self@.rows.len(),
    {
        self.rows.len()
    }

    /// The position of the column called `name`.
    pub fn find_column(&self, name: &Vec<char>) -> (r: Option<usize>)
        ensures
            r matches Some(i) ==> column_index(self@.names, name@) == Some(i as int),
            r is None ==> column_index(self@.names, name@) is None,
    {
        proof {
            lemma_column_index(self@.names, name@);
        }
        let mut i: usize = 0;
        while i < self.names.len()
            invariant
                i <= self.names@.len(),
                forall|j: int| 0 <= j < i ==> self@.names[j] != name@,
            decreases self.names@.len() - i,
        {
            if text_eq(&self.names[i], name) {
                assert(self@.names[i as int] == name@);
                proof {
                    lemma_column_index(self@.names, name@);
                    match column_index(self@.names, name@) {
                        Some(c) => {
                            if c < i {
                                assert(self@.names[c] != name@);
                            }
                        },
                        None => {},
                    }
                }
                return Some(i);
            }
            assert(self@.names[i as int] == self.names@[i as int]@);
            i = i + 1;
        }
        None
    }

    /// The table made of the columns `cols` of the rows at `order`, in those orders.
    pub fn gather(&self, order: &Vec<usize>, cols: &Vec<usize>) -> (r: Table)
        requires
            self.wf(),
            forall|i: int| 0 <= i < order@.len() ==> #[trigger] order@[i] < self@.rows.len(),
            forall|i: int| 0 <= i < cols@.len() ==> #[trigger] cols@[i] < self@.names.len(),
        ensures
            r@ == gathered(self@, order@, cols@),
    {
        let ghost g = gathered(self@, order@, cols@);
        let mut names: Vec<Vec<char>> = Vec::new();
        let mut k: usize = 0;
        while k < cols.len()
            invariant
                k <= cols@.len(),
                g == gathered(self@, order@, cols@),
                forall|i: int| 0 <= i < cols@.len() ==> #[trigger] cols@[i] < self@.names.len(),
                names@.len() == k,
                forall|j: int| 0 <= j < k ==> #[trigger] names@[j]@ == g.names[j],
            decreases cols@.len() - k,
        {
            names.push(copy_text(&self.names[cols[k]]));
            k = k + 1;
        }
        assert(names_view(names@) =~= g.names);
        let mut rows: Vec<Vec<Value>> = Vec::new();
        let mut i: usize = 0;
        while i < order.len()
            invariant
                self.wf(),
                i <= order@.len(),
                g == gathered(self@, order@, cols@),
                forall|i: int| 0 <= i < order@.len() ==> #[trigger] order@[i] < self@.rows.len(),
                forall|i: int| 0 <= i < cols@.len() ==> #[trigger] cols@[i] < self@.names.len(),
                rows@.len() == i,
                forall|j: int| 0 <= j < i ==> row_view(#[trigger] rows@[j]@) == g.rows[j],
            decreases order@.len() - i,
        {
            let src = &self.rows[order[i]];
            assert(self@.rows[order@[i as int] as int] == row_view(src@));
            assert(src@.len() == self@.names.len());
            let mut row: Vec<Value> = Vec::new();
            let mut k: usize = 0;
            while k < cols.len()
                invariant
                    k <= cols@.len(),
                    src@.len() == self@.names.len(),
                    forall|i: int| 0 <= i < cols@.len() ==> #[trigger] cols@[i] < self@.names.len(),
                    row@.len() == k,
                    forall|j: int| 0 <= j < k ==> #[trigger] row@[j]@ == src@[cols@[j] as int]@,
                decreases cols@.len() - k,
            {
                row.push(copy_value(&src[cols[k]]));
                k = k + 1;
            }
            assert(row_view(row@) =~= g.rows[i as int]);
            rows.push(row);
            i = i + 1;
        }
        assert(rows@.map_values(|r: Vec<Value>| row_view(r@)) =~= g.rows);
        Table { names, rows }
    }
}

} // verus!
