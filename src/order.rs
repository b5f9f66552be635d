use vstd::prelude::*;
use crate::table::{Table, TableModel, wf_model, row_view};
use crate::value::{cell_cmp, compare_values, lemma_cell_cmp_props, lemma_cell_cmp_trans, Cell};

verus! {

/// Compares two rows by a list of sort keys (column position, descending):
/// the first key that tells them apart decides.
pub open spec fn key_cmp(keys: Seq<(usize, bool)>, a: Seq<Cell>, b: Seq<Cell>) -> int
    decreases keys.len(),
{
    if keys.len() == 0 {
        0
    } else {
        let c0 = cell_cmp(a[keys[0].0 as int], b[keys[0].0 as int]);
        let c = if keys[0].1 {
            -c0
        } else {
            c0
        };
        if c != 0 {
            c
        } else {
            key_cmp(keys.drop_first(), a, b)
        }
    }
}

pub proof fn lemma_key_cmp_props(keys: Seq<(usize, bool)>, a: Seq<Cell>, b: Seq<Cell>)
    ensures
        -1 <= key_cmp(keys, a, b) <= 1,
        key_cmp(keys, a, b) == -key_cmp(keys, b, a),
    decreases keys.len(),
{
    if keys.len() > 0 {
        lemma_cell_cmp_props(a[keys[0].0 as int], b[keys[0].0 as int]);
        lemma_key_cmp_props(keys.drop_first(), a, b);
    }
}

pub proof fn lemma_key_cmp_trans(keys: Seq<(usize, bool)>, a: Seq<Cell>, b: Seq<Cell>, c: Seq<Cell>)
    requires
        key_cmp(keys, a, b) <= 0,
        key_cmp(keys, b, c) <= 0,
    ensures
        key_cmp(keys, a, c) <= 0,
    decreases keys.len(),
{
    if keys.len() > 0 {
        let k = keys[0].0 as int;
        lemma_cell_cmp_props(a[k], b[k]);
        lemma_cell_cmp_props(b[k], c[k]);
        lemma_cell_cmp_props(a[k], c[k]);
        lemma_cell_cmp_props(c[k], b[k]);
        if keys[0].1 {
            lemma_cell_cmp_trans(c[k], b[k], a[k]);
        } else {
            lemma_cell_cmp_trans(a[k], b[k], c[k]);
        }
        if cell_cmp(a[k], c[k]) == 0 && cell_cmp(a[k], b[k]) == 0 && cell_cmp(b[k], c[k]) == 0 {
            lemma_key_cmp_trans(keys.drop_first(), a, b, c);
        }
    }
}

/// Row `a` comes before row `b`: by the keys, and by position where the keys tie.
pub open spec fn before(keys: Seq<(usize, bool)>, rows: Seq<Seq<Cell>>, a: usize, b: usize) -> bool {
    let c = key_cmp(keys, rows[a as int], rows[b as int]);
    c < 0 || (c == 0 && a < b)
}

/// `out` holds the rows of `inp`, sorted by the keys; rows on which the keys tie
/// keep the order they had in the table.
pub open spec fn is_stable_order(
    keys: Seq<(usize, bool)>,
    rows: Seq<Seq<Cell>>,
    inp: Seq<usize>,
    out: Seq<usize>,
) -> bool {
    &&& out.to_multiset() == inp.to_multiset()
    &&& forall|p: int, q: int|
        0 <= p < q < out.len() ==> #[trigger] before(keys, rows, out[p], out[q])
}

/// The keys name existing columns of a well-formed table.
pub open spec fn keys_fit(keys: Seq<(usize, bool)>, m: TableModel) -> bool {
    &&& wf_model(m)
    &&& forall|k: int| 0 <= k < keys.len() ==> #[trigger] keys[k].0 < m.names.len()
}

/// Strictly increasing row positions of a table.
pub open spec fn is_row_subset(s: Seq<usize>, n: int) -> bool {
    &&& forall|i: int| 0 <= i < s.len() ==> #[trigger] s[i] < n
    &&& forall|i: int, j: int| 0 <= i < j < s.len() ==> #[trigger] s[i] < #[trigger] s[j]
}

/// Compares two rows of a table by the sort keys.
pub fn compare_rows(keys: &Vec<(usize, bool)>, t: &Table, a: usize, b: usize) -> (r: i8)
    requires
        keys_fit(keys@, t@),
        a < t@.rows.len(),
        b < t@.rows.len(),
    ensures
        r as int == key_cmp(keys@, t@.rows[a as int], t@.rows[b as int]),
{
    let ra = &t.rows[a];
    let rb = &t.rows[b];
    let ghost ma = t@.rows[a as int];
    let ghost mb = t@.rows[b as int];
    assert(ma == row_view(ra@));
    assert(mb == row_view(rb@));
    let mut i: usize = 0;
    assert(keys@.skip(0) =~= keys@);
    while i < keys.len()
        invariant
            keys_fit(keys@, t@),
            ma == row_view(ra@),
            mb == row_view(rb@),
            ma == t@.rows[a as int],
            mb == t@.rows[b as int],
            ma.len() == t@.names.len(),
            mb.len() == t@.names.len(),
            i <= keys@.len(),
            key_cmp(keys@, ma, mb) == key_cmp(keys@.skip(i as int), ma, mb),
        decreases keys@.len() - i,
    {
        let (col, desc) = keys[i];
        assert(keys@[i as int].0 < t@.names.len());
        let c0 = compare_values(&ra[col], &rb[col]);
        proof {
            assert(ra@[col as int]@ == ma[col as int]);
            assert(rb@[col as int]@ == mb[col as int]);
            lemma_cell_cmp_props(ma[col as int], mb[col as int]);
        }
        let c = if desc {
            -c0
        } else {
            c0
        };
        assert(keys@.skip(i as int).drop_first() =~= keys@.skip(i + 1));
        assert(keys@.skip(i as int)[0] == keys@[i as int]);
        assert(c != 0 ==> key_cmp(keys@.skip(i as int), ma, mb) == c as int);
        if c != 0 {
            return c;
        }
        i = i + 1;
    }
    0
}

/// Where the row `x` goes in `out` so that it follows every row it does not precede.
fn insertion_point(keys: &Vec<(usize, bool)>, t: &Table, out: &Vec<usize>, x: usize) -> (j: usize)
    requires
        keys_fit(keys@, t@),
        x < t@.rows.len(),
        forall|i: int| 0 <= i < out@.len() ==> #[trigger] out@[i] < t@.rows.len(),
    ensures
        j <= out@.len(),
        forall|k: int|
            j <= k < out@.len() ==> key_cmp(keys@, t@.rows[#[trigger] out@[k] as int], t@.rows[x as int]) > 0,
        j > 0 ==> key_cmp(keys@, t@.rows[out@[j - 1] as int], t@.rows[x as int]) <= 0,
{
    let mut j: usize = out.len();
    while j > 0 && compare_rows(keys, t, out[j - 1], x) > 0
        invariant
            keys_fit(keys@, t@),
            x < t@.rows.len(),
            forall|i: int| 0 <= i < out@.len() ==> #[trigger] out@[i] < t@.rows.len(),
            j <= out@.len(),
            forall|k: int|
                j <= k < out@.len() ==> key_cmp(keys@, t@.rows[#[trigger] out@[k] as int], t@.rows[x as int]) > 0,
        decreases j,
    {
        j = j - 1;
    }
    j
}

/// The positions `inp` of rows of `t`, sorted stably by the keys.
pub fn sort_rows(keys: &Vec<(usize, bool)>, t: &Table, inp: &Vec<usize>) -> (out: Vec<usize>)
    requires
        keys_fit(keys@, t@),
        is_row_subset(inp@, t@.rows.len() as int),
    ensures
        is_stable_order(keys@, t@.rows, inp@, out@),
{
    let ghost rows = t@.rows;
    let mut out: Vec<usize> = Vec::new();
    let mut i: usize = 0;
    assert(out@ =~= inp@.subrange(0, 0));
    while i < inp.len()
        invariant
            keys_fit(keys@, t@),
            rows == t@.rows,
            is_row_subset(inp@, t@.rows.len() as int),
            i <= inp@.len(),
            out@.to_multiset() == inp@.subrange(0, i as int).to_multiset(),
            out@.len() == i,
            forall|k: int| 0 <= k < out@.len() ==> #[trigger] out@[k] < t@.rows.len(),
            forall|k: int, m: int|
                0 <= k < out@.len() && i <= m < inp@.len() ==> #[trigger] out@[k] < #[trigger] inp@[m],
            forall|p: int, q: int|
                0 <= p < q < out@.len() ==> #[trigger] before(keys@, rows, out@[p], out@[q]),
        decreases inp@.len() - i,
    {
        let x = inp[i];
        let j = insertion_point(keys, t, &out, x);
        let ghost old_out = out@;
        out.insert(j, x);
        proof {
            old_out.insert_ensures(j as int, x);
            let new_out = out@;
            assert(new_out.remove(j as int) =~= old_out);
            new_out.to_multiset_ensures();
            assert(new_out.to_multiset().count(x) > 0) by {
                assert(new_out.contains(x)) by {
                    assert(new_out[j as int] == x);
                };
            };
            assert(new_out.to_multiset() =~= old_out.to_multiset().insert(x));
            assert(inp@.subrange(0, i + 1) =~= inp@.subrange(0, i as int).push(x));
            inp@.subrange(0, i as int).to_multiset_ensures();
            assert forall|k: int| 0 <= k < new_out.len() implies #[trigger] new_out[k]
                < t@.rows.len() by {
                if k < j {
                    assert(new_out[k] == old_out[k]);
                } else if k > j {
                    assert(new_out[k] == old_out[k - 1]);
                }
            };
            assert forall|k: int, m: int|
                0 <= k < new_out.len() && i + 1 <= m < inp@.len() implies #[trigger] new_out[k]
                < #[trigger] inp@[m] by {
                if k < j {
                    assert(new_out[k] == old_out[k]);
                } else if k > j {
                    assert(new_out[k] == old_out[k - 1]);
                } else {
                    assert(inp@[i as int] < inp@[m]);
                }
            };
            assert forall|k: int| 0 <= k < j implies before(keys@, rows, old_out[k], x) by {
                let r = rows[old_out[k] as int];
                let rx = rows[x as int];
                let rj = rows[old_out[j - 1] as int];
                if k < j - 1 {
                    assert(before(keys@, rows, old_out[k], old_out[j - 1]));
                    lemma_key_cmp_props(keys@, r, rj);
                    lemma_key_cmp_trans(keys@, r, rj, rx);
                }
                assert(old_out[k] < inp@[i as int]);
            };
            assert forall|k: int| j <= k < old_out.len() implies before(keys@, rows, x, old_out[k]) by {
                lemma_key_cmp_props(keys@, rows[old_out[k] as int], rows[x as int]);
            };
            assert forall|p: int, q: int|
                0 <= p < q < new_out.len() implies #[trigger] before(keys@, rows, new_out[p], new_out[q]) by {
                if p < j && q < j {
                    assert(new_out[p] == old_out[p] && new_out[q] == old_out[q]);
                } else if p < j && q == j {
                    assert(new_out[p] == old_out[p]);
                } else if p < j {
                    assert(new_out[p] == old_out[p] && new_out[q] == old_out[q - 1]);
                } else if p == j {
                    assert(new_out[q] == old_out[q - 1]);
                } else {
                    assert(new_out[p] == old_out[p - 1] && new_out[q] == old_out[q - 1]);
                }
            };
        }
        i = i + 1;
    }
    assert(inp@.subrange(0, i as int) =~= inp@);
    out
}

} // verus!
