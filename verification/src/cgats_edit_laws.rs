//! What editing a table changes and what it leaves alone: properties,
//! cells, column names and patch values.
use vstd::prelude::*;
use crate::cgats::{
    TableView, props_sorted, props_insert, props_get, seq_less, insert_pos, cell_at, table_set_cell,
    lemma_props_insert, table_set_format, table_set_data, find_column_from, find_patch_from,
    lemma_less_irreflexive, lemma_insert_pos, kw_sample_id,
};
use crate::cgats_laws::law_set_cell_then_get;

verus! {

/// The keys of a list of properties.
pub open spec fn prop_keys(p: Seq<(Seq<char>, Seq<char>)>) -> Set<Seq<char>> {
    Set::new(|key: Seq<char>| exists|j: int| 0 <= j < p.len() && p[j].0 == key)
}

proof fn lemma_props_get_at(p: Seq<(Seq<char>, Seq<char>)>, n: int)
    requires
        props_sorted(p),
        0 <= n < p.len(),
    ensures
        props_get(p, p[n].0) == Some(p[n].1),
{
    let k = p[n].0;
    assert(exists|i: int| 0 <= i < p.len() && p[i].0 == k) by {
        assert(0 <= n < p.len() && p[n].0 == k);
    }
    assert forall|j: int| 0 <= j < p.len() && p[j].0 == k implies j == n by {
        if j < n {
            assert(seq_less(p[j].0, p[n].0));
            lemma_less_irreflexive(k);
        } else if j > n {
            assert(seq_less(p[n].0, p[j].0));
            lemma_less_irreflexive(k);
        }
    }
}

/// Setting a property leaves every other key with the value it had, and the
/// keys become the old keys with the new one added, still in increasing
/// order without repeats.
pub proof fn law_set_property_keeps_others(
    p: Seq<(Seq<char>, Seq<char>)>,
    k: Seq<char>,
    v: Seq<char>,
    k2: Seq<char>,
)
    requires
        props_sorted(p),
        k2 != k,
    ensures
        props_get(props_insert(p, k, v), k2) == props_get(p, k2),
        prop_keys(props_insert(p, k, v)) == prop_keys(p).insert(k),
        props_sorted(props_insert(p, k, v)),
{
    lemma_props_insert(p, k, v);
    let q = props_insert(p, k, v);
    lemma_insert_pos(p, k, 0);
    let i = insert_pos(p, k, 0);
    if i < p.len() && p[i].0 == k {
        // The value of k is replaced in place.
        assert(q == p.update(i, (k, v)));
        if exists|j: int| 0 <= j < p.len() && p[j].0 == k2 {
            let j = choose|j: int| 0 <= j < p.len() && p[j].0 == k2;
            assert(q[j] == p[j]);
            lemma_props_get_at(p, j);
            lemma_props_get_at(q, j);
        } else {
            assert forall|j: int| 0 <= j < q.len() implies q[j].0 != k2 by {
                if j != i {
                    assert(q[j] == p[j]);
                }
            }
        }
        assert forall|key: Seq<char>| prop_keys(q).contains(key) <==> prop_keys(p).insert(k).contains(
            key,
        ) by {
            if prop_keys(q).contains(key) {
                let j = choose|j: int| 0 <= j < q.len() && q[j].0 == key;
                if j != i {
                    assert(q[j] == p[j]);
                }
            }
            if prop_keys(p).contains(key) {
                let j = choose|j: int| 0 <= j < p.len() && p[j].0 == key;
                if j != i {
                    assert(q[j] == p[j]);
                } else {
                    assert(q[i].0 == key);
                }
            }
            if key == k {
                assert(q[i].0 == k);
            }
        }
    } else {
        // The pair is inserted at i.
        assert(q == p.insert(i, (k, v)));
        if exists|j: int| 0 <= j < p.len() && p[j].0 == k2 {
            let j = choose|j: int| 0 <= j < p.len() && p[j].0 == k2;
            let jq = if j < i {
                j
            } else {
                j + 1
            };
            assert(q[jq] == p[j]);
            lemma_props_get_at(p, j);
            lemma_props_get_at(q, jq);
        } else {
            assert forall|j: int| 0 <= j < q.len() implies q[j].0 != k2 by {
                if j < i {
                    assert(q[j] == p[j]);
                } else if j > i {
                    assert(q[j] == p[j - 1]);
                }
            }
        }
        assert forall|key: Seq<char>| prop_keys(q).contains(key) <==> prop_keys(p).insert(k).contains(
            key,
        ) by {
            if prop_keys(q).contains(key) {
                let j = choose|j: int| 0 <= j < q.len() && q[j].0 == key;
                if j < i {
                    assert(q[j] == p[j]);
                } else if j > i {
                    assert(q[j] == p[j - 1]);
                }
            }
            if prop_keys(p).contains(key) {
                let j = choose|j: int| 0 <= j < p.len() && p[j].0 == key;
                if j < i {
                    assert(q[j] == p[j]);
                } else {
                    assert(q[j + 1] == p[j]);
                }
            }
            if key == k {
                assert(q[i].0 == k);
            }
        }
    }
    assert(prop_keys(q) =~= prop_keys(p).insert(k));
}

/// Writing a cell leaves the sheet type, properties, format and patch-name
/// column as they were; the row count grows to cover the row written; every
/// other cell of a column keeps its value, and a cell that only now comes to
/// be stored is empty.
pub proof fn law_set_cell_keeps_others(
    t: TableView,
    row: int,
    col: int,
    v: Seq<char>,
    r2: int,
    c2: int,
)
    requires
        0 <= row,
        0 <= col < t.data_format.len(),
        0 <= r2,
        0 <= c2 < t.data_format.len(),
        r2 != row || c2 != col,
    ensures
        ({
            let t2 = table_set_cell(t, row, col, v);
            &&& t2.sheet_type == t.sheet_type
            &&& t2.properties == t.properties
            &&& t2.data_format == t.data_format
            &&& t2.sample_id_col == t.sample_id_col
            &&& t2.n_rows == (if row >= t.n_rows {
                row + 1
            } else {
                t.n_rows as int
            })
            &&& cell_at(t2, r2, c2) == (if cell_at(t, r2, c2) is Some {
                cell_at(t, r2, c2)
            } else if r2 < t2.n_rows {
                Some(Seq::<char>::empty())
            } else {
                None
            })
        }),
{
    let n = t.data_format.len() as int;
    let t2 = table_set_cell(t, row, col, v);
    let n_rows: int = if row >= t.n_rows {
        row + 1
    } else {
        t.n_rows as int
    };
    assert(row * n + col != r2 * n + c2) by (nonlinear_arith)
        requires
            0 <= col < n,
            0 <= c2 < n,
            r2 != row || c2 != col,
    {
        if r2 != row {
            if r2 < row {
                assert(r2 * n + c2 < (r2 + 1) * n);
                assert((r2 + 1) * n <= row * n);
            } else {
                assert(row * n + col < (row + 1) * n);
                assert((row + 1) * n <= r2 * n);
            }
        }
    }
    assert(0 <= r2 * n + c2) by (nonlinear_arith)
        requires
            0 <= r2,
            0 <= c2,
            0 <= n,
    ;
    assert(r2 < n_rows <==> r2 * n + c2 < n_rows * n) by (nonlinear_arith)
        requires
            0 <= c2 < n,
            0 <= r2,
    {
        if r2 < n_rows {
            assert(r2 * n + c2 < (r2 + 1) * n);
            assert((r2 + 1) * n <= n_rows * n);
        } else {
            assert(n_rows * n <= r2 * n);
        }
    }
    assert(0 <= row * n + col < n_rows * n) by (nonlinear_arith)
        requires
            0 <= col < n,
            0 <= row < n_rows,
    {
        assert(row * n + col < (row + 1) * n);
        assert((row + 1) * n <= n_rows * n);
    }
}

/// Naming a column grows the format with empty names up to it, gives the
/// column its name and leaves the other names, the rows, the cells, the
/// properties and the sheet type as they were; a column named "SAMPLE_ID"
/// becomes the patch-name column.
pub proof fn law_set_format_keeps_others(t: TableView, col: int, name: Seq<char>, i: int)
    requires
        0 <= col,
        0 <= i,
    ensures
        ({
            let t2 = table_set_format(t, col, name);
            &&& t2.data_format.len() == (if col >= t.data_format.len() {
                col + 1
            } else {
                t.data_format.len() as int
            })
            &&& t2.data_format[col] == name
            &&& (i < t.data_format.len() && i != col ==> t2.data_format[i] == t.data_format[i])
            &&& (t.data_format.len() <= i < col ==> t2.data_format[i] == Seq::<char>::empty())
            &&& t2.n_rows == t.n_rows
            &&& t2.data == t.data
            &&& t2.properties == t.properties
            &&& t2.sheet_type == t.sheet_type
            &&& t2.sample_id_col == (if name == kw_sample_id() {
                col as nat
            } else {
                t.sample_id_col
            })
        }),
{
}

/// Setting a patch's value in a column: with no such column nothing changes;
/// a patch already present gets the value in its row; otherwise a new row is
/// added that holds the patch name in the patch-name column and the value in
/// the column (the value wins where the two columns are one).
pub proof fn law_set_data_places_value(t: TableView, patch: Seq<char>, sample: Seq<char>, v: Seq<char>)
    ensures
        ({
            let t2 = table_set_data(t, patch, sample, v);
            match find_column_from(t, sample, 0) {
                None => t2 == t,
                Some(k) => match find_patch_from(t, patch, 0) {
                    Some(r) => cell_at(t2, r, k) == Some(v) && t2.n_rows == t.n_rows,
                    None => {
                        &&& t2.n_rows == t.n_rows + 1
                        &&& cell_at(t2, t.n_rows as int, k) == Some(v)
                        &&& (t.sample_id_col < t.data_format.len() && k != t.sample_id_col
                            ==> cell_at(t2, t.n_rows as int, t.sample_id_col as int) == Some(patch))
                    },
                },
            }
        }),
{
    lemma_find_column(t, sample, 0);
    lemma_find_patch(t, patch, 0);
    match find_column_from(t, sample, 0) {
        None => {},
        Some(k) => match find_patch_from(t, patch, 0) {
            Some(r) => {
                law_set_cell_then_get(t, r, k, v);
            },
            None => {
                let r = t.n_rows as int;
                let sid = t.sample_id_col as int;
                let t1 = table_set_cell(t, r, sid, patch);
                if sid < t.data_format.len() {
                    law_set_cell_then_get(t, r, sid, patch);
                    assert(t1.data_format == t.data_format);
                    assert(t1.n_rows == r + 1);
                    law_set_cell_then_get(t1, r, k, v);
                    if k != sid {
                        law_set_cell_keeps_others(t1, r, k, v, r, sid);
                    }
                } else {
                    assert(t1 == t);
                    law_set_cell_then_get(t, r, k, v);
                }
            },
        },
    }
}

proof fn lemma_find_column(t: TableView, name: Seq<char>, c: int)
    requires
        0 <= c,
    ensures
        find_column_from(t, name, c) matches Some(k) ==> c <= k < t.data_format.len(),
    decreases t.data_format.len() - c,
{
    if c < t.data_format.len() && t.data_format[c] != name {
        lemma_find_column(t, name, c + 1);
    }
}

proof fn lemma_find_patch(t: TableView, patch: Seq<char>, r: int)
    requires
        0 <= r,
    ensures
        find_patch_from(t, patch, r) matches Some(k) ==> r <= k < t.n_rows,
    decreases t.n_rows - r,
{
    if r < t.n_rows && cell_at(t, r, t.sample_id_col as int) != Some(patch) {
        lemma_find_patch(t, patch, r + 1);
    }
}

} // verus!
