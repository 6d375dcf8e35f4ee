//! CGATS.17 / IT8.7 color measurement data: tables of properties and
//! data rows, with a text reader and writer.
use vstd::prelude::*;
use vstd::string::StringExecFns;
use crate::error::{CmsError, ErrorCode};
use crate::text::{is_ascii_alnum, is_ascii_white, char_is_whitespace, spec_is_whitespace, char_from_u32, lemma_char_cast, char_is_alphanumeric, spec_is_alphanumeric, char_code, chars_eq, str_eq, str_to_chars, string_from_chars, string_push};

verus! {

broadcast use vstd::string::group_string_axioms;

/// What a table holds, as seen from outside.
pub struct TableView {
    pub sheet_type: Seq<char>,
    /// Key/value pairs in increasing key order.
    pub properties: Seq<(Seq<char>, Seq<char>)>,
    /// Column names in order.
    pub data_format: Seq<Seq<char>>,
    /// Row-major cells: cell (row, col) is `data[row * n_cols + col]`.
    pub data: Seq<Seq<char>>,
    pub n_rows: nat,
    /// Column holding the patch names.
    pub sample_id_col: nat,
}

/// Lexicographic order on character sequences by code point (the order of `str`).
pub open spec fn seq_less(a: Seq<char>, b: Seq<char>) -> bool
    decreases a.len(),
{
    if a.len() == 0 {
        b.len() > 0
    } else if b.len() == 0 {
        false
    } else if (a[0] as u32) < (b[0] as u32) {
        true
    } else if a[0] == b[0] {
        seq_less(a.skip(1), b.skip(1))
    } else {
        false
    }
}

/// No key is less than itself.
pub proof fn lemma_less_irreflexive(a: Seq<char>)
    ensures
        !seq_less(a, a),
    decreases a.len(),
{
    if a.len() > 0 {
        lemma_less_irreflexive(a.skip(1));
    }
}

/// The key order is transitive.
pub proof fn lemma_less_transitive(a: Seq<char>, b: Seq<char>, c: Seq<char>)
    requires
        seq_less(a, b),
        seq_less(b, c),
    ensures
        seq_less(a, c),
    decreases a.len(),
{
    if a.len() > 0 && b.len() > 0 && c.len() > 0 && a[0] == b[0] && b[0] == c[0] {
        lemma_less_transitive(a.skip(1), b.skip(1), c.skip(1));
    }
}

/// Of two different keys one is less than the other.
pub proof fn lemma_less_total(a: Seq<char>, b: Seq<char>)
    requires
        a != b,
    ensures
        seq_less(a, b) || seq_less(b, a),
    decreases a.len(),
{
    if a.len() > 0 && b.len() > 0 && a[0] == b[0] {
        if a.skip(1) == b.skip(1) {
            assert(a =~= seq![a[0]] + a.skip(1));
            assert(b =~= seq![b[0]] + b.skip(1));
        }
        lemma_less_total(a.skip(1), b.skip(1));
    } else if a.len() > 0 && b.len() > 0 {
        if (a[0] as u32) == (b[0] as u32) {
            crate::text::lemma_char_cast(a[0], a[0] as u32);
            crate::text::lemma_char_cast(b[0], b[0] as u32);
        }
    } else if a.len() == 0 && b.len() == 0 {
        assert(a =~= b);
    }
}

/// Whether `a` comes before `b` in code-point order.
fn chars_less(a: &Vec<char>, b: &Vec<char>) -> (r: bool)
    ensures
        r == seq_less(a@, b@),
{
    let mut i: usize = 0;
    assert(a@.skip(0) =~= a@);
    assert(b@.skip(0) =~= b@);
    loop
        invariant
            i <= a@.len(),
            i <= b@.len(),
            seq_less(a@, b@) == seq_less(a@.skip(i as int), b@.skip(i as int)),
        decreases a@.len() - i,
    {
        if i == a.len() {
            return i < b.len();
        }
        if i == b.len() {
            return false;
        }
        let x = char_code(a[i]);
        let y = char_code(b[i]);
        assert(a@.skip(i as int)[0] == a@[i as int]);
        assert(b@.skip(i as int)[0] == b@[i as int]);
        assert(a@.skip(i as int).skip(1) =~= a@.skip(i + 1));
        assert(b@.skip(i as int).skip(1) =~= b@.skip(i + 1));
        if x < y {
            return true;
        }
        if a[i] != b[i] {
            return false;
        }
        i = i + 1;
    }
}

/// Keys strictly increasing.
pub open spec fn props_sorted(p: Seq<(Seq<char>, Seq<char>)>) -> bool {
    forall|i: int, j: int| 0 <= i < j < p.len() ==> seq_less(#[trigger] p[i].0, #[trigger] p[j].0)
}

/// Index of the first key not below `k`.
pub open spec fn insert_pos(p: Seq<(Seq<char>, Seq<char>)>, k: Seq<char>, i: int) -> int
    decreases p.len() - i,
{
    if i < 0 || i >= p.len() {
        p.len() as int
    } else if !seq_less(p[i].0, k) {
        i
    } else {
        insert_pos(p, k, i + 1)
    }
}

/// The properties after setting `k` to `v`: the value of an existing key is
/// replaced, otherwise the pair is inserted in key order.
pub open spec fn props_insert(p: Seq<(Seq<char>, Seq<char>)>, k: Seq<char>, v: Seq<char>) -> Seq<
    (Seq<char>, Seq<char>),
> {
    let i = insert_pos(p, k, 0);
    if i < p.len() && p[i].0 == k {
        p.update(i, (k, v))
    } else {
        p.insert(i, (k, v))
    }
}

/// The value of key `k`, if present.
pub open spec fn props_get(p: Seq<(Seq<char>, Seq<char>)>, k: Seq<char>) -> Option<Seq<char>> {
    if exists|i: int| 0 <= i < p.len() && p[i].0 == k {
        let i = choose|i: int| 0 <= i < p.len() && p[i].0 == k;
        Some(p[i].1)
    } else {
        None
    }
}

pub proof fn lemma_insert_pos(p: Seq<(Seq<char>, Seq<char>)>, k: Seq<char>, i: int)
    requires
        0 <= i <= p.len(),
        props_sorted(p),
    ensures
        i <= insert_pos(p, k, i) <= p.len(),
        forall|j: int| i <= j < insert_pos(p, k, i) ==> seq_less(#[trigger] p[j].0, k),
        insert_pos(p, k, i) < p.len() ==> !seq_less(p[insert_pos(p, k, i)].0, k),
    decreases p.len() - i,
{
    if i < p.len() && seq_less(p[i].0, k) {
        lemma_insert_pos(p, k, i + 1);
    }
}

/// Inserting keeps the keys strictly increasing, and the key then maps to the value.
pub proof fn lemma_props_insert(p: Seq<(Seq<char>, Seq<char>)>, k: Seq<char>, v: Seq<char>)
    requires
        props_sorted(p),
    ensures
        props_sorted(props_insert(p, k, v)),
        props_get(props_insert(p, k, v), k) == Some(v),
{
    lemma_insert_pos(p, k, 0);
    let i = insert_pos(p, k, 0);
    let q = props_insert(p, k, v);
    // Every key before i is below k, every key from i on is not below k.
    assert forall|j: int| i <= j < p.len() implies !seq_less(#[trigger] p[j].0, k) by {
        if j > i {
            if seq_less(p[j].0, k) {
                lemma_less_transitive(p[i].0, p[j].0, k);
            }
        }
    }
    if i < p.len() && p[i].0 == k {
        assert forall|a: int, b: int| 0 <= a < b < q.len() implies seq_less(
            #[trigger] q[a].0,
            #[trigger] q[b].0,
        ) by {
            assert(q[a].0 == p[a].0 && q[b].0 == p[b].0);
        }
    } else {
        assert forall|a: int, b: int| 0 <= a < b < q.len() implies seq_less(
            #[trigger] q[a].0,
            #[trigger] q[b].0,
        ) by {
            if b < i {
                assert(q[a] == p[a] && q[b] == p[b]);
            } else if b == i {
                assert(q[a] == p[a]);
            } else if a < i {
                assert(q[a] == p[a] && q[b] == p[b - 1]);
            } else if a == i {
                assert(q[b] == p[b - 1]);
                lemma_less_total(k, p[i].0);
                if b - 1 > i {
                    lemma_less_transitive(k, p[i].0, p[b - 1].0);
                }
            } else {
                assert(q[a] == p[a - 1] && q[b] == p[b - 1]);
            }
        }
    }
    assert(q[i] == (k, v));
    assert forall|j: int| 0 <= j < q.len() && q[j].0 == k implies j == i by {
        if j != i {
            if j < i {
                lemma_less_irreflexive(k);
            } else {
                lemma_less_irreflexive(q[i].0);
            }
        }
    }
}

/// A fresh table: sheet type "CGATS.17", nothing else.
pub open spec fn empty_table(sheet: Seq<char>) -> TableView {
    TableView {
        sheet_type: sheet,
        properties: Seq::empty(),
        data_format: Seq::empty(),
        data: Seq::empty(),
        n_rows: 0,
        sample_id_col: 0,
    }
}

/// "CGATS.17"
pub open spec fn default_sheet() -> Seq<char> {
    seq!['C', 'G', 'A', 'T', 'S', '.', '1', '7']
}

/// "SAMPLE_ID"
pub open spec fn kw_sample_id() -> Seq<char> {
    seq!['S', 'A', 'M', 'P', 'L', 'E', '_', 'I', 'D']
}

/// Cell (row, col) of a table, if it is stored.
pub open spec fn cell_at(t: TableView, row: int, col: int) -> Option<Seq<char>> {
    let idx = row * t.data_format.len() + col;
    if 0 <= idx < t.data.len() {
        Some(t.data[idx])
    } else {
        None
    }
}

/// First row below `n_rows`, from `r` on, whose patch-name cell is `patch`.
pub open spec fn find_patch_from(t: TableView, patch: Seq<char>, r: int) -> Option<int>
    decreases t.n_rows - r,
{
    if r < 0 || r >= t.n_rows {
        None
    } else if cell_at(t, r, t.sample_id_col as int) == Some(patch) {
        Some(r)
    } else {
        find_patch_from(t, patch, r + 1)
    }
}

/// First column named `name`.
pub open spec fn find_column_from(t: TableView, name: Seq<char>, c: int) -> Option<int>
    decreases t.data_format.len() - c,
{
    if c < 0 || c >= t.data_format.len() {
        None
    } else if t.data_format[c] == name {
        Some(c)
    } else {
        find_column_from(t, name, c + 1)
    }
}

/// The table after writing `v` into cell (row, col), if col is a column:
/// the row count grows to cover `row`, and missing cells are added empty.
pub open spec fn table_set_cell(t: TableView, row: int, col: int, v: Seq<char>) -> TableView {
    let n_cols = t.data_format.len();
    if n_cols == 0 || col >= n_cols {
        t
    } else {
        let n_rows = if row >= t.n_rows {
            (row + 1) as nat
        } else {
            t.n_rows
        };
        let needed = n_rows * n_cols;
        let data = if t.data.len() < needed {
            t.data + Seq::new((needed - t.data.len()) as nat, |i: int| Seq::<char>::empty())
        } else {
            t.data
        };
        TableView { n_rows, data: data.update(row * n_cols + col, v), ..t }
    }
}

/// The table after naming column `col`: the format grows with empty names
/// as needed, and a column named "SAMPLE_ID" becomes the patch-name column.
pub open spec fn table_set_format(t: TableView, col: int, name: Seq<char>) -> TableView {
    let df = if col >= t.data_format.len() {
        t.data_format + Seq::new(
            (col + 1 - t.data_format.len()) as nat,
            |i: int| Seq::<char>::empty(),
        )
    } else {
        t.data_format
    };
    TableView {
        data_format: df.update(col, name),
        sample_id_col: if name == kw_sample_id() {
            col as nat
        } else {
            t.sample_id_col
        },
        ..t
    }
}

/// The table after `set_data(patch, sample, v)`.
pub open spec fn table_set_data(t: TableView, patch: Seq<char>, sample: Seq<char>, v: Seq<char>) -> TableView {
    match find_column_from(t, sample, 0) {
        None => t,
        Some(col) => match find_patch_from(t, patch, 0) {
            Some(row) => table_set_cell(t, row, col, v),
            None => {
                let r = t.n_rows as int;
                table_set_cell(table_set_cell(t, r, t.sample_id_col as int, patch), r, col, v)
            },
        },
    }
}

struct Table {
    sheet_type: String,
    prop_keys: Vec<String>,
    prop_values: Vec<String>,
    data_format: Vec<String>,
    data: Vec<String>,
    n_rows: usize,
    sample_id_col: usize,
}

/// The characters of each string.
pub open spec fn strings_view(v: Seq<String>) -> Seq<Seq<char>> {
    Seq::new(v.len(), |i: int| v[i]@)
}

impl Table {
    spec fn view(&self) -> TableView {
        TableView {
            sheet_type: self.sheet_type@,
            properties: Seq::new(
                self.prop_keys@.len(),
                |i: int| (self.prop_keys@[i]@, self.prop_values@[i]@),
            ),
            data_format: strings_view(self.data_format@),
            data: strings_view(self.data@),
            n_rows: self.n_rows as nat,
            sample_id_col: self.sample_id_col as nat,
        }
    }

    spec fn wf(&self) -> bool {
        &&& self.prop_keys@.len() == self.prop_values@.len()
        &&& props_sorted(self.view().properties)
    }

    fn new() -> (r: Table)
        ensures
            r.wf(),
            r.view() == empty_table(default_sheet()),
    {
        let sheet = "CGATS.17".to_owned();
        proof {
            reveal_strlit("CGATS.17");
        }
        let r = Table {
            sheet_type: sheet,
            prop_keys: Vec::new(),
            prop_values: Vec::new(),
            data_format: Vec::new(),
            data: Vec::new(),
            n_rows: 0,
            sample_id_col: 0,
        };
        assert(r.view().properties =~= Seq::<(Seq<char>, Seq<char>)>::empty());
        assert(r.view().data_format =~= Seq::<Seq<char>>::empty());
        assert(r.view().data =~= Seq::<Seq<char>>::empty());
        assert(r.view().sheet_type =~= default_sheet());
        r
    }

    fn n_cols(&self) -> (r: usize)
        ensures
            r == self.view().data_format.len(),
    {
        self.data_format.len()
    }

    /// Index of the stored property `key`, if any.
    fn prop_index(&self, key: &str) -> (r: Option<usize>)
        requires
            self.wf(),
        ensures
            match r {
                Some(i) => i < self.prop_keys@.len() && self.prop_keys@[i as int]@ == key@,
                None => forall|i: int| 0 <= i < self.prop_keys@.len() ==> self.prop_keys@[i]@ != key@,
            },
    {
        let mut i: usize = 0;
        while i < self.prop_keys.len()
            invariant
                i <= self.prop_keys@.len(),
                forall|j: int| 0 <= j < i ==> self.prop_keys@[j]@ != key@,
            decreases self.prop_keys@.len() - i,
        {
            if str_eq(self.prop_keys[i].as_str(), key) {
                return Some(i);
            }
            i = i + 1;
        }
        None
    }

    /// Position of the first key that is not below `key`.
    fn prop_insert_pos(&self, key: &str) -> (r: usize)
        requires
            self.wf(),
        ensures
            r == insert_pos(self.view().properties, key@, 0),
    {
        let ghost p = self.view().properties;
        let k = str_to_chars(key);
        let mut i: usize = 0;
        while i < self.prop_keys.len()
            invariant
                i <= self.prop_keys@.len() == p.len(),
                p == self.view().properties,
                k@ == key@,
                insert_pos(p, key@, 0) == insert_pos(p, key@, i as int),
            decreases self.prop_keys@.len() - i,
        {
            let c = str_to_chars(self.prop_keys[i].as_str());
            assert(c@ == p[i as int].0);
            if !chars_less(&c, &k) {
                return i;
            }
            i = i + 1;
        }
        i
    }

    /// Sets property `key` to `value`, keeping the keys in order.
    fn set_prop(&mut self, key: &str, value: &str)
        requires
            old(self).wf(),
        ensures
            final(self).wf(),
            final(self).view() == (TableView {
                properties: props_insert(old(self).view().properties, key@, value@),
                ..old(self).view()
            }),
    {
        proof {
            lemma_props_insert(self.view().properties, key@, value@);
            lemma_insert_pos(self.view().properties, key@, 0);
        }
        let ghost p = self.view().properties;
        let i = self.prop_insert_pos(key);
        if i < self.prop_keys.len() && str_eq(self.prop_keys[i].as_str(), key) {
            self.prop_values.set(i, value.to_owned());
        } else {
            self.prop_keys.insert(i, key.to_owned());
            self.prop_values.insert(i, value.to_owned());
        }
        assert(self.view().properties =~= props_insert(p, key@, value@));
    }

    /// Names column `col`, adding empty column names up to it.
    fn set_format(&mut self, col: usize, name: &str)
        requires
            old(self).wf(),
            col < usize::MAX,
        ensures
            final(self).wf(),
            final(self).view() == table_set_format(old(self).view(), col as int, name@),
    {
        let ghost t = self.view();
        let ghost df0 = t.data_format;
        while self.data_format.len() <= col
            invariant
                col < usize::MAX,
                self.wf(),
                self.view() == (TableView { data_format: self.view().data_format, ..t }),
                df0.len() <= self.data_format@.len(),
                df0.len() > col ==> self.view().data_format == df0,
                self.data_format@.len() <= col + 1 || df0.len() > col,
                self.view().data_format == df0 + Seq::new(
                    (self.data_format@.len() - df0.len()) as nat,
                    |i: int| Seq::<char>::empty(),
                ),
            decreases col + 1 - self.data_format@.len(),
        {
            let ghost prev = self.view().data_format;
            self.data_format.push(String::new());
            assert(self.view().data_format =~= prev.push(Seq::<char>::empty()));
            assert(self.view().data_format =~= df0 + Seq::new(
                (self.data_format@.len() - df0.len()) as nat,
                |i: int| Seq::<char>::empty(),
            ));
        }
        let ghost df1 = self.view().data_format;
        assert(df1 =~= (if col >= df0.len() {
            df0 + Seq::new((col + 1 - df0.len()) as nat, |i: int| Seq::<char>::empty())
        } else {
            df0
        }));
        self.data_format.set(col, name.to_owned());
        assert(self.view().data_format =~= df1.update(col as int, name@));
        let is_sid = str_eq(name, "SAMPLE_ID");
        proof {
            reveal_strlit("SAMPLE_ID");
            assert("SAMPLE_ID"@ =~= kw_sample_id());
        }
        if is_sid {
            self.sample_id_col = col;
        }
    }

    /// Writes `value` into cell (row, col) when `col` is a column, growing
    /// the row count and the cell store as needed.
    fn set_cell(&mut self, row: usize, col: usize, value: &str)
        requires
            old(self).wf(),
            cell_fits(old(self).view(), row as int, col as int),
        ensures
            final(self).wf(),
            final(self).view() == table_set_cell(old(self).view(), row as int, col as int, value@),
    {
        let ghost t = self.view();
        let n_cols = self.data_format.len();
        if n_cols == 0 || col >= n_cols {
            return;
        }
        if row >= self.n_rows {
            self.n_rows = row + 1;
        }
        let needed = self.n_rows * n_cols;
        let nr = self.n_rows;
        let ghost d0 = t.data;
        while self.data.len() < needed
            invariant
                self.wf(),
                self.n_rows == nr,
                row < nr,
                needed == nr * n_cols,
                n_cols == self.data_format@.len(),
                col < n_cols,
                self.view() == (TableView { data: self.view().data, n_rows: self.n_rows as nat, ..t }),
                d0.len() <= self.data@.len(),
                d0.len() >= needed ==> self.view().data == d0,
                self.data@.len() <= needed || d0.len() >= needed,
                self.view().data == d0 + Seq::new(
                    (self.data@.len() - d0.len()) as nat,
                    |i: int| Seq::<char>::empty(),
                ),
            decreases needed - self.data@.len(),
        {
            let ghost prev = self.view().data;
            self.data.push(String::new());
            assert(self.view().data =~= prev.push(Seq::<char>::empty()));
            assert(self.view().data =~= d0 + Seq::new(
                (self.data@.len() - d0.len()) as nat,
                |i: int| Seq::<char>::empty(),
            ));
        }
        let ghost d1 = self.view().data;
        assert(d1 =~= (if d0.len() < needed {
            d0 + Seq::new((needed - d0.len()) as nat, |i: int| Seq::<char>::empty())
        } else {
            d0
        }));
        assert(row * n_cols + col < needed) by (nonlinear_arith)
            requires
                row < self.n_rows,
                col < n_cols,
                needed == self.n_rows * n_cols,
        {
            assert(row * n_cols + n_cols <= self.n_rows * n_cols);
        }
        let idx = row * n_cols + col;
        self.data.set(idx, value.to_owned());
        assert(self.view().data =~= d1.update(idx as int, value@));
    }

    /// Whether writing cell (row, col) keeps every size within `usize`.
    fn fits(&self, row: usize, col: usize) -> (r: bool)
        ensures
            r == cell_fits(self.view(), row as int, col as int),
    {
        let n_cols = self.data_format.len();
        if n_cols == 0 || col >= n_cols {
            return true;
        }
        if row == usize::MAX {
            return false;
        }
        let rows = if row >= self.n_rows {
            row + 1
        } else {
            self.n_rows
        };
        rows.checked_mul(n_cols).is_some()
    }

    /// First column named `name`.
    fn find_column(&self, name: &str) -> (r: Option<usize>)
        ensures
            match r {
                Some(c) => find_column_from(self.view(), name@, 0) == Some(c as int),
                None => find_column_from(self.view(), name@, 0) is None,
            },
    {
        let mut c: usize = 0;
        while c < self.data_format.len()
            invariant
                c <= self.data_format@.len(),
                find_column_from(self.view(), name@, 0) == find_column_from(self.view(), name@, c as int),
            decreases self.data_format@.len() - c,
        {
            if str_eq(self.data_format[c].as_str(), name) {
                return Some(c);
            }
            c = c + 1;
        }
        None
    }

    /// Cell (row, col), if it is stored.
    fn cell(&self, row: usize, col: usize) -> (r: Option<&str>)
        ensures
            match r {
                Some(v) => cell_at(self.view(), row as int, col as int) == Some(v@),
                None => cell_at(self.view(), row as int, col as int) is None,
            },
    {
        let n_cols = self.data_format.len();
        let dl = self.data.len();
        assert(self.view().data.len() == self.data@.len());
        assert(self.view().data_format.len() == n_cols);
        match row.checked_mul(n_cols) {
            None => {
                assert(row * n_cols + col >= self.data@.len());
                None
            },
            Some(m) => match m.checked_add(col) {
                None => {
                    assert(row * n_cols + col >= self.data@.len());
                    None
                },
                Some(idx) => {
                    if idx < self.data.len() {
                        assert(idx == row * n_cols + col);
                        assert(self.view().data[idx as int] == self.data@[idx as int]@);
                        Some(self.data[idx].as_str())
                    } else {
                        None
                    }
                },
            },
        }
    }

    /// First row whose patch-name cell is `patch`.
    fn find_patch(&self, patch: &str) -> (r: Option<usize>)
        ensures
            match r {
                Some(row) => find_patch_from(self.view(), patch@, 0) == Some(row as int),
                None => find_patch_from(self.view(), patch@, 0) is None,
            },
    {
        let sid = self.sample_id_col;
        let mut row: usize = 0;
        while row < self.n_rows
            invariant
                row <= self.n_rows,
                sid == self.sample_id_col,
                find_patch_from(self.view(), patch@, 0) == find_patch_from(self.view(), patch@, row as int),
            decreases self.n_rows - row,
        {
            match self.cell(row, sid) {
                Some(v) => {
                    if str_eq(v, patch) {
                        return Some(row);
                    }
                },
                None => {},
            }
            row = row + 1;
        }
        None
    }
}


/// What an IT8 object holds: its tables, the active one, and the format
/// kept for numeric output.
pub struct It8View {
    pub tables: Seq<TableView>,
    pub current: nat,
    pub dbl_format: Seq<char>,
}

/// "%.10g"
pub open spec fn default_dbl_format() -> Seq<char> {
    seq!['%', '.', '1', '0', 'g']
}

/// The active table.
pub open spec fn cur_table(v: It8View) -> TableView {
    v.tables[v.current as int]
}

/// `v` with its active table replaced by `t`.
pub open spec fn with_cur(v: It8View, t: TableView) -> It8View {
    It8View { tables: v.tables.update(v.current as int, t), ..v }
}

/// Whether writing `v` into cell (row, col) keeps every size within `usize`.
pub open spec fn cell_fits(t: TableView, row: int, col: int) -> bool {
    let n_cols = t.data_format.len();
    n_cols == 0 || col >= n_cols || (row < usize::MAX && (if row >= t.n_rows {
        row + 1
    } else {
        t.n_rows as int
    }) * n_cols <= usize::MAX)
}

/// Whether `set_data(patch, sample, ..)` keeps every size within `usize`.
pub open spec fn set_data_fits(t: TableView, patch: Seq<char>, sample: Seq<char>) -> bool {
    match find_column_from(t, sample, 0) {
        None => true,
        Some(col) => match find_patch_from(t, patch, 0) {
            Some(row) => cell_fits(t, row, col),
            None => {
                let r = t.n_rows as int;
                &&& cell_fits(t, r, t.sample_id_col as int)
                &&& cell_fits(table_set_cell(t, r, t.sample_id_col as int, patch), r, col)
            },
        },
    }
}

/// A CGATS / IT8 data container holding one or more tables, one of them active.
pub struct It8 {
    tables: Vec<Table>,
    current: usize,
    dbl_format: String,
}

impl View for It8 {
    type V = It8View;

    closed spec fn view(&self) -> It8View {
        It8View {
            tables: Seq::new(self.tables@.len(), |i: int| self.tables@[i].view()),
            current: self.current as nat,
            dbl_format: self.dbl_format@,
        }
    }
}

impl It8 {
    /// At least one table, a valid active index, and every table well formed.
    pub closed spec fn wf(&self) -> bool {
        &&& self.tables@.len() >= 1
        &&& self.current < self.tables@.len()
        &&& forall|i: int| 0 <= i < self.tables@.len() ==> #[trigger] self.tables@[i].wf()
    }

    /// A well-formed set of tables has at least one table, the active one
    /// among them, and the properties of each sorted by key.
    pub proof fn lemma_wf(&self)
        requires
            self.wf(),
        ensures
            self@.tables.len() >= 1,
            self@.current < self@.tables.len(),
            forall|i: int| 0 <= i < self@.tables.len() ==> props_sorted(#[trigger] self@.tables[i].properties),
    {
        assert forall|i: int| 0 <= i < self@.tables.len() implies props_sorted(#[trigger] self@.tables[i].properties) by {
            assert(self.tables@[i].wf());
        }
    }

    /// A new object with one empty table of sheet type "CGATS.17".
    pub fn new() -> (r: It8)
        ensures
            r.wf(),
            r@ == (It8View {
                tables: seq![empty_table(default_sheet())],
                current: 0,
                dbl_format: default_dbl_format(),
            }),
    {
        let t = Table::new();
        let mut tables: Vec<Table> = Vec::new();
        tables.push(t);
        let f = "%.10g".to_owned();
        proof {
            reveal_strlit("%.10g");
        }
        let r = It8 { tables, current: 0, dbl_format: f };
        assert(r@.tables =~= seq![empty_table(default_sheet())]);
        assert(r@.dbl_format =~= default_dbl_format());
        r
    }

    /// Number of tables.
    pub fn table_count(&self) -> (r: usize)
        ensures
            r == self@.tables.len(),
    {
        self.tables.len()
    }

    /// Makes table `index` the active one, adding fresh tables up to it.
    pub fn set_table(&mut self, index: usize) -> (r: usize)
        requires
            old(self).wf(),
            index < usize::MAX,
        ensures
            final(self).wf(),
            r == index,
            final(self)@.current == index,
            final(self)@.dbl_format == old(self)@.dbl_format,
            index < old(self)@.tables.len() ==> final(self)@.tables == old(self)@.tables,
            index >= old(self)@.tables.len() ==> final(self)@.tables == old(self)@.tables + Seq::new(
                (index + 1 - old(self)@.tables.len()) as nat,
                |i: int| empty_table(default_sheet()),
            ),
    {
        let ghost old_tables = self@.tables;
        while self.tables.len() <= index
            invariant
                self.wf() || self.tables@.len() >= 1,
                forall|i: int| 0 <= i < self.tables@.len() ==> #[trigger] self.tables@[i].wf(),
                self.current < self.tables@.len(),
                self.dbl_format@ == old(self)@.dbl_format,
                index < usize::MAX,
                old_tables == old(self)@.tables,
                index < old_tables.len() ==> self@.tables == old_tables,
                self.tables@.len() >= old_tables.len(),
                self.tables@.len() <= index + 1 || index < old_tables.len(),
                self@.tables == old_tables + Seq::new(
                    (self.tables@.len() - old_tables.len()) as nat,
                    |i: int| empty_table(default_sheet()),
                ),
            decreases index + 1 - self.tables@.len(),
        {
            let t = Table::new();
            let ghost prev = self@.tables;
            self.tables.push(t);
            assert(self@.tables =~= prev.push(empty_table(default_sheet())));
            assert(self@.tables =~= old_tables + Seq::new(
                (self.tables@.len() - old_tables.len()) as nat,
                |i: int| empty_table(default_sheet()),
            ));
        }
        self.current = index;
        proof {
            if index < old_tables.len() {
                assert(self@.tables =~= old_tables);
            }
        }
        index
    }

    /// Sheet type of the active table.
    pub fn sheet_type(&self) -> (r: &str)
        requires
            self.wf(),
        ensures
            r@ == cur_table(self@).sheet_type,
    {
        self.tables[self.current].sheet_type.as_str()
    }

    /// Sets the sheet type of the active table.
    pub fn set_sheet_type(&mut self, t: &str)
        requires
            old(self).wf(),
        ensures
            final(self).wf(),
            final(self)@ == with_cur(old(self)@, TableView { sheet_type: t@, ..cur_table(old(self)@) }),
    {
        let cur = self.current;
        let ghost before = self@;
        let ghost old_tabs = self.tables@;
        self.tables[cur].sheet_type = t.to_owned();
        assert(self@.tables =~= with_cur(before, TableView { sheet_type: t@, ..cur_table(before) }).tables);
        assert forall|i: int| 0 <= i < self.tables@.len() implies #[trigger] self.tables@[i].wf() by {
            assert(old_tabs[i].wf());
            if i != cur {
                assert(self.tables@[i] == old_tabs[i]);
            } else {
                assert(self.tables@[i].view().properties =~= old_tabs[i].view().properties);
            }
        }
    }
}

/// Replacing one well-formed table keeps all tables well formed.
proof fn lemma_tables_wf(old_tabs: Seq<Table>, new_tabs: Seq<Table>, cur: int)
    requires
        forall|i: int| 0 <= i < old_tabs.len() ==> #[trigger] old_tabs[i].wf(),
        new_tabs.len() == old_tabs.len(),
        0 <= cur < old_tabs.len(),
        forall|i: int| 0 <= i < old_tabs.len() && i != cur ==> new_tabs[i] == old_tabs[i],
        new_tabs[cur].wf(),
    ensures
        forall|i: int| 0 <= i < new_tabs.len() ==> #[trigger] new_tabs[i].wf(),
{
    assert forall|i: int| 0 <= i < new_tabs.len() implies #[trigger] new_tabs[i].wf() by {
        if i != cur {
            assert(old_tabs[i].wf());
        }
    }
}

impl It8 {
    /// Sets property `key` of the active table to `value`.
    pub fn set_property(&mut self, key: &str, value: &str)
        requires
            old(self).wf(),
        ensures
            final(self).wf(),
            final(self)@ == with_cur(old(self)@, TableView {
                properties: props_insert(cur_table(old(self)@).properties, key@, value@),
                ..cur_table(old(self)@)
            }),
    {
        let cur = self.current;
        let ghost before = self@;
        let ghost old_tabs = self.tables@;
        assert(old_tabs[cur as int].wf());
        self.tables[cur].set_prop(key, value);
        proof {
            lemma_tables_wf(old_tabs, self.tables@, cur as int);
        }
        assert(self@.tables =~= with_cur(before, TableView {
            properties: props_insert(cur_table(before).properties, key@, value@),
            ..cur_table(before)
        }).tables);
    }

    /// Value of property `key` of the active table.
    pub fn property(&self, key: &str) -> (r: Option<&str>)
        requires
            self.wf(),
        ensures
            match r {
                Some(v) => props_get(cur_table(self@).properties, key@) == Some(v@),
                None => props_get(cur_table(self@).properties, key@) is None,
            },
    {
        let t = &self.tables[self.current];
        assert(self.tables@[self.current as int].wf());
        let ghost p = cur_table(self@).properties;
        match t.prop_index(key) {
            Some(i) => {
                assert(p[i as int].0 == key@);
                assert forall|j: int| 0 <= j < p.len() && p[j].0 == key@ implies j == i by {
                    if j < i {
                        lemma_less_irreflexive(key@);
                        assert(seq_less(p[j].0, p[i as int].0));
                    } else if j > i {
                        lemma_less_irreflexive(key@);
                        assert(seq_less(p[i as int].0, p[j].0));
                    }
                }
                Some(t.prop_values[i].as_str())
            },
            None => {
                assert forall|j: int| 0 <= j < p.len() implies p[j].0 != key@ by {
                    assert(t.prop_keys@[j]@ != key@);
                }
                None
            },
        }
    }

    /// Keys of the active table's properties, in order.
    pub fn properties(&self) -> (r: Vec<&str>)
        requires
            self.wf(),
        ensures
            r@.len() == cur_table(self@).properties.len(),
            forall|i: int| 0 <= i < r@.len() ==> (#[trigger] r@[i])@ == cur_table(self@).properties[i].0,
    {
        let t = &self.tables[self.current];
        assert(self.tables@[self.current as int].wf());
        let mut out: Vec<&str> = Vec::new();
        let mut i: usize = 0;
        while i < t.prop_keys.len()
            invariant
                t.wf(),
                t.view() == cur_table(self@),
                i <= t.prop_keys@.len(),
                out@.len() == i,
                forall|j: int| 0 <= j < i ==> (#[trigger] out@[j])@ == t.prop_keys@[j]@,
            decreases t.prop_keys@.len() - i,
        {
            out.push(t.prop_keys[i].as_str());
            i = i + 1;
        }
        out
    }

    /// Names column `col` of the active table; a column named "SAMPLE_ID"
    /// becomes the patch-name column.
    pub fn set_data_format(&mut self, col: usize, name: &str)
        requires
            old(self).wf(),
            col < usize::MAX,
        ensures
            final(self).wf(),
            final(self)@ == with_cur(old(self)@, table_set_format(cur_table(old(self)@), col as int, name@)),
    {
        let cur = self.current;
        let ghost before = self@;
        let ghost old_tabs = self.tables@;
        assert(old_tabs[cur as int].wf());
        self.tables[cur].set_format(col, name);
        proof {
            lemma_tables_wf(old_tabs, self.tables@, cur as int);
        }
        assert(self@.tables =~= with_cur(before, table_set_format(cur_table(before), col as int, name@)).tables);
    }

    /// Index of the first column of the active table named `name`.
    pub fn find_data_format(&self, name: &str) -> (r: Option<usize>)
        requires
            self.wf(),
        ensures
            match r {
                Some(c) => find_column_from(cur_table(self@), name@, 0) == Some(c as int),
                None => find_column_from(cur_table(self@), name@, 0) is None,
            },
    {
        self.tables[self.current].find_column(name)
    }

    /// Column names of the active table.
    pub fn data_format(&self) -> (r: &[String])
        requires
            self.wf(),
        ensures
            strings_view(r@) == cur_table(self@).data_format,
    {
        self.tables[self.current].data_format.as_slice()
    }

    /// Row count of the active table.
    pub fn n_rows(&self) -> (r: usize)
        requires
            self.wf(),
        ensures
            r == cur_table(self@).n_rows,
    {
        self.tables[self.current].n_rows
    }

    /// Cell (row, col) of the active table, if stored.
    pub fn data_row_col(&self, row: usize, col: usize) -> (r: Option<&str>)
        requires
            self.wf(),
        ensures
            match r {
                Some(v) => cell_at(cur_table(self@), row as int, col as int) == Some(v@),
                None => cell_at(cur_table(self@), row as int, col as int) is None,
            },
    {
        self.tables[self.current].cell(row, col)
    }

    /// Writes `value` into cell (row, col) of the active table; nothing
    /// happens when `col` is not a column.
    pub fn set_data_row_col(&mut self, row: usize, col: usize, value: &str)
        requires
            old(self).wf(),
            cell_fits(cur_table(old(self)@), row as int, col as int),
        ensures
            final(self).wf(),
            final(self)@ == with_cur(old(self)@, table_set_cell(cur_table(old(self)@), row as int, col as int, value@)),
    {
        let cur = self.current;
        let ghost before = self@;
        let ghost old_tabs = self.tables@;
        assert(old_tabs[cur as int].wf());
        self.tables[cur].set_cell(row, col, value);
        proof {
            lemma_tables_wf(old_tabs, self.tables@, cur as int);
        }
        assert(self@.tables =~= with_cur(before, table_set_cell(cur_table(before), row as int, col as int, value@)).tables);
    }

    /// The cell of the active table in the row of patch `patch` and the
    /// column named `sample`.
    pub fn data(&self, patch: &str, sample: &str) -> (r: Option<&str>)
        requires
            self.wf(),
        ensures
            match (find_patch_from(cur_table(self@), patch@, 0), find_column_from(cur_table(self@), sample@, 0)) {
                (Some(row), Some(col)) => match r {
                    Some(v) => cell_at(cur_table(self@), row, col) == Some(v@),
                    None => cell_at(cur_table(self@), row, col) is None,
                },
                _ => r is None,
            },
    {
        let t = &self.tables[self.current];
        let row = match t.find_patch(patch) {
            Some(r) => r,
            None => return None,
        };
        let col = match t.find_column(sample) {
            Some(c) => c,
            None => return None,
        };
        t.cell(row, col)
    }

    /// Writes `value` into the column named `sample` of the row of patch
    /// `patch` in the active table; a missing patch gets a new row.
    pub fn set_data(&mut self, patch: &str, sample: &str, value: &str)
        requires
            old(self).wf(),
            set_data_fits(cur_table(old(self)@), patch@, sample@),
        ensures
            final(self).wf(),
            final(self)@ == with_cur(old(self)@, table_set_data(cur_table(old(self)@), patch@, sample@, value@)),
    {
        let cur = self.current;
        let ghost before = self@;
        let ghost old_tabs = self.tables@;
        assert(old_tabs[cur as int].wf());
        let col = match self.tables[cur].find_column(sample) {
            Some(c) => c,
            None => {
                assert(self@.tables =~= with_cur(before, cur_table(before)).tables);
                return;
            },
        };
        let row = match self.tables[cur].find_patch(patch) {
            Some(r) => r,
            None => {
                let r = self.tables[cur].n_rows;
                let sid = self.tables[cur].sample_id_col;
                self.tables[cur].set_cell(r, sid, patch);
                r
            },
        };
        self.tables[cur].set_cell(row, col, value);
        proof {
            lemma_tables_wf(old_tabs, self.tables@, cur as int);
        }
        assert(self@.tables =~= with_cur(before, table_set_data(cur_table(before), patch@, sample@, value@)).tables);
    }

    /// Whether `set_data_row_col(row, col, ..)` keeps every size within `usize`.
    pub fn can_set_data_row_col(&self, row: usize, col: usize) -> (r: bool)
        requires
            self.wf(),
        ensures
            r == cell_fits(cur_table(self@), row as int, col as int),
    {
        self.tables[self.current].fits(row, col)
    }

    /// Whether `set_data(patch, sample, ..)` keeps every size within `usize`.
    pub fn can_set_data(&self, patch: &str, sample: &str) -> (r: bool)
        requires
            self.wf(),
        ensures
            r == set_data_fits(cur_table(self@), patch@, sample@),
    {
        let t = &self.tables[self.current];
        let col = match t.find_column(sample) {
            Some(c) => c,
            None => return true,
        };
        match t.find_patch(patch) {
            Some(row) => t.fits(row, col),
            None => {
                let r = t.n_rows;
                let sid = t.sample_id_col;
                if !t.fits(r, sid) {
                    return false;
                }
                let n_cols = t.data_format.len();
                if n_cols == 0 || sid >= n_cols {
                    return t.fits(r, col);
                }
                // after the patch cell is written the table has r + 1 rows
                if col >= n_cols {
                    return true;
                }
                match (r + 1).checked_mul(n_cols) {
                    Some(_) => r < usize::MAX,
                    None => false,
                }
            },
        }
    }

    /// Patch name (the patch-name column's cell) of row `row` of the active table.
    pub fn get_patch_name(&self, row: usize) -> (r: Option<&str>)
        requires
            self.wf(),
        ensures
            match r {
                Some(v) => cell_at(cur_table(self@), row as int, cur_table(self@).sample_id_col as int) == Some(v@),
                None => cell_at(cur_table(self@), row as int, cur_table(self@).sample_id_col as int) is None,
            },
    {
        let t = &self.tables[self.current];
        t.cell(row, t.sample_id_col)
    }

    /// Sets the format kept for numeric output.
    pub fn define_dbl_format(&mut self, fmt: &str)
        ensures
            final(self)@ == (It8View { dbl_format: fmt@, ..old(self)@ }),
            old(self).wf() ==> final(self).wf(),
    {
        self.dbl_format = fmt.to_owned();
    }

    /// The format kept for numeric output.
    pub fn dbl_format(&self) -> (r: &str)
        ensures
            r@ == self@.dbl_format,
    {
        self.dbl_format.as_str()
    }
}

impl Default for It8 {
    fn default() -> (r: It8)
        ensures
            r.wf(),
            r@ == (It8View {
                tables: seq![empty_table(default_sheet())],
                current: 0,
                dbl_format: default_dbl_format(),
            }),
    {
        It8::new()
    }
}

// ---------------------------------------------------------------------------
// Reading: the tokenizer
// ---------------------------------------------------------------------------

/// Space, tab, carriage return or line feed.
pub open spec fn is_blank(c: char) -> bool {
    c == ' ' || c == '\t' || c == '\r' || c == '\n'
}

/// Line feed or carriage return.
pub open spec fn is_eol(c: char) -> bool {
    c == '\n' || c == '\r'
}

/// A character that may stand in an unquoted token: a letter or digit
/// (`char::is_alphanumeric`, which on ASCII holds of letters and digits
/// only), or one of `_ - . / +`.
pub open spec fn is_token_char(c: char) -> bool {
    (if (c as u32) < 128 {
        is_ascii_alnum(c)
    } else {
        spec_is_alphanumeric(c)
    }) || c == '_' || c == '-' || c == '.' || c == '/' || c == '+'
}

/// Position after blanks and `#` comments (a comment runs to the end of its line).
pub open spec fn skip_blank(s: Seq<char>, p: int, in_comment: bool) -> int
    decreases s.len() - p,
{
    if p < 0 || p >= s.len() {
        p
    } else if in_comment {
        if is_eol(s[p]) {
            skip_blank(s, p + 1, false)
        } else {
            skip_blank(s, p + 1, true)
        }
    } else if is_blank(s[p]) {
        skip_blank(s, p + 1, false)
    } else if s[p] == '#' {
        skip_blank(s, p + 1, true)
    } else {
        p
    }
}

/// Position after spaces and tabs.
pub open spec fn skip_inline(s: Seq<char>, p: int) -> int
    decreases s.len() - p,
{
    if 0 <= p < s.len() && (s[p] == ' ' || s[p] == '\t') {
        skip_inline(s, p + 1)
    } else {
        p
    }
}

/// Position of the end of the current line (or of the input).
pub open spec fn skip_to_eol(s: Seq<char>, p: int) -> int
    decreases s.len() - p,
{
    if 0 <= p < s.len() && !is_eol(s[p]) {
        skip_to_eol(s, p + 1)
    } else {
        p
    }
}

/// End of the run of token characters starting at `p`.
pub open spec fn token_end(s: Seq<char>, p: int) -> int
    decreases s.len() - p,
{
    if 0 <= p < s.len() && is_token_char(s[p]) {
        token_end(s, p + 1)
    } else {
        p
    }
}

/// The body of a quoted string whose opening quote stands before `q`, with
/// backslash escaping the next character, and the position after the
/// closing quote; `None` when the string is not terminated.
pub open spec fn quoted(s: Seq<char>, q: int) -> Option<(Seq<char>, int)>
    decreases s.len() - q,
{
    if q < 0 || q >= s.len() {
        None
    } else if s[q] == '"' {
        Some((Seq::empty(), q + 1))
    } else if s[q] == '\\' {
        if q + 1 >= s.len() {
            None
        } else {
            match quoted(s, q + 2) {
                Some((v, e)) => Some((seq![s[q + 1]] + v, e)),
                None => None,
            }
        }
    } else {
        match quoted(s, q + 1) {
            Some((v, e)) => Some((seq![s[q]] + v, e)),
            None => None,
        }
    }
}

/// The token after optional spaces and tabs at `p` (a quoted string or a
/// non-empty run of token characters) and the position after it.
pub open spec fn read_token(s: Seq<char>, p: int) -> Option<(Seq<char>, int)> {
    let p1 = skip_inline(s, p);
    if p1 >= s.len() {
        None
    } else if s[p1] == '"' {
        quoted(s, p1 + 1)
    } else {
        let e = token_end(s, p1);
        if e == p1 {
            None
        } else {
            Some((s.subrange(p1, e), e))
        }
    }
}

/// Skipping blanks never moves back.
pub proof fn lemma_skip_blank_ge(s: Seq<char>, p: int, c: bool)
    ensures
        p <= skip_blank(s, p, c),
    decreases s.len() - p,
{
    if 0 <= p < s.len() {
        lemma_skip_blank_ge(s, p + 1, if c { !is_eol(s[p]) } else { !is_blank(s[p]) });
    }
}

proof fn lemma_skip_blank(s: Seq<char>, p: int, c: bool)
    requires
        0 <= p <= s.len(),
    ensures
        p <= skip_blank(s, p, c) <= s.len(),
    decreases s.len() - p,
{
    if p < s.len() {
        if c || is_blank(s[p]) || s[p] == '#' {
            lemma_skip_blank(s, p + 1, if c { !is_eol(s[p]) } else { !is_blank(s[p]) });
        }
    }
}

proof fn lemma_skip_inline(s: Seq<char>, p: int)
    requires
        0 <= p <= s.len(),
    ensures
        p <= skip_inline(s, p) <= s.len(),
    decreases s.len() - p,
{
    if p < s.len() && (s[p] == ' ' || s[p] == '\t') {
        lemma_skip_inline(s, p + 1);
    }
}

proof fn lemma_skip_to_eol(s: Seq<char>, p: int)
    requires
        0 <= p <= s.len(),
    ensures
        p <= skip_to_eol(s, p) <= s.len(),
    decreases s.len() - p,
{
    if p < s.len() && !is_eol(s[p]) {
        lemma_skip_to_eol(s, p + 1);
    }
}

proof fn lemma_token_end(s: Seq<char>, p: int)
    requires
        0 <= p <= s.len(),
    ensures
        p <= token_end(s, p) <= s.len(),
    decreases s.len() - p,
{
    if p < s.len() && is_token_char(s[p]) {
        lemma_token_end(s, p + 1);
    }
}

proof fn lemma_quoted(s: Seq<char>, q: int)
    requires
        0 <= q,
    ensures
        quoted(s, q) matches Some((v, e)) ==> q < e <= s.len(),
    decreases s.len() - q,
{
    if 0 <= q < s.len() && s[q] != '"' {
        if s[q] == '\\' {
            if q + 1 < s.len() {
                lemma_quoted(s, q + 2);
            }
        } else {
            lemma_quoted(s, q + 1);
        }
    }
}

/// A token, when there is one, lies after `p` and within the input.
proof fn lemma_read_token(s: Seq<char>, p: int)
    requires
        0 <= p <= s.len(),
    ensures
        read_token(s, p) matches Some((t, q)) ==> p < q <= s.len(),
{
    lemma_skip_inline(s, p);
    let p1 = skip_inline(s, p);
    if p1 < s.len() {
        lemma_quoted(s, p1 + 1);
        lemma_token_end(s, p1);
    }
}

fn skip_blank_x(s: &Vec<char>, p: usize) -> (r: usize)
    requires
        p <= s@.len(),
    ensures
        r == skip_blank(s@, p as int, false),
        p <= r <= s@.len(),
{
    proof {
        lemma_skip_blank(s@, p as int, false);
    }
    let mut i = p;
    let mut in_comment = false;
    while i < s.len()
        invariant
            p <= i <= s@.len(),
            skip_blank(s@, p as int, false) == skip_blank(s@, i as int, in_comment),
        decreases s@.len() - i,
    {
        let c = s[i];
        if in_comment {
            if c == '\n' || c == '\r' {
                in_comment = false;
            }
        } else if c == ' ' || c == '\t' || c == '\r' || c == '\n' {
        } else if c == '#' {
            in_comment = true;
        } else {
            return i;
        }
        i = i + 1;
    }
    i
}

fn skip_inline_x(s: &Vec<char>, p: usize) -> (r: usize)
    requires
        p <= s@.len(),
    ensures
        r == skip_inline(s@, p as int),
        p <= r <= s@.len(),
{
    let mut i = p;
    while i < s.len() && (s[i] == ' ' || s[i] == '\t')
        invariant
            p <= i <= s@.len(),
            skip_inline(s@, p as int) == skip_inline(s@, i as int),
        decreases s@.len() - i,
    {
        i = i + 1;
    }
    i
}

fn skip_to_eol_x(s: &Vec<char>, p: usize) -> (r: usize)
    requires
        p <= s@.len(),
    ensures
        r == skip_to_eol(s@, p as int),
        p <= r <= s@.len(),
{
    let mut i = p;
    while i < s.len() && !(s[i] == '\n' || s[i] == '\r')
        invariant
            p <= i <= s@.len(),
            skip_to_eol(s@, p as int) == skip_to_eol(s@, i as int),
        decreases s@.len() - i,
    {
        i = i + 1;
    }
    i
}

fn token_end_x(s: &Vec<char>, p: usize) -> (r: usize)
    requires
        p <= s@.len(),
    ensures
        r == token_end(s@, p as int),
        p <= r <= s@.len(),
{
    let mut i = p;
    while i < s.len()
        invariant
            p <= i <= s@.len(),
            token_end(s@, p as int) == token_end(s@, i as int),
        decreases s@.len() - i,
    {
        let c = s[i];
        if !(char_is_alphanumeric(c) || c == '_' || c == '-' || c == '.' || c == '/' || c == '+') {
            return i;
        }
        i = i + 1;
    }
    i
}

/// Reads a quoted string's body starting after its opening quote.
fn quoted_x(s: &Vec<char>, q: usize) -> (r: Option<(String, usize)>)
    requires
        q <= s@.len(),
    ensures
        match r {
            Some((v, e)) => quoted(s@, q as int) == Some((v@, e as int)),
            None => quoted(s@, q as int) is None,
        },
{
    let mut out = String::new();
    let mut i = q;
    while i < s.len()
        invariant
            q <= i <= s@.len(),
            quoted(s@, q as int) == match quoted(s@, i as int) {
                Some((v, e)) => Some((out@ + v, e)),
                None => None::<(Seq<char>, int)>,
            },
        decreases s@.len() - i,
    {
        let c = s[i];
        if c == '"' {
            assert(out@ + Seq::<char>::empty() =~= out@);
            return Some((out, i + 1));
        } else if c == '\\' {
            if i + 1 >= s.len() {
                return None;
            }
            let ghost before = out@;
            string_push(&mut out, s[i + 1]);
            proof {
                if let Some((v, e)) = quoted(s@, i + 2) {
                    assert(before + (seq![s@[i + 1]] + v) =~= out@ + v);
                }
            }
            i = i + 2;
        } else {
            let ghost before = out@;
            string_push(&mut out, c);
            proof {
                if let Some((v, e)) = quoted(s@, i + 1) {
                    assert(before + (seq![c] + v) =~= out@ + v);
                }
            }
            i = i + 1;
        }
    }
    None
}

/// How reading failed, and the position in the text where it did.
pub enum ReadFailure {
    UnexpectedEnd(usize),
    UnexpectedChar(char, usize),
    Unterminated(usize),
    EndInFormat(usize),
    DataWithoutFormat(usize),
    EndInData(usize),
}

/// Reads the token at `p` (see `read_token`).
fn read_token_x(s: &Vec<char>, p: usize) -> (r: Result<(String, usize), ReadFailure>)
    requires
        p <= s@.len(),
    ensures
        match r {
            Ok((t, q)) => read_token(s@, p as int) == Some((t@, q as int)),
            Err(_) => read_token(s@, p as int) is None,
        },
{
    let p1 = skip_inline_x(s, p);
    if p1 >= s.len() {
        return Err(ReadFailure::UnexpectedEnd(p1));
    }
    if s[p1] == '"' {
        return match quoted_x(s, p1 + 1) {
            Some(x) => Ok(x),
            None => Err(ReadFailure::Unterminated(s.len())),
        };
    }
    let e = token_end_x(s, p1);
    if e == p1 {
        return Err(ReadFailure::UnexpectedChar(s[p1], p1));
    }
    Ok((string_from_chars(s, p1, e), e))
}

// ---------------------------------------------------------------------------
// Reading: sections and tables
// ---------------------------------------------------------------------------

/// "BEGIN_DATA_FORMAT"
pub open spec fn kw_begin_data_format() -> Seq<char> {
    seq!['B', 'E', 'G', 'I', 'N', '_', 'D', 'A', 'T', 'A', '_', 'F', 'O', 'R', 'M', 'A', 'T']
}

/// "END_DATA_FORMAT"
pub open spec fn kw_end_data_format() -> Seq<char> {
    seq!['E', 'N', 'D', '_', 'D', 'A', 'T', 'A', '_', 'F', 'O', 'R', 'M', 'A', 'T']
}

/// "BEGIN_DATA"
pub open spec fn kw_begin_data() -> Seq<char> {
    seq!['B', 'E', 'G', 'I', 'N', '_', 'D', 'A', 'T', 'A']
}

/// "END_DATA"
pub open spec fn kw_end_data() -> Seq<char> {
    seq!['E', 'N', 'D', '_', 'D', 'A', 'T', 'A']
}

/// The column names up to END_DATA_FORMAT, added to `cols`, the patch-name
/// column (the last "SAMPLE_ID", else `sid`), and the position after it.
pub open spec fn parse_format(s: Seq<char>, p: int, cols: Seq<Seq<char>>, sid: nat) -> Option<
    (Seq<Seq<char>>, nat, int),
>
    decreases s.len() - p,
{
    let p1 = skip_blank(s, p, false);
    if p1 >= s.len() {
        None
    } else {
        match read_token(s, p1) {
            None => None,
            Some((t, q)) => if t == kw_end_data_format() {
                Some((cols, sid, q))
            } else if q <= p1 || q > s.len() {
                None
            } else {
                proof {
                    lemma_skip_blank_ge(s, p, false);
                }
                parse_format(
                    s,
                    q,
                    cols.push(t),
                    if t == kw_sample_id() {
                        cols.len()
                    } else {
                        sid
                    },
                )
            },
        }
    }
}

/// `k` values read one after the other from `p`, and the position after them.
pub open spec fn read_row(s: Seq<char>, p: int, k: nat) -> Option<(Seq<Seq<char>>, int)>
    decreases k,
{
    if k == 0 {
        Some((Seq::empty(), p))
    } else {
        match read_token(s, p) {
            None => None,
            Some((v, q)) => match read_row(s, q, (k - 1) as nat) {
                None => None,
                Some((vs, e)) => Some((seq![v] + vs, e)),
            },
        }
    }
}

/// Whether the token at `p` is END_DATA.
pub open spec fn at_end_data(s: Seq<char>, p: int) -> bool {
    read_token(s, p) matches Some((t, q)) && t == kw_end_data()
}

/// The rows of `n` values up to END_DATA, added to `data` and counted on
/// from `rows`, and the position after END_DATA; each row's rest of line
/// is ignored.
pub open spec fn parse_rows(s: Seq<char>, p: int, n: nat, data: Seq<Seq<char>>, rows: nat) -> Option<
    (Seq<Seq<char>>, nat, int),
>
    decreases s.len() - p,
{
    let p1 = skip_blank(s, p, false);
    if p1 >= s.len() {
        None
    } else if at_end_data(s, p1) {
        Some((data, rows, read_token(s, p1).unwrap().1))
    } else {
        match read_row(s, p1, n) {
            None => None,
            Some((cells, q)) => {
                let q2 = skip_to_eol(s, q);
                if q2 <= p1 || q2 > s.len() {
                    None
                } else {
                    proof {
                        lemma_skip_blank_ge(s, p, false);
                    }
                    parse_rows(s, q2, n, data + cells, rows + 1)
                }
            },
        }
    }
}

/// The last table of `ts` replaced by `t`.
pub open spec fn with_last(ts: Seq<TableView>, t: TableView) -> Seq<TableView> {
    ts.update(ts.len() - 1, t)
}

/// One item at `p` (a format section, a data section with the sheet type
/// of a following table, or a property line) applied to the last table,
/// and the position after it.
pub open spec fn parse_item(s: Seq<char>, p: int, ts: Seq<TableView>) -> Option<(Seq<TableView>, int)> {
    let last = ts.last();
    match read_token(s, p) {
        None => None,
        Some((t, q)) => if t == kw_begin_data_format() {
            match parse_format(s, q, Seq::empty(), last.sample_id_col) {
                None => None,
                Some((cols, sid, q2)) => Some(
                    (with_last(ts, TableView { data_format: cols, sample_id_col: sid, ..last }), q2),
                ),
            }
        } else if t == kw_begin_data() {
            let n = last.data_format.len();
            if n == 0 {
                None
            } else {
                match parse_rows(s, q, n, Seq::empty(), 0) {
                    None => None,
                    Some((d, r, q2)) => {
                        let ts2 = with_last(ts, TableView { data: d, n_rows: r, ..last });
                        let q3 = skip_blank(s, q2, false);
                        if q3 < s.len() {
                            match read_token(s, q3) {
                                Some((t2, q4)) => if t2 != kw_begin_data_format() && t2 != kw_begin_data() {
                                    Some((ts2.push(empty_table(t2)), q4))
                                } else {
                                    Some((ts2, q3))
                                },
                                None => Some((ts2, q3)),
                            }
                        } else {
                            Some((ts2, q3))
                        }
                    },
                }
            }
        } else {
            let q2 = skip_inline(s, q);
            if q2 < s.len() && !is_eol(s[q2]) {
                match read_token(s, q2) {
                    None => None,
                    Some((v, q3)) => Some(
                        (
                            with_last(
                                ts,
                                TableView { properties: props_insert(last.properties, t, v), ..last },
                            ),
                            q3,
                        ),
                    ),
                }
            } else {
                Some((ts, q2))
            }
        },
    }
}

/// The tables after reading every item from `p` to the end of the input.
pub open spec fn parse_items(s: Seq<char>, p: int, ts: Seq<TableView>) -> Option<Seq<TableView>>
    decreases s.len() - p,
{
    let p1 = skip_blank(s, p, false);
    if p1 >= s.len() {
        Some(ts)
    } else {
        match parse_item(s, p1, ts) {
            None => None,
            Some((ts2, q)) => if q <= p1 || q > s.len() {
                None
            } else {
                proof {
                    lemma_skip_blank_ge(s, p, false);
                }
                parse_items(s, q, ts2)
            },
        }
    }
}

/// What reading the text `s` gives: the first token is the first table's
/// sheet type, the items follow, and the first table is active.
pub open spec fn parse_it8(s: Seq<char>) -> Option<It8View> {
    let p = skip_blank(s, 0, false);
    let ts = if p < s.len() {
        match read_token(s, p) {
            None => None,
            Some((t, q)) => parse_items(s, q, seq![empty_table(t)]),
        }
    } else {
        Some(seq![empty_table(default_sheet())])
    };
    match ts {
        None => None,
        Some(ts) => Some(It8View { tables: ts, current: 0, dbl_format: default_dbl_format() }),
    }
}

proof fn lemma_read_row(s: Seq<char>, p: int, k: nat)
    requires
        0 <= p <= s.len(),
    ensures
        read_row(s, p, k) matches Some((vs, e)) ==> vs.len() == k && p <= e <= s.len() && (k > 0 ==> p < e),
    decreases k,
{
    if k > 0 {
        lemma_read_token(s, p);
        if let Some((v, q)) = read_token(s, p) {
            lemma_read_row(s, q, (k - 1) as nat);
        }
    }
}

/// Whether `t` holds the characters of the literal `lit`, by comparison of
/// character sequences.
fn is_word(t: &String, lit: &str) -> (r: bool)
    ensures
        r == (t@ == lit@),
{
    str_eq(t.as_str(), lit)
}

fn parse_format_x(s: &Vec<char>, p: usize, sid0: usize) -> (r: Result<(Vec<String>, usize, usize), ReadFailure>)
    requires
        p <= s@.len(),
    ensures
        match r {
            Ok((cols, sid, q)) => parse_format(s@, p as int, Seq::empty(), sid0 as nat) == Some(
                (strings_view(cols@), sid as nat, q as int),
            ) && p < q <= s@.len(),
            Err(_) => parse_format(s@, p as int, Seq::empty(), sid0 as nat) is None,
        },
{
    proof {
        reveal_strlit("END_DATA_FORMAT");
        reveal_strlit("SAMPLE_ID");
        assert("END_DATA_FORMAT"@ =~= kw_end_data_format());
        assert("SAMPLE_ID"@ =~= kw_sample_id());
    }
    let mut cols: Vec<String> = Vec::new();
    let mut sid = sid0;
    let mut i = p;
    assert(strings_view(cols@) =~= Seq::<Seq<char>>::empty());
    loop
        invariant
            p <= i <= s@.len(),
            parse_format(s@, p as int, Seq::empty(), sid0 as nat) == parse_format(
                s@,
                i as int,
                strings_view(cols@),
                sid as nat,
            ),
            "END_DATA_FORMAT"@ == kw_end_data_format(),
            "SAMPLE_ID"@ == kw_sample_id(),
        decreases s@.len() - i,
    {
        let p1 = skip_blank_x(s, i);
        if p1 >= s.len() {
            return Err(ReadFailure::EndInFormat(p1));
        }
        proof {
            lemma_read_token(s@, p1 as int);
        }
        let (t, q) = match read_token_x(s, p1) {
            Ok(x) => x,
            Err(e) => return Err(e),
        };
        if is_word(&t, "END_DATA_FORMAT") {
            return Ok((cols, sid, q));
        }
        if is_word(&t, "SAMPLE_ID") {
            sid = cols.len();
        }
        let ghost before = strings_view(cols@);
        cols.push(t);
        assert(strings_view(cols@) =~= before.push(t@));
        i = q;
    }
}

fn read_row_x(s: &Vec<char>, p: usize, n: usize) -> (r: Result<(Vec<String>, usize), ReadFailure>)
    requires
        p <= s@.len(),
    ensures
        match r {
            Ok((cells, q)) => read_row(s@, p as int, n as nat) == Some((strings_view(cells@), q as int))
                && p <= q <= s@.len(),
            Err(_) => read_row(s@, p as int, n as nat) is None,
        },
{
    let mut cells: Vec<String> = Vec::new();
    let mut i = p;
    let mut k: usize = 0;
    assert(strings_view(cells@) =~= Seq::<Seq<char>>::empty());
    while k < n
        invariant
            p <= i <= s@.len(),
            k <= n,
            read_row(s@, p as int, n as nat) == match read_row(s@, i as int, (n - k) as nat) {
                Some((vs, e)) => Some((strings_view(cells@) + vs, e)),
                None => None::<(Seq<Seq<char>>, int)>,
            },
        decreases n - k,
    {
        proof {
            lemma_read_token(s@, i as int);
        }
        let (v, q) = match read_token_x(s, i) {
            Ok(x) => x,
            Err(e) => return Err(e),
        };
        let ghost before = strings_view(cells@);
        cells.push(v);
        proof {
            assert(strings_view(cells@) =~= before.push(v@));
            if let Some((vs, e)) = read_row(s@, q as int, (n - k - 1) as nat) {
                assert(before + (seq![v@] + vs) =~= strings_view(cells@) + vs);
            }
        }
        i = q;
        k = k + 1;
    }
    assert(strings_view(cells@) + Seq::<Seq<char>>::empty() =~= strings_view(cells@));
    Ok((cells, i))
}

fn parse_rows_x(s: &Vec<char>, p: usize, n: usize) -> (r: Result<(Vec<String>, usize, usize), ReadFailure>)
    requires
        p <= s@.len(),
        n > 0,
    ensures
        match r {
            Ok((data, rows, q)) => parse_rows(s@, p as int, n as nat, Seq::empty(), 0) == Some(
                (strings_view(data@), rows as nat, q as int),
            ) && p < q <= s@.len(),
            Err(_) => parse_rows(s@, p as int, n as nat, Seq::empty(), 0) is None,
        },
{
    proof {
        reveal_strlit("END_DATA");
        assert("END_DATA"@ =~= kw_end_data());
    }
    let len = s.len();
    let mut data: Vec<String> = Vec::new();
    let mut rows: usize = 0;
    let mut i = p;
    assert(strings_view(data@) =~= Seq::<Seq<char>>::empty());
    loop
        invariant
            p <= i <= s@.len(),
            len == s@.len(),
            rows <= i,
            n > 0,
            parse_rows(s@, p as int, n as nat, Seq::empty(), 0) == parse_rows(
                s@,
                i as int,
                n as nat,
                strings_view(data@),
                rows as nat,
            ),
            "END_DATA"@ == kw_end_data(),
        decreases s@.len() - i,
    {
        let p1 = skip_blank_x(s, i);
        if p1 >= len {
            return Err(ReadFailure::EndInData(p1));
        }
        proof {
            lemma_read_token(s@, p1 as int);
        }
        match read_token_x(s, p1) {
            Ok((t, q)) => {
                if is_word(&t, "END_DATA") {
                    return Ok((data, rows, q));
                }
            },
            Err(_) => {},
        }
        proof {
            lemma_read_row(s@, p1 as int, n as nat);
        }
        let (mut cells, q) = match read_row_x(s, p1, n) {
            Ok(x) => x,
            Err(e) => return Err(e),
        };
        let q2 = skip_to_eol_x(s, q);
        let ghost before = strings_view(data@);
        let ghost added = strings_view(cells@);
        data.append(&mut cells);
        assert(strings_view(data@) =~= before + added);
        rows = rows + 1;
        i = q2;
    }
}

/// The views of a sequence of tables.
spec fn tables_view(v: Seq<Table>) -> Seq<TableView> {
    Seq::new(v.len(), |i: int| v[i].view())
}

spec fn all_wf(v: Seq<Table>) -> bool {
    forall|i: int| 0 <= i < v.len() ==> #[trigger] v[i].wf()
}

fn parse_item_x(s: &Vec<char>, p: usize, tables: &mut Vec<Table>) -> (r: Result<usize, ReadFailure>)
    requires
        p < s@.len(),
        old(tables)@.len() >= 1,
        all_wf(old(tables)@),
    ensures
        match r {
            Ok(q) => parse_item(s@, p as int, tables_view(old(tables)@)) == Some(
                (tables_view(final(tables)@), q as int),
            ) && p < q <= s@.len() && final(tables)@.len() >= 1 && all_wf(final(tables)@),
            Err(_) => parse_item(s@, p as int, tables_view(old(tables)@)) is None,
        },
{
    proof {
        reveal_strlit("BEGIN_DATA_FORMAT");
        reveal_strlit("BEGIN_DATA");
        assert("BEGIN_DATA_FORMAT"@ =~= kw_begin_data_format());
        assert("BEGIN_DATA"@ =~= kw_begin_data());
        lemma_read_token(s@, p as int);
    }
    let ghost ts = tables_view(tables@);
    let ghost old_tabs = tables@;
    let last = tables.len() - 1;
    assert(tables@[last as int].wf());
    assert(ts.last() == tables@[last as int].view());
    let (t, q) = match read_token_x(s, p) {
        Ok(x) => x,
        Err(e) => return Err(e),
    };
    if is_word(&t, "BEGIN_DATA_FORMAT") {
        let sid0 = tables[last].sample_id_col;
        let (cols, sid, q2) = match parse_format_x(s, q, sid0) {
            Ok(x) => x,
            Err(e) => return Err(e),
        };
        tables[last].data_format = cols;
        tables[last].sample_id_col = sid;
        proof {
            assert(tables@[last as int].view().properties =~= ts.last().properties);
            lemma_tables_wf(old_tabs, tables@, last as int);
            assert(tables_view(tables@) =~= with_last(
                ts,
                TableView { data_format: strings_view(cols@), sample_id_col: sid as nat, ..ts.last() },
            ));
        }
        return Ok(q2);
    }
    if is_word(&t, "BEGIN_DATA") {
        let n = tables[last].data_format.len();
        if n == 0 {
            return Err(ReadFailure::DataWithoutFormat(q));
        }
        let (d, rows, q2) = match parse_rows_x(s, q, n) {
            Ok(x) => x,
            Err(e) => return Err(e),
        };
        tables[last].data = d;
        tables[last].n_rows = rows;
        let ghost ts2 = with_last(ts, TableView { data: strings_view(d@), n_rows: rows as nat, ..ts.last() });
        proof {
            assert(tables@[last as int].view().properties =~= ts.last().properties);
            lemma_tables_wf(old_tabs, tables@, last as int);
            assert(tables_view(tables@) =~= ts2);
        }
        let q3 = skip_blank_x(s, q2);
        if q3 < s.len() {
            match read_token_x(s, q3) {
                Ok((t2, q4)) => {
                    if !is_word(&t2, "BEGIN_DATA_FORMAT") && !is_word(&t2, "BEGIN_DATA") {
                        let mut nt = Table::new();
                        nt.sheet_type = t2;
                        assert(nt.view() == empty_table(t2@)) by {
                            assert(nt.view().properties =~= Seq::<(Seq<char>, Seq<char>)>::empty());
                        }
                        let ghost before = tables@;
                        tables.push(nt);
                        proof {
                            lemma_read_token(s@, q3 as int);
                            assert(tables_view(tables@) =~= ts2.push(empty_table(t2@)));
                            assert forall|i: int| 0 <= i < tables@.len() implies #[trigger] tables@[i].wf() by {
                                if i < before.len() {
                                    assert(before[i].wf());
                                }
                            }
                        }
                        return Ok(q4);
                    }
                },
                Err(_) => {},
            }
        }
        return Ok(q3);
    }
    let q2 = skip_inline_x(s, q);
    if q2 < s.len() && !(s[q2] == '\n' || s[q2] == '\r') {
        proof {
            lemma_read_token(s@, q2 as int);
        }
        let (v, q3) = match read_token_x(s, q2) {
            Ok(x) => x,
            Err(e) => return Err(e),
        };
        tables[last].set_prop(t.as_str(), v.as_str());
        proof {
            lemma_tables_wf(old_tabs, tables@, last as int);
            assert(tables_view(tables@) =~= with_last(
                ts,
                TableView { properties: props_insert(ts.last().properties, t@, v@), ..ts.last() },
            ));
        }
        return Ok(q3);
    }
    assert(tables_view(tables@) =~= ts);
    Ok(q2)
}

fn parse_items_x(s: &Vec<char>, p: usize, tables: &mut Vec<Table>) -> (r: Result<(), ReadFailure>)
    requires
        p <= s@.len(),
        old(tables)@.len() >= 1,
        all_wf(old(tables)@),
    ensures
        match r {
            Ok(_) => parse_items(s@, p as int, tables_view(old(tables)@)) == Some(
                tables_view(final(tables)@),
            ) && final(tables)@.len() >= 1 && all_wf(final(tables)@),
            Err(_) => parse_items(s@, p as int, tables_view(old(tables)@)) is None,
        },
{
    let mut i = p;
    loop
        invariant
            p <= i <= s@.len(),
            tables@.len() >= 1,
            all_wf(tables@),
            parse_items(s@, p as int, tables_view(old(tables)@)) == parse_items(
                s@,
                i as int,
                tables_view(tables@),
            ),
        decreases s@.len() - i,
    {
        let p1 = skip_blank_x(s, i);
        if p1 >= s.len() {
            return Ok(());
        }
        let q = match parse_item_x(s, p1, tables) {
            Ok(q) => q,
            Err(e) => return Err(e),
        };
        i = q;
    }
}

/// Reads IT8 text: `Ok` exactly when the text reads (see `parse_it8`), and
/// then the object is what it reads as.
fn parse_text(s: &Vec<char>) -> (r: Result<It8, ReadFailure>)
    ensures
        match r {
            Ok(it) => parse_it8(s@) == Some(it@) && it.wf(),
            Err(_) => parse_it8(s@) is None,
        },
{
    let mut it = It8::new();
    let p = skip_blank_x(s, 0);
    if p < s.len() {
        let (t, q) = match read_token_x(s, p) {
            Ok(x) => x,
            Err(e) => return Err(e),
        };
        proof {
            lemma_read_token(s@, p as int);
        }
        assert(it@.tables.len() == 1);
        assert(it@.tables.len() == it.tables@.len());
        assert(it@.tables[0] == it.tables@[0].view());
        assert(it.tables@[0].wf());
        assert(it.tables@[0].view().properties.len() == 0);
        it.tables[0].sheet_type = t;
        proof {
            assert(it.tables@[0].view().properties =~= Seq::<(Seq<char>, Seq<char>)>::empty());
            assert(tables_view(it.tables@) =~= seq![empty_table(t@)]);
            assert(all_wf(it.tables@));
        }
        match parse_items_x(s, q, &mut it.tables) {
            Ok(_) => {},
            Err(e) => return Err(e),
        }
    }
    proof {
        assert(tables_view(it.tables@) =~= it@.tables);
    }
    Ok(it)
}

/// The line breaks among the first `k` characters of `s`.
pub open spec fn newlines_before(s: Seq<char>, k: int) -> nat
    decreases k,
{
    if k <= 0 {
        0
    } else {
        newlines_before(s, k - 1) + if s[k - 1] == '\n' {
            1nat
        } else {
            0nat
        }
    }
}

/// The line (counting from 1) of position `pos` in `s`: one more than the
/// line breaks before it (or before the end), kept within 64 bits.
pub open spec fn line_of(s: Seq<char>, pos: int) -> u64 {
    let k = if pos < s.len() {
        pos
    } else {
        s.len() as int
    };
    let c = 1 + newlines_before(s, k);
    if c > u64::MAX {
        u64::MAX
    } else {
        c as u64
    }
}

/// The decimal digit character of `d` (below 10).
pub open spec fn digit_char(d: nat) -> char {
    (0x30 + d) as char
}

/// The decimal digits of `n`, without leading zeros ("0" for zero).
pub open spec fn decimal_text(n: nat) -> Seq<char>
    decreases n,
{
    if n < 10 {
        seq![digit_char(n)]
    } else {
        decimal_text(n / 10).push(digit_char(n % 10))
    }
}

/// The position a reading failure is reported at.
pub open spec fn failure_pos(f: ReadFailure) -> usize {
    match f {
        ReadFailure::UnexpectedEnd(p) => p,
        ReadFailure::UnexpectedChar(_, p) => p,
        ReadFailure::Unterminated(p) => p,
        ReadFailure::EndInFormat(p) => p,
        ReadFailure::DataWithoutFormat(p) => p,
        ReadFailure::EndInData(p) => p,
    }
}

/// What went wrong, in words.
pub open spec fn failure_what(f: ReadFailure) -> Seq<char> {
    match f {
        ReadFailure::UnexpectedEnd(_) => "unexpected end of input"@,
        ReadFailure::UnexpectedChar(c, _) => "unexpected character '"@ + seq![c, '\''],
        ReadFailure::Unterminated(_) => "unterminated string"@,
        ReadFailure::EndInFormat(_) => "unexpected EOF in DATA_FORMAT"@,
        ReadFailure::DataWithoutFormat(_) => "BEGIN_DATA without data format"@,
        ReadFailure::EndInData(_) => "unexpected EOF in DATA"@,
    }
}

/// The message of a reading failure in text `s`: "line N: " and what went
/// wrong.
pub open spec fn failure_text(s: Seq<char>, f: ReadFailure) -> Seq<char> {
    "line "@ + decimal_text(line_of(s, failure_pos(f) as int) as nat) + ": "@ + failure_what(f)
}

/// The line (counting from 1) of position `pos` in the text: one more than
/// the line breaks before it.
fn line_at(s: &Vec<char>, pos: usize) -> (r: u64)
    ensures
        r == line_of(s@, pos as int),
{
    let mut n: u64 = 1;
    let mut i: usize = 0;
    while i < pos && i < s.len()
        invariant
            i <= s@.len(),
            i <= pos,
            n == (if 1 + newlines_before(s@, i as int) > u64::MAX {
                u64::MAX as int
            } else {
                1 + newlines_before(s@, i as int) as int
            }),
        decreases s@.len() - i,
    {
        if s[i] == '\n' && n < u64::MAX {
            n = n + 1;
        }
        i = i + 1;
    }
    n
}

/// Append the decimal digits of `n`.
fn push_decimal(out: &mut String, n: u64)
    ensures
        final(out)@ == old(out)@ + decimal_text(n as nat),
    decreases n,
{
    if n >= 10 {
        push_decimal(out, n / 10);
    }
    let d = (n % 10) as u32;
    let c = match char_from_u32(0x30 + d) {
        Some(c) => c,
        None => {
            assert(false);
            '0'
        },
    };
    proof {
        lemma_char_cast(c, (0x30 + d) as u32);
        assert(c == digit_char((n % 10) as nat));
    }
    let ghost before = out@;
    string_push(out, c);
    proof {
        if n >= 10 {
            assert(out@ =~= old(out)@ + decimal_text(n as nat));
        } else {
            assert(out@ =~= old(out)@ + decimal_text(n as nat));
        }
    }
}

/// Append the characters of `text`.
fn push_text(out: &mut String, text: &str)
    ensures
        final(out)@ == old(out)@ + text@,
{
    let ghost start = out@;
    for c in iter: text.chars()
        invariant
            iter.seq() == text@,
            out@ == start + text@.take(iter.index()),
    {
        string_push(out, c);
        assert(out@ =~= start + text@.take(iter.index() + 1));
    }
    assert(text@.take(text@.len() as int) =~= text@);
}

/// The message for a reading failure: its line and what went wrong.
fn failure_message(s: &Vec<char>, f: ReadFailure) -> (r: String)
    ensures
        r@ == failure_text(s@, f),
{
    let pos = match f {
        ReadFailure::UnexpectedEnd(p) => p,
        ReadFailure::UnexpectedChar(_, p) => p,
        ReadFailure::Unterminated(p) => p,
        ReadFailure::EndInFormat(p) => p,
        ReadFailure::DataWithoutFormat(p) => p,
        ReadFailure::EndInData(p) => p,
    };
    let mut m = String::new();
    push_text(&mut m, "line ");
    push_decimal(&mut m, line_at(s, pos));
    push_text(&mut m, ": ");
    let ghost head = m@;
    match f {
        ReadFailure::UnexpectedEnd(_) => push_text(&mut m, "unexpected end of input"),
        ReadFailure::UnexpectedChar(c, _) => {
            push_text(&mut m, "unexpected character '");
            string_push(&mut m, c);
            string_push(&mut m, '\'');
        },
        ReadFailure::Unterminated(_) => push_text(&mut m, "unterminated string"),
        ReadFailure::EndInFormat(_) => push_text(&mut m, "unexpected EOF in DATA_FORMAT"),
        ReadFailure::DataWithoutFormat(_) => push_text(&mut m, "BEGIN_DATA without data format"),
        ReadFailure::EndInData(_) => push_text(&mut m, "unexpected EOF in DATA"),
    }
    assert(m@ =~= head + failure_what(f));
    assert(m@ =~= failure_text(s@, f));
    m
}

impl It8 {
    /// Reads IT8 / CGATS text. Fails, with a corruption error, exactly when
    /// the text does not read (see `parse_it8`); otherwise the object holds
    /// what it reads as, with the first table active.
    pub fn load_from_str(text: &str) -> (r: Result<It8, CmsError>)
        ensures
            match r {
                Ok(it) => parse_it8(text@) == Some(it@) && it.wf(),
                Err(e) => parse_it8(text@) is None && e.code == ErrorCode::CorruptionDetected,
            },
    {
        let s = str_to_chars(text);
        match parse_text(&s) {
            Ok(it) => Ok(it),
            Err(f) => Err(CmsError { code: ErrorCode::CorruptionDetected, message: failure_message(&s, f) }),
        }
    }
}

// ---------------------------------------------------------------------------
// Writing
// ---------------------------------------------------------------------------

/// Backslash and double quote preceded by a backslash; other characters as they are.
pub open spec fn escape(v: Seq<char>) -> Seq<char>
    decreases v.len(),
{
    if v.len() == 0 {
        Seq::empty()
    } else {
        escape(v.drop_last()) + if v.last() == '\\' || v.last() == '"' {
            seq!['\\', v.last()]
        } else {
            seq![v.last()]
        }
    }
}

/// `v` escaped and between double quotes.
pub open spec fn quote_string(v: Seq<char>) -> Seq<char> {
    seq!['"'] + escape(v) + seq!['"']
}

/// White space in the Unicode sense (`char::is_whitespace`, which on ASCII
/// holds of tab through carriage return and space only).
pub open spec fn is_white(c: char) -> bool {
    if (c as u32) < 128 {
        is_ascii_white(c)
    } else {
        spec_is_whitespace(c)
    }
}

/// Whether a cell must be quoted: it holds white space, a quote or a backslash.
pub open spec fn needs_quote(v: Seq<char>) -> bool {
    exists|i: int| 0 <= i < v.len() && (is_white(#[trigger] v[i]) || v[i] == '"' || v[i] == '\\')
}

/// A cell as written: quoted when it must be.
pub open spec fn quote_cell(v: Seq<char>) -> Seq<char> {
    if needs_quote(v) {
        quote_string(v)
    } else {
        v
    }
}

/// An ASCII decimal digit.
pub open spec fn is_digit(c: char) -> bool {
    '0' <= c <= '9'
}

/// ASCII upper-case letters mapped to lower case.
pub open spec fn ascii_lower(c: char) -> char {
    if 'A' <= c <= 'Z' {
        ((c as u32) + 32) as char
    } else {
        c
    }
}

/// End of the run of digits from `i`.
pub open spec fn digits_end(v: Seq<char>, i: int) -> int
    decreases v.len() - i,
{
    if 0 <= i < v.len() && is_digit(v[i]) {
        digits_end(v, i + 1)
    } else {
        i
    }
}

/// Whether `v`, read with ASCII letters in lower case, equals the lower-case word `w`.
pub open spec fn eq_lower(v: Seq<char>, w: Seq<char>) -> bool {
    v.len() == w.len() && forall|i: int| 0 <= i < v.len() ==> ascii_lower(#[trigger] v[i]) == w[i]
}

/// A decimal number: digits with an optional point and fraction (at least
/// one digit in all), then an optional exponent `e` or `E`, sign, digits.
pub open spec fn is_decimal(v: Seq<char>) -> bool {
    let i1 = digits_end(v, 0);
    let has_point = i1 < v.len() && v[i1] == '.';
    let i2 = if has_point {
        digits_end(v, i1 + 1)
    } else {
        i1
    };
    let n_digits = if has_point {
        i1 + (i2 - i1 - 1)
    } else {
        i1
    };
    &&& n_digits > 0
    &&& (i2 == v.len() || (ascii_lower(v[i2]) == 'e' && {
        let j = if i2 + 1 < v.len() && (v[i2 + 1] == '+' || v[i2 + 1] == '-') {
            i2 + 2
        } else {
            i2 + 1
        };
        let k = digits_end(v, j);
        k > j && k == v.len()
    }))
}

/// Whether the standard library reads `v` as a floating-point number: an
/// optional sign, then "inf", "infinity" or "nan" in any case, or a decimal number.
pub open spec fn is_float_literal(v: Seq<char>) -> bool {
    let b = if v.len() > 0 && (v[0] == '+' || v[0] == '-') {
        v.skip(1)
    } else {
        v
    };
    ||| eq_lower(b, seq!['i', 'n', 'f'])
    ||| eq_lower(b, seq!['i', 'n', 'f', 'i', 'n', 'i', 't', 'y'])
    ||| eq_lower(b, seq!['n', 'a', 'n'])
    ||| is_decimal(b)
}

/// A property line: key, tab, the value (quoted unless it is a number), line feed.
pub open spec fn prop_line(kv: (Seq<char>, Seq<char>)) -> Seq<char> {
    kv.0 + seq!['\t'] + (if is_float_literal(kv.1) {
        kv.1
    } else {
        quote_string(kv.1)
    }) + seq!['\n']
}

/// The lines of a table's properties.
pub open spec fn props_text(p: Seq<(Seq<char>, Seq<char>)>) -> Seq<char>
    decreases p.len(),
{
    if p.len() == 0 {
        Seq::empty()
    } else {
        props_text(p.drop_last()) + prop_line(p.last())
    }
}

/// The items of `v` separated by tabs.
pub open spec fn join_tab(v: Seq<Seq<char>>) -> Seq<char>
    decreases v.len(),
{
    if v.len() == 0 {
        Seq::empty()
    } else if v.len() == 1 {
        v[0]
    } else {
        join_tab(v.drop_last()) + seq!['\t'] + v.last()
    }
}

/// The cells of row `r`.
pub open spec fn row_cells(t: TableView, r: int) -> Seq<Seq<char>> {
    let n = t.data_format.len() as int;
    t.data.subrange(r * n, r * n + n)
}

/// The lines of a table's first `k` data rows.
pub open spec fn rows_text(t: TableView, k: nat) -> Seq<char>
    decreases k,
{
    if k == 0 {
        Seq::empty()
    } else {
        rows_text(t, (k - 1) as nat) + join_tab(row_cells(t, k - 1).map_values(|c: Seq<char>| quote_cell(c)))
            + seq!['\n']
    }
}

/// Whether the table has a data section to write.
pub open spec fn has_data(t: TableView) -> bool {
    t.data_format.len() > 0 && t.n_rows > 0
}

/// Whether every row to be written is stored.
pub open spec fn writable(t: TableView) -> bool {
    has_data(t) ==> t.n_rows * t.data_format.len() <= t.data.len()
}

/// The text of one table.
pub open spec fn table_text(t: TableView) -> Seq<char> {
    t.sheet_type + seq!['\n'] + props_text(t.properties) + (if t.data_format.len() > 0 {
        kw_begin_data_format() + seq!['\n'] + join_tab(t.data_format) + seq!['\n'] + kw_end_data_format()
            + seq!['\n']
    } else {
        Seq::empty()
    }) + (if has_data(t) {
        kw_begin_data() + seq!['\n'] + rows_text(t, t.n_rows) + kw_end_data() + seq!['\n']
    } else {
        Seq::empty()
    })
}

/// The text of all tables, separated by empty lines.
pub open spec fn tables_text(ts: Seq<TableView>) -> Seq<char>
    decreases ts.len(),
{
    if ts.len() == 0 {
        Seq::empty()
    } else if ts.len() == 1 {
        table_text(ts[0])
    } else {
        tables_text(ts.drop_last()) + seq!['\n'] + table_text(ts.last())
    }
}

fn append_escaped(out: &mut String, v: &str)
    ensures
        final(out)@ == old(out)@ + escape(v@),
{
    let cs = str_to_chars(v);
    let ghost start = out@;
    let mut i: usize = 0;
    assert(cs@.subrange(0, 0) =~= Seq::<char>::empty());
    while i < cs.len()
        invariant
            i <= cs@.len(),
            cs@ == v@,
            out@ == start + escape(cs@.subrange(0, i as int)),
        decreases cs@.len() - i,
    {
        let c = cs[i];
        assert(cs@.subrange(0, i + 1).drop_last() =~= cs@.subrange(0, i as int));
        if c == '\\' || c == '"' {
            string_push(out, '\\');
        }
        string_push(out, c);
        i = i + 1;
        assert(out@ =~= start + escape(cs@.subrange(0, i as int)));
    }
    assert(cs@.subrange(0, cs@.len() as int) =~= cs@);
}

fn append_quoted(out: &mut String, v: &str)
    ensures
        final(out)@ == old(out)@ + quote_string(v@),
{
    let ghost start = out@;
    string_push(out, '"');
    append_escaped(out, v);
    string_push(out, '"');
    assert(out@ =~= start + quote_string(v@));
}

fn needs_quote_x(v: &str) -> (r: bool)
    ensures
        r == needs_quote(v@),
{
    let cs = str_to_chars(v);
    let mut i: usize = 0;
    while i < cs.len()
        invariant
            i <= cs@.len(),
            cs@ == v@,
            forall|j: int| 0 <= j < i ==> !(is_white(#[trigger] cs@[j]) || cs@[j] == '"' || cs@[j] == '\\'),
        decreases cs@.len() - i,
    {
        let c = cs[i];
        if char_is_whitespace(c) || c == '"' || c == '\\' {
            return true;
        }
        i = i + 1;
    }
    false
}

fn digits_end_x(v: &Vec<char>, i: usize) -> (r: usize)
    requires
        i <= v@.len(),
    ensures
        r == digits_end(v@, i as int),
        i <= r <= v@.len(),
{
    let mut k = i;
    while k < v.len() && '0' <= v[k] && v[k] <= '9'
        invariant
            i <= k <= v@.len(),
            digits_end(v@, i as int) == digits_end(v@, k as int),
        decreases v@.len() - k,
    {
        k = k + 1;
    }
    k
}

fn ascii_lower_x(c: char) -> (r: char)
    ensures
        r == ascii_lower(c),
{
    if 'A' <= c && c <= 'Z' {
        let code = char_code(c);
        let lc: u32 = code + 32;
        match char_from_u32(lc) {
            Some(l) => {
                proof {
                    lemma_char_cast(l, lc);
                }
                l
            },
            None => c,
        }
    } else {
        c
    }
}

fn eq_lower_x(v: &Vec<char>, from: usize, w: &str) -> (r: bool)
    requires
        from <= v@.len(),
    ensures
        r == eq_lower(v@.skip(from as int), w@),
{
    let ws = str_to_chars(w);
    let vl = v.len();
    if vl - from != ws.len() {
        return false;
    }
    let mut i: usize = 0;
    while i < ws.len()
        invariant
            i <= ws@.len(),
            ws@ == w@,
            vl == v@.len(),
            from <= v@.len(),
            v@.len() - from == ws@.len(),
            forall|j: int| 0 <= j < i ==> ascii_lower(#[trigger] v@.skip(from as int)[j]) == ws@[j],
        decreases ws@.len() - i,
    {
        if ascii_lower_x(v[from + i]) != ws[i] {
            assert(v@.skip(from as int)[i as int] == v@[from + i]);
            return false;
        }
        i = i + 1;
    }
    true
}

fn is_decimal_x(v: &Vec<char>, from: usize) -> (r: bool)
    requires
        from <= v@.len(),
    ensures
        r == is_decimal(v@.skip(from as int)),
{
    let ghost b = v@.skip(from as int);
    let cs = string_from_chars(v, from, v.len());
    let b2 = str_to_chars(cs.as_str());
    assert(b2@ =~= b);
    let len = b2.len();
    let i1 = digits_end_x(&b2, 0);
    let has_point = i1 < len && b2[i1] == '.';
    let i2 = if has_point {
        digits_end_x(&b2, i1 + 1)
    } else {
        i1
    };
    let some_digits = if has_point {
        i1 > 0 || i2 > i1 + 1
    } else {
        i1 > 0
    };
    if !some_digits {
        return false;
    }
    if i2 == len {
        return true;
    }
    if ascii_lower_x(b2[i2]) != 'e' {
        return false;
    }
    let j = if i2 + 1 < len && (b2[i2 + 1] == '+' || b2[i2 + 1] == '-') {
        i2 + 2
    } else {
        i2 + 1
    };
    let k = digits_end_x(&b2, j);
    k > j && k == len
}

/// Whether `v` reads as a floating-point number (see `is_float_literal`).
fn is_float_literal_x(v: &str) -> (r: bool)
    ensures
        r == is_float_literal(v@),
{
    let cs = str_to_chars(v);
    let from: usize = if cs.len() > 0 && (cs[0] == '+' || cs[0] == '-') {
        1
    } else {
        0
    };
    proof {
        reveal_strlit("inf");
        reveal_strlit("infinity");
        reveal_strlit("nan");
        assert(cs@.skip(0) =~= cs@);
    }
    let a = eq_lower_x(&cs, from, "inf");
    let b = eq_lower_x(&cs, from, "infinity");
    let c = eq_lower_x(&cs, from, "nan");
    let d = is_decimal_x(&cs, from);
    assert("inf"@ =~= seq!['i', 'n', 'f']);
    assert("infinity"@ =~= seq!['i', 'n', 'f', 'i', 'n', 'i', 't', 'y']);
    assert("nan"@ =~= seq!['n', 'a', 'n']);
    a || b || c || d
}

fn append_cell(out: &mut String, v: &str)
    ensures
        final(out)@ == old(out)@ + quote_cell(v@),
{
    if needs_quote_x(v) {
        append_quoted(out, v);
    } else {
        out.append(v);
    }
}

proof fn lemma_join_step(v: Seq<Seq<char>>, i: int)
    requires
        0 <= i < v.len(),
    ensures
        join_tab(v.take(i + 1)) == if i == 0 {
            v[0]
        } else {
            join_tab(v.take(i)) + seq!['\t'] + v[i]
        },
{
    assert(v.take(i + 1).drop_last() =~= v.take(i));
}

/// Appends cells `start .. start + n` of `data`, each as written, separated by tabs.
fn append_row(out: &mut String, data: &Vec<String>, start: usize, n: usize)
    requires
        start + n <= data@.len(),
    ensures
        final(out)@ == old(out)@ + join_tab(
            strings_view(data@).subrange(start as int, start + n).map_values(|c: Seq<char>| quote_cell(c)),
        ),
{
    let ghost cells = strings_view(data@).subrange(start as int, start + n).map_values(
        |c: Seq<char>| quote_cell(c),
    );
    let ghost o = out@;
    let dl = data.len();
    let mut i: usize = 0;
    assert(cells.take(0) =~= Seq::<Seq<char>>::empty());
    while i < n
        invariant
            i <= n,
            dl == data@.len(),
            start + n <= data@.len(),
            cells == strings_view(data@).subrange(start as int, start + n).map_values(
                |c: Seq<char>| quote_cell(c),
            ),
            out@ == o + join_tab(cells.take(i as int)),
        decreases n - i,
    {
        proof {
            lemma_join_step(cells, i as int);
        }
        let ghost before = out@;
        if i > 0 {
            string_push(out, '\t');
        }
        append_cell(out, data[start + i].as_str());
        assert(cells[i as int] == quote_cell(data@[start + i]@));
        assert(out@ =~= o + join_tab(cells.take(i + 1)));
        i = i + 1;
    }
    assert(cells.take(n as int) =~= cells);
}

/// Appends the items of `v` separated by tabs.
fn append_joined(out: &mut String, v: &Vec<String>)
    ensures
        final(out)@ == old(out)@ + join_tab(strings_view(v@)),
{
    let ghost items = strings_view(v@);
    let ghost o = out@;
    let mut i: usize = 0;
    assert(items.take(0) =~= Seq::<Seq<char>>::empty());
    while i < v.len()
        invariant
            i <= v@.len(),
            items == strings_view(v@),
            out@ == o + join_tab(items.take(i as int)),
        decreases v@.len() - i,
    {
        proof {
            lemma_join_step(items, i as int);
        }
        if i > 0 {
            string_push(out, '\t');
        }
        out.append(v[i].as_str());
        assert(out@ =~= o + join_tab(items.take(i + 1)));
        i = i + 1;
    }
    assert(items.take(v@.len() as int) =~= items);
}

impl Table {
    fn write_to(&self, out: &mut String)
        requires
            self.wf(),
            writable(self.view()),
        ensures
            final(out)@ == old(out)@ + table_text(self.view()),
    {
        let ghost t = self.view();
        let ghost o = out@;
        out.append(self.sheet_type.as_str());
        string_push(out, '\n');
        let ghost o2 = out@;
        let mut i: usize = 0;
        assert(t.properties.take(0) =~= Seq::<(Seq<char>, Seq<char>)>::empty());
        while i < self.prop_keys.len()
            invariant
                self.wf(),
                t == self.view(),
                i <= self.prop_keys@.len(),
                out@ == o2 + props_text(t.properties.take(i as int)),
            decreases self.prop_keys@.len() - i,
        {
            let ghost before = out@;
            let key = self.prop_keys[i].as_str();
            let value = self.prop_values[i].as_str();
            out.append(key);
            string_push(out, '\t');
            if is_float_literal_x(value) {
                out.append(value);
            } else {
                append_quoted(out, value);
            }
            string_push(out, '\n');
            assert(t.properties.take(i + 1).drop_last() =~= t.properties.take(i as int));
            assert(t.properties[i as int] == (key@, value@));
            assert(out@ =~= o2 + props_text(t.properties.take(i + 1)));
            i = i + 1;
        }
        assert(t.properties.take(self.prop_keys@.len() as int) =~= t.properties);
        let ghost o3 = out@;
        if self.data_format.len() > 0 {
            out.append("BEGIN_DATA_FORMAT\n");
            append_joined(out, &self.data_format);
            out.append("\nEND_DATA_FORMAT\n");
            proof {
                reveal_strlit("BEGIN_DATA_FORMAT\n");
                reveal_strlit("\nEND_DATA_FORMAT\n");
                assert(out@ =~= o3 + (kw_begin_data_format() + seq!['\n'] + join_tab(t.data_format)
                    + seq!['\n'] + kw_end_data_format() + seq!['\n']));
            }
        }
        let ghost o4 = out@;
        let n = self.data_format.len();
        if n > 0 && self.n_rows > 0 {
            out.append("BEGIN_DATA\n");
            let ghost o5 = out@;
            let dl = self.data.len();
            let mut r: usize = 0;
            while r < self.n_rows
                invariant
                    dl == self.data@.len(),
                    t == self.view(),
                    n == t.data_format.len(),
                    n > 0,
                    writable(t),
                    r <= self.n_rows,
                    out@ == o5 + rows_text(t, r as nat),
                decreases self.n_rows - r,
            {
                assert(r * n + n <= self.n_rows * n) by (nonlinear_arith)
                    requires
                        r < self.n_rows,
                {
                }
                assert(r * n + n <= self.data@.len());
                let start = r * n;
                append_row(out, &self.data, start, n);
                string_push(out, '\n');
                proof {
                    assert(strings_view(self.data@).subrange(start as int, start + n) =~= row_cells(t, r as int));
                }
                assert(out@ =~= o5 + rows_text(t, (r + 1) as nat));
                r = r + 1;
            }
            out.append("END_DATA\n");
            proof {
                reveal_strlit("BEGIN_DATA\n");
                reveal_strlit("END_DATA\n");
                assert(out@ =~= o4 + (kw_begin_data() + seq!['\n'] + rows_text(t, t.n_rows) + kw_end_data()
                    + seq!['\n']));
            }
        }
        assert(out@ =~= o + table_text(t));
    }
}

impl It8 {
    /// Whether every table's rows to be written are all stored.
    pub open spec fn can_write(v: It8View) -> bool {
        forall|i: int| 0 <= i < v.tables.len() ==> writable(#[trigger] v.tables[i])
    }

    /// Whether `save_to_string` may be called: every table's rows are stored.
    pub fn is_writable(&self) -> (r: bool)
        requires
            self.wf(),
        ensures
            r == It8::can_write(self@),
    {
        let mut i: usize = 0;
        while i < self.tables.len()
            invariant
                i <= self.tables@.len(),
                forall|j: int| 0 <= j < i ==> writable(#[trigger] self@.tables[j]),
            decreases self.tables@.len() - i,
        {
            let t = &self.tables[i];
            let n = t.data_format.len();
            let dl = t.data.len();
            if n > 0 && t.n_rows > 0 {
                match t.n_rows.checked_mul(n) {
                    None => {
                        assert(self@.tables[i as int] == t.view());
                        return false;
                    },
                    Some(m) => {
                        if m > t.data.len() {
                            assert(self@.tables[i as int] == t.view());
                            return false;
                        }
                    },
                }
            }
            assert(self@.tables[i as int] == t.view());
            i = i + 1;
        }
        true
    }

    /// The CGATS text of all tables (see `tables_text`).
    pub fn save_to_string(&self) -> (r: String)
        requires
            self.wf(),
            It8::can_write(self@),
        ensures
            r@ == tables_text(self@.tables),
    {
        let ghost ts = self@.tables;
        let mut out = String::new();
        let mut i: usize = 0;
        assert(ts.take(0) =~= Seq::<TableView>::empty());
        while i < self.tables.len()
            invariant
                self.wf(),
                It8::can_write(self@),
                ts == self@.tables,
                i <= self.tables@.len(),
                out@ == tables_text(ts.take(i as int)),
            decreases self.tables@.len() - i,
        {
            assert(self.tables@[i as int].wf());
            assert(ts[i as int] == self.tables@[i as int].view());
            assert(writable(ts[i as int]));
            if i > 0 {
                string_push(&mut out, '\n');
            }
            self.tables[i].write_to(&mut out);
            assert(ts.take(i + 1).drop_last() =~= ts.take(i as int));
            assert(out@ =~= tables_text(ts.take(i + 1)));
            i = i + 1;
        }
        assert(ts.take(self.tables@.len() as int) =~= ts);
        out
    }
}
} // verus!
