//! Reading back what was written: the text of a set of tables reads as the
//! same tables, for tables whose names and cells survive the text form.
use vstd::prelude::*;
use crate::cgats::{
    TableView, It8View, is_token_char, is_digit, ascii_lower, digits_end, eq_lower, is_decimal, is_blank, is_eol, skip_blank, skip_inline, skip_to_eol,
    token_end, quoted, read_token, escape, quote_string, needs_quote, quote_cell, is_float_literal,
    prop_line, props_text, join_tab, row_cells, rows_text, has_data, writable, table_text, tables_text,
    kw_begin_data_format, kw_end_data_format, kw_begin_data, kw_end_data, kw_sample_id,
    parse_format, read_row, at_end_data, parse_rows, with_last, parse_item, parse_items, parse_it8,
    empty_table, default_dbl_format, props_sorted, props_insert, props_get, seq_less, insert_pos,
    cell_at, table_set_cell, lemma_props_insert,
};

verus! {

/// A non-empty run of token characters: written bare, it reads back as itself.
pub open spec fn bare_token(v: Seq<char>) -> bool {
    v.len() > 0 && forall|i: int| 0 <= i < v.len() ==> is_token_char(#[trigger] v[i])
}

/// `s` holds `x` from position `o` on.
pub open spec fn holds_at(s: Seq<char>, o: int, x: Seq<char>) -> bool {
    0 <= o && o + x.len() <= s.len() && s.subrange(o, o + x.len()) == x
}

proof fn lemma_holds_split(s: Seq<char>, o: int, a: Seq<char>, b: Seq<char>)
    requires
        holds_at(s, o, a + b),
    ensures
        holds_at(s, o, a),
        holds_at(s, o + a.len(), b),
{
    assert(s.subrange(o, o + a.len()) =~= (a + b).subrange(0, a.len() as int));
    assert((a + b).subrange(0, a.len() as int) =~= a);
    assert(s.subrange(o + a.len(), o + a.len() + b.len()) =~= b) by {
        assert forall|i: int| 0 <= i < b.len() implies s.subrange(o + a.len(), o + a.len() + b.len())[i]
            == b[i] by {
            assert(s.subrange(o, o + (a + b).len())[a.len() + i] == (a + b)[a.len() + i]);
        }
    }
}

proof fn lemma_holds_char(s: Seq<char>, o: int, x: Seq<char>, i: int)
    requires
        holds_at(s, o, x),
        0 <= i < x.len(),
    ensures
        s[o + i] == x[i],
{
    assert(s.subrange(o, o + x.len())[i] == x[i]);
}

proof fn lemma_token_end_run(s: Seq<char>, p: int, k: int)
    requires
        0 <= p,
        0 <= k,
        p + k <= s.len(),
        forall|i: int| p <= i < p + k ==> is_token_char(#[trigger] s[i]),
        p + k == s.len() || !is_token_char(s[p + k]),
    ensures
        token_end(s, p) == p + k,
    decreases k,
{
    if k > 0 {
        lemma_token_end_run(s, p + 1, k - 1);
    }
}

/// A bare token followed by a character that cannot continue it reads as itself.
proof fn lemma_read_bare(s: Seq<char>, p: int, v: Seq<char>)
    requires
        holds_at(s, p, v),
        bare_token(v),
        p + v.len() == s.len() || !is_token_char(s[p + v.len()]),
    ensures
        read_token(s, p) == Some((v, p + v.len())),
{
    lemma_holds_char(s, p, v, 0);
    assert forall|i: int| p <= i < p + v.len() implies is_token_char(#[trigger] s[i]) by {
        lemma_holds_char(s, p, v, i - p);
    }
    lemma_token_end_run(s, p, v.len() as int);
    assert(skip_inline(s, p) == p);
}

proof fn lemma_escape_append(a: Seq<char>, b: Seq<char>)
    ensures
        escape(a + b) == escape(a) + escape(b),
    decreases b.len(),
{
    if b.len() == 0 {
        assert(a + b =~= a);
        assert(escape(a) + escape(b) =~= escape(a));
    } else {
        assert((a + b).drop_last() =~= a + b.drop_last());
        assert((a + b).last() == b.last());
        lemma_escape_append(a, b.drop_last());
    }
}

/// The escaped form of one character.
spec fn escape1(c: char) -> Seq<char> {
    if c == '\\' || c == '"' {
        seq!['\\', c]
    } else {
        seq![c]
    }
}

proof fn lemma_escape_cons(v: Seq<char>)
    requires
        v.len() > 0,
    ensures
        escape(v) == escape1(v[0]) + escape(v.skip(1)),
{
    assert(v =~= seq![v[0]] + v.skip(1));
    lemma_escape_append(seq![v[0]], v.skip(1));
    assert(seq![v[0]].drop_last() =~= Seq::<char>::empty());
    assert(escape(Seq::<char>::empty()) =~= Seq::<char>::empty());
    assert(escape(seq![v[0]]) =~= escape1(v[0]));
}

proof fn lemma_quoted_body(s: Seq<char>, q: int, v: Seq<char>)
    requires
        holds_at(s, q, escape(v) + seq!['"']),
    ensures
        quoted(s, q) == Some((v, q + escape(v).len() + 1)),
    decreases v.len(),
{
    if v.len() == 0 {
        assert(escape(v) =~= Seq::<char>::empty());
        lemma_holds_char(s, q, escape(v) + seq!['"'], 0);
    } else {
        lemma_escape_cons(v);
        let e1 = escape1(v[0]);
        let rest = v.skip(1);
        assert(escape(v) + seq!['"'] =~= e1 + (escape(rest) + seq!['"']));
        lemma_holds_split(s, q, e1, escape(rest) + seq!['"']);
        lemma_holds_char(s, q, e1, 0);
        if v[0] == '\\' || v[0] == '"' {
            lemma_holds_char(s, q, e1, 1);
            lemma_quoted_body(s, q + 2, rest);
            assert(seq![v[0]] + rest =~= v);
        } else {
            lemma_quoted_body(s, q + 1, rest);
            assert(seq![v[0]] + rest =~= v);
        }
    }
}

/// A quoted string reads as the text it quotes.
proof fn lemma_read_quoted(s: Seq<char>, p: int, v: Seq<char>)
    requires
        holds_at(s, p, quote_string(v)),
    ensures
        read_token(s, p) == Some((v, p + quote_string(v).len())),
{
    assert(quote_string(v) =~= seq!['"'] + (escape(v) + seq!['"']));
    lemma_holds_split(s, p, seq!['"'], escape(v) + seq!['"']);
    lemma_holds_char(s, p, seq!['"'], 0);
    lemma_quoted_body(s, p + 1, v);
    assert(skip_inline(s, p) == p);
}


proof fn lemma_token_char_facts(c: char)
    requires
        is_token_char(c),
    ensures
        !is_blank(c),
        !is_eol(c),
        c != '#',
        c != '"',
        c != ' ',
        c != '\t',
{
}

/// A cell that survives being written: it is quoted, or it is a bare token.
pub open spec fn cell_ok(c: Seq<char>) -> bool {
    needs_quote(c) || bare_token(c)
}

proof fn lemma_written_cell_start(c: Seq<char>)
    requires
        cell_ok(c),
    ensures
        quote_cell(c).len() > 0,
        quote_cell(c)[0] == '"' || is_token_char(quote_cell(c)[0]),
{
    if needs_quote(c) {
        assert(quote_cell(c)[0] == '"');
    }
}

/// A written cell, followed by a tab or line feed, reads as the cell.
proof fn lemma_read_cell(s: Seq<char>, p: int, c: Seq<char>)
    requires
        holds_at(s, p, quote_cell(c)),
        cell_ok(c),
        p + quote_cell(c).len() < s.len(),
        s[p + quote_cell(c).len()] == '\t' || s[p + quote_cell(c).len()] == '\n',
    ensures
        read_token(s, p) == Some((c, p + quote_cell(c).len())),
{
    if needs_quote(c) {
        lemma_read_quoted(s, p, c);
    } else {
        lemma_read_bare(s, p, c);
    }
}

/// A space or tab before a token is skipped.
proof fn lemma_read_token_inline(s: Seq<char>, p: int)
    requires
        0 <= p < s.len(),
        s[p] == ' ' || s[p] == '\t',
    ensures
        read_token(s, p) == read_token(s, p + 1),
{
    assert(skip_inline(s, p) == skip_inline(s, p + 1));
}

/// A blank character before a non-blank one that starts no comment is skipped.
proof fn lemma_skip_one_blank(s: Seq<char>, p: int)
    requires
        0 <= p,
        p + 1 < s.len(),
        is_blank(s[p]),
        !is_blank(s[p + 1]),
        s[p + 1] != '#',
    ensures
        skip_blank(s, p, false) == p + 1,
{
    assert(skip_blank(s, p + 1, false) == p + 1);
}

proof fn lemma_join_prefix(s: Seq<char>, a: int, v: Seq<Seq<char>>, m: int)
    requires
        holds_at(s, a, join_tab(v)),
        1 <= m <= v.len(),
    ensures
        holds_at(s, a, join_tab(v.take(m))),
    decreases v.len() - m,
{
    if m == v.len() {
        assert(v.take(m) =~= v);
    } else {
        lemma_join_prefix(s, a, v, m + 1);
        assert(v.take(m + 1).drop_last() =~= v.take(m));
        lemma_holds_split(s, a, join_tab(v.take(m)) + seq!['\t'], v[m]);
        lemma_holds_split(s, a, join_tab(v.take(m)), seq!['\t']);
    }
}

/// The item `k` of a tab-separated list, with what stands before it.
proof fn lemma_join_item(s: Seq<char>, a: int, v: Seq<Seq<char>>, k: int)
    requires
        holds_at(s, a, join_tab(v)),
        0 <= k < v.len(),
    ensures
        k == 0 ==> join_tab(v.take(1)) == v[0],
        k > 0 ==> join_tab(v.take(k + 1)) == join_tab(v.take(k)) + seq!['\t'] + v[k],
        k > 0 ==> s[a + join_tab(v.take(k)).len()] == '\t',
        holds_at(s, a + join_tab(v.take(k)).len() + if k > 0 { 1int } else { 0int }, v[k]),
        k + 1 < v.len() ==> a + join_tab(v.take(k + 1)).len() < s.len(),
        k + 1 < v.len() ==> s[a + join_tab(v.take(k + 1)).len()] == '\t',
        holds_at(s, a, join_tab(v.take(k + 1))),
{
    lemma_join_prefix(s, a, v, k + 1);
    if k == 0 {
        assert(v.take(1) =~= seq![v[0]]);
        assert(v.take(0) =~= Seq::<Seq<char>>::empty());
        assert(join_tab(v.take(0)).len() == 0);
    } else {
        assert(v.take(k + 1).drop_last() =~= v.take(k));
        lemma_holds_split(s, a, join_tab(v.take(k)) + seq!['\t'], v[k]);
        lemma_holds_split(s, a, join_tab(v.take(k)), seq!['\t']);
        lemma_holds_char(s, a + join_tab(v.take(k)).len(), seq!['\t'], 0);
    }
    if k + 1 < v.len() {
        lemma_join_prefix(s, a, v, k + 2);
        assert(v.take(k + 2).drop_last() =~= v.take(k + 1));
        lemma_holds_split(s, a, join_tab(v.take(k + 1)) + seq!['\t'], v[k + 1]);
        lemma_holds_split(s, a, join_tab(v.take(k + 1)), seq!['\t']);
        lemma_holds_char(s, a + join_tab(v.take(k + 1)).len(), seq!['\t'], 0);
    }
}

/// The written forms of cells.
pub open spec fn written(cs: Seq<Seq<char>>) -> Seq<Seq<char>> {
    cs.map_values(|c: Seq<char>| quote_cell(c))
}

proof fn lemma_read_row_from(s: Seq<char>, a: int, cs: Seq<Seq<char>>, k: int)
    requires
        cs.len() >= 1,
        forall|i: int| 0 <= i < cs.len() ==> cell_ok(#[trigger] cs[i]),
        holds_at(s, a, join_tab(written(cs)) + seq!['\n']),
        0 <= k <= cs.len(),
    ensures
        read_row(
            s,
            if k == 0 { a } else { a + join_tab(written(cs).take(k)).len() },
            (cs.len() - k) as nat,
        ) == Some((cs.skip(k), a + join_tab(written(cs)).len())),
    decreases cs.len() - k,
{
    let ws = written(cs);
    lemma_holds_split(s, a, join_tab(ws), seq!['\n']);
    lemma_holds_char(s, a + join_tab(ws).len(), seq!['\n'], 0);
    let pos = if k == 0 { a } else { a + join_tab(ws.take(k)).len() };
    if k == cs.len() {
        assert(ws.take(k) =~= ws);
        assert(cs.skip(k) =~= Seq::<Seq<char>>::empty());
    } else {
        lemma_join_item(s, a, ws, k);
        let start = a + join_tab(ws.take(k)).len() + if k > 0 { 1int } else { 0int };
        let next = a + join_tab(ws.take(k + 1)).len();
        assert(ws[k] == quote_cell(cs[k]));
        if k > 0 {
            assert(next == start + ws[k].len());
        } else {
            assert(next == start + ws[k].len());
        }
        if k + 1 == cs.len() {
            assert(ws.take(k + 1) =~= ws);
        }
        assert(s[next] == '\t' || s[next] == '\n');
        lemma_read_cell(s, start, cs[k]);
        if k > 0 {
            lemma_read_token_inline(s, pos);
        }
        lemma_read_row_from(s, a, cs, k + 1);
        assert(seq![cs[k]] + cs.skip(k + 1) =~= cs.skip(k));
    }
}

/// A row of written cells followed by a line feed reads as the cells.
proof fn lemma_read_row_text(s: Seq<char>, a: int, cs: Seq<Seq<char>>)
    requires
        cs.len() >= 1,
        forall|i: int| 0 <= i < cs.len() ==> cell_ok(#[trigger] cs[i]),
        holds_at(s, a, join_tab(written(cs)) + seq!['\n']),
    ensures
        read_row(s, a, cs.len()) == Some((cs, a + join_tab(written(cs)).len())),
{
    lemma_read_row_from(s, a, cs, 0);
    assert(cs.skip(0) =~= cs);
}

spec fn all_token_chars(v: Seq<char>) -> bool
    decreases v.len(),
{
    v.len() == 0 || (is_token_char(v[0]) && all_token_chars(v.skip(1)))
}

proof fn lemma_all_token_chars(v: Seq<char>)
    requires
        all_token_chars(v),
        v.len() > 0,
    ensures
        bare_token(v),
    decreases v.len(),
{
    if v.len() > 1 {
        lemma_all_token_chars(v.skip(1));
        assert forall|i: int| 0 <= i < v.len() implies is_token_char(#[trigger] v[i]) by {
            if i > 0 {
                assert(v.skip(1)[i - 1] == v[i]);
            }
        }
    }
}

proof fn lemma_keywords_bare()
    ensures
        bare_token(kw_begin_data_format()),
        bare_token(kw_end_data_format()),
        bare_token(kw_begin_data()),
        bare_token(kw_end_data()),
        kw_begin_data_format() != kw_begin_data(),
        kw_end_data_format().len() == 15,
        kw_begin_data_format().len() == 17,
        kw_begin_data().len() == 10,
        kw_end_data().len() == 8,
{
    reveal_with_fuel(all_token_chars, 18);
    assert(all_token_chars(kw_begin_data_format()));
    assert(all_token_chars(kw_end_data_format()));
    assert(all_token_chars(kw_begin_data()));
    assert(all_token_chars(kw_end_data()));
    lemma_all_token_chars(kw_begin_data_format());
    lemma_all_token_chars(kw_end_data_format());
    lemma_all_token_chars(kw_begin_data());
    lemma_all_token_chars(kw_end_data());
    assert(kw_begin_data_format().len() != kw_begin_data().len());
}

/// The patch-name column that reading a list of column names gives: the
/// last "SAMPLE_ID", else the first column.
pub open spec fn last_sample_id(df: Seq<Seq<char>>) -> nat
    decreases df.len(),
{
    if df.len() == 0 {
        0
    } else if df.last() == kw_sample_id() {
        (df.len() - 1) as nat
    } else {
        last_sample_id(df.drop_last())
    }
}

/// Column names that survive being written: bare tokens other than END_DATA_FORMAT.
pub open spec fn names_ok(df: Seq<Seq<char>>) -> bool {
    forall|i: int| 0 <= i < df.len() ==> bare_token(#[trigger] df[i]) && df[i] != kw_end_data_format()
}

proof fn lemma_format_names(s: Seq<char>, a: int, df: Seq<Seq<char>>, k: int)
    requires
        df.len() >= 1,
        names_ok(df),
        holds_at(s, a, join_tab(df) + seq!['\n'] + kw_end_data_format() + seq!['\n']),
        1 <= k <= df.len(),
    ensures
        parse_format(s, a + join_tab(df.take(k)).len(), df.take(k), last_sample_id(df.take(k))) == Some(
            (df, last_sample_id(df), a + join_tab(df).len() + 16),
        ),
    decreases df.len() - k,
{
    lemma_keywords_bare();
    let jt = join_tab(df);
    let edf = kw_end_data_format();
    lemma_holds_split(s, a, jt + seq!['\n'] + edf, seq!['\n']);
    lemma_holds_split(s, a, jt + seq!['\n'], edf);
    lemma_holds_split(s, a, jt, seq!['\n']);
    let e = a + join_tab(df.take(k)).len();
    if k == df.len() {
        assert(df.take(k) =~= df);
        lemma_holds_char(s, a + jt.len(), seq!['\n'], 0);
        lemma_holds_char(s, a + jt.len() + 1, edf, 0);
        lemma_holds_char(s, a + jt.len() + 1 + 15, seq!['\n'], 0);
        lemma_token_char_facts(edf[0]);
        lemma_skip_one_blank(s, e);
        lemma_read_bare(s, e + 1, edf);
    } else {
        lemma_join_item(s, a, df, k);
        let next = a + join_tab(df.take(k + 1)).len();
        assert(next == e + 1 + df[k].len());
        if k + 1 == df.len() {
            assert(df.take(k + 1) =~= df);
            lemma_holds_char(s, a + jt.len(), seq!['\n'], 0);
        }
        lemma_holds_char(s, e + 1, df[k], 0);
        lemma_token_char_facts(df[k][0]);
        lemma_skip_one_blank(s, e);
        lemma_read_bare(s, e + 1, df[k]);
        lemma_skip_blank_ge_local(s, e);
        lemma_format_names(s, a, df, k + 1);
        assert(df.take(k).push(df[k]) =~= df.take(k + 1));
        assert(df.take(k + 1).drop_last() =~= df.take(k));
    }
}

proof fn lemma_skip_blank_ge_local(s: Seq<char>, p: int)
    ensures
        p <= skip_blank(s, p, false),
{
    crate::cgats::lemma_skip_blank_ge(s, p, false);
}

/// Cells that survive being written, in rows that do not read as END_DATA.
pub open spec fn data_ok(t: TableView) -> bool {
    let n = t.data_format.len() as int;
    &&& t.data.len() == t.n_rows * n
    &&& forall|i: int| 0 <= i < t.data.len() ==> cell_ok(#[trigger] t.data[i])
    &&& forall|r: int| 0 <= r < t.n_rows ==> #[trigger] t.data[r * n] != kw_end_data()
}

proof fn lemma_rows_prefix(s: Seq<char>, d0: int, t: TableView, m: nat, r: nat)
    requires
        holds_at(s, d0, rows_text(t, m)),
        r < m,
    ensures
        holds_at(s, d0 + rows_text(t, r).len(), join_tab(written(row_cells(t, r as int))) + seq!['\n']),
        holds_at(s, d0, rows_text(t, (r + 1) as nat)),
    decreases m - r,
{
    if r + 1 < m {
        lemma_rows_prefix(s, d0, t, m, (r + 1) as nat);
        let nxt = join_tab(written(row_cells(t, (r + 1) as int))) + seq!['\n'];
        assert(rows_text(t, (r + 2) as nat) =~= rows_text(t, (r + 1) as nat) + nxt) by {
            assert(written(row_cells(t, (r + 1) as int)) =~= row_cells(t, (r + 1) as int).map_values(
                |c: Seq<char>| quote_cell(c),
            ));
        }
        lemma_holds_split(s, d0, rows_text(t, (r + 1) as nat), nxt);
    }
    assert(written(row_cells(t, r as int)) =~= row_cells(t, r as int).map_values(|c: Seq<char>| quote_cell(c)));
    assert(rows_text(t, (r + 1) as nat) =~= rows_text(t, r) + (join_tab(written(row_cells(t, r as int)))
        + seq!['\n']));
    lemma_holds_split(s, d0, rows_text(t, r), join_tab(written(row_cells(t, r as int))) + seq!['\n']);
}

proof fn lemma_row_cells_ok(t: TableView, r: int)
    requires
        data_ok(t),
        t.data_format.len() >= 1,
        0 <= r < t.n_rows,
    ensures
        row_cells(t, r).len() == t.data_format.len(),
        forall|i: int| 0 <= i < row_cells(t, r).len() ==> cell_ok(#[trigger] row_cells(t, r)[i]),
        row_cells(t, r)[0] != kw_end_data(),
        t.data.take(r * t.data_format.len()) + row_cells(t, r) == t.data.take((r + 1) * t.data_format.len()),
{
    let n = t.data_format.len() as int;
    assert(r * n + n <= t.n_rows * n) by (nonlinear_arith)
        requires
            r < t.n_rows,
            n >= 1,
    ;
    assert(0 <= r * n) by (nonlinear_arith)
        requires
            r >= 0,
            n >= 1,
    ;
    assert((r + 1) * n == r * n + n) by (nonlinear_arith);
    assert forall|i: int| 0 <= i < row_cells(t, r).len() implies cell_ok(#[trigger] row_cells(t, r)[i]) by {
        assert(row_cells(t, r)[i] == t.data[r * n + i]);
    }
    assert(t.data[r * n] != kw_end_data());
    assert(t.data.take(r * n) + row_cells(t, r) =~= t.data.take((r + 1) * n));
}

proof fn lemma_parse_rows(s: Seq<char>, d0: int, t: TableView, r: nat)
    requires
        has_data(t),
        data_ok(t),
        d0 >= 1,
        holds_at(s, d0 - 1, seq!['\n'] + rows_text(t, t.n_rows) + kw_end_data() + seq!['\n']),
        r <= t.n_rows,
    ensures
        parse_rows(
            s,
            d0 + rows_text(t, r).len() - 1,
            t.data_format.len(),
            t.data.take((r * t.data_format.len()) as int),
            r,
        ) == Some((t.data, t.n_rows, d0 + rows_text(t, t.n_rows).len() + 8)),
    decreases t.n_rows - r,
{
    lemma_keywords_bare();
    let n = t.data_format.len();
    let rt = rows_text(t, t.n_rows);
    let ed = kw_end_data();
    lemma_holds_split(s, d0 - 1, seq!['\n'] + rt + ed, seq!['\n']);
    lemma_holds_split(s, d0 - 1, seq!['\n'] + rt, ed);
    lemma_holds_split(s, d0 - 1, seq!['\n'], rt);
    let x = d0 + rows_text(t, r).len() - 1;
    // The character at x is a line feed.
    if r == 0 {
        lemma_holds_char(s, d0 - 1, seq!['\n'], 0);
    } else {
        lemma_rows_prefix(s, d0, t, t.n_rows, (r - 1) as nat);
        let prev = join_tab(written(row_cells(t, r - 1))) + seq!['\n'];
        assert(rows_text(t, r) =~= rows_text(t, (r - 1) as nat) + prev) by {
            assert(written(row_cells(t, r - 1)) =~= row_cells(t, r - 1).map_values(
                |c: Seq<char>| quote_cell(c),
            ));
        }
        lemma_holds_char(s, d0 + rows_text(t, (r - 1) as nat).len(), prev, prev.len() - 1);
    }
    if r == t.n_rows {
        assert(t.data.take((r * n) as int) =~= t.data);
        lemma_holds_char(s, d0 + rt.len(), ed, 0);
        lemma_holds_char(s, d0 + rt.len() + 8, seq!['\n'], 0);
        lemma_token_char_facts(ed[0]);
        lemma_skip_one_blank(s, x);
        lemma_read_bare(s, x + 1, ed);
    } else {
        lemma_rows_prefix(s, d0, t, t.n_rows, r);
        lemma_row_cells_ok(t, r as int);
        let cs = row_cells(t, r as int);
        let a = d0 + rows_text(t, r).len();
        lemma_read_row_text(s, a, cs);
        // the row starts with a written cell
        lemma_written_cell_start(cs[0]);
        assert(written(cs)[0] == quote_cell(cs[0]));
        lemma_holds_split(s, a, join_tab(written(cs)), seq!['\n']);
        lemma_join_item(s, a, written(cs), 0);
        lemma_holds_char(s, a, written(cs)[0], 0);
        if is_token_char(s[a]) {
            lemma_token_char_facts(s[a]);
        }
        lemma_skip_one_blank(s, x);
        // it is no END_DATA
        let w0 = written(cs)[0];
        if cs.len() == 1 {
            assert(written(cs).take(1) =~= written(cs));
            lemma_holds_char(s, a + join_tab(written(cs)).len(), seq!['\n'], 0);
        }
        assert(s[a + w0.len()] == '\t' || s[a + w0.len()] == '\n');
        lemma_read_cell(s, a, cs[0]);
        assert(!at_end_data(s, a));
        let q = a + join_tab(written(cs)).len();
        lemma_holds_char(s, q, seq!['\n'], 0);
        assert(skip_to_eol(s, q) == q);
        lemma_skip_blank_ge_local(s, x);
        assert(rows_text(t, r + 1) =~= rows_text(t, r) + (join_tab(written(cs)) + seq!['\n'])) by {
            assert(written(cs) =~= cs.map_values(|c: Seq<char>| quote_cell(c)));
        }
        lemma_parse_rows(s, d0, t, (r + 1) as nat);
    }
}

proof fn lemma_digits_end(v: Seq<char>, i: int)
    requires
        0 <= i <= v.len(),
    ensures
        i <= digits_end(v, i) <= v.len(),
        forall|m: int| i <= m < digits_end(v, i) ==> is_digit(#[trigger] v[m]),
    decreases v.len() - i,
{
    if i < v.len() && is_digit(v[i]) {
        lemma_digits_end(v, i + 1);
    }
}

proof fn lemma_lower_token(c: char, w: char)
    requires
        ascii_lower(c) == w,
        is_token_char(w),
    ensures
        is_token_char(c),
{
}

proof fn lemma_eq_lower_token(b: Seq<char>, w: Seq<char>)
    requires
        eq_lower(b, w),
        bare_token(w),
    ensures
        bare_token(b),
{
    assert forall|i: int| 0 <= i < b.len() implies is_token_char(#[trigger] b[i]) by {
        lemma_lower_token(b[i], w[i]);
    }
}

/// A number written bare is a bare token.
proof fn lemma_float_literal_bare(v: Seq<char>)
    requires
        is_float_literal(v),
    ensures
        bare_token(v),
{
    let signed = v.len() > 0 && (v[0] == '+' || v[0] == '-');
    let b = if signed {
        v.skip(1)
    } else {
        v
    };
    let inf = seq!['i', 'n', 'f'];
    let infinity = seq!['i', 'n', 'f', 'i', 'n', 'i', 't', 'y'];
    let nan = seq!['n', 'a', 'n'];
    if eq_lower(b, inf) {
        assert(bare_token(inf));
        lemma_eq_lower_token(b, inf);
    } else if eq_lower(b, infinity) {
        assert(bare_token(infinity)) by {
            assert forall|i: int| 0 <= i < 8 implies is_token_char(#[trigger] infinity[i]) by {
                assert(infinity[i] == 'i' || infinity[i] == 'n' || infinity[i] == 'f' || infinity[i] == 't'
                    || infinity[i] == 'y');
            }
        }
        lemma_eq_lower_token(b, infinity);
    } else if eq_lower(b, nan) {
        assert(bare_token(nan));
        lemma_eq_lower_token(b, nan);
    } else {
        assert(is_decimal(b));
        lemma_digits_end(b, 0);
        let i1 = digits_end(b, 0);
        let has_point = i1 < b.len() && b[i1] == '.';
        if has_point {
            lemma_digits_end(b, i1 + 1);
        }
        let i2 = if has_point {
            digits_end(b, i1 + 1)
        } else {
            i1
        };
        if i2 < b.len() {
            lemma_lower_token(b[i2], 'e');
            let j = if i2 + 1 < b.len() && (b[i2 + 1] == '+' || b[i2 + 1] == '-') {
                i2 + 2
            } else {
                i2 + 1
            };
            lemma_digits_end(b, j);
        }
        assert(b.len() > 0);
        assert forall|i: int| 0 <= i < b.len() implies is_token_char(#[trigger] b[i]) by {
            if i < i1 {
                assert(is_digit(b[i]));
            } else if i == i1 && has_point {
            } else if has_point && i < i2 {
                assert(is_digit(b[i]));
            } else if i == i2 {
            } else {
                let j = if i2 + 1 < b.len() && (b[i2 + 1] == '+' || b[i2 + 1] == '-') {
                    i2 + 2
                } else {
                    i2 + 1
                };
                if i >= j {
                    assert(is_digit(b[i]));
                }
            }
        }
    }
    if signed {
        assert forall|i: int| 0 <= i < v.len() implies is_token_char(#[trigger] v[i]) by {
            if i > 0 {
                assert(v[i] == b[i - 1]);
            }
        }
    }
}

/// Properties that survive being written: in key order, with keys that are
/// bare tokens other than BEGIN_DATA_FORMAT and BEGIN_DATA.
pub open spec fn props_ok(p: Seq<(Seq<char>, Seq<char>)>) -> bool {
    &&& props_sorted(p)
    &&& forall|i: int|
        0 <= i < p.len() ==> {
            &&& bare_token(#[trigger] p[i].0)
            &&& p[i].0 != kw_begin_data_format()
            &&& p[i].0 != kw_begin_data()
        }
}

proof fn lemma_insert_pos_all_less(p: Seq<(Seq<char>, Seq<char>)>, k: Seq<char>, i: int)
    requires
        0 <= i <= p.len(),
        forall|j: int| 0 <= j < p.len() ==> seq_less(#[trigger] p[j].0, k),
    ensures
        insert_pos(p, k, i) == p.len(),
    decreases p.len() - i,
{
    if i < p.len() {
        lemma_insert_pos_all_less(p, k, i + 1);
    }
}

/// Setting the keys of sorted properties in order rebuilds them.
proof fn lemma_insert_in_order(p: Seq<(Seq<char>, Seq<char>)>, i: int)
    requires
        props_sorted(p),
        0 <= i < p.len(),
    ensures
        props_insert(p.take(i), p[i].0, p[i].1) == p.take(i + 1),
{
    let q = p.take(i);
    assert forall|j: int| 0 <= j < q.len() implies seq_less(#[trigger] q[j].0, p[i].0) by {
        assert(q[j] == p[j]);
    }
    lemma_insert_pos_all_less(q, p[i].0, 0);
    assert(q.insert(i, (p[i].0, p[i].1)) =~= p.take(i + 1));
}

/// A property line reads as its key and value.
proof fn lemma_prop_item(s: Seq<char>, a: int, kv: (Seq<char>, Seq<char>), ts: Seq<TableView>)
    requires
        holds_at(s, a, prop_line(kv)),
        ts.len() >= 1,
        bare_token(kv.0),
        kv.0 != kw_begin_data_format(),
        kv.0 != kw_begin_data(),
    ensures
        parse_item(s, a, ts) == Some(
            (
                with_last(
                    ts,
                    TableView { properties: props_insert(ts.last().properties, kv.0, kv.1), ..ts.last() },
                ),
                a + prop_line(kv).len() - 1,
            ),
        ),
{
    let k = kv.0;
    let v = kv.1;
    let w = if is_float_literal(v) {
        v
    } else {
        quote_string(v)
    };
    assert(prop_line(kv) == k + seq!['\t'] + w + seq!['\n']);
    lemma_holds_split(s, a, k + seq!['\t'] + w, seq!['\n']);
    lemma_holds_split(s, a, k + seq!['\t'], w);
    lemma_holds_split(s, a, k, seq!['\t']);
    lemma_holds_char(s, a + k.len(), seq!['\t'], 0);
    lemma_holds_char(s, a + k.len() + 1 + w.len(), seq!['\n'], 0);
    lemma_read_bare(s, a, k);
    let q2 = a + k.len() + 1;
    lemma_holds_char(s, q2, w, 0);
    if is_float_literal(v) {
        lemma_float_literal_bare(v);
        lemma_token_char_facts(w[0]);
        lemma_read_bare(s, q2, v);
    } else {
        assert(w[0] == '"');
        lemma_read_quoted(s, q2, v);
    }
    assert(skip_inline(s, q2) == q2);
    assert(skip_inline(s, a + k.len()) == q2);
}

proof fn lemma_props_prefix(s: Seq<char>, o1: int, p: Seq<(Seq<char>, Seq<char>)>, m: int, i: int)
    requires
        holds_at(s, o1, props_text(p.take(m))),
        0 <= i < m <= p.len(),
    ensures
        holds_at(s, o1 + props_text(p.take(i)).len(), prop_line(p[i])),
        holds_at(s, o1, props_text(p.take(i + 1))),
    decreases m - i,
{
    if i + 1 < m {
        lemma_props_prefix(s, o1, p, m, i + 1);
        assert(p.take(i + 2).drop_last() =~= p.take(i + 1));
        assert(p.take(i + 2).last() == p[i + 1]);
        lemma_holds_split(s, o1, props_text(p.take(i + 1)), prop_line(p[i + 1]));
    }
    assert(p.take(i + 1).drop_last() =~= p.take(i));
    assert(p.take(i + 1).last() == p[i]);
    lemma_holds_split(s, o1, props_text(p.take(i)), prop_line(p[i]));
}

/// Reading the property lines from line `i` on.
proof fn lemma_props_items(
    s: Seq<char>,
    o1: int,
    p: Seq<(Seq<char>, Seq<char>)>,
    acc: Seq<TableView>,
    base: TableView,
    i: int,
)
    requires
        o1 >= 1,
        holds_at(s, o1 - 1, seq!['\n'] + props_text(p)),
        props_ok(p),
        acc.len() >= 1,
        0 <= i <= p.len(),
    ensures
        parse_items(
            s,
            o1 + props_text(p.take(i)).len() - 1,
            with_last(acc, TableView { properties: p.take(i), ..base }),
        ) == parse_items(
            s,
            o1 + props_text(p).len() - 1,
            with_last(acc, TableView { properties: p, ..base }),
        ),
    decreases p.len() - i,
{
    if i < p.len() {
        lemma_holds_split(s, o1 - 1, seq!['\n'], props_text(p));
        assert(p.take(p.len() as int) =~= p);
        lemma_props_prefix(s, o1, p, p.len() as int, i);
        let a = o1 + props_text(p.take(i)).len();
        let ts = with_last(acc, TableView { properties: p.take(i), ..base });
        // the line before is a line feed, the key starts the line
        if i == 0 {
            lemma_holds_char(s, o1 - 1, seq!['\n'], 0);
            assert(p.take(0) =~= Seq::<(Seq<char>, Seq<char>)>::empty());
        } else {
            lemma_props_prefix(s, o1, p, p.len() as int, i - 1);
            assert(p.take(i).drop_last() =~= p.take(i - 1));
            assert(p.take(i).last() == p[i - 1]);
            lemma_holds_char(s, o1 + props_text(p.take(i - 1)).len(), prop_line(p[i - 1]), prop_line(p[i - 1]).len() - 1);
        }
        lemma_holds_char(s, a, prop_line(p[i]), 0);
        lemma_token_char_facts(p[i].0[0]);
        lemma_skip_one_blank(s, a - 1);
        lemma_prop_item(s, a, p[i], ts);
        lemma_insert_in_order(p, i);
        assert(with_last(ts, TableView { properties: props_insert(ts.last().properties, p[i].0, p[i].1), ..ts.last() })
            =~= with_last(acc, TableView { properties: p.take(i + 1), ..base }));
        lemma_skip_blank_ge_local(s, a - 1);
        assert(p.take(i + 1).drop_last() =~= p.take(i));
        lemma_props_items(s, o1, p, acc, base, i + 1);
    } else {
        assert(p.take(i) =~= p);
    }
}

/// The text of a format section.
pub open spec fn format_text(df: Seq<Seq<char>>) -> Seq<char> {
    kw_begin_data_format() + seq!['\n'] + join_tab(df) + seq!['\n'] + kw_end_data_format() + seq!['\n']
}

/// The text of a data section.
pub open spec fn data_text(t: TableView) -> Seq<char> {
    kw_begin_data() + seq!['\n'] + rows_text(t, t.n_rows) + kw_end_data() + seq!['\n']
}

proof fn lemma_format_item(s: Seq<char>, o2: int, df: Seq<Seq<char>>, ts: Seq<TableView>)
    requires
        holds_at(s, o2, format_text(df)),
        df.len() >= 1,
        names_ok(df),
        ts.len() >= 1,
        ts.last().sample_id_col == 0,
    ensures
        parse_item(s, o2, ts) == Some(
            (
                with_last(
                    ts,
                    TableView { data_format: df, sample_id_col: last_sample_id(df), ..ts.last() },
                ),
                o2 + format_text(df).len() - 1,
            ),
        ),
{
    lemma_keywords_bare();
    let bdf = kw_begin_data_format();
    let edf = kw_end_data_format();
    let jt = join_tab(df);
    let rest = jt + seq!['\n'] + edf + seq!['\n'];
    assert(format_text(df) =~= bdf + seq!['\n'] + rest);
    lemma_holds_split(s, o2, bdf + seq!['\n'], rest);
    lemma_holds_split(s, o2, bdf, seq!['\n']);
    lemma_holds_char(s, o2 + 17, seq!['\n'], 0);
    lemma_read_bare(s, o2, bdf);
    let a = o2 + 18;
    lemma_format_names(s, a, df, 1);
    // the first name
    lemma_holds_split(s, a, jt + seq!['\n'] + edf, seq!['\n']);
    lemma_holds_split(s, a, jt + seq!['\n'], edf);
    lemma_holds_split(s, a, jt, seq!['\n']);
    lemma_join_item(s, a, df, 0);
    lemma_holds_char(s, a, df[0], 0);
    lemma_token_char_facts(df[0][0]);
    lemma_skip_one_blank(s, o2 + 17);
    if df.len() == 1 {
        assert(df.take(1) =~= df);
        lemma_holds_char(s, a + jt.len(), seq!['\n'], 0);
    }
    lemma_read_bare(s, a, df[0]);
    lemma_skip_blank_ge_local(s, o2 + 17);
    assert(Seq::<Seq<char>>::empty().push(df[0]) =~= df.take(1));
    assert(df.take(1).drop_last() =~= Seq::<Seq<char>>::empty());
    assert(last_sample_id(Seq::<Seq<char>>::empty()) == 0);
    assert(last_sample_id(df.take(1)) == 0);
}

proof fn lemma_data_item(s: Seq<char>, o3: int, t: TableView, ts: Seq<TableView>, next: Option<Seq<char>>)
    requires
        holds_at(s, o3, data_text(t)),
        has_data(t),
        data_ok(t),
        ts.len() >= 1,
        ts.last().data_format == t.data_format,
        match next {
            None => o3 + data_text(t).len() == s.len(),
            Some(nx) => {
                &&& holds_at(s, o3 + data_text(t).len(), seq!['\n'] + nx + seq!['\n'])
                &&& bare_token(nx)
                &&& nx != kw_begin_data_format()
                &&& nx != kw_begin_data()
            },
        },
    ensures
        parse_item(s, o3, ts) == Some(
            {
                let ts2 = with_last(ts, TableView { data: t.data, n_rows: t.n_rows, ..ts.last() });
                match next {
                    None => (ts2, s.len() as int),
                    Some(nx) => (ts2.push(empty_table(nx)), o3 + data_text(t).len() + 1 + nx.len()),
                }
            },
        ),
{
    lemma_keywords_bare();
    let bd = kw_begin_data();
    let ed = kw_end_data();
    let rt = rows_text(t, t.n_rows);
    let rest = seq!['\n'] + rt + ed + seq!['\n'];
    assert(data_text(t) =~= bd + rest);
    lemma_holds_split(s, o3, bd, rest);
    lemma_holds_char(s, o3 + 10, rest, 0);
    lemma_read_bare(s, o3, bd);
    lemma_parse_rows(s, o3 + 11, t, 0);
    assert(rows_text(t, 0) =~= Seq::<char>::empty());
    assert(t.data.take(0) =~= Seq::<Seq<char>>::empty());
    let q2 = o3 + data_text(t).len() - 1;
    lemma_holds_char(s, o3, data_text(t), data_text(t).len() - 1);
    match next {
        None => {
            assert(skip_blank(s, q2 + 1, false) == q2 + 1);
        },
        Some(nx) => {
            let e = o3 + data_text(t).len();
            lemma_holds_split(s, e, seq!['\n'] + nx, seq!['\n']);
            lemma_holds_split(s, e, seq!['\n'], nx);
            lemma_holds_char(s, e, seq!['\n'], 0);
            lemma_holds_char(s, e + 1, nx, 0);
            lemma_holds_char(s, e + 1 + nx.len(), seq!['\n'], 0);
            lemma_token_char_facts(nx[0]);
            lemma_skip_one_blank(s, e);
            assert(skip_blank(s, q2, false) == e + 1);
            lemma_read_bare(s, e + 1, nx);
        },
    }
}

/// A table that reads back from its text as itself: its sheet type, keys
/// and column names are bare tokens that reading does not take for
/// keywords, its patch-name column is the one reading finds, its stored
/// rows are exactly its rows and its cells survive being written; a table
/// that another follows has a data section, which is what ends it in the text.
pub open spec fn table_ok(t: TableView, first: bool, last: bool) -> bool {
    &&& bare_token(t.sheet_type)
    &&& (!first ==> t.sheet_type != kw_begin_data_format() && t.sheet_type != kw_begin_data())
    &&& props_ok(t.properties)
    &&& names_ok(t.data_format)
    &&& t.sample_id_col == last_sample_id(t.data_format)
    &&& if has_data(t) {
        data_ok(t)
    } else {
        t.n_rows == 0 && t.data.len() == 0
    }
    &&& (!last ==> has_data(t))
}

/// The format section of a table's text, if it has one.
pub open spec fn fmt_part(t: TableView) -> Seq<char> {
    if t.data_format.len() > 0 {
        format_text(t.data_format)
    } else {
        Seq::empty()
    }
}

/// The data section of a table's text, if it has one.
pub open spec fn data_part(t: TableView) -> Seq<char> {
    if has_data(t) {
        data_text(t)
    } else {
        Seq::empty()
    }
}

proof fn lemma_table_layout(s: Seq<char>, o: int, t: TableView)
    requires
        holds_at(s, o, table_text(t)),
    ensures
        ({
            let o1 = o + t.sheet_type.len() + 1;
            let o2 = o1 + props_text(t.properties).len();
            let o3 = o2 + fmt_part(t).len();
            &&& holds_at(s, o1 - 1, seq!['\n'] + props_text(t.properties))
            &&& holds_at(s, o2, fmt_part(t))
            &&& holds_at(s, o3, data_part(t))
            &&& o3 + data_part(t).len() == o + table_text(t).len()
            &&& s[o2 - 1] == '\n'
            &&& s[o3 - 1] == '\n'
        }),
{
    let sh = t.sheet_type;
    let p = t.properties;
    let pt = props_text(p);
    let ft = fmt_part(t);
    let dt = data_part(t);
    let head = sh + seq!['\n'] + pt;
    assert(table_text(t) =~= head + ft + dt);
    lemma_holds_split(s, o, head + ft, dt);
    lemma_holds_split(s, o, head, ft);
    assert(head =~= sh + (seq!['\n'] + pt));
    lemma_holds_split(s, o, sh, seq!['\n'] + pt);
    let o1 = o + sh.len() + 1;
    let o2 = o1 + pt.len();
    lemma_holds_char(s, o, head, o2 - 1 - o);
    if pt.len() > 0 {
        assert(p.len() > 0);
        assert(pt == props_text(p.drop_last()) + prop_line(p.last()));
        assert(head[o2 - 1 - o] == prop_line(p.last())[prop_line(p.last()).len() - 1]);
    }
    if ft.len() > 0 {
        lemma_holds_char(s, o2, ft, ft.len() - 1);
    }
}

proof fn lemma_table(s: Seq<char>, o: int, t: TableView, acc: Seq<TableView>, first: bool, next: Option<Seq<char>>)
    requires
        holds_at(s, o, table_text(t)),
        table_ok(t, first, next is None),
        acc.len() >= 1,
        acc.last() == empty_table(t.sheet_type),
        match next {
            None => o + table_text(t).len() == s.len(),
            Some(nx) => {
                &&& holds_at(s, o + table_text(t).len(), seq!['\n'] + nx + seq!['\n'])
                &&& bare_token(nx)
                &&& nx != kw_begin_data_format()
                &&& nx != kw_begin_data()
            },
        },
    ensures
        parse_items(s, o + t.sheet_type.len(), acc) == match next {
            None => Some(with_last(acc, t)),
            Some(nx) => parse_items(
                s,
                o + table_text(t).len() + 1 + nx.len(),
                with_last(acc, t).push(empty_table(nx)),
            ),
        },
{
    lemma_table_layout(s, o, t);
    let sh = t.sheet_type;
    let p = t.properties;
    let df = t.data_format;
    let o1 = o + sh.len() + 1;
    let o2 = o1 + props_text(p).len();
    let o3 = o2 + fmt_part(t).len();
    let base = empty_table(sh);
    assert(p.take(0) =~= Seq::<(Seq<char>, Seq<char>)>::empty());
    assert(p.take(p.len() as int) =~= p);
    assert(with_last(acc, TableView { properties: p.take(0), ..base }) =~= acc);
    lemma_props_items(s, o1, p, acc, base, 0);
    let acc_p = with_last(acc, TableView { properties: p, ..base });
    let acc_f = with_last(acc, TableView { properties: p, data_format: df, sample_id_col: t.sample_id_col, ..base });
    lemma_table_formats(s, o2, o3, t, acc_p, acc_f, base, acc);
    lemma_table_data(s, o3, t, acc_f, acc, next);
}

proof fn lemma_table_formats(
    s: Seq<char>,
    o2: int,
    o3: int,
    t: TableView,
    acc_p: Seq<TableView>,
    acc_f: Seq<TableView>,
    base: TableView,
    acc: Seq<TableView>,
)
    requires
        holds_at(s, o2, fmt_part(t)),
        o3 == o2 + fmt_part(t).len(),
        o2 >= 1,
        s[o2 - 1] == '\n',
        names_ok(t.data_format),
        t.sample_id_col == last_sample_id(t.data_format),
        acc.len() >= 1,
        base.sample_id_col == 0,
        base.data_format.len() == 0,
        acc_p == with_last(acc, TableView { properties: t.properties, ..base }),
        acc_f == with_last(
            acc,
            TableView {
                properties: t.properties,
                data_format: t.data_format,
                sample_id_col: t.sample_id_col,
                ..base
            },
        ),
    ensures
        parse_items(s, o2 - 1, acc_p) == parse_items(s, o3 - 1, acc_f),
{
    let df = t.data_format;
    if df.len() > 0 {
        lemma_format_item(s, o2, df, acc_p);
        lemma_holds_char(s, o2, fmt_part(t), 0);
        lemma_skip_one_blank(s, o2 - 1);
        lemma_skip_blank_ge_local(s, o2 - 1);
        assert(with_last(acc_p, TableView { data_format: df, sample_id_col: last_sample_id(df), ..acc_p.last() })
            =~= acc_f);
    } else {
        assert(last_sample_id(df) == 0);
        assert(df =~= base.data_format);
        assert(acc_p =~= acc_f);
    }
}

proof fn lemma_table_data(
    s: Seq<char>,
    o3: int,
    t: TableView,
    acc_f: Seq<TableView>,
    acc: Seq<TableView>,
    next: Option<Seq<char>>,
)
    requires
        holds_at(s, o3, data_part(t)),
        o3 >= 1,
        s[o3 - 1] == '\n',
        acc.len() >= 1,
        acc_f == with_last(
            acc,
            TableView {
                properties: t.properties,
                data_format: t.data_format,
                sample_id_col: t.sample_id_col,
                ..empty_table(t.sheet_type)
            },
        ),
        if has_data(t) {
            data_ok(t)
        } else {
            t.n_rows == 0 && t.data.len() == 0
        },
        next is Some ==> has_data(t),
        match next {
            None => o3 + data_part(t).len() == s.len(),
            Some(nx) => {
                &&& holds_at(s, o3 + data_part(t).len(), seq!['\n'] + nx + seq!['\n'])
                &&& bare_token(nx)
                &&& nx != kw_begin_data_format()
                &&& nx != kw_begin_data()
            },
        },
    ensures
        parse_items(s, o3 - 1, acc_f) == match next {
            None => Some(with_last(acc, t)),
            Some(nx) => parse_items(
                s,
                o3 + data_part(t).len() + 1 + nx.len(),
                with_last(acc, t).push(empty_table(nx)),
            ),
        },
{
    if has_data(t) {
        lemma_data_item(s, o3, t, acc_f, next);
        lemma_holds_char(s, o3, data_part(t), 0);
        lemma_skip_one_blank(s, o3 - 1);
        lemma_skip_blank_ge_local(s, o3 - 1);
        let ts2 = with_last(acc_f, TableView { data: t.data, n_rows: t.n_rows, ..acc_f.last() });
        assert(ts2 =~= with_last(acc, t));
        match next {
            None => {
                assert(skip_blank(s, s.len() as int, false) == s.len());
                assert(parse_items(s, s.len() as int, ts2) == Some(ts2));
            },
            Some(nx) => {},
        }
    } else {
        assert(o3 == s.len());
        assert(t.data =~= Seq::<Seq<char>>::empty());
        assert(acc_f =~= with_last(acc, t));
        assert(skip_blank(s, o3, false) == o3);
        assert(skip_blank(s, o3 - 1, false) == o3);
    }
}


proof fn lemma_tables_prefix(s: Seq<char>, ts: Seq<TableView>, m: int)
    requires
        s == tables_text(ts),
        1 <= m <= ts.len(),
    ensures
        holds_at(s, 0, tables_text(ts.take(m))),
    decreases ts.len() - m,
{
    if m == ts.len() {
        assert(ts.take(m) =~= ts);
        assert(s.subrange(0, s.len() as int) =~= s);
    } else {
        lemma_tables_prefix(s, ts, m + 1);
        assert(ts.take(m + 1).drop_last() =~= ts.take(m));
        assert(ts.take(m + 1).last() == ts[m]);
        lemma_holds_split(s, 0, tables_text(ts.take(m)) + seq!['\n'], table_text(ts[m]));
        lemma_holds_split(s, 0, tables_text(ts.take(m)), seq!['\n']);
    }
}

/// Where table `j` starts in the text of all tables.
pub open spec fn table_offset(ts: Seq<TableView>, j: int) -> int {
    if j == 0 {
        0
    } else {
        tables_text(ts.take(j)).len() + 1int
    }
}

proof fn lemma_tables_at(s: Seq<char>, ts: Seq<TableView>, j: int)
    requires
        s == tables_text(ts),
        0 <= j < ts.len(),
    ensures
        holds_at(s, table_offset(ts, j), table_text(ts[j])),
        table_offset(ts, j) + table_text(ts[j]).len() == tables_text(ts.take(j + 1)).len(),
        j + 1 < ts.len() ==> holds_at(
            s,
            tables_text(ts.take(j + 1)).len() as int,
            seq!['\n'] + table_text(ts[j + 1]),
        ),
        j + 1 == ts.len() ==> tables_text(ts.take(j + 1)).len() == s.len(),
{
    lemma_tables_prefix(s, ts, j + 1);
    if j == 0 {
        assert(ts.take(1) =~= seq![ts[0]]);
    } else {
        assert(ts.take(j + 1).drop_last() =~= ts.take(j));
        assert(ts.take(j + 1).last() == ts[j]);
        lemma_holds_split(s, 0, tables_text(ts.take(j)) + seq!['\n'], table_text(ts[j]));
    }
    if j + 1 < ts.len() {
        lemma_tables_prefix(s, ts, j + 2);
        assert(ts.take(j + 2).drop_last() =~= ts.take(j + 1));
        assert(ts.take(j + 2).last() == ts[j + 1]);
        assert(tables_text(ts.take(j + 2)) =~= tables_text(ts.take(j + 1)) + (seq!['\n'] + table_text(ts[j + 1])));
        lemma_holds_split(s, 0, tables_text(ts.take(j + 1)), seq!['\n'] + table_text(ts[j + 1]));
    } else {
        assert(ts.take(j + 1) =~= ts);
    }
}

/// Tables that read back from their text (see `table_ok`).
pub open spec fn tables_ok(ts: Seq<TableView>) -> bool {
    &&& ts.len() >= 1
    &&& forall|i: int| 0 <= i < ts.len() ==> table_ok(#[trigger] ts[i], i == 0, i == ts.len() - 1)
}

proof fn lemma_all_tables(s: Seq<char>, ts: Seq<TableView>, j: int)
    requires
        s == tables_text(ts),
        tables_ok(ts),
        0 <= j < ts.len(),
    ensures
        parse_items(
            s,
            table_offset(ts, j) + ts[j].sheet_type.len(),
            ts.take(j).push(empty_table(ts[j].sheet_type)),
        ) == Some(ts),
    decreases ts.len() - j,
{
    lemma_tables_at(s, ts, j);
    let acc = ts.take(j).push(empty_table(ts[j].sheet_type));
    assert(table_ok(ts[j], j == 0, j == ts.len() - 1));
    assert(with_last(acc, ts[j]) =~= ts.take(j + 1));
    if j + 1 < ts.len() {
        let nx = ts[j + 1].sheet_type;
        let e = tables_text(ts.take(j + 1)).len() as int;
        assert(table_ok(ts[j + 1], false, j + 1 == ts.len() - 1));
        assert(table_text(ts[j + 1]) =~= nx + seq!['\n'] + (props_text(ts[j + 1].properties) + fmt_part(
            ts[j + 1],
        ) + data_part(ts[j + 1])));
        assert(seq!['\n'] + table_text(ts[j + 1]) =~= (seq!['\n'] + nx + seq!['\n']) + (props_text(
            ts[j + 1].properties,
        ) + fmt_part(ts[j + 1]) + data_part(ts[j + 1])));
        lemma_holds_split(s, e, seq!['\n'] + nx + seq!['\n'], props_text(ts[j + 1].properties) + fmt_part(
            ts[j + 1],
        ) + data_part(ts[j + 1]));
        lemma_table(s, table_offset(ts, j), ts[j], acc, j == 0, Some(nx));
        lemma_all_tables(s, ts, j + 1);
    } else {
        lemma_table(s, table_offset(ts, j), ts[j], acc, j == 0, None);
        assert(ts.take(j + 1) =~= ts);
    }
}

/// Reading back what was written: the text of tables that survive the text
/// form (see `tables_ok`) reads as the same tables, the first one active.
pub proof fn law_save_load_round_trip(ts: Seq<TableView>)
    requires
        tables_ok(ts),
    ensures
        parse_it8(tables_text(ts)) == Some(
            It8View { tables: ts, current: 0, dbl_format: default_dbl_format() },
        ),
        forall|i: int| 0 <= i < ts.len() ==> writable(#[trigger] ts[i]),
{
    lemma_tables_writable(ts);
    lemma_reads_back(ts);
}

proof fn lemma_tables_writable(ts: Seq<TableView>)
    requires
        tables_ok(ts),
    ensures
        forall|i: int| 0 <= i < ts.len() ==> writable(#[trigger] ts[i]),
{
    assert forall|i: int| 0 <= i < ts.len() implies writable(#[trigger] ts[i]) by {
        assert(table_ok(ts[i], i == 0, i == ts.len() - 1));
    }
}

proof fn lemma_reads_back(ts: Seq<TableView>)
    requires
        tables_ok(ts),
    ensures
        parse_it8(tables_text(ts)) == Some(
            It8View { tables: ts, current: 0, dbl_format: default_dbl_format() },
        ),
{
    let s = tables_text(ts);
    lemma_tables_at(s, ts, 0);
    assert(table_ok(ts[0], true, 0 == ts.len() - 1));
    let sh = ts[0].sheet_type;
    assert(table_text(ts[0]) =~= sh + (seq!['\n'] + props_text(ts[0].properties) + fmt_part(ts[0]) + data_part(
        ts[0],
    )));
    lemma_holds_split(s, 0, sh, seq!['\n'] + props_text(ts[0].properties) + fmt_part(ts[0]) + data_part(ts[0]));
    lemma_holds_char(s, 0, sh, 0);
    lemma_holds_char(s, sh.len() as int, seq!['\n'] + props_text(ts[0].properties) + fmt_part(ts[0]) + data_part(ts[0]), 0);
    lemma_token_char_facts(sh[0]);
    assert(skip_blank(s, 0, false) == 0);
    lemma_read_bare(s, 0, sh);
    lemma_all_tables(s, ts, 0);
    assert(ts.take(0).push(empty_table(sh)) =~= seq![empty_table(sh)]);
}

/// Reading a cell right after writing it into a column of the table gives
/// the value written.
pub proof fn law_set_cell_then_get(t: TableView, row: int, col: int, v: Seq<char>)
    requires
        0 <= row,
        0 <= col < t.data_format.len(),
    ensures
        cell_at(table_set_cell(t, row, col, v), row, col) == Some(v),
{
    let n = t.data_format.len() as int;
    let n_rows: int = if row >= t.n_rows {
        row + 1
    } else {
        t.n_rows as int
    };
    assert(row * n + col < n_rows * n) by (nonlinear_arith)
        requires
            0 <= row < n_rows,
            0 <= col < n,
    ;
    assert(0 <= row * n) by (nonlinear_arith)
        requires
            0 <= row,
            0 <= n,
    ;
}

/// Reading a property right after setting it gives the value set.
pub proof fn law_set_property_then_get(p: Seq<(Seq<char>, Seq<char>)>, k: Seq<char>, v: Seq<char>)
    requires
        props_sorted(p),
    ensures
        props_get(props_insert(p, k, v), k) == Some(v),
        props_sorted(props_insert(p, k, v)),
{
    lemma_props_insert(p, k, v);
}

} // verus!
