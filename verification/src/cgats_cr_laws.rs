//! Carriage returns in a CGATS text: white space and line ends, just as
//! line feeds are.
use vstd::prelude::*;
use crate::cgats::{
    TableView, is_token_char, is_eol, skip_blank, skip_inline, skip_to_eol, token_end, quoted, read_token,
    kw_end_data_format, kw_sample_id, parse_format, read_row, at_end_data, parse_rows, parse_item,
    parse_items, parse_it8, empty_table, lemma_skip_blank_ge,
};

verus! {

/// `t` is `s` with the carriage return at `k` turned into a line feed.
pub open spec fn cr_as_lf(s: Seq<char>, k: int, t: Seq<char>) -> bool {
    &&& 0 <= k < s.len()
    &&& s[k] == '\r'
    &&& t == s.update(k, '\n')
}

/// Carriage returns are white space between items, and end a comment, just
/// as line feeds do: turning any one carriage return of a text into a line
/// feed moves the end of no run of blanks and comments.
pub proof fn law_blank_cr_as_lf(s: Seq<char>, k: int, t: Seq<char>, p: int, in_comment: bool)
    requires
        cr_as_lf(s, k, t),
    ensures
        skip_blank(s, p, in_comment) == skip_blank(t, p, in_comment),
    decreases s.len() - p,
{
    if 0 <= p < s.len() {
        assert(t[p] == s[p] || (p == k && s[p] == '\r' && t[p] == '\n'));
        law_blank_cr_as_lf(s, k, t, p + 1, true);
        law_blank_cr_as_lf(s, k, t, p + 1, false);
    }
}

/// A carriage return ends a line just as a line feed does, and neither
/// stands in a token nor counts as a space or tab: turning one carriage
/// return into a line feed moves the end of no line, token or run of spaces.
pub proof fn law_line_ends_cr_as_lf(s: Seq<char>, k: int, t: Seq<char>, p: int)
    requires
        cr_as_lf(s, k, t),
    ensures
        skip_to_eol(s, p) == skip_to_eol(t, p),
        token_end(s, p) == token_end(t, p),
        skip_inline(s, p) == skip_inline(t, p),
    decreases s.len() - p,
{
    if 0 <= p < s.len() {
        assert(t[p] == s[p] || (p == k && s[p] == '\r' && t[p] == '\n'));
        assert(!is_token_char('\r') && !is_token_char('\n')) by {
            assert(('\r' as u32) < 128 && ('\n' as u32) < 128);
        }
        law_line_ends_cr_as_lf(s, k, t, p + 1);
    }
}

/// A carriage return where an item may start is skipped: blanks and
/// comments are skipped past it.
pub proof fn law_blank_skips_cr(s: Seq<char>, p: int)
    requires
        0 <= p < s.len(),
        s[p] == '\r',
    ensures
        skip_blank(s, p, false) > p,
        skip_blank(s, p, false) == skip_blank(s, p + 1, false),
{
    lemma_skip_blank_ge(s, p + 1, false);
}


proof fn lemma_inline_ge(s: Seq<char>, p: int)
    ensures
        p <= skip_inline(s, p),
    decreases s.len() - p,
{
    if 0 <= p < s.len() && (s[p] == ' ' || s[p] == '\t') {
        lemma_inline_ge(s, p + 1);
    }
}

proof fn lemma_token_end_ge(s: Seq<char>, p: int)
    ensures
        p <= token_end(s, p),
    decreases s.len() - p,
{
    if 0 <= p < s.len() && is_token_char(s[p]) {
        lemma_token_end_ge(s, p + 1);
    }
}

proof fn lemma_quoted_ge(s: Seq<char>, q: int)
    ensures
        quoted(s, q) matches Some((v, e)) ==> q < e,
    decreases s.len() - q,
{
    if 0 <= q < s.len() && s[q] != '"' {
        if s[q] == '\\' {
            if q + 1 < s.len() {
                lemma_quoted_ge(s, q + 2);
            }
        } else {
            lemma_quoted_ge(s, q + 1);
        }
    }
}

/// A token read from a position lies after it.
proof fn lemma_token_after(s: Seq<char>, p: int)
    ensures
        read_token(s, p) matches Some((v, q)) ==> p < q,
{
    lemma_inline_ge(s, p);
    let p1 = skip_inline(s, p);
    lemma_quoted_ge(s, p1 + 1);
    lemma_token_end_ge(s, p1);
}

proof fn lemma_row_after(s: Seq<char>, p: int, n: nat)
    ensures
        read_row(s, p, n) matches Some((vs, e)) ==> p <= e,
    decreases n,
{
    if n > 0 {
        lemma_token_after(s, p);
        if let Some((v, q)) = read_token(s, p) {
            lemma_row_after(s, q, (n - 1) as nat);
        }
    }
}

proof fn lemma_rows_after(s: Seq<char>, p: int, n: nat, data: Seq<Seq<char>>, rows: nat)
    ensures
        parse_rows(s, p, n, data, rows) matches Some((d, r, q)) ==> p <= q,
    decreases s.len() - p,
{
    lemma_skip_blank_ge(s, p, false);
    let p1 = skip_blank(s, p, false);
    if p1 < s.len() {
        lemma_token_after(s, p1);
        if !at_end_data(s, p1) {
            if let Some((cells, q)) = read_row(s, p1, n) {
                let q2 = skip_to_eol(s, q);
                if p1 < q2 <= s.len() {
                    lemma_rows_after(s, q2, n, data + cells, rows + 1);
                }
            }
        }
    }
}

/// Every character from `p` up to the end of its token is a token character.
proof fn lemma_token_chars(s: Seq<char>, p: int, j: int)
    requires
        0 <= p <= j < token_end(s, p),
    ensures
        j < s.len(),
        is_token_char(s[j]),
    decreases s.len() - p,
{
    if j > p {
        lemma_token_chars(s, p + 1, j);
    }
}

/// A quoted string that starts after the carriage return reads the same.
proof fn lemma_quoted_after_cr(s: Seq<char>, k: int, t: Seq<char>, q: int)
    requires
        cr_as_lf(s, k, t),
        k < q,
    ensures
        quoted(s, q) == quoted(t, q),
    decreases s.len() - q,
{
    if 0 <= q < s.len() {
        assert(s[q] == t[q]);
        if q + 1 < s.len() {
            assert(s[q + 1] == t[q + 1]);
        }
        lemma_quoted_after_cr(s, k, t, q + 1);
        if q + 1 < s.len() {
            lemma_quoted_after_cr(s, k, t, q + 2);
        }
    }
}

/// Outside quoted strings a token reads the same once a carriage return
/// has become a line feed.
proof fn lemma_token_cr_as_lf(s: Seq<char>, k: int, t: Seq<char>, p: int)
    requires
        0 <= p,
        cr_as_lf(s, k, t),
        forall|i: int| 0 <= i <= k ==> s[i] != '"',
    ensures
        read_token(s, p) == read_token(t, p),
{
    law_line_ends_cr_as_lf(s, k, t, p);
    lemma_inline_ge(s, p);
    let p1 = skip_inline(s, p);
    if p1 < s.len() {
        law_line_ends_cr_as_lf(s, k, t, p1);
        let e = token_end(s, p1);
        lemma_token_end_ge(s, p1);
        assert(t[p1] == s[p1] || p1 == k);
        if s[p1] == '"' {
            lemma_quoted_after_cr(s, k, t, p1 + 1);
        }
        if s[p1] != '"' && e > p1 {
            assert(!is_token_char('\r')) by {
                assert(('\r' as u32) < 128);
            }
            assert forall|j: int| p1 <= j < e implies j < s.len() && s[j] == t[j] by {
                lemma_token_chars(s, p1, j);
            }
            lemma_token_chars(s, p1, e - 1);
            assert forall|i: int| 0 <= i < e - p1 implies #[trigger] s.subrange(p1, e)[i] == t.subrange(p1, e)[i] by {
                assert(s[p1 + i] == t[p1 + i]);
            }
            assert(s.subrange(p1, e) =~= t.subrange(p1, e));
        }
    }
}

proof fn lemma_row_cr_as_lf(s: Seq<char>, k: int, t: Seq<char>, p: int, n: nat)
    requires
        0 <= p,
        cr_as_lf(s, k, t),
        forall|i: int| 0 <= i <= k ==> s[i] != '"',
    ensures
        read_row(s, p, n) == read_row(t, p, n),
    decreases n,
{
    if n > 0 {
        lemma_token_cr_as_lf(s, k, t, p);
        lemma_token_after(s, p);
        if let Some((v, q)) = read_token(s, p) {
            lemma_row_cr_as_lf(s, k, t, q, (n - 1) as nat);
        }
    }
}

proof fn lemma_rows_cr_as_lf(s: Seq<char>, k: int, t: Seq<char>, p: int, n: nat, data: Seq<Seq<char>>, rows: nat)
    requires
        0 <= p,
        cr_as_lf(s, k, t),
        forall|i: int| 0 <= i <= k ==> s[i] != '"',
    ensures
        parse_rows(s, p, n, data, rows) == parse_rows(t, p, n, data, rows),
    decreases s.len() - p,
{
    law_blank_cr_as_lf(s, k, t, p, false);
    lemma_skip_blank_ge(s, p, false);
    let p1 = skip_blank(s, p, false);
    if p1 < s.len() {
        lemma_token_cr_as_lf(s, k, t, p1);
        lemma_row_cr_as_lf(s, k, t, p1, n);
        lemma_row_after(s, p1, n);
        if !at_end_data(s, p1) {
            if let Some((cells, q)) = read_row(s, p1, n) {
                law_line_ends_cr_as_lf(s, k, t, q);
                let q2 = skip_to_eol(s, q);
                if p1 < q2 <= s.len() {
                    lemma_skip_blank_ge(s, p, false);
                    lemma_rows_cr_as_lf(s, k, t, q2, n, data + cells, rows + 1);
                }
            }
        }
    }
}

proof fn lemma_format_cr_as_lf(s: Seq<char>, k: int, t: Seq<char>, p: int, cols: Seq<Seq<char>>, sid: nat)
    requires
        0 <= p,
        cr_as_lf(s, k, t),
        forall|i: int| 0 <= i <= k ==> s[i] != '"',
    ensures
        parse_format(s, p, cols, sid) == parse_format(t, p, cols, sid),
    decreases s.len() - p,
{
    law_blank_cr_as_lf(s, k, t, p, false);
    lemma_skip_blank_ge(s, p, false);
    let p1 = skip_blank(s, p, false);
    if p1 < s.len() {
        lemma_token_cr_as_lf(s, k, t, p1);
        if let Some((x, q)) = read_token(s, p1) {
            if x != kw_end_data_format() && p1 < q <= s.len() {
                lemma_skip_blank_ge(s, p, false);
                lemma_format_cr_as_lf(
                    s,
                    k,
                    t,
                    q,
                    cols.push(x),
                    if x == kw_sample_id() {
                        cols.len()
                    } else {
                        sid
                    },
                );
            }
        }
    }
}

#[verifier::spinoff_prover]
#[verifier::rlimit(50)]
proof fn lemma_item_cr_as_lf(s: Seq<char>, k: int, t: Seq<char>, p: int, ts: Seq<TableView>)
    requires
        0 <= p,
        cr_as_lf(s, k, t),
        forall|i: int| 0 <= i <= k ==> s[i] != '"',
    ensures
        parse_item(s, p, ts) == parse_item(t, p, ts),
{
    lemma_token_cr_as_lf(s, k, t, p);
    lemma_token_after(s, p);
    if let Some((x, q)) = read_token(s, p) {
        let last = ts.last();
        lemma_format_cr_as_lf(s, k, t, q, Seq::empty(), last.sample_id_col);
        lemma_rows_cr_as_lf(s, k, t, q, last.data_format.len(), Seq::empty(), 0);
        lemma_rows_after(s, q, last.data_format.len(), Seq::empty(), 0);
        if let Some((d, r, q2)) = parse_rows(s, q, last.data_format.len(), Seq::empty(), 0) {
            lemma_skip_blank_ge(s, q2, false);
            law_blank_cr_as_lf(s, k, t, q2, false);
            lemma_token_cr_as_lf(s, k, t, skip_blank(s, q2, false));
        }
        law_line_ends_cr_as_lf(s, k, t, q);
        lemma_inline_ge(s, q);
        let q2 = skip_inline(s, q);
        if 0 <= q2 < s.len() {
            assert(is_eol(s[q2]) == is_eol(t[q2]));
        }
        lemma_token_cr_as_lf(s, k, t, q2);
    }
}

proof fn lemma_items_cr_as_lf(s: Seq<char>, k: int, t: Seq<char>, p: int, ts: Seq<TableView>)
    requires
        0 <= p,
        cr_as_lf(s, k, t),
        forall|i: int| 0 <= i <= k ==> s[i] != '"',
    ensures
        parse_items(s, p, ts) == parse_items(t, p, ts),
    decreases s.len() - p,
{
    law_blank_cr_as_lf(s, k, t, p, false);
    lemma_skip_blank_ge(s, p, false);
    let p1 = skip_blank(s, p, false);
    if p1 < s.len() {
        lemma_item_cr_as_lf(s, k, t, p1, ts);
        if let Some((ts2, q)) = parse_item(s, p1, ts) {
            if p1 < q <= s.len() {
                lemma_skip_blank_ge(s, p, false);
                lemma_items_cr_as_lf(s, k, t, q, ts2);
            }
        }
    }
}

/// Carriage returns are white space and line ends just as line feeds are:
/// turning a carriage return that comes before every quoted string (before
/// the text's first double quote) into a line feed changes nothing that
/// reading the text gives.
pub proof fn law_parse_cr_as_lf(s: Seq<char>, k: int, t: Seq<char>)
    requires
        cr_as_lf(s, k, t),
        forall|i: int| 0 <= i <= k ==> s[i] != '"',
    ensures
        parse_it8(s) == parse_it8(t),
{
    law_blank_cr_as_lf(s, k, t, 0, false);
    lemma_skip_blank_ge(s, 0, false);
    let p = skip_blank(s, 0, false);
    lemma_token_cr_as_lf(s, k, t, p);
    lemma_token_after(s, p);
    if let Some((x, q)) = read_token(s, p) {
        lemma_items_cr_as_lf(s, k, t, q, seq![empty_table(x)]);
    }
}


} // verus!
