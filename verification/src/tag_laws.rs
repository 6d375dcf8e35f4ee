//! Reading back what was written: text tag payloads read as the values they
//! were written from.
use vstd::prelude::*;
use crate::error::ErrorCode;
use crate::named::{
    CountryCode, DictItem, LanguageCode, MluItem, ascii_or_question, first_exact, mlu_lookup, mlu_set,
    same_code,
};
use crate::profile::{
    DateTimeNumber, be16, be32, be64, bytes16, bytes32, bytes64, lemma_be16_bytes, lemma_be32_bytes,
};
use crate::tag_arrays::{
    MAX_CHANNELS,
    be16_seq, be32_seq, be64_seq, bytes16_all, bytes32_all, bytes64_all, datetime_at, datetime_bytes,
};
use crate::tag_types::{
    DictRecord, MLU_TYPE_SIGNATURE, MluRecord, all_ascii, crd_bytes, crd_read, crd_section,
    crd_text, lookup_ascii, ps_code, ascii_chars, ascii_text_mlu, char_bytes,
    code_or, english_text, text_description_bytes, text_type_bytes, trim_nul_bytes, country_us, dict_base, dict_data,
    dict_dir, dict_entries_read, dict_entry_bytes, dict_entry_read, dict_entry_record,
    dict_rec_filled, dict_rec_len, dict_record_at, dict_record_bytes, dict_type_bytes,
    dict_type_read, embedded_mlu_bytes, embedded_mlu_read, fits, has_display_name,
    has_display_value, lang_en, mlu_dir, mlu_fold, mlu_pool, mlu_record_at, mlu_record_bytes,
    mlu_records, mlu_type_bytes, mlu_type_read, mlu_written_text, opt_mlu_bytes, opt_mlu_read,
    opt_text_bytes, opt_text_read, pool_offset, rebase, seek_to, strip_nuls, text_read, utf8_pair,
};
use crate::text::{
    be_units16, law_be16_round_trip, law_utf16_round_trip, law_utf16be_round_trip,
    lemma_encode_push, utf16_decode, utf16_encode, utf16_units, utf16be, utf16be_decode,
};

verus! {

broadcast use vstd::array::group_array_axioms;

/// `b` holds `x` from position `o` on.
pub open spec fn holds_bytes(b: Seq<u8>, o: int, x: Seq<u8>) -> bool {
    0 <= o && o + x.len() <= b.len() && b.subrange(o, o + x.len()) == x
}

/// No two translations share both their language and their country.
pub open spec fn distinct_codes(v: Seq<MluItem>) -> bool {
    forall|i: int, j: int|
        0 <= i < j < v.len() ==> !(same_code(#[trigger] v[i].0.0, #[trigger] v[j].0.0) && same_code(
            v[i].1.0,
            v[j].1.0,
        ))
}

/// Every language and country code reads as UTF-8 text.
pub open spec fn readable_codes(v: Seq<MluItem>) -> bool {
    forall|i: int| 0 <= i < v.len() ==> utf8_pair(#[trigger] v[i].0.0) && utf8_pair(v[i].1.0)
}

pub(crate) proof fn lemma_holds_split(b: Seq<u8>, o: int, x: Seq<u8>, y: Seq<u8>)
    requires
        holds_bytes(b, o, x + y),
    ensures
        holds_bytes(b, o, x),
        holds_bytes(b, o + x.len(), y),
{
    assert(b.subrange(o, o + x.len()) =~= (x + y).subrange(0, x.len() as int));
    assert((x + y).subrange(0, x.len() as int) =~= x);
    assert forall|i: int| 0 <= i < y.len() implies b.subrange(o + x.len(), o + x.len() + y.len())[i]
        == y[i] by {
        assert(b.subrange(o, o + (x + y).len())[x.len() + i] == (x + y)[x.len() + i]);
    }
    assert(b.subrange(o + x.len(), o + x.len() + y.len()) =~= y);
}

pub(crate) proof fn lemma_holds_sub(b: Seq<u8>, o: int, x: Seq<u8>, i: int, j: int)
    requires
        holds_bytes(b, o, x),
        0 <= i <= j <= x.len(),
    ensures
        holds_bytes(b, o + i, x.subrange(i, j)),
{
    assert forall|k: int| 0 <= k < j - i implies b.subrange(o + i, o + j)[k] == x.subrange(i, j)[k] by {
        assert(b.subrange(o, o + x.len())[i + k] == x[i + k]);
    }
    assert(b.subrange(o + i, o + j) =~= x.subrange(i, j));
}

pub(crate) proof fn lemma_holds_byte(b: Seq<u8>, o: int, x: Seq<u8>, i: int)
    requires
        holds_bytes(b, o, x),
        0 <= i < x.len(),
    ensures
        b[o + i] == x[i],
{
    assert(b.subrange(o, o + x.len())[i] == x[i]);
}

pub(crate) proof fn lemma_be32_held(b: Seq<u8>, o: int, v: u32)
    requires
        holds_bytes(b, o, bytes32(v)),
    ensures
        be32(b, o) == v,
{
    lemma_be32_bytes(v);
    let x = bytes32(v);
    lemma_holds_byte(b, o, x, 0);
    lemma_holds_byte(b, o, x, 1);
    lemma_holds_byte(b, o, x, 2);
    lemma_holds_byte(b, o, x, 3);
}

proof fn lemma_dir_record(v: Seq<MluItem>, n: int, k: int)
    requires
        0 <= k < n,
    ensures
        mlu_dir(v, n).len() == 12 * n,
        mlu_dir(v, n).subrange(12 * k, 12 * k + 12) == mlu_record_bytes(v, k),
    decreases n,
{
    if k < n - 1 {
        lemma_dir_record(v, n - 1, k);
        assert(mlu_dir(v, n).subrange(12 * k, 12 * k + 12) =~= mlu_dir(v, n - 1).subrange(
            12 * k,
            12 * k + 12,
        ));
    } else {
        lemma_dir_len(v, n - 1);
        assert(mlu_dir(v, n).subrange(12 * k, 12 * k + 12) =~= mlu_record_bytes(v, k));
    }
}

proof fn lemma_dir_len(v: Seq<MluItem>, n: int)
    requires
        0 <= n,
    ensures
        mlu_dir(v, n).len() == 12 * n,
    decreases n,
{
    if n > 0 {
        lemma_dir_len(v, n - 1);
    }
}

proof fn lemma_pool_piece(v: Seq<MluItem>, n: int, k: int)
    requires
        0 <= k < n,
    ensures
        mlu_pool(v, k + 1).len() <= mlu_pool(v, n).len(),
        mlu_pool(v, k + 1).len() == mlu_pool(v, k).len() + utf16be(mlu_written_text(v, k)).len(),
        mlu_pool(v, n).subrange(
            mlu_pool(v, k).len() as int,
            (mlu_pool(v, k).len() + utf16be(mlu_written_text(v, k)).len()) as int,
        ) == utf16be(mlu_written_text(v, k)),
    decreases n,
{
    if k < n - 1 {
        lemma_pool_piece(v, n - 1, k);
        let s = mlu_pool(v, k).len() as int;
        let e = s + utf16be(mlu_written_text(v, k)).len();
        assert(mlu_pool(v, n).subrange(s, e) =~= mlu_pool(v, n - 1).subrange(s, e));
    } else {
        assert(mlu_pool(v, n).subrange(
            mlu_pool(v, k).len() as int,
            (mlu_pool(v, k).len() + utf16be(mlu_written_text(v, k)).len()) as int,
        ) =~= utf16be(mlu_written_text(v, k)));
    }
}

proof fn lemma_first_exact_at(v: Seq<MluItem>, k: int, j: int)
    requires
        0 <= j <= k < v.len(),
        distinct_codes(v),
    ensures
        first_exact(v, v[k].0, v[k].1, j) == Some(k),
    decreases k - j,
{
    if j < k {
        assert(!(same_code(v[j].0.0, v[k].0.0) && same_code(v[j].1.0, v[k].1.0)));
        lemma_first_exact_at(v, k, j + 1);
    }
}

proof fn lemma_first_exact_none(v: Seq<MluItem>, k: int, j: int)
    requires
        0 <= j <= k < v.len(),
        distinct_codes(v),
    ensures
        first_exact(v.take(k), v[k].0, v[k].1, j) is None,
    decreases k - j,
{
    if j < k {
        assert(v.take(k)[j] == v[j]);
        assert(!(same_code(v[j].0.0, v[k].0.0) && same_code(v[j].1.0, v[k].1.0)));
        lemma_first_exact_none(v, k, j + 1);
    }
}

/// The text written for a translation is its own, when codes are readable
/// and distinct.
proof fn lemma_written_text(v: Seq<MluItem>, k: int)
    requires
        0 <= k < v.len(),
        distinct_codes(v),
        readable_codes(v),
    ensures
        mlu_written_text(v, k) == v[k].2,
{
    assert(utf8_pair(v[k].0.0) && utf8_pair(v[k].1.0));
    assert(LanguageCode(code_or(v[k].0.0, lang_en())) == v[k].0);
    assert(CountryCode(code_or(v[k].1.0, country_us())) == v[k].1);
    lemma_first_exact_at(v, k, 0);
    assert(mlu_lookup(v, v[k].0, v[k].1) == Some(k));
}

/// The records a payload's reader sees: codes, string length and offset.
spec fn written_records(v: Seq<MluItem>) -> Seq<MluRecord> {
    Seq::new(
        v.len(),
        |k: int|
            (
                v[k].0.0,
                v[k].1.0,
                utf16be(mlu_written_text(v, k)).len() as u32,
                (8 + 12 * v.len() + mlu_pool(v, k).len()) as u32,
            ),
    )
}

proof fn lemma_fold_written(v: Seq<MluItem>, k: int)
    requires
        0 <= k <= v.len(),
        distinct_codes(v),
        readable_codes(v),
        mlu_type_bytes(v).len() <= u32::MAX,
    ensures
        mlu_fold(written_records(v).take(k), mlu_pool(v, v.len() as int), (8 + 12 * v.len()) as int)
            == v.take(k),
    decreases k,
{
    let n = v.len() as int;
    let recs = written_records(v);
    let pool = mlu_pool(v, n);
    let ps = 8 + 12 * n;
    if k == 0 {
        assert(recs.take(0) =~= Seq::<MluRecord>::empty());
        assert(v.take(0) =~= Seq::<MluItem>::empty());
    } else {
        let i = k - 1;
        lemma_fold_written(v, i);
        assert(recs.take(k).drop_last() =~= recs.take(i));
        let r = recs.take(k).last();
        assert(r == recs[i]);
        lemma_pool_piece(v, n, i);
        lemma_dir_len(v, n);
        let t = mlu_written_text(v, i);
        let pk = mlu_pool(v, i).len();
        assert(mlu_type_bytes(v).len() == 8 + 12 * n + pool.len());
        assert(r.2 == utf16be(t).len());
        assert(r.3 == ps + pk);
        assert(pool_offset(r, ps) == pk);
        lemma_written_text(v, i);
        law_utf16be_round_trip(v[i].2);
        assert(utf16be_decode(pool.subrange(pk as int, pk + r.2)) == v[i].2);
        assert(utf8_pair(v[i].0.0) && utf8_pair(v[i].1.0));
        lemma_first_exact_none(v, i, 0);
        assert(LanguageCode(code_or(r.0, lang_en())) == v[i].0);
        assert(CountryCode(code_or(r.1, country_us())) == v[i].1);
        assert(mlu_set(v.take(i), v[i].0, v[i].1, v[i].2) =~= v.take(i).push(v[i]));
        assert(v.take(i).push(v[i]) =~= v.take(k));
    }
}

/// A multi-localized text payload read back from where it was written gives
/// the same translations, when every code reads as UTF-8 text and no two
/// translations share both codes; the stream is left at the payload's end.
pub proof fn law_mlu_type_round_trip(v: Seq<MluItem>, b: Seq<u8>, p: int)
    requires
        distinct_codes(v),
        readable_codes(v),
        mlu_type_bytes(v).len() <= u32::MAX,
        holds_bytes(b, p, mlu_type_bytes(v)),
    ensures
        mlu_type_read(b, p, mlu_type_bytes(v).len() as int) == (
        Ok::<Seq<MluItem>, ErrorCode>(v),
        p + mlu_type_bytes(v).len(),
        ),
{
    let n = v.len() as int;
    let bytes = mlu_type_bytes(v);
    let dir = mlu_dir(v, n);
    let pool = mlu_pool(v, n);
    lemma_dir_len(v, n);
    assert(bytes == bytes32(n as u32) + bytes32(12) + dir + pool);
    lemma_holds_split(b, p, bytes32(n as u32) + bytes32(12) + dir, pool);
    lemma_holds_split(b, p, bytes32(n as u32) + bytes32(12), dir);
    lemma_holds_split(b, p, bytes32(n as u32), bytes32(12));
    lemma_be32_held(b, p, n as u32);
    lemma_be32_held(b, p + 4, 12);
    let q = p + 8;
    let pq = q + 12 * n;
    let ps = 8 + 12 * n;
    assert(be32(b, p) as int == n);
    assert(fits(b, q, 12 * n));
    assert(fits(b, pq, pool.len() as int));
    let size = bytes.len() as int;
    assert(size == ps + pool.len());
    assert(b.subrange(pq, pq + pool.len()) == pool);
    let recs = mlu_records(b, q, n);
    let wr = written_records(v);
    assert forall|k: int| 0 <= k < n implies #[trigger] recs[k] == wr[k] by {
        lemma_dir_record(v, n, k);
        lemma_holds_sub(b, q, dir, 12 * k, 12 * k + 12);
        let at = q + 12 * k;
        let rb = mlu_record_bytes(v, k);
        let t = mlu_written_text(v, k);
        let off = (8 + 12 * n + mlu_pool(v, k).len()) as u32;
        assert(rb == seq![v[k].0.0[0], v[k].0.0[1], v[k].1.0[0], v[k].1.0[1]] + bytes32(
            utf16be(t).len() as u32,
        ) + bytes32(off));
        lemma_holds_split(
            b,
            at,
            seq![v[k].0.0[0], v[k].0.0[1], v[k].1.0[0], v[k].1.0[1]] + bytes32(
                utf16be(t).len() as u32,
            ),
            bytes32(off),
        );
        lemma_holds_split(
            b,
            at,
            seq![v[k].0.0[0], v[k].0.0[1], v[k].1.0[0], v[k].1.0[1]],
            bytes32(utf16be(t).len() as u32),
        );
        lemma_holds_byte(b, at, rb, 0);
        lemma_holds_byte(b, at, rb, 1);
        lemma_holds_byte(b, at, rb, 2);
        lemma_holds_byte(b, at, rb, 3);
        lemma_be32_held(b, at + 4, utf16be(t).len() as u32);
        lemma_be32_held(b, at + 8, off);
        assert([b[at], b[at + 1]] =~= v[k].0.0);
        assert([b[at + 2], b[at + 3]] =~= v[k].1.0);
        assert(recs[k] == mlu_record_at(b, at));
    }
    assert(recs =~= wr);
    lemma_fold_written(v, n);
    assert(wr.take(n) =~= wr);
    assert(v.take(n) =~= v);
}

// ---------------------------------------------------------------------------
// Dictionaries
// ---------------------------------------------------------------------------

/// A string whose UTF-16 form has no trailing NUL unit: empty, or not
/// ending in U+0000.
pub open spec fn no_trailing_nul(t: Seq<char>) -> bool {
    t.len() == 0 || t.last() != '\0'
}

/// A display text that comes back as written: readable, distinct codes.
pub open spec fn mlu_round_trips(m: Option<Seq<MluItem>>) -> bool {
    m matches Some(v) ==> distinct_codes(v) && readable_codes(v)
}

/// Entries that come back as written: names without a trailing NUL, values
/// absent or non-empty without a trailing NUL, display texts readable with
/// distinct codes; no more than 65536 entries; and a display value only
/// where some entry also has a display name (otherwise the records are
/// filled in short of their length).
pub open spec fn dict_round_trips(d: Seq<DictItem>) -> bool {
    &&& d.len() <= 0x10000
    &&& has_display_value(d) ==> has_display_name(d)
    &&& forall|i: int|
        0 <= i < d.len() ==> {
            &&& no_trailing_nul((#[trigger] d[i]).0)
            &&& (d[i].1 matches Some(v) ==> v.len() > 0 && no_trailing_nul(v))
            &&& mlu_round_trips(d[i].2)
            &&& mlu_round_trips(d[i].3)
        }
}

proof fn lemma_encode_len(t: Seq<char>)
    ensures
        utf16_encode(t).len() >= t.len(),
    decreases t.len(),
{
    if t.len() > 0 {
        lemma_encode_len(t.skip(1));
    }
}

proof fn lemma_strip_encoded(t: Seq<char>)
    requires
        no_trailing_nul(t),
    ensures
        strip_nuls(utf16_encode(t)) == utf16_encode(t),
{
    if t.len() > 0 {
        let c = t.last();
        assert(t =~= t.drop_last().push(c));
        lemma_encode_push(t.drop_last(), c);
        let u = utf16_encode(t);
        assert(u.last() == utf16_units(c).last());
        let v = c as u32 as int;
        if v < 0x10000 {
            assert(utf16_units(c) == seq![v as u16]);
            if v == 0 {
                crate::text::lemma_char_cast(c, 0);
                assert(c == '\0');
            }
        }
        assert(u.last() != 0);
    } else {
        assert(utf16_encode(t).len() == 0);
    }
}

/// A string written as UTF-16BE reads back as itself.
proof fn lemma_text_read_back(b: Seq<u8>, at: int, t: Seq<char>, c: int)
    requires
        no_trailing_nul(t),
        holds_bytes(b, at, utf16be(t)),
        utf16be(t).len() > 0,
    ensures
        text_read(b, at, utf16be(t).len() as int) == Ok::<(Seq<char>, int), ErrorCode>(
            (t, at + utf16be(t).len()),
        ),
{
    let x = utf16be(t);
    assert(x.len() == 2 * utf16_encode(t).len());
    law_be16_round_trip(utf16_encode(t));
    lemma_strip_encoded(t);
    law_utf16_round_trip(t);
    assert(b.subrange(at, at + x.len()) == x);
}

/// Where entry `k`'s data starts in a payload written at `o`.
pub open spec fn entry_pos(d: Seq<DictItem>, k: int, o: int) -> int {
    o + 8 + d.len() * dict_rec_len(d) + dict_data(d, k).len()
}

/// The record a reader sees for entry `k`: stream positions (0 for absent)
/// and sizes.
pub open spec fn expected_record(d: Seq<DictItem>, k: int, o: int) -> DictRecord {
    let s = entry_pos(d, k, o);
    let nl = utf16be(d[k].0).len() as int;
    let vl = opt_text_bytes(d[k].1).len() as int;
    let dnl = opt_mlu_bytes(d[k].2, has_display_name(d)).len() as int;
    let dvl = opt_mlu_bytes(d[k].3, has_display_value(d)).len() as int;
    (
        s,
        nl,
        if d[k].1 is Some {
            s + nl
        } else {
            0
        },
        vl,
        if has_display_name(d) && d[k].2 is Some {
            s + nl + vl
        } else {
            0
        },
        dnl,
        if has_display_value(d) && d[k].3 is Some {
            s + nl + vl + dnl
        } else {
            0
        },
        dvl,
    )
}

proof fn lemma_dict_dir_record(d: Seq<DictItem>, n: int, k: int, o: int)
    requires
        0 <= k < n,
    ensures
        dict_dir(d, n, o).subrange(k * dict_rec_filled(d), k * dict_rec_filled(d) + dict_rec_filled(d))
            == dict_entry_record(d, k, o),
        dict_dir(d, n, o).len() == n * dict_rec_filled(d),
    decreases n,
{
    let f = dict_rec_filled(d);
    lemma_dir_len_d(d, n, o);
    lemma_dir_len_d(d, n - 1, o);
    lemma_record_len_d(d, n - 1, o);
    assert(n * f == (n - 1) * f + f) by (nonlinear_arith);
    assert(k * f + f <= (n - 1) * f + f) by (nonlinear_arith)
        requires
            k <= n - 1,
            f >= 0,
    ;
    if k < n - 1 {
        lemma_dict_dir_record(d, n - 1, k, o);
        assert(k * f + f <= (n - 1) * f) by (nonlinear_arith)
            requires
                k + 1 <= n - 1,
                f >= 0,
        ;
        assert(dict_dir(d, n, o).subrange(k * f, k * f + f) =~= dict_dir(d, n - 1, o).subrange(
            k * f,
            k * f + f,
        ));
    } else {
        assert(dict_dir(d, n, o).subrange(k * f, k * f + f) =~= dict_entry_record(d, k, o));
    }
}

proof fn lemma_record_len_d(d: Seq<DictItem>, i: int, o: int)
    ensures
        dict_entry_record(d, i, o).len() == dict_rec_filled(d),
{
    reveal(dict_entry_record);
}

proof fn lemma_dir_len_d(d: Seq<DictItem>, k: int, o: int)
    requires
        0 <= k,
    ensures
        dict_dir(d, k, o).len() == k * dict_rec_filled(d),
    decreases k,
{
    let f = dict_rec_filled(d);
    if k > 0 {
        lemma_dir_len_d(d, k - 1, o);
        lemma_record_len_d(d, k - 1, o);
        assert(k * f == (k - 1) * f + f) by (nonlinear_arith);
    } else {
        assert(k * f == 0) by (nonlinear_arith)
            requires
                k == 0,
        ;
    }
}

proof fn lemma_dict_data_piece(d: Seq<DictItem>, n: int, k: int)
    requires
        0 <= k < n,
    ensures
        dict_data(d, k + 1).len() <= dict_data(d, n).len(),
        dict_data(d, k + 1).len() == dict_data(d, k).len() + dict_entry_bytes(d, k).len(),
        dict_data(d, n).subrange(
            dict_data(d, k).len() as int,
            (dict_data(d, k).len() + dict_entry_bytes(d, k).len()) as int,
        ) == dict_entry_bytes(d, k),
    decreases n,
{
    let s = dict_data(d, k).len() as int;
    let e = s + dict_entry_bytes(d, k).len();
    if k < n - 1 {
        lemma_dict_data_piece(d, n - 1, k);
        assert(dict_data(d, n).subrange(s, e) =~= dict_data(d, n - 1).subrange(s, e));
    } else {
        assert(dict_data(d, n).subrange(s, e) =~= dict_entry_bytes(d, k));
    }
}

/// The parts of a filled-in record read back as written.
proof fn lemma_record_fields(
    b: Seq<u8>,
    r: int,
    no: int,
    ns: int,
    vo: int,
    vs: int,
    on_dn: bool,
    dno: int,
    dns: int,
    on_dv: bool,
    dvo: int,
    dvs: int,
)
    requires
        holds_bytes(b, r, dict_record_bytes(no, ns, vo, vs, on_dn, dno, dns, on_dv, dvo, dvs)),
        on_dv ==> on_dn,
        0 <= no <= u32::MAX,
        0 <= ns <= u32::MAX,
        0 <= vo <= u32::MAX,
        0 <= vs <= u32::MAX,
        0 <= dno <= u32::MAX,
        0 <= dns <= u32::MAX,
        0 <= dvo <= u32::MAX,
        0 <= dvs <= u32::MAX,
    ensures
        be32(b, r) == no,
        be32(b, r + 4) == ns,
        be32(b, r + 8) == vo,
        be32(b, r + 12) == vs,
        on_dn ==> be32(b, r + 16) == dno && be32(b, r + 20) == dns,
        on_dv ==> be32(b, r + 24) == dvo && be32(b, r + 28) == dvs,
{
    let p1 = bytes32(no as u32) + bytes32(ns as u32) + bytes32(vo as u32) + bytes32(vs as u32);
    let p2 = if on_dn {
        bytes32(dno as u32) + bytes32(dns as u32)
    } else {
        Seq::empty()
    };
    let p3 = if on_dv {
        bytes32(dvo as u32) + bytes32(dvs as u32)
    } else {
        Seq::empty()
    };
    assert(dict_record_bytes(no, ns, vo, vs, on_dn, dno, dns, on_dv, dvo, dvs) == p1 + p2 + p3);
    lemma_holds_split(b, r, p1 + p2, p3);
    lemma_holds_split(b, r, p1, p2);
    lemma_holds_split(
        b,
        r,
        bytes32(no as u32) + bytes32(ns as u32) + bytes32(vo as u32),
        bytes32(vs as u32),
    );
    lemma_holds_split(b, r, bytes32(no as u32) + bytes32(ns as u32), bytes32(vo as u32));
    lemma_holds_split(b, r, bytes32(no as u32), bytes32(ns as u32));
    lemma_be32_held(b, r, no as u32);
    lemma_be32_held(b, r + 4, ns as u32);
    lemma_be32_held(b, r + 8, vo as u32);
    lemma_be32_held(b, r + 12, vs as u32);
    if on_dn {
        lemma_holds_split(b, r + 16, bytes32(dno as u32), bytes32(dns as u32));
        lemma_be32_held(b, r + 16, dno as u32);
        lemma_be32_held(b, r + 20, dns as u32);
    }
    if on_dv {
        lemma_holds_split(b, r + 24, bytes32(dvo as u32), bytes32(dvs as u32));
        lemma_be32_held(b, r + 24, dvo as u32);
        lemma_be32_held(b, r + 28, dvs as u32);
    }
}

/// The record stored for entry `k` reads as the positions and sizes of its
/// parts.
#[verifier::spinoff_prover]
#[verifier::rlimit(50)]
proof fn lemma_record_read_back(d: Seq<DictItem>, b: Seq<u8>, o: int, k: int)
    requires
        0 <= k < d.len(),
        0 <= o,
        dict_round_trips(d),
        o + dict_type_bytes(d, o).len() <= u32::MAX,
        holds_bytes(b, o + 8 + dict_rec_len(d) * k, dict_entry_record(d, k, o)),
        entry_pos(d, k + 1, o) <= o + dict_type_bytes(d, o).len(),
        dict_data(d, k + 1).len() == dict_data(d, k).len() + dict_entry_bytes(d, k).len(),
    ensures
        dict_record_at(b, o + 8 + dict_rec_len(d) * k, dict_rec_len(d), dict_base(o))
            == expected_record(d, k, o),
{
    reveal(dict_entry_record);
    let base = dict_base(o);
    let s = entry_pos(d, k, o);
    let nl = utf16be(d[k].0).len() as int;
    let vl = opt_text_bytes(d[k].1).len() as int;
    let dnl = opt_mlu_bytes(d[k].2, has_display_name(d)).len() as int;
    let dvl = opt_mlu_bytes(d[k].3, has_display_value(d)).len() as int;
    let hn = has_display_name(d);
    let hv = has_display_value(d);
    assert(dict_entry_bytes(d, k).len() == nl + vl + dnl + dvl);
    assert(s + nl + vl + dnl + dvl <= u32::MAX);
    let vo = if d[k].1 is Some {
        s + nl - base
    } else {
        0
    };
    let dno = if hn && d[k].2 is Some {
        s + nl + vl - base
    } else {
        0
    };
    let dvo = if hv && d[k].3 is Some {
        s + nl + vl + dnl - base
    } else {
        0
    };
    let r = o + 8 + dict_rec_len(d) * k;
    lemma_record_fields(b, r, s - base, nl, vo, vl, hn, dno, dnl, hv, dvo, dvl);
    assert(s - base > 0);
    let rec = dict_record_at(b, r, dict_rec_len(d), base);
    let ex = expected_record(d, k, o);
    assert(rec.0 == ex.0);
    assert(rec.1 == ex.1);
    assert(rec.2 == ex.2);
    assert(rec.3 == ex.3);
    if !hn {
        assert forall|i: int| 0 <= i < d.len() implies (#[trigger] d[i]).2 is None by {}
        assert(d[k].2 is None);
    }
    if !hv {
        assert(d[k].3 is None);
    }
    assert(rec.4 == ex.4);
    assert(rec.5 == ex.5);
    assert(rec.6 == ex.6);
    assert(rec.7 == ex.7);
}

proof fn lemma_utf16be_empty(t: Seq<char>)
    requires
        utf16be(t).len() == 0,
    ensures
        t == Seq::<char>::empty(),
{
    lemma_encode_len(t);
    assert(utf16be(t).len() == 2 * utf16_encode(t).len());
    assert(t =~= Seq::<char>::empty());
}

/// A name stored at `s` reads back as itself (an empty one is not read).
proof fn lemma_name_back(b: Seq<u8>, c: int, s: int, name: Seq<char>)
    requires
        s > 0,
        no_trailing_nul(name),
        holds_bytes(b, s, utf16be(name)),
    ensures
        opt_text_read(b, c, s, utf16be(name).len() as int) matches Ok((r, _)) && match r {
            Some(t) => t,
            None => Seq::empty(),
        } == name,
{
    if utf16be(name).len() > 0 {
        lemma_text_read_back(b, s, name, c);
        assert(seek_to(b, c, s) == s);
    } else {
        lemma_utf16be_empty(name);
    }
}

/// An optional value stored at `pos` reads back as itself.
proof fn lemma_value_back(b: Seq<u8>, c: int, pos: int, t: Option<Seq<char>>)
    requires
        pos > 0,
        holds_bytes(b, pos, opt_text_bytes(t)),
        t matches Some(v) ==> v.len() > 0 && no_trailing_nul(v),
    ensures
        opt_text_read(
            b,
            c,
            if t is Some {
                pos
            } else {
                0
            },
            opt_text_bytes(t).len() as int,
        ) matches Ok((r, _)) && r == t,
{
    if let Some(v) = t {
        lemma_encode_len(v);
        assert(utf16be(v).len() == 2 * utf16_encode(v).len());
        lemma_text_read_back(b, pos, v, c);
        assert(seek_to(b, c, pos) == pos);
    }
}

/// An optional display text stored at `pos` reads back as itself.
proof fn lemma_display_back(b: Seq<u8>, c: int, pos: int, m: Option<Seq<MluItem>>, on: bool)
    requires
        pos > 0,
        on || m is None,
        holds_bytes(b, pos, opt_mlu_bytes(m, on)),
        pos + opt_mlu_bytes(m, on).len() <= u32::MAX,
        mlu_round_trips(m),
    ensures
        opt_mlu_read(
            b,
            c,
            if on && m is Some {
                pos
            } else {
                0
            },
            opt_mlu_bytes(m, on).len() as int,
        ) matches Ok((r, _)) && r == m,
{
    if let Some(v) = m {
        let e = embedded_mlu_bytes(v);
        assert(opt_mlu_bytes(m, on) == e);
        let head = bytes32(MLU_TYPE_SIGNATURE) + bytes32(0);
        assert(e == head + mlu_type_bytes(v));
        lemma_holds_split(b, pos, head, mlu_type_bytes(v));
        assert(seek_to(b, c, pos) == pos);
        assert(fits(b, pos, 4) && fits(b, pos + 4, 4));
        law_mlu_type_round_trip(v, b, pos + 8);
        assert(e.len() - 8 == mlu_type_bytes(v).len());
    }
}

/// Entry `k`, its data stored where it was written, reads back as itself
/// whatever the stream's position before.
#[verifier::spinoff_prover]
#[verifier::rlimit(40)]
proof fn lemma_entry_back(d: Seq<DictItem>, b: Seq<u8>, o: int, k: int, c: int)
    requires
        0 <= k < d.len(),
        0 <= o,
        dict_round_trips(d),
        holds_bytes(b, entry_pos(d, k, o), dict_entry_bytes(d, k)),
        entry_pos(d, k, o) + dict_entry_bytes(d, k).len() <= u32::MAX,
    ensures
        dict_entry_read(b, c, expected_record(d, k, o)) matches Ok((it, _)) && it == d[k],
{
    reveal(dict_entry_read);
    let s = entry_pos(d, k, o);
    let hn = has_display_name(d);
    let hv = has_display_value(d);
    let nb = utf16be(d[k].0);
    let vb = opt_text_bytes(d[k].1);
    let db = opt_mlu_bytes(d[k].2, hn);
    let wb = opt_mlu_bytes(d[k].3, hv);
    assert(dict_entry_bytes(d, k) == nb + vb + db + wb);
    lemma_holds_split(b, s, nb + vb + db, wb);
    lemma_holds_split(b, s, nb + vb, db);
    lemma_holds_split(b, s, nb, vb);
    assert(s >= 8) by {
        assert(d.len() * dict_rec_len(d) >= 0) by (nonlinear_arith)
            requires
                dict_rec_len(d) >= 16,
        ;
    }
    assert(no_trailing_nul(d[k].0));
    if !hn {
        assert(d[k].2 is None);
    }
    if !hv {
        assert(d[k].3 is None);
    }
    let ex = expected_record(d, k, o);
    lemma_name_back(b, c, s, d[k].0);
    let (name_r, c1) = opt_text_read(b, c, ex.0, ex.1)->Ok_0;
    lemma_value_back(b, c1, s + nb.len(), d[k].1);
    let (value_r, c2) = opt_text_read(b, c1, ex.2, ex.3)->Ok_0;
    lemma_display_back(b, c2, s + nb.len() + vb.len(), d[k].2, hn);
    let (dn_r, c3) = opt_mlu_read(b, c2, ex.4, ex.5)->Ok_0;
    lemma_display_back(b, c3, s + nb.len() + vb.len() + db.len(), d[k].3, hv);
}

/// The entries from `k` on read back as written, whatever the stream's
/// position before.
proof fn lemma_entries_back(d: Seq<DictItem>, b: Seq<u8>, o: int, recs: Seq<DictRecord>, k: int, c: int)
    requires
        0 <= k <= d.len(),
        0 <= o,
        dict_round_trips(d),
        recs.len() == d.len(),
        forall|j: int| 0 <= j < d.len() ==> #[trigger] recs[j] == expected_record(d, j, o),
        holds_bytes(b, entry_pos(d, 0, o), dict_data(d, d.len() as int)),
        entry_pos(d, 0, o) + dict_data(d, d.len() as int).len() <= u32::MAX,
    ensures
        dict_entries_read(b, c, recs.skip(k)) == Ok::<Seq<DictItem>, ErrorCode>(d.skip(k)),
    decreases d.len() - k,
{
    let n = d.len() as int;
    if k == n {
        assert(recs.skip(k) =~= Seq::<DictRecord>::empty());
        assert(d.skip(k) =~= Seq::<DictItem>::empty());
    } else {
        lemma_dict_data_piece(d, n, k);
        let s0 = dict_data(d, k).len() as int;
        lemma_holds_sub(b, entry_pos(d, 0, o), dict_data(d, n), s0, s0 + dict_entry_bytes(d, k).len());
        assert(dict_data(d, 0).len() == 0);
        assert(entry_pos(d, 0, o) + s0 == entry_pos(d, k, o));
        lemma_entry_back(d, b, o, k, c);
        assert(recs.skip(k)[0] == recs[k]);
        assert(recs.skip(k).skip(1) =~= recs.skip(k + 1));
        let (it, c2) = dict_entry_read(b, c, recs[k])->Ok_0;
        lemma_entries_back(d, b, o, recs, k + 1, c2);
        assert(d.skip(k) =~= seq![d[k]] + d.skip(k + 1));
    }
}

/// A dictionary payload read back from where it was written gives the same
/// entries, for entries that survive the format (see `dict_round_trips`).
#[verifier::spinoff_prover]
pub proof fn law_dict_type_round_trip(d: Seq<DictItem>, b: Seq<u8>, o: int)
    requires
        0 <= o,
        dict_round_trips(d),
        o + dict_type_bytes(d, o).len() <= u32::MAX,
        holds_bytes(b, o, dict_type_bytes(d, o)),
    ensures
        dict_type_read(b, o) == Ok::<Seq<DictItem>, ErrorCode>(d),
{
    let n = d.len() as int;
    let rl = dict_rec_len(d);
    let f = dict_rec_filled(d);
    assert(f == rl);
    let dir = dict_dir(d, n, o);
    let zeros = Seq::new((n * (rl - f)) as nat, |i: int| 0u8);
    assert(n * (rl - f) == 0) by (nonlinear_arith)
        requires
            rl == f,
    ;
    assert(zeros =~= Seq::<u8>::empty());
    let data = dict_data(d, n);
    let head = bytes32(n as u32) + bytes32(rl as u32);
    assert(dict_type_bytes(d, o) == head + dir + zeros + data);
    assert(dict_type_bytes(d, o) =~= head + dir + data);
    lemma_holds_split(b, o, head + dir, data);
    lemma_holds_split(b, o, head, dir);
    lemma_holds_split(b, o, bytes32(n as u32), bytes32(rl as u32));
    lemma_be32_held(b, o, n as u32);
    lemma_be32_held(b, o + 4, rl as u32);
    lemma_dir_len_d(d, n, o);
    assert(n * f == n * rl);
    assert(rl * n == n * rl) by (nonlinear_arith);
    let q = o + 8;
    assert(fits(b, q, rl * n));
    let recs = Seq::new(n as nat, |k: int| dict_record_at(b, q + rl * k, rl, dict_base(o)));
    assert forall|k: int| 0 <= k < n implies #[trigger] recs[k] == expected_record(d, k, o) by {
        lemma_dict_dir_record(d, n, k, o);
        assert(k * f + f <= n * f) by (nonlinear_arith)
            requires
                k < n,
                f >= 0,
        ;
        lemma_holds_sub(b, q, dir, k * f, k * f + f);
        assert(k * f == rl * k) by (nonlinear_arith)
            requires
                f == rl,
        ;
        lemma_dict_data_piece(d, n, k);
        lemma_record_read_back(d, b, o, k);
    }
    assert(entry_pos(d, 0, o) == q + rl * n);
    lemma_entries_back(d, b, o, recs, 0, q + rl * n);
    assert(recs.skip(0) =~= recs);
    assert(d.skip(0) =~= d);
}

// ---------------------------------------------------------------------------
// Numbers
// ---------------------------------------------------------------------------

pub(crate) proof fn lemma_be16_held(b: Seq<u8>, o: int, v: u16)
    requires
        holds_bytes(b, o, bytes16(v)),
    ensures
        be16(b, o) == v,
{
    lemma_be16_bytes(v);
    lemma_holds_byte(b, o, bytes16(v), 0);
    lemma_holds_byte(b, o, bytes16(v), 1);
}

pub(crate) proof fn lemma_be64_held(b: Seq<u8>, o: int, v: u64)
    requires
        holds_bytes(b, o, bytes64(v)),
    ensures
        be64(b, o) == v,
{
    let hi = (v / 0x1_0000_0000) as u32;
    let lo = (v % 0x1_0000_0000) as u32;
    lemma_holds_split(b, o, bytes32(hi), bytes32(lo));
    lemma_be32_held(b, o, hi);
    lemma_be32_held(b, o + 4, lo);
}

/// A signature payload reads back as the signature written.
pub proof fn law_signature_type_round_trip(sig: u32, b: Seq<u8>, p: int)
    requires
        holds_bytes(b, p, bytes32(sig)),
    ensures
        fits(b, p, 4),
        be32(b, p) == sig,
{
    lemma_be32_held(b, p, sig);
}

/// A date and time payload reads back as the date and time written.
pub proof fn law_datetime_type_round_trip(dt: DateTimeNumber, b: Seq<u8>, p: int)
    requires
        holds_bytes(b, p, datetime_bytes(dt)),
    ensures
        fits(b, p, 12),
        datetime_at(b, p) == dt,
{
    let x = datetime_bytes(dt);
    let a = bytes16(dt.year) + bytes16(dt.month) + bytes16(dt.day) + bytes16(dt.hours);
    lemma_holds_split(b, p, a + bytes16(dt.minutes), bytes16(dt.seconds));
    lemma_holds_split(b, p, a, bytes16(dt.minutes));
    lemma_holds_split(b, p, bytes16(dt.year) + bytes16(dt.month) + bytes16(dt.day), bytes16(dt.hours));
    lemma_holds_split(b, p, bytes16(dt.year) + bytes16(dt.month), bytes16(dt.day));
    lemma_holds_split(b, p, bytes16(dt.year), bytes16(dt.month));
    lemma_be16_held(b, p, dt.year);
    lemma_be16_held(b, p + 2, dt.month);
    lemma_be16_held(b, p + 4, dt.day);
    lemma_be16_held(b, p + 6, dt.hours);
    lemma_be16_held(b, p + 8, dt.minutes);
    lemma_be16_held(b, p + 10, dt.seconds);
}

proof fn lemma_bytes16_all(v: Seq<u16>, k: int)
    requires
        0 <= k < v.len(),
    ensures
        bytes16_all(v).len() == 2 * v.len(),
        bytes16_all(v).subrange(2 * k, 2 * k + 2) == bytes16(v[k]),
    decreases v.len(),
{
    lemma_bytes16_all_len(v.drop_last());
    if k < v.len() - 1 {
        lemma_bytes16_all(v.drop_last(), k);
        assert(bytes16_all(v).subrange(2 * k, 2 * k + 2) =~= bytes16_all(v.drop_last()).subrange(
            2 * k,
            2 * k + 2,
        ));
    } else {
        assert(bytes16_all(v).subrange(2 * k, 2 * k + 2) =~= bytes16(v[k]));
    }
}

pub(crate) proof fn lemma_bytes16_all_len(v: Seq<u16>)
    ensures
        bytes16_all(v).len() == 2 * v.len(),
    decreases v.len(),
{
    if v.len() > 0 {
        lemma_bytes16_all_len(v.drop_last());
    }
}

proof fn lemma_bytes32_all(v: Seq<u32>, k: int)
    requires
        0 <= k < v.len(),
    ensures
        bytes32_all(v).len() == 4 * v.len(),
        bytes32_all(v).subrange(4 * k, 4 * k + 4) == bytes32(v[k]),
    decreases v.len(),
{
    lemma_bytes32_all_len(v.drop_last());
    if k < v.len() - 1 {
        lemma_bytes32_all(v.drop_last(), k);
        assert(bytes32_all(v).subrange(4 * k, 4 * k + 4) =~= bytes32_all(v.drop_last()).subrange(
            4 * k,
            4 * k + 4,
        ));
    } else {
        assert(bytes32_all(v).subrange(4 * k, 4 * k + 4) =~= bytes32(v[k]));
    }
}

proof fn lemma_bytes32_all_len(v: Seq<u32>)
    ensures
        bytes32_all(v).len() == 4 * v.len(),
    decreases v.len(),
{
    if v.len() > 0 {
        lemma_bytes32_all_len(v.drop_last());
    }
}

proof fn lemma_bytes64_all(v: Seq<u64>, k: int)
    requires
        0 <= k < v.len(),
    ensures
        bytes64_all(v).len() == 8 * v.len(),
        bytes64_all(v).subrange(8 * k, 8 * k + 8) == bytes64(v[k]),
    decreases v.len(),
{
    lemma_bytes64_all_len(v.drop_last());
    if k < v.len() - 1 {
        lemma_bytes64_all(v.drop_last(), k);
        assert(bytes64_all(v).subrange(8 * k, 8 * k + 8) =~= bytes64_all(v.drop_last()).subrange(
            8 * k,
            8 * k + 8,
        ));
    } else {
        assert(bytes64_all(v).subrange(8 * k, 8 * k + 8) =~= bytes64(v[k]));
    }
}

proof fn lemma_bytes64_all_len(v: Seq<u64>)
    ensures
        bytes64_all(v).len() == 8 * v.len(),
    decreases v.len(),
{
    if v.len() > 0 {
        lemma_bytes64_all_len(v.drop_last());
    }
}

/// An array of 16-bit values reads back as written, from a payload of the
/// length written.
pub proof fn law_uint16_type_round_trip(v: Seq<u16>, b: Seq<u8>, p: int)
    requires
        holds_bytes(b, p, bytes16_all(v)),
    ensures
        bytes16_all(v).len() == 2 * v.len(),
        fits(b, p, (2 * v.len()) as int),
        be16_seq(b, p, v.len() as int) == v,
{
    lemma_bytes16_all_len(v);
    assert forall|k: int| 0 <= k < v.len() implies #[trigger] be16_seq(b, p, v.len() as int)[k]
        == v[k] by {
        lemma_bytes16_all(v, k);
        lemma_holds_sub(b, p, bytes16_all(v), 2 * k, 2 * k + 2);
        lemma_be16_held(b, p + 2 * k, v[k]);
    }
    assert(be16_seq(b, p, v.len() as int) =~= v);
}

/// An array of 32-bit values reads back as written, from a payload of the
/// length written.
pub proof fn law_uint32_type_round_trip(v: Seq<u32>, b: Seq<u8>, p: int)
    requires
        holds_bytes(b, p, bytes32_all(v)),
    ensures
        bytes32_all(v).len() == 4 * v.len(),
        fits(b, p, (4 * v.len()) as int),
        be32_seq(b, p, v.len() as int) == v,
{
    lemma_bytes32_all_len(v);
    assert forall|k: int| 0 <= k < v.len() implies #[trigger] be32_seq(b, p, v.len() as int)[k]
        == v[k] by {
        lemma_bytes32_all(v, k);
        lemma_holds_sub(b, p, bytes32_all(v), 4 * k, 4 * k + 4);
        lemma_be32_held(b, p + 4 * k, v[k]);
    }
    assert(be32_seq(b, p, v.len() as int) =~= v);
}

/// An array of 64-bit values reads back as written, from a payload of the
/// length written.
pub proof fn law_uint64_type_round_trip(v: Seq<u64>, b: Seq<u8>, p: int)
    requires
        holds_bytes(b, p, bytes64_all(v)),
    ensures
        bytes64_all(v).len() == 8 * v.len(),
        fits(b, p, (8 * v.len()) as int),
        be64_seq(b, p, v.len() as int) == v,
{
    lemma_bytes64_all_len(v);
    assert forall|k: int| 0 <= k < v.len() implies #[trigger] be64_seq(b, p, v.len() as int)[k]
        == v[k] by {
        lemma_bytes64_all(v, k);
        lemma_holds_sub(b, p, bytes64_all(v), 8 * k, 8 * k + 8);
        lemma_be64_held(b, p + 8 * k, v[k]);
    }
    assert(be64_seq(b, p, v.len() as int) =~= v);
}

// ---------------------------------------------------------------------------
// ASCII text
// ---------------------------------------------------------------------------

proof fn lemma_lookup_ascii(v: Seq<MluItem>, l: [u8; 2], c: [u8; 2])
    ensures
        forall|i: int|
            0 <= i < lookup_ascii(v, l, c).len() ==> (#[trigger] lookup_ascii(v, l, c)[i] as u32)
                < 128,
{
    assert forall|i: int| 0 <= i < lookup_ascii(v, l, c).len() implies (#[trigger] lookup_ascii(
        v,
        l,
        c,
    )[i] as u32) < 128 by {}
}

/// The bytes of a looked-up ASCII text, with a NUL, read back as that text
/// once trailing NULs go.
proof fn lemma_lookup_back(v: Seq<MluItem>, l: [u8; 2], c: [u8; 2])
    requires
        no_trailing_nul(lookup_ascii(v, l, c)),
    ensures
        trim_nul_bytes(char_bytes(lookup_ascii(v, l, c)).push(0)) == char_bytes(lookup_ascii(v, l, c)),
        all_ascii(char_bytes(lookup_ascii(v, l, c))),
        ascii_chars(char_bytes(lookup_ascii(v, l, c))) == lookup_ascii(v, l, c),
{
    let t = lookup_ascii(v, l, c);
    let cb = char_bytes(t);
    lemma_lookup_ascii(v, l, c);
    assert(cb.push(0).drop_last() =~= cb);
    if cb.len() > 0 {
        let c = t.last();
        assert((c as u32) < 128);
        if (c as u32) == 0 {
            crate::text::lemma_char_cast(c, 0);
            assert(c == '\0');
        }
        assert(cb.last() != 0);
    }
    assert(trim_nul_bytes(cb.push(0)) == trim_nul_bytes(cb));
    assert(trim_nul_bytes(cb) == cb);
    assert(all_ascii(cb));
    assert forall|i: int| 0 <= i < t.len() implies #[trigger] ascii_chars(cb)[i] == t[i] by {
        let x = t[i] as u32;
        assert(x < 128);
        crate::text::lemma_char_cast(t[i], x);
    }
    assert(ascii_chars(cb) =~= t);
}

/// The bytes of the English (US) text read back as that text.
proof fn lemma_ascii_back(v: Seq<MluItem>)
    requires
        no_trailing_nul(english_text(v)),
    ensures
        ascii_text_mlu(char_bytes(english_text(v)).push(0)) == seq![
            (LanguageCode(lang_en()), CountryCode(country_us()), english_text(v)),
        ],
{
    lemma_lookup_back(v, lang_en(), country_us());
}

/// A text payload reads back as the English (US) text it was written from,
/// when that text does not end in NUL.
pub proof fn law_text_type_round_trip(v: Seq<MluItem>)
    requires
        no_trailing_nul(english_text(v)),
    ensures
        ascii_text_mlu(text_type_bytes(v)) == seq![
            (LanguageCode(lang_en()), CountryCode(country_us()), english_text(v)),
        ],
{
    lemma_ascii_back(v);
}

/// A text description payload read back where it was written gives the
/// English (US) text it was written from, when that text does not end in
/// NUL.
pub proof fn law_text_description_round_trip(v: Seq<MluItem>, b: Seq<u8>, p: int)
    requires
        no_trailing_nul(english_text(v)),
        english_text(v).len() < u32::MAX,
        holds_bytes(b, p, text_description_bytes(v)),
    ensures
        fits(b, p, 4),
        fits(b, p + 4, be32(b, p) as int),
        ascii_text_mlu(b.subrange(p + 4, p + 4 + be32(b, p))) == seq![
            (LanguageCode(lang_en()), CountryCode(country_us()), english_text(v)),
        ],
{
    let t = english_text(v);
    let n = (t.len() + 1) as u32;
    let body = char_bytes(t).push(0);
    let rest = bytes32(0) + bytes32(0) + bytes16(0) + seq![0u8] + Seq::new(67, |i: int| 0u8);
    assert(text_description_bytes(v) =~= bytes32(n) + body + rest);
    lemma_holds_split(b, p, bytes32(n) + body, rest);
    lemma_holds_split(b, p, bytes32(n), body);
    lemma_be32_held(b, p, n);
    lemma_ascii_back(v);
}

/// A data payload reads back as the flags and bytes written.
pub proof fn law_data_type_round_trip(flags: u32, bytes: Seq<u8>, b: Seq<u8>, p: int)
    requires
        holds_bytes(b, p, bytes32(flags) + bytes),
    ensures
        fits(b, p, (4 + bytes.len()) as int),
        be32(b, p) == flags,
        b.subrange(p + 4, p + 4 + bytes.len()) == bytes,
{
    lemma_holds_split(b, p, bytes32(flags), bytes);
    lemma_be32_held(b, p, flags);
}

/// A colorant order of at most 16 channels reads back as written.
pub proof fn law_colorant_order_round_trip(order: Seq<u8>, b: Seq<u8>, p: int)
    requires
        order.len() <= MAX_CHANNELS,
        holds_bytes(b, p, bytes32(order.len() as u32) + order),
    ensures
        fits(b, p, 4),
        be32(b, p) == order.len(),
        fits(b, p + 4, order.len() as int),
        b.subrange(p + 4, p + 4 + order.len()) == order,
{
    lemma_holds_split(b, p, bytes32(order.len() as u32), order);
    lemma_be32_held(b, p, order.len() as u32);
}

/// The translations reading CRD sections `i` to 4 gives, onto `acc`, when
/// each is written from its lookup text.
pub open spec fn crd_expected(v: Seq<MluItem>, i: int, acc: Seq<MluItem>) -> Seq<MluItem>
    decreases 5 - i,
{
    if i >= 5 {
        acc
    } else {
        crd_expected(
            v,
            i + 1,
            mlu_set(acc, LanguageCode(ps_code()), CountryCode(crd_section(i)), crd_text(v, i)),
        )
    }
}

proof fn lemma_crd_back(v: Seq<MluItem>, b: Seq<u8>, c: int, i: int, acc: Seq<MluItem>)
    requires
        0 <= i <= 5,
        forall|j: int| 0 <= j < 5 ==> no_trailing_nul(#[trigger] crd_text(v, j)),
        forall|j: int| 0 <= j < 5 ==> #[trigger] crd_text(v, j).len() < u32::MAX,
        holds_bytes(b, c, crd_bytes(v, i)),
    ensures
        crd_read(b, c, crd_bytes(v, i).len() as int, i, acc) == Ok::<Seq<MluItem>, ErrorCode>(
            crd_expected(v, i, acc),
        ),
    decreases 5 - i,
{
    if i < 5 {
        let t = crd_text(v, i);
        let n = (t.len() + 1) as u32;
        let body = char_bytes(t).push(0);
        let rest = crd_bytes(v, i + 1);
        assert(crd_bytes(v, i) == bytes32(n) + body + rest);
        lemma_holds_split(b, c, bytes32(n) + body, rest);
        lemma_holds_split(b, c, bytes32(n), body);
        lemma_be32_held(b, c, n);
        assert(no_trailing_nul(crd_text(v, i)));
        lemma_lookup_back(v, ps_code(), crd_section(i));
        assert(b.subrange(c + 4, c + 4 + n) == body);
        lemma_crd_back(
            v,
            b,
            c + 4 + n,
            i + 1,
            mlu_set(acc, LanguageCode(ps_code()), CountryCode(crd_section(i)), t),
        );
    }
}

/// A CRD names payload read back where it was written gives, for the
/// product name and each rendering intent in turn, the text written for it
/// under language "PS", when none of these texts ends in NUL.
pub proof fn law_crd_info_round_trip(v: Seq<MluItem>, b: Seq<u8>, p: int)
    requires
        forall|j: int| 0 <= j < 5 ==> no_trailing_nul(#[trigger] crd_text(v, j)),
        forall|j: int| 0 <= j < 5 ==> #[trigger] crd_text(v, j).len() < u32::MAX,
        holds_bytes(b, p, crd_bytes(v, 0)),
    ensures
        crd_read(b, p, crd_bytes(v, 0).len() as int, 0, Seq::empty()) == Ok::<
            Seq<MluItem>,
            ErrorCode,
        >(crd_expected(v, 0, Seq::empty())),
{
    lemma_crd_back(v, b, p, 0, Seq::empty());
}

proof fn lemma_first_exact_none_all(v: Seq<MluItem>, l: LanguageCode, c: CountryCode, j: int)
    requires
        0 <= j,
        first_exact(v, l, c, j) is None,
    ensures
        forall|i: int| j <= i < v.len() ==> !(same_code(#[trigger] v[i].0.0, l.0) && same_code(v[i].1.0, c.0)),
    decreases v.len() - j,
{
    if j < v.len() {
        lemma_first_exact_none_all(v, l, c, j + 1);
    }
}

proof fn lemma_first_exact_some(v: Seq<MluItem>, l: LanguageCode, c: CountryCode, j: int)
    requires
        0 <= j,
    ensures
        first_exact(v, l, c, j) matches Some(i) ==> j <= i < v.len() && same_code(v[i].0.0, l.0)
            && same_code(v[i].1.0, c.0),
    decreases v.len() - j,
{
    if j < v.len() && !(same_code(v[j].0.0, l.0) && same_code(v[j].1.0, c.0)) {
        lemma_first_exact_some(v, l, c, j + 1);
    }
}

/// Setting a translation keeps the language/country pairs distinct: a text
/// built by setting translations never holds the same pair twice.
pub proof fn law_mlu_set_keeps_codes_distinct(v: Seq<MluItem>, l: LanguageCode, c: CountryCode, t: Seq<char>)
    requires
        distinct_codes(v),
    ensures
        distinct_codes(mlu_set(v, l, c, t)),
{
    let w = mlu_set(v, l, c, t);
    match first_exact(v, l, c, 0) {
        Some(k) => {
            lemma_first_exact_some(v, l, c, 0);
            assert forall|i: int, j: int| 0 <= i < j < w.len() implies !(same_code(
                #[trigger] w[i].0.0,
                #[trigger] w[j].0.0,
            ) && same_code(w[i].1.0, w[j].1.0)) by {
                assert(same_code(w[i].0.0, v[i].0.0) && same_code(w[i].1.0, v[i].1.0));
                assert(same_code(w[j].0.0, v[j].0.0) && same_code(w[j].1.0, v[j].1.0));
                assert(!(same_code(v[i].0.0, v[j].0.0) && same_code(v[i].1.0, v[j].1.0)));
            }
        },
        None => {
            lemma_first_exact_none_all(v, l, c, 0);
            assert forall|i: int, j: int| 0 <= i < j < w.len() implies !(same_code(
                #[trigger] w[i].0.0,
                #[trigger] w[j].0.0,
            ) && same_code(w[i].1.0, w[j].1.0)) by {
                if j == v.len() {
                    assert(w[i] == v[i]);
                    assert(!(same_code(v[i].0.0, l.0) && same_code(v[i].1.0, c.0)));
                } else {
                    assert(w[i] == v[i] && w[j] == v[j]);
                }
            }
        },
    }
}

} // verus!
