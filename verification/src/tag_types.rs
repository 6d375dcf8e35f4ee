//! Tag payloads made of text: multi-localized Unicode, dictionaries, ASCII
//! text and PostScript CRD names, read from and written to byte streams in
//! their big-endian layout.
use vstd::prelude::*;
use crate::error::{CmsError, ErrorCode};
use crate::named::{
    CountryCode, Dict, DictEntry, DictItem, LanguageCode, Mlu, MluItem, ascii_or_question,
    mlu_lookup, mlu_set,
};
use crate::profile::{be32, bytes16, bytes32, err, push_be16, push_be32, read_be32};
use crate::text::{
    be_units16, char_code, decode_utf16be_range, encode_utf16be, string_push, utf16_decode, utf16be,
    utf16be_decode,
};

verus! {

broadcast use vstd::array::group_array_axioms;

/// `n` bytes from position `p` on lie inside the stream `b`.
pub open spec fn fits(b: Seq<u8>, p: int, n: int) -> bool {
    0 <= p && 0 <= n && p + n <= b.len()
}

/// Two bytes that form valid UTF-8 text on their own.
pub open spec fn utf8_pair(c: [u8; 2]) -> bool {
    (c[0] < 0x80 && c[1] < 0x80) || (0xc2 <= c[0] <= 0xdf && 0x80 <= c[1] <= 0xbf)
}

/// The code `c` when it reads as UTF-8 text, otherwise `dflt`.
pub open spec fn code_or(c: [u8; 2], dflt: [u8; 2]) -> [u8; 2] {
    if utf8_pair(c) {
        c
    } else {
        dflt
    }
}

/// The language put in place of an unreadable one ("en").
pub open spec fn lang_en() -> [u8; 2] {
    [0x65u8, 0x6eu8]
}

/// The country put in place of an unreadable one ("US").
pub open spec fn country_us() -> [u8; 2] {
    [0x55u8, 0x53u8]
}

/// One directory record of a multi-localized text: language, country,
/// byte length and offset of its string.
pub type MluRecord = ([u8; 2], [u8; 2], u32, u32);

/// The record stored at `q`.
pub open spec fn mlu_record_at(b: Seq<u8>, q: int) -> MluRecord {
    ([b[q], b[q + 1]], [b[q + 2], b[q + 3]], be32(b, q + 4), be32(b, q + 8))
}

/// The `n` records stored from `q` on.
pub open spec fn mlu_records(b: Seq<u8>, q: int, n: int) -> Seq<MluRecord> {
    Seq::new(n as nat, |k: int| mlu_record_at(b, q + 12 * k))
}

/// Where reading 12-byte records from `q` stops in a stream of `len` bytes:
/// at the first field (2, 2, 4 and 4 bytes wide) that does not fit.
pub open spec fn record_stop(len: int, q: int) -> int {
    let k = (len - q) / 12;
    let r = (len - q) % 12;
    q + 12 * k + if r < 2 {
        0int
    } else if r < 4 {
        2int
    } else if r < 8 {
        4int
    } else {
        8int
    }
}

/// Where a record's string starts in the pool: its offset less the pool's
/// own offset, or 0 when smaller.
pub open spec fn pool_offset(r: MluRecord, ps: int) -> int {
    if r.3 > ps {
        r.3 - ps
    } else {
        0
    }
}

/// The translations the records give: each record whose string lies inside
/// the pool sets its text, records that point outside are passed over.
pub open spec fn mlu_fold(recs: Seq<MluRecord>, pool: Seq<u8>, ps: int) -> Seq<MluItem>
    decreases recs.len(),
{
    if recs.len() == 0 {
        Seq::empty()
    } else {
        let prev = mlu_fold(recs.drop_last(), pool, ps);
        let r = recs.last();
        let so = pool_offset(r, ps);
        if so + r.2 > pool.len() {
            prev
        } else {
            mlu_set(
                prev,
                LanguageCode(code_or(r.0, lang_en())),
                CountryCode(code_or(r.1, country_us())),
                utf16be_decode(pool.subrange(so, so + r.2)),
            )
        }
    }
}

/// Reading a multi-localized text of `size` bytes from position `p`: the
/// outcome and the position the stream is left at.
pub open spec fn mlu_type_read(b: Seq<u8>, p: int, size: int) -> (Result<Seq<MluItem>, ErrorCode>, int) {
    if !fits(b, p, 4) {
        (Err(ErrorCode::Read), p)
    } else if !fits(b, p + 4, 4) {
        (Err(ErrorCode::Read), p + 4)
    } else if be32(b, p + 4) != 12 {
        (Err(ErrorCode::UnknownExtension), p + 8)
    } else {
        let n = be32(b, p) as int;
        let q = p + 8;
        if !fits(b, q, 12 * n) {
            (Err(ErrorCode::Read), record_stop(b.len() as int, q))
        } else {
            let ps = 8 + 12 * n;
            let pool_size = if size > ps {
                size - ps
            } else {
                0
            };
            let pq = q + 12 * n;
            if !fits(b, pq, pool_size) {
                (Err(ErrorCode::Read), pq)
            } else {
                (Ok(mlu_fold(mlu_records(b, q, n), b.subrange(pq, pq + pool_size), ps)), pq + pool_size)
            }
        }
    }
}

/// The code itself when it reads as UTF-8 text, otherwise `dflt`.
fn code_or_exec(c: [u8; 2], dflt: [u8; 2]) -> (r: [u8; 2])
    ensures
        r == code_or(c, dflt),
{
    let ok = (c[0] < 0x80 && c[1] < 0x80) || (0xc2 <= c[0] && c[0] <= 0xdf && 0x80 <= c[1] && c[1]
        <= 0xbf);
    if ok {
        c
    } else {
        dflt
    }
}

pub(crate) fn read_error() -> (r: CmsError)
    ensures
        r.code == ErrorCode::Read,
{
    err(ErrorCode::Read, "Read error")
}

/// Read a multi-localized text of `size` bytes at `pos`; also gives the
/// position the stream is left at.
pub(crate) fn read_mlu_at(data: &[u8], pos: usize, size: u32) -> (r: (Result<Mlu, CmsError>, usize))
    requires
        data@.len() <= u32::MAX,
    ensures
        r.1 == mlu_type_read(data@, pos as int, size as int).1,
        match mlu_type_read(data@, pos as int, size as int).0 {
            Ok(v) => r.0 matches Ok(m) && m.wf() && m@ == v,
            Err(e) => r.0 matches Err(x) && x.code == e,
        },
{
    let ghost b = data@;
    let len = data.len();
    if pos > len || len - pos < 4 {
        return (Err(read_error()), pos);
    }
    let count = read_be32(data, pos);
    if len - pos - 4 < 4 {
        return (Err(read_error()), pos + 4);
    }
    let rec_len = read_be32(data, pos + 4);
    if rec_len != 12 {
        return (Err(err(ErrorCode::UnknownExtension, "MLU record length != 12")), pos + 8);
    }
    let q = pos + 8;
    if (len - q) / 12 < count as usize {
        let k = (len - q) / 12;
        let rem = (len - q) % 12;
        let part: usize = if rem < 2 {
            0
        } else if rem < 4 {
            2
        } else if rem < 8 {
            4
        } else {
            8
        };
        return (Err(read_error()), q + 12 * k + part);
    }
    let n = count as usize;
    let ps = 8 + 12 * n;
    let pool_size: usize = if size as usize > ps {
        size as usize - ps
    } else {
        0
    };
    let pq = q + 12 * n;
    if len - pq < pool_size {
        return (Err(read_error()), pq);
    }
    let ghost recs = mlu_records(b, q as int, n as int);
    let ghost pool = b.subrange(pq as int, pq + pool_size);
    let mut mlu = Mlu::new();
    let mut k: usize = 0;
    while k < n
        invariant
            k <= n,
            b == data@,
            len == b.len(),
            len <= u32::MAX,
            q + 12 * n == pq,
            pq + pool_size <= len,
            ps == 8 + 12 * n,
            recs == mlu_records(b, q as int, n as int),
            pool == b.subrange(pq as int, pq + pool_size),
            mlu.wf(),
            mlu@ == mlu_fold(recs.take(k as int), pool, ps as int),
        decreases n - k,
    {
        let at = q + 12 * k;
        let l = [data[at], data[at + 1]];
        let c = [data[at + 2], data[at + 3]];
        let slen = read_be32(data, at + 4);
        let soff = read_be32(data, at + 8);
        let ghost rec = recs[k as int];
        assert(rec == mlu_record_at(b, at as int));
        assert(l == rec.0 && c == rec.1);
        let so: u64 = if soff as u64 > ps as u64 {
            soff as u64 - ps as u64
        } else {
            0
        };
        proof {
            assert(recs.take(k + 1).drop_last() =~= recs.take(k as int));
            assert(recs.take(k + 1).last() == rec);
        }
        if so + slen as u64 <= pool_size as u64 {
            let from = pq + so as usize;
            let to = from + slen as usize;
            let text = decode_utf16be_range(data, from, to);
            proof {
                assert(b.subrange(from as int, to as int) =~= pool.subrange(
                    so as int,
                    so + slen,
                ));
            }
            mlu.set_codes(
                LanguageCode(code_or_exec(l, [0x65u8, 0x6eu8])),
                CountryCode(code_or_exec(c, [0x55u8, 0x53u8])),
                text.as_str(),
            );
        }
        k = k + 1;
    }
    assert(recs.take(n as int) =~= recs);
    (Ok(mlu), pq + pool_size)
}

/// Read a multi-localized text (`MultiLocalizedUnicode` payload) of `size`
/// bytes from the stream `data`, starting at `start`: a count, a record
/// length that must be 12, that many records (language, country, string
/// length, string offset from the payload's start) and a pool of UTF-16BE
/// strings. Records whose string lies outside the pool are passed over;
/// a language or country that is not UTF-8 text reads as "en" or "US".
pub fn read_mlu_type(data: &[u8], start: usize, size: u32) -> (r: Result<Mlu, CmsError>)
    requires
        data@.len() <= u32::MAX,
    ensures
        match mlu_type_read(data@, start as int, size as int).0 {
            Ok(v) => r matches Ok(m) && m.wf() && m@ == v,
            Err(e) => r matches Err(x) && x.code == e,
        },
{
    read_mlu_at(data, start, size).0
}

/// The text written for translation `i`: that of the entry a lookup by its
/// codes selects, the codes read as UTF-8 text (else "en" and "US").
pub open spec fn mlu_written_text(v: Seq<MluItem>, i: int) -> Seq<char> {
    v[mlu_lookup(
        v,
        LanguageCode(code_or(v[i].0.0, lang_en())),
        CountryCode(code_or(v[i].1.0, country_us())),
    )->Some_0].2
}

/// The string pool of the first `n` translations: their UTF-16BE texts.
pub open spec fn mlu_pool(v: Seq<MluItem>, n: int) -> Seq<u8>
    decreases n,
{
    if n <= 0 {
        Seq::empty()
    } else {
        mlu_pool(v, n - 1) + utf16be(mlu_written_text(v, n - 1))
    }
}

/// The directory record of translation `i`: its codes, the byte length of
/// its string and the string's offset from the payload's start.
pub open spec fn mlu_record_bytes(v: Seq<MluItem>, i: int) -> Seq<u8> {
    seq![v[i].0.0[0], v[i].0.0[1], v[i].1.0[0], v[i].1.0[1]] + bytes32(
        utf16be(mlu_written_text(v, i)).len() as u32,
    ) + bytes32((8 + 12 * v.len() + mlu_pool(v, i).len()) as u32)
}

/// The directory records of the first `n` translations.
pub open spec fn mlu_dir(v: Seq<MluItem>, n: int) -> Seq<u8>
    decreases n,
{
    if n <= 0 {
        Seq::empty()
    } else {
        mlu_dir(v, n - 1) + mlu_record_bytes(v, n - 1)
    }
}

/// The payload of a multi-localized text: count, record length 12, the
/// records and the string pool.
pub open spec fn mlu_type_bytes(v: Seq<MluItem>) -> Seq<u8> {
    bytes32(v.len() as u32) + bytes32(12) + mlu_dir(v, v.len() as int) + mlu_pool(
        v,
        v.len() as int,
    )
}

proof fn lemma_mlu_pool_grows(v: Seq<MluItem>, i: int, n: int)
    requires
        0 <= i <= n,
    ensures
        mlu_pool(v, i).len() <= mlu_pool(v, n).len(),
    decreases n - i,
{
    if i < n {
        lemma_mlu_pool_grows(v, i, n - 1);
    }
}

proof fn lemma_mlu_dir_len(v: Seq<MluItem>, n: int)
    requires
        0 <= n,
    ensures
        mlu_dir(v, n).len() == 12 * n,
    decreases n,
{
    if n > 0 {
        lemma_mlu_dir_len(v, n - 1);
    }
}

/// Append a multi-localized text payload (`MultiLocalizedUnicode` without
/// its type header) to `out`: the count, record length 12, one record per
/// translation and the pool of UTF-16BE strings, whose offsets count from
/// the payload's start. The whole payload must fit the 32-bit offsets.
pub fn write_mlu_type(out: &mut Vec<u8>, mlu: &Mlu)
    requires
        mlu.wf(),
        mlu_type_bytes(mlu@).len() <= u32::MAX,
    ensures
        final(out)@ == old(out)@ + mlu_type_bytes(mlu@),
{
    let ghost v = mlu@;
    let n = mlu.translations_count();
    proof {
        lemma_mlu_dir_len(v, n as int);
    }
    let mut dir: Vec<u8> = Vec::new();
    let mut pool: Vec<u8> = Vec::new();
    let mut i: usize = 0;
    while i < n
        invariant
            i <= n,
            n == v.len(),
            mlu.wf(),
            v == mlu@,
            mlu_type_bytes(v).len() <= u32::MAX,
            mlu_type_bytes(v).len() == 8 + 12 * n + mlu_pool(v, n as int).len(),
            dir@ == mlu_dir(v, i as int),
            pool@ == mlu_pool(v, i as int),
        decreases n - i,
    {
        let codes = mlu.translation_codes(i);
        let (l, c) = match codes {
            Some(p) => p,
            None => {
                assert(false);
                return;
            },
        };
        let lf = LanguageCode(code_or_exec(l.0, [0x65u8, 0x6eu8]));
        let cf = CountryCode(code_or_exec(c.0, [0x55u8, 0x53u8]));
        let text = match mlu.get_codes(lf, cf) {
            Some(t) => t,
            None => {
                assert(false);
                return;
            },
        };
        let mut bytes = encode_utf16be(text.as_str());
        proof {
            lemma_mlu_pool_grows(v, i + 1, n as int);
            assert(text@ == mlu_written_text(v, i as int));
        }
        let offset = 8 + 12 * n + pool.len();
        dir.push(l.0[0]);
        dir.push(l.0[1]);
        dir.push(c.0[0]);
        dir.push(c.0[1]);
        push_be32(&mut dir, bytes.len() as u32);
        push_be32(&mut dir, offset as u32);
        pool.append(&mut bytes);
        proof {
            assert(dir@ =~= mlu_dir(v, i as int) + mlu_record_bytes(v, i as int));
        }
        i = i + 1;
    }
    push_be32(out, n as u32);
    push_be32(out, 12);
    out.append(&mut dir);
    out.append(&mut pool);
    assert(final(out)@ =~= old(out)@ + mlu_type_bytes(v));
}

// ---------------------------------------------------------------------------
// Dictionaries
// ---------------------------------------------------------------------------

/// Where the offsets of a dictionary payload starting at `p` count from: the
/// start of its 8-byte type header (0 when the payload starts earlier).
pub open spec fn dict_base(p: int) -> int {
    if p >= 8 {
        p - 8
    } else {
        0
    }
}

/// A stored offset turned into a stream position: 0 stays 0 (absent), any
/// other offset has the base added, wrapping at 32 bits.
pub open spec fn rebase(raw: u32, base: int) -> int {
    if raw == 0 {
        0
    } else if raw + base > u32::MAX {
        raw + base - 0x1_0000_0000
    } else {
        raw + base
    }
}

/// Where a seek to `o` leaves a stream at `c`: at `o` when it lies within
/// the stream, otherwise where it was.
pub open spec fn seek_to(b: Seq<u8>, c: int, o: int) -> int {
    if 0 <= o <= b.len() {
        o
    } else {
        c
    }
}

/// A dictionary record: positions and byte sizes of name, value, display
/// name and display value (position 0: absent).
pub type DictRecord = (int, int, int, int, int, int, int, int);

/// The record of `rl` bytes stored at `r`; display fields that the record
/// length leaves out are absent.
pub open spec fn dict_record_at(b: Seq<u8>, r: int, rl: int, base: int) -> DictRecord {
    (
        rebase(be32(b, r), base),
        be32(b, r + 4) as int,
        rebase(be32(b, r + 8), base),
        be32(b, r + 12) as int,
        if rl >= 24 {
            rebase(be32(b, r + 16), base)
        } else {
            0
        },
        if rl >= 24 {
            be32(b, r + 20) as int
        } else {
            0
        },
        if rl >= 32 {
            rebase(be32(b, r + 24), base)
        } else {
            0
        },
        if rl >= 32 {
            be32(b, r + 28) as int
        } else {
            0
        },
    )
}

/// 16-bit units with the trailing zero units removed.
pub open spec fn strip_nuls(u: Seq<u16>) -> Seq<u16>
    decreases u.len(),
{
    if u.len() > 0 && u.last() == 0 {
        strip_nuls(u.drop_last())
    } else {
        u
    }
}

/// Reading a UTF-16BE string of `s` bytes at `c`: `s` must be even; trailing
/// NUL units are dropped and unpaired surrogates become U+FFFD.
pub open spec fn text_read(b: Seq<u8>, c: int, s: int) -> Result<(Seq<char>, int), ErrorCode> {
    if s % 2 != 0 {
        Err(ErrorCode::Range)
    } else if !fits(b, c, s) {
        Err(ErrorCode::Read)
    } else {
        Ok((utf16_decode(strip_nuls(be_units16(b.subrange(c, c + s)))), c + s))
    }
}

/// An optional string: present when its position and size are both nonzero.
pub open spec fn opt_text_read(b: Seq<u8>, c: int, off: int, s: int) -> Result<
    (Option<Seq<char>>, int),
    ErrorCode,
> {
    if off > 0 && s > 0 {
        match text_read(b, seek_to(b, c, off), s) {
            Ok((t, c2)) => Ok((Some(t), c2)),
            Err(e) => Err(e),
        }
    } else {
        Ok((None, c))
    }
}

/// A multi-localized text of `s` bytes with its 8-byte type header at `c`:
/// under 8 bytes it is empty; a header that cannot be read is an error; a
/// payload that cannot be read gives an empty text.
pub open spec fn embedded_mlu_read(b: Seq<u8>, c: int, s: int) -> Result<(Seq<MluItem>, int), ErrorCode> {
    if s < 8 {
        Ok((Seq::empty(), c))
    } else if !fits(b, c, 4) || !fits(b, c + 4, 4) {
        Err(ErrorCode::Read)
    } else {
        let r = mlu_type_read(b, c + 8, s - 8);
        Ok(
            (
                match r.0 {
                    Ok(v) => v,
                    Err(_) => Seq::empty(),
                },
                r.1,
            ),
        )
    }
}

/// An optional display text: present when its position and size are both
/// nonzero.
pub open spec fn opt_mlu_read(b: Seq<u8>, c: int, off: int, s: int) -> Result<
    (Option<Seq<MluItem>>, int),
    ErrorCode,
> {
    if off > 0 && s > 0 {
        match embedded_mlu_read(b, seek_to(b, c, off), s) {
            Ok((m, c2)) => Ok((Some(m), c2)),
            Err(e) => Err(e),
        }
    } else {
        Ok((None, c))
    }
}

/// Reading the entry a record describes, with the stream at `c`: the entry
/// and where the stream is left.
#[verifier::opaque]
pub open spec fn dict_entry_read(b: Seq<u8>, c: int, r: DictRecord) -> Result<(DictItem, int), ErrorCode> {
    match opt_text_read(b, c, r.0, r.1) {
        Err(e) => Err(e),
        Ok((name, c1)) => match opt_text_read(b, c1, r.2, r.3) {
            Err(e) => Err(e),
            Ok((value, c2)) => match opt_mlu_read(b, c2, r.4, r.5) {
                Err(e) => Err(e),
                Ok((dn, c3)) => match opt_mlu_read(b, c3, r.6, r.7) {
                    Err(e) => Err(e),
                    Ok((dv, c4)) => Ok(
                        (
                            (
                                match name {
                                    Some(t) => t,
                                    None => Seq::empty(),
                                },
                                value,
                                dn,
                                dv,
                            ),
                            c4,
                        ),
                    ),
                },
            },
        },
    }
}

/// Reading the entries of the records in order, the stream at `c` first.
pub open spec fn dict_entries_read(b: Seq<u8>, c: int, recs: Seq<DictRecord>) -> Result<
    Seq<DictItem>,
    ErrorCode,
>
    decreases recs.len(),
{
    if recs.len() == 0 {
        Ok(Seq::empty())
    } else {
        match dict_entry_read(b, c, recs[0]) {
            Err(e) => Err(e),
            Ok((it, c2)) => match dict_entries_read(b, c2, recs.skip(1)) {
                Ok(rest) => Ok(seq![it] + rest),
                Err(e) => Err(e),
            },
        }
    }
}

/// Reading a dictionary payload starting at `p`: a count, a record length of
/// 16, 24 or 32, at most 65536 records, then each entry's strings and
/// display texts where its record points.
pub open spec fn dict_type_read(b: Seq<u8>, p: int) -> Result<Seq<DictItem>, ErrorCode> {
    if !fits(b, p, 4) || !fits(b, p + 4, 4) {
        Err(ErrorCode::Read)
    } else {
        let n = be32(b, p) as int;
        let rl = be32(b, p + 4) as int;
        if rl != 16 && rl != 24 && rl != 32 {
            Err(ErrorCode::Range)
        } else if n > 0x10000 {
            Err(ErrorCode::Range)
        } else if !fits(b, p + 8, rl * n) {
            Err(ErrorCode::Read)
        } else {
            let recs = Seq::new(
                n as nat,
                |k: int| dict_record_at(b, p + 8 + rl * k, rl, dict_base(p)),
            );
            dict_entries_read(b, p + 8 + rl * n, recs)
        }
    }
}

proof fn lemma_strip_take(u: Seq<u16>, m: int)
    requires
        0 <= m <= u.len(),
        forall|j: int| m <= j < u.len() ==> u[j] == 0,
    ensures
        strip_nuls(u) == strip_nuls(u.take(m)),
    decreases u.len() - m,
{
    if m < u.len() {
        assert(u.last() == 0);
        assert(u.drop_last() =~= u.take(u.len() - 1));
        lemma_strip_take(u.drop_last(), m);
        assert(u.drop_last().take(m) =~= u.take(m));
    } else {
        assert(u.take(m) =~= u);
    }
}

/// Read a UTF-16BE string of `size` bytes at `c`.
fn read_text_at(data: &[u8], c: usize, size: u32) -> (r: Result<(String, usize), CmsError>)
    ensures
        match text_read(data@, c as int, size as int) {
            Ok((t, c2)) => r matches Ok((s, c3)) && s@ == t && c3 == c2,
            Err(e) => r matches Err(x) && x.code == e,
        },
{
    if size % 2 != 0 {
        return Err(err(ErrorCode::Range, "UTF-16 string byte size must be even"));
    }
    let len = data.len();
    if c > len || ((len - c) as u64) < size as u64 {
        return Err(read_error());
    }
    let s = size as usize;
    assert(c + s <= len);
    let ghost bs = data@.subrange(c as int, c + s);
    let ghost u = be_units16(bs);
    let mut m: usize = s / 2;
    assert(2 * m <= s);
    while m > 0
        invariant_except_break
            m <= s / 2,
            len == data@.len(),
            c + s <= len,
            c + 2 * m <= len,
            bs == data@.subrange(c as int, c + s),
            u == be_units16(bs),
            u.len() == s / 2,
            forall|j: int| m <= j < u.len() ==> u[j] == 0,
        ensures
            m <= s / 2,
            c + 2 * m <= len,
            forall|j: int| m <= j < u.len() ==> u[j] == 0,
            m > 0 ==> u[m - 1] != 0,
        decreases m,
    {
        let i = c + 2 * m;
        assert(u[m - 1] == bs[2 * (m - 1)] * 256 + bs[2 * (m - 1) + 1]);
        if data[i - 2] != 0 || data[i - 1] != 0 {
            break;
        }
        m = m - 1;
    }
    proof {
        lemma_strip_take(u, m as int);
        if m > 0 {
            assert(u.take(m as int).last() != 0);
        }
        assert(strip_nuls(u.take(m as int)) == u.take(m as int));
        assert(be_units16(data@.subrange(c as int, c + 2 * m)) =~= u.take(m as int));
    }
    let t = decode_utf16be_range(data, c, c + 2 * m);
    Ok((t, c + s))
}

/// Read the optional string at `off` of `size` bytes, the stream at `c`.
fn read_opt_text(data: &[u8], c: usize, off: u32, size: u32) -> (r: Result<(Option<String>, usize), CmsError>)
    ensures
        match opt_text_read(data@, c as int, off as int, size as int) {
            Ok((t, c2)) => r matches Ok((s, c3)) && c3 == c2 && match t {
                Some(x) => s matches Some(y) && y@ == x,
                None => s is None,
            },
            Err(e) => r matches Err(x) && x.code == e,
        },
{
    if off > 0 && size > 0 {
        let at = if off as usize <= data.len() {
            off as usize
        } else {
            c
        };
        match read_text_at(data, at, size) {
            Ok((t, c2)) => Ok((Some(t), c2)),
            Err(e) => Err(e),
        }
    } else {
        Ok((None, c))
    }
}

/// Read the optional display text at `off` of `size` bytes, the stream at `c`.
fn read_opt_mlu(data: &[u8], c: usize, off: u32, size: u32) -> (r: Result<(Option<Mlu>, usize), CmsError>)
    requires
        data@.len() <= u32::MAX,
    ensures
        match opt_mlu_read(data@, c as int, off as int, size as int) {
            Ok((t, c2)) => r matches Ok((s, c3)) && c3 == c2 && match t {
                Some(x) => s matches Some(y) && y.wf() && y@ == x,
                None => s is None,
            },
            Err(e) => r matches Err(x) && x.code == e,
        },
{
    if off > 0 && size > 0 {
        let len = data.len();
        let at = if off as usize <= len {
            off as usize
        } else {
            c
        };
        if size < 8 {
            return Ok((Some(Mlu::new()), at));
        }
        if at > len || len - at < 8 {
            return Err(read_error());
        }
        let (res, c2) = read_mlu_at(data, at + 8, size - 8);
        match res {
            Ok(m) => Ok((Some(m), c2)),
            Err(_) => Ok((Some(Mlu::new()), c2)),
        }
    } else {
        Ok((None, c))
    }
}

/// A stored offset turned into a stream position (see `rebase`).
fn rebase_exec(raw: u32, base: usize) -> (r: u32)
    requires
        base <= u32::MAX,
    ensures
        r == rebase(raw, base as int),
{
    if raw == 0 {
        0
    } else {
        let sum = raw as u64 + base as u64;
        if sum > 0xffff_ffff {
            (sum - 0x1_0000_0000) as u32
        } else {
            sum as u32
        }
    }
}

proof fn lemma_entries_step(b: Seq<u8>, c: int, recs: Seq<DictRecord>, k: int)
    requires
        0 <= k < recs.len(),
    ensures
        dict_entries_read(b, c, recs.skip(k)) == match dict_entry_read(b, c, recs[k]) {
            Err(e) => Err(e),
            Ok((it, c2)) => match dict_entries_read(b, c2, recs.skip(k + 1)) {
                Ok(rest) => Ok(seq![it] + rest),
                Err(e) => Err(e),
            },
        },
{
    assert(recs.skip(k)[0] == recs[k]);
    assert(recs.skip(k).skip(1) =~= recs.skip(k + 1));
}

/// Read the entry whose record of `rl` bytes is stored at `at`, the stream at
/// `c`: the entry and where the stream is left.
fn read_dict_entry(data: &[u8], c: usize, at: usize, rl: usize, base: usize) -> (r: Result<(DictEntry, usize), CmsError>)
    requires
        data@.len() <= u32::MAX,
        at + rl <= data@.len(),
        rl == 16 || rl == 24 || rl == 32,
        base <= u32::MAX,
    ensures
        match dict_entry_read(data@, c as int, dict_record_at(data@, at as int, rl as int, base as int)) {
            Ok((it, c2)) => r matches Ok((e, c3)) && e.wf() && e@ == it && c3 == c2,
            Err(e) => r matches Err(x) && x.code == e,
        },
{
    reveal(dict_entry_read);
    let name_off = rebase_exec(read_be32(data, at), base);
    let name_size = read_be32(data, at + 4);
    let value_off = rebase_exec(read_be32(data, at + 8), base);
    let value_size = read_be32(data, at + 12);
    let (dn_off, dn_size) = if rl >= 24 {
        (rebase_exec(read_be32(data, at + 16), base), read_be32(data, at + 20))
    } else {
        (0, 0)
    };
    let (dv_off, dv_size) = if rl >= 32 {
        (rebase_exec(read_be32(data, at + 24), base), read_be32(data, at + 28))
    } else {
        (0, 0)
    };
    let (name, c1) = match read_opt_text(data, c, name_off, name_size) {
        Ok(x) => x,
        Err(e) => return Err(e),
    };
    let (value, c2) = match read_opt_text(data, c1, value_off, value_size) {
        Ok(x) => x,
        Err(e) => return Err(e),
    };
    let (display_name, c3) = match read_opt_mlu(data, c2, dn_off, dn_size) {
        Ok(x) => x,
        Err(e) => return Err(e),
    };
    let (display_value, c4) = match read_opt_mlu(data, c3, dv_off, dv_size) {
        Ok(x) => x,
        Err(e) => return Err(e),
    };
    let name = match name {
        Some(s) => s,
        None => String::new(),
    };
    Ok((DictEntry { name, value, display_name, display_value }, c4))
}

/// Read a dictionary payload (`Dict` tag type) from the stream `data`,
/// starting at `start`. Offsets in its records count from the start of the
/// 8-byte type header before the payload (from 0 when `start` is under 8).
/// An entry's name, value, display name and display value are read where
/// their records point, each only when both its offset and size are
/// nonzero; a display text that cannot be read comes back empty.
pub fn read_dict_type(data: &[u8], start: usize) -> (r: Result<Dict, CmsError>)
    requires
        data@.len() <= u32::MAX,
    ensures
        match dict_type_read(data@, start as int) {
            Ok(d) => r matches Ok(x) && x.wf() && x@ == d,
            Err(e) => r matches Err(x) && x.code == e,
        },
{
    let ghost b = data@;
    let ghost p = start as int;
    let len = data.len();
    if start > len || len - start < 8 {
        return Err(read_error());
    }
    let count = read_be32(data, start);
    let rec_len = read_be32(data, start + 4);
    if rec_len != 16 && rec_len != 24 && rec_len != 32 {
        return Err(err(ErrorCode::Range, "Dict: unsupported record length (expected 16, 24, or 32)"));
    }
    if count > 0x10000 {
        return Err(err(ErrorCode::Range, "Dict count too large"));
    }
    let n = count as usize;
    let rl = rec_len as usize;
    let q = start + 8;
    assert(rl * n <= 32 * 0x10000) by (nonlinear_arith)
        requires
            rl <= 32,
            n <= 0x10000,
    ;
    if len - q < rl * n {
        return Err(read_error());
    }
    let base: usize = if start >= 8 {
        start - 8
    } else {
        0
    };
    let ghost recs = Seq::new(n as nat, |k: int| dict_record_at(b, q + rl * k, rl as int, base as int));
    let mut dict = Dict::new();
    let mut c: usize = q + rl * n;
    let mut k: usize = 0;
    let ghost total = dict_type_read(b, p);
    proof {
        assert(total == dict_entries_read(b, c as int, recs));
        assert(recs.skip(0) =~= recs);
        assert(dict@ + Seq::<DictItem>::empty() =~= Seq::<DictItem>::empty());
    }
    while k < n
        invariant
            k <= n,
            n <= 0x10000,
            rl == 16 || rl == 24 || rl == 32,
            b == data@,
            len == b.len(),
            len <= u32::MAX,
            q + rl * n <= len,
            base <= q,
            base == dict_base(p),
            q == p + 8,
            recs.len() == n,
            forall|j: int| 0 <= j < n ==> #[trigger] recs[j] == dict_record_at(b, q + rl * j, rl as int, base as int),
            dict.wf(),
            p == start as int,
            total == dict_type_read(b, p),
            total == match dict_entries_read(b, c as int, recs.skip(k as int)) {
                Ok(rest) => Ok(dict@ + rest),
                Err(e) => Err(e),
            },
        decreases n - k,
    {
        let at = q + rl * k;
        assert(at + rl <= q + rl * n) by (nonlinear_arith)
            requires
                at == q + rl * k,
                k < n,
        ;
        proof {
            lemma_entries_step(b, c as int, recs, k as int);
            assert(recs[k as int] == dict_record_at(b, at as int, rl as int, base as int));
        }
        let (e, c4) = match read_dict_entry(data, c, at, rl, base) {
            Ok(x) => x,
            Err(e) => return Err(e),
        };
        let ghost before = dict@;
        dict.push(e);
        proof {
            assert(dict@ == before.push(e@));
        }
        c = c4;
        k = k + 1;
        proof {
            match dict_entries_read(b, c as int, recs.skip(k as int)) {
                Ok(rest2) => {
                    assert(before + (seq![e@] + rest2) =~= dict@ + rest2);
                },
                Err(_) => {},
            }
        }
    }
    proof {
        assert(recs.skip(n as int) =~= Seq::<DictRecord>::empty());
        assert(dict@ + Seq::<DictItem>::empty() =~= dict@);
    }
    Ok(dict)
}

/// Type signature of a multi-localized text ('mluc').
pub const MLU_TYPE_SIGNATURE: u32 = 0x6D6C7563;

/// Some entry has a display name.
pub open spec fn has_display_name(d: Seq<DictItem>) -> bool {
    exists|i: int| 0 <= i < d.len() && (#[trigger] d[i]).2 is Some
}

/// Some entry has a display value.
pub open spec fn has_display_value(d: Seq<DictItem>) -> bool {
    exists|i: int| 0 <= i < d.len() && (#[trigger] d[i]).3 is Some
}

/// The record length written: 32 when some entry has a display value, 24
/// when some has a display name, else 16.
pub open spec fn dict_rec_len(d: Seq<DictItem>) -> int {
    if has_display_value(d) {
        32
    } else if has_display_name(d) {
        24
    } else {
        16
    }
}

/// The bytes actually filled in per record: name and value, then the
/// display name pair and the display value pair where any entry has one.
pub open spec fn dict_rec_filled(d: Seq<DictItem>) -> int {
    16 + (if has_display_name(d) {
        8int
    } else {
        0int
    }) + (if has_display_value(d) {
        8int
    } else {
        0int
    })
}

/// A multi-localized text with its type header, as a dictionary embeds it.
pub open spec fn embedded_mlu_bytes(m: Seq<MluItem>) -> Seq<u8> {
    bytes32(MLU_TYPE_SIGNATURE) + bytes32(0) + mlu_type_bytes(m)
}

/// The UTF-16BE bytes of an optional string (none when absent).
pub open spec fn opt_text_bytes(t: Option<Seq<char>>) -> Seq<u8> {
    match t {
        Some(x) => utf16be(x),
        None => Seq::empty(),
    }
}

/// The embedded bytes of an optional display text, written only when `on`.
pub open spec fn opt_mlu_bytes(m: Option<Seq<MluItem>>, on: bool) -> Seq<u8> {
    match m {
        Some(x) => if on {
            embedded_mlu_bytes(x)
        } else {
            Seq::empty()
        },
        None => Seq::empty(),
    }
}

/// The data written for entry `i`: name, value, display name, display value.
pub open spec fn dict_entry_bytes(d: Seq<DictItem>, i: int) -> Seq<u8> {
    utf16be(d[i].0) + opt_text_bytes(d[i].1) + opt_mlu_bytes(d[i].2, has_display_name(d))
        + opt_mlu_bytes(d[i].3, has_display_value(d))
}

/// The data of the first `k` entries.
pub open spec fn dict_data(d: Seq<DictItem>, k: int) -> Seq<u8>
    decreases k,
{
    if k <= 0 {
        Seq::empty()
    } else {
        dict_data(d, k - 1) + dict_entry_bytes(d, k - 1)
    }
}

/// A filled-in record: name and value pairs, then the display name pair and
/// the display value pair when `on_dn` and `on_dv`.
pub open spec fn dict_record_bytes(
    no: int,
    ns: int,
    vo: int,
    vs: int,
    on_dn: bool,
    dno: int,
    dns: int,
    on_dv: bool,
    dvo: int,
    dvs: int,
) -> Seq<u8> {
    bytes32(no as u32) + bytes32(ns as u32) + bytes32(vo as u32) + bytes32(vs as u32) + (if on_dn {
        bytes32(dno as u32) + bytes32(dns as u32)
    } else {
        Seq::empty()
    }) + (if on_dv {
        bytes32(dvo as u32) + bytes32(dvs as u32)
    } else {
        Seq::empty()
    })
}

/// The record filled in for entry `i` of a payload written at stream
/// position `o`: offsets from the base and sizes; absent parts get offset 0.
#[verifier::opaque]
pub open spec fn dict_entry_record(d: Seq<DictItem>, i: int, o: int) -> Seq<u8> {
    let base = dict_base(o);
    let s = o + 8 + d.len() * dict_rec_len(d) + dict_data(d, i).len();
    let nl = utf16be(d[i].0).len() as int;
    let vl = opt_text_bytes(d[i].1).len() as int;
    let dnl = opt_mlu_bytes(d[i].2, has_display_name(d)).len() as int;
    let dvl = opt_mlu_bytes(d[i].3, has_display_value(d)).len() as int;
    let vo = if d[i].1 is Some {
        s + nl - base
    } else {
        0
    };
    let dno = if has_display_name(d) && d[i].2 is Some {
        s + nl + vl - base
    } else {
        0
    };
    let dvo = if has_display_value(d) && d[i].3 is Some {
        s + nl + vl + dnl - base
    } else {
        0
    };
    dict_record_bytes(
        s - base,
        nl,
        vo,
        vl,
        has_display_name(d),
        dno,
        dnl,
        has_display_value(d),
        dvo,
        dvl,
    )
}

/// The records filled in for the first `k` entries.
pub open spec fn dict_dir(d: Seq<DictItem>, k: int, o: int) -> Seq<u8>
    decreases k,
{
    if k <= 0 {
        Seq::empty()
    } else {
        dict_dir(d, k - 1, o) + dict_entry_record(d, k - 1, o)
    }
}

/// The payload of a dictionary written at stream position `o`: count,
/// record length, the records (space for `count` records of the record
/// length, of which the filled-in part comes first and the rest stays
/// zero), then each entry's data.
pub open spec fn dict_type_bytes(d: Seq<DictItem>, o: int) -> Seq<u8> {
    let n = d.len() as int;
    bytes32(n as u32) + bytes32(dict_rec_len(d) as u32) + dict_dir(d, n, o) + Seq::new(
        (n * (dict_rec_len(d) - dict_rec_filled(d))) as nat,
        |i: int| 0u8,
    ) + dict_data(d, n)
}

proof fn lemma_dict_data_grows(d: Seq<DictItem>, i: int, n: int)
    requires
        0 <= i <= n,
    ensures
        dict_data(d, i).len() <= dict_data(d, n).len(),
    decreases n - i,
{
    if i < n {
        lemma_dict_data_grows(d, i, n - 1);
    }
}

proof fn lemma_record_len(d: Seq<DictItem>, i: int, o: int)
    ensures
        dict_entry_record(d, i, o).len() == dict_rec_filled(d),
{
    reveal(dict_entry_record);
}

proof fn lemma_dict_dir_len(d: Seq<DictItem>, k: int, o: int)
    requires
        0 <= k,
    ensures
        dict_dir(d, k, o).len() == k * dict_rec_filled(d),
    decreases k,
{
    if k > 0 {
        lemma_dict_dir_len(d, k - 1, o);
        lemma_record_len(d, k - 1, o);
        let f = dict_rec_filled(d);
        assert(k * f == (k - 1) * f + f) by (nonlinear_arith);
        assert(dict_dir(d, k, o) == dict_dir(d, k - 1, o) + dict_entry_record(d, k - 1, o));
    } else {
        assert(k * dict_rec_filled(d) == 0) by (nonlinear_arith)
            requires
                k == 0,
        ;
    }
}

/// Append an optional string's UTF-16BE bytes.
fn push_opt_text(data: &mut Vec<u8>, t: &Option<String>)
    ensures
        final(data)@ == old(data)@ + opt_text_bytes(crate::named::opt_text(*t)),
{
    match t {
        Some(x) => {
            let mut b = encode_utf16be(x.as_str());
            data.append(&mut b);
        },
        None => {
            assert(old(data)@ + Seq::<u8>::empty() =~= old(data)@);
        },
    }
}

/// Append an optional display text with its type header, when `on`.
fn push_opt_mlu(data: &mut Vec<u8>, m: &Option<Mlu>, on: bool)
    requires
        crate::named::opt_mlu_wf(*m),
        old(data)@.len() + opt_mlu_bytes(crate::named::opt_mlu(*m), on).len() <= u32::MAX,
    ensures
        final(data)@ == old(data)@ + opt_mlu_bytes(crate::named::opt_mlu(*m), on),
{
    match m {
        Some(x) => {
            if on {
                push_be32(data, MLU_TYPE_SIGNATURE);
                push_be32(data, 0);
                write_mlu_type(data, x);
                assert(final(data)@ =~= old(data)@ + embedded_mlu_bytes(x@));
            } else {
                assert(old(data)@ + Seq::<u8>::empty() =~= old(data)@);
            }
        },
        None => {
            assert(old(data)@ + Seq::<u8>::empty() =~= old(data)@);
        },
    }
}

/// Whether some entry has a display name (`which` false) or a display value
/// (`which` true).
fn dict_has_display(dict: &Dict, which: bool) -> (r: bool)
    requires
        dict.wf(),
    ensures
        !which ==> r == has_display_name(dict@),
        which ==> r == has_display_value(dict@),
{
    let n = dict.len();
    let mut i: usize = 0;
    while i < n
        invariant
            i <= n,
            n == dict@.len(),
            dict.wf(),
            forall|j: int| 0 <= j < i ==> if which {
                (#[trigger] dict@[j]).3 is None
            } else {
                dict@[j].2 is None
            },
        decreases n - i,
    {
        match dict.get(i) {
            Some(e) => {
                let present = if which {
                    e.display_value.is_some()
                } else {
                    e.display_name.is_some()
                };
                if present {
                    return true;
                }
            },
            None => {},
        }
        i = i + 1;
    }
    false
}

fn push_dict_record(
    dir: &mut Vec<u8>,
    no: usize,
    ns: usize,
    vo: usize,
    vs: usize,
    on_dn: bool,
    dno: usize,
    dns: usize,
    on_dv: bool,
    dvo: usize,
    dvs: usize,
)
    ensures
        final(dir)@ == old(dir)@ + dict_record_bytes(
            no as int,
            ns as int,
            vo as int,
            vs as int,
            on_dn,
            dno as int,
            dns as int,
            on_dv,
            dvo as int,
            dvs as int,
        ),
{
    push_be32(dir, no as u32);
    push_be32(dir, ns as u32);
    push_be32(dir, vo as u32);
    push_be32(dir, vs as u32);
    let ghost mid = dir@;
    if on_dn {
        push_be32(dir, dno as u32);
        push_be32(dir, dns as u32);
    }
    let ghost mid2 = dir@;
    if on_dv {
        push_be32(dir, dvo as u32);
        push_be32(dir, dvs as u32);
    }
    assert(final(dir)@ =~= old(dir)@ + dict_record_bytes(
        no as int,
        ns as int,
        vo as int,
        vs as int,
        on_dn,
        dno as int,
        dns as int,
        on_dv,
        dvo as int,
        dvs as int,
    ));
}

/// Append entry `i`'s record to `dir` and its data to `data`.
#[verifier::spinoff_prover]
#[verifier::rlimit(60)]
fn write_dict_entry(
    dir: &mut Vec<u8>,
    data: &mut Vec<u8>,
    e: &DictEntry,
    Ghost(d): Ghost<Seq<DictItem>>,
    Ghost(i): Ghost<int>,
    o: usize,
    n: usize,
    rl: usize,
    base: usize,
    has_dn: bool,
    has_dv: bool,
)
    requires
        0 <= i < d.len(),
        d[i] == e@,
        e.wf(),
        n == d.len(),
        has_dn == has_display_name(d),
        has_dv == has_display_value(d),
        rl == dict_rec_len(d),
        base == dict_base(o as int),
        old(data)@ == dict_data(d, i),
        old(dir)@ == dict_dir(d, i, o as int),
        o + 8 + n * rl + dict_data(d, i + 1).len() <= u32::MAX,
    ensures
        final(data)@ == dict_data(d, i + 1),
        final(dir)@ == dict_dir(d, i + 1, o as int),
{
    reveal(dict_entry_record);
    assert(dict_data(d, i + 1) == dict_data(d, i) + dict_entry_bytes(d, i));
    let s = o + 8 + n * rl + data.len();
    let mut name = encode_utf16be(e.name.as_str());
    let nl = name.len();
    data.append(&mut name);
    let vstart = data.len();
    push_opt_text(data, &e.value);
    let vl = data.len() - vstart;
    let dnstart = data.len();
    push_opt_mlu(data, &e.display_name, has_dn);
    let dnl = data.len() - dnstart;
    let dvstart = data.len();
    push_opt_mlu(data, &e.display_value, has_dv);
    let dvl = data.len() - dvstart;
    assert(data@ =~= dict_data(d, i) + dict_entry_bytes(d, i));
    let vo: usize = if e.value.is_some() {
        s + nl - base
    } else {
        0
    };
    let dno: usize = if has_dn && e.display_name.is_some() {
        s + nl + vl - base
    } else {
        0
    };
    let dvo: usize = if has_dv && e.display_value.is_some() {
        s + nl + vl + dnl - base
    } else {
        0
    };
    push_dict_record(dir, s - base, nl, vo, vl, has_dn, dno, dnl, has_dv, dvo, dvl);
}

/// Append a dictionary payload (`Dict` tag type without its type header) to
/// the stream `out`. Offsets in the records count from the start of the
/// 8-byte type header that precedes the payload (from 0 when fewer than 8
/// bytes precede it). The record length is 32 when any entry has a display
/// value, 24 when any has a display name, else 16; room for that many bytes
/// per record is left, and each record is filled in with name and value,
/// then the display name pair and the display value pair where any entry
/// has one. The stream must stay within the 32-bit offsets' reach.
pub fn write_dict_type(out: &mut Vec<u8>, dict: &Dict)
    requires
        dict.wf(),
        old(out)@.len() + dict_type_bytes(dict@, old(out)@.len() as int).len() <= u32::MAX,
    ensures
        final(out)@ == old(out)@ + dict_type_bytes(dict@, old(out)@.len() as int),
{
    let ghost d = dict@;
    let o = out.len();
    let ghost og = o as int;
    let base: usize = if o >= 8 {
        o - 8
    } else {
        0
    };
    let n = dict.len();
    let has_dn = dict_has_display(dict, false);
    let has_dv = dict_has_display(dict, true);
    let rl: usize = if has_dv {
        32
    } else if has_dn {
        24
    } else {
        16
    };
    let filled: usize = 16 + (if has_dn {
        8usize
    } else {
        0usize
    }) + (if has_dv {
        8usize
    } else {
        0usize
    });
    let ghost total = dict_type_bytes(d, og);
    proof {
        lemma_dict_dir_len(d, n as int, og);
        assert(n * (rl - filled) + n * filled == n * rl) by (nonlinear_arith);
        assert(total.len() == 8 + n * rl + dict_data(d, n as int).len());
    }
    let mut dir: Vec<u8> = Vec::new();
    let mut data: Vec<u8> = Vec::new();
    let mut i: usize = 0;
    while i < n
        invariant
            i <= n,
            n == d.len(),
            dict.wf(),
            d == dict@,
            o == og,
            base == dict_base(og),
            has_dn == has_display_name(d),
            has_dv == has_display_value(d),
            rl == dict_rec_len(d),
            total == dict_type_bytes(d, og),
            total.len() == 8 + n * rl + dict_data(d, n as int).len(),
            o + total.len() <= u32::MAX,
            dir@ == dict_dir(d, i as int, og),
            data@ == dict_data(d, i as int),
        decreases n - i,
    {
        let e = match dict.get(i) {
            Some(e) => e,
            None => {
                assert(false);
                return;
            },
        };
        proof {
            lemma_dict_data_grows(d, i + 1, n as int);
        }
        write_dict_entry(&mut dir, &mut data, e, Ghost(d), Ghost(i as int), o, n, rl, base, has_dn, has_dv);
        i = i + 1;
    }
    push_be32(out, n as u32);
    push_be32(out, rl as u32);
    out.append(&mut dir);
    let pad = n * (rl - filled);
    let mut z: usize = 0;
    let ghost before_pad = out@;
    while z < pad
        invariant
            z <= pad,
            out@ == before_pad + Seq::new(z as nat, |j: int| 0u8),
        decreases pad - z,
    {
        out.push(0);
        z = z + 1;
        assert(out@ =~= before_pad + Seq::new(z as nat, |j: int| 0u8));
    }
    out.append(&mut data);
    assert(final(out)@ =~= old(out)@ + total);
}

// ---------------------------------------------------------------------------
// ASCII text
// ---------------------------------------------------------------------------

/// Bytes with their trailing zero bytes removed.
pub open spec fn trim_nul_bytes(b: Seq<u8>) -> Seq<u8>
    decreases b.len(),
{
    if b.len() > 0 && b.last() == 0 {
        trim_nul_bytes(b.drop_last())
    } else {
        b
    }
}

/// Every byte is ASCII.
pub open spec fn all_ascii(b: Seq<u8>) -> bool {
    forall|i: int| 0 <= i < b.len() ==> #[trigger] b[i] < 0x80
}

/// ASCII bytes read as characters.
pub open spec fn ascii_chars(b: Seq<u8>) -> Seq<char> {
    Seq::new(b.len(), |i: int| b[i] as char)
}

/// The translations stored ASCII text gives: trailing NULs dropped, one
/// English (US) entry when every byte is ASCII, none otherwise.
pub open spec fn ascii_text_mlu(b: Seq<u8>) -> Seq<MluItem> {
    let t = trim_nul_bytes(b);
    if all_ascii(t) {
        seq![(LanguageCode(lang_en()), CountryCode(country_us()), ascii_chars(t))]
    } else {
        Seq::empty()
    }
}

/// The text a lookup by codes selects, each non-ASCII character as '?',
/// empty when there are no entries.
pub open spec fn lookup_ascii(v: Seq<MluItem>, l: [u8; 2], c: [u8; 2]) -> Seq<char> {
    match mlu_lookup(v, LanguageCode(l), CountryCode(c)) {
        Some(i) => ascii_or_question(v[i].2),
        None => Seq::empty(),
    }
}

/// The text a text payload is written from: the English (US) lookup.
pub open spec fn english_text(v: Seq<MluItem>) -> Seq<char> {
    lookup_ascii(v, lang_en(), country_us())
}

/// Characters below 128 written as bytes.
pub open spec fn char_bytes(t: Seq<char>) -> Seq<u8> {
    Seq::new(t.len(), |i: int| (t[i] as u32) as u8)
}

/// The payload of a text tag: the ASCII text and a NUL.
pub open spec fn text_type_bytes(v: Seq<MluItem>) -> Seq<u8> {
    char_bytes(english_text(v)).push(0)
}

/// The payload of a text description tag: the length of the ASCII text
/// with its NUL, the text, a NUL, an empty Unicode part (language 0, count
/// 0) and an empty ScriptCode part (code 0, count 0, 67 zero bytes).
pub open spec fn text_description_bytes(v: Seq<MluItem>) -> Seq<u8> {
    let t = english_text(v);
    bytes32((t.len() + 1) as u32) + char_bytes(t).push(0) + bytes32(0) + bytes32(0) + bytes16(0)
        + seq![0u8] + Seq::new(67, |i: int| 0u8)
}

proof fn lemma_trim_take(b: Seq<u8>, m: int)
    requires
        0 <= m <= b.len(),
        forall|j: int| m <= j < b.len() ==> b[j] == 0,
    ensures
        trim_nul_bytes(b) == trim_nul_bytes(b.take(m)),
    decreases b.len() - m,
{
    if m < b.len() {
        assert(b.last() == 0);
        assert(b.drop_last() =~= b.take(b.len() - 1));
        lemma_trim_take(b.drop_last(), m);
        assert(b.drop_last().take(m) =~= b.take(m));
    } else {
        assert(b.take(m) =~= b);
    }
}

/// The translations given by the ASCII text stored in `data[from .. to]`.
fn ascii_text_at(data: &[u8], from: usize, to: usize) -> (r: Mlu)
    requires
        from <= to <= data@.len(),
    ensures
        r.wf(),
        r@ == ascii_text_mlu(data@.subrange(from as int, to as int)),
{
    let ghost b = data@.subrange(from as int, to as int);
    let mut m: usize = to;
    while m > from
        invariant_except_break
            from <= m <= to,
            to <= data@.len(),
            b == data@.subrange(from as int, to as int),
            forall|j: int| m - from <= j < b.len() ==> b[j] == 0,
        ensures
            from <= m <= to,
            forall|j: int| m - from <= j < b.len() ==> b[j] == 0,
            m > from ==> b[m - from - 1] != 0,
        decreases m,
    {
        assert(b[m - from - 1] == data@[m - 1]);
        if data[m - 1] != 0 {
            break;
        }
        m = m - 1;
    }
    let ghost t = b.take(m - from);
    proof {
        lemma_trim_take(b, m - from);
        if m > from {
            assert(t.last() != 0);
        }
        assert(trim_nul_bytes(t) == t);
        assert(t =~= data@.subrange(from as int, m as int));
    }
    let mut text = String::new();
    let mut k: usize = from;
    while k < m
        invariant
            from <= k <= m,
            m <= data@.len(),
            t == data@.subrange(from as int, m as int),
            trim_nul_bytes(data@.subrange(from as int, to as int)) == t,
            all_ascii(t.take(k - from)),
            text@ == ascii_chars(t.take(k - from)),
        decreases m - k,
    {
        let x = data[k];
        if x >= 0x80 {
            assert(!all_ascii(t)) by {
                assert(t[k - from] == x);
            }
            return Mlu::new();
        }
        string_push(&mut text, x as char);
        k = k + 1;
        assert(t.take(k - from) =~= t.take(k - from - 1).push(x));
        assert(text@ =~= ascii_chars(t.take(k - from)));
    }
    assert(t.take(m - from) =~= t);
    let mut mlu = Mlu::new();
    mlu.set_codes(LanguageCode([0x65u8, 0x6eu8]), CountryCode([0x55u8, 0x53u8]), text.as_str());
    assert(mlu@ =~= seq![(LanguageCode(lang_en()), CountryCode(country_us()), ascii_chars(t))]);
    mlu
}

/// Read a text payload (`Text` tag type) of `size` bytes at `start`: ASCII
/// text, trailing NULs dropped, kept as the English (US) entry; text that is
/// not all ASCII gives no entry.
pub fn read_text_type(data: &[u8], start: usize, size: u32) -> (r: Result<Mlu, CmsError>)
    ensures
        (if fits(data@, start as int, size as int) {
            r matches Ok(m) && m.wf() && m@ == ascii_text_mlu(
                data@.subrange(start as int, start + size),
            )
        } else {
            r matches Err(e) && e.code == ErrorCode::Read
        }),
{
    let len = data.len();
    if start > len || ((len - start) as u64) < size as u64 {
        return Err(read_error());
    }
    Ok(ascii_text_at(data, start, start + size as usize))
}

/// The text a lookup by codes selects, as ASCII bytes.
fn lookup_ascii_bytes(mlu: &Mlu, l: [u8; 2], c: [u8; 2]) -> (r: Vec<u8>)
    requires
        mlu.wf(),
    ensures
        r@ == char_bytes(lookup_ascii(mlu@, l, c)),
{
    let t = match mlu.get_ascii_codes(LanguageCode(l), CountryCode(c)) {
        Some(t) => t,
        None => String::new(),
    };
    let ghost tv = t@;
    assert(tv == lookup_ascii(mlu@, l, c));
    let mut out: Vec<u8> = Vec::new();
    for ch in iter: t.as_str().chars()
        invariant
            iter.seq() == tv,
            tv == lookup_ascii(mlu@, l, c),
            out@ == char_bytes(tv.take(iter.index())),
    {
        let code = char_code(ch);
        proof {
            assert(tv[iter.index() as int] == ch);
            assert((ch as u32) < 128);
        }
        out.push(code as u8);
        assert(out@ =~= char_bytes(tv.take(iter.index() + 1)));
    }
    assert(tv.take(tv.len() as int) =~= tv);
    out
}

/// The English (US) text, as ASCII bytes.
fn english_bytes(mlu: &Mlu) -> (r: Vec<u8>)
    requires
        mlu.wf(),
    ensures
        r@ == char_bytes(english_text(mlu@)),
{
    lookup_ascii_bytes(mlu, [0x65u8, 0x6eu8], [0x55u8, 0x53u8])
}

/// Append a text payload: the English (US) text as ASCII ('?' for other
/// characters, empty when there are no entries) and a NUL.
pub fn write_text_type(out: &mut Vec<u8>, mlu: &Mlu)
    requires
        mlu.wf(),
    ensures
        final(out)@ == old(out)@ + text_type_bytes(mlu@),
{
    let mut bytes = english_bytes(mlu);
    out.append(&mut bytes);
    out.push(0);
    assert(final(out)@ =~= old(out)@ + text_type_bytes(mlu@));
}

/// Read a text description payload (`TextDescription` tag type) at
/// `start`: a byte count and that much ASCII text, read as `read_text_type`
/// does; the Unicode and ScriptCode parts that follow are not read.
pub fn read_text_description_type(data: &[u8], start: usize) -> (r: Result<Mlu, CmsError>)
    ensures
        (if !fits(data@, start as int, 4) || !fits(
            data@,
            start + 4,
            be32(data@, start as int) as int,
        ) {
            r matches Err(e) && e.code == ErrorCode::Read
        } else {
            r matches Ok(m) && m.wf() && m@ == ascii_text_mlu(
                data@.subrange(start + 4, start + 4 + be32(data@, start as int)),
            )
        }),
{
    let len = data.len();
    if start > len || len - start < 4 {
        return Err(read_error());
    }
    let n = read_be32(data, start);
    let from = start + 4;
    if ((len - from) as u64) < n as u64 {
        return Err(read_error());
    }
    Ok(ascii_text_at(data, from, from + n as usize))
}

/// Append a text description payload: the length of the English (US) text
/// with its NUL, the text as ASCII and a NUL, then empty Unicode and
/// ScriptCode parts. The text's length must fit the 32-bit count.
pub fn write_text_description_type(out: &mut Vec<u8>, mlu: &Mlu)
    requires
        mlu.wf(),
        english_text(mlu@).len() < u32::MAX,
    ensures
        final(out)@ == old(out)@ + text_description_bytes(mlu@),
{
    let mut bytes = english_bytes(mlu);
    push_be32(out, (bytes.len() + 1) as u32);
    out.append(&mut bytes);
    out.push(0);
    push_be32(out, 0);
    push_be32(out, 0);
    push_be16(out, 0);
    out.push(0);
    let ghost before = out@;
    let mut k: usize = 0;
    while k < 67
        invariant
            k <= 67,
            out@ == before + Seq::new(k as nat, |i: int| 0u8),
        decreases 67 - k,
    {
        out.push(0);
        k = k + 1;
        assert(out@ =~= before + Seq::new(k as nat, |i: int| 0u8));
    }
    assert(final(out)@ =~= old(out)@ + text_description_bytes(mlu@));
}

// ---------------------------------------------------------------------------
// PostScript CRD names
// ---------------------------------------------------------------------------

/// The language code of PostScript CRD names ("PS").
pub open spec fn ps_code() -> [u8; 2] {
    [0x50u8, 0x53u8]
}

/// The country code of CRD section `i`: "nm" for the product name, then
/// "#0" to "#3" for the four rendering intents.
pub open spec fn crd_section(i: int) -> [u8; 2] {
    if i == 0 {
        [0x6eu8, 0x6du8]
    } else if i == 1 {
        [0x23u8, 0x30u8]
    } else if i == 2 {
        [0x23u8, 0x31u8]
    } else if i == 3 {
        [0x23u8, 0x32u8]
    } else {
        [0x23u8, 0x33u8]
    }
}

/// Reading CRD sections `i` to 4 at `c`, with `rem` bytes of the payload
/// left, onto the translations `acc`: each is a count that must fit what is
/// left, then that much ASCII text (trailing NULs dropped), set for its
/// section when all ASCII.
pub open spec fn crd_read(b: Seq<u8>, c: int, rem: int, i: int, acc: Seq<MluItem>) -> Result<
    Seq<MluItem>,
    ErrorCode,
>
    decreases 5 - i,
{
    if i >= 5 {
        Ok(acc)
    } else if rem < 4 || !fits(b, c, 4) {
        Err(ErrorCode::Read)
    } else {
        let n = be32(b, c) as int;
        if rem - 4 < n || !fits(b, c + 4, n) {
            Err(ErrorCode::Read)
        } else {
            let t = trim_nul_bytes(b.subrange(c + 4, c + 4 + n));
            let acc2 = if all_ascii(t) {
                mlu_set(acc, LanguageCode(ps_code()), CountryCode(crd_section(i)), ascii_chars(t))
            } else {
                acc
            };
            crd_read(b, c + 4 + n, rem - 4 - n, i + 1, acc2)
        }
    }
}

/// The text written for CRD section `i`.
pub open spec fn crd_text(v: Seq<MluItem>, i: int) -> Seq<char> {
    lookup_ascii(v, ps_code(), crd_section(i))
}

/// The bytes written for CRD sections `i` to 4: each text's length with its
/// NUL, the text as ASCII and a NUL.
pub open spec fn crd_bytes(v: Seq<MluItem>, i: int) -> Seq<u8>
    decreases 5 - i,
{
    if i >= 5 {
        Seq::empty()
    } else {
        bytes32((crd_text(v, i).len() + 1) as u32) + char_bytes(crd_text(v, i)).push(0) + crd_bytes(
            v,
            i + 1,
        )
    }
}

/// The code of CRD section `i`.
fn crd_section_exec(i: usize) -> (r: [u8; 2])
    ensures
        r == crd_section(i as int),
{
    if i == 0 {
        [0x6eu8, 0x6du8]
    } else if i == 1 {
        [0x23u8, 0x30u8]
    } else if i == 2 {
        [0x23u8, 0x31u8]
    } else if i == 3 {
        [0x23u8, 0x32u8]
    } else {
        [0x23u8, 0x33u8]
    }
}

/// Read a PostScript CRD names payload (`CrdInfo` tag type) of `size`
/// bytes at `start`: the product name and the four rendering intents' CRD
/// names, each a count and ASCII text, kept under language "PS" and the
/// countries "nm" and "#0" to "#3".
pub fn read_crd_info_type(data: &[u8], start: usize, size: u32) -> (r: Result<Mlu, CmsError>)
    ensures
        match crd_read(data@, start as int, size as int, 0, Seq::empty()) {
            Ok(v) => r matches Ok(m) && m.wf() && m@ == v,
            Err(e) => r matches Err(x) && x.code == e,
        },
{
    let len = data.len();
    let mut mlu = Mlu::new();
    let mut c: usize = start;
    let mut rem: u32 = size;
    let mut i: usize = 0;
    while i < 5
        invariant
            i <= 5,
            len == data@.len(),
            mlu.wf(),
            crd_read(data@, start as int, size as int, 0, Seq::empty()) == crd_read(
                data@,
                c as int,
                rem as int,
                i as int,
                mlu@,
            ),
        decreases 5 - i,
    {
        if rem < 4 || c > len || len - c < 4 {
            return Err(read_error());
        }
        let n = read_be32(data, c);
        if rem - 4 < n || ((len - c - 4) as u64) < n as u64 {
            return Err(read_error());
        }
        let from = c + 4;
        let to = from + n as usize;
        let part = ascii_text_at(data, from, to);
        let ghost t = trim_nul_bytes(data@.subrange(from as int, to as int));
        if part.translations_count() > 0 {
            let text = match part.get_codes(LanguageCode([0x65u8, 0x6eu8]), CountryCode([0x55u8, 0x53u8])) {
                Some(x) => x,
                None => {
                    assert(false);
                    return Err(read_error());
                },
            };
            assert(all_ascii(t));
            mlu.set_codes(LanguageCode([0x50u8, 0x53u8]), CountryCode(crd_section_exec(i)), text.as_str());
        }
        c = to;
        rem = rem - 4 - n;
        i = i + 1;
    }
    Ok(mlu)
}

/// Append a PostScript CRD names payload: for the product name and each
/// rendering intent, the length of the text a lookup under "PS" selects
/// (with its NUL), the text as ASCII and a NUL. Each text's length must fit
/// its 32-bit count.
pub fn write_crd_info_type(out: &mut Vec<u8>, mlu: &Mlu)
    requires
        mlu.wf(),
        forall|i: int| 0 <= i < 5 ==> #[trigger] crd_text(mlu@, i).len() < u32::MAX,
    ensures
        final(out)@ == old(out)@ + crd_bytes(mlu@, 0),
{
    let mut i: usize = 0;
    while i < 5
        invariant
            i <= 5,
            mlu.wf(),
            forall|j: int| 0 <= j < 5 ==> #[trigger] crd_text(mlu@, j).len() < u32::MAX,
            old(out)@ + crd_bytes(mlu@, 0) == out@ + crd_bytes(mlu@, i as int),
        decreases 5 - i,
    {
        let mut bytes = lookup_ascii_bytes(mlu, [0x50u8, 0x53u8], crd_section_exec(i));
        assert(crd_text(mlu@, i as int).len() < u32::MAX);
        let ghost before = out@;
        push_be32(out, (bytes.len() + 1) as u32);
        out.append(&mut bytes);
        out.push(0);
        proof {
            let piece = bytes32((crd_text(mlu@, i as int).len() + 1) as u32) + char_bytes(
                crd_text(mlu@, i as int),
            ).push(0);
            assert(out@ =~= before + piece);
            assert(crd_bytes(mlu@, i as int) == piece + crd_bytes(mlu@, i + 1));
            assert(before + crd_bytes(mlu@, i as int) =~= out@ + crd_bytes(mlu@, i + 1));
        }
        i = i + 1;
    }
    assert(out@ + crd_bytes(mlu@, 5) =~= out@);
}

} // verus!
