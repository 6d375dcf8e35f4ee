//! The profile sequence description payload: for each profile of a
//! sequence, its device maker and model, attributes and technology, and two
//! embedded texts, the maker's and the model's descriptions.
use vstd::prelude::*;
use crate::error::{CmsError, ErrorCode};
use crate::named::{Mlu, MluItem};
use crate::profile::{be32, be64, bytes32, bytes64, err, push_be32, push_be64, read_be32, read_be64};
use crate::tag_arrays::has_bytes;
use crate::tag_laws::{distinct_codes, holds_bytes, law_mlu_type_round_trip, lemma_be32_held, lemma_be64_held, lemma_holds_split, readable_codes};
use crate::tag_types::{
    MLU_TYPE_SIGNATURE, ascii_text_mlu, embedded_mlu_bytes, fits, mlu_type_bytes, mlu_type_read,
    read_error, read_mlu_at, read_text_description_type, read_text_type, write_mlu_type,
};

verus! {

/// The type signature of plain text.
pub const TEXT_SIGNATURE: u32 = 0x7465_7874;

/// The type signature of a text description.
pub const DESC_SIGNATURE: u32 = 0x6465_7363;

/// The most profiles a sequence description may hold.
pub const MAX_SEQUENCE: u32 = 256;

/// One profile of a sequence, as seen from outside.
pub struct SeqEntryView {
    pub device_mfg: u32,
    pub device_model: u32,
    pub attributes: u64,
    pub technology: u32,
    pub manufacturer: Seq<MluItem>,
    pub model: Seq<MluItem>,
}

/// One profile of a sequence: its device maker and model signatures, its
/// attributes, its technology signature and the two descriptions.
pub struct SeqEntry {
    pub device_mfg: u32,
    pub device_model: u32,
    pub attributes: u64,
    pub technology: u32,
    pub manufacturer: Mlu,
    pub model: Mlu,
}

impl View for SeqEntry {
    type V = SeqEntryView;

    open spec fn view(&self) -> SeqEntryView {
        SeqEntryView {
            device_mfg: self.device_mfg,
            device_model: self.device_model,
            attributes: self.attributes,
            technology: self.technology,
            manufacturer: self.manufacturer@,
            model: self.model@,
        }
    }
}

impl SeqEntry {
    /// Both descriptions are well formed.
    pub open spec fn wf(&self) -> bool {
        self.manufacturer.wf() && self.model.wf()
    }
}

/// The views of a list of entries.
pub open spec fn entries_view(v: Seq<SeqEntry>) -> Seq<SeqEntryView> {
    Seq::new(v.len(), |i: int| v[i]@)
}

/// Where the stream stands after a seek to `target` from `cur`: a seek past
/// the end fails and leaves it where it was.
pub open spec fn seek_or_stay(b: Seq<u8>, cur: int, target: int) -> int {
    if target > b.len() {
        cur
    } else {
        target
    }
}

/// What reading an embedded text of `size` bytes at `c` gives: its
/// translations and where the stream is left. Under eight bytes it is empty;
/// plain text, a text description and a multi-localized text are read after
/// their 8-byte type base, any other type gives an empty text; the stream
/// then moves to the end of the `size` bytes, where that lies within the
/// data.
pub open spec fn embedded_text_read(b: Seq<u8>, c: int, size: u32) -> Result<(Seq<MluItem>, int), ErrorCode> {
    let end = if c + size <= u32::MAX {
        c + size
    } else {
        u32::MAX as int
    };
    if size < 8 {
        Ok((Seq::empty(), seek_or_stay(b, c, end)))
    } else if !fits(b, c, 8) {
        Err(ErrorCode::Read)
    } else {
        let t = be32(b, c);
        let q = c + 8;
        let ps = size - 8;
        let inner = if t == TEXT_SIGNATURE {
            if fits(b, q, ps) {
                Ok((ascii_text_mlu(b.subrange(q, q + ps)), q + ps))
            } else {
                Err(ErrorCode::Read)
            }
        } else if t == DESC_SIGNATURE {
            if !fits(b, q, 4) || !fits(b, q + 4, be32(b, q) as int) {
                Err(ErrorCode::Read)
            } else {
                Ok((ascii_text_mlu(b.subrange(q + 4, q + 4 + be32(b, q))), q + 4 + be32(b, q)))
            }
        } else if t == MLU_TYPE_SIGNATURE {
            match mlu_type_read(b, q, ps) {
                (Ok(v), e) => Ok((v, e)),
                (Err(x), _) => Err(x),
            }
        } else {
            Ok((Seq::empty(), q))
        };
        match inner {
            Err(x) => Err(x),
            Ok((m, pos)) => Ok((m, seek_or_stay(b, pos, end))),
        }
    }
}

/// An optional embedded text: a size of zero means no text.
#[verifier::opaque]
pub open spec fn sized_text_read(b: Seq<u8>, c: int) -> Result<(Seq<MluItem>, int), ErrorCode> {
    if !fits(b, c, 4) {
        Err(ErrorCode::Read)
    } else if be32(b, c) == 0 {
        Ok((Seq::empty(), c + 4))
    } else {
        embedded_text_read(b, c + 4, be32(b, c))
    }
}

/// What reading one entry at `c` gives: the entry and where the stream is
/// left.
#[verifier::opaque]
pub open spec fn entry_read(b: Seq<u8>, c: int) -> Result<(SeqEntryView, int), ErrorCode> {
    if !fits(b, c, 20) {
        Err(ErrorCode::Read)
    } else {
        match sized_text_read(b, c + 20) {
            Err(x) => Err(x),
            Ok((mfg, c1)) => match sized_text_read(b, c1) {
                Err(x) => Err(x),
                Ok((model, c2)) => Ok(
                    (
                        SeqEntryView {
                            device_mfg: be32(b, c),
                            device_model: be32(b, c + 4),
                            attributes: be64(b, c + 8),
                            technology: be32(b, c + 16),
                            manufacturer: mfg,
                            model,
                        },
                        c2,
                    ),
                ),
            },
        }
    }
}

/// What reading `n` entries from `c` on gives.
pub open spec fn entries_read(b: Seq<u8>, c: int, n: nat) -> Result<(Seq<SeqEntryView>, int), ErrorCode>
    decreases n,
{
    if n == 0 {
        Ok((Seq::empty(), c))
    } else {
        match entries_read(b, c, (n - 1) as nat) {
            Err(x) => Err(x),
            Ok((es, c1)) => match entry_read(b, c1) {
                Err(x) => Err(x),
                Ok((e, c2)) => Ok((es.push(e), c2)),
            },
        }
    }
}

/// What reading a profile sequence description payload at `p` gives: the
/// entries, or the error code; more than 256 entries is a range error.
pub open spec fn pseq_read(b: Seq<u8>, p: int) -> Result<Seq<SeqEntryView>, ErrorCode> {
    if !fits(b, p, 4) {
        Err(ErrorCode::Read)
    } else if be32(b, p) > MAX_SEQUENCE {
        Err(ErrorCode::Range)
    } else {
        match entries_read(b, p + 4, be32(b, p) as nat) {
            Err(x) => Err(x),
            Ok((es, _)) => Ok(es),
        }
    }
}

/// Read an embedded text of `size` bytes at `c`.
fn read_embedded_text(data: &[u8], c: usize, size: u32) -> (r: Result<(Mlu, usize), CmsError>)
    requires
        data@.len() <= u32::MAX,
        c <= data@.len(),
    ensures
        match embedded_text_read(data@, c as int, size) {
            Ok((m, q)) => r matches Ok((x, y)) && x.wf() && x@ == m && y == q,
            Err(e) => r matches Err(x) && x.code == e,
        },
        r matches Ok((x, y)) ==> y <= data@.len(),
{
    let len = data.len();
    let end: u64 = if (c as u64) + (size as u64) <= u32::MAX as u64 {
        (c as u64) + (size as u64)
    } else {
        u32::MAX as u64
    };
    if size < 8 {
        let q = if end > len as u64 {
            c
        } else {
            end as usize
        };
        return Ok((Mlu::new(), q));
    }
    if !has_bytes(data, c, 8) {
        return Err(read_error());
    }
    let t = read_be32(data, c);
    let q = c + 8;
    let ps = size - 8;
    let (m, pos) = if t == TEXT_SIGNATURE {
        let m = match read_text_type(data, q, ps) {
            Ok(m) => m,
            Err(e) => {
                return Err(e);
            },
        };
        (m, q + ps as usize)
    } else if t == DESC_SIGNATURE {
        let m = match read_text_description_type(data, q) {
            Ok(m) => m,
            Err(e) => {
                return Err(e);
            },
        };
        let n = read_be32(data, q);
        (m, q + 4 + n as usize)
    } else if t == MLU_TYPE_SIGNATURE {
        let (res, e) = read_mlu_at(data, q, ps);
        match res {
            Ok(m) => (m, e),
            Err(x) => {
                return Err(x);
            },
        }
    } else {
        (Mlu::new(), q)
    };
    let q2 = if end > len as u64 {
        pos
    } else {
        end as usize
    };
    Ok((m, q2))
}

/// Read an optional embedded text with its size before it, at `c`.
fn read_sized_text(data: &[u8], c: usize) -> (r: Result<(Mlu, usize), CmsError>)
    requires
        data@.len() <= u32::MAX,
        c <= data@.len(),
    ensures
        match sized_text_read(data@, c as int) {
            Ok((m, q)) => r matches Ok((x, y)) && x.wf() && x@ == m && y == q,
            Err(e) => r matches Err(x) && x.code == e,
        },
        r matches Ok((x, y)) ==> y <= data@.len(),
{
    reveal(sized_text_read);
    if !has_bytes(data, c, 4) {
        return Err(read_error());
    }
    let size = read_be32(data, c);
    if size == 0 {
        Ok((Mlu::new(), c + 4))
    } else {
        read_embedded_text(data, c + 4, size)
    }
}

/// Read one entry at `c`.
fn read_entry(data: &[u8], c: usize) -> (r: Result<(SeqEntry, usize), CmsError>)
    requires
        data@.len() <= u32::MAX,
        c <= data@.len(),
    ensures
        match entry_read(data@, c as int) {
            Ok((e, q)) => r matches Ok((x, y)) && x.wf() && x@ == e && y == q,
            Err(e) => r matches Err(x) && x.code == e,
        },
        r matches Ok((x, y)) ==> y <= data@.len(),
{
    reveal(entry_read);
    if !has_bytes(data, c, 20) {
        return Err(read_error());
    }
    let device_mfg = read_be32(data, c);
    let device_model = read_be32(data, c + 4);
    let attributes = read_be64(data, c + 8);
    let technology = read_be32(data, c + 16);
    let (manufacturer, c1) = match read_sized_text(data, c + 20) {
        Ok(x) => x,
        Err(e) => {
            return Err(e);
        },
    };
    let (model, c2) = match read_sized_text(data, c1) {
        Ok(x) => x,
        Err(e) => {
            return Err(e);
        },
    };
    Ok((SeqEntry { device_mfg, device_model, attributes, technology, manufacturer, model }, c2))
}

proof fn lemma_entries_err(b: Seq<u8>, c: int, k: nat, m: nat)
    requires
        k <= m,
        entries_read(b, c, k) is Err,
    ensures
        entries_read(b, c, m) == entries_read(b, c, k),
    decreases m,
{
    if m > k {
        lemma_entries_err(b, c, k, (m - 1) as nat);
    }
}

proof fn lemma_entries_step(b: Seq<u8>, c: int, k: nat, es: Seq<SeqEntryView>, q: int)
    requires
        entries_read(b, c, k) == Ok::<(Seq<SeqEntryView>, int), ErrorCode>((es, q)),
    ensures
        entries_read(b, c, k + 1) == match entry_read(b, q) {
            Err(e) => Err(e),
            Ok((x, r)) => Ok::<(Seq<SeqEntryView>, int), ErrorCode>((es.push(x), r)),
        },
{
}

/// Read a profile sequence description payload at `start`.
pub fn read_profile_sequence_desc_type(data: &[u8], start: usize) -> (r: Result<Vec<SeqEntry>, CmsError>)
    requires
        data@.len() <= u32::MAX,
    ensures
        match pseq_read(data@, start as int) {
            Ok(es) => r matches Ok(v) && entries_view(v@) == es && (forall|i: int|
                0 <= i < v@.len() ==> #[trigger] v@[i].wf()),
            Err(e) => r matches Err(x) && x.code == e,
        },
{
    if !has_bytes(data, start, 4) {
        return Err(read_error());
    }
    let count = read_be32(data, start);
    if count > MAX_SEQUENCE {
        return Err(err(ErrorCode::Range, "Profile sequence too long"));
    }
    let ghost b = data@;
    let mut v: Vec<SeqEntry> = Vec::new();
    let mut pos = start + 4;
    let mut k: u32 = 0;
    assert(entries_view(v@) =~= Seq::<SeqEntryView>::empty());
    while k < count
        invariant
            k <= count,
            b == data@,
            data@.len() <= u32::MAX,
            fits(b, start as int, 4),
            be32(b, start as int) == count,
            count <= MAX_SEQUENCE,
            pos <= data@.len(),
            entries_read(b, start + 4, k as nat) == Ok::<(Seq<SeqEntryView>, int), ErrorCode>(
                (entries_view(v@), pos as int),
            ),
            forall|i: int| 0 <= i < v@.len() ==> #[trigger] v@[i].wf(),
        decreases count - k,
    {
        proof {
            lemma_entries_step(b, start + 4, k as nat, entries_view(v@), pos as int);
        }
        match read_entry(data, pos) {
            Err(e) => {
                proof {
                    assert(entry_read(b, pos as int) is Err);
                    lemma_entries_err(b, start + 4, (k + 1) as nat, count as nat);
                }
                return Err(e);
            },
            Ok((x, q)) => {
                let ghost old_v = v@;
                v.push(x);
                pos = q;
                k = k + 1;
                assert(entries_view(v@) =~= entries_view(old_v).push(v@[v@.len() - 1]@));
            },
        }
    }
    Ok(v)
}

/// An entry as written: maker and model signatures, attributes, technology,
/// then each description as a size and a multi-localized text with its type
/// header.
pub open spec fn entry_bytes(e: SeqEntryView) -> Seq<u8> {
    bytes32(e.device_mfg) + bytes32(e.device_model) + bytes64(e.attributes) + bytes32(e.technology)
        + bytes32(embedded_mlu_bytes(e.manufacturer).len() as u32) + embedded_mlu_bytes(e.manufacturer)
        + bytes32(embedded_mlu_bytes(e.model).len() as u32) + embedded_mlu_bytes(e.model)
}

/// The first `n` entries as written.
pub open spec fn entries_bytes(es: Seq<SeqEntryView>, n: int) -> Seq<u8>
    decreases n,
{
    if n <= 0 {
        Seq::empty()
    } else {
        entries_bytes(es, n - 1) + entry_bytes(es[n - 1])
    }
}

/// A profile sequence description payload as written: the count, then the
/// entries.
pub open spec fn pseq_bytes(es: Seq<SeqEntryView>) -> Seq<u8> {
    bytes32(es.len() as u32) + entries_bytes(es, es.len() as int)
}

/// Each description's size fits its 32-bit field.
pub open spec fn entry_fits(e: SeqEntryView) -> bool {
    embedded_mlu_bytes(e.manufacturer).len() <= u32::MAX && embedded_mlu_bytes(e.model).len() <= u32::MAX
}

/// Entries that can be written: each is well formed and each description's
/// size fits its field, and their count fits its own.
pub open spec fn entries_writable(v: Seq<SeqEntry>) -> bool {
    &&& v.len() <= u32::MAX
    &&& forall|i: int| 0 <= i < v.len() ==> #[trigger] v[i].wf() && entry_fits(v[i]@)
}

/// Append a description: its size, then the text with its type header.
fn push_sized_mlu(out: &mut Vec<u8>, m: &Mlu)
    requires
        m.wf(),
        embedded_mlu_bytes(m@).len() <= u32::MAX,
    ensures
        final(out)@ == old(out)@ + bytes32(embedded_mlu_bytes(m@).len() as u32) + embedded_mlu_bytes(m@),
{
    let mut tmp: Vec<u8> = Vec::new();
    push_be32(&mut tmp, MLU_TYPE_SIGNATURE);
    push_be32(&mut tmp, 0);
    write_mlu_type(&mut tmp, m);
    assert(tmp@ =~= embedded_mlu_bytes(m@));
    push_be32(out, tmp.len() as u32);
    let ghost mid = out@;
    out.append(&mut tmp);
    assert(final(out)@ =~= mid + embedded_mlu_bytes(m@));
}

/// Append one entry.
fn push_entry(out: &mut Vec<u8>, e: &SeqEntry)
    requires
        e.wf(),
        entry_fits(e@),
    ensures
        final(out)@ == old(out)@ + entry_bytes(e@),
{
    push_be32(out, e.device_mfg);
    push_be32(out, e.device_model);
    push_be64(out, e.attributes);
    push_be32(out, e.technology);
    push_sized_mlu(out, &e.manufacturer);
    push_sized_mlu(out, &e.model);
    assert(final(out)@ =~= old(out)@ + entry_bytes(e@));
}

/// Append a profile sequence description payload for `seq` to `out`.
#[verifier::spinoff_prover]
#[verifier::rlimit(40)]
pub fn write_profile_sequence_desc_type(out: &mut Vec<u8>, seq: &[SeqEntry])
    requires
        entries_writable(seq@),
    ensures
        final(out)@ == old(out)@ + pseq_bytes(entries_view(seq@)),
{
    let ghost es = entries_view(seq@);
    push_be32(out, seq.len() as u32);
    let ghost head = out@;
    let mut i: usize = 0;
    assert(head + entries_bytes(es, 0) =~= head);
    while i < seq.len()
        invariant
            i <= seq@.len(),
            es == entries_view(seq@),
            head == old(out)@ + bytes32(seq@.len() as u32),
            entries_writable(seq@),
            out@ == head + entries_bytes(es, i as int),
        decreases seq@.len() - i,
    {
        let e = &seq[i];
        assert(seq@[i as int].wf() && entry_fits(seq@[i as int]@));
        push_entry(out, e);
        assert(es[i as int] == e@);
        i = i + 1;
        assert(out@ =~= head + entries_bytes(es, i as int));
    }
    assert(final(out)@ =~= old(out)@ + pseq_bytes(es));
}

/// Both descriptions of an entry read back as written: no two translations
/// share both codes, and every code reads as UTF-8 text.
pub open spec fn entry_round_trips(e: SeqEntryView) -> bool {
    &&& entry_fits(e)
    &&& distinct_codes(e.manufacturer)
    &&& readable_codes(e.manufacturer)
    &&& distinct_codes(e.model)
    &&& readable_codes(e.model)
}

proof fn lemma_sized_back(m: Seq<MluItem>, b: Seq<u8>, c: int)
    requires
        b.len() <= u32::MAX,
        embedded_mlu_bytes(m).len() <= u32::MAX,
        distinct_codes(m),
        readable_codes(m),
        holds_bytes(b, c, bytes32(embedded_mlu_bytes(m).len() as u32) + embedded_mlu_bytes(m)),
    ensures
        sized_text_read(b, c) == Ok::<(Seq<MluItem>, int), ErrorCode>((m, c + 4 + embedded_mlu_bytes(m).len())),
{
    reveal(sized_text_read);
    let e = embedded_mlu_bytes(m);
    let n = e.len() as u32;
    lemma_holds_split(b, c, bytes32(n), e);
    lemma_be32_held(b, c, n);
    let head = bytes32(MLU_TYPE_SIGNATURE) + bytes32(0);
    assert(e == head + mlu_type_bytes(m));
    lemma_holds_split(b, c + 4, head, mlu_type_bytes(m));
    lemma_holds_split(b, c + 4, bytes32(MLU_TYPE_SIGNATURE), bytes32(0));
    lemma_be32_held(b, c + 4, MLU_TYPE_SIGNATURE);
    law_mlu_type_round_trip(m, b, c + 12);
    assert(n > 0);
    assert(fits(b, c + 4, 8));
}

#[verifier::spinoff_prover]
proof fn lemma_entry_back(e: SeqEntryView, b: Seq<u8>, c: int)
    requires
        b.len() <= u32::MAX,
        entry_round_trips(e),
        holds_bytes(b, c, entry_bytes(e)),
    ensures
        entry_read(b, c) == Ok::<(SeqEntryView, int), ErrorCode>((e, c + entry_bytes(e).len())),
{
    reveal(entry_read);
    let m1 = embedded_mlu_bytes(e.manufacturer);
    let m2 = embedded_mlu_bytes(e.model);
    let s1 = bytes32(m1.len() as u32) + m1;
    let s2 = bytes32(m2.len() as u32) + m2;
    let fixed = bytes32(e.device_mfg) + bytes32(e.device_model) + bytes64(e.attributes) + bytes32(e.technology);
    assert(entry_bytes(e) =~= fixed + s1 + s2);
    lemma_holds_split(b, c, fixed + s1, s2);
    lemma_holds_split(b, c, fixed, s1);
    lemma_holds_split(b, c, bytes32(e.device_mfg) + bytes32(e.device_model) + bytes64(e.attributes), bytes32(e.technology));
    lemma_holds_split(b, c, bytes32(e.device_mfg) + bytes32(e.device_model), bytes64(e.attributes));
    lemma_holds_split(b, c, bytes32(e.device_mfg), bytes32(e.device_model));
    lemma_be32_held(b, c, e.device_mfg);
    lemma_be32_held(b, c + 4, e.device_model);
    lemma_be64_held(b, c + 8, e.attributes);
    lemma_be32_held(b, c + 16, e.technology);
    assert(fixed.len() == 20);
    lemma_sized_back(e.manufacturer, b, c + 20);
    lemma_sized_back(e.model, b, c + 20 + s1.len());
    assert(fits(b, c, 20));
}

proof fn lemma_entries_back(es: Seq<SeqEntryView>, b: Seq<u8>, o: int, k: int)
    requires
        0 <= k <= es.len(),
        b.len() <= u32::MAX,
        forall|i: int| 0 <= i < es.len() ==> #[trigger] entry_round_trips(es[i]),
        holds_bytes(b, o, entries_bytes(es, k)),
    ensures
        entries_read(b, o, k as nat) == Ok::<(Seq<SeqEntryView>, int), ErrorCode>(
            (es.take(k), o + entries_bytes(es, k).len()),
        ),
    decreases k,
{
    if k == 0 {
        assert(es.take(0) =~= Seq::<SeqEntryView>::empty());
    } else {
        let front = entries_bytes(es, k - 1);
        lemma_holds_split(b, o, front, entry_bytes(es[k - 1]));
        lemma_entries_back(es, b, o, k - 1);
        assert(entry_round_trips(es[k - 1]));
        lemma_entry_back(es[k - 1], b, o + front.len());
        assert(es.take(k - 1).push(es[k - 1]) =~= es.take(k));
    }
}

/// A profile sequence description read back from where it was written gives
/// the same entries, when it holds at most 256 of them and each
/// description's translations read back.
pub proof fn law_pseq_round_trip(es: Seq<SeqEntryView>, b: Seq<u8>, p: int)
    requires
        es.len() <= MAX_SEQUENCE,
        b.len() <= u32::MAX,
        forall|i: int| 0 <= i < es.len() ==> #[trigger] entry_round_trips(es[i]),
        holds_bytes(b, p, pseq_bytes(es)),
    ensures
        pseq_read(b, p) == Ok::<Seq<SeqEntryView>, ErrorCode>(es),
{
    let n = es.len() as u32;
    lemma_holds_split(b, p, bytes32(n), entries_bytes(es, es.len() as int));
    lemma_be32_held(b, p, n);
    lemma_entries_back(es, b, p + 4, es.len() as int);
    assert(es.take(es.len() as int) =~= es);
}

/// Where a profile sequence description keeps its parts: the entry count
/// first; in each entry the device maker at bytes 0 to 4, the model at 4 to
/// 8, the attributes at 8 to 16, the technology at 16 to 20, then the
/// maker's description with its size before it. Reading takes each from
/// there and writing puts each there.
pub proof fn law_pseq_entry_layout(b: Seq<u8>, p: int, c: int, e: SeqEntryView)
    ensures
        pseq_read(b, p) matches Ok(es) ==> es.len() == be32(b, p),
        entry_read(b, c) matches Ok((x, _)) ==> {
            &&& x.device_mfg == be32(b, c)
            &&& x.device_model == be32(b, c + 4)
            &&& x.attributes == be64(b, c + 8)
            &&& x.technology == be32(b, c + 16)
        },
        entry_bytes(e).subrange(0, 4) == bytes32(e.device_mfg),
        entry_bytes(e).subrange(4, 8) == bytes32(e.device_model),
        entry_bytes(e).subrange(8, 16) == bytes64(e.attributes),
        entry_bytes(e).subrange(16, 20) == bytes32(e.technology),
        entry_bytes(e).subrange(20, 24) == bytes32(embedded_mlu_bytes(e.manufacturer).len() as u32),
        pseq_bytes(Seq::empty().push(e)).subrange(0, 4) == bytes32(1),
{
    reveal(entry_read);
    if pseq_read(b, p) is Ok {
        lemma_entries_count(b, p + 4, be32(b, p) as nat);
    }
    let x = entry_bytes(e);
    let m1 = embedded_mlu_bytes(e.manufacturer);
    let m2 = embedded_mlu_bytes(e.model);
    assert(x == bytes32(e.device_mfg) + bytes32(e.device_model) + bytes64(e.attributes) + bytes32(
        e.technology,
    ) + bytes32(m1.len() as u32) + (m1 + bytes32(m2.len() as u32) + m2));
    assert(x.subrange(0, 4) =~= bytes32(e.device_mfg));
    assert(x.subrange(4, 8) =~= bytes32(e.device_model));
    assert(x.subrange(8, 16) =~= bytes64(e.attributes));
    assert(x.subrange(16, 20) =~= bytes32(e.technology));
    assert(x.subrange(20, 24) =~= bytes32(m1.len() as u32));
    let one = Seq::<SeqEntryView>::empty().push(e);
    assert(pseq_bytes(one).subrange(0, 4) =~= bytes32(1));
}

/// Reading `n` entries gives `n` of them.
proof fn lemma_entries_count(b: Seq<u8>, c: int, n: nat)
    ensures
        entries_read(b, c, n) matches Ok((es, _)) ==> es.len() == n,
    decreases n,
{
    if n > 0 {
        lemma_entries_count(b, c, (n - 1) as nat);
    }
}

} // verus!
