//! The named colour payload: a prefix and a suffix, then for each colour a
//! name of at most 32 bytes, its three PCS values and its device values.
use vstd::prelude::*;
use vstd::utf8::{decode_utf8, encode_utf8, is_ascii_chars, valid_utf8};
use crate::error::{CmsError, ErrorCode};
use crate::lut::read_u16s;
use crate::profile::{be16, be32, bytes16, bytes32, err, push_be16, push_be32, read_be16, read_be32, zeros};
use crate::tag_arrays::{MAX_CHANNELS, be16_seq, bytes16_all, has_bytes, write_uint16_type};
use crate::tag_types::{fits, read_error};
use crate::tag_laws::{holds_bytes, law_uint16_type_round_trip, lemma_be32_held, lemma_holds_split};

verus! {

/// The text that `String::from_utf8_lossy` makes of bytes: their decoding,
/// with each invalid sequence replaced.
pub uninterp spec fn utf8_lossy(b: Seq<u8>) -> Seq<char>;

/// Wraps `String::from_utf8_lossy`, whose documentation says that valid
/// UTF-8 decodes as itself and that invalid sequences become U+FFFD; the
/// result for invalid input is left to the name.
#[verifier::external_body]
pub(crate) fn string_from_utf8_lossy(b: &[u8]) -> (r: String)
    ensures
        r@ == utf8_lossy(b@),
        valid_utf8(b@) ==> r@ == decode_utf8(b@),
{
    String::from_utf8_lossy(b).into_owned()
}

/// A named colour as seen from outside.
pub struct NamedColorView {
    pub name: Seq<char>,
    pub pcs: Seq<u16>,
    pub colorant: Seq<u16>,
}

/// A named colour: its name, its PCS values and its device values.
pub struct NamedColor {
    pub name: String,
    pub pcs: [u16; 3],
    pub colorant: Vec<u16>,
}

impl View for NamedColor {
    type V = NamedColorView;

    open spec fn view(&self) -> NamedColorView {
        NamedColorView { name: self.name@, pcs: self.pcs@, colorant: self.colorant@ }
    }
}

/// A named colour list as seen from outside.
pub struct NamedColorListView {
    pub colorant_count: u32,
    pub prefix: Seq<char>,
    pub suffix: Seq<char>,
    pub colors: Seq<NamedColorView>,
}

/// A list of named colours with the number of device values of each, and
/// the prefix and suffix of their names.
pub struct NamedColorList {
    pub colorant_count: u32,
    pub prefix: String,
    pub suffix: String,
    pub colors: Vec<NamedColor>,
}

impl View for NamedColorList {
    type V = NamedColorListView;

    open spec fn view(&self) -> NamedColorListView {
        NamedColorListView {
            colorant_count: self.colorant_count,
            prefix: self.prefix@,
            suffix: self.suffix@,
            colors: Seq::new(self.colors@.len(), |i: int| self.colors@[i]@),
        }
    }
}

/// The bytes of `s` before its first zero byte.
pub open spec fn upto_nul(s: Seq<u8>) -> Seq<u8>
    decreases s.len(),
{
    if s.len() == 0 {
        s
    } else if s[0] == 0 {
        Seq::empty()
    } else {
        seq![s[0]] + upto_nul(s.drop_first())
    }
}

/// The text of bytes: their UTF-8 decoding when they are valid UTF-8, else
/// what `String::from_utf8_lossy` makes of them.
pub open spec fn lossy_text(u: Seq<u8>) -> Seq<char> {
    if valid_utf8(u) {
        decode_utf8(u)
    } else {
        utf8_lossy(u)
    }
}

/// The text of a 32-byte name field at `p`: its bytes before the first zero
/// byte, decoded.
pub open spec fn name_at(b: Seq<u8>, p: int) -> Seq<char> {
    lossy_text(upto_nul(b.subrange(p, p + 32)))
}

/// The bytes of one colour record.
pub open spec fn color_size(n: int) -> int {
    38 + 2 * n
}

/// Colour `k` of the records from `q` on, each with `n` device values.
pub open spec fn color_at(b: Seq<u8>, q: int, n: int, k: int) -> NamedColorView {
    let r = q + k * color_size(n);
    NamedColorView {
        name: name_at(b, r),
        pcs: be16_seq(b, r + 32, 3),
        colorant: be16_seq(b, r + 38, n),
    }
}

/// What reading a named colour payload at `p` gives: the list, or the error
/// code.
pub open spec fn ncl2_read(b: Seq<u8>, p: int) -> Result<NamedColorListView, ErrorCode> {
    if !fits(b, p, 12) {
        Err(ErrorCode::Read)
    } else {
        let count = be32(b, p + 4) as int;
        let n = be32(b, p + 8);
        if n > MAX_CHANNELS {
            Err(ErrorCode::Range)
        } else if !fits(b, p + 12, 64) {
            Err(ErrorCode::Read)
        } else if !fits(b, p + 76, count * color_size(n as int)) {
            Err(ErrorCode::Read)
        } else {
            Ok(
                NamedColorListView {
                    colorant_count: n,
                    prefix: name_at(b, p + 12),
                    suffix: name_at(b, p + 44),
                    colors: Seq::new(count as nat, |k: int| color_at(b, p + 76, n as int, k)),
                },
            )
        }
    }
}

/// The bytes of the name field of length 32 from `p` on that stop at the
/// first zero byte.
fn nul_end(data: &[u8], p: usize) -> (r: usize)
    requires
        p + 32 <= data.len(),
    ensures
        r <= 32,
        data@.subrange(p as int, p + r) == upto_nul(data@.subrange(p as int, p + 32)),
{
    let ghost s = data@.subrange(p as int, p + 32);
    let mut i: usize = 0;
    while i < 32 && data[p + i] != 0
        invariant
            i <= 32,
            p + 32 <= data.len(),
            s == data@.subrange(p as int, p + 32),
            forall|j: int| 0 <= j < i ==> #[trigger] s[j] != 0,
        decreases 32 - i,
    {
        assert(s[i as int] == data@[p + i]);
        i = i + 1;
    }
    assert(i < 32 ==> s[i as int] == 0);
    proof {
        lemma_upto_nul(data@.subrange(p as int, p + 32), i as int);
        assert(data@.subrange(p as int, p + 32).take(i as int) =~= data@.subrange(p as int, p + i));
    }
    i
}

proof fn lemma_upto_nul(s: Seq<u8>, i: int)
    requires
        0 <= i <= s.len(),
        forall|j: int| 0 <= j < i ==> s[j] != 0,
        i < s.len() ==> s[i] == 0,
    ensures
        upto_nul(s) == s.take(i),
    decreases s.len(),
{
    if s.len() > 0 {
        if i > 0 {
            lemma_upto_nul(s.drop_first(), i - 1);
            assert(seq![s[0]] + s.drop_first().take(i - 1) =~= s.take(i));
        } else {
            assert(s.take(0) =~= Seq::<u8>::empty());
        }
    } else {
        assert(s.take(i) =~= s);
    }
}

/// The text of the 32-byte name field at `p`.
fn read_name(data: &[u8], p: usize) -> (r: String)
    requires
        p + 32 <= data.len(),
    ensures
        r@ == name_at(data@, p as int),
{
    let e = nul_end(data, p);
    let mut v: Vec<u8> = Vec::new();
    let mut i: usize = 0;
    while i < e
        invariant
            i <= e <= 32,
            p + 32 <= data.len(),
            v@ == data@.subrange(p as int, p + i),
        decreases e - i,
    {
        v.push(data[p + i]);
        i = i + 1;
        assert(v@ =~= data@.subrange(p as int, p + i));
    }
    string_from_utf8_lossy(v.as_slice())
}

/// Read a named colour payload at `start`: a vendor flag, the count of
/// colours, the count of device values, the prefix and suffix, then the
/// colours.
pub fn read_named_color_type(data: &[u8], start: usize) -> (r: Result<NamedColorList, CmsError>)
    ensures
        match ncl2_read(data@, start as int) {
            Ok(l) => r matches Ok(x) && x@ == l,
            Err(e) => r matches Err(x) && x.code == e,
        },
{
    let len = data.len();
    if !has_bytes(data, start, 12) {
        return Err(read_error());
    }
    let count = read_be32(data, start + 4);
    let n = read_be32(data, start + 8);
    if n > 16 {
        return Err(err(ErrorCode::Range, "Too many device coordinates"));
    }
    if !has_bytes(data, start + 12, 64) {
        return Err(read_error());
    }
    let size: u64 = 38 + 2 * (n as u64);
    assert(count * size <= 0xffff_ffff * 70) by (nonlinear_arith)
        requires
            count <= 0xffff_ffff,
            size <= 70,
    ;
    if !has_bytes(data, start + 76, (count as u64) * size) {
        return Err(read_error());
    }
    let prefix = read_name(data, start + 12);
    let suffix = read_name(data, start + 44);
    let q = start + 76;
    let ghost b = data@;
    let mut colors: Vec<NamedColor> = Vec::new();
    let mut k: u32 = 0;
    while k < count
        invariant
            k <= count,
            len == data@.len(),
            b == data@,
            n <= 16,
            size == color_size(n as int),
            q + count * size <= len,
            colors@.len() == k,
            forall|i: int| 0 <= i < k ==> #[trigger] colors@[i]@ == color_at(b, q as int, n as int, i),
        decreases count - k,
    {
        assert((k + 1) * size <= count * size) by (nonlinear_arith)
            requires
                k + 1 <= count,
                size >= 0,
        ;
        assert(k * size + size == (k + 1) * size) by (nonlinear_arith);
        assert(0 <= k * size) by (nonlinear_arith)
            requires
                size >= 0,
        ;
        let r = q + (k as usize) * (size as usize);
        let name = read_name(data, r);
        let pcs = [read_be16(data, r + 32), read_be16(data, r + 34), read_be16(data, r + 36)];
        let colorant = read_u16s(data, r + 38, n as usize);
        let c = NamedColor { name, pcs, colorant };
        assert(c@.pcs =~= be16_seq(b, r + 32, 3));
        assert(c@ == color_at(b, q as int, n as int, k as int));
        colors.push(c);
        k = k + 1;
    }
    let l = NamedColorList { colorant_count: n, prefix, suffix, colors };
    assert(l@.colors =~= Seq::new(count as nat, |i: int| color_at(b, q as int, n as int, i)));
    Ok(l)
}

/// The 32-byte field of a name: its UTF-8 bytes, at most 31 of them, then
/// zeros.
pub open spec fn name_field(s: Seq<char>) -> Seq<u8> {
    let e = encode_utf8(s);
    let k = if e.len() < 31 {
        e.len() as int
    } else {
        31
    };
    e.take(k) + zeros(32 - k)
}

/// The bytes of one colour: the name field, the PCS values and the first
/// `n` device values.
pub open spec fn color_bytes(c: NamedColorView, n: int) -> Seq<u8> {
    name_field(c.name) + bytes16_all(c.pcs) + bytes16_all(c.colorant.take(n))
}

/// The bytes of the colours, one after the other.
pub open spec fn colors_bytes(cs: Seq<NamedColorView>, n: int) -> Seq<u8>
    decreases cs.len(),
{
    if cs.len() == 0 {
        Seq::empty()
    } else {
        colors_bytes(cs.drop_last(), n) + color_bytes(cs.last(), n)
    }
}

/// The bytes of a named colour payload.
pub open spec fn ncl2_bytes(l: NamedColorListView) -> Seq<u8> {
    bytes32(0) + bytes32(l.colors.len() as u32) + bytes32(l.colorant_count) + name_field(l.prefix)
        + name_field(l.suffix) + colors_bytes(l.colors, l.colorant_count as int)
}

/// Append the 32-byte field of a name.
fn push_name_field(out: &mut Vec<u8>, s: &String)
    ensures
        final(out)@ == old(out)@ + name_field(s@),
{
    let b = s.as_str().as_bytes();
    let k = if b.len() < 31 {
        b.len()
    } else {
        31
    };
    let mut i: usize = 0;
    while i < k
        invariant
            i <= k <= b@.len(),
            k <= 31,
            out@ == old(out)@ + b@.take(i as int),
        decreases k - i,
    {
        out.push(b[i]);
        i = i + 1;
        assert(out@ =~= old(out)@ + b@.take(i as int));
    }
    let mut j: usize = k;
    while j < 32
        invariant
            k <= j <= 32,
            out@ == old(out)@ + b@.take(k as int) + zeros(j - k),
        decreases 32 - j,
    {
        out.push(0);
        j = j + 1;
        assert(out@ =~= old(out)@ + b@.take(k as int) + zeros(j - k));
    }
    assert(out@ =~= old(out)@ + name_field(s@));
}

/// Append a named colour payload: a zero vendor flag, the counts, the
/// prefix and suffix fields, then each colour with its first
/// `colorant_count` device values.
pub fn write_named_color_type(out: &mut Vec<u8>, l: &NamedColorList)
    requires
        l.colors@.len() <= u32::MAX,
        forall|i: int| 0 <= i < l.colors@.len() ==> #[trigger] l.colors@[i].colorant@.len()
            >= l.colorant_count,
    ensures
        final(out)@ == old(out)@ + ncl2_bytes(l@),
{
    let ghost v = l@;
    push_be32(out, 0);
    push_be32(out, l.colors.len() as u32);
    push_be32(out, l.colorant_count);
    push_name_field(out, &l.prefix);
    push_name_field(out, &l.suffix);
    let ghost head = out@;
    let n = l.colorant_count as usize;
    let mut k: usize = 0;
    assert(v.colors.take(0) =~= Seq::<NamedColorView>::empty());
    while k < l.colors.len()
        invariant
            k <= l.colors@.len(),
            v == l@,
            n == l.colorant_count,
            forall|i: int| 0 <= i < l.colors@.len() ==> #[trigger] l.colors@[i].colorant@.len() >= n,
            out@ == head + colors_bytes(v.colors.take(k as int), n as int),
        decreases l.colors@.len() - k,
    {
        let c = &l.colors[k];
        push_name_field(out, &c.name);
        push_be16(out, c.pcs[0]);
        push_be16(out, c.pcs[1]);
        push_be16(out, c.pcs[2]);
        let ghost before = out@;
        let mut j: usize = 0;
        while j < n
            invariant
                j <= n <= c.colorant@.len(),
                out@ == before + bytes16_all(c.colorant@.take(j as int)),
            decreases n - j,
        {
            push_be16(out, c.colorant[j]);
            assert(c.colorant@.take(j + 1).drop_last() =~= c.colorant@.take(j as int));
            j = j + 1;
            assert(out@ =~= before + bytes16_all(c.colorant@.take(j as int)));
        }
        proof {
            lemma_bytes16_three(c.pcs@);
            assert(v.colors.take(k + 1).drop_last() =~= v.colors.take(k as int));
            assert(v.colors.take(k + 1).last() == c@);
        }
        k = k + 1;
        assert(out@ =~= head + colors_bytes(v.colors.take(k as int), n as int));
    }
    assert(v.colors.take(v.colors.len() as int) =~= v.colors);
    assert(out@ =~= old(out)@ + ncl2_bytes(v));
}

proof fn lemma_bytes16_three(p: Seq<u16>)
    requires
        p.len() == 3,
    ensures
        bytes16_all(p) == bytes16(p[0]) + bytes16(p[1]) + bytes16(p[2]),
{
    reveal_with_fuel(bytes16_all, 4);
    assert(p.drop_last().drop_last().drop_last() =~= Seq::<u16>::empty());
    assert(bytes16_all(p.drop_last().drop_last()) =~= bytes16(p[0]));
    assert(bytes16_all(p.drop_last()) =~= bytes16(p[0]) + bytes16(p[1]));
}

/// A name that reads back as itself: ASCII, without a zero character, at
/// most 31 characters.
pub open spec fn short_ascii_name(s: Seq<char>) -> bool {
    &&& s.len() <= 31
    &&& is_ascii_chars(s)
    &&& forall|i: int| 0 <= i < s.len() ==> #[trigger] s[i] != '\0'
}

/// A named colour list that reads back as itself: at most 16 device values
/// per colour, each colour with exactly that many, three PCS values, and
/// names that read back.
pub open spec fn ncl2_wf(l: NamedColorListView) -> bool {
    &&& l.colorant_count <= MAX_CHANNELS
    &&& l.colors.len() <= u32::MAX
    &&& short_ascii_name(l.prefix)
    &&& short_ascii_name(l.suffix)
    &&& forall|i: int|
        0 <= i < l.colors.len() ==> {
            &&& short_ascii_name(#[trigger] l.colors[i].name)
            &&& l.colors[i].pcs.len() == 3
            &&& l.colors[i].colorant.len() == l.colorant_count
        }
}

proof fn lemma_name_back(s: Seq<char>, b: Seq<u8>, o: int)
    requires
        short_ascii_name(s),
        holds_bytes(b, o, name_field(s)),
    ensures
        name_field(s).len() == 32,
        name_at(b, o) == s,
{
    let e = encode_utf8(s);
    vstd::utf8::is_ascii_chars_encode_utf8(s);
    vstd::utf8::encode_utf8_valid_utf8(s);
    vstd::utf8::encode_utf8_decode_utf8(s);
    let k = s.len() as int;
    let f = name_field(s);
    assert(e.take(k) =~= e);
    assert(f.len() == 32);
    assert(b.subrange(o, o + 32) == f);
    assert forall|j: int| 0 <= j < k implies f[j] != 0 by {
        assert(f[j] == e[j]);
        assert(s[j] as u8 == e[j]);
        assert(s[j] != '\0');
        assert('\0' <= s[j] <= '\u{7f}');
        assert(s[j] as u32 != 0);
    }
    assert(f[k] == 0);
    lemma_upto_nul(f, k);
    assert(f.take(k) =~= e);
}

proof fn lemma_colors_held(cs: Seq<NamedColorView>, n: int, b: Seq<u8>, q: int)
    requires
        0 <= n,
        0 <= q,
        forall|i: int| 0 <= i < cs.len() ==> (#[trigger] cs[i]).colorant.len() >= n && cs[i].pcs.len() == 3,
        holds_bytes(b, q, colors_bytes(cs, n)),
    ensures
        colors_bytes(cs, n).len() == cs.len() * color_size(n),
        forall|k: int| 0 <= k < cs.len() ==> holds_bytes(b, q + k * color_size(n), #[trigger] color_bytes(cs[k], n)),
    decreases cs.len(),
{
    if cs.len() > 0 {
        let pre = cs.drop_last();
        let last = cs.last();
        lemma_holds_split(b, q, colors_bytes(pre, n), color_bytes(last, n));
        lemma_colors_held(pre, n, b, q);
        crate::tag_laws::lemma_bytes16_all_len(last.pcs);
        crate::tag_laws::lemma_bytes16_all_len(last.colorant.take(n));
        assert(name_field(last.name).len() == 32);
        assert(color_bytes(last, n).len() == color_size(n));
        assert(pre.len() * color_size(n) + color_size(n) == cs.len() * color_size(n)) by (nonlinear_arith)
            requires
                pre.len() + 1 == cs.len(),
        ;
        assert forall|k: int| 0 <= k < cs.len() implies holds_bytes(b, q + k * color_size(n), #[trigger] color_bytes(cs[k], n)) by {
            if k < cs.len() - 1 {
                assert(cs[k] == pre[k]);
            }
        }
    }
}

proof fn lemma_color_back(c: NamedColorView, n: int, b: Seq<u8>, r: int)
    requires
        0 <= n,
        short_ascii_name(c.name),
        c.pcs.len() == 3,
        c.colorant.len() == n,
        holds_bytes(b, r, color_bytes(c, n)),
    ensures
        name_at(b, r) == c.name,
        be16_seq(b, r + 32, 3) == c.pcs,
        be16_seq(b, r + 38, n) == c.colorant,
{
    let f = name_field(c.name);
    assert(c.colorant.take(n) =~= c.colorant);
    lemma_holds_split(b, r, f + bytes16_all(c.pcs), bytes16_all(c.colorant));
    lemma_holds_split(b, r, f, bytes16_all(c.pcs));
    lemma_name_back(c.name, b, r);
    law_uint16_type_round_trip(c.pcs, b, r + 32);
    law_uint16_type_round_trip(c.colorant, b, r + 38);
}

/// A named colour payload reads back as the list it was written from, for
/// every list whose names read back.
pub proof fn law_named_color_round_trip(l: NamedColorListView, b: Seq<u8>, p: int)
    requires
        ncl2_wf(l),
        holds_bytes(b, p, ncl2_bytes(l)),
    ensures
        ncl2_read(b, p) == Ok::<NamedColorListView, ErrorCode>(l),
{
    let n = l.colorant_count as int;
    let h = bytes32(0) + bytes32(l.colors.len() as u32) + bytes32(l.colorant_count);
    let pf = name_field(l.prefix);
    let sf = name_field(l.suffix);
    let cb = colors_bytes(l.colors, n);
    lemma_holds_split(b, p, h + pf + sf, cb);
    lemma_holds_split(b, p, h + pf, sf);
    lemma_holds_split(b, p, h, pf);
    lemma_holds_split(b, p, bytes32(0) + bytes32(l.colors.len() as u32), bytes32(l.colorant_count));
    lemma_holds_split(b, p, bytes32(0), bytes32(l.colors.len() as u32));
    lemma_be32_held(b, p + 4, l.colors.len() as u32);
    lemma_be32_held(b, p + 8, l.colorant_count);
    lemma_name_back(l.prefix, b, p + 12);
    lemma_name_back(l.suffix, b, p + 44);
    assert forall|i: int| 0 <= i < l.colors.len() implies (#[trigger] l.colors[i]).colorant.len() >= n
        && l.colors[i].pcs.len() == 3 by {
        assert(short_ascii_name(l.colors[i].name));
    }
    lemma_colors_held(l.colors, n, b, p + 76);
    let got = Seq::new(l.colors.len(), |k: int| color_at(b, p + 76, n, k));
    assert forall|k: int| 0 <= k < l.colors.len() implies #[trigger] got[k] == l.colors[k] by {
        assert(short_ascii_name(l.colors[k].name));
        lemma_color_back(l.colors[k], n, b, p + 76 + k * color_size(n));
        assert(got[k] == color_at(b, p + 76, n, k));
    }
    assert(got =~= l.colors);
}

/// Where a named colour payload keeps its parts: the colour count at bytes
/// 4 to 8, the device value count `n` at 8 to 12, the prefix in the name
/// field at 12 to 44, the suffix in the one at 44 to 76, and from 76 on one
/// record of 38 + 2n bytes per colour: its name field, three 16-bit PCS
/// values, then the `n` device values. Reading takes each from there;
/// writing puts the header parts there, a short ASCII prefix or suffix as
/// its characters' codes followed by zero bytes.
pub proof fn law_ncl2_header_layout(b: Seq<u8>, p: int, l: NamedColorListView)
    ensures
        ncl2_read(b, p) matches Ok(x) ==> {
            &&& x.colors.len() == be32(b, p + 4)
            &&& x.colorant_count == be32(b, p + 8)
            &&& x.prefix == lossy_text(upto_nul(b.subrange(p + 12, p + 44)))
            &&& x.suffix == lossy_text(upto_nul(b.subrange(p + 44, p + 76)))
            &&& forall|k: int| 0 <= k < x.colors.len() ==> {
                let r = p + 76 + k * (38 + 2 * x.colorant_count);
                &&& #[trigger] x.colors[k].name == lossy_text(upto_nul(b.subrange(r, r + 32)))
                &&& x.colors[k].pcs == be16_seq(b, r + 32, 3)
                &&& x.colors[k].colorant == be16_seq(b, r + 38, x.colorant_count as int)
            }
        },
        ncl2_bytes(l).subrange(4, 8) == bytes32(l.colors.len() as u32),
        ncl2_bytes(l).subrange(8, 12) == bytes32(l.colorant_count),
        ncl2_bytes(l).subrange(12, 44) == name_field(l.prefix),
        ncl2_bytes(l).subrange(44, 76) == name_field(l.suffix),
        short_ascii_name(l.prefix) ==> forall|i: int|
            0 <= i < 32 ==> #[trigger] ncl2_bytes(l)[12 + i] == (if i < l.prefix.len() {
                l.prefix[i] as u8
            } else {
                0u8
            }),
        short_ascii_name(l.suffix) ==> forall|i: int|
            0 <= i < 32 ==> #[trigger] ncl2_bytes(l)[44 + i] == (if i < l.suffix.len() {
                l.suffix[i] as u8
            } else {
                0u8
            }),
{
    let h = bytes32(0) + bytes32(l.colors.len() as u32) + bytes32(l.colorant_count);
    let pf = name_field(l.prefix);
    let sf = name_field(l.suffix);
    let rest = colors_bytes(l.colors, l.colorant_count as int);
    let all = ncl2_bytes(l);
    assert(pf.len() == 32 && sf.len() == 32) by {
        lemma_name_field_len(l.prefix);
        lemma_name_field_len(l.suffix);
    }
    assert(all == h + pf + sf + rest);
    assert(all.subrange(4, 8) =~= bytes32(l.colors.len() as u32));
    assert(all.subrange(8, 12) =~= bytes32(l.colorant_count));
    assert(all.subrange(12, 44) =~= pf);
    assert(all.subrange(44, 76) =~= sf);
    if short_ascii_name(l.prefix) {
        lemma_ascii_name_field(l.prefix);
        assert forall|i: int| 0 <= i < 32 implies #[trigger] all[12 + i] == (if i < l.prefix.len() {
            l.prefix[i] as u8
        } else {
            0u8
        }) by {
            assert(all[12 + i] == pf[i]);
        }
    }
    if short_ascii_name(l.suffix) {
        lemma_ascii_name_field(l.suffix);
        assert forall|i: int| 0 <= i < 32 implies #[trigger] all[44 + i] == (if i < l.suffix.len() {
            l.suffix[i] as u8
        } else {
            0u8
        }) by {
            assert(all[44 + i] == sf[i]);
        }
    }
}

proof fn lemma_name_field_len(s: Seq<char>)
    ensures
        name_field(s).len() == 32,
{
}

/// The name field of a short ASCII name: its characters' codes, then zeros.
proof fn lemma_ascii_name_field(s: Seq<char>)
    requires
        short_ascii_name(s),
    ensures
        forall|i: int| 0 <= i < 32 ==> #[trigger] name_field(s)[i] == (if i < s.len() {
            s[i] as u8
        } else {
            0u8
        }),
{
    let e = encode_utf8(s);
    vstd::utf8::is_ascii_chars_encode_utf8(s);
    let k = s.len() as int;
    assert(e.take(k) =~= e);
    let f = name_field(s);
    assert forall|i: int| 0 <= i < 32 implies #[trigger] name_field(s)[i] == (if i < s.len() {
        s[i] as u8
    } else {
        0u8
    }) by {
        if i < k {
            assert(f[i] == e[i]);
        } else {
            assert(f[i] == zeros(32 - k)[i - k]);
        }
    }
}

} // verus!
