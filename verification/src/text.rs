//! Character-level helpers shared by the text formats: character access,
//! classification, and UTF-16BE encoding and decoding.
use vstd::prelude::*;

verus! {

broadcast use vstd::string::group_string_axioms;

/// The characters of `s`.
pub fn str_to_chars(s: &str) -> (r: Vec<char>)
    ensures
        r@ == s@,
{
    let mut v: Vec<char> = Vec::new();
    for c in iter: s.chars()
        invariant
            v@ == iter.seq().take(iter.index()),
            iter.seq() == s@,
    {
        v.push(c);
    }
    v
}

/// Appends a character to a string: wraps `String::push`, which the standard
/// library documents as appending the given char to the end of the string.
#[verifier::external_body]
pub(crate) fn string_push(s: &mut String, c: char)
    ensures
        final(s)@ == old(s)@.push(c),
{
    s.push(c);
}

/// A string holding the characters `chars[from .. to]`.
pub fn string_from_chars(chars: &Vec<char>, from: usize, to: usize) -> (r: String)
    requires
        from <= to <= chars.len(),
    ensures
        r@ == chars@.subrange(from as int, to as int),
{
    let mut s = String::new();
    let mut i = from;
    while i < to
        invariant
            from <= i <= to <= chars.len(),
            s@ == chars@.subrange(from as int, i as int),
        decreases to - i,
    {
        string_push(&mut s, chars[i]);
        i = i + 1;
        assert(s@ =~= chars@.subrange(from as int, i as int));
    }
    s
}

/// Whether `c` is alphabetic or numeric in the Unicode sense (`char::is_alphanumeric`).
pub uninterp spec fn spec_is_alphanumeric(c: char) -> bool;

/// Whether `c` has the Unicode White_Space property (`char::is_whitespace`).
pub uninterp spec fn spec_is_whitespace(c: char) -> bool;

/// An ASCII letter or digit.
pub open spec fn is_ascii_alnum(c: char) -> bool {
    ('0' <= c <= '9') || ('a' <= c <= 'z') || ('A' <= c <= 'Z')
}

/// An ASCII white-space character: tab, line feed, vertical tab, form feed,
/// carriage return or space.
pub open spec fn is_ascii_white(c: char) -> bool {
    ('\t' <= c <= '\r') || c == ' '
}

/// Wraps `char::is_alphanumeric`. Its result is named by `spec_is_alphanumeric`;
/// for ASCII characters the documentation pins it down to letters and digits.
#[verifier::external_body]
pub(crate) fn char_is_alphanumeric(c: char) -> (r: bool)
    ensures
        r == spec_is_alphanumeric(c),
        (c as u32) < 128 ==> (r <==> is_ascii_alnum(c)),
{
    c.is_alphanumeric()
}

/// Wraps `char::is_whitespace`. Its result is named by `spec_is_whitespace`;
/// for ASCII characters it holds exactly of tab through carriage return and space.
#[verifier::external_body]
pub(crate) fn char_is_whitespace(c: char) -> (r: bool)
    ensures
        r == spec_is_whitespace(c),
        (c as u32) < 128 ==> (r <==> is_ascii_white(c)),
{
    c.is_whitespace()
}

/// Whether `v` is a Unicode scalar value.
pub open spec fn is_scalar(v: int) -> bool {
    0 <= v <= 0x10ffff && !(0xd800 <= v <= 0xdfff)
}

/// Wraps `char::from_u32`, documented to return the char with code `v`
/// exactly when `v` is a Unicode scalar value, and `None` otherwise.
#[verifier::external_body]
pub(crate) fn char_from_u32(v: u32) -> (r: Option<char>)
    ensures
        r is Some <==> is_scalar(v as int),
        r matches Some(c) ==> c as u32 == v,
{
    char::from_u32(v)
}

/// A character is the character of its code.
pub proof fn lemma_char_cast(c: char, v: u32)
    requires
        c as u32 == v,
    ensures
        c == (v as int) as char,
{
}

/// The code point of `c`, a Unicode scalar value.
pub(crate) fn char_code(c: char) -> (r: u32)
    ensures
        r == c as u32,
        is_scalar(r as int),
{
    c as u32
}

/// The UTF-16 code units of one character.
pub open spec fn utf16_units(c: char) -> Seq<u16> {
    let v = c as u32 as int;
    if v < 0x10000 {
        seq![v as u16]
    } else {
        let w = v - 0x10000;
        seq![(0xd800 + w / 1024) as u16, (0xdc00 + w % 1024) as u16]
    }
}

/// The UTF-16 encoding of a character sequence.
pub open spec fn utf16_encode(s: Seq<char>) -> Seq<u16>
    decreases s.len(),
{
    if s.len() == 0 {
        Seq::empty()
    } else {
        utf16_units(s[0]) + utf16_encode(s.skip(1))
    }
}

/// A UTF-16 high (leading) surrogate.
pub open spec fn is_high_surrogate(u: u16) -> bool {
    0xd800 <= u < 0xdc00
}

/// A UTF-16 low (trailing) surrogate.
pub open spec fn is_low_surrogate(u: u16) -> bool {
    0xdc00 <= u < 0xe000
}

/// UTF-16 decoding in which each unpaired surrogate becomes U+FFFD.
pub open spec fn utf16_decode(u: Seq<u16>) -> Seq<char>
    decreases u.len(),
{
    if u.len() == 0 {
        Seq::empty()
    } else if u.len() >= 2 && is_high_surrogate(u[0]) && is_low_surrogate(u[1]) {
        seq![(0x10000 + (u[0] - 0xd800) * 1024 + (u[1] - 0xdc00)) as char] + utf16_decode(
            u.skip(2),
        )
    } else if 0xd800 <= u[0] <= 0xdfff {
        seq!['\u{FFFD}'] + utf16_decode(u.skip(1))
    } else {
        seq![u[0] as char] + utf16_decode(u.skip(1))
    }
}

/// Big-endian bytes of a sequence of 16-bit units.
pub open spec fn be_bytes16(u: Seq<u16>) -> Seq<u8> {
    Seq::new(2 * u.len(), |i: int| if i % 2 == 0 { (u[i / 2] / 256) as u8 } else { (u[i / 2] % 256) as u8 })
}

/// 16-bit units read big-endian from byte pairs; a trailing odd byte is ignored.
pub open spec fn be_units16(b: Seq<u8>) -> Seq<u16> {
    Seq::new(b.len() / 2, |k: int| (b[2 * k] * 256 + b[2 * k + 1]) as u16)
}

/// The UTF-16BE bytes of a character sequence.
pub open spec fn utf16be(s: Seq<char>) -> Seq<u8> {
    be_bytes16(utf16_encode(s))
}

/// Decoding UTF-16BE bytes.
pub open spec fn utf16be_decode(b: Seq<u8>) -> Seq<char> {
    utf16_decode(be_units16(b))
}

/// Encoding one more character appends its units.
pub proof fn lemma_encode_push(s: Seq<char>, c: char)
    ensures
        utf16_encode(s.push(c)) == utf16_encode(s) + utf16_units(c),
    decreases s.len(),
{
    if s.len() == 0 {
        assert(s.push(c).skip(1) =~= Seq::<char>::empty());
        assert(utf16_encode(s.push(c).skip(1)) =~= Seq::<u16>::empty());
        assert(utf16_encode(s.push(c)) =~= utf16_units(c));
    } else {
        assert(s.push(c).skip(1) =~= s.skip(1).push(c));
        lemma_encode_push(s.skip(1), c);
        assert(utf16_encode(s.push(c)) =~= utf16_units(s[0]) + (utf16_encode(s.skip(1))
            + utf16_units(c)));
    }
}

proof fn lemma_units_round_trip(c: char, rest: Seq<u16>)
    ensures
        utf16_decode(utf16_units(c) + rest) == seq![c] + utf16_decode(rest),
{
    let v = c as u32 as int;
    let u = utf16_units(c) + rest;
    if v < 0x10000 {
        assert(!(0xd800 <= v <= 0xdfff));
        assert(u[0] == v as u16);
        assert(u.skip(1) =~= rest);
        assert((v as u16) as char == c);
    } else {
        let w = v - 0x10000;
        assert(w / 1024 < 1024);
        assert(u[0] == (0xd800 + w / 1024) as u16);
        assert(u[1] == (0xdc00 + w % 1024) as u16);
        assert(u.skip(2) =~= rest);
        assert(0x10000 + (w / 1024) * 1024 + w % 1024 == v);
        assert((v as char) == c);
    }
}

/// Decoding the UTF-16 encoding of a character sequence gives it back.
pub proof fn law_utf16_round_trip(s: Seq<char>)
    ensures
        utf16_decode(utf16_encode(s)) == s,
    decreases s.len(),
{
    if s.len() > 0 {
        law_utf16_round_trip(s.skip(1));
        lemma_units_round_trip(s[0], utf16_encode(s.skip(1)));
        assert(s =~= seq![s[0]] + s.skip(1));
    }
}

proof fn lemma_be_bytes16_append(a: Seq<u16>, b: Seq<u16>)
    ensures
        be_bytes16(a + b) == be_bytes16(a) + be_bytes16(b),
{
    let l = be_bytes16(a + b);
    let r = be_bytes16(a) + be_bytes16(b);
    assert forall|i: int| 0 <= i < l.len() implies #[trigger] l[i] == r[i] by {
        if i < 2 * a.len() {
            assert(i / 2 < a.len());
        } else {
            let j = i - 2 * a.len();
            assert(j / 2 == i / 2 - a.len());
            assert(j % 2 == i % 2);
        }
    }
    assert(l =~= r);
}

/// Reading back the big-endian bytes of a unit sequence gives it back.
pub proof fn law_be16_round_trip(u: Seq<u16>)
    ensures
        be_units16(be_bytes16(u)) == u,
{
    let b = be_bytes16(u);
    assert forall|k: int| 0 <= k < u.len() implies #[trigger] be_units16(b)[k] == u[k] by {
        assert((2 * k) / 2 == k && (2 * k) % 2 == 0);
        assert((2 * k + 1) / 2 == k && (2 * k + 1) % 2 == 1);
        assert((u[k] / 256) * 256 + u[k] % 256 == u[k]);
    }
    assert(be_units16(b) =~= u);
}

/// Decoding the UTF-16BE bytes of a character sequence gives it back.
pub proof fn law_utf16be_round_trip(s: Seq<char>)
    ensures
        utf16be_decode(utf16be(s)) == s,
{
    law_be16_round_trip(utf16_encode(s));
    law_utf16_round_trip(s);
}

/// The UTF-16BE encoding of `text`.
pub fn encode_utf16be(text: &str) -> (r: Vec<u8>)
    ensures
        r@ == utf16be(text@),
{
    let chars = str_to_chars(text);
    let mut out: Vec<u8> = Vec::new();
    let mut i: usize = 0;
    while i < chars.len()
        invariant
            i <= chars.len(),
            chars@ == text@,
            out@ == be_bytes16(utf16_encode(chars@.take(i as int))),
        decreases chars.len() - i,
    {
        let c = chars[i];
        let v = char_code(c);
        let ghost before = utf16_encode(chars@.take(i as int));
        proof {
            assert(chars@.take(i + 1) =~= chars@.take(i as int).push(c));
            lemma_encode_push(chars@.take(i as int), c);
        }
        if v < 0x10000 {
            assert(utf16_units(c) =~= seq![v as u16]);
            assert(be_bytes16(seq![v as u16]) =~= seq![(v / 256) as u8, (v % 256) as u8]);
            out.push((v / 256) as u8);
            out.push((v % 256) as u8);
        } else {
            let w = v - 0x10000;
            assert(w / 1024 < 1024);
            let hi = 0xd800 + w / 1024;
            let lo = 0xdc00 + w % 1024;
            assert(utf16_units(c) =~= seq![hi as u16, lo as u16]);
            assert(be_bytes16(seq![hi as u16, lo as u16]) =~= seq![
                (hi / 256) as u8,
                (hi % 256) as u8,
                (lo / 256) as u8,
                (lo % 256) as u8,
            ]);
            out.push((hi / 256) as u8);
            out.push((hi % 256) as u8);
            out.push((lo / 256) as u8);
            out.push((lo % 256) as u8);
        }
        i = i + 1;
        proof {
            let after = before + utf16_units(c);
            lemma_be_bytes16_append(before, utf16_units(c));
            assert(be_bytes16(utf16_units(c)).len() == 2 * utf16_units(c).len());
            assert(out@ =~= be_bytes16(before) + be_bytes16(utf16_units(c)));
        }
    }
    assert(chars@.take(chars@.len() as int) =~= chars@);
    out
}

/// Decode UTF-16BE bytes (pairs of bytes, a trailing odd byte ignored) into a
/// string; unpaired surrogates become U+FFFD.
pub fn decode_utf16be(bytes: &[u8]) -> (r: String)
    ensures
        r@ == utf16be_decode(bytes@),
{
    let r = decode_utf16be_range(bytes, 0, bytes.len());
    assert(bytes@.subrange(0, bytes@.len() as int) =~= bytes@);
    r
}

/// Decode the UTF-16BE bytes `bytes[from .. to]`.
pub fn decode_utf16be_range(bytes: &[u8], from: usize, to: usize) -> (r: String)
    requires
        from <= to <= bytes.len(),
    ensures
        r@ == utf16be_decode(bytes@.subrange(from as int, to as int)),
{
    let ghost b = bytes@.subrange(from as int, to as int);
    let n = (to - from) / 2;
    let ghost u = be_units16(b);
    let mut out = String::new();
    let mut k: usize = 0;
    assert(u.skip(0) =~= u);
    assert(out@ + utf16_decode(u) =~= utf16_decode(u));
    while k < n
        invariant
            k <= n,
            from <= to <= bytes.len(),
            n == b.len() / 2,
            b == bytes@.subrange(from as int, to as int),
            u == be_units16(b),
            out@ + utf16_decode(u.skip(k as int)) == utf16_decode(u),
        decreases n - k,
    {
        let ghost rest = u.skip(k as int);
        assert(2 * k + 1 < b.len());
        let p = from + 2 * k;
        let u0 = (bytes[p] as u32) * 256 + bytes[p + 1] as u32;
        assert(u0 == u[k as int]);
        if 0xd800 <= u0 && u0 < 0xdc00 && k + 1 < n {
            assert(2 * k + 3 < b.len());
            let u1 = (bytes[p + 2] as u32) * 256 + bytes[p + 3] as u32;
            assert(u1 == u[k + 1]);
            if 0xdc00 <= u1 && u1 < 0xe000 {
                let v = 0x10000 + (u0 - 0xd800) * 1024 + (u1 - 0xdc00);
                let c = char_from_u32(v);
                match c {
                    Some(ch) => {
                        proof {
                            lemma_char_cast(ch, v);
                            assert(rest.skip(2) =~= u.skip(k + 2));
                            assert(rest[0] == u0 && rest[1] == u1);
                            assert(utf16_decode(rest) == seq![ch] + utf16_decode(rest.skip(2)));
                        }
                        string_push(&mut out, ch);
                    },
                    None => {
                        assert(false);
                    },
                }
                k = k + 2;
                continue;
            }
        }
        if 0xd800 <= u0 && u0 <= 0xdfff {
            string_push(&mut out, '\u{FFFD}');
        } else {
            match char_from_u32(u0) {
                Some(ch) => {
                    proof {
                        lemma_char_cast(ch, u0);
                    }
                    string_push(&mut out, ch);
                },
                None => {
                    assert(false);
                },
            }
        }
        proof {
            assert(rest.skip(1) =~= u.skip(k + 1));
            assert(rest[0] == u0);
            assert(rest.len() >= 1);
        }
        k = k + 1;
    }
    assert(u.skip(n as int).len() == 0);
    out
}

/// Whether two character vectors are equal.
pub fn chars_eq(a: &Vec<char>, b: &Vec<char>) -> (r: bool)
    ensures
        r == (a@ == b@),
{
    if a.len() != b.len() {
        return false;
    }
    let mut i: usize = 0;
    while i < a.len()
        invariant
            i <= a.len(),
            a.len() == b.len(),
            forall|j: int| 0 <= j < i ==> a@[j] == b@[j],
        decreases a.len() - i,
    {
        if a[i] != b[i] {
            return false;
        }
        i = i + 1;
    }
    assert(a@ =~= b@);
    true
}

/// Whether the characters of `a` equal those of `b`.
pub fn str_eq(a: &str, b: &str) -> (r: bool)
    ensures
        r == (a@ == b@),
{
    let x = str_to_chars(a);
    let y = str_to_chars(b);
    chars_eq(&x, &y)
}

} // verus!
