//! Multi-localized Unicode text.
use vstd::prelude::*;
use crate::text::{
    char_code, decode_utf16be_range, encode_utf16be, law_utf16be_round_trip, string_push,
    utf16be, utf16be_decode,
};

verus! {

broadcast use vstd::string::group_string_axioms;

/// ISO 639-1 language code (2 bytes, e.g. `*b"en"`).
#[derive(Debug, Clone, Copy, PartialEq, Eq)]
pub struct LanguageCode(pub [u8; 2]);

/// ISO 3166-1 country code (2 bytes, e.g. `*b"US"`).
#[derive(Debug, Clone, Copy, PartialEq, Eq)]
pub struct CountryCode(pub [u8; 2]);

/// A translation as seen from outside: its codes and its text.
pub type MluItem = (LanguageCode, CountryCode, Seq<char>);

#[derive(Debug, Clone, Copy)]
struct MluEntry {
    language: LanguageCode,
    country: CountryCode,
    offset: usize,
    len: usize,
}

/// Multi-localized Unicode text: one string per language/country pair,
/// stored as UTF-16BE in a byte pool.
pub struct Mlu {
    entries: Vec<MluEntry>,
    pool: Vec<u8>,
    texts: Ghost<Seq<Seq<char>>>,
}

/// Byte `i` of `b`, or 0 past its end.
pub open spec fn byte_or_zero(b: Seq<u8>, i: int) -> u8 {
    if i < b.len() {
        b[i]
    } else {
        0
    }
}

/// The two-byte code given by the first two bytes of `s` (missing bytes are 0).
pub open spec fn code_bytes(s: Seq<char>) -> [u8; 2] {
    let b = vstd::utf8::encode_utf8(s);
    [byte_or_zero(b, 0), byte_or_zero(b, 1)]
}

/// Two codes hold the same bytes.
pub open spec fn same_code(a: [u8; 2], b: [u8; 2]) -> bool {
    a[0] == b[0] && a[1] == b[1]
}

/// First index at or after `i` with the given language and country.
pub open spec fn first_exact(v: Seq<MluItem>, l: LanguageCode, c: CountryCode, i: int) -> Option<
    int,
>
    decreases v.len() - i,
{
    if i < 0 || i >= v.len() {
        None
    } else if same_code(v[i].0.0, l.0) && same_code(v[i].1.0, c.0) {
        Some(i)
    } else {
        first_exact(v, l, c, i + 1)
    }
}

/// First index at or after `i` with the given language.
pub open spec fn first_lang(v: Seq<MluItem>, l: LanguageCode, i: int) -> Option<int>
    decreases v.len() - i,
{
    if i < 0 || i >= v.len() {
        None
    } else if same_code(v[i].0.0, l.0) {
        Some(i)
    } else {
        first_lang(v, l, i + 1)
    }
}

/// The translations after setting `t` for the pair `(l, c)`: an existing
/// entry for the pair is replaced in place, otherwise one is appended.
pub open spec fn mlu_set(v: Seq<MluItem>, l: LanguageCode, c: CountryCode, t: Seq<char>) -> Seq<
    MluItem,
> {
    match first_exact(v, l, c, 0) {
        Some(i) => v.update(i, (l, c, t)),
        None => v.push((l, c, t)),
    }
}

/// Index of the entry a lookup uses: exact match, else first entry with the
/// same language, else the first entry; `None` when there are no entries.
pub open spec fn mlu_lookup(v: Seq<MluItem>, l: LanguageCode, c: CountryCode) -> Option<int> {
    match first_exact(v, l, c, 0) {
        Some(i) => Some(i),
        None => match first_lang(v, l, 0) {
            Some(i) => Some(i),
            None => if v.len() > 0 {
                Some(0)
            } else {
                None
            },
        },
    }
}

/// Text with each non-ASCII character replaced by '?'.
pub open spec fn ascii_or_question(t: Seq<char>) -> Seq<char> {
    Seq::new(t.len(), |i: int| if (t[i] as u32) < 128 { t[i] } else { '?' })
}

proof fn lemma_first_exact_bound(v: Seq<MluItem>, l: LanguageCode, c: CountryCode, i: int)
    ensures
        first_exact(v, l, c, i) matches Some(k) ==> i <= k < v.len(),
    decreases v.len() - i,
{
    if 0 <= i < v.len() && !(same_code(v[i].0.0, l.0) && same_code(v[i].1.0, c.0)) {
        lemma_first_exact_bound(v, l, c, i + 1);
    }
}

proof fn lemma_first_lang_bound(v: Seq<MluItem>, l: LanguageCode, i: int)
    ensures
        first_lang(v, l, i) matches Some(k) ==> i <= k < v.len(),
    decreases v.len() - i,
{
    if 0 <= i < v.len() && !same_code(v[i].0.0, l.0) {
        lemma_first_lang_bound(v, l, i + 1);
    }
}

proof fn lemma_first_exact_update(
    v: Seq<MluItem>,
    l: LanguageCode,
    c: CountryCode,
    t: Seq<char>,
    k: int,
    i: int,
)
    requires
        0 <= i <= k,
        first_exact(v, l, c, i) == Some(k),
    ensures
        first_exact(v.update(k, (l, c, t)), l, c, i) == Some(k),
    decreases k - i,
{
    lemma_first_exact_bound(v, l, c, i);
    if i < k {
        lemma_first_exact_update(v, l, c, t, k, i + 1);
    }
}

proof fn lemma_first_exact_push(v: Seq<MluItem>, l: LanguageCode, c: CountryCode, t: Seq<char>, i: int)
    requires
        0 <= i <= v.len(),
        first_exact(v, l, c, i) is None,
    ensures
        first_exact(v.push((l, c, t)), l, c, i) == Some(v.len() as int),
    decreases v.len() - i,
{
    if i < v.len() {
        lemma_first_exact_push(v, l, c, t, i + 1);
    }
}

/// After setting text `t` for a language/country pair, looking up that same
/// pair gives back `t`.
pub proof fn law_mlu_set_then_get(v: Seq<MluItem>, l: LanguageCode, c: CountryCode, t: Seq<char>)
    ensures
        mlu_lookup(mlu_set(v, l, c, t), l, c) matches Some(i) && mlu_set(v, l, c, t)[i].2 == t,
{
    match first_exact(v, l, c, 0) {
        Some(k) => {
            lemma_first_exact_bound(v, l, c, 0);
            lemma_first_exact_update(v, l, c, t, k, 0);
        },
        None => {
            lemma_first_exact_push(v, l, c, t, 0);
        },
    }
}

/// Setting text for a pair leaves the number of entries unchanged when the
/// pair was present, and adds one entry otherwise.
pub proof fn law_mlu_set_count(v: Seq<MluItem>, l: LanguageCode, c: CountryCode, t: Seq<char>)
    ensures
        first_exact(v, l, c, 0) is Some ==> mlu_set(v, l, c, t).len() == v.len(),
        first_exact(v, l, c, 0) is None ==> mlu_set(v, l, c, t).len() == v.len() + 1,
{
    lemma_first_exact_bound(v, l, c, 0);
}

impl View for Mlu {
    type V = Seq<MluItem>;

    /// The translations, in the order they were first set.
    closed spec fn view(&self) -> Seq<MluItem> {
        Seq::new(
            self.entries@.len(),
            |i: int| (self.entries@[i].language, self.entries@[i].country, self.texts@[i]),
        )
    }
}

/// The two-byte code of a string: its first two bytes, 0 where missing.
fn code_of(s: &str) -> (r: [u8; 2])
    ensures
        r == code_bytes(s@),
{
    let b = s.as_bytes();
    let b0 = if b.len() > 0 {
        b[0]
    } else {
        0
    };
    let b1 = if b.len() > 1 {
        b[1]
    } else {
        0
    };
    let r = [b0, b1];
    assert(r@ =~= code_bytes(s@)@);
    r
}

impl Mlu {
    /// Every entry's pool bytes are the UTF-16BE encoding of its text.
    pub closed spec fn wf(&self) -> bool {
        &&& self.entries@.len() == self.texts@.len()
        &&& forall|i: int|
            0 <= i < self.entries@.len() ==> {
                &&& #[trigger] self.entries@[i].offset + self.entries@[i].len <= self.pool@.len()
                &&& self.pool@.subrange(
                    self.entries@[i].offset as int,
                    self.entries@[i].offset + self.entries@[i].len,
                ) == utf16be(self.texts@[i])
            }
    }

    /// An empty text with no translations.
    pub fn new() -> (r: Self)
        ensures
            r.wf(),
            r@ == Seq::<MluItem>::empty(),
    {
        let r = Mlu { entries: Vec::new(), pool: Vec::new(), texts: Ghost(Seq::empty()) };
        assert(r@ =~= Seq::<MluItem>::empty());
        r
    }

    fn find_exact(&self, l: LanguageCode, c: CountryCode) -> (r: Option<usize>)
        requires
            self.wf(),
        ensures
            r matches Some(i) ==> first_exact(self@, l, c, 0) == Some(i as int),
            r is None ==> first_exact(self@, l, c, 0) is None,
    {
        let mut i: usize = 0;
        while i < self.entries.len()
            invariant
                i <= self.entries@.len(),
                self.wf(),
                first_exact(self@, l, c, 0) == first_exact(self@, l, c, i as int),
            decreases self.entries@.len() - i,
        {
            let e = self.entries[i];
            if e.language.0[0] == l.0[0] && e.language.0[1] == l.0[1] && e.country.0[0] == c.0[0]
                && e.country.0[1] == c.0[1] {
                return Some(i);
            }
            i = i + 1;
        }
        None
    }

    fn find_lang(&self, l: LanguageCode) -> (r: Option<usize>)
        requires
            self.wf(),
        ensures
            r matches Some(i) ==> first_lang(self@, l, 0) == Some(i as int),
            r is None ==> first_lang(self@, l, 0) is None,
    {
        let mut i: usize = 0;
        while i < self.entries.len()
            invariant
                i <= self.entries@.len(),
                self.wf(),
                first_lang(self@, l, 0) == first_lang(self@, l, i as int),
            decreases self.entries@.len() - i,
        {
            let e = self.entries[i];
            if e.language.0[0] == l.0[0] && e.language.0[1] == l.0[1] {
                return Some(i);
            }
            i = i + 1;
        }
        None
    }

    fn lookup(&self, l: LanguageCode, c: CountryCode) -> (r: Option<usize>)
        requires
            self.wf(),
        ensures
            r matches Some(i) ==> mlu_lookup(self@, l, c) == Some(i as int) && i
                < self.entries@.len(),
            r is None ==> mlu_lookup(self@, l, c) is None,
    {
        proof {
            lemma_first_exact_bound(self@, l, c, 0);
            lemma_first_lang_bound(self@, l, 0);
        }
        match self.find_exact(l, c) {
            Some(i) => Some(i),
            None => match self.find_lang(l) {
                Some(i) => Some(i),
                None => if self.entries.len() > 0 {
                    Some(0)
                } else {
                    None
                },
            },
        }
    }

    /// Set the text of a language/country pair: an existing entry for the pair
    /// is replaced, otherwise one is added. Always succeeds.
    pub fn set_utf8(&mut self, lang: &str, country: &str, text: &str) -> (r: bool)
        requires
            old(self).wf(),
        ensures
            final(self).wf(),
            r,
            final(self)@ == mlu_set(
                old(self)@,
                LanguageCode(code_bytes(lang@)),
                CountryCode(code_bytes(country@)),
                text@,
            ),
    {
        let l = LanguageCode(code_of(lang));
        let c = CountryCode(code_of(country));
        self.set_codes(l, c, text);
        true
    }

    /// Set the text of the pair given by its codes.
    pub(crate) fn set_codes(&mut self, l: LanguageCode, c: CountryCode, text: &str)
        requires
            old(self).wf(),
        ensures
            final(self).wf(),
            final(self)@ == mlu_set(old(self)@, l, c, text@),
    {
        let bytes = encode_utf16be(text);
        let offset = self.pool.len();
        let ghost old_pool = self.pool@;
        let mut k: usize = 0;
        while k < bytes.len()
            invariant
                k <= bytes@.len(),
                offset == old_pool.len(),
                self.pool@ == old_pool + bytes@.take(k as int),
                self.entries@ == old(self).entries@,
                self.texts@ == old(self).texts@,
            decreases bytes@.len() - k,
        {
            self.pool.push(bytes[k]);
            k = k + 1;
            assert(self.pool@ =~= old_pool + bytes@.take(k as int));
        }
        assert(bytes@.take(bytes@.len() as int) =~= bytes@);
        let ghost old_view = old(self)@;
        let entry = MluEntry { language: l, country: c, offset, len: bytes.len() };
        assert(self.pool@.subrange(offset as int, offset + bytes.len()) =~= bytes@);
        assert forall|i: int| 0 <= i < self.entries@.len() implies self.pool@.subrange(
            self.entries@[i].offset as int,
            self.entries@[i].offset + self.entries@[i].len,
        ) == old_pool.subrange(
            self.entries@[i].offset as int,
            self.entries@[i].offset + self.entries@[i].len,
        ) by {
            assert(old(self).entries@[i].offset + old(self).entries@[i].len <= old_pool.len());
            assert(self.pool@.subrange(
                self.entries@[i].offset as int,
                self.entries@[i].offset + self.entries@[i].len,
            ) =~= old_pool.subrange(
                self.entries@[i].offset as int,
                self.entries@[i].offset + self.entries@[i].len,
            ));
        }
        match self.find_exact(l, c) {
            Some(i) => {
                proof {
                    lemma_first_exact_bound(old_view, l, c, 0);
                }
                self.entries.set(i, entry);
                self.texts = Ghost(self.texts@.update(i as int, text@));
                assert(self@ =~= old_view.update(i as int, (l, c, text@)));
            },
            None => {
                self.entries.push(entry);
                self.texts = Ghost(self.texts@.push(text@));
                assert(self@ =~= old_view.push((l, c, text@)));
            },
        }
    }

    /// Set ASCII text for a language/country pair. Returns `false`, changing
    /// nothing, when `text` holds a non-ASCII character.
    pub fn set_ascii(&mut self, lang: &str, country: &str, text: &str) -> (r: bool)
        requires
            old(self).wf(),
        ensures
            final(self).wf(),
            r == vstd::string::is_ascii(text),
            r ==> final(self)@ == mlu_set(
                old(self)@,
                LanguageCode(code_bytes(lang@)),
                CountryCode(code_bytes(country@)),
                text@,
            ),
            !r ==> final(self)@ == old(self)@,
    {
        if !text.is_ascii() {
            return false;
        }
        self.set_utf8(lang, country, text)
    }

    /// Text of the entry a lookup selects, as UTF-8: exact match, else the
    /// first entry with the same language, else the first entry; `None` when
    /// there are no entries.
    pub fn get_utf8(&self, lang: &str, country: &str) -> (r: Option<String>)
        requires
            self.wf(),
        ensures
            r is None <==> mlu_lookup(
                self@,
                LanguageCode(code_bytes(lang@)),
                CountryCode(code_bytes(country@)),
            ) is None,
            r matches Some(s) ==> s@ == self@[mlu_lookup(
                self@,
                LanguageCode(code_bytes(lang@)),
                CountryCode(code_bytes(country@)),
            )->Some_0].2,
    {
        let l = LanguageCode(code_of(lang));
        let c = CountryCode(code_of(country));
        self.get_codes(l, c)
    }

    /// Text of the entry a lookup by codes selects.
    pub(crate) fn get_codes(&self, l: LanguageCode, c: CountryCode) -> (r: Option<String>)
        requires
            self.wf(),
        ensures
            r is None <==> mlu_lookup(self@, l, c) is None,
            r matches Some(s) ==> s@ == self@[mlu_lookup(self@, l, c)->Some_0].2,
    {
        match self.lookup(l, c) {
            None => None,
            Some(i) => {
                let e = self.entries[i];
                assert(self.entries@[i as int].offset + self.entries@[i as int].len
                    <= self.pool@.len());
                assert(e.offset + e.len <= self.pool.len());
                proof {
                    law_utf16be_round_trip(self.texts@[i as int]);
                }
                let s = decode_utf16be_range(self.pool.as_slice(), e.offset, e.offset + e.len);
                Some(s)
            },
        }
    }

    /// Like `get_utf8`, with each non-ASCII character replaced by '?'.
    pub fn get_ascii(&self, lang: &str, country: &str) -> (r: Option<String>)
        requires
            self.wf(),
        ensures
            r is None <==> mlu_lookup(
                self@,
                LanguageCode(code_bytes(lang@)),
                CountryCode(code_bytes(country@)),
            ) is None,
            r matches Some(s) ==> s@ == ascii_or_question(
                self@[mlu_lookup(
                    self@,
                    LanguageCode(code_bytes(lang@)),
                    CountryCode(code_bytes(country@)),
                )->Some_0].2,
            ),
    {
        let l = LanguageCode(code_of(lang));
        let c = CountryCode(code_of(country));
        self.get_ascii_codes(l, c)
    }

    /// Like `get_codes`, with each non-ASCII character replaced by '?'.
    pub(crate) fn get_ascii_codes(&self, l: LanguageCode, c: CountryCode) -> (r: Option<String>)
        requires
            self.wf(),
        ensures
            r is None <==> mlu_lookup(self@, l, c) is None,
            r matches Some(s) ==> s@ == ascii_or_question(self@[mlu_lookup(self@, l, c)->Some_0].2),
    {
        match self.get_codes(l, c) {
            None => None,
            Some(s) => {
                let mut out = String::new();
                let ghost t = s@;
                for ch in iter: s.as_str().chars()
                    invariant
                        iter.seq() == t,
                        out@ == ascii_or_question(t.take(iter.index())),
                {
                    let code = char_code(ch);
                    if code < 128 {
                        string_push(&mut out, ch);
                    } else {
                        string_push(&mut out, '?');
                    }
                    assert(out@ =~= ascii_or_question(t.take(iter.index() + 1)));
                }
                assert(t.take(t.len() as int) =~= t);
                Some(out)
            },
        }
    }

    /// Number of language/country entries.
    pub fn translations_count(&self) -> (r: usize)
        requires
            self.wf(),
        ensures
            r == self@.len(),
    {
        self.entries.len()
    }

    /// Codes of the entry at `index`, if there is one.
    pub fn translation_codes(&self, index: usize) -> (r: Option<(LanguageCode, CountryCode)>)
        requires
            self.wf(),
        ensures
            r is Some <==> index < self@.len(),
            r matches Some(p) ==> p.0 == self@[index as int].0 && p.1 == self@[index as int].1,
    {
        if index < self.entries.len() {
            let e = self.entries[index];
            Some((e.language, e.country))
        } else {
            None
        }
    }

}

/// One dictionary entry as seen from outside: name, value, display name and
/// display value.
pub type DictItem = (Seq<char>, Option<Seq<char>>, Option<Seq<MluItem>>, Option<Seq<MluItem>>);

/// The characters of an optional string.
pub open spec fn opt_text(o: Option<String>) -> Option<Seq<char>> {
    match o {
        Some(s) => Some(s@),
        None => None,
    }
}

/// The translations of an optional text.
pub open spec fn opt_mlu(o: Option<Mlu>) -> Option<Seq<MluItem>> {
    match o {
        Some(m) => Some(m@),
        None => None,
    }
}

/// An optional text that is present is well formed.
pub open spec fn opt_mlu_wf(o: Option<Mlu>) -> bool {
    o matches Some(m) ==> m.wf()
}

/// One entry of a dictionary: a name, an optional value, and optional
/// localized display texts for both.
pub struct DictEntry {
    pub name: String,
    pub value: Option<String>,
    pub display_name: Option<Mlu>,
    pub display_value: Option<Mlu>,
}

impl View for DictEntry {
    type V = DictItem;

    open spec fn view(&self) -> DictItem {
        (self.name@, opt_text(self.value), opt_mlu(self.display_name), opt_mlu(self.display_value))
    }
}

impl DictEntry {
    /// Both display texts, where present, are well formed.
    pub open spec fn wf(&self) -> bool {
        opt_mlu_wf(self.display_name) && opt_mlu_wf(self.display_value)
    }
}

/// A dictionary: entries kept in the order they were added.
pub struct Dict {
    entries: Vec<DictEntry>,
}

impl View for Dict {
    type V = Seq<DictItem>;

    closed spec fn view(&self) -> Seq<DictItem> {
        Seq::new(self.entries@.len(), |i: int| self.entries@[i]@)
    }
}

fn clone_text(o: Option<&str>) -> (r: Option<String>)
    ensures
        opt_text(r) == match o {
            Some(s) => Some(s@),
            None => None::<Seq<char>>,
        },
{
    match o {
        Some(s) => Some(s.to_string()),
        None => None,
    }
}

fn clone_mlu(o: Option<&Mlu>) -> (r: Option<Mlu>)
    requires
        o matches Some(m) ==> m.wf(),
    ensures
        opt_mlu_wf(r),
        opt_mlu(r) == match o {
            Some(m) => Some(m@),
            None => None::<Seq<MluItem>>,
        },
{
    match o {
        Some(m) => Some(m.clone()),
        None => None,
    }
}

impl Dict {
    /// Every entry's display texts are well formed.
    pub closed spec fn wf(&self) -> bool {
        forall|i: int| 0 <= i < self.entries@.len() ==> (#[trigger] self.entries@[i]).wf()
    }

    /// An empty dictionary.
    pub fn new() -> (r: Self)
        ensures
            r.wf(),
            r@ == Seq::<DictItem>::empty(),
    {
        let r = Dict { entries: Vec::new() };
        assert(r@ =~= Seq::<DictItem>::empty());
        r
    }

    /// Add an entry at the end, copying its name, value and display texts.
    pub fn add(&mut self, name: &str, value: Option<&str>, display_name: Option<&Mlu>, display_value: Option<&Mlu>)
        requires
            old(self).wf(),
            display_name matches Some(m) ==> m.wf(),
            display_value matches Some(m) ==> m.wf(),
        ensures
            final(self).wf(),
            final(self)@ == old(self)@.push(
                (
                    name@,
                    match value {
                        Some(s) => Some(s@),
                        None => None::<Seq<char>>,
                    },
                    match display_name {
                        Some(m) => Some(m@),
                        None => None::<Seq<MluItem>>,
                    },
                    match display_value {
                        Some(m) => Some(m@),
                        None => None::<Seq<MluItem>>,
                    },
                ),
            ),
    {
        let e = DictEntry {
            name: name.to_string(),
            value: clone_text(value),
            display_name: clone_mlu(display_name),
            display_value: clone_mlu(display_value),
        };
        self.push(e);
    }

    /// Add an entry at the end.
    pub(crate) fn push(&mut self, e: DictEntry)
        requires
            old(self).wf(),
            e.wf(),
        ensures
            final(self).wf(),
            final(self)@ == old(self)@.push(e@),
    {
        let ghost old_view = self@;
        self.entries.push(e);
        assert(self@ =~= old_view.push(e@));
    }

    /// Number of entries.
    pub fn len(&self) -> (r: usize)
        ensures
            r == self@.len(),
    {
        self.entries.len()
    }

    /// Whether the dictionary has no entries.
    pub fn is_empty(&self) -> (r: bool)
        ensures
            r == (self@.len() == 0),
    {
        self.entries.len() == 0
    }

    /// The entry at `index`, if there is one.
    pub fn get(&self, index: usize) -> (r: Option<&DictEntry>)
        requires
            self.wf(),
        ensures
            r is Some <==> index < self@.len(),
            r matches Some(e) ==> e@ == self@[index as int] && e.wf(),
    {
        if index < self.entries.len() {
            Some(&self.entries[index])
        } else {
            None
        }
    }

    /// The entries in order.
    pub fn iter(&self) -> (r: std::slice::Iter<'_, DictEntry>)
        ensures
            vstd::std_specs::slice::into_iter_elts(r).len() == self@.len(),
            forall|i: int|
                0 <= i < self@.len() ==> (#[trigger] vstd::std_specs::slice::into_iter_elts(r)[i])@
                    == self@[i],
    {
        self.entries.as_slice().iter()
    }
}

impl Clone for Mlu {
    /// A copy with the same translations.
    fn clone(&self) -> (r: Self)
        ensures
            r@ == self@,
            self.wf() ==> r.wf(),
    {
        let entries = self.entries.clone();
        let pool = self.pool.clone();
        assert(entries@ =~= self.entries@);
        assert(pool@ =~= self.pool@);
        Mlu { entries, pool, texts: Ghost(self.texts@) }
    }
}

impl Default for Mlu {
    /// An empty text with no translations.
    fn default() -> (r: Self)
        ensures
            r.wf(),
            r@ == Seq::<MluItem>::empty(),
    {
        Mlu::new()
    }
}

} // verus!
