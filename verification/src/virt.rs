//! Text tags of built-in profiles: description and copyright.
use vstd::prelude::*;
use crate::named::{CountryCode, LanguageCode, Mlu, MluItem};
use crate::profile::{Profile, TagSignature, TagView, tags_after_write};
use crate::tag_types::{
    MLU_TYPE_SIGNATURE, country_us, embedded_mlu_bytes, lang_en, mlu_dir, mlu_pool, mlu_type_bytes,
    mlu_written_text, write_mlu_type,
};
use crate::text::{utf16_encode, utf16be};
use crate::profile::push_be32;

verus! {

broadcast use vstd::string::group_string_axioms;

/// The translations a built-in profile's text gets: the text as the English
/// (US) entry when it is all ASCII, none otherwise.
pub open spec fn ascii_entry(text: &str) -> Seq<MluItem> {
    if vstd::string::is_ascii(text) {
        seq![(LanguageCode(lang_en()), CountryCode(country_us()), text@)]
    } else {
        Seq::empty()
    }
}

/// The copyright notice of built-in profiles.
pub const COPYRIGHT_NOTICE: &'static str = "No copyright, use freely";

/// The tags after writing the description and the copyright notice as
/// multi-localized text tags, in that order.
pub open spec fn tags_with_text(tags: Seq<TagView>, description: &str) -> Result<Seq<TagView>, crate::error::ErrorCode> {
    match tags_after_write(
        tags,
        TagSignature::ProfileDescription,
        embedded_mlu_bytes(ascii_entry(description)),
    ) {
        Ok(t) => tags_after_write(
            t,
            TagSignature::Copyright,
            embedded_mlu_bytes(ascii_entry(COPYRIGHT_NOTICE)),
        ),
        Err(e) => Err(e),
    }
}

proof fn lemma_encode_bound(t: Seq<char>)
    ensures
        utf16_encode(t).len() <= 2 * t.len(),
    decreases t.len(),
{
    if t.len() > 0 {
        lemma_encode_bound(t.skip(1));
    }
}

proof fn lemma_single_text(v: Seq<MluItem>)
    requires
        v.len() == 1,
    ensures
        mlu_written_text(v, 0) == v[0].2,
{
    let l = LanguageCode(crate::tag_types::code_or(v[0].0.0, lang_en()));
    let c = CountryCode(crate::tag_types::code_or(v[0].1.0, country_us()));
    assert(crate::named::first_exact(v, l, c, 1) is None);
    assert(crate::named::first_lang(v, l, 1) is None);
}

/// The tag bytes of a text of at most one entry are short.
proof fn lemma_one_entry_size(v: Seq<MluItem>)
    requires
        v.len() <= 1,
        v.len() == 1 ==> v[0].2.len() <= 0x1000_0000,
    ensures
        embedded_mlu_bytes(v).len() <= u32::MAX,
{
    if v.len() == 1 {
        let t = mlu_written_text(v, 0);
        lemma_single_text(v);
        lemma_encode_bound(t);
        assert(mlu_pool(v, 0).len() == 0);
        assert(mlu_pool(v, 1).len() == utf16be(t).len());
        assert(mlu_dir(v, 0).len() == 0);
        assert(mlu_dir(v, 1).len() == 12);
    } else {
        assert(mlu_pool(v, 0).len() == 0);
        assert(mlu_dir(v, 0).len() == 0);
    }
}

/// A text with the text as its English (US) entry when it is all ASCII.
fn ascii_mlu(text: &str) -> (r: Mlu)
    ensures
        r.wf(),
        r@ == ascii_entry(text),
{
    let mut m = Mlu::new();
    if text.is_ascii() {
        m.set_codes(LanguageCode([0x65u8, 0x6eu8]), CountryCode([0x55u8, 0x53u8]), text);
        assert(m@ =~= ascii_entry(text));
    } else {
        assert(m@ =~= ascii_entry(text));
    }
    m
}

/// The tag bytes of a multi-localized text: its type header and payload.
fn mlu_tag(m: &Mlu) -> (r: Vec<u8>)
    requires
        m.wf(),
        embedded_mlu_bytes(m@).len() <= u32::MAX,
    ensures
        r@ == embedded_mlu_bytes(m@),
{
    let mut out: Vec<u8> = Vec::new();
    push_be32(&mut out, MLU_TYPE_SIGNATURE);
    push_be32(&mut out, 0);
    write_mlu_type(&mut out, m);
    assert(out@ =~= embedded_mlu_bytes(m@));
    out
}

/// Write the description (as an English (US) text when all ASCII) and the
/// copyright notice of a built-in profile, as multi-localized text tags.
/// Both writes must succeed: the directory must have room for the tags.
pub fn set_text_tags_public(profile: &mut Profile, description: &str)
    requires
        old(profile).wf(),
        tags_with_text(old(profile)@.tags, description) is Ok,
        embedded_mlu_bytes(ascii_entry(description)).len() <= u32::MAX,
    ensures
        final(profile).wf(),
        final(profile)@.header == old(profile)@.header,
        final(profile)@.source == old(profile)@.source,
        tags_with_text(old(profile)@.tags, description) == Ok::<Seq<TagView>, crate::error::ErrorCode>(
            final(profile)@.tags,
        ),
{
    let desc = ascii_mlu(description);
    let desc_tag = mlu_tag(&desc);
    match profile.write_raw_tag(TagSignature::ProfileDescription, desc_tag.as_slice()) {
        Ok(_) => {},
        Err(_) => {
            assert(false);
            return;
        },
    }
    let copy = ascii_mlu(COPYRIGHT_NOTICE);
    proof {
        reveal_strlit("No copyright, use freely");
        lemma_one_entry_size(ascii_entry(COPYRIGHT_NOTICE));
    }
    let copy_tag = mlu_tag(&copy);
    match profile.write_raw_tag(TagSignature::Copyright, copy_tag.as_slice()) {
        Ok(_) => {},
        Err(_) => {
            assert(false);
        },
    }
}

} // verus!
