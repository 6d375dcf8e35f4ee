//! Reading back a saved profile: the bytes of every tag come back.
use vstd::prelude::*;
use crate::error::ErrorCode;
use crate::profile::{
    IccHeader, TagView, ProfileView, TagSignature, be32, bytes32, bytes16, bytes64, lemma_be32_bytes,
    tag_signature_value, tag_signature_of, law_tag_signature_round_trip, find_tag, find_tag_from,
    lemma_find_tag_from, follow_links, sigs_unique, sizes_match, raw_tag_read, dir_tags,
    dir_tags_from, dir_count, first_same_place, open_error, profile_bytes, header_bytes, header_part1,
    header_part2, header_part3, header_part4, dir_bytes, data_upto, layout_upto, resolve_upto,
    align4, zeros, save_fits, spec_validated_version, ICC_MAGIC_NUMBER, tags_after_write,
};

verus! {

/// `b` holds `x` from position `o` on.
pub open spec fn bytes_at(b: Seq<u8>, o: int, x: Seq<u8>) -> bool {
    0 <= o && o + x.len() <= b.len() && b.subrange(o, o + x.len()) == x
}

proof fn lemma_bytes_split(b: Seq<u8>, o: int, x: Seq<u8>, y: Seq<u8>)
    requires
        bytes_at(b, o, x + y),
    ensures
        bytes_at(b, o, x),
        bytes_at(b, o + x.len(), y),
{
    assert(b.subrange(o, o + x.len()) =~= (x + y).subrange(0, x.len() as int));
    assert((x + y).subrange(0, x.len() as int) =~= x);
    assert forall|i: int| 0 <= i < y.len() implies b.subrange(o + x.len(), o + x.len() + y.len())[i] == y[i] by {
        assert(b.subrange(o, o + (x + y).len())[x.len() + i] == (x + y)[x.len() + i]);
    }
    assert(b.subrange(o + x.len(), o + x.len() + y.len()) =~= y);
}

proof fn lemma_be32_at(b: Seq<u8>, o: int, v: u32)
    requires
        bytes_at(b, o, bytes32(v)),
    ensures
        be32(b, o) == v,
{
    lemma_be32_bytes(v);
    let x = bytes32(v);
    assert(b.subrange(o, o + 4)[0] == x[0]);
    assert(b.subrange(o, o + 4)[1] == x[1]);
    assert(b.subrange(o, o + 4)[2] == x[2]);
    assert(b.subrange(o, o + 4)[3] == x[3]);
}


proof fn lemma_bytes_sub(b: Seq<u8>, o: int, x: Seq<u8>, i: int, j: int)
    requires
        bytes_at(b, o, x),
        0 <= i <= j <= x.len(),
    ensures
        bytes_at(b, o + i, x.subrange(i, j)),
{
    assert forall|k: int| 0 <= k < j - i implies b.subrange(o + i, o + j)[k] == x.subrange(i, j)[k] by {
        assert(b.subrange(o, o + x.len())[i + k] == x[i + k]);
    }
    assert(b.subrange(o + i, o + j) =~= x.subrange(i, j));
}

proof fn lemma_part1_fields(b: Seq<u8>, h: IccHeader, total: u32)
    requires
        bytes_at(b, 0, header_part1(h, total)),
    ensures
        be32(b, 0) == total,
        be32(b, 8) == h.version,
        header_part1(h, total).len() == 24,
{
    let a = bytes32(total);
    let c = bytes32(h.cmm_id);
    let v = bytes32(h.version);
    let rest = bytes32(crate::sig::profile_class_signature_value(h.device_class)) + bytes32(
        crate::sig::color_space_signature_value(h.color_space),
    ) + bytes32(crate::sig::color_space_signature_value(h.pcs));
    assert(header_part1(h, total) =~= a + (c + (v + rest)));
    lemma_bytes_split(b, 0, a, c + (v + rest));
    lemma_bytes_split(b, 4, c, v + rest);
    lemma_bytes_split(b, 8, v, rest);
    lemma_be32_at(b, 0, total);
    lemma_be32_at(b, 8, h.version);
}

proof fn lemma_part3_fields(b: Seq<u8>, o: int, h: IccHeader)
    requires
        bytes_at(b, o, header_part3(h)),
    ensures
        be32(b, o) == h.magic,
        header_part3(h).len() == 32,
{
    let m = bytes32(h.magic);
    let rest = bytes32(crate::sig::platform_signature_value(h.platform)) + bytes32(h.flags) + bytes32(
        h.manufacturer,
    ) + bytes32(h.model) + bytes64(h.attributes) + bytes32(h.rendering_intent);
    assert(header_part3(h) =~= m + rest);
    lemma_bytes_split(b, o, m, rest);
    lemma_be32_at(b, o, h.magic);
}

proof fn lemma_header_fields(b: Seq<u8>, h: IccHeader, total: u32)
    requires
        bytes_at(b, 0, header_bytes(h, total)),
    ensures
        be32(b, 0) == total,
        be32(b, 8) == h.version,
        be32(b, 36) == h.magic,
        header_bytes(h, total).len() == 128,
{
    let p1 = header_part1(h, total);
    let p2 = header_part2(h);
    let p3 = header_part3(h);
    let p4 = header_part4(h);
    let pid = h.profile_id@;
    let res = h.reserved@;
    assert(header_bytes(h, total) == p1 + p2 + p3 + p4 + pid + res);
    lemma_bytes_split(b, 0, p1 + p2 + p3 + p4 + pid, res);
    lemma_bytes_split(b, 0, p1 + p2 + p3 + p4, pid);
    lemma_bytes_split(b, 0, p1 + p2 + p3, p4);
    lemma_bytes_split(b, 0, p1 + p2, p3);
    lemma_bytes_split(b, 0, p1, p2);
    lemma_part1_fields(b, h, total);
    assert(p2.len() == 12);
    lemma_part3_fields(b, 36, h);
    assert(p4.len() == 16);
}


/// Every unlinked tag holds its bytes.
pub open spec fn all_loaded(tags: Seq<TagView>) -> bool {
    forall|i: int| 0 <= i < tags.len() && (#[trigger] tags[i]).linked is None ==> tags[i].data is Some
}

proof fn lemma_layout_prefix(tags: Seq<TagView>, k: int, n: int)
    requires
        0 <= k <= n <= tags.len(),
    ensures
        layout_upto(tags, n).0.len() == n,
        layout_upto(tags, n).1.len() == n,
        layout_upto(tags, n).0.subrange(0, k) == layout_upto(tags, k).0,
        layout_upto(tags, n).1.subrange(0, k) == layout_upto(tags, k).1,
        layout_upto(tags, k).2 <= layout_upto(tags, n).2,
        layout_upto(tags, k).2 >= 132 + 12 * tags.len(),
    decreases n,
{
    if n > 0 {
        if k < n {
            lemma_layout_prefix(tags, k, n - 1);
            lemma_layout_prefix(tags, n - 1, n - 1);
            let (o, s, c) = layout_upto(tags, n - 1);
            assert(c <= align4(c)) by (nonlinear_arith)
                requires
                    c >= 0,
            ;
            assert(layout_upto(tags, n).0.subrange(0, k) =~= layout_upto(tags, n - 1).0.subrange(0, k));
            assert(layout_upto(tags, n).1.subrange(0, k) =~= layout_upto(tags, n - 1).1.subrange(0, k));
        } else {
            lemma_layout_prefix(tags, n - 1, n - 1);
            assert(layout_upto(tags, n).0.subrange(0, k) =~= layout_upto(tags, n).0);
            assert(layout_upto(tags, n).1.subrange(0, k) =~= layout_upto(tags, n).1);
        }
    } else {
        assert(layout_upto(tags, n).0.subrange(0, k) =~= layout_upto(tags, k).0);
        assert(layout_upto(tags, n).1.subrange(0, k) =~= layout_upto(tags, k).1);
    }
}

/// Where the unlinked tag `m` goes, and its size.
proof fn lemma_layout_entry(tags: Seq<TagView>, m: int)
    requires
        0 <= m < tags.len(),
        tags[m].linked is None,
    ensures
        layout_upto(tags, tags.len() as int).0[m] == align4(layout_upto(tags, m).2),
        layout_upto(tags, tags.len() as int).1[m] == tags[m].size,
        layout_upto(tags, m).2 <= align4(layout_upto(tags, m).2),
        align4(layout_upto(tags, m).2) + tags[m].size == layout_upto(tags, m + 1).2,
        layout_upto(tags, m + 1).2 <= layout_upto(tags, tags.len() as int).2,
        132 + 12 * tags.len() <= layout_upto(tags, m).2,
{
    let n = tags.len() as int;
    lemma_layout_prefix(tags, m + 1, n);
    lemma_layout_prefix(tags, m, m);
    let c = layout_upto(tags, m).2;
    assert(c <= align4(c)) by (nonlinear_arith)
        requires
            c >= 0,
    ;
    assert(layout_upto(tags, n).0[m] == layout_upto(tags, n).0.subrange(0, m + 1)[m]);
    assert(layout_upto(tags, n).1[m] == layout_upto(tags, n).1.subrange(0, m + 1)[m]);
}

proof fn lemma_data_positions(tags: Seq<TagView>, k: int)
    requires
        0 <= k <= tags.len(),
        sizes_match(tags),
        all_loaded(tags),
    ensures
        data_upto(tags, layout_upto(tags, tags.len() as int).0, k).1 == layout_upto(tags, k).2,
        data_upto(tags, layout_upto(tags, tags.len() as int).0, k).0.len() == layout_upto(tags, k).2 - (132
            + 12 * tags.len()),
    decreases k,
{
    if k > 0 {
        lemma_data_positions(tags, k - 1);
        if tags[k - 1].linked is None {
            lemma_layout_entry(tags, k - 1);
            assert(tags[k - 1].data is Some);
        }
    }
}

proof fn lemma_data_prefix(tags: Seq<TagView>, o: Seq<int>, k: int, n: int)
    requires
        0 <= k <= n,
    ensures
        data_upto(tags, o, n).0.subrange(0, data_upto(tags, o, k).0.len() as int) == data_upto(tags, o, k).0,
        data_upto(tags, o, k).0.len() <= data_upto(tags, o, n).0.len(),
    decreases n,
{
    if k < n {
        lemma_data_prefix(tags, o, k, n - 1);
        let a = data_upto(tags, o, n - 1).0;
        let x = data_upto(tags, o, k).0;
        assert(data_upto(tags, o, n).0.subrange(0, x.len() as int) =~= a.subrange(0, x.len() as int));
    } else {
        assert(data_upto(tags, o, n).0.subrange(0, data_upto(tags, o, k).0.len() as int) =~= data_upto(tags, o, n).0);
    }
}

/// The bytes of the unlinked tag `m` stand at its offset in the data part.
proof fn lemma_data_at(tags: Seq<TagView>, m: int)
    requires
        0 <= m < tags.len(),
        tags[m].linked is None,
        sizes_match(tags),
        all_loaded(tags),
    ensures
        ({
            let o = layout_upto(tags, tags.len() as int).0;
            let base = 132 + 12 * tags.len();
            bytes_at(data_upto(tags, o, tags.len() as int).0, o[m] - base, tags[m].data.unwrap())
        }),
{
    let n = tags.len() as int;
    let o = layout_upto(tags, n).0;
    let base = 132 + 12 * tags.len();
    let d = tags[m].data.unwrap();
    lemma_layout_entry(tags, m);
    lemma_data_positions(tags, m);
    lemma_data_positions(tags, m + 1);
    let prev = data_upto(tags, o, m);
    let pad = o[m] - prev.1;
    assert(data_upto(tags, o, m + 1).0 == prev.0 + zeros(pad) + d);
    lemma_data_prefix(tags, o, m + 1, n);
    let whole = data_upto(tags, o, n).0;
    let upto = data_upto(tags, o, m + 1).0;
    assert(bytes_at(whole, 0, upto)) by {
        assert(whole.subrange(0, upto.len() as int) == upto);
    }
    lemma_bytes_split(whole, 0, prev.0 + zeros(pad), d);
    assert((prev.0 + zeros(pad)).len() == o[m] - base);
}


proof fn lemma_resolve_keeps_unlinked(tags: Seq<TagView>, o: Seq<int>, s: Seq<int>, k: int, i: int)
    requires
        0 <= k <= tags.len(),
        0 <= i < o.len(),
        o.len() == s.len() == tags.len(),
        tags[i].linked is None,
    ensures
        resolve_upto(tags, o, s, k).0.len() == o.len(),
        resolve_upto(tags, o, s, k).1.len() == s.len(),
        resolve_upto(tags, o, s, k).0[i] == o[i],
        resolve_upto(tags, o, s, k).1[i] == s[i],
    decreases k,
{
    if k > 0 {
        lemma_resolve_keeps_unlinked(tags, o, s, k - 1, i);
    }
}

proof fn lemma_resolve_linked(tags: Seq<TagView>, o: Seq<int>, s: Seq<int>, k: int, e: int, j: int)
    requires
        0 <= e < k <= tags.len(),
        o.len() == s.len() == tags.len(),
        tags[e].linked matches Some(d) && find_tag(tags, d) == Some(j),
        0 <= j < tags.len(),
        tags[j].linked is None,
    ensures
        resolve_upto(tags, o, s, k).0[e] == o[j],
        resolve_upto(tags, o, s, k).1[e] == s[j],
    decreases k,
{
    lemma_resolve_keeps_unlinked(tags, o, s, k - 1, j);
    lemma_resolve_keeps_unlinked(tags, o, s, k, j);
    if k - 1 > e {
        lemma_resolve_linked(tags, o, s, k - 1, e, j);
    }
}

proof fn lemma_dir_entry(b: Seq<u8>, o: int, tags: Seq<TagView>, ro: Seq<int>, rs: Seq<int>, m: int, i: int)
    requires
        bytes_at(b, o, dir_bytes(tags, ro, rs, m)),
        0 <= i < m <= tags.len(),
    ensures
        be32(b, o + 12 * i) == tag_signature_value(tags[i].sig),
        be32(b, o + 12 * i + 4) == ro[i] as u32,
        be32(b, o + 12 * i + 8) == rs[i] as u32,
    decreases m,
{
    let prev = dir_bytes(tags, ro, rs, m - 1);
    let e = bytes32(tag_signature_value(tags[m - 1].sig)) + bytes32(ro[m - 1] as u32) + bytes32(rs[m - 1] as u32);
    assert(dir_bytes(tags, ro, rs, m) == prev + e);
    lemma_bytes_split(b, o, prev, e);
    if i < m - 1 {
        lemma_dir_entry(b, o, tags, ro, rs, m - 1, i);
    } else {
        crate::profile::lemma_dir_len_pub(tags, ro, rs, m - 1);
        let x = bytes32(tag_signature_value(tags[m - 1].sig));
        let y = bytes32(ro[m - 1] as u32);
        let z = bytes32(rs[m - 1] as u32);
        lemma_bytes_split(b, o + prev.len(), x + y, z);
        lemma_bytes_split(b, o + prev.len(), x, y);
        lemma_be32_at(b, o + 12 * i, tag_signature_value(tags[m - 1].sig));
        lemma_be32_at(b, o + 12 * i + 4, ro[m - 1] as u32);
        lemma_be32_at(b, o + 12 * i + 8, rs[m - 1] as u32);
    }
}

proof fn lemma_find_unique(acc: Seq<TagView>, j: int)
    requires
        sigs_unique(acc),
        0 <= j < acc.len(),
    ensures
        find_tag(acc, acc[j].sig) == Some(j),
{
    lemma_find_tag_from(acc, acc[j].sig, 0);
    if let Some(k) = find_tag(acc, acc[j].sig) {
        if k != j {
            if k < j {
                assert(acc[k].sig != acc[j].sig);
            } else {
                assert(acc[j].sig != acc[k].sig);
            }
        }
    }
}

proof fn lemma_find_push(acc: Seq<TagView>, x: TagView, sg: TagSignature)
    ensures
        find_tag(acc, sg) matches Some(k) ==> find_tag(acc.push(x), sg) == Some(k),
        (find_tag(acc, sg) is None && x.sig == sg) ==> find_tag(acc.push(x), sg) == Some(acc.len() as int),
        (find_tag(acc, sg) is None && x.sig != sg) ==> find_tag(acc.push(x), sg) is None,
{
    lemma_find_push_from(acc, x, sg, 0);
}

proof fn lemma_find_push_from(acc: Seq<TagView>, x: TagView, sg: TagSignature, i: int)
    requires
        0 <= i,
    ensures
        find_tag_from(acc, sg, i) matches Some(k) ==> find_tag_from(acc.push(x), sg, i) == Some(k),
        (find_tag_from(acc, sg, i) is None && x.sig == sg && i <= acc.len()) ==> find_tag_from(acc.push(x), sg, i)
            == Some(acc.len() as int),
        (find_tag_from(acc, sg, i) is None && x.sig != sg) ==> find_tag_from(acc.push(x), sg, i) is None,
    decreases acc.len() + 1 - i,
{
    if i < acc.len() {
        assert(acc.push(x)[i] == acc[i]);
        if acc[i].sig != sg {
            lemma_find_push_from(acc, x, sg, i + 1);
        }
    } else if i == acc.len() {
        assert(acc.push(x)[i] == x);
        assert(find_tag_from(acc.push(x), sg, i + 1) is None);
    }
}

proof fn lemma_first_same_place(acc: Seq<TagView>, off: u32, size: u32, j: int)
    requires
        0 <= j,
    ensures
        first_same_place(acc, off, size, j) matches Some(k) ==> j <= k < acc.len() && acc[k].offset == off
            && acc[k].size == size && forall|m: int| j <= m < k ==> !(acc[m].offset == off && acc[m].size == size),
    decreases acc.len() - j,
{
    if j < acc.len() && !(acc[j].offset == off && acc[j].size == size) {
        lemma_first_same_place(acc, off, size, j + 1);
    }
}


/// What the directory of `b` holds for the tags: each entry's signature,
/// and for an unlinked tag a non-zero offset `o[e]` and its non-zero size,
/// within the total size.
pub open spec fn dir_facts(b: Seq<u8>, tags: Seq<TagView>, o: Seq<int>) -> bool {
    &&& dir_count(b) == tags.len()
    &&& o.len() == tags.len()
    &&& forall|e: int| 0 <= e < tags.len() ==> be32(b, 132 + 12 * e) == tag_signature_value(#[trigger] tags[e].sig)
    &&& forall|e: int|
        0 <= e < tags.len() && (#[trigger] saved_as(tags, e)) is Some ==> {
            &&& be32(b, 132 + 12 * e + 4) == o[saved_as(tags, e)->0]
            &&& be32(b, 132 + 12 * e + 8) == tags[saved_as(tags, e)->0].size
            &&& 0 < o[saved_as(tags, e)->0]
            &&& 0 < tags[saved_as(tags, e)->0].size
            &&& o[saved_as(tags, e)->0] + tags[saved_as(tags, e)->0].size <= be32(b, 0)
        }
}

/// The tag whose bytes tag `e` is saved with: itself when it is unlinked,
/// the tag it is linked to when that one is present and unlinked.
pub open spec fn saved_as(tags: Seq<TagView>, e: int) -> Option<int> {
    match tags[e].linked {
        None => Some(e),
        Some(d) => match find_tag(tags, d) {
            Some(j) => if tags[j].linked is None {
                Some(j)
            } else {
                None
            },
            None => None,
        },
    }
}

/// No tag read so far holds bytes yet.
#[verifier::opaque]
pub open spec fn no_data(acc: Seq<TagView>) -> bool {
    forall|k: int| 0 <= k < acc.len() ==> (#[trigger] acc[k]).data is None
}

/// The signatures of entries from `i` on are not among the tags read so far.
#[verifier::opaque]
pub open spec fn later_absent(acc: Seq<TagView>, tags: Seq<TagView>, i: int) -> bool {
    forall|e: int| i <= e < tags.len() ==> find_tag(acc, #[trigger] tags[e].sig) is None
}

/// Tag `k` is unlinked, or linked to an earlier unlinked tag at the same place.
pub open spec fn link_ok(acc: Seq<TagView>, k: int) -> bool {
    acc[k].linked matches Some(sg) ==> (find_tag(acc, sg) matches Some(j) && j < k && acc[j].linked is None
        && acc[j].offset == acc[k].offset && acc[j].size == acc[k].size)
}

#[verifier::opaque]
pub open spec fn links_ok(acc: Seq<TagView>) -> bool {
    forall|k: int| 0 <= k < acc.len() ==> #[trigger] link_ok(acc, k)
}

/// The unlinked tag `e` was read, at its place.
pub open spec fn present(acc: Seq<TagView>, tags: Seq<TagView>, o: Seq<int>, e: int) -> bool {
    &&& find_tag(acc, tags[e].sig) matches Some(k)
    &&& saved_as(tags, e) matches Some(j)
    &&& acc[k].offset == o[j]
    &&& acc[k].size == tags[j].size
}

#[verifier::opaque]
pub open spec fn earlier_present(acc: Seq<TagView>, tags: Seq<TagView>, o: Seq<int>, i: int) -> bool {
    forall|e: int| 0 <= e < i && saved_as(tags, e) is Some ==> #[trigger] present(acc, tags, o, e)
}

/// What the tags read so far (from entries before `i`) satisfy.
pub open spec fn acc_ok(acc: Seq<TagView>, tags: Seq<TagView>, o: Seq<int>, i: int) -> bool {
    &&& no_data(acc)
    &&& later_absent(acc, tags, i)
    &&& sigs_unique(acc)
    &&& links_ok(acc)
    &&& earlier_present(acc, tags, o, i)
}

proof fn lemma_keep_absent(acc: Seq<TagView>, tags: Seq<TagView>, i: int, x: TagView)
    requires
        sigs_unique(tags),
        0 <= i < tags.len(),
        later_absent(acc, tags, i),
        x.sig == tags[i].sig,
    ensures
        later_absent(acc.push(x), tags, i + 1),
        find_tag(acc, x.sig) is None,
{
    reveal(later_absent);
    assert(find_tag(acc, tags[i].sig) is None);
    assert forall|f: int| i + 1 <= f < tags.len() implies find_tag(acc.push(x), #[trigger] tags[f].sig) is None by {
        assert(find_tag(acc, tags[f].sig) is None);
        assert(tags[i].sig != tags[f].sig);
        lemma_find_push(acc, x, tags[f].sig);
    }
}

proof fn lemma_keep_unique(acc: Seq<TagView>, x: TagView)
    requires
        sigs_unique(acc),
        find_tag(acc, x.sig) is None,
    ensures
        sigs_unique(acc.push(x)),
{
    lemma_find_tag_from(acc, x.sig, 0);
    let acc2 = acc.push(x);
    assert forall|a: int, c: int| 0 <= a < c < acc2.len() implies acc2[a].sig != acc2[c].sig by {
        if c == acc.len() {
            assert(acc[a].sig != x.sig);
        } else {
            assert(acc2[a] == acc[a] && acc2[c] == acc[c]);
        }
    }
}

proof fn lemma_keep_data(acc: Seq<TagView>, x: TagView)
    requires
        no_data(acc),
        x.data is None,
    ensures
        no_data(acc.push(x)),
{
    reveal(no_data);
    assert forall|k: int| 0 <= k < acc.push(x).len() implies (#[trigger] acc.push(x)[k]).data is None by {
        if k < acc.len() {
            assert(acc.push(x)[k] == acc[k]);
        }
    }
}

proof fn lemma_keep_links(acc: Seq<TagView>, x: TagView)
    requires
        sigs_unique(acc),
        links_ok(acc),
        find_tag(acc, x.sig) is None,
        x.linked == match first_same_place(acc, x.offset, x.size, 0) {
            Some(j) => Some(acc[j].sig),
            None => None::<TagSignature>,
        },
    ensures
        links_ok(acc.push(x)),
{
    reveal(links_ok);
    let acc2 = acc.push(x);
    assert forall|k: int| 0 <= k < acc2.len() implies #[trigger] link_ok(acc2, k) by {
        if k < acc.len() {
            assert(link_ok(acc, k));
            assert(acc2[k] == acc[k]);
            if let Some(sg) = acc[k].linked {
                lemma_find_push(acc, x, sg);
                lemma_find_tag_from(acc, sg, 0);
                let j = find_tag(acc, sg).unwrap();
                assert(acc2[j] == acc[j]);
            }
        } else {
            assert(acc2[k] == x);
            lemma_first_same_place(acc, x.offset, x.size, 0);
            if let Some(j0) = first_same_place(acc, x.offset, x.size, 0) {
                lemma_find_unique(acc, j0);
                lemma_find_push(acc, x, acc[j0].sig);
                assert(link_ok(acc, j0));
                if let Some(sg2) = acc[j0].linked {
                    lemma_find_tag_from(acc, sg2, 0);
                    let j2 = find_tag(acc, sg2).unwrap();
                    assert(j2 < j0);
                    assert(acc[j2].offset == x.offset && acc[j2].size == x.size);
                    assert(!(acc[j2].offset == x.offset && acc[j2].size == x.size));
                    assert(false);
                }
                assert(acc2[j0] == acc[j0]);
            }
        }
    }
}

proof fn lemma_keep_present(acc: Seq<TagView>, tags: Seq<TagView>, o: Seq<int>, i: int, x: TagView)
    requires
        0 <= i < tags.len(),
        earlier_present(acc, tags, o, i),
        find_tag(acc, x.sig) is None,
        x.sig == tags[i].sig,
        saved_as(tags, i) matches Some(j) ==> x.offset == o[j] && x.size == tags[j].size,
    ensures
        earlier_present(acc.push(x), tags, o, i + 1),
{
    reveal(earlier_present);
    let acc2 = acc.push(x);
    assert forall|f: int| 0 <= f < i + 1 && saved_as(tags, f) is Some implies #[trigger] present(acc2, tags, o, f) by {
        if f < i {
            assert(present(acc, tags, o, f));
            lemma_find_push(acc, x, tags[f].sig);
            lemma_find_tag_from(acc, tags[f].sig, 0);
            let k = find_tag(acc, tags[f].sig).unwrap();
            assert(acc2[k] == acc[k]);
        } else {
            lemma_find_push(acc, x, x.sig);
            assert(acc2[acc.len() as int] == x);
        }
    }
}

proof fn lemma_skip_present(acc: Seq<TagView>, tags: Seq<TagView>, o: Seq<int>, i: int)
    requires
        0 <= i < tags.len(),
        earlier_present(acc, tags, o, i),
        later_absent(acc, tags, i),
        saved_as(tags, i) is None,
    ensures
        earlier_present(acc, tags, o, i + 1),
        later_absent(acc, tags, i + 1),
{
    reveal(earlier_present);
    reveal(later_absent);
    assert forall|f: int| 0 <= f < i + 1 && saved_as(tags, f) is Some implies #[trigger] present(acc, tags, o, f) by {
        assert(f < i);
    }
}

proof fn lemma_dir_parse(b: Seq<u8>, tags: Seq<TagView>, o: Seq<int>, i: int, acc: Seq<TagView>)
    requires
        dir_facts(b, tags, o),
        sigs_unique(tags),
        0 <= i <= tags.len(),
        acc_ok(acc, tags, o, i),
    ensures
        acc_ok(dir_tags_from(b, i, acc), tags, o, tags.len() as int),
    decreases tags.len() - i,
{
    if i < tags.len() {
        let e = 132 + 12 * i;
        let off = be32(b, e + 4);
        let size = be32(b, e + 8);
        assert(be32(b, e) == tag_signature_value(tags[i].sig));
        law_tag_signature_round_trip(tags[i].sig);
        if size == 0 || off == 0 || off + size > be32(b, 0) {
            assert(saved_as(tags, i) is None);
            lemma_skip_present(acc, tags, o, i);
            lemma_dir_parse(b, tags, o, i + 1, acc);
        } else {
            let linked = match first_same_place(acc, off, size, 0) {
                Some(j) => Some(acc[j].sig),
                None => None,
            };
            let x = TagView { sig: tags[i].sig, offset: off, size, linked, data: None, save_as_raw: false };
            assert(dir_tags_from(b, i, acc) == dir_tags_from(b, i + 1, acc.push(x)));
            lemma_keep_absent(acc, tags, i, x);
            lemma_keep_unique(acc, x);
            lemma_keep_data(acc, x);
            lemma_keep_links(acc, x);
            lemma_keep_present(acc, tags, o, i, x);
            lemma_dir_parse(b, tags, o, i + 1, acc.push(x));
        }
    }
}


/// What saving needs for every tag to come back: at most 100 tags, no
/// signature twice, every unlinked tag holding its (non-empty) bytes, a
/// total size within 32 bits, and a header that reading accepts.
pub open spec fn saved_tags_come_back(h: IccHeader, tags: Seq<TagView>) -> bool {
    &&& tags.len() <= 100
    &&& sigs_unique(tags)
    &&& sizes_match(tags)
    &&& all_loaded(tags)
    &&& save_fits(tags)
    &&& forall|i: int| 0 <= i < tags.len() && (#[trigger] tags[i]).linked is None ==> tags[i].size > 0
    &&& h.magic == ICC_MAGIC_NUMBER
    &&& spec_validated_version(h.version) <= 0x05000000
}

proof fn lemma_bytes_facts(h: IccHeader, tags: Seq<TagView>)
    requires
        saved_tags_come_back(h, tags),
    ensures
        ({
            let b = profile_bytes(h, tags);
            let n = tags.len() as int;
            let l = layout_upto(tags, n);
            &&& dir_facts(b, tags, l.0)
            &&& be32(b, 36) == ICC_MAGIC_NUMBER
            &&& be32(b, 8) == h.version
            &&& b.len() >= 132 + 12 * n
            &&& forall|m: int|
                0 <= m < n && (#[trigger] tags[m]).linked is None ==> bytes_at(b, l.0[m], tags[m].data.unwrap())
        }),
{
    let n = tags.len() as int;
    let l = layout_upto(tags, n);
    let rsv = resolve_upto(tags, l.0, l.1, n);
    let total = align4(l.2) as u32;
    let hb = header_bytes(h, total);
    let cnt = bytes32(n as u32);
    let dir = dir_bytes(tags, rsv.0, rsv.1, n);
    let data = data_upto(tags, l.0, n).0;
    let b = profile_bytes(h, tags);
    assert(b == hb + cnt + dir + data);
    assert(bytes_at(b, 0, b)) by {
        assert(b.subrange(0, b.len() as int) =~= b);
    }
    lemma_bytes_split(b, 0, hb + cnt + dir, data);
    lemma_bytes_split(b, 0, hb + cnt, dir);
    lemma_bytes_split(b, 0, hb, cnt);
    lemma_header_fields(b, h, total);
    lemma_be32_at(b, 128, n as u32);
    crate::profile::lemma_dir_len_pub(tags, rsv.0, rsv.1, n);
    lemma_layout_prefix(tags, n, n);
    assert(l.2 <= align4(l.2)) by (nonlinear_arith)
        requires
            l.2 >= 0,
    ;
    assert forall|e: int| 0 <= e < n implies be32(b, 132 + 12 * e) == tag_signature_value(#[trigger] tags[e].sig) by {
        lemma_dir_entry(b, 132, tags, rsv.0, rsv.1, n, e);
    }
    assert forall|e: int| 0 <= e < n && (#[trigger] saved_as(tags, e)) is Some implies {
        &&& be32(b, 132 + 12 * e + 4) == l.0[saved_as(tags, e)->0]
        &&& be32(b, 132 + 12 * e + 8) == tags[saved_as(tags, e)->0].size
        &&& 0 < l.0[saved_as(tags, e)->0]
        &&& 0 < tags[saved_as(tags, e)->0].size
        &&& l.0[saved_as(tags, e)->0] + tags[saved_as(tags, e)->0].size <= be32(b, 0)
    } by {
        let j = saved_as(tags, e)->0;
        lemma_dir_entry(b, 132, tags, rsv.0, rsv.1, n, e);
        if tags[e].linked is None {
            lemma_resolve_keeps_unlinked(tags, l.0, l.1, n, e);
        } else {
            lemma_find_tag_from(tags, tags[e].linked->0, 0);
            lemma_resolve_linked(tags, l.0, l.1, n, e, j);
        }
        lemma_layout_entry(tags, j);
    }
    assert forall|m: int| 0 <= m < n && (#[trigger] tags[m]).linked is None implies bytes_at(b, l.0[m], tags[m].data.unwrap()) by {
        lemma_data_at(tags, m);
        lemma_layout_entry(tags, m);
        let base = 132 + 12 * n;
        let d = tags[m].data.unwrap();
        lemma_bytes_sub(b, base, data, l.0[m] - base, l.0[m] - base + d.len());
    }
}

proof fn lemma_read_from_dir(b: Seq<u8>, h: IccHeader, f: Seq<TagView>, sig: TagSignature, off: int, d: Seq<u8>)
    requires
        no_data(f),
        links_ok(f),
        sigs_unique(f),
        find_tag(f, sig) matches Some(k) && f[k].offset == off && f[k].size == d.len(),
        bytes_at(b, off, d),
    ensures
        raw_tag_read(ProfileView { header: h, tags: f, source: Some(b) }, sig).0 == Ok::<Seq<u8>, ErrorCode>(d),
{
    reveal(no_data);
    reveal(links_ok);
    lemma_find_tag_from(f, sig, 0);
    let k = find_tag(f, sig).unwrap();
    assert(link_ok(f, k));
    match f[k].linked {
        None => {
            assert(follow_links(f, sig, 100) == Some(k));
        },
        Some(sg) => {
            lemma_find_tag_from(f, sg, 0);
            let j = find_tag(f, sg).unwrap();
            assert(follow_links(f, sg, 99) == Some(j));
            assert(follow_links(f, sig, 100) == Some(j));
            assert(f[j].data is None);
        },
    }
}

/// Saving a profile and reading the bytes back: reading accepts them, every
/// unlinked tag reads back with the bytes it held, and a tag linked to a
/// present, unlinked tag reads back with that tag's bytes.
pub proof fn law_profile_round_trip(h: IccHeader, tags: Seq<TagView>)
    requires
        saved_tags_come_back(h, tags),
    ensures
        open_error(profile_bytes(h, tags)) is None,
        forall|m: int|
            0 <= m < tags.len() && (#[trigger] saved_as(tags, m)) is Some ==> raw_tag_read(
                ProfileView { header: h, tags: dir_tags(profile_bytes(h, tags)), source: Some(profile_bytes(h, tags)) },
                tags[m].sig,
            ).0 == Ok::<Seq<u8>, ErrorCode>(tags[saved_as(tags, m)->0].data.unwrap()),
        forall|m: int|
            0 <= m < tags.len() && (#[trigger] tags[m]).linked is None ==> raw_tag_read(
                ProfileView { header: h, tags: dir_tags(profile_bytes(h, tags)), source: Some(profile_bytes(h, tags)) },
                tags[m].sig,
            ).0 == Ok::<Seq<u8>, ErrorCode>(tags[m].data.unwrap()),
{
    let b = profile_bytes(h, tags);
    let n = tags.len() as int;
    let o = layout_upto(tags, n).0;
    lemma_bytes_facts(h, tags);
    assert(acc_ok(Seq::<TagView>::empty(), tags, o, 0)) by {
        reveal(no_data);
        reveal(later_absent);
        reveal(links_ok);
        reveal(earlier_present);
        assert forall|e: int| 0 <= e < tags.len() implies find_tag(Seq::<TagView>::empty(), #[trigger] tags[e].sig) is None by {
        }
    }
    lemma_dir_parse(b, tags, o, 0, Seq::empty());
    let f = dir_tags(b);
    assert(sigs_unique(f));
    assert forall|m: int| 0 <= m < tags.len() && (#[trigger] tags[m]).linked is None implies raw_tag_read(
        ProfileView { header: h, tags: f, source: Some(b) },
        tags[m].sig,
    ).0 == Ok::<Seq<u8>, ErrorCode>(tags[m].data.unwrap()) by {
        reveal(earlier_present);
        assert(present(f, tags, o, m));
        let d = tags[m].data.unwrap();
        assert(d.len() == tags[m].size);
        lemma_read_from_dir(b, h, f, tags[m].sig, o[m], d);
    }
    assert forall|m: int| 0 <= m < tags.len() && (#[trigger] saved_as(tags, m)) is Some implies raw_tag_read(
        ProfileView { header: h, tags: f, source: Some(b) },
        tags[m].sig,
    ).0 == Ok::<Seq<u8>, ErrorCode>(tags[saved_as(tags, m)->0].data.unwrap()) by {
        reveal(earlier_present);
        assert(present(f, tags, o, m));
        let j = saved_as(tags, m)->0;
        if tags[m].linked is Some {
            lemma_find_tag_from(tags, tags[m].linked->0, 0);
        }
        assert(tags[j].linked is None);
        let d = tags[j].data.unwrap();
        assert(d.len() == tags[j].size);
        assert(bytes_at(b, o[j], d));
        lemma_read_from_dir(b, h, f, tags[m].sig, o[j], d);
    }
}

proof fn lemma_find_first(tags: Seq<TagView>, sig: TagSignature, i: int, k: int)
    requires
        0 <= i <= k < tags.len(),
        tags[k].sig == sig,
        forall|j: int| i <= j < k ==> tags[j].sig != sig,
    ensures
        find_tag_from(tags, sig, i) == Some(k),
    decreases k - i,
{
    if i < k {
        lemma_find_first(tags, sig, i + 1, k);
    }
}

/// Writing raw bytes to a tag and reading the tag back gives those bytes.
/// A tag already present keeps its place and is no longer linked; a new tag
/// goes last, while there are fewer than 100; with 100 tags a new one is a
/// range error. Every other tag keeps its place, links and bytes.
pub proof fn law_write_raw_then_read(v: ProfileView, sig: TagSignature, d: Seq<u8>)
    ensures
        match tags_after_write(v.tags, sig, d) {
            Ok(t2) => {
                let k = if find_tag(v.tags, sig) is Some {
                    find_tag(v.tags, sig)->0
                } else {
                    v.tags.len() as int
                };
                &&& raw_tag_read(ProfileView { tags: t2, ..v }, sig).0 == Ok::<Seq<u8>, ErrorCode>(d)
                &&& find_tag(t2, sig) == Some(k)
                &&& t2[k].linked is None
                &&& t2.len() == (if find_tag(v.tags, sig) is Some {
                    v.tags.len()
                } else {
                    v.tags.len() + 1
                })
                &&& forall|j: int| 0 <= j < v.tags.len() && j != k ==> #[trigger] t2[j] == v.tags[j]
            },
            Err(e) => e == ErrorCode::Range && find_tag(v.tags, sig) is None && v.tags.len() >= 100,
        },
{
    let tags = v.tags;
    lemma_find_tag_from(tags, sig, 0);
    match tags_after_write(tags, sig, d) {
        Ok(t2) => {
            let k = if find_tag(tags, sig) is Some {
                find_tag(tags, sig)->0
            } else {
                tags.len() as int
            };
            assert(forall|j: int| 0 <= j < k ==> #[trigger] t2[j].sig == tags[j].sig);
            lemma_find_first(t2, sig, 0, k);
            assert(follow_links(t2, sig, 100) == Some(k));
        },
        Err(e) => {},
    }
}

} // verus!
