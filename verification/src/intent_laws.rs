//! What a profile implements: the table each rendering intent uses.
use vstd::prelude::*;
use crate::profile::{
    ProfileView, TagSignature, UsedDirection, find_tag, spec_is_clut, spec_is_intent_supported,
    spec_is_matrix_shaper,
};
use crate::sig::ProfileClassSignature;

verus! {

/// Which table each rendering intent uses, outside device links: as input,
/// perceptual (0) is looked up in AToB0, relative colorimetric (1) in
/// AToB1, saturation (2) in AToB2 and absolute colorimetric (3) shares
/// AToB1; as output the same with BToA0 to BToA2. An intent is implemented
/// as a table exactly when that tag is present, and no intent past 3 is.
/// An intent is supported exactly when it is implemented as a table or the
/// profile is a matrix-shaper.
pub proof fn law_clut_tag_per_intent(p: ProfileView, intent: u32, d: UsedDirection)
    requires
        p.header.device_class != ProfileClassSignature::Link,
    ensures
        spec_is_clut(p, 0, UsedDirection::AsInput) == (find_tag(p.tags, TagSignature::AToB0) is Some),
        spec_is_clut(p, 1, UsedDirection::AsInput) == (find_tag(p.tags, TagSignature::AToB1) is Some),
        spec_is_clut(p, 2, UsedDirection::AsInput) == (find_tag(p.tags, TagSignature::AToB2) is Some),
        spec_is_clut(p, 3, UsedDirection::AsInput) == (find_tag(p.tags, TagSignature::AToB1) is Some),
        spec_is_clut(p, 0, UsedDirection::AsOutput) == (find_tag(p.tags, TagSignature::BToA0) is Some),
        spec_is_clut(p, 1, UsedDirection::AsOutput) == (find_tag(p.tags, TagSignature::BToA1) is Some),
        spec_is_clut(p, 2, UsedDirection::AsOutput) == (find_tag(p.tags, TagSignature::BToA2) is Some),
        spec_is_clut(p, 3, UsedDirection::AsOutput) == (find_tag(p.tags, TagSignature::BToA1) is Some),
        intent > 3 ==> !spec_is_clut(p, intent, UsedDirection::AsInput) && !spec_is_clut(
            p,
            intent,
            UsedDirection::AsOutput,
        ),
        spec_is_clut(p, intent, UsedDirection::AsProof) == ((spec_is_clut(p, intent, UsedDirection::AsInput)
            || spec_is_matrix_shaper(p)) && (spec_is_clut(p, 1, UsedDirection::AsOutput)
            || spec_is_matrix_shaper(p))),
        spec_is_intent_supported(p, intent, d) == (spec_is_clut(p, intent, d) || spec_is_matrix_shaper(p)),
{
}

/// A device link implements exactly the intent in its header, in every
/// direction.
pub proof fn law_link_clut(p: ProfileView, intent: u32, d: UsedDirection)
    requires
        p.header.device_class == ProfileClassSignature::Link,
    ensures
        spec_is_clut(p, intent, d) == (p.header.rendering_intent == intent),
{
}


} // verus!
