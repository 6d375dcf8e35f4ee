//! Color-space endpoints and grid sizing.
use vstd::prelude::*;
use crate::sig::ColorSpaceSignature;

verus! {

/// White and black device values of a color space, and its channel count.
pub open spec fn spec_endpoints(space: ColorSpaceSignature) -> Option<(Seq<u16>, Seq<u16>, u32)> {
    let z = Seq::new(16, |i: int| 0u16);
    match space {
        ColorSpaceSignature::GrayData => Some((z.update(0, 0xffff), z, 1)),
        ColorSpaceSignature::RgbData => Some(
            (z.update(0, 0xffff).update(1, 0xffff).update(2, 0xffff), z, 3),
        ),
        ColorSpaceSignature::CmykData => Some(
            (z, z.update(0, 0xffff).update(1, 0xffff).update(2, 0xffff).update(3, 0xffff), 4),
        ),
        ColorSpaceSignature::CmyData => Some(
            (z, z.update(0, 0xffff).update(1, 0xffff).update(2, 0xffff), 3),
        ),
        ColorSpaceSignature::LabData => Some(
            (
                z.update(0, 0xffff).update(1, 0x8080).update(2, 0x8080),
                z.update(1, 0x8080).update(2, 0x8080),
                3,
            ),
        ),
        _ => None,
    }
}

/// The white and black endpoints of a color space as 16-bit values, with its
/// number of channels; `None` for spaces other than gray, RGB, CMYK, CMY and Lab.
pub fn endpoints_by_space(space: ColorSpaceSignature) -> (r: Option<([u16; 16], [u16; 16], u32)>)
    ensures
        r is None <==> spec_endpoints(space) is None,
        r matches Some((w, b, n)) ==> spec_endpoints(space) == Some((w@, b@, n)),
{
    let mut white = [0u16; 16];
    let mut black = [0u16; 16];
    let ghost z = Seq::new(16, |i: int| 0u16);
    assert(white@ =~= z);
    match space {
        ColorSpaceSignature::GrayData => {
            white[0] = 0xffff;
            assert(white@ =~= z.update(0, 0xffff));
            Some((white, black, 1))
        },
        ColorSpaceSignature::RgbData => {
            white[0] = 0xffff;
            white[1] = 0xffff;
            white[2] = 0xffff;
            assert(white@ =~= z.update(0, 0xffff).update(1, 0xffff).update(2, 0xffff));
            Some((white, black, 3))
        },
        ColorSpaceSignature::CmykData => {
            black[0] = 0xffff;
            black[1] = 0xffff;
            black[2] = 0xffff;
            black[3] = 0xffff;
            assert(black@ =~= z.update(0, 0xffff).update(1, 0xffff).update(2, 0xffff).update(
                3,
                0xffff,
            ));
            Some((white, black, 4))
        },
        ColorSpaceSignature::CmyData => {
            black[0] = 0xffff;
            black[1] = 0xffff;
            black[2] = 0xffff;
            assert(black@ =~= z.update(0, 0xffff).update(1, 0xffff).update(2, 0xffff));
            Some((white, black, 3))
        },
        ColorSpaceSignature::LabData => {
            white[0] = 0xffff;
            white[1] = 0x8080;
            white[2] = 0x8080;
            black[1] = 0x8080;
            black[2] = 0x8080;
            assert(white@ =~= z.update(0, 0xffff).update(1, 0x8080).update(2, 0x8080));
            assert(black@ =~= z.update(1, 0x8080).update(2, 0x8080));
            Some((white, black, 3))
        },
        _ => None,
    }
}

/// Grid points per dimension for a CLUT: given explicitly in bits 16-23 of
/// `flags` (at least 2), else chosen by the high-resolution (0x0400) or
/// low-resolution (0x0800) flag and the channel count.
pub open spec fn spec_gridpoints(n_channels: u32, flags: u32) -> u32 {
    if flags & 0x00ff_0000 != 0 {
        let g = (flags >> 16u32) & 0xff;
        if g < 2 {
            2
        } else {
            g
        }
    } else if flags & 0x0400 != 0 {
        if n_channels > 4 {
            7
        } else if n_channels == 4 {
            23
        } else {
            49
        }
    } else if flags & 0x0800 != 0 {
        if n_channels > 4 {
            6
        } else if n_channels == 1 {
            33
        } else {
            17
        }
    } else if n_channels > 4 {
        7
    } else if n_channels == 4 {
        17
    } else {
        33
    }
}

/// A reasonable number of grid points for a CLUT.
pub fn reasonable_gridpoints(n_channels: u32, flags: u32) -> (r: u32)
    ensures
        r == spec_gridpoints(n_channels, flags),
{
    if flags & 0x00ff_0000 != 0 {
        let g = (flags >> 16u32) & 0xff;
        return if g < 2 {
            2
        } else {
            g
        };
    }
    if flags & 0x0400 != 0 {
        if n_channels > 4 {
            return 7;
        }
        if n_channels == 4 {
            return 23;
        }
        return 49;
    }
    if flags & 0x0800 != 0 {
        if n_channels > 4 {
            return 6;
        }
        if n_channels == 1 {
            return 33;
        }
        return 17;
    }
    if n_channels > 4 {
        return 7;
    }
    if n_channels == 4 {
        return 17;
    }
    33
}

/// Ends of an additive space of `n` channels: white is every channel full,
/// black every channel empty; channels past `n` are zero in both.
pub open spec fn additive_ends(w: Seq<u16>, b: Seq<u16>, n: u32) -> bool {
    &&& w.len() == 16 && b.len() == 16
    &&& forall|i: int| 0 <= i < 16 ==> #[trigger] b[i] == 0 && w[i] == (if i < n { 0xffffu16 } else { 0u16 })
}

/// Ends of a subtractive space of `n` channels: white is no ink, black
/// every channel full; channels past `n` are zero in both.
pub open spec fn subtractive_ends(w: Seq<u16>, b: Seq<u16>, n: u32) -> bool {
    &&& w.len() == 16 && b.len() == 16
    &&& forall|i: int| 0 <= i < 16 ==> #[trigger] w[i] == 0 && b[i] == (if i < n { 0xffffu16 } else { 0u16 })
}

/// Gray and RGB are additive (white at full, black at zero), CMY and CMYK
/// subtractive (white at zero, black at full), with one, three, three and
/// four channels. Lab has three: white is L at full, black L at zero, and a
/// and b sit at their neutral 0x8080 in both. No other space has endpoints.
pub proof fn law_endpoints_by_kind(space: ColorSpaceSignature)
    ensures
        space == ColorSpaceSignature::GrayData ==> (spec_endpoints(space) matches Some((w, b, n)) && n == 1
            && additive_ends(w, b, n)),
        space == ColorSpaceSignature::RgbData ==> (spec_endpoints(space) matches Some((w, b, n)) && n == 3
            && additive_ends(w, b, n)),
        space == ColorSpaceSignature::CmyData ==> (spec_endpoints(space) matches Some((w, b, n)) && n == 3
            && subtractive_ends(w, b, n)),
        space == ColorSpaceSignature::CmykData ==> (spec_endpoints(space) matches Some((w, b, n)) && n == 4
            && subtractive_ends(w, b, n)),
        space == ColorSpaceSignature::LabData ==> (spec_endpoints(space) matches Some((w, b, n)) && n == 3
            && w.len() == 16 && b.len() == 16 && w[0] == 0xffff && b[0] == 0 && (forall|i: int|
            1 <= i < 3 ==> #[trigger] w[i] == 0x8080 && b[i] == 0x8080) && (forall|i: int|
            3 <= i < 16 ==> #[trigger] w[i] == 0 && b[i] == 0)),
        !(space == ColorSpaceSignature::GrayData || space == ColorSpaceSignature::RgbData || space
            == ColorSpaceSignature::CmyData || space == ColorSpaceSignature::CmykData || space
            == ColorSpaceSignature::LabData) ==> spec_endpoints(space) is None,
{
}

} // verus!
