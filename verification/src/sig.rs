//! ICC signatures of color spaces, device classes and platforms.
use vstd::prelude::*;

verus! {

/// Color space of profile data or of the profile connection space.
#[derive(Debug, Clone, Copy, PartialEq, Eq)]
pub enum ColorSpaceSignature {
    XyzData,
    LabData,
    LuvData,
    YCbCrData,
    YxyData,
    RgbData,
    GrayData,
    HsvData,
    HlsData,
    CmykData,
    CmyData,
    LuvKData,
    Color1,
    Color2,
    Color3,
    Color4,
    Color5,
    Color6,
    Color7,
    Color8,
    Color9,
    Color10,
    Color11,
    Color12,
    Color13,
    Color14,
    Color15,
}

/// The four-byte ICC signature of each value.
pub open spec fn color_space_signature_value(s: ColorSpaceSignature) -> u32 {
    match s {
        ColorSpaceSignature::XyzData => 0x58595A20,
        ColorSpaceSignature::LabData => 0x4C616220,
        ColorSpaceSignature::LuvData => 0x4C757620,
        ColorSpaceSignature::YCbCrData => 0x59436272,
        ColorSpaceSignature::YxyData => 0x59787920,
        ColorSpaceSignature::RgbData => 0x52474220,
        ColorSpaceSignature::GrayData => 0x47524159,
        ColorSpaceSignature::HsvData => 0x48535620,
        ColorSpaceSignature::HlsData => 0x484C5320,
        ColorSpaceSignature::CmykData => 0x434D594B,
        ColorSpaceSignature::CmyData => 0x434D5920,
        ColorSpaceSignature::LuvKData => 0x4C75764B,
        ColorSpaceSignature::Color1 => 0x31434C52,
        ColorSpaceSignature::Color2 => 0x32434C52,
        ColorSpaceSignature::Color3 => 0x33434C52,
        ColorSpaceSignature::Color4 => 0x34434C52,
        ColorSpaceSignature::Color5 => 0x35434C52,
        ColorSpaceSignature::Color6 => 0x36434C52,
        ColorSpaceSignature::Color7 => 0x37434C52,
        ColorSpaceSignature::Color8 => 0x38434C52,
        ColorSpaceSignature::Color9 => 0x39434C52,
        ColorSpaceSignature::Color10 => 0x41434C52,
        ColorSpaceSignature::Color11 => 0x42434C52,
        ColorSpaceSignature::Color12 => 0x43434C52,
        ColorSpaceSignature::Color13 => 0x44434C52,
        ColorSpaceSignature::Color14 => 0x45434C52,
        ColorSpaceSignature::Color15 => 0x46434C52,
    }
}

/// The ColorSpaceSignature with signature `v`, if it is a known one.
pub open spec fn color_space_of(v: u32) -> Option<ColorSpaceSignature> {
    match v {
        0x58595A20 => Some(ColorSpaceSignature::XyzData),
        0x4C616220 => Some(ColorSpaceSignature::LabData),
        0x4C757620 => Some(ColorSpaceSignature::LuvData),
        0x59436272 => Some(ColorSpaceSignature::YCbCrData),
        0x59787920 => Some(ColorSpaceSignature::YxyData),
        0x52474220 => Some(ColorSpaceSignature::RgbData),
        0x47524159 => Some(ColorSpaceSignature::GrayData),
        0x48535620 => Some(ColorSpaceSignature::HsvData),
        0x484C5320 => Some(ColorSpaceSignature::HlsData),
        0x434D594B => Some(ColorSpaceSignature::CmykData),
        0x434D5920 => Some(ColorSpaceSignature::CmyData),
        0x4C75764B => Some(ColorSpaceSignature::LuvKData),
        0x31434C52 => Some(ColorSpaceSignature::Color1),
        0x32434C52 => Some(ColorSpaceSignature::Color2),
        0x33434C52 => Some(ColorSpaceSignature::Color3),
        0x34434C52 => Some(ColorSpaceSignature::Color4),
        0x35434C52 => Some(ColorSpaceSignature::Color5),
        0x36434C52 => Some(ColorSpaceSignature::Color6),
        0x37434C52 => Some(ColorSpaceSignature::Color7),
        0x38434C52 => Some(ColorSpaceSignature::Color8),
        0x39434C52 => Some(ColorSpaceSignature::Color9),
        0x41434C52 => Some(ColorSpaceSignature::Color10),
        0x42434C52 => Some(ColorSpaceSignature::Color11),
        0x43434C52 => Some(ColorSpaceSignature::Color12),
        0x44434C52 => Some(ColorSpaceSignature::Color13),
        0x45434C52 => Some(ColorSpaceSignature::Color14),
        0x46434C52 => Some(ColorSpaceSignature::Color15),
        _ => None,
    }
}

impl ColorSpaceSignature {
    /// The four-byte ICC signature.
    pub fn to_u32(self) -> (r: u32)
        ensures
            r == color_space_signature_value(self),
    {
        match self {
            ColorSpaceSignature::XyzData => 0x58595A20,
            ColorSpaceSignature::LabData => 0x4C616220,
            ColorSpaceSignature::LuvData => 0x4C757620,
            ColorSpaceSignature::YCbCrData => 0x59436272,
            ColorSpaceSignature::YxyData => 0x59787920,
            ColorSpaceSignature::RgbData => 0x52474220,
            ColorSpaceSignature::GrayData => 0x47524159,
            ColorSpaceSignature::HsvData => 0x48535620,
            ColorSpaceSignature::HlsData => 0x484C5320,
            ColorSpaceSignature::CmykData => 0x434D594B,
            ColorSpaceSignature::CmyData => 0x434D5920,
            ColorSpaceSignature::LuvKData => 0x4C75764B,
            ColorSpaceSignature::Color1 => 0x31434C52,
            ColorSpaceSignature::Color2 => 0x32434C52,
            ColorSpaceSignature::Color3 => 0x33434C52,
            ColorSpaceSignature::Color4 => 0x34434C52,
            ColorSpaceSignature::Color5 => 0x35434C52,
            ColorSpaceSignature::Color6 => 0x36434C52,
            ColorSpaceSignature::Color7 => 0x37434C52,
            ColorSpaceSignature::Color8 => 0x38434C52,
            ColorSpaceSignature::Color9 => 0x39434C52,
            ColorSpaceSignature::Color10 => 0x41434C52,
            ColorSpaceSignature::Color11 => 0x42434C52,
            ColorSpaceSignature::Color12 => 0x43434C52,
            ColorSpaceSignature::Color13 => 0x44434C52,
            ColorSpaceSignature::Color14 => 0x45434C52,
            ColorSpaceSignature::Color15 => 0x46434C52,
        }
    }

    /// The value with signature `v`, if it is a known one.
    pub fn from_u32(v: u32) -> (r: Option<ColorSpaceSignature>)
        ensures
            r == color_space_of(v),
            r matches Some(s) ==> color_space_signature_value(s) == v,
            r is None ==> forall|s: ColorSpaceSignature| color_space_signature_value(s) != v,
    {
        if v == 0x58595A20 {
            return Some(ColorSpaceSignature::XyzData);
        }
        if v == 0x4C616220 {
            return Some(ColorSpaceSignature::LabData);
        }
        if v == 0x4C757620 {
            return Some(ColorSpaceSignature::LuvData);
        }
        if v == 0x59436272 {
            return Some(ColorSpaceSignature::YCbCrData);
        }
        if v == 0x59787920 {
            return Some(ColorSpaceSignature::YxyData);
        }
        if v == 0x52474220 {
            return Some(ColorSpaceSignature::RgbData);
        }
        if v == 0x47524159 {
            return Some(ColorSpaceSignature::GrayData);
        }
        if v == 0x48535620 {
            return Some(ColorSpaceSignature::HsvData);
        }
        if v == 0x484C5320 {
            return Some(ColorSpaceSignature::HlsData);
        }
        if v == 0x434D594B {
            return Some(ColorSpaceSignature::CmykData);
        }
        if v == 0x434D5920 {
            return Some(ColorSpaceSignature::CmyData);
        }
        if v == 0x4C75764B {
            return Some(ColorSpaceSignature::LuvKData);
        }
        if v == 0x31434C52 {
            return Some(ColorSpaceSignature::Color1);
        }
        if v == 0x32434C52 {
            return Some(ColorSpaceSignature::Color2);
        }
        if v == 0x33434C52 {
            return Some(ColorSpaceSignature::Color3);
        }
        if v == 0x34434C52 {
            return Some(ColorSpaceSignature::Color4);
        }
        if v == 0x35434C52 {
            return Some(ColorSpaceSignature::Color5);
        }
        if v == 0x36434C52 {
            return Some(ColorSpaceSignature::Color6);
        }
        if v == 0x37434C52 {
            return Some(ColorSpaceSignature::Color7);
        }
        if v == 0x38434C52 {
            return Some(ColorSpaceSignature::Color8);
        }
        if v == 0x39434C52 {
            return Some(ColorSpaceSignature::Color9);
        }
        if v == 0x41434C52 {
            return Some(ColorSpaceSignature::Color10);
        }
        if v == 0x42434C52 {
            return Some(ColorSpaceSignature::Color11);
        }
        if v == 0x43434C52 {
            return Some(ColorSpaceSignature::Color12);
        }
        if v == 0x44434C52 {
            return Some(ColorSpaceSignature::Color13);
        }
        if v == 0x45434C52 {
            return Some(ColorSpaceSignature::Color14);
        }
        if v == 0x46434C52 {
            return Some(ColorSpaceSignature::Color15);
        }
        None
    }
}

/// Device class of a profile.
#[derive(Debug, Clone, Copy, PartialEq, Eq)]
pub enum ProfileClassSignature {
    Input,
    Display,
    Output,
    Link,
    Abstract,
    ColorSpace,
    NamedColor,
}

/// The four-byte ICC signature of each value.
pub open spec fn profile_class_signature_value(s: ProfileClassSignature) -> u32 {
    match s {
        ProfileClassSignature::Input => 0x73636E72,
        ProfileClassSignature::Display => 0x6D6E7472,
        ProfileClassSignature::Output => 0x70727472,
        ProfileClassSignature::Link => 0x6C696E6B,
        ProfileClassSignature::Abstract => 0x61627374,
        ProfileClassSignature::ColorSpace => 0x73706163,
        ProfileClassSignature::NamedColor => 0x6E6D636C,
    }
}

/// The ProfileClassSignature with signature `v`, if it is a known one.
pub open spec fn profile_class_of(v: u32) -> Option<ProfileClassSignature> {
    match v {
        0x73636E72 => Some(ProfileClassSignature::Input),
        0x6D6E7472 => Some(ProfileClassSignature::Display),
        0x70727472 => Some(ProfileClassSignature::Output),
        0x6C696E6B => Some(ProfileClassSignature::Link),
        0x61627374 => Some(ProfileClassSignature::Abstract),
        0x73706163 => Some(ProfileClassSignature::ColorSpace),
        0x6E6D636C => Some(ProfileClassSignature::NamedColor),
        _ => None,
    }
}

impl ProfileClassSignature {
    /// The four-byte ICC signature.
    pub fn to_u32(self) -> (r: u32)
        ensures
            r == profile_class_signature_value(self),
    {
        match self {
            ProfileClassSignature::Input => 0x73636E72,
            ProfileClassSignature::Display => 0x6D6E7472,
            ProfileClassSignature::Output => 0x70727472,
            ProfileClassSignature::Link => 0x6C696E6B,
            ProfileClassSignature::Abstract => 0x61627374,
            ProfileClassSignature::ColorSpace => 0x73706163,
            ProfileClassSignature::NamedColor => 0x6E6D636C,
        }
    }

    /// The value with signature `v`, if it is a known one.
    pub fn from_u32(v: u32) -> (r: Option<ProfileClassSignature>)
        ensures
            r == profile_class_of(v),
            r matches Some(s) ==> profile_class_signature_value(s) == v,
            r is None ==> forall|s: ProfileClassSignature| profile_class_signature_value(s) != v,
    {
        if v == 0x73636E72 {
            return Some(ProfileClassSignature::Input);
        }
        if v == 0x6D6E7472 {
            return Some(ProfileClassSignature::Display);
        }
        if v == 0x70727472 {
            return Some(ProfileClassSignature::Output);
        }
        if v == 0x6C696E6B {
            return Some(ProfileClassSignature::Link);
        }
        if v == 0x61627374 {
            return Some(ProfileClassSignature::Abstract);
        }
        if v == 0x73706163 {
            return Some(ProfileClassSignature::ColorSpace);
        }
        if v == 0x6E6D636C {
            return Some(ProfileClassSignature::NamedColor);
        }
        None
    }
}

/// Primary platform of a profile.
#[derive(Debug, Clone, Copy, PartialEq, Eq)]
pub enum PlatformSignature {
    Macintosh,
    Microsoft,
    Solaris,
    Sgi,
    Taligent,
    Unices,
}

/// The four-byte ICC signature of each value.
pub open spec fn platform_signature_value(s: PlatformSignature) -> u32 {
    match s {
        PlatformSignature::Macintosh => 0x4150504C,
        PlatformSignature::Microsoft => 0x4D534654,
        PlatformSignature::Solaris => 0x53554E57,
        PlatformSignature::Sgi => 0x53474920,
        PlatformSignature::Taligent => 0x54474E54,
        PlatformSignature::Unices => 0x2A6E6978,
    }
}

/// The PlatformSignature with signature `v`, if it is a known one.
pub open spec fn platform_of(v: u32) -> Option<PlatformSignature> {
    match v {
        0x4150504C => Some(PlatformSignature::Macintosh),
        0x4D534654 => Some(PlatformSignature::Microsoft),
        0x53554E57 => Some(PlatformSignature::Solaris),
        0x53474920 => Some(PlatformSignature::Sgi),
        0x54474E54 => Some(PlatformSignature::Taligent),
        0x2A6E6978 => Some(PlatformSignature::Unices),
        _ => None,
    }
}

impl PlatformSignature {
    /// The four-byte ICC signature.
    pub fn to_u32(self) -> (r: u32)
        ensures
            r == platform_signature_value(self),
    {
        match self {
            PlatformSignature::Macintosh => 0x4150504C,
            PlatformSignature::Microsoft => 0x4D534654,
            PlatformSignature::Solaris => 0x53554E57,
            PlatformSignature::Sgi => 0x53474920,
            PlatformSignature::Taligent => 0x54474E54,
            PlatformSignature::Unices => 0x2A6E6978,
        }
    }

    /// The value with signature `v`, if it is a known one.
    pub fn from_u32(v: u32) -> (r: Option<PlatformSignature>)
        ensures
            r == platform_of(v),
            r matches Some(s) ==> platform_signature_value(s) == v,
            r is None ==> forall|s: PlatformSignature| platform_signature_value(s) != v,
    {
        if v == 0x4150504C {
            return Some(PlatformSignature::Macintosh);
        }
        if v == 0x4D534654 {
            return Some(PlatformSignature::Microsoft);
        }
        if v == 0x53554E57 {
            return Some(PlatformSignature::Solaris);
        }
        if v == 0x53474920 {
            return Some(PlatformSignature::Sgi);
        }
        if v == 0x54474E54 {
            return Some(PlatformSignature::Taligent);
        }
        if v == 0x2A6E6978 {
            return Some(PlatformSignature::Unices);
        }
        None
    }
}


/// Every color space, device class and platform reads back from its
/// signature as itself.
pub proof fn law_signature_round_trips(a: ColorSpaceSignature, b: ProfileClassSignature, c: PlatformSignature)
    ensures
        color_space_of(color_space_signature_value(a)) == Some(a),
        profile_class_of(profile_class_signature_value(b)) == Some(b),
        platform_of(platform_signature_value(c)) == Some(c),
{
}

} // verus!
