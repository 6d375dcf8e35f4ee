//! Sample conversions and pixel-format sizes.
use vstd::prelude::*;

verus! {

/// Formatter flag: 16-bit samples.
pub const CMS_PACK_FLAGS_16BITS: u32 = 0x0000;

/// Formatter flag: floating-point samples.
pub const CMS_PACK_FLAGS_FLOAT: u32 = 0x0001;

/// A packed pixel-format descriptor: bits 0-2 bytes per sample (0 meaning 8),
/// bits 3-6 channels, bits 7-9 extra channels, bit 10 swap, bit 11 16-bit
/// endian swap, bit 12 planar, bit 13 flavor, bit 14 swap-first, bits 16-20
/// color space, bit 22 floating point.
pub type PixelFormat = u32;

/// Color space code of gray pixels.
pub const PT_GRAY: u32 = 3;

/// Color space code of RGB pixels.
pub const PT_RGB: u32 = 4;

/// Color space code of CMY pixels.
pub const PT_CMY: u32 = 5;

/// Color space code of CMYK pixels.
pub const PT_CMYK: u32 = 6;

/// Color space code of Lab pixels.
pub const PT_LAB: u32 = 10;

/// Bytes per sample field.
pub open spec fn format_bytes(f: u32) -> u32 {
    f & 7
}

/// Channels field.
pub open spec fn format_channels(f: u32) -> u32 {
    (f >> 3u32) & 15
}

/// Extra channels field.
pub open spec fn format_extra(f: u32) -> u32 {
    (f >> 7u32) & 7
}

/// A format with the given color space, channel count and bytes per sample.
    pub fn build_format(colorspace: u32, channels: u32, bytes: u32) -> (r: PixelFormat)
        requires
            colorspace < 32,
            channels < 16,
            bytes < 8,
        ensures
            format_bytes(r) == bytes,
            format_channels(r) == channels,
            format_extra(r) == 0,
            (r >> 16u32) & 31 == colorspace,
    {
        let v = (colorspace << 16u32) | (channels << 3u32) | bytes;
        assert(v & 7 == bytes && (v >> 3u32) & 15 == channels && (v >> 7u32) & 7 == 0 && (v
            >> 16u32) & 31 == colorspace) by (bit_vector)
            requires
                v == (colorspace << 16u32) | (channels << 3u32) | bytes,
                colorspace < 32,
                channels < 16,
                bytes < 8,
        ;
        v
    }

    /// Bytes per sample field (0 means 8-byte doubles).
    pub fn format_bytes_of(f: PixelFormat) -> (r: u32)
        ensures
            r == format_bytes(f),
            r < 8,
    {
        let r = f & 7;
        assert(f & 7 < 8) by (bit_vector);
        r
    }

    /// Number of color channels.
    pub fn format_channels_of(f: PixelFormat) -> (r: u32)
        ensures
            r == format_channels(f),
            r < 16,
    {
        assert((f >> 3u32) & 15 < 16) by (bit_vector);
        (f >> 3u32) & 15
    }

    /// Number of extra (non-color) channels.
    pub fn format_extra_of(f: PixelFormat) -> (r: u32)
        ensures
            r == format_extra(f),
            r < 8,
    {
        assert((f >> 7u32) & 7 < 8) by (bit_vector);
        (f >> 7u32) & 7
    }

/// Gray, one 8-bit channel.
pub const TYPE_GRAY_8: PixelFormat = 0x30009;

/// Gray, one 16-bit channel.
pub const TYPE_GRAY_16: PixelFormat = 0x3000a;

/// RGB, three 8-bit channels.
pub const TYPE_RGB_8: PixelFormat = 0x40019;

/// RGB with an extra alpha channel, 8 bits each.
pub const TYPE_RGBA_8: PixelFormat = 0x40099;

/// RGB, three 16-bit channels.
pub const TYPE_RGB_16: PixelFormat = 0x4001a;

/// CMYK, four 8-bit channels.
pub const TYPE_CMYK_8: PixelFormat = 0x60021;

/// CMYK, four 16-bit channels.
pub const TYPE_CMYK_16: PixelFormat = 0x60022;

/// RGB, three 32-bit floating-point channels.
pub const TYPE_RGB_FLT: PixelFormat = 0x44001c;

/// Lab, three 64-bit floating-point channels.
pub const TYPE_LAB_DBL: PixelFormat = 0x4a0018;

/// An 8-bit sample widened to 16 bits (`v * 257`).
pub open spec fn spec_8_to_16(v: u8) -> u16 {
    (v * 257) as u16
}

/// A 16-bit sample rounded to 8 bits.
pub open spec fn spec_16_to_8(v: u16) -> u8 {
    ((v * 65281 + 8388608) / 16777216) as u8
}

/// Widen an 8-bit sample to 16 bits: 0x00 to 0x0000, 0xFF to 0xFFFF.
pub fn from_8_to_16(v: u8) -> (r: u16)
    ensures
        r == spec_8_to_16(v),
{
    let w = v as u16;
    assert((w << 8u16) | w == w * 257) by (bit_vector)
        requires
            w < 256,
    ;
    (w << 8u16) | w
}

/// Round a 16-bit sample to 8 bits.
pub fn from_16_to_8(v: u16) -> (r: u8)
    ensures
        r == spec_16_to_8(v),
{
    let x = v as u32;
    let t = x * 65281 + 8388608;
    assert((t >> 24u32) & 0xff == t / 16777216) by (bit_vector)
        requires
            t == x * 65281 + 8388608,
            x < 65536,
    ;
    ((t >> 24u32) & 0xff) as u8
}

/// Widening to 16 bits and rounding back gives the same 8-bit sample.
pub proof fn law_8_16_round_trip(v: u8)
    ensures
        spec_16_to_8(spec_8_to_16(v)) == v,
{
    assert(spec_8_to_16(v) == v * 257);
    assert((v * 257) * 65281 + 8388608 == v * 16777216 + v + 8388608) by (nonlinear_arith);
    assert((v * 16777216 + v + 8388608) / 16777216 == v) by (nonlinear_arith)
        requires
            0 <= v < 256,
    ;
}

/// A 16-bit Lab V2 sample re-encoded as V4: scaled by 257/256 (rounding
/// down). Samples past V2's top of range (0xFF00) saturate to 0xFFFF; the top
/// itself goes to 0xFFFE, just below, so that every sample up to the top and
/// the saturated ones read back within one step.
pub open spec fn spec_lab_v2_to_v4(v: u16) -> u16 {
    if v > 0xff00 {
        0xffffu16
    } else if v == 0xff00 {
        0xfffeu16
    } else {
        (v * 257 / 256) as u16
    }
}

/// A 16-bit Lab V4 sample re-encoded as V2: `((v << 8) + 0x80) / 257`, the
/// saturated 0xFFFF staying 0xFFFF.
pub open spec fn spec_lab_v4_to_v2(v: u16) -> u16 {
    if v == 0xffff {
        0xffffu16
    } else {
        ((v * 256 + 0x80) / 257) as u16
    }
}

/// Convert a V2-encoded Lab sample to the V4 encoding.
pub fn lab_v2_to_v4(v: u16) -> (r: u16)
    ensures
        r == spec_lab_v2_to_v4(v),
{
    if v > 0xff00 {
        return 0xffff;
    }
    if v == 0xff00 {
        return 0xfffe;
    }
    let x = v as u32;
    let m = x * 257;
    let a = m >> 8u32;
    assert(a == m / 256) by (bit_vector)
        requires
            a == m >> 8u32,
    ;
    assert(a <= 0xffff);
    a as u16
}

/// Convert a V4-encoded Lab sample to the V2 encoding.
pub fn lab_v4_to_v2(v: u16) -> (r: u16)
    ensures
        r == spec_lab_v4_to_v2(v),
{
    if v == 0xffff {
        return 0xffff;
    }
    let x = v as u32;
    assert(x << 8u32 == x * 256) by (bit_vector)
        requires
            x < 65536,
    ;
    (((x << 8u32) + 0x80) / 257) as u16
}

/// Bytes per pixel of a format: (channels + extra) times the sample size,
/// where a sample-size field of 0 stands for 8-byte doubles.
pub open spec fn spec_pixel_size(f: u32) -> int {
    let b = if format_bytes(f) == 0 {
        8
    } else {
        format_bytes(f) as int
    };
    (format_channels(f) + format_extra(f)) * b
}

/// Number of bytes one pixel of `format` occupies.
pub fn pixel_size(format: PixelFormat) -> (r: usize)
    ensures
        r == spec_pixel_size(format),
{
    let b = format_bytes_of(format);
    let b = if b == 0 {
        8
    } else {
        b as usize
    };
    let n = (format_channels_of(format) + format_extra_of(format)) as usize;
    assert(n * b <= 23 * 8) by (nonlinear_arith)
        requires
            n < 23,
            b <= 8,
    ;
    n * b
}


/// Re-encoding a V2 Lab sample as V4 and back comes within one step of
/// the sample, for every sample up to V2's top of range (0xFF00) and for the
/// two highest (0xFFFE, 0xFFFF).
pub proof fn law_lab_v2_v4_round_trip(v: u16)
    requires
        v <= 0xff00 || v >= 0xfffe,
    ensures
        -1 <= spec_lab_v4_to_v2(spec_lab_v2_to_v4(v)) - v <= 1,
{
    if v < 0xff00 {
        let q = v / 256;
        let r = v % 256;
        assert(v == 256 * q + r);
        assert(v * 257 / 256 == 257 * q + r) by (nonlinear_arith)
            requires
                v == 256 * q + r,
                0 <= r < 256,
        ;
        assert(q <= 254);
        assert(257 * q + r < 0xffff);
        let v4 = 257 * q + r;
        assert((v4 * 256 + 0x80) == 257 * (256 * q) + 256 * r + 128) by (nonlinear_arith)
            requires
                v4 == 257 * q + r,
        ;
        if r <= 128 {
            assert((257 * (256 * q) + 256 * r + 128) / 257 == 256 * q + r) by (nonlinear_arith)
                requires
                    0 <= r <= 128,
                    q >= 0,
            ;
        } else {
            assert((257 * (256 * q) + 256 * r + 128) / 257 == 256 * q + r - 1) by (nonlinear_arith)
                requires
                    128 < r < 256,
                    q >= 0,
            ;
        }
    } else if v == 0xff00 {
        assert((0xfffe * 256 + 0x80) / 257 == 0xfeff);
    }
}

} // verus!
