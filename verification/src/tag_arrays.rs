//! Tag payloads made of plain numbers: a signature, a date and time, and
//! arrays of 8, 16, 32 and 64-bit unsigned integers, all big-endian.
use vstd::prelude::*;
use crate::error::{CmsError, ErrorCode};
use crate::profile::{
    DateTimeNumber, be16, be32, be64, bytes16, bytes32, bytes64, err, push_be16, push_be32,
    push_be64, read_be16, read_be32, read_be64,
};
use crate::tag_types::{fits, read_error};

verus! {

/// The `n` 16-bit values stored from `p` on.
pub open spec fn be16_seq(b: Seq<u8>, p: int, n: int) -> Seq<u16> {
    Seq::new(n as nat, |k: int| be16(b, p + 2 * k))
}

/// The `n` 32-bit values stored from `p` on.
pub open spec fn be32_seq(b: Seq<u8>, p: int, n: int) -> Seq<u32> {
    Seq::new(n as nat, |k: int| be32(b, p + 4 * k))
}

/// The `n` 64-bit values stored from `p` on.
pub open spec fn be64_seq(b: Seq<u8>, p: int, n: int) -> Seq<u64> {
    Seq::new(n as nat, |k: int| be64(b, p + 8 * k))
}

/// The big-endian bytes of 16-bit values, one after the other.
pub open spec fn bytes16_all(v: Seq<u16>) -> Seq<u8>
    decreases v.len(),
{
    if v.len() == 0 {
        Seq::empty()
    } else {
        bytes16_all(v.drop_last()) + bytes16(v.last())
    }
}

/// The big-endian bytes of 32-bit values, one after the other.
pub open spec fn bytes32_all(v: Seq<u32>) -> Seq<u8>
    decreases v.len(),
{
    if v.len() == 0 {
        Seq::empty()
    } else {
        bytes32_all(v.drop_last()) + bytes32(v.last())
    }
}

/// The big-endian bytes of 64-bit values, one after the other.
pub open spec fn bytes64_all(v: Seq<u64>) -> Seq<u8>
    decreases v.len(),
{
    if v.len() == 0 {
        Seq::empty()
    } else {
        bytes64_all(v.drop_last()) + bytes64(v.last())
    }
}

/// The bytes of a date and time: year, month, day, hours, minutes, seconds.
pub open spec fn datetime_bytes(dt: DateTimeNumber) -> Seq<u8> {
    bytes16(dt.year) + bytes16(dt.month) + bytes16(dt.day) + bytes16(dt.hours) + bytes16(dt.minutes)
        + bytes16(dt.seconds)
}

/// The date and time stored at `p`.
pub open spec fn datetime_at(b: Seq<u8>, p: int) -> DateTimeNumber {
    DateTimeNumber {
        year: be16(b, p),
        month: be16(b, p + 2),
        day: be16(b, p + 4),
        hours: be16(b, p + 6),
        minutes: be16(b, p + 8),
        seconds: be16(b, p + 10),
    }
}

/// Whether `n` bytes from `start` on lie within `data`.
pub(crate) fn has_bytes(data: &[u8], start: usize, n: u64) -> (r: bool)
    ensures
        r == fits(data@, start as int, n as int),
{
    start <= data.len() && ((data.len() - start) as u64) >= n
}

/// Read a signature payload: one 32-bit value at `start`.
pub fn read_signature_type(data: &[u8], start: usize) -> (r: Result<u32, CmsError>)
    ensures
        (if fits(data@, start as int, 4) {
            r matches Ok(v) && v == be32(data@, start as int)
        } else {
            r matches Err(e) && e.code == ErrorCode::Read
        }),
{
    if has_bytes(data, start, 4) {
        Ok(read_be32(data, start))
    } else {
        Err(read_error())
    }
}

/// Append a signature payload.
pub fn write_signature_type(out: &mut Vec<u8>, sig: u32)
    ensures
        final(out)@ == old(out)@ + bytes32(sig),
{
    push_be32(out, sig);
}

/// Read a date and time payload: six 16-bit fields at `start`.
pub fn read_datetime_type(data: &[u8], start: usize) -> (r: Result<DateTimeNumber, CmsError>)
    ensures
        (if fits(data@, start as int, 12) {
            r matches Ok(dt) && dt == datetime_at(data@, start as int)
        } else {
            r matches Err(e) && e.code == ErrorCode::Read
        }),
{
    let len = data.len();
    if has_bytes(data, start, 12) {
        Ok(
            DateTimeNumber {
                year: read_be16(data, start),
                month: read_be16(data, start + 2),
                day: read_be16(data, start + 4),
                hours: read_be16(data, start + 6),
                minutes: read_be16(data, start + 8),
                seconds: read_be16(data, start + 10),
            },
        )
    } else {
        Err(read_error())
    }
}

/// Append a date and time payload.
pub fn write_datetime_type(out: &mut Vec<u8>, dt: &DateTimeNumber)
    ensures
        final(out)@ == old(out)@ + datetime_bytes(*dt),
{
    push_be16(out, dt.year);
    push_be16(out, dt.month);
    push_be16(out, dt.day);
    push_be16(out, dt.hours);
    push_be16(out, dt.minutes);
    push_be16(out, dt.seconds);
    assert(final(out)@ =~= old(out)@ + datetime_bytes(*dt));
}

/// Read an array of `size` bytes at `start`.
pub fn read_uint8_type(data: &[u8], start: usize, size: u32) -> (r: Result<Vec<u8>, CmsError>)
    ensures
        (if fits(data@, start as int, size as int) {
            r matches Ok(v) && v@ == data@.subrange(
            start as int,
            start + size,
        )
        } else {
            r matches Err(e) && e.code == ErrorCode::Read
        }),
{
    if !has_bytes(data, start, size as u64) {
        return Err(read_error());
    }
    let len = data.len();
    let n = size as usize;
    let mut v: Vec<u8> = Vec::new();
    let mut k: usize = 0;
    while k < n
        invariant
            k <= n,
            len == data@.len(),
            start + n <= len,
            v@ == data@.subrange(start as int, start + k),
        decreases n - k,
    {
        v.push(data[start + k]);
        k = k + 1;
        assert(v@ =~= data@.subrange(start as int, start + k));
    }
    Ok(v)
}

/// Append an array of bytes.
pub fn write_uint8_type(out: &mut Vec<u8>, arr: &[u8])
    ensures
        final(out)@ == old(out)@ + arr@,
{
    let mut k: usize = 0;
    while k < arr.len()
        invariant
            k <= arr@.len(),
            out@ == old(out)@ + arr@.take(k as int),
        decreases arr@.len() - k,
    {
        out.push(arr[k]);
        k = k + 1;
        assert(out@ =~= old(out)@ + arr@.take(k as int));
    }
    assert(arr@.take(arr@.len() as int) =~= arr@);
}

/// Read an array of 16-bit values from `size` bytes at `start` (a trailing
/// odd byte is not read).
pub fn read_uint16_type(data: &[u8], start: usize, size: u32) -> (r: Result<Vec<u16>, CmsError>)
    ensures
        (if fits(data@, start as int, 2 * (size / 2)) {
            r matches Ok(v) && v@ == be16_seq(
            data@,
            start as int,
            (size / 2) as int,
        )
        } else {
            r matches Err(e) && e.code
            == ErrorCode::Read
        }),
{
    let n = (size / 2) as usize;
    if !has_bytes(data, start, 2 * n as u64) {
        return Err(read_error());
    }
    let len = data.len();
    let mut v: Vec<u16> = Vec::new();
    let mut k: usize = 0;
    while k < n
        invariant
            k <= n,
            len == data@.len(),
            start + 2 * n <= len,
            v@ == be16_seq(data@, start as int, k as int),
        decreases n - k,
    {
        v.push(read_be16(data, start + 2 * k));
        k = k + 1;
        assert(v@ =~= be16_seq(data@, start as int, k as int));
    }
    Ok(v)
}

/// Append an array of 16-bit values.
pub fn write_uint16_type(out: &mut Vec<u8>, arr: &[u16])
    ensures
        final(out)@ == old(out)@ + bytes16_all(arr@),
{
    let mut k: usize = 0;
    while k < arr.len()
        invariant
            k <= arr@.len(),
            out@ == old(out)@ + bytes16_all(arr@.take(k as int)),
        decreases arr@.len() - k,
    {
        push_be16(out, arr[k]);
        assert(arr@.take(k + 1).drop_last() =~= arr@.take(k as int));
        k = k + 1;
        assert(out@ =~= old(out)@ + bytes16_all(arr@.take(k as int)));
    }
    assert(arr@.take(arr@.len() as int) =~= arr@);
}

/// Read an array of 32-bit values from `size` bytes at `start` (bytes past
/// the last whole value are not read).
pub fn read_uint32_type(data: &[u8], start: usize, size: u32) -> (r: Result<Vec<u32>, CmsError>)
    ensures
        (if fits(data@, start as int, 4 * (size / 4)) {
            r matches Ok(v) && v@ == be32_seq(
            data@,
            start as int,
            (size / 4) as int,
        )
        } else {
            r matches Err(e) && e.code
            == ErrorCode::Read
        }),
{
    let n = (size / 4) as usize;
    if !has_bytes(data, start, 4 * n as u64) {
        return Err(read_error());
    }
    let len = data.len();
    let mut v: Vec<u32> = Vec::new();
    let mut k: usize = 0;
    while k < n
        invariant
            k <= n,
            len == data@.len(),
            start + 4 * n <= len,
            v@ == be32_seq(data@, start as int, k as int),
        decreases n - k,
    {
        v.push(read_be32(data, start + 4 * k));
        k = k + 1;
        assert(v@ =~= be32_seq(data@, start as int, k as int));
    }
    Ok(v)
}

/// Append an array of 32-bit values.
pub fn write_uint32_type(out: &mut Vec<u8>, arr: &[u32])
    ensures
        final(out)@ == old(out)@ + bytes32_all(arr@),
{
    let mut k: usize = 0;
    while k < arr.len()
        invariant
            k <= arr@.len(),
            out@ == old(out)@ + bytes32_all(arr@.take(k as int)),
        decreases arr@.len() - k,
    {
        push_be32(out, arr[k]);
        assert(arr@.take(k + 1).drop_last() =~= arr@.take(k as int));
        k = k + 1;
        assert(out@ =~= old(out)@ + bytes32_all(arr@.take(k as int)));
    }
    assert(arr@.take(arr@.len() as int) =~= arr@);
}

/// Read an array of 64-bit values from `size` bytes at `start` (bytes past
/// the last whole value are not read).
pub fn read_uint64_type(data: &[u8], start: usize, size: u32) -> (r: Result<Vec<u64>, CmsError>)
    ensures
        (if fits(data@, start as int, 8 * (size / 8)) {
            r matches Ok(v) && v@ == be64_seq(
            data@,
            start as int,
            (size / 8) as int,
        )
        } else {
            r matches Err(e) && e.code
            == ErrorCode::Read
        }),
{
    let n = (size / 8) as usize;
    if !has_bytes(data, start, 8 * n as u64) {
        return Err(read_error());
    }
    let len = data.len();
    let mut v: Vec<u64> = Vec::new();
    let mut k: usize = 0;
    while k < n
        invariant
            k <= n,
            len == data@.len(),
            start + 8 * n <= len,
            v@ == be64_seq(data@, start as int, k as int),
        decreases n - k,
    {
        v.push(read_be64(data, start + 8 * k));
        k = k + 1;
        assert(v@ =~= be64_seq(data@, start as int, k as int));
    }
    Ok(v)
}

/// Append an array of 64-bit values.
pub fn write_uint64_type(out: &mut Vec<u8>, arr: &[u64])
    ensures
        final(out)@ == old(out)@ + bytes64_all(arr@),
{
    let mut k: usize = 0;
    while k < arr.len()
        invariant
            k <= arr@.len(),
            out@ == old(out)@ + bytes64_all(arr@.take(k as int)),
        decreases arr@.len() - k,
    {
        push_be64(out, arr[k]);
        assert(arr@.take(k + 1).drop_last() =~= arr@.take(k as int));
        k = k + 1;
        assert(out@ =~= old(out)@ + bytes64_all(arr@.take(k as int)));
    }
    assert(arr@.take(arr@.len() as int) =~= arr@);
}

// ---------------------------------------------------------------------------
// Data, colorant order, video signal
// ---------------------------------------------------------------------------

/// The most channels a colorant order holds.
pub const MAX_CHANNELS: u32 = 16;

/// A data tag: flags (0 for ASCII, 1 for binary) and the bytes.
pub struct IccData {
    pub flags: u32,
    pub data: Vec<u8>,
}

/// Video signal parameters of a `cicp` tag.
#[derive(Debug, Clone, Copy, PartialEq, Eq)]
pub struct VideoSignalType {
    pub colour_primaries: u8,
    pub transfer_characteristics: u8,
    pub matrix_coefficients: u8,
    pub video_full_range_flag: u8,
}

/// Read a data payload of `size` bytes at `start`: flags, then the rest of
/// the payload as bytes. A payload under 4 bytes cannot be read.
pub fn read_data_type(data: &[u8], start: usize, size: u32) -> (r: Result<IccData, CmsError>)
    ensures
        (if size >= 4 && fits(data@, start as int, size as int) {
            r matches Ok(d) && d.flags == be32(data@, start as int) && d.data@ == data@.subrange(
                start + 4,
                start + size,
            )
        } else {
            r matches Err(e) && e.code == ErrorCode::Read
        }),
{
    let len = data.len();
    if size < 4 || !has_bytes(data, start, size as u64) {
        return Err(read_error());
    }
    let flags = read_be32(data, start);
    let bytes = match read_uint8_type(data, start + 4, size - 4) {
        Ok(b) => b,
        Err(e) => return Err(e),
    };
    Ok(IccData { flags, data: bytes })
}

/// Append a data payload: flags, then the bytes.
pub fn write_data_type(out: &mut Vec<u8>, d: &IccData)
    ensures
        final(out)@ == old(out)@ + bytes32(d.flags) + d.data@,
{
    push_be32(out, d.flags);
    write_uint8_type(out, d.data.as_slice());
}

/// Read a colorant order payload at `start`: a count, kept to at most 16,
/// then that many channel numbers.
pub fn read_colorant_order_type(data: &[u8], start: usize) -> (r: Result<Vec<u8>, CmsError>)
    ensures
        (if !fits(data@, start as int, 4) {
            r matches Err(e) && e.code == ErrorCode::Read
        } else {
            let n = if be32(data@, start as int) > MAX_CHANNELS {
                MAX_CHANNELS as int
            } else {
                be32(data@, start as int) as int
            };
            if !fits(data@, start + 4, n) {
                r matches Err(e) && e.code == ErrorCode::Read
            } else {
                r matches Ok(v) && v@ == data@.subrange(start + 4, start + 4 + n)
            }
        }),
{
    let len = data.len();
    if !has_bytes(data, start, 4) {
        return Err(read_error());
    }
    let count = read_be32(data, start);
    let n = if count > MAX_CHANNELS {
        MAX_CHANNELS
    } else {
        count
    };
    read_uint8_type(data, start + 4, n)
}

/// Append a colorant order payload: the count and the channel numbers.
/// More than 16 channels is a range error, and nothing is written.
pub fn write_colorant_order_type(out: &mut Vec<u8>, order: &[u8]) -> (r: Result<(), CmsError>)
    ensures
        (if order@.len() > MAX_CHANNELS {
            r matches Err(e) && e.code == ErrorCode::Range && final(out)@ == old(out)@
        } else {
            r is Ok && final(out)@ == old(out)@ + bytes32(order@.len() as u32) + order@
        }),
{
    if order.len() > 16 {
        return Err(err(ErrorCode::Range, "Too many colorant order entries"));
    }
    push_be32(out, order.len() as u32);
    write_uint8_type(out, order);
    Ok(())
}

/// Read a video signal payload of `size` bytes at `start`: it must be 4
/// bytes, one per parameter.
pub fn read_video_signal_type(data: &[u8], start: usize, size: u32) -> (r: Result<VideoSignalType, CmsError>)
    ensures
        (if size != 4 {
            r matches Err(e) && e.code == ErrorCode::Range
        } else if !fits(data@, start as int, 4) {
            r matches Err(e) && e.code == ErrorCode::Read
        } else {
            r == Ok::<VideoSignalType, CmsError>(
                VideoSignalType {
                    colour_primaries: data@[start as int],
                    transfer_characteristics: data@[start + 1],
                    matrix_coefficients: data@[start + 2],
                    video_full_range_flag: data@[start + 3],
                },
            )
        }),
{
    if size != 4 {
        return Err(err(ErrorCode::Range, "VideoSignal tag must be 4 bytes"));
    }
    if !has_bytes(data, start, 4) {
        return Err(read_error());
    }
    Ok(
        VideoSignalType {
            colour_primaries: data[start],
            transfer_characteristics: data[start + 1],
            matrix_coefficients: data[start + 2],
            video_full_range_flag: data[start + 3],
        },
    )
}

/// Append a video signal payload: its four parameters.
pub fn write_video_signal_type(out: &mut Vec<u8>, vs: &VideoSignalType)
    ensures
        final(out)@ == old(out)@ + seq![
            vs.colour_primaries,
            vs.transfer_characteristics,
            vs.matrix_coefficients,
            vs.video_full_range_flag,
        ],
{
    out.push(vs.colour_primaries);
    out.push(vs.transfer_characteristics);
    out.push(vs.matrix_coefficients);
    out.push(vs.video_full_range_flag);
    assert(final(out)@ =~= old(out)@ + seq![
        vs.colour_primaries,
        vs.transfer_characteristics,
        vs.matrix_coefficients,
        vs.video_full_range_flag,
    ]);
}

} // verus!
