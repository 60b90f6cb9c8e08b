//! The 22-byte wire frame: header checks and decoding.
use vstd::prelude::*;

use crate::checksum::{calc_checksum, checksum_of, lemma_le_word};
use crate::data::{LidarPacket, LidarReading, PacketModel};
use crate::error::{LidarDriverError, LidarReadingError};
use crate::message::LidarDriverMessage;

verus! {

/// Length of one frame on the wire.
pub const FRAME_LEN: usize = 22;

/// The byte every frame starts with.
pub const START_MARKER: u8 = 0xFA;

/// The frame number of the first frame of a revolution (frame index 0).
pub const FIRST_FRAME_NUMBER: u8 = 0xA0;

/// The frame number of the last frame of a revolution (frame index 89).
pub const LAST_FRAME_NUMBER: u8 = 0xF9;

/// Whether `b` can stand at offset 1 of a frame.
pub open spec fn valid_frame_number(b: u8) -> bool {
    FIRST_FRAME_NUMBER <= b <= LAST_FRAME_NUMBER
}

/// Whether `f` starts like a frame: the start marker, then a valid frame number.
pub open spec fn header_ok(f: Seq<u8>) -> bool {
    f.len() >= 2 && f[0] == START_MARKER && valid_frame_number(f[1])
}

/// The frame index that frame number `b` stands for.
pub open spec fn frame_index_of(b: u8) -> int {
    b - FIRST_FRAME_NUMBER
}

/// The angular slot of the `i`-th reading (from 0) of a frame with number `b`.
pub open spec fn reading_index_of(b: u8, i: int) -> int {
    4 * frame_index_of(b) + i
}

/// The little-endian 16-bit field of `f` at byte offset `pos`.
pub open spec fn field16(f: Seq<u8>, pos: int) -> int {
    f[pos] as int + 256 * (f[pos + 1] as int)
}

/// The reading at slot `index` with raw distance field `raw` and quality
/// field `quality`. Bit 15 of `raw` marks invalid data, with the error code
/// in the low byte and the distance kept raw; otherwise bit 14 marks a weak
/// signal and is cleared from the distance.
pub open spec fn reading_of(index: int, raw: int, quality: int) -> LidarReading {
    if raw >= 0x8000 {
        LidarReading {
            index: index as usize,
            distance: raw as i32,
            quality: quality as i32,
            error: Some(LidarReadingError::InvalidDataError((raw % 256) as i32)),
        }
    } else if raw >= 0x4000 {
        LidarReading {
            index: index as usize,
            distance: (raw - 0x4000) as i32,
            quality: quality as i32,
            error: Some(LidarReadingError::SignalStrengthWarning),
        }
    } else {
        LidarReading {
            index: index as usize,
            distance: raw as i32,
            quality: quality as i32,
            error: None,
        }
    }
}

/// The `i`-th reading (from 0) of frame `f`.
pub open spec fn frame_reading(f: Seq<u8>, i: int) -> LidarReading {
    reading_of(reading_index_of(f[1], i), field16(f, 4 + 4 * i), field16(f, 6 + 4 * i))
}

/// Whether the checksum carried in `f` matches its first 20 bytes.
pub open spec fn checksum_matches(f: Seq<u8>) -> bool {
    checksum_of(f) == field16(f, 20)
}

/// What frame `f` decodes to: its packet, or the frame index of a checksum
/// failure.
pub open spec fn decode_frame(f: Seq<u8>) -> Result<PacketModel, usize> {
    if checksum_matches(f) {
        Ok(
            PacketModel {
                readings: Seq::new(4, |i: int| frame_reading(f, i)),
                raw_speed: field16(f, 2) as u16,
            },
        )
    } else {
        Err(frame_index_of(f[1]) as usize)
    }
}

/// Whether `r` is what decoding frame `f` reports.
pub open spec fn reports_frame(r: Result<LidarDriverMessage, LidarDriverError>, f: Seq<u8>) -> bool {
    match decode_frame(f) {
        Ok(p) => match r {
            Ok(LidarDriverMessage::Packet(q)) => q@ == p,
            _ => false,
        },
        Err(i) => match r {
            Err(LidarDriverError::Checksum(j)) => j == i,
            _ => false,
        },
    }
}

/// How the flag bits of a 16-bit distance field read in arithmetic terms.
proof fn lemma_flag_bits(raw: u32)
    requires
        raw < 65536,
    ensures
        (raw & 0x8000 != 0) == (raw >= 0x8000),
        raw < 0x8000 ==> ((raw & 0x4000 != 0) == (raw >= 0x4000)),
        raw & 0xFF == raw % 256,
        0x4000 <= raw < 0x8000 ==> raw & 0x3FFF == raw - 0x4000,
{
    assert((raw & 0x8000 != 0) == (raw >= 0x8000)) by (bit_vector)
        requires
            raw < 65536,
    ;
    assert(raw < 0x8000 ==> ((raw & 0x4000 != 0) == (raw >= 0x4000))) by (bit_vector);
    assert(raw & 0xFF == raw % 256) by (bit_vector);
    assert(0x4000 <= raw < 0x8000 ==> raw & 0x3FFF == raw - 0x4000) by (bit_vector);
}

/// Reads the little-endian 16-bit field at byte offset `pos`.
fn read_field16(buffer: &[u8; 22], pos: usize) -> (r: u32)
    requires
        pos + 1 < 22,
    ensures
        r as int == field16(buffer@, pos as int),
        r < 65536,
{
    let lsb = buffer[pos] as u32;
    let msb = buffer[pos + 1] as u32;
    proof {
        lemma_le_word(lsb, msb);
    }
    (msb << 8) | lsb
}

/// Decodes one reading from its raw distance and quality fields.
fn decode_reading(index: usize, raw: u32, quality: u32) -> (r: LidarReading)
    requires
        raw < 65536,
        quality < 65536,
    ensures
        r == reading_of(index as int, raw as int, quality as int),
{
    proof {
        lemma_flag_bits(raw);
    }
    if raw & 0x8000 != 0 {
        let error_code = (raw & 0x00FF) as i32;
        LidarReading::new(
            index,
            raw as i32,
            quality as i32,
            Some(LidarReadingError::InvalidDataError(error_code)),
        )
    } else if raw & 0x4000 != 0 {
        let distance = (raw & 0x3FFF) as i32;
        LidarReading::new(
            index,
            distance,
            quality as i32,
            Some(LidarReadingError::SignalStrengthWarning),
        )
    } else {
        LidarReading::new(index, raw as i32, quality as i32, None)
    }
}

/// Decodes a frame whose header has been checked.
///
/// Returns the packet when the checksum matches, and otherwise a checksum
/// error with the frame's index; no reading of a failed frame is decoded.
pub fn parse_packet(buffer: &[u8; 22]) -> (r: Result<LidarDriverMessage, LidarDriverError>)
    requires
        valid_frame_number(buffer@[1]),
    ensures
        reports_frame(r, buffer@),
{
    let index = (buffer[1] - FIRST_FRAME_NUMBER) as usize;
    let raw_speed = read_field16(buffer, 2) as u16;
    let expected_checksum = read_field16(buffer, 20);
    let actual_checksum = calc_checksum(buffer.as_slice());
    if actual_checksum != expected_checksum {
        return Err(LidarDriverError::Checksum(index));
    }
    let mut readings: Vec<LidarReading> = Vec::with_capacity(4);
    let mut i: usize = 0;
    while i < 4
        invariant
            i <= 4,
            valid_frame_number(buffer@[1]),
            index as int == frame_index_of(buffer@[1]),
            readings@ == Seq::new(i as nat, |k: int| frame_reading(buffer@, k)),
        decreases 4 - i,
    {
        let byte_index = 4 + 4 * i;
        let reading_index = 4 * index + i;
        let raw = read_field16(buffer, byte_index);
        let quality = read_field16(buffer, byte_index + 2);
        let reading = decode_reading(reading_index, raw, quality);
        readings.push(reading);
        i = i + 1;
        assert(readings@ =~= Seq::new(i as nat, |k: int| frame_reading(buffer@, k)));
    }
    Ok(LidarDriverMessage::Packet(LidarPacket::new(readings, raw_speed)))
}

/// Frame numbers map to frame indices 0 to 89, and each of a frame's four
/// readings to an angular slot from 0 to 359.
pub proof fn lemma_indices_in_range(b: u8, i: int)
    requires
        valid_frame_number(b),
        0 <= i < 4,
    ensures
        0 <= frame_index_of(b) <= 89,
        0 <= reading_index_of(b, i) <= 359,
{
}

/// A distance field with bit 15 set gives an invalid-data reading whose error
/// code is the field's low byte. One with bit 15 clear and bit 14 set gives a
/// signal-strength warning whose distance is the field with its two flag bits
/// cleared.
pub proof fn lemma_flag_semantics(index: int, d: u16, quality: int)
    ensures
        d & 0x8000 != 0 ==> reading_of(index, d as int, quality).error == Some(
            LidarReadingError::InvalidDataError((d & 0xFF) as i32),
        ),
        d & 0x8000 == 0 && d & 0x4000 != 0 ==> {
            &&& reading_of(index, d as int, quality).distance == (d & 0x3FFF) as i32
            &&& reading_of(index, d as int, quality).error == Some(
                LidarReadingError::SignalStrengthWarning,
            )
        },
{
    let raw = d as u32;
    lemma_flag_bits(raw);
    assert(raw & 0x8000 == (d & 0x8000) as u32 && raw & 0x4000 == (d & 0x4000) as u32 && raw
        & 0xFF == (d & 0xFF) as u32 && raw & 0x3FFF == (d & 0x3FFF) as u32) by (bit_vector)
        requires
            raw == d as u32,
    ;
}

/// Whether two decoding results are the same: equal packets, or checksum
/// errors at the same frame index.
pub open spec fn same_report(
    r1: Result<LidarDriverMessage, LidarDriverError>,
    r2: Result<LidarDriverMessage, LidarDriverError>,
) -> bool {
    match (r1, r2) {
        (Ok(LidarDriverMessage::Packet(p1)), Ok(LidarDriverMessage::Packet(p2))) => p1@ == p2@,
        (Err(LidarDriverError::Checksum(i1)), Err(LidarDriverError::Checksum(i2))) => i1 == i2,
        _ => false,
    }
}

/// Decoding has no hidden state: two decodings of the same bytes report the
/// same result.
pub proof fn lemma_decoding_is_deterministic(
    f: Seq<u8>,
    r1: Result<LidarDriverMessage, LidarDriverError>,
    r2: Result<LidarDriverMessage, LidarDriverError>,
)
    requires
        reports_frame(r1, f),
        reports_frame(r2, f),
    ensures
        same_report(r1, r2),
{
}

} // verus!
