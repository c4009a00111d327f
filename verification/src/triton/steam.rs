//! The 2015 Steam Controller's Bluetooth packet reassembly and its input
//! report decoding.

use crate::bytes::{get_i16_le, get_u64_le, le_i16_at, le_u64_at, write_bytes, zeros};
use crate::triton::button;
use crate::triton::{
    ble_segment, segment_count, segment_header, STEAM_BLE_REPORT_ID, STEAM_BLE_SEGMENT_BYTES,
    STEAM_BLE_SEGMENT_DATA, STEAM_BLE_SEGMENT_LAST, STEAM_BLE_SEGMENT_PAYLOAD_BYTES,
    STEAM_BLE_STATE, STEAM_FEATURE_REPORT_BYTES,
};
use vstd::prelude::*;

verus! {

/// Eight segments of eighteen payload bytes.
pub const STEAM_BLE_PACKET_BYTES: usize = 144;

/// Why a Bluetooth segment was refused.
#[derive(Clone, Copy, Debug, PartialEq, Eq, Structural)]
pub enum AssemblerError {
    /// A segment carrying the Bluetooth report id but shorter than a full
    /// segment; `len` counts its bytes.
    ShortSegment { len: usize },
}

/// Reassembles the 2015 controller's segmented Bluetooth reports: each
/// segment carries a header byte (data flag, segment number in the low three
/// bits, last-segment flag) and eighteen payload bytes.
#[derive(Clone, Copy, Debug)]
pub struct SteamPacketAssembler {
    pub buffer: [u8; 144],
    pub expected_segment: u8,
}

/// Some HID backends repeat the report id; such a segment is read from its
/// second byte on.
pub open spec fn normalized_segment(segment: Seq<u8>) -> Seq<u8> {
    if segment.len() > STEAM_BLE_SEGMENT_BYTES && segment[0] == STEAM_BLE_REPORT_ID && segment[1]
        == STEAM_BLE_REPORT_ID {
        segment.drop_first()
    } else {
        segment
    }
}

/// One step of the assembler: from its buffer and expected segment number,
/// the next buffer, the next expected number and what `push` reports.
///
/// Reports of another id (keyboard or mouse reports) and segments without
/// the data flag are ignored.  A short segment clears the assembler and is
/// an error.  A segment out of order clears the assembler and is dropped,
/// unless it is segment 0, which starts a new packet.  The last segment
/// completes the packet, whose length is returned.
pub open spec fn assembler_step(buffer: Seq<u8>, expected: u8, segment: Seq<u8>) -> (
    Seq<u8>,
    u8,
    Result<Option<usize>, AssemblerError>,
) {
    let seg = normalized_segment(segment);
    if seg.len() == 0 || seg[0] != STEAM_BLE_REPORT_ID {
        (buffer, expected, Ok(None))
    } else if seg.len() < STEAM_BLE_SEGMENT_BYTES {
        (
            zeros(STEAM_BLE_PACKET_BYTES as nat),
            0,
            Err(AssemblerError::ShortSegment { len: seg.len() as usize }),
        )
    } else if seg[1] & STEAM_BLE_SEGMENT_DATA == 0 {
        (buffer, expected, Ok(None))
    } else {
        let number = seg[1] & 0x07u8;
        if number != expected && number != 0 {
            (zeros(STEAM_BLE_PACKET_BYTES as nat), 0, Ok(None))
        } else {
            let base = if number != expected {
                zeros(STEAM_BLE_PACKET_BYTES as nat)
            } else {
                buffer
            };
            let offset = number * STEAM_BLE_SEGMENT_PAYLOAD_BYTES;
            let filled = write_bytes(base, offset, seg.subrange(2, STEAM_BLE_SEGMENT_BYTES as int));
            if seg[1] & STEAM_BLE_SEGMENT_LAST != 0 {
                (filled, 0, Ok(Some((offset + STEAM_BLE_SEGMENT_PAYLOAD_BYTES) as usize)))
            } else {
                (filled, (number + 1) as u8, Ok(None))
            }
        }
    }
}

proof fn lemma_low_bits(h: u8)
    ensures
        h & 0x07u8 <= 7,
{
    assert(h & 0x07u8 <= 7) by (bit_vector);
}

/// Feeds `segments`, in order, to an assembler holding `buffer` and
/// expecting segment `expected`.
pub open spec fn assemble_all(buffer: Seq<u8>, expected: u8, segments: Seq<Seq<u8>>) -> (
    Seq<u8>,
    u8,
    Result<Option<usize>, AssemblerError>,
)
    decreases segments.len(),
{
    if segments.len() == 0 {
        (buffer, expected, Ok(None))
    } else {
        let prev = assemble_all(buffer, expected, segments.drop_last());
        assembler_step(prev.0, prev.1, segments.last())
    }
}

/// The full segments of one packet, numbered from 0, the last one flagged.
pub open spec fn in_order_segments(segments: Seq<Seq<u8>>) -> bool {
    &&& 1 <= segments.len() <= 8
    &&& forall|i: int|
        0 <= i < segments.len() ==> {
            &&& (#[trigger] segments[i]).len() == STEAM_BLE_SEGMENT_BYTES
            &&& segments[i][0] == STEAM_BLE_REPORT_ID
            &&& segments[i][1] == segment_header(i, i + 1 == segments.len())
        }
}

/// The first `k` segments' payloads stand in `buffer`, each at eighteen
/// bytes times its number.
pub open spec fn holds_payloads(buffer: Seq<u8>, segments: Seq<Seq<u8>>, k: int) -> bool {
    forall|i: int|
        0 <= i < k ==> buffer.subrange(
            i * STEAM_BLE_SEGMENT_PAYLOAD_BYTES,
            i * STEAM_BLE_SEGMENT_PAYLOAD_BYTES + STEAM_BLE_SEGMENT_PAYLOAD_BYTES,
        ) == (#[trigger] segments[i]).subrange(2, STEAM_BLE_SEGMENT_BYTES as int)
}

proof fn lemma_header_bits(h: u8, n: u8, last: bool)
    by (bit_vector)
    requires
        n < 8,
        h == 0x80 + n + (if last {
            0x40u8
        } else {
            0u8
        }),
    ensures
        h & 0x80u8 != 0,
        h & 0x07u8 == n,
        (h & 0x40u8 != 0) == last,
{
}

/// One in-order segment: its payload is written at its place, over the
/// buffer when it was the expected segment and over a cleared one otherwise.
proof fn lemma_step_in_order(buffer: Seq<u8>, expected: u8, seg: Seq<u8>, n: u8, last: bool)
    requires
        buffer.len() == STEAM_BLE_PACKET_BYTES,
        seg.len() == STEAM_BLE_SEGMENT_BYTES,
        seg[0] == STEAM_BLE_REPORT_ID,
        seg[1] == segment_header(n as int, last),
        n < 8,
        n > 0 ==> expected == n,
    ensures
        assembler_step(buffer, expected, seg).0 == write_bytes(
            if n == expected {
                buffer
            } else {
                zeros(STEAM_BLE_PACKET_BYTES as nat)
            },
            n * STEAM_BLE_SEGMENT_PAYLOAD_BYTES,
            seg.subrange(2, STEAM_BLE_SEGMENT_BYTES as int),
        ),
        assembler_step(buffer, expected, seg).1 == (if last {
            0
        } else {
            n + 1
        }),
        assembler_step(buffer, expected, seg).2 == (if last {
            Ok::<Option<usize>, AssemblerError>(
                Some((n * STEAM_BLE_SEGMENT_PAYLOAD_BYTES + STEAM_BLE_SEGMENT_PAYLOAD_BYTES) as usize),
            )
        } else {
            Ok::<Option<usize>, AssemblerError>(None)
        }),
{
    assert(normalized_segment(seg) == seg);
    lemma_header_bits(seg[1], n, last);
}

/// After a non-empty prefix of a packet's segments: the payloads seen so
/// far stand in place, and the assembler waits for the next segment, or has
/// completed the packet.
#[verifier::spinoff_prover]
#[verifier::rlimit(40)]
proof fn lemma_assemble_prefix(buffer: Seq<u8>, expected: u8, segments: Seq<Seq<u8>>, k: int)
    requires
        buffer.len() == STEAM_BLE_PACKET_BYTES,
        in_order_segments(segments),
        1 <= k <= segments.len(),
    ensures
        assemble_all(buffer, expected, segments.take(k)).0.len() == STEAM_BLE_PACKET_BYTES,
        holds_payloads(assemble_all(buffer, expected, segments.take(k)).0, segments, k),
        k < segments.len() ==> assemble_all(buffer, expected, segments.take(k)).1 == k,
        k < segments.len() ==> assemble_all(buffer, expected, segments.take(k)).2 == Ok::<
            Option<usize>,
            AssemblerError,
        >(None),
        k == segments.len() ==> assemble_all(buffer, expected, segments.take(k)).1 == 0,
        k == segments.len() ==> assemble_all(buffer, expected, segments.take(k)).2 == Ok::<
            Option<usize>,
            AssemblerError,
        >(Some((k * STEAM_BLE_SEGMENT_PAYLOAD_BYTES) as usize)),
    decreases k,
{
    let seg = segments[k - 1];
    let last = k == segments.len();
    assert(segments.take(k).drop_last() =~= segments.take(k - 1));
    let prev = assemble_all(buffer, expected, segments.take(k - 1));
    if k > 1 {
        lemma_assemble_prefix(buffer, expected, segments, k - 1);
    } else {
        assert(segments.take(0) =~= Seq::<Seq<u8>>::empty());
    }
    assert(prev.0.len() == STEAM_BLE_PACKET_BYTES);
    lemma_step_in_order(prev.0, prev.1, seg, (k - 1) as u8, last);
    let base = if (k - 1) as u8 == prev.1 {
        prev.0
    } else {
        zeros(STEAM_BLE_PACKET_BYTES as nat)
    };
    let payload = seg.subrange(2, STEAM_BLE_SEGMENT_BYTES as int);
    let filled = write_bytes(base, (k - 1) * STEAM_BLE_SEGMENT_PAYLOAD_BYTES, payload);
    assert(assemble_all(buffer, expected, segments.take(k)).0 == filled);
    assert forall|i: int| 0 <= i < k implies filled.subrange(
        i * STEAM_BLE_SEGMENT_PAYLOAD_BYTES,
        i * STEAM_BLE_SEGMENT_PAYLOAD_BYTES + STEAM_BLE_SEGMENT_PAYLOAD_BYTES,
    ) == (#[trigger] segments[i]).subrange(2, STEAM_BLE_SEGMENT_BYTES as int) by {
        if i < k - 1 {
            assert(filled.subrange(
                i * STEAM_BLE_SEGMENT_PAYLOAD_BYTES,
                i * STEAM_BLE_SEGMENT_PAYLOAD_BYTES + STEAM_BLE_SEGMENT_PAYLOAD_BYTES,
            ) =~= prev.0.subrange(
                i * STEAM_BLE_SEGMENT_PAYLOAD_BYTES,
                i * STEAM_BLE_SEGMENT_PAYLOAD_BYTES + STEAM_BLE_SEGMENT_PAYLOAD_BYTES,
            ));
        } else {
            assert(filled.subrange(
                i * STEAM_BLE_SEGMENT_PAYLOAD_BYTES,
                i * STEAM_BLE_SEGMENT_PAYLOAD_BYTES + STEAM_BLE_SEGMENT_PAYLOAD_BYTES,
            ) =~= payload);
        }
    }
}

/// Pushing the segments of one packet in order, whatever the assembler
/// held before, reports nothing until the last segment, then the packet's
/// length, with every segment's payload in its place in the buffer.
pub proof fn law_in_order_segments_reassemble(
    buffer: Seq<u8>,
    expected: u8,
    segments: Seq<Seq<u8>>,
)
    requires
        buffer.len() == STEAM_BLE_PACKET_BYTES,
        in_order_segments(segments),
    ensures
        forall|k: int|
            1 <= k < segments.len() ==> (#[trigger] assemble_all(
                buffer,
                expected,
                segments.take(k),
            )).2 == Ok::<Option<usize>, AssemblerError>(None),
        assemble_all(buffer, expected, segments).2 == Ok::<Option<usize>, AssemblerError>(
            Some((segments.len() * STEAM_BLE_SEGMENT_PAYLOAD_BYTES) as usize),
        ),
        assemble_all(buffer, expected, segments).1 == 0,
        assemble_all(buffer, expected, segments).0.len() == STEAM_BLE_PACKET_BYTES,
        holds_payloads(assemble_all(buffer, expected, segments).0, segments, segments.len() as int),
{
    assert forall|k: int| 1 <= k < segments.len() implies (#[trigger] assemble_all(
        buffer,
        expected,
        segments.take(k),
    )).2 == Ok::<Option<usize>, AssemblerError>(None) by {
        lemma_assemble_prefix(buffer, expected, segments, k);
    }
    lemma_assemble_prefix(buffer, expected, segments, segments.len() as int);
    assert(segments.take(segments.len() as int) =~= segments);
}

/// The Bluetooth segments that frame a feature message.
pub open spec fn framed_segments(message: Seq<u8>) -> Seq<Seq<u8>> {
    Seq::new(segment_count(message.len() as int) as nat, |n: int| ble_segment(message, n))
}

proof fn lemma_segment_count(len: int)
    requires
        1 <= len <= 64,
    ensures
        1 <= segment_count(len) <= 4,
        forall|n: int|
            0 <= n < segment_count(len) ==> #[trigger] (n * STEAM_BLE_SEGMENT_PAYLOAD_BYTES) < len
                && (((n + 1) * STEAM_BLE_SEGMENT_PAYLOAD_BYTES >= len) == (n + 1 == segment_count(
                len,
            ))),
{
}

/// The segments framing a message form one in-order packet.
proof fn lemma_framed_in_order(message: Seq<u8>)
    requires
        1 <= message.len() <= 64,
    ensures
        in_order_segments(framed_segments(message)),
{
    let segs = framed_segments(message);
    let len = message.len() as int;
    lemma_segment_count(len);
    assert forall|i: int| 0 <= i < segs.len() implies {
        &&& (#[trigger] segs[i]).len() == STEAM_BLE_SEGMENT_BYTES
        &&& segs[i][0] == STEAM_BLE_REPORT_ID
        &&& segs[i][1] == segment_header(i, i + 1 == segs.len())
    } by {
        assert(i * STEAM_BLE_SEGMENT_PAYLOAD_BYTES < len);
    }
}

/// The Bluetooth segments that frame a feature message, pushed in order
/// into an assembler, whatever it held before, give the message back: no
/// result for every segment but the last, then the length of all the
/// segments' payloads, with the message at the start of the buffer.
pub proof fn law_framed_message_reassembles(buffer: Seq<u8>, expected: u8, message: Seq<u8>)
    requires
        buffer.len() == STEAM_BLE_PACKET_BYTES,
        1 <= message.len() < STEAM_FEATURE_REPORT_BYTES,
    ensures
        forall|k: int|
            1 <= k < framed_segments(message).len() ==> (#[trigger] assemble_all(
                buffer,
                expected,
                framed_segments(message).take(k),
            )).2 == Ok::<Option<usize>, AssemblerError>(None),
        assemble_all(buffer, expected, framed_segments(message)).2 == Ok::<
            Option<usize>,
            AssemblerError,
        >(Some((segment_count(message.len() as int) * STEAM_BLE_SEGMENT_PAYLOAD_BYTES) as usize)),
        assemble_all(buffer, expected, framed_segments(message)).0.subrange(
            0,
            message.len() as int,
        ) == message,
{
    let segs = framed_segments(message);
    let len = message.len() as int;
    lemma_segment_count(len);
    lemma_framed_in_order(message);
    law_in_order_segments_reassemble(buffer, expected, segs);
    let out = assemble_all(buffer, expected, segs).0;
    assert forall|j: int| 0 <= j < len implies out[j] == message[j] by {
        let i = j / STEAM_BLE_SEGMENT_PAYLOAD_BYTES as int;
        let r = j % STEAM_BLE_SEGMENT_PAYLOAD_BYTES as int;
        assert(0 <= i < segs.len());
        assert(j == i * STEAM_BLE_SEGMENT_PAYLOAD_BYTES + r);
        assert(i * STEAM_BLE_SEGMENT_PAYLOAD_BYTES < len);
        let seg = segs[i];
        assert(out.subrange(
            i * STEAM_BLE_SEGMENT_PAYLOAD_BYTES,
            i * STEAM_BLE_SEGMENT_PAYLOAD_BYTES + STEAM_BLE_SEGMENT_PAYLOAD_BYTES,
        )[r] == out[j]);
        assert(seg.subrange(2, STEAM_BLE_SEGMENT_BYTES as int)[r] == seg[2 + r]);
    }
    assert(out.subrange(0, len) =~= message);
}

impl Default for SteamPacketAssembler {
    fn default() -> (r: Self)
        ensures
            r.buffer@ == zeros(STEAM_BLE_PACKET_BYTES as nat),
            r.expected_segment == 0,
    {
        let r = SteamPacketAssembler { buffer: [0u8; 144], expected_segment: 0 };
        assert(r.buffer@ =~= zeros(STEAM_BLE_PACKET_BYTES as nat));
        r
    }
}

impl SteamPacketAssembler {
    /// Drops any partial packet.
    pub fn reset(&mut self)
        ensures
            final(self).buffer@ == zeros(STEAM_BLE_PACKET_BYTES as nat),
            final(self).expected_segment == 0,
    {
        self.buffer = [0u8; 144];
        self.expected_segment = 0;
        assert(self.buffer@ =~= zeros(STEAM_BLE_PACKET_BYTES as nat));
    }

    /// Feeds one received segment; returns the packet length once the last
    /// segment of a packet has arrived, the packet then standing at the
    /// start of `buffer`.
    pub fn push(&mut self, segment: &[u8]) -> (r: Result<Option<usize>, AssemblerError>)
        ensures
            final(self).buffer@ == assembler_step(
                old(self).buffer@,
                old(self).expected_segment,
                segment@,
            ).0,
            final(self).expected_segment == assembler_step(
                old(self).buffer@,
                old(self).expected_segment,
                segment@,
            ).1,
            r == assembler_step(old(self).buffer@, old(self).expected_segment, segment@).2,
    {
        let seg: &[u8] = if segment.len() > STEAM_BLE_SEGMENT_BYTES && segment[0]
            == STEAM_BLE_REPORT_ID && segment[1] == STEAM_BLE_REPORT_ID {
            vstd::slice::slice_subrange(segment, 1, segment.len())
        } else {
            segment
        };
        assert(seg@ =~= normalized_segment(segment@));
        if seg.len() == 0 || seg[0] != STEAM_BLE_REPORT_ID {
            return Ok(None);
        }
        if seg.len() < STEAM_BLE_SEGMENT_BYTES {
            self.reset();
            return Err(AssemblerError::ShortSegment { len: seg.len() });
        }
        let header = seg[1];
        if header & STEAM_BLE_SEGMENT_DATA == 0 {
            return Ok(None);
        }
        let number = header & 0x07;
        proof {
            lemma_low_bits(header);
        }
        if number != self.expected_segment {
            self.reset();
            if number != 0 {
                return Ok(None);
            }
        }
        let ghost base = self.buffer@;
        let offset = number as usize * STEAM_BLE_SEGMENT_PAYLOAD_BYTES;
        let mut j: usize = 0;
        while j < STEAM_BLE_SEGMENT_PAYLOAD_BYTES
            invariant
                0 <= j <= STEAM_BLE_SEGMENT_PAYLOAD_BYTES,
                offset + STEAM_BLE_SEGMENT_PAYLOAD_BYTES <= STEAM_BLE_PACKET_BYTES,
                seg@.len() >= STEAM_BLE_SEGMENT_BYTES,
                base.len() == STEAM_BLE_PACKET_BYTES,
                self.buffer@ == write_bytes(base, offset as int, seg@.subrange(2, 2 + j as int)),
            decreases STEAM_BLE_SEGMENT_PAYLOAD_BYTES - j,
        {
            self.buffer[offset + j] = seg[2 + j];
            j = j + 1;
            assert(self.buffer@ =~= write_bytes(base, offset as int, seg@.subrange(2, 2 + j as int)));
        }
        if header & STEAM_BLE_SEGMENT_LAST != 0 {
            self.expected_segment = 0;
            Ok(Some(offset + STEAM_BLE_SEGMENT_PAYLOAD_BYTES))
        } else {
            self.expected_segment = number + 1;
            Ok(None)
        }
    }
}

// ---------------------------------------------------------------------------
// Input reports.

pub const STEAM_BLE_BUTTON_CHUNK_1: u16 = 0x0010;
pub const STEAM_BLE_BUTTON_CHUNK_2: u16 = 0x0020;
pub const STEAM_BLE_BUTTON_CHUNK_3: u16 = 0x0040;
pub const STEAM_BLE_LEFT_JOYSTICK_CHUNK: u16 = 0x0080;
pub const STEAM_BLE_LEFT_TRACKPAD_CHUNK: u16 = 0x0100;
pub const STEAM_BLE_RIGHT_TRACKPAD_CHUNK: u16 = 0x0200;
pub const STEAM_BLE_IMU_ACCEL_CHUNK: u16 = 0x0400;
pub const STEAM_BLE_IMU_GYRO_CHUNK: u16 = 0x0800;
pub const STEAM_BLE_IMU_QUAT_CHUNK: u16 = 0x1000;

pub const STEAM_RIGHT_BUMPER: u64 = 0x0000_0004;
pub const STEAM_LEFT_BUMPER: u64 = 0x0000_0008;
pub const STEAM_Y: u64 = 0x0000_0010;
pub const STEAM_B: u64 = 0x0000_0020;
pub const STEAM_X: u64 = 0x0000_0040;
pub const STEAM_A: u64 = 0x0000_0080;
pub const STEAM_DPAD_UP: u64 = 0x0000_0100;
pub const STEAM_DPAD_RIGHT: u64 = 0x0000_0200;
pub const STEAM_DPAD_LEFT: u64 = 0x0000_0400;
pub const STEAM_DPAD_DOWN: u64 = 0x0000_0800;
pub const STEAM_BACK: u64 = 0x0000_1000;
pub const STEAM_GUIDE: u64 = 0x0000_2000;
pub const STEAM_START: u64 = 0x0000_4000;
pub const STEAM_LEFT_PADDLE: u64 = 0x0000_8000;
pub const STEAM_RIGHT_PADDLE: u64 = 0x0001_0000;
pub const STEAM_LEFT_PAD_CLICKED: u64 = 0x0002_0000;
pub const STEAM_RIGHT_PAD_CLICKED: u64 = 0x0004_0000;
pub const STEAM_LEFT_PAD_TOUCHED: u64 = 0x0008_0000;
pub const STEAM_RIGHT_PAD_TOUCHED: u64 = 0x0010_0000;
pub const STEAM_LEFT_PAD_AND_JOYSTICK: u64 = 0x0080_0000;
pub const STEAM_JOYSTICK_CLICKED: u64 = 0x0040_0000;

/// Full-scale trigger reading of the 2015 controller after expansion.
pub const STEAM_TRIGGER_MAX: u32 = 26_000;

/// The accumulated state of a 2015 controller: Bluetooth reports carry only
/// the parts that changed, so the state persists between reports.
#[derive(Clone, Copy, Debug)]
pub struct SteamRawState {
    pub buttons: u64,
    pub trigger_left: u16,
    pub trigger_right: u16,
    pub left_stick: (i16, i16),
    pub left_pad: (i16, i16),
    pub right_pad: (i16, i16),
    pub accel: (i16, i16, i16),
    pub gyro: (i16, i16, i16),
}

/// The state before any report: everything zero.
pub open spec fn zero_raw_state() -> SteamRawState {
    SteamRawState {
        buttons: 0,
        trigger_left: 0,
        trigger_right: 0,
        left_stick: (0, 0),
        left_pad: (0, 0),
        right_pad: (0, 0),
        accel: (0, 0, 0),
        gyro: (0, 0, 0),
    }
}

impl Default for SteamRawState {
    fn default() -> (r: Self)
        ensures
            r == zero_raw_state(),
    {
        SteamRawState {
            buttons: 0,
            trigger_left: 0,
            trigger_right: 0,
            left_stick: (0, 0),
            left_pad: (0, 0),
            right_pad: (0, 0),
            accel: (0, 0, 0),
            gyro: (0, 0, 0),
        }
    }
}

/// A trigger byte expanded to the 0..=32767 range: scaled by 129 onto the
/// controller's full-scale reading of 26000, then clamped.
pub open spec fn steam_trigger_level(value: u8) -> u16 {
    let scaled = value * 129 * 32767 / STEAM_TRIGGER_MAX as int;
    if scaled < 32767 {
        scaled as u16
    } else {
        32767
    }
}

pub fn steam_trigger(value: u8) -> (r: u16)
    ensures
        r == steam_trigger_level(value),
{
    let expanded: u32 = value as u32 * 129;
    assert(expanded * 32767 <= 32895 * 32767) by (nonlinear_arith)
        requires
            expanded <= 32895,
    ;
    let scaled = (expanded * 32767) / STEAM_TRIGGER_MAX;
    if scaled < 32767 {
        scaled as u16
    } else {
        32767
    }
}

/// Takes the `len` bytes at `*offset` and advances it past them; `None`,
/// with `*offset` unchanged, when they run past the end of `data`.
pub fn take_bytes<'a>(data: &'a [u8], offset: &mut usize, len: usize) -> (r: Option<&'a [u8]>)
    ensures
        old(offset) + len <= data@.len() ==> (r matches Some(b) && b@ == data@.subrange(
            *old(offset) as int,
            old(offset) + len,
        ) && *final(offset) == old(offset) + len),
        old(offset) + len > data@.len() ==> r is None && *final(offset) == *old(offset),
{
    if *offset <= data.len() && len <= data.len() - *offset {
        let start = *offset;
        *offset = start + len;
        Some(vstd::slice::slice_subrange(data, start, start + len))
    } else {
        None
    }
}

/// The little-endian `i16` at `offset`, if two bytes stand there.
pub fn i16_at(data: &[u8], offset: usize) -> (r: Option<i16>)
    requires
        offset + 2 <= usize::MAX,
    ensures
        offset + 2 <= data@.len() ==> r == Some(le_i16_at(data@, offset as int)),
        offset + 2 > data@.len() ==> r is None,
{
    if offset + 2 <= data.len() {
        Some(get_i16_le(data, offset))
    } else {
        None
    }
}

/// The two little-endian `i16` at `offset`, if four bytes stand there.
pub fn pair_at(data: &[u8], offset: usize) -> (r: Option<(i16, i16)>)
    requires
        offset + 4 <= usize::MAX,
    ensures
        offset + 4 <= data@.len() ==> r == Some(
            (le_i16_at(data@, offset as int), le_i16_at(data@, offset + 2)),
        ),
        offset + 4 > data@.len() ==> r is None,
{
    let x = match i16_at(data, offset) {
        Some(v) => v,
        None => return None,
    };
    let y = match i16_at(data, offset + 2) {
        Some(v) => v,
        None => return None,
    };
    Some((x, y))
}

/// The three little-endian `i16` at `offset`, if six bytes stand there.
pub fn triple_at(data: &[u8], offset: usize) -> (r: Option<(i16, i16, i16)>)
    requires
        offset + 6 <= usize::MAX,
    ensures
        offset + 6 <= data@.len() ==> r == Some(
            (
                le_i16_at(data@, offset as int),
                le_i16_at(data@, offset + 2),
                le_i16_at(data@, offset + 4),
            ),
        ),
        offset + 6 > data@.len() ==> r is None,
{
    let x = match i16_at(data, offset) {
        Some(v) => v,
        None => return None,
    };
    let y = match i16_at(data, offset + 2) {
        Some(v) => v,
        None => return None,
    };
    let z = match i16_at(data, offset + 4) {
        Some(v) => v,
        None => return None,
    };
    Some((x, y, z))
}

pub open spec fn le_pair(b: Seq<u8>, at: int) -> (i16, i16) {
    (le_i16_at(b, at), le_i16_at(b, at + 2))
}

pub open spec fn le_triple(b: Seq<u8>, at: int) -> (i16, i16, i16) {
    (le_i16_at(b, at), le_i16_at(b, at + 2), le_i16_at(b, at + 4))
}

/// `word` with the byte at bit `shift` replaced by `v`.
pub open spec fn with_byte(word: u64, shift: u64, v: u8) -> u64 {
    (word & !(0xFFu64 << shift)) | ((v as u64) << shift)
}

/// Presence flag of Bluetooth state chunk `k`, in the order the chunks
/// follow one another in a report.
pub open spec fn chunk_flag(k: int) -> u16 {
    if k == 0 {
        STEAM_BLE_BUTTON_CHUNK_1
    } else if k == 1 {
        STEAM_BLE_BUTTON_CHUNK_2
    } else if k == 2 {
        STEAM_BLE_BUTTON_CHUNK_3
    } else if k == 3 {
        STEAM_BLE_LEFT_JOYSTICK_CHUNK
    } else if k == 4 {
        STEAM_BLE_LEFT_TRACKPAD_CHUNK
    } else if k == 5 {
        STEAM_BLE_RIGHT_TRACKPAD_CHUNK
    } else if k == 6 {
        STEAM_BLE_IMU_ACCEL_CHUNK
    } else if k == 7 {
        STEAM_BLE_IMU_GYRO_CHUNK
    } else {
        STEAM_BLE_IMU_QUAT_CHUNK
    }
}

/// Byte length of Bluetooth state chunk `k`.
pub open spec fn chunk_len(k: int) -> int {
    if k == 0 || k == 2 {
        3
    } else if k == 1 {
        2
    } else if 3 <= k <= 5 {
        4
    } else if k == 6 || k == 7 {
        6
    } else {
        8
    }
}

/// The state after chunk `k` with bytes `b`: the low three button bytes,
/// the two triggers, the high three button bytes, the joystick, the two
/// trackpads, the accelerometer, the gyro; the orientation quaternion is
/// skipped.
pub open spec fn apply_chunk(k: int, b: Seq<u8>, s: SteamRawState) -> SteamRawState {
    if k == 0 {
        SteamRawState {
            buttons: (s.buttons & !0x00FF_FFFFu64) | (b[0] as u64) | ((b[1] as u64) << 8u64) | ((
            b[2] as u64) << 16u64),
            ..s
        }
    } else if k == 1 {
        SteamRawState {
            trigger_left: steam_trigger_level(b[0]),
            trigger_right: steam_trigger_level(b[1]),
            ..s
        }
    } else if k == 2 {
        SteamRawState {
            buttons: with_byte(with_byte(with_byte(s.buttons, 40, b[0]), 48, b[1]), 56, b[2]),
            ..s
        }
    } else if k == 3 {
        SteamRawState { left_stick: le_pair(b, 0), ..s }
    } else if k == 4 {
        SteamRawState { left_pad: le_pair(b, 0), ..s }
    } else if k == 5 {
        SteamRawState { right_pad: le_pair(b, 0), ..s }
    } else if k == 6 {
        SteamRawState { accel: le_triple(b, 0), ..s }
    } else if k == 7 {
        SteamRawState { gyro: le_triple(b, 0), ..s }
    } else {
        s
    }
}

/// The chunk flags of a Bluetooth state report: the high nibble of its
/// first byte and its second byte.
pub open spec fn ble_chunks(data: Seq<u8>) -> u16 {
    ((data[0] & 0xF0u8) as u16) | ((data[1] as u16) << 8u16)
}

/// Decodes the chunks from kind `k` on, the next one starting at `offset`.
/// The flag is `false` when a present chunk runs past the end of `data`;
/// the chunks before it have then been applied.
pub open spec fn ble_decode(data: Seq<u8>, chunks: u16, k: int, offset: int, s: SteamRawState) -> (
    SteamRawState,
    bool,
)
    decreases 9 - k,
{
    if k < 0 || k >= 9 {
        (s, true)
    } else if chunks & chunk_flag(k) != 0 {
        if offset + chunk_len(k) > data.len() {
            (s, false)
        } else {
            ble_decode(
                data,
                chunks,
                k + 1,
                offset + chunk_len(k),
                apply_chunk(k, data.subrange(offset, offset + chunk_len(k)), s),
            )
        }
    } else {
        ble_decode(data, chunks, k + 1, offset, s)
    }
}

/// Whether `data` is a Bluetooth state report.
pub open spec fn is_ble_state_report(data: Seq<u8>) -> bool {
    data.len() >= 2 && data[0] & 0x0Fu8 == STEAM_BLE_STATE
}

fn ble_chunk(k: usize) -> (r: (u16, usize))
    requires
        k < 9,
    ensures
        r.0 == chunk_flag(k as int),
        r.1 == chunk_len(k as int),
{
    if k == 0 {
        (STEAM_BLE_BUTTON_CHUNK_1, 3)
    } else if k == 1 {
        (STEAM_BLE_BUTTON_CHUNK_2, 2)
    } else if k == 2 {
        (STEAM_BLE_BUTTON_CHUNK_3, 3)
    } else if k == 3 {
        (STEAM_BLE_LEFT_JOYSTICK_CHUNK, 4)
    } else if k == 4 {
        (STEAM_BLE_LEFT_TRACKPAD_CHUNK, 4)
    } else if k == 5 {
        (STEAM_BLE_RIGHT_TRACKPAD_CHUNK, 4)
    } else if k == 6 {
        (STEAM_BLE_IMU_ACCEL_CHUNK, 6)
    } else if k == 7 {
        (STEAM_BLE_IMU_GYRO_CHUNK, 6)
    } else {
        (STEAM_BLE_IMU_QUAT_CHUNK, 8)
    }
}

fn set_byte(word: u64, shift: u64, v: u8) -> (r: u64)
    requires
        shift < 64,
    ensures
        r == with_byte(word, shift, v),
{
    (word & !(0xFFu64 << shift)) | ((v as u64) << shift)
}

fn apply_chunk_bytes(k: usize, b: &[u8], state: &mut SteamRawState)
    requires
        k < 9,
        b@.len() == chunk_len(k as int),
    ensures
        *final(state) == apply_chunk(k as int, b@, *old(state)),
{
    if k == 0 {
        state.buttons = (state.buttons & !0x00FF_FFFFu64) | (b[0] as u64) | ((b[1] as u64) << 8u64)
            | ((b[2] as u64) << 16u64);
    } else if k == 1 {
        state.trigger_left = steam_trigger(b[0]);
        state.trigger_right = steam_trigger(b[1]);
    } else if k == 2 {
        let w = set_byte(state.buttons, 40, b[0]);
        let w = set_byte(w, 48, b[1]);
        state.buttons = set_byte(w, 56, b[2]);
    } else if k == 3 {
        state.left_stick = (get_i16_le(b, 0), get_i16_le(b, 2));
    } else if k == 4 {
        state.left_pad = (get_i16_le(b, 0), get_i16_le(b, 2));
    } else if k == 5 {
        state.right_pad = (get_i16_le(b, 0), get_i16_le(b, 2));
    } else if k == 6 {
        state.accel = (get_i16_le(b, 0), get_i16_le(b, 2), get_i16_le(b, 4));
    } else if k == 7 {
        state.gyro = (get_i16_le(b, 0), get_i16_le(b, 2), get_i16_le(b, 4));
    }
}

/// Bytes the chunk with presence flag `flag` and length `len` takes in a
/// report whose chunk flags are `chunks`.
pub open spec fn chunk_size(chunks: u16, flag: u16, len: int) -> int {
    if chunks & flag != 0 {
        len
    } else {
        0
    }
}

/// Where each chunk of a Bluetooth state report starts: after the two flag
/// bytes, the chunks follow in a fixed order, each present only when its
/// flag is set: low buttons (3 bytes), triggers (2), high buttons (3),
/// joystick (4), left trackpad (4), right trackpad (4), accelerometer (6),
/// gyro (6), orientation (8).
pub open spec fn triggers_at(c: u16) -> int {
    2 + chunk_size(c, STEAM_BLE_BUTTON_CHUNK_1, 3)
}

pub open spec fn joystick_at(c: u16) -> int {
    triggers_at(c) + chunk_size(c, STEAM_BLE_BUTTON_CHUNK_2, 2) + chunk_size(
        c,
        STEAM_BLE_BUTTON_CHUNK_3,
        3,
    )
}

pub open spec fn left_pad_at(c: u16) -> int {
    joystick_at(c) + chunk_size(c, STEAM_BLE_LEFT_JOYSTICK_CHUNK, 4)
}

pub open spec fn right_pad_at(c: u16) -> int {
    left_pad_at(c) + chunk_size(c, STEAM_BLE_LEFT_TRACKPAD_CHUNK, 4)
}

pub open spec fn accel_at(c: u16) -> int {
    right_pad_at(c) + chunk_size(c, STEAM_BLE_RIGHT_TRACKPAD_CHUNK, 4)
}

pub open spec fn gyro_at(c: u16) -> int {
    accel_at(c) + chunk_size(c, STEAM_BLE_IMU_ACCEL_CHUNK, 6)
}

/// The length a report with chunk flags `c` needs.
pub open spec fn ble_report_len(c: u16) -> int {
    gyro_at(c) + chunk_size(c, STEAM_BLE_IMU_GYRO_CHUNK, 6) + chunk_size(
        c,
        STEAM_BLE_IMU_QUAT_CHUNK,
        8,
    )
}

/// Bytes the chunks from kind `k` on take.
spec fn rest_size(c: u16, k: int) -> int
    decreases 9 - k,
{
    if k < 0 || k >= 9 {
        0
    } else {
        chunk_size(c, chunk_flag(k), chunk_len(k)) + rest_size(c, k + 1)
    }
}

proof fn lemma_ble_fits(data: Seq<u8>, c: u16, k: int, off: int, s: SteamRawState)
    requires
        0 <= k <= 9,
        0 <= off <= data.len(),
    ensures
        ble_decode(data, c, k, off, s).1 == (off + rest_size(c, k) <= data.len()),
        rest_size(c, k) >= 0,
    decreases 9 - k,
{
    if k < 9 {
        let size = chunk_size(c, chunk_flag(k), chunk_len(k));
        if off + size <= data.len() {
            if c & chunk_flag(k) != 0 {
                lemma_ble_fits(
                    data,
                    c,
                    k + 1,
                    off + chunk_len(k),
                    apply_chunk(k, data.subrange(off, off + chunk_len(k)), s),
                );
            } else {
                lemma_ble_fits(data, c, k + 1, off, s);
            }
        } else {
            lemma_ble_fits(data, c, k + 1, off, s);
        }
    }
}

/// Where chunk kind `k` starts: after the flag bytes and the chunks of the
/// kinds before it that are present.
spec fn offset_of(c: u16, k: int) -> int
    decreases k,
{
    if k <= 0 {
        2
    } else {
        offset_of(c, k - 1) + chunk_size(c, chunk_flag(k - 1), chunk_len(k - 1))
    }
}

/// The state after the chunks of the kinds before `k`.
spec fn state_before(data: Seq<u8>, c: u16, k: int, s: SteamRawState) -> SteamRawState
    decreases k,
{
    if k <= 0 {
        s
    } else if c & chunk_flag(k - 1) != 0 {
        apply_chunk(
            k - 1,
            data.subrange(offset_of(c, k - 1), offset_of(c, k - 1) + chunk_len(k - 1)),
            state_before(data, c, k - 1, s),
        )
    } else {
        state_before(data, c, k - 1, s)
    }
}

proof fn lemma_offsets_grow(c: u16, k: int)
    requires
        0 <= k <= 9,
    ensures
        2 <= offset_of(c, k),
        offset_of(c, k) + rest_size(c, k) == 2 + rest_size(c, 0),
    decreases k,
{
    if k > 0 {
        lemma_offsets_grow(c, k - 1);
        assert(rest_size(c, k - 1) == chunk_size(c, chunk_flag(k - 1), chunk_len(k - 1))
            + rest_size(c, k));
        lemma_rest_nonneg(c, k);
    }
}

proof fn lemma_rest_nonneg(c: u16, k: int)
    ensures
        rest_size(c, k) >= 0,
    decreases 9 - k,
{
    if 0 <= k < 9 {
        lemma_rest_nonneg(c, k + 1);
    }
}

/// When every chunk fits, decoding from the start is decoding from kind `k`
/// after the chunks before it.
proof fn lemma_ble_prefix(data: Seq<u8>, c: u16, k: int, s: SteamRawState)
    requires
        0 <= k <= 9,
        2 + rest_size(c, 0) <= data.len(),
    ensures
        ble_decode(data, c, 0, 2, s) == ble_decode(data, c, k, offset_of(c, k), state_before(data, c, k, s)),
    decreases k,
{
    if k > 0 {
        lemma_ble_prefix(data, c, k - 1, s);
        lemma_offsets_grow(c, k - 1);
        lemma_offsets_grow(c, k);
        lemma_rest_nonneg(c, k);
    }
}

proof fn lemma_offsets(c: u16)
    ensures
        offset_of(c, 1) == triggers_at(c),
        offset_of(c, 3) == joystick_at(c),
        offset_of(c, 4) == left_pad_at(c),
        offset_of(c, 5) == right_pad_at(c),
        offset_of(c, 6) == accel_at(c),
        offset_of(c, 7) == gyro_at(c),
        2 + rest_size(c, 0) == ble_report_len(c),
{
    reveal_with_fuel(offset_of, 8);
    reveal_with_fuel(rest_size, 10);
}

proof fn lemma_fields_after(data: Seq<u8>, c: u16, s: SteamRawState)
    ensures
        state_before(data, c, 9, s).trigger_left == state_before(data, c, 2, s).trigger_left,
        state_before(data, c, 9, s).trigger_right == state_before(data, c, 2, s).trigger_right,
        state_before(data, c, 9, s).left_stick == state_before(data, c, 4, s).left_stick,
        state_before(data, c, 9, s).left_pad == state_before(data, c, 5, s).left_pad,
        state_before(data, c, 9, s).right_pad == state_before(data, c, 6, s).right_pad,
        state_before(data, c, 9, s).accel == state_before(data, c, 7, s).accel,
        state_before(data, c, 9, s).gyro == state_before(data, c, 8, s).gyro,
        state_before(data, c, 1, s).trigger_left == s.trigger_left,
        state_before(data, c, 1, s).trigger_right == s.trigger_right,
        state_before(data, c, 3, s).left_stick == s.left_stick,
        state_before(data, c, 4, s).left_pad == s.left_pad,
        state_before(data, c, 5, s).right_pad == s.right_pad,
        state_before(data, c, 6, s).accel == s.accel,
        state_before(data, c, 7, s).gyro == s.gyro,
{
    reveal_with_fuel(state_before, 10);
}

/// What a compact Bluetooth state report sets, chunk by chunk: decoding
/// succeeds exactly when the report is as long as its chunks need; then the
/// triggers, joystick, left and right trackpads, accelerometer and gyro
/// each take the values of their own chunk (little-endian, in the chunk
/// order) when its flag is set and keep their value otherwise.
pub proof fn law_ble_report_fields(data: Seq<u8>, s: SteamRawState)
    requires
        is_ble_state_report(data),
    ensures
        ble_decode(data, ble_chunks(data), 0, 2, s).1 == (ble_report_len(ble_chunks(data))
            <= data.len()),
        ble_report_len(ble_chunks(data)) <= data.len() ==> ({
            let c = ble_chunks(data);
            let r = ble_decode(data, c, 0, 2, s).0;
            &&& r.trigger_left == (if c & STEAM_BLE_BUTTON_CHUNK_2 != 0 {
                steam_trigger_level(data[triggers_at(c)])
            } else {
                s.trigger_left
            })
            &&& r.trigger_right == (if c & STEAM_BLE_BUTTON_CHUNK_2 != 0 {
                steam_trigger_level(data[triggers_at(c) + 1])
            } else {
                s.trigger_right
            })
            &&& r.left_stick == (if c & STEAM_BLE_LEFT_JOYSTICK_CHUNK != 0 {
                (le_i16_at(data, joystick_at(c)), le_i16_at(data, joystick_at(c) + 2))
            } else {
                s.left_stick
            })
            &&& r.left_pad == (if c & STEAM_BLE_LEFT_TRACKPAD_CHUNK != 0 {
                (le_i16_at(data, left_pad_at(c)), le_i16_at(data, left_pad_at(c) + 2))
            } else {
                s.left_pad
            })
            &&& r.right_pad == (if c & STEAM_BLE_RIGHT_TRACKPAD_CHUNK != 0 {
                (le_i16_at(data, right_pad_at(c)), le_i16_at(data, right_pad_at(c) + 2))
            } else {
                s.right_pad
            })
            &&& r.accel == (if c & STEAM_BLE_IMU_ACCEL_CHUNK != 0 {
                (
                    le_i16_at(data, accel_at(c)),
                    le_i16_at(data, accel_at(c) + 2),
                    le_i16_at(data, accel_at(c) + 4),
                )
            } else {
                s.accel
            })
            &&& r.gyro == (if c & STEAM_BLE_IMU_GYRO_CHUNK != 0 {
                (
                    le_i16_at(data, gyro_at(c)),
                    le_i16_at(data, gyro_at(c) + 2),
                    le_i16_at(data, gyro_at(c) + 4),
                )
            } else {
                s.gyro
            })
        }),
{
    let c = ble_chunks(data);
    lemma_ble_fits(data, c, 0, 2, s);
    lemma_offsets(c);
    if ble_report_len(c) <= data.len() {
        lemma_ble_prefix(data, c, 9, s);
        lemma_fields_after(data, c, s);
        let b = |k: int| state_before(data, c, k, s);
        assert(b(2) == if c & chunk_flag(1) != 0 {
            apply_chunk(1, data.subrange(offset_of(c, 1), offset_of(c, 1) + 2), b(1))
        } else {
            b(1)
        });
        assert(b(4) == if c & chunk_flag(3) != 0 {
            apply_chunk(3, data.subrange(offset_of(c, 3), offset_of(c, 3) + 4), b(3))
        } else {
            b(3)
        });
        assert(b(5) == if c & chunk_flag(4) != 0 {
            apply_chunk(4, data.subrange(offset_of(c, 4), offset_of(c, 4) + 4), b(4))
        } else {
            b(4)
        });
        assert(b(6) == if c & chunk_flag(5) != 0 {
            apply_chunk(5, data.subrange(offset_of(c, 5), offset_of(c, 5) + 4), b(5))
        } else {
            b(5)
        });
        assert(b(7) == if c & chunk_flag(6) != 0 {
            apply_chunk(6, data.subrange(offset_of(c, 6), offset_of(c, 6) + 6), b(6))
        } else {
            b(6)
        });
        assert(b(8) == if c & chunk_flag(7) != 0 {
            apply_chunk(7, data.subrange(offset_of(c, 7), offset_of(c, 7) + 6), b(7))
        } else {
            b(7)
        });
    }
}

/// Applies a compact Bluetooth state report.  `None` for another report,
/// leaving the state alone, and for a truncated one, keeping the chunks
/// decoded before the one that ran short.
pub fn update_steam_ble_state(data: &[u8], state: &mut SteamRawState) -> (r: Option<()>)
    ensures
        !is_ble_state_report(data@) ==> r is None && *final(state) == *old(state),
        is_ble_state_report(data@) ==> *final(state) == ble_decode(
            data@,
            ble_chunks(data@),
            0,
            2,
            *old(state),
        ).0,
        is_ble_state_report(data@) ==> (r is Some) == ble_decode(
            data@,
            ble_chunks(data@),
            0,
            2,
            *old(state),
        ).1,
{
    if data.len() < 2 || data[0] & 0x0F != STEAM_BLE_STATE {
        return None;
    }
    let chunks: u16 = ((data[0] & 0xF0) as u16) | ((data[1] as u16) << 8u16);
    let mut offset: usize = 2;
    let mut k: usize = 0;
    while k < 9
        invariant
            0 <= k <= 9,
            2 <= offset <= data@.len(),
            is_ble_state_report(data@),
            chunks == ble_chunks(data@),
            ble_decode(data@, chunks, k as int, offset as int, *state) == ble_decode(
                data@,
                chunks,
                0,
                2,
                *old(state),
            ),
        decreases 9 - k,
    {
        let (flag, len) = ble_chunk(k);
        if chunks & flag != 0 {
            let bytes = match take_bytes(data, &mut offset, len) {
                Some(b) => b,
                None => return None,
            };
            apply_chunk_bytes(k, bytes, state);
        }
        k = k + 1;
    }
    Some(())
}

/// A full (wired or dongle) report whose zero report id was retained is
/// read from its second byte on.
pub open spec fn full_report_body(data: Seq<u8>) -> Seq<u8> {
    if data.len() >= 4 && data[0] == 0 && data[1] == 1 && data[2] == 0 {
        data.drop_first()
    } else {
        data
    }
}

/// Whether `d` is a full state report the decoder reads: at least 24 bytes,
/// starting with 1, 0, of report type 1 or 7.
pub open spec fn is_full_state_report(d: Seq<u8>) -> bool {
    d.len() >= 24 && d[0] == 1 && d[1] == 0 && (d[2] == 1 || d[2] == 7)
}

/// Buttons, triggers and trackpads of a full report.  Bytes 8..16 hold the
/// button word, whose bits 24..40 are the trigger bytes and are cleared.
/// The left trackpad and the joystick share bytes 16..20: a touched pad
/// owns them, the joystick otherwise; the one not reported is zeroed unless
/// both are in use.
pub open spec fn full_report_controls(d: Seq<u8>, s: SteamRawState) -> SteamRawState {
    let buttons = le_u64_at(d, 8) & !(0xFFFFu64 << 24u64);
    let packed_left = le_pair(d, 16);
    let touched = buttons & STEAM_LEFT_PAD_TOUCHED != 0;
    let both = buttons & STEAM_LEFT_PAD_AND_JOYSTICK != 0;
    SteamRawState {
        buttons,
        trigger_left: steam_trigger_level(d[11]),
        trigger_right: steam_trigger_level(d[12]),
        left_stick: if !touched {
            packed_left
        } else if both {
            s.left_stick
        } else {
            (0, 0)
        },
        left_pad: if touched {
            packed_left
        } else if both {
            s.left_pad
        } else {
            (0, 0)
        },
        right_pad: le_pair(d, 20),
        accel: s.accel,
        gyro: s.gyro,
    }
}

/// Decodes a full state report onto `s`.  Type 1 carries the accelerometer
/// at 28 and the gyro at 34 and needs 40 bytes; type 7 carries one of them
/// at 25, named by byte 24 (2 accelerometer, 3 gyro), and needs 31 bytes.
/// The flag is `false` for a report too short for its motion data; its
/// controls have then been applied.
pub open spec fn full_decode(d: Seq<u8>, s: SteamRawState) -> (SteamRawState, bool) {
    let c = full_report_controls(d, s);
    if d[2] == 1 {
        if d.len() < 40 {
            (c, false)
        } else {
            (SteamRawState { accel: le_triple(d, 28), gyro: le_triple(d, 34), ..c }, true)
        }
    } else if d.len() < 31 {
        (c, false)
    } else if d[24] == 2 {
        (SteamRawState { accel: le_triple(d, 25), ..c }, true)
    } else if d[24] == 3 {
        (SteamRawState { gyro: le_triple(d, 25), ..c }, true)
    } else {
        (c, true)
    }
}

/// Applies a full state report.  `None` for another report, leaving the
/// state alone, and for one too short for its motion data, keeping its
/// buttons, triggers and trackpads.
pub fn update_steam_full_state(data: &[u8], state: &mut SteamRawState) -> (r: Option<()>)
    ensures
        !is_full_state_report(full_report_body(data@)) ==> r is None && *final(state) == *old(
            state,
        ),
        is_full_state_report(full_report_body(data@)) ==> *final(state) == full_decode(
            full_report_body(data@),
            *old(state),
        ).0,
        is_full_state_report(full_report_body(data@)) ==> (r is Some) == full_decode(
            full_report_body(data@),
            *old(state),
        ).1,
{
    let d: &[u8] = if data.len() >= 4 && data[0] == 0 && data[1] == 1 && data[2] == 0 {
        vstd::slice::slice_subrange(data, 1, data.len())
    } else {
        data
    };
    assert(d@ =~= full_report_body(data@));
    if d.len() < 24 || d[0] != 1 || d[1] != 0 {
        return None;
    }
    let report_type = d[2];
    if report_type != 1 && report_type != 7 {
        return None;
    }
    let buttons = get_u64_le(d, 8) & !(0xFFFFu64 << 24u64);
    state.buttons = buttons;
    state.trigger_left = steam_trigger(d[11]);
    state.trigger_right = steam_trigger(d[12]);
    let packed_left = (get_i16_le(d, 16), get_i16_le(d, 18));
    if buttons & STEAM_LEFT_PAD_TOUCHED != 0 {
        state.left_pad = packed_left;
        if buttons & STEAM_LEFT_PAD_AND_JOYSTICK == 0 {
            state.left_stick = (0, 0);
        }
    } else {
        state.left_stick = packed_left;
        if buttons & STEAM_LEFT_PAD_AND_JOYSTICK == 0 {
            state.left_pad = (0, 0);
        }
    }
    state.right_pad = (get_i16_le(d, 20), get_i16_le(d, 22));
    if report_type == 1 {
        if d.len() < 40 {
            return None;
        }
        state.accel = (get_i16_le(d, 28), get_i16_le(d, 30), get_i16_le(d, 32));
        state.gyro = (get_i16_le(d, 34), get_i16_le(d, 36), get_i16_le(d, 38));
    } else {
        if d.len() < 31 {
            return None;
        }
        if d[24] == 2 {
            state.accel = (get_i16_le(d, 25), get_i16_le(d, 27), get_i16_le(d, 29));
        } else if d[24] == 3 {
            state.gyro = (get_i16_le(d, 25), get_i16_le(d, 27), get_i16_le(d, 29));
        }
    }
    Some(())
}

/// What a full state report `d` sets, at its fixed offsets: the triggers
/// from bytes 11 and 12, the right trackpad from the `i16` at 20 and 22,
/// the shared left pad/joystick pair at 16 and 18 to the pad when it is
/// touched and to the joystick otherwise.  A type-1 report of 40 bytes or
/// more carries the accelerometer at 28, 30, 32 and the gyro at 34, 36, 38;
/// a type-7 report of 31 bytes or more carries, at 25, 27, 29, the
/// accelerometer when byte 24 is 2 and the gyro when it is 3.  Motion not
/// carried is left as it was, and decoding succeeds exactly when the
/// report is long enough for its type.
pub proof fn law_full_report_fields(d: Seq<u8>, s: SteamRawState)
    requires
        is_full_state_report(d),
    ensures
        full_decode(d, s).0.trigger_left == steam_trigger_level(d[11]),
        full_decode(d, s).0.trigger_right == steam_trigger_level(d[12]),
        full_decode(d, s).0.right_pad == (le_i16_at(d, 20), le_i16_at(d, 22)),
        full_decode(d, s).0.buttons & STEAM_LEFT_PAD_TOUCHED != 0 ==> full_decode(d, s).0.left_pad
            == (le_i16_at(d, 16), le_i16_at(d, 18)),
        full_decode(d, s).0.buttons & STEAM_LEFT_PAD_TOUCHED == 0 ==> full_decode(d, s).0.left_stick
            == (le_i16_at(d, 16), le_i16_at(d, 18)),
        d[2] == 1 ==> full_decode(d, s).1 == (d.len() >= 40),
        d[2] == 1 && d.len() >= 40 ==> full_decode(d, s).0.accel == (
            le_i16_at(d, 28),
            le_i16_at(d, 30),
            le_i16_at(d, 32),
        ) && full_decode(d, s).0.gyro == (le_i16_at(d, 34), le_i16_at(d, 36), le_i16_at(d, 38)),
        d[2] == 7 ==> full_decode(d, s).1 == (d.len() >= 31),
        d[2] == 7 && d.len() >= 31 && d[24] == 2 ==> full_decode(d, s).0.accel == (
            le_i16_at(d, 25),
            le_i16_at(d, 27),
            le_i16_at(d, 29),
        ) && full_decode(d, s).0.gyro == s.gyro,
        d[2] == 7 && d.len() >= 31 && d[24] == 3 ==> full_decode(d, s).0.gyro == (
            le_i16_at(d, 25),
            le_i16_at(d, 27),
            le_i16_at(d, 29),
        ) && full_decode(d, s).0.accel == s.accel,
        (d[2] == 1 && d.len() < 40) || (d[2] == 7 && (d.len() < 31 || (d[24] != 2 && d[24]
            != 3))) ==> full_decode(d, s).0.accel == s.accel && full_decode(d, s).0.gyro == s.gyro,
{
}

/// `mask` when `on`, nothing otherwise.
pub open spec fn bit_if(on: bool, mask: u32) -> u32 {
    if on {
        mask
    } else {
        0
    }
}

fn flag_if(on: bool, mask: u32) -> (r: u32)
    ensures
        r == bit_if(on, mask),
{
    if on {
        mask
    } else {
        0
    }
}

/// Whether the 2015 controller reports its stick click: the joystick is
/// clicked, or the left trackpad is clicked without being touched.
pub open spec fn steam_l3(bits: u64) -> bool {
    bits & STEAM_JOYSTICK_CLICKED != 0 || (bits & STEAM_LEFT_PAD_CLICKED != 0 && bits
        & STEAM_LEFT_PAD_TOUCHED == 0)
}

/// The controller-independent buttons of a 2015 controller's button word.
pub open spec fn steam_button_bits(bits: u64) -> u32 {
    bit_if(bits & STEAM_A != 0, button::A) | bit_if(bits & STEAM_B != 0, button::B) | bit_if(
        bits & STEAM_X != 0,
        button::X,
    ) | bit_if(bits & STEAM_Y != 0, button::Y) | bit_if(bits & STEAM_RIGHT_BUMPER != 0, button::R)
        | bit_if(bits & STEAM_LEFT_BUMPER != 0, button::L) | bit_if(
        bits & STEAM_DPAD_UP != 0,
        button::DPAD_UP,
    ) | bit_if(bits & STEAM_DPAD_RIGHT != 0, button::DPAD_RIGHT) | bit_if(
        bits & STEAM_DPAD_LEFT != 0,
        button::DPAD_LEFT,
    ) | bit_if(bits & STEAM_DPAD_DOWN != 0, button::DPAD_DOWN) | bit_if(
        bits & STEAM_BACK != 0,
        button::VIEW,
    ) | bit_if(bits & STEAM_START != 0, button::MENU) | bit_if(
        bits & STEAM_GUIDE != 0,
        button::STEAM,
    ) | bit_if(bits & STEAM_LEFT_PADDLE != 0, button::L4) | bit_if(
        bits & STEAM_RIGHT_PADDLE != 0,
        button::R4,
    ) | bit_if(bits & STEAM_RIGHT_PAD_CLICKED != 0, button::R3) | bit_if(steam_l3(bits), button::L3)
}

pub fn steam_buttons(bits: u64) -> (r: u32)
    ensures
        r == steam_button_bits(bits),
{
    let mut buttons = flag_if(bits & STEAM_A != 0, button::A);
    buttons = buttons | flag_if(bits & STEAM_B != 0, button::B);
    buttons = buttons | flag_if(bits & STEAM_X != 0, button::X);
    buttons = buttons | flag_if(bits & STEAM_Y != 0, button::Y);
    buttons = buttons | flag_if(bits & STEAM_RIGHT_BUMPER != 0, button::R);
    buttons = buttons | flag_if(bits & STEAM_LEFT_BUMPER != 0, button::L);
    buttons = buttons | flag_if(bits & STEAM_DPAD_UP != 0, button::DPAD_UP);
    buttons = buttons | flag_if(bits & STEAM_DPAD_RIGHT != 0, button::DPAD_RIGHT);
    buttons = buttons | flag_if(bits & STEAM_DPAD_LEFT != 0, button::DPAD_LEFT);
    buttons = buttons | flag_if(bits & STEAM_DPAD_DOWN != 0, button::DPAD_DOWN);
    buttons = buttons | flag_if(bits & STEAM_BACK != 0, button::VIEW);
    buttons = buttons | flag_if(bits & STEAM_START != 0, button::MENU);
    buttons = buttons | flag_if(bits & STEAM_GUIDE != 0, button::STEAM);
    buttons = buttons | flag_if(bits & STEAM_LEFT_PADDLE != 0, button::L4);
    buttons = buttons | flag_if(bits & STEAM_RIGHT_PADDLE != 0, button::R4);
    buttons = buttons | flag_if(bits & STEAM_RIGHT_PAD_CLICKED != 0, button::R3);
    let l3 = bits & STEAM_JOYSTICK_CLICKED != 0 || (bits & STEAM_LEFT_PAD_CLICKED != 0 && bits
        & STEAM_LEFT_PAD_TOUCHED == 0);
    buttons | flag_if(l3, button::L3)
}

/// Every controller-independent button is reported exactly when its
/// counterpart is down on the 2015 controller, and the buttons that
/// controller lacks (quick access, the second pair of back grips) never are.
pub proof fn law_steam_buttons_map(bits: u64)
    by (bit_vector)
    ensures
        (steam_button_bits(bits) & button::A != 0) == (bits & STEAM_A != 0),
        (steam_button_bits(bits) & button::B != 0) == (bits & STEAM_B != 0),
        (steam_button_bits(bits) & button::X != 0) == (bits & STEAM_X != 0),
        (steam_button_bits(bits) & button::Y != 0) == (bits & STEAM_Y != 0),
        (steam_button_bits(bits) & button::R != 0) == (bits & STEAM_RIGHT_BUMPER != 0),
        (steam_button_bits(bits) & button::L != 0) == (bits & STEAM_LEFT_BUMPER != 0),
        (steam_button_bits(bits) & button::DPAD_UP != 0) == (bits & STEAM_DPAD_UP != 0),
        (steam_button_bits(bits) & button::DPAD_RIGHT != 0) == (bits & STEAM_DPAD_RIGHT != 0),
        (steam_button_bits(bits) & button::DPAD_LEFT != 0) == (bits & STEAM_DPAD_LEFT != 0),
        (steam_button_bits(bits) & button::DPAD_DOWN != 0) == (bits & STEAM_DPAD_DOWN != 0),
        (steam_button_bits(bits) & button::VIEW != 0) == (bits & STEAM_BACK != 0),
        (steam_button_bits(bits) & button::MENU != 0) == (bits & STEAM_START != 0),
        (steam_button_bits(bits) & button::STEAM != 0) == (bits & STEAM_GUIDE != 0),
        (steam_button_bits(bits) & button::L4 != 0) == (bits & STEAM_LEFT_PADDLE != 0),
        (steam_button_bits(bits) & button::R4 != 0) == (bits & STEAM_RIGHT_PADDLE != 0),
        (steam_button_bits(bits) & button::R3 != 0) == (bits & STEAM_RIGHT_PAD_CLICKED != 0),
        (steam_button_bits(bits) & button::L3 != 0) == steam_l3(bits),
        steam_button_bits(bits) & button::QAM == 0,
        steam_button_bits(bits) & button::R5 == 0,
        steam_button_bits(bits) & button::L5 == 0,
        steam_button_bits(bits) < 0x0010_0000,
{
}

/// A completed packet lies within the buffer.
pub proof fn lemma_packet_fits(buffer: Seq<u8>, expected: u8, segment: Seq<u8>)
    requires
        buffer.len() == STEAM_BLE_PACKET_BYTES,
    ensures
        assembler_step(buffer, expected, segment).0.len() == STEAM_BLE_PACKET_BYTES,
        assembler_step(buffer, expected, segment).2 matches Ok(Some(len)) ==> len
            <= STEAM_BLE_PACKET_BYTES,
{
    let seg = normalized_segment(segment);
    if seg.len() >= STEAM_BLE_SEGMENT_BYTES {
        lemma_low_bits(seg[1]);
    }
}

/// A stick axis turned upside down: the bitwise complement, `-1 - v`,
/// which maps the whole `i16` range onto itself.
pub fn invert_axis(v: i16) -> (r: i16)
    ensures
        r == -1 - v,
{
    -1 - v
}

/// The 2015 controller's left stick in the controller-independent layout:
/// its Y axis points the other way.
pub fn steam_left_stick(raw: &SteamRawState) -> (r: [i16; 2])
    ensures
        r@ == seq![raw.left_stick.0, (-1 - raw.left_stick.1) as i16],
{
    let r = [raw.left_stick.0, invert_axis(raw.left_stick.1)];
    assert(r@ =~= seq![raw.left_stick.0, (-1 - raw.left_stick.1) as i16]);
    r
}

} // verus!
