//! The Cemuhook DSU protocol: packet layout, CRC framing, request parsing
//! and the table of subscribed clients.

use crate::bytes::{
    le16, le32, le64, le_u16_at, le_u32_at, put_bytes, put_u16_le, put_u32_le,
    push_u32_le, write_bytes, zeroed, zeros,
};
use crate::triton::{button, ControllerState, DeviceEvent, ImuSample};
use vstd::prelude::*;

verus! {

pub const PROTOCOL_VERSION: u16 = 1001;
pub const HEADER_LEN: usize = 16;
pub const HEADER_LEN_FULL: usize = 20;
pub const MAX_SUBSCRIBERS: usize = 16;
pub const CRC_OFFSET: usize = 8;
pub const CRC_LEN: usize = 4;
pub const CONTROLLER_HEADER_LEN: usize = 11;
pub const MAX_SLOTS: usize = 4;
/// A client that has not renewed its registration for this long is dropped.
pub const CLIENT_TIMEOUT_MS: u64 = 5000;

pub const MSG_TYPE_VERSION: u32 = 0x100000;
pub const MSG_TYPE_PORTS: u32 = 0x100001;
pub const MSG_TYPE_DATA: u32 = 0x100002;
pub const MSG_TYPE_EXT_RUMBLE_INFO: u32 = 0x110001;
pub const MSG_TYPE_EXT_RUMBLE_SET: u32 = 0x110002;

pub const SLOT_STATE_CONNECTED: u8 = 2;
pub const DEVICE_TYPE_GYRO_FULL: u8 = 2;
pub const CONNECTION_TYPE_USB: u8 = 1;
pub const BATTERY_NA: u8 = 0;

/// Analog trigger level from which the digital L2/R2 bits are reported.
pub const TRIGGER_DIGITAL_THRESHOLD: u8 = 200;

/// Offset of the per-client packet counter in a data packet.
pub const PACKET_NUM_OFFSET: usize = 32;
/// Length of a data packet: full header plus 80 bytes of body.
pub const DATA_PACKET_LEN: usize = 100;

/// "DSUS", the magic of packets the server sends.
pub open spec fn magic_server() -> Seq<u8> {
    seq![0x44u8, 0x53u8, 0x55u8, 0x53u8]
}

/// "DSUC", the magic of packets a client sends.
pub open spec fn magic_client() -> Seq<u8> {
    seq![0x44u8, 0x53u8, 0x55u8, 0x43u8]
}

/// The MAC address reported for a DSU slot.
pub open spec fn slot_mac_bytes(slot: u8) -> Seq<u8> {
    seq![0x02u8, 0x28u8, 0xDEu8, 0x13u8, 0x04u8, slot]
}

pub fn slot_mac(slot: u8) -> (r: [u8; 6])
    ensures
        r@ == slot_mac_bytes(slot),
{
    let r = [0x02u8, 0x28u8, 0xDEu8, 0x13u8, 0x04u8, slot];
    assert(r@ =~= slot_mac_bytes(slot));
    r
}

/// A client's data subscription.  `reg_type` 0 asks for every slot; bit 0
/// asks for the slot in `slot`, bit 1 for the slot whose MAC is `mac`.
#[derive(Clone, Copy, Debug, PartialEq, Eq)]
pub struct SubscriptionKey {
    pub client_id: u32,
    pub reg_type: u8,
    pub slot: u8,
    pub mac: [u8; 6],
}

pub open spec fn same_key(a: SubscriptionKey, b: SubscriptionKey) -> bool {
    &&& a.client_id == b.client_id
    &&& a.reg_type == b.reg_type
    &&& a.slot == b.slot
    &&& a.mac@ == b.mac@
}

/// Whether a subscription receives the data of `slot`.
pub open spec fn wants_slot(key: SubscriptionKey, slot: u8) -> bool {
    ||| key.reg_type == 0
    ||| (key.reg_type & 1 != 0 && key.slot == slot)
    ||| (key.reg_type & 2 != 0 && key.mac@ == slot_mac_bytes(slot))
}

/// Whether a subscription asks for any slot this server has.
pub open spec fn wants_any_slot(key: SubscriptionKey) -> bool {
    ||| key.reg_type == 0
    ||| (key.reg_type & 1 != 0 && (key.slot as int) < MAX_SLOTS)
    ||| (key.reg_type & 2 != 0 && exists|c: int| 0 <= c < MAX_SLOTS && key.mac@ == #[trigger] slot_mac_bytes(c as u8))
}

fn bytes_equal(a: &[u8; 6], b: &[u8; 6]) -> (r: bool)
    ensures
        r == (a@ == b@),
{
    let mut i: usize = 0;
    while i < 6
        invariant
            0 <= i <= 6,
            forall|k: int| 0 <= k < i ==> a@[k] == b@[k],
        decreases 6 - i,
    {
        if a[i] != b[i] {
            return false;
        }
        i = i + 1;
    }
    assert(a@ =~= b@);
    true
}

fn keys_equal(a: &SubscriptionKey, b: &SubscriptionKey) -> (r: bool)
    ensures
        r == same_key(*a, *b),
{
    a.client_id == b.client_id && a.reg_type == b.reg_type && a.slot == b.slot && bytes_equal(
        &a.mac,
        &b.mac,
    )
}

pub fn registration_wants_slot(registration: &SubscriptionKey, slot: u8) -> (r: bool)
    ensures
        r == wants_slot(*registration, slot),
{
    let mac = slot_mac(slot);
    registration.reg_type == 0 || (registration.reg_type & 1 != 0 && registration.slot == slot)
        || (registration.reg_type & 2 != 0 && bytes_equal(&registration.mac, &mac))
}

/// Whether a subscription asks for any slot this server has.
pub fn registration_wants_any_slot(key: &SubscriptionKey) -> (r: bool)
    ensures
        r == wants_any_slot(*key),
{
    let mac_known = key.mac[0] == 0x02 && key.mac[1] == 0x28 && key.mac[2] == 0xDE && key.mac[3]
        == 0x13 && key.mac[4] == 0x04 && (key.mac[5] as usize) < MAX_SLOTS;
    proof {
        if mac_known {
            let c: int = key.mac@[5] as int;
            assert(key.mac@ =~= slot_mac_bytes(c as u8));
        }
        if exists|c: int| 0 <= c < MAX_SLOTS && key.mac@ == #[trigger] slot_mac_bytes(c as u8) {
            let c = choose|c: int| 0 <= c < MAX_SLOTS && key.mac@ == #[trigger] slot_mac_bytes(c as u8);
            assert(key.mac@[5] == c as u8);
        }
    }
    key.reg_type == 0 || (key.reg_type & 1 != 0 && (key.slot as usize) < MAX_SLOTS) || (
    key.reg_type & 2 != 0 && mac_known)
}

// ---------------------------------------------------------------------------
// Header and CRC framing.

/// The 20-byte header of a server packet of `len` bytes: magic, protocol
/// version, length, CRC, server id and message type.  The length field
/// counts the bytes after the 16-byte base header, truncated to 16 bits; the
/// CRC field is zero until the packet is finalized.
pub open spec fn header_bytes(len: nat, server_id: u32, mtype: u32) -> Seq<u8> {
    magic_server() + le16(PROTOCOL_VERSION) + le16(((len - HEADER_LEN) % 0x1_0000) as u16) + zeros(4) + le32(server_id)
        + le32(mtype)
}

pub fn write_header(out: &mut Vec<u8>, server_id: u32, mtype: u32)
    requires
        old(out)@.len() >= HEADER_LEN_FULL,
    ensures
        final(out)@ == write_bytes(
            old(out)@,
            0,
            header_bytes(old(out)@.len(), server_id, mtype),
        ),
{
    let len = out.len();
    out.set(0, 0x44u8);
    out.set(1, 0x53u8);
    out.set(2, 0x55u8);
    out.set(3, 0x53u8);
    put_u16_le(out, 4, PROTOCOL_VERSION);
    let payload_len = ((len - HEADER_LEN) % 0x1_0000) as u16;
    put_u16_le(out, 6, payload_len);
    put_u32_le(out, CRC_OFFSET, 0);
    put_u32_le(out, 12, server_id);
    put_u32_le(out, 16, mtype);
    assert(out@ =~= write_bytes(old(out)@, 0, header_bytes(old(out)@.len(), server_id, mtype)));
}

/// CRC-32 (IEEE) of a byte sequence, as crc32fast computes it.
pub uninterp spec fn crc32_of(data: Seq<u8>) -> u32;

/// Calls `crc32fast::hash`, which computes the CRC-32 (IEEE) checksum of its
/// input.  The result is a function of the bytes alone, named `crc32_of`;
/// nothing more is claimed about it.
#[verifier::external_body]
fn crc32_hash(data: &[u8]) -> (r: u32)
    ensures
        r == crc32_of(data@),
{
    crc32fast::hash(data)
}

/// A packet with its CRC field zeroed, which is what the CRC covers.
pub open spec fn zero_crc_field(msg: Seq<u8>) -> Seq<u8> {
    write_bytes(msg, CRC_OFFSET as int, zeros(4))
}

/// The packet with its CRC field filled in.
pub open spec fn with_crc(msg: Seq<u8>) -> Seq<u8> {
    write_bytes(msg, CRC_OFFSET as int, le32(crc32_of(zero_crc_field(msg))))
}

/// The CRC of a packet, computed as if its CRC field were zero.
pub fn crc_over_zeroed(msg: &[u8]) -> (r: u32)
    requires
        msg@.len() >= CRC_OFFSET + CRC_LEN,
    ensures
        r == crc32_of(zero_crc_field(msg@)),
{
    let mut copy = vstd::slice::slice_to_vec(msg);
    put_u32_le(&mut copy, CRC_OFFSET, 0);
    assert(le32(0) =~= zeros(4));
    crc32_hash(copy.as_slice())
}

/// Stores the packet's CRC in its CRC field.
pub fn finalize_crc(out: &mut Vec<u8>)
    requires
        old(out)@.len() >= CRC_OFFSET + CRC_LEN,
    ensures
        final(out)@ == with_crc(old(out)@),
{
    let crc = crc_over_zeroed(out.as_slice());
    put_u32_le(out, CRC_OFFSET, crc);
}

/// The CRC never covers its own field: whatever the field holds, the CRC is
/// the same.
pub proof fn law_crc_field_excluded(msg: Seq<u8>, field: Seq<u8>)
    requires
        msg.len() >= CRC_OFFSET + CRC_LEN,
        field.len() == CRC_LEN,
    ensures
        zero_crc_field(write_bytes(msg, CRC_OFFSET as int, field)) == zero_crc_field(msg),
{
    assert(zero_crc_field(write_bytes(msg, CRC_OFFSET as int, field)) =~= zero_crc_field(msg));
}

/// A finalized packet carries, in its CRC field, the CRC a receiver computes
/// over it; everything outside the CRC field is unchanged.
pub proof fn law_finalized_crc_checks(msg: Seq<u8>)
    requires
        msg.len() >= CRC_OFFSET + CRC_LEN,
    ensures
        le_u32_at(with_crc(msg), CRC_OFFSET as int) == crc32_of(zero_crc_field(with_crc(msg))),
        with_crc(msg).len() == msg.len(),
        forall|i: int|
            0 <= i < msg.len() && !(CRC_OFFSET <= i < CRC_OFFSET + CRC_LEN) ==> with_crc(msg)[i]
                == msg[i],
{
    let c = crc32_of(zero_crc_field(msg));
    law_crc_field_excluded(msg, le32(c));
    lemma_le32_roundtrip(c);
}

/// Reading back a little-endian `u32` gives the value written.
pub proof fn lemma_le32_roundtrip(v: u32)
    ensures
        le_u32_at(le32(v), 0) == v,
{
}

// ---------------------------------------------------------------------------
// Controller header.

/// The 11-byte controller header describing `slot`.  A disconnected slot
/// only has its slot number written.
pub open spec fn controller_header_bytes(slot: u8, connected: bool) -> Seq<u8> {
    if connected {
        seq![slot, SLOT_STATE_CONNECTED, DEVICE_TYPE_GYRO_FULL, CONNECTION_TYPE_USB]
            + slot_mac_bytes(slot) + seq![BATTERY_NA]
    } else {
        seq![slot]
    }
}

pub fn write_controller_header(buf: &mut Vec<u8>, at: usize, slot: u8, connected: bool)
    requires
        at + CONTROLLER_HEADER_LEN <= old(buf)@.len(),
    ensures
        final(buf)@ == write_bytes(old(buf)@, at as int, controller_header_bytes(slot, connected)),
{
    let _len = buf.len();
    buf.set(at, slot);
    if connected {
        buf.set(at + 1, SLOT_STATE_CONNECTED);
        buf.set(at + 2, DEVICE_TYPE_GYRO_FULL);
        buf.set(at + 3, CONNECTION_TYPE_USB);
        let mac = slot_mac(slot);
        put_bytes(buf, at + 4, &mac);
        buf.set(at + 10, BATTERY_NA);
    }
    assert(buf@ =~= write_bytes(old(buf)@, at as int, controller_header_bytes(slot, connected)));
}

// ---------------------------------------------------------------------------
// Input encoding.

/// `weight` when `on`, else 0.
pub open spec fn flag(on: bool, weight: u8) -> u8 {
    if on {
        weight
    } else {
        0
    }
}

/// Whether any button of `mask` is held.
pub open spec fn down(buttons: u32, mask: u32) -> bool {
    buttons & mask != 0
}

/// The byte whose bit `k` is set exactly when `bk` holds.
#[verifier::opaque]
pub open spec fn byte_of(
    b0: bool,
    b1: bool,
    b2: bool,
    b3: bool,
    b4: bool,
    b5: bool,
    b6: bool,
    b7: bool,
) -> u8 {
    (flag(b0, 1) + flag(b1, 2) + flag(b2, 4) + flag(b3, 8) + flag(b4, 16) + flag(b5, 32) + flag(
        b6,
        64,
    ) + flag(b7, 128)) as u8
}

/// Packs eight flags into a byte, `bits[k]` into bit `k`.
pub fn pack_bits(bits: [bool; 8]) -> (r: u8)
    ensures
        r == byte_of(bits[0], bits[1], bits[2], bits[3], bits[4], bits[5], bits[6], bits[7]),
{
    reveal(byte_of);
    let mut acc: u32 = 0;
    let mut weight: u32 = 1;
    let mut k: usize = 0;
    proof {
        vstd::arithmetic::power2::lemma2_to64();
    }
    while k < 8
        invariant
            0 <= k <= 8,
            weight == vstd::arithmetic::power2::pow2(k as nat),
            acc < weight,
            acc == (if k > 0 { flag(bits[0], 1) as int } else { 0 }) + (if k > 1 { flag(bits[1], 2) as int } else { 0 })
                + (if k > 2 { flag(bits[2], 4) as int } else { 0 }) + (if k > 3 { flag(bits[3], 8) as int } else { 0 })
                + (if k > 4 { flag(bits[4], 16) as int } else { 0 }) + (if k > 5 { flag(bits[5], 32) as int } else { 0 })
                + (if k > 6 { flag(bits[6], 64) as int } else { 0 }) + (if k > 7 { flag(bits[7], 128) as int } else { 0 }),
        decreases 8 - k,
    {
        proof {
            vstd::arithmetic::power2::lemma2_to64();
        }
        if bits[k] {
            acc = acc + weight;
        }
        weight = weight * 2;
        k = k + 1;
        proof {
            vstd::arithmetic::power2::lemma2_to64();
        }
    }
    acc as u8
}

/// The four DSU button bytes.  Byte 0 holds, from bit 0 up: Options, L3,
/// R3, Share, D-pad up, right, down, left.  Byte 1 holds L2, R2, L1, R1,
/// then the face buttons in the order X, A, B, Y of the controller (the DSU
/// Square, Cross, Circle, Triangle positions).  Byte 2 is Home, byte 3
/// Touch.
pub open spec fn button_bytes(buttons: u32, l2_down: bool, r2_down: bool) -> Seq<u8> {
    seq![
        system_byte(buttons),
        face_byte(buttons, l2_down, r2_down),
        flag(down(buttons, button::STEAM), 1),
        flag(down(buttons, button::QAM), 1),
    ]
}

fn is_down(buttons: u32, mask: u32) -> (r: bool)
    ensures
        r == down(buttons, mask),
{
    buttons & mask != 0
}

/// Byte 0 of the DSU buttons: Options, L3, R3, Share, then the D-pad.
pub open spec fn system_byte(buttons: u32) -> u8 {
    byte_of(
        down(buttons, button::MENU),
        down(buttons, button::L3),
        down(buttons, button::R3),
        down(buttons, button::VIEW),
        down(buttons, button::DPAD_UP),
        down(buttons, button::DPAD_RIGHT),
        down(buttons, button::DPAD_DOWN),
        down(buttons, button::DPAD_LEFT),
    )
}

/// Byte 1 of the DSU buttons: triggers, shoulders, then face buttons.
pub open spec fn face_byte(buttons: u32, l2_down: bool, r2_down: bool) -> u8 {
    byte_of(
        l2_down,
        r2_down,
        down(buttons, button::L),
        down(buttons, button::R),
        down(buttons, button::X),
        down(buttons, button::A),
        down(buttons, button::B),
        down(buttons, button::Y),
    )
}

fn system_buttons(buttons: u32) -> (r: u8)
    ensures
        r == system_byte(buttons),
{
    pack_bits(
        [
            is_down(buttons, button::MENU),
            is_down(buttons, button::L3),
            is_down(buttons, button::R3),
            is_down(buttons, button::VIEW),
            is_down(buttons, button::DPAD_UP),
            is_down(buttons, button::DPAD_RIGHT),
            is_down(buttons, button::DPAD_DOWN),
            is_down(buttons, button::DPAD_LEFT),
        ],
    )
}

fn face_buttons(buttons: u32, l2_down: bool, r2_down: bool) -> (r: u8)
    ensures
        r == face_byte(buttons, l2_down, r2_down),
{
    pack_bits(
        [
            l2_down,
            r2_down,
            is_down(buttons, button::L),
            is_down(buttons, button::R),
            is_down(buttons, button::X),
            is_down(buttons, button::A),
            is_down(buttons, button::B),
            is_down(buttons, button::Y),
        ],
    )
}

pub fn dsu_button_bytes(buttons: u32, l2_down: bool, r2_down: bool) -> (r: [u8; 4])
    ensures
        r@ == button_bytes(buttons, l2_down, r2_down),
{
    let buttons1 = system_buttons(buttons);
    let buttons2 = face_buttons(buttons, l2_down, r2_down);
    let home: u8 = if is_down(buttons, button::STEAM) {
        1
    } else {
        0
    };
    let touch: u8 = if is_down(buttons, button::QAM) {
        1
    } else {
        0
    };
    let r = [buttons1, buttons2, home, touch];
    assert(r@ =~= button_bytes(buttons, l2_down, r2_down));
    r
}

proof fn lemma_byte_bits(
    x: u8,
    b0: bool,
    b1: bool,
    b2: bool,
    b3: bool,
    b4: bool,
    b5: bool,
    b6: bool,
    b7: bool,
)
    by (bit_vector)
    requires
        x == ((if b0 { 1u8 } else { 0u8 }) + (if b1 { 2u8 } else { 0u8 }) + (if b2 { 4u8 } else { 0u8 })
            + (if b3 { 8u8 } else { 0u8 }) + (if b4 { 16u8 } else { 0u8 }) + (if b5 { 32u8 } else { 0u8 })
            + (if b6 { 64u8 } else { 0u8 }) + (if b7 { 128u8 } else { 0u8 })),
    ensures
        (x & 0x01 != 0) == b0,
        (x & 0x02 != 0) == b1,
        (x & 0x04 != 0) == b2,
        (x & 0x08 != 0) == b3,
        (x & 0x10 != 0) == b4,
        (x & 0x20 != 0) == b5,
        (x & 0x40 != 0) == b6,
        (x & 0x80 != 0) == b7,
{
}

proof fn lemma_byte_of_bits(b0: bool, b1: bool, b2: bool, b3: bool, b4: bool, b5: bool, b6: bool, b7: bool)
    ensures
        (byte_of(b0, b1, b2, b3, b4, b5, b6, b7) & 0x01 != 0) == b0,
        (byte_of(b0, b1, b2, b3, b4, b5, b6, b7) & 0x02 != 0) == b1,
        (byte_of(b0, b1, b2, b3, b4, b5, b6, b7) & 0x04 != 0) == b2,
        (byte_of(b0, b1, b2, b3, b4, b5, b6, b7) & 0x08 != 0) == b3,
        (byte_of(b0, b1, b2, b3, b4, b5, b6, b7) & 0x10 != 0) == b4,
        (byte_of(b0, b1, b2, b3, b4, b5, b6, b7) & 0x20 != 0) == b5,
        (byte_of(b0, b1, b2, b3, b4, b5, b6, b7) & 0x40 != 0) == b6,
        (byte_of(b0, b1, b2, b3, b4, b5, b6, b7) & 0x80 != 0) == b7,
{
    reveal(byte_of);
    let x = byte_of(b0, b1, b2, b3, b4, b5, b6, b7);
    assert(x == ((if b0 { 1u8 } else { 0u8 }) + (if b1 { 2u8 } else { 0u8 }) + (if b2 { 4u8 } else { 0u8 })
        + (if b3 { 8u8 } else { 0u8 }) + (if b4 { 16u8 } else { 0u8 }) + (if b5 { 32u8 } else { 0u8 })
        + (if b6 { 64u8 } else { 0u8 }) + (if b7 { 128u8 } else { 0u8 })));
    lemma_byte_bits(x, b0, b1, b2, b3, b4, b5, b6, b7);
}

/// Where every button lands in the DSU button bytes.  Byte 0, bit 0 up:
/// menu (Options), L3, R3, view (Share), D-pad up, right, down, left.
/// Byte 1, bit 0 up: L2, R2, L1, R1, then X, A, B, Y.  Each bit is set
/// exactly when its button is held.
#[verifier::spinoff_prover]
pub proof fn law_button_bits(b: u32, l2_down: bool, r2_down: bool)
    ensures
        (button_bytes(b, l2_down, r2_down)[0] & 0x01 != 0) == (b & button::MENU != 0),
        (button_bytes(b, l2_down, r2_down)[0] & 0x02 != 0) == (b & button::L3 != 0),
        (button_bytes(b, l2_down, r2_down)[0] & 0x04 != 0) == (b & button::R3 != 0),
        (button_bytes(b, l2_down, r2_down)[0] & 0x08 != 0) == (b & button::VIEW != 0),
        (button_bytes(b, l2_down, r2_down)[0] & 0x10 != 0) == (b & button::DPAD_UP != 0),
        (button_bytes(b, l2_down, r2_down)[0] & 0x20 != 0) == (b & button::DPAD_RIGHT != 0),
        (button_bytes(b, l2_down, r2_down)[0] & 0x40 != 0) == (b & button::DPAD_DOWN != 0),
        (button_bytes(b, l2_down, r2_down)[0] & 0x80 != 0) == (b & button::DPAD_LEFT != 0),
        (button_bytes(b, l2_down, r2_down)[1] & 0x01 != 0) == l2_down,
        (button_bytes(b, l2_down, r2_down)[1] & 0x02 != 0) == r2_down,
        (button_bytes(b, l2_down, r2_down)[1] & 0x04 != 0) == (b & button::L != 0),
        (button_bytes(b, l2_down, r2_down)[1] & 0x08 != 0) == (b & button::R != 0),
        (button_bytes(b, l2_down, r2_down)[1] & 0x10 != 0) == (b & button::X != 0),
        (button_bytes(b, l2_down, r2_down)[1] & 0x20 != 0) == (b & button::A != 0),
        (button_bytes(b, l2_down, r2_down)[1] & 0x40 != 0) == (b & button::B != 0),
        (button_bytes(b, l2_down, r2_down)[1] & 0x80 != 0) == (b & button::Y != 0),
{
    let bytes = button_bytes(b, l2_down, r2_down);
    assert(bytes[0] == system_byte(b));
    assert(bytes[1] == face_byte(b, l2_down, r2_down));
    lemma_byte_of_bits(
        down(b, button::MENU),
        down(b, button::L3),
        down(b, button::R3),
        down(b, button::VIEW),
        down(b, button::DPAD_UP),
        down(b, button::DPAD_RIGHT),
        down(b, button::DPAD_DOWN),
        down(b, button::DPAD_LEFT),
    );
    lemma_byte_of_bits(
        l2_down,
        r2_down,
        down(b, button::L),
        down(b, button::R),
        down(b, button::X),
        down(b, button::A),
        down(b, button::B),
        down(b, button::Y),
    );
}

/// The grips the DSU layout has no place for.
pub open spec fn back_grips() -> u32 {
    button::L4 | button::L5 | button::R4 | button::R5
}

proof fn lemma_grips_leave_reported_buttons(b: u32)
    by (bit_vector)
    ensures
        ((b | (button::L4 | button::L5 | button::R4 | button::R5)) & button::MENU != 0) == (b
            & button::MENU != 0),
        ((b | (button::L4 | button::L5 | button::R4 | button::R5)) & button::L3 != 0) == (b
            & button::L3 != 0),
        ((b | (button::L4 | button::L5 | button::R4 | button::R5)) & button::R3 != 0) == (b
            & button::R3 != 0),
        ((b | (button::L4 | button::L5 | button::R4 | button::R5)) & button::VIEW != 0) == (b
            & button::VIEW != 0),
        ((b | (button::L4 | button::L5 | button::R4 | button::R5)) & button::DPAD_UP != 0) == (b
            & button::DPAD_UP != 0),
        ((b | (button::L4 | button::L5 | button::R4 | button::R5)) & button::DPAD_RIGHT != 0) == (b
            & button::DPAD_RIGHT != 0),
        ((b | (button::L4 | button::L5 | button::R4 | button::R5)) & button::DPAD_DOWN != 0) == (b
            & button::DPAD_DOWN != 0),
        ((b | (button::L4 | button::L5 | button::R4 | button::R5)) & button::DPAD_LEFT != 0) == (b
            & button::DPAD_LEFT != 0),
        ((b | (button::L4 | button::L5 | button::R4 | button::R5)) & button::L != 0) == (b
            & button::L != 0),
        ((b | (button::L4 | button::L5 | button::R4 | button::R5)) & button::R != 0) == (b
            & button::R != 0),
        ((b | (button::L4 | button::L5 | button::R4 | button::R5)) & button::X != 0) == (b
            & button::X != 0),
        ((b | (button::L4 | button::L5 | button::R4 | button::R5)) & button::A != 0) == (b
            & button::A != 0),
        ((b | (button::L4 | button::L5 | button::R4 | button::R5)) & button::B != 0) == (b
            & button::B != 0),
        ((b | (button::L4 | button::L5 | button::R4 | button::R5)) & button::Y != 0) == (b
            & button::Y != 0),
        ((b | (button::L4 | button::L5 | button::R4 | button::R5)) & button::STEAM != 0) == (b
            & button::STEAM != 0),
        ((b | (button::L4 | button::L5 | button::R4 | button::R5)) & button::QAM != 0) == (b
            & button::QAM != 0),
{
}

proof fn lemma_low_two_bits(x: u8, t: u8)
    by (bit_vector)
    requires
        t < 4,
        x % 4 == t,
    ensures
        x & 3 == t,
{
}

/// The DSU button bytes ignore the back grips; the two low bits of the
/// face byte are the L2 and R2 flags; Home and Touch are 1 exactly when the
/// Steam and quick-access buttons are held.
#[verifier::spinoff_prover]
pub proof fn law_button_bytes_layout(b: u32, l2_down: bool, r2_down: bool)
    ensures
        button_bytes(b | back_grips(), l2_down, r2_down) == button_bytes(b, l2_down, r2_down),
        button_bytes(b, l2_down, r2_down)[1] & 3 == (if l2_down {
            1u8
        } else {
            0u8
        }) + (if r2_down {
            2u8
        } else {
            0u8
        }),
        button_bytes(b, l2_down, r2_down)[2] == (if b & button::STEAM != 0 {
            1u8
        } else {
            0u8
        }),
        button_bytes(b, l2_down, r2_down)[3] == (if b & button::QAM != 0 {
            1u8
        } else {
            0u8
        }),
{
    let g = b | back_grips();
    assert(g == b | (button::L4 | button::L5 | button::R4 | button::R5));
    lemma_grips_leave_reported_buttons(b);
    assert(system_byte(g) == system_byte(b));
    assert(face_byte(g, l2_down, r2_down) == face_byte(b, l2_down, r2_down));
    assert(button_bytes(g, l2_down, r2_down) =~= button_bytes(b, l2_down, r2_down));
    lemma_face_low_bits(b, l2_down, r2_down);
}

proof fn lemma_face_low_bits(b: u32, l2_down: bool, r2_down: bool)
    ensures
        face_byte(b, l2_down, r2_down) & 3 == (if l2_down {
            1u8
        } else {
            0u8
        }) + (if r2_down {
            2u8
        } else {
            0u8
        }),
{
    let f = face_byte(b, l2_down, r2_down);
    let low = ((if l2_down {
        1u8
    } else {
        0u8
    }) + (if r2_down {
        2u8
    } else {
        0u8
    })) as u8;
    assert(f % 4 == low) by {
        reveal(byte_of);
        let rest = flag(down(b, button::L), 4) + flag(down(b, button::R), 8) + flag(
            down(b, button::X),
            16,
        ) + flag(down(b, button::A), 32) + flag(down(b, button::B), 64) + flag(
            down(b, button::Y),
            128,
        );
        assert(rest % 4 == 0);
        assert(low + rest <= 255);
    }
    lemma_low_two_bits(f, low);
}

/// A signed stick axis rescaled to 0..=255 with 128 at rest.
pub open spec fn stick_level(v: i16) -> u8 {
    ((v + 32768) / 256) as u8
}

/// A trigger reading (0..=0x7FFF nominal) rescaled to 0..=255, saturating.
pub open spec fn trigger_level(v: u16) -> u8 {
    if v / 128 < 255 {
        (v / 128) as u8
    } else {
        255
    }
}

pub fn stick_to_u8(v: i16) -> (r: u8)
    ensures
        r == stick_level(v),
{
    ((v as i32 + 32768) / 256) as u8
}

pub fn trigger_to_u8(v: u16) -> (r: u8)
    ensures
        r == trigger_level(v),
{
    let scaled = v / 128;
    if scaled < 255 {
        scaled as u8
    } else {
        255
    }
}

// ---------------------------------------------------------------------------
// Data body.

/// The four stick axes rescaled to bytes: left x, left y, right x, right y.
pub open spec fn stick_bytes(state: ControllerState) -> Seq<u8> {
    seq![
        stick_level(state.left_stick[0]),
        stick_level(state.left_stick[1]),
        stick_level(state.right_stick[0]),
        stick_level(state.right_stick[1]),
    ]
}

/// The twelve analog button levels: D-pad left, down, right, up, then the
/// face buttons Y, B, A, X, the shoulders R, L, and the triggers R2, L2.
/// Digital buttons read fully pressed or released.
pub open spec fn analog_bytes(b: u32, r2: u8, l2: u8) -> Seq<u8> {
    seq![
        flag(down(b, button::DPAD_LEFT), 255),
        flag(down(b, button::DPAD_DOWN), 255),
        flag(down(b, button::DPAD_RIGHT), 255),
        flag(down(b, button::DPAD_UP), 255),
        flag(down(b, button::Y), 255),
        flag(down(b, button::B), 255),
        flag(down(b, button::A), 255),
        flag(down(b, button::X), 255),
        flag(down(b, button::R), 255),
        flag(down(b, button::L), 255),
        r2,
        l2,
    ]
}

/// Bytes 5..25 of a data body: buttons, sticks, then the analog button and
/// trigger levels.  Triggers count as digitally pressed from
/// `TRIGGER_DIGITAL_THRESHOLD` on.
pub open spec fn input_bytes(state: ControllerState) -> Seq<u8> {
    let l2 = trigger_level(state.trigger_left);
    let r2 = trigger_level(state.trigger_right);
    button_bytes(state.buttons, l2 >= TRIGGER_DIGITAL_THRESHOLD, r2 >= TRIGGER_DIGITAL_THRESHOLD)
        + stick_bytes(state) + analog_bytes(state.buttons, r2, l2)
}

/// Bytes 37..69 of a data body: the timestamp as a 64-bit value, then the
/// accelerometer and gyro readings.
pub open spec fn motion_bytes(imu: ImuSample) -> Seq<u8> {
    le64(imu.timestamp_us as u64) + le32(imu.accel_g_bits[0]) + le32(imu.accel_g_bits[1]) + le32(
        imu.accel_g_bits[2],
    ) + le32(imu.gyro_dps_bits[0]) + le32(imu.gyro_dps_bits[1]) + le32(imu.gyro_dps_bits[2])
}

/// A buffer after the data body of `state` was written at `at`: byte 0
/// marks the controller connected, and the packet counter (bytes 1..5) and
/// touch data (bytes 25..37) are left as they were.
pub open spec fn data_body_written(s: Seq<u8>, at: int, state: ControllerState) -> Seq<u8> {
    write_bytes(
        write_bytes(write_bytes(s, at, seq![1u8]), at + 5, input_bytes(state)),
        at + 37,
        motion_bytes(state.imu),
    )
}

fn level_if(on: bool) -> (r: u8)
    ensures
        r == flag(on, 255),
{
    if on {
        255
    } else {
        0
    }
}

fn stick_section(state: &ControllerState) -> (r: Vec<u8>)
    ensures
        r@ == stick_bytes(*state),
{
    let mut v: Vec<u8> = Vec::new();
    v.push(stick_to_u8(state.left_stick[0]));
    v.push(stick_to_u8(state.left_stick[1]));
    v.push(stick_to_u8(state.right_stick[0]));
    v.push(stick_to_u8(state.right_stick[1]));
    assert(v@ =~= stick_bytes(*state));
    v
}

fn analog_section(b: u32, r2: u8, l2: u8) -> (r: Vec<u8>)
    ensures
        r@ == analog_bytes(b, r2, l2),
{
    let mut v: Vec<u8> = Vec::new();
    v.push(level_if(is_down(b, button::DPAD_LEFT)));
    v.push(level_if(is_down(b, button::DPAD_DOWN)));
    v.push(level_if(is_down(b, button::DPAD_RIGHT)));
    v.push(level_if(is_down(b, button::DPAD_UP)));
    v.push(level_if(is_down(b, button::Y)));
    v.push(level_if(is_down(b, button::B)));
    v.push(level_if(is_down(b, button::A)));
    v.push(level_if(is_down(b, button::X)));
    v.push(level_if(is_down(b, button::R)));
    v.push(level_if(is_down(b, button::L)));
    v.push(r2);
    v.push(l2);
    assert(v@ =~= analog_bytes(b, r2, l2));
    v
}

fn input_section(state: &ControllerState) -> (r: Vec<u8>)
    ensures
        r@ == input_bytes(*state),
{
    let l2 = trigger_to_u8(state.trigger_left);
    let r2 = trigger_to_u8(state.trigger_right);
    let bb = dsu_button_bytes(
        state.buttons,
        l2 >= TRIGGER_DIGITAL_THRESHOLD,
        r2 >= TRIGGER_DIGITAL_THRESHOLD,
    );
    let mut v: Vec<u8> = Vec::new();
    v.push(bb[0]);
    v.push(bb[1]);
    v.push(bb[2]);
    v.push(bb[3]);
    assert(v@ =~= bb@);
    let mut sticks = stick_section(state);
    let mut analog = analog_section(state.buttons, r2, l2);
    v.append(&mut sticks);
    v.append(&mut analog);
    v
}

fn motion_section(imu: &ImuSample) -> (r: Vec<u8>)
    ensures
        r@ == motion_bytes(*imu),
{
    let mut v: Vec<u8> = Vec::new();
    let ts = imu.timestamp_us as u64;
    push_u32_le(&mut v, (ts % 0x1_0000_0000) as u32);
    push_u32_le(&mut v, (ts / 0x1_0000_0000) as u32);
    push_u32_le(&mut v, imu.accel_g_bits[0]);
    push_u32_le(&mut v, imu.accel_g_bits[1]);
    push_u32_le(&mut v, imu.accel_g_bits[2]);
    push_u32_le(&mut v, imu.gyro_dps_bits[0]);
    push_u32_le(&mut v, imu.gyro_dps_bits[1]);
    push_u32_le(&mut v, imu.gyro_dps_bits[2]);
    assert(v@ =~= motion_bytes(*imu));
    v
}

/// Writes the data body of `state` at `at`.
pub fn write_data_body(body: &mut Vec<u8>, at: usize, state: &ControllerState)
    requires
        at + 69 <= old(body)@.len(),
    ensures
        final(body)@ == data_body_written(old(body)@, at as int, *state),
{
    let _len = body.len();
    body.set(at, 1u8);
    assert(body@ =~= write_bytes(old(body)@, at as int, seq![1u8]));
    let input = input_section(state);
    put_bytes(body, at + 5, input.as_slice());
    let motion = motion_section(&state.imu);
    put_bytes(body, at + 37, motion.as_slice());
}

// ---------------------------------------------------------------------------
// Reading client requests.

pub fn read_u8(msg: &[u8], pos: &mut usize) -> (r: Option<u8>)
    ensures
        *old(pos) + 1 <= msg@.len() ==> r == Some(msg@[*old(pos) as int]) && *final(pos) == *old(
            pos,
        ) + 1,
        *old(pos) + 1 > msg@.len() ==> r is None && *final(pos) == *old(pos),
{
    if *pos < msg.len() {
        let b = msg[*pos];
        *pos = *pos + 1;
        Some(b)
    } else {
        None
    }
}

pub fn read_u16_le(msg: &[u8], pos: &mut usize) -> (r: Option<u16>)
    ensures
        *old(pos) + 2 <= msg@.len() ==> r == Some(le_u16_at(msg@, *old(pos) as int))
            && *final(pos) == *old(pos) + 2,
        *old(pos) + 2 > msg@.len() ==> r is None && *final(pos) == *old(pos),
{
    if *pos <= msg.len() && msg.len() - *pos >= 2 {
        let v = crate::bytes::get_u16_le(msg, *pos);
        *pos = *pos + 2;
        Some(v)
    } else {
        None
    }
}

pub fn read_u32_le(msg: &[u8], pos: &mut usize) -> (r: Option<u32>)
    ensures
        *old(pos) + 4 <= msg@.len() ==> r == Some(le_u32_at(msg@, *old(pos) as int))
            && *final(pos) == *old(pos) + 4,
        *old(pos) + 4 > msg@.len() ==> r is None && *final(pos) == *old(pos),
{
    if *pos <= msg.len() && msg.len() - *pos >= 4 {
        let v = crate::bytes::get_u32_le(msg, *pos);
        *pos = *pos + 4;
        Some(v)
    } else {
        None
    }
}

/// A request from a DSU client that the server acts on.
#[derive(Debug)]
pub enum Request {
    /// Asks for the protocol version.
    Version,
    /// Asks for information about the listed slots.
    Ports { slots: Vec<u8> },
    /// Registers for controller data.
    Data { key: SubscriptionKey },
}

/// A request that passed the header checks but whose body is cut short.
#[derive(Clone, Copy, Debug, PartialEq, Eq)]
pub enum RequestError {
    Truncated,
}

/// The payload length a client header declares.
pub open spec fn declared_len(m: Seq<u8>) -> int {
    le_u16_at(m, 6) as int
}

/// Header checks a client packet must pass to be acted on: long enough,
/// client magic, protocol version, declared length present, and a CRC over
/// the declared packet that matches the CRC field.
pub open spec fn header_valid(m: Seq<u8>) -> bool {
    &&& m.len() >= HEADER_LEN_FULL
    &&& m.subrange(0, 4) == magic_client()
    &&& le_u16_at(m, 4) == PROTOCOL_VERSION
    &&& m.len() >= HEADER_LEN + declared_len(m)
    &&& le_u32_at(m, CRC_OFFSET as int) == crc32_of(
        zero_crc_field(m.subrange(0, HEADER_LEN + declared_len(m))),
    )
}

pub open spec fn message_type(m: Seq<u8>) -> u32 {
    le_u32_at(m, 16)
}

/// The number of slots a port request lists, capped at the number of slots.
pub open spec fn requested_port_count(m: Seq<u8>) -> int {
    if le_u32_at(m, 20) < MAX_SLOTS {
        le_u32_at(m, 20) as int
    } else {
        MAX_SLOTS as int
    }
}

/// The subscription a data request registers.
pub open spec fn key_of_request(key: SubscriptionKey, m: Seq<u8>) -> bool {
    &&& key.client_id == le_u32_at(m, 12)
    &&& key.reg_type == m[20]
    &&& key.slot == m[21]
    &&& key.mac@ == m.subrange(22, 28)
}

/// Whether the body of a request with a valid header is cut short.
pub open spec fn body_truncated(m: Seq<u8>) -> bool {
    ||| (message_type(m) == MSG_TYPE_PORTS && (m.len() < 24 || m.len() < 24
        + requested_port_count(m)))
    ||| (message_type(m) == MSG_TYPE_DATA && m.len() < 28)
}

fn has_client_magic(msg: &[u8]) -> (r: bool)
    requires
        msg@.len() >= 4,
    ensures
        r == (msg@.subrange(0, 4) == magic_client()),
{
    let r = msg[0] == 0x44 && msg[1] == 0x53 && msg[2] == 0x55 && msg[3] == 0x43;
    if r {
        assert(msg@.subrange(0, 4) =~= magic_client());
    } else {
        assert(msg@.subrange(0, 4) != magic_client()) by {
            if msg@.subrange(0, 4) == magic_client() {
                assert(msg@.subrange(0, 4)[0] == msg@[0]);
                assert(msg@.subrange(0, 4)[1] == msg@[1]);
                assert(msg@.subrange(0, 4)[2] == msg@[2]);
                assert(msg@.subrange(0, 4)[3] == msg@[3]);
            }
        }
    }
    r
}

/// Parses a client packet.  `Ok(None)` means the packet is ignored: its
/// header fails a check, or its message type is one the server does not
/// answer.  A port request lists at most `MAX_SLOTS` slots.
pub fn parse_request(msg: &[u8]) -> (r: Result<Option<Request>, RequestError>)
    ensures
        match r {
            Ok(None) => !header_valid(msg@) || (message_type(msg@) != MSG_TYPE_VERSION
                && message_type(msg@) != MSG_TYPE_PORTS && message_type(msg@) != MSG_TYPE_DATA),
            Ok(Some(Request::Version)) => header_valid(msg@) && message_type(msg@)
                == MSG_TYPE_VERSION,
            Ok(Some(Request::Ports { slots })) => header_valid(msg@) && message_type(msg@)
                == MSG_TYPE_PORTS && !body_truncated(msg@) && slots@ == msg@.subrange(
                24,
                24 + requested_port_count(msg@),
            ),
            Ok(Some(Request::Data { key })) => header_valid(msg@) && message_type(msg@)
                == MSG_TYPE_DATA && !body_truncated(msg@) && key_of_request(key, msg@),
            Err(RequestError::Truncated) => header_valid(msg@) && body_truncated(msg@),
        },
{
    if msg.len() < HEADER_LEN_FULL {
        return Ok(None);
    }
    if !has_client_magic(msg) {
        return Ok(None);
    }
    let mut pos: usize = 4;
    let version = match read_u16_le(msg, &mut pos) {
        Some(v) => v,
        None => {
            return Ok(None);
        },
    };
    if version != PROTOCOL_VERSION {
        return Ok(None);
    }
    let length = match read_u16_le(msg, &mut pos) {
        Some(v) => v as usize,
        None => {
            return Ok(None);
        },
    };
    if msg.len() < HEADER_LEN + length {
        return Ok(None);
    }
    let claimed_crc = match read_u32_le(msg, &mut pos) {
        Some(v) => v,
        None => {
            return Ok(None);
        },
    };
    let framed = vstd::slice::slice_subrange(msg, 0, HEADER_LEN + length);
    if claimed_crc != crc_over_zeroed(framed) {
        return Ok(None);
    }
    let client_id = match read_u32_le(msg, &mut pos) {
        Some(v) => v,
        None => {
            return Ok(None);
        },
    };
    let mtype = match read_u32_le(msg, &mut pos) {
        Some(v) => v,
        None => {
            return Ok(None);
        },
    };
    assert(header_valid(msg@));
    if mtype == MSG_TYPE_VERSION {
        Ok(Some(Request::Version))
    } else if mtype == MSG_TYPE_PORTS {
        let amount = match read_u32_le(msg, &mut pos) {
            Some(v) => if v < MAX_SLOTS as u32 {
                v as usize
            } else {
                MAX_SLOTS
            },
            None => {
                return Err(RequestError::Truncated);
            },
        };
        if msg.len() - pos < amount {
            return Err(RequestError::Truncated);
        }
        let mut slots: Vec<u8> = Vec::new();
        let mut i: usize = 0;
        while i < amount
            invariant
                0 <= i <= amount,
                pos == 24,
                24 + amount <= msg@.len(),
                msg@.len() <= usize::MAX,
                slots@ == msg@.subrange(24, 24 + i),
            decreases amount - i,
        {
            slots.push(msg[pos + i]);
            i = i + 1;
            assert(slots@ =~= msg@.subrange(24, 24 + i));
        }
        Ok(Some(Request::Ports { slots }))
    } else if mtype == MSG_TYPE_DATA {
        if msg.len() < 28 {
            return Err(RequestError::Truncated);
        }
        let reg_type = msg[20];
        let slot = msg[21];
        let mac = [msg[22], msg[23], msg[24], msg[25], msg[26], msg[27]];
        assert(mac@ =~= msg@.subrange(22, 28));
        Ok(Some(Request::Data { key: SubscriptionKey { client_id, reg_type, slot, mac } }))
    } else {
        Ok(None)
    }
}

// ---------------------------------------------------------------------------
// Server packets.

/// The answer to a version request.
pub open spec fn version_packet_bytes(server_id: u32) -> Seq<u8> {
    with_crc(
        write_bytes(
            write_bytes(zeros(22), 0, header_bytes(22, server_id, MSG_TYPE_VERSION)),
            HEADER_LEN_FULL as int,
            le16(PROTOCOL_VERSION),
        ),
    )
}

/// The answer to a port request for `slot`.
pub open spec fn port_info_bytes(server_id: u32, slot: u8, connected: bool) -> Seq<u8> {
    with_crc(
        write_bytes(
            write_bytes(zeros(32), 0, header_bytes(32, server_id, MSG_TYPE_PORTS)),
            HEADER_LEN_FULL as int,
            controller_header_bytes(slot, connected),
        ),
    )
}

/// A data packet for `slot` before the per-client packet counter and CRC
/// are filled in.
pub open spec fn data_packet_bytes(server_id: u32, slot: u8, state: ControllerState) -> Seq<u8> {
    data_body_written(
        write_bytes(
            write_bytes(
                zeros(DATA_PACKET_LEN as nat),
                0,
                header_bytes(DATA_PACKET_LEN as nat, server_id, MSG_TYPE_DATA),
            ),
            HEADER_LEN_FULL as int,
            controller_header_bytes(slot, true),
        ),
        (HEADER_LEN_FULL + CONTROLLER_HEADER_LEN) as int,
        state,
    )
}

/// A data packet as sent to one client: its packet counter filled in, then
/// its CRC.
pub open spec fn stamped(packet: Seq<u8>, counter: u32) -> Seq<u8> {
    with_crc(write_bytes(packet, PACKET_NUM_OFFSET as int, le32(counter)))
}

pub fn version_packet(server_id: u32) -> (r: Vec<u8>)
    ensures
        r@ == version_packet_bytes(server_id),
{
    let mut out = zeroed(22);
    write_header(&mut out, server_id, MSG_TYPE_VERSION);
    put_u16_le(&mut out, HEADER_LEN_FULL, PROTOCOL_VERSION);
    finalize_crc(&mut out);
    out
}

pub fn port_info_packet(server_id: u32, slot: u8, connected: bool) -> (r: Vec<u8>)
    ensures
        r@ == port_info_bytes(server_id, slot, connected),
{
    let mut out = zeroed(HEADER_LEN_FULL + 12);
    write_header(&mut out, server_id, MSG_TYPE_PORTS);
    write_controller_header(&mut out, HEADER_LEN_FULL, slot, connected);
    finalize_crc(&mut out);
    out
}

pub fn data_packet(server_id: u32, slot: u8, state: &ControllerState) -> (r: Vec<u8>)
    ensures
        r@ == data_packet_bytes(server_id, slot, *state),
{
    let mut out = zeroed(DATA_PACKET_LEN);
    write_header(&mut out, server_id, MSG_TYPE_DATA);
    write_controller_header(&mut out, HEADER_LEN_FULL, slot, true);
    write_data_body(&mut out, HEADER_LEN_FULL + CONTROLLER_HEADER_LEN, state);
    out
}

/// Every packet the server sends is framed: server magic, protocol version,
/// a length field counting the bytes after the base header, and a CRC field
/// that matches the CRC a receiver computes.
pub open spec fn framed(p: Seq<u8>) -> bool {
    &&& p.len() >= HEADER_LEN_FULL
    &&& p.subrange(0, 4) == magic_server()
    &&& le_u16_at(p, 4) == PROTOCOL_VERSION
    &&& le_u16_at(p, 6) == p.len() - HEADER_LEN
    &&& le_u32_at(p, CRC_OFFSET as int) == crc32_of(zero_crc_field(p))
}

/// A packet whose first 20 bytes are a server header for its own length is
/// framed once its CRC is filled in.
#[verifier::spinoff_prover]
#[verifier::rlimit(40)]
proof fn lemma_framed_if_header(s: Seq<u8>, server_id: u32, mtype: u32)
    requires
        HEADER_LEN_FULL <= s.len() < 0x1_0000,
        s.subrange(0, HEADER_LEN_FULL as int) == header_bytes(s.len(), server_id, mtype),
    ensures
        framed(with_crc(s)),
        le_u32_at(with_crc(s), 12) == server_id,
        le_u32_at(with_crc(s), 16) == mtype,
{
    let h = header_bytes(s.len(), server_id, mtype);
    let p = with_crc(s);
    law_finalized_crc_checks(s);
    assert forall|i: int| 0 <= i < HEADER_LEN_FULL && !(8 <= i < 12) implies p[i] == h[i] by {
        assert(s[i] == s.subrange(0, HEADER_LEN_FULL as int)[i]);
    }
    assert(p.subrange(0, 4) =~= magic_server());
}

#[verifier::spinoff_prover]
#[verifier::rlimit(40)]
proof fn lemma_version_framed(server_id: u32)
    ensures
        framed(version_packet_bytes(server_id)),
        le_u32_at(version_packet_bytes(server_id), 16) == MSG_TYPE_VERSION,
{
    let s = write_bytes(
        write_bytes(zeros(22), 0, header_bytes(22, server_id, MSG_TYPE_VERSION)),
        HEADER_LEN_FULL as int,
        le16(PROTOCOL_VERSION),
    );
    assert(s.subrange(0, 20) =~= header_bytes(22, server_id, MSG_TYPE_VERSION));
    lemma_framed_if_header(s, server_id, MSG_TYPE_VERSION);
}

#[verifier::spinoff_prover]
#[verifier::rlimit(40)]
proof fn lemma_port_info_framed(server_id: u32, slot: u8, connected: bool)
    ensures
        framed(port_info_bytes(server_id, slot, connected)),
        le_u32_at(port_info_bytes(server_id, slot, connected), 16) == MSG_TYPE_PORTS,
{
    let s = write_bytes(
        write_bytes(zeros(32), 0, header_bytes(32, server_id, MSG_TYPE_PORTS)),
        HEADER_LEN_FULL as int,
        controller_header_bytes(slot, connected),
    );
    assert(s.subrange(0, 20) =~= header_bytes(32, server_id, MSG_TYPE_PORTS));
    lemma_framed_if_header(s, server_id, MSG_TYPE_PORTS);
}

#[verifier::spinoff_prover]
#[verifier::rlimit(40)]
proof fn lemma_data_framed(server_id: u32, slot: u8, state: ControllerState, counter: u32)
    ensures
        framed(stamped(data_packet_bytes(server_id, slot, state), counter)),
        le_u32_at(stamped(data_packet_bytes(server_id, slot, state), counter), 16)
            == MSG_TYPE_DATA,
        le_u32_at(stamped(data_packet_bytes(server_id, slot, state), counter), 12) == server_id,
        le_u32_at(
            stamped(data_packet_bytes(server_id, slot, state), counter),
            PACKET_NUM_OFFSET as int,
        ) == counter,
        stamped(data_packet_bytes(server_id, slot, state), counter)[HEADER_LEN_FULL as int] == slot,
{
    let h0 = write_bytes(
        zeros(DATA_PACKET_LEN as nat),
        0,
        header_bytes(DATA_PACKET_LEN as nat, server_id, MSG_TYPE_DATA),
    );
    let h1 = write_bytes(h0, HEADER_LEN_FULL as int, controller_header_bytes(slot, true));
    let t = data_packet_bytes(server_id, slot, state);
    let s = write_bytes(t, PACKET_NUM_OFFSET as int, le32(counter));
    assert(h1.subrange(0, 20) =~= header_bytes(DATA_PACKET_LEN as nat, server_id, MSG_TYPE_DATA));
    assert(t.subrange(0, 20) =~= h1.subrange(0, 20));
    assert(s.subrange(0, 20) =~= t.subrange(0, 20));
    lemma_framed_if_header(s, server_id, MSG_TYPE_DATA);
    law_finalized_crc_checks(s);
    assert(with_crc(s)[32] == s[32]);
    assert(with_crc(s)[33] == s[33]);
    assert(with_crc(s)[34] == s[34]);
    assert(with_crc(s)[35] == s[35]);
    assert(h1[20] == slot);
    assert(t[20] == h1[20]);
}

/// Every packet the server builds is framed, and names the server and the
/// message type it answers with; a data packet carries its slot and the
/// packet counter it was stamped with.
pub proof fn law_server_packets_are_framed(
    server_id: u32,
    slot: u8,
    connected: bool,
    state: ControllerState,
    counter: u32,
)
    ensures
        framed(version_packet_bytes(server_id)),
        le_u32_at(version_packet_bytes(server_id), 16) == MSG_TYPE_VERSION,
        framed(port_info_bytes(server_id, slot, connected)),
        le_u32_at(port_info_bytes(server_id, slot, connected), 16) == MSG_TYPE_PORTS,
        framed(stamped(data_packet_bytes(server_id, slot, state), counter)),
        le_u32_at(stamped(data_packet_bytes(server_id, slot, state), counter), 16)
            == MSG_TYPE_DATA,
        le_u32_at(stamped(data_packet_bytes(server_id, slot, state), counter), 12) == server_id,
        le_u32_at(
            stamped(data_packet_bytes(server_id, slot, state), counter),
            PACKET_NUM_OFFSET as int,
        ) == counter,
        stamped(data_packet_bytes(server_id, slot, state), counter)[HEADER_LEN_FULL as int] == slot,
{
    lemma_version_framed(server_id);
    lemma_port_info_framed(server_id, slot, connected);
    lemma_data_framed(server_id, slot, state, counter);
}

// ---------------------------------------------------------------------------
// Subscribers.

/// A client registration for controller data.
#[derive(Clone, Copy, Debug)]
pub struct Subscription {
    pub key: SubscriptionKey,
    /// When the client last renewed the registration, in milliseconds on
    /// the server's monotonic clock.
    pub last_request_ms: u64,
    /// Packets sent to this registration so far, per slot.
    pub packet_counters: [u32; 4],
}

/// The subscribed clients, in registration order.  `addrs[i]` is where the
/// data of `subs[i]` goes.
pub struct SubscriberTable<A> {
    pub subs: Vec<Subscription>,
    pub addrs: Vec<A>,
}

/// How `SubscriberTable::register` treated a data request.
#[derive(Clone, Copy, Debug, PartialEq, Eq)]
pub enum Registration {
    /// The request names no slot of this server.
    NotForUs,
    /// The table is full and the registration is new.
    TableFull,
    /// An existing registration was renewed.
    Refreshed,
    /// A new registration was added.
    Added,
}

/// No registration appears twice.
pub open spec fn keys_distinct(subs: Seq<Subscription>) -> bool {
    forall|i: int, j: int|
        0 <= i < subs.len() && 0 <= j < subs.len() && i != j ==> !same_key(
            subs[i].key,
            subs[j].key,
        )
}

pub open spec fn registered(subs: Seq<Subscription>, key: SubscriptionKey) -> bool {
    exists|i: int| 0 <= i < subs.len() && same_key(#[trigger] subs[i].key, key)
}

/// Milliseconds from `then` to `now`, zero if `then` is later.
pub open spec fn age_ms(now: u64, then: u64) -> int {
    if now >= then {
        now - then
    } else {
        0
    }
}

/// A registration renewed within the client timeout.
pub open spec fn fresh(s: Subscription, now: u64) -> bool {
    age_ms(now, s.last_request_ms) < CLIENT_TIMEOUT_MS
}

/// Indices among the first `n` registrations that are still fresh, in order.
pub open spec fn fresh_indices(subs: Seq<Subscription>, now: u64, n: int) -> Seq<int>
    decreases n,
{
    if n <= 0 {
        Seq::empty()
    } else if fresh(subs[n - 1], now) {
        fresh_indices(subs, now, n - 1).push(n - 1)
    } else {
        fresh_indices(subs, now, n - 1)
    }
}

/// A registration after a data packet of `slot` was routed: its counter for
/// the slot moved on by one (wrapping) if it receives the slot, and nothing
/// else changed.
pub open spec fn counted(before: Subscription, after: Subscription, slot: u8) -> bool {
    &&& after.key == before.key
    &&& after.last_request_ms == before.last_request_ms
    &&& after.packet_counters@ == if wants_slot(before.key, slot) {
        before.packet_counters@.update(
            slot as int,
            vstd::wrapping::u32_specs::wrapping_add(before.packet_counters@[slot as int], 1),
        )
    } else {
        before.packet_counters@
    }
}

/// Indices among the first `n` registrations that receive `slot`, in order.
pub open spec fn wanting_indices(subs: Seq<Subscription>, slot: u8, n: int) -> Seq<int>
    decreases n,
{
    if n <= 0 {
        Seq::empty()
    } else if wants_slot(subs[n - 1].key, slot) {
        wanting_indices(subs, slot, n - 1).push(n - 1)
    } else {
        wanting_indices(subs, slot, n - 1)
    }
}

proof fn lemma_indices_bounded(subs: Seq<Subscription>, now: u64, slot: u8, n: int)
    requires
        0 <= n <= subs.len(),
    ensures
        forall|k: int|
            0 <= k < fresh_indices(subs, now, n).len() ==> 0 <= #[trigger] fresh_indices(
                subs,
                now,
                n,
            )[k] < n,
        forall|k: int|
            0 <= k < wanting_indices(subs, slot, n).len() ==> 0 <= #[trigger] wanting_indices(
                subs,
                slot,
                n,
            )[k] < n,
        fresh_indices(subs, now, n).len() <= n,
        wanting_indices(subs, slot, n).len() <= n,
    decreases n,
{
    if n > 0 {
        lemma_indices_bounded(subs, now, slot, n - 1);
    }
}

proof fn lemma_fresh_indices_increasing(subs: Seq<Subscription>, now: u64, n: int)
    requires
        0 <= n <= subs.len(),
    ensures
        forall|a: int, b: int|
            0 <= a < b < fresh_indices(subs, now, n).len() ==> fresh_indices(subs, now, n)[a]
                < fresh_indices(subs, now, n)[b],
    decreases n,
{
    if n > 0 {
        lemma_fresh_indices_increasing(subs, now, n - 1);
        lemma_indices_bounded(subs, now, 0, n - 1);
    }
}

/// Cleanup keeps exactly the registrations renewed within the client
/// timeout.
pub proof fn law_cleanup_keeps_exactly_fresh(subs: Seq<Subscription>, now: u64, n: int)
    requires
        0 <= n <= subs.len(),
    ensures
        forall|i: int|
            0 <= i < n ==> (fresh(subs[i], now) <==> fresh_indices(subs, now, n).contains(i)),
    decreases n,
{
    if n > 0 {
        law_cleanup_keeps_exactly_fresh(subs, now, n - 1);
        lemma_indices_bounded(subs, now, 0, n - 1);
        let prev = fresh_indices(subs, now, n - 1);
        assert forall|i: int| 0 <= i < n implies (fresh(subs[i], now) <==> fresh_indices(
            subs,
            now,
            n,
        ).contains(i)) by {
            if fresh(subs[n - 1], now) {
                let cur = prev.push(n - 1);
                if i < n - 1 {
                    if prev.contains(i) {
                        let k = choose|k: int| 0 <= k < prev.len() && prev[k] == i;
                        assert(cur[k] == i);
                    }
                    if cur.contains(i) {
                        let k = choose|k: int| 0 <= k < cur.len() && cur[k] == i;
                        if k < prev.len() {
                            assert(prev[k] == i);
                        }
                    }
                } else {
                    assert(cur[prev.len() as int] == i);
                }
            } else {
                if i == n - 1 {
                    if prev.contains(i) {
                        let k = choose|k: int| 0 <= k < prev.len() && prev[k] == i;
                        assert(prev[k] < n - 1);
                    }
                }
            }
        }
    }
}

/// A subscription asks for some slot of this server exactly when there is a
/// slot whose data it receives: one asking for every slot, for a slot
/// number of the server, or for the MAC of one of the server's slots.
pub proof fn law_subscription_scope(key: SubscriptionKey)
    ensures
        wants_any_slot(key) == exists|slot: u8| (slot as int) < MAX_SLOTS && #[trigger] wants_slot(key, slot),
        key.reg_type & 1 != 0 && (key.slot as int) < MAX_SLOTS ==> wants_any_slot(key) && wants_slot(
            key,
            key.slot,
        ),
        key.reg_type == 0 ==> wants_any_slot(key) && forall|slot: u8| #[trigger] wants_slot(key, slot),
{
    if wants_any_slot(key) {
        if key.reg_type == 0 {
            assert(wants_slot(key, 0));
        } else if key.reg_type & 1 != 0 && (key.slot as int) < MAX_SLOTS {
            assert(wants_slot(key, key.slot));
        } else {
            let c = choose|c: int| 0 <= c < MAX_SLOTS && key.mac@ == #[trigger] slot_mac_bytes(c as u8);
            assert(wants_slot(key, c as u8));
        }
    }
    if exists|slot: u8| (slot as int) < MAX_SLOTS && #[trigger] wants_slot(key, slot) {
        let slot = choose|slot: u8| (slot as int) < MAX_SLOTS && #[trigger] wants_slot(key, slot);
        if key.reg_type != 0 && !(key.reg_type & 1 != 0 && key.slot == slot) {
            assert(key.mac@ == slot_mac_bytes((slot as int) as u8));
        }
    }
}

/// Data of a slot is routed to exactly the registrations that receive it.
pub proof fn law_route_reaches_exactly_wanting(subs: Seq<Subscription>, slot: u8, n: int)
    requires
        0 <= n <= subs.len(),
    ensures
        forall|i: int|
            0 <= i < n ==> (wants_slot(subs[i].key, slot) <==> wanting_indices(
                subs,
                slot,
                n,
            ).contains(i)),
    decreases n,
{
    if n > 0 {
        law_route_reaches_exactly_wanting(subs, slot, n - 1);
        lemma_indices_bounded(subs, 0, slot, n - 1);
        let prev = wanting_indices(subs, slot, n - 1);
        assert forall|i: int| 0 <= i < n implies (wants_slot(subs[i].key, slot)
            <==> wanting_indices(subs, slot, n).contains(i)) by {
            if wants_slot(subs[n - 1].key, slot) {
                let cur = prev.push(n - 1);
                if i < n - 1 {
                    if prev.contains(i) {
                        let k = choose|k: int| 0 <= k < prev.len() && prev[k] == i;
                        assert(cur[k] == i);
                    }
                    if cur.contains(i) {
                        let k = choose|k: int| 0 <= k < cur.len() && cur[k] == i;
                        if k < prev.len() {
                            assert(prev[k] == i);
                        }
                    }
                } else {
                    assert(cur[prev.len() as int] == i);
                }
            } else {
                if i == n - 1 {
                    if prev.contains(i) {
                        let k = choose|k: int| 0 <= k < prev.len() && prev[k] == i;
                        assert(prev[k] < n - 1);
                    }
                }
            }
        }
    }
}

impl<A> SubscriberTable<A> {
    pub open spec fn wf(&self) -> bool {
        &&& self.subs@.len() == self.addrs@.len()
        &&& self.subs@.len() <= MAX_SUBSCRIBERS
        &&& keys_distinct(self.subs@)
    }

    pub fn new() -> (r: Self)
        ensures
            r.wf(),
            r.subs@.len() == 0,
    {
        SubscriberTable { subs: Vec::new(), addrs: Vec::new() }
    }

    pub fn len(&self) -> (r: usize)
        ensures
            r == self.subs@.len(),
    {
        self.subs.len()
    }

    pub fn is_empty(&self) -> (r: bool)
        ensures
            r == (self.subs@.len() == 0),
    {
        self.subs.len() == 0
    }

    /// Where the data of registration `i` goes.
    pub fn addr(&self, i: usize) -> (r: &A)
        requires
            self.wf(),
            i < self.subs@.len(),
        ensures
            *r == self.addrs@[i as int],
    {
        &self.addrs[i]
    }

    fn find(&self, key: &SubscriptionKey) -> (r: Option<usize>)
        ensures
            match r {
                Some(i) => i < self.subs@.len() && same_key(self.subs@[i as int].key, *key),
                None => !registered(self.subs@, *key),
            },
    {
        let mut i: usize = 0;
        while i < self.subs.len()
            invariant
                0 <= i <= self.subs@.len(),
                forall|k: int| 0 <= k < i ==> !same_key(#[trigger] self.subs@[k].key, *key),
            decreases self.subs@.len() - i,
        {
            if keys_equal(&self.subs[i].key, key) {
                return Some(i);
            }
            i = i + 1;
        }
        None
    }

    /// Handles a data request: a request naming none of this server's
    /// slots is ignored; an existing registration is renewed (its address
    /// and time updated, its packet counters kept); a new one is added unless
    /// the table already holds `MAX_SUBSCRIBERS` registrations.
    pub fn register(&mut self, key: SubscriptionKey, addr: A, now_ms: u64) -> (r: Registration)
        requires
            old(self).wf(),
        ensures
            final(self).wf(),
            !wants_any_slot(key) ==> r == Registration::NotForUs,
            wants_any_slot(key) && registered(old(self).subs@, key) ==> r
                == Registration::Refreshed,
            wants_any_slot(key) && !registered(old(self).subs@, key) && old(self).subs@.len()
                >= MAX_SUBSCRIBERS ==> r == Registration::TableFull,
            wants_any_slot(key) && !registered(old(self).subs@, key) && old(self).subs@.len()
                < MAX_SUBSCRIBERS ==> r == Registration::Added,
            r == Registration::NotForUs || r == Registration::TableFull ==> final(self).subs@
                == old(self).subs@ && final(self).addrs@ == old(self).addrs@,
            r == Registration::Refreshed ==> final(self).subs@.len() == old(self).subs@.len()
                && forall|i: int|
                0 <= i < old(self).subs@.len() ==> if same_key(old(self).subs@[i].key, key) {
                    &&& final(self).subs@[i].key == old(self).subs@[i].key
                    &&& final(self).subs@[i].last_request_ms == now_ms
                    &&& final(self).subs@[i].packet_counters == old(self).subs@[i].packet_counters
                    &&& final(self).addrs@[i] == addr
                } else {
                    &&& final(self).subs@[i] == old(self).subs@[i]
                    &&& final(self).addrs@[i] == old(self).addrs@[i]
                },
            r == Registration::Added ==> {
                &&& final(self).subs@.drop_last() == old(self).subs@
                &&& final(self).subs@.len() == old(self).subs@.len() + 1
                &&& final(self).subs@.last().key == key
                &&& final(self).subs@.last().last_request_ms == now_ms
                &&& final(self).subs@.last().packet_counters@ == seq![0u32, 0u32, 0u32, 0u32]
                &&& final(self).addrs@ == old(self).addrs@.push(addr)
            },
    {
        if !registration_wants_any_slot(&key) {
            return Registration::NotForUs;
        }
        match self.find(&key) {
            Some(i) => {
                let old_sub = self.subs[i];
                let renewed = Subscription {
                    key: old_sub.key,
                    last_request_ms: now_ms,
                    packet_counters: old_sub.packet_counters,
                };
                self.subs.set(i, renewed);
                self.addrs.set(i, addr);
                proof {
                    assert forall|a: int, b: int|
                        0 <= a < self.subs@.len() && 0 <= b < self.subs@.len() && a != b implies !same_key(
                        self.subs@[a].key,
                        self.subs@[b].key,
                    ) by {
                        assert(self.subs@[a].key == old(self).subs@[a].key);
                        assert(self.subs@[b].key == old(self).subs@[b].key);
                    }
                    assert forall|j: int| 0 <= j < old(self).subs@.len() && same_key(
                        old(self).subs@[j].key,
                        key,
                    ) implies j == i by {
                        if j != i {
                            assert(!same_key(old(self).subs@[j].key, old(self).subs@[i as int].key));
                        }
                    }
                }
                Registration::Refreshed
            },
            None => {
                if self.subs.len() >= MAX_SUBSCRIBERS {
                    return Registration::TableFull;
                }
                let fresh_sub = Subscription {
                    key,
                    last_request_ms: now_ms,
                    packet_counters: [0u32; 4],
                };
                self.subs.push(fresh_sub);
                self.addrs.push(addr);
                proof {
                    assert(self.subs@.drop_last() =~= old(self).subs@);
                    assert(fresh_sub.packet_counters@ =~= seq![0u32, 0u32, 0u32, 0u32]);
                    assert forall|a: int, b: int|
                        0 <= a < self.subs@.len() && 0 <= b < self.subs@.len() && a != b implies !same_key(
                        self.subs@[a].key,
                        self.subs@[b].key,
                    ) by {
                        let n = old(self).subs@.len() as int;
                        if a == n {
                            assert(!same_key(old(self).subs@[b].key, key));
                        } else if b == n {
                            assert(!same_key(old(self).subs@[a].key, key));
                        }
                    }
                }
                Registration::Added
            },
        }
    }

    /// Drops every registration not renewed within the client timeout,
    /// keeping the others in order.
    pub fn cleanup(&mut self, now_ms: u64)
        requires
            old(self).wf(),
        ensures
            final(self).wf(),
            final(self).subs@ == fresh_indices(
                old(self).subs@,
                now_ms,
                old(self).subs@.len() as int,
            ).map_values(|k: int| old(self).subs@[k]),
            final(self).addrs@ == fresh_indices(
                old(self).subs@,
                now_ms,
                old(self).subs@.len() as int,
            ).map_values(|k: int| old(self).addrs@[k]),
    {
        let ghost old_subs = self.subs@;
        let ghost old_addrs = self.addrs@;
        let n = self.subs.len();
        let mut j: usize = 0;
        let mut i: usize = 0;
        proof {
            assert(old_subs.skip(0) =~= old_subs);
            assert(old_addrs.skip(0) =~= old_addrs);
            assert(fresh_indices(old_subs, now_ms, 0).map_values(|k: int| old_subs[k])
                =~= Seq::<Subscription>::empty());
            assert(fresh_indices(old_subs, now_ms, 0).map_values(|k: int| old_addrs[k])
                =~= Seq::<A>::empty());
            assert(self.subs@ =~= fresh_indices(old_subs, now_ms, 0).map_values(
                |k: int| old_subs[k],
            ) + old_subs.skip(0));
            assert(self.addrs@ =~= fresh_indices(old_subs, now_ms, 0).map_values(
                |k: int| old_addrs[k],
            ) + old_addrs.skip(0));
        }
        while j < n
            invariant
                0 <= j <= n,
                n == old_subs.len(),
                old_subs.len() == old_addrs.len(),
                old_subs.len() <= MAX_SUBSCRIBERS,
                i == fresh_indices(old_subs, now_ms, j as int).len(),
                self.subs@ == fresh_indices(old_subs, now_ms, j as int).map_values(
                    |k: int| old_subs[k],
                ) + old_subs.skip(j as int),
                self.addrs@ == fresh_indices(old_subs, now_ms, j as int).map_values(
                    |k: int| old_addrs[k],
                ) + old_addrs.skip(j as int),
            decreases n - j,
        {
            proof {
                lemma_indices_bounded(old_subs, now_ms, 0, j as int);
            }
            let s = self.subs[i];
            assert(s == old_subs[j as int]);
            let age = if now_ms >= s.last_request_ms {
                now_ms - s.last_request_ms
            } else {
                0
            };
            let ghost prev = fresh_indices(old_subs, now_ms, j as int);
            if age < CLIENT_TIMEOUT_MS {
                i = i + 1;
                proof {
                    let next = fresh_indices(old_subs, now_ms, j + 1);
                    assert(next == prev.push(j as int));
                    assert(next.map_values(|k: int| old_subs[k]) + old_subs.skip(j + 1)
                        =~= prev.map_values(|k: int| old_subs[k]) + old_subs.skip(j as int));
                    assert(next.map_values(|k: int| old_addrs[k]) + old_addrs.skip(j + 1)
                        =~= prev.map_values(|k: int| old_addrs[k]) + old_addrs.skip(j as int));
                }
            } else {
                self.subs.remove(i);
                self.addrs.remove(i);
                proof {
                    let next = fresh_indices(old_subs, now_ms, j + 1);
                    assert(next == prev);
                    assert(self.subs@ =~= next.map_values(|k: int| old_subs[k]) + old_subs.skip(
                        j + 1,
                    ));
                    assert(self.addrs@ =~= next.map_values(|k: int| old_addrs[k]) + old_addrs.skip(
                        j + 1,
                    ));
                }
            }
            j = j + 1;
        }
        proof {
            assert(old_subs.skip(n as int) =~= Seq::<Subscription>::empty());
            assert(old_addrs.skip(n as int) =~= Seq::<A>::empty());
            assert(self.subs@ =~= fresh_indices(old_subs, now_ms, n as int).map_values(
                |k: int| old_subs[k],
            ));
            assert(self.addrs@ =~= fresh_indices(old_subs, now_ms, n as int).map_values(
                |k: int| old_addrs[k],
            ));
            let f = fresh_indices(old_subs, now_ms, n as int);
            lemma_indices_bounded(old_subs, now_ms, 0, n as int);
            lemma_fresh_indices_increasing(old_subs, now_ms, n as int);
            assert forall|a: int, b: int|
                0 <= a < self.subs@.len() && 0 <= b < self.subs@.len() && a != b implies !same_key(
                self.subs@[a].key,
                self.subs@[b].key,
            ) by {
                assert(self.subs@[a] == old_subs[f[a]]);
                assert(self.subs@[b] == old_subs[f[b]]);
                if a < b {
                    assert(f[a] < f[b]);
                } else {
                    assert(f[b] < f[a]);
                }
            }
        }
    }

    /// Prepares the data packet of `slot` for every registration that
    /// receives that slot, in registration order: each such registration's
    /// counter for the slot moves on by one (wrapping) and its copy of
    /// `packet` carries the new counter and a fresh CRC.  Returns the
    /// registration index and packet of each.
    pub fn route(&mut self, slot: u8, packet: &Vec<u8>) -> (r: Vec<(usize, Vec<u8>)>)
        requires
            old(self).wf(),
            packet@.len() >= PACKET_NUM_OFFSET + 4,
        ensures
            final(self).wf(),
            final(self).addrs@ == old(self).addrs@,
            final(self).subs@.len() == old(self).subs@.len(),
            (slot as usize) >= MAX_SLOTS ==> r@.len() == 0 && final(self).subs@ == old(self).subs@,
            (slot as usize) < MAX_SLOTS ==> forall|i: int|
                0 <= i < old(self).subs@.len() ==> counted(
                    old(self).subs@[i],
                    #[trigger] final(self).subs@[i],
                    slot,
                ),
            (slot as usize) < MAX_SLOTS ==> r@.len() == wanting_indices(
                old(self).subs@,
                slot,
                old(self).subs@.len() as int,
            ).len(),
            (slot as usize) < MAX_SLOTS ==> forall|k: int|
                0 <= k < r@.len() ==> #[trigger] r@[k].0 == wanting_indices(
                    old(self).subs@,
                    slot,
                    old(self).subs@.len() as int,
                )[k],
            (slot as usize) < MAX_SLOTS ==> forall|k: int|
                0 <= k < r@.len() ==> (#[trigger] r@[k]).1@ == stamped(
                    packet@,
                    final(self).subs@[r@[k].0 as int].packet_counters@[slot as int],
                ),
    {
        let mut out: Vec<(usize, Vec<u8>)> = Vec::new();
        if (slot as usize) >= MAX_SLOTS {
            return out;
        }
        let ghost old_subs = self.subs@;
        let n = self.subs.len();
        let mut i: usize = 0;
        while i < n
            invariant
                0 <= i <= n,
                n == old_subs.len(),
                (slot as usize) < MAX_SLOTS,
                packet@.len() >= PACKET_NUM_OFFSET + 4,
                self.addrs@ == old(self).addrs@,
                old_subs == old(self).subs@,
                old(self).wf(),
                self.subs@.len() == n,
                forall|k: int| i <= k < n ==> self.subs@[k] == old_subs[k],
                forall|k: int| 0 <= k < i ==> counted(old_subs[k], #[trigger] self.subs@[k], slot),
                out@.len() == wanting_indices(old_subs, slot, i as int).len(),
                forall|k: int|
                    0 <= k < out@.len() ==> {
                        let w = wanting_indices(old_subs, slot, i as int)[k];
                        &&& #[trigger] out@[k].0 == w
                        &&& out@[k].1@ == stamped(
                            packet@,
                            self.subs@[w].packet_counters@[slot as int],
                        )
                    },
            decreases n - i,
        {
            proof {
                lemma_indices_bounded(old_subs, 0, slot, i as int);
            }
            let ghost prev_subs = self.subs@;
            let ghost prev_out = out@;
            let mut sub = self.subs[i];
            if registration_wants_slot(&sub.key, slot) {
                let counter = sub.packet_counters[slot as usize].wrapping_add(1);
                sub.packet_counters[slot as usize] = counter;
                self.subs.set(i, sub);
                let mut p = vstd::slice::slice_to_vec(packet.as_slice());
                put_u32_le(&mut p, PACKET_NUM_OFFSET, counter);
                finalize_crc(&mut p);
                out.push((i, p));
                proof {
                    let w0 = wanting_indices(old_subs, slot, i as int);
                    let w1 = wanting_indices(old_subs, slot, i + 1);
                    assert(w1 == w0.push(i as int));
                    assert(self.subs@[i as int].packet_counters@ == old_subs[i as int].packet_counters@.update(
                        slot as int,
                        vstd::wrapping::u32_specs::wrapping_add(
                            old_subs[i as int].packet_counters@[slot as int],
                            1,
                        ),
                    ));
                    assert(self.subs@[i as int].packet_counters@[slot as int] == counter);
                    assert forall|k: int| 0 <= k < out@.len() implies {
                        let w = wanting_indices(old_subs, slot, i + 1)[k];
                        &&& #[trigger] out@[k].0 == w
                        &&& out@[k].1@ == stamped(
                            packet@,
                            self.subs@[w].packet_counters@[slot as int],
                        )
                    } by {
                        if k < prev_out.len() {
                            assert(out@[k] == prev_out[k]);
                            assert(w1[k] == w0[k]);
                            assert(prev_out[k].0 == w0[k]);
                            assert(w0[k] < i);
                            assert(self.subs@[w0[k]] == prev_subs[w0[k]]);
                        } else {
                            assert(k == prev_out.len());
                            assert(w1[k] == i);
                        }
                    }
                    assert forall|k: int| 0 <= k < i + 1 implies counted(
                        old_subs[k],
                        #[trigger] self.subs@[k],
                        slot,
                    ) by {
                        if k < i {
                            assert(self.subs@[k] == prev_subs[k]);
                            assert(prev_subs[k].key == old_subs[k].key);
                        }
                    }
                }
            } else {
                proof {
                    assert(wanting_indices(old_subs, slot, i + 1) == wanting_indices(
                        old_subs,
                        slot,
                        i as int,
                    ));
                    assert forall|k: int| 0 <= k < i + 1 implies counted(
                        old_subs[k],
                        #[trigger] self.subs@[k],
                        slot,
                    ) by {
                        if k < i {
                            assert(prev_subs[k].key == old_subs[k].key);
                        } else {
                            assert(self.subs@[k] == old_subs[k]);
                        }
                    }
                }
            }
            i = i + 1;
        }
        proof {
            assert forall|a: int, b: int|
                0 <= a < self.subs@.len() && 0 <= b < self.subs@.len() && a != b implies !same_key(
                self.subs@[a].key,
                self.subs@[b].key,
            ) by {
                assert(self.subs@[a].key == old_subs[a].key);
                assert(self.subs@[b].key == old_subs[b].key);
            }
            assert(forall|k: int|
                0 <= k < old_subs.len() ==> counted(old_subs[k], #[trigger] self.subs@[k], slot));
            assert forall|k: int| 0 <= k < out@.len() implies {
                let w = wanting_indices(old_subs, slot, old_subs.len() as int)[k];
                &&& #[trigger] out@[k].0 == w
                &&& out@[k].1@ == stamped(packet@, self.subs@[w].packet_counters@[slot as int])
            } by {
                assert(out@[k].0 == wanting_indices(old_subs, slot, i as int)[k]);
            }
        }
        out
    }

    /// Whether controllers should be kept awake: some client is registered,
    /// or a client showed interest within the client timeout.
    pub fn device_wanted(&self, last_interest_ms: Option<u64>, now_ms: u64) -> (r: bool)
        ensures
            r == (self.subs@.len() > 0 || match last_interest_ms {
                Some(t) => age_ms(now_ms, t) < CLIENT_TIMEOUT_MS,
                None => false,
            }),
    {
        if self.subs.len() > 0 {
            return true;
        }
        match last_interest_ms {
            Some(t) => {
                let age = if now_ms >= t {
                    now_ms - t
                } else {
                    0
                };
                age < CLIENT_TIMEOUT_MS
            },
            None => false,
        }
    }
}

// ---------------------------------------------------------------------------
// Controller events.

/// Which slots have a controller, and how many samples arrived since the
/// last statistics window, in all and per slot.
#[derive(Clone, Copy, Debug)]
pub struct SlotBook {
    pub connected: [bool; 4],
    pub samples_in_window: u32,
    pub samples_per_slot: [u32; 4],
}

/// `v + 1`, stopping at the largest `u32`.
pub open spec fn bumped(v: u32) -> u32 {
    if v < u32::MAX {
        (v + 1) as u32
    } else {
        v
    }
}

/// The book after an event from the controller threads.  A connection
/// marks its slot connected; a sample does too and is counted; a
/// disconnection marks its slot free.  Events for slots past the last one
/// change nothing.
pub open spec fn book_after(b: SlotBook, event: DeviceEvent) -> (Seq<bool>, u32, Seq<u32>) {
    match event {
        DeviceEvent::Connected { slot, .. } => if (slot as int) < MAX_SLOTS {
            (b.connected@.update(slot as int, true), b.samples_in_window, b.samples_per_slot@)
        } else {
            (b.connected@, b.samples_in_window, b.samples_per_slot@)
        },
        DeviceEvent::Sample { slot, .. } => if (slot as int) < MAX_SLOTS {
            (
                b.connected@.update(slot as int, true),
                bumped(b.samples_in_window),
                b.samples_per_slot@.update(slot as int, bumped(b.samples_per_slot@[slot as int])),
            )
        } else {
            (b.connected@, b.samples_in_window, b.samples_per_slot@)
        },
        DeviceEvent::Disconnected { slot } => if (slot as int) < MAX_SLOTS {
            (b.connected@.update(slot as int, false), b.samples_in_window, b.samples_per_slot@)
        } else {
            (b.connected@, b.samples_in_window, b.samples_per_slot@)
        },
    }
}

/// The number of `true` entries among the first `n`.
pub open spec fn count_true(s: Seq<bool>, n: int) -> int
    decreases n,
{
    if n <= 0 {
        0
    } else {
        count_true(s, n - 1) + if s[n - 1] {
            1int
        } else {
            0int
        }
    }
}

impl SlotBook {
    /// No slot connected, nothing counted.
    pub fn new() -> (r: Self)
        ensures
            r.connected@ == seq![false, false, false, false],
            r.samples_in_window == 0,
            r.samples_per_slot@ == seq![0u32, 0u32, 0u32, 0u32],
    {
        let r = SlotBook { connected: [false; 4], samples_in_window: 0, samples_per_slot: [0; 4] };
        assert(r.connected@ =~= seq![false, false, false, false]);
        assert(r.samples_per_slot@ =~= seq![0u32, 0u32, 0u32, 0u32]);
        r
    }

    /// Records an event; returns whether its slot is one of the server's
    /// slots (only then does the server act on it).
    pub fn apply_event(&mut self, event: &DeviceEvent) -> (r: bool)
        ensures
            r == match *event {
                DeviceEvent::Connected { slot, .. } => (slot as int) < MAX_SLOTS,
                DeviceEvent::Sample { slot, .. } => (slot as int) < MAX_SLOTS,
                DeviceEvent::Disconnected { slot } => (slot as int) < MAX_SLOTS,
            },
            final(self).connected@ == book_after(*old(self), *event).0,
            final(self).samples_in_window == book_after(*old(self), *event).1,
            final(self).samples_per_slot@ == book_after(*old(self), *event).2,
    {
        match *event {
            DeviceEvent::Connected { slot, .. } => {
                if (slot as usize) < MAX_SLOTS {
                    self.connected[slot as usize] = true;
                    true
                } else {
                    false
                }
            },
            DeviceEvent::Sample { slot, .. } => {
                if (slot as usize) < MAX_SLOTS {
                    let i = slot as usize;
                    self.connected[i] = true;
                    self.samples_in_window = self.samples_in_window.saturating_add(1);
                    self.samples_per_slot[i] = self.samples_per_slot[i].saturating_add(1);
                    true
                } else {
                    false
                }
            },
            DeviceEvent::Disconnected { slot } => {
                if (slot as usize) < MAX_SLOTS {
                    self.connected[slot as usize] = false;
                    true
                } else {
                    false
                }
            },
        }
    }

    /// Whether `slot` has a controller; slots past the last one never do.
    pub fn slot_connected(&self, slot: u8) -> (r: bool)
        ensures
            r == ((slot as int) < MAX_SLOTS && self.connected@[slot as int]),
    {
        if (slot as usize) < MAX_SLOTS {
            self.connected[slot as usize]
        } else {
            false
        }
    }

    /// How many slots have a controller.
    pub fn connected_count(&self) -> (r: usize)
        ensures
            r == count_true(self.connected@, MAX_SLOTS as int),
    {
        let mut n: usize = 0;
        let mut i: usize = 0;
        while i < MAX_SLOTS
            invariant
                0 <= i <= MAX_SLOTS,
                n == count_true(self.connected@, i as int),
                n <= i,
            decreases MAX_SLOTS - i,
        {
            if self.connected[i] {
                n = n + 1;
            }
            i = i + 1;
        }
        n
    }

    /// Starts a new statistics window: every count back to zero.
    pub fn reset_window(&mut self)
        ensures
            final(self).connected == old(self).connected,
            final(self).samples_in_window == 0,
            final(self).samples_per_slot@ == seq![0u32, 0u32, 0u32, 0u32],
    {
        self.samples_in_window = 0;
        self.samples_per_slot = [0; 4];
        assert(self.samples_per_slot@ =~= seq![0u32, 0u32, 0u32, 0u32]);
    }
}

/// The packets answering a request, in order: the version for a version
/// request; for a port request, one port-information packet per listed
/// slot, telling whether the slot has a controller; none for a data request
/// (it registers the client instead).
pub open spec fn reply_bytes(server_id: u32, request: Request, connected: Seq<bool>) -> Seq<Seq<u8>> {
    match request {
        Request::Version => seq![version_packet_bytes(server_id)],
        Request::Ports { slots } => Seq::new(
            slots@.len(),
            |i: int|
                port_info_bytes(
                    server_id,
                    slots@[i],
                    (slots@[i] as int) < MAX_SLOTS && connected[slots@[i] as int],
                ),
        ),
        Request::Data { .. } => Seq::empty(),
    }
}

/// The packets to send back for `request`, slot states taken from `book`.
pub fn replies(server_id: u32, request: &Request, book: &SlotBook) -> (r: Vec<Vec<u8>>)
    ensures
        r@.len() == reply_bytes(server_id, *request, book.connected@).len(),
        forall|i: int|
            0 <= i < r@.len() ==> (#[trigger] r@[i])@ == reply_bytes(
                server_id,
                *request,
                book.connected@,
            )[i],
{
    let mut out: Vec<Vec<u8>> = Vec::new();
    match request {
        Request::Version => {
            out.push(version_packet(server_id));
        },
        Request::Ports { slots } => {
            let mut i: usize = 0;
            while i < slots.len()
                invariant
                    0 <= i <= slots@.len(),
                    out@.len() == i,
                    *request == (Request::Ports { slots: *slots }),
                    forall|k: int|
                        0 <= k < i ==> (#[trigger] out@[k])@ == reply_bytes(
                            server_id,
                            *request,
                            book.connected@,
                        )[k],
                decreases slots@.len() - i,
            {
                let slot = slots[i];
                out.push(port_info_packet(server_id, slot, book.slot_connected(slot)));
                i = i + 1;
            }
        },
        Request::Data { .. } => {},
    }
    out
}

} // verus!
