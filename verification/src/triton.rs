//! Steam Controller HID protocol: product ids, controller identity, feature
//! report framing, Bluetooth packet reassembly and input report decoding for
//! the 2015 controller and the 2026 (Triton) family.

use crate::bytes::{
    get_i16_le, get_u16_le, get_u32_le, le16, le32, le_i16_at, le_u16_at, le_u32_at, push_u16_le,
    push_u32_le, write_bytes, zeros,
};
use crate::stats::ControllerInfo;
use crate::triton::steam::{
    assembler_step, ble_chunks, ble_decode, full_decode, full_report_body, is_ble_state_report,
    is_full_state_report, update_steam_ble_state, update_steam_full_state, AssemblerError,
    SteamPacketAssembler, SteamRawState,
};
use vstd::prelude::*;

pub mod button;
pub mod steam;

verus! {

pub const VID_VALVE: u16 = 0x28DE;
pub const MAX_CONTROLLERS: usize = 4;
pub const PID_STEAM_CHELL: u16 = 0x1101;
pub const PID_STEAM_WIRED: u16 = 0x1102;
pub const PID_STEAM_BLE: u16 = 0x1105;
pub const PID_STEAM_BLE2: u16 = 0x1106;
pub const PID_STEAM_DONGLE: u16 = 0x1142;
pub const PID_TRITON_WIRED: u16 = 0x1302;
pub const PID_TRITON_BLE: u16 = 0x1303;
pub const PID_PROTEUS_DONGLE: u16 = 0x1304;
pub const PID_NEREID_DONGLE: u16 = 0x1305;

pub const TRITON_REPORT_STATE: u8 = 0x42;
pub const TRITON_REPORT_STATE_BLE: u8 = 0x45;
pub const TRITON_REPORT_BATTERY: u8 = 0x43;
pub const TRITON_REPORT_WIRELESS_X: u8 = 0x46;
pub const TRITON_REPORT_WIRELESS: u8 = 0x79;

/// One IMU sample.  Accelerations (in g) and angular rates (in degrees per
/// second) are carried as IEEE-754 single-precision bit patterns.
#[derive(Clone, Copy, Debug)]
pub struct ImuSample {
    pub timestamp_us: u32,
    pub accel_g_bits: [u32; 3],
    pub gyro_dps_bits: [u32; 3],
}

/// One controller input sample in the controller-independent layout.
#[derive(Clone, Copy, Debug)]
pub struct ControllerState {
    pub buttons: u32,
    pub trigger_left: u16,
    pub trigger_right: u16,
    pub left_stick: [i16; 2],
    pub right_stick: [i16; 2],
    pub imu: ImuSample,
}

/// What the controller threads report to the DSU server.
#[derive(Clone, Copy, Debug)]
pub enum DeviceEvent {
    Connected { slot: u8, controller: ControllerInfo },
    Sample { slot: u8, state: ControllerState },
    Disconnected { slot: u8 },
}

pub open spec fn spec_is_steam_2015_pid(pid: u16) -> bool {
    pid == PID_STEAM_CHELL || pid == PID_STEAM_WIRED || pid == PID_STEAM_BLE || pid
        == PID_STEAM_BLE2 || pid == PID_STEAM_DONGLE
}

pub open spec fn spec_is_triton_pid(pid: u16) -> bool {
    pid == PID_TRITON_WIRED || pid == PID_TRITON_BLE || pid == PID_PROTEUS_DONGLE || pid
        == PID_NEREID_DONGLE
}

pub fn is_steam_2015_pid(pid: u16) -> (r: bool)
    ensures
        r == spec_is_steam_2015_pid(pid),
{
    pid == PID_STEAM_CHELL || pid == PID_STEAM_WIRED || pid == PID_STEAM_BLE || pid
        == PID_STEAM_BLE2 || pid == PID_STEAM_DONGLE
}

pub fn is_triton_pid(pid: u16) -> (r: bool)
    ensures
        r == spec_is_triton_pid(pid),
{
    pid == PID_TRITON_WIRED || pid == PID_TRITON_BLE || pid == PID_PROTEUS_DONGLE || pid
        == PID_NEREID_DONGLE
}

pub fn is_supported_pid(pid: u16) -> (r: bool)
    ensures
        r == (spec_is_steam_2015_pid(pid) || spec_is_triton_pid(pid)),
{
    is_steam_2015_pid(pid) || is_triton_pid(pid)
}

/// Human-readable name of a product id.
pub open spec fn spec_pid_label(pid: u16) -> Seq<char> {
    if pid == PID_STEAM_CHELL {
        "Steam Controller (legacy)"@
    } else if pid == PID_STEAM_WIRED {
        "Steam Controller 2015 wired"@
    } else if pid == PID_STEAM_BLE || pid == PID_STEAM_BLE2 {
        "Steam Controller 2015 Bluetooth"@
    } else if pid == PID_STEAM_DONGLE {
        "Steam Controller 2015 dongle"@
    } else if pid == PID_TRITON_WIRED {
        "Triton wired"@
    } else if pid == PID_TRITON_BLE {
        "Triton BLE"@
    } else if pid == PID_PROTEUS_DONGLE {
        "Proteus Puck"@
    } else if pid == PID_NEREID_DONGLE {
        "Nereid dongle"@
    } else {
        "?"@
    }
}

pub fn pid_label(pid: u16) -> (r: &'static str)
    ensures
        r@ == spec_pid_label(pid),
{
    if pid == PID_STEAM_CHELL {
        "Steam Controller (legacy)"
    } else if pid == PID_STEAM_WIRED {
        "Steam Controller 2015 wired"
    } else if pid == PID_STEAM_BLE || pid == PID_STEAM_BLE2 {
        "Steam Controller 2015 Bluetooth"
    } else if pid == PID_STEAM_DONGLE {
        "Steam Controller 2015 dongle"
    } else if pid == PID_TRITON_WIRED {
        "Triton wired"
    } else if pid == PID_TRITON_BLE {
        "Triton BLE"
    } else if pid == PID_PROTEUS_DONGLE {
        "Proteus Puck"
    } else if pid == PID_NEREID_DONGLE {
        "Nereid dongle"
    } else {
        "?"
    }
}

/// The label is "?" exactly for the products the server does not support.
pub proof fn law_pid_label_unknown_exactly_unsupported(pid: u16)
    ensures
        (spec_pid_label(pid) == "?"@) == !(spec_is_steam_2015_pid(pid) || spec_is_triton_pid(pid)),
{
    reveal_strlit("?");
    reveal_strlit("Steam Controller (legacy)");
    reveal_strlit("Steam Controller 2015 wired");
    reveal_strlit("Steam Controller 2015 Bluetooth");
    reveal_strlit("Steam Controller 2015 dongle");
    reveal_strlit("Triton wired");
    reveal_strlit("Triton BLE");
    reveal_strlit("Proteus Puck");
    reveal_strlit("Nereid dongle");
    assert("?"@.len() == 1);
    if spec_is_steam_2015_pid(pid) || spec_is_triton_pid(pid) {
        assert(spec_pid_label(pid).len() > 1);
    }
}

/// Transport shown for a product id.
pub open spec fn spec_transport(pid: u16) -> Seq<char> {
    if pid == PID_STEAM_BLE || pid == PID_STEAM_BLE2 || pid == PID_TRITON_BLE {
        "Bluetooth"@
    } else if pid == PID_STEAM_DONGLE || pid == PID_PROTEUS_DONGLE || pid == PID_NEREID_DONGLE {
        "Wireless"@
    } else {
        "USB"@
    }
}

/// Identity of an opened controller: its stable id, its family name and
/// its transport.
pub fn controller_info(product_id: u16, id: u64) -> (r: ControllerInfo)
    ensures
        r.id == id,
        r.transport@ == spec_transport(product_id),
        r.name@ == (if spec_is_steam_2015_pid(product_id) {
            "Steam Controller (2015)"@
        } else {
            "Steam Controller (2026)"@
        }),
{
    let transport = if product_id == PID_STEAM_BLE || product_id == PID_STEAM_BLE2 || product_id
        == PID_TRITON_BLE {
        "Bluetooth"
    } else if product_id == PID_STEAM_DONGLE || product_id == PID_PROTEUS_DONGLE || product_id
        == PID_NEREID_DONGLE {
        "Wireless"
    } else {
        "USB"
    };
    let name = if is_steam_2015_pid(product_id) {
        "Steam Controller (2015)"
    } else {
        "Steam Controller (2026)"
    };
    ControllerInfo { id, name, transport }
}

pub const FNV_OFFSET: u64 = 0xcbf2_9ce4_8422_2325;
pub const FNV_PRIME: u64 = 0x0000_0100_0000_01B3;

/// 64-bit FNV-1a over `bytes`, starting from hash state `h`.
pub open spec fn fnv1a(h: u64, bytes: Seq<u8>) -> u64
    decreases bytes.len(),
{
    if bytes.len() == 0 {
        h
    } else {
        fnv1a(
            vstd::wrapping::u64_specs::wrapping_mul(h ^ (bytes[0] as u64), FNV_PRIME),
            bytes.drop_first(),
        )
    }
}

/// The bytes a controller id is hashed from: vendor id, product id and
/// interface number (little endian), then the serial number when the
/// transport exposes one and the HID path otherwise.
pub open spec fn identity_bytes(
    vendor_id: u16,
    product_id: u16,
    interface_number: i32,
    serial: Option<Seq<u8>>,
    path: Seq<u8>,
) -> Seq<u8> {
    le16(vendor_id) + le16(product_id) + le32(interface_number as u32) + match serial {
        Some(s) => s,
        None => path,
    }
}

/// Folds `bytes` into the running FNV-1a state.
fn fnv1a_extend(h: u64, bytes: &[u8]) -> (r: u64)
    ensures
        r == fnv1a(h, bytes@),
{
    let mut state = h;
    let mut i: usize = 0;
    assert(bytes@.skip(0) =~= bytes@);
    while i < bytes.len()
        invariant
            0 <= i <= bytes@.len(),
            fnv1a(state, bytes@.skip(i as int)) == fnv1a(h, bytes@),
        decreases bytes@.len() - i,
    {
        assert(bytes@.skip(i as int).drop_first() =~= bytes@.skip(i + 1));
        state = (state ^ (bytes[i] as u64)).wrapping_mul(FNV_PRIME);
        i = i + 1;
    }
    assert(bytes@.skip(i as int) =~= Seq::<u8>::empty());
    state
}

proof fn lemma_fnv1a_append(h: u64, a: Seq<u8>, b: Seq<u8>)
    ensures
        fnv1a(h, a + b) == fnv1a(fnv1a(h, a), b),
    decreases a.len(),
{
    if a.len() > 0 {
        assert((a + b).drop_first() =~= a.drop_first() + b);
        lemma_fnv1a_append(
            vstd::wrapping::u64_specs::wrapping_mul(h ^ (a[0] as u64), FNV_PRIME),
            a.drop_first(),
            b,
        );
    } else {
        assert(a + b =~= b);
    }
}

/// A controller id that survives reconnection: FNV-1a over the controller's
/// HID identity.  Including the interface number distinguishes the receiver
/// ports of a multi-slot dongle.
pub fn stable_controller_id(
    vendor_id: u16,
    product_id: u16,
    interface_number: i32,
    serial: Option<&[u8]>,
    path: &[u8],
) -> (r: u64)
    ensures
        r == fnv1a(
            FNV_OFFSET,
            identity_bytes(
                vendor_id,
                product_id,
                interface_number,
                match serial {
                    Some(s) => Some(s@),
                    None => None,
                },
                path@,
            ),
        ),
{
    let mut head: Vec<u8> = Vec::new();
    push_u16_le(&mut head, vendor_id);
    push_u16_le(&mut head, product_id);
    push_u32_le(&mut head, interface_number as u32);
    assert(head@ =~= le16(vendor_id) + le16(product_id) + le32(interface_number as u32));
    let h = fnv1a_extend(FNV_OFFSET, head.as_slice());
    let tail = match serial {
        Some(s) => s,
        None => path,
    };
    let r = fnv1a_extend(h, tail);
    proof {
        lemma_fnv1a_append(FNV_OFFSET, head@, tail@);
    }
    r
}

// ---------------------------------------------------------------------------
// Feature reports.

pub const FEATURE_REPORT_ID: u8 = 0x01;
pub const FEATURE_REPORT_BYTES: usize = 64;
pub const INPUT_REPORT_BYTES: usize = 64;
pub const ID_SET_SETTINGS_VALUES: u8 = 0x87;
pub const SETTING_LIZARD_MODE: u8 = 9;
pub const SETTING_IMU_MODE: u8 = 48;
pub const LIZARD_MODE_OFF: u16 = 0;
/// Raw accelerometer (0x0008) and raw gyro (0x0010) samples.
pub const GYRO_MODE_RAW_ACCEL_AND_GYRO: u16 = 0x0018;

pub const STEAM_FEATURE_REPORT_BYTES: usize = 65;
pub const STEAM_BLE_REPORT_ID: u8 = 0x03;
pub const STEAM_BLE_SEGMENT_BYTES: usize = 20;
pub const STEAM_BLE_SEGMENT_PAYLOAD_BYTES: usize = 18;
pub const STEAM_BLE_SEGMENT_DATA: u8 = 0x80;
pub const STEAM_BLE_SEGMENT_LAST: u8 = 0x40;
pub const STEAM_BLE_STATE: u8 = 0x04;

pub const ID_CLEAR_DIGITAL_MAPPINGS: u8 = 0x81;
pub const ID_GET_ATTRIBUTES_VALUES: u8 = 0x83;
pub const ID_SET_DEFAULT_DIGITAL_MAPPINGS: u8 = 0x85;
pub const ID_LOAD_DEFAULT_SETTINGS: u8 = 0x8E;
pub const SETTING_LEFT_TRACKPAD_MODE: u8 = 7;
pub const SETTING_RIGHT_TRACKPAD_MODE: u8 = 8;
pub const SETTING_SMOOTH_ABSOLUTE_MOUSE: u8 = 24;
pub const SETTING_WIRELESS_PACKET_VERSION: u8 = 49;
pub const TRACKPAD_ABSOLUTE_MOUSE: u16 = 0;
pub const TRACKPAD_NONE: u16 = 7;

/// The HID dialect a controller speaks.
#[derive(Clone, Copy, Debug, PartialEq, Eq, Structural)]
pub enum Protocol {
    Triton,
    Steam2015 { bluetooth: bool },
}

pub open spec fn spec_protocol_for_pid(pid: u16) -> Option<Protocol> {
    if spec_is_triton_pid(pid) {
        Some(Protocol::Triton)
    } else if spec_is_steam_2015_pid(pid) {
        Some(Protocol::Steam2015 { bluetooth: pid == PID_STEAM_BLE || pid == PID_STEAM_BLE2 })
    } else {
        None
    }
}

pub fn protocol_for_pid(pid: u16) -> (r: Option<Protocol>)
    ensures
        r == spec_protocol_for_pid(pid),
{
    if is_triton_pid(pid) {
        Some(Protocol::Triton)
    } else if is_steam_2015_pid(pid) {
        Some(Protocol::Steam2015 { bluetooth: pid == PID_STEAM_BLE || pid == PID_STEAM_BLE2 })
    } else {
        None
    }
}

/// A Triton feature report setting one value.
pub open spec fn set_setting_report(setting_num: u8, setting_value: u16) -> Seq<u8> {
    write_bytes(
        zeros(FEATURE_REPORT_BYTES as nat),
        0,
        seq![FEATURE_REPORT_ID, ID_SET_SETTINGS_VALUES, 3u8, setting_num] + le16(setting_value),
    )
}

pub fn build_set_setting_report(setting_num: u8, setting_value: u16) -> (r: [u8; 64])
    ensures
        r@ == set_setting_report(setting_num, setting_value),
{
    let mut buf = [0u8; 64];
    buf[0] = FEATURE_REPORT_ID;
    buf[1] = ID_SET_SETTINGS_VALUES;
    buf[2] = 3;
    buf[3] = setting_num;
    buf[4] = (setting_value % 256) as u8;
    buf[5] = (setting_value / 256) as u8;
    assert(buf@ =~= set_setting_report(setting_num, setting_value));
    buf
}

/// The (number, value) pairs of a settings message, three bytes each.
pub open spec fn settings_bytes(settings: Seq<(u8, u16)>) -> Seq<u8>
    decreases settings.len(),
{
    if settings.len() == 0 {
        Seq::empty()
    } else {
        settings_bytes(settings.drop_last()) + seq![settings.last().0] + le16(settings.last().1)
    }
}

/// A 2015-controller message setting several values.  The length byte is
/// three per setting, truncated to eight bits.
pub open spec fn settings_message(settings: Seq<(u8, u16)>) -> Seq<u8> {
    seq![ID_SET_SETTINGS_VALUES, ((settings.len() * 3) % 256) as u8] + settings_bytes(settings)
}

pub fn steam_settings_message(settings: &[(u8, u16)]) -> (r: Vec<u8>)
    requires
        settings@.len() * 3 <= usize::MAX,
    ensures
        r@ == settings_message(settings@),
{
    let mut message: Vec<u8> = Vec::new();
    message.push(ID_SET_SETTINGS_VALUES);
    message.push(((settings.len() * 3) % 256) as u8);
    let mut i: usize = 0;
    assert(settings@.take(0) =~= Seq::<(u8, u16)>::empty());
    while i < settings.len()
        invariant
            0 <= i <= settings@.len(),
            settings@.len() * 3 <= usize::MAX,
            message@ == seq![ID_SET_SETTINGS_VALUES, ((settings@.len() * 3) % 256) as u8]
                + settings_bytes(settings@.take(i as int)),
        decreases settings@.len() - i,
    {
        let (number, value) = settings[i];
        message.push(number);
        push_u16_le(&mut message, value);
        assert(settings@.take(i + 1).drop_last() =~= settings@.take(i as int));
        assert(message@ =~= seq![ID_SET_SETTINGS_VALUES, ((settings@.len() * 3) % 256) as u8]
            + settings_bytes(settings@.take(i + 1)));
        i = i + 1;
    }
    assert(settings@.take(i as int) =~= settings@);
    message
}

/// The message selecting the 2015 controller's input mode: compact wireless
/// packets, both trackpads unmapped, no absolute-mouse smoothing.
pub open spec fn input_mode_settings() -> Seq<(u8, u16)> {
    seq![
        (SETTING_WIRELESS_PACKET_VERSION, 2u16),
        (SETTING_LEFT_TRACKPAD_MODE, TRACKPAD_NONE),
        (SETTING_RIGHT_TRACKPAD_MODE, TRACKPAD_NONE),
        (SETTING_SMOOTH_ABSOLUTE_MOUSE, 0u16),
    ]
}

pub fn steam_input_mode_message() -> (r: Vec<u8>)
    ensures
        r@ == settings_message(input_mode_settings()),
{
    let settings = [
        (SETTING_WIRELESS_PACKET_VERSION, 2u16),
        (SETTING_LEFT_TRACKPAD_MODE, TRACKPAD_NONE),
        (SETTING_RIGHT_TRACKPAD_MODE, TRACKPAD_NONE),
        (SETTING_SMOOTH_ABSOLUTE_MOUSE, 0u16),
    ];
    assert(settings@ =~= input_mode_settings());
    steam_settings_message(settings.as_slice())
}

/// The message enabling raw accelerometer and gyro samples.
pub fn steam_imu_message() -> (r: Vec<u8>)
    ensures
        r@ == settings_message(seq![(SETTING_IMU_MODE, GYRO_MODE_RAW_ACCEL_AND_GYRO)]),
{
    let settings = [(SETTING_IMU_MODE, GYRO_MODE_RAW_ACCEL_AND_GYRO)];
    assert(settings@ =~= seq![(SETTING_IMU_MODE, GYRO_MODE_RAW_ACCEL_AND_GYRO)]);
    steam_settings_message(settings.as_slice())
}

/// The message giving the right trackpad back its desktop mouse behavior.
pub fn steam_restore_trackpad_message() -> (r: Vec<u8>)
    ensures
        r@ == settings_message(seq![(SETTING_RIGHT_TRACKPAD_MODE, TRACKPAD_ABSOLUTE_MOUSE)]),
{
    let settings = [(SETTING_RIGHT_TRACKPAD_MODE, TRACKPAD_ABSOLUTE_MOUSE)];
    assert(settings@ =~= seq![(SETTING_RIGHT_TRACKPAD_MODE, TRACKPAD_ABSOLUTE_MOUSE)]);
    steam_settings_message(settings.as_slice())
}

/// Number of Bluetooth segments a feature message is split into.
pub open spec fn segment_count(len: int) -> int {
    (len + STEAM_BLE_SEGMENT_PAYLOAD_BYTES - 1) / STEAM_BLE_SEGMENT_PAYLOAD_BYTES as int
}

/// Header byte of Bluetooth segment `n`: the data flag, the segment number,
/// and the last-segment flag on the final segment.
pub open spec fn segment_header(n: int, last: bool) -> u8 {
    (STEAM_BLE_SEGMENT_DATA + n + if last {
        STEAM_BLE_SEGMENT_LAST as int
    } else {
        0
    }) as u8
}

/// Bluetooth segment `n` of a feature message: report id, header (data
/// flag, segment number, and the last-segment flag on the final one), then
/// up to 18 message bytes, zero padded to 20 bytes.
pub open spec fn ble_segment(message: Seq<u8>, n: int) -> Seq<u8> {
    let start = n * STEAM_BLE_SEGMENT_PAYLOAD_BYTES;
    let end = if start + STEAM_BLE_SEGMENT_PAYLOAD_BYTES < message.len() {
        start + STEAM_BLE_SEGMENT_PAYLOAD_BYTES
    } else {
        message.len() as int
    };
    let last = (n + 1) * STEAM_BLE_SEGMENT_PAYLOAD_BYTES >= message.len();
    write_bytes(
        zeros(STEAM_BLE_SEGMENT_BYTES as nat),
        0,
        seq![STEAM_BLE_REPORT_ID, segment_header(n, last)] + message.subrange(start, end),
    )
}

/// The wired feature report carrying a message: report id 0, then the
/// message, zero padded to 65 bytes.
pub open spec fn wired_feature_report(message: Seq<u8>) -> Seq<u8> {
    write_bytes(zeros(STEAM_FEATURE_REPORT_BYTES as nat), 1, message)
}

/// The feature reports that carry `message` to a 2015 controller: one per
/// Bluetooth segment, or a single wired report.  `None` for an empty
/// message or one longer than a report holds.
pub fn steam_feature_frames(bluetooth: bool, message: &[u8]) -> (r: Option<Vec<Vec<u8>>>)
    ensures
        (message@.len() == 0 || message@.len() > STEAM_FEATURE_REPORT_BYTES - 1) ==> r is None,
        (message@.len() > 0 && message@.len() <= STEAM_FEATURE_REPORT_BYTES - 1) ==> r is Some,
        r matches Some(frames) ==> if bluetooth {
            &&& frames@.len() == segment_count(message@.len() as int)
            &&& forall|n: int|
                0 <= n < frames@.len() ==> (#[trigger] frames@[n])@ == ble_segment(message@, n)
        } else {
            &&& frames@.len() == 1
            &&& frames@[0]@ == wired_feature_report(message@)
        },
{
    let len = message.len();
    if len == 0 || len > STEAM_FEATURE_REPORT_BYTES - 1 {
        return None;
    }
    let mut frames: Vec<Vec<u8>> = Vec::new();
    if bluetooth {
        let mut n: usize = 0;
        while n * STEAM_BLE_SEGMENT_PAYLOAD_BYTES < len
            invariant
                0 < len <= 64,
                len == message@.len(),
                n <= 4,
                n * STEAM_BLE_SEGMENT_PAYLOAD_BYTES <= len + 17,
                n == 0 || (n - 1) * STEAM_BLE_SEGMENT_PAYLOAD_BYTES < len,
                frames@.len() == n,
                forall|k: int| 0 <= k < n ==> (#[trigger] frames@[k])@ == ble_segment(message@, k),
            decreases 4 - n,
        {
            assert(n < 4) by (nonlinear_arith)
                requires
                    n * 18 < len,
                    len <= 64,
            ;
            let start = n * STEAM_BLE_SEGMENT_PAYLOAD_BYTES;
            let end = if start + STEAM_BLE_SEGMENT_PAYLOAD_BYTES < len {
                start + STEAM_BLE_SEGMENT_PAYLOAD_BYTES
            } else {
                len
            };
            let last = (n + 1) * STEAM_BLE_SEGMENT_PAYLOAD_BYTES >= len;
            let mut segment = crate::bytes::zeroed(STEAM_BLE_SEGMENT_BYTES);
            segment.set(0, STEAM_BLE_REPORT_ID);
            let header: u8 = STEAM_BLE_SEGMENT_DATA + n as u8 + if last {
                STEAM_BLE_SEGMENT_LAST
            } else {
                0
            };
            segment.set(1, header);
            let chunk = vstd::slice::slice_subrange(message, start, end);
            crate::bytes::put_bytes(&mut segment, 2, chunk);
            assert(segment@ =~= ble_segment(message@, n as int));
            frames.push(segment);
            n = n + 1;
        }
        assert(n == segment_count(len as int));
    } else {
        let mut report = crate::bytes::zeroed(STEAM_FEATURE_REPORT_BYTES);
        crate::bytes::put_bytes(&mut report, 1, message);
        frames.push(report);
    }
    Some(frames)
}

// ---------------------------------------------------------------------------
// Device selection.

/// What enumeration reports of one HID interface.
#[derive(Clone, Copy, Debug, PartialEq, Eq, Structural)]
pub struct CandidateInfo {
    pub vendor_id: u16,
    pub product_id: u16,
    pub usage_page: u16,
    pub interface_number: i32,
}

/// Whether an interface is a controller's vendor-defined input interface:
/// a Valve device of a supported product, in the vendor usage pages, and
/// for receivers and wired controllers only the interfaces that carry
/// controller reports.
pub open spec fn spec_is_candidate(info: CandidateInfo) -> bool {
    let pid = info.product_id;
    let iface = info.interface_number;
    &&& info.vendor_id == VID_VALVE
    &&& (spec_is_steam_2015_pid(pid) || spec_is_triton_pid(pid))
    &&& info.usage_page >= 0xFF00
    &&& if pid == PID_STEAM_BLE || pid == PID_STEAM_BLE2 {
        true
    } else if pid == PID_STEAM_DONGLE {
        1 <= iface <= 4
    } else if pid == PID_STEAM_CHELL || pid == PID_STEAM_WIRED {
        iface == 2
    } else if pid == PID_PROTEUS_DONGLE || pid == PID_NEREID_DONGLE {
        2 <= iface <= 5
    } else {
        pid == PID_TRITON_WIRED || pid == PID_TRITON_BLE
    }
}

pub fn is_candidate(info: &CandidateInfo) -> (r: bool)
    ensures
        r == spec_is_candidate(*info),
{
    if info.vendor_id != VID_VALVE || !is_supported_pid(info.product_id) || info.usage_page
        < 0xFF00 {
        return false;
    }
    let pid = info.product_id;
    let iface = info.interface_number;
    if pid == PID_STEAM_BLE || pid == PID_STEAM_BLE2 {
        true
    } else if pid == PID_STEAM_DONGLE {
        1 <= iface && iface <= 4
    } else if pid == PID_STEAM_CHELL || pid == PID_STEAM_WIRED {
        iface == 2
    } else if pid == PID_PROTEUS_DONGLE || pid == PID_NEREID_DONGLE {
        2 <= iface && iface <= 5
    } else {
        pid == PID_TRITON_WIRED || pid == PID_TRITON_BLE
    }
}

/// Preference among candidates, lowest first: directly connected
/// controllers before receivers, so that an idle receiver cannot starve an
/// active Bluetooth controller.
pub open spec fn candidate_rank(pid: u16) -> int {
    if pid == PID_STEAM_BLE || pid == PID_STEAM_BLE2 {
        0
    } else if pid == PID_STEAM_CHELL || pid == PID_STEAM_WIRED {
        1
    } else if pid == PID_STEAM_DONGLE {
        2
    } else if pid == PID_TRITON_WIRED || pid == PID_TRITON_BLE {
        3
    } else if pid == PID_PROTEUS_DONGLE || pid == PID_NEREID_DONGLE {
        4
    } else {
        5
    }
}

fn rank_of(pid: u16) -> (r: u8)
    ensures
        r == candidate_rank(pid),
{
    if pid == PID_STEAM_BLE || pid == PID_STEAM_BLE2 {
        0
    } else if pid == PID_STEAM_CHELL || pid == PID_STEAM_WIRED {
        1
    } else if pid == PID_STEAM_DONGLE {
        2
    } else if pid == PID_TRITON_WIRED || pid == PID_TRITON_BLE {
        3
    } else if pid == PID_PROTEUS_DONGLE || pid == PID_NEREID_DONGLE {
        4
    } else {
        5
    }
}

/// Indices below `n` of the candidates of rank `rank`, in enumeration order.
pub open spec fn ranked_indices(devices: Seq<CandidateInfo>, rank: int, n: int) -> Seq<usize>
    decreases n,
{
    if n <= 0 {
        Seq::empty()
    } else if spec_is_candidate(devices[n - 1]) && candidate_rank(devices[n - 1].product_id)
        == rank {
        ranked_indices(devices, rank, n - 1).push((n - 1) as usize)
    } else {
        ranked_indices(devices, rank, n - 1)
    }
}

/// The candidates of rank below `rank`, rank by rank, each rank in
/// enumeration order.
pub open spec fn candidates_below_rank(devices: Seq<CandidateInfo>, rank: int) -> Seq<usize>
    decreases rank,
{
    if rank <= 0 {
        Seq::empty()
    } else {
        candidates_below_rank(devices, rank - 1) + ranked_indices(
            devices,
            rank - 1,
            devices.len() as int,
        )
    }
}

/// The order in which to try the enumerated interfaces: the candidates
/// only, stably sorted by rank.
pub open spec fn candidate_order(devices: Seq<CandidateInfo>) -> Seq<usize> {
    candidates_below_rank(devices, 6)
}

/// Which interfaces are opened, product by product: only Valve devices in
/// the vendor usage pages; any interface of a Bluetooth 2015 controller or
/// of a 2026 controller (wired or Bluetooth); interfaces 1 to 4 of the 2015
/// receiver; interface 2 of a wired 2015 controller; interfaces 2 to 5 of
/// the 2026 receivers; nothing else.
pub proof fn law_candidate_rules(info: CandidateInfo)
    ensures
        info.vendor_id != VID_VALVE || info.usage_page < 0xFF00 ==> !spec_is_candidate(info),
        info.vendor_id == VID_VALVE && info.usage_page >= 0xFF00 ==> spec_is_candidate(info) == (
        info.product_id == PID_STEAM_BLE || info.product_id == PID_STEAM_BLE2 || info.product_id
            == PID_TRITON_WIRED || info.product_id == PID_TRITON_BLE || (info.product_id
            == PID_STEAM_DONGLE && 1 <= info.interface_number <= 4) || ((info.product_id
            == PID_STEAM_CHELL || info.product_id == PID_STEAM_WIRED) && info.interface_number == 2)
            || ((info.product_id == PID_PROTEUS_DONGLE || info.product_id == PID_NEREID_DONGLE) && 2
            <= info.interface_number <= 5)),
{
}

proof fn lemma_ranked_indices(devices: Seq<CandidateInfo>, rank: int, n: int)
    requires
        0 <= n <= devices.len(),
        devices.len() <= usize::MAX,
    ensures
        forall|k: int|
            0 <= k < ranked_indices(devices, rank, n).len() ==> {
                let x = #[trigger] ranked_indices(devices, rank, n)[k];
                &&& x < n
                &&& spec_is_candidate(devices[x as int])
                &&& candidate_rank(devices[x as int].product_id) == rank
            },
        forall|i: int|
            0 <= i < n && spec_is_candidate(devices[i]) && candidate_rank(devices[i].product_id)
                == rank ==> #[trigger] ranked_indices(devices, rank, n).contains(i as usize),
        forall|a: int, b: int|
            0 <= a < b < ranked_indices(devices, rank, n).len() ==> #[trigger] ranked_indices(
                devices,
                rank,
                n,
            )[a] < #[trigger] ranked_indices(devices, rank, n)[b],
    decreases n,
{
    if n > 0 {
        lemma_ranked_indices(devices, rank, n - 1);
        let prev = ranked_indices(devices, rank, n - 1);
        if spec_is_candidate(devices[n - 1]) && candidate_rank(devices[n - 1].product_id) == rank {
            let cur = prev.push((n - 1) as usize);
            assert(cur[prev.len() as int] == (n - 1) as usize);
            assert forall|i: int|
                0 <= i < n && spec_is_candidate(devices[i]) && candidate_rank(
                    devices[i].product_id,
                ) == rank implies #[trigger] cur.contains(i as usize) by {
                if i < n - 1 {
                    assert(prev.contains(i as usize));
                    let k = choose|k: int| 0 <= k < prev.len() && prev[k] == i as usize;
                    assert(cur[k] == i as usize);
                }
            }
        }
    }
}

proof fn lemma_candidates_below_rank(devices: Seq<CandidateInfo>, rank: int)
    requires
        0 <= rank <= 6,
        devices.len() <= usize::MAX,
    ensures
        forall|k: int|
            0 <= k < candidates_below_rank(devices, rank).len() ==> {
                let x = #[trigger] candidates_below_rank(devices, rank)[k];
                &&& x < devices.len()
                &&& spec_is_candidate(devices[x as int])
                &&& candidate_rank(devices[x as int].product_id) < rank
            },
        forall|i: int|
            0 <= i < devices.len() && spec_is_candidate(devices[i]) && candidate_rank(
                devices[i].product_id,
            ) < rank ==> #[trigger] candidates_below_rank(devices, rank).contains(i as usize),
        forall|a: int, b: int|
            0 <= a < b < candidates_below_rank(devices, rank).len() ==> candidate_rank(
                devices[#[trigger] candidates_below_rank(devices, rank)[a] as int].product_id,
            ) <= candidate_rank(
                devices[#[trigger] candidates_below_rank(devices, rank)[b] as int].product_id,
            ),
    decreases rank,
{
    if rank > 0 {
        let n = devices.len() as int;
        lemma_candidates_below_rank(devices, rank - 1);
        lemma_ranked_indices(devices, rank - 1, n);
        let lo = candidates_below_rank(devices, rank - 1);
        let hi = ranked_indices(devices, rank - 1, n);
        let all = lo + hi;
        assert(candidates_below_rank(devices, rank) == all);
        assert forall|k: int| 0 <= k < all.len() implies {
            let x = #[trigger] all[k];
            &&& x < devices.len()
            &&& spec_is_candidate(devices[x as int])
            &&& candidate_rank(devices[x as int].product_id) < rank
        } by {
            if k < lo.len() {
                assert(all[k] == lo[k]);
            } else {
                assert(all[k] == hi[k - lo.len()]);
            }
        }
        assert forall|i: int|
            0 <= i < devices.len() && spec_is_candidate(devices[i]) && candidate_rank(
                devices[i].product_id,
            ) < rank implies #[trigger] all.contains(i as usize) by {
            if candidate_rank(devices[i].product_id) < rank - 1 {
                assert(lo.contains(i as usize));
                let k = choose|k: int| 0 <= k < lo.len() && lo[k] == i as usize;
                assert(all[k] == i as usize);
            } else {
                assert(hi.contains(i as usize));
                let k = choose|k: int| 0 <= k < hi.len() && hi[k] == i as usize;
                assert(all[lo.len() + k] == i as usize);
            }
        }
        assert forall|a: int, b: int| 0 <= a < b < all.len() implies candidate_rank(
            devices[#[trigger] all[a] as int].product_id,
        ) <= candidate_rank(devices[#[trigger] all[b] as int].product_id) by {
            if b < lo.len() {
                assert(all[a] == lo[a] && all[b] == lo[b]);
            } else if a < lo.len() {
                assert(all[a] == lo[a]);
                assert(all[b] == hi[b - lo.len()]);
            } else {
                assert(all[a] == hi[a - lo.len()]);
                assert(all[b] == hi[b - lo.len()]);
            }
        }
    }
}

/// The order of interfaces to try: every candidate interface appears, no
/// other does, none twice, and directly connected controllers come before
/// receivers (candidates in non-decreasing rank, enumeration order within
/// a rank).
pub proof fn law_candidate_order(devices: Seq<CandidateInfo>)
    requires
        devices.len() <= usize::MAX,
    ensures
        forall|i: int|
            0 <= i < devices.len() ==> (#[trigger] candidate_order(devices).contains(i as usize)
                <==> spec_is_candidate(devices[i])),
        forall|k: int|
            0 <= k < candidate_order(devices).len() ==> (#[trigger] candidate_order(devices)[k])
                < devices.len(),
        forall|a: int, b: int|
            0 <= a < b < candidate_order(devices).len() ==> candidate_order(devices)[a]
                != candidate_order(devices)[b],
        forall|a: int, b: int|
            0 <= a < b < candidate_order(devices).len() ==> candidate_rank(
                devices[#[trigger] candidate_order(devices)[a] as int].product_id,
            ) <= candidate_rank(devices[#[trigger] candidate_order(devices)[b] as int].product_id),
        forall|a: int, b: int|
            0 <= a < b < candidate_order(devices).len() && candidate_rank(
                devices[candidate_order(devices)[a] as int].product_id,
            ) == candidate_rank(devices[candidate_order(devices)[b] as int].product_id)
                ==> #[trigger] candidate_order(devices)[a] < #[trigger] candidate_order(devices)[b],
{
    lemma_candidates_below_rank(devices, 6);
    let order = candidate_order(devices);
    assert forall|i: int| 0 <= i < devices.len() implies (#[trigger] order.contains(i as usize)
        <==> spec_is_candidate(devices[i])) by {
        if order.contains(i as usize) {
            let k = choose|k: int| 0 <= k < order.len() && order[k] == i as usize;
            assert(order[k] == i as usize);
        }
    }
    lemma_order_within_ranks(devices);
}

/// Within one rank, the candidates keep their enumeration order, and no
/// index appears twice.
proof fn lemma_order_within_ranks(devices: Seq<CandidateInfo>)
    requires
        devices.len() <= usize::MAX,
    ensures
        forall|a: int, b: int|
            0 <= a < b < candidate_order(devices).len() ==> candidate_order(devices)[a]
                != candidate_order(devices)[b],
        forall|a: int, b: int|
            0 <= a < b < candidate_order(devices).len() && candidate_rank(
                devices[candidate_order(devices)[a] as int].product_id,
            ) == candidate_rank(devices[candidate_order(devices)[b] as int].product_id)
                ==> #[trigger] candidate_order(devices)[a] < #[trigger] candidate_order(devices)[b],
{
    lemma_blocks(devices, 6);
}

proof fn lemma_blocks(devices: Seq<CandidateInfo>, rank: int)
    requires
        0 <= rank <= 6,
        devices.len() <= usize::MAX,
    ensures
        forall|a: int, b: int|
            0 <= a < b < candidates_below_rank(devices, rank).len() ==> candidates_below_rank(
                devices,
                rank,
            )[a] != candidates_below_rank(devices, rank)[b],
        forall|a: int, b: int|
            0 <= a < b < candidates_below_rank(devices, rank).len() && candidate_rank(
                devices[candidates_below_rank(devices, rank)[a] as int].product_id,
            ) == candidate_rank(devices[candidates_below_rank(devices, rank)[b] as int].product_id)
                ==> #[trigger] candidates_below_rank(devices, rank)[a]
                < #[trigger] candidates_below_rank(devices, rank)[b],
    decreases rank,
{
    if rank > 0 {
        let n = devices.len() as int;
        lemma_blocks(devices, rank - 1);
        lemma_candidates_below_rank(devices, rank - 1);
        lemma_ranked_indices(devices, rank - 1, n);
        let lo = candidates_below_rank(devices, rank - 1);
        let hi = ranked_indices(devices, rank - 1, n);
        let all = lo + hi;
        assert(candidates_below_rank(devices, rank) == all);
        assert forall|a: int, b: int| 0 <= a < b < all.len() implies all[a] != all[b] && (
        candidate_rank(devices[all[a] as int].product_id) == candidate_rank(
            devices[all[b] as int].product_id,
        ) ==> all[a] < all[b]) by {
            if b < lo.len() {
                assert(all[a] == lo[a] && all[b] == lo[b]);
            } else if a < lo.len() {
                assert(all[a] == lo[a]);
                assert(all[b] == hi[b - lo.len()]);
                assert(lo[a] == lo[a]);
            } else {
                assert(all[a] == hi[a - lo.len()]);
                assert(all[b] == hi[b - lo.len()]);
            }
        }
    }
}

/// Indices into `devices` of the interfaces worth opening, best first.
pub fn list_candidates(devices: &[CandidateInfo]) -> (r: Vec<usize>)
    ensures
        r@ == candidate_order(devices@),
{
    let mut order: Vec<usize> = Vec::new();
    let mut rank: u8 = 0;
    while rank < 6
        invariant
            0 <= rank <= 6,
            order@ == candidates_below_rank(devices@, rank as int),
        decreases 6 - rank,
    {
        let mut i: usize = 0;
        while i < devices.len()
            invariant
                0 <= i <= devices@.len(),
                rank < 6,
                order@ == candidates_below_rank(devices@, rank as int) + ranked_indices(
                    devices@,
                    rank as int,
                    i as int,
                ),
            decreases devices@.len() - i,
        {
            if is_candidate(&devices[i]) && rank_of(devices[i].product_id) == rank {
                order.push(i);
            }
            i = i + 1;
        }
        rank = rank + 1;
    }
    order
}

// ---------------------------------------------------------------------------
// Triton input reports.

/// Offset of the IMU block within a Triton state report's payload, and its
/// length without the orientation quaternion.
pub const TRITON_IMU_OFFSET: usize = 29;
pub const TRITON_IMU_LEN: usize = 16;

/// Raw IMU readings of a Triton report: timestamp in microseconds, then
/// accelerometer and gyro in sensor units (full scale 2 g and 2000 degrees
/// per second at 32768).
#[derive(Clone, Copy, Debug)]
pub struct RawImu {
    pub timestamp_us: u32,
    pub accel: [i16; 3],
    pub gyro: [i16; 3],
}

/// Raw contents of a Triton state report.
#[derive(Clone, Copy, Debug)]
pub struct RawState {
    pub buttons: u32,
    pub trigger_left: u16,
    pub trigger_right: u16,
    pub left_stick: [i16; 2],
    pub right_stick: [i16; 2],
    pub imu: RawImu,
}

/// A payload long enough to hold the IMU block.
pub open spec fn holds_imu(payload: Seq<u8>) -> bool {
    payload.len() >= TRITON_IMU_OFFSET + TRITON_IMU_LEN
}

/// The IMU block of a payload: a `u32` timestamp at 29, then three
/// accelerometer and three gyro `i16`, all little endian.
pub open spec fn imu_matches(imu: RawImu, p: Seq<u8>) -> bool {
    &&& imu.timestamp_us == le_u32_at(p, 29)
    &&& imu.accel@ == seq![le_i16_at(p, 33), le_i16_at(p, 35), le_i16_at(p, 37)]
    &&& imu.gyro@ == seq![le_i16_at(p, 39), le_i16_at(p, 41), le_i16_at(p, 43)]
}

/// The controls of a payload: buttons (`u32` at 1), triggers (`u16` at 5
/// and 7), left stick (`i16` at 9 and 11), right stick (13 and 15).
pub open spec fn controls_match(s: RawState, p: Seq<u8>) -> bool {
    &&& s.buttons == le_u32_at(p, 1)
    &&& s.trigger_left == le_u16_at(p, 5)
    &&& s.trigger_right == le_u16_at(p, 7)
    &&& s.left_stick@ == seq![le_i16_at(p, 9), le_i16_at(p, 11)]
    &&& s.right_stick@ == seq![le_i16_at(p, 13), le_i16_at(p, 15)]
}

/// The IMU readings of a Triton state report's payload (the report id
/// removed); `None` when it is too short to hold them.
pub fn parse_imu_raw(payload: &[u8]) -> (r: Option<RawImu>)
    ensures
        !holds_imu(payload@) ==> r is None,
        holds_imu(payload@) ==> (r matches Some(imu) && imu_matches(imu, payload@)),
{
    if payload.len() < TRITON_IMU_OFFSET + TRITON_IMU_LEN {
        return None;
    }
    let imu = RawImu {
        timestamp_us: get_u32_le(payload, 29),
        accel: [get_i16_le(payload, 33), get_i16_le(payload, 35), get_i16_le(payload, 37)],
        gyro: [get_i16_le(payload, 39), get_i16_le(payload, 41), get_i16_le(payload, 43)],
    };
    assert(imu.accel@ =~= seq![le_i16_at(payload@, 33), le_i16_at(payload@, 35), le_i16_at(payload@, 37)]);
    assert(imu.gyro@ =~= seq![le_i16_at(payload@, 39), le_i16_at(payload@, 41), le_i16_at(payload@, 43)]);
    Some(imu)
}

/// The controls and IMU readings of a Triton state report's payload;
/// `None` when it is too short to hold the IMU readings.
pub fn parse_state_raw(payload: &[u8]) -> (r: Option<RawState>)
    ensures
        !holds_imu(payload@) ==> r is None,
        holds_imu(payload@) ==> (r matches Some(s) && controls_match(s, payload@) && imu_matches(
            s.imu,
            payload@,
        )),
{
    let imu = match parse_imu_raw(payload) {
        Some(imu) => imu,
        None => return None,
    };
    let s = RawState {
        buttons: get_u32_le(payload, 1),
        trigger_left: get_u16_le(payload, 5),
        trigger_right: get_u16_le(payload, 7),
        left_stick: [get_i16_le(payload, 9), get_i16_le(payload, 11)],
        right_stick: [get_i16_le(payload, 13), get_i16_le(payload, 15)],
        imu,
    };
    assert(s.left_stick@ =~= seq![le_i16_at(payload@, 9), le_i16_at(payload@, 11)]);
    assert(s.right_stick@ =~= seq![le_i16_at(payload@, 13), le_i16_at(payload@, 15)]);
    Some(s)
}

// ---------------------------------------------------------------------------
// Input report decoding.

/// Longest gap between IMU samples, in microseconds, that counts as one
/// integration step; a longer gap means the stream was lost.
pub const MAX_IMU_STEP_US: u32 = 100_000;

/// What an input report decoded to.
#[derive(Clone, Copy, Debug)]
pub enum DecodedReport {
    Triton(RawState),
    Steam(SteamRawState),
}

/// Decoding state of one open controller: its protocol, and for the 2015
/// controller the Bluetooth reassembly buffer and the accumulated state.
#[derive(Clone, Copy, Debug)]
pub struct InputDecoder {
    pub protocol: Protocol,
    pub assembler: SteamPacketAssembler,
    pub steam_state: SteamRawState,
}

/// A full state report applied to `s`, when `d` is one.
pub open spec fn full_update(d: Seq<u8>, s: SteamRawState) -> (SteamRawState, bool) {
    if is_full_state_report(full_report_body(d)) {
        full_decode(full_report_body(d), s)
    } else {
        (s, false)
    }
}

/// A reassembled Bluetooth packet applied to `s`: as a compact state
/// report, and failing that as a full one (on top of whatever the compact
/// decoding applied before it ran short).
pub open spec fn packet_update(packet: Seq<u8>, s: SteamRawState) -> (SteamRawState, bool) {
    if is_ble_state_report(packet) {
        let compact = ble_decode(packet, ble_chunks(packet), 0, 2, s);
        if compact.1 {
            compact
        } else {
            full_update(packet, compact.0)
        }
    } else {
        full_update(packet, s)
    }
}

/// A Triton state report: a state report id, then a payload long enough
/// for the IMU block.
pub open spec fn is_triton_state_report(report: Seq<u8>) -> bool {
    &&& report.len() >= 1
    &&& (report[0] == TRITON_REPORT_STATE || report[0] == TRITON_REPORT_STATE_BLE)
    &&& holds_imu(report.drop_first())
}

impl InputDecoder {
    pub fn new(protocol: Protocol) -> (r: Self)
        ensures
            r.protocol == protocol,
            r.assembler.buffer@ == zeros(steam::STEAM_BLE_PACKET_BYTES as nat),
            r.assembler.expected_segment == 0,
            r.steam_state == steam::zero_raw_state(),
    {
        InputDecoder {
            protocol,
            assembler: SteamPacketAssembler::default(),
            steam_state: SteamRawState::default(),
        }
    }

    /// Decodes one input report.  A Triton report gives its state when it
    /// is a state report.  A 2015 controller's Bluetooth segment goes to the
    /// reassembly buffer, and a completed packet updates the accumulated
    /// state; a wired report updates it directly.  `Ok(None)` for a report
    /// that carries no state.
    pub fn decode(&mut self, report: &[u8]) -> (r: Result<Option<DecodedReport>, AssemblerError>)
        ensures
            final(self).protocol == old(self).protocol,
            old(self).protocol == Protocol::Triton ==> {
                &&& final(self).assembler == old(self).assembler
                &&& final(self).steam_state == old(self).steam_state
                &&& !is_triton_state_report(report@) ==> r == Ok::<
                    Option<DecodedReport>,
                    AssemblerError,
                >(None)
                &&& is_triton_state_report(report@) ==> (r matches Ok(Some(DecodedReport::Triton(s)))
                    && controls_match(s, report@.drop_first()) && imu_matches(
                    s.imu,
                    report@.drop_first(),
                ))
            },
            old(self).protocol == (Protocol::Steam2015 { bluetooth: true }) ==> ({
                let step = assembler_step(
                    old(self).assembler.buffer@,
                    old(self).assembler.expected_segment,
                    report@,
                );
                &&& final(self).assembler.buffer@ == step.0
                &&& final(self).assembler.expected_segment == step.1
                &&& match step.2 {
                    Err(e) => r == Err::<Option<DecodedReport>, AssemblerError>(e)
                        && final(self).steam_state == old(self).steam_state,
                    Ok(None) => r == Ok::<Option<DecodedReport>, AssemblerError>(None)
                        && final(self).steam_state == old(self).steam_state,
                    Ok(Some(len)) => {
                        let u = packet_update(step.0.subrange(0, len as int), old(self).steam_state);
                        &&& final(self).steam_state == u.0
                        &&& u.1 ==> r == Ok::<Option<DecodedReport>, AssemblerError>(
                            Some(DecodedReport::Steam(u.0)),
                        )
                        &&& !u.1 ==> r == Ok::<Option<DecodedReport>, AssemblerError>(None)
                    },
                }
            }),
            old(self).protocol == (Protocol::Steam2015 { bluetooth: false }) ==> ({
                let u = full_update(report@, old(self).steam_state);
                &&& final(self).assembler == old(self).assembler
                &&& final(self).steam_state == u.0
                &&& u.1 ==> r == Ok::<Option<DecodedReport>, AssemblerError>(
                    Some(DecodedReport::Steam(u.0)),
                )
                &&& !u.1 ==> r == Ok::<Option<DecodedReport>, AssemblerError>(None)
            }),
    {
        match self.protocol {
            Protocol::Triton => {
                if report.len() == 0 {
                    return Ok(None);
                }
                let id = report[0];
                if id != TRITON_REPORT_STATE && id != TRITON_REPORT_STATE_BLE {
                    return Ok(None);
                }
                let payload = vstd::slice::slice_subrange(report, 1, report.len());
                assert(payload@ =~= report@.drop_first());
                match parse_state_raw(payload) {
                    Some(state) => Ok(Some(DecodedReport::Triton(state))),
                    None => Ok(None),
                }
            },
            Protocol::Steam2015 { bluetooth } => {
                if bluetooth {
                    let packet_len = match self.assembler.push(report) {
                        Err(e) => {
                            return Err(e);
                        },
                        Ok(None) => {
                            return Ok(None);
                        },
                        Ok(Some(len)) => len,
                    };
                    proof {
                        steam::lemma_packet_fits(
                            old(self).assembler.buffer@,
                            old(self).assembler.expected_segment,
                            report@,
                        );
                    }
                    let packet = vstd::slice::slice_subrange(
                        self.assembler.buffer.as_slice(),
                        0,
                        packet_len,
                    );
                    if update_steam_ble_state(packet, &mut self.steam_state).is_none()
                        && update_steam_full_state(packet, &mut self.steam_state).is_none() {
                        return Ok(None);
                    }
                    Ok(Some(DecodedReport::Steam(self.steam_state)))
                } else {
                    if update_steam_full_state(report, &mut self.steam_state).is_none() {
                        return Ok(None);
                    }
                    Ok(Some(DecodedReport::Steam(self.steam_state)))
                }
            },
        }
    }
}

/// Microseconds between two IMU timestamps (the counter wraps), at most
/// `MAX_IMU_STEP_US`; zero for the first sample.
pub open spec fn imu_step(prev: Option<u32>, timestamp_us: u32) -> u32 {
    match prev {
        Some(p) => {
            let delta = if timestamp_us >= p {
                timestamp_us - p
            } else {
                timestamp_us + 0x1_0000_0000 - p
            };
            if delta < MAX_IMU_STEP_US {
                delta as u32
            } else {
                MAX_IMU_STEP_US
            }
        },
        None => 0,
    }
}

pub fn imu_step_us(prev: Option<u32>, timestamp_us: u32) -> (r: u32)
    ensures
        r == imu_step(prev, timestamp_us),
        r <= MAX_IMU_STEP_US,
{
    match prev {
        Some(p) => {
            let delta = timestamp_us.wrapping_sub(p);
            if delta < MAX_IMU_STEP_US {
                delta
            } else {
                MAX_IMU_STEP_US
            }
        },
        None => 0,
    }
}

// ---------------------------------------------------------------------------
// 2015 controller setup and teardown.

/// The messages that follow the attribute query when a 2015 controller is
/// opened: drop the firmware's keyboard and mouse mappings, restore the
/// default settings, select the input mode, enable raw motion samples.
pub open spec fn steam_setup_sequence() -> Seq<Seq<u8>> {
    seq![
        seq![ID_CLEAR_DIGITAL_MAPPINGS],
        seq![ID_LOAD_DEFAULT_SETTINGS, 0u8],
        settings_message(input_mode_settings()),
        settings_message(seq![(SETTING_IMU_MODE, GYRO_MODE_RAW_ACCEL_AND_GYRO)]),
    ]
}

/// The messages that give a 2015 controller back its desktop behavior when
/// it is closed: default mappings, default settings, right trackpad as a
/// mouse.
pub open spec fn steam_restore_sequence() -> Seq<Seq<u8>> {
    seq![
        seq![ID_SET_DEFAULT_DIGITAL_MAPPINGS],
        seq![ID_LOAD_DEFAULT_SETTINGS, 0u8],
        settings_message(seq![(SETTING_RIGHT_TRACKPAD_MODE, TRACKPAD_ABSOLUTE_MOUSE)]),
    ]
}

/// The attribute query that opens the setup of a 2015 controller.
pub fn steam_attributes_query() -> (r: Vec<u8>)
    ensures
        r@ == seq![ID_GET_ATTRIBUTES_VALUES],
{
    let mut m: Vec<u8> = Vec::new();
    m.push(ID_GET_ATTRIBUTES_VALUES);
    assert(m@ =~= seq![ID_GET_ATTRIBUTES_VALUES]);
    m
}

pub fn steam_setup_messages() -> (r: Vec<Vec<u8>>)
    ensures
        r@.len() == 4,
        forall|i: int| 0 <= i < 4 ==> (#[trigger] r@[i])@ == steam_setup_sequence()[i],
{
    let mut clear: Vec<u8> = Vec::new();
    clear.push(ID_CLEAR_DIGITAL_MAPPINGS);
    let mut defaults: Vec<u8> = Vec::new();
    defaults.push(ID_LOAD_DEFAULT_SETTINGS);
    defaults.push(0);
    let mode = steam_input_mode_message();
    let imu = steam_imu_message();
    assert(clear@ =~= seq![ID_CLEAR_DIGITAL_MAPPINGS]);
    assert(defaults@ =~= seq![ID_LOAD_DEFAULT_SETTINGS, 0u8]);
    let mut r: Vec<Vec<u8>> = Vec::new();
    r.push(clear);
    r.push(defaults);
    r.push(mode);
    r.push(imu);
    r
}

pub fn steam_restore_messages() -> (r: Vec<Vec<u8>>)
    ensures
        r@.len() == 3,
        forall|i: int| 0 <= i < 3 ==> (#[trigger] r@[i])@ == steam_restore_sequence()[i],
{
    let mut mappings: Vec<u8> = Vec::new();
    mappings.push(ID_SET_DEFAULT_DIGITAL_MAPPINGS);
    let mut defaults: Vec<u8> = Vec::new();
    defaults.push(ID_LOAD_DEFAULT_SETTINGS);
    defaults.push(0);
    let trackpad = steam_restore_trackpad_message();
    assert(mappings@ =~= seq![ID_SET_DEFAULT_DIGITAL_MAPPINGS]);
    assert(defaults@ =~= seq![ID_LOAD_DEFAULT_SETTINGS, 0u8]);
    let mut r: Vec<Vec<u8>> = Vec::new();
    r.push(mappings);
    r.push(defaults);
    r.push(trackpad);
    r
}

/// Whether a wired feature report read back (`n` bytes of `report`)
/// answers `expected`: its first byte after the report id.
pub fn wired_feature_answers(report: &[u8], n: usize, expected: u8) -> (r: bool)
    requires
        n <= report@.len(),
    ensures
        r == (n > 1 && report@[1] == expected),
{
    n > 1 && report[1] == expected
}

/// Feeds one Bluetooth segment read back while waiting for the answer to
/// `expected`.  `Ok(true)` once a completed packet starts with `expected`;
/// a completed packet that answers something else is dropped.
pub fn bluetooth_feature_answers(
    assembler: &mut SteamPacketAssembler,
    segment: &[u8],
    expected: u8,
) -> (r: Result<bool, AssemblerError>)
    ensures
        ({
            let step = assembler_step(old(assembler).buffer@, old(assembler).expected_segment, segment@);
            match step.2 {
                Err(e) => r == Err::<bool, AssemblerError>(e) && final(assembler).buffer@ == step.0
                    && final(assembler).expected_segment == step.1,
                Ok(None) => r == Ok::<bool, AssemblerError>(false) && final(assembler).buffer@ == step.0
                    && final(assembler).expected_segment == step.1,
                Ok(Some(len)) => if len > 0 && step.0[0] == expected {
                    r == Ok::<bool, AssemblerError>(true) && final(assembler).buffer@ == step.0
                        && final(assembler).expected_segment == step.1
                } else {
                    r == Ok::<bool, AssemblerError>(false) && final(assembler).buffer@ == zeros(
                        steam::STEAM_BLE_PACKET_BYTES as nat,
                    ) && final(assembler).expected_segment == 0
                },
            }
        }),
{
    match assembler.push(segment) {
        Err(e) => Err(e),
        Ok(None) => Ok(false),
        Ok(Some(len)) => {
            if len > 0 && assembler.buffer[0] == expected {
                Ok(true)
            } else {
                assembler.reset();
                Ok(false)
            }
        },
    }
}

// ---------------------------------------------------------------------------
// Periodic mode refresh.

/// Milliseconds between re-sending "lizard mode off" (or the 2015
/// controller's input mode), and between re-enabling raw motion samples.
pub const LIZARD_REFRESH_MS: u64 = 3000;
pub const IMU_REFRESH_MS: u64 = 1000;

/// When the controller's modes were last re-sent, in milliseconds.
#[derive(Clone, Copy, Debug, PartialEq, Eq, Structural)]
pub struct ModeRefresh {
    pub last_lizard_ms: u64,
    pub last_imu_ms: u64,
}

/// Whether `interval` has passed from `last` to `now`.
pub open spec fn interval_passed(now: u64, last: u64, interval: u64) -> bool {
    now >= last && now - last >= interval
}

impl ModeRefresh {
    /// Modes just sent at `now_ms`.
    pub fn new(now_ms: u64) -> (r: Self)
        ensures
            r == (ModeRefresh { last_lizard_ms: now_ms, last_imu_ms: now_ms }),
    {
        ModeRefresh { last_lizard_ms: now_ms, last_imu_ms: now_ms }
    }

    /// Which modes to re-send at `now_ms`, lizard mode first; each one due
    /// is recorded as sent now.
    pub fn due(&mut self, now_ms: u64) -> (r: (bool, bool))
        ensures
            r.0 == interval_passed(now_ms, old(self).last_lizard_ms, LIZARD_REFRESH_MS),
            r.1 == interval_passed(now_ms, old(self).last_imu_ms, IMU_REFRESH_MS),
            final(self).last_lizard_ms == (if r.0 {
                now_ms
            } else {
                old(self).last_lizard_ms
            }),
            final(self).last_imu_ms == (if r.1 {
                now_ms
            } else {
                old(self).last_imu_ms
            }),
    {
        let lizard = now_ms >= self.last_lizard_ms && now_ms - self.last_lizard_ms
            >= LIZARD_REFRESH_MS;
        let imu = now_ms >= self.last_imu_ms && now_ms - self.last_imu_ms >= IMU_REFRESH_MS;
        if lizard {
            self.last_lizard_ms = now_ms;
        }
        if imu {
            self.last_imu_ms = now_ms;
        }
        (lizard, imu)
    }
}

} // verus!
