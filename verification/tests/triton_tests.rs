use sc2dsu::stats::ControllerInfo;
use sc2dsu::triton::steam::{
    steam_buttons, steam_trigger, update_steam_ble_state, update_steam_full_state,
    AssemblerError, SteamPacketAssembler, SteamRawState, STEAM_BLE_BUTTON_CHUNK_1,
    STEAM_BLE_BUTTON_CHUNK_2, STEAM_BLE_IMU_ACCEL_CHUNK, STEAM_BLE_IMU_GYRO_CHUNK,
    STEAM_BLE_LEFT_JOYSTICK_CHUNK, STEAM_LEFT_PAD_TOUCHED,
};
use sc2dsu::triton::{
    bluetooth_feature_answers, build_set_setting_report, button, controller_info, imu_step_us,
    is_candidate, is_steam_2015_pid, is_supported_pid, is_triton_pid, list_candidates,
    parse_imu_raw, parse_state_raw, pid_label, protocol_for_pid, stable_controller_id,
    steam_feature_frames, steam_imu_message, steam_input_mode_message, steam_restore_messages,
    steam_settings_message, steam_setup_messages, wired_feature_answers, CandidateInfo,
    DecodedReport, InputDecoder, Protocol, PID_NEREID_DONGLE, PID_PROTEUS_DONGLE,
    PID_STEAM_BLE, PID_STEAM_BLE2, PID_STEAM_CHELL, PID_STEAM_DONGLE, PID_STEAM_WIRED,
    PID_TRITON_BLE, PID_TRITON_WIRED, STEAM_BLE_REPORT_ID, STEAM_BLE_SEGMENT_BYTES,
    STEAM_BLE_SEGMENT_DATA, STEAM_BLE_SEGMENT_LAST, STEAM_BLE_STATE, TRITON_REPORT_STATE,
    VID_VALVE,
};

fn build_imu_payload(ts: u32, accel_raw: [i16; 3], gyro_raw: [i16; 3]) -> Vec<u8> {
    let mut p = vec![0u8; 45];
    p[29..33].copy_from_slice(&ts.to_le_bytes());
    for (i, v) in accel_raw.iter().enumerate() {
        p[33 + i * 2..35 + i * 2].copy_from_slice(&v.to_le_bytes());
    }
    for (i, v) in gyro_raw.iter().enumerate() {
        p[39 + i * 2..41 + i * 2].copy_from_slice(&v.to_le_bytes());
    }
    p
}

#[test]
fn parse_imu_rejects_short_payload() {
    assert!(parse_imu_raw(&[0u8; 44]).is_none());
}

#[test]
fn parse_imu_reads_timestamp_and_raw_axes() {
    let payload = build_imu_payload(0x1234_5678, [16384, 0, -16384], [16384, -16384, 0]);
    let s = parse_imu_raw(&payload).unwrap();
    assert_eq!(s.timestamp_us, 0x1234_5678);
    assert_eq!(s.accel, [16384, 0, -16384]);
    assert_eq!(s.gyro, [16384, -16384, 0]);
}

#[test]
fn parse_state_decodes_buttons_sticks_triggers() {
    let mut p = build_imu_payload(0x1111_2222, [1, 2, 3], [4, 5, 6]);
    p[1..5].copy_from_slice(&(button::A | button::DPAD_LEFT | button::STEAM).to_le_bytes());
    p[5..7].copy_from_slice(&1234u16.to_le_bytes());
    p[7..9].copy_from_slice(&31000u16.to_le_bytes());
    p[9..11].copy_from_slice(&(-100i16).to_le_bytes());
    p[11..13].copy_from_slice(&200i16.to_le_bytes());
    p[13..15].copy_from_slice(&(-300i16).to_le_bytes());
    p[15..17].copy_from_slice(&400i16.to_le_bytes());
    let s = parse_state_raw(&p).unwrap();
    assert_eq!(s.buttons, button::A | button::DPAD_LEFT | button::STEAM);
    assert_eq!(s.trigger_left, 1234);
    assert_eq!(s.trigger_right, 31000);
    assert_eq!(s.left_stick, [-100, 200]);
    assert_eq!(s.right_stick, [-300, 400]);
    assert_eq!(s.imu.timestamp_us, 0x1111_2222);
    assert_eq!(s.imu.accel, [1, 2, 3]);
    assert_eq!(s.imu.gyro, [4, 5, 6]);
}

#[test]
fn parse_state_rejects_short_payload() {
    assert!(parse_state_raw(&[0u8; 30]).is_none());
}

#[test]
fn steam_ble_assembler_reassembles_segmented_packets() {
    let mut assembler = SteamPacketAssembler::default();
    let mut first = [0u8; STEAM_BLE_SEGMENT_BYTES];
    first[0] = STEAM_BLE_REPORT_ID;
    first[1] = STEAM_BLE_SEGMENT_DATA;
    first[2..].fill(0x11);
    assert_eq!(assembler.push(&first).unwrap(), None);

    let mut last = [0u8; STEAM_BLE_SEGMENT_BYTES];
    last[0] = STEAM_BLE_REPORT_ID;
    last[1] = STEAM_BLE_SEGMENT_DATA | STEAM_BLE_SEGMENT_LAST | 1;
    last[2..].fill(0x22);
    assert_eq!(assembler.push(&last).unwrap(), Some(36));
    assert_eq!(&assembler.buffer[..18], &[0x11; 18]);
    assert_eq!(&assembler.buffer[18..36], &[0x22; 18]);
}

#[test]
fn assembler_handles_duplicated_report_id_short_and_foreign_reports() {
    let mut assembler = SteamPacketAssembler::default();
    // A 21-byte segment with the report id repeated reads from its second byte.
    let mut dup = [0u8; STEAM_BLE_SEGMENT_BYTES + 1];
    dup[0] = STEAM_BLE_REPORT_ID;
    dup[1] = STEAM_BLE_REPORT_ID;
    dup[2] = STEAM_BLE_SEGMENT_DATA | STEAM_BLE_SEGMENT_LAST;
    dup[3..].fill(0x33);
    assert_eq!(assembler.push(&dup).unwrap(), Some(18));
    assert_eq!(&assembler.buffer[..18], &[0x33; 18]);
    // A keyboard report is ignored.
    assert_eq!(assembler.push(&[0x01, 0x02, 0x03]).unwrap(), None);
    // A short segment clears the assembler and is an error.
    assert_eq!(
        assembler.push(&[STEAM_BLE_REPORT_ID, STEAM_BLE_SEGMENT_DATA, 1, 2]),
        Err(AssemblerError::ShortSegment { len: 4 })
    );
    assert_eq!(assembler.buffer, [0u8; 144]);
    assert_eq!(assembler.expected_segment, 0);
}

#[test]
fn out_of_order_segment_is_dropped() {
    let mut assembler = SteamPacketAssembler::default();
    let mut seg = [0u8; STEAM_BLE_SEGMENT_BYTES];
    seg[0] = STEAM_BLE_REPORT_ID;
    seg[1] = STEAM_BLE_SEGMENT_DATA | 2;
    assert_eq!(assembler.push(&seg).unwrap(), None);
    assert_eq!(assembler.expected_segment, 0);
}

#[test]
fn feature_frames_round_trip_through_the_assembler() {
    let message: Vec<u8> = (1..=40u8).collect();
    let frames = steam_feature_frames(true, &message).unwrap();
    assert_eq!(frames.len(), 3);
    let mut assembler = SteamPacketAssembler::default();
    assert_eq!(assembler.push(&frames[0]).unwrap(), None);
    assert_eq!(assembler.push(&frames[1]).unwrap(), None);
    assert_eq!(assembler.push(&frames[2]).unwrap(), Some(54));
    assert_eq!(&assembler.buffer[..40], &message[..]);
}

#[test]
fn feature_frames_wired_and_invalid_lengths() {
    let frames = steam_feature_frames(false, &[0x8E, 0]).unwrap();
    assert_eq!(frames.len(), 1);
    assert_eq!(frames[0].len(), 65);
    assert_eq!(&frames[0][..3], &[0, 0x8E, 0]);
    assert!(steam_feature_frames(false, &[]).is_none());
    assert!(steam_feature_frames(true, &[0u8; 65]).is_none());
    let single = steam_feature_frames(true, &[0x83]).unwrap();
    assert_eq!(single.len(), 1);
    assert_eq!(single[0].len(), 20);
    assert_eq!(&single[0][..3], &[STEAM_BLE_REPORT_ID, 0xC0, 0x83]);
}

#[test]
fn settings_messages_have_the_documented_layout() {
    assert_eq!(
        steam_settings_message(&[(48, 0x0018), (9, 0)]),
        vec![0x87, 6, 48, 0x18, 0, 9, 0, 0]
    );
    assert_eq!(steam_imu_message(), vec![0x87, 3, 48, 0x18, 0x00]);
    assert_eq!(
        steam_input_mode_message(),
        vec![0x87, 12, 49, 2, 0, 7, 7, 0, 8, 7, 0, 24, 0, 0]
    );
    let setup = steam_setup_messages();
    assert_eq!(setup.len(), 4);
    assert_eq!(setup[0], vec![0x81]);
    assert_eq!(setup[1], vec![0x8E, 0]);
    let restore = steam_restore_messages();
    assert_eq!(restore, vec![vec![0x85], vec![0x8E, 0], vec![0x87, 3, 8, 0, 0]]);
}

#[test]
fn set_setting_report_layout() {
    let r = build_set_setting_report(9, 0x1234);
    assert_eq!(&r[..6], &[0x01, 0x87, 3, 9, 0x34, 0x12]);
    assert!(r[6..].iter().all(|b| *b == 0));
}

#[test]
fn steam_trigger_scales_and_clamps() {
    assert_eq!(steam_trigger(0), 0);
    assert_eq!(steam_trigger(100), (100u32 * 129 * 32767 / 26000) as u16);
    assert_eq!(steam_trigger(255), 32767);
}

#[test]
fn steam_ble_state_decodes_sdl_chunks() {
    let chunks = STEAM_BLE_BUTTON_CHUNK_1
        | STEAM_BLE_BUTTON_CHUNK_2
        | STEAM_BLE_LEFT_JOYSTICK_CHUNK
        | STEAM_BLE_IMU_ACCEL_CHUNK
        | STEAM_BLE_IMU_GYRO_CHUNK;
    let mut packet = vec![(chunks as u8 & 0xF0) | STEAM_BLE_STATE, (chunks >> 8) as u8];
    packet.extend_from_slice(&[0x80, 0x10, 0x00]); // A + Back
    packet.extend_from_slice(&[100, 200]);
    for value in [123i16, -456, 16384, 0, -16384, 16384, -8192, 0] {
        packet.extend_from_slice(&value.to_le_bytes());
    }

    let mut raw = SteamRawState::default();
    update_steam_ble_state(&packet, &mut raw).unwrap();
    assert_eq!(steam_buttons(raw.buttons), button::A | button::VIEW);
    assert_eq!(raw.left_stick, (123, -456));
    assert_eq!(raw.trigger_left, steam_trigger(100));
    assert_eq!(raw.trigger_right, steam_trigger(200));
    assert_eq!(raw.accel, (16384, 0, -16384));
    assert_eq!(raw.gyro, (16384, -8192, 0));
}

#[test]
fn truncated_ble_state_keeps_decoded_chunks() {
    let chunks = STEAM_BLE_BUTTON_CHUNK_1 | STEAM_BLE_LEFT_JOYSTICK_CHUNK;
    let mut packet = vec![(chunks as u8 & 0xF0) | STEAM_BLE_STATE, (chunks >> 8) as u8];
    packet.extend_from_slice(&[0x80, 0x00, 0x00, 1, 2]);
    let mut raw = SteamRawState::default();
    assert!(update_steam_ble_state(&packet, &mut raw).is_none());
    assert_eq!(raw.buttons, 0x80);
    assert_eq!(raw.left_stick, (0, 0));
    assert!(update_steam_ble_state(&[0x05, 0], &mut raw).is_none());
}

#[test]
fn full_state_report_shares_left_pad_and_stick() {
    let mut report = vec![0u8; 40];
    report[0] = 1;
    report[1] = 0;
    report[2] = 1;
    report[8..16].copy_from_slice(&(STEAM_LEFT_PAD_TOUCHED | 0x80).to_le_bytes());
    report[16..18].copy_from_slice(&500i16.to_le_bytes());
    report[18..20].copy_from_slice(&(-600i16).to_le_bytes());
    report[20..22].copy_from_slice(&7i16.to_le_bytes());
    report[28..30].copy_from_slice(&11i16.to_le_bytes());
    report[34..36].copy_from_slice(&(-13i16).to_le_bytes());
    let mut raw = SteamRawState::default();
    raw.left_stick = (9, 9);
    update_steam_full_state(&report, &mut raw).unwrap();
    assert_eq!(raw.left_pad, (500, -600));
    assert_eq!(raw.left_stick, (0, 0));
    assert_eq!(raw.right_pad, (7, 0));
    assert_eq!(raw.accel, (11, 0, 0));
    assert_eq!(raw.gyro, (-13, 0, 0));
    // A retained zero report id is skipped.
    let mut with_id = vec![0u8];
    with_id.extend_from_slice(&report);
    let mut again = SteamRawState::default();
    update_steam_full_state(&with_id, &mut again).unwrap();
    assert_eq!(again.left_pad, (500, -600));
    // Too short for its motion data: controls kept, result None.
    let mut short = SteamRawState::default();
    assert!(update_steam_full_state(&report[..30], &mut short).is_none());
    assert_eq!(short.left_pad, (500, -600));
}

#[test]
fn pid_helpers_classify_products() {
    assert_eq!(pid_label(PID_STEAM_BLE), "Steam Controller 2015 Bluetooth");
    assert_eq!(pid_label(PID_PROTEUS_DONGLE), "Proteus Puck");
    assert_eq!(pid_label(0x9999), "?");
    assert!(is_steam_2015_pid(PID_STEAM_DONGLE));
    assert!(!is_steam_2015_pid(PID_TRITON_WIRED));
    assert!(is_triton_pid(PID_NEREID_DONGLE));
    assert!(is_supported_pid(PID_STEAM_CHELL));
    assert!(!is_supported_pid(0x1234));
    assert_eq!(protocol_for_pid(PID_TRITON_BLE), Some(Protocol::Triton));
    assert_eq!(protocol_for_pid(PID_STEAM_BLE2), Some(Protocol::Steam2015 { bluetooth: true }));
    assert_eq!(protocol_for_pid(PID_STEAM_WIRED), Some(Protocol::Steam2015 { bluetooth: false }));
    assert_eq!(protocol_for_pid(0x0001), None);
}

#[test]
fn controller_info_names_family_and_transport() {
    let info: ControllerInfo = controller_info(PID_STEAM_BLE, 42);
    assert_eq!(info.id, 42);
    assert_eq!(info.name, "Steam Controller (2015)");
    assert_eq!(info.transport, "Bluetooth");
    let puck = controller_info(PID_PROTEUS_DONGLE, 1);
    assert_eq!(puck.name, "Steam Controller (2026)");
    assert_eq!(puck.transport, "Wireless");
    assert_eq!(controller_info(PID_TRITON_WIRED, 1).transport, "USB");
}

#[test]
fn stable_id_is_fnv1a_over_identity_bytes() {
    let mut expected: u64 = 0xcbf2_9ce4_8422_2325;
    let mut bytes = Vec::new();
    bytes.extend_from_slice(&VID_VALVE.to_le_bytes());
    bytes.extend_from_slice(&PID_PROTEUS_DONGLE.to_le_bytes());
    bytes.extend_from_slice(&3i32.to_le_bytes());
    bytes.extend_from_slice(b"SERIAL");
    for b in &bytes {
        expected ^= u64::from(*b);
        expected = expected.wrapping_mul(0x0000_0100_0000_01B3);
    }
    let id = stable_controller_id(VID_VALVE, PID_PROTEUS_DONGLE, 3, Some(&b"SERIAL"[..]), b"/dev/x");
    assert_eq!(id, expected);
    let other_iface = stable_controller_id(VID_VALVE, PID_PROTEUS_DONGLE, 4, Some(&b"SERIAL"[..]), b"/dev/x");
    assert_ne!(id, other_iface);
    let by_path = stable_controller_id(VID_VALVE, PID_PROTEUS_DONGLE, 3, None, b"/dev/x");
    assert_ne!(id, by_path);
}

#[test]
fn candidates_are_filtered_and_ordered_by_transport() {
    let info = |pid: u16, iface: i32| CandidateInfo {
        vendor_id: VID_VALVE,
        product_id: pid,
        usage_page: 0xFF00,
        interface_number: iface,
    };
    let devices = [
        info(PID_PROTEUS_DONGLE, 2),
        info(PID_STEAM_DONGLE, 0),
        info(PID_TRITON_BLE, 0),
        info(PID_STEAM_WIRED, 2),
        CandidateInfo { usage_page: 1, ..info(PID_STEAM_BLE, 0) },
        info(PID_STEAM_BLE, 0),
        info(PID_STEAM_DONGLE, 1),
        CandidateInfo { vendor_id: 1, ..info(PID_TRITON_WIRED, 0) },
    ];
    assert!(is_candidate(&devices[0]));
    assert!(!is_candidate(&devices[1]));
    assert!(!is_candidate(&devices[4]));
    assert!(!is_candidate(&devices[7]));
    assert_eq!(list_candidates(&devices), vec![5, 3, 6, 2, 0]);
}

#[test]
fn decoder_reads_triton_state_reports() {
    let mut payload = build_imu_payload(77, [1, 2, 3], [4, 5, 6]);
    payload[1..5].copy_from_slice(&button::B.to_le_bytes());
    let mut report = vec![TRITON_REPORT_STATE];
    report.extend_from_slice(&payload);
    let mut decoder = InputDecoder::new(Protocol::Triton);
    match decoder.decode(&report) {
        Ok(Some(DecodedReport::Triton(s))) => {
            assert_eq!(s.buttons, button::B);
            assert_eq!(s.imu.timestamp_us, 77);
        }
        other => panic!("unexpected {other:?}"),
    }
    report[0] = 0x43;
    assert!(matches!(decoder.decode(&report), Ok(None)));
}

#[test]
fn decoder_reassembles_bluetooth_state() {
    let chunks = STEAM_BLE_BUTTON_CHUNK_1;
    let packet = vec![(chunks as u8 & 0xF0) | STEAM_BLE_STATE, (chunks >> 8) as u8, 0x80, 0, 0];
    let mut segment = [0u8; STEAM_BLE_SEGMENT_BYTES];
    segment[0] = STEAM_BLE_REPORT_ID;
    segment[1] = STEAM_BLE_SEGMENT_DATA | STEAM_BLE_SEGMENT_LAST;
    segment[2..2 + packet.len()].copy_from_slice(&packet);
    let mut decoder = InputDecoder::new(Protocol::Steam2015 { bluetooth: true });
    match decoder.decode(&segment) {
        Ok(Some(DecodedReport::Steam(s))) => assert_eq!(steam_buttons(s.buttons), button::A),
        other => panic!("unexpected {other:?}"),
    }
}

#[test]
fn feature_answers_are_recognized() {
    assert!(wired_feature_answers(&[0, 0x83, 0], 3, 0x83));
    assert!(!wired_feature_answers(&[0, 0x83, 0], 1, 0x83));
    let mut assembler = SteamPacketAssembler::default();
    let mut seg = [0u8; STEAM_BLE_SEGMENT_BYTES];
    seg[0] = STEAM_BLE_REPORT_ID;
    seg[1] = STEAM_BLE_SEGMENT_DATA | STEAM_BLE_SEGMENT_LAST;
    seg[2] = 0x83;
    assert_eq!(bluetooth_feature_answers(&mut assembler, &seg, 0x83), Ok(true));
    seg[2] = 0x10;
    assert_eq!(bluetooth_feature_answers(&mut assembler, &seg, 0x83), Ok(false));
    assert_eq!(assembler.buffer, [0u8; 144]);
}

#[test]
fn imu_step_wraps_and_clamps() {
    assert_eq!(imu_step_us(None, 5), 0);
    assert_eq!(imu_step_us(Some(1000), 3000), 2000);
    assert_eq!(imu_step_us(Some(u32::MAX - 9), 10), 20);
    assert_eq!(imu_step_us(Some(0), 500_000), 100_000);
}

#[test]
fn pid_label_is_unknown_exactly_for_unsupported_ids() {
    for pid in [0u16, 0x1100, 0x1101, 0x1102, 0x1105, 0x1106, 0x1142, 0x1302, 0x1303, 0x1304, 0x1305, 0x1306, 0xFFFF] {
        assert_eq!(pid_label(pid) == "?", !is_supported_pid(pid));
    }
    assert_eq!(pid_label(0x1105), pid_label(0x1106));
}

#[test]
fn steam_left_stick_flips_y_like_bitwise_not() {
    let chunks = STEAM_BLE_LEFT_JOYSTICK_CHUNK;
    let mut packet = vec![(chunks as u8 & 0xF0) | STEAM_BLE_STATE, (chunks >> 8) as u8];
    for value in [123i16, -456] {
        packet.extend_from_slice(&value.to_le_bytes());
    }
    let mut raw = SteamRawState::default();
    update_steam_ble_state(&packet, &mut raw).unwrap();
    assert_eq!(sc2dsu::triton::steam::steam_left_stick(&raw), [123, 455]);
    assert_eq!(sc2dsu::triton::steam::invert_axis(i16::MIN), i16::MAX);
    assert_eq!(sc2dsu::triton::steam::invert_axis(0), -1);
}

#[test]
fn mode_refresh_resends_lizard_every_three_seconds_and_imu_every_second() {
    let mut refresh = sc2dsu::triton::ModeRefresh::new(0);
    assert_eq!(refresh.due(999), (false, false));
    assert_eq!(refresh.due(1000), (false, true));
    assert_eq!(refresh.due(1999), (false, false));
    assert_eq!(refresh.due(3000), (true, true));
    assert_eq!(refresh.last_lizard_ms, 3000);
    assert_eq!(refresh.due(3500), (false, false));
}
