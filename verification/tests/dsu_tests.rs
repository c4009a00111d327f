use sc2dsu::dsu::{
    crc_over_zeroed, data_packet, dsu_button_bytes, finalize_crc, pack_bits, parse_request,
    port_info_packet, registration_wants_slot, slot_mac, stick_to_u8, trigger_to_u8,
    version_packet, write_controller_header, write_data_body, write_header, Registration,
    Request, RequestError, SlotBook, SubscriberTable, SubscriptionKey, CONTROLLER_HEADER_LEN,
    CRC_LEN, CRC_OFFSET, HEADER_LEN, HEADER_LEN_FULL, MAX_SUBSCRIBERS, MSG_TYPE_DATA,
    MSG_TYPE_PORTS, MSG_TYPE_VERSION, PACKET_NUM_OFFSET, PROTOCOL_VERSION,
    SLOT_STATE_CONNECTED, TRIGGER_DIGITAL_THRESHOLD,
};
use sc2dsu::stats::ControllerInfo;
use sc2dsu::triton::button as bt;
use sc2dsu::triton::{button, ControllerState, DeviceEvent, ImuSample};

fn imu(timestamp_us: u32, accel: [f32; 3], gyro: [f32; 3]) -> ImuSample {
    ImuSample {
        timestamp_us,
        accel_g_bits: [accel[0].to_bits(), accel[1].to_bits(), accel[2].to_bits()],
        gyro_dps_bits: [gyro[0].to_bits(), gyro[1].to_bits(), gyro[2].to_bits()],
    }
}

fn idle_state(timestamp_us: u32) -> ControllerState {
    ControllerState {
        buttons: 0,
        trigger_left: 0,
        trigger_right: 0,
        left_stick: [0; 2],
        right_stick: [0; 2],
        imu: imu(timestamp_us, [0.0; 3], [0.0; 3]),
    }
}

/// A client packet with a correct header and CRC around `body`.
fn client_packet(msg_type: u32, client_id: u32, body: &[u8]) -> Vec<u8> {
    let mut out = Vec::new();
    out.extend_from_slice(b"DSUC");
    out.extend_from_slice(&PROTOCOL_VERSION.to_le_bytes());
    out.extend_from_slice(&((4 + body.len()) as u16).to_le_bytes());
    out.extend_from_slice(&[0; 4]);
    out.extend_from_slice(&client_id.to_le_bytes());
    out.extend_from_slice(&msg_type.to_le_bytes());
    out.extend_from_slice(body);
    let crc = crc32fast::hash(&out);
    out[CRC_OFFSET..CRC_OFFSET + CRC_LEN].copy_from_slice(&crc.to_le_bytes());
    out
}

#[test]
fn header_fields_and_crc_are_consistent() {
    let mut out = vec![0u8; HEADER_LEN_FULL + 2];
    write_header(&mut out, 0xDEAD_BEEF, MSG_TYPE_VERSION);
    out[HEADER_LEN_FULL..HEADER_LEN_FULL + 2].copy_from_slice(&PROTOCOL_VERSION.to_le_bytes());
    finalize_crc(&mut out);
    assert_eq!(&out[0..4], b"DSUS");
    assert_eq!(u16::from_le_bytes([out[4], out[5]]), PROTOCOL_VERSION);
    assert_eq!(
        u16::from_le_bytes([out[6], out[7]]),
        (out.len() - HEADER_LEN) as u16
    );
    assert_eq!(
        u32::from_le_bytes(out[12..16].try_into().unwrap()),
        0xDEAD_BEEF
    );
    assert_eq!(
        u32::from_le_bytes(out[16..20].try_into().unwrap()),
        MSG_TYPE_VERSION
    );
    let claimed = u32::from_le_bytes(out[CRC_OFFSET..CRC_OFFSET + CRC_LEN].try_into().unwrap());
    assert_eq!(claimed, crc_over_zeroed(&out));
}

#[test]
fn crc_over_zeroed_ignores_crc_field() {
    let a: Vec<u8> = (0..32u8).collect();
    let mut b = a.clone();
    b[CRC_OFFSET..CRC_OFFSET + CRC_LEN].copy_from_slice(&[0xFF; CRC_LEN]);
    assert_eq!(crc_over_zeroed(&a), crc_over_zeroed(&b));
}

#[test]
fn crc_over_zeroed_is_crc32_of_the_zeroed_packet() {
    let a: Vec<u8> = (0..32u8).collect();
    let mut zeroed = a.clone();
    zeroed[CRC_OFFSET..CRC_OFFSET + CRC_LEN].fill(0);
    assert_eq!(crc_over_zeroed(&a), crc32fast::hash(&zeroed));
    assert_ne!(crc_over_zeroed(&a), crc32fast::hash(&a));
}

#[test]
fn stick_and_trigger_scaling() {
    assert_eq!(stick_to_u8(0), 128);
    assert_eq!(stick_to_u8(i16::MIN), 0);
    assert_eq!(stick_to_u8(i16::MAX), 255);
    assert_eq!(trigger_to_u8(0), 0);
    assert_eq!(trigger_to_u8(0x7FFF), 255);
    assert_eq!(trigger_to_u8(0x8000), 255);
    let mid = trigger_to_u8(0x4000);
    assert!((100..160).contains(&mid), "mid pull = {mid}");
}

#[test]
fn dsu_button_bytes_maps_buttons_to_correct_bits() {
    let bit = |n: u8| 1u8 << n;
    let [b1, b2, home, touch] = dsu_button_bytes(bt::A | bt::DPAD_UP | bt::STEAM, false, false);
    assert_eq!(b1, bit(4));
    assert_eq!(b2, bit(5));
    assert_eq!(home, 1);
    assert_eq!(touch, 0);

    let [b1, b2, home, touch] = dsu_button_bytes(
        bt::MENU | bt::VIEW | bt::L | bt::R | bt::Y | bt::QAM,
        true,
        true,
    );
    assert_eq!(b1, bit(0) | bit(3));
    assert_eq!(b2, bit(0) | bit(1) | bit(2) | bit(3) | bit(7));
    assert_eq!(home, 0);
    assert_eq!(touch, 1);

    assert_eq!(
        dsu_button_bytes(bt::L4 | bt::L5 | bt::R4 | bt::R5, false, false),
        [0, 0, 0, 0]
    );
}

#[test]
fn pack_bits_weights_each_position() {
    assert_eq!(pack_bits([true, false, false, false, false, false, false, false]), 1);
    assert_eq!(pack_bits([false, false, false, false, false, false, false, true]), 0x80);
    assert_eq!(pack_bits([true; 8]), 0xFF);
    assert_eq!(pack_bits([false; 8]), 0);
}

#[test]
fn data_body_encodes_buttons_sticks_and_motion() {
    let mut body = vec![0u8; 80];
    let state = ControllerState {
        buttons: button::B | button::DPAD_LEFT,
        trigger_left: 0x7FFF,
        trigger_right: 0,
        left_stick: [i16::MAX, i16::MIN],
        right_stick: [0, 0],
        imu: imu(0xABCD_1234, [0.25, -0.5, 1.0], [10.0, -20.0, 30.0]),
    };
    write_data_body(&mut body, 0, &state);
    assert_eq!(body[0], 1);
    assert_eq!(body[5], 0b1000_0000);
    assert_eq!(body[6], 0b0100_0001);
    assert_eq!(body[7], 0);
    assert_eq!(body[8], 0);
    assert_eq!(&body[9..13], &[255, 0, 128, 128]);
    assert_eq!(&body[13..25], &[255, 0, 0, 0, 0, 255, 0, 0, 0, 0, 0, 255]);
    assert_eq!(&body[25..37], &[0u8; 12]);
    assert_eq!(
        u64::from_le_bytes(body[37..45].try_into().unwrap()),
        0xABCD_1234u64
    );
    assert_eq!(f32::from_le_bytes(body[45..49].try_into().unwrap()), 0.25);
    assert_eq!(f32::from_le_bytes(body[49..53].try_into().unwrap()), -0.5);
    assert_eq!(f32::from_le_bytes(body[53..57].try_into().unwrap()), 1.0);
    assert_eq!(f32::from_le_bytes(body[57..61].try_into().unwrap()), 10.0);
    assert_eq!(f32::from_le_bytes(body[61..65].try_into().unwrap()), -20.0);
    assert_eq!(f32::from_le_bytes(body[65..69].try_into().unwrap()), 30.0);
}

#[test]
fn partial_trigger_pull_sets_analog_but_not_digital() {
    let mut body = vec![0u8; 80];
    let state = ControllerState {
        buttons: 0,
        trigger_left: 0x3200,
        trigger_right: 0,
        left_stick: [0, 0],
        right_stick: [0, 0],
        imu: imu(0, [0.0; 3], [0.0; 3]),
    };
    assert!(trigger_to_u8(state.trigger_left) < TRIGGER_DIGITAL_THRESHOLD);
    write_data_body(&mut body, 0, &state);
    assert_eq!(body[6], 0);
    assert_eq!(body[24], trigger_to_u8(0x3200));
}

#[test]
fn controller_headers_encode_each_slot_and_connection_state() {
    let mut connected = vec![0u8; CONTROLLER_HEADER_LEN];
    write_controller_header(&mut connected, 0, 2, true);
    assert_eq!(connected[0], 2);
    assert_eq!(connected[1], SLOT_STATE_CONNECTED);
    assert_eq!(&connected[4..10], &slot_mac(2));

    let mut disconnected = vec![0u8; CONTROLLER_HEADER_LEN];
    write_controller_header(&mut disconnected, 0, 3, false);
    assert_eq!(disconnected[0], 3);
    assert_eq!(&disconnected[1..], &[0; CONTROLLER_HEADER_LEN - 1]);
}

#[test]
fn registrations_are_filtered_per_slot_or_mac() {
    let by_slot = SubscriptionKey {
        client_id: 1,
        reg_type: 1,
        slot: 1,
        mac: [0; 6],
    };
    assert!(!registration_wants_slot(&by_slot, 0));
    assert!(registration_wants_slot(&by_slot, 1));

    let by_mac = SubscriptionKey {
        client_id: 1,
        reg_type: 2,
        slot: 0,
        mac: slot_mac(3),
    };
    assert!(!registration_wants_slot(&by_mac, 2));
    assert!(registration_wants_slot(&by_mac, 3));
}

#[test]
fn broadcast_routes_only_the_requested_dsu_slot() {
    let mut table: SubscriberTable<&str> = SubscriberTable::new();
    let registration = SubscriptionKey {
        client_id: 7,
        reg_type: 1,
        slot: 1,
        mac: [0; 6],
    };
    assert_eq!(table.register(registration, "client", 0), Registration::Added);
    let sample = idle_state(1);

    let packet = data_packet(0x1234, 0, &sample);
    assert!(table.route(0, &packet).is_empty());

    let packet = data_packet(0x1234, 1, &sample);
    let routed = table.route(1, &packet);
    assert_eq!(routed.len(), 1);
    assert_eq!(*table.addr(routed[0].0), "client");
    assert_eq!(routed[0].1.len(), HEADER_LEN_FULL + 80);
    assert_eq!(routed[0].1[HEADER_LEN_FULL], 1);
}

#[test]
fn routed_packets_count_per_registration_and_carry_a_valid_crc() {
    let mut table: SubscriberTable<u32> = SubscriberTable::new();
    let all = SubscriptionKey { client_id: 1, reg_type: 0, slot: 0, mac: [0; 6] };
    assert_eq!(table.register(all, 10, 0), Registration::Added);
    let packet = data_packet(0x55, 2, &idle_state(9));
    for expected in 1u32..=3 {
        let routed = table.route(2, &packet);
        assert_eq!(routed.len(), 1);
        let p = &routed[0].1;
        let counter = u32::from_le_bytes(p[PACKET_NUM_OFFSET..PACKET_NUM_OFFSET + 4].try_into().unwrap());
        assert_eq!(counter, expected);
        let claimed = u32::from_le_bytes(p[CRC_OFFSET..CRC_OFFSET + CRC_LEN].try_into().unwrap());
        assert_eq!(claimed, crc_over_zeroed(p));
    }
    assert_eq!(table.subs[0].packet_counters, [0, 0, 3, 0]);
}

#[test]
fn register_refreshes_existing_and_refuses_when_full() {
    let mut table: SubscriberTable<u32> = SubscriberTable::new();
    let key = |id: u32| SubscriptionKey { client_id: id, reg_type: 0, slot: 0, mac: [0; 6] };
    for id in 0..MAX_SUBSCRIBERS as u32 {
        assert_eq!(table.register(key(id), id, 5), Registration::Added);
    }
    assert_eq!(table.register(key(99), 99, 6), Registration::TableFull);
    assert_eq!(table.len(), MAX_SUBSCRIBERS);
    assert_eq!(table.register(key(3), 42, 7), Registration::Refreshed);
    assert_eq!(table.subs[3].last_request_ms, 7);
    assert_eq!(*table.addr(3), 42);
    let nobody = SubscriptionKey { client_id: 5, reg_type: 1, slot: 9, mac: [0; 6] };
    assert_eq!(table.register(nobody, 1, 8), Registration::NotForUs);
}

#[test]
fn cleanup_drops_registrations_older_than_the_timeout() {
    let mut table: SubscriberTable<u32> = SubscriberTable::new();
    let key = |id: u32| SubscriptionKey { client_id: id, reg_type: 0, slot: 0, mac: [0; 6] };
    table.register(key(1), 1, 0);
    table.register(key(2), 2, 3000);
    table.cleanup(5000);
    assert_eq!(table.len(), 1);
    assert_eq!(table.subs[0].key.client_id, 2);
    assert_eq!(*table.addr(0), 2);
    assert!(table.device_wanted(None, 5000));
    table.cleanup(8000);
    assert!(table.is_empty());
    assert!(!table.device_wanted(None, 8000));
    assert!(table.device_wanted(Some(4000), 8000));
    assert!(!table.device_wanted(Some(3000), 8000));
}

#[test]
fn version_request_is_parsed() {
    let msg = client_packet(MSG_TYPE_VERSION, 1, &[]);
    assert!(matches!(parse_request(&msg), Ok(Some(Request::Version))));
}

#[test]
fn ports_request_lists_at_most_four_slots() {
    let mut body = 6u32.to_le_bytes().to_vec();
    body.extend_from_slice(&[0, 1, 2, 3, 4, 5]);
    let msg = client_packet(MSG_TYPE_PORTS, 1, &body);
    match parse_request(&msg) {
        Ok(Some(Request::Ports { slots })) => assert_eq!(slots, vec![0, 1, 2, 3]),
        other => panic!("unexpected {other:?}"),
    }
}

#[test]
fn data_request_yields_its_subscription() {
    let body = [1u8, 2, 0x02, 0x28, 0xDE, 0x13, 0x04, 0x02];
    let msg = client_packet(MSG_TYPE_DATA, 77, &body);
    match parse_request(&msg) {
        Ok(Some(Request::Data { key })) => {
            assert_eq!(key.client_id, 77);
            assert_eq!(key.reg_type, 1);
            assert_eq!(key.slot, 2);
            assert_eq!(key.mac, slot_mac(2));
        }
        other => panic!("unexpected {other:?}"),
    }
}

#[test]
fn bad_crc_or_magic_is_ignored_and_short_body_is_an_error() {
    let mut msg = client_packet(MSG_TYPE_VERSION, 1, &[]);
    msg[CRC_OFFSET] ^= 0xFF;
    assert!(matches!(parse_request(&msg), Ok(None)));
    let mut msg = client_packet(MSG_TYPE_VERSION, 1, &[]);
    msg[0] = b'X';
    assert!(matches!(parse_request(&msg), Ok(None)));
    assert!(matches!(parse_request(&[0u8; 10]), Ok(None)));
    let msg = client_packet(MSG_TYPE_DATA, 1, &[1u8, 2]);
    assert!(matches!(parse_request(&msg), Err(RequestError::Truncated)));
}

#[test]
fn server_packets_carry_valid_crcs() {
    let v = version_packet(7);
    assert_eq!(v.len(), HEADER_LEN_FULL + 2);
    assert_eq!(u16::from_le_bytes([v[20], v[21]]), PROTOCOL_VERSION);
    let claimed = u32::from_le_bytes(v[CRC_OFFSET..CRC_OFFSET + CRC_LEN].try_into().unwrap());
    assert_eq!(claimed, crc_over_zeroed(&v));

    let p = port_info_packet(7, 1, true);
    assert_eq!(p.len(), HEADER_LEN_FULL + 12);
    assert_eq!(p[HEADER_LEN_FULL], 1);
    assert_eq!(p[HEADER_LEN_FULL + 1], SLOT_STATE_CONNECTED);
    assert_eq!(u32::from_le_bytes(p[16..20].try_into().unwrap()), MSG_TYPE_PORTS);
    let claimed = u32::from_le_bytes(p[CRC_OFFSET..CRC_OFFSET + CRC_LEN].try_into().unwrap());
    assert_eq!(claimed, crc_over_zeroed(&p));
}

#[test]
fn slot_book_tracks_connection_and_counts_samples() {
    let info = ControllerInfo { id: 1, name: "pad", transport: "USB" };
    let mut book = SlotBook::new();
    assert!(book.apply_event(&DeviceEvent::Connected { slot: 2, controller: info }));
    assert!(book.slot_connected(2));
    assert_eq!(book.connected_count(), 1);
    assert!(book.apply_event(&DeviceEvent::Sample { slot: 1, state: idle_state(0) }));
    assert_eq!(book.samples_in_window, 1);
    assert_eq!(book.samples_per_slot, [0, 1, 0, 0]);
    assert_eq!(book.connected_count(), 2);
    assert!(!book.apply_event(&DeviceEvent::Disconnected { slot: 7 }));
    assert!(book.apply_event(&DeviceEvent::Disconnected { slot: 2 }));
    assert!(!book.slot_connected(2));
    assert!(!book.slot_connected(9));
    book.reset_window();
    assert_eq!(book.samples_in_window, 0);
    assert_eq!(book.samples_per_slot, [0; 4]);
    assert_eq!(book.connected_count(), 1);
}

#[test]
fn back_grips_never_change_button_bytes_and_triggers_fill_low_face_bits() {
    let grips = bt::L4 | bt::L5 | bt::R4 | bt::R5;
    let b = bt::A | bt::MENU | bt::STEAM;
    for (l2, r2) in [(false, false), (true, false), (false, true), (true, true)] {
        let bytes = dsu_button_bytes(b, l2, r2);
        assert_eq!(dsu_button_bytes(b | grips, l2, r2), bytes);
        assert_eq!(bytes[1] & 0b11, (l2 as u8) | ((r2 as u8) << 1));
        assert_eq!(bytes[2], 1);
        assert_eq!(bytes[3], 0);
    }
}

#[test]
fn replies_answer_version_and_each_listed_port() {
    let info = ControllerInfo { id: 1, name: "pad", transport: "USB" };
    let mut book = SlotBook::new();
    book.apply_event(&DeviceEvent::Connected { slot: 1, controller: info });
    let v = sc2dsu::dsu::replies(9, &Request::Version, &book);
    assert_eq!(v, vec![version_packet(9)]);
    let p = sc2dsu::dsu::replies(9, &Request::Ports { slots: vec![0, 1] }, &book);
    assert_eq!(p, vec![port_info_packet(9, 0, false), port_info_packet(9, 1, true)]);
    let key = SubscriptionKey { client_id: 1, reg_type: 0, slot: 0, mac: [0; 6] };
    assert!(sc2dsu::dsu::replies(9, &Request::Data { key }, &book).is_empty());
}
