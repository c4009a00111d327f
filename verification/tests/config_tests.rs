use sc2dsu::config::{
    bind_host, generation, install, snapshot, Axis, AxisMap, Config, LiveConfig,
    DEFAULT_PORT, GYRO_SENSITIVITY_DEFAULT_BITS, MAX_DSU_SLOTS,
};

#[test]
fn bind_host_maps_flag() {
    assert_eq!(bind_host(true), "0.0.0.0");
    assert_eq!(bind_host(false), "127.0.0.1");
}

#[test]
fn controller_slot_assignment_moves_without_duplicates() {
    let mut cfg = Config::default();
    cfg.assign_controller_to_slot(10, 0);
    cfg.assign_controller_to_slot(20, 1);
    cfg.assign_controller_to_slot(10, 1);
    assert_eq!(cfg.slot_assignments, [0, 10, 0, 0]);
    assert_eq!(cfg.slot_for_controller(10), Some(1));
    assert_eq!(cfg.slot_for_controller(20), None);
    cfg.clear_controller_assignment(10);
    assert_eq!(cfg.slot_for_controller(10), None);
}

#[test]
fn default_config_matches_documented_defaults() {
    let cfg = Config::default();
    assert_eq!(cfg.port, 26760);
    assert_eq!(cfg.port, DEFAULT_PORT);
    assert_eq!(cfg.gyro, AxisMap::gyro_default());
    assert_eq!(cfg.accel, AxisMap::accel_default());
    assert_eq!(f32::from_bits(cfg.gyro_sensitivity_bits), 1.0);
    assert_eq!(cfg.gyro_sensitivity_bits, GYRO_SENSITIVITY_DEFAULT_BITS);
    assert_eq!(cfg.slot_assignments, [0; MAX_DSU_SLOTS]);
    assert!(!cfg.start_minimized);
    assert!(!cfg.expose_to_network);
    assert!(!cfg.close_to_tray);
    assert!(cfg.auto_calibrate);
}

#[test]
fn default_axis_maps_follow_the_emulator_remap() {
    let gyro = AxisMap::gyro_default();
    assert_eq!(gyro.x, Axis::new(0, false));
    assert_eq!(gyro.y, Axis::new(2, true));
    assert_eq!(gyro.z, Axis::new(1, false));
    let accel = AxisMap::accel_default();
    assert_eq!(accel.x, Axis::new(0, true));
    assert_eq!(accel.y, Axis::new(2, true));
    assert_eq!(accel.z, Axis::new(1, false));
    assert_eq!(AxisMap::default(), gyro);
}

#[test]
fn axis_source_index_clamps_to_z() {
    assert_eq!(Axis::new(0, false).source_index(), 0);
    assert_eq!(Axis::new(2, true).source_index(), 2);
    assert_eq!(Axis::new(7, false).source_index(), 2);
}

#[test]
fn slot_zero_id_is_never_pinned() {
    let cfg = Config::default();
    assert_eq!(cfg.slot_for_controller(0), None);
}

#[test]
fn assignment_past_last_slot_changes_nothing() {
    let mut cfg = Config::default();
    cfg.assign_controller_to_slot(5, 2);
    let before = cfg;
    cfg.assign_controller_to_slot(9, 4);
    assert_eq!(cfg, before);
    assert_eq!(cfg.slot_for_controller(5), Some(2));
}

#[test]
fn pinning_replaces_the_previous_owner_of_a_slot() {
    let mut cfg = Config::default();
    cfg.assign_controller_to_slot(1, 3);
    cfg.assign_controller_to_slot(2, 3);
    assert_eq!(cfg.slot_for_controller(1), None);
    assert_eq!(cfg.slot_for_controller(2), Some(3));
    assert_eq!(cfg.slot_assignments, [0, 0, 0, 2]);
}

#[test]
fn install_then_snapshot_reads_back_and_moves_generation() {
    let mut live = LiveConfig::new();
    assert_eq!(generation(&live), 0);
    let mut cfg = Config::default();
    cfg.port = 12345;
    install(&mut live, cfg);
    assert_eq!(snapshot(&live), cfg);
    assert_eq!(generation(&live), 1);
    install(&mut live, Config::default());
    assert_eq!(snapshot(&live).port, 26760);
    assert_eq!(generation(&live), 2);
}

#[test]
fn generation_moves_by_one_per_install_and_wraps() {
    let mut live = LiveConfig::new();
    let g0 = generation(&live);
    for _ in 0..5 {
        install(&mut live, Config::default());
    }
    assert_eq!(generation(&live), g0.wrapping_add(5));
    let mut at_max = LiveConfig { config: Config::default(), generation: u64::MAX };
    install(&mut at_max, Config::default());
    assert_eq!(generation(&at_max), 0);
}
