use sc2dsu::config::Config;
use sc2dsu::controllers::{
    desired_slot_assignments, parse_args_from, record_read, retry_delay_secs,
    sync_slot_assignments, Mode, OpenRetries, PollAction, ReadOutcome, ReadTracker,
};
use sc2dsu::stats::ControllerInfo;
use sc2dsu::triton::DeviceEvent;

fn parse(args: &[&str]) -> Mode {
    let owned: Vec<String> = args.iter().map(|s| (*s).to_string()).collect();
    parse_args_from(&owned)
}

#[test]
fn parse_args_defaults_to_visible_gui() {
    assert_eq!(
        parse(&[]),
        Mode::Gui {
            start_minimized: false
        }
    );
    assert_eq!(
        parse(&["some-positional-arg"]),
        Mode::Gui {
            start_minimized: false
        }
    );
}

#[test]
fn parse_args_recognizes_each_mode() {
    assert_eq!(parse(&["--probe"]), Mode::Probe);
    assert_eq!(parse(&["-p"]), Mode::Probe);
    assert_eq!(parse(&["--headless"]), Mode::Headless);
    assert_eq!(parse(&["-H"]), Mode::Headless);
    assert_eq!(
        parse(&["--gui"]),
        Mode::Gui {
            start_minimized: false
        }
    );
    assert_eq!(
        parse(&["--tray"]),
        Mode::Gui {
            start_minimized: true
        }
    );
    assert_eq!(
        parse(&["--minimized"]),
        Mode::Gui {
            start_minimized: true
        }
    );
}

#[test]
fn parse_args_uses_first_recognized_flag() {
    assert_eq!(
        parse(&["--gui", "--probe"]),
        Mode::Gui {
            start_minimized: false
        }
    );
}

#[test]
fn parse_args_skips_unknown_arguments_before_a_flag() {
    assert_eq!(parse(&["x", "--headless", "--probe"]), Mode::Headless);
}

#[test]
fn unpinned_controllers_take_slots_in_discovery_order() {
    let cfg = Config::default();
    let desired = desired_slot_assignments(&[11, 22, 33, 44, 55], &cfg);
    assert_eq!(desired, vec![Some(0), Some(1), Some(2), Some(3), None]);
}

#[test]
fn pinned_controllers_claim_their_slot_first() {
    let mut cfg = Config::default();
    cfg.assign_controller_to_slot(33, 0);
    cfg.assign_controller_to_slot(11, 2);
    let desired = desired_slot_assignments(&[11, 22, 33, 44], &cfg);
    assert_eq!(desired, vec![Some(2), Some(1), Some(0), Some(3)]);
}

#[test]
fn a_slot_pinned_twice_goes_to_the_first_controller() {
    let mut cfg = Config::default();
    cfg.assign_controller_to_slot(7, 1);
    let desired = desired_slot_assignments(&[7, 7, 8], &cfg);
    assert_eq!(desired, vec![Some(1), Some(0), Some(2)]);
}

#[test]
fn sync_emits_disconnect_then_connect_for_moved_controllers() {
    let a = ControllerInfo { id: 1, name: "a", transport: "USB" };
    let b = ControllerInfo { id: 2, name: "b", transport: "USB" };
    let mut slots = vec![Some(0), None];
    let events = sync_slot_assignments(&mut slots, &[a, b], &[Some(1), Some(0)]);
    assert_eq!(slots, vec![Some(1), Some(0)]);
    assert_eq!(events.len(), 3);
    assert!(matches!(events[0], DeviceEvent::Disconnected { slot: 0 }));
    assert!(matches!(events[1], DeviceEvent::Connected { slot: 1, controller } if controller == a));
    assert!(matches!(events[2], DeviceEvent::Connected { slot: 0, controller } if controller == b));
    let again = sync_slot_assignments(&mut slots, &[a, b], &[Some(1), Some(0)]);
    assert!(again.is_empty());
}

#[test]
fn fresh_samples_are_forwarded_and_repeats_are_not() {
    let mut t = ReadTracker::new(0);
    let first = record_read(&mut t, ReadOutcome::Sample { timestamp_us: 10 }, 5);
    assert_eq!(first, PollAction { forward: true, reopen: false });
    let repeat = record_read(&mut t, ReadOutcome::Sample { timestamp_us: 10 }, 6);
    assert_eq!(repeat, PollAction { forward: false, reopen: false });
    assert_eq!(t.stale_samples, 1);
    let next = record_read(&mut t, ReadOutcome::Sample { timestamp_us: 11 }, 7);
    assert_eq!(next, PollAction { forward: true, reopen: false });
    assert_eq!(t.stale_samples, 0);
}

#[test]
fn hundredth_frozen_sample_reopens() {
    let mut t = ReadTracker::new(0);
    record_read(&mut t, ReadOutcome::Sample { timestamp_us: 1 }, 0);
    for _ in 0..99 {
        let a = record_read(&mut t, ReadOutcome::Sample { timestamp_us: 1 }, 0);
        assert!(!a.reopen && !a.forward);
    }
    let a = record_read(&mut t, ReadOutcome::Sample { timestamp_us: 1 }, 0);
    assert!(a.reopen);
}

#[test]
fn fifth_consecutive_error_reopens() {
    let mut t = ReadTracker::new(0);
    for _ in 0..4 {
        assert!(!record_read(&mut t, ReadOutcome::Error, 0).reopen);
    }
    assert!(record_read(&mut t, ReadOutcome::Error, 0).reopen);
}

#[test]
fn an_empty_read_clears_errors_and_silence_reopens() {
    let mut t = ReadTracker::new(1000);
    record_read(&mut t, ReadOutcome::Error, 1000);
    assert!(!record_read(&mut t, ReadOutcome::Nothing, 2999).reopen);
    assert_eq!(t.consecutive_errors, 0);
    assert!(record_read(&mut t, ReadOutcome::Nothing, 3000).reopen);
}

#[test]
fn retry_delay_doubles_up_to_a_minute() {
    let delays: Vec<u64> = (1..=9).map(retry_delay_secs).collect();
    assert_eq!(delays, vec![1, 2, 4, 8, 16, 32, 60, 60, 60]);
    assert_eq!(retry_delay_secs(0), 1);
}

#[test]
fn open_retries_back_off_and_forget() {
    let mut r = OpenRetries::new();
    let a: &[u8] = b"/dev/hidraw1";
    let b: &[u8] = b"/dev/hidraw2";
    assert!(r.may_try(a, 0));
    assert_eq!(r.record_failure(a, 0), 1);
    assert!(!r.may_try(a, 999));
    assert!(r.may_try(a, 1000));
    assert_eq!(r.record_failure(a, 1000), 2);
    assert_eq!(r.attempts(a), 2);
    assert!(!r.may_try(a, 2999));
    assert_eq!(r.record_failure(b, 0), 1);
    r.retain_present(&[b.to_vec()]);
    assert_eq!(r.attempts(a), 0);
    assert_eq!(r.attempts(b), 1);
    r.record_success(b);
    assert_eq!(r.attempts(b), 0);
    r.record_failure(a, 0);
    r.clear();
    assert!(r.may_try(a, 0));
}

#[test]
fn disconnect_events_release_each_routed_slot_in_order() {
    let events = sc2dsu::controllers::disconnect_events(&[Some(2), None, Some(0)]);
    assert_eq!(events.len(), 2);
    assert!(matches!(events[0], DeviceEvent::Disconnected { slot: 2 }));
    assert!(matches!(events[1], DeviceEvent::Disconnected { slot: 0 }));
    assert!(sc2dsu::controllers::disconnect_events(&[None, None]).is_empty());
}

#[test]
fn back_off_waits_the_kth_delay_after_the_kth_failure() {
    let mut r = OpenRetries::new();
    let p: &[u8] = b"/dev/hidraw7";
    let mut t = 0u64;
    for (k, delay) in [1u64, 2, 4, 8, 16, 32, 60, 60].iter().enumerate() {
        assert!(r.may_try(p, t));
        assert_eq!(r.record_failure(p, t), *delay);
        assert_eq!(r.attempts(p), k as u32 + 1);
        assert!(!r.may_try(p, t + delay * 1000 - 1));
        t += delay * 1000;
    }
    r.record_success(p);
    assert!(r.may_try(p, 0));
    assert_eq!(r.record_failure(p, 0), 1);
}
