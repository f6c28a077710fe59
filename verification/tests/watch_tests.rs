use edit_roblox_model::session::exit_code;
use edit_roblox_model::session::format_of;
use edit_roblox_model::session::AssetFormat;
use edit_roblox_model::session::UnsupportedFormat;
use edit_roblox_model::watch::quiet_until;
use edit_roblox_model::watch::step;
use edit_roblox_model::watch::time_left;
use edit_roblox_model::watch::WatchAction;
use edit_roblox_model::watch::WatchEvent;
use edit_roblox_model::watch::WatchState;
use edit_roblox_model::watch::DEBOUNCE_MS;

fn run(mut state: WatchState, events: &[WatchEvent]) -> (WatchState, Vec<WatchAction>) {
    let mut actions = Vec::new();
    for event in events {
        let (next, action) = step(state, *event, DEBOUNCE_MS);
        state = next;
        actions.push(action);
    }
    (state, actions)
}

#[test]
fn the_quiet_period_is_200_ms() {
    assert_eq!(DEBOUNCE_MS, 200);
    assert_eq!(quiet_until(120, DEBOUNCE_MS), 320);
    assert_eq!(quiet_until(u64::MAX - 5, DEBOUNCE_MS), u64::MAX);
    assert_eq!(quiet_until(u64::MAX - 200, 200), u64::MAX);
    assert_eq!(quiet_until(7, 0), 7);
}

#[test]
fn a_burst_of_writes_is_one_rebuild() {
    let (state, actions) = run(
        WatchState::Idle,
        &[
            WatchEvent::Write { at: 0 },
            WatchEvent::Tick { now: 10 },
            WatchEvent::Write { at: 50 },
            WatchEvent::Tick { now: 100 },
            WatchEvent::Write { at: 120 },
            WatchEvent::Tick { now: 200 },
            WatchEvent::Tick { now: 250 },
            WatchEvent::Tick { now: 319 },
        ],
    );
    assert_eq!(state, WatchState::Pending { deadline: 320 });
    assert!(actions.iter().all(|a| *a == WatchAction::Nothing));
    let (state, action) = step(state, WatchEvent::Tick { now: 320 }, DEBOUNCE_MS);
    assert_eq!((state, action), (WatchState::Idle, WatchAction::Rebuild));
    let (state, action) = step(state, WatchEvent::Tick { now: 600 }, DEBOUNCE_MS);
    assert_eq!((state, action), (WatchState::Idle, WatchAction::Nothing));
}

#[test]
fn the_first_writes_of_a_burst_set_off_nothing() {
    let (state, actions) = run(
        WatchState::Idle,
        &[WatchEvent::Write { at: 0 }, WatchEvent::Write { at: 50 }, WatchEvent::Tick { now: 249 }],
    );
    assert_eq!(state, WatchState::Pending { deadline: 250 });
    assert_eq!(actions, vec![WatchAction::Nothing; 3]);
}

#[test]
fn a_write_restarts_the_quiet_period() {
    let (state, action) = step(WatchState::Idle, WatchEvent::Write { at: 1000 }, DEBOUNCE_MS);
    assert_eq!((state, action), (WatchState::Pending { deadline: 1200 }, WatchAction::Nothing));
    let (state, action) = step(state, WatchEvent::Write { at: 1199 }, DEBOUNCE_MS);
    assert_eq!((state, action), (WatchState::Pending { deadline: 1399 }, WatchAction::Nothing));
}

#[test]
fn a_write_after_the_quiet_period_starts_the_next_save() {
    let state = WatchState::Pending { deadline: 200 };
    let (state, action) = step(state, WatchEvent::Write { at: 200 }, DEBOUNCE_MS);
    assert_eq!((state, action), (WatchState::Pending { deadline: 400 }, WatchAction::Rebuild));
}

#[test]
fn a_failed_rebuild_leaves_the_loop_watching() {
    let (state, actions) = run(
        WatchState::Idle,
        &[
            WatchEvent::Write { at: 0 },
            WatchEvent::Tick { now: 200 },
            WatchEvent::Rebuilt { ok: false },
        ],
    );
    assert_eq!(state, WatchState::Idle);
    assert_eq!(actions, vec![WatchAction::Nothing, WatchAction::Rebuild, WatchAction::Report]);
    let (state, actions) = run(
        state,
        &[
            WatchEvent::Write { at: 1000 },
            WatchEvent::Tick { now: 1200 },
            WatchEvent::Rebuilt { ok: true },
        ],
    );
    assert_eq!(state, WatchState::Idle);
    assert_eq!(actions, vec![WatchAction::Nothing, WatchAction::Rebuild, WatchAction::Nothing]);
}

#[test]
fn the_end_of_a_rebuild_keeps_a_waiting_write() {
    let state = WatchState::Pending { deadline: 900 };
    assert_eq!(
        step(state, WatchEvent::Rebuilt { ok: false }, DEBOUNCE_MS),
        (state, WatchAction::Report)
    );
    assert_eq!(
        step(state, WatchEvent::Rebuilt { ok: true }, DEBOUNCE_MS),
        (state, WatchAction::Nothing)
    );
}

#[test]
fn other_events_are_ignored() {
    assert_eq!(
        step(WatchState::Idle, WatchEvent::Other, DEBOUNCE_MS),
        (WatchState::Idle, WatchAction::Nothing)
    );
    let state = WatchState::Pending { deadline: 300 };
    assert_eq!(step(state, WatchEvent::Other, DEBOUNCE_MS), (state, WatchAction::Nothing));
    assert_eq!(
        step(WatchState::Idle, WatchEvent::Tick { now: 5 }, DEBOUNCE_MS),
        (WatchState::Idle, WatchAction::Nothing)
    );
}

#[test]
fn stop_ends_the_loop_for_good() {
    assert_eq!(
        step(WatchState::Idle, WatchEvent::Stop, DEBOUNCE_MS),
        (WatchState::Stopped, WatchAction::Nothing)
    );
    assert_eq!(
        step(WatchState::Pending { deadline: 300 }, WatchEvent::Stop, DEBOUNCE_MS),
        (WatchState::Stopped, WatchAction::Nothing)
    );
    let (state, actions) = run(
        WatchState::Stopped,
        &[
            WatchEvent::Write { at: 0 },
            WatchEvent::Tick { now: 500 },
            WatchEvent::Rebuilt { ok: false },
            WatchEvent::Other,
            WatchEvent::Stop,
        ],
    );
    assert_eq!(state, WatchState::Stopped);
    assert_eq!(actions, vec![WatchAction::Nothing; 5]);
}

#[test]
fn time_left_is_the_rest_of_the_quiet_period() {
    assert_eq!(time_left(WatchState::Pending { deadline: 320 }, 120), Some(200));
    assert_eq!(time_left(WatchState::Pending { deadline: 320 }, 320), Some(0));
    assert_eq!(time_left(WatchState::Pending { deadline: 320 }, 400), Some(0));
    assert_eq!(time_left(WatchState::Idle, 10), None);
    assert_eq!(time_left(WatchState::Stopped, 10), None);
}

#[test]
fn the_extension_decides_the_format() {
    assert_eq!(format_of(Some("rbxm")), Ok(AssetFormat::Binary));
    assert_eq!(format_of(Some("rbxmx")), Ok(AssetFormat::Xml));
    assert_eq!(format_of(Some("rbxl")), Err(UnsupportedFormat));
    assert_eq!(format_of(Some("RBXM")), Err(UnsupportedFormat));
    assert_eq!(format_of(Some("")), Err(UnsupportedFormat));
    assert_eq!(format_of(Some("rbxmxx")), Err(UnsupportedFormat));
    assert_eq!(format_of(None), Err(UnsupportedFormat));
}

#[test]
fn the_exit_code_is_0_or_1() {
    assert_eq!(exit_code(true), 0);
    assert_eq!(exit_code(false), 1);
}
