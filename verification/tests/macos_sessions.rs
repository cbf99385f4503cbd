use mixolume::duck_detect::PersistedDuckState;
use mixolume::level::Level;
use mixolume::macos::{
    AudioProcessInfo, EngineAction, MacosMixerBackend, RebuildOutcome, RebuildPlan,
    ACTIVE_HOLD_NANOS,
};
use mixolume::macos_apps::{
    app_display_name, list_audio_processes, list_running_applications, walk_step, FoundApp,
    ProcessRead, WalkStep, MAX_PARENT_WALK_DEPTH,
};
use mixolume::macos_device::{
    build_aggregate_description, check_status, created_tap, require_permission, require_taps,
    tap_name, uuid_v4_ish, PermissionGate,
};
use mixolume::macos_listing::{without_own, MacosListing, ProcessReading};
use mixolume::session::{DuckingSettings, MixerError};

const SECOND: u64 = 1_000_000_000;

fn level(v: f32) -> Level {
    Level { bits: v.to_bits() }
}

fn process(pid: i32, is_running_output: bool) -> AudioProcessInfo {
    AudioProcessInfo { object_id: 1000 + pid as u32, pid, bundle_id: None, is_running_output }
}

fn backend() -> MacosMixerBackend {
    let mut settings = DuckingSettings::default();
    settings.enabled = true;
    settings.priority_triggers.push("Zoom".to_string());
    MacosMixerBackend::new(settings)
}

fn talking() -> PersistedDuckState {
    PersistedDuckState { speech_run: 60, silence_run: 0, is_triggering: true }
}

fn rebuild(action: EngineAction) -> RebuildPlan {
    match action {
        EngineAction::Rebuild(plan) => plan,
        other => panic!("expected a rebuild, got {other:?}"),
    }
}

fn list(
    backend: &mut MacosMixerBackend,
    processes: &[AudioProcessInfo],
    states: &[PersistedDuckState],
) -> MacosListing {
    let readings = processes
        .iter()
        .map(|p| ProcessReading { process: p.clone(), hidden: false })
        .collect();
    backend.list_sessions(&readings, &states.to_vec())
}

/// Runs the engine for the given processes.
fn start(backend: &mut MacosMixerBackend, processes: &Vec<AudioProcessInfo>, now: u64) {
    backend.note_running(processes, now);
    let plan = rebuild(backend.reconcile_engine(processes, now, &vec![]));
    assert!(matches!(backend.finish_rebuild(&plan, true), RebuildOutcome::Installed(_)));
}

#[test]
fn an_engine_is_built_once_for_the_same_processes() {
    let mut backend = backend();
    let processes = vec![process(1, true), process(2, false), process(3, true)];
    backend.note_running(&processes, SECOND);
    let plan = rebuild(backend.reconcile_engine(&processes, SECOND, &vec![]));
    let tapped: Vec<&str> = plan.taps.iter().map(|t| t.session_id.as_str()).collect();
    assert_eq!(tapped, vec!["macos-1", "macos-3"]);
    assert_eq!(plan.taps[1].object_id, 1003);
    assert!(plan.taps.iter().all(|t| t.excluded), "no name is known yet");

    let action = backend.reconcile_engine(&processes, SECOND, &vec![]);
    assert_eq!(action, EngineAction::Keep, "a rebuild is under way");
    assert!(matches!(backend.finish_rebuild(&plan, true), RebuildOutcome::Installed(_)));
    let action = backend.reconcile_engine(&processes, SECOND, &vec![]);
    assert_eq!(action, EngineAction::Keep, "it is the right one");
}

#[test]
fn a_process_stays_tapped_through_a_short_dropout() {
    let mut backend = backend();
    start(&mut backend, &vec![process(1, true)], SECOND);
    let quiet = vec![process(1, false)];
    let last = SECOND + ACTIVE_HOLD_NANOS - 1;
    assert_eq!(backend.reconcile_engine(&quiet, last, &vec![]), EngineAction::Keep);
    assert_eq!(backend.reconcile_engine(&quiet, last + 1, &vec![]), EngineAction::TearDown);
    assert_eq!(backend.reconcile_engine(&quiet, last + 2, &vec![]), EngineAction::Keep);
}

#[test]
fn what_is_set_during_a_rebuild_reaches_the_new_engine() {
    let mut backend = backend();
    let processes = vec![process(1, true), process(2, true)];
    backend.note_running(&processes, SECOND);
    let plan = rebuild(backend.reconcile_engine(&processes, SECOND, &vec![]));
    let change = backend.set_volume("macos-2", level(0.25)).unwrap();
    assert_eq!(change.generation, 1);
    assert_eq!(change.slot, None, "no engine runs yet");
    match backend.finish_rebuild(&plan, true) {
        RebuildOutcome::Installed(updates) => {
            assert_eq!(updates.len(), 2);
            assert_eq!(updates[1].0, 1);
            assert_eq!(updates[1].1.volume, level(0.25));
        }
        other => panic!("{other:?}"),
    }
    assert_eq!(backend.set_muted("macos-2", true).unwrap().slot, Some(1));
}

#[test]
fn a_superseded_rebuild_is_dropped_and_a_failed_one_can_be_retried() {
    let mut backend = backend();
    let processes = vec![process(1, true)];
    backend.note_running(&processes, SECOND);
    let first = rebuild(backend.reconcile_engine(&processes, SECOND, &vec![]));
    assert_eq!(backend.finish_rebuild(&first, false), RebuildOutcome::Failed);
    let second = rebuild(backend.reconcile_engine(&processes, SECOND, &vec![]));
    assert_eq!(backend.finish_rebuild(&first, true), RebuildOutcome::Superseded);
    assert!(matches!(backend.finish_rebuild(&second, true), RebuildOutcome::Installed(_)));
}

#[test]
fn detectors_go_on_where_they_were_before_a_rebuild() {
    let mut backend = backend();
    start(&mut backend, &vec![process(1, true)], SECOND);
    let more = vec![process(1, true), process(2, true)];
    backend.note_running(&more, SECOND);
    let plan = rebuild(backend.reconcile_engine(&more, SECOND, &vec![talking()]));
    assert_eq!(plan.taps[0].persisted, talking());
    assert_eq!(plan.taps[1].persisted, PersistedDuckState::default());

    let rows = list(&mut backend, &more, &[]).sessions;
    assert!(rows[0].is_duck_trigger, "still shown to talk while the engine is rebuilt");
    assert!(rows[1].is_ducked);
}

#[test]
fn a_trigger_is_let_in_once_its_name_is_known() {
    let mut backend = backend();
    let processes = vec![process(7, true)];
    start(&mut backend, &processes, SECOND);
    let listing = list(&mut backend, &processes, &[PersistedDuckState::default()]);
    assert_eq!(listing.to_resolve, vec![(7, None)]);
    assert_eq!(listing.sessions[0].display_name, "pid 7");
    let again = list(&mut backend, &processes, &[PersistedDuckState::default()]);
    assert!(again.to_resolve.is_empty(), "it is being looked for already");

    backend.app_info_resolved(7, "Zoom".to_string(), Some(vec![1]));
    backend.app_info_resolved(7, "Other".to_string(), None);
    backend.app_info_resolved(8, "Gone".to_string(), None);
    let plan = rebuild(backend.reconcile_engine(&processes, SECOND, &vec![talking()]));
    assert!(!plan.taps[0].excluded);
    let quiet = vec![process(7, false)];
    assert!(!list(&mut backend, &quiet, &[]).settings_changed, "it makes no sound right now");
    let listing = list(&mut backend, &processes, &[]);
    let row = &listing.sessions[0];
    assert_eq!((row.display_name.as_str(), row.icon_png.clone()), ("Zoom", Some(vec![1])));
    assert!(listing.settings_changed, "its icon is kept");
    let settings = backend.get_ducking_settings();
    assert_eq!(settings.priority_trigger_icons.get("Zoom"), Some(&vec![1]));
    assert!(!list(&mut backend, &processes, &[]).settings_changed);
}

#[test]
fn rows_show_what_is_set_and_who_is_ducked() {
    let mut backend = backend();
    let processes = vec![process(1, true), process(2, true), process(3, false)];
    start(&mut backend, &processes, SECOND);
    backend.set_volume("macos-2", level(0.5)).unwrap();
    backend.set_balance("macos-2", level(-3.0)).unwrap();
    let states = [talking(), PersistedDuckState::default()];
    let rows = list(&mut backend, &processes, &states).sessions;
    assert_eq!(rows.len(), 2, "a process that never made sound has no row");
    assert!(rows[0].is_duck_trigger && !rows[0].is_ducked);
    assert_eq!(rows[0].effective_volume, rows[0].volume);
    assert!(rows[1].is_ducked && !rows[1].is_duck_trigger);
    assert_eq!(rows[1].volume, level(0.5));
    assert_eq!(rows[1].effective_volume, level(0.11));
    assert_eq!(rows[1].balance, level(-1.0));
    assert_eq!(rows[1].write_generation, 2);

    backend.set_ducking_enabled(false);
    let rows = list(&mut backend, &processes, &states).sessions;
    assert!(rows.iter().all(|r| !r.is_ducked && !r.is_duck_trigger));
}

#[test]
fn hidden_processes_are_not_shown_and_gone_ones_are_forgotten() {
    let mut backend = backend();
    let processes = vec![process(1, true), process(2, true)];
    start(&mut backend, &processes, SECOND);
    let readings = processes
        .iter()
        .map(|p| ProcessReading { process: p.clone(), hidden: p.pid == 1 })
        .collect();
    let rows = backend.list_sessions(&readings, &vec![]).sessions;
    assert_eq!(rows.len(), 1);
    assert_eq!(rows[0].id, "macos-2");
    backend.set_volume("macos-1", level(0.1)).unwrap();

    list(&mut backend, &[process(2, true)], &[]);
    assert_eq!(
        backend.set_volume("macos-1", level(0.1)),
        Err(MixerError::SessionNotFound("macos-1".to_string()))
    );
    assert_eq!(
        backend.set_muted("nobody", true),
        Err(MixerError::SessionNotFound("nobody".to_string()))
    );
    assert!(backend.set_balance("macos-9", level(0.0)).is_err());
}

#[test]
fn hidden_processes_are_told_by_their_bundle_ids() {
    let mut backend = backend();
    let mut daemon = process(0, true);
    daemon.bundle_id = Some("com.apple.mediaremoted".to_string());
    assert_eq!(backend.hidden_flags(&vec![daemon, process(-1, true)]), vec![true, false]);
    assert_eq!(backend.hidden_flags(&vec![process(0, true)]), vec![true], "remembered");
}

#[test]
fn this_program_is_not_listed() {
    let processes = vec![process(4, true), process(5, true), process(4, false)];
    assert_eq!(without_own(&processes, 4), vec![process(5, true)]);
}

#[test]
fn the_settings_of_a_macos_backend_can_be_changed() {
    let mut backend = MacosMixerBackend::new(DuckingSettings::default());
    assert_eq!(backend.max_volume_percent(), 150);
    assert!(backend.set_ducking_enabled(true));
    backend.seed_triggers(&vec!["FaceTime".to_string(), "Finder".to_string()]);
    backend.set_duck_trigger_priority("Music", true);
    let settings = backend.get_ducking_settings();
    assert!(settings.enabled);
    assert_eq!(settings.priority_triggers, vec!["FaceTime", "Music"]);
    backend.set_duck_trigger_priority("FaceTime", false);
    assert_eq!(backend.get_ducking_settings().priority_triggers, vec!["Music"]);
}

#[test]
fn shutting_down_takes_the_engine_down() {
    let mut backend = backend();
    start(&mut backend, &vec![process(1, true)], SECOND);
    backend.shutdown();
    assert_eq!(backend.set_volume("macos-1", level(1.0)).unwrap().slot, None);
}

#[test]
fn processes_that_went_away_are_left_out() {
    let read = |pid: Option<i32>, running: Option<u32>, bundle: Option<&str>| ProcessRead {
        object_id: 9,
        pid,
        is_running_output: running,
        bundle_id: bundle.map(|b| b.to_string()),
    };
    let found = list_audio_processes(&vec![
        read(Some(1), Some(1), Some("a.b")),
        read(None, Some(1), None),
        read(Some(2), None, Some("")),
        read(Some(3), Some(0), None),
    ]);
    let pids: Vec<i32> = found.iter().map(|p| p.pid).collect();
    assert_eq!(pids, vec![1, 2, 3]);
    assert!(found[0].is_running_output && !found[1].is_running_output);
    assert_eq!(found[0].bundle_id.as_deref(), Some("a.b"));
    assert_eq!(found[1].bundle_id, None);
}

#[test]
fn ordinary_applications_are_listed_by_name() {
    let app = |is_regular: bool, pid: i32, name: Option<&str>| FoundApp {
        is_regular,
        pid,
        name: name.map(|n| n.to_string()),
    };
    let apps = list_running_applications(
        &vec![
            app(true, 1, Some("Zoom")),
            app(false, 2, Some("Helper")),
            app(true, 3, None),
            app(true, 4, Some("")),
            app(true, 5, Some("MiXolume")),
            app(true, 6, Some("Music")),
        ],
        5,
    );
    let names: Vec<&str> = apps.iter().map(|a| a.name.as_str()).collect();
    assert_eq!(names, vec!["Zoom", "Music"]);
}

#[test]
fn a_helper_is_named_after_its_nearest_named_ancestor() {
    assert_eq!(walk_step(0, 50, true, None), WalkStep::Found);
    assert_eq!(walk_step(0, 50, false, Some(40)), WalkStep::Ask(40));
    assert_eq!(walk_step(0, 50, false, None), WalkStep::GiveUp);
    assert_eq!(walk_step(0, 50, false, Some(1)), WalkStep::GiveUp);
    assert_eq!(walk_step(0, 50, false, Some(50)), WalkStep::GiveUp);
    assert_eq!(walk_step(MAX_PARENT_WALK_DEPTH - 1, 50, false, Some(40)), WalkStep::GiveUp);
    assert_eq!(app_display_name(&Some("Zoom".to_string()), &None, 3), "Zoom");
    assert_eq!(app_display_name(&Some("".to_string()), &Some("a.b".to_string()), 3), "a.b");
    assert_eq!(app_display_name(&None, &None, -3), "pid -3");
}

#[test]
fn a_status_other_than_zero_is_an_error() {
    assert!(check_status(0, "AudioDeviceStart").is_ok());
    assert_eq!(
        check_status(-50, "AudioDeviceStart"),
        Err(MixerError::Platform("AudioDeviceStart failed with OSStatus -50".to_string()))
    );
    assert_eq!(created_tap(0, 77, "x"), Ok(77));
    assert_eq!(
        created_tap(3, 77, "x"),
        Err(MixerError::Platform(
            "AudioHardwareCreateProcessTap failed with OSStatus 3".to_string()
        ))
    );
    assert_eq!(
        created_tap(0, 0, "macos-1"),
        Err(MixerError::Platform(
            "AudioHardwareCreateProcessTap returned kAudioObjectUnknown for macos-1".to_string()
        ))
    );
    assert_eq!(tap_name("macos-1"), "MiXolume.macos-1");
}

#[test]
fn an_aggregate_device_holds_every_tap() {
    let uids = vec![Some("t1".to_string()), Some("t2".to_string())];
    let description = build_aggregate_description("speakers", &uids, 0xabc).unwrap();
    assert_eq!(description.uid, "com.mixolume.aggregate.abc");
    assert_eq!(description.main_sub_device, "speakers");
    assert_eq!(description.sub_devices, vec!["speakers"]);
    assert!(description.is_private && !description.is_stacked && description.tap_autostart);
    let taps: Vec<&str> = description.taps.iter().map(|t| t.uid.as_str()).collect();
    assert_eq!(taps, vec!["t1", "t2"]);
    assert!(description.taps.iter().all(|t| t.drift_compensation));
    assert_eq!(
        build_aggregate_description("speakers", &vec![None], 1),
        Err(MixerError::Platform(
            "tap has no kAudioTapPropertyUID -- cannot add it to the aggregate".to_string()
        ))
    );
    assert_eq!(uuid_v4_ish(0), "0");
    assert_eq!(uuid_v4_ish(u128::MAX), "ffffffffffffffffffffffffffffffff");
}

#[test]
fn permission_is_asked_for_once() {
    let mut gate = PermissionGate::new();
    assert!(!gate.ensure_granted(true));
    assert!(gate.ensure_granted(false));
    assert!(!gate.ensure_granted(false));
    assert!(require_permission(true).is_ok());
    assert!(require_permission(false).is_err());
    assert!(require_taps(1).is_ok());
    assert_eq!(
        require_taps(0),
        Err(MixerError::Platform("TapEngine::new called with no active processes".to_string()))
    );
}
