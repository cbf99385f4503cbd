use mixolume::level::{Level, BOOST_BITS};
use mixolume::mock::MockMixerBackend;
use mixolume::session::{
    clamp_balance, clamp_boosted_volume, clamp_volume, mixer_error_to_string,
    seed_priority_apps_from_well_known, set_enabled, settings_file_is_readable,
    seed_communication_apps, toggle_priority_trigger, AppSession, DuckingSettings, MixerError,
    OutputRoutingSettings, MAX_SETTINGS_FILE_BYTES,
};

fn level(v: f32) -> Level {
    Level { bits: v.to_bits() }
}

fn value(level: Level) -> f32 {
    f32::from_bits(level.bits)
}

fn names(names: &[&str]) -> Vec<String> {
    names.iter().map(|n| n.to_string()).collect()
}

fn sample_session(id: &str) -> AppSession {
    AppSession {
        id: id.to_string(),
        display_name: format!("App {id}"),
        icon_png: None,
        volume: level(0.5),
        effective_volume: level(0.5),
        muted: false,
        balance: level(0.0),
        is_active: true,
        is_duck_trigger: false,
        is_ducked: false,
        write_generation: 0,
        output_device_id: None,
    }
}

#[test]
fn clamp_volume_clamps_below_zero() {
    assert_eq!(value(clamp_volume(level(-0.5))), 0.0);
}

#[test]
fn clamp_volume_clamps_above_one() {
    assert_eq!(value(clamp_volume(level(1.5))), 1.0);
}

#[test]
fn clamp_volume_passes_through_valid_range() {
    assert_eq!(value(clamp_volume(level(0.42))), 0.42);
}

#[test]
fn clamp_boosted_volume_clamps_below_zero() {
    assert_eq!(value(clamp_boosted_volume(level(-0.5))), 0.0);
}

#[test]
fn clamp_boosted_volume_allows_past_unity() {
    assert_eq!(value(clamp_boosted_volume(level(1.5))), 1.5);
}

#[test]
fn clamp_boosted_volume_clamps_above_ceiling() {
    assert_eq!(clamp_boosted_volume(level(5.0)), Level { bits: BOOST_BITS });
    assert_eq!(f32::from_bits(BOOST_BITS), 1.5);
}

#[test]
fn clamping_agrees_with_the_floating_point_one() {
    let values = [
        f32::NEG_INFINITY, -2.0, -1.0, -0.5, -f32::MIN_POSITIVE, -0.0, 0.0, f32::MIN_POSITIVE,
        0.3, 1.0, 1.25, 1.5, 1.6, f32::MAX, f32::INFINITY,
    ];
    for v in values {
        assert_eq!(clamp_volume(level(v)), level(v.clamp(0.0, 1.0)));
        assert_eq!(clamp_boosted_volume(level(v)), level(v.clamp(0.0, 1.5)));
        assert_eq!(clamp_balance(level(v)), level(v.clamp(-1.0, 1.0)));
        for w in values {
            assert_eq!(level(v).is_less(level(w)), v < w);
            assert_eq!(level(v).is_same(level(w)), v == w);
        }
        assert!(!level(v).is_same(level(f32::NAN)) && !level(v).is_less(level(f32::NAN)));
    }
    assert!(value(clamp_volume(level(f32::NAN))).is_nan());
    assert!(level(f32::NAN).not_a_number() && level(-f32::NAN).not_a_number());
}

#[test]
fn set_volume_clamps_out_of_range_input() {
    let mut backend = MockMixerBackend::new(vec![sample_session("1")]);
    backend.set_volume("1", level(3.0)).unwrap();
    assert_eq!(value(backend.list_sessions().unwrap()[0].volume), 1.0);
}

#[test]
fn set_volume_on_unknown_session_errors() {
    let mut backend = MockMixerBackend::new(vec![sample_session("1")]);
    let err = backend.set_volume("missing", level(0.5)).unwrap_err();
    assert!(matches!(err, MixerError::SessionNotFound(id) if id == "missing"));
}

#[test]
fn set_muted_toggles_flag() {
    let mut backend = MockMixerBackend::new(vec![sample_session("1")]);
    backend.set_muted("1", true).unwrap();
    assert!(backend.list_sessions().unwrap()[0].muted);
}

#[test]
fn a_remembered_session_is_changed_and_no_other() {
    let mut backend = MockMixerBackend::new(vec![sample_session("1"), sample_session("2")]);
    backend.set_volume("2", level(0.25)).unwrap();
    let sessions = backend.list_sessions().unwrap();
    assert_eq!(sessions[0], sample_session("1"));
    assert_eq!(value(sessions[1].volume), 0.25);
    assert!(backend.set_muted("3", true).is_err());
}

#[test]
fn defaults_to_empty_when_nothing_persisted() {
    assert!(OutputRoutingSettings::default().by_app_name.len() == 0);
}

#[test]
fn ducking_settings_start_out_off_and_empty() {
    let settings = DuckingSettings::default();
    assert!(!settings.enabled);
    assert!(settings.priority_triggers.is_empty());
    assert_eq!(settings.priority_trigger_icons.len(), 0);
}

#[test]
fn a_trigger_is_listed_once_and_leaves_nothing_behind() {
    let mut settings = DuckingSettings::default();
    toggle_priority_trigger(&mut settings, "Zoom", true);
    toggle_priority_trigger(&mut settings, "Slack", true);
    toggle_priority_trigger(&mut settings, "Zoom", true);
    assert_eq!(settings.priority_triggers, names(&["Zoom", "Slack"]));
    settings.priority_trigger_icons.insert("Zoom", vec![1]);
    settings.priority_trigger_icons.insert("Slack", vec![2]);
    let copy = settings.clone();
    toggle_priority_trigger(&mut settings, "Zoom", false);
    assert_eq!(settings.priority_triggers, names(&["Slack"]));
    assert!(settings.priority_trigger_icons.get("Zoom").is_none());
    assert_eq!(settings.priority_trigger_icons.get("Slack"), Some(&vec![2]));
    toggle_priority_trigger(&mut settings, "Zoom", false);
    assert_eq!(settings.priority_triggers, names(&["Slack"]));
    assert_eq!(copy.priority_triggers, names(&["Zoom", "Slack"]));
    assert_eq!(copy.priority_trigger_icons.get("Zoom"), Some(&vec![1]));
}

#[test]
fn well_known_applications_are_taken_in_their_own_order() {
    let mut triggers = names(&["Mine"]);
    seed_priority_apps_from_well_known(
        &mut triggers,
        &["Zoom", "Discord", "Slack"],
        &names(&["Slack", "Finder", "Zoom"]),
    );
    assert_eq!(triggers, names(&["Mine", "Zoom", "Slack"]));
}

#[test]
fn turning_ducking_on_for_the_first_time_looks_for_triggers() {
    let mut settings = DuckingSettings::default();
    assert!(!set_enabled(&mut settings, false));
    assert!(set_enabled(&mut settings, true));
    assert!(!set_enabled(&mut settings, true), "it was on already");
    seed_communication_apps(&mut settings, &names(&["Telegram", "Music", "Discord"]));
    assert_eq!(settings.priority_triggers, names(&["Discord", "Telegram"]));
    set_enabled(&mut settings, false);
    assert!(!set_enabled(&mut settings, true), "there are triggers already");
}

#[test]
fn an_oversized_settings_file_is_not_read() {
    assert!(settings_file_is_readable(0));
    assert!(settings_file_is_readable(MAX_SETTINGS_FILE_BYTES));
    assert!(!settings_file_is_readable(MAX_SETTINGS_FILE_BYTES + 1));
    assert_eq!(MAX_SETTINGS_FILE_BYTES, 8 * 1024 * 1024);
}

#[test]
fn errors_have_messages() {
    assert_eq!(
        mixer_error_to_string(&MixerError::SessionNotFound("win-7".to_string())),
        "no session found with id win-7"
    );
    assert_eq!(
        mixer_error_to_string(&MixerError::Platform("broken".to_string())),
        "platform audio API error: broken"
    );
}
