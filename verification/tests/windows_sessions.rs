use mixolume::level::Level;
use mixolume::session::{AppSession, DuckingSettings, MixerError, OutputDevice};
use mixolume::windows::{
    pid_from_session_id, session_id_for, MemberVolume, WindowsMixerBackend,
};
use mixolume::windows_capture::{
    capture_action, frames_of, hardcoded_capture_format, packet_plan, CaptureAction,
    CaptureFormat, PacketPlan, Sample, WaveFormat, WAVE_FORMAT_PCM,
};
use mixolume::windows_controls::{
    balance_reading, enumerate_session_controls_by_pid, finish_routing, is_shown,
    resolve_process_info, resolve_session_control, session_state_rank, BalanceReading,
    ControlReading, ProcessControls, ProgramFile, SessionCandidate, SESSION_ACTIVE, SESSION_EXPIRED,
    SESSION_INACTIVE,
};
use mixolume::windows_listing::{ListedSessions, RawSession, SessionReading};
use mixolume::windows_routing::{
    get_session_output_device, list_output_devices, policy_config_variant,
    render_device_interface_path, requested_device, set_session_output_device, EndpointRole,
    FoundDevice, PolicyConfigFactory, PolicyConfigVariant, ENDPOINT_ROLES, WINDOWS_21H2_BUILD,
};

fn level(v: f32) -> Level {
    Level { bits: v.to_bits() }
}

fn text(s: &str) -> String {
    s.to_string()
}

#[test]
fn session_id_round_trips_through_pid_parsing() {
    assert_eq!(pid_from_session_id(&session_id_for(1234)), Some(1234));
}

#[test]
fn pid_from_session_id_rejects_foreign_ids() {
    assert_eq!(pid_from_session_id("linux-7"), None);
    assert_eq!(pid_from_session_id("win-not-a-number"), None);
}

#[test]
fn session_ids_are_read_as_numbers_are() {
    assert_eq!(session_id_for(0), "win-0");
    assert_eq!(session_id_for(u32::MAX), "win-4294967295");
    assert_eq!(pid_from_session_id("win-4294967295"), Some(u32::MAX));
    assert_eq!(pid_from_session_id("win-4294967296"), None);
    assert_eq!(pid_from_session_id("win-+7"), Some(7));
    assert_eq!(pid_from_session_id("win-007"), Some(7));
    assert_eq!(pid_from_session_id("win-"), None);
    assert_eq!(pid_from_session_id("win-+"), None);
    assert_eq!(pid_from_session_id("win-group-7"), None);
}

fn format(channels: u16, bytes_per_sample: u16, is_float: bool) -> CaptureFormat {
    CaptureFormat {
        channels,
        sample_rate: 48_000,
        bytes_per_sample,
        is_float,
    }
}

/// The frames as mono, each one the average of its channels.
fn bytes_to_mono_f32(data: &[u8], format: CaptureFormat) -> Vec<f32> {
    frames_of(data, format)
        .iter()
        .map(|frame| {
            let sum: f32 = frame
                .iter()
                .map(|sample| match sample {
                    Sample::Float(level) => f32::from_bits(level.bits),
                    Sample::Int16(n) => *n as f32 / i16::MAX as f32,
                    Sample::Int32(n) => *n as f32 / i32::MAX as f32,
                    Sample::Silence => 0.0,
                })
                .sum();
            sum / frame.len() as f32
        })
        .collect()
}

#[test]
fn converts_mono_i16_pcm() {
    let samples: [i16; 3] = [0, i16::MAX, i16::MIN];
    let bytes: Vec<u8> = samples.iter().flat_map(|s| s.to_le_bytes()).collect();
    let out = bytes_to_mono_f32(&bytes, format(1, 2, false));
    assert_eq!(out.len(), 3);
    assert!((out[0] - 0.0).abs() < 1e-6);
    assert!((out[1] - 1.0).abs() < 1e-4);
    assert!(out[2] < -0.99);
}

#[test]
fn downmixes_stereo_by_averaging_channels() {
    let mut bytes = Vec::new();
    bytes.extend_from_slice(&i16::MAX.to_le_bytes());
    bytes.extend_from_slice(&0i16.to_le_bytes());
    let out = bytes_to_mono_f32(&bytes, format(2, 2, false));
    assert_eq!(out.len(), 1);
    assert!((out[0] - 0.5).abs() < 0.01);
}

#[test]
fn converts_ieee_float_passthrough() {
    let samples: [f32; 2] = [0.25, -0.5];
    let bytes: Vec<u8> = samples.iter().flat_map(|s| s.to_le_bytes()).collect();
    let out = bytes_to_mono_f32(&bytes, format(1, 4, true));
    assert_eq!(out, vec![0.25, -0.5]);
}

#[test]
fn unsupported_bit_depth_yields_silence_not_garbage_or_panic() {
    let bytes = vec![0xFFu8, 0x7Fu8];
    let out = bytes_to_mono_f32(&bytes, format(1, 1, false));
    assert_eq!(out, vec![0.0, 0.0]);
}

#[test]
fn empty_or_undersized_input_yields_no_samples() {
    assert!(bytes_to_mono_f32(&[], format(1, 2, false)).is_empty());
    assert!(bytes_to_mono_f32(&[0x12], format(1, 2, false)).is_empty());
}

#[test]
fn samples_are_read_in_every_understood_width() {
    let bytes: Vec<u8> = (-5i32).to_le_bytes().to_vec();
    assert_eq!(frames_of(&bytes, format(1, 4, false)), vec![vec![Sample::Int32(-5)]]);
    assert_eq!(
        frames_of(&bytes, format(2, 2, false)),
        vec![vec![Sample::Int16(-5), Sample::Int16(-1)]]
    );
    assert_eq!(frames_of(&bytes, format(1, 2, true)), vec![vec![Sample::Silence]; 2]);
    assert_eq!(frames_of(&bytes, format(0, 4, false)).len(), 1, "no channel counts as one");
    assert!(frames_of(&bytes, format(1, 0, false)).is_empty());
    assert_eq!(frames_of(&bytes[..3], format(1, 2, false)).len(), 1, "what is left is dropped");
}

#[test]
fn everything_is_captured_in_one_format() {
    let (wave, capture) = hardcoded_capture_format();
    assert_eq!(
        wave,
        WaveFormat {
            format_tag: WAVE_FORMAT_PCM,
            channels: 2,
            samples_per_second: 44_100,
            average_bytes_per_second: 176_400,
            block_align: 4,
            bits_per_sample: 16,
            extra_size: 0,
        }
    );
    assert_eq!(WAVE_FORMAT_PCM, 1);
    assert_eq!(
        capture,
        CaptureFormat { channels: 2, sample_rate: 44_100, bytes_per_sample: 2, is_float: false }
    );
}

#[test]
fn a_silent_packet_is_silence() {
    let f = format(2, 2, false);
    assert_eq!(packet_plan(0, true, 10, f), PacketPlan::Decode(40));
    assert_eq!(packet_plan(2, true, 10, f), PacketPlan::Silence(10));
    assert_eq!(packet_plan(3, true, 10, f), PacketPlan::Silence(10));
    assert_eq!(packet_plan(1, true, 10, f), PacketPlan::Decode(40));
    assert_eq!(packet_plan(0, false, 10, f), PacketPlan::Silence(10));
    assert_eq!(packet_plan(0, true, 0, f), PacketPlan::Silence(0));
    assert_eq!(capture_action(true, 5), CaptureAction::Stop);
    assert_eq!(capture_action(false, 0), CaptureAction::Sleep);
    assert_eq!(capture_action(false, 5), CaptureAction::Read);
}

#[test]
fn windows_10_below_21h2_uses_downlevel_variant() {
    assert_eq!(policy_config_variant(19041), PolicyConfigVariant::Downlevel);
    assert_eq!(
        policy_config_variant(WINDOWS_21H2_BUILD - 1),
        PolicyConfigVariant::Downlevel
    );
}

#[test]
fn windows_10_21h2_and_later_use_modern_variant() {
    assert_eq!(
        policy_config_variant(WINDOWS_21H2_BUILD),
        PolicyConfigVariant::Modern
    );
    assert_eq!(policy_config_variant(26100), PolicyConfigVariant::Modern);
}

#[test]
fn builds_the_confirmed_working_path_format() {
    let path =
        render_device_interface_path("{0.0.0.00000000}.{af71ede6-3095-4d76-b139-366aa8e4c2d7}");
    assert_eq!(
        path,
        "\\\\?\\SWD#MMDEVAPI#{0.0.0.00000000}.{af71ede6-3095-4d76-b139-366aa8e4c2d7}#{e6327cad-dcec-4949-ae8a-991e976a79d2}"
    );
}

#[test]
fn covers_both_console_and_multimedia_roles() {
    assert!(ENDPOINT_ROLES.contains(&EndpointRole::Console));
    assert!(ENDPOINT_ROLES.contains(&EndpointRole::Multimedia));
    assert_eq!(ENDPOINT_ROLES.len(), 2);
}

#[test]
fn routing_fails_with_the_first_failure() {
    let factory = PolicyConfigFactory::activate(22000);
    assert_eq!(factory.variant, PolicyConfigVariant::Modern);
    assert!(set_session_output_device(&factory, &vec![Ok(()), Ok(())]).is_ok());
    assert_eq!(
        set_session_output_device(&factory, &vec![Ok(()), Err(text("b"))]),
        Err(MixerError::Platform(text("b")))
    );
    assert_eq!(
        factory.set(&vec![Err(text("a")), Err(text("b"))]),
        Err(MixerError::Platform(text("a")))
    );
}

#[test]
fn a_route_is_read_under_the_first_role_that_has_one() {
    let factory = PolicyConfigFactory::activate(19041);
    let read = |a: Result<&str, &str>, b: Result<&str, &str>| {
        let own = |r: Result<&str, &str>| r.map(text).map_err(text);
        get_session_output_device(&factory, &vec![own(a), own(b)])
    };
    assert_eq!(read(Ok("x"), Ok("y")), Some(text("x")));
    assert_eq!(read(Ok(""), Ok("y")), Some(text("y")));
    assert_eq!(read(Err("e"), Ok("y")), Some(text("y")));
    assert_eq!(read(Err("e"), Ok("")), None);
    assert_eq!(factory.get(&vec![]), Ok(text("")));
    assert_eq!(requested_device(&None), "");
    assert_eq!(requested_device(&Some(text("d"))), "d");
}

#[test]
fn devices_without_an_id_or_a_name_are_not_offered() {
    let found = |id: Option<&str>, name: Option<&str>| FoundDevice {
        mmdevice_id: id.map(text),
        friendly_name: name.map(text),
    };
    let devices = list_output_devices(&vec![
        found(Some("a"), Some("Speakers")),
        found(None, Some("Ghost")),
        found(Some("b"), None),
    ]);
    assert_eq!(
        devices,
        vec![OutputDevice { id: render_device_interface_path("a"), name: text("Speakers") }]
    );
}

#[test]
fn controls_are_grouped_by_process() {
    let control = |pid: u32| ControlReading { pid, is_system_sounds: false, state: SESSION_INACTIVE };
    let controls = [7, 0, 9, 7, 0, 7].map(control).to_vec();
    let mut groups = enumerate_session_controls_by_pid(&controls);
    groups.sort_by_key(|g| g.pid);
    assert_eq!(
        groups,
        vec![
            ProcessControls { pid: 7, controls: vec![0, 3, 5] },
            ProcessControls { pid: 9, controls: vec![2] },
        ]
    );
}

#[test]
fn expired_and_system_sounds_controls_are_left_out() {
    let control = |pid: u32, is_system_sounds: bool, state: i32| ControlReading {
        pid,
        is_system_sounds,
        state,
    };
    let controls = vec![
        control(7, false, SESSION_EXPIRED),
        control(7, false, SESSION_ACTIVE),
        control(9, true, SESSION_ACTIVE),
        control(11, false, SESSION_EXPIRED),
        control(7, true, SESSION_ACTIVE),
        control(7, false, SESSION_INACTIVE),
    ];
    assert_eq!(
        enumerate_session_controls_by_pid(&controls),
        vec![ProcessControls { pid: 7, controls: vec![1, 5] }]
    );
}

#[test]
fn the_control_on_the_routed_device_is_used() {
    let candidate = |device: &str, state: i32| SessionCandidate {
        device: text(device),
        rank: session_state_rank(state),
    };
    let candidates = vec![
        candidate("speakers", SESSION_ACTIVE),
        candidate("headphones", SESSION_INACTIVE),
        candidate("hdmi", SESSION_ACTIVE),
        candidate("headphones", SESSION_ACTIVE),
        candidate("speakers", SESSION_INACTIVE),
    ];
    assert_eq!(resolve_session_control(&candidates, &Some(text("headphones"))), Some(1));
    assert_eq!(resolve_session_control(&candidates, &Some(text("gone"))), Some(3));
    assert_eq!(resolve_session_control(&candidates, &None), Some(3));
    assert_eq!(resolve_session_control(&vec![], &None), None);
    assert_eq!(session_state_rank(SESSION_ACTIVE), 2);
    assert_eq!(session_state_rank(SESSION_INACTIVE), 1);
    assert_eq!(session_state_rank(SESSION_EXPIRED), 0);
    assert_eq!(session_state_rank(99), 0);
}

#[test]
fn some_sessions_are_never_shown() {
    assert!(is_shown(5, 6, false, SESSION_INACTIVE));
    assert!(!is_shown(6, 6, false, SESSION_ACTIVE));
    assert!(!is_shown(0, 6, false, SESSION_ACTIVE));
    assert!(!is_shown(5, 6, true, SESSION_ACTIVE));
    assert!(!is_shown(5, 6, false, SESSION_EXPIRED));
}

#[test]
fn a_process_is_named_after_its_program() {
    assert_eq!(resolve_process_info(3, None), (text("PID 3"), None));
    let file = |stem: Option<&str>| ProgramFile { stem: stem.map(text), icon_png: Some(vec![1]) };
    assert_eq!(resolve_process_info(3, Some(file(Some("chrome")))), (text("chrome"), Some(vec![1])));
    assert_eq!(resolve_process_info(3, Some(file(None))), (text("PID 3"), Some(vec![1])));
}

#[test]
fn balances_follow_from_channel_volumes() {
    let reading = |l: f32, r: f32| balance_reading(level(l), level(r));
    assert_eq!(reading(0.5, 1.0), BalanceReading::TowardRight);
    assert_eq!(reading(1.0, 1.0), BalanceReading::TowardRight);
    assert_eq!(reading(1.0, 0.5), BalanceReading::TowardLeft);
    assert_eq!(reading(0.0, 0.0), BalanceReading::Centered);
    assert_eq!(reading(-1.0, -2.0), BalanceReading::Centered);
}

fn raw(pid: u32, name: &str, live: f32) -> RawSession {
    RawSession {
        pid,
        live_volume: level(live),
        muted: false,
        balance: level(0.0),
        is_active: true,
        display_name: text(name),
        icon_png: None,
    }
}

fn reading(raw: RawSession) -> SessionReading {
    SessionReading { raw, routed_device: None }
}

fn ducking_backend(triggers: &[&str]) -> WindowsMixerBackend {
    let mut settings = DuckingSettings::default();
    settings.enabled = true;
    settings.priority_triggers = triggers.iter().map(|t| text(t)).collect();
    WindowsMixerBackend::new(settings)
}

fn look(
    backend: &mut WindowsMixerBackend,
    raws: Vec<RawSession>,
    triggering: &[&str],
) -> ListedSessions {
    backend.begin_listing(&raws);
    let triggering = triggering.iter().map(|t| text(t)).collect();
    backend.finish_listing(raws.into_iter().map(reading).collect(), &triggering)
}

fn names(sessions: &[AppSession]) -> Vec<&str> {
    sessions.iter().map(|s| s.display_name.as_str()).collect()
}

#[test]
fn sessions_of_one_name_share_a_row() {
    let mut backend = WindowsMixerBackend::new(DuckingSettings::default());
    let mut second = raw(9, "chrome", 0.3);
    second.icon_png = Some(vec![5]);
    let mut first = raw(4, "chrome", 0.8);
    first.is_active = false;
    let listed = look(&mut backend, vec![raw(7, "vlc", 1.0), second, first], &[]);
    assert_eq!(names(&listed.sessions), vec!["chrome", "vlc"]);
    let row = &listed.sessions[0];
    assert_eq!(row.id, "win-group-4");
    assert_eq!(row.volume, level(0.8), "the lowest process stands for the row");
    assert_eq!(row.icon_png, Some(vec![5]));
    assert!(row.is_active);
    assert_eq!(backend.resolve_member_pids("win-group-4"), Ok(vec![4, 9]));
    assert_eq!(backend.resolve_member_pids("win-7"), Ok(vec![7]));
    assert_eq!(
        backend.resolve_member_pids("win-group-9"),
        Err(MixerError::SessionNotFound(text("win-group-9")))
    );
}

#[test]
fn a_volume_set_for_a_row_is_shown_for_it() {
    let mut backend = WindowsMixerBackend::new(DuckingSettings::default());
    look(&mut backend, vec![raw(4, "chrome", 1.0), raw(9, "chrome", 1.0)], &[]);
    let writes = backend.set_volume("win-group-4", level(1.7)).unwrap();
    let write = |pid: u32| MemberVolume { pid, volume: level(1.0) };
    assert_eq!(writes, vec![write(4), write(9)]);
    backend.set_volume("win-group-4", level(0.25)).unwrap();
    assert_eq!(backend.finish_change("win-group-4", true), Ok(1));
    let row = look(&mut backend, vec![raw(4, "chrome", 1.0), raw(9, "chrome", 1.0)], &[])
        .sessions
        .remove(0);
    assert_eq!(row.volume, level(0.25));
    assert_eq!(row.write_generation, 1);
    assert_eq!(
        backend.set_volume("nothing", level(0.5)),
        Err(MixerError::SessionNotFound(text("nothing")))
    );
    assert_eq!(
        backend.finish_change("win-4", false),
        Err(MixerError::SessionNotFound(text("win-4")))
    );
}

#[test]
fn ducking_is_written_once_and_undone_at_its_end() {
    let mut backend = ducking_backend(&["zoom"]);
    let both = || vec![raw(1, "zoom", 1.0), raw(2, "music", 0.5)];
    assert!(look(&mut backend, both(), &[]).volume_writes.is_empty());
    assert!(backend.captures.contains("win-1") && !backend.captures.contains("win-2"));

    let listed = look(&mut backend, both(), &["win-1"]);
    assert_eq!(listed.volume_writes, vec![(text("win-2"), level(0.11))]);
    assert_eq!(names(&listed.sessions), vec!["music", "zoom"]);
    assert!(listed.sessions[0].is_ducked && !listed.sessions[0].is_duck_trigger);
    assert!(listed.sessions[1].is_duck_trigger && !listed.sessions[1].is_ducked);
    assert_eq!(listed.sessions[0].volume, level(0.5), "what the user set");
    assert_eq!(listed.sessions[0].effective_volume, level(0.11), "what is heard");

    let ducked = || vec![raw(1, "zoom", 1.0), raw(2, "music", 0.11)];
    assert!(look(&mut backend, ducked(), &["win-1"]).volume_writes.is_empty());
    assert_eq!(
        backend.set_volume("win-2", level(0.4)).unwrap(),
        vec![MemberVolume { pid: 2, volume: level(0.4 * 0.22) }],
        "a ducked process stays ducked"
    );
    let listed = look(&mut backend, ducked(), &[]);
    assert_eq!(listed.volume_writes, vec![(text("win-2"), level(0.4))]);
}

#[test]
fn nothing_is_listened_to_while_ducking_is_off() {
    let mut backend = ducking_backend(&["zoom"]);
    look(&mut backend, vec![raw(1, "zoom", 1.0), raw(2, "music", 1.0)], &["win-1"]);
    assert!(!backend.set_ducking_enabled(false));
    let listed = look(
        &mut backend,
        vec![raw(1, "zoom", 1.0), raw(2, "music", 1.0)],
        &["win-1"],
    );
    assert_eq!(backend.captures.len(), 0);
    assert!(listed.sessions.iter().all(|s| !s.is_ducked));
    assert_eq!(listed.volume_writes, vec![(text("win-2"), level(1.0))]);
}

#[test]
fn gone_sessions_leave_nothing_behind() {
    let mut backend = ducking_backend(&["zoom"]);
    look(&mut backend, vec![raw(1, "zoom", 1.0), raw(2, "music", 1.0)], &["win-1"]);
    assert!(backend.target_volume.contains("win-2") && backend.applied_ducked.contains("win-2"));
    look(&mut backend, vec![raw(1, "zoom", 1.0)], &["win-1"]);
    assert!(!backend.target_volume.contains("win-2"));
    assert!(!backend.applied_ducked.contains("win-2"));
    assert!(!backend.output_device_raw.contains("win-2"));
    assert!(!backend.output_device_confirmed.contains("win-2"));
}

#[test]
fn ending_the_program_undoes_ducking() {
    let mut backend = ducking_backend(&["zoom"]);
    look(&mut backend, vec![raw(1, "zoom", 1.0), raw(2, "music", 0.5)], &["win-1"]);
    assert_eq!(backend.shutdown(), vec![(text("win-2"), level(0.5))]);
    assert_eq!(backend.captures.len(), 0);
}

#[test]
fn the_icon_of_a_trigger_is_kept() {
    let mut backend = ducking_backend(&["zoom"]);
    let with_icon = |name: &str, icon: Vec<u8>| {
        let mut session = raw(1, name, 1.0);
        session.icon_png = Some(icon);
        session
    };
    assert!(!look(&mut backend, vec![with_icon("vlc", vec![1])], &[]).settings_changed);
    let mut quiet = with_icon("zoom", vec![2]);
    quiet.is_active = false;
    assert!(!look(&mut backend, vec![quiet], &[]).settings_changed, "it is not active yet");
    assert!(look(&mut backend, vec![with_icon("zoom", vec![2])], &[]).settings_changed);
    assert!(!look(&mut backend, vec![with_icon("zoom", vec![2])], &[]).settings_changed);
    assert!(!look(&mut backend, vec![with_icon("zoom", vec![0; 65_537])], &[]).settings_changed);
    let settings = backend.get_ducking_settings();
    assert_eq!(settings.priority_trigger_icons.get("zoom"), Some(&vec![2]));
    assert!(settings.priority_trigger_icons.get("vlc").is_none());
}

#[test]
fn a_single_odd_reading_of_a_device_is_not_shown() {
    let mut backend = WindowsMixerBackend::new(DuckingSettings::default());
    let a = Some(text("a"));
    let b = Some(text("b"));
    assert_eq!(backend.debounce_output_device("win-1", &a), a, "the first is shown");
    assert_eq!(backend.debounce_output_device("win-1", &b), a);
    assert_eq!(backend.debounce_output_device("win-1", &a), a);
    assert_eq!(backend.debounce_output_device("win-1", &None), a);
    assert_eq!(backend.debounce_output_device("win-1", &None), None, "it came twice");
}

#[test]
fn sessions_on_a_device_that_is_gone_are_routed_back() {
    let mut backend = WindowsMixerBackend::new(DuckingSettings::default());
    backend.debounce_output_device("win-1", &Some(text("usb")));
    backend.debounce_output_device("win-2", &Some(text("speakers")));
    backend.debounce_output_device("win-3", &None);
    backend.debounce_output_device("other", &Some(text("usb")));
    let devices = vec![OutputDevice { id: text("speakers"), name: text("Speakers") }];
    assert_eq!(backend.stale_output_pids(&devices), vec![1]);
}

#[test]
fn routing_needs_a_session_and_a_way() {
    let backend = WindowsMixerBackend::new(DuckingSettings::default());
    assert_eq!(backend.begin_routing("win-5", true), Ok(vec![5]));
    assert_eq!(
        backend.begin_routing("x", false),
        Err(MixerError::SessionNotFound(text("x")))
    );
    assert_eq!(
        backend.begin_routing("win-5", false),
        Err(MixerError::Platform(text("failed to activate IAudioPolicyConfigFactory")))
    );
    assert!(finish_routing(true).is_ok());
    assert_eq!(
        finish_routing(false),
        Err(MixerError::Platform(text("failed to set output device for any member")))
    );
}

#[test]
fn the_settings_of_a_windows_backend_can_be_changed() {
    let mut backend = WindowsMixerBackend::new(DuckingSettings::default());
    assert!(backend.set_ducking_enabled(true));
    backend.seed_triggers(&vec![text("Slack"), text("Discord")]);
    backend.set_duck_trigger_priority("Game", true);
    assert_eq!(
        backend.get_ducking_settings().priority_triggers,
        vec!["Discord", "Slack", "Game"]
    );
    assert_eq!(backend.bump_generation("win-1"), 1);
    assert_eq!(backend.bump_generation("win-1"), 2);
}
