use mixolume::level::Level;
use mixolume::linux::{
    extract_first_percentage, parse_property_line, parse_sink_inputs, run_pactl,
    LinuxMixerBackend, PactlOutcome,
};
use mixolume::session::{mixer_error_to_string, AppSession, MixerError};

const SINGLE_SINK_INPUT: &str = "Sink Input #123
\tDriver: protocol-native.c
\tOwner Module: 7
\tClient: 34
\tSink: 0
\tSample Specification: s16le 2ch 44100Hz
\tChannel Map: front-left,front-right
\tFormat: pcm
\tCorked: no
\tMute: no
\tVolume: front-left: 65536 / 100% / 0.00 dB,   front-right: 65536 / 100% / 0.00 dB
\t        balance 0.00
\tBuffer Latency: 19312 usec
\tSink Latency: 19921 usec
\tResample method: soxr-mq
\tProperties:
\t\tmedia.name = \"Playback\"
\t\tapplication.name = \"Firefox\"
\t\tapplication.icon_name = \"firefox\"
\t\tapplication.process.id = \"5678\"
\t\tapplication.process.binary = \"firefox\"
";

const TWO_SINK_INPUTS: &str = "Sink Input #10
\tDriver: protocol-native.c
\tCorked: no
\tMute: no
\tVolume: front-left: 45875 / 70% / -7.00 dB,   front-right: 45875 / 70% / -7.00 dB
\tProperties:
\t\tapplication.name = \"Spotify\"
\t\tapplication.process.binary = \"spotify\"

Sink Input #11
\tDriver: protocol-native.c
\tCorked: no
\tMute: no
\tVolume: front-left: 65536 / 100% / 0.00 dB,   front-right: 65536 / 100% / 0.00 dB
\tProperties:
\t\tapplication.name = \"Discord\"
\t\tapplication.process.binary = \"discord\"
";

const MUTED_SINK_INPUT: &str = "Sink Input #42
\tDriver: protocol-native.c
\tCorked: no
\tMute: yes
\tVolume: front-left: 32768 / 50% / -18.06 dB,   front-right: 32768 / 50% / -18.06 dB
\tProperties:
\t\tapplication.name = \"Chromium\"
\t\tapplication.process.binary = \"chromium\"
";

const CORKED_SINK_INPUT: &str = "Sink Input #7
\tDriver: protocol-native.c
\tCorked: yes
\tMute: no
\tVolume: front-left: 65536 / 100% / 0.00 dB,   front-right: 65536 / 100% / 0.00 dB
\tProperties:
\t\tapplication.name = \"VLC media player\"
\t\tapplication.process.binary = \"vlc\"
";

const MISSING_APPLICATION_NAME: &str = "Sink Input #99
\tDriver: protocol-native.c
\tCorked: no
\tMute: no
\tVolume: front-left: 65536 / 100% / 0.00 dB,   front-right: 65536 / 100% / 0.00 dB
\tProperties:
\t\tmedia.name = \"playback\"
\t\tapplication.process.binary = \"some-daemon\"
";

const MISSING_ALL_NAME_HINTS: &str = "Sink Input #100
\tDriver: protocol-native.c
\tCorked: no
\tMute: no
\tVolume: front-left: 65536 / 100% / 0.00 dB,   front-right: 65536 / 100% / 0.00 dB
\tProperties:
\t\tmedia.name = \"playback\"
";

/// The sessions in the output, with the percentages made into fractions.
fn sessions_in(output: &str) -> Vec<AppSession> {
    shown_by(&LinuxMixerBackend::new(), output)
}

fn shown_by(backend: &LinuxMixerBackend, output: &str) -> Vec<AppSession> {
    parse_sink_inputs(output)
        .iter()
        .map(|sink| {
            let fraction = match &sink.percent {
                Some(percent) => percent.parse::<f32>().unwrap() / 100.0,
                None => 0.0,
            };
            backend.sink_input_session(sink, level(fraction))
        })
        .collect()
}

fn level(value: f32) -> Level {
    Level { bits: value.to_bits() }
}

fn value(level: Level) -> f32 {
    f32::from_bits(level.bits)
}

fn chars(text: &str) -> Vec<char> {
    text.chars().collect()
}

#[test]
fn parses_single_sink_input() {
    let sessions = sessions_in(SINGLE_SINK_INPUT);
    assert_eq!(sessions.len(), 1);
    let session = &sessions[0];
    assert_eq!(session.id, "123");
    assert_eq!(session.display_name, "Firefox");
    assert_eq!(value(session.volume), 1.0);
    assert!(!session.muted);
    assert!(session.is_active);
    assert!(session.icon_png.is_none());
}

#[test]
fn parses_multiple_sink_inputs() {
    let sessions = sessions_in(TWO_SINK_INPUTS);
    assert_eq!(sessions.len(), 2);

    assert_eq!(sessions[0].id, "10");
    assert_eq!(sessions[0].display_name, "Spotify");
    assert!((value(sessions[0].volume) - 0.70).abs() < 0.001);

    assert_eq!(sessions[1].id, "11");
    assert_eq!(sessions[1].display_name, "Discord");
    assert_eq!(value(sessions[1].volume), 1.0);
}

#[test]
fn parses_muted_sink_input() {
    let sessions = sessions_in(MUTED_SINK_INPUT);
    assert_eq!(sessions.len(), 1);
    assert!(sessions[0].muted);
    assert!((value(sessions[0].volume) - 0.50).abs() < 0.001);
}

#[test]
fn parses_corked_sink_input_as_inactive() {
    let sessions = sessions_in(CORKED_SINK_INPUT);
    assert_eq!(sessions.len(), 1);
    assert!(!sessions[0].is_active);
    assert_eq!(sessions[0].display_name, "VLC media player");
}

#[test]
fn falls_back_to_process_binary_when_application_name_missing() {
    let sessions = sessions_in(MISSING_APPLICATION_NAME);
    assert_eq!(sessions.len(), 1);
    assert_eq!(sessions[0].display_name, "some-daemon");
}

#[test]
fn falls_back_to_sink_input_id_when_no_name_hints_present() {
    let sessions = sessions_in(MISSING_ALL_NAME_HINTS);
    assert_eq!(sessions.len(), 1);
    assert_eq!(sessions[0].display_name, "100");
}

#[test]
fn empty_output_yields_no_sessions() {
    assert!(sessions_in("").is_empty());
}

#[test]
fn extract_first_percentage_reads_leading_volume_percentage() {
    let line = " front-left: 65536 / 100% / 0.00 dB,   front-right: 65536 / 100% / 0.00 dB";
    let percent: String = extract_first_percentage(&chars(line)).unwrap().iter().collect();
    assert_eq!(percent.parse::<f32>().ok(), Some(100.0));
}

#[test]
fn parse_property_line_reads_quoted_key_value() {
    assert_eq!(
        parse_property_line("application.name = \"Firefox\""),
        Some(("application.name".to_string(), "Firefox".to_string()))
    );
}

#[test]
fn the_first_number_with_a_percent_sign_counts() {
    assert_eq!(extract_first_percentage(&chars("no sign 50")), None);
    assert_eq!(extract_first_percentage(&chars("% 50%")), Some(chars("50")));
    assert_eq!(extract_first_percentage(&chars("loud% .% 40% 50%")), Some(chars("40")));
    assert_eq!(extract_first_percentage(&chars("1.2.3%")), None);
    assert_eq!(extract_first_percentage(&chars("loud .%")), None);
    assert_eq!(extract_first_percentage(&chars("é12.5% 30%")), Some(chars("12.5")));
    assert_eq!(extract_first_percentage(&chars("7%")), Some(chars("7")));
}

#[test]
fn a_property_value_may_hold_anything() {
    assert_eq!(
        parse_property_line("a = \"b = \\\"c\\\"\""),
        Some(("a".to_string(), "b = \\\"c\\\"".to_string()))
    );
    assert_eq!(
        parse_property_line("  key = \"\"  "),
        Some(("key".to_string(), "".to_string()))
    );
    assert_eq!(parse_property_line("key = \""), None);
    assert_eq!(parse_property_line("key = value"), None);
    assert_eq!(parse_property_line("key=\"value\""), None);
}

#[test]
fn one_sink_input_per_header_in_order() {
    let sinks = parse_sink_inputs("noise\n  Sink Input #3 \r\nSink Input #1\nSink Input #3\n");
    let ids: Vec<&str> = sinks.iter().map(|s| s.id.as_str()).collect();
    assert_eq!(ids, vec!["3", "1", "3"]);
    assert!(sinks.iter().all(|s| s.percent.is_none() && !s.muted && s.is_active));
    assert_eq!(value(sessions_in("Sink Input #1")[0].volume), 1.0);
}

#[test]
fn lines_after_properties_only_add_properties() {
    let output = "Sink Input #1\nMute: yes\nProperties:\nMute: no\nVolume: 5%\nCorked: yes\n";
    let sinks = parse_sink_inputs(output);
    assert!(sinks[0].muted && sinks[0].is_active);
    assert_eq!(sinks[0].percent, None);
}

#[test]
fn a_volume_above_full_scale_is_shown_as_full() {
    let output = "Sink Input #1\nVolume: front-left: 98304 / 150% / 10.57 dB\n";
    assert_eq!(value(sessions_in(output)[0].volume), 1.0);
    assert_eq!(value(sessions_in(output)[0].effective_volume), 1.0);
}

#[test]
fn commands_name_the_sink_input() {
    let backend = LinuxMixerBackend::new();
    let volume_of = |volume: f32| backend.set_volume("12", level(volume))[2].clone();
    assert_eq!(
        backend.set_volume("12", level(0.7)),
        vec!["set-sink-input-volume", "12", "70%"]
    );
    assert_eq!(volume_of(0.125), "13%", "a half is rounded up");
    assert_eq!(volume_of(0.004), "0%");
    assert_eq!(volume_of(1.7), "100%");
    assert_eq!(volume_of(-0.5), "0%");
    assert_eq!(volume_of(f32::NAN), "0%");
    assert_eq!(backend.set_muted("12", true), vec!["set-sink-input-mute", "12", "1"]);
    assert_eq!(backend.set_muted("12", false), vec!["set-sink-input-mute", "12", "0"]);
}

#[test]
fn a_failed_command_tells_why() {
    let args = LinuxMixerBackend::new().set_muted("12", true);
    assert!(run_pactl(&args, "12", &PactlOutcome::Succeeded(String::new())).is_ok());
    assert_eq!(
        run_pactl(&args, "12", &PactlOutcome::Failed("Failure: No such entity\n".to_string())),
        Err(MixerError::SessionNotFound("12".to_string()))
    );
    assert_eq!(
        run_pactl(&args, "12", &PactlOutcome::Failed(" Connection refused\n".to_string())),
        Err(MixerError::Platform(
            "pactl set-sink-input-mute 12 1 failed: Connection refused".to_string()
        ))
    );
    let error =
        run_pactl(&args, "12", &PactlOutcome::NotStarted("not found".to_string())).unwrap_err();
    assert_eq!(
        mixer_error_to_string(&error),
        "platform audio API error: failed to spawn pactl: not found"
    );
}

#[test]
fn a_failed_listing_tells_why() {
    let backend = LinuxMixerBackend::new();
    assert_eq!(
        backend.list_sessions(&PactlOutcome::Failed("No PulseAudio daemon\n".to_string())),
        Err(MixerError::Platform(
            "pactl list sink-inputs failed: No PulseAudio daemon".to_string()
        ))
    );
    assert_eq!(
        backend.list_sessions(&PactlOutcome::NotStarted("gone".to_string())),
        Err(MixerError::Platform("failed to spawn pactl: gone".to_string()))
    );
    let sinks = backend
        .list_sessions(&PactlOutcome::Succeeded(TWO_SINK_INPUTS.to_string()))
        .unwrap();
    assert_eq!(sinks.len(), 2);
}

#[test]
fn changes_of_a_sink_input_count_if_they_succeed() {
    let mut backend = LinuxMixerBackend::default();
    let args = backend.set_volume("10", level(0.5));
    let done = PactlOutcome::Succeeded(String::new());
    assert_eq!(backend.finish_change(&args, "10", &done), Ok(1));
    assert_eq!(backend.finish_change(&args, "10", &done), Ok(2));
    assert_eq!(backend.finish_change(&args, "11", &done), Ok(1));
    let failed = PactlOutcome::Failed("No such entity".to_string());
    assert_eq!(
        backend.finish_change(&args, "10", &failed),
        Err(MixerError::SessionNotFound("10".to_string()))
    );
    let sessions = shown_by(&backend, TWO_SINK_INPUTS);
    assert_eq!((sessions[0].write_generation, sessions[1].write_generation), (2, 1));
}
