use mixolume::duck_detect::{
    DuckingRuntime, HysteresisCounters, PersistedDuckState, SpeechDetector, TRIGGER_OFF_FRAMES,
    TRIGGER_ON_FRAMES, VAD_FRAME_SAMPLES,
};
use mixolume::level::{Level, ONE_BITS};

fn fresh_hysteresis() -> HysteresisCounters {
    HysteresisCounters::seeded(PersistedDuckState::default())
}

fn to_pcm(samples: &[f32]) -> Vec<i16> {
    samples
        .iter()
        .map(|s| (s.clamp(-1.0, 1.0) * i16::MAX as f32) as i16)
        .collect()
}

fn silence(n: usize) -> Vec<i16> {
    to_pcm(&vec![0.0; n])
}

/// A buzz rich in harmonics whose loudness rises and falls, as that of a voice does.
fn voice(frames: usize) -> Vec<i16> {
    let turn = 2.0 * std::f32::consts::PI;
    let mut samples: Vec<f32> = Vec::new();
    for i in 0..frames * VAD_FRAME_SAMPLES {
        let t = i as f32 / 48_000.0;
        let mut sample = 0.0;
        for k in 1..20 {
            let f = 120.0 * k as f32;
            let formants = 1.0 / (1.0 + ((f - 700.0) / 400.0).powi(2))
                + 0.6 / (1.0 + ((f - 1200.0) / 400.0).powi(2));
            sample += formants * (turn * f * t).sin();
        }
        let loudness = 0.5 + 0.5 * (turn * 4.0 * t).sin().abs();
        samples.push(0.25 * sample * loudness);
    }
    to_pcm(&samples)
}

#[test]
fn duck_detect_does_not_trigger_before_enough_consecutive_speech_frames() {
    let mut h = fresh_hysteresis();
    for _ in 0..(TRIGGER_ON_FRAMES - 1) {
        assert!(!h.observe(true));
    }
}

#[test]
fn duck_detect_triggers_exactly_at_the_threshold() {
    let mut h = fresh_hysteresis();
    for _ in 0..(TRIGGER_ON_FRAMES - 1) {
        h.observe(true);
    }
    assert!(h.observe(true));
}

#[test]
fn duck_detect_a_single_non_speech_frame_resets_the_speech_run() {
    let mut h = fresh_hysteresis();
    for _ in 0..(TRIGGER_ON_FRAMES - 1) {
        h.observe(true);
    }
    assert!(!h.observe(false)); // one non-speech frame right before the threshold
    for _ in 0..(TRIGGER_ON_FRAMES - 1) {
        assert!(!h.observe(true)); // needs the full run over again
    }
    assert!(h.observe(true));
}

#[test]
fn duck_detect_stays_triggered_through_brief_gaps_shorter_than_the_release_threshold() {
    let mut h = fresh_hysteresis();
    for _ in 0..TRIGGER_ON_FRAMES {
        h.observe(true);
    }
    assert!(h.snapshot().is_triggering);
    for _ in 0..(TRIGGER_OFF_FRAMES - 1) {
        assert!(h.observe(false), "should still be triggering mid-gap");
    }
    assert!(!h.observe(false), "releases once the gap is long enough");
}

#[test]
fn duck_detect_seeding_from_a_persisted_snapshot_preserves_progress_across_a_simulated_rebuild() {
    let mut h = fresh_hysteresis();
    for _ in 0..(TRIGGER_ON_FRAMES - 3) {
        assert!(!h.observe(true));
    }
    let snapshot = h.snapshot();
    assert_eq!(snapshot.speech_run, TRIGGER_ON_FRAMES - 3);
    assert!(!snapshot.is_triggering);

    let mut post_rebuild = HysteresisCounters::seeded(snapshot);
    let mut triggered = false;
    for _ in 0..3 {
        triggered = post_rebuild.observe(true);
    }
    assert!(
        triggered,
        "only the remaining 3 frames should be needed, not all 40 over again"
    );
}

#[test]
fn duck_detect_excluded_detector_never_triggers_regardless_of_content() {
    let mut detector = SpeechDetector::new(true, fresh_hysteresis());
    let frame: Vec<f32> = (0..480)
        .map(|i| if i % 3 == 0 { 0.9 } else { -0.7 })
        .collect();
    let frame = to_pcm(&frame);
    for _ in 0..(TRIGGER_ON_FRAMES * 3) {
        assert!(!detector.process_frame(&frame));
    }
}

#[test]
fn duck_detect_empty_frame_does_not_trigger_or_panic() {
    let mut detector = SpeechDetector::new(false, fresh_hysteresis());
    assert!(!detector.process_frame(&[]));
}

#[test]
fn duck_detect_silence_never_triggers_even_after_many_callbacks() {
    let mut detector = SpeechDetector::new(false, fresh_hysteresis());
    let frame = silence(512);
    for _ in 0..(TRIGGER_ON_FRAMES * 3) {
        assert!(!detector.process_frame(&frame));
    }
}

#[test]
fn duck_detect_accumulator_handles_callback_sizes_smaller_than_one_vad_frame() {
    let mut detector = SpeechDetector::new(false, fresh_hysteresis());
    let tiny_frame = silence(37);
    for _ in 0..2000 {
        detector.process_frame(&tiny_frame);
    }
}

#[test]
fn macos_ducking_does_not_trigger_before_enough_consecutive_speech_frames() {
    let mut h = fresh_hysteresis();
    for _ in 0..(TRIGGER_ON_FRAMES - 1) {
        assert!(!h.observe(true));
    }
}

#[test]
fn macos_ducking_triggers_exactly_at_the_threshold() {
    let mut h = fresh_hysteresis();
    for _ in 0..(TRIGGER_ON_FRAMES - 1) {
        h.observe(true);
    }
    assert!(h.observe(true));
}

#[test]
fn macos_ducking_a_single_non_speech_frame_resets_the_speech_run() {
    let mut h = fresh_hysteresis();
    for _ in 0..(TRIGGER_ON_FRAMES - 1) {
        h.observe(true);
    }
    assert!(!h.observe(false)); // one non-speech frame right before the threshold
    for _ in 0..(TRIGGER_ON_FRAMES - 1) {
        assert!(!h.observe(true)); // needs the full run over again
    }
    assert!(h.observe(true));
}

#[test]
fn macos_ducking_stays_triggered_through_brief_gaps_shorter_than_the_release_threshold() {
    let mut h = fresh_hysteresis();
    for _ in 0..TRIGGER_ON_FRAMES {
        h.observe(true);
    }
    assert!(h.snapshot().is_triggering);
    for _ in 0..(TRIGGER_OFF_FRAMES - 1) {
        assert!(h.observe(false), "should still be triggering mid-gap");
    }
    assert!(!h.observe(false), "releases once the gap is long enough");
}

#[test]
fn macos_ducking_seeding_from_a_persisted_snapshot_preserves_progress_across_a_simulated_rebuild() {
    let mut h = fresh_hysteresis();
    for _ in 0..(TRIGGER_ON_FRAMES - 3) {
        assert!(!h.observe(true));
    }
    let snapshot = h.snapshot();
    assert_eq!(snapshot.speech_run, TRIGGER_ON_FRAMES - 3);
    assert!(!snapshot.is_triggering);

    let mut post_rebuild = HysteresisCounters::seeded(snapshot);
    let mut triggered = false;
    for _ in 0..3 {
        triggered = post_rebuild.observe(true);
    }
    assert!(
        triggered,
        "only the remaining 3 frames should be needed, not all 40 over again"
    );
}

#[test]
fn macos_ducking_excluded_detector_never_triggers_regardless_of_content() {
    let mut detector = SpeechDetector::new(true, fresh_hysteresis());
    let frame: Vec<f32> = (0..480)
        .map(|i| if i % 3 == 0 { 0.9 } else { -0.7 })
        .collect();
    let frame = to_pcm(&frame);
    for _ in 0..(TRIGGER_ON_FRAMES * 3) {
        assert!(!detector.process_frame(&frame));
    }
}

#[test]
fn macos_ducking_empty_frame_does_not_trigger_or_panic() {
    let mut detector = SpeechDetector::new(false, fresh_hysteresis());
    assert!(!detector.process_frame(&[]));
}

#[test]
fn macos_ducking_silence_never_triggers_even_after_many_callbacks() {
    let mut detector = SpeechDetector::new(false, fresh_hysteresis());
    let frame = silence(512);
    for _ in 0..(TRIGGER_ON_FRAMES * 3) {
        assert!(!detector.process_frame(&frame));
    }
}

#[test]
fn macos_ducking_accumulator_handles_callback_sizes_smaller_than_one_vad_frame() {
    let mut detector = SpeechDetector::new(false, fresh_hysteresis());
    let tiny_frame = silence(37);
    for _ in 0..2000 {
        detector.process_frame(&tiny_frame);
    }
}

#[test]
fn a_voice_makes_its_application_a_trigger_and_silence_ends_it() {
    let mut detector = SpeechDetector::new(false, fresh_hysteresis());
    detector.process_frame(&voice(2 * TRIGGER_ON_FRAMES as usize));
    assert!(detector.is_triggering());
    detector.process_frame(&silence(2 * TRIGGER_OFF_FRAMES as usize * VAD_FRAME_SAMPLES));
    assert!(!detector.is_triggering());
}

#[test]
fn how_sound_is_cut_into_pieces_makes_no_difference() {
    let sound = voice(60);
    let mut whole = SpeechDetector::new(false, fresh_hysteresis());
    whole.process_frame(&sound);
    let mut pieces = SpeechDetector::new(false, fresh_hysteresis());
    for piece in sound.chunks(101) {
        pieces.process_frame(piece);
    }
    assert!(whole.snapshot().speech_run + whole.snapshot().silence_run > 0);
    assert_eq!(pieces.snapshot(), whole.snapshot());
}

#[test]
fn an_incomplete_frame_is_not_judged() {
    let mut detector = SpeechDetector::new(false, fresh_hysteresis());
    detector.process_frame(&silence(VAD_FRAME_SAMPLES - 1));
    assert_eq!(detector.snapshot(), PersistedDuckState::default());
    detector.process_frame(&silence(1));
    assert_eq!(
        detector.snapshot(),
        PersistedDuckState { speech_run: 0, silence_run: 1, is_triggering: false }
    );
}

#[test]
fn the_first_speech_frame_after_silence_starts_a_run_of_one() {
    let mut h = fresh_hysteresis();
    h.observe(false);
    h.observe(true);
    assert_eq!(
        h.snapshot(),
        PersistedDuckState { speech_run: 1, silence_run: 0, is_triggering: false }
    );
}

#[test]
fn runs_wrap_around() {
    let mut h = HysteresisCounters::seeded(PersistedDuckState {
        speech_run: u32::MAX,
        silence_run: 0,
        is_triggering: true,
    });
    assert!(h.observe(true));
    assert_eq!(h.snapshot().speech_run, 0);
}

#[test]
fn a_runtime_goes_on_from_the_counters_it_is_given() {
    let talking = PersistedDuckState { speech_run: 50, silence_run: 0, is_triggering: true };
    let quiet = PersistedDuckState { speech_run: 3, silence_run: 0, is_triggering: false };
    let mut runtime = DuckingRuntime::new(true, &vec![false, true], &vec![talking, quiet]);
    assert!(runtime.is_enabled());
    assert_eq!(runtime.detector_count(), 2);
    assert_eq!(runtime.snapshot_all(), vec![talking, quiet]);
    assert!(runtime.any_triggering());
    assert!(runtime.is_triggering_at(0) && !runtime.is_triggering_at(1));
    assert_eq!(runtime.multiplier_at(1), Some(Level { bits: ONE_BITS }));
    assert_eq!(runtime.multiplier_at(2), None);
    runtime.set_enabled(false);
    assert!(!runtime.any_triggering(), "nobody triggers while ducking is off");
}

#[test]
fn a_runtime_can_be_fed_and_its_multipliers_moved() {
    let mut runtime =
        DuckingRuntime::new(true, &vec![false], &vec![PersistedDuckState::default()]);
    runtime.detectors_mut()[0].process_frame(&silence(VAD_FRAME_SAMPLES));
    assert_eq!(runtime.snapshot_all()[0].silence_run, 1);
    let half = Level { bits: 0.5f32.to_bits() };
    runtime.multipliers_mut()[0] = half;
    assert_eq!(runtime.multiplier_at(0), Some(half));
}

#[test]
fn a_runtime_listens_to_every_tap_unless_it_is_off() {
    let fresh = PersistedDuckState::default();
    let mut runtime = DuckingRuntime::new(true, &vec![false, true, false], &vec![fresh; 3]);
    let frame = silence(VAD_FRAME_SAMPLES);
    runtime.listen(0, &frame);
    runtime.listen(1, &frame);
    runtime.listen(3, &frame);
    let heard: Vec<u32> = runtime.snapshot_all().iter().map(|s| s.silence_run).collect();
    assert_eq!(heard, vec![1, 0, 0], "one is excluded, and one made no sound");
    runtime.set_enabled(false);
    runtime.listen(0, &frame);
    assert_eq!(runtime.snapshot_all()[0].silence_run, 1, "nobody listens while it is off");
}
