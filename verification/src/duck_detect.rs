//! Telling whether an application is talking: voice detection on short frames of
//! sound, and a state that only changes after long enough runs of them.

use vstd::prelude::*;

use crate::level::{Level, INFINITY_BITS, ONE_BITS};
use crate::rounding::lemma_product_at_most;

verus! {

/// So many frames of speech in a row make an application a trigger.
pub const TRIGGER_ON_FRAMES: u32 = 40;

/// So many frames without speech in a row end it: longer than a pause for breath.
pub const TRIGGER_OFF_FRAMES: u32 = 150;

/// The samples of one frame: ten milliseconds.
pub const VAD_FRAME_SAMPLES: usize = 480;

/// The rate that frames are sampled at.
pub const VAD_SAMPLE_RATE_HZ: u32 = 48_000;

/// The bit pattern of what the gain of a ducked application is multiplied by, 0.22.
pub const DUCK_GAIN_MULTIPLIER_BITS: u32 = 0x3e61_47ae;

/// A volume as it is while its application is ducked.
pub open spec fn ducked_volume(volume: Level) -> Level {
    volume.scaled(Level { bits: DUCK_GAIN_MULTIPLIER_BITS })
}

/// A volume as it is while its application is ducked.
pub fn duck_volume(volume: Level) -> (ducked: Level)
    ensures
        ducked == ducked_volume(volume),
{
    volume.scale(Level { bits: DUCK_GAIN_MULTIPLIER_BITS })
}

/// A ducked volume is never louder than the volume.
pub proof fn law_ducking_makes_nothing_louder(volume: Level)
    requires
        volume.magnitude() < INFINITY_BITS,
    ensures
        ducked_volume(volume).magnitude() <= volume.magnitude(),
        ducked_volume(volume).is_signed() == volume.is_signed(),
{
    lemma_product_at_most(volume, Level { bits: DUCK_GAIN_MULTIPLIER_BITS });
}

/// The bit pattern of how far a gain moves toward its target in one callback, 0.065.
pub const SMOOTHING_PER_CALLBACK_BITS: u32 = 0x3d85_1eb8;

/// How long an application has been talking or not, and whether it is a trigger.
#[derive(Clone, Copy, Debug, PartialEq, Eq, Structural)]
pub struct PersistedDuckState {
    pub speech_run: u32,
    pub silence_run: u32,
    pub is_triggering: bool,
}

/// The state of an application that was never heard.
pub open spec fn unheard() -> PersistedDuckState {
    PersistedDuckState { speech_run: 0, silence_run: 0, is_triggering: false }
}

impl Default for PersistedDuckState {
    fn default() -> (state: Self)
        ensures
            state == unheard(),
    {
        PersistedDuckState { speech_run: 0, silence_run: 0, is_triggering: false }
    }
}

/// The count after `n`; it wraps around.
pub open spec fn next_run(n: u32) -> u32 {
    if n == u32::MAX {
        0
    } else {
        (n + 1) as u32
    }
}

/// The state after one more frame.
pub open spec fn observed(state: PersistedDuckState, speech: bool) -> PersistedDuckState {
    let speech_run = if speech {
        next_run(state.speech_run)
    } else {
        0
    };
    let silence_run = if speech {
        0
    } else {
        next_run(state.silence_run)
    };
    PersistedDuckState {
        speech_run,
        silence_run,
        is_triggering: if state.is_triggering {
            silence_run < TRIGGER_OFF_FRAMES
        } else {
            speech_run >= TRIGGER_ON_FRAMES
        },
    }
}

/// The state after several frames of the same kind.
pub open spec fn observed_times(
    state: PersistedDuckState,
    speech: bool,
    frames: nat,
) -> PersistedDuckState
    decreases frames,
{
    if frames == 0 {
        state
    } else {
        observed(observed_times(state, speech, (frames - 1) as nat), speech)
    }
}

/// Counts runs of frames with and without speech.
#[derive(Debug)]
pub struct HysteresisCounters {
    speech_run: u32,
    silence_run: u32,
    is_triggering: bool,
}

impl View for HysteresisCounters {
    type V = PersistedDuckState;

    closed spec fn view(&self) -> PersistedDuckState {
        PersistedDuckState {
            speech_run: self.speech_run,
            silence_run: self.silence_run,
            is_triggering: self.is_triggering,
        }
    }
}

impl HysteresisCounters {
    /// Goes on from where a snapshot was taken.
    pub fn seeded(state: PersistedDuckState) -> (counters: Self)
        ensures
            counters@ == state,
    {
        HysteresisCounters {
            speech_run: state.speech_run,
            silence_run: state.silence_run,
            is_triggering: state.is_triggering,
        }
    }

    /// What to go on from later.
    pub fn snapshot(&self) -> (state: PersistedDuckState)
        ensures
            state == self@,
    {
        PersistedDuckState {
            speech_run: self.speech_run,
            silence_run: self.silence_run,
            is_triggering: self.is_triggering,
        }
    }

    /// Takes in one frame. The result says whether the application is a trigger now.
    pub fn observe(&mut self, looks_like_speech: bool) -> (triggering: bool)
        ensures
            final(self)@ == observed(old(self)@, looks_like_speech),
            triggering == final(self)@.is_triggering,
    {
        if looks_like_speech {
            self.speech_run = self.speech_run.wrapping_add(1);
            self.silence_run = 0;
        } else {
            self.speech_run = 0;
            self.silence_run = self.silence_run.wrapping_add(1);
        }
        if !self.is_triggering && self.speech_run >= TRIGGER_ON_FRAMES {
            self.is_triggering = true;
        } else if self.is_triggering && self.silence_run >= TRIGGER_OFF_FRAMES {
            self.is_triggering = false;
        }
        self.is_triggering
    }
}

impl Default for HysteresisCounters {
    fn default() -> (counters: Self)
        ensures
            counters@ == unheard(),
    {
        HysteresisCounters { speech_run: 0, silence_run: 0, is_triggering: false }
    }
}

/// An application becomes a trigger with exactly the frame that completes a run of
/// speech, and not before.
pub proof fn law_triggers_at_the_threshold(state: PersistedDuckState, frames: nat)
    requires
        !state.is_triggering,
        state.speech_run < TRIGGER_ON_FRAMES,
        state.speech_run + frames <= u32::MAX,
    ensures
        observed_times(state, true, frames).is_triggering <==> state.speech_run + frames
            >= TRIGGER_ON_FRAMES,
        observed_times(state, true, frames).speech_run == state.speech_run + frames,
        frames > 0 ==> observed_times(state, true, frames).silence_run == 0,
    decreases frames,
{
    if frames > 0 {
        law_triggers_at_the_threshold(state, (frames - 1) as nat);
    }
}

/// A trigger is released with exactly the frame that completes a long enough gap, and
/// not before. Silence never makes it one again.
pub proof fn law_releases_at_the_threshold(state: PersistedDuckState, frames: nat)
    requires
        state.is_triggering,
        state.silence_run < TRIGGER_OFF_FRAMES,
        state.silence_run + frames <= u32::MAX,
    ensures
        observed_times(state, false, frames).is_triggering <==> state.silence_run + frames
            < TRIGGER_OFF_FRAMES,
        observed_times(state, false, frames).silence_run == state.silence_run + frames,
        frames > 0 ==> observed_times(state, false, frames).speech_run == 0,
    decreases frames,
{
    if frames > 0 {
        law_releases_at_the_threshold(state, (frames - 1) as nat);
    }
}

/// One frame without speech starts the count of speech over again.
pub proof fn law_gap_starts_over(state: PersistedDuckState)
    requires
        !state.is_triggering,
    ensures
        observed(state, false).speech_run == 0,
        !observed(state, false).is_triggering,
{
}

/// Sampling rates of the voice detector.
#[derive(Clone, Copy, Debug, PartialEq, Eq, Structural)]
pub enum VoiceRate {
    Rate8kHz,
    Rate16kHz,
    Rate32kHz,
    Rate48kHz,
}

/// How reluctant the voice detector is to report speech.
#[derive(Clone, Copy, Debug, PartialEq, Eq, Structural)]
pub enum VoiceMode {
    Quality,
    LowBitrate,
    Aggressive,
    VeryAggressive,
}

/// The samples of one millisecond.
pub open spec fn samples_per_ms(rate: VoiceRate) -> int {
    match rate {
        VoiceRate::Rate8kHz => 8,
        VoiceRate::Rate16kHz => 16,
        VoiceRate::Rate32kHz => 32,
        VoiceRate::Rate48kHz => 48,
    }
}

/// Whether a frame is one of ten, twenty or thirty milliseconds.
pub open spec fn is_frame_length(rate: VoiceRate, len: nat) -> bool {
    ||| len == 10 * samples_per_ms(rate)
    ||| len == 20 * samples_per_ms(rate)
    ||| len == 30 * samples_per_ms(rate)
}

/// The voice detector of the `webrtc-vad` crate.
#[verifier::external_type_specification]
#[verifier::external_body]
pub struct ExVad(webrtc_vad::Vad);

/// The frames that a voice detector has taken in, oldest first.
pub uninterp spec fn vad_frames(vad: webrtc_vad::Vad) -> Seq<Seq<i16>>;

/// The sampling rate and mode that a voice detector was made with.
pub uninterp spec fn vad_setup(vad: webrtc_vad::Vad) -> (VoiceRate, VoiceMode);

/// Whether the last of the frames is speech, to a detector of the given setup that
/// has taken in all of them and nothing else.
pub uninterp spec fn voice_verdict(setup: (VoiceRate, VoiceMode), frames: Seq<Seq<i16>>) -> bool;

/// `webrtc_vad::Vad::new_with_rate_and_mode`: a detector of that rate and mode that
/// has taken in nothing.
#[verifier::external_body]
fn new_vad(rate: VoiceRate, mode: VoiceMode) -> (vad: webrtc_vad::Vad)
    ensures
        vad_setup(vad) == (rate, mode),
        vad_frames(vad) == Seq::<Seq<i16>>::empty(),
{
    let rate = match rate {
        VoiceRate::Rate8kHz => webrtc_vad::SampleRate::Rate8kHz,
        VoiceRate::Rate16kHz => webrtc_vad::SampleRate::Rate16kHz,
        VoiceRate::Rate32kHz => webrtc_vad::SampleRate::Rate32kHz,
        VoiceRate::Rate48kHz => webrtc_vad::SampleRate::Rate48kHz,
    };
    let mode = match mode {
        VoiceMode::Quality => webrtc_vad::VadMode::Quality,
        VoiceMode::LowBitrate => webrtc_vad::VadMode::LowBitrate,
        VoiceMode::Aggressive => webrtc_vad::VadMode::Aggressive,
        VoiceMode::VeryAggressive => webrtc_vad::VadMode::VeryAggressive,
    };
    webrtc_vad::Vad::new_with_rate_and_mode(rate, mode)
}

/// `webrtc_vad::Vad::is_voice_segment`: a frame of a valid length is taken in and
/// judged in the light of all frames before it; one of another length is refused and
/// changes nothing.
#[verifier::external_body]
fn judge_frame(vad: &mut webrtc_vad::Vad, frame: &[i16]) -> (verdict: Result<bool, ()>)
    requires
        frame@.len() > 0,
    ensures
        vad_setup(*final(vad)) == vad_setup(*old(vad)),
        is_frame_length(vad_setup(*old(vad)).0, frame@.len()) ==> {
            &&& vad_frames(*final(vad)) == vad_frames(*old(vad)).push(frame@)
            &&& verdict == Ok::<bool, ()>(
                voice_verdict(vad_setup(*old(vad)), vad_frames(*final(vad))),
            )
        },
        !is_frame_length(vad_setup(*old(vad)).0, frame@.len()) ==> {
            &&& vad_frames(*final(vad)) == vad_frames(*old(vad))
            &&& verdict is Err
        },
    no_unwind
{
    vad.is_voice_segment(frame)
}

/// A voice detector for frames of `VAD_FRAME_SAMPLES`, wary of taking music for
/// speech.
struct VoiceJudge {
    vad: webrtc_vad::Vad,
}

/// The rate and mode that every voice detector has.
pub open spec fn detector_setup() -> (VoiceRate, VoiceMode) {
    (VoiceRate::Rate48kHz, VoiceMode::Aggressive)
}

impl VoiceJudge {
    #[verifier::type_invariant]
    spec fn well_formed(self) -> bool {
        vad_setup(self.vad) == detector_setup()
    }

    spec fn heard(&self) -> Seq<Seq<i16>> {
        vad_frames(self.vad)
    }

    fn new() -> (judge: Self)
        ensures
            judge.heard() == Seq::<Seq<i16>>::empty(),
    {
        VoiceJudge { vad: new_vad(VoiceRate::Rate48kHz, VoiceMode::Aggressive) }
    }

    /// Whether a frame is speech.
    fn judge(&mut self, frame: &[i16]) -> (speech: bool)
        requires
            frame@.len() == VAD_FRAME_SAMPLES,
        ensures
            final(self).heard() == old(self).heard().push(frame@),
            speech == voice_verdict(detector_setup(), final(self).heard()),
        no_unwind
    {
        proof {
            use_type_invariant(&*self);
        }
        match judge_frame(&mut self.vad, frame) {
            Ok(speech) => speech,
            Err(_) => false,
        }
    }
}

/// Follows the sound of one application.
pub struct SpeechDetector {
    excluded_from_triggering: bool,
    hysteresis: HysteresisCounters,
    judge: VoiceJudge,
    /// Samples that do not fill a frame yet. There is room for a whole one, so that
    /// listening allocates nothing.
    pending: Vec<i16>,
}

/// What a `SpeechDetector` holds.
#[verifier::ext_equal]
pub struct DetectorView {
    pub excluded: bool,
    pub counters: PersistedDuckState,
    /// The frames that have been judged.
    pub heard: Seq<Seq<i16>>,
    pub pending: Seq<i16>,
}

impl View for SpeechDetector {
    type V = DetectorView;

    closed spec fn view(&self) -> DetectorView {
        DetectorView {
            excluded: self.excluded_from_triggering,
            counters: self.hysteresis@,
            heard: self.judge.heard(),
            pending: self.pending@,
        }
    }
}

/// A detector after every whole frame of its pending samples has been judged.
pub open spec fn drained(detector: DetectorView) -> DetectorView
    decreases detector.pending.len(),
{
    if detector.pending.len() < VAD_FRAME_SAMPLES {
        detector
    } else {
        let heard = detector.heard.push(detector.pending.take(VAD_FRAME_SAMPLES as int));
        drained(
            DetectorView {
                heard,
                pending: detector.pending.skip(VAD_FRAME_SAMPLES as int),
                counters: observed(detector.counters, voice_verdict(detector_setup(), heard)),
                ..detector
            },
        )
    }
}

/// A detector after more samples. One that is excluded does not listen.
pub open spec fn fed(detector: DetectorView, samples: Seq<i16>) -> DetectorView {
    if detector.excluded || samples.len() == 0 {
        detector
    } else {
        drained(DetectorView { pending: detector.pending + samples, ..detector })
    }
}

impl SpeechDetector {
    #[verifier::type_invariant]
    spec fn well_formed(self) -> bool {
        self.pending@.len() < VAD_FRAME_SAMPLES
    }

    /// A detector that goes on from the given counters. One that is excluded never
    /// makes its application a trigger.
    pub fn new(excluded_from_triggering: bool, hysteresis: HysteresisCounters) -> (detector: Self)
        ensures
            detector@ == (DetectorView {
                excluded: excluded_from_triggering,
                counters: hysteresis@,
                heard: Seq::empty(),
                pending: Seq::empty(),
            }),
    {
        SpeechDetector {
            excluded_from_triggering,
            hysteresis,
            judge: VoiceJudge::new(),
            pending: Vec::with_capacity(VAD_FRAME_SAMPLES),
        }
    }

    /// Takes in more sound: judges every whole frame that is complete now, and keeps
    /// the rest for later. The result says whether the application is a trigger; with
    /// nothing to listen to it says no.
    pub fn process_frame(&mut self, mono_samples: &[i16]) -> (triggering: bool)
        ensures
            final(self)@ == fed(old(self)@, mono_samples@),
            triggering == (!old(self)@.excluded && mono_samples@.len() > 0
                && final(self)@.counters.is_triggering),
    {
        if self.excluded_from_triggering || mono_samples.len() == 0 {
            return false;
        }
        proof {
            use_type_invariant(&*self);
        }
        let mut pending: Vec<i16> = Vec::new();
        std::mem::swap(&mut pending, &mut self.pending);
        let mut hysteresis = HysteresisCounters::seeded(self.hysteresis.snapshot());
        let ghost start = old(self)@;
        let mut i: usize = 0;
        proof {
            assert(start.pending + mono_samples@.take(0) =~= start.pending);
        }
        while i < mono_samples.len()
            invariant
                i <= mono_samples@.len(),
                start == old(self)@,
                self.excluded_from_triggering == start.excluded,
                pending@.len() < VAD_FRAME_SAMPLES,
                self.pending@.len() == 0,
                listening(*self, hysteresis, pending@) == drained(
                    DetectorView {
                        pending: start.pending + mono_samples@.take(i as int),
                        ..start
                    },
                ),
            decreases mono_samples@.len() - i,
        {
            let ghost before = listening(*self, hysteresis, pending@);
            let sample: i16 = mono_samples[i];
            pending.push(sample);
            let ghost full = pending@;
            if pending.len() == VAD_FRAME_SAMPLES {
                let looks_like_speech = self.judge.judge(pending.as_slice());
                let _ = hysteresis.observe(looks_like_speech);
                pending.clear();
            }
            proof {
                let taken = start.pending + mono_samples@.take(i as int);
                lemma_drained_rest(DetectorView { pending: taken, ..start }, seq![sample]);
                assert(taken + seq![sample] =~= start.pending + mono_samples@.take(i + 1));
                assert(before.pending + seq![sample] =~= full);
                assert(full.take(full.len() as int) =~= full);
                assert(full.skip(full.len() as int) =~= Seq::<i16>::empty());
                assert(listening(*self, hysteresis, pending@) == drained(
                    DetectorView { pending: full, ..before },
                )) by {
                    reveal_with_fuel(drained, 2);
                }
            }
            i += 1;
        }
        assert(mono_samples@.take(i as int) == mono_samples@);
        let triggering = hysteresis.is_triggering;
        self.hysteresis = hysteresis;
        self.pending = pending;
        triggering
    }

    /// Whether the application is a trigger, as of the sound taken in so far.
    pub fn is_triggering(&self) -> (triggering: bool)
        ensures
            triggering == self@.counters.is_triggering,
    {
        self.hysteresis.is_triggering
    }

    /// The counters, to go on from later.
    pub fn snapshot(&self) -> (state: PersistedDuckState)
        ensures
            state == self@.counters,
    {
        self.hysteresis.snapshot()
    }
}

/// What a detector holds whose counters and pending samples are out on loan.
spec fn listening(
    detector: SpeechDetector,
    hysteresis: HysteresisCounters,
    pending: Seq<i16>,
) -> DetectorView {
    DetectorView { counters: hysteresis@, pending, ..detector@ }
}

proof fn lemma_drained_rest(detector: DetectorView, more: Seq<i16>)
    ensures
        drained(detector).pending.len() < VAD_FRAME_SAMPLES,
        drained(detector).excluded == detector.excluded,
        drained(
            DetectorView { pending: drained(detector).pending + more, ..drained(detector) },
        ) == drained(DetectorView { pending: detector.pending + more, ..detector }),
    decreases detector.pending.len(),
{
    if detector.pending.len() >= VAD_FRAME_SAMPLES {
        let n = VAD_FRAME_SAMPLES as int;
        let heard = detector.heard.push(detector.pending.take(n));
        let next = DetectorView {
            heard,
            pending: detector.pending.skip(n),
            counters: observed(detector.counters, voice_verdict(detector_setup(), heard)),
            ..detector
        };
        lemma_drained_rest(next, more);
        let whole = DetectorView { pending: detector.pending + more, ..detector };
        assert(whole.pending.take(n) =~= detector.pending.take(n));
        assert(whole.pending.skip(n) =~= next.pending + more);
    }
}

/// How sound is cut into pieces makes no difference: two pieces one after the other
/// leave a detector as the two together do.
pub proof fn law_pieces_do_not_matter(detector: DetectorView, first: Seq<i16>, second: Seq<i16>)
    ensures
        fed(fed(detector, first), second) == fed(detector, first + second),
{
    if !detector.excluded && first.len() > 0 && second.len() > 0 {
        let start = DetectorView { pending: detector.pending + first, ..detector };
        lemma_drained_rest(start, second);
        assert(start.pending + second =~= detector.pending + (first + second));
    } else if first.len() == 0 {
        assert(first + second =~= second);
    } else {
        assert(first + second =~= first || detector.excluded);
    }
}

/// A detector that is excluded never changes, so that its application never becomes a
/// trigger.
pub proof fn law_excluded_never_changes(detector: DetectorView, samples: Seq<i16>)
    requires
        detector.excluded,
    ensures
        fed(detector, samples) == detector,
{
}

/// Follows the sound of all applications that are mixed.
pub struct DuckingRuntime {
    enabled: bool,
    detectors: Vec<SpeechDetector>,
    multipliers: Vec<Level>,
}

/// What a `DuckingRuntime` holds.
#[verifier::ext_equal]
pub struct RuntimeView {
    pub enabled: bool,
    pub detectors: Seq<DetectorView>,
    pub multipliers: Seq<Level>,
}

pub open spec fn detector_views(detectors: Seq<SpeechDetector>) -> Seq<DetectorView> {
    detectors.map_values(|d: SpeechDetector| d@)
}

impl View for DuckingRuntime {
    type V = RuntimeView;

    closed spec fn view(&self) -> RuntimeView {
        RuntimeView {
            enabled: self.enabled,
            detectors: detector_views(self.detectors@),
            multipliers: self.multipliers@,
        }
    }
}

/// The state at the start: each application goes on from its counters, at full gain.
pub open spec fn runtime_started(
    enabled: bool,
    excluded: Seq<bool>,
    persisted: Seq<PersistedDuckState>,
) -> RuntimeView {
    RuntimeView {
        enabled,
        detectors: Seq::new(
            excluded.len(),
            |i: int|
                DetectorView {
                    excluded: excluded[i],
                    counters: persisted[i],
                    heard: Seq::empty(),
                    pending: Seq::empty(),
                },
        ),
        multipliers: Seq::new(excluded.len(), |i: int| Level { bits: ONE_BITS }),
    }
}

/// The counters of every application.
pub open spec fn runtime_counters(runtime: RuntimeView) -> Seq<PersistedDuckState> {
    runtime.detectors.map_values(|d: DetectorView| d.counters)
}

/// Whether any application is talking while ducking is on.
pub open spec fn runtime_triggering(runtime: RuntimeView) -> bool {
    runtime.enabled && exists|i: int|
        0 <= i < runtime.detectors.len() && (
        #[trigger] runtime.detectors[i]).counters.is_triggering
}

/// The state after more sound of one application. While ducking is off nobody listens.
pub open spec fn listened(runtime: RuntimeView, tap: int, sound: Seq<i16>) -> RuntimeView {
    if runtime.enabled && 0 <= tap < runtime.detectors.len() {
        RuntimeView {
            detectors: runtime.detectors.update(tap, fed(runtime.detectors[tap], sound)),
            ..runtime
        }
    } else {
        runtime
    }
}

impl DuckingRuntime {
    pub fn new(
        enabled: bool,
        per_tap_excluded: &Vec<bool>,
        per_tap_persisted: &Vec<PersistedDuckState>,
    ) -> (runtime: Self)
        requires
            per_tap_excluded@.len() == per_tap_persisted@.len(),
        ensures
            runtime@ == runtime_started(enabled, per_tap_excluded@, per_tap_persisted@),
    {
        let mut detectors: Vec<SpeechDetector> = Vec::new();
        let mut multipliers: Vec<Level> = Vec::new();
        let ghost start = runtime_started(enabled, per_tap_excluded@, per_tap_persisted@);
        let mut i: usize = 0;
        while i < per_tap_excluded.len()
            invariant
                i <= per_tap_excluded@.len(),
                per_tap_excluded@.len() == per_tap_persisted@.len(),
                start == runtime_started(enabled, per_tap_excluded@, per_tap_persisted@),
                detectors@.len() == i,
                multipliers@.len() == i,
                forall|k: int| 0 <= k < i ==> (#[trigger] detectors@[k])@ == start.detectors[k],
                forall|k: int| 0 <= k < i ==> #[trigger] multipliers@[k] == start.multipliers[k],
            decreases per_tap_excluded@.len() - i,
        {
            let hysteresis = HysteresisCounters::seeded(per_tap_persisted[i]);
            detectors.push(SpeechDetector::new(per_tap_excluded[i], hysteresis));
            multipliers.push(Level { bits: ONE_BITS });
            i += 1;
        }
        let runtime = DuckingRuntime { enabled, detectors, multipliers };
        assert(runtime@ =~= start);
        runtime
    }

    pub fn is_enabled(&self) -> (enabled: bool)
        ensures
            enabled == self@.enabled,
    {
        self.enabled
    }

    /// Turns ducking on or off.
    pub fn set_enabled(&mut self, enabled: bool)
        ensures
            final(self)@ == (RuntimeView { enabled: enabled, ..old(self)@ }),
    {
        self.enabled = enabled;
    }

    /// Takes in more sound of one application, unless ducking is off or it has no
    /// detector.
    pub fn listen(&mut self, tap: usize, mono_samples: &[i16])
        ensures
            final(self)@ == listened(old(self)@, tap as int, mono_samples@),
    {
        if self.enabled && tap < self.detectors.len() {
            let _ = self.detectors[tap].process_frame(mono_samples);
            assert(self@ =~= listened(old(self)@, tap as int, mono_samples@));
        }
    }

    /// The detectors, to feed them.
    pub fn detectors_mut(&mut self) -> (detectors: &mut Vec<SpeechDetector>)
        ensures
            detector_views(detectors@) == old(self)@.detectors,
            final(self)@ == (RuntimeView {
                detectors: detector_views(final(detectors)@),
                ..old(self)@
            }),
    {
        &mut self.detectors
    }

    /// The gain multipliers, to move them on.
    pub fn multipliers_mut(&mut self) -> (multipliers: &mut Vec<Level>)
        ensures
            multipliers@ == old(self)@.multipliers,
            final(self)@ == (RuntimeView { multipliers: final(multipliers)@, ..old(self)@ }),
    {
        &mut self.multipliers
    }

    /// The counters of every application.
    pub fn snapshot_all(&self) -> (states: Vec<PersistedDuckState>)
        ensures
            states@ == runtime_counters(self@),
    {
        let mut states: Vec<PersistedDuckState> = Vec::new();
        let mut i: usize = 0;
        while i < self.detectors.len()
            invariant
                i <= self.detectors@.len(),
                states@.len() == i,
                forall|k: int|
                    0 <= k < i ==> #[trigger] states@[k] == self.detectors@[k]@.counters,
            decreases self.detectors@.len() - i,
        {
            states.push(self.detectors[i].snapshot());
            i += 1;
        }
        assert(states@ =~= runtime_counters(self@));
        states
    }

    /// Whether any application is talking while ducking is on.
    pub fn any_triggering(&self) -> (any: bool)
        ensures
            any == runtime_triggering(self@),
    {
        if !self.enabled {
            return false;
        }
        let mut i: usize = 0;
        while i < self.detectors.len()
            invariant
                i <= self.detectors@.len(),
                self.enabled,
                forall|k: int|
                    0 <= k < i ==> !(#[trigger] self@.detectors[k]).counters.is_triggering,
            decreases self.detectors@.len() - i,
        {
            assert(self@.detectors[i as int] == self.detectors@[i as int]@);
            if self.detectors[i].is_triggering() {
                return true;
            }
            i += 1;
        }
        false
    }

    /// How many applications have a detector.
    pub fn detector_count(&self) -> (n: usize)
        ensures
            n == self@.detectors.len(),
    {
        self.detectors.len()
    }

    pub fn is_triggering_at(&self, i: usize) -> (triggering: bool)
        requires
            i < self@.detectors.len(),
        ensures
            triggering == self@.detectors[i as int].counters.is_triggering,
    {
        self.detectors[i].is_triggering()
    }

    /// The gain multiplier of an application, if there is one.
    pub fn multiplier_at(&self, i: usize) -> (multiplier: Option<Level>)
        ensures
            multiplier == (if i < self@.multipliers.len() {
                Some(self@.multipliers[i as int])
            } else {
                None
            }),
    {
        if i < self.multipliers.len() {
            Some(self.multipliers[i])
        } else {
            None
        }
    }
}

/// A runtime that is started from the counters of another goes on where that one was:
/// no application's run of speech is lost.
pub proof fn law_rebuild_keeps_the_counters(
    enabled: bool,
    excluded: Seq<bool>,
    before: RuntimeView,
)
    requires
        excluded.len() == before.detectors.len(),
    ensures
        runtime_counters(runtime_started(enabled, excluded, runtime_counters(before)))
            == runtime_counters(before),
{
    assert(runtime_counters(runtime_started(enabled, excluded, runtime_counters(before)))
        =~= runtime_counters(before));
}

} // verus!
