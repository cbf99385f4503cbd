//! What holds of telling whether an application is talking, over whole stretches of sound.

use vstd::arithmetic::power2::{lemma_pow2_pos, pow2};
use vstd::prelude::*;

use crate::duck_detect::{
    detector_setup, drained, ducked_volume, fed, listened, observed, runtime_started,
    runtime_triggering, unheard, voice_verdict, DetectorView, PersistedDuckState, RuntimeView,
    VoiceMode, VoiceRate, DUCK_GAIN_MULTIPLIER_BITS,
};
use crate::gain::is_product;
use crate::level::{Level, INFINITY_BITS};
use crate::rounding::{
    law_rounding_gives_the_nearest_number, lemma_product_at_most, rounded, size,
};

verus! {

/// The counters after frames, each with speech or not, starting from some state.
pub open spec fn observed_all(state: PersistedDuckState, frames: Seq<bool>) -> PersistedDuckState
    decreases frames.len(),
{
    if frames.len() == 0 {
        state
    } else {
        observed(observed_all(state, frames.drop_last()), frames.last())
    }
}

/// Whether all of `count` frames from `start` on are alike.
pub open spec fn stretch(frames: Seq<bool>, start: int, count: int, speech: bool) -> bool {
    &&& 0 <= start
    &&& start + count <= frames.len()
    &&& forall|k: int| start <= k < start + count ==> #[trigger] frames[k] == speech
}

/// Whether forty frames of speech stand in a row at `start`, with no hundred and fifty
/// frames without speech in a row after them.
pub open spec fn talks_since(frames: Seq<bool>, start: int) -> bool {
    &&& stretch(frames, start, 40, true)
    &&& forall|gap: int| start + 40 <= gap ==> !#[trigger] stretch(frames, gap, 150, false)
}

/// Whether exactly the last `count` frames are alike.
spec fn ends_with_run(frames: Seq<bool>, count: int, speech: bool) -> bool {
    &&& stretch(frames, frames.len() - count, count, speech)
    &&& count == frames.len() || frames[frames.len() - count - 1] != speech
}

proof fn lemma_stretch_of_push(frames: Seq<bool>, last: bool, start: int, count: int, speech: bool)
    requires
        start + count <= frames.len(),
    ensures
        stretch(frames.push(last), start, count, speech) == stretch(frames, start, count, speech),
{
    let all = frames.push(last);
    if stretch(all, start, count, speech) {
        assert forall|k: int| start <= k < start + count implies #[trigger] frames[k] == speech by {
            assert(all[k] == frames[k]);
        }
    }
    if stretch(frames, start, count, speech) {
        assert forall|k: int| start <= k < start + count implies #[trigger] all[k] == speech by {
            assert(all[k] == frames[k]);
        }
    }
}

proof fn lemma_counts(frames: Seq<bool>)
    ensures
        ({
            let state = observed_all(unheard(), frames);
            &&& state.is_triggering <==> exists|start: int| talks_since(frames, start)
            &&& state.is_triggering ==> state.silence_run < 150 && ends_with_run(
                frames,
                state.silence_run as int,
                false,
            )
            &&& !state.is_triggering ==> state.speech_run < 40 && ends_with_run(
                frames,
                state.speech_run as int,
                true,
            )
        }),
    decreases frames.len(),
{
    let state = observed_all(unheard(), frames);
    if frames.len() == 0 {
        assert forall|start: int| !talks_since(frames, start) by {
            assert(!stretch(frames, start, 40, true));
        }
    } else {
        let init = frames.drop_last();
        let last = frames.last();
        let n = init.len() as int;
        let before = observed_all(unheard(), init);
        lemma_counts(init);
        assert(frames =~= init.push(last));
        if before.is_triggering {
            let run = before.silence_run as int;
            if last {
                assert(state.silence_run == 0 && state.is_triggering);
            } else {
                assert(state.silence_run == run + 1);
                assert forall|k: int| frames.len() - (run + 1) <= k < frames.len() implies
                    #[trigger] frames[k] == false by {
                    if k < n {
                        assert(init[k] == frames[k]);
                    }
                }
                if run + 1 < frames.len() {
                    assert(frames[n - run - 1] == init[n - run - 1]);
                }
                assert(ends_with_run(frames, run + 1, false));
            }
            let start = choose|start: int| talks_since(init, start);
            lemma_stretch_of_push(init, last, start, 40, true);
            if state.is_triggering {
                assert forall|gap: int| start + 40 <= gap implies !#[trigger] stretch(
                    frames,
                    gap,
                    150,
                    false,
                ) by {
                    if gap + 150 <= n {
                        lemma_stretch_of_push(init, last, gap, 150, false);
                    } else if stretch(frames, gap, 150, false) {
                        assert(frames[n] == last);
                        assert(frames[n - run - 1] == init[n - run - 1]);
                    }
                }
                assert(talks_since(frames, start));
            } else {
                let gap = frames.len() - 150;
                assert(stretch(frames, gap, 150, false));
                assert(state.speech_run == 0);
                assert(ends_with_run(frames, 0, true));
                assert forall|other: int| !talks_since(frames, other) by {
                    if stretch(frames, other, 40, true) {
                        assert(frames[other + 39] == true);
                        assert(other + 40 <= gap) by {
                            if other + 39 >= gap {
                                assert(frames[other + 39] == false);
                            }
                        }
                    }
                }
            }
        } else {
            let run = before.speech_run as int;
            if last {
                assert(state.speech_run == run + 1);
                assert forall|k: int| frames.len() - (run + 1) <= k < frames.len() implies
                    #[trigger] frames[k] == true by {
                    if k < n {
                        assert(init[k] == frames[k]);
                    }
                }
                if run + 1 < frames.len() {
                    assert(frames[n - run - 1] == init[n - run - 1]);
                }
                assert(ends_with_run(frames, run + 1, true));
            } else {
                assert(state.speech_run == 0);
                assert(ends_with_run(frames, 0, true));
            }
            if state.is_triggering {
                let start = frames.len() - 40;
                assert(stretch(frames, start, 40, true));
                assert(talks_since(frames, start));
                assert(ends_with_run(frames, 0, false));
            } else {
                assert forall|start: int| !talks_since(frames, start) by {
                    if talks_since(frames, start) {
                        if start + 40 <= n {
                            lemma_stretch_of_push(init, last, start, 40, true);
                            assert forall|gap: int| start + 40 <= gap implies !#[trigger] stretch(
                                init,
                                gap,
                                150,
                                false,
                            ) by {
                                if gap + 150 <= n {
                                    lemma_stretch_of_push(init, last, gap, 150, false);
                                }
                            }
                            assert(talks_since(init, start));
                        } else {
                            assert(frames[n] == true);
                            assert(frames[n - run - 1] == init[n - run - 1]);
                        }
                    }
                }
            }
        }
    }
}

/// An application is a trigger exactly while it talks: forty frames of speech stood in a
/// row, and no hundred and fifty frames without speech in a row came after them. Pauses that
/// speech interrupts do not add up, nor does speech that a pause interrupts.
pub proof fn law_triggers_exactly_while_it_talks(frames: Seq<bool>)
    ensures
        observed_all(unheard(), frames).is_triggering <==> exists|start: int|
            talks_since(frames, start),
{
    lemma_counts(frames);
}

/// Any frame with speech starts the count of silence over again, and any frame without it
/// the count of speech, whether the application is a trigger or not. The other count goes up
/// by one, or starts over behind the largest number.
pub proof fn law_each_frame_starts_the_other_count_over(state: PersistedDuckState)
    ensures
        observed(state, true).silence_run == 0,
        observed(state, false).speech_run == 0,
        state.speech_run < u32::MAX ==> observed(state, true).speech_run == state.speech_run + 1,
        state.silence_run < u32::MAX ==> observed(state, false).silence_run == state.silence_run
            + 1,
        state.speech_run == u32::MAX ==> observed(state, true).speech_run == 0,
        state.silence_run == u32::MAX ==> observed(state, false).silence_run == 0,
{
}

/// One frame turns a trigger on only if it is speech, and off only if it is not.
pub proof fn law_a_frame_turns_only_its_way(state: PersistedDuckState, speech: bool)
    requires
        state.is_triggering ==> state.silence_run < 150,
        !state.is_triggering ==> state.speech_run < 40,
    ensures
        observed(state, speech).is_triggering != state.is_triggering ==> speech
            != state.is_triggering,
        observed(state, speech).is_triggering ==> observed(state, speech).silence_run < 150,
        !observed(state, speech).is_triggering ==> observed(state, speech).speech_run < 40,
{
}

/// The verdicts on the frames from `from` on, each in the light of all frames before it.
pub open spec fn verdicts(heard: Seq<Seq<i16>>, from: int) -> Seq<bool> {
    Seq::new(
        (heard.len() - from) as nat,
        |k: int|
            voice_verdict((VoiceRate::Rate48kHz, VoiceMode::Aggressive), heard.take(from + k + 1)),
    )
}

proof fn lemma_drained(detector: DetectorView)
    ensures
        ({
            let n = detector.pending.len() as int / 480;
            let old = detector.heard.len() as int;
            let after = drained(detector);
            &&& after.excluded == detector.excluded
            &&& after.heard.len() == old + n
            &&& after.heard.take(old) == detector.heard
            &&& forall|k: int|
                0 <= k < n ==> #[trigger] after.heard[old + k] == detector.pending.subrange(
                    480 * k,
                    480 * k + 480,
                )
            &&& after.pending == detector.pending.skip(480 * n)
            &&& after.counters == observed_all(detector.counters, verdicts(after.heard, old))
        }),
    decreases detector.pending.len(),
{
    let n = detector.pending.len() as int / 480;
    let old = detector.heard.len() as int;
    let after = drained(detector);
    let pending = detector.pending;
    if pending.len() < 480 {
        assert(n == 0);
        assert(after == detector);
        assert(after.heard.take(old) =~= detector.heard);
        assert(pending.skip(0) =~= pending);
        assert(verdicts(after.heard, old) =~= Seq::<bool>::empty());
    } else {
        let heard = detector.heard.push(pending.take(480));
        let verdict = voice_verdict(detector_setup(), heard);
        let next = DetectorView {
            heard,
            pending: pending.skip(480),
            counters: observed(detector.counters, verdict),
            ..detector
        };
        lemma_drained(next);
        assert(after == drained(next));
        assert(next.pending.len() as int / 480 == n - 1);
        assert(after.heard.take(old + 1) == heard);
        assert(after.heard.take(old) =~= heard.take(old));
        assert(heard.take(old) =~= detector.heard);
        assert forall|k: int| 0 <= k < n implies #[trigger] after.heard[old + k]
            == pending.subrange(480 * k, 480 * k + 480) by {
            if k == 0 {
                assert(after.heard.take(old + 1)[old] == after.heard[old]);
                assert(pending.subrange(0, 480) =~= pending.take(480));
            } else {
                assert(after.heard[(old + 1) + (k - 1)] == next.pending.subrange(
                    480 * (k - 1),
                    480 * (k - 1) + 480,
                ));
                assert(next.pending.subrange(480 * (k - 1), 480 * (k - 1) + 480)
                    =~= pending.subrange(480 * k, 480 * k + 480));
            }
        }
        assert(next.pending.skip(480 * (n - 1)) =~= pending.skip(480 * n));
        let all = verdicts(after.heard, old);
        let rest = verdicts(after.heard, old + 1);
        assert(all =~= seq![verdict] + rest) by {
            assert(after.heard.take(old + 0 + 1) == heard);
        }
        lemma_observed_from(detector.counters, verdict, rest);
    }
}

proof fn lemma_observed_from(state: PersistedDuckState, first: bool, rest: Seq<bool>)
    ensures
        observed_all(state, seq![first] + rest) == observed_all(observed(state, first), rest),
    decreases rest.len(),
{
    let all = seq![first] + rest;
    if rest.len() == 0 {
        assert(all.drop_last() =~= Seq::<bool>::empty());
        assert(all.last() == first);
        assert(observed_all(state, all.drop_last()) == state);
    } else {
        assert(all.drop_last() =~= seq![first] + rest.drop_last());
        assert(all.last() == rest.last());
        lemma_observed_from(state, first, rest.drop_last());
    }
}

/// Sound is cut into frames of ten milliseconds, one after the other, with nothing lost,
/// added or heard twice: each whole frame is judged in its turn, and what does not fill one
/// waits. The counters have seen exactly the verdicts on those frames.
pub proof fn law_every_sample_is_heard_once(detector: DetectorView, samples: Seq<i16>)
    requires
        !detector.excluded,
        detector.pending.len() < 480,
    ensures
        ({
            let all = detector.pending + samples;
            let n = all.len() as int / 480;
            let old = detector.heard.len() as int;
            let after = fed(detector, samples);
            &&& !after.excluded
            &&& after.heard.len() == old + n
            &&& after.heard.take(old) == detector.heard
            &&& forall|k: int|
                0 <= k < n ==> #[trigger] after.heard[old + k] == all.subrange(
                    480 * k,
                    480 * k + 480,
                )
            &&& after.pending == all.skip(480 * n)
            &&& after.counters == observed_all(detector.counters, verdicts(after.heard, old))
        }),
{
    let all = detector.pending + samples;
    lemma_drained(DetectorView { pending: all, ..detector });
    if samples.len() == 0 {
        assert(all =~= detector.pending);
        lemma_drained(detector);
    }
}

/// Listening to one application leaves every other as it was, and while ducking is off
/// nobody listens at all.
pub proof fn law_listening_is_to_one_application(runtime: RuntimeView, tap: int, sound: Seq<i16>)
    ensures
        ({
            let after = listened(runtime, tap, sound);
            &&& after.enabled == runtime.enabled
            &&& after.multipliers == runtime.multipliers
            &&& after.detectors.len() == runtime.detectors.len()
            &&& forall|i: int|
                0 <= i < runtime.detectors.len() && (i != tap || !runtime.enabled)
                    ==> #[trigger] after.detectors[i] == runtime.detectors[i]
            &&& runtime.enabled && 0 <= tap < runtime.detectors.len() ==> after.detectors[tap]
                == fed(runtime.detectors[tap], sound)
        }),
{
}

/// A runtime starts with nothing heard and at full gain, with the exclusions and counters
/// that it is given.
pub proof fn law_a_runtime_starts_at_full_gain(
    enabled: bool,
    excluded: Seq<bool>,
    persisted: Seq<PersistedDuckState>,
)
    ensures
        ({
            let runtime = runtime_started(enabled, excluded, persisted);
            &&& runtime.enabled == enabled
            &&& runtime.detectors.len() == excluded.len()
            &&& runtime.multipliers.len() == excluded.len()
            &&& forall|i: int|
                0 <= i < excluded.len() ==> {
                    let detector = #[trigger] runtime.detectors[i];
                    &&& detector.excluded == excluded[i]
                    &&& detector.counters == persisted[i]
                    &&& detector.heard.len() == 0
                    &&& detector.pending.len() == 0
                }
            &&& forall|i: int|
                0 <= i < excluded.len() ==> (#[trigger] runtime.multipliers[i]).bits
                    == 0x3f80_0000
        }),
{
}

/// Somebody triggers ducking exactly if ducking is on and an application is a trigger; one
/// is enough.
pub proof fn law_one_trigger_is_enough(runtime: RuntimeView)
    ensures
        forall|i: int|
            0 <= i < runtime.detectors.len() && runtime.enabled && (
            #[trigger] runtime.detectors[i]).counters.is_triggering ==> runtime_triggering(runtime),
        runtime_triggering(runtime) ==> runtime.enabled,
        (forall|i: int|
            0 <= i < runtime.detectors.len() ==> !(
            #[trigger] runtime.detectors[i]).counters.is_triggering) ==> !runtime_triggering(
            runtime,
        ),
{
}

/// A ducked volume is the volume times 0.22, to the nearest number.
pub proof fn law_ducked_means_twenty_two_hundredths(volume: Level)
    requires
        volume.magnitude() < INFINITY_BITS,
    ensures
        is_product(ducked_volume(volume), volume, 0x3e61_47ae),
{
    let one = pow2(149) as int;
    lemma_pow2_pos(149);
    lemma_product_at_most(volume, Level { bits: DUCK_GAIN_MULTIPLIER_BITS });
    law_rounding_gives_the_nearest_number(
        rounded(size(volume.magnitude()) * size(0x3e61_47ae), one),
        size(volume.magnitude()) * size(0x3e61_47ae),
        one,
    );
}

} // verus!
