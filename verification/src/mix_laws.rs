//! What holds of the mix as a whole: who takes part in it, and how.

use vstd::prelude::*;

use crate::duck_detect::RuntimeView;
use crate::level::Level;
use crate::mix::{
    analysed_frames, capped, frames_in, mix_length, most_samples, played_samples, samples_in,
    tap_buffers, tap_count, tap_mixes, tap_part, DuckTarget, TapBuffer, TapMix,
};

verus! {

/// Whether a gain silences its side: it is one of the two zeros.
pub open spec fn is_silent(gain: Level) -> bool {
    gain.bits == 0 || gain.bits == 0x8000_0000
}

/// Whether the application behind a tap is talking.
pub open spec fn talks(runtime: RuntimeView, i: int) -> bool {
    0 <= i < runtime.detectors.len() && runtime.detectors[i].counters.is_triggering
}

/// Whether a tap has a part in the mix.
pub open spec fn takes_part(taps: Seq<TapMix>, i: int) -> bool {
    exists|k: int| 0 <= k < taps.len() && (#[trigger] taps[k]).index == i
}

proof fn lemma_parts(
    buffers: Seq<TapBuffer>,
    gains: Seq<(Level, Level)>,
    runtime: RuntimeView,
    mix_samples: nat,
    n: nat,
)
    requires
        n <= buffers.len(),
        n <= gains.len(),
        n <= usize::MAX,
        mix_samples <= usize::MAX,
    ensures
        ({
            let taps = tap_mixes(buffers, gains, runtime, mix_samples, n);
            &&& forall|k: int|
                0 <= k < taps.len() ==> {
                    let tap = #[trigger] taps[k];
                    &&& tap.index < n
                    &&& tap_part(buffers, gains, runtime, mix_samples, tap.index as int) == Some(
                        tap,
                    )
                }
            &&& forall|a: int, b: int|
                0 <= a < b < taps.len() ==> (#[trigger] taps[a]).index < (#[trigger] taps[b]).index
            &&& forall|i: int|
                0 <= i < n ==> (#[trigger] takes_part(taps, i) <==> tap_part(
                    buffers,
                    gains,
                    runtime,
                    mix_samples,
                    i,
                ) is Some)
        }),
    decreases n,
{
    if n > 0 {
        let m = (n - 1) as nat;
        let before = tap_mixes(buffers, gains, runtime, mix_samples, m);
        let taps = tap_mixes(buffers, gains, runtime, mix_samples, n);
        lemma_parts(buffers, gains, runtime, mix_samples, m);
        let part = tap_part(buffers, gains, runtime, mix_samples, m as int);
        assert forall|i: int| 0 <= i < n implies (#[trigger] takes_part(taps, i) <==> tap_part(
            buffers,
            gains,
            runtime,
            mix_samples,
            i,
        ) is Some) by {
            if takes_part(before, i) {
                let k = choose|k: int| 0 <= k < before.len() && (#[trigger] before[k]).index == i;
                assert(taps[k].index == i);
            }
            if takes_part(taps, i) {
                let k = choose|k: int| 0 <= k < taps.len() && (#[trigger] taps[k]).index == i;
                if k < before.len() {
                    assert(before[k].index == i);
                    assert(takes_part(before, i));
                }
            }
            if i == m && part is Some {
                assert(taps[taps.len() - 1].index == i);
            }
            if i < m {
                assert(takes_part(before, i) <==> tap_part(
                    buffers,
                    gains,
                    runtime,
                    mix_samples,
                    i,
                ) is Some);
            }
        }
    }
}

/// A tap has a part in the mix exactly if there is sound in it and at least one of its two
/// gains is not zero: one that is turned fully to one side is heard on that side. It has one
/// part, under its own number and with its own gains, and the parts follow the order of the
/// taps.
pub proof fn law_every_audible_tap_has_one_part(
    buffers: Seq<TapBuffer>,
    gains: Seq<(Level, Level)>,
    runtime: RuntimeView,
    mix_samples: nat,
)
    requires
        buffers.len() <= usize::MAX,
        mix_samples <= usize::MAX,
    ensures
        ({
            let n = tap_count(buffers.len(), gains.len());
            let taps = tap_mixes(buffers, gains, runtime, mix_samples, n);
            &&& forall|i: int|
                0 <= i < buffers.len() && i < gains.len() ==> (#[trigger] takes_part(taps, i)
                    <==> buffers[i].has_data && !(is_silent(gains[i].0) && is_silent(gains[i].1)))
            &&& forall|k: int|
                0 <= k < taps.len() ==> {
                    let tap = #[trigger] taps[k];
                    &&& tap.index < buffers.len() && tap.index < gains.len()
                    &&& (tap.left, tap.right) == gains[tap.index as int]
                }
            &&& forall|a: int, b: int|
                0 <= a < b < taps.len() ==> (#[trigger] taps[a]).index < (#[trigger] taps[b]).index
        }),
{
    lemma_parts(buffers, gains, runtime, mix_samples, tap_count(buffers.len(), gains.len()));
}

/// A tap gives as many whole frames as both its buffer and the mix have room for: one more
/// would reach beyond one of them.
pub proof fn law_parts_are_as_long_as_they_can_be(
    buffers: Seq<TapBuffer>,
    gains: Seq<(Level, Level)>,
    runtime: RuntimeView,
    mix_samples: nat,
    k: int,
)
    requires
        buffers.len() <= usize::MAX,
        mix_samples <= usize::MAX,
        0 <= k < tap_mixes(
            buffers,
            gains,
            runtime,
            mix_samples,
            tap_count(buffers.len(), gains.len()),
        ).len(),
    ensures
        ({
            let n = tap_count(buffers.len(), gains.len());
            let tap = tap_mixes(buffers, gains, runtime, mix_samples, n)[k];
            let bytes = buffers[tap.index as int].byte_size;
            // A frame is two samples of four bytes.
            &&& 8 * tap.frames <= bytes && 2 * tap.frames <= mix_samples
            &&& 8 * (tap.frames + 1) > bytes || 2 * (tap.frames + 1) > mix_samples
        }),
{
    lemma_parts(buffers, gains, runtime, mix_samples, tap_count(buffers.len(), gains.len()));
}

/// A tap is ducked exactly if ducking is on, somebody talks, and it does not talk itself.
/// One that is followed moves on from its own multiplier, and one that is not stays as it
/// is.
pub proof fn law_who_is_ducked(
    buffers: Seq<TapBuffer>,
    gains: Seq<(Level, Level)>,
    runtime: RuntimeView,
    mix_samples: nat,
    k: int,
)
    requires
        buffers.len() <= usize::MAX,
        mix_samples <= usize::MAX,
        0 <= k < tap_mixes(
            buffers,
            gains,
            runtime,
            mix_samples,
            tap_count(buffers.len(), gains.len()),
        ).len(),
    ensures
        ({
            let n = tap_count(buffers.len(), gains.len());
            let tap = tap_mixes(buffers, gains, runtime, mix_samples, n)[k];
            let i = tap.index as int;
            match tap.duck {
                DuckTarget::Ducked(multiplier) => {
                    &&& i < runtime.multipliers.len() && multiplier == runtime.multipliers[i]
                    &&& runtime.enabled && !talks(runtime, i)
                    &&& exists|j: int| talks(runtime, j)
                },
                DuckTarget::Full(multiplier) => {
                    &&& i < runtime.multipliers.len() && multiplier == runtime.multipliers[i]
                    &&& !runtime.enabled || talks(runtime, i) || forall|j: int|
                        !#[trigger] talks(runtime, j)
                },
                DuckTarget::Untracked => i >= runtime.multipliers.len(),
            }
        }),
{
    let n = tap_count(buffers.len(), gains.len());
    lemma_parts(buffers, gains, runtime, mix_samples, n);
    let tap = tap_mixes(buffers, gains, runtime, mix_samples, n)[k];
    if tap.duck is Ducked {
        let j = choose|j: int|
            0 <= j < runtime.detectors.len() && (
            #[trigger] runtime.detectors[j]).counters.is_triggering;
        assert(talks(runtime, j));
    }
    if tap.duck is Full {
        assert forall|j: int| #[trigger] talks(runtime, j) && runtime.enabled implies talks(
            runtime,
            tap.index as int,
        ) by {
            assert(runtime.detectors[j].counters.is_triggering);
        }
    }
}

proof fn lemma_most_samples(buffers: Seq<TapBuffer>)
    ensures
        forall|i: int|
            0 <= i < buffers.len() ==> samples_in(#[trigger] buffers[i]) <= most_samples(buffers),
        most_samples(buffers) > 0 ==> exists|i: int|
            0 <= i < buffers.len() && samples_in(#[trigger] buffers[i]) == most_samples(buffers),
    decreases buffers.len(),
{
    if buffers.len() > 0 {
        let init = buffers.drop_last();
        lemma_most_samples(init);
        assert forall|i: int| 0 <= i < buffers.len() implies samples_in(#[trigger] buffers[i])
            <= most_samples(buffers) by {
            if i < init.len() {
                assert(init[i] == buffers[i]);
            }
        }
        if most_samples(buffers) > 0 {
            if most_samples(init) < samples_in(buffers.last()) {
                assert(samples_in(buffers[buffers.len() - 1]) == most_samples(buffers));
            } else {
                let i = choose|i: int|
                    0 <= i < init.len() && samples_in(#[trigger] init[i]) == most_samples(init);
                assert(buffers[i] == init[i]);
            }
        }
    }
}

/// As many samples are mixed as the fullest tap has, but never more than the scratch buffer
/// holds. What belongs to no tap does not count.
pub proof fn law_the_fullest_tap_sets_the_length(buffers: Seq<TapBuffer>, gain_count: nat)
    ensures
        ({
            let n = mix_length(buffers, gain_count);
            &&& n <= 4096
            &&& n < 4096 ==> forall|i: int|
                0 <= i < buffers.len() && i < gain_count ==> (#[trigger] buffers[i]).byte_size / 4
                    <= n
            &&& n > 0 ==> exists|i: int|
                0 <= i < buffers.len() && i < gain_count && (#[trigger] buffers[i]).byte_size / 4
                    >= n
        }),
{
    let used = tap_buffers(buffers, gain_count);
    let n = mix_length(buffers, gain_count);
    lemma_most_samples(used);
    if n < 4096 {
        assert forall|i: int| 0 <= i < buffers.len() && i < gain_count implies (
        #[trigger] buffers[i]).byte_size / 4 <= n by {
            assert(used[i] == buffers[i]);
            assert(samples_in(used[i]) <= most_samples(used));
        }
    }
    if n > 0 {
        let i = choose|i: int|
            0 <= i < used.len() && samples_in(#[trigger] used[i]) == most_samples(used);
        assert(used[i] == buffers[i]);
    }
}

/// What is listened to and played is as much as is there and there is room for.
pub proof fn law_frames_fill_the_room(buffer: TapBuffer, mix_samples: nat)
    ensures
        8 * frames_in(buffer, mix_samples) <= buffer.byte_size,
        2 * frames_in(buffer, mix_samples) <= mix_samples,
        8 * (frames_in(buffer, mix_samples) + 1) > buffer.byte_size || 2 * (frames_in(
            buffer,
            mix_samples,
        ) + 1) > mix_samples,
        4 * capped(samples_in(buffer)) <= buffer.byte_size,
        capped(samples_in(buffer)) <= 4096,
        4 * (capped(samples_in(buffer)) + 1) > buffer.byte_size || capped(samples_in(buffer))
            == 4096,
{
}

/// What is listened to of a tap is as long as its buffer and the mix allow; nothing is where
/// there is no memory behind it or nobody listens to it.
pub proof fn law_how_much_is_listened_to(
    buffer: TapBuffer,
    tap: int,
    mix_samples: nat,
    detector_count: int,
)
    ensures
        ({
            let frames = analysed_frames(buffer, tap, mix_samples, detector_count);
            &&& !buffer.has_data || detector_count <= tap ==> frames == 0
            &&& 8 * frames <= buffer.byte_size && 2 * frames <= mix_samples
            &&& buffer.has_data && tap < detector_count ==> 8 * (frames + 1) > buffer.byte_size
                || 2 * (frames + 1) > mix_samples
        }),
{
}

/// What is played at a time is as long as the buffer allows, and 4096 samples at most;
/// nothing is where there is no memory behind it.
pub proof fn law_how_much_is_played(buffer: TapBuffer)
    ensures
        ({
            let n = played_samples(buffer);
            &&& !buffer.has_data ==> n == 0
            &&& 4 * n <= buffer.byte_size && n <= 4096
            &&& buffer.has_data ==> 4 * (n + 1) > buffer.byte_size || n == 4096
        }),
{
}

} // verus!
