//! Which sound goes into the mix: the taps that take part, how much of each, and
//! whether it is ducked.

use vstd::prelude::*;

use crate::duck_detect::{runtime_triggering, DuckingRuntime, RuntimeView};
use crate::gain::AtomicGainSlot;
use crate::level::{Level, ZERO_BITS};

verus! {

/// The most samples that are mixed at a time.
pub const MIX_SCRATCH_CAPACITY: usize = 4096;

/// The bytes of one sample.
pub const SAMPLE_BYTES: u32 = 4;

/// One buffer of a callback.
#[derive(Clone, Copy, Debug, PartialEq, Eq, Structural)]
pub struct TapBuffer {
    pub byte_size: u32,
    /// Whether there is any memory behind it.
    pub has_data: bool,
}

/// How many samples a buffer holds.
pub open spec fn samples_in(buffer: TapBuffer) -> nat {
    (buffer.byte_size / SAMPLE_BYTES) as nat
}

/// The largest number of samples in any of the buffers.
pub open spec fn most_samples(buffers: Seq<TapBuffer>) -> nat
    decreases buffers.len(),
{
    if buffers.len() == 0 {
        0
    } else {
        let before = most_samples(buffers.drop_last());
        let last = samples_in(buffers.last());
        if before < last {
            last
        } else {
            before
        }
    }
}

pub open spec fn capped(samples: nat) -> nat {
    if samples < MIX_SCRATCH_CAPACITY {
        samples
    } else {
        MIX_SCRATCH_CAPACITY as nat
    }
}

/// The buffers that belong to a tap: there may be more buffers than gains or the
/// other way round.
pub open spec fn tap_buffers(buffers: Seq<TapBuffer>, gain_count: nat) -> Seq<TapBuffer> {
    if buffers.len() <= gain_count {
        buffers
    } else {
        buffers.take(gain_count as int)
    }
}

/// How many samples are mixed.
pub open spec fn mix_length(buffers: Seq<TapBuffer>, gain_count: nat) -> nat {
    capped(most_samples(tap_buffers(buffers, gain_count)))
}

/// How many stereo frames of a buffer take part.
pub open spec fn frames_in(buffer: TapBuffer, mix_samples: nat) -> nat {
    if samples_in(buffer) < mix_samples {
        samples_in(buffer) / 2
    } else {
        mix_samples / 2
    }
}

/// What the gain of a tap is moved toward.
#[derive(Clone, Copy, Debug, PartialEq, Eq, Structural)]
pub enum DuckTarget {
    /// The ducked gain, from the given multiplier.
    Ducked(Level),
    /// The full gain, from the given multiplier.
    Full(Level),
    /// It is not followed, and stays at full gain.
    Untracked,
}

/// The part that one tap has in the mix.
#[derive(Clone, Copy, Debug, PartialEq, Eq, Structural)]
pub struct TapMix {
    pub index: usize,
    pub frames: usize,
    pub left: Level,
    pub right: Level,
    pub duck: DuckTarget,
}

/// Whether a tap is heard at all.
pub open spec fn is_heard(buffer: TapBuffer, gains: (Level, Level)) -> bool {
    let zero = Level { bits: ZERO_BITS };
    buffer.has_data && !(gains.0.same(zero) && gains.1.same(zero))
}

/// A tap is ducked while another one is talking; one that is talking itself never is.
pub open spec fn duck_target(runtime: RuntimeView, i: int) -> DuckTarget {
    if i >= runtime.multipliers.len() {
        DuckTarget::Untracked
    } else if runtime_triggering(runtime) && !(i < runtime.detectors.len()
        && runtime.detectors[i].counters.is_triggering) {
        DuckTarget::Ducked(runtime.multipliers[i])
    } else {
        DuckTarget::Full(runtime.multipliers[i])
    }
}

/// The part that one tap has in the mix, if it is heard.
pub open spec fn tap_part(
    buffers: Seq<TapBuffer>,
    gains: Seq<(Level, Level)>,
    runtime: RuntimeView,
    mix_samples: nat,
    i: int,
) -> Option<TapMix> {
    if is_heard(buffers[i], gains[i]) {
        Some(
            TapMix {
                index: i as usize,
                frames: frames_in(buffers[i], mix_samples) as usize,
                left: gains[i].0,
                right: gains[i].1,
                duck: duck_target(runtime, i),
            },
        )
    } else {
        None
    }
}

/// The parts that the first `n` taps have in the mix.
pub open spec fn tap_mixes(
    buffers: Seq<TapBuffer>,
    gains: Seq<(Level, Level)>,
    runtime: RuntimeView,
    mix_samples: nat,
    n: nat,
) -> Seq<TapMix>
    decreases n,
{
    if n == 0 {
        Seq::empty()
    } else {
        let before = tap_mixes(buffers, gains, runtime, mix_samples, (n - 1) as nat);
        match tap_part(buffers, gains, runtime, mix_samples, n - 1) {
            Some(part) => before.push(part),
            None => before,
        }
    }
}

/// The number of taps: as many as there are both buffers and gains.
pub open spec fn tap_count(buffers: nat, gains: nat) -> nat {
    if buffers <= gains {
        buffers
    } else {
        gains
    }
}

pub open spec fn gain_views(slots: Seq<AtomicGainSlot>) -> Seq<(Level, Level)> {
    slots.map_values(|s: AtomicGainSlot| s@)
}

fn samples_of(buffer: &TapBuffer) -> (n: usize)
    ensures
        n == samples_in(*buffer),
{
    (buffer.byte_size / SAMPLE_BYTES) as usize
}

/// How many samples to mix; none where there is nothing to do.
pub fn mix_samples(buffers: &Vec<TapBuffer>, gain_count: usize) -> (n: usize)
    ensures
        n == mix_length(buffers@, gain_count as nat),
        n <= MIX_SCRATCH_CAPACITY,
{
    let taps: usize = if buffers.len() <= gain_count {
        buffers.len()
    } else {
        gain_count
    };
    let ghost used = tap_buffers(buffers@, gain_count as nat);
    let mut most: usize = 0;
    let mut i: usize = 0;
    assert(used.take(0) =~= Seq::<TapBuffer>::empty());
    while i < taps
        invariant
            i <= taps == used.len(),
            taps <= buffers@.len(),
            used == tap_buffers(buffers@, gain_count as nat),
            most == most_samples(used.take(i as int)),
        decreases taps - i,
    {
        proof {
            assert(used.take(i + 1).drop_last() == used.take(i as int));
            assert(used.take(i + 1).last() == buffers@[i as int]);
        }
        let n: usize = samples_of(&buffers[i]);
        if most < n {
            most = n;
        }
        i += 1;
    }
    assert(used.take(i as int) == used);
    if most < MIX_SCRATCH_CAPACITY {
        most
    } else {
        MIX_SCRATCH_CAPACITY
    }
}

/// How many frames of a tap are listened to: none where it has no memory behind it,
/// or nobody listens to it.
pub open spec fn analysed_frames(
    buffer: TapBuffer,
    tap: int,
    mix_samples: nat,
    detector_count: int,
) -> nat {
    if buffer.has_data && tap < detector_count {
        frames_in(buffer, mix_samples)
    } else {
        0
    }
}

/// How many frames of a tap are listened to.
pub fn frames_to_analyse(
    buffers: &Vec<TapBuffer>,
    tap: usize,
    mix_samples: usize,
    detector_count: usize,
) -> (frames: usize)
    requires
        tap < buffers@.len(),
    ensures
        frames == analysed_frames(
            buffers@[tap as int],
            tap as int,
            mix_samples as nat,
            detector_count as int,
        ),
{
    if !buffers[tap].has_data || tap >= detector_count {
        return 0;
    }
    let n: usize = samples_of(&buffers[tap]);
    if n < mix_samples {
        n / 2
    } else {
        mix_samples / 2
    }
}

/// The part that one tap has in the mix. It takes part if there is sound in it and its
/// gains are not both zero.
pub fn plan_tap(
    buffers: &Vec<TapBuffer>,
    gain_slots: &Vec<AtomicGainSlot>,
    runtime: &DuckingRuntime,
    mix_samples: usize,
    tap: usize,
) -> (part: Option<TapMix>)
    requires
        tap < buffers@.len(),
        tap < gain_slots@.len(),
    ensures
        part == tap_part(
            buffers@,
            gain_views(gain_slots@),
            runtime@,
            mix_samples as nat,
            tap as int,
        ),
{
    let (left, right) = gain_slots[tap].load();
    assert(gain_views(gain_slots@)[tap as int] == (left, right));
    let zero = Level { bits: ZERO_BITS };
    if !buffers[tap].has_data || (left.is_same(zero) && right.is_same(zero)) {
        return None;
    }
    let n: usize = samples_of(&buffers[tap]);
    let frames: usize = if n < mix_samples {
        n / 2
    } else {
        mix_samples / 2
    };
    let duck = match runtime.multiplier_at(tap) {
        Some(multiplier) => {
            let talking = tap < runtime.detector_count() && runtime.is_triggering_at(tap);
            if !talking && runtime.any_triggering() {
                DuckTarget::Ducked(multiplier)
            } else {
                DuckTarget::Full(multiplier)
            }
        },
        None => DuckTarget::Untracked,
    };
    Some(TapMix { index: tap, frames, left, right, duck })
}

/// The part that each tap has in the mix.
pub fn plan_mix(
    buffers: &Vec<TapBuffer>,
    gain_slots: &Vec<AtomicGainSlot>,
    runtime: &DuckingRuntime,
    mix_samples: usize,
) -> (taps: Vec<TapMix>)
    ensures
        taps@ == tap_mixes(
            buffers@,
            gain_views(gain_slots@),
            runtime@,
            mix_samples as nat,
            tap_count(buffers@.len(), gain_slots@.len()),
        ),
{
    let count: usize = if buffers.len() <= gain_slots.len() {
        buffers.len()
    } else {
        gain_slots.len()
    };
    let mut taps: Vec<TapMix> = Vec::new();
    let mut i: usize = 0;
    while i < count
        invariant
            i <= count,
            count == tap_count(buffers@.len(), gain_slots@.len()),
            taps@ == tap_mixes(
                buffers@,
                gain_views(gain_slots@),
                runtime@,
                mix_samples as nat,
                i as nat,
            ),
        decreases count - i,
    {
        if let Some(part) = plan_tap(buffers, gain_slots, runtime, mix_samples, i) {
            taps.push(part);
        }
        i += 1;
    }
    taps
}

/// How many samples to play at a time: what the device's buffer holds, as far as can be
/// done at once; none if there is no memory behind it.
pub open spec fn played_samples(buffer: TapBuffer) -> nat {
    if buffer.has_data {
        capped(samples_in(buffer))
    } else {
        0
    }
}

/// How many samples to play at a time.
pub fn playback_samples(buffer: &TapBuffer) -> (n: usize)
    ensures
        n == played_samples(*buffer),
{
    if !buffer.has_data {
        return 0;
    }
    let n: usize = samples_of(buffer);
    if n < MIX_SCRATCH_CAPACITY {
        n
    } else {
        MIX_SCRATCH_CAPACITY
    }
}

/// Nobody who is talking is ducked, and nothing is ducked while ducking is off.
pub proof fn law_talking_taps_are_not_ducked(runtime: RuntimeView, i: int)
    requires
        0 <= i < runtime.detectors.len(),
    ensures
        runtime.detectors[i].counters.is_triggering ==> !(duck_target(runtime, i) is Ducked),
        !runtime.enabled ==> !(duck_target(runtime, i) is Ducked),
{
}

/// While ducking is on and somebody is talking, every tap that is followed and is not
/// talking itself is ducked.
pub proof fn law_others_are_ducked_while_one_talks(runtime: RuntimeView, talking: int, other: int)
    requires
        runtime.enabled,
        0 <= talking < runtime.detectors.len(),
        runtime.detectors[talking].counters.is_triggering,
        0 <= other < runtime.detectors.len(),
        other < runtime.multipliers.len(),
        !runtime.detectors[other].counters.is_triggering,
    ensures
        duck_target(runtime, other) == DuckTarget::Ducked(runtime.multipliers[other]),
{
}

proof fn lemma_tap_mixes_fit(
    buffers: Seq<TapBuffer>,
    gains: Seq<(Level, Level)>,
    runtime: RuntimeView,
    mix_samples: nat,
    n: nat,
)
    requires
        n <= buffers.len(),
        n <= usize::MAX,
        mix_samples <= MIX_SCRATCH_CAPACITY,
    ensures
        forall|k: int|
            0 <= k < tap_mixes(buffers, gains, runtime, mix_samples, n).len() ==> {
                let tap = #[trigger] tap_mixes(buffers, gains, runtime, mix_samples, n)[k];
                &&& tap.index < n
                &&& 2 * tap.frames <= mix_samples
                &&& 2 * tap.frames <= samples_in(buffers[tap.index as int])
                &&& buffers[tap.index as int].has_data
            },
    decreases n,
{
    if n > 0 {
        lemma_tap_mixes_fit(buffers, gains, runtime, mix_samples, (n - 1) as nat);
    }
}

/// No tap's part reaches beyond what is mixed or beyond what its buffer holds, so that
/// mixing stays within both.
pub proof fn law_parts_stay_within_their_buffers(
    buffers: Seq<TapBuffer>,
    gains: Seq<(Level, Level)>,
    runtime: RuntimeView,
)
    requires
        buffers.len() <= usize::MAX,
    ensures
        ({
            let samples = mix_length(buffers, gains.len());
            let n = tap_count(buffers.len(), gains.len());
            let taps = tap_mixes(buffers, gains, runtime, samples, n);
            forall|k: int|
                0 <= k < taps.len() ==> {
                    let tap = #[trigger] taps[k];
                    &&& tap.index < n
                    &&& 2 * tap.frames <= samples
                    &&& 2 * tap.frames <= samples_in(buffers[tap.index as int])
                    &&& buffers[tap.index as int].has_data
                }
        }),
{
    lemma_tap_mixes_fit(
        buffers,
        gains,
        runtime,
        mix_length(buffers, gains.len()),
        tap_count(buffers.len(), gains.len()),
    );
}

} // verus!
