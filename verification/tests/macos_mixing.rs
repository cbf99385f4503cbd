use std::collections::HashMap;

use mixolume::duck_detect::{DuckingRuntime, PersistedDuckState};
use mixolume::gain::{AppGainState, AtomicGainSlot};
use mixolume::hidden::{
    hidden_by_path, is_hidden_system_bundle, is_hidden_system_process_cached,
    is_system_internal_path,
};
use mixolume::icons::{bitmap_to_png, choose_bitmap, swap_channels};
use mixolume::level::{Level, BOOST_BITS};
use mixolume::macos::{is_wanted_for_reconciliation, session_id_for_pid};
use mixolume::mix::{
    frames_to_analyse, mix_samples, plan_mix, playback_samples, DuckTarget, TapBuffer, TapMix,
};
use mixolume::ring::{as_many, place_after, rounded_capacity, FloatRingBuffer};

fn level(v: f32) -> Level {
    Level { bits: v.to_bits() }
}

fn value(level: Level) -> f32 {
    f32::from_bits(level.bits)
}

fn levels(values: &[f32]) -> Vec<Level> {
    values.iter().map(|v| level(*v)).collect()
}

fn values(levels: &[Level]) -> Vec<f32> {
    levels.iter().map(|l| value(*l)).collect()
}

fn effective_gains(state: &AppGainState) -> (f32, f32) {
    let (left, right) = state.effective_gains();
    (value(left), value(right))
}

#[test]
fn session_id_matches_windows_backend_convention_shape() {
    assert_eq!(session_id_for_pid(1234), "macos-1234");
}

#[test]
fn fresh_state_is_full_volume_unmuted() {
    let s = AppGainState::default();
    assert_eq!(value(s.volume), 1.0);
    assert!(!s.muted);
    assert_eq!(value(s.balance), 0.0);
    assert_eq!(effective_gains(&s), (1.0, 1.0));
}

#[test]
fn set_volume_clamps_into_boosted_range() {
    let mut s = AppGainState::default();
    s.set_volume(level(0.7));
    assert_eq!(value(s.volume), 0.7);
    s.set_volume(level(1.5));
    assert_eq!(value(s.volume), 1.5);
    s.set_volume(level(3.0));
    assert_eq!(s.volume, Level { bits: BOOST_BITS });
    s.set_volume(level(-0.3));
    assert_eq!(value(s.volume), 0.0);
}

#[test]
fn muting_zeroes_effective_gain_without_touching_stored_volume() {
    let mut s = AppGainState::default();
    s.set_volume(level(0.6));
    s.set_muted(true);
    assert_eq!(
        effective_gains(&s),
        (0.0, 0.0),
        "muted -> silent regardless of volume"
    );
    assert_eq!(value(s.volume), 0.6, "the underlying volume must survive a mute");
}

#[test]
fn unmuting_restores_exactly_the_last_set_volume() {
    let mut s = AppGainState::default();
    s.set_volume(level(0.42));
    s.set_muted(true);
    s.set_muted(false);
    assert_eq!(effective_gains(&s), (0.42, 0.42));
}

#[test]
fn balance_clamps_into_negative_one_one_range() {
    let mut s = AppGainState::default();
    s.set_balance(level(2.0));
    assert_eq!(value(s.balance), 1.0);
    s.set_balance(level(-2.0));
    assert_eq!(value(s.balance), -1.0);
}

#[test]
fn full_right_balance_silences_left_channel_only() {
    let mut s = AppGainState::default();
    s.set_volume(level(0.8));
    s.set_balance(level(1.0));
    assert_eq!(effective_gains(&s), (0.0, 0.8));
}

#[test]
fn full_left_balance_silences_right_channel_only() {
    let mut s = AppGainState::default();
    s.set_volume(level(0.8));
    s.set_balance(level(-1.0));
    assert_eq!(effective_gains(&s), (0.8, 0.0));
}

#[test]
fn partial_balance_only_attenuates_the_opposite_channel() {
    let mut s = AppGainState::default();
    s.set_volume(level(1.0));
    s.set_balance(level(0.5));
    assert_eq!(effective_gains(&s), (0.5, 1.0));
}

#[test]
fn muting_overrides_balance_in_both_channels() {
    let mut s = AppGainState::default();
    s.set_volume(level(1.0));
    s.set_balance(level(1.0));
    s.set_muted(true);
    assert_eq!(effective_gains(&s), (0.0, 0.0));
}

#[test]
fn setting_volume_while_muted_does_not_auto_unmute() {
    let mut s = AppGainState::default();
    s.set_muted(true);
    s.set_volume(level(0.9));
    assert!(s.muted, "changing volume alone must not implicitly unmute");
    assert_eq!(effective_gains(&s), (0.0, 0.0));
}

#[test]
fn every_change_of_a_gain_counts() {
    let mut s = AppGainState::default_full_volume();
    assert_eq!(s.set_volume(level(0.1)), 1);
    assert_eq!(s.set_muted(false), 2);
    assert_eq!(s.set_balance(level(0.0)), 3);
    assert_eq!(s.generation, 3);
    s.generation = u64::MAX;
    assert_eq!(s.bump_generation(), 0);
}

#[test]
fn atomic_gain_slot_round_trips_typical_values() {
    for v in [0.0f32, 0.25, 0.5, 1.0, 2.0] {
        let slot = AtomicGainSlot::new((level(v), level(v)));
        assert_eq!(slot.load(), (level(v), level(v)));
    }
}

#[test]
fn atomic_gain_slot_round_trips_independent_left_right_values() {
    let slot = AtomicGainSlot::new((level(0.2), level(0.9)));
    assert_eq!(slot.load(), (level(0.2), level(0.9)));
}

#[test]
fn atomic_gain_slot_store_then_load_sees_the_new_value() {
    let mut slot = AtomicGainSlot::new((level(1.0), level(1.0)));
    slot.store((level(0.33), level(0.66)));
    assert_eq!(slot.load(), (level(0.33), level(0.66)));
}

#[test]
fn ring_buffer_rounds_capacity_up_to_a_power_of_two() {
    let ring = FloatRingBuffer::new(10);
    assert_eq!(ring.capacity(), 16);
}

#[test]
fn ring_buffer_write_then_read_round_trips() {
    let mut ring = FloatRingBuffer::new(8);
    let src = [1.0f32, 2.0, 3.0, 4.0];
    let written = ring.write(&levels(&src));
    assert_eq!(written, 4);

    let mut dst = levels(&[0.0f32; 4]);
    let read = ring.read(&mut dst);
    assert_eq!(read, 4);
    assert_eq!(values(&dst), src);
}

#[test]
fn ring_buffer_read_on_empty_buffer_is_a_silent_underrun() {
    let mut ring = FloatRingBuffer::new(8);
    let mut dst = levels(&[9.0f32; 4]);
    let read = ring.read(&mut dst);
    assert_eq!(read, 0);
    assert_eq!(
        values(&dst), [9.0; 4],
        "underrun must not touch the destination buffer"
    );
}

#[test]
fn ring_buffer_write_past_capacity_drops_the_overflow_instead_of_corrupting() {
    let mut ring = FloatRingBuffer::new(4);
    let src = [1.0f32, 2.0, 3.0, 4.0, 5.0, 6.0];
    let written = ring.write(&levels(&src));
    assert_eq!(
        written, 4,
        "only `capacity` samples fit; the rest are dropped, not corrupted"
    );
    assert_eq!(ring.fill_level(), 4);
    let mut dst = levels(&[0.0f32; 6]);
    assert_eq!(ring.read(&mut dst), 4);
    assert_eq!(values(&dst), [1.0, 2.0, 3.0, 4.0, 0.0, 0.0]);
}

#[test]
fn ring_buffer_wraps_around_correctly() {
    let mut ring = FloatRingBuffer::new(4);
    ring.write(&levels(&[1.0, 2.0, 3.0, 4.0]));
    let mut drained = levels(&[0.0f32; 2]);
    ring.read(&mut drained);
    assert_eq!(values(&drained), [1.0, 2.0]);

    ring.write(&levels(&[5.0, 6.0]));
    let mut rest = levels(&[0.0f32; 4]);
    let read = ring.read(&mut rest);
    assert_eq!(read, 4);
    assert_eq!(values(&rest), [3.0, 4.0, 5.0, 6.0]);
}

#[test]
fn ring_buffer_fill_level_tracks_unread_samples() {
    let mut ring = FloatRingBuffer::new(8);
    assert_eq!(ring.fill_level(), 0);
    ring.write(&levels(&[1.0, 2.0, 3.0]));
    assert_eq!(ring.fill_level(), 3);
    let mut dst = levels(&[0.0f32; 1]);
    ring.read(&mut dst);
    assert_eq!(ring.fill_level(), 2);
}

#[test]
fn ring_buffer_holds_at_least_two_samples() {
    assert_eq!(FloatRingBuffer::new(0).capacity(), 2);
    assert_eq!(FloatRingBuffer::new(1).capacity(), 2);
    assert_eq!(FloatRingBuffer::new(16).capacity(), 16);
    assert_eq!(FloatRingBuffer::new(17).capacity(), 32);
}

#[test]
fn hides_known_system_bundle_prefixes() {
    assert!(is_hidden_system_bundle("com.apple.coreaudiod"));
    assert!(is_hidden_system_bundle("com.apple.controlcenter"));
}

#[test]
fn does_not_hide_ordinary_apps() {
    assert!(!is_hidden_system_bundle("com.spotify.client"));
    assert!(!is_hidden_system_bundle("com.google.Chrome"));
}

#[test]
fn does_not_hide_ordinary_paths() {
    assert!(!is_system_internal_path(
        "/Applications/Spotify.app/Contents/MacOS/Spotify"
    ));
    assert!(!is_system_internal_path(
        "/System/Applications/Music.app/Contents/MacOS/Music"
    ));
}

#[test]
fn hides_known_system_internal_paths() {
    assert!(is_system_internal_path("/usr/sbin/systemsoundserverd"));
    assert!(is_system_internal_path(
        "/System/Library/CoreServices/PowerChime.app/Contents/MacOS/PowerChime"
    ));
    assert!(is_system_internal_path(
        "/System/Library/Frameworks/WebKit.framework/Versions/A/XPCServices/com.apple.WebKit.GPU.xpc/Contents/MacOS/com.apple.WebKit.GPU"
    ));
}

const SECOND: u64 = 1_000_000_000;
const MILLISECOND: u64 = 1_000_000;

#[test]
fn wanted_when_reporting_active_regardless_of_hold_state() {
    let now = 100 * SECOND;
    assert!(is_wanted_for_reconciliation(true, None, now));
    assert!(is_wanted_for_reconciliation(
        true,
        Some(now - 10 * SECOND),
        now
    ));
}

#[test]
fn not_wanted_when_inactive_with_no_hold_at_all() {
    assert!(!is_wanted_for_reconciliation(false, None, 100 * SECOND));
}

#[test]
fn still_wanted_when_inactive_but_within_the_hold_window() {
    let now = 100 * SECOND;
    let hold_until = now + 500 * MILLISECOND;
    assert!(is_wanted_for_reconciliation(false, Some(hold_until), now));
}

#[test]
fn not_wanted_once_the_hold_window_has_expired() {
    let now = 100 * SECOND;
    let hold_until = now - MILLISECOND;
    assert!(!is_wanted_for_reconciliation(false, Some(hold_until), now));
}

#[test]
fn bundle_id_hide_list_short_circuits_before_any_path_lookup() {
    assert!(is_hidden_system_process_cached(
        &mut HashMap::new(),
        Some("com.apple.coreaudiod"),
        0
    ));
    assert!(!is_hidden_system_process_cached(
        &mut HashMap::new(),
        Some("com.spotify.client"),
        0
    ));
}

#[test]
fn cached_variant_caches_a_bundle_id_match_without_any_syscall() {
    let mut cache = HashMap::new();
    assert!(is_hidden_system_process_cached(
        &mut cache,
        Some("com.apple.coreaudiod"),
        0
    ));
    assert_eq!(cache.get(&0), Some(&true));
}

#[test]
fn cached_variant_does_not_cache_a_failed_syscall() {
    let mut cache = HashMap::new();
    assert!(!is_hidden_system_process_cached(&mut cache, None, 0));
    assert_eq!(cache.get(&0), None);
}

#[test]
fn cached_variant_reuses_a_cached_answer_without_needing_bundle_id_again() {
    let mut cache = HashMap::new();
    cache.insert(999_999, true);
    assert!(is_hidden_system_process_cached(&mut cache, None, 999_999));
}

#[test]
fn an_answer_by_path_is_remembered() {
    let mut cache = HashMap::new();
    let music = Ok("/Applications/Music.app/Contents/MacOS/Music".to_string());
    assert!(!hidden_by_path(&mut cache, 5, &music));
    assert_eq!(cache.get(&5), Some(&false));
    assert!(hidden_by_path(&mut cache, 6, &Ok("/usr/libexec/avconferenced".to_string())));
    assert_eq!(cache.get(&6), Some(&true));
    assert!(!hidden_by_path(&mut cache, 7, &Err("no such process".to_string())));
    assert_eq!(cache.get(&7), None);
}

const fn fourcc(bytes: [u8; 4]) -> u32 {
    ((bytes[0] as u32) << 24)
        | ((bytes[1] as u32) << 16)
        | ((bytes[2] as u32) << 8)
        | (bytes[3] as u32)
}

#[test]
fn fourcc_matches_known_selectors() {
    assert_eq!(fourcc(*b"ppid"), 0x7070_6964);
    assert_eq!(fourcc(*b"pbid"), 0x7062_6964);
    assert_eq!(fourcc(*b"piro"), 0x7069_726f);
    assert_eq!(fourcc(*b"prs#"), 0x7072_7323);
}

fn buffer(samples: u32) -> TapBuffer {
    TapBuffer { byte_size: 4 * samples, has_data: true }
}

#[test]
fn the_mix_is_as_long_as_its_longest_tap() {
    assert_eq!(mix_samples(&vec![], 3), 0);
    assert_eq!(mix_samples(&vec![buffer(8), buffer(20), buffer(12)], 3), 20);
    assert_eq!(mix_samples(&vec![buffer(8), buffer(20)], 1), 8);
    assert_eq!(mix_samples(&vec![buffer(100_000)], 1), 4096);
    assert_eq!(playback_samples(&buffer(100_000)), 4096);
    assert_eq!(playback_samples(&buffer(64)), 64);
    assert_eq!(playback_samples(&TapBuffer { byte_size: 64, has_data: false }), 0);
}

#[test]
fn only_taps_with_sound_and_a_listener_are_analysed() {
    let empty = TapBuffer { byte_size: 80, has_data: false };
    let buffers = vec![buffer(20), empty, buffer(9)];
    assert_eq!(frames_to_analyse(&buffers, 0, 12, 3), 6);
    assert_eq!(frames_to_analyse(&buffers, 1, 12, 3), 0);
    assert_eq!(frames_to_analyse(&buffers, 2, 12, 3), 4);
    assert_eq!(frames_to_analyse(&buffers, 2, 12, 2), 0);
}

#[test]
fn whoever_talks_is_not_ducked_and_the_silent_take_no_part() {
    let talking = PersistedDuckState { speech_run: 40, silence_run: 0, is_triggering: true };
    let quiet = PersistedDuckState::default();
    let mut runtime =
        DuckingRuntime::new(true, &vec![false, false, false], &vec![talking, quiet, quiet]);
    let full = AtomicGainSlot::new((level(1.0), level(0.5)));
    let muted = AtomicGainSlot::new((level(0.0), level(-0.0)));
    let buffers = vec![buffer(16), buffer(8), buffer(16), buffer(16)];
    let slots = vec![full, full, muted, full];
    let one = level(1.0);
    let part = |index: usize, frames: usize, duck: DuckTarget| TapMix {
        index,
        frames,
        left: level(1.0),
        right: level(0.5),
        duck,
    };
    assert_eq!(
        plan_mix(&buffers, &slots, &runtime, 16),
        vec![
            part(0, 8, DuckTarget::Full(one)),
            part(1, 4, DuckTarget::Ducked(one)),
            part(3, 8, DuckTarget::Untracked),
        ]
    );
    runtime.set_enabled(false);
    assert_eq!(
        plan_mix(&buffers, &slots, &runtime, 16)[1],
        part(1, 4, DuckTarget::Full(one))
    );
}

#[test]
fn a_bitmap_becomes_a_png_of_its_size() {
    let bgra = vec![1, 2, 3, 4, 5, 6, 7, 8];
    let png = bitmap_to_png(2, 1, 1, &bgra).unwrap();
    assert_eq!(&png[..8], &[0x89, b'P', b'N', b'G', 0x0d, 0x0a, 0x1a, 0x0a]);
    assert_eq!(&png[16..24], &[0, 0, 0, 2, 0, 0, 0, 1]);
    let image = image::load_from_memory(&png).unwrap().to_rgba8();
    assert_eq!(image.into_raw(), vec![3, 2, 1, 4, 7, 6, 5, 8]);
}

#[test]
fn an_unusable_bitmap_has_no_png() {
    let bgra = vec![0; 16];
    assert!(bitmap_to_png(2, 2, 2, &bgra).is_some());
    assert!(bitmap_to_png(0, 2, 2, &bgra).is_none());
    assert!(bitmap_to_png(2, -2, 2, &bgra).is_none());
    assert!(bitmap_to_png(2, 2, 0, &bgra).is_none());
    assert!(bitmap_to_png(2, 3, 3, &bgra).is_none());
}

#[test]
fn channels_are_swapped_pixel_by_pixel() {
    let pixels = vec![1, 2, 3, 4, 5, 6, 7, 8, 9, 10];
    let swapped = swap_channels(&pixels);
    assert_eq!(swapped, vec![3, 2, 1, 4, 7, 6, 5, 8, 9, 10]);
    assert_eq!(swap_channels(&swapped), pixels);
}

#[test]
fn the_smallest_large_enough_bitmap_is_used() {
    assert_eq!(choose_bitmap(&vec![]), None);
    assert_eq!(choose_bitmap(&vec![None, None]), None);
    assert_eq!(choose_bitmap(&vec![Some(16), None, Some(1024), Some(128), Some(256)]), Some(3));
    assert_eq!(choose_bitmap(&vec![Some(16), Some(64), Some(32), Some(64)]), Some(1));
    assert_eq!(choose_bitmap(&vec![Some(16), Some(1024)]), Some(1));
}

#[test]
fn places_in_a_ring_go_round() {
    assert_eq!(place_after(0, 3, 8), 3);
    assert_eq!(place_after(6, 1, 8), 7);
    assert_eq!(place_after(6, 2, 8), 0);
    assert_eq!(place_after(6, 8, 8), 6);
    assert_eq!(rounded_capacity(9), 16);
    assert_eq!((as_many(3, 5), as_many(5, 3)), (3, 3));
}
