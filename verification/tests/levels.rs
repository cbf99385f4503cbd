//! Products of volumes, held against the machine's own arithmetic.

use mixolume::duck_detect::duck_volume;
use mixolume::gain::channel_gains;
use mixolume::level::Level;

fn level(value: f32) -> Level {
    Level { bits: value.to_bits() }
}

fn value(level: Level) -> f32 {
    f32::from_bits(level.bits)
}

/// Bit patterns all over a range, each end among them.
fn patterns(up_to: u32) -> Vec<u32> {
    let mut all = vec![0, 1, 2, 3, 0x7f_ffff, 0x80_0000, 0x80_0001, up_to - 1, up_to];
    let mut seed: u64 = 0x9e37_79b9;
    for _ in 0..20_000 {
        seed = seed.wrapping_mul(6_364_136_223_846_793_005).wrapping_add(1_442_695_040_888_963_407);
        let wide = (seed >> 32) as u32;
        all.push(wide % (up_to + 1));
        all.push(up_to - (wide % 0x200_0000).min(up_to));
    }
    all
}

const ONE: u32 = 0x3f80_0000;
const LARGEST: u32 = 0x7f7f_ffff;

#[test]
fn products_with_a_share_are_rounded_like_the_machine_does() {
    let shares = patterns(ONE);
    for (bits, share) in patterns(LARGEST).into_iter().zip(shares.iter().rev().copied()) {
        let (a, b) = (Level { bits }, Level { bits: share });
        assert_eq!(a.scale(b), level(value(a) * value(b)), "{bits:x} times {share:x}");
        let negative = level(-value(a));
        assert_eq!(negative.scale(b), level(value(negative) * value(b)));
    }
    for (bits, share) in patterns(0x3fc0_0000).into_iter().zip(shares) {
        let (a, b) = (Level { bits }, Level { bits: share });
        assert_eq!(a.scale(b), level(value(a) * value(b)), "{bits:x} times {share:x}");
    }
}

#[test]
fn products_of_what_is_not_finite() {
    let half = level(0.5);
    assert!(value(level(f32::NAN).scale(half)).is_nan());
    assert_eq!(value(level(f32::INFINITY).scale(half)), f32::INFINITY);
    assert_eq!(value(level(f32::NEG_INFINITY).scale(half)), f32::NEG_INFINITY);
    assert!(value(level(f32::INFINITY).scale(level(0.0))).is_nan());
}

#[test]
fn what_is_left_of_one_is_rounded_like_the_machine_does() {
    for bits in patterns(ONE) {
        let balance = Level { bits };
        let rest = level(1.0 - value(balance));
        assert_eq!(balance.distance_from_one(), rest, "one minus {bits:x}");
        assert_eq!(level(-value(balance)).distance_from_one(), rest);
    }
}

#[test]
fn percentages_are_rounded_like_the_machine_does() {
    for bits in patterns(ONE) {
        let volume = Level { bits };
        assert_eq!(volume.to_percent(), (value(volume) * 100.0).round() as i32, "{bits:x}");
    }
    for percent in 0..=100 {
        assert_eq!(level(percent as f32 / 100.0).to_percent(), percent);
    }
    assert_eq!(level(-0.0).to_percent(), 0);
}

#[test]
fn gains_follow_the_linear_pan_law() {
    for (volume, balance) in patterns(0x3fc0_0000).into_iter().zip(patterns(ONE).into_iter().rev())
    {
        let volume = Level { bits: volume };
        for balance in [f32::from_bits(balance), -f32::from_bits(balance)] {
            let (left, right) = channel_gains(volume, level(balance));
            assert_eq!(value(left), value(volume) * (1.0 - balance.max(0.0)));
            assert_eq!(value(right), value(volume) * (1.0 + balance.min(0.0)));
            assert!(value(left) <= value(volume) && value(right) <= value(volume));
            assert_eq!(channel_gains(volume, level(-balance)), (right, left));
        }
    }
    assert_eq!(channel_gains(level(0.8), level(7.0)), (level(0.0), level(0.8)));
    assert_eq!(channel_gains(level(0.8), level(f32::NAN)), (level(0.8), level(0.8)));
}

#[test]
fn a_ducked_volume_is_less_than_a_quarter() {
    assert_eq!(duck_volume(level(1.0)), level(0.22));
    assert_eq!(duck_volume(level(0.5)), level(0.11));
    assert_eq!(duck_volume(level(1.5)), level(1.5 * 0.22));
    assert_eq!(duck_volume(level(0.0)), level(0.0));
}
