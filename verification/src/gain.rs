//! The gain of one application: volume, mute and balance.

use vstd::arithmetic::power2::{lemma_pow2_pos, pow2};
use vstd::prelude::*;

use crate::level::{Level, BOOST_BITS, INFINITY_BITS, MINUS_ONE_BITS, ONE_BITS, ZERO_BITS};
use crate::rounding::{
    law_rounding_gives_the_nearest_number, lemma_product_at_most, lemma_product_with_none,
    lemma_rest_is_share, lemma_size_of_one, nearest, rounded, size,
};
use crate::session::{
    clamp_balance, clamp_boosted_volume, clamped_balance, clamped_boosted_volume, next_generation,
};

verus! {

/// What the user set for one application.
#[derive(Clone, Copy, Debug, PartialEq, Eq, Structural)]
pub struct AppGainState {
    /// The volume, whether muted or not.
    pub volume: Level,
    pub muted: bool,
    pub balance: Level,
    /// How often the user changed any of these.
    pub generation: u64,
}

/// Full volume, not muted, centered.
pub open spec fn full_volume() -> AppGainState {
    AppGainState {
        volume: Level { bits: ONE_BITS },
        muted: false,
        balance: Level { bits: ZERO_BITS },
        generation: 0,
    }
}

/// The volume of the side that a balance turns away from: the volume times one minus the
/// absolute value of the balance, each step rounded.
pub open spec fn attenuated(volume: Level, balance: Level) -> Level {
    volume.scaled(balance.away_from_one())
}

/// The gains of the left and right channel: a balance to one side leaves that side
/// at the volume and attenuates the other one. A balance beyond a side counts as that side.
pub open spec fn panned(volume: Level, balance: Level) -> (Level, Level) {
    let zero = Level { bits: ZERO_BITS };
    let balance = clamped_balance(balance);
    if zero.less(balance) {
        (attenuated(volume, balance), volume)
    } else if balance.less(zero) {
        (volume, attenuated(volume, balance))
    } else {
        (volume, volume)
    }
}

/// The gains of the left and right channel.
pub fn channel_gains(volume: Level, balance: Level) -> (gains: (Level, Level))
    ensures
        gains == panned(volume, balance),
{
    let zero = Level { bits: ZERO_BITS };
    let balance = clamp_balance(balance);
    if zero.is_less(balance) {
        (volume.scale(balance.distance_from_one()), volume)
    } else if balance.is_less(zero) {
        (volume, volume.scale(balance.distance_from_one()))
    } else {
        (volume, volume)
    }
}

/// The state after the volume was set.
pub open spec fn volume_set(state: AppGainState, volume: Level) -> AppGainState {
    AppGainState {
        volume: clamped_boosted_volume(volume),
        generation: next_generation(state.generation),
        ..state
    }
}

/// The state after the application was muted or unmuted.
pub open spec fn muted_set(state: AppGainState, muted: bool) -> AppGainState {
    AppGainState { muted, generation: next_generation(state.generation), ..state }
}

/// The state after the balance was set.
pub open spec fn balance_set(state: AppGainState, balance: Level) -> AppGainState {
    AppGainState {
        balance: clamped_balance(balance),
        generation: next_generation(state.generation),
        ..state
    }
}

/// What the channels are multiplied by: nothing is heard while muted.
pub open spec fn gains(state: AppGainState) -> (Level, Level) {
    if state.muted {
        (Level { bits: ZERO_BITS }, Level { bits: ZERO_BITS })
    } else {
        panned(state.volume, state.balance)
    }
}

impl AppGainState {
    pub fn default_full_volume() -> (state: Self)
        ensures
            state == full_volume(),
    {
        AppGainState {
            volume: Level { bits: ONE_BITS },
            muted: false,
            balance: Level { bits: ZERO_BITS },
            generation: 0,
        }
    }

    /// Counts a change, and gives the new count.
    pub fn bump_generation(&mut self) -> (generation: u64)
        ensures
            generation == next_generation(old(self).generation),
            *final(self) == (AppGainState { generation: generation, ..*old(self) }),
    {
        self.generation = self.generation.wrapping_add(1);
        self.generation
    }

    pub fn set_volume(&mut self, volume: Level) -> (generation: u64)
        ensures
            *final(self) == volume_set(*old(self), volume),
            generation == final(self).generation,
    {
        self.volume = clamp_boosted_volume(volume);
        self.bump_generation()
    }

    pub fn set_muted(&mut self, muted: bool) -> (generation: u64)
        ensures
            *final(self) == muted_set(*old(self), muted),
            generation == final(self).generation,
    {
        self.muted = muted;
        self.bump_generation()
    }

    pub fn set_balance(&mut self, balance: Level) -> (generation: u64)
        ensures
            *final(self) == balance_set(*old(self), balance),
            generation == final(self).generation,
    {
        self.balance = clamp_balance(balance);
        self.bump_generation()
    }

    /// What the left and right channel are multiplied by.
    pub fn effective_gains(&self) -> (result: (Level, Level))
        ensures
            result == gains(*self),
    {
        if self.muted {
            (Level { bits: ZERO_BITS }, Level { bits: ZERO_BITS })
        } else {
            channel_gains(self.volume, self.balance)
        }
    }
}

impl Default for AppGainState {
    fn default() -> (state: Self)
        ensures
            state == full_volume(),
    {
        AppGainState::default_full_volume()
    }
}

/// Unmuting brings back exactly the gains from before muting.
pub proof fn law_unmuting_restores(state: AppGainState)
    requires
        !state.muted,
    ensures
        gains(muted_set(muted_set(state, true), false)) == gains(state),
{
}

/// While muted nothing is heard, whatever volume and balance are set.
pub proof fn law_muted_is_silent(state: AppGainState, volume: Level, balance: Level)
    requires
        state.muted,
    ensures
        gains(state) == (Level { bits: ZERO_BITS }, Level { bits: ZERO_BITS }),
        volume_set(state, volume).muted,
        balance_set(state, balance).muted,
{
}

/// Whether volume and balance are numbers in their ranges.
pub open spec fn in_range(state: AppGainState) -> bool {
    &&& !state.volume.is_nan() && 0 <= state.volume.rank() <= BOOST_BITS
    &&& !state.balance.is_nan() && -(ONE_BITS as int) <= state.balance.rank() <= ONE_BITS
}

/// Volume and balance are in range at the start, and stay so whatever number is set.
pub proof fn law_settings_stay_in_range(
    state: AppGainState,
    volume: Level,
    muted: bool,
    balance: Level,
)
    requires
        in_range(state),
    ensures
        in_range(full_volume()),
        !volume.is_nan() ==> in_range(volume_set(state, volume)),
        in_range(muted_set(state, muted)),
        !balance.is_nan() ==> in_range(balance_set(state, balance)),
{
}

/// No side is louder than the volume or softer than silence. A balance to one side leaves
/// that side at the volume, and a centered one both.
pub proof fn law_gains_lie_within_the_volume(state: AppGainState)
    requires
        in_range(state),
        !state.muted,
    ensures
        ({
            let (left, right) = gains(state);
            &&& !left.is_nan() && 0 <= left.rank() <= state.volume.rank()
            &&& !right.is_nan() && 0 <= right.rank() <= state.volume.rank()
            &&& state.balance.rank() <= 0 ==> left == state.volume
            &&& state.balance.rank() >= 0 ==> right == state.volume
        }),
{
    lemma_rest_is_share(state.balance);
    lemma_product_at_most(state.volume, state.balance.away_from_one());
}

/// A balance fully to one side silences the other one.
pub proof fn law_full_balance_silences_the_other_side(volume: Level)
    requires
        volume.magnitude() < INFINITY_BITS,
    ensures
        panned(volume, Level { bits: ONE_BITS }).0.rank() == 0,
        panned(volume, Level { bits: MINUS_ONE_BITS }).1.rank() == 0,
{
    lemma_size_of_one();
    lemma_product_with_none(volume);
}

/// The opposite balance exchanges the gains of the two sides.
pub proof fn law_opposite_balance_mirrors(state: AppGainState)
    ensures
        ({
            let (left, right) = gains(state);
            gains(AppGainState { balance: state.balance.negated(), ..state }) == (right, left)
        }),
{
    let (balance, opposite) = (clamped_balance(state.balance), clamped_balance(
        state.balance.negated(),
    ));
    assert(opposite.magnitude() == balance.magnitude());
}

/// One change that the user makes.
pub enum GainChange {
    Volume(Level),
    Muted(bool),
    Balance(Level),
}

/// Whether what is set is a number.
pub open spec fn is_number(change: GainChange) -> bool {
    match change {
        GainChange::Volume(volume) => !volume.is_nan(),
        GainChange::Muted(_) => true,
        GainChange::Balance(balance) => !balance.is_nan(),
    }
}

/// The state of an application after the changes, one after another.
pub open spec fn reached(changes: Seq<GainChange>) -> AppGainState
    decreases changes.len(),
{
    if changes.len() == 0 {
        full_volume()
    } else {
        let before = reached(changes.drop_last());
        match changes.last() {
            GainChange::Volume(volume) => volume_set(before, volume),
            GainChange::Muted(muted) => muted_set(before, muted),
            GainChange::Balance(balance) => balance_set(before, balance),
        }
    }
}

/// Whatever numbers the user sets, in whatever order: nothing is heard while muted;
/// otherwise no side is louder than the volume, the side that the balance turns to is at
/// the volume, and the opposite balance exchanges the sides.
pub proof fn law_gains_of_every_state(changes: Seq<GainChange>)
    requires
        forall|i: int| 0 <= i < changes.len() ==> is_number(#[trigger] changes[i]),
    ensures
        in_range(reached(changes)),
        ({
            let state = reached(changes);
            let (left, right) = gains(state);
            let zero = Level { bits: ZERO_BITS };
            &&& state.muted ==> (left, right) == (zero, zero)
            &&& !state.muted ==> {
                &&& !left.is_nan() && 0 <= left.rank() <= state.volume.rank()
                &&& !right.is_nan() && 0 <= right.rank() <= state.volume.rank()
                &&& state.balance.rank() <= 0 ==> left == state.volume
                &&& state.balance.rank() >= 0 ==> right == state.volume
            }
            &&& gains(AppGainState { balance: state.balance.negated(), ..state }) == (right, left)
        }),
    decreases changes.len(),
{
    let state = reached(changes);
    if changes.len() > 0 {
        let init = changes.drop_last();
        assert forall|i: int| 0 <= i < init.len() implies is_number(#[trigger] init[i]) by {
            assert(init[i] == changes[i]);
        }
        law_gains_of_every_state(init);
        assert(is_number(changes[changes.len() - 1]));
    }
    if !state.muted {
        law_gains_lie_within_the_volume(state);
    }
    law_opposite_balance_mirrors(state);
}

/// Volume, mute and balance are independent: setting one leaves the others as they were.
pub proof fn law_settings_are_independent(
    state: AppGainState,
    volume: Level,
    muted: bool,
    balance: Level,
)
    ensures
        volume_set(state, volume).muted == state.muted,
        volume_set(state, volume).balance == state.balance,
        muted_set(state, muted).volume == state.volume,
        muted_set(state, muted).balance == state.balance,
        balance_set(state, balance).volume == state.volume,
        balance_set(state, balance).muted == state.muted,
{
}

/// Every change counts, so that a reading from before it can be told apart.
pub proof fn law_changes_count(state: AppGainState, volume: Level, muted: bool, balance: Level)
    requires
        state.generation < u64::MAX,
    ensures
        volume_set(state, volume).generation == state.generation + 1,
        muted_set(state, muted).generation == state.generation + 1,
        balance_set(state, balance).generation == state.generation + 1,
{
}

/// The gains of one application, as the mixing side sees them.
#[derive(Clone, Copy, Debug, PartialEq, Eq, Structural)]
pub struct AtomicGainSlot {
    left: Level,
    right: Level,
}

impl View for AtomicGainSlot {
    type V = (Level, Level);

    closed spec fn view(&self) -> (Level, Level) {
        (self.left, self.right)
    }
}

impl AtomicGainSlot {
    pub fn new(gains: (Level, Level)) -> (slot: Self)
        ensures
            slot@ == gains,
    {
        AtomicGainSlot { left: gains.0, right: gains.1 }
    }

    pub fn load(&self) -> (gains: (Level, Level))
        ensures
            gains == self@,
    {
        (self.left, self.right)
    }

    pub fn store(&mut self, gains: (Level, Level))
        ensures
            final(self)@ == gains,
    {
        self.left = gains.0;
        self.right = gains.1;
    }
}

/// Whether `product` is the volume times the share, to the nearest number: both are counted
/// in units of the smallest number, of which one has two to the power of 149.
pub open spec fn is_product(product: Level, volume: Level, share: int) -> bool {
    &&& product.is_signed() == volume.is_signed()
    &&& nearest(product.magnitude(), size(volume.magnitude()) * size(share), pow2(149) as int)
}

/// The side that the balance turns away from is at the volume times one minus how far the
/// balance is from the middle, each to the nearest number.
pub proof fn law_a_balance_takes_its_share(state: AppGainState) -> (share: int)
    requires
        in_range(state),
        !state.muted,
    ensures
        0 <= share <= ONE_BITS,
        nearest(share, pow2(149) - size(state.balance.magnitude()), 1),
        state.balance.rank() > 0 ==> is_product(gains(state).0, state.volume, share),
        state.balance.rank() < 0 ==> is_product(gains(state).1, state.volume, share),
{
    let rest = state.balance.away_from_one();
    let share = rest.bits as int;
    let volume = state.volume;
    lemma_rest_is_share(state.balance);
    lemma_product_at_most(volume, rest);
    let one = pow2(149) as int;
    lemma_pow2_pos(149);
    law_rounding_gives_the_nearest_number(
        rounded(one - size(state.balance.magnitude()), 1),
        one - size(state.balance.magnitude()),
        1,
    );
    law_rounding_gives_the_nearest_number(
        rounded(size(volume.magnitude()) * size(share), one),
        size(volume.magnitude()) * size(share),
        one,
    );
    share
}

} // verus!
