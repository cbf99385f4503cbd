//! A ring buffer of samples between the capturing and the playing side.

use vstd::arithmetic::power2::{lemma_pow2_pos, lemma_pow2_unfold, pow2};
use vstd::prelude::*;

use crate::level::{Level, ZERO_BITS};

verus! {

pub open spec fn is_power_of_two(n: int) -> bool
    decreases n,
{
    n == 1 || (n > 1 && n % 2 == 0 && is_power_of_two(n / 2))
}

/// Whether `capacity` is the least power of two that is at least `requested`, and at
/// least two.
pub open spec fn is_rounded_up(requested: int, capacity: int) -> bool {
    &&& is_power_of_two(capacity)
    &&& capacity >= requested && capacity >= 2
    &&& capacity == 2 || capacity / 2 < requested
}

/// Holds samples in the order in which they were written until they are read.
#[derive(Debug)]
pub struct FloatRingBuffer {
    buffer: Vec<Level>,
    /// Where the oldest sample is.
    start: usize,
    /// How many samples there are.
    filled: usize,
}

/// What a `FloatRingBuffer` holds.
#[verifier::ext_equal]
pub struct RingView {
    pub capacity: nat,
    /// The samples, oldest first.
    pub queue: Seq<Level>,
}

pub open spec fn least(a: nat, b: nat) -> nat {
    if a <= b {
        a
    } else {
        b
    }
}

/// A buffer after samples were written: it takes as many as it has room for.
pub open spec fn written(ring: RingView, samples: Seq<Level>) -> RingView {
    let n = least(samples.len(), (ring.capacity - ring.queue.len()) as nat);
    RingView { queue: ring.queue + samples.take(n as int), ..ring }
}

/// The samples that a read of up to `wanted` takes out, and the buffer after it.
pub open spec fn read_out(ring: RingView, wanted: nat) -> (Seq<Level>, RingView) {
    let n = least(wanted, ring.queue.len()) as int;
    (ring.queue.take(n), RingView { queue: ring.queue.skip(n), ..ring })
}

/// The place `n` after `start`; behind the last place comes the first one.
pub open spec fn place(start: int, n: int, capacity: int) -> int {
    if start + n < capacity {
        start + n
    } else {
        start + n - capacity
    }
}

/// The capacity of a buffer for at least so many samples.
pub fn rounded_capacity(requested_capacity: usize) -> (capacity: usize)
    requires
        requested_capacity <= usize::MAX / 16 + 1,
    ensures
        is_rounded_up(requested_capacity as int, capacity as int),
{
    let mut capacity: usize = 2;
    assert(is_power_of_two(1));
    while capacity < requested_capacity
        invariant
            requested_capacity <= usize::MAX / 16 + 1,
            is_power_of_two(capacity as int),
            capacity >= 2,
            capacity == 2 || capacity / 2 < requested_capacity,
        decreases 2 * requested_capacity - capacity,
    {
        capacity = capacity * 2;
    }
    capacity
}

/// The place `n` after `start`.
pub fn place_after(start: usize, n: usize, capacity: usize) -> (at: usize)
    requires
        start < capacity,
        n <= capacity,
    ensures
        at == place(start as int, n as int, capacity as int),
        at < capacity,
{
    if n < capacity - start {
        start + n
    } else {
        n - (capacity - start)
    }
}

/// How many of `wanted` samples can be handed over where `available` can at most.
pub fn as_many(wanted: usize, available: usize) -> (n: usize)
    ensures
        n == least(wanted as nat, available as nat),
{
    if wanted < available {
        wanted
    } else {
        available
    }
}

impl View for FloatRingBuffer {
    type V = RingView;

    closed spec fn view(&self) -> RingView {
        RingView {
            capacity: self.buffer@.len(),
            queue: Seq::new(
                self.filled as nat,
                |i: int| self.buffer@[place(self.start as int, i, self.buffer@.len() as int)],
            ),
        }
    }
}

impl FloatRingBuffer {
    #[verifier::type_invariant]
    spec fn well_formed(self) -> bool {
        &&& self.start < self.buffer@.len() || self.start == 0
        &&& self.filled <= self.buffer@.len()
    }

    /// An empty buffer for at least so many samples; its capacity is a power of two.
    pub fn new(requested_capacity: usize) -> (ring: Self)
        requires
            requested_capacity <= usize::MAX / 16 + 1,
        ensures
            ring@.queue == Seq::<Level>::empty(),
            is_rounded_up(requested_capacity as int, ring@.capacity as int),
    {
        let capacity: usize = rounded_capacity(requested_capacity);
        let mut buffer: Vec<Level> = Vec::new();
        let mut i: usize = 0;
        while i < capacity
            invariant
                i <= capacity,
                buffer@.len() == i,
            decreases capacity - i,
        {
            buffer.push(Level { bits: ZERO_BITS });
            i += 1;
        }
        let ring = FloatRingBuffer { buffer, start: 0, filled: 0 };
        assert(ring@.queue =~= Seq::<Level>::empty());
        ring
    }

    pub fn capacity(&self) -> (capacity: usize)
        ensures
            capacity == self@.capacity,
    {
        self.buffer.len()
    }

    /// How many samples wait to be read.
    pub fn fill_level(&self) -> (n: usize)
        ensures
            n == self@.queue.len(),
    {
        self.filled
    }

    /// Appends as many of the samples as there is room for, drops the others, and says
    /// how many it took.
    pub fn write(&mut self, src: &[Level]) -> (n: usize)
        ensures
            final(self)@ == written(old(self)@, src@),
            n == final(self)@.queue.len() - old(self)@.queue.len(),
            final(self)@.queue.len() <= final(self)@.capacity,
    {
        proof {
            use_type_invariant(&*self);
        }
        let mut buffer: Vec<Level> = Vec::new();
        let start: usize = self.start;
        let filled: usize = self.filled;
        let ghost before = self@.queue;
        self.start = 0;
        self.filled = 0;
        std::mem::swap(&mut buffer, &mut self.buffer);
        let capacity: usize = buffer.len();
        let free: usize = capacity - filled;
        let n: usize = as_many(src.len(), free);
        let mut i: usize = 0;
        while i < n
            invariant
                i <= n <= src@.len(),
                start < capacity || start == 0,
                capacity == buffer.len(),
                filled + n <= capacity,
                before.len() == filled,
                forall|k: int|
                    0 <= k < filled ==> #[trigger] before[k] == buffer@[place(
                        start as int,
                        k,
                        capacity as int,
                    )],
                forall|k: int|
                    0 <= k < i ==> #[trigger] src@[k] == buffer@[place(
                        start as int,
                        filled + k,
                        capacity as int,
                    )],
            decreases n - i,
        {
            buffer.set(place_after(start, filled + i, capacity), src[i]);
            i += 1;
        }
        self.buffer = buffer;
        self.start = start;
        self.filled = filled + n;
        proof {
            assert(self@.queue =~= before + src@.take(n as int));
        }
        n
    }

    /// Takes out the oldest samples, as many as there are or as the destination has
    /// room for, and says how many. What is left of the destination stays as it was.
    pub fn read(&mut self, dst: &mut Vec<Level>) -> (n: usize)
        ensures
            ({
                let (samples, ring) = read_out(old(self)@, old(dst)@.len());
                &&& n == samples.len()
                &&& final(dst)@ == samples + old(dst)@.skip(n as int)
                &&& final(self)@ == ring
            }),
    {
        proof {
            use_type_invariant(&*self);
        }
        let capacity: usize = self.buffer.len();
        let n: usize = as_many(dst.len(), self.filled);
        let ghost before = self@.queue;
        let ghost untouched = dst@;
        let mut i: usize = 0;
        while i < n
            invariant
                i <= n <= self.filled,
                *self == *old(self),
                capacity == self.buffer.len(),
                self.start < capacity || self.start == 0,
                self.filled <= capacity,
                n <= dst@.len(),
                before == self@.queue,
                dst@.len() == untouched.len(),
                forall|k: int| 0 <= k < i ==> #[trigger] dst@[k] == before[k],
                forall|k: int| i <= k < dst@.len() ==> #[trigger] dst@[k] == untouched[k],
            decreases n - i,
        {
            dst.set(i, self.buffer[place_after(self.start, i, capacity)]);
            i += 1;
        }
        assert(dst@ =~= before.take(n as int) + untouched.skip(n as int));
        let start: usize = if n > 0 {
            place_after(self.start, n, capacity)
        } else {
            self.start
        };
        self.filled = self.filled - n;
        self.start = start;
        assert(self@.queue =~= before.skip(n as int));
        n
    }
}

/// Samples come out in the order in which they went in: a read after a write gives a
/// first part of what was waiting followed by what was written.
pub proof fn law_samples_keep_their_order(ring: RingView, samples: Seq<Level>, wanted: nat)
    requires
        ring.queue.len() <= ring.capacity,
    ensures
        read_out(written(ring, samples), wanted).0.is_prefix_of(ring.queue + samples),
{
    let out = read_out(written(ring, samples), wanted).0;
    assert(out =~= (ring.queue + samples).subrange(0, out.len() as int));
}

/// What fits into an empty buffer is read back whole, and leaves it empty.
pub proof fn law_round_trip(ring: RingView, samples: Seq<Level>)
    requires
        ring.queue.len() == 0,
        samples.len() <= ring.capacity,
    ensures
        read_out(written(ring, samples), samples.len()) == (samples, ring),
{
    let full = written(ring, samples);
    assert(full.queue =~= samples);
    assert(full.queue.take(samples.len() as int) =~= samples);
    assert(full.queue.skip(samples.len() as int) =~= ring.queue);
}

/// A write never disturbs what is waiting, and never fills a buffer beyond its
/// capacity.
pub proof fn law_overflow_is_dropped(ring: RingView, samples: Seq<Level>)
    requires
        ring.queue.len() <= ring.capacity,
    ensures
        ring.queue.is_prefix_of(written(ring, samples).queue),
        written(ring, samples).queue.len() == least(
            ring.capacity,
            ring.queue.len() + samples.len(),
        ),
{
    assert(ring.queue =~= written(ring, samples).queue.subrange(0, ring.queue.len() as int));
}

/// A read takes the oldest samples, as many as are wanted and there, and leaves the others.
pub proof fn law_reading_splits_the_queue(ring: RingView, wanted: nat)
    ensures
        ({
            let (samples, after) = read_out(ring, wanted);
            &&& samples + after.queue == ring.queue
            &&& samples.len() <= wanted
            &&& samples.len() == wanted || after.queue.len() == 0
            &&& after.capacity == ring.capacity
        }),
{
    let (samples, after) = read_out(ring, wanted);
    assert(samples + after.queue =~= ring.queue);
}

/// A write appends a first part of the samples, and drops some only when the buffer is full.
pub proof fn law_writing_appends(ring: RingView, samples: Seq<Level>)
    requires
        ring.queue.len() <= ring.capacity,
    ensures
        ({
            let after = written(ring, samples);
            let taken = after.queue.len() - ring.queue.len();
            &&& 0 <= taken <= samples.len()
            &&& after.queue == ring.queue + samples.take(taken)
            &&& taken == samples.len() || after.queue.len() == ring.capacity
            &&& after.queue.len() <= ring.capacity
            &&& after.capacity == ring.capacity
        }),
{
}

proof fn lemma_powers_double(a: int, b: int)
    requires
        is_power_of_two(a),
        is_power_of_two(b),
        a < b,
    ensures
        2 * a <= b,
    decreases b,
{
    if a > 1 {
        lemma_powers_double(a / 2, b / 2);
    }
}

/// The capacity is the least power of two that is at least two and has room for what was
/// asked for.
pub proof fn law_the_capacity_is_the_least(requested: int, capacity: int, other: int)
    requires
        is_rounded_up(requested, capacity),
        is_power_of_two(other),
        other >= 2,
        other >= requested,
    ensures
        2 <= capacity <= other,
        requested <= capacity,
{
    if other < capacity {
        lemma_powers_double(other, capacity);
    }
}

/// Exactly the powers of two count as such.
pub proof fn law_powers_of_two(n: int)
    ensures
        is_power_of_two(n) <==> exists|k: nat| #[trigger] pow2(k) == n,
    decreases n,
{
    if n == 1 {
        lemma_pow2_0();
        assert(pow2(0) == n);
    } else if n > 1 && n % 2 == 0 {
        law_powers_of_two(n / 2);
        if is_power_of_two(n) {
            let k = choose|k: nat| #[trigger] pow2(k) == n / 2;
            lemma_pow2_unfold(k + 1);
            assert(pow2(k + 1) == n);
        }
        if exists|k: nat| #[trigger] pow2(k) == n {
            let k = choose|k: nat| #[trigger] pow2(k) == n;
            if k == 0 {
                lemma_pow2_0();
            } else {
                lemma_pow2_unfold(k);
                assert(pow2((k - 1) as nat) == n / 2);
            }
        }
    } else if exists|k: nat| #[trigger] pow2(k) == n {
        let k = choose|k: nat| #[trigger] pow2(k) == n;
        if k == 0 {
            lemma_pow2_0();
        } else {
            lemma_pow2_unfold(k);
            lemma_pow2_pos(k);
        }
    }
}

proof fn lemma_pow2_0()
    ensures
        pow2(0) == 1,
{
    vstd::arithmetic::power2::lemma2_to64();
}

/// The place `n` after `start`, going round once: the remainder by the capacity.
pub proof fn law_places_go_round(start: int, n: int, capacity: int)
    requires
        0 <= start < capacity,
        0 <= n <= capacity,
    ensures
        place(start, n, capacity) == (start + n) % capacity,
{
    if start + n < capacity {
        vstd::arithmetic::div_mod::lemma_small_mod((start + n) as nat, capacity as nat);
    } else {
        vstd::arithmetic::div_mod::lemma_small_mod((start + n - capacity) as nat, capacity as nat);
        vstd::arithmetic::div_mod::lemma_mod_add_multiples_vanish(start + n - capacity, capacity);
    }
}

} // verus!
