//! Rounding to single precision, and products of levels.

use vstd::arithmetic::div_mod::lemma_div_multiples_vanish_quotient;
use vstd::arithmetic::power2::{
    lemma2_to64, lemma2_to64_rest, lemma_pow2_adds, lemma_pow2_pos, lemma_pow2_strictly_increases,
    lemma_pow2_unfold, pow2,
};
use vstd::prelude::*;

use crate::level::{Level, INFINITY_BITS, ONE_BITS, SIGN_BIT, ZERO_BITS};

verus! {

/// How many significands there are for each exponent.
pub const SIGNIFICANDS: u32 = 0x80_0000;

/// One, counted in units of the smallest positive number, is two to this power.
pub const ONE_EXPONENT: u32 = 149;

/// The bit pattern of what is not a number, as arithmetic gives it.
pub const NAN_BITS: u32 = 0x7fc0_0000;

/// The number with the given bits, which have no sign and are below infinity, counted in
/// units of the smallest positive number.
pub open spec fn size(bits: int) -> int {
    let exponent = bits / SIGNIFICANDS as int;
    let fraction = bits % SIGNIFICANDS as int;
    if exponent == 0 {
        fraction
    } else {
        (SIGNIFICANDS + fraction) * pow2((exponent - 1) as nat)
    }
}

/// How far the number with the given bits is from `num / den` units, times `den`.
pub open spec fn distance(bits: int, num: int, den: int) -> int {
    if size(bits) * den >= num {
        size(bits) * den - num
    } else {
        num - size(bits) * den
    }
}

/// Whether no number is closer to `num / den` units than the one with the given bits, and
/// the bits are even if another one is as close.
pub open spec fn nearest(bits: int, num: int, den: int) -> bool {
    &&& 0 <= bits < INFINITY_BITS
    &&& forall|other: int|
        0 <= other < INFINITY_BITS && other != bits ==> {
            ||| distance(bits, num, den) < #[trigger] distance(other, num, den)
            ||| distance(bits, num, den) == distance(other, num, den) && bits % 2 == 0
        }
}

/// The bits of the number that is nearest to `num / den` units.
pub open spec fn rounded(num: int, den: int) -> int {
    choose|bits: int| nearest(bits, num, den)
}

proof fn lemma_size_step(bits: int)
    requires
        0 <= bits,
    ensures
        0 <= size(bits) < size(bits + 1),
{
    let n = SIGNIFICANDS as int;
    let exponent = bits / n;
    let fraction = bits % n;
    if fraction + 1 < n {
        assert((bits + 1) / n == exponent && (bits + 1) % n == fraction + 1);
    } else {
        assert((bits + 1) / n == exponent + 1 && (bits + 1) % n == 0);
    }
    if exponent > 0 {
        let p = pow2((exponent - 1) as nat) as int;
        lemma_pow2_pos((exponent - 1) as nat);
        lemma_pow2_unfold(exponent as nat);
        assert(0 <= (n + fraction) * p < (n + fraction + 1) * p) by (nonlinear_arith)
            requires
                n > 0,
                fraction >= 0,
                p > 0,
        ;
        assert((n + n) * p == n * (2 * p)) by (nonlinear_arith);
    } else {
        lemma2_to64();
    }
}

/// Larger bits are a larger number.
proof fn lemma_size_increases(a: int, b: int)
    requires
        0 <= a < b,
    ensures
        0 <= size(a) < size(b),
    decreases b - a,
{
    lemma_size_step(a);
    if a + 1 < b {
        lemma_size_increases(a + 1, b);
    }
}

/// What lies strictly between two numbers that are as far from a third is closer to it.
proof fn lemma_between(a: int, b: int, c: int, num: int, den: int)
    requires
        0 <= a < b < c,
        den > 0,
        distance(a, num, den) == distance(c, num, den),
    ensures
        distance(b, num, den) < distance(a, num, den),
{
    lemma_size_increases(a, b);
    lemma_size_increases(b, c);
    let (x, y, z) = (size(a), size(b), size(c));
    assert(x * den < y * den < z * den) by (nonlinear_arith)
        requires
            x < y < z,
            den > 0,
    ;
}

proof fn lemma_nearest_is_unique(a: int, b: int, num: int, den: int)
    requires
        den > 0,
        nearest(a, num, den),
        nearest(b, num, den),
    ensures
        a == b,
{
    if a != b {
        assert(distance(a, num, den) == distance(b, num, den));
        let (low, high) = if a < b {
            (a, b)
        } else {
            (b, a)
        };
        assert(low % 2 == 0 && high % 2 == 0);
        lemma_between(low, low + 1, high, num, den);
        assert(distance(low + 1, num, den) < distance(low, num, den));
    }
}

proof fn lemma_closest_exists(n: int, num: int, den: int) -> (best: int)
    requires
        n > 0,
    ensures
        0 <= best < n,
        forall|other: int|
            0 <= other < n ==> distance(best, num, den) <= #[trigger] distance(other, num, den),
    decreases n,
{
    if n == 1 {
        0
    } else {
        let best = lemma_closest_exists(n - 1, num, den);
        if distance(n - 1, num, den) < distance(best, num, den) {
            n - 1
        } else {
            best
        }
    }
}

/// There is always one nearest number.
proof fn lemma_rounded(num: int, den: int)
    requires
        den > 0,
    ensures
        nearest(rounded(num, den), num, den),
{
    let best = lemma_closest_exists(INFINITY_BITS as int, num, den);
    if best % 2 == 1 && exists|other: int|
        0 <= other < INFINITY_BITS && other != best && #[trigger] distance(other, num, den)
            == distance(best, num, den) {
        let other = choose|other: int|
            0 <= other < INFINITY_BITS && other != best && #[trigger] distance(other, num, den)
                == distance(best, num, den);
        if other > best + 1 {
            lemma_between(best, best + 1, other, num, den);
            assert(distance(best + 1, num, den) < distance(best, num, den));
        }
        if other < best - 1 {
            lemma_between(other, other + 1, best, num, den);
            assert(distance(other + 1, num, den) < distance(best, num, den));
        }
        assert(nearest(other, num, den));
    } else {
        assert(nearest(best, num, den));
    }
}

/// There is exactly one nearest number, and rounding gives it.
pub proof fn law_rounding_gives_the_nearest_number(bits: int, num: int, den: int)
    requires
        den > 0,
    ensures
        nearest(bits, num, den) <==> bits == rounded(num, den),
{
    lemma_rounded(num, den);
    if nearest(bits, num, den) {
        lemma_nearest_is_unique(bits, rounded(num, den), num, den);
    }
}

/// Rounding does not go beyond a number that is large enough.
proof fn lemma_rounded_at_most(num: int, den: int, limit: int)
    requires
        den > 0,
        0 <= limit < INFINITY_BITS,
        num <= size(limit) * den,
    ensures
        0 <= rounded(num, den) <= limit,
{
    lemma_rounded(num, den);
    let bits = rounded(num, den);
    if bits > limit {
        lemma_size_increases(limit, bits);
        let (x, y) = (size(limit), size(bits));
        assert(x * den < y * den) by (nonlinear_arith)
            requires
                x < y,
                den > 0,
        ;
        assert(distance(limit, num, den) < distance(bits, num, den));
    }
}

/// A number is nearest to itself.
proof fn lemma_rounded_exact(bits: int, den: int)
    requires
        den > 0,
        0 <= bits < INFINITY_BITS,
    ensures
        rounded(size(bits) * den, den) == bits,
{
    let num = size(bits) * den;
    assert(distance(bits, num, den) == 0);
    assert forall|other: int| 0 <= other < INFINITY_BITS && other != bits implies distance(
        bits,
        num,
        den,
    ) < #[trigger] distance(other, num, den) by {
        if other < bits {
            lemma_size_increases(other, bits);
        } else {
            lemma_size_increases(bits, other);
        }
        let (x, y) = (size(bits), size(other));
        assert(x != y ==> x * den != y * den) by (nonlinear_arith)
            requires
                den > 0,
        ;
    }
    assert(nearest(bits, num, den));
    lemma_rounded(num, den);
    lemma_nearest_is_unique(bits, rounded(num, den), num, den);
}

/// How the bits of `significand` times two to `exponent` units are made.
proof fn lemma_encoded(significand: int, exponent: nat)
    requires
        0 <= significand <= 2 * SIGNIFICANDS,
        exponent == 0 || significand >= SIGNIFICANDS,
    ensures
        size(exponent * SIGNIFICANDS + significand) == significand * pow2(exponent),
{
    let n = SIGNIFICANDS as int;
    let bits = exponent * n + significand;
    lemma2_to64();
    if significand == 2 * n {
        assert(bits == (exponent + 2) * n) by (nonlinear_arith)
            requires
                bits == exponent * n + 2 * n,
        ;
        assert(bits / n == exponent + 2 && bits % n == 0);
        lemma_pow2_unfold(exponent + 1);
        let p = pow2(exponent) as int;
        assert(n * (2 * p) == 2 * n * p) by (nonlinear_arith);
    } else if significand >= n {
        assert(bits == (exponent + 1) * n + (significand - n)) by (nonlinear_arith)
            requires
                bits == exponent * n + significand,
        ;
        assert(bits / n == exponent + 1 && bits % n == significand - n);
    } else {
        assert(bits / n == 0 && bits % n == significand);
    }
}

/// A number that is large for an exponent is a multiple of two to that exponent.
proof fn lemma_multiple(bits: int, exponent: nat) -> (multiple: int)
    requires
        0 <= bits,
        size(bits) >= SIGNIFICANDS * pow2(exponent),
    ensures
        size(bits) == multiple * pow2(exponent),
{
    let n = SIGNIFICANDS as int;
    let own = bits / n;
    let fraction = bits % n;
    let unit = pow2(exponent) as int;
    lemma_pow2_pos(exponent);
    if own == 0 {
        assert(n * unit >= n) by (nonlinear_arith)
            requires
                n > 0,
                unit >= 1,
        ;
        assert(false);
        0
    } else {
        let e = (own - 1) as nat;
        let p = pow2(e) as int;
        lemma_pow2_pos(e);
        if e < exponent {
            lemma_pow2_unfold(e + 1);
            if e + 1 < exponent {
                lemma_pow2_strictly_increases(e + 1, exponent);
            }
            assert((n + fraction) * p < n * unit) by (nonlinear_arith)
                requires
                    fraction < n,
                    2 * p <= unit,
                    p > 0,
                    n > 0,
            ;
            assert(false);
            0
        } else {
            let rest = (e - exponent) as nat;
            lemma_pow2_adds(rest, exponent);
            let r = pow2(rest) as int;
            assert((n + fraction) * (r * unit) == ((n + fraction) * r) * unit) by (nonlinear_arith);
            (n + fraction) * r
        }
    }
}

/// Rounding `p / unit` to an integer, to the even one if two are as close.
spec fn rounds_to(p: int, unit: int, q: int) -> bool {
    forall|z: int|
        z != q ==> {
            ||| abs(q * unit - p) < #[trigger] abs(z * unit - p)
            ||| abs(q * unit - p) == abs(z * unit - p) && q % 2 == 0
        }
}

spec fn abs(n: int) -> int {
    if n >= 0 {
        n
    } else {
        -n
    }
}

proof fn lemma_rounds_to(p: int, unit: int, q: int)
    requires
        unit > 0,
        2 * abs(q * unit - p) <= unit,
        2 * abs(q * unit - p) == unit ==> q % 2 == 0,
    ensures
        rounds_to(p, unit, q),
{
    assert forall|z: int| z != q implies {
        ||| abs(q * unit - p) < #[trigger] abs(z * unit - p)
        ||| abs(q * unit - p) == abs(z * unit - p) && q % 2 == 0
    } by {
        assert(z * unit - q * unit >= unit || q * unit - z * unit >= unit) by (nonlinear_arith)
            requires
                z != q,
                unit > 0,
        ;
    }
}

/// What rounding `p` to whole units of two to `drop` gives is nearest to `p` times two to
/// `up`, over two to `down`.
proof fn lemma_nearest(p: int, up: nat, down: nat, drop: nat, q: int)
    requires
        p >= 0,
        up + drop >= down,
        rounds_to(p, pow2(drop) as int, q),
        0 <= q <= 2 * SIGNIFICANDS,
        up + drop == down || q >= SIGNIFICANDS && p >= SIGNIFICANDS * pow2(drop),
        (up + drop - down) * SIGNIFICANDS + q < INFINITY_BITS,
    ensures
        nearest(
            (up + drop - down) * SIGNIFICANDS + q,
            p * pow2(up),
            pow2(down) as int,
        ),
{
    let n = SIGNIFICANDS as int;
    let exponent = (up + drop - down) as nat;
    let bits = exponent * n + q;
    let unit = pow2(drop) as int;
    let scale = pow2(exponent) as int;
    let w = pow2(up) as int;
    let den = pow2(down) as int;
    let num = p * w;
    lemma_pow2_pos(drop);
    lemma_pow2_pos(exponent);
    lemma_pow2_pos(up);
    lemma_pow2_pos(down);
    lemma_pow2_adds(exponent, down);
    lemma_pow2_adds(up, drop);
    assert(scale * den == w * unit);
    lemma_encoded(q, exponent);
    assert(bits >= 0) by (nonlinear_arith)
        requires
            bits == exponent * n + q,
            n > 0,
            q >= 0,
    ;
    assert(bits % 2 == q % 2) by {
        assert(bits == 2 * (exponent * 0x40_0000) + q);
    }
    lemma_distance(bits, q, scale, unit, w, den, p);
    assert forall|other: int| 0 <= other < INFINITY_BITS && other != bits implies {
        ||| distance(bits, num, den) < #[trigger] distance(other, num, den)
        ||| distance(bits, num, den) == distance(other, num, den) && bits % 2 == 0
    } by {
        if size(other) >= n * scale || exponent == 0 {
            let z = if exponent == 0 {
                lemma2_to64();
                size(other)
            } else {
                lemma_multiple(other, exponent)
            };
            assert(size(other) == z * scale);
            lemma_distance(other, z, scale, unit, w, den, p);
            if z == q {
                if other < bits {
                    lemma_size_increases(other, bits);
                } else {
                    lemma_size_increases(bits, other);
                }
            }
            let (a, b) = (abs(q * unit - p), abs(z * unit - p));
            assert(a < b ==> w * a < w * b) by (nonlinear_arith)
                requires
                    w > 0,
            ;
        } else {
            let (a, b) = (abs(q * unit - p), abs(n * unit - p));
            assert(a <= b) by {
                if n != q {
                    assert(abs(q * unit - p) <= abs(n * unit - p));
                }
            }
            let y = size(other);
            assert(y * den < n * scale * den) by (nonlinear_arith)
                requires
                    y < n * scale,
                    den > 0,
            ;
            assert(n * scale * den == n * unit * w) by (nonlinear_arith)
                requires
                    scale * den == w * unit,
            ;
            assert(w * a <= w * b) by (nonlinear_arith)
                requires
                    a <= b,
                    w > 0,
            ;
            assert(n * unit * w <= p * w) by (nonlinear_arith)
                requires
                    n * unit <= p,
                    w > 0,
            ;
            assert(w * (p - n * unit) == p * w - n * unit * w) by (nonlinear_arith);
        }
    }
}

/// The distance of a multiple, over the units that `p` is counted in.
proof fn lemma_distance(bits: int, z: int, scale: int, unit: int, w: int, den: int, p: int)
    requires
        size(bits) == z * scale,
        scale * den == w * unit,
        w > 0,
    ensures
        distance(bits, p * w, den) == w * abs(z * unit - p),
{
    assert(z * scale * den == w * (z * unit)) by (nonlinear_arith)
        requires
            scale * den == w * unit,
    ;
    let m = z * unit;
    assert(w * m - p * w == w * (m - p)) by (nonlinear_arith);
    assert(p * w - w * m == w * (p - m)) by (nonlinear_arith);
    assert(m >= p ==> w * m >= p * w) by (nonlinear_arith)
        requires
            w > 0,
    ;
    assert(m < p ==> w * m < p * w) by (nonlinear_arith)
        requires
            w > 0,
    ;
}

/// A number as a significand and the power of two that it is multiplied by.
fn parts(bits: u32) -> (parts: (u32, u32))
    requires
        bits < INFINITY_BITS,
    ensures
        size(bits as int) == parts.0 * pow2(parts.1 as nat),
        parts.0 < 2 * SIGNIFICANDS,
        parts.1 <= bits / SIGNIFICANDS,
        parts.0 >= SIGNIFICANDS || parts.1 == 0,
{
    proof {
        lemma2_to64();
    }
    let exponent: u32 = bits / SIGNIFICANDS;
    if exponent == 0 {
        assert(bits as int % SIGNIFICANDS as int == bits && bits * pow2(0) == bits);
        (bits, 0)
    } else {
        (SIGNIFICANDS + bits % SIGNIFICANDS, exponent - 1)
    }
}

/// What stays of a number that is not too large once it is rounded.
proof fn lemma_below_infinity(p: int, up: nat, down: nat, drop: nat, q: int)
    requires
        up + drop >= down,
        0 <= q <= 2 * SIGNIFICANDS,
        up + drop == down || p >= SIGNIFICANDS * pow2(drop),
        q == p / pow2(drop) as int || q == p / pow2(drop) as int + 1 && p % pow2(drop) as int > 0,
        p * pow2(up) <= size(INFINITY_BITS - 1) * pow2(down),
    ensures
        (up + drop - down) * SIGNIFICANDS + q < INFINITY_BITS,
{
    let n = SIGNIFICANDS as int;
    let exponent = (up + drop - down) as nat;
    let bits = exponent * n + q;
    if bits >= INFINITY_BITS {
        let unit = pow2(drop) as int;
        let scale = pow2(exponent) as int;
        let w = pow2(up) as int;
        let den = pow2(down) as int;
        lemma_pow2_pos(drop);
        lemma_pow2_pos(exponent);
        lemma_pow2_pos(up);
        lemma_pow2_pos(down);
        lemma_pow2_adds(exponent, down);
        lemma_pow2_adds(up, drop);
        assert(scale * den == w * unit);
        assert((INFINITY_BITS - 1) / n == 254 && (INFINITY_BITS - 1) % n == n - 1);
        let top = pow2(253) as int;
        let limit = size(INFINITY_BITS - 1);
        assert(limit == (2 * n - 1) * top);
        assert(exponent >= 253);
        let whole = p / unit;
        assert(p == whole * unit + p % unit && 0 <= p % unit < unit) by (nonlinear_arith)
            requires
                whole == p / unit,
                unit > 0,
        ;
        if exponent == 253 {
            assert(q == 2 * n);
            // The rounded number is the next one after the largest.
            assert(p > (2 * n - 1) * unit) by (nonlinear_arith)
                requires
                    p == whole * unit + p % unit,
                    whole == 2 * n || whole == 2 * n - 1 && p % unit > 0,
                    p % unit >= 0,
                    unit > 0,
            ;
            assert(p * w > (2 * n - 1) * unit * w) by (nonlinear_arith)
                requires
                    p > (2 * n - 1) * unit,
                    w > 0,
            ;
            assert((2 * n - 1) * unit * w == (2 * n - 1) * top * den) by (nonlinear_arith)
                requires
                    scale == top,
                    scale * den == w * unit,
            ;
            assert(false);
        } else {
            lemma_pow2_unfold(254);
            if exponent > 254 {
                lemma_pow2_strictly_increases(254, exponent);
            }
            assert(scale >= 2 * top);
            assert(p * w >= n * unit * w) by (nonlinear_arith)
                requires
                    p >= n * unit,
                    w > 0,
            ;
            assert(n * unit * w == n * scale * den) by (nonlinear_arith)
                requires
                    scale * den == w * unit,
            ;
            lemma_pow2_pos(253);
            assert(n * scale * den > (2 * n - 1) * top * den) by (nonlinear_arith)
                requires
                    scale >= 2 * top,
                    top > 0,
                    den > 0,
                    n > 0,
            ;
            assert(false);
        }
    }
}

/// The bits of the number that is nearest to `p` times two to `up`, over two to `down`.
fn round(p: u64, up: u32, down: u32) -> (bits: u32)
    requires
        p < 0x8000_0000_0000_0000,
        up <= 400,
        down <= 400,
        up == 0 || down == 0,
        p * pow2(up as nat) <= size(INFINITY_BITS - 1) * pow2(down as nat),
    ensures
        bits == rounded(p * pow2(up as nat), pow2(down as nat) as int),
{
    let ghost num = p * pow2(up as nat);
    let ghost den = pow2(down as nat) as int;
    proof {
        lemma2_to64();
        lemma2_to64_rest();
        lemma_pow2_pos(down as nat);
    }
    let mut p: u64 = p;
    let mut up: u32 = up;
    while up > 0 && p < 0x4000_0000_0000_0000
        invariant
            p < 0x8000_0000_0000_0000,
            up <= 400,
            up == 0 || down == 0,
            num == p * pow2(up as nat),
        decreases up,
    {
        proof {
            lemma_pow2_unfold(up as nat);
            let w = pow2((up - 1) as nat) as int;
            assert(p * (2 * w) == (2 * p) * w) by (nonlinear_arith);
        }
        p = 2 * p;
        up = up - 1;
    }
    let mut drop: u32 = 0;
    let mut unit: u64 = 1;
    while drop < 63 && (drop < down || p / unit >= 2 * SIGNIFICANDS as u64)
        invariant
            drop <= 63,
            down <= 400,
            unit == pow2(drop as nat),
            pow2(63) == 0x8000_0000_0000_0000,
            0 < unit <= 0x8000_0000_0000_0000,
            drop <= down || p >= SIGNIFICANDS * unit,
        decreases 63 - drop,
    {
        proof {
            lemma_pow2_unfold((drop + 1) as nat);
            if drop + 1 < 63 {
                lemma_pow2_strictly_increases((drop + 1) as nat, 63);
            }
            assert(p / unit >= 2 * SIGNIFICANDS ==> p >= SIGNIFICANDS * (2 * unit))
                by (nonlinear_arith)
                requires
                    unit > 0,
            ;
        }
        unit = 2 * unit;
        drop = drop + 1;
    }
    let q0: u64 = p / unit;
    let r: u64 = p % unit;
    proof {
        assert(p == q0 * unit + r && r < unit) by (nonlinear_arith)
            requires
                q0 == p / unit,
                r == p % unit,
                unit > 0,
        ;
        if drop == 63 {
            assert(q0 == 0) by (nonlinear_arith)
                requires
                    p == q0 * unit + r,
                    r >= 0,
                    p < unit,
                    unit > 0,
                    q0 >= 0,
            ;
        }
    }
    if drop < down {
        proof {
            if down > 64 {
                lemma_pow2_strictly_increases(64, down as nat);
            }
            lemma_small(p as int, down as nat);
            assert(num == p as int);
            lemma_rounded(num, den);
            lemma_nearest_is_unique(0, rounded(num, den), num, den);
        }
        return 0;
    }
    let rounds_up: bool = 2 * r > unit || 2 * r == unit && q0 % 2 == 1;
    let q: u32 = if rounds_up {
        q0 as u32 + 1
    } else {
        q0 as u32
    };
    proof {
        assert((q0 + 1) * unit == q0 * unit + unit) by (nonlinear_arith);
        lemma_rounds_to(p as int, unit as int, q as int);
        if up > 0 && drop <= down {
            assert(false);
        }
        if up + drop != down {
            assert(q0 >= SIGNIFICANDS) by (nonlinear_arith)
                requires
                    p >= SIGNIFICANDS * unit,
                    q0 == p / unit,
                    unit > 0,
            ;
        }
        lemma_below_infinity(p as int, up as nat, down as nat, drop as nat, q as int);
        lemma_nearest(p as int, up as nat, down as nat, drop as nat, q as int);
        lemma_rounded(num, den);
        lemma_nearest_is_unique(
            (up + drop - down) * SIGNIFICANDS + q,
            rounded(num, den),
            num,
            den,
        );
    }
    (up + drop - down) * SIGNIFICANDS + q
}

/// Zero is nearest to what is less than half the smallest number.
proof fn lemma_small(p: int, down: nat)
    requires
        0 <= p,
        2 * p <= pow2(down),
    ensures
        nearest(0, p, pow2(down) as int),
{
    let den = pow2(down) as int;
    lemma_pow2_pos(down);
    assert(size(0) == 0 && size(0) * den == 0);
    assert forall|other: int| 0 <= other < INFINITY_BITS && other != 0 implies distance(0, p, den)
        <= #[trigger] distance(other, p, den) by {
        lemma_size_increases(0, other);
        let y = size(other);
        assert(y * den >= den) by (nonlinear_arith)
            requires
                y >= 1,
                den > 0,
        ;
    }
}

/// One, in units.
pub proof fn lemma_size_of_one()
    ensures
        size(ONE_BITS as int) == pow2(ONE_EXPONENT as nat),
{
    lemma2_to64();
    lemma_pow2_adds(23, 126);
    assert(ONE_BITS as int / SIGNIFICANDS as int == 127 && ONE_BITS as int % SIGNIFICANDS as int
        == 0);
}

/// Rounding goes by the quotient alone.
proof fn lemma_rounded_quotient(num: int, den: int, k: int)
    requires
        den > 0,
        k > 0,
    ensures
        rounded(num * k, den * k) == rounded(num, den),
{
    let bits = rounded(num, den);
    lemma_rounded(num, den);
    assert forall|b: int| #[trigger] distance(b, num * k, den * k) == k * distance(
        b,
        num,
        den,
    ) by {
        let y = size(b);
        assert(y * (den * k) - num * k == k * (y * den - num)) by (nonlinear_arith);
        assert(num * k - y * (den * k) == k * (num - y * den)) by (nonlinear_arith);
        assert(y * den >= num ==> k * (y * den - num) >= 0) by (nonlinear_arith)
            requires
                k > 0,
        ;
        assert(y * den < num ==> k * (num - y * den) > 0) by (nonlinear_arith)
            requires
                k > 0,
        ;
    }
    assert forall|other: int| 0 <= other < INFINITY_BITS && other != bits implies {
        ||| distance(bits, num * k, den * k) < #[trigger] distance(other, num * k, den * k)
        ||| distance(bits, num * k, den * k) == distance(other, num * k, den * k) && bits % 2
            == 0
    } by {
        let (a, b) = (distance(bits, num, den), distance(other, num, den));
        assert(a < b ==> k * a < k * b) by (nonlinear_arith)
            requires
                k > 0,
        ;
    }
    assert(den * k > 0) by (nonlinear_arith)
        requires
            den > 0,
            k > 0,
    ;
    lemma_rounded(num * k, den * k);
    lemma_nearest_is_unique(bits, rounded(num * k, den * k), num * k, den * k);
}

impl Level {
    /// Whether this lies between zero and one.
    pub open spec fn is_share(self) -> bool {
        self.bits <= ONE_BITS
    }

    /// The product with a share, as IEEE 754 rounds it. What is not a number stays so.
    pub open spec fn scaled(self, share: Level) -> Level {
        if self.is_nan() {
            self
        } else if self.magnitude() == INFINITY_BITS {
            if share.bits == ZERO_BITS {
                Level { bits: NAN_BITS }
            } else {
                self
            }
        } else {
            let bits = rounded(
                size(self.magnitude()) * size(share.bits as int),
                pow2(ONE_EXPONENT as nat) as int,
            );
            Level {
                bits: (if self.is_signed() {
                    bits + SIGN_BIT
                } else {
                    bits
                }) as u32,
            }
        }
    }

    /// One minus the absolute value, as IEEE 754 rounds it.
    pub open spec fn away_from_one(self) -> Level {
        Level {
            bits: rounded(
                pow2(ONE_EXPONENT as nat) - size(self.magnitude()),
                1,
            ) as u32,
        }
    }

    /// The product with a share.
    pub fn scale(self, share: Level) -> (product: Level)
        requires
            share.is_share(),
        ensures
            product == self.scaled(share),
    {
        if self.not_a_number() {
            return self;
        }
        let signed: bool = self.bits >= SIGN_BIT;
        let magnitude: u32 = if signed {
            self.bits - SIGN_BIT
        } else {
            self.bits
        };
        if magnitude == INFINITY_BITS {
            return if share.bits == ZERO_BITS {
                Level { bits: NAN_BITS }
            } else {
                self
            };
        }
        proof {
            lemma_product_limit(magnitude as int, share.bits as int);
            lemma_product_at_most(self, share);
        }
        let bits: u32 = product_bits(magnitude, share.bits);
        Level {
            bits: if signed {
                bits + SIGN_BIT
            } else {
                bits
            },
        }
    }

    /// One minus the absolute value.
    pub fn distance_from_one(self) -> (rest: Level)
        requires
            self.magnitude() <= ONE_BITS,
        ensures
            rest == self.away_from_one(),
            rest.is_share(),
    {
        let magnitude: u32 = if self.bits >= SIGN_BIT {
            self.bits - SIGN_BIT
        } else {
            self.bits
        };
        proof {
            lemma_rest_is_share(self);
        }
        Level { bits: rest_bits(magnitude) }
    }
}

proof fn lemma_product_limit(magnitude: int, share: int)
    requires
        0 <= magnitude < INFINITY_BITS,
        0 <= share <= ONE_BITS,
    ensures
        size(magnitude) * size(share) <= size(magnitude) * pow2(ONE_EXPONENT as nat),
        size(magnitude) * size(share) <= size(INFINITY_BITS - 1) * pow2(ONE_EXPONENT as nat),
{
    lemma_size_of_one();
    lemma_pow2_pos(ONE_EXPONENT as nat);
    if magnitude < INFINITY_BITS - 1 {
        lemma_size_increases(magnitude, INFINITY_BITS - 1);
    }
    if share < ONE_BITS {
        lemma_size_increases(share, ONE_BITS as int);
    }
    lemma_size_step(magnitude);
    let (a, b, c) = (size(magnitude), size(share), pow2(ONE_EXPONENT as nat) as int);
    assert(a * b <= a * c) by (nonlinear_arith)
        requires
            a >= 0,
            b <= c,
    ;
    let l = size(INFINITY_BITS - 1);
    assert(a * c <= l * c) by (nonlinear_arith)
        requires
            a <= l,
            c > 0,
    ;
}

/// A share of a level has its sign, and is not larger.
pub proof fn lemma_product_at_most(level: Level, share: Level)
    requires
        level.magnitude() < INFINITY_BITS,
        share.is_share(),
    ensures
        0 <= rounded(
            size(level.magnitude()) * size(share.bits as int),
            pow2(ONE_EXPONENT as nat) as int,
        ) <= level.magnitude(),
        level.scaled(share).magnitude() <= level.magnitude(),
        level.scaled(share).is_signed() == level.is_signed(),
{
    lemma_pow2_pos(ONE_EXPONENT as nat);
    lemma_product_limit(level.magnitude(), share.bits as int);
    lemma_rounded_at_most(
        size(level.magnitude()) * size(share.bits as int),
        pow2(ONE_EXPONENT as nat) as int,
        level.magnitude(),
    );
}

/// One leaves nothing of one, and nothing is left of a level that is multiplied by it.
pub proof fn lemma_product_with_none(level: Level)
    requires
        level.magnitude() < INFINITY_BITS,
    ensures
        rounded(0, 1) == 0,
        level.scaled(Level { bits: ZERO_BITS }).magnitude() == 0,
{
    lemma_pow2_pos(ONE_EXPONENT as nat);
    assert(size(0) == 0);
    lemma_rounded_exact(0, 1);
    lemma_rounded_exact(0, pow2(ONE_EXPONENT as nat) as int);
    assert(size(level.magnitude()) * size(0) == 0);
}

/// What a share leaves of one is a share.
pub proof fn lemma_rest_is_share(level: Level)
    requires
        level.magnitude() <= ONE_BITS,
    ensures
        0 <= rounded(pow2(ONE_EXPONENT as nat) - size(level.magnitude()), 1) <= ONE_BITS,
        level.away_from_one().is_share(),
{
    lemma_size_of_one();
    lemma_size_step(level.magnitude());
    lemma_rounded_at_most(
        pow2(ONE_EXPONENT as nat) - size(level.magnitude()),
        1,
        ONE_BITS as int,
    );
}

/// The bits of the product of two numbers that is not too large.
fn product_bits(left: u32, right: u32) -> (bits: u32)
    requires
        left < INFINITY_BITS,
        right < INFINITY_BITS,
        size(left as int) * size(right as int) <= size(INFINITY_BITS - 1) * pow2(
            ONE_EXPONENT as nat,
        ),
    ensures
        bits == rounded(
            size(left as int) * size(right as int),
            pow2(ONE_EXPONENT as nat) as int,
        ),
{
    let (a, a_exponent) = parts(left);
    let (b, b_exponent) = parts(right);
    proof {
        assert(a * b < 0x100_0000 * 0x100_0000) by (nonlinear_arith)
            requires
                0 <= a < 0x100_0000,
                0 <= b < 0x100_0000,
        ;
    }
    let p: u64 = a as u64 * b as u64;
    let exponent: u32 = a_exponent + b_exponent;
    let ghost one = pow2(ONE_EXPONENT as nat) as int;
    let ghost num = size(left as int) * size(right as int);
    proof {
        let (x, y) = (pow2(a_exponent as nat) as int, pow2(b_exponent as nat) as int);
        lemma_pow2_adds(a_exponent as nat, b_exponent as nat);
        assert((a * x) * (b * y) == (a * b) * (x * y)) by (nonlinear_arith);
        assert(num == p * pow2(exponent as nat));
        lemma_pow2_pos(ONE_EXPONENT as nat);
        lemma2_to64();
    }
    if exponent >= ONE_EXPONENT {
        let up: u32 = exponent - ONE_EXPONENT;
        proof {
            lemma_pow2_adds(up as nat, ONE_EXPONENT as nat);
            let w = pow2(up as nat) as int;
            assert(p * (w * one) == (p * w) * one) by (nonlinear_arith);
            lemma_rounded_quotient(p * w, 1, one);
            let l = size(INFINITY_BITS - 1);
            assert(p * w <= l) by (nonlinear_arith)
                requires
                    (p * w) * one <= l * one,
                    one > 0,
            ;
        }
        round(p, up, 0)
    } else {
        let down: u32 = ONE_EXPONENT - exponent;
        proof {
            lemma_pow2_adds(down as nat, exponent as nat);
            lemma_pow2_pos(down as nat);
            lemma_pow2_pos(exponent as nat);
            let (d, k) = (pow2(down as nat) as int, pow2(exponent as nat) as int);
            lemma_rounded_quotient(p as int, d, k);
            let l = size(INFINITY_BITS - 1);
            assert(p <= l * d) by (nonlinear_arith)
                requires
                    p * k <= l * (d * k),
                    k > 0,
            ;
        }
        round(p, 0, down)
    }
}

fn rest_bits(magnitude: u32) -> (bits: u32)
    requires
        magnitude <= ONE_BITS,
    ensures
        bits == rounded(pow2(ONE_EXPONENT as nat) - size(magnitude as int), 1),
{
    let (significand, exponent) = parts(magnitude);
    let ghost one = pow2(ONE_EXPONENT as nat) as int;
    let ghost own = size(magnitude as int);
    proof {
        lemma2_to64();
        lemma2_to64_rest();
        lemma_size_of_one();
        lemma_size_step(magnitude as int);
        if magnitude < ONE_BITS {
            lemma_size_increases(magnitude as int, ONE_BITS as int);
        }
        lemma_size_increases(ONE_BITS as int, INFINITY_BITS - 1);
    }
    if exponent < 86 {
        proof {
            lemma_close_to_one(own, significand as int, exponent as nat);
        }
        return ONE_BITS;
    }
    let mut part: u64 = significand as u64;
    let mut i: u32 = exponent;
    while i > 86
        invariant
            i >= 86,
            part * pow2(i as nat) == own,
            own <= one,
            one == pow2(ONE_EXPONENT as nat),
            pow2(62) == 0x4000_0000_0000_0000,
            part > 0,
        decreases i,
    {
        proof {
            lemma_pow2_unfold(i as nat);
            lemma_pow2_adds(62, 87);
            if i > 87 {
                lemma_pow2_strictly_increases(87, i as nat);
            }
            lemma_pow2_pos(87);
            let (w, h, k) = (pow2(i as nat) as int, pow2(87) as int, pow2((i - 1) as nat) as int);
            assert(part <= 0x4000_0000_0000_0000) by (nonlinear_arith)
                requires
                    part * w <= 0x4000_0000_0000_0000 * h,
                    w >= h > 0,
            ;
            assert(part * (2 * k) == (2 * part) * k) by (nonlinear_arith);
        }
        part = 2 * part;
        i = i - 1;
    }
    let ghost h = pow2(86) as int;
    proof {
        lemma_pow2_adds(63, 86);
        lemma_pow2_pos(86);
        assert(part <= 0x8000_0000_0000_0000) by (nonlinear_arith)
            requires
                part * h <= 0x8000_0000_0000_0000 * h,
                h > 0,
        ;
        assert((0x8000_0000_0000_0000 - part) * h == 0x8000_0000_0000_0000 * h - part * h)
            by (nonlinear_arith);
    }
    round(0x8000_0000_0000_0000 - part, 86, 0)
}

/// One minus very little is one.
proof fn lemma_close_to_one(own: int, significand: int, exponent: nat)
    requires
        own == significand * pow2(exponent),
        0 <= significand < 2 * SIGNIFICANDS,
        exponent < 86,
    ensures
        rounded(pow2(ONE_EXPONENT as nat) - own, 1) == ONE_BITS,
{
    let one = pow2(ONE_EXPONENT as nat) as int;
    let num = one - own;
    lemma2_to64();
    lemma_size_of_one();
    lemma_pow2_pos(exponent);
    lemma_pow2_adds(24, 86);
    lemma_pow2_adds(24, 125);
    lemma_pow2_unfold(111);
    lemma_pow2_strictly_increases(111, 125);
    lemma_pow2_strictly_increases(exponent, 86);
    let (w, h) = (pow2(exponent) as int, pow2(86) as int);
    assert(0 <= significand * w < 0x100_0000 * h) by (nonlinear_arith)
        requires
            0 <= significand < 0x100_0000,
            0 < w < h,
    ;
    assert(2 * own < pow2(125));
    let below = ONE_BITS - 1;
    assert(below / SIGNIFICANDS as int == 126 && below % SIGNIFICANDS as int == SIGNIFICANDS - 1);
    let k = pow2(125) as int;
    assert((0x100_0000 - 1) * k == 0x100_0000 * k - k) by (nonlinear_arith);
    assert(size(below) == one - k);
    assert forall|other: int| 0 <= other < INFINITY_BITS && other != ONE_BITS implies distance(
        ONE_BITS as int,
        num,
        1,
    ) < #[trigger] distance(other, num, 1) by {
        if other > ONE_BITS {
            lemma_size_increases(ONE_BITS as int, other);
        } else if other < below {
            lemma_size_increases(other, below);
        }
    }
    assert(nearest(ONE_BITS as int, num, 1));
    lemma_rounded(num, 1);
    lemma_nearest_is_unique(ONE_BITS as int, rounded(num, 1), num, 1);
}

/// The bit pattern of `100.0`.
pub const HUNDRED_BITS: u32 = 0x42c8_0000;

impl Level {
    /// This times a hundred, as IEEE 754 rounds it, in units.
    pub open spec fn hundredfold(self) -> int {
        size(
            rounded(
                size(self.magnitude()) * size(HUNDRED_BITS as int),
                pow2(ONE_EXPONENT as nat) as int,
            ),
        )
    }

    /// This in percent, rounded to an integer, halves up. What is not a number counts as
    /// nothing.
    pub open spec fn percent(self) -> int {
        let one = pow2(ONE_EXPONENT as nat) as int;
        if self.is_nan() {
            0
        } else {
            (2 * self.hundredfold() + one) / (2 * one)
        }
    }

    /// This in percent.
    pub fn to_percent(self) -> (percent: i32)
        requires
            self.is_nan() || 0 <= self.rank() <= ONE_BITS,
        ensures
            percent == self.percent(),
            0 <= percent <= 100,
    {
        if self.not_a_number() {
            return 0;
        }
        let magnitude: u32 = if self.bits >= SIGN_BIT {
            self.bits - SIGN_BIT
        } else {
            self.bits
        };
        proof {
            lemma_hundredfold(magnitude as int);
        }
        let bits: u32 = product_bits(magnitude, HUNDRED_BITS);
        let (significand, exponent) = parts(bits);
        let ghost one = pow2(ONE_EXPONENT as nat) as int;
        let ghost product = size(bits as int);
        let below: u32 = ONE_EXPONENT - exponent;
        let ghost scale = pow2(exponent as nat) as int;
        proof {
            lemma2_to64();
            lemma_pow2_adds(below as nat, exponent as nat);
            lemma_pow2_pos(below as nat);
            lemma_pow2_pos(exponent as nat);
            let unit = pow2(below as nat) as int;
            let s = significand as int;
            assert(2 * (s * scale) + unit * scale == scale * (2 * s + unit)) by (nonlinear_arith);
            assert(2 * (unit * scale) == scale * (2 * unit)) by (nonlinear_arith);
            lemma_div_multiples_vanish_quotient(scale, 2 * s + unit, 2 * unit);
            assert(self.percent() == (2 * s + unit) / (2 * unit));
            if below > 25 {
                if below > 26 {
                    lemma_pow2_strictly_increases(26, below as nat);
                }
                assert((2 * s + unit) / (2 * unit) == 0) by (nonlinear_arith)
                    requires
                        0 <= 2 * s + unit < 2 * unit,
                ;
            }
        }
        if below > 25 {
            return 0;
        }
        let mut unit: u32 = 1;
        let mut i: u32 = 0;
        while i < below
            invariant
                i <= below <= 25,
                unit == pow2(i as nat),
                pow2(25) == 0x200_0000,
                unit <= 0x200_0000,
            decreases below - i,
        {
            proof {
                lemma_pow2_unfold((i + 1) as nat);
                if i + 1 < 25 {
                    lemma_pow2_strictly_increases((i + 1) as nat, 25);
                }
            }
            unit = 2 * unit;
            i = i + 1;
        }
        proof {
            let (s, u) = (significand as int, unit as int);
            assert(product <= 100 * one);
            assert(s <= 100 * u) by (nonlinear_arith)
                requires
                    s * scale <= 100 * (u * scale),
                    scale > 0,
            ;
            assert((2 * s + u) / (2 * u) <= 100) by (nonlinear_arith)
                requires
                    0 <= s <= 100 * u,
                    u > 0,
            ;
        }
        ((2 * significand + unit) / (2 * unit)) as i32
    }
}

/// A hundred times what is at most one is at most a hundred.
proof fn lemma_hundredfold(magnitude: int)
    requires
        0 <= magnitude <= ONE_BITS,
    ensures
        size(HUNDRED_BITS as int) == 100 * pow2(ONE_EXPONENT as nat),
        size(magnitude) * size(HUNDRED_BITS as int) <= size(INFINITY_BITS - 1) * pow2(
            ONE_EXPONENT as nat,
        ),
        0 <= rounded(
            size(magnitude) * size(HUNDRED_BITS as int),
            pow2(ONE_EXPONENT as nat) as int,
        ) <= HUNDRED_BITS,
        0 <= size(
            rounded(
                size(magnitude) * size(HUNDRED_BITS as int),
                pow2(ONE_EXPONENT as nat) as int,
            ),
        ) <= 100 * pow2(ONE_EXPONENT as nat),
{
    let one = pow2(ONE_EXPONENT as nat) as int;
    let hundred = HUNDRED_BITS as int;
    lemma2_to64();
    lemma_pow2_adds(17, 132);
    assert(hundred / SIGNIFICANDS as int == 133 && hundred % SIGNIFICANDS as int == 0x48_0000);
    lemma_size_of_one();
    lemma_pow2_pos(ONE_EXPONENT as nat);
    lemma_size_step(magnitude);
    if magnitude < ONE_BITS {
        lemma_size_increases(magnitude, ONE_BITS as int);
    }
    lemma_size_increases(hundred, INFINITY_BITS - 1);
    let (m, h, l) = (size(magnitude), size(hundred), size(INFINITY_BITS - 1));
    assert(m * h <= h * one) by (nonlinear_arith)
        requires
            m <= one,
            h > 0,
    ;
    assert(h * one <= l * one) by (nonlinear_arith)
        requires
            h <= l,
            one > 0,
    ;
    lemma_rounded_at_most(m * h, one, hundred);
    let bits = rounded(m * h, one);
    lemma_size_step(bits);
    if bits < hundred {
        lemma_size_increases(bits, hundred);
    }
}

/// A percentage is a hundred times the level, to the nearest number, and that to the nearest
/// integer, halves up. What is not a number is nothing.
pub proof fn law_percentages_are_rounded(level: Level) -> (hundredfold: int)
    requires
        level.is_nan() || 0 <= level.rank() <= ONE_BITS,
    ensures
        level.is_nan() ==> level.percent() == 0,
        !level.is_nan() ==> {
            let one = pow2(149) as int;
            &&& nearest(hundredfold, size(level.magnitude()) * size(0x42c8_0000), one)
            &&& 2 * level.percent() * one - one <= 2 * size(hundredfold)
            &&& 2 * size(hundredfold) < 2 * level.percent() * one + one
        },
{
    let one = pow2(149) as int;
    let num = size(level.magnitude()) * size(0x42c8_0000);
    let bits = rounded(num, one);
    lemma_pow2_pos(149);
    law_rounding_gives_the_nearest_number(bits, num, one);
    let h = size(bits);
    let p = (2 * h + one) / (2 * one);
    assert(2 * p * one - one <= 2 * h && 2 * h < 2 * p * one + one) by (nonlinear_arith)
        requires
            p == (2 * h + one) / (2 * one),
            one > 0,
    ;
    bits
}

} // verus!
