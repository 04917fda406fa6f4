use vstd::prelude::*;

verus! {

/// The sample rate the synthesizer renders at (samples per second per
/// channel).
pub const SAMPLE_RATE: u32 = 44100;

/// Picoseconds in a second.
pub const PICOS_PER_SECOND: u64 = 1_000_000_000_000;

/// The time (picoseconds, rounded down) at which the `count`-th value of an
/// interleaved output stream with `channels` channels is played; the largest
/// `u64` (over 213 days) where it does not fit.
pub open spec fn spec_sample_time(count: int, channels: int) -> int {
    let t = count * PICOS_PER_SECOND / (SAMPLE_RATE as int * channels);
    if t > u64::MAX {
        u64::MAX as int
    } else {
        t
    }
}

/// The time (picoseconds) at which the `count`-th value of an interleaved
/// output stream with `channels` channels is played.
pub fn sample_time(count: u64, channels: u16) -> (t: u64)
    requires
        channels > 0,
    ensures
        t == spec_sample_time(count as int, channels as int),
{
    assert(count as int * PICOS_PER_SECOND <= u64::MAX as int * PICOS_PER_SECOND) by (nonlinear_arith)
        requires
            count <= u64::MAX,
    ;
    assert(SAMPLE_RATE as int * channels as int <= 44100 * 65535) by (nonlinear_arith)
        requires
            channels <= 65535,
    ;
    let num: u128 = (count as u128) * (PICOS_PER_SECOND as u128);
    let den: u128 = (SAMPLE_RATE as u128) * (channels as u128);
    let q: u128 = num / den;
    if q > u64::MAX as u128 {
        u64::MAX
    } else {
        q as u64
    }
}

/// The clock of the output stream never runs backwards: a later value is
/// played at the same time or later.
pub proof fn lemma_sample_time_monotonic(a: int, b: int, channels: int)
    requires
        0 <= a <= b,
        channels > 0,
    ensures
        spec_sample_time(a, channels) <= spec_sample_time(b, channels),
{
    assert(a * PICOS_PER_SECOND <= b * PICOS_PER_SECOND);
    assert(SAMPLE_RATE as int * channels > 0) by (nonlinear_arith)
        requires
            channels > 0,
    ;
    vstd::arithmetic::div_mod::lemma_div_is_ordered(
        a * PICOS_PER_SECOND,
        b * PICOS_PER_SECOND,
        SAMPLE_RATE as int * channels,
    );
}

/// Whatever the number of channels a stream can have, a later value is
/// played strictly later, until the clock reaches its largest time.
pub proof fn lemma_sample_time_strictly_increasing(a: int, b: int, channels: int)
    requires
        0 <= a < b,
        0 < channels <= u16::MAX,
        spec_sample_time(b, channels) < u64::MAX,
    ensures
        spec_sample_time(a, channels) < spec_sample_time(b, channels),
{
    let d = SAMPLE_RATE as int * channels;
    assert(0 < d <= 44100 * 65535) by (nonlinear_arith)
        requires
            0 < channels <= 65535,
            d == 44100 * channels,
    ;
    // b * P >= a * P + P and P > d, so the quotient grows by at least one.
    assert(b * PICOS_PER_SECOND >= a * PICOS_PER_SECOND + d) by (nonlinear_arith)
        requires
            a < b,
            0 < d <= 44100 * 65535,
    ;
    vstd::arithmetic::div_mod::lemma_div_is_ordered(
        a * PICOS_PER_SECOND + d,
        b * PICOS_PER_SECOND,
        d,
    );
    assert(a * PICOS_PER_SECOND >= 0) by (nonlinear_arith)
        requires
            0 <= a,
    ;
    vstd::arithmetic::div_mod::lemma_div_plus_one(a * PICOS_PER_SECOND, d);
}

/// One second of a stream, at any number of channels, takes a million
/// million picoseconds.
pub proof fn lemma_one_second(channels: int)
    requires
        0 < channels <= 65535,
    ensures
        spec_sample_time(SAMPLE_RATE as int * channels, channels) == PICOS_PER_SECOND,
{
    let d = SAMPLE_RATE as int * channels;
    assert(d * PICOS_PER_SECOND / d == PICOS_PER_SECOND) by {
        vstd::arithmetic::div_mod::lemma_div_multiples_vanish(PICOS_PER_SECOND as int, d);
        assert(d * PICOS_PER_SECOND == PICOS_PER_SECOND * d) by (nonlinear_arith);
    }
}

} // verus!
