//! The received media rate and the feedback interval derived from it.
//!
//! Rates are whole bits per second. The decayed rate is rounded up, so that a
//! rate never falls by more than the decay factor; the other quotients are
//! rounded down.
use vstd::arithmetic::power::lemma_pow_positive;
use vstd::arithmetic::power::pow;
use vstd::prelude::*;

verus! {

/// A rate window ends once more than this many ticks have passed (100 ms).
pub const RATE_WINDOW_NTP: u32 = 6554;

/// The average rate that a session starts from, in bits per second.
pub const INITIAL_RATE: u64 = 100_000;

/// The feedback interval that a session starts from, in ticks (50 ms).
pub const INITIAL_FEEDBACK_INTERVAL: u32 = 3276;

/// Between two windows the average rate keeps this many hundredths of itself.
pub const RATE_DECAY_PERCENT: u64 = 95;

/// Bits per second of media that pay for one feedback packet per second: a
/// feedback packet is taken as 100 bytes, and feedback may use 2 % of the rate.
pub const MEDIA_BITS_PER_FEEDBACK: u64 = 40_000;

/// Fewest feedback packets per second.
pub const MIN_FEEDBACK_RATE: u64 = 10;

/// Most feedback packets per second.
pub const MAX_FEEDBACK_RATE: u64 = 500;

/// Shortest feedback interval, in ticks (2 ms).
pub const MIN_FEEDBACK_INTERVAL: u32 = 131;

/// Longest feedback interval, in ticks (100 ms).
pub const MAX_FEEDBACK_INTERVAL: u32 = 6553;

/// The rate, in bits per second, at which `bytes` bytes arrived in `delta` ticks.
pub open spec fn observed_rate(bytes: u32, delta: u32) -> int {
    bytes * 8 * 65536 / (delta as int)
}

/// The average rate after a window without traffic: 95 % of the rate before,
/// rounded up to whole bits per second.
pub open spec fn decayed_rate(rate: u64) -> int {
    (rate * RATE_DECAY_PERCENT + 99) / 100
}

/// The average rate after a window of `delta` ticks in which `bytes` bytes
/// arrived: it rises to the observed rate at once and falls only by decay.
pub open spec fn average_after(rate: u64, bytes: u32, delta: u32) -> int {
    if decayed_rate(rate) >= observed_rate(bytes, delta) {
        decayed_rate(rate)
    } else {
        observed_rate(bytes, delta)
    }
}

/// The media rate that sets the feedback rate: `rate` kept within the rates
/// that ask for the fewest and for the most feedback packets per second.
pub open spec fn clamped_rate(rate: int) -> int {
    if rate < MIN_FEEDBACK_RATE * MEDIA_BITS_PER_FEEDBACK {
        MIN_FEEDBACK_RATE * MEDIA_BITS_PER_FEEDBACK
    } else if rate > MAX_FEEDBACK_RATE * MEDIA_BITS_PER_FEEDBACK {
        MAX_FEEDBACK_RATE * MEDIA_BITS_PER_FEEDBACK
    } else {
        rate
    }
}

/// The feedback interval, in ticks, for an average rate of `rate` bits per
/// second: one second divided by the number of feedback packets per second.
pub open spec fn interval_for(rate: int) -> int {
    65536 * MEDIA_BITS_PER_FEEDBACK / clamped_rate(rate)
}

/// Computes the average rate after a window of `delta` ticks with `bytes` bytes.
pub fn next_average_rate(rate: u64, bytes: u32, delta: u32) -> (next: u64)
    requires
        delta > 0,
    ensures
        next == average_after(rate, bytes, delta),
{
    let percent: u128 = RATE_DECAY_PERCENT as u128;
    assert(rate * percent + 99 <= u128::MAX) by (nonlinear_arith)
        requires
            percent == 95,
            rate <= u64::MAX,
    ;
    let scaled: u128 = rate as u128 * percent + 99;
    assert(scaled / 100 <= rate) by (nonlinear_arith)
        requires
            scaled == rate * 95 + 99,
            rate >= 0,
    ;
    let decayed: u64 = (scaled / 100) as u64;
    let bits: u64 = bytes as u64 * 8 * 65536;
    let observed: u64 = bits / (delta as u64);
    assert(decayed == decayed_rate(rate));
    assert(observed == observed_rate(bytes, delta));
    if decayed >= observed {
        decayed
    } else {
        observed
    }
}

/// Computes the feedback interval for an average rate.
pub fn feedback_interval(rate: u64) -> (interval: u32)
    ensures
        interval == interval_for(rate as int),
        MIN_FEEDBACK_INTERVAL <= interval <= MAX_FEEDBACK_INTERVAL,
{
    let lowest: u64 = MIN_FEEDBACK_RATE * MEDIA_BITS_PER_FEEDBACK;
    let highest: u64 = MAX_FEEDBACK_RATE * MEDIA_BITS_PER_FEEDBACK;
    let clamped: u64 = if rate < lowest {
        lowest
    } else if rate > highest {
        highest
    } else {
        rate
    };
    let interval: u64 = 65536 * MEDIA_BITS_PER_FEEDBACK / clamped;
    proof {
        lemma_interval_bounds(rate as int);
    }
    interval as u32
}

/// The feedback interval always lies between 2 ms and 100 ms.
pub proof fn lemma_interval_bounds(rate: int)
    ensures
        MIN_FEEDBACK_INTERVAL <= interval_for(rate) <= MAX_FEEDBACK_INTERVAL,
{
    let c: int = clamped_rate(rate);
    assert(400_000 <= c <= 20_000_000);
    assert(131 <= 2_621_440_000int / c <= 6553) by (nonlinear_arith)
        requires
            400_000 <= c <= 20_000_000,
    ;
}

/// A higher average rate never gives a longer feedback interval.
pub proof fn lemma_interval_antitone(low: int, high: int)
    requires
        low <= high,
    ensures
        interval_for(low) >= interval_for(high),
{
    let a: int = clamped_rate(low);
    let b: int = clamped_rate(high);
    assert(2_621_440_000int / a >= 2_621_440_000int / b) by (nonlinear_arith)
        requires
            400_000 <= a <= b,
    ;
}

/// The average rate after a window is the larger of the decayed rate and the
/// observed rate: it never falls below 95 % of the rate before, and never
/// below what was observed.
pub proof fn lemma_average_bounds(rate: u64, bytes: u32, delta: u32)
    requires
        delta > 0,
    ensures
        average_after(rate, bytes, delta) >= decayed_rate(rate),
        average_after(rate, bytes, delta) >= observed_rate(bytes, delta),
        average_after(rate, bytes, delta) == decayed_rate(rate) || average_after(rate, bytes, delta)
            == observed_rate(bytes, delta),
        100 * average_after(rate, bytes, delta) >= 95 * rate,
        100 * decayed_rate(rate) < 95 * rate + 100,
        0 <= average_after(rate, bytes, delta) <= u64::MAX,
{
    assert(0 <= (rate * 95 + 99) / 100 <= rate) by (nonlinear_arith)
        requires
            rate >= 0,
    ;
    assert(95 * rate <= 100 * ((rate * 95 + 99) / 100) < 95 * rate + 100) by (nonlinear_arith);
    let bits: int = bytes * 8 * 65536;
    assert(0 <= bits / (delta as int) <= bits) by (nonlinear_arith)
        requires
            0 <= bits,
            delta > 0,
    ;
}

/// One window in which media arrived at 20 Mbit/s or more brings the feedback
/// interval to its floor of 2 ms, whatever the average rate was before.
pub proof fn lemma_high_rate_reaches_floor(rate: u64, bytes: u32, delta: u32)
    requires
        delta > 0,
        observed_rate(bytes, delta) >= MAX_FEEDBACK_RATE * MEDIA_BITS_PER_FEEDBACK,
    ensures
        interval_for(average_after(rate, bytes, delta)) == MIN_FEEDBACK_INTERVAL,
{
    lemma_average_bounds(rate, bytes, delta);
    assert(MAX_FEEDBACK_RATE * MEDIA_BITS_PER_FEEDBACK == 20_000_000);
    assert(clamped_rate(average_after(rate, bytes, delta)) == 20_000_000);
    assert(2_621_440_000int / 20_000_000 == 131);
}

/// A window in which media arrived no faster than the average rate before
/// never raises the average and never shortens the feedback interval.
pub proof fn lemma_low_rate_never_shortens(rate: u64, bytes: u32, delta: u32)
    requires
        delta > 0,
        observed_rate(bytes, delta) <= rate,
    ensures
        average_after(rate, bytes, delta) <= rate,
        interval_for(average_after(rate, bytes, delta)) >= interval_for(rate as int),
{
    assert((rate * 95 + 99) / 100 <= rate) by (nonlinear_arith)
        requires
            rate >= 0,
    ;
    lemma_interval_antitone(average_after(rate, bytes, delta), rate as int);
}

/// The average rate after each of `windows` in turn, a window being its byte
/// count and its length in ticks.
pub open spec fn average_after_windows(rate: u64, windows: Seq<(u32, u32)>) -> int
    decreases windows.len(),
{
    if windows.len() == 0 {
        rate as int
    } else {
        average_after(
            average_after_windows(rate, windows.drop_last()) as u64,
            windows.last().0,
            windows.last().1,
        )
    }
}

/// Every window of `windows` has a length, and media arrived in it at no more
/// than `limit` bits per second.
pub open spec fn windows_below(windows: Seq<(u32, u32)>, limit: int) -> bool {
    forall|i: int|
        0 <= i < windows.len() ==> (#[trigger] windows[i]).1 > 0 && observed_rate(
            windows[i].0,
            windows[i].1,
        ) <= limit
}

/// While media arrives at 400 kbit/s or less, each window lowers an average
/// above that rate by at least 20 kbit/s: after `n` such windows the average is
/// at most the larger of 400 kbit/s and the first average less `n` times
/// 20 kbit/s.
pub proof fn lemma_low_rate_decays(rate: u64, windows: Seq<(u32, u32)>)
    requires
        windows_below(windows, MIN_FEEDBACK_RATE * MEDIA_BITS_PER_FEEDBACK),
    ensures
        0 <= average_after_windows(rate, windows) <= u64::MAX,
        average_after_windows(rate, windows) <= 400_000 || average_after_windows(rate, windows)
            <= rate - 20_000 * windows.len(),
    decreases windows.len(),
{
    if windows.len() > 0 {
        let before = windows.drop_last();
        assert(windows_below(before, 400_000)) by {
            assert forall|i: int| 0 <= i < before.len() implies (#[trigger] before[i]).1 > 0
                && observed_rate(before[i].0, before[i].1) <= 400_000 by {
                assert(before[i] == windows[i]);
            }
        }
        lemma_low_rate_decays(rate, before);
        let prev: int = average_after_windows(rate, before);
        let last = windows.last();
        assert(last == windows[windows.len() - 1]);
        lemma_average_bounds(prev as u64, last.0, last.1);
        assert((prev * 95 + 99) / 100 <= prev - 20_000 || prev <= 400_000) by (nonlinear_arith)
            requires
                0 <= prev,
        ;
        assert((prev * 95 + 99) / 100 <= 400_000 || prev > 400_000) by (nonlinear_arith)
            requires
                0 <= prev,
        ;
    }
}

/// Whatever arrives, the average rate falls by no more than the decay factor
/// with every window: after `n` windows it is at least 0.95 to the power of `n`
/// times the first average.
pub proof fn lemma_fall_bounded_by_factor(rate: u64, windows: Seq<(u32, u32)>)
    requires
        forall|i: int| 0 <= i < windows.len() ==> (#[trigger] windows[i]).1 > 0,
    ensures
        0 <= average_after_windows(rate, windows) <= u64::MAX,
        average_after_windows(rate, windows) * pow(100, windows.len()) >= rate * pow(
            95,
            windows.len(),
        ),
    decreases windows.len(),
{
    reveal(pow);
    if windows.len() > 0 {
        let before = windows.drop_last();
        assert forall|i: int| 0 <= i < before.len() implies (#[trigger] before[i]).1 > 0 by {
            assert(before[i] == windows[i]);
        }
        lemma_fall_bounded_by_factor(rate, before);
        let prev: int = average_after_windows(rate, before);
        let next: int = average_after_windows(rate, windows);
        let last = windows.last();
        assert(last == windows[windows.len() - 1]);
        lemma_average_bounds(prev as u64, last.0, last.1);
        let n: nat = before.len();
        let h: int = pow(100, n);
        let d: int = pow(95, n);
        lemma_pow_positive(100, n);
        lemma_pow_positive(95, n);
        assert(pow(100, windows.len()) == 100 * h);
        assert(pow(95, windows.len()) == 95 * d);
        assert(next * (100 * h) >= rate * (95 * d)) by (nonlinear_arith)
            requires
                next * 100 >= prev * 95,
                prev * h >= rate * d,
                h > 0,
        ;
    }
}

/// While media arrives at `limit` bits per second or less, the average rate
/// falls by the decay factor with every window until it has come down to
/// `limit`: after `n` such windows it is at most `limit`, or at most 20 bit/s
/// above 0.95 to the power of `n` times the first average. The 20 bit/s are
/// what rounding up can add.
pub proof fn lemma_low_rate_decays_by_factor(rate: u64, windows: Seq<(u32, u32)>, limit: int)
    requires
        windows_below(windows, limit),
    ensures
        0 <= average_after_windows(rate, windows) <= u64::MAX,
        average_after_windows(rate, windows) <= limit || (average_after_windows(rate, windows)
            - 20) * pow(100, windows.len()) <= (rate - 20) * pow(95, windows.len()),
    decreases windows.len(),
{
    reveal(pow);
    if windows.len() > 0 {
        let before = windows.drop_last();
        assert(windows_below(before, limit)) by {
            assert forall|i: int| 0 <= i < before.len() implies (#[trigger] before[i]).1 > 0
                && observed_rate(before[i].0, before[i].1) <= limit by {
                assert(before[i] == windows[i]);
            }
        }
        lemma_low_rate_decays_by_factor(rate, before, limit);
        let prev: int = average_after_windows(rate, before);
        let next: int = average_after_windows(rate, windows);
        let last = windows.last();
        assert(last == windows[windows.len() - 1]);
        lemma_average_bounds(prev as u64, last.0, last.1);
        if next > limit {
            assert(next == decayed_rate(prev as u64));
            assert(next <= prev) by (nonlinear_arith)
                requires
                    next == (prev * 95 + 99) / 100,
                    prev >= 0,
            ;
            assert(prev > limit);
            let n: nat = before.len();
            let h: int = pow(100, n);
            let d: int = pow(95, n);
            lemma_pow_positive(100, n);
            lemma_pow_positive(95, n);
            assert(pow(100, windows.len()) == 100 * h);
            assert(pow(95, windows.len()) == 95 * d);
            assert((next - 20) * (100 * h) <= (rate - 20) * (95 * d)) by (nonlinear_arith)
                requires
                    100 * next < 95 * prev + 100,
                    (prev - 20) * h <= (rate - 20) * d,
                    h > 0,
            ;
        }
    }
}

/// A sustained stream at 400 kbit/s or less brings the feedback interval to its
/// ceiling of 100 ms: it is there after as many windows as the average rate
/// holds multiples of 20 kbit/s, and stays there.
pub proof fn lemma_low_rate_reaches_ceiling(rate: u64, windows: Seq<(u32, u32)>)
    requires
        windows_below(windows, MIN_FEEDBACK_RATE * MEDIA_BITS_PER_FEEDBACK),
        20_000 * windows.len() >= rate - 400_000,
    ensures
        interval_for(average_after_windows(rate, windows)) == MAX_FEEDBACK_INTERVAL,
{
    lemma_low_rate_decays(rate, windows);
    assert(MIN_FEEDBACK_RATE * MEDIA_BITS_PER_FEEDBACK == 400_000);
    assert(clamped_rate(average_after_windows(rate, windows)) == 400_000);
    assert(2_621_440_000int / 400_000 == 6553);
}

} // verus!
