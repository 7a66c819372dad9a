//! Peak, extreme, frequency and crossing searches over a data series.
//!
//! A series is given as integer keys, one per sample, whose order is the order
//! of the samples' values: `order_key` makes such a key from the bit pattern of
//! a double. The arithmetic that derives a series (modulus, decibels) is done
//! by the caller; everything decided by comparing values is done here.
use vstd::prelude::*;
use crate::error::{ErrorView, SimulationError};

verus! {

/// Which view of the complex samples a series holds.
#[derive(Debug, Clone, Copy, PartialEq, Eq, Structural)]
pub enum DataType {
    /// The real parts.
    Real,
    /// The imaginary parts.
    Imaginary,
    /// The moduli.
    Absolute,
    /// The moduli in decibels: `20 * log10(modulus)`.
    AbsoluteDecibel,
    /// The arguments; not supported.
    Argument,
}

/// Which local extrema a peak search looks for.
#[derive(Debug, Clone, Copy, PartialEq, Eq, Structural)]
pub enum PeakType {
    Minimum,
    Maximum,
}

/// The sign bit of a double.
pub open spec fn sign_bit() -> int {
    0x8000_0000_0000_0000
}

/// The key of the double with bit pattern `bits`: its magnitude bits, negated
/// when the sign bit is set. Both zeros get key 0; for doubles that are not
/// NaN, keys are ordered as the values are. A NaN, which no float comparison
/// ranks, gets a key beyond the infinities: a caller whose series may hold NaN
/// gives those samples a key of its choosing instead.
pub open spec fn key_of(bits: u64) -> int {
    if bits >= sign_bit() {
        -(bits - sign_bit())
    } else {
        bits as int
    }
}

/// The order key of the double with bit pattern `bits`.
pub fn order_key(bits: u64) -> (r: i64)
    ensures
        r as int == key_of(bits),
{
    if bits >= 0x8000_0000_0000_0000 {
        let magnitude: u64 = bits - 0x8000_0000_0000_0000;
        -(magnitude as i64)
    } else {
        bits as i64
    }
}

/// The order keys of a series of bit patterns.
pub fn keys_of(bits: &Vec<u64>) -> (r: Vec<i64>)
    ensures
        r@.len() == bits@.len(),
        forall|i: int| 0 <= i < bits@.len() ==> r@[i] as int == key_of(#[trigger] bits@[i]),
{
    let mut out: Vec<i64> = Vec::new();
    let mut i: usize = 0;
    while i < bits.len()
        invariant
            i <= bits@.len(),
            out@.len() == i,
            forall|j: int| 0 <= j < i ==> out@[j] as int == key_of(#[trigger] bits@[j]),
        decreases bits@.len() - i,
    {
        out.push(order_key(bits[i]));
        i += 1;
    }
    out
}

/// Sample `i` lies strictly above both neighbours.
pub open spec fn is_local_max(k: Seq<i64>, i: int) -> bool {
    1 <= i && i + 1 < k.len() && k[i] > k[i - 1] && k[i] > k[i + 1]
}

/// Sample `i` lies strictly below both neighbours.
pub open spec fn is_local_min(k: Seq<i64>, i: int) -> bool {
    1 <= i && i + 1 < k.len() && k[i] < k[i - 1] && k[i] < k[i + 1]
}

/// Sample `i` is a peak of the kind asked for; with no kind, either kind.
pub open spec fn is_peak(k: Seq<i64>, i: int, peak_type: Option<PeakType>) -> bool {
    match peak_type {
        Some(PeakType::Maximum) => is_local_max(k, i),
        Some(PeakType::Minimum) => is_local_min(k, i),
        None => is_local_max(k, i) || is_local_min(k, i),
    }
}

/// The indices of the peaks of the series, in ascending order. The first and
/// the last sample are never peaks.
pub fn find_peaks(keys: &Vec<i64>, peak_type: Option<PeakType>) -> (r: Vec<usize>)
    ensures
        forall|j: int| 0 <= j < r@.len() ==> is_peak(keys@, #[trigger] r@[j] as int, peak_type),
        forall|a: int, b: int| 0 <= a < b < r@.len() ==> r@[a] < r@[b],
        forall|i: int| is_peak(keys@, i, peak_type) ==> exists|j: int|
            0 <= j < r@.len() && r@[j] == i,
{
    let mut out: Vec<usize> = Vec::new();
    let n = keys.len();
    if n < 3 {
        return out;
    }
    let mut i: usize = 1;
    while i + 1 < n
        invariant
            n == keys@.len(),
            1 <= i <= n - 1,
            forall|j: int| 0 <= j < out@.len() ==> is_peak(keys@, #[trigger] out@[j] as int, peak_type),
            forall|j: int| 0 <= j < out@.len() ==> #[trigger] out@[j] < i,
            forall|a: int, b: int| 0 <= a < b < out@.len() ==> out@[a] < out@[b],
            forall|m: int| 0 <= m < i && is_peak(keys@, m, peak_type) ==> exists|j: int|
                0 <= j < out@.len() && out@[j] == m,
        decreases n - i,
    {
        let above = keys[i] > keys[i - 1] && keys[i] > keys[i + 1];
        let below = keys[i] < keys[i - 1] && keys[i] < keys[i + 1];
        let hit = match peak_type {
            Some(PeakType::Maximum) => above,
            Some(PeakType::Minimum) => below,
            None => above || below,
        };
        proof {
            assert(hit == is_peak(keys@, i as int, peak_type));
        }
        if hit {
            let ghost before = out@;
            out.push(i);
            proof {
                assert forall|m: int| 0 <= m < i + 1 && is_peak(keys@, m, peak_type) implies exists|
                    j: int,
                |
                    0 <= j < out@.len() && out@[j] == m by {
                    if m < i {
                        let j = choose|j: int| 0 <= j < before.len() && before[j] == m;
                        assert(out@[j] == m);
                    } else {
                        assert(out@[out@.len() - 1] == m);
                    }
                }
            }
        }
        i += 1;
    }
    proof {
        assert forall|m: int| is_peak(keys@, m, peak_type) implies exists|j: int|
            0 <= j < out@.len() && out@[j] == m by {
            assert(m < i);
        }
    }
    out
}

/// The index of the largest sample; the first one where several are largest.
pub fn index_of_max(keys: &Vec<i64>) -> (r: Option<usize>)
    ensures
        keys@.len() == 0 ==> r is None,
        keys@.len() > 0 ==> r is Some && r->Some_0 < keys@.len() && (forall|j: int|
            0 <= j < keys@.len() ==> #[trigger] keys@[j] <= keys@[r->Some_0 as int]) && (forall|j: int|
            0 <= j < r->Some_0 ==> #[trigger] keys@[j] < keys@[r->Some_0 as int]),
{
    if keys.len() == 0 {
        return None;
    }
    let mut best: usize = 0;
    let mut i: usize = 1;
    while i < keys.len()
        invariant
            1 <= i <= keys@.len(),
            best < i,
            forall|j: int| 0 <= j < i ==> #[trigger] keys@[j] <= keys@[best as int],
            forall|j: int| 0 <= j < best ==> #[trigger] keys@[j] < keys@[best as int],
        decreases keys@.len() - i,
    {
        if keys[i] > keys[best] {
            best = i;
        }
        i += 1;
    }
    Some(best)
}

/// The index of the smallest sample; the first one where several are smallest.
pub fn index_of_min(keys: &Vec<i64>) -> (r: Option<usize>)
    ensures
        keys@.len() == 0 ==> r is None,
        keys@.len() > 0 ==> r is Some && r->Some_0 < keys@.len() && (forall|j: int|
            0 <= j < keys@.len() ==> #[trigger] keys@[j] >= keys@[r->Some_0 as int]) && (forall|j: int|
            0 <= j < r->Some_0 ==> #[trigger] keys@[j] > keys@[r->Some_0 as int]),
{
    if keys.len() == 0 {
        return None;
    }
    let mut best: usize = 0;
    let mut i: usize = 1;
    while i < keys.len()
        invariant
            1 <= i <= keys@.len(),
            best < i,
            forall|j: int| 0 <= j < i ==> #[trigger] keys@[j] >= keys@[best as int],
            forall|j: int| 0 <= j < best ==> #[trigger] keys@[j] > keys@[best as int],
        decreases keys@.len() - i,
    {
        if keys[i] < keys[best] {
            best = i;
        }
        i += 1;
    }
    Some(best)
}

/// The first index whose frequency reaches `target`.
pub fn find_value_near_freq(frequencies: &Vec<i64>, target: i64) -> (r: Result<
    usize,
    SimulationError,
>)
    ensures
        match r {
            Ok(i) => i < frequencies@.len() && frequencies@[i as int] >= target && forall|j: int|
                0 <= j < i ==> frequencies@[j] < target,
            Err(e) => e@ == ErrorView::FrequencyNotFound && forall|j: int|
                0 <= j < frequencies@.len() ==> frequencies@[j] < target,
        },
{
    let mut i: usize = 0;
    while i < frequencies.len()
        invariant
            i <= frequencies@.len(),
            forall|j: int| 0 <= j < i ==> frequencies@[j] < target,
        decreases frequencies@.len() - i,
    {
        if frequencies[i] >= target {
            return Ok(i);
        }
        i += 1;
    }
    Err(SimulationError::FrequencyNotFound)
}

/// The first index whose frequency lies strictly above `target`.
pub fn first_above(frequencies: &Vec<i64>, target: i64) -> (r: Option<usize>)
    ensures
        match r {
            Some(i) => i < frequencies@.len() && frequencies@[i as int] > target && forall|j: int|
                0 <= j < i ==> frequencies@[j] <= target,
            None => forall|j: int| 0 <= j < frequencies@.len() ==> frequencies@[j] <= target,
        },
{
    let mut i: usize = 0;
    while i < frequencies.len()
        invariant
            i <= frequencies@.len(),
            forall|j: int| 0 <= j < i ==> frequencies@[j] <= target,
        decreases frequencies@.len() - i,
    {
        if frequencies[i] > target {
            return Some(i);
        }
        i += 1;
    }
    None
}

/// Sample `i` lies more than `offset` beyond the start value: its excess over
/// the start, taken in the direction searched, is larger than `offset`.
pub open spec fn crosses(excess: Seq<i64>, i: int, offset: i64) -> bool {
    excess[i] > offset
}

/// The nearest samples on either side of `start` that lie more than `offset`
/// beyond the start value. `excess[i]` is how far sample `i` lies beyond the
/// start value in the direction searched: `value - start` when looking for a
/// rise, `start - value` when looking for a fall. The left scan runs from
/// `start` down to the first sample, the right scan from `start` up to the
/// last one; each side is searched on its own, and gives `None` where it
/// reaches the boundary without a crossing. A `start` beyond the data is
/// refused.
pub fn next_value_around(excess: &Vec<i64>, start: usize, offset: i64) -> (r: Result<
    (Option<usize>, Option<usize>),
    SimulationError,
>)
    ensures
        start >= excess@.len() ==> r is Err && r->Err_0@ == ErrorView::IndexOutOfRange,
        start < excess@.len() ==> r is Ok,
        r matches Ok((left, right)) ==> match left {
            Some(j) => j <= start && crosses(excess@, j as int, offset) && forall|m: int|
                j < m <= start ==> !crosses(excess@, m, offset),
            None => forall|m: int| 0 <= m <= start ==> !crosses(excess@, m, offset),
        },
        r matches Ok((left, right)) ==> match right {
            Some(j) => start <= j < excess@.len() && crosses(excess@, j as int, offset) && forall|
                m: int,
            | start <= m < j ==> !crosses(excess@, m, offset),
            None => forall|m: int| start <= m < excess@.len() ==> !crosses(excess@, m, offset),
        },
{
    let n = excess.len();
    if start >= n {
        return Err(SimulationError::IndexOutOfRange);
    }
    let mut left: Option<usize> = None;
    let mut i: usize = start + 1;
    while i > 0
        invariant_except_break
            left is None,
            forall|m: int| i <= m <= start ==> !crosses(excess@, m, offset),
        invariant
            n == excess@.len(),
            start < n,
            i <= start + 1,
            forall|m: int| i < m <= start ==> !crosses(excess@, m, offset),
        ensures
            match left {
                Some(j) => j <= start && crosses(excess@, j as int, offset) && forall|m: int|
                    j < m <= start ==> !crosses(excess@, m, offset),
                None => forall|m: int| 0 <= m <= start ==> !crosses(excess@, m, offset),
            },
        decreases i,
    {
        i -= 1;
        if excess[i] > offset {
            left = Some(i);
            break;
        }
    }
    let mut right: Option<usize> = None;
    let mut j: usize = start;
    while j < n
        invariant_except_break
            right is None,
        invariant
            n == excess@.len(),
            start <= j <= n,
            forall|m: int| start <= m < j ==> !crosses(excess@, m, offset),
        ensures
            match right {
                Some(k) => start <= k < n && crosses(excess@, k as int, offset) && forall|m: int|
                    start <= m < k ==> !crosses(excess@, m, offset),
                None => forall|m: int| start <= m < n ==> !crosses(excess@, m, offset),
            },
        decreases n - j,
    {
        if excess[j] > offset {
            right = Some(j);
            break;
        }
        j += 1;
    }
    Ok((left, right))
}

/// A term of the resonance penalty: `weight / (f[high] - f[low])`, where `f`
/// is the frequency series. A term marked `within_100_hz` counts only when
/// that gap is below 100 Hz.
#[derive(Debug, Clone, Copy, PartialEq, Eq, Structural)]
pub struct PenaltyTerm {
    pub weight: u64,
    pub low: usize,
    pub high: usize,
    pub within_100_hz: bool,
}

/// The penalty term of a maximum at `resonance`, from the nearest crossings
/// 3 dB around it: a crossing on both sides gives `10 / (f[right] - f[left])`;
/// a crossing on one side only gives nothing.
pub fn maximum_penalty_term(resonance: usize, left: Option<usize>, right: Option<usize>) -> (r:
    Option<PenaltyTerm>)
    ensures
        match (left, right) {
            (Some(l), Some(h)) => r == Some(
                PenaltyTerm { weight: 10, low: l, high: h, within_100_hz: false },
            ),
            _ => r is None,
        },
{
    match (left, right) {
        (Some(l), Some(h)) => Some(PenaltyTerm { weight: 10, low: l, high: h, within_100_hz: false }),
        _ => None,
    }
}

/// The penalty term of a minimum at `resonance`, from the nearest crossings
/// 3 dB around it: a crossing on both sides gives `10 / (f[right] - f[left])`;
/// one on the left only gives `20 / (f[resonance] - f[left])` when that gap is
/// below 100 Hz; one on the right only gives nothing.
pub fn minimum_penalty_term(resonance: usize, left: Option<usize>, right: Option<usize>) -> (r:
    Option<PenaltyTerm>)
    ensures
        match (left, right) {
            (Some(l), Some(h)) => r == Some(
                PenaltyTerm { weight: 10, low: l, high: h, within_100_hz: false },
            ),
            (Some(l), None) => r == Some(
                PenaltyTerm { weight: 20, low: l, high: resonance, within_100_hz: true },
            ),
            _ => r is None,
        },
{
    match (left, right) {
        (Some(l), Some(h)) => Some(PenaltyTerm { weight: 10, low: l, high: h, within_100_hz: false }),
        (Some(l), None) => Some(
            PenaltyTerm { weight: 20, low: l, high: resonance, within_100_hz: true },
        ),
        _ => None,
    }
}

/// `p` lies less than two samples away from `center`.
pub open spec fn is_near(center: usize, p: usize) -> bool {
    center < p + 2 && p < center + 2
}

/// The peaks, in their order, that lie less than two samples away from `center`.
pub fn peaks_near(peaks: &Vec<usize>, center: usize) -> (r: Vec<usize>)
    ensures
        r@ == peaks@.filter(|p: usize| is_near(center, p)),
{
    let ghost pred = |p: usize| is_near(center, p);
    let mut out: Vec<usize> = Vec::new();
    let mut i: usize = 0;
    proof {
        reveal(Seq::filter);
        assert(peaks@.subrange(0, 0).filter(pred) =~= seq![]);
    }
    while i < peaks.len()
        invariant
            i <= peaks@.len(),
            pred == (|p: usize| is_near(center, p)),
            out@ == peaks@.subrange(0, i as int).filter(pred),
        decreases peaks@.len() - i,
    {
        let p = peaks[i];
        proof {
            reveal(Seq::filter);
            assert(peaks@.subrange(0, i + 1).drop_last() =~= peaks@.subrange(0, i as int));
            assert(peaks@.subrange(0, i + 1).last() == p);
        }
        if (center as u128) < (p as u128) + 2 && (p as u128) < (center as u128) + 2 {
            out.push(p);
        }
        i += 1;
    }
    proof {
        assert(peaks@.subrange(0, i as int) =~= peaks@);
    }
    out
}

} // verus!
