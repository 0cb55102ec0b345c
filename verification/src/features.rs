//! The observation that a policy sees of one market: twenty features, each
//! moved into the range that the policy was trained on.

use vstd::prelude::*;

use crate::book::{
    ask_rows, bid_rows, flow_feature, fresh, opens_window, sample_mid, sampled, trade_window_features,
    volume_feature, TradePrint, MD_NANO,
};
use crate::config::MmParams;
use crate::model::OBS_DIM;
use crate::num::{clamp, clamp128, div_even, mul128, ratio, round_even, NANO};
use crate::state::TickerState;

verus! {

/// The lower ends of the features, in billionths. Feature 12 counts hours.
pub const OBS_LOW: [i64; 20] = [
    10_000_000,
    10_000_000,
    0,
    0,
    0,
    0,
    0,
    0,
    -1_000_000_000,
    0,
    -1_000_000_000,
    -1_000_000_000,
    0,
    -100_000_000,
    -1_000_000_000,
    0,
    -1_000_000_000,
    -100_000_000,
    -1_000_000_000,
    0,
];

/// The upper ends of the features, in billionths. Feature 12 counts hours.
pub const OBS_HIGH: [i64; 20] = [
    990_000_000,
    500_000_000,
    1_000_000_000,
    1_000_000_000,
    1_000_000_000,
    1_000_000_000,
    1_000_000_000,
    1_000_000_000,
    1_000_000_000,
    1_000_000_000,
    1_000_000_000,
    1_000_000_000,
    24_000_000_000,
    100_000_000,
    1_000_000_000,
    1_000_000_000,
    1_000_000_000,
    100_000_000,
    1_000_000_000,
    1_000_000_000,
];

/// The widest spread that the policy was trained on, in millidollars.
pub const SPREAD_BOUND: u32 = 500;

/// The samples that the volatility looks back over.
pub const VOL_WINDOW: usize = 20;

/// The largest sample that the volatility is taken of.
pub const SAMPLE_LIMIT: i64 = 0x200_0000_0000_0000;

// --- volatility --------------------------------------------------------------

/// The sum of samples.
pub open spec fn total(xs: Seq<i64>) -> int
    decreases xs.len(),
{
    if xs.len() == 0 {
        0
    } else {
        total(xs.drop_last()) + xs.last()
    }
}

/// The sum of the squares of samples.
pub open spec fn total_squares(xs: Seq<i64>) -> int
    decreases xs.len(),
{
    if xs.len() == 0 {
        0
    } else {
        total_squares(xs.drop_last()) + xs.last() * xs.last()
    }
}

/// The last samples that the volatility looks at.
pub open spec fn vol_window(hist: Seq<i64>) -> Seq<i64> {
    crate::book::last_items(hist, VOL_WINDOW as nat)
}

/// The population variance of samples times the square of their number:
/// n * sum of squares - square of the sum. Nothing for fewer than three.
pub open spec fn scaled_variance(hist: Seq<i64>) -> int {
    let xs = vol_window(hist);
    if hist.len() < 3 {
        0
    } else {
        xs.len() * total_squares(xs) - total(xs) * total(xs)
    }
}

/// The number of samples in the volatility.
pub open spec fn vol_count(hist: Seq<i64>) -> int {
    vol_window(hist).len() as int
}

/// `root` is the square root of `square / (n * n)`, rounded down.
pub open spec fn is_root(root: int, square: int, n: int) -> bool {
    root >= 0 && (root * n) * (root * n) <= square < ((root + 1) * n) * ((root + 1) * n)
}

/// The samples stay in the range that their squares fit in.
pub open spec fn samples_fit(hist: Seq<i64>) -> bool {
    forall|i: int| 0 <= i < hist.len() ==> -SAMPLE_LIMIT <= #[trigger] hist[i] <= SAMPLE_LIMIT
}

/// Bounds on sums and squares.
proof fn lemma_sums(xs: Seq<i64>)
    requires
        samples_fit(xs),
    ensures
        -(xs.len() * SAMPLE_LIMIT) <= total(xs) <= xs.len() * SAMPLE_LIMIT,
        0 <= total_squares(xs) <= xs.len() * (SAMPLE_LIMIT * SAMPLE_LIMIT),
    decreases xs.len(),
{
    if xs.len() > 0 {
        lemma_sums(xs.drop_last());
        let x = xs.last() as int;
        let lim = SAMPLE_LIMIT as int;
        assert(xs[xs.len() - 1] == x);
        assert(0 <= x * x <= lim * lim) by (nonlinear_arith)
            requires
                -lim <= x <= lim,
        ;
    }
}

/// The variance is never negative: the square of a sum is at most the number
/// of terms times the sum of their squares.
pub proof fn lemma_variance_nonnegative(xs: Seq<i64>)
    ensures
        total(xs) * total(xs) <= xs.len() * total_squares(xs),
        total_squares(xs) >= 0,
    decreases xs.len(),
{
    if xs.len() > 0 {
        let ys = xs.drop_last();
        lemma_variance_nonnegative(ys);
        let n = ys.len() as int;
        let s = total(ys);
        let q = total_squares(ys);
        let x = xs.last() as int;
        // 2 s x <= q + n x^2, since n (q + n x^2 - 2 s x) >= s^2 - 2 s n x + n^2 x^2 >= 0
        assert(x * x >= 0) by (nonlinear_arith);
        if n == 0 {
            assert(s == 0 && q == 0);
            assert((s + x) * (s + x) <= (n + 1) * (q + x * x)) by (nonlinear_arith)
                requires
                    s == 0,
                    q == 0,
                    n == 0,
            ;
        } else {
            let d = q + n * (x * x) - 2 * (s * x);
            assert(n * d >= 0) by {
                assert(n * d == n * q + (n * x) * (n * x) - 2 * (s * (n * x))) by (nonlinear_arith)
                    requires
                        d == q + n * (x * x) - 2 * (s * x),
                ;
                assert((s - n * x) * (s - n * x) == s * s - 2 * (s * (n * x)) + (n * x) * (n * x))
                    by (nonlinear_arith);
                assert((s - n * x) * (s - n * x) >= 0) by (nonlinear_arith);
            }
            assert(d >= 0) by (nonlinear_arith)
                requires
                    n * d >= 0,
                    n > 0,
            ;
            assert((s + x) * (s + x) == s * s + 2 * (s * x) + x * x) by (nonlinear_arith);
            assert((n + 1) * (q + x * x) == n * q + q + n * (x * x) + x * x) by (nonlinear_arith);
        }
        assert(xs.len() == n + 1);
    }
}

/// The scaled variance of the mid history.
fn variance(hist: &Vec<i64>) -> (r: (i128, i128))
    requires
        samples_fit(hist@),
    ensures
        r.0 == scaled_variance(hist@),
        0 <= r.0 <= (r.1 * r.1) * (SAMPLE_LIMIT * SAMPLE_LIMIT),
        r.1 == vol_count(hist@),
        0 <= r.1 <= VOL_WINDOW,
{
    let from: usize = if hist.len() > VOL_WINDOW {
        hist.len() - VOL_WINDOW
    } else {
        0
    };
    let ghost xs = vol_window(hist@);
    let mut sum: i128 = 0;
    let mut squares: i128 = 0;
    let mut i: usize = from;
    let limit: i128 = SAMPLE_LIMIT as i128;
    while i < hist.len()
        invariant
            samples_fit(hist@),
            from <= i <= hist.len(),
            hist.len() - from <= VOL_WINDOW,
            limit == SAMPLE_LIMIT,
            xs == hist@.subrange(from as int, hist@.len() as int),
            sum == total(xs.take(i - from)),
            squares == total_squares(xs.take(i - from)),
            -((i - from) * limit) <= sum <= (i - from) * limit,
            0 <= squares <= (i - from) * (limit * limit),
        decreases hist.len() - i,
    {
        let x: i128 = hist[i] as i128;
        proof {
            let seen = xs.take(i - from + 1);
            assert(seen.drop_last() =~= xs.take(i - from));
            assert(seen.last() == hist@[i as int]);
            assert(samples_fit(seen)) by {
                assert forall|k: int| 0 <= k < seen.len() implies -SAMPLE_LIMIT
                    <= #[trigger] seen[k] <= SAMPLE_LIMIT by {
                    assert(seen[k] == hist@[from + k]);
                }
            }
            lemma_sums(seen);
            assert(0 <= x * x <= limit * limit) by (nonlinear_arith)
                requires
                    -limit <= x <= limit,
            ;
        }
        sum = sum + x;
        squares = squares + x * x;
        i += 1;
    }
    let n: i128 = (hist.len() - from) as i128;
    proof {
        assert(xs.take(xs.len() as int) =~= xs);
        lemma_variance_nonnegative(xs);
        let lim = limit as int;
        assert(sum * sum <= (n * lim) * (n * lim)) by (nonlinear_arith)
            requires
                -(n * lim) <= sum <= n * lim,
        ;
        assert((n * lim) * (n * lim) <= (20 * lim) * (20 * lim)) by (nonlinear_arith)
            requires
                0 <= n <= 20,
                lim > 0,
        ;
        assert(n * squares <= 20 * (20 * (lim * lim))) by (nonlinear_arith)
            requires
                0 <= n <= 20,
                0 <= squares <= n * (lim * lim),
                lim > 0,
        ;
        assert(n * squares <= (n * n) * (lim * lim)) by (nonlinear_arith)
            requires
                0 <= n,
                squares <= n * (lim * lim),
        ;
        assert(0 <= (n * n) * (lim * lim)) by (nonlinear_arith);
        assert(sum * sum >= 0) by (nonlinear_arith);
        assert(n * squares >= 0) by (nonlinear_arith)
            requires
                n >= 0,
                squares >= 0,
        ;
    }
    if hist.len() < 3 {
        return (0, n);
    }
    (n * squares - sum * sum, n)
}

/// The volatility of the mid history: the standard deviation of the last
/// samples, in billionths of a dollar, rounded down. Zero for fewer than
/// three samples.
pub fn realized_vol(mid_history: &Vec<i64>) -> (r: i64)
    requires
        samples_fit(mid_history@),
    ensures
        mid_history@.len() < 3 ==> r == 0,
        mid_history@.len() >= 3 ==> is_root(
            r as int,
            scaled_variance(mid_history@),
            vol_count(mid_history@),
        ),
        0 <= r <= 0x400_0000_0000_0000,
{
    if mid_history.len() < 3 {
        return 0;
    }
    let (square, n) = variance(mid_history);
    let mut low: i128 = 0;
    let mut high: i128 = 0x400_0000_0000_0000;
    proof {
        assert((low * n) * (low * n) == 0) by (nonlinear_arith)
            requires
                low == 0,
        ;
        let lim = SAMPLE_LIMIT as int;
        assert((high * n) * (high * n) > (n * n) * (lim * lim)) by (nonlinear_arith)
            requires
                n >= 3,
                high == 2 * lim,
                lim == 0x200_0000_0000_0000,
        ;
    }
    while high - low > 1
        invariant
            0 <= low < high <= 0x400_0000_0000_0000,
            3 <= n <= 20,
            0 <= square,
            (low * n) * (low * n) <= square,
            square < (high * n) * (high * n),
        decreases high - low,
    {
        let half: i128 = low + (high - low) / 2;
        proof {
            assert(0 <= half * n <= 20 * 0x400_0000_0000_0000) by (nonlinear_arith)
                requires
                    0 <= half <= 0x400_0000_0000_0000,
                    3 <= n <= 20,
            ;
            let y = half * n;
            assert(0 <= y * y <= (20 * 0x400_0000_0000_0000) * (20 * 0x400_0000_0000_0000)) by (
                nonlinear_arith)
                requires
                    0 <= y <= 20 * 0x400_0000_0000_0000,
            ;
        }
        let side: i128 = half * n;
        if side * side <= square {
            low = half;
        } else {
            high = half;
        }
    }
    low as i64
}

/// The volatility lies above a threshold.
pub open spec fn too_volatile(hist: Seq<i64>, threshold: int) -> bool {
    threshold < 0 || scaled_variance(hist) > (threshold * vol_count(hist)) * (threshold * vol_count(
        hist,
    ))
}

/// Compares the volatility with a threshold, without rounding.
fn above_threshold(hist: &Vec<i64>, threshold: i64) -> (r: bool)
    requires
        samples_fit(hist@),
    ensures
        r == too_volatile(hist@, threshold as int),
{
    if threshold < 0 {
        return true;
    }
    let (square, n) = variance(hist);
    let lim: i128 = SAMPLE_LIMIT as i128;
    if threshold > SAMPLE_LIMIT {
        proof {
            let t = threshold as int;
            assert((t * n) * (t * n) >= (n * n) * (lim * lim)) by (nonlinear_arith)
                requires
                    t > lim,
                    lim > 0,
                    n >= 0,
            ;
        }
        return false;
    }
    proof {
        let t = threshold as int;
        assert(0 <= t * n <= 20 * lim) by (nonlinear_arith)
            requires
                0 <= t <= lim,
                0 <= n <= 20,
        ;
        let y = t * n;
        assert(0 <= y * y <= (20 * lim) * (20 * lim)) by (nonlinear_arith)
            requires
                0 <= y <= 20 * lim,
        ;
    }
    let side: i128 = threshold as i128 * n;
    square > side * side
}

// --- features ----------------------------------------------------------------

/// The contracts at a level, per hundred and at most one; `missing` where
/// there is no such level.
pub open spec fn depth_feature(rows: Seq<(i64, i64)>, i: int, missing: int) -> int {
    if i < rows.len() {
        clamp(round_even(rows[i].1 as int, 100), 0, NANO as int)
    } else {
        missing
    }
}

/// The contracts of all levels given.
pub open spec fn depth_total(rows: Seq<(i64, i64)>) -> int
    decreases rows.len(),
{
    if rows.len() == 0 {
        0
    } else {
        depth_total(rows.drop_last()) + rows.last().1
    }
}

/// `x` over `y` in billionths, within `lo ..= hi`.
pub open spec fn share(x: int, y: int, lo: int, hi: int) -> int {
    clamp(round_even(x * NANO, y), lo, hi)
}

/// `x` over `y`, within `lo ..= hi`.
pub open spec fn part(x: int, y: int, lo: int, hi: int) -> int {
    clamp(round_even(x, y), lo, hi)
}

/// The larger of two numbers.
pub open spec fn at_least(x: int, floor: int) -> int {
    if x > floor {
        x
    } else {
        floor
    }
}

/// The hours to the close, at most a day; a day where the close is not known.
pub open spec fn hours_left(close: Option<i64>, now: int) -> int {
    match close {
        Some(t) => part((t - now) * 5, 18, 0, 24 * NANO),
        None => 24 * NANO,
    }
}

/// The profit that the position would realize at the midpoint.
pub open spec fn open_profit(ts: TickerState) -> int {
    match ts.entry_price {
        Some(entry) => ts.position * (ts.book.middle() - entry),
        None => 0,
    }
}

/// How far the midpoint is from the sample `back` windows ago; zero where the
/// history does not reach back so far.
pub open spec fn change_since(hist: Seq<i64>, mid: int, back: int) -> int {
    if hist.len() >= back {
        mid - hist[hist.len() - back]
    } else {
        0
    }
}

/// The volatility, rounded down.
pub open spec fn vol_of(hist: Seq<i64>) -> int {
    if hist.len() < 3 {
        0
    } else {
        choose|root: int| is_root(root, scaled_variance(hist), vol_count(hist))
    }
}

/// The twenty features of a market, given its mid history and its trade
/// prints after this moment's sample and pruning.
pub open spec fn features_of(
    ts: TickerState,
    hist: Seq<i64>,
    trades: Seq<TradePrint>,
    mm: MmParams,
    now: int,
) -> Seq<int> {
    let one = NANO as int;
    let mid = ts.book.middle();
    let bids = bid_rows(ts.book.yes(), 3);
    let asks = ask_rows(ts.book.no(), 3);
    let bid_total = depth_total(bids);
    let ask_total = depth_total(asks);
    let max_inv = at_least(mm.max_inventory as int, 1);
    let fills = ts.fills_buy + ts.fills_sell;
    seq![
        clamp(mid, 10_000_000, 990_000_000),
        clamp((ts.book.ask() - ts.book.bid()) * MD_NANO, 10_000_000, 500_000_000),
        depth_feature(bids, 0, 100_000_000),
        depth_feature(asks, 0, 100_000_000),
        depth_feature(bids, 1, 50_000_000),
        depth_feature(asks, 1, 50_000_000),
        depth_feature(bids, 2, 20_000_000),
        depth_feature(asks, 2, 20_000_000),
        share(bid_total - ask_total, bid_total + ask_total + 10, -one, one),
        volume_feature(trades),
        share(ts.position as int, max_inv, -one, one),
        part(2 * open_profit(ts), at_least(max_inv, 2), -one, one),
        hours_left(ts.close_time_s, now),
        clamp(change_since(hist, mid, 5), -100_000_000, 100_000_000),
        part(ts.realized_pnl as int, 50, -one, one),
        share(fills, at_least(mm.quote_size as int, 1), 0, one),
        clamp(flow_feature(trades), -one, one),
        part(change_since(hist, mid, 3), 3, -100_000_000, 100_000_000),
        if fills > 0 {
            share(ts.fills_buy - ts.fills_sell, fills, -one, one)
        } else {
            0
        },
        clamp(vol_of(hist) * 20, 0, one),
    ]
}

/// A square has one root, rounded down.
proof fn lemma_root_is_unique(a: int, b: int, square: int, n: int)
    requires
        n > 0,
        is_root(a, square, n),
        is_root(b, square, n),
    ensures
        a == b,
{
    if a < b {
        assert(((a + 1) * n) * ((a + 1) * n) <= (b * n) * (b * n)) by (nonlinear_arith)
            requires
                0 <= a + 1 <= b,
                n > 0,
        ;
    } else if b < a {
        assert(((b + 1) * n) * ((b + 1) * n) <= (a * n) * (a * n)) by (nonlinear_arith)
            requires
                0 <= b + 1 <= a,
                n > 0,
        ;
    }
}

/// Every square that is not negative has a root, rounded down.
proof fn lemma_root_exists(square: int, n: int, from: int) -> (root: int)
    requires
        n > 0,
        from >= 0,
        (from * n) * (from * n) <= square,
    ensures
        is_root(root, square, n),
    decreases square - from,
{
    let next = from + 1;
    if square < (next * n) * (next * n) {
        from
    } else {
        assert((next * n) * (next * n) >= next) by (nonlinear_arith)
            requires
                next >= 1,
                n >= 1,
        ;
        lemma_root_exists(square, n, next)
    }
}

/// The volatility of three samples or more is the root of their variance.
pub proof fn lemma_vol_is_root(hist: Seq<i64>)
    requires
        hist.len() >= 3,
    ensures
        vol_count(hist) >= 3,
        is_root(vol_of(hist), scaled_variance(hist), vol_count(hist)),
{
    let n = vol_count(hist);
    lemma_variance_nonnegative(vol_window(hist));
    assert((0 * n) * (0 * n) == 0) by (nonlinear_arith);
    let root = lemma_root_exists(scaled_variance(hist), n, 0);
    assert(is_root(root, scaled_variance(hist), n));
}

/// The volatility rests on the last samples alone: what came before them does
/// not matter. It is never negative, and zero for fewer than three samples.
pub proof fn law_only_the_last_samples_count(a: Seq<i64>, b: Seq<i64>, threshold: int)
    requires
        crate::book::last_items(a, VOL_WINDOW as nat) == crate::book::last_items(
            b,
            VOL_WINDOW as nat,
        ),
    ensures
        scaled_variance(a) == scaled_variance(b),
        vol_count(a) == vol_count(b),
        vol_of(a) == vol_of(b),
        vol_of(a) == vol_of(crate::book::last_items(a, VOL_WINDOW as nat)),
        too_volatile(a, threshold) == too_volatile(b, threshold),
        scaled_variance(a) >= 0,
        vol_of(a) >= 0,
        a.len() < 3 ==> vol_of(a) == 0,
{
    let xs = vol_window(a);
    assert(a.len() < 3 <==> xs.len() < 3);
    assert(b.len() < 3 <==> vol_window(b).len() < 3);
    assert(vol_window(xs) == xs);
    lemma_variance_nonnegative(xs);
    if a.len() >= 3 {
        let n = vol_count(a);
        assert((0 * n) * (0 * n) == 0) by (nonlinear_arith);
        let root = lemma_root_exists(scaled_variance(a), n, 0);
        assert(is_root(root, scaled_variance(a), n));
    }
}

/// The contracts at a level.
fn depth(rows: &Vec<(i64, i64)>, i: usize, missing: i64) -> (r: i64)
    ensures
        r == depth_feature(rows@, i as int, missing as int),
{
    if i < rows.len() {
        clip(div_even(rows[i].1 as i128, 100), 0, NANO)
    } else {
        missing
    }
}

/// `x` moved into `lo ..= hi`.
fn clip(x: i128, lo: i64, hi: i64) -> (r: i64)
    requires
        lo <= hi,
    ensures
        r == clamp(x as int, lo as int, hi as int),
{
    if x < lo as i128 {
        lo
    } else if x > hi as i128 {
        hi
    } else {
        x as i64
    }
}

/// The contracts of at most three levels.
fn sum_depth(rows: &Vec<(i64, i64)>) -> (r: i128)
    requires
        rows.len() <= 3,
    ensures
        r == depth_total(rows@),
        -0x1_8000_0000_0000_0000 <= r <= 0x1_8000_0000_0000_0000,
{
    let mut sum: i128 = 0;
    let mut i: usize = 0;
    while i < rows.len()
        invariant
            i <= rows.len() <= 3,
            sum == depth_total(rows@.take(i as int)),
            -(i * 0x8000_0000_0000_0000) <= sum <= i * 0x8000_0000_0000_0000,
        decreases rows.len() - i,
    {
        proof {
            assert(rows@.take(i + 1).drop_last() =~= rows@.take(i as int));
            assert(rows@.take(i + 1).last() == rows@[i as int]);
        }
        sum = sum + rows[i].1 as i128;
        i += 1;
    }
    proof {
        assert(rows@.take(rows@.len() as int) =~= rows@);
    }
    sum
}

/// The number itself, or the floor where it is less.
fn floor_at(x: i64, floor: i64) -> (r: i64)
    ensures
        r == at_least(x as int, floor as int),
{
    if x > floor {
        x
    } else {
        floor
    }
}

/// The profit of the position at the midpoint, over half the full inventory.
fn profit_feature(ts: &TickerState, mid: i64, max_inv: i64) -> (r: i64)
    requires
        ts.book.valid(),
        mid == ts.book.middle(),
        max_inv >= 1,
    ensures
        r == part(
            2 * open_profit(*ts),
            at_least(max_inv as int, 2),
            -(NANO as int),
            NANO as int,
        ),
{
    let gain: i128 = match ts.entry_price {
        Some(entry) => mid as i128 - entry as i128,
        None => 0,
    };
    let whole: i128 = floor_at(max_inv, 2) as i128;
    let twice: i128 = 2 * gain;
    let value: i128 = mul128(twice, ts.position as i128);
    proof {
        let exact = 2 * open_profit(*ts);
        assert(exact == twice * ts.position) by (nonlinear_arith)
            requires
                twice == 2 * gain,
                exact == 2 * (ts.position * gain),
        ;
        if value != exact {
            lemma_far_quotient(value as int, exact, whole as int);
        }
    }
    clip(div_even(value, whole), -NANO, NANO)
}

/// Two numbers beyond the range, on one side, give the same clipped quotient.
proof fn lemma_far_quotient(kept: int, exact: int, whole: int)
    requires
        kept == clamp128(exact),
        kept != exact,
        2 <= whole <= i64::MAX,
    ensures
        clamp(round_even(kept, whole), -(NANO as int), NANO as int) == clamp(
            round_even(exact, whole),
            -(NANO as int),
            NANO as int,
        ),
{
    let far = 0x1_0000_0000_0000_0000int - 1;
    if exact > 0 {
        lemma_quotient_at_least(kept, whole);
        lemma_quotient_at_least(exact, whole);
    } else {
        lemma_quotient_at_most(kept, whole);
        lemma_quotient_at_most(exact, whole);
    }
}

proof fn lemma_quotient_at_least(x: int, whole: int)
    requires
        x >= i128::MAX,
        2 <= whole <= i64::MAX,
    ensures
        round_even(x, whole) >= NANO,
{
    crate::num::lemma_round_even_bounds(x, whole);
    vstd::arithmetic::div_mod::lemma_fundamental_div_mod(x, whole);
    let q = x / whole;
    let r = x % whole;
    assert(q >= NANO) by (nonlinear_arith)
        requires
            x == whole * q + r,
            0 <= r < whole,
            2 <= whole <= 0x7fff_ffff_ffff_ffff,
            x >= 0x7fff_ffff_ffff_ffff_ffff_ffff_ffff_ffff,
            NANO == 1_000_000_000,
    ;
}

proof fn lemma_quotient_at_most(x: int, whole: int)
    requires
        x <= i128::MIN,
        2 <= whole <= i64::MAX,
    ensures
        round_even(x, whole) <= -NANO,
{
    crate::num::lemma_round_even_bounds(x, whole);
    vstd::arithmetic::div_mod::lemma_fundamental_div_mod(x, whole);
    let q = x / whole;
    let r = x % whole;
    assert(q + 1 <= -NANO) by (nonlinear_arith)
        requires
            x == whole * q + r,
            0 <= r < whole,
            2 <= whole <= 0x7fff_ffff_ffff_ffff,
            x <= -0x8000_0000_0000_0000_0000_0000_0000_0000,
            NANO == 1_000_000_000,
    ;
}

/// The change of the midpoint over some windows.
fn change_over(hist: &Vec<i64>, mid: i64, back: usize) -> (r: i128)
    requires
        0 < back,
    ensures
        r == change_since(hist@, mid as int, back as int),
{
    if hist.len() >= back {
        mid as i128 - hist[hist.len() - back] as i128
    } else {
        0
    }
}

/// The book rules an observation out: it is not valid, or its spread is wider
/// than any that the policy was trained on.
pub open spec fn is_wide(ts: TickerState) -> bool {
    !ts.book.valid() || ts.book.ask() - ts.book.bid() > SPREAD_BOUND
}

/// The mid history after this moment's sample.
pub open spec fn history_after(ts: TickerState, now_mono: int) -> Seq<i64> {
    sampled(
        ts.mid_history@,
        ts.last_mid_sample as int,
        now_mono,
        ts.book.middle() as i64,
    )
}

/// Builds the observation of one market, or none where the policy has no
/// business there. Samples the mid price and prunes the trade prints on the
/// way.
pub fn build_observation(ts: &mut TickerState, mm: &MmParams, now_s: i64, now_mono: i64) -> (r: Option<
    [i64; 20],
>)
    requires
        old(ts).wf(),
    ensures
        final(ts).wf(),
        is_wide(*old(ts)) ==> r is None && *final(ts) == *old(ts),
        !is_wide(*old(ts)) ==> ({
            let hist = history_after(*old(ts), now_mono as int);
            let hostile = too_volatile(hist, mm.vol_filter_threshold as int);
            &&& final(ts).mid_history@ == hist
            &&& *final(ts) == (TickerState {
                mid_history: final(ts).mid_history,
                last_mid_sample: if opens_window(
                    old(ts).mid_history@,
                    old(ts).last_mid_sample as int,
                    now_mono as int,
                ) {
                    now_mono
                } else {
                    old(ts).last_mid_sample
                },
                recent_trades: final(ts).recent_trades,
                ..*old(ts)
            })
            &&& hostile ==> r is None && final(ts).recent_trades == old(ts).recent_trades
            &&& !hostile ==> {
                &&& final(ts).recent_trades@ == fresh(old(ts).recent_trades@, now_s as int)
                &&& r is Some
                &&& r->Some_0@.map_values(|x: i64| x as int) == features_of(
                    *old(ts),
                    hist,
                    fresh(old(ts).recent_trades@, now_s as int),
                    *mm,
                    now_s as int,
                )
            }
        }),
{
    let (bid_md, ask_md) = match (ts.book.best_bid_md(), ts.book.best_ask_md()) {
        (Some(b), Some(a)) => (b, a),
        _ => {
            return None;
        },
    };
    if ask_md <= bid_md || ask_md - bid_md > SPREAD_BOUND {
        return None;
    }
    let spread: i64 = (ask_md - bid_md) as i64 * MD_NANO;
    let mid: i64 = match ts.book.mid() {
        Some(m) => m,
        None => {
            return None;
        },
    };
    let ghost hist = history_after(*ts, now_mono as int);
    proof {
        assert(forall|k: int|
            0 <= k < hist.len() ==> 0 <= #[trigger] hist[k] <= u32::MAX * MD_NANO);
    }
    ts.last_mid_sample = sample_mid(&mut ts.mid_history, ts.last_mid_sample, now_mono, mid);
    assert(samples_fit(ts.mid_history@));
    if above_threshold(&ts.mid_history, mm.vol_filter_threshold) {
        return None;
    }
    let vol: i64 = realized_vol(&ts.mid_history);
    proof {
        if hist.len() >= 3 {
            let root = vol_of(hist);
            lemma_root_is_unique(vol as int, root, scaled_variance(hist), vol_count(hist));
        }
    }
    let bids = ts.book.bid_levels(3);
    let asks = ts.book.ask_levels(3);
    let bid_total: i128 = sum_depth(&bids);
    let ask_total: i128 = sum_depth(&asks);
    proof {
        lemma_depth_nonnegative(bids@, ts.book.yes(), true);
        lemma_depth_nonnegative(asks@, ts.book.no(), false);
    }
    let imbalance: i64 = ratio(bid_total - ask_total, bid_total + ask_total + 10, -NANO, NANO);
    let (volume, flow) = trade_window_features(&mut ts.recent_trades, now_s);
    let max_inv: i64 = floor_at(mm.max_inventory, 1);
    let inventory: i64 = ratio(ts.position as i128, max_inv as i128, -NANO, NANO);
    let unrealized: i64 = profit_feature(ts, mid, max_inv);
    let hours: i64 = match ts.close_time_s {
        Some(close) => clip(
            div_even((close as i128 - now_s as i128) * 5, 18),
            0,
            24_000_000_000,
        ),
        None => 24_000_000_000,
    };
    let momentum: i64 = clip(change_over(&ts.mid_history, mid, 5), -100_000_000, 100_000_000);
    let realized: i64 = clip(div_even(ts.realized_pnl, 50), -NANO, NANO);
    let fills: i128 = ts.fills_buy as i128 + ts.fills_sell as i128;
    let fills_ratio: i64 = ratio(fills, floor_at(mm.quote_size, 1) as i128, 0, NANO);
    let velocity: i64 = clip(
        div_even(change_over(&ts.mid_history, mid, 3), 3),
        -100_000_000,
        100_000_000,
    );
    let toxicity: i64 = if fills > 0 {
        ratio(ts.fills_buy as i128 - ts.fills_sell as i128, fills, -NANO, NANO)
    } else {
        0
    };
    let vol_norm: i64 = clip(vol as i128 * 20, 0, NANO);
    let obs: [i64; 20] = [
        clip(mid as i128, 10_000_000, 990_000_000),
        clip(spread as i128, 10_000_000, 500_000_000),
        depth(&bids, 0, 100_000_000),
        depth(&asks, 0, 100_000_000),
        depth(&bids, 1, 50_000_000),
        depth(&asks, 1, 50_000_000),
        depth(&bids, 2, 20_000_000),
        depth(&asks, 2, 20_000_000),
        imbalance,
        volume,
        inventory,
        unrealized,
        hours,
        momentum,
        realized,
        fills_ratio,
        clip(flow as i128, -NANO, NANO),
        velocity,
        toxicity,
        vol_norm,
    ];
    proof {
        assert(obs@.map_values(|x: i64| x as int) =~= features_of(
            *old(ts),
            hist,
            ts.recent_trades@,
            *mm,
            now_s as int,
        ));
    }
    Some(obs)
}

/// The contracts of a ladder's rows are not negative.
proof fn lemma_depth_nonnegative(rows: Seq<(i64, i64)>, levels: Seq<(u32, i64)>, bids: bool)
    requires
        crate::book::ladder(levels),
        rows == if bids {
            bid_rows(levels, 3)
        } else {
            ask_rows(levels, 3)
        },
    ensures
        depth_total(rows) >= 0,
{
    assert forall|i: int| 0 <= i < rows.len() implies (#[trigger] rows[i]).1 > 0 by {
        let at = levels.len() - 1 - i;
        assert(levels[at].1 > 0);
        assert(rows[i].1 == levels[at].1);
    }
    lemma_total_nonnegative(rows);
}

proof fn lemma_total_nonnegative(rows: Seq<(i64, i64)>)
    requires
        forall|i: int| 0 <= i < rows.len() ==> (#[trigger] rows[i]).1 > 0,
    ensures
        depth_total(rows) >= 0,
    decreases rows.len(),
{
    if rows.len() > 0 {
        assert(rows[rows.len() - 1].1 > 0);
        lemma_total_nonnegative(rows.drop_last());
    }
}

/// Every feature lies within the bounds that the policy was trained on.
pub proof fn law_features_are_in_range(
    ts: TickerState,
    hist: Seq<i64>,
    trades: Seq<TradePrint>,
    mm: MmParams,
    now: int,
    i: int,
)
    requires
        0 <= i < OBS_DIM,
    ensures
        features_of(ts, hist, trades, mm, now).len() == OBS_DIM,
        OBS_LOW@[i] <= features_of(ts, hist, trades, mm, now)[i] <= OBS_HIGH@[i],
{
}

} // verus!
