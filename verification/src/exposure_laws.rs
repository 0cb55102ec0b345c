//! What the ladder's cap, the spot defence and the account's limits let
//! through, said of their inputs and results.

use vstd::prelude::*;

use crate::config::{CategoryConfig, LiveConfig, SpotParams};
use crate::engine::risk_of;
use crate::json::JsonView;
use crate::ladder::{
    down_profit, known, neighbours_in, prefix_of, rung_of, slope_at, slope_between, strike_of, up_profit, RungView,
};
use crate::num::{lemma_round_even_near, magnitude, round_even, Num};
use crate::spot::{averaged, base_tick, gate_closed, is_outlier, retained, return_over, stale};
use crate::state::{TickerState, TraderState};
use crate::table::Table;
use crate::text::find_from;
use crate::trader::{
    gate_of, inventory_cap, is_gated, ladder_entries, marked, mids_of, shift_by, tail_gate, Gate, Trader,
};

verus! {

// --- the ladder's worst cases ------------------------------------------------

/// Twice the price that a market is marked at, in billionths of a dollar: bid
/// and ask together where its book is valid, or else twice the entry price, or
/// else a dollar.
pub open spec fn twice_mark(ts: TickerState) -> int {
    if ts.book.valid() {
        (ts.book.bid() + ts.book.ask()) * 1_000_000
    } else {
        match ts.entry_price {
            Some(e) => 2 * e,
            None => 1_000_000_000,
        }
    }
}

/// Twice what the markets of a ladder from `i` on make if every YES pays a
/// dollar.
pub open spec fn twice_gain_above(
    keys: Seq<Seq<char>>,
    values: Seq<TickerState>,
    prefix: Seq<char>,
    i: int,
) -> int
    decreases keys.len() - i,
{
    if i >= keys.len() {
        0
    } else {
        (if prefix_of(keys[i]) == Some(prefix) {
            values[i].position * (2_000_000_000 - twice_mark(values[i]))
        } else {
            0
        }) + twice_gain_above(keys, values, prefix, i + 1)
    }
}

/// Twice what the markets of a ladder from `i` on lose if no YES pays.
pub open spec fn twice_loss_below(
    keys: Seq<Seq<char>>,
    values: Seq<TickerState>,
    prefix: Seq<char>,
    i: int,
) -> int
    decreases keys.len() - i,
{
    if i >= keys.len() {
        0
    } else {
        (if prefix_of(keys[i]) == Some(prefix) {
            values[i].position * twice_mark(values[i])
        } else {
            0
        }) + twice_loss_below(keys, values, prefix, i + 1)
    }
}

/// The marks are prices between nothing and a dollar.
pub open spec fn marks_are_prices(values: Seq<TickerState>) -> bool {
    forall|i: int|
        0 <= i < values.len() ==> 0 <= twice_mark(#[trigger] values[i]) <= 2_000_000_000
}

/// A bound on what the first `n` markets can make or lose, in billionths.
spec fn far(n: int) -> int {
    n * 0x2000_0000_0000_0000_0000_0000
}

proof fn lemma_entry(ts: TickerState)
    requires
        0 <= twice_mark(ts) <= 2_000_000_000,
    ensures
        marked(ts).0 == ts.position,
        2 * marked(ts).1 == twice_mark(ts),
        2 * (marked(ts).0 * (1_000_000_000 - marked(ts).1)) == ts.position * (2_000_000_000
            - twice_mark(ts)),
        2 * (marked(ts).0 * marked(ts).1) == ts.position * twice_mark(ts),
        magnitude(marked(ts).0 * (1_000_000_000 - marked(ts).1)) <= far(1),
        magnitude(marked(ts).0 * marked(ts).1) <= far(1),
{
    let p = ts.position as int;
    let m = marked(ts).1 as int;
    let t = twice_mark(ts);
    assert(2 * m == t);
    assert(2 * (p * (1_000_000_000 - m)) == p * (2_000_000_000 - t)) by (nonlinear_arith)
        requires
            2 * m == t,
    ;
    assert(2 * (p * m) == p * t) by (nonlinear_arith)
        requires
            2 * m == t,
    ;
    assert(-0x2000_0000_0000_0000_0000_0000 <= p * (1_000_000_000 - m)
        <= 0x2000_0000_0000_0000_0000_0000) by (nonlinear_arith)
        requires
            -0x8000_0000_0000_0000 <= p < 0x8000_0000_0000_0000,
            0 <= m <= 1_000_000_000,
    ;
    assert(-0x2000_0000_0000_0000_0000_0000 <= p * m <= 0x2000_0000_0000_0000_0000_0000)
        by (nonlinear_arith)
        requires
            -0x8000_0000_0000_0000 <= p < 0x8000_0000_0000_0000,
            0 <= m <= 1_000_000_000,
    ;
}

proof fn lemma_tails(keys: Seq<Seq<char>>, values: Seq<TickerState>, prefix: Seq<char>, n: int)
    requires
        0 <= n <= keys.len() <= u32::MAX,
        keys.len() == values.len(),
        marks_are_prices(values),
    ensures
        ({
            let entries = ladder_entries(keys, values, prefix, n);
            &&& 2 * up_profit(entries) + twice_gain_above(keys, values, prefix, n)
                == twice_gain_above(keys, values, prefix, 0)
            &&& twice_loss_below(keys, values, prefix, n) - 2 * down_profit(entries)
                == twice_loss_below(keys, values, prefix, 0)
            &&& magnitude(up_profit(entries)) <= far(n)
            &&& magnitude(down_profit(entries)) <= far(n)
        }),
    decreases n,
{
    if n > 0 {
        lemma_tails(keys, values, prefix, n - 1);
        let before = ladder_entries(keys, values, prefix, n - 1);
        let ts = values[n - 1];
        lemma_entry(ts);
        let entries = ladder_entries(keys, values, prefix, n);
        if ts.position != 0 && prefix_of(keys[n - 1]) == Some(prefix) {
            assert(entries == before.push(marked(ts)));
            assert(entries.drop_last() =~= before);
            assert(entries.last() == marked(ts));
        } else {
            assert(0 * (2_000_000_000 - twice_mark(ts)) == 0) by (nonlinear_arith);
            assert(0 * twice_mark(ts) == 0) by (nonlinear_arith);
        }
    }
}

/// The ladder's cap: asks may rest while the markets of the ladder, marked at
/// their midpoints, lose less than the cap if every YES pays, and bids while
/// they lose less than it if none does. Without a cap, and for a market that is
/// on no ladder, both may.
pub proof fn law_the_ladder_cap(tickers: Table<TickerState>, ticker: Seq<char>, cap: int)
    requires
        tickers.wf(),
        tickers.keys().len() <= u32::MAX,
        marks_are_prices(tickers.values()),
    ensures
        prefix_of(ticker) is None || cap <= 0 ==> tail_gate(tickers, ticker, cap) == (true, true),
        cap > 0 && prefix_of(ticker) is Some ==> {
            let prefix = prefix_of(ticker)->Some_0;
            &&& tail_gate(tickers, ticker, cap).1 <==> twice_gain_above(
                tickers.keys(),
                tickers.values(),
                prefix,
                0,
            ) + 2 * cap > 0
            &&& tail_gate(tickers, ticker, cap).0 <==> twice_loss_below(
                tickers.keys(),
                tickers.values(),
                prefix,
                0,
            ) < 2 * cap
        },
{
    if prefix_of(ticker) is Some {
        lemma_tails(
            tickers.keys(),
            tickers.values(),
            prefix_of(ticker)->Some_0,
            tickers.keys().len() as int,
        );
    }
}

/// Two states of the same markets that differ only in what the ladder's cap
/// does not look at: a market of another ladder, a flat one, or one with a valid
/// book whose entry price is another.
pub open spec fn same_exposure(a: Table<TickerState>, b: Table<TickerState>, ticker: Seq<char>) -> bool {
    &&& a.keys() == b.keys()
    &&& a.values().len() == a.keys().len()
    &&& b.values().len() == a.keys().len()
    &&& forall|i: int|
        #![trigger a.values()[i]]
        #![trigger b.values()[i]]
        0 <= i < a.keys().len() ==> {
            ||| prefix_of(a.keys()[i]) != prefix_of(ticker)
            ||| a.values()[i].position == 0 && b.values()[i].position == 0
            ||| {
                &&& a.values()[i].position == b.values()[i].position
                &&& a.values()[i].book.valid() && b.values()[i].book.valid()
                &&& a.values()[i].book.bid() == b.values()[i].book.bid()
                &&& a.values()[i].book.ask() == b.values()[i].book.ask()
            }
        }
}

/// While the books are valid the ladder's cap does not depend on what the
/// positions were entered at, nor on flat markets, nor on other ladders.
pub proof fn law_entry_prices_do_not_move_the_cap(
    a: Table<TickerState>,
    b: Table<TickerState>,
    ticker: Seq<char>,
    cap: int,
)
    requires
        same_exposure(a, b, ticker),
    ensures
        tail_gate(a, ticker, cap) == tail_gate(b, ticker, cap),
{
    if prefix_of(ticker) is Some {
        lemma_same_entries(a, b, ticker, a.keys().len() as int);
    }
}

proof fn lemma_same_entries(a: Table<TickerState>, b: Table<TickerState>, ticker: Seq<char>, n: int)
    requires
        same_exposure(a, b, ticker),
        prefix_of(ticker) is Some,
        0 <= n <= a.keys().len(),
    ensures
        ladder_entries(a.keys(), a.values(), prefix_of(ticker)->Some_0, n) == ladder_entries(
            b.keys(),
            b.values(),
            prefix_of(ticker)->Some_0,
            n,
        ),
    decreases n,
{
    if n > 0 {
        lemma_same_entries(a, b, ticker, n - 1);
        let x = a.values()[n - 1];
        let y = b.values()[n - 1];
    }
}

/// A threshold ticker is a series, an expiry and a strike behind the letter T,
/// with dashes between them; the first two name its ladder.
pub proof fn law_threshold_tickers(
    series: Seq<char>,
    expiry: Seq<char>,
    strike: Seq<char>,
    n: i128,
)
    requires
        !series.contains('-'),
        !expiry.contains('-'),
        !strike.contains('-'),
        expiry.len() > 0,
        crate::num::number_in(strike) == Some(Num::Finite(n)),
    ensures
        ({
            let ticker = series + seq!['-'] + expiry + seq!['-', 'T'] + strike;
            &&& strike_of(ticker) == Some((expiry, n as int))
            &&& prefix_of(ticker) == Some(series + seq!['-'] + expiry)
        }),
{
    let ticker = series + seq!['-'] + expiry + seq!['-', 'T'] + strike;
    let a = series.len() as int;
    let b = a + 1 + expiry.len();
    assert forall|i: int| 0 <= i < a implies ticker[i] != '-' by {
        assert(ticker[i] == series[i]);
        assert(series.contains(series[i]));
    }
    assert forall|i: int| a < i < b implies ticker[i] != '-' by {
        assert(ticker[i] == expiry[i - a - 1]);
        assert(expiry.contains(expiry[i - a - 1]));
    }
    assert forall|i: int| b < i < ticker.len() implies ticker[i] != '-' by {
        if i > b + 1 {
            assert(ticker[i] == strike[i - b - 2]);
            assert(strike.contains(strike[i - b - 2]));
        }
    }
    assert(ticker[a] == '-');
    assert(ticker[b] == '-');
    assert(ticker[b + 1] == 'T');
    lemma_found(ticker, 0, a);
    lemma_found(ticker, a + 1, b);
    lemma_found(ticker, b + 1, ticker.len() as int);
    assert(ticker.subrange(a + 1, b) =~= expiry);
    assert(ticker.subrange(b + 2, ticker.len() as int) =~= strike);
    assert(ticker.take(b) =~= series + seq!['-'] + expiry);
}

/// Every threshold ticker is of that form: a series and an expiry without
/// dashes in them, and behind the letter T a finite number.
pub proof fn law_what_a_threshold_ticker_is(ticker: Seq<char>) -> (r: (Seq<char>, Seq<char>))
    requires
        strike_of(ticker) is Some,
    ensures
        ({
            let (expiry, n) = strike_of(ticker)->Some_0;
            let (series, strike) = r;
            &&& ticker == series + seq!['-'] + expiry + seq!['-', 'T'] + strike
            &&& expiry.len() > 0
            &&& !series.contains('-')
            &&& !expiry.contains('-')
            &&& !strike.contains('-')
            &&& crate::num::number_in(strike) matches Some(Num::Finite(v)) && v == n
        }),
{
    let a = find_from(ticker, '-', 0);
    let b = find_from(ticker, '-', a + 1);
    crate::text::lemma_find_from(ticker, '-', 0);
    crate::text::lemma_find_from(ticker, '-', a + 1);
    crate::text::lemma_find_from(ticker, '-', b + 1);
    let series = ticker.take(a);
    let expiry = ticker.subrange(a + 1, b);
    let strike = ticker.subrange(b + 2, ticker.len() as int);
    if series.contains('-') {
        let i = series.index_of('-');
        assert(ticker[i] == '-');
    }
    if expiry.contains('-') {
        let i = expiry.index_of('-');
        assert(ticker[i + a + 1] == '-');
    }
    if strike.contains('-') {
        let i = strike.index_of('-');
        assert(ticker[i + b + 2] == '-');
    }
    assert(ticker =~= series + seq!['-'] + expiry + seq!['-', 'T'] + strike);
    (series, strike)
}

proof fn lemma_found(s: Seq<char>, from: int, at: int)
    requires
        0 <= from <= at <= s.len(),
        forall|i: int| from <= i < at ==> s[i] != '-',
        at < s.len() ==> s[at] == '-',
    ensures
        find_from(s, '-', from) == at,
    decreases at - from,
{
    if from < at {
        lemma_found(s, from + 1, at);
    }
}

// --- the slope and the shift -------------------------------------------------

/// The slope between two strikes: known where the strikes go up and the price
/// of the upper one is not above that of the lower one. It is the fall of the
/// price over the distance, in trillionths per dollar, and never more than the
/// limit.
pub proof fn law_slope(k_lo: int, m_lo: int, k_hi: int, m_hi: int, limit: int)
    requires
        limit >= 0,
    ensures
        slope_between(k_lo, m_lo, k_hi, m_hi, limit) is Some <==> k_lo < k_hi && m_hi <= m_lo,
        slope_between(k_lo, m_lo, k_hi, m_hi, limit) matches Some(s) ==> {
            let run = k_hi - k_lo;
            let fall = (m_lo - m_hi) * 1_000_000_000_000;
            &&& 0 <= s <= 1000 * limit
            &&& fall <= 1000 * limit * run ==> magnitude(2 * (s * run - fall)) <= run
            &&& fall >= 1000 * limit * run ==> s == 1000 * limit
        },
{
    if k_lo < k_hi && m_hi <= m_lo {
        let run = k_hi - k_lo;
        let fall = (m_lo - m_hi) * 1_000_000_000_000;
        let top = 1000 * limit;
        lemma_near(fall, run);
        lemma_whole(0, run);
        lemma_whole(top, run);
        crate::num::lemma_round_even_monotone(0, fall, run);
        if fall <= top * run {
            crate::num::lemma_round_even_monotone(fall, top * run, run);
        } else {
            crate::num::lemma_round_even_monotone(top * run, fall, run);
        }
        if fall == top * run {
            assert(round_even(fall, run) == top);
        }
        assert(top * run == 1000 * limit * run);
    }
}

proof fn lemma_near(n: int, d: int)
    requires
        d > 0,
    ensures
        magnitude(2 * (round_even(n, d) * d - n)) <= d,
{
    lemma_round_even_near(n, d);
    let r = round_even(n, d);
    assert(r * d == d * r) by (nonlinear_arith);
}

pub proof fn lemma_whole(k: int, d: int)
    requires
        d > 0,
    ensures
        round_even(k * d, d) == k,
{
    vstd::arithmetic::div_mod::lemma_fundamental_div_mod_converse(k * d, d, k, 0);
}

/// The slope at a market is read between the rungs on either side of it; at an
/// end of the ladder its own rung takes the missing place, and a market that is
/// alone or not on the ladder has none.
pub proof fn law_where_a_slope_is_read(
    rungs: Seq<RungView>,
    ticker: Seq<char>,
    i: int,
    limit: int,
    mids: Map<Seq<char>, i64>,
)
    requires
        0 <= i <= rungs.len(),
        i < rungs.len() ==> rungs[i].ticker == ticker,
        forall|j: int| 0 <= j < i ==> (#[trigger] rungs[j]).ticker != ticker,
    ensures
        ({
            let n = rungs.len();
            let between = |l: int, h: int|
                if mids.dom().contains(rungs[l].ticker) && mids.dom().contains(rungs[h].ticker) {
                    slope_between(
                        rungs[l].strike,
                        mids[rungs[l].ticker] as int,
                        rungs[h].strike,
                        mids[rungs[h].ticker] as int,
                        limit,
                    )
                } else {
                    None
                };
            let s = slope_at(rungs, ticker, limit, mids);
            &&& i == n || n == 1 ==> s is None
            &&& 0 < i < n - 1 ==> s == between(i - 1, i + 1)
            &&& n > 1 && i == 0 ==> s == between(0, 1)
            &&& n > 1 && i == n - 1 ==> s == between(n - 2, n - 1)
        }),
{
    lemma_rung(rungs, ticker, 0, i);
}

proof fn lemma_rung(rungs: Seq<RungView>, ticker: Seq<char>, from: int, i: int)
    requires
        0 <= from <= i <= rungs.len(),
        i < rungs.len() ==> rungs[i].ticker == ticker,
        forall|j: int| from <= j < i ==> (#[trigger] rungs[j]).ticker != ticker,
    ensures
        rung_of(rungs, ticker, from) == i,
    decreases i - from,
{
    if from < i {
        lemma_rung(rungs, ticker, from + 1, i);
    }
}

/// The mids that slopes are read from are those of the markets with a valid
/// book, halfway between bid and ask.
pub proof fn law_mids(tickers: Table<TickerState>, k: Seq<char>)
    requires
        tickers.has(k) ==> tickers.at(k).book.wf(),
    ensures
        mids_of(tickers).dom().contains(k) <==> tickers.has(k) && tickers.at(k).book.valid(),
        mids_of(tickers).dom().contains(k) ==> 2 * mids_of(tickers)[k] == (
        tickers.at(k).book.bid() + tickers.at(k).book.ask()) * 1_000_000,
{
    if tickers.has(k) && tickers.at(k).book.valid() {
        crate::market_laws::law_touch(tickers.at(k).book);
    }
}

/// The shift follows the spot price: it is the slope times how far the price is
/// above its average, within the largest shift either way. Without a slope it is
/// nothing while even the largest slope could not move a cent, and unknown from
/// there on.
pub proof fn law_shift(slope: Option<int>, dist: int, spot: SpotParams)
    requires
        spot.fv_shift_max >= 0,
        slope matches Some(d) ==> d >= 0,
    ensures
        ({
            let top = spot.fv_shift_max as int;
            let s = shift_by(slope, dist, spot);
            &&& slope matches Some(d) ==> {
                let exact = d * dist;
                &&& s is Some
                &&& -top <= s->Some_0 <= top
                &&& -top * 1_000_000_000_000 <= exact <= top * 1_000_000_000_000 ==> magnitude(
                    2 * (s->Some_0 * 1_000_000_000_000 - exact),
                ) <= 1_000_000_000_000
                &&& exact >= top * 1_000_000_000_000 ==> s->Some_0 == top
                &&& exact <= -top * 1_000_000_000_000 ==> s->Some_0 == -top
                &&& dist >= 0 ==> s->Some_0 >= 0
                &&& dist <= 0 ==> s->Some_0 <= 0
            }
            &&& slope is None && dist >= 0 ==> (s == Some(0int) <==> spot.delta_max * dist
                < 10_000_000_000_000_000)
            &&& slope is None && dist <= 0 ==> (s == Some(0int) <==> 0 - spot.delta_max * dist
                < 10_000_000_000_000_000)
            &&& slope is None && s != Some(0int) ==> s is None
        }),
{
    let unit = 1_000_000_000_000int;
    let top = spot.fv_shift_max as int;
    match slope {
        Some(d) => {
            let exact = d * dist;
            lemma_near(exact, unit);
            lemma_whole(0, unit);
            lemma_whole(top, unit);
            lemma_whole(-top, unit);
            if dist >= 0 {
                assert(exact >= 0) by (nonlinear_arith)
                    requires
                        d >= 0,
                        dist >= 0,
                        exact == d * dist,
                ;
                crate::num::lemma_round_even_monotone(0, exact, unit);
            }
            if dist <= 0 {
                assert(exact <= 0) by (nonlinear_arith)
                    requires
                        d >= 0,
                        dist <= 0,
                        exact == d * dist,
                ;
                crate::num::lemma_round_even_monotone(exact, 0, unit);
            }
            if exact >= top * unit {
                crate::num::lemma_round_even_monotone(top * unit, exact, unit);
            } else {
                crate::num::lemma_round_even_monotone(exact, top * unit, unit);
            }
            if exact <= -top * unit {
                crate::num::lemma_round_even_monotone(exact, -top * unit, unit);
            } else {
                crate::num::lemma_round_even_monotone(-top * unit, exact, unit);
            }
        },
        None => {
            let m = spot.delta_max as int;
            assert(m * (0 - dist) == 0 - m * dist) by (nonlinear_arith);
        },
    }
}

/// Where a market of a category with a spot feed shifts: by the distance of the
/// newest price from the average. A category without a feed does not shift.
pub proof fn law_what_shifts(t: Trader, ticker: Seq<char>, category: Seq<char>)
    ensures
        !t.spot_bound.has(category) ==> t.shift(ticker, category) == Some(0int),
        t.spot_bound.has(category) && t.spot.ticks().len() == 0 ==> t.shift(ticker, category)
            is None,
        t.spot_bound.has(category) && t.spot.ticks().len() > 0 ==> t.shift(ticker, category)
            == shift_by(
            t.slope(ticker),
            t.spot.ticks()[t.spot.ticks().len() - 1].1 - t.spot.average()->Some_0,
            t.cfg.spot,
        ),
{
}

// --- spot ticks --------------------------------------------------------------

/// A tick is dropped where it is no price, or where it is more than a fiftieth
/// away from a tick less than ten seconds before it.
pub proof fn law_outliers(ticks: Seq<(i64, i64)>, price: int, now: int)
    ensures
        price <= 0 ==> is_outlier(ticks, price, now),
        price > 0 && ticks.len() == 0 ==> !is_outlier(ticks, price, now),
        price > 0 && ticks.len() > 0 ==> {
            let (at, last) = ticks[ticks.len() - 1];
            &&& now - at >= 10_000_000 ==> !is_outlier(ticks, price, now)
            &&& now - at < 10_000_000 ==> (is_outlier(ticks, price, now) <==> 50 * price > 51 * last
                || 50 * price < 49 * last)
        },
{
}

/// The average moves toward the new price by the weight: none of the way at
/// zero, all of it at one, and never past it.
pub proof fn law_average(ema: int, price: int, alpha: int)
    requires
        0 <= alpha <= 1_000_000_000,
    ensures
        ({
            let after = averaged(ema, price, alpha);
            &&& magnitude(2 * ((after - ema) * 1_000_000_000 - alpha * (price - ema)))
                <= 1_000_000_000
            &&& alpha == 0 ==> after == ema
            &&& alpha == 1_000_000_000 ==> after == price
            &&& ema <= price ==> ema <= after <= price
            &&& price <= ema ==> price <= after <= ema
        }),
{
    let d = 1_000_000_000int;
    let gap = price - ema;
    let n = alpha * gap;
    lemma_near(n, d);
    lemma_whole(0, d);
    lemma_whole(gap, d);
    if alpha == 0 {
        assert(n == 0) by (nonlinear_arith)
            requires
                n == alpha * gap,
                alpha == 0,
        ;
    }
    if alpha == d {
        assert(n == gap * d) by (nonlinear_arith)
            requires
                n == alpha * gap,
                alpha == d,
        ;
    }
    if gap >= 0 {
        assert(0 <= n <= gap * d) by (nonlinear_arith)
            requires
                n == alpha * gap,
                0 <= alpha <= d,
                gap >= 0,
        ;
        crate::num::lemma_round_even_monotone(0, n, d);
        crate::num::lemma_round_even_monotone(n, gap * d, d);
    }
    if gap <= 0 {
        assert(gap * d <= n <= 0) by (nonlinear_arith)
            requires
                n == alpha * gap,
                0 <= alpha <= d,
                gap <= 0,
        ;
        crate::num::lemma_round_even_monotone(n, 0, d);
        crate::num::lemma_round_even_monotone(gap * d, n, d);
    }
}

/// Ticks are kept for two minutes: those that go are at the front and older.
pub proof fn law_ticks_kept(ticks: Seq<(i64, i64)>, now: int)
    ensures
        ({
            let kept = retained(ticks, now);
            let k = ticks.len() - kept.len();
            &&& 0 <= k <= ticks.len()
            &&& kept == ticks.skip(k as int)
            &&& forall|i: int| 0 <= i < k ==> now - (#[trigger] ticks[i]).0 > 120_000_000
            &&& kept.len() > 0 ==> now - kept[0].0 <= 120_000_000
        }),
    decreases ticks.len(),
{
    if ticks.len() > 0 && now - ticks[0].0 > 120_000_000 {
        let rest = ticks.drop_first();
        law_ticks_kept(rest, now);
        let k = rest.len() - retained(rest, now).len();
        assert(rest.skip(k) =~= ticks.skip(k + 1));
        assert forall|i: int| 0 <= i < k + 1 implies now - (#[trigger] ticks[i]).0
            > 120_000_000 by {
            if i > 0 {
                assert(rest[i - 1] == ticks[i]);
            }
        }
    } else {
        assert(ticks.skip(0) =~= ticks);
    }
}

/// The tick that just came is the newest one kept.
pub proof fn law_a_tick_is_kept(ticks: Seq<(i64, i64)>, price: i64, now: i64)
    ensures
        ({
            let after = retained(ticks.push((now, price)), now as int);
            &&& 1 <= after.len() <= ticks.len() + 1
            &&& after[after.len() - 1] == (now, price)
        }),
{
    let longer = ticks.push((now, price));
    law_ticks_kept(longer, now as int);
    let after = retained(longer, now as int);
    let k = longer.len() - after.len();
    if k == longer.len() {
        assert(now - longer[ticks.len() as int].0 > 120_000_000);
    }
    assert(after[after.len() - 1] == longer[longer.len() - 1]);
}

/// The return over a window: how far the newest price is above the newest one
/// that is at least that old, here the one at `i`, as a share of it. With no
/// tick that old there is none.
pub proof fn law_return(ticks: Seq<(i64, i64)>, window: int, now: int, i: int)
    requires
        -1 <= i < ticks.len(),
        i >= 0 ==> now - ticks[i].0 >= window && ticks[i].1 > 0,
        forall|j: int| i < j < ticks.len() ==> now - (#[trigger] ticks[j]).0 < window,
    ensures
        return_over(ticks, window, now) is Some <==> i >= 0,
        i >= 0 ==> {
            let r = return_over(ticks, window, now)->Some_0;
            let base = ticks[i].1 as int;
            let last = ticks[ticks.len() - 1].1 as int;
            &&& magnitude(2 * (r * base - (last - base) * 1_000_000_000)) <= base
            &&& last >= base ==> r >= 0
            &&& last <= base ==> r <= 0
        },
{
    lemma_base(ticks, window, now, i, ticks.len() as int);
    if i >= 0 {
        let base = ticks[i].1 as int;
        let last = ticks[ticks.len() - 1].1 as int;
        let n = (last - base) * 1_000_000_000;
        lemma_near(n, base);
        lemma_whole(0, base);
        if last >= base {
            crate::num::lemma_round_even_monotone(0, n, base);
        }
        if last <= base {
            crate::num::lemma_round_even_monotone(n, 0, base);
        }
    }
}

proof fn lemma_base(ticks: Seq<(i64, i64)>, window: int, now: int, i: int, n: int)
    requires
        -1 <= i < n <= ticks.len() || (i == -1 && n == 0),
        i >= 0 ==> now - ticks[i].0 >= window,
        forall|j: int| i < j < n ==> now - (#[trigger] ticks[j]).0 < window,
    ensures
        base_tick(ticks, window, now, n) == if i >= 0 {
            Some(i)
        } else {
            None
        },
    decreases n,
{
    if n > 0 && i < n - 1 {
        assert(now - ticks[n - 1].0 < window);
        lemma_base(ticks, window, now, i, n - 1);
    }
}

/// A feed is stale before its first tick, and once the newest is older than
/// allowed.
pub proof fn law_stale(ticks: Seq<(i64, i64)>, now: int, age: int)
    ensures
        ticks.len() == 0 ==> stale(ticks, now, age),
        ticks.len() > 0 ==> (stale(ticks, now, age) <==> now > ticks[ticks.len() - 1].0 + age),
{
}

/// The trend barrier closes above its threshold, and a closed one opens below
/// its release share of it.
pub proof fn law_trend_barrier(ret: int, trip: int, release: int)
    ensures
        gate_closed(ret, false, trip, release) <==> ret > trip,
        gate_closed(ret, true, trip, release) <==> ret * 1_000_000_000 >= trip * release,
        trip >= 0 && 0 <= release <= 1_000_000_000 && gate_closed(ret, false, trip, release)
            ==> gate_closed(ret, true, trip, release),
{
    if trip >= 0 && 0 <= release <= 1_000_000_000 && ret > trip {
        assert(ret * 1_000_000_000 >= trip * release) by (nonlinear_arith)
            requires
                0 <= trip < ret,
                0 <= release <= 1_000_000_000,
        ;
    }
}

/// Markets that follow the spot price are quoted only with a fresh feed that
/// reaches back a minute and a price that moves slowly, up or down.
pub proof fn law_spot_defence(ticks: Seq<(i64, i64)>, spot: SpotParams, on: bool, now: int)
    ensures
        !is_gated(ticks, spot, on, now) ==> {
            let r = return_over(ticks, 60_000_000, now);
            &&& ticks.len() > 0
            &&& now - ticks[ticks.len() - 1].0 <= spot.stale_max_s
            &&& r is Some
            &&& !on ==> -spot.gate_ret_60s <= r->Some_0 <= spot.gate_ret_60s
            &&& on ==> r->Some_0 * 1_000_000_000 < spot.gate_ret_60s * spot.gate_release_ratio && (0
                - r->Some_0) * 1_000_000_000 < spot.gate_ret_60s * spot.gate_release_ratio
        },
        ticks.len() > 0 && now - ticks[ticks.len() - 1].0 <= spot.stale_max_s && !on && (return_over(
            ticks,
            60_000_000,
            now,
        ) matches Some(r) && -spot.gate_ret_60s <= r <= spot.gate_ret_60s) ==> !is_gated(
            ticks,
            spot,
            on,
            now,
        ),
        ticks.len() > 0 && now - ticks[ticks.len() - 1].0 <= spot.stale_max_s && on && (return_over(
            ticks,
            60_000_000,
            now,
        ) matches Some(r) && r * 1_000_000_000 < spot.gate_ret_60s * spot.gate_release_ratio && (0
            - r) * 1_000_000_000 < spot.gate_ret_60s * spot.gate_release_ratio) ==> !is_gated(
            ticks,
            spot,
            on,
            now,
        ),
{
}

// --- limits ------------------------------------------------------------------

/// The account's limits: a day's loss or a total at its limit halts all
/// trading, capital at its limit only holds new quotes back, and below all three
/// quotes may be sent.
pub proof fn law_limits(state: TraderState, live: LiveConfig, active: Option<&Table<()>>)
    requires
        state.tickers.wf(),
        forall|i: int|
            0 <= i < state.tickers.values().len() ==> ((
            #[trigger] state.tickers.values()[i]).entry_price matches Some(e) ==> e >= 0),
        crate::account_laws::capital_from(
            state.tickers.keys(),
            state.tickers.values(),
            active,
            0,
            state.tickers.keys().len() as int,
        ) <= i128::MAX,
    ensures
        ({
            let capital = crate::account_laws::capital_from(
                state.tickers.keys(),
                state.tickers.values(),
                active,
                0,
                state.tickers.keys().len() as int,
            );
            let (open, halt) = risk_of(state, live, active);
            let day = state.daily_pnl + live.max_daily_loss <= 0;
            let total = state.cumulative_pnl <= live.stop_loss_threshold;
            &&& halt is Some <==> day || total
            &&& day ==> halt->Some_0@ == "Daily loss limit"@
            &&& !day && total ==> halt->Some_0@ == "Stop loss"@
            &&& open <==> !day && !total && capital < live.max_position_value
        }),
{
    crate::account_laws::law_capital_adds_up(
        state.tickers.keys(),
        state.tickers.values(),
        active,
        state.tickers.keys().len() as int,
    );
}

/// A policy is asked exactly when every barrier is open: the book is valid, a
/// second has passed since quotes were last considered, the category is not
/// halted, the account is within its limits, the spot defence is quiet where the
/// category follows a feed, and the shift is known.
pub proof fn law_when_a_policy_is_asked(t: Trader, ticker: Seq<char>, category: Seq<char>, now: int)
    ensures
        ({
            let ts = t.state.tickers.at(ticker);
            let (open, halt) = risk_of(t.state, t.cfg.live, Some(&t.active_set));
            let quiet = !t.spot_bound.has(category) || !is_gated(
                t.spot.ticks(),
                t.cfg.spot,
                t.spot_gate_on,
                now,
            );
            let ready = ts.book.valid() && now >= ts.last_quote_time + 1_000_000
                && !t.state.halted_categories.has(category);
            let step = gate_of(t, ticker, category, now);
            &&& step is Ask <==> ready && halt is None && open && quiet && t.shift(ticker, category)
                is Some
            &&& step matches Gate::Ask(s) ==> t.shift(ticker, category) == Some(s)
            &&& step is Halt <==> ready && halt is Some
            &&& step matches Gate::Halt(reason) ==> halt == Some(reason)
        }),
{
}

/// A category's inventory cap is that of the last entry under its name, here the
/// one at `i`, and five where there is none.
pub proof fn law_inventory_cap(categories: Seq<CategoryConfig>, name: Seq<char>, i: int)
    requires
        -1 <= i < categories.len(),
        i >= 0 ==> categories[i].name@ == name,
        forall|j: int| i < j < categories.len() ==> (#[trigger] categories[j]).name@ != name,
    ensures
        i >= 0 ==> inventory_cap(categories, name) == categories[i].max_inventory,
        i < 0 ==> inventory_cap(categories, name) == 5,
    decreases categories.len(),
{
    let n = categories.len() - 1;
    if n >= 0 && i < n {
        assert(categories[n].name@ != name);
        let rest = categories.drop_last();
        assert forall|j: int| i < j < rest.len() implies (#[trigger] rest[j]).name@ != name by {
            assert(categories[j].name@ != name);
        }
        law_inventory_cap(rest, name, i);
    }
}

} // verus!
