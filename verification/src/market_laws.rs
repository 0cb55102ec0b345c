//! What the book, the samples and the observation are for, said of their inputs
//! and results.

use vstd::prelude::*;

use crate::book::{
    adjusted, ask_rows, bid_rows, captured, fee_of, flow_feature, fresh, level_map, md_of, micros, passive_ask, passive_bid, resting,
    round_trip_cost, row_level, rows_levels, sampled, stale_count, volume, volume_feature, Book, TakerSide,
    TradePrint,
};
use crate::config::MmParams;
use crate::features::{
    depth_total, features_of, is_root, is_wide, scaled_variance, too_volatile, vol_count, vol_of, vol_window,
};
use crate::json::JsonView;
use crate::num::{lemma_round_even_near, magnitude, round_even, Num};
use crate::state::TickerState;

verus! {

// --- the book ----------------------------------------------------------------

/// The touch of a book. It is valid exactly when both sides have a level and no
/// YES bid and NO bid add up to a dollar; its bid is then the highest YES bid,
/// its ask a dollar less the highest NO bid, and its midpoint halfway between.
pub proof fn law_touch(book: Book)
    requires
        book.wf(),
    ensures
        ({
            let yes = level_map(book.yes());
            let no = level_map(book.no());
            &&& book.valid() <==> (exists|p: u32| #[trigger] yes.dom().contains(p)) && (exists|q: u32|
                #[trigger] no.dom().contains(q)) && forall|p: u32, q: u32|
                #[trigger] yes.dom().contains(p) && #[trigger] no.dom().contains(q) ==> p + q < 1000
            &&& book.valid() ==> {
                &&& yes.dom().contains(book.bid())
                &&& no.dom().contains((1000 - book.ask()) as u32)
                &&& 0 < book.ask() <= 1000
                &&& forall|p: u32| #[trigger] yes.dom().contains(p) ==> p <= book.bid()
                &&& forall|q: u32| #[trigger] no.dom().contains(q) ==> q + book.ask() <= 1000
                &&& 2 * book.middle() == (book.bid() + book.ask()) * 1_000_000
            }
        }),
{
    crate::book::law_highest_is_the_maximum(book.yes());
    crate::book::law_highest_is_the_maximum(book.no());
    let yes = level_map(book.yes());
    let no = level_map(book.no());
    if book.yes().len() > 0 && book.no().len() > 0 {
        let p = book.yes().last().0;
        let q = book.no().last().0;
        assert(yes.dom().contains(p));
        assert(no.dom().contains(q));
        assert(book.valid() <==> p + q < 1000);
    }
}

/// The best levels come first: bids at the highest YES prices, and asks at a
/// dollar less the highest NO prices, each with the contracts of its level.
pub proof fn law_top_levels(rows: Seq<(u32, i64)>, n: nat, i: int)
    requires
        0 <= i < n,
        i < rows.len(),
        rows[rows.len() - 1 - i].0 <= 1000,
    ensures
        ({
            let level = rows[rows.len() - 1 - i];
            &&& i < bid_rows(rows, n).len()
            &&& bid_rows(rows, n)[i].0 == 1_000_000 * level.0
            &&& bid_rows(rows, n)[i].1 == level.1
            &&& i < ask_rows(rows, n).len()
            &&& ask_rows(rows, n)[i].0 + 1_000_000 * level.0 == 1_000_000_000
            &&& ask_rows(rows, n)[i].1 == level.1
            &&& bid_rows(rows, n).len() <= n
            &&& ask_rows(rows, n).len() <= n
        }),
{
}

/// A price in dollars is kept under the nearest tenth of a cent, the upper one
/// of two; one below zero under zero.
pub proof fn law_price_key(v: i128)
    requires
        v <= 4_000_000_000_000_000,
    ensures
        ({
            let key = md_of(Num::Finite(v));
            &&& v <= 0 ==> key == 0
            &&& v > 0 ==> -1_000_000 <= 2 * (v - key * 1_000_000) < 1_000_000
        }),
{
    let n = v as int;
    if n > 0 {
        let q = (2 * n + 1_000_000) / 2_000_000;
        assert(2_000_000 * q <= 2 * n + 1_000_000 < 2_000_000 * q + 2_000_000);
        assert(crate::num::round_away(n, 1_000_000) == q);
    } else {
        let q = (1_000_000 - 2 * n) / 2_000_000;
        assert(q >= 0);
        assert(crate::num::round_away(n, 1_000_000) <= 0);
    }
}

/// A row `[price, quantity]` states its quantity at its price, and nothing
/// where the quantity is not positive.
pub proof fn law_row(row: JsonView, price: Num, qty: i128)
    requires
        row.items() is Some,
        row.items()->Some_0.len() >= 2,
        row.items()->Some_0[0].number() == Some(price),
        row.items()->Some_0[1].number() == Some(Num::Finite(qty)),
        qty <= i64::MAX,
    ensures
        qty > 0 ==> row_level(row) == Some((md_of(price) as u32, qty as i64)),
        qty <= 0 ==> row_level(row) is None,
{
}

/// A row states a level at a price.
pub open spec fn states_at(row: JsonView, price: u32) -> bool {
    row_level(row) is Some && row_level(row)->Some_0.0 == price
}

/// Rows make up a side: a price has a level exactly where a row states one, and
/// its contracts are those of the last such row, here the one at `i`.
pub proof fn law_rows(rows: Seq<JsonView>, price: u32, i: int)
    requires
        -1 <= i < rows.len(),
        i >= 0 ==> states_at(rows[i], price),
        forall|j: int| i < j < rows.len() ==> !#[trigger] states_at(rows[j], price),
    ensures
        rows_levels(rows).dom().contains(price) <==> i >= 0,
        i >= 0 ==> rows_levels(rows)[price] == row_level(rows[i])->Some_0.1,
    decreases rows.len(),
{
    let n = rows.len() - 1;
    if n >= 0 {
        assert(rows.last() == rows[n]);
        if i < n {
            let rest = rows.drop_last();
            assert forall|j: int| i < j < rest.len() implies !#[trigger] states_at(
                rest[j],
                price,
            ) by {
                assert(!states_at(rows[j], price));
            }
            assert(!states_at(rows[n], price));
            law_rows(rest, price, i);
        }
    }
}

/// A change adds to the contracts at its price, and a level that has none left
/// goes. A price without a level has no contracts.
pub proof fn law_change_adds(levels: Map<u32, i64>, price: u32, change: i128)
    requires
        i64::MIN <= change <= i64::MAX,
        0 <= resting(levels, price),
        resting(levels, price) + change <= i64::MAX,
    ensures
        ({
            let sum = resting(levels, price) + change;
            let after = adjusted(levels, price, Num::Finite(change));
            &&& sum > 0 ==> after.dom().contains(price) && after[price] == sum
            &&& sum <= 0 ==> !after.dom().contains(price)
            &&& levels.dom().contains(price) ==> resting(levels, price) == levels[price]
            &&& !levels.dom().contains(price) ==> resting(levels, price) == 0
        }),
{
}

// --- fees and passive prices -------------------------------------------------

/// A fee is a whole number of cents that covers rate times contracts times price
/// times its complement, and less than a cent more; it is the same on both sides
/// of a price.
pub proof fn law_fee(rate: int, contracts: int, price: int)
    requires
        rate >= 0,
        contracts >= 0,
        0 <= price <= 1_000_000_000,
        rate * contracts * price * (1_000_000_000 - price)
            <= 9_000_000_000_000_000_000_000_000_000_000_000_000,
    ensures
        ({
            let fee = fee_of(rate, contracts, price);
            let exact = rate * contracts * price * (1_000_000_000 - price);
            &&& fee % 10_000_000 == 0
            &&& fee * 1_000_000_000_000_000_000 >= exact
            &&& (fee - 10_000_000) * 1_000_000_000_000_000_000 < exact
            &&& fee == fee_of(rate, contracts, 1_000_000_000 - price)
        }),
{
    crate::book::law_fee_rounds_up(rate, contracts, price);
    let v = rate * contracts;
    let rest = 1_000_000_000 - price;
    assert(v * price * rest == v * rest * price) by (nonlinear_arith);
}

/// The passive bid is the one asked for, or one step under the market's ask
/// where that is lower, to the nearest ten-thousandth; the ask likewise.
pub proof fn law_passive_prices(bid: int, ask: int, best_bid: int, best_ask: int, tick: int)
    requires
        -0x4000_0000_0000_0000 <= tick <= 0x4000_0000_0000_0000,
        0 <= bid <= 1_000_000_000,
        0 <= ask <= 1_000_000_000,
        0 <= best_bid <= 4_300_000_000_000_000,
        0 <= best_ask <= 4_300_000_000_000_000,
    ensures
        ({
            let b = passive_bid(bid, best_ask, tick);
            let a = passive_ask(ask, best_bid, tick);
            &&& b % 100_000 == 0 && a % 100_000 == 0
            &&& bid + tick <= best_ask ==> magnitude(2 * (b - bid)) <= 100_000
            &&& bid + tick > best_ask ==> magnitude(2 * (b + tick - best_ask)) <= 100_000
            &&& ask - tick >= best_bid ==> magnitude(2 * (a - ask)) <= 100_000
            &&& ask - tick < best_bid ==> magnitude(2 * (a - tick - best_bid)) <= 100_000
        }),
{
}

/// The edge test passes only where the spread on all contracts beats both fees
/// and the least edge, and passes where it beats them by a millionth of a
/// dollar.
pub proof fn law_edge(bid: int, ask: int, rate: int, size: int, edge: int)
    ensures
        ({
            let passes = micros(captured(bid, ask, size)) > micros(
                round_trip_cost(bid, ask, rate, size, edge),
            );
            let cost = fee_of(rate, size, bid) + fee_of(rate, size, ask) + edge * size;
            &&& passes ==> ask * size - bid * size > cost
            &&& ask * size - bid * size >= cost + 1000 ==> passes
        }),
{
    assert((ask - bid) * size == ask * size - bid * size) by (nonlinear_arith);
    let c = captured(bid, ask, size);
    let k = round_trip_cost(bid, ask, rate, size, edge);
    if c <= k {
        crate::book::lemma_round_away_monotone(c, k, 1000);
    }
    if c >= k + 1000 {
        crate::book::lemma_round_away_monotone(k + 1000, c, 1000);
    }
}

// --- samples and prints ------------------------------------------------------

/// The mid history: a minute after the last sample a new entry comes behind the
/// others, of which the last nineteen stay, and before that the newest entry
/// takes the new price.
pub proof fn law_sampling(hist: Seq<i64>, last: int, now: int, mid: i64)
    ensures
        ({
            let after = sampled(hist, last, now, mid);
            let n = after.len() as int;
            &&& n > 0 && after[n - 1] == mid
            &&& hist.len() == 0 || now - last >= 60_000_000 ==> {
                &&& n == if hist.len() < 20 {
                    hist.len() + 1
                } else {
                    20
                }
                &&& forall|i: int|
                    1 <= i < n ==> #[trigger] after[n - 1 - i] == hist[hist.len() - i]
            }
            &&& hist.len() > 0 && now - last < 60_000_000 ==> {
                &&& n == hist.len()
                &&& forall|i: int| 0 <= i < n - 1 ==> #[trigger] after[i] == hist[i]
            }
        }),
{
}

/// Pruning drops the prints at the front that are more than a minute old, and
/// no other.
pub proof fn law_pruning(trades: Seq<TradePrint>, now: int)
    ensures
        ({
            let kept = fresh(trades, now);
            let k = trades.len() - kept.len();
            &&& 0 <= k <= trades.len()
            &&& kept == trades.skip(k as int)
            &&& forall|i: int| 0 <= i < k ==> now - (#[trigger] trades[i]).0 > 60_000_000
            &&& kept.len() > 0 ==> now - kept[0].0 <= 60_000_000
        }),
    decreases trades.len(),
{
    if trades.len() > 0 && trades[0].0 < now - 60_000_000 {
        let rest = trades.drop_first();
        law_pruning(rest, now);
        let k = stale_count(rest, now) as int;
        lemma_stale_at_most(rest, now);
        assert(rest.skip(k) =~= trades.skip(k + 1));
        assert forall|i: int| 0 <= i < k + 1 implies now - (#[trigger] trades[i]).0
            > 60_000_000 by {
            if i > 0 {
                assert(rest[i - 1] == trades[i]);
            }
        }
    } else {
        assert(trades.skip(0) =~= trades);
    }
}

proof fn lemma_stale_at_most(trades: Seq<TradePrint>, now: int)
    ensures
        stale_count(trades, now) <= trades.len(),
    decreases trades.len(),
{
    if trades.len() > 0 {
        lemma_stale_at_most(trades.drop_first(), now);
    }
}

/// The contracts of the prints whose taker was on a side, counted from the
/// front.
pub open spec fn taken(trades: Seq<TradePrint>, side: TakerSide) -> int
    decreases trades.len(),
{
    if trades.len() == 0 {
        0
    } else {
        (if trades[0].2 == side {
            trades[0].1 as int
        } else {
            0
        }) + taken(trades.drop_first(), side)
    }
}

proof fn lemma_taken(trades: Seq<TradePrint>, side: TakerSide)
    ensures
        taken(trades, side) == volume(trades, side),
    decreases trades.len(),
{
    if trades.len() > 0 {
        let rest = trades.drop_first();
        lemma_taken(rest, side);
        lemma_volume_by_front(trades, side);
    }
}

proof fn lemma_volume_by_front(trades: Seq<TradePrint>, side: TakerSide)
    requires
        trades.len() > 0,
    ensures
        volume(trades, side) == volume(trades.drop_first(), side) + (if trades[0].2 == side {
            trades[0].1 as int
        } else {
            0
        }),
    decreases trades.len(),
{
    if trades.len() > 1 {
        let rest = trades.drop_last();
        lemma_volume_by_front(rest, side);
        assert(trades.drop_first().drop_last() =~= rest.drop_first());
        assert(trades.drop_first().last() == trades.last());
    } else {
        assert(trades.drop_first() =~= Seq::empty());
        assert(trades.drop_last() =~= Seq::empty());
        assert(volume(trades.drop_first(), side) == 0);
        assert(volume(trades.drop_last(), side) == 0);
    }
}

proof fn lemma_taken_nonnegative(trades: Seq<TradePrint>, side: TakerSide)
    requires
        forall|i: int| 0 <= i < trades.len() ==> (#[trigger] trades[i]).1 >= 0,
    ensures
        taken(trades, side) >= 0,
    decreases trades.len(),
{
    if trades.len() > 0 {
        let rest = trades.drop_first();
        assert forall|i: int| 0 <= i < rest.len() implies (#[trigger] rest[i]).1 >= 0 by {
            assert(trades[i + 1].1 >= 0);
        }
        lemma_taken_nonnegative(rest, side);
    }
}

/// The prints' features: the number of prints over fifty, at most one; and the
/// contracts that takers bought as NO less those they bought as YES, over all
/// of them. So the flow is one where all takers were on the NO side, minus one
/// where all were on the YES side, and has the sign of the difference.
pub proof fn law_flow(trades: Seq<TradePrint>)
    requires
        forall|i: int| 0 <= i < trades.len() ==> (#[trigger] trades[i]).1 >= 0,
        taken(trades, TakerSide::No) <= i64::MAX,
        taken(trades, TakerSide::Yes) <= i64::MAX,
    ensures
        ({
            let no = taken(trades, TakerSide::No);
            let yes = taken(trades, TakerSide::Yes);
            let flow = flow_feature(trades);
            &&& no >= 0 && yes >= 0
            &&& no + yes == 0 ==> flow == 0
            &&& no + yes > 0 ==> magnitude(2 * (flow * (no + yes) - (no - yes) * 1_000_000_000)) <= no
                + yes
            &&& no > 0 && yes == 0 ==> flow == 1_000_000_000
            &&& yes > 0 && no == 0 ==> flow == -1_000_000_000
            &&& no > yes ==> flow >= 0
            &&& no < yes ==> flow <= 0
            &&& no == yes ==> flow == 0
            &&& trades.len() < 50 ==> 50 * volume_feature(trades) == trades.len() * 1_000_000_000
            &&& trades.len() >= 50 ==> volume_feature(trades) == 1_000_000_000
        }),
{
    lemma_taken(trades, TakerSide::No);
    lemma_taken(trades, TakerSide::Yes);
    lemma_taken_nonnegative(trades, TakerSide::No);
    lemma_taken_nonnegative(trades, TakerSide::Yes);
    let no = taken(trades, TakerSide::No);
    let yes = taken(trades, TakerSide::Yes);
    let total = no + yes;
    crate::book::law_flow_is_a_share(trades);
    if total > 0 {
        let n = (no - yes) * 1_000_000_000;
        lemma_quotient(n, total);
        if yes == 0 {
            lemma_exact_quotient(1_000_000_000, total);
        }
        if no == 0 {
            lemma_exact_quotient(-1_000_000_000, total);
        }
        if no == yes {
            lemma_exact_quotient(0, total);
        }
        if no > yes {
            crate::num::lemma_round_even_monotone(0, n, total);
            lemma_exact_quotient(0, total);
        }
        if no < yes {
            crate::num::lemma_round_even_monotone(n, 0, total);
            lemma_exact_quotient(0, total);
        }
    }
}

/// A rounded quotient times its divisor is near the number.
proof fn lemma_quotient(n: int, d: int)
    requires
        d > 0,
    ensures
        magnitude(2 * (round_even(n, d) * d - n)) <= d,
{
    lemma_round_even_near(n, d);
    let r = round_even(n, d);
    assert(r * d == d * r) by (nonlinear_arith);
}

proof fn lemma_exact_quotient(k: int, d: int)
    requires
        d > 0,
    ensures
        round_even(k * d, d) == k,
{
    vstd::arithmetic::div_mod::lemma_fundamental_div_mod_converse(k * d, d, k, 0);
}

// --- the observation ---------------------------------------------------------

/// The prices and depths of an observation: the midpoint and the spread within
/// their bounds, and the contracts of the three best levels on either side per
/// hundred, at most one, with a stand-in for a level that is missing.
pub proof fn law_observed_book(
    ts: TickerState,
    hist: Seq<i64>,
    trades: Seq<TradePrint>,
    mm: MmParams,
    now: int,
)
    requires
        ts.book.wf(),
        ts.book.valid(),
    ensures
        ({
            let f = features_of(ts, hist, trades, mm, now);
            let twice_mid = (ts.book.bid() + ts.book.ask()) * 1_000_000;
            let spread = (ts.book.ask() - ts.book.bid()) * 1_000_000;
            &&& 20_000_000 <= twice_mid <= 1_980_000_000 ==> 2 * f[0] == twice_mid
            &&& twice_mid < 20_000_000 ==> f[0] == 10_000_000
            &&& twice_mid > 1_980_000_000 ==> f[0] == 990_000_000
            &&& 10_000_000 <= spread <= 500_000_000 ==> f[1] == spread
            &&& spread < 10_000_000 ==> f[1] == 10_000_000
            &&& spread > 500_000_000 ==> f[1] == 500_000_000
            &&& shows_depth(f[2], ts.book.yes(), 0, 100_000_000)
            &&& shows_depth(f[3], ts.book.no(), 0, 100_000_000)
            &&& shows_depth(f[4], ts.book.yes(), 1, 50_000_000)
            &&& shows_depth(f[5], ts.book.no(), 1, 50_000_000)
            &&& shows_depth(f[6], ts.book.yes(), 2, 20_000_000)
            &&& shows_depth(f[7], ts.book.no(), 2, 20_000_000)
        }),
{
    lemma_depth_shown(ts.book.yes(), true, 0, 100_000_000);
    lemma_depth_shown(ts.book.no(), false, 0, 100_000_000);
    lemma_depth_shown(ts.book.yes(), true, 1, 50_000_000);
    lemma_depth_shown(ts.book.no(), false, 1, 50_000_000);
    lemma_depth_shown(ts.book.yes(), true, 2, 20_000_000);
    lemma_depth_shown(ts.book.no(), false, 2, 20_000_000);
}

/// A feature shows the contracts of a level, counted from the best one.
pub open spec fn shows_depth(f: int, rows: Seq<(u32, i64)>, i: int, missing: int) -> bool {
    if i >= rows.len() {
        f == missing
    } else {
        let q = rows[rows.len() - 1 - i].1 as int;
        &&& q >= 100_000_000_000 ==> f == 1_000_000_000
        &&& 0 <= q < 100_000_000_000 ==> magnitude(2 * (100 * f - q)) <= 100
    }
}

proof fn lemma_depth_shown(rows: Seq<(u32, i64)>, bids: bool, i: int, missing: int)
    requires
        0 <= i < 3,
        crate::book::ladder(rows),
    ensures
        shows_depth(
            crate::features::depth_feature(
                if bids {
                    crate::book::bid_rows(rows, 3)
                } else {
                    crate::book::ask_rows(rows, 3)
                },
                i,
                missing,
            ),
            rows,
            i,
            missing,
        ),
{
    if i < rows.len() {
        let q = rows[rows.len() - 1 - i].1 as int;
        lemma_round_even_near(q, 100);
        let top = if bids {
            crate::book::bid_rows(rows, 3)
        } else {
            crate::book::ask_rows(rows, 3)
        };
        assert(top[i].1 == q);
    }
}

/// The contracts of the best three levels.
pub open spec fn best_three(rows: Seq<(u32, i64)>) -> int {
    let n = rows.len() as int;
    (if n >= 1 {
        rows[n - 1].1 as int
    } else {
        0
    }) + (if n >= 2 {
        rows[n - 2].1 as int
    } else {
        0
    }) + (if n >= 3 {
        rows[n - 3].1 as int
    } else {
        0
    })
}

proof fn lemma_best_three(rows: Seq<(u32, i64)>, bids: bool)
    requires
        crate::book::ladder(rows),
    ensures
        depth_total(
            if bids {
                crate::book::bid_rows(rows, 3)
            } else {
                crate::book::ask_rows(rows, 3)
            },
        ) == best_three(rows),
        best_three(rows) >= 0,
{
    let top = if bids {
        crate::book::bid_rows(rows, 3)
    } else {
        crate::book::ask_rows(rows, 3)
    };
    let n = rows.len() as int;
    reveal_with_fuel(depth_total, 4);
    assert(n >= 1 ==> rows[n - 1].1 > 0);
    assert(n >= 2 ==> rows[n - 2].1 > 0);
    assert(n >= 3 ==> rows[n - 3].1 > 0);
    if top.len() >= 1 {
        assert(top[0].1 == rows[n - 1].1);
        assert(top.last() == top[top.len() - 1]);
    }
    if top.len() >= 2 {
        assert(top[1].1 == rows[n - 2].1);
        assert(top.drop_last().last() == top[top.len() - 2]);
    }
    if top.len() >= 3 {
        assert(top[2].1 == rows[n - 3].1);
        assert(top.drop_last().drop_last().last() == top[0]);
    }
}

/// The imbalance is the contracts of the best three bids less those of the best
/// three asks, over all of them: positive where bids outweigh asks. The volume
/// and the flow are those of the prints.
pub proof fn law_observed_pressure(
    ts: TickerState,
    hist: Seq<i64>,
    trades: Seq<TradePrint>,
    mm: MmParams,
    now: int,
)
    requires
        ts.book.wf(),
        forall|i: int| 0 <= i < trades.len() ==> (#[trigger] trades[i]).1 >= 0,
        taken(trades, TakerSide::No) <= i64::MAX,
        taken(trades, TakerSide::Yes) <= i64::MAX,
    ensures
        ({
            let f = features_of(ts, hist, trades, mm, now);
            let bids = best_three(ts.book.yes());
            let asks = best_three(ts.book.no());
            let no = taken(trades, TakerSide::No);
            let yes = taken(trades, TakerSide::Yes);
            &&& magnitude(2 * (f[8] * (bids + asks + 10) - (bids - asks) * 1_000_000_000)) <= bids
                + asks + 10
            &&& bids >= asks ==> f[8] >= 0
            &&& bids <= asks ==> f[8] <= 0
            &&& trades.len() < 50 ==> 50 * f[9] == trades.len() * 1_000_000_000
            &&& trades.len() >= 50 ==> f[9] == 1_000_000_000
            &&& no > 0 && yes == 0 ==> f[16] == 1_000_000_000
            &&& yes > 0 && no == 0 ==> f[16] == -1_000_000_000
            &&& no + yes > 0 ==> magnitude(2 * (f[16] * (no + yes) - (no - yes) * 1_000_000_000))
                <= no + yes
            &&& no >= yes ==> f[16] >= 0
            &&& no <= yes ==> f[16] <= 0
        }),
{
    law_flow(trades);
    crate::book::law_flow_is_a_share(trades);
    lemma_best_three(ts.book.yes(), true);
    lemma_best_three(ts.book.no(), false);
    let bids = best_three(ts.book.yes());
    let asks = best_three(ts.book.no());
    let total = bids + asks + 10;
    let n = (bids - asks) * 1_000_000_000;
    lemma_quotient(n, total);
    crate::book::lemma_share(bids - asks, total);
    lemma_exact_quotient(0, total);
    if bids >= asks {
        crate::num::lemma_round_even_monotone(0, n, total);
    }
    if bids <= asks {
        crate::num::lemma_round_even_monotone(n, 0, total);
    }
}

/// A feature shows `n` over `d` in billionths of `unit`, within the bounds.
pub open spec fn shows_ratio(f: int, n: int, d: int, low: int, high: int) -> bool {
    &&& low * d <= n <= high * d ==> magnitude(2 * (f * d - n)) <= d
    &&& n <= low * d ==> f == low
    &&& n >= high * d ==> f == high
}

proof fn lemma_ratio_shown(n: int, d: int, low: int, high: int)
    requires
        d > 0,
        low <= high,
    ensures
        shows_ratio(crate::num::clamp(round_even(n, d), low, high), n, d, low, high),
{
    lemma_quotient(n, d);
    lemma_exact_quotient(low, d);
    lemma_exact_quotient(high, d);
    if n <= low * d {
        crate::num::lemma_round_even_monotone(n, low * d, d);
    } else {
        crate::num::lemma_round_even_monotone(low * d, n, d);
    }
    if n >= high * d {
        crate::num::lemma_round_even_monotone(high * d, n, d);
    } else {
        crate::num::lemma_round_even_monotone(n, high * d, d);
    }
    if low * d <= n && n <= low * d {
        assert(n == low * d);
    }
}

/// What an observation shows of the account's own trading in the market: the
/// position over the largest one, the profit at the midpoint over half of that,
/// the realized profit per fifty dollars, the contracts filled, and those bought
/// less those sold over all of them.
pub proof fn law_observed_account(
    ts: TickerState,
    hist: Seq<i64>,
    trades: Seq<TradePrint>,
    mm: MmParams,
    now: int,
)
    requires
        ts.fills_buy >= 0,
        ts.fills_sell >= 0,
    ensures
        ({
            let f = features_of(ts, hist, trades, mm, now);
            let one = 1_000_000_000int;
            let p = ts.position as int;
            let most = if mm.max_inventory > 1 {
                mm.max_inventory as int
            } else {
                1
            };
            let half = if most > 2 {
                most
            } else {
                2
            };
            let twice_mid = (ts.book.bid() + ts.book.ask()) * 1_000_000;
            let size = if mm.quote_size > 1 {
                mm.quote_size as int
            } else {
                1
            };
            let bought = ts.fills_buy as int;
            let sold = ts.fills_sell as int;
            &&& shows_ratio(f[10], p * one, most, -one, one)
            &&& ts.entry_price matches Some(entry) ==> shows_ratio(
                f[11],
                p * (twice_mid - 2 * entry),
                half,
                -one,
                one,
            )
            &&& ts.entry_price is None ==> f[11] == 0
            &&& shows_ratio(f[14], ts.realized_pnl as int, 50, -one, one)
            &&& shows_ratio(f[15], (bought + sold) * one, size, 0, one)
            &&& bought + sold == 0 ==> f[18] == 0
            &&& bought + sold > 0 ==> shows_ratio(
                f[18],
                (bought - sold) * one,
                bought + sold,
                -one,
                one,
            )
        }),
{
    let one = 1_000_000_000int;
    let p = ts.position as int;
    let most = if mm.max_inventory > 1 {
        mm.max_inventory as int
    } else {
        1
    };
    let half = if most > 2 {
        most
    } else {
        2
    };
    let size = if mm.quote_size > 1 {
        mm.quote_size as int
    } else {
        1
    };
    let twice_mid = (ts.book.bid() + ts.book.ask()) * 1_000_000;
    lemma_ratio_shown(p * one, most, -one, one);
    match ts.entry_price {
        Some(entry) => {
            let mid = ts.book.middle();
            assert(2 * (p * (mid - entry)) == p * (twice_mid - 2 * entry)) by (nonlinear_arith)
                requires
                    twice_mid == 2 * mid,
            ;
            lemma_ratio_shown(p * (twice_mid - 2 * entry), half, -one, one);
        },
        None => {
            lemma_exact_quotient(0, half);
        },
    }
    lemma_ratio_shown(ts.realized_pnl as int, 50, -one, one);
    lemma_ratio_shown((ts.fills_buy + ts.fills_sell) * one, size, 0, one);
    if ts.fills_buy + ts.fills_sell > 0 {
        lemma_ratio_shown(
            (ts.fills_buy - ts.fills_sell) * one,
            ts.fills_buy + ts.fills_sell,
            -one,
            one,
        );
    }
}

/// What an observation shows of time: the hours to the close, at most a day and
/// a day where the close is not known; the move of the midpoint over five
/// samples and a third of that over three; and twenty times the volatility, at
/// most one.
pub proof fn law_observed_moves(
    ts: TickerState,
    hist: Seq<i64>,
    trades: Seq<TradePrint>,
    mm: MmParams,
    now: int,
)
    ensures
        ({
            let f = features_of(ts, hist, trades, mm, now);
            let twice_mid = (ts.book.bid() + ts.book.ask()) * 1_000_000;
            let n = hist.len() as int;
            &&& ts.close_time_s is None ==> f[12] == 24_000_000_000
            &&& ts.close_time_s matches Some(close) ==> {
                &&& close <= now ==> f[12] == 0
                &&& close - now >= 86_400_000_000 ==> f[12] == 24_000_000_000
                &&& 0 <= close - now <= 86_400_000_000 ==> magnitude(
                    2 * (18 * f[12] - 5 * (close - now)),
                ) <= 18
            }
            &&& n < 5 ==> f[13] == 0
            &&& n >= 5 ==> {
                let twice = twice_mid - 2 * hist[n - 5];
                &&& -200_000_000 <= twice <= 200_000_000 ==> 2 * f[13] == twice
                &&& twice > 200_000_000 ==> f[13] == 100_000_000
                &&& twice < -200_000_000 ==> f[13] == -100_000_000
            }
            &&& n < 3 ==> f[17] == 0
            &&& n >= 3 ==> shows_ratio(
                f[17],
                ts.book.middle() - hist[n - 3],
                3,
                -100_000_000,
                100_000_000,
            )
            &&& vol_of(hist) <= 50_000_000 && vol_of(hist) >= 0 ==> f[19] == 20 * vol_of(hist)
            &&& vol_of(hist) > 50_000_000 ==> f[19] == 1_000_000_000
        }),
{
    let n = hist.len() as int;
    match ts.close_time_s {
        Some(close) => {
            lemma_ratio_shown((close - now) * 5, 18, 0, 24_000_000_000);
        },
        None => {},
    }
    if n >= 3 {
        lemma_ratio_shown(ts.book.middle() - hist[n - 3], 3, -100_000_000, 100_000_000);
    }
    assert(round_even(0, 3) == 0);
}

/// No observation is made of a book that is not valid or whose spread is more
/// than half a dollar.
pub proof fn law_wide_books(ts: TickerState)
    ensures
        is_wide(ts) <==> !ts.book.valid() || (ts.book.ask() - ts.book.bid()) * 1_000_000
            > 500_000_000,
{
}

// --- volatility --------------------------------------------------------------

/// The sum of the squared differences of a sample to samples.
pub open spec fn spread_from(x: int, xs: Seq<i64>) -> int
    decreases xs.len(),
{
    if xs.len() == 0 {
        0
    } else {
        spread_from(x, xs.drop_last()) + (x - xs.last()) * (x - xs.last())
    }
}

/// The sum of the squared differences of all pairs of samples.
pub open spec fn spread_of(xs: Seq<i64>) -> int
    decreases xs.len(),
{
    if xs.len() == 0 {
        0
    } else {
        spread_of(xs.drop_last()) + spread_from(xs.last() as int, xs.drop_last())
    }
}

proof fn lemma_spread_from(x: int, xs: Seq<i64>)
    ensures
        spread_from(x, xs) == xs.len() * (x * x) - 2 * x * crate::features::total(xs)
            + crate::features::total_squares(xs),
    decreases xs.len(),
{
    if xs.len() > 0 {
        let ys = xs.drop_last();
        lemma_spread_from(x, ys);
        let y = xs.last() as int;
        let n = ys.len() as int;
        let t = crate::features::total(ys);
        assert((x - y) * (x - y) == x * x - 2 * x * y + y * y) by (nonlinear_arith);
        assert(2 * x * (t + y) == 2 * x * t + 2 * x * y) by (nonlinear_arith);
        assert((n + 1) * (x * x) == n * (x * x) + x * x) by (nonlinear_arith);
    } else {
        assert(0 * (x * x) == 0 && 2 * x * 0 == 0) by (nonlinear_arith);
    }
}

proof fn lemma_spread_of(xs: Seq<i64>)
    ensures
        spread_of(xs) == xs.len() * crate::features::total_squares(xs) - crate::features::total(xs)
            * crate::features::total(xs),
    decreases xs.len(),
{
    if xs.len() > 0 {
        let ys = xs.drop_last();
        lemma_spread_of(ys);
        let x = xs.last() as int;
        lemma_spread_from(x, ys);
        let n = ys.len() as int;
        let t = crate::features::total(ys);
        let q = crate::features::total_squares(ys);
        assert((n + 1) * (q + x * x) == n * q + n * (x * x) + q + x * x) by (nonlinear_arith);
        assert((t + x) * (t + x) == t * t + 2 * x * t + x * x) by (nonlinear_arith);
    } else {
        assert(0 * 0 == 0);
    }
}

/// The volatility is the root of the squared differences of all pairs among the
/// last twenty samples, over their number: it is zero for samples that are all
/// the same, and rests on how far apart the samples are, not on where they lie.
pub proof fn law_volatility(hist: Seq<i64>)
    requires
        hist.len() >= 3,
    ensures
        ({
            let xs = if hist.len() > 20 {
                hist.skip(hist.len() - 20)
            } else {
                hist
            };
            let n = xs.len() as int;
            let v = vol_of(hist);
            &&& v >= 0
            &&& (v * n) * (v * n) <= spread_of(xs) < ((v + 1) * n) * ((v + 1) * n)
        }),
{
    let xs = vol_window(hist);
    if hist.len() > 20 {
        assert(xs =~= hist.skip(hist.len() - 20));
    }
    lemma_spread_of(xs);
    crate::features::law_only_the_last_samples_count(hist, hist, 0);
    crate::features::lemma_variance_nonnegative(xs);
    crate::features::lemma_vol_is_root(hist);
    assert(is_root(vol_of(hist), scaled_variance(hist), vol_count(hist)));
}

/// The volatility filter closes above its threshold: what it lets through has
/// at most that volatility, and what it stops at least that.
pub proof fn law_volatility_filter(hist: Seq<i64>, threshold: int)
    requires
        hist.len() >= 3,
        threshold >= 0,
    ensures
        too_volatile(hist, threshold) ==> vol_of(hist) >= threshold,
        !too_volatile(hist, threshold) ==> vol_of(hist) <= threshold,
{
    crate::features::lemma_vol_is_root(hist);
    let v = vol_of(hist);
    let n = vol_count(hist);
    let t = threshold;
    let square = scaled_variance(hist);
    if too_volatile(hist, t) && v < t {
        assert(((v + 1) * n) * ((v + 1) * n) <= (t * n) * (t * n)) by (nonlinear_arith)
            requires
                0 <= v + 1 <= t,
                n > 0,
        ;
    }
    if !too_volatile(hist, t) && v > t {
        assert((v * n) * (v * n) > (t * n) * (t * n)) by (nonlinear_arith)
            requires
                0 <= t < v,
                n > 0,
        ;
    }
}

} // verus!
