//! What quotes and exits are for, said of their inputs and results.

use vstd::prelude::*;

use crate::book::{fee_of, passive_ask, passive_bid};
use crate::config::MmParams;
use crate::engine::{
    exit_for, half_spread_of, keeps_orders, order_price, planned, quotes_for, skew_of, snapped, spot_exit_for,
    wanted_ask, wanted_bid,
};
use crate::num::{lemma_round_even_monotone, lemma_round_even_near, magnitude, round_even};
use crate::state::TickerState;

verus! {

// --- the action --------------------------------------------------------------

/// A rounded quotient is a nearest one, and the even one of two.
proof fn lemma_round_even_ties(n: int, d: int)
    requires
        d > 0,
    ensures
        magnitude(2 * (d * round_even(n, d) - n)) <= d,
        magnitude(2 * (d * round_even(n, d) - n)) == d ==> round_even(n, d) % 2 == 0,
{
    lemma_round_even_near(n, d);
    vstd::arithmetic::div_mod::lemma_fundamental_div_mod(n, d);
    let q = n / d;
    assert(d * (q + 1) == d * q + d) by (nonlinear_arith);
}

/// The half spread runs in a straight line from one cent at -1 to fifty at 1,
/// to the nearest tenth of a cent, and stops at both ends.
pub proof fn law_half_spread(a0: int)
    ensures
        ({
            let half = half_spread_of(a0);
            let exact = 20_000_000_000 + (a0 + 1_000_000_000) * 490;
            &&& half % 1_000_000 == 0
            &&& -1_000_000_000 <= a0 <= 1_000_000_000 ==> magnitude(2000 * half - exact)
                <= 1_000_000_000
            &&& -1_000_000_000 <= a0 <= 1_000_000_000 && magnitude(2000 * half - exact)
                == 1_000_000_000 ==> half % 2_000_000 == 0
            &&& a0 <= -1_000_000_000 ==> half == 10_000_000
            &&& a0 >= 1_000_000_000 ==> half == 500_000_000
        }),
{
    let a = if a0 < -1_000_000_000 {
        -1_000_000_000
    } else if a0 > 1_000_000_000 {
        1_000_000_000
    } else {
        a0
    };
    lemma_round_even_ties(2_000_000_000 + (a + 1_000_000_000) * 49, 200_000_000);
}

/// The skew is a twentieth of the second component, to the nearest tenth of a
/// cent and at most five cents: up for a positive one, down as far for its
/// opposite.
pub proof fn law_skew(a1: int)
    ensures
        ({
            let skew = skew_of(a1);
            &&& skew % 1_000_000 == 0
            &&& -1_000_000_000 <= a1 <= 1_000_000_000 ==> magnitude(20 * skew - a1) <= 10_000_000
            &&& -1_000_000_000 <= a1 <= 1_000_000_000 && magnitude(20 * skew - a1) == 10_000_000
                ==> skew % 2_000_000 == 0
            &&& a1 <= -1_000_000_000 ==> skew == -50_000_000
            &&& a1 >= 1_000_000_000 ==> skew == 50_000_000
            &&& skew_of(-a1) == -skew
        }),
{
    let a = if a1 < -1_000_000_000 {
        -1_000_000_000
    } else if a1 > 1_000_000_000 {
        1_000_000_000
    } else {
        a1
    };
    lemma_round_even_ties(a * 5, 100_000_000);
    lemma_round_even_ties(-a * 5, 100_000_000);
}

// --- the prices --------------------------------------------------------------

/// The grid of a market, in billionths of a dollar: tenths of a cent where its
/// step is that fine, and whole cents otherwise.
pub open spec fn grid_of(tick: int) -> int {
    if tick <= 1_000_000 {
        1_000_000
    } else {
        10_000_000
    }
}

/// `p` is the price of the grid that is nearest to `x`, the even one of two,
/// or the end of one to ninety-nine cents that `x` lies beyond.
pub open spec fn is_nearest_price(p: int, x: int, grid: int) -> bool {
    &&& p % grid == 0
    &&& 10_000_000 <= p <= 990_000_000
    &&& x < 10_000_000 ==> p == 10_000_000
    &&& x > 990_000_000 ==> p == 990_000_000
    &&& 10_000_000 <= x <= 990_000_000 ==> magnitude(2 * (p - x)) <= grid
    &&& 10_000_000 <= x <= 990_000_000 && magnitude(2 * (p - x)) == grid ==> p % (2 * grid) == 0
}

proof fn lemma_snapped_is_nearest(x: int, tick: int)
    ensures
        is_nearest_price(snapped(x, tick), x, grid_of(tick)),
{
    lemma_round_even_ties(x, 1_000_000);
    lemma_round_even_ties(x, 10_000_000);
    let p = snapped(x, tick);
    if tick <= 1_000_000 {
        assert(p % 1_000_000 == 0);
        assert(10_000_000 <= x <= 990_000_000 && magnitude(2 * (p - x)) == 1_000_000 ==> p
            % 2_000_000 == 0);
        assert(is_nearest_price(p, x, 1_000_000));
    } else {
        assert(p % 10_000_000 == 0);
        assert(10_000_000 <= x <= 990_000_000 && magnitude(2 * (p - x)) == 10_000_000 ==> p
            % 20_000_000 == 0);
        assert(is_nearest_price(p, x, 10_000_000));
    }
}

/// The step in front of the queue, where the market has tenths of a cent and
/// the strategy uses them: both quotes move a tenth toward each other.
pub open spec fn inward(tick: int, mm: MmParams) -> int {
    if tick <= 1_000_000 && mm.subpenny_enabled {
        1_000_000
    } else {
        0
    }
}

/// The quotes asked for stand a half spread below and above the center moved
/// by the skew, each a queue step inward, at the nearest price of the grid.
/// Where the two lie on the grid they are centred there exactly.
pub proof fn law_quotes_stand_around_the_center(
    action: Seq<i64>,
    center: int,
    tick: int,
    mm: MmParams,
)
    ensures
        ({
            let half = half_spread_of(action[0] as int);
            let skew = skew_of(action[1] as int);
            let low = center + skew - (half - inward(tick, mm));
            let high = center + skew + (half - inward(tick, mm));
            let bid = wanted_bid(action, center, tick, mm);
            let ask = wanted_ask(action, center, tick, mm);
            &&& is_nearest_price(bid, low, grid_of(tick))
            &&& is_nearest_price(ask, high, grid_of(tick))
            &&& low % grid_of(tick) == 0 && high % grid_of(tick) == 0 && 10_000_000 <= low
                && high <= 990_000_000 && low <= 990_000_000 && high >= 10_000_000 ==> {
                &&& bid + ask == 2 * (center + skew)
                &&& ask - bid == 2 * (half - inward(tick, mm))
            }
        }),
{
    let half = half_spread_of(action[0] as int);
    let skew = skew_of(action[1] as int);
    let low = center + skew - (half - inward(tick, mm));
    let high = center + skew + (half - inward(tick, mm));
    lemma_snapped_is_nearest(low, tick);
    lemma_snapped_is_nearest(high, tick);
}

/// A higher skew never lowers a quote, and a wider half spread never raises the
/// bid nor lowers the ask.
pub proof fn law_quotes_follow_the_action(
    a: Seq<i64>,
    b: Seq<i64>,
    center: int,
    tick: int,
    mm: MmParams,
)
    ensures
        a[0] == b[0] && a[1] <= b[1] ==> {
            &&& wanted_bid(a, center, tick, mm) <= wanted_bid(b, center, tick, mm)
            &&& wanted_ask(a, center, tick, mm) <= wanted_ask(b, center, tick, mm)
        },
        a[0] <= b[0] && a[1] == b[1] ==> {
            &&& wanted_bid(a, center, tick, mm) >= wanted_bid(b, center, tick, mm)
            &&& wanted_ask(a, center, tick, mm) <= wanted_ask(b, center, tick, mm)
        },
        a[0] == b[0] && a[1] <= -1_000_000_000 && b[1] >= 1_000_000_000 ==> skew_of(a[1] as int)
            + 100_000_000 == skew_of(b[1] as int),
{
    lemma_action_monotone(a[0] as int, b[0] as int);
    lemma_action_monotone(a[1] as int, b[1] as int);
    let h = half_spread_of(a[0] as int);
    let k = half_spread_of(b[0] as int);
    let s = skew_of(a[1] as int);
    let t = skew_of(b[1] as int);
    let q = inward(tick, mm);
    if a[0] == b[0] && a[1] <= b[1] {
        lemma_snap_monotone(center - h + s + q, center - k + t + q, tick);
        lemma_snap_monotone(center + h + s - q, center + k + t - q, tick);
    }
    if a[0] <= b[0] && a[1] == b[1] {
        lemma_snap_monotone(center - k + t + q, center - h + s + q, tick);
        lemma_snap_monotone(center + h + s - q, center + k + t - q, tick);
    }
}

proof fn lemma_snap_monotone(x: int, y: int, tick: int)
    requires
        x <= y,
    ensures
        snapped(x, tick) <= snapped(y, tick),
{
    lemma_round_even_monotone(x, y, 1_000_000);
    lemma_round_even_monotone(x, y, 10_000_000);
}

proof fn lemma_action_monotone(x: int, y: int)
    ensures
        x <= y ==> half_spread_of(x) <= half_spread_of(y) && skew_of(x) <= skew_of(y),
{
    if x <= y {
        let one = 1_000_000_000int;
        let a = crate::num::clamp(x, -one, one);
        let b = crate::num::clamp(y, -one, one);
        lemma_round_even_monotone(
            2_000_000_000 + (a + one) * 49,
            2_000_000_000 + (b + one) * 49,
            200_000_000,
        );
        lemma_round_even_monotone(a * 5, b * 5, 100_000_000);
    }
}

/// A price rounded to a ten-thousandth of a dollar.
pub open spec fn is_ten_thousandth_near(p: int, x: int) -> bool {
    p % 100_000 == 0 && magnitude(2 * (p - x)) <= 100_000
}

/// The smaller of two numbers.
pub open spec fn lesser(x: int, y: int) -> int {
    if x < y {
        x
    } else {
        y
    }
}

/// The prices of a plan: what the action asks for around the midpoint moved by
/// the shift, but the bid not above one step under the market's ask, and the ask
/// not below one step over the market's bid. Nothing else moves a price.
pub proof fn law_plan_prices(
    action: Seq<i64>,
    shift: int,
    ts: TickerState,
    mm: MmParams,
    max_inventory: int,
    open_orders: int,
    backoff_until: int,
    now: int,
)
    requires
        -0x4000_0000_0000_0000 <= ts.tick <= 0x4000_0000_0000_0000,
        planned(action, shift, ts, mm, max_inventory, open_orders, backoff_until, now) is Some,
    ensures
        ({
            let plan = planned(
                action,
                shift,
                ts,
                mm,
                max_inventory,
                open_orders,
                backoff_until,
                now,
            )->Some_0;
            let tick = ts.tick as int;
            let best_bid = ts.book.bid() * 1_000_000;
            let best_ask = ts.book.ask() * 1_000_000;
            let center = (best_bid + best_ask) / 2 + shift;
            let half = half_spread_of(action[0] as int) - inward(tick, mm);
            let skew = skew_of(action[1] as int);
            &&& exists|b: int|
                #![trigger is_nearest_price(b, center + skew - half, grid_of(tick))]
                is_nearest_price(b, center + skew - half, grid_of(tick)) && is_ten_thousandth_near(
                    plan.quoted_bid,
                    lesser(b, best_ask - tick),
                )
            &&& exists|a: int|
                #![trigger is_nearest_price(a, center + skew + half, grid_of(tick))]
                is_nearest_price(a, center + skew + half, grid_of(tick)) && is_ten_thousandth_near(
                    plan.quoted_ask,
                    -lesser(-a, -(best_bid + tick)),
                )
        }),
{
    let tick = ts.tick as int;
    let best_bid = ts.book.bid() * 1_000_000;
    let best_ask = ts.book.ask() * 1_000_000;
    let center = (best_bid + best_ask) / 2 + shift;
    assert(center == ts.book.middle() + shift);
    law_quotes_stand_around_the_center(action, center, tick, mm);
    let b = wanted_bid(action, center, tick, mm);
    let a = wanted_ask(action, center, tick, mm);
    let plan = planned(
        action,
        shift,
        ts,
        mm,
        max_inventory,
        open_orders,
        backoff_until,
        now,
    )->Some_0;
    assert(is_ten_thousandth_near(plan.quoted_bid, lesser(b, best_ask - tick)));
    assert(is_ten_thousandth_near(plan.quoted_ask, -lesser(-a, -(best_bid + tick))));
}

/// A higher skew, or a higher shift, never lowers a planned price.
pub proof fn law_plan_leans_with_skew_and_shift(
    a: Seq<i64>,
    b: Seq<i64>,
    s: int,
    t: int,
    book: crate::book::Book,
    tick: int,
    mm: MmParams,
)
    requires
        a[0] == b[0],
        a[1] <= b[1],
        s <= t,
        quotes_for(a, s, book, tick, mm) is Some,
        quotes_for(b, t, book, tick, mm) is Some,
    ensures
        quotes_for(a, s, book, tick, mm)->Some_0.0 <= quotes_for(b, t, book, tick, mm)->Some_0.0,
        quotes_for(a, s, book, tick, mm)->Some_0.1 <= quotes_for(b, t, book, tick, mm)->Some_0.1,
{
    let mid = book.middle();
    law_quotes_follow_the_action(a, b, mid + s, tick, mm);
    crate::engine::law_quotes_lean_with_the_shift(b, mid, s, t, tick, mm);
    let x = wanted_bid(a, mid + s, tick, mm);
    let y = wanted_bid(b, mid + t, tick, mm);
    let top = book.ask() * 1_000_000 - tick;
    crate::book::lemma_round_away_monotone(lesser(x, top), lesser(y, top), 100_000);
    let v = wanted_ask(a, mid + s, tick, mm);
    let w = wanted_ask(b, mid + t, tick, mm);
    let floor = book.bid() * 1_000_000 + tick;
    crate::book::lemma_round_away_monotone(
        -lesser(-v, -floor),
        -lesser(-w, -floor),
        100_000,
    );
}

// --- when there is a plan, and what it says ----------------------------------

/// What a plan needs: a second since the last look, no pause, a book, a
/// midpoint inside the band, room for orders unless the market has quoted
/// before, quotes that do not meet as asked for, and a spread that pays both
/// fees and the least edge.
pub proof fn law_what_a_plan_needs(
    action: Seq<i64>,
    shift: int,
    ts: TickerState,
    mm: MmParams,
    max_inventory: int,
    open_orders: int,
    backoff_until: int,
    now: int,
)
    requires
        planned(action, shift, ts, mm, max_inventory, open_orders, backoff_until, now) is Some,
    ensures
        ({
            let plan = planned(
                action,
                shift,
                ts,
                mm,
                max_inventory,
                open_orders,
                backoff_until,
                now,
            )->Some_0;
            let twice_mid = (ts.book.bid() + ts.book.ask()) * 1_000_000;
            &&& now >= ts.last_quote_time + 1_000_000
            &&& now >= backoff_until
            &&& ts.book.valid()
            &&& 2 * mm.quote_band_lo <= twice_mid <= 2 * mm.quote_band_hi
            &&& open_orders < mm.max_open_orders || ts.ever_quoted
            &&& plan.quoted_bid < plan.quoted_ask
            &&& wanted_bid(action, ts.book.middle() + shift, ts.tick as int, mm) < wanted_ask(
                action,
                ts.book.middle() + shift,
                ts.tick as int,
                mm,
            )
            &&& plan.quoted_ask - plan.quoted_bid > fee_of(
                mm.maker_fee_rate as int,
                1,
                plan.quoted_bid,
            ) + fee_of(mm.maker_fee_rate as int, 1, plan.quoted_ask) + mm.min_quote_edge
            &&& ts.bid_order_id is Some && ts.ask_order_id is Some && ts.quoted_bid is Some
                && ts.quoted_ask is Some ==> magnitude(ts.quoted_bid->Some_0 - plan.quoted_bid)
                * 1000 >= ts.tick * 999 || magnitude(ts.quoted_ask->Some_0 - plan.quoted_ask) * 1000
                >= ts.tick * 999
        }),
{
    crate::engine::law_plan_respects_caps_and_fees(
        action,
        shift,
        ts,
        mm,
        max_inventory,
        open_orders,
        backoff_until,
        now,
    );
    let (bid, ask) = quotes_for(action, shift, ts.book, ts.tick as int, mm)->Some_0;
    assert(1 * (ask - bid) == ask - bid);
    assert(mm.min_quote_edge * 1 == mm.min_quote_edge);
}

/// What suffices for a plan: nothing of the above is missing, and the quotes as
/// asked for and as made passive do not cross. Its prices are then the passive
/// ones. The spread pays where it beats fees and edge by a millionth of a
/// dollar.
pub proof fn law_what_suffices_for_a_plan(
    action: Seq<i64>,
    shift: int,
    ts: TickerState,
    mm: MmParams,
    max_inventory: int,
    open_orders: int,
    backoff_until: int,
    now: int,
)
    requires
        now >= ts.last_quote_time + 1_000_000,
        now >= backoff_until,
        ts.book.valid(),
        2 * mm.quote_band_lo <= (ts.book.bid() + ts.book.ask()) * 1_000_000 <= 2
            * mm.quote_band_hi,
        open_orders < mm.max_open_orders || ts.ever_quoted,
        ({
            let tick = ts.tick as int;
            let center = (ts.book.bid() + ts.book.ask()) * 500_000 + shift;
            let b = wanted_bid(action, center, tick, mm);
            let a = wanted_ask(action, center, tick, mm);
            let bid = passive_bid(b, ts.book.ask() * 1_000_000, tick);
            let ask = passive_ask(a, ts.book.bid() * 1_000_000, tick);
            &&& b < a
            &&& bid < ask
            &&& ask - bid >= fee_of(mm.maker_fee_rate as int, 1, bid) + fee_of(
                mm.maker_fee_rate as int,
                1,
                ask,
            ) + mm.min_quote_edge + 1000
            &&& ts.bid_order_id is None || ts.ask_order_id is None || ts.quoted_bid is None
                || ts.quoted_ask is None || magnitude(ts.quoted_bid->Some_0 - bid) >= ts.tick
                || magnitude(ts.quoted_ask->Some_0 - ask) >= ts.tick
        }),
        ts.tick >= 0,
    ensures
        ({
            let tick = ts.tick as int;
            let center = (ts.book.bid() + ts.book.ask()) * 500_000 + shift;
            let plan = planned(
                action,
                shift,
                ts,
                mm,
                max_inventory,
                open_orders,
                backoff_until,
                now,
            );
            &&& plan is Some
            &&& plan->Some_0.quoted_bid == passive_bid(
                wanted_bid(action, center, tick, mm),
                ts.book.ask() * 1_000_000,
                tick,
            )
            &&& plan->Some_0.quoted_ask == passive_ask(
                wanted_ask(action, center, tick, mm),
                ts.book.bid() * 1_000_000,
                tick,
            )
        }),
{
    let tick = ts.tick as int;
    let center = (ts.book.bid() + ts.book.ask()) * 500_000 + shift;
    assert(center == ts.book.middle() + shift);
    let bid = passive_bid(
        wanted_bid(action, center, tick, mm),
        ts.book.ask() * 1_000_000,
        tick,
    );
    let ask = passive_ask(
        wanted_ask(action, center, tick, mm),
        ts.book.bid() * 1_000_000,
        tick,
    );
    assert((ask - bid) * 1 == ask - bid);
    assert(mm.min_quote_edge * 1 == mm.min_quote_edge);
    assert(!keeps_orders(ts, bid, ask));
}

/// Orders that rest where a plan would put them stay where they are: no plan
/// moves them for less than a step.
pub proof fn law_orders_keep_their_place(
    action: Seq<i64>,
    shift: int,
    ts: TickerState,
    mm: MmParams,
    max_inventory: int,
    open_orders: int,
    backoff_until: int,
    now: int,
)
    requires
        ts.tick > 0,
        ts.bid_order_id is Some,
        ts.ask_order_id is Some,
        ts.quoted_bid is Some,
        ts.quoted_ask is Some,
        quotes_for(action, shift, ts.book, ts.tick as int, mm) == Some(
            (ts.quoted_bid->Some_0 as int, ts.quoted_ask->Some_0 as int),
        ),
    ensures
        planned(action, shift, ts, mm, max_inventory, open_orders, backoff_until, now) is None,
{
}

/// What a plan says beside its prices: each side is placed exactly where its
/// fill keeps the inventory within the cap; the orders to cancel are those that
/// rest, the bid first; and the order prices are the quoted ones in tenths of a
/// cent, to the nearest tenth or whole cent.
pub proof fn law_what_a_plan_says(
    action: Seq<i64>,
    shift: int,
    ts: TickerState,
    mm: MmParams,
    max_inventory: int,
    open_orders: int,
    backoff_until: int,
    now: int,
)
    requires
        planned(action, shift, ts, mm, max_inventory, open_orders, backoff_until, now) is Some,
    ensures
        ({
            let plan = planned(
                action,
                shift,
                ts,
                mm,
                max_inventory,
                open_orders,
                backoff_until,
                now,
            )->Some_0;
            let p = ts.position as int;
            let bid_contracts = if plan.quoted_bid + mm.extreme_band >= 1_000_000_000 {
                mm.extreme_quote_size as int
            } else {
                1
            };
            let ask_contracts = if plan.quoted_ask <= mm.extreme_band {
                mm.extreme_quote_size as int
            } else {
                1
            };
            &&& plan.place_bid <==> -max_inventory <= p + bid_contracts <= max_inventory
            &&& plan.place_ask <==> -max_inventory <= p - ask_contracts <= max_inventory
            &&& ts.bid_order_id is None && ts.ask_order_id is None ==> plan.cancel_ids.len() == 0
            &&& ts.bid_order_id is Some && ts.ask_order_id is None ==> plan.cancel_ids.len() == 1
                && plan.cancel_ids[0] == ts.bid_order_id->Some_0@
            &&& ts.bid_order_id is None && ts.ask_order_id is Some ==> plan.cancel_ids.len() == 1
                && plan.cancel_ids[0] == ts.ask_order_id->Some_0@
            &&& ts.bid_order_id is Some && ts.ask_order_id is Some ==> plan.cancel_ids.len() == 2
                && plan.cancel_ids[0] == ts.bid_order_id->Some_0@ && plan.cancel_ids[1]
                == ts.ask_order_id->Some_0@
            &&& ts.tick <= 1_000_000 ==> {
                &&& magnitude(2 * (plan.bid_cents * 1_000_000 - plan.quoted_bid)) <= 1_000_000
                &&& magnitude(2 * (plan.ask_cents * 1_000_000 - plan.quoted_ask)) <= 1_000_000
            }
            &&& ts.tick > 1_000_000 ==> {
                &&& plan.bid_cents % 10 == 0 && plan.ask_cents % 10 == 0
                &&& magnitude(2 * (plan.bid_cents * 1_000_000 - plan.quoted_bid)) <= 10_000_000
                &&& magnitude(2 * (plan.ask_cents * 1_000_000 - plan.quoted_ask)) <= 10_000_000
            }
        }),
{
    let (bid, ask) = quotes_for(action, shift, ts.book, ts.tick as int, mm)->Some_0;
    lemma_round_even_near(bid, 1_000_000);
    lemma_round_even_near(ask, 1_000_000);
    let tick = ts.tick as int;
    assert(tick > 1_000_000 ==> magnitude(2 * (order_price(bid, tick) * 1_000_000 - bid))
        <= 10_000_000);
    assert(tick > 1_000_000 ==> magnitude(2 * (order_price(ask, tick) * 1_000_000 - ask))
        <= 10_000_000);
}

// --- exits -------------------------------------------------------------------

/// When a position is left, and how. A long position loses as the midpoint
/// falls below its entry price and a short one as it rises above; either is
/// stopped at a loss per contract of five cents or more that is also twice the
/// spread or more. Less than two minutes before the close any position is left.
/// A long one is sold at the bid, a short one bought back at the ask, in full.
/// Without a position, a book or an entry price nothing is left.
pub proof fn law_when_a_position_is_left(ts: TickerState, now: int)
    ensures
        ({
            let p = ts.position as int;
            let exit = exit_for(ts, now);
            if p == 0 || !ts.book.valid() || ts.entry_price is None {
                exit is None
            } else {
                let bid = ts.book.bid() as int;
                let ask = ts.book.ask() as int;
                let entry = ts.entry_price->Some_0 as int;
                let twice_mid = (bid + ask) * 1_000_000;
                let twice_loss = if p > 0 {
                    2 * entry - twice_mid
                } else {
                    twice_mid - 2 * entry
                };
                let stopped = twice_loss >= 100_000_000 && twice_loss >= 4 * (ask - bid)
                    * 1_000_000;
                let closing = ts.close_time_s is Some && ts.close_time_s->Some_0 < now
                    + 120_000_000;
                &&& exit is Some <==> stopped || closing
                &&& exit matches Some(plan) ==> {
                    &&& plan.reason@ == if stopped {
                        "STOP-LOSS"@
                    } else {
                        "EXPIRY"@
                    }
                    &&& p > 0 ==> plan.side@ == "sell"@ && plan.price_cents == bid && plan.size == p
                    &&& p < 0 ==> plan.side@ == "buy"@ && plan.price_cents == ask
                    &&& i64::MIN < p < 0 ==> plan.size == -p
                }
            }
        }),
{
}

/// Long and short are treated alike: a market seen from the other side, with
/// YES and NO bids exchanged, the opposite position and the complement of the
/// entry price, is left on the same occasions, for the same reason and in the
/// same size, at the complement of the price.
pub proof fn law_exits_are_symmetric(a: TickerState, b: TickerState, now: int)
    requires
        a.position == -b.position,
        a.book.yes() == b.book.no(),
        a.book.no() == b.book.yes(),
        a.book.valid(),
        b.book.valid(),
        a.entry_price is Some,
        b.entry_price is Some,
        a.entry_price->Some_0 + b.entry_price->Some_0 == 1_000_000_000,
        a.close_time_s == b.close_time_s,
        a.book.bid() <= 1000,
        b.book.bid() <= 1000,
    ensures
        exit_for(a, now) is Some <==> exit_for(b, now) is Some,
        exit_for(a, now) matches Some(x) ==> {
            let y = exit_for(b, now)->Some_0;
            &&& x.reason == y.reason
            &&& x.size == y.size
            &&& x.price_cents + y.price_cents == 1000
            &&& x.side@ == "sell"@ <==> y.side@ == "buy"@
        },
{
    reveal_strlit("sell");
    reveal_strlit("buy");
    assert("sell"@.len() != "buy"@.len());
    assert(a.book.bid() + b.book.ask() == 1000);
    assert(b.book.bid() + a.book.ask() == 1000);
}

/// When a spot move makes a position be left: a long one when the shift is down
/// by the threshold or more, a short one when it is up as much.
pub proof fn law_when_spot_leaves_a_position(ts: TickerState, shift: int, threshold: int)
    ensures
        ({
            let p = ts.position as int;
            let exit = spot_exit_for(ts, shift, threshold);
            &&& exit is Some <==> ts.book.valid() && ((p > 0 && shift + threshold <= 0) || (p < 0
                && shift - threshold >= 0))
            &&& exit matches Some(plan) ==> {
                &&& plan.reason@ == "SPOT-ADVERSE"@
                &&& p > 0 ==> plan.side@ == "sell"@ && plan.price_cents == ts.book.bid()
                    && plan.size == p
                &&& p < 0 ==> plan.side@ == "buy"@ && plan.price_cents == ts.book.ask()
                &&& i64::MIN < p < 0 ==> plan.size == -p
            }
        }),
{
}

} // verus!
