//! The decisions: what to quote, when to get out, when to stop. No input or
//! output and no clock; the time comes in as an argument.

use vstd::prelude::*;

use crate::book::{
    captured, clamp_quotes, micros, passive_ask, passive_bid, quote_edge_ok, round_trip_cost, Book,
    MD_NANO,
};
use crate::config::{LiveConfig, MmParams};
use crate::num::{
    abs64, clamp, clamp128, clamp64, div_away, div_even, lemma_round_even_monotone, magnitude, round_away, round_even,
    to_i64, NANO,
};
use crate::state::{is_active, locked, locked_in, moved, TickerState, TraderState, PENNY};
use crate::table::Table;

verus! {

/// The time before a market's close at which positions are left, in
/// microseconds.
pub const EXPIRY_BUFFER: i64 = 120_000_000;

/// The least loss per contract that stops a position, in billionths of a
/// dollar; wide spreads raise it.
pub const STOP_LOSS_FLOOR: i64 = 50_000_000;

/// The time between two quote decisions in one market, in microseconds.
pub const THROTTLE: i64 = 1_000_000;

/// The highest price that can be quoted, in billionths of a dollar.
pub const TOP_PRICE: i64 = 990_000_000;

// --- the model's action ------------------------------------------------------

/// Half of the spread that an action asks for: one cent at -1, fifty at 1,
/// rounded to a tenth of a cent.
pub open spec fn half_spread_of(a0: int) -> int {
    round_even(
        2_000_000_000 + (clamp(a0, -NANO as int, NANO as int) + NANO) * 49,
        200_000_000,
    ) * MD_NANO
}

/// How far an action moves both quotes: at most five cents either way,
/// rounded to a tenth of a cent.
pub open spec fn skew_of(a1: int) -> int {
    round_even(clamp(a1, -NANO as int, NANO as int) * 5, 100_000_000) * MD_NANO
}

/// `x` moved into -1 ..= 1, in billionths.
fn unit(x: i64) -> (r: i128)
    ensures
        r == clamp(x as int, -NANO as int, NANO as int),
{
    if x < -NANO {
        -NANO as i128
    } else if x > NANO {
        NANO as i128
    } else {
        x as i128
    }
}

/// The half spread and the skew that an action asks for.
pub fn scale_action(action: [i64; 2]) -> (r: (i64, i64))
    ensures
        r.0 == half_spread_of(action@[0] as int),
        r.1 == skew_of(action@[1] as int),
        10_000_000 <= r.0 <= 500_000_000,
        -50_000_000 <= r.1 <= 50_000_000,
{
    let a0: i128 = unit(action[0]);
    let a1: i128 = unit(action[1]);
    let half: i128 = div_even(2_000_000_000 + (a0 + NANO as i128) * 49, 200_000_000);
    let skew: i128 = div_even(a1 * 5, 100_000_000);
    proof {
        lemma_round_even_monotone(2_000_000_000, 2_000_000_000 + (a0 + NANO) * 49, 200_000_000);
        lemma_round_even_monotone(
            2_000_000_000 + (a0 + NANO) * 49,
            2_000_000_000 + 2 * NANO * 49,
            200_000_000,
        );
        lemma_round_even_monotone(-NANO * 5, a1 * 5, 100_000_000);
        lemma_round_even_monotone(a1 * 5, NANO * 5, 100_000_000);
    }
    (half as i64 * MD_NANO, skew as i64 * MD_NANO)
}

// --- quotes ------------------------------------------------------------------

/// What to do about the two quotes of one market.
#[derive(Debug)]
pub struct QuotePlan {
    /// The bid in tenths of a cent.
    pub bid_cents: i64,
    /// The ask in tenths of a cent.
    pub ask_cents: i64,
    /// False where the inventory cap blocks the side.
    pub place_bid: bool,
    pub place_ask: bool,
    /// The resting orders to cancel first.
    pub cancel_ids: Vec<String>,
    /// The quoted prices in billionths of a dollar.
    pub quoted_bid: i64,
    pub quoted_ask: i64,
}

/// A plan by what it holds.
#[verifier::ext_equal]
pub struct PlanView {
    pub bid_cents: int,
    pub ask_cents: int,
    pub place_bid: bool,
    pub place_ask: bool,
    pub cancel_ids: Seq<Seq<char>>,
    pub quoted_bid: int,
    pub quoted_ask: int,
}

impl View for QuotePlan {
    type V = PlanView;

    open spec fn view(&self) -> PlanView {
        PlanView {
            bid_cents: self.bid_cents as int,
            ask_cents: self.ask_cents as int,
            place_bid: self.place_bid,
            place_ask: self.place_ask,
            cancel_ids: self.cancel_ids@.map_values(|s: String| s@),
            quoted_bid: self.quoted_bid as int,
            quoted_ask: self.quoted_ask as int,
        }
    }
}

/// The market's price step is a tenth of a cent or finer.
pub open spec fn is_subpenny(tick: int) -> bool {
    tick <= MD_NANO
}

/// A price on the market's grid and in its legal range.
pub open spec fn snapped(x: int, tick: int) -> int {
    clamp(
        if is_subpenny(tick) {
            round_even(x, MD_NANO as int) * MD_NANO
        } else {
            round_even(x, PENNY as int) * PENNY
        },
        PENNY as int,
        TOP_PRICE as int,
    )
}

/// The step in front of the queue.
pub open spec fn queue_step(tick: int, mm: MmParams) -> int {
    if is_subpenny(tick) && mm.subpenny_enabled {
        MD_NANO as int
    } else {
        0
    }
}

/// The bid that an action asks for around `center`.
pub open spec fn wanted_bid(action: Seq<i64>, center: int, tick: int, mm: MmParams) -> int {
    snapped(
        center - half_spread_of(action[0] as int) + skew_of(action[1] as int) + queue_step(
            tick,
            mm,
        ),
        tick,
    )
}

/// The ask that an action asks for around `center`.
pub open spec fn wanted_ask(action: Seq<i64>, center: int, tick: int, mm: MmParams) -> int {
    snapped(
        center + half_spread_of(action[0] as int) + skew_of(action[1] as int) - queue_step(
            tick,
            mm,
        ),
        tick,
    )
}

/// The quotes that may rest in the book: not crossed as the model asked for
/// them, made passive, and earning more than their fees. The center is the
/// midpoint moved by the spot shift.
pub open spec fn quotes_for(
    action: Seq<i64>,
    shift: int,
    book: Book,
    tick: int,
    mm: MmParams,
) -> Option<(int, int)> {
    let b = wanted_bid(action, book.middle() + shift, tick, mm);
    let a = wanted_ask(action, book.middle() + shift, tick, mm);
    let bid = passive_bid(b, book.ask() * MD_NANO, tick);
    let ask = passive_ask(a, book.bid() * MD_NANO, tick);
    if a <= b || ask <= bid {
        None
    } else if micros(captured(bid, ask, 1)) > micros(
        round_trip_cost(bid, ask, mm.maker_fee_rate as int, 1, mm.min_quote_edge as int),
    ) {
        Some((bid, ask))
    } else {
        None
    }
}

/// Both orders rest, and neither price has moved a full tick: they keep their
/// place in the queue.
pub open spec fn keeps_orders(ts: TickerState, bid: int, ask: int) -> bool {
    match (ts.quoted_bid, ts.quoted_ask) {
        (Some(qb), Some(qa)) => {
            &&& ts.bid_order_id is Some
            &&& ts.ask_order_id is Some
            &&& magnitude(qb - bid) * 1000 < ts.tick * 999
            &&& magnitude(qa - ask) * 1000 < ts.tick * 999
        },
        _ => false,
    }
}

/// The price of an order in tenths of a cent: whole cents, or tenths where the
/// market has them.
pub open spec fn order_price(x: int, tick: int) -> int {
    if is_subpenny(tick) {
        round_even(x, MD_NANO as int)
    } else {
        round_away(x, PENNY as int) * 10
    }
}

/// The contracts of a bid: more where the price is extreme.
pub open spec fn bid_size_of(bid: int, mm: MmParams) -> int {
    if bid >= NANO - mm.extreme_band {
        mm.extreme_quote_size as int
    } else {
        1
    }
}

/// The contracts of an ask: more where the price is extreme.
pub open spec fn ask_size_of(ask: int, mm: MmParams) -> int {
    if ask <= mm.extreme_band {
        mm.extreme_quote_size as int
    } else {
        1
    }
}

/// The orders that rest in a market.
pub open spec fn resting_ids(ts: TickerState) -> Seq<Seq<char>> {
    let bid = match ts.bid_order_id {
        Some(id) => seq![id@],
        None => seq![],
    };
    match ts.ask_order_id {
        Some(id) => bid.push(id@),
        None => bid,
    }
}

/// Quotes were considered in this market a moment ago.
pub open spec fn throttled(ts: TickerState, now: int) -> bool {
    now - ts.last_quote_time < THROTTLE
}

/// The plan for one market, or none where one of the barriers is closed: the
/// pause after a refused order, an invalid book, a midpoint outside the band,
/// a used-up order budget, quotes that collapse, cross or do not pay, and
/// orders that can stay.
pub open spec fn planned(
    action: Seq<i64>,
    shift: int,
    ts: TickerState,
    mm: MmParams,
    max_inventory: int,
    open_orders: int,
    backoff_until: int,
    now: int,
) -> Option<PlanView> {
    if throttled(ts, now) || now < backoff_until || !ts.book.valid() || !(mm.quote_band_lo
        <= ts.book.middle() <= mm.quote_band_hi) || (open_orders >= mm.max_open_orders
        && !ts.ever_quoted) {
        None
    } else {
        match quotes_for(action, shift, ts.book, ts.tick as int, mm) {
            Some((bid, ask)) => if keeps_orders(ts, bid, ask) {
                None
            } else {
                Some(
                    PlanView {
                        bid_cents: order_price(bid, ts.tick as int),
                        ask_cents: order_price(ask, ts.tick as int),
                        place_bid: magnitude(ts.position + bid_size_of(bid, mm)) <= max_inventory,
                        place_ask: magnitude(ts.position - ask_size_of(ask, mm)) <= max_inventory,
                        cancel_ids: resting_ids(ts),
                        quoted_bid: bid,
                        quoted_ask: ask,
                    },
                )
            },
            None => None,
        }
    }
}

/// A price on the market's grid and in its legal range.
fn snap(x: i128, tick: i64) -> (r: i64)
    requires
        -0x1_0000_0000_0000_0000 <= x <= 0x1_0000_0000_0000_0000,
    ensures
        r == snapped(x as int, tick as int),
        PENNY <= r <= TOP_PRICE,
{
    let step: i128 = if tick <= MD_NANO {
        MD_NANO as i128
    } else {
        PENNY as i128
    };
    let p: i128 = div_even(x, step) * step;
    if p < PENNY as i128 {
        PENNY
    } else if p > TOP_PRICE as i128 {
        TOP_PRICE
    } else {
        p as i64
    }
}

/// The contracts of a bid.
pub fn bid_size(bid: i64, mm: &MmParams) -> (r: i64)
    ensures
        r == bid_size_of(bid as int, *mm),
{
    if bid as i128 >= NANO as i128 - mm.extreme_band as i128 {
        mm.extreme_quote_size
    } else {
        1
    }
}

/// The contracts of an ask.
pub fn ask_size(ask: i64, mm: &MmParams) -> (r: i64)
    ensures
        r == ask_size_of(ask as int, *mm),
{
    if ask <= mm.extreme_band {
        mm.extreme_quote_size
    } else {
        1
    }
}

/// The price of an order in tenths of a cent.
fn to_order_price(x: i64, tick: i64) -> (r: i64)
    ensures
        r == order_price(x as int, tick as int),
{
    if tick <= MD_NANO {
        div_even(x as i128, MD_NANO as i128) as i64
    } else {
        (div_away(x as i128, PENNY as i128) * 10) as i64
    }
}

/// The distance between two prices.
fn distance(a: i64, b: i64) -> (r: i128)
    ensures
        r == magnitude(a - b),
{
    let d: i128 = a as i128 - b as i128;
    if d < 0 {
        -d
    } else {
        d
    }
}

/// The quotes that may rest in the book.
fn find_quotes(action: [i64; 2], fv_shift: i64, book: &Book, tick: i64, mm: &MmParams) -> (r: Option<
    (i64, i64),
>)
    requires
        book.valid(),
    ensures
        match r {
            Some((b, a)) => quotes_for(action@, fv_shift as int, *book, tick as int, *mm) == Some(
                (b as int, a as int),
            ),
            None => quotes_for(action@, fv_shift as int, *book, tick as int, *mm) is None,
        },
{
    let (best_bid, best_ask) = match (book.best_bid(), book.best_ask()) {
        (Some(b), Some(a)) => (b, a),
        _ => {
            return None;
        },
    };
    let mid: i64 = match book.mid() {
        Some(m) => m,
        None => {
            return None;
        },
    };
    let (half, skew) = scale_action(action);
    let step: i128 = if tick <= MD_NANO && mm.subpenny_enabled {
        MD_NANO as i128
    } else {
        0
    };
    let center: i128 = mid as i128 + fv_shift as i128;
    let our_bid: i64 = snap(center - half as i128 + skew as i128 + step, tick);
    let our_ask: i64 = snap(center + half as i128 + skew as i128 - step, tick);
    if our_ask <= our_bid {
        return None;
    }
    match clamp_quotes(our_bid, our_ask, best_bid, best_ask, tick) {
        Some((bid, ask)) => {
            if quote_edge_ok(bid, ask, mm.maker_fee_rate, 1, mm.min_quote_edge) {
                Some((bid, ask))
            } else {
                None
            }
        },
        None => None,
    }
}

/// The quote plan for one market, with the quotes moved by a spot shift. The
/// throttle comes first and starts its clock even where a later barrier is
/// closed.
pub fn plan_quotes_with_shift(
    action: [i64; 2],
    fv_shift: i64,
    ts: &mut TickerState,
    mm: &MmParams,
    max_inventory: i64,
    open_order_count: u64,
    balance_backoff_until: i64,
    now_mono: i64,
) -> (r: Option<QuotePlan>)
    ensures
        match r {
            Some(plan) => planned(
                action@,
                fv_shift as int,
                *old(ts),
                *mm,
                max_inventory as int,
                open_order_count as int,
                balance_backoff_until as int,
                now_mono as int,
            ) == Some(plan@),
            None => planned(
                action@,
                fv_shift as int,
                *old(ts),
                *mm,
                max_inventory as int,
                open_order_count as int,
                balance_backoff_until as int,
                now_mono as int,
            ) is None,
        },
        throttled(*old(ts), now_mono as int) ==> *final(ts) == *old(ts),
        !throttled(*old(ts), now_mono as int) ==> *final(ts) == (TickerState {
            last_quote_time: now_mono,
            ..*old(ts)
        }),
{
    if (now_mono as i128 - ts.last_quote_time as i128) < THROTTLE as i128 {
        return None;
    }
    ts.last_quote_time = now_mono;
    if now_mono < balance_backoff_until {
        return None;
    }
    let mid: i64 = match ts.book.mid() {
        Some(m) => m,
        None => {
            return None;
        },
    };
    if mid < mm.quote_band_lo || mid > mm.quote_band_hi {
        return None;
    }
    if open_order_count >= mm.max_open_orders && !ts.ever_quoted {
        return None;
    }
    let (bid, ask) = match find_quotes(action, fv_shift, &ts.book, ts.tick, mm) {
        Some(quotes) => quotes,
        None => {
            return None;
        },
    };
    match (ts.quoted_bid, ts.quoted_ask) {
        (Some(qb), Some(qa)) => {
            if ts.bid_order_id.is_some() && ts.ask_order_id.is_some() && distance(qb, bid) * 1000
                < ts.tick as i128 * 999 && distance(qa, ask) * 1000 < ts.tick as i128 * 999 {
                return None;
            }
        },
        _ => {},
    }
    let mut cancel_ids: Vec<String> = Vec::new();
    match &ts.bid_order_id {
        Some(id) => cancel_ids.push(id.clone()),
        None => {},
    }
    match &ts.ask_order_id {
        Some(id) => cancel_ids.push(id.clone()),
        None => {},
    }
    let longer: i128 = ts.position as i128 + bid_size(bid, mm) as i128;
    let shorter: i128 = ts.position as i128 - ask_size(ask, mm) as i128;
    let plan = QuotePlan {
        bid_cents: to_order_price(bid, ts.tick),
        ask_cents: to_order_price(ask, ts.tick),
        place_bid: -(max_inventory as i128) <= longer && longer <= max_inventory as i128,
        place_ask: -(max_inventory as i128) <= shorter && shorter <= max_inventory as i128,
        cancel_ids,
        quoted_bid: bid,
        quoted_ask: ask,
    };
    assert(plan@.cancel_ids =~= resting_ids(*ts));
    Some(plan)
}

/// The quote plan for one market.
pub fn plan_quotes(
    action: [i64; 2],
    ts: &mut TickerState,
    mm: &MmParams,
    max_inventory: i64,
    open_order_count: u64,
    balance_backoff_until: i64,
    now_mono: i64,
) -> (r: Option<QuotePlan>)
    ensures
        match r {
            Some(plan) => planned(
                action@,
                0,
                *old(ts),
                *mm,
                max_inventory as int,
                open_order_count as int,
                balance_backoff_until as int,
                now_mono as int,
            ) == Some(plan@),
            None => planned(
                action@,
                0,
                *old(ts),
                *mm,
                max_inventory as int,
                open_order_count as int,
                balance_backoff_until as int,
                now_mono as int,
            ) is None,
        },
        throttled(*old(ts), now_mono as int) ==> *final(ts) == *old(ts),
        !throttled(*old(ts), now_mono as int) ==> *final(ts) == (TickerState {
            last_quote_time: now_mono,
            ..*old(ts)
        }),
{
    plan_quotes_with_shift(
        action,
        0,
        ts,
        mm,
        max_inventory,
        open_order_count,
        balance_backoff_until,
        now_mono,
    )
}

// --- exits -------------------------------------------------------------------

/// An order that crosses the book to leave a position at once.
#[derive(Debug)]
pub struct ExitPlan {
    /// "buy" or "sell".
    pub side: &'static str,
    /// The price in tenths of a cent.
    pub price_cents: i64,
    pub size: i64,
    /// "STOP-LOSS", "EXPIRY" or "SPOT-ADVERSE".
    pub reason: &'static str,
}

/// The exit at the touch: a long position is sold at the bid, a short one is
/// bought back at the ask, in full.
pub open spec fn exit_at_touch(ts: TickerState, reason: &'static str) -> ExitPlan {
    ExitPlan {
        side: if ts.position > 0 {
            "sell"
        } else {
            "buy"
        },
        price_cents: if ts.position > 0 {
            ts.book.bid() as i64
        } else {
            ts.book.ask() as i64
        },
        size: clamp64(magnitude(ts.position as int)) as i64,
        reason,
    }
}

/// The loss per contract from which a position is stopped: the floor, or
/// twice the spread where that is wider.
pub open spec fn stop_threshold(book: Book) -> int {
    let wide = 2 * (book.ask() - book.bid()) * MD_NANO;
    if wide > STOP_LOSS_FLOOR {
        wide
    } else {
        STOP_LOSS_FLOOR as int
    }
}

/// The midpoint has moved against the position by the threshold or more.
pub open spec fn stop_triggered(ts: TickerState, entry: int) -> bool {
    let against = if ts.position > 0 {
        entry - ts.book.middle()
    } else {
        ts.book.middle() - entry
    };
    against > 0 && against >= stop_threshold(ts.book)
}

/// The market closes within the buffer.
pub open spec fn expiry_triggered(ts: TickerState, now: int) -> bool {
    match ts.close_time_s {
        Some(close) => close - now < EXPIRY_BUFFER,
        None => false,
    }
}

/// The exit that a position calls for, if any. A position whose entry price
/// is not known, or whose book is not valid, calls for none.
pub open spec fn exit_for(ts: TickerState, now: int) -> Option<ExitPlan> {
    match ts.entry_price {
        Some(entry) => if ts.position == 0 || !ts.book.valid() {
            None
        } else if stop_triggered(ts, entry as int) {
            Some(exit_at_touch(ts, "STOP-LOSS"))
        } else if expiry_triggered(ts, now) {
            Some(exit_at_touch(ts, "EXPIRY"))
        } else {
            None
        },
        None => None,
    }
}

/// The exit that a spot move calls for: the shift of the fair value is
/// against the position by the threshold or more.
pub open spec fn spot_exit_for(ts: TickerState, shift: int, unwind_shift: int) -> Option<
    ExitPlan,
> {
    if ts.position == 0 || !ts.book.valid() {
        None
    } else if (ts.position > 0 && shift <= -unwind_shift) || (ts.position < 0 && shift
        >= unwind_shift) {
        Some(exit_at_touch(ts, "SPOT-ADVERSE"))
    } else {
        None
    }
}

/// The exit at the touch.
fn leave_at_touch(ts: &TickerState, reason: &'static str) -> (r: ExitPlan)
    requires
        ts.book.valid(),
        ts.position != 0,
    ensures
        r == exit_at_touch(*ts, reason),
{
    let bid: u32 = match ts.book.best_bid_md() {
        Some(p) => p,
        None => 0,
    };
    let ask: u32 = match ts.book.best_ask_md() {
        Some(p) => p,
        None => 0,
    };
    if ts.position > 0 {
        ExitPlan { side: "sell", price_cents: bid as i64, size: ts.position, reason }
    } else {
        ExitPlan {
            side: "buy",
            price_cents: ask as i64,
            size: to_i64(abs64(ts.position)),
            reason,
        }
    }
}

/// Stop loss and expiry of one position.
pub fn exit_decision(ts: &TickerState, now_s: i64) -> (r: Option<ExitPlan>)
    ensures
        r == exit_for(*ts, now_s as int),
{
    if ts.position == 0 {
        return None;
    }
    let entry: i64 = match ts.entry_price {
        Some(e) => e,
        None => {
            return None;
        },
    };
    let (mid, spread) = match (ts.book.mid(), ts.book.spread()) {
        (Some(m), Some(s)) => (m, s),
        _ => {
            return None;
        },
    };
    let wide: i128 = 2 * spread as i128;
    let threshold: i128 = if wide > STOP_LOSS_FLOOR as i128 {
        wide
    } else {
        STOP_LOSS_FLOOR as i128
    };
    let against: i128 = if ts.position > 0 {
        entry as i128 - mid as i128
    } else {
        mid as i128 - entry as i128
    };
    if against > 0 && against >= threshold {
        return Some(leave_at_touch(ts, "STOP-LOSS"));
    }
    let expires = match ts.close_time_s {
        Some(close) => (close as i128 - now_s as i128) < EXPIRY_BUFFER as i128,
        None => false,
    };
    if expires {
        return Some(leave_at_touch(ts, "EXPIRY"));
    }
    None
}

/// Leaves a position that the spot price has moved against, while the book
/// still shows the old price.
pub fn spot_unwind_decision(ts: &TickerState, fv_shift: i64, unwind_shift: i64) -> (r: Option<
    ExitPlan,
>)
    ensures
        r == spot_exit_for(*ts, fv_shift as int, unwind_shift as int),
{
    if ts.position == 0 || !ts.book.is_valid() {
        return None;
    }
    let adverse = if ts.position > 0 {
        fv_shift as i128 <= -(unwind_shift as i128)
    } else {
        fv_shift >= unwind_shift
    };
    if adverse {
        Some(leave_at_touch(ts, "SPOT-ADVERSE"))
    } else {
        None
    }
}

// --- limits ------------------------------------------------------------------

/// Whether quotes may be sent, and the reason where all trading must halt.
/// The loss limits halt; the limit on positions only blocks new quotes.
pub open spec fn risk_of(state: TraderState, live: LiveConfig, active: Option<&Table<()>>) -> (
    bool,
    Option<&'static str>,
) {
    if state.daily_pnl <= -live.max_daily_loss {
        (false, Some("Daily loss limit"))
    } else if state.cumulative_pnl <= live.stop_loss_threshold {
        (false, Some("Stop loss"))
    } else if locked_in(
        state.tickers.keys(),
        state.tickers.values(),
        active,
        state.tickers.keys().len() as int,
    ) >= live.max_position_value {
        (false, None)
    } else {
        (true, None)
    }
}

/// The account's limits.
pub fn check_risk_limits(state: &TraderState, live: &LiveConfig, active: Option<&Table<()>>) -> (r: (
    bool,
    Option<&'static str>,
))
    requires
        state.wf(),
        active matches Some(names) ==> names.wf(),
    ensures
        r == risk_of(*state, *live, active),
{
    if state.daily_pnl <= -(live.max_daily_loss as i128) {
        return (false, Some("Daily loss limit"));
    }
    if state.cumulative_pnl <= live.stop_loss_threshold as i128 {
        return (false, Some("Stop loss"));
    }
    if state.position_value(active) >= live.max_position_value as i128 {
        return (false, None);
    }
    (true, None)
}

// --- laws --------------------------------------------------------------------

/// The least step above a tenth of a cent from which rounding to whole cents
/// keeps an order inside the touch, in billionths of a dollar.
pub const SAFE_STEP: i64 = 5_050_000;

/// The same for steps up to a tenth of a cent.
pub const SAFE_SUBPENNY_STEP: i64 = 550_000;

/// A planned quote never takes: where the step is more than half of a
/// ten-thousandth, the two quotes do not cross each other nor the touch, and
/// with a step in ten-thousandths they stay a full step away from it. Orders
/// are rounded once more; at a step of more than half a cent, or of more than
/// half a tenth of one where the market has tenths, each with a margin, they
/// stay inside the touch too.
pub proof fn law_plan_is_passive(
    action: Seq<i64>,
    shift: int,
    ts: TickerState,
    mm: MmParams,
    max_inventory: int,
    open_orders: int,
    backoff_until: int,
    now: int,
)
    requires
        50_000 < ts.tick,
        ts.book.bid() * MD_NANO + ts.tick <= i64::MAX,
        planned(action, shift, ts, mm, max_inventory, open_orders, backoff_until, now) is Some,
    ensures
        ({
            let plan = planned(
                action,
                shift,
                ts,
                mm,
                max_inventory,
                open_orders,
                backoff_until,
                now,
            )->Some_0;
            &&& plan.quoted_bid < plan.quoted_ask
            &&& plan.quoted_bid < ts.book.ask() * MD_NANO
            &&& plan.quoted_ask > ts.book.bid() * MD_NANO
            &&& ts.tick % 100_000 == 0 ==> {
                &&& plan.quoted_bid <= ts.book.ask() * MD_NANO - ts.tick
                &&& plan.quoted_ask >= ts.book.bid() * MD_NANO + ts.tick
            }
            &&& ts.tick > SAFE_STEP || SAFE_SUBPENNY_STEP < ts.tick <= MD_NANO ==> {
                &&& plan.bid_cents < ts.book.ask()
                &&& plan.ask_cents > ts.book.bid()
            }
        }),
{
    let book = ts.book;
    let tick = ts.tick as int;
    let b = wanted_bid(action, book.middle() + shift, tick, mm);
    let a = wanted_ask(action, book.middle() + shift, tick, mm);
    crate::book::law_clamped_quotes_are_passive(
        b as i64,
        a as i64,
        (book.bid() * MD_NANO) as i64,
        (book.ask() * MD_NANO) as i64,
        ts.tick,
    );
}

/// Once quotes were considered, none are planned before the throttle has
/// run, whatever else changed.
pub proof fn law_throttle(
    action: Seq<i64>,
    shift: int,
    ts: TickerState,
    mm: MmParams,
    max_inventory: int,
    open_orders: int,
    backoff_until: int,
    first: i64,
    now: int,
)
    requires
        now < first + THROTTLE,
    ensures
        planned(
            action,
            shift,
            TickerState { last_quote_time: first, ..ts },
            mm,
            max_inventory,
            open_orders,
            backoff_until,
            now,
        ) is None,
{
}

/// A planned side keeps the inventory within its cap when it fills, and a
/// plan earns more than its fees and the least edge per contract.
pub proof fn law_plan_respects_caps_and_fees(
    action: Seq<i64>,
    shift: int,
    ts: TickerState,
    mm: MmParams,
    max_inventory: int,
    open_orders: int,
    backoff_until: int,
    now: int,
)
    requires
        planned(action, shift, ts, mm, max_inventory, open_orders, backoff_until, now) is Some,
    ensures
        ({
            let plan = planned(
                action,
                shift,
                ts,
                mm,
                max_inventory,
                open_orders,
                backoff_until,
                now,
            )->Some_0;
            &&& plan.place_bid ==> magnitude(
                moved(ts.position as int, true, bid_size_of(plan.quoted_bid, mm)),
            ) <= max_inventory
            &&& plan.place_ask ==> magnitude(
                moved(ts.position as int, false, ask_size_of(plan.quoted_ask, mm)),
            ) <= max_inventory
            &&& plan.quoted_ask - plan.quoted_bid > round_trip_cost(
                plan.quoted_bid,
                plan.quoted_ask,
                mm.maker_fee_rate as int,
                1,
                mm.min_quote_edge as int,
            )
        }),
{
    let (bid, ask) = quotes_for(action, shift, ts.book, ts.tick as int, mm)->Some_0;
    crate::book::law_edge_beats_costs(bid as i64, ask as i64, mm.maker_fee_rate, 1, mm.min_quote_edge);
}

/// Quotes lean with the shift: a higher shift never lowers a quote that the
/// action asks for.
pub proof fn law_quotes_lean_with_the_shift(
    action: Seq<i64>,
    mid: int,
    low: int,
    high: int,
    tick: int,
    mm: MmParams,
)
    requires
        low <= high,
    ensures
        wanted_bid(action, mid + low, tick, mm) <= wanted_bid(action, mid + high, tick, mm),
        wanted_ask(action, mid + low, tick, mm) <= wanted_ask(action, mid + high, tick, mm),
{
    let down = half_spread_of(action[0] as int);
    let skew = skew_of(action[1] as int);
    let step = queue_step(tick, mm);
    lemma_snapped_monotone(mid + low - down + skew + step, mid + high - down + skew + step, tick);
    lemma_snapped_monotone(mid + low + down + skew - step, mid + high + down + skew - step, tick);
}

proof fn lemma_snapped_monotone(x: int, y: int, tick: int)
    requires
        x <= y,
    ensures
        snapped(x, tick) <= snapped(y, tick),
{
    lemma_round_even_monotone(x, y, MD_NANO as int);
    lemma_round_even_monotone(x, y, PENNY as int);
}

/// An exit that fills leaves the market flat.
pub proof fn law_exit_flattens(ts: TickerState, reason: &'static str)
    requires
        ts.position != 0,
        ts.position > i64::MIN,
    ensures
        moved(
            ts.position as int,
            exit_at_touch(ts, reason).side@ == "buy"@,
            exit_at_touch(ts, reason).size as int,
        ) == 0,
{
    reveal_strlit("buy");
    reveal_strlit("sell");
    assert("buy"@.len() == 3 && "sell"@.len() == 4);
}

/// A stop never fires on a position that the midpoint is not against, nor on
/// a move within the spread's noise.
pub proof fn law_stop_needs_a_real_loss(ts: TickerState, entry: int)
    requires
        ts.book.valid(),
        stop_triggered(ts, entry),
    ensures
        ts.position > 0 ==> ts.book.middle() <= entry - STOP_LOSS_FLOOR,
        ts.position < 0 ==> ts.book.middle() >= entry + STOP_LOSS_FLOOR,
        magnitude(ts.book.middle() - entry) >= 2 * (ts.book.ask() - ts.book.bid()) * MD_NANO,
{
}

/// Losing more never reopens trading: where an account is halted, one with
/// the same markets and smaller profits is halted too.
pub proof fn law_limits_are_monotone(a: TraderState, b: TraderState, live: LiveConfig, active: Option<
    &Table<()>,
>)
    requires
        b.tickers == a.tickers,
        b.daily_pnl <= a.daily_pnl,
        b.cumulative_pnl <= a.cumulative_pnl,
    ensures
        risk_of(a, live, active).1 is Some ==> risk_of(b, live, active).1 is Some,
        risk_of(b, live, active).0 ==> risk_of(a, live, active).0,
{
}

/// What halts all trading is a loss, the day's before the total: the markets do
/// not matter for it. Reaching the limit on positions only blocks quotes.
pub proof fn law_only_losses_halt(
    a: TraderState,
    b: TraderState,
    live: LiveConfig,
    active: Option<&Table<()>>,
)
    requires
        a.daily_pnl == b.daily_pnl,
        a.cumulative_pnl == b.cumulative_pnl,
    ensures
        risk_of(a, live, active).1 == risk_of(b, live, active).1,
        ({
            let (quoting, halt) = risk_of(a, live, active);
            let day = a.daily_pnl <= -live.max_daily_loss;
            let all = a.cumulative_pnl <= live.stop_loss_threshold;
            &&& halt is Some <==> day || all
            &&& day ==> halt == Some("Daily loss limit")
            &&& all && !day ==> halt == Some("Stop loss")
            &&& halt is Some ==> !quoting
        }),
{
}

/// The capital locked in a market; none in a market that is not there.
pub open spec fn held_in(markets: Table<TickerState>, key: Seq<char>) -> int {
    match markets.find(key) {
        Some(ts) => locked(ts),
        None => 0,
    }
}

/// The active ones of some names, in their order.
pub open spec fn active_among(names: Seq<Seq<char>>, active: Option<&Table<()>>) -> Seq<Seq<char>>
    decreases names.len(),
{
    if names.len() == 0 {
        seq![]
    } else {
        let before = active_among(names.drop_last(), active);
        if is_active(active, names.last()) {
            before.push(names.last())
        } else {
            before
        }
    }
}

/// No sum over the active markets leaves the range.
pub open spec fn sums_fit(markets: Table<TickerState>, active: Option<&Table<()>>) -> bool {
    forall|n: int|
        0 <= n < markets.keys().len() && is_active(active, #[trigger] markets.keys()[n])
            ==> i128::MIN <= locked_in(markets.keys(), markets.values(), active, n) + locked(
            markets.values()[n],
        ) <= i128::MAX
}

/// The sum of some names' weights, each sum kept in the range.
spec fn kept_sum(names: Seq<Seq<char>>, weight: spec_fn(Seq<char>) -> int) -> int
    decreases names.len(),
{
    if names.len() == 0 {
        0
    } else {
        clamp128(kept_sum(names.drop_last(), weight) + weight(names.last()))
    }
}

/// The sum of some names' weights.
spec fn plain_sum(names: Seq<Seq<char>>, weight: spec_fn(Seq<char>) -> int) -> int
    decreases names.len(),
{
    if names.len() == 0 {
        0
    } else {
        plain_sum(names.drop_last(), weight) + weight(names.last())
    }
}

/// Sums over names go by the weights of those names.
proof fn lemma_sums_agree(
    names: Seq<Seq<char>>,
    f: spec_fn(Seq<char>) -> int,
    g: spec_fn(Seq<char>) -> int,
)
    requires
        forall|i: int| 0 <= i < names.len() ==> f(#[trigger] names[i]) == g(names[i]),
    ensures
        kept_sum(names, f) == kept_sum(names, g),
        plain_sum(names, f) == plain_sum(names, g),
    decreases names.len(),
{
    if names.len() > 0 {
        let rest = names.drop_last();
        assert forall|i: int| 0 <= i < rest.len() implies f(#[trigger] rest[i]) == g(rest[i]) by {
            assert(f(names[i]) == g(names[i]));
        }
        lemma_sums_agree(rest, f, g);
        assert(f(names[names.len() - 1]) == g(names[names.len() - 1]));
    }
}

/// A name adds its weight, wherever it stands.
proof fn lemma_sum_without(names: Seq<Seq<char>>, i: int, weight: spec_fn(Seq<char>) -> int)
    requires
        0 <= i < names.len(),
    ensures
        plain_sum(names, weight) == plain_sum(names.remove(i), weight) + weight(names[i]),
    decreases names.len(),
{
    if i == names.len() - 1 {
        assert(names.remove(i) =~= names.drop_last());
    } else {
        lemma_sum_without(names.drop_last(), i, weight);
        assert(names.remove(i).drop_last() =~= names.drop_last().remove(i));
        assert(names.remove(i).last() == names.last());
    }
}

/// Two lists of names have the same sum, in whatever order they come, when the
/// names that stand in only one of them weigh nothing.
proof fn lemma_sum_ignores_order(
    a: Seq<Seq<char>>,
    b: Seq<Seq<char>>,
    weight: spec_fn(Seq<char>) -> int,
)
    requires
        a.no_duplicates(),
        b.no_duplicates(),
        forall|k: Seq<char>| #[trigger] a.contains(k) && !b.contains(k) ==> weight(k) == 0,
        forall|k: Seq<char>| #[trigger] b.contains(k) && !a.contains(k) ==> weight(k) == 0,
    ensures
        plain_sum(a, weight) == plain_sum(b, weight),
    decreases a.len() + b.len(),
{
    if a.len() > 0 {
        let x = a.last();
        let rest = a.drop_last();
        assert(a[a.len() - 1] == x);
        assert(a.contains(x));
        assert forall|k: Seq<char>| rest.contains(k) == (a.contains(k) && k != x) by {
            if rest.contains(k) {
                let i = choose|i: int| 0 <= i < rest.len() && rest[i] == k;
                assert(a[i] == k);
            }
            if a.contains(k) && k != x {
                let i = choose|i: int| 0 <= i < a.len() && a[i] == k;
                assert(rest[i] == k);
            }
        }
        if b.contains(x) {
            let j = choose|j: int| 0 <= j < b.len() && b[j] == x;
            let fewer = b.remove(j);
            assert forall|k: Seq<char>| fewer.contains(k) == (b.contains(k) && k != x) by {
                if fewer.contains(k) {
                    let i = choose|i: int| 0 <= i < fewer.len() && fewer[i] == k;
                    let i0 = if i < j { i } else { i + 1 };
                    assert(b[i0] == k);
                }
                if b.contains(k) && k != x {
                    let i = choose|i: int| 0 <= i < b.len() && b[i] == k;
                    let i0 = if i < j { i } else { i - 1 };
                    assert(fewer[i0] == k);
                }
            }
            lemma_sum_without(b, j, weight);
            lemma_sum_ignores_order(rest, fewer, weight);
        } else {
            assert forall|k: Seq<char>| #[trigger] b.contains(k) && !rest.contains(k) implies weight(
                k,
            ) == 0 by {
                assert(!a.contains(k));
            }
            lemma_sum_ignores_order(rest, b, weight);
        }
    } else if b.len() > 0 {
        let x = b.last();
        let rest = b.drop_last();
        assert(b[b.len() - 1] == x);
        assert(b.contains(x));
        assert(!a.contains(x));
        assert forall|k: Seq<char>| #[trigger] rest.contains(k) && !a.contains(k) implies weight(k)
            == 0 by {
            let i = choose|i: int| 0 <= i < rest.len() && rest[i] == k;
            assert(b[i] == k);
            assert(b.contains(k));
        }
        lemma_sum_ignores_order(a, rest, weight);
    }
}

/// The active names of a table do not repeat, and are those names of it that
/// are active.
proof fn lemma_active_among(names: Seq<Seq<char>>, active: Option<&Table<()>>)
    requires
        names.no_duplicates(),
    ensures
        active_among(names, active).no_duplicates(),
        forall|k: Seq<char>| #[trigger]
            active_among(names, active).contains(k) <==> names.contains(k) && is_active(active, k),
    decreases names.len(),
{
    let out = active_among(names, active);
    if names.len() > 0 {
        let rest = names.drop_last();
        let x = names.last();
        let before = active_among(rest, active);
        lemma_active_among(rest, active);
        assert(names[names.len() - 1] == x);
        assert(!rest.contains(x));
        assert forall|k: Seq<char>| #[trigger] out.contains(k) <==> names.contains(k) && is_active(
            active,
            k,
        ) by {
            if out.contains(k) {
                let i = choose|i: int| 0 <= i < out.len() && out[i] == k;
                if i < before.len() {
                    assert(before[i] == k);
                    assert(before.contains(k));
                    let j = choose|j: int| 0 <= j < rest.len() && rest[j] == k;
                    assert(names[j] == k);
                }
            }
            if names.contains(k) && is_active(active, k) {
                let j = choose|j: int| 0 <= j < names.len() && names[j] == k;
                if j < rest.len() {
                    assert(rest[j] == k);
                    assert(before.contains(k));
                    let i = choose|i: int| 0 <= i < before.len() && before[i] == k;
                    assert(out[i] == k);
                } else {
                    assert(out[out.len() - 1] == k);
                }
            }
        }
        assert forall|i: int, j: int| 0 <= i < j < out.len() implies out[i] != out[j] by {
            assert(before[i] == out[i]);
            assert(before.contains(before[i]));
            if j < before.len() {
                assert(before[j] == out[j]);
            }
        }
    }
}

/// The capital locked in active markets is the sum over their names.
proof fn lemma_locked_by_name(markets: Table<TickerState>, active: Option<&Table<()>>, n: int)
    requires
        markets.wf(),
        0 <= n <= markets.keys().len(),
    ensures
        ({
            let names = active_among(markets.keys().take(n), active);
            let weight = |k: Seq<char>| held_in(markets, k);
            let sum = locked_in(markets.keys(), markets.values(), active, n);
            &&& sum == kept_sum(names, weight)
            &&& sums_fit(markets, active) ==> sum == plain_sum(names, weight)
            &&& i128::MIN <= sum <= i128::MAX
        }),
    decreases n,
{
    let keys = markets.keys();
    let weight = |k: Seq<char>| held_in(markets, k);
    if n > 0 {
        lemma_locked_by_name(markets, active, n - 1);
        let names = active_among(keys.take(n), active);
        let before = active_among(keys.take(n - 1), active);
        assert(keys.take(n).drop_last() =~= keys.take(n - 1));
        assert(keys.take(n).last() == keys[n - 1]);
        crate::table::lemma_at(markets, n - 1);
        let ts = markets.values()[n - 1];
        assert(weight(keys[n - 1]) == locked(ts));
        if is_active(active, keys[n - 1]) {
            assert(names.drop_last() =~= before);
            if ts.position == 0 {
                let price = ts.entry_price.unwrap_or(crate::state::HALF_DOLLAR) as int;
                let size = magnitude(ts.position as int);
                assert(size * price == 0) by (nonlinear_arith)
                    requires
                        size == 0,
                ;
            }
        }
    }
}

/// Markets outside the active set do not count: two accounts that differ only
/// there have the same limits. The order in which the active markets came does
/// not matter either where no sum leaves the range.
pub proof fn law_inactive_markets_do_not_count(
    a: TraderState,
    b: TraderState,
    live: LiveConfig,
    active: Option<&Table<()>>,
)
    requires
        a.tickers.wf(),
        b.tickers.wf(),
        a.daily_pnl == b.daily_pnl,
        a.cumulative_pnl == b.cumulative_pnl,
        forall|k: Seq<char>| #[trigger]
            is_active(active, k) ==> held_in(a.tickers, k) == held_in(b.tickers, k),
        active_among(a.tickers.keys(), active) == active_among(b.tickers.keys(), active) || (
        sums_fit(a.tickers, active) && sums_fit(b.tickers, active)),
    ensures
        risk_of(a, live, active) == risk_of(b, live, active),
{
    let p = active_among(a.tickers.keys(), active);
    let q = active_among(b.tickers.keys(), active);
    let f = |k: Seq<char>| held_in(a.tickers, k);
    let g = |k: Seq<char>| held_in(b.tickers, k);
    let m = a.tickers.keys().len() as int;
    let n = b.tickers.keys().len() as int;
    assert(a.tickers.keys().take(m) =~= a.tickers.keys());
    assert(b.tickers.keys().take(n) =~= b.tickers.keys());
    lemma_locked_by_name(a.tickers, active, m);
    lemma_locked_by_name(b.tickers, active, n);
    lemma_active_among(a.tickers.keys(), active);
    lemma_active_among(b.tickers.keys(), active);
    assert forall|i: int| 0 <= i < q.len() implies f(#[trigger] q[i]) == g(q[i]) by {
        assert(q.contains(q[i]));
        assert(is_active(active, q[i]));
    }
    lemma_sums_agree(q, f, g);
    if p != q {
        assert forall|k: Seq<char>| #[trigger] p.contains(k) && !q.contains(k) implies f(k) == 0 by {
            assert(is_active(active, k));
            assert(!b.tickers.keys().contains(k));
        }
        assert forall|k: Seq<char>| #[trigger] q.contains(k) && !p.contains(k) implies f(k) == 0 by {
            assert(is_active(active, k));
            assert(!a.tickers.keys().contains(k));
        }
        lemma_sum_ignores_order(p, q, f);
    }
}

} // verus!
