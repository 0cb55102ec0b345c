//! The trader: everything that is decided on a message, a tick of a timer or
//! an answer of the exchange. Each step takes what came in and the time, and
//! says what to send.

use vstd::prelude::*;

use crate::book::{adjusted, level_map, md_of, TakerSide, TradePrint};
use crate::config::{CategoryConfig, Config, SpotParams};
use crate::engine::{
    check_risk_limits, plan_quotes_with_shift, planned, risk_of, throttled, PlanView, QuotePlan,
    THROTTLE,
};
use crate::features::{build_observation, features_of, history_after, is_wide, too_volatile};
use crate::json::{number_at, number_of_field, Json, JsonView};
use crate::ladder::{
    known, ladder_prefix, loss_in, names_view, prefix_of, slope, slope_at, strike_of, tail_losses, down_profit,
    up_profit, Ladders, SLOPE_UNIT,
};
use crate::num::{
    clamp, clamp128, div_even, magnitude, mul128, round_even, truncate_whole, whole_part, Num, NANO,
};
use crate::replies::{list_in, parse_positions, positions_in};
use crate::spot::{gate_closed, return_over, stale, trend_gated, SpotState, GATE_WINDOW};
use crate::state::{
    fill_fee, fill_in, is_fresh, normalize_fill, streak, NormalizedFill, TickerState, TraderState,
    HALF_DOLLAR,
};
use crate::table::Table;
use crate::text::same;

verus! {

/// The shift below which an unknown slope cannot move a quote: one cent, as
/// the product of a slope in billionths and a distance in billionths.
pub const UNSEEN_SHIFT: i128 = 10_000_000_000_000_000;

/// The trader's state.
pub struct Trader {
    pub cfg: Config,
    pub state: TraderState,
    /// The category of every market that is quoted.
    pub active_tickers: Table<String>,
    pub active_set: Table<()>,
    pub running: bool,
    pub spot: SpotState,
    pub ladders: Ladders,
    /// The categories that follow a spot feed.
    pub spot_bound: Table<()>,
    /// The trend barrier is closed.
    pub spot_gate_on: bool,
    /// When a market's unwind is next considered.
    pub spot_unwind_next: Table<i64>,
    /// Until when a market that was just unwound is left alone: the fill may
    /// not be booked yet.
    pub spot_unwind_fired_until: Table<i64>,
    /// How often a vanished position has waited for its settlement.
    pub settlement_checks: Table<u32>,
}

// --- the spot defence --------------------------------------------------------

/// Markets that follow the spot price must not be quoted: the feed is stale,
/// too young, or the price moves too fast.
pub open spec fn is_gated(ticks: Seq<(i64, i64)>, spot: SpotParams, on: bool, now: int) -> bool {
    ||| stale(ticks, now, spot.stale_max_s as int)
    ||| match return_over(ticks, GATE_WINDOW as int, now) {
        Some(r) => gate_closed(
            magnitude(r),
            on,
            spot.gate_ret_60s as int,
            spot.gate_release_ratio as int,
        ),
        None => true,
    }
}

/// The mid prices of the markets with a valid book.
pub open spec fn mids_of(tickers: Table<TickerState>) -> Map<Seq<char>, i64> {
    Map::new(
        |k: Seq<char>| tickers.has(k) && tickers.at(k).book.valid(),
        |k: Seq<char>| tickers.at(k).book.middle() as i64,
    )
}

/// The shift of the fair value, given the slope and how far the spot price is
/// from its average. Without a slope the shift is unknown, unless it could
/// not reach a cent.
pub open spec fn shift_by(slope: Option<int>, dist: int, spot: SpotParams) -> Option<int> {
    match slope {
        Some(d) => Some(
            clamp(
                round_even(d * dist, SLOPE_UNIT as int),
                -spot.fv_shift_max as int,
                spot.fv_shift_max as int,
            ),
        ),
        None => if spot.delta_max * magnitude(dist) < UNSEEN_SHIFT {
            Some(0)
        } else {
            None
        },
    }
}

/// Why no plan comes of a book message, or what a policy should be asked.
pub enum BookStep {
    /// Nothing to do.
    Ignore,
    /// All trading halts, for this reason.
    Halt(&'static str),
    /// The policy is asked, with the shift and the sides that may be quoted.
    Infer { obs: [i64; 20], fv_shift: i64, allow_bid: bool, allow_ask: bool },
}

/// The positions of a ladder with the prices that they are marked at: the
/// mid, or else the entry price, or else half a dollar.
pub open spec fn marked(ts: TickerState) -> (i64, i64) {
    (
        ts.position,
        if ts.book.valid() {
            ts.book.middle() as i64
        } else {
            ts.entry_price.unwrap_or(HALF_DOLLAR)
        },
    )
}

/// The marked positions among the first `n` markets that are on a ladder.
pub open spec fn ladder_entries(
    keys: Seq<Seq<char>>,
    values: Seq<TickerState>,
    prefix: Seq<char>,
    n: int,
) -> Seq<(i64, i64)>
    decreases n,
{
    if n <= 0 {
        seq![]
    } else {
        let before = ladder_entries(keys, values, prefix, n - 1);
        if values[n - 1].position != 0 && prefix_of(keys[n - 1]) == Some(prefix) {
            before.push(marked(values[n - 1]))
        } else {
            before
        }
    }
}

/// The sides of a market that may be quoted under the cap on its ladder's
/// worst cases: bids add to the loss below all strikes, asks to the one above.
pub open spec fn tail_gate(tickers: Table<TickerState>, ticker: Seq<char>, cap: int) -> (bool, bool) {
    match prefix_of(ticker) {
        Some(prefix) => if cap <= 0 {
            (true, true)
        } else {
            let entries = ladder_entries(
                tickers.keys(),
                tickers.values(),
                prefix,
                tickers.keys().len() as int,
            );
            (loss_in(down_profit(entries)) < cap, loss_in(up_profit(entries)) < cap)
        },
        None => (true, true),
    }
}

/// A product that stopped at the end of the range clips like the exact one.
proof fn lemma_far_shift(kept: int, exact: int, edge: int)
    requires
        kept == clamp128(exact),
        0 <= edge <= i64::MAX,
    ensures
        clamp(round_even(kept, SLOPE_UNIT as int), -edge, edge) == clamp(
            round_even(exact, SLOPE_UNIT as int),
            -edge,
            edge,
        ),
{
    let unit = SLOPE_UNIT as int;
    if kept < exact {
        crate::num::lemma_round_even_monotone(i64::MAX * unit, kept, unit);
        crate::num::lemma_round_even_monotone(kept, exact, unit);
        assert(round_even(i64::MAX * unit, unit) == i64::MAX);
    } else if exact < kept {
        crate::num::lemma_round_even_monotone(kept, i64::MIN * unit, unit);
        crate::num::lemma_round_even_monotone(exact, kept, unit);
        assert(round_even(i64::MIN * unit, unit) == i64::MIN);
    }
}

impl Trader {
    /// Every part is well formed, the active markets and their set agree, and
    /// where a category follows a feed, the largest shift is not negative.
    pub open spec fn wf(&self) -> bool {
        &&& self.state.wf()
        &&& self.active_tickers.wf()
        &&& self.active_set.wf()
        &&& forall|k: Seq<char>| #[trigger]
            self.active_set.has(k) <==> self.active_tickers.has(k)
        &&& self.spot.wf()
        &&& self.ladders.wf()
        &&& self.spot_bound.wf()
        &&& self.spot_unwind_next.wf()
        &&& self.spot_unwind_fired_until.wf()
        &&& self.settlement_checks.wf()
        &&& forall|k: Seq<char>| #[trigger]
            self.spot_bound.has(k) ==> self.cfg.spot.fv_shift_max >= 0
    }

    /// The category of a market that is quoted.
    pub open spec fn category(&self, ticker: Seq<char>) -> Option<Seq<char>> {
        match self.active_tickers.find(ticker) {
            Some(c) => Some(c@),
            None => None,
        }
    }

    /// The slope at a market, read off its ladder.
    pub open spec fn slope(&self, ticker: Seq<char>) -> Option<int> {
        match strike_of(ticker) {
            Some((expiry, _)) => slope_at(
                self.ladders.ladder(expiry),
                ticker,
                self.cfg.spot.delta_max as int,
                mids_of(self.state.tickers),
            ),
            None => None,
        }
    }

    /// The shift of a market's fair value. Markets of a category without a
    /// spot feed do not shift; with a feed that has not ticked yet, the shift
    /// is not known.
    pub open spec fn shift(&self, ticker: Seq<char>, category: Seq<char>) -> Option<int> {
        if !self.spot_bound.has(category) {
            Some(0)
        } else if self.spot.ticks().len() == 0 {
            None
        } else {
            shift_by(
                self.slope(ticker),
                self.spot.ticks().last().1 - self.spot.average()->Some_0,
                self.cfg.spot,
            )
        }
    }

    /// True where categories with a spot feed must not quote now. A feed can
    /// go stale without any tick, so this is asked anew each time.
    pub fn spot_gated(&self, now_mono: i64) -> (r: bool)
        requires
            self.wf(),
        ensures
            r == is_gated(self.spot.ticks(), self.cfg.spot, self.spot_gate_on, now_mono as int),
    {
        if self.spot.is_stale(now_mono, self.cfg.spot.stale_max_s) {
            return true;
        }
        match self.spot.ret(GATE_WINDOW, now_mono) {
            Some(r) => {
                let size: i128 = if r == i128::MIN {
                    i128::MAX
                } else if r < 0 {
                    -r
                } else {
                    r
                };
                proof {
                    if r == i128::MIN {
                        lemma_far_return(
                            self.spot.ticks(),
                            GATE_WINDOW as int,
                            now_mono as int,
                        );
                    }
                }
                trend_gated(
                    size,
                    self.spot_gate_on,
                    self.cfg.spot.gate_ret_60s,
                    self.cfg.spot.gate_release_ratio,
                )
            },
            None => true,
        }
    }

    /// The mid price of a market, where its book is valid.
    fn mid_of(&self, ticker: &str) -> (r: Option<i64>)
        requires
            self.wf(),
        ensures
            r == known(mids_of(self.state.tickers), ticker@),
    {
        match self.state.tickers.get(ticker) {
            Some(ts) => ts.book.mid(),
            None => None,
        }
    }

    /// The slope at a market.
    fn slope_for(&self, ticker: &str) -> (r: Option<i128>)
        requires
            self.wf(),
        ensures
            match r {
                Some(d) => self.slope(ticker@) == Some(d as int),
                None => self.slope(ticker@) is None,
            },
    {
        match self.ladders.neighbours(ticker) {
            Some((k_lo, t_lo, k_hi, t_hi)) => match (self.mid_of(t_lo), self.mid_of(t_hi)) {
                (Some(m_lo), Some(m_hi)) => slope(
                    k_lo,
                    m_lo,
                    k_hi,
                    m_hi,
                    self.cfg.spot.delta_max,
                ),
                _ => None,
            },
            None => None,
        }
    }

    /// The shift of a market's fair value; none where it is not known and the
    /// market must not be quoted.
    pub fn fv_shift_for(&self, ticker: &str, category: &str) -> (r: Option<i64>)
        requires
            self.wf(),
        ensures
            match r {
                Some(s) => self.shift(ticker@, category@) == Some(s as int),
                None => self.shift(ticker@, category@) is None,
            },
    {
        if !self.spot_bound.contains(category) {
            return Some(0);
        }
        let (price, average) = match (self.spot.latest(), self.spot.ema()) {
            (Some(p), Some(e)) => (p, e),
            _ => {
                return None;
            },
        };
        let dist: i128 = price as i128 - average as i128;
        let edge: i64 = self.cfg.spot.fv_shift_max;
        match self.slope_for(ticker) {
            Some(d) => {
                let moved: i128 = mul128(d, dist);
                proof {
                    lemma_far_shift(moved as int, d * dist, edge as int);
                }
                let shift: i128 = div_even(moved, SLOPE_UNIT);
                if shift < -(edge as i128) {
                    Some(-edge)
                } else if shift > edge as i128 {
                    Some(edge)
                } else {
                    Some(shift as i64)
                }
            },
            None => {
                let far: i128 = if dist < 0 {
                    -dist
                } else {
                    dist
                };
                if mul128(self.cfg.spot.delta_max as i128, far) < UNSEEN_SHIFT {
                    Some(0)
                } else {
                    None
                }
            },
        }
    }

    /// The sides of a market that may be quoted under the cap on its ladder's
    /// worst cases.
    pub fn ladder_tail_gate(&self, ticker: &str) -> (r: (bool, bool))
        requires
            self.wf(),
        ensures
            r == tail_gate(
                self.state.tickers,
                ticker@,
                self.cfg.live.max_ladder_tail_loss as int,
            ),
    {
        let cap: i64 = self.cfg.live.max_ladder_tail_loss;
        let prefix = match ladder_prefix(ticker) {
            Some(p) => p,
            None => {
                return (true, true);
            },
        };
        if cap <= 0 {
            return (true, true);
        }
        let ghost keys = self.state.tickers.keys();
        let ghost values = self.state.tickers.values();
        let mut entries: Vec<(i64, i64)> = Vec::new();
        let mut i: usize = 0;
        while i < self.state.tickers.len()
            invariant
                self.wf(),
                keys == self.state.tickers.keys(),
                values == self.state.tickers.values(),
                i <= keys.len(),
                entries@ == ladder_entries(keys, values, prefix@, i as int),
            decreases keys.len() - i,
        {
            let ts = self.state.tickers.value_at(i);
            if ts.position != 0 {
                let on_ladder = match ladder_prefix(self.state.tickers.key_at(i)) {
                    Some(p) => same(p, prefix),
                    None => false,
                };
                if on_ladder {
                    let mark: i64 = match ts.book.mid() {
                        Some(m) => m,
                        None => match ts.entry_price {
                            Some(e) => e,
                            None => HALF_DOLLAR,
                        },
                    };
                    entries.push((ts.position, mark));
                }
            }
            i += 1;
        }
        let (up, down) = tail_losses(&entries);
        (down < cap as i128, up < cap as i128)
    }
}

/// A return that far below zero cannot be.
proof fn lemma_far_return(ticks: Seq<(i64, i64)>, window: int, now: int)
    requires
        forall|i: int| 0 <= i < ticks.len() ==> (#[trigger] ticks[i]).1 > 0,
        return_over(ticks, window, now) is Some,
    ensures
        return_over(ticks, window, now)->Some_0 >= -NANO,
{
    lemma_base_tick(ticks, window, now, ticks.len() as int);
    let i = crate::spot::base_tick(ticks, window, now, ticks.len() as int)->Some_0;
    let base = ticks[i].1 as int;
    let last = ticks[ticks.len() - 1].1 as int;
    assert(ticks.last().1 == last);
    crate::num::lemma_round_even_monotone(-base * NANO, (last - base) * NANO, base);
    assert(round_even(-base * NANO, base) == -NANO) by {
        assert(-base * NANO == base * -NANO) by (nonlinear_arith);
        vstd::arithmetic::div_mod::lemma_div_multiples_vanish(-NANO as int, base);
        vstd::arithmetic::div_mod::lemma_mod_multiples_basic(-NANO as int, base);
        vstd::arithmetic::mul::lemma_mul_is_commutative(base, -NANO as int);
    }
}

proof fn lemma_base_tick(ticks: Seq<(i64, i64)>, window: int, now: int, n: int)
    requires
        0 <= n <= ticks.len(),
    ensures
        crate::spot::base_tick(ticks, window, now, n) matches Some(i) ==> 0 <= i < n,
    decreases n,
{
    if n > 0 && now - ticks[n - 1].0 < window {
        lemma_base_tick(ticks, window, now, n - 1);
    }
}

// --- book messages -----------------------------------------------------------

/// The message changes one level, where it states a price and a change.
pub open spec fn is_change(msg: JsonView) -> bool {
    msg.field("price_dollars"@) is Some && msg.field("delta_fp"@) is Some
}

/// A number of a message; zero where it states none.
pub open spec fn number_or_zero(v: Option<JsonView>) -> Num {
    match number_at(v) {
        Some(n) => n,
        None => Num::Finite(0),
    }
}

/// A side of a book after a message: its levels before and after.
pub open spec fn side_after(before: Map<u32, i64>, after: Map<u32, i64>, msg: JsonView, yes: bool) -> bool {
    if is_change(msg) {
        let this_side = (crate::state::text_or_empty(msg, "side"@) == "yes"@) == yes;
        after == if this_side {
            adjusted(
                before,
                md_of(number_or_zero(msg.field("price_dollars"@))) as u32,
                number_or_zero(msg.field("delta_fp"@)),
            )
        } else {
            before
        }
    } else {
        after == crate::book::replaced(
            if yes {
                crate::book::first_field(msg, "yes_dollars_fp"@, "yes_dollars"@, "yes"@)
            } else {
                crate::book::first_field(msg, "no_dollars_fp"@, "no_dollars"@, "no"@)
            },
            before,
        )
    }
}

/// A book after a message.
pub open spec fn book_after(before: crate::book::Book, after: crate::book::Book, msg: JsonView) -> bool {
    &&& after.wf()
    &&& side_after(level_map(before.yes()), level_map(after.yes()), msg, true)
    &&& side_after(level_map(before.no()), level_map(after.no()), msg, false)
}

/// Takes a message into a book.
fn fold_message(book: &mut crate::book::Book, msg: &Json)
    requires
        old(book).wf(),
    ensures
        book_after(*old(book), *final(book), msg@),
{
    if msg.get("price_dollars").is_some() && msg.get("delta_fp").is_some() {
        let side = match msg.get_text("side") {
            Some(s) => s,
            None => {
                proof {
                    reveal_strlit("");
                    assert(""@ =~= Seq::<char>::empty());
                }
                ""
            },
        };
        let price = match number_of_field(msg.get("price_dollars")) {
            Some(n) => n,
            None => Num::Finite(0),
        };
        let change = match number_of_field(msg.get("delta_fp")) {
            Some(n) => n,
            None => Num::Finite(0),
        };
        book.apply_delta(side, price, change);
    } else {
        book.load_snapshot(msg);
    }
}

/// The trader before and after a message went into a market's book.
pub open spec fn folded_into(before: Trader, after: Trader, ticker: Seq<char>, msg: JsonView) -> bool {
    let ts = after.state.tickers.at(ticker);
    &&& after.wf()
    &&& after.state.tickers.has(ticker)
    &&& after.state.tickers@ == before.state.tickers@.insert(ticker, ts)
    &&& after == (Trader {
        state: TraderState { tickers: after.state.tickers, ..before.state },
        ..before
    })
    &&& exists|base: TickerState|
        {
            &&& if before.state.tickers.has(ticker) {
                base == before.state.tickers.at(ticker)
            } else {
                is_fresh(base, before.category(ticker)->Some_0)
            }
            &&& #[trigger] book_after(base.book, ts.book, msg)
            &&& ts == (TickerState { book: ts.book, ..base })
        }
}

/// What the barriers in front of a policy say.
pub enum Gate {
    Ignore,
    Halt(&'static str),
    Ask(int),
}

/// The barriers in front of a policy, in order: a valid book, the throttle, the
/// category's halt, the account's limits, and the spot defence.
pub open spec fn gate_of(t: Trader, ticker: Seq<char>, category: Seq<char>, now: int) -> Gate {
    let ts = t.state.tickers.at(ticker);
    let risk = risk_of(t.state, t.cfg.live, Some(&t.active_set));
    if !ts.book.valid() || throttled(ts, now) || t.state.halted_categories.has(category) {
        Gate::Ignore
    } else if risk.1 is Some {
        Gate::Halt(risk.1->Some_0)
    } else if !risk.0 {
        Gate::Ignore
    } else if t.spot_bound.has(category) && is_gated(
        t.spot.ticks(),
        t.cfg.spot,
        t.spot_gate_on,
        now,
    ) {
        Gate::Ignore
    } else {
        match t.shift(ticker, category) {
            Some(s) => Gate::Ask(s),
            None => Gate::Ignore,
        }
    }
}

/// One market of the trader was replaced and nothing else changed.
pub open spec fn with_market(before: Trader, after: Trader, ticker: Seq<char>, ts: TickerState) -> bool {
    &&& after.state.tickers.keys() == before.state.tickers.keys()
    &&& after.state.tickers.values() == before.state.tickers.values().update(
        before.state.tickers.keys().index_of(ticker),
        ts,
    )
    &&& after == (Trader {
        state: TraderState { tickers: after.state.tickers, ..before.state },
        ..before
    })
}

/// The outcome of the decision on a book, and the trader after it.
pub open spec fn decided(
    before: Trader,
    after: Trader,
    ticker: Seq<char>,
    category: Seq<char>,
    now_s: int,
    now_mono: i64,
    step: BookStep,
) -> bool {
    let ts = before.state.tickers.at(ticker);
    let hist = history_after(ts, now_mono as int);
    let trades = crate::book::fresh(ts.recent_trades@, now_s);
    match gate_of(before, ticker, category, now_mono as int) {
        Gate::Ignore => step is Ignore && after == before,
        Gate::Halt(reason) => step == BookStep::Halt(reason) && after == (Trader {
            running: false,
            ..before
        }),
        Gate::Ask(shift) => if is_wide(ts) {
            step is Ignore && with_market(before, after, ticker, ts)
        } else {
            let seen = after.state.tickers.at(ticker);
            &&& with_market(before, after, ticker, seen)
            &&& seen.mid_history@ == hist
            &&& seen == (TickerState {
                mid_history: seen.mid_history,
                last_mid_sample: if crate::book::opens_window(
                    ts.mid_history@,
                    ts.last_mid_sample as int,
                    now_mono as int,
                ) {
                    now_mono
                } else {
                    ts.last_mid_sample
                },
                recent_trades: seen.recent_trades,
                ..ts
            })
            &&& if too_volatile(hist, before.cfg.mm.vol_filter_threshold as int) {
                step is Ignore && seen.recent_trades == ts.recent_trades
            } else {
                let sides = tail_gate(
                    before.state.tickers,
                    ticker,
                    before.cfg.live.max_ladder_tail_loss as int,
                );
                &&& seen.recent_trades@ == trades
                &&& step matches BookStep::Infer { obs, fv_shift, allow_bid, allow_ask }
                &&& obs@.map_values(|x: i64| x as int) == features_of(
                    ts,
                    hist,
                    trades,
                    before.cfg.mm,
                    now_s,
                )
                &&& fv_shift == shift
                &&& allow_bid == sides.0
                &&& allow_ask == sides.1
            }
        },
    }
}

/// The inventory cap of a category: that of the last entry of its name, or
/// five where there is none.
pub open spec fn inventory_cap(categories: Seq<CategoryConfig>, name: Seq<char>) -> i64
    decreases categories.len(),
{
    if categories.len() == 0 {
        5
    } else if categories.last().name@ == name {
        categories.last().max_inventory
    } else {
        inventory_cap(categories.drop_last(), name)
    }
}

/// A plan with the sides that the ladder's cap allows.
pub open spec fn with_sides(plan: PlanView, allow_bid: bool, allow_ask: bool) -> PlanView {
    PlanView {
        place_bid: plan.place_bid && allow_bid,
        place_ask: plan.place_ask && allow_ask,
        ..plan
    }
}

/// Replacing the value of one market keeps a state well formed.
pub proof fn lemma_market_wf(before: TraderState, after: TraderState, ticker: Seq<char>, ts: TickerState)
    requires
        before.wf(),
        before.tickers.has(ticker),
        ts.wf(),
        after.tickers.keys() == before.tickers.keys(),
        after.tickers.values() == before.tickers.values().update(
            before.tickers.keys().index_of(ticker),
            ts,
        ),
        after == (TraderState { tickers: after.tickers, ..before }),
    ensures
        after.wf(),
        after.tickers.at(ticker) == ts,
        after.tickers@ == before.tickers@.insert(ticker, ts),
{
    crate::table::lemma_same_keys(before.tickers, after.tickers, ticker, ts);
}

impl Trader {
    /// Takes a message into the book of a market that is quoted, always before
    /// anything is decided: a book that missed a message stays wrong. False
    /// for any other market.
    pub fn fold_book(&mut self, ticker: &str, msg: &Json) -> (r: bool)
        requires
            old(self).wf(),
        ensures
            final(self).wf(),
            r == (old(self).category(ticker@) is Some),
            !r ==> *final(self) == *old(self),
            r ==> folded_into(*old(self), *final(self), ticker@, msg@),
    {
        let category = match self.active_tickers.get(ticker) {
            Some(c) => c.clone(),
            None => {
                return false;
            },
        };
        let ts = self.state.ticker(ticker, category.as_str());
        let ghost base = *ts;
        fold_message(&mut ts.book, msg);
        proof {
            let after = self.state.tickers@[ticker@];
            assert(self.state.tickers@.dom().contains(ticker@));
            assert(book_after(base.book, after.book, msg@));
        }
        true
    }

    /// Decides on a market whose book has changed: whether its policy is asked
    /// for quotes, and with what.
    pub fn decide(&mut self, ticker: &str, now_s: i64, now_mono: i64) -> (r: BookStep)
        requires
            old(self).wf(),
            old(self).active_tickers.has(ticker@),
            old(self).state.tickers.has(ticker@),
        ensures
            final(self).wf(),
            decided(
                *old(self),
                *final(self),
                ticker@,
                old(self).category(ticker@)->Some_0,
                now_s as int,
                now_mono,
                r,
            ),
    {
        let ghost before = *self;
        let ghost i = self.state.tickers.keys().index_of(ticker@);
        proof {
            assert(self.state.tickers.keys()[i] == ticker@);
            assert(self.state.tickers.values()[i].wf());
        }
        let category = match self.active_tickers.get(ticker) {
            Some(c) => c.clone(),
            None => {
                return BookStep::Ignore;
            },
        };
        match self.state.tickers.get(ticker) {
            Some(ts) => {
                if !ts.book.is_valid() || (now_mono as i128 - ts.last_quote_time as i128)
                    < THROTTLE as i128 {
                    return BookStep::Ignore;
                }
            },
            None => {
                return BookStep::Ignore;
            },
        }
        if self.state.halted_categories.contains(category.as_str()) {
            return BookStep::Ignore;
        }
        let (ok, halt_reason) = check_risk_limits(
            &self.state,
            &self.cfg.live,
            Some(&self.active_set),
        );
        match halt_reason {
            Some(reason) => {
                self.running = false;
                return BookStep::Halt(reason);
            },
            None => {},
        }
        if !ok {
            return BookStep::Ignore;
        }
        if self.spot_bound.contains(category.as_str()) && self.spot_gated(now_mono) {
            return BookStep::Ignore;
        }
        let fv_shift: i64 = match self.fv_shift_for(ticker, category.as_str()) {
            Some(s) => s,
            None => {
                return BookStep::Ignore;
            },
        };
        let (allow_bid, allow_ask) = self.ladder_tail_gate(ticker);
        let ts = self.state.tickers.get_mut(ticker);
        let obs = build_observation(ts, &self.cfg.mm, now_s, now_mono);
        proof {
            let after = self.state.tickers.values()[i];
            lemma_market_wf(before.state, self.state, ticker@, after);
            assert(before.state.tickers.values().update(i, before.state.tickers.values()[i])
                =~= before.state.tickers.values());
        }
        match obs {
            Some(values) => BookStep::Infer { obs: values, fv_shift, allow_bid, allow_ask },
            None => BookStep::Ignore,
        }
    }
}

impl Trader {
    /// A message for a market's book: into the book first, and then to a
    /// decision. Messages for markets that are not quoted are ignored.
    pub fn on_book_update(&mut self, ticker: &str, msg: &Json, now_s: i64, now_mono: i64) -> (r:
        BookStep)
        requires
            old(self).wf(),
        ensures
            final(self).wf(),
            old(self).category(ticker@) is None ==> r is Ignore && *final(self) == *old(self),
            old(self).category(ticker@) matches Some(category) ==> exists|folded: Trader|
                {
                    &&& #[trigger] folded_into(*old(self), folded, ticker@, msg@)
                    &&& decided(
                        folded,
                        *final(self),
                        ticker@,
                        category,
                        now_s as int,
                        now_mono,
                        r,
                    )
                },
    {
        if !self.fold_book(ticker, msg) {
            return BookStep::Ignore;
        }
        let ghost folded = *self;
        let r = self.decide(ticker, now_s, now_mono);
        assert(folded_into(*old(self), folded, ticker@, msg@));
        r
    }

    /// The inventory cap of a category.
    fn cap_of(&self, category: &str) -> (r: i64)
        ensures
            r == inventory_cap(self.cfg.categories@, category@),
    {
        let ghost all = self.cfg.categories@;
        let mut n: usize = self.cfg.categories.len();
        assert(all.take(n as int) =~= all);
        while n > 0
            invariant
                n <= all.len(),
                all == self.cfg.categories@,
                inventory_cap(all, category@) == inventory_cap(all.take(n as int), category@),
            decreases n,
        {
            assert(all.take(n as int).last() == all[n - 1]);
            assert(all.take(n as int).drop_last() =~= all.take(n - 1));
            if same(self.cfg.categories[n - 1].name.as_str(), category) {
                return self.cfg.categories[n - 1].max_inventory;
            }
            n = n - 1;
        }
        5
    }

    /// The plan for a market, once its policy has answered.
    pub fn plan_for(
        &mut self,
        ticker: &str,
        category: &str,
        action: [i64; 2],
        fv_shift: i64,
        allow_bid: bool,
        allow_ask: bool,
        now_mono: i64,
    ) -> (r: Option<QuotePlan>)
        requires
            old(self).wf(),
            old(self).state.tickers.has(ticker@),
        ensures
            final(self).wf(),
            ({
                let ts = old(self).state.tickers.at(ticker@);
                let plan = planned(
                    action@,
                    fv_shift as int,
                    ts,
                    old(self).cfg.mm,
                    inventory_cap(old(self).cfg.categories@, category@) as int,
                    clamp(
                        crate::state::orders_in(old(self).state.tickers.values()),
                        0,
                        u64::MAX as int,
                    ),
                    old(self).state.balance_backoff_until as int,
                    now_mono as int,
                );
                &&& match plan {
                    Some(p) => r matches Some(q) && q@ == with_sides(p, allow_bid, allow_ask),
                    None => r is None,
                }
                &&& with_market(
                    *old(self),
                    *final(self),
                    ticker@,
                    if throttled(ts, now_mono as int) {
                        ts
                    } else {
                        (TickerState { last_quote_time: now_mono, ..ts })
                    },
                )
            }),
    {
        let ghost before = *self;
        let ghost i = self.state.tickers.keys().index_of(ticker@);
        proof {
            assert(self.state.tickers.keys()[i] == ticker@);
            assert(self.state.tickers.values()[i].wf());
        }
        let max_inventory: i64 = self.cap_of(category);
        let open_orders: u64 = self.state.open_order_count();
        let backoff: i64 = self.state.balance_backoff_until;
        let ts = self.state.tickers.get_mut(ticker);
        let plan = plan_quotes_with_shift(
            action,
            fv_shift,
            ts,
            &self.cfg.mm,
            max_inventory,
            open_orders,
            backoff,
            now_mono,
        );
        proof {
            let after = self.state.tickers.values()[i];
            lemma_market_wf(before.state, self.state, ticker@, after);
        }
        match plan {
            Some(p) => {
                let q = QuotePlan {
                    bid_cents: p.bid_cents,
                    ask_cents: p.ask_cents,
                    place_bid: p.place_bid && allow_bid,
                    place_ask: p.place_ask && allow_ask,
                    cancel_ids: p.cancel_ids,
                    quoted_bid: p.quoted_bid,
                    quoted_ask: p.quoted_ask,
                };
                assert(q@ =~= with_sides(p@, allow_bid, allow_ask));
                Some(q)
            },
            None => None,
        }
    }
}

// --- trades and fills --------------------------------------------------------

/// The side of the taker that a trade message states.
pub open spec fn taker_in(msg: JsonView) -> Option<TakerSide> {
    match msg.text_field("taker_side"@) {
        Some(s) => if s == "yes"@ {
            Some(TakerSide::Yes)
        } else if s == "no"@ {
            Some(TakerSide::No)
        } else {
            None
        },
        None => None,
    }
}

/// The contracts that a trade message states; one where it states none.
pub open spec fn trade_count(msg: JsonView) -> int {
    match number_at(msg.either("count_fp"@, "count"@)) {
        Some(n) => whole_part(n),
        None => 1,
    }
}

/// A market before and after a trade print.
pub open spec fn printed(before: TickerState, after: TickerState, print: TradePrint) -> bool {
    &&& after.recent_trades@ == crate::book::fresh(
        before.recent_trades@.push(print),
        print.0 as int,
    )
    &&& after == (TickerState { recent_trades: after.recent_trades, ..before })
}

/// The part of a ticker before its first dash.
pub open spec fn series_of(ticker: Seq<char>) -> Seq<char> {
    ticker.take(crate::text::find_from(ticker, '-', 0))
}

/// The part of a ticker before its first dash.
fn series(ticker: &str) -> (r: String)
    ensures
        r@ == series_of(ticker@),
{
    let chars = crate::text::chars_of(ticker);
    let end: usize = crate::text::find_char(&chars, '-', 0);
    let r = crate::text::text_of(&chars, 0, end);
    assert(r@ =~= ticker@.take(end as int));
    r
}

/// The halted categories after the losing streak of one was looked at: it
/// halts when the streak has reached the limit, unless the limit is zero.
pub open spec fn halts_after(
    halted: Map<Seq<char>, ()>,
    losses: Map<Seq<char>, u64>,
    category: Seq<char>,
    limit: u64,
) -> Map<Seq<char>, ()> {
    if limit > 0 && streak(losses, category) >= limit {
        halted.insert(category, ())
    } else {
        halted
    }
}

/// The account before and after a category's streak was looked at.
pub open spec fn halt_looked_at(before: TraderState, after: TraderState, category: Seq<char>, limit: u64) -> bool {
    &&& after.halted_categories@ == halts_after(
        before.halted_categories@,
        before.consecutive_losses@,
        category,
        limit,
    )
    &&& after == (TraderState { halted_categories: after.halted_categories, ..before })
}

/// The fee rate of a fill.
pub open spec fn rate_of(cfg: Config, is_taker: bool) -> int {
    if is_taker {
        cfg.mm.taker_fee_rate as int
    } else {
        cfg.mm.maker_fee_rate as int
    }
}

/// The account before and after a fill that was not seen before: its id is
/// noted, its market is made where it was not there, the fill is booked with
/// its fee, and the category's streak is looked at.
pub open spec fn processed(
    t: Trader,
    after: TraderState,
    nf: NormalizedFill,
    category: Seq<char>,
    now: i64,
) -> bool {
    exists|noted: TraderState, opened: TraderState, booked: TraderState|
        {
            &&& #[trigger] crate::state::noted_fill(t.state, noted, nf.fill_id@)
            &&& #[trigger] crate::state::opened_market(noted, opened, nf.ticker@, category)
            &&& #[trigger] crate::state::booked_fill(
                opened,
                booked,
                nf.ticker@,
                nf,
                crate::book::fee_of(
                    rate_of(t.cfg, nf.is_taker),
                    nf.size as int,
                    nf.price_yes as int,
                ),
                now,
            )
            &&& halt_looked_at(
                booked,
                after,
                category,
                t.cfg.live.halt_on_consecutive_losses,
            )
        }
}

/// The trader before and after an entry of the fills list: a malformed entry,
/// and one that was booked before, changes nothing.
pub open spec fn fill_taken(before: Trader, after: Trader, entry: JsonView, now: i64, r: Option<i128>) -> bool {
    match fill_in(entry) {
        None => r is None && after == before,
        Some(view) => if before.state.seen.order().contains(view.fill_id) {
            r is None && after == before
        } else {
            &&& r is Some
            &&& after == (Trader { state: after.state, ..before })
            &&& exists|nf: NormalizedFill|
                {
                    &&& nf@ == view
                    &&& #[trigger] processed(
                        before,
                        after.state,
                        nf,
                        before.fill_category(view.ticker),
                        now,
                    )
                    &&& r->Some_0 == if before.state.tickers.has(view.ticker) {
                        crate::state::fill_gain(before.state.tickers.at(view.ticker), nf)
                    } else {
                        0
                    }
                }
        },
    }
}

/// The trader before and after several entries of the fills list, in order.
pub open spec fn fills_taken(before: Trader, after: Trader, entries: Seq<JsonView>, now: i64, rs: Seq<
    Option<i128>,
>) -> bool
    decreases entries.len(),
{
    if entries.len() == 0 {
        after == before && rs.len() == 0
    } else {
        rs.len() == entries.len() && exists|mid: Trader|
            {
                &&& fills_taken(before, mid, entries.drop_last(), now, rs.drop_last())
                &&& #[trigger] fill_taken(mid, after, entries.last(), now, rs.last())
            }
    }
}

/// A fill is booked once: taking the same entry again changes nothing.
pub proof fn law_a_fill_is_booked_once(
    before: Trader,
    mid: Trader,
    after: Trader,
    entry: JsonView,
    first: i64,
    second: i64,
    r1: Option<i128>,
    r2: Option<i128>,
)
    requires
        before.wf(),
        fill_taken(before, mid, entry, first, r1),
        fill_taken(mid, after, entry, second, r2),
    ensures
        after == mid,
        r2 is None,
{
    match fill_in(entry) {
        Some(view) => {
            crate::state::lemma_seen_ids(before.state.seen);
            if !before.state.seen.order().contains(view.fill_id) {
                crate::state::law_noting_twice_is_noting_once(
                    before.state.seen.order(),
                    view.fill_id,
                );
            }
        },
        None => {},
    }
}

/// One entry more.
proof fn lemma_fills_step(
    before: Trader,
    mid: Trader,
    after: Trader,
    entries: Seq<JsonView>,
    now: i64,
    rs: Seq<Option<i128>>,
)
    requires
        entries.len() > 0,
        rs.len() == entries.len(),
        fills_taken(before, mid, entries.drop_last(), now, rs.drop_last()),
        fill_taken(mid, after, entries.last(), now, rs.last()),
    ensures
        fills_taken(before, after, entries, now, rs),
{
}

impl Trader {
    /// The category that a market's fills count for: its own where it is
    /// quoted, or else its series.
    pub open spec fn fill_category(&self, ticker: Seq<char>) -> Seq<char> {
        match self.category(ticker) {
            Some(c) => c,
            None => series_of(ticker),
        }
    }

    /// The category of a market, empty where it is not quoted.
    pub open spec fn category_or_empty(&self, ticker: Seq<char>) -> Seq<char> {
        match self.category(ticker) {
            Some(c) => c,
            None => seq![],
        }
    }

    /// The category of a market, empty where it is not quoted.
    pub(crate) fn category_text(&self, ticker: &str) -> (r: String)
        requires
            self.wf(),
        ensures
            r@ == self.category_or_empty(ticker@),
    {
        match self.active_tickers.get(ticker) {
            Some(c) => c.clone(),
            None => {
                let r = String::new();
                assert(r@ =~= Seq::<char>::empty());
                r
            },
        }
    }

    /// A public trade: kept with its time, and older prints dropped. A message
    /// without a taker's side is ignored.
    pub fn on_trade(&mut self, ticker: &str, msg: &Json, now_s: i64)
        requires
            old(self).wf(),
        ensures
            final(self).wf(),
            taker_in(msg@) is None ==> *final(self) == *old(self),
            taker_in(msg@) matches Some(side) ==> ({
                let ts = final(self).state.tickers.at(ticker@);
                let print: TradePrint = (now_s, trade_count(msg@) as i64, side);
                &&& final(self).state.tickers@ == old(self).state.tickers@.insert(ticker@, ts)
                &&& *final(self) == (Trader {
                    state: TraderState {
                        tickers: final(self).state.tickers,
                        ..old(self).state
                    },
                    ..*old(self)
                })
                &&& exists|base: TickerState|
                    {
                        &&& if old(self).state.tickers.has(ticker@) {
                            base == old(self).state.tickers.at(ticker@)
                        } else {
                            is_fresh(base, old(self).category_or_empty(ticker@))
                        }
                        &&& #[trigger] printed(base, ts, print)
                    }
            }),
    {
        let side = match msg.get_text("taker_side") {
            Some(s) => if same(s, "yes") {
                TakerSide::Yes
            } else if same(s, "no") {
                TakerSide::No
            } else {
                return ;
            },
            None => {
                return ;
            },
        };
        proof {
            reveal_strlit("yes");
            reveal_strlit("no");
        }
        let count: i64 = match number_of_field(msg.get_either("count_fp", "count")) {
            Some(n) => truncate_whole(n),
            None => 1,
        };
        let category = self.category_text(ticker);
        let ts = self.state.ticker(ticker, category.as_str());
        let ghost base = *ts;
        ts.recent_trades.push((now_s, count, side));
        crate::book::prune_trades(&mut ts.recent_trades, now_s);
        proof {
            assert(self.state.tickers@.dom().contains(ticker@));
            assert(self.state.tickers@[ticker@] == self.state.tickers.at(ticker@));
            assert(printed(base, self.state.tickers.at(ticker@), (now_s, count, side)));
        }
    }

    /// Halts a category once it has lost too often in a row. The halt lasts
    /// until the next day.
    pub fn enforce_category_halt(&mut self, category: &str)
        requires
            old(self).wf(),
        ensures
            final(self).wf(),
            halt_looked_at(
                old(self).state,
                final(self).state,
                category@,
                old(self).cfg.live.halt_on_consecutive_losses,
            ),
            *final(self) == (Trader { state: final(self).state, ..*old(self) }),
    {
        let limit: u64 = self.cfg.live.halt_on_consecutive_losses;
        if limit == 0 || self.state.halted_categories.contains(category) {
            proof {
                let h = self.state.halted_categories@;
                if h.dom().contains(category@) {
                    assert(h.insert(category@, ()) =~= h);
                }
            }
            return ;
        }
        let losses: u64 = match self.state.consecutive_losses.get(category) {
            Some(n) => *n,
            None => 0,
        };
        if losses >= limit {
            self.state.halted_categories.insert(category.to_string(), ());
        }
    }

    /// Books a fill of the exchange; returns what it realized. A malformed
    /// entry, and one that was booked before, changes nothing.
    pub fn process_fill(&mut self, fill: &Json, now_s: i64) -> (r: Option<i128>)
        requires
            old(self).wf(),
        ensures
            final(self).wf(),
            fill_taken(*old(self), *final(self), fill@, now_s, r),
    {
        let nf = match normalize_fill(fill) {
            Some(nf) => nf,
            None => {
                return None;
            },
        };
        if self.state.seen_fill(nf.fill_id.as_str()) {
            return None;
        }
        let ghost noted = self.state;
        let category = match self.active_tickers.get(nf.ticker.as_str()) {
            Some(c) => c.clone(),
            None => series(nf.ticker.as_str()),
        };
        let rate: i64 = if nf.is_taker {
            self.cfg.mm.taker_fee_rate
        } else {
            self.cfg.mm.maker_fee_rate
        };
        let fee: i64 = fill_fee(rate, nf.size, nf.price_yes);
        self.open_market(nf.ticker.as_str(), category.as_str());
        let ghost opened = self.state;
        let realized: i128 = self.state.apply_fill(nf.ticker.as_str(), &nf, fee, now_s);
        let ghost booked = self.state;
        self.enforce_category_halt(category.as_str());
        proof {
            assert(crate::state::noted_fill(old(self).state, noted, nf.fill_id@));
            assert(crate::state::opened_market(noted, opened, nf.ticker@, category@));
            assert(crate::state::booked_fill(opened, booked, nf.ticker@, nf, fee as int, now_s));
            assert(fee == crate::book::fee_of(
                rate_of(old(self).cfg, nf.is_taker),
                nf.size as int,
                nf.price_yes as int,
            ));
            assert(halt_looked_at(
                booked,
                self.state,
                category@,
                old(self).cfg.live.halt_on_consecutive_losses,
            ));
            assert(category@ == old(self).fill_category(nf.ticker@));
            assert(noted.tickers == old(self).state.tickers);
            assert(processed(*old(self), self.state, nf, category@, now_s));
            assert(nf@.ticker == nf.ticker@);
            if !old(self).state.tickers.has(nf.ticker@) {
                assert(opened.tickers.at(nf.ticker@).position == 0);
            }
        }
        Some(realized)
    }

    /// Books the fills of a page, in order; for each what it realized, if it
    /// was booked.
    pub fn process_fills(&mut self, reply: &Json, now_s: i64) -> (r: Vec<Option<i128>>)
        requires
            old(self).wf(),
        ensures
            final(self).wf(),
            fills_taken(
                *old(self),
                *final(self),
                list_in(reply@.field("fills"@)),
                now_s,
                r@,
            ),
    {
        let ghost all = list_in(reply@.field("fills"@));
        let ghost before = *self;
        let mut out: Vec<Option<i128>> = Vec::new();
        let list = match reply.get("fills") {
            Some(v) => v.as_items(),
            None => None,
        };
        assert(all.take(0) =~= Seq::<JsonView>::empty());
        match list {
            Some(entries) => {
                let mut i: usize = 0;
                while i < entries.len()
                    invariant
                        i <= entries.len(),
                        all.len() == entries@.len(),
                        forall|k: int|
                            0 <= k < entries@.len() ==> (#[trigger] entries@[k])@ == all[k],
                        self.wf(),
                        out@.len() == i,
                        fills_taken(before, *self, all.take(i as int), now_s, out@),
                    decreases entries.len() - i,
                {
                    let ghost mid = *self;
                    let ghost so_far = out@;
                    let one = self.process_fill(&entries[i], now_s);
                    out.push(one);
                    proof {
                        let seen = all.take(i + 1);
                        assert(entries@[i as int]@ == all[i as int]);
                        assert(seen.drop_last() =~= all.take(i as int));
                        assert(seen.last() == all[i as int]);
                        assert(out@.drop_last() =~= so_far);
                        lemma_fills_step(before, mid, *self, seen, now_s, out@);
                    }
                    i += 1;
                }
            },
            None => {},
        }
        assert(all.take(all.len() as int) =~= all);
        out
    }

    /// Makes a market where it is not there.
    fn open_market(&mut self, ticker: &str, category: &str)
        requires
            old(self).wf(),
        ensures
            final(self).wf(),
            final(self).state.tickers.has(ticker@),
            crate::state::opened_market(
                old(self).state,
                final(self).state,
                ticker@,
                category@,
            ),
            old(self).state.tickers.has(ticker@) ==> final(self).state.tickers.at(ticker@) == old(
                self,
            ).state.tickers.at(ticker@),
            !old(self).state.tickers.has(ticker@) ==> is_fresh(
                final(self).state.tickers.at(ticker@),
                category@,
            ),
            *final(self) == (Trader { state: final(self).state, ..*old(self) }),
    {
        let ghost before = self.state.tickers;
        let ts = self.state.ticker(ticker, category);
        let ghost made = *ts;
        proof {
            let after = self.state.tickers;
            let n = before.keys().len() as int;
            if before.has(ticker@) {
                let i = before.keys().index_of(ticker@);
                assert(before.keys()[i] == ticker@);
                assert(before.values().update(i, before.values()[i]) =~= before.values());
            } else {
                assert(after.values().last() == made);
                assert(after.keys()[n] == ticker@);
                crate::table::lemma_at(after, n);
            }
        }
    }
}

// --- positions ---------------------------------------------------------------

/// A fill that is younger than this may not be in the positions yet, in
/// microseconds.
pub const SYNC_GRACE: i64 = 10_000_000;

/// What a comparison with the exchange's positions found.
pub struct SyncStep {
    /// The number of positions that the exchange lists.
    pub listed: usize,
    /// The markets whose position was corrected.
    pub corrected: Vec<String>,
    /// The markets that are quoted and whose position has vanished, most
    /// likely because they settled.
    pub vanished: Vec<String>,
}

/// A held position in a market that is quoted is not on the exchange any more.
pub open spec fn has_vanished(ts: TickerState, remote: int, active: bool) -> bool {
    ts.position != 0 && remote == 0 && active
}

/// The position is taken from the exchange: it differs, it has not vanished,
/// and no fill was booked a moment ago.
pub open spec fn is_drift(ts: TickerState, remote: int, active: bool, now: int) -> bool {
    ts.position != remote && !has_vanished(ts, remote, active) && now - ts.last_fill_epoch
        >= SYNC_GRACE
}

/// A market after a comparison with the exchange. A position that turns up in
/// a market without fills was carried over from before this process.
pub open spec fn synced(ts: TickerState, remote: int, active: bool, now: int) -> TickerState {
    if is_drift(ts, remote, active, now) {
        TickerState {
            position: remote as i64,
            carried: ts.carried || (ts.position == 0 && ts.last_fill_epoch == 0),
            ..ts
        }
    } else {
        ts
    }
}

/// Positions converge: one that has not vanished is the exchange's after the
/// comparison, once the last fill is old enough to be in the list, and a second
/// comparison with the same list changes nothing.
pub proof fn law_positions_converge(
    ts: TickerState,
    remote: int,
    active: bool,
    now: int,
    later: int,
)
    requires
        i64::MIN <= remote <= i64::MAX,
        !has_vanished(ts, remote, active),
        now - ts.last_fill_epoch >= SYNC_GRACE,
    ensures
        synced(ts, remote, active, now).position == remote,
        synced(synced(ts, remote, active, now), remote, active, later) == synced(
            ts,
            remote,
            active,
            now,
        ),
{
}

/// The names are each there once.
pub open spec fn distinct(names: Seq<String>) -> bool {
    names_view(names).no_duplicates()
}

/// The position of a market, flat where it is not known.
pub open spec fn held(tickers: Table<TickerState>, ticker: Seq<char>) -> int {
    if tickers.has(ticker) {
        tickers.at(ticker).position as int
    } else {
        0
    }
}

/// The markets before and after a comparison with the exchange.
pub open spec fn all_synced(t: Trader, after: Table<TickerState>, exchange: Map<Seq<char>, i64>, now: int) -> bool {
    let before = t.state.tickers;
    &&& forall|k: Seq<char>| #[trigger]
        after.has(k) <==> before.has(k) || exchange.dom().contains(k)
    &&& forall|k: Seq<char>| #[trigger]
        after.has(k) ==> exists|base: TickerState|
            {
                &&& if before.has(k) {
                    base == before.at(k)
                } else {
                    is_fresh(base, t.category_or_empty(k))
                }
                &&& after.at(k) == #[trigger] synced(
                    base,
                    crate::replies::position_in(exchange, k),
                    t.active_tickers.has(k),
                    now,
                )
            }
}

/// A new name at the end of distinct names.
pub proof fn lemma_push_distinct(names: Seq<String>, name: String)
    requires
        distinct(names),
        !names_view(names).contains(name@),
    ensures
        distinct(names.push(name)),
        names_view(names.push(name)) == names_view(names).push(name@),
        forall|x: Seq<char>| #[trigger]
            names_view(names.push(name)).contains(x) <==> names_view(names).contains(x) || x
                == name@,
{
    let a = names_view(names);
    let b = names_view(names.push(name));
    assert(b =~= a.push(name@));
    assert forall|x: Seq<char>| #[trigger] b.contains(x) <==> a.contains(x) || x == name@ by {
        if a.contains(x) {
            let i = choose|i: int| 0 <= i < a.len() && a[i] == x;
            assert(b[i] == x);
        }
        if x == name@ {
            assert(b[a.len() as int] == x);
        }
        if b.contains(x) {
            let i = choose|i: int| 0 <= i < b.len() && b[i] == x;
            if i < a.len() {
                assert(a[i] == x);
            }
        }
    }
    assert forall|i: int, j: int| 0 <= i < b.len() && 0 <= j < b.len() && i != j implies b[i]
        != b[j] by {
        if i == a.len() {
            assert(a.contains(a[j]));
        } else if j == a.len() {
            assert(a.contains(a[i]));
        }
    }
}

impl Trader {
    /// Makes the markets of a list of positions, where they are not there.
    fn open_all(&mut self, positions: &Table<i64>)
        requires
            old(self).wf(),
            positions.wf(),
        ensures
            final(self).wf(),
            *final(self) == (Trader {
                state: TraderState { tickers: final(self).state.tickers, ..old(self).state },
                ..*old(self)
            }),
            forall|k: Seq<char>| #[trigger]
                final(self).state.tickers.has(k) <==> old(self).state.tickers.has(k)
                    || positions.has(k),
            forall|k: Seq<char>| #[trigger]
                final(self).state.tickers.has(k) ==> if old(self).state.tickers.has(k) {
                    final(self).state.tickers.at(k) == old(self).state.tickers.at(k)
                } else {
                    is_fresh(final(self).state.tickers.at(k), old(self).category_or_empty(k))
                },
    {
        let ghost before = *self;
        let ghost names = positions.keys();
        let mut i: usize = 0;
        while i < positions.len()
            invariant
                positions.wf(),
                names == positions.keys(),
                i <= names.len(),
                self.wf(),
                *self == (Trader {
                    state: TraderState { tickers: self.state.tickers, ..before.state },
                    ..before
                }),
                forall|k: Seq<char>| #[trigger]
                    self.state.tickers.has(k) <==> before.state.tickers.has(k) || names.take(
                        i as int,
                    ).contains(k),
                forall|k: Seq<char>| #[trigger]
                    self.state.tickers.has(k) ==> if before.state.tickers.has(k) {
                        self.state.tickers.at(k) == before.state.tickers.at(k)
                    } else {
                        is_fresh(self.state.tickers.at(k), before.category_or_empty(k))
                    },
            decreases names.len() - i,
        {
            let ghost prior = *self;
            let name = positions.key_at(i);
            let category = self.category_text(name);
            self.open_market(name, category.as_str());
            proof {
                lemma_opened(prior.state, self.state, name@, category@);
                assert forall|k: Seq<char>| #[trigger] names.take(i + 1).contains(k) <==> names.take(
                    i as int,
                ).contains(k) || k == names[i as int] by {
                    lemma_take_contains(names, i as int, k);
                }
                assert forall|k: Seq<char>| #[trigger]
                    self.state.tickers.has(k) <==> before.state.tickers.has(k) || names.take(
                        i + 1,
                    ).contains(k) by {
                    assert(self.state.tickers.has(k) <==> prior.state.tickers.has(k) || k == name@);
                }
            }
            i += 1;
        }
        assert(names.take(names.len() as int) =~= names);
    }

    /// Compares the positions with those of the exchange and corrects them.
    /// A position that has vanished from a market that is quoted is left for
    /// its settlement.
    pub fn sync_positions(&mut self, reply: &Json, now_s: i64) -> (r: SyncStep)
        requires
            old(self).wf(),
        ensures
            final(self).wf(),
            *final(self) == (Trader {
                state: TraderState { tickers: final(self).state.tickers, ..old(self).state },
                ..*old(self)
            }),
            all_synced(*old(self), final(self).state.tickers, positions_in(reply@), now_s as int),
            r.listed == positions_in(reply@).dom().len(),
            distinct(r.corrected@),
            forall|k: Seq<char>| #[trigger]
                names_view(r.corrected@).contains(k) <==> held(final(self).state.tickers, k)
                    != held(old(self).state.tickers, k),
            distinct(r.vanished@),
            forall|k: Seq<char>| #[trigger]
                names_view(r.vanished@).contains(k) <==> held(old(self).state.tickers, k) != 0
                    && crate::replies::position_in(positions_in(reply@), k) == 0 && old(
                    self,
                ).active_tickers.has(k),
    {
        let ghost before = *self;
        let exchange = parse_positions(reply);
        self.open_all(&exchange);
        let ghost opened = *self;
        let ghost keys = self.state.tickers.keys();
        let ghost start = self.state.tickers.values();
        let mut corrected: Vec<String> = Vec::new();
        let mut vanished: Vec<String> = Vec::new();
        assert(names_view(corrected@) =~= Seq::<Seq<char>>::empty());
        assert(names_view(vanished@) =~= Seq::<Seq<char>>::empty());
        let mut i: usize = 0;
        while i < self.state.tickers.len()
            invariant
                opened.wf(),
                exchange.wf(),
                keys == opened.state.tickers.keys(),
                start == opened.state.tickers.values(),
                i <= keys.len(),
                self.wf(),
                *self == (Trader {
                    state: TraderState { tickers: self.state.tickers, ..opened.state },
                    ..opened
                }),
                self.state.tickers.keys() == keys,
                forall|j: int|
                    0 <= j < i ==> #[trigger] self.state.tickers.values()[j] == synced(
                        start[j],
                        crate::replies::position_in(exchange@, keys[j]),
                        opened.active_tickers.has(keys[j]),
                        now_s as int,
                    ),
                forall|j: int|
                    i <= j < keys.len() ==> #[trigger] self.state.tickers.values()[j] == start[j],
                distinct(corrected@),
                distinct(vanished@),
                forall|k: Seq<char>| #[trigger]
                    names_view(corrected@).contains(k) <==> exists|j: int|
                        0 <= j < i && keys[j] == k && #[trigger] is_drift(
                            start[j],
                            crate::replies::position_in(exchange@, keys[j]),
                            opened.active_tickers.has(keys[j]),
                            now_s as int,
                        ),
                forall|k: Seq<char>| #[trigger]
                    names_view(vanished@).contains(k) <==> exists|j: int|
                        0 <= j < i && keys[j] == k && #[trigger] has_vanished(
                            start[j],
                            crate::replies::position_in(exchange@, keys[j]),
                            opened.active_tickers.has(keys[j]),
                        ),
            decreases keys.len() - i,
        {
            let ghost prior = *self;
            let name = self.state.tickers.key_at(i).to_string();
            let remote: i64 = match exchange.get(name.as_str()) {
                Some(p) => *p,
                None => 0,
            };
            let active = self.active_tickers.contains(name.as_str());
            let ts = self.state.tickers.value_at_mut(i);
            let gone = ts.position != 0 && remote == 0 && active;
            let drift = ts.position != remote && !gone && now_s as i128 - ts.last_fill_epoch as i128
                >= SYNC_GRACE as i128;
            if drift {
                if ts.position == 0 && ts.last_fill_epoch == 0 {
                    ts.carried = true;
                }
                ts.position = remote;
            }
            proof {
                assert(prior.state.tickers.values()[i as int] == start[i as int]);
                assert(start[i as int].wf());
                let after = self.state.tickers.values()[i as int];
                crate::table::lemma_at(prior.state.tickers, i as int);
                lemma_market_wf(prior.state, self.state, keys[i as int], after);
                assert(gone == has_vanished(
                    start[i as int],
                    crate::replies::position_in(exchange@, keys[i as int]),
                    opened.active_tickers.has(keys[i as int]),
                ));
                assert(drift == is_drift(
                    start[i as int],
                    crate::replies::position_in(exchange@, keys[i as int]),
                    opened.active_tickers.has(keys[i as int]),
                    now_s as int,
                ));
                assert forall|j: int| 0 <= j < i implies keys[j] != keys[i as int] by {}
            }
            if drift {
                proof {
                    lemma_push_distinct(corrected@, name);
                }
                corrected.push(name);
            } else if gone {
                proof {
                    lemma_push_distinct(vanished@, name);
                }
                vanished.push(name);
            }
            i += 1;
        }
        proof {
            crate::table::lemma_count(exchange);
            let after = self.state.tickers;
            assert forall|k: Seq<char>| #[trigger] after.has(k) implies exists|base: TickerState|
                {
                    &&& if before.state.tickers.has(k) {
                        base == before.state.tickers.at(k)
                    } else {
                        is_fresh(base, before.category_or_empty(k))
                    }
                    &&& after.at(k) == #[trigger] synced(
                        base,
                        crate::replies::position_in(exchange@, k),
                        before.active_tickers.has(k),
                        now_s as int,
                    )
                } by {
                let j = keys.index_of(k);
                assert(keys[j] == k);
                assert(opened.state.tickers.has(k));
                assert(after.values()[j] == synced(
                    start[j],
                    crate::replies::position_in(exchange@, k),
                    before.active_tickers.has(k),
                    now_s as int,
                ));
            }
            assert forall|k: Seq<char>| #[trigger]
                after.has(k) <==> before.state.tickers.has(k) || exchange@.dom().contains(k) by {
                assert(opened.state.tickers.has(k) <==> before.state.tickers.has(k)
                    || exchange.has(k));
            }
            assert forall|k: Seq<char>| #[trigger] names_view(corrected@).contains(k) <==> held(
                after,
                k,
            ) != held(before.state.tickers, k) by {
                lemma_corrected(before, opened, after, exchange@, now_s as int, k);
            }
            assert forall|k: Seq<char>| #[trigger] names_view(vanished@).contains(k) <==> held(
                before.state.tickers,
                k,
            ) != 0 && crate::replies::position_in(exchange@, k) == 0
                && before.active_tickers.has(k) by {
                if opened.state.tickers.has(k) {
                    let j = keys.index_of(k);
                    assert(keys[j] == k);
                    assert(has_vanished(
                        start[j],
                        crate::replies::position_in(exchange@, keys[j]),
                        opened.active_tickers.has(keys[j]),
                    ) == (held(before.state.tickers, k) != 0 && crate::replies::position_in(
                        exchange@,
                        k,
                    ) == 0 && before.active_tickers.has(k)));
                    assert forall|j2: int| 0 <= j2 < keys.len() && keys[j2] == k implies j2
                        == j by {}
                } else {
                    assert(!keys.contains(k));
                    assert forall|j2: int| 0 <= j2 < keys.len() implies keys[j2] != k by {
                        assert(keys.contains(keys[j2]));
                    }
                }
            }
        }
        SyncStep { listed: exchange.len(), corrected, vanished }
    }
}

/// The first `n + 1` names are the first `n` and one more.
pub proof fn lemma_take_contains(names: Seq<Seq<char>>, n: int, k: Seq<char>)
    requires
        0 <= n < names.len(),
    ensures
        names.take(n + 1).contains(k) <==> names.take(n).contains(k) || k == names[n],
{
    let a = names.take(n);
    let b = names.take(n + 1);
    if a.contains(k) {
        let i = choose|i: int| 0 <= i < a.len() && a[i] == k;
        assert(b[i] == k);
    }
    if k == names[n] {
        assert(b[n] == k);
    }
    if b.contains(k) {
        let i = choose|i: int| 0 <= i < b.len() && b[i] == k;
        if i < n {
            assert(a[i] == k);
        }
    }
}

/// Making one market leaves the others as they were.
proof fn lemma_opened(before: TraderState, after: TraderState, ticker: Seq<char>, category: Seq<char>)
    requires
        before.wf(),
        after.wf(),
        crate::state::opened_market(before, after, ticker, category),
    ensures
        forall|k: Seq<char>| #[trigger]
            after.tickers.has(k) <==> before.tickers.has(k) || k == ticker,
        forall|k: Seq<char>| #[trigger]
            before.tickers.has(k) ==> after.tickers.at(k) == before.tickers.at(k),
        !before.tickers.has(ticker) ==> is_fresh(after.tickers.at(ticker), category),
{
    if before.tickers.has(ticker) {
        assert forall|k: Seq<char>| #[trigger] before.tickers.has(k) implies after.tickers.at(k)
            == before.tickers.at(k) by {}
    } else {
        let ts = after.tickers.values().last();
        crate::table::lemma_pushed(before.tickers, after.tickers, ticker, ts);
        assert forall|k: Seq<char>| #[trigger]
            after.tickers.has(k) <==> before.tickers.has(k) || k == ticker by {
            assert(after.tickers@.dom().contains(k) <==> before.tickers@.dom().contains(k) || k
                == ticker);
        }
    }
}

/// The markets whose position has changed are those that drifted.
proof fn lemma_corrected(
    before: Trader,
    opened: Trader,
    after: Table<TickerState>,
    exchange: Map<Seq<char>, i64>,
    now: int,
    k: Seq<char>,
)
    requires
        opened.wf(),
        opened.active_tickers == before.active_tickers,
        after.keys() == opened.state.tickers.keys(),
        after.values().len() == opened.state.tickers.values().len(),
        forall|j: int|
            0 <= j < after.keys().len() ==> #[trigger] after.values()[j] == synced(
                opened.state.tickers.values()[j],
                crate::replies::position_in(exchange, after.keys()[j]),
                opened.active_tickers.has(after.keys()[j]),
                now,
            ),
        forall|k2: Seq<char>| #[trigger]
            opened.state.tickers.has(k2) ==> if before.state.tickers.has(k2) {
                opened.state.tickers.at(k2) == before.state.tickers.at(k2)
            } else {
                is_fresh(opened.state.tickers.at(k2), before.category_or_empty(k2))
            },
        forall|k2: Seq<char>| #[trigger]
            before.state.tickers.has(k2) ==> opened.state.tickers.has(k2),
    ensures
        (exists|j: int|
            0 <= j < after.keys().len() && after.keys()[j] == k && #[trigger] is_drift(
                opened.state.tickers.values()[j],
                crate::replies::position_in(exchange, after.keys()[j]),
                opened.active_tickers.has(after.keys()[j]),
                now,
            )) <==> held(after, k) != held(before.state.tickers, k),
{
    let keys = after.keys();
    let start = opened.state.tickers.values();
    if opened.state.tickers.has(k) {
        let j = keys.index_of(k);
        assert(keys[j] == k);
        assert(after.values()[j] == synced(
            start[j],
            crate::replies::position_in(exchange, keys[j]),
            opened.active_tickers.has(keys[j]),
            now,
        ));
        assert(held(before.state.tickers, k) == start[j].position);
        assert(held(after, k) == after.values()[j].position);
        let drift = is_drift(
            start[j],
            crate::replies::position_in(exchange, keys[j]),
            opened.active_tickers.has(keys[j]),
            now,
        );
        assert(drift <==> held(after, k) != held(before.state.tickers, k));
        assert forall|j2: int| 0 <= j2 < keys.len() && keys[j2] == k implies j2 == j by {}
    } else {
        assert(!keys.contains(k));
        assert forall|j2: int| 0 <= j2 < keys.len() implies keys[j2] != k by {
            assert(keys.contains(keys[j2]));
        }
        assert(!before.state.tickers.has(k));
    }
}

} // verus!
