//! The trader's periodic work on its positions: settlements, lost entry
//! prices, exits, the daily reset and the report.

use vstd::prelude::*;

use crate::engine::{exit_decision, exit_for, ExitPlan};
use crate::json::Json;
use crate::ladder::names_view;
use crate::num::{div_even, round_even, NANO};
use crate::replies::{list_in, parse_settlements, results_of, FillHistory};
use crate::state::{
    booked_settlement, replay_entry_price, replaced_market, replayed, settled_gain, NormalizedFill, TickerState,
    TraderState,
};
use crate::table::Table;
use crate::trader::{halt_looked_at, held, Trader};

verus! {

/// How often a vanished position waits for its settlement before it is given
/// up.
pub const MAX_SETTLEMENT_CHECKS: u32 = 4;

// --- settlements -------------------------------------------------------------

/// What became of a vanished position.
pub enum Resolution {
    /// It was flat already.
    Flat,
    /// It waits, or was given up after the last wait.
    Waiting(u32),
    GivenUp,
    /// It settled: the result, and what was realized where that could be
    /// booked.
    Settled(Option<bool>, Option<i128>),
}

/// How often a market has waited.
pub open spec fn waits(checks: Map<Seq<char>, u32>, ticker: Seq<char>) -> int {
    if checks.dom().contains(ticker) {
        checks[ticker] as int
    } else {
        0
    }
}

/// One wait more.
pub open spec fn one_wait_more(n: int) -> int {
    if n < u32::MAX {
        n + 1
    } else {
        n
    }
}

/// A market whose position is given up.
pub open spec fn given_up(ts: TickerState) -> TickerState {
    TickerState { position: 0, entry_price: None, carried: false, ..ts }
}

/// The trader before and after one vanished position was looked at.
pub open spec fn resolved_one(
    before: Trader,
    after: Trader,
    ticker: Seq<char>,
    settled: Map<Seq<char>, Option<bool>>,
    r: Resolution,
) -> bool {
    let checks = before.settlement_checks@;
    let n = one_wait_more(waits(checks, ticker));
    let ts = before.state.tickers.at(ticker);
    if !before.state.tickers.has(ticker) || ts.position == 0 {
        &&& r is Flat
        &&& after.settlement_checks@ == checks.remove(ticker)
        &&& after == (Trader { settlement_checks: after.settlement_checks, ..before })
    } else if !settled.dom().contains(ticker) {
        if n >= MAX_SETTLEMENT_CHECKS {
            &&& r is GivenUp
            &&& after.settlement_checks@ == checks.remove(ticker)
            &&& replaced_market(before.state.tickers, after.state.tickers, ticker, given_up(ts))
            &&& after == (Trader {
                settlement_checks: after.settlement_checks,
                state: TraderState { tickers: after.state.tickers, ..before.state },
                ..before
            })
        } else {
            &&& r == Resolution::Waiting(n as u32)
            &&& after.settlement_checks@ == checks.insert(ticker, n as u32)
            &&& after == (Trader { settlement_checks: after.settlement_checks, ..before })
        }
    } else {
        let result = settled[ticker];
        &&& after.settlement_checks@ == checks.remove(ticker)
        &&& match settled_gain(ts, result) {
            Some(gain) => {
                &&& r matches Resolution::Settled(res, Some(g)) && res == result && g == gain
                &&& exists|booked: TraderState|
                    {
                        &&& #[trigger] booked_settlement(before.state, booked, ticker, result)
                        &&& halt_looked_at(
                            booked,
                            after.state,
                            before.category_or_empty(ticker),
                            before.cfg.live.halt_on_consecutive_losses,
                        )
                    }
            },
            None => {
                &&& r == Resolution::Settled(result, None)
                &&& booked_settlement(before.state, after.state, ticker, result)
            },
        }
        &&& after == (Trader {
            settlement_checks: after.settlement_checks,
            state: after.state,
            ..before
        })
    }
}

/// The trader before and after several vanished positions were looked at, one
/// after the other.
pub open spec fn resolved(
    before: Trader,
    after: Trader,
    tickers: Seq<Seq<char>>,
    settled: Map<Seq<char>, Option<bool>>,
    rs: Seq<Resolution>,
) -> bool
    decreases tickers.len(),
{
    if tickers.len() == 0 {
        after == before && rs.len() == 0
    } else {
        rs.len() == tickers.len() && exists|mid: Trader|
            {
                &&& resolved(before, mid, tickers.drop_last(), settled, rs.drop_last())
                &&& #[trigger] resolved_one(mid, after, tickers.last(), settled, rs.last())
            }
    }
}

/// A vanished position does not wait for its settlement forever: once it was
/// looked at often enough without a record of it, it is flat.
pub proof fn law_waiting_ends(
    steps: Seq<Trader>,
    settled: Seq<Map<Seq<char>, Option<bool>>>,
    rs: Seq<Resolution>,
    ticker: Seq<char>,
)
    requires
        settled.len() >= MAX_SETTLEMENT_CHECKS,
        steps.len() == settled.len() + 1,
        rs.len() == settled.len(),
        forall|i: int| 0 <= i < steps.len() ==> (#[trigger] steps[i]).wf(),
        forall|i: int|
            0 <= i < settled.len() ==> !(#[trigger] settled[i]).dom().contains(ticker)
                && resolved_one(steps[i], steps[i + 1], ticker, settled[i], rs[i]),
    ensures
        held(steps.last().state.tickers, ticker) == 0,
{
    lemma_waited(steps, settled, rs, ticker, settled.len() as int);
}

/// After some looks a position is flat, or has waited as often.
proof fn lemma_waited(
    steps: Seq<Trader>,
    settled: Seq<Map<Seq<char>, Option<bool>>>,
    rs: Seq<Resolution>,
    ticker: Seq<char>,
    n: int,
)
    requires
        0 <= n <= settled.len(),
        steps.len() == settled.len() + 1,
        rs.len() == settled.len(),
        forall|i: int| 0 <= i < steps.len() ==> (#[trigger] steps[i]).wf(),
        forall|i: int|
            0 <= i < settled.len() ==> !(#[trigger] settled[i]).dom().contains(ticker)
                && resolved_one(steps[i], steps[i + 1], ticker, settled[i], rs[i]),
    ensures
        held(steps[n].state.tickers, ticker) == 0 || (n < MAX_SETTLEMENT_CHECKS && waits(
            steps[n].settlement_checks@,
            ticker,
        ) >= n),
    decreases n,
{
    if n > 0 {
        lemma_waited(steps, settled, rs, ticker, n - 1);
        let before = steps[n - 1];
        let after = steps[n];
        assert(before.wf());
        assert(!settled[n - 1].dom().contains(ticker));
        assert(resolved_one(before, after, ticker, settled[n - 1], rs[n - 1]));
        if held(before.state.tickers, ticker) != 0 && rs[n - 1] is GivenUp {
            crate::table::lemma_same_keys(
                before.state.tickers,
                after.state.tickers,
                ticker,
                given_up(before.state.tickers.at(ticker)),
            );
        }
    }
}

/// One position more.
proof fn lemma_resolved_step(
    before: Trader,
    mid: Trader,
    after: Trader,
    tickers: Seq<Seq<char>>,
    settled: Map<Seq<char>, Option<bool>>,
    rs: Seq<Resolution>,
)
    requires
        tickers.len() > 0,
        rs.len() == tickers.len(),
        resolved(before, mid, tickers.drop_last(), settled, rs.drop_last()),
        resolved_one(mid, after, tickers.last(), settled, rs.last()),
    ensures
        resolved(before, after, tickers, settled, rs),
{
}

impl Trader {
    /// Looks at one vanished position: flat, settled, or not listed yet.
    fn resolve_one(&mut self, ticker: &str, settled: &Table<Option<bool>>) -> (r: Resolution)
        requires
            old(self).wf(),
            settled.wf(),
        ensures
            final(self).wf(),
            resolved_one(*old(self), *final(self), ticker@, settled@, r),
    {
        let held: i64 = match self.state.tickers.get(ticker) {
            Some(ts) => ts.position,
            None => 0,
        };
        if held == 0 {
            self.settlement_checks.remove(ticker);
            return Resolution::Flat;
        }
        let ghost before = *self;
        let ghost i = self.state.tickers.keys().index_of(ticker@);
        proof {
            assert(self.state.tickers.keys()[i] == ticker@);
            assert(self.state.tickers.values()[i].wf());
        }
        match settled.get(ticker) {
            Some(found) => {
                let result: Option<bool> = *found;
                self.settlement_checks.remove(ticker);
                match self.state.apply_settlement(ticker, result) {
                    Some(realized) => {
                        let ghost booked = self.state;
                        let category = self.category_text(ticker);
                        self.enforce_category_halt(category.as_str());
                        assert(booked_settlement(before.state, booked, ticker@, result));
                        Resolution::Settled(result, Some(realized))
                    },
                    None => Resolution::Settled(result, None),
                }
            },
            None => {
                let waited: u32 = match self.settlement_checks.get(ticker) {
                    Some(n) => *n,
                    None => 0,
                };
                let checks: u32 = if waited < u32::MAX {
                    waited + 1
                } else {
                    waited
                };
                if checks >= MAX_SETTLEMENT_CHECKS {
                    let ts = self.state.tickers.get_mut(ticker);
                    ts.position = 0;
                    ts.entry_price = None;
                    ts.carried = false;
                    self.settlement_checks.remove(ticker);
                    proof {
                        let after = self.state.tickers.values()[i];
                        crate::trader::lemma_market_wf(before.state, self.state, ticker@, after);
                    }
                    Resolution::GivenUp
                } else {
                    self.settlement_checks.insert(ticker.to_string(), checks);
                    Resolution::Waiting(checks)
                }
            },
        }
    }

    /// Books the settlements of positions that have vanished from the
    /// exchange. A position without a settlement record waits, since the
    /// records can lag, and is given up after the last wait.
    pub fn resolve_vanished_positions(&mut self, tickers: &Vec<String>, reply: &Json) -> (r: Vec<
        Resolution,
    >)
        requires
            old(self).wf(),
        ensures
            final(self).wf(),
            resolved(
                *old(self),
                *final(self),
                names_view(tickers@),
                results_of(list_in(reply@.field("settlements"@))),
                r@,
            ),
    {
        let settled = parse_settlements(reply);
        let ghost names = names_view(tickers@);
        let ghost before = *self;
        let mut out: Vec<Resolution> = Vec::new();
        assert(names.take(0) =~= Seq::<Seq<char>>::empty());
        let mut i: usize = 0;
        while i < tickers.len()
            invariant
                settled.wf(),
                i <= tickers.len(),
                names == names_view(tickers@),
                self.wf(),
                out@.len() == i,
                resolved(before, *self, names.take(i as int), settled@, out@),
            decreases tickers.len() - i,
        {
            let ghost mid = *self;
            let ghost so_far = out@;
            let one = self.resolve_one(tickers[i].as_str(), &settled);
            let ghost last = one;
            out.push(one);
            proof {
                assert(out@.last() == last);
                assert(resolved_one(mid, *self, tickers@[i as int]@, settled@, last));
                let seen = names.take(i + 1);
                assert(seen.drop_last() =~= names.take(i as int));
                assert(seen.last() == tickers@[i as int]@);
                assert(out@.drop_last() =~= so_far);
                assert(resolved(before, mid, seen.drop_last(), settled@, out@.drop_last()));
                assert(out@.len() == seen.len());
                assert(seen.len() > 0);
                lemma_resolved_step(before, mid, *self, seen, settled@, out@);
            }
            i += 1;
        }
        assert(names.take(names.len() as int) =~= names);
        out
    }
}

// --- lost entry prices -------------------------------------------------------

/// The entry price of a market is lost: it holds a position, it is quoted, and
/// the price is not known.
pub open spec fn lacks_entry(t: Trader, ticker: Seq<char>, ts: TickerState) -> bool {
    ts.position != 0 && ts.entry_price is None && t.active_tickers.has(ticker)
}

/// The markets among the first `n` whose entry price is lost.
pub open spec fn lacking(t: Trader, n: int) -> Seq<Seq<char>>
    decreases n,
{
    if n <= 0 {
        seq![]
    } else {
        let before = lacking(t, n - 1);
        if lacks_entry(t, t.state.tickers.keys()[n - 1], t.state.tickers.values()[n - 1]) {
            before.push(t.state.tickers.keys()[n - 1])
        } else {
            before
        }
    }
}

/// What a market's fills said of its entry price.
pub enum Backfill {
    /// They end flat.
    Flat,
    /// They end at another position than the one held: some are missing.
    Mismatch(i64),
    /// They end at the position held, with this entry price.
    Found(i64),
}

/// What fills say of an entry price, for a position held.
pub open spec fn backfill_of(fills: Seq<NormalizedFill>, held: int) -> Backfill {
    let (position, entry) = replayed(fills);
    match entry {
        None => Backfill::Flat,
        Some(price) => if position == held {
            Backfill::Found(price)
        } else {
            Backfill::Mismatch(position as i64)
        },
    }
}

impl Trader {
    /// The markets whose entry price is lost, as after a restart.
    pub fn needs_backfill(&self) -> (r: Vec<String>)
        requires
            self.wf(),
        ensures
            names_view(r@) == lacking(*self, self.state.tickers.keys().len() as int),
    {
        let mut out: Vec<String> = Vec::new();
        let ghost keys = self.state.tickers.keys();
        assert(names_view(out@) =~= Seq::<Seq<char>>::empty());
        let mut i: usize = 0;
        while i < self.state.tickers.len()
            invariant
                self.wf(),
                keys == self.state.tickers.keys(),
                i <= keys.len(),
                names_view(out@) == lacking(*self, i as int),
            decreases keys.len() - i,
        {
            let ts = self.state.tickers.value_at(i);
            let key = self.state.tickers.key_at(i);
            let ghost before = names_view(out@);
            if ts.position != 0 && ts.entry_price.is_none() && self.active_tickers.contains(key) {
                out.push(key.to_string());
                assert(names_view(out@) =~= before.push(keys[i as int]));
            }
            i += 1;
        }
        out
    }

    /// Sets a market's entry price from its fills, where they end at the
    /// position held. Otherwise the price stays unknown: a wrong one would be
    /// worse.
    pub fn backfill_entry_price(&mut self, ticker: &str, history: &FillHistory) -> (r: Backfill)
        requires
            old(self).wf(),
            history.wf(),
        ensures
            final(self).wf(),
            r == backfill_of(
                history.list(),
                crate::trader::held(old(self).state.tickers, ticker@),
            ),
            (r is Found && old(self).state.tickers.has(ticker@)) ==> {
                &&& replaced_market(
                    old(self).state.tickers,
                    final(self).state.tickers,
                    ticker@,
                    (TickerState {
                        entry_price: Some(r->Found_0),
                        ..old(self).state.tickers.at(ticker@)
                    }),
                )
                &&& *final(self) == (Trader {
                    state: TraderState {
                        tickers: final(self).state.tickers,
                        ..old(self).state
                    },
                    ..*old(self)
                })
            },
            !(r is Found && old(self).state.tickers.has(ticker@)) ==> *final(self) == *old(self),
    {
        let (position, entry) = replay_entry_price(history.fills());
        let price: i64 = match entry {
            Some(p) => p,
            None => {
                return Backfill::Flat;
            },
        };
        let held: i64 = match self.state.tickers.get(ticker) {
            Some(ts) => ts.position,
            None => 0,
        };
        if position != held {
            return Backfill::Mismatch(position);
        }
        if self.state.tickers.contains(ticker) {
            let ghost before = *self;
            let ghost i = self.state.tickers.keys().index_of(ticker@);
            proof {
                assert(self.state.tickers.keys()[i] == ticker@);
                assert(self.state.tickers.values()[i].wf());
            }
            let ts = self.state.tickers.get_mut(ticker);
            ts.entry_price = Some(price);
            proof {
                let after = self.state.tickers.values()[i];
                crate::trader::lemma_market_wf(before.state, self.state, ticker@, after);
            }
        }
        Backfill::Found(price)
    }
}

// --- exits -------------------------------------------------------------------

/// An exit to be sent.
pub struct Exit {
    pub ticker: String,
    pub category: String,
    pub plan: ExitPlan,
}

/// An exit by what it holds.
#[verifier::ext_equal]
pub struct ExitView {
    pub ticker: Seq<char>,
    pub category: Seq<char>,
    pub plan: ExitPlan,
}

/// Exits by what they hold.
pub open spec fn exits_view(exits: Seq<Exit>) -> Seq<ExitView> {
    exits.map_values(
        |e: Exit| ExitView { ticker: e.ticker@, category: e.category@, plan: e.plan },
    )
}

/// A market was unwound a moment ago, and its fill may not be booked yet.
pub open spec fn held_off(until: Map<Seq<char>, i64>, ticker: Seq<char>, now: int) -> bool {
    until.dom().contains(ticker) && now < until[ticker]
}

/// The exits among the first `n` markets.
pub open spec fn exits_due(t: Trader, now_s: int, now_mono: int, n: int) -> Seq<ExitView>
    decreases n,
{
    if n <= 0 {
        seq![]
    } else {
        let before = exits_due(t, now_s, now_mono, n - 1);
        let ticker = t.state.tickers.keys()[n - 1];
        match exit_for(t.state.tickers.values()[n - 1], now_s) {
            Some(plan) => if held_off(t.spot_unwind_fired_until@, ticker, now_mono) {
                before
            } else {
                before.push(
                    ExitView {
                        ticker,
                        category: match t.category(ticker) {
                            Some(c) => c,
                            None => "UNKNOWN"@,
                        },
                        plan,
                    },
                )
            },
            None => before,
        }
    }
}

impl Trader {
    /// The positions to be left now, by stop loss or before the close.
    pub fn check_exits(&self, now_s: i64, now_mono: i64) -> (r: Vec<Exit>)
        requires
            self.wf(),
        ensures
            exits_view(r@) == exits_due(
                *self,
                now_s as int,
                now_mono as int,
                self.state.tickers.keys().len() as int,
            ),
    {
        let mut out: Vec<Exit> = Vec::new();
        let ghost keys = self.state.tickers.keys();
        assert(exits_view(out@) =~= Seq::<ExitView>::empty());
        let mut i: usize = 0;
        while i < self.state.tickers.len()
            invariant
                self.wf(),
                keys == self.state.tickers.keys(),
                i <= keys.len(),
                exits_view(out@) == exits_due(*self, now_s as int, now_mono as int, i as int),
            decreases keys.len() - i,
        {
            let ts = self.state.tickers.value_at(i);
            let key = self.state.tickers.key_at(i);
            let recent = match self.spot_unwind_fired_until.get(key) {
                Some(until) => now_mono < *until,
                None => false,
            };
            if !recent {
                match exit_decision(ts, now_s) {
                    Some(plan) => {
                        let category = match self.active_tickers.get(key) {
                            Some(c) => c.clone(),
                            None => "UNKNOWN".to_string(),
                        };
                        let ghost before = exits_view(out@);
                        let ghost view = ExitView { ticker: key@, category: category@, plan };
                        out.push(Exit { ticker: key.to_string(), category, plan });
                        assert(exits_view(out@) =~= before.push(view));
                    },
                    None => {},
                }
            }
            i += 1;
        }
        out
    }
}

// --- the day and the report --------------------------------------------------

/// How far back the fills are read again, in seconds.
pub const FILL_OVERLAP: i64 = 60;

/// The time from which fills are read, in seconds: with an overlap, since
/// fills that were seen are known by their ids.
pub fn fills_since(last: i64) -> (r: i64)
    ensures
        r == crate::num::clamp64(last - FILL_OVERLAP),
{
    crate::num::to_i64(last as i128 - FILL_OVERLAP as i128)
}

/// The mark up to which fills were read: now after a clean sweep, and as
/// before where a page failed, so that nothing is skipped.
pub fn fills_mark(last: i64, now: i64, clean: bool) -> (r: i64)
    ensures
        r == if clean {
            now
        } else {
            last
        },
{
    if clean {
        now
    } else {
        last
    }
}

/// The numbers of a report.
#[derive(Debug, Clone, Copy)]
pub struct Report {
    pub quotes_sent: u64,
    pub fills: u64,
    /// Fills per quote, in billionths.
    pub fill_rate: i128,
    pub taker_fills: u64,
    pub maker_fills: u64,
    /// Taker fills per fill, in billionths.
    pub taker_share: i128,
    /// Less than a tenth of the fills took.
    pub gate_passed: bool,
    pub fees_paid: i128,
    pub wins: u64,
    pub losses: u64,
    pub win_rate: i128,
    pub daily_pnl: i128,
    pub cumulative_pnl: i128,
    pub open_positions: usize,
}

/// The markets with a position.
pub open spec fn open_count(values: Seq<TickerState>) -> int
    decreases values.len(),
{
    if values.len() == 0 {
        0
    } else {
        open_count(values.drop_last()) + (if values.last().position != 0 {
            1int
        } else {
            0
        })
    }
}

/// Taker fills per fill, in billionths.
pub open spec fn taker_share_of(takers: int, makers: int) -> int {
    if takers + makers == 0 {
        0
    } else {
        round_even(takers * NANO, takers + makers)
    }
}

impl Trader {
    /// Starts a new day where the date of the last reset is not today's; dates
    /// are years and days of the year.
    pub fn maybe_daily_reset(&mut self, today: (i32, u32), last: (i32, u32), now_s: i64) -> (r: bool)
        requires
            old(self).wf(),
        ensures
            final(self).wf(),
            r == (today != last),
            !r ==> *final(self) == *old(self),
            r ==> {
                &&& final(self).state.halted_categories@ == Map::<Seq<char>, ()>::empty()
                &&& final(self).state.consecutive_losses@ == Map::<Seq<char>, u64>::empty()
                &&& *final(self) == (Trader {
                    state: TraderState {
                        daily_pnl: 0,
                        quotes_sent: 0,
                        fills: 0,
                        last_reset: now_s,
                        halted_categories: final(self).state.halted_categories,
                        consecutive_losses: final(self).state.consecutive_losses,
                        ..old(self).state
                    },
                    ..*old(self)
                })
            },
    {
        if today.0 == last.0 && today.1 == last.1 {
            return false;
        }
        self.state.reset_daily(now_s);
        true
    }

    /// The numbers of the hourly report. A market maker hardly ever takes: a
    /// tenth of the fills or more is too much.
    pub fn hourly_report(&self) -> (r: Report)
        requires
            self.wf(),
        ensures
            r.quotes_sent == self.state.quotes_sent,
            r.fills == self.state.fills,
            r.fill_rate == if self.state.quotes_sent == 0 {
                0
            } else {
                round_even(self.state.fills * NANO, self.state.quotes_sent as int)
            },
            r.taker_fills == self.state.taker_fills,
            r.maker_fills == self.state.maker_fills,
            r.taker_share == taker_share_of(
                self.state.taker_fills as int,
                self.state.maker_fills as int,
            ),
            r.gate_passed == (self.state.taker_fills * 9 < self.state.maker_fills || (
            self.state.taker_fills == 0 && self.state.maker_fills == 0)),
            r.fees_paid == self.state.fees_paid,
            r.wins == self.state.wins,
            r.losses == self.state.losses,
            r.win_rate == if self.state.wins + self.state.losses == 0 {
                0
            } else {
                round_even(self.state.wins * NANO, self.state.wins + self.state.losses)
            },
            r.daily_pnl == self.state.daily_pnl,
            r.cumulative_pnl == self.state.cumulative_pnl,
            r.open_positions == open_count(self.state.tickers.values()),
    {
        let s = &self.state;
        let takers: i128 = s.taker_fills as i128;
        let total: i128 = takers + s.maker_fills as i128;
        assert(takers * NANO <= 0x4_0000_0000 * 0x1_0000_0000_0000_0000) by (nonlinear_arith)
            requires
                0 <= takers <= 0xffff_ffff_ffff_ffff,
                NANO == 1_000_000_000,
        ;
        assert(takers * NANO >= 0) by (nonlinear_arith)
            requires
                0 <= takers,
                NANO == 1_000_000_000,
        ;
        let taker_share: i128 = if total == 0 {
            0
        } else {
            div_even(takers * NANO as i128, total)
        };
        let ghost values = self.state.tickers.values();
        let mut open: usize = 0;
        let mut i: usize = 0;
        while i < s.tickers.len()
            invariant
                self.wf(),
                *s == self.state,
                values == self.state.tickers.values(),
                i <= values.len(),
                open <= i,
                open == open_count(values.take(i as int)),
            decreases values.len() - i,
        {
            proof {
                assert(values.take(i + 1).drop_last() =~= values.take(i as int));
                assert(values.take(i + 1).last() == values[i as int]);
            }
            if s.tickers.value_at(i).position != 0 {
                open = open + 1;
            }
            i += 1;
        }
        assert(values.take(values.len() as int) =~= values);
        Report {
            quotes_sent: s.quotes_sent,
            fills: s.fills,
            fill_rate: s.fill_rate(),
            taker_fills: s.taker_fills,
            maker_fills: s.maker_fills,
            taker_share,
            gate_passed: total == 0 || takers * 10 < total,
            fees_paid: s.fees_paid,
            wins: s.wins,
            losses: s.losses,
            win_rate: s.win_rate(),
            daily_pnl: s.daily_pnl,
            cumulative_pnl: s.cumulative_pnl,
            open_positions: open,
        }
    }
}

} // verus!
