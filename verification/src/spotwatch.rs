//! The trader's reaction to the spot price: the barrier that pulls quotes, and
//! the unwinding of positions that the price has moved against.

use vstd::prelude::*;

use crate::engine::{resting_ids, spot_exit_for, spot_unwind_decision};
use crate::ladder::names_view;
use crate::num::{add64, clamp64, NANO};
use crate::spot::{averaged, is_outlier, retained, stale};
use crate::state::{TickerState, TraderState};
use crate::table::Table;
use crate::trader::{is_gated, Trader};
use crate::upkeep::{exits_due, exits_view, held_off, Exit, ExitView};

verus! {

/// The time between two looks at one market's unwind, in microseconds.
pub const UNWIND_INTERVAL: i64 = 1_000_000;

/// How long an unwound market is left alone, in microseconds: longer than the
/// fill takes to be booked, or a second exit would overshoot.
pub const UNWIND_HOLDOFF: i64 = 10_000_000;

// --- the barrier -------------------------------------------------------------

/// A change of the barrier.
pub enum GateEdge {
    /// The barrier stays as it was.
    Same,
    /// The barrier has closed; these orders are to be canceled.
    Closed(Vec<String>),
    /// The barrier has opened.
    Opened,
}

/// A market whose orders were taken out.
pub open spec fn without_orders(ts: TickerState) -> TickerState {
    TickerState { bid_order_id: None, ask_order_id: None, ..ts }
}

/// The orders among the first `n` markets whose category follows a feed.
pub open spec fn bound_ids(values: Seq<TickerState>, bound: Table<()>, n: int) -> Seq<Seq<char>>
    decreases n,
{
    if n <= 0 {
        seq![]
    } else {
        let before = bound_ids(values, bound, n - 1);
        if bound.has(values[n - 1].category@) {
            before + resting_ids(values[n - 1])
        } else {
            before
        }
    }
}

/// The markets before and after the orders of those that follow a feed were
/// taken out.
pub open spec fn pulled(before: Table<TickerState>, after: Table<TickerState>, bound: Table<()>) -> bool {
    &&& after.keys() == before.keys()
    &&& after.values().len() == before.values().len()
    &&& forall|i: int|
        0 <= i < before.values().len() ==> #[trigger] after.values()[i] == if bound.has(
            before.values()[i].category@,
        ) {
            without_orders(before.values()[i])
        } else {
            before.values()[i]
        }
}

/// Takes the order out of a slot and puts it on a list.
fn take_slot(slot: &mut Option<String>, ids: &mut Vec<String>)
    ensures
        *final(slot) is None,
        names_view(final(ids)@) == match *old(slot) {
            Some(id) => names_view(old(ids)@).push(id@),
            None => names_view(old(ids)@),
        },
{
    let ghost before = names_view(ids@);
    match slot.take() {
        Some(id) => {
            let ghost view = id@;
            ids.push(id);
            assert(names_view(ids@) =~= before.push(view));
        },
        None => {},
    }
}

impl Trader {
    /// Takes out the resting orders of the markets that follow a feed, and
    /// lists them for cancellation.
    pub fn cancel_spot_bound_quotes(&mut self) -> (r: Vec<String>)
        requires
            old(self).wf(),
        ensures
            final(self).wf(),
            names_view(r@) == bound_ids(
                old(self).state.tickers.values(),
                old(self).spot_bound,
                old(self).state.tickers.values().len() as int,
            ),
            pulled(old(self).state.tickers, final(self).state.tickers, old(self).spot_bound),
            *final(self) == (Trader {
                state: TraderState { tickers: final(self).state.tickers, ..old(self).state },
                ..*old(self)
            }),
    {
        let ghost before = *self;
        let ghost keys = self.state.tickers.keys();
        let ghost start = self.state.tickers.values();
        let mut ids: Vec<String> = Vec::new();
        assert(names_view(ids@) =~= Seq::<Seq<char>>::empty());
        let mut i: usize = 0;
        while i < self.state.tickers.len()
            invariant
                before.wf(),
                keys == before.state.tickers.keys(),
                start == before.state.tickers.values(),
                i <= keys.len(),
                self.wf(),
                *self == (Trader {
                    state: TraderState { tickers: self.state.tickers, ..before.state },
                    ..before
                }),
                self.state.tickers.keys() == keys,
                forall|j: int|
                    0 <= j < i ==> #[trigger] self.state.tickers.values()[j]
                        == if before.spot_bound.has(start[j].category@) {
                        without_orders(start[j])
                    } else {
                        start[j]
                    },
                forall|j: int|
                    i <= j < keys.len() ==> #[trigger] self.state.tickers.values()[j] == start[j],
                names_view(ids@) == bound_ids(start, before.spot_bound, i as int),
            decreases keys.len() - i,
        {
            let ghost prior = *self;
            proof {
                assert(self.state.tickers.values()[i as int] == start[i as int]);
                assert(start[i as int].wf());
            }
            let bound = self.spot_bound.contains(
                self.state.tickers.value_at(i).category.as_str(),
            );
            if bound {
                let ghost listed = names_view(ids@);
                let ts = self.state.tickers.value_at_mut(i);
                take_slot(&mut ts.bid_order_id, &mut ids);
                take_slot(&mut ts.ask_order_id, &mut ids);
                proof {
                    assert(names_view(ids@) =~= listed + resting_ids(start[i as int]));
                    let after = self.state.tickers.values()[i as int];
                    crate::table::lemma_at(prior.state.tickers, i as int);
                    crate::trader::lemma_market_wf(
                        prior.state,
                        self.state,
                        keys[i as int],
                        after,
                    );
                }
            }
            i += 1;
        }
        ids
    }

    /// Looks at the barrier. When it closes, the resting orders of the markets
    /// behind it are pulled, once. Without categories that follow a feed there
    /// is no barrier. A feed that has died sends no ticks, so a timer asks too.
    pub fn update_spot_gate(&mut self, now_mono: i64) -> (r: GateEdge)
        requires
            old(self).wf(),
        ensures
            final(self).wf(),
            ({
                let gated = is_gated(
                    old(self).spot.ticks(),
                    old(self).cfg.spot,
                    old(self).spot_gate_on,
                    now_mono as int,
                );
                if old(self).spot_bound.keys().len() == 0 {
                    r is Same && *final(self) == *old(self)
                } else if gated && !old(self).spot_gate_on {
                    &&& r matches GateEdge::Closed(ids)
                    &&& names_view(ids@) == bound_ids(
                        old(self).state.tickers.values(),
                        old(self).spot_bound,
                        old(self).state.tickers.values().len() as int,
                    )
                    &&& pulled(
                        old(self).state.tickers,
                        final(self).state.tickers,
                        old(self).spot_bound,
                    )
                    &&& *final(self) == (Trader {
                        spot_gate_on: true,
                        state: TraderState {
                            tickers: final(self).state.tickers,
                            ..old(self).state
                        },
                        ..*old(self)
                    })
                } else {
                    &&& r is Opened <==> !gated && old(self).spot_gate_on
                    &&& r is Same <==> gated == old(self).spot_gate_on
                    &&& *final(self) == (Trader { spot_gate_on: gated, ..*old(self) })
                }
            }),
    {
        if self.spot_bound.len() == 0 {
            return GateEdge::Same;
        }
        let gated = self.spot_gated(now_mono);
        if gated && !self.spot_gate_on {
            let ids = self.cancel_spot_bound_quotes();
            self.spot_gate_on = true;
            return GateEdge::Closed(ids);
        }
        let was_on = self.spot_gate_on;
        self.spot_gate_on = gated;
        if !gated && was_on {
            GateEdge::Opened
        } else {
            GateEdge::Same
        }
    }
}

// --- unwinding ---------------------------------------------------------------

/// A market whose unwind is looked at now: it holds a position, it follows a
/// feed, and neither the interval nor the holdoff runs.
pub open spec fn unwind_due(t: Trader, ticker: Seq<char>, ts: TickerState, now: int) -> bool {
    &&& ts.position != 0
    &&& t.spot_bound.has(ts.category@)
    &&& !held_off(t.spot_unwind_next@, ticker, now)
    &&& !held_off(t.spot_unwind_fired_until@, ticker, now)
}

/// The exit that a market's shift calls for.
pub open spec fn unwind_of(t: Trader, ticker: Seq<char>, ts: TickerState) -> Option<
    crate::engine::ExitPlan,
> {
    match t.shift(ticker, ts.category@) {
        Some(shift) => spot_exit_for(ts, shift, t.cfg.spot.unwind_shift as int),
        None => None,
    }
}

/// The exits among the first `n` markets.
pub open spec fn unwinds(t: Trader, now: int, n: int) -> Seq<ExitView>
    decreases n,
{
    if n <= 0 {
        seq![]
    } else {
        let before = unwinds(t, now, n - 1);
        let ticker = t.state.tickers.keys()[n - 1];
        let ts = t.state.tickers.values()[n - 1];
        match unwind_of(t, ticker, ts) {
            Some(plan) => if unwind_due(t, ticker, ts, now) {
                before.push(ExitView { ticker, category: ts.category@, plan })
            } else {
                before
            },
            None => before,
        }
    }
}

/// The times of the next looks, after the first `n` markets.
pub open spec fn next_looks(t: Trader, now: int, n: int) -> Map<Seq<char>, i64>
    decreases n,
{
    if n <= 0 {
        t.spot_unwind_next@
    } else {
        let before = next_looks(t, now, n - 1);
        let ticker = t.state.tickers.keys()[n - 1];
        if unwind_due(t, ticker, t.state.tickers.values()[n - 1], now) {
            before.insert(ticker, clamp64(now + UNWIND_INTERVAL) as i64)
        } else {
            before
        }
    }
}

/// The ends of the holdoffs, after the first `n` markets.
pub open spec fn holdoffs(t: Trader, now: int, n: int) -> Map<Seq<char>, i64>
    decreases n,
{
    if n <= 0 {
        t.spot_unwind_fired_until@
    } else {
        let before = holdoffs(t, now, n - 1);
        let ticker = t.state.tickers.keys()[n - 1];
        let ts = t.state.tickers.values()[n - 1];
        if unwind_due(t, ticker, ts, now) && unwind_of(t, ticker, ts) is Some {
            before.insert(ticker, clamp64(now + UNWIND_HOLDOFF) as i64)
        } else {
            before
        }
    }
}

/// The looks at the first markets do not reach a later one.
proof fn lemma_looks_reach(t: Trader, now: int, n: int, k: Seq<char>)
    requires
        t.wf(),
        0 <= n <= t.state.tickers.keys().len(),
        forall|j: int| 0 <= j < n ==> t.state.tickers.keys()[j] != k,
    ensures
        held_off(next_looks(t, now, n), k, now) == held_off(t.spot_unwind_next@, k, now),
        held_off(holdoffs(t, now, n), k, now) == held_off(t.spot_unwind_fired_until@, k, now),
    decreases n,
{
    if n > 0 {
        lemma_looks_reach(t, now, n - 1, k);
        assert(t.state.tickers.keys()[n - 1] != k);
    }
}

/// The trader before and after the unwinds were looked at: nothing happens on
/// a stale feed.
pub open spec fn unwound(before: Trader, after: Trader, now: int, exits: Seq<ExitView>) -> bool {
    let n = before.state.tickers.keys().len() as int;
    if stale(before.spot.ticks(), now, before.cfg.spot.stale_max_s as int) {
        exits.len() == 0 && after == before
    } else {
        &&& exits == unwinds(before, now, n)
        &&& after.spot_unwind_next@ == next_looks(before, now, n)
        &&& after.spot_unwind_fired_until@ == holdoffs(before, now, n)
        &&& after == (Trader {
            spot_unwind_next: after.spot_unwind_next,
            spot_unwind_fired_until: after.spot_unwind_fired_until,
            ..before
        })
    }
}

/// The unwinds depend on nothing that a look changes.
proof fn lemma_same_shift(a: Trader, b: Trader, ticker: Seq<char>, category: Seq<char>)
    requires
        b == (Trader {
            spot_unwind_next: b.spot_unwind_next,
            spot_unwind_fired_until: b.spot_unwind_fired_until,
            ..a
        }),
    ensures
        a.shift(ticker, category) == b.shift(ticker, category),
{
}

impl Trader {
    /// The positions that the spot price has moved against, to be left at once.
    /// Halted categories are looked at too: leaving lowers the risk.
    pub fn check_spot_unwind(&mut self, now_mono: i64) -> (r: Vec<Exit>)
        requires
            old(self).wf(),
        ensures
            final(self).wf(),
            unwound(*old(self), *final(self), now_mono as int, exits_view(r@)),
    {
        let mut out: Vec<Exit> = Vec::new();
        assert(exits_view(out@) =~= Seq::<ExitView>::empty());
        if self.spot.is_stale(now_mono, self.cfg.spot.stale_max_s) {
            return out;
        }
        let ghost before = *self;
        let ghost keys = self.state.tickers.keys();
        let ghost values = self.state.tickers.values();
        let mut i: usize = 0;
        while i < self.state.tickers.len()
            invariant
                before.wf(),
                self.wf(),
                keys == before.state.tickers.keys(),
                values == before.state.tickers.values(),
                i <= keys.len(),
                *self == (Trader {
                    spot_unwind_next: self.spot_unwind_next,
                    spot_unwind_fired_until: self.spot_unwind_fired_until,
                    ..before
                }),
                exits_view(out@) == unwinds(before, now_mono as int, i as int),
                self.spot_unwind_next@ == next_looks(before, now_mono as int, i as int),
                self.spot_unwind_fired_until@ == holdoffs(before, now_mono as int, i as int),
            decreases keys.len() - i,
        {
            let key = self.state.tickers.key_at(i).to_string();
            let ts = self.state.tickers.value_at(i);
            proof {
                assert forall|j: int| 0 <= j < i implies keys[j] != keys[i as int] by {}
                lemma_looks_reach(before, now_mono as int, i as int, keys[i as int]);
            }
            let next = match self.spot_unwind_next.get(key.as_str()) {
                Some(t) => now_mono < *t,
                None => false,
            };
            let fired = match self.spot_unwind_fired_until.get(key.as_str()) {
                Some(t) => now_mono < *t,
                None => false,
            };
            let due = ts.position != 0 && self.spot_bound.contains(ts.category.as_str()) && !next
                && !fired;
            if due {
                let category = ts.category.clone();
                proof {
                    lemma_same_shift(before, *self, key@, category@);
                }
                let shift = self.fv_shift_for(key.as_str(), category.as_str());
                let plan = match shift {
                    Some(s) => spot_unwind_decision(ts, s, self.cfg.spot.unwind_shift),
                    None => None,
                };
                self.spot_unwind_next.insert(key.clone(), add64(now_mono, UNWIND_INTERVAL));
                match plan {
                    Some(p) => {
                        self.spot_unwind_fired_until.insert(
                            key.clone(),
                            add64(now_mono, UNWIND_HOLDOFF),
                        );
                        let ghost listed = exits_view(out@);
                        let ghost view = ExitView {
                            ticker: key@,
                            category: category@,
                            plan: p,
                        };
                        out.push(Exit { ticker: key, category, plan: p });
                        assert(exits_view(out@) =~= listed.push(view));
                    },
                    None => {},
                }
            }
            i += 1;
        }
        out
    }

    /// A spot price: false where the guard dropped it. The caller then looks
    /// at the barrier and at the unwinds.
    pub fn on_spot_tick(&mut self, price: i64, now_mono: i64, alpha: i64) -> (r: bool)
        requires
            old(self).wf(),
            0 <= alpha <= NANO,
        ensures
            final(self).wf(),
            r == !is_outlier(old(self).spot.ticks(), price as int, now_mono as int),
            !r ==> *final(self) == *old(self),
            r ==> {
                &&& final(self).spot.ticks() == retained(
                    old(self).spot.ticks().push((now_mono, price)),
                    now_mono as int,
                )
                &&& final(self).spot.average() is Some
                &&& final(self).spot.average()->Some_0 == if old(self).spot.ticks().len() == 0 {
                    price as int
                } else {
                    averaged(
                        old(self).spot.average()->Some_0 as int,
                        price as int,
                        alpha as int,
                    )
                }
                &&& final(self).spot.horizon() == old(self).spot.horizon()
                &&& *final(self) == (Trader { spot: final(self).spot, ..*old(self) })
            },
    {
        self.spot.on_tick(price, now_mono, alpha)
    }
}

// --- laws --------------------------------------------------------------------

/// Once a market is unwound neither another unwind nor a stop leaves it before
/// the holdoff has run, whatever else has changed: the fill may not be booked
/// yet, and a second exit would turn the position around.
pub proof fn law_no_second_exit(
    before: Trader,
    after: Trader,
    later: Trader,
    exits: Seq<ExitView>,
    i: int,
    first: int,
    now: int,
    now_s: int,
)
    requires
        unwound(before, after, first, exits),
        0 <= i < exits.len(),
        first + UNWIND_HOLDOFF <= i64::MAX,
        i64::MIN <= first,
        later.spot_unwind_fired_until@ == after.spot_unwind_fired_until@,
        now < first + UNWIND_HOLDOFF,
    ensures
        forall|n: int, j: int|
            0 <= j < unwinds(later, now, n).len() ==> (#[trigger] unwinds(later, now, n)[j]).ticker
                != exits[i].ticker,
        forall|n: int, j: int|
            0 <= j < exits_due(later, now_s, now, n).len() ==> (#[trigger] exits_due(
                later,
                now_s,
                now,
                n,
            )[j]).ticker != exits[i].ticker,
{
    let k = exits[i].ticker;
    lemma_fired(before, first, before.state.tickers.keys().len() as int, i);
    assert forall|n: int, j: int| 0 <= j < unwinds(later, now, n).len() implies (
    #[trigger] unwinds(later, now, n)[j]).ticker != k by {
        lemma_held_back(later, now, now_s, n, k);
    }
    assert forall|n: int, j: int| 0 <= j < exits_due(later, now_s, now, n).len() implies (
    #[trigger] exits_due(later, now_s, now, n)[j]).ticker != k by {
        lemma_held_back(later, now, now_s, n, k);
    }
}

/// An unwind starts the holdoff of its market.
proof fn lemma_fired(t: Trader, now: int, n: int, i: int)
    requires
        0 <= i < unwinds(t, now, n).len(),
    ensures
        holdoffs(t, now, n).dom().contains(unwinds(t, now, n)[i].ticker),
        holdoffs(t, now, n)[unwinds(t, now, n)[i].ticker] == clamp64(now + UNWIND_HOLDOFF) as i64,
    decreases n,
{
    if n > 0 && i < unwinds(t, now, n - 1).len() {
        lemma_fired(t, now, n - 1, i);
    }
}

/// A market that is held off is not left.
proof fn lemma_held_back(t: Trader, now: int, now_s: int, n: int, k: Seq<char>)
    requires
        held_off(t.spot_unwind_fired_until@, k, now),
    ensures
        forall|j: int|
            0 <= j < unwinds(t, now, n).len() ==> (#[trigger] unwinds(t, now, n)[j]).ticker != k,
        forall|j: int|
            0 <= j < exits_due(t, now_s, now, n).len() ==> (#[trigger] exits_due(
                t,
                now_s,
                now,
                n,
            )[j]).ticker != k,
    decreases n,
{
    if n > 0 {
        lemma_held_back(t, now, now_s, n - 1, k);
        assert forall|j: int| 0 <= j < unwinds(t, now, n).len() implies (#[trigger] unwinds(
            t,
            now,
            n,
        )[j]).ticker != k by {
            if j < unwinds(t, now, n - 1).len() {
                assert(unwinds(t, now, n - 1)[j].ticker != k);
            }
        }
        assert forall|j: int| 0 <= j < exits_due(t, now_s, now, n).len() implies (
        #[trigger] exits_due(t, now_s, now, n)[j]).ticker != k by {
            if j < exits_due(t, now_s, now, n - 1).len() {
                assert(exits_due(t, now_s, now, n - 1)[j].ticker != k);
            }
        }
    }
}

/// A stale feed closes the barrier, whatever the last return was.
pub proof fn law_stale_feed_is_gated(t: Trader, on: bool, now: int)
    requires
        stale(t.spot.ticks(), now, t.cfg.spot.stale_max_s as int),
    ensures
        is_gated(t.spot.ticks(), t.cfg.spot, on, now),
{
}

/// After the barrier has closed, no market behind it has an order left.
pub proof fn law_closed_gate_leaves_no_orders(
    before: Table<TickerState>,
    after: Table<TickerState>,
    bound: Table<()>,
    i: int,
)
    requires
        pulled(before, after, bound),
        0 <= i < before.values().len(),
        bound.has(before.values()[i].category@),
    ensures
        after.values()[i].bid_order_id is None,
        after.values()[i].ask_order_id is None,
{
}

} // verus!
