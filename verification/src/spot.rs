//! The spot price of one product: its latest price, its average, its return
//! over a window, and whether the feed is still alive.

use std::collections::VecDeque;

use vstd::prelude::*;

use crate::num::{div_even, lemma_round_even_monotone, magnitude, round_even, NANO};

verus! {

/// Ticks older than this are dropped, in microseconds.
pub const RETAIN: i64 = 120_000_000;

/// A jump of more than one part in this many, within the window below, is a
/// bad print.
pub const OUTLIER_PARTS: i64 = 50;

/// The window of the outlier guard, in microseconds.
pub const OUTLIER_WINDOW: i64 = 10_000_000;

/// The window of the trend barrier, in microseconds.
pub const GATE_WINDOW: i64 = 60_000_000;

/// Rolling state of one spot product. Times are monotonic.
pub struct SpotState {
    /// Time and price, oldest first.
    ticks: VecDeque<(i64, i64)>,
    ema: Option<i64>,
    tau_s: i64,
}

/// A tick that the guard drops: no price, or a jump of more than two percent
/// within ten seconds of the last tick.
pub open spec fn is_outlier(ticks: Seq<(i64, i64)>, price: int, now: int) -> bool {
    ||| price <= 0
    ||| ticks.len() > 0 && now - ticks.last().0 < OUTLIER_WINDOW && magnitude(
        price - ticks.last().1,
    ) * OUTLIER_PARTS > ticks.last().1
}

/// The average after a tick, for the weight `alpha` of the new price.
pub open spec fn averaged(ema: int, price: int, alpha: int) -> int {
    ema + round_even(alpha * (price - ema), NANO as int)
}

/// The ticks once those at the front that are too old have gone.
pub open spec fn retained(ticks: Seq<(i64, i64)>, now: int) -> Seq<(i64, i64)>
    decreases ticks.len(),
{
    if ticks.len() > 0 && now - ticks[0].0 > RETAIN {
        retained(ticks.drop_first(), now)
    } else {
        ticks
    }
}

/// The last tick among the first `n` that is at least `window` old.
pub open spec fn base_tick(ticks: Seq<(i64, i64)>, window: int, now: int, n: int) -> Option<int>
    decreases n,
{
    if n <= 0 {
        None
    } else if now - ticks[n - 1].0 >= window {
        Some(n - 1)
    } else {
        base_tick(ticks, window, now, n - 1)
    }
}

/// The return over a window, in billionths, rounded to even; none until the
/// ticks reach back over the window.
pub open spec fn return_over(ticks: Seq<(i64, i64)>, window: int, now: int) -> Option<int> {
    match base_tick(ticks, window, now, ticks.len() as int) {
        Some(i) => Some(
            round_even((ticks.last().1 - ticks[i].1) * NANO, ticks[i].1 as int),
        ),
        None => None,
    }
}

/// No tick within the age allowed.
pub open spec fn stale(ticks: Seq<(i64, i64)>, now: int, max_age: int) -> bool {
    ticks.len() == 0 || now - ticks.last().0 > max_age
}

impl SpotState {
    /// The ticks, oldest first.
    pub closed spec fn ticks(&self) -> Seq<(i64, i64)> {
        self.ticks@
    }

    /// The average price.
    pub closed spec fn average(&self) -> Option<i64> {
        self.ema
    }

    /// The horizon of the average.
    pub closed spec fn horizon(&self) -> i64 {
        self.tau_s
    }

    /// Every price is positive, the average is too, and there is one as soon
    /// as there is a tick.
    pub open spec fn wf(&self) -> bool {
        &&& forall|i: int| 0 <= i < self.ticks().len() ==> (#[trigger] self.ticks()[i]).1 > 0
        &&& self.average() matches Some(e) ==> e > 0
        &&& self.ticks().len() > 0 ==> self.average() is Some
    }

    /// No ticks yet.
    pub fn new(tau_s: i64) -> (r: Self)
        ensures
            r.wf(),
            r.ticks() == Seq::<(i64, i64)>::empty(),
            r.average() is None,
            r.horizon() == tau_s,
    {
        SpotState { ticks: VecDeque::new(), ema: None, tau_s }
    }

    /// The horizon of the average, in microseconds.
    pub fn tau(&self) -> (r: i64)
        ensures
            r == self.horizon(),
    {
        self.tau_s
    }

    /// The time since the last tick, at least zero; none before the first.
    /// The weight of the next price follows from it.
    pub fn since_last(&self, now_mono: i64) -> (r: Option<i128>)
        ensures
            self.ticks().len() == 0 <==> r is None,
            r matches Some(dt) ==> dt == if now_mono > self.ticks().last().0 {
                now_mono - self.ticks().last().0
            } else {
                0
            },
    {
        if self.ticks.len() == 0 {
            return None;
        }
        let last: i64 = self.ticks[self.ticks.len() - 1].0;
        if now_mono > last {
            Some(now_mono as i128 - last as i128)
        } else {
            Some(0)
        }
    }

    /// Takes one tick in; false where the outlier guard dropped it. `alpha` is
    /// the weight of the new price in the average, in billionths: one less the
    /// exponential of minus the time since the last tick over the horizon.
    pub fn on_tick(&mut self, price: i64, now_mono: i64, alpha: i64) -> (r: bool)
        requires
            old(self).wf(),
            0 <= alpha <= NANO,
        ensures
            final(self).wf(),
            r == !is_outlier(old(self).ticks(), price as int, now_mono as int),
            !r ==> *final(self) == *old(self),
            r ==> {
                &&& final(self).ticks() == retained(
                    old(self).ticks().push((now_mono, price)),
                    now_mono as int,
                )
                &&& final(self).average() is Some
                &&& final(self).average()->Some_0 == if old(self).ticks().len() == 0 {
                    price as int
                } else {
                    averaged(
                        old(self).average()->Some_0 as int,
                        price as int,
                        alpha as int,
                    )
                }
                &&& final(self).horizon() == old(self).horizon()
            },
    {
        if price <= 0 {
            return false;
        }
        if self.ticks.len() > 0 {
            let (t_last, p_last) = self.ticks[self.ticks.len() - 1];
            let jump: i128 = if price > p_last {
                price as i128 - p_last as i128
            } else {
                p_last as i128 - price as i128
            };
            assert(0 <= jump * OUTLIER_PARTS <= 0x80_0000_0000_0000_0000) by (nonlinear_arith)
                requires
                    0 <= jump <= 0x1_0000_0000_0000_0000,
                    OUTLIER_PARTS == 50,
            ;
            if (now_mono as i128 - t_last as i128) < OUTLIER_WINDOW as i128 && jump
                * OUTLIER_PARTS as i128 > p_last as i128 {
                return false;
            }
            let ema: i64 = match self.ema {
                Some(e) => e,
                None => p_last,
            };
            let gap: i128 = price as i128 - ema as i128;
            proof {
                lemma_average_between(ema as int, price as int, alpha as int);
                assert(-0x1_0000_0000_0000_0000 * 0x4000_0000 <= alpha * gap
                    <= 0x1_0000_0000_0000_0000 * 0x4000_0000) by (nonlinear_arith)
                    requires
                        0 <= alpha <= 0x4000_0000,
                        -0x1_0000_0000_0000_0000 <= gap <= 0x1_0000_0000_0000_0000,
                ;
            }
            let step: i128 = div_even(alpha as i128 * gap, NANO as i128);
            self.ema = Some((ema as i128 + step) as i64);
        } else {
            self.ema = Some(price);
        }
        let ghost pushed = self.ticks@.push((now_mono, price));
        self.ticks.push_back((now_mono, price));
        while self.ticks.len() > 0 && now_mono as i128 - self.ticks[0].0 as i128 > RETAIN as i128
            invariant
                forall|i: int| 0 <= i < self.ticks@.len() ==> (#[trigger] self.ticks@[i]).1 > 0,
                retained(self.ticks@, now_mono as int) == retained(pushed, now_mono as int),
                self.ema is Some,
                self.ema->Some_0 > 0,
                self.ema->Some_0 == if old(self).ticks().len() == 0 {
                    price as int
                } else {
                    averaged(
                        old(self).average()->Some_0 as int,
                        price as int,
                        alpha as int,
                    )
                },
                self.tau_s == old(self).horizon(),
            decreases self.ticks@.len(),
        {
            let _ = self.ticks.pop_front();
        }
        true
    }

    /// The last price.
    pub fn latest(&self) -> (r: Option<i64>)
        ensures
            r == if self.ticks().len() == 0 {
                None::<i64>
            } else {
                Some(self.ticks().last().1)
            },
    {
        if self.ticks.len() == 0 {
            None
        } else {
            Some(self.ticks[self.ticks.len() - 1].1)
        }
    }

    /// The average price.
    pub fn ema(&self) -> (r: Option<i64>)
        ensures
            r == self.average(),
    {
        self.ema
    }

    /// The number of ticks held.
    pub fn len(&self) -> (r: usize)
        ensures
            r == self.ticks().len(),
    {
        self.ticks.len()
    }

    /// The return over a window, in billionths; none until the ticks reach
    /// back over the window.
    pub fn ret(&self, window_s: i64, now_mono: i64) -> (r: Option<i128>)
        requires
            self.wf(),
        ensures
            match r {
                Some(x) => return_over(self.ticks(), window_s as int, now_mono as int) == Some(
                    x as int,
                ),
                None => return_over(self.ticks(), window_s as int, now_mono as int) is None,
            },
    {
        let mut n: usize = self.ticks.len();
        while n > 0
            invariant
                n <= self.ticks@.len(),
                self.wf(),
                base_tick(
                    self.ticks@,
                    window_s as int,
                    now_mono as int,
                    self.ticks@.len() as int,
                ) == base_tick(self.ticks@, window_s as int, now_mono as int, n as int),
            decreases n,
        {
            let (t, p_base) = self.ticks[n - 1];
            if now_mono as i128 - t as i128 >= window_s as i128 {
                let p_now: i64 = self.ticks[self.ticks.len() - 1].1;
                assert(self.ticks()[n - 1].1 > 0);
                let change: i128 = p_now as i128 - p_base as i128;
                return Some(div_even(change * NANO as i128, p_base as i128));
            }
            n = n - 1;
        }
        None
    }

    /// True where the feed has been silent for too long.
    pub fn is_stale(&self, now_mono: i64, max_age_s: i64) -> (r: bool)
        ensures
            r == stale(self.ticks(), now_mono as int, max_age_s as int),
    {
        if self.ticks.len() == 0 {
            return true;
        }
        now_mono as i128 - self.ticks[self.ticks.len() - 1].0 as i128 > max_age_s as i128
    }
}

/// The barrier for a return of this size: closed above the threshold, and once
/// closed until the return has fallen below its release share.
pub open spec fn gate_closed(abs_ret: int, on: bool, trip: int, release: int) -> bool {
    if on {
        abs_ret * NANO >= trip * release
    } else {
        abs_ret > trip
    }
}

/// The trend barrier.
pub fn trend_gated(abs_ret: i128, gate_on: bool, gate_ret: i64, release_ratio: i64) -> (r: bool)
    ensures
        r == gate_closed(abs_ret as int, gate_on, gate_ret as int, release_ratio as int),
{
    if gate_on {
        proof {
            crate::state::lemma_product_range(gate_ret as int, release_ratio as int);
        }
        let level: i128 = gate_ret as i128 * release_ratio as i128;
        let (q, m) = crate::num::floor_div(level, NANO as i128);
        if m == 0 {
            abs_ret >= q
        } else {
            abs_ret > q
        }
    } else {
        abs_ret > gate_ret as i128
    }
}

// --- laws --------------------------------------------------------------------

/// The average moves toward the new price and never past it.
pub proof fn lemma_average_between(ema: int, price: int, alpha: int)
    requires
        0 <= alpha <= NANO,
    ensures
        ema <= price ==> ema <= averaged(ema, price, alpha) <= price,
        ema >= price ==> price <= averaged(ema, price, alpha) <= ema,
{
    let gap = price - ema;
    let one = NANO as int;
    if gap >= 0 {
        assert(0 <= alpha * gap <= one * gap) by (nonlinear_arith)
            requires
                0 <= alpha <= one,
                gap >= 0,
        ;
        lemma_round_even_monotone(0, alpha * gap, one);
        lemma_round_even_monotone(alpha * gap, one * gap, one);
    } else {
        assert(one * gap <= alpha * gap <= 0) by (nonlinear_arith)
            requires
                0 <= alpha <= one,
                gap <= 0,
        ;
        lemma_round_even_monotone(alpha * gap, 0, one);
        lemma_round_even_monotone(one * gap, alpha * gap, one);
    }
    assert(round_even(one * gap, one) == gap);
}

/// The average of a constant price is that price.
pub proof fn law_average_of_a_constant(price: int, alpha: int)
    requires
        0 <= alpha <= NANO,
    ensures
        averaged(price, price, alpha) == price,
{
    lemma_average_between(price, price, alpha);
}

/// The barrier has a band: between the release level and the threshold it stays
/// as it was, so a return that hovers there does not make it flap.
pub proof fn law_gate_keeps_its_state_in_the_band(abs_ret: int, trip: int, release: int)
    requires
        abs_ret <= trip,
        abs_ret * NANO >= trip * release,
    ensures
        gate_closed(abs_ret, true, trip, release),
        !gate_closed(abs_ret, false, trip, release),
{
}

/// A barrier that works closes no later when it is closed already: what closes an
/// open barrier also keeps it closed.
pub proof fn law_gate_releases_below_its_trip(abs_ret: int, trip: int, release: int)
    requires
        trip > 0,
        0 < release <= NANO,
        gate_closed(abs_ret, false, trip, release),
    ensures
        gate_closed(abs_ret, true, trip, release),
{
    assert(abs_ret * NANO >= trip * release) by (nonlinear_arith)
        requires
            abs_ret > trip,
            trip > 0,
            0 < release <= NANO,
    ;
}

/// In time order, only ticks of the last two minutes are held.
pub proof fn law_ticks_are_recent(ticks: Seq<(i64, i64)>, now: int, i: int)
    requires
        forall|a: int, b: int| 0 <= a <= b < ticks.len() ==> ticks[a].0 <= ticks[b].0,
        0 <= i < retained(ticks, now).len(),
    ensures
        now - retained(ticks, now)[i].0 <= RETAIN,
    decreases ticks.len(),
{
    if ticks.len() > 0 && now - ticks[0].0 > RETAIN {
        let rest = ticks.drop_first();
        assert forall|a: int, b: int| 0 <= a <= b < rest.len() implies rest[a].0 <= rest[b].0 by {
            assert(ticks[a + 1].0 <= ticks[b + 1].0);
        }
        law_ticks_are_recent(rest, now, i);
    } else {
        assert(ticks[0].0 <= ticks[i].0);
    }
}

} // verus!
