//! What messages, fills and the upkeep do to the trader, said of their inputs
//! and results.

use vstd::prelude::*;

use crate::book::{fee_of, fresh, level_map, md_of, Book, TakerSide, TradePrint};
use crate::engine::{exit_for, resting_ids, spot_exit_for, PlanView};
use crate::executor::{left_id, outcome_of, ran_short, with_try, SendResult};
use crate::features::{features_of, is_wide, too_volatile};
use crate::json::JsonView;
use crate::num::{lemma_round_even_near, magnitude, round_even, Num};
use crate::spotwatch::{bound_ids, holdoffs, next_looks, pulled, unwinds, unwound};
use crate::state::{
    booked_fill, fill_gain, fill_in, is_fresh, noted_fill, opened_market, replayed, NormalizedFill,
    TickerState, TraderState,
};
use crate::table::Table;
use crate::trader::{
    book_after, decided, fill_taken, folded_into, gate_of, halts_after, number_or_zero, printed, processed, series_of,
    synced, tail_gate, taker_in, trade_count, with_sides, BookStep, Gate, Trader,
};
use crate::upkeep::{
    backfill_of, exits_due, lacking, open_count, resolved_one, taker_share_of, Backfill, ExitView, Resolution,
};

verus! {

// --- trades ------------------------------------------------------------------

/// A trade message: the taker's side is `yes` or `no` and nothing else, and the
/// contracts are the whole ones of the count, one where none is stated.
pub proof fn law_what_a_trade_says(msg: JsonView, n: i128)
    requires
        0 <= n <= i64::MAX,
    ensures
        taker_in(msg) == Some(TakerSide::Yes) <==> msg.text_field("taker_side"@) == Some("yes"@),
        taker_in(msg) == Some(TakerSide::No) <==> msg.text_field("taker_side"@) == Some("no"@),
        msg.field("count_fp"@) matches Some(v) && v.number() == Some(Num::Finite(n)) ==> trade_count(
            msg,
        ) * 1_000_000_000 <= n < (trade_count(msg) + 1) * 1_000_000_000,
        msg.field("count_fp"@) is None && (msg.field("count"@) matches Some(v) && v.number() == Some(
            Num::Finite(n),
        )) ==> trade_count(msg) * 1_000_000_000 <= n < (trade_count(msg) + 1) * 1_000_000_000,
        msg.field("count_fp"@) is None && msg.field("count"@) is None ==> trade_count(msg) == 1,
{
    reveal_strlit("yes");
    reveal_strlit("no");
    assert("yes"@.len() != "no"@.len());
}

/// A print changes the market's prints alone: it is the newest one after, and
/// those before it are the newest from before.
pub proof fn law_a_print(before: TickerState, after: TickerState, print: TradePrint)
    requires
        printed(before, after, print),
    ensures
        ({
            let n = after.recent_trades@.len() as int;
            let m = before.recent_trades@.len() as int;
            &&& 1 <= n <= m + 1
            &&& after.recent_trades@[n - 1] == print
            &&& forall|i: int|
                1 <= i < n ==> #[trigger] after.recent_trades@[n - 1 - i]
                    == before.recent_trades@[m - i]
            &&& after.position == before.position
            &&& after.book == before.book
            &&& after.mid_history == before.mid_history
            &&& after.entry_price == before.entry_price
        }),
{
    law_a_print_is_kept(before.recent_trades@, print);
    let longer = before.recent_trades@.push(print);
    crate::market_laws::law_pruning(longer, print.0 as int);
}

/// The series of a ticker is what stands before its first dash.
pub proof fn law_series(series: Seq<char>, rest: Seq<char>)
    requires
        !series.contains('-'),
    ensures
        series_of(series + seq!['-'] + rest) == series,
        series_of(series) == series,
{
    let whole = series + seq!['-'] + rest;
    let n = series.len() as int;
    crate::text::lemma_find_from(whole, '-', 0);
    crate::text::lemma_find_from(series, '-', 0);
    assert(whole[n] == '-');
    let k = crate::text::find_from(whole, '-', 0);
    if k < n {
        assert(series.contains(series[k]));
    }
    let j = crate::text::find_from(series, '-', 0);
    if j < n {
        assert(series.contains(series[j]));
    }
    assert(whole.take(n) =~= series);
    assert(series.take(n) =~= series);
}

/// A print that just came is the newest one kept.
pub proof fn law_a_print_is_kept(trades: Seq<TradePrint>, print: TradePrint)
    ensures
        ({
            let after = fresh(trades.push(print), print.0 as int);
            &&& after.len() > 0
            &&& after[after.len() - 1] == print
            &&& after.len() <= trades.len() + 1
        }),
{
    let longer = trades.push(print);
    crate::market_laws::law_pruning(longer, print.0 as int);
    let after = fresh(longer, print.0 as int);
    let k = longer.len() - after.len();
    if k == longer.len() {
        assert(print.0 - longer[trades.len() as int].0 > 60_000_000);
    }
    assert(after[after.len() - 1] == longer[longer.len() - 1]);
}

// --- fills -------------------------------------------------------------------

/// An entry of the fills list that is new moves the position of its market by
/// its contracts, up for a buy and down for a sell, leaves every other market
/// alone, and tells what it earned.
pub proof fn law_a_new_fill(before: Trader, after: Trader, entry: JsonView, now: i64, r: Option<i128>)
    requires
        before.state.tickers.wf(),
        fill_taken(before, after, entry, now, r),
        fill_in(entry) is Some,
        !before.state.seen.order().contains(fill_in(entry)->Some_0.fill_id),
        ({
            let fill = fill_in(entry)->Some_0;
            let p = position_of(before, fill.ticker);
            i64::MIN <= p - fill.size && p + fill.size <= i64::MAX
        }),
    ensures
        ({
            let fill = fill_in(entry)->Some_0;
            let p = position_of(before, fill.ticker);
            let q = position_of(after, fill.ticker);
            &&& r is Some
            &&& entry.text_field("action"@) == Some("buy"@) ==> q == p + fill.size
            &&& entry.text_field("action"@) == Some("sell"@) ==> q == p - fill.size
            &&& forall|k: Seq<char>|
                before.state.tickers.has(k) && k != fill.ticker ==> after.state.tickers.has(k)
                    && after.state.tickers.at(k) == #[trigger] before.state.tickers.at(k)
            &&& after.state.seen.order().contains(fill.fill_id)
        }),
{
    let fill = fill_in(entry)->Some_0;
    let k = fill.ticker;
    crate::account_laws::law_the_action_gives_the_direction(entry);
    let nf = choose|nf: NormalizedFill|
        {
            &&& nf@ == fill
            &&& #[trigger] processed(before, after.state, nf, before.fill_category(fill.ticker), now)
            &&& r->Some_0 == if before.state.tickers.has(fill.ticker) {
                fill_gain(before.state.tickers.at(fill.ticker), nf)
            } else {
                0
            }
        };
    let category = before.fill_category(k);
    let fee = fee_of(
        crate::trader::rate_of(before.cfg, nf.is_taker),
        nf.size as int,
        nf.price_yes as int,
    );
    let (noted, opened, booked) = choose|noted: TraderState, opened: TraderState, booked: TraderState|
        {
            &&& #[trigger] noted_fill(before.state, noted, nf.fill_id@)
            &&& #[trigger] opened_market(noted, opened, nf.ticker@, category)
            &&& #[trigger] booked_fill(opened, booked, nf.ticker@, nf, fee, now)
            &&& crate::trader::halt_looked_at(
                booked,
                after.state,
                category,
                before.cfg.live.halt_on_consecutive_losses,
            )
        };
    let start = before.state.tickers;
    assert(noted.tickers == start);
    if start.has(k) {
        assert(opened.tickers.wf());
        crate::table::lemma_at(start, start.keys().index_of(k));
        assert forall|j: Seq<char>| start.has(j) implies opened.tickers.has(j)
            && opened.tickers.at(j) == #[trigger] start.at(j) by {}
    } else {
        crate::table::lemma_pushed(start, opened.tickers, k, opened.tickers.values().last());
    }
    let ts = opened.tickers.at(k);
    assert(opened.tickers.has(k));
    assert(ts.position == position_of(before, k));
    crate::table::lemma_same_keys(
        opened.tickers,
        booked.tickers,
        k,
        crate::state::after_fill(ts, nf, now),
    );
    assert(after.state.tickers == booked.tickers);
    assert(booked.tickers.has(k));
    assert forall|j: Seq<char>| start.has(j) && j != k implies after.state.tickers.has(j)
        && after.state.tickers.at(j) == #[trigger] start.at(j) by {
        assert(opened.tickers.has(j) && opened.tickers.at(j) == start.at(j));
    }
    let order = before.state.seen.order();
    assert(noted.seen.order() == crate::state::with_id(order, fill.fill_id));
    lemma_noted(order, fill.fill_id);
}

proof fn lemma_noted(order: Seq<Seq<char>>, id: Seq<char>)
    ensures
        crate::state::with_id(order, id).contains(id),
{
    if !order.contains(id) {
        let longer = order.push(id);
        assert(longer[order.len() as int] == id);
        if order.len() >= 20_000 {
            let rest = longer.drop_first();
            assert(rest[rest.len() - 1] == id);
        }
    }
}

/// The position held in a market, flat where nothing is known of it.
pub open spec fn position_of(t: Trader, ticker: Seq<char>) -> int {
    if t.state.tickers.has(ticker) {
        t.state.tickers.at(ticker).position as int
    } else {
        0
    }
}

/// A malformed entry, and one whose id is known, change nothing.
pub proof fn law_an_old_fill(before: Trader, after: Trader, entry: JsonView, now: i64, r: Option<i128>)
    requires
        fill_taken(before, after, entry, now, r),
        fill_in(entry) is None || before.state.seen.order().contains(
            fill_in(entry)->Some_0.fill_id,
        ),
    ensures
        after == before,
        r is None,
{
}

/// The rate of a fee: that of takers where the fill took, and that of makers
/// where it rested.
pub proof fn law_fee_rates(cfg: crate::config::Config)
    ensures
        crate::trader::rate_of(cfg, true) == cfg.mm.taker_fee_rate,
        crate::trader::rate_of(cfg, false) == cfg.mm.maker_fee_rate,
{
}

/// A category halts when its losing streak reaches the limit, and only it; with
/// a limit of zero none does.
pub proof fn law_halts(
    halted: Map<Seq<char>, ()>,
    losses: Map<Seq<char>, u64>,
    category: Seq<char>,
    limit: u64,
    other: Seq<char>,
)
    ensures
        ({
            let after = halts_after(halted, losses, category, limit);
            &&& after.dom().contains(category) <==> halted.dom().contains(category) || (limit > 0
                && losses.dom().contains(category) && losses[category] >= limit)
            &&& other != category ==> (after.dom().contains(other) <==> halted.dom().contains(other))
        }),
{
}

// --- positions of the exchange -----------------------------------------------

/// A comparison with the exchange takes its position where the two differ and
/// no fill was booked within ten seconds, except that a position in a quoted
/// market that is gone there stays until its settlement is known. Nothing else
/// of the market changes but the mark of a position from before this process,
/// which a market without fills that was flat gets.
pub proof fn law_sync(ts: TickerState, remote: int, active: bool, now: int)
    requires
        i64::MIN <= remote <= i64::MAX,
    ensures
        ({
            let after = synced(ts, remote, active, now);
            let late = now >= ts.last_fill_epoch + 10_000_000;
            let gone = active && remote == 0;
            &&& late && !gone ==> after.position == remote
            &&& late && gone ==> after.position == ts.position
            &&& !late ==> after.position == ts.position
            &&& after.position == ts.position ==> after == ts
            &&& after.position != ts.position ==> (after.carried <==> ts.carried || (ts.position == 0
                && ts.last_fill_epoch == 0))
            &&& after.entry_price == ts.entry_price
            &&& after.book == ts.book
            &&& after.realized_pnl == ts.realized_pnl
            &&& after.fills_buy == ts.fills_buy
            &&& after.fills_sell == ts.fills_sell
            &&& after.bid_order_id == ts.bid_order_id
            &&& after.ask_order_id == ts.ask_order_id
            &&& after.last_fill_epoch == ts.last_fill_epoch
        }),
{
}

// --- book messages -----------------------------------------------------------

/// A message that states a price and a change adds to the level at that price,
/// on the YES side where it names `yes` and on the NO side otherwise, and leaves
/// every other level of both sides alone.
pub proof fn law_a_change_message(
    before: Book,
    after: Book,
    msg: JsonView,
    price: i128,
    change: i128,
    other: u32,
)
    requires
        book_after(before, after, msg),
        msg.field("price_dollars"@) matches Some(p) && p.number() == Some(Num::Finite(price)),
        msg.field("delta_fp"@) matches Some(d) && d.number() == Some(Num::Finite(change)),
        i64::MIN <= change <= i64::MAX,
    ensures
        ({
            let at = md_of(Num::Finite(price)) as u32;
            let yes = msg.text_field("side"@) == Some("yes"@);
            let (old_side, new_side) = if yes {
                (level_map(before.yes()), level_map(after.yes()))
            } else {
                (level_map(before.no()), level_map(after.no()))
            };
            let contracts = if old_side.dom().contains(at) {
                old_side[at] as int
            } else {
                0
            };
            &&& contracts + change > 0 && contracts + change <= i64::MAX ==> new_side.dom().contains(at)
                && new_side[at] == contracts + change
            &&& contracts + change <= 0 ==> !new_side.dom().contains(at)
            &&& other != at ==> (new_side.dom().contains(other) <==> old_side.dom().contains(other))
            &&& other != at && new_side.dom().contains(other) ==> new_side[other] == old_side[other]
            &&& yes ==> level_map(after.no()) == level_map(before.no())
            &&& !yes ==> level_map(after.yes()) == level_map(before.yes())
        }),
{
    reveal_strlit("yes");
    assert("yes"@.len() > 0);
}

/// Any other message is a snapshot: a side that it states is what it states,
/// and a side that it does not state stays.
pub proof fn law_a_snapshot_message(before: Book, after: Book, msg: JsonView, rows: Seq<JsonView>)
    requires
        book_after(before, after, msg),
        msg.field("price_dollars"@) is None || msg.field("delta_fp"@) is None,
    ensures
        msg.field("yes_dollars_fp"@) == Some(JsonView::Array(rows)) ==> level_map(after.yes())
            == crate::book::rows_levels(rows),
        msg.field("yes_dollars_fp"@) is None && msg.field("yes_dollars"@) == Some(
            JsonView::Array(rows),
        ) ==> level_map(after.yes()) == crate::book::rows_levels(rows),
        msg.field("yes_dollars_fp"@) is None && msg.field("yes_dollars"@) is None && msg.field(
            "yes"@,
        ) is None ==> level_map(after.yes()) == level_map(before.yes()),
        msg.field("no_dollars_fp"@) == Some(JsonView::Array(rows)) ==> level_map(after.no())
            == crate::book::rows_levels(rows),
        msg.field("no_dollars_fp"@) is None && msg.field("no_dollars"@) == Some(
            JsonView::Array(rows),
        ) ==> level_map(after.no()) == crate::book::rows_levels(rows),
        msg.field("no_dollars_fp"@) is None && msg.field("no_dollars"@) is None && msg.field("no"@)
            is None ==> level_map(after.no()) == level_map(before.no()),
{
}

/// A book message changes a market's book and nothing else, and no other
/// market.
pub proof fn law_a_book_message(before: Trader, after: Trader, ticker: Seq<char>, msg: JsonView, other: Seq<char>)
    requires
        folded_into(before, after, ticker, msg),
        before.state.tickers.has(ticker),
    ensures
        ({
            let was = before.state.tickers.at(ticker);
            let now = after.state.tickers.at(ticker);
            &&& book_after(was.book, now.book, msg)
            &&& now == (TickerState { book: now.book, ..was })
            &&& after.state.daily_pnl == before.state.daily_pnl
            &&& after.running == before.running
            &&& other != ticker ==> (after.state.tickers@.dom().contains(other)
                <==> before.state.tickers@.dom().contains(other))
            &&& other != ticker && before.state.tickers@.dom().contains(other)
                ==> after.state.tickers@[other] == before.state.tickers@[other]
        }),
{
    let ts = after.state.tickers.at(ticker);
    let base = choose|base: TickerState|
        {
            &&& if before.state.tickers.has(ticker) {
                base == before.state.tickers.at(ticker)
            } else {
                is_fresh(base, before.category(ticker)->Some_0)
            }
            &&& #[trigger] book_after(base.book, ts.book, msg)
            &&& ts == (TickerState { book: ts.book, ..base })
        };
    assert(base == before.state.tickers.at(ticker));
}

/// What a decision does. A policy is asked only with a valid book whose spread
/// is at most half a dollar, under the shift that is known, and told the
/// features of the market and the sides that the ladder's cap allows. A decision
/// moves no position, and changes no other market.
pub proof fn law_a_decision(
    before: Trader,
    after: Trader,
    ticker: Seq<char>,
    category: Seq<char>,
    now_s: int,
    now_mono: i64,
    step: BookStep,
    other: Seq<char>,
)
    requires
        before.state.tickers.wf(),
        before.state.tickers.has(ticker),
        decided(before, after, ticker, category, now_s, now_mono, step),
    ensures
        ({
            let was = before.state.tickers.at(ticker);
            let now = after.state.tickers.at(ticker);
            &&& now.position == was.position
            &&& now.entry_price == was.entry_price
            &&& now.book == was.book
            &&& now.bid_order_id == was.bid_order_id
            &&& now.ask_order_id == was.ask_order_id
            &&& now.quoted_bid == was.quoted_bid
            &&& now.quoted_ask == was.quoted_ask
            &&& before.state.tickers.has(other) && other != ticker ==> after.state.tickers.at(other)
                == before.state.tickers.at(other)
            &&& step is Halt <==> gate_of(before, ticker, category, now_mono as int) is Halt
            &&& step is Halt ==> !after.running
            &&& !(step is Halt) ==> after.running == before.running
            &&& step matches BookStep::Infer { obs, fv_shift, allow_bid, allow_ask } ==> {
                &&& was.book.valid()
                &&& (was.book.ask() - was.book.bid()) * 1_000_000 <= 500_000_000
                &&& before.shift(ticker, category) == Some(fv_shift as int)
                &&& (allow_bid, allow_ask) == tail_gate(
                    before.state.tickers,
                    ticker,
                    before.cfg.live.max_ladder_tail_loss as int,
                )
                &&& !too_volatile(
                    now.mid_history@,
                    before.cfg.mm.vol_filter_threshold as int,
                )
                &&& now.recent_trades@ == fresh(was.recent_trades@, now_s)
                &&& forall|i: int|
                    0 <= i < 20 ==> #[trigger] obs@[i] == features_of(
                        was,
                        now.mid_history@,
                        now.recent_trades@,
                        before.cfg.mm,
                        now_s,
                    )[i]
            }
        }),
{
    let was = before.state.tickers.at(ticker);
    let now = after.state.tickers.at(ticker);
    match gate_of(before, ticker, category, now_mono as int) {
        Gate::Ask(shift) => {
            crate::table::lemma_same_keys(
                before.state.tickers,
                after.state.tickers,
                ticker,
                if is_wide(was) {
                    was
                } else {
                    now
                },
            );
            if let BookStep::Infer { obs, .. } = step {
                let seen = obs@.map_values(|x: i64| x as int);
                assert(obs@.len() == 20);
                assert forall|i: int| 0 <= i < 20 implies #[trigger] obs@[i] == seen[i] by {}
            }
        },
        _ => {},
    }
}

/// A number that a message does not state, or that does not read, is zero.
pub proof fn law_unread_numbers(v: JsonView)
    ensures
        number_or_zero(None) == Num::Finite(0),
        v.number() is None ==> number_or_zero(Some(v)) == Num::Finite(0),
        v.number() matches Some(n) ==> number_or_zero(Some(v)) == n,
{
}

/// A side that may not be quoted is not placed, and the plan is otherwise what
/// it was.
pub proof fn law_allowed_sides(plan: PlanView, allow_bid: bool, allow_ask: bool)
    ensures
        ({
            let after = with_sides(plan, allow_bid, allow_ask);
            &&& after.place_bid <==> plan.place_bid && allow_bid
            &&& after.place_ask <==> plan.place_ask && allow_ask
            &&& with_sides(plan, true, true) == plan
            &&& after == (PlanView {
                place_bid: after.place_bid,
                place_ask: after.place_ask,
                ..plan
            })
        }),
{
}

// --- orders that were sent ---------------------------------------------------

/// An answer to an order: its id, or that the balance is short where a failure
/// says so anywhere in its text. Any other failure leaves no order.
pub proof fn law_answers(reply: JsonView, head: Seq<char>, tail: Seq<char>, text: Seq<char>)
    ensures
        outcome_of(Ok(reply)) == Some(reply.text_field("order_id"@)),
        outcome_of(Err(head + "insufficient_balance"@ + tail)) is None,
        text.len() < 20 ==> outcome_of(Err(text)) == Some(None::<Seq<char>>),
{
    reveal_strlit("insufficient_balance");
    let word = "insufficient_balance"@;
    assert(word.len() == 20);
    let whole = head + word + tail;
    assert(crate::text::occurs_at(whole, word, head.len() as int)) by {
        assert(whole.subrange(head.len() as int, (head.len() + word.len()) as int) =~= word);
    }
}

/// What orders leave behind: an id where one was placed, a pause where the
/// balance was short, and a count for each that was tried.
pub proof fn law_sent_orders(id: Option<String>, n: u64)
    requires
        n < u64::MAX,
    ensures
        left_id(Some(SendResult::Placed(id))) == id,
        left_id(Some(SendResult::InsufficientBalance)) is None,
        left_id(None) is None,
        ran_short(Some(SendResult::InsufficientBalance)),
        !ran_short(Some(SendResult::Placed(id))),
        !ran_short(None),
        with_try(n, None) == n,
        with_try(n, Some(SendResult::InsufficientBalance)) == n + 1,
        with_try(n, Some(SendResult::Placed(id))) == n + 1,
{
}

// --- vanished positions ------------------------------------------------------

/// A position that vanished waits for its settlement, is booked when that is
/// known, and is given up at the fourth look without a record.
pub proof fn law_vanished(
    before: Trader,
    after: Trader,
    ticker: Seq<char>,
    settled: Map<Seq<char>, Option<bool>>,
    r: Resolution,
)
    requires
        before.state.tickers.wf(),
        resolved_one(before, after, ticker, settled, r),
        before.state.tickers.has(ticker),
    ensures
        ({
            let ts = before.state.tickers.at(ticker);
            let now = after.state.tickers.at(ticker);
            let looks = if before.settlement_checks@.dom().contains(ticker) {
                before.settlement_checks@[ticker] + 1
            } else {
                1
            };
            let known = settled.dom().contains(ticker);
            &&& ts.position == 0 ==> r is Flat && after.state == before.state
                && !after.settlement_checks@.dom().contains(ticker)
            &&& ts.position != 0 && !known && looks < 4 ==> {
                &&& r matches Resolution::Waiting(n) && n == looks
                &&& after.settlement_checks@.dom().contains(ticker)
                &&& after.settlement_checks@[ticker] == looks
                &&& after.state == before.state
            }
            &&& ts.position != 0 && !known && looks >= 4 ==> {
                &&& r is GivenUp
                &&& now.position == 0
                &&& now.entry_price is None
                &&& !now.carried
                &&& now.realized_pnl == ts.realized_pnl
                &&& after.state.daily_pnl == before.state.daily_pnl
                &&& after.state.cumulative_pnl == before.state.cumulative_pnl
                &&& !after.settlement_checks@.dom().contains(ticker)
            }
            &&& ts.position != 0 && known ==> {
                &&& r is Settled
                &&& now.position == 0
                &&& now.entry_price is None
                &&& !after.settlement_checks@.dom().contains(ticker)
            }
        }),
{
    let ts = before.state.tickers.at(ticker);
    let known = settled.dom().contains(ticker);
    if ts.position != 0 && !known && r is GivenUp {
        crate::table::lemma_same_keys(
            before.state.tickers,
            after.state.tickers,
            ticker,
            crate::upkeep::given_up(ts),
        );
    }
    if ts.position != 0 && known {
        let result = settled[ticker];
        if crate::state::settled_gain(ts, result) is Some {
            let booked = choose|booked: TraderState|
                {
                    &&& #[trigger] crate::state::booked_settlement(
                        before.state,
                        booked,
                        ticker,
                        result,
                    )
                    &&& crate::trader::halt_looked_at(
                        booked,
                        after.state,
                        before.category_or_empty(ticker),
                        before.cfg.live.halt_on_consecutive_losses,
                    )
                };
            crate::table::lemma_same_keys(
                before.state.tickers,
                booked.tickers,
                ticker,
                crate::state::after_settlement(ts, result),
            );
        } else {
            crate::table::lemma_same_keys(
                before.state.tickers,
                after.state.tickers,
                ticker,
                crate::state::after_settlement(ts, result),
            );
        }
    }
}

/// What fills say of an entry price counts only where they add up to the
/// position held.
pub proof fn law_backfill(fills: Seq<NormalizedFill>, held: int)
    ensures
        backfill_of(fills, held) matches Backfill::Found(price) ==> replayed(fills).0 == held
            && replayed(fills).1 == Some(price),
        backfill_of(fills, held) is Flat <==> replayed(fills).1 is None,
        replayed(fills).1 is Some && replayed(fills).0 == held ==> backfill_of(fills, held) is Found,
        replayed(fills).1 is Some && replayed(fills).0 != held ==> backfill_of(fills, held)
            is Mismatch,
{
}

/// The entry price is looked up for every quoted market that holds a position
/// without one, and for no other.
pub proof fn law_lacking(t: Trader, n: int, i: int)
    requires
        0 <= i < n <= t.state.tickers.keys().len(),
        t.state.tickers.wf(),
    ensures
        ({
            let ts = t.state.tickers.values()[i];
            let k = t.state.tickers.keys()[i];
            lacking(t, n).contains(k) <==> ts.position != 0 && ts.entry_price is None
                && t.active_tickers.has(k)
        }),
    decreases n,
{
    let keys = t.state.tickers.keys();
    let k = keys[i];
    let before = lacking(t, n - 1);
    if i < n - 1 {
        law_lacking(t, n - 1, i);
        let last = keys[n - 1];
        assert(last != k);
        lemma_pushed_contains(before, last, k);
    } else {
        lemma_lacking_are_early(t, n - 1, i);
        lemma_pushed_contains(before, k, k);
    }
}

proof fn lemma_lacking_are_early(t: Trader, n: int, i: int)
    requires
        0 <= n <= i < t.state.tickers.keys().len(),
        t.state.tickers.wf(),
    ensures
        !lacking(t, n).contains(t.state.tickers.keys()[i]),
    decreases n,
{
    if n > 0 {
        lemma_lacking_are_early(t, n - 1, i);
        let keys = t.state.tickers.keys();
        assert(keys[n - 1] != keys[i]);
        lemma_pushed_contains(lacking(t, n - 1), keys[n - 1], keys[i]);
    }
}

proof fn lemma_pushed_contains<A>(s: Seq<A>, x: A, y: A)
    ensures
        s.push(x).contains(y) <==> s.contains(y) || x == y,
{
    let longer = s.push(x);
    if s.contains(y) {
        let i = s.index_of(y);
        assert(longer[i] == y);
    }
    if x == y {
        assert(longer[s.len() as int] == y);
    }
    if longer.contains(y) {
        let i = longer.index_of(y);
        if i < s.len() {
            assert(s[i] == y);
        }
    }
}

// --- exits -------------------------------------------------------------------

/// A market is held off while the time noted for it has not come.
pub open spec fn waits_until(until: Map<Seq<char>, i64>, ticker: Seq<char>, now: int) -> bool {
    until.dom().contains(ticker) && until[ticker] > now
}

/// The exit of a market that calls for one and that is not held off after an
/// unwind is among the exits.
pub proof fn law_exits_are_found(t: Trader, now_s: int, now_mono: int, n: int, i: int)
    requires
        0 <= i < n <= t.state.tickers.keys().len(),
        exit_for(t.state.tickers.values()[i], now_s) is Some,
        !waits_until(t.spot_unwind_fired_until@, t.state.tickers.keys()[i], now_mono),
    ensures
        exits_due(t, now_s, now_mono, n).contains(
            ExitView {
                ticker: t.state.tickers.keys()[i],
                category: match t.category(t.state.tickers.keys()[i]) {
                    Some(c) => c,
                    None => "UNKNOWN"@,
                },
                plan: exit_for(t.state.tickers.values()[i], now_s)->Some_0,
            },
        ),
    decreases n,
{
    let exit = ExitView {
        ticker: t.state.tickers.keys()[i],
        category: match t.category(t.state.tickers.keys()[i]) {
            Some(c) => c,
            None => "UNKNOWN"@,
        },
        plan: exit_for(t.state.tickers.values()[i], now_s)->Some_0,
    };
    let before = exits_due(t, now_s, now_mono, n - 1);
    let now = exits_due(t, now_s, now_mono, n);
    if i < n - 1 {
        law_exits_are_found(t, now_s, now_mono, n - 1, i);
        if now != before {
            lemma_pushed_contains(before, now.last(), exit);
            assert(now =~= before.push(now.last()));
        }
    } else {
        lemma_pushed_contains(before, exit, exit);
    }
}

/// Every exit is that of a market that calls for it and is not held off, and a
/// market has at most one.
pub proof fn law_exits_are_called_for(t: Trader, now_s: int, now_mono: int, n: int, j: int) -> (i:
    int)
    requires
        0 <= n <= t.state.tickers.keys().len(),
        0 <= j < exits_due(t, now_s, now_mono, n).len(),
    ensures
        j <= i < n,
        ({
            let exit = exits_due(t, now_s, now_mono, n)[j];
            &&& exit.ticker == t.state.tickers.keys()[i]
            &&& exit_for(t.state.tickers.values()[i], now_s) == Some(exit.plan)
            &&& !waits_until(t.spot_unwind_fired_until@, exit.ticker, now_mono)
        }),
    decreases n,
{
    let before = exits_due(t, now_s, now_mono, n - 1);
    lemma_few_exits(t, now_s, now_mono, n - 1);
    if j < before.len() {
        law_exits_are_called_for(t, now_s, now_mono, n - 1, j)
    } else {
        n - 1
    }
}

proof fn lemma_few_exits(t: Trader, now_s: int, now_mono: int, n: int)
    ensures
        n >= 0 ==> exits_due(t, now_s, now_mono, n).len() <= n,
    decreases n,
{
    if n > 0 {
        lemma_few_exits(t, now_s, now_mono, n - 1);
    }
}

/// A market is looked at for an unwind: it holds a position, its category
/// follows a feed, and neither the second between looks nor the ten after an
/// unwind is running.
pub open spec fn is_looked_at(t: Trader, i: int, now: int) -> bool {
    let ts = t.state.tickers.values()[i];
    let k = t.state.tickers.keys()[i];
    &&& ts.position != 0
    &&& t.spot_bound.has(ts.category@)
    &&& !waits_until(t.spot_unwind_next@, k, now)
    &&& !waits_until(t.spot_unwind_fired_until@, k, now)
}

/// The exit that the shift of a market calls for, where the shift is known.
pub open spec fn exit_by_shift(t: Trader, i: int) -> Option<crate::engine::ExitPlan> {
    let ts = t.state.tickers.values()[i];
    match t.shift(t.state.tickers.keys()[i], ts.category@) {
        Some(shift) => spot_exit_for(ts, shift, t.cfg.spot.unwind_shift as int),
        None => None,
    }
}

/// A market that is looked at is looked at again after a second, and one that
/// is unwound is left for ten. The times of the others stay.
pub proof fn law_looks_and_holdoffs(t: Trader, now: int, n: int, i: int)
    requires
        0 <= i < n <= t.state.tickers.keys().len(),
        t.state.tickers.wf(),
        i64::MIN <= now + 10_000_000 <= i64::MAX,
        i64::MIN <= now + 1_000_000 <= i64::MAX,
    ensures
        ({
            let k = t.state.tickers.keys()[i];
            let looks = next_looks(t, now, n);
            let ends = holdoffs(t, now, n);
            &&& is_looked_at(t, i, now) ==> looks.dom().contains(k) && looks[k] == now + 1_000_000
            &&& !is_looked_at(t, i, now) ==> same_at(looks, t.spot_unwind_next@, k)
            &&& is_looked_at(t, i, now) && exit_by_shift(t, i) is Some ==> ends.dom().contains(k)
                && ends[k] == now + 10_000_000
            &&& !is_looked_at(t, i, now) || exit_by_shift(t, i) is None ==> same_at(
                ends,
                t.spot_unwind_fired_until@,
                k,
            )
        }),
    decreases n,
{
    let keys = t.state.tickers.keys();
    if i < n - 1 {
        law_looks_and_holdoffs(t, now, n - 1, i);
        assert(keys[i] != keys[n - 1]);
    } else {
        lemma_later_times_stay(t, now, n - 1, i);
    }
}

/// Two tables of times agree on a market.
pub open spec fn same_at(a: Map<Seq<char>, i64>, b: Map<Seq<char>, i64>, k: Seq<char>) -> bool {
    &&& a.dom().contains(k) <==> b.dom().contains(k)
    &&& a.dom().contains(k) ==> a[k] == b[k]
}

proof fn lemma_later_times_stay(t: Trader, now: int, n: int, i: int)
    requires
        0 <= n <= i < t.state.tickers.keys().len(),
        t.state.tickers.wf(),
    ensures
        same_at(next_looks(t, now, n), t.spot_unwind_next@, t.state.tickers.keys()[i]),
        same_at(holdoffs(t, now, n), t.spot_unwind_fired_until@, t.state.tickers.keys()[i]),
    decreases n,
{
    if n > 0 {
        lemma_later_times_stay(t, now, n - 1, i);
        assert(t.state.tickers.keys()[n - 1] != t.state.tickers.keys()[i]);
    }
}

/// Every market that is looked at and whose shift calls for it is unwound.
pub proof fn law_unwinds_are_found(t: Trader, now: int, n: int, i: int)
    requires
        0 <= i < n <= t.state.tickers.keys().len(),
        is_looked_at(t, i, now),
        exit_by_shift(t, i) is Some,
    ensures
        unwinds(t, now, n).contains(
            ExitView {
                ticker: t.state.tickers.keys()[i],
                category: t.state.tickers.values()[i].category@,
                plan: exit_by_shift(t, i)->Some_0,
            },
        ),
    decreases n,
{
    let exit = ExitView {
        ticker: t.state.tickers.keys()[i],
        category: t.state.tickers.values()[i].category@,
        plan: exit_by_shift(t, i)->Some_0,
    };
    let before = unwinds(t, now, n - 1);
    let all = unwinds(t, now, n);
    if i < n - 1 {
        law_unwinds_are_found(t, now, n - 1, i);
        if all != before {
            lemma_pushed_contains(before, all.last(), exit);
            assert(all =~= before.push(all.last()));
        }
    } else {
        lemma_pushed_contains(before, exit, exit);
    }
}

/// Every unwind is that of a market that is looked at and whose shift calls for
/// it.
pub proof fn law_unwinds_are_called_for(t: Trader, now: int, n: int, j: int) -> (i: int)
    requires
        0 <= n <= t.state.tickers.keys().len(),
        0 <= j < unwinds(t, now, n).len(),
    ensures
        0 <= i < n,
        is_looked_at(t, i, now),
        ({
            let exit = unwinds(t, now, n)[j];
            &&& exit.ticker == t.state.tickers.keys()[i]
            &&& exit.category == t.state.tickers.values()[i].category@
            &&& exit_by_shift(t, i) == Some(exit.plan)
        }),
    decreases n,
{
    let before = unwinds(t, now, n - 1);
    if n > 0 && j < before.len() {
        law_unwinds_are_called_for(t, now, n - 1, j)
    } else {
        n - 1
    }
}

/// On a stale feed nothing is unwound and nothing is noted.
pub proof fn law_no_unwind_on_a_stale_feed(
    before: Trader,
    after: Trader,
    now: int,
    exits: Seq<ExitView>,
)
    requires
        unwound(before, after, now, exits),
        before.spot.ticks().len() == 0 || now > before.spot.ticks()[before.spot.ticks().len() - 1].0
            + before.cfg.spot.stale_max_s,
    ensures
        exits.len() == 0,
        after == before,
{
}

/// The orders that are pulled are the resting ones, bid and ask, of the markets
/// whose category follows a feed.
pub proof fn law_orders_pulled(values: Seq<TickerState>, bound: Table<()>, n: int, i: int)
    requires
        0 <= i < n <= values.len(),
        bound.has(values[i].category@),
    ensures
        values[i].bid_order_id matches Some(id) ==> bound_ids(values, bound, n).contains(id@),
        values[i].ask_order_id matches Some(id) ==> bound_ids(values, bound, n).contains(id@),
    decreases n,
{
    let before = bound_ids(values, bound, n - 1);
    let all = bound_ids(values, bound, n);
    let ts = values[n - 1];
    let own = resting_ids(ts);
    if i < n - 1 {
        law_orders_pulled(values, bound, n - 1, i);
        if bound.has(ts.category@) {
            assert forall|x: Seq<char>| before.contains(x) implies (before + own).contains(x) by {
                let j = before.index_of(x);
                assert((before + own)[j] == x);
            }
        }
    } else {
        if ts.bid_order_id is Some {
            assert(own[0] == ts.bid_order_id->Some_0@);
            assert(all[before.len() as int] == own[0]);
        }
        if ts.ask_order_id is Some {
            assert(own[own.len() - 1] == ts.ask_order_id->Some_0@);
            assert(all[all.len() - 1] == own[own.len() - 1]);
        }
    }
}

/// Every order that is pulled rests in a market whose category follows a feed.
pub proof fn law_no_other_order_is_pulled(values: Seq<TickerState>, bound: Table<()>, n: int, j: int) -> (i:
    int)
    requires
        0 <= n <= values.len(),
        0 <= j < bound_ids(values, bound, n).len(),
    ensures
        0 <= i < n,
        bound.has(values[i].category@),
        ({
            let id = bound_ids(values, bound, n)[j];
            ||| values[i].bid_order_id matches Some(b) && b@ == id
            ||| values[i].ask_order_id matches Some(a) && a@ == id
        }),
    decreases n,
{
    let before = bound_ids(values, bound, n - 1);
    if n > 0 && j < before.len() {
        law_no_other_order_is_pulled(values, bound, n - 1, j)
    } else {
        n - 1
    }
}

/// After the pull those markets have no order, and otherwise nothing changed.
pub proof fn law_pulled_markets(before: Table<TickerState>, after: Table<TickerState>, bound: Table<()>, i: int)
    requires
        pulled(before, after, bound),
        0 <= i < before.values().len(),
    ensures
        ({
            let was = before.values()[i];
            let now = after.values()[i];
            &&& bound.has(was.category@) ==> now.bid_order_id is None && now.ask_order_id is None
            &&& !bound.has(was.category@) ==> now == was
            &&& now.position == was.position
            &&& now.entry_price == was.entry_price
            &&& now.book == was.book
            &&& now.quoted_bid == was.quoted_bid
            &&& now.quoted_ask == was.quoted_ask
            &&& now.realized_pnl == was.realized_pnl
        }),
{
    assert(after.values()[i] == if bound.has(before.values()[i].category@) {
        crate::spotwatch::without_orders(before.values()[i])
    } else {
        before.values()[i]
    });
}

// --- counts ------------------------------------------------------------------

/// The markets with a position, counted one by one.
pub proof fn law_open_count(values: Seq<TickerState>)
    ensures
        open_count(values) == values.filter(|ts: TickerState| ts.position != 0).len(),
    decreases values.len(),
{
    reveal(Seq::filter);
    if values.len() > 0 {
        law_open_count(values.drop_last());
    }
}

/// The share of fills that took: takers over all, to the nearest billionth, and
/// nothing where there was no fill.
pub proof fn law_taker_share(takers: int, makers: int)
    requires
        takers >= 0,
        makers >= 0,
    ensures
        ({
            let share = taker_share_of(takers, makers);
            let all = takers + makers;
            &&& all == 0 ==> share == 0
            &&& all > 0 ==> magnitude(2 * (share * all - takers * 1_000_000_000)) <= all
        }),
{
    let all = takers + makers;
    if all > 0 {
        lemma_round_even_near(takers * 1_000_000_000, all);
        let r = round_even(takers * 1_000_000_000, all);
        assert(r * all == all * r) by (nonlinear_arith);
    }
}

} // verus!
