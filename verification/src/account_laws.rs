//! What fills and settlements do to a position and to the account, said of
//! their inputs and results.

use vstd::prelude::*;

use crate::json::JsonView;
use crate::num::{lemma_round_even_near, magnitude, number_text, round_even, Num};
use crate::state::{
    after_fill, after_settlement, booked_fill, booked_settlement, books_fit, fill_gain, fill_in, fill_price, fill_size, folded_entry,
    is_active, is_fresh, locked_in, logged, orders_in, replayed, result_in, settled_gain, settled_ticker, text_of, with_id,
    LoggedTrade, NormalizedFill, TickerState, TraderState,
};
use crate::table::Table;

verus! {

// --- reading a fill ----------------------------------------------------------

/// The action alone gives a fill's direction: what was bought makes us longer
/// YES and what was sold shorter, whichever side the entry names.
pub proof fn law_the_action_gives_the_direction(entry: JsonView)
    requires
        fill_in(entry) is Some,
    ensures
        fill_in(entry)->Some_0.long_yes <==> entry.text_field("action"@) == Some("buy"@),
        !fill_in(entry)->Some_0.long_yes <==> entry.text_field("action"@) == Some("sell"@),
{
    reveal_strlit("buy");
    reveal_strlit("sell");
    assert("buy"@.len() != "sell"@.len());
    assert(entry.text_field("action"@) is Some);
}

/// Two entries with the same action move the position the same way, whatever
/// their sides and prices.
pub proof fn law_sides_and_prices_do_not_turn_a_fill(a: JsonView, b: JsonView)
    requires
        fill_in(a) is Some,
        fill_in(b) is Some,
    ensures
        fill_in(a)->Some_0.long_yes == fill_in(b)->Some_0.long_yes <==> a.text_field("action"@)
            == b.text_field("action"@),
{
    law_the_action_gives_the_direction(a);
    law_the_action_gives_the_direction(b);
}

/// A field holds a number in billionths.
pub open spec fn holds(entry: JsonView, key: Seq<char>, n: int) -> bool {
    match entry.field(key) {
        Some(JsonView::Number(s)) => crate::num::number_in(s) == Some(Num::Finite(n as i128))
            && i128::MIN <= n <= i128::MAX,
        Some(JsonView::Text(s)) => crate::num::number_in(s) == Some(Num::Finite(n as i128))
            && i128::MIN <= n <= i128::MAX,
        _ => false,
    }
}

/// A field holds neither a number nor text.
pub open spec fn lacks(entry: JsonView, key: Seq<char>) -> bool {
    match entry.field(key) {
        Some(JsonView::Number(_)) => false,
        Some(JsonView::Text(_)) => false,
        _ => true,
    }
}

/// The YES price of a fill: on the yes side the stated yes price, and on the no
/// side a dollar less the stated no price. A price in dollars is read first.
pub proof fn law_price_of_a_fill(entry: JsonView, n: int)
    requires
        fill_in(entry) is Some,
        i64::MIN <= n <= i64::MAX,
        i64::MIN <= 1_000_000_000 - n <= i64::MAX,
    ensures
        ({
            let price = fill_in(entry)->Some_0.price_yes;
            let yes = entry.text_field("side"@) == Some("yes"@);
            let no = entry.text_field("side"@) == Some("no"@);
            &&& yes || no
            &&& yes && holds(entry, "yes_price_dollars"@, n) ==> price == n
            &&& yes && lacks(entry, "yes_price_dollars"@) && holds(entry, "yes_price"@, n) ==> price
                == n
            &&& no && holds(entry, "no_price_dollars"@, n) ==> price + n == 1_000_000_000
            &&& no && lacks(entry, "no_price_dollars"@) && holds(entry, "no_price"@, n) ==> price + n
                == 1_000_000_000
            &&& yes && lacks(entry, "yes_price_dollars"@) && lacks(entry, "yes_price"@) ==> price
                == 0
            &&& no && lacks(entry, "no_price_dollars"@) && lacks(entry, "no_price"@) ==> price
                == 1_000_000_000
        }),
{
    reveal_strlit("yes");
    reveal_strlit("no");
    assert("yes"@.len() != "no"@.len());
    assert(entry.text_field("side"@) is Some);
}

/// The contracts of a fill: the nearest whole number to the stated count, and
/// one where no count is stated. An entry that states less than one is no fill.
pub proof fn law_size_of_a_fill(entry: JsonView, n: int)
    requires
        n <= 9_000_000_000_000_000_000_000_000_000,
    ensures
        ({
            let stated = holds(entry, "count_fp"@, n) || (lacks(entry, "count_fp"@) && holds(
                entry,
                "count"@,
                n,
            ));
            let size = fill_in(entry)->Some_0.size;
            &&& stated && n < 1_000_000_000 ==> fill_in(entry) is None
            &&& fill_in(entry) is Some && stated ==> magnitude(2 * (size * 1_000_000_000 - n))
                <= 1_000_000_000
            &&& fill_in(entry) is Some && lacks(entry, "count_fp"@) && lacks(entry, "count"@)
                ==> size == 1
            &&& fill_in(entry) is Some ==> size >= 1
            &&& ({
                &&& entry.field("count_fp"@) is Some
                &&& entry.field("count_fp"@)->Some_0.number() == Some(Num::NotANumber)
            }) ==> fill_in(entry) is None
        }),
{
    lemma_round_even_near(n, 1_000_000_000);
}

/// A text field that holds something.
pub open spec fn says(entry: JsonView, key: Seq<char>, text: Seq<char>) -> bool {
    entry.text_field(key) == Some(text) && text.len() > 0
}

/// The names in a fill: the market is `market_ticker` or else `ticker`, the id
/// is `trade_id`, or else `fill_id`, or else made of the order and the time.
pub proof fn law_names_of_a_fill(entry: JsonView, name: Seq<char>, ts: int)
    requires
        fill_in(entry) is Some,
    ensures
        ({
            let fill = fill_in(entry)->Some_0;
            &&& fill.ticker.len() > 0
            &&& says(entry, "market_ticker"@, name) ==> fill.ticker == name
            &&& entry.text_field("market_ticker"@) is None ==> entry.text_field("ticker"@) == Some(
                fill.ticker,
            )
            &&& says(entry, "trade_id"@, name) ==> fill.fill_id == name
            &&& entry.text_field("trade_id"@) is None && says(entry, "fill_id"@, name)
                ==> fill.fill_id == name
            &&& entry.text_field("trade_id"@) is None && entry.text_field("fill_id"@) is None && says(
                entry,
                "order_id"@,
                name,
            ) && holds(entry, "ts"@, ts) ==> fill.fill_id == name + "-"@ + number_text(
                Num::Finite(ts as i128),
            )
            &&& fill.order_id == entry.text_field("order_id"@)
            &&& fill.is_taker <==> entry.field("is_taker"@) == Some(JsonView::Bool(true))
        }),
{
}

/// An entry is a fill exactly when it names a market, buys or sells, names a
/// side whose price is finite, and states at least one contract or no count.
pub proof fn law_what_makes_a_fill(entry: JsonView)
    ensures
        fill_in(entry) is Some ==> {
            &&& text_of(entry, "market_ticker"@, "ticker"@) is Some
            &&& entry.text_field("action"@) == Some("buy"@) || entry.text_field("action"@) == Some(
                "sell"@,
            )
            &&& entry.text_field("side"@) == Some("yes"@) || entry.text_field("side"@) == Some("no"@)
            &&& fill_size(entry) > 0
            &&& fill_price(entry) is Some
        },
        text_of(entry, "market_ticker"@, "ticker"@) is Some && (entry.text_field("action"@) == Some(
            "buy"@,
        ) || entry.text_field("action"@) == Some("sell"@)) && (entry.text_field("side"@) == Some(
            "yes"@,
        ) || entry.text_field("side"@) == Some("no"@)) && fill_size(entry) > 0 && fill_price(entry)
            is Some ==> fill_in(entry) is Some,
{
    reveal_strlit("buy");
    reveal_strlit("sell");
    reveal_strlit("yes");
    reveal_strlit("no");
    assert("buy"@.len() > 0 && "sell"@.len() > 0 && "yes"@.len() > 0 && "no"@.len() > 0);
}

/// A settlement record: `yes` and `no` are results and nothing else is, and the
/// market is `ticker` or else `market_ticker`.
pub proof fn law_what_a_settlement_says(record: JsonView, name: Seq<char>)
    ensures
        result_in(record) == Some(true) <==> record.text_field("market_result"@) == Some("yes"@),
        result_in(record) == Some(false) <==> record.text_field("market_result"@) == Some("no"@),
        says(record, "ticker"@, name) ==> settled_ticker(record) == Some(name),
        record.text_field("ticker"@) is None && says(record, "market_ticker"@, name)
            ==> settled_ticker(record) == Some(name),
        record.text_field("ticker"@) is None && record.text_field("market_ticker"@) is None
            ==> settled_ticker(record) is None,
{
    reveal_strlit("yes");
    reveal_strlit("no");
    assert("yes"@.len() != "no"@.len());
}

// --- booking a fill ----------------------------------------------------------

/// The change of position that a fill makes.
pub open spec fn change_by(nf: NormalizedFill) -> int {
    if nf.long_yes {
        nf.size as int
    } else {
        0 - nf.size
    }
}

/// A fill moves the position by its contracts, up where it bought and down
/// where it sold, and counts them on that side.
pub proof fn law_a_fill_moves_the_position(ts: TickerState, nf: NormalizedFill, now: i64)
    requires
        nf.size > 0,
        i64::MIN <= ts.position + change_by(nf) <= i64::MAX,
        ts.fills_buy + nf.size <= i64::MAX,
        ts.fills_sell + nf.size <= i64::MAX,
    ensures
        ({
            let after = after_fill(ts, nf, now);
            &&& nf.long_yes ==> after.position == ts.position + nf.size && after.fills_buy
                == ts.fills_buy + nf.size && after.fills_sell == ts.fills_sell
            &&& !nf.long_yes ==> after.position == ts.position - nf.size && after.fills_sell
                == ts.fills_sell + nf.size && after.fills_buy == ts.fills_buy
            &&& after.last_fill_epoch == now
            &&& after.carried ==> ts.carried
            &&& ts.carried ==> (after.carried <==> (ts.position > 0 && after.position > 0) || (
            ts.position <= 0 && after.position < 0))
        }),
{
}

/// The entry price after a fill: none when flat, the fill's price when the
/// position opened or changed sides, the one before when it shrank, and when it
/// grew the average over the contracts, which lies between the two prices.
pub proof fn law_entry_after_a_fill(ts: TickerState, nf: NormalizedFill, now: i64)
    requires
        nf.size > 0,
        i64::MIN <= ts.position + change_by(nf) <= i64::MAX,
    ensures
        ({
            let p = ts.position as int;
            let q = p + change_by(nf);
            let price = nf.price_yes as int;
            let after = after_fill(ts, nf, now).entry_price;
            let grew = (p > 0 && nf.long_yes) || (p < 0 && !nf.long_yes);
            &&& q == 0 ==> after is None
            &&& q != 0 && p == 0 ==> after == Some(nf.price_yes)
            &&& (p > 0 && q < 0) || (p < 0 && q > 0) ==> after == Some(nf.price_yes)
            &&& (0 < q < p) || (p < q < 0) ==> after == ts.entry_price
            &&& grew && ts.entry_price is None ==> after == Some(nf.price_yes)
            &&& grew && ts.entry_price is Some ==> {
                let e = ts.entry_price->Some_0 as int;
                let m = after->Some_0 as int;
                let held = if p > 0 {
                    p
                } else {
                    0 - p
                };
                &&& after is Some
                &&& magnitude(2 * (m * (held + nf.size) - (held * e + nf.size * price))) <= held
                    + nf.size
                &&& e <= price ==> e <= m <= price
                &&& price <= e ==> price <= m <= e
            }
        }),
{
    let p = ts.position as int;
    let grew = (p > 0 && nf.long_yes) || (p < 0 && !nf.long_yes);
    if grew {
        let held = if p > 0 {
            p
        } else {
            0 - p
        };
        let e = match ts.entry_price {
            Some(e) => e as int,
            None => nf.price_yes as int,
        };
        lemma_average(held, e, nf.size as int, nf.price_yes as int);
    }
}

/// A weighted average lies between what it averages.
proof fn lemma_average(a: int, e: int, b: int, p: int)
    requires
        a > 0,
        b > 0,
    ensures
        ({
            let m = round_even(a * e + b * p, a + b);
            &&& e <= p ==> e <= m <= p
            &&& p <= e ==> p <= m <= e
            &&& magnitude(2 * (m * (a + b) - (a * e + b * p))) <= a + b
        }),
{
    let n = a + b;
    let sum = a * e + b * p;
    lemma_round_even_near(sum, n);
    let m = round_even(sum, n);
    assert(m * n == n * m) by (nonlinear_arith);
    if e <= p {
        lemma_between(a, e, b, p);
    } else {
        lemma_between(b, p, a, e);
        assert(a * e + b * p == b * p + a * e);
    }
}

proof fn lemma_between(a: int, low: int, b: int, high: int)
    requires
        a > 0,
        b > 0,
        low <= high,
    ensures
        low <= round_even(a * low + b * high, a + b) <= high,
{
    let n = a + b;
    let sum = a * low + b * high;
    assert(low * n <= sum <= high * n) by (nonlinear_arith)
        requires
            a > 0,
            b > 0,
            low <= high,
            n == a + b,
            sum == a * low + b * high,
    ;
    crate::num::lemma_round_even_monotone(low * n, sum, n);
    crate::num::lemma_round_even_monotone(sum, high * n, n);
    vstd::arithmetic::div_mod::lemma_fundamental_div_mod_converse(low * n, n, low, 0);
    vstd::arithmetic::div_mod::lemma_fundamental_div_mod_converse(high * n, n, high, 0);
}

/// A profit of a fill: nothing where it opens or extends, and where it closes
/// contracts of a long position its price less the entry for each, or of a short
/// one the entry less its price.
pub open spec fn earned(ts: TickerState, nf: NormalizedFill, gain: int) -> bool {
    let p = ts.position as int;
    let price = nf.price_yes as int;
    &&& p == 0 || ts.entry_price is None || ts.entry_price == Some(nf.price_yes) ==> gain == 0
    &&& p > 0 && nf.long_yes ==> gain == 0
    &&& p < 0 && !nf.long_yes ==> gain == 0
    &&& ts.entry_price matches Some(e) ==> {
        &&& p > 0 && !nf.long_yes && nf.size <= p ==> gain == nf.size * price - nf.size * e
        &&& p > 0 && !nf.long_yes && nf.size > p ==> gain == p * price - p * e
        &&& p < 0 && nf.long_yes && nf.size <= 0 - p ==> gain == nf.size * e - nf.size * price
        &&& p < 0 && nf.long_yes && nf.size > 0 - p ==> gain == p * price - p * e
    }
}

/// What a fill realizes in its market.
pub proof fn law_a_fill_earns_what_it_closes(ts: TickerState, nf: NormalizedFill, now: i64)
    requires
        nf.size > 0,
        i128::MIN <= ts.realized_pnl + fill_gain(ts, nf) <= i128::MAX,
    ensures
        earned(ts, nf, fill_gain(ts, nf)),
        earned(ts, nf, after_fill(ts, nf, now).realized_pnl - ts.realized_pnl),
{
    let p = ts.position as int;
    let price = nf.price_yes as int;
    let size = nf.size as int;
    let basis = match ts.entry_price {
        Some(e) => e as int,
        None => price,
    };
    let closed = if size < magnitude(p) {
        size
    } else {
        magnitude(p)
    };
    assert(closed * (price - basis) == closed * price - closed * basis) by (nonlinear_arith);
    assert(closed * (basis - price) == closed * basis - closed * price) by (nonlinear_arith);
    assert((0 - p) * (basis - price) == p * price - p * basis) by (nonlinear_arith);
    if price == basis {
        assert(closed * (price - basis) == 0) by (nonlinear_arith)
            requires
                price == basis,
        ;
        assert(closed * (basis - price) == 0) by (nonlinear_arith)
            requires
                price == basis,
        ;
    }
}

/// A fill frees the slot of the order that it used up and no other, and leaves
/// what is not about the position alone.
pub proof fn law_what_a_fill_leaves_alone(ts: TickerState, nf: NormalizedFill, now: i64)
    ensures
        ({
            let after = after_fill(ts, nf, now);
            &&& after.bid_order_id is None <==> ts.bid_order_id is None || (nf.order_id is Some
                && ts.bid_order_id->Some_0@ == nf.order_id->Some_0@)
            &&& after.bid_order_id is Some ==> after.bid_order_id == ts.bid_order_id
            &&& after.ask_order_id is None <==> ts.ask_order_id is None || (nf.order_id is Some
                && ts.ask_order_id->Some_0@ == nf.order_id->Some_0@)
            &&& after.ask_order_id is Some ==> after.ask_order_id == ts.ask_order_id
            &&& after.category == ts.category
            &&& after.book == ts.book
            &&& after.mid_history == ts.mid_history
            &&& after.last_mid_sample == ts.last_mid_sample
            &&& after.recent_trades == ts.recent_trades
            &&& after.last_quote_time == ts.last_quote_time
            &&& after.quoted_bid == ts.quoted_bid
            &&& after.quoted_ask == ts.quoted_ask
            &&& after.ever_quoted == ts.ever_quoted
            &&& after.close_time_s == ts.close_time_s
            &&& after.tick == ts.tick
        }),
{
}

/// What a fill does to the account: the profit of the day and in all go up by
/// what it earned less its fee, the fee is counted, and so are the fill, its
/// kind, a win or a loss, and the category's losing streak.
pub proof fn law_a_fill_in_the_account(
    before: TraderState,
    after: TraderState,
    ticker: Seq<char>,
    nf: NormalizedFill,
    fee: int,
    now: i64,
)
    requires
        booked_fill(before, after, ticker, nf, fee, now),
        before.tickers.wf(),
        before.tickers.has(ticker),
        nf.size > 0,
        books_fit(before, ticker, nf, fee),
        i128::MIN <= before.daily_pnl - fee <= i128::MAX,
        i128::MIN <= before.daily_pnl - fee + fill_gain(before.tickers.at(ticker), nf) <= i128::MAX,
        before.fills < u64::MAX,
        before.wins < u64::MAX,
        before.losses < u64::MAX,
        before.taker_fills < u64::MAX,
        before.maker_fills < u64::MAX,
    ensures
        ({
            let gain = after.daily_pnl - before.daily_pnl + fee;
            let ts = before.tickers.at(ticker);
            let own = ts.category@;
            &&& earned(ts, nf, gain)
            &&& after.cumulative_pnl - before.cumulative_pnl + fee == gain
            &&& after.fees_paid == before.fees_paid + fee
            &&& after.fills == before.fills + 1
            &&& after.taker_fills - before.taker_fills == if nf.is_taker {
                1int
            } else {
                0
            }
            &&& after.maker_fills - before.maker_fills == if nf.is_taker {
                0int
            } else {
                1
            }
            &&& after.wins - before.wins == if gain > 0 {
                1int
            } else {
                0
            }
            &&& after.losses - before.losses == if gain < 0 {
                1int
            } else {
                0
            }
            &&& gain > 0 && !ts.carried ==> after.consecutive_losses@.dom().contains(own)
                && after.consecutive_losses@[own] == 0
            &&& gain < 0 && !ts.carried && before.consecutive_losses@.dom().contains(own)
                && before.consecutive_losses@[own] < u64::MAX
                ==> after.consecutive_losses@.dom().contains(own) && after.consecutive_losses@[own]
                == before.consecutive_losses@[own] + 1
            &&& gain < 0 && !ts.carried && !before.consecutive_losses@.dom().contains(own)
                ==> after.consecutive_losses@.dom().contains(own) && after.consecutive_losses@[own]
                == 1
            &&& gain == 0 || ts.carried ==> after.consecutive_losses@ == before.consecutive_losses@
            &&& forall|c: Seq<char>|
                c != own ==> (#[trigger] after.consecutive_losses@.dom().contains(c)
                    <==> before.consecutive_losses@.dom().contains(c))
            &&& forall|c: Seq<char>|
                c != own && #[trigger] after.consecutive_losses@.dom().contains(c)
                    ==> after.consecutive_losses@[c] == before.consecutive_losses@[c]
            &&& after.tickers.at(ticker) == after_fill(ts, nf, now)
            &&& forall|k: Seq<char>|
                before.tickers.has(k) && k != ticker ==> after.tickers.at(k)
                    == #[trigger] before.tickers.at(k)
            &&& after.trade_log@.len() > 0
            &&& ({
                let line = after.trade_log@.last();
                &&& line.0 == now
                &&& line.1 == nf.ticker
                &&& line.2@ == if nf.long_yes {
                    "buy"@
                } else {
                    "sell"@
                }
                &&& line.3 == 100 * nf.price_yes
                &&& line.4 == nf.size
            })
            &&& after.quotes_sent == before.quotes_sent
            &&& after.seen == before.seen
            &&& after.last_reset == before.last_reset
            &&& after.balance_backoff_until == before.balance_backoff_until
            &&& after.halted_categories == before.halted_categories
        }),
{
    let ts = before.tickers.at(ticker);
    crate::table::lemma_same_keys(before.tickers, after.tickers, ticker, after_fill(ts, nf, now));
    law_a_fill_earns_what_it_closes(ts, nf, now);
}

/// The log keeps the newest ten thousand trades.
pub proof fn law_the_log_keeps_the_newest(log: Seq<LoggedTrade>, trade: LoggedTrade)
    ensures
        ({
            let after = logged(log, trade);
            let n = after.len() as int;
            &&& n > 0 && after[n - 1] == trade
            &&& forall|i: int| 1 <= i < n ==> #[trigger] after[n - 1 - i] == log[log.len() - i]
            &&& log.len() < 10_000 ==> n == log.len() + 1
            &&& log.len() == 10_000 ==> n == 10_000
        }),
{
}

/// Of the ids that were noted, the newest twenty thousand are known.
pub proof fn law_which_ids_are_known(order: Seq<Seq<char>>, id: Seq<char>)
    requires
        order.len() <= 20_000,
    ensures
        ({
            let after = with_id(order, id);
            &&& after.contains(id)
            &&& order.contains(id) ==> after == order
            &&& !order.contains(id) && order.len() < 20_000 ==> after == order.push(id)
            &&& !order.contains(id) && order.len() == 20_000 ==> after.len() == 20_000
                && after.last() == id && forall|i: int|
                0 <= i < 19_999 ==> #[trigger] after[i] == order[i + 1]
        }),
{
    if !order.contains(id) {
        let longer = order.push(id);
        assert(longer[order.len() as int] == id);
        if order.len() == 20_000 {
            assert(longer.drop_first()[19_999] == id);
        }
    }
}

/// Replayed fills leave what booking them one after the other from flat would:
/// one more fill moves the replayed position by its contracts.
pub proof fn law_replay_step(fills: Seq<NormalizedFill>)
    requires
        fills.len() > 0,
        i64::MIN <= replayed(fills.drop_last()).0 + change_by(fills.last()) <= i64::MAX,
    ensures
        replayed(fills).0 == replayed(fills.drop_last()).0 + change_by(fills.last()),
        replayed(fills).1 == folded_entry(
            replayed(fills.drop_last()).0,
            replayed(fills).0,
            replayed(fills.drop_last()).1,
            fills.last().size as int,
            fills.last().price_yes,
        ),
        replayed(Seq::<NormalizedFill>::empty()) == (0int, None::<i64>),
{
}

// --- settlement --------------------------------------------------------------

/// A settlement leaves the market flat. It pays a dollar for each YES contract
/// where the result is yes and nothing where it is no, so each contract held
/// earns that less its entry price, and each one owed the entry price less that.
pub proof fn law_a_settlement_pays(ts: TickerState, result: Option<bool>)
    requires
        settled_gain(ts, result) matches Some(gain) ==> i128::MIN <= ts.realized_pnl + gain
            <= i128::MAX,
    ensures
        ({
            let after = after_settlement(ts, result);
            let p = ts.position as int;
            let gain = after.realized_pnl - ts.realized_pnl;
            &&& after.position == 0
            &&& p != 0 ==> after.entry_price is None && !after.carried
            &&& p == 0 ==> after == ts && settled_gain(ts, result) is None
            &&& result is None || ts.entry_price is None ==> gain == 0 && settled_gain(ts, result)
                is None
            &&& p != 0 && ts.entry_price is Some && result == Some(true) ==> gain == p
                * 1_000_000_000 - p * ts.entry_price->Some_0 && settled_gain(ts, result) == Some(
                gain,
            )
            &&& p != 0 && ts.entry_price is Some && result == Some(false) ==> gain == 0 - p
                * ts.entry_price->Some_0 && settled_gain(ts, result) == Some(gain)
            &&& after.book == ts.book
            &&& after.fills_buy == ts.fills_buy
            &&& after.fills_sell == ts.fills_sell
            &&& after.category == ts.category
            &&& after.bid_order_id == ts.bid_order_id
            &&& after.ask_order_id == ts.ask_order_id
            &&& after.quoted_bid == ts.quoted_bid
            &&& after.quoted_ask == ts.quoted_ask
        }),
{
    let p = ts.position as int;
    match ts.entry_price {
        Some(e) => {
            assert(p * (1_000_000_000 - e) == p * 1_000_000_000 - p * e) by (nonlinear_arith);
            assert(p * (0 - e) == 0 - p * e) by (nonlinear_arith);
        },
        None => {},
    }
}

/// What a settlement does to the account: the profit of the day and in all go
/// up by what it earned, which counts as a win or a loss, and no fee is charged.
pub proof fn law_a_settlement_in_the_account(
    before: TraderState,
    after: TraderState,
    ticker: Seq<char>,
    result: Option<bool>,
)
    requires
        booked_settlement(before, after, ticker, result),
        before.tickers.wf(),
        before.tickers.has(ticker),
        before.wins < u64::MAX,
        before.losses < u64::MAX,
        ({
            let gain = match settled_gain(before.tickers.at(ticker), result) {
                Some(gain) => gain,
                None => 0,
            };
            &&& i128::MIN <= before.daily_pnl + gain <= i128::MAX
            &&& i128::MIN <= before.cumulative_pnl + gain <= i128::MAX
        }),
    ensures
        ({
            let ts = before.tickers.at(ticker);
            let gain = after.daily_pnl - before.daily_pnl;
            &&& settled_gain(ts, result) is Some ==> settled_gain(ts, result) == Some(gain)
            &&& settled_gain(ts, result) is None ==> gain == 0
            &&& after.cumulative_pnl - before.cumulative_pnl == gain
            &&& after.fees_paid == before.fees_paid
            &&& after.fills == before.fills
            &&& after.wins - before.wins == if gain > 0 {
                1int
            } else {
                0
            }
            &&& after.losses - before.losses == if gain < 0 {
                1int
            } else {
                0
            }
            &&& gain > 0 && !ts.carried ==> after.consecutive_losses@.dom().contains(ts.category@)
                && after.consecutive_losses@[ts.category@] == 0
            &&& gain == 0 || ts.carried ==> after.consecutive_losses@ == before.consecutive_losses@
            &&& after.tickers.at(ticker) == after_settlement(ts, result)
            &&& forall|k: Seq<char>|
                before.tickers.has(k) && k != ticker ==> after.tickers.at(k)
                    == #[trigger] before.tickers.at(k)
        }),
{
    let ts = before.tickers.at(ticker);
    crate::table::lemma_same_keys(
        before.tickers,
        after.tickers,
        ticker,
        after_settlement(ts, result),
    );
}

// --- beginnings --------------------------------------------------------------

/// A market that was just made is flat, has no fills, no orders, no prices and
/// an empty book, and steps by a cent.
pub proof fn law_a_new_market(ts: TickerState, category: Seq<char>)
    requires
        is_fresh(ts, category),
    ensures
        ts.category@ == category,
        ts.position == 0,
        ts.entry_price is None,
        ts.fills_buy + ts.fills_sell == 0,
        ts.fills_buy == ts.fills_sell,
        ts.realized_pnl == 0,
        ts.mid_history@.len() == 0,
        ts.recent_trades@.len() == 0,
        ts.bid_order_id is None && ts.ask_order_id is None,
        ts.quoted_bid is None && ts.quoted_ask is None,
        !ts.ever_quoted && !ts.carried,
        ts.close_time_s is None,
        ts.last_quote_time == 0 && ts.last_fill_epoch == 0 && ts.last_mid_sample == 0,
        ts.tick == 10_000_000,
        !ts.book.valid(),
{
}

/// An account at its start has earned, paid and counted nothing.
pub proof fn law_a_new_account(s: TraderState, now: i64)
    requires
        s.at_start(now),
    ensures
        s.daily_pnl == 0 && s.cumulative_pnl == 0 && s.fees_paid == 0,
        s.quotes_sent + s.fills + s.wins + s.losses + s.taker_fills + s.maker_fills == 0,
        forall|c: Seq<char>| !#[trigger] s.halted_categories@.dom().contains(c),
        forall|c: Seq<char>| !#[trigger] s.consecutive_losses@.dom().contains(c),
        forall|k: Seq<char>| !#[trigger] s.tickers.has(k),
        forall|id: Seq<char>| !#[trigger] s.seen.order().contains(id),
        s.trade_log@.len() == 0,
        s.balance_backoff_until == 0,
        s.last_reset == now,
{
}

// --- capital and orders ------------------------------------------------------

/// The capital in one market: contracts of either sign at the entry price, at
/// half a dollar where that is not known.
pub open spec fn capital(ts: TickerState) -> int {
    let contracts = if ts.position < 0 {
        0 - ts.position
    } else {
        ts.position as int
    };
    match ts.entry_price {
        Some(e) => contracts * e,
        None => contracts * 500_000_000,
    }
}

/// The capital in the markets from one on that take part.
pub open spec fn capital_from(
    keys: Seq<Seq<char>>,
    values: Seq<TickerState>,
    active: Option<&Table<()>>,
    i: int,
    n: int,
) -> int
    decreases n - i,
{
    if i >= n {
        0
    } else {
        (if is_active(active, keys[i]) {
            capital(values[i])
        } else {
            0
        }) + capital_from(keys, values, active, i + 1, n)
    }
}

proof fn lemma_capital_step(
    keys: Seq<Seq<char>>,
    values: Seq<TickerState>,
    active: Option<&Table<()>>,
    i: int,
    n: int,
)
    requires
        0 <= i <= n,
    ensures
        capital_from(keys, values, active, i, n + 1) == capital_from(keys, values, active, i, n) + (
        if is_active(active, keys[n]) {
            capital(values[n])
        } else {
            0
        }),
    decreases n - i,
{
    reveal_with_fuel(capital_from, 2);
    if i < n {
        lemma_capital_step(keys, values, active, i + 1, n);
    }
}

/// The capital in open positions is the sum over the markets that take part,
/// and a flat market has none.
pub proof fn law_capital_adds_up(
    keys: Seq<Seq<char>>,
    values: Seq<TickerState>,
    active: Option<&Table<()>>,
    n: int,
)
    requires
        0 <= n <= keys.len(),
        keys.len() == values.len(),
        forall|i: int|
            0 <= i < values.len() ==> ((#[trigger] values[i]).entry_price matches Some(e) ==> e >= 0),
        capital_from(keys, values, active, 0, n) <= i128::MAX,
    ensures
        locked_in(keys, values, active, n) == capital_from(keys, values, active, 0, n),
        capital_from(keys, values, active, 0, n) >= 0,
    decreases n,
{
    if n > 0 {
        lemma_capital_step(keys, values, active, 0, n - 1);
        let ts = values[n - 1];
        let contracts = if ts.position < 0 {
            0 - ts.position
        } else {
            ts.position as int
        };
        match ts.entry_price {
            Some(e) => {
                assert(contracts * e >= 0) by (nonlinear_arith)
                    requires
                        contracts >= 0,
                        e >= 0,
                ;
                assert(0 * e == 0) by (nonlinear_arith);
            },
            None => {},
        }
        assert(capital(ts) >= 0);
        assert(ts.position == 0 ==> capital(ts) == 0);
        law_capital_adds_up(keys, values, active, n - 1);
    }
}

/// Without a list of active markets all take part, and with one those on it.
pub proof fn law_who_takes_part(names: Table<()>, key: Seq<char>)
    ensures
        is_active(None, key),
        is_active(Some(&names), key) <==> names.keys().contains(key),
{
}

/// Resting orders are counted one for each side that has one.
pub proof fn law_orders_add_up(values: Seq<TickerState>)
    requires
        values.len() > 0,
    ensures
        orders_in(values) - orders_in(values.drop_last()) == if values.last().bid_order_id is Some
            && values.last().ask_order_id is Some {
            2int
        } else if values.last().bid_order_id is Some || values.last().ask_order_id is Some {
            1
        } else {
            0
        },
        orders_in(Seq::<TickerState>::empty()) == 0,
{
}

} // verus!
