//! What the exchange's replies come to, said of their records and results.

use vstd::prelude::*;

use crate::api::order_ids_of;
use crate::config::CategoryConfig;
use crate::json::{number_at, JsonView};
use crate::num::{lemma_round_even_near, magnitude, Num};
use crate::replies::{
    close_at, close_text, contracts_of, count_markets, cursor_in, finest, listed_market, market_of, names_without,
    orders_to_cancel, orders_to_keep, position_in, positions_in, positions_of, reduces, results_of, takes_profit,
    tick_of, time_place, time_rank, with_fill, with_markets, TimedView,
};
use crate::state::{result_in, settled_ticker, TickerState};
use crate::table::Table;
use crate::text::{before, occurs_at};
use crate::transport::{event_in, spot_in, unfollowed, EventView};
use crate::trader::Trader;
use crate::universe::{first_product, market_in, payload_in, products_differ, put_market, stays, with_details};

verus! {

// --- pages and positions -----------------------------------------------------

/// There is another page exactly where the reply has a cursor that is not empty.
pub proof fn law_cursor(reply: JsonView, text: Seq<char>)
    ensures
        cursor_in(reply) == Some(text) <==> reply.text_field("cursor"@) == Some(text) && text.len()
            > 0,
{
}

/// A position record states the nearest whole number of contracts, of either
/// sign, under the market that it names.
pub proof fn law_position_record(record: JsonView, n: i128, name: Seq<char>)
    requires
        -9_000_000_000_000_000_000_000_000_000 <= n <= 9_000_000_000_000_000_000_000_000_000,
    ensures
        record.field("position_fp"@) matches Some(v) && v.number() == Some(Num::Finite(n))
            ==> magnitude(2 * (contracts_of(record) * 1_000_000_000 - n)) <= 1_000_000_000,
        record.field("position_fp"@) is None && (record.field("position"@) matches Some(v)
            && v.number() == Some(Num::Finite(n))) ==> magnitude(
            2 * (contracts_of(record) * 1_000_000_000 - n),
        ) <= 1_000_000_000,
        record.field("position_fp"@) is None && record.field("position"@) is None ==> contracts_of(
            record,
        ) == 0,
        record.text_field("ticker"@) == Some(name) ==> market_of(record) == Some(name),
        record.field("ticker"@) is None && record.text_field("market_ticker"@) == Some(name)
            ==> market_of(record) == Some(name),
{
    lemma_round_even_near(n as int, 1_000_000_000);
}

/// The positions that records state: for each market that of its last record,
/// here the one at `i`, and none where no record names it.
pub proof fn law_positions(records: Seq<JsonView>, ticker: Seq<char>, i: int)
    requires
        -1 <= i < records.len(),
        i >= 0 ==> market_of(records[i]) == Some(ticker),
        forall|j: int| i < j < records.len() ==> market_of(#[trigger] records[j]) != Some(ticker),
    ensures
        positions_of(records).dom().contains(ticker) <==> i >= 0,
        i >= 0 ==> positions_of(records)[ticker] == contracts_of(records[i]) as i64,
        i < 0 ==> position_in(positions_of(records), ticker) == 0,
        i >= 0 ==> position_in(positions_of(records), ticker) == contracts_of(records[i]) as i64,
    decreases records.len(),
{
    let n = records.len() - 1;
    if n >= 0 && i < n {
        let rest = records.drop_last();
        assert forall|j: int| i < j < rest.len() implies market_of(#[trigger] rest[j]) != Some(
            ticker,
        ) by {
            assert(market_of(records[j]) != Some(ticker));
        }
        assert(market_of(records[n]) != Some(ticker));
        law_positions(rest, ticker, i);
    }
}

/// The list of positions has one of two names.
pub proof fn law_where_positions_are(reply: JsonView, records: Seq<JsonView>)
    ensures
        reply.field("market_positions"@) == Some(JsonView::Array(records)) ==> positions_in(reply)
            == positions_of(records),
        reply.field("market_positions"@) is None && reply.field("positions"@) == Some(
            JsonView::Array(records),
        ) ==> positions_in(reply) == positions_of(records),
{
}

// --- resting orders ----------------------------------------------------------

/// An order moves a position toward flat where it sells from a long one or buys
/// from a short one; flat has no such order.
pub proof fn law_reducing_orders(order: JsonView, position: int)
    ensures
        reduces(order, 0) == false,
        reduces(order, position) <==> (order.text_field("action"@) == Some("sell"@) && position > 0)
            || (order.text_field("action"@) == Some("buy"@) && position < 0),
        position != 0 && (order.text_field("action"@) == Some("sell"@) || order.text_field(
            "action"@,
        ) == Some("buy"@)) ==> reduces(order, position) != reduces(order, 0 - position),
{
    reveal_strlit("buy");
    reveal_strlit("sell");
    assert("buy"@.len() != "sell"@.len());
}

/// At the start every order that has an id and does not take profit on its own
/// market's position is canceled.
pub proof fn law_orders_canceled(orders: Seq<JsonView>, positions: Map<Seq<char>, i64>, i: int)
    requires
        0 <= i < orders.len(),
        orders[i].text_field("order_id"@) is Some,
        ({
            let held = match market_of(orders[i]) {
                Some(t) => if positions.dom().contains(t) {
                    positions[t] as int
                } else {
                    0
                },
                None => if positions.dom().contains(seq![]) {
                    positions[seq![]] as int
                } else {
                    0
                },
            };
            !reduces(orders[i], held)
        }),
    ensures
        orders_to_cancel(orders, positions).contains(
            orders[i].text_field("order_id"@)->Some_0,
        ),
    decreases orders.len(),
{
    let n = orders.len() - 1;
    let rest = orders.drop_last();
    let earlier = orders_to_cancel(rest, positions);
    let all = orders_to_cancel(orders, positions);
    let id = orders[i].text_field("order_id"@)->Some_0;
    if i < n {
        assert(rest[i] == orders[i]);
        law_orders_canceled(rest, positions, i);
        let j = earlier.index_of(id);
        assert(all[j] == id);
    } else {
        assert(all[all.len() - 1] == id);
    }
}

/// An order that is canceled then is one that does not take profit, and those
/// that do are counted as kept.
pub proof fn law_orders_kept(orders: Seq<JsonView>, positions: Map<Seq<char>, i64>, j: int) -> (i:
    int)
    requires
        0 <= j < orders_to_cancel(orders, positions).len(),
    ensures
        0 <= i < orders.len(),
        orders[i].text_field("order_id"@) == Some(orders_to_cancel(orders, positions)[j]),
        !takes_profit(orders[i], positions),
        orders_to_keep(orders, positions) == orders.filter(
            |o: JsonView| takes_profit(o, positions),
        ).len(),
    decreases orders.len(),
{
    lemma_kept(orders, positions);
    let rest = orders.drop_last();
    let earlier = orders_to_cancel(rest, positions);
    if j < earlier.len() {
        let i = law_orders_kept(rest, positions, j);
        assert(rest[i] == orders[i]);
        i
    } else {
        orders.len() - 1
    }
}

proof fn lemma_kept(orders: Seq<JsonView>, positions: Map<Seq<char>, i64>)
    ensures
        orders_to_keep(orders, positions) == orders.filter(
            |o: JsonView| takes_profit(o, positions),
        ).len(),
    decreases orders.len(),
{
    reveal(Seq::filter);
    if orders.len() > 0 {
        lemma_kept(orders.drop_last(), positions);
    }
}

/// The ids of listed orders: every order that has one, in order.
pub proof fn law_order_ids(orders: Seq<JsonView>)
    ensures
        order_ids_of(orders) == orders.filter(
            |o: JsonView| o.text_field("order_id"@) is Some,
        ).map_values(|o: JsonView| o.text_field("order_id"@)->Some_0),
    decreases orders.len(),
{
    reveal(Seq::filter);
    let has = |o: JsonView| o.text_field("order_id"@) is Some;
    let id = |o: JsonView| o.text_field("order_id"@)->Some_0;
    if orders.len() > 0 {
        let rest = orders.drop_last();
        law_order_ids(rest);
        if has(orders.last()) {
            assert(orders.filter(has) == rest.filter(has).push(orders.last()));
            assert(rest.filter(has).push(orders.last()).map_values(id) =~= rest.filter(
                has,
            ).map_values(id).push(id(orders.last())));
        } else {
            assert(orders.filter(has) == rest.filter(has));
        }
    } else {
        assert(order_ids_of(orders) =~= orders.filter(has).map_values(id));
    }
}

// --- markets -----------------------------------------------------------------

/// A listed market counts for a category where its ticker begins with the
/// category's name.
pub proof fn law_listed_market(market: JsonView, category: Seq<char>, rest: Seq<char>)
    ensures
        market.text_field("ticker"@) == Some(category + rest) ==> listed_market(market, category)
            == Some(category + rest),
        listed_market(market, category) matches Some(t) ==> market.text_field("ticker"@) == Some(t)
            && t.len() >= category.len() && t.take(category.len() as int) == category,
{
    let whole = category + rest;
    assert(whole.subrange(0, category.len() as int) =~= category);
    match market.text_field("ticker"@) {
        Some(t) => {
            if occurs_at(t, category, 0) {
                assert(t.take(category.len() as int) =~= t.subrange(0, category.len() as int));
            }
        },
        None => {},
    }
}

/// A page adds its markets under the category asked for and leaves the others
/// as they were.
pub proof fn law_page_of_markets(
    found: Map<Seq<char>, Seq<char>>,
    markets: Seq<JsonView>,
    category: Seq<char>,
    ticker: Seq<char>,
)
    ensures
        ({
            let listed = exists|i: int|
                0 <= i < markets.len() && #[trigger] listed_market(markets[i], category) == Some(
                    ticker,
                );
            let after = with_markets(found, markets, category);
            &&& after.dom().contains(ticker) <==> listed || found.dom().contains(ticker)
            &&& listed ==> after[ticker] == category
            &&& !listed && found.dom().contains(ticker) ==> after[ticker] == found[ticker]
        }),
        count_markets(markets, category) == markets.filter(
            |m: JsonView| listed_market(m, category) is Some,
        ).len(),
    decreases markets.len(),
{
    reveal(Seq::filter);
    if markets.len() > 0 {
        let rest = markets.drop_last();
        let n = rest.len() as int;
        law_page_of_markets(found, rest, category, ticker);
        if exists|i: int|
            0 <= i < rest.len() && #[trigger] listed_market(rest[i], category) == Some(ticker) {
            let i = choose|i: int|
                0 <= i < rest.len() && #[trigger] listed_market(rest[i], category) == Some(ticker);
            assert(listed_market(markets[i], category) == Some(ticker));
        }
        if exists|i: int|
            0 <= i < markets.len() && #[trigger] listed_market(markets[i], category) == Some(
                ticker,
            ) {
            let i = choose|i: int|
                0 <= i < markets.len() && #[trigger] listed_market(markets[i], category) == Some(
                    ticker,
                );
            if i < n {
                assert(listed_market(rest[i], category) == Some(ticker));
            }
        }
        if listed_market(markets[n], category) == Some(ticker) {
            assert(markets.last() == markets[n]);
        }
    }
}

/// The names that another table lacks.
pub proof fn law_names_without<V>(keys: Seq<Seq<char>>, other: Table<V>)
    ensures
        names_without(keys, other) == keys.filter(|k: Seq<char>| !other.has(k)),
    decreases keys.len(),
{
    reveal(Seq::filter);
    if keys.len() > 0 {
        law_names_without(keys.drop_last(), other);
    }
}

/// The markets of a universe that are not followed yet.
pub proof fn law_unfollowed(universe: Seq<Seq<char>>, followed: Map<Seq<char>, ()>)
    ensures
        unfollowed(universe, followed) == universe.filter(
            |k: Seq<char>| !followed.dom().contains(k),
        ),
    decreases universe.len(),
{
    reveal(Seq::filter);
    if universe.len() > 0 {
        law_unfollowed(universe.drop_last(), followed);
    }
}

/// A range states a step.
pub open spec fn steps_by(range: JsonView, step: int) -> bool {
    range.field("step"@) matches Some(v) && v.number() == Some(Num::Finite(step as i128))
        && i128::MIN <= step <= i128::MAX
}

/// A range states no step that is below every number.
pub open spec fn is_plain(range: JsonView) -> bool {
    match number_at(range.field("step"@)) {
        Some(Num::Infinite(true)) => false,
        _ => true,
    }
}

proof fn lemma_finest(ranges: Seq<JsonView>)
    requires
        forall|i: int| 0 <= i < ranges.len() ==> is_plain(#[trigger] ranges[i]),
    ensures
        finest(ranges) is None || finest(ranges)->Some_0 is Finite,
        forall|i: int, s: int|
            0 <= i < ranges.len() && #[trigger] steps_by(ranges[i], s) ==> finest(ranges) is Some
                && finest(ranges)->Some_0->Finite_0 <= s,
        finest(ranges) matches Some(Num::Finite(t)) ==> exists|i: int|
            0 <= i < ranges.len() && #[trigger] steps_by(ranges[i], t as int),
    decreases ranges.len(),
{
    if ranges.len() > 0 {
        let rest = ranges.drop_last();
        let n = rest.len() as int;
        assert forall|i: int| 0 <= i < rest.len() implies is_plain(#[trigger] rest[i]) by {
            assert(is_plain(ranges[i]));
        }
        lemma_finest(rest);
        assert(is_plain(ranges[n]));
        assert forall|i: int, s: int|
            0 <= i < ranges.len() && #[trigger] steps_by(ranges[i], s) implies finest(ranges)
            is Some && finest(ranges)->Some_0->Finite_0 <= s by {
            if i < n {
                assert(steps_by(rest[i], s));
            }
        }
        match finest(ranges) {
            Some(Num::Finite(t)) => {
                if finest(rest) == Some(Num::Finite(t)) {
                    let i = choose|i: int|
                        0 <= i < rest.len() && #[trigger] steps_by(rest[i], t as int);
                    assert(steps_by(ranges[i], t as int));
                } else {
                    assert(steps_by(ranges[n], t as int));
                }
            },
            _ => {},
        }
    }
}

/// The price step of a market is the finest one that its ranges state, and a
/// cent where they state none.
pub proof fn law_price_step(market: JsonView, ranges: Seq<JsonView>)
    requires
        market.field("price_ranges"@) == Some(JsonView::Array(ranges)),
        forall|i: int| 0 <= i < ranges.len() ==> is_plain(#[trigger] ranges[i]),
        forall|i: int, s: int|
            0 <= i < ranges.len() && #[trigger] steps_by(ranges[i], s) ==> i64::MIN <= s <= i64::MAX,
    ensures
        forall|i: int, s: int|
            0 <= i < ranges.len() && #[trigger] steps_by(ranges[i], s) ==> tick_of(market) <= s,
        (exists|i: int| 0 <= i < ranges.len() && #[trigger] steps_by(ranges[i], tick_of(market)))
            || tick_of(market) == 10_000_000,
        (forall|i: int, s: int| 0 <= i < ranges.len() ==> !#[trigger] steps_by(ranges[i], s))
            ==> tick_of(market) == 10_000_000,
{
    lemma_finest(ranges);
    match finest(ranges) {
        Some(Num::Finite(t)) => {
            let i = choose|i: int| 0 <= i < ranges.len() && #[trigger] steps_by(ranges[i], t as int);
            assert(steps_by(ranges[i], t as int));
        },
        _ => {},
    }
}

/// A market whose record has no list of ranges steps by a cent.
pub proof fn law_price_step_unstated(market: JsonView)
    requires
        market.array_field("price_ranges"@) is None,
    ensures
        tick_of(market) == 10_000_000,
{
}

/// A market's close: milliseconds become microseconds.
pub proof fn law_close(market: JsonView, ms: i64, text: Seq<char>)
    requires
        -9_000_000_000_000_000 <= ms <= 9_000_000_000_000_000,
    ensures
        close_at(Some(ms)) matches Some(t) && t == 1000 * ms,
        close_at(None) is None,
        market.text_field("close_time"@) == Some(text) ==> close_text(market) == Some(text),
        market.field("close_time"@) is None && market.text_field("expected_expiration_time"@)
            == Some(text) ==> close_text(market) == Some(text),
{
}

/// What a market's details change: the price step, and the close where the
/// reply names one; without a reply the step is a cent.
pub proof fn law_details(base: TickerState, reply: JsonView)
    ensures
        ({
            let after = with_details(base, Some(reply));
            let without = with_details(base, None);
            &&& after.tick == tick_of(market_in(reply)) as i64
            &&& crate::replies::close_of(market_in(reply)) is Some ==> after.close_time_s
                == crate::replies::close_of(market_in(reply))
            &&& crate::replies::close_of(market_in(reply)) is None ==> after.close_time_s
                == base.close_time_s
            &&& after == (TickerState { tick: after.tick, close_time_s: after.close_time_s, ..base })
            &&& without.tick == 10_000_000
            &&& without == (TickerState { tick: without.tick, ..base })
        }),
        reply.field("market"@) matches Some(m) ==> market_in(reply) == m,
        reply.field("orderbook"@) matches Some(b) ==> payload_in(reply) == b,
        reply.field("orderbook"@) is None ==> payload_in(reply) == reply,
{
}

/// After a refresh a market is quoted where it is open, or where it was quoted
/// and a position is still held in it.
pub proof fn law_who_stays(t: Trader, found: Table<String>, k: Seq<char>)
    ensures
        found.has(k) ==> stays(t, found, k),
        !found.has(k) ==> (stays(t, found, k) <==> t.active_tickers.has(k) && t.state.tickers.has(k)
            && t.state.tickers.at(k).position != 0),
{
}

/// Putting a market in its place changes no other market and nothing of the
/// account.
pub proof fn law_one_market_is_put(before: Trader, after: Trader, ticker: Seq<char>, other: Seq<char>)
    requires
        put_market(before, after, ticker),
        other != ticker,
    ensures
        after.state.tickers@.dom().contains(ticker),
        after.state.tickers@.dom().contains(other) <==> before.state.tickers@.dom().contains(other),
        before.state.tickers@.dom().contains(other) ==> after.state.tickers@[other]
            == before.state.tickers@[other],
        after.state.daily_pnl == before.state.daily_pnl,
        after.state.cumulative_pnl == before.state.cumulative_pnl,
        after.active_tickers == before.active_tickers,
        after.spot == before.spot,
        after.running == before.running,
{
}

// --- settlements and fills ---------------------------------------------------

/// The results that records state: for each market that of its last record,
/// here the one at `i`.
pub proof fn law_results(records: Seq<JsonView>, ticker: Seq<char>, i: int)
    requires
        -1 <= i < records.len(),
        i >= 0 ==> settled_ticker(records[i]) == Some(ticker),
        forall|j: int|
            i < j < records.len() ==> settled_ticker(#[trigger] records[j]) != Some(ticker),
    ensures
        results_of(records).dom().contains(ticker) <==> i >= 0,
        i >= 0 ==> results_of(records)[ticker] == result_in(records[i]),
    decreases records.len(),
{
    let n = records.len() - 1;
    if n >= 0 && i < n {
        let rest = records.drop_last();
        assert forall|j: int| i < j < rest.len() implies settled_ticker(#[trigger] rest[j]) != Some(
            ticker,
        ) by {
            assert(settled_ticker(records[j]) != Some(ticker));
        }
        assert(settled_ticker(records[n]) != Some(ticker));
        law_results(rest, ticker, i);
    }
}

/// Fills are ranked by their times, and one without a time comes first.
pub proof fn law_ranks(a: i128, b: i128)
    ensures
        a < b ==> time_rank(Some(Num::Finite(a))) < time_rank(Some(Num::Finite(b))),
        time_rank(None) <= time_rank(Some(Num::Finite(a))) <= time_rank(Some(Num::Infinite(false))),
        time_rank(None) < time_rank(Some(Num::Infinite(true))),
{
}

/// One more fill goes behind every earlier one and every one of the same time,
/// and in front of those that are later; none is lost.
pub proof fn law_place_of_a_fill(fills: Seq<TimedView>, fill: TimedView)
    requires
        crate::replies::in_time_order(fills),
    ensures
        ({
            let at = time_place(fills, fill.rank);
            let after = with_fill(fills, fill);
            &&& 0 <= at <= fills.len()
            &&& after.len() == fills.len() + 1
            &&& after[at] == fill
            &&& forall|i: int| 0 <= i < at ==> (#[trigger] after[i]) == fills[i] && fills[i].rank
                <= fill.rank
            &&& forall|i: int|
                at < i < after.len() ==> (#[trigger] after[i]) == fills[i - 1] && fills[i - 1].rank
                    > fill.rank
        }),
{
    lemma_time_place(fills, fill.rank);
}

proof fn lemma_time_place(fills: Seq<TimedView>, rank: int)
    requires
        crate::replies::in_time_order(fills),
    ensures
        0 <= time_place(fills, rank) <= fills.len(),
        forall|i: int| 0 <= i < time_place(fills, rank) ==> (#[trigger] fills[i]).rank <= rank,
        forall|i: int|
            time_place(fills, rank) <= i < fills.len() ==> (#[trigger] fills[i]).rank > rank,
    decreases fills.len(),
{
    if fills.len() > 0 {
        let n = fills.len() - 1;
        let rest = fills.drop_last();
        assert forall|i: int, j: int| 0 <= i <= j < rest.len() implies rest[i].rank
            <= rest[j].rank by {
            assert(fills[i].rank <= fills[j].rank);
        }
        if fills[n].rank <= rank {
            assert forall|i: int| 0 <= i < fills.len() implies (#[trigger] fills[i]).rank
                <= rank by {
                assert(fills[i].rank <= fills[n].rank);
            }
        } else {
            lemma_time_place(rest, rank);
            let at = time_place(rest, rank);
            assert forall|i: int| 0 <= i < at implies (#[trigger] fills[i]).rank <= rank by {
                assert(rest[i].rank <= rank);
            }
            assert forall|i: int| at <= i < fills.len() implies (#[trigger] fills[i]).rank
                > rank by {
                if i < n {
                    assert(rest[i].rank > rank);
                }
            }
        }
    }
}

// --- events ------------------------------------------------------------------

/// A message is a book event or a trade by its type, for the market that its
/// payload names, and nothing otherwise.
pub proof fn law_events(data: JsonView)
    ensures
        ({
            let kind = data.text_field("type"@);
            let named = data.field("msg"@) is Some && data.field("msg"@)->Some_0.text_field(
                "market_ticker"@,
            ) is Some;
            let msg = data.field("msg"@)->Some_0;
            let ticker = msg.text_field("market_ticker"@)->Some_0;
            let book = kind == Some("orderbook_snapshot"@) || kind == Some("orderbook_delta"@);
            let trade = kind == Some("trade"@);
            &&& book && named ==> event_in(data) == Some(EventView::Book { ticker, msg })
            &&& trade && named ==> event_in(data) == Some(EventView::Trade { ticker, msg })
            &&& !named || !(book || trade) ==> event_in(data) is None
        }),
{
    reveal_strlit("trade");
    reveal_strlit("orderbook_snapshot");
    reveal_strlit("orderbook_delta");
    assert("trade"@.len() == 5 && "orderbook_snapshot"@.len() == 18 && "orderbook_delta"@.len()
        == 15);
}

/// A message of the spot feed states a price where it is a tick of the product
/// with a positive price.
pub proof fn law_spot_prices(data: JsonView, product: Seq<char>, n: i128)
    requires
        n <= i64::MAX,
        data.field("price"@) matches Some(p) && p.number() == Some(Num::Finite(n)),
    ensures
        ({
            let tick = data.text_field("type"@) == Some("ticker"@) && data.text_field(
                "product_id"@,
            ) == Some(product);
            &&& tick && n > 0 ==> spot_in(data, product) == Some(n as int)
            &&& n <= 0 || !tick ==> spot_in(data, product) is None
        }),
{
}

/// Two categories with feeds differ in their products exactly where some pair
/// does.
pub proof fn law_products(categories: Seq<CategoryConfig>, i: int, j: int)
    requires
        0 <= i < categories.len(),
        0 <= j < categories.len(),
        categories[i].spot_feed is Some,
        categories[j].spot_feed is Some,
    ensures
        categories[i].spot_feed->Some_0@ != categories[j].spot_feed->Some_0@ ==> products_differ(
            categories,
        ),
        first_product(categories, categories.len() as int) is Some,
{
    lemma_some_product(categories, categories.len() as int, i);
}

proof fn lemma_some_product(categories: Seq<CategoryConfig>, n: int, i: int)
    requires
        0 <= i < n <= categories.len(),
        categories[i].spot_feed is Some,
    ensures
        first_product(categories, n) is Some,
    decreases n,
{
    if i < n - 1 {
        lemma_some_product(categories, n - 1, i);
    }
}

/// The product is the first in order among those that categories name.
pub proof fn law_first_product(categories: Seq<CategoryConfig>, n: int, i: int)
    requires
        0 <= i < n <= categories.len(),
        categories[i].spot_feed is Some,
    ensures
        first_product(categories, n) is Some,
        !before(categories[i].spot_feed->Some_0@, first_product(categories, n)->Some_0),
    decreases n,
{
    lemma_some_product(categories, n, i);
    let own = categories[i].spot_feed->Some_0@;
    let first = first_product(categories, n)->Some_0;
    if i < n - 1 {
        law_first_product(categories, n - 1, i);
        let earlier = first_product(categories, n - 1)->Some_0;
        if first != earlier {
            if before(own, first) {
                lemma_before_transitive(own, first, earlier);
            }
        }
    } else {
        lemma_before_irreflexive(own);
    }
}

proof fn lemma_before_irreflexive(s: Seq<char>)
    ensures
        !before(s, s),
    decreases s.len(),
{
    if s.len() > 0 {
        lemma_before_irreflexive(s.drop_first());
    }
}

proof fn lemma_before_transitive(a: Seq<char>, b: Seq<char>, c: Seq<char>)
    requires
        before(a, b),
        before(b, c),
    ensures
        before(a, c),
    decreases a.len(),
{
    if a.len() > 0 && b.len() > 0 && c.len() > 0 {
        if a[0] == b[0] && b[0] == c[0] {
            lemma_before_transitive(a.drop_first(), b.drop_first(), c.drop_first());
        }
    }
}

} // verus!
