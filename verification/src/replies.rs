//! What the exchange's replies say: positions, markets, settlements, fills and
//! the orders that rest.

use vstd::prelude::*;

use crate::json::{
    items_in, number_at, number_of_field, seen, seen_text, text_in, text_of_field, Json, JsonView,
};
use crate::ladder::names_view;
use crate::num::{round_whole, saturate, saturated, whole_even, Num};
use crate::state::{
    fill_in, is_empty, normalize_fill, normalize_settlement, result_in, settled_ticker, FillView,
    NormalizedFill, PENNY,
};
use crate::table::Table;
use crate::text::{same, starts_with};

verus! {

/// The items of a list in a reply; none where the reply has no such list.
pub open spec fn list_in(v: Option<JsonView>) -> Seq<JsonView> {
    match items_in(v) {
        Some(items) => items,
        None => seq![],
    }
}

/// The items of an optional list, each by what it holds.
pub open spec fn are_items(items: Option<&Vec<Json>>, list: Seq<JsonView>) -> bool {
    match items {
        Some(v) => list.len() == v@.len() && forall|i: int|
            0 <= i < v@.len() ==> (#[trigger] v@[i])@ == list[i],
        None => list.len() == 0,
    }
}

/// The items of an optional value.
fn list_of(v: Option<&Json>) -> (r: Option<&Vec<Json>>)
    ensures
        are_items(r, list_in(seen(v))),
{
    match v {
        Some(j) => j.as_items(),
        None => None,
    }
}

// --- pages -------------------------------------------------------------------

/// The cursor of the next page; none on the last page.
pub open spec fn cursor_in(reply: JsonView) -> Option<Seq<char>> {
    match reply.text_field("cursor"@) {
        Some(c) => if c.len() == 0 {
            None
        } else {
            Some(c)
        },
        None => None,
    }
}

/// The cursor of the next page.
pub fn next_cursor(reply: &Json) -> (r: Option<String>)
    ensures
        match r {
            Some(c) => cursor_in(reply@) == Some(c@),
            None => cursor_in(reply@) is None,
        },
{
    match reply.get_text("cursor") {
        Some(c) => if is_empty(c) {
            None
        } else {
            Some(c.to_string())
        },
        None => None,
    }
}

// --- positions and orders ----------------------------------------------------

/// The market that a record names.
pub open spec fn market_of(record: JsonView) -> Option<Seq<char>> {
    text_in(record.either("ticker"@, "market_ticker"@))
}

/// The market that a record names.
fn read_market(record: &Json) -> (r: Option<&str>)
    ensures
        seen_text(r) == market_of(record@),
{
    text_of_field(record.get_either("ticker", "market_ticker"))
}

/// The contracts that a position record states, to the nearest whole one.
pub open spec fn contracts_of(record: JsonView) -> int {
    match number_at(record.either("position_fp"@, "position"@)) {
        Some(n) => whole_even(n),
        None => 0,
    }
}

/// The positions that records state, by market; a later record of a market in
/// place of an earlier one, and records without a market left out.
pub open spec fn positions_of(records: Seq<JsonView>) -> Map<Seq<char>, i64>
    decreases records.len(),
{
    if records.len() == 0 {
        Map::empty()
    } else {
        let before = positions_of(records.drop_last());
        match market_of(records.last()) {
            Some(ticker) => before.insert(ticker, contracts_of(records.last()) as i64),
            None => before,
        }
    }
}

/// The positions that a reply states.
pub open spec fn positions_in(reply: JsonView) -> Map<Seq<char>, i64> {
    positions_of(list_in(reply.either("market_positions"@, "positions"@)))
}

/// Reads the positions of the account.
pub fn parse_positions(reply: &Json) -> (r: Table<i64>)
    ensures
        r.wf(),
        r@ == positions_in(reply@),
{
    let mut out: Table<i64> = Table::new();
    let ghost all = list_in(reply@.either("market_positions"@, "positions"@));
    assert(all.take(0) =~= Seq::<JsonView>::empty());
    match list_of(reply.get_either("market_positions", "positions")) {
        Some(rows) => {
            let mut i: usize = 0;
            while i < rows.len()
                invariant
                    i <= rows.len(),
                    all.len() == rows@.len(),
                    forall|k: int| 0 <= k < rows@.len() ==> (#[trigger] rows@[k])@ == all[k],
                    out.wf(),
                    out@ == positions_of(all.take(i as int)),
                decreases rows.len() - i,
            {
                proof {
                    assert(all.take(i + 1).drop_last() =~= all.take(i as int));
                    assert(all.take(i + 1).last() == all[i as int]);
                    assert(rows@[i as int]@ == all[i as int]);
                }
                match read_market(&rows[i]) {
                    Some(ticker) => {
                        let stated = rows[i].get_either("position_fp", "position");
                        let position: i64 = match number_of_field(stated) {
                            Some(n) => round_whole(n),
                            None => 0,
                        };
                        out.insert(ticker.to_string(), position);
                    },
                    None => {},
                }
                i += 1;
            }
        },
        None => {},
    }
    assert(all.take(all.len() as int) =~= all);
    out
}

/// The order moves the position toward flat. The action alone gives its
/// direction.
pub open spec fn reduces(order: JsonView, position: int) -> bool {
    match order.text_field("action"@) {
        Some(action) => (action == "sell"@ && position > 0) || (action == "buy"@ && position < 0),
        None => false,
    }
}

/// True where a resting order moves a position toward flat.
pub fn order_reduces_position(order: &Json, position: i64) -> (r: bool)
    ensures
        r == reduces(order@, position as int),
{
    match order.get_text("action") {
        Some(action) => (same(action, "sell") && position > 0) || (same(action, "buy") && position
            < 0),
        None => false,
    }
}

/// A position, flat where there is none.
pub open spec fn position_in(positions: Map<Seq<char>, i64>, ticker: Seq<char>) -> int {
    if positions.dom().contains(ticker) {
        positions[ticker] as int
    } else {
        0
    }
}

/// The order would take profit on what the account holds.
pub open spec fn takes_profit(order: JsonView, positions: Map<Seq<char>, i64>) -> bool {
    let ticker = match market_of(order) {
        Some(t) => t,
        None => seq![],
    };
    reduces(order, position_in(positions, ticker))
}

/// The ids of the orders that build inventory, which do not survive a start.
pub open spec fn orders_to_cancel(orders: Seq<JsonView>, positions: Map<Seq<char>, i64>) -> Seq<
    Seq<char>,
>
    decreases orders.len(),
{
    if orders.len() == 0 {
        seq![]
    } else {
        let before = orders_to_cancel(orders.drop_last(), positions);
        match orders.last().text_field("order_id"@) {
            Some(id) => if takes_profit(orders.last(), positions) {
                before
            } else {
                before.push(id)
            },
            None => before,
        }
    }
}

/// The number of orders that take profit, which are kept.
pub open spec fn orders_to_keep(orders: Seq<JsonView>, positions: Map<Seq<char>, i64>) -> int
    decreases orders.len(),
{
    if orders.len() == 0 {
        0
    } else {
        orders_to_keep(orders.drop_last(), positions) + (if takes_profit(orders.last(), positions) {
            1int
        } else {
            0
        })
    }
}

/// The orders to cancel at the start, and the number that is kept.
pub fn startup_cancels(reply: &Json, positions: &Table<i64>) -> (r: (Vec<String>, usize))
    requires
        positions.wf(),
    ensures
        names_view(r.0@) == orders_to_cancel(
            list_in(reply@.field("orders"@)),
            positions@,
        ),
        r.1 == orders_to_keep(list_in(reply@.field("orders"@)), positions@),
{
    let mut ids: Vec<String> = Vec::new();
    let mut kept: usize = 0;
    let ghost all = list_in(reply@.field("orders"@));
    assert(names_view(ids@) =~= orders_to_cancel(all.take(0), positions@));
    match list_of(reply.get("orders")) {
        Some(orders) => {
            let mut i: usize = 0;
            while i < orders.len()
                invariant
                    positions.wf(),
                    i <= orders.len(),
                    kept <= i,
                    all.len() == orders@.len(),
                    forall|k: int| 0 <= k < orders@.len() ==> (#[trigger] orders@[k])@ == all[k],
                    names_view(ids@) == orders_to_cancel(
                        all.take(i as int),
                        positions@,
                    ),
                    kept == orders_to_keep(all.take(i as int), positions@),
                decreases orders.len() - i,
            {
                proof {
                    assert(all.take(i + 1).drop_last() =~= all.take(i as int));
                    assert(all.take(i + 1).last() == all[i as int]);
                    assert(orders@[i as int]@ == all[i as int]);
                    reveal_strlit("");
                    assert(""@ =~= Seq::<char>::empty());
                }
                let ticker = match read_market(&orders[i]) {
                    Some(t) => t,
                    None => "",
                };
                let position: i64 = match positions.get(ticker) {
                    Some(p) => *p,
                    None => 0,
                };
                let ghost before = names_view(ids@);
                if order_reduces_position(&orders[i], position) {
                    kept = kept + 1;
                } else {
                    match orders[i].get_text("order_id") {
                        Some(id) => {
                            ids.push(id.to_string());
                            assert(names_view(ids@) =~= before.push(id@));
                        },
                        None => {},
                    }
                }
                i += 1;
            }
        },
        None => {},
    }
    assert(all.take(all.len() as int) =~= all);
    (ids, kept)
}

// --- markets -----------------------------------------------------------------

/// A market that a page lists and that belongs to the category asked for: its
/// ticker begins with the category's name.
pub open spec fn listed_market(market: JsonView, category: Seq<char>) -> Option<Seq<char>> {
    match market.text_field("ticker"@) {
        Some(ticker) => if crate::text::occurs_at(ticker, category, 0) {
            Some(ticker)
        } else {
            None
        },
        None => None,
    }
}

/// The universe after the markets of a page were added.
pub open spec fn with_markets(
    found: Map<Seq<char>, Seq<char>>,
    markets: Seq<JsonView>,
    category: Seq<char>,
) -> Map<Seq<char>, Seq<char>>
    decreases markets.len(),
{
    if markets.len() == 0 {
        found
    } else {
        let before = with_markets(found, markets.drop_last(), category);
        match listed_market(markets.last(), category) {
            Some(ticker) => before.insert(ticker, category),
            None => before,
        }
    }
}

/// The number of markets of a category in a page.
pub open spec fn count_markets(markets: Seq<JsonView>, category: Seq<char>) -> int
    decreases markets.len(),
{
    if markets.len() == 0 {
        0
    } else {
        count_markets(markets.drop_last(), category) + (if listed_market(
            markets.last(),
            category,
        ) is Some {
            1int
        } else {
            0
        })
    }
}

/// A universe by what it holds: the category of each market.
pub open spec fn categories_view(t: Map<Seq<char>, String>) -> Map<Seq<char>, Seq<char>> {
    Map::new(|k: Seq<char>| t.dom().contains(k), |k: Seq<char>| t[k]@)
}

/// Adds the markets of one page to a universe; returns how many there were.
pub fn add_markets(found: &mut Table<String>, reply: &Json, category: &str) -> (r: usize)
    requires
        old(found).wf(),
    ensures
        final(found).wf(),
        categories_view(final(found)@) == with_markets(
            categories_view(old(found)@),
            list_in(reply@.field("markets"@)),
            category@,
        ),
        r == count_markets(list_in(reply@.field("markets"@)), category@),
{
    let ghost all = list_in(reply@.field("markets"@));
    let ghost start = categories_view(found@);
    let mut n: usize = 0;
    assert(all.take(0) =~= Seq::<JsonView>::empty());
    match list_of(reply.get("markets")) {
        Some(markets) => {
            let mut i: usize = 0;
            while i < markets.len()
                invariant
                    i <= markets.len(),
                    n <= i,
                    all.len() == markets@.len(),
                    forall|k: int| 0 <= k < markets@.len() ==> (#[trigger] markets@[k])@ == all[k],
                    found.wf(),
                    categories_view(found@) == with_markets(start, all.take(i as int), category@),
                    n == count_markets(all.take(i as int), category@),
                decreases markets.len() - i,
            {
                proof {
                    assert(all.take(i + 1).drop_last() =~= all.take(i as int));
                    assert(all.take(i + 1).last() == all[i as int]);
                    assert(markets@[i as int]@ == all[i as int]);
                }
                match markets[i].get_text("ticker") {
                    Some(ticker) => {
                        if starts_with(ticker, category) {
                            let ghost before = categories_view(found@);
                            found.insert(ticker.to_string(), category.to_string());
                            assert(categories_view(found@) =~= before.insert(ticker@, category@));
                            n = n + 1;
                        }
                    },
                    None => {},
                }
                i += 1;
            }
        },
        None => {},
    }
    assert(all.take(all.len() as int) =~= all);
    n
}

/// The names that another table lacks, in order.
pub open spec fn names_without<V>(keys: Seq<Seq<char>>, other: Table<V>) -> Seq<Seq<char>>
    decreases keys.len(),
{
    if keys.len() == 0 {
        seq![]
    } else {
        let before = names_without(keys.drop_last(), other);
        if other.has(keys.last()) {
            before
        } else {
            before.push(keys.last())
        }
    }
}

/// The names of one table that another lacks.
fn missing_from(from: &Table<String>, other: &Table<String>) -> (r: Vec<String>)
    requires
        from.wf(),
        other.wf(),
    ensures
        names_view(r@) == names_without(from.keys(), *other),
{
    let mut out: Vec<String> = Vec::new();
    let ghost keys = from.keys();
    assert(names_view(out@) =~= names_without(keys.take(0), *other));
    let mut i: usize = 0;
    while i < from.len()
        invariant
            from.wf(),
            other.wf(),
            keys == from.keys(),
            i <= keys.len(),
            names_view(out@) == names_without(keys.take(i as int), *other),
        decreases keys.len() - i,
    {
        proof {
            assert(keys.take(i + 1).drop_last() =~= keys.take(i as int));
            assert(keys.take(i + 1).last() == keys[i as int]);
        }
        let ghost before = names_view(out@);
        let key = from.key_at(i);
        if !other.contains(key) {
            out.push(key.to_string());
            assert(names_view(out@) =~= before.push(keys[i as int]));
        }
        i += 1;
    }
    assert(keys.take(keys.len() as int) =~= keys);
    out
}

/// The markets that are new in a universe, and those that have gone from it.
pub fn diff_universe(held: &Table<String>, found: &Table<String>) -> (r: (
    Vec<String>,
    Vec<String>,
))
    requires
        held.wf(),
        found.wf(),
    ensures
        names_view(r.0@) == names_without(found.keys(), *held),
        names_view(r.1@) == names_without(held.keys(), *found),
{
    (missing_from(found, held), missing_from(held, found))
}

/// A name is among those that another table lacks exactly where it is one of
/// the names and the other table has it not.
pub proof fn lemma_names_without<V>(keys: Seq<Seq<char>>, other: Table<V>, name: Seq<char>)
    ensures
        names_without(keys, other).contains(name) <==> keys.contains(name) && !other.has(name),
    decreases keys.len(),
{
    if keys.len() > 0 {
        let rest = keys.drop_last();
        lemma_names_without(rest, other, name);
        let before = names_without(rest, other);
        let all = names_without(keys, other);
        assert(keys.contains(name) <==> rest.contains(name) || keys.last() == name) by {
            if keys.contains(name) {
                let i = choose|i: int| 0 <= i < keys.len() && keys[i] == name;
                if i < rest.len() {
                    assert(rest[i] == name);
                }
            }
            if rest.contains(name) {
                let i = choose|i: int| 0 <= i < rest.len() && rest[i] == name;
                assert(keys[i] == name);
            }
            if keys.last() == name {
                assert(keys[keys.len() - 1] == name);
            }
        }
        if !other.has(keys.last()) {
            assert(all.contains(name) <==> before.contains(name) || keys.last() == name) by {
                if all.contains(name) {
                    let i = choose|i: int| 0 <= i < all.len() && all[i] == name;
                    if i < before.len() {
                        assert(before[i] == name);
                    }
                }
                if before.contains(name) {
                    let i = choose|i: int| 0 <= i < before.len() && before[i] == name;
                    assert(all[i] == name);
                }
                if keys.last() == name {
                    assert(all[all.len() - 1] == name);
                }
            }
        }
    }
}

/// Two universes with the same markets differ in nothing.
pub proof fn law_same_universe_has_no_difference(a: Table<String>, b: Table<String>)
    requires
        forall|k: Seq<char>| a.has(k) <==> b.has(k),
    ensures
        names_without(a.keys(), b).len() == 0,
        names_without(b.keys(), a).len() == 0,
{
    if names_without(a.keys(), b).len() > 0 {
        let name = names_without(a.keys(), b)[0];
        assert(names_without(a.keys(), b).contains(name));
        lemma_names_without(a.keys(), b, name);
        assert(a.has(name));
    }
    if names_without(b.keys(), a).len() > 0 {
        let name = names_without(b.keys(), a)[0];
        assert(names_without(b.keys(), a).contains(name));
        lemma_names_without(b.keys(), a, name);
        assert(b.has(name));
    }
}

// --- market details ----------------------------------------------------------

/// The smaller of two steps, where a step is a finite number, minus infinity,
/// or nothing (which is larger than any).
pub open spec fn finer(step: Option<Num>, other: Option<Num>) -> Option<Num> {
    match other {
        Some(Num::Finite(b)) => match step {
            Some(Num::Finite(a)) => if a <= b {
                step
            } else {
                other
            },
            Some(Num::Infinite(true)) => step,
            _ => other,
        },
        Some(Num::Infinite(true)) => other,
        _ => step,
    }
}

/// The finest step among price ranges.
pub open spec fn finest(ranges: Seq<JsonView>) -> Option<Num>
    decreases ranges.len(),
{
    if ranges.len() == 0 {
        None
    } else {
        finer(finest(ranges.drop_last()), number_at(ranges.last().field("step"@)))
    }
}

/// The price step that a market's record states; a cent where it states no
/// finite one.
pub open spec fn tick_of(market: JsonView) -> int {
    match finest(list_in(market.field("price_ranges"@))) {
        Some(Num::Finite(n)) => saturated(Num::Finite(n)),
        _ => PENNY as int,
    }
}

/// The smaller of two steps.
fn pick_finer(step: Option<Num>, other: Option<Num>) -> (r: Option<Num>)
    ensures
        r == finer(step, other),
{
    match other {
        Some(Num::Finite(b)) => match step {
            Some(Num::Finite(a)) => if a <= b {
                step
            } else {
                other
            },
            Some(Num::Infinite(true)) => step,
            _ => other,
        },
        Some(Num::Infinite(true)) => other,
        _ => step,
    }
}

/// The price step of a market.
pub fn read_tick(market: &Json) -> (r: i64)
    ensures
        r == tick_of(market@),
{
    let ghost all = list_in(market@.field("price_ranges"@));
    assert(all.take(0) =~= Seq::<JsonView>::empty());
    let mut best: Option<Num> = None;
    match list_of(market.get("price_ranges")) {
        Some(ranges) => {
            let mut i: usize = 0;
            while i < ranges.len()
                invariant
                    i <= ranges.len(),
                    all.len() == ranges@.len(),
                    forall|k: int| 0 <= k < ranges@.len() ==> (#[trigger] ranges@[k])@ == all[k],
                    best == finest(all.take(i as int)),
                decreases ranges.len() - i,
            {
                proof {
                    assert(all.take(i + 1).drop_last() =~= all.take(i as int));
                    assert(all.take(i + 1).last() == all[i as int]);
                    assert(ranges@[i as int]@ == all[i as int]);
                }
                best = pick_finer(best, number_of_field(ranges[i].get("step")));
                i += 1;
            }
        },
        None => {},
    }
    assert(all.take(all.len() as int) =~= all);
    match best {
        Some(Num::Finite(n)) => saturate(Num::Finite(n)),
        _ => PENNY,
    }
}

/// The milliseconds since the epoch at a time in RFC 3339 form.
pub uninterp spec fn rfc3339_millis(text: Seq<char>) -> Option<i64>;

/// `chrono::DateTime::parse_from_rfc3339` and `timestamp_millis`: the moment
/// that a text names, or none where it names none; it depends on the text
/// alone.
#[verifier::external_body]
fn parse_rfc3339(text: &str) -> (r: Option<i64>)
    ensures
        r == rfc3339_millis(text@),
{
    chrono::DateTime::parse_from_rfc3339(text).ok().map(|t| t.timestamp_millis())
}

/// The close of a market in microseconds since the epoch, given the
/// milliseconds.
pub open spec fn close_at(millis: Option<i64>) -> Option<i64> {
    match millis {
        Some(ms) => Some(crate::num::clamp64(ms * 1000) as i64),
        None => None,
    }
}

/// The close of a market in microseconds since the epoch.
pub fn to_close(millis: Option<i64>) -> (r: Option<i64>)
    ensures
        r == close_at(millis),
{
    match millis {
        Some(ms) => Some(crate::num::to_i64(ms as i128 * 1000)),
        None => None,
    }
}

/// The text that states a market's close.
pub open spec fn close_text(market: JsonView) -> Option<Seq<char>> {
    text_in(market.either("close_time"@, "expected_expiration_time"@))
}

/// The close that a market's record states.
pub open spec fn close_of(market: JsonView) -> Option<i64> {
    match close_text(market) {
        Some(text) => close_at(rfc3339_millis(text)),
        None => None,
    }
}

/// The close of a market.
pub fn read_close(market: &Json) -> (r: Option<i64>)
    ensures
        r == close_of(market@),
{
    match text_of_field(market.get_either("close_time", "expected_expiration_time")) {
        Some(text) => to_close(parse_rfc3339(text)),
        None => None,
    }
}

// --- settlements -------------------------------------------------------------

/// The results that settlement records state, by market; a later record of a
/// market in place of an earlier one.
pub open spec fn results_of(records: Seq<JsonView>) -> Map<Seq<char>, Option<bool>>
    decreases records.len(),
{
    if records.len() == 0 {
        Map::empty()
    } else {
        let before = results_of(records.drop_last());
        match settled_ticker(records.last()) {
            Some(ticker) => before.insert(ticker, result_in(records.last())),
            None => before,
        }
    }
}

/// Reads a page of settlements.
pub fn parse_settlements(reply: &Json) -> (r: Table<Option<bool>>)
    ensures
        r.wf(),
        r@ == results_of(list_in(reply@.field("settlements"@))),
{
    let mut out: Table<Option<bool>> = Table::new();
    let ghost all = list_in(reply@.field("settlements"@));
    assert(all.take(0) =~= Seq::<JsonView>::empty());
    match list_of(reply.get("settlements")) {
        Some(records) => {
            let mut i: usize = 0;
            while i < records.len()
                invariant
                    i <= records.len(),
                    all.len() == records@.len(),
                    forall|k: int| 0 <= k < records@.len() ==> (#[trigger] records@[k])@ == all[k],
                    out.wf(),
                    out@ == results_of(all.take(i as int)),
                decreases records.len() - i,
            {
                proof {
                    assert(all.take(i + 1).drop_last() =~= all.take(i as int));
                    assert(all.take(i + 1).last() == all[i as int]);
                    assert(records@[i as int]@ == all[i as int]);
                }
                match normalize_settlement(&records[i]) {
                    Some(ns) => {
                        out.insert(ns.ticker, ns.result_yes);
                    },
                    None => {},
                }
                i += 1;
            }
        },
        None => {},
    }
    assert(all.take(all.len() as int) =~= all);
    out
}

// --- fill history ------------------------------------------------------------

/// A fill and the rank of its time.
#[verifier::ext_equal]
pub struct TimedView {
    pub rank: int,
    pub fill: FillView,
}

/// The rank of a time: times in order, and entries without one first.
pub open spec fn time_rank(ts: Option<Num>) -> int {
    match ts {
        Some(Num::Finite(n)) => n as int,
        Some(Num::Infinite(false)) => i128::MAX as int,
        Some(Num::Infinite(true)) => i128::MIN + 1,
        _ => i128::MIN as int,
    }
}

/// The rank of a time.
fn rank_of(ts: Option<Num>) -> (r: i128)
    ensures
        r == time_rank(ts),
{
    match ts {
        Some(Num::Finite(n)) => n,
        Some(Num::Infinite(negative)) => if negative {
            i128::MIN + 1
        } else {
            i128::MAX
        },
        _ => i128::MIN,
    }
}

/// Where a time goes among fills: behind those that are not later.
pub open spec fn time_place(fills: Seq<TimedView>, rank: int) -> int
    decreases fills.len(),
{
    if fills.len() == 0 {
        0
    } else if fills.last().rank <= rank {
        fills.len() as int
    } else {
        time_place(fills.drop_last(), rank)
    }
}

/// Fills with one more, at its time.
pub open spec fn with_fill(fills: Seq<TimedView>, fill: TimedView) -> Seq<TimedView> {
    fills.insert(time_place(fills, fill.rank), fill)
}

/// The fills that entries state, oldest first; entries of the same time stay
/// in the order in which they came, and those that state no fill are left out.
pub open spec fn history_of(start: Seq<TimedView>, entries: Seq<JsonView>) -> Seq<TimedView>
    decreases entries.len(),
{
    if entries.len() == 0 {
        start
    } else {
        let before = history_of(start, entries.drop_last());
        match fill_in(entries.last()) {
            Some(fill) => with_fill(
                before,
                TimedView { rank: time_rank(number_at(entries.last().field("ts"@))), fill },
            ),
            None => before,
        }
    }
}

/// The fills of one market, oldest first.
pub struct FillHistory {
    ranks: Vec<i128>,
    fills: Vec<NormalizedFill>,
}

impl FillHistory {
    /// The fills with the ranks of their times.
    pub closed spec fn timed(&self) -> Seq<TimedView> {
        Seq::new(
            self.fills@.len(),
            |i: int| TimedView { rank: self.ranks@[i] as int, fill: self.fills@[i]@ },
        )
    }

    /// The fills.
    pub closed spec fn list(&self) -> Seq<NormalizedFill> {
        self.fills@
    }

    /// Every fill has its rank.
    pub closed spec fn wf(&self) -> bool {
        self.ranks@.len() == self.fills@.len()
    }

    /// No fills.
    pub fn new() -> (r: Self)
        ensures
            r.wf(),
            r.timed() == Seq::<TimedView>::empty(),
            r.list() == Seq::<NormalizedFill>::empty(),
    {
        let r = FillHistory { ranks: Vec::new(), fills: Vec::new() };
        assert(r.timed() =~= Seq::<TimedView>::empty());
        r
    }

    /// The fills, oldest first.
    pub fn fills(&self) -> (r: &Vec<NormalizedFill>)
        requires
            self.wf(),
        ensures
            r@ == self.list(),
            r@.len() == self.timed().len(),
            forall|i: int|
                0 <= i < r@.len() ==> (#[trigger] r@[i])@ == self.timed()[i].fill,
    {
        &self.fills
    }

    /// Puts a fill at its time.
    fn add(&mut self, rank: i128, fill: NormalizedFill)
        requires
            old(self).wf(),
        ensures
            final(self).wf(),
            final(self).timed() == with_fill(
                old(self).timed(),
                TimedView { rank: rank as int, fill: fill@ },
            ),
    {
        let ghost before = self.timed();
        let mut k: usize = self.fills.len();
        assert(before.take(k as int) =~= before);
        while k > 0 && self.ranks[k - 1] > rank
            invariant
                self.wf(),
                k <= self.fills@.len(),
                before == self.timed(),
                *self == *old(self),
                time_place(before, rank as int) == time_place(before.take(k as int), rank as int),
            decreases k,
        {
            assert(before.take(k as int).last().rank == self.ranks@[k - 1]);
            assert(before.take(k as int).drop_last() =~= before.take(k - 1));
            k = k - 1;
        }
        proof {
            if k > 0 {
                assert(before.take(k as int).last().rank == self.ranks@[k - 1]);
            }
            assert(time_place(before, rank as int) == k);
        }
        let ghost view = TimedView { rank: rank as int, fill: fill@ };
        self.ranks.insert(k, rank);
        self.fills.insert(k, fill);
        assert(self.timed() =~= before.insert(k as int, view));
    }

    /// Adds the fills of one page.
    pub fn add_page(&mut self, reply: &Json)
        requires
            old(self).wf(),
        ensures
            final(self).wf(),
            final(self).timed() == history_of(
                old(self).timed(),
                list_in(reply@.field("fills"@)),
            ),
    {
        let ghost all = list_in(reply@.field("fills"@));
        let ghost start = self.timed();
        assert(all.take(0) =~= Seq::<JsonView>::empty());
        match list_of(reply.get("fills")) {
            Some(entries) => {
                let mut i: usize = 0;
                while i < entries.len()
                    invariant
                        i <= entries.len(),
                        all.len() == entries@.len(),
                        forall|k: int|
                            0 <= k < entries@.len() ==> (#[trigger] entries@[k])@ == all[k],
                        self.wf(),
                        self.timed() == history_of(start, all.take(i as int)),
                    decreases entries.len() - i,
                {
                    proof {
                        assert(all.take(i + 1).drop_last() =~= all.take(i as int));
                        assert(all.take(i + 1).last() == all[i as int]);
                        assert(entries@[i as int]@ == all[i as int]);
                    }
                    match normalize_fill(&entries[i]) {
                        Some(fill) => {
                            let rank: i128 = rank_of(number_of_field(entries[i].get("ts")));
                            self.add(rank, fill);
                        },
                        None => {},
                    }
                    i += 1;
                }
            },
            None => {},
        }
        assert(all.take(all.len() as int) =~= all);
    }
}

/// Fills in order of time.
pub open spec fn in_time_order(fills: Seq<TimedView>) -> bool {
    forall|i: int, j: int| 0 <= i <= j < fills.len() ==> fills[i].rank <= fills[j].rank
}

/// A place parts fills by time.
proof fn lemma_time_place(fills: Seq<TimedView>, rank: int)
    requires
        in_time_order(fills),
    ensures
        0 <= time_place(fills, rank) <= fills.len(),
        forall|i: int| 0 <= i < time_place(fills, rank) ==> (#[trigger] fills[i]).rank <= rank,
        forall|i: int|
            time_place(fills, rank) <= i < fills.len() ==> (#[trigger] fills[i]).rank > rank,
    decreases fills.len(),
{
    if fills.len() > 0 {
        let n = fills.len() - 1;
        if fills.last().rank <= rank {
            assert forall|i: int| 0 <= i < fills.len() implies (#[trigger] fills[i]).rank
                <= rank by {
                assert(fills[i].rank <= fills[n].rank);
            }
        } else {
            let rest = fills.drop_last();
            assert forall|i: int, j: int| 0 <= i <= j < rest.len() implies rest[i].rank
                <= rest[j].rank by {
                assert(fills[i].rank <= fills[j].rank);
            }
            lemma_time_place(rest, rank);
            let k = time_place(rest, rank);
            assert forall|i: int| 0 <= i < k implies (#[trigger] fills[i]).rank <= rank by {
                assert(rest[i].rank <= rank);
            }
            assert forall|i: int| k <= i < fills.len() implies (#[trigger] fills[i]).rank > rank by {
                if i < n {
                    assert(rest[i].rank > rank);
                }
            }
        }
    }
}

/// A history is in order of time, whatever the order of the pages.
pub proof fn law_history_is_in_time_order(start: Seq<TimedView>, entries: Seq<JsonView>)
    requires
        in_time_order(start),
    ensures
        in_time_order(history_of(start, entries)),
    decreases entries.len(),
{
    if entries.len() > 0 {
        law_history_is_in_time_order(start, entries.drop_last());
        let before = history_of(start, entries.drop_last());
        match fill_in(entries.last()) {
            Some(fill) => {
                let rank = time_rank(number_at(entries.last().field("ts"@)));
                let timed = TimedView { rank, fill };
                lemma_time_place(before, rank);
                let k = time_place(before, rank);
                let out = with_fill(before, timed);
                assert forall|i: int, j: int| 0 <= i <= j < out.len() implies out[i].rank
                    <= out[j].rank by {
                    let i0 = if i < k { i } else { i - 1 };
                    let j0 = if j < k { j } else { j - 1 };
                    if i != k && j != k {
                        assert(before[i0].rank <= before[j0].rank);
                    } else if i == k && j != k {
                        assert(before[j0].rank > rank);
                    } else if i != k {
                        assert(before[i0].rank <= rank);
                    }
                }
            },
            None => {},
        }
    }
}

} // verus!
