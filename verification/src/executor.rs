//! From plans to orders and back: which orders a plan sends, what the answers
//! mean, and what is remembered of them.

use vstd::prelude::*;

use crate::api::ApiError;
use crate::config::MmParams;
use crate::engine::{ask_size, ask_size_of, bid_size, bid_size_of, ExitPlan, QuotePlan};
use crate::json::{Json, JsonView};
use crate::num::{add64, bump, clamp64};
use crate::state::{is_fresh, one_more, text_view, TickerState, TraderState};
use crate::text::{contains, occurs_in};

verus! {

/// An order to be placed.
#[derive(Debug, Clone)]
pub struct OrderRequest {
    pub ticker: String,
    /// "buy" or "sell".
    pub side: &'static str,
    /// The price in tenths of a cent.
    pub price_cents: i64,
    pub size: i64,
    pub post_only: bool,
    pub time_in_force: &'static str,
}

/// What became of one order.
#[derive(Debug)]
pub enum SendResult {
    /// The order was sent; its id where the exchange gave one.
    Placed(Option<String>),
    /// The account has not the money for it.
    InsufficientBalance,
}

/// What the exchange answered, as far as it counts: the id of the order, or
/// that the balance is short. Any other failure is an order without an id.
pub open spec fn outcome_of(reply: Result<JsonView, Seq<char>>) -> Option<Option<Seq<char>>> {
    match reply {
        Ok(v) => Some(v.text_field("order_id"@)),
        Err(text) => if occurs_in(text, "insufficient_balance"@) {
            None
        } else {
            Some(None)
        },
    }
}

/// An outcome by what it holds: none for a short balance.
pub open spec fn outcome_view(r: SendResult) -> Option<Option<Seq<char>>> {
    match r {
        SendResult::Placed(id) => Some(text_view(id)),
        SendResult::InsufficientBalance => None,
    }
}

/// Reads the answer to an order.
pub fn read_outcome(reply: &Result<Json, ApiError>) -> (r: SendResult)
    ensures
        outcome_view(r) == outcome_of(
            match *reply {
                Ok(v) => Ok(v@),
                Err(e) => Err(e.0@),
            },
        ),
{
    match reply {
        Ok(v) => match v.get_text("order_id") {
            Some(id) => SendResult::Placed(Some(id.to_string())),
            None => SendResult::Placed(None),
        },
        Err(e) => if contains(e.0.as_str(), "insufficient_balance") {
            SendResult::InsufficientBalance
        } else {
            SendResult::Placed(None)
        },
    }
}

/// The bid that a plan sends: it may only rest.
pub fn bid_order(ticker: &str, plan: &QuotePlan, mm: &MmParams) -> (r: Option<OrderRequest>)
    ensures
        r is Some <==> plan.place_bid,
        r matches Some(o) ==> {
            &&& o.ticker@ == ticker@
            &&& o.side@ == "buy"@
            &&& o.price_cents == plan.bid_cents
            &&& o.size == bid_size_of(plan.quoted_bid as int, *mm)
            &&& o.post_only
            &&& o.time_in_force@ == "good_till_canceled"@
        },
{
    if !plan.place_bid {
        return None;
    }
    Some(
        OrderRequest {
            ticker: ticker.to_string(),
            side: "buy",
            price_cents: plan.bid_cents,
            size: bid_size(plan.quoted_bid, mm),
            post_only: true,
            time_in_force: "good_till_canceled",
        },
    )
}

/// The ask that a plan sends: it may only rest.
pub fn ask_order(ticker: &str, plan: &QuotePlan, mm: &MmParams) -> (r: Option<OrderRequest>)
    ensures
        r is Some <==> plan.place_ask,
        r matches Some(o) ==> {
            &&& o.ticker@ == ticker@
            &&& o.side@ == "sell"@
            &&& o.price_cents == plan.ask_cents
            &&& o.size == ask_size_of(plan.quoted_ask as int, *mm)
            &&& o.post_only
            &&& o.time_in_force@ == "good_till_canceled"@
        },
{
    if !plan.place_ask {
        return None;
    }
    Some(
        OrderRequest {
            ticker: ticker.to_string(),
            side: "sell",
            price_cents: plan.ask_cents,
            size: ask_size(plan.quoted_ask, mm),
            post_only: true,
            time_in_force: "good_till_canceled",
        },
    )
}

/// The order of an exit: it crosses the book, and what does not fill at once
/// is canceled.
pub fn exit_order(ticker: &str, plan: &ExitPlan) -> (r: OrderRequest)
    ensures
        r.ticker@ == ticker@,
        r.side == plan.side,
        r.price_cents == plan.price_cents,
        r.size == plan.size,
        !r.post_only,
        r.time_in_force@ == "immediate_or_cancel"@,
{
    OrderRequest {
        ticker: ticker.to_string(),
        side: plan.side,
        price_cents: plan.price_cents,
        size: plan.size,
        post_only: false,
        time_in_force: "immediate_or_cancel",
    }
}

/// The id that an order left behind.
pub open spec fn left_id(r: Option<SendResult>) -> Option<String> {
    match r {
        Some(SendResult::Placed(id)) => id,
        _ => None,
    }
}

/// The order ran into a short balance.
pub open spec fn ran_short(r: Option<SendResult>) -> bool {
    r matches Some(o) && o is InsufficientBalance
}

/// One more for an order that was tried.
pub open spec fn with_try(n: u64, r: Option<SendResult>) -> u64 {
    if r is Some {
        one_more(n)
    } else {
        n
    }
}

/// Takes the id out of an order's result.
fn take_id(r: Option<SendResult>) -> (id: Option<String>)
    ensures
        id == left_id(r),
{
    match r {
        Some(SendResult::Placed(id)) => id,
        _ => None,
    }
}

/// True where the order ran into a short balance.
fn is_short(r: &Option<SendResult>) -> (b: bool)
    ensures
        b == ran_short(*r),
{
    match r {
        Some(SendResult::InsufficientBalance) => true,
        _ => false,
    }
}

/// Remembers what became of a plan's orders: a short balance pauses all
/// quoting, every order tried counts as a quote, and the market keeps the ids
/// and the quoted prices.
pub fn apply_quote_plan(
    mm: &MmParams,
    category: &str,
    ticker: &str,
    plan: &QuotePlan,
    bid: Option<SendResult>,
    ask: Option<SendResult>,
    state: &mut TraderState,
    now_mono: i64,
)
    requires
        old(state).wf(),
    ensures
        final(state).wf(),
        ({
            let ts = final(state).tickers@[ticker@];
            &&& final(state).tickers@ == old(state).tickers@.insert(ticker@, ts)
            &&& ts.bid_order_id == left_id(bid)
            &&& ts.ask_order_id == left_id(ask)
            &&& ts.quoted_bid == Some(plan.quoted_bid)
            &&& ts.quoted_ask == Some(plan.quoted_ask)
            &&& ts.ever_quoted
            &&& old(state).tickers.has(ticker@) ==> ts == (TickerState {
                bid_order_id: ts.bid_order_id,
                ask_order_id: ts.ask_order_id,
                quoted_bid: ts.quoted_bid,
                quoted_ask: ts.quoted_ask,
                ever_quoted: true,
                ..old(state).tickers@[ticker@]
            })
            &&& !old(state).tickers.has(ticker@) ==> is_fresh(
                (TickerState {
                    bid_order_id: None,
                    ask_order_id: None,
                    quoted_bid: None,
                    quoted_ask: None,
                    ever_quoted: false,
                    ..ts
                }),
                category@,
            )
        }),
        *final(state) == (TraderState {
            tickers: final(state).tickers,
            quotes_sent: with_try(with_try(old(state).quotes_sent, bid), ask),
            balance_backoff_until: if ran_short(bid) || ran_short(ask) {
                clamp64(now_mono + mm.balance_backoff_s) as i64
            } else {
                old(state).balance_backoff_until
            },
            ..*old(state)
        }),
{
    if is_short(&bid) || is_short(&ask) {
        state.balance_backoff_until = add64(now_mono, mm.balance_backoff_s);
    }
    if bid.is_some() {
        state.quotes_sent = bump(state.quotes_sent);
    }
    if ask.is_some() {
        state.quotes_sent = bump(state.quotes_sent);
    }
    let ts = state.ticker(ticker, category);
    ts.bid_order_id = take_id(bid);
    ts.ask_order_id = take_id(ask);
    ts.quoted_bid = Some(plan.quoted_bid);
    ts.quoted_ask = Some(plan.quoted_ask);
    ts.ever_quoted = true;
}

} // verus!
