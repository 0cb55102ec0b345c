//! The market-data socket: which messages become events, what to subscribe to
//! and how to sign the handshake. The socket itself is left to the caller.

use vstd::prelude::*;

use crate::api::{
    key_in, load_private_key, outcome_view, sign_request, signed_text, signing_outcome, ApiError, SignRefusal,
};
use crate::json::{parsed, Json, JsonView};
use crate::ladder::names_view;
use crate::num::{saturate, saturated, Num};
use crate::table::Table;
use crate::text::same;

verus! {

pub const PROD_WS_URL: &'static str = "wss://api.elections.kalshi.com/trade-api/ws/v2";

/// The path that the handshake's signature covers.
pub const WS_SIGNING_PATH: &'static str = "/trade-api/ws/v2";

/// The pause before a lost connection is made again, in microseconds.
pub const RECONNECT_DELAY: i64 = 5_000_000;

/// One message of a feed.
#[derive(Debug)]
pub enum WsEvent {
    /// A snapshot or a change of an order book.
    Book { ticker: String, msg: Json },
    /// A public trade.
    Trade { ticker: String, msg: Json },
    /// A spot price in billionths of a dollar.
    Spot { price: i64 },
}

/// An event by what it holds.
#[verifier::ext_equal]
pub enum EventView {
    Book { ticker: Seq<char>, msg: JsonView },
    Trade { ticker: Seq<char>, msg: JsonView },
    Spot { price: int },
}

impl View for WsEvent {
    type V = EventView;

    open spec fn view(&self) -> EventView {
        match self {
            WsEvent::Book { ticker, msg } => EventView::Book { ticker: ticker@, msg: msg@ },
            WsEvent::Trade { ticker, msg } => EventView::Trade { ticker: ticker@, msg: msg@ },
            WsEvent::Spot { price } => EventView::Spot { price: *price as int },
        }
    }
}

/// An optional event by what it holds.
pub open spec fn event_view(e: Option<WsEvent>) -> Option<EventView> {
    match e {
        Some(event) => Some(event@),
        None => None,
    }
}

/// The event that a message stands for: book messages and trades that name
/// their market. Acknowledgements and other channels stand for none.
pub open spec fn event_in(data: JsonView) -> Option<EventView> {
    match (data.text_field("type"@), data.field("msg"@)) {
        (Some(kind), Some(msg)) => match msg.text_field("market_ticker"@) {
            Some(ticker) => if kind == "orderbook_snapshot"@ || kind == "orderbook_delta"@ {
                Some(EventView::Book { ticker, msg })
            } else if kind == "trade"@ {
                Some(EventView::Trade { ticker, msg })
            } else {
                None
            },
            None => None,
        },
        _ => None,
    }
}

/// Turns a message into its event.
pub fn route_message(data: &Json) -> (r: Option<WsEvent>)
    ensures
        event_view(r) == event_in(data@),
{
    let kind = match data.get_text("type") {
        Some(k) => k,
        None => {
            return None;
        },
    };
    let msg = match data.get("msg") {
        Some(m) => m,
        None => {
            return None;
        },
    };
    let ticker = match msg.get_text("market_ticker") {
        Some(t) => t.to_string(),
        None => {
            return None;
        },
    };
    if same(kind, "orderbook_snapshot") || same(kind, "orderbook_delta") {
        Some(WsEvent::Book { ticker, msg: msg.copy() })
    } else if same(kind, "trade") {
        Some(WsEvent::Trade { ticker, msg: msg.copy() })
    } else {
        None
    }
}

/// The event in a frame's text; none where the text is no JSON.
pub open spec fn event_in_text(text: Seq<char>) -> Option<EventView> {
    match parsed(text) {
        Ok(data) => event_in(data),
        Err(_) => None,
    }
}

/// Reads a frame.
pub fn read_frame(text: &str) -> (r: Option<WsEvent>)
    ensures
        event_view(r) == event_in_text(text@),
{
    match Json::from_text(text) {
        Ok(data) => route_message(&data),
        Err(_) => None,
    }
}

/// The price in a message of the spot feed: a positive, finite price of the
/// product, in a message of the ticker channel.
pub open spec fn spot_in(data: JsonView, product: Seq<char>) -> Option<int> {
    if data.text_field("type"@) == Some("ticker"@) && data.text_field("product_id"@) == Some(
        product,
    ) {
        match data.field("price"@) {
            Some(price) => match price.number() {
                Some(Num::Finite(n)) => if n > 0 {
                    Some(saturated(Num::Finite(n)))
                } else {
                    None
                },
                _ => None,
            },
            None => None,
        }
    } else {
        None
    }
}

/// Reads a message of the spot feed.
pub fn route_spot(data: &Json, product: &str) -> (r: Option<WsEvent>)
    ensures
        event_view(r) == match spot_in(data@, product@) {
            Some(price) => Some(EventView::Spot { price }),
            None => None,
        },
{
    let is_tick = match (data.get_text("type"), data.get_text("product_id")) {
        (Some(kind), Some(id)) => same(kind, "ticker") && same(id, product),
        _ => false,
    };
    if !is_tick {
        return None;
    }
    match data.get("price") {
        Some(price) => match price.as_number() {
            Some(Num::Finite(n)) => if n > 0 {
                Some(WsEvent::Spot { price: saturate(Num::Finite(n)) })
            } else {
                None
            },
            _ => None,
        },
        None => None,
    }
}

// --- subscriptions -----------------------------------------------------------

/// A request to follow one market.
#[derive(Debug, Clone)]
pub struct Subscription {
    pub id: i128,
    pub cmd: String,
    pub channels: Vec<String>,
    pub market_ticker: String,
}

/// The request to follow a market, the `index`-th since `now_ms`.
pub fn subscription(ticker: &str, now_ms: i64, index: u64) -> (r: Subscription)
    ensures
        r.id == now_ms + index,
        r.cmd@ == "subscribe"@,
        names_view(r.channels@) == seq!["orderbook_delta"@, "trade"@],
        r.market_ticker@ == ticker@,
{
    let mut channels: Vec<String> = Vec::new();
    channels.push("orderbook_delta".to_string());
    channels.push("trade".to_string());
    assert(names_view(channels@) =~= seq!["orderbook_delta"@, "trade"@]);
    Subscription {
        id: now_ms as i128 + index as i128,
        cmd: "subscribe".to_string(),
        channels,
        market_ticker: ticker.to_string(),
    }
}

/// The markets of a universe that are not followed yet, in order.
pub open spec fn unfollowed(universe: Seq<Seq<char>>, followed: Map<Seq<char>, ()>) -> Seq<Seq<char>>
    decreases universe.len(),
{
    if universe.len() == 0 {
        seq![]
    } else {
        let before = unfollowed(universe.drop_last(), followed);
        if followed.dom().contains(universe.last()) {
            before
        } else {
            before.push(universe.last())
        }
    }
}

/// The markets that a socket still has to subscribe to. A connection that was
/// just made follows none, so it subscribes to all.
pub fn to_follow(universe: &Vec<String>, followed: &Table<()>) -> (r: Vec<String>)
    requires
        followed.wf(),
    ensures
        names_view(r@) == unfollowed(names_view(universe@), followed@),
{
    let mut out: Vec<String> = Vec::new();
    let ghost all = names_view(universe@);
    assert(names_view(out@) =~= unfollowed(all.take(0), followed@));
    let mut i: usize = 0;
    while i < universe.len()
        invariant
            followed.wf(),
            i <= universe.len(),
            all == names_view(universe@),
            names_view(out@) == unfollowed(all.take(i as int), followed@),
        decreases universe.len() - i,
    {
        proof {
            assert(all.take(i + 1).drop_last() =~= all.take(i as int));
            assert(all.take(i + 1).last() == universe@[i as int]@);
        }
        let ghost before = names_view(out@);
        if !followed.contains(universe[i].as_str()) {
            out.push(universe[i].clone());
            assert(names_view(out@) =~= before.push(universe@[i as int]@));
        }
        i += 1;
    }
    assert(all.take(all.len() as int) =~= all);
    out
}

/// A connection that follows nothing subscribes to everything.
pub proof fn law_new_connection_follows_all(universe: Seq<Seq<char>>)
    ensures
        unfollowed(universe, Map::empty()) == universe,
    decreases universe.len(),
{
    if universe.len() > 0 {
        law_new_connection_follows_all(universe.drop_last());
        assert(universe =~= universe.drop_last().push(universe.last()));
    } else {
        assert(unfollowed(universe, Map::empty()) =~= universe);
    }
}

// --- the handshake -----------------------------------------------------------

/// What is needed to connect to the socket.
pub struct WsClient {
    url: String,
    api_key: String,
    key: rsa::RsaPrivateKey,
}

impl WsClient {
    /// The private key.
    pub closed spec fn private_key(&self) -> rsa::RsaPrivateKey {
        self.key
    }

    /// The address of the socket.
    pub closed spec fn address(&self) -> Seq<char> {
        self.url@
    }

    /// The id of the key.
    pub closed spec fn key_id(&self) -> Seq<char> {
        self.api_key@
    }

    /// The address of the socket.
    pub fn url(&self) -> (r: &str)
        ensures
            r@ == self.address(),
    {
        self.url.as_str()
    }

    /// The id of the key.
    pub fn api_key(&self) -> (r: &str)
        ensures
            r@ == self.key_id(),
    {
        self.api_key.as_str()
    }

    /// A client, from the id of its key, the PEM text of the key and the
    /// address.
    pub fn new(api_key: &str, pem: &str, url: &str) -> (r: Result<Self, ApiError>)
        ensures
            match r {
                Ok(client) => {
                    &&& client.address() == url@
                    &&& client.key_id() == api_key@
                    &&& key_in(pem@) == Some(client.private_key())
                },
                Err(e) => key_in(pem@) is None && e.0@
                    == "parsing RSA private key (PKCS#8/PKCS#1 PEM)"@,
            },
    {
        match load_private_key(pem) {
            Ok(key) => Ok(
                WsClient { url: url.to_string(), api_key: api_key.to_string(), key },
            ),
            Err(e) => Err(e),
        }
    }

    /// Signs the handshake.
    pub fn sign_handshake(&self, timestamp_ms: &str) -> (r: Result<String, SignRefusal>)
        ensures
            signing_outcome(
                outcome_view(r),
                self.private_key(),
                signed_text(timestamp_ms@, "GET"@, WS_SIGNING_PATH@),
            ),
    {
        sign_request(&self.key, timestamp_ms, "GET", WS_SIGNING_PATH)
    }
}

} // verus!
