use kalshi_mm::json::Json;
use kalshi_mm::table::Table;
use kalshi_mm::transport::{
    read_frame, route_message, route_spot, subscription, to_follow, WsClient, WsEvent, PROD_WS_URL,
};
use rsa::pkcs8::{EncodePrivateKey, LineEnding};
use rsa::signature::Verifier;

fn json(text: &str) -> Json {
    Json::from_text(text).unwrap()
}

#[test]
fn routes_book_and_trade_messages() {
    let snap = json(
        r#"{"type": "orderbook_snapshot",
            "msg": {"market_ticker": "KXADP-1", "yes": [[0.4, 5]]}}"#,
    );
    assert!(matches!(route_message(&snap), Some(WsEvent::Book { ticker, .. }) if ticker == "KXADP-1"));
    let delta = json(
        r#"{"type": "orderbook_delta",
            "msg": {"market_ticker": "KXADP-1", "side": "yes",
                    "price_dollars": 0.4, "delta_fp": "1"}}"#,
    );
    assert!(matches!(route_message(&delta), Some(WsEvent::Book { .. })));
    let trade = json(
        r#"{"type": "trade",
            "msg": {"market_ticker": "KXADP-1", "count": 2, "taker_side": "no"}}"#,
    );
    assert!(matches!(route_message(&trade), Some(WsEvent::Trade { .. })));
    let ack = json(r#"{"type": "subscribed", "msg": {"market_ticker": "KXADP-1"}}"#);
    assert!(route_message(&ack).is_none());
    let no_msg = json(r#"{"type": "error"}"#);
    assert!(route_message(&no_msg).is_none());
}

#[test]
fn frames_that_are_no_json_are_dropped() {
    assert!(read_frame("{").is_none());
    let frame = r#"{"type": "trade", "msg": {"market_ticker": "A", "count": 2}}"#;
    match read_frame(frame) {
        Some(WsEvent::Trade { ticker, msg }) => {
            assert_eq!(ticker, "A");
            assert!(msg.get("count").is_some());
        }
        other => panic!("{other:?}"),
    }
    assert!(read_frame(r#"{"type": "trade", "msg": {}}"#).is_none());
}

#[test]
fn spot_messages_carry_a_price_of_the_product() {
    let tick = json(r#"{"type": "ticker", "product_id": "BTC-USD", "price": "64250.01"}"#);
    match route_spot(&tick, "BTC-USD") {
        Some(WsEvent::Spot { price }) => assert_eq!(price, 64_250_010_000_000),
        other => panic!("{other:?}"),
    }
    assert!(route_spot(&tick, "ETH-USD").is_none());
    for text in [
        r#"{"type": "subscriptions"}"#,
        r#"{"type": "ticker", "product_id": "BTC-USD"}"#,
        r#"{"type": "ticker", "product_id": "BTC-USD", "price": "-1"}"#,
        r#"{"type": "ticker", "product_id": "BTC-USD", "price": "inf"}"#,
    ] {
        assert!(route_spot(&json(text), "BTC-USD").is_none(), "{text}");
    }
}

#[test]
fn subscriptions_cover_what_is_not_followed() {
    let s = subscription("A", 1000, 3);
    assert_eq!((s.id, s.cmd.as_str(), s.market_ticker.as_str()), (1003, "subscribe", "A"));
    assert_eq!(s.channels, vec!["orderbook_delta".to_string(), "trade".to_string()]);
    let universe: Vec<String> = ["A", "B", "C"].iter().map(|s| s.to_string()).collect();
    let mut followed: Table<()> = Table::new();
    assert_eq!(to_follow(&universe, &followed), universe);
    followed.insert("B".to_string(), ());
    assert_eq!(to_follow(&universe, &followed), vec!["A".to_string(), "C".to_string()]);
}

#[test]
fn the_handshake_is_signed_over_the_socket_path() {
    let key = rsa::RsaPrivateKey::new(&mut rand::thread_rng(), 1024).unwrap();
    let pem = key.to_pkcs8_pem(LineEnding::LF).unwrap().to_string();
    let ws = WsClient::new("id", &pem, PROD_WS_URL).unwrap();
    assert_eq!((ws.url(), ws.api_key()), (PROD_WS_URL, "id"));
    let text = ws.sign_handshake("77").unwrap();
    let bytes = base64::Engine::decode(&base64::engine::general_purpose::STANDARD, text).unwrap();
    let sig = rsa::pss::Signature::try_from(bytes.as_slice()).unwrap();
    let verifying: rsa::pss::VerifyingKey<rsa::sha2::Sha256> =
        rsa::pss::VerifyingKey::new(key.to_public_key());
    assert!(verifying.verify(b"77GET/trade-api/ws/v2", &sig).is_ok());
    assert!(WsClient::new("id", "junk", PROD_WS_URL).is_err());
}
