use base64::Engine;
use kalshi_mm::api::{
    format_price, load_private_key, read_reply, resting_order_ids, sign_request, signature_text,
    signing_message, Call,
    KalshiClient, SignRefusal, PROD_BASE_URL,
};
use kalshi_mm::json::Json;
use rsa::pkcs1::EncodeRsaPrivateKey;
use rsa::pkcs8::{EncodePrivateKey, LineEnding};
use rsa::pss::VerifyingKey;
use rsa::sha2::Sha256;
use rsa::signature::Verifier;
use rsa::traits::PrivateKeyParts;
use rsa::RsaPrivateKey;

fn nano(x: f64) -> i64 {
    (x * 1e9).round() as i64
}

fn test_client() -> (KalshiClient, RsaPrivateKey) {
    let key = RsaPrivateKey::new(&mut rand::thread_rng(), 2048).unwrap();
    let pem = key.to_pkcs8_pem(LineEnding::LF).unwrap().to_string();
    let client = KalshiClient::new("key-id", &pem, PROD_BASE_URL).unwrap();
    (client, key)
}

fn verifies(key: &RsaPrivateKey, message: &[u8], signature: &str) -> bool {
    let bytes = base64::engine::general_purpose::STANDARD.decode(signature).unwrap();
    let verifying: VerifyingKey<Sha256> = VerifyingKey::new(key.to_public_key());
    let sig = rsa::pss::Signature::try_from(bytes.as_slice()).unwrap();
    verifying.verify(message, &sig).is_ok()
}

#[test]
fn signature_verifies_and_strips_query() {
    let (client, key) = test_client();
    let sig_b64 = client.sign("1234", "GET", "/trade-api/v2/markets?limit=5").unwrap();
    assert!(
        verifies(&key, b"1234GET/trade-api/v2/markets", &sig_b64),
        "signature must verify against the query-stripped path"
    );
}

#[test]
fn price_formatting_matches_python() {
    assert_eq!(format_price(nano(0.40)), "0.40");
    assert_eq!(format_price(nano(0.501)), "0.501");
    assert_eq!(format_price(nano(0.05)), "0.05");
    assert_eq!(format_price(nano(40.0 / 100.0)), "0.40");
    assert_eq!(format_price(nano(50.1 / 100.0)), "0.501");
}

#[test]
fn prices_beyond_the_dollar_and_below_zero_are_written_too() {
    assert_eq!(format_price(0), "0.00");
    assert_eq!(format_price(nano(12.5)), "12.50");
    assert_eq!(format_price(nano(-0.25)), "-0.25");
    assert_eq!(format_price(nano(-0.001)), "-0.001");
    assert_eq!(format_price(nano(0.0006)), "0.001");
    assert_eq!(format_price(nano(0.0025)), "0.002"); // between two thousandths: the even one
}

#[test]
fn keys_come_in_two_encodings() {
    let key = RsaPrivateKey::new(&mut rand::thread_rng(), 1024).unwrap();
    let pkcs1 = key.to_pkcs1_pem(LineEnding::LF).unwrap().to_string();
    let pkcs8 = key.to_pkcs8_pem(LineEnding::LF).unwrap().to_string();
    assert_eq!(load_private_key(&pkcs1).unwrap(), key);
    assert_eq!(load_private_key(&pkcs8).unwrap(), key);
    let err = load_private_key("no key").unwrap_err();
    assert_eq!(err.0, "parsing RSA private key (PKCS#8/PKCS#1 PEM)");
    assert_eq!(
        err.message(),
        "API request failed: parsing RSA private key (PKCS#8/PKCS#1 PEM)"
    );
    let sig = sign_request(&key, "5", "GET", "/p").unwrap();
    assert!(verifies(&key, b"5GET/p", &sig));
    assert!(!verifies(&key, b"6GET/p", &sig));
    // A key too short for the digest and its salt cannot sign
    let short = RsaPrivateKey::new(&mut rand::thread_rng(), 512).unwrap();
    assert_eq!(sign_request(&short, "5", "GET", "/p"), Err(SignRefusal::Signer));
}

#[test]
fn a_key_with_a_much_longer_second_factor_is_refused() {
    let long = RsaPrivateKey::new(&mut rand::thread_rng(), 1024).unwrap().primes()[0].clone();
    let short = RsaPrivateKey::new(&mut rand::thread_rng(), 512).unwrap().primes()[0].clone();
    let e = rsa::BigUint::from(65537u32);
    let lopsided = RsaPrivateKey::from_p_q(short.clone(), long.clone(), e.clone()).unwrap();
    assert_eq!(sign_request(&lopsided, "5", "GET", "/p"), Err(SignRefusal::Unbalanced));
    let pem = lopsided.to_pkcs8_pem(LineEnding::LF).unwrap().to_string();
    let client = KalshiClient::new("id", &pem, PROD_BASE_URL).unwrap();
    assert_eq!(client.sign("5", "GET", "/p"), Err(SignRefusal::Unbalanced));
    assert_eq!(
        client.request(KalshiClient::get_positions(), "5").unwrap_err(),
        SignRefusal::Unbalanced
    );
    // The same factors the other way round sign
    let usable = RsaPrivateKey::from_p_q(long, short, e).unwrap();
    let sig = sign_request(&usable, "5", "GET", "/p").unwrap();
    assert!(verifies(&usable, b"5GET/p", &sig));
}

#[test]
fn signatures_are_written_in_padded_base64() {
    let text = |bytes: &[u8]| signature_text(Some(bytes.to_vec())).unwrap();
    assert_eq!(text(b""), "");
    assert_eq!(text(b"M"), "TQ==");
    assert_eq!(text(b"Ma"), "TWE=");
    assert_eq!(text(b"Man"), "TWFu");
    assert_eq!(text(&[0xfb, 0xef, 0xff, 0x00, 0x10]), "++//ABA=");
    assert_eq!(signature_text(None), Err(SignRefusal::Signer));
}

#[test]
fn requests_are_signed_over_the_full_path() {
    let key = RsaPrivateKey::new(&mut rand::thread_rng(), 1024).unwrap();
    let pem = key.to_pkcs8_pem(LineEnding::LF).unwrap().to_string();
    let client = KalshiClient::new("id", &pem, "https://host.example/base/v2//").unwrap();
    let call = KalshiClient::get_markets(Some("KX"), Some("open"), 200, None);
    let sent = client.request(call, "99").unwrap();
    assert_eq!(sent.method, "GET");
    assert_eq!(
        sent.url,
        "https://host.example/base/v2/markets?limit=200&series_ticker=KX&status=open"
    );
    assert_eq!((sent.api_key.as_str(), sent.timestamp.as_str()), ("id", "99"));
    assert!(verifies(&key, b"99GET/base/v2/markets", &sent.signature));
    assert!(sent.body.is_none());
    // What becomes of a call for each outcome of the signing
    for why in [SignRefusal::Signer, SignRefusal::Unbalanced] {
        let refused = client.signed(KalshiClient::get_positions(), "7", Err(why));
        assert_eq!(refused.unwrap_err(), why);
    }
    let sent = client.signed(KalshiClient::get_positions(), "7", Ok("sig".to_string())).unwrap();
    assert_eq!(sent.url, "https://host.example/base/v2/portfolio/positions");
    assert_eq!((sent.signature.as_str(), sent.timestamp.as_str()), ("sig", "7"));
    match KalshiClient::new("id", &pem, "not a url") {
        Err(e) => assert_eq!(e.0, "parsing base_url"),
        Ok(_) => panic!("a text that is no url was accepted"),
    }
    assert_eq!(signing_message("1", "GET", "/a?b=c?d"), "1GET/a");
}

fn shape(call: &Call) -> (String, String, Vec<(String, String)>) {
    (call.method.clone(), call.endpoint.clone(), call.params.clone())
}

fn pairs(list: &[(&str, &str)]) -> Vec<(String, String)> {
    list.iter().map(|(k, v)| (k.to_string(), v.to_string())).collect()
}

#[test]
fn every_call_has_its_endpoint() {
    let get = |e: &str, p: &[(&str, &str)]| ("GET".to_string(), e.to_string(), pairs(p));
    assert_eq!(
        shape(&KalshiClient::get_markets(None, None, 5, Some("c"))),
        get("/markets", &[("limit", "5"), ("cursor", "c")])
    );
    assert_eq!(shape(&KalshiClient::get_market("T")), get("/markets/T", &[]));
    assert_eq!(
        shape(&KalshiClient::get_orderbook("T", 10)),
        get("/markets/T/orderbook", &[("depth", "10")])
    );
    assert_eq!(shape(&KalshiClient::get_positions()), get("/portfolio/positions", &[]));
    assert_eq!(
        shape(&KalshiClient::get_fills(-7, 200, Some("c"), Some("T"))),
        get("/portfolio/fills", &[("limit", "200"), ("min_ts", "-7"), ("cursor", "c"), ("ticker", "T")])
    );
    assert_eq!(
        shape(&KalshiClient::get_settlements(200)),
        get("/portfolio/settlements", &[("limit", "200")])
    );
    assert_eq!(
        shape(&KalshiClient::get_orders(Some("resting"), 1000)),
        get("/portfolio/orders", &[("limit", "1000"), ("status", "resting")])
    );
    assert_eq!(
        shape(&KalshiClient::cancel_order("o1")),
        ("DELETE".to_string(), "/portfolio/events/orders/o1".to_string(), vec![])
    );
}

#[test]
fn orders_carry_their_terms() {
    let call =
        KalshiClient::place_limit_order("T", "buy", 501, 3, true, "good_till_canceled", 1234);
    assert_eq!((call.method.as_str(), call.endpoint.as_str()), ("POST", "/portfolio/events/orders"));
    let body = call.body.unwrap();
    assert_eq!((body.ticker.as_str(), body.side.as_str()), ("T", "bid"));
    assert_eq!((body.price.as_str(), body.count.as_str()), ("0.501", "3.00"));
    assert_eq!(body.time_in_force, "good_till_canceled");
    assert_eq!(body.self_trade_prevention_type, "taker_at_cross");
    assert!(body.post_only);
    assert_eq!(body.client_order_id, "mm_1234");
    let sell = KalshiClient::place_limit_order("T", "sell", 400, 1, false, "immediate_or_cancel", 0);
    let body = sell.body.unwrap();
    assert_eq!((body.side.as_str(), body.price.as_str()), ("ask", "0.40"));
}

#[test]
fn replies_are_read_or_kept_as_errors() {
    let refused = read_reply(false, "400 Bad Request", "insufficient_balance").unwrap_err();
    assert_eq!(refused.0, "400 Bad Request - Response: insufficient_balance");
    let broken = read_reply(true, "200 OK", "{").unwrap_err();
    assert!(broken.0.starts_with("bad JSON: EOF"), "{}", broken.0);
    let ok = read_reply(true, "200 OK", r#"{"orders": [{"order_id": "a"}, {}, {"order_id": "b"}]}"#)
        .unwrap();
    assert_eq!(resting_order_ids(&ok), vec!["a".to_string(), "b".to_string()]);
    assert!(resting_order_ids(&Json::Null).is_empty());
}
