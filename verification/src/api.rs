//! The exchange's REST interface: which request each call makes, how a request
//! is signed, and how a reply is read. Sending is left to the caller.

use vstd::prelude::*;

use rsa::pkcs1::DecodeRsaPrivateKey;
use rsa::pkcs8::DecodePrivateKey;
use rsa::signature::RandomizedSigner;

use base64::Engine;

use crate::json::{parsed, Json, JsonView};
use crate::num::{clamp64, div_even, magnitude, round_even, to_i64};
use crate::text::{
    chars_of, decimal, find_char, find_from, join2, join3, numeral, padded, padded_numeral, same, signed_decimal,
    signed_numeral, text_of,
};

verus! {

pub const PROD_BASE_URL: &'static str = "https://external-api.kalshi.com/trade-api/v2";

/// A request that failed, with what the exchange answered.
#[derive(Debug, Clone)]
pub struct ApiError(pub String);

impl ApiError {
    /// The error in words.
    pub fn message(&self) -> (r: String)
        ensures
            r@ == "API request failed: "@ + self.0@,
    {
        join2("API request failed: ", self.0.as_str())
    }
}

// --- keys and signatures -----------------------------------------------------

/// A private RSA key.
#[verifier::external_type_specification]
#[verifier::external_body]
pub struct ExRsaPrivateKey(rsa::RsaPrivateKey);

/// The key that a PEM text holds in PKCS#8 encoding.
pub uninterp spec fn pkcs8_key(pem: Seq<char>) -> Option<rsa::RsaPrivateKey>;

/// The key that a PEM text holds in PKCS#1 encoding.
pub uninterp spec fn pkcs1_key(pem: Seq<char>) -> Option<rsa::RsaPrivateKey>;

/// The signature of a message, in UTF-8, verifies under the public half of the
/// key by RSASSA-PSS with SHA-256 and a salt as long as the digest.
pub uninterp spec fn pss_verifies(
    key: rsa::RsaPrivateKey,
    message: Seq<char>,
    signature: Seq<u8>,
) -> bool;

/// The bit lengths of a key's factors, in the order in which the key holds
/// them.
pub uninterp spec fn factor_sizes(key: rsa::RsaPrivateKey) -> Seq<usize>;

/// The path of a URL, where the text is one.
pub uninterp spec fn url_path(url: Seq<char>) -> Option<Seq<char>>;

/// `RsaPrivateKey::from_pkcs8_pem`: the key in a PEM text, or none where the
/// text does not decode; it depends on the text alone.
#[verifier::external_body]
fn read_pkcs8(pem: &str) -> (r: Option<rsa::RsaPrivateKey>)
    ensures
        r == pkcs8_key(pem@),
{
    rsa::RsaPrivateKey::from_pkcs8_pem(pem).ok()
}

/// `RsaPrivateKey::from_pkcs1_pem`: the key in a PEM text, or none where the
/// text does not decode; it depends on the text alone.
#[verifier::external_body]
fn read_pkcs1(pem: &str) -> (r: Option<rsa::RsaPrivateKey>)
    ensures
        r == pkcs1_key(pem@),
{
    rsa::RsaPrivateKey::from_pkcs1_pem(pem).ok()
}

/// How many bits a key's second factor may have more than its first.
pub const SIZE_GAP: usize = 16;

/// The second factor is not much longer than the first.
pub open spec fn balanced(sizes: Seq<usize>) -> bool {
    sizes.len() >= 2 && sizes[1] <= sizes[0] + SIZE_GAP
}

/// `PrivateKeyParts::primes` and `BigUint::bits`: the bit length of each factor
/// of a key; it depends on the key alone.
#[verifier::external_body]
fn read_factor_sizes(key: &rsa::RsaPrivateKey) -> (r: Vec<usize>)
    ensures
        r@ == factor_sizes(*key),
{
    rsa::traits::PrivateKeyParts::primes(key).iter().map(|p| p.bits()).collect()
}

/// `SigningKey::<Sha256>::try_sign_with_rng` with a fresh random salt: the
/// signature differs from call to call, and any that comes back verifies under
/// the key. The signer adds the first factor to a difference of two remainders
/// until that is not negative, about as often as the first factor goes into the
/// second: a key with a much longer second factor would keep it busy without
/// end, and is left out. None where the key is too short for the digest and its
/// salt, and where the result does not stand the signer's own test, which a key
/// whose factors are not prime can fail on one salt and pass on another. So
/// whether a signature comes back is not said.
#[verifier::external_body]
fn sign_pss(key: &rsa::RsaPrivateKey, message: &str) -> (r: Option<Vec<u8>>)
    requires
        balanced(factor_sizes(*key)),
    ensures
        r matches Some(signature) ==> pss_verifies(*key, message@, signature@),
{
    rsa::pss::SigningKey::<rsa::sha2::Sha256>::new(key.clone())
        .try_sign_with_rng(&mut rand::thread_rng(), message.as_bytes())
        .ok()
        .map(|s| rsa::signature::SignatureEncoding::to_vec(&s))
}

/// The character that stands for six bits in the standard base64 alphabet.
pub open spec fn base64_char(bits: int) -> char {
    (if bits < 26 {
        'A' as int + bits
    } else if bits < 52 {
        'a' as int + bits - 26
    } else if bits < 62 {
        '0' as int + bits - 52
    } else if bits == 62 {
        '+' as int
    } else {
        '/' as int
    }) as char
}

/// Three bytes as four characters of six bits each.
pub open spec fn base64_group(a: int, b: int, c: int) -> Seq<char> {
    seq![
        base64_char(a / 4),
        base64_char(a % 4 * 16 + b / 16),
        base64_char(b % 16 * 4 + c / 64),
        base64_char(c % 64),
    ]
}

/// Bytes in the standard base64 alphabet: group by group of three, the last one
/// filled up with zero bits and its missing characters with `=`.
pub open spec fn base64_of(bytes: Seq<u8>) -> Seq<char>
    decreases bytes.len(),
{
    if bytes.len() == 0 {
        seq![]
    } else if bytes.len() == 1 {
        base64_group(bytes[0] as int, 0, 0).take(2) + seq!['=', '=']
    } else if bytes.len() == 2 {
        base64_group(bytes[0] as int, bytes[1] as int, 0).take(3) + seq!['=']
    } else {
        base64_group(bytes[0] as int, bytes[1] as int, bytes[2] as int) + base64_of(bytes.skip(3))
    }
}

/// `base64`'s standard engine, `encode`: the text of some bytes.
#[verifier::external_body]
fn encode_base64(bytes: &Vec<u8>) -> (r: String)
    ensures
        r@ == base64_of(bytes@),
{
    base64::engine::general_purpose::STANDARD.encode(bytes)
}

/// `reqwest::Url::parse` and `path`: the path of a URL, or none where the text
/// is not one; it depends on the text alone.
#[verifier::external_body]
fn parse_url_path(url: &str) -> (r: Option<String>)
    ensures
        match r {
            Some(p) => url_path(url@) == Some(p@),
            None => url_path(url@) is None,
        },
{
    reqwest::Url::parse(url).ok().map(|u| u.path().to_string())
}

/// The key that a PEM text holds, in either encoding.
pub open spec fn key_in(pem: Seq<char>) -> Option<rsa::RsaPrivateKey> {
    match pkcs8_key(pem) {
        Some(key) => Some(key),
        None => pkcs1_key(pem),
    }
}

/// Reads a private key from a PEM text in PKCS#8 or PKCS#1 encoding.
pub fn load_private_key(pem: &str) -> (r: Result<rsa::RsaPrivateKey, ApiError>)
    ensures
        match r {
            Ok(key) => key_in(pem@) == Some(key),
            Err(e) => key_in(pem@) is None && e.0@
                == "parsing RSA private key (PKCS#8/PKCS#1 PEM)"@,
        },
{
    match read_pkcs8(pem) {
        Some(key) => Ok(key),
        None => match read_pkcs1(pem) {
            Some(key) => Ok(key),
            None => Err(ApiError("parsing RSA private key (PKCS#8/PKCS#1 PEM)".to_string())),
        },
    }
}

/// A path without its query.
pub open spec fn without_query(path: Seq<char>) -> Seq<char> {
    path.take(find_from(path, '?', 0))
}

/// What a request's signature covers: time, method, and path without query.
pub open spec fn signed_text(timestamp: Seq<char>, method: Seq<char>, path: Seq<char>) -> Seq<char> {
    timestamp + method + without_query(path)
}

/// The text that a request's signature covers.
pub fn signing_message(timestamp_ms: &str, method: &str, path: &str) -> (r: String)
    ensures
        r@ == signed_text(timestamp_ms@, method@, path@),
{
    let chars = chars_of(path);
    let end: usize = find_char(&chars, '?', 0);
    let bare = text_of(&chars, 0, end);
    assert(bare@ =~= path@.take(end as int));
    join3(timestamp_ms, method, bare.as_str())
}

/// A text is the base64 form of a signature that verifies.
pub open spec fn is_signature(text: Seq<char>, key: rsa::RsaPrivateKey, message: Seq<char>) -> bool {
    exists|signature: Seq<u8>|
        text == base64_of(signature) && #[trigger] pss_verifies(key, message, signature)
}

/// Why there is no signature.
#[derive(Clone, Copy, Debug, PartialEq, Eq, Structural)]
pub enum SignRefusal {
    /// The key's second factor is much longer than its first.
    Unbalanced,
    /// The signer gave none.
    Signer,
}

/// The text of a signature, where there is one.
pub fn signature_text(signature: Option<Vec<u8>>) -> (r: Result<String, SignRefusal>)
    ensures
        match signature {
            Some(bytes) => r matches Ok(text) && text@ == base64_of(bytes@),
            None => r matches Err(e) && e == SignRefusal::Signer,
        },
{
    match signature {
        Some(bytes) => Ok(encode_base64(&bytes)),
        None => Err(SignRefusal::Signer),
    }
}

/// What signing a text with a key comes to: refused as unbalanced exactly for
/// such keys, and otherwise a signature of the text or the signer's refusal.
pub open spec fn signing_outcome(
    r: Result<Seq<char>, SignRefusal>,
    key: rsa::RsaPrivateKey,
    message: Seq<char>,
) -> bool {
    match r {
        Ok(text) => balanced(factor_sizes(key)) && is_signature(text, key, message),
        Err(SignRefusal::Unbalanced) => !balanced(factor_sizes(key)),
        Err(SignRefusal::Signer) => balanced(factor_sizes(key)),
    }
}

/// The outcome of signing, its text by its characters.
pub open spec fn outcome_view(r: Result<String, SignRefusal>) -> Result<Seq<char>, SignRefusal> {
    match r {
        Ok(text) => Ok(text@),
        Err(e) => Err(e),
    }
}

/// Signs a request. A key whose second factor is much longer than its first is
/// refused. Whether any other key signs rests with the key and the signer, and
/// no clause says so.
pub fn sign_request(key: &rsa::RsaPrivateKey, timestamp_ms: &str, method: &str, path: &str) -> (r:
    Result<String, SignRefusal>)
    ensures
        signing_outcome(outcome_view(r), *key, signed_text(timestamp_ms@, method@, path@)),
{
    let sizes = read_factor_sizes(key);
    if sizes.len() < 2 || (sizes[1] > sizes[0] && sizes[1] - sizes[0] > SIZE_GAP) {
        return Err(SignRefusal::Unbalanced);
    }
    let message = signing_message(timestamp_ms, method, path);
    signature_text(sign_pss(key, message.as_str()))
}

/// A signature does not depend on the query: two paths that differ only
/// behind the question mark sign the same text.
pub proof fn law_signature_ignores_the_query(
    timestamp: Seq<char>,
    method: Seq<char>,
    path: Seq<char>,
    query: Seq<char>,
)
    requires
        forall|i: int| 0 <= i < path.len() ==> path[i] != '?',
    ensures
        signed_text(timestamp, method, path + seq!['?'] + query) == signed_text(
            timestamp,
            method,
            path,
        ),
        signed_text(timestamp, method, path) == timestamp + method + path,
{
    let full = path + seq!['?'] + query;
    crate::text::lemma_find_from(full, '?', 0);
    crate::text::lemma_find_from(path, '?', 0);
    let k = find_from(full, '?', 0);
    let n = path.len() as int;
    assert(full[n] == '?');
    if k < n {
        assert(full[k] == path[k]);
    }
    assert(k == n);
    assert(full.take(n) =~= path);
    assert(path.take(n) =~= path);
    assert(find_from(path, '?', 0) == n);
}

// --- prices ------------------------------------------------------------------

/// A size in hundredths or thousandths, as a plain numeral.
pub open spec fn fixed_numeral(units: nat, places: nat) -> Seq<char> {
    let whole = if places == 2 {
        100nat
    } else {
        1000nat
    };
    decimal(units / whole) + "."@ + padded(units % whole, places)
}

/// A price in whole cents.
pub open spec fn in_cents(price: int) -> bool {
    round_even(price, 10_000_000) * 10_000_000 == price
}

/// A price as the exchange writes it: two decimals for whole cents, three for
/// any other price.
pub open spec fn price_text(price: int) -> Seq<char> {
    let size = magnitude(price);
    let numeral = if in_cents(price) {
        fixed_numeral((size / 10_000_000) as nat, 2)
    } else {
        fixed_numeral(round_even(size, 1_000_000) as nat, 3)
    };
    if price < 0 {
        "-"@ + numeral
    } else {
        numeral
    }
}

/// Writes a size in hundredths or thousandths.
fn write_fixed(units: u128, places: u32) -> (r: String)
    requires
        places == 2 || places == 3,
    ensures
        r@ == fixed_numeral(units as nat, places as nat),
{
    let whole: u128 = if places == 2 {
        100
    } else {
        1000
    };
    let left = numeral(units / whole);
    let right = padded_numeral(units % whole, places);
    join3(left.as_str(), ".", right.as_str())
}

/// Writes a price in billionths of a dollar as the exchange does.
pub fn format_price(dollars: i64) -> (r: String)
    ensures
        r@ == price_text(dollars as int),
{
    let size: i128 = if dollars < 0 {
        -(dollars as i128)
    } else {
        dollars as i128
    };
    let cents: i128 = div_even(dollars as i128, 10_000_000);
    let text = if cents * 10_000_000 == dollars as i128 {
        write_fixed((size / 10_000_000) as u128, 2)
    } else {
        let thousandths: i128 = div_even(size, 1_000_000);
        write_fixed(thousandths as u128, 3)
    };
    if dollars < 0 {
        join2("-", text.as_str())
    } else {
        text
    }
}

// --- requests ----------------------------------------------------------------

/// One parameter of a query.
#[verifier::ext_equal]
pub struct ParamView {
    pub key: Seq<char>,
    pub value: Seq<char>,
}

/// The body of an order.
#[derive(Debug, Clone)]
pub struct OrderBody {
    pub ticker: String,
    /// "bid" or "ask".
    pub side: String,
    pub price: String,
    pub count: String,
    pub time_in_force: String,
    pub self_trade_prevention_type: String,
    pub post_only: bool,
    pub client_order_id: String,
}

/// A request that is yet to be signed and sent.
#[derive(Debug, Clone)]
pub struct Call {
    /// "GET", "POST" or "DELETE".
    pub method: String,
    /// The path below the base path.
    pub endpoint: String,
    pub params: Vec<(String, String)>,
    pub body: Option<OrderBody>,
}

/// A request that is ready to be sent.
#[derive(Debug, Clone)]
pub struct SignedCall {
    pub method: String,
    pub url: String,
    pub api_key: String,
    pub signature: String,
    pub timestamp: String,
    pub body: Option<OrderBody>,
}

/// Parameters by what they hold.
pub open spec fn params_view(params: Seq<(String, String)>) -> Seq<ParamView> {
    params.map_values(|p: (String, String)| ParamView { key: p.0@, value: p.1@ })
}

/// The query of some parameters: `key=value`, joined by `&`.
pub open spec fn query_of(params: Seq<ParamView>) -> Seq<char>
    decreases params.len(),
{
    if params.len() == 0 {
        seq![]
    } else {
        let last = params.last().key + "="@ + params.last().value;
        if params.len() == 1 {
            last
        } else {
            query_of(params.drop_last()) + "&"@ + last
        }
    }
}

/// The URL of a request.
pub open spec fn url_of(base: Seq<char>, endpoint: Seq<char>, params: Seq<ParamView>) -> Seq<char> {
    if params.len() == 0 {
        base + endpoint
    } else {
        base + endpoint + "?"@ + query_of(params)
    }
}

/// One parameter, where there is a value for it.
pub open spec fn optional(key: Seq<char>, value: Option<&str>) -> Seq<ParamView> {
    match value {
        Some(v) => seq![ParamView { key, value: v@ }],
        None => seq![],
    }
}

/// One parameter with a number.
pub open spec fn counted(key: Seq<char>, value: int) -> Seq<ParamView> {
    seq![ParamView { key, value: signed_decimal(value) }]
}

/// A call that only reads.
pub open spec fn reads(call: Call, endpoint: Seq<char>, params: Seq<ParamView>) -> bool {
    &&& call.method@ == "GET"@
    &&& call.endpoint@ == endpoint
    &&& params_view(call.params@) == params
    &&& call.body is None
}

fn query_text(params: &Vec<(String, String)>) -> (r: String)
    ensures
        r@ == query_of(params_view(params@)),
{
    let mut out = String::new();
    let ghost all = params_view(params@);
    assert(out@ =~= query_of(all.take(0)));
    let mut i: usize = 0;
    while i < params.len()
        invariant
            i <= params.len(),
            all == params_view(params@),
            out@ == query_of(all.take(i as int)),
        decreases params.len() - i,
    {
        proof {
            assert(all.take(i + 1).drop_last() =~= all.take(i as int));
            assert(all.take(i + 1).last() == all[i as int]);
            assert(all[i as int].key == params@[i as int].0@);
            assert(all[i as int].value == params@[i as int].1@);
        }
        let one = join3(params[i].0.as_str(), "=", params[i].1.as_str());
        if i == 0 {
            out = one;
        } else {
            out = join3(out.as_str(), "&", one.as_str());
        }
        i += 1;
    }
    assert(all.take(all.len() as int) =~= all);
    out
}

/// A call that only reads.
fn read_call(endpoint: String, params: Vec<(String, String)>) -> (r: Call)
    ensures
        reads(r, endpoint@, params_view(params@)),
{
    Call { method: "GET".to_string(), endpoint, params, body: None }
}

fn push_text(params: &mut Vec<(String, String)>, key: &str, value: Option<&str>)
    ensures
        params_view(final(params)@) == params_view(old(params)@) + optional(key@, value),
{
    let ghost before = params_view(params@);
    match value {
        Some(v) => params.push((key.to_string(), v.to_string())),
        None => {},
    }
    assert(params_view(params@) =~= before + optional(key@, value));
}

fn push_number(params: &mut Vec<(String, String)>, key: &str, value: i64)
    ensures
        params_view(final(params)@) == params_view(old(params)@) + counted(key@, value as int),
{
    let ghost before = params_view(params@);
    params.push((key.to_string(), signed_numeral(value)));
    assert(params_view(params@) =~= before + counted(key@, value as int));
}

fn no_params() -> (r: Vec<(String, String)>)
    ensures
        params_view(r@) == Seq::<ParamView>::empty(),
{
    let r: Vec<(String, String)> = Vec::new();
    assert(params_view(r@) =~= Seq::<ParamView>::empty());
    r
}

/// A text without the slashes at its end.
pub open spec fn without_slashes(s: Seq<char>) -> Seq<char>
    decreases s.len(),
{
    if s.len() > 0 && s.last() == '/' {
        without_slashes(s.drop_last())
    } else {
        s
    }
}

/// Drops the slashes at the end of a text.
fn trim_slashes(s: &str) -> (r: String)
    ensures
        r@ == without_slashes(s@),
{
    let chars = chars_of(s);
    let mut n: usize = chars.len();
    assert(s@.take(n as int) =~= s@);
    while n > 0 && chars[n - 1] == '/'
        invariant
            n <= chars.len(),
            chars@ == s@,
            without_slashes(s@) == without_slashes(s@.take(n as int)),
        decreases n,
    {
        assert(s@.take(n as int).drop_last() =~= s@.take(n - 1));
        assert(s@.take(n as int).last() == chars@[n - 1]);
        n = n - 1;
    }
    proof {
        if n > 0 {
            assert(s@.take(n as int).last() == chars@[n - 1]);
        }
        assert(s@.take(n as int) =~= s@.subrange(0, n as int));
    }
    text_of(&chars, 0, n)
}

/// One account at one address of the exchange.
pub struct KalshiClient {
    base_url: String,
    base_path: String,
    api_key: String,
    key: rsa::RsaPrivateKey,
}

impl KalshiClient {
    /// The address, without slashes at its end.
    pub closed spec fn url(&self) -> Seq<char> {
        self.base_url@
    }

    /// The path of the address, which every signature covers.
    pub closed spec fn path(&self) -> Seq<char> {
        self.base_path@
    }

    /// The id of the key.
    pub closed spec fn key_id(&self) -> Seq<char> {
        self.api_key@
    }

    /// The private key.
    pub closed spec fn private_key(&self) -> rsa::RsaPrivateKey {
        self.key
    }

    /// An account, from the id of its key, the PEM text of the key and the
    /// address. The key is read first.
    pub fn new(api_key: &str, pem: &str, base_url: &str) -> (r: Result<Self, ApiError>)
        ensures
            match r {
                Ok(client) => {
                    &&& client.key_id() == api_key@
                    &&& key_in(pem@) == Some(client.private_key())
                    &&& client.url() == without_slashes(base_url@)
                    &&& url_path(without_slashes(base_url@)) == Some(client.path())
                },
                Err(e) => if key_in(pem@) is None {
                    e.0@ == "parsing RSA private key (PKCS#8/PKCS#1 PEM)"@
                } else {
                    url_path(without_slashes(base_url@)) is None && e.0@ == "parsing base_url"@
                },
            },
    {
        let key = match load_private_key(pem) {
            Ok(key) => key,
            Err(e) => {
                return Err(e);
            },
        };
        let address = trim_slashes(base_url);
        match parse_url_path(address.as_str()) {
            Some(base_path) => Ok(
                KalshiClient { base_url: address, base_path, api_key: api_key.to_string(), key },
            ),
            None => Err(ApiError("parsing base_url".to_string())),
        }
    }

    /// Signs a request.
    pub fn sign(&self, timestamp_ms: &str, method: &str, path: &str) -> (r: Result<
        String,
        SignRefusal,
    >)
        ensures
            signing_outcome(
                outcome_view(r),
                self.private_key(),
                signed_text(timestamp_ms@, method@, path@),
            ),
    {
        sign_request(&self.key, timestamp_ms, method, path)
    }

    /// A call with its signature, ready to be sent, where there is a signature.
    pub fn signed(
        &self,
        call: Call,
        timestamp_ms: &str,
        signature: Result<String, SignRefusal>,
    ) -> (r: Result<SignedCall, SignRefusal>)
        ensures
            match signature {
                Ok(text) => r matches Ok(sent) && {
                    &&& sent.method == call.method
                    &&& sent.url@ == url_of(self.url(), call.endpoint@, params_view(call.params@))
                    &&& sent.api_key@ == self.key_id()
                    &&& sent.signature == text
                    &&& sent.timestamp@ == timestamp_ms@
                    &&& sent.body == call.body
                },
                Err(e) => r matches Err(why) && why == e,
            },
    {
        let signature = match signature {
            Ok(text) => text,
            Err(e) => {
                return Err(e);
            },
        };
        let bare = join2(self.base_url.as_str(), call.endpoint.as_str());
        let url = if call.params.len() == 0 {
            bare
        } else {
            let query = query_text(&call.params);
            join3(bare.as_str(), "?", query.as_str())
        };
        Ok(
            SignedCall {
                method: call.method,
                url,
                api_key: self.api_key.clone(),
                signature,
                timestamp: timestamp_ms.to_string(),
                body: call.body,
            },
        )
    }

    /// Signs a call, so that it can be sent. The signature covers the base
    /// path and the endpoint, and not the query.
    pub fn request(&self, call: Call, timestamp_ms: &str) -> (r: Result<SignedCall, SignRefusal>)
        ensures
            signing_outcome(
                match r {
                    Ok(sent) => Ok(sent.signature@),
                    Err(e) => Err(e),
                },
                self.private_key(),
                signed_text(timestamp_ms@, call.method@, self.path() + call.endpoint@),
            ),
            r matches Ok(sent) ==> {
                &&& sent.method == call.method
                &&& sent.url@ == url_of(self.url(), call.endpoint@, params_view(call.params@))
                &&& sent.api_key@ == self.key_id()
                &&& sent.timestamp@ == timestamp_ms@
                &&& sent.body == call.body
            },
    {
        let path = join2(self.base_path.as_str(), call.endpoint.as_str());
        let signature = self.sign(timestamp_ms, call.method.as_str(), path.as_str());
        self.signed(call, timestamp_ms, signature)
    }

    /// The markets of a series.
    pub fn get_markets(
        series_ticker: Option<&str>,
        status: Option<&str>,
        limit: u32,
        cursor: Option<&str>,
    ) -> (r: Call)
        ensures
            reads(
                r,
                "/markets"@,
                counted("limit"@, limit as int) + optional("cursor"@, cursor) + optional(
                    "series_ticker"@,
                    series_ticker,
                ) + optional("status"@, status),
            ),
    {
        let mut params = no_params();
        push_number(&mut params, "limit", limit as i64);
        push_text(&mut params, "cursor", cursor);
        push_text(&mut params, "series_ticker", series_ticker);
        push_text(&mut params, "status", status);
        assert(Seq::<ParamView>::empty() + counted("limit"@, limit as int) =~= counted(
            "limit"@,
            limit as int,
        ));
        read_call("/markets".to_string(), params)
    }

    /// One market.
    pub fn get_market(ticker: &str) -> (r: Call)
        ensures
            reads(r, "/markets/"@ + ticker@, Seq::empty()),
    {
        read_call(join2("/markets/", ticker), no_params())
    }

    /// The order book of one market.
    pub fn get_orderbook(ticker: &str, depth: u32) -> (r: Call)
        ensures
            reads(
                r,
                "/markets/"@ + ticker@ + "/orderbook"@,
                counted("depth"@, depth as int),
            ),
    {
        let mut params = no_params();
        push_number(&mut params, "depth", depth as i64);
        assert(params_view(params@) =~= counted("depth"@, depth as int));
        read_call(join3("/markets/", ticker, "/orderbook"), params)
    }

    /// The account's positions.
    pub fn get_positions() -> (r: Call)
        ensures
            reads(r, "/portfolio/positions"@, Seq::empty()),
    {
        read_call("/portfolio/positions".to_string(), no_params())
    }

    /// The account's fills since a time, in seconds.
    pub fn get_fills(min_ts: i64, limit: u32, cursor: Option<&str>, ticker: Option<&str>) -> (r: Call)
        ensures
            reads(
                r,
                "/portfolio/fills"@,
                counted("limit"@, limit as int) + counted("min_ts"@, min_ts as int) + optional(
                    "cursor"@,
                    cursor,
                ) + optional("ticker"@, ticker),
            ),
    {
        let mut params = no_params();
        push_number(&mut params, "limit", limit as i64);
        push_number(&mut params, "min_ts", min_ts);
        push_text(&mut params, "cursor", cursor);
        push_text(&mut params, "ticker", ticker);
        assert(Seq::<ParamView>::empty() + counted("limit"@, limit as int) =~= counted(
            "limit"@,
            limit as int,
        ));
        read_call("/portfolio/fills".to_string(), params)
    }

    /// The newest settlements of the account.
    pub fn get_settlements(limit: u32) -> (r: Call)
        ensures
            reads(r, "/portfolio/settlements"@, counted("limit"@, limit as int)),
    {
        let mut params = no_params();
        push_number(&mut params, "limit", limit as i64);
        assert(params_view(params@) =~= counted("limit"@, limit as int));
        read_call("/portfolio/settlements".to_string(), params)
    }

    /// The account's orders.
    pub fn get_orders(status: Option<&str>, limit: u32) -> (r: Call)
        ensures
            reads(
                r,
                "/portfolio/orders"@,
                counted("limit"@, limit as int) + optional("status"@, status),
            ),
    {
        let mut params = no_params();
        push_number(&mut params, "limit", limit as i64);
        push_text(&mut params, "status", status);
        assert(Seq::<ParamView>::empty() + counted("limit"@, limit as int) =~= counted(
            "limit"@,
            limit as int,
        ));
        read_call("/portfolio/orders".to_string(), params)
    }

    /// A limit order. A buy is a bid and any other side an ask; the price is in
    /// tenths of a cent.
    pub fn place_limit_order(
        ticker: &str,
        side: &str,
        price_cents: i64,
        size: i64,
        post_only: bool,
        time_in_force: &str,
        now_ms: i64,
    ) -> (r: Call)
        ensures
            r.method@ == "POST"@,
            r.endpoint@ == "/portfolio/events/orders"@,
            params_view(r.params@) == Seq::<ParamView>::empty(),
            r.body matches Some(b) && {
                &&& b.ticker@ == ticker@
                &&& b.side@ == if side@ == "buy"@ {
                    "bid"@
                } else {
                    "ask"@
                }
                &&& b.price@ == price_text(clamp64(price_cents * 1_000_000))
                &&& b.count@ == signed_decimal(size as int) + ".00"@
                &&& b.time_in_force@ == time_in_force@
                &&& b.self_trade_prevention_type@ == "taker_at_cross"@
                &&& b.post_only == post_only
                &&& b.client_order_id@ == "mm_"@ + signed_decimal(now_ms as int)
            },
    {
        let side_name = if same(side, "buy") {
            "bid"
        } else {
            "ask"
        };
        let contracts = signed_numeral(size);
        let stamp = signed_numeral(now_ms);
        let body = OrderBody {
            ticker: ticker.to_string(),
            side: side_name.to_string(),
            price: format_price(to_i64(price_cents as i128 * 1_000_000)),
            count: join2(contracts.as_str(), ".00"),
            time_in_force: time_in_force.to_string(),
            self_trade_prevention_type: "taker_at_cross".to_string(),
            post_only,
            client_order_id: join2("mm_", stamp.as_str()),
        };
        Call {
            method: "POST".to_string(),
            endpoint: "/portfolio/events/orders".to_string(),
            params: no_params(),
            body: Some(body),
        }
    }

    /// The cancellation of an order.
    pub fn cancel_order(order_id: &str) -> (r: Call)
        ensures
            r.method@ == "DELETE"@,
            r.endpoint@ == "/portfolio/events/orders/"@ + order_id@,
            params_view(r.params@) == Seq::<ParamView>::empty(),
            r.body is None,
    {
        Call {
            method: "DELETE".to_string(),
            endpoint: join2("/portfolio/events/orders/", order_id),
            params: no_params(),
            body: None,
        }
    }
}

// --- replies -----------------------------------------------------------------

/// What a reply comes to: the value in it, or the status and the text where
/// the exchange refused, or the reader's message where the text is no JSON.
pub open spec fn reply_of(success: bool, status: Seq<char>, text: Seq<char>) -> Result<
    JsonView,
    Seq<char>,
> {
    if !success {
        Err(status + " - Response: "@ + text)
    } else {
        match parsed(text) {
            Ok(v) => Ok(v),
            Err(e) => Err("bad JSON: "@ + e),
        }
    }
}

/// Reads a reply. The text of a refusal is kept, since it says why.
pub fn read_reply(success: bool, status: &str, text: &str) -> (r: Result<Json, ApiError>)
    ensures
        match r {
            Ok(v) => reply_of(success, status@, text@) == Ok::<JsonView, Seq<char>>(v@),
            Err(e) => reply_of(success, status@, text@) == Err::<JsonView, Seq<char>>(e.0@),
        },
{
    if !success {
        return Err(ApiError(join3(status, " - Response: ", text)));
    }
    match Json::from_text(text) {
        Ok(v) => Ok(v),
        Err(e) => Err(ApiError(join2("bad JSON: ", e.as_str()))),
    }
}

/// The ids of the first `n` orders that have one.
pub open spec fn order_ids_of(orders: Seq<JsonView>) -> Seq<Seq<char>>
    decreases orders.len(),
{
    if orders.len() == 0 {
        seq![]
    } else {
        let before = order_ids_of(orders.drop_last());
        match orders.last().text_field("order_id"@) {
            Some(id) => before.push(id),
            None => before,
        }
    }
}

/// The orders that a reply lists; none where it has no list.
pub open spec fn listed_orders(reply: JsonView) -> Seq<JsonView> {
    match reply.array_field("orders"@) {
        Some(orders) => orders,
        None => seq![],
    }
}

/// The ids of the orders in a reply, which are canceled one by one to cancel
/// them all.
pub fn resting_order_ids(reply: &Json) -> (r: Vec<String>)
    ensures
        r@.map_values(|s: String| s@) == order_ids_of(listed_orders(reply@)),
{
    let mut out: Vec<String> = Vec::new();
    assert(out@.map_values(|s: String| s@) =~= Seq::<Seq<char>>::empty());
    let list = match reply.get("orders") {
        Some(v) => v.as_items(),
        None => None,
    };
    match list {
        Some(orders) => {
            let ghost all = listed_orders(reply@);
            assert(all.take(0) =~= Seq::<JsonView>::empty());
            let mut i: usize = 0;
            while i < orders.len()
                invariant
                    i <= orders.len(),
                    all.len() == orders@.len(),
                    forall|k: int| 0 <= k < orders@.len() ==> (#[trigger] orders@[k])@ == all[k],
                    out@.map_values(|s: String| s@) == order_ids_of(all.take(i as int)),
                decreases orders.len() - i,
            {
                proof {
                    assert(all.take(i + 1).drop_last() =~= all.take(i as int));
                    assert(all.take(i + 1).last() == all[i as int]);
                    assert(orders@[i as int]@ == all[i as int]);
                }
                let ghost before = out@.map_values(|s: String| s@);
                match orders[i].get_text("order_id") {
                    Some(id) => {
                        out.push(id.to_string());
                        assert(out@.map_values(|s: String| s@) =~= before.push(id@));
                    },
                    None => {},
                }
                i += 1;
            }
            assert(all.take(all.len() as int) =~= all);
        },
        None => {},
    }
    out
}

} // verus!
