//! What the trader knows of each market and of the account, and how fills and
//! settlements are booked.

use std::collections::VecDeque;

use vstd::hash_set::StringHashSet;
use vstd::prelude::*;

use crate::book::{ceil_cent_fee, fee_of, Book, TradePrint, MD_NANO};
use crate::json::{seen, Json, JsonView};
use crate::num::{
    abs64, add128, add64, bump, clamp, clamp128, clamp64, div_even, magnitude, number_text, round_even,
    round_whole, to_i64, whole_even, write_number, Num, NANO,
};
use crate::table::Table;
use crate::text::{join3, same};

verus! {

/// How many fill ids are remembered.
pub const FILL_ID_CAP: usize = 20_000;

/// How many trades the log holds.
pub const TRADE_LOG_CAP: usize = 10_000;

/// The usual price step, a cent in billionths of a dollar.
pub const PENNY: i64 = 10_000_000;

/// The fee of a fill, rounded up to the next cent.
pub fn fill_fee(rate: i64, contracts: i64, price_yes: i64) -> (r: i64)
    ensures
        r == fee_of(rate as int, contracts as int, price_yes as int),
{
    ceil_cent_fee(rate, contracts, price_yes)
}

// --- fills -------------------------------------------------------------------

/// One exchange fill in YES terms.
#[derive(Debug, Clone)]
pub struct NormalizedFill {
    pub fill_id: String,
    pub ticker: String,
    /// True where the fill made us longer YES.
    pub long_yes: bool,
    /// The YES price in billionths of a dollar.
    pub price_yes: i64,
    /// Whole contracts.
    pub size: i64,
    pub is_taker: bool,
    pub order_id: Option<String>,
}

/// A fill by what it holds.
#[verifier::ext_equal]
pub struct FillView {
    pub fill_id: Seq<char>,
    pub ticker: Seq<char>,
    pub long_yes: bool,
    pub price_yes: int,
    pub size: int,
    pub is_taker: bool,
    pub order_id: Option<Seq<char>>,
}

/// An optional text by its characters.
pub open spec fn text_view(v: Option<String>) -> Option<Seq<char>> {
    match v {
        Some(s) => Some(s@),
        None => None,
    }
}

impl View for NormalizedFill {
    type V = FillView;

    open spec fn view(&self) -> FillView {
        FillView {
            fill_id: self.fill_id@,
            ticker: self.ticker@,
            long_yes: self.long_yes,
            price_yes: self.price_yes as int,
            size: self.size as int,
            is_taker: self.is_taker,
            order_id: text_view(self.order_id),
        }
    }
}

/// A field that holds a number, or text to be read as one.
pub open spec fn is_numeric(v: Option<JsonView>) -> bool {
    match v {
        Some(JsonView::Number(_)) => true,
        Some(JsonView::Text(_)) => true,
        _ => false,
    }
}

/// The number in the first of two fields that holds a number or text.
pub open spec fn number_of(v: JsonView, a: Seq<char>, b: Seq<char>) -> Option<Num> {
    if is_numeric(v.field(a)) {
        v.field(a)->Some_0.number()
    } else if is_numeric(v.field(b)) {
        v.field(b)->Some_0.number()
    } else {
        None
    }
}

/// The text of the first of two fields that holds text, unless it is empty.
pub open spec fn text_of(v: JsonView, a: Seq<char>, b: Seq<char>) -> Option<Seq<char>> {
    let found = match v.text_field(a) {
        Some(s) => Some(s),
        None => v.text_field(b),
    };
    match found {
        Some(s) => if s.len() == 0 {
            None
        } else {
            Some(s)
        },
        None => None,
    }
}

/// The text of a field, empty where it holds none.
pub open spec fn text_or_empty(v: JsonView, key: Seq<char>) -> Seq<char> {
    match v.text_field(key) {
        Some(s) => s,
        None => seq![],
    }
}

/// A price in billionths of a dollar; a missing one is zero, and one that is
/// not finite is none.
pub open spec fn price_of(v: Option<Num>) -> Option<int> {
    match v {
        None => Some(0int),
        Some(Num::Finite(n)) => Some(n as int),
        Some(_) => None,
    }
}

/// The YES price that a fill states: the yes price itself, or one dollar less
/// the no price.
pub open spec fn fill_price(v: JsonView) -> Option<int> {
    if text_or_empty(v, "side"@) == "yes"@ {
        match price_of(number_of(v, "yes_price_dollars"@, "yes_price"@)) {
            Some(p) => Some(clamp64(p)),
            None => None,
        }
    } else {
        match price_of(number_of(v, "no_price_dollars"@, "no_price"@)) {
            Some(p) => Some(clamp64(NANO - p)),
            None => None,
        }
    }
}

/// The number is one whole unit or more.
pub open spec fn at_least_one(n: Num) -> bool {
    match n {
        Num::Finite(v) => v >= NANO,
        Num::Infinite(negative) => !negative,
        Num::NotANumber => false,
    }
}

/// The contracts that a fill states: the nearest whole count, halves to the
/// even one, none where less than one is stated, and one where no count is.
pub open spec fn fill_size(v: JsonView) -> int {
    match number_of(v, "count_fp"@, "count"@) {
        Some(n) => if at_least_one(n) {
            whole_even(n)
        } else {
            0
        },
        None => 1,
    }
}

/// The id that a fill states, or one made of its order and its time.
pub open spec fn fill_id(v: JsonView) -> Seq<char> {
    match text_of(v, "trade_id"@, "fill_id"@) {
        Some(id) => id,
        None => text_or_empty(v, "order_id"@) + "-"@ + number_text(
            match number_of(v, "ts"@, "ts"@) {
                Some(n) => n,
                None => Num::Finite(0),
            },
        ),
    }
}

/// The fill that an entry of the fills list states. The action alone gives
/// the direction, and the side only says which price to read. None where the
/// entry is malformed or states less than one contract.
pub open spec fn fill_in(v: JsonView) -> Option<FillView> {
    let action = text_or_empty(v, "action"@);
    let side = text_or_empty(v, "side"@);
    match (text_of(v, "market_ticker"@, "ticker"@), fill_price(v)) {
        (Some(ticker), Some(price)) => if (action == "buy"@ || action == "sell"@) && (side
            == "yes"@ || side == "no"@) && fill_size(v) > 0 {
            Some(
                FillView {
                    fill_id: fill_id(v),
                    ticker,
                    long_yes: action == "buy"@,
                    price_yes: price,
                    size: fill_size(v),
                    is_taker: v.field("is_taker"@) is Some && v.field("is_taker"@)->Some_0.flag()
                        == Some(true),
                    order_id: v.text_field("order_id"@),
                },
            )
        } else {
            None
        },
        _ => None,
    }
}

/// The number in the first of two fields that holds a number or text.
fn num_field(v: &Json, a: &str, b: &str) -> (r: Option<Num>)
    ensures
        r == number_of(v@, a@, b@),
{
    match v.get(a) {
        Some(Json::Number(s)) => return crate::num::parse_number(s.as_str()),
        Some(Json::Text(s)) => return crate::num::parse_number(s.as_str()),
        _ => {},
    }
    match v.get(b) {
        Some(Json::Number(s)) => crate::num::parse_number(s.as_str()),
        Some(Json::Text(s)) => crate::num::parse_number(s.as_str()),
        _ => None,
    }
}

/// The text of the first of two fields that holds text, unless it is empty.
fn str_field<'a>(v: &'a Json, a: &str, b: &str) -> (r: Option<&'a str>)
    ensures
        match r {
            Some(s) => text_of(v@, a@, b@) == Some(s@),
            None => text_of(v@, a@, b@) is None,
        },
{
    let found = match v.get_text(a) {
        Some(s) => Some(s),
        None => v.get_text(b),
    };
    match found {
        Some(s) => if is_empty(s) {
            None
        } else {
            Some(s)
        },
        None => None,
    }
}

/// True for the empty text.
pub fn is_empty(s: &str) -> (r: bool)
    ensures
        r == (s@.len() == 0),
{
    s.unicode_len() == 0
}

/// The text of a field, empty where it holds none.
fn text_or<'a>(v: &'a Json, key: &str) -> (r: &'a str)
    ensures
        r@ == text_or_empty(v@, key@),
{
    match v.get_text(key) {
        Some(s) => s,
        None => {
            proof {
                reveal_strlit("");
                assert(""@ =~= seq![]);
            }
            ""
        },
    }
}

/// The YES price that a fill states.
fn read_price(fill: &Json, yes: bool) -> (r: Option<i64>)
    requires
        yes == (text_or_empty(fill@, "side"@) == "yes"@),
    ensures
        match r {
            Some(p) => fill_price(fill@) == Some(p as int),
            None => fill_price(fill@) is None,
        },
{
    let stated = if yes {
        num_field(fill, "yes_price_dollars", "yes_price")
    } else {
        num_field(fill, "no_price_dollars", "no_price")
    };
    let price: i128 = match stated {
        None => 0,
        Some(Num::Finite(n)) => n,
        Some(_) => {
            return None;
        },
    };
    if yes {
        Some(to_i64(price))
    } else if price <= i64::MIN as i128 {
        Some(i64::MAX)
    } else {
        Some(to_i64(NANO as i128 - price))
    }
}

/// True for one whole unit or more.
fn is_one_or_more(n: Num) -> (r: bool)
    ensures
        r == at_least_one(n),
{
    match n {
        Num::Finite(v) => v >= NANO as i128,
        Num::Infinite(negative) => !negative,
        Num::NotANumber => false,
    }
}

/// Reads an entry of the fills list.
pub fn normalize_fill(fill: &Json) -> (r: Option<NormalizedFill>)
    ensures
        match r {
            Some(nf) => fill_in(fill@) == Some(nf@),
            None => fill_in(fill@) is None,
        },
{
    let ticker = match str_field(fill, "market_ticker", "ticker") {
        Some(t) => t,
        None => {
            return None;
        },
    };
    let action = text_or(fill, "action");
    let side = text_or(fill, "side");
    let buys = same(action, "buy");
    let yes = same(side, "yes");
    if !(buys || same(action, "sell")) || !(yes || same(side, "no")) {
        return None;
    }
    let price_yes: i64 = match read_price(fill, yes) {
        Some(p) => p,
        None => {
            return None;
        },
    };
    let size: i64 = match num_field(fill, "count_fp", "count") {
        Some(n) => if is_one_or_more(n) {
            round_whole(n)
        } else {
            0
        },
        None => 1,
    };
    if size <= 0 {
        return None;
    }
    let order_id = match fill.get_text("order_id") {
        Some(s) => Some(s.to_string()),
        None => None,
    };
    let fill_id = match str_field(fill, "trade_id", "fill_id") {
        Some(s) => s.to_string(),
        None => {
            let ts = match num_field(fill, "ts", "ts") {
                Some(n) => n,
                None => Num::Finite(0),
            };
            let stamp = write_number(ts);
            join3(text_or(fill, "order_id"), "-", stamp.as_str())
        },
    };
    let is_taker = match fill.get("is_taker") {
        Some(v) => match v.as_bool() {
            Some(b) => b,
            None => false,
        },
        None => false,
    };
    let nf = NormalizedFill {
        fill_id,
        ticker: ticker.to_string(),
        long_yes: buys,
        price_yes,
        size,
        is_taker,
        order_id,
    };
    assert(fill_in(fill@)->Some_0 =~= nf@);
    Some(nf)
}

// --- entry prices ------------------------------------------------------------

/// The two positions are both long, or neither is.
pub open spec fn same_side(a: int, b: int) -> bool {
    (a > 0) == (b > 0)
}

/// The entry price after a fill took the position from `old` to `new`:
/// cleared when flat, the fill's price when opened or flipped, the weighted
/// average when extended, and unchanged when reduced.
pub open spec fn folded_entry(
    old: int,
    new: int,
    entry: Option<i64>,
    size: int,
    price: i64,
) -> Option<i64> {
    if new == 0 {
        None
    } else if old == 0 || !same_side(old, new) {
        Some(price)
    } else if magnitude(new) > magnitude(old) {
        Some(
            clamp64(
                round_even(
                    magnitude(old) * entry.unwrap_or(price) + size * price,
                    magnitude(new),
                ),
            ) as i64,
        )
    } else {
        entry
    }
}

/// The entry price after one fill.
fn fold_entry_price(old_inv: i64, new_inv: i64, entry_before: Option<i64>, size: i64, price: i64) -> (r:
    Option<i64>)
    ensures
        r == folded_entry(old_inv as int, new_inv as int, entry_before, size as int, price),
{
    if new_inv == 0 {
        None
    } else if old_inv == 0 || (old_inv > 0) != (new_inv > 0) {
        Some(price)
    } else if abs64(new_inv) > abs64(old_inv) {
        let entry: i64 = match entry_before {
            Some(e) => e,
            None => price,
        };
        let held: i128 = abs64(old_inv);
        proof {
            lemma_product_range(held as int, entry as int);
            lemma_product_range(size as int, price as int);
        }
        let value: i128 = held * entry as i128;
        let added: i128 = size as i128 * price as i128;
        Some(to_i64(div_even(value + added, abs64(new_inv))))
    } else {
        entry_before
    }
}

/// A product of two values of 64 bits fits twice over, unless both are at the
/// far end.
pub proof fn lemma_product_range(a: int, b: int)
    requires
        i64::MIN <= a <= 0x8000_0000_0000_0000,
        i64::MIN <= b <= i64::MAX,
    ensures
        -0x4000_0000_0000_0000_0000_0000_0000_0000 <= a * b
            <= 0x4000_0000_0000_0000_0000_0000_0000_0000,
        a >= 0 ==> a * b <= 0x4000_0000_0000_0000_0000_0000_0000_0000 - a,
{
    if a >= 0 {
        assert(a * b <= 0x4000_0000_0000_0000_0000_0000_0000_0000 - a) by (nonlinear_arith)
            requires
                0 <= a <= 0x8000_0000_0000_0000,
                b <= 0x7fff_ffff_ffff_ffff,
        ;
    }
    assert(-0x4000_0000_0000_0000_0000_0000_0000_0000 <= a * b
        <= 0x4000_0000_0000_0000_0000_0000_0000_0000) by (nonlinear_arith)
        requires
            -0x8000_0000_0000_0000 <= a <= 0x8000_0000_0000_0000,
            -0x8000_0000_0000_0000 <= b <= 0x8000_0000_0000_0000,
    ;
}

/// The change of position that a fill makes.
pub open spec fn signed_size(long_yes: bool, size: int) -> int {
    if long_yes {
        size
    } else {
        -size
    }
}

/// The position after a fill.
pub open spec fn moved(position: int, long_yes: bool, size: int) -> int {
    clamp64(position + signed_size(long_yes, size))
}

/// The position after a fill.
fn move_position(position: i64, long_yes: bool, size: i64) -> (r: i64)
    ensures
        r == moved(position as int, long_yes, size as int),
{
    if long_yes {
        add64(position, size)
    } else {
        to_i64(position as i128 - size as i128)
    }
}

/// The position and the entry price after fills in the order given, from flat.
pub open spec fn replayed(fills: Seq<NormalizedFill>) -> (int, Option<i64>)
    decreases fills.len(),
{
    if fills.len() == 0 {
        (0, None)
    } else {
        let (position, entry) = replayed(fills.drop_last());
        let nf = fills.last();
        let new = moved(position, nf.long_yes, nf.size as int);
        (new, folded_entry(position, new, entry, nf.size as int, nf.price_yes))
    }
}

/// Rebuilds the position and the entry price of one market from its fills,
/// oldest first.
pub fn replay_entry_price(fills: &Vec<NormalizedFill>) -> (r: (i64, Option<i64>))
    ensures
        r.0 == replayed(fills@).0,
        r.1 == replayed(fills@).1,
{
    let mut position: i64 = 0;
    let mut entry: Option<i64> = None;
    let mut i: usize = 0;
    while i < fills.len()
        invariant
            i <= fills.len(),
            position == replayed(fills@.take(i as int)).0,
            entry == replayed(fills@.take(i as int)).1,
        decreases fills.len() - i,
    {
        proof {
            assert(fills@.take(i + 1).drop_last() =~= fills@.take(i as int));
            assert(fills@.take(i + 1).last() == fills@[i as int]);
        }
        let new: i64 = move_position(position, fills[i].long_yes, fills[i].size);
        entry = fold_entry_price(position, new, entry, fills[i].size, fills[i].price_yes);
        position = new;
        i += 1;
    }
    proof {
        assert(fills@.take(fills@.len() as int) =~= fills@);
    }
    (position, entry)
}

/// The contracts bought less those sold.
pub open spec fn net_size(fills: Seq<NormalizedFill>) -> int
    decreases fills.len(),
{
    if fills.len() == 0 {
        0
    } else {
        net_size(fills.drop_last()) + signed_size(fills.last().long_yes, fills.last().size as int)
    }
}

/// A replayed position is the contracts bought less those sold, as long as
/// that stays in range all the way.
pub proof fn law_replayed_position_is_the_net(fills: Seq<NormalizedFill>)
    requires
        forall|n: int|
            0 <= n <= fills.len() ==> i64::MIN <= #[trigger] net_size(fills.take(n)) <= i64::MAX,
    ensures
        replayed(fills).0 == net_size(fills),
    decreases fills.len(),
{
    if fills.len() > 0 {
        let rest = fills.drop_last();
        assert forall|n: int| 0 <= n <= rest.len() implies i64::MIN <= #[trigger] net_size(
            rest.take(n),
        ) <= i64::MAX by {
            assert(rest.take(n) =~= fills.take(n));
        }
        law_replayed_position_is_the_net(rest);
        assert(fills.take(fills.len() as int) =~= fills);
        assert(net_size(fills.take(fills.len() as int)) == net_size(fills));
    }
}

/// A flat replay has no entry price, and an open one has.
pub proof fn law_replayed_entry_exists_while_open(fills: Seq<NormalizedFill>)
    ensures
        replayed(fills).1 is Some <==> replayed(fills).0 != 0,
    decreases fills.len(),
{
    if fills.len() > 0 {
        law_replayed_entry_exists_while_open(fills.drop_last());
    }
}

// --- settlements -------------------------------------------------------------

/// What booking needs of a settlement record.
#[derive(Debug, Clone)]
pub struct NormalizedSettlement {
    pub ticker: String,
    /// True where the market settled yes, false where it settled no, and none
    /// for any other result.
    pub result_yes: Option<bool>,
}

/// The result that a settlement record states.
pub open spec fn result_in(v: JsonView) -> Option<bool> {
    match v.text_field("market_result"@) {
        Some(s) => if s == "yes"@ {
            Some(true)
        } else if s == "no"@ {
            Some(false)
        } else {
            None
        },
        None => None,
    }
}

/// The market that a settlement record names.
pub open spec fn settled_ticker(v: JsonView) -> Option<Seq<char>> {
    text_of(v, "ticker"@, "market_ticker"@)
}

/// Reads a settlement record; none where it names no market. The fees that
/// the record adds up were booked with the fills already, so they are left
/// alone.
pub fn normalize_settlement(rec: &Json) -> (r: Option<NormalizedSettlement>)
    ensures
        match r {
            Some(ns) => settled_ticker(rec@) == Some(ns.ticker@) && ns.result_yes == result_in(
                rec@,
            ),
            None => settled_ticker(rec@) is None,
        },
{
    let ticker = match str_field(rec, "ticker", "market_ticker") {
        Some(t) => t,
        None => {
            return None;
        },
    };
    let result_yes = match rec.get_text("market_result") {
        Some(s) => if same(s, "yes") {
            proof {
                reveal_strlit("yes");
                reveal_strlit("no");
            }
            Some(true)
        } else if same(s, "no") {
            Some(false)
        } else {
            None
        },
        None => None,
    };
    Some(NormalizedSettlement { ticker: ticker.to_string(), result_yes })
}

// --- one market --------------------------------------------------------------

/// Everything that is known of one market.
pub struct TickerState {
    pub category: String,
    pub book: Book,
    /// Signed contracts in YES terms.
    pub position: i64,
    /// The average entry price; none when flat.
    pub entry_price: Option<i64>,
    pub fills_buy: i64,
    pub fills_sell: i64,
    /// Realized profit in billionths of a dollar.
    pub realized_pnl: i128,
    /// One mid price per minute, at most twenty.
    pub mid_history: Vec<i64>,
    /// When the last mid was sampled.
    pub last_mid_sample: i64,
    pub recent_trades: Vec<TradePrint>,
    /// When quotes were last considered.
    pub last_quote_time: i64,
    /// The prices last quoted, in billionths of a dollar.
    pub quoted_bid: Option<i64>,
    pub quoted_ask: Option<i64>,
    /// The ids of the resting orders.
    pub bid_order_id: Option<String>,
    pub ask_order_id: Option<String>,
    /// Once quoted, a market no longer counts against the order budget.
    pub ever_quoted: bool,
    /// When the market closes.
    pub close_time_s: Option<i64>,
    /// The price step in billionths of a dollar.
    pub tick: i64,
    /// When a fill was last booked here; zero where none was.
    pub last_fill_epoch: i64,
    /// The position was there before this process: closing it does not count
    /// toward the category's losing streak.
    pub carried: bool,
}

impl TickerState {
    /// The book keeps its levels in order, and the mid samples are prices.
    pub open spec fn wf(&self) -> bool {
        &&& self.book.wf()
        &&& forall|i: int|
            0 <= i < self.mid_history@.len() ==> 0 <= #[trigger] self.mid_history@[i] <= u32::MAX
                * MD_NANO
    }

    /// A market with an empty book, flat.
    pub fn new(category: &str) -> (r: Self)
        ensures
            r.wf(),
            r.category@ == category@,
            r.book.yes() == Seq::<(u32, i64)>::empty(),
            r.book.no() == Seq::<(u32, i64)>::empty(),
            r.position == 0,
            r.entry_price is None,
            r.fills_buy == 0,
            r.fills_sell == 0,
            r.realized_pnl == 0,
            r.mid_history@ == Seq::<i64>::empty(),
            r.last_mid_sample == 0,
            r.recent_trades@ == Seq::<TradePrint>::empty(),
            r.last_quote_time == 0,
            r.quoted_bid is None,
            r.quoted_ask is None,
            r.bid_order_id is None,
            r.ask_order_id is None,
            !r.ever_quoted,
            r.close_time_s is None,
            r.tick == PENNY,
            r.last_fill_epoch == 0,
            !r.carried,
    {
        TickerState {
            category: category.to_string(),
            book: Book::new(),
            position: 0,
            entry_price: None,
            fills_buy: 0,
            fills_sell: 0,
            realized_pnl: 0,
            mid_history: Vec::new(),
            last_mid_sample: 0,
            recent_trades: Vec::new(),
            last_quote_time: 0,
            quoted_bid: None,
            quoted_ask: None,
            bid_order_id: None,
            ask_order_id: None,
            ever_quoted: false,
            close_time_s: None,
            tick: PENNY,
            last_fill_epoch: 0,
            carried: false,
        }
    }
}

/// The profit that a fill realizes: the contracts it closes, times the move
/// from the entry price before the fill.
pub open spec fn realized_by(
    position: int,
    entry: Option<i64>,
    long_yes: bool,
    size: int,
    price: i64,
) -> int {
    let basis = entry.unwrap_or(price);
    let closed = if size < magnitude(position) {
        size
    } else {
        magnitude(position)
    };
    if !long_yes && position > 0 {
        closed * (price - basis)
    } else if long_yes && position < 0 {
        closed * (basis - price)
    } else {
        0
    }
}

/// An order slot after a fill: empty where the fill used up the order in it.
pub open spec fn released(slot: Option<String>, order: Option<String>) -> Option<String> {
    match (slot, order) {
        (Some(s), Some(o)) => if s@ == o@ {
            None
        } else {
            slot
        },
        _ => slot,
    }
}

/// A market after a fill.
pub open spec fn after_fill(ts: TickerState, nf: NormalizedFill, now: i64) -> TickerState {
    let new = moved(ts.position as int, nf.long_yes, nf.size as int) as i64;
    let realized = realized_by(
        ts.position as int,
        ts.entry_price,
        nf.long_yes,
        nf.size as int,
        nf.price_yes,
    );
    TickerState {
        position: new,
        entry_price: folded_entry(
            ts.position as int,
            new as int,
            ts.entry_price,
            nf.size as int,
            nf.price_yes,
        ),
        fills_buy: if nf.long_yes {
            clamp64(ts.fills_buy + nf.size) as i64
        } else {
            ts.fills_buy
        },
        fills_sell: if nf.long_yes {
            ts.fills_sell
        } else {
            clamp64(ts.fills_sell + nf.size) as i64
        },
        realized_pnl: clamp128(ts.realized_pnl + realized) as i128,
        bid_order_id: released(ts.bid_order_id, nf.order_id),
        ask_order_id: released(ts.ask_order_id, nf.order_id),
        last_fill_epoch: now,
        carried: ts.carried && new != 0 && same_side(ts.position as int, new as int),
        ..ts
    }
}

/// Empties an order slot where the order is the one that was filled.
fn release(slot: &mut Option<String>, order: &Option<String>)
    ensures
        *final(slot) == released(*old(slot), *order),
{
    let used = match (&*slot, order) {
        (Some(s), Some(o)) => same(s.as_str(), o.as_str()),
        _ => false,
    };
    if used {
        *slot = None;
    }
}

/// Books a fill in its market; returns the profit that it realized.
fn fill_ticker(ts: &mut TickerState, nf: &NormalizedFill, now: i64) -> (r: i128)
    ensures
        *final(ts) == after_fill(*old(ts), *nf, now),
        r == realized_by(
            old(ts).position as int,
            old(ts).entry_price,
            nf.long_yes,
            nf.size as int,
            nf.price_yes,
        ),
{
    let old_inv: i64 = ts.position;
    let basis: i64 = match ts.entry_price {
        Some(e) => e,
        None => nf.price_yes,
    };
    let new_inv: i64 = move_position(old_inv, nf.long_yes, nf.size);
    if nf.long_yes {
        ts.fills_buy = add64(ts.fills_buy, nf.size);
    } else {
        ts.fills_sell = add64(ts.fills_sell, nf.size);
    }
    ts.position = new_inv;
    ts.entry_price = fold_entry_price(old_inv, new_inv, ts.entry_price, nf.size, nf.price_yes);
    release(&mut ts.bid_order_id, &nf.order_id);
    release(&mut ts.ask_order_id, &nf.order_id);
    let held: i128 = abs64(old_inv);
    let closed: i128 = if (nf.size as i128) < held {
        nf.size as i128
    } else {
        held
    };
    let gain: i128 = nf.price_yes as i128 - basis as i128;
    proof {
        lemma_gain_range(closed as int, gain as int);
        lemma_gain_range(closed as int, -gain);
    }
    let realized: i128 = if !nf.long_yes && old_inv > 0 {
        closed * gain
    } else if nf.long_yes && old_inv < 0 {
        closed * (-gain)
    } else {
        0
    };
    ts.realized_pnl = add128(ts.realized_pnl, realized);
    ts.last_fill_epoch = now;
    ts.carried = ts.carried && new_inv != 0 && (old_inv > 0) == (new_inv > 0);
    realized
}

/// Contracts times a price move fit.
proof fn lemma_gain_range(contracts: int, gain: int)
    requires
        -0x8000_0000_0000_0000 <= contracts <= 0x8000_0000_0000_0000,
        -0xffff_ffff_ffff_ffff <= gain <= 0xffff_ffff_ffff_ffff,
    ensures
        i128::MIN < contracts * gain <= i128::MAX,
{
    assert(-0x7fff_ffff_ffff_ffff_8000_0000_0000_0000 <= contracts * gain
        <= 0x7fff_ffff_ffff_ffff_8000_0000_0000_0000) by (nonlinear_arith)
        requires
            -0x8000_0000_0000_0000 <= contracts <= 0x8000_0000_0000_0000,
            -0xffff_ffff_ffff_ffff <= gain <= 0xffff_ffff_ffff_ffff,
    ;
}

/// A market after fills in the order given.
pub open spec fn after_fills(ts: TickerState, fills: Seq<NormalizedFill>, now: i64) -> TickerState
    decreases fills.len(),
{
    if fills.len() == 0 {
        ts
    } else {
        after_fill(after_fills(ts, fills.drop_last(), now), fills.last(), now)
    }
}

/// Replaying a market's fills gives the position and the entry price that
/// booking them one by one gave, so a restart loses neither.
pub proof fn law_replay_matches_booking(ts: TickerState, fills: Seq<NormalizedFill>, now: i64)
    requires
        ts.position == 0,
        ts.entry_price is None,
    ensures
        after_fills(ts, fills, now).position == replayed(fills).0,
        after_fills(ts, fills, now).entry_price == replayed(fills).1,
    decreases fills.len(),
{
    if fills.len() > 0 {
        law_replay_matches_booking(ts, fills.drop_last(), now);
    }
}

/// Buying and then selling the same contracts from flat realizes the contracts
/// times the price difference and leaves the market flat, with no entry price;
/// so does selling and then buying.
pub proof fn law_round_trip(ts: TickerState, first: NormalizedFill, second: NormalizedFill, now: i64)
    requires
        ts.position == 0,
        ts.entry_price is None,
        0 < first.size,
        second.size == first.size,
        second.long_yes == !first.long_yes,
    ensures
        ({
            let open = after_fill(ts, first, now);
            let flat = after_fill(open, second, now);
            &&& open.entry_price == Some(first.price_yes)
            &&& flat.position == 0
            &&& flat.entry_price is None
            &&& realized_by(
                open.position as int,
                open.entry_price,
                second.long_yes,
                second.size as int,
                second.price_yes,
            ) == first.size * (if first.long_yes {
                second.price_yes - first.price_yes
            } else {
                first.price_yes - second.price_yes
            })
        }),
{
}

// --- fill ids ----------------------------------------------------------------

/// The fill ids seen lately, oldest first. The fills list is read with an
/// overlap, so most ids come more than once.
pub struct SeenFills {
    ids: StringHashSet,
    fifo: VecDeque<String>,
}

/// The ids after one more, the oldest gone where there would be too many.
pub open spec fn with_id(order: Seq<Seq<char>>, id: Seq<char>) -> Seq<Seq<char>> {
    if order.contains(id) {
        order
    } else if order.len() >= FILL_ID_CAP {
        order.push(id).drop_first()
    } else {
        order.push(id)
    }
}

impl SeenFills {
    /// The ids, oldest first.
    pub closed spec fn order(&self) -> Seq<Seq<char>> {
        self.fifo@.map_values(|s: String| s@)
    }

    /// No id occurs twice, and there are not too many.
    pub closed spec fn wf(&self) -> bool {
        &&& self.order().no_duplicates()
        &&& self.order().len() <= FILL_ID_CAP
        &&& forall|id: Seq<char>| #[trigger] self.ids@.contains(id) <==> self.order().contains(id)
    }

    /// No ids.
    pub fn new() -> (r: Self)
        ensures
            r.wf(),
            r.order() == Seq::<Seq<char>>::empty(),
    {
        let r = SeenFills { ids: StringHashSet::new(), fifo: VecDeque::new() };
        assert(r.order() =~= Seq::<Seq<char>>::empty());
        r
    }

    /// The number of ids.
    pub fn len(&self) -> (r: usize)
        ensures
            r == self.order().len(),
    {
        self.fifo.len()
    }

    /// True where the id was seen; remembers it otherwise.
    pub fn note(&mut self, id: &str) -> (r: bool)
        requires
            old(self).wf(),
        ensures
            final(self).wf(),
            r == old(self).order().contains(id@),
            r ==> *final(self) == *old(self),
            final(self).order() == with_id(old(self).order(), id@),
    {
        if self.ids.contains(id) {
            return true;
        }
        let ghost before = self.order();
        self.ids.insert(id.to_string());
        self.fifo.push_back(id.to_string());
        let ghost pushed = self.order();
        proof {
            assert(pushed =~= before.push(id@));
            lemma_push_new(before, id@);
        }
        if self.fifo.len() > FILL_ID_CAP {
            match self.fifo.pop_front() {
                Some(old_id) => {
                    self.ids.remove(old_id.as_str());
                    proof {
                        assert(self.order() =~= pushed.drop_first());
                        lemma_drop_oldest(pushed);
                        assert(old_id@ == pushed[0]);
                    }
                },
                None => {},
            }
        }
        false
    }
}

/// A new id keeps the ids distinct.
proof fn lemma_push_new(order: Seq<Seq<char>>, id: Seq<char>)
    requires
        order.no_duplicates(),
        !order.contains(id),
    ensures
        order.push(id).no_duplicates(),
        forall|x: Seq<char>| #[trigger]
            order.push(id).contains(x) <==> order.contains(x) || x == id,
{
    let after = order.push(id);
    assert forall|x: Seq<char>| #[trigger] after.contains(x) <==> order.contains(x) || x == id by {
        if order.contains(x) {
            let i = choose|i: int| 0 <= i < order.len() && order[i] == x;
            assert(after[i] == x);
        }
        if x == id {
            assert(after[order.len() as int] == x);
        }
        if after.contains(x) {
            let i = choose|i: int| 0 <= i < after.len() && after[i] == x;
            if i < order.len() {
                assert(order[i] == x);
            }
        }
    }
    assert forall|i: int, j: int| 0 <= i < after.len() && 0 <= j < after.len() && i
        != j implies after[i] != after[j] by {
        if i == order.len() {
            assert(order.contains(order[j]));
        } else if j == order.len() {
            assert(order.contains(order[i]));
        }
    }
}

/// Without the oldest id the others stay.
proof fn lemma_drop_oldest(order: Seq<Seq<char>>)
    requires
        order.no_duplicates(),
        order.len() > 0,
    ensures
        order.drop_first().no_duplicates(),
        forall|x: Seq<char>| #[trigger]
            order.drop_first().contains(x) <==> order.contains(x) && x != order[0],
{
    let rest = order.drop_first();
    assert forall|x: Seq<char>| #[trigger] rest.contains(x) <==> order.contains(x) && x
        != order[0] by {
        if rest.contains(x) {
            let i = choose|i: int| 0 <= i < rest.len() && rest[i] == x;
            assert(order[i + 1] == x);
        }
        if order.contains(x) && x != order[0] {
            let i = choose|i: int| 0 <= i < order.len() && order[i] == x;
            assert(rest[i - 1] == x);
        }
    }
}

/// An id that was just noted is remembered: noting it again changes nothing.
pub proof fn law_noting_twice_is_noting_once(order: Seq<Seq<char>>, id: Seq<char>)
    requires
        order.no_duplicates(),
    ensures
        with_id(order, id).contains(id),
        with_id(with_id(order, id), id) == with_id(order, id),
{
    if !order.contains(id) {
        lemma_push_new(order, id);
        let pushed = order.push(id);
        if order.len() >= FILL_ID_CAP {
            lemma_drop_oldest(pushed);
            assert(pushed[order.len() as int] == id);
            assert(order[0] != id);
        }
    }
}

/// The newest ids stay: noting one more id forgets at most the oldest, and
/// only where the memory is full.
pub proof fn law_newest_ids_stay(order: Seq<Seq<char>>, id: Seq<char>, other: Seq<char>)
    requires
        order.no_duplicates(),
        order.contains(other),
        order.len() < FILL_ID_CAP || other != order[0],
    ensures
        with_id(order, id).contains(other),
{
    if !order.contains(id) {
        lemma_push_new(order, id);
        if order.len() >= FILL_ID_CAP {
            lemma_drop_oldest(order.push(id));
        }
    }
}

/// The ids that are remembered are distinct and not too many.
pub proof fn lemma_seen_ids(seen: SeenFills)
    requires
        seen.wf(),
    ensures
        seen.order().no_duplicates(),
        seen.order().len() <= FILL_ID_CAP,
{
}

/// The memory of ids is bounded.
pub proof fn law_ids_are_bounded(order: Seq<Seq<char>>, id: Seq<char>)
    requires
        order.len() <= FILL_ID_CAP,
    ensures
        with_id(order, id).len() <= FILL_ID_CAP,
{
}

// --- the account -------------------------------------------------------------

/// One line of the trade log: time, market, side, price in billionths of a
/// cent, contracts.
pub type LoggedTrade = (i64, String, &'static str, i128, i64);

/// The markets and the account.
pub struct TraderState {
    pub tickers: Table<TickerState>,
    /// Profit of the day in billionths of a dollar.
    pub daily_pnl: i128,
    pub cumulative_pnl: i128,
    pub quotes_sent: u64,
    pub fills: u64,
    pub wins: u64,
    pub losses: u64,
    pub taker_fills: u64,
    pub maker_fills: u64,
    pub fees_paid: i128,
    pub halted_categories: Table<()>,
    pub consecutive_losses: Table<u64>,
    /// Quoting pauses until then after the balance ran out.
    pub balance_backoff_until: i64,
    pub trade_log: VecDeque<LoggedTrade>,
    /// When the daily counters were last reset.
    pub last_reset: i64,
    pub seen: SeenFills,
}

/// A market about which nothing is known but its category.
pub open spec fn is_fresh(ts: TickerState, category: Seq<char>) -> bool {
    &&& ts.wf()
    &&& ts.category@ == category
    &&& ts.book.yes() == Seq::<(u32, i64)>::empty()
    &&& ts.book.no() == Seq::<(u32, i64)>::empty()
    &&& ts.position == 0
    &&& ts.entry_price is None
    &&& ts.fills_buy == 0
    &&& ts.fills_sell == 0
    &&& ts.realized_pnl == 0
    &&& ts.mid_history@ == Seq::<i64>::empty()
    &&& ts.last_mid_sample == 0
    &&& ts.recent_trades@ == Seq::<TradePrint>::empty()
    &&& ts.last_quote_time == 0
    &&& ts.quoted_bid is None
    &&& ts.quoted_ask is None
    &&& ts.bid_order_id is None
    &&& ts.ask_order_id is None
    &&& !ts.ever_quoted
    &&& ts.close_time_s is None
    &&& ts.tick == PENNY
    &&& ts.last_fill_epoch == 0
    &&& !ts.carried
}

/// The market takes part in a count over the active ones.
pub open spec fn is_active(active: Option<&Table<()>>, key: Seq<char>) -> bool {
    match active {
        Some(names) => names.has(key),
        None => true,
    }
}

/// The capital locked in one market: contracts times the entry price, which
/// counts as half a dollar where it is not known.
pub open spec fn locked(ts: TickerState) -> int {
    magnitude(ts.position as int) * ts.entry_price.unwrap_or(HALF_DOLLAR)
}

/// The capital locked in the first `n` markets.
pub open spec fn locked_in(
    keys: Seq<Seq<char>>,
    values: Seq<TickerState>,
    active: Option<&Table<()>>,
    n: int,
) -> int
    decreases n,
{
    if n <= 0 {
        0
    } else {
        let before = locked_in(keys, values, active, n - 1);
        if values[n - 1].position != 0 && is_active(active, keys[n - 1]) {
            clamp128(before + locked(values[n - 1]))
        } else {
            before
        }
    }
}

/// Half a dollar in billionths.
pub const HALF_DOLLAR: i64 = 500_000_000;

/// The resting orders of one market.
pub open spec fn orders_of(ts: TickerState) -> int {
    (if ts.bid_order_id is Some {
        1int
    } else {
        0
    }) + (if ts.ask_order_id is Some {
        1int
    } else {
        0
    })
}

/// The resting orders of the markets.
pub open spec fn orders_in(values: Seq<TickerState>) -> int
    decreases values.len(),
{
    if values.len() == 0 {
        0
    } else {
        orders_in(values.drop_last()) + orders_of(values.last())
    }
}

/// The losing streak of a category.
pub open spec fn streak(losses: Map<Seq<char>, u64>, category: Seq<char>) -> u64 {
    if losses.dom().contains(category) {
        losses[category]
    } else {
        0
    }
}

/// A count with one more.
pub open spec fn one_more(n: u64) -> u64 {
    if n < u64::MAX {
        (n + 1) as u64
    } else {
        n
    }
}

/// The losing streaks after a close: a win ends the category's streak and a
/// loss extends it.
pub open spec fn streaks_after(
    losses: Map<Seq<char>, u64>,
    category: Seq<char>,
    realized: int,
    counts: bool,
) -> Map<Seq<char>, u64> {
    if realized == 0 || !counts {
        losses
    } else if realized > 0 {
        losses.insert(category, 0)
    } else {
        losses.insert(category, one_more(streak(losses, category)))
    }
}

/// The account after a close that realized `realized`: nothing where that is
/// zero.
pub open spec fn after_close(s: TraderState, realized: int, losses: Table<u64>) -> TraderState {
    TraderState {
        daily_pnl: clamp128(s.daily_pnl + realized) as i128,
        cumulative_pnl: clamp128(s.cumulative_pnl + realized) as i128,
        wins: if realized > 0 {
            one_more(s.wins)
        } else {
            s.wins
        },
        losses: if realized < 0 {
            one_more(s.losses)
        } else {
            s.losses
        },
        consecutive_losses: losses,
        ..s
    }
}

/// The account after a fee was charged for a fill.
pub open spec fn after_fee(s: TraderState, fee: int, is_taker: bool) -> TraderState {
    TraderState {
        daily_pnl: clamp128(s.daily_pnl - fee) as i128,
        cumulative_pnl: clamp128(s.cumulative_pnl - fee) as i128,
        fees_paid: clamp128(s.fees_paid + fee) as i128,
        taker_fills: if is_taker {
            one_more(s.taker_fills)
        } else {
            s.taker_fills
        },
        maker_fills: if is_taker {
            s.maker_fills
        } else {
            one_more(s.maker_fills)
        },
        ..s
    }
}

/// The trade log after one more trade, the oldest gone where it is full.
pub open spec fn logged(log: Seq<LoggedTrade>, trade: LoggedTrade) -> Seq<LoggedTrade> {
    let longer = log.push(trade);
    if longer.len() > TRADE_LOG_CAP {
        longer.drop_first()
    } else {
        longer
    }
}

/// The line that the log gets for a fill.
pub open spec fn log_line(nf: NormalizedFill, now: i64) -> LoggedTrade {
    (
        now,
        nf.ticker,
        if nf.long_yes {
            "buy"
        } else {
            "sell"
        },
        (nf.price_yes * 100) as i128,
        nf.size,
    )
}

/// What a settlement pays for one contract.
pub open spec fn payout(yes: bool) -> int {
    if yes {
        NANO as int
    } else {
        0
    }
}

/// What a settlement realizes, where there is a position with a known entry
/// price and the result is yes or no.
pub open spec fn settled_gain(ts: TickerState, result: Option<bool>) -> Option<int> {
    match (ts.entry_price, result) {
        (Some(entry), Some(yes)) => if ts.position == 0 {
            None
        } else {
            Some(ts.position * (payout(yes) - entry))
        },
        _ => None,
    }
}

/// A market after its settlement.
pub open spec fn after_settlement(ts: TickerState, result: Option<bool>) -> TickerState {
    if ts.position == 0 {
        ts
    } else {
        TickerState {
            position: 0,
            entry_price: None,
            carried: false,
            realized_pnl: match settled_gain(ts, result) {
                Some(gain) => clamp128(ts.realized_pnl + gain) as i128,
                None => ts.realized_pnl,
            },
            ..ts
        }
    }
}

/// What a fill realizes in its market.
pub open spec fn fill_gain(ts: TickerState, nf: NormalizedFill) -> int {
    realized_by(ts.position as int, ts.entry_price, nf.long_yes, nf.size as int, nf.price_yes)
}

/// One market was replaced in the table of markets.
pub open spec fn replaced_market(
    before: Table<TickerState>,
    after: Table<TickerState>,
    ticker: Seq<char>,
    ts: TickerState,
) -> bool {
    &&& after.keys() == before.keys()
    &&& after.values() == before.values().update(before.keys().index_of(ticker), ts)
}

/// The account before and after a fill was booked in a market.
pub open spec fn booked_fill(
    before: TraderState,
    after: TraderState,
    ticker: Seq<char>,
    nf: NormalizedFill,
    fee: int,
    now: i64,
) -> bool {
    let ts = before.tickers.at(ticker);
    let realized = fill_gain(ts, nf);
    &&& replaced_market(before.tickers, after.tickers, ticker, after_fill(ts, nf, now))
    &&& after.consecutive_losses@ == streaks_after(
        before.consecutive_losses@,
        ts.category@,
        realized,
        !ts.carried,
    )
    &&& after.trade_log@ == logged(before.trade_log@, log_line(nf, now))
    &&& after == (TraderState {
        tickers: after.tickers,
        fills: one_more(before.fills),
        trade_log: after.trade_log,
        ..after_close(after_fee(before, fee, nf.is_taker), realized, after.consecutive_losses)
    })
}

/// The account before and after a market was settled.
pub open spec fn booked_settlement(
    before: TraderState,
    after: TraderState,
    ticker: Seq<char>,
    result: Option<bool>,
) -> bool {
    let ts = before.tickers.at(ticker);
    let realized = match settled_gain(ts, result) {
        Some(gain) => gain,
        None => 0,
    };
    &&& replaced_market(before.tickers, after.tickers, ticker, after_settlement(ts, result))
    &&& after.consecutive_losses@ == streaks_after(
        before.consecutive_losses@,
        ts.category@,
        realized,
        !ts.carried,
    )
    &&& after == (TraderState {
        tickers: after.tickers,
        ..after_close(before, realized, after.consecutive_losses)
    })
}

/// The account before and after a fill id was noted.
pub open spec fn noted_fill(before: TraderState, after: TraderState, id: Seq<char>) -> bool {
    &&& after.seen.order() == with_id(before.seen.order(), id)
    &&& after == (TraderState { seen: after.seen, ..before })
}

/// The account before and after a market was made where it was not there.
pub open spec fn opened_market(
    before: TraderState,
    after: TraderState,
    ticker: Seq<char>,
    category: Seq<char>,
) -> bool {
    &&& after == (TraderState { tickers: after.tickers, ..before })
    &&& if before.tickers.has(ticker) {
        &&& after.tickers.keys() == before.tickers.keys()
        &&& after.tickers.values() == before.tickers.values()
    } else {
        let ts = after.tickers.values().last();
        &&& is_fresh(ts, category)
        &&& after.tickers.keys() == before.tickers.keys().push(ticker)
        &&& after.tickers.values() == before.tickers.values().push(ts)
    }
}

impl TraderState {
    /// Every table holds each name once, every market is well formed, and the
    /// fill ids are.
    pub open spec fn wf(&self) -> bool {
        &&& self.tickers.wf()
        &&& forall|i: int|
            0 <= i < self.tickers.values().len() ==> (#[trigger] self.tickers.values()[i]).wf()
        &&& self.halted_categories.wf()
        &&& self.consecutive_losses.wf()
        &&& self.seen.wf()
    }

    /// An account at its start: no markets, nothing earned or counted, nothing
    /// halted, no pause, and no fill known.
    pub open spec fn at_start(&self, now: i64) -> bool {
        &&& self.tickers.keys() == Seq::<Seq<char>>::empty()
        &&& self.daily_pnl == 0
        &&& self.cumulative_pnl == 0
        &&& self.quotes_sent == 0
        &&& self.fills == 0
        &&& self.wins == 0
        &&& self.losses == 0
        &&& self.taker_fills == 0
        &&& self.maker_fills == 0
        &&& self.fees_paid == 0
        &&& self.halted_categories@ == Map::<Seq<char>, ()>::empty()
        &&& self.consecutive_losses@ == Map::<Seq<char>, u64>::empty()
        &&& self.balance_backoff_until == 0
        &&& self.trade_log@ == Seq::<LoggedTrade>::empty()
        &&& self.last_reset == now
        &&& self.seen.order() == Seq::<Seq<char>>::empty()
    }

    /// An account without markets.
    pub fn new(now_epoch_s: i64) -> (r: Self)
        ensures
            r.wf(),
            r.at_start(now_epoch_s),
    {
        TraderState {
            tickers: Table::new(),
            daily_pnl: 0,
            cumulative_pnl: 0,
            quotes_sent: 0,
            fills: 0,
            wins: 0,
            losses: 0,
            taker_fills: 0,
            maker_fills: 0,
            fees_paid: 0,
            halted_categories: Table::new(),
            consecutive_losses: Table::new(),
            balance_backoff_until: 0,
            trade_log: VecDeque::new(),
            last_reset: now_epoch_s,
            seen: SeenFills::new(),
        }
    }

    /// The market of this name, made where it was not there.
    pub fn ticker(&mut self, ticker: &str, category: &str) -> (r: &mut TickerState)
        requires
            old(self).wf(),
        ensures
            r.wf(),
            old(self).tickers.has(ticker@) ==> {
                &&& *r == old(self).tickers.at(ticker@)
                &&& final(self).tickers.keys() == old(self).tickers.keys()
                &&& final(self).tickers.values() == old(self).tickers.values().update(
                    old(self).tickers.keys().index_of(ticker@),
                    *final(r),
                )
            },
            !old(self).tickers.has(ticker@) ==> {
                &&& is_fresh(*r, category@)
                &&& final(self).tickers.keys() == old(self).tickers.keys().push(ticker@)
                &&& final(self).tickers.values() == old(self).tickers.values().push(*final(r))
            },
            final(self).tickers@ == old(self).tickers@.insert(ticker@, *final(r)),
            *final(self) == (TraderState { tickers: final(self).tickers, ..*old(self) }),
            final(r).wf() ==> final(self).wf(),
    {
        let ghost before = self.tickers;
        if !self.tickers.contains(ticker) {
            self.tickers.insert(ticker.to_string(), TickerState::new(category));
        }
        let ghost grown = self.tickers;
        proof {
            let n = before.keys().len() as int;
            if !before.has(ticker@) {
                crate::table::lemma_pushed(before, grown, ticker@, grown.values()[n]);
                assert(grown.keys()[n] == ticker@);
                crate::table::lemma_at(grown, n);
                assert(before.values().push(grown.values()[n]).update(n, grown.values()[n])
                    =~= grown.values());
            }
            let i = grown.keys().index_of(ticker@);
            assert(grown.keys()[i] == ticker@);
            crate::table::lemma_at(grown, i);
            assert(grown.values()[i].wf());
        }
        self.tickers.get_mut(ticker)
    }

    /// True where this fill was processed already; remembers it otherwise.
    pub fn seen_fill(&mut self, fill_id: &str) -> (r: bool)
        requires
            old(self).wf(),
        ensures
            final(self).wf(),
            r == old(self).seen.order().contains(fill_id@),
            r ==> *final(self) == *old(self),
            noted_fill(*old(self), *final(self), fill_id@),
    {
        self.seen.note(fill_id)
    }

    /// The resting orders of all markets.
    pub fn open_order_count(&self) -> (r: u64)
        requires
            self.wf(),
        ensures
            r == clamp(orders_in(self.tickers.values()), 0, u64::MAX as int),
    {
        let mut count: u64 = 0;
        let mut i: usize = 0;
        let ghost values = self.tickers.values();
        while i < self.tickers.len()
            invariant
                self.wf(),
                values == self.tickers.values(),
                i <= values.len(),
                orders_in(values.take(i as int)) >= 0,
                count == clamp(orders_in(values.take(i as int)), 0, u64::MAX as int),
            decreases values.len() - i,
        {
            proof {
                assert(values.take(i + 1).drop_last() =~= values.take(i as int));
                assert(values.take(i + 1).last() == values[i as int]);
            }
            let ts = self.tickers.value_at(i);
            if ts.bid_order_id.is_some() {
                count = bump(count);
            }
            if ts.ask_order_id.is_some() {
                count = bump(count);
            }
            i += 1;
        }
        proof {
            assert(values.take(values.len() as int) =~= values);
        }
        count
    }

    /// Fills per quote, in billionths; zero where nothing was quoted.
    pub fn fill_rate(&self) -> (r: i128)
        ensures
            r == if self.quotes_sent == 0 {
                0
            } else {
                round_even(self.fills * NANO, self.quotes_sent as int)
            },
            self.quotes_sent > 0 ==> magnitude(
                2 * (self.quotes_sent * r - self.fills * 1_000_000_000),
            ) <= self.quotes_sent,
    {
        if self.quotes_sent == 0 {
            return 0;
        }
        proof {
            crate::num::lemma_round_even_near(self.fills * NANO, self.quotes_sent as int);
        }
        div_even(self.fills as i128 * NANO as i128, self.quotes_sent as i128)
    }

    /// Winning closes per close, in billionths; zero where nothing was closed.
    pub fn win_rate(&self) -> (r: i128)
        ensures
            r == if self.wins + self.losses == 0 {
                0
            } else {
                round_even(self.wins * NANO, self.wins + self.losses)
            },
            self.wins + self.losses > 0 ==> magnitude(
                2 * ((self.wins + self.losses) * r - self.wins * 1_000_000_000),
            ) <= self.wins + self.losses,
    {
        let total: i128 = self.wins as i128 + self.losses as i128;
        if total == 0 {
            return 0;
        }
        proof {
            crate::num::lemma_round_even_near(self.wins * NANO, self.wins + self.losses);
        }
        div_even(self.wins as i128 * NANO as i128, total)
    }

    /// The capital locked in open positions, in billionths of a dollar. With
    /// `active` only those markets count: what other markets hold must not
    /// use up the budget.
    pub fn position_value(&self, active: Option<&Table<()>>) -> (r: i128)
        requires
            self.wf(),
            active matches Some(names) ==> names.wf(),
        ensures
            r == locked_in(
                self.tickers.keys(),
                self.tickers.values(),
                active,
                self.tickers.keys().len() as int,
            ),
    {
        let mut total: i128 = 0;
        let mut i: usize = 0;
        while i < self.tickers.len()
            invariant
                self.wf(),
                active matches Some(names) ==> names.wf(),
                i <= self.tickers.keys().len(),
                total == locked_in(self.tickers.keys(), self.tickers.values(), active, i as int),
            decreases self.tickers.keys().len() - i,
        {
            let ts = self.tickers.value_at(i);
            let counted = match active {
                Some(names) => names.contains(self.tickers.key_at(i)),
                None => true,
            };
            if ts.position != 0 && counted {
                let entry: i64 = match ts.entry_price {
                    Some(e) => e,
                    None => HALF_DOLLAR,
                };
                let size: i128 = abs64(ts.position);
                proof {
                    lemma_product_range(size as int, entry as int);
                }
                total = add128(total, size * entry as i128);
            }
            i += 1;
        }
        total
    }

    /// Books one fill: fee, position, entry price, realized profit. Returns
    /// the realized profit before the fee. The profit always rests on the
    /// entry price from before the fill.
    pub fn apply_fill(&mut self, ticker: &str, nf: &NormalizedFill, fee: i64, now_epoch_s: i64) -> (r:
        i128)
        requires
            old(self).wf(),
            old(self).tickers.has(ticker@),
        ensures
            final(self).wf(),
            r == fill_gain(old(self).tickers.at(ticker@), *nf),
            booked_fill(*old(self), *final(self), ticker@, *nf, fee as int, now_epoch_s),
    {
        self.daily_pnl = add128(self.daily_pnl, -(fee as i128));
        self.cumulative_pnl = add128(self.cumulative_pnl, -(fee as i128));
        self.fees_paid = add128(self.fees_paid, fee as i128);
        if nf.is_taker {
            self.taker_fills = bump(self.taker_fills);
        } else {
            self.maker_fills = bump(self.maker_fills);
        }
        proof {
            let i = self.tickers.keys().index_of(ticker@);
            assert(self.tickers.keys()[i] == ticker@);
            assert(self.tickers.values()[i].wf());
        }
        let ts = self.tickers.get_mut(ticker);
        let counts = !ts.carried;
        let category = ts.category.clone();
        let realized: i128 = fill_ticker(ts, nf, now_epoch_s);
        self.book_realized_close(category, realized, counts);
        self.fills = bump(self.fills);
        let side = if nf.long_yes {
            "buy"
        } else {
            "sell"
        };
        self.trade_log.push_back(
            (now_epoch_s, nf.ticker.clone(), side, nf.price_yes as i128 * 100, nf.size),
        );
        if self.trade_log.len() > TRADE_LOG_CAP {
            let _ = self.trade_log.pop_front();
        }
        realized
    }

    /// Books a settlement of a market in which a position is still open: each
    /// contract pays one dollar on yes and nothing on no. The position and
    /// the entry price are cleared in any case. None where nothing was
    /// booked: the market is unknown or flat, the entry price is not known,
    /// or the result is neither yes nor no.
    pub fn apply_settlement(&mut self, ticker: &str, result_yes: Option<bool>) -> (r: Option<i128>)
        requires
            old(self).wf(),
        ensures
            final(self).wf(),
            !old(self).tickers.has(ticker@) ==> r is None && *final(self) == *old(self),
            old(self).tickers.has(ticker@) ==> {
                &&& match settled_gain(old(self).tickers.at(ticker@), result_yes) {
                    Some(gain) => r matches Some(g) && g == gain,
                    None => r is None,
                }
                &&& booked_settlement(*old(self), *final(self), ticker@, result_yes)
            },
    {
        if !self.tickers.contains(ticker) {
            return None;
        }
        let ghost i = self.tickers.keys().index_of(ticker@);
        let ghost before = self.tickers.values();
        proof {
            assert(self.tickers.keys()[i] == ticker@);
            assert(before[i].wf());
            assert(before.update(i, before[i]) =~= before);
        }
        let ts = self.tickers.get_mut(ticker);
        if ts.position == 0 {
            return None;
        }
        let position: i64 = ts.position;
        let basis = ts.entry_price;
        let counts = !ts.carried;
        ts.position = 0;
        ts.entry_price = None;
        ts.carried = false;
        match (basis, result_yes) {
            (Some(entry), Some(yes)) => {
                let paid: i128 = if yes {
                    NANO as i128
                } else {
                    0
                };
                proof {
                    lemma_gain_range(position as int, paid - entry);
                }
                let realized: i128 = position as i128 * (paid - entry as i128);
                ts.realized_pnl = add128(ts.realized_pnl, realized);
                let category = ts.category.clone();
                self.book_realized_close(category, realized, counts);
                Some(realized)
            },
            _ => None,
        }
    }

    /// Books one realized close, by fill or by settlement: profit, win or
    /// loss, and the category's losing streak where the close counts toward
    /// it. A close at exactly zero is neither.
    fn book_realized_close(&mut self, category: String, realized: i128, counts: bool)
        requires
            old(self).wf(),
        ensures
            final(self).wf(),
            final(self).consecutive_losses@ == streaks_after(
                old(self).consecutive_losses@,
                category@,
                realized as int,
                counts,
            ),
            *final(self) == after_close(
                *old(self),
                realized as int,
                final(self).consecutive_losses,
            ),
    {
        if realized == 0 {
            return;
        }
        self.daily_pnl = add128(self.daily_pnl, realized);
        self.cumulative_pnl = add128(self.cumulative_pnl, realized);
        if realized > 0 {
            self.wins = bump(self.wins);
            if counts {
                self.consecutive_losses.insert(category, 0);
            }
        } else {
            self.losses = bump(self.losses);
            if counts {
                let before: u64 = match self.consecutive_losses.get(category.as_str()) {
                    Some(n) => *n,
                    None => 0,
                };
                self.consecutive_losses.insert(category, bump(before));
            }
        }
    }

    /// Starts the counters of a new day. The categories that were halted may
    /// quote again, and their streaks start over.
    pub fn reset_daily(&mut self, now_epoch_s: i64)
        requires
            old(self).wf(),
        ensures
            final(self).wf(),
            final(self).halted_categories@ == Map::<Seq<char>, ()>::empty(),
            final(self).consecutive_losses@ == Map::<Seq<char>, u64>::empty(),
            *final(self) == (TraderState {
                daily_pnl: 0,
                quotes_sent: 0,
                fills: 0,
                last_reset: now_epoch_s,
                halted_categories: final(self).halted_categories,
                consecutive_losses: final(self).consecutive_losses,
                ..*old(self)
            }),
    {
        self.daily_pnl = 0;
        self.quotes_sent = 0;
        self.fills = 0;
        self.last_reset = now_epoch_s;
        self.halted_categories = Table::new();
        self.consecutive_losses = Table::new();
    }
}

/// The day's profit and the total move together: a fill changes both by what
/// it realized less its fee, while neither leaves its range.
pub proof fn law_profit_is_realized_less_fees(
    s: TraderState,
    fee: int,
    is_taker: bool,
    realized: int,
    losses: Table<u64>,
)
    requires
        i128::MIN <= s.daily_pnl - fee <= i128::MAX,
        i128::MIN <= s.daily_pnl - fee + realized <= i128::MAX,
        i128::MIN <= s.cumulative_pnl - fee <= i128::MAX,
        i128::MIN <= s.cumulative_pnl - fee + realized <= i128::MAX,
    ensures
        ({
            let after = after_close(after_fee(s, fee, is_taker), realized, losses);
            &&& after.daily_pnl == s.daily_pnl + realized - fee
            &&& after.cumulative_pnl == s.cumulative_pnl + realized - fee
            &&& after.daily_pnl - s.daily_pnl == after.cumulative_pnl - s.cumulative_pnl
        }),
{
}

/// A position at its entry price.
pub open spec fn at_cost(position: int, entry: Option<i64>) -> int {
    position * entry.unwrap_or(0)
}

/// The cash that a fill brings in: its price for each contract sold, less its
/// price for each one bought.
pub open spec fn cash_of(nf: NormalizedFill) -> int {
    -(signed_size(nf.long_yes, nf.size as int) * nf.price_yes)
}

/// The cash that fills bring in.
pub open spec fn cash_flow(fills: Seq<NormalizedFill>) -> int
    decreases fills.len(),
{
    if fills.len() == 0 {
        0
    } else {
        cash_flow(fills.drop_last()) + cash_of(fills.last())
    }
}

/// A fill that extends an open position, whose entry price is then an average.
pub open spec fn extends(old: int, new: int) -> bool {
    old != 0 && same_side(old, new) && magnitude(new) > magnitude(old)
}

/// What rounding the entry price to a billionth adds to a position at its
/// cost: an extended position costs what it did and the fill's contracts at
/// the fill's price, and its entry price is that over the contracts. No other
/// fill rounds.
pub open spec fn rounding_of(position: int, entry: Option<i64>, nf: NormalizedFill) -> int {
    let new = moved(position, nf.long_yes, nf.size as int);
    if extends(position, new) {
        at_cost(new, folded_entry(position, new, entry, nf.size as int, nf.price_yes)) - (at_cost(
            position,
            entry,
        ) - cash_of(nf))
    } else {
        0
    }
}

/// The entry price after the fill is exact: the position is not extended, or
/// its cost divides evenly among the contracts.
pub open spec fn entry_is_exact(position: int, entry: Option<i64>, nf: NormalizedFill) -> bool {
    let new = moved(position, nf.long_yes, nf.size as int);
    extends(position, new) ==> (at_cost(position, entry) - cash_of(nf)) % magnitude(new) == 0
}

/// What a fill realizes is the cash that it brings in and the change of the
/// position at its cost, less what rounding the entry price added to that. The
/// rounding is at most half a billionth a contract, and nothing where the entry
/// price is exact.
pub proof fn law_one_fill_balances(position: i64, entry: Option<i64>, nf: NormalizedFill)
    requires
        entry is Some <==> position != 0,
        0 < nf.size,
        i64::MIN <= position + signed_size(nf.long_yes, nf.size as int) <= i64::MAX,
    ensures
        ({
            let new = moved(position as int, nf.long_yes, nf.size as int);
            let later = folded_entry(position as int, new, entry, nf.size as int, nf.price_yes);
            let gain = realized_by(
                position as int,
                entry,
                nf.long_yes,
                nf.size as int,
                nf.price_yes,
            );
            let rounding = rounding_of(position as int, entry, nf);
            &&& later is Some <==> new != 0
            &&& gain == cash_of(nf) + at_cost(new, later) - at_cost(position as int, entry)
                - rounding
            &&& magnitude(2 * rounding) <= (if extends(position as int, new) {
                magnitude(new)
            } else {
                0
            })
            &&& entry_is_exact(position as int, entry, nf) ==> rounding == 0
        }),
{
    let old = position as int;
    let size = nf.size as int;
    let price = nf.price_yes as int;
    let e = entry.unwrap_or(0) as int;
    let step = signed_size(nf.long_yes, size);
    let new = moved(old, nf.long_yes, size);
    assert(new == old + step);
    assert((old + step) * price == old * price + step * price) by (nonlinear_arith);
    assert((old + step) * e == old * e + step * e) by (nonlinear_arith);
    assert((-size) * price == -(size * price)) by (nonlinear_arith);
    assert((-size) * e == -(size * e)) by (nonlinear_arith);
    if old == 0 {
        assert(0 * price == 0 && 0 * e == 0) by (nonlinear_arith);
    } else if same_side(old, new) && magnitude(new) > magnitude(old) {
        let a = magnitude(old);
        let d = magnitude(new);
        let sum = a * e + size * price;
        lemma_average_fits(a, e, size, price);
        crate::num::lemma_round_even_near(sum, d);
        let r = round_even(sum, d);
        vstd::arithmetic::div_mod::lemma_fundamental_div_mod(sum, d);
        if old < 0 {
            assert(new * r == -(d * r)) by (nonlinear_arith)
                requires
                    new == -d,
            ;
            assert(old * e == -(a * e)) by (nonlinear_arith)
                requires
                    old == -a,
            ;
            lemma_even_both_ways(sum, d);
        }
    } else {
        let closed = if size < magnitude(old) {
            size
        } else {
            magnitude(old)
        };
        assert(closed * (price - e) == closed * price - closed * e) by (nonlinear_arith);
        assert(closed * (e - price) == closed * e - closed * price) by (nonlinear_arith);
        assert((-old) * price == -(old * price)) by (nonlinear_arith);
        assert((-old) * e == -(old * e)) by (nonlinear_arith);
        assert(0 * e == 0 && 0 * price == 0) by (nonlinear_arith);
    }
}

/// A number divides evenly when its opposite does.
proof fn lemma_even_both_ways(n: int, d: int)
    requires
        d > 0,
    ensures
        (-n) % d == 0 ==> n % d == 0,
{
    if (-n) % d == 0 {
        vstd::arithmetic::div_mod::lemma_fundamental_div_mod(-n, d);
        let q = (-n) / d;
        assert(n == (-q) * d) by (nonlinear_arith)
            requires
                -n == d * q,
        ;
        vstd::arithmetic::div_mod::lemma_fundamental_div_mod_converse(n, d, -q, 0);
    }
}

/// A weighted average of two prices is a price.
proof fn lemma_average_fits(a: int, e: int, b: int, p: int)
    requires
        0 < a,
        0 < b,
        i64::MIN <= e <= i64::MAX,
        i64::MIN <= p <= i64::MAX,
    ensures
        i64::MIN <= round_even(a * e + b * p, a + b) <= i64::MAX,
{
    let d = a + b;
    let low = i64::MIN as int;
    let high = i64::MAX as int;
    let sum = a * e + b * p;
    assert(low * d <= sum <= high * d) by (nonlinear_arith)
        requires
            d == a + b,
            sum == a * e + b * p,
            0 < a,
            0 < b,
            low <= e <= high,
            low <= p <= high,
    ;
    crate::num::lemma_round_even_monotone(low * d, sum, d);
    crate::num::lemma_round_even_monotone(sum, high * d, d);
    vstd::arithmetic::div_mod::lemma_fundamental_div_mod_converse(low * d, d, low, 0);
    vstd::arithmetic::div_mod::lemma_fundamental_div_mod_converse(high * d, d, high, 0);
}

/// The accounts that fills in one market leave behind, one after the other.
pub open spec fn booked_fills(
    steps: Seq<TraderState>,
    ticker: Seq<char>,
    fills: Seq<NormalizedFill>,
    fees: Seq<int>,
    times: Seq<i64>,
) -> bool {
    &&& steps.len() == fills.len() + 1
    &&& fees.len() == fills.len()
    &&& times.len() == fills.len()
    &&& forall|i: int|
        0 <= i < fills.len() ==> booked_fill(
            steps[i],
            steps[i + 1],
            ticker,
            #[trigger] fills[i],
            fees[i],
            times[i],
        )
}

/// No sum that a fill changes leaves its range.
pub open spec fn books_fit(s: TraderState, ticker: Seq<char>, nf: NormalizedFill, fee: int) -> bool {
    let ts = s.tickers.at(ticker);
    let gain = fill_gain(ts, nf);
    &&& i128::MIN <= s.cumulative_pnl - fee <= i128::MAX
    &&& i128::MIN <= s.cumulative_pnl - fee + gain <= i128::MAX
    &&& i128::MIN <= s.fees_paid + fee <= i128::MAX
    &&& i128::MIN <= ts.realized_pnl + gain <= i128::MAX
}

/// What the first `n` fills realized.
pub open spec fn booked_gains(
    steps: Seq<TraderState>,
    ticker: Seq<char>,
    fills: Seq<NormalizedFill>,
    n: int,
) -> int
    decreases n,
{
    if n <= 0 {
        0
    } else {
        booked_gains(steps, ticker, fills, n - 1) + fill_gain(
            steps[n - 1].tickers.at(ticker),
            fills[n - 1],
        )
    }
}

/// What rounding entry prices added over the first `n` fills.
pub open spec fn rounding_in(
    steps: Seq<TraderState>,
    ticker: Seq<char>,
    fills: Seq<NormalizedFill>,
    n: int,
) -> int
    decreases n,
{
    if n <= 0 {
        0
    } else {
        let ts = steps[n - 1].tickers.at(ticker);
        rounding_in(steps, ticker, fills, n - 1) + rounding_of(
            ts.position as int,
            ts.entry_price,
            fills[n - 1],
        )
    }
}

/// No fill rounded the entry price.
pub open spec fn entries_are_exact(
    steps: Seq<TraderState>,
    ticker: Seq<char>,
    fills: Seq<NormalizedFill>,
) -> bool {
    forall|i: int|
        0 <= i < fills.len() ==> entry_is_exact(
            steps[i].tickers.at(ticker).position as int,
            steps[i].tickers.at(ticker).entry_price,
            #[trigger] fills[i],
        )
}

/// The sum of fees.
pub open spec fn total_fees(fees: Seq<int>) -> int
    decreases fees.len(),
{
    if fees.len() == 0 {
        0
    } else {
        total_fees(fees.drop_last()) + fees.last()
    }
}

/// From a flat market on, what its fills realize is the cash that they bring
/// in and the open position at its entry price, less what rounding entry prices
/// added to that, and nothing less where every entry price is exact. The
/// market's profit is that, and the account's total is that less the fees,
/// while no sum leaves its range.
pub proof fn law_booked_profit_balances(
    steps: Seq<TraderState>,
    ticker: Seq<char>,
    fills: Seq<NormalizedFill>,
    fees: Seq<int>,
    times: Seq<i64>,
)
    requires
        booked_fills(steps, ticker, fills, fees, times),
        steps[0].tickers.wf(),
        steps[0].tickers.has(ticker),
        steps[0].tickers.at(ticker).position == 0,
        steps[0].tickers.at(ticker).entry_price is None,
        forall|i: int| 0 <= i < fills.len() ==> 0 < (#[trigger] fills[i]).size,
        forall|n: int|
            0 <= n <= fills.len() ==> i64::MIN <= #[trigger] net_size(fills.take(n)) <= i64::MAX,
        forall|i: int|
            0 <= i < fills.len() ==> books_fit(steps[i], ticker, #[trigger] fills[i], fees[i]),
    ensures
        ({
            let first = steps[0];
            let last = steps.last();
            let was = first.tickers.at(ticker);
            let market = last.tickers.at(ticker);
            let gains = booked_gains(steps, ticker, fills, fills.len() as int);
            &&& last.tickers.wf()
            &&& last.tickers.has(ticker)
            &&& market.position == net_size(fills)
            &&& market.entry_price is Some <==> market.position != 0
            &&& market.realized_pnl == was.realized_pnl + gains
            &&& last.fees_paid == first.fees_paid + total_fees(fees)
            &&& last.cumulative_pnl == first.cumulative_pnl + gains - total_fees(fees)
            &&& was.realized_pnl == 0 && first.cumulative_pnl == 0 && first.fees_paid == 0 ==> {
                &&& market.realized_pnl == gains
                &&& last.cumulative_pnl == gains - last.fees_paid
            }
            &&& gains == cash_flow(fills) + at_cost(market.position as int, market.entry_price)
                - rounding_in(steps, ticker, fills, fills.len() as int)
            &&& entries_are_exact(steps, ticker, fills) ==> gains == cash_flow(fills) + at_cost(
                market.position as int,
                market.entry_price,
            )
        }),
    decreases fills.len(),
{
    let n = fills.len() as int;
    if n == 0 {
        assert(0 * 0 == 0);
        assert(steps.last() == steps[0]);
    } else {
        let past = steps.drop_last();
        let some = fills.drop_last();
        assert forall|i: int| 0 <= i < some.len() implies booked_fill(
            past[i],
            past[i + 1],
            ticker,
            #[trigger] some[i],
            fees.drop_last()[i],
            times.drop_last()[i],
        ) by {
            assert(booked_fill(steps[i], steps[i + 1], ticker, fills[i], fees[i], times[i]));
        }
        assert forall|i: int| 0 <= i < some.len() implies 0 < (#[trigger] some[i]).size by {
            assert(0 < fills[i].size);
        }
        assert forall|i: int| 0 <= i < some.len() implies books_fit(
            past[i],
            ticker,
            #[trigger] some[i],
            fees.drop_last()[i],
        ) by {
            assert(books_fit(steps[i], ticker, fills[i], fees[i]));
        }
        assert forall|k: int| 0 <= k <= some.len() implies i64::MIN <= #[trigger] net_size(
            some.take(k),
        ) <= i64::MAX by {
            assert(some.take(k) =~= fills.take(k));
        }
        law_booked_profit_balances(past, ticker, some, fees.drop_last(), times.drop_last());
        lemma_sums_of_past(steps, ticker, fills, n - 1);
        let before = steps[n - 1];
        let after = steps[n];
        let nf = fills[n - 1];
        let ts = before.tickers.at(ticker);
        assert(past.last() == before);
        assert(booked_fill(before, after, ticker, nf, fees[n - 1], times[n - 1]));
        assert(books_fit(before, ticker, nf, fees[n - 1]));
        assert(0 < nf.size);
        crate::table::lemma_same_keys(
            before.tickers,
            after.tickers,
            ticker,
            after_fill(ts, nf, times[n - 1]),
        );
        assert(fills.take(n) =~= fills);
        assert(net_size(fills.take(n)) == net_size(some) + signed_size(
            nf.long_yes,
            nf.size as int,
        ));
        law_one_fill_balances(ts.position, ts.entry_price, nf);
        if entries_are_exact(steps, ticker, fills) {
            assert(entries_are_exact(past, ticker, some)) by {
                assert forall|i: int| 0 <= i < some.len() implies entry_is_exact(
                    past[i].tickers.at(ticker).position as int,
                    past[i].tickers.at(ticker).entry_price,
                    #[trigger] some[i],
                ) by {
                    assert(fills[i] == some[i]);
                }
            }
            assert(entry_is_exact(ts.position as int, ts.entry_price, fills[n - 1]));
        }
    }
}

/// Sums over the first fills do not look at what comes later.
proof fn lemma_sums_of_past(
    steps: Seq<TraderState>,
    ticker: Seq<char>,
    fills: Seq<NormalizedFill>,
    n: int,
)
    requires
        steps.len() == fills.len() + 1,
        0 <= n < fills.len(),
    ensures
        booked_gains(steps.drop_last(), ticker, fills.drop_last(), n) == booked_gains(
            steps,
            ticker,
            fills,
            n,
        ),
        rounding_in(steps.drop_last(), ticker, fills.drop_last(), n) == rounding_in(
            steps,
            ticker,
            fills,
            n,
        ),
    decreases n,
{
    if n > 0 {
        lemma_sums_of_past(steps, ticker, fills, n - 1);
    }
}

/// A market that settles realizes what a fill would that closed the whole
/// position at the payout, so the two ways to close book the same profit.
pub proof fn law_settlement_is_a_close_at_the_payout(ts: TickerState, yes: bool)
    requires
        ts.position != 0,
        ts.entry_price is Some,
    ensures
        settled_gain(ts, Some(yes)) == Some(
            realized_by(
                ts.position as int,
                ts.entry_price,
                ts.position < 0,
                magnitude(ts.position as int),
                payout(yes) as i64,
            ),
        ),
{
    let p = ts.position as int;
    let entry = ts.entry_price->Some_0 as int;
    let paid = payout(yes);
    if p < 0 {
        assert(p * (paid - entry) == (-p) * (entry - paid)) by (nonlinear_arith);
    }
}

/// Closing a position that came from before this process leaves the losing
/// streaks alone, and a winning close ends the category's streak.
pub proof fn law_streaks(losses: Map<Seq<char>, u64>, category: Seq<char>, realized: int)
    ensures
        streaks_after(losses, category, realized, false) == losses,
        realized > 0 ==> streak(streaks_after(losses, category, realized, true), category) == 0,
        realized < 0 && streak(losses, category) < u64::MAX ==> streak(
            streaks_after(losses, category, realized, true),
            category,
        ) == streak(losses, category) + 1,
        realized == 0 ==> streaks_after(losses, category, realized, true) == losses,
{
}

} // verus!
