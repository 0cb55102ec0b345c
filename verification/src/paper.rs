//! Paper trading: orders that never leave the process, and safe answers for
//! everything that the exchange would say of the account.

use vstd::prelude::*;

use crate::json::{Json, JsonView, Member};
use crate::num::{digits_value, number_text, write_number, Num};
use crate::text::{decimal, join2, numeral, same, signed_decimal, signed_numeral};

verus! {

/// Whether a paper order still rests.
#[derive(Debug, Clone, Copy, PartialEq, Eq, Structural)]
pub enum PaperStatus {
    Resting,
    Canceled,
}

/// One paper order.
#[derive(Debug)]
pub struct PaperOrder {
    pub order_id: String,
    pub market_ticker: String,
    pub side: String,
    /// The price in tenths of a cent.
    pub price_cents: i64,
    pub size: i64,
    pub status: PaperStatus,
}

/// The orders of a paper account, in the order in which they were placed.
pub struct PaperClient {
    pub orders: Vec<PaperOrder>,
    pub counter: u64,
}

/// The word for a status.
pub open spec fn status_word(status: PaperStatus) -> Seq<char> {
    match status {
        PaperStatus::Resting => "resting"@,
        PaperStatus::Canceled => "canceled"@,
    }
}

/// The id of the `n`-th order.
pub open spec fn paper_id(n: int) -> Seq<char> {
    "paper_order_"@ + decimal(n as nat)
}

/// An order after a cancellation.
pub open spec fn after_cancel(order: PaperOrder, id: Seq<char>) -> PaperOrder {
    if order.order_id@ == id {
        PaperOrder { status: PaperStatus::Canceled, ..order }
    } else {
        order
    }
}

/// The resting orders.
pub open spec fn resting_count(orders: Seq<PaperOrder>) -> int
    decreases orders.len(),
{
    if orders.len() == 0 {
        0
    } else {
        resting_count(orders.drop_last()) + (if orders.last().status == PaperStatus::Resting {
            1int
        } else {
            0
        })
    }
}

/// One field of an object.
pub open spec fn member(key: Seq<char>, value: JsonView) -> Member {
    Member { key, value }
}

/// The record of an order. The price is in cents.
pub open spec fn order_record(order: PaperOrder) -> JsonView {
    JsonView::Object(
        seq![
            member("order_id"@, JsonView::Text(order.order_id@)),
            member("market_ticker"@, JsonView::Text(order.market_ticker@)),
            member("side"@, JsonView::Text(order.side@)),
            member(
                "price_cents"@,
                JsonView::Number(
                    number_text(Num::Finite((order.price_cents * 100_000_000) as i128)),
                ),
            ),
            member("size"@, JsonView::Number(signed_decimal(order.size as int))),
            member("status"@, JsonView::Text(status_word(order.status))),
        ],
    )
}

/// The orders with a status are asked for, or all of them.
pub open spec fn has_status(order: PaperOrder, status: Option<&str>) -> bool {
    match status {
        Some(word) => status_word(order.status) == word@,
        None => true,
    }
}

/// The records of the orders asked for.
pub open spec fn records_of(orders: Seq<PaperOrder>, status: Option<&str>) -> Seq<JsonView>
    decreases orders.len(),
{
    if orders.len() == 0 {
        seq![]
    } else {
        let before = records_of(orders.drop_last(), status);
        if has_status(orders.last(), status) {
            before.push(order_record(orders.last()))
        } else {
            before
        }
    }
}

/// An object of one field.
pub open spec fn single(key: Seq<char>, value: JsonView) -> JsonView {
    JsonView::Object(seq![member(key, value)])
}

/// An empty list.
pub open spec fn no_items() -> JsonView {
    JsonView::Array(seq![])
}

/// Makes a text.
fn make_text(text: &str) -> (r: Json)
    ensures
        r@ == JsonView::Text(text@),
{
    Json::Text(text.to_string())
}

/// Makes a number.
fn make_number(text: &str) -> (r: Json)
    ensures
        r@ == JsonView::Number(text@),
{
    Json::Number(text.to_string())
}

/// Makes a null.
fn make_null() -> (r: Json)
    ensures
        r@ == JsonView::Null,
{
    Json::Null
}

/// Makes an object of one field.
fn make_single(key: &str, value: Json) -> (r: Json)
    ensures
        r@ == single(key@, value@),
{
    let ghost v = value@;
    let mut fields: Vec<(String, Json)> = Vec::new();
    fields.push((key.to_string(), value));
    let r = Json::Object(fields);
    assert(r@->Object_0 =~= seq![member(key@, v)]);
    r
}

/// Makes an empty list.
fn make_empty() -> (r: Json)
    ensures
        r@ == no_items(),
{
    let items: Vec<Json> = Vec::new();
    let r = Json::Array(items);
    assert(r@->Array_0 =~= Seq::<JsonView>::empty());
    r
}

/// Makes a list of two numbers.
fn make_row(price: &str, qty: &str) -> (r: Json)
    ensures
        r@ == row_of(price@, qty@),
{
    make_pair(make_number(price), make_number(qty))
}

/// A row of an order book.
pub open spec fn row_of(price: Seq<char>, qty: Seq<char>) -> JsonView {
    JsonView::Array(seq![JsonView::Number(price), JsonView::Number(qty)])
}

/// Makes a list of two values.
fn make_pair(a: Json, b: Json) -> (r: Json)
    ensures
        r@ == JsonView::Array(seq![a@, b@]),
{
    let ghost va = a@;
    let ghost vb = b@;
    let mut items: Vec<Json> = Vec::new();
    items.push(a);
    items.push(b);
    let r = Json::Array(items);
    assert(r@->Array_0 =~= seq![va, vb]);
    r
}

/// The record of an order.
fn make_record(order: &PaperOrder) -> (r: Json)
    ensures
        r@ == order_record(*order),
{
    let status = match order.status {
        PaperStatus::Resting => "resting",
        PaperStatus::Canceled => "canceled",
    };
    let mut fields: Vec<(String, Json)> = Vec::new();
    fields.push(("order_id".to_string(), make_text(order.order_id.as_str())));
    fields.push(("market_ticker".to_string(), make_text(order.market_ticker.as_str())));
    fields.push(("side".to_string(), make_text(order.side.as_str())));
    let cents = write_number(Num::Finite(order.price_cents as i128 * 100_000_000));
    fields.push(("price_cents".to_string(), make_number(cents.as_str())));
    let size = signed_numeral(order.size);
    fields.push(("size".to_string(), make_number(size.as_str())));
    fields.push(("status".to_string(), make_text(status)));
    let r = Json::Object(fields);
    assert(r@->Object_0 =~= order_record(*order)->Object_0);
    r
}

/// One call that changes the orders.
pub enum PaperCall {
    Place { ticker: Seq<char>, side: Seq<char>, price_cents: int, size: int },
    Cancel { order_id: Seq<char> },
    CancelAll,
}

/// An order as it was asked for.
pub open spec fn as_placed(order: PaperOrder, call: PaperCall) -> bool {
    call matches PaperCall::Place { ticker, side, price_cents, size } && {
        &&& order.market_ticker@ == ticker
        &&& order.side@ == side
        &&& order.price_cents == price_cents
        &&& order.size == size
    }
}

/// What a call does to the orders: placing adds one that rests, with the next
/// id, and canceling changes the status of the orders that it names.
pub open spec fn called(
    before: Seq<PaperOrder>,
    call: PaperCall,
    after: Seq<PaperOrder>,
) -> bool {
    match call {
        PaperCall::Place { .. } => {
            &&& after.len() == before.len() + 1
            &&& after.drop_last() == before
            &&& after.last().order_id@ == paper_id(before.len() as int + 1)
            &&& after.last().status == PaperStatus::Resting
            &&& as_placed(after.last(), call)
        },
        PaperCall::Cancel { order_id } => after == before.map_values(
            |o: PaperOrder| after_cancel(o, order_id),
        ),
        PaperCall::CancelAll => after == before.map_values(
            |o: PaperOrder| PaperOrder { status: PaperStatus::Canceled, ..o },
        ),
    }
}

impl PaperClient {
    /// Every order has the id of its place, and the counter counts them.
    pub open spec fn wf(&self) -> bool {
        &&& self.counter == self.orders@.len()
        &&& forall|i: int|
            0 <= i < self.orders@.len() ==> (#[trigger] self.orders@[i]).order_id@ == paper_id(
                i + 1,
            )
    }

    /// An account without orders.
    pub fn new() -> (r: Self)
        ensures
            r.wf(),
            r.orders@ == Seq::<PaperOrder>::empty(),
    {
        PaperClient { orders: Vec::new(), counter: 0 }
    }

    /// Places an order; the answer holds its id.
    pub fn place_limit_order(&mut self, ticker: &str, side: &str, price_cents: i64, size: i64) -> (r:
        Json)
        requires
            old(self).wf(),
            old(self).counter < u64::MAX,
        ensures
            final(self).wf(),
            called(
                old(self).orders@,
                PaperCall::Place {
                    ticker: ticker@,
                    side: side@,
                    price_cents: price_cents as int,
                    size: size as int,
                },
                final(self).orders@,
            ),
            r@ == single("order_id"@, JsonView::Text(final(self).orders@.last().order_id@)),
    {
        let ghost before = self.orders@;
        self.counter = self.counter + 1;
        let count = numeral(self.counter as u128);
        let order_id = join2("paper_order_", count.as_str());
        self.orders.push(
            PaperOrder {
                order_id: order_id.clone(),
                market_ticker: ticker.to_string(),
                side: side.to_string(),
                price_cents,
                size,
                status: PaperStatus::Resting,
            },
        );
        assert(self.orders@.drop_last() =~= before);
        make_single("order_id", make_text(order_id.as_str()))
    }

    /// Cancels an order. An id that is not there is answered alike.
    pub fn cancel_order(&mut self, order_id: &str) -> (r: Json)
        requires
            old(self).wf(),
        ensures
            final(self).wf(),
            final(self).counter == old(self).counter,
            called(
                old(self).orders@,
                PaperCall::Cancel { order_id: order_id@ },
                final(self).orders@,
            ),
            r@ == JsonView::Object(
                seq![
                    member("order_id"@, JsonView::Text(order_id@)),
                    member("status"@, JsonView::Text("canceled"@)),
                ],
            ),
    {
        let ghost before = self.orders@;
        let mut i: usize = 0;
        while i < self.orders.len()
            invariant
                i <= self.orders@.len(),
                self.orders@.len() == before.len(),
                self.counter == old(self).counter,
                forall|k: int|
                    0 <= k < i ==> #[trigger] self.orders@[k] == after_cancel(before[k], order_id@),
                forall|k: int| i <= k < before.len() ==> #[trigger] self.orders@[k] == before[k],
            decreases self.orders@.len() - i,
        {
            if same(self.orders[i].order_id.as_str(), order_id) {
                let order = &mut self.orders[i];
                order.status = PaperStatus::Canceled;
            }
            i += 1;
        }
        assert(self.orders@ =~= before.map_values(|o: PaperOrder| after_cancel(o, order_id@)));
        let mut fields: Vec<(String, Json)> = Vec::new();
        fields.push(("order_id".to_string(), make_text(order_id)));
        fields.push(("status".to_string(), make_text("canceled")));
        let r = Json::Object(fields);
        assert(r@->Object_0 =~= seq![
            member("order_id"@, JsonView::Text(order_id@)),
            member("status"@, JsonView::Text("canceled"@)),
        ]);
        r
    }

    /// Cancels every resting order; returns how many there were.
    pub fn cancel_all_orders(&mut self) -> (r: u64)
        requires
            old(self).wf(),
        ensures
            final(self).wf(),
            final(self).counter == old(self).counter,
            r == resting_count(old(self).orders@),
            called(old(self).orders@, PaperCall::CancelAll, final(self).orders@),
    {
        let ghost before = self.orders@;
        let mut count: u64 = 0;
        let mut i: usize = 0;
        while i < self.orders.len()
            invariant
                old(self).wf(),
                before == old(self).orders@,
                i <= self.orders@.len(),
                self.orders@.len() == before.len(),
                self.counter == old(self).counter,
                count <= i,
                count == resting_count(before.take(i as int)),
                forall|k: int|
                    0 <= k < i ==> #[trigger] self.orders@[k] == (PaperOrder {
                        status: PaperStatus::Canceled,
                        ..before[k]
                    }),
                forall|k: int| i <= k < before.len() ==> #[trigger] self.orders@[k] == before[k],
            decreases self.orders@.len() - i,
        {
            proof {
                assert(before.take(i + 1).drop_last() =~= before.take(i as int));
                assert(before.take(i + 1).last() == before[i as int]);
            }
            if self.orders[i].status == PaperStatus::Resting {
                count = count + 1;
            }
            let order = &mut self.orders[i];
            order.status = PaperStatus::Canceled;
            i += 1;
        }
        assert(before.take(before.len() as int) =~= before);
        assert(self.orders@ =~= before.map_values(
            |o: PaperOrder| PaperOrder { status: PaperStatus::Canceled, ..o },
        ));
        count
    }

    /// The records of the orders with a status, or of all.
    pub fn get_orders(&self, status: Option<&str>) -> (r: Json)
        ensures
            r@ == single("orders"@, JsonView::Array(records_of(self.orders@, status))),
    {
        let mut items: Vec<Json> = Vec::new();
        let ghost orders = self.orders@;
        let mut i: usize = 0;
        while i < self.orders.len()
            invariant
                orders == self.orders@,
                i <= orders.len(),
                items@.map_values(|j: Json| j@) =~= records_of(orders.take(i as int), status),
            decreases orders.len() - i,
        {
            proof {
                assert(orders.take(i + 1).drop_last() =~= orders.take(i as int));
                assert(orders.take(i + 1).last() == orders[i as int]);
            }
            let word = match self.orders[i].status {
                PaperStatus::Resting => "resting",
                PaperStatus::Canceled => "canceled",
            };
            let wanted = match status {
                Some(s) => same(word, s),
                None => true,
            };
            if wanted {
                let ghost before = items@.map_values(|j: Json| j@);
                items.push(make_record(&self.orders[i]));
                assert(items@.map_values(|j: Json| j@) =~= before.push(
                    order_record(orders[i as int]),
                ));
            }
            i += 1;
        }
        assert(orders.take(orders.len() as int) =~= orders);
        let ghost seen = items@.map_values(|j: Json| j@);
        let list = Json::Array(items);
        assert(list@->Array_0 =~= seen);
        make_single("orders", list)
    }

    /// No positions: paper orders never fill.
    pub fn get_positions(&self) -> (r: Json)
        ensures
            r@ == single("positions"@, no_items()),
    {
        make_single("positions", make_empty())
    }

    /// No fills: paper orders never fill.
    pub fn get_fills(&self) -> (r: Json)
        ensures
            r@ == single("fills"@, no_items()),
    {
        make_single("fills", make_empty())
    }

    /// No settlements: there are no positions.
    pub fn get_settlements(&self) -> (r: Json)
        ensures
            r@ == single("settlements"@, no_items()),
    {
        make_single("settlements", make_empty())
    }

    /// No markets, where there is no exchange to ask.
    pub fn get_markets(&self) -> (r: Json)
        ensures
            r@ == JsonView::Object(
                seq![member("markets"@, no_items()), member("cursor"@, JsonView::Null)],
            ),
    {
        let mut fields: Vec<(String, Json)> = Vec::new();
        fields.push(("markets".to_string(), make_empty()));
        fields.push(("cursor".to_string(), make_null()));
        let r = Json::Object(fields);
        assert(r@->Object_0 =~= seq![
            member("markets"@, no_items()),
            member("cursor"@, JsonView::Null),
        ]);
        r
    }

    /// Nothing about a market, where there is no exchange to ask.
    pub fn get_market(&self) -> (r: Json)
        ensures
            r@ == single("market"@, JsonView::Object(seq![])),
    {
        let fields: Vec<(String, Json)> = Vec::new();
        let empty = Json::Object(fields);
        assert(empty@->Object_0 =~= Seq::<Member>::empty());
        make_single("market", empty)
    }

    /// A fixed book, where there is no exchange to ask.
    pub fn get_orderbook(&self) -> (r: Json)
        ensures
            r@ == single(
                "orderbook"@,
                JsonView::Object(
                    seq![
                        member(
                            "yes"@,
                            JsonView::Array(seq![row_of("0.01"@, "100"@), row_of("0.02"@, "100"@)]),
                        ),
                        member(
                            "no"@,
                            JsonView::Array(seq![row_of("0.99"@, "100"@), row_of("0.98"@, "100"@)]),
                        ),
                    ],
                ),
            ),
    {
        let yes = make_pair(make_row("0.01", "100"), make_row("0.02", "100"));
        let no = make_pair(make_row("0.99", "100"), make_row("0.98", "100"));
        let ghost vy = yes@;
        let ghost vn = no@;
        let mut fields: Vec<(String, Json)> = Vec::new();
        fields.push(("yes".to_string(), yes));
        fields.push(("no".to_string(), no));
        let book = Json::Object(fields);
        assert(book@->Object_0 =~= seq![member("yes"@, vy), member("no"@, vn)]);
        make_single("orderbook", book)
    }
}

// --- laws --------------------------------------------------------------------

/// A canceled order is no longer among the resting ones.
pub proof fn law_canceled_orders_do_not_rest(orders: Seq<PaperOrder>, id: Seq<char>, i: int)
    requires
        0 <= i < orders.len(),
        orders[i].order_id@ == id,
    ensures
        orders.map_values(|o: PaperOrder| after_cancel(o, id))[i].status == PaperStatus::Canceled,
{
}

/// After all orders are canceled none rests, and canceling again finds none.
pub proof fn law_cancel_all_leaves_none(orders: Seq<PaperOrder>)
    ensures
        resting_count(
            orders.map_values(|o: PaperOrder| PaperOrder { status: PaperStatus::Canceled, ..o }),
        ) == 0,
    decreases orders.len(),
{
    let f = |o: PaperOrder| PaperOrder { status: PaperStatus::Canceled, ..o };
    if orders.len() > 0 {
        law_cancel_all_leaves_none(orders.drop_last());
        assert(orders.map_values(f).drop_last() =~= orders.drop_last().map_values(f));
    }
}

/// The value of a numeral is the number that it was written for.
pub proof fn lemma_decimal_value(n: nat)
    ensures
        digits_value(decimal(n)) == n,
    decreases n,
{
    if n < 10 {
        let s = decimal(n);
        assert(s.drop_last() =~= Seq::empty());
        assert(digits_value(s.drop_last()) == 0);
    } else {
        lemma_decimal_value(n / 10);
        assert(decimal(n).drop_last() =~= decimal(n / 10));
    }
}

/// Different orders have different ids.
pub proof fn law_ids_differ(a: int, b: int)
    requires
        0 <= a,
        0 <= b,
        a != b,
    ensures
        paper_id(a) != paper_id(b),
{
    if paper_id(a) == paper_id(b) {
        let n = "paper_order_"@.len() as int;
        assert(paper_id(a).skip(n) =~= decimal(a as nat));
        assert(paper_id(b).skip(n) =~= decimal(b as nat));
        lemma_decimal_value(a as nat);
        lemma_decimal_value(b as nat);
    }
}

/// The calls that place an order, by their places among the calls.
pub open spec fn placings(calls: Seq<PaperCall>) -> Seq<int>
    decreases calls.len(),
{
    if calls.len() == 0 {
        seq![]
    } else {
        let before = placings(calls.drop_last());
        if calls.last() is Place {
            before.push(calls.len() - 1)
        } else {
            before
        }
    }
}

/// The call cancels the order with this id.
pub open spec fn cancels(call: PaperCall, id: Seq<char>) -> bool {
    match call {
        PaperCall::Place { .. } => false,
        PaperCall::Cancel { order_id } => order_id == id,
        PaperCall::CancelAll => true,
    }
}

/// A call behind the place `from` cancels the order with this id.
pub open spec fn canceled_since(calls: Seq<PaperCall>, from: int, id: Seq<char>) -> bool {
    exists|j: int| from < j < calls.len() && cancels(#[trigger] calls[j], id)
}

/// After any calls on an empty account its orders are those that were placed,
/// in that order and as they were asked for, each under an id of its own, and
/// an order rests exactly when no call has canceled it since.
pub proof fn law_orders_rest_until_canceled(states: Seq<Seq<PaperOrder>>, calls: Seq<PaperCall>)
    requires
        states.len() == calls.len() + 1,
        states[0].len() == 0,
        forall|i: int|
            0 <= i < calls.len() ==> called(states[i], #[trigger] calls[i], states[i + 1]),
    ensures
        ({
            let orders = states.last();
            let placed = placings(calls);
            &&& orders.len() == placed.len()
            &&& forall|k: int|
                0 <= k < orders.len() ==> {
                    &&& 0 <= placed[k] < calls.len()
                    &&& as_placed(#[trigger] orders[k], calls[placed[k]])
                    &&& orders[k].order_id@ == paper_id(k + 1)
                    &&& orders[k].status == PaperStatus::Resting <==> !is_canceled(calls, k)
                }
            &&& forall|j: int, k: int|
                0 <= j < k < orders.len() ==> (#[trigger] orders[j]).order_id@ != (
                #[trigger] orders[k]).order_id@
        }),
    decreases calls.len(),
{
    let orders = states.last();
    let placed = placings(calls);
    if calls.len() > 0 {
        let n = calls.len() - 1;
        let some = calls.drop_last();
        let past = states.drop_last();
        let old_orders = past.last();
        let call = calls[n];
        assert forall|i: int| 0 <= i < some.len() implies called(
            past[i],
            #[trigger] some[i],
            past[i + 1],
        ) by {
            assert(called(states[i], calls[i], states[i + 1]));
        }
        law_orders_rest_until_canceled(past, some);
        let before = placings(some);
        assert(called(old_orders, call, orders));
        assert forall|k: int| 0 <= k < orders.len() implies {
            &&& 0 <= placed[k] < calls.len()
            &&& as_placed(#[trigger] orders[k], calls[placed[k]])
            &&& orders[k].order_id@ == paper_id(k + 1)
            &&& orders[k].status == PaperStatus::Resting <==> !is_canceled(calls, k)
        } by {
            let id = paper_id(k + 1);
            if k < old_orders.len() {
                let was = old_orders[k];
                assert(placed[k] == before[k]);
                assert(as_placed(was, some[before[k]]));
                assert(call is Place ==> orders[k] == orders.drop_last()[k]);
                assert(canceled_since(calls, placed[k], id) == (canceled_since(
                    some,
                    before[k],
                    id,
                ) || cancels(call, id))) by {
                    if canceled_since(some, before[k], id) {
                        let j = choose|j: int|
                            before[k] < j < some.len() && cancels(#[trigger] some[j], id);
                        assert(cancels(calls[j], id));
                    }
                    if cancels(call, id) {
                        assert(cancels(calls[n], id));
                    }
                    if canceled_since(calls, placed[k], id) {
                        let j = choose|j: int|
                            placed[k] < j < calls.len() && cancels(#[trigger] calls[j], id);
                        if j < n {
                            assert(cancels(some[j], id));
                        }
                    }
                }
            } else {
                assert(orders[k] == orders.last());
                assert(placed[k] == n);
            }
        }
    }
    assert forall|j: int, k: int| 0 <= j < k < orders.len() implies (
    #[trigger] orders[j]).order_id@ != (#[trigger] orders[k]).order_id@ by {
        law_ids_differ(j + 1, k + 1);
    }
}

/// A call behind the one that placed the order at place `k` cancels it.
pub open spec fn is_canceled(calls: Seq<PaperCall>, k: int) -> bool {
    canceled_since(calls, placings(calls)[k], paper_id(k + 1))
}

/// The records of those of the first `n` orders that no call has canceled
/// since they were placed.
pub open spec fn uncanceled_records(
    orders: Seq<PaperOrder>,
    calls: Seq<PaperCall>,
    n: int,
) -> Seq<JsonView>
    decreases n,
{
    if n <= 0 {
        seq![]
    } else {
        let before = uncanceled_records(orders, calls, n - 1);
        if is_canceled(calls, n - 1) {
            before
        } else {
            before.push(order_record(orders[n - 1]))
        }
    }
}

/// After any calls on an empty account the list of resting orders shows those
/// that no call has canceled since they were placed, in the order in which they
/// were; right after all were canceled it is empty.
pub proof fn law_the_resting_list(states: Seq<Seq<PaperOrder>>, calls: Seq<PaperCall>)
    requires
        states.len() == calls.len() + 1,
        states[0].len() == 0,
        forall|i: int|
            0 <= i < calls.len() ==> called(states[i], #[trigger] calls[i], states[i + 1]),
    ensures
        ({
            let orders = states.last();
            let shown = records_of(orders, Some("resting"));
            &&& shown == uncanceled_records(orders, calls, orders.len() as int)
            &&& calls.len() > 0 && calls.last() is CancelAll ==> shown.len() == 0
        }),
{
    let orders = states.last();
    law_orders_rest_until_canceled(states, calls);
    lemma_resting_records(orders, calls, orders.len() as int);
    assert(orders.take(orders.len() as int) =~= orders);
    if calls.len() > 0 && calls.last() is CancelAll {
        let last = calls.len() - 1;
        assert forall|k: int| 0 <= k < orders.len() implies is_canceled(calls, k) by {
            let at = placings(calls)[k];
            assert(as_placed(orders[k], calls[at]));
            assert(at < last && cancels(calls[last], paper_id(k + 1)));
        }
        lemma_none_uncanceled(orders, calls, orders.len() as int);
    }
}

/// The first resting orders are the first ones that are not canceled.
proof fn lemma_resting_records(orders: Seq<PaperOrder>, calls: Seq<PaperCall>, n: int)
    requires
        0 <= n <= orders.len(),
        forall|k: int|
            0 <= k < orders.len() ==> ((#[trigger] orders[k]).status == PaperStatus::Resting
                <==> !is_canceled(calls, k)),
    ensures
        records_of(orders.take(n), Some("resting")) == uncanceled_records(orders, calls, n),
    decreases n,
{
    reveal_strlit("resting");
    reveal_strlit("canceled");
    assert("resting"@.len() != "canceled"@.len());
    if n > 0 {
        lemma_resting_records(orders, calls, n - 1);
        let last = orders[n - 1];
        assert(orders.take(n).drop_last() =~= orders.take(n - 1));
        assert(orders.take(n).last() == last);
        assert(has_status(last, Some("resting")) == (last.status == PaperStatus::Resting));
    }
}

/// When the last call canceled all, none is left.
proof fn lemma_none_uncanceled(orders: Seq<PaperOrder>, calls: Seq<PaperCall>, n: int)
    requires
        forall|k: int| 0 <= k < orders.len() ==> is_canceled(calls, k),
        0 <= n <= orders.len(),
    ensures
        uncanceled_records(orders, calls, n).len() == 0,
    decreases n,
{
    if n > 0 {
        lemma_none_uncanceled(orders, calls, n - 1);
    }
}

} // verus!
