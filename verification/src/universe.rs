//! The markets that the trader quotes: how the set is made, how it is kept
//! fresh while series expire and reopen, and what is known of each market.

use vstd::prelude::*;

use crate::book::{first_field, level_map, replaced, Book};
use crate::config::{has_feed, CategoryConfig, Config};
use crate::json::{Json, JsonView};
use crate::ladder::{names_view, Ladders};
use crate::replies::{
    close_of, diff_universe, lemma_names_without, names_without, read_close, read_tick, tick_of,
};
use crate::spot::SpotState;
use crate::state::{is_fresh, TickerState, TraderState, PENNY};
use crate::table::Table;
use crate::text::{before, less, same};
use crate::trader::{distinct, held, Trader};

verus! {

/// How often the open markets are looked up again, in seconds.
pub const MARKET_REFRESH_S: u64 = 900;

/// The names of a table as a list.
pub fn names_of<V>(t: &Table<V>) -> (r: Vec<String>)
    requires
        t.wf(),
    ensures
        names_view(r@) == t.keys(),
{
    let mut out: Vec<String> = Vec::new();
    let mut i: usize = 0;
    while i < t.len()
        invariant
            t.wf(),
            i <= t.keys().len(),
            names_view(out@) =~= t.keys().take(i as int),
        decreases t.keys().len() - i,
    {
        let ghost so_far = names_view(out@);
        out.push(t.key_at(i).to_string());
        assert(names_view(out@) =~= so_far.push(t.keys()[i as int]));
        i += 1;
    }
    assert(t.keys().take(t.keys().len() as int) =~= t.keys());
    out
}

/// The names of a table as a set.
fn set_of(t: &Table<String>) -> (r: Table<()>)
    requires
        t.wf(),
    ensures
        r.wf(),
        forall|k: Seq<char>| #[trigger] r.has(k) <==> t.has(k),
{
    let mut out: Table<()> = Table::new();
    let ghost keys = t.keys();
    let mut i: usize = 0;
    while i < t.len()
        invariant
            t.wf(),
            out.wf(),
            keys == t.keys(),
            i <= keys.len(),
            forall|k: Seq<char>| #[trigger] out.has(k) <==> keys.take(i as int).contains(k),
        decreases keys.len() - i,
    {
        let ghost prior = out;
        out.insert(t.key_at(i).to_string(), ());
        proof {
            assert forall|k: Seq<char>| #[trigger] out.has(k) <==> keys.take(i + 1).contains(k) by {
                crate::trader::lemma_take_contains(keys, i as int, k);
                assert(out@.dom().contains(k) <==> prior@.dom().contains(k) || k
                    == keys[i as int]);
                assert(prior.has(k) <==> keys.take(i as int).contains(k));
            }
        }
        i += 1;
    }
    assert(keys.take(keys.len() as int) =~= keys);
    out
}

/// One of the first `n` categories has this name and follows a feed.
pub open spec fn follows_feed(categories: Seq<CategoryConfig>, name: Seq<char>, n: int) -> bool {
    exists|i: int|
        0 <= i < n && (#[trigger] categories[i]).spot_feed is Some && categories[i].name@ == name
}

/// The categories that follow a feed.
fn bound_categories(categories: &Vec<CategoryConfig>) -> (r: Table<()>)
    ensures
        r.wf(),
        forall|k: Seq<char>| #[trigger]
            r.has(k) <==> follows_feed(categories@, k, categories@.len() as int),
{
    let mut out: Table<()> = Table::new();
    let mut i: usize = 0;
    while i < categories.len()
        invariant
            out.wf(),
            i <= categories.len(),
            forall|k: Seq<char>| #[trigger]
                out.has(k) <==> follows_feed(categories@, k, i as int),
        decreases categories.len() - i,
    {
        let ghost prior = out;
        if categories[i].spot_feed.is_some() {
            out.insert(categories[i].name.clone(), ());
        }
        proof {
            let c = categories@[i as int];
            assert forall|k: Seq<char>| #[trigger] out.has(k) <==> follows_feed(
                categories@,
                k,
                i + 1,
            ) by {
                assert(prior.has(k) <==> follows_feed(categories@, k, i as int));
                if c.spot_feed is Some {
                    assert(out@.dom().contains(k) <==> prior@.dom().contains(k) || k == c.name@);
                }
                if follows_feed(categories@, k, i + 1) {
                    let j = choose|j: int|
                        0 <= j < i + 1 && (#[trigger] categories@[j]).spot_feed is Some
                            && categories@[j].name@ == k;
                    if j < i {
                        assert(follows_feed(categories@, k, i as int));
                    }
                }
                if follows_feed(categories@, k, i as int) {
                    let j = choose|j: int|
                        0 <= j < i && (#[trigger] categories@[j]).spot_feed is Some
                            && categories@[j].name@ == k;
                    assert(categories@[j].spot_feed is Some);
                }
            }
        }
        i += 1;
    }
    out
}

/// A refresh of the markets.
pub struct Refresh {
    /// The markets that are new.
    pub added: Vec<String>,
    /// The markets that have gone.
    pub pruned: Vec<String>,
}

/// The market is quoted after a refresh: it is open, or it was quoted and
/// still holds a position.
pub open spec fn stays(t: Trader, found: Table<String>, k: Seq<char>) -> bool {
    found.has(k) || (t.active_tickers.has(k) && held(t.state.tickers, k) != 0)
}

impl Trader {
    /// A trader without markets.
    pub fn new(cfg: Config, now_s: i64) -> (r: Self)
        requires
            has_feed(cfg.categories@) ==> cfg.spot.fv_shift_max >= 0,
        ensures
            r.wf(),
            r.cfg == cfg,
            r.state.at_start(now_s),
            r.active_tickers.keys() == Seq::<Seq<char>>::empty(),
            r.active_set.keys() == Seq::<Seq<char>>::empty(),
            r.running,
            r.ladders.of(Seq::empty()),
            r.spot.ticks() == Seq::<(i64, i64)>::empty(),
            r.spot.average() is None,
            r.spot.horizon() == cfg.spot.fv_ema_tau_s,
            forall|k: Seq<char>| #[trigger]
                r.spot_bound.has(k) <==> follows_feed(
                    cfg.categories@,
                    k,
                    cfg.categories@.len() as int,
                ),
            !r.spot_gate_on,
            r.spot_unwind_next@ == Map::<Seq<char>, i64>::empty(),
            r.spot_unwind_fired_until@ == Map::<Seq<char>, i64>::empty(),
            r.settlement_checks@ == Map::<Seq<char>, u32>::empty(),
    {
        let spot_bound = bound_categories(&cfg.categories);
        let tau: i64 = cfg.spot.fv_ema_tau_s;
        assert(forall|k: Seq<char>| #[trigger]
            spot_bound.has(k) ==> has_feed(cfg.categories@));
        Trader {
            cfg,
            state: TraderState::new(now_s),
            active_tickers: Table::new(),
            active_set: Table::new(),
            running: true,
            spot: SpotState::new(tau),
            ladders: Ladders::new(),
            spot_bound,
            spot_gate_on: false,
            spot_unwind_next: Table::new(),
            spot_unwind_fired_until: Table::new(),
            settlement_checks: Table::new(),
        }
    }

    /// Takes the open markets as the markets to quote, at the start.
    pub fn discover_markets(&mut self, found: Table<String>)
        requires
            old(self).wf(),
            found.wf(),
        ensures
            final(self).wf(),
            final(self).active_tickers == found,
            final(self).ladders.of(found.keys()),
            *final(self) == (Trader {
                active_tickers: final(self).active_tickers,
                active_set: final(self).active_set,
                ladders: final(self).ladders,
                ..*old(self)
            }),
    {
        self.active_set = set_of(&found);
        self.ladders = Ladders::build(&names_of(&found));
        self.active_tickers = found;
    }

    /// The markets that have gone from the open ones and hold no position.
    fn prunable(&self, removed: &Vec<String>) -> (r: Vec<String>)
        requires
            self.wf(),
            distinct(removed@),
        ensures
            distinct(r@),
            forall|k: Seq<char>| #[trigger]
                names_view(r@).contains(k) <==> names_view(removed@).contains(k) && held(
                    self.state.tickers,
                    k,
                ) == 0,
    {
        let mut out: Vec<String> = Vec::new();
        let ghost names = names_view(removed@);
        assert(names_view(out@) =~= Seq::<Seq<char>>::empty());
        let mut i: usize = 0;
        while i < removed.len()
            invariant
                self.wf(),
                names == names_view(removed@),
                names.no_duplicates(),
                i <= removed.len(),
                distinct(out@),
                forall|k: Seq<char>| #[trigger]
                    names_view(out@).contains(k) <==> names.take(i as int).contains(k) && held(
                        self.state.tickers,
                        k,
                    ) == 0,
            decreases removed.len() - i,
        {
            let flat = match self.state.tickers.get(removed[i].as_str()) {
                Some(ts) => ts.position == 0,
                None => true,
            };
            proof {
                assert(names[i as int] == removed@[i as int]@);
                assert forall|k: Seq<char>| #[trigger] names.take(i + 1).contains(k) <==> names.take(
                    i as int,
                ).contains(k) || k == names[i as int] by {
                    crate::trader::lemma_take_contains(names, i as int, k);
                }
                if names.take(i as int).contains(names[i as int]) {
                    let j = choose|j: int|
                        0 <= j < i && names.take(i as int)[j] == names[i as int];
                    assert(names[j] == names[i as int]);
                }
            }
            if flat {
                proof {
                    crate::trader::lemma_push_distinct(out@, removed@[i as int]);
                }
                out.push(removed[i].clone());
            }
            i += 1;
        }
        assert(names.take(names.len() as int) =~= names);
        out
    }

    /// Takes the markets that are open now: new ones are added, and those that
    /// have gone are dropped once they hold no position. Nothing open at all
    /// means that the lookup failed, and changes nothing.
    pub fn refresh_markets(&mut self, found: &Table<String>) -> (r: Refresh)
        requires
            old(self).wf(),
            found.wf(),
        ensures
            final(self).wf(),
            found.keys().len() == 0 ==> {
                &&& r.added@.len() == 0
                &&& r.pruned@.len() == 0
                &&& *final(self) == *old(self)
            },
            found.keys().len() > 0 ==> {
                &&& names_view(r.added@) == names_without(found.keys(), old(self).active_tickers)
                &&& distinct(r.pruned@)
                &&& forall|k: Seq<char>| #[trigger]
                    names_view(r.pruned@).contains(k) <==> old(self).active_tickers.has(k)
                        && !stays(*old(self), *found, k)
                &&& forall|k: Seq<char>| #[trigger]
                    final(self).active_tickers.has(k) <==> stays(*old(self), *found, k)
                &&& forall|k: Seq<char>| #[trigger]
                    final(self).active_tickers.has(k) ==> final(self).active_tickers.at(k)@
                        == if old(self).active_tickers.has(k) {
                        old(self).active_tickers.at(k)@
                    } else {
                        found.at(k)@
                    }
                &&& if r.added@.len() == 0 && r.pruned@.len() == 0 {
                    *final(self) == *old(self)
                } else {
                    final(self).ladders.of(final(self).active_tickers.keys())
                }
                &&& *final(self) == (Trader {
                    active_tickers: final(self).active_tickers,
                    active_set: final(self).active_set,
                    ladders: final(self).ladders,
                    ..*old(self)
                })
            },
    {
        if found.len() == 0 {
            return Refresh { added: Vec::new(), pruned: Vec::new() };
        }
        let ghost start = self.active_tickers;
        let (added, removed) = diff_universe(&self.active_tickers, found);
        proof {
            lemma_without_distinct(start.keys(), *found);
            lemma_without_distinct(found.keys(), start);
            assert forall|k: Seq<char>| #[trigger]
                names_view(removed@).contains(k) <==> start.has(k) && !found.has(k) by {
                lemma_names_without(start.keys(), *found, k);
            }
            assert forall|k: Seq<char>| #[trigger]
                names_view(added@).contains(k) <==> found.has(k) && !start.has(k) by {
                lemma_names_without(found.keys(), start, k);
            }
        }
        let pruned = self.prunable(&removed);
        if added.len() == 0 && pruned.len() == 0 {
            proof {
                assert(names_view(added@) =~= Seq::<Seq<char>>::empty());
                assert(names_view(pruned@) =~= Seq::<Seq<char>>::empty());
                assert forall|k: Seq<char>| #[trigger]
                    self.active_tickers.has(k) <==> stays(*old(self), *found, k) by {
                    assert(!names_view(pruned@).contains(k));
                    assert(!names_view(added@).contains(k));
                    assert(names_view(removed@).contains(k) <==> start.has(k) && !found.has(k));
                }
            }
            return Refresh { added, pruned };
        }
        let mut active: Table<String> = Table::new();
        let ghost was = self.active_tickers.keys();
        let mut i: usize = 0;
        while i < self.active_tickers.len()
            invariant
                self.wf(),
                active.wf(),
                found.wf(),
                *self == *old(self),
                start == self.active_tickers,
                was == start.keys(),
                i <= was.len(),
                forall|k: Seq<char>| #[trigger]
                    active.has(k) <==> was.take(i as int).contains(k) && stays(*old(self), *found, k),
                forall|k: Seq<char>| #[trigger]
                    active.has(k) ==> start.has(k) && active.at(k)@ == start.at(k)@,
            decreases was.len() - i,
        {
            let ghost prior = active;
            let key = self.active_tickers.key_at(i);
            let holds = match self.state.tickers.get(key) {
                Some(ts) => ts.position != 0,
                None => false,
            };
            if found.contains(key) || holds {
                let category = self.active_tickers.value_at(i).clone();
                proof {
                    crate::table::lemma_at(start, i as int);
                }
                active.insert(key.to_string(), category);
            }
            proof {
                assert forall|k: Seq<char>| #[trigger]
                    active.has(k) <==> was.take(i + 1).contains(k) && stays(
                        *old(self),
                        *found,
                        k,
                    ) by {
                    crate::trader::lemma_take_contains(was, i as int, k);
                    assert(prior.has(k) <==> was.take(i as int).contains(k) && stays(
                        *old(self),
                        *found,
                        k,
                    ));
                    assert(start.has(was[i as int]));
                    if stays(*old(self), *found, was[i as int]) {
                        assert(active@.dom().contains(k) <==> prior@.dom().contains(k) || k
                            == was[i as int]);
                    }
                }
                assert forall|k: Seq<char>| #[trigger] active.has(k) implies start.has(k)
                    && active.at(k)@ == start.at(k)@ by {
                    if k == was[i as int] {
                        crate::table::lemma_at(start, i as int);
                        assert(active@[k] == active.at(k));
                    } else if stays(*old(self), *found, was[i as int]) {
                        assert(active@.dom().contains(k));
                        assert(prior@.dom().contains(k));
                        assert(active@[k] == prior@[k]);
                        assert(prior.has(k));
                    }
                }
            }
            i += 1;
        }
        assert(was.take(was.len() as int) =~= was);
        let ghost kept = active;
        let ghost names = names_view(added@);
        let mut j: usize = 0;
        while j < added.len()
            invariant
                self.wf(),
                active.wf(),
                found.wf(),
                *self == *old(self),
                start == self.active_tickers,
                names == names_view(added@),
                j <= added.len(),
                forall|k: Seq<char>| #[trigger]
                    names.contains(k) <==> found.has(k) && !start.has(k),
                forall|k: Seq<char>| #[trigger]
                    kept.has(k) <==> start.has(k) && stays(*old(self), *found, k),
                forall|k: Seq<char>| #[trigger]
                    active.has(k) <==> kept.has(k) || names.take(j as int).contains(k),
                forall|k: Seq<char>| #[trigger]
                    active.has(k) ==> active.at(k)@ == if start.has(k) {
                        start.at(k)@
                    } else {
                        found.at(k)@
                    },
            decreases added.len() - j,
        {
            let ghost prior = active;
            proof {
                assert(names[j as int] == added@[j as int]@);
                assert(names.contains(names[j as int]));
            }
            match found.get(added[j].as_str()) {
                Some(category) => {
                    active.insert(added[j].clone(), category.clone());
                },
                None => {},
            }
            proof {
                let name = names[j as int];
                assert(found.has(name) && !start.has(name));
                assert forall|k: Seq<char>| #[trigger]
                    active.has(k) <==> kept.has(k) || names.take(j + 1).contains(k) by {
                    crate::trader::lemma_take_contains(names, j as int, k);
                    assert(prior.has(k) <==> kept.has(k) || names.take(j as int).contains(k));
                    assert(active@.dom().contains(k) <==> prior@.dom().contains(k) || k == name);
                }
                assert forall|k: Seq<char>| #[trigger] active.has(k) implies active.at(k)@
                    == if start.has(k) {
                    start.at(k)@
                } else {
                    found.at(k)@
                } by {
                    assert(active@.dom().contains(k));
                    assert(active@[k] == active.at(k));
                    if k != name {
                        assert(prior@.dom().contains(k));
                        assert(active@[k] == prior@[k]);
                        assert(prior.has(k));
                    }
                }
            }
            j += 1;
        }
        proof {
            assert(names.take(names.len() as int) =~= names);
            assert forall|k: Seq<char>| #[trigger]
                active.has(k) <==> stays(*old(self), *found, k) by {
                assert(active.has(k) <==> kept.has(k) || names.contains(k));
            }
        }
        self.active_set = set_of(&active);
        self.ladders = Ladders::build(&names_of(&active));
        self.active_tickers = active;
        Refresh { added, pruned }
    }
}

/// Names that another table lacks are distinct where the names are.
proof fn lemma_without_distinct<V>(keys: Seq<Seq<char>>, other: Table<V>)
    requires
        keys.no_duplicates(),
    ensures
        names_without(keys, other).no_duplicates(),
    decreases keys.len(),
{
    if keys.len() > 0 {
        let rest = keys.drop_last();
        lemma_without_distinct(rest, other);
        let a = names_without(rest, other);
        if !other.has(keys.last()) {
            lemma_names_without(rest, other, keys.last());
            assert(!rest.contains(keys.last())) by {
                if rest.contains(keys.last()) {
                    let i = choose|i: int| 0 <= i < rest.len() && rest[i] == keys.last();
                    assert(keys[i] == keys[keys.len() - 1]);
                }
            }
            let b = a.push(keys.last());
            assert forall|i: int, j: int| 0 <= i < b.len() && 0 <= j < b.len() && i
                != j implies b[i] != b[j] by {
                if i == a.len() {
                    assert(a.contains(a[j]));
                } else if j == a.len() {
                    assert(a.contains(a[i]));
                }
            }
        }
    }
}

// --- one market --------------------------------------------------------------

/// The market that a reply describes; nothing where it describes none.
pub open spec fn market_in(reply: JsonView) -> JsonView {
    match reply.field("market"@) {
        Some(m) => m,
        None => JsonView::Null,
    }
}

/// The market before a step: as it was, or new with its category.
pub open spec fn base_of(t: Trader, ticker: Seq<char>, category: Seq<char>, base: TickerState) -> bool {
    if t.state.tickers.has(ticker) {
        base == t.state.tickers.at(ticker)
    } else {
        is_fresh(base, category)
    }
}

/// A market with the details that a reply states: its price step, and its
/// close where the reply names one. Without a reply the step is a cent.
pub open spec fn with_details(base: TickerState, reply: Option<JsonView>) -> TickerState {
    match reply {
        Some(v) => TickerState {
            tick: tick_of(market_in(v)) as i64,
            close_time_s: match close_of(market_in(v)) {
                Some(t) => Some(t),
                None => base.close_time_s,
            },
            ..base
        },
        None => TickerState { tick: PENNY, ..base },
    }
}

/// The payload of a book reply: the book in it, or the reply itself.
pub open spec fn payload_in(reply: JsonView) -> JsonView {
    match reply.field("orderbook"@) {
        Some(book) => book,
        None => reply,
    }
}

/// A book before and after a snapshot.
pub open spec fn snapshot_taken(before: Book, after: Book, payload: JsonView) -> bool {
    &&& after.wf()
    &&& level_map(after.yes()) == replaced(
        first_field(payload, "yes_dollars_fp"@, "yes_dollars"@, "yes"@),
        level_map(before.yes()),
    )
    &&& level_map(after.no()) == replaced(
        first_field(payload, "no_dollars_fp"@, "no_dollars"@, "no"@),
        level_map(before.no()),
    )
}

/// The trader before and after one market was replaced or made.
pub open spec fn put_market(before: Trader, after: Trader, ticker: Seq<char>) -> bool {
    &&& after.state.tickers@ == before.state.tickers@.insert(
        ticker,
        after.state.tickers.at(ticker),
    )
    &&& after == (Trader {
        state: TraderState { tickers: after.state.tickers, ..before.state },
        ..before
    })
}

impl Trader {
    /// Takes the details of a market from a reply, or from none where the
    /// request failed. True where the step is a tenth of a cent or finer.
    pub fn set_market_details(&mut self, ticker: &str, category: &str, reply: Option<&Json>) -> (r:
        bool)
        requires
            old(self).wf(),
        ensures
            final(self).wf(),
            put_market(*old(self), *final(self), ticker@),
            exists|base: TickerState| #[trigger]
                base_of(*old(self), ticker@, category@, base) && final(self).state.tickers.at(
                    ticker@,
                ) == with_details(base, crate::json::seen(reply)),
            r == (reply is Some && final(self).state.tickers.at(ticker@).tick
                <= crate::book::MD_NANO),
    {
        let ts = self.state.ticker(ticker, category);
        let ghost base = *ts;
        let mut fine = false;
        match reply {
            Some(v) => {
                let nothing = Json::Null;
                let market = match v.get("market") {
                    Some(m) => m,
                    None => &nothing,
                };
                ts.tick = read_tick(market);
                fine = ts.tick <= crate::book::MD_NANO;
                match read_close(market) {
                    Some(t) => {
                        ts.close_time_s = Some(t);
                    },
                    None => {},
                }
            },
            None => {
                ts.tick = PENNY;
            },
        }
        proof {
            assert(base_of(*old(self), ticker@, category@, base));
            assert(self.state.tickers@.dom().contains(ticker@));
            assert(self.state.tickers@[ticker@] == self.state.tickers.at(ticker@));
        }
        fine
    }

    /// Takes a market's book from a reply, as the ground for the changes to
    /// come.
    pub fn load_book(&mut self, ticker: &str, category: &str, reply: &Json)
        requires
            old(self).wf(),
        ensures
            final(self).wf(),
            put_market(*old(self), *final(self), ticker@),
            exists|base: TickerState| #[trigger]
                base_of(*old(self), ticker@, category@, base) && snapshot_taken(
                    base.book,
                    final(self).state.tickers.at(ticker@).book,
                    payload_in(reply@),
                ) && final(self).state.tickers.at(ticker@) == (TickerState {
                    book: final(self).state.tickers.at(ticker@).book,
                    ..base
                }),
    {
        let ts = self.state.ticker(ticker, category);
        let ghost base = *ts;
        let payload = match reply.get("orderbook") {
            Some(book) => book,
            None => reply,
        };
        ts.book.load_snapshot(payload);
        proof {
            assert(base_of(*old(self), ticker@, category@, base));
            assert(self.state.tickers@.dom().contains(ticker@));
            assert(self.state.tickers@[ticker@] == self.state.tickers.at(ticker@));
        }
    }
}

/// The book in a polled reply; nothing where it holds none. It goes the way of
/// any book message.
pub fn polled_book(reply: &Json) -> (r: Json)
    ensures
        r@ == match reply@.field("orderbook"@) {
            Some(book) => book,
            None => JsonView::Null,
        },
{
    match reply.get("orderbook") {
        Some(book) => book.copy(),
        None => Json::Null,
    }
}

// --- the spot product --------------------------------------------------------

/// The first product in order among the first `n` categories.
pub open spec fn first_product(categories: Seq<CategoryConfig>, n: int) -> Option<Seq<char>>
    decreases n,
{
    if n <= 0 {
        None
    } else {
        let so_far = first_product(categories, n - 1);
        match (categories[n - 1].spot_feed, so_far) {
            (Some(p), Some(q)) => if before(p@, q) {
                Some(p@)
            } else {
                so_far
            },
            (Some(p), None) => Some(p@),
            (None, _) => so_far,
        }
    }
}

/// Two categories follow different products.
pub open spec fn products_differ(categories: Seq<CategoryConfig>) -> bool {
    exists|i: int, j: int|
        0 <= i < categories.len() && 0 <= j < categories.len() && (#[trigger] categories[i]).spot_feed
            is Some && (#[trigger] categories[j]).spot_feed is Some
            && categories[i].spot_feed->Some_0@ != categories[j].spot_feed->Some_0@
}

/// The spot product to follow: the first in order, since only one is followed.
/// True where there are others.
pub fn spot_product(categories: &Vec<CategoryConfig>) -> (r: (Option<String>, bool))
    ensures
        crate::state::text_view(r.0) == first_product(categories@, categories@.len() as int),
        r.1 == products_differ(categories@),
{
    let mut first: Option<String> = None;
    let mut differ = false;
    let mut i: usize = 0;
    while i < categories.len()
        invariant
            i <= categories.len(),
            crate::state::text_view(first) == first_product(categories@, i as int),
            first is None ==> forall|j: int|
                0 <= j < i ==> (#[trigger] categories@[j]).spot_feed is None,
            first matches Some(f) ==> exists|j: int|
                0 <= j < i && (#[trigger] categories@[j]).spot_feed is Some
                    && categories@[j].spot_feed->Some_0@ == f@,
            differ ==> products_differ(categories@),
            !differ ==> forall|j: int|
                0 <= j < i && (#[trigger] categories@[j]).spot_feed is Some ==> first is Some
                    && categories@[j].spot_feed->Some_0@ == first->Some_0@,
        decreases categories.len() - i,
    {
        let ghost c = categories@[i as int];
        match &categories[i].spot_feed {
            Some(p) => {
                match &first {
                    Some(q) => {
                        if !same(p.as_str(), q.as_str()) {
                            proof {
                                let j = choose|j: int|
                                    0 <= j < i && (#[trigger] categories@[j]).spot_feed is Some
                                        && categories@[j].spot_feed->Some_0@ == q@;
                                assert(categories@[j].spot_feed is Some);
                                assert(categories@[i as int].spot_feed is Some);
                            }
                            differ = true;
                            if less(p.as_str(), q.as_str()) {
                                first = Some(p.clone());
                            }
                        } else {
                            proof {
                                lemma_not_before_itself(p@);
                            }
                        }
                    },
                    None => {
                        first = Some(p.clone());
                    },
                }
            },
            None => {},
        }
        assert(categories@[i as int] == c);
        i += 1;
    }
    proof {
        if !differ && products_differ(categories@) {
            let (a, b) = choose|a: int, b: int|
                0 <= a < categories@.len() && 0 <= b < categories@.len() && (
                #[trigger] categories@[a]).spot_feed is Some && (
                #[trigger] categories@[b]).spot_feed is Some
                    && categories@[a].spot_feed->Some_0@ != categories@[b].spot_feed->Some_0@;
            assert(categories@[a].spot_feed is Some);
            assert(categories@[b].spot_feed is Some);
        }
    }
    (first, differ)
}

/// No text comes before itself.
proof fn lemma_not_before_itself(s: Seq<char>)
    ensures
        !before(s, s),
    decreases s.len(),
{
    if s.len() > 0 {
        lemma_not_before_itself(s.drop_first());
    }
}

// --- laws --------------------------------------------------------------------

/// A market that holds a position stays, even when it is no longer open, so
/// that its settlement finds its category.
pub proof fn law_held_markets_stay(t: Trader, found: Table<String>, k: Seq<char>)
    requires
        t.active_tickers.has(k),
        held(t.state.tickers, k) != 0,
    ensures
        stays(t, found, k),
{
}

/// When all open markets are replaced by others and nothing is held, the
/// markets quoted are the new ones: the trader does not stay with dead ones.
pub proof fn law_rollover(t: Trader, found: Table<String>, k: Seq<char>)
    requires
        forall|x: Seq<char>| t.active_tickers.has(x) ==> held(t.state.tickers, x) == 0,
    ensures
        stays(t, found, k) <==> found.has(k),
{
}

} // verus!
