//! Reading lists page by page: which page to ask for next, and when to stop.

use vstd::prelude::*;

use crate::api::{counted, optional, reads, Call, KalshiClient, ParamView};
use crate::json::{Json, JsonView};
use crate::replies::{
    add_markets, categories_view, count_markets, cursor_in, list_in, next_cursor, with_markets, FillHistory,
};
use crate::table::Table;
use crate::upkeep::{fills_mark, fills_since};

verus! {

/// The most pages that are read of one category's markets.
pub const MARKET_PAGES: u32 = 50;

/// The most pages that are read of the latest fills.
pub const FILL_PAGES: u32 = 25;

/// The most pages that are read of one market's fills.
pub const HISTORY_PAGES: u32 = 10;

/// The entries of a page.
pub const PAGE_SIZE: u32 = 200;

/// A list before and after a page of it came.
pub open spec fn page_read(before: Pages, after: Pages, reply: JsonView) -> bool {
    &&& crate::state::text_view(after.cursor) == cursor_in(reply)
    &&& after.left == before.left - 1
    &&& after.done == (cursor_in(reply) is None || before.left == 1)
    &&& after.failed == before.failed
}

/// How far a list was read.
pub struct Pages {
    /// The cursor of the page to ask for; none for the first.
    pub cursor: Option<String>,
    /// The pages that may still be read: a cursor that never clears must not
    /// keep the reader busy.
    pub left: u32,
    /// There is nothing more to ask for.
    pub done: bool,
    /// A page could not be read.
    pub failed: bool,
}

impl Pages {
    /// While there is more to ask for, a page is left.
    pub open spec fn wf(&self) -> bool {
        self.left == 0 ==> self.done
    }

    /// A list of which nothing was read.
    pub fn new(limit: u32) -> (r: Self)
        ensures
            r.wf(),
            r.cursor is None,
            r.left == limit,
            r.done == (limit == 0),
            !r.failed,
    {
        Pages { cursor: None, left: limit, done: limit == 0, failed: false }
    }

    /// A page came: the next one is the one that its cursor names. A blank or
    /// missing cursor is that of the last page.
    pub fn on_page(&mut self, reply: &Json)
        requires
            old(self).wf(),
            !old(self).done,
        ensures
            final(self).wf(),
            page_read(*old(self), *final(self), reply@),
    {
        self.cursor = next_cursor(reply);
        self.left = self.left - 1;
        self.done = self.cursor.is_none() || self.left == 0;
    }

    /// A page could not be read: the reading ends.
    pub fn on_error(&mut self)
        ensures
            final(self).wf(),
            final(self).done,
            final(self).failed,
            final(self).cursor == old(self).cursor,
            final(self).left == old(self).left,
    {
        self.done = true;
        self.failed = true;
    }

    /// The cursor of the page to ask for.
    fn at(&self) -> (r: Option<&str>)
        ensures
            optional_view(r) == crate::state::text_view(self.cursor),
    {
        match &self.cursor {
            Some(c) => Some(c.as_str()),
            None => None,
        }
    }
}

/// An optional text by its characters.
pub open spec fn optional_view(v: Option<&str>) -> Option<Seq<char>> {
    match v {
        Some(s) => Some(s@),
        None => None,
    }
}

/// One parameter, where there is a value for it.
pub open spec fn param(key: Seq<char>, value: Option<Seq<char>>) -> Seq<ParamView> {
    match value {
        Some(v) => seq![ParamView { key, value: v }],
        None => seq![],
    }
}

/// No more pages are read than were allowed at the start, whatever the cursors
/// say: `steps` are the states of a reading and `replies` the pages that came
/// between them.
pub proof fn law_reading_ends(steps: Seq<Pages>, replies: Seq<JsonView>)
    requires
        steps.len() == replies.len() + 1,
        forall|i: int| 0 <= i < steps.len() ==> (#[trigger] steps[i]).wf(),
        forall|i: int|
            0 <= i < replies.len() ==> !(#[trigger] steps[i]).done && page_read(
                steps[i],
                steps[i + 1],
                replies[i],
            ),
    ensures
        replies.len() <= steps[0].left,
        replies.len() == steps[0].left ==> steps.last().done,
    decreases replies.len(),
{
    if replies.len() > 0 {
        let rest = steps.drop_first();
        let later = replies.drop_first();
        assert(steps[0].wf());
        assert forall|i: int| 0 <= i < later.len() implies !(#[trigger] rest[i]).done && page_read(
            rest[i],
            rest[i + 1],
            later[i],
        ) by {
            assert(rest[i] == steps[i + 1]);
            assert(rest[i + 1] == steps[i + 2]);
        }
        law_reading_ends(rest, later);
        assert(rest[0] == steps[1]);
    } else {
        assert(steps[0].wf());
    }
}

// --- discovery ---------------------------------------------------------------

/// A search for the open markets of some categories, one after the other.
pub struct Discovery {
    pub categories: Vec<String>,
    /// The category that is read.
    pub at: usize,
    pub pages: Pages,
    /// The category of every market found.
    pub found: Table<String>,
}

/// The request for a page of a category's open markets.
pub open spec fn markets_call(call: Call, category: Seq<char>, cursor: Option<Seq<char>>) -> bool {
    reads(
        call,
        "/markets"@,
        counted("limit"@, PAGE_SIZE as int) + param("cursor"@, cursor) + param(
            "series_ticker"@,
            Some(category),
        ) + param("status"@, Some("open"@)),
    )
}

impl Discovery {
    /// The category at hand exists unless the search is over, and it is not
    /// read to its end.
    pub open spec fn wf(&self) -> bool {
        &&& self.at <= self.categories@.len()
        &&& self.pages.wf()
        &&& self.at < self.categories@.len() ==> !self.pages.done
        &&& self.found.wf()
    }

    /// The category at hand.
    pub open spec fn category(&self) -> Seq<char> {
        self.categories@[self.at as int]@
    }

    /// A search that has found nothing yet.
    pub fn new(categories: Vec<String>) -> (r: Self)
        ensures
            r.wf(),
            r.categories == categories,
            r.at == 0,
            r.pages.cursor is None,
            r.pages.left == MARKET_PAGES,
            !r.pages.done,
            !r.pages.failed,
            r.found.keys() == Seq::<Seq<char>>::empty(),
    {
        Discovery { categories, at: 0, pages: Pages::new(MARKET_PAGES), found: Table::new() }
    }

    /// The next request; none where the search is over.
    pub fn next_call(&self) -> (r: Option<Call>)
        requires
            self.wf(),
        ensures
            r is Some <==> self.at < self.categories@.len(),
            r matches Some(call) ==> markets_call(
                call,
                self.category(),
                crate::state::text_view(self.pages.cursor),
            ),
    {
        if self.at >= self.categories.len() {
            return None;
        }
        let cursor = self.pages.at();
        let category = self.categories[self.at].as_str();
        let call = KalshiClient::get_markets(Some(category), Some("open"), PAGE_SIZE, cursor);
        assert(optional("cursor"@, cursor) =~= param("cursor"@, optional_view(cursor)));
        assert(optional("series_ticker"@, Some(category)) =~= param(
            "series_ticker"@,
            Some(category@),
        ));
        assert(optional("status"@, Some("open")) =~= param("status"@, Some("open"@)));
        Some(call)
    }

    /// Goes on to the next category where this one is read.
    fn advance(&mut self)
        requires
            old(self).at < old(self).categories@.len(),
            old(self).pages.wf(),
            old(self).found.wf(),
        ensures
            final(self).wf(),
            final(self).categories == old(self).categories,
            final(self).found == old(self).found,
            !old(self).pages.done ==> *final(self) == *old(self),
            old(self).pages.done ==> {
                &&& final(self).at == old(self).at + 1
                &&& final(self).pages.cursor is None
                &&& final(self).pages.left == MARKET_PAGES
            },
    {
        if self.pages.done && self.at < self.categories.len() {
            self.at = self.at + 1;
            self.pages = Pages::new(MARKET_PAGES);
        }
    }

    /// A page of the category at hand came; returns how many of its markets
    /// belong to the category.
    pub fn on_page(&mut self, reply: &Json) -> (r: usize)
        requires
            old(self).wf(),
            old(self).at < old(self).categories@.len(),
        ensures
            final(self).wf(),
            final(self).categories == old(self).categories,
            categories_view(final(self).found@) == with_markets(
                categories_view(old(self).found@),
                list_in(reply@.field("markets"@)),
                old(self).category(),
            ),
            r == count_markets(list_in(reply@.field("markets"@)), old(self).category()),
            if cursor_in(reply@) is None || old(self).pages.left == 1 {
                &&& final(self).at == old(self).at + 1
                &&& final(self).pages.cursor is None
                &&& final(self).pages.left == MARKET_PAGES
            } else {
                &&& final(self).at == old(self).at
                &&& crate::state::text_view(final(self).pages.cursor) == cursor_in(reply@)
                &&& final(self).pages.left == old(self).pages.left - 1
            },
    {
        let n: usize = add_markets(&mut self.found, reply, self.categories[self.at].as_str());
        self.pages.on_page(reply);
        self.advance();
        n
    }

    /// A page of the category at hand could not be read: what was found of it
    /// stays, and the next category follows.
    pub fn on_error(&mut self)
        requires
            old(self).wf(),
            old(self).at < old(self).categories@.len(),
        ensures
            final(self).wf(),
            final(self).categories == old(self).categories,
            final(self).found == old(self).found,
            final(self).at == old(self).at + 1,
            final(self).pages.cursor is None,
            final(self).pages.left == MARKET_PAGES,
    {
        self.pages.on_error();
        self.advance();
    }
}

// --- fills -------------------------------------------------------------------

/// The request for a page of fills.
pub open spec fn fills_call(
    call: Call,
    since: int,
    cursor: Option<Seq<char>>,
    ticker: Option<Seq<char>>,
) -> bool {
    reads(
        call,
        "/portfolio/fills"@,
        counted("limit"@, PAGE_SIZE as int) + counted("min_ts"@, since) + param("cursor"@, cursor)
            + param("ticker"@, ticker),
    )
}

/// Asks for a page of fills.
fn ask_fills(since: i64, pages: &Pages, ticker: Option<&str>) -> (r: Call)
    ensures
        fills_call(
            r,
            since as int,
            crate::state::text_view(pages.cursor),
            optional_view(ticker),
        ),
{
    let cursor = pages.at();
    let call = KalshiClient::get_fills(since, PAGE_SIZE, cursor, ticker);
    assert(optional("cursor"@, cursor) =~= param("cursor"@, optional_view(cursor)));
    assert(optional("ticker"@, ticker) =~= param("ticker"@, optional_view(ticker)));
    call
}

/// A sweep over the fills since the last clean one.
pub struct FillSweep {
    pub last: i64,
    pub pages: Pages,
}

impl FillSweep {
    /// The pages are in order.
    pub open spec fn wf(&self) -> bool {
        self.pages.wf()
    }

    /// A sweep from a mark on, in seconds.
    pub fn new(last: i64) -> (r: Self)
        ensures
            r.wf(),
            r.last == last,
            !r.pages.done,
            r.pages.cursor is None,
            r.pages.left == FILL_PAGES,
            !r.pages.failed,
    {
        FillSweep { last, pages: Pages::new(FILL_PAGES) }
    }

    /// The next request; none where the sweep is over. It reaches back beyond
    /// the mark, and fills seen before are known by their ids.
    pub fn next_call(&self) -> (r: Option<Call>)
        ensures
            r is Some <==> !self.pages.done,
            r matches Some(call) ==> fills_call(
                call,
                crate::num::clamp64(self.last - crate::upkeep::FILL_OVERLAP),
                crate::state::text_view(self.pages.cursor),
                None,
            ),
    {
        if self.pages.done {
            return None;
        }
        Some(ask_fills(fills_since(self.last), &self.pages, None))
    }

    /// A page came; its fills are booked by the trader.
    pub fn on_page(&mut self, reply: &Json)
        requires
            old(self).wf(),
            !old(self).pages.done,
        ensures
            final(self).wf(),
            final(self).last == old(self).last,
            crate::state::text_view(final(self).pages.cursor) == cursor_in(reply@),
            final(self).pages.left == old(self).pages.left - 1,
            final(self).pages.done == (cursor_in(reply@) is None || old(self).pages.left == 1),
            final(self).pages.failed == old(self).pages.failed,
    {
        self.pages.on_page(reply);
    }

    /// A page could not be read: the sweep ends and the mark stays.
    pub fn on_error(&mut self)
        ensures
            final(self).wf(),
            final(self).last == old(self).last,
            final(self).pages.done,
            final(self).pages.failed,
    {
        self.pages.on_error();
    }

    /// The mark after the sweep: now, or as before where a page failed.
    pub fn mark(&self, now: i64) -> (r: i64)
        ensures
            r == if self.pages.failed {
                self.last
            } else {
                now
            },
    {
        fills_mark(self.last, now, !self.pages.failed)
    }
}

/// A reading of all fills of one market.
pub struct HistorySweep {
    pub ticker: String,
    pub pages: Pages,
    pub history: FillHistory,
}

impl HistorySweep {
    /// The pages are in order, and so are the fills.
    pub open spec fn wf(&self) -> bool {
        self.pages.wf() && self.history.wf()
    }

    /// A reading that has read nothing yet.
    pub fn new(ticker: &str) -> (r: Self)
        ensures
            r.wf(),
            r.ticker@ == ticker@,
            !r.pages.done,
            r.pages.cursor is None,
            r.pages.left == HISTORY_PAGES,
            !r.pages.failed,
            r.history.timed() == Seq::<crate::replies::TimedView>::empty(),
            r.history.list() == Seq::<crate::state::NormalizedFill>::empty(),
    {
        HistorySweep {
            ticker: ticker.to_string(),
            pages: Pages::new(HISTORY_PAGES),
            history: FillHistory::new(),
        }
    }

    /// The next request; none where the reading is over.
    pub fn next_call(&self) -> (r: Option<Call>)
        ensures
            r is Some <==> !self.pages.done,
            r matches Some(call) ==> fills_call(
                call,
                0,
                crate::state::text_view(self.pages.cursor),
                Some(self.ticker@),
            ),
    {
        if self.pages.done {
            return None;
        }
        Some(ask_fills(0, &self.pages, Some(self.ticker.as_str())))
    }

    /// A page came.
    pub fn on_page(&mut self, reply: &Json)
        requires
            old(self).wf(),
            !old(self).pages.done,
        ensures
            final(self).wf(),
            final(self).ticker == old(self).ticker,
            final(self).history.timed() == crate::replies::history_of(
                old(self).history.timed(),
                list_in(reply@.field("fills"@)),
            ),
            crate::state::text_view(final(self).pages.cursor) == cursor_in(reply@),
            final(self).pages.left == old(self).pages.left - 1,
            final(self).pages.done == (cursor_in(reply@) is None || old(self).pages.left == 1),
            final(self).pages.failed == old(self).pages.failed,
    {
        self.history.add_page(reply);
        self.pages.on_page(reply);
    }
}

} // verus!
